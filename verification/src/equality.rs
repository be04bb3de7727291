//! Equality of values: two values are equal where they denote the same
//! tree, whatever the order in which an object lists its members.
use vstd::prelude::*;
use vstd::std_specs::cmp::PartialEqSpecImpl;
use crate::value::{
    elements_view, find_member, lemma_elements_view, lemma_members_view_keys,
    lemma_members_view_last, member_keys, members_view, JsonValue,
};

verus! {

/// Whether two lists of elements denote the same values in the same order.
fn elements_equal(a: &Vec<JsonValue>, b: &Vec<JsonValue>) -> (same: bool)
    ensures
        same == (elements_view(a@) == elements_view(b@)),
    decreases a,
{
    proof {
        lemma_elements_view(a@);
        lemma_elements_view(b@);
    }
    if a.len() != b.len() {
        return false;
    }
    let mut i: usize = 0;
    while i < a.len()
        invariant
            i <= a@.len(),
            a@.len() == b@.len(),
            forall|k: int| 0 <= k < i ==> (#[trigger] a@[k])@ == b@[k]@,
            forall|k: int| 0 <= k < a@.len() ==> (#[trigger] elements_view(a@)[k]) == a@[k]@,
            forall|k: int| 0 <= k < b@.len() ==> (#[trigger] elements_view(b@)[k]) == b@[k]@,
            elements_view(a@).len() == a@.len(),
            elements_view(b@).len() == b@.len(),
        decreases a@.len() - i,
    {
        if !a[i].equals(&b[i]) {
            assert(elements_view(a@)[i as int] != elements_view(b@)[i as int]);
            return false;
        }
        i += 1;
    }
    assert(elements_view(a@) =~= elements_view(b@));
    true
}

/// Whether two lists of members denote the same map.
fn members_equal(a: &Vec<(String, JsonValue)>, b: &Vec<(String, JsonValue)>) -> (same: bool)
    ensures
        same == (members_view(a@) == members_view(b@)),
    decreases a,
{
    let ghost left = members_view(a@);
    let ghost right = members_view(b@);
    let mut i: usize = 0;
    while i < a.len()
        invariant
            i <= a@.len(),
            left == members_view(a@),
            right == members_view(b@),
            forall|k: int|
                0 <= k < i ==> left.contains_key((#[trigger] a@[k]).0@) && right.contains_key(
                    a@[k].0@,
                ) && left[a@[k].0@] == right[a@[k].0@],
        decreases a@.len() - i,
    {
        let key = &a[i].0;
        match (find_member(a, key), find_member(b, key)) {
            (Some(in_a), Some(in_b)) => {
                proof {
                    lemma_members_view_last(a@, in_a as int);
                    lemma_members_view_last(b@, in_b as int);
                }
                if !a[in_a].1.equals(&b[in_b].1) {
                    assert(left[key@] != right[key@]);
                    return false;
                }
            },
            (Some(in_a), None) => {
                proof {
                    lemma_members_view_last(a@, in_a as int);
                    lemma_members_view_keys(b@);
                    if member_keys(b@).contains(key@) {
                        let k = choose|k: int| 0 <= k < b@.len() && member_keys(b@)[k] == key@;
                        assert(b@[k].0@ == key@);
                    }
                    assert(left.contains_key(key@) && !right.contains_key(key@));
                }
                return false;
            },
            (None, _) => {
                assert(a@[i as int].0@ == key@);
                return false;
            },
        }
        i += 1;
    }
    let mut j: usize = 0;
    while j < b.len()
        invariant
            j <= b@.len(),
            left == members_view(a@),
            right == members_view(b@),
            forall|k: int| 0 <= k < j ==> left.contains_key((#[trigger] b@[k]).0@),
            forall|k: int|
                0 <= k < a@.len() ==> left.contains_key((#[trigger] a@[k]).0@)
                    && right.contains_key(a@[k].0@) && left[a@[k].0@] == right[a@[k].0@],
        decreases b@.len() - j,
    {
        let key = &b[j].0;
        match find_member(a, key) {
            Some(in_a) => {
                proof {
                    lemma_members_view_last(a@, in_a as int);
                }
            },
            None => {
                proof {
                    lemma_members_view_keys(a@);
                    lemma_members_view_keys(b@);
                    if member_keys(a@).contains(key@) {
                        let k = choose|k: int| 0 <= k < a@.len() && member_keys(a@)[k] == key@;
                        assert(a@[k].0@ == key@);
                    }
                    assert(member_keys(b@)[j as int] == key@);
                    assert(member_keys(b@).contains(key@));
                    assert(right.contains_key(key@) && !left.contains_key(key@));
                }
                return false;
            },
        }
        j += 1;
    }
    proof {
        lemma_members_view_keys(a@);
        lemma_members_view_keys(b@);
        assert forall|key: Seq<char>| #[trigger] left.contains_key(key) implies right.contains_key(
            key,
        ) && left[key] == right[key] by {
            assert(member_keys(a@).contains(key));
            let k = choose|k: int| 0 <= k < a@.len() && member_keys(a@)[k] == key;
            assert(a@[k].0@ == key);
        }
        assert forall|key: Seq<char>| #[trigger] right.contains_key(key) implies left.contains_key(
            key,
        ) by {
            assert(member_keys(b@).contains(key));
            let k = choose|k: int| 0 <= k < b@.len() && member_keys(b@)[k] == key;
            assert(b@[k].0@ == key);
        }
        assert(left =~= right);
    }
    true
}

impl JsonValue {
    /// Whether two values denote the same tree: objects are compared as
    /// maps, arrays element by element.
    pub fn equals(&self, other: &JsonValue) -> (same: bool)
        ensures
            same == (self@ == other@),
        decreases self,
    {
        match (self, other) {
            (JsonValue::Object(a), JsonValue::Object(b)) => members_equal(a, b),
            (JsonValue::JString(a), JsonValue::JString(b)) => *a == *b,
            (JsonValue::Array(a), JsonValue::Array(b)) => elements_equal(a, b),
            (JsonValue::Boolean(a), JsonValue::Boolean(b)) => *a == *b,
            (JsonValue::Number(a), JsonValue::Number(b)) => *a == *b,
            (JsonValue::Null, JsonValue::Null) => true,
            _ => false,
        }
    }
}

impl PartialEq for JsonValue {
    fn eq(&self, other: &JsonValue) -> (same: bool) {
        self.equals(other)
    }
}

impl PartialEqSpecImpl for JsonValue {
    open spec fn obeys_eq_spec() -> bool {
        true
    }

    open spec fn eq_spec(&self, other: &JsonValue) -> bool {
        self@ == other@
    }
}

} // verus!
