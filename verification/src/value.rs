//! The tree of values that a parse produces.
use vstd::prelude::*;

verus! {

/// A JSON value.
///
/// An object is a list of members; of two members with one key the later
/// one counts.  The parser builds objects in which no key occurs twice
/// (`well_formed`), with the members in the order in which their keys first
/// appeared.  A number keeps its decimal literal.
#[derive(Debug)]
pub enum JsonValue {
    Object(Vec<(String, JsonValue)>),
    JString(String),
    Array(Vec<JsonValue>),
    Boolean(bool),
    Number(String),
    Null,
}

/// The mathematical value of a [`JsonValue`]: an object is a finite map.
pub enum ValueView {
    Object(Map<Seq<char>, ValueView>),
    JString(Seq<char>),
    Array(Seq<ValueView>),
    Boolean(bool),
    Number(Seq<char>),
    Null,
}

/// The map that a list of members stands for; of two members with one key
/// the later one counts.
pub open spec fn members_view(members: Seq<(String, JsonValue)>) -> Map<Seq<char>, ValueView>
    decreases members, 0int,
{
    if members.len() == 0 {
        Map::empty()
    } else {
        members_view(members.drop_last()).insert(members.last().0@, members.last().1.view())
    }
}

/// The values of a list of elements, in order.
pub open spec fn elements_view(elements: Seq<JsonValue>) -> Seq<ValueView>
    decreases elements, 0int,
{
    if elements.len() == 0 {
        Seq::empty()
    } else {
        elements_view(elements.drop_last()).push(elements.last().view())
    }
}

impl View for JsonValue {
    type V = ValueView;

    open spec fn view(&self) -> ValueView
        decreases self, 1int,
    {
        match self {
            JsonValue::Object(members) => ValueView::Object(members_view(members@)),
            JsonValue::JString(s) => ValueView::JString(s@),
            JsonValue::Array(elements) => ValueView::Array(elements_view(elements@)),
            JsonValue::Boolean(b) => ValueView::Boolean(*b),
            JsonValue::Number(s) => ValueView::Number(s@),
            JsonValue::Null => ValueView::Null,
        }
    }
}

/// The keys of a list of members, in order.
pub open spec fn member_keys(members: Seq<(String, JsonValue)>) -> Seq<Seq<char>> {
    Seq::new(members.len(), |i: int| members[i].0@)
}

/// No key occurs twice.
pub open spec fn distinct_keys(members: Seq<(String, JsonValue)>) -> bool {
    forall|i: int, j: int|
        0 <= i < j < members.len() ==> (#[trigger] members[i]).0@ != (#[trigger] members[j]).0@
}

/// Every member's value is well formed.
pub open spec fn well_formed_members(members: Seq<(String, JsonValue)>) -> bool {
    forall|i: int| 0 <= i < members.len() ==> (#[trigger] members[i]).1.well_formed()
}

impl JsonValue {
    /// Throughout the tree, no object holds a key twice.
    pub open spec fn well_formed(&self) -> bool
        decreases self,
    {
        match self {
            JsonValue::Object(members) => {
                &&& distinct_keys(members@)
                &&& forall|i: int|
                    0 <= i < members@.len() ==> (#[trigger] members@[i]).1.well_formed()
            },
            JsonValue::Array(elements) => forall|i: int|
                0 <= i < elements@.len() ==> (#[trigger] elements@[i]).well_formed(),
            _ => true,
        }
    }
}

/// The map of a non-empty list of members is that of the list without its
/// last member, with the last member set.
pub proof fn lemma_members_view_step(members: Seq<(String, JsonValue)>)
    requires
        members.len() > 0,
    ensures
        members_view(members) == members_view(members.drop_last()).insert(
            members.last().0@,
            members.last().1@,
        ),
{
}

/// The map of a list of members holds exactly the keys of the list.
pub proof fn lemma_members_view_keys(members: Seq<(String, JsonValue)>)
    ensures
        forall|key: Seq<char>|
            members_view(members).contains_key(key) <==> member_keys(members).contains(key),
    decreases members.len(),
{
    let keys = member_keys(members);
    if members.len() == 0 {
        assert forall|key: Seq<char>| !keys.contains(key) by {}
    } else {
        let front = members.drop_last();
        let last = members.len() - 1;
        lemma_members_view_keys(front);
        lemma_members_view_step(members);
        assert forall|key: Seq<char>|
            members_view(members).contains_key(key) <==> keys.contains(key) by {
            if keys.contains(key) {
                let i = choose|i: int| 0 <= i < keys.len() && keys[i] == key;
                if i < last {
                    assert(member_keys(front)[i] == key);
                    assert(member_keys(front).contains(key));
                } else {
                    assert(key == members.last().0@);
                }
                assert(members_view(members).contains_key(key));
            }
            if members_view(members).contains_key(key) {
                if key == members.last().0@ {
                    assert(keys[last] == key);
                } else {
                    assert(members_view(front).contains_key(key));
                    assert(member_keys(front).contains(key));
                    let i = choose|i: int| 0 <= i < front.len() && member_keys(front)[i] == key;
                    assert(keys[i] == key);
                }
                assert(keys.contains(key));
            }
        }
    }
}

/// The values of a list of elements stand in the list's order.
pub proof fn lemma_elements_view(elements: Seq<JsonValue>)
    ensures
        elements_view(elements).len() == elements.len(),
        forall|i: int|
            0 <= i < elements.len() ==> (#[trigger] elements_view(elements)[i]) == elements[i]@,
    decreases elements.len(),
{
    if elements.len() > 0 {
        let front = elements.drop_last();
        lemma_elements_view(front);
        assert(elements_view(elements) == elements_view(front).push(elements.last()@));
        assert forall|i: int| 0 <= i < elements.len() implies (#[trigger] elements_view(
            elements,
        )[i]) == elements[i]@ by {
            if i < front.len() {
                assert(front[i] == elements[i]);
            }
        }
    }
}

/// Two lists of members with the same keys and the same values, place by
/// place, stand for the same map.
pub proof fn lemma_members_view_same(a: Seq<(String, JsonValue)>, b: Seq<(String, JsonValue)>)
    requires
        a.len() == b.len(),
        forall|i: int| 0 <= i < a.len() ==> (#[trigger] a[i]).0@ == b[i].0@ && a[i].1@ == b[i].1@,
    ensures
        members_view(a) == members_view(b),
    decreases a.len(),
{
    if a.len() > 0 {
        lemma_members_view_step(a);
        lemma_members_view_step(b);
        let last = a.len() - 1;
        assert(a[last].0@ == b[last].0@ && a[last].1@ == b[last].1@);
        assert forall|i: int| 0 <= i < a.drop_last().len() implies (#[trigger] a.drop_last()[i]).0@
            == b.drop_last()[i].0@ && a.drop_last()[i].1@ == b.drop_last()[i].1@ by {
            assert(a[i].0@ == b[i].0@ && a[i].1@ == b[i].1@);
        }
        lemma_members_view_same(a.drop_last(), b.drop_last());
    }
}

impl Clone for JsonValue {
    /// A copy that denotes the same tree, member by member and element by
    /// element.
    fn clone(&self) -> (copy: JsonValue)
        ensures
            copy@ == self@,
            self.well_formed() ==> copy.well_formed(),
        decreases self,
    {
        match self {
            JsonValue::Object(members) => JsonValue::Object(clone_members(members)),
            JsonValue::JString(s) => JsonValue::JString(s.clone()),
            JsonValue::Array(elements) => JsonValue::Array(clone_elements(elements)),
            JsonValue::Boolean(b) => JsonValue::Boolean(*b),
            JsonValue::Number(s) => JsonValue::Number(s.clone()),
            JsonValue::Null => JsonValue::Null,
        }
    }
}

/// A copy of a list of members, place by place.
fn clone_members(members: &Vec<(String, JsonValue)>) -> (copies: Vec<(String, JsonValue)>)
    ensures
        members_view(copies@) == members_view(members@),
        member_keys(copies@) == member_keys(members@),
        distinct_keys(members@) ==> distinct_keys(copies@),
        well_formed_members(members@) ==> well_formed_members(copies@),
    decreases members,
{
    let mut copies: Vec<(String, JsonValue)> = Vec::new();
    let mut i: usize = 0;
    while i < members.len()
        invariant
            i <= members@.len(),
            copies@.len() == i,
            forall|k: int|
                0 <= k < i ==> (#[trigger] copies@[k]).0@ == members@[k].0@ && copies@[k].1@
                    == members@[k].1@,
            forall|k: int|
                0 <= k < i && members@[k].1.well_formed() ==> (
                #[trigger] copies@[k]).1.well_formed(),
        decreases members@.len() - i,
    {
        let key = members[i].0.clone();
        let value = members[i].1.clone();
        copies.push((key, value));
        i += 1;
    }
    proof {
        lemma_members_view_same(copies@, members@);
        assert(member_keys(copies@) =~= member_keys(members@));
        if distinct_keys(members@) {
            assert forall|a: int, b: int| 0 <= a < b < copies@.len() implies (
            #[trigger] copies@[a]).0@ != (#[trigger] copies@[b]).0@ by {
                assert(members@[a].0@ != members@[b].0@);
            }
        }
    }
    copies
}

/// A copy of a list of elements, place by place.
fn clone_elements(elements: &Vec<JsonValue>) -> (copies: Vec<JsonValue>)
    ensures
        elements_view(copies@) == elements_view(elements@),
        copies@.len() == elements@.len(),
        forall|k: int|
            0 <= k < elements@.len() && elements@[k].well_formed() ==> (
            #[trigger] copies@[k]).well_formed(),
    decreases elements,
{
    let mut copies: Vec<JsonValue> = Vec::new();
    let mut i: usize = 0;
    while i < elements.len()
        invariant
            i <= elements@.len(),
            copies@.len() == i,
            forall|k: int| 0 <= k < i ==> (#[trigger] copies@[k])@ == elements@[k]@,
            forall|k: int|
                0 <= k < i && elements@[k].well_formed() ==> (#[trigger] copies@[k]).well_formed(),
        decreases elements@.len() - i,
    {
        let value = elements[i].clone();
        copies.push(value);
        i += 1;
    }
    proof {
        lemma_elements_view(copies@);
        lemma_elements_view(elements@);
        assert(elements_view(copies@) =~= elements_view(elements@));
    }
    copies
}

/// The map of a list of members gives a key the value of the last member
/// that names it.
pub proof fn lemma_members_view_last(members: Seq<(String, JsonValue)>, at: int)
    requires
        0 <= at < members.len(),
        forall|k: int| at < k < members.len() ==> (#[trigger] members[k]).0@ != members[at].0@,
    ensures
        members_view(members).contains_key(members[at].0@),
        members_view(members)[members[at].0@] == members[at].1@,
    decreases members.len(),
{
    lemma_members_view_step(members);
    if at < members.len() - 1 {
        let front = members.drop_last();
        assert(front[at] == members[at]);
        assert forall|k: int| at < k < front.len() implies (#[trigger] front[k]).0@
            != front[at].0@ by {
            assert(front[k] == members[k]);
        }
        lemma_members_view_last(front, at);
        assert(members[members.len() - 1].0@ != members[at].0@);
    }
}

/// The place of the last member that names `key`, if any does.
pub fn find_member(members: &Vec<(String, JsonValue)>, key: &String) -> (place: Option<usize>)
    ensures
        match place {
            Some(at) => {
                &&& at < members@.len()
                &&& members@[at as int].0@ == key@
                &&& forall|k: int| at < k < members@.len() ==> (#[trigger] members@[k]).0@ != key@
            },
            None => forall|k: int| 0 <= k < members@.len() ==> (#[trigger] members@[k]).0@ != key@,
        },
{
    let mut i: usize = members.len();
    while i > 0
        invariant
            i <= members@.len(),
            forall|k: int| i <= k < members@.len() ==> (#[trigger] members@[k]).0@ != key@,
        decreases i,
    {
        i -= 1;
        if members[i].0 == *key {
            return Some(i);
        }
    }
    None
}

/// The last place at which a list of members names a key that it holds.
pub proof fn lemma_last_place(members: Seq<(String, JsonValue)>, key: Seq<char>) -> (at: int)
    requires
        member_keys(members).contains(key),
    ensures
        0 <= at < members.len(),
        members[at].0@ == key,
        forall|k: int| at < k < members.len() ==> (#[trigger] members[k]).0@ != key,
    decreases members.len(),
{
    let last = members.len() - 1;
    let i = choose|i: int| 0 <= i < members.len() && member_keys(members)[i] == key;
    if members[last].0@ == key {
        last
    } else {
        let front = members.drop_last();
        assert(member_keys(front)[i] == key);
        let at = lemma_last_place(front, key);
        assert(front[at] == members[at]);
        assert forall|k: int| at < k < members.len() implies (#[trigger] members[k]).0@ != key by {
            if k < last {
                assert(front[k] == members[k]);
            }
        }
        at
    }
}

/// Sets `key` to `value` in a list of members: where the key is there, the
/// value of the last member that names it is overwritten in place; a new
/// key is added at the end.
pub fn insert_member(members: &mut Vec<(String, JsonValue)>, key: String, value: JsonValue)
    ensures
        members_view(final(members)@) == members_view(old(members)@).insert(key@, value@),
        member_keys(final(members)@) == if member_keys(old(members)@).contains(key@) {
            member_keys(old(members)@)
        } else {
            member_keys(old(members)@).push(key@)
        },
        distinct_keys(old(members)@) ==> distinct_keys(final(members)@),
        well_formed_members(old(members)@) && value.well_formed() ==> well_formed_members(
            final(members)@,
        ),
{
    let ghost before = members@;
    let ghost wanted = members_view(before).insert(key@, value@);
    match find_member(members, &key) {
        Some(at) => {
            members.set(at, (key, value));
            proof {
                let after = members@;
                assert(member_keys(after) =~= member_keys(before));
                assert(member_keys(before)[at as int] == key@);
                lemma_members_view_keys(before);
                lemma_members_view_keys(after);
                assert forall|k: Seq<char>| #[trigger]
                    members_view(after).contains_key(k) implies wanted.contains_key(k)
                    && members_view(after)[k] == wanted[k] by {
                    assert(member_keys(after).contains(k));
                    let j = lemma_last_place(after, k);
                    lemma_members_view_last(after, j);
                    assert(member_keys(before)[j] == member_keys(after)[j]);
                    if k != key@ {
                        assert(after[j] == before[j]);
                        assert forall|l: int| j < l < before.len() implies (
                        #[trigger] before[l]).0@ != k by {
                            assert(member_keys(before)[l] == member_keys(after)[l]);
                            assert(after[l].0@ != k);
                        }
                        lemma_members_view_last(before, j);
                    } else if j < at {
                        assert(after[at as int].0@ != k);
                    } else if j > at {
                        assert(before[j].0@ != key@);
                    }
                }
                assert forall|k: Seq<char>| #[trigger]
                    wanted.contains_key(k) implies members_view(after).contains_key(k) by {
                    if k != key@ {
                        assert(member_keys(before).contains(k));
                    }
                    assert(member_keys(after).contains(k));
                }
                assert(members_view(after) =~= wanted);
                if distinct_keys(before) {
                    assert forall|a: int, b: int| 0 <= a < b < after.len() implies (
                    #[trigger] after[a]).0@ != (#[trigger] after[b]).0@ by {
                        assert(member_keys(after)[a] == member_keys(before)[a]);
                        assert(member_keys(after)[b] == member_keys(before)[b]);
                        assert(before[a].0@ != before[b].0@);
                    }
                }
            }
        },
        None => {
            proof {
                assert(!member_keys(before).contains(key@)) by {
                    if member_keys(before).contains(key@) {
                        let j = choose|j: int|
                            0 <= j < before.len() && member_keys(before)[j] == key@;
                        assert(before[j].0@ != key@);
                    }
                }
            }
            members.push((key, value));
            proof {
                let after = members@;
                assert(after.drop_last() =~= before);
                lemma_members_view_step(after);
                assert(member_keys(after) =~= member_keys(before).push(key@));
                if distinct_keys(before) {
                    assert forall|a: int, b: int| 0 <= a < b < after.len() implies (
                    #[trigger] after[a]).0@ != (#[trigger] after[b]).0@ by {
                        assert(after[a] == before[a]);
                        if b < before.len() {
                            assert(after[b] == before[b]);
                        }
                    }
                }
            }
        },
    }
}

} // verus!
