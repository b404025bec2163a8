//! JSON values.

use vstd::prelude::*;

use crate::error::optional;
use crate::text::same;

verus! {

/// A JSON number: an integer, or the bits of a floating-point number.
#[derive(Clone, Copy, PartialEq, Eq, Structural)]
pub enum Number {
    Unsigned(u64),
    Negative(i64),
    FloatBits(u64),
}

/// A JSON value.
pub enum Json {
    Null,
    Bool(bool),
    Number(Number),
    Text(String),
    List(Vec<Json>),
    Object(JsonObject),
}

/// A member of an object.
pub struct Member {
    pub key: String,
    pub value: Json,
}

/// The members of a JSON object; no key occurs twice.
pub struct JsonObject {
    members: Vec<Member>,
}

/// The view of a [`Json`].
pub enum JsonView {
    Null,
    Bool(bool),
    Number(Number),
    Text(Seq<char>),
    List(Seq<JsonView>),
    Object(Map<Seq<char>, JsonView>),
}

/// The view of a JSON value.
pub closed spec fn json_view(value: Json) -> JsonView
    decreases value,
{
    match value {
        Json::Null => JsonView::Null,
        Json::Bool(b) => JsonView::Bool(b),
        Json::Number(n) => JsonView::Number(n),
        Json::Text(text) => JsonView::Text(text@),
        Json::List(items) => JsonView::List(list_view(items@)),
        Json::Object(object) => JsonView::Object(members_view(object.members@)),
    }
}

/// The views of JSON values.
pub closed spec fn list_view(items: Seq<Json>) -> Seq<JsonView>
    decreases items,
{
    if items.len() == 0 {
        seq![]
    } else {
        list_view(items.drop_last()).push(json_view(items.last()))
    }
}

/// The values of members by their keys.
pub closed spec fn members_view(members: Seq<Member>) -> Map<Seq<char>, JsonView>
    decreases members,
{
    if members.len() == 0 {
        Map::empty()
    } else {
        members_view(members.drop_last()).insert(
            members.last().key@,
            json_view(members.last().value),
        )
    }
}

impl View for Json {
    type V = JsonView;

    open spec fn view(&self) -> JsonView {
        json_view(*self)
    }
}

impl View for JsonObject {
    type V = Map<Seq<char>, JsonView>;

    closed spec fn view(&self) -> Map<Seq<char>, JsonView> {
        members_view(self.members@)
    }
}

/// Whether no two members have the same key.
pub closed spec fn distinct_keys(members: Seq<Member>) -> bool {
    forall|i: int, j: int|
        0 <= i < j < members.len() ==> (#[trigger] members[i]).key@ != (#[trigger] members[j]).key@
}

/// The view of a value is the view of what its variant holds.
pub proof fn lemma_view(value: Json)
    ensures
        match value {
            Json::Null => value@ == JsonView::Null,
            Json::Bool(b) => value@ == JsonView::Bool(b),
            Json::Number(n) => value@ == JsonView::Number(n),
            Json::Text(text) => value@ == JsonView::Text(text@),
            Json::List(items) => value@ == JsonView::List(list_view(items@)),
            Json::Object(object) => value@ == JsonView::Object(object@),
        },
{
}

/// The views of JSON values stand in the order of the values.
pub proof fn lemma_list_view(items: Seq<Json>)
    ensures
        list_view(items) == Seq::new(items.len(), |i: int| items[i]@),
    decreases items.len(),
{
    if items.len() > 0 {
        lemma_list_view(items.drop_last());
        assert(list_view(items) =~= Seq::new(items.len(), |i: int| items[i]@));
    } else {
        assert(list_view(items) =~= Seq::new(items.len(), |i: int| items[i]@));
    }
}

/// Where keys are distinct, the members are what their view holds.
proof fn lemma_members(members: Seq<Member>)
    requires
        distinct_keys(members),
    ensures
        forall|i: int|
            0 <= i < members.len() ==> members_view(members).contains_key(
                (#[trigger] members[i]).key@,
            ) && members_view(members)[members[i].key@] == members[i].value@,
        forall|key: Seq<char>| #[trigger]
            members_view(members).contains_key(key) ==> exists|i: int|
                0 <= i < members.len() && (#[trigger] members[i]).key@ == key,
    decreases members.len(),
{
    if members.len() > 0 {
        let init = members.drop_last();
        let last = members.len() - 1;
        assert(distinct_keys(init)) by {
            assert forall|i: int, j: int| 0 <= i < j < init.len() implies (#[trigger] init[i]).key@
                != (#[trigger] init[j]).key@ by {
                assert(members[i].key@ != members[j].key@);
            }
        }
        lemma_members(init);
        assert forall|i: int| 0 <= i < members.len() implies members_view(members).contains_key(
            (#[trigger] members[i]).key@,
        ) && members_view(members)[members[i].key@] == members[i].value@ by {
            if i < last {
                assert(init[i] == members[i]);
                assert(members[i].key@ != members[last].key@);
            }
        }
        assert forall|key: Seq<char>| #[trigger]
            members_view(members).contains_key(key) implies exists|i: int|
            0 <= i < members.len() && (#[trigger] members[i]).key@ == key by {
            if key == members[last].key@ {
                assert(members[last].key@ == key);
            } else {
                assert(members_view(init).contains_key(key));
                let i = choose|i: int| 0 <= i < init.len() && (#[trigger] init[i]).key@ == key;
                assert(members[i].key@ == key);
            }
        }
    }
}

impl JsonObject {
    #[verifier::type_invariant]
    spec fn distinct(self) -> bool {
        distinct_keys(self.members@)
    }

    /// The keys of the members as they stand.
    pub closed spec fn keys(self) -> Seq<Seq<char>> {
        Seq::new(self.members@.len(), |i: int| self.members@[i].key@)
    }

    /// An object without members.
    pub fn new() -> (r: JsonObject)
        ensures
            r@ == Map::<Seq<char>, JsonView>::empty(),
    {
        JsonObject { members: Vec::new() }
    }

    /// How many members there are.
    pub fn len(&self) -> (n: usize)
        ensures
            n == self.keys().len(),
            forall|key: Seq<char>| #[trigger]
                self@.contains_key(key) <==> self.keys().contains(key),
            self.keys().no_duplicates(),
    {
        proof {
            use_type_invariant(self);
            lemma_members(self.members@);
            assert forall|key: Seq<char>| #[trigger]
                self@.contains_key(key) <==> self.keys().contains(key) by {
                if self@.contains_key(key) {
                    let i = choose|i: int|
                        0 <= i < self.members@.len() && (#[trigger] self.members@[i]).key@ == key;
                    assert(self.keys()[i] == key);
                }
                if self.keys().contains(key) {
                    let i = self.keys().index_of(key);
                    assert(self.members@[i].key@ == key);
                }
            }
            assert forall|i: int, j: int|
                0 <= i < self.keys().len() && 0 <= j < self.keys().len() && i
                    != j implies self.keys()[i] != self.keys()[j] by {
                if i < j {
                    assert(self.members@[i].key@ != self.members@[j].key@);
                } else {
                    assert(self.members@[j].key@ != self.members@[i].key@);
                }
            }
        }
        self.members.len()
    }

    /// The key of the member at place `i`.
    pub fn key_at(&self, i: usize) -> (key: &String)
        requires
            i < self.keys().len(),
        ensures
            key@ == self.keys()[i as int],
    {
        &self.members[i].key
    }

    /// The value of the member at place `i`.
    pub fn value_at(&self, i: usize) -> (value: &Json)
        requires
            i < self.keys().len(),
        ensures
            self@.contains_key(self.keys()[i as int]),
            value@ == self@[self.keys()[i as int]],
            decreases_to!(self => value),
    {
        proof {
            use_type_invariant(self);
            lemma_members(self.members@);
        }
        let member = &self.members[i];
        assert(member == self.members@[i as int]);
        assert(decreases_to!(self.members => self.members@[i as int]));
        &member.value
    }

    /// The place of the member with the key.
    fn position(&self, key: &str) -> (r: Option<usize>)
        ensures
            match r {
                Some(i) => i < self.members@.len() && self.members@[i as int].key@ == key@,
                None => forall|i: int|
                    0 <= i < self.members@.len() ==> (#[trigger] self.members@[i]).key@ != key@,
            },
    {
        let mut i: usize = 0;
        while i < self.members.len()
            invariant
                i <= self.members@.len(),
                forall|j: int| 0 <= j < i ==> (#[trigger] self.members@[j]).key@ != key@,
            decreases self.members@.len() - i,
        {
            if same(self.members[i].key.as_str(), key) {
                return Some(i);
            }
            i += 1;
        }
        None
    }

    /// The value of the member with the key.
    pub fn get(&self, key: &str) -> (r: Option<&Json>)
        ensures
            match r {
                Some(value) => self@.contains_key(key@) && self@[key@] == value@,
                None => !self@.contains_key(key@),
            },
    {
        proof {
            use_type_invariant(self);
            lemma_members(self.members@);
        }
        match self.position(key) {
            Some(i) => Some(&self.members[i].value),
            None => None,
        }
    }

    /// Takes the member with the key away and gives its value.
    pub fn take(&mut self, key: &str) -> (r: Option<Json>)
        ensures
            match r {
                Some(value) => old(self)@.contains_key(key@) && old(self)@[key@] == value@,
                None => !old(self)@.contains_key(key@),
            },
            final(self)@ == old(self)@.remove(key@),
    {
        proof {
            use_type_invariant(&*self);
            lemma_members(self.members@);
        }
        let ghost before = *self;
        match self.position(key) {
            Some(at) => {
                let mut members: Vec<Member> = Vec::new();
                std::mem::swap(&mut members, &mut self.members);
                let removed = members.remove(at);
                proof {
                    let old_members = before.members@;
                    let new_members = members@;
                    assert forall|i: int| 0 <= i < new_members.len() implies #[trigger] new_members[i]
                        == old_members[if i < at {
                        i
                    } else {
                        i + 1
                    }] by {}
                    assert(distinct_keys(new_members));
                    lemma_members(new_members);
                    assert forall|k: Seq<char>| #[trigger]
                        members_view(new_members).contains_key(k) <==> before@.contains_key(k) && k
                            != key@ by {
                        if members_view(new_members).contains_key(k) {
                            let i = choose|i: int|
                                0 <= i < new_members.len() && (#[trigger] new_members[i]).key@ == k;
                            let a = if i < at {
                                i
                            } else {
                                i + 1
                            };
                            assert(old_members[a].key@ == k);
                            assert(old_members[at as int].key@ == key@);
                        }
                        if before@.contains_key(k) && k != key@ {
                            let i = choose|i: int|
                                0 <= i < old_members.len() && (#[trigger] old_members[i]).key@ == k;
                            let a = if i < at {
                                i
                            } else {
                                i - 1
                            };
                            assert(new_members[a].key@ == k);
                        }
                    }
                    assert forall|k: Seq<char>| #[trigger]
                        members_view(new_members).contains_key(k) implies members_view(
                        new_members,
                    )[k] == before@[k] by {
                        let i = choose|i: int|
                            0 <= i < new_members.len() && (#[trigger] new_members[i]).key@ == k;
                        let a = if i < at {
                            i
                        } else {
                            i + 1
                        };
                        assert(old_members[a].key@ == k);
                        assert(new_members[i].value == old_members[a].value);
                    }
                    assert(members_view(new_members) =~= before@.remove(key@));
                }
                self.members = members;
                Some(removed.value)
            },
            None => {
                assert(before@ =~= before@.remove(key@));
                None
            },
        }
    }

    /// Puts a value under the key, in place of what was there.
    pub fn set(&mut self, key: String, value: Json)
        ensures
            final(self)@ == old(self)@.insert(key@, value@),
    {
        let ghost before = self@;
        let replaced = self.take(key.as_str());
        proof {
            use_type_invariant(&*self);
            lemma_members(self.members@);
        }
        let ghost between = self.members@;
        let mut members: Vec<Member> = Vec::new();
        std::mem::swap(&mut members, &mut self.members);
        members.push(Member { key, value });
        proof {
            assert(members@.drop_last() =~= between);
            assert(distinct_keys(members@)) by {
                assert forall|i: int, j: int| 0 <= i < j < members@.len() implies (
                #[trigger] members@[i]).key@ != (#[trigger] members@[j]).key@ by {
                    assert(members@[i] == between[i]);
                    if j < between.len() {
                        assert(members@[j] == between[j]);
                    } else {
                        assert(members_view(between).contains_key(between[i].key@));
                    }
                }
            }
            assert(members_view(members@) =~= before.insert(key@, value@));
        }
        self.members = members;
    }
}

/// A copy of a JSON value.
pub fn copy_json(value: &Json) -> (r: Json)
    ensures
        r@ == value@,
    decreases value,
{
    proof {
        lemma_view(*value);
    }
    match value {
        Json::Null => Json::Null,
        Json::Bool(b) => Json::Bool(*b),
        Json::Number(n) => Json::Number(*n),
        Json::Text(text) => Json::Text(text.clone()),
        Json::List(items) => {
            let mut copies: Vec<Json> = Vec::new();
            let mut i: usize = 0;
            while i < items.len()
                invariant
                    i <= items@.len(),
                    copies@.len() == i,
                    decreases_to!(value => items),
                    forall|j: int| 0 <= j < i ==> (#[trigger] copies@[j])@ == items@[j]@,
                decreases items@.len() - i,
            {
                assert(decreases_to!(items => items@[i as int]));
                copies.push(copy_json(&items[i]));
                i += 1;
            }
            proof {
                lemma_list_view(items@);
                lemma_list_view(copies@);
                assert(list_view(copies@) =~= list_view(items@));
            }
            let r = Json::List(copies);
            proof {
                lemma_view(r);
            }
            r
        },
        Json::Object(object) => {
            let r = Json::Object(copy_object(object));
            proof {
                lemma_view(r);
            }
            r
        },
    }
}

/// A copy of an object.
pub fn copy_object(object: &JsonObject) -> (r: JsonObject)
    ensures
        r@ == object@,
    decreases object,
{
    let mut r = JsonObject::new();
    let n: usize = object.len();
    let mut i: usize = 0;
    while i < n
        invariant
            i <= n == object.keys().len(),
            object.keys().no_duplicates(),
            forall|key: Seq<char>| #[trigger]
                object@.contains_key(key) <==> object.keys().contains(key),
            forall|key: Seq<char>| #[trigger]
                r@.contains_key(key) <==> object.keys().take(i as int).contains(key),
            forall|key: Seq<char>| #[trigger] r@.contains_key(key) ==> r@[key] == object@[key],
        decreases n - i,
    {
        let key = object.key_at(i);
        let value = object.value_at(i);
        let ghost before = r@;
        r.set(key.clone(), copy_json(value));
        proof {
            let keys = object.keys();
            assert forall|k: Seq<char>| #[trigger]
                r@.contains_key(k) <==> keys.take(i + 1).contains(k) by {
                if keys.take(i as int).contains(k) {
                    let j = keys.take(i as int).index_of(k);
                    assert(keys.take(i + 1)[j] == k);
                }
                if keys.take(i + 1).contains(k) {
                    let j = keys.take(i + 1).index_of(k);
                    if j < i {
                        assert(keys.take(i as int)[j] == k);
                    }
                }
                assert(keys.take(i + 1)[i as int] == key@);
            }
        }
        i += 1;
    }
    proof {
        assert(object.keys().take(i as int) =~= object.keys());
        assert(r@ =~= object@);
    }
    r
}

impl Json {
    /// The value of the member with the key, if this is an object that has it.
    pub fn get(&self, key: &str) -> (r: Option<&Json>)
        ensures
            optional_value(r) == member(self@, key@),
    {
        proof {
            lemma_view(*self);
        }
        match self {
            Json::Object(object) => object.get(key),
            _ => None,
        }
    }

    /// The text, if this is a text.
    pub fn as_text(&self) -> (r: Option<&String>)
        ensures
            match r {
                Some(text) => self@ == JsonView::Text(text@),
                None => !(self@ is Text),
            },
    {
        proof {
            lemma_view(*self);
        }
        match self {
            Json::Text(text) => Some(text),
            _ => None,
        }
    }

    /// Whether this is an object.
    pub fn is_object(&self) -> (r: bool)
        ensures
            r == (self@ is Object),
    {
        proof {
            lemma_view(*self);
        }
        match self {
            Json::Object(_) => true,
            _ => false,
        }
    }
}

/// The view of an optional value.
pub open spec fn optional_value(value: Option<&Json>) -> Option<JsonView> {
    match value {
        Some(value) => Some(value@),
        None => None,
    }
}

/// The value of the member with the key, if `value` is an object that has it.
pub open spec fn member(value: JsonView, key: Seq<char>) -> Option<JsonView> {
    match value {
        JsonView::Object(members) => if members.contains_key(key) {
            Some(members[key])
        } else {
            None
        },
        _ => None,
    }
}

/// The text of the member with the key, if `value` is an object whose member is a text.
pub open spec fn text_member(value: JsonView, key: Seq<char>) -> Option<Seq<char>> {
    match member(value, key) {
        Some(JsonView::Text(text)) => Some(text),
        _ => None,
    }
}

/// The text of the member with the key.
pub fn get_text(value: &Json, key: &str) -> (r: Option<String>)
    ensures
        optional(r) == text_member(value@, key@),
{
    match value.get(key) {
        Some(found) => match found.as_text() {
            Some(text) => Some(text.clone()),
            None => None,
        },
        None => None,
    }
}

/// A text as a value.
pub(crate) fn text_value(text: &str) -> (r: Json)
    ensures
        r@ == JsonView::Text(text@),
{
    let r = Json::Text(text.to_owned());
    proof {
        lemma_view(r);
    }
    r
}

/// A member is found under its key in an object, and nowhere else; it is a text exactly if its
/// value is one.
pub proof fn law_members_are_found_by_key(
    members: Map<Seq<char>, JsonView>,
    key: Seq<char>,
    value: JsonView,
)
    ensures
        members.contains_key(key) ==> member(JsonView::Object(members), key) == Some(members[key]),
        !members.contains_key(key) ==> member(JsonView::Object(members), key) is None,
        !(value is Object) ==> member(value, key) is None,
        match text_member(value, key) {
            Some(text) => member(value, key) == Some(JsonView::Text(text)),
            None => !(member(value, key) matches Some(JsonView::Text(_))),
        },
{
}

/// The view of a list holds the views of its items, in order.
pub proof fn law_views_of_lists_are_whole(items: Seq<Json>, found: Option<&Json>)
    ensures
        list_view(items).len() == items.len(),
        forall|i: int| 0 <= i < items.len() ==> #[trigger] list_view(items)[i] == items[i]@,
        match found {
            Some(value) => optional_value(found) == Some(value@),
            None => optional_value(found) is None,
        },
{
    lemma_list_view(items);
}

} // verus!
