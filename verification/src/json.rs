//! JSON documents as plain values.
//!
//! A number that is no integer is kept as the text that it is written with, so that a
//! document passes through unchanged whatever it holds.
use vstd::prelude::*;
use vstd::string::*;

use crate::text::{decimal_int, decimal_of, decimal_of_signed, same_text};

verus! {

/// A JSON number.
#[derive(Debug)]
pub enum JsonNumber {
    /// An integer from zero on.
    Unsigned { natural: u64 },
    /// An integer below zero.
    Negative { integer: i64 },
    /// Any other number, as it is written.
    Fraction { text: String },
}

/// What a `JsonNumber` says.
pub enum NumberModel {
    Integer { value: int },
    Fraction { text: Seq<char> },
}

impl View for JsonNumber {
    type V = NumberModel;

    open spec fn view(&self) -> NumberModel {
        match self {
            JsonNumber::Unsigned { natural } => NumberModel::Integer { value: *natural as int },
            JsonNumber::Negative { integer } => NumberModel::Integer { value: *integer as int },
            JsonNumber::Fraction { text } => NumberModel::Fraction { text: text@ },
        }
    }
}

/// A JSON value. The members of an object are kept in their order.
#[derive(Debug)]
pub enum Json {
    Null,
    Bool { value: bool },
    Number { number: JsonNumber },
    Text { text: String },
    Array { items: Vec<Json> },
    Object { members: Vec<Member> },
}

/// A member of a JSON object.
#[derive(Debug)]
pub struct Member {
    pub key: String,
    pub value: Json,
}

/// What a `Json` says.
pub enum JsonModel {
    Null,
    Bool { value: bool },
    Number { number: NumberModel },
    Text { text: Seq<char> },
    Array { items: Seq<JsonModel> },
    Object { members: Seq<MemberModel> },
}

/// What a `Member` says.
pub struct MemberModel {
    pub key: Seq<char>,
    pub value: JsonModel,
}

/// What a JSON value says.
pub open spec fn json_model(json: Json) -> JsonModel
    decreases json,
{
    match json {
        Json::Null => JsonModel::Null,
        Json::Bool { value } => JsonModel::Bool { value },
        Json::Number { number } => JsonModel::Number { number: number@ },
        Json::Text { text } => JsonModel::Text { text: text@ },
        Json::Array { items } => JsonModel::Array {
            items: Seq::new(
                items@.len(),
                |i: int| if 0 <= i < items@.len() { json_model(items@[i]) } else { JsonModel::Null },
            ),
        },
        Json::Object { members } => JsonModel::Object {
            members: Seq::new(
                members@.len(),
                |i: int|
                    if 0 <= i < members@.len() {
                        MemberModel { key: members@[i].key@, value: json_model(members@[i].value) }
                    } else {
                        MemberModel { key: Seq::empty(), value: JsonModel::Null }
                    },
            ),
        },
    }
}

impl View for Json {
    type V = JsonModel;

    open spec fn view(&self) -> JsonModel {
        json_model(*self)
    }
}

impl View for Member {
    type V = MemberModel;

    open spec fn view(&self) -> MemberModel {
        MemberModel { key: self.key@, value: self.value@ }
    }
}

/// What the values say, in order.
pub open spec fn json_models(items: Seq<Json>) -> Seq<JsonModel> {
    items.map_values(|j: Json| j@)
}

/// What the members say, in order.
pub open spec fn member_models(members: Seq<Member>) -> Seq<MemberModel> {
    members.map_values(|m: Member| m@)
}

/// The model of an array is the array of the models.
pub broadcast proof fn array_model(json: Json)
    requires
        json is Array,
    ensures
        #[trigger] json_model(json) == (JsonModel::Array { items: json_models(json->items@) }),
{
    assert(json_model(json)->Array_items =~= json_models(json->items@));
}

/// The model of an object is the object of the models.
pub broadcast proof fn object_model(json: Json)
    requires
        json is Object,
    ensures
        #[trigger] json_model(json) == (JsonModel::Object {
            members: member_models(json->members@),
        }),
{
    assert(json_model(json)->Object_members =~= member_models(json->members@));
}

/// The position of the first member with the given key.
pub open spec fn key_from(members: Seq<MemberModel>, key: Seq<char>, from: int) -> Option<int>
    decreases members.len() - from,
{
    if from < 0 || from >= members.len() {
        None
    } else if members[from].key == key {
        Some(from)
    } else {
        key_from(members, key, from + 1)
    }
}

impl JsonModel {
    /// The value of the first member with the given key; nothing in what is no object.
    pub open spec fn get(self, key: Seq<char>) -> Option<JsonModel> {
        match self {
            JsonModel::Object { members } => match key_from(members, key, 0) {
                Some(i) => Some(members[i].value),
                None => None,
            },
            _ => None,
        }
    }

    /// The text, where it is one.
    pub open spec fn as_text(self) -> Option<Seq<char>> {
        match self {
            JsonModel::Text { text } => Some(text),
            _ => None,
        }
    }

    /// The items, where it is an array.
    pub open spec fn as_items(self) -> Option<Seq<JsonModel>> {
        match self {
            JsonModel::Array { items } => Some(items),
            _ => None,
        }
    }

    /// The number, where it is one.
    pub open spec fn as_number(self) -> Option<NumberModel> {
        match self {
            JsonModel::Number { number } => Some(number),
            _ => None,
        }
    }

    /// The value with the first member of the given key replaced.
    pub open spec fn with(self, key: Seq<char>, value: JsonModel) -> JsonModel {
        match self {
            JsonModel::Object { members } => match key_from(members, key, 0) {
                Some(i) => JsonModel::Object {
                    members: members.update(i, MemberModel { key: members[i].key, value }),
                },
                None => self,
            },
            _ => self,
        }
    }

    /// A member can be put into it: an object, or the null that becomes one.
    pub open spec fn takes_members(self) -> bool {
        self is Object || self is Null
    }

    /// The value with the member of the given key put into it, in the place of the one that
    /// it has or behind all others.
    pub open spec fn set(self, key: Seq<char>, value: JsonModel) -> JsonModel {
        match self {
            JsonModel::Object { members } => match key_from(members, key, 0) {
                Some(i) => self.with(key, value),
                None => JsonModel::Object { members: members.push(MemberModel { key, value }) },
            },
            JsonModel::Null => JsonModel::Object { members: seq![MemberModel { key, value }] },
            _ => self,
        }
    }
}

/// What `key_from` finds has the key, and no member before it does; where it finds
/// nothing, no member does.
pub proof fn key_from_is_first(members: Seq<MemberModel>, key: Seq<char>, from: int)
    requires
        0 <= from,
    ensures
        match key_from(members, key, from) {
            Some(i) => from <= i < members.len() && members[i].key == key && forall|j: int|
                from <= j < i ==> (#[trigger] members[j]).key != key,
            None => forall|j: int| from <= j < members.len() ==> (#[trigger] members[j]).key != key,
        },
    decreases members.len() - from,
{
    if from < members.len() && members[from].key != key {
        key_from_is_first(members, key, from + 1);
    }
}

/// A member's value is part of its object.
pub proof fn member_is_smaller(json: JsonModel, key: Seq<char>)
    ensures
        json.get(key) matches Some(value) ==> decreases_to!(json => value),
{
    if let JsonModel::Object { members } = json {
        key_from_is_first(members, key, 0);
        if let Some(i) = key_from(members, key, 0) {
            assert(decreases_to!(json => members));
            assert(decreases_to!(members => members[i]));
            assert(decreases_to!(members[i] => members[i].value));
        }
    }
}

proof fn lemma_keys_decide(a: Seq<MemberModel>, b: Seq<MemberModel>, key: Seq<char>, from: int)
    requires
        a.len() == b.len(),
        forall|i: int| 0 <= i < a.len() ==> (#[trigger] a[i]).key == b[i].key,
        0 <= from,
    ensures
        key_from(a, key, from) == key_from(b, key, from),
    decreases a.len() - from,
{
    if from < a.len() && a[from].key != key {
        lemma_keys_decide(a, b, key, from + 1);
    }
}

/// Replacing a member changes that member, where there is one, and no other.
pub proof fn replaced_member(json: JsonModel, key: Seq<char>, value: JsonModel, other: Seq<char>)
    ensures
        json.get(key) is Some ==> json.with(key, value).get(key) == Some(value),
        json.get(key) is None ==> json.with(key, value) == json,
        other != key ==> json.with(key, value).get(other) == json.get(other),
        json.with(key, value).with(key, value) == json.with(key, value),
{
    if let JsonModel::Object { members } = json {
        key_from_is_first(members, key, 0);
        key_from_is_first(members, other, 0);
        if let Some(i) = key_from(members, key, 0) {
            let changed = members.update(i, MemberModel { key: members[i].key, value });
            lemma_keys_decide(members, changed, key, 0);
            lemma_keys_decide(members, changed, other, 0);
            assert(changed.update(i, MemberModel { key: changed[i].key, value }) =~= changed);
        }
    }
}

impl JsonNumber {
    /// The number as it is written.
    pub open spec fn written(number: NumberModel) -> Seq<char> {
        match number {
            NumberModel::Integer { value } => decimal_int(value),
            NumberModel::Fraction { text } => text,
        }
    }

    /// Write the number.
    pub fn to_text(&self) -> (s: String)
        ensures
            s@ == JsonNumber::written(self@),
    {
        match self {
            JsonNumber::Unsigned { natural } => decimal_of(*natural),
            JsonNumber::Negative { integer } => decimal_of_signed(*integer),
            JsonNumber::Fraction { text } => text.clone(),
        }
    }
}

impl Clone for JsonNumber {
    fn clone(&self) -> (r: Self)
        ensures
            r == *self,
    {
        match self {
            JsonNumber::Unsigned { natural } => JsonNumber::Unsigned { natural: *natural },
            JsonNumber::Negative { integer } => JsonNumber::Negative { integer: *integer },
            JsonNumber::Fraction { text } => JsonNumber::Fraction { text: text.clone() },
        }
    }
}

/// The position of the first member with the given key.
pub fn find_key(members: &Vec<Member>, key: &str) -> (r: Option<usize>)
    ensures
        match r {
            Some(i) => i < members@.len() && key_from(member_models(members@), key@, 0) == Some(
                i as int,
            ),
            None => key_from(member_models(members@), key@, 0) is None,
        },
{
    let mut i: usize = 0;
    while i < members.len()
        invariant
            i <= members@.len(),
            key_from(member_models(members@), key@, 0) == key_from(
                member_models(members@),
                key@,
                i as int,
            ),
        decreases members@.len() - i,
    {
        assert(member_models(members@)[i as int].key == members@[i as int].key@);
        if same_text(members[i].key.as_str(), key) {
            return Some(i);
        }
        i += 1;
    }
    None
}

impl Json {
    /// The value of the first member with the given key; nothing in what is no object.
    pub fn get(&self, key: &str) -> (r: Option<&Json>)
        ensures
            match r {
                Some(value) => self@.get(key@) == Some(value@),
                None => self@.get(key@) is None,
            },
    {
        broadcast use {array_model, object_model};

        match self {
            Json::Object { members } => match find_key(members, key) {
                Some(i) => {
                    assert(member_models(members@)[i as int].value == members@[i as int].value@);
                    Some(&members[i].value)
                },
                None => None,
            },
            _ => None,
        }
    }

    /// Whether a member can be put into it.
    pub fn can_take_members(&self) -> (r: bool)
        ensures
            r == self@.takes_members(),
    {
        matches!(self, Json::Object { .. } | Json::Null)
    }

    /// The value with the member of the given key put into it.
    pub fn set(self, key: &str, value: Json) -> (r: Json)
        requires
            self@.takes_members(),
        ensures
            r@ == self@.set(key@, value@),
    {
        broadcast use {array_model, object_model};

        match self {
            Json::Object { members } => {
                let ghost first = members@;
                let mut members = members;
                match find_key(&members, key) {
                    Some(i) => {
                        members[i].value = value;
                        assert(member_models(members@) =~= member_models(first).update(
                            i as int,
                            MemberModel { key: first[i as int].key@, value: value@ },
                        ));
                    },
                    None => {
                        members.push(Member { key: key.to_owned(), value });
                        assert(member_models(members@) =~= member_models(first).push(
                            MemberModel { key: key@, value: value@ },
                        ));
                    },
                }
                Json::Object { members }
            },
            _ => {
                let mut members: Vec<Member> = Vec::new();
                members.push(Member { key: key.to_owned(), value });
                assert(member_models(members@) =~= seq![
                    MemberModel { key: key@, value: value@ },
                ]);
                Json::Object { members }
            },
        }
    }

    /// The value without the content of the member of the given key, and that content.
    pub fn take(self, key: &str) -> (r: (Json, Option<Json>))
        ensures
            match r.1 {
                Some(value) => self@.get(key@) == Some(value@) && forall|other: JsonModel|
                    #[trigger]
                    r.0@.with(key@, other) == self@.with(key@, other),
                None => self@.get(key@) is None && r.0@ == self@,
            },
            r.0@ is Object == self@ is Object,
            r.0@.get(key@) is Some == self@.get(key@) is Some,
    {
        broadcast use {array_model, object_model};

        match self {
            Json::Object { members } => {
                let ghost first = members@;
                match find_key(&members, key) {
                    Some(i) => {
                        let mut members = members;
                        let mut value = Json::Null;
                        std::mem::swap(&mut value, &mut members[i].value);
                        proof {
                            let a = member_models(first);
                            let b = member_models(members@);
                            key_from_is_first(a, key@, 0);
                            assert forall|k: int| 0 <= k < a.len() implies b[k].key
                                == #[trigger] a[k].key by {}
                            lemma_keys_decide(a, b, key@, 0);
                            assert forall|other: JsonModel| #[trigger]
                                (JsonModel::Object { members: b }).with(key@, other) == (
                                JsonModel::Object { members: a }).with(key@, other) by {
                                let one = MemberModel { key: key@, value: other };
                                assert(b.update(i as int, one) =~= a.update(i as int, one));
                            }
                        }
                        (Json::Object { members }, Some(value))
                    },
                    None => (Json::Object { members }, None),
                }
            },
            other => (other, None),
        }
    }

    /// The text, where it is one.
    pub fn as_text(&self) -> (r: Option<&String>)
        ensures
            match r {
                Some(text) => self@.as_text() == Some(text@),
                None => self@.as_text() is None,
            },
    {
        match self {
            Json::Text { text } => Some(text),
            _ => None,
        }
    }

    /// The items, where it is an array.
    pub fn as_items(&self) -> (r: Option<&Vec<Json>>)
        ensures
            match r {
                Some(items) => self@.as_items() == Some(json_models(items@)),
                None => self@.as_items() is None,
            },
    {
        broadcast use {array_model, object_model};

        match self {
            Json::Array { items } => Some(items),
            _ => None,
        }
    }

    /// The number, where it is one.
    pub fn as_number(&self) -> (r: Option<&JsonNumber>)
        ensures
            match r {
                Some(number) => self@.as_number() == Some(number@),
                None => self@.as_number() is None,
            },
    {
        match self {
            Json::Number { number } => Some(number),
            _ => None,
        }
    }
}

/// Of members with the same key the first one counts: it is what is read, and it alone is
/// replaced, in its place.
pub proof fn first_member_of_a_key_counts(
    members: Seq<MemberModel>,
    key: Seq<char>,
    value: JsonModel,
    i: int,
)
    requires
        0 <= i < members.len(),
        members[i].key == key,
        forall|j: int| 0 <= j < i ==> (#[trigger] members[j]).key != key,
    ensures
        (JsonModel::Object { members }).get(key) == Some(members[i].value),
        (JsonModel::Object { members }).with(key, value) == (JsonModel::Object {
            members: members.update(i, MemberModel { key, value }),
        }),
        (JsonModel::Object { members }).set(key, value) == (JsonModel::Object {
            members: members.update(i, MemberModel { key, value }),
        }),
{
    key_from_is_first(members, key, 0);
    let found = key_from(members, key, 0);
    if let Some(k) = found {
        if k < i {
            assert(members[k].key != key);
        }
        if i < k {
            assert(members[i].key != key);
        }
        assert(k == i);
    } else {
        assert(members[i].key != key);
    }
}

/// An object without the key has nothing to read there and nothing to replace, and a member
/// that is put in comes behind all others.
pub proof fn key_that_is_not_there(members: Seq<MemberModel>, key: Seq<char>, value: JsonModel)
    requires
        forall|j: int| 0 <= j < members.len() ==> (#[trigger] members[j]).key != key,
    ensures
        (JsonModel::Object { members }).get(key) is None,
        (JsonModel::Object { members }).with(key, value) == (JsonModel::Object { members }),
        (JsonModel::Object { members }).set(key, value) == (JsonModel::Object {
            members: members + seq![MemberModel { key, value }],
        }),
{
    key_from_is_first(members, key, 0);
    if let Some(k) = key_from(members, key, 0) {
        assert(members[k].key != key);
    }
    let one = MemberModel { key, value };
    assert(members.push(one) =~= members + seq![one]);
}

/// What is no object has no members; a null becomes an object with the one that is put in,
/// and nothing else can take one.
pub proof fn only_objects_have_members(json: JsonModel, key: Seq<char>, value: JsonModel)
    ensures
        !(json is Object) ==> json.get(key) is None && json.with(key, value) == json,
        json is Null ==> json.set(key, value) == (JsonModel::Object {
            members: seq![MemberModel { key, value }],
        }),
        json.takes_members() == (match json {
            JsonModel::Null => true,
            JsonModel::Object { .. } => true,
            JsonModel::Bool { .. } => false,
            JsonModel::Number { .. } => false,
            JsonModel::Text { .. } => false,
            JsonModel::Array { .. } => false,
        }),
{
}

/// A member that was put in is read back, and every other member is as it was.
pub proof fn put_member_is_read_back(
    json: JsonModel,
    key: Seq<char>,
    value: JsonModel,
    other: Seq<char>,
)
    requires
        json is Object || json is Null,
    ensures
        json.set(key, value).get(key) == Some(value),
        other != key ==> json.set(key, value).get(other) == json.get(other),
{
    replaced_member(json, key, value, other);
    match json {
        JsonModel::Object { members } => {
            key_from_is_first(members, key, 0);
            if key_from(members, key, 0) is None {
                let one = MemberModel { key, value };
                let more = members.push(one);
                key_from_is_first(members, other, 0);
                key_from_is_first(more, key, 0);
                key_from_is_first(more, other, 0);
                assert forall|j: int| 0 <= j < members.len() implies more[j] == members[j] by {}
                assert(more[members.len() as int] == one);
                if other != key {
                    if let Some(i) = key_from(members, other, 0) {
                        let k = key_from(more, other, 0)->0;
                        assert(more[i].key == other);
                        if k < i {
                            assert(members[k].key != other);
                        }
                    } else if let Some(k) = key_from(more, other, 0) {
                        assert(members[k].key != other);
                    }
                }
            }
        },
        _ => {
            let alone = seq![MemberModel { key, value }];
            key_from_is_first(alone, key, 0);
            key_from_is_first(alone, other, 0);
            assert(alone[0].key == key);
        },
    }
}

/// A text, an array and a number give what they hold, and nothing else gives any of it.
pub proof fn values_give_what_they_hold(json: JsonModel)
    ensures
        match json {
            JsonModel::Text { text } => json.as_text() == Some(text) && json.as_items() is None
                && json.as_number() is None,
            JsonModel::Array { items } => json.as_text() is None && json.as_items() == Some(items)
                && json.as_number() is None,
            JsonModel::Number { number } => json.as_text() is None && json.as_items() is None
                && json.as_number() == Some(number),
            _ => json.as_text() is None && json.as_items() is None && json.as_number() is None,
        },
{
}

/// A JSON value says what it holds: texts and numbers as they are, and items and members one
/// for one, in their order and under their keys.
pub proof fn value_says_what_it_holds(json: Json)
    ensures
        match json {
            Json::Null => json@ is Null,
            Json::Bool { value } => json@ == (JsonModel::Bool { value }),
            Json::Number { number: JsonNumber::Unsigned { natural } } => json@ == (
            JsonModel::Number { number: NumberModel::Integer { value: natural as int } }),
            Json::Number { number: JsonNumber::Negative { integer } } => json@ == (
            JsonModel::Number { number: NumberModel::Integer { value: integer as int } }),
            Json::Number { number: JsonNumber::Fraction { text } } => json@ == (
            JsonModel::Number { number: NumberModel::Fraction { text: text@ } }),
            Json::Text { text } => json@ == (JsonModel::Text { text: text@ }),
            Json::Array { items } => json@ matches JsonModel::Array { items: models }
                && models.len() == items@.len() && forall|i: int|
                0 <= i < items@.len() ==> #[trigger] models[i] == items@[i]@,
            Json::Object { members } => json@ matches JsonModel::Object { members: models }
                && models.len() == members@.len() && forall|i: int|
                0 <= i < members@.len() ==> (#[trigger] models[i]).key == members@[i].key@
                    && models[i].value == members@[i].value@,
        },
{
    broadcast use {array_model, object_model};

}

/// A number that is no integer is written with the text that it was read with, and an
/// integer with its digits.
pub proof fn number_is_written_as_it_is(text: Seq<char>, value: int)
    ensures
        JsonNumber::written(NumberModel::Fraction { text }) == text,
        JsonNumber::written(NumberModel::Integer { value }) == decimal_int(value),
{
}

/// Replacing a member leaves every member in its place, under its key, and changes none with
/// another key.
pub proof fn replacing_keeps_every_place(
    members: Seq<MemberModel>,
    key: Seq<char>,
    value: JsonModel,
)
    ensures
        (JsonModel::Object { members }).with(key, value) matches JsonModel::Object {
            members: after,
        } && {
            &&& after.len() == members.len()
            &&& forall|i: int|
                0 <= i < members.len() ==> (#[trigger] after[i]).key == members[i].key && (
                members[i].key != key ==> after[i] == members[i])
        },
{
    key_from_is_first(members, key, 0);
}

} // verus!
