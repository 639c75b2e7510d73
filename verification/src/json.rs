//! JSON values.
//!
//! The text is parsed by `serde_json`; what comes out is held in a type of this
//! crate, on which the loaders work.

use crate::text::same_text;
use vstd::prelude::*;

verus! {

/// A JSON value.
pub enum Json {
    Null,
    Bool(bool),
    /// A number: its value, where it is an unsigned integer of 64 bits, and the
    /// bits of its double-precision form, where it has one.
    Number { unsigned: Option<u64>, double_bits: Option<u64> },
    Text(String),
    Array(Vec<Json>),
    Object(Vec<Member>),
}

/// One member of a JSON object.
pub struct Member {
    pub key: String,
    pub value: Json,
}

/// The model of a JSON value.
pub enum JsonV {
    Null,
    Bool(bool),
    Number { unsigned: Option<u64>, double_bits: Option<u64> },
    Text(Seq<char>),
    Array(Seq<JsonV>),
    Object(Seq<(Seq<char>, JsonV)>),
}

/// The model of a value.
pub open spec fn json_view(j: Json) -> JsonV
    decreases j,
{
    match j {
        Json::Null => JsonV::Null,
        Json::Bool(b) => JsonV::Bool(b),
        Json::Number { unsigned, double_bits } => JsonV::Number { unsigned, double_bits },
        Json::Text(s) => JsonV::Text(s@),
        Json::Array(items) => JsonV::Array(item_views(items@)),
        Json::Object(members) => JsonV::Object(member_views(members@)),
    }
}

/// The models of the items of an array.
pub open spec fn item_views(items: Seq<Json>) -> Seq<JsonV>
    decreases items,
{
    if items.len() == 0 {
        Seq::empty()
    } else {
        item_views(items.drop_last()).push(json_view(items.last()))
    }
}

/// The models of the members of an object.
pub open spec fn member_views(members: Seq<Member>) -> Seq<(Seq<char>, JsonV)>
    decreases members,
{
    if members.len() == 0 {
        Seq::empty()
    } else {
        member_views(members.drop_last()).push(
            (members.last().key@, json_view(members.last().value)),
        )
    }
}

impl View for Json {
    type V = JsonV;

    open spec fn view(&self) -> JsonV {
        json_view(*self)
    }
}

/// The items of an array are modelled one by one.
pub proof fn lemma_item_views(items: Seq<Json>)
    ensures
        item_views(items).len() == items.len(),
        forall|i: int| 0 <= i < items.len() ==> #[trigger] item_views(items)[i] == items[i]@,
    decreases items.len(),
{
    if items.len() > 0 {
        lemma_item_views(items.drop_last());
        assert forall|i: int| 0 <= i < items.len() implies #[trigger] item_views(items)[i]
            == items[i]@ by {
            if i < items.len() - 1 {
                assert(item_views(items.drop_last())[i] == items.drop_last()[i]@);
            }
        }
    }
}

/// The members of an object are modelled one by one.
pub proof fn lemma_member_views(members: Seq<Member>)
    ensures
        member_views(members).len() == members.len(),
        forall|i: int|
            0 <= i < members.len() ==> #[trigger] member_views(members)[i] == (
                members[i].key@,
                members[i].value@,
            ),
    decreases members.len(),
{
    if members.len() > 0 {
        lemma_member_views(members.drop_last());
        assert forall|i: int| 0 <= i < members.len() implies #[trigger] member_views(members)[i]
            == (members[i].key@, members[i].value@) by {
            if i < members.len() - 1 {
                let front = members.drop_last();
                assert(member_views(front)[i] == (front[i].key@, front[i].value@));
            }
        }
    }
}

#[verifier::external_type_specification]
#[verifier::external_body]
pub struct ExValue(serde_json::Value);

#[verifier::external_type_specification]
#[verifier::external_body]
pub struct ExError(serde_json::Error);

/// What a parsed `serde_json::Value` holds.
pub uninterp spec fn value_content(value: serde_json::Value) -> JsonV;

/// What `serde_json::from_slice` reads from some bytes: nothing where they are
/// no JSON text.
pub uninterp spec fn parsed_json(bytes: Seq<u8>) -> Option<JsonV>;

/// `serde_json::from_slice` parses a JSON text into a value, or fails.
#[verifier::external_body]
fn parse_value(bytes: &[u8]) -> (r: Result<serde_json::Value, serde_json::Error>)
    ensures
        match r {
            Ok(value) => parsed_json(bytes@) == Some(value_content(value)),
            Err(_) => parsed_json(bytes@) == None::<JsonV>,
        },
{
    serde_json::from_slice(bytes)
}

/// The variants of `serde_json::Value`, with `Number::as_u64`, the bits of
/// `Number::as_f64` and the members of a `serde_json::Map` in its own order.
#[verifier::external_body]
fn json_of(value: serde_json::Value) -> (j: Json)
    ensures
        j@ == value_content(value),
{
    match value {
        serde_json::Value::Null => Json::Null,
        serde_json::Value::Bool(b) => Json::Bool(b),
        serde_json::Value::Number(n) => {
            Json::Number { unsigned: n.as_u64(), double_bits: n.as_f64().map(|x| x.to_bits()) }
        }
        serde_json::Value::String(s) => Json::Text(s),
        serde_json::Value::Array(items) => Json::Array(items.into_iter().map(json_of).collect()),
        serde_json::Value::Object(m) => Json::Object(
            m.into_iter().map(|(key, value)| Member { key, value: json_of(value) }).collect(),
        ),
    }
}

/// Read a JSON text.
pub fn read_json(bytes: &[u8]) -> (r: Option<Json>)
    ensures
        match r {
            Some(j) => parsed_json(bytes@) == Some(j@),
            None => parsed_json(bytes@) == None::<JsonV>,
        },
{
    match parse_value(bytes) {
        Ok(value) => Some(json_of(value)),
        Err(_) => None,
    }
}

/// The value of the first member with a key.
pub open spec fn member_of(members: Seq<(Seq<char>, JsonV)>, key: Seq<char>) -> Option<JsonV>
    decreases members.len(),
{
    if members.len() == 0 {
        None
    } else if members[0].0 == key {
        Some(members[0].1)
    } else {
        member_of(members.skip(1), key)
    }
}

/// The member of an object; nothing of any other value.
pub open spec fn member(j: JsonV, key: Seq<char>) -> Option<JsonV> {
    match j {
        JsonV::Object(members) => member_of(members, key),
        _ => None,
    }
}

/// The member of an object, `null` where it has none.
pub open spec fn at(j: JsonV, key: Seq<char>) -> JsonV {
    match member(j, key) {
        Some(v) => v,
        None => JsonV::Null,
    }
}

/// The text of a value that is a string.
pub open spec fn text_of(j: JsonV) -> Option<Seq<char>> {
    match j {
        JsonV::Text(s) => Some(s),
        _ => None,
    }
}

/// The value of an unsigned integer.
pub open spec fn unsigned_of(j: JsonV) -> Option<u64> {
    match j {
        JsonV::Number { unsigned, .. } => unsigned,
        _ => None,
    }
}

/// The bits of the double-precision form of a number.
pub open spec fn double_bits_of(j: JsonV) -> Option<u64> {
    match j {
        JsonV::Number { double_bits, .. } => double_bits,
        _ => None,
    }
}

/// A truth value.
pub open spec fn bool_of(j: JsonV) -> Option<bool> {
    match j {
        JsonV::Bool(b) => Some(b),
        _ => None,
    }
}

/// The items of an array.
pub open spec fn items_of(j: JsonV) -> Option<Seq<JsonV>> {
    match j {
        JsonV::Array(items) => Some(items),
        _ => None,
    }
}

/// The members of an object.
pub open spec fn members_of(j: JsonV) -> Option<Seq<(Seq<char>, JsonV)>> {
    match j {
        JsonV::Object(members) => Some(members),
        _ => None,
    }
}

impl Json {
    /// The member of an object with a key.
    pub fn get(&self, key: &str) -> (r: Option<&Json>)
        ensures
            match r {
                Some(v) => member(self@, key@) == Some(v@),
                None => member(self@, key@) == None::<JsonV>,
            },
    {
        let members = match self {
            Json::Object(members) => members,
            _ => {
                return None;
            },
        };
        let ghost views = member_views(members@);
        proof {
            lemma_member_views(members@);
            assert(views.skip(0) =~= views);
        }
        let mut i: usize = 0;
        while i < members.len()
            invariant
                i <= members@.len(),
                views == member_views(members@),
                views.len() == members@.len(),
                forall|k: int|
                    0 <= k < members@.len() ==> #[trigger] views[k] == (
                        members@[k].key@,
                        members@[k].value@,
                    ),
                member_of(views, key@) == member_of(views.skip(i as int), key@),
                self@ == JsonV::Object(views),
            decreases members@.len() - i,
        {
            proof {
                assert(views.skip(i as int)[0] == views[i as int]);
                assert(views.skip(i as int).skip(1) =~= views.skip(i + 1));
            }
            if same_text(members[i].key.as_str(), key) {
                return Some(&members[i].value);
            }
            i += 1;
        }
        None
    }

    /// Whether the value is `null`.
    pub fn is_null(&self) -> (r: bool)
        ensures
            r == (self@ == JsonV::Null),
    {
        match self {
            Json::Null => true,
            _ => false,
        }
    }

    /// The text of a string.
    pub fn as_str(&self) -> (r: Option<&str>)
        ensures
            match r {
                Some(s) => text_of(self@) == Some(s@),
                None => text_of(self@) == None::<Seq<char>>,
            },
    {
        match self {
            Json::Text(s) => Some(s.as_str()),
            _ => None,
        }
    }

    /// The value of an unsigned integer.
    pub fn as_u64(&self) -> (r: Option<u64>)
        ensures
            r == unsigned_of(self@),
    {
        match self {
            Json::Number { unsigned, .. } => *unsigned,
            _ => None,
        }
    }

    /// The bits of the double-precision form of a number.
    pub fn as_double_bits(&self) -> (r: Option<u64>)
        ensures
            r == double_bits_of(self@),
    {
        match self {
            Json::Number { double_bits, .. } => *double_bits,
            _ => None,
        }
    }

    /// A truth value.
    pub fn as_bool(&self) -> (r: Option<bool>)
        ensures
            r == bool_of(self@),
    {
        match self {
            Json::Bool(b) => Some(*b),
            _ => None,
        }
    }

    /// The items of an array.
    pub fn as_array(&self) -> (r: Option<&Vec<Json>>)
        ensures
            match r {
                Some(v) => items_of(self@) == Some(item_views(v@)),
                None => items_of(self@) == None::<Seq<JsonV>>,
            },
    {
        match self {
            Json::Array(items) => Some(items),
            _ => None,
        }
    }

    /// The members of an object.
    pub fn as_object(&self) -> (r: Option<&Vec<Member>>)
        ensures
            match r {
                Some(v) => members_of(self@) == Some(member_views(v@)),
                None => members_of(self@) == None::<Seq<(Seq<char>, JsonV)>>,
            },
    {
        match self {
            Json::Object(members) => Some(members),
            _ => None,
        }
    }

    /// The text of the member with a key.
    pub fn text_at(&self, key: &str) -> (r: Option<&str>)
        ensures
            match r {
                Some(s) => text_of(at(self@, key@)) == Some(s@),
                None => text_of(at(self@, key@)) == None::<Seq<char>>,
            },
    {
        match self.get(key) {
            Some(v) => v.as_str(),
            None => None,
        }
    }

    /// The value of the member with a key, where it is an unsigned integer.
    pub fn u64_at(&self, key: &str) -> (r: Option<u64>)
        ensures
            r == unsigned_of(at(self@, key@)),
    {
        match self.get(key) {
            Some(v) => v.as_u64(),
            None => None,
        }
    }

    /// The truth value of the member with a key.
    pub fn bool_at(&self, key: &str) -> (r: Option<bool>)
        ensures
            r == bool_of(at(self@, key@)),
    {
        match self.get(key) {
            Some(v) => v.as_bool(),
            None => None,
        }
    }

    /// The items of the member with a key.
    pub fn array_at(&self, key: &str) -> (r: Option<&Vec<Json>>)
        ensures
            match r {
                Some(v) => items_of(at(self@, key@)) == Some(item_views(v@)),
                None => items_of(at(self@, key@)) == None::<Seq<JsonV>>,
            },
    {
        match self.get(key) {
            Some(v) => v.as_array(),
            None => None,
        }
    }

    /// The members of the member with a key.
    pub fn object_at(&self, key: &str) -> (r: Option<&Vec<Member>>)
        ensures
            match r {
                Some(v) => members_of(at(self@, key@)) == Some(member_views(v@)),
                None => members_of(at(self@, key@)) == None::<Seq<(Seq<char>, JsonV)>>,
            },
    {
        match self.get(key) {
            Some(v) => v.as_object(),
            None => None,
        }
    }
}

/// A member is the first of its key: an object holds the value at the first place where
/// the key stands, and nothing exactly where it stands nowhere. No other value holds a
/// member.
pub proof fn law_the_first_member_of_a_key_counts(members: Seq<(Seq<char>, JsonV)>, key: Seq<char>)
    ensures
        match member(JsonV::Object(members), key) {
            Some(v) => at(JsonV::Object(members), key) == v && exists|i: int|
                0 <= i < members.len() && #[trigger] members[i] == (key, v) && forall|k: int|
                    0 <= k < i ==> (#[trigger] members[k]).0 != key,
            None => at(JsonV::Object(members), key) == JsonV::Null && forall|k: int|
                0 <= k < members.len() ==> (#[trigger] members[k]).0 != key,
        },
    decreases members.len(),
{
    if members.len() > 0 {
        if members[0].0 == key {
            assert(members[0] == (key, members[0].1));
        } else {
            let rest = members.skip(1);
            law_the_first_member_of_a_key_counts(rest, key);
            assert forall|k: int| 0 <= k < rest.len() implies #[trigger] rest[k] == members[k
                + 1] by {}
            match member_of(rest, key) {
                Some(v) => {
                    let i = choose|i: int|
                        0 <= i < rest.len() && #[trigger] rest[i] == (key, v) && forall|k: int|
                            0 <= k < i ==> (#[trigger] rest[k]).0 != key;
                    assert(members[i + 1] == (key, v));
                    assert forall|k: int| 0 <= k < i + 1 implies (#[trigger] members[k]).0 != key by {
                        if k > 0 {
                            assert(rest[k - 1] == members[k]);
                        }
                    }
                },
                None => {
                    assert forall|k: int| 0 <= k < members.len() implies (#[trigger] members[k]).0
                        != key by {
                        if k > 0 {
                            assert(rest[k - 1] == members[k]);
                        }
                    }
                },
            }
        }
    }
}

/// A value is read as what it is and as nothing else: a string gives its text, a number
/// its unsigned value and its bits where it has them, a truth value itself, an array
/// its items and an object its members.
pub proof fn law_a_value_is_read_as_what_it_is(j: JsonV, key: Seq<char>)
    ensures
        forall|s: Seq<char>| #[trigger] text_of(j) == Some(s) <==> j == JsonV::Text(s),
        forall|b: bool| #[trigger] bool_of(j) == Some(b) <==> j == JsonV::Bool(b),
        forall|s: Seq<JsonV>| #[trigger] items_of(j) == Some(s) <==> j == JsonV::Array(s),
        forall|s: Seq<(Seq<char>, JsonV)>| #[trigger]
            members_of(j) == Some(s) <==> j == JsonV::Object(s),
        forall|n: u64|
            unsigned_of(j) == Some(n) <==> (j matches JsonV::Number { unsigned, double_bits }
                && unsigned == Some(n)),
        forall|n: u64|
            double_bits_of(j) == Some(n) <==> (j matches JsonV::Number { unsigned, double_bits }
                && double_bits == Some(n)),
        !(j is Object) ==> member(j, key) == None::<JsonV> && at(j, key) == JsonV::Null,
{
}

/// A value is modelled by what it holds: each item of an array and each member of an
/// object at its own place.
pub proof fn law_a_value_is_modelled_item_by_item(items: Vec<Json>, members: Vec<Member>)
    ensures
        json_view(Json::Array(items)) matches JsonV::Array(views) && views.len() == items@.len()
            && forall|i: int| 0 <= i < items@.len() ==> #[trigger] views[i] == items@[i]@,
        json_view(Json::Object(members)) matches JsonV::Object(views) && views.len()
            == members@.len() && forall|i: int|
            0 <= i < members@.len() ==> (#[trigger] views[i]).0 == members@[i].key@ && views[i].1
                == members@[i].value@,
{
    lemma_item_views(items@);
    lemma_member_views(members@);
}

} // verus!
