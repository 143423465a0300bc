//! JSON documents as plain values, and the call that reads one from text.

use serde_json::Value;
use vstd::prelude::*;

verus! {

#[verifier::external_type_specification]
#[verifier::external_body]
pub struct ExJsonValue(Value);

/// A JSON document. A number keeps its value only where it is an unsigned
/// integer of at most 64 bits; the fields of an object are in the order in
/// which the reader hands them out.
#[derive(Debug)]
pub enum Json {
    Null,
    Bool(bool),
    Number(Option<u64>),
    Text(String),
    Array(Vec<Json>),
    Object(Vec<(String, Json)>),
}

/// The mathematical value of a JSON document.
pub enum JsonView {
    Null,
    Bool(bool),
    Number(Option<u64>),
    Text(Seq<char>),
    Array(Seq<JsonView>),
    Object(Seq<(Seq<char>, JsonView)>),
}

/// The value of a document.
pub open spec fn value_of(json: Json) -> JsonView
    decreases json,
{
    match json {
        Json::Null => JsonView::Null,
        Json::Bool(b) => JsonView::Bool(b),
        Json::Number(n) => JsonView::Number(n),
        Json::Text(s) => JsonView::Text(s@),
        Json::Array(items) => JsonView::Array(values_of(items@, items@.len())),
        Json::Object(fields) => JsonView::Object(named_values_of(fields@, fields@.len())),
    }
}

/// The values of the first `n` documents of `items`.
pub open spec fn values_of(items: Seq<Json>, n: nat) -> Seq<JsonView>
    decreases items, n,
{
    if n == 0 || n > items.len() {
        Seq::empty()
    } else {
        values_of(items, (n - 1) as nat).push(value_of(items[n - 1]))
    }
}

/// The names and values of the first `n` fields of `fields`.
pub open spec fn named_values_of(fields: Seq<(String, Json)>, n: nat) -> Seq<(Seq<char>, JsonView)>
    decreases fields, n,
{
    if n == 0 || n > fields.len() {
        Seq::empty()
    } else {
        named_values_of(fields, (n - 1) as nat).push((fields[n - 1].0@, value_of(fields[n - 1].1)))
    }
}

impl View for Json {
    type V = JsonView;

    open spec fn view(&self) -> JsonView {
        value_of(*self)
    }
}

proof fn lemma_values_of(items: Seq<Json>, n: nat)
    requires
        n <= items.len(),
    ensures
        values_of(items, n).len() == n,
        forall|j: int| 0 <= j < n ==> #[trigger] values_of(items, n)[j] == items[j]@,
    decreases n,
{
    if n > 0 {
        lemma_values_of(items, (n - 1) as nat);
    }
}

proof fn lemma_named_values_of(fields: Seq<(String, Json)>, n: nat)
    requires
        n <= fields.len(),
    ensures
        named_values_of(fields, n).len() == n,
        forall|j: int|
            0 <= j < n ==> #[trigger] named_values_of(fields, n)[j] == (fields[j].0@, fields[j].1@),
    decreases n,
{
    if n > 0 {
        lemma_named_values_of(fields, (n - 1) as nat);
    }
}

/// The value of an object is the sequence of its named values.
pub proof fn lemma_object_view(fields: Vec<(String, Json)>)
    ensures
        Json::Object(fields)@ matches JsonView::Object(all) && all.len() == fields@.len()
            && forall|j: int|
            0 <= j < fields@.len() ==> #[trigger] all[j] == (fields@[j].0@, fields@[j].1@),
{
    lemma_named_values_of(fields@, fields@.len());
}

/// The value of an array is the sequence of the values of its items.
pub proof fn lemma_array_view(items: Vec<Json>)
    ensures
        Json::Array(items)@ matches JsonView::Array(all) && all.len() == items@.len()
            && forall|j: int| 0 <= j < items@.len() ==> #[trigger] all[j] == items@[j]@,
{
    lemma_values_of(items@, items@.len());
}

/// The document that a text denotes, or `None` where the text is no JSON
/// document. Stands for the result of `serde_json::from_str`.
pub uninterp spec fn json_document(text: Seq<char>) -> Option<JsonView>;

/// Trusted: turns a `serde_json::Value` into a `Json`, variant by variant.
/// A number is read with `serde_json::Number::as_u64`, an object with
/// `serde_json::Map::iter`. Nothing is claimed of the result.
#[verifier::external_body]
fn json_of_value(value: &Value) -> (json: Json) {
    match value {
        Value::Null => Json::Null,
        Value::Bool(b) => Json::Bool(*b),
        Value::Number(n) => Json::Number(n.as_u64()),
        Value::String(s) => Json::Text(s.clone()),
        Value::Array(items) => Json::Array(items.iter().map(json_of_value).collect()),
        Value::Object(fields) => Json::Object(
            fields.iter().map(|(k, v)| (k.clone(), json_of_value(v))).collect(),
        ),
    }
}

/// Trusted: `serde_json::from_str` at the type `serde_json::Value`. The
/// contract claims that the outcome depends on the text alone: it names the
/// document that the text denotes, and says that the call fails exactly
/// where the text denotes none.
#[verifier::external_body]
pub(crate) fn read_json(text: &str) -> (outcome: Result<Json, serde_json::Error>)
    ensures
        match outcome {
            Ok(json) => json_document(text@) == Some(json@),
            Err(_) => json_document(text@).is_none(),
        },
{
    match serde_json::from_str::<Value>(text) {
        Ok(value) => Ok(json_of_value(&value)),
        Err(error) => Err(error),
    }
}

/// The value of the first field named `key`, if there is one.
pub open spec fn field_of(fields: Seq<(Seq<char>, JsonView)>, key: Seq<char>) -> Option<JsonView>
    decreases fields.len(),
{
    if fields.len() == 0 {
        None
    } else if fields[0].0 == key {
        Some(fields[0].1)
    } else {
        field_of(fields.skip(1), key)
    }
}

/// The number that a document holds, if it is one that fits in 32 bits.
pub open spec fn as_u32(value: JsonView) -> Option<u32> {
    match value {
        JsonView::Number(Some(n)) => if n <= u32::MAX {
            Some(n as u32)
        } else {
            None
        },
        _ => None,
    }
}

/// The truth value that a document holds, if it is one.
pub open spec fn as_bool(value: JsonView) -> Option<bool> {
    match value {
        JsonView::Bool(b) => Some(b),
        _ => None,
    }
}

/// The string that a document holds, if it is one.
pub open spec fn as_text(value: JsonView) -> Option<Seq<char>> {
    match value {
        JsonView::Text(s) => Some(s),
        _ => None,
    }
}

/// The numbers that a document holds, if it is an array of numbers that
/// fit in 32 bits.
pub open spec fn as_u32_list(value: JsonView) -> Option<Seq<u32>> {
    match value {
        JsonView::Array(items) => if forall|i: int|
            0 <= i < items.len() ==> as_u32(#[trigger] items[i]).is_some() {
            Some(Seq::new(items.len(), |i: int| as_u32(items[i]).unwrap()))
        } else {
            None
        },
        _ => None,
    }
}

impl Json {
    /// Looks a field of an object up by its name. `None` where the document
    /// is no object or has no such field.
    pub fn field<'a>(&'a self, key: &str) -> (found: Option<&'a Json>)
        ensures
            match self@ {
                JsonView::Object(fields) => match found {
                    Some(value) => field_of(fields, key@) == Some(value@),
                    None => field_of(fields, key@).is_none(),
                },
                _ => found.is_none(),
            },
    {
        match self {
            Json::Object(fields) => {
                let ghost all = self@->Object_0;
                let wanted = crate::text::chars_of(key);
                let mut i: usize = 0;
                proof {
                    assert(all.skip(0) =~= all);
                    lemma_object_view(*fields);
                }
                while i < fields.len()
                    invariant
                        i <= fields.len(),
                        wanted@ == key@,
                        self@ == JsonView::Object(all),
                        all.len() == fields@.len(),
                        forall|j: int|
                            0 <= j < fields@.len() ==> #[trigger] all[j] == (
                                fields@[j].0@,
                                fields@[j].1@,
                            ),
                        field_of(all.skip(i as int), key@) == field_of(all, key@),
                    decreases fields.len() - i,
                {
                    let name = crate::text::chars_of(fields[i].0.as_str());
                    proof {
                        assert(all.skip(i as int)[0] == all[i as int]);
                        assert(all[i as int] == (fields@[i as int].0@, fields@[i as int].1@));
                        assert(all.skip(i as int).skip(1) =~= all.skip(i + 1));
                    }
                    if crate::text::same_chars(&name, &wanted) {
                        return Some(&fields[i].1);
                    }
                    i += 1;
                }
                None
            },
            _ => None,
        }
    }

    /// The number that the document holds, if it fits in 32 bits.
    pub fn to_u32(&self) -> (number: Option<u32>)
        ensures
            number == as_u32(self@),
    {
        match self {
            Json::Number(Some(n)) => if *n <= u32::MAX as u64 {
                Some(*n as u32)
            } else {
                None
            },
            _ => None,
        }
    }

    /// The truth value that the document holds.
    pub fn to_bool(&self) -> (flag: Option<bool>)
        ensures
            flag == as_bool(self@),
    {
        match self {
            Json::Bool(b) => Some(*b),
            _ => None,
        }
    }

    /// The string that the document holds.
    pub fn to_text(&self) -> (text: Option<String>)
        ensures
            match text {
                Some(s) => as_text(self@) == Some(s@),
                None => as_text(self@).is_none(),
            },
    {
        match self {
            Json::Text(s) => Some(s.clone()),
            _ => None,
        }
    }

    /// The numbers that the document holds, if it is an array of numbers
    /// that fit in 32 bits.
    pub fn to_u32_list(&self) -> (numbers: Option<Vec<u32>>)
        ensures
            match numbers {
                Some(list) => as_u32_list(self@) == Some(list@),
                None => as_u32_list(self@).is_none(),
            },
    {
        match self {
            Json::Array(items) => {
                let ghost all = self@->Array_0;
                let mut list: Vec<u32> = Vec::new();
                let mut i: usize = 0;
                proof {
                    lemma_array_view(*items);
                }
                while i < items.len()
                    invariant
                        i <= items.len(),
                        self@ == JsonView::Array(all),
                        all.len() == items@.len(),
                        forall|j: int| 0 <= j < items@.len() ==> #[trigger] all[j] == items@[j]@,
                        list@.len() == i,
                        forall|j: int| 0 <= j < i ==> as_u32(#[trigger] all[j]) == Some(list@[j]),
                    decreases items.len() - i,
                {
                    assert(all[i as int] == items@[i as int]@);
                    match items[i].to_u32() {
                        Some(n) => {
                            list.push(n);
                        },
                        None => {
                            return None;
                        },
                    }
                    i += 1;
                }
                proof {
                    assert(list@ =~= Seq::new(all.len(), |i: int| as_u32(all[i]).unwrap()));
                }
                Some(list)
            },
            _ => None,
        }
    }
}

} // verus!
