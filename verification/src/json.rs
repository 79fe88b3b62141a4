//! JSON values as the extractor reads them.
//!
//! Parsing and printing are done by `serde_json`. What it parsed is handed
//! over as a [`Json`] tree, so that the rules that read a record are plain
//! code over plain data. An array and an object carry, beside their parts,
//! the compact text that `serde_json` prints for them.

use vstd::prelude::*;

verus! {

/// One JSON value.
#[derive(Debug, PartialEq, Eq)]
pub enum Json {
    /// `null`
    Null,
    /// `true` or `false`
    Bool(bool),
    /// A number, held as the text that is printed for it.
    Number(String),
    /// A string, held as its content without quotes and escapes.
    Text(String),
    /// An array: its elements in order, and the text that is printed for it.
    Array { items: Vec<Json>, text: String },
    /// An object: its members, each key once, and the text that is printed
    /// for it.
    Object { members: Vec<(String, Json)>, text: String },
}

/// `serde_json::Value`, of which nothing is seen here.
#[verifier::external_type_specification]
#[verifier::external_body]
pub struct ExValue(serde_json::Value);

/// `serde_json::Error`, of which nothing is seen here.
#[verifier::external_type_specification]
#[verifier::external_body]
pub struct ExError(serde_json::Error);

/// What `serde_json::from_slice` makes of `bytes` as a `serde_json::Value`,
/// handed over as a [`Json`]: the value, or `None` where it reports an
/// error. The texts that the value holds for its numbers, arrays and objects
/// are what `serde_json` prints for them (`Value::to_string`).
pub uninterp spec fn parsed(bytes: Seq<u8>) -> Option<Json>;

/// Hands a `serde_json::Value` over as a [`Json`], variant by variant. The
/// text of a number, an array or an object is what the value's `to_string`
/// gives, and an object's members come in the order in which `serde_json`
/// holds them.
#[verifier::external_body]
fn json_from_value(v: serde_json::Value) -> Json {
    let text = v.to_string();
    match v {
        serde_json::Value::Null => Json::Null,
        serde_json::Value::Bool(b) => Json::Bool(b),
        serde_json::Value::Number(_) => Json::Number(text),
        serde_json::Value::String(s) => Json::Text(s),
        serde_json::Value::Array(a) => Json::Array {
            items: a.into_iter().map(json_from_value).collect(),
            text,
        },
        serde_json::Value::Object(m) => Json::Object {
            members: m.into_iter().map(|(k, v)| (k, json_from_value(v))).collect(),
            text,
        },
    }
}

/// Calls `serde_json::from_slice` for a `serde_json::Value`. The result is
/// the value that [`parsed`] names, or the error that `serde_json` reported
/// where it names none.
#[verifier::external_body]
fn value_from_slice(bytes: &[u8]) -> (r: Result<Json, serde_json::Error>)
    ensures
        r matches Ok(j) ==> parsed(bytes@) == Some(j),
        r is Err ==> parsed(bytes@) is None,
{
    serde_json::from_slice::<serde_json::Value>(bytes).map(json_from_value)
}

/// A record that is not valid UTF-8 or not valid JSON.
#[derive(Debug)]
pub struct MalformedObject {}

/// The first member of `members` from position `from` on whose key is `key`.
pub open spec fn member_from(members: Seq<(String, Json)>, key: Seq<char>, from: int) -> Option<
    Json,
>
    decreases members.len() - from,
{
    if from < 0 || from >= members.len() {
        None
    } else if members[from].0@ == key {
        Some(members[from].1)
    } else {
        member_from(members, key, from + 1)
    }
}

impl Json {
    /// The member of an object under `key`; `None` where there is no such
    /// member or the value is no object.
    pub open spec fn member(self, key: Seq<char>) -> Option<Json> {
        match self {
            Json::Object { members, .. } => member_from(members@, key, 0),
            _ => None,
        }
    }

    /// The value as a plain string: the content of a JSON string, the
    /// compact JSON text of anything else.
    pub open spec fn text(self) -> Seq<char> {
        match self {
            Json::Null => "null"@,
            Json::Bool(b) => if b {
                "true"@
            } else {
                "false"@
            },
            Json::Number(text) => text@,
            Json::Text(s) => s@,
            Json::Array { text, .. } => text@,
            Json::Object { text, .. } => text@,
        }
    }

    /// Gives the value as a plain string, without the quotes that the JSON
    /// text of a string would have.
    pub fn stringify(&self) -> (s: String)
        ensures
            s@ == self.text(),
    {
        match self {
            Json::Null => "null".to_owned(),
            Json::Bool(b) => if *b {
                "true".to_owned()
            } else {
                "false".to_owned()
            },
            Json::Number(text) => text.clone(),
            Json::Text(s) => s.clone(),
            Json::Array { text, .. } => text.clone(),
            Json::Object { text, .. } => text.clone(),
        }
    }

    /// Looks a member of an object up by its key.
    pub fn get(&self, key: &str) -> (found: Option<&Json>)
        ensures
            found matches Some(j) ==> self.member(key@) == Some(*j),
            found is None <==> self.member(key@) is None,
    {
        match self {
            Json::Object { members, .. } => {
                let wanted = key.to_owned();
                let mut i: usize = 0;
                while i < members.len()
                    invariant
                        i <= members@.len(),
                        wanted@ == key@,
                        self.member(key@) == member_from(members@, key@, i as int),
                    decreases members@.len() - i,
                {
                    if members[i].0 == wanted {
                        return Some(&members[i].1);
                    }
                    i += 1;
                }
                None
            },
            _ => None,
        }
    }
}

/// Parses one JSON value from `bytes`.
pub fn parse(bytes: &[u8]) -> (r: Result<Json, MalformedObject>)
    ensures
        r matches Ok(j) ==> parsed(bytes@) == Some(j),
        r is Err <==> parsed(bytes@) is None,
{
    match value_from_slice(bytes) {
        Ok(j) => Ok(j),
        Err(_) => Err(MalformedObject {  }),
    }
}

} // verus!
