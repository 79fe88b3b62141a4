//! From one parsed record to a debt record: a company, phones and a debt.

use crate::json::{parse, parsed, Json, MalformedObject};
use vstd::prelude::*;

verus! {

/// The amount of a record as the record states it. Turning it into a number
/// is left to the caller.
#[derive(Debug, Clone, PartialEq, Eq)]
pub enum Debt {
    /// A JSON number, as its JSON text.
    Number(String),
    /// A JSON string, to be read as a number; it counts as zero where it is
    /// none.
    Text(String),
    /// Nothing that could be an amount: it counts as zero.
    Zero,
}

/// What one record says.
#[derive(Debug, Clone, PartialEq, Eq)]
pub struct DebtRec {
    /// The company's name.
    pub company: String,
    /// The phones in the order of the record; one phone may occur twice.
    pub phones: Vec<String>,
    /// The amount owed.
    pub debt: Debt,
}

/// A debt record in contracts.
pub struct DebtRecView {
    pub company: Seq<char>,
    pub phones: Seq<Seq<char>>,
    pub debt: Debt,
}

/// The contents of a list of strings.
pub open spec fn texts(v: Seq<String>) -> Seq<Seq<char>> {
    Seq::new(v.len(), |i: int| v[i]@)
}

/// The plain strings of a list of values.
pub open spec fn item_texts(items: Seq<Json>) -> Seq<Seq<char>> {
    Seq::new(items.len(), |i: int| items[i].text())
}

impl View for DebtRec {
    type V = DebtRecView;

    open spec fn view(&self) -> DebtRecView {
        DebtRecView { company: self.company@, phones: texts(self.phones@), debt: self.debt }
    }
}

/// The company of a record `o`: the member `company` where it is a string;
/// where it is an object, that object's member `name` if that is a string,
/// else the object's JSON text; the JSON text of any other value; and the
/// empty string where `o` has no such member.
pub open spec fn company_of(o: Json) -> Seq<char> {
    match o.member("company"@) {
        None => Seq::empty(),
        Some(c) => match c.member("name"@) {
            Some(Json::Text(name)) => name@,
            _ => c.text(),
        },
    }
}

/// The phones that the member `phones` of a record gives: each element of an
/// array, the one value of anything else, none for `null` or no member.
pub open spec fn listed_phones(o: Json) -> Seq<Seq<char>> {
    match o.member("phones"@) {
        None => Seq::empty(),
        Some(Json::Null) => Seq::empty(),
        Some(Json::Array { items, .. }) => item_texts(items@),
        Some(p) => seq![p.text()],
    }
}

/// The phone that the member `phone` of a record gives, if any.
pub open spec fn single_phone(o: Json) -> Seq<Seq<char>> {
    match o.member("phone"@) {
        None => Seq::empty(),
        Some(Json::Null) => Seq::empty(),
        Some(p) => seq![p.text()],
    }
}

/// The phones of a record `o`: those of its member `phones`, then that of
/// its member `phone`.
pub open spec fn phones_of(o: Json) -> Seq<Seq<char>> {
    listed_phones(o) + single_phone(o)
}

/// The debt of a record `o`: its member `debt` where that is a number or a
/// string, zero otherwise.
pub open spec fn debt_of(o: Json) -> Debt {
    match o.member("debt"@) {
        Some(Json::Number(text)) => Debt::Number(text),
        Some(Json::Text(s)) => Debt::Text(s),
        _ => Debt::Zero,
    }
}

/// What a record `o` says.
pub open spec fn extracted(o: Json) -> DebtRecView {
    DebtRecView { company: company_of(o), phones: phones_of(o), debt: debt_of(o) }
}

/// The bytes are no JSON value: not valid UTF-8, or not valid JSON.
pub open spec fn malformed(bytes: Seq<u8>) -> bool {
    parsed(bytes) is None
}

/// What the bytes of one record say, where they are a JSON object: `None`
/// where they are malformed, and where they are a JSON value of another
/// kind, which is no record.
pub open spec fn decoded(bytes: Seq<u8>) -> Option<DebtRecView> {
    match parsed(bytes) {
        Some(o) => if o is Object {
            Some(extracted(o))
        } else {
            None
        },
        None => None,
    }
}

/// Reads the company, the phones and the debt off a parsed record. A value
/// that is no object has no members, and gives an empty record.
pub fn extract_data(o: &Json) -> (dr: DebtRec)
    ensures
        dr@ == extracted(*o),
{
    let company = match o.get("company") {
        None => String::new(),
        Some(c) => match c.get("name") {
            Some(Json::Text(name)) => name.clone(),
            _ => c.stringify(),
        },
    };
    let mut phones: Vec<String> = Vec::new();
    match o.get("phones") {
        None => {},
        Some(Json::Null) => {},
        Some(Json::Array { items, .. }) => {
            let mut i: usize = 0;
            while i < items.len()
                invariant
                    i <= items@.len(),
                    phones@.len() == i,
                    forall|j: int| 0 <= j < i ==> phones@[j]@ == items@[j].text(),
                decreases items@.len() - i,
            {
                phones.push(items[i].stringify());
                i += 1;
            }
            assert(texts(phones@) =~= item_texts(items@));
        },
        Some(p) => {
            phones.push(p.stringify());
        },
    }
    assert(texts(phones@) =~= listed_phones(*o));
    match o.get("phone") {
        None => {},
        Some(Json::Null) => {},
        Some(p) => {
            phones.push(p.stringify());
        },
    }
    assert(texts(phones@) =~= phones_of(*o));
    let debt = match o.get("debt") {
        Some(Json::Number(text)) => Debt::Number(text.clone()),
        Some(Json::Text(s)) => Debt::Text(s.clone()),
        _ => Debt::Zero,
    };
    DebtRec { company, phones, debt }
}

/// Parses the bytes of one record and reads it. Malformed bytes are an
/// error. A JSON value that is no object is no error and no record: it is
/// dropped, and `None` comes back.
pub fn decode(bytes: &[u8]) -> (r: Result<Option<DebtRec>, MalformedObject>)
    ensures
        r is Err <==> malformed(bytes@),
        r matches Ok(Some(dr)) ==> decoded(bytes@) == Some(dr@),
        r matches Ok(None) ==> decoded(bytes@) is None,
{
    match parse(bytes) {
        Ok(o) => match o {
            Json::Object { .. } => Ok(Some(extract_data(&o))),
            _ => Ok(None),
        },
        Err(e) => Err(e),
    }
}

} // verus!
