//! Calls into `uuid`, `chrono` and `serde_json`: identifiers, wall-clock time,
//! and reading label values, which are JSON documents in text form.
use vstd::prelude::*;
use crate::model::Instant;

verus! {

/// A lower-case hexadecimal digit.
pub open spec fn lower_hex(c: char) -> bool {
    ('0' <= c && c <= '9') || ('a' <= c && c <= 'f')
}

/// The hyphenated text form of a UUID: 36 characters, hyphens at places 8, 13,
/// 18 and 23, lower-case hexadecimal digits elsewhere.
pub open spec fn uuid_text(s: Seq<char>) -> bool {
    &&& s.len() == 36
    &&& forall|i: int| 0 <= i < 36 ==> if i == 8 || i == 13 || i == 18 || i == 23 {
        #[trigger] s[i] == '-'
    } else {
        lower_hex(s[i])
    }
}

/// A fresh random version-4 UUID from `uuid::Uuid::new_v4`, written by its
/// `Display` impl, which is the lower-case hyphenated form (`fmt.rs`,
/// `format_hyphenated`). Its digits are random; only that form is stated.
#[verifier::external_body]
pub fn new_id() -> (r: String)
    ensures
        uuid_text(r@),
{
    uuid::Uuid::new_v4().to_string()
}

/// The current UTC time from `chrono::Utc::now`, as seconds and nanoseconds
/// since the Unix epoch. Nothing is stated of its value: it is the machine's clock.
#[verifier::external_body]
pub fn now() -> (r: Instant) {
    let t = chrono::Utc::now();
    Instant { secs: t.timestamp(), nanos: t.timestamp_subsec_nanos() }
}

/// The string a JSON text holds, as `serde_json` reads it: `Some` when the text
/// is a single JSON string, `None` for any other document or malformed text.
pub uninterp spec fn json_text_str(text: Seq<char>) -> Option<Seq<char>>;

/// `serde_json::from_str` of a JSON text into a `serde_json::Value`, then its
/// string if it is one. The result is `json_text_str` of the text; the JSON
/// grammar and its escapes are `serde_json`'s, named here and not spelled out.
#[verifier::external_body]
pub fn json_as_str(text: &str) -> (r: Option<String>)
    ensures
        match r {
            Some(s) => json_text_str(text@) == Some(s@),
            None => json_text_str(text@) is None,
        },
{
    match serde_json::from_str::<serde_json::Value>(text) {
        Ok(serde_json::Value::String(s)) => Some(s),
        _ => None,
    }
}

/// The unsigned integer a JSON text holds, as `serde_json` reads it: `Some`
/// when the text is a single JSON number that is an integer in `u64` range.
pub uninterp spec fn json_text_u64(text: Seq<char>) -> Option<u64>;

/// `serde_json::from_str` of a JSON text into a `serde_json::Value`, then
/// `Value::as_u64`. The result is `json_text_u64` of the text.
#[verifier::external_body]
pub fn json_as_u64(text: &str) -> (r: Option<u64>)
    ensures
        r == json_text_u64(text@),
{
    match serde_json::from_str::<serde_json::Value>(text) {
        Ok(v) => v.as_u64(),
        Err(_) => None,
    }
}

} // verus!
