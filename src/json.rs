use vstd::prelude::*;

verus! {

#[verifier::external_type_specification]
#[verifier::external_body]
pub struct ExValue(serde_json::Value);

#[verifier::external_type_specification]
#[verifier::external_body]
pub struct ExError(serde_json::Error);

/// Whether serde_json reads a text as one JSON document.
pub uninterp spec fn json_accepts(s: Seq<char>) -> bool;

/// The JSON string literal that serde_json writes for a text.
pub uninterp spec fn json_quoted(s: Seq<char>) -> Seq<char>;

/// The string under `key` in the object that serde_json reads from `text`.
pub uninterp spec fn json_str_member(text: Seq<char>, key: Seq<char>) -> Option<Seq<char>>;

/// The text that serde_json prints for the number under `key` in the object
/// that it reads from `text`.
pub uninterp spec fn json_num_member(text: Seq<char>, key: Seq<char>) -> Option<Seq<char>>;

/// How many members the object under `key` has, in the object that
/// serde_json reads from `text`.
pub uninterp spec fn json_member_len(text: Seq<char>, key: Seq<char>) -> Option<nat>;

/// The string under `inner` in the object under `key`, in the object that
/// serde_json reads from `text`.
pub uninterp spec fn json_inner_str(text: Seq<char>, key: Seq<char>, inner: Seq<char>) -> Option<
    Seq<char>,
>;

/// Relies on serde_json::from_str into a Value: it succeeds exactly on the
/// texts that hold one JSON document.
#[verifier::external_body]
pub(crate) fn parse_value(s: &str) -> (r: Result<serde_json::Value, serde_json::Error>)
    ensures
        r is Ok == json_accepts(s@),
{
    serde_json::from_str::<serde_json::Value>(s)
}

/// Relies on serde_json::from_str, Value::get and Value::as_str: the string
/// member under `key`; `None` for an invalid text, a missing key or a value
/// that is no string.
#[verifier::external_body]
pub(crate) fn str_member(text: &str, key: &str) -> (r: Option<String>)
    ensures
        match r {
            Some(s) => json_str_member(text@, key@) == Some(s@),
            None => json_str_member(text@, key@) is None,
        },
{
    let v = serde_json::from_str::<serde_json::Value>(text).ok()?;
    Some(v.get(key)?.as_str()?.to_string())
}

/// Relies on serde_json::from_str, Value::get, Value::as_number and the
/// Display of Number: the printed text of the number member under `key`.
#[verifier::external_body]
pub(crate) fn num_member(text: &str, key: &str) -> (r: Option<String>)
    ensures
        match r {
            Some(s) => json_num_member(text@, key@) == Some(s@),
            None => json_num_member(text@, key@) is None,
        },
{
    let v = serde_json::from_str::<serde_json::Value>(text).ok()?;
    Some(v.get(key)?.as_number()?.to_string())
}

/// Relies on serde_json::from_str, Value::get, Value::as_object and
/// Map::len: the number of members of the object member under `key`.
#[verifier::external_body]
pub(crate) fn member_len(text: &str, key: &str) -> (r: Option<usize>)
    ensures
        match r {
            Some(n) => json_member_len(text@, key@) == Some(n as nat),
            None => json_member_len(text@, key@) is None,
        },
{
    let v = serde_json::from_str::<serde_json::Value>(text).ok()?;
    Some(v.get(key)?.as_object()?.len())
}

/// Relies on serde_json::from_str, Value::get and Value::as_str: the string
/// under `inner` in the object member under `key`.
#[verifier::external_body]
pub(crate) fn inner_str(text: &str, key: &str, inner: &str) -> (r: Option<String>)
    ensures
        match r {
            Some(s) => json_inner_str(text@, key@, inner@) == Some(s@),
            None => json_inner_str(text@, key@, inner@) is None,
        },
{
    let v = serde_json::from_str::<serde_json::Value>(text).ok()?;
    Some(v.get(key)?.get(inner)?.as_str()?.to_string())
}

/// Relies on serde_json::to_string on a string: the quoted, escaped literal.
/// A string is written into a Vec, which does not fail.
#[verifier::external_body]
pub(crate) fn quote(s: &str) -> (r: Result<String, serde_json::Error>)
    ensures
        r is Ok,
        r matches Ok(q) ==> q@ == json_quoted(s@),
{
    serde_json::to_string(s)
}

} // verus!
