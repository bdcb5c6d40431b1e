//! JSON texts, and what is found in them.

use vstd::prelude::*;

verus! {

/// The text of what a JSON text holds under a key, if it is an object that has the key, or why it is no
/// JSON text.
pub uninterp spec fn member_in(text: Seq<char>, key: Seq<char>) -> Result<Option<Seq<char>>, Seq<char>>;

/// The characters of a JSON string literal.
pub uninterp spec fn string_in(text: Seq<char>) -> Option<Seq<char>>;

/// The texts of the items of a JSON array.
pub uninterp spec fn items_in(text: Seq<char>) -> Option<Seq<Seq<char>>>;

/// The natural number below two to the power of 64 that a JSON text is.
pub uninterp spec fn natural_in(text: Seq<char>) -> Option<u64>;

/// The truth value that a JSON text is.
pub uninterp spec fn truth_in(text: Seq<char>) -> Option<bool>;

pub open spec fn text_in(s: Option<String>) -> Option<Seq<char>> {
    match s {
        Some(t) => Some(t@),
        None => None,
    }
}

pub open spec fn texts_in(s: Option<Vec<String>>) -> Option<Seq<Seq<char>>> {
    match s {
        Some(t) => Some(crate::locale::texts(t@)),
        None => None,
    }
}

pub open spec fn found(r: Result<Option<String>, String>) -> Result<Option<Seq<char>>, Seq<char>> {
    match r {
        Ok(s) => Ok(text_in(s)),
        Err(e) => Err(e@),
    }
}

/// Whether the code of a message is found as it was quoted.
pub open spec fn shows_code(
    text: Seq<char>,
    key: Seq<char>,
    r: Result<Option<Seq<char>>, Seq<char>>,
) -> bool {
    forall|code: Seq<char>, args: Seq<Seq<char>>|
        text == #[trigger] crate::locale::coded_message(code, args) && key == "code"@ ==> r == Ok::<
            Option<Seq<char>>,
            Seq<char>,
        >(Some(crate::locale::quoted(code)))
}

/// Whether a string comes back from how it is quoted.
pub open spec fn unquotes(text: Seq<char>, r: Option<Seq<char>>) -> bool {
    forall|s: Seq<char>| text == #[trigger] crate::locale::quoted(s) ==> r == Some(s)
}

/// Calls `serde_json::from_str` for a value of any kind, looks up a key with `Value::get`, and writes
/// what stands there with its `to_string`. All depends on the arguments alone. Of a message that carries
/// a code, the code is found as it was quoted.
#[verifier::external_body]
pub(crate) fn member(text: &str, key: &str) -> (r: Result<Option<String>, String>)
    ensures
        found(r) == member_in(text@, key@),
        shows_code(text@, key@, found(r)),
{
    let value = serde_json::from_str::<serde_json::Value>(text).map_err(|e| e.to_string())?;
    Ok(value.get(key).map(|m| m.to_string()))
}

/// Calls `serde_json::from_str` for a string, which depends on the text alone. A string comes back from
/// how it is quoted.
#[verifier::external_body]
pub(crate) fn string(text: &str) -> (r: Option<String>)
    ensures
        text_in(r) == string_in(text@),
        unquotes(text@, text_in(r)),
{
    serde_json::from_str::<String>(text).ok()
}

/// Calls `serde_json::from_str` for a list of values of any kind, and writes each with its `to_string`.
/// All depends on the text alone.
#[verifier::external_body]
pub(crate) fn items(text: &str) -> (r: Option<Vec<String>>)
    ensures
        texts_in(r) == items_in(text@),
{
    let list = serde_json::from_str::<Vec<serde_json::Value>>(text).ok()?;
    Some(list.iter().map(|v| v.to_string()).collect())
}

/// Calls `serde_json::from_str` for a `u64`, which depends on the text alone.
#[verifier::external_body]
pub(crate) fn natural(text: &str) -> (r: Option<u64>)
    ensures
        r == natural_in(text@),
{
    serde_json::from_str::<u64>(text).ok()
}

/// Calls `serde_json::from_str` for a `bool`, which depends on the text alone.
#[verifier::external_body]
pub(crate) fn truth(text: &str) -> (r: Option<bool>)
    ensures
        r == truth_in(text@),
{
    serde_json::from_str::<bool>(text).ok()
}

/// The text that an object has under a key, if it is there and is a string.
pub open spec fn string_under(text: Seq<char>, key: Seq<char>) -> Option<Seq<char>> {
    match member_in(text, key) {
        Ok(Some(m)) => string_in(m),
        _ => None,
    }
}

/// Looks up the text that an object has under a key.
pub fn find_string(text: &str, key: &str) -> (r: Option<String>)
    ensures
        text_in(r) == string_under(text@, key@),
        forall|code: Seq<char>, args: Seq<Seq<char>>|
            text@ == #[trigger] crate::locale::coded_message(code, args) && key@ == "code"@ ==> text_in(r)
                == Some(code),
{
    match member(text, key) {
        Ok(Some(m)) => string(&m),
        _ => None,
    }
}

/// The code that a text carries, or else the text.
pub open spec fn code_of(text: Seq<char>) -> Seq<char> {
    match string_under(text, "code"@) {
        Some(c) => c,
        None => text,
    }
}

/// Finds the code that a text carries. A message that was made of a code carries that code.
pub fn find_code(text: String) -> (r: String)
    ensures
        r@ == code_of(text@),
        forall|code: Seq<char>, args: Seq<Seq<char>>|
            text@ == #[trigger] crate::locale::coded_message(code, args) ==> r@ == code,
{
    match find_string(&text, "code") {
        Some(c) => c,
        None => text,
    }
}

}
