//! Reading one string member of a JSON object held as text, through `serde_json`.

use vstd::prelude::*;
use crate::text::opt_text;

verus! {

/// The string that `serde_json` finds under `key` when it parses `text` as a
/// JSON value: `None` when the text is not JSON, the value is not an object,
/// the member is missing, or the member is not a string.
pub uninterp spec fn json_member_str(text: Seq<char>, key: Seq<char>) -> Option<Seq<char>>;

/// Parses `text` with `serde_json::from_str::<serde_json::Value>` and, when it
/// parses, takes member `key` with `Value::get` and its string with
/// `Value::as_str`.
///
/// The contract names the result (`json_member_str`), a function of `text`
/// and `key` alone; what JSON text gives which member is left to serde_json.
#[verifier::external_body]
pub(crate) fn json_string_member(text: &str, key: &str) -> (r: Option<String>)
    ensures
        opt_text(r) == json_member_str(text@, key@),
{
    let value = serde_json::from_str::<serde_json::Value>(text).ok()?;
    let member = value.get(key)?;
    let s = member.as_str()?;
    Some(s.to_string())
}

} // verus!
