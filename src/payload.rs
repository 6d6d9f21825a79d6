//! Replies of the remote lookup service and the parse of their bodies.

use vstd::prelude::*;

verus! {

#[verifier::external_type_specification]
#[verifier::external_body]
pub struct ExValue(serde_json::Value);

/// What serde_json makes of a body text: `None` when it refuses it (malformed
/// JSON, trailing characters, nesting deeper than its limit, a number out of
/// range), `Some(Some(b))` when it is the boolean `b`, `Some(None)` for any
/// other value.
pub uninterp spec fn json_shape(text: Seq<char>) -> Option<Option<bool>>;

/// Relies on `serde_json::from_str::<serde_json::Value>`: its result depends on
/// the text alone, it does not panic, and the text `false` is the boolean
/// `false`.
#[verifier::external_body]
fn parse_json(text: &str) -> (r: Option<(serde_json::Value, Option<bool>)>)
    ensures
        match r {
            Some((_, b)) => json_shape(text@) == Some(b),
            None => json_shape(text@) is None,
        },
        text@ == "false"@ ==> (match r {
            Some((_, b)) => b == Some(false),
            None => false,
        }),
{
    match serde_json::from_str::<serde_json::Value>(text) {
        Ok(v) => {
            let b = match &v {
                serde_json::Value::Bool(b) => Some(*b),
                _ => None,
            };
            Some((v, b))
        },
        Err(_) => None,
    }
}

/// What the lookup client brought back for one identifier.
pub enum Reply {
    /// The request failed before any status came back, or the task making it
    /// was lost.
    Unreachable,
    /// The service answered with status `code`; `body` is the text that was
    /// read, `None` when reading it failed or it was not read.
    Status { code: u16, body: Option<String> },
}

/// A status code in the 2xx range.
pub open spec fn is_success_code(code: u16) -> bool {
    200 <= code && code < 300
}

pub fn is_success(code: u16) -> (r: bool)
    ensures
        r == is_success_code(code),
{
    200 <= code && code < 300
}

/// The body that a reply offers for interpretation: that of a successful
/// status whose text was read.
pub open spec fn offered_body(reply: &Reply) -> Option<Seq<char>> {
    match reply {
        Reply::Unreachable => None,
        Reply::Status { code, body } => if is_success_code(*code) {
            match body {
                Some(t) => Some(t@),
                None => None,
            }
        } else {
            None
        },
    }
}

/// A body text parsed as JSON, and which boolean it is, if any.
pub struct Parsed {
    pub value: serde_json::Value,
    pub as_bool: Option<bool>,
}

/// Parses a body text as JSON.
pub fn parse_body(text: &String) -> (r: Option<Parsed>)
    ensures
        match r {
            Some(p) => json_shape(text@) == Some(p.as_bool),
            None => json_shape(text@) is None,
        },
        text@ == "false"@ ==> (match r {
            Some(p) => p.as_bool == Some(false),
            None => false,
        }),
{
    match parse_json(text.as_str()) {
        Some((value, as_bool)) => Some(Parsed { value, as_bool }),
        None => None,
    }
}

} // verus!
