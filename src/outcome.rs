//! The outcome of one lookup: found with its payload, or failed.

use vstd::prelude::*;
use crate::payload::{Reply, Parsed, parse_body, is_success, offered_body, json_shape};

verus! {

/// A lookup whose reply was a successful status with a payload that parses as JSON.
pub struct Found {
    pub id: String,
    pub name: String,
    /// The payload text as the service sent it.
    pub body: String,
    /// The payload parsed.
    pub payload: serde_json::Value,
    /// The payload is the literal `false`: the identifier is not in the
    /// service's dataset.
    pub absent: bool,
}

/// The plain content of a `Found`.
pub struct FoundView {
    pub id: Seq<char>,
    pub name: Seq<char>,
    pub body: Seq<char>,
    pub absent: bool,
}

impl Found {
    pub open spec fn view(&self) -> FoundView {
        FoundView { id: self.id@, name: self.name@, body: self.body@, absent: self.absent }
    }
}

/// Exactly one of these comes out of each lookup.
pub enum Outcome {
    Found(Found),
    Failed(String),
}

pub enum OutcomeView {
    Found(FoundView),
    Failed(Seq<char>),
}

impl Outcome {
    pub open spec fn view(&self) -> OutcomeView {
        match self {
            Outcome::Found(f) => OutcomeView::Found(f.view()),
            Outcome::Failed(id) => OutcomeView::Failed(id@),
        }
    }
}

/// The identifier an outcome is about.
pub open spec fn outcome_id(o: OutcomeView) -> Seq<char> {
    match o {
        OutcomeView::Found(f) => f.id,
        OutcomeView::Failed(id) => id,
    }
}

/// The outcome for a body whose JSON shape is `shape`.
pub open spec fn parsed_outcome(
    id: Seq<char>,
    name: Seq<char>,
    body: Seq<char>,
    shape: Option<Option<bool>>,
) -> OutcomeView {
    match shape {
        Some(b) => OutcomeView::Found(
            FoundView { id, name, body, absent: b == Some(false) },
        ),
        None => OutcomeView::Failed(id),
    }
}

/// The outcome of a lookup of `id` named `name` that got `reply`: found when
/// the status is a success, the body was read and it parses as JSON;
/// failed otherwise.
pub open spec fn reply_outcome(id: Seq<char>, name: Seq<char>, reply: &Reply) -> OutcomeView {
    match offered_body(reply) {
        Some(t) => parsed_outcome(id, name, t, json_shape(t)),
        None => OutcomeView::Failed(id),
    }
}

/// Builds the outcome for `body` from its parse: failed when it did not
/// parse, found otherwise, absent exactly when it is the boolean `false`.
pub fn interpret(id: String, name: String, body: String, parsed: Option<Parsed>) -> (r: Outcome)
    ensures
        r@ == parsed_outcome(
            id@,
            name@,
            body@,
            match parsed {
                Some(p) => Some(p.as_bool),
                None => None,
            },
        ),
        r matches Outcome::Found(f) ==> parsed matches Some(p) && f.payload == p.value,
{
    match parsed {
        Some(p) => {
            let absent = match p.as_bool {
                Some(b) => !b,
                None => false,
            };
            Outcome::Found(Found { id, name, body, payload: p.value, absent })
        },
        None => Outcome::Failed(id),
    }
}

/// Classifies the reply of one lookup.
pub fn classify(id: String, name: String, reply: Reply) -> (r: Outcome)
    ensures
        r@ == reply_outcome(id@, name@, &reply),
{
    match reply {
        Reply::Unreachable => Outcome::Failed(id),
        Reply::Status { code, body } => {
            if !is_success(code) {
                Outcome::Failed(id)
            } else {
                match body {
                    None => Outcome::Failed(id),
                    Some(text) => {
                        let parsed = parse_body(&text);
                        interpret(id, name, text, parsed)
                    },
                }
            }
        },
    }
}

} // verus!
