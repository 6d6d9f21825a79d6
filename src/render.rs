//! The plain report: one line for each found identifier whose payload is not
//! the absent marker, or one explanatory line when there is no such identifier.

use vstd::prelude::*;
use vstd::string::StringExecFns;
use crate::outcome::{Found, FoundView};

verus! {

pub open spec fn no_match_text() -> Seq<char> {
    "No servers matched, you may not be in the dataset"@
}

pub open spec fn compromised_text(name: Seq<char>, id: Seq<char>) -> Seq<char> {
    name + " (ID: "@ + id + ") is compromised!"@
}

/// The lines for the successes that are not absent, in their order.
pub open spec fn notable_lines(fs: Seq<FoundView>) -> Seq<Seq<char>>
    decreases fs.len(),
{
    if fs.len() == 0 {
        Seq::empty()
    } else {
        let prev = notable_lines(fs.drop_last());
        let f = fs.last();
        if f.absent {
            prev
        } else {
            prev.push(compromised_text(f.name, f.id))
        }
    }
}

pub open spec fn plain_report(fs: Seq<FoundView>) -> Seq<Seq<char>> {
    if notable_lines(fs).len() == 0 {
        seq![no_match_text()]
    } else {
        notable_lines(fs)
    }
}

pub fn no_match_line() -> (r: String)
    ensures
        r@ == no_match_text(),
{
    String::from_str("No servers matched, you may not be in the dataset")
}

/// `<name> (ID: <id>) is compromised!`
pub fn compromised_line(f: &Found) -> (r: String)
    ensures
        r@ == compromised_text(f.name@, f.id@),
{
    let mut r = f.name.clone();
    r.append(" (ID: ");
    r.append(f.id.as_str());
    r.append(") is compromised!");
    r
}

/// The lines of the plain report on `successes`.
pub fn plain_lines(successes: &Vec<Found>) -> (r: Vec<String>)
    ensures
        r@.map_values(|s: String| s@) == plain_report(successes@.map_values(|f: Found| f@)),
{
    let ghost fs = successes@.map_values(|f: Found| f@);
    let mut lines: Vec<String> = Vec::new();
    let mut i: usize = 0;
    while i < successes.len()
        invariant
            i <= successes@.len(),
            fs == successes@.map_values(|f: Found| f@),
            lines@.map_values(|s: String| s@) == notable_lines(fs.take(i as int)),
        decreases successes@.len() - i,
    {
        let f = &successes[i];
        assert(fs.take(i + 1).drop_last() =~= fs.take(i as int));
        if !f.absent {
            let line = compromised_line(f);
            lines.push(line);
        }
        assert(lines@.map_values(|s: String| s@) =~= notable_lines(fs.take(i + 1)));
        i = i + 1;
    }
    assert(fs.take(successes@.len() as int) =~= fs);
    if lines.len() == 0 {
        lines.push(no_match_line());
        assert(lines@.map_values(|s: String| s@) =~= seq![no_match_text()]);
    }
    lines
}

} // verus!
