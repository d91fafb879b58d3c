//! Regular expressions, matched by the `regex` crate.

use vstd::prelude::*;
use vstd::string::*;

verus! {

/// The bytes of a text that a group has matched: from the first offset up to the second.
pub type Span = (usize, usize);

/// What the first match of a pattern in a text has captured, group by group,
/// the whole match first; the inner `None` where the pattern matches
/// nowhere, the outer where it is no pattern.
pub uninterp spec fn first_captures(pattern: Seq<char>, text: Seq<char>) -> Option<
    Option<Seq<Option<Span>>>,
>;

/// What each match of a pattern in a text has captured, match by match
/// from left to right; `None` where the pattern is no pattern.
pub uninterp spec fn all_captures(pattern: Seq<char>, text: Seq<char>) -> Option<
    Seq<Seq<Option<Span>>>,
>;

/// Every span lies in a text of `len` bytes.
pub open spec fn spans_in(caps: Seq<Option<Span>>, len: nat) -> bool {
    forall|i: int|
        0 <= i < caps.len() ==> match #[trigger] caps[i] {
            Some(s) => s.0 <= s.1 <= len,
            None => true,
        }
}

/// The captures of the first match: `Regex::new` of the crate `regex` on
/// the pattern, then `Regex::captures` on the text, each group given by the
/// byte offsets of `Match::start` and `Match::end`. The contract names the
/// result and claims of it only what the crate promises of every match: that
/// its offsets are in order and lie in the text.
#[verifier::external_body]
pub(crate) fn captures(pattern: &str, text: &str) -> (r: Option<Option<Vec<Option<Span>>>>)
    ensures
        match r {
            None => first_captures(pattern@, text@) is None,
            Some(None) => first_captures(pattern@, text@) == Some(None::<Seq<Option<Span>>>),
            Some(Some(v)) => first_captures(pattern@, text@) == Some(Some(v@)) && spans_in(
                v@,
                text.spec_bytes().len(),
            ),
        },
{
    let re = regex::Regex::new(pattern).ok()?;
    Some(re.captures(text).map(|c| c.iter().map(|m| m.map(|m| (m.start(), m.end()))).collect()))
}

/// The captures of every match: `Regex::new` of the crate `regex` on the
/// pattern, then `Regex::captures_iter` on the text. The contract names the
/// result and claims of it only that the offsets of each group are in order
/// and lie in the text.
#[verifier::external_body]
pub(crate) fn captures_iter(pattern: &str, text: &str) -> (r: Option<Vec<Vec<Option<Span>>>>)
    ensures
        match r {
            None => all_captures(pattern@, text@) is None,
            Some(v) => all_captures(pattern@, text@) == Some(v@.map_values(|c: Vec<Option<Span>>| c@))
                && forall|i: int| 0 <= i < v.len() ==> spans_in(#[trigger] v[i]@, text.spec_bytes().len()),
        },
{
    let re = regex::Regex::new(pattern).ok()?;
    Some(
        re.captures_iter(text).map(
            |c| c.iter().map(|m| m.map(|m| (m.start(), m.end()))).collect(),
        ).collect(),
    )
}

} // verus!
