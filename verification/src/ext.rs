//! The few calls that leave this crate: appending a character to a `String`,
//! the relative float comparison, and RFC 3339 timestamp parsing.  Each call
//! stands behind one trusted function whose contract names what the callee
//! computes.

use vstd::prelude::*;
use crate::value::{Number, NumberModel};

verus! {

/// Relies on String::push: appends the given char to the end of the string.
#[verifier::external_body]
pub(crate) fn string_push(s: &mut String, c: char)
    ensures
        final(s)@ == old(s)@.push(c),
{
    s.push(c)
}

/// Whether the text is a valid JSON number, which is what a float in this
/// crate's number model carries.  The result depends on the text alone.
pub uninterp spec fn json_num_parses(s: Seq<char>) -> bool;

/// Relies on serde_json::Number's string parsing: whether a text is a valid
/// JSON number is a function of its characters alone.
#[verifier::external_body]
pub(crate) fn json_num_valid(s: &str) -> (r: bool)
    ensures
        r == json_num_parses(s@),
{
    s.parse::<serde_json::Number>().is_ok()
}

/// Whether a number's content is valid: a float's text must be a valid JSON
/// number; integers always are.
pub open spec fn num_text_ok(n: NumberModel) -> bool {
    match n {
        NumberModel::Float(s) => json_num_parses(s),
        _ => true,
    }
}

/// Whether the relative float comparison accepts the two numbers, each taken
/// as the double it denotes (an integer cast, or a parsed float text), under
/// the epsilon that the given text denotes.  The result depends on the
/// arguments alone.
pub uninterp spec fn num_rel_eq_of(a: NumberModel, b: NumberModel, epsilon: Seq<char>) -> bool;

/// Relies on approx's relative float comparison, with the given epsilon and
/// the default maximum relative difference, and on serde_json::Number's
/// string parsing to read texts as doubles: all are functions of their
/// arguments alone.  Two equal valid numbers compare equal whenever the
/// epsilon text is itself a valid JSON number, because equal texts parse to
/// the same double and the comparison starts from an exact test; a number or
/// epsilon whose text does not parse compares equal to nothing.
#[verifier::external_body]
pub(crate) fn num_rel_eq(a: &Number, b: &Number, epsilon: &String) -> (r: bool)
    ensures
        r == num_rel_eq_of(a@, b@, epsilon@),
        a@ == b@ && (match a@ {
            NumberModel::Float(s) => json_num_parses(s),
            _ => true,
        }) && json_num_parses(epsilon@) ==> r,
{
    let to_double = |n: &Number| match n {
        Number::PosInt(u) => serde_json::Number::from(*u).as_f64(),
        Number::NegInt(i) => serde_json::Number::from(*i).as_f64(),
        Number::Float(s) => s.parse::<serde_json::Number>().ok().and_then(|m| m.as_f64()),
    };
    let eps = epsilon.parse::<serde_json::Number>().ok().and_then(|m| m.as_f64());
    match (to_double(a), to_double(b), eps) {
        (Some(x), Some(y), Some(e)) => approx::Relative::default().epsilon(e).eq(&x, &y),
        _ => false,
    }
}

/// The instant an RFC 3339 timestamp string denotes, as whole seconds since
/// the epoch and the nanoseconds within that second, or `None` when the
/// string is not a valid RFC 3339 timestamp.  The result depends on the
/// string alone.
pub uninterp spec fn rfc3339_instant_of(s: Seq<char>) -> Option<(i64, u32)>;

/// Relies on chrono's DateTime::parse_from_rfc3339, and on timestamp /
/// timestamp_subsec_nanos to read the parsed instant out as plain integers:
/// all three are functions of the string alone.
#[verifier::external_body]
pub(crate) fn parse_rfc3339(s: &str) -> (r: Option<(i64, u32)>)
    ensures
        r == rfc3339_instant_of(s@),
{
    match chrono::DateTime::parse_from_rfc3339(s) {
        Ok(dt) => Some((dt.timestamp(), dt.timestamp_subsec_nanos())),
        Err(_) => None,
    }
}

} // verus!
