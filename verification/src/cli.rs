//! Reading the durations given on the command line.
use vstd::prelude::*;
use std::time::Duration;

verus! {

/// The duration that `parse_duration::parse` reads from a text, if it reads
/// one.
pub uninterp spec fn parsed_duration(text: Seq<char>) -> Option<Duration>;

/// Reads a duration with `parse_duration::parse`: the crate's result on the
/// text, its error shown as text. The contract says only that the result is
/// that function of the text; what the crate accepts (numbers with units
/// such as "30s", "1 day 2 hours", a plain number of seconds) it does not
/// spell out. A text with a huge exponent can take the crate a long time.
#[verifier::external_body]
fn parse_with_crate(text: &str) -> (r: Result<Duration, String>)
    ensures
        match r {
            Ok(d) => parsed_duration(text@) == Some(d),
            Err(_) => parsed_duration(text@) is None,
        },
{
    match parse_duration::parse(text) {
        Ok(d) => Ok(d),
        Err(e) => Err(format!("{}", e)),
    }
}

/// The duration that a text on the command line gives, or the reason it
/// gives none.
pub fn parse_duration(text: &str) -> (r: Result<Duration, String>)
    ensures
        match r {
            Ok(d) => parsed_duration(text@) == Some(d),
            Err(_) => parsed_duration(text@) is None,
        },
{
    parse_with_crate(text)
}

} // verus!
