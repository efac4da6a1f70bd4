//! The uniform matcher interface: the compiled pattern type of the regex
//! crate, declared for the verifier, and the two operations the
//! selection engine needs from it.

use vstd::prelude::*;
use crate::select::match_list_wf;

verus! {

#[verifier::external_type_specification]
#[verifier::external_body]
pub struct ExRegex(regex::bytes::Regex);

/// Relies on regex::bytes::Regex::is_match: whether the pattern matches
/// anywhere in the haystack. Nothing is assumed about the answer.
#[verifier::external_body]
pub(crate) fn regex_is_match(re: &regex::bytes::Regex, hay: &Vec<u8>) -> bool {
    re.is_match(hay.as_slice())
}

/// Relies on regex::bytes::Regex::find_iter: it yields successive
/// non-overlapping matches, left to right, each with byte offsets
/// `start <= end` within the haystack; successive matches begin at
/// strictly increasing offsets at or past the previous match's end.
#[verifier::external_body]
pub(crate) fn regex_find_matches(re: &regex::bytes::Regex, hay: &Vec<u8>) -> (ms: Vec<
    (usize, usize),
>)
    ensures
        match_list_wf(ms@, hay@.len() as int),
{
    let mut ms: Vec<(usize, usize)> = Vec::new();
    for m in re.find_iter(hay.as_slice()) {
        ms.push((m.start(), m.end()));
    }
    ms
}

} // verus!
