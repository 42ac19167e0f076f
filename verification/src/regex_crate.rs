//! Calls into the `regex` crate.
use crate::name_path::texts;
use crate::variables::{interpolated, pairs, substitution, variables_in, VARIABLE_PATTERN};
use vstd::prelude::*;

verus! {

/// Whether the class `\w` of the `regex` crate, which `\b` goes by, holds a
/// character beyond ASCII.
pub uninterp spec fn unicode_word(c: char) -> bool;

/// Calls `regex::Regex::replace_all` with the pattern of a variable and with
/// [`substitution`] for each match. The matches are found from left to right and
/// do not overlap. A name is as long as can be, since `+` is greedy, and `\b` holds
/// after it only at the end of the text or before a character that is not in
/// `\w`: a shorter name would end between two word characters.
#[verifier::external_body]
pub(crate) fn replace_all(
    pattern: &str,
    text: &str,
    variables: &Vec<(String, String)>,
) -> (replaced: String)
    requires
        pattern@ == VARIABLE_PATTERN@,
    ensures
        replaced@ == interpolated(text@, 0, pairs(variables@), |c: char| unicode_word(c)),
{
    let regex = regex::Regex::new(pattern).unwrap();
    regex
        .replace_all(text, |caps: &regex::Captures| substitution(&caps[0], &caps[1], variables))
        .into_owned()
}

/// Calls `regex::Regex::find_iter` with the pattern of a variable, and gives the
/// texts of the matches. They are those that [`replace_all`] finds.
#[verifier::external_body]
pub(crate) fn find_all(pattern: &str, text: &str) -> (found: Vec<String>)
    requires
        pattern@ == VARIABLE_PATTERN@,
    ensures
        texts(found@) == variables_in(text@, 0, |c: char| unicode_word(c)),
{
    let regex = regex::Regex::new(pattern).unwrap();
    regex.find_iter(text).map(|found| found.as_str().to_owned()).collect()
}

} // verus!
