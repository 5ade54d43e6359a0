use vstd::prelude::*;

verus! {

/// Whether the regular expression `pattern` matches somewhere in
/// `haystack`; `None` where `pattern` is not a valid expression.
pub uninterp spec fn regex_match(pattern: Seq<char>, haystack: Seq<u8>) -> Option<bool>;

/// Compiles `pattern` with regex's `bytes::Regex::new` and asks the
/// result's `is_match` about `haystack`. The contract claims only that
/// the outcome is a function of the two, named `regex_match`; the meaning
/// of a pattern is regex's syntax.
#[verifier::external_body]
pub(crate) fn regex_is_match(pattern: &str, haystack: &[u8]) -> (r: Option<bool>)
    ensures
        r == regex_match(pattern@, haystack@),
{
    match regex::bytes::Regex::new(pattern) {
        Ok(re) => Some(re.is_match(haystack)),
        Err(_) => None,
    }
}

} // verus!
