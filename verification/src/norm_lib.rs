//! Normalisation of single names: lower case, trimmed, only word
//! characters, white space, `.` and `-` (so a `/` is dropped), and separator
//! runs collapsed into a single `-`.
use vstd::prelude::*;

use crate::norm::{
    ascii_blank, lemma_case_and_padding, normalize_with, normalized_with, same_but_ascii_case,
    DUPLICATE_CHARS,
};
use crate::text::all_ascii;
use crate::pattern::{compiles, only_kept_ascii, regex_compiles, separators_collapsed};

verus! {

/// Matches each character that a normalised name may not hold.
pub const NAME_CHARS: &'static str = "[^.\\w\\s-]";

/// Whether `regex` accepts both patterns of this normalisation.
pub open spec fn patterns_compile() -> bool {
    regex_compiles(NAME_CHARS@) && regex_compiles(DUPLICATE_CHARS@)
}

/// The normalised form of `string`.
pub open spec fn normalized_string(string: Seq<char>) -> Seq<char> {
    normalized_with(NAME_CHARS@, string)
}

/// For ASCII text, the case of its letters and ASCII white space around it
/// do not change its normalised name.
pub proof fn lemma_name_case_and_padding(s: Seq<char>, t: Seq<char>, p: Seq<char>, q: Seq<char>)
    requires
        all_ascii(s),
        same_but_ascii_case(s, t),
        ascii_blank(p),
        ascii_blank(q),
    ensures
        normalized_string(p + t + q) == normalized_string(s),
{
    lemma_case_and_padding(NAME_CHARS@, s, t, p, q);
}

/// The normalised form of `string`.
pub fn normalize_string(string: &str) -> (r: String)
    requires
        patterns_compile(),
    ensures
        r@ == normalized_string(string@),
        separators_collapsed(r@),
        only_kept_ascii(r@, false),
{
    normalize_with(NAME_CHARS, string)
}

/// `normalize_string` where `regex` accepts the patterns, `None` otherwise.
pub fn try_normalize_string(string: &str) -> (r: Option<String>)
    ensures
        r is Some <==> patterns_compile(),
        r matches Some(n) ==> n@ == normalized_string(string@) && separators_collapsed(n@)
            && only_kept_ascii(n@, false),
{
    if compiles(NAME_CHARS) && compiles(DUPLICATE_CHARS) {
        Some(normalize_string(string))
    } else {
        None
    }
}

} // verus!
