//! Regular expressions, evaluated by the `regex` crate.
//!
//! The library hands a pattern and a text to `regex` and names what comes
//! back; the syntax and matching rules of `regex` are not restated here.
use vstd::prelude::*;

use crate::text::{ascii_white_space, ascii_word_char, white_space};

verus! {

/// Whether `regex::Regex::new` accepts `pattern` (it is valid and within the
/// default size limit).
pub uninterp spec fn regex_compiles(pattern: Seq<char>) -> bool;

/// The text that `Regex::replace_all` gives when every match of `pattern` in
/// `text` is replaced by `replacement`.
pub uninterp spec fn regex_replacement(
    pattern: Seq<char>,
    text: Seq<char>,
    replacement: Seq<char>,
) -> Seq<char>;

/// The text of capture group 1 of the first match of `pattern` in `text`, as
/// `Regex::captures` and `Captures::get` report it; `None` where there is no
/// match or the group took no part in it.
pub uninterp spec fn regex_first_group(pattern: Seq<char>, text: Seq<char>) -> Option<Seq<char>>;

/// Whether `c` belongs to the class `[-\s_]`: a `-`, a `_` or white space
/// (`\s` is the Unicode `White_Space` property in `regex`).
pub open spec fn separator_char(c: char) -> bool {
    c == '-' || c == '_' || white_space(c)
}

/// Whether the separators of `s` are collapsed: its only character of the
/// class `[-\s_]` is `-`, and no two `-` are neighbours.
pub open spec fn separators_collapsed(s: Seq<char>) -> bool {
    &&& forall|i: int| 0 <= i < s.len() && separator_char(#[trigger] s[i]) ==> s[i] == '-'
    &&& forall|i: int| 0 <= i < s.len() - 1 && #[trigger] s[i] == '-' ==> s[i + 1] != '-'
}

/// Whether the ASCII character `c` is kept by deleting every match of
/// `[^./\w\s-]` (where `slash`) or of `[^.\w\s-]` (otherwise): a letter,
/// digit or `_` (ASCII `\w`), ASCII white space, `.`, `-`, and `/` where
/// `slash`.
pub open spec fn kept_ascii(c: char, slash: bool) -> bool {
    ascii_word_char(c) || ascii_white_space(c) || c == '.' || c == '-' || (slash && c == '/')
}

/// Whether every ASCII character of `s` is kept by the filter.
pub open spec fn only_kept_ascii(s: Seq<char>, slash: bool) -> bool {
    forall|i: int| 0 <= i < s.len() && (#[trigger] s[i] as u32) < 128 ==> kept_ascii(s[i], slash)
}

/// Calls `regex::Regex::new` and reports whether it returned `Ok`.
#[verifier::external_body]
pub(crate) fn compiles(pattern: &str) -> (ok: bool)
    ensures
        ok == regex_compiles(pattern@),
{
    regex::Regex::new(pattern).is_ok()
}

/// Compiles `pattern` with `regex::Regex::new` and calls `Regex::replace_all`
/// on `text` with the replacement string `replacement`. The contract names the
/// result; `requires` rules out the patterns that `Regex::new` rejects.
///
/// It also states one fact of the pattern `[-\s_]+` replaced by `-`:
/// `replace_all` replaces every non-overlapping match, matches are found
/// leftmost-first and `+` is greedy, so each match is a whole run of the
/// class and the next match starts after a character outside it. The text
/// between matches keeps no character of the class, and each run becomes a
/// single `-` with a character outside the class on either side.
///
/// For every pattern, the result is the text with matches replaced, so each
/// of its characters comes from the text or from the replacement string
/// (whose `$` references insert text of the match). And where the pattern
/// is a negated class (`[^./\w\s-]` or `[^.\w\s-]`) and the replacement
/// is empty, every character of the class's complement is a match of its
/// own and is deleted, so no ASCII character outside the class is left.
#[verifier::external_body]
pub(crate) fn replace_all(pattern: &str, text: &str, replacement: &str) -> (out: String)
    requires
        regex_compiles(pattern@),
    ensures
        out@ == regex_replacement(pattern@, text@, replacement@),
        pattern@ == "[-\\s_]+"@ && replacement@ == seq!['-'] ==> separators_collapsed(out@),
        forall|i: int|
            0 <= i < out@.len() ==> text@.contains(#[trigger] out@[i]) || replacement@.contains(
                out@[i],
            ),
        pattern@ == "[^./\\w\\s-]"@ && replacement@.len() == 0 ==> only_kept_ascii(out@, true),
        pattern@ == "[^.\\w\\s-]"@ && replacement@.len() == 0 ==> only_kept_ascii(out@, false),
{
    match regex::Regex::new(pattern) {
        Ok(re) => re.replace_all(text, replacement).into_owned(),
        Err(_) => String::new(),
    }
}

/// Compiles `pattern` with `regex::Regex::new`, calls `Regex::captures` on
/// `text` and takes group 1 with `Captures::get`. The contract names the
/// result; `requires` rules out the patterns that `Regex::new` rejects.
#[verifier::external_body]
pub(crate) fn first_group(pattern: &str, text: &str) -> (group: Option<String>)
    requires
        regex_compiles(pattern@),
    ensures
        group.deep_view() == regex_first_group(pattern@, text@),
{
    match regex::Regex::new(pattern) {
        Ok(re) => re.captures(text).and_then(|caps| caps.get(1)).map(|m| m.as_str().to_string()),
        Err(_) => None,
    }
}

} // verus!
