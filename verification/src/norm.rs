//! Normalisation of file paths: lower case, no surrounding white space, only
//! word characters, white space, `.`, `/` and `-`, and every run of `-`, `_`
//! and white space collapsed into a single `-`.
//!
//! The character filtering and collapsing are done by the `regex` crate with
//! the patterns below.
use vstd::prelude::*;

use crate::pattern::{
    compiles, kept_ascii, only_kept_ascii, regex_compiles, regex_replacement, replace_all,
    separators_collapsed,
};
use crate::text::{
    all_ascii, ascii_lower, ascii_white_space, blank, chars_of, lemma_trim_padding, lower_text,
    string_from, to_lowercase, trim, trim_chars,
};

verus! {

/// Matches each character that a normalised path may not hold.
pub const SIMPLE_CHARS: &'static str = "[^./\\w\\s-]";

/// Matches each run of `-`, `_` and white space.
pub const DUPLICATE_CHARS: &'static str = "[-\\s_]+";

/// Whether `regex` accepts both normalisation patterns.
pub open spec fn patterns_compile() -> bool {
    regex_compiles(SIMPLE_CHARS@) && regex_compiles(DUPLICATE_CHARS@)
}

/// `text` lowered, trimmed, with the characters that `simple` matches
/// removed and the runs that `DUPLICATE_CHARS` matches replaced by `-`.
pub open spec fn normalized_with(simple: Seq<char>, text: Seq<char>) -> Seq<char> {
    regex_replacement(
        DUPLICATE_CHARS@,
        regex_replacement(simple, trim(lower_text(text)), Seq::empty()),
        seq!['-'],
    )
}

/// The normalised form of the path `path`.
pub open spec fn normalized_path(path: Seq<char>) -> Seq<char> {
    normalized_with(SIMPLE_CHARS@, path)
}

/// `t` is `s` with the case of some ASCII letters changed.
pub open spec fn same_but_ascii_case(s: Seq<char>, t: Seq<char>) -> bool {
    t.len() == s.len() && forall|i: int| 0 <= i < s.len() ==> ascii_lower(#[trigger] t[i]) == ascii_lower(s[i])
}

/// Whether every character of `s` is ASCII white space.
pub open spec fn ascii_blank(s: Seq<char>) -> bool {
    forall|i: int| 0 <= i < s.len() ==> ascii_white_space(#[trigger] s[i])
}

/// For ASCII text, the case of its letters and ASCII white space around it
/// do not change its normal form, whatever the filtering pattern.
pub proof fn lemma_case_and_padding(
    simple: Seq<char>,
    s: Seq<char>,
    t: Seq<char>,
    p: Seq<char>,
    q: Seq<char>,
)
    requires
        all_ascii(s),
        same_but_ascii_case(s, t),
        ascii_blank(p),
        ascii_blank(q),
    ensures
        normalized_with(simple, p + t + q) == normalized_with(simple, s),
{
    let x = p + t + q;
    assert forall|i: int| 0 <= i < t.len() implies (#[trigger] t[i] as u32) < 128 by {
        assert(ascii_lower(t[i]) == ascii_lower(s[i]));
        assert((s[i] as u32) < 128);
    }
    assert(all_ascii(x)) by {
        assert forall|i: int| 0 <= i < x.len() implies (#[trigger] x[i] as u32) < 128 by {
            if i < p.len() {
                assert(x[i] == p[i]);
                assert(ascii_white_space(p[i]));
            } else if i < p.len() + t.len() {
                assert(x[i] == t[i - p.len()]);
            } else {
                assert(x[i] == q[i - p.len() - t.len()]);
                assert(ascii_white_space(q[i - p.len() - t.len()]));
            }
        }
    }
    let ls = s.map_values(|c: char| ascii_lower(c));
    assert(lower_text(s) == ls);
    assert(lower_text(x) =~= p + ls + q) by {
        assert forall|i: int| 0 <= i < x.len() implies lower_text(x)[i] == (p + ls + q)[i] by {
            if i < p.len() {
                assert(x[i] == p[i]);
                assert(ascii_white_space(p[i]));
            } else if i < p.len() + t.len() {
                assert(x[i] == t[i - p.len()]);
            } else {
                assert(x[i] == q[i - p.len() - t.len()]);
                assert(ascii_white_space(q[i - p.len() - t.len()]));
            }
        }
    }
    assert(blank(p)) by {
        assert forall|i: int| 0 <= i < p.len() implies crate::text::white_space(#[trigger] p[i]) by {
            assert(ascii_white_space(p[i]));
        }
    }
    assert(blank(q)) by {
        assert forall|i: int| 0 <= i < q.len() implies crate::text::white_space(#[trigger] q[i]) by {
            assert(ascii_white_space(q[i]));
        }
    }
    lemma_trim_padding(p, ls, q);
}

/// For ASCII text, the case of its letters and ASCII white space around it
/// do not change its normalised path.
pub proof fn lemma_path_case_and_padding(s: Seq<char>, t: Seq<char>, p: Seq<char>, q: Seq<char>)
    requires
        all_ascii(s),
        same_but_ascii_case(s, t),
        ascii_blank(p),
        ascii_blank(q),
    ensures
        normalized_path(p + t + q) == normalized_path(s),
{
    lemma_case_and_padding(SIMPLE_CHARS@, s, t, p, q);
}

/// Lowers, trims and filters `text` with the pattern `simple`, then
/// collapses separator runs.
pub fn normalize_with(simple: &str, text: &str) -> (r: String)
    requires
        regex_compiles(simple@),
        regex_compiles(DUPLICATE_CHARS@),
    ensures
        r@ == normalized_with(simple@, text@),
        separators_collapsed(r@),
        simple@ == "[^./\\w\\s-]"@ ==> only_kept_ascii(r@, true),
        simple@ == "[^.\\w\\s-]"@ ==> only_kept_ascii(r@, false),
{
    let lowered = to_lowercase(text);
    let chars = chars_of(lowered.as_str());
    let trimmed = string_from(&trim_chars(&chars));
    let nothing = "";
    let dash = "-";
    proof {
        reveal_strlit("");
        reveal_strlit("-");
        assert(nothing@ =~= Seq::<char>::empty());
        assert(dash@ =~= seq!['-']);
    }
    let filtered = replace_all(simple, trimmed.as_str(), nothing);
    let r = replace_all(DUPLICATE_CHARS, filtered.as_str(), dash);
    proof {
        assert forall|slash: bool| #[trigger] only_kept_ascii(filtered@, slash) implies only_kept_ascii(
            r@,
            slash,
        ) by {
            assert forall|i: int| 0 <= i < r@.len() && (#[trigger] r@[i] as u32) < 128 implies kept_ascii(
                r@[i],
                slash,
            ) by {
                if filtered@.contains(r@[i]) {
                    let j = choose|j: int| 0 <= j < filtered@.len() && filtered@[j] == r@[i];
                    assert((filtered@[j] as u32) < 128);
                } else {
                    assert(dash@.contains(r@[i]));
                    assert(r@[i] == '-');
                }
            }
        }
    }
    r
}

/// The normalised form of the path `string`.
pub fn get_normalized_path(string: &str) -> (r: String)
    requires
        patterns_compile(),
    ensures
        r@ == normalized_path(string@),
        separators_collapsed(r@),
        only_kept_ascii(r@, true),
{
    normalize_with(SIMPLE_CHARS, string)
}

/// `get_normalized_path` where `regex` accepts the patterns, `None`
/// otherwise.
pub fn try_get_normalized_path(string: &str) -> (r: Option<String>)
    ensures
        r is Some <==> patterns_compile(),
        r matches Some(p) ==> p@ == normalized_path(string@) && separators_collapsed(p@)
            && only_kept_ascii(p@, true),
{
    if compiles(SIMPLE_CHARS) && compiles(DUPLICATE_CHARS) {
        Some(get_normalized_path(string))
    } else {
        None
    }
}

} // verus!
