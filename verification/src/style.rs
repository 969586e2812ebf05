//! Terminal styles written by `colored`.
use vstd::prelude::*;

use colored::Colorize;

use crate::text::{contains, occurs_at};

verus! {

/// The escape sequence that ends every style.
pub open spec fn reset_code() -> Seq<char> {
    seq!['\x1B', '[', '0', 'm']
}

/// `s` between the escape sequences of bold text.
pub open spec fn bold_form(s: Seq<char>) -> Seq<char> {
    seq!['\x1B', '[', '1', 'm'] + s + reset_code()
}

/// Text without an escape character holds no reset sequence.
pub proof fn lemma_no_reset(s: Seq<char>)
    requires
        forall|i: int| 0 <= i < s.len() ==> s[i] != '\x1B',
    ensures
        !contains(s, reset_code()),
{
    assert forall|i: int| !occurs_at(s, reset_code(), i) by {
        if occurs_at(s, reset_code(), i) {
            assert(s.subrange(i, i + 4)[0] == s[i]);
        }
    }
}

/// Calls `colored::Colorize::bold` on `s` and writes the styled string with
/// `to_string`. Whether styles are written depends on the environment and
/// the terminal, so the contract says that the result is either `s` itself
/// or, for text without a reset sequence of its own, `s` between the
/// escape sequences of bold text.
#[verifier::external_body]
pub(crate) fn bold(s: &str) -> (r: String)
    ensures
        !contains(s@, reset_code()) ==> (r@ == s@ || r@ == bold_form(s@)),
{
    s.bold().to_string()
}

} // verus!
