//! Character-level text handling: the line, word and field splitting that the
//! tools apply to command output and HTTP messages, stated over `Seq<char>`.
use vstd::prelude::*;

verus! {

/// The character views of a sequence of character vectors.
pub open spec fn views(vs: Seq<Vec<char>>) -> Seq<Seq<char>> {
    vs.map_values(|v: Vec<char>| v@)
}

/// Pieces of `rest` separated by `sep`, the first piece starting with `cur`
/// (the behaviour of `str::split` with a single-character pattern).
pub open spec fn split_from(cur: Seq<char>, rest: Seq<char>, sep: char) -> Seq<Seq<char>>
    decreases rest.len(),
{
    if rest.len() == 0 {
        seq![cur]
    } else if rest[0] == sep {
        seq![cur] + split_from(Seq::empty(), rest.drop_first(), sep)
    } else {
        split_from(cur.push(rest[0]), rest.drop_first(), sep)
    }
}

/// `s` split at every occurrence of `sep`; there is always at least one piece.
pub open spec fn split_on(s: Seq<char>, sep: char) -> Seq<Seq<char>> {
    split_from(Seq::empty(), s, sep)
}

/// Pieces of `rest` separated by a blank line (`"\n\n"`, leftmost matches
/// first, not overlapping), the first piece starting with `cur`.
pub open spec fn blocks_from(cur: Seq<char>, rest: Seq<char>) -> Seq<Seq<char>>
    decreases rest.len(),
{
    if rest.len() == 0 {
        seq![cur]
    } else if rest.len() >= 2 && rest[0] == '\n' && rest[1] == '\n' {
        seq![cur] + blocks_from(Seq::empty(), rest.skip(2))
    } else {
        blocks_from(cur.push(rest[0]), rest.drop_first())
    }
}

/// `s` split at the separator `"\n\n"`.
pub open spec fn blocks(s: Seq<char>) -> Seq<Seq<char>> {
    blocks_from(Seq::empty(), s)
}

/// A line without the `'\r'` of a `"\r\n"` terminator.
pub open spec fn strip_cr(line: Seq<char>) -> Seq<char> {
    if line.len() > 0 && line.last() == '\r' {
        line.drop_last()
    } else {
        line
    }
}

/// The lines of `rest`, the first one starting with `cur`: a line ends at
/// `'\n'` or `"\r\n"`, and a final line terminator starts no further line.
pub open spec fn lines_from(cur: Seq<char>, rest: Seq<char>) -> Seq<Seq<char>>
    decreases rest.len(),
{
    if rest.len() == 0 {
        if cur.len() == 0 {
            Seq::empty()
        } else {
            seq![cur]
        }
    } else if rest[0] == '\n' {
        seq![strip_cr(cur)] + lines_from(Seq::empty(), rest.drop_first())
    } else {
        lines_from(cur.push(rest[0]), rest.drop_first())
    }
}

/// The lines of `s` (the behaviour of `str::lines`).
pub open spec fn lines(s: Seq<char>) -> Seq<Seq<char>> {
    lines_from(Seq::empty(), s)
}

/// `cur` as a sequence of at most one word.
pub open spec fn word_if_any(cur: Seq<char>) -> Seq<Seq<char>> {
    if cur.len() == 0 {
        Seq::empty()
    } else {
        seq![cur]
    }
}

/// The maximal runs of non-white-space characters of `rest`, the first one
/// starting with `cur`.
pub open spec fn words_from(cur: Seq<char>, rest: Seq<char>) -> Seq<Seq<char>>
    decreases rest.len(),
{
    if rest.len() == 0 {
        word_if_any(cur)
    } else if white_space(rest[0]) {
        word_if_any(cur) + words_from(Seq::empty(), rest.drop_first())
    } else {
        words_from(cur.push(rest[0]), rest.drop_first())
    }
}

/// The words of `s` (the behaviour of `str::split_whitespace`).
pub open spec fn words(s: Seq<char>) -> Seq<Seq<char>> {
    words_from(Seq::empty(), s)
}

/// `s` without its leading white space.
pub open spec fn trim_start(s: Seq<char>) -> Seq<char>
    decreases s.len(),
{
    if s.len() > 0 && white_space(s[0]) {
        trim_start(s.drop_first())
    } else {
        s
    }
}

/// `s` without its trailing white space.
pub open spec fn trim_end(s: Seq<char>) -> Seq<char>
    decreases s.len(),
{
    if s.len() > 0 && white_space(s.last()) {
        trim_end(s.drop_last())
    } else {
        s
    }
}

/// `s` without leading and trailing white space (the behaviour of `str::trim`).
pub open spec fn trim(s: Seq<char>) -> Seq<char> {
    trim_end(trim_start(s))
}

/// The pieces joined, with `sep` between neighbours.
pub open spec fn join(pieces: Seq<Seq<char>>, sep: Seq<char>) -> Seq<char>
    decreases pieces.len(),
{
    if pieces.len() == 0 {
        Seq::empty()
    } else if pieces.len() == 1 {
        pieces[0]
    } else {
        join(pieces.drop_last(), sep) + sep + pieces.last()
    }
}

/// `t` occurs in `s` at position `i`.
pub open spec fn occurs_at(s: Seq<char>, t: Seq<char>, i: int) -> bool {
    0 <= i && i + t.len() <= s.len() && s.subrange(i, i + t.len()) == t
}

/// `t` occurs somewhere in `s` (the behaviour of `str::contains` with a
/// string pattern).
pub open spec fn contains(s: Seq<char>, t: Seq<char>) -> bool {
    exists|i: int| occurs_at(s, t, i)
}

/// A word: a non-empty run of characters without white space.
pub open spec fn is_word(w: Seq<char>) -> bool {
    w.len() > 0 && forall|j: int| 0 <= j < w.len() ==> !white_space(#[trigger] w[j])
}

proof fn lemma_words_from_are_words(cur: Seq<char>, rest: Seq<char>)
    requires
        forall|j: int| 0 <= j < cur.len() ==> !white_space(#[trigger] cur[j]),
    ensures
        forall|i: int| 0 <= i < words_from(cur, rest).len() ==> is_word(#[trigger] words_from(cur, rest)[i]),
    decreases rest.len(),
{
    if rest.len() == 0 {
        if cur.len() > 0 {
            assert(words_from(cur, rest) =~= seq![cur]);
            assert(is_word(cur));
        }
    } else if white_space(rest[0]) {
        lemma_words_from_are_words(Seq::empty(), rest.drop_first());
        let head = word_if_any(cur);
        let tail = words_from(Seq::empty(), rest.drop_first());
        assert(words_from(cur, rest) == head + tail);
        if cur.len() > 0 {
            assert(is_word(cur));
        }
        assert forall|i: int| 0 <= i < (head + tail).len() implies is_word(#[trigger] (head + tail)[i]) by {
            if i < head.len() {
                assert((head + tail)[i] == cur);
            } else {
                assert((head + tail)[i] == tail[i - head.len()]);
            }
        }
    } else {
        let next = cur.push(rest[0]);
        assert forall|j: int| 0 <= j < next.len() implies !white_space(#[trigger] next[j]) by {
            if j < cur.len() {
                assert(next[j] == cur[j]);
            }
        }
        lemma_words_from_are_words(next, rest.drop_first());
        assert(words_from(cur, rest) == words_from(next, rest.drop_first()));
    }
}

/// Every word of a text is non-empty and holds no white space.
pub proof fn lemma_words_are_words(s: Seq<char>)
    ensures
        forall|i: int| 0 <= i < words(s).len() ==> is_word(#[trigger] words(s)[i]),
{
    lemma_words_from_are_words(Seq::empty(), s);
}

proof fn lemma_lines_from_have_no_newline(cur: Seq<char>, rest: Seq<char>)
    requires
        forall|j: int| 0 <= j < cur.len() ==> #[trigger] cur[j] != '\n',
    ensures
        forall|i: int, j: int|
            0 <= i < lines_from(cur, rest).len() && 0 <= j < lines_from(cur, rest)[i].len()
                ==> #[trigger] lines_from(cur, rest)[i][j] != '\n',
    decreases rest.len(),
{
    if rest.len() == 0 {
        if cur.len() > 0 {
            assert(lines_from(cur, rest) =~= seq![cur]);
        }
    } else if rest[0] == '\n' {
        lemma_lines_from_have_no_newline(Seq::empty(), rest.drop_first());
        let head = seq![strip_cr(cur)];
        let tail = lines_from(Seq::empty(), rest.drop_first());
        assert(lines_from(cur, rest) == head + tail);
        assert forall|i: int, j: int|
            0 <= i < (head + tail).len() && 0 <= j < (head + tail)[i].len() implies #[trigger] (
            head + tail)[i][j] != '\n' by {
            if i == 0 {
                assert((head + tail)[i] == strip_cr(cur));
                assert(strip_cr(cur)[j] == cur[j]);
            } else {
                assert((head + tail)[i] == tail[i - 1]);
            }
        }
    } else {
        let next = cur.push(rest[0]);
        assert forall|j: int| 0 <= j < next.len() implies #[trigger] next[j] != '\n' by {
            if j < cur.len() {
                assert(next[j] == cur[j]);
            }
        }
        lemma_lines_from_have_no_newline(next, rest.drop_first());
        assert(lines_from(cur, rest) == lines_from(next, rest.drop_first()));
    }
}

/// No line of a text holds a line feed.
pub proof fn lemma_lines_have_no_newline(s: Seq<char>)
    ensures
        forall|i: int, j: int|
            0 <= i < lines(s).len() && 0 <= j < lines(s)[i].len() ==> #[trigger] lines(s)[i][j]
                != '\n',
{
    lemma_lines_from_have_no_newline(Seq::empty(), s);
}

/// Whether `c` is an ASCII character with the Unicode `White_Space` property.
pub open spec fn ascii_white_space(c: char) -> bool {
    c == ' ' || c == '\t' || c == '\n' || c == '\x0B' || c == '\x0C' || c == '\r'
}

/// Whether `c` has the Unicode `White_Space` property (the behaviour of
/// `char::is_whitespace`): U+0009 to U+000D, U+0020, U+0085, U+00A0, U+1680,
/// U+2000 to U+200A, U+2028, U+2029, U+202F, U+205F and U+3000.
pub open spec fn white_space(c: char) -> bool {
    let n = c as u32;
    ||| 0x09 <= n <= 0x0D
    ||| n == 0x20
    ||| n == 0x85
    ||| n == 0xA0
    ||| n == 0x1680
    ||| 0x2000 <= n <= 0x200A
    ||| n == 0x2028
    ||| n == 0x2029
    ||| n == 0x202F
    ||| n == 0x205F
    ||| n == 0x3000
}

/// On ASCII characters, white space is the six ASCII white-space characters.
pub proof fn lemma_ascii_white_space(c: char)
    requires
        (c as u32) < 128,
    ensures
        white_space(c) <==> ascii_white_space(c),
{
}

/// Whether `c` has the Unicode `White_Space` property.
pub fn is_white_space(c: char) -> (b: bool)
    ensures
        b == white_space(c),
{
    let n: u32 = c as u32;
    (0x09 <= n && n <= 0x0D) || n == 0x20 || n == 0x85 || n == 0xA0 || n == 0x1680 || (0x2000
        <= n && n <= 0x200A) || n == 0x2028 || n == 0x2029 || n == 0x202F || n == 0x205F || n
        == 0x3000
}

/// Calls `FromIterator<char>` for `String` on the characters of `v`: the
/// string holds exactly those characters.
#[verifier::external_body]
pub(crate) fn string_from(v: &Vec<char>) -> (s: String)
    ensures
        s@ == v@,
{
    v.iter().collect()
}

/// Whether `c` is an ASCII letter, digit or underscore.
pub open spec fn ascii_word_char(c: char) -> bool {
    ('a' <= c && c <= 'z') || ('A' <= c && c <= 'Z') || ('0' <= c && c <= '9') || c == '_'
}

/// The text that `format!("{:?}", s)` gives for a string slice: `s` quoted,
/// with the escapes of `char::escape_debug`.
pub uninterp spec fn debug_text(s: Seq<char>) -> Seq<char>;

/// Calls the `Debug` formatting of `str`. The contract names the result and
/// states what the documentation of `char::escape_debug` gives for ASCII
/// letters, digits and underscores: they are not escaped, so the result is
/// the text between double quotes.
#[verifier::external_body]
pub(crate) fn debug_string(s: &str) -> (r: String)
    ensures
        r@ == debug_text(s@),
        (forall|i: int| 0 <= i < s@.len() ==> ascii_word_char(#[trigger] s@[i])) ==> r@ == seq![
            '"',
        ] + s@ + seq!['"'],
{
    format!("{:?}", s)
}

/// `c` with ASCII upper-case letters mapped to lower case.
pub open spec fn ascii_lower(c: char) -> char {
    if 'A' <= c && c <= 'Z' {
        ((c as u32) + 32) as char
    } else {
        c
    }
}

/// Whether every character of `s` is ASCII.
pub open spec fn all_ascii(s: Seq<char>) -> bool {
    forall|i: int| 0 <= i < s.len() ==> (#[trigger] s[i] as u32) < 128
}

/// The text that `str::to_lowercase` gives for `s`: its lower-case
/// equivalent under the Unicode `Lowercase` mapping.
pub uninterp spec fn lowercase(s: Seq<char>) -> Seq<char>;

/// The text that `str::to_lowercase` gives for `s`: on ASCII text the
/// upper-case letters become lower-case letters and every other character
/// stays; other text goes through the Unicode mapping, named by `lowercase`.
pub open spec fn lower_text(s: Seq<char>) -> Seq<char> {
    if all_ascii(s) {
        s.map_values(|c: char| ascii_lower(c))
    } else {
        lowercase(s)
    }
}

/// Calls `str::to_lowercase`. The contract gives the result through
/// `lower_text`: the ASCII mapping is spelled out, the Unicode mapping of
/// other text is named.
#[verifier::external_body]
pub(crate) fn to_lowercase(s: &str) -> (r: String)
    ensures
        r@ == lower_text(s@),
        !all_ascii(s@) ==> r@ == lowercase(s@),
{
    s.to_lowercase()
}

/// The characters of `s` from `start` to `end`.
pub fn slice_chars(s: &Vec<char>, start: usize, end: usize) -> (r: Vec<char>)
    requires
        start <= end <= s.len(),
    ensures
        r@ == s@.subrange(start as int, end as int),
{
    let mut r: Vec<char> = Vec::new();
    let mut i: usize = start;
    while i < end
        invariant
            start <= i <= end,
            end <= s.len(),
            r@ == s@.subrange(start as int, i as int),
        decreases end - i,
    {
        r.push(s[i]);
        assert(s@.subrange(start as int, i + 1) =~= s@.subrange(start as int, i as int).push(
            s@[i as int],
        ));
        i += 1;
    }
    r
}

/// `s` without its leading white space.
pub fn trim_start_chars(s: &Vec<char>) -> (r: Vec<char>)
    ensures
        r@ == trim_start(s@),
{
    let mut start: usize = 0;
    assert(s@.skip(0) =~= s@);
    while start < s.len() && is_white_space(s[start])
        invariant
            start <= s.len(),
            trim_start(s@) == trim_start(s@.skip(start as int)),
        decreases s.len() - start,
    {
        proof {
            lemma_skip_step(s@, start as int);
        }
        start += 1;
    }
    if start < s.len() {
        assert(s@.skip(start as int)[0] == s@[start as int]);
    } else {
        assert(s@.skip(start as int) =~= Seq::<char>::empty());
    }
    let r = slice_chars(s, start, s.len());
    assert(r@ =~= s@.skip(start as int));
    r
}

/// `s` without its trailing white space.
pub fn trim_end_chars(s: &Vec<char>) -> (r: Vec<char>)
    ensures
        r@ == trim_end(s@),
{
    let mut end: usize = s.len();
    assert(s@.take(s.len() as int) =~= s@);
    while end > 0 && is_white_space(s[end - 1])
        invariant
            end <= s.len(),
            trim_end(s@) == trim_end(s@.take(end as int)),
        decreases end,
    {
        assert(s@.take(end as int).drop_last() =~= s@.take(end - 1));
        end -= 1;
    }
    let r = slice_chars(s, 0, end);
    assert(r@ =~= s@.take(end as int));
    r
}

/// `s` without leading and trailing white space.
pub fn trim_chars(s: &Vec<char>) -> (r: Vec<char>)
    ensures
        r@ == trim(s@),
{
    let t = trim_start_chars(s);
    trim_end_chars(&t)
}

/// Each piece occurs in the pieces joined.
pub proof fn lemma_join_contains(pieces: Seq<Seq<char>>, sep: Seq<char>, k: int)
    requires
        0 <= k < pieces.len(),
    ensures
        contains(join(pieces, sep), pieces[k]),
    decreases pieces.len(),
{
    let j = join(pieces, sep);
    if pieces.len() == 1 {
        assert(j.subrange(0, pieces[0].len() as int) =~= pieces[0]);
        assert(occurs_at(j, pieces[k], 0));
    } else {
        let front = join(pieces.drop_last(), sep);
        assert(j == front + sep + pieces.last());
        if k == pieces.len() - 1 {
            let i: int = (front.len() + sep.len()) as int;
            assert(j.subrange(i, i + pieces[k].len()) =~= pieces[k]);
            assert(occurs_at(j, pieces[k], i));
        } else {
            lemma_join_contains(pieces.drop_last(), sep, k);
            assert(pieces.drop_last()[k] == pieces[k]);
            let i = choose|i: int| occurs_at(front, pieces[k], i);
            assert(j.subrange(i, i + pieces[k].len()) =~= front.subrange(i, i + pieces[k].len()));
            assert(occurs_at(j, pieces[k], i));
        }
    }
}

proof fn lemma_split_from_nonempty(cur: Seq<char>, rest: Seq<char>, sep: char)
    ensures
        split_from(cur, rest, sep).len() > 0,
    decreases rest.len(),
{
    if rest.len() > 0 {
        if rest[0] == sep {
            lemma_split_from_nonempty(Seq::empty(), rest.drop_first(), sep);
        } else {
            lemma_split_from_nonempty(cur.push(rest[0]), rest.drop_first(), sep);
        }
    }
}

proof fn lemma_join_prepend(a: Seq<char>, t: Seq<Seq<char>>, sep: Seq<char>)
    requires
        t.len() > 0,
    ensures
        join(seq![a] + t, sep) == a + sep + join(t, sep),
    decreases t.len(),
{
    let all = seq![a] + t;
    if t.len() == 1 {
        assert(all.drop_last() =~= seq![a]);
        assert(all.last() == t[0]);
        assert(join(seq![a], sep) == a);
        assert(join(t, sep) == t[0]);
        assert(join(all, sep) == join(all.drop_last(), sep) + sep + all.last());
    } else {
        lemma_join_prepend(a, t.drop_last(), sep);
        assert(all.drop_last() =~= seq![a] + t.drop_last());
        assert(all.last() == t.last());
        assert(join(all, sep) =~= a + sep + join(t, sep));
    }
}

proof fn lemma_split_from_laws(cur: Seq<char>, rest: Seq<char>, sep: char)
    requires
        !cur.contains(sep),
    ensures
        join(split_from(cur, rest, sep), seq![sep]) == cur + rest,
        forall|i: int|
            0 <= i < split_from(cur, rest, sep).len() ==> !(#[trigger] split_from(cur, rest, sep)[i]).contains(sep),
    decreases rest.len(),
{
    let pieces = split_from(cur, rest, sep);
    if rest.len() == 0 {
        assert(cur + rest =~= cur);
    } else if rest[0] == sep {
        let tail = split_from(Seq::empty(), rest.drop_first(), sep);
        assert(!Seq::<char>::empty().contains(sep));
        lemma_split_from_laws(Seq::empty(), rest.drop_first(), sep);
        lemma_split_from_nonempty(Seq::empty(), rest.drop_first(), sep);
        lemma_join_prepend(cur, tail, seq![sep]);
        assert(rest =~= seq![sep] + rest.drop_first());
        assert(Seq::<char>::empty() + rest.drop_first() =~= rest.drop_first());
        assert(cur + seq![sep] + rest.drop_first() =~= cur + rest);
        assert forall|i: int| 0 <= i < pieces.len() implies !(#[trigger] pieces[i]).contains(sep) by {
            if i > 0 {
                assert(pieces[i] == tail[i - 1]);
            }
        }
    } else {
        let next = cur.push(rest[0]);
        assert(!next.contains(sep)) by {
            if next.contains(sep) {
                let k = choose|k: int| 0 <= k < next.len() && next[k] == sep;
                if k < cur.len() {
                    assert(cur[k] == sep);
                }
            }
        }
        lemma_split_from_laws(next, rest.drop_first(), sep);
        assert(next + rest.drop_first() =~= cur + rest);
    }
}

/// Splitting at `sep` gives pieces without `sep` that, joined with `sep`
/// between neighbours, give the text back.
pub proof fn lemma_split_on(s: Seq<char>, sep: char)
    ensures
        split_on(s, sep).len() > 0,
        join(split_on(s, sep), seq![sep]) == s,
        forall|i: int| 0 <= i < split_on(s, sep).len() ==> !(#[trigger] split_on(s, sep)[i]).contains(sep),
{
    assert(!Seq::<char>::empty().contains(sep));
    lemma_split_from_nonempty(Seq::empty(), s, sep);
    lemma_split_from_laws(Seq::empty(), s, sep);
    assert(Seq::<char>::empty() + s =~= s);
}

proof fn lemma_lines_from_split(cur: Seq<char>, rest: Seq<char>)
    requires
        !cur.contains('\r'),
        !rest.contains('\r'),
    ensures
        rest.len() > 0 && rest.last() == '\n' ==> lines_from(cur, rest) == split_from(
            cur,
            rest.drop_last(),
            '\n',
        ),
        !(rest.len() > 0 && rest.last() == '\n') && cur.len() + rest.len() > 0 ==> lines_from(
            cur,
            rest,
        ) == split_from(cur, rest, '\n'),
        cur.len() + rest.len() == 0 ==> lines_from(cur, rest) == Seq::<Seq<char>>::empty(),
    decreases rest.len(),
{
    if rest.len() > 0 {
        let c = rest[0];
        let tail = rest.drop_first();
        assert(!tail.contains('\r')) by {
            if tail.contains('\r') {
                let k = choose|k: int| 0 <= k < tail.len() && tail[k] == '\r';
                assert(rest[k + 1] == '\r');
            }
        }
        if c == '\n' {
            assert(strip_cr(cur) == cur) by {
                if cur.len() > 0 && cur.last() == '\r' {
                    assert(cur[cur.len() - 1] == '\r');
                }
            }
            assert(!Seq::<char>::empty().contains('\r'));
            lemma_lines_from_split(Seq::empty(), tail);
            if tail.len() > 0 && tail.last() == '\n' {
                assert(rest.drop_last()[0] == '\n');
                assert(rest.drop_last().drop_first() =~= tail.drop_last());
            } else if tail.len() == 0 {
                assert(rest.drop_last() =~= Seq::<char>::empty());
            } else {
                assert(rest.last() == tail.last());
            }
        } else {
            assert(rest[0] != '\r');
            let next = cur.push(c);
            assert(!next.contains('\r')) by {
                if next.contains('\r') {
                    let k = choose|k: int| 0 <= k < next.len() && next[k] == '\r';
                    if k < cur.len() {
                        assert(cur[k] == '\r');
                    }
                }
            }
            lemma_lines_from_split(next, tail);
            if rest.last() == '\n' {
                assert(tail.len() > 0);
                assert(tail.last() == rest.last());
                assert(rest.drop_last()[0] == c);
                assert(rest.drop_last().drop_first() =~= tail.drop_last());
            } else {
                assert(tail.len() > 0 ==> tail.last() == rest.last());
            }
        }
    }
}

/// For text without `'\r'`, the lines joined with line feeds give the text
/// back, without its final line feed if it has one.
pub proof fn lemma_lines_rejoin(s: Seq<char>)
    requires
        !s.contains('\r'),
    ensures
        s.len() > 0 && s.last() == '\n' ==> join(lines(s), seq!['\n']) + seq!['\n'] == s,
        !(s.len() > 0 && s.last() == '\n') ==> join(lines(s), seq!['\n']) == s,
{
    assert(!Seq::<char>::empty().contains('\r'));
    lemma_lines_from_split(Seq::empty(), s);
    if s.len() > 0 && s.last() == '\n' {
        lemma_split_on(s.drop_last(), '\n');
        assert(s.drop_last() + seq!['\n'] =~= s);
    } else if s.len() > 0 {
        lemma_split_on(s, '\n');
    } else {
        assert(join(Seq::<Seq<char>>::empty(), seq!['\n']) =~= s);
    }
}

/// The characters of `s` that are not white space, in order.
pub open spec fn non_blank(s: Seq<char>) -> Seq<char>
    decreases s.len(),
{
    if s.len() == 0 {
        s
    } else if white_space(s[0]) {
        non_blank(s.drop_first())
    } else {
        seq![s[0]] + non_blank(s.drop_first())
    }
}

proof fn lemma_join_concat_unseparated(a: Seq<Seq<char>>, b: Seq<Seq<char>>)
    ensures
        join(a + b, Seq::<char>::empty()) == join(a, Seq::<char>::empty()) + join(
            b,
            Seq::<char>::empty(),
        ),
    decreases b.len(),
{
    let e = Seq::<char>::empty();
    if b.len() == 0 {
        assert(a + b =~= a);
        assert(join(a, e) + join(b, e) =~= join(a, e));
    } else {
        lemma_join_concat_unseparated(a, b.drop_last());
        assert((a + b).drop_last() =~= a + b.drop_last());
        assert((a + b).last() == b.last());
        if a.len() == 0 && b.len() == 1 {
            assert(a + b =~= b);
            assert(join(a, e) + join(b, e) =~= join(b, e));
        } else if b.len() == 1 {
            assert(b.drop_last() =~= Seq::<Seq<char>>::empty());
            assert(a + b.drop_last() =~= a);
            assert(join(a + b, e) =~= join(a, e) + e + b.last());
            assert(join(b, e) == b[0]);
        } else {
            assert(join(a + b, e) =~= join(a, e) + join(b, e));
        }
    }
}

proof fn lemma_words_from_rejoin(cur: Seq<char>, rest: Seq<char>)
    ensures
        join(words_from(cur, rest), Seq::<char>::empty()) == cur + non_blank(rest),
    decreases rest.len(),
{
    let e = Seq::<char>::empty();
    if rest.len() == 0 {
        assert(cur + non_blank(rest) =~= cur);
        if cur.len() == 0 {
            assert(join(word_if_any(cur), e) =~= cur);
        }
    } else if white_space(rest[0]) {
        lemma_words_from_rejoin(Seq::empty(), rest.drop_first());
        lemma_join_concat_unseparated(word_if_any(cur), words_from(Seq::empty(), rest.drop_first()));
        assert(Seq::<char>::empty() + non_blank(rest.drop_first()) =~= non_blank(rest.drop_first()));
        if cur.len() == 0 {
            assert(join(word_if_any(cur), e) =~= cur);
        }
    } else {
        lemma_words_from_rejoin(cur.push(rest[0]), rest.drop_first());
        assert(cur.push(rest[0]) + non_blank(rest.drop_first()) =~= cur + non_blank(rest));
    }
}

/// The words of a text, put together, are its characters other than white
/// space, in order.
pub proof fn lemma_words_rejoin(s: Seq<char>)
    ensures
        join(words(s), Seq::<char>::empty()) == non_blank(s),
{
    lemma_words_from_rejoin(Seq::empty(), s);
    assert(Seq::<char>::empty() + non_blank(s) =~= non_blank(s));
}

/// Whether every character of `s` is white space.
pub open spec fn blank(s: Seq<char>) -> bool {
    forall|i: int| 0 <= i < s.len() ==> white_space(#[trigger] s[i])
}

proof fn lemma_trim_start_shape(s: Seq<char>) -> (a: int)
    ensures
        0 <= a <= s.len(),
        trim_start(s) == s.skip(a),
        blank(s.take(a)),
        a < s.len() ==> !white_space(s[a]),
    decreases s.len(),
{
    if s.len() > 0 && white_space(s[0]) {
        let a1 = lemma_trim_start_shape(s.drop_first());
        assert(s.skip(a1 + 1) =~= s.drop_first().skip(a1));
        assert forall|i: int| 0 <= i < s.take(a1 + 1).len() implies white_space(
            #[trigger] s.take(a1 + 1)[i],
        ) by {
            if i > 0 {
                assert(s.take(a1 + 1)[i] == s.drop_first().take(a1)[i - 1]);
            }
        }
        if a1 + 1 < s.len() {
            assert(s[a1 + 1] == s.drop_first()[a1]);
        }
        a1 + 1
    } else {
        assert(s.skip(0) =~= s);
        0
    }
}

proof fn lemma_trim_end_shape(s: Seq<char>) -> (b: int)
    ensures
        0 <= b <= s.len(),
        trim_end(s) == s.take(b),
        blank(s.skip(b)),
        b > 0 ==> !white_space(s[b - 1]),
    decreases s.len(),
{
    if s.len() > 0 && white_space(s.last()) {
        let b1 = lemma_trim_end_shape(s.drop_last());
        assert(s.take(b1) =~= s.drop_last().take(b1));
        assert forall|i: int| 0 <= i < s.skip(b1).len() implies white_space(#[trigger] s.skip(b1)[i]) by {
            if b1 + i < s.len() - 1 {
                assert(s.skip(b1)[i] == s.drop_last().skip(b1)[i]);
            }
        }
        b1
    } else {
        assert(s.take(s.len() as int) =~= s);
        s.len() as int
    }
}

/// Trimming removes white space at the two ends and nothing else: the
/// result is a piece of the text with only white space before and after it,
/// and it neither starts nor ends with white space.
pub proof fn lemma_trim(s: Seq<char>)
    ensures
        exists|a: int, b: int|
            0 <= a <= b <= s.len() && trim(s) == s.subrange(a, b) && blank(s.take(a)) && blank(
                s.skip(b),
            ),
        trim(s).len() > 0 ==> !white_space(trim(s)[0]) && !white_space(trim(s).last()),
{
    let a = lemma_trim_start_shape(s);
    let t = s.skip(a);
    let b = lemma_trim_end_shape(t);
    assert(trim(s) =~= s.subrange(a, a + b));
    assert(s.skip(a + b) =~= t.skip(b));
    if trim(s).len() > 0 {
        assert(trim(s)[0] == s[a]);
        assert(trim(s).last() == t[b - 1]);
    }
}

proof fn lemma_trim_start_blank_prefix(p: Seq<char>, x: Seq<char>)
    requires
        blank(p),
    ensures
        trim_start(p + x) == trim_start(x),
    decreases p.len(),
{
    if p.len() > 0 {
        assert((p + x)[0] == p[0]);
        assert((p + x).drop_first() =~= p.drop_first() + x);
        lemma_trim_start_blank_prefix(p.drop_first(), x);
    } else {
        assert(p + x =~= x);
    }
}

proof fn lemma_trim_end_blank_suffix(x: Seq<char>, q: Seq<char>)
    requires
        blank(q),
    ensures
        trim_end(x + q) == trim_end(x),
    decreases q.len(),
{
    if q.len() > 0 {
        assert((x + q).last() == q.last());
        assert((x + q).drop_last() =~= x + q.drop_last());
        lemma_trim_end_blank_suffix(x, q.drop_last());
    } else {
        assert(x + q =~= x);
    }
}

proof fn lemma_trim_start_suffix(x: Seq<char>, q: Seq<char>)
    ensures
        trim_start(x).len() > 0 ==> trim_start(x + q) == trim_start(x) + q,
        trim_start(x).len() == 0 ==> trim_start(x + q) == trim_start(q),
    decreases x.len(),
{
    if x.len() == 0 {
        assert(x + q =~= q);
    } else {
        assert((x + q)[0] == x[0]);
        if white_space(x[0]) {
            assert((x + q).drop_first() =~= x.drop_first() + q);
            lemma_trim_start_suffix(x.drop_first(), q);
        }
    }
}

/// White space around a text does not change the text trimmed.
pub proof fn lemma_trim_padding(p: Seq<char>, x: Seq<char>, q: Seq<char>)
    requires
        blank(p),
        blank(q),
    ensures
        trim(p + x + q) == trim(x),
{
    assert(p + x + q =~= p + (x + q));
    lemma_trim_start_blank_prefix(p, x + q);
    lemma_trim_start_suffix(x, q);
    if trim_start(x).len() > 0 {
        lemma_trim_end_blank_suffix(trim_start(x), q);
    } else {
        assert(Seq::<char>::empty() + q =~= q);
        lemma_trim_start_blank_prefix(q, Seq::<char>::empty());
        assert(q + Seq::<char>::empty() =~= q);
    }
}

/// The decimal digit for `d` (below ten).
pub open spec fn digit(d: nat) -> char {
    (d + 48) as char
}

/// The decimal representation of `n`, without leading zeros (the `Display`
/// form of an unsigned integer).
pub open spec fn decimal(n: nat) -> Seq<char>
    decreases n,
{
    if n < 10 {
        seq![digit(n)]
    } else {
        decimal(n / 10).push(digit(n % 10))
    }
}

/// The number that the decimal digits `s` write.
pub open spec fn digits_value(s: Seq<char>) -> nat
    decreases s.len(),
{
    if s.len() == 0 {
        0
    } else {
        digits_value(s.drop_last()) * 10 + ((s.last() as u32) - 48) as nat
    }
}

/// The decimal representation of `n` is made of decimal digits, has no
/// leading zero, and writes `n`.
pub proof fn lemma_decimal(n: nat)
    ensures
        decimal(n).len() > 0,
        forall|i: int| 0 <= i < decimal(n).len() ==> 48 <= (#[trigger] decimal(n)[i] as u32) <= 57,
        decimal(n).len() > 1 ==> decimal(n)[0] != '0',
        decimal(n).len() == 1 <==> n < 10,
        digits_value(decimal(n)) == n,
    decreases n,
{
    let d = n % 10;
    assert((digit(d) as u32) == d + 48);
    assert(decimal(n).last() == digit(d));
    assert(digits_value(decimal(n)) == digits_value(decimal(n).drop_last()) * 10 + d);
    if n < 10 {
        assert(decimal(n).drop_last() =~= Seq::<char>::empty());
    } else {
        lemma_decimal(n / 10);
        let prev = decimal(n / 10);
        assert(decimal(n).drop_last() =~= prev);
        assert(decimal(n)[0] == prev[0]);
        assert(n == (n / 10) * 10 + n % 10) by (nonlinear_arith);
        assert forall|i: int| 0 <= i < decimal(n).len() implies 48 <= (#[trigger] decimal(n)[i] as u32)
            <= 57 by {
            if i < prev.len() {
                assert(decimal(n)[i] == prev[i]);
            }
        }
        if prev.len() == 1 {
            assert(n / 10 > 0);
            assert(prev =~= seq![digit(n / 10)]);
            assert((prev[0] as u32) == n / 10 + 48);
        }
    }
}

/// The decimal representation of `n`.
pub fn decimal_chars(n: u64) -> (r: Vec<char>)
    ensures
        r@ == decimal(n as nat),
    decreases n,
{
    let d: u8 = (n % 10) as u8;
    let c: char = (48u8 + d) as char;
    assert(c == digit((n % 10) as nat));
    if n < 10 {
        let mut r: Vec<char> = Vec::new();
        r.push(c);
        assert(r@ =~= seq![digit(n as nat)]);
        r
    } else {
        let mut r = decimal_chars(n / 10);
        r.push(c);
        r
    }
}

/// Whether `t` occurs in `s` at position `i`.
fn occurs_here(s: &Vec<char>, t: &Vec<char>, i: usize) -> (r: bool)
    requires
        i + t.len() <= s.len(),
    ensures
        r == occurs_at(s@, t@, i as int),
{
    let mut k: usize = 0;
    while k < t.len()
        invariant
            k <= t.len(),
            i + t.len() <= s.len(),
            forall|m: int| 0 <= m < k ==> s@[i + m] == t@[m],
        decreases t.len() - k,
    {
        if s[i + k] != t[k] {
            assert(s@.subrange(i as int, i + t.len())[k as int] != t@[k as int]);
            return false;
        }
        k += 1;
    }
    assert(s@.subrange(i as int, i + t.len()) =~= t@);
    true
}

/// Whether `t` occurs somewhere in `s`.
pub fn contains_chars(s: &Vec<char>, t: &Vec<char>) -> (r: bool)
    ensures
        r == contains(s@, t@),
{
    if t.len() > s.len() {
        assert forall|i: int| !occurs_at(s@, t@, i) by {}
        return false;
    }
    if t.len() == 0 {
        assert(s@.subrange(0, 0) =~= t@);
        assert(occurs_at(s@, t@, 0));
        return true;
    }
    let last: usize = s.len() - t.len();
    let mut i: usize = 0;
    while i <= last
        invariant
            last == s.len() - t.len(),
            0 < t.len() <= s.len(),
            i <= last + 1,
            forall|k: int| 0 <= k < i ==> !occurs_at(s@, t@, k),
        decreases last + 1 - i,
    {
        if occurs_here(s, t, i) {
            return true;
        }
        i += 1;
    }
    assert forall|k: int| !occurs_at(s@, t@, k) by {
        if 0 <= k && k + t@.len() <= s@.len() {
            assert(k <= last);
        }
    }
    false
}

/// Whether `a` and `b` hold the same characters.
pub fn same_chars(a: &Vec<char>, b: &Vec<char>) -> (r: bool)
    ensures
        r == (a@ == b@),
{
    if a.len() != b.len() {
        return false;
    }
    let mut i: usize = 0;
    while i < a.len()
        invariant
            i <= a.len(),
            a.len() == b.len(),
            forall|k: int| 0 <= k < i ==> a@[k] == b@[k],
        decreases a.len() - i,
    {
        if a[i] != b[i] {
            return false;
        }
        i += 1;
    }
    assert(a@ =~= b@);
    true
}

/// `out` followed by the characters of `s`.
pub fn append(out: &mut Vec<char>, s: &Vec<char>)
    ensures
        final(out)@ == old(out)@ + s@,
{
    let mut i: usize = 0;
    while i < s.len()
        invariant
            i <= s.len(),
            out@ == old(out)@ + s@.take(i as int),
        decreases s.len() - i,
    {
        out.push(s[i]);
        assert(s@.take(i + 1) =~= s@.take(i as int).push(s@[i as int]));
        i += 1;
    }
    assert(s@.take(i as int) =~= s@);
}

/// The pieces joined, with `sep` between neighbours.
pub fn join_with(pieces: &Vec<Vec<char>>, sep: &Vec<char>) -> (r: Vec<char>)
    ensures
        r@ == join(views(pieces@), sep@),
{
    let mut out: Vec<char> = Vec::new();
    let mut i: usize = 0;
    while i < pieces.len()
        invariant
            i <= pieces.len(),
            out@ == join(views(pieces@).take(i as int), sep@),
        decreases pieces.len() - i,
    {
        let ghost before = out@;
        if i > 0 {
            append(&mut out, sep);
        }
        append(&mut out, &pieces[i]);
        proof {
            let t = views(pieces@).take(i + 1);
            assert(t.drop_last() =~= views(pieces@).take(i as int));
            if i == 0 {
                assert(before =~= Seq::<char>::empty());
                assert(out@ =~= t[0]);
            }
        }
        i += 1;
    }
    assert(views(pieces@).take(i as int) =~= views(pieces@));
    out
}

/// The deep view of character vectors is their character views.
pub proof fn lemma_deep_view_chars(vs: Vec<Vec<char>>)
    ensures
        vs.deep_view() == views(vs@),
{
    assert forall|i: int| 0 <= i < vs@.len() implies #[trigger] vs@[i].deep_view() == vs@[i]@ by {
        assert(vs@[i].deep_view() =~= vs@[i]@);
    }
    assert(vs.deep_view() =~= views(vs@));
}

/// The deep view of a character vector is its view.
pub proof fn lemma_deep_view_char_vec(v: Vec<char>)
    ensures
        v.deep_view() == v@,
{
    assert(v.deep_view() =~= v@);
}

/// The characters of `s`, in order.
pub fn chars_of(s: &str) -> (v: Vec<char>)
    ensures
        v@ == s@,
{
    let mut v: Vec<char> = Vec::new();
    for c in it: s.chars()
        invariant
            v@ == it.seq().take(it.index()),
    {
        v.push(c);
    }
    v
}

pub proof fn lemma_views_push(vs: Seq<Vec<char>>, v: Vec<char>)
    ensures
        views(vs.push(v)) == views(vs).push(v@),
{
    assert(views(vs.push(v)) =~= views(vs).push(v@));
}

pub proof fn lemma_skip_step(s: Seq<char>, i: int)
    requires
        0 <= i < s.len(),
    ensures
        s.skip(i).drop_first() == s.skip(i + 1),
        s.skip(i)[0] == s[i],
        s.skip(i).len() == s.len() - i,
{
    assert(s.skip(i).drop_first() =~= s.skip(i + 1));
}

/// `s` split at every occurrence of `sep`.
pub fn split_char(s: &Vec<char>, sep: char) -> (pieces: Vec<Vec<char>>)
    ensures
        views(pieces@) == split_on(s@, sep),
{
    let mut out: Vec<Vec<char>> = Vec::new();
    let mut cur: Vec<char> = Vec::new();
    let mut i: usize = 0;
    assert(s@.skip(0) =~= s@);
    while i < s.len()
        invariant
            i <= s.len(),
            views(out@) + split_from(cur@, s@.skip(i as int), sep) == split_on(s@, sep),
        decreases s.len() - i,
    {
        let c = s[i];
        proof {
            lemma_skip_step(s@, i as int);
        }
        if c == sep {
            proof {
                lemma_views_push(out@, cur);
                assert(views(out@.push(cur)) + split_from(Seq::empty(), s@.skip(i + 1), sep)
                    =~= views(out@) + split_from(cur@, s@.skip(i as int), sep));
            }
            out.push(cur);
            cur = Vec::new();
        } else {
            cur.push(c);
        }
        i += 1;
    }
    proof {
        lemma_views_push(out@, cur);
        assert(s@.skip(i as int) =~= Seq::<char>::empty());
    }
    out.push(cur);
    out
}

/// `s` split at the separator `"\n\n"`.
pub fn split_blocks(s: &Vec<char>) -> (pieces: Vec<Vec<char>>)
    ensures
        views(pieces@) == blocks(s@),
{
    let mut out: Vec<Vec<char>> = Vec::new();
    let mut cur: Vec<char> = Vec::new();
    let mut i: usize = 0;
    assert(s@.skip(0) =~= s@);
    while i < s.len()
        invariant
            i <= s.len(),
            views(out@) + blocks_from(cur@, s@.skip(i as int)) == blocks(s@),
        decreases s.len() - i,
    {
        let c = s[i];
        proof {
            lemma_skip_step(s@, i as int);
        }
        if c == '\n' && i + 1 < s.len() && s[i + 1] == '\n' {
            proof {
                assert(s@.skip(i as int).skip(2) =~= s@.skip(i + 2));
                lemma_views_push(out@, cur);
                assert(views(out@.push(cur)) + blocks_from(Seq::empty(), s@.skip(i + 2))
                    =~= views(out@) + blocks_from(cur@, s@.skip(i as int)));
            }
            out.push(cur);
            cur = Vec::new();
            i += 2;
        } else {
            cur.push(c);
            i += 1;
        }
    }
    proof {
        lemma_views_push(out@, cur);
        assert(s@.skip(i as int) =~= Seq::<char>::empty());
    }
    out.push(cur);
    out
}

/// The lines of `s`.
pub fn split_lines(s: &Vec<char>) -> (result: Vec<Vec<char>>)
    ensures
        views(result@) == lines(s@),
{
    let mut out: Vec<Vec<char>> = Vec::new();
    let mut cur: Vec<char> = Vec::new();
    let mut i: usize = 0;
    assert(s@.skip(0) =~= s@);
    while i < s.len()
        invariant
            i <= s.len(),
            views(out@) + lines_from(cur@, s@.skip(i as int)) == lines(s@),
        decreases s.len() - i,
    {
        let c = s[i];
        proof {
            lemma_skip_step(s@, i as int);
        }
        if c == '\n' {
            let ghost old_cur = cur@;
            let n: usize = cur.len();
            if n > 0 && cur[n - 1] == '\r' {
                cur.pop();
            }
            assert(cur@ == strip_cr(old_cur));
            proof {
                lemma_views_push(out@, cur);
                assert(views(out@.push(cur)) + lines_from(Seq::empty(), s@.skip(i + 1))
                    =~= views(out@) + lines_from(old_cur, s@.skip(i as int)));
            }
            out.push(cur);
            cur = Vec::new();
        } else {
            cur.push(c);
        }
        i += 1;
    }
    proof {
        assert(s@.skip(i as int) =~= Seq::<char>::empty());
    }
    if cur.len() > 0 {
        proof {
            lemma_views_push(out@, cur);
        }
        out.push(cur);
    } else {
        assert(views(out@) + Seq::<Seq<char>>::empty() =~= views(out@));
    }
    out
}

/// The words of `s`: its maximal runs of non-white-space characters.
pub fn split_words(s: &Vec<char>) -> (result: Vec<Vec<char>>)
    ensures
        views(result@) == words(s@),
{
    let mut out: Vec<Vec<char>> = Vec::new();
    let mut cur: Vec<char> = Vec::new();
    let mut i: usize = 0;
    assert(s@.skip(0) =~= s@);
    while i < s.len()
        invariant
            i <= s.len(),
            views(out@) + words_from(cur@, s@.skip(i as int)) == words(s@),
        decreases s.len() - i,
    {
        let c = s[i];
        proof {
            lemma_skip_step(s@, i as int);
        }
        if is_white_space(c) {
            if cur.len() > 0 {
                proof {
                    lemma_views_push(out@, cur);
                    assert(views(out@.push(cur)) + words_from(Seq::empty(), s@.skip(i + 1))
                        =~= views(out@) + words_from(cur@, s@.skip(i as int)));
                }
                out.push(cur);
                cur = Vec::new();
            } else {
                assert(cur@ =~= Seq::<char>::empty());
                assert(word_if_any(cur@) =~= Seq::<Seq<char>>::empty());
                assert(words_from(cur@, s@.skip(i as int)) =~= words_from(
                    Seq::empty(),
                    s@.skip(i + 1),
                ));
            }
        } else {
            assert(!white_space(c));
            assert(words_from(cur@, s@.skip(i as int)) == words_from(
                cur@.push(c),
                s@.skip(i + 1),
            ));
            cur.push(c);
        }
        i += 1;
    }
    proof {
        assert(s@.skip(i as int) =~= Seq::<char>::empty());
    }
    if cur.len() > 0 {
        proof {
            lemma_views_push(out@, cur);
        }
        out.push(cur);
    } else {
        assert(views(out@) + Seq::<Seq<char>>::empty() =~= views(out@));
    }
    out
}

} // verus!
