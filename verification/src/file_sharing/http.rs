//! A minimal HTTP layer: request methods, request targets, requests read
//! from header lines, a routing table and static file responses.
use vstd::prelude::*;
use vstd::utf8::{decode_utf8, encode_utf8, is_char_boundary};

use crate::style::{bold, bold_form, lemma_no_reset};
use crate::entries::{
    distinct_keys, has_key, insert_entry, key_index, lemma_upsert_distinct, lemma_upsert_has_key,
    lemma_upsert_lookup, upsert,
};
use crate::text::{
    all_ascii, ascii_lower, append, chars_of, decimal, decimal_chars, digits_value, join,
    lemma_decimal, lemma_split_on, lower_text, same_chars, split_char, split_on, split_words,
    string_from, to_lowercase, views, words,
};

verus! {

/// A request method; `CatchAll` stands for routes that no parsed request
/// method selects.
#[derive(Debug, PartialEq, Eq, Structural, Clone, Copy)]
pub enum HttpMethod {
    GET,
    POST,
    PUT,
    DELETE,
    CatchAll,
}

/// The method that a request names with `name`, if it is one of `GET`,
/// `POST`, `PUT` and `DELETE`.
pub open spec fn method_named(name: Seq<char>) -> Option<HttpMethod> {
    if name == seq!['G', 'E', 'T'] {
        Some(HttpMethod::GET)
    } else if name == seq!['P', 'O', 'S', 'T'] {
        Some(HttpMethod::POST)
    } else if name == seq!['P', 'U', 'T'] {
        Some(HttpMethod::PUT)
    } else if name == seq!['D', 'E', 'L', 'E', 'T', 'E'] {
        Some(HttpMethod::DELETE)
    } else {
        None
    }
}

/// The name of a method, as its `Debug` form writes it.
pub open spec fn method_label(m: HttpMethod) -> Seq<char> {
    match m {
        HttpMethod::GET => seq!['G', 'E', 'T'],
        HttpMethod::POST => seq!['P', 'O', 'S', 'T'],
        HttpMethod::PUT => seq!['P', 'U', 'T'],
        HttpMethod::DELETE => seq!['D', 'E', 'L', 'E', 'T', 'E'],
        HttpMethod::CatchAll => seq!['C', 'a', 't', 'c', 'h', 'A', 'l', 'l'],
    }
}

/// Reading a method's name gives the method back, for every method that a
/// request can name; `CatchAll` is named by no request.
pub proof fn lemma_method_names(m: HttpMethod)
    ensures
        m != HttpMethod::CatchAll ==> method_named(method_label(m)) == Some(m),
        m == HttpMethod::CatchAll ==> method_named(method_label(m)) is None,
        forall|name: Seq<char>| #[trigger] method_named(name) == Some(m) ==> name == method_label(m),
{
    let c = seq!['C', 'a', 't', 'c', 'h', 'A', 'l', 'l'];
    assert(c != seq!['G', 'E', 'T'] && c != seq!['P', 'O', 'S', 'T'] && c != seq!['P', 'U', 'T']
        && c != seq!['D', 'E', 'L', 'E', 'T', 'E']) by {
        assert(c.len() == 8);
    }
}

impl HttpMethod {
    /// The name of this method.
    pub fn label(&self) -> (s: String)
        ensures
            s@ == method_label(*self),
    {
        let v: Vec<char> = match self {
            HttpMethod::GET => vec!['G', 'E', 'T'],
            HttpMethod::POST => vec!['P', 'O', 'S', 'T'],
            HttpMethod::PUT => vec!['P', 'U', 'T'],
            HttpMethod::DELETE => vec!['D', 'E', 'L', 'E', 'T', 'E'],
            HttpMethod::CatchAll => vec!['C', 'a', 't', 'c', 'h', 'A', 'l', 'l'],
        };
        assert(v@ =~= method_label(*self));
        string_from(&v)
    }

    /// The method named `method`, where it is one of `GET`, `POST`, `PUT`,
    /// `DELETE`, and `None` otherwise.
    pub fn parse(method: &str) -> (m: Option<HttpMethod>)
        ensures
            m == method_named(method@),
    {
        let name = chars_of(method);
        if same_chars(&name, &vec!['G', 'E', 'T']) {
            Some(HttpMethod::GET)
        } else if same_chars(&name, &vec!['P', 'O', 'S', 'T']) {
            Some(HttpMethod::POST)
        } else if same_chars(&name, &vec!['P', 'U', 'T']) {
            Some(HttpMethod::PUT)
        } else if same_chars(&name, &vec!['D', 'E', 'L', 'E', 'T', 'E']) {
            Some(HttpMethod::DELETE)
        } else {
            None
        }
    }

    /// The method named `method` (one of `GET`, `POST`, `PUT`, `DELETE`).
    pub fn from(method: &str) -> (m: HttpMethod)
        requires
            method_named(method@) is Some,
        ensures
            method_named(method@) == Some(m),
    {
        HttpMethod::parse(method).unwrap()
    }
}

/// The path and query of a request target.
pub struct HttpRequestTarget {
    pub path: String,
    pub query: String,
}

/// The path and query of `target`: the text before and after its `?`; a
/// target with more than one `?` has an empty path and query.
pub open spec fn target_parts(target: Seq<char>) -> (Seq<char>, Seq<char>) {
    let pieces = split_on(target, '?');
    if pieces.len() == 1 {
        (pieces[0], Seq::empty())
    } else if pieces.len() == 2 {
        (pieces[0], pieces[1])
    } else {
        (Seq::empty(), Seq::empty())
    }
}

/// A target without `?` is all path; with one `?` it is the path, the `?`
/// and the query; with more, both are empty. Neither part holds a `?`.
pub proof fn lemma_target_parts(target: Seq<char>)
    ensures
        !target.contains('?') ==> target_parts(target) == (target, Seq::<char>::empty()),
        split_on(target, '?').len() == 2 ==> target_parts(target).0 + seq!['?'] + target_parts(
            target,
        ).1 == target,
        !target_parts(target).0.contains('?'),
        !target_parts(target).1.contains('?'),
{
    lemma_split_on(target, '?');
    let pieces = split_on(target, '?');
    assert(!Seq::<char>::empty().contains('?'));
    if pieces.len() == 1 {
        assert(join(pieces, seq!['?']) == pieces[0]);
    }
    if pieces.len() == 2 {
        assert(pieces.drop_last() =~= seq![pieces[0]]);
        assert(join(pieces.drop_last(), seq!['?']) == pieces[0]);
        assert(target.contains('?')) by {
            assert(target == pieces[0] + seq!['?'] + pieces[1]);
            assert(target[pieces[0].len() as int] == '?');
        }
    }
    if pieces.len() > 2 {
        assert(target.contains('?')) by {
            lemma_join_has_separator(pieces, '?');
        }
    }
}

proof fn lemma_join_has_separator(pieces: Seq<Seq<char>>, sep: char)
    requires
        pieces.len() >= 2,
    ensures
        join(pieces, seq![sep]).contains(sep),
{
    let j = join(pieces, seq![sep]);
    let front = join(pieces.drop_last(), seq![sep]);
    assert(j == front + seq![sep] + pieces.last());
    assert(j[front.len() as int] == sep);
}

impl HttpRequestTarget {
    /// The path and query of `target`.
    pub fn from(target: &str) -> (t: HttpRequestTarget)
        ensures
            (t.path@, t.query@) == target_parts(target@),
    {
        let chars = chars_of(target);
        let pieces = split_char(&chars, '?');
        assert(pieces.len() == split_on(target@, '?').len());
        if pieces.len() == 1 {
            HttpRequestTarget { path: string_from(&pieces[0]), query: String::new() }
        } else if pieces.len() == 2 {
            HttpRequestTarget { path: string_from(&pieces[0]), query: string_from(&pieces[1]) }
        } else {
            HttpRequestTarget { path: String::new(), query: String::new() }
        }
    }
}

/// `line` has its first `:` at position `i`.
pub open spec fn colon_at(line: Seq<char>, i: int) -> bool {
    &&& 0 <= i < line.len()
    &&& line[i] == ':'
    &&& forall|k: int| 0 <= k < i ==> line[k] != ':'
}

/// Whether `line` holds a `:`.
pub open spec fn has_colon(line: Seq<char>) -> bool {
    exists|i: int| 0 <= i < line.len() && line[i] == ':'
}

/// The position of the first `:` of `line`.
pub open spec fn colon_index(line: Seq<char>) -> int {
    choose|i: int| colon_at(line, i)
}

/// Whether the header name and value of `line` can be cut out. They are cut
/// at the byte offsets of the `:`'s character position and the one after it
/// in the UTF-8 encoding of the line, which must be character boundaries.
pub open spec fn header_cut_fits(line: Seq<char>) -> bool {
    has_colon(line) ==> {
        let bytes = encode_utf8(line);
        let i = colon_index(line);
        is_char_boundary(bytes, i) && is_char_boundary(bytes, i + 1)
    }
}

/// The header of `line` (which holds a `:`): the lower-cased text of the
/// first bytes of the line, as many as the `:`'s character position, and the
/// text of the bytes after the byte at that offset. For a line whose text
/// before the `:` is ASCII these are the text before and after the `:`.
pub open spec fn header_of(line: Seq<char>) -> (Seq<char>, Seq<char>) {
    let bytes = encode_utf8(line);
    let i = colon_index(line);
    (
        lower_text(decode_utf8(bytes.subrange(0, i))),
        decode_utf8(bytes.subrange(i + 1, bytes.len() as int)),
    )
}

/// The line that ends the header lines.
pub open spec fn crlf() -> Seq<char> {
    seq!['\r', '\n']
}

/// Whether every line of `rest` that is read for headers (those before a
/// line that is exactly `"\r\n"`) can be cut.
pub open spec fn header_cuts_fit(rest: Seq<Seq<char>>) -> bool
    decreases rest.len(),
{
    if rest.len() == 0 || rest[0] == crlf() {
        true
    } else {
        header_cut_fits(rest[0]) && header_cuts_fit(rest.drop_first())
    }
}

/// The headers `acc` extended with those of the lines `rest`, read up to a
/// line that is exactly `"\r\n"`; a later header replaces an earlier one
/// with the same name.
pub open spec fn headers_from(acc: Seq<(Seq<char>, Seq<char>)>, rest: Seq<Seq<char>>) -> Seq<
    (Seq<char>, Seq<char>),
>
    decreases rest.len(),
{
    if rest.len() == 0 || rest[0] == crlf() {
        acc
    } else if has_colon(rest[0]) {
        headers_from(upsert(acc, header_of(rest[0]).0, header_of(rest[0]).1), rest.drop_first())
    } else {
        headers_from(acc, rest.drop_first())
    }
}

/// The name of the header that `line` gives.
pub open spec fn header_name(line: Seq<char>) -> Seq<char> {
    header_of(line).0
}

/// The value of the header that `line` gives.
pub open spec fn header_value(line: Seq<char>) -> Seq<char> {
    header_of(line).1
}

/// Whether line `m` of `rest` is read for headers: neither it nor a line
/// before it is `"\r\n"`.
pub open spec fn header_line_read(rest: Seq<Seq<char>>, m: int) -> bool {
    0 <= m < rest.len() && forall|l: int| 0 <= l <= m ==> #[trigger] rest[l] != crlf()
}

/// Whether a line of `rest` read for headers after line `j` gives a header
/// named `name`.
pub open spec fn header_named_later(rest: Seq<Seq<char>>, j: int, name: Seq<char>) -> bool {
    exists|m: int|
        j < m && #[trigger] header_line_read(rest, m) && has_colon(rest[m]) && header_name(rest[m])
            == name
}

proof fn lemma_headers_keep_key(
    acc: Seq<(Seq<char>, Seq<char>)>,
    rest: Seq<Seq<char>>,
    name: Seq<char>,
)
    requires
        has_key(acc, name),
    ensures
        has_key(headers_from(acc, rest), name),
    decreases rest.len(),
{
    if rest.len() == 0 || rest[0] == crlf() {
    } else if has_colon(rest[0]) {
        lemma_upsert_has_key(acc, header_of(rest[0]).0, header_of(rest[0]).1, name);
        lemma_headers_keep_key(upsert(acc, header_of(rest[0]).0, header_of(rest[0]).1), rest.drop_first(), name);
    } else {
        lemma_headers_keep_key(acc, rest.drop_first(), name);
    }
}

proof fn lemma_header_read_step(rest: Seq<Seq<char>>, m: int)
    requires
        m >= 0,
        rest.len() > 0,
        rest[0] != crlf(),
    ensures
        header_line_read(rest, m + 1) <==> header_line_read(rest.drop_first(), m),
{
    if header_line_read(rest, m + 1) {
        assert forall|l: int| 0 <= l <= m implies #[trigger] rest.drop_first()[l] != crlf() by {
            assert(rest.drop_first()[l] == rest[l + 1]);
            assert(rest[l + 1] != crlf());
        }
    }
    if header_line_read(rest.drop_first(), m) {
        assert forall|l: int| 0 <= l <= m + 1 implies #[trigger] rest[l] != crlf() by {
            if l > 0 {
                assert(rest[l] == rest.drop_first()[l - 1]);
                assert(rest.drop_first()[l - 1] != crlf());
            }
        }
    }
}

proof fn lemma_headers_distinct(acc: Seq<(Seq<char>, Seq<char>)>, rest: Seq<Seq<char>>)
    requires
        distinct_keys(acc),
    ensures
        distinct_keys(headers_from(acc, rest)),
    decreases rest.len(),
{
    if rest.len() == 0 || rest[0] == crlf() {
    } else if has_colon(rest[0]) {
        lemma_upsert_distinct(acc, header_of(rest[0]).0, header_of(rest[0]).1);
        lemma_headers_distinct(upsert(acc, header_of(rest[0]).0, header_of(rest[0]).1), rest.drop_first());
    } else {
        lemma_headers_distinct(acc, rest.drop_first());
    }
}

proof fn lemma_headers_key(acc: Seq<(Seq<char>, Seq<char>)>, rest: Seq<Seq<char>>, j: int)
    requires
        header_line_read(rest, j),
        has_colon(rest[j]),
    ensures
        has_key(headers_from(acc, rest), header_name(rest[j])),
    decreases rest.len(),
{
    assert(rest[0] != crlf());
    if j == 0 {
        lemma_upsert_has_key(acc, header_of(rest[0]).0, header_of(rest[0]).1, header_name(rest[0]));
        lemma_headers_keep_key(
            upsert(acc, header_of(rest[0]).0, header_of(rest[0]).1),
            rest.drop_first(),
            header_name(rest[0]),
        );
    } else {
        lemma_header_read_step(rest, j - 1);
        assert(rest.drop_first()[j - 1] == rest[j]);
        if has_colon(rest[0]) {
            lemma_headers_key(upsert(acc, header_of(rest[0]).0, header_of(rest[0]).1), rest.drop_first(), j - 1);
        } else {
            lemma_headers_key(acc, rest.drop_first(), j - 1);
        }
    }
}

proof fn lemma_headers_keep_value(
    acc: Seq<(Seq<char>, Seq<char>)>,
    rest: Seq<Seq<char>>,
    name: Seq<char>,
)
    requires
        distinct_keys(acc),
        has_key(acc, name),
        !header_named_later(rest, -1, name),
    ensures
        has_key(headers_from(acc, rest), name),
        headers_from(acc, rest)[key_index(headers_from(acc, rest), name)].1 == acc[key_index(
            acc,
            name,
        )].1,
    decreases rest.len(),
{
    lemma_headers_keep_key(acc, rest, name);
    if rest.len() == 0 || rest[0] == crlf() {
    } else {
        assert forall|m: int| -1 < m && #[trigger] header_line_read(rest.drop_first(), m) && has_colon(
            rest.drop_first()[m],
        ) implies header_name(rest.drop_first()[m]) != name by {
            lemma_header_read_step(rest, m);
            assert(rest.drop_first()[m] == rest[m + 1]);
            if header_name(rest.drop_first()[m]) == name {
                assert(header_line_read(rest, m + 1));
                assert(header_named_later(rest, -1, name));
            }
        }
        if has_colon(rest[0]) {
                        assert(header_line_read(rest, 0));
            assert(header_name(rest[0]) != name);
            lemma_upsert_lookup(acc, header_of(rest[0]).0, header_of(rest[0]).1);
            lemma_headers_keep_value(upsert(acc, header_of(rest[0]).0, header_of(rest[0]).1), rest.drop_first(), name);
        } else {
            lemma_headers_keep_value(acc, rest.drop_first(), name);
        }
    }
}

proof fn lemma_headers_value(acc: Seq<(Seq<char>, Seq<char>)>, rest: Seq<Seq<char>>, j: int)
    requires
        distinct_keys(acc),
        header_line_read(rest, j),
        has_colon(rest[j]),
        !header_named_later(rest, j, header_name(rest[j])),
    ensures
        headers_from(acc, rest)[key_index(headers_from(acc, rest), header_name(rest[j]))].1
            == header_value(rest[j]),
    decreases rest.len(),
{
    assert(rest[0] != crlf());
    let name = header_name(rest[j]);
    if j == 0 {
                let acc2 = upsert(acc, header_of(rest[0]).0, header_of(rest[0]).1);
        lemma_upsert_lookup(acc, header_of(rest[0]).0, header_of(rest[0]).1);
        assert forall|m: int| -1 < m && #[trigger] header_line_read(rest.drop_first(), m) && has_colon(
            rest.drop_first()[m],
        ) implies header_name(rest.drop_first()[m]) != name by {
            lemma_header_read_step(rest, m);
            assert(rest.drop_first()[m] == rest[m + 1]);
            if header_name(rest.drop_first()[m]) == name {
                assert(header_line_read(rest, m + 1));
                assert(header_named_later(rest, 0, name));
            }
        }
        lemma_headers_keep_value(acc2, rest.drop_first(), name);
    } else {
        lemma_header_read_step(rest, j - 1);
        assert(rest.drop_first()[j - 1] == rest[j]);
        assert forall|m: int| j - 1 < m && #[trigger] header_line_read(rest.drop_first(), m)
            && has_colon(rest.drop_first()[m]) implies header_name(rest.drop_first()[m])
            != name by {
            lemma_header_read_step(rest, m);
            assert(rest.drop_first()[m] == rest[m + 1]);
            if header_name(rest.drop_first()[m]) == name {
                assert(header_line_read(rest, m + 1));
                assert(header_named_later(rest, j, name));
            }
        }
        if has_colon(rest[0]) {
                        lemma_upsert_distinct(acc, header_of(rest[0]).0, header_of(rest[0]).1);
            lemma_headers_value(upsert(acc, header_of(rest[0]).0, header_of(rest[0]).1), rest.drop_first(), j - 1);
        } else {
            lemma_headers_value(acc, rest.drop_first(), j - 1);
        }
    }
}

/// Every line read for headers (the request line included, up to a line
/// that is `"\r\n"`) that holds a `:` gives a header under its name, and
/// the value under that name is the one of the last such line with the
/// same name.
pub proof fn lemma_request_header_lines(lines: Seq<Seq<char>>, j: int)
    requires
        header_line_read(lines, j),
        has_colon(lines[j]),
    ensures
        ({
            let headers = headers_from(Seq::empty(), lines);
            &&& distinct_keys(headers)
            &&& has_key(headers, header_name(lines[j]))
            &&& !header_named_later(lines, j, header_name(lines[j])) ==> headers[key_index(
                headers,
                header_name(lines[j]),
            )] == header_of(lines[j])
        }),
{
    let empty = Seq::<(Seq<char>, Seq<char>)>::empty();
    lemma_headers_distinct(empty, lines);
    lemma_headers_key(empty, lines, j);
    if !header_named_later(lines, j, header_name(lines[j])) {
        lemma_headers_value(empty, lines, j);
    }
}

/// Whether `lines` (the request line and header lines) can be read as a
/// request: there is a request line of at least two words whose first names
/// a method, and every header line can be cut.
pub open spec fn request_fits(lines: Seq<Seq<char>>) -> bool {
    &&& lines.len() > 0
    &&& words(lines[0]).len() >= 2
    &&& method_named(words(lines[0])[0]) is Some
    &&& header_cuts_fit(lines)
}

/// A request: method, target and headers (names unique).
pub struct HttpRequest {
    pub method: HttpMethod,
    pub target: HttpRequestTarget,
    pub headers: Vec<(String, String)>,
}

proof fn lemma_colon_index(line: Seq<char>, i: int)
    requires
        colon_at(line, i),
    ensures
        has_colon(line),
        colon_index(line) == i,
{
    assert(has_colon(line));
    let j = colon_index(line);
    assert(colon_at(line, j));
    if j < i {
        assert(line[j] != ':');
    }
    if i < j {
        assert(line[i] != ':');
    }
}

/// The UTF-8 encoding of two texts one after the other is the encoding of
/// the first followed by that of the second.
pub proof fn lemma_encode_concat(a: Seq<char>, b: Seq<char>)
    ensures
        encode_utf8(a + b) == encode_utf8(a) + encode_utf8(b),
    decreases a.len(),
{
    if a.len() == 0 {
        assert(a + b =~= b);
        assert(encode_utf8(a) + encode_utf8(b) =~= encode_utf8(b));
    } else {
        assert((a + b)[0] == a[0]);
        assert((a + b).drop_first() =~= a.drop_first() + b);
        lemma_encode_concat(a.drop_first(), b);
        assert(encode_utf8(a + b) =~= encode_utf8(a) + encode_utf8(b));
    }
}

/// ASCII text takes one byte per character in UTF-8.
pub proof fn lemma_ascii_encoding_length(s: Seq<char>)
    requires
        all_ascii(s),
    ensures
        encode_utf8(s).len() == s.len(),
    decreases s.len(),
{
    if s.len() > 0 {
        assert((s[0] as u32) < 128);
        assert(all_ascii(s.drop_first())) by {
            assert forall|k: int| 0 <= k < s.drop_first().len() implies (
            #[trigger] s.drop_first()[k] as u32) < 128 by {
                assert(s.drop_first()[k] == s[k + 1]);
            }
        }
        lemma_ascii_encoding_length(s.drop_first());
    }
}

/// A header line is cut at its first `:`. Where the text before that `:` is
/// ASCII, the header's name is that text in lower case, so it holds no `:`,
/// and its value is everything after the `:`.
pub proof fn lemma_header_at_first_colon(line: Seq<char>, i: int)
    requires
        colon_at(line, i),
        all_ascii(line.take(i)),
    ensures
        header_of(line).0 == line.take(i).map_values(|c: char| ascii_lower(c)),
        header_of(line).1 == line.skip(i + 1),
        forall|k: int| 0 <= k < header_of(line).0.len() ==> header_of(line).0[k] != ':',
{
    lemma_colon_index(line, i);
    let head = line.take(i);
    let colon = seq![line[i]];
    let tail = line.skip(i + 1);
    assert(line =~= head + (colon + tail));
    lemma_encode_concat(head, colon + tail);
    lemma_encode_concat(colon, tail);
    lemma_ascii_encoding_length(head);
    assert(all_ascii(colon));
    lemma_ascii_encoding_length(colon);
    let bytes = encode_utf8(line);
    assert(bytes =~= encode_utf8(head) + (encode_utf8(colon) + encode_utf8(tail)));
    assert(bytes.subrange(0, i) =~= encode_utf8(head));
    assert(bytes.subrange(i + 1, bytes.len() as int) =~= encode_utf8(tail));
    vstd::utf8::encode_utf8_decode_utf8(head);
    vstd::utf8::encode_utf8_decode_utf8(tail);
    assert(lower_text(head) == head.map_values(|c: char| ascii_lower(c)));
    assert forall|k: int| 0 <= k < header_of(line).0.len() implies header_of(line).0[k] != ':' by {
        assert(head[k] == line[k]);
        assert(line[k] != ':');
    }
}

/// The position of the first `:` of `line`, if it holds one.
fn find_colon(line: &Vec<char>) -> (r: Option<usize>)
    ensures
        r matches Some(i) ==> colon_at(line@, i as int),
        r is None ==> !has_colon(line@),
{
    let mut i: usize = 0;
    while i < line.len()
        invariant
            i <= line.len(),
            forall|k: int| 0 <= k < i ==> line@[k] != ':',
        decreases line.len() - i,
    {
        if line[i] == ':' {
            return Some(i);
        }
        i += 1;
    }
    None
}

/// Whether `line` is exactly `"\r\n"`.
fn is_crlf(line: &Vec<char>) -> (r: bool)
    ensures
        r == (line@ == crlf()),
{
    let v: Vec<char> = vec!['\r', '\n'];
    assert(v@ =~= crlf());
    same_chars(line, &v)
}

/// The header name and value of `line`, cut at the `:` at `i`.
fn cut_header(line: &String, i: usize) -> (r: (String, String))
    requires
        colon_at(line@, i as int),
        header_cut_fits(line@),
        i < usize::MAX,
    ensures
        (r.0@, r.1@) == header_of(line@),
{
    proof {
        lemma_colon_index(line@, i as int);
        vstd::utf8::encode_utf8_valid_utf8(line@);
    }
    let s = line.as_str();
    let (name, _) = s.split_at(i);
    let (_, value) = s.split_at(i + 1);
    proof {
        vstd::utf8::encode_utf8_decode_utf8(name@);
        vstd::utf8::encode_utf8_decode_utf8(value@);
    }
    (to_lowercase(name), value.to_owned())
}

/// Whether the line `line` can be cut for its header.
fn cut_fits(line: &String) -> (r: bool)
    ensures
        r == header_cut_fits(line@),
{
    let chars = chars_of(line.as_str());
    proof {
        vstd::utf8::encode_utf8_valid_utf8(line@);
    }
    match find_colon(&chars) {
        Some(i) => {
            proof {
                lemma_colon_index(line@, i as int);
            }
            assert(i < chars.len());
            let s = line.as_str();
            s.is_char_boundary(i) && s.is_char_boundary(i + 1)
        },
        None => true,
    }
}

impl HttpRequest {
    /// The request that the lines `lines` give: method and target from the
    /// words of the request line, and the headers of every line up to one
    /// that is `"\r\n"` (the request line included) that holds a `:`.
    pub fn from(lines: &Vec<String>) -> (r: HttpRequest)
        requires
            request_fits(lines.deep_view()),
        ensures
            Some(r.method) == method_named(words(lines.deep_view()[0])[0]),
            (r.target.path@, r.target.query@) == target_parts(words(lines.deep_view()[0])[1]),
            r.headers.deep_view() == headers_from(Seq::empty(), lines.deep_view()),
            distinct_keys(r.headers.deep_view()),
    {
        let request_line = chars_of(lines[0].as_str());
        let w = split_words(&request_line);
        assert(views(w@)[0] == w@[0]@);
        assert(views(w@)[1] == w@[1]@);
        let method = HttpMethod::from(string_from(&w[0]).as_str());
        let target = HttpRequestTarget::from(string_from(&w[1]).as_str());
        let mut headers: Vec<(String, String)> = Vec::new();
        assert(headers.deep_view() =~= Seq::<(Seq<char>, Seq<char>)>::empty());
        let ghost all = lines.deep_view();
        let mut i: usize = 0;
        assert(all.skip(0) =~= all);
        while i < lines.len()
            invariant
                i <= lines.len(),
                all == lines.deep_view(),
                header_cuts_fit(all.skip(i as int)),
                headers_from(headers.deep_view(), all.skip(i as int)) == headers_from(
                    Seq::empty(),
                    all,
                ),
                distinct_keys(headers.deep_view()),
            ensures
                i <= lines.len(),
                i == lines.len() || all.skip(i as int)[0] == crlf(),
                headers_from(headers.deep_view(), all.skip(i as int)) == headers_from(
                    Seq::empty(),
                    all,
                ),
                distinct_keys(headers.deep_view()),
            decreases lines.len() - i,
        {
            let line = chars_of(lines[i].as_str());
            assert(all.skip(i as int)[0] == lines@[i as int]@);
            assert(all.skip(i as int).drop_first() =~= all.skip(i + 1));
            if is_crlf(&line) {
                assert(headers_from(headers.deep_view(), all.skip(i as int))
                    == headers.deep_view());
                break;
            }
            match find_colon(&line) {
                Some(c) => {
                    let (name, value) = cut_header(&lines[i], c);
                    proof {
                        lemma_upsert_distinct(headers.deep_view(), name@, value@);
                    }
                    insert_entry(&mut headers, name, value);
                },
                None => {},
            }
            i += 1;
        }
        proof {
            if i == lines.len() {
                assert(all.skip(i as int) =~= Seq::<Seq<char>>::empty());
            }
        }
        assert(headers_from(headers.deep_view(), all.skip(i as int)) == headers.deep_view());
        HttpRequest { method, target, headers }
    }

    /// The request as a log line: the method's name, in bold where styles
    /// are written, a space and the path.
    pub fn describe(&self) -> (d: String)
        ensures
            d@ == method_label(self.method) + seq![' '] + self.target.path@ || d@ == bold_form(
                method_label(self.method),
            ) + seq![' '] + self.target.path@,
    {
        let name = self.method.label();
        proof {
            lemma_no_reset(name@);
        }
        let mut out = chars_of(bold(name.as_str()).as_str());
        out.push(' ');
        append(&mut out, &chars_of(self.target.path.as_str()));
        string_from(&out)
    }

    /// `from` where the lines can be read as a request, `None` otherwise.
    pub fn parse(lines: &Vec<String>) -> (r: Option<HttpRequest>)
        ensures
            r is Some <==> request_fits(lines.deep_view()),
            r matches Some(req) ==> {
                &&& Some(req.method) == method_named(words(lines.deep_view()[0])[0])
                &&& (req.target.path@, req.target.query@) == target_parts(
                    words(lines.deep_view()[0])[1],
                )
                &&& req.headers.deep_view() == headers_from(Seq::empty(), lines.deep_view())
            },
    {
        if lines.len() == 0 {
            return None;
        }
        let request_line = chars_of(lines[0].as_str());
        assert(lines.deep_view()[0] == lines@[0]@);
        let w = split_words(&request_line);
        if w.len() < 2 {
            return None;
        }
        assert(views(w@)[0] == w@[0]@);
        if HttpMethod::parse(string_from(&w[0]).as_str()).is_none() {
            return None;
        }
        let ghost all = lines.deep_view();
        let mut i: usize = 0;
        assert(all.skip(0) =~= all);
        while i < lines.len()
            invariant
                i <= lines.len(),
                all == lines.deep_view(),
                header_cuts_fit(all) == header_cuts_fit(all.skip(i as int)),
            ensures
                i <= lines.len(),
                i == lines.len() || all.skip(i as int)[0] == crlf(),
                header_cuts_fit(all) == header_cuts_fit(all.skip(i as int)),
            decreases lines.len() - i,
        {
            let line = chars_of(lines[i].as_str());
            assert(all.skip(i as int)[0] == lines@[i as int]@);
            assert(all.skip(i as int).drop_first() =~= all.skip(i + 1));
            if is_crlf(&line) {
                assert(header_cuts_fit(all.skip(i as int)));
                break;
            }
            if !cut_fits(&lines[i]) {
                return None;
            }
            i += 1;
        }
        proof {
            if i == lines.len() {
                assert(all.skip(i as int) =~= Seq::<Seq<char>>::empty());
            }
        }
        assert(header_cuts_fit(all.skip(i as int)));
        assert(words(lines.deep_view()[0]) == views(w@));
        Some(HttpRequest::from(lines))
    }
}

/// A routing table: handlers registered for a method and a path, in order,
/// and the port to serve on.
pub struct Server<H> {
    pub port: usize,
    pub handlers: Vec<(HttpMethod, String, H)>,
}

/// Whether the registered route `entry` serves `method` on `path`.
pub open spec fn route_matches<H>(
    entry: (HttpMethod, String, H),
    method: HttpMethod,
    path: Seq<char>,
) -> bool {
    entry.0 == method && entry.1@ == path
}

impl<H> Server<H> {
    /// A server for `port` with no routes.
    pub fn new(port: usize) -> (s: Server<H>)
        ensures
            s.port == port,
            s.handlers@.len() == 0,
    {
        Server { port, handlers: Vec::new() }
    }

    /// Registers `handler` for `method` on `path`, after the routes already
    /// registered.
    pub fn add(&mut self, method: HttpMethod, path: &str, handler: H)
        ensures
            final(self).port == old(self).port,
            final(self).handlers@.len() == old(self).handlers@.len() + 1,
            final(self).handlers@.take(old(self).handlers@.len() as int) == old(self).handlers@,
            final(self).handlers@.last().0 == method,
            final(self).handlers@.last().1@ == path@,
            final(self).handlers@.last().2 == handler,
    {
        let p = path.to_owned();
        self.handlers.push((method, p, handler));
        assert(self.handlers@.take(old(self).handlers@.len() as int) =~= old(self).handlers@);
    }

    /// The position of the first route that serves `method` on `path`: the
    /// handler that answers such a request.
    pub fn route(&self, method: HttpMethod, path: &str) -> (r: Option<usize>)
        ensures
            r matches Some(j) ==> j < self.handlers@.len() && route_matches(
                self.handlers@[j as int],
                method,
                path@,
            ) && forall|k: int| 0 <= k < j ==> !route_matches(self.handlers@[k], method, path@),
            r is None ==> forall|k: int|
                0 <= k < self.handlers@.len() ==> !route_matches(self.handlers@[k], method, path@),
    {
        let wanted = chars_of(path);
        let mut j: usize = 0;
        while j < self.handlers.len()
            invariant
                j <= self.handlers@.len(),
                wanted@ == path@,
                forall|k: int| 0 <= k < j ==> !route_matches(self.handlers@[k], method, path@),
            decreases self.handlers@.len() - j,
        {
            let entry = &self.handlers[j];
            if entry.0 == method {
                let p = chars_of(entry.1.as_str());
                if same_chars(&p, &wanted) {
                    return Some(j);
                }
            }
            j += 1;
        }
        None
    }
}

/// The status line of a response that carries the requested file.
pub const OK_STATUS_LINE: &'static str = "HTTP/1.1 200 OK";

/// The status line of a response that carries the not-found page.
pub const NOT_FOUND_STATUS_LINE: &'static str = "HTTP/1.1 404 NOT FOUND";

/// The response with status line `status_line` that carries `contents`: a
/// `Content-Length` header with the byte length of `contents` in UTF-8, an
/// empty line, and the contents.
pub open spec fn file_response_text(status_line: Seq<char>, contents: Seq<char>) -> Seq<char> {
    status_line + seq!['\r', '\n'] + "Content-Length: "@ + decimal(
        (encode_utf8(contents).len() as usize) as nat,
    ) + seq!['\r', '\n', '\r', '\n'] + contents
}

/// A file response is the status line, a `Content-Length` header whose
/// decimal digits write the number of bytes of the contents in UTF-8, an
/// empty line and the contents.
pub proof fn lemma_file_response(status_line: Seq<char>, contents: Seq<char>)
    requires
        encode_utf8(contents).len() <= usize::MAX,
    ensures
        ({
            let r = file_response_text(status_line, contents);
            let head = status_line + seq!['\r', '\n'] + "Content-Length: "@;
            let tail = seq!['\r', '\n', '\r', '\n'] + contents;
            let length = r.subrange(head.len() as int, r.len() - tail.len());
            &&& r.take(head.len() as int) == head
            &&& r.skip(r.len() - tail.len()) == tail
            &&& digits_value(length) == encode_utf8(contents).len()
            &&& forall|i: int| 0 <= i < length.len() ==> 48 <= (#[trigger] length[i] as u32) <= 57
        }),
{
    let n = encode_utf8(contents).len();
    lemma_decimal(n);
    let r = file_response_text(status_line, contents);
    let head = status_line + seq!['\r', '\n'] + "Content-Length: "@;
    let tail = seq!['\r', '\n', '\r', '\n'] + contents;
    assert((n as usize) as nat == n);
    assert(r =~= head + decimal(n) + tail);
    assert(r.take(head.len() as int) =~= head);
    assert(r.skip(r.len() - tail.len()) =~= tail);
    assert(r.subrange(head.len() as int, r.len() - tail.len()) =~= decimal(n));
}

/// The response with status line `status_line` that carries `contents`.
pub fn file_response(status_line: &str, contents: &str) -> (r: String)
    ensures
        r@ == file_response_text(status_line@, contents@),
{
    let mut out = chars_of(status_line);
    out.push('\r');
    out.push('\n');
    append(&mut out, &chars_of("Content-Length: "));
    let length: usize = contents.len();
    append(&mut out, &decimal_chars(length as u64));
    out.push('\r');
    out.push('\n');
    out.push('\r');
    out.push('\n');
    append(&mut out, &chars_of(contents));
    assert(out@ =~= file_response_text(status_line@, contents@));
    string_from(&out)
}

} // verus!
