//! The routing and request reading of the monitoring service, and the
//! mapping of other paths to files under `./web`.
use vstd::prelude::*;

use crate::entries::{
    distinct_keys, has_key, insert_entry, insert_named, key_index, lemma_upsert_distinct,
    lemma_upsert_has_key, lemma_upsert_lookup, named, upsert,
};
use crate::monitor_server::request::Request;
use crate::text::{
    append, chars_of, decimal, decimal_chars, lines, occurs_at, same_chars, slice_chars,
    split_char, split_lines, split_on, string_from, trim_end, trim_end_chars, views,
};

verus! {

/// A server: where it listens and the handler of each route (routes
/// unique).
pub struct Server<H> {
    pub port: u16,
    pub host: String,
    pub routes: Vec<(String, H)>,
}

/// The lines of a request text, after trailing white space is removed.
pub open spec fn request_lines(text: Seq<char>) -> Seq<Seq<char>> {
    lines(trim_end(text))
}

/// The space-separated parts of the request line.
pub open spec fn request_line_parts(text: Seq<char>) -> Seq<Seq<char>> {
    split_on(request_lines(text)[0], ' ')
}

/// Whether `text` can be read as a request: its first line is not empty and
/// holds a non-empty method and, after the first space, a non-empty path.
pub open spec fn request_text_fits(text: Seq<char>) -> bool {
    &&& request_lines(text).len() > 0
    &&& request_lines(text)[0].len() > 0
    &&& request_line_parts(text).len() >= 2
    &&& request_line_parts(text)[0].len() > 0
    &&& request_line_parts(text)[1].len() > 0
}

/// The separator between a header name and its value.
pub open spec fn field_separator() -> Seq<char> {
    seq![':', ' ']
}

/// The first separator of `line` is at `i`.
pub open spec fn separator_at(line: Seq<char>, i: int) -> bool {
    occurs_at(line, field_separator(), i) && forall|k: int|
        0 <= k < i ==> !occurs_at(line, field_separator(), k)
}

/// Whether `line` holds the separator.
pub open spec fn has_separator(line: Seq<char>) -> bool {
    exists|i: int| occurs_at(line, field_separator(), i)
}

/// The position of the first separator of `line`.
pub open spec fn separator_index(line: Seq<char>) -> int {
    choose|i: int| separator_at(line, i)
}

/// The headers `acc` extended with those of the lines `rest`, read up to an
/// empty line: the text before and after the first `": "` of each line
/// that holds one; a later header replaces an earlier one with the same
/// name.
pub open spec fn fields_from(acc: Seq<(Seq<char>, Seq<char>)>, rest: Seq<Seq<char>>) -> Seq<
    (Seq<char>, Seq<char>),
>
    decreases rest.len(),
{
    if rest.len() == 0 || rest[0].len() == 0 {
        acc
    } else if has_separator(rest[0]) {
        let i = separator_index(rest[0]);
        fields_from(upsert(acc, rest[0].take(i), rest[0].skip(i + 2)), rest.drop_first())
    } else {
        fields_from(acc, rest.drop_first())
    }
}

/// The headers of the request text `text`.
pub open spec fn request_headers(text: Seq<char>) -> Seq<(Seq<char>, Seq<char>)> {
    fields_from(Seq::empty(), request_lines(text).drop_first())
}

/// The name of the header that `line` gives: the text before its first
/// `": "`.
pub open spec fn field_name(line: Seq<char>) -> Seq<char> {
    line.take(separator_index(line))
}

/// The value of the header that `line` gives: the text after its first
/// `": "`.
pub open spec fn field_value(line: Seq<char>) -> Seq<char> {
    line.skip(separator_index(line) + 2)
}

/// Whether line `m` of `rest` is read for headers: it and every line before
/// it are not empty.
pub open spec fn read_line(rest: Seq<Seq<char>>, m: int) -> bool {
    0 <= m < rest.len() && forall|l: int| 0 <= l <= m ==> #[trigger] rest[l].len() > 0
}

/// Whether a line of `rest` read for headers after line `j` gives a header
/// named `name`.
pub open spec fn named_later(rest: Seq<Seq<char>>, j: int, name: Seq<char>) -> bool {
    exists|m: int|
        j < m && #[trigger] read_line(rest, m) && has_separator(rest[m]) && field_name(rest[m])
            == name
}

proof fn lemma_fields_keep_key(
    acc: Seq<(Seq<char>, Seq<char>)>,
    rest: Seq<Seq<char>>,
    name: Seq<char>,
)
    requires
        has_key(acc, name),
    ensures
        has_key(fields_from(acc, rest), name),
    decreases rest.len(),
{
    if rest.len() == 0 || rest[0].len() == 0 {
    } else if has_separator(rest[0]) {
        let i = separator_index(rest[0]);
        lemma_upsert_has_key(acc, rest[0].take(i), rest[0].skip(i + 2), name);
        lemma_fields_keep_key(upsert(acc, rest[0].take(i), rest[0].skip(i + 2)), rest.drop_first(), name);
    } else {
        lemma_fields_keep_key(acc, rest.drop_first(), name);
    }
}

proof fn lemma_read_line_step(rest: Seq<Seq<char>>, m: int)
    requires
        m >= 0,
        rest.len() > 0,
        rest[0].len() > 0,
    ensures
        read_line(rest, m + 1) <==> read_line(rest.drop_first(), m),
{
    if read_line(rest, m + 1) {
        assert forall|l: int| 0 <= l <= m implies #[trigger] rest.drop_first()[l].len() > 0 by {
            assert(rest.drop_first()[l] == rest[l + 1]);
            assert(rest[l + 1].len() > 0);
        }
    }
    if read_line(rest.drop_first(), m) {
        assert forall|l: int| 0 <= l <= m + 1 implies #[trigger] rest[l].len() > 0 by {
            if l > 0 {
                assert(rest[l] == rest.drop_first()[l - 1]);
                assert(rest.drop_first()[l - 1].len() > 0);
            }
        }
    }
}

proof fn lemma_fields_distinct(acc: Seq<(Seq<char>, Seq<char>)>, rest: Seq<Seq<char>>)
    requires
        distinct_keys(acc),
    ensures
        distinct_keys(fields_from(acc, rest)),
    decreases rest.len(),
{
    if rest.len() == 0 || rest[0].len() == 0 {
    } else if has_separator(rest[0]) {
        let i = separator_index(rest[0]);
        lemma_upsert_distinct(acc, rest[0].take(i), rest[0].skip(i + 2));
        lemma_fields_distinct(upsert(acc, rest[0].take(i), rest[0].skip(i + 2)), rest.drop_first());
    } else {
        lemma_fields_distinct(acc, rest.drop_first());
    }
}

proof fn lemma_fields_key(acc: Seq<(Seq<char>, Seq<char>)>, rest: Seq<Seq<char>>, j: int)
    requires
        read_line(rest, j),
        has_separator(rest[j]),
    ensures
        has_key(fields_from(acc, rest), field_name(rest[j])),
    decreases rest.len(),
{
    assert(rest[0].len() > 0);
    if j == 0 {
        let i = separator_index(rest[0]);
        lemma_upsert_has_key(acc, rest[0].take(i), rest[0].skip(i + 2), field_name(rest[0]));
        lemma_fields_keep_key(
            upsert(acc, rest[0].take(i), rest[0].skip(i + 2)),
            rest.drop_first(),
            field_name(rest[0]),
        );
    } else {
        lemma_read_line_step(rest, j - 1);
        assert(rest.drop_first()[j - 1] == rest[j]);
        if has_separator(rest[0]) {
            let i = separator_index(rest[0]);
            lemma_fields_key(upsert(acc, rest[0].take(i), rest[0].skip(i + 2)), rest.drop_first(), j - 1);
        } else {
            lemma_fields_key(acc, rest.drop_first(), j - 1);
        }
    }
}

proof fn lemma_fields_keep_value(
    acc: Seq<(Seq<char>, Seq<char>)>,
    rest: Seq<Seq<char>>,
    name: Seq<char>,
)
    requires
        distinct_keys(acc),
        has_key(acc, name),
        !named_later(rest, -1, name),
    ensures
        has_key(fields_from(acc, rest), name),
        fields_from(acc, rest)[key_index(fields_from(acc, rest), name)].1 == acc[key_index(
            acc,
            name,
        )].1,
    decreases rest.len(),
{
    lemma_fields_keep_key(acc, rest, name);
    if rest.len() == 0 || rest[0].len() == 0 {
    } else {
        assert forall|m: int| -1 < m && #[trigger] read_line(rest.drop_first(), m) && has_separator(
            rest.drop_first()[m],
        ) implies field_name(rest.drop_first()[m]) != name by {
            lemma_read_line_step(rest, m);
            assert(rest.drop_first()[m] == rest[m + 1]);
            if field_name(rest.drop_first()[m]) == name {
                assert(read_line(rest, m + 1));
                assert(named_later(rest, -1, name));
            }
        }
        if has_separator(rest[0]) {
            let i = separator_index(rest[0]);
            assert(read_line(rest, 0));
            assert(field_name(rest[0]) != name);
            lemma_upsert_lookup(acc, rest[0].take(i), rest[0].skip(i + 2));
            lemma_fields_keep_value(upsert(acc, rest[0].take(i), rest[0].skip(i + 2)), rest.drop_first(), name);
        } else {
            lemma_fields_keep_value(acc, rest.drop_first(), name);
        }
    }
}

proof fn lemma_fields_value(acc: Seq<(Seq<char>, Seq<char>)>, rest: Seq<Seq<char>>, j: int)
    requires
        distinct_keys(acc),
        read_line(rest, j),
        has_separator(rest[j]),
        !named_later(rest, j, field_name(rest[j])),
    ensures
        fields_from(acc, rest)[key_index(fields_from(acc, rest), field_name(rest[j]))].1
            == field_value(rest[j]),
    decreases rest.len(),
{
    assert(rest[0].len() > 0);
    let name = field_name(rest[j]);
    if j == 0 {
        let i = separator_index(rest[0]);
        let acc2 = upsert(acc, rest[0].take(i), rest[0].skip(i + 2));
        lemma_upsert_lookup(acc, rest[0].take(i), rest[0].skip(i + 2));
        assert forall|m: int| -1 < m && #[trigger] read_line(rest.drop_first(), m) && has_separator(
            rest.drop_first()[m],
        ) implies field_name(rest.drop_first()[m]) != name by {
            lemma_read_line_step(rest, m);
            assert(rest.drop_first()[m] == rest[m + 1]);
            if field_name(rest.drop_first()[m]) == name {
                assert(read_line(rest, m + 1));
                assert(named_later(rest, 0, name));
            }
        }
        lemma_fields_keep_value(acc2, rest.drop_first(), name);
    } else {
        lemma_read_line_step(rest, j - 1);
        assert(rest.drop_first()[j - 1] == rest[j]);
        assert forall|m: int| j - 1 < m && #[trigger] read_line(rest.drop_first(), m)
            && has_separator(rest.drop_first()[m]) implies field_name(rest.drop_first()[m])
            != name by {
            lemma_read_line_step(rest, m);
            assert(rest.drop_first()[m] == rest[m + 1]);
            if field_name(rest.drop_first()[m]) == name {
                assert(read_line(rest, m + 1));
                assert(named_later(rest, j, name));
            }
        }
        if has_separator(rest[0]) {
            let i = separator_index(rest[0]);
            lemma_upsert_distinct(acc, rest[0].take(i), rest[0].skip(i + 2));
            lemma_fields_value(upsert(acc, rest[0].take(i), rest[0].skip(i + 2)), rest.drop_first(), j - 1);
        } else {
            lemma_fields_value(acc, rest.drop_first(), j - 1);
        }
    }
}

/// Every line of a request text after the request line and before the first
/// empty line that holds `": "` gives a header: its name is the text before
/// the line's first `": "`, and the value under that name is the text after
/// it on the last such line with the same name.
pub proof fn lemma_request_headers(text: Seq<char>, j: int)
    requires
        read_line(request_lines(text).drop_first(), j),
        has_separator(request_lines(text).drop_first()[j]),
    ensures
        ({
            let rest = request_lines(text).drop_first();
            let headers = request_headers(text);
            &&& distinct_keys(headers)
            &&& has_key(headers, field_name(rest[j]))
            &&& !named_later(rest, j, field_name(rest[j])) ==> headers[key_index(
                headers,
                field_name(rest[j]),
            )] == (field_name(rest[j]), field_value(rest[j]))
        }),
{
    let rest = request_lines(text).drop_first();
    let empty = Seq::<(Seq<char>, Seq<char>)>::empty();
    lemma_fields_distinct(empty, rest);
    lemma_fields_key(empty, rest, j);
    if !named_later(rest, j, field_name(rest[j])) {
        lemma_fields_value(empty, rest, j);
    }
}

/// The address `host:port`.
pub open spec fn address_text(host: Seq<char>, port: u16) -> Seq<char> {
    host + seq![':'] + decimal(port as nat)
}

/// Whether `path` is absolute (on Unix: it starts at the root `/`).
pub open spec fn absolute(path: Seq<char>) -> bool {
    path.len() > 0 && path[0] == '/'
}

/// The file under `./web` that serves `path`; a path ending in `/` is served
/// by its `index.html`.
pub open spec fn web_file(path: Seq<char>) -> Seq<char> {
    let base = seq!['.', '/', 'w', 'e', 'b'] + path;
    if base.last() == '/' {
        base + seq!['i', 'n', 'd', 'e', 'x', '.', 'h', 't', 'm', 'l']
    } else {
        base
    }
}

/// The file that serves a path is `./web` followed by the path, with
/// `index.html` appended exactly when the path ends with `/`.
pub proof fn lemma_web_file(path: Seq<char>)
    ensures
        web_file(path).take(path.len() + 5int) == seq!['.', '/', 'w', 'e', 'b'] + path,
        !(path.len() > 0 && path.last() == '/') ==> web_file(path) == seq![
            '.',
            '/',
            'w',
            'e',
            'b',
        ] + path,
        path.len() > 0 && path.last() == '/' ==> web_file(path) == seq![
            '.',
            '/',
            'w',
            'e',
            'b',
        ] + path + seq!['i', 'n', 'd', 'e', 'x', '.', 'h', 't', 'm', 'l'],
{
    let base = seq!['.', '/', 'w', 'e', 'b'] + path;
    assert(base.take(path.len() + 5int) =~= base);
    if path.len() > 0 {
        assert(base.last() == path.last());
    } else {
        assert(base.last() == 'b');
    }
    assert((base + seq!['i', 'n', 'd', 'e', 'x', '.', 'h', 't', 'm', 'l']).take(path.len() + 5int)
        =~= base);
}

/// The media type served for a file with extension `ext`, if it is known.
pub open spec fn media_type(ext: Seq<char>) -> Option<Seq<char>> {
    if ext == seq!['h', 't', 'm', 'l'] {
        Some(seq!['t', 'e', 'x', 't', '/', 'h', 't', 'm', 'l'])
    } else if ext == seq!['c', 's', 's'] {
        Some(seq!['t', 'e', 'x', 't', '/', 'c', 's', 's'])
    } else if ext == seq!['j', 's'] {
        Some(seq!['t', 'e', 'x', 't', '/', 'j', 'a', 'v', 'a', 's', 'c', 'r', 'i', 'p', 't'])
    } else {
        None
    }
}

proof fn lemma_separator_index(line: Seq<char>, i: int)
    requires
        separator_at(line, i),
    ensures
        has_separator(line),
        separator_index(line) == i,
{
    assert(has_separator(line));
    let j = separator_index(line);
    assert(separator_at(line, j));
}

/// The position of the first `": "` of `line`, if it holds one.
fn find_separator(line: &Vec<char>) -> (r: Option<usize>)
    ensures
        r matches Some(i) ==> separator_at(line@, i as int),
        r is None ==> !has_separator(line@),
{
    let mut i: usize = 0;
    while i < line.len() && i + 1 < line.len()
        invariant
            forall|k: int| 0 <= k < i ==> !occurs_at(line@, field_separator(), k),
        decreases line.len() - i,
    {
        if line[i] == ':' && line[i + 1] == ' ' {
            assert(line@.subrange(i as int, i + 2) =~= field_separator());
            return Some(i);
        }
        assert(line@.subrange(i as int, i + 2) != field_separator()) by {
            assert(line@.subrange(i as int, i + 2)[0] == line@[i as int]);
            assert(line@.subrange(i as int, i + 2)[1] == line@[i + 1]);
        }
        i += 1;
    }
    assert forall|k: int| !occurs_at(line@, field_separator(), k) by {
        if 0 <= k < i {
        } else if occurs_at(line@, field_separator(), k) {
            assert(k + 2 <= line@.len());
        }
    }
    None
}

/// What the server does with a request for a path.
pub enum Action {
    /// Answer with the handler of the route at position `route`.
    Handle { route: usize },
    /// Refuse the request: its path is neither a route nor absolute.
    RefuseRelative,
    /// Answer with the contents of the file `file`.
    ServeFile { file: String },
}

impl<H> Server<H> {
    /// Routes are unique.
    pub open spec fn well_formed(&self) -> bool {
        distinct_keys(named(self.routes@))
    }

    /// A server on `127.0.0.1` at `port` with no routes.
    pub fn new(port: u16) -> (s: Server<H>)
        ensures
            s.well_formed(),
            s.port == port,
            s.host@ == seq!['1', '2', '7', '.', '0', '.', '0', '.', '1'],
            s.routes@.len() == 0,
    {
        let host = vec!['1', '2', '7', '.', '0', '.', '0', '.', '1'];
        assert(host@ =~= seq!['1', '2', '7', '.', '0', '.', '0', '.', '1']);
        Server { port, host: string_from(&host), routes: Vec::new() }
    }

    /// Serves `route` with `handler`, replacing an earlier handler of the
    /// route.
    pub fn route(&mut self, route: &str, handler: H)
        requires
            old(self).well_formed(),
        ensures
            named(final(self).routes@) == upsert(named(old(self).routes@), route@, handler),
            final(self).well_formed(),
            final(self).port == old(self).port,
            final(self).host == old(self).host,
    {
        insert_named(&mut self.routes, route.to_owned(), handler);
    }

    /// The position of the handler of `path`, if the path is a route.
    pub fn handler_for(&self, path: &str) -> (r: Option<usize>)
        ensures
            r matches Some(j) ==> j < self.routes@.len() && self.routes@[j as int].0@ == path@
                && forall|k: int| 0 <= k < j ==> self.routes@[k].0@ != path@,
            r is None ==> !has_key(named(self.routes@), path@),
    {
        let wanted = chars_of(path);
        let mut j: usize = 0;
        while j < self.routes.len()
            invariant
                j <= self.routes@.len(),
                wanted@ == path@,
                forall|k: int| 0 <= k < j ==> self.routes@[k].0@ != path@,
            decreases self.routes@.len() - j,
        {
            let key = chars_of(self.routes[j].0.as_str());
            if same_chars(&key, &wanted) {
                return Some(j);
            }
            j += 1;
        }
        assert forall|k: int| 0 <= k < self.routes@.len() implies #[trigger] named(
            self.routes@,
        )[k].0 != path@ by {}
        None
    }

    /// What to do with a request for `path`: call the handler of its route;
    /// otherwise refuse a relative path and serve an absolute one from its
    /// file under `./web`.
    pub fn plan(&self, path: &str) -> (a: Action)
        ensures
            a is Handle <==> has_key(named(self.routes@), path@),
            a matches Action::Handle { route } ==> route < self.routes@.len()
                && self.routes@[route as int].0@ == path@,
            a is RefuseRelative <==> !has_key(named(self.routes@), path@) && !absolute(path@),
            a is ServeFile <==> !has_key(named(self.routes@), path@) && absolute(path@),
            a matches Action::ServeFile { file } ==> file@ == web_file(path@),
    {
        match self.handler_for(path) {
            Some(j) => {
                assert(named(self.routes@)[j as int].0 == path@);
                Action::Handle { route: j }
            },
            None => {
                if is_absolute(path) {
                    Action::ServeFile { file: web_file_path(path) }
                } else {
                    Action::RefuseRelative
                }
            },
        }
    }

    /// The address the server listens on: `host:port`.
    pub fn address(&self) -> (a: String)
        ensures
            a@ == address_text(self.host@, self.port),
    {
        let mut out = chars_of(self.host.as_str());
        out.push(':');
        append(&mut out, &decimal_chars(self.port as u64));
        assert(out@ =~= address_text(self.host@, self.port));
        string_from(&out)
    }

    /// The request that the text `text` holds: method and path from the
    /// request line, headers from the following lines up to an empty one.
    pub fn to_request(&self, text: &str) -> (r: Request)
        requires
            request_text_fits(text@),
        ensures
            r.method@ == request_line_parts(text@)[0],
            r.path@ == request_line_parts(text@)[1],
            r.headers.deep_view() == request_headers(text@),
            distinct_keys(r.headers.deep_view()),
    {
        let chars = chars_of(text);
        let trimmed = trim_end_chars(&chars);
        let ls = split_lines(&trimmed);
        assert(ls@[0]@ == request_lines(text@)[0]);
        let parts = split_char(&ls[0], ' ');
        assert(parts@[0]@ == request_line_parts(text@)[0]);
        assert(parts@[1]@ == request_line_parts(text@)[1]);
        let method = string_from(&parts[0]);
        let path = string_from(&parts[1]);
        let ghost rest = request_lines(text@).drop_first();
        let mut headers: Vec<(String, String)> = Vec::new();
        assert(headers.deep_view() =~= Seq::<(Seq<char>, Seq<char>)>::empty());
        let mut i: usize = 1;
        assert(rest.skip(0) =~= rest);
        while i < ls.len()
            invariant
                1 <= i <= ls.len(),
                views(ls@) == request_lines(text@),
                rest == request_lines(text@).drop_first(),
                fields_from(headers.deep_view(), rest.skip(i - 1)) == request_headers(text@),
                distinct_keys(headers.deep_view()),
            ensures
                fields_from(headers.deep_view(), rest.skip(i - 1)) == request_headers(text@),
                distinct_keys(headers.deep_view()),
                i == ls.len() || rest.skip(i - 1)[0].len() == 0,
            decreases ls.len() - i,
        {
            assert(rest.skip(i - 1)[0] == ls@[i as int]@);
            assert(rest.skip(i - 1).drop_first() =~= rest.skip(i as int));
            if ls[i].len() == 0 {
                break;
            }
            match find_separator(&ls[i]) {
                Some(p) => {
                    proof {
                        lemma_separator_index(ls@[i as int]@, p as int);
                    }
                    let name = string_from(&slice_chars(&ls[i], 0, p));
                    let value = string_from(&slice_chars(&ls[i], p + 2, ls[i].len()));
                    assert(name@ =~= ls@[i as int]@.take(p as int));
                    assert(value@ =~= ls@[i as int]@.skip(p + 2));
                    proof {
                        lemma_upsert_distinct(headers.deep_view(), name@, value@);
                    }
                    insert_entry(&mut headers, name, value);
                },
                None => {},
            }
            i += 1;
        }
        proof {
            if i == ls.len() {
                assert(rest.skip(i - 1) =~= Seq::<Seq<char>>::empty());
            }
        }
        Request { path, method, headers }
    }

    /// `to_request` where `text` can be read as a request, `None` otherwise.
    pub fn try_to_request(&self, text: &str) -> (r: Option<Request>)
        ensures
            r is Some <==> request_text_fits(text@),
            r matches Some(req) ==> {
                &&& req.method@ == request_line_parts(text@)[0]
                &&& req.path@ == request_line_parts(text@)[1]
                &&& req.headers.deep_view() == request_headers(text@)
            },
    {
        if request_text_is_readable(text) {
            Some(self.to_request(text))
        } else {
            None
        }
    }
}

/// Whether `text` can be read as a request.
pub fn request_text_is_readable(text: &str) -> (ok: bool)
    ensures
        ok == request_text_fits(text@),
{
    let chars = chars_of(text);
    let trimmed = trim_end_chars(&chars);
    let ls = split_lines(&trimmed);
    if ls.len() == 0 {
        return false;
    }
    assert(ls@[0]@ == request_lines(text@)[0]);
    if ls[0].len() == 0 {
        return false;
    }
    let parts = split_char(&ls[0], ' ');
    assert(parts.len() == request_line_parts(text@).len());
    if parts.len() < 2 {
        return false;
    }
    assert(parts@[0]@ == request_line_parts(text@)[0]);
    assert(parts@[1]@ == request_line_parts(text@)[1]);
    parts[0].len() > 0 && parts[1].len() > 0
}

/// Whether `path` is absolute.
pub fn is_absolute(path: &str) -> (r: bool)
    ensures
        r == absolute(path@),
{
    let chars = chars_of(path);
    chars.len() > 0 && chars[0] == '/'
}

/// The file under `./web` that serves the absolute path `path`.
pub fn web_file_path(path: &str) -> (r: String)
    requires
        absolute(path@),
    ensures
        r@ == web_file(path@),
{
    let mut out: Vec<char> = vec!['.', '/', 'w', 'e', 'b'];
    assert(out@ =~= seq!['.', '/', 'w', 'e', 'b']);
    append(&mut out, &chars_of(path));
    if out[out.len() - 1] == '/' {
        let index: Vec<char> = vec!['i', 'n', 'd', 'e', 'x', '.', 'h', 't', 'm', 'l'];
        assert(index@ =~= seq!['i', 'n', 'd', 'e', 'x', '.', 'h', 't', 'm', 'l']);
        append(&mut out, &index);
    }
    string_from(&out)
}

/// The media type served for files with extension `ext`, if it is known.
pub fn mime_type(ext: &str) -> (r: Option<String>)
    ensures
        r.deep_view() == media_type(ext@),
{
    let e = chars_of(ext);
    let html: Vec<char> = vec!['h', 't', 'm', 'l'];
    let css: Vec<char> = vec!['c', 's', 's'];
    let js: Vec<char> = vec!['j', 's'];
    assert(html@ =~= seq!['h', 't', 'm', 'l']);
    assert(css@ =~= seq!['c', 's', 's']);
    assert(js@ =~= seq!['j', 's']);
    if same_chars(&e, &html) {
        let t: Vec<char> = vec!['t', 'e', 'x', 't', '/', 'h', 't', 'm', 'l'];
        assert(t@ =~= seq!['t', 'e', 'x', 't', '/', 'h', 't', 'm', 'l']);
        Some(string_from(&t))
    } else if same_chars(&e, &css) {
        let t: Vec<char> = vec!['t', 'e', 'x', 't', '/', 'c', 's', 's'];
        assert(t@ =~= seq!['t', 'e', 'x', 't', '/', 'c', 's', 's']);
        Some(string_from(&t))
    } else if same_chars(&e, &js) {
        let t: Vec<char> = vec![
            't',
            'e',
            'x',
            't',
            '/',
            'j',
            'a',
            'v',
            'a',
            's',
            'c',
            'r',
            'i',
            'p',
            't',
        ];
        assert(t@ =~= seq![
            't',
            'e',
            'x',
            't',
            '/',
            'j',
            'a',
            'v',
            'a',
            's',
            'c',
            'r',
            'i',
            'p',
            't',
        ]);
        Some(string_from(&t))
    } else {
        None
    }
}

} // verus!
