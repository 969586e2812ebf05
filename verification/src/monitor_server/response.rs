//! Responses of the monitoring service: built up by a handler, then written
//! as one HTTP message.
use vstd::prelude::*;

use crate::entries::{distinct_keys, insert_entry, lemma_upsert_distinct, upsert};
use crate::text::{
    append, chars_of, contains, decimal, decimal_chars, digits_value, join, join_with,
    lemma_decimal, lemma_join_contains, string_from, views,
};

verus! {

/// A response under construction. Header names are unique; setting a
/// header again replaces its value.
#[derive(Debug)]
pub struct Response {
    pub headers: Vec<(String, String)>,
    pub body: String,
    pub http_status: u16,
    pub http_version: String,
    pub http_reason: String,
}

/// The line break of HTTP messages.
pub open spec fn crln() -> Seq<char> {
    seq!['\r', '\n']
}

/// The status line: version, status code and reason, separated by spaces.
pub open spec fn status_line(version: Seq<char>, status: u16, reason: Seq<char>) -> Seq<char> {
    version + seq![' '] + decimal(status as nat) + seq![' '] + reason
}

/// A header line `name: value`.
pub open spec fn header_line(header: (Seq<char>, Seq<char>)) -> Seq<char> {
    header.0 + seq![':', ' '] + header.1
}

/// The header lines of `headers`, in order.
pub open spec fn header_lines(headers: Seq<(Seq<char>, Seq<char>)>) -> Seq<Seq<char>> {
    headers.map_values(|h: (Seq<char>, Seq<char>)| header_line(h))
}

/// The HTTP message of a response: the status line, the header lines, an
/// empty line, then the body.
pub open spec fn message_text(
    version: Seq<char>,
    status: u16,
    reason: Seq<char>,
    headers: Seq<(Seq<char>, Seq<char>)>,
    body: Seq<char>,
) -> Seq<char> {
    status_line(version, status, reason) + crln() + join(header_lines(headers), crln()) + crln()
        + crln() + body
}

/// The HTTP message starts with the version, a space, the decimal digits of
/// the status, a space, the reason and a line break; it ends with an empty
/// line and the body; and every header appears in it as a line
/// `name: value`.
pub proof fn lemma_message_text(
    version: Seq<char>,
    status: u16,
    reason: Seq<char>,
    headers: Seq<(Seq<char>, Seq<char>)>,
    body: Seq<char>,
)
    ensures
        ({
            let m = message_text(version, status, reason, headers, body);
            let digits = decimal(status as nat);
            let head = version + seq![' '] + digits + seq![' '] + reason + crln();
            let tail = crln() + crln() + body;
            &&& m.take(head.len() as int) == head
            &&& digits_value(digits) == status
            &&& m.skip(m.len() - tail.len()) == tail
            &&& forall|k: int|
                0 <= k < headers.len() ==> contains(
                    m,
                    (#[trigger] headers[k]).0 + seq![':', ' '] + headers[k].1,
                )
        }),
{
    let m = message_text(version, status, reason, headers, body);
    lemma_decimal(status as nat);
    let head = version + seq![' '] + decimal(status as nat) + seq![' '] + reason + crln();
    let middle = join(header_lines(headers), crln());
    let tail = crln() + crln() + body;
    assert(m =~= head + middle + tail);
    assert(m.take(head.len() as int) =~= head);
    assert(m.skip(m.len() - tail.len()) =~= tail);
    assert forall|k: int| 0 <= k < headers.len() implies contains(
        m,
        (#[trigger] headers[k]).0 + seq![':', ' '] + headers[k].1,
    ) by {
        let line = headers[k].0 + seq![':', ' '] + headers[k].1;
        assert(header_lines(headers)[k] == line);
        lemma_join_contains(header_lines(headers), crln(), k);
        let i = choose|i: int| crate::text::occurs_at(middle, line, i);
        let p: int = head.len() + i;
        assert(m.subrange(p, p + line.len()) =~= middle.subrange(i, i + line.len()));
        assert(crate::text::occurs_at(m, line, p));
    }
}

impl Response {
    /// Header names are unique.
    pub open spec fn well_formed(&self) -> bool {
        distinct_keys(self.headers.deep_view())
    }

    /// An empty `HTTP/1.1` response: no headers, no body, status 0 (none yet)
    /// and an empty reason.
    pub fn new() -> (r: Response)
        ensures
            r.well_formed(),
            r.headers.deep_view().len() == 0,
            r.body@.len() == 0,
            r.http_status == 0,
            r.http_version@ == seq!['H', 'T', 'T', 'P', '/', '1', '.', '1'],
            r.http_reason@.len() == 0,
    {
        let version = vec!['H', 'T', 'T', 'P', '/', '1', '.', '1'];
        assert(version@ =~= seq!['H', 'T', 'T', 'P', '/', '1', '.', '1']);
        Response {
            headers: Vec::new(),
            body: String::new(),
            http_status: 0,
            http_version: string_from(&version),
            http_reason: String::new(),
        }
    }

    /// Sets the header `key` to `value`.
    pub fn header(&mut self, key: &str, value: &str) -> (r: &mut Self)
        requires
            old(self).well_formed(),
        ensures
            r.headers.deep_view() == upsert(old(self).headers.deep_view(), key@, value@),
            r.well_formed(),
            r.body == old(self).body,
            r.http_status == old(self).http_status,
            r.http_version == old(self).http_version,
            r.http_reason == old(self).http_reason,
            *final(self) == *final(r),
    {
        proof {
            lemma_upsert_distinct(self.headers.deep_view(), key@, value@);
        }
        insert_entry(&mut self.headers, key.to_owned(), value.to_owned());
        self
    }

    /// Sets the status code.
    pub fn status(&mut self, status: u16) -> (r: &mut Self)
        ensures
            r.http_status == status,
            r.headers == old(self).headers,
            r.body == old(self).body,
            r.http_version == old(self).http_version,
            r.http_reason == old(self).http_reason,
            *final(self) == *final(r),
    {
        self.http_status = status;
        self
    }

    /// Sets the body; a response without a status gets status 200.
    pub fn body(&mut self, body: &str) -> (r: &mut Self)
        ensures
            r.body@ == body@,
            r.http_status == if old(self).http_status == 0 {
                200
            } else {
                old(self).http_status
            },
            r.headers == old(self).headers,
            r.http_version == old(self).http_version,
            r.http_reason == old(self).http_reason,
            *final(self) == *final(r),
    {
        self.body = body.to_owned();
        if self.http_status == 0 {
            self.http_status = 200;
        }
        self
    }

    /// The HTTP message of this response.
    pub fn message(&self) -> (m: String)
        ensures
            m@ == message_text(
                self.http_version@,
                self.http_status,
                self.http_reason@,
                self.headers.deep_view(),
                self.body@,
            ),
    {
        let line_break: Vec<char> = vec!['\r', '\n'];
        assert(line_break@ =~= crln());
        let mut lines: Vec<Vec<char>> = Vec::new();
        let mut i: usize = 0;
        while i < self.headers.len()
            invariant
                i <= self.headers.len(),
                views(lines@) == header_lines(self.headers.deep_view()).take(i as int),
            decreases self.headers.len() - i,
        {
            let mut line = chars_of(self.headers[i].0.as_str());
            line.push(':');
            line.push(' ');
            append(&mut line, &chars_of(self.headers[i].1.as_str()));
            assert(line@ =~= header_line(self.headers.deep_view()[i as int]));
            proof {
                crate::text::lemma_views_push(lines@, line);
            }
            lines.push(line);
            assert(header_lines(self.headers.deep_view()).take(i + 1) =~= header_lines(
                self.headers.deep_view(),
            ).take(i as int).push(header_lines(self.headers.deep_view())[i as int]));
            i += 1;
        }
        assert(header_lines(self.headers.deep_view()).take(i as int) =~= header_lines(
            self.headers.deep_view(),
        ));
        let mut out = chars_of(self.http_version.as_str());
        out.push(' ');
        append(&mut out, &decimal_chars(self.http_status as u64));
        out.push(' ');
        append(&mut out, &chars_of(self.http_reason.as_str()));
        append(&mut out, &line_break);
        append(&mut out, &join_with(&lines, &line_break));
        append(&mut out, &line_break);
        append(&mut out, &line_break);
        append(&mut out, &chars_of(self.body.as_str()));
        assert(out@ =~= message_text(
            self.http_version@,
            self.http_status,
            self.http_reason@,
            self.headers.deep_view(),
            self.body@,
        ));
        string_from(&out)
    }
}

} // verus!
