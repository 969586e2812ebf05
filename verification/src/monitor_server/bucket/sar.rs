//! System activity reports (`sar -d -u -w -n DEV 1 2`) as a JSON object.
//!
//! The output of `sar` is a sequence of reports separated by blank lines.
//! Each line of a report becomes a row: its whitespace-separated words after
//! the first (the time stamp). A report is filed under the first word of its
//! first row, and a later report with the same key replaces an earlier one.
use vstd::prelude::*;

use crate::entries::{distinct_keys, has_key, insert_entry, lemma_upsert_distinct, upsert};
use crate::json::{json_object_text, to_json_object};
use crate::text::{
    blocks, chars_of, lines, split_blocks, split_lines, split_words, string_from, views, words,
};

verus! {

/// The row that a report line gives: its words after the first.
pub open spec fn row(line: Seq<char>) -> Seq<Seq<char>> {
    let w = words(line);
    if w.len() == 0 {
        w
    } else {
        w.drop_first()
    }
}

/// The rows of a report, one per line.
pub open spec fn report_rows(report: Seq<char>) -> Seq<Seq<Seq<char>>> {
    lines(report).map_values(|line: Seq<char>| row(line))
}

/// Whether the report can be filed: it has no line, or its first row is not
/// empty.
pub open spec fn report_has_key(report: Seq<char>) -> bool {
    report_rows(report).len() == 0 || report_rows(report)[0].len() > 0
}

/// The key of a report: the first word of its first row, or the empty string
/// for a report without lines.
pub open spec fn report_key(report: Seq<char>) -> Seq<char> {
    if report_rows(report).len() == 0 {
        Seq::empty()
    } else {
        report_rows(report)[0][0]
    }
}

/// Whether every report of `output` can be filed.
pub open spec fn reports_well_formed(output: Seq<char>) -> bool {
    forall|i: int| 0 <= i < blocks(output).len() ==> #[trigger] report_has_key(blocks(output)[i])
}

/// The reports filed in order, each under its key.
pub open spec fn file_reports(reports: Seq<Seq<char>>) -> Seq<
    (Seq<char>, Seq<Seq<Seq<char>>>),
>
    decreases reports.len(),
{
    if reports.len() == 0 {
        Seq::empty()
    } else {
        upsert(
            file_reports(reports.drop_last()),
            report_key(reports.last()),
            report_rows(reports.last()),
        )
    }
}

/// The entries that the JSON object of `output` holds, in the order their
/// keys first appear.
pub open spec fn sar_entries(output: Seq<char>) -> Seq<(Seq<char>, Seq<Seq<Seq<char>>>)> {
    file_reports(blocks(output))
}

proof fn lemma_file_reports_distinct(reports: Seq<Seq<char>>)
    ensures
        distinct_keys(file_reports(reports)),
    decreases reports.len(),
{
    if reports.len() > 0 {
        lemma_file_reports_distinct(reports.drop_last());
        lemma_upsert_distinct(
            file_reports(reports.drop_last()),
            report_key(reports.last()),
            report_rows(reports.last()),
        );
    }
}

/// Filing reports keeps one entry per key, files every report's key, and
/// holds under each key the rows of the last report filed under it.
pub proof fn lemma_last_report_wins(reports: Seq<Seq<char>>)
    ensures
        distinct_keys(file_reports(reports)),
        forall|i: int|
            0 <= i < reports.len() ==> has_key(file_reports(reports), #[trigger] report_key(reports[i])),
        forall|j: int|
            0 <= j < file_reports(reports).len() ==> exists|i: int|
                0 <= i < reports.len() && report_key(reports[i]) == #[trigger] file_reports(
                    reports,
                )[j].0 && file_reports(reports)[j].1 == report_rows(reports[i]) && forall|k: int|
                    i < k < reports.len() ==> report_key(reports[k]) != report_key(reports[i]),
    decreases reports.len(),
{
    lemma_file_reports_distinct(reports);
    if reports.len() > 0 {
        let prev = reports.drop_last();
        let n: int = reports.len() - 1;
        let f0 = file_reports(prev);
        let key = report_key(reports.last());
        let rows = report_rows(reports.last());
        let f = file_reports(reports);
        lemma_last_report_wins(prev);
        assert(f == upsert(f0, key, rows));
        let found = has_key(f0, key);
        let c = choose|c: int| 0 <= c < f0.len() && #[trigger] f0[c].0 == key;
        // the entry that the last report writes
        let w = if found {
            c
        } else {
            f0.len() as int
        };
        assert(f[w].0 == key && f[w].1 == rows);
        assert(f.len() >= f0.len());
        assert forall|j: int| 0 <= j < f0.len() && j != w implies f[j] == f0[j] by {}
        assert forall|i: int| 0 <= i < reports.len() implies has_key(
            f,
            #[trigger] report_key(reports[i]),
        ) by {
            if i == n {
                assert(f[w].0 == report_key(reports[i]));
            } else {
                assert(prev[i] == reports[i]);
                assert(has_key(f0, report_key(prev[i])));
                let j = choose|j: int| 0 <= j < f0.len() && #[trigger] f0[j].0 == report_key(prev[i]);
                if j == w {
                    assert(f[w].0 == report_key(reports[i]));
                } else {
                    assert(f[j].0 == report_key(reports[i]));
                }
            }
        }
        assert forall|j: int| 0 <= j < f.len() implies exists|i: int|
            0 <= i < reports.len() && report_key(reports[i]) == #[trigger] f[j].0 && f[j].1
                == report_rows(reports[i]) && forall|k: int|
                i < k < reports.len() ==> report_key(reports[k]) != report_key(reports[i]) by {
            if j == w {
                assert(report_key(reports[n]) == f[j].0);
            } else {
                assert(j < f0.len());
                assert(f[j] == f0[j]);
                let i = choose|i: int|
                    0 <= i < prev.len() && report_key(prev[i]) == #[trigger] f0[j].0 && f0[j].1
                        == report_rows(prev[i]) && forall|k: int|
                        i < k < prev.len() ==> report_key(prev[k]) != report_key(prev[i]);
                assert(prev[i] == reports[i]);
                if f0[j].0 == key {
                    assert(found);
                    assert(c == j);
                }
                assert forall|k: int| i < k < reports.len() implies report_key(reports[k])
                    != report_key(reports[i]) by {
                    if k < n {
                        assert(prev[k] == reports[k]);
                    }
                }
            }
        }
    }
}

/// The row of one report line: its words after the first, as strings.
fn parse_row(line: &Vec<char>) -> (r: Vec<String>)
    ensures
        r.deep_view() == row(line@),
{
    let w = split_words(line);
    let mut r: Vec<String> = Vec::new();
    if w.len() == 0 {
        assert(r.deep_view() =~= row(line@));
        return r;
    }
    let mut j: usize = 1;
    while j < w.len()
        invariant
            1 <= j <= w.len(),
            views(w@) == words(line@),
            r.deep_view() == views(w@).subrange(1, j as int),
        decreases w.len() - j,
    {
        let s = string_from(&w[j]);
        let ghost before = r.deep_view();
        r.push(s);
        assert(r.deep_view() =~= before.push(s@));
        assert(views(w@).subrange(1, j + 1) =~= views(w@).subrange(1, j as int).push(w@[j as int]@));
        j += 1;
    }
    assert(views(w@).subrange(1, w.len() as int) =~= views(w@).drop_first());
    r
}

/// The key and rows of one report.
fn parse_report(report: &Vec<char>) -> (r: (String, Vec<Vec<String>>))
    requires
        report_has_key(report@),
    ensures
        r.0@ == report_key(report@),
        r.1.deep_view() == report_rows(report@),
{
    let ls = split_lines(report);
    let mut rows: Vec<Vec<String>> = Vec::new();
    let mut key = String::new();
    let mut i: usize = 0;
    while i < ls.len()
        invariant
            i <= ls.len(),
            views(ls@) == lines(report@),
            report_has_key(report@),
            rows.deep_view() == report_rows(report@).take(i as int),
            i > 0 ==> key@ == report_key(report@),
            i == 0 ==> key@ == Seq::<char>::empty(),
        decreases ls.len() - i,
    {
        let r = parse_row(&ls[i]);
        assert(r.deep_view() == report_rows(report@)[i as int]);
        if i == 0 {
            key = r[0].clone();
        }
        let ghost before = rows.deep_view();
        rows.push(r);
        assert(rows.deep_view() =~= before.push(r.deep_view()));
        assert(report_rows(report@).take(i + 1) =~= report_rows(report@).take(i as int).push(
            report_rows(report@)[i as int],
        ));
        i += 1;
    }
    assert(report_rows(report@).take(i as int) =~= report_rows(report@));
    assert(report_rows(report@).len() == ls.len());
    (key, rows)
}

/// Whether every report of `output` can be filed: one whose first row is
/// empty has no key.
pub fn reports_can_be_filed(output: &str) -> (ok: bool)
    ensures
        ok == reports_well_formed(output@),
{
    let chars = chars_of(output);
    let bs = split_blocks(&chars);
    let mut b: usize = 0;
    while b < bs.len()
        invariant
            b <= bs.len(),
            views(bs@) == blocks(output@),
            forall|k: int| 0 <= k < b ==> #[trigger] report_has_key(blocks(output@)[k]),
        decreases bs.len() - b,
    {
        let ls = split_lines(&bs[b]);
        if ls.len() > 0 {
            let r = parse_row(&ls[0]);
            assert(r.deep_view() == report_rows(bs@[b as int]@)[0]);
            if r.len() == 0 {
                assert(!report_has_key(blocks(output@)[b as int]));
                return false;
            }
        }
        b += 1;
    }
    true
}

/// The entries of the JSON object for `output`: one per key, holding the
/// rows of the last report filed under it.
pub fn parse_reports(output: &str) -> (entries: Vec<(String, Vec<Vec<String>>)>)
    requires
        reports_well_formed(output@),
    ensures
        entries.deep_view() == sar_entries(output@),
        distinct_keys(entries.deep_view()),
{
    let chars = chars_of(output);
    let bs = split_blocks(&chars);
    let mut entries: Vec<(String, Vec<Vec<String>>)> = Vec::new();
    let mut b: usize = 0;
    assert(views(bs@).take(0) =~= Seq::<Seq<char>>::empty());
    while b < bs.len()
        invariant
            b <= bs.len(),
            views(bs@) == blocks(output@),
            reports_well_formed(output@),
            entries.deep_view() == file_reports(views(bs@).take(b as int)),
        decreases bs.len() - b,
    {
        assert(report_has_key(blocks(output@)[b as int]));
        let (key, rows) = parse_report(&bs[b]);
        proof {
            lemma_file_reports_distinct(views(bs@).take(b as int));
            assert(views(bs@).take(b + 1).drop_last() =~= views(bs@).take(b as int));
        }
        insert_entry(&mut entries, key, rows);
        b += 1;
    }
    proof {
        assert(views(bs@).take(b as int) =~= views(bs@));
        lemma_file_reports_distinct(views(bs@));
    }
    entries
}

/// The JSON object that the monitor serves for the `sar` output `output`:
/// each report's rows under its key, keys in `serde_json`'s order.
pub fn fetch(output: &str) -> (json: String)
    requires
        reports_well_formed(output@),
    ensures
        json@ == json_object_text(sar_entries(output@)),
{
    let entries = parse_reports(output);
    to_json_object(&entries)
}

/// `fetch` where every report of `output` can be filed, `None` otherwise.
pub fn try_fetch(output: &str) -> (json: Option<String>)
    ensures
        json is Some <==> reports_well_formed(output@),
        json matches Some(j) ==> j@ == json_object_text(sar_entries(output@)),
{
    if reports_can_be_filed(output) {
        Some(fetch(output))
    } else {
        None
    }
}

} // verus!
