//! The last day of `journalctl -o json` output, grouped by service.
//!
//! Every line of the output is one JSON record. The service of a record is
//! what the pattern `"SYSLOG_IDENTIFIER":"(\w*)"` captures in it. The
//! records of each service are listed in a JSON array under the service's
//! name; services appear in the order of their first record.
use vstd::prelude::*;

use crate::entries::{distinct_keys, has_key, key_index, lemma_key_index_unique};
use crate::timestamp::{format_utc, utc_text, LAST_SECOND_OF_9999};
use crate::pattern::{compiles, first_group, regex_compiles, regex_first_group};
use crate::text::{
    append, chars_of, debug_string, debug_text, join, join_with, lemma_deep_view_chars, lines,
    same_chars, split_lines, string_from, views,
};

verus! {

/// The pattern whose group 1 is the service of a journal record.
pub const IDENTIFIER_PATTERN: &'static str = "\"SYSLOG_IDENTIFIER\":\"(\\w*)\"";

/// The service that a journal record names, if the pattern finds one.
pub open spec fn service_of(line: Seq<char>) -> Option<Seq<char>> {
    regex_first_group(IDENTIFIER_PATTERN@, line)
}

/// Whether every record of `output` names its service (the pattern compiles
/// and matches every line).
pub open spec fn services_found(output: Seq<char>) -> bool {
    &&& regex_compiles(IDENTIFIER_PATTERN@)
    &&& forall|i: int| 0 <= i < lines(output).len() ==> (#[trigger] service_of(lines(output)[i])) is Some
}

/// The services of the records `lines`, one per record.
pub open spec fn services_of(lines: Seq<Seq<char>>) -> Seq<Seq<char>> {
    lines.map_values(|line: Seq<char>| service_of(line).unwrap())
}

/// `groups` with `line` added at the end of the group of `service` (a new
/// group is appended for a service not seen before).
pub open spec fn add_line(
    groups: Seq<(Seq<char>, Seq<Seq<char>>)>,
    service: Seq<char>,
    line: Seq<char>,
) -> Seq<(Seq<char>, Seq<Seq<char>>)> {
    if has_key(groups, service) {
        let j = key_index(groups, service);
        groups.update(j, (service, groups[j].1.push(line)))
    } else {
        groups.push((service, seq![line]))
    }
}

/// The records `lines` grouped by their services `services` (the two
/// sequences have equal lengths).
pub open spec fn group_lines(lines: Seq<Seq<char>>, services: Seq<Seq<char>>) -> Seq<
    (Seq<char>, Seq<Seq<char>>),
>
    decreases lines.len(),
{
    if lines.len() == 0 {
        Seq::empty()
    } else {
        add_line(
            group_lines(lines.drop_last(), services.drop_last()),
            services.last(),
            lines.last(),
        )
    }
}

/// The JSON member of one service: its quoted name and the array of its
/// records.
pub open spec fn service_member(service: Seq<char>, records: Seq<Seq<char>>) -> Seq<char> {
    debug_text(service) + seq![':', ' ', '['] + join(records, seq![',']) + seq![']']
}

/// The members of all groups, in order.
pub open spec fn service_members(groups: Seq<(Seq<char>, Seq<Seq<char>>)>) -> Seq<Seq<char>> {
    groups.map_values(|g: (Seq<char>, Seq<Seq<char>>)| service_member(g.0, g.1))
}

/// The JSON object that lists the groups.
pub open spec fn journal_object(groups: Seq<(Seq<char>, Seq<Seq<char>>)>) -> Seq<char> {
    seq!['{', ' '] + join(service_members(groups), seq![',']) + seq![' ', '}']
}

/// The JSON object that the monitor serves for the journal output `output`.
pub open spec fn journal_json(output: Seq<char>) -> Seq<char> {
    journal_object(group_lines(lines(output), services_of(lines(output))))
}

proof fn lemma_add_line_distinct(
    groups: Seq<(Seq<char>, Seq<Seq<char>>)>,
    service: Seq<char>,
    line: Seq<char>,
)
    requires
        distinct_keys(groups),
    ensures
        distinct_keys(add_line(groups, service, line)),
{
    let r = add_line(groups, service, line);
    if has_key(groups, service) {
        let j = key_index(groups, service);
        assert forall|a: int, b: int|
            0 <= a < r.len() && 0 <= b < r.len() && a != b implies r[a].0 != r[b].0 by {
            if a != j {
                assert(r[a] == groups[a]);
            }
            if b != j {
                assert(r[b] == groups[b]);
            }
        }
    } else {
        assert forall|a: int, b: int|
            0 <= a < r.len() && 0 <= b < r.len() && a != b implies r[a].0 != r[b].0 by {
            if a < groups.len() {
                assert(r[a] == groups[a]);
            }
            if b < groups.len() {
                assert(r[b] == groups[b]);
            }
        }
    }
}

proof fn lemma_group_lines_distinct(lines: Seq<Seq<char>>, services: Seq<Seq<char>>)
    ensures
        distinct_keys(group_lines(lines, services)),
    decreases lines.len(),
{
    if lines.len() > 0 {
        lemma_group_lines_distinct(lines.drop_last(), services.drop_last());
        lemma_add_line_distinct(
            group_lines(lines.drop_last(), services.drop_last()),
            services.last(),
            lines.last(),
        );
    }
}

/// The records among `lines` whose service is `service`, in order.
pub open spec fn records_of(lines: Seq<Seq<char>>, services: Seq<Seq<char>>, service: Seq<char>) -> Seq<
    Seq<char>,
>
    decreases lines.len(),
{
    if lines.len() == 0 {
        Seq::empty()
    } else if services.last() == service {
        records_of(lines.drop_last(), services.drop_last(), service).push(lines.last())
    } else {
        records_of(lines.drop_last(), services.drop_last(), service)
    }
}

/// Grouping keeps one group per service, has a group for the service of
/// every record, and each group holds exactly the records of its service, in
/// their order.
pub proof fn lemma_groups_partition(lines: Seq<Seq<char>>, services: Seq<Seq<char>>)
    requires
        lines.len() == services.len(),
    ensures
        distinct_keys(group_lines(lines, services)),
        forall|i: int| 0 <= i < services.len() ==> has_key(group_lines(lines, services), #[trigger] services[i]),
        forall|j: int|
            0 <= j < group_lines(lines, services).len() ==> (#[trigger] group_lines(lines, services)[j]).1
                == records_of(lines, services, group_lines(lines, services)[j].0),
    decreases lines.len(),
{
    lemma_group_lines_distinct(lines, services);
    if lines.len() > 0 {
        let pl = lines.drop_last();
        let ps = services.drop_last();
        let g0 = group_lines(pl, ps);
        let g = group_lines(lines, services);
        let key = services.last();
        lemma_groups_partition(pl, ps);
        lemma_group_lines_distinct(pl, ps);
        assert(g == add_line(g0, key, lines.last()));
        let found = has_key(g0, key);
        let w = if found {
            key_index(g0, key)
        } else {
            g0.len() as int
        };
        assert(g[w].0 == key);
        assert forall|j: int| 0 <= j < g0.len() && j != w implies g[j] == g0[j] by {}
        assert forall|i: int| 0 <= i < services.len() implies has_key(g, #[trigger] services[i]) by {
            if i == services.len() - 1 {
                assert(g[w].0 == services[i]);
            } else {
                assert(ps[i] == services[i]);
                assert(has_key(g0, ps[i]));
                let j = key_index(g0, ps[i]);
                if j == w {
                    assert(g[w].0 == services[i]);
                } else {
                    assert(g[j].0 == services[i]);
                }
            }
        }
        assert forall|j: int| 0 <= j < g.len() implies (#[trigger] g[j]).1 == records_of(
            lines,
            services,
            g[j].0,
        ) by {
            if j == w {
                if found {
                    assert(g0[w].1 == records_of(pl, ps, key));
                } else {
                    assert forall|k: int| 0 <= k < ps.len() implies ps[k] != key by {
                        assert(has_key(g0, #[trigger] ps[k]));
                        let m = key_index(g0, ps[k]);
                        assert(g0[m].0 == ps[k]);
                    }
                    lemma_no_records(pl, ps, key);
                }
            } else {
                assert(g[j] == g0[j]);
                if g0[j].0 == key {
                    lemma_key_index_unique(g0, key, j);
                }
            }
        }
    }
}

proof fn lemma_no_records(lines: Seq<Seq<char>>, services: Seq<Seq<char>>, service: Seq<char>)
    requires
        lines.len() == services.len(),
        forall|k: int| 0 <= k < services.len() ==> services[k] != service,
    ensures
        records_of(lines, services, service) == Seq::<Seq<char>>::empty(),
    decreases lines.len(),
{
    if lines.len() > 0 {
        assert(services.last() == services[services.len() - 1]);
        lemma_no_records(lines.drop_last(), services.drop_last(), service);
    }
}

/// A copy of `v`.
fn copy_chars(v: &Vec<char>) -> (r: Vec<char>)
    ensures
        r@ == v@,
{
    let mut r: Vec<char> = Vec::new();
    append(&mut r, v);
    assert(r@ =~= v@);
    r
}

/// Adds `line` at the end of the group of `service`.
fn add_to_group(groups: &mut Vec<(Vec<char>, Vec<Vec<char>>)>, service: Vec<char>, line: Vec<char>)
    requires
        distinct_keys(old(groups).deep_view()),
    ensures
        final(groups).deep_view() == add_line(old(groups).deep_view(), service@, line@),
{
    let ghost before = groups.deep_view();
    let mut j: usize = 0;
    while j < groups.len()
        invariant
            j <= groups.len(),
            groups.deep_view() == before,
            before == old(groups).deep_view(),
            distinct_keys(before),
            forall|k: int| 0 <= k < j ==> before[k].0 != service@,
        decreases groups.len() - j,
    {
        let same = same_chars(&groups[j].0, &service);
        proof {
            crate::text::lemma_deep_view_char_vec(groups@[j as int].0);
            crate::text::lemma_deep_view_char_vec(service);
        }
        if same {
            proof {
                lemma_key_index_unique(before, service@, j as int);
                lemma_deep_view_chars(groups@[j as int].1);
            }
            let mut records: Vec<Vec<char>> = Vec::new();
            let mut k: usize = 0;
            let n: usize = groups[j].1.len();
            while k < n
                invariant
                    k <= n,
                    n == groups@[j as int].1.len(),
                    groups.deep_view() == before,
                    j < groups.len(),
                    views(records@) == views(groups@[j as int].1@).take(k as int),
                decreases n - k,
            {
                let c = copy_chars(&groups[j].1[k]);
                proof {
                    crate::text::lemma_views_push(records@, c);
                }
                records.push(c);
                assert(views(groups@[j as int].1@).take(k + 1) =~= views(
                    groups@[j as int].1@,
                ).take(k as int).push(groups@[j as int].1@[k as int]@));
                k += 1;
            }
            assert(views(groups@[j as int].1@).take(n as int) =~= views(groups@[j as int].1@));
            let ghost line_view = line@;
            proof {
                crate::text::lemma_views_push(records@, line);
            }
            records.push(line);
            proof {
                lemma_deep_view_chars(records);
                crate::text::lemma_deep_view_char_vec(service);
            }
            let ghost entry = (service, records);
            groups.set(j, (service, records));
            assert(groups.deep_view() =~= before.update(j as int, entry.deep_view()));
            assert(entry.deep_view() == (service@, before[j as int].1.push(line_view)));
            return;
        }
        j += 1;
    }
    let ghost line_view = line@;
    let mut records: Vec<Vec<char>> = Vec::new();
    records.push(line);
    proof {
        lemma_deep_view_chars(records);
        crate::text::lemma_deep_view_char_vec(service);
        assert(views(records@) =~= seq![line_view]);
    }
    let ghost entry = (service, records);
    groups.push((service, records));
    assert(groups.deep_view() =~= before.push(entry.deep_view()));
}

/// The records `lines` grouped by their services `services`: one group per
/// service, in the order of first appearance, each holding its records in
/// order.
pub fn group_logs(lines: &Vec<Vec<char>>, services: &Vec<Vec<char>>) -> (groups: Vec<
    (Vec<char>, Vec<Vec<char>>),
>)
    requires
        lines.len() == services.len(),
    ensures
        groups.deep_view() == group_lines(views(lines@), views(services@)),
        distinct_keys(groups.deep_view()),
{
    let mut groups: Vec<(Vec<char>, Vec<Vec<char>>)> = Vec::new();
    let mut i: usize = 0;
    assert(views(lines@).take(0) =~= Seq::<Seq<char>>::empty());
    while i < lines.len()
        invariant
            i <= lines.len(),
            lines.len() == services.len(),
            groups.deep_view() == group_lines(
                views(lines@).take(i as int),
                views(services@).take(i as int),
            ),
        decreases lines.len() - i,
    {
        proof {
            lemma_group_lines_distinct(views(lines@).take(i as int), views(services@).take(i as int));
            assert(views(lines@).take(i + 1).drop_last() =~= views(lines@).take(i as int));
            assert(views(services@).take(i + 1).drop_last() =~= views(services@).take(i as int));
        }
        let service = copy_chars(&services[i]);
        let line = copy_chars(&lines[i]);
        add_to_group(&mut groups, service, line);
        i += 1;
    }
    assert(views(lines@).take(i as int) =~= views(lines@));
    assert(views(services@).take(i as int) =~= views(services@));
    proof {
        lemma_group_lines_distinct(views(lines@), views(services@));
    }
    groups
}

/// The JSON members of the groups: each service's name in `Debug` quotes,
/// then the array of its records.
pub fn to_services(groups: &Vec<(Vec<char>, Vec<Vec<char>>)>) -> (members: Vec<Vec<char>>)
    ensures
        views(members@) == service_members(groups.deep_view()),
{
    let mut members: Vec<Vec<char>> = Vec::new();
    let mut i: usize = 0;
    while i < groups.len()
        invariant
            i <= groups.len(),
            views(members@) == service_members(groups.deep_view()).take(i as int),
        decreases groups.len() - i,
    {
        proof {
            crate::text::lemma_deep_view_char_vec(groups@[i as int].0);
            lemma_deep_view_chars(groups@[i as int].1);
        }
        let name = string_from(&groups[i].0);
        let quoted = debug_string(name.as_str());
        let mut member = chars_of(quoted.as_str());
        member.push(':');
        member.push(' ');
        member.push('[');
        let comma: Vec<char> = vec![','];
        assert(comma@ =~= seq![',']);
        let records = join_with(&groups[i].1, &comma);
        let ghost head = member@;
        append(&mut member, &records);
        member.push(']');
        assert(groups.deep_view()[i as int].0 == groups@[i as int].0@);
        assert(groups.deep_view()[i as int].1 == views(groups@[i as int].1@));
        assert(head == debug_text(groups@[i as int].0@) + seq![':', ' ', '[']);
        assert(member@ =~= service_member(groups.deep_view()[i as int].0, groups.deep_view()[i as int].1));
        proof {
            crate::text::lemma_views_push(members@, member);
        }
        members.push(member);
        assert(service_members(groups.deep_view()).take(i + 1) =~= service_members(
            groups.deep_view(),
        ).take(i as int).push(service_members(groups.deep_view())[i as int]));
        i += 1;
    }
    assert(service_members(groups.deep_view()).take(i as int) =~= service_members(
        groups.deep_view(),
    ));
    members
}

/// The services of `lines`, found with `IDENTIFIER_PATTERN`.
fn services_in(lines: &Vec<Vec<char>>) -> (services: Vec<Vec<char>>)
    requires
        regex_compiles(IDENTIFIER_PATTERN@),
        forall|i: int| 0 <= i < lines.len() ==> (#[trigger] service_of(lines@[i]@)) is Some,
    ensures
        views(services@) == services_of(views(lines@)),
{
    let mut services: Vec<Vec<char>> = Vec::new();
    let mut i: usize = 0;
    while i < lines.len()
        invariant
            i <= lines.len(),
            regex_compiles(IDENTIFIER_PATTERN@),
            forall|i: int| 0 <= i < lines.len() ==> (#[trigger] service_of(lines@[i]@)) is Some,
            views(services@) == services_of(views(lines@)).take(i as int),
        decreases lines.len() - i,
    {
        let line = string_from(&lines[i]);
        assert(service_of(lines@[i as int]@) is Some);
        let group = first_group(IDENTIFIER_PATTERN, line.as_str());
        let name = group.unwrap();
        let s = chars_of(name.as_str());
        proof {
            crate::text::lemma_views_push(services@, s);
        }
        services.push(s);
        assert(services_of(views(lines@)).take(i + 1) =~= services_of(views(lines@)).take(
            i as int,
        ).push(services_of(views(lines@))[i as int]));
        i += 1;
    }
    assert(services_of(views(lines@)).take(i as int) =~= services_of(views(lines@)));
    services
}

/// The JSON object that the monitor serves for the journal output `output`:
/// the records of each service under its name.
pub fn fetch(output: &str) -> (json: String)
    requires
        services_found(output@),
    ensures
        json@ == journal_json(output@),
{
    let chars = chars_of(output);
    let ls = split_lines(&chars);
    assert forall|i: int| 0 <= i < ls.len() implies (#[trigger] service_of(ls@[i]@)) is Some by {
        assert(views(ls@)[i] == ls@[i]@);
    }
    let services = services_in(&ls);
    assert(services.len() == views(services@).len());
    let groups = group_logs(&ls, &services);
    let members = to_services(&groups);
    let mut out: Vec<char> = vec!['{', ' '];
    assert(out@ =~= seq!['{', ' ']);
    let comma: Vec<char> = vec![','];
    assert(comma@ =~= seq![',']);
    let body = join_with(&members, &comma);
    append(&mut out, &body);
    out.push(' ');
    out.push('}');
    assert(out@ =~= journal_json(output@));
    string_from(&out)
}

/// Whether every record of `output` names its service.
pub fn services_are_found(output: &str) -> (ok: bool)
    ensures
        ok == services_found(output@),
{
    if !compiles(IDENTIFIER_PATTERN) {
        return false;
    }
    let chars = chars_of(output);
    let ls = split_lines(&chars);
    let mut i: usize = 0;
    while i < ls.len()
        invariant
            i <= ls.len(),
            regex_compiles(IDENTIFIER_PATTERN@),
            views(ls@) == lines(output@),
            forall|k: int| 0 <= k < i ==> (#[trigger] service_of(lines(output@)[k])) is Some,
        decreases ls.len() - i,
    {
        let line = string_from(&ls[i]);
        let group = first_group(IDENTIFIER_PATTERN, line.as_str());
        if group.is_none() {
            assert(!(service_of(lines(output@)[i as int]) is Some));
            return false;
        }
        i += 1;
    }
    true
}

/// `fetch` where every record of `output` names its service, `None`
/// otherwise.
pub fn try_fetch(output: &str) -> (json: Option<String>)
    ensures
        json is Some <==> services_found(output@),
        json matches Some(j) ==> j@ == journal_json(output@),
{
    if services_are_found(output) {
        Some(fetch(output))
    } else {
        None
    }
}

/// `items` with `sep` between neighbours.
pub open spec fn interspersed(items: Seq<Seq<char>>, sep: Seq<char>) -> Seq<Seq<char>>
    decreases items.len(),
{
    if items.len() <= 1 {
        items
    } else {
        interspersed(items.drop_last(), sep).push(sep).push(items.last())
    }
}

/// The arguments of `journalctl` for the records since `since` of the
/// services `services`: in reverse order, as JSON, one `-u` per service.
pub open spec fn journal_arguments(since: Seq<char>, services: Seq<Seq<char>>) -> Seq<Seq<char>> {
    seq!["-r"@, "-S"@, since, "-o"@, "json"@, "-u"@] + interspersed(services, "-u"@)
}

/// Putting `sep` between neighbours: `n > 0` items give `2n - 1` entries,
/// the items in order at the even positions and `sep` at the odd ones; no
/// items give no entries.
pub proof fn lemma_interspersed(items: Seq<Seq<char>>, sep: Seq<char>)
    ensures
        items.len() == 0 ==> interspersed(items, sep).len() == 0,
        items.len() > 0 ==> interspersed(items, sep).len() == 2 * items.len() - 1,
        forall|k: int| 0 <= k < items.len() ==> interspersed(items, sep)[2 * k] == #[trigger] items[k],
        forall|k: int|
            0 <= k < items.len() - 1 ==> #[trigger] interspersed(items, sep)[2 * k + 1] == sep,
    decreases items.len(),
{
    if items.len() >= 2 {
        let prev = items.drop_last();
        lemma_interspersed(prev, sep);
        let p = interspersed(prev, sep);
        let r = interspersed(items, sep);
        assert(r == p.push(sep).push(items.last()));
        assert forall|k: int| 0 <= k < items.len() implies r[2 * k] == #[trigger] items[k] by {
            if k < items.len() - 1 {
                assert(prev[k] == items[k]);
                assert(r[2 * k] == p[2 * k]);
            }
        }
        assert forall|k: int| 0 <= k < items.len() - 1 implies #[trigger] r[2 * k + 1] == sep by {
            if k < items.len() - 2 {
                assert(r[2 * k + 1] == p[2 * k + 1]);
            }
        }
    }
}

/// The arguments of `journalctl`: `-r -S since -o json`, then every service
/// preceded by its own `-u` (a lone `-u` where there is no service).
pub proof fn lemma_journal_arguments(since: Seq<char>, services: Seq<Seq<char>>)
    ensures
        ({
            let a = journal_arguments(since, services);
            &&& a.len() == if services.len() == 0 {
                6
            } else {
                5 + 2 * services.len()
            }
            &&& a[0] == "-r"@ && a[1] == "-S"@ && a[2] == since
            &&& a[3] == "-o"@ && a[4] == "json"@ && a[5] == "-u"@
            &&& forall|k: int|
                0 <= k < services.len() ==> a[6 + 2 * k] == #[trigger] services[k] && a[5 + 2
                    * k] == "-u"@
        }),
{
    lemma_interspersed(services, "-u"@);
    let a = journal_arguments(since, services);
    let head = seq!["-r"@, "-S"@, since, "-o"@, "json"@, "-u"@];
    let tail = interspersed(services, "-u"@);
    assert forall|k: int| 0 <= k < services.len() implies a[6 + 2 * k] == #[trigger] services[k]
        && a[5 + 2 * k] == "-u"@ by {
        assert(a[6 + 2 * k] == tail[2 * k]);
        if k > 0 {
            assert(a[5 + 2 * k] == tail[2 * (k - 1) + 1]);
        }
    }
}

/// The number of seconds in a day.
pub const ONE_DAY: i64 = 86400;

/// The arguments of `journalctl` for the records since the time stamp
/// `since` of the services `services`.
pub fn journal_arguments_since(since: &str, services: &Vec<String>) -> (args: Vec<String>)
    ensures
        args.deep_view() == journal_arguments(since@, services.deep_view()),
{
    let mut args: Vec<String> = Vec::new();
    args.push("-r".to_owned());
    args.push("-S".to_owned());
    args.push(since.to_owned());
    args.push("-o".to_owned());
    args.push("json".to_owned());
    args.push("-u".to_owned());
    let ghost head = args.deep_view();
    assert(head =~= seq!["-r"@, "-S"@, since@, "-o"@, "json"@, "-u"@]);
    let mut i: usize = 0;
    assert(services.deep_view().take(0) =~= Seq::<Seq<char>>::empty());
    assert(head + interspersed(Seq::<Seq<char>>::empty(), "-u"@) =~= head);
    while i < services.len()
        invariant
            i <= services.len(),
            head == seq!["-r"@, "-S"@, since@, "-o"@, "json"@, "-u"@],
            args.deep_view() == head + interspersed(services.deep_view().take(i as int), "-u"@),
        decreases services.len() - i,
    {
        let ghost before = args.deep_view();
        let ghost prev = services.deep_view().take(i as int);
        let ghost next = services.deep_view().take(i + 1);
        assert(next.drop_last() =~= prev);
        assert(next.last() == services@[i as int]@);
        let service = services[i].as_str().to_owned();
        assert(service@ == services@[i as int]@);
        if i == 0 {
            args.push(service);
            assert(next =~= seq![services@[0]@]);
            assert(interspersed(prev, "-u"@) =~= Seq::<Seq<char>>::empty());
            assert(args.deep_view() =~= before.push(next.last()));
            assert(args.deep_view() =~= head + interspersed(next, "-u"@));
        } else {
            let sep = "-u".to_owned();
            assert(sep@ == "-u"@);
            args.push(sep);
            args.push(service);
            assert(args.deep_view() =~= before.push("-u"@).push(next.last()));
            assert(interspersed(next, "-u"@) == interspersed(prev, "-u"@).push("-u"@).push(
                next.last(),
            ));
            assert(args.deep_view() =~= head + interspersed(next, "-u"@));
        }
        i += 1;
    }
    assert(services.deep_view().take(i as int) =~= services.deep_view());
    args
}

/// The arguments of `journalctl` for the last day, at the time `now_secs`
/// (seconds after the Unix epoch), of the services `services`; `None` where
/// a day before `now_secs` has no time stamp.
pub fn journal_args(now_secs: i64, services: &Vec<String>) -> (args: Option<Vec<String>>)
    ensures
        args is Some <==> (now_secs >= i64::MIN + ONE_DAY && utc_text(
            (now_secs - ONE_DAY) as i64,
        ) is Some),
        args matches Some(a) ==> a.deep_view() == journal_arguments(
            utc_text((now_secs - ONE_DAY) as i64).unwrap(),
            services.deep_view(),
        ),
        ONE_DAY <= now_secs <= LAST_SECOND_OF_9999 + ONE_DAY ==> args is Some,
{
    if now_secs < i64::MIN + ONE_DAY {
        return None;
    }
    let since_secs: i64 = now_secs - ONE_DAY;
    match format_utc(since_secs) {
        Some(since) => Some(journal_arguments_since(since.as_str(), services)),
        None => None,
    }
}

} // verus!
