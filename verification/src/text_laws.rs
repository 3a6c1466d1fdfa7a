//! What is read out of texts and statistics, and what is reported of them.

use vstd::prelude::*;

use crate::database::{
    all_table_metrics, engine_metrics, metrics_fit, property_metric, stall_metric, table_metrics,
    EngineProperties, MetricV,
};
use crate::stall::{
    stall_item, stall_items, stall_lines, stall_lines_fit, stalls, stalls_fit, StallMicros,
};
use crate::text::{
    all_digits, decimal, first_of, is_blank, number, pieces, text_contains, text_starts, trimmed,
    unsigned_digits,
};

verus! {

/// White space is what Unicode says it is: of ASCII the blank and the characters from tab to
/// carriage return, and beyond it the next line, the no-break spaces, the spaces of a fixed width
/// and the separators of lines and paragraphs.
pub proof fn law_blanks(c: char)
    ensures
        c as u32 <= 0x7f ==> (is_blank(c) <==> c == ' ' || c == '\t' || c == '\n' || c == '\r'
            || c as u32 == 0xb || c as u32 == 0xc),
        c as u32 > 0x7f ==> (is_blank(c) <==> c as u32 == 0x85 || c as u32 == 0xa0 || c as u32
            == 0x1680 || 0x2000 <= c as u32 <= 0x200a || c as u32 == 0x2028 || c as u32 == 0x2029
            || c as u32 == 0x202f || c as u32 == 0x205f || c as u32 == 0x3000),
{
}

/// Where a trimmed text begins and ends in the text.
proof fn lemma_trimmed(s: Seq<char>) -> (r: (int, int))
    ensures
        0 <= r.0 <= r.1 <= s.len(),
        trimmed(s) == s.subrange(r.0, r.1),
        forall|k: int| 0 <= k < r.0 ==> is_blank(#[trigger] s[k]),
        forall|k: int| r.1 <= k < s.len() ==> is_blank(#[trigger] s[k]),
        r.0 < r.1 ==> !is_blank(s[r.0]) && !is_blank(s[r.1 - 1]),
    decreases s.len(),
{
    if s.len() > 0 && is_blank(s[0]) {
        let t = s.skip(1);
        let (i, j) = lemma_trimmed(t);
        assert(t.subrange(i, j) =~= s.subrange(i + 1, j + 1));
        assert forall|k: int| 0 <= k < i + 1 implies is_blank(#[trigger] s[k]) by {
            if k > 0 {
                assert(t[k - 1] == s[k]);
            }
        }
        assert forall|k: int| j + 1 <= k < s.len() implies is_blank(#[trigger] s[k]) by {
            assert(t[k - 1] == s[k]);
        }
        (i + 1, j + 1)
    } else if s.len() > 0 && is_blank(s.last()) {
        let t = s.drop_last();
        let (i, j) = lemma_trimmed(t);
        assert(t.subrange(i, j) =~= s.subrange(i, j));
        assert forall|k: int| 0 <= k < i implies is_blank(#[trigger] s[k]) by {
            assert(t[k] == s[k]);
        }
        assert forall|k: int| j <= k < s.len() implies is_blank(#[trigger] s[k]) by {
            if k < t.len() {
                assert(t[k] == s[k]);
            }
        }
        (i, j)
    } else {
        assert(s.subrange(0, s.len() as int) =~= s);
        (0, s.len() as int)
    }
}

/// A trimmed text is the text without white space at its ends: what goes is all white space, and
/// what stays neither begins nor ends with any.
pub proof fn law_trimmed(s: Seq<char>)
    ensures
        exists|i: int, j: int|
            0 <= i <= j <= s.len() && trimmed(s) == #[trigger] s.subrange(i, j) && (forall|k: int|
                0 <= k < i ==> is_blank(#[trigger] s[k])) && (forall|k: int|
                j <= k < s.len() ==> is_blank(#[trigger] s[k])),
        trimmed(s).len() > 0 ==> !is_blank(trimmed(s)[0]) && !is_blank(trimmed(s).last()),
{
    let (i, j) = lemma_trimmed(s);
    let t = s.subrange(i, j);
    assert(trimmed(s) == t);
    if t.len() > 0 {
        assert(t[0] == s[i]);
        assert(t.last() == s[j - 1]);
    }
}

/// The first position of a character: it stands there, and nowhere before.
pub proof fn law_first_of(s: Seq<char>, c: char)
    ensures
        first_of(s, c) <= s.len(),
        forall|i: int| 0 <= i < first_of(s, c) ==> #[trigger] s[i] != c,
        first_of(s, c) < s.len() ==> s[first_of(s, c) as int] == c,
    decreases s.len(),
{
    if s.len() > 0 && s[0] != c {
        law_first_of(s.skip(1), c);
        assert forall|i: int| 0 <= i < first_of(s, c) implies #[trigger] s[i] != c by {
            if i > 0 {
                assert(s.skip(1)[i - 1] == s[i]);
            }
        }
    }
}

/// Pieces with a character between each and the next.
pub open spec fn joined(ps: Seq<Seq<char>>, c: char) -> Seq<char>
    decreases ps.len(),
{
    if ps.len() == 0 {
        Seq::empty()
    } else if ps.len() == 1 {
        ps[0]
    } else {
        ps[0] + seq![c] + joined(ps.skip(1), c)
    }
}

/// A text that is split at a character is the pieces joined by it, and no piece has it.
pub proof fn law_pieces(s: Seq<char>, c: char)
    ensures
        pieces(s, c).len() > 0,
        joined(pieces(s, c), c) == s,
        forall|i: int, j: int|
            0 <= i < pieces(s, c).len() && 0 <= j < pieces(s, c)[i].len()
                ==> #[trigger] pieces(s, c)[i][j] != c,
    decreases s.len(),
{
    law_first_of(s, c);
    let n = first_of(s, c) as int;
    let ps = pieces(s, c);
    if n < s.len() {
        let rest = s.skip(n + 1);
        law_pieces(rest, c);
        let qs = pieces(rest, c);
        assert(ps.skip(1) =~= qs);
        assert(ps[0] == s.take(n));
        assert(s =~= s.take(n) + seq![c] + rest);
        assert forall|i: int, j: int| 0 <= i < ps.len() && 0 <= j < ps[i].len() implies #[trigger]
        ps[i][j] != c by {
            if i > 0 {
                assert(ps[i] == qs[i - 1]);
                assert(qs[i - 1][j] != c);
            }
        }
    } else {
        assert(ps =~= seq![s]);
    }
}

/// A text that has no digit, or anything else than digits after a plus sign that may lead, is no
/// number. One that is too large is none either.
pub proof fn law_no_number(s: Seq<char>, max: nat, i: int)
    ensures
        s.len() == 0 ==> number(s, max) is None,
        s == seq!['+'] ==> number(s, max) is None,
        0 < i < s.len() && !('0' <= s[i] <= '9') ==> number(s, max) is None,
        s.len() > 0 && s[0] != '+' && !('0' <= s[0] <= '9') ==> number(s, max) is None,
        number(s, max) matches Some(n) ==> n <= max,
{
    let d = unsigned_digits(s);
    if 0 < i < s.len() && !('0' <= s[i] <= '9') {
        if s[0] == '+' {
            assert(d[i - 1] == s[i]);
        } else {
            assert(d[i] == s[i]);
        }
    }
    if s.len() > 0 && s[0] != '+' && !('0' <= s[0] <= '9') {
        assert(d[0] == s[0]);
    }
}

/// A digit alone is its number, and a further digit makes ten times the number and the digit of
/// it, as long as that fits. A plus sign before digits changes nothing.
pub proof fn law_number(s: Seq<char>, c: char, max: nat)
    requires
        '0' <= c <= '9',
    ensures
        number(seq![c], max) == if c as u32 - '0' as u32 <= max {
            Some((c as u32 - '0' as u32) as nat)
        } else {
            None
        },
        number(s, max) matches Some(n) ==> number(s.push(c), max) == (if n * 10 + (c as u32
            - '0' as u32) <= max {
            Some((n * 10 + (c as u32 - '0' as u32)) as nat)
        } else {
            None
        }),
        s.len() > 0 && s[0] != '+' ==> number(seq!['+'] + s, max) == number(s, max),
{
    let one = seq![c];
    reveal_with_fuel(decimal, 2);
    assert(one.drop_last() =~= Seq::empty());
    assert(all_digits(one));
    let d = unsigned_digits(s);
    if number(s, max) is Some {
        assert(unsigned_digits(s.push(c)) =~= d.push(c));
        assert(d.push(c).drop_last() =~= d);
        assert(all_digits(d.push(c)));
    }
    if s.len() > 0 && s[0] != '+' {
        assert((seq!['+'] + s).skip(1) =~= s);
    }
}

/// An item of the statistics that is a kind of stall and a number, with a colon between them,
/// sets the time of that kind and no other. Blanks do not matter, two kinds have two names, and a
/// kind of another name sets nothing.
pub proof fn law_stall_item(
    r: StallMicros,
    item: Seq<char>,
    kind: Seq<char>,
    time: Seq<char>,
    micros: u64,
)
    requires
        trimmed(item) == kind + seq![':'] + time,
        forall|i: int| 0 <= i < kind.len() ==> #[trigger] kind[i] != ':',
        number(trimmed(time), u64::MAX as nat) == Some(micros as nat),
    ensures
        trimmed(kind) == "level0_slowdown"@ ==> stall_item(r, item) == (StallMicros {
            level0_slowdown: Some(micros),
            ..r
        }),
        trimmed(kind) == "level0_numfiles"@ || trimmed(kind) == "level0_numfiles_limit"@
            ==> stall_item(r, item) == (StallMicros { level0_numfiles: Some(micros), ..r }),
        trimmed(kind) == "pending_compaction_bytes"@ || trimmed(kind)
            == "pending_compaction_bytes_limit"@ ==> stall_item(r, item) == (StallMicros {
            pending_compaction_bytes: Some(micros),
            ..r
        }),
        stall_item(r, item).total == r.total,
        trimmed(kind) != "level0_slowdown"@ && trimmed(kind) != "level0_numfiles"@ && trimmed(kind)
            != "level0_numfiles_limit"@ && trimmed(kind) != "pending_compaction_bytes"@ && trimmed(
            kind,
        ) != "pending_compaction_bytes_limit"@ ==> stall_item(r, item) == r,
{
    reveal_strlit("level0_slowdown");
    reveal_strlit("level0_numfiles");
    reveal_strlit("level0_numfiles_limit");
    reveal_strlit("pending_compaction_bytes");
    reveal_strlit("pending_compaction_bytes_limit");
    let p = trimmed(item);
    let n = kind.len() as int;
    law_first_of(p, ':');
    let m = first_of(p, ':') as int;
    assert(p[n] == ':');
    if m < n {
        assert(p[m] == kind[m]);
    }
    assert(m == n);
    assert(p.take(n) =~= kind);
    assert(p.skip(n + 1) =~= time);
    assert("level0_slowdown"@[7] != "level0_numfiles"@[7]);
    assert("level0_slowdown"@[7] != "level0_numfiles_limit"@[7]);
    assert("level0_slowdown"@[0] != "pending_compaction_bytes"@[0]);
    assert("level0_slowdown"@[0] != "pending_compaction_bytes_limit"@[0]);
    assert("level0_numfiles"@[0] != "pending_compaction_bytes"@[0]);
    assert("level0_numfiles_limit"@[0] != "pending_compaction_bytes"@[0]);
    assert("level0_numfiles"@[0] != "pending_compaction_bytes_limit"@[0]);
    assert("level0_numfiles_limit"@[0] != "pending_compaction_bytes_limit"@[0]);
}

/// An item without a colon, or without a number after it, sets nothing.
pub proof fn law_other_items(r: StallMicros, item: Seq<char>, i: int)
    ensures
        (forall|j: int| 0 <= j < item.len() ==> #[trigger] item[j] != ':') ==> stall_item(r, item)
            == r,
        0 <= i < trimmed(item).len() && trimmed(item)[i] == ':' && (forall|j: int|
            0 <= j < i ==> #[trigger] trimmed(item)[j] != ':') && number(
            trimmed(trimmed(item).skip(i + 1)),
            u64::MAX as nat,
        ) is None ==> stall_item(r, item) == r,
{
    let p = trimmed(item);
    law_first_of(p, ':');
    let (a, b) = lemma_trimmed(item);
    let m = first_of(p, ':') as int;
    if m < p.len() {
        assert(p[m] == item[a + m]);
    }
    if 0 <= i < p.len() && p[i] == ':' && (forall|j: int| 0 <= j < i ==> #[trigger] p[j] != ':') {
        if m < i {
            assert(p[m] != ':');
        }
    }
}

/// Every item counts, one after the other.
pub proof fn law_every_item_counts(r: StallMicros, items: Seq<Seq<char>>, item: Seq<char>)
    ensures
        stall_items(r, Seq::empty()) == r,
        stall_items(r, items.push(item)) == stall_item(stall_items(r, items), item),
{
    assert(items.push(item).drop_last() =~= items);
}

/// Every line with the heading counts, one after the other: its items, which commas part, and
/// after them the sum of the three kinds as the total, where there is any. Other lines do not.
pub proof fn law_every_line_counts(
    lines: Seq<Seq<char>>,
    line: Seq<char>,
    content: Seq<char>,
)
    requires
        stall_lines_fit(lines.push(line)),
    ensures
        ({
            let before = stall_lines(lines);
            let after = stall_lines(lines.push(line));
            let heading = "Stall(us):"@;
            &&& !text_contains(trimmed(line), heading) ==> after == before
            &&& text_contains(trimmed(line), heading) && (trimmed(line) == heading + content
                || trimmed(line) == content && !text_starts(content, heading)) ==> {
                let items = stall_items(before, pieces(content, ','));
                let sum = (match items.level0_slowdown {
                    Some(n) => n as int,
                    None => 0,
                }) + (match items.level0_numfiles {
                    Some(n) => n as int,
                    None => 0,
                }) + (match items.pending_compaction_bytes {
                    Some(n) => n as int,
                    None => 0,
                });
                &&& after.level0_slowdown == items.level0_slowdown
                &&& after.level0_numfiles == items.level0_numfiles
                &&& after.pending_compaction_bytes == items.pending_compaction_bytes
                &&& sum == 0 ==> after.total == items.total
                &&& sum > 0 ==> (after.total matches Some(n) && n == sum)
            }
        }),
{
    let heading = "Stall(us):"@;
    assert(lines.push(line).drop_last() =~= lines);
    if trimmed(line) == heading + content {
        assert(trimmed(line).take(heading.len() as int) =~= heading);
        assert(trimmed(line).skip(heading.len() as int) =~= content);
    }
}

/// The times in a text are those of its lines. A text without lines tells none.
pub proof fn law_lines_of_statistics(text: Seq<char>)
    ensures
        stalls(text) == stall_lines(pieces(text, '\n')),
        stalls_fit(text) <==> stall_lines_fit(pieces(text, '\n')),
        stall_lines(Seq::empty()) == (StallMicros {
            total: None,
            level0_slowdown: None,
            level0_numfiles: None,
            pending_compaction_bytes: None,
        }),
{
}

/// What is in one of two lists is in both together.
proof fn lemma_in_either(a: Seq<MetricV>, b: Seq<MetricV>, m: MetricV)
    ensures
        (a + b).contains(m) <==> a.contains(m) || b.contains(m),
{
    if a.contains(m) {
        let i = choose|i: int| 0 <= i < a.len() && a[i] == m;
        assert((a + b)[i] == m);
    }
    if b.contains(m) {
        let i = choose|i: int| 0 <= i < b.len() && b[i] == m;
        assert((a + b)[a.len() + i] == m);
    }
    if (a + b).contains(m) {
        let i = choose|i: int| 0 <= i < (a + b).len() && (a + b)[i] == m;
        if i < a.len() {
            assert(a[i] == m);
        } else {
            assert(b[i - a.len()] == m);
        }
    }
}

/// What is among all metrics comes from one of the properties or from a table.
proof fn lemma_engine_metric(p: EngineProperties, m: MetricV)
    ensures
        engine_metrics(p).contains(m) <==> {
            ||| property_metric(
                "rocksdb.actual_delayed_write_rate"@,
                p.actual_delayed_write_rate,
            ).contains(m)
            ||| property_metric("rocksdb.is_write_stopped"@, p.is_write_stopped).contains(m)
            ||| all_table_metrics(p.cfstats@).contains(m)
            ||| property_metric(
                "rocksdb.cur_size_all_mem_tables"@,
                p.cur_size_all_mem_tables,
            ).contains(m)
            ||| property_metric(
                "rocksdb.num_running_compactions"@,
                p.num_running_compactions,
            ).contains(m)
            ||| property_metric("rocksdb.num_running_flushes"@, p.num_running_flushes).contains(m)
        },
{
    let a = property_metric("rocksdb.actual_delayed_write_rate"@, p.actual_delayed_write_rate);
    let b = property_metric("rocksdb.is_write_stopped"@, p.is_write_stopped);
    let t = all_table_metrics(p.cfstats@);
    let c = property_metric("rocksdb.cur_size_all_mem_tables"@, p.cur_size_all_mem_tables);
    let d = property_metric("rocksdb.num_running_compactions"@, p.num_running_compactions);
    let e = property_metric("rocksdb.num_running_flushes"@, p.num_running_flushes);
    lemma_in_either(a, b, m);
    lemma_in_either(a + b, t, m);
    lemma_in_either(a + b + t, c, m);
    lemma_in_either(a + b + t + c, d, m);
    lemma_in_either(a + b + t + c + d, e, m);
}

/// What a property that is a number reports.
proof fn lemma_property_metric(name: Seq<char>, property: Option<String>, m: MetricV)
    ensures
        property_metric(name, property).contains(m) <==> {
            &&& property is Some
            &&& number(property->0@, u64::MAX as nat) is Some
            &&& m == MetricV {
                name,
                value: number(property->0@, u64::MAX as nat)->0 as u64,
                labels: Seq::empty(),
            }
        },
{
    if property is Some && number(property->0@, u64::MAX as nat) is Some {
        assert(property_metric(name, property)[0].name == name);
    }
}

/// Each of the five properties is reported under its name where it is a number.
pub proof fn law_properties_are_reported(p: EngineProperties, n: u64)
    ensures
        ({
            let all = engine_metrics(p);
            let max = u64::MAX as nat;
            &&& p.actual_delayed_write_rate matches Some(text) ==> number(text@, max) == Some(
                n as nat,
            ) ==> all.contains(
                MetricV {
                    name: "rocksdb.actual_delayed_write_rate"@,
                    value: n,
                    labels: Seq::empty(),
                },
            )
            &&& p.is_write_stopped matches Some(text) ==> number(text@, max) == Some(n as nat)
                ==> all.contains(
                MetricV { name: "rocksdb.is_write_stopped"@, value: n, labels: Seq::empty() },
            )
            &&& p.cur_size_all_mem_tables matches Some(text) ==> number(text@, max) == Some(
                n as nat,
            ) ==> all.contains(
                MetricV {
                    name: "rocksdb.cur_size_all_mem_tables"@,
                    value: n,
                    labels: Seq::empty(),
                },
            )
            &&& p.num_running_compactions matches Some(text) ==> number(text@, max) == Some(
                n as nat,
            ) ==> all.contains(
                MetricV {
                    name: "rocksdb.num_running_compactions"@,
                    value: n,
                    labels: Seq::empty(),
                },
            )
            &&& p.num_running_flushes matches Some(text) ==> number(text@, max) == Some(n as nat)
                ==> all.contains(
                MetricV { name: "rocksdb.num_running_flushes"@, value: n, labels: Seq::empty() },
            )
        }),
{
    let a = MetricV {
        name: "rocksdb.actual_delayed_write_rate"@,
        value: n,
        labels: Seq::empty(),
    };
    let b = MetricV { name: "rocksdb.is_write_stopped"@, value: n, labels: Seq::empty() };
    let c = MetricV { name: "rocksdb.cur_size_all_mem_tables"@, value: n, labels: Seq::empty() };
    let d = MetricV { name: "rocksdb.num_running_compactions"@, value: n, labels: Seq::empty() };
    let e = MetricV { name: "rocksdb.num_running_flushes"@, value: n, labels: Seq::empty() };
    lemma_engine_metric(p, a);
    lemma_engine_metric(p, b);
    lemma_engine_metric(p, c);
    lemma_engine_metric(p, d);
    lemma_engine_metric(p, e);
    lemma_property_metric("rocksdb.actual_delayed_write_rate"@, p.actual_delayed_write_rate, a);
    lemma_property_metric("rocksdb.is_write_stopped"@, p.is_write_stopped, b);
    lemma_property_metric("rocksdb.cur_size_all_mem_tables"@, p.cur_size_all_mem_tables, c);
    lemma_property_metric("rocksdb.num_running_compactions"@, p.num_running_compactions, d);
    lemma_property_metric("rocksdb.num_running_flushes"@, p.num_running_flushes, e);
}

/// A stall time of a table, under its kind.
pub open spec fn stall_report(table: Seq<char>, kind: Seq<char>, micros: u64) -> MetricV {
    MetricV {
        name: "rocksdb.cfstats.stall_micros"@,
        value: micros,
        labels: seq![("cf"@, table), ("type"@, kind)],
    }
}

/// `m` reports one of the stall times in the statistics of a table.
pub open spec fn reports_stall(table: Seq<char>, text: Seq<char>, m: MetricV) -> bool {
    let s = stalls(text);
    ||| s.total is Some && m == stall_report(table, "total"@, s.total->0)
    ||| s.level0_slowdown is Some && m == stall_report(
        table,
        "level0_slowdown"@,
        s.level0_slowdown->0,
    )
    ||| s.level0_numfiles is Some && m == stall_report(
        table,
        "level0_numfiles"@,
        s.level0_numfiles->0,
    )
    ||| s.pending_compaction_bytes is Some && m == stall_report(
        table,
        "pending_compaction_bytes"@,
        s.pending_compaction_bytes->0,
    )
}

/// What a stall time that may be missing reports.
proof fn lemma_stall_metric(table: Seq<char>, kind: Seq<char>, micros: Option<u64>, m: MetricV)
    ensures
        stall_metric(table, kind, micros).contains(m) <==> micros is Some && m == stall_report(
            table,
            kind,
            micros->0,
        ),
{
    if micros is Some {
        assert(stall_metric(table, kind, micros)[0].labels =~= seq![
            ("cf"@, table),
            ("type"@, kind),
        ]);
    }
}

/// What the statistics of a table report.
proof fn lemma_table_metric(table: Seq<char>, cfstats: Option<String>, m: MetricV)
    ensures
        table_metrics(table, cfstats).contains(m) <==> cfstats is Some && reports_stall(
            table,
            cfstats->0@,
            m,
        ),
{
    if let Some(text) = cfstats {
        let s = stalls(text@);
        let a = stall_metric(table, "total"@, s.total);
        let b = stall_metric(table, "level0_slowdown"@, s.level0_slowdown);
        let c = stall_metric(table, "level0_numfiles"@, s.level0_numfiles);
        let d = stall_metric(table, "pending_compaction_bytes"@, s.pending_compaction_bytes);
        lemma_in_either(a, b, m);
        lemma_in_either(a + b, c, m);
        lemma_in_either(a + b + c, d, m);
        lemma_stall_metric(table, "total"@, s.total, m);
        lemma_stall_metric(table, "level0_slowdown"@, s.level0_slowdown, m);
        lemma_stall_metric(table, "level0_numfiles"@, s.level0_numfiles, m);
        lemma_stall_metric(table, "pending_compaction_bytes"@, s.pending_compaction_bytes, m);
    }
}

/// What the statistics of all tables report.
proof fn lemma_all_table_metric(cfstats: Seq<(String, Option<String>)>, m: MetricV)
    ensures
        all_table_metrics(cfstats).contains(m) <==> exists|i: int|
            0 <= i < cfstats.len() && (#[trigger] cfstats[i]).1 is Some && reports_stall(
                cfstats[i].0@,
                cfstats[i].1->0@,
                m,
            ),
    decreases cfstats.len(),
{
    if cfstats.len() > 0 {
        let rest = cfstats.drop_last();
        let last = cfstats.last();
        lemma_all_table_metric(rest, m);
        lemma_table_metric(last.0@, last.1, m);
        lemma_in_either(all_table_metrics(rest), table_metrics(last.0@, last.1), m);
        assert(cfstats[cfstats.len() - 1] == last);
        if all_table_metrics(rest).contains(m) {
            let i = choose|i: int|
                0 <= i < rest.len() && (#[trigger] rest[i]).1 is Some && reports_stall(
                    rest[i].0@,
                    rest[i].1->0@,
                    m,
                );
            assert(cfstats[i] == rest[i]);
        }
        if exists|i: int|
            0 <= i < cfstats.len() && (#[trigger] cfstats[i]).1 is Some && reports_stall(
                cfstats[i].0@,
                cfstats[i].1->0@,
                m,
            ) {
            let i = choose|i: int|
                0 <= i < cfstats.len() && (#[trigger] cfstats[i]).1 is Some && reports_stall(
                    cfstats[i].0@,
                    cfstats[i].1->0@,
                    m,
                );
            if i < rest.len() {
                assert(rest[i] == cfstats[i]);
            }
        }
    }
}

/// Every stall time in the statistics of every table is reported, with the table and the kind as
/// labels.
pub proof fn law_stalls_are_reported(p: EngineProperties, i: int, micros: u64)
    requires
        0 <= i < p.cfstats@.len(),
        p.cfstats@[i].1 is Some,
    ensures
        ({
            let all = engine_metrics(p);
            let table = p.cfstats@[i].0@;
            let s = stalls(p.cfstats@[i].1->0@);
            let name = "rocksdb.cfstats.stall_micros"@;
            &&& s.total == Some(micros) ==> all.contains(
                MetricV { name, value: micros, labels: seq![("cf"@, table), ("type"@, "total"@)] },
            )
            &&& s.level0_slowdown == Some(micros) ==> all.contains(
                MetricV {
                    name,
                    value: micros,
                    labels: seq![("cf"@, table), ("type"@, "level0_slowdown"@)],
                },
            )
            &&& s.level0_numfiles == Some(micros) ==> all.contains(
                MetricV {
                    name,
                    value: micros,
                    labels: seq![("cf"@, table), ("type"@, "level0_numfiles"@)],
                },
            )
            &&& s.pending_compaction_bytes == Some(micros) ==> all.contains(
                MetricV {
                    name,
                    value: micros,
                    labels: seq![("cf"@, table), ("type"@, "pending_compaction_bytes"@)],
                },
            )
        }),
{
    let table = p.cfstats@[i].0@;
    let a = stall_report(table, "total"@, micros);
    let b = stall_report(table, "level0_slowdown"@, micros);
    let c = stall_report(table, "level0_numfiles"@, micros);
    let d = stall_report(table, "pending_compaction_bytes"@, micros);
    lemma_engine_metric(p, a);
    lemma_engine_metric(p, b);
    lemma_engine_metric(p, c);
    lemma_engine_metric(p, d);
    lemma_all_table_metric(p.cfstats@, a);
    lemma_all_table_metric(p.cfstats@, b);
    lemma_all_table_metric(p.cfstats@, c);
    lemma_all_table_metric(p.cfstats@, d);
}

/// Nothing else is reported: a metric is a property that is a number, without labels, or a stall
/// time of a table.
pub proof fn law_nothing_else_is_reported(p: EngineProperties, m: MetricV)
    requires
        engine_metrics(p).contains(m),
    ensures
        m.labels.len() == 0 || exists|i: int|
            0 <= i < p.cfstats@.len() && (#[trigger] p.cfstats@[i]).1 is Some && reports_stall(
                p.cfstats@[i].0@,
                p.cfstats@[i].1->0@,
                m,
            ),
        m.labels.len() == 0 ==> exists|property: Option<String>|
            (property == p.actual_delayed_write_rate || property == p.is_write_stopped || property
                == p.cur_size_all_mem_tables || property == p.num_running_compactions || property
                == p.num_running_flushes) && property is Some && #[trigger] number(
                property->0@,
                u64::MAX as nat,
            ) is Some && m.value == number(property->0@, u64::MAX as nat)->0,
{
    lemma_engine_metric(p, m);
    lemma_all_table_metric(p.cfstats@, m);
    lemma_property_metric("rocksdb.actual_delayed_write_rate"@, p.actual_delayed_write_rate, m);
    lemma_property_metric("rocksdb.is_write_stopped"@, p.is_write_stopped, m);
    lemma_property_metric("rocksdb.cur_size_all_mem_tables"@, p.cur_size_all_mem_tables, m);
    lemma_property_metric("rocksdb.num_running_compactions"@, p.num_running_compactions, m);
    lemma_property_metric("rocksdb.num_running_flushes"@, p.num_running_flushes, m);
    if all_table_metrics(p.cfstats@).contains(m) {
        assert(m.labels.len() == 2);
    } else {
        let n = m.value as nat;
        if property_metric(
            "rocksdb.actual_delayed_write_rate"@,
            p.actual_delayed_write_rate,
        ).contains(m) {
            assert(number(p.actual_delayed_write_rate->0@, u64::MAX as nat)->0 == n);
        } else if property_metric("rocksdb.is_write_stopped"@, p.is_write_stopped).contains(m) {
            assert(number(p.is_write_stopped->0@, u64::MAX as nat)->0 == n);
        } else if property_metric(
            "rocksdb.cur_size_all_mem_tables"@,
            p.cur_size_all_mem_tables,
        ).contains(m) {
            assert(number(p.cur_size_all_mem_tables->0@, u64::MAX as nat)->0 == n);
        } else if property_metric(
            "rocksdb.num_running_compactions"@,
            p.num_running_compactions,
        ).contains(m) {
            assert(number(p.num_running_compactions->0@, u64::MAX as nat)->0 == n);
        } else {
            assert(number(p.num_running_flushes->0@, u64::MAX as nat)->0 == n);
        }
    }
}

/// A text has another in it where it is the other with something before and something after it,
/// and starts with it where nothing comes before.
pub proof fn law_text_contains(before: Seq<char>, p: Seq<char>, after: Seq<char>)
    ensures
        text_contains(before + p + after, p),
        text_starts(p + after, p),
{
    let s = before + p + after;
    let i = before.len() as int;
    assert(s.skip(i).take(p.len() as int) =~= p);
    assert(text_starts(s.skip(i), p));
    assert((p + after).take(p.len() as int) =~= p);
}

/// A text that has another in it is the other with something before and something after it.
pub proof fn law_text_contained(s: Seq<char>, p: Seq<char>)
    requires
        text_contains(s, p),
    ensures
        exists|i: int|
            0 <= i && i + p.len() <= s.len() && #[trigger] s.take(i) + p + s.skip(i + p.len()) == s,
{
    let i = choose|i: int| 0 <= i <= s.len() && #[trigger] text_starts(s.skip(i), p);
    assert(s.skip(i).take(p.len() as int) =~= s.subrange(i, i + p.len()));
    assert(s =~= s.take(i) + s.subrange(i, i + p.len()) + s.skip(i + p.len()));
    assert(s.take(i) + p + s.skip(i + p.len()) == s);
}

/// The sums of a text fit where that of every line with the heading does.
pub proof fn law_sums_fit(lines: Seq<Seq<char>>, line: Seq<char>, content: Seq<char>)
    requires
        stall_lines_fit(lines),
    ensures
        stall_lines_fit(Seq::empty()),
        !text_contains(trimmed(line), "Stall(us):"@) ==> stall_lines_fit(lines.push(line)),
        text_contains(trimmed(line), "Stall(us):"@) && trimmed(line) == "Stall(us):"@ + content
            ==> {
            let items = stall_items(stall_lines(lines), pieces(content, ','));
            stall_lines_fit(lines.push(line)) <==> (match items.level0_slowdown {
                Some(n) => n as int,
                None => 0,
            }) + (match items.level0_numfiles {
                Some(n) => n as int,
                None => 0,
            }) + (match items.pending_compaction_bytes {
                Some(n) => n as int,
                None => 0,
            }) <= u64::MAX
        },
{
    let heading = "Stall(us):"@;
    assert(lines.push(line).drop_last() =~= lines);
    if trimmed(line) == heading + content {
        assert(trimmed(line).take(heading.len() as int) =~= heading);
        assert(trimmed(line).skip(heading.len() as int) =~= content);
    }
}

/// All metrics can be computed where the sums of every table's statistics fit.
pub proof fn law_metrics_fit(p: EngineProperties)
    ensures
        metrics_fit(p) <==> forall|i: int|
            0 <= i < p.cfstats@.len() && (#[trigger] p.cfstats@[i]).1 is Some ==> stall_lines_fit(
                pieces(p.cfstats@[i].1->0@, '\n'),
            ),
{
    if metrics_fit(p) {
        assert forall|i: int|
            0 <= i < p.cfstats@.len() && (
            #[trigger] p.cfstats@[i]).1 is Some implies stall_lines_fit(
            pieces(p.cfstats@[i].1->0@, '\n'),
        ) by {
            assert(stalls_fit(p.cfstats@[i].1->0@));
        }
    }
}

/// Nothing is reported twice: there is one metric for each property that is a number, and one for
/// each stall time of each table.
pub proof fn law_metric_count(p: EngineProperties)
    ensures
        engine_metrics(p).len() == numbers_in(p.actual_delayed_write_rate) + numbers_in(
            p.is_write_stopped,
        ) + numbers_in(p.cur_size_all_mem_tables) + numbers_in(p.num_running_compactions)
            + numbers_in(p.num_running_flushes) + stalls_in(p.cfstats@),
{
    lemma_stall_count(p.cfstats@);
}

/// One where a property is a number, and otherwise none.
pub open spec fn numbers_in(property: Option<String>) -> int {
    if property is Some && number(property->0@, u64::MAX as nat) is Some {
        1
    } else {
        0
    }
}

/// One where there is a time, and otherwise none.
pub open spec fn times_in(micros: Option<u64>) -> int {
    if micros is Some {
        1
    } else {
        0
    }
}

/// How many stall times the statistics of some tables tell.
pub open spec fn stalls_in(cfstats: Seq<(String, Option<String>)>) -> int
    decreases cfstats.len(),
{
    if cfstats.len() == 0 {
        0
    } else {
        stalls_in(cfstats.drop_last()) + match cfstats.last().1 {
            Some(text) => times_in(stalls(text@).total) + times_in(stalls(text@).level0_slowdown)
                + times_in(stalls(text@).level0_numfiles) + times_in(
                stalls(text@).pending_compaction_bytes,
            ),
            None => 0,
        }
    }
}

proof fn lemma_stall_count(cfstats: Seq<(String, Option<String>)>)
    ensures
        all_table_metrics(cfstats).len() == stalls_in(cfstats),
    decreases cfstats.len(),
{
    if cfstats.len() > 0 {
        lemma_stall_count(cfstats.drop_last());
    }
}

} // verus!
