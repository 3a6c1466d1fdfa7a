//! Statistics of the database engine: stall times and the metrics made of them.

use vstd::prelude::*;
use vstd::slice::slice_subrange;

use crate::text::{
    chars_of, contains, find, first_of, number, parse_u64, pieces, same_text, split, starts,
    text_contains, text_starts, trim, trimmed, views,
};

verus! {

/// Stall times in microseconds.
#[derive(Debug, Clone, Copy, PartialEq, Eq)]
pub struct StallMicros {
    /// All of it.
    pub total: Option<u64>,
    /// Caused by slowdown at level 0.
    pub level0_slowdown: Option<u64>,
    /// Caused by the limit on files at level 0.
    pub level0_numfiles: Option<u64>,
    /// Caused by the limit on bytes that wait for compaction.
    pub pending_compaction_bytes: Option<u64>,
}

/// No times.
pub open spec fn no_stalls() -> StallMicros {
    StallMicros {
        total: None,
        level0_slowdown: None,
        level0_numfiles: None,
        pending_compaction_bytes: None,
    }
}

/// `r` with the time of one kind of stall.
pub open spec fn with_stall(r: StallMicros, key: Seq<char>, micros: u64) -> StallMicros {
    if key == "level0_slowdown"@ {
        StallMicros { level0_slowdown: Some(micros), ..r }
    } else if key == "level0_numfiles"@ || key == "level0_numfiles_limit"@ {
        StallMicros { level0_numfiles: Some(micros), ..r }
    } else if key == "pending_compaction_bytes"@ || key == "pending_compaction_bytes_limit"@ {
        StallMicros { pending_compaction_bytes: Some(micros), ..r }
    } else {
        r
    }
}

/// `r` after one item, a kind of stall and its time with a colon between them. Any other item
/// changes nothing.
pub open spec fn stall_item(r: StallMicros, item: Seq<char>) -> StallMicros {
    let p = trimmed(item);
    let n = first_of(p, ':') as int;
    if n >= p.len() {
        r
    } else {
        match number(trimmed(p.skip(n + 1)), u64::MAX as nat) {
            Some(micros) => with_stall(r, trimmed(p.take(n)), micros as u64),
            None => r,
        }
    }
}

/// `r` after a list of items.
pub open spec fn stall_items(r: StallMicros, items: Seq<Seq<char>>) -> StallMicros
    decreases items.len(),
{
    if items.len() == 0 {
        r
    } else {
        stall_item(stall_items(r, items.drop_last()), items.last())
    }
}

/// A time that may be missing.
pub open spec fn micros_or_zero(v: Option<u64>) -> int {
    match v {
        Some(v) => v as int,
        None => 0,
    }
}

/// The sum of the single times.
pub open spec fn stall_sum(r: StallMicros) -> int {
    micros_or_zero(r.level0_slowdown) + micros_or_zero(r.level0_numfiles) + micros_or_zero(
        r.pending_compaction_bytes,
    )
}

/// What a line of statistics says after its heading.
pub open spec fn stall_content(line: Seq<char>) -> Seq<char> {
    let heading = "Stall(us):"@;
    if text_starts(line, heading) {
        line.skip(heading.len() as int)
    } else {
        line
    }
}

/// The line is about stall times.
pub open spec fn is_stall_line(line: Seq<char>) -> bool {
    text_contains(trimmed(line), "Stall(us):"@)
}

/// The single times after a line of statistics.
pub open spec fn stall_line_items(r: StallMicros, line: Seq<char>) -> StallMicros {
    stall_items(r, pieces(stall_content(trimmed(line)), ','))
}

/// `r` after a line of statistics. A line that is not about stall times changes nothing.
pub open spec fn stall_line(r: StallMicros, line: Seq<char>) -> StallMicros {
    if is_stall_line(line) {
        let next = stall_line_items(r, line);
        if stall_sum(next) > 0 {
            StallMicros { total: Some(stall_sum(next) as u64), ..next }
        } else {
            next
        }
    } else {
        r
    }
}

/// The times after some lines.
pub open spec fn stall_lines(lines: Seq<Seq<char>>) -> StallMicros
    decreases lines.len(),
{
    if lines.len() == 0 {
        no_stalls()
    } else {
        stall_line(stall_lines(lines.drop_last()), lines.last())
    }
}

/// No line makes a sum that does not fit.
pub open spec fn stall_lines_fit(lines: Seq<Seq<char>>) -> bool
    decreases lines.len(),
{
    lines.len() == 0 || stall_lines_fit(lines.drop_last()) && (is_stall_line(lines.last())
        ==> stall_sum(stall_line_items(stall_lines(lines.drop_last()), lines.last())) <= u64::MAX)
}

/// The stall times in the statistics `text`.
pub open spec fn stalls(text: Seq<char>) -> StallMicros {
    stall_lines(pieces(text, '\n'))
}

/// No sum of stall times in `text` is too large.
pub open spec fn stalls_fit(text: Seq<char>) -> bool {
    stall_lines_fit(pieces(text, '\n'))
}

/// `r` after one item.
fn read_item(r: StallMicros, item: &Vec<char>) -> (out: StallMicros)
    ensures
        out == stall_item(r, item@),
{
    let p = trim(item.as_slice());
    let n = find(p.as_slice(), ':');
    if n == p.len() {
        return r;
    }
    let key = trim(slice_subrange(p.as_slice(), 0, n));
    let value = trim(slice_subrange(p.as_slice(), n + 1, p.len()));
    proof {
        assert(p@.subrange(0, n as int) =~= p@.take(n as int));
        assert(p@.subrange(n + 1, p@.len() as int) =~= p@.skip(n + 1));
    }
    match parse_u64(value.as_slice()) {
        Some(micros) => {
            let k = key.as_slice();
            if same_text(k, chars_of("level0_slowdown").as_slice()) {
                StallMicros { level0_slowdown: Some(micros), ..r }
            } else if same_text(k, chars_of("level0_numfiles").as_slice()) || same_text(
                k,
                chars_of("level0_numfiles_limit").as_slice(),
            ) {
                StallMicros { level0_numfiles: Some(micros), ..r }
            } else if same_text(k, chars_of("pending_compaction_bytes").as_slice()) || same_text(
                k,
                chars_of("pending_compaction_bytes_limit").as_slice(),
            ) {
                StallMicros { pending_compaction_bytes: Some(micros), ..r }
            } else {
                r
            }
        },
        None => r,
    }
}

/// The single times after a line about stall times.
fn read_line_items(r: StallMicros, line: &Vec<char>) -> (out: StallMicros)
    ensures
        out == stall_items(r, pieces(stall_content(line@), ',')),
{
    let heading = chars_of("Stall(us):");
    let items = if starts(line.as_slice(), heading.as_slice()) {
        assert(line@.subrange(heading@.len() as int, line@.len() as int) =~= line@.skip(
            heading@.len() as int,
        ));
        split(slice_subrange(line.as_slice(), heading.len(), line.len()), ',')
    } else {
        split(line.as_slice(), ',')
    };
    let ghost all = views(items@);
    let mut out = r;
    let mut i: usize = 0;
    assert(all.take(0) =~= Seq::empty());
    while i < items.len()
        invariant
            i <= items@.len(),
            all == views(items@),
            out == stall_items(r, all.take(i as int)),
        decreases items@.len() - i,
    {
        proof {
            assert(all.take(i + 1).drop_last() =~= all.take(i as int));
            assert(all.take(i + 1).last() == items@[i as int]@);
        }
        out = read_item(out, &items[i]);
        i += 1;
    }
    assert(all.take(i as int) =~= all);
    out
}

/// The sum of the single times, where it fits.
fn checked_sum(r: StallMicros) -> (out: Option<u64>)
    ensures
        out is Some <==> stall_sum(r) <= u64::MAX,
        out matches Some(n) ==> n == stall_sum(r),
{
    let a: u64 = r.level0_slowdown.unwrap_or(0);
    let b: u64 = r.level0_numfiles.unwrap_or(0);
    let c: u64 = r.pending_compaction_bytes.unwrap_or(0);
    match a.checked_add(b) {
        Some(ab) => ab.checked_add(c),
        None => None,
    }
}

/// The stall times in the statistics of a column family, or nothing where a sum does not fit.
pub fn checked_stall_micros(cfstats: &str) -> (r: Option<StallMicros>)
    ensures
        r is Some <==> stalls_fit(cfstats@),
        r matches Some(m) ==> m == stalls(cfstats@),
{
    let text = chars_of(cfstats);
    let lines = split(text.as_slice(), '\n');
    let ghost all = views(lines@);
    let heading = chars_of("Stall(us):");
    let mut result = StallMicros {
        total: None,
        level0_slowdown: None,
        level0_numfiles: None,
        pending_compaction_bytes: None,
    };
    let mut i: usize = 0;
    assert(all.take(0) =~= Seq::empty());
    while i < lines.len()
        invariant
            i <= lines@.len(),
            all == views(lines@),
            all == pieces(cfstats@, '\n'),
            heading@ == "Stall(us):"@,
            result == stall_lines(all.take(i as int)),
            stall_lines_fit(all.take(i as int)),
        decreases lines@.len() - i,
    {
        let line = trim(lines[i].as_slice());
        proof {
            assert(all.take(i + 1).drop_last() =~= all.take(i as int));
            assert(all.take(i + 1).last() == lines@[i as int]@);
        }
        if contains(line.as_slice(), heading.as_slice()) {
            result = read_line_items(result, &line);
            match checked_sum(result) {
                Some(total) => {
                    if total > 0 {
                        result = StallMicros { total: Some(total), ..result };
                    }
                },
                None => {
                    proof {
                        lemma_unfit(all, i + 1);
                    }
                    return None;
                },
            }
        }
        i += 1;
    }
    assert(all.take(i as int) =~= all);
    Some(result)
}

/// Lines stay unfit whatever follows.
proof fn lemma_unfit(lines: Seq<Seq<char>>, n: int)
    requires
        0 <= n <= lines.len(),
        !stall_lines_fit(lines.take(n)),
    ensures
        !stall_lines_fit(lines),
    decreases lines.len(),
{
    if n == lines.len() {
        assert(lines.take(n) =~= lines);
    } else {
        assert(lines.drop_last().take(n) =~= lines.take(n));
        lemma_unfit(lines.drop_last(), n);
    }
}

/// The stall times in the statistics of a column family.
pub fn parse_stall_micros_from_cfstats(cfstats: &str) -> (r: StallMicros)
    requires
        stalls_fit(cfstats@),
    ensures
        r == stalls(cfstats@),
{
    checked_stall_micros(cfstats).unwrap()
}

/// A line that is not about stall times does not count, wherever it stands.
proof fn lemma_line_left_out(a: Seq<Seq<char>>, line: Seq<char>, b: Seq<Seq<char>>)
    requires
        !is_stall_line(line),
    ensures
        stall_lines(a.push(line) + b) == stall_lines(a + b),
    decreases b.len(),
{
    if b.len() == 0 {
        assert(a.push(line) + b =~= a.push(line));
        assert(a + b =~= a);
        assert(a.push(line).drop_last() =~= a);
    } else {
        lemma_line_left_out(a, line, b.drop_last());
        assert((a.push(line) + b).drop_last() =~= a.push(line) + b.drop_last());
        assert((a + b).drop_last() =~= a + b.drop_last());
    }
}

/// A line of the statistics that is not about stall times changes nothing: a text with such a
/// line in it tells the same times as the text without it.
pub proof fn law_other_lines_do_not_count(
    with_line: Seq<char>,
    without_line: Seq<char>,
    a: Seq<Seq<char>>,
    line: Seq<char>,
    b: Seq<Seq<char>>,
)
    requires
        !is_stall_line(line),
        pieces(with_line, '\n') == a.push(line) + b,
        pieces(without_line, '\n') == a + b,
    ensures
        stalls(with_line) == stalls(without_line),
{
    lemma_line_left_out(a, line, b);
}

} // verus!
