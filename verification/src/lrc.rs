//! Parser for synced lyrics in the LRC format: lines such as
//! `[01:02.50][01:40.00]Some words`, each `[mm:ss.xx]` tag a time at which the
//! words are sung.
use vstd::prelude::*;
use vstd::string::StrSliceExecFns;
use crate::text::{
    digit_value, lemma_decimal_value_prefix,
    all_digits, chars_of, copy_range, decimal_value, find_char, find_in, is_digit,
    lemma_find_char_found, parse_u64, spec_parse_u64, trim, trim_bounds, trim_start,
    trim_end, is_white_space,
};

verus! {

/// One timed lyric line, by its view: milliseconds and the words.
pub type Entry = (u64, Seq<char>);

// ---------------------------------------------------------------------------
// Timestamps
// ---------------------------------------------------------------------------

/// The end of the run of ASCII digits of `s` that starts at `i`.
pub open spec fn digit_run_end(s: Seq<char>, i: int) -> int
    decreases s.len() - i,
{
    if 0 <= i < s.len() && is_digit(s[i]) {
        digit_run_end(s, i + 1)
    } else {
        i
    }
}

/// Milliseconds written by the fraction digits `f` (one to three of them):
/// a tenth, a hundredth or a thousandth of a second each.
pub open spec fn fraction_millis(f: Seq<char>) -> int {
    if f.len() == 1 {
        decimal_value(f) * 100
    } else if f.len() == 2 {
        decimal_value(f) * 10
    } else {
        decimal_value(f)
    }
}

/// Seconds and milliseconds of the part of a tag after the minutes:
/// `ss` or `ss.f`, where the seconds are at most 59 and the fraction is read
/// from its leading digits, at most three of them, at least one.
pub open spec fn seconds_and_millis(rest: Seq<char>) -> Option<(u64, u64)> {
    match find_char(rest, '.', 0) {
        Some(d) => match spec_parse_u64(rest.take(d)) {
            Some(sec) => {
                if sec > 59 {
                    None
                } else {
                    let f = rest.subrange(d + 1, rest.len() as int);
                    let run = digit_run_end(f, 0);
                    let k = if run < 3 {
                        run
                    } else {
                        3
                    };
                    if k == 0 {
                        None
                    } else {
                        Some((sec, fraction_millis(f.take(k)) as u64))
                    }
                }
            },
            None => None,
        },
        None => match spec_parse_u64(rest) {
            Some(sec) => {
                if sec > 59 {
                    None
                } else {
                    Some((sec, 0))
                }
            },
            None => None,
        },
    }
}

/// The time `min:sec.ms` in milliseconds, in the wrapping arithmetic of `u64`.
pub open spec fn total_millis(min: u64, sec: u64, ms: u64) -> u64 {
    (((min * 60 + sec) * 1000 + ms) % 0x1_0000_0000_0000_0000) as u64
}

/// The time that a tag's text `mm:ss` or `mm:ss.fff` stands for, in
/// milliseconds. The minutes are the text before the first `:`, the seconds
/// part the text after it up to the next `:` if there is one.
pub open spec fn spec_parse_timestamp(tag: Seq<char>) -> Option<u64> {
    match find_char(tag, ':', 0) {
        None => None,
        Some(c1) => {
            let after = tag.subrange(c1 + 1, tag.len() as int);
            let rest = match find_char(after, ':', 0) {
                Some(c2) => after.take(c2),
                None => after,
            };
            match spec_parse_u64(tag.take(c1)) {
                None => None,
                Some(min) => match seconds_and_millis(rest) {
                    None => None,
                    Some(p) => Some(total_millis(min, p.0, p.1)),
                },
            }
        },
    }
}

proof fn lemma_digit_run_end(s: Seq<char>, i: int)
    requires
        0 <= i,
    ensures
        i <= digit_run_end(s, i) <= if i <= s.len() {
            s.len() as int
        } else {
            i
        },
        forall|j: int| i <= j < digit_run_end(s, i) ==> is_digit(#[trigger] s[j]),
        digit_run_end(s, i) < s.len() ==> !is_digit(s[digit_run_end(s, i)]),
    decreases s.len() - i,
{
    if 0 <= i < s.len() && is_digit(s[i]) {
        lemma_digit_run_end(s, i + 1);
    }
}

/// The time written by the tag text `tag`, in milliseconds.
fn timestamp_of(tag: &Vec<char>) -> (r: Option<u64>)
    ensures
        r == spec_parse_timestamp(tag@),
{
    let n = tag.len();
    let c1 = match find_in(tag, ':', 0) {
        Some(c) => c,
        None => return None,
    };
    proof {
        lemma_find_char_found(tag@, ':', 0);
    }
    let after = copy_range(tag, c1 + 1, n);
    let rest = match find_in(&after, ':', 0) {
        Some(c2) => {
            proof {
                lemma_find_char_found(after@, ':', 0);
            }
            copy_range(&after, 0, c2)
        },
        None => after,
    };
    let min_text = copy_range(tag, 0, c1);
    let min = match parse_u64(&min_text) {
        Some(m) => m,
        None => return None,
    };
    let sm = seconds_millis_of(&rest);
    match sm {
        Some((sec, ms)) => {
            let total: u128 = ((min as u128) * 60 + sec as u128) * 1000 + ms as u128;
            Some((total % 0x1_0000_0000_0000_0000u128) as u64)
        },
        None => None,
    }
}

fn seconds_millis_of(rest: &Vec<char>) -> (r: Option<(u64, u64)>)
    ensures
        r == seconds_and_millis(rest@),
        r matches Some(p) ==> p.0 <= 59 && p.1 <= 999,
{
    let n = rest.len();
    match find_in(rest, '.', 0) {
        Some(d) => {
            proof {
                lemma_find_char_found(rest@, '.', 0);
            }
            let sec_text = copy_range(rest, 0, d);
            let sec = match parse_u64(&sec_text) {
                Some(s) => s,
                None => return None,
            };
            if sec > 59 {
                return None;
            }
            let f = copy_range(rest, d + 1, n);
            let mut k: usize = 0;
            let mut val: u64 = 0;
            proof {
                lemma_digit_run_end(f@, 0);
            }
            while k < f.len() && k < 3 && '0' <= f[k] && f[k] <= '9'
                invariant
                    k <= 3,
                    k <= f.len(),
                    k <= digit_run_end(f@, 0),
                    all_digits(f@.take(k as int)),
                    val == decimal_value(f@.take(k as int)),
                    k == 0 ==> val == 0,
                    k == 1 ==> val <= 9,
                    k == 2 ==> val <= 99,
                    k == 3 ==> val <= 999,
                    forall|j: int| 0 <= j < digit_run_end(f@, 0) ==> is_digit(#[trigger] f@[j]),
                    digit_run_end(f@, 0) < f@.len() ==> !is_digit(f@[digit_run_end(f@, 0)]),
                    digit_run_end(f@, 0) <= f@.len(),
                decreases 3 - k,
            {
                let c = f[k];
                assert(f@.take(k + 1).drop_last() =~= f@.take(k as int));
                assert(all_digits(f@.take(k + 1))) by {
                    assert forall|j: int| 0 <= j < k + 1 implies is_digit(
                        #[trigger] f@.take(k + 1)[j],
                    ) by {
                        if j < k {
                            assert(f@.take(k + 1)[j] == f@.take(k as int)[j]);
                        }
                    }
                }
                val = val * 10 + (c as u32 - '0' as u32) as u64;
                k += 1;
            }
            let ghost run = digit_run_end(f@, 0);
            assert(k == (if run < 3 {
                run
            } else {
                3
            })) by {
                if k < 3 && k < f.len() {
                    assert(!is_digit(f@[k as int]));
                }
            }
            if k == 0 {
                return None;
            }
            let ms = if k == 1 {
                val * 100
            } else if k == 2 {
                val * 10
            } else {
                val
            };
            Some((sec, ms))
        },
        None => {
            let sec = match parse_u64(rest) {
                Some(s) => s,
                None => return None,
            };
            if sec > 59 {
                return None;
            }
            Some((sec, 0))
        },
    }
}

/// The time in milliseconds of an LRC time tag's text, such as `01:02.50`
/// (62500). `None` when the text is no time: no `:`, minutes that are not a
/// number, seconds over 59, or a `.` with no digit after it.
pub fn parse_timestamp(tag: &str) -> (r: Option<u64>)
    ensures
        r == spec_parse_timestamp(tag@),
{
    let chars = chars_of(tag);
    timestamp_of(&chars)
}

// ---------------------------------------------------------------------------
// Lines
// ---------------------------------------------------------------------------

/// `l` without one trailing carriage return.
pub open spec fn strip_cr(l: Seq<char>) -> Seq<char> {
    if l.len() > 0 && l.last() == '\r' {
        l.drop_last()
    } else {
        l
    }
}

/// The lines of `t` from position `start` on, as `str::lines` cuts them: at
/// each `\n`, dropping a `\r` just before it; a last line with no `\n`
/// after it counts when it is not empty.
pub open spec fn lines_from(t: Seq<char>, start: int) -> Seq<Seq<char>>
    decreases t.len() - start,
{
    if 0 <= start < t.len() {
        match find_char(t, '\n', start) {
            Some(k) => {
                proof {
                    lemma_find_char_found(t, '\n', start);
                }
                seq![strip_cr(t.subrange(start, k))] + lines_from(t, k + 1)
            },
            None => seq![t.subrange(start, t.len() as int)],
        }
    } else {
        seq![]
    }
}

/// The lines of the text `t`.
pub open spec fn lines_of(t: Seq<char>) -> Seq<Seq<char>> {
    lines_from(t, 0)
}

/// The time tags of `line` from position `i` on, each `[` paired with the
/// first `]` after it, scanning on after that `]`; for each tag whose text is
/// a time, the time and the position just after its `]`. A `[` with no `]`
/// after it ends the scan.
pub open spec fn time_tags(line: Seq<char>, i: int) -> Seq<(u64, int)>
    decreases line.len() - i,
{
    if 0 <= i < line.len() {
        if line[i] == '[' {
            match find_char(line, ']', i + 1) {
                Some(q) => {
                    proof {
                        lemma_find_char_found(line, ']', i + 1);
                    }
                    let later = time_tags(line, q + 1);
                    match spec_parse_timestamp(line.subrange(i + 1, q)) {
                        Some(t) => seq![(t, q + 1)] + later,
                        None => later,
                    }
                },
                None => seq![],
            }
        } else {
            time_tags(line, i + 1)
        }
    } else {
        seq![]
    }
}

/// The timed entries of one line: one per time tag, in the order of the
/// tags, each with the words after the last time tag, trimmed. A line with no
/// time tag gives none.
pub open spec fn line_entries(line: Seq<char>) -> Seq<Entry> {
    let tags = time_tags(line, 0);
    if tags.len() == 0 {
        seq![]
    } else {
        let words = trim(line.subrange(tags.last().1, line.len() as int));
        tags.map_values(|p: (u64, int)| (p.0, words))
    }
}

/// The timed entries of the text `t`, line after line, in text order.
pub open spec fn timed_entries(t: Seq<char>) -> Seq<Entry> {
    lines_of(t).map_values(|l: Seq<char>| line_entries(l)).flatten()
}

// ---------------------------------------------------------------------------
// Ordering by time
// ---------------------------------------------------------------------------

/// Where an entry with time `k` goes in `s`: after every entry whose time is
/// at most `k` counted from the end.
pub open spec fn insert_pos(s: Seq<Entry>, k: u64) -> int
    decreases s.len(),
{
    if s.len() == 0 {
        0
    } else if s.last().0 <= k {
        s.len() as int
    } else {
        insert_pos(s.drop_last(), k)
    }
}

/// `s` with `e` put after the last entry whose time is not later than `e`'s.
pub open spec fn insert_by_time(s: Seq<Entry>, e: Entry) -> Seq<Entry> {
    s.insert(insert_pos(s, e.0), e)
}

/// `s` ordered by time, entries of equal time in their order in `s`.
pub open spec fn sort_by_time(s: Seq<Entry>) -> Seq<Entry>
    decreases s.len(),
{
    if s.len() == 0 {
        s
    } else {
        insert_by_time(sort_by_time(s.drop_last()), s.last())
    }
}

/// What `parse_lrc` gives for the text `t`.
pub open spec fn spec_parse_lrc(t: Seq<char>) -> Seq<Entry> {
    sort_by_time(timed_entries(t))
}

/// The view of a list of timed lines.
pub open spec fn entries_view(v: Seq<(u64, String)>) -> Seq<Entry> {
    v.map_values(|e: (u64, String)| (e.0, e.1@))
}

/// Times never decrease along `s`.
pub open spec fn sorted_by_time(s: Seq<Entry>) -> bool {
    forall|i: int, j: int| 0 <= i < j < s.len() ==> #[trigger] s[i].0 <= #[trigger] s[j].0
}

/// The entries of `s` whose time is `k`, in their order in `s`.
pub open spec fn at_time(s: Seq<Entry>, k: u64) -> Seq<Entry> {
    s.filter(time_is(k))
}

/// The test that an entry's time is `k`.
pub open spec fn time_is(k: u64) -> spec_fn(Entry) -> bool {
    |e: Entry| e.0 == k
}

proof fn lemma_insert_pos(s: Seq<Entry>, k: u64)
    ensures
        0 <= insert_pos(s, k) <= s.len(),
        forall|i: int| insert_pos(s, k) <= i < s.len() ==> #[trigger] s[i].0 > k,
        insert_pos(s, k) > 0 ==> s[insert_pos(s, k) - 1].0 <= k,
    decreases s.len(),
{
    if s.len() > 0 && s.last().0 > k {
        lemma_insert_pos(s.drop_last(), k);
        assert forall|i: int| insert_pos(s, k) <= i < s.len() implies #[trigger] s[i].0 > k by {
            if i < s.len() - 1 {
                assert(s[i] == s.drop_last()[i]);
            }
        }
    }
}

#[verifier::rlimit(40)]
proof fn lemma_insert_keeps_order(s: Seq<Entry>, e: Entry)
    requires
        sorted_by_time(s),
    ensures
        sorted_by_time(insert_by_time(s, e)),
{
    let p = insert_pos(s, e.0);
    lemma_insert_pos(s, e.0);
    let r = insert_by_time(s, e);
    s.insert_ensures(p, e);
    assert forall|i: int, j: int| 0 <= i < j < r.len() implies #[trigger] r[i].0 <= #[trigger] r[j].0 by {
        if j < p {
            assert(r[i] == s[i] && r[j] == s[j]);
        } else if j == p {
            assert(r[j] == e);
            assert(r[i] == s[i]);
            assert(s[i].0 <= s[p - 1].0);
        } else if i < p {
            assert(r[j] == s[j - 1]);
            assert(r[i] == s[i]);
        } else if i == p {
            assert(r[i] == e);
            assert(r[j] == s[j - 1]);
        } else {
            assert(r[i] == s[i - 1] && r[j] == s[j - 1]);
        }
    }
}

proof fn lemma_insert_at_time(s: Seq<Entry>, e: Entry, k: u64)
    ensures
        at_time(insert_by_time(s, e), k) == if e.0 == k {
            at_time(s, k).push(e)
        } else {
            at_time(s, k)
        },
{
    broadcast use Seq::lemma_filter_push;

    let p = insert_pos(s, e.0);
    lemma_insert_pos(s, e.0);
    let front = s.subrange(0, p);
    let back = s.subrange(p, s.len() as int);
    assert(s =~= front + back);
    assert(insert_by_time(s, e) == front.push(e) + back);
    Seq::filter_distributes_over_add(front.push(e), back, time_is(k));
    Seq::filter_distributes_over_add(front, back, time_is(k));
    if e.0 == k {
        assert forall|i: int| 0 <= i < back.len() implies !(time_is(k))(#[trigger] back[i]) by {
            assert(back[i] == s[p + i]);
        }
        assert(back.all(|x: Entry| !(time_is(k))(x)));
        back.lemma_all_neg_filter_empty(time_is(k));
        assert(back.filter(time_is(k)) =~= Seq::<Entry>::empty());
    }
}

/// Ordering by time orders: times never decrease along the result, and the
/// entries of any one time come in the order in which they were given.
pub proof fn lemma_sort_by_time(s: Seq<Entry>)
    ensures
        sorted_by_time(sort_by_time(s)),
        forall|k: u64| #[trigger] at_time(sort_by_time(s), k) == at_time(s, k),
    decreases s.len(),
{
    broadcast use Seq::lemma_filter_push;

    if s.len() == 0 {
    } else {
        lemma_sort_by_time(s.drop_last());
        let inner = sort_by_time(s.drop_last());
        lemma_insert_keeps_order(inner, s.last());
        assert(s =~= s.drop_last().push(s.last()));
        assert forall|k: u64| #[trigger] at_time(sort_by_time(s), k) == at_time(s, k) by {
            lemma_insert_at_time(inner, s.last(), k);
            assert(at_time(inner, k) == at_time(s.drop_last(), k));
        }
    }
}

// ---------------------------------------------------------------------------
// Executable parser
// ---------------------------------------------------------------------------

/// The timed entries of one line, in the order of its time tags; the line
/// `line` stands in `text` from `line_start` on.
fn line_entries_of(text: &str, line_start: usize, line: &Vec<char>) -> (r: Vec<(u64, String)>)
    requires
        line_start + line@.len() <= text@.len() <= usize::MAX,
        text@.subrange(line_start as int, line_start + line@.len()) == line@,
    ensures
        entries_view(r@) == line_entries(line@),
{
    let n = line.len();
    let mut i: usize = 0;
    let mut stamps: Vec<u64> = Vec::new();
    let mut last_end: usize = 0;
    let ghost mut found: Seq<(u64, int)> = seq![];
    while i < n
        invariant
            i <= n == line.len(),
            time_tags(line@, 0) == found + time_tags(line@, i as int),
            stamps@ == found.map_values(|p: (u64, int)| p.0),
            found.len() > 0 ==> last_end == found.last().1,
            last_end <= n,
        ensures
            time_tags(line@, 0) == found,
            stamps@ == found.map_values(|p: (u64, int)| p.0),
            found.len() > 0 ==> last_end == found.last().1,
            last_end <= n,
        decreases n - i,
    {
        if line[i] == '[' {
            match find_in(line, ']', i + 1) {
                Some(end) => {
                    proof {
                        lemma_find_char_found(line@, ']', i + 1);
                    }
                    let tag = copy_range(line, i + 1, end);
                    match timestamp_of(&tag) {
                        Some(ts) => {
                            stamps.push(ts);
                            last_end = end + 1;
                            proof {
                                let old_found = found;
                                found = found.push((ts, end + 1));
                                assert(found.map_values(|p: (u64, int)| p.0) =~= old_found.map_values(
                                    |p: (u64, int)| p.0,
                                ).push(ts));
                                assert(old_found + time_tags(line@, i as int) =~= found
                                    + time_tags(line@, end + 1));
                            }
                        },
                        None => {},
                    }
                    i = end + 1;
                    continue ;
                },
                None => {
                    assert(found + time_tags(line@, i as int) =~= found);
                    break ;
                },
            }
        }
        i += 1;
    }
    assert(found + time_tags(line@, i as int) =~= found);
    let mut out: Vec<(u64, String)> = Vec::new();
    if stamps.len() == 0 {
        assert(entries_view(out@) =~= line_entries(line@));
        return out;
    }
    let (a, b) = trim_bounds(line, last_end);
    let words = text.substring_char(line_start + a, line_start + b).to_owned();
    assert(words@ =~= line@.subrange(a as int, b as int));
    let ghost target = line_entries(line@);
    assert(target =~= found.map_values(|p: (u64, int)| (p.0, words@)));
    let mut j: usize = 0;
    while j < stamps.len()
        invariant
            j <= stamps.len() == found.len() > 0,
            time_tags(line@, 0) == found,
            stamps@ == found.map_values(|p: (u64, int)| p.0),
            found.last().1 <= line@.len(),
            words@ == trim(line@.subrange(found.last().1, line@.len() as int)),
            target == line_entries(line@),
            target == found.map_values(|p: (u64, int)| (p.0, words@)),
            out@.len() == j,
            entries_view(out@) == target.take(j as int),
        decreases stamps.len() - j,
    {
        let ghost old_out = out@;
        out.push((stamps[j], words.clone()));
        proof {
            assert forall|k: int| 0 <= k < j implies entries_view(out@)[k] == target[k] by {
                assert(out@[k] == old_out[k]);
                assert(entries_view(old_out)[k] == target.take(j as int)[k]);
            }
            assert(stamps@[j as int] == found[j as int].0);
            assert(target[j as int] == (found[j as int].0, words@));
            assert(entries_view(out@) =~= target.take(j + 1));
        }
        j += 1;
    }
    assert(target.take(j as int) =~= target);
    out
}

/// Puts `e` into `out` after the last entry whose time is not later than `e`'s.
fn insert_entry(out: &mut Vec<(u64, String)>, e: (u64, String))
    ensures
        entries_view(final(out)@) == insert_by_time(entries_view(old(out)@), (e.0, e.1@)),
{
    let ghost ev = entries_view(out@);
    let mut p = out.len();
    assert(ev.take(p as int) =~= ev);
    while p > 0 && out[p - 1].0 > e.0
        invariant
            p <= out.len(),
            ev == entries_view(out@),
            insert_pos(ev, e.0) == insert_pos(ev.take(p as int), e.0),
        decreases p,
    {
        assert(ev.take(p as int).drop_last() =~= ev.take(p - 1));
        p -= 1;
    }
    assert(insert_pos(ev, e.0) == p);
    out.insert(p, e);
    proof {
        assert(entries_view(out@) =~= ev.insert(p as int, (e.0, e.1@)));
    }
}

proof fn lemma_lines_step(t: Seq<char>, start: int)
    requires
        0 <= start < t.len(),
    ensures
        lines_from(t, start).len() > 0,
        lines_from(t, start).map_values(|l: Seq<char>| line_entries(l)).flatten() == line_entries(
            lines_from(t, start)[0],
        ) + lines_from(t, start).drop_first().map_values(|l: Seq<char>| line_entries(l)).flatten(),
{
    let ls = lines_from(t, start);
    let m = ls.map_values(|l: Seq<char>| line_entries(l));
    assert(m.drop_first() =~= ls.drop_first().map_values(|l: Seq<char>| line_entries(l)));
}

/// The timed lines of an LRC text, ordered by time; lines of equal time keep
/// the order in which they stand in the text. Each line of the text may carry
/// several time tags; it gives one entry per tag that holds a time, all with
/// the words after the line's last time tag, trimmed. Other tags (`[ar:...]`)
/// and lines without a time tag give nothing.
pub fn parse_lrc(text: &str) -> (r: Vec<(u64, String)>)
    ensures
        entries_view(r@) == spec_parse_lrc(text@),
{
    let chars = chars_of(text);
    let n = chars.len();
    let ghost t = chars@;
    let mut out: Vec<(u64, String)> = Vec::new();
    let mut start: usize = 0;
    let ghost mut produced: Seq<Entry> = seq![];
    while start < n
        invariant
            start <= n == chars.len(),
            t == chars@,
            t == text@,
            timed_entries(t) == produced + lines_from(t, start as int).map_values(
                |l: Seq<char>| line_entries(l),
            ).flatten(),
            entries_view(out@) == sort_by_time(produced),
        decreases n - start,
    {
        proof {
            lemma_lines_step(t, start as int);
            lemma_find_char_found(t, '\n', start as int);
        }
        let (line, next) = match find_in(&chars, '\n', start) {
            Some(k) => {
                let end = if k > start && chars[k - 1] == '\r' {
                    k - 1
                } else {
                    k
                };
                proof {
                    assert(strip_cr(t.subrange(start as int, k as int)) =~= t.subrange(
                        start as int,
                        end as int,
                    ));
                }
                (copy_range(&chars, start, end), k + 1)
            },
            None => (copy_range(&chars, start, n), n),
        };
        assert(lines_from(t, start as int).drop_first() == lines_from(t, next as int));
        let entries = line_entries_of(text, start, &line);
        let ghost before = produced;
        let mut j: usize = 0;
        while j < entries.len()
            invariant
                j <= entries.len(),
                entries_view(entries@) == line_entries(line@),
                produced == before + line_entries(line@).take(j as int),
                entries_view(out@) == sort_by_time(produced),
            decreases entries.len() - j,
        {
            let e = (entries[j].0, entries[j].1.clone());
            insert_entry(&mut out, e);
            proof {
                let old_produced = produced;
                produced = produced.push(line_entries(line@)[j as int]);
                assert(produced.drop_last() =~= old_produced);
                assert(produced =~= before + line_entries(line@).take(j + 1));
            }
            j += 1;
        }
        proof {
            assert(line_entries(line@).take(j as int) =~= line_entries(line@));
            assert(lines_from(t, start as int)[0] == line@);
            assert(timed_entries(t) =~= produced + lines_from(t, next as int).map_values(
                |l: Seq<char>| line_entries(l),
            ).flatten());
        }
        start = next;
    }
    proof {
        assert(lines_from(t, start as int).map_values(|l: Seq<char>| line_entries(l)).flatten()
            =~= Seq::<Entry>::empty());
        assert(produced =~= timed_entries(t));
    }
    out
}

/// The lines that `parse_lrc` gives come in the order of their times, and the
/// lines of one time come in the order in which they stand in the text.
pub proof fn law_parse_lrc_ordered(t: Seq<char>)
    ensures
        sorted_by_time(spec_parse_lrc(t)),
        forall|k: u64| #[trigger] at_time(spec_parse_lrc(t), k) == at_time(timed_entries(t), k),
{
    lemma_sort_by_time(timed_entries(t));
}

/// The words of every entry have no white space at either end.
pub open spec fn all_trimmed(s: Seq<Entry>) -> bool {
    forall|i: int| 0 <= i < s.len() ==> trim(#[trigger] s[i].1) == s[i].1
}

proof fn lemma_trim_start_shape(s: Seq<char>)
    ensures
        exists|k: int| 0 <= k <= s.len() && trim_start(s) == s.subrange(k, s.len() as int),
        trim_start(s).len() > 0 ==> !is_white_space(trim_start(s)[0]),
    decreases s.len(),
{
    if s.len() > 0 && is_white_space(s[0]) {
        lemma_trim_start_shape(s.drop_first());
        let k = choose|k: int|
            0 <= k <= s.drop_first().len() && trim_start(s.drop_first()) == s.drop_first().subrange(
                k,
                s.drop_first().len() as int,
            );
        assert(s.drop_first().subrange(k, s.drop_first().len() as int) =~= s.subrange(
            k + 1,
            s.len() as int,
        ));
    } else {
        assert(s.subrange(0, s.len() as int) =~= s);
    }
}

proof fn lemma_trim_end_shape(s: Seq<char>)
    ensures
        exists|k: int| 0 <= k <= s.len() && trim_end(s) == s.take(k),
        trim_end(s).len() > 0 ==> !is_white_space(trim_end(s).last()),
        trim_end(trim_end(s)) == trim_end(s),
    decreases s.len(),
{
    if s.len() > 0 && is_white_space(s.last()) {
        lemma_trim_end_shape(s.drop_last());
        let k = choose|k: int|
            0 <= k <= s.drop_last().len() && trim_end(s.drop_last()) == s.drop_last().take(k);
        assert(s.drop_last().take(k) =~= s.take(k));
    } else {
        assert(s.take(s.len() as int) =~= s);
    }
}

/// Trimming twice is trimming once.
proof fn lemma_trim_idempotent(s: Seq<char>)
    ensures
        trim(trim(s)) == trim(s),
{
    let a = trim_start(s);
    lemma_trim_start_shape(s);
    lemma_trim_end_shape(a);
    let y = trim_end(a);
    let k = choose|k: int| 0 <= k <= a.len() && y == a.take(k);
    if y.len() > 0 {
        assert(y[0] == a[0]);
    }
    assert(trim_start(y) == y);
}

proof fn lemma_line_entries_trimmed(line: Seq<char>)
    ensures
        all_trimmed(line_entries(line)),
{
    let tags = time_tags(line, 0);
    if tags.len() > 0 {
        let words = trim(line.subrange(tags.last().1, line.len() as int));
        lemma_trim_idempotent(line.subrange(tags.last().1, line.len() as int));
        assert forall|i: int| 0 <= i < line_entries(line).len() implies trim(
            #[trigger] line_entries(line)[i].1,
        ) == line_entries(line)[i].1 by {
            assert(line_entries(line)[i].1 == words);
        }
    }
}

proof fn lemma_flatten_trimmed(ls: Seq<Seq<char>>)
    ensures
        all_trimmed(ls.map_values(|l: Seq<char>| line_entries(l)).flatten()),
    decreases ls.len(),
{
    let m = ls.map_values(|l: Seq<char>| line_entries(l));
    if ls.len() > 0 {
        lemma_flatten_trimmed(ls.drop_first());
        assert(m.drop_first() =~= ls.drop_first().map_values(|l: Seq<char>| line_entries(l)));
        lemma_line_entries_trimmed(ls[0]);
        let a = m.first();
        let b = m.drop_first().flatten();
        assert forall|i: int| 0 <= i < (a + b).len() implies trim(#[trigger] (a + b)[i].1) == (a
            + b)[i].1 by {
            if i < a.len() {
                assert((a + b)[i] == a[i]);
            } else {
                assert((a + b)[i] == b[i - a.len()]);
            }
        }
    }
}

proof fn lemma_sort_trimmed(s: Seq<Entry>)
    requires
        all_trimmed(s),
    ensures
        all_trimmed(sort_by_time(s)),
    decreases s.len(),
{
    if s.len() > 0 {
        assert(all_trimmed(s.drop_last())) by {
            assert forall|i: int| 0 <= i < s.drop_last().len() implies trim(
                #[trigger] s.drop_last()[i].1,
            ) == s.drop_last()[i].1 by {
                assert(s.drop_last()[i] == s[i]);
            }
        }
        lemma_sort_trimmed(s.drop_last());
        let inner = sort_by_time(s.drop_last());
        let p = insert_pos(inner, s.last().0);
        lemma_insert_pos(inner, s.last().0);
        inner.insert_ensures(p, s.last());
        let r = sort_by_time(s);
        assert forall|i: int| 0 <= i < r.len() implies trim(#[trigger] r[i].1) == r[i].1 by {
            if i < p {
                assert(r[i] == inner[i]);
            } else if i == p {
                assert(r[i] == s.last());
                assert(trim(s[s.len() - 1].1) == s[s.len() - 1].1);
            } else {
                assert(r[i] == inner[i - 1]);
            }
        }
    }
}

/// The words of every line that `parse_lrc` gives are trimmed: no white
/// space at either end.
pub proof fn law_parse_lrc_trimmed(t: Seq<char>)
    ensures
        all_trimmed(spec_parse_lrc(t)),
{
    lemma_flatten_trimmed(lines_of(t));
    lemma_sort_trimmed(timed_entries(t));
}

// ---------------------------------------------------------------------------
// Joining texts
// ---------------------------------------------------------------------------

/// The timed entries of the lines of `t` from `start` on.
pub open spec fn entries_from(t: Seq<char>, start: int) -> Seq<Entry> {
    lines_from(t, start).map_values(|l: Seq<char>| line_entries(l)).flatten()
}

proof fn lemma_find_char_shift(p: Seq<char>, b: Seq<char>, c: char, s: int)
    requires
        0 <= s,
    ensures
        find_char(p + b, c, p.len() + s) == match find_char(b, c, s) {
            Some(k) => Some(k + p.len()),
            None => None,
        },
    decreases b.len() - s,
{
    if s < b.len() {
        assert((p + b)[p.len() + s] == b[s]);
        if b[s] != c {
            lemma_find_char_shift(p, b, c, s + 1);
        }
    }
}

proof fn lemma_lines_shift(p: Seq<char>, b: Seq<char>, s: int)
    requires
        0 <= s,
    ensures
        lines_from(p + b, p.len() + s) == lines_from(b, s),
    decreases b.len() - s,
{
    let t = p + b;
    if s < b.len() {
        lemma_find_char_shift(p, b, '\n', s);
        lemma_find_char_found(b, '\n', s);
        match find_char(b, '\n', s) {
            Some(k) => {
                lemma_lines_shift(p, b, k + 1);
                assert(t.subrange(p.len() + s, k + p.len()) =~= b.subrange(s, k));
                assert(p.len() + k + 1 == (k + 1) + p.len());
            },
            None => {
                assert(t.subrange(p.len() + s, t.len() as int) =~= b.subrange(s, b.len() as int));
            },
        }
    }
}

proof fn lemma_find_char_prefix(a: Seq<char>, rest: Seq<char>, c: char, start: int)
    requires
        0 <= start <= a.len(),
    ensures
        find_char(a, c, start) matches Some(k) ==> find_char(a + rest, c, start) == Some(k),
        find_char(a, c, start) is None ==> find_char(a + rest, c, start) == find_char(
            a + rest,
            c,
            a.len() as int,
        ),
    decreases a.len() - start,
{
    if start < a.len() {
        assert((a + rest)[start] == a[start]);
        if a[start] != c {
            lemma_find_char_prefix(a, rest, c, start + 1);
        }
    }
}

proof fn lemma_find_char_push(y: Seq<char>, c: char, d: char, j: int)
    requires
        0 <= j,
        c != d,
    ensures
        find_char(y.push(c), d, j) == find_char(y, d, j),
    decreases y.len() + 1 - j,
{
    if j < y.len() {
        assert(y.push(c)[j] == y[j]);
        if y[j] != d {
            lemma_find_char_push(y, c, d, j + 1);
        }
    } else if j == y.len() {
        assert(y.push(c)[j] == c);
        assert(find_char(y.push(c), d, j + 1) is None);
    }
}

proof fn lemma_time_tags_bound(line: Seq<char>, i: int)
    requires
        0 <= i,
    ensures
        forall|j: int|
            0 <= j < time_tags(line, i).len() ==> i < (#[trigger] time_tags(line, i)[j]).1
                <= line.len(),
    decreases line.len() - i,
{
    if 0 <= i < line.len() {
        if line[i] == '[' {
            lemma_find_char_found(line, ']', i + 1);
            if let Some(q) = find_char(line, ']', i + 1) {
                lemma_time_tags_bound(line, q + 1);
                let later = time_tags(line, q + 1);
                if let Some(t) = spec_parse_timestamp(line.subrange(i + 1, q)) {
                    assert(time_tags(line, i) == seq![(t, q + 1)] + later);
                    assert forall|j: int| 0 <= j < time_tags(line, i).len() implies i < (
                    #[trigger] time_tags(line, i)[j]).1 <= line.len() by {
                        if j > 0 {
                            assert(time_tags(line, i)[j] == later[j - 1]);
                        }
                    }
                } else {
                    assert(time_tags(line, i) == later);
                }
            } else {
                assert(time_tags(line, i) =~= Seq::<(u64, int)>::empty());
            }
        } else {
            lemma_time_tags_bound(line, i + 1);
            assert(time_tags(line, i) == time_tags(line, i + 1));
        }
    }
}

/// A last character that is no bracket changes no time tag.
proof fn lemma_time_tags_push(y: Seq<char>, c: char, i: int)
    requires
        0 <= i,
        c != '[',
        c != ']',
    ensures
        time_tags(y.push(c), i) == time_tags(y, i),
    decreases y.len() + 1 - i,
{
    let yp = y.push(c);
    if i < y.len() {
        assert(yp[i] == y[i]);
        if y[i] == '[' {
            lemma_find_char_push(y, c, ']', i + 1);
            lemma_find_char_found(y, ']', i + 1);
            if let Some(q) = find_char(y, ']', i + 1) {
                lemma_time_tags_push(y, c, q + 1);
                assert(yp.subrange(i + 1, q) =~= y.subrange(i + 1, q));
            }
        } else {
            lemma_time_tags_push(y, c, i + 1);
        }
    } else if i == y.len() {
        assert(yp[i] == c);
        assert(time_tags(yp, i + 1) =~= Seq::<(u64, int)>::empty());
    }
}

proof fn lemma_trim_start_push(s: Seq<char>, w: char)
    requires
        is_white_space(w),
    ensures
        trim_start(s.push(w)) == if trim_start(s).len() == 0 {
            Seq::<char>::empty()
        } else {
            trim_start(s).push(w)
        },
    decreases s.len(),
{
    if s.len() == 0 {
        assert(s.push(w).drop_first() =~= Seq::<char>::empty());
        assert(s.push(w)[0] == w);
        assert(trim_start(Seq::<char>::empty()) =~= Seq::<char>::empty());
        assert(trim_start(s.push(w)) == trim_start(s.push(w).drop_first()));
    } else {
        assert(s.push(w)[0] == s[0]);
        if is_white_space(s[0]) {
            assert(s.push(w).drop_first() =~= s.drop_first().push(w));
            lemma_trim_start_push(s.drop_first(), w);
        }
    }
}

/// White space at the end of a text does not change its trimmed form.
proof fn lemma_trim_push_white(s: Seq<char>, w: char)
    requires
        is_white_space(w),
    ensures
        trim(s.push(w)) == trim(s),
{
    lemma_trim_start_push(s, w);
    let x = trim_start(s);
    if x.len() > 0 {
        assert(x.push(w).drop_last() =~= x);
    }
}

/// A carriage return at the end of a line changes none of its entries.
proof fn lemma_line_entries_strip_cr(x: Seq<char>)
    ensures
        line_entries(strip_cr(x)) == line_entries(x),
{
    if x.len() > 0 && x.last() == '\r' {
        let y = x.drop_last();
        assert(x =~= y.push('\r'));
        lemma_time_tags_push(y, '\r', 0);
        let tags = time_tags(y, 0);
        if tags.len() > 0 {
            lemma_time_tags_bound(y, 0);
            let e = tags.last().1;
            assert(0 < tags[tags.len() - 1].1 <= y.len());
            assert(x.subrange(e, x.len() as int) =~= y.subrange(e, y.len() as int).push('\r'));
            lemma_trim_push_white(y.subrange(e, y.len() as int), '\r');
        }
    }
}

proof fn lemma_entries_step(t: Seq<char>, start: int)
    requires
        0 <= start < t.len(),
    ensures
        entries_from(t, start) == line_entries(lines_from(t, start)[0]) + lines_from(
            t,
            start,
        ).drop_first().map_values(|l: Seq<char>| line_entries(l)).flatten(),
{
    lemma_lines_step(t, start);
}

proof fn lemma_entries_join(a: Seq<char>, b: Seq<char>, start: int)
    requires
        0 <= start <= a.len(),
    ensures
        entries_from(a + seq!['\n'] + b, start) == entries_from(a, start) + entries_from(b, 0),
    decreases a.len() - start,
{
    let nl = seq!['\n'];
    let t = a + nl + b;
    assert(t =~= a + (nl + b));
    assert(t =~= (a + nl) + b);
    assert(t[a.len() as int] == '\n');
    lemma_lines_shift(a + nl, b, 0);
    assert((a + nl).len() + 0 == a.len() + 1);
    lemma_find_char_found(t, '\n', start);
    lemma_find_char_prefix(a, nl + b, '\n', start);
    lemma_find_char_found(a, '\n', start);
    lemma_entries_step(t, start);
    let empty = Seq::<Seq<char>>::empty();
    assert(empty.map_values(|l: Seq<char>| line_entries(l)) =~= Seq::<Seq<Entry>>::empty());
    if start == a.len() {
        assert(find_char(t, '\n', start) == Some(start));
        assert(t.subrange(start, start) =~= Seq::<char>::empty());
        assert(lines_from(t, start).drop_first() == lines_from(b, 0));
        assert(line_entries(lines_from(t, start)[0]) =~= Seq::<Entry>::empty());
        assert(entries_from(a, start) =~= Seq::<Entry>::empty());
        assert(entries_from(t, start) =~= entries_from(a, start) + entries_from(b, 0));
    } else {
        match find_char(a, '\n', start) {
            Some(k) => {
                lemma_entries_join(a, b, k + 1);
                lemma_entries_step(a, start);
                assert(t.subrange(start, k) =~= a.subrange(start, k));
                assert(lines_from(t, start)[0] == lines_from(a, start)[0]);
                assert(lines_from(t, start).drop_first() == lines_from(t, k + 1));
                assert(lines_from(a, start).drop_first() == lines_from(a, k + 1));
                assert(entries_from(t, start) =~= entries_from(a, start) + entries_from(b, 0));
            },
            None => {
                let x = a.subrange(start, a.len() as int);
                assert(find_char(t, '\n', start) == Some(a.len() as int));
                assert(t.subrange(start, a.len() as int) =~= x);
                lemma_line_entries_strip_cr(x);
                assert(lines_from(t, start).drop_first() == lines_from(b, 0));
                assert(lines_from(a, start) == seq![x]);
                lemma_entries_step(a, start);
                assert(lines_from(a, start).drop_first() =~= empty);
                assert(entries_from(t, start) =~= entries_from(a, start) + entries_from(b, 0));
            },
        }
    }
}

/// Parsing two texts joined by a newline merges their two results by time,
/// stably: times never decrease, and the lines of each time are those of the
/// first text, in their order, then those of the second.
pub proof fn law_parse_lrc_join(a: Seq<char>, b: Seq<char>)
    ensures
        sorted_by_time(spec_parse_lrc(a + seq!['\n'] + b)),
        forall|k: u64|
            #[trigger] at_time(spec_parse_lrc(a + seq!['\n'] + b), k) == at_time(spec_parse_lrc(a), k)
                + at_time(spec_parse_lrc(b), k),
{
    let t = a + seq!['\n'] + b;
    lemma_entries_join(a, b, 0);
    assert(timed_entries(t) == timed_entries(a) + timed_entries(b));
    law_parse_lrc_ordered(t);
    law_parse_lrc_ordered(a);
    law_parse_lrc_ordered(b);
    assert forall|k: u64| #[trigger] at_time(spec_parse_lrc(t), k) == at_time(spec_parse_lrc(a), k)
        + at_time(spec_parse_lrc(b), k) by {
        Seq::filter_distributes_over_add(timed_entries(a), timed_entries(b), time_is(k));
    }
}

// ---------------------------------------------------------------------------
// Reading a time tag
// ---------------------------------------------------------------------------

proof fn lemma_find_char_absent(s: Seq<char>, c: char, from: int)
    requires
        0 <= from,
        forall|j: int| from <= j < s.len() ==> s[j] != c,
    ensures
        find_char(s, c, from) is None,
    decreases s.len() - from,
{
    if from < s.len() {
        lemma_find_char_absent(s, c, from + 1);
    }
}

/// Ten to the power `n`.
pub open spec fn power_of_ten(n: nat) -> int
    decreases n,
{
    if n == 0 {
        1
    } else {
        10 * power_of_ten((n - 1) as nat)
    }
}

proof fn lemma_decimal_value_below(s: Seq<char>)
    requires
        all_digits(s),
    ensures
        0 <= decimal_value(s) < power_of_ten(s.len()),
    decreases s.len(),
{
    if s.len() > 0 {
        assert(all_digits(s.drop_last())) by {
            assert forall|i: int| 0 <= i < s.drop_last().len() implies is_digit(
                #[trigger] s.drop_last()[i],
            ) by {
                assert(s.drop_last()[i] == s[i]);
            }
        }
        lemma_decimal_value_below(s.drop_last());
        assert(is_digit(s[s.len() - 1]));
    }
}

/// The value of two decimal digits.
pub open spec fn two_digit_value(a: char, b: char) -> int {
    10 * digit_value(a) + digit_value(b)
}

proof fn lemma_two_digits(a: char, b: char)
    requires
        is_digit(a),
        is_digit(b),
    ensures
        spec_parse_u64(seq![a, b]) == Some(two_digit_value(a, b) as u64),
        0 <= two_digit_value(a, b) <= 99,
{
    let s = seq![a, b];
    assert(s.drop_last() =~= seq![a]);
    assert(seq![a].drop_last() =~= Seq::<char>::empty());
    assert(decimal_value(Seq::<char>::empty()) == 0);
    assert(decimal_value(seq![a]) == digit_value(a));
    assert(s.last() == b);
    assert(all_digits(s));
    assert(decimal_value(s) == two_digit_value(a, b));
}

proof fn lemma_seconds_part(s1: char, s2: char, tail: Seq<char>)
    requires
        is_digit(s1),
        is_digit(s2),
        two_digit_value(s1, s2) <= 59,
        forall|j: int| 0 <= j < tail.len() ==> tail[j] != '.' && tail[j] != ':',
    ensures
        find_char(seq![s1, s2] + tail, ':', 0) is None,
{
    let r = seq![s1, s2] + tail;
    assert forall|j: int| 0 <= j < r.len() implies r[j] != ':' by {
        if j >= 2 {
            assert(r[j] == tail[j - 2]);
        }
    }
    lemma_find_char_absent(r, ':', 0);
}

/// A tag `mm:ss.f`, two digits of minutes, two of seconds (at most 59) and one
/// to three digits of fraction, is read as that time in milliseconds: one
/// fraction digit counts tenths, two hundredths, three thousandths.
pub proof fn law_timestamp_with_fraction(m1: char, m2: char, s1: char, s2: char, f: Seq<char>)
    requires
        is_digit(m1),
        is_digit(m2),
        is_digit(s1),
        is_digit(s2),
        two_digit_value(s1, s2) <= 59,
        all_digits(f),
        1 <= f.len() <= 3,
    ensures
        spec_parse_timestamp(seq![m1, m2, ':', s1, s2, '.'] + f) == Some(
            ((two_digit_value(m1, m2) * 60 + two_digit_value(s1, s2)) * 1000 + decimal_value(f) * (
            if f.len() == 1 {
                100int
            } else if f.len() == 2 {
                10int
            } else {
                1int
            })) as u64,
        ),
{
    let tag = seq![m1, m2, ':', s1, s2, '.'] + f;
    assert(tag[0] == m1 && tag[1] == m2 && tag[2] == ':');
    assert(find_char(tag, ':', 2) == Some(2int));
    assert(find_char(tag, ':', 1) == Some(2int));
    assert(find_char(tag, ':', 0) == Some(2int));
    let after = tag.subrange(3, tag.len() as int);
    assert(after =~= seq![s1, s2] + (seq!['.'] + f));
    assert forall|j: int| 0 <= j < (seq!['.'] + f).len() implies (seq!['.'] + f)[j] != ':' by {
        if j > 0 {
            assert((seq!['.'] + f)[j] == f[j - 1]);
            assert(is_digit(f[j - 1]));
        }
    }
    lemma_find_char_absent(after, ':', 3);
    assert(after[0] == s1 && after[1] == s2 && after[2] == '.');
    assert(find_char(after, ':', 2) is None);
    assert(find_char(after, ':', 1) is None);
    assert(find_char(after, ':', 0) is None);
    assert(tag.take(2) =~= seq![m1, m2]);
    lemma_two_digits(m1, m2);
    lemma_two_digits(s1, s2);
    let rest = after;
    assert(find_char(rest, '.', 2) == Some(2int));
    assert(find_char(rest, '.', 1) == Some(2int));
    assert(find_char(rest, '.', 0) == Some(2int));
    assert(rest.take(2) =~= seq![s1, s2]);
    let fr = rest.subrange(3, rest.len() as int);
    assert(fr =~= f);
    lemma_digit_run_end(f, 0);
    assert(digit_run_end(f, 0) == f.len());
    assert(f.take(f.len() as int) =~= f);
    lemma_decimal_value_prefix(f, 0);
    assert(f.take(0) =~= Seq::<char>::empty());
    let mv = two_digit_value(m1, m2);
    let sv = two_digit_value(s1, s2);
    let fv = decimal_value(f);
    lemma_decimal_value_below(f);
    assert(fv <= 999) by {
        reveal_with_fuel(power_of_ten, 4);
    }
    assert((mv * 60 + sv) * 1000 + fraction_millis(f) < 0x1_0000_0000_0000_0000);
}

/// A tag `mm:ss`, two digits of minutes and two of seconds (at most 59), is
/// read as that whole number of seconds in milliseconds.
pub proof fn law_timestamp_whole_seconds(m1: char, m2: char, s1: char, s2: char)
    requires
        is_digit(m1),
        is_digit(m2),
        is_digit(s1),
        is_digit(s2),
        two_digit_value(s1, s2) <= 59,
    ensures
        spec_parse_timestamp(seq![m1, m2, ':', s1, s2]) == Some(
            ((two_digit_value(m1, m2) * 60 + two_digit_value(s1, s2)) * 1000) as u64,
        ),
{
    let tag = seq![m1, m2, ':', s1, s2];
    assert(tag[0] == m1 && tag[1] == m2 && tag[2] == ':');
    assert(find_char(tag, ':', 2) == Some(2int));
    assert(find_char(tag, ':', 1) == Some(2int));
    assert(find_char(tag, ':', 0) == Some(2int));
    let after = tag.subrange(3, tag.len() as int);
    assert(after =~= seq![s1, s2]);
    lemma_find_char_absent(after, ':', 0);
    lemma_find_char_absent(after, '.', 0);
    assert(tag.take(2) =~= seq![m1, m2]);
    lemma_two_digits(m1, m2);
    lemma_two_digits(s1, s2);
}

proof fn lemma_find_char_at(s: Seq<char>, c: char, from: int, q: int)
    requires
        0 <= from <= q < s.len(),
        s[q] == c,
        forall|j: int| from <= j < q ==> s[j] != c,
    ensures
        find_char(s, c, from) == Some(q),
    decreases q - from,
{
    if from < q {
        lemma_find_char_at(s, c, from + 1, q);
    }
}

proof fn lemma_no_tags_without_open_bracket(line: Seq<char>, i: int)
    requires
        0 <= i,
        forall|j: int| i <= j < line.len() ==> line[j] != '[',
    ensures
        time_tags(line, i) == Seq::<(u64, int)>::empty(),
    decreases line.len() - i,
{
    if i < line.len() {
        lemma_no_tags_without_open_bracket(line, i + 1);
    }
}

/// A text that is one line `[tag]words`, whose tag is a time, with no `]` in
/// the tag, no `[` in the words and no line break, gives one timed line: the
/// tag's time with the words, trimmed.
pub proof fn law_single_timed_line(tag: Seq<char>, words: Seq<char>)
    requires
        spec_parse_timestamp(tag) is Some,
        forall|j: int| 0 <= j < tag.len() ==> tag[j] != ']' && tag[j] != '\n',
        forall|j: int| 0 <= j < words.len() ==> words[j] != '[' && words[j] != '\n',
    ensures
        spec_parse_lrc(seq!['['] + tag + seq![']'] + words) == seq![
            (spec_parse_timestamp(tag).unwrap(), trim(words)),
        ],
{
    let t = seq!['['] + tag + seq![']'] + words;
    let q: int = tag.len() as int + 1;
    assert forall|j: int| 0 <= j < t.len() implies t[j] != '\n' by {
        if 1 <= j < q {
            assert(t[j] == tag[j - 1]);
        } else if j > q {
            assert(t[j] == words[j - q - 1]);
        }
    }
    lemma_find_char_absent(t, '\n', 0);
    assert(t.subrange(0, t.len() as int) =~= t);
    assert(lines_of(t) == seq![t]);
    assert forall|j: int| 1 <= j < q implies t[j] != ']' by {
        assert(t[j] == tag[j - 1]);
    }
    assert(t[q] == ']');
    lemma_find_char_at(t, ']', 1, q);
    assert(t.subrange(1, q) =~= tag);
    assert forall|j: int| q + 1 <= j < t.len() implies t[j] != '[' by {
        assert(t[j] == words[j - q - 1]);
    }
    lemma_no_tags_without_open_bracket(t, q + 1);
    let ts = spec_parse_timestamp(tag).unwrap();
    assert(time_tags(t, 0) =~= seq![(ts, q + 1)]);
    assert(t.subrange(q + 1, t.len() as int) =~= words);
    assert(line_entries(t) =~= seq![(ts, trim(words))]);
    lemma_entries_step(t, 0);
    let empty = Seq::<Seq<char>>::empty();
    assert(lines_from(t, 0).drop_first() =~= empty);
    assert(empty.map_values(|l: Seq<char>| line_entries(l)) =~= Seq::<Seq<Entry>>::empty());
    assert(timed_entries(t) =~= seq![(ts, trim(words))]);
    let e = seq![(ts, trim(words))];
    assert(e.drop_last() =~= Seq::<Entry>::empty());
    assert(sort_by_time(e.drop_last()) =~= Seq::<Entry>::empty());
    assert(sort_by_time(e) =~= e);
}

} // verus!
