//! LRC lyrics: parsing into timed lines, and merging a translation under the
//! original lines.
use std::collections::HashMap;
use vstd::prelude::*;
use crate::text::{
    chars_of, find_char, find_in, is_ws, lemma_find_char, lemma_find_char_absent,
    lemma_find_char_at, string_from_chars, string_from_range, trim, trim_range,
};
use crate::timestamp::{
    parse_offset_in, parse_time_in, push_fmt_time, spec_fmt_time, spec_parse_offset,
    spec_parse_time,
};

verus! {

/// One timed line of lyrics; `time` is in nanoseconds from the start of the track.
#[derive(Debug, Clone)]
pub struct LyricLine {
    pub time: u128,
    pub text: String,
}

impl View for LyricLine {
    type V = (u128, Seq<char>);

    open spec fn view(&self) -> (u128, Seq<char>) {
        (self.time, self.text@)
    }
}

/// Parsed lyrics: the timed lines, and the `[offset:]` tag in milliseconds
/// (signed).  The engine adds the offset to the playback position before it
/// looks for the current line, so a positive offset shows every line that
/// much earlier.
#[derive(Debug, Clone)]
pub struct Lyrics {
    pub lines: Vec<LyricLine>,
    pub offset_ms: i64,
}

pub open spec fn line_views(v: Seq<LyricLine>) -> Seq<(u128, Seq<char>)> {
    v.map_values(|l: LyricLine| l@)
}

impl Lyrics {
    pub open spec fn spec_lines(&self) -> Seq<(u128, Seq<char>)> {
        line_views(self.lines@)
    }
}

impl Default for Lyrics {
    fn default() -> (r: Lyrics)
        ensures
            r.lines@.len() == 0,
            r.offset_ms == 0,
    {
        Lyrics { lines: Vec::new(), offset_ms: 0 }
    }
}

/// A line without the `\r` of a `\r\n` ending.
pub open spec fn strip_cr(l: Seq<char>) -> Seq<char> {
    if l.len() > 0 && l.last() == '\r' {
        l.drop_last()
    } else {
        l
    }
}

/// What `str::lines` yields: lines end at `\n` or `\r\n`; a final line ending
/// adds no empty line.
pub open spec fn spec_lines(s: Seq<char>) -> Seq<Seq<char>>
    decreases s.len(),
{
    if s.len() == 0 {
        seq![]
    } else {
        match find_char(s, '\n') {
            None => seq![s],
            Some(i) => {
                proof {
                    lemma_find_char(s, '\n');
                }
                seq![strip_cr(s.take(i))] + spec_lines(s.skip(i + 1))
            },
        }
    }
}

/// The bracketed tags at the front of a line, and what follows the last
/// complete one: each round takes the text between the first `[` and the
/// first `]` after it.
pub open spec fn scan_tags(s: Seq<char>) -> (Seq<Seq<char>>, Seq<char>)
    decreases s.len(),
{
    match find_char(s, '[') {
        None => (seq![], s),
        Some(o) => {
            proof {
                lemma_find_char(s, '[');
            }
            let after = s.skip(o + 1);
            match find_char(after, ']') {
                None => (seq![], s),
                Some(c) => {
                    proof {
                        lemma_find_char(after, ']');
                    }
                    let next = scan_tags(after.skip(c + 1));
                    (seq![after.take(c)] + next.0, next.1)
                },
            }
        },
    }
}

/// The times of the tags that are timestamps, in order.
pub open spec fn stamps(tags: Seq<Seq<char>>) -> Seq<u128>
    decreases tags.len(),
{
    if tags.len() == 0 {
        seq![]
    } else {
        let p = stamps(tags.drop_last());
        match spec_parse_time(tags.last()) {
            Some(t) => p.push(t),
            None => p,
        }
    }
}

/// The offset after the tags: the last `offset:` tag that is not a timestamp wins.
pub open spec fn offset_after(tags: Seq<Seq<char>>, o: i64) -> i64
    decreases tags.len(),
{
    if tags.len() == 0 {
        o
    } else {
        let p = offset_after(tags.drop_last(), o);
        let t = tags.last();
        if spec_parse_time(t) is Some {
            p
        } else {
            match spec_parse_offset(t) {
                Some(v) => v,
                None => p,
            }
        }
    }
}

/// The timed lines one line of LRC gives: one per timestamp, all with the
/// trimmed text after the tags; none when that text is empty.
pub open spec fn line_entries(line: Seq<char>) -> Seq<(u128, Seq<char>)> {
    let text = trim(scan_tags(line).1);
    if text.len() == 0 {
        seq![]
    } else {
        stamps(scan_tags(line).0).map_values(|t: u128| (t, text))
    }
}

/// The timed lines of all lines, in file order.
pub open spec fn collected(ls: Seq<Seq<char>>) -> Seq<(u128, Seq<char>)>
    decreases ls.len(),
{
    if ls.len() == 0 {
        seq![]
    } else {
        collected(ls.drop_last()) + line_entries(ls.last())
    }
}

/// The offset after all lines; 0 when there is no offset tag.
pub open spec fn offset_of_lines(ls: Seq<Seq<char>>) -> i64
    decreases ls.len(),
{
    if ls.len() == 0 {
        0
    } else {
        offset_after(scan_tags(ls.last()).0, offset_of_lines(ls.drop_last()))
    }
}

/// `x` placed into `s` after every element whose time is not later than its own.
pub open spec fn insert_by_time(s: Seq<(u128, Seq<char>)>, x: (u128, Seq<char>)) -> Seq<
    (u128, Seq<char>),
>
    decreases s.len(),
{
    if s.len() == 0 {
        seq![x]
    } else if s[0].0 > x.0 {
        seq![x] + s
    } else {
        seq![s[0]] + insert_by_time(s.drop_first(), x)
    }
}

/// The stable sort by time (what `sort_by_key(|l| l.time)` gives).
pub open spec fn sort_by_time(s: Seq<(u128, Seq<char>)>) -> Seq<(u128, Seq<char>)>
    decreases s.len(),
{
    if s.len() == 0 {
        seq![]
    } else {
        insert_by_time(sort_by_time(s.drop_last()), s.last())
    }
}

/// Inserts each of `es`, in order, with `insert_by_time`.
pub open spec fn insert_all(s: Seq<(u128, Seq<char>)>, es: Seq<(u128, Seq<char>)>) -> Seq<
    (u128, Seq<char>),
>
    decreases es.len(),
{
    if es.len() == 0 {
        s
    } else {
        insert_by_time(insert_all(s, es.drop_last()), es.last())
    }
}

pub proof fn lemma_sort_append(c: Seq<(u128, Seq<char>)>, es: Seq<(u128, Seq<char>)>)
    ensures
        sort_by_time(c + es) == insert_all(sort_by_time(c), es),
    decreases es.len(),
{
    if es.len() == 0 {
        assert(c + es =~= c);
    } else {
        lemma_sort_append(c, es.drop_last());
        assert((c + es).drop_last() =~= c + es.drop_last());
        assert((c + es).last() == es.last());
    }
}

proof fn lemma_insert_at(s: Seq<(u128, Seq<char>)>, x: (u128, Seq<char>), k: int)
    requires
        0 <= k <= s.len(),
        forall|j: int| 0 <= j < k ==> s[j].0 <= x.0,
        k < s.len() ==> s[k].0 > x.0,
    ensures
        insert_by_time(s, x) == s.take(k) + seq![x] + s.skip(k),
    decreases k,
{
    if s.len() == 0 {
        assert(s.take(k) + seq![x] + s.skip(k) =~= seq![x]);
    } else if k == 0 {
        assert(s.take(k) + seq![x] + s.skip(k) =~= seq![x] + s);
    } else {
        lemma_insert_at(s.drop_first(), x, k - 1);
        assert(s.take(k) + seq![x] + s.skip(k) =~= seq![s[0]] + (s.drop_first().take(k - 1)
            + seq![x] + s.drop_first().skip(k - 1)));
    }
}

/// Inserts `line` into `lines` with `insert_by_time`.
fn insert_line(lines: &mut Vec<LyricLine>, line: LyricLine)
    ensures
        line_views(final(lines)@) == insert_by_time(line_views(old(lines)@), line@),
{
    let mut k: usize = 0;
    while k < lines.len() && lines[k].time <= line.time
        invariant
            0 <= k <= lines@.len(),
            forall|j: int| 0 <= j < k ==> lines@[j].time <= line.time,
        decreases lines@.len() - k,
    {
        k = k + 1;
    }
    let ghost before = line_views(lines@);
    proof {
        lemma_insert_at(before, line@, k as int);
    }
    lines.insert(k, line);
    assert(line_views(lines@) =~= before.take(k as int) + seq![line@] + before.skip(k as int));
}

proof fn lemma_lines_step(s: Seq<char>, start: int, pos: int)
    requires
        0 <= start <= pos < s.len(),
        s[pos] == '\n',
        forall|j: int| start <= j < pos ==> s[j] != '\n',
    ensures
        spec_lines(s.subrange(start, s.len() as int)) == seq![
            strip_cr(s.subrange(start, pos)),
        ] + spec_lines(s.subrange(pos + 1, s.len() as int)),
{
    let t = s.subrange(start, s.len() as int);
    lemma_find_char_at(t, '\n', pos - start);
    assert(t.take(pos - start) =~= s.subrange(start, pos));
    assert(t.skip(pos - start + 1) =~= s.subrange(pos + 1, s.len() as int));
}

proof fn lemma_lines_last(s: Seq<char>, start: int)
    requires
        0 <= start <= s.len(),
        forall|j: int| start <= j < s.len() ==> s[j] != '\n',
    ensures
        spec_lines(s.subrange(start, s.len() as int)) == (if start < s.len() {
            seq![s.subrange(start, s.len() as int)]
        } else {
            Seq::<Seq<char>>::empty()
        }),
{
    let t = s.subrange(start, s.len() as int);
    lemma_find_char_absent(t, '\n');
}


/// Adds the timed lines of the LRC line `cs[lo..hi]` to `lines`, and follows
/// its `[offset:]` tags.
fn parse_line(cs: &Vec<char>, lo: usize, hi: usize, lines: &mut Vec<LyricLine>, offset: &mut i64)
    requires
        lo <= hi <= cs@.len(),
    ensures
        line_views(final(lines)@) == insert_all(
            line_views(old(lines)@),
            line_entries(cs@.subrange(lo as int, hi as int)),
        ),
        *final(offset) == offset_after(
            scan_tags(cs@.subrange(lo as int, hi as int)).0,
            *old(offset),
        ),
{
    let ghost whole = scan_tags(cs@.subrange(lo as int, hi as int));
    let ghost o0 = *offset;
    let ghost mut done: Seq<Seq<char>> = seq![];
    let mut times: Vec<u128> = Vec::new();
    let mut r = lo;
    loop
        invariant
            lo <= r <= hi <= cs@.len(),
            whole == scan_tags(cs@.subrange(lo as int, hi as int)),
            done + scan_tags(cs@.subrange(r as int, hi as int)).0 == whole.0,
            scan_tags(cs@.subrange(r as int, hi as int)).1 == whole.1,
            times@ == stamps(done),
            *offset == offset_after(done, o0),
        ensures
            lo <= r <= hi <= cs@.len(),
            done == whole.0,
            cs@.subrange(r as int, hi as int) == whole.1,
            times@ == stamps(done),
            *offset == offset_after(done, o0),
        decreases hi - r,
    {
        let ghost rest = cs@.subrange(r as int, hi as int);
        let open = match find_in(cs, r, hi, '[') {
            Some(o) => o,
            None => {
                assert(done + seq![] =~= done);
                break ;
            },
        };
        let ghost after = rest.skip(open - r + 1);
        assert(after =~= cs@.subrange(open + 1, hi as int));
        let close = match find_in(cs, open + 1, hi, ']') {
            Some(c) => c,
            None => {
                assert(done + seq![] =~= done);
                break ;
            },
        };
        let ghost tag = cs@.subrange(open + 1, close as int);
        assert(after.take(close - open - 1) =~= tag);
        assert(after.skip(close - open) =~= cs@.subrange(close + 1, hi as int));
        match parse_time_in(cs, open + 1, close) {
            Some(t) => {
                times.push(t);
            },
            None => {
                match parse_offset_in(cs, open + 1, close) {
                    Some(o) => {
                        *offset = o;
                    },
                    None => {},
                }
            },
        }
        proof {
            let nd = done.push(tag);
            assert(nd.drop_last() =~= done);
            assert(nd + scan_tags(cs@.subrange(close + 1, hi as int)).0 =~= done + (seq![tag]
                + scan_tags(cs@.subrange(close + 1, hi as int)).0));
            done = nd;
        }
        r = close + 1;
    }
    let (a, b) = trim_range(cs, r, hi);
    if a < b {
        let text = string_from_range(cs, a, b);
        let ghost es = line_entries(cs@.subrange(lo as int, hi as int));
        let ghost base = line_views(lines@);
        assert(es =~= stamps(done).map_values(|t: u128| (t, text@)));
        let mut i: usize = 0;
        while i < times.len()
            invariant
                0 <= i <= times@.len(),
                times@ == stamps(done),
                es == stamps(done).map_values(|t: u128| (t, text@)),
                line_views(lines@) == insert_all(base, es.take(i as int)),
            decreases times@.len() - i,
        {
            let line = LyricLine { time: times[i], text: text.clone() };
            insert_line(lines, line);
            assert(es.take(i + 1).drop_last() =~= es.take(i as int));
            i = i + 1;
        }
        assert(es.take(i as int) =~= es);
    } else {
        assert(line_entries(cs@.subrange(lo as int, hi as int)) =~= Seq::<
            (u128, Seq<char>),
        >::empty());
    }
}

/// Parses LRC text into timed lines sorted by time (lines with equal times keep
/// their file order) and its `[offset:]` value.
pub fn parse(lrc: &str) -> (r: Lyrics)
    ensures
        r.spec_lines() == sort_by_time(collected(spec_lines(lrc@))),
        r.offset_ms == offset_of_lines(spec_lines(lrc@)),
{
    let cs = chars_of(lrc);
    let n = cs.len();
    let mut lines: Vec<LyricLine> = Vec::new();
    let mut offset: i64 = 0;
    let ghost mut done: Seq<Seq<char>> = seq![];
    let mut start: usize = 0;
    let mut pos: usize = 0;
    assert(cs@.subrange(0, n as int) =~= cs@);
    assert(line_views(lines@) =~= sort_by_time(collected(done)));
    while pos < n
        invariant
            n == cs@.len(),
            cs@ == lrc@,
            0 <= start <= pos <= n,
            forall|j: int| start <= j < pos ==> cs@[j] != '\n',
            done + spec_lines(cs@.subrange(start as int, n as int)) == spec_lines(cs@),
            line_views(lines@) == sort_by_time(collected(done)),
            offset == offset_of_lines(done),
        decreases n - pos,
    {
        if cs[pos] == '\n' {
            let end = if pos > start && cs[pos - 1] == '\r' {
                pos - 1
            } else {
                pos
            };
            let ghost line = cs@.subrange(start as int, end as int);
            proof {
                lemma_lines_step(cs@, start as int, pos as int);
                assert(strip_cr(cs@.subrange(start as int, pos as int)) =~= line);
            }
            let ghost prev = line_views(lines@);
            parse_line(&cs, start, end, &mut lines, &mut offset);
            proof {
                let nd = done.push(line);
                assert(nd.drop_last() =~= done);
                lemma_sort_append(collected(done), line_entries(line));
                assert(nd + spec_lines(cs@.subrange(pos + 1, n as int)) =~= done + (seq![line]
                    + spec_lines(cs@.subrange(pos + 1, n as int))));
                done = nd;
            }
            start = pos + 1;
        }
        pos = pos + 1;
    }
    proof {
        lemma_lines_last(cs@, start as int);
    }
    if start < n {
        let ghost line = cs@.subrange(start as int, n as int);
        parse_line(&cs, start, n, &mut lines, &mut offset);
        proof {
            let nd = done.push(line);
            assert(nd.drop_last() =~= done);
            lemma_sort_append(collected(done), line_entries(line));
            assert(nd =~= done + seq![line]);
            done = nd;
        }
    } else {
        assert(done + Seq::<Seq<char>>::empty() =~= done);
    }
    Lyrics { lines, offset_ms: offset }
}


/// The timed lines that `parse` gives for `s`.
pub open spec fn spec_parse_lines(s: Seq<char>) -> Seq<(u128, Seq<char>)> {
    sort_by_time(collected(spec_lines(s)))
}

/// The text of the last of `tl` whose time falls in millisecond `ms` (later
/// lines overwrite earlier ones, as when they are collected into a map).
pub open spec fn translation_for(tl: Seq<(u128, Seq<char>)>, ms: int) -> Option<Seq<char>>
    decreases tl.len(),
{
    if tl.len() == 0 {
        None
    } else if tl.last().0 / 1_000_000 == ms {
        Some(tl.last().1)
    } else {
        translation_for(tl.drop_last(), ms)
    }
}

/// `[time]text` for one line.
pub open spec fn stamped(t: u128, text: Seq<char>) -> Seq<char> {
    seq!['['] + spec_fmt_time(t) + seq![']'] + text + seq!['\n']
}

/// One original line, followed by its translation when there is a non-empty
/// one that differs from it.
pub open spec fn merged_line(l: (u128, Seq<char>), tl: Seq<(u128, Seq<char>)>) -> Seq<char> {
    match translation_for(tl, (l.0 / 1_000_000) as int) {
        Some(tr) => if tr.len() > 0 && tr != l.1 {
            stamped(l.0, l.1) + stamped(l.0, tr)
        } else {
            stamped(l.0, l.1)
        },
        None => stamped(l.0, l.1),
    }
}

pub open spec fn merged(ol: Seq<(u128, Seq<char>)>, tl: Seq<(u128, Seq<char>)>) -> Seq<char>
    decreases ol.len(),
{
    if ol.len() == 0 {
        seq![]
    } else {
        merged(ol.drop_last(), tl) + merged_line(ol.last(), tl)
    }
}

/// `merge_bilingual`: the original unchanged when the translation is blank,
/// else the original's lines re-serialised, each followed by its translation.
pub open spec fn spec_merge_bilingual(orig: Seq<char>, trans: Seq<char>) -> Seq<char> {
    if trim(trans).len() == 0 {
        orig
    } else {
        merged(spec_parse_lines(orig), spec_parse_lines(trans))
    }
}

/// The lines' indices by millisecond: for each millisecond in which some
/// line's time falls, the index of the last such line.
fn index_by_ms(lines: &Vec<LyricLine>) -> (m: HashMap<u128, usize>)
    ensures
        forall|ms: u128|
            #[trigger] m@.contains_key(ms) ==> m@[ms] < lines@.len() && translation_for(
                line_views(lines@),
                ms as int,
            ) == Some(lines@[m@[ms] as int].text@),
        forall|ms: u128|
            !#[trigger] m@.contains_key(ms) ==> translation_for(line_views(lines@), ms as int)
                is None,
{
    broadcast use vstd::std_specs::hash::group_hash_axioms;

    let ghost tl = line_views(lines@);
    let mut m: HashMap<u128, usize> = HashMap::new();
    let mut i: usize = 0;
    while i < lines.len()
        invariant
            0 <= i <= lines@.len(),
            tl == line_views(lines@),
            forall|ms: u128|
                #[trigger] m@.contains_key(ms) ==> m@[ms] < i && translation_for(
                    tl.take(i as int),
                    ms as int,
                ) == Some(lines@[m@[ms] as int].text@),
            forall|ms: u128|
                !#[trigger] m@.contains_key(ms) ==> translation_for(tl.take(i as int), ms as int)
                    is None,
        decreases lines@.len() - i,
    {
        assert(tl.take(i + 1).drop_last() =~= tl.take(i as int));
        assert(tl.take(i + 1).last() == (lines@[i as int].time, lines@[i as int].text@));
        m.insert(lines[i].time / 1_000_000, i);
        i = i + 1;
    }
    assert(tl.take(i as int) =~= tl);
    m
}

/// Appends `stamped(t, text)` to `out`.
fn push_stamped(out: &mut Vec<char>, t: u128, text: &String)
    ensures
        final(out)@ == old(out)@ + stamped(t, text@),
{
    out.push('[');
    push_fmt_time(out, t);
    out.push(']');
    let mut tc = chars_of(text.as_str());
    out.append(&mut tc);
    out.push('\n');
    assert(final(out)@ =~= old(out)@ + stamped(t, text@));
}

/// Merges a translation LRC under the matching original lines (lines match
/// when their times fall in the same millisecond).
pub fn merge_bilingual(orig: &str, trans: &str) -> (r: String)
    ensures
        r@ == spec_merge_bilingual(orig@, trans@),
{
    let tcs = chars_of(trans);
    let (a, b) = trim_range(&tcs, 0, tcs.len());
    assert(tcs@.subrange(0, tcs@.len() as int) =~= trans@);
    if a == b {
        return orig.to_owned();
    }
    let o = parse(orig);
    let t = parse(trans);
    let ghost ol = o.spec_lines();
    let ghost tl = t.spec_lines();
    let tmap = index_by_ms(&t.lines);
    let mut out: Vec<char> = Vec::new();
    let mut i: usize = 0;
    while i < o.lines.len()
        invariant
            0 <= i <= o.lines@.len(),
            ol == o.spec_lines(),
            tl == t.spec_lines(),
            out@ == merged(ol.take(i as int), tl),
            forall|ms: u128|
                #[trigger] tmap@.contains_key(ms) ==> tmap@[ms] < t.lines@.len()
                    && translation_for(tl, ms as int) == Some(t.lines@[tmap@[ms] as int].text@),
            forall|ms: u128|
                !#[trigger] tmap@.contains_key(ms) ==> translation_for(tl, ms as int) is None,
        decreases o.lines@.len() - i,
    {
        broadcast use vstd::std_specs::hash::group_hash_axioms;

        let l = &o.lines[i];
        push_stamped(&mut out, l.time, &l.text);
        match tmap.get(&(l.time / 1_000_000)) {
            Some(k) => {
                let tr = &t.lines[*k].text;
                if !tr.as_str().is_empty() && !(*tr == l.text) {
                    push_stamped(&mut out, l.time, tr);
                }
            },
            None => {},
        }
        assert(ol.take(i + 1).drop_last() =~= ol.take(i as int));
        assert(out@ =~= merged(ol.take(i + 1), tl));
        i = i + 1;
    }
    assert(ol.take(i as int) =~= ol);
    string_from_chars(out.as_slice())
}


/// Lines in order of time.
pub open spec fn sorted_by_time(lines: Seq<(u128, Seq<char>)>) -> bool {
    forall|i: int, j: int| 0 <= i <= j < lines.len() ==> lines[i].0 <= lines[j].0
}

/// Where `insert_by_time` places its element.
pub open spec fn insert_pos(s: Seq<(u128, Seq<char>)>, x: (u128, Seq<char>)) -> int
    decreases s.len(),
{
    if s.len() == 0 || s[0].0 > x.0 {
        0
    } else {
        1 + insert_pos(s.drop_first(), x)
    }
}

proof fn lemma_insert_is_insert(s: Seq<(u128, Seq<char>)>, x: (u128, Seq<char>))
    ensures
        0 <= insert_pos(s, x) <= s.len(),
        insert_by_time(s, x) == s.insert(insert_pos(s, x), x),
    decreases s.len(),
{
    if s.len() == 0 {
        assert(s.insert(0, x) =~= seq![x]);
    } else if s[0].0 > x.0 {
        assert(s.insert(0, x) =~= seq![x] + s);
    } else {
        lemma_insert_is_insert(s.drop_first(), x);
        assert(s.insert(insert_pos(s, x), x) =~= seq![s[0]] + s.drop_first().insert(
            insert_pos(s.drop_first(), x),
            x,
        ));
    }
}

proof fn lemma_insert_sorted(s: Seq<(u128, Seq<char>)>, x: (u128, Seq<char>), lo: int)
    requires
        sorted_by_time(s),
        lo <= x.0,
        forall|i: int| 0 <= i < s.len() ==> lo <= s[i].0,
    ensures
        sorted_by_time(insert_by_time(s, x)),
        forall|i: int| 0 <= i < insert_by_time(s, x).len() ==> lo <= insert_by_time(s, x)[i].0,
    decreases s.len(),
{
    lemma_insert_is_insert(s, x);
    if s.len() == 0 {
    } else if s[0].0 > x.0 {
        let r = seq![x] + s;
        assert forall|i: int, j: int| 0 <= i <= j < r.len() implies r[i].0 <= r[j].0 by {
            if i > 0 {
                assert(r[i] == s[i - 1] && r[j] == s[j - 1]);
            } else if j > 0 {
                assert(r[j] == s[j - 1]);
            }
        }
    } else {
        let t = s.drop_first();
        lemma_insert_sorted(t, x, s[0].0 as int);
        let it = insert_by_time(t, x);
        let r = seq![s[0]] + it;
        assert forall|i: int, j: int| 0 <= i <= j < r.len() implies r[i].0 <= r[j].0 by {
            if i > 0 {
                assert(r[i] == it[i - 1] && r[j] == it[j - 1]);
            } else if j > 0 {
                assert(r[j] == it[j - 1]);
            }
        }
        assert forall|i: int| 0 <= i < r.len() implies lo <= r[i].0 by {
            if i > 0 {
                assert(r[i] == it[i - 1]);
            }
        }
    }
}

/// Sorting leaves the lines in order of time.
pub proof fn lemma_sort_by_time_sorted(s: Seq<(u128, Seq<char>)>)
    ensures
        sorted_by_time(sort_by_time(s)),
    decreases s.len(),
{
    if s.len() > 0 {
        lemma_sort_by_time_sorted(s.drop_last());
        lemma_insert_sorted(sort_by_time(s.drop_last()), s.last(), 0);
    }
}

/// Sorting neither loses nor adds a line.
pub proof fn lemma_sort_by_time_permutes(s: Seq<(u128, Seq<char>)>)
    ensures
        sort_by_time(s).to_multiset() == s.to_multiset(),
    decreases s.len(),
{
    broadcast use vstd::seq_lib::to_multiset_insert, vstd::seq_lib::to_multiset_build;

    if s.len() == 0 {
        assert(sort_by_time(s) =~= s);
    } else {
        lemma_sort_by_time_permutes(s.drop_last());
        let p = sort_by_time(s.drop_last());
        lemma_insert_is_insert(p, s.last());
        assert(s.drop_last().push(s.last()) =~= s);
    }
}

/// The lines that `parse` returns are in order of time.
pub proof fn lemma_parse_sorted(s: Seq<char>)
    ensures
        sorted_by_time(spec_parse_lines(s)),
{
    lemma_sort_by_time_sorted(collected(spec_lines(s)));
}

/// `parse` returns every timed line of the file exactly once: sorting only
/// reorders them.
pub proof fn lemma_parse_permutes(s: Seq<char>)
    ensures
        spec_parse_lines(s).to_multiset() == collected(spec_lines(s)).to_multiset(),
{
    lemma_sort_by_time_permutes(collected(spec_lines(s)));
}


/// A line text as `parse` leaves it: not empty, and without whitespace at
/// either end.
pub open spec fn clean_text(t: Seq<char>) -> bool {
    t.len() > 0 && !is_ws(t[0]) && !is_ws(t.last())
}

} // verus!
