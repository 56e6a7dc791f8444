//! What reading back a merged bilingual LRC gives: every original line, each
//! followed by its translation, at the original times cut to centiseconds; and
//! the line the engine takes as current is always an original line.
use vstd::prelude::*;
use crate::engine::{lemma_run_start, run_start, spec_current_line, lead_len};
use crate::lrc::{
    clean_text, collected, insert_by_time, line_entries, merged, offset_of_lines, scan_tags,
    sort_by_time,
    sorted_by_time, spec_lines, spec_merge_bilingual, spec_parse_lines, stamped, stamps,
    strip_cr, translation_for, lemma_parse_permutes,
};
use crate::text::{
    find_char, is_digit, is_ws, lemma_find_char, lemma_find_char_absent, lemma_find_char_at,
    lemma_trim_ends, trim, trim_end, trim_start,
};
use crate::timestamp::{
    MAX_NANOS, lemma_fmt_time_parse_time, spec_fmt_time, spec_parse_time,
};

verus! {

/// `c` does not occur in `s`.
pub open spec fn no_char(s: Seq<char>, c: char) -> bool {
    forall|i: int| 0 <= i < s.len() ==> s[i] != c
}

/// No `[` in `s` has a `]` after it: what is left of a line once `parse` has
/// read its tags holds no further tag.
pub open spec fn no_tag(s: Seq<char>) -> bool {
    forall|i: int, j: int|
        #![trigger s[i], s[j]]
        0 <= i < j < s.len() && s[i] == '[' ==> s[j] != ']'
}

/// A timed line as `parse` leaves it: a clean one-line text without a tag,
/// and a time a `Duration` can hold.
pub open spec fn good_entry(e: (u128, Seq<char>)) -> bool {
    clean_text(e.1) && no_char(e.1, '\n') && no_tag(e.1) && e.0 <= MAX_NANOS
}

/// `t` cut down to whole centiseconds.
pub open spec fn centis(t: u128) -> u128 {
    ((t / 10_000_000) * 10_000_000) as u128
}

proof fn lemma_lines_no_newline(s: Seq<char>)
    ensures
        forall|i: int| 0 <= i < spec_lines(s).len() ==> no_char(#[trigger] spec_lines(s)[i], '\n'),
    decreases s.len(),
{
    if s.len() > 0 {
        lemma_find_char(s, '\n');
        match find_char(s, '\n') {
            None => {},
            Some(k) => {
                lemma_lines_no_newline(s.skip(k + 1));
                let first = strip_cr(s.take(k));
                let ls = spec_lines(s);
                assert(no_char(first, '\n')) by {
                    assert forall|j: int| 0 <= j < first.len() implies first[j] != '\n' by {
                        assert(first[j] == s[j]);
                    }
                }
                assert forall|i: int| 0 <= i < ls.len() implies no_char(#[trigger] ls[i], '\n') by {
                    if i > 0 {
                        assert(ls[i] == spec_lines(s.skip(k + 1))[i - 1]);
                    }
                }
            },
        }
    }
}

proof fn lemma_scan_rest_no_char(s: Seq<char>, c: char)
    requires
        no_char(s, c),
    ensures
        no_char(scan_tags(s).1, c),
    decreases s.len(),
{
    match find_char(s, '[') {
        None => {},
        Some(o) => {
            lemma_find_char(s, '[');
            let after = s.skip(o + 1);
            lemma_find_char(after, ']');
            match find_char(after, ']') {
                None => {},
                Some(k) => {
                    let rest = after.skip(k + 1);
                    assert forall|j: int| 0 <= j < rest.len() implies rest[j] != c by {
                        assert(rest[j] == s[o + 1 + k + 1 + j]);
                    }
                    lemma_scan_rest_no_char(rest, c);
                },
            }
        },
    }
}

proof fn lemma_scan_rest_no_tag(s: Seq<char>)
    ensures
        no_tag(scan_tags(s).1),
    decreases s.len(),
{
    lemma_find_char(s, '[');
    match find_char(s, '[') {
        None => {},
        Some(o) => {
            let after = s.skip(o + 1);
            lemma_find_char(after, ']');
            match find_char(after, ']') {
                None => {
                    assert forall|i: int, j: int|
                        0 <= i < j < s.len() && s[i] == '[' implies s[j] != ']' by {
                        assert(i >= o);
                        assert(s[j] == after[j - o - 1]);
                    }
                },
                Some(k) => {
                    lemma_scan_rest_no_tag(after.skip(k + 1));
                },
            }
        },
    }
}

proof fn lemma_trim_start_no_tag(s: Seq<char>)
    requires
        no_tag(s),
    ensures
        no_tag(trim_start(s)),
    decreases s.len(),
{
    if s.len() > 0 && is_ws(s[0]) {
        let d = s.drop_first();
        assert forall|i: int, j: int| 0 <= i < j < d.len() && d[i] == '[' implies d[j] != ']' by {
            assert(d[i] == s[i + 1] && d[j] == s[j + 1]);
        }
        lemma_trim_start_no_tag(d);
    }
}

proof fn lemma_trim_end_no_tag(s: Seq<char>)
    requires
        no_tag(s),
    ensures
        no_tag(trim_end(s)),
    decreases s.len(),
{
    if s.len() > 0 && is_ws(s.last()) {
        let d = s.drop_last();
        assert forall|i: int, j: int| 0 <= i < j < d.len() && d[i] == '[' implies d[j] != ']' by {
            assert(d[i] == s[i] && d[j] == s[j]);
        }
        lemma_trim_end_no_tag(d);
    }
}

proof fn lemma_trim_start_no_char(s: Seq<char>, c: char)
    requires
        no_char(s, c),
    ensures
        no_char(trim_start(s), c),
    decreases s.len(),
{
    if s.len() > 0 && is_ws(s[0]) {
        assert forall|j: int| 0 <= j < s.drop_first().len() implies s.drop_first()[j] != c by {
            assert(s.drop_first()[j] == s[j + 1]);
        }
        lemma_trim_start_no_char(s.drop_first(), c);
    }
}

proof fn lemma_trim_end_no_char(s: Seq<char>, c: char)
    requires
        no_char(s, c),
    ensures
        no_char(trim_end(s), c),
    decreases s.len(),
{
    if s.len() > 0 && is_ws(s.last()) {
        assert forall|j: int| 0 <= j < s.drop_last().len() implies s.drop_last()[j] != c by {
            assert(s.drop_last()[j] == s[j]);
        }
        lemma_trim_end_no_char(s.drop_last(), c);
    }
}

proof fn lemma_stamps_bounded(tags: Seq<Seq<char>>)
    ensures
        forall|i: int| 0 <= i < stamps(tags).len() ==> #[trigger] stamps(tags)[i] <= MAX_NANOS,
    decreases tags.len(),
{
    if tags.len() > 0 {
        lemma_stamps_bounded(tags.drop_last());
        let p = stamps(tags.drop_last());
        match spec_parse_time(tags.last()) {
            Some(t) => {
                assert(t <= MAX_NANOS);
                assert(stamps(tags) == p.push(t));
                assert forall|i: int| 0 <= i < stamps(tags).len() implies #[trigger] stamps(
                    tags,
                )[i] <= MAX_NANOS by {
                    if i < p.len() {
                        assert(stamps(tags)[i] == p[i]);
                    }
                }
            },
            None => {},
        }
    }
}

proof fn lemma_collected_good(ls: Seq<Seq<char>>)
    requires
        forall|i: int| 0 <= i < ls.len() ==> no_char(#[trigger] ls[i], '\n'),
    ensures
        forall|i: int| 0 <= i < collected(ls).len() ==> good_entry(#[trigger] collected(ls)[i]),
    decreases ls.len(),
{
    if ls.len() > 0 {
        assert forall|i: int| 0 <= i < ls.drop_last().len() implies no_char(
            #[trigger] ls.drop_last()[i],
            '\n',
        ) by {
            assert(ls.drop_last()[i] == ls[i]);
        }
        lemma_collected_good(ls.drop_last());
        let p = collected(ls.drop_last());
        let l = ls.last();
        assert(no_char(l, '\n'));
        let e = line_entries(l);
        let rest = scan_tags(l).1;
        lemma_trim_ends(rest);
        lemma_scan_rest_no_char(l, '\n');
        lemma_trim_start_no_char(rest, '\n');
        lemma_trim_end_no_char(trim_start(rest), '\n');
        lemma_scan_rest_no_tag(l);
        lemma_trim_start_no_tag(rest);
        lemma_trim_end_no_tag(trim_start(rest));
        lemma_stamps_bounded(scan_tags(l).0);
        assert forall|i: int| 0 <= i < collected(ls).len() implies good_entry(
            #[trigger] collected(ls)[i],
        ) by {
            if i >= p.len() {
                assert(collected(ls)[i] == e[i - p.len()]);
                assert(e[i - p.len()].1 == trim(rest));
                assert(e[i - p.len()].0 == stamps(scan_tags(l).0)[i - p.len()]);
            } else {
                assert(collected(ls)[i] == p[i]);
            }
        }
    }
}

/// Every line that `parse` returns has a clean one-line text and a time that a
/// `Duration` can hold.
pub proof fn lemma_parse_good(s: Seq<char>)
    ensures
        forall|i: int|
            0 <= i < spec_parse_lines(s).len() ==> good_entry(#[trigger] spec_parse_lines(s)[i]),
{
    broadcast use vstd::seq_lib::to_multiset_contains;

    let c = collected(spec_lines(s));
    let p = spec_parse_lines(s);
    lemma_lines_no_newline(s);
    lemma_collected_good(spec_lines(s));
    lemma_parse_permutes(s);
    assert forall|i: int| 0 <= i < p.len() implies good_entry(#[trigger] p[i]) by {
        let e = p[i];
        assert(p.contains(e));
        assert(p.to_multiset().count(e) > 0);
        assert(c.to_multiset().count(e) > 0);
        assert(c.contains(e));
        let j = choose|j: int| 0 <= j < c.len() && c[j] == e;
        assert(good_entry(c[j]));
    }
}

proof fn lemma_lines_concat(a: Seq<char>, b: Seq<char>)
    requires
        a.len() == 0 || a.last() == '\n',
    ensures
        spec_lines(a + b) == spec_lines(a) + spec_lines(b),
    decreases a.len(),
{
    if a.len() == 0 {
        assert(a + b =~= b);
        assert(spec_lines(a) + spec_lines(b) =~= spec_lines(b));
    } else {
        lemma_find_char_at_some(a, '\n');
        let k = find_char(a, '\n')->0;
        lemma_find_char(a, '\n');
        lemma_find_char_at(a + b, '\n', k);
        let rest = a.skip(k + 1);
        assert((a + b).take(k) =~= a.take(k));
        assert((a + b).skip(k + 1) =~= rest + b);
        assert(rest.len() == 0 || rest.last() == '\n');
        lemma_lines_concat(rest, b);
        assert(spec_lines(a + b) =~= seq![strip_cr(a.take(k))] + (spec_lines(rest) + spec_lines(
            b,
        )));
    }
}

proof fn lemma_find_char_at_some(s: Seq<char>, c: char)
    requires
        s.len() > 0,
        s.last() == c,
    ensures
        find_char(s, c) is Some,
{
    lemma_find_char(s, c);
    if find_char(s, c) is None {
        assert(s[s.len() - 1] != c);
    }
}

/// The lines that `merged` writes, in order: time, text, and whether it is a
/// translation.
pub open spec fn merge_plan(ol: Seq<(u128, Seq<char>)>, tl: Seq<(u128, Seq<char>)>) -> Seq<
    (u128, Seq<char>, bool),
>
    decreases ol.len(),
{
    if ol.len() == 0 {
        seq![]
    } else {
        let l = ol.last();
        let own = merge_plan(ol.drop_last(), tl).push((l.0, l.1, false));
        match translation_for(tl, (l.0 / 1_000_000) as int) {
            Some(tr) => if tr.len() > 0 && tr != l.1 {
                own.push((l.0, tr, true))
            } else {
                own
            },
            None => own,
        }
    }
}

/// The text that writing `plan` out gives.
pub open spec fn plan_text(plan: Seq<(u128, Seq<char>, bool)>) -> Seq<char>
    decreases plan.len(),
{
    if plan.len() == 0 {
        seq![]
    } else {
        plan_text(plan.drop_last()) + stamped(plan.last().0, plan.last().1)
    }
}

/// The timed lines that reading `plan` back gives.
pub open spec fn reparsed(plan: Seq<(u128, Seq<char>, bool)>) -> Seq<(u128, Seq<char>)> {
    plan.map_values(|e: (u128, Seq<char>, bool)| (centis(e.0), e.1))
}

/// One written line without its line ending.
pub open spec fn stamp_line(t: u128, x: Seq<char>) -> Seq<char> {
    seq!['['] + spec_fmt_time(t) + seq![']'] + x
}

pub open spec fn plan_lines(plan: Seq<(u128, Seq<char>, bool)>) -> Seq<Seq<char>> {
    plan.map_values(|e: (u128, Seq<char>, bool)| stamp_line(e.0, e.1))
}

proof fn lemma_merged_is_plan(ol: Seq<(u128, Seq<char>)>, tl: Seq<(u128, Seq<char>)>)
    ensures
        merged(ol, tl) == plan_text(merge_plan(ol, tl)),
    decreases ol.len(),
{
    if ol.len() > 0 {
        lemma_merged_is_plan(ol.drop_last(), tl);
        let l = ol.last();
        let p = merge_plan(ol.drop_last(), tl);
        let own = p.push((l.0, l.1, false));
        assert(own.drop_last() =~= p);
        match translation_for(tl, (l.0 / 1_000_000) as int) {
            Some(tr) => if tr.len() > 0 && tr != l.1 {
                let both = own.push((l.0, tr, true));
                assert(both.drop_last() =~= own);
                assert(plan_text(own) == plan_text(p) + stamped(l.0, l.1));
                assert(plan_text(both) == plan_text(own) + stamped(l.0, tr));
                assert(plan_text(both) =~= plan_text(p) + (stamped(l.0, l.1) + stamped(l.0, tr)));
            } else {
            },
            None => {},
        }
    }
}

proof fn lemma_fmt_time_chars(t: u128)
    ensures
        forall|i: int|
            0 <= i < spec_fmt_time(t).len() ==> is_digit(#[trigger] spec_fmt_time(t)[i])
                || spec_fmt_time(t)[i] == ':' || spec_fmt_time(t)[i] == '.',
{
    let ms = t / 1_000_000;
    let pm = crate::text::pad2((ms / 60000) as nat);
    let ps = crate::text::pad2(((ms % 60000) / 1000) as nat);
    let pc = crate::text::pad2(((ms % 1000) / 10) as nat);
    crate::timestamp::lemma_pad2((ms / 60000) as nat);
    crate::timestamp::lemma_pad2(((ms % 60000) / 1000) as nat);
    crate::timestamp::lemma_pad2(((ms % 1000) / 10) as nat);
    let f = spec_fmt_time(t);
    assert(f =~= pm + seq![':'] + ps + seq!['.'] + pc);
    assert forall|i: int| 0 <= i < f.len() implies is_digit(#[trigger] f[i]) || f[i] == ':'
        || f[i] == '.' by {
        let a = pm.len() as int;
        let b = a + 1 + ps.len();
        if i < a {
            assert(f[i] == pm[i]);
        } else if a < i < b {
            assert(f[i] == ps[i - a - 1]);
        } else if i > b {
            assert(f[i] == pc[i - b - 1]);
        }
    }
}

proof fn lemma_stamp_line_no_newline(t: u128, x: Seq<char>)
    requires
        no_char(x, '\n'),
    ensures
        no_char(stamp_line(t, x), '\n'),
{
    lemma_fmt_time_chars(t);
    let f = spec_fmt_time(t);
    let l = stamp_line(t, x);
    assert forall|i: int| 0 <= i < l.len() implies l[i] != '\n' by {
        if 1 <= i < 1 + f.len() {
            assert(l[i] == f[i - 1]);
        } else if i > 1 + f.len() {
            assert(l[i] == x[i - 2 - f.len()]);
        }
    }
}

/// A plan whose texts are clean one-line texts.
pub open spec fn plan_good(plan: Seq<(u128, Seq<char>, bool)>) -> bool {
    forall|i: int|
        0 <= i < plan.len() ==> clean_text(#[trigger] plan[i].1) && no_char(plan[i].1, '\n')
            && no_tag(plan[i].1) && plan[i].0 <= MAX_NANOS
}

proof fn lemma_plan_text_lines(plan: Seq<(u128, Seq<char>, bool)>)
    requires
        plan_good(plan),
    ensures
        spec_lines(plan_text(plan)) == plan_lines(plan),
        plan_text(plan).len() == 0 || plan_text(plan).last() == '\n',
    decreases plan.len(),
{
    if plan.len() == 0 {
        assert(plan_lines(plan) =~= Seq::<Seq<char>>::empty());
    } else {
        let p = plan.drop_last();
        assert(plan_good(p)) by {
            assert forall|i: int| 0 <= i < p.len() implies clean_text(#[trigger] p[i].1)
                && no_char(p[i].1, '\n') && no_tag(p[i].1) && p[i].0 <= MAX_NANOS by {
                assert(p[i] == plan[i]);
            }
        }
        lemma_plan_text_lines(p);
        let e = plan.last();
        assert(plan[plan.len() - 1] == e);
        let l = stamp_line(e.0, e.1);
        lemma_stamp_line_no_newline(e.0, e.1);
        assert(stamped(e.0, e.1) =~= l.push('\n'));
        lemma_lines_concat(plan_text(p), l.push('\n'));
        assert forall|j: int| 0 <= j < l.len() implies l.push('\n')[j] != '\n' by {
            assert(l.push('\n')[j] == l[j]);
        }
        lemma_find_char_at(l.push('\n'), '\n', l.len() as int);
        assert(spec_lines(Seq::<char>::empty()) =~= Seq::<Seq<char>>::empty());
        assert(l.push('\n').take(l.len() as int) =~= l);
        assert(l.push('\n').skip(l.len() as int + 1) =~= Seq::<char>::empty());
        assert(l.last() == e.1.last());
        assert(strip_cr(l) == l);
        assert(spec_lines(l.push('\n')) =~= seq![l]);
        assert(plan_lines(plan) =~= plan_lines(p).push(l));
    }
}

/// A text without a tag reads as no tags and the text itself.
proof fn lemma_no_tag_scan(x: Seq<char>)
    requires
        no_tag(x),
    ensures
        scan_tags(x) == (Seq::<Seq<char>>::empty(), x),
{
    lemma_find_char(x, '[');
    if let Some(o) = find_char(x, '[') {
        let after = x.skip(o + 1);
        assert forall|j: int| 0 <= j < after.len() implies after[j] != ']' by {
            assert(after[j] == x[o + 1 + j]);
        }
        lemma_find_char_absent(after, ']');
    }
}

proof fn lemma_stamp_line_tags(t: u128, x: Seq<char>)
    requires
        no_tag(x),
    ensures
        scan_tags(stamp_line(t, x)) == (seq![spec_fmt_time(t)], x),
{
    let f = spec_fmt_time(t);
    let l = stamp_line(t, x);
    lemma_fmt_time_chars(t);
    lemma_find_char_at(l, '[', 0);
    let after = l.skip(1);
    assert(after =~= f + seq![']'] + x);
    assert forall|j: int| 0 <= j < f.len() implies after[j] != ']' by {
        assert(after[j] == f[j]);
    }
    lemma_find_char_at(after, ']', f.len() as int);
    assert(after.take(f.len() as int) =~= f);
    assert(after.skip(f.len() as int + 1) =~= x);
    lemma_no_tag_scan(x);
    assert(seq![f] + Seq::<Seq<char>>::empty() =~= seq![f]);
}

proof fn lemma_stamp_line_entries(t: u128, x: Seq<char>)
    requires
        t <= MAX_NANOS,
        clean_text(x),
        no_tag(x),
    ensures
        line_entries(stamp_line(t, x)) == seq![(centis(t), x)],
{
    let f = spec_fmt_time(t);
    lemma_stamp_line_tags(t, x);
    assert(trim(x) == x);
    lemma_fmt_time_parse_time(t);
    assert(seq![f].drop_last() =~= Seq::<Seq<char>>::empty());
    assert(seq![f].last() == f);
    assert(stamps(Seq::<Seq<char>>::empty()) =~= Seq::<u128>::empty());
    assert(spec_parse_time(f) == Some(centis(t)));
    assert(stamps(seq![f]) =~= seq![centis(t)]);
    assert(stamps(seq![f]).map_values(|u: u128| (u, x)) =~= seq![(centis(t), x)]);
}

proof fn lemma_collected_plan(plan: Seq<(u128, Seq<char>, bool)>)
    requires
        plan_good(plan),
    ensures
        collected(plan_lines(plan)) == reparsed(plan),
    decreases plan.len(),
{
    if plan.len() == 0 {
        assert(reparsed(plan) =~= Seq::<(u128, Seq<char>)>::empty());
    } else {
        let p = plan.drop_last();
        assert(plan_good(p)) by {
            assert forall|i: int| 0 <= i < p.len() implies clean_text(#[trigger] p[i].1)
                && no_char(p[i].1, '\n') && no_tag(p[i].1) && p[i].0 <= MAX_NANOS by {
                assert(p[i] == plan[i]);
            }
        }
        lemma_collected_plan(p);
        let e = plan.last();
        assert(plan[plan.len() - 1] == e);
        lemma_stamp_line_entries(e.0, e.1);
        assert(plan_lines(plan).drop_last() =~= plan_lines(p));
        assert(plan_lines(plan).last() == stamp_line(e.0, e.1));
        assert(reparsed(plan) =~= reparsed(p) + seq![(centis(e.0), e.1)]);
    }
}

proof fn lemma_insert_last(s: Seq<(u128, Seq<char>)>, x: (u128, Seq<char>))
    requires
        forall|i: int| 0 <= i < s.len() ==> s[i].0 <= x.0,
    ensures
        insert_by_time(s, x) == s.push(x),
    decreases s.len(),
{
    if s.len() > 0 {
        lemma_insert_last(s.drop_first(), x);
        assert(s.push(x) =~= seq![s[0]] + s.drop_first().push(x));
    } else {
        assert(s.push(x) =~= seq![x]);
    }
}

/// Sorting lines that are already in order of time changes nothing.
pub proof fn lemma_sort_sorted(s: Seq<(u128, Seq<char>)>)
    requires
        sorted_by_time(s),
    ensures
        sort_by_time(s) == s,
    decreases s.len(),
{
    if s.len() > 0 {
        let p = s.drop_last();
        assert(sorted_by_time(p));
        lemma_sort_sorted(p);
        lemma_insert_last(p, s.last());
        assert(p.push(s.last()) =~= s);
    }
}

/// The facts about a merge plan built from parsed lines.
proof fn lemma_plan_facts(ol: Seq<(u128, Seq<char>)>, tl: Seq<(u128, Seq<char>)>)
    requires
        sorted_by_time(ol),
        forall|i: int| 0 <= i < ol.len() ==> good_entry(#[trigger] ol[i]),
        forall|i: int| 0 <= i < tl.len() ==> good_entry(#[trigger] tl[i]),
    ensures
        plan_good(merge_plan(ol, tl)),
        forall|i: int, j: int|
            0 <= i <= j < merge_plan(ol, tl).len() ==> merge_plan(ol, tl)[i].0 <= merge_plan(
                ol,
                tl,
            )[j].0,
        ol.len() > 0 ==> forall|i: int|
            0 <= i < merge_plan(ol, tl).len() ==> merge_plan(ol, tl)[i].0 <= ol.last().0,
        forall|j: int|
            0 <= j < merge_plan(ol, tl).len() && #[trigger] merge_plan(ol, tl)[j].2 ==> j > 0
                && merge_plan(ol, tl)[j - 1].0 == merge_plan(ol, tl)[j].0,
    decreases ol.len(),
{
    if ol.len() > 0 {
        let o2 = ol.drop_last();
        assert forall|i: int| 0 <= i < o2.len() implies good_entry(#[trigger] o2[i]) by {
            assert(o2[i] == ol[i]);
        }
        assert(sorted_by_time(o2));
        lemma_plan_facts(o2, tl);
        let p = merge_plan(o2, tl);
        let l = ol.last();
        assert(ol[ol.len() - 1] == l);
        assert(good_entry(l));
        if o2.len() > 0 {
            assert(o2.last() == ol[ol.len() - 2]);
            assert(o2.last().0 <= l.0);
        }
        let own = p.push((l.0, l.1, false));
        let r = merge_plan(ol, tl);
        match translation_for(tl, (l.0 / 1_000_000) as int) {
            Some(tr) => {
                lemma_translation_from(tl, (l.0 / 1_000_000) as int);
            },
            None => {},
        }
        assert(r.len() == own.len() || (r.len() == own.len() + 1 && r[own.len() as int].2
            && r[own.len() as int].0 == l.0));
        assert forall|i: int| 0 <= i < r.len() implies r[i].0 <= l.0 by {
            if i < p.len() {
                assert(r[i] == p[i]);
            }
        }
        assert forall|i: int, j: int| 0 <= i <= j < r.len() implies r[i].0 <= r[j].0 by {
            if j < p.len() {
                assert(r[i] == p[i] && r[j] == p[j]);
            } else if i < p.len() {
                assert(r[i] == p[i]);
            }
        }
        assert forall|j: int| 0 <= j < r.len() && #[trigger] r[j].2 implies j > 0 && r[j - 1].0
            == r[j].0 by {
            if j < p.len() {
                assert(r[j] == p[j] && r[j - 1] == p[j - 1]);
            } else if j == p.len() {
                assert(r[j] == (l.0, l.1, false));
            } else {
                assert(r[j - 1] == (l.0, l.1, false));
            }
        }
        assert forall|i: int| 0 <= i < r.len() implies clean_text(#[trigger] r[i].1) && no_char(
            r[i].1,
            '\n',
        ) && no_tag(r[i].1) && r[i].0 <= MAX_NANOS by {
            if i < p.len() {
                assert(r[i] == p[i]);
            }
        }
    }
}

/// A translation that `translation_for` finds is the text of one of the lines.
proof fn lemma_translation_from(tl: Seq<(u128, Seq<char>)>, ms: int)
    ensures
        translation_for(tl, ms) matches Some(tr) ==> exists|k: int|
            0 <= k < tl.len() && #[trigger] tl[k].1 == tr,
    decreases tl.len(),
{
    if tl.len() > 0 {
        lemma_translation_from(tl.drop_last(), ms);
        if tl.last().0 / 1_000_000 == ms {
            assert(tl[tl.len() - 1].1 == tl.last().1);
        } else if let Some(tr) = translation_for(tl, ms) {
            let k = choose|k: int| 0 <= k < tl.drop_last().len() && #[trigger] tl.drop_last()[k].1
                == tr;
            assert(tl[k].1 == tr);
        }
    }
}

/// The written lines carry no offset tag: their offset reads back as 0.
proof fn lemma_plan_offset(plan: Seq<(u128, Seq<char>, bool)>)
    requires
        plan_good(plan),
    ensures
        offset_of_lines(plan_lines(plan)) == 0,
    decreases plan.len(),
{
    if plan.len() > 0 {
        let p = plan.drop_last();
        assert(plan_good(p)) by {
            assert forall|i: int| 0 <= i < p.len() implies clean_text(#[trigger] p[i].1)
                && no_char(p[i].1, '\n') && no_tag(p[i].1) && p[i].0 <= MAX_NANOS by {
                assert(p[i] == plan[i]);
            }
        }
        lemma_plan_offset(p);
        let e = plan.last();
        assert(plan[plan.len() - 1] == e);
        let f = spec_fmt_time(e.0);
        lemma_stamp_line_tags(e.0, e.1);
        lemma_fmt_time_parse_time(e.0);
        assert(plan_lines(plan).drop_last() =~= plan_lines(p));
        assert(plan_lines(plan).last() == stamp_line(e.0, e.1));
        assert(seq![f].drop_last() =~= Seq::<Seq<char>>::empty());
        assert(seq![f].last() == f);
        assert(spec_parse_time(f) is Some);
        assert(crate::lrc::offset_after(Seq::<Seq<char>>::empty(), 0) == 0);
        assert(crate::lrc::offset_after(seq![f], 0) == 0);
    } else {
        assert(plan_lines(plan) =~= Seq::<Seq<char>>::empty());
    }
}

/// The plan's lines that are not translations, as timed lines, in order.
pub open spec fn originals(plan: Seq<(u128, Seq<char>, bool)>) -> Seq<(u128, Seq<char>)>
    decreases plan.len(),
{
    if plan.len() == 0 {
        seq![]
    } else {
        let p = originals(plan.drop_last());
        let e = plan.last();
        if e.2 {
            p
        } else {
            p.push((e.0, e.1))
        }
    }
}

/// Merging keeps every original line, in order and unchanged, whether or not
/// the translation has a line at its time: the merged lines that are not
/// translations are exactly the original's lines.
pub proof fn lemma_merge_keeps_every_original(ol: Seq<(u128, Seq<char>)>, tl: Seq<(u128, Seq<char>)>)
    ensures
        originals(merge_plan(ol, tl)) == ol,
        merge_plan(ol, tl).len() >= ol.len(),
    decreases ol.len(),
{
    if ol.len() > 0 {
        let o2 = ol.drop_last();
        lemma_merge_keeps_every_original(o2, tl);
        let l = ol.last();
        let p = merge_plan(o2, tl);
        let own = p.push((l.0, l.1, false));
        assert(own.drop_last() =~= p);
        assert(originals(own) == originals(p).push((l.0, l.1)));
        assert(o2.push(l) =~= ol);
        match translation_for(tl, (l.0 / 1_000_000) as int) {
            Some(tr) => if tr.len() > 0 && tr != l.1 {
                let both = own.push((l.0, tr, true));
                assert(both.drop_last() =~= own);
            },
            None => {},
        }
    }
}

/// Reading back a merged bilingual LRC gives every line of the original, in
/// order, with its time cut to centiseconds; each other line read back is a
/// translation, with the time of the original line just before it.
pub proof fn lemma_merge_reads_back_every_original(orig: Seq<char>, trans: Seq<char>)
    requires
        trim(trans).len() > 0,
    ensures
        ({
            let plan = merge_plan(spec_parse_lines(orig), spec_parse_lines(trans));
            &&& spec_parse_lines(spec_merge_bilingual(orig, trans)) == reparsed(plan)
            &&& originals(plan) == spec_parse_lines(orig)
            &&& forall|j: int|
                0 <= j < plan.len() && #[trigger] plan[j].2 ==> j > 0 && !plan[j - 1].2
                    && plan[j - 1].0 == plan[j].0
        }),
{
    let ol = spec_parse_lines(orig);
    let tl = spec_parse_lines(trans);
    lemma_merge_reads_back(orig, trans);
    lemma_merge_keeps_every_original(ol, tl);
    lemma_translation_follows_original(ol, tl);
}

/// In a merge plan, a translation comes right after the original line it
/// belongs to, at the same time.
proof fn lemma_translation_follows_original(ol: Seq<(u128, Seq<char>)>, tl: Seq<(u128, Seq<char>)>)
    ensures
        forall|j: int|
            0 <= j < merge_plan(ol, tl).len() && #[trigger] merge_plan(ol, tl)[j].2 ==> j > 0
                && !merge_plan(ol, tl)[j - 1].2 && merge_plan(ol, tl)[j - 1].0 == merge_plan(
                ol,
                tl,
            )[j].0,
    decreases ol.len(),
{
    if ol.len() > 0 {
        let o2 = ol.drop_last();
        lemma_translation_follows_original(o2, tl);
        let p = merge_plan(o2, tl);
        let l = ol.last();
        let own = p.push((l.0, l.1, false));
        let r = merge_plan(ol, tl);
        assert forall|j: int| 0 <= j < r.len() && #[trigger] r[j].2 implies j > 0 && !r[j - 1].2
            && r[j - 1].0 == r[j].0 by {
            if j < p.len() {
                assert(r[j] == p[j] && r[j - 1] == p[j - 1]);
            } else if j == p.len() {
                assert(r[j] == (l.0, l.1, false));
            } else {
                assert(r[j - 1] == (l.0, l.1, false));
            }
        }
    }
}

/// A line written as `[fmt_time(t)]x` reads back as one timed line: `x`, at
/// `t` cut down to whole centiseconds, and no offset; for every text `x` that
/// `parse` can give (a clean one-line text without a tag).
pub proof fn lemma_stamp_line_reads_back(t: u128, x: Seq<char>)
    requires
        good_entry((t, x)),
    ensures
        spec_parse_lines(stamp_line(t, x)) == seq![(centis(t), x)],
        offset_of_lines(spec_lines(stamp_line(t, x))) == 0,
{
    let l = stamp_line(t, x);
    let f = spec_fmt_time(t);
    lemma_stamp_line_no_newline(t, x);
    lemma_find_char_absent(l, '\n');
    assert(spec_lines(l) == seq![l]);
    lemma_stamp_line_entries(t, x);
    assert(seq![l].drop_last() =~= Seq::<Seq<char>>::empty());
    assert(seq![l].last() == l);
    assert(collected(Seq::<Seq<char>>::empty()) == Seq::<(u128, Seq<char>)>::empty());
    assert(collected(seq![l]) =~= seq![(centis(t), x)]);
    lemma_sort_sorted(seq![(centis(t), x)]);
    lemma_stamp_line_tags(t, x);
    lemma_fmt_time_parse_time(t);
    assert(spec_parse_time(f) is Some);
    assert(seq![f].drop_last() =~= Seq::<Seq<char>>::empty());
    assert(seq![f].last() == f);
    assert(crate::lrc::offset_after(Seq::<Seq<char>>::empty(), 0) == 0);
    assert(crate::lrc::offset_after(seq![f], 0) == 0);
    assert(offset_of_lines(Seq::<Seq<char>>::empty()) == 0);
}

/// Reading back a merged bilingual LRC gives each original line (in order of
/// time), followed by its translation when there is one, with the times cut to
/// centiseconds, and no offset.
pub proof fn lemma_merge_reads_back(orig: Seq<char>, trans: Seq<char>)
    requires
        trim(trans).len() > 0,
    ensures
        spec_parse_lines(spec_merge_bilingual(orig, trans)) == reparsed(
            merge_plan(spec_parse_lines(orig), spec_parse_lines(trans)),
        ),
        offset_of_lines(spec_lines(spec_merge_bilingual(orig, trans))) == 0,
{
    let ol = spec_parse_lines(orig);
    let tl = spec_parse_lines(trans);
    lemma_parse_good(orig);
    lemma_parse_good(trans);
    crate::lrc::lemma_parse_sorted(orig);
    lemma_plan_facts(ol, tl);
    let plan = merge_plan(ol, tl);
    lemma_merged_is_plan(ol, tl);
    lemma_plan_text_lines(plan);
    lemma_collected_plan(plan);
    lemma_plan_offset(plan);
    let rp = reparsed(plan);
    assert(sorted_by_time(rp)) by {
        assert forall|i: int, j: int| 0 <= i <= j < rp.len() implies rp[i].0 <= rp[j].0 by {
            assert(plan[i].0 <= plan[j].0);
            vstd::arithmetic::div_mod::lemma_div_is_ordered(
                plan[i].0 as int,
                plan[j].0 as int,
                10_000_000,
            );
        }
    }
    lemma_sort_sorted(rp);
}

/// In a merged bilingual LRC read back, the line the engine takes as current
/// is always an original line, never a translation (a translation shares its
/// time with the original line just before it).
pub proof fn lemma_merged_current_is_original(orig: Seq<char>, trans: Seq<char>, adj: int)
    requires
        trim(trans).len() > 0,
    ensures
        ({
            let plan = merge_plan(spec_parse_lines(orig), spec_parse_lines(trans));
            spec_current_line(spec_parse_lines(spec_merge_bilingual(orig, trans)), adj) matches Some(
                i,
            ) ==> 0 <= i < plan.len() && !plan[i].2
        }),
{
    let ol = spec_parse_lines(orig);
    let tl = spec_parse_lines(trans);
    lemma_merge_reads_back(orig, trans);
    lemma_parse_good(orig);
    lemma_parse_good(trans);
    crate::lrc::lemma_parse_sorted(orig);
    lemma_plan_facts(ol, tl);
    let plan = merge_plan(ol, tl);
    let rp = reparsed(plan);
    crate::engine::lemma_lead_len(rp, adj);
    let k = lead_len(rp, adj) as int;
    if k > 0 {
        lemma_run_start(rp, k - 1);
        let i = run_start(rp, k - 1);
        if plan[i].2 {
            assert(rp[i - 1].0 == centis(plan[i - 1].0));
            assert(rp[i].0 == centis(plan[i].0));
            assert(rp[i - 1].0 == rp[k - 1].0);
        }
    }
}

} // verus!
