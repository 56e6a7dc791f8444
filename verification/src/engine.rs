//! Synchronises parsed lyrics with the playback position and finds the line
//! that is current.
use vstd::prelude::*;
use crate::lrc::{Lyrics, line_views, sorted_by_time};
use crate::timestamp::MAX_NANOS;

verus! {

/// Lyrics with the user's global offset (nanoseconds), which is added to the
/// playback position before the current line is looked up.
pub struct LyricEngine {
    pub lyrics: Lyrics,
    pub user_offset: u128,
}

/// `Duration::saturating_add` on nanoseconds.
pub open spec fn sat_add(a: int, b: int) -> int {
    if a + b > MAX_NANOS {
        MAX_NANOS as int
    } else {
        a + b
    }
}

/// `Duration::saturating_sub` on nanoseconds.
pub open spec fn sat_sub(a: int, b: int) -> int {
    if a >= b {
        a - b
    } else {
        0
    }
}

/// The effective position: the user's offset added, then the LRC offset
/// (milliseconds) added when non-negative or taken away when negative.
pub open spec fn spec_adjusted(position: u128, user_offset: u128, offset_ms: i64) -> int {
    let pos = sat_add(position as int, user_offset as int);
    if offset_ms >= 0 {
        sat_add(pos, offset_ms * 1_000_000)
    } else {
        sat_sub(pos, -offset_ms * 1_000_000)
    }
}

/// How many lines at the front have times not later than `adj`.
pub open spec fn lead_len(lines: Seq<(u128, Seq<char>)>, adj: int) -> nat
    decreases lines.len(),
{
    if lines.len() == 0 {
        0
    } else if lines[0].0 <= adj {
        1 + lead_len(lines.drop_first(), adj)
    } else {
        0
    }
}

/// The first of the run of lines with the same time that ends at `i`.
pub open spec fn run_start(lines: Seq<(u128, Seq<char>)>, i: int) -> int
    decreases i,
{
    if 0 < i < lines.len() && lines[i - 1].0 == lines[i].0 {
        run_start(lines, i - 1)
    } else {
        i
    }
}

/// The current line at the effective position `adj`: the last of the leading
/// lines whose times have been reached, moved back to the first line with the
/// same time (so that an original line wins over its translation).
pub open spec fn spec_current_line(lines: Seq<(u128, Seq<char>)>, adj: int) -> Option<int> {
    let k = lead_len(lines, adj);
    if k == 0 {
        None
    } else {
        Some(run_start(lines, k - 1))
    }
}

proof fn lemma_lead_len_at(lines: Seq<(u128, Seq<char>)>, adj: int, k: int)
    requires
        0 <= k <= lines.len(),
        forall|j: int| 0 <= j < k ==> lines[j].0 <= adj,
        k < lines.len() ==> lines[k].0 > adj,
    ensures
        lead_len(lines, adj) == k,
    decreases k,
{
    if k > 0 {
        lemma_lead_len_at(lines.drop_first(), adj, k - 1);
    }
}

pub proof fn lemma_lead_len(lines: Seq<(u128, Seq<char>)>, adj: int)
    ensures
        lead_len(lines, adj) <= lines.len(),
        forall|j: int| 0 <= j < lead_len(lines, adj) ==> lines[j].0 <= adj,
        lead_len(lines, adj) < lines.len() ==> lines[lead_len(lines, adj) as int].0 > adj,
    decreases lines.len(),
{
    if lines.len() > 0 {
        lemma_lead_len(lines.drop_first(), adj);
        if lines[0].0 <= adj {
            assert forall|j: int| 0 <= j < lead_len(lines, adj) implies lines[j].0 <= adj by {
                if j > 0 {
                    assert(lines[j] == lines.drop_first()[j - 1]);
                }
            }
        }
    }
}

pub proof fn lemma_run_start(lines: Seq<(u128, Seq<char>)>, i: int)
    requires
        0 <= i < lines.len(),
    ensures
        0 <= run_start(lines, i) <= i,
        forall|j: int| run_start(lines, i) <= j <= i ==> lines[j].0 == lines[i].0,
        run_start(lines, i) > 0 ==> lines[run_start(lines, i) - 1].0 != lines[i].0,
    decreases i,
{
    if 0 < i && lines[i - 1].0 == lines[i].0 {
        lemma_run_start(lines, i - 1);
    }
}

/// On lines in order of time, the current line is the first line of the
/// latest time reached: its time has been reached, no reached line is later,
/// and every line before it is earlier.  There is none exactly when no line's
/// time has been reached.
pub proof fn lemma_current_line_sorted(lines: Seq<(u128, Seq<char>)>, adj: int)
    requires
        sorted_by_time(lines),
    ensures
        spec_current_line(lines, adj) matches Some(i) ==> {
            &&& 0 <= i < lines.len()
            &&& lines[i].0 <= adj
            &&& forall|j: int| 0 <= j < lines.len() && lines[j].0 <= adj ==> lines[j].0
                <= lines[i].0
            &&& forall|j: int| 0 <= j < i ==> lines[j].0 < lines[i].0
        },
        spec_current_line(lines, adj) is None <==> forall|j: int|
            0 <= j < lines.len() ==> lines[j].0 > adj,
{
    lemma_lead_len(lines, adj);
    let k = lead_len(lines, adj) as int;
    assert forall|j: int| k <= j < lines.len() implies lines[j].0 > adj by {
        assert(lines[k].0 <= lines[j].0);
    }
    if k > 0 {
        lemma_run_start(lines, k - 1);
        let i = run_start(lines, k - 1);
        assert forall|j: int| 0 <= j < i implies lines[j].0 < lines[i].0 by {
            assert(lines[j].0 <= lines[i - 1].0);
            assert(lines[i - 1].0 <= lines[i].0);
        }
        assert forall|j: int| 0 <= j < lines.len() && lines[j].0 <= adj implies lines[j].0
            <= lines[i].0 by {
            assert(lines[j].0 <= lines[k - 1].0);
        }
        assert(lines[0].0 <= adj);
    }
}

/// On lines in order of time, the current line never moves back as the
/// effective position moves forward.
pub proof fn lemma_current_line_monotone(lines: Seq<(u128, Seq<char>)>, a1: int, a2: int)
    requires
        sorted_by_time(lines),
        a1 <= a2,
    ensures
        spec_current_line(lines, a1) matches Some(i) ==> (spec_current_line(lines, a2) matches Some(
            j,
        ) && i <= j),
{
    lemma_current_line_sorted(lines, a1);
    lemma_current_line_sorted(lines, a2);
    if let Some(i) = spec_current_line(lines, a1) {
        assert(lines[i].0 <= a2);
        let j = spec_current_line(lines, a2)->0;
        if j < i {
            assert(lines[j].0 < lines[i].0);
            assert(lines[i].0 <= lines[j].0);
        }
    }
}

/// The LRC offset is added to the playback position (a positive offset shows
/// lines that much earlier): away from the ends of the `Duration` range, the
/// effective position with an offset of `offset_ms` is the one without it,
/// moved by `offset_ms` milliseconds.
pub proof fn lemma_offset_shifts_position(position: u128, user_offset: u128, offset_ms: i64)
    requires
        position + user_offset <= MAX_NANOS,
        0 <= position + user_offset + offset_ms * 1_000_000 <= MAX_NANOS,
    ensures
        spec_adjusted(position, user_offset, offset_ms) == spec_adjusted(position, user_offset, 0)
            + offset_ms * 1_000_000,
{
}

/// The effective position never moves back as the playback position moves forward.
pub proof fn lemma_adjusted_monotone(p1: u128, p2: u128, user_offset: u128, offset_ms: i64)
    requires
        p1 <= p2,
    ensures
        spec_adjusted(p1, user_offset, offset_ms) <= spec_adjusted(p2, user_offset, offset_ms),
{
}

impl LyricEngine {
    pub open spec fn new_spec(lyrics: Lyrics) -> LyricEngine {
        LyricEngine { lyrics, user_offset: 0 }
    }

    pub fn new(lyrics: Lyrics) -> (r: LyricEngine)
        ensures
            r == LyricEngine::new_spec(lyrics),
    {
        LyricEngine { lyrics, user_offset: 0 }
    }

    pub open spec fn spec_lines(&self) -> Seq<(u128, Seq<char>)> {
        self.lyrics.spec_lines()
    }

    pub open spec fn adjusted_at(&self, position: u128) -> int {
        spec_adjusted(position, self.user_offset, self.lyrics.offset_ms)
    }

    /// The text shown at `position`: the current line's, or empty.
    pub open spec fn text_at(&self, position: u128) -> Seq<char> {
        match spec_current_line(self.spec_lines(), self.adjusted_at(position)) {
            Some(i) => self.spec_lines()[i].1,
            None => Seq::<char>::empty(),
        }
    }

    /// For lyrics in order of time (as `parse` gives them), the current line
    /// never moves back while playback moves forward.
    pub proof fn lemma_current_line_follows_playback(&self, p1: u128, p2: u128)
        requires
            sorted_by_time(self.spec_lines()),
            p1 <= p2,
        ensures
            spec_current_line(self.spec_lines(), self.adjusted_at(p1)) matches Some(i) ==> (
            spec_current_line(self.spec_lines(), self.adjusted_at(p2)) matches Some(j) && i <= j),
    {
        lemma_adjusted_monotone(p1, p2, self.user_offset, self.lyrics.offset_ms);
        lemma_current_line_monotone(self.spec_lines(), self.adjusted_at(p1), self.adjusted_at(p2));
    }

    /// The effective position for `position`, after both offsets.
    fn adjusted(&self, position: u128) -> (r: u128)
        ensures
            r == self.adjusted_at(position),
    {
        let pos = match position.checked_add(self.user_offset) {
            Some(p) => if p > MAX_NANOS {
                MAX_NANOS
            } else {
                p
            },
            None => MAX_NANOS,
        };
        let off = self.lyrics.offset_ms;
        if off >= 0 {
            let d = (off as u128) * 1_000_000;
            if pos > MAX_NANOS - d {
                MAX_NANOS
            } else {
                pos + d
            }
        } else {
            let d = ((0 - (off as i128)) as u128) * 1_000_000;
            if pos >= d {
                pos - d
            } else {
                0
            }
        }
    }

    /// The index of the line current at `position`; `None` before the first timestamp.
    pub fn current_line(&self, position: u128) -> (r: Option<usize>)
        ensures
            r matches Some(i) ==> spec_current_line(self.spec_lines(), self.adjusted_at(position))
                == Some(i as int),
            r is None ==> spec_current_line(self.spec_lines(), self.adjusted_at(position)) is None,
            r matches Some(i) ==> i < self.lyrics.lines@.len(),
    {
        let adj = self.adjusted(position);
        let lines = &self.lyrics.lines;
        let ghost ls = self.spec_lines();
        let mut k: usize = 0;
        while k < lines.len() && lines[k].time <= adj
            invariant
                0 <= k <= lines@.len(),
                ls == line_views(lines@),
                forall|j: int| 0 <= j < k ==> lines@[j].time <= adj,
            decreases lines@.len() - k,
        {
            k = k + 1;
        }
        proof {
            lemma_lead_len_at(ls, adj as int, k as int);
        }
        if k == 0 {
            return None;
        }
        let mut i = k - 1;
        while i > 0 && lines[i - 1].time == lines[i].time
            invariant
                0 <= i < lines@.len(),
                ls == line_views(lines@),
                run_start(ls, (k - 1) as int) == run_start(ls, i as int),
            decreases i,
        {
            i = i - 1;
        }
        Some(i)
    }

    /// The text of the current line; empty when there is none.
    pub fn current_text(&self, position: u128) -> (r: String)
        ensures
            r@ == self.text_at(position),
    {
        match self.current_line(position) {
            Some(i) => self.lyrics.lines[i].text.clone(),
            None => String::new(),
        }
    }

    /// The current line and the one after it (for a preview or a second
    /// language); each empty when there is none.
    pub fn current_pair(&self, position: u128) -> (r: (String, String))
        ensures
            r.0@ == match spec_current_line(self.spec_lines(), self.adjusted_at(position)) {
                Some(i) => self.spec_lines()[i].1,
                None => Seq::<char>::empty(),
            },
            r.1@ == match spec_current_line(self.spec_lines(), self.adjusted_at(position)) {
                Some(i) => if i + 1 < self.spec_lines().len() {
                    self.spec_lines()[i + 1].1
                } else {
                    Seq::<char>::empty()
                },
                None => Seq::<char>::empty(),
            },
    {
        match self.current_line(position) {
            Some(i) => {
                let main = self.lyrics.lines[i].text.clone();
                let next = if i < self.lyrics.lines.len() - 1 {
                    self.lyrics.lines[i + 1].text.clone()
                } else {
                    String::new()
                };
                (main, next)
            },
            None => (String::new(), String::new()),
        }
    }
}

} // verus!
