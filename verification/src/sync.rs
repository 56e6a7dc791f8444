//! The decisions of the playback loop: when to fetch lyrics, how the playback
//! position is followed between readings of the media session, and what to show.
//!
//! The loop itself (reading the session, fetching, sleeping, drawing) runs
//! outside; it hands each reading and each fetch result to [`SyncState`] and
//! carries out the [`Effect`]s it gets back.  Times are nanoseconds; `now` is a
//! monotonic clock reading.
use vstd::prelude::*;
use crate::engine::{LyricEngine, sat_add, sat_sub};
use crate::lrc::Lyrics;
use crate::media::MediaMetadata;
use crate::text::{chars_of, string_from_chars};

verus! {

/// One reading of the media session.
pub enum Poll {
    /// A session with this track.
    Track(MediaMetadata),
    /// No session, or a closed one without a title.
    NoSession,
    /// The session could not be read.
    Failed,
}

/// Lyrics to fetch for a newly started track.
pub struct LyricsQuery {
    pub title: String,
    pub artist: String,
    /// The session belongs to NetEase Cloud Music, whose lyrics come first.
    pub prefer_netease: bool,
}

/// The outcome of fetching lyrics.
pub enum Resolution {
    Found(Lyrics),
    NotFound,
    Failed,
}

/// What the loop does in answer to a reading.
pub enum Effect {
    /// Show this lyric text (empty: show nothing).
    Show(String),
    /// Set the tray tooltip to this track description.
    TrackTooltip(String),
    /// Set the tray tooltip back to the program's own description.
    IdleTooltip,
    /// No lyrics were found for the new track.
    NoLyrics,
}

/// The loop's memory between readings.
pub struct SyncState {
    /// The track last seen (title and artist); empty when there is none.
    pub last_key: String,
    /// The lyrics of that track, when some were found.
    pub engine: Option<LyricEngine>,
    /// The position at the last calibration.
    pub tracked_position: u128,
    /// When `tracked_position` was last calibrated, while it advances.
    pub track_anchor: Option<u128>,
    /// Whether the session was playing (its position advancing) at the last
    /// reading.
    pub last_status_playing: bool,
}

/// The key that tells tracks apart: title and artist, joined by two U+001F.
pub open spec fn key_of(title: Seq<char>, artist: Seq<char>) -> Seq<char> {
    title + seq!['\u{1f}', '\u{1f}'] + artist
}

/// The tooltip for a track: `title - artist`.
pub open spec fn tooltip_of(title: Seq<char>, artist: Seq<char>) -> Seq<char> {
    title + seq![' ', '-', ' '] + artist
}

/// `netease`, in any mix of ASCII case, starts at `i`.
pub open spec fn netease_at(s: Seq<char>, i: int) -> bool {
    &&& (s[i] == 'n' || s[i] == 'N')
    &&& (s[i + 1] == 'e' || s[i + 1] == 'E')
    &&& (s[i + 2] == 't' || s[i + 2] == 'T')
    &&& (s[i + 3] == 'e' || s[i + 3] == 'E')
    &&& (s[i + 4] == 'a' || s[i + 4] == 'A')
    &&& (s[i + 5] == 's' || s[i + 5] == 'S')
    &&& (s[i + 6] == 'e' || s[i + 6] == 'E')
}

/// The lower-cased app id contains `netease`.  (Only ASCII letters lower-case
/// to the ASCII letters of `netease`, so this is a search that ignores ASCII case.)
pub open spec fn names_netease(s: Seq<char>) -> bool {
    exists|i: int| 0 <= i && i + 7 <= s.len() && netease_at(s, i)
}

/// The position estimated at `now`: the base position plus the time since
/// the anchor, when there is one.
pub open spec fn estimate(base: u128, anchor: Option<u128>, now: u128) -> int {
    match anchor {
        Some(a) => sat_add(base as int, sat_sub(now as int, a as int)),
        None => base as int,
    }
}

/// Position and anchor after a reading: the clock starts when playback
/// starts, the position freezes when it pauses or stops, and while it plays
/// the reported position is taken over when it is within two seconds of the
/// estimate (or the estimate is still under one second).
pub open spec fn next_tracking(
    base: u128,
    anchor: Option<u128>,
    last: bool,
    playing: bool,
    position: u128,
    now: u128,
) -> (u128, Option<u128>) {
    if playing && !last {
        (base, Some(now))
    } else if !playing && last {
        (estimate(base, anchor, now) as u128, None)
    } else if playing && position > 0 {
        let te = estimate(base, anchor, now);
        let diff = if position > te {
            position - te
        } else {
            te - position
        };
        if diff < 2_000_000_000 || te < 1_000_000_000 {
            (position, Some(now))
        } else {
            (base, anchor)
        }
    } else {
        (base, anchor)
    }
}

/// The position the lyrics follow: the estimate while playing, else the
/// frozen base position.
pub open spec fn effective(base: u128, anchor: Option<u128>, playing: bool, now: u128) -> int {
    if playing {
        estimate(base, anchor, now)
    } else {
        base as int
    }
}

/// `effects` is one `Show` of `text`.
pub open spec fn shows(effects: Seq<Effect>, text: Seq<char>) -> bool {
    effects.len() == 1 && (effects[0] matches Effect::Show(t) && t@ == text)
}

/// What a reading shows: the line at `position` while the session is active,
/// playing or paused (nothing when there are no lyrics), an empty text while
/// it is stopped or closed.
pub open spec fn display_effects(
    effects: Seq<Effect>,
    engine: Option<LyricEngine>,
    active: bool,
    position: u128,
) -> bool {
    if active {
        match engine {
            Some(e) => shows(effects, e.text_at(position)),
            None => effects.len() == 0,
        }
    } else {
        shows(effects, Seq::<char>::empty())
    }
}

/// While playing, a reading that reports position 0 (a player that does not
/// report its position) calibrates nothing: the clock keeps running from the
/// last calibration.
pub proof fn lemma_zero_report_keeps_clock(base: u128, anchor: Option<u128>, now: u128)
    ensures
        next_tracking(base, anchor, true, true, 0, now) == (base, anchor),
{
}

/// Without lyrics nothing is drawn while the session is active, playing or
/// paused (whatever was shown last, such as the notice that there are no
/// lyrics, stays); once it is stopped or closed the text is cleared.
pub proof fn lemma_no_lyrics_draws_nothing(effects: Seq<Effect>, active: bool, position: u128)
    ensures
        display_effects(effects, None, active, position) ==> (if active {
            effects.len() == 0
        } else {
            effects.len() == 1 && (effects[0] matches Effect::Show(t) && t@.len() == 0)
        }),
{
}

/// While the session stays paused or stopped, the position stays where it
/// was, whatever the readings report and whenever they come.
pub proof fn lemma_not_playing_keeps_position(base: u128, anchor: Option<u128>, position: u128, now: u128)
    ensures
        next_tracking(base, anchor, false, false, position, now) == (base, anchor),
        effective(base, anchor, false, now) == base,
{
}

/// When playback pauses or stops, the position is frozen at the estimate of
/// that moment, and later readings that are not playing keep it, whatever
/// they report and whenever they come.  While paused, every reading shows
/// the line at that frozen position.
pub proof fn lemma_pause_freezes_position(
    base: u128,
    anchor: Option<u128>,
    p1: u128,
    n1: u128,
    p2: u128,
    n2: u128,
    engine: LyricEngine,
    effects: Seq<Effect>,
)
    ensures
        next_tracking(base, anchor, true, false, p1, n1) == (
            estimate(base, anchor, n1) as u128,
            None::<u128>,
        ),
        ({
            let s1 = next_tracking(base, anchor, true, false, p1, n1);
            next_tracking(s1.0, s1.1, false, false, p2, n2) == s1 && effective(
                s1.0,
                s1.1,
                false,
                n2,
            ) == estimate(base, anchor, n1)
        }),
        ({
            let s1 = next_tracking(base, anchor, true, false, p1, n1);
            let s2 = next_tracking(s1.0, s1.1, false, false, p2, n2);
            display_effects(effects, Some(engine), true, effective(s2.0, s2.1, false, n2) as u128)
                ==> shows(effects, engine.text_at(estimate(base, anchor, n1) as u128))
        }),
{
    let e = estimate(base, anchor, n1);
    assert(0 <= e <= u128::MAX);
}

/// When playback resumes, the clock restarts from the frozen position: the
/// position shown at that moment is the frozen one.
pub proof fn lemma_resume_continues(base: u128, anchor: Option<u128>, position: u128, now: u128)
    requires
        base <= crate::timestamp::MAX_NANOS,
    ensures
        next_tracking(base, anchor, false, true, position, now) == (base, Some(now)),
        effective(base, Some(now), true, now) == base,
{
}

/// While playing without a new calibration, the estimated position never
/// moves back as time passes.
pub proof fn lemma_estimate_advances(base: u128, anchor: Option<u128>, n1: u128, n2: u128)
    requires
        n1 <= n2,
    ensures
        estimate(base, anchor, n1) <= estimate(base, anchor, n2),
{
}

/// While playing, a reported position within two seconds of the estimate is
/// taken over, and the position shown at that moment is the reported one.
pub proof fn lemma_calibration_adopts_report(
    base: u128,
    anchor: Option<u128>,
    position: u128,
    now: u128,
)
    requires
        position > 0,
        position <= crate::timestamp::MAX_NANOS,
        -2_000_000_000 < position - estimate(base, anchor, now) < 2_000_000_000,
    ensures
        next_tracking(base, anchor, true, true, position, now) == (position, Some(now)),
        effective(position, Some(now), true, now) == position,
{
}

/// The track key after a reading: the reading's track, none (empty) when
/// there is no session, unchanged when the session could not be read.
pub open spec fn next_key(last: Seq<char>, poll: Poll) -> Seq<char> {
    match poll {
        Poll::Track(m) => key_of(m.title@, m.artist@),
        Poll::NoSession => Seq::<char>::empty(),
        Poll::Failed => last,
    }
}

/// A reading asks for lyrics: it shows a track other than the last one.
pub open spec fn asks(last: Seq<char>, poll: Poll) -> bool {
    poll matches Poll::Track(m) && key_of(m.title@, m.artist@) != last
}

/// The track key after a run of readings.
pub open spec fn key_after(start: Seq<char>, polls: Seq<Poll>) -> Seq<char>
    decreases polls.len(),
{
    if polls.len() == 0 {
        start
    } else {
        next_key(key_after(start, polls.drop_last()), polls.last())
    }
}

/// Over a run of readings that all show the same track, lyrics are asked for
/// once at most, at the first reading, and there exactly when the track seen
/// before the run (none after a reading without a session) was another one.
pub proof fn lemma_one_request_per_track(
    start: Seq<char>,
    polls: Seq<Poll>,
    title: Seq<char>,
    artist: Seq<char>,
)
    requires
        polls.len() > 0,
        forall|i: int|
            0 <= i < polls.len() ==> (#[trigger] polls[i] matches Poll::Track(m) && m.title@
                == title && m.artist@ == artist),
    ensures
        asks(start, polls[0]) == (start != key_of(title, artist)),
        forall|i: int| 1 <= i < polls.len() ==> !asks(key_after(start, polls.take(i)), #[trigger] polls[i]),
        key_of(title, artist).len() > 0,
    decreases polls.len(),
{
    let k = key_of(title, artist);
    assert(k.len() > 0);
    assert(polls[0] matches Poll::Track(m) && m.title@ == title && m.artist@ == artist);
    assert forall|i: int| 1 <= i < polls.len() implies !asks(
        key_after(start, polls.take(i)),
        #[trigger] polls[i],
    ) by {
        lemma_key_after_run(start, polls, title, artist, i);
        assert(polls[i] matches Poll::Track(m) && m.title@ == title && m.artist@ == artist);
    }
}

proof fn lemma_key_after_run(
    start: Seq<char>,
    polls: Seq<Poll>,
    title: Seq<char>,
    artist: Seq<char>,
    i: int,
)
    requires
        1 <= i <= polls.len(),
        forall|j: int|
            0 <= j < polls.len() ==> (#[trigger] polls[j] matches Poll::Track(m) && m.title@
                == title && m.artist@ == artist),
    ensures
        key_after(start, polls.take(i)) == key_of(title, artist),
    decreases i,
{
    let t = polls.take(i);
    assert(t.drop_last() =~= polls.take(i - 1));
    assert(t.last() == polls[i - 1]);
    assert(polls[i - 1] matches Poll::Track(m) && m.title@ == title && m.artist@ == artist);
    if i > 1 {
        lemma_key_after_run(start, polls, title, artist, i - 1);
    }
}

fn concat3(a: &String, mid: &Vec<char>, b: &String) -> (r: String)
    ensures
        r@ == a@ + mid@ + b@,
{
    let mut v = chars_of(a.as_str());
    let mut m = mid.clone();
    let mut w = chars_of(b.as_str());
    v.append(&mut m);
    v.append(&mut w);
    string_from_chars(v.as_slice())
}

/// The key of a track.
pub fn track_key(title: &String, artist: &String) -> (r: String)
    ensures
        r@ == key_of(title@, artist@),
{
    let sep = vec!['\u{1f}', '\u{1f}'];
    assert(sep@ =~= seq!['\u{1f}', '\u{1f}']);
    concat3(title, &sep, artist)
}

/// The tooltip of a track.
pub fn track_tooltip(title: &String, artist: &String) -> (r: String)
    ensures
        r@ == tooltip_of(title@, artist@),
{
    let sep = vec![' ', '-', ' '];
    assert(sep@ =~= seq![' ', '-', ' ']);
    concat3(title, &sep, artist)
}

/// `c` with ASCII capitals lowered (what `str::to_lowercase` does to them).
pub open spec fn ascii_lower(c: char) -> char {
    if 'A' <= c <= 'Z' {
        ((c as u32) + 32) as char
    } else {
        c
    }
}

/// The seven characters of `netease`.
pub open spec fn netease_word() -> Seq<char> {
    seq!['n', 'e', 't', 'e', 'a', 's', 'e']
}

/// The seven characters of `s` from `i` on lower to those of `netease`.
pub open spec fn lowers_to_netease_at(s: Seq<char>, i: int) -> bool {
    forall|k: int| 0 <= k < 7 ==> #[trigger] ascii_lower(s[i + k]) == netease_word()[k]
}

/// The app id, lower-cased, holds `netease` somewhere.
pub open spec fn lowered_holds_netease(s: Seq<char>) -> bool {
    exists|i: int| 0 <= i && i + 7 <= s.len() && #[trigger] lowers_to_netease_at(s, i)
}

proof fn lemma_netease_at_lowered(s: Seq<char>, i: int)
    requires
        0 <= i && i + 7 <= s.len(),
    ensures
        netease_at(s, i) == lowers_to_netease_at(s, i),
{
    let w = netease_word();
    assert(w[0] == 'n' && w[1] == 'e' && w[2] == 't' && w[3] == 'e' && w[4] == 'a' && w[5]
        == 's' && w[6] == 'e');
    assert forall|k: int| 0 <= k < 7 implies (#[trigger] ascii_lower(s[i + k]) == w[k]) == (
    s[i + k] == w[k] || s[i + k] as u32 == w[k] as u32 - 32) by {
        let c = s[i + k];
        if 'A' <= c <= 'Z' {
            assert(ascii_lower(c) as u32 == c as u32 + 32);
        }
    }
    if !netease_at(s, i) {
        if s[i] != 'n' && s[i] != 'N' {
            assert(ascii_lower(s[i + 0]) != w[0]);
        } else if s[i + 1] != 'e' && s[i + 1] != 'E' {
            assert(ascii_lower(s[i + 1]) != w[1]);
        } else if s[i + 2] != 't' && s[i + 2] != 'T' {
            assert(ascii_lower(s[i + 2]) != w[2]);
        } else if s[i + 3] != 'e' && s[i + 3] != 'E' {
            assert(ascii_lower(s[i + 3]) != w[3]);
        } else if s[i + 4] != 'a' && s[i + 4] != 'A' {
            assert(ascii_lower(s[i + 4]) != w[4]);
        } else if s[i + 5] != 's' && s[i + 5] != 'S' {
            assert(ascii_lower(s[i + 5]) != w[5]);
        } else {
            assert(ascii_lower(s[i + 6]) != w[6]);
        }
    }
}

/// An app id names NetEase exactly when, lower-cased, it holds `netease`
/// at some position: at its start, its end or anywhere between.
pub proof fn lemma_names_netease_anywhere(s: Seq<char>)
    ensures
        names_netease(s) == lowered_holds_netease(s),
{
    if names_netease(s) {
        let i = choose|i: int| 0 <= i && i + 7 <= s.len() && netease_at(s, i);
        lemma_netease_at_lowered(s, i);
    }
    if lowered_holds_netease(s) {
        let i = choose|i: int| 0 <= i && i + 7 <= s.len() && #[trigger] lowers_to_netease_at(s, i);
        lemma_netease_at_lowered(s, i);
    }
}

/// Whether the app id names NetEase Cloud Music.
pub fn is_netease(source_app: &String) -> (r: bool)
    ensures
        r == names_netease(source_app@),
        r == lowered_holds_netease(source_app@),
{
    proof {
        lemma_names_netease_anywhere(source_app@);
    }
    let cs = chars_of(source_app.as_str());
    if cs.len() < 7 {
        return false;
    }
    let mut i: usize = 0;
    while i <= cs.len() - 7
        invariant
            cs@ == source_app@,
            cs@.len() >= 7,
            0 <= i <= cs@.len() - 6,
            names_netease(source_app@) == lowered_holds_netease(source_app@),
            forall|j: int| 0 <= j < i ==> !netease_at(cs@, j),
        decreases cs@.len() - i,
    {
        let hit = (cs[i] == 'n' || cs[i] == 'N') && (cs[i + 1] == 'e' || cs[i + 1] == 'E') && (
        cs[i + 2] == 't' || cs[i + 2] == 'T') && (cs[i + 3] == 'e' || cs[i + 3] == 'E') && (cs[i
            + 4] == 'a' || cs[i + 4] == 'A') && (cs[i + 5] == 's' || cs[i + 5] == 'S') && (cs[i
            + 6] == 'e' || cs[i + 6] == 'E');
        if hit {
            assert(netease_at(cs@, i as int));
            return true;
        }
        i = i + 1;
    }
    false
}

fn sat_add_nanos(a: u128, b: u128) -> (r: u128)
    ensures
        r == sat_add(a as int, b as int),
{
    match a.checked_add(b) {
        Some(s) => if s > crate::timestamp::MAX_NANOS {
            crate::timestamp::MAX_NANOS
        } else {
            s
        },
        None => crate::timestamp::MAX_NANOS,
    }
}

fn estimate_at(base: u128, anchor: Option<u128>, now: u128) -> (r: u128)
    ensures
        r == estimate(base, anchor, now),
{
    match anchor {
        Some(a) => sat_add_nanos(
            base,
            if now >= a {
                now - a
            } else {
                0
            },
        ),
        None => base,
    }
}

impl SyncState {
    /// The state before the first reading.
    pub fn new() -> (r: SyncState)
        ensures
            r.last_key@.len() == 0,
            r.engine is None,
            r.tracked_position == 0,
            r.track_anchor is None,
            !r.last_status_playing,
    {
        SyncState {
            last_key: String::new(),
            engine: None,
            tracked_position: 0,
            track_anchor: None,
            last_status_playing: false,
        }
    }

    /// Follows the playback state of a reading of the current track and says
    /// what to show.
    fn track_playback(&mut self, m: &MediaMetadata, now: u128) -> (r: Vec<Effect>)
        ensures
            (final(self).tracked_position, final(self).track_anchor) == next_tracking(
                old(self).tracked_position,
                old(self).track_anchor,
                old(self).last_status_playing,
                m.playback_status.spec_is_playing(),
                m.position,
                now,
            ),
            final(self).last_status_playing == m.playback_status.spec_is_playing(),
            final(self).engine == old(self).engine,
            final(self).last_key == old(self).last_key,
            m.playback_status.spec_is_active() && final(self).engine is None ==> r@.len() == 0,
            m.playback_status.spec_is_playing() && old(self).last_status_playing && m.position
                == 0 ==> (final(self).tracked_position, final(self).track_anchor) == (
                old(self).tracked_position,
                old(self).track_anchor,
            ),
            display_effects(
                r@,
                final(self).engine,
                m.playback_status.spec_is_active(),
                effective(
                    final(self).tracked_position,
                    final(self).track_anchor,
                    m.playback_status.spec_is_playing(),
                    now,
                ) as u128,
            ),
    {
        let playing = m.playback_status.is_playing();
        let active = m.playback_status.is_active();
        if playing && !self.last_status_playing {
            self.track_anchor = Some(now);
        } else if !playing && self.last_status_playing {
            self.tracked_position = estimate_at(self.tracked_position, self.track_anchor, now);
            self.track_anchor = None;
        } else if playing {
            if m.position > 0 {
                let te = estimate_at(self.tracked_position, self.track_anchor, now);
                let diff = if m.position > te {
                    m.position - te
                } else {
                    te - m.position
                };
                if diff < 2_000_000_000 || te < 1_000_000_000 {
                    self.tracked_position = m.position;
                    self.track_anchor = Some(now);
                }
            }
        }
        self.last_status_playing = playing;
        let eff = if playing {
            estimate_at(self.tracked_position, self.track_anchor, now)
        } else {
            self.tracked_position
        };
        let mut effects: Vec<Effect> = Vec::new();
        if active {
            match &self.engine {
                Some(e) => {
                    effects.push(Effect::Show(e.current_text(eff)));
                },
                None => {},
            }
        } else {
            effects.push(Effect::Show(String::new()));
        }
        effects
    }

    /// Takes in one reading of the media session.  A newly seen track asks for
    /// its lyrics (and the rest of the reading waits for them, see
    /// [`SyncState::on_lyrics`]); the same track advances the tracking.
    pub fn on_poll(&mut self, poll: &Poll, now: u128) -> (r: (Option<LyricsQuery>, Vec<Effect>))
        ensures
            final(self).last_key@ == next_key(old(self).last_key@, *poll),
            (r.0 is Some) == asks(old(self).last_key@, *poll),
            match poll {
                Poll::Track(m) => if key_of(m.title@, m.artist@) != old(self).last_key@ {
                    &&& final(self).last_key@ == key_of(m.title@, m.artist@)
                    &&& final(self).engine == old(self).engine
                    &&& final(self).tracked_position == old(self).tracked_position
                    &&& final(self).track_anchor == old(self).track_anchor
                    &&& final(self).last_status_playing == old(self).last_status_playing
                    &&& r.0 matches Some(q) && q.title@ == m.title@ && q.artist@ == m.artist@
                        && q.prefer_netease == names_netease(m.source_app@)
                    &&& r.1@.len() == 1
                    &&& r.1@[0] matches Effect::TrackTooltip(t) && t@ == tooltip_of(
                        m.title@,
                        m.artist@,
                    )
                } else {
                    &&& r.0 is None
                    &&& (final(self).tracked_position, final(self).track_anchor)
                        == next_tracking(
                        old(self).tracked_position,
                        old(self).track_anchor,
                        old(self).last_status_playing,
                        m.playback_status.spec_is_playing(),
                        m.position,
                        now,
                    )
                    &&& final(self).last_status_playing == m.playback_status.spec_is_playing()
                    &&& final(self).engine == old(self).engine
                    &&& final(self).last_key == old(self).last_key
                    &&& (m.playback_status.spec_is_active() && final(self).engine is None
                        ==> r.1@.len() == 0)
                    &&& (m.playback_status.spec_is_playing() && old(self).last_status_playing
                        && m.position == 0 ==> final(self).tracked_position == old(
                        self,
                    ).tracked_position && final(self).track_anchor == old(self).track_anchor)
                    &&& display_effects(
                        r.1@,
                        final(self).engine,
                        m.playback_status.spec_is_active(),
                        effective(
                            final(self).tracked_position,
                            final(self).track_anchor,
                            m.playback_status.spec_is_playing(),
                            now,
                        ) as u128,
                    )
                },
                Poll::NoSession => {
                    &&& r.0 is None
                    &&& if old(self).last_key@.len() > 0 {
                        &&& final(self).last_key@.len() == 0
                        &&& final(self).engine is None
                        &&& final(self).track_anchor is None
                        &&& final(self).tracked_position == 0
                        &&& final(self).last_status_playing == old(self).last_status_playing
                        &&& r.1@.len() == 2
                        &&& r.1@[0] is IdleTooltip
                        &&& r.1@[1] matches Effect::Show(t) && t@.len() == 0
                    } else {
                        &&& *final(self) == *old(self)
                        &&& shows(r.1@, Seq::<char>::empty())
                    }
                },
                Poll::Failed => *final(self) == *old(self) && r.0 is None && r.1@.len() == 0,
            },
    {
        match poll {
            Poll::Track(m) => {
                let key = track_key(&m.title, &m.artist);
                if !(key == self.last_key) {
                    self.last_key = key;
                    let query = LyricsQuery {
                        title: m.title.clone(),
                        artist: m.artist.clone(),
                        prefer_netease: is_netease(&m.source_app),
                    };
                    let mut effects: Vec<Effect> = Vec::new();
                    effects.push(Effect::TrackTooltip(track_tooltip(&m.title, &m.artist)));
                    (Some(query), effects)
                } else {
                    (None, self.track_playback(m, now))
                }
            },
            Poll::NoSession => {
                let mut effects: Vec<Effect> = Vec::new();
                if !self.last_key.as_str().is_empty() {
                    self.last_key = String::new();
                    self.engine = None;
                    self.track_anchor = None;
                    self.tracked_position = 0;
                    effects.push(Effect::IdleTooltip);
                }
                effects.push(Effect::Show(String::new()));
                (None, effects)
            },
            Poll::Failed => (None, Vec::new()),
        }
    }

    /// Finishes the reading that started a new track, once its lyrics have
    /// been fetched: keeps the lyrics found (a failed fetch keeps the previous
    /// ones), restarts tracking at the reported position, and says what to show.
    pub fn on_lyrics(&mut self, found: Resolution, m: &MediaMetadata, now: u128) -> (r: Vec<Effect>)
        ensures
            final(self).last_key == old(self).last_key,
            final(self).last_status_playing == m.playback_status.spec_is_playing(),
            (final(self).tracked_position, final(self).track_anchor) == next_tracking(
                m.position,
                if m.playback_status.spec_is_playing() {
                    Some(now)
                } else {
                    None
                },
                m.playback_status.spec_is_playing(),
                m.playback_status.spec_is_playing(),
                m.position,
                now,
            ),
            found is NotFound && m.playback_status.spec_is_active() ==> r@.len() == 1
                && r@[0] is NoLyrics,
            match found {
                Resolution::Found(l) => final(self).engine == Some(LyricEngine::new_spec(l)),
                Resolution::NotFound => final(self).engine is None,
                Resolution::Failed => final(self).engine == old(self).engine,
            },
            ({
                let shown = if found is NotFound {
                    r@.drop_first()
                } else {
                    r@
                };
                &&& found is NotFound ==> (r@.len() > 0 && r@[0] is NoLyrics)
                &&& display_effects(
                    shown,
                    final(self).engine,
                    m.playback_status.spec_is_active(),
                    effective(
                        final(self).tracked_position,
                        final(self).track_anchor,
                        m.playback_status.spec_is_playing(),
                        now,
                    ) as u128,
                )
            }),
    {
        let mut effects: Vec<Effect> = Vec::new();
        match found {
            Resolution::Found(l) => {
                self.engine = Some(LyricEngine::new(l));
            },
            Resolution::NotFound => {
                self.engine = None;
                effects.push(Effect::NoLyrics);
            },
            Resolution::Failed => {},
        }
        let playing = m.playback_status.is_playing();
        self.tracked_position = m.position;
        self.track_anchor = if playing {
            Some(now)
        } else {
            None
        };
        self.last_status_playing = playing;
        let ghost before = effects@;
        let mut rest = self.track_playback(m, now);
        let ghost shown = rest@;
        effects.append(&mut rest);
        proof {
            if before.len() == 1 {
                assert(effects@.drop_first() =~= shown);
            } else {
                assert(effects@ =~= shown);
            }
        }
        effects
    }
}

} // verus!
