//! What the system media session reports about the playing track.
use vstd::prelude::*;

verus! {

/// The playback state of a media session.
#[derive(Debug, Clone, Copy, PartialEq, Eq, Structural)]
pub enum PlaybackStatus {
    Closed,
    Playing,
    Paused,
    Stopped,
}

impl Default for PlaybackStatus {
    fn default() -> (r: PlaybackStatus)
        ensures
            r == PlaybackStatus::Closed,
    {
        PlaybackStatus::Closed
    }
}

impl PlaybackStatus {
    pub open spec fn spec_is_active(self) -> bool {
        self is Playing || self is Paused
    }

    /// A session that is playing or paused.
    pub fn is_active(self) -> (r: bool)
        ensures
            r == self.spec_is_active(),
    {
        match self {
            PlaybackStatus::Playing | PlaybackStatus::Paused => true,
            _ => false,
        }
    }

    pub open spec fn spec_is_playing(self) -> bool {
        self is Playing
    }

    /// A session whose playback position advances (playing, not paused).
    pub fn is_playing(self) -> (r: bool)
        ensures
            r == self.spec_is_playing(),
    {
        match self {
            PlaybackStatus::Playing => true,
            _ => false,
        }
    }
}

/// One reading of the media session; `position` and `duration` are in nanoseconds.
#[derive(Debug, Clone)]
pub struct MediaMetadata {
    pub title: String,
    pub artist: String,
    pub album: String,
    pub album_artist: String,
    pub source_app: String,
    pub playback_status: PlaybackStatus,
    pub position: u128,
    pub duration: u128,
}

impl Default for MediaMetadata {
    fn default() -> (r: MediaMetadata)
        ensures
            r.title@.len() == 0,
            r.artist@.len() == 0,
            r.album@.len() == 0,
            r.album_artist@.len() == 0,
            r.source_app@.len() == 0,
            r.playback_status == PlaybackStatus::Closed,
            r.position == 0,
            r.duration == 0,
    {
        MediaMetadata {
            title: String::new(),
            artist: String::new(),
            album: String::new(),
            album_artist: String::new(),
            source_app: String::new(),
            playback_status: PlaybackStatus::Closed,
            position: 0,
            duration: 0,
        }
    }
}

/// A session timestamp, in 100-nanosecond ticks, as a length of time
/// (its magnitude) in nanoseconds.
pub fn ticks_to_nanos(ticks: i64) -> (r: u128)
    requires
        (if ticks < 0 { -ticks } else { ticks as int }) * 100 <= u64::MAX,
    ensures
        r == (if ticks < 0 { -ticks } else { ticks as int }) * 100,
{
    let mag: u128 = if ticks < 0 {
        (0 - (ticks as i128)) as u128
    } else {
        ticks as u128
    };
    mag * 100
}

/// The length of a timeline that runs from `start` to `end` (ticks); zero
/// when it does not run forward.
pub fn timeline_duration(start: i64, end: i64) -> (r: u128)
    requires
        end > start ==> end - start <= i64::MAX && (end - start) * 100 <= u64::MAX,
    ensures
        r == (if end > start { (end - start) * 100 } else { 0 }),
{
    if end > start {
        ticks_to_nanos(end - start)
    } else {
        0
    }
}

/// The reading of a session, or `None` when it is closed and has no title.
pub fn session_snapshot(
    title: String,
    artist: String,
    album: String,
    album_artist: String,
    source_app: String,
    playback_status: PlaybackStatus,
    position: u128,
    duration: u128,
) -> (r: Option<MediaMetadata>)
    ensures
        (playback_status is Closed && title@.len() == 0) <==> r is None,
        r matches Some(m) ==> {
            &&& m.title@ == title@
            &&& m.artist@ == artist@
            &&& m.album@ == album@
            &&& m.album_artist@ == album_artist@
            &&& m.source_app@ == source_app@
            &&& m.playback_status == playback_status
            &&& m.position == position
            &&& m.duration == duration
        },
{
    if playback_status == PlaybackStatus::Closed && title.as_str().is_empty() {
        return None;
    }
    Some(
        MediaMetadata {
            title,
            artist,
            album,
            album_artist,
            source_app,
            playback_status,
            position,
            duration,
        },
    )
}

} // verus!
