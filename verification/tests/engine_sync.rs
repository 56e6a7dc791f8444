use lyricbar::engine::LyricEngine;
use lyricbar::lrc::{merge_bilingual, parse, LyricLine, Lyrics};
use lyricbar::media::{MediaMetadata, PlaybackStatus};
use lyricbar::sync::{is_netease, track_key, track_tooltip, Effect, Poll, Resolution, SyncState};

const SEC: u128 = 1_000_000_000;
const MS: u128 = 1_000_000;

fn lyrics(items: &[(u128, &str)], offset_ms: i64) -> Lyrics {
    Lyrics {
        lines: items.iter().map(|(t, s)| LyricLine { time: *t, text: s.to_string() }).collect(),
        offset_ms,
    }
}

#[test]
fn current_line_positions() {
    let e = LyricEngine::new(lyrics(&[(SEC, "a"), (2 * SEC, "b"), (3 * SEC, "c")], 0));
    assert_eq!(e.user_offset, 0);
    assert_eq!(e.current_line(0), None);
    assert_eq!(e.current_line(SEC - 1), None);
    assert_eq!(e.current_line(SEC), Some(0));
    assert_eq!(e.current_line(2 * SEC + 1), Some(1));
    assert_eq!(e.current_line(100 * SEC), Some(2));
}

#[test]
fn current_line_prefers_first_of_equal_times() {
    let e = LyricEngine::new(lyrics(&[(SEC, "a"), (2 * SEC, "orig"), (2 * SEC, "trans"), (3 * SEC, "c")], 0));
    assert_eq!(e.current_line(2 * SEC + 500 * MS), Some(1));
    assert_eq!(e.current_text(2 * SEC + 500 * MS), "orig");
}

#[test]
fn current_line_stops_at_first_later_line() {
    let e = LyricEngine::new(lyrics(&[(SEC, "a"), (5 * SEC, "b"), (2 * SEC, "c")], 0));
    assert_eq!(e.current_line(3 * SEC), Some(0));
}

#[test]
fn offsets_shift_the_position() {
    let mut e = LyricEngine::new(lyrics(&[(SEC, "a"), (2 * SEC, "b")], 500));
    assert_eq!(e.current_line(600 * MS), Some(0));
    e.lyrics.offset_ms = -500;
    assert_eq!(e.current_line(SEC), None);
    assert_eq!(e.current_line(1500 * MS), Some(0));
    e.user_offset = 1000 * MS;
    assert_eq!(e.current_line(1500 * MS), Some(1));
    e.lyrics.offset_ms = i64::MIN;
    assert_eq!(e.current_line(100 * SEC), None);
}

#[test]
fn current_text_and_pair() {
    let e = LyricEngine::new(lyrics(&[(SEC, "a"), (2 * SEC, "b")], 0));
    assert_eq!(e.current_text(0), "");
    assert_eq!(e.current_pair(0), (String::new(), String::new()));
    assert_eq!(e.current_pair(SEC), ("a".to_string(), "b".to_string()));
    assert_eq!(e.current_pair(3 * SEC), ("b".to_string(), String::new()));
}

#[test]
fn current_line_never_moves_back() {
    let e = LyricEngine::new(parse("[00:01.00]a\n[00:01.00]b\n[00:03.00]c\n[00:02.00]d"));
    let mut last: Option<usize> = None;
    for p in 0..50u128 {
        let now = e.current_line(p * 100 * MS);
        if let Some(i) = last {
            assert!(now.unwrap() >= i);
        }
        last = now;
    }
}

#[test]
fn merged_lyrics_show_the_original() {
    let merged = merge_bilingual("[00:01.00]One\n[00:02.00]Two", "[00:01.00]Uno\n[00:02.00]Dos");
    let e = LyricEngine::new(parse(&merged));
    assert_eq!(e.current_text(1500 * MS), "One");
    assert_eq!(e.current_pair(2500 * MS), ("Two".to_string(), "Dos".to_string()));
}

fn track(title: &str, artist: &str, app: &str, status: PlaybackStatus, position: u128) -> MediaMetadata {
    let mut m = MediaMetadata::default();
    m.title = title.to_string();
    m.artist = artist.to_string();
    m.source_app = app.to_string();
    m.playback_status = status;
    m.position = position;
    m
}

fn shown(effects: &[Effect]) -> Vec<String> {
    effects
        .iter()
        .filter_map(|e| match e {
            Effect::Show(t) => Some(t.clone()),
            _ => None,
        })
        .collect()
}

#[test]
fn keys_tooltips_and_app_names() {
    let t = "T".to_string();
    let a = "A".to_string();
    assert_eq!(track_key(&t, &a), "T\u{1f}\u{1f}A");
    assert_eq!(track_tooltip(&t, &a), "T - A");
    assert!(is_netease(&"NetEase.CloudMusic".to_string()));
    assert!(is_netease(&"cloudmusic.NETEASE".to_string()));
    assert!(!is_netease(&"Spotify.exe".to_string()));
    assert!(!is_netease(&"netea".to_string()));
}

#[test]
fn new_track_asks_for_lyrics_then_shows_them() {
    let mut st = SyncState::new();
    let m = track("Song", "Artist", "NetEase.CloudMusic", PlaybackStatus::Playing, 1500 * MS);
    let (q, effects) = st.on_poll(&Poll::Track(track("Song", "Artist", "NetEase.CloudMusic", PlaybackStatus::Playing, 1500 * MS)), 10 * SEC);
    let q = q.expect("a new track asks for lyrics");
    assert_eq!(q.title, "Song");
    assert_eq!(q.artist, "Artist");
    assert!(q.prefer_netease);
    assert!(matches!(&effects[..], [Effect::TrackTooltip(t)] if t == "Song - Artist"));
    assert_eq!(st.last_key, "Song\u{1f}\u{1f}Artist");

    let e = st.on_lyrics(Resolution::Found(lyrics(&[(SEC, "one"), (2 * SEC, "two")], 0)), &m, 10 * SEC);
    assert_eq!(shown(&e), vec!["one".to_string()]);
    assert_eq!(st.tracked_position, 1500 * MS);
    assert_eq!(st.track_anchor, Some(10 * SEC));
    assert!(st.last_status_playing);

    let (q2, e2) = st.on_poll(&Poll::Track(track("Song", "Artist", "NetEase.CloudMusic", PlaybackStatus::Playing, 0)), 11 * SEC);
    assert!(q2.is_none());
    assert_eq!(shown(&e2), vec!["two".to_string()]);
}

#[test]
fn not_found_clears_and_stopped_shows_nothing() {
    let mut st = SyncState::new();
    let m = track("S", "A", "Spotify", PlaybackStatus::Stopped, 5 * SEC);
    let (q, _) = st.on_poll(&Poll::Track(track("S", "A", "Spotify", PlaybackStatus::Stopped, 5 * SEC)), 0);
    assert!(!q.unwrap().prefer_netease);
    let e = st.on_lyrics(Resolution::NotFound, &m, 0);
    assert!(matches!(&e[..], [Effect::NoLyrics, Effect::Show(t)] if t.is_empty()));
    assert!(st.engine.is_none());
    assert_eq!(st.track_anchor, None);
}

#[test]
fn stop_blanks_and_freezes_then_resume_continues() {
    let mut st = SyncState::new();
    let l = lyrics(&[(SEC, "one"), (5 * SEC, "five")], 0);
    let playing = track("S", "A", "x", PlaybackStatus::Playing, 0);
    st.on_poll(&Poll::Track(track("S", "A", "x", PlaybackStatus::Playing, 0)), 0);
    st.on_lyrics(Resolution::Found(l), &playing, 0);
    // stopped after 3 seconds: the position freezes at 3 s
    let e = st.on_poll(&Poll::Track(track("S", "A", "x", PlaybackStatus::Stopped, 0)), 3 * SEC).1;
    assert_eq!(shown(&e), vec![String::new()]);
    assert_eq!(st.tracked_position, 3 * SEC);
    assert_eq!(st.track_anchor, None);
    let e = st.on_poll(&Poll::Track(track("S", "A", "x", PlaybackStatus::Stopped, 0)), 60 * SEC).1;
    assert_eq!(shown(&e), vec![String::new()]);
    assert_eq!(st.tracked_position, 3 * SEC);
    // resumed at 100 s: the clock restarts from 3 s
    let e = st.on_poll(&Poll::Track(track("S", "A", "x", PlaybackStatus::Playing, 0)), 100 * SEC).1;
    assert_eq!(shown(&e), vec!["one".to_string()]);
    let e = st.on_poll(&Poll::Track(track("S", "A", "x", PlaybackStatus::Playing, 0)), 102 * SEC).1;
    assert_eq!(shown(&e), vec!["five".to_string()]);
}

#[test]
fn pause_freezes_the_shown_line() {
    let mut st = SyncState::new();
    let l = lyrics(&[(0, "zero"), (5 * SEC, "five")], 0);
    let playing = track("S", "A", "x", PlaybackStatus::Playing, 0);
    st.on_poll(&Poll::Track(track("S", "A", "x", PlaybackStatus::Playing, 0)), 0);
    st.on_lyrics(Resolution::Found(l), &playing, 0);
    // paused after 1 s: the position freezes at 1 s and its line stays shown
    let e = st.on_poll(&Poll::Track(track("S", "A", "x", PlaybackStatus::Paused, 0)), SEC).1;
    assert_eq!(shown(&e), vec!["zero".to_string()]);
    assert_eq!(st.tracked_position, SEC);
    assert_eq!(st.track_anchor, None);
    let e = st.on_poll(&Poll::Track(track("S", "A", "x", PlaybackStatus::Paused, 0)), 6 * SEC).1;
    assert_eq!(shown(&e), vec!["zero".to_string()]);
    assert_eq!(st.tracked_position, SEC);
    // resumed at 10 s: the clock restarts from 1 s
    let e = st.on_poll(&Poll::Track(track("S", "A", "x", PlaybackStatus::Playing, 0)), 10 * SEC).1;
    assert_eq!(shown(&e), vec!["zero".to_string()]);
    let e = st.on_poll(&Poll::Track(track("S", "A", "x", PlaybackStatus::Playing, 0)), 14 * SEC).1;
    assert_eq!(shown(&e), vec!["five".to_string()]);
}

#[test]
fn track_first_seen_paused_stays_at_reported_position() {
    let mut st = SyncState::new();
    let l = lyrics(&[(0, "zero"), (5 * SEC, "five")], 0);
    let paused = track("S", "A", "x", PlaybackStatus::Paused, 6 * SEC);
    st.on_poll(&Poll::Track(track("S", "A", "x", PlaybackStatus::Paused, 6 * SEC)), 0);
    let e = st.on_lyrics(Resolution::Found(l), &paused, 0);
    assert_eq!(shown(&e), vec!["five".to_string()]);
    assert_eq!(st.track_anchor, None);
    let e = st.on_poll(&Poll::Track(track("S", "A", "x", PlaybackStatus::Paused, 0)), 100 * SEC).1;
    assert_eq!(shown(&e), vec!["five".to_string()]);
    assert_eq!(st.tracked_position, 6 * SEC);
}

#[test]
fn calibration_takes_close_reports_only() {
    let mut st = SyncState::new();
    let playing = track("S", "A", "x", PlaybackStatus::Playing, 10 * SEC);
    st.on_poll(&Poll::Track(track("S", "A", "x", PlaybackStatus::Playing, 10 * SEC)), 0);
    st.on_lyrics(Resolution::Failed, &playing, 0);
    // estimate at 1 s is 11 s; a report of 12 s is within 2 s and is taken over
    st.on_poll(&Poll::Track(track("S", "A", "x", PlaybackStatus::Playing, 12 * SEC)), SEC);
    assert_eq!(st.tracked_position, 12 * SEC);
    assert_eq!(st.track_anchor, Some(SEC));
    // a report far from the estimate is ignored
    st.on_poll(&Poll::Track(track("S", "A", "x", PlaybackStatus::Playing, 60 * SEC)), 2 * SEC);
    assert_eq!(st.tracked_position, 12 * SEC);
    assert_eq!(st.track_anchor, Some(SEC));
}

#[test]
fn session_gone_resets() {
    let mut st = SyncState::new();
    let (_, e) = st.on_poll(&Poll::NoSession, 0);
    assert_eq!(shown(&e), vec![String::new()]);
    assert_eq!(e.len(), 1);
    st.on_poll(&Poll::Track(track("S", "A", "x", PlaybackStatus::Playing, 0)), 0);
    let (_, e) = st.on_poll(&Poll::NoSession, SEC);
    assert!(matches!(&e[..], [Effect::IdleTooltip, Effect::Show(t)] if t.is_empty()));
    assert!(st.last_key.is_empty());
    assert_eq!(st.tracked_position, 0);
    let (q, e) = st.on_poll(&Poll::Failed, 2 * SEC);
    assert!(q.is_none() && e.is_empty());
}

#[test]
fn one_request_per_track_run() {
    let mut st = SyncState::new();
    let m = || Poll::Track(track("S", "A", "x", PlaybackStatus::Playing, 0));
    let (q, _) = st.on_poll(&m(), 0);
    assert!(q.is_some());
    st.on_lyrics(Resolution::NotFound, &track("S", "A", "x", PlaybackStatus::Playing, 0), 0);
    for i in 1..5u128 {
        let (q, _) = st.on_poll(&m(), i * SEC);
        assert!(q.is_none());
    }
    assert!(st.on_poll(&Poll::Failed, 6 * SEC).0.is_none());
    assert!(st.on_poll(&m(), 7 * SEC).0.is_none());
    st.on_poll(&Poll::NoSession, 8 * SEC);
    assert!(st.on_poll(&m(), 9 * SEC).0.is_some());
}
