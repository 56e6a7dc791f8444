use lyricbar::json::{JsonNumber, JsonValue};
use lyricbar::media::{session_snapshot, ticks_to_nanos, timeline_duration, MediaMetadata, PlaybackStatus};
use lyricbar::provider::{
    accept_lyrics, lrclib_lyrics, netease_lyrics, netease_song_id, provider_order, search_terms,
    Provider, ProviderChain,
};

fn s(x: &str) -> JsonValue {
    JsonValue::String(x.to_string())
}

fn obj(members: Vec<(&str, JsonValue)>) -> JsonValue {
    JsonValue::Object(members.into_iter().map(|(k, v)| (k.to_string(), v)).collect())
}

#[test]
fn playback_status_activity() {
    assert!(PlaybackStatus::Playing.is_active());
    assert!(PlaybackStatus::Paused.is_active());
    assert!(!PlaybackStatus::Stopped.is_active());
    assert!(!PlaybackStatus::Closed.is_active());
    assert_eq!(PlaybackStatus::default(), PlaybackStatus::Closed);
    assert!(PlaybackStatus::Playing.is_playing());
    assert!(!PlaybackStatus::Paused.is_playing());
    assert!(!PlaybackStatus::Stopped.is_playing());
    assert!(!PlaybackStatus::Closed.is_playing());
}

#[test]
fn ticks_and_timelines() {
    assert_eq!(ticks_to_nanos(5), 500);
    assert_eq!(ticks_to_nanos(-5), 500);
    assert_eq!(timeline_duration(10, 5), 0);
    assert_eq!(timeline_duration(5, 5), 0);
    assert_eq!(timeline_duration(-10, 20), 3000);
}

#[test]
fn snapshot_of_closed_session() {
    let none = session_snapshot(String::new(), "a".into(), String::new(), String::new(), String::new(), PlaybackStatus::Closed, 0, 0);
    assert!(none.is_none());
    let some = session_snapshot("t".into(), "a".into(), "al".into(), "aa".into(), "app".into(), PlaybackStatus::Closed, 7, 9)
        .expect("a titled session counts");
    assert_eq!(some.title, "t");
    assert_eq!(some.album_artist, "aa");
    assert_eq!(some.position, 7);
    assert_eq!(some.duration, 9);
    let stopped = session_snapshot(String::new(), String::new(), String::new(), String::new(), String::new(), PlaybackStatus::Stopped, 0, 0);
    assert!(stopped.is_some());
    let d = MediaMetadata::default();
    assert_eq!(d.playback_status, PlaybackStatus::Closed);
}

#[test]
fn provider_orders() {
    assert_eq!(provider_order(true), vec![Provider::NetEase, Provider::LrcLib]);
    assert_eq!(provider_order(false), vec![Provider::LrcLib, Provider::NetEase]);
}

#[test]
fn provider_chain_keeps_first_usable_answer() {
    let mut c = ProviderChain::new(false);
    assert_eq!(c.next_provider(), Some(Provider::LrcLib));
    assert!(c.offer(Some("[ti:only tags]".to_string())).is_none());
    assert_eq!(c.next_provider(), Some(Provider::NetEase));
    let l = c.offer(Some("[00:01.00]x".to_string())).expect("parsed lyrics are kept");
    assert_eq!(l.lines.len(), 1);
    assert_eq!(c.next_provider(), None);
    assert!(c.offer(None).is_none());
    assert_eq!(c.next_provider(), None);
}

#[test]
fn provider_chain_keeps_the_offset() {
    let mut c = ProviderChain::new(true);
    let l = c
        .offer(Some("[offset:-250]\n[00:03.00]z".to_string()))
        .expect("parsed lyrics are kept");
    assert_eq!(l.offset_ms, -250);
    assert_eq!(l.lines.len(), 1);
    assert_eq!(l.lines[0].time, 3_000_000_000);
}

#[test]
fn accept_lyrics_needs_a_timed_line() {
    assert!(accept_lyrics(&"plain text without stamps".to_string()).is_none());
    assert_eq!(accept_lyrics(&"[offset:3]\n[00:02.00]y".to_string()).unwrap().offset_ms, 3);
}

#[test]
fn lrclib_prefers_synced_lyrics() {
    let v = JsonValue::Array(vec![
        obj(vec![("syncedLyrics", s("  ")), ("plainLyrics", s("plain one"))]),
        obj(vec![("syncedLyrics", JsonValue::Null), ("plainLyrics", s("plain two"))]),
        obj(vec![("syncedLyrics", s("[00:01.00]synced"))]),
    ]);
    assert_eq!(lrclib_lyrics(&v), Some("[00:01.00]synced".to_string()));
}

#[test]
fn lrclib_falls_back_to_plain_lyrics() {
    let v = JsonValue::Array(vec![
        obj(vec![("plainLyrics", s(""))]),
        obj(vec![("plainLyrics", s("words"))]),
    ]);
    assert_eq!(lrclib_lyrics(&v), Some("words".to_string()));
    let single = obj(vec![("plainLyrics", s("solo"))]);
    assert_eq!(lrclib_lyrics(&single), Some("solo".to_string()));
    assert_eq!(lrclib_lyrics(&s("not a list")), None);
    assert_eq!(lrclib_lyrics(&JsonValue::Array(vec![])), None);
}

#[test]
fn netease_song_id_reads_first_song() {
    let v = obj(vec![(
        "result",
        obj(vec![(
            "songs",
            JsonValue::Array(vec![
                obj(vec![("id", JsonValue::Number(JsonNumber::PosInt(42)))]),
                obj(vec![("id", JsonValue::Number(JsonNumber::PosInt(7)))]),
            ]),
        )]),
    )]);
    assert_eq!(netease_song_id(&v), Some(42));
    let neg = obj(vec![("result", obj(vec![("songs", JsonValue::Array(vec![obj(vec![("id", JsonValue::Number(JsonNumber::NegInt(-1)))])]))]))]);
    assert_eq!(netease_song_id(&neg), None);
    let empty = obj(vec![("result", obj(vec![("songs", JsonValue::Array(vec![]))]))]);
    assert_eq!(netease_song_id(&empty), None);
    assert_eq!(netease_song_id(&JsonValue::Null), None);
}

#[test]
fn netease_lyrics_merge_translation() {
    let v = obj(vec![
        ("lrc", obj(vec![("lyric", s("[00:01.00]Hello"))])),
        ("tlyric", obj(vec![("lyric", s("[00:01.00]你好"))])),
    ]);
    assert_eq!(netease_lyrics(&v), Some("[00:01.00]Hello\n[00:01.00]你好\n".to_string()));
    let no_trans = obj(vec![("lrc", obj(vec![("lyric", s("[00:01.00]Hi"))]))]);
    assert_eq!(netease_lyrics(&no_trans), Some("[00:01.00]Hi".to_string()));
    let blank = obj(vec![("lrc", obj(vec![("lyric", s("  \n"))]))]);
    assert_eq!(netease_lyrics(&blank), None);
    assert_eq!(netease_lyrics(&obj(vec![])), None);
}

#[test]
fn search_terms_join_title_and_artist() {
    assert_eq!(search_terms("Title", "Artist"), "Title Artist");
    assert_eq!(search_terms("", ""), " ");
}
