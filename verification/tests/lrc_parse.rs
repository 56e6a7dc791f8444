use lyricbar::lrc::{merge_bilingual, parse, Lyrics};
use lyricbar::timestamp::{fmt_time, parse_offset, parse_time, MAX_NANOS};

const SEC: u128 = 1_000_000_000;
const MS: u128 = 1_000_000;

fn lines(l: &Lyrics) -> Vec<(u128, String)> {
    l.lines.iter().map(|x| (x.time, x.text.clone())).collect()
}

#[test]
fn parse_basic_lines() {
    let l = parse("[00:01.00]first\n[00:02.50]second");
    assert_eq!(lines(&l), vec![(SEC, "first".to_string()), (2 * SEC + 500 * MS, "second".to_string())]);
    assert_eq!(l.offset_ms, 0);
}

#[test]
fn parse_several_stamps_on_one_line_are_sorted() {
    let l = parse("[00:03.00][00:01.00]chorus\n[00:02.00]verse");
    assert_eq!(
        lines(&l),
        vec![
            (SEC, "chorus".to_string()),
            (2 * SEC, "verse".to_string()),
            (3 * SEC, "chorus".to_string()),
        ]
    );
}

#[test]
fn parse_equal_times_keep_file_order() {
    let l = parse("[00:05.00]b\n[00:01.00]a\n[00:05.00]c");
    assert_eq!(
        lines(&l),
        vec![(SEC, "a".to_string()), (5 * SEC, "b".to_string()), (5 * SEC, "c".to_string())]
    );
}

#[test]
fn parse_offset_tag_and_metadata() {
    let l = parse("[ti:Song]\n[ar:Someone]\n[offset:500]\n[00:01.00]a");
    assert_eq!(l.offset_ms, 500);
    assert_eq!(lines(&l), vec![(SEC, "a".to_string())]);
    let m = parse("[offset: -250 ]\n[offset:+10]\n[00:01.00]a");
    assert_eq!(m.offset_ms, 10);
}

#[test]
fn parse_skips_empty_texts_and_handles_crlf() {
    let l = parse("[00:01.00]   \r\n[00:02.00] text \r\n\r\n");
    assert_eq!(lines(&l), vec![(2 * SEC, "text".to_string())]);
}

#[test]
fn parse_keeps_text_after_last_tag() {
    let l = parse("before[00:01.00]after");
    assert_eq!(lines(&l), vec![(SEC, "after".to_string())]);
    let m = parse("[00:01.00]a [b] c");
    assert_eq!(lines(&m), vec![(SEC, "c".to_string())]);
    let n = parse("[00:01.00]open [bracket");
    assert_eq!(lines(&n), vec![(SEC, "open [bracket".to_string())]);
}

#[test]
fn parse_empty_input() {
    let l = parse("");
    assert!(l.lines.is_empty());
    assert_eq!(l.offset_ms, 0);
    let d = Lyrics::default();
    assert!(d.lines.is_empty());
    assert_eq!(d.offset_ms, 0);
}

#[test]
fn parse_time_forms() {
    assert_eq!(parse_time("01:02.5"), Some(62 * SEC + 500 * MS));
    assert_eq!(parse_time(" 00:05 "), Some(5 * SEC));
    assert_eq!(parse_time("00:01,25"), Some(SEC + 250 * MS));
    assert_eq!(parse_time("01:00:00.00"), Some(3600 * SEC));
    assert_eq!(parse_time("1.5:30"), Some(120 * SEC));
    assert_eq!(parse_time("00:00.123456789123"), Some(123_456_789));
    assert_eq!(parse_time("00:.5"), Some(500 * MS));
    assert_eq!(parse_time("00:7."), Some(7 * SEC));
    assert_eq!(parse_time("+1:00"), Some(60 * SEC));
    assert_eq!(parse_time("1:+5"), Some(65 * SEC));
    assert_eq!(parse_time("+1:+2:+3"), Some(3723 * SEC));
}

#[test]
fn parse_time_reads_float_forms() {
    assert_eq!(parse_time("1e0:05"), Some(65 * SEC));
    assert_eq!(parse_time("-0:05"), Some(5 * SEC));
    assert_eq!(parse_time("00:05e0"), Some(5 * SEC));
    assert_eq!(parse_time("-1:70"), Some(10 * SEC));
    assert_eq!(parse_time("1:-5"), Some(55 * SEC));
    assert_eq!(parse_time("1:5e-1"), Some(60 * SEC + 500 * MS));
    assert_eq!(parse_time("1E1:0"), Some(600 * SEC));
    assert_eq!(parse_time("0:1.5E+1"), Some(15 * SEC));
    assert_eq!(parse_time("0:1,5e1"), Some(15 * SEC));
    assert_eq!(parse_time("0:.25e1"), Some(2 * SEC + 500 * MS));
    assert_eq!(parse_time("0:25e-1"), Some(2 * SEC + 500 * MS));
    assert_eq!(parse_time("0:0e99999999999999999999999999999999999"), Some(0));
    assert_eq!(parse_time("0:1e-99999999999999999999999999999999999"), Some(0));
    assert_eq!(parse_time("0:123456789e-9"), Some(123_456_789));    let l = parse("[1e0:05]x\n[-0:05]y");
    assert_eq!(lines(&l), vec![(5 * SEC, "y".to_string()), (65 * SEC, "x".to_string())]);
}

#[test]
fn parse_time_rejects_float_forms_without_a_time() {
    assert_eq!(parse_time("0:1e400"), None);
    assert_eq!(parse_time("inf:00"), None);
    assert_eq!(parse_time("0:nan"), None);
    assert_eq!(parse_time("1e:00"), None);
    assert_eq!(parse_time("e1:00"), None);
    assert_eq!(parse_time("0:.e1"), None);
    assert_eq!(parse_time("0:1e1.5"), None);
    assert_eq!(parse_time("0:-5"), None);
    assert_eq!(parse_time("--1:00"), None);
}

#[test]
fn parse_time_rejects() {
    assert_eq!(parse_time("ti:Song"), None);
    assert_eq!(parse_time("0005"), None);
    assert_eq!(parse_time("1:2:3:4"), None);
    assert_eq!(parse_time("00:."), None);
    assert_eq!(parse_time("00 :05"), None);
    assert_eq!(parse_time("-1:00"), None);
    assert_eq!(parse_time("99999999999999999999:00"), None);
    assert_eq!(parse_time("00:1.2.3"), None);
}

#[test]
fn parse_offset_forms() {
    assert_eq!(parse_offset("offset:+100"), Some(100));
    assert_eq!(parse_offset(" offset: -9223372036854775808 "), Some(i64::MIN));
    assert_eq!(parse_offset("offset:9223372036854775808"), None);
    assert_eq!(parse_offset("offset:"), None);
    assert_eq!(parse_offset("offset:-"), None);
    assert_eq!(parse_offset("Offset:5"), None);
    assert_eq!(parse_offset("offset:1x"), None);
}

#[test]
fn fmt_time_values() {
    assert_eq!(fmt_time(0), "00:00.00");
    assert_eq!(fmt_time(61 * SEC + 230 * MS + 999_999), "01:01.23");
    assert_eq!(fmt_time(6000 * SEC), "100:00.00");
    assert_eq!(fmt_time(9 * MS), "00:00.00");
}

#[test]
fn fmt_time_then_parse_time_gives_centiseconds() {
    for d in [0u128, 1, 9_999_999, 10_000_000, 61 * SEC + 234_567_891, 7_199 * SEC + 999_999_999] {
        let back = parse_time(&fmt_time(d));
        assert_eq!(back, Some(d / 10_000_000 * 10_000_000));
    }
    let big = MAX_NANOS;
    assert_eq!(parse_time(&fmt_time(big)), Some(big / 10_000_000 * 10_000_000));
}

#[test]
fn merge_bilingual_interleaves_translation() {
    let orig = "[00:01.00]Hello\n[00:02.00]World";
    let trans = "[00:01.00]你好\n[00:02.00]World";
    assert_eq!(merge_bilingual(orig, trans), "[00:01.00]Hello\n[00:01.00]你好\n[00:02.00]World\n");
}

#[test]
fn merge_bilingual_blank_translation_keeps_original() {
    let orig = "[00:01.00]Hello  \n";
    assert_eq!(merge_bilingual(orig, "   \n"), orig);
    assert_eq!(merge_bilingual(orig, ""), orig);
}

#[test]
fn merge_bilingual_matches_by_millisecond_last_wins() {
    let orig = "[00:01.000]a";
    let trans = "[00:01.0004]x\n[00:01.0009]y\n[00:01.001]z";
    assert_eq!(merge_bilingual(orig, trans), "[00:01.00]a\n[00:01.00]y\n");
}

#[test]
fn merged_lyrics_read_back() {
    let merged = merge_bilingual("[00:02.00]Two\n[00:01.00]One", "[00:01.00]Uno\n[00:02.00]Dos");
    let l = parse(&merged);
    assert_eq!(
        lines(&l),
        vec![
            (SEC, "One".to_string()),
            (SEC, "Uno".to_string()),
            (2 * SEC, "Two".to_string()),
            (2 * SEC, "Dos".to_string()),
        ]
    );
}

#[test]
fn merged_lyrics_read_back_with_brackets_and_offset() {
    let merged = merge_bilingual(
        "[offset:500]\n[00:01.234]a [b c\n[00:02.00]d ]e[",
        "[00:01.234]x [y\n[00:02.00]]z",
    );
    let l = parse(&merged);
    assert_eq!(l.offset_ms, 0);
    assert_eq!(
        lines(&l),
        vec![
            (SEC + 230 * MS, "a [b c".to_string()),
            (SEC + 230 * MS, "x [y".to_string()),
            (2 * SEC, "d ]e[".to_string()),
            (2 * SEC, "]z".to_string()),
        ]
    );
}

#[test]
fn stamped_line_reads_back() {
    for d in [0u128, 1_234_567_890, 61 * SEC + 999 * MS, 99_999 * SEC + 5 * MS] {
        let l = parse(&format!("[{}]x", fmt_time(d)));
        assert_eq!(l.offset_ms, 0);
        assert_eq!(lines(&l), vec![(d / 10_000_000 * 10_000_000, "x".to_string())]);
    }
}
