use lyricbar::overlay::{tray_anchor, overlay_origin, rgb, taskbar_is_horizontal, text_layout, to_wide, OverlayState, TextLayout};
use lyricbar::tray::{tip_units, tooltip_command, TrayCommand, TrayHandle};

#[test]
fn wide_strings_end_with_zero() {
    assert_eq!(to_wide(""), vec![0]);
    assert_eq!(to_wide("ab"), vec![0x61, 0x62, 0]);
    assert_eq!(to_wide("歌"), vec![0x6B4C, 0]);
    assert_eq!(to_wide("a😀"), vec![0x61, 0xD83D, 0xDE00, 0]);
    let s = "x😀y字";
    let expected: Vec<u16> = s.encode_utf16().chain(std::iter::once(0)).collect();
    assert_eq!(to_wide(s), expected);
}

#[test]
fn colours() {
    assert_eq!(rgb(255, 255, 255), 0x00FF_FFFF);
    assert_eq!(rgb(1, 2, 3), 0x0003_0201);
    assert_eq!(rgb(0, 0, 0), 0);
}

#[test]
fn overlay_placement() {
    assert!(taskbar_is_horizontal(0, 1040, 1920, 1080));
    assert!(!taskbar_is_horizontal(0, 0, 48, 1080));
    assert_eq!(overlay_origin(true, 1700, 0, 40, 1920, 240, 28), (1460, 6));
    assert_eq!(overlay_origin(true, 1700, 0, 20, 1920, 240, 28), (1460, -4));
    assert_eq!(overlay_origin(false, 0, 900, 100, 61, 240, 28), (30 - 120, 872));
    assert_eq!(overlay_origin(false, 0, 900, 100, -61, 241, 28), (-30 - 120, 872));
}

#[test]
fn overlay_state_starts_empty() {
    let s = OverlayState::default();
    assert!(s.text.is_empty() && s.subtext.is_empty());
    assert!(matches!(text_layout(&s, 28), TextLayout::Blank));
}

#[test]
fn overlay_text_layouts() {
    let one = OverlayState { text: "a".to_string(), subtext: String::new() };
    assert!(matches!(text_layout(&one, 28), TextLayout::OneLine));
    let two = OverlayState { text: String::new(), subtext: "b".to_string() };
    assert!(matches!(text_layout(&two, 29), TextLayout::TwoLines { mid: 14 }));
    assert!(matches!(text_layout(&two, -3), TextLayout::TwoLines { mid: -1 }));
    let mut st = OverlayState::default();
    assert!(matches!(text_layout(&st, 28), TextLayout::Blank));
    st.set_text("line", "translation");
    assert_eq!(st.text, "line");
    assert_eq!(st.subtext, "translation");
}

#[test]
fn tooltips() {
    assert_eq!(tip_units("ab"), vec![0x61, 0x62, 0]);
    let long = "x".repeat(200);
    let units = tip_units(&long);
    assert_eq!(units.len(), 128);
    assert!(units.iter().all(|u| *u == 0x78));
    let exact = "y".repeat(127);
    assert_eq!(tip_units(&exact).last(), Some(&0));
    match tooltip_command("Song - Artist") {
        TrayCommand::SetTooltip(t) => assert_eq!(t, "Song - Artist"),
    }
    let (tx, rx) = std::sync::mpsc::channel();
    let mut h = TrayHandle::new(tx);
    h.set_tooltip("hello");
    match rx.try_recv().unwrap() {
        TrayCommand::SetTooltip(t) => assert_eq!(t, "hello"),
    }
    drop(rx);
    h.set_tooltip("nobody listens");
}

#[test]
fn tray_anchor_prefers_the_notification_area() {
    assert_eq!(tray_anchor(Some((1500, 2, 1900, 46)), 1920, 0, 1032, 1080), (1500, 2, 44));
    assert_eq!(tray_anchor(None, 1920, 0, 1032, 1080), (1920, 0, 48));
}
