# lyricbar

A lyric bar for the Windows taskbar: it follows what the system media session
is playing, fetches synced lyrics (NetEase Cloud Music, LRCLIB) and shows the
current line in a small overlay window inside the taskbar.

## Layout

- `src/` is the verified library (Verus):
  - `text`, `timestamp`: character-level helpers and the LRC time tags
    (`[mm:ss.xx]`, `[offset:±N]`), with parse/format round-trip lemmas;
  - `lrc`, `bilingual`: LRC parsing, merging a translation under its lines,
    and what reading a merged file back gives;
  - `engine`: the current line for a playback position;
  - `media`, `sync`: playback snapshots and the decisions of the main loop
    (what to fetch, what to show, how the position is estimated between
    reports);
  - `json`, `provider`: the providers' answers as plain JSON values and what
    is kept of them;
  - `overlay`, `tray`: layout and placement of the overlay, the strings handed
    to the window system, and the tray tooltip.
- `app/` is the program around it: the Windows media session, HTTP requests,
  windows, the tray icon and logging. It drives `sync::SyncState` and performs
  the effects it returns.
- `tests/` runs the library on concrete inputs.
