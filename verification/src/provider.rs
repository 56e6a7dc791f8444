//! Choosing lyrics from the providers' answers (LRCLIB and NetEase Cloud
//! Music), and the order in which the providers are asked.
//!
//! The HTTP requests are made outside; this module decides what to ask for
//! and what to keep of each answer.
use vstd::prelude::*;
use crate::json::{
    JsonNumber, JsonValue, get, spec_as_u64, spec_get, spec_str_field, str_field,
};
use crate::lrc::{
    Lyrics, merge_bilingual, offset_of_lines, parse, spec_lines, spec_merge_bilingual,
    spec_parse_lines,
};
use crate::text::{chars_of, string_from_chars, trim, trim_range};

verus! {

/// A lyrics provider.
#[derive(Debug, Clone, Copy, PartialEq, Eq, Structural)]
pub enum Provider {
    NetEase,
    LrcLib,
}

/// The order in which providers are asked: NetEase first when the playing
/// app is NetEase Cloud Music (its lyrics match what the app shows, with the
/// translation), LRCLIB first otherwise.
pub fn provider_order(prefer_netease: bool) -> (r: Vec<Provider>)
    ensures
        r@ == (if prefer_netease {
            seq![Provider::NetEase, Provider::LrcLib]
        } else {
            seq![Provider::LrcLib, Provider::NetEase]
        }),
{
    let v = if prefer_netease {
        vec![Provider::NetEase, Provider::LrcLib]
    } else {
        vec![Provider::LrcLib, Provider::NetEase]
    };
    assert(v@ =~= (if prefer_netease {
        seq![Provider::NetEase, Provider::LrcLib]
    } else {
        seq![Provider::LrcLib, Provider::NetEase]
    }));
    v
}

/// The providers' answers are asked for in order, and the first that parses
/// to at least one timed line is kept.
pub struct ProviderChain {
    order: Vec<Provider>,
    next: usize,
}

impl ProviderChain {
    pub closed spec fn spec_order(&self) -> Seq<Provider> {
        self.order@
    }

    pub closed spec fn spec_next(&self) -> nat {
        self.next as nat
    }

    #[verifier::type_invariant]
    spec fn wf(&self) -> bool {
        self.next <= self.order@.len()
    }

    pub fn new(prefer_netease: bool) -> (r: ProviderChain)
        ensures
            r.spec_next() == 0,
            r.spec_order() == provider_order_spec(prefer_netease),
    {
        ProviderChain { order: provider_order(prefer_netease), next: 0 }
    }

    /// The provider to ask next; `None` once every provider has been asked.
    pub fn next_provider(&self) -> (r: Option<Provider>)
        ensures
            self.spec_next() < self.spec_order().len() ==> r == Some(
                self.spec_order()[self.spec_next() as int],
            ),
            self.spec_next() >= self.spec_order().len() ==> r is None,
    {
        proof {
            use_type_invariant(self);
        }
        if self.next < self.order.len() {
            Some(self.order[self.next])
        } else {
            None
        }
    }

    /// Takes the answer of the provider just asked (`None`: no lyrics, or the
    /// request failed) and moves on; returns the lyrics when they are kept.
    pub fn offer(&mut self, answer: Option<String>) -> (r: Option<Lyrics>)
        ensures
            final(self).spec_order() == old(self).spec_order(),
            final(self).spec_next() == if old(self).spec_next() < old(self).spec_order().len() {
                old(self).spec_next() + 1
            } else {
                old(self).spec_next()
            },
            match answer {
                Some(t) => match r {
                    Some(l) => spec_parse_lines(t@).len() > 0 && l.spec_lines()
                        == spec_parse_lines(t@) && l.offset_ms == offset_of_lines(spec_lines(t@)),
                    None => spec_parse_lines(t@).len() == 0,
                },
                None => r is None,
            },
    {
        proof {
            use_type_invariant(&*self);
        }
        if self.next < self.order.len() {
            self.next = self.next + 1;
        }
        match answer {
            Some(t) => accept_lyrics(&t),
            None => None,
        }
    }
}

pub open spec fn provider_order_spec(prefer_netease: bool) -> Seq<Provider> {
    if prefer_netease {
        seq![Provider::NetEase, Provider::LrcLib]
    } else {
        seq![Provider::LrcLib, Provider::NetEase]
    }
}

/// Lyrics text is kept when it parses to at least one timed line.
pub fn accept_lyrics(text: &String) -> (r: Option<Lyrics>)
    ensures
        match r {
            Some(l) => spec_parse_lines(text@).len() > 0 && l.spec_lines() == spec_parse_lines(
                text@,
            ) && l.offset_ms == offset_of_lines(spec_lines(text@)),
            None => spec_parse_lines(text@).len() == 0,
        },
{
    let lyrics = parse(text.as_str());
    if lyrics.lines.len() == 0 {
        None
    } else {
        Some(lyrics)
    }
}

/// The items of an LRCLIB search answer: the array's elements, or the object
/// itself.
pub open spec fn lrclib_items(v: JsonValue) -> Option<Seq<JsonValue>> {
    match v {
        JsonValue::Array(a) => Some(a@),
        JsonValue::Object(_) => Some(seq![v]),
        _ => None,
    }
}

/// The first item whose `key` is a string that is not blank.
pub open spec fn first_filled(items: Seq<JsonValue>, key: Seq<char>) -> Option<Seq<char>>
    decreases items.len(),
{
    if items.len() == 0 {
        None
    } else {
        match spec_str_field(items[0], key) {
            Some(s) => if trim(s).len() > 0 {
                Some(s)
            } else {
                first_filled(items.drop_first(), key)
            },
            None => first_filled(items.drop_first(), key),
        }
    }
}

/// The item's `key` is a string that is not blank.
pub open spec fn filled_at(item: JsonValue, key: Seq<char>) -> bool {
    spec_str_field(item, key) matches Some(s) && trim(s).len() > 0
}

/// The first item that has `key` filled wins: the result is that field of
/// the item with the lowest index among those that have it filled, and
/// there is none when no item has it filled.
pub proof fn lemma_first_filled_is_first(items: Seq<JsonValue>, key: Seq<char>)
    ensures
        match first_filled(items, key) {
            Some(s) => exists|i: int|
                0 <= i < items.len() && spec_str_field(#[trigger] items[i], key) == Some(s)
                    && trim(s).len() > 0 && forall|j: int|
                    0 <= j < i ==> !filled_at(#[trigger] items[j], key),
            None => forall|j: int| 0 <= j < items.len() ==> !filled_at(#[trigger] items[j], key),
        },
    decreases items.len(),
{
    if items.len() > 0 {
        let rest = items.drop_first();
        lemma_first_filled_is_first(rest, key);
        if filled_at(items[0], key) {
            let s = spec_str_field(items[0], key)->0;
            assert(first_filled(items, key) == Some(s));
        } else {
            assert(first_filled(items, key) == first_filled(rest, key));
            match first_filled(rest, key) {
                Some(s) => {
                    let i = choose|i: int|
                        0 <= i < rest.len() && spec_str_field(#[trigger] rest[i], key) == Some(s)
                            && trim(s).len() > 0 && forall|j: int|
                            0 <= j < i ==> !filled_at(#[trigger] rest[j], key);
                    assert(items[i + 1] == rest[i]);
                    assert forall|j: int| 0 <= j < i + 1 implies !filled_at(
                        #[trigger] items[j],
                        key,
                    ) by {
                        if j > 0 {
                            assert(items[j] == rest[j - 1]);
                        }
                    }
                },
                None => {
                    assert forall|j: int| 0 <= j < items.len() implies !filled_at(
                        #[trigger] items[j],
                        key,
                    ) by {
                        if j > 0 {
                            assert(items[j] == rest[j - 1]);
                        }
                    }
                },
            }
        }
    }
}

/// LRCLIB's answer gives the synced lyrics of the first item that has them;
/// only when no item has synced lyrics, the plain lyrics of the first item
/// that has them; and nothing when no item has either.
pub proof fn lemma_lrclib_first_synced_else_first_plain(v: JsonValue)
    ensures
        lrclib_items(v) is None ==> spec_lrclib_lyrics(v) is None,
        lrclib_items(v) matches Some(items) ==> match spec_lrclib_lyrics(v) {
            Some(s) => exists|i: int|
                0 <= i < items.len() && ({
                    ||| spec_str_field(#[trigger] items[i], "syncedLyrics"@) == Some(s)
                        && trim(s).len() > 0 && forall|j: int|
                        0 <= j < i ==> !filled_at(#[trigger] items[j], "syncedLyrics"@)
                    ||| (forall|j: int|
                        0 <= j < items.len() ==> !filled_at(
                            #[trigger] items[j],
                            "syncedLyrics"@,
                        )) && spec_str_field(items[i], "plainLyrics"@) == Some(s) && trim(s).len()
                        > 0 && forall|j: int|
                        0 <= j < i ==> !filled_at(#[trigger] items[j], "plainLyrics"@)
                }),
            None => forall|j: int|
                0 <= j < items.len() ==> !filled_at(#[trigger] items[j], "syncedLyrics"@)
                    && !filled_at(items[j], "plainLyrics"@),
        },
{
    if let Some(items) = lrclib_items(v) {
        lemma_first_filled_is_first(items, "syncedLyrics"@);
        lemma_first_filled_is_first(items, "plainLyrics"@);
    }
}

/// The lyrics of an LRCLIB search answer: the first synced lyrics, or else the
/// first plain lyrics.
pub open spec fn spec_lrclib_lyrics(v: JsonValue) -> Option<Seq<char>> {
    match lrclib_items(v) {
        None => None,
        Some(items) => match first_filled(items, "syncedLyrics"@) {
            Some(s) => Some(s),
            None => first_filled(items, "plainLyrics"@),
        },
    }
}

/// The string under `key` in `v` when it is not blank.
fn filled_field(v: &JsonValue, key: &str) -> (r: Option<String>)
    ensures
        match r {
            Some(s) => spec_str_field(*v, key@) == Some(s@) && trim(s@).len() > 0,
            None => !(spec_str_field(*v, key@) matches Some(s) && trim(s).len() > 0),
        },
{
    match str_field(v, key) {
        Some(s) => {
            let cs = chars_of(s.as_str());
            let (a, b) = trim_range(&cs, 0, cs.len());
            assert(cs@.subrange(0, cs@.len() as int) =~= s@);
            if a < b {
                Some(s.clone())
            } else {
                None
            }
        },
        None => None,
    }
}

fn first_filled_in(items: &Vec<JsonValue>, key: &str) -> (r: Option<String>)
    ensures
        match r {
            Some(s) => first_filled(items@, key@) == Some(s@),
            None => first_filled(items@, key@) is None,
        },
{
    let mut i: usize = 0;
    assert(items@.skip(0) =~= items@);
    while i < items.len()
        invariant
            0 <= i <= items@.len(),
            first_filled(items@, key@) == first_filled(items@.skip(i as int), key@),
        decreases items@.len() - i,
    {
        assert(items@.skip(i as int).drop_first() =~= items@.skip(i + 1));
        assert(items@.skip(i as int)[0] == items@[i as int]);
        match filled_field(&items[i], key) {
            Some(s) => {
                return Some(s);
            },
            None => {},
        }
        i = i + 1;
    }
    None
}

fn first_filled_of(v: &JsonValue, key: &str) -> (res: Option<String>)
    ensures
        lrclib_items(*v) is None ==> res is None,
        lrclib_items(*v) matches Some(items) ==> (res matches Some(s) ==> first_filled(items, key@)
            == Some(s@)),
        lrclib_items(*v) matches Some(items) ==> (res is None ==> first_filled(items, key@) is None),
{
    match v {
        JsonValue::Array(a) => first_filled_in(a, key),
        JsonValue::Object(_) => {
            let found = filled_field(v, key);
            assert(seq![*v].drop_first() =~= Seq::<JsonValue>::empty());
            assert(seq![*v][0] == *v);
            assert(first_filled(Seq::<JsonValue>::empty(), key@) is None);
            found
        },
        _ => None,
    }
}

/// The lyrics in an LRCLIB search answer: synced lyrics when an item has
/// them, else plain lyrics.
pub fn lrclib_lyrics(v: &JsonValue) -> (r: Option<String>)
    ensures
        match r {
            Some(s) => spec_lrclib_lyrics(*v) == Some(s@),
            None => spec_lrclib_lyrics(*v) is None,
        },
{
    match first_filled_of(v, "syncedLyrics") {
        Some(s) => Some(s),
        None => first_filled_of(v, "plainLyrics"),
    }
}

/// The search terms for NetEase: `title artist`.
pub fn search_terms(title: &str, artist: &str) -> (r: String)
    ensures
        r@ == title@ + seq![' '] + artist@,
{
    let mut v = chars_of(title);
    v.push(' ');
    let mut w = chars_of(artist);
    v.append(&mut w);
    string_from_chars(v.as_slice())
}

/// The id of the first song in a NetEase search answer
/// (`result.songs[0].id`).
pub open spec fn spec_netease_song_id(v: JsonValue) -> Option<u64> {
    match spec_get(v, "result"@) {
        Some(r) => match spec_get(r, "songs"@) {
            Some(JsonValue::Array(a)) => if a@.len() > 0 {
                match spec_get(a@[0], "id"@) {
                    Some(x) => spec_as_u64(x),
                    None => None,
                }
            } else {
                None
            },
            _ => None,
        },
        None => None,
    }
}

pub fn netease_song_id(v: &JsonValue) -> (r: Option<u64>)
    ensures
        r == spec_netease_song_id(*v),
{
    let result = match get(v, "result") {
        Some(x) => x,
        None => return None,
    };
    match get(result, "songs") {
        Some(JsonValue::Array(a)) => {
            if a.len() == 0 {
                return None;
            }
            match get(&a[0], "id") {
                Some(JsonValue::Number(JsonNumber::PosInt(n))) => Some(*n),
                _ => None,
            }
        },
        _ => None,
    }
}

/// `v.key.lyric` as a string, or empty.
pub open spec fn lyric_text(v: JsonValue, key: Seq<char>) -> Seq<char> {
    match spec_get(v, key) {
        Some(x) => match spec_str_field(x, "lyric"@) {
            Some(s) => s,
            None => Seq::<char>::empty(),
        },
        None => Seq::<char>::empty(),
    }
}

/// The lyrics in a NetEase lyric answer: the original (`lrc.lyric`) merged
/// with its translation (`tlyric.lyric`); none when the original is blank.
pub open spec fn spec_netease_lyrics(v: JsonValue) -> Option<Seq<char>> {
    let lrc = lyric_text(v, "lrc"@);
    let tlyric = lyric_text(v, "tlyric"@);
    if trim(lrc).len() == 0 {
        None
    } else {
        Some(spec_merge_bilingual(lrc, tlyric))
    }
}

fn lyric_field(v: &JsonValue, key: &str) -> (r: String)
    ensures
        r@ == lyric_text(*v, key@),
{
    match get(v, key) {
        Some(x) => match str_field(x, "lyric") {
            Some(s) => s.clone(),
            None => String::new(),
        },
        None => String::new(),
    }
}

pub fn netease_lyrics(v: &JsonValue) -> (r: Option<String>)
    ensures
        match r {
            Some(s) => spec_netease_lyrics(*v) == Some(s@),
            None => spec_netease_lyrics(*v) is None,
        },
{
    let lrc = lyric_field(v, "lrc");
    let tlyric = lyric_field(v, "tlyric");
    let cs = chars_of(lrc.as_str());
    let (a, b) = trim_range(&cs, 0, cs.len());
    assert(cs@.subrange(0, cs@.len() as int) =~= lrc@);
    if a == b {
        return None;
    }
    Some(merge_bilingual(lrc.as_str(), tlyric.as_str()))
}

} // verus!
