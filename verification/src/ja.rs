//! Kana normalization engine: classification of ideographs and kana,
//! hiragana-to-katakana normalization, iteration-mark expansion, voicing
//! transforms, and mora counting.
//!
//! All text is handled as sequences of `char`; the functions are pure.

use vstd::prelude::*;

verus! {

// ---------------------------------------------------------------------------
// Character classification
// ---------------------------------------------------------------------------

/// A character is an ideograph if it lies in one of the six canonical CJK
/// ideograph blocks (Unified, Extension A, Extensions B and C/D/E/F,
/// Extension G, Compatibility) or is the iteration ideograph U+3005.
pub open spec fn spec_is_ideograph(c: char) -> bool {
    let u = c as u32;
    (0x4E00 <= u && u <= 0x9FFF)
        || (0x3400 <= u && u <= 0x4DBF)
        || (0x20000 <= u && u <= 0x2A6DF)
        || (0x2A700 <= u && u <= 0x2EBEF)
        || (0x30000 <= u && u <= 0x3134F)
        || (0xF900 <= u && u <= 0xFAFF)
        || u == 0x3005
}

pub fn is_ideograph(c: char) -> (r: bool)
    ensures
        r == spec_is_ideograph(c),
{
    let u = c as u32;
    (0x4E00 <= u && u <= 0x9FFF)
        || (0x3400 <= u && u <= 0x4DBF)
        || (0x20000 <= u && u <= 0x2A6DF)
        || (0x2A700 <= u && u <= 0x2EBEF)
        || (0x30000 <= u && u <= 0x3134F)
        || (0xF900 <= u && u <= 0xFAFF)
        || u == 0x3005
}

/// A character with the Unicode `White_Space` property; the closed table
/// matching `char::is_whitespace`.
pub open spec fn spec_is_space(c: char) -> bool {
    let u = c as u32;
    (0x09 <= u && u <= 0x0D)
        || u == 0x20
        || u == 0x85
        || u == 0xA0
        || u == 0x1680
        || (0x2000 <= u && u <= 0x200A)
        || u == 0x2028
        || u == 0x2029
        || u == 0x202F
        || u == 0x205F
        || u == 0x3000
}

pub fn is_space(c: char) -> (r: bool)
    ensures
        r == spec_is_space(c),
{
    let u = c as u32;
    (0x09 <= u && u <= 0x0D)
        || u == 0x20
        || u == 0x85
        || u == 0xA0
        || u == 0x1680
        || (0x2000 <= u && u <= 0x200A)
        || u == 0x2028
        || u == 0x2029
        || u == 0x202F
        || u == 0x205F
        || u == 0x3000
}

/// A character that may begin a kana cluster: the hiragana and katakana base
/// ranges, the iteration-mark and prolonged-sound ranges, the small archaic
/// forms on the supplementary plane, and the YE characters.
pub open spec fn spec_is_kana_start(c: char) -> bool {
    let u = c as u32;
    (0x3041 <= u && u <= 0x3096)  // hiragana
        || (0x309D <= u && u <= 0x309F)  // hiragana iteration marks, digraph yori
        || (0x30A1 <= u && u <= 0x30FA)  // katakana
        || (0x30FC <= u && u <= 0x30FF)  // prolonged sound, iteration marks, digraph koto
        || u == 0x1B132  // small hiragana ko
        || u == 0x1B155  // small katakana ko
        || (0x1B150 <= u && u <= 0x1B152)  // small hiragana wi/we/wo
        || (0x1B164 <= u && u <= 0x1B167)  // small katakana wi/we/wo/n
        || u == 0x1B001  // hiragana ye
        || u == 0x1B121  // katakana ye
}

pub fn is_kana_start(c: char) -> (r: bool)
    ensures
        r == spec_is_kana_start(c),
{
    let u = c as u32;
    (0x3041 <= u && u <= 0x3096)
        || (0x309D <= u && u <= 0x309F)
        || (0x30A1 <= u && u <= 0x30FA)
        || (0x30FC <= u && u <= 0x30FF)
        || u == 0x1B132
        || u == 0x1B155
        || (0x1B150 <= u && u <= 0x1B152)
        || (0x1B164 <= u && u <= 0x1B167)
        || u == 0x1B001
        || u == 0x1B121
}

/// A combining voicing mark (dakuten or handakuten), U+3099 or U+309A.
pub open spec fn spec_is_sound_mark(c: char) -> bool {
    let u = c as u32;
    0x3099 <= u && u <= 0x309A
}

pub fn is_sound_mark(c: char) -> (r: bool)
    ensures
        r == spec_is_sound_mark(c),
{
    let u = c as u32;
    0x3099 <= u && u <= 0x309A
}

// ---------------------------------------------------------------------------
// Kana cluster consumption
// ---------------------------------------------------------------------------

/// The index just past the run of combining sound marks starting at `j`.
pub open spec fn spec_cluster_end(s: Seq<char>, j: int) -> int
    decreases s.len() - j,
{
    if j < s.len() && spec_is_sound_mark(s[j]) {
        spec_cluster_end(s, j + 1)
    } else {
        j
    }
}

pub proof fn lemma_cluster_end_bounds(s: Seq<char>, j: int)
    requires
        0 <= j <= s.len(),
    ensures
        j <= spec_cluster_end(s, j) <= s.len(),
    decreases s.len() - j,
{
    if j < s.len() && spec_is_sound_mark(s[j]) {
        lemma_cluster_end_bounds(s, j + 1);
    }
}

/// Recognize a kana cluster starting at index `i` of `s`: a kana lead
/// character together with any immediately following combining sound marks.
/// Returns the cluster and the index just past it, or `None` when `s[i]`
/// cannot begin a kana cluster.
pub fn try_consume_kana(s: &Vec<char>, i: usize) -> (r: Option<(Vec<char>, usize)>)
    requires
        i < s@.len(),
    ensures
        !spec_is_kana_start(s@[i as int]) ==> r is None,
        spec_is_kana_start(s@[i as int]) ==> {
            let e = spec_cluster_end(s@, i + 1);
            r matches Some(p) && p.0@ == s@.subrange(i as int, e) && p.1 == e
        },
{
    if !is_kana_start(s[i]) {
        return None;
    }
    let n = s.len();
    proof {
        lemma_cluster_end_bounds(s@, i + 1);
    }
    let ghost e = spec_cluster_end(s@, i + 1);
    let mut cluster: Vec<char> = Vec::new();
    cluster.push(s[i]);
    let mut j: usize = i + 1;
    while j < n && is_sound_mark(s[j])
        invariant
            n == s@.len(),
            i + 1 <= j <= s@.len(),
            spec_cluster_end(s@, j as int) == e,
            j <= e,
            cluster@ == s@.subrange(i as int, j as int),
        decreases s@.len() - j,
    {
        cluster.push(s[j]);
        proof {
            lemma_cluster_end_bounds(s@, j + 1);
            assert(s@.subrange(i as int, j + 1) == s@.subrange(i as int, j as int).push(s@[j as int]));
        }
        j += 1;
    }
    proof {
        assert(spec_cluster_end(s@, j as int) == j);
    }
    Some((cluster, j))
}

// ---------------------------------------------------------------------------
// Katakana normalization
// ---------------------------------------------------------------------------

/// Relies on char::from_u32: returns the character with scalar value `v`
/// exactly when `v` is a Unicode scalar value (not a surrogate, at most
/// U+10FFFF).
pub assume_specification [ char::from_u32 ] (v: u32) -> (r: Option<char>)
    ensures
        (r is Some) == !((0xD800 <= v && v < 0xE000) || v > 0x10FFFF),
        r matches Some(c) ==> c as u32 == v,
;

/// Characters silently dropped during normalization.
#[derive(Clone, Copy, PartialEq, Eq, Structural, Debug)]
pub enum IgnoreClass {
    /// Drop nothing.
    Nothing,
    /// Drop the glue characters `-` and the ideographic comma used in title
    /// annotations.
    TitleJoiners,
    /// Drop whitespace.
    Spaces,
    /// Drop the punctuation glue accepted around part-of-speech readings.
    PosReading,
    /// Drop the punctuation glue accepted around pronunciation readings.
    Reading,
}

/// Characters passed through verbatim even though they are outside the
/// katakana whitelist.
#[derive(Clone, Copy, PartialEq, Eq, Structural, Debug)]
pub enum KeepClass {
    /// Keep nothing.
    Nothing,
    /// Keep ideographs.
    Ideographs,
}

/// Glue characters ignored in part-of-speech readings.
pub open spec fn spec_pos_reading_ignore(c: char) -> bool {
    let u = c as u32;
    u == 0x2E  // .
        || u == 0x25  // %
        || u == 0x2D  // -
        || u == 0x2010  // hyphen
        || u == 0x30A0  // katakana double hyphen
        || u == 0x30FB  // middle dot
        || u == 0x5E  // ^
        || u == 0x27  // '
        || spec_is_space(c)
}

pub fn pos_reading_ignore(c: char) -> (r: bool)
    ensures
        r == spec_pos_reading_ignore(c),
{
    let u = c as u32;
    u == 0x2E || u == 0x25 || u == 0x2D || u == 0x2010 || u == 0x30A0 || u == 0x30FB || u == 0x5E
        || u == 0x27 || is_space(c)
}

/// Glue characters ignored in pronunciation readings.
pub open spec fn spec_reading_ignore(c: char) -> bool {
    let u = c as u32;
    u == 0x2E || u == 0x25 || u == 0x2D || u == 0x30A0 || u == 0x30FB || spec_is_space(c)
}

pub fn reading_ignore(c: char) -> (r: bool)
    ensures
        r == spec_reading_ignore(c),
{
    let u = c as u32;
    u == 0x2E || u == 0x25 || u == 0x2D || u == 0x30A0 || u == 0x30FB || is_space(c)
}

pub open spec fn spec_ignored(p: IgnoreClass, c: char) -> bool {
    match p {
        IgnoreClass::Nothing => false,
        IgnoreClass::TitleJoiners => c == '-' || c as u32 == 0x3001,
        IgnoreClass::Spaces => spec_is_space(c),
        IgnoreClass::PosReading => spec_pos_reading_ignore(c),
        IgnoreClass::Reading => spec_reading_ignore(c),
    }
}

pub fn ignored(p: IgnoreClass, c: char) -> (r: bool)
    ensures
        r == spec_ignored(p, c),
{
    match p {
        IgnoreClass::Nothing => false,
        IgnoreClass::TitleJoiners => c == '-' || c as u32 == 0x3001,
        IgnoreClass::Spaces => is_space(c),
        IgnoreClass::PosReading => pos_reading_ignore(c),
        IgnoreClass::Reading => reading_ignore(c),
    }
}

pub open spec fn spec_kept(p: KeepClass, c: char) -> bool {
    match p {
        KeepClass::Nothing => false,
        KeepClass::Ideographs => spec_is_ideograph(c),
    }
}

pub fn kept(p: KeepClass, c: char) -> (r: bool)
    ensures
        r == spec_kept(p, c),
{
    match p {
        KeepClass::Nothing => false,
        KeepClass::Ideographs => is_ideograph(c),
    }
}

/// The katakana image of a single character under normalization, when the
/// character is on the whitelist: katakana and attached marks pass through,
/// hiragana shift by a fixed offset, the ligature and small-form variants
/// canonicalize to one representative each.
pub open spec fn spec_katakanify_char(c: char) -> Option<char> {
    let u = c as u32;
    if (0x30A1 <= u && u <= 0x30FA) || (0x309A <= u && u <= 0x309C) || u == 0x30FC || (0x1B164
        <= u && u <= 0x1B167) {
        Some(c)
    } else if u == 0x1B121 || u == 0x1B001 {
        Some('\u{1B121}')
    } else if u == 0x1B132 || u == 0x1B155 {
        Some('\u{1B155}')
    } else if 0x3041 <= u && u <= 0x3096 {
        Some((((u + 0x60) as u32) as char))
    } else if 0x1B150 <= u && u <= 0x1B152 {
        Some((((u + 0x14) as u32) as char))
    } else if u == 0x309D || u == 0x30FD {
        Some('\u{30FD}')
    } else if u == 0x309E || u == 0x30FE {
        Some('\u{30FE}')
    } else {
        None
    }
}

pub fn katakanify_char(c: char) -> (r: Option<char>)
    ensures
        r == spec_katakanify_char(c),
{
    let u = c as u32;
    if (0x30A1 <= u && u <= 0x30FA) || (0x309A <= u && u <= 0x309C) || u == 0x30FC || (0x1B164
        <= u && u <= 0x1B167) {
        Some(c)
    } else if u == 0x1B121 || u == 0x1B001 {
        Some('\u{1B121}')
    } else if u == 0x1B132 || u == 0x1B155 {
        Some('\u{1B155}')
    } else if 0x3041 <= u && u <= 0x3096 {
        let d = char::from_u32(u + 0x60).unwrap();
        proof {
            vstd::utf8::char_u32_cast(d, (u + 0x60) as u32);
        }
        Some(d)
    } else if 0x1B150 <= u && u <= 0x1B152 {
        let d = char::from_u32(u + 0x14).unwrap();
        proof {
            vstd::utf8::char_u32_cast(d, (u + 0x14) as u32);
        }
        Some(d)
    } else if u == 0x309D || u == 0x30FD {
        Some('\u{30FD}')
    } else if u == 0x309E || u == 0x30FE {
        Some('\u{30FE}')
    } else {
        None
    }
}

/// Normalization of a whole string, defined over ever longer prefixes.
/// Ignored characters are dropped, kept characters pass verbatim, all others
/// must be on the whitelist of `spec_katakanify_char` or the whole
/// normalization fails.
pub open spec fn spec_katakanify(s: Seq<char>, ig: IgnoreClass, kp: KeepClass) -> Option<
    Seq<char>,
>
    decreases s.len(),
{
    if s.len() == 0 {
        Some(Seq::empty())
    } else {
        match spec_katakanify(s.drop_last(), ig, kp) {
            Option::None => Option::None,
            Some(t) => {
                let c = s.last();
                if spec_ignored(ig, c) {
                    Some(t)
                } else if spec_kept(kp, c) {
                    Some(t.push(c))
                } else {
                    match spec_katakanify_char(c) {
                        Some(d) => Some(t.push(d)),
                        Option::None => Option::None,
                    }
                }
            },
        }
    }
}

/// Map a string to its katakana-normalized form, or fail when it contains a
/// character that is neither ignored, kept, nor on the katakana whitelist.
pub fn try_katakanify(reading: &Vec<char>, ig: IgnoreClass, kp: KeepClass) -> (r: Option<
    Vec<char>,
>)
    ensures
        match r {
            Some(t) => spec_katakanify(reading@, ig, kp) == Some(t@),
            Option::None => spec_katakanify(reading@, ig, kp) is None,
        },
{
    let mut out: Vec<char> = Vec::new();
    let n = reading.len();
    let mut i: usize = 0;
    while i < n
        invariant
            n == reading@.len(),
            0 <= i <= n,
            spec_katakanify(reading@.take(i as int), ig, kp) == Some(out@),
        decreases n - i,
    {
        let c = reading[i];
        proof {
            assert(reading@.take(i + 1).drop_last() == reading@.take(i as int));
            assert(reading@.take(i + 1).last() == reading@[i as int]);
        }
        if ignored(ig, c) {
        } else if kept(kp, c) {
            out.push(c);
        } else {
            match katakanify_char(c) {
                Some(d) => out.push(d),
                Option::None => {
                    proof {
                        lemma_katakanify_extend_none(reading@, i + 1, ig, kp);
                    }
                    return None;
                },
            }
        }
        i += 1;
    }
    proof {
        assert(reading@.take(n as int) == reading@);
    }
    Some(out)
}

// ---------------------------------------------------------------------------
// Voicing transforms
// ---------------------------------------------------------------------------

/// The character with scalar value `v`.
fn char_of(v: u32) -> (r: char)
    requires
        v < 0xD800 || (0xE000 <= v && v <= 0x10FFFF),
    ensures
        r as u32 == v,
        r == (v as char),
{
    let c = char::from_u32(v).unwrap();
    proof {
        vstd::utf8::char_u32_cast(c, v);
    }
    c
}

/// The unvoiced (seion) counterpart of a katakana syllable: the syllable
/// itself when it carries no voicing, otherwise the same syllable with its
/// dakuten or handakuten removed. `None` for characters outside the katakana
/// syllable block.
pub open spec fn spec_seion(c: char) -> Option<char> {
    let u = c as u32;
    if (0x30A1 <= u && u <= 0x30AA) || u == 0x30C3 || (0x30CA <= u && u <= 0x30CE) || (0x30DE
        <= u && u <= 0x30F3) || u == 0x30F5 || u == 0x30F6 {
        Some(c)
    } else if 0x30AB <= u && u <= 0x30C2 {
        if u % 2 == 1 {
            Some(c)
        } else {
            Some((((u - 1) as u32) as char))
        }
    } else if 0x30CF <= u && u <= 0x30DD {
        Some((((u - ((u - 0x30CF) % 3)) as u32) as char))
    } else if 0x30C4 <= u && u <= 0x30C9 {
        if u % 2 == 0 {
            Some(c)
        } else {
            Some((((u - 1) as u32) as char))
        }
    } else if u == 0x30F4 {
        Some('\u{30A6}')
    } else if 0x30F7 <= u && u <= 0x30FA {
        Some((((u - 8) as u32) as char))
    } else {
        Option::None
    }
}

/// Reproduce a katakana syllable with any voicing mark removed.
pub fn reiterate_seion(c: char) -> (r: Option<char>)
    ensures
        r == spec_seion(c),
{
    let u = c as u32;
    if (0x30A1 <= u && u <= 0x30AA) || u == 0x30C3 || (0x30CA <= u && u <= 0x30CE) || (0x30DE
        <= u && u <= 0x30F3) || u == 0x30F5 || u == 0x30F6 {
        Some(c)
    } else if 0x30AB <= u && u <= 0x30C2 {
        if u % 2 == 1 {
            Some(c)
        } else {
            Some(char_of(u - 1))
        }
    } else if 0x30CF <= u && u <= 0x30DD {
        Some(char_of(u - (u - 0x30CF) % 3))
    } else if 0x30C4 <= u && u <= 0x30C9 {
        if u % 2 == 0 {
            Some(c)
        } else {
            Some(char_of(u - 1))
        }
    } else if u == 0x30F4 {
        Some('\u{30A6}')
    } else if 0x30F7 <= u && u <= 0x30FA {
        Some(char_of(u - 8))
    } else {
        None
    }
}

/// The voiced (dakuon) counterpart of a katakana syllable, or `None` when the
/// syllable has no voiced form (vowels other than u, small tsu, n, small ka
/// and ke) or lies outside the katakana syllable block.
pub open spec fn spec_dakuon(c: char) -> Option<char> {
    let u = c as u32;
    if (0x30A1 <= u && u <= 0x30A5) || (0x30A7 <= u && u <= 0x30AA) || u == 0x30C3 || (0x30CA
        <= u && u <= 0x30CE) || (0x30DE <= u && u <= 0x30EE) || u == 0x30F3 || u == 0x30F5 || u
        == 0x30F6 {
        Option::None
    } else if u == 0x30A6 || u == 0x30F4 {
        Some('\u{30F4}')
    } else if 0x30AB <= u && u <= 0x30C2 {
        if u % 2 == 0 {
            Some(c)
        } else {
            Some((((u + 1) as u32) as char))
        }
    } else if 0x30CF <= u && u <= 0x30DD {
        Some((((u + 2 - (u - 0x30CF) % 3) as u32) as char))
    } else if 0x30C4 <= u && u <= 0x30C9 {
        if u % 2 == 1 {
            Some(c)
        } else {
            Some((((u + 1) as u32) as char))
        }
    } else if 0x30EF <= u && u <= 0x30F2 {
        Some((((u + 8) as u32) as char))
    } else if 0x30F7 <= u && u <= 0x30FA {
        Some(c)
    } else {
        Option::None
    }
}

/// Reproduce a katakana syllable with a voicing mark attached, when one
/// exists.
pub fn reiterate_dakuon(c: char) -> (r: Option<char>)
    ensures
        r == spec_dakuon(c),
{
    let u = c as u32;
    if (0x30A1 <= u && u <= 0x30A5) || (0x30A7 <= u && u <= 0x30AA) || u == 0x30C3 || (0x30CA
        <= u && u <= 0x30CE) || (0x30DE <= u && u <= 0x30EE) || u == 0x30F3 || u == 0x30F5 || u
        == 0x30F6 {
        None
    } else if u == 0x30A6 || u == 0x30F4 {
        Some('\u{30F4}')
    } else if 0x30AB <= u && u <= 0x30C2 {
        if u % 2 == 0 {
            Some(c)
        } else {
            Some(char_of(u + 1))
        }
    } else if 0x30CF <= u && u <= 0x30DD {
        Some(char_of(u + 2 - (u - 0x30CF) % 3))
    } else if 0x30C4 <= u && u <= 0x30C9 {
        if u % 2 == 1 {
            Some(c)
        } else {
            Some(char_of(u + 1))
        }
    } else if 0x30EF <= u && u <= 0x30F2 {
        Some(char_of(u + 8))
    } else if 0x30F7 <= u && u <= 0x30FA {
        Some(c)
    } else {
        None
    }
}

// ---------------------------------------------------------------------------
// Iteration-mark expansion
// ---------------------------------------------------------------------------

/// The plain katakana iteration mark.
pub open spec fn spec_plain_mark() -> char {
    '\u{30FD}'
}

/// The voiced katakana iteration mark.
pub open spec fn spec_voiced_mark() -> char {
    '\u{30FE}'
}

/// The number of chained single-character iteration marks starting at `j`:
/// positions holding a plain or voiced mark with no combining mark attached.
pub open spec fn spec_mark_chain(s: Seq<char>, j: int) -> int
    decreases s.len() - j,
{
    if 0 <= j < s.len() && (s[j] == spec_plain_mark() || s[j] == spec_voiced_mark())
        && spec_cluster_end(s, j + 1) == j + 1 {
        1 + spec_mark_chain(s, j + 1)
    } else {
        0
    }
}

pub proof fn lemma_mark_chain_props(s: Seq<char>, j: int)
    requires
        0 <= j <= s.len(),
    ensures
        0 <= spec_mark_chain(s, j),
        j + spec_mark_chain(s, j) <= s.len(),
        forall|t: int|
            0 <= t < spec_mark_chain(s, j) ==> (#[trigger] s[j + t] == spec_plain_mark() || s[j
                + t] == spec_voiced_mark()),
    decreases s.len() - j,
{
    if 0 <= j < s.len() && (s[j] == spec_plain_mark() || s[j] == spec_voiced_mark())
        && spec_cluster_end(s, j + 1) == j + 1 {
        lemma_mark_chain_props(s, j + 1);
        assert forall|t: int|
            0 <= t < spec_mark_chain(s, j) implies (#[trigger] s[j + t] == spec_plain_mark()
            || s[j + t] == spec_voiced_mark()) by {
            if t > 0 {
                assert(s[(j + 1) + (t - 1)] == s[j + t]);
            }
        }
    }
}

/// Resolution of `m` iteration marks at positions `i..i + m` of `s` against
/// the last `m` clusters of the lookback buffer `buf`: a voiced mark demands
/// the voiced counterpart of its cluster's lead character, a plain mark the
/// unvoiced one; any impossible demand fails the whole resolution.
pub open spec fn spec_resolve_marks(s: Seq<char>, i: int, m: int, buf: Seq<Seq<char>>) -> Option<
    Seq<char>,
>
    decreases m,
{
    if m <= 0 {
        Some(Seq::empty())
    } else {
        let src = buf[buf.len() - m];
        let res = if s[i] == spec_voiced_mark() {
            spec_dakuon(src[0])
        } else {
            spec_seion(src[0])
        };
        match res {
            Option::None => Option::None,
            Some(ch) => match spec_resolve_marks(s, i + 1, m - 1, buf) {
                Option::None => Option::None,
                Some(rest) => Some(seq![ch] + rest),
            },
        }
    }
}

/// Parse the chain of iteration marks starting at `i` (where a mark cluster
/// has just been recognized) and resolve it against the lookback buffer
/// `source`. Returns the resolved characters and the number of marks
/// consumed. Fails when the buffer holds fewer clusters than the chain of
/// marks demands, or when a referenced cluster has no counterpart of the
/// demanded voicing.
pub fn reiterate(s: &Vec<char>, i: usize, source: &Vec<Vec<char>>) -> (r: Option<(Vec<char>, usize)>)
    requires
        i < s@.len(),
        s@[i as int] == spec_plain_mark() || s@[i as int] == spec_voiced_mark(),
        spec_cluster_end(s@, i + 1) == i + 1,
        forall|k: int| 0 <= k < source@.len() ==> source@[k]@.len() > 0,
    ensures
        ({
            let m = spec_mark_chain(s@, i as int);
            if m > source@.len() {
                r is None
            } else {
                match spec_resolve_marks(s@, i as int, m, source.deep_view()) {
                    Some(t) => r matches Some(p) && p.0@ == t && p.1 == m,
                    Option::None => r is None,
                }
            }
        }),
{
    let n = s.len();
    proof {
        lemma_mark_chain_props(s@, i as int);
    }
    let ghost m_spec = spec_mark_chain(s@, i as int);
    // Count the chained marks.
    let mut j: usize = i + 1;
    while j < n && (s[j] == '\u{30FD}' || s[j] == '\u{30FE}') && (j + 1 >= n || !is_sound_mark(
        s[j + 1],
    ))
        invariant
            n == s@.len(),
            i + 1 <= j <= n,
            m_spec == spec_mark_chain(s@, i as int),
            m_spec == (j - i) + spec_mark_chain(s@, j as int),
        decreases n - j,
    {
        proof {
            assert(spec_cluster_end(s@, j + 1) == j + 1);
        }
        j += 1;
    }
    proof {
        if j < n && (s@[j as int] == spec_plain_mark() || s@[j as int] == spec_voiced_mark()) {
            lemma_cluster_end_bounds(s@, j + 2);
        }
        assert(spec_mark_chain(s@, j as int) == 0);
    }
    let m: usize = j - i;
    if m > source.len() {
        return None;
    }
    proof {
        lemma_mark_chain_props(s@, i as int);
    }
    let mut target: Vec<char> = Vec::new();
    let mut t: usize = 0;
    while t < m
        invariant
            n == s@.len(),
            0 <= t <= m,
            m == m_spec,
            m_spec == spec_mark_chain(s@, i as int),
            i + m <= n,
            m <= source@.len(),
            forall|k: int| 0 <= k < source@.len() ==> source@[k]@.len() > 0,
            forall|q: int|
                0 <= q < m ==> (#[trigger] s@[i + q] == spec_plain_mark() || s@[i + q]
                    == spec_voiced_mark()),
            ({
                let full = spec_resolve_marks(s@, i as int, m as int, source.deep_view());
                match spec_resolve_marks(s@, i + t, (m - t) as int, source.deep_view()) {
                    Some(rest) => full == Some(target@ + rest),
                    Option::None => full is None,
                }
            }),
        decreases m - t,
    {
        let src = &source[source.len() - m + t];
        let lead = src[0];
        let res = if s[i + t] == '\u{30FE}' {
            reiterate_dakuon(lead)
        } else {
            reiterate_seion(lead)
        };
        proof {
            assert(source.deep_view()[source@.len() - m + t] == source@[source@.len() - m + t]@);
        }
        match res {
            Some(ch) => {
                target.push(ch);
                proof {
                    let bufv = source.deep_view();
                    let rest2 = spec_resolve_marks(s@, i + t + 1, (m - t - 1) as int, bufv);
                    if rest2 is Some {
                        assert(target@ + rest2->0 == target@.drop_last() + (seq![ch]
                            + rest2->0));
                    }
                }
            },
            None => {
                return None;
            },
        }
        t += 1;
    }
    Some((target, m))
}

/// One pass of iteration-mark expansion over `s` from position `i`, carrying
/// the lookback buffer of kana clusters `buf` and the output accumulated so
/// far. Kana clusters accumulate in the buffer; a mark cluster resolves
/// against the buffer and flushes it; a non-kana character flushes and resets
/// the buffer and is itself dropped.
pub open spec fn spec_expand_loop(
    s: Seq<char>,
    i: int,
    buf: Seq<Seq<char>>,
    out: Seq<char>,
) -> Option<Seq<char>>
    decreases s.len() - i,
{
    if i < 0 || i >= s.len() {
        Some(out + buf.flatten())
    } else {
        let c = s[i];
        if spec_is_kana_start(c) {
            let e = spec_cluster_end(s, i + 1);
            let cl = s.subrange(i, e);
            if cl == seq![spec_plain_mark()] || cl == seq![spec_voiced_mark()] {
                let m = spec_mark_chain(s, i);
                if m > buf.len() {
                    Option::None
                } else {
                    match spec_resolve_marks(s, i, m, buf) {
                        Option::None => Option::None,
                        Some(extra) => if 1 <= m && i + m <= s.len() {
                            spec_expand_loop(s, i + m, Seq::empty(), out + buf.flatten() + extra)
                        } else {
                            Option::None
                        },
                    }
                }
            } else {
                if i < e && e <= s.len() {
                    spec_expand_loop(s, e, buf.push(cl), out)
                } else {
                    Option::None
                }
            }
        } else {
            spec_expand_loop(s, i + 1, Seq::empty(), out + buf.flatten())
        }
    }
}

/// Iteration-mark expansion of a whole katakana string.
pub open spec fn spec_expand(s: Seq<char>) -> Option<Seq<char>> {
    spec_expand_loop(s, 0, Seq::empty(), Seq::empty())
}

/// Append every cluster of `buf` to `out`.
fn flush_clusters(out: &mut Vec<char>, buf: &Vec<Vec<char>>)
    ensures
        final(out)@ == old(out)@ + buf.deep_view().flatten(),
{
    let mut k: usize = 0;
    proof {
        assert(buf.deep_view().take(0int).flatten() == Seq::<char>::empty());
        assert(out@ == old(out)@ + buf.deep_view().take(0int).flatten());
    }
    while k < buf.len()
        invariant
            0 <= k <= buf@.len(),
            buf.deep_view().len() == buf@.len(),
            out@ == old(out)@ + buf.deep_view().take(k as int).flatten(),
        decreases buf@.len() - k,
    {
        let cluster = &buf[k];
        let mut c: usize = 0;
        while c < cluster.len()
            invariant
                0 <= c <= cluster@.len(),
                cluster@ == buf@[k as int]@,
                k < buf@.len(),
                buf.deep_view().len() == buf@.len(),
                out@ == old(out)@ + buf.deep_view().take(k as int).flatten() + cluster@.take(
                    c as int,
                ),
            decreases cluster@.len() - c,
        {
            out.push(cluster[c]);
            proof {
                assert(cluster@.take(c + 1) == cluster@.take(c as int).push(cluster@[c as int]));
            }
            c += 1;
        }
        proof {
            let dv = buf.deep_view();
            assert(cluster@.take(cluster@.len() as int) == cluster@);
            dv.take(k as int).lemma_flatten_push(dv[k as int]);
            assert(dv.take(k + 1) == dv.take(k as int).push(dv[k as int]));
            assert(dv[k as int] == buf@[k as int]@);
            assert(out@ == old(out)@ + dv.take(k + 1).flatten());
        }
        k += 1;
    }
    proof {
        assert(buf.deep_view().take(buf@.len() as int) == buf.deep_view());
    }
}

/// Expand all iteration marks in a katakana string: each mark repeats the
/// corresponding cluster of the most recent unbroken run of kana clusters,
/// voiced or unvoiced as the mark demands. Fails when a mark chain reaches
/// further back than the run, or when a demanded voicing does not exist.
pub fn expand_katakana(reading: &Vec<char>) -> (r: Option<Vec<char>>)
    ensures
        match r {
            Some(t) => spec_expand(reading@) == Some(t@),
            Option::None => spec_expand(reading@) is None,
        },
{
    let n = reading.len();
    let mut out: Vec<char> = Vec::new();
    let mut buf: Vec<Vec<char>> = Vec::new();
    let mut i: usize = 0;
    proof {
        assert(buf.deep_view() =~= Seq::<Seq<char>>::empty());
        assert(out@ =~= Seq::<char>::empty());
    }
    while i < n
        invariant
            n == reading@.len(),
            0 <= i <= n,
            forall|k: int| 0 <= k < buf@.len() ==> #[trigger] buf@[k]@.len() > 0,
            spec_expand(reading@) == spec_expand_loop(
                reading@,
                i as int,
                buf.deep_view(),
                out@,
            ),
        decreases n - i,
    {
        let s = reading;
        match try_consume_kana(s, i) {
            Some((cl, e)) => {
                proof {
                    lemma_cluster_end_bounds(s@, i + 1);
                }
                if cl.len() == 1 && (cl[0] == '\u{30FD}' || cl[0] == '\u{30FE}') {
                    proof {
                        assert(cl@ =~= seq![s@[i as int]]);
                        lemma_mark_chain_props(s@, i as int);
                    }
                    match reiterate(s, i, &buf) {
                        Some((extra, m)) => {
                            proof {
                                lemma_mark_chain_props(s@, i + 1);
                                assert(spec_mark_chain(s@, i as int) >= 1);
                            }
                            flush_clusters(&mut out, &buf);
                            let mut extra = extra;
                            out.append(&mut extra);
                            buf = Vec::new();
                            proof {
                                assert(buf.deep_view() =~= Seq::<Seq<char>>::empty());
                            }
                            i += m;
                        },
                        None => {
                            return None;
                        },
                    }
                } else {
                    proof {
                        let clv = cl@;
                        if clv == seq![spec_plain_mark()] || clv == seq![spec_voiced_mark()] {
                            assert(clv.len() == 1);
                            assert(clv[0] == spec_plain_mark() || clv[0] == spec_voiced_mark());
                            assert(false);
                        }
                    }
                    let ghost old_buf = buf.deep_view();
                    buf.push(cl);
                    proof {
                        assert(buf.deep_view() =~~= old_buf.push(s@.subrange(
                            i as int,
                            spec_cluster_end(s@, i + 1),
                        )));
                    }
                    i = e;
                }
            },
            None => {
                flush_clusters(&mut out, &buf);
                buf = Vec::new();
                proof {
                    assert(buf.deep_view() =~= Seq::<Seq<char>>::empty());
                }
                i += 1;
            },
        }
    }
    flush_clusters(&mut out, &buf);
    Some(out)
}

/// Law: iteration-mark expansion is undefined when a chain of marks reaches
/// further back than the lookback buffer holds. From any state of the pass,
/// a single-character mark cluster at `i` whose chain of marks outnumbers
/// the buffered clusters fails the whole expansion.
pub proof fn lemma_expand_mark_chain_fails(
    s: Seq<char>,
    i: int,
    buf: Seq<Seq<char>>,
    out: Seq<char>,
)
    requires
        0 <= i < s.len(),
        s[i] == spec_plain_mark() || s[i] == spec_voiced_mark(),
        spec_cluster_end(s, i + 1) == i + 1,
        spec_mark_chain(s, i) > buf.len(),
    ensures
        spec_expand_loop(s, i, buf, out) is None,
{
    assert(spec_is_kana_start(s[i]));
    assert(s.subrange(i, i + 1) =~= seq![s[i]]);
}

/// Law: a mark at the very start of the input, where the lookback buffer is
/// still empty, makes the expansion fail.
pub proof fn lemma_expand_leading_mark_fails(s: Seq<char>)
    requires
        s.len() > 0,
        s[0] == spec_plain_mark() || s[0] == spec_voiced_mark(),
        spec_cluster_end(s, 1) == 1,
    ensures
        spec_expand(s) is None,
{
    lemma_mark_chain_props(s, 1);
    assert(spec_mark_chain(s, 0) >= 1);
    lemma_expand_mark_chain_fails(s, 0, Seq::empty(), Seq::empty());
}

// ---------------------------------------------------------------------------
// Mora duration
// ---------------------------------------------------------------------------

/// A small vowel or glide character, which attaches to the preceding mora
/// instead of forming one of its own.
pub open spec fn spec_is_small_glide(c: char) -> bool {
    let u = c as u32;
    u == 0x30A1 || u == 0x30A3 || u == 0x30A5 || u == 0x30A7 || u == 0x30A9 || u == 0x30E3 || u
        == 0x30E5 || u == 0x30E7 || u == 0x30EE || (0x1B164 <= u && u <= 0x1B166)
}

pub fn is_small_glide(c: char) -> (r: bool)
    ensures
        r == spec_is_small_glide(c),
{
    let u = c as u32;
    u == 0x30A1 || u == 0x30A3 || u == 0x30A5 || u == 0x30A7 || u == 0x30A9 || u == 0x30E3 || u
        == 0x30E5 || u == 0x30E7 || u == 0x30EE || (0x1B164 <= u && u <= 0x1B166)
}

/// The mora count of a katakana string: one per character, except that small
/// vowel and glide characters count nothing.
pub open spec fn spec_duration(s: Seq<char>) -> nat
    decreases s.len(),
{
    if s.len() == 0 {
        0
    } else {
        spec_duration(s.drop_last()) + if spec_is_small_glide(s.last()) {
            0nat
        } else {
            1nat
        }
    }
}

/// Compute the length, in moras, of a string of katakana.
pub fn compute_duration(kata_string: &Vec<char>) -> (r: usize)
    ensures
        r == spec_duration(kata_string@),
{
    let n = kata_string.len();
    let mut duration: usize = 0;
    let mut i: usize = 0;
    while i < n
        invariant
            n == kata_string@.len(),
            0 <= i <= n,
            duration == spec_duration(kata_string@.take(i as int)),
            duration <= i,
        decreases n - i,
    {
        proof {
            assert(kata_string@.take(i + 1).drop_last() == kata_string@.take(i as int));
        }
        if !is_small_glide(kata_string[i]) {
            duration += 1;
        }
        i += 1;
    }
    proof {
        assert(kata_string@.take(n as int) == kata_string@);
    }
    duration
}

// ---------------------------------------------------------------------------
// Laws
// ---------------------------------------------------------------------------

/// A character whose katakana image is a small vowel or glide: the small
/// glides themselves, their hiragana counterparts, and the supplementary
/// small hiragana forms.
pub open spec fn spec_is_small_glide_source(c: char) -> bool {
    let u = c as u32;
    spec_is_small_glide(c) || u == 0x3041 || u == 0x3043 || u == 0x3045 || u == 0x3047 || u
        == 0x3049 || u == 0x3083 || u == 0x3085 || u == 0x3087 || u == 0x308E || (0x1B150 <= u
        && u <= 0x1B152)
}

/// Law: the mora duration of a normalized string never exceeds the length of
/// the string it was normalized from; and it equals that length when no
/// character of the source is ignored and none is a small vowel or glide.
pub proof fn lemma_mora_duration_bound(s: Seq<char>, ig: IgnoreClass, kp: KeepClass, t: Seq<char>)
    requires
        spec_katakanify(s, ig, kp) == Some(t),
    ensures
        spec_duration(t) <= t.len() <= s.len(),
        (forall|k: int|
            0 <= k < s.len() ==> !spec_ignored(ig, #[trigger] s[k])
                && !spec_is_small_glide_source(s[k])) ==> spec_duration(t) == s.len(),
    decreases s.len(),
{
    if s.len() > 0 {
        let t0 = spec_katakanify(s.drop_last(), ig, kp)->0;
        lemma_mora_duration_bound(s.drop_last(), ig, kp, t0);
        assert(forall|k: int| 0 <= k < s.len() - 1 ==> s.drop_last()[k] == #[trigger] s[k]);
        let c = s.last();
        if !spec_ignored(ig, c) {
            let d = if spec_kept(kp, c) {
                c
            } else {
                spec_katakanify_char(c)->0
            };
            assert(t == t0.push(d));
            assert(t0.push(d).drop_last() == t0);
            assert(t0.push(d).last() == d);
            assert(!spec_is_small_glide_source(c) ==> !spec_is_small_glide(d));
        }
    }
}

/// Every character a normalization emits is either a fixed point of the
/// per-character map or a kept character, and is never ignored.
pub proof fn lemma_katakanify_output(s: Seq<char>, ig: IgnoreClass, kp: KeepClass, t: Seq<char>)
    requires
        spec_katakanify(s, ig, kp) == Some(t),
    ensures
        forall|k: int|
            0 <= k < t.len() ==> ((spec_katakanify_char(#[trigger] t[k]) == Some(t[k])
                || spec_kept(kp, t[k])) && !spec_ignored(ig, t[k])),
    decreases s.len(),
{
    if s.len() > 0 {
        let t0 = spec_katakanify(s.drop_last(), ig, kp)->0;
        lemma_katakanify_output(s.drop_last(), ig, kp, t0);
    }
}

/// Normalization leaves a string unchanged when every character of it is
/// already in normal form: neither ignored nor altered by the per-character
/// map.
pub proof fn lemma_katakanify_fixed_point(t: Seq<char>, ig: IgnoreClass, kp: KeepClass)
    requires
        forall|k: int|
            0 <= k < t.len() ==> ((spec_katakanify_char(#[trigger] t[k]) == Some(t[k])
                || spec_kept(kp, t[k])) && !spec_ignored(ig, t[k])),
    ensures
        spec_katakanify(t, ig, kp) == Some(t),
    decreases t.len(),
{
    if t.len() > 0 {
        assert(forall|k: int| 0 <= k < t.len() - 1 ==> t.drop_last()[k] == #[trigger] t[k]);
        lemma_katakanify_fixed_point(t.drop_last(), ig, kp);
        assert(t.drop_last().push(t.last()) =~= t);
    }
}

/// Law: normalization is idempotent — applied to its own output, with the
/// same policies, it returns the output unchanged.
pub proof fn lemma_katakanify_idempotent(s: Seq<char>, ig: IgnoreClass, kp: KeepClass, t: Seq<char>)
    requires
        spec_katakanify(s, ig, kp) == Some(t),
    ensures
        spec_katakanify(t, ig, kp) == Some(t),
{
    lemma_katakanify_output(s, ig, kp, t);
    lemma_katakanify_fixed_point(t, ig, kp);
}

/// A failed prefix makes the whole normalization fail.
proof fn lemma_katakanify_extend_none(s: Seq<char>, j: int, ig: IgnoreClass, kp: KeepClass)
    requires
        0 <= j <= s.len(),
        spec_katakanify(s.take(j), ig, kp) is None,
    ensures
        spec_katakanify(s, ig, kp) is None,
    decreases s.len(),
{
    if j < s.len() {
        assert(s.drop_last().take(j) == s.take(j));
        lemma_katakanify_extend_none(s.drop_last(), j, ig, kp);
    } else {
        assert(s.take(j) == s);
    }
}

} // verus!
