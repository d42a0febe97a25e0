//! Per-template field extractors: walking an invocation's split argument
//! list and bucketing values into typed records — kanji-table cells, plain
//! reading lists, and pronunciation records.
//!
//! A malformed argument list (an out-of-order cell, a repeated cell, a bad
//! number) makes the whole extraction return `None`; the caller drops the
//! record and goes on.

use vstd::prelude::*;

use crate::wikitext::{collect_params, spec_params};

verus! {

// ---------------------------------------------------------------------------
// Digits and small helpers
// ---------------------------------------------------------------------------

pub open spec fn spec_is_digit(c: char) -> bool {
    '0' <= c && c <= '9'
}

pub fn is_digit(c: char) -> (r: bool)
    ensures
        r == spec_is_digit(c),
{
    '0' <= c && c <= '9'
}

pub open spec fn spec_all_digits(s: Seq<char>) -> bool {
    forall|k: int| 0 <= k < s.len() ==> spec_is_digit(#[trigger] s[k])
}

pub fn all_digits(s: &Vec<char>) -> (r: bool)
    ensures
        r == spec_all_digits(s@),
{
    let n = s.len();
    let mut k: usize = 0;
    while k < n
        invariant
            n == s@.len(),
            0 <= k <= n,
            forall|q: int| 0 <= q < k ==> spec_is_digit(#[trigger] s@[q]),
        decreases n - k,
    {
        if !is_digit(s[k]) {
            return false;
        }
        k += 1;
    }
    true
}

/// The numeric value of a digit string, read in base ten.
pub open spec fn spec_digits_val(s: Seq<char>) -> int
    decreases s.len(),
{
    if s.len() == 0 {
        0
    } else {
        spec_digits_val(s.drop_last()) * 10 + (s.last() as int - '0' as int)
    }
}

/// A digit string's value only grows as digits are appended.
proof fn lemma_digits_val_prefix(s: Seq<char>, j: int)
    requires
        spec_all_digits(s),
        0 <= j <= s.len(),
    ensures
        0 <= spec_digits_val(s.take(j)) <= spec_digits_val(s),
    decreases s.len(),
{
    if s.len() == 0 {
    } else {
        assert(forall|k: int| 0 <= k < s.len() - 1 ==> s.drop_last()[k] == #[trigger] s[k]);
        if j < s.len() {
            assert(s.drop_last().take(j) == s.take(j));
            lemma_digits_val_prefix(s.drop_last(), j);
            lemma_digits_val_prefix(s.drop_last(), s.len() - 1);
            assert(s.drop_last().take(s.len() - 1) == s.drop_last());
        } else {
            assert(s.take(j) == s);
            lemma_digits_val_prefix(s.drop_last(), s.len() - 1);
            assert(s.drop_last().take(s.len() - 1) == s.drop_last());
        }
    }
}

/// Read a number from a digit string; fails when the string is empty, holds
/// a non-digit, or exceeds the greatest count a cell may carry.
pub fn parse_number(s: &Vec<char>) -> (r: Option<u8>)
    ensures
        match r {
            Some(x) => s@.len() > 0 && spec_all_digits(s@) && x == spec_digits_val(s@) && x
                <= 255,
            Option::None => !(s@.len() > 0 && spec_all_digits(s@) && spec_digits_val(s@) <= 255),
        },
{
    let n = s.len();
    if n == 0 {
        return None;
    }
    let mut acc: u32 = 0;
    let mut k: usize = 0;
    while k < n
        invariant
            n == s@.len(),
            0 <= k <= n,
            spec_all_digits(s@.take(k as int)),
            acc == spec_digits_val(s@.take(k as int)),
            acc <= 255,
        decreases n - k,
    {
        let c = s[k];
        if !is_digit(c) {
            proof {
                assert(!spec_is_digit(s@[k as int]));
            }
            return None;
        }
        let d = (c as u32) - 48;
        let next = acc * 10 + d;
        proof {
            assert(s@.take(k + 1).drop_last() == s@.take(k as int));
            assert(s@.take(k + 1).last() == s@[k as int]);
        }
        if next > 255 {
            proof {
                if spec_all_digits(s@) {
                    lemma_digits_val_prefix(s@, k + 1);
                }
            }
            return None;
        }
        acc = next;
        k += 1;
    }
    proof {
        assert(s@.take(n as int) == s@);
    }
    Some(acc as u8)
}

/// Where a cut splits: the first position matching the pattern, or the end.
#[derive(Clone, Copy, PartialEq, Eq, Structural, Debug)]
pub enum CutPattern {
    /// Split at the first decimal digit.
    Digit,
    /// Split at the first character that is not a decimal digit.
    NonDigit,
}

pub open spec fn spec_cut_matches(pat: CutPattern, c: char) -> bool {
    match pat {
        CutPattern::Digit => spec_is_digit(c),
        CutPattern::NonDigit => !spec_is_digit(c),
    }
}

pub open spec fn spec_cut_point(s: Seq<char>, i: int, pat: CutPattern) -> int
    decreases s.len() - i,
{
    if i < 0 || i >= s.len() {
        s.len() as int
    } else if spec_cut_matches(pat, s[i]) {
        i
    } else {
        spec_cut_point(s, i + 1, pat)
    }
}

proof fn lemma_cut_point_bounds(s: Seq<char>, i: int, pat: CutPattern)
    requires
        0 <= i <= s.len(),
    ensures
        i <= spec_cut_point(s, i, pat) <= s.len(),
    decreases s.len() - i,
{
    if i < s.len() && !spec_cut_matches(pat, s[i]) {
        lemma_cut_point_bounds(s, i + 1, pat);
    }
}

/// Split a string at the first character matching the pattern: the part
/// before it, and the rest from it on.
pub fn cut(text: &Vec<char>, pattern: CutPattern) -> (r: (Vec<char>, Vec<char>))
    ensures
        ({
            let cp = spec_cut_point(text@, 0, pattern);
            r.0@ == text@.take(cp) && r.1@ == text@.skip(cp)
        }),
{
    let n = text.len();
    let mut j: usize = 0;
    while j < n
        invariant
            n == text@.len(),
            0 <= j <= n,
            spec_cut_point(text@, 0, pattern) == spec_cut_point(text@, j as int, pattern),
        decreases n - j,
    {
        if match pattern {
            CutPattern::Digit => is_digit(text[j]),
            CutPattern::NonDigit => !is_digit(text[j]),
        } {
            let head = crate::wikitext::copy_range(text, 0, j);
            let tail = crate::wikitext::copy_range(text, j, n);
            proof {
                assert(text@.take(j as int) =~= text@.subrange(0, j as int));
                assert(text@.skip(j as int) =~= text@.subrange(j as int, n as int));
            }
            return (head, tail);
        }
        j += 1;
    }
    let head = crate::wikitext::copy_range(text, 0, n);
    proof {
        assert(text@.take(n as int) =~= text@.subrange(0, n as int));
        assert(text@.skip(n as int) =~= Seq::<char>::empty());
    }
    (head, Vec::new())
}

/// The parameter name and value around the first `=`, when one is present.
pub open spec fn spec_split_eq(p: Seq<char>) -> Option<(Seq<char>, Seq<char>)> {
    match crate::wikitext::spec_find_char_in(p, 0, p.len() as int, '=') {
        Some(e) => Some((p.take(e), p.skip(e + 1))),
        Option::None => Option::None,
    }
}

/// Split a parameter at its first `=` into name and value.
pub fn split_eq(p: &Vec<char>) -> (r: Option<(Vec<char>, Vec<char>)>)
    ensures
        match spec_split_eq(p@) {
            Some(q) => r matches Some(v) && v.0@ == q.0 && v.1@ == q.1,
            Option::None => r is None,
        },
{
    let n = p.len();
    match crate::wikitext::find_char_in(p, 0, n, '=') {
        Some(e) => {
            proof {
                crate::wikitext::lemma_find_char_in_some(p@, 0, n as int, '=');
            }
            let name = crate::wikitext::copy_range(p, 0, e);
            let value = crate::wikitext::copy_range(p, e + 1, n);
            proof {
                assert(p@.take(e as int) =~= p@.subrange(0, e as int));
                assert(p@.skip(e + 1) =~= p@.subrange(e + 1, n as int));
            }
            Some((name, value))
        },
        None => None,
    }
}

/// `s`, padded at the end with `fill` up to length `n` (unchanged when
/// already that long).
pub open spec fn spec_pad<A>(s: Seq<A>, n: int, fill: A) -> Seq<A> {
    if s.len() >= n {
        s
    } else {
        s + Seq::new((n - s.len()) as nat, |i: int| fill)
    }
}

/// Set one element of a vector.
pub(crate) fn vec_set<T>(v: &mut Vec<T>, i: usize, x: T)
    requires
        i < old(v)@.len(),
    ensures
        final(v)@ == old(v)@.update(i as int, x),
{
    v.remove(i);
    v.insert(i, x);
    proof {
        assert(old(v)@.remove(i as int).insert(i as int, x) =~= old(v)@.update(i as int, x));
    }
}

// ---------------------------------------------------------------------------
// Records
// ---------------------------------------------------------------------------

/// A kanji table: index-aligned reading cells (reading text and character
/// span), override readings, and supplementary omitted readings.
pub struct JaKanjitab {
    pub readings: Vec<(Vec<char>, u8)>,
    pub alterations: Vec<Option<Vec<char>>>,
    pub omissions: Vec<Option<Vec<char>>>,
}

/// Plain reading strings contributed by a part-of-speech or
/// alternative-reading template.
pub struct JaPos {
    pub readings: Vec<Vec<char>>,
}

/// A pronunciation record: readings (an empty cell reuses the previous
/// one), per-index accent codes, and per-index non-standard-dialect flags.
pub struct JaPron {
    pub readings: Vec<Vec<char>>,
    pub accents: Vec<JaPronAccent>,
    pub accent_locations: Vec<bool>,
}

/// An accent code: an explicit mora position, the always-final marker, or
/// no accent information.
#[derive(Clone, Copy, PartialEq, Eq, Structural, Debug)]
pub enum JaPronAccent {
    Numeric(u8),
    Odaka,
    Unmarked,
}

/// A classified kanji-table parameter name: an override cell `k<N>`, an
/// omission cell `o<N>`, an explicit reading index `<N>`, a name this
/// extractor does not handle, or a malformed one (index out of range).
#[derive(Clone, Copy, PartialEq, Eq, Structural, Debug)]
pub enum JaKanjitabParameter {
    Alter(u8),
    Omit(u8),
    Reading(u8),
    Unrecognized,
    Invalid,
}

/// A classified pronunciation parameter name: a reading index `<N>`, an
/// accent cell `acc<N>`/`accent<N>`, a dialect-location flag `..._loc`, a
/// name this extractor does not handle, or a malformed one.
#[derive(Clone, Copy, PartialEq, Eq, Structural, Debug)]
pub enum JaPronParameter {
    Reading(u8),
    Accent(u8),
    Location(u8),
    Unrecognized,
    Invalid,
}

// ---------------------------------------------------------------------------
// Parameter-name classification
// ---------------------------------------------------------------------------

pub open spec fn spec_kanjitab_parameter(p: Seq<char>) -> JaKanjitabParameter {
    if p.len() >= 1 && p[0] == 'k' && spec_all_digits(p.skip(1)) {
        if p.len() == 1 {
            JaKanjitabParameter::Alter(1)
        } else if spec_digits_val(p.skip(1)) <= 255 {
            JaKanjitabParameter::Alter(spec_digits_val(p.skip(1)) as u8)
        } else {
            JaKanjitabParameter::Invalid
        }
    } else if p.len() >= 1 && p[0] == 'o' && spec_all_digits(p.skip(1)) {
        if p.len() == 1 {
            JaKanjitabParameter::Omit(1)
        } else if spec_digits_val(p.skip(1)) <= 255 {
            JaKanjitabParameter::Omit(spec_digits_val(p.skip(1)) as u8)
        } else {
            JaKanjitabParameter::Invalid
        }
    } else if p.len() > 0 && spec_all_digits(p) {
        if spec_digits_val(p) <= 255 {
            JaKanjitabParameter::Reading(spec_digits_val(p) as u8)
        } else {
            JaKanjitabParameter::Invalid
        }
    } else {
        JaKanjitabParameter::Unrecognized
    }
}

/// Classify one kanji-table parameter name.
pub fn parse_ja_kanjitab_parameter(parameter: &Vec<char>) -> (r: JaKanjitabParameter)
    ensures
        r == spec_kanjitab_parameter(parameter@),
{
    let n = parameter.len();
    if n >= 1 && (parameter[0] == 'k' || parameter[0] == 'o') {
        let rest = crate::wikitext::copy_range(parameter, 1, n);
        proof {
            assert(rest@ =~= parameter@.skip(1));
        }
        if all_digits(&rest) {
            let k = parameter[0] == 'k';
            if n == 1 {
                return if k {
                    JaKanjitabParameter::Alter(1)
                } else {
                    JaKanjitabParameter::Omit(1)
                };
            }
            return match parse_number(&rest) {
                Some(x) => if k {
                    JaKanjitabParameter::Alter(x)
                } else {
                    JaKanjitabParameter::Omit(x)
                },
                None => JaKanjitabParameter::Invalid,
            };
        }
    }
    if n > 0 && all_digits(parameter) {
        return match parse_number(parameter) {
            Some(x) => JaKanjitabParameter::Reading(x),
            None => JaKanjitabParameter::Invalid,
        };
    }
    JaKanjitabParameter::Unrecognized
}

/// The accent-name suffix `_loc`.
pub open spec fn spec_loc_suffix() -> Seq<char> {
    seq!['_', 'l', 'o', 'c']
}

/// The accent-name suffix `_ref`.
pub open spec fn spec_ref_suffix() -> Seq<char> {
    seq!['_', 'r', 'e', 'f']
}

/// The accent-name suffix `_note`.
pub open spec fn spec_note_suffix() -> Seq<char> {
    seq!['_', 'n', 'o', 't', 'e']
}

/// Classification of what follows an `acc`/`accent` prefix: leading digits
/// give the index (default 1), the remaining suffix picks the meaning.
pub open spec fn spec_pron_suffix(rem: Seq<char>) -> JaPronParameter {
    let cp = spec_cut_point(rem, 0, CutPattern::NonDigit);
    let number = rem.take(cp);
    let tail = rem.skip(cp);
    if number.len() > 0 && spec_digits_val(number) > 255 {
        JaPronParameter::Invalid
    } else {
        let nval = if number.len() == 0 {
            1u8
        } else {
            spec_digits_val(number) as u8
        };
        if tail.len() == 0 {
            JaPronParameter::Accent(nval)
        } else if tail == spec_ref_suffix() || tail == spec_note_suffix() {
            JaPronParameter::Unrecognized
        } else if tail == spec_loc_suffix() {
            JaPronParameter::Location(nval)
        } else {
            JaPronParameter::Invalid
        }
    }
}

pub open spec fn spec_pron_parameter(p: Seq<char>) -> JaPronParameter {
    if p.len() >= 6 && p[0] == 'a' && p[1] == 'c' && p[2] == 'c' && p[3] == 'e' && p[4] == 'n'
        && p[5] == 't' {
        spec_pron_suffix(p.skip(6))
    } else if p.len() >= 3 && p[0] == 'a' && p[1] == 'c' && p[2] == 'c' {
        spec_pron_suffix(p.skip(3))
    } else if spec_all_digits(p) {
        if p.len() > 0 && spec_digits_val(p) <= 255 {
            JaPronParameter::Reading(spec_digits_val(p) as u8)
        } else {
            JaPronParameter::Invalid
        }
    } else {
        JaPronParameter::Unrecognized
    }
}

fn pron_suffix(rem: &Vec<char>) -> (r: JaPronParameter)
    ensures
        r == spec_pron_suffix(rem@),
{
    let (number, tail) = cut(rem, CutPattern::NonDigit);
    proof {
        lemma_cut_point_bounds(rem@, 0, CutPattern::NonDigit);
    }
    let nval: u8;
    if number.len() == 0 {
        nval = 1;
    } else {
        proof {
            let cp = spec_cut_point(rem@, 0, CutPattern::NonDigit);
            assert forall|q: int| 0 <= q < number@.len() implies spec_is_digit(
                #[trigger] number@[q],
            ) by {
                lemma_cut_point_first(rem@, 0, CutPattern::NonDigit, q);
            }
        }
        match parse_number(&number) {
            Some(x) => {
                nval = x;
            },
            None => {
                return JaPronParameter::Invalid;
            },
        }
    }
    let tn = tail.len();
    if tn == 0 {
        JaPronParameter::Accent(nval)
    } else if tn == 4 && tail[0] == '_' && tail[1] == 'r' && tail[2] == 'e' && tail[3] == 'f' {
        proof {
            assert(tail@ =~= spec_ref_suffix());
        }
        JaPronParameter::Unrecognized
    } else if tn == 5 && tail[0] == '_' && tail[1] == 'n' && tail[2] == 'o' && tail[3] == 't'
        && tail[4] == 'e' {
        proof {
            assert(tail@ =~= spec_note_suffix());
        }
        JaPronParameter::Unrecognized
    } else if tn == 4 && tail[0] == '_' && tail[1] == 'l' && tail[2] == 'o' && tail[3] == 'c' {
        proof {
            assert(tail@ =~= spec_loc_suffix());
        }
        JaPronParameter::Location(nval)
    } else {
        proof {
            assert(tail@ != spec_ref_suffix());
            assert(tail@ != spec_note_suffix());
            assert(tail@ != spec_loc_suffix());
        }
        JaPronParameter::Invalid
    }
}

/// Positions before the cut point do not match the pattern.
proof fn lemma_cut_point_first(s: Seq<char>, i: int, pat: CutPattern, q: int)
    requires
        0 <= i <= s.len(),
        i <= q + i,
    ensures
        i <= q + i < spec_cut_point(s, i, pat) ==> !spec_cut_matches(pat, s[q + i]),
    decreases s.len() - i,
{
    if i < s.len() && !spec_cut_matches(pat, s[i]) {
        if q > 0 {
            lemma_cut_point_first(s, i + 1, pat, q - 1);
        }
    }
}

/// Classify one pronunciation parameter name.
pub fn parse_ja_pron_parameter(parameter: &Vec<char>) -> (r: JaPronParameter)
    ensures
        r == spec_pron_parameter(parameter@),
{
    let n = parameter.len();
    if n >= 6 && parameter[0] == 'a' && parameter[1] == 'c' && parameter[2] == 'c'
        && parameter[3] == 'e' && parameter[4] == 'n' && parameter[5] == 't' {
        let rem = crate::wikitext::copy_range(parameter, 6, n);
        proof {
            assert(rem@ =~= parameter@.skip(6));
        }
        pron_suffix(&rem)
    } else if n >= 3 && parameter[0] == 'a' && parameter[1] == 'c' && parameter[2] == 'c' {
        let rem = crate::wikitext::copy_range(parameter, 3, n);
        proof {
            assert(rem@ =~= parameter@.skip(3));
        }
        pron_suffix(&rem)
    } else if all_digits(parameter) {
        if n == 0 {
            return JaPronParameter::Invalid;
        }
        match parse_number(parameter) {
            Some(x) => JaPronParameter::Reading(x),
            None => JaPronParameter::Invalid,
        }
    } else {
        JaPronParameter::Unrecognized
    }
}

// ---------------------------------------------------------------------------
// Padding helpers
// ---------------------------------------------------------------------------

fn pad_options(v: &mut Vec<Option<Vec<char>>>, n: usize)
    ensures
        final(v).deep_view() == spec_pad(old(v).deep_view(), n as int, Option::<Seq<char>>::None),
        final(v)@.len() >= n,
        final(v)@.len() >= old(v)@.len(),
{
    proof {
        assert(v.deep_view() =~= spec_pad(old(v).deep_view(), v@.len() as int, Option::<
            Seq<char>,
        >::None));
    }
    while v.len() < n
        invariant
            v@.len() >= old(v)@.len(),
            v@.len() <= n || v@.len() == old(v)@.len(),
            v.deep_view() == spec_pad(old(v).deep_view(), v@.len() as int, Option::<
                Seq<char>,
            >::None),
        decreases n - v@.len(),
    {
        let ghost prev = v.deep_view();
        v.push(None);
        proof {
            assert(v.deep_view() =~~= prev.push(Option::<Seq<char>>::None));
            assert(v.deep_view() =~~= spec_pad(old(v).deep_view(), v@.len() as int, Option::<
                Seq<char>,
            >::None));
        }
    }
}

pub(crate) fn pad_copy<T: Copy>(v: &mut Vec<T>, n: usize, fill: T)
    ensures
        final(v)@ == spec_pad(old(v)@, n as int, fill),
        final(v)@.len() >= n,
        final(v)@.len() >= old(v)@.len(),
{
    proof {
        assert(v@ =~= spec_pad(old(v)@, v@.len() as int, fill));
    }
    while v.len() < n
        invariant
            v@.len() >= old(v)@.len(),
            v@.len() <= n || v@.len() == old(v)@.len(),
            v@ == spec_pad(old(v)@, v@.len() as int, fill),
        decreases n - v@.len(),
    {
        let ghost prev = v@;
        v.push(fill);
        proof {
            assert(v@ =~= spec_pad(old(v)@, v@.len() as int, fill));
        }
    }
}

fn pad_readings(v: &mut Vec<(Vec<char>, u8)>, n: usize)
    ensures
        final(v).deep_view() == spec_pad(
            old(v).deep_view(),
            n as int,
            (Seq::<char>::empty(), 1u8),
        ),
        final(v)@.len() >= n,
        final(v)@.len() >= old(v)@.len(),
{
    proof {
        assert(v.deep_view() =~~= spec_pad(old(v).deep_view(), v@.len() as int, (Seq::<
            char,
        >::empty(), 1u8)));
    }
    while v.len() < n
        invariant
            v@.len() >= old(v)@.len(),
            v@.len() <= n || v@.len() == old(v)@.len(),
            v.deep_view() == spec_pad(old(v).deep_view(), v@.len() as int, (Seq::<
                char,
            >::empty(), 1u8)),
        decreases n - v@.len(),
    {
        let ghost prev = v.deep_view();
        v.push((Vec::new(), 1));
        proof {
            assert(v.deep_view() =~~= prev.push((Seq::<char>::empty(), 1u8)));
            assert(v.deep_view() =~~= spec_pad(old(v).deep_view(), v@.len() as int, (Seq::<
                char,
            >::empty(), 1u8)));
        }
    }
}

// ---------------------------------------------------------------------------
// Alternative-reading extraction
// ---------------------------------------------------------------------------

/// The parameter name `hira`.
pub open spec fn spec_hira_name() -> Seq<char> {
    seq!['h', 'i', 'r', 'a']
}

/// The readings contributed by the `hira=` parameters of an
/// alternative-reading template.
pub open spec fn spec_altread_fold(params: Seq<Seq<char>>) -> Seq<Seq<char>>
    decreases params.len(),
{
    if params.len() == 0 {
        Seq::empty()
    } else {
        let prev = spec_altread_fold(params.drop_last());
        match spec_split_eq(params.last()) {
            Some(nv) => if nv.0 == spec_hira_name() {
                prev.push(nv.1)
            } else {
                prev
            },
            Option::None => prev,
        }
    }
}

/// Extract the readings of an alternative-reading template: the values of
/// its `hira=` parameters, in order.
pub fn parse_ja_altread(arguments: &Vec<char>) -> (r: JaPos)
    ensures
        r.readings.deep_view() == spec_altread_fold(spec_params(arguments@)),
{
    let params = collect_params(arguments);
    let ghost pl = spec_params(arguments@);
    let m = params.len();
    let mut readings: Vec<Vec<char>> = Vec::new();
    let mut i: usize = 0;
    proof {
        assert(readings.deep_view() =~= spec_altread_fold(pl.take(0int)));
    }
    while i < m
        invariant
            m == params@.len(),
            pl == params.deep_view(),
            pl == spec_params(arguments@),
            0 <= i <= m,
            readings.deep_view() == spec_altread_fold(pl.take(i as int)),
        decreases m - i,
    {
        let p = &params[i];
        proof {
            assert(pl[i as int] == params@[i as int]@);
            assert(pl.take(i + 1).drop_last() == pl.take(i as int));
            assert(pl.take(i + 1).last() == pl[i as int]);
        }
        match split_eq(p) {
            Some((name, value)) => {
                if name.len() == 4 && name[0] == 'h' && name[1] == 'i' && name[2] == 'r'
                    && name[3] == 'a' {
                    proof {
                        assert(name@ =~= spec_hira_name());
                    }
                    let ghost prevdv = readings.deep_view();
                    readings.push(value);
                    proof {
                        assert(readings.deep_view() =~~= prevdv.push(
                            (spec_split_eq(pl[i as int])->0).1,
                        ));
                    }
                } else {
                    proof {
                        assert(name@ != spec_hira_name());
                    }
                }
            },
            None => {},
        }
        i += 1;
    }
    proof {
        assert(pl.take(m as int) == pl);
    }
    JaPos { readings }
}

// ---------------------------------------------------------------------------
// Part-of-speech extraction
// ---------------------------------------------------------------------------

/// The accumulator of a part-of-speech extraction: whether the leading
/// positional word has been consumed, and the readings gathered.
pub struct PosAcc {
    pub handled: bool,
    pub readings: Seq<Seq<char>>,
}

pub open spec fn spec_pos_step(acc: PosAcc, param: Seq<char>, is_generic: bool) -> Option<
    PosAcc,
> {
    match spec_split_eq(param) {
        Some(nv) => if spec_all_digits(nv.0) {
            if nv.0.len() > 0 && spec_digits_val(nv.0) <= 255 && spec_digits_val(nv.0)
                == acc.readings.len() + 1 {
                Some(PosAcc { handled: acc.handled, readings: acc.readings.push(nv.1) })
            } else {
                Option::None
            }
        } else {
            Some(acc)
        },
        Option::None => if is_generic && !acc.handled {
            Some(PosAcc { handled: true, readings: acc.readings })
        } else {
            Some(PosAcc { handled: acc.handled, readings: acc.readings.push(param) })
        },
    }
}

pub open spec fn spec_pos_fold(params: Seq<Seq<char>>, is_generic: bool) -> Option<PosAcc>
    decreases params.len(),
{
    if params.len() == 0 {
        Some(PosAcc { handled: false, readings: Seq::empty() })
    } else {
        match spec_pos_fold(params.drop_last(), is_generic) {
            Option::None => Option::None,
            Some(a) => spec_pos_step(a, params.last(), is_generic),
        }
    }
}

proof fn lemma_pos_fold_none(params: Seq<Seq<char>>, j: int, is_generic: bool)
    requires
        0 <= j <= params.len(),
        spec_pos_fold(params.take(j), is_generic) is None,
    ensures
        spec_pos_fold(params, is_generic) is None,
    decreases params.len(),
{
    if j < params.len() {
        assert(params.drop_last().take(j) == params.take(j));
        lemma_pos_fold_none(params.drop_last(), j, is_generic);
    } else {
        assert(params.take(j) == params);
    }
}

/// Extract the readings of a part-of-speech template: numbered parameters
/// must arrive in order; the first bare positional of a generic template is
/// the part-of-speech word itself and is skipped. Fails on a malformed
/// numbered parameter.
pub fn parse_ja_pos(is_generic: bool, arguments: &Vec<char>) -> (r: Option<JaPos>)
    ensures
        match spec_pos_fold(spec_params(arguments@), is_generic) {
            Some(acc) => r matches Some(p) && p.readings.deep_view() == acc.readings,
            Option::None => r is None,
        },
{
    let params = collect_params(arguments);
    let ghost pl = spec_params(arguments@);
    let m = params.len();
    let mut readings: Vec<Vec<char>> = Vec::new();
    let mut handled_pos: bool = false;
    let mut i: usize = 0;
    proof {
        assert(readings.deep_view() =~= Seq::<Seq<char>>::empty());
        assert(pl.take(0int) =~= Seq::<Seq<char>>::empty());
    }
    while i < m
        invariant
            m == params@.len(),
            pl == params.deep_view(),
            pl == spec_params(arguments@),
            0 <= i <= m,
            readings@.len() <= i,
            spec_pos_fold(pl.take(i as int), is_generic) == Some(
                PosAcc { handled: handled_pos, readings: readings.deep_view() },
            ),
        decreases m - i,
    {
        let p = &params[i];
        proof {
            assert(pl[i as int] == params@[i as int]@);
            assert(pl.take(i + 1).drop_last() == pl.take(i as int));
            assert(pl.take(i + 1).last() == pl[i as int]);
        }
        let ghost prevdv = readings.deep_view();
        match split_eq(p) {
            Some((name, value)) => {
                if all_digits(&name) {
                    let ok: bool = match parse_number(&name) {
                        Some(x) => (x as usize) == readings.len() + 1,
                        None => false,
                    };
                    if !ok {
                        proof {
                            lemma_pos_fold_none(pl, i + 1, is_generic);
                        }
                        return None;
                    }
                    readings.push(value);
                    proof {
                        assert(readings.deep_view() =~~= prevdv.push(
                            (spec_split_eq(pl[i as int])->0).1,
                        ));
                    }
                }
            },
            None => {
                if is_generic && !handled_pos {
                    handled_pos = true;
                } else {
                    let c = crate::wikitext::copy_range(p, 0, p.len());
                    proof {
                        assert(c@ =~= pl[i as int]);
                    }
                    readings.push(c);
                    proof {
                        assert(readings.deep_view() =~~= prevdv.push(pl[i as int]));
                    }
                }
            },
        }
        i += 1;
    }
    proof {
        assert(pl.take(m as int) == pl);
    }
    Some(JaPos { readings })
}

// ---------------------------------------------------------------------------
// Kanji-table extraction
// ---------------------------------------------------------------------------

/// The accumulator of a kanji-table extraction.
pub struct KanjitabAcc {
    pub readings: Seq<(Seq<char>, u8)>,
    pub alterations: Seq<Option<Seq<char>>>,
    pub omissions: Seq<Option<Seq<char>>>,
}

/// One reading cell parsed from a value: the text before the first digit,
/// and the digit suffix as the character span (default 1). Fails when the
/// suffix is not a plain number.
pub open spec fn spec_kanjitab_cell(value: Seq<char>) -> Option<(Seq<char>, u8)> {
    let cp = spec_cut_point(value, 0, CutPattern::Digit);
    let text = value.take(cp);
    let cnt = value.skip(cp);
    if cnt.len() == 0 {
        Some((text, 1u8))
    } else if spec_all_digits(cnt) && spec_digits_val(cnt) <= 255 {
        Some((text, spec_digits_val(cnt) as u8))
    } else {
        Option::None
    }
}

pub open spec fn spec_kanjitab_step(acc: KanjitabAcc, param: Seq<char>) -> Option<KanjitabAcc> {
    match spec_split_eq(param) {
        Some(nv) => match spec_kanjitab_parameter(nv.0) {
            JaKanjitabParameter::Unrecognized => Some(acc),
            JaKanjitabParameter::Invalid => Option::None,
            JaKanjitabParameter::Alter(nn) => if nn == 0 {
                Option::None
            } else {
                let idx = nn - 1;
                let padded = spec_pad(acc.alterations, idx + 1, Option::<Seq<char>>::None);
                if padded[idx] is Some {
                    Option::None
                } else {
                    Some(KanjitabAcc { alterations: padded.update(idx, Some(nv.1)), ..acc })
                }
            },
            JaKanjitabParameter::Omit(nn) => if nn == 0 {
                Option::None
            } else {
                let idx = nn - 1;
                let padded = spec_pad(acc.omissions, idx + 1, Option::<Seq<char>>::None);
                if padded[idx] is Some {
                    Option::None
                } else {
                    Some(KanjitabAcc { omissions: padded.update(idx, Some(nv.1)), ..acc })
                }
            },
            JaKanjitabParameter::Reading(nn) => if nn <= acc.readings.len() {
                Option::None
            } else {
                match spec_kanjitab_cell(nv.1) {
                    Option::None => Option::None,
                    Some(cell) => Some(
                        KanjitabAcc {
                            readings: spec_pad(
                                acc.readings,
                                nn - 1,
                                (Seq::<char>::empty(), 1u8),
                            ).push(cell),
                            ..acc
                        },
                    ),
                }
            },
        },
        Option::None => match spec_kanjitab_cell(param) {
            Option::None => Option::None,
            Some(cell) => Some(KanjitabAcc { readings: acc.readings.push(cell), ..acc }),
        },
    }
}

pub open spec fn spec_kanjitab_fold(params: Seq<Seq<char>>) -> Option<KanjitabAcc>
    decreases params.len(),
{
    if params.len() == 0 {
        Some(KanjitabAcc { readings: Seq::empty(), alterations: Seq::empty(), omissions: Seq::empty() })
    } else {
        match spec_kanjitab_fold(params.drop_last()) {
            Option::None => Option::None,
            Some(a) => spec_kanjitab_step(a, params.last()),
        }
    }
}

proof fn lemma_kanjitab_fold_none(params: Seq<Seq<char>>, j: int)
    requires
        0 <= j <= params.len(),
        spec_kanjitab_fold(params.take(j)) is None,
    ensures
        spec_kanjitab_fold(params) is None,
    decreases params.len(),
{
    if j < params.len() {
        assert(params.drop_last().take(j) == params.take(j));
        lemma_kanjitab_fold_none(params.drop_last(), j);
    } else {
        assert(params.take(j) == params);
    }
}

/// The kanji table of one invocation's raw argument text: `None` both when
/// the argument list is malformed (an out-of-order or repeated cell, a bad
/// number) and when it holds no cells at all.
pub open spec fn spec_parse_ja_kanjitab(s: Seq<char>) -> Option<KanjitabAcc> {
    match spec_kanjitab_fold(spec_params(s)) {
        Option::None => Option::None,
        Some(a) => if a.readings.len() == 0 && a.alterations.len() == 0 && a.omissions.len()
            == 0 {
            Option::None
        } else {
            Some(a)
        },
    }
}

/// Extract a kanji table from an invocation's raw argument text: positional
/// and numbered reading cells with their character spans, `k<N>=` override
/// readings and `o<N>=` omitted readings. Fails on malformed cells and on a
/// table with no cells at all.
pub fn parse_ja_kanjitab(arguments: &Vec<char>) -> (r: Option<JaKanjitab>)
    ensures
        match spec_parse_ja_kanjitab(arguments@) {
            Some(acc) => r matches Some(kt) && kt.readings.deep_view() == acc.readings
                && kt.alterations.deep_view() == acc.alterations && kt.omissions.deep_view()
                == acc.omissions,
            Option::None => r is None,
        },
{
    let params = collect_params(arguments);
    let ghost pl = spec_params(arguments@);
    let m = params.len();
    let mut readings: Vec<(Vec<char>, u8)> = Vec::new();
    let mut alterations: Vec<Option<Vec<char>>> = Vec::new();
    let mut omissions: Vec<Option<Vec<char>>> = Vec::new();
    let mut i: usize = 0;
    proof {
        assert(readings.deep_view() =~= Seq::<(Seq<char>, u8)>::empty());
        assert(alterations.deep_view() =~= Seq::<Option<Seq<char>>>::empty());
        assert(omissions.deep_view() =~= Seq::<Option<Seq<char>>>::empty());
        assert(pl.take(0int) =~= Seq::<Seq<char>>::empty());
    }
    while i < m
        invariant
            m == params@.len(),
            pl == params.deep_view(),
            pl == spec_params(arguments@),
            0 <= i <= m,
            spec_kanjitab_fold(pl.take(i as int)) == Some(
                KanjitabAcc {
                    readings: readings.deep_view(),
                    alterations: alterations.deep_view(),
                    omissions: omissions.deep_view(),
                },
            ),
        decreases m - i,
    {
        let p = &params[i];
        proof {
            assert(pl[i as int] == params@[i as int]@);
            assert(pl.take(i + 1).drop_last() == pl.take(i as int));
            assert(pl.take(i + 1).last() == pl[i as int]);
        }
        let ghost acc0 = KanjitabAcc {
            readings: readings.deep_view(),
            alterations: alterations.deep_view(),
            omissions: omissions.deep_view(),
        };
        match split_eq(p) {
            Some((name, value)) => {
                match parse_ja_kanjitab_parameter(&name) {
                    JaKanjitabParameter::Unrecognized => {},
                    JaKanjitabParameter::Invalid => {
                        proof {
                            lemma_kanjitab_fold_none(pl, i + 1);
                        }
                        return None;
                    },
                    JaKanjitabParameter::Alter(nn) => {
                        if nn == 0 {
                            proof {
                                lemma_kanjitab_fold_none(pl, i + 1);
                            }
                            return None;
                        }
                        let idx = (nn - 1) as usize;
                        pad_options(&mut alterations, idx + 1);
                        if alterations[idx].is_some() {
                            proof {
                                lemma_kanjitab_fold_none(pl, i + 1);
                            }
                            return None;
                        }
                        let ghost padded = alterations.deep_view();
                        vec_set(&mut alterations, idx, Some(value));
                        proof {
                            assert(alterations.deep_view() =~~= padded.update(
                                idx as int,
                                Some((spec_split_eq(pl[i as int])->0).1),
                            ));
                        }
                    },
                    JaKanjitabParameter::Omit(nn) => {
                        if nn == 0 {
                            proof {
                                lemma_kanjitab_fold_none(pl, i + 1);
                            }
                            return None;
                        }
                        let idx = (nn - 1) as usize;
                        pad_options(&mut omissions, idx + 1);
                        if omissions[idx].is_some() {
                            proof {
                                lemma_kanjitab_fold_none(pl, i + 1);
                            }
                            return None;
                        }
                        let ghost padded = omissions.deep_view();
                        vec_set(&mut omissions, idx, Some(value));
                        proof {
                            assert(omissions.deep_view() =~~= padded.update(
                                idx as int,
                                Some((spec_split_eq(pl[i as int])->0).1),
                            ));
                        }
                    },
                    JaKanjitabParameter::Reading(nn) => {
                        if (nn as usize) <= readings.len() {
                            proof {
                                lemma_kanjitab_fold_none(pl, i + 1);
                            }
                            return None;
                        }
                        pad_readings(&mut readings, (nn - 1) as usize);
                        let (rtext, cnt) = cut(&value, CutPattern::Digit);
                        let ghost padded = readings.deep_view();
                        if cnt.len() == 0 {
                            readings.push((rtext, 1));
                            proof {
                                assert(readings.deep_view() =~~= padded.push(
                                    spec_kanjitab_cell((spec_split_eq(pl[i as int])->0).1)->0,
                                ));
                            }
                        } else {
                            match parse_number(&cnt) {
                                Some(x) => {
                                    readings.push((rtext, x));
                                    proof {
                                        assert(readings.deep_view() =~~= padded.push(
                                            spec_kanjitab_cell(
                                                (spec_split_eq(pl[i as int])->0).1,
                                            )->0,
                                        ));
                                    }
                                },
                                None => {
                                    proof {
                                        lemma_kanjitab_fold_none(pl, i + 1);
                                    }
                                    return None;
                                },
                            }
                        }
                    },
                }
            },
            None => {
                let (rtext, cnt) = cut(p, CutPattern::Digit);
                let ghost prevdv = readings.deep_view();
                if cnt.len() == 0 {
                    readings.push((rtext, 1));
                    proof {
                        assert(readings.deep_view() =~~= prevdv.push(
                            spec_kanjitab_cell(pl[i as int])->0,
                        ));
                    }
                } else {
                    match parse_number(&cnt) {
                        Some(x) => {
                            readings.push((rtext, x));
                            proof {
                                assert(readings.deep_view() =~~= prevdv.push(
                                    spec_kanjitab_cell(pl[i as int])->0,
                                ));
                            }
                        },
                        None => {
                            proof {
                                lemma_kanjitab_fold_none(pl, i + 1);
                            }
                            return None;
                        },
                    }
                }
            },
        }
        i += 1;
    }
    proof {
        assert(pl.take(m as int) == pl);
    }
    if readings.len() == 0 && alterations.len() == 0 && omissions.len() == 0 {
        return None;
    }
    Some(JaKanjitab { readings, alterations, omissions })
}

// ---------------------------------------------------------------------------
// Pronunciation extraction
// ---------------------------------------------------------------------------

/// The accumulator of a pronunciation extraction.
pub struct PronAcc {
    pub readings: Seq<Seq<char>>,
    pub accents: Seq<JaPronAccent>,
    pub locations: Seq<bool>,
}

/// The accent code named by a cell value: `h` is position 0, `a` position
/// 1, `o` the always-final marker, the empty value no accent, and a plain
/// number an explicit position. Anything else is malformed.
pub open spec fn spec_accent_value(v: Seq<char>) -> Option<JaPronAccent> {
    if v == seq!['h'] {
        Some(JaPronAccent::Numeric(0))
    } else if v == seq!['a'] {
        Some(JaPronAccent::Numeric(1))
    } else if v == seq!['o'] {
        Some(JaPronAccent::Odaka)
    } else if v.len() == 0 {
        Some(JaPronAccent::Unmarked)
    } else if spec_all_digits(v) && spec_digits_val(v) <= 255 {
        Some(JaPronAccent::Numeric(spec_digits_val(v) as u8))
    } else {
        Option::None
    }
}

fn accent_value(v: &Vec<char>) -> (r: Option<JaPronAccent>)
    ensures
        r == spec_accent_value(v@),
{
    let n = v.len();
    if n == 1 && v[0] == 'h' {
        proof {
            assert(v@ =~= seq!['h']);
        }
        Some(JaPronAccent::Numeric(0))
    } else if n == 1 && v[0] == 'a' {
        proof {
            assert(v@ =~= seq!['a']);
        }
        Some(JaPronAccent::Numeric(1))
    } else if n == 1 && v[0] == 'o' {
        proof {
            assert(v@ =~= seq!['o']);
        }
        Some(JaPronAccent::Odaka)
    } else if n == 0 {
        Some(JaPronAccent::Unmarked)
    } else {
        proof {
            assert(v@ != seq!['h'] && v@ != seq!['a'] && v@ != seq!['o']);
        }
        match parse_number(v) {
            Some(x) => Some(JaPronAccent::Numeric(x)),
            None => None,
        }
    }
}

pub open spec fn spec_pron_step(acc: PronAcc, param: Seq<char>) -> Option<PronAcc> {
    match spec_split_eq(param) {
        Some(nv) => match spec_pron_parameter(nv.0) {
            JaPronParameter::Unrecognized => Some(acc),
            JaPronParameter::Invalid => Option::None,
            JaPronParameter::Reading(nn) => if nn == acc.readings.len() + 1 {
                Some(PronAcc { readings: acc.readings.push(nv.1), ..acc })
            } else {
                Option::None
            },
            JaPronParameter::Accent(nn) => if nn == 0 {
                Option::None
            } else {
                match spec_accent_value(nv.1) {
                    Option::None => Option::None,
                    Some(a) => Some(
                        PronAcc {
                            accents: spec_pad(acc.accents, nn as int, JaPronAccent::Unmarked)
                                .update(nn - 1, a),
                            ..acc
                        },
                    ),
                }
            },
            JaPronParameter::Location(nn) => if nn == 0 {
                Option::None
            } else {
                Some(
                    PronAcc {
                        locations: spec_pad(acc.locations, nn as int, false).update(
                            nn - 1,
                            true,
                        ),
                        ..acc
                    },
                )
            },
        },
        Option::None => Some(PronAcc { readings: acc.readings.push(param), ..acc }),
    }
}

pub open spec fn spec_pron_fold(params: Seq<Seq<char>>) -> Option<PronAcc>
    decreases params.len(),
{
    if params.len() == 0 {
        Some(PronAcc { readings: Seq::empty(), accents: Seq::empty(), locations: Seq::empty() })
    } else {
        match spec_pron_fold(params.drop_last()) {
            Option::None => Option::None,
            Some(a) => spec_pron_step(a, params.last()),
        }
    }
}

proof fn lemma_pron_fold_none(params: Seq<Seq<char>>, j: int)
    requires
        0 <= j <= params.len(),
        spec_pron_fold(params.take(j)) is None,
    ensures
        spec_pron_fold(params) is None,
    decreases params.len(),
{
    if j < params.len() {
        assert(params.drop_last().take(j) == params.take(j));
        lemma_pron_fold_none(params.drop_last(), j);
    } else {
        assert(params.take(j) == params);
    }
}

/// Extract a pronunciation record from an invocation's raw argument text:
/// positional and numbered readings, `acc<N>=`/`accent<N>=` accent codes,
/// and `..._loc` non-standard-dialect flags. Fails on malformed cells.
pub fn parse_ja_pron(arguments: &Vec<char>) -> (r: Option<JaPron>)
    ensures
        match spec_pron_fold(spec_params(arguments@)) {
            Some(acc) => r matches Some(jp) && jp.readings.deep_view() == acc.readings
                && jp.accents@ == acc.accents && jp.accent_locations@ == acc.locations,
            Option::None => r is None,
        },
{
    let params = collect_params(arguments);
    let ghost pl = spec_params(arguments@);
    let m = params.len();
    let mut readings: Vec<Vec<char>> = Vec::new();
    let mut accents: Vec<JaPronAccent> = Vec::new();
    let mut accent_locations: Vec<bool> = Vec::new();
    let mut i: usize = 0;
    proof {
        assert(readings.deep_view() =~= Seq::<Seq<char>>::empty());
        assert(pl.take(0int) =~= Seq::<Seq<char>>::empty());
    }
    while i < m
        invariant
            m == params@.len(),
            pl == params.deep_view(),
            pl == spec_params(arguments@),
            0 <= i <= m,
            readings@.len() <= i,
            spec_pron_fold(pl.take(i as int)) == Some(
                PronAcc {
                    readings: readings.deep_view(),
                    accents: accents@,
                    locations: accent_locations@,
                },
            ),
        decreases m - i,
    {
        let p = &params[i];
        proof {
            assert(pl[i as int] == params@[i as int]@);
            assert(pl.take(i + 1).drop_last() == pl.take(i as int));
            assert(pl.take(i + 1).last() == pl[i as int]);
        }
        let ghost prevdv = readings.deep_view();
        match split_eq(p) {
            Some((name, value)) => {
                match parse_ja_pron_parameter(&name) {
                    JaPronParameter::Unrecognized => {},
                    JaPronParameter::Invalid => {
                        proof {
                            lemma_pron_fold_none(pl, i + 1);
                        }
                        return None;
                    },
                    JaPronParameter::Reading(nn) => {
                        if (nn as usize) != readings.len() + 1 {
                            proof {
                                lemma_pron_fold_none(pl, i + 1);
                            }
                            return None;
                        }
                        readings.push(value);
                        proof {
                            assert(readings.deep_view() =~~= prevdv.push(
                                (spec_split_eq(pl[i as int])->0).1,
                            ));
                        }
                    },
                    JaPronParameter::Accent(nn) => {
                        if nn == 0 {
                            proof {
                                lemma_pron_fold_none(pl, i + 1);
                            }
                            return None;
                        }
                        match accent_value(&value) {
                            Some(a) => {
                                pad_copy(&mut accents, nn as usize, JaPronAccent::Unmarked);
                                vec_set(&mut accents, (nn - 1) as usize, a);
                            },
                            None => {
                                proof {
                                    lemma_pron_fold_none(pl, i + 1);
                                }
                                return None;
                            },
                        }
                    },
                    JaPronParameter::Location(nn) => {
                        if nn == 0 {
                            proof {
                                lemma_pron_fold_none(pl, i + 1);
                            }
                            return None;
                        }
                        pad_copy(&mut accent_locations, nn as usize, false);
                        vec_set(&mut accent_locations, (nn - 1) as usize, true);
                    },
                }
            },
            None => {
                let c = crate::wikitext::copy_range(p, 0, p.len());
                proof {
                    assert(c@ =~= pl[i as int]);
                }
                readings.push(c);
                proof {
                    assert(readings.deep_view() =~~= prevdv.push(pl[i as int]));
                }
            },
        }
        i += 1;
    }
    proof {
        assert(pl.take(m as int) == pl);
    }
    Some(JaPron { readings, accents, accent_locations })
}

} // verus!
