//! Decomposition and accent inference: reconstructing, for a title string,
//! which spans of characters correspond to which phonetic reading, and
//! resolving pitch-accent positions from pronunciation records.

use vstd::prelude::*;

use crate::ja::{
    IgnoreClass, KeepClass, compute_duration, expand_katakana, is_ideograph, is_kana_start,
    spec_cluster_end, spec_expand, spec_is_ideograph, spec_is_kana_start, spec_katakanify,
    try_consume_kana, try_katakanify,
};
pub use crate::ja::{pos_reading_ignore, reading_ignore, spec_pos_reading_ignore, spec_reading_ignore};
use crate::parse::{JaKanjitab, JaPos, JaPron, JaPronAccent};
use crate::wikitext::{remove_links, spec_remove_links, copy_range, try_consume};

verus! {

// ---------------------------------------------------------------------------
// Atoms
// ---------------------------------------------------------------------------

/// A segment of a reading: a span of ideographs with its katakana reading, a
/// single character of ambiguous phonetic value, or a literal kana cluster.
pub enum Atom {
    Ruby { character_count: u8, reading: Vec<char> },
    Unknown(char),
    Kana(Vec<char>),
}

/// The mathematical shape of an [`Atom`].
pub enum AtomModel {
    Ruby { character_count: int, reading: Seq<char> },
    Unknown(char),
    Kana(Seq<char>),
}

impl View for Atom {
    type V = AtomModel;

    open spec fn view(&self) -> AtomModel {
        match self {
            Atom::Ruby { character_count, reading } => AtomModel::Ruby {
                character_count: *character_count as int,
                reading: reading@,
            },
            Atom::Unknown(c) => AtomModel::Unknown(*c),
            Atom::Kana(k) => AtomModel::Kana(k@),
        }
    }
}

impl DeepView for Atom {
    type V = AtomModel;

    open spec fn deep_view(&self) -> AtomModel {
        self.view()
    }
}

/// The phonetic contribution of one atom.
pub open spec fn spec_atom_reading(a: AtomModel) -> Seq<char> {
    match a {
        AtomModel::Ruby { reading, .. } => reading,
        AtomModel::Unknown(c) => seq![c],
        AtomModel::Kana(k) => k,
    }
}

/// The reading of an atom sequence: each atom's contribution, in order.
pub open spec fn spec_atoms_reading(atoms: Seq<AtomModel>) -> Seq<char>
    decreases atoms.len(),
{
    if atoms.len() == 0 {
        Seq::empty()
    } else {
        spec_atom_reading(atoms.first()) + spec_atoms_reading(atoms.drop_first())
    }
}

/// An ordered sequence of atoms whose concatenated readings form a complete
/// reading of a title.
pub struct DecompositionInfo {
    pub atoms: Vec<Atom>,
}

impl DecompositionInfo {
    /// The complete reading: every atom's phonetic contribution concatenated
    /// in order.
    pub fn reading(&self) -> (r: Vec<char>)
        ensures
            r@ == spec_atoms_reading(self.atoms.deep_view()),
    {
        let n = self.atoms.len();
        let mut out: Vec<char> = Vec::new();
        let mut i: usize = 0;
        proof {
            assert(self.atoms.deep_view().skip(0int) =~= self.atoms.deep_view());
        }
        while i < n
            invariant
                n == self.atoms@.len(),
                0 <= i <= n,
                self.atoms.deep_view().len() == n,
                spec_atoms_reading(self.atoms.deep_view()) == out@ + spec_atoms_reading(
                    self.atoms.deep_view().skip(i as int),
                ),
            decreases n - i,
        {
            proof {
                let dv = self.atoms.deep_view();
                assert(dv.skip(i as int).first() == dv[i as int]);
                assert(dv.skip(i as int).drop_first() =~= dv.skip(i + 1));
            }
            match &self.atoms[i] {
                Atom::Ruby { reading, .. } => {
                    let mut piece = copy_range(reading, 0, reading.len());
                    proof {
                        assert(piece@ =~= spec_atom_reading(self.atoms.deep_view()[i as int]));
                    }
                    out.append(&mut piece);
                },
                Atom::Unknown(c) => {
                    out.push(*c);
                },
                Atom::Kana(k) => {
                    let mut piece = copy_range(k, 0, k.len());
                    proof {
                        assert(piece@ =~= spec_atom_reading(self.atoms.deep_view()[i as int]));
                    }
                    out.append(&mut piece);
                },
            }
            i += 1;
        }
        proof {
            assert(spec_atoms_reading(self.atoms.deep_view().skip(n as int)) == Seq::<
                char,
            >::empty());
        }
        out
    }
}

/// Why a decomposition could not be produced: the kanji table ran short of
/// the title's ideographs, held no readings at all, matched no candidate
/// reading, used characters outside the supported normalization, or
/// contradicted itself (a span not made of ideographs, a span sum that does
/// not cover the title, a leftover non-empty cell).
#[derive(Clone, Copy, PartialEq, Eq, Structural, Debug)]
pub enum DecompositionError {
    Incomplete,
    Empty,
    Mismatch,
    Unconsidered,
    Inconsistent,
}

// ---------------------------------------------------------------------------
// Alignment
// ---------------------------------------------------------------------------

/// The genitive marker whose phonetic value is ambiguous.
pub open spec fn spec_gen_marker() -> char {
    '\u{30F6}'
}

/// `rem` with the prefix `pre` removed, when `pre` is a prefix of it.
pub open spec fn spec_strip_prefix(rem: Seq<char>, pre: Seq<char>) -> Option<Seq<char>> {
    if pre.len() <= rem.len() && rem.take(pre.len() as int) == pre {
        Some(rem.skip(pre.len() as int))
    } else {
        Option::None
    }
}

/// Alignment of `rem` against the atoms from index `i` on: each Ruby and
/// Kana atom must match a literal prefix (a Kana atom of `ヅ` may instead
/// match `ズ`), the genitive marker a prefix of `カ` or `ガ`; the whole of
/// `rem` must be consumed. Returns the recorded substitutions.
pub open spec fn spec_align_one(atoms: Seq<AtomModel>, i: int, rem: Seq<char>) -> Option<
    Seq<(int, Seq<char>)>,
>
    decreases atoms.len() - i,
{
    if i < 0 || i >= atoms.len() {
        if rem.len() == 0 {
            Some(Seq::empty())
        } else {
            Option::None
        }
    } else {
        match atoms[i] {
            AtomModel::Ruby { reading, .. } => match spec_strip_prefix(rem, reading) {
                Some(rest) => spec_align_one(atoms, i + 1, rest),
                Option::None => Option::None,
            },
            AtomModel::Unknown(c) => if c == spec_gen_marker() {
                if rem.len() >= 1 && rem[0] == '\u{30AB}' {
                    match spec_align_one(atoms, i + 1, rem.skip(1)) {
                        Some(t) => Some(seq![(i, seq!['\u{30AB}'])] + t),
                        Option::None => Option::None,
                    }
                } else if rem.len() >= 1 && rem[0] == '\u{30AC}' {
                    match spec_align_one(atoms, i + 1, rem.skip(1)) {
                        Some(t) => Some(seq![(i, seq!['\u{30AC}'])] + t),
                        Option::None => Option::None,
                    }
                } else {
                    Option::None
                }
            } else {
                Option::None
            },
            AtomModel::Kana(k) => match spec_strip_prefix(rem, k) {
                Some(rest) => spec_align_one(atoms, i + 1, rest),
                Option::None => if k == seq!['\u{30C5}'] && rem.len() >= 1 && rem[0]
                    == '\u{30BA}' {
                    match spec_align_one(atoms, i + 1, rem.skip(1)) {
                        Some(t) => Some(seq![(i, seq!['\u{30BA}'])] + t),
                        Option::None => Option::None,
                    }
                } else {
                    Option::None
                },
            },
        }
    }
}

/// Alignment against a candidate set, tried in order: the first candidate
/// fully consumed by the atom sequence wins.
pub open spec fn spec_align(atoms: Seq<AtomModel>, cands: Seq<Seq<char>>, k: int) -> Option<
    Seq<(int, Seq<char>)>,
>
    decreases cands.len() - k,
{
    if k < 0 || k >= cands.len() {
        Option::None
    } else {
        match spec_align_one(atoms, 0, cands[k]) {
            Some(reps) => Some(reps),
            Option::None => spec_align(atoms, cands, k + 1),
        }
    }
}

/// The atoms with the recorded substitutions applied: each substituted
/// position becomes a single-character Ruby atom of span one.
pub open spec fn spec_apply(atoms: Seq<AtomModel>, reps: Seq<(int, Seq<char>)>) -> Seq<
    AtomModel,
>
    decreases reps.len(),
{
    if reps.len() == 0 {
        atoms
    } else if 0 <= reps.first().0 < atoms.len() {
        spec_apply(
            atoms.update(
                reps.first().0,
                AtomModel::Ruby { character_count: 1, reading: reps.first().1 },
            ),
            reps.drop_first(),
        )
    } else {
        spec_apply(atoms, reps.drop_first())
    }
}

/// Applying substitutions keeps the length and leaves untouched positions
/// unchanged.
proof fn lemma_apply_untouched(atoms: Seq<AtomModel>, reps: Seq<(int, Seq<char>)>, q: int)
    requires
        forall|j: int| 0 <= j < reps.len() ==> (#[trigger] reps[j].0) != q,
        0 <= q < atoms.len(),
    ensures
        spec_apply(atoms, reps).len() == atoms.len(),
        spec_apply(atoms, reps)[q] == atoms[q],
    decreases reps.len(),
{
    lemma_apply_len(atoms, reps);
    if reps.len() > 0 {
        assert(forall|j: int|
            0 <= j < reps.drop_first().len() ==> (#[trigger] reps.drop_first()[j].0) == reps[
                j + 1
            ].0);
        assert(reps[0].0 != q);
        if 0 <= reps.first().0 < atoms.len() {
            let atoms2 = atoms.update(
                reps.first().0,
                AtomModel::Ruby { character_count: 1, reading: reps.first().1 },
            );
            lemma_apply_untouched(atoms2, reps.drop_first(), q);
        } else {
            lemma_apply_untouched(atoms, reps.drop_first(), q);
        }
    }
}

proof fn lemma_apply_len(atoms: Seq<AtomModel>, reps: Seq<(int, Seq<char>)>)
    ensures
        spec_apply(atoms, reps).len() == atoms.len(),
    decreases reps.len(),
{
    if reps.len() > 0 {
        if 0 <= reps.first().0 < atoms.len() {
            lemma_apply_len(
                atoms.update(
                    reps.first().0,
                    AtomModel::Ruby { character_count: 1, reading: reps.first().1 },
                ),
                reps.drop_first(),
            );
        } else {
            lemma_apply_len(atoms, reps.drop_first());
        }
    }
}

/// Alignment reads only the atoms from `i` on.
proof fn lemma_align_one_frame(
    atoms: Seq<AtomModel>,
    atoms2: Seq<AtomModel>,
    i: int,
    rem: Seq<char>,
)
    requires
        atoms.len() == atoms2.len(),
        forall|q: int| i <= q < atoms.len() ==> atoms[q] == atoms2[q],
    ensures
        spec_align_one(atoms, i, rem) == spec_align_one(atoms2, i, rem),
    decreases atoms.len() - i,
{
    if 0 <= i < atoms.len() {
        assert(atoms[i] == atoms2[i]);
        match atoms[i] {
            AtomModel::Ruby { reading, .. } => {
                match spec_strip_prefix(rem, reading) {
                    Some(rest) => lemma_align_one_frame(atoms, atoms2, i + 1, rest),
                    Option::None => {},
                }
            },
            AtomModel::Unknown(c) => {
                if c == spec_gen_marker() && rem.len() >= 1 {
                    lemma_align_one_frame(atoms, atoms2, i + 1, rem.skip(1));
                }
            },
            AtomModel::Kana(k) => {
                match spec_strip_prefix(rem, k) {
                    Some(rest) => lemma_align_one_frame(atoms, atoms2, i + 1, rest),
                    Option::None => {
                        if rem.len() >= 1 {
                            lemma_align_one_frame(atoms, atoms2, i + 1, rem.skip(1));
                        }
                    },
                }
            },
        }
    }
}

/// The substitutions a successful alignment records lie at increasing
/// positions from `i` on, and applying them yields atoms whose reading from
/// `i` on is exactly the aligned string.
proof fn lemma_align_apply(
    atoms: Seq<AtomModel>,
    i: int,
    rem: Seq<char>,
    reps: Seq<(int, Seq<char>)>,
)
    requires
        0 <= i <= atoms.len(),
        spec_align_one(atoms, i, rem) == Some(reps),
    ensures
        forall|j: int| 0 <= j < reps.len() ==> i <= (#[trigger] reps[j].0) < atoms.len(),
        spec_apply(atoms, reps).len() == atoms.len(),
        spec_atoms_reading(spec_apply(atoms, reps).skip(i)) == rem,
    decreases atoms.len() - i,
{
    lemma_apply_len(atoms, reps);
    if i >= atoms.len() {
        assert(reps =~= Seq::<(int, Seq<char>)>::empty());
        assert(spec_apply(atoms, reps) == atoms);
        assert(spec_apply(atoms, reps).skip(i) =~= Seq::<AtomModel>::empty());
        assert(rem =~= Seq::<char>::empty());
    } else {
        let applied = spec_apply(atoms, reps);
        match atoms[i] {
            AtomModel::Ruby { reading, .. } => {
                let rest = spec_strip_prefix(rem, reading)->0;
                lemma_align_apply(atoms, i + 1, rest, reps);
                lemma_apply_untouched(atoms, reps, i);
                assert(applied.skip(i).first() == applied[i]);
                assert(applied.skip(i).drop_first() =~= applied.skip(i + 1));
                assert(rem =~= reading + rest);
            },
            AtomModel::Unknown(c) => {
                let sub = seq![rem[0]];
                let reps2 = reps.drop_first();
                assert(spec_align_one(atoms, i + 1, rem.skip(1)) == Some(reps2));
                let atoms2 = atoms.update(
                    i,
                    AtomModel::Ruby { character_count: 1, reading: sub },
                );
                lemma_align_one_frame(atoms, atoms2, i + 1, rem.skip(1));
                lemma_align_apply(atoms2, i + 1, rem.skip(1), reps2);
                assert(applied == spec_apply(atoms2, reps2));
                lemma_apply_untouched(atoms2, reps2, i);
                assert(applied.skip(i).first() == applied[i]);
                assert(applied.skip(i).drop_first() =~= applied.skip(i + 1));
                assert(rem =~= sub + rem.skip(1));
            },
            AtomModel::Kana(k) => {
                match spec_strip_prefix(rem, k) {
                    Some(rest) => {
                        lemma_align_apply(atoms, i + 1, rest, reps);
                        lemma_apply_untouched(atoms, reps, i);
                        assert(applied.skip(i).first() == applied[i]);
                        assert(applied.skip(i).drop_first() =~= applied.skip(i + 1));
                        assert(rem =~= k + rest);
                    },
                    Option::None => {
                        let sub = seq!['\u{30BA}'];
                        let reps2 = reps.drop_first();
                        assert(spec_align_one(atoms, i + 1, rem.skip(1)) == Some(reps2));
                        let atoms2 = atoms.update(
                            i,
                            AtomModel::Ruby { character_count: 1, reading: sub },
                        );
                        lemma_align_one_frame(atoms, atoms2, i + 1, rem.skip(1));
                        lemma_align_apply(atoms2, i + 1, rem.skip(1), reps2);
                        assert(applied == spec_apply(atoms2, reps2));
                        lemma_apply_untouched(atoms2, reps2, i);
                        assert(applied.skip(i).first() == applied[i]);
                        assert(applied.skip(i).drop_first() =~= applied.skip(i + 1));
                        assert(rem =~= sub + rem.skip(1));
                    },
                }
            },
        }
    }
}

/// A successful alignment of a candidate set succeeds on some member of it.
proof fn lemma_align_exists(atoms: Seq<AtomModel>, cands: Seq<Seq<char>>, k: int)
    requires
        spec_align(atoms, cands, k) is Some,
    ensures
        exists|w: int|
            k <= w < cands.len() && spec_align_one(atoms, 0, #[trigger] cands[w]) == spec_align(
                atoms,
                cands,
                k,
            ),
    decreases cands.len() - k,
{
    if !(k < 0 || k >= cands.len()) {
        if spec_align_one(atoms, 0, cands[k]) is Some {
        } else {
            lemma_align_exists(atoms, cands, k + 1);
        }
    }
}

/// Law: a decomposition whose substitutions come from a successful alignment
/// reads back, after the substitutions are applied, as one of the candidate
/// readings it was aligned against.
pub proof fn lemma_decomposition_round_trip(
    atoms: Seq<AtomModel>,
    cands: Seq<Seq<char>>,
    reps: Seq<(int, Seq<char>)>,
)
    requires
        spec_align(atoms, cands, 0) == Some(reps),
    ensures
        exists|w: int|
            0 <= w < cands.len() && spec_atoms_reading(spec_apply(atoms, reps)) == #[trigger] cands[w],
{
    lemma_align_exists(atoms, cands, 0);
    let w = choose|w: int|
        0 <= w < cands.len() && spec_align_one(atoms, 0, #[trigger] cands[w]) == spec_align(
            atoms,
            cands,
            0,
        );
    lemma_align_apply(atoms, 0, cands[w], reps);
    assert(spec_apply(atoms, reps).skip(0int) =~= spec_apply(atoms, reps));
}

/// The mathematical shape of recorded substitutions.
pub open spec fn spec_reps_view(s: Seq<(usize, Vec<char>)>) -> Seq<(int, Seq<char>)> {
    Seq::new(s.len(), |j: int| (s[j].0 as int, s[j].1@))
}

/// Align one candidate reading against the whole atom sequence.
fn align_one(atoms: &Vec<Atom>, reading: &Vec<char>) -> (r: Option<Vec<(usize, Vec<char>)>>)
    ensures
        match spec_align_one(atoms.deep_view(), 0, reading@) {
            Some(reps) => r matches Some(v) && spec_reps_view(v@) == reps,
            Option::None => r is None,
        },
{
    let n = reading.len();
    let m = atoms.len();
    let mut pos: usize = 0;
    let mut i: usize = 0;
    let mut out: Vec<(usize, Vec<char>)> = Vec::new();
    proof {
        assert(reading@.skip(0int) =~= reading@);
        assert(spec_reps_view(out@) =~= Seq::<(int, Seq<char>)>::empty());
    }
    while i < m
        invariant
            n == reading@.len(),
            m == atoms@.len(),
            atoms.deep_view().len() == m,
            0 <= pos <= n,
            0 <= i <= m,
            ({
                let adv = atoms.deep_view();
                spec_align_one(adv, 0, reading@) == match spec_align_one(
                    adv,
                    i as int,
                    reading@.skip(pos as int),
                ) {
                    Some(t) => Some(spec_reps_view(out@) + t),
                    Option::None => Option::<Seq<(int, Seq<char>)>>::None,
                }
            }),
        decreases m - i,
    {
        let ghost adv = atoms.deep_view();
        let ghost rem = reading@.skip(pos as int);
        proof {
            assert(adv[i as int] == atoms@[i as int]@);
        }
        match &atoms[i] {
            Atom::Ruby { reading: rr, .. } => {
                if try_consume(reading, pos, rr) {
                    proof {
                        assert(rem.take(rr@.len() as int) =~= reading@.subrange(
                            pos as int,
                            pos + rr@.len(),
                        ));
                        assert(rem.skip(rr@.len() as int) =~= reading@.skip(pos + rr@.len()));
                    }
                    pos = pos + rr.len();
                } else {
                    proof {
                        if rr@.len() <= rem.len() && rem.take(rr@.len() as int) == rr@ {
                            assert(rem.take(rr@.len() as int) =~= reading@.subrange(
                                pos as int,
                                pos + rr@.len(),
                            ));
                            assert(false);
                        }
                    }
                    return None;
                }
            },
            Atom::Unknown(c) => {
                if *c == '\u{30F6}' && pos < n && (reading[pos] == '\u{30AB}' || reading[pos]
                    == '\u{30AC}') {
                    let ka = reading[pos];
                    let mut sub: Vec<char> = Vec::new();
                    sub.push(ka);
                    let ghost oldout = out@;
                    out.push((i, sub));
                    proof {
                        assert(rem[0] == reading@[pos as int]);
                        assert(rem.skip(1) =~= reading@.skip(pos + 1));
                        assert(spec_reps_view(out@) =~= spec_reps_view(oldout).push(
                            (i as int, seq![ka]),
                        ));
                        let t2 = spec_align_one(adv, i + 1, reading@.skip(pos + 1));
                        if t2 is Some {
                            assert(spec_reps_view(oldout) + (seq![(i as int, seq![ka])] + t2->0)
                                =~= spec_reps_view(out@) + t2->0);
                        }
                    }
                    pos = pos + 1;
                } else {
                    return None;
                }
            },
            Atom::Kana(k) => {
                if try_consume(reading, pos, k) {
                    proof {
                        assert(rem.take(k@.len() as int) =~= reading@.subrange(
                            pos as int,
                            pos + k@.len(),
                        ));
                        assert(rem.skip(k@.len() as int) =~= reading@.skip(pos + k@.len()));
                    }
                    pos = pos + k.len();
                } else if k.len() == 1 && k[0] == '\u{30C5}' && pos < n && reading[pos]
                    == '\u{30BA}' {
                    let mut sub: Vec<char> = Vec::new();
                    sub.push('\u{30BA}');
                    let ghost oldout = out@;
                    out.push((i, sub));
                    proof {
                        assert(k@ =~= seq!['\u{30C5}']);
                        if k@.len() <= rem.len() && rem.take(k@.len() as int) == k@ {
                            assert(rem.take(k@.len() as int) =~= reading@.subrange(
                                pos as int,
                                pos + k@.len(),
                            ));
                            assert(false);
                        }
                        assert(rem[0] == reading@[pos as int]);
                        assert(rem.skip(1) =~= reading@.skip(pos + 1));
                        assert(spec_reps_view(out@) =~= spec_reps_view(oldout).push(
                            (i as int, seq!['\u{30BA}']),
                        ));
                        let t2 = spec_align_one(adv, i + 1, reading@.skip(pos + 1));
                        if t2 is Some {
                            assert(spec_reps_view(oldout) + (seq![(i as int, seq!['\u{30BA}'])]
                                + t2->0) =~= spec_reps_view(out@) + t2->0);
                        }
                    }
                    pos = pos + 1;
                } else {
                    proof {
                        if k@.len() <= rem.len() && rem.take(k@.len() as int) == k@ {
                            assert(rem.take(k@.len() as int) =~= reading@.subrange(
                                pos as int,
                                pos + k@.len(),
                            ));
                            assert(false);
                        }
                        if k@ == seq!['\u{30C5}'] {
                            assert(k@.len() == 1);
                        }
                    }
                    return None;
                }
            },
        }
        i += 1;
    }
    if pos == n {
        proof {
            assert(reading@.skip(pos as int).len() == 0);
            assert(spec_reps_view(out@) + Seq::<(int, Seq<char>)>::empty() =~= spec_reps_view(
                out@,
            ));
        }
        Some(out)
    } else {
        proof {
            assert(reading@.skip(pos as int).len() != 0);
        }
        None
    }
}

/// Align the atom sequence against a candidate reading set, trying the
/// candidates in order; the first fully consumed candidate wins and its
/// substitutions are returned.
pub fn align(candidate: &Vec<Atom>, readings: &Vec<Vec<char>>) -> (r: Option<
    Vec<(usize, Vec<char>)>,
>)
    ensures
        match spec_align(candidate.deep_view(), readings.deep_view(), 0) {
            Some(reps) => r matches Some(v) && spec_reps_view(v@) == reps,
            Option::None => r is None,
        },
{
    let nr = readings.len();
    let mut k: usize = 0;
    while k < nr
        invariant
            nr == readings@.len(),
            readings.deep_view().len() == nr,
            0 <= k <= nr,
            spec_align(candidate.deep_view(), readings.deep_view(), 0) == spec_align(
                candidate.deep_view(),
                readings.deep_view(),
                k as int,
            ),
        decreases nr - k,
    {
        proof {
            assert(readings.deep_view()[k as int] == readings@[k as int]@);
        }
        match align_one(candidate, &readings[k]) {
            Some(v) => {
                return Some(v);
            },
            None => {},
        }
        k += 1;
    }
    None
}

// ---------------------------------------------------------------------------
// Decomposition
// ---------------------------------------------------------------------------

/// The number of ideographs in a string.
pub open spec fn spec_ideo_count(s: Seq<char>) -> int
    decreases s.len(),
{
    if s.len() == 0 {
        0
    } else {
        spec_ideo_count(s.drop_last()) + if spec_is_ideograph(s.last()) {
            1int
        } else {
            0int
        }
    }
}

/// The sum of the spans of the Ruby atoms.
pub open spec fn spec_ruby_span_sum(atoms: Seq<AtomModel>) -> int
    decreases atoms.len(),
{
    if atoms.len() == 0 {
        0
    } else {
        spec_ruby_span_sum(atoms.drop_last()) + match atoms.last() {
            AtomModel::Ruby { character_count, .. } => character_count,
            _ => 0,
        }
    }
}

/// The walk over the normalized title from position `i` with the next
/// unconsumed kanji-table cell `cursor`: each ideograph consumes a cell
/// (preferring its override reading, reading `ー` or `-` as intentionally
/// empty, and emitting a zero-span atom for an omitted reading), skips the
/// cell's span, and must find ideographs under the whole span; the genitive
/// marker becomes an Unknown atom; a kana cluster becomes a Kana atom; any
/// other character is outside the supported scope.
pub open spec fn spec_walk(
    kt: Seq<char>,
    i: int,
    tabr: Seq<(Seq<char>, u8)>,
    alts: Seq<Option<Seq<char>>>,
    omis: Seq<Option<Seq<char>>>,
    cursor: int,
) -> Result<(Seq<AtomModel>, int), DecompositionError>
    decreases kt.len() - i,
{
    if i < 0 || i >= kt.len() {
        Ok((Seq::empty(), cursor))
    } else {
        let c = kt[i];
        if spec_is_ideograph(c) {
            if cursor < 0 || cursor >= tabr.len() {
                Err(DecompositionError::Incomplete)
            } else {
                let cell = tabr[cursor];
                let chosen = if 0 <= cursor < alts.len() && alts[cursor] is Some {
                    alts[cursor]->0
                } else {
                    cell.0
                };
                let rd: Result<Seq<char>, DecompositionError> = if chosen == seq!['\u{30FC}']
                    || chosen == seq!['-'] {
                    Ok(Seq::empty())
                } else {
                    match spec_katakanify(chosen, IgnoreClass::Spaces, KeepClass::Nothing) {
                        Some(t) => Ok(t),
                        Option::None => Err(DecompositionError::Unconsidered),
                    }
                };
                match rd {
                    Err(e) => Err(e),
                    Ok(rdv) => {
                        let oms: Result<Seq<AtomModel>, DecompositionError> = if 0 <= cursor
                            < omis.len() && omis[cursor] is Some {
                            match spec_katakanify(
                                omis[cursor]->0,
                                IgnoreClass::Nothing,
                                KeepClass::Nothing,
                            ) {
                                Some(o2) => Ok(
                                    seq![AtomModel::Ruby { character_count: 0, reading: o2 }],
                                ),
                                Option::None => Err(DecompositionError::Unconsidered),
                            }
                        } else {
                            Ok(Seq::empty())
                        };
                        match oms {
                            Err(e) => Err(e),
                            Ok(omatoms) => {
                                let adv = if cell.1 == 0 {
                                    1int
                                } else {
                                    cell.1 as int
                                };
                                if i + adv <= kt.len() && (forall|q: int|
                                    i < q < i + adv ==> spec_is_ideograph(#[trigger] kt[q])) {
                                    match spec_walk(kt, i + adv, tabr, alts, omis, cursor + 1) {
                                        Err(e) => Err(e),
                                        Ok(rest) => Ok(
                                            (
                                                seq![
                                                    AtomModel::Ruby {
                                                        character_count: cell.1 as int,
                                                        reading: rdv,
                                                    },
                                                ] + omatoms + rest.0,
                                                rest.1,
                                            ),
                                        ),
                                    }
                                } else {
                                    Err(DecompositionError::Inconsistent)
                                }
                            },
                        }
                    },
                }
            }
        } else if c == spec_gen_marker() {
            match spec_walk(kt, i + 1, tabr, alts, omis, cursor) {
                Err(e) => Err(e),
                Ok(rest) => Ok((seq![AtomModel::Unknown(spec_gen_marker())] + rest.0, rest.1)),
            }
        } else if spec_is_kana_start(c) {
            let e = spec_cluster_end(kt, i + 1);
            if i < e <= kt.len() {
                match spec_walk(kt, e, tabr, alts, omis, cursor) {
                    Err(er) => Err(er),
                    Ok(rest) => Ok((seq![AtomModel::Kana(kt.subrange(i, e))] + rest.0, rest.1)),
                }
            } else {
                Err(DecompositionError::Inconsistent)
            }
        } else {
            Err(DecompositionError::Unconsidered)
        }
    }
}

/// The full decomposition of a title against a kanji table and a candidate
/// reading set: normalization, the walk, the internal consistency checks
/// (Ruby spans cover exactly the title's ideographs; leftover cells are
/// empty), alignment, and the recorded substitutions applied.
pub open spec fn spec_infer_decompositions(
    title: Seq<char>,
    tabr: Seq<(Seq<char>, u8)>,
    alts: Seq<Option<Seq<char>>>,
    omis: Seq<Option<Seq<char>>>,
    cands: Seq<Seq<char>>,
) -> Result<Seq<AtomModel>, DecompositionError> {
    if tabr.len() == 0 {
        Err(DecompositionError::Empty)
    } else if !(tabr.len() >= alts.len() && tabr.len() >= omis.len()) {
        Err(DecompositionError::Inconsistent)
    } else {
        match spec_katakanify(title, IgnoreClass::TitleJoiners, KeepClass::Ideographs) {
            Option::None => Err(DecompositionError::Unconsidered),
            Some(kt) => match spec_walk(kt, 0, tabr, alts, omis, 0) {
                Err(e) => Err(e),
                Ok(walked) => if spec_ruby_span_sum(walked.0) != spec_ideo_count(title) {
                    Err(DecompositionError::Inconsistent)
                } else if !(forall|j: int|
                    walked.1 <= j < tabr.len() ==> (#[trigger] tabr[j].0).len() == 0) {
                    Err(DecompositionError::Inconsistent)
                } else {
                    match spec_align(walked.0, cands, 0) {
                        Option::None => Err(DecompositionError::Mismatch),
                        Some(reps) => Ok(spec_apply(walked.0, reps)),
                    }
                },
            },
        }
    }
}


/// Whether the `adv` characters starting at `i` stay inside the text and
/// all positions after the first hold ideographs.
fn span_all_ideographs(kt: &Vec<char>, i: usize, adv: usize) -> (r: bool)
    requires
        i < kt@.len(),
        1 <= adv,
    ensures
        r == (i + adv <= kt@.len() && (forall|t: int|
            i < t < i + adv ==> spec_is_ideograph(#[trigger] kt@[t]))),
{
    let ktn = kt.len();
    if adv > ktn - i {
        return false;
    }
    let mut q: usize = 1;
    while q < adv
        invariant
            1 <= q <= adv,
            i + adv <= ktn,
            ktn == kt@.len(),
            forall|t: int| i < t < i + q ==> spec_is_ideograph(#[trigger] kt@[t]),
        decreases adv - q,
    {
        if !is_ideograph(kt[i + q]) {
            proof {
                assert(!spec_is_ideograph(kt@[i + q]));
            }
            return false;
        }
        q += 1;
    }
    true
}

/// Decompose a title character by character against its kanji table,
/// aligning the result with a set of candidate readings. On success the
/// returned atoms read back, in order, as one of the candidates.
pub fn infer_decompositions(
    title: &Vec<char>,
    ja_kanjitab: JaKanjitab,
    readings: &Vec<Vec<char>>,
) -> (r: Result<DecompositionInfo, DecompositionError>)
    ensures
        match spec_infer_decompositions(
            title@,
            ja_kanjitab.readings.deep_view(),
            ja_kanjitab.alterations.deep_view(),
            ja_kanjitab.omissions.deep_view(),
            readings.deep_view(),
        ) {
            Ok(ams) => r matches Ok(d) && d.atoms.deep_view() == ams,
            Err(e) => r matches Err(e2) && e2 == e,
        },
        r matches Ok(d) ==> exists|w: int|
            0 <= w < readings.deep_view().len() && spec_atoms_reading(d.atoms.deep_view())
                == #[trigger] readings.deep_view()[w],
{
    let ghost tabr = ja_kanjitab.readings.deep_view();
    let ghost alts = ja_kanjitab.alterations.deep_view();
    let ghost omis = ja_kanjitab.omissions.deep_view();
    if ja_kanjitab.readings.len() == 0 {
        return Err(DecompositionError::Empty);
    }
    if ja_kanjitab.readings.len() < ja_kanjitab.alterations.len() || ja_kanjitab.readings.len()
        < ja_kanjitab.omissions.len() {
        return Err(DecompositionError::Inconsistent);
    }
    let kt = match try_katakanify(title, IgnoreClass::TitleJoiners, KeepClass::Ideographs) {
        Some(t) => t,
        None => {
            return Err(DecompositionError::Unconsidered);
        },
    };
    let ktn = kt.len();
    let mut atoms: Vec<Atom> = Vec::new();
    let mut i: usize = 0;
    let mut cursor: usize = 0;
    proof {
        assert(atoms.deep_view() =~= Seq::<AtomModel>::empty());
    }
    while i < ktn
        invariant
            ktn == kt@.len(),
            0 <= i <= ktn,
            0 <= cursor,
            tabr.len() == ja_kanjitab.readings@.len(),
            alts.len() == ja_kanjitab.alterations@.len(),
            omis.len() == ja_kanjitab.omissions@.len(),
            tabr == ja_kanjitab.readings.deep_view(),
            alts == ja_kanjitab.alterations.deep_view(),
            omis == ja_kanjitab.omissions.deep_view(),
            tabr.len() > 0,
            alts.len() <= tabr.len(),
            omis.len() <= tabr.len(),
            spec_katakanify(title@, IgnoreClass::TitleJoiners, KeepClass::Ideographs) == Some(
                kt@,
            ),
            spec_walk(kt@, 0, tabr, alts, omis, 0) == (match spec_walk(
                kt@,
                i as int,
                tabr,
                alts,
                omis,
                cursor as int,
            ) {
                Ok(rest) => Ok::<(Seq<AtomModel>, int), DecompositionError>(
                    (atoms.deep_view() + rest.0, rest.1),
                ),
                Err(e) => Err(e),
            }),
        decreases ktn - i,
    {
        let ghost adv0 = atoms.deep_view();
        let c = kt[i];
        if is_ideograph(c) {
            if cursor >= ja_kanjitab.readings.len() {
                return Err(DecompositionError::Incomplete);
            }
            let cell = &ja_kanjitab.readings[cursor];
            proof {
                assert(tabr[cursor as int] == (ja_kanjitab.readings@[cursor as int].0@, ja_kanjitab.readings@[cursor as int].1));
            }
            let mut use_alt = false;
            if cursor < ja_kanjitab.alterations.len() {
                if ja_kanjitab.alterations[cursor].is_some() {
                    use_alt = true;
                }
            }
            proof {
                if cursor < alts.len() {
                    assert(alts[cursor as int] == match ja_kanjitab.alterations@[cursor as int] {
                        Some(v) => Some(v@),
                        None => Option::<Seq<char>>::None,
                    });
                }
            }
            let chosen: &Vec<char> = if use_alt {
                match &ja_kanjitab.alterations[cursor] {
                    Some(a) => a,
                    None => &cell.0,
                }
            } else {
                &cell.0
            };
            let ghost chosen_spec = if 0 <= cursor < alts.len() && alts[cursor as int] is Some {
                alts[cursor as int]->0
            } else {
                tabr[cursor as int].0
            };
            proof {
                assert(chosen@ == chosen_spec);
            }
            let rd: Vec<char>;
            if chosen.len() == 1 && (chosen[0] == '\u{30FC}' || chosen[0] == '-') {
                proof {
                    assert(chosen@ =~= seq![chosen@[0]]);
                }
                rd = Vec::new();
                proof {
                    assert(rd@ =~= Seq::<char>::empty());
                }
            } else {
                proof {
                    if chosen_spec == seq!['\u{30FC}'] || chosen_spec == seq!['-'] {
                        assert(chosen_spec.len() == 1);
                        assert(false);
                    }
                }
                match try_katakanify(chosen, IgnoreClass::Spaces, KeepClass::Nothing) {
                    Some(t) => {
                        rd = t;
                    },
                    None => {
                        return Err(DecompositionError::Unconsidered);
                    },
                }
            }
            let ghost rdv = rd@;
            let mut has_omission = false;
            if cursor < ja_kanjitab.omissions.len() {
                if ja_kanjitab.omissions[cursor].is_some() {
                    has_omission = true;
                }
            }
            proof {
                if cursor < omis.len() {
                    assert(omis[cursor as int] == match ja_kanjitab.omissions@[cursor as int] {
                        Some(v) => Some(v@),
                        None => Option::<Seq<char>>::None,
                    });
                }
            }
            let mut omatom: Option<Vec<char>> = None;
            if has_omission {
                let ov = match &ja_kanjitab.omissions[cursor] {
                    Some(o) => o,
                    None => &cell.0,
                };
                match try_katakanify(ov, IgnoreClass::Nothing, KeepClass::Nothing) {
                    Some(o2) => {
                        omatom = Some(o2);
                    },
                    None => {
                        return Err(DecompositionError::Unconsidered);
                    },
                }
            }
            let ghost omg: Seq<AtomModel> = match &omatom {
                Some(o2) => seq![AtomModel::Ruby { character_count: 0, reading: o2@ }],
                None => Seq::empty(),
            };
            let count = cell.1;
            let adv: usize = if count == 0 {
                1
            } else {
                count as usize
            };
            // Verify the whole span lies on ideographs.
            if !span_all_ideographs(&kt, i, adv) {
                return Err(DecompositionError::Inconsistent);
            }
            let count_copy = count;
            atoms.push(Atom::Ruby { character_count: count_copy, reading: rd });
            if let Some(o2) = omatom {
                atoms.push(Atom::Ruby { character_count: 0, reading: o2 });
            }
            proof {
                let s1g = seq![
                    AtomModel::Ruby { character_count: count_copy as int, reading: rdv },
                ];
                assert(atoms.deep_view() =~~= adv0 + s1g + omg);
                let nextw = spec_walk(kt@, i + adv, tabr, alts, omis, cursor + 1);
                if nextw is Ok {
                    let rest = nextw->Ok_0;
                    assert(adv0 + (s1g + omg + rest.0) =~= (adv0 + s1g + omg) + rest.0);
                }
                assert(spec_walk(kt@, i as int, tabr, alts, omis, cursor as int) == (match nextw {
                    Ok(rest) => Ok::<(Seq<AtomModel>, int), DecompositionError>(
                        (s1g + omg + rest.0, rest.1),
                    ),
                    Err(e) => Err(e),
                }));
            }
            i = i + adv;
            cursor = cursor + 1;
        } else if c == '\u{30F6}' {
            atoms.push(Atom::Unknown(c));
            proof {
                assert(atoms.deep_view() =~~= adv0 + seq![
                    AtomModel::Unknown(spec_gen_marker()),
                ]);
                let nextw = spec_walk(kt@, i + 1, tabr, alts, omis, cursor as int);
                if nextw is Ok {
                    let rest = nextw->Ok_0;
                    assert(adv0 + (seq![AtomModel::Unknown(spec_gen_marker())] + rest.0) =~= (
                    adv0 + seq![AtomModel::Unknown(spec_gen_marker())]) + rest.0);
                }
            }
            i = i + 1;
        } else {
            match try_consume_kana(&kt, i) {
                Some((cl, e)) => {
                    proof {
                        crate::ja::lemma_cluster_end_bounds(kt@, i + 1);
                    }
                    atoms.push(Atom::Kana(cl));
                    proof {
                        let ka = seq![
                            AtomModel::Kana(
                                kt@.subrange(i as int, spec_cluster_end(kt@, i + 1)),
                            ),
                        ];
                        assert(atoms.deep_view() =~~= adv0 + ka);
                        let nextw = spec_walk(
                            kt@,
                            spec_cluster_end(kt@, i + 1),
                            tabr,
                            alts,
                            omis,
                            cursor as int,
                        );
                        if nextw is Ok {
                            let rest = nextw->Ok_0;
                            assert(adv0 + (ka + rest.0) =~= (adv0 + ka) + rest.0);
                        }
                    }
                    i = e;
                },
                None => {
                    return Err(DecompositionError::Unconsidered);
                },
            }
        }
    }
    // Ruby spans must cover exactly the title's ideographs.
    let ghost walked = atoms.deep_view();
    let na = atoms.len();
    let mut span_sum: u128 = 0;
    let mut ai: usize = 0;
    proof {
        assert(walked.take(0int) =~= Seq::<AtomModel>::empty());
    }
    while ai < na
        invariant
            na == atoms@.len(),
            walked == atoms.deep_view(),
            walked.len() == na,
            0 <= ai <= na,
            span_sum <= 255 * ai,
            span_sum == spec_ruby_span_sum(walked.take(ai as int)),
        decreases na - ai,
    {
        proof {
            assert(walked.take(ai + 1).drop_last() == walked.take(ai as int));
            assert(walked.take(ai + 1).last() == walked[ai as int]);
            assert(walked[ai as int] == atoms@[ai as int]@);
        }
        match &atoms[ai] {
            Atom::Ruby { character_count, .. } => {
                span_sum = span_sum + (*character_count as u128);
            },
            _ => {},
        }
        ai += 1;
    }
    proof {
        assert(walked.take(na as int) == walked);
    }
    let tn = title.len();
    let mut ideo: usize = 0;
    let mut ti: usize = 0;
    proof {
        assert(title@.take(0int) =~= Seq::<char>::empty());
    }
    while ti < tn
        invariant
            tn == title@.len(),
            0 <= ti <= tn,
            ideo <= ti,
            ideo == spec_ideo_count(title@.take(ti as int)),
        decreases tn - ti,
    {
        proof {
            assert(title@.take(ti + 1).drop_last() == title@.take(ti as int));
            assert(title@.take(ti + 1).last() == title@[ti as int]);
        }
        if is_ideograph(title[ti]) {
            ideo += 1;
        }
        ti += 1;
    }
    proof {
        assert(title@.take(tn as int) == title@);
    }
    if span_sum != ideo as u128 {
        return Err(DecompositionError::Inconsistent);
    }
    // Leftover cells must be empty.
    let mut j: usize = cursor;
    while j < ja_kanjitab.readings.len()
        invariant
            cursor <= j,
            tabr == ja_kanjitab.readings.deep_view(),
            alts == ja_kanjitab.alterations.deep_view(),
            omis == ja_kanjitab.omissions.deep_view(),
            tabr.len() == ja_kanjitab.readings@.len(),
            tabr.len() > 0,
            alts.len() <= tabr.len(),
            omis.len() <= tabr.len(),
            spec_katakanify(title@, IgnoreClass::TitleJoiners, KeepClass::Ideographs) == Some(
                kt@,
            ),
            spec_walk(kt@, 0, tabr, alts, omis, 0) == Ok::<
                (Seq<AtomModel>, int),
                DecompositionError,
            >((walked, cursor as int)),
            spec_ruby_span_sum(walked) == spec_ideo_count(title@),
            forall|t: int| cursor <= t < j ==> (#[trigger] tabr[t].0).len() == 0,
        decreases ja_kanjitab.readings@.len() - j,
    {
        proof {
            assert(tabr[j as int] == (ja_kanjitab.readings@[j as int].0@, ja_kanjitab.readings@[j as int].1));
        }
        if ja_kanjitab.readings[j].0.len() != 0 {
            proof {
                assert((tabr[j as int].0).len() != 0);
            }
            return Err(DecompositionError::Inconsistent);
        }
        j += 1;
    }
    // Align against the candidate set and apply the substitutions.
    let reps = match align(&atoms, readings) {
        Some(v) => v,
        None => {
            return Err(DecompositionError::Mismatch);
        },
    };
    let ghost reps_spec = spec_reps_view(reps@);
    proof {
        lemma_align_exists(walked, readings.deep_view(), 0);
        let w = choose|w: int|
            0 <= w < readings.deep_view().len() && spec_align_one(
                walked,
                0,
                #[trigger] readings.deep_view()[w],
            ) == spec_align(walked, readings.deep_view(), 0);
        lemma_align_apply(walked, 0, readings.deep_view()[w], reps_spec);
    }
    let nr = reps.len();
    let mut rj: usize = 0;
    let mut atoms = atoms;
    proof {
        assert(spec_reps_view(reps@.skip(0int)) =~~= reps_spec);
    }
    while rj < nr
        invariant
            nr == reps@.len(),
            0 <= rj <= nr,
            forall|t: int| 0 <= t < reps_spec.len() ==> 0 <= (#[trigger] reps_spec[t].0)
                < walked.len(),
            reps_spec == spec_reps_view(reps@),
            atoms.deep_view().len() == walked.len(),
            spec_apply(walked, reps_spec) == spec_apply(
                atoms.deep_view(),
                spec_reps_view(reps@.skip(rj as int)),
            ),
        decreases nr - rj,
    {
        let idx = reps[rj].0;
        proof {
            assert(spec_reps_view(reps@)[rj as int] == (reps@[rj as int].0 as int, reps@[
                rj as int
            ].1@));
            assert(0 <= idx < atoms.deep_view().len());
        }
        let sub = copy_range(&reps[rj].1, 0, reps[rj].1.len());
        proof {
            assert(sub@ =~= reps@[rj as int].1@);
        }
        let ghost before = atoms.deep_view();
        crate::parse::vec_set(&mut atoms, idx, Atom::Ruby { character_count: 1, reading: sub });
        proof {
            let rv = spec_reps_view(reps@.skip(rj as int));
            assert(rv.first() == (idx as int, reps@[rj as int].1@));
            assert(atoms.deep_view() =~~= before.update(
                idx as int,
                AtomModel::Ruby { character_count: 1, reading: reps@[rj as int].1@ },
            ));
            assert(rv.drop_first() =~~= spec_reps_view(reps@.skip(rj + 1)));
        }
        rj += 1;
    }
    proof {
        assert(spec_reps_view(reps@.skip(nr as int)) =~~= Seq::<(int, Seq<char>)>::empty());
        lemma_decomposition_round_trip(walked, readings.deep_view(), reps_spec);
    }
    Ok(DecompositionInfo { atoms })
}

// ---------------------------------------------------------------------------
// Part-of-speech readings
// ---------------------------------------------------------------------------

/// The normalized readings contributed by a part-of-speech record: each
/// reading has its link markup stripped and is katakana-normalized under the
/// part-of-speech glue policy; readings the whitelist rejects are dropped.
pub open spec fn spec_pos_readings_fold(rs: Seq<Seq<char>>) -> Seq<Seq<char>>
    decreases rs.len(),
{
    if rs.len() == 0 {
        Seq::empty()
    } else {
        let prev = spec_pos_readings_fold(rs.drop_last());
        match spec_katakanify(
            spec_remove_links(rs.last()),
            IgnoreClass::PosReading,
            KeepClass::Nothing,
        ) {
            Some(t) => prev.push(t),
            Option::None => prev,
        }
    }
}

/// Normalize every reading of a part-of-speech record, dropping those the
/// whitelist rejects.
pub fn infer_pos_readings(ja_pos: JaPos) -> (r: Vec<Vec<char>>)
    ensures
        r.deep_view() == spec_pos_readings_fold(ja_pos.readings.deep_view()),
{
    let ghost rs = ja_pos.readings.deep_view();
    let n = ja_pos.readings.len();
    let mut out: Vec<Vec<char>> = Vec::new();
    let mut i: usize = 0;
    proof {
        assert(out.deep_view() =~= spec_pos_readings_fold(rs.take(0int)));
    }
    while i < n
        invariant
            n == ja_pos.readings@.len(),
            rs == ja_pos.readings.deep_view(),
            0 <= i <= n,
            out.deep_view() == spec_pos_readings_fold(rs.take(i as int)),
        decreases n - i,
    {
        proof {
            assert(rs.take(i + 1).drop_last() == rs.take(i as int));
            assert(rs.take(i + 1).last() == rs[i as int]);
            assert(rs[i as int] == ja_pos.readings@[i as int]@);
        }
        let stripped = remove_links(&ja_pos.readings[i]);
        let ghost prevdv = out.deep_view();
        match try_katakanify(&stripped, IgnoreClass::PosReading, KeepClass::Nothing) {
            Some(t) => {
                out.push(t);
                proof {
                    assert(out.deep_view() =~~= prevdv.push(
                        spec_katakanify(
                            spec_remove_links(rs[i as int]),
                            IgnoreClass::PosReading,
                            KeepClass::Nothing,
                        )->0,
                    ));
                }
            },
            None => {},
        }
        i += 1;
    }
    proof {
        assert(rs.take(n as int) == rs);
    }
    out
}

// ---------------------------------------------------------------------------
// Accent inference
// ---------------------------------------------------------------------------

/// A resolved (reading, accent position) pair.
pub struct AccentInfo {
    pub reading: Vec<char>,
    pub accent: Option<u8>,
}

/// The mathematical shape of an [`AccentInfo`].
pub struct AccentModel {
    pub reading: Seq<char>,
    pub accent: Option<u8>,
}

impl View for AccentInfo {
    type V = AccentModel;

    open spec fn view(&self) -> AccentModel {
        AccentModel { reading: self.reading@, accent: self.accent }
    }
}

impl DeepView for AccentInfo {
    type V = AccentModel;

    open spec fn deep_view(&self) -> AccentModel {
        self.view()
    }
}

/// A pronunciation cell's normalized reading: katakana normalization under
/// the pronunciation glue policy, then iteration-mark expansion.
pub open spec fn spec_norm_reading(v: Seq<char>) -> Option<Seq<char>> {
    match spec_katakanify(v, IgnoreClass::Reading, KeepClass::Nothing) {
        Option::None => Option::None,
        Some(t) => spec_expand(t),
    }
}

/// One resolved entry of the accent walk at index `i`, with reading `rd`:
/// non-standard-dialect entries are skipped; an explicit accent position
/// must not exceed the reading's mora duration; the always-final code
/// resolves to that duration.
pub open spec fn spec_accent_entry(
    rs: Seq<Seq<char>>,
    acs: Seq<JaPronAccent>,
    locs: Seq<bool>,
    i: int,
    rd: Seq<char>,
    last2: Option<Seq<char>>,
    out: Seq<AccentModel>,
) -> Option<Seq<AccentModel>>
    decreases rs.len() - i, 0int,
{
    if i < 0 || i >= rs.len() {
        Some(out)
    } else if 0 <= i < locs.len() && locs[i] {
        spec_accent_loop(rs, acs, locs, i + 1, last2, out)
    } else {
        match acs[i] {
            JaPronAccent::Numeric(nv) => if nv <= crate::ja::spec_duration(rd) {
                spec_accent_loop(
                    rs,
                    acs,
                    locs,
                    i + 1,
                    last2,
                    out.push(AccentModel { reading: rd, accent: Some(nv) }),
                )
            } else {
                Option::None
            },
            JaPronAccent::Odaka => if crate::ja::spec_duration(rd) <= 255 {
                spec_accent_loop(
                    rs,
                    acs,
                    locs,
                    i + 1,
                    last2,
                    out.push(
                        AccentModel {
                            reading: rd,
                            accent: Some(crate::ja::spec_duration(rd) as u8),
                        },
                    ),
                )
            } else {
                Option::None
            },
            JaPronAccent::Unmarked => spec_accent_loop(
                rs,
                acs,
                locs,
                i + 1,
                last2,
                out.push(AccentModel { reading: rd, accent: Option::None }),
            ),
        }
    }
}

/// The accent walk from index `i`: an empty cell reuses the most recent
/// resolved reading, a cell the normalization rejects clears it and is
/// skipped, and each resolved entry is appended in order.
pub open spec fn spec_accent_loop(
    rs: Seq<Seq<char>>,
    acs: Seq<JaPronAccent>,
    locs: Seq<bool>,
    i: int,
    last: Option<Seq<char>>,
    out: Seq<AccentModel>,
) -> Option<Seq<AccentModel>>
    decreases rs.len() - i, 1int,
{
    if i < 0 || i >= rs.len() {
        Some(out)
    } else {
        let rcell = rs[i];
        if rcell.len() == 0 {
            match last {
                Option::None => spec_accent_loop(rs, acs, locs, i + 1, Option::None, out),
                Some(rd) => spec_accent_entry(rs, acs, locs, i, rd, last, out),
            }
        } else {
            match spec_norm_reading(rcell) {
                Option::None => spec_accent_loop(rs, acs, locs, i + 1, Option::None, out),
                Some(rd) => spec_accent_entry(rs, acs, locs, i, rd, Some(rd), out),
            }
        }
    }
}

/// The accent inference over a whole pronunciation record: readings and
/// accent codes padded to a common length, the title's own normalized form
/// as the initial fallback reading.
pub open spec fn spec_infer_accent(
    title: Seq<char>,
    rs: Seq<Seq<char>>,
    acs: Seq<JaPronAccent>,
    locs: Seq<bool>,
) -> Option<Seq<AccentModel>> {
    let n: int = if rs.len() >= acs.len() {
        rs.len() as int
    } else {
        acs.len() as int
    };
    let rp = crate::parse::spec_pad(rs, n, Seq::empty());
    let ap = crate::parse::spec_pad(acs, n, JaPronAccent::Unmarked);
    spec_accent_loop(rp, ap, locs, 0, spec_norm_reading(title), Seq::empty())
}

fn pad_strings(v: &mut Vec<Vec<char>>, n: usize)
    ensures
        final(v).deep_view() == crate::parse::spec_pad(
            old(v).deep_view(),
            n as int,
            Seq::<char>::empty(),
        ),
        final(v)@.len() >= n,
        final(v)@.len() >= old(v)@.len(),
        final(v)@.len() == (if old(v)@.len() >= n {
            old(v)@.len()
        } else {
            n as nat
        }),
{
    proof {
        assert(v.deep_view() =~~= crate::parse::spec_pad(
            old(v).deep_view(),
            v@.len() as int,
            Seq::<char>::empty(),
        ));
    }
    while v.len() < n
        invariant
            v@.len() >= old(v)@.len(),
            v@.len() <= n || v@.len() == old(v)@.len(),
            v.deep_view() == crate::parse::spec_pad(
                old(v).deep_view(),
                v@.len() as int,
                Seq::<char>::empty(),
            ),
        decreases n - v@.len(),
    {
        let ghost prev = v.deep_view();
        v.push(Vec::new());
        proof {
            assert(v.deep_view() =~~= prev.push(Seq::<char>::empty()));
            assert(v.deep_view() =~~= crate::parse::spec_pad(
                old(v).deep_view(),
                v@.len() as int,
                Seq::<char>::empty(),
            ));
        }
    }
}

/// Resolve a pronunciation record into (reading, accent position) pairs: an
/// empty reading cell reuses the previous resolved reading, a rejected cell
/// clears it, non-standard-dialect entries are skipped, and the always-final
/// accent code resolves to the reading's mora duration. Fails when a
/// resolved accent position would exceed its reading's duration.
pub fn infer_accent(title: &Vec<char>, ja_pron: JaPron) -> (r: Option<Vec<AccentInfo>>)
    ensures
        match spec_infer_accent(
            title@,
            ja_pron.readings.deep_view(),
            ja_pron.accents@,
            ja_pron.accent_locations@,
        ) {
            Some(ams) => r matches Some(v) && v.deep_view() == ams,
            Option::None => r is None,
        },
{
    let ghost rs0 = ja_pron.readings.deep_view();
    let ghost acs0 = ja_pron.accents@;
    let ghost locs = ja_pron.accent_locations@;
    let JaPron { readings, accents, accent_locations } = ja_pron;
    let mut readings = readings;
    let mut accents = accents;
    let n: usize = if readings.len() >= accents.len() {
        readings.len()
    } else {
        accents.len()
    };
    pad_strings(&mut readings, n);
    crate::parse::pad_copy(&mut accents, n, JaPronAccent::Unmarked);
    let ghost rp = readings.deep_view();
    let ghost ap = accents@;
    let mut last: Option<Vec<char>> = match try_katakanify(
        title,
        IgnoreClass::Reading,
        KeepClass::Nothing,
    ) {
        Some(t) => expand_katakana(&t),
        None => None,
    };
    let mut out: Vec<AccentInfo> = Vec::new();
    let mut i: usize = 0;
    proof {
        assert(out.deep_view() =~= Seq::<AccentModel>::empty());
        assert((match last {
            Some(v) => Some(v@),
            None => Option::<Seq<char>>::None,
        }) == spec_norm_reading(title@));
    }
    while i < n
        invariant
            n == readings@.len(),
            n == accents@.len(),
            rp == readings.deep_view(),
            ap == accents@,
            locs == accent_locations@,
            rs0 == ja_pron.readings.deep_view(),
            acs0 == ja_pron.accents@,
            locs == ja_pron.accent_locations@,
            rp.len() == n,
            0 <= i <= n,
            spec_infer_accent(title@, rs0, acs0, locs) == spec_accent_loop(
                rp,
                ap,
                locs,
                i as int,
                match last {
                    Some(v) => Some(v@),
                    None => Option::<Seq<char>>::None,
                },
                out.deep_view(),
            ),
        decreases n - i,
    {
        let ghost lastv: Option<Seq<char>> = match &last {
            Some(v) => Some(v@),
            None => Option::None,
        };
        proof {
            assert(rp[i as int] == readings@[i as int]@);
        }
        let rd: Vec<char>;
        let cell_empty = readings[i].len() == 0;
        if cell_empty {
            match &last {
                None => {
                    i += 1;
                    continue ;
                },
                Some(prev_rd) => {
                    rd = copy_range(prev_rd, 0, prev_rd.len());
                    proof {
                        assert(rd@ =~= prev_rd@);
                    }
                },
            }
        } else {
            match try_katakanify(&readings[i], IgnoreClass::Reading, KeepClass::Nothing) {
                Some(t) => {
                    match expand_katakana(&t) {
                        Some(x) => {
                            let xc = copy_range(&x, 0, x.len());
                            proof {
                                assert(xc@ =~= x@);
                            }
                            last = Some(x);
                            rd = xc;
                        },
                        None => {
                            last = None;
                            proof {
                                assert(spec_accent_loop(rp, ap, locs, i as int, lastv, out.deep_view())
                                    == spec_accent_loop(rp, ap, locs, i + 1, Option::None, out.deep_view()));
                            }
                            i += 1;
                            continue ;
                        },
                    }
                },
                None => {
                    last = None;
                    proof {
                        assert(spec_accent_loop(rp, ap, locs, i as int, lastv, out.deep_view())
                            == spec_accent_loop(rp, ap, locs, i + 1, Option::None, out.deep_view()));
                    }
                    i += 1;
                    continue ;
                },
            }
        }
        let ghost last2v: Option<Seq<char>> = match &last {
            Some(v) => Some(v@),
            None => Option::None,
        };
        proof {
            assert(spec_accent_loop(rp, ap, locs, i as int, lastv, out.deep_view())
                == spec_accent_entry(rp, ap, locs, i as int, rd@, last2v, out.deep_view()));
        }
        // A resolved reading is at hand; skip non-standard-dialect entries.
        if i < accent_locations.len() && accent_locations[i] {
            proof {
                assert(spec_accent_entry(rp, ap, locs, i as int, rd@, last2v, out.deep_view())
                    == spec_accent_loop(rp, ap, locs, i + 1, last2v, out.deep_view()));
            }
            i += 1;
            continue ;
        }
        let acc: Option<u8>;
        match accents[i] {
            JaPronAccent::Numeric(nv) => {
                let d = compute_duration(&rd);
                if (nv as usize) > d {
                    proof {
                        assert(spec_accent_entry(
                            rp,
                            ap,
                            locs,
                            i as int,
                            rd@,
                            last2v,
                            out.deep_view(),
                        ) is None);
                    }
                    return None;
                }
                acc = Some(nv);
            },
            JaPronAccent::Odaka => {
                let d = compute_duration(&rd);
                if d > 255 {
                    proof {
                        assert(spec_accent_entry(
                            rp,
                            ap,
                            locs,
                            i as int,
                            rd@,
                            last2v,
                            out.deep_view(),
                        ) is None);
                    }
                    return None;
                }
                acc = Some(d as u8);
            },
            JaPronAccent::Unmarked => {
                acc = None;
            },
        }
        let ghost prevdv = out.deep_view();
        let ghost rdv = rd@;
        out.push(AccentInfo { reading: rd, accent: acc });
        proof {
            assert(out.deep_view() =~~= prevdv.push(AccentModel { reading: rdv, accent: acc }));
            assert(spec_accent_entry(rp, ap, locs, i as int, rdv, last2v, prevdv)
                == spec_accent_loop(rp, ap, locs, i + 1, last2v, out.deep_view()));
        }
        i += 1;
    }
    Some(out)
}

} // verus!
