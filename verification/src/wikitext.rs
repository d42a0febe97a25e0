//! Markup-aware scanning: a template scanner recovering `{{name|args}}`
//! invocations from free-form text, a parameter splitter cutting one
//! invocation's raw argument text into top-level parameters, and a helper
//! stripping link syntax.
//!
//! Both the scanner and the splitter are non-restartable sequences: on
//! unbalanced closing markup they fail permanently and yield nothing more.

use vstd::prelude::*;

verus! {

// ---------------------------------------------------------------------------
// Searching helpers
// ---------------------------------------------------------------------------

/// `pat` occurs in `s` starting at position `i`.
pub open spec fn spec_matches_at(s: Seq<char>, i: int, pat: Seq<char>) -> bool {
    0 <= i && i + pat.len() <= s.len() && s.subrange(i, i + pat.len()) == pat
}

/// Whether the characters of `pat` appear in `s` starting at position `i`.
pub fn try_consume(s: &Vec<char>, i: usize, pat: &Vec<char>) -> (r: bool)
    ensures
        r == spec_matches_at(s@, i as int, pat@),
{
    let n = s.len();
    let m = pat.len();
    if i > n || m > n - i {
        proof {
            assert(!spec_matches_at(s@, i as int, pat@));
        }
        return false;
    }
    let mut k: usize = 0;
    while k < m
        invariant
            i + m <= n,
            n == s@.len(),
            m == pat@.len(),
            0 <= k <= m,
            forall|q: int| 0 <= q < k ==> s@[i + q] == #[trigger] pat@[q],
        decreases m - k,
    {
        if s[i + k] != pat[k] {
            proof {
                assert(s@.subrange(i as int, i + m)[k as int] == s@[i + k]);
                assert(!spec_matches_at(s@, i as int, pat@));
            }
            return false;
        }
        k += 1;
    }
    proof {
        assert(s@.subrange(i as int, i + m) =~= pat@);
    }
    true
}

/// The first position `j >= from` where `a` is immediately followed by `b`.
pub open spec fn spec_find_pair(s: Seq<char>, from: int, a: char, b: char) -> Option<int>
    decreases s.len() - from,
{
    if from < 0 || from + 2 > s.len() {
        Option::None
    } else if s[from] == a && s[from + 1] == b {
        Some(from)
    } else {
        spec_find_pair(s, from + 1, a, b)
    }
}

pub proof fn lemma_find_pair_some(s: Seq<char>, from: int, a: char, b: char)
    requires
        spec_find_pair(s, from, a, b) is Some,
    ensures
        ({
            let j = spec_find_pair(s, from, a, b)->0;
            from <= j && j + 2 <= s.len() && s[j] == a && s[j + 1] == b
        }),
    decreases s.len() - from,
{
    if !(from < 0 || from + 2 > s.len()) && !(s[from] == a && s[from + 1] == b) {
        lemma_find_pair_some(s, from + 1, a, b);
    }
}

fn find_pair(s: &Vec<char>, from: usize, a: char, b: char) -> (r: Option<usize>)
    ensures
        match spec_find_pair(s@, from as int, a, b) {
            Some(j) => r matches Some(x) && x == j,
            Option::None => r is None,
        },
{
    let n = s.len();
    let mut j: usize = from;
    while n >= 2 && j <= n - 2
        invariant
            n == s@.len(),
            from <= j,
            spec_find_pair(s@, from as int, a, b) == spec_find_pair(s@, j as int, a, b),
        decreases n - j,
    {
        if s[j] == a && s[j + 1] == b {
            return Some(j);
        }
        j += 1;
    }
    None
}

/// The first position `j >= from` where `a`, `b`, `c` appear in a row.
pub open spec fn spec_find_triple(s: Seq<char>, from: int, a: char, b: char, c: char) -> Option<
    int,
>
    decreases s.len() - from,
{
    if from < 0 || from + 3 > s.len() {
        Option::None
    } else if s[from] == a && s[from + 1] == b && s[from + 2] == c {
        Some(from)
    } else {
        spec_find_triple(s, from + 1, a, b, c)
    }
}

pub proof fn lemma_find_triple_some(s: Seq<char>, from: int, a: char, b: char, c: char)
    requires
        spec_find_triple(s, from, a, b, c) is Some,
    ensures
        ({
            let j = spec_find_triple(s, from, a, b, c)->0;
            from <= j && j + 3 <= s.len()
        }),
    decreases s.len() - from,
{
    if !(from < 0 || from + 3 > s.len()) && !(s[from] == a && s[from + 1] == b && s[from + 2]
        == c) {
        lemma_find_triple_some(s, from + 1, a, b, c);
    }
}

fn find_triple(s: &Vec<char>, from: usize, a: char, b: char, c: char) -> (r: Option<usize>)
    ensures
        match spec_find_triple(s@, from as int, a, b, c) {
            Some(j) => r matches Some(x) && x == j,
            Option::None => r is None,
        },
{
    let n = s.len();
    let mut j: usize = from;
    while n >= 3 && j <= n - 3
        invariant
            n == s@.len(),
            from <= j,
            spec_find_triple(s@, from as int, a, b, c) == spec_find_triple(s@, j as int, a, b, c),
        decreases n - j,
    {
        if s[j] == a && s[j + 1] == b && s[j + 2] == c {
            return Some(j);
        }
        j += 1;
    }
    None
}

/// The first position of `ch` in `s` within `[from, to)`.
pub open spec fn spec_find_char_in(s: Seq<char>, from: int, to: int, ch: char) -> Option<int>
    decreases to - from,
{
    if from < 0 || from >= to || to > s.len() {
        Option::None
    } else if s[from] == ch {
        Some(from)
    } else {
        spec_find_char_in(s, from + 1, to, ch)
    }
}

pub proof fn lemma_find_char_in_some(s: Seq<char>, from: int, to: int, ch: char)
    requires
        spec_find_char_in(s, from, to, ch) is Some,
    ensures
        ({
            let j = spec_find_char_in(s, from, to, ch)->0;
            from <= j && j < to && to <= s.len() && s[j] == ch
        }),
    decreases to - from,
{
    if !(from < 0 || from >= to || to > s.len()) && s[from] != ch {
        lemma_find_char_in_some(s, from + 1, to, ch);
    }
}

pub fn find_char_in(s: &Vec<char>, from: usize, to: usize, ch: char) -> (r: Option<usize>)
    requires
        to <= s@.len(),
    ensures
        match spec_find_char_in(s@, from as int, to as int, ch) {
            Some(j) => r matches Some(x) && x == j,
            Option::None => r is None,
        },
{
    let mut j: usize = from;
    while j < to
        invariant
            to <= s@.len(),
            from <= j,
            spec_find_char_in(s@, from as int, to as int, ch) == spec_find_char_in(
                s@,
                j as int,
                to as int,
                ch,
            ),
        decreases to - j,
    {
        if s[j] == ch {
            return Some(j);
        }
        j += 1;
    }
    None
}

/// A copy of `s[a..b]`.
pub fn copy_range(s: &Vec<char>, a: usize, b: usize) -> (r: Vec<char>)
    requires
        a <= b <= s@.len(),
    ensures
        r@ == s@.subrange(a as int, b as int),
{
    let mut out: Vec<char> = Vec::new();
    let mut k: usize = a;
    while k < b
        invariant
            a <= k <= b <= s@.len(),
            out@ == s@.subrange(a as int, k as int),
        decreases b - k,
    {
        out.push(s[k]);
        proof {
            assert(s@.subrange(a as int, k + 1) == s@.subrange(a as int, k as int).push(
                s@[k as int],
            ));
        }
        k += 1;
    }
    out
}

// ---------------------------------------------------------------------------
// Link removal
// ---------------------------------------------------------------------------

/// Removal of `[[target]]` and `[[target|label]]` markup, one step at a
/// time: a link contributes its target (or label) to the output; an
/// unterminated link ends the output at once.
pub open spec fn spec_remove_links_loop(s: Seq<char>, i: int, acc: Seq<char>) -> Seq<char>
    decreases s.len() - i,
{
    if i < 0 || i >= s.len() {
        acc
    } else if s[i] == '[' && i + 1 < s.len() && s[i + 1] == '[' {
        match spec_find_pair(s, i + 2, ']', ']') {
            Option::None => acc,
            Some(j) => {
                let piece = match spec_find_char_in(s, i + 2, j, '|') {
                    Option::None => s.subrange(i + 2, j),
                    Some(p) => s.subrange(p + 1, j),
                };
                if i + 2 <= j && j + 2 <= s.len() {
                    spec_remove_links_loop(s, j + 2, acc + piece)
                } else {
                    acc
                }
            },
        }
    } else {
        spec_remove_links_loop(s, i + 1, acc.push(s[i]))
    }
}

/// The text with all link markup stripped.
pub open spec fn spec_remove_links(s: Seq<char>) -> Seq<char> {
    spec_remove_links_loop(s, 0, Seq::empty())
}

/// Remove `[[...]]` and `[[...|...]]` markup from a string, keeping the link
/// target, or the label when one is present.
pub fn remove_links(reading: &Vec<char>) -> (r: Vec<char>)
    ensures
        r@ == spec_remove_links(reading@),
{
    let n = reading.len();
    let mut buffer: Vec<char> = Vec::new();
    let mut i: usize = 0;
    proof {
        assert(buffer@ =~= Seq::<char>::empty());
    }
    while i < n
        invariant
            n == reading@.len(),
            0 <= i <= n,
            spec_remove_links(reading@) == spec_remove_links_loop(reading@, i as int, buffer@),
        decreases n - i,
    {
        let c = reading[i];
        if c == '[' && i + 1 < n && reading[i + 1] == '[' {
            match find_pair(reading, i + 2, ']', ']') {
                None => {
                    return buffer;
                },
                Some(j) => {
                    proof {
                        lemma_find_pair_some(reading@, i + 2, ']', ']');
                    }
                    let piece = match find_char_in(reading, i + 2, j, '|') {
                        None => copy_range(reading, i + 2, j),
                        Some(p) => {
                            proof {
                                lemma_find_char_in_some(reading@, i + 2, j as int, '|');
                            }
                            copy_range(reading, p + 1, j)
                        },
                    };
                    let mut piece = piece;
                    buffer.append(&mut piece);
                    i = j + 2;
                },
            }
        } else {
            buffer.push(c);
            i += 1;
        }
    }
    buffer
}

// ---------------------------------------------------------------------------
// Template scanner
// ---------------------------------------------------------------------------

/// The outcome of scanning for a template name after an opening `{{`: the
/// name ends at a `|` or at a closing `}}` (comment regions are skipped and
/// contribute nothing to the name); a text that ends first, or an
/// unterminated comment, fails the scan.
pub enum NameScan {
    Bar { name: Seq<char>, at: int },
    Close { name: Seq<char>, at: int },
    Fail,
}

/// Scan for the name terminator from position `q`, having gathered `acc` so
/// far: the first `|` or `}}` outside a comment ends the name.
pub open spec fn spec_scan_name(s: Seq<char>, q: int, acc: Seq<char>) -> NameScan
    decreases s.len() - q,
{
    let n = s.len() as int;
    if q < 0 || q >= n {
        NameScan::Fail
    } else if s[q] == '<' && q + 4 <= n && s[q + 1] == '!' && s[q + 2] == '-' && s[q + 3] == '-' {
        match spec_find_triple(s, q + 4, '-', '-', '>') {
            Option::None => NameScan::Fail,
            Some(j) => if q + 4 <= j && j + 3 <= n {
                spec_scan_name(s, j + 3, acc)
            } else {
                NameScan::Fail
            },
        }
    } else if s[q] == '|' {
        NameScan::Bar { name: acc, at: q }
    } else if s[q] == '}' && q + 2 <= n && s[q + 1] == '}' {
        NameScan::Close { name: acc, at: q }
    } else {
        spec_scan_name(s, q + 1, acc.push(s[q]))
    }
}

pub proof fn lemma_scan_name_bounds(s: Seq<char>, q: int, acc: Seq<char>)
    requires
        0 <= q <= s.len(),
    ensures
        ({
            match spec_scan_name(s, q, acc) {
                NameScan::Bar { at, .. } => q <= at && at + 1 <= s.len(),
                NameScan::Close { at, .. } => q <= at && at + 2 <= s.len(),
                NameScan::Fail => true,
            }
        }),
    decreases s.len() - q,
{
    let n = s.len() as int;
    if q < 0 || q >= n {
    } else if s[q] == '<' && q + 4 <= n && s[q + 1] == '!' && s[q + 2] == '-' && s[q + 3] == '-' {
        match spec_find_triple(s, q + 4, '-', '-', '>') {
            Option::None => {},
            Some(j) => if q + 4 <= j && j + 3 <= n {
                lemma_scan_name_bounds(s, j + 3, acc);
            } else {
            },
        }
    } else if s[q] == '|' {
    } else if s[q] == '}' && q + 2 <= n && s[q + 1] == '}' {
    } else {
        lemma_scan_name_bounds(s, q + 1, acc.push(s[q]));
    }
}

/// Scan for the name terminator from `from`; the returned flag is true when
/// the name ended at a `|`, false when it ended at a closing `}}`.
fn scan_name(s: &Vec<char>, from: usize) -> (r: Option<(Vec<char>, bool, usize)>)
    ensures
        match spec_scan_name(s@, from as int, Seq::<char>::empty()) {
            NameScan::Fail => r is None,
            NameScan::Bar { name, at } => r matches Some(t) && t.0@ == name && t.1 == true
                && t.2 == at,
            NameScan::Close { name, at } => r matches Some(t) && t.0@ == name && t.1 == false
                && t.2 == at,
        },
{
    let n = s.len();
    if from > n {
        return None;
    }
    let mut q: usize = from;
    let mut acc: Vec<char> = Vec::new();
    proof {
        assert(acc@ =~= Seq::<char>::empty());
    }
    loop
        invariant
            n == s@.len(),
            from <= q <= n,
            spec_scan_name(s@, from as int, Seq::<char>::empty()) == spec_scan_name(
                s@,
                q as int,
                acc@,
            ),
        decreases n - q,
    {
        if q >= n {
            return None;
        }
        let c = s[q];
        if c == '<' && n - q >= 4 && s[q + 1] == '!' && s[q + 2] == '-' && s[q + 3] == '-' {
            match find_triple(s, q + 4, '-', '-', '>') {
                None => {
                    return None;
                },
                Some(j) => {
                    proof {
                        lemma_find_triple_some(s@, q + 4, '-', '-', '>');
                    }
                    q = j + 3;
                },
            }
        } else if c == '|' {
            return Some((acc, true, q));
        } else if c == '}' && n - q >= 2 && s[q + 1] == '}' {
            return Some((acc, false, q));
        } else {
            acc.push(c);
            q += 1;
        }
    }
}

/// The scan position of a [`FindTemplates`] scanner, as mathematical
/// values: the cursor, the current invocation's name, the start of the raw
/// argument run being gathered, the argument text saved before embedded
/// comments, the nesting depth, and the permanent failure latch.
pub struct ScanState {
    pub pos: int,
    pub name: Seq<char>,
    pub arg_start: int,
    pub pending: Seq<char>,
    pub depth: int,
    pub invalid: bool,
}

/// One step of the scan of `s` from state `st`: the state after the next
/// emission (or after the scan ends), with the emitted (name, argument
/// text) pair, if any.
///
/// Doubled braces open and close invocations; tripled braces track
/// brace-parameter constructs without emitting; a comment suspends all
/// structural interpretation until its terminator and its text never
/// reaches an emitted name or argument; closing markup at depth zero fails
/// the scan permanently.
pub open spec fn spec_scan_next(s: Seq<char>, st: ScanState) -> (ScanState, Option<
    (Seq<char>, Seq<char>),
>)
    decreases s.len() - st.pos,
{
    let n = s.len() as int;
    let p = st.pos;
    if st.invalid || p < 0 || p >= n {
        (st, Option::None)
    } else {
        let c = s[p];
        if c == '{' && p + 3 <= n && s[p + 1] == '{' && s[p + 2] == '{' {
            spec_scan_next(s, ScanState { pos: p + 3, depth: st.depth + 1, ..st })
        } else if c == '}' && p + 3 <= n && s[p + 1] == '}' && s[p + 2] == '}' {
            if st.depth == 0 {
                (ScanState { pos: p + 3, invalid: true, ..st }, Option::None)
            } else {
                spec_scan_next(s, ScanState { pos: p + 3, depth: st.depth - 1, ..st })
            }
        } else if c == '{' && p + 2 <= n && s[p + 1] == '{' {
            if st.depth == 0 {
                match spec_scan_name(s, p + 2, Seq::empty()) {
                    NameScan::Fail => (ScanState { pos: n, invalid: true, ..st }, Option::None),
                    NameScan::Close { name, at } => if p + 2 <= at && at + 2 <= n {
                        (
                            ScanState {
                                pos: at + 2,
                                arg_start: at + 1,
                                pending: Seq::empty(),
                                ..st
                            },
                            Some((name, Seq::<char>::empty())),
                        )
                    } else {
                        (ScanState { invalid: true, ..st }, Option::None)
                    },
                    NameScan::Bar { name, at } => if p + 2 <= at && at + 1 <= n {
                        spec_scan_next(
                            s,
                            ScanState {
                                pos: at + 1,
                                name,
                                arg_start: at + 1,
                                pending: Seq::empty(),
                                depth: st.depth + 1,
                                ..st
                            },
                        )
                    } else {
                        (ScanState { invalid: true, ..st }, Option::None)
                    },
                }
            } else {
                spec_scan_next(s, ScanState { pos: p + 2, depth: st.depth + 1, ..st })
            }
        } else if c == '}' && p + 2 <= n && s[p + 1] == '}' {
            if st.depth == 0 {
                (ScanState { pos: p + 2, invalid: true, ..st }, Option::None)
            } else if st.depth == 1 {
                if 0 <= st.arg_start <= p {
                    (
                        ScanState { pos: p + 2, depth: 0, pending: Seq::empty(), ..st },
                        Some((st.name, st.pending + s.subrange(st.arg_start, p))),
                    )
                } else {
                    (ScanState { invalid: true, ..st }, Option::None)
                }
            } else {
                spec_scan_next(s, ScanState { pos: p + 2, depth: st.depth - 1, ..st })
            }
        } else if c == '<' && p + 4 <= n && s[p + 1] == '!' && s[p + 2] == '-' && s[p + 3] == '-' {
            if 0 <= st.arg_start <= p {
                let saved = st.pending + s.subrange(st.arg_start, p);
                match spec_find_triple(s, p + 4, '-', '-', '>') {
                    Option::None => (
                        ScanState { pos: n, pending: saved, invalid: true, ..st },
                        Option::None,
                    ),
                    Some(j) => if p + 4 <= j && j + 3 <= n {
                        spec_scan_next(
                            s,
                            ScanState { pos: j + 3, arg_start: j + 3, pending: saved, ..st },
                        )
                    } else {
                        (ScanState { invalid: true, ..st }, Option::None)
                    },
                }
            } else {
                (ScanState { invalid: true, ..st }, Option::None)
            }
        } else {
            spec_scan_next(s, ScanState { pos: p + 1, ..st })
        }
    }
}

/// Scanner over the wiki templates `{{...}}` of a document.
pub struct FindTemplates {
    pub s: Vec<char>,
    pub pos: usize,
    pub name: Vec<char>,
    pub arg_start: usize,
    pub commentless: Vec<char>,
    pub depth: usize,
    pub invalid: bool,
}

impl FindTemplates {
    /// The scanner's fields as a [`ScanState`].
    pub open spec fn st(&self) -> ScanState {
        ScanState {
            pos: self.pos as int,
            name: self.name@,
            arg_start: self.arg_start as int,
            pending: self.commentless@,
            depth: self.depth as int,
            invalid: self.invalid,
        }
    }

    /// The state is well formed: every position lies inside the document and
    /// the argument start never passes the cursor.
    pub open spec fn wf(&self) -> bool {
        &&& self.pos <= self.s@.len()
        &&& self.arg_start <= self.pos
        &&& self.depth <= self.pos
    }

    pub fn new(s: Vec<char>) -> (r: FindTemplates)
        ensures
            r.s@ == s@,
            r.st() == (ScanState {
                pos: 0,
                name: Seq::<char>::empty(),
                arg_start: 0,
                pending: Seq::<char>::empty(),
                depth: 0,
                invalid: false,
            }),
            r.wf(),
    {
        let r = FindTemplates {
            s,
            pos: 0,
            name: Vec::new(),
            arg_start: 0,
            commentless: Vec::new(),
            depth: 0,
            invalid: false,
        };
        proof {
            assert(r.name@ =~= Seq::<char>::empty());
            assert(r.commentless@ =~= Seq::<char>::empty());
        }
        r
    }

    /// Scan forward to the next template invocation and return its name and
    /// argument text (comment regions cut out of both), or `None` when the
    /// document is exhausted or the scan has failed.
    pub fn next(&mut self) -> (r: Option<(Vec<char>, Vec<char>)>)
        requires
            old(self).wf(),
        ensures
            final(self).wf(),
            final(self).s@ == old(self).s@,
            ({
                let (st2, item) = spec_scan_next(old(self).s@, old(self).st());
                final(self).st() == st2 && match item {
                    Some(p) => r matches Some(q) && q.0@ == p.0 && q.1@ == p.1,
                    Option::None => r is None,
                }
            }),
    {
        loop
            invariant
                self.wf(),
                self.s@ == old(self).s@,
                spec_scan_next(old(self).s@, old(self).st()) == spec_scan_next(self.s@, self.st()),
            decreases self.s@.len() - self.pos, (if self.invalid {
                0int
            } else {
                1int
            }),
        {
            if self.invalid {
                return None;
            }
            let n = self.s.len();
            if self.pos >= n {
                return None;
            }
            let ghost prev = self.st();
            let p = self.pos;
            let c = self.s[p];
            if c == '{' && n - p >= 3 && self.s[p + 1] == '{' && self.s[p + 2] == '{' {
                self.pos = p + 3;
                self.depth = self.depth + 1;
                proof {
                    assert(self.st() == ScanState { pos: p + 3, depth: prev.depth + 1, ..prev });
                }
            } else if c == '}' && n - p >= 3 && self.s[p + 1] == '}' && self.s[p + 2] == '}' {
                if self.depth == 0 {
                    self.pos = p + 3;
                    self.invalid = true;
                    proof {
                        assert(self.st() == ScanState { pos: p + 3, invalid: true, ..prev });
                    }
                    return None;
                } else {
                    self.pos = p + 3;
                    self.depth = self.depth - 1;
                    proof {
                        assert(self.st() == ScanState {
                            pos: p + 3,
                            depth: prev.depth - 1,
                            ..prev
                        });
                    }
                }
            } else if c == '{' && n - p >= 2 && self.s[p + 1] == '{' {
                if self.depth == 0 {
                    match scan_name(&self.s, p + 2) {
                        None => {
                            self.pos = n;
                            self.invalid = true;
                            proof {
                                assert(self.st() == ScanState {
                                    pos: n as int,
                                    invalid: true,
                                    ..prev
                                });
                            }
                            return None;
                        },
                        Some((nm, is_bar, at)) => {
                            proof {
                                lemma_scan_name_bounds(self.s@, p + 2, Seq::empty());
                            }
                            if is_bar {
                                let ghost nmv = nm@;
                                self.pos = at + 1;
                                self.name = nm;
                                self.arg_start = at + 1;
                                self.commentless = Vec::new();
                                self.depth = self.depth + 1;
                                proof {
                                    assert(self.commentless@ =~= Seq::<char>::empty());
                                    assert(self.st() == ScanState {
                                        pos: at + 1,
                                        name: nmv,
                                        arg_start: at + 1,
                                        pending: Seq::<char>::empty(),
                                        depth: prev.depth + 1,
                                        ..prev
                                    });
                                }
                            } else {
                                self.pos = at + 2;
                                self.arg_start = at + 1;
                                self.commentless = Vec::new();
                                proof {
                                    assert(self.commentless@ =~= Seq::<char>::empty());
                                    assert(self.st() == ScanState {
                                        pos: at + 2,
                                        arg_start: at + 1,
                                        pending: Seq::<char>::empty(),
                                        ..prev
                                    });
                                }
                                let empty_args: Vec<char> = Vec::new();
                                proof {
                                    assert(empty_args@ =~= Seq::<char>::empty());
                                }
                                return Some((nm, empty_args));
                            }
                        },
                    }
                } else {
                    self.pos = p + 2;
                    self.depth = self.depth + 1;
                    proof {
                        assert(self.st() == ScanState {
                            pos: p + 2,
                            depth: prev.depth + 1,
                            ..prev
                        });
                    }
                }
            } else if c == '}' && n - p >= 2 && self.s[p + 1] == '}' {
                if self.depth == 0 {
                    self.pos = p + 2;
                    self.invalid = true;
                    proof {
                        assert(self.st() == ScanState { pos: p + 2, invalid: true, ..prev });
                    }
                    return None;
                } else if self.depth == 1 {
                    let name = copy_range(&self.name, 0, self.name.len());
                    let mut args = copy_range(&self.commentless, 0, self.commentless.len());
                    let mut tail = copy_range(&self.s, self.arg_start, p);
                    args.append(&mut tail);
                    self.pos = p + 2;
                    self.depth = 0;
                    self.commentless = Vec::new();
                    proof {
                        assert(name@ =~= prev.name);
                        assert(args@ =~= prev.pending + self.s@.subrange(prev.arg_start, p as int));
                        assert(self.commentless@ =~= Seq::<char>::empty());
                        assert(self.st() == ScanState {
                            pos: p + 2,
                            depth: 0,
                            pending: Seq::<char>::empty(),
                            ..prev
                        });
                    }
                    return Some((name, args));
                } else {
                    self.pos = p + 2;
                    self.depth = self.depth - 1;
                    proof {
                        assert(self.st() == ScanState {
                            pos: p + 2,
                            depth: prev.depth - 1,
                            ..prev
                        });
                    }
                }
            } else if c == '<' && n - p >= 4 && self.s[p + 1] == '!' && self.s[p + 2] == '-'
                && self.s[p + 3] == '-' {
                let mut piece = copy_range(&self.s, self.arg_start, p);
                self.commentless.append(&mut piece);
                proof {
                    assert(self.commentless@ == prev.pending + self.s@.subrange(
                        prev.arg_start,
                        p as int,
                    ));
                }
                match find_triple(&self.s, p + 4, '-', '-', '>') {
                    None => {
                        self.pos = n;
                        self.invalid = true;
                        proof {
                            assert(self.st() == ScanState {
                                pos: n as int,
                                pending: prev.pending + self.s@.subrange(
                                    prev.arg_start,
                                    p as int,
                                ),
                                invalid: true,
                                ..prev
                            });
                        }
                        return None;
                    },
                    Some(j) => {
                        proof {
                            lemma_find_triple_some(self.s@, p + 4, '-', '-', '>');
                        }
                        self.pos = j + 3;
                        self.arg_start = j + 3;
                        proof {
                            assert(self.st() == ScanState {
                                pos: j + 3,
                                arg_start: j + 3,
                                pending: prev.pending + self.s@.subrange(
                                    prev.arg_start,
                                    p as int,
                                ),
                                ..prev
                            });
                        }
                    },
                }
            } else {
                self.pos = p + 1;
                proof {
                    assert(self.st() == ScanState { pos: p + 1, ..prev });
                }
            }
        }
    }
}

// ---------------------------------------------------------------------------
// Parameter splitter
// ---------------------------------------------------------------------------

/// The position of a [`TemplateParameters`] splitter, as mathematical
/// integers: the cursor, the start of the parameter being accumulated, the
/// nesting depth, the text saved before embedded comments, and the permanent
/// failure latch.
pub struct SplitState {
    pub pos: int,
    pub start: int,
    pub depth: int,
    pub pending: Option<Seq<char>>,
    pub invalid: bool,
}

/// The text saved so far for a parameter interrupted by comments.
pub open spec fn spec_merged(pending: Option<Seq<char>>) -> Seq<char> {
    match pending {
        Some(t) => t,
        Option::None => Seq::empty(),
    }
}

/// One step of the split of `s` from state `st`: the state after the next
/// parameter is emitted (or after the text ends), with that parameter.
///
/// A `|` at depth zero ends a parameter; depth rises at `{{`, `[[`, and at a
/// bare `{` or `[`, and falls at their closing counterparts; a comment's
/// text is cut out of the emitted parameter; closing markup at depth zero
/// fails the split permanently. A final parameter is emitted when the text
/// ends with one still accumulating.
pub open spec fn spec_split_next(s: Seq<char>, st: SplitState) -> (SplitState, Option<Seq<char>>)
    decreases s.len() - st.pos,
{
    let n = s.len() as int;
    let p = st.pos;
    if st.invalid {
        (st, Option::None)
    } else if p < 0 || p >= n {
        if (st.start < n || st.pending is Some) && 0 <= st.start <= n {
            (
                SplitState { start: n, pending: Option::None, ..st },
                Some(spec_merged(st.pending) + s.subrange(st.start, n)),
            )
        } else {
            (st, Option::None)
        }
    } else {
        let c = s[p];
        if c == '|' && st.depth == 0 {
            if 0 <= st.start <= p {
                (
                    SplitState { pos: p + 1, start: p + 1, pending: Option::None, ..st },
                    Some(spec_merged(st.pending) + s.subrange(st.start, p)),
                )
            } else {
                (SplitState { invalid: true, ..st }, Option::None)
            }
        } else if c == '{' || c == '[' {
            if p + 2 <= n && s[p + 1] == c {
                spec_split_next(s, SplitState { pos: p + 2, depth: st.depth + 1, ..st })
            } else {
                spec_split_next(s, SplitState { pos: p + 1, depth: st.depth + 1, ..st })
            }
        } else if c == '}' || c == ']' {
            if st.depth == 0 {
                (SplitState { pos: p + 1, invalid: true, ..st }, Option::None)
            } else if p + 2 <= n && s[p + 1] == c {
                spec_split_next(s, SplitState { pos: p + 2, depth: st.depth - 1, ..st })
            } else {
                spec_split_next(s, SplitState { pos: p + 1, depth: st.depth - 1, ..st })
            }
        } else if c == '<' && p + 4 <= n && s[p + 1] == '!' && s[p + 2] == '-' && s[p + 3] == '-' {
            if 0 <= st.start <= p {
                let saved = spec_merged(st.pending) + s.subrange(st.start, p);
                match spec_find_triple(s, p + 4, '-', '-', '>') {
                    Option::None => (
                        SplitState { pos: n, pending: Some(saved), invalid: true, ..st },
                        Option::None,
                    ),
                    Some(j) => if p + 4 <= j && j + 3 <= n {
                        spec_split_next(
                            s,
                            SplitState { pos: j + 3, start: j + 3, pending: Some(saved), ..st },
                        )
                    } else {
                        (SplitState { invalid: true, ..st }, Option::None)
                    },
                }
            } else {
                (SplitState { invalid: true, ..st }, Option::None)
            }
        } else {
            spec_split_next(s, SplitState { pos: p + 1, ..st })
        }
    }
}

/// The initial state of a parameter split.
pub open spec fn spec_split_init() -> SplitState {
    SplitState { pos: 0, start: 0, depth: 0, pending: Option::None, invalid: false }
}

/// The split makes progress: the cursor never moves back, and an emission
/// either advances it or is the final one.
pub proof fn lemma_split_next_progress(s: Seq<char>, st: SplitState)
    requires
        0 <= st.pos <= s.len(),
    ensures
        ({
            let (st2, item) = spec_split_next(s, st);
            &&& st.pos <= st2.pos <= s.len()
            &&& (item is Some ==> (st2.pos > st.pos || (st2.pos == st.pos && st2.start == s.len()
                && st2.pending is None && (st.start < s.len() || st.pending is Some))))
        }),
    decreases s.len() - st.pos,
{
    let n = s.len() as int;
    let p = st.pos;
    if st.invalid || p >= n {
    } else {
        let c = s[p];
        if c == '|' && st.depth == 0 {
        } else if c == '{' || c == '[' {
            if p + 2 <= n && s[p + 1] == c {
                lemma_split_next_progress(
                    s,
                    SplitState { pos: p + 2, depth: st.depth + 1, ..st },
                );
            } else {
                lemma_split_next_progress(
                    s,
                    SplitState { pos: p + 1, depth: st.depth + 1, ..st },
                );
            }
        } else if c == '}' || c == ']' {
            if st.depth != 0 {
                if p + 2 <= n && s[p + 1] == c {
                    lemma_split_next_progress(
                        s,
                        SplitState { pos: p + 2, depth: st.depth - 1, ..st },
                    );
                } else {
                    lemma_split_next_progress(
                        s,
                        SplitState { pos: p + 1, depth: st.depth - 1, ..st },
                    );
                }
            }
        } else if c == '<' && p + 4 <= n && s[p + 1] == '!' && s[p + 2] == '-' && s[p + 3] == '-' {
            if 0 <= st.start <= p {
                let saved = spec_merged(st.pending) + s.subrange(st.start, p);
                match spec_find_triple(s, p + 4, '-', '-', '>') {
                    Option::None => {},
                    Some(j) => if p + 4 <= j && j + 3 <= n {
                        lemma_split_next_progress(
                            s,
                            SplitState { pos: j + 3, start: j + 3, pending: Some(saved), ..st },
                        );
                    } else {
                    },
                }
            }
        } else {
            lemma_split_next_progress(s, SplitState { pos: p + 1, ..st });
        }
    }
}

/// The whole sequence of parameters the splitter emits from state `st` on.
pub open spec fn spec_param_list(s: Seq<char>, st: SplitState) -> Seq<Seq<char>>
    decreases s.len() - st.pos, (if st.start < s.len() || st.pending is Some {
        1int
    } else {
        0int
    }),
    via spec_param_list_decreases
{
    if st.pos < 0 || st.pos > s.len() {
        Seq::empty()
    } else {
        let r = spec_split_next(s, st);
        match r.1 {
            Option::None => Seq::empty(),
            Some(t) => seq![t] + spec_param_list(s, r.0),
        }
    }
}

#[via_fn]
proof fn spec_param_list_decreases(s: Seq<char>, st: SplitState) {
    if 0 <= st.pos <= s.len() {
        lemma_split_next_progress(s, st);
    }
}

/// The parameters of one invocation's raw argument text.
pub open spec fn spec_params(s: Seq<char>) -> Seq<Seq<char>> {
    spec_param_list(s, spec_split_init())
}

/// Splitter over the top-level parameters of one template invocation's raw
/// argument text.
pub struct TemplateParameters {
    pub s: Vec<char>,
    pub pos: usize,
    pub start: usize,
    pub depth: usize,
    pub commentless: Option<Vec<char>>,
    pub invalid: bool,
}

impl TemplateParameters {
    /// The splitter's position fields as a [`SplitState`].
    pub open spec fn st(&self) -> SplitState {
        SplitState {
            pos: self.pos as int,
            start: self.start as int,
            depth: self.depth as int,
            pending: match self.commentless {
                Some(v) => Some(v@),
                Option::None => Option::None,
            },
            invalid: self.invalid,
        }
    }

    /// The state is well formed: the cursor and the parameter start lie
    /// inside the text.
    pub open spec fn wf(&self) -> bool {
        &&& self.pos <= self.s@.len()
        &&& self.start <= self.pos
        &&& self.depth <= self.pos
    }

    pub fn new(s: Vec<char>) -> (r: TemplateParameters)
        ensures
            r.s@ == s@,
            r.st() == (SplitState {
                pos: 0,
                start: 0,
                depth: 0,
                pending: Option::None,
                invalid: false,
            }),
            r.wf(),
    {
        TemplateParameters { s, pos: 0, start: 0, depth: 0, commentless: None, invalid: false }
    }

    /// Move past the next top-level `|` (or to the end of the text) and
    /// return the parameter that ends there, with any embedded comments cut
    /// out; `None` when the text is exhausted or the split has failed.
    pub fn next(&mut self) -> (r: Option<Vec<char>>)
        requires
            old(self).wf(),
        ensures
            final(self).wf(),
            final(self).s@ == old(self).s@,
            ({
                let (st2, item) = spec_split_next(old(self).s@, old(self).st());
                final(self).st() == st2 && match item {
                    Some(t) => r matches Some(v) && v@ == t,
                    Option::None => r is None,
                }
            }),
    {
        loop
            invariant
                self.wf(),
                self.s@ == old(self).s@,
                spec_split_next(old(self).s@, old(self).st()) == spec_split_next(
                    self.s@,
                    self.st(),
                ),
            decreases self.s@.len() - self.pos,
        {
            if self.invalid {
                return None;
            }
            let n = self.s.len();
            if self.pos >= n {
                if self.start < n || self.commentless.is_some() {
                    let mut pending: Option<Vec<char>> = None;
                    core::mem::swap(&mut pending, &mut self.commentless);
                    let mut part = match pending {
                        Some(v) => v,
                        None => Vec::new(),
                    };
                    let mut tail = copy_range(&self.s, self.start, n);
                    part.append(&mut tail);
                    self.start = n;
                    return Some(part);
                } else {
                    return None;
                }
            }
            let ghost prev = self.st();
            let p = self.pos;
            let c = self.s[p];
            if c == '|' && self.depth == 0 {
                let mut pending: Option<Vec<char>> = None;
                core::mem::swap(&mut pending, &mut self.commentless);
                let mut part = match pending {
                    Some(v) => v,
                    None => Vec::new(),
                };
                let mut piece = copy_range(&self.s, self.start, p);
                part.append(&mut piece);
                self.pos = p + 1;
                self.start = p + 1;
                proof {
                    assert(self.st() == SplitState {
                        pos: p + 1,
                        start: p + 1,
                        pending: Option::None,
                        ..prev
                    });
                }
                return Some(part);
            } else if c == '{' || c == '[' {
                let step: usize = if n - p >= 2 && self.s[p + 1] == c {
                    2
                } else {
                    1
                };
                self.pos = p + step;
                self.depth = self.depth + 1;
                proof {
                    assert(self.st() == SplitState {
                        pos: p + step,
                        depth: prev.depth + 1,
                        ..prev
                    });
                }
            } else if c == '}' || c == ']' {
                if self.depth == 0 {
                    self.pos = p + 1;
                    self.invalid = true;
                    proof {
                        assert(self.st() == SplitState { pos: p + 1, invalid: true, ..prev });
                    }
                    return None;
                } else {
                    let step: usize = if n - p >= 2 && self.s[p + 1] == c {
                        2
                    } else {
                        1
                    };
                    self.pos = p + step;
                    self.depth = self.depth - 1;
                    proof {
                        assert(self.st() == SplitState {
                            pos: p + step,
                            depth: prev.depth - 1,
                            ..prev
                        });
                    }
                }
            } else if c == '<' && n - p >= 4 && self.s[p + 1] == '!' && self.s[p + 2] == '-'
                && self.s[p + 3] == '-' {
                let mut pending: Option<Vec<char>> = None;
                core::mem::swap(&mut pending, &mut self.commentless);
                let mut saved = match pending {
                    Some(v) => v,
                    None => Vec::new(),
                };
                let mut piece = copy_range(&self.s, self.start, p);
                saved.append(&mut piece);
                match find_triple(&self.s, p + 4, '-', '-', '>') {
                    None => {
                        self.pos = n;
                        self.commentless = Some(saved);
                        self.invalid = true;
                        proof {
                            assert(self.st() == SplitState {
                                pos: self.s@.len() as int,
                                pending: Some(saved@),
                                invalid: true,
                                ..prev
                            });
                        }
                        return None;
                    },
                    Some(j) => {
                        proof {
                            lemma_find_triple_some(self.s@, p + 4, '-', '-', '>');
                        }
                        self.pos = j + 3;
                        self.start = j + 3;
                        self.commentless = Some(saved);
                        proof {
                            assert(self.st() == SplitState {
                                pos: j + 3,
                                start: j + 3,
                                pending: Some(saved@),
                                ..prev
                            });
                        }
                    },
                }
            } else {
                self.pos = p + 1;
                proof {
                    assert(self.st() == SplitState { pos: p + 1, ..prev });
                }
            }
        }
    }
}

/// All top-level parameters of one invocation's raw argument text, in
/// source order.
pub fn collect_params(arguments: &Vec<char>) -> (r: Vec<Vec<char>>)
    ensures
        r.deep_view() == spec_params(arguments@),
{
    let n = arguments.len();
    let s = copy_range(arguments, 0, n);
    proof {
        assert(s@ =~= arguments@);
    }
    let mut tp = TemplateParameters::new(s);
    let mut out: Vec<Vec<char>> = Vec::new();
    proof {
        assert(out.deep_view() =~= Seq::<Seq<char>>::empty());
        assert(spec_params(arguments@) == out.deep_view() + spec_param_list(
            arguments@,
            tp.st(),
        ));
    }
    loop
        invariant
            tp.wf(),
            tp.s@ == arguments@,
            spec_params(arguments@) == out.deep_view() + spec_param_list(arguments@, tp.st()),
        decreases tp.s@.len() - tp.pos, (if tp.start < tp.s@.len() || tp.commentless is Some {
            1int
        } else {
            0int
        }),
    {
        let ghost prev = tp.st();
        proof {
            lemma_split_next_progress(arguments@, prev);
        }
        match tp.next() {
            Some(v) => {
                let ghost old_out = out.deep_view();
                out.push(v);
                proof {
                    assert(out.deep_view() =~~= old_out.push(v@));
                    assert(spec_param_list(arguments@, prev) == seq![v@] + spec_param_list(
                        arguments@,
                        tp.st(),
                    ));
                    assert(old_out + spec_param_list(arguments@, prev) =~= out.deep_view()
                        + spec_param_list(arguments@, tp.st()));
                }
            },
            None => {
                proof {
                    assert(spec_param_list(arguments@, prev) =~= Seq::<Seq<char>>::empty());
                    assert(spec_params(arguments@) =~= out.deep_view());
                }
                return out;
            },
        }
    }
}

} // verus!
