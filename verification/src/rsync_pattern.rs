//! Compiled rsync-style glob patterns and the backtracking matcher.
//!
//! A pattern line is compiled once into an `RsyncPattern`: anchoring
//! flags plus an ordered sequence of match atoms. Matching a candidate
//! path is a pure function of the compiled pattern, the path bytes and
//! whether the path names a directory (expressed by a trailing `/` on
//! the candidate).

use vstd::prelude::*;

verus! {

/// Byte values the pattern grammar treats specially.
pub const SLASH: u8 = 47;

pub const STAR: u8 = 42;

pub const QUESTION: u8 = 63;

pub const LBRACKET: u8 = 91;

pub const RBRACKET: u8 = 93;

pub const BACKSLASH: u8 = 92;

pub const CARET: u8 = 94;

pub const DASH: u8 = 45;

pub const COLON: u8 = 58;

/// One step of a compiled pattern, in executable form.
#[derive(Debug, Clone)]
pub enum MatchAtom {
    /// A run of bytes that must appear verbatim.
    Literal(Vec<u8>),
    /// `?`: exactly one byte, any value.
    AnyByte,
    /// `*`: any run of bytes not containing `/`.
    ZeroOrMoreNonSlash,
    /// `**`: any run of bytes, `/` included.
    ZeroOrMore,
    /// `[...]`: one byte inside one of the inclusive ranges.
    ByteInSet(Vec<(u8, u8)>),
    /// `[^...]`: one byte inside none of the inclusive ranges.
    ByteNotInSet(Vec<(u8, u8)>),
    /// The `/***` suffix: the directory itself or anything beneath it.
    DirectoryOrAny,
}

/// The mathematical model of a match atom, over `Seq` instead of `Vec`.
pub enum Atom {
    Literal(Seq<u8>),
    AnyByte,
    ZeroOrMoreNonSlash,
    ZeroOrMore,
    ByteInSet(Seq<(u8, u8)>),
    ByteNotInSet(Seq<(u8, u8)>),
    DirectoryOrAny,
}

/// Why a pattern line failed to compile.
#[derive(Debug, Clone, Copy, PartialEq, Eq, Structural)]
pub enum PatternError {
    /// The line ends in a lone `\` that escapes nothing.
    TrailingBackslash,
    /// A `[` was opened and never closed by `]`.
    UnterminatedSet,
    /// POSIX class syntax `[:name:]` is not supported.
    PosixClassUnsupported,
    /// A character-set bound at or above 0x80 is not supported.
    NonAsciiSet,
    /// `***` occurred somewhere other than as a whole `/***` suffix.
    MisplacedTripleStar,
}

/// A compiled, immutable pattern.
#[derive(Debug, Clone)]
pub struct RsyncPattern {
    /// The pattern began with `/`: it matches from the root only.
    pub anchor_start: bool,
    /// The pattern ended with `/`: it matches directories only.
    pub req_dir: bool,
    /// The pattern text contained a `/`: match against the whole
    /// relative path, not only the final segment.
    pub full_path: bool,
    /// The compiled atoms, evaluated left to right.
    pub pattern: Vec<MatchAtom>,
    /// The verbatim source bytes, kept for diagnostics.
    pub original: Vec<u8>,
}

impl View for MatchAtom {
    type V = Atom;

    open spec fn view(&self) -> Atom {
        match self {
            MatchAtom::Literal(w) => Atom::Literal(w@),
            MatchAtom::AnyByte => Atom::AnyByte,
            MatchAtom::ZeroOrMoreNonSlash => Atom::ZeroOrMoreNonSlash,
            MatchAtom::ZeroOrMore => Atom::ZeroOrMore,
            MatchAtom::ByteInSet(s) => Atom::ByteInSet(s@),
            MatchAtom::ByteNotInSet(s) => Atom::ByteNotInSet(s@),
            MatchAtom::DirectoryOrAny => Atom::DirectoryOrAny,
        }
    }
}

/// The model of a compiled atom sequence.
pub open spec fn atoms_model(atoms: Seq<MatchAtom>) -> Seq<Atom> {
    Seq::new(atoms.len(), |i: int| atoms[i]@)
}

/// `b` falls within one of the inclusive ranges of `set`.
pub open spec fn in_ranges(set: Seq<(u8, u8)>, b: u8) -> bool {
    exists|i: int| 0 <= i < set.len() && (#[trigger] set[i]).0 <= b <= set[i].1
}

/// No byte of `s` in the half-open index range `[from, to)` is `/`.
pub open spec fn no_slash(s: Seq<u8>, from: int, to: int) -> bool {
    forall|j: int| from <= j < to ==> s[j] != SLASH
}

/// The atoms of `atoms` from index `ai` on match exactly the bytes of
/// `s` from index `i` to the end. `dir` tells whether the candidate
/// names a directory, which only the `/***` atom consults. A wildcard
/// first tries to match the rest of the pattern here, then consumes
/// one byte and tries again: exactly the backtracking the matcher
/// performs.
pub open spec fn atoms_match_at(s: Seq<u8>, i: int, atoms: Seq<Atom>, ai: int, dir: bool) -> bool
    decreases atoms.len() - ai, s.len() - i,
{
    if ai < 0 || ai >= atoms.len() {
        i == s.len()
    } else {
        match atoms[ai] {
            Atom::Literal(w) => i + w.len() <= s.len()
                && (forall|j: int| 0 <= j < w.len() ==> s[i + j] == w[j])
                && atoms_match_at(s, i + w.len(), atoms, ai + 1, dir),
            Atom::AnyByte => i < s.len() && atoms_match_at(s, i + 1, atoms, ai + 1, dir),
            Atom::ByteInSet(set) => i < s.len() && in_ranges(set, s[i])
                && atoms_match_at(s, i + 1, atoms, ai + 1, dir),
            Atom::ByteNotInSet(set) => i < s.len() && !in_ranges(set, s[i])
                && atoms_match_at(s, i + 1, atoms, ai + 1, dir),
            Atom::ZeroOrMore => if ai + 1 == atoms.len() {
                true
            } else {
                atoms_match_at(s, i, atoms, ai + 1, dir)
                    || (i < s.len() && atoms_match_at(s, i + 1, atoms, ai, dir))
            },
            Atom::ZeroOrMoreNonSlash => if ai + 1 == atoms.len() {
                no_slash(s, i, s.len() as int)
            } else {
                atoms_match_at(s, i, atoms, ai + 1, dir)
                    || (i < s.len() && s[i] != SLASH
                        && atoms_match_at(s, i + 1, atoms, ai, dir))
            },
            Atom::DirectoryOrAny => (i < s.len() && s[i] == SLASH) || (i == s.len() && dir),
        }
    }
}

/// The index right after the last `/` of `s`, or `0` when `s` holds no
/// `/`: where the final path segment begins.
pub open spec fn last_seg_start(s: Seq<u8>) -> int
    decreases s.len(),
{
    if s.len() == 0 {
        0
    } else if s[s.len() - 1] == SLASH {
        s.len() as int
    } else {
        last_seg_start(s.drop_last())
    }
}

/// The pattern applied to an already-stripped candidate: `s` no longer
/// carries the trailing `/`; `is_dir` remembers whether it was there.
pub open spec fn spec_matches_stripped(p: RsyncPattern, s: Seq<u8>, is_dir: bool) -> bool {
    let atoms = atoms_model(p.pattern@);
    if p.req_dir && !is_dir {
        false
    } else if p.full_path {
        if p.anchor_start {
            atoms_match_at(s, 0, atoms, 0, is_dir)
        } else {
            exists|pos: int| 0 <= pos <= s.len()
                && (pos == 0 || s[pos - 1] == SLASH)
                && #[trigger] atoms_match_at(s, pos, atoms, 0, is_dir)
        }
    } else {
        atoms_match_at(s, last_seg_start(s), atoms, 0, is_dir)
    }
}

/// What `RsyncPattern::matches` decides, as a pure function of the
/// compiled pattern and the raw candidate bytes. A trailing `/` on the
/// candidate marks it as a directory and is not itself matched.
pub open spec fn spec_matches(p: RsyncPattern, src: Seq<u8>) -> bool {
    if src.len() > 0 && src[src.len() - 1] == SLASH {
        spec_matches_stripped(p, src.drop_last(), true)
    } else {
        spec_matches_stripped(p, src, false)
    }
}

/// `b` falls within one of the inclusive ranges of `set`.
fn byte_in_set(b: u8, set: &Vec<(u8, u8)>) -> (r: bool)
    ensures
        r == in_ranges(set@, b),
{
    let mut i: usize = 0;
    while i < set.len()
        invariant
            i <= set@.len(),
            forall|q: int| 0 <= q < i ==> !((#[trigger] set@[q]).0 <= b <= set@[q].1),
        decreases set@.len() - i,
    {
        let (start, end) = set[i];
        if b >= start && b <= end {
            return true;
        }
        i += 1;
    }
    false
}

/// The bytes of `w` appear verbatim in `cand` starting at index `i`.
fn literal_at(cand: &[u8], i: usize, w: &Vec<u8>) -> (r: bool)
    requires
        i <= cand@.len(),
    ensures
        r == (i + w@.len() <= cand@.len()
            && (forall|j: int| 0 <= j < w@.len() ==> cand@[i + j] == w@[j])),
{
    let n = cand.len();
    let m = w.len();
    if n - i < m {
        return false;
    }
    let mut j: usize = 0;
    while j < m
        invariant
            n == cand@.len(),
            m == w@.len(),
            j <= m,
            i + m <= n,
            forall|q: int| 0 <= q < j ==> cand@[i + q] == w@[q],
        decreases m - j,
    {
        if cand[i + j] != w[j] {
            return false;
        }
        j += 1;
    }
    true
}

/// No byte of `cand` from index `from` to the end is `/`.
fn no_slash_from(cand: &[u8], from: usize) -> (r: bool)
    requires
        from <= cand@.len(),
    ensures
        r == no_slash(cand@, from as int, cand@.len() as int),
{
    let mut j: usize = from;
    while j < cand.len()
        invariant
            from <= j <= cand@.len(),
            no_slash(cand@, from as int, j as int),
        decreases cand@.len() - j,
    {
        if cand[j] == SLASH {
            return false;
        }
        j += 1;
    }
    true
}

/// Left-to-right atom evaluation with backtracking for the wildcard
/// atoms, exactly as `atoms_match_at` states it.
fn pattern_matches(cand: &[u8], i: usize, atoms: &Vec<MatchAtom>, ai: usize, dir: bool) -> (r: bool)
    requires
        i <= cand@.len(),
        ai <= atoms@.len(),
    ensures
        r == atoms_match_at(cand@, i as int, atoms_model(atoms@), ai as int, dir),
    decreases atoms@.len() - ai,
{
    let ghost model = atoms_model(atoms@);
    let n = cand.len();
    let alen = atoms.len();
    if ai == alen {
        return i == n;
    }
    proof {
        assert(model[ai as int] == atoms@[ai as int]@);
    }
    match &atoms[ai] {
        MatchAtom::Literal(w) => {
            if literal_at(cand, i, w) {
                pattern_matches(cand, i + w.len(), atoms, ai + 1, dir)
            } else {
                false
            }
        },
        MatchAtom::AnyByte => {
            if i == n {
                false
            } else {
                pattern_matches(cand, i + 1, atoms, ai + 1, dir)
            }
        },
        MatchAtom::ByteInSet(set) => {
            if i == n {
                false
            } else if !byte_in_set(cand[i], set) {
                false
            } else {
                pattern_matches(cand, i + 1, atoms, ai + 1, dir)
            }
        },
        MatchAtom::ByteNotInSet(set) => {
            if i == n {
                false
            } else if byte_in_set(cand[i], set) {
                false
            } else {
                pattern_matches(cand, i + 1, atoms, ai + 1, dir)
            }
        },
        MatchAtom::ZeroOrMore => {
            if ai + 1 == alen {
                return true;
            }
            let mut k: usize = i;
            loop
                invariant
                    n == cand@.len(),
                    alen == atoms@.len(),
                    i <= k <= n,
                    ai + 1 < alen,
                    model == atoms_model(atoms@),
                    model[ai as int] == Atom::ZeroOrMore,
                    atoms_match_at(cand@, i as int, model, ai as int, dir)
                        == atoms_match_at(cand@, k as int, model, ai as int, dir),
                ensures
                    !atoms_match_at(cand@, i as int, model, ai as int, dir),
                decreases n - k,
            {
                if pattern_matches(cand, k, atoms, ai + 1, dir) {
                    return true;
                }
                if k == n {
                    break;
                }
                k += 1;
            }
            false
        },
        MatchAtom::ZeroOrMoreNonSlash => {
            if ai + 1 == alen {
                return no_slash_from(cand, i);
            }
            let mut k: usize = i;
            loop
                invariant
                    n == cand@.len(),
                    alen == atoms@.len(),
                    i <= k <= n,
                    ai + 1 < alen,
                    model == atoms_model(atoms@),
                    model[ai as int] == Atom::ZeroOrMoreNonSlash,
                    atoms_match_at(cand@, i as int, model, ai as int, dir)
                        == atoms_match_at(cand@, k as int, model, ai as int, dir),
                ensures
                    !atoms_match_at(cand@, i as int, model, ai as int, dir),
                decreases n - k,
            {
                if pattern_matches(cand, k, atoms, ai + 1, dir) {
                    return true;
                }
                if k == n {
                    break;
                }
                if cand[k] == SLASH {
                    break;
                }
                k += 1;
            }
            false
        },
        MatchAtom::DirectoryOrAny => {
            if i < n {
                cand[i] == SLASH
            } else {
                dir
            }
        },
    }
}

/// Scans a byte string for `/` from the end toward the start. Each
/// call of `next` yields the index just past the next `/` found, the
/// candidate offsets at which a slash-containing pattern may match.
pub struct SlashFinder<'a> {
    cur: &'a [u8],
}

impl<'a> SlashFinder<'a> {
    /// The bytes still to be scanned.
    pub closed spec fn remaining(&self) -> Seq<u8> {
        self.cur@
    }

    pub fn new(src: &'a [u8]) -> (r: SlashFinder<'a>)
        ensures
            r.remaining() == src@,
    {
        SlashFinder { cur: src }
    }

    /// The index just past the last `/` of the remaining bytes, if
    /// any; scanning resumes just before that `/`.
    pub fn next(&mut self) -> (r: Option<usize>)
        ensures
            (match r {
                Some(pos) => 1 <= pos <= old(self).remaining().len()
                    && old(self).remaining()[pos - 1] == SLASH
                    && no_slash(old(self).remaining(), pos as int, old(self).remaining().len() as int)
                    && final(self).remaining() == old(self).remaining().take(pos - 1),
                None => no_slash(old(self).remaining(), 0, old(self).remaining().len() as int)
                    && final(self).remaining().len() == 0,
            }),
    {
        loop
            invariant
                self.cur@.len() <= old(self).cur@.len(),
                self.cur@ == old(self).cur@.take(self.cur@.len() as int),
                no_slash(old(self).cur@, self.cur@.len() as int, old(self).cur@.len() as int),
            decreases self.cur@.len(),
        {
            let len = self.cur.len();
            if len == 0 {
                return None;
            }
            let c = self.cur;
            self.cur = &c[0..len - 1];
            if c[len - 1] == SLASH {
                return Some(len);
            }
        }
    }
}

/// `last_seg_start` is the only cut that begins at the start or right
/// after a `/` and leaves no further `/` behind it.
pub proof fn lemma_last_seg_start(s: Seq<u8>)
    ensures
        0 <= last_seg_start(s) <= s.len(),
        last_seg_start(s) == 0 || s[last_seg_start(s) - 1] == SLASH,
        no_slash(s, last_seg_start(s), s.len() as int),
    decreases s.len(),
{
    if s.len() > 0 && s[s.len() - 1] != SLASH {
        lemma_last_seg_start(s.drop_last());
        assert forall|j: int| last_seg_start(s) <= j < s.len() implies s[j] != SLASH by {
            if j < s.len() - 1 {
                assert(s.drop_last()[j] != SLASH);
            }
        }
    }
}

/// Any cut with the properties of `lemma_last_seg_start` is
/// `last_seg_start` itself.
pub proof fn lemma_last_seg_start_unique(s: Seq<u8>, pos: int)
    requires
        0 <= pos <= s.len(),
        pos == 0 || s[pos - 1] == SLASH,
        no_slash(s, pos, s.len() as int),
    ensures
        pos == last_seg_start(s),
    decreases s.len(),
{
    if s.len() == 0 {
    } else if s[s.len() - 1] == SLASH {
        assert(pos == s.len());
    } else {
        assert(pos < s.len());
        lemma_last_seg_start_unique(s.drop_last(), pos);
    }
}

impl RsyncPattern {
    /// Decides whether the pattern matches the candidate path. The
    /// candidate is relative: it never begins with `/`; a trailing `/`
    /// marks it as naming a directory.
    pub fn matches(&self, src: &[u8]) -> (r: bool)
        requires
            src@.len() == 0 || src@[0] != SLASH,
        ensures
            r == spec_matches(*self, src@),
    {
        let n = src.len();
        let is_dir = n > 0 && src[n - 1] == SLASH;
        let cand: &[u8] = if is_dir { &src[0..n - 1] } else { src };
        proof {
            if is_dir {
                assert(cand@ =~= src@.drop_last());
            }
        }
        if self.req_dir && !is_dir {
            return false;
        }
        let ghost model = atoms_model(self.pattern@);
        let m = cand.len();
        if self.full_path {
            if !self.anchor_start {
                let mut finder = SlashFinder::new(cand);
                loop
                    invariant
                        finder.remaining().len() <= cand@.len(),
                        finder.remaining() == cand@.take(finder.remaining().len() as int),
                        model == atoms_model(self.pattern@),
                        self.full_path,
                        !self.anchor_start,
                        !(self.req_dir && !is_dir),
                        spec_matches(*self, src@) == spec_matches_stripped(*self, cand@, is_dir),
                        forall|q: int| finder.remaining().len() < q <= cand@.len()
                            && cand@[q - 1] == SLASH
                            ==> !(#[trigger] atoms_match_at(cand@, q, model, 0, is_dir)),
                    ensures
                        forall|q: int| 0 < q <= cand@.len() && cand@[q - 1] == SLASH
                            ==> !(#[trigger] atoms_match_at(cand@, q, model, 0, is_dir)),
                    decreases finder.remaining().len(),
                {
                    let ghost before = finder.remaining();
                    match finder.next() {
                        Some(pos) => {
                            proof {
                                assert(before[pos - 1] == cand@[pos - 1]);
                                assert forall|q: int| pos < q <= before.len()
                                    implies #[trigger] cand@[q - 1] != SLASH by {
                                    assert(before[q - 1] == cand@[q - 1]);
                                }
                            }
                            if pattern_matches(cand, pos, &self.pattern, 0, is_dir) {
                                proof {
                                    assert(spec_matches_stripped(*self, cand@, is_dir));
                                }
                                return true;
                            }
                        },
                        None => {
                            proof {
                                assert forall|q: int| 0 < q <= cand@.len()
                                    && cand@[q - 1] == SLASH
                                    implies !atoms_match_at(cand@, q, model, 0, is_dir) by {
                                    if q <= before.len() {
                                        assert(before[q - 1] == cand@[q - 1]);
                                    }
                                }
                            }
                            break;
                        },
                    }
                }
            }
            let r0 = pattern_matches(cand, 0, &self.pattern, 0, is_dir);
            proof {
                if !self.anchor_start && !r0 && spec_matches_stripped(*self, cand@, is_dir) {
                    let pos = choose|pos: int| 0 <= pos <= cand@.len()
                        && (pos == 0 || cand@[pos - 1] == SLASH)
                        && #[trigger] atoms_match_at(cand@, pos, atoms_model(self.pattern@), 0, is_dir);
                    assert(false);
                }
            }
            r0
        } else {
            let mut finder = SlashFinder::new(cand);
            let start = match finder.next() {
                Some(pos) => {
                    proof {
                        lemma_last_seg_start_unique(cand@, pos as int);
                    }
                    pos
                },
                None => {
                    proof {
                        lemma_last_seg_start_unique(cand@, 0);
                    }
                    0
                },
            };
            pattern_matches(cand, start, &self.pattern, 0, is_dir)
        }
    }

    /// The verbatim bytes the pattern was compiled from.
    pub fn get_original_form(&self) -> (r: &[u8])
        ensures
            r@ == self.original@,
    {
        self.original.as_slice()
    }
}

/// Pushing one executable atom extends the model by its view.
pub proof fn lemma_model_push(atoms: Seq<MatchAtom>, x: MatchAtom)
    ensures
        atoms_model(atoms.push(x)) == atoms_model(atoms).push(x@),
{
    assert(atoms_model(atoms.push(x)) =~= atoms_model(atoms).push(x@));
}

/// `?` consumes exactly one byte of any value: a pattern tail made
/// only of `AnyByte` atoms matches exactly when as many bytes remain
/// as atoms.
pub proof fn lemma_any_bytes_count(s: Seq<u8>, i: int, atoms: Seq<Atom>, ai: int, dir: bool)
    requires
        forall|q: int| 0 <= q < atoms.len() ==> (#[trigger] atoms[q]) is AnyByte,
        0 <= ai <= atoms.len(),
        0 <= i <= s.len(),
    ensures
        atoms_match_at(s, i, atoms, ai, dir) == (s.len() - i == atoms.len() - ai),
    decreases atoms.len() - ai,
{
    if ai < atoms.len() && i < s.len() {
        lemma_any_bytes_count(s, i + 1, atoms, ai + 1, dir);
    }
}

/// A single-literal pattern tail matches the rest of `s` exactly
/// when the rest of `s` is that literal.
proof fn lemma_single_literal_atoms(s: Seq<u8>, i: int, atoms: Seq<Atom>, dir: bool)
    requires
        atoms.len() == 1,
        atoms[0] is Literal,
        0 <= i <= s.len(),
    ensures
        atoms_match_at(s, i, atoms, 0, dir) == (s.skip(i) == atoms[0]->Literal_0),
{
    let w = atoms[0]->Literal_0;
    reveal_with_fuel(atoms_match_at, 2);
    if atoms_match_at(s, i, atoms, 0, dir) {
        assert(i + w.len() == s.len());
        assert forall|j: int| 0 <= j < w.len() implies s.skip(i)[j] == w[j] by {
            assert(s[i + j] == w[j]);
        }
        assert(s.skip(i) =~= w);
    } else if s.skip(i) == w {
        assert(i + w.len() <= s.len());
        assert forall|j: int| 0 <= j < w.len() implies s[i + j] == w[j] by {
            assert(s.skip(i)[j] == s[i + j]);
        }
        assert(atoms_match_at(s, i + w.len(), atoms, 1, dir));
        assert(false);
    }
}

/// For a pattern with no metacharacter — compiled to one literal
/// atom — matching is exact byte comparison, governed by the three
/// flags: a directory-only pattern needs a directory; an anchored
/// pattern must equal the whole candidate; an unanchored slash-
/// containing pattern must equal the whole candidate or a suffix
/// that begins right after a `/`; a single-segment pattern must
/// equal the candidate's final segment.
pub proof fn lemma_literal_pattern_exact(p: RsyncPattern, src: Seq<u8>)
    requires
        p.pattern@.len() == 1,
        p.pattern@[0]@ is Literal,
    ensures
        ({
            let is_dir = src.len() > 0 && src[src.len() - 1] == SLASH;
            let s = if is_dir { src.drop_last() } else { src };
            let w = p.pattern@[0]@->Literal_0;
            spec_matches(p, src) == ((!p.req_dir || is_dir) && (if p.full_path {
                if p.anchor_start {
                    s == w
                } else {
                    s == w || (s.len() > w.len() && s.skip(s.len() - w.len()) == w && s[s.len()
                        - w.len() - 1] == SLASH)
                }
            } else {
                s.skip(last_seg_start(s)) == w
            }))
        }),
{
    let is_dir = src.len() > 0 && src[src.len() - 1] == SLASH;
    let s = if is_dir { src.drop_last() } else { src };
    let w = p.pattern@[0]@->Literal_0;
    let atoms = atoms_model(p.pattern@);
    assert(atoms.len() == 1 && atoms[0] == p.pattern@[0]@);
    assert(spec_matches(p, src) == spec_matches_stripped(p, s, is_dir));
    if p.req_dir && !is_dir {
    } else if p.full_path && !p.anchor_start {
        if spec_matches_stripped(p, s, is_dir) {
            let pos = choose|pos: int| 0 <= pos <= s.len() && (pos == 0 || s[pos - 1] == SLASH)
                && #[trigger] atoms_match_at(s, pos, atoms, 0, is_dir);
            lemma_single_literal_atoms(s, pos, atoms, is_dir);
            assert(s.skip(pos) == w);
            assert(pos == s.len() - w.len());
            if pos == 0 {
                assert(s =~= w);
            }
        }
        if s == w {
            lemma_single_literal_atoms(s, 0, atoms, is_dir);
            assert(s.skip(0) =~= s);
            assert(atoms_match_at(s, 0, atoms, 0, is_dir));
            assert(spec_matches_stripped(p, s, is_dir));
        } else if s.len() > w.len() && s.skip(s.len() - w.len()) == w && s[s.len() - w.len()
            - 1] == SLASH {
            let pos = s.len() - w.len();
            lemma_single_literal_atoms(s, pos, atoms, is_dir);
            assert(atoms_match_at(s, pos, atoms, 0, is_dir));
            assert(spec_matches_stripped(p, s, is_dir));
        }
    } else if p.full_path {
        lemma_single_literal_atoms(s, 0, atoms, is_dir);
        assert(s.skip(0) =~= s);
    } else {
        lemma_last_seg_start(s);
        lemma_single_literal_atoms(s, last_seg_start(s), atoms, is_dir);
    }
}

/// `**` means: some number of bytes, slashes included, may be
/// consumed before the rest of the pattern matches.
pub proof fn lemma_zero_or_more_exists(s: Seq<u8>, i: int, atoms: Seq<Atom>, ai: int, dir: bool)
    requires
        0 <= i <= s.len(),
        0 <= ai,
        ai + 1 < atoms.len(),
        atoms[ai] is ZeroOrMore,
    ensures
        atoms_match_at(s, i, atoms, ai, dir) <==> exists|k: int|
            i <= k <= s.len() && #[trigger] atoms_match_at(s, k, atoms, ai + 1, dir),
    decreases s.len() - i,
{
    if i < s.len() {
        lemma_zero_or_more_exists(s, i + 1, atoms, ai, dir);
    }
    if atoms_match_at(s, i, atoms, ai, dir) {
        if atoms_match_at(s, i, atoms, ai + 1, dir) {
        } else {
            assert(i < s.len() && atoms_match_at(s, i + 1, atoms, ai, dir));
        }
    }
    if exists|k: int| i <= k <= s.len() && #[trigger] atoms_match_at(s, k, atoms, ai + 1, dir) {
        let k = choose|k: int| i <= k <= s.len() && #[trigger] atoms_match_at(
            s,
            k,
            atoms,
            ai + 1,
            dir,
        );
        if k == i {
            assert(atoms_match_at(s, i, atoms, ai, dir));
        } else {
            assert(atoms_match_at(s, i + 1, atoms, ai, dir));
        }
    }
}

/// `*` means the same, but the consumed bytes may not cross a `/`.
pub proof fn lemma_zero_or_more_non_slash_exists(
    s: Seq<u8>,
    i: int,
    atoms: Seq<Atom>,
    ai: int,
    dir: bool,
)
    requires
        0 <= i <= s.len(),
        0 <= ai,
        ai + 1 < atoms.len(),
        atoms[ai] is ZeroOrMoreNonSlash,
    ensures
        atoms_match_at(s, i, atoms, ai, dir) <==> exists|k: int|
            i <= k <= s.len() && no_slash(s, i, k) && #[trigger] atoms_match_at(
                s,
                k,
                atoms,
                ai + 1,
                dir,
            ),
    decreases s.len() - i,
{
    if i < s.len() {
        lemma_zero_or_more_non_slash_exists(s, i + 1, atoms, ai, dir);
    }
    if atoms_match_at(s, i, atoms, ai, dir) {
        if atoms_match_at(s, i, atoms, ai + 1, dir) {
            assert(no_slash(s, i, i));
        } else {
            assert(i < s.len() && s[i] != SLASH && atoms_match_at(s, i + 1, atoms, ai, dir));
            let k = choose|k: int|
                i + 1 <= k <= s.len() && no_slash(s, i + 1, k) && #[trigger] atoms_match_at(
                    s,
                    k,
                    atoms,
                    ai + 1,
                    dir,
                );
            assert(no_slash(s, i, k));
        }
    }
    if exists|k: int|
        i <= k <= s.len() && no_slash(s, i, k) && #[trigger] atoms_match_at(
            s,
            k,
            atoms,
            ai + 1,
            dir,
        ) {
        let k = choose|k: int|
            i <= k <= s.len() && no_slash(s, i, k) && #[trigger] atoms_match_at(
                s,
                k,
                atoms,
                ai + 1,
                dir,
            );
        if k == i {
            assert(atoms_match_at(s, i, atoms, ai, dir));
        } else {
            assert(s[i] != SLASH);
            assert(no_slash(s, i + 1, k));
            assert(atoms_match_at(s, i + 1, atoms, ai, dir));
        }
    }
}

} // verus!
