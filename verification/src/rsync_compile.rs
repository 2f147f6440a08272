//! Compilation of one raw pattern line into an `RsyncPattern`.
//!
//! The grammar: a leading `/` anchors, a trailing `/` restricts to
//! directories, and the stripped body is either a single literal (no
//! metacharacter at all) or a scanned sequence of atoms. `scan` and
//! `scan_set` state the scanning byte for byte; `RsyncPattern::new`
//! implements it and is proved equal to them.

use vstd::prelude::*;

use crate::rsync_pattern::Atom;
use crate::rsync_pattern::MatchAtom;
use crate::rsync_pattern::PatternError;
use crate::rsync_pattern::RsyncPattern;
use crate::rsync_pattern::atoms_model;
use crate::rsync_pattern::lemma_model_push;
use crate::rsync_pattern::BACKSLASH;
use crate::rsync_pattern::CARET;
use crate::rsync_pattern::COLON;
use crate::rsync_pattern::DASH;
use crate::rsync_pattern::LBRACKET;
use crate::rsync_pattern::QUESTION;
use crate::rsync_pattern::RBRACKET;
use crate::rsync_pattern::SLASH;
use crate::rsync_pattern::STAR;

verus! {

/// `b` is one of the three metacharacters that force the scanning
/// path of the compiler.
pub open spec fn is_meta(b: u8) -> bool {
    b == STAR || b == QUESTION || b == LBRACKET
}

/// Some byte of `s` is a metacharacter.
pub open spec fn has_meta(s: Seq<u8>) -> bool {
    exists|i: int| 0 <= i < s.len() && is_meta(#[trigger] s[i])
}

/// The pattern began with `/`.
pub open spec fn spec_anchor_start(src: Seq<u8>) -> bool {
    src.len() > 0 && src[0] == SLASH
}

/// After the optional leading `/` is stripped, the pattern ends with
/// `/`.
pub open spec fn spec_req_dir(src: Seq<u8>) -> bool {
    if spec_anchor_start(src) {
        src.len() > 1 && src[src.len() - 1] == SLASH
    } else {
        src.len() > 0 && src[src.len() - 1] == SLASH
    }
}

/// The pattern text contains a `/` anywhere.
pub open spec fn spec_full_path(src: Seq<u8>) -> bool {
    exists|i: int| 0 <= i < src.len() && #[trigger] src[i] == SLASH
}

/// The body of the pattern: the source with the anchoring `/` and the
/// directory `/` stripped.
pub open spec fn pattern_body(src: Seq<u8>) -> Seq<u8> {
    let t = if spec_anchor_start(src) { src.drop_first() } else { src };
    if t.len() > 0 && t[t.len() - 1] == SLASH {
        t.drop_last()
    } else {
        t
    }
}

/// Pending literal bytes become one `Literal` atom; none, no atom.
pub open spec fn flush(acc: Seq<Atom>, lits: Seq<u8>) -> Seq<Atom> {
    if lits.len() > 0 {
        acc.push(Atom::Literal(lits))
    } else {
        acc
    }
}

/// Scanning of a `[...]` character set, from index `pos` of `s`, with
/// the members collected so far in `set`. A `]` closes the set only
/// once it holds a member; each member is one byte or an `a-b` range;
/// bounds must be ASCII; POSIX class syntax and an unclosed set fail.
/// Returns the members and the index just past the closing `]`.
pub open spec fn scan_set(s: Seq<u8>, pos: int, set: Seq<(u8, u8)>) -> Result<
    (Seq<(u8, u8)>, int),
    PatternError,
>
    decreases s.len() - pos,
{
    if pos < 0 || pos >= s.len() {
        Err(PatternError::UnterminatedSet)
    } else if set.len() > 0 && s[pos] == RBRACKET {
        Ok((set, pos + 1))
    } else if pos + 1 < s.len() && s[pos] == LBRACKET && s[pos + 1] == COLON {
        Err(PatternError::PosixClassUnsupported)
    } else if pos + 1 < s.len() && s[pos + 1] == DASH {
        if pos + 2 >= s.len() {
            Err(PatternError::UnterminatedSet)
        } else if s[pos] >= 128 || s[pos + 2] >= 128 {
            Err(PatternError::NonAsciiSet)
        } else {
            scan_set(s, pos + 3, set.push((s[pos], s[pos + 2])))
        }
    } else if s[pos] >= 128 {
        Err(PatternError::NonAsciiSet)
    } else {
        scan_set(s, pos + 1, set.push((s[pos], s[pos])))
    }
}

/// A successful set scan ends past where it began and within `s`.
pub proof fn lemma_scan_set_bounds(s: Seq<u8>, pos: int, set: Seq<(u8, u8)>)
    requires
        scan_set(s, pos, set) is Ok,
    ensures
        pos < scan_set(s, pos, set)->Ok_0.1 <= s.len(),
    decreases s.len() - pos,
{
    if 0 <= pos < s.len() {
        if set.len() > 0 && s[pos] == RBRACKET {
        } else if pos + 1 < s.len() && s[pos] == LBRACKET && s[pos + 1] == COLON {
        } else if pos + 1 < s.len() && s[pos + 1] == DASH {
            if pos + 2 < s.len() && s[pos] < 128 && s[pos + 2] < 128 {
                lemma_scan_set_bounds(s, pos + 3, set.push((s[pos], s[pos + 2])));
            }
        } else if s[pos] < 128 {
            lemma_scan_set_bounds(s, pos + 1, set.push((s[pos], s[pos])));
        }
    }
}

/// Scanning of the pattern body from index `pos`, with the pending
/// literal bytes in `lits` and the atoms already emitted in `acc`.
pub open spec fn scan(s: Seq<u8>, pos: int, lits: Seq<u8>, acc: Seq<Atom>) -> Result<
    Seq<Atom>,
    PatternError,
>
    decreases s.len() - pos,
    via scan_decreases
{
    if pos < 0 || pos >= s.len() {
        Ok(flush(acc, lits))
    } else {
        let b = s[pos];
        if b == BACKSLASH {
            if pos + 1 >= s.len() {
                Err(PatternError::TrailingBackslash)
            } else {
                scan(s, pos + 2, lits.push(s[pos + 1]), acc)
            }
        } else if b == LBRACKET {
            let inv = pos + 1 < s.len() && s[pos + 1] == CARET;
            let sp = if inv { pos + 2 } else { pos + 1 };
            match scan_set(s, sp, Seq::empty()) {
                Err(e) => Err(e),
                Ok(r) => scan(
                    s,
                    r.1,
                    Seq::empty(),
                    flush(acc, lits).push(
                        if inv {
                            Atom::ByteNotInSet(r.0)
                        } else {
                            Atom::ByteInSet(r.0)
                        },
                    ),
                ),
            }
        } else if b == QUESTION {
            scan(s, pos + 1, Seq::empty(), flush(acc, lits).push(Atom::AnyByte))
        } else if b == STAR {
            if pos + 2 < s.len() && s[pos + 1] == STAR && s[pos + 2] == STAR {
                Err(PatternError::MisplacedTripleStar)
            } else if pos + 1 < s.len() && s[pos + 1] == STAR {
                scan(s, pos + 2, Seq::empty(), flush(acc, lits).push(Atom::ZeroOrMore))
            } else {
                scan(s, pos + 1, Seq::empty(), flush(acc, lits).push(Atom::ZeroOrMoreNonSlash))
            }
        } else if b == SLASH && pos + 4 == s.len() && s[pos + 1] == STAR && s[pos + 2] == STAR
            && s[pos + 3] == STAR {
            Ok(flush(acc, lits).push(Atom::DirectoryOrAny))
        } else {
            scan(s, pos + 1, lits.push(b), acc)
        }
    }
}

#[via_fn]
proof fn scan_decreases(s: Seq<u8>, pos: int, lits: Seq<u8>, acc: Seq<Atom>) {
    if 0 <= pos < s.len() && s[pos] == LBRACKET {
        let inv = pos + 1 < s.len() && s[pos + 1] == CARET;
        let sp = if inv { pos + 2 } else { pos + 1 };
        if scan_set(s, sp, Seq::empty()) is Ok {
            lemma_scan_set_bounds(s, sp, Seq::empty());
        }
    }
}

/// The rest of the `[...]` handling once scanning stands at `sp`
/// inside the set: finish the set, then scan on after it.
pub open spec fn after_set_from(
    s: Seq<u8>,
    sp: int,
    set: Seq<(u8, u8)>,
    inv: bool,
    acc: Seq<Atom>,
) -> Result<Seq<Atom>, PatternError> {
    match scan_set(s, sp, set) {
        Err(e) => Err(e),
        Ok(r) => scan(
            s,
            r.1,
            Seq::empty(),
            acc.push(
                if inv {
                    Atom::ByteNotInSet(r.0)
                } else {
                    Atom::ByteInSet(r.0)
                },
            ),
        ),
    }
}

/// A successful scan emits at least the atoms already accumulated,
/// and something more when input bytes or pending literals remain.
pub proof fn lemma_scan_len(s: Seq<u8>, pos: int, lits: Seq<u8>, acc: Seq<Atom>)
    requires
        scan(s, pos, lits, acc) is Ok,
    ensures
        scan(s, pos, lits, acc)->Ok_0.len() >= acc.len(),
        (0 <= pos < s.len() || lits.len() > 0) ==> scan(s, pos, lits, acc)->Ok_0.len()
            > acc.len(),
    decreases s.len() - pos,
{
    if pos < 0 || pos >= s.len() {
    } else {
        let b = s[pos];
        if b == BACKSLASH {
            if pos + 1 < s.len() {
                lemma_scan_len(s, pos + 2, lits.push(s[pos + 1]), acc);
            }
        } else if b == LBRACKET {
            let inv = pos + 1 < s.len() && s[pos + 1] == CARET;
            let sp = if inv { pos + 2 } else { pos + 1 };
            if scan_set(s, sp, Seq::empty()) is Ok {
                let r = scan_set(s, sp, Seq::empty())->Ok_0;
                lemma_scan_set_bounds(s, sp, Seq::empty());
                lemma_scan_len(
                    s,
                    r.1,
                    Seq::empty(),
                    flush(acc, lits).push(
                        if inv {
                            Atom::ByteNotInSet(r.0)
                        } else {
                            Atom::ByteInSet(r.0)
                        },
                    ),
                );
            }
        } else if b == QUESTION {
            lemma_scan_len(s, pos + 1, Seq::empty(), flush(acc, lits).push(Atom::AnyByte));
        } else if b == STAR {
            if pos + 2 < s.len() && s[pos + 1] == STAR && s[pos + 2] == STAR {
            } else if pos + 1 < s.len() && s[pos + 1] == STAR {
                lemma_scan_len(s, pos + 2, Seq::empty(), flush(acc, lits).push(Atom::ZeroOrMore));
            } else {
                lemma_scan_len(
                    s,
                    pos + 1,
                    Seq::empty(),
                    flush(acc, lits).push(Atom::ZeroOrMoreNonSlash),
                );
            }
        } else if b == SLASH && pos + 4 == s.len() && s[pos + 1] == STAR && s[pos + 2] == STAR
            && s[pos + 3] == STAR {
        } else {
            lemma_scan_len(s, pos + 1, lits.push(b), acc);
        }
    }
}

/// What one raw pattern line compiles to: the atoms, or the error.
pub open spec fn spec_compile(src: Seq<u8>) -> Result<Seq<Atom>, PatternError> {
    let body = pattern_body(src);
    if has_meta(body) {
        scan(body, 0, Seq::empty(), Seq::empty())
    } else {
        Ok(seq![Atom::Literal(body)])
    }
}

/// A well-formed compiled pattern: anchoring implies a full-path
/// match, and the atom sequence is never empty.
pub open spec fn wf_pattern(p: RsyncPattern) -> bool {
    &&& (p.anchor_start ==> p.full_path)
    &&& p.pattern@.len() > 0
}

/// `s` holds a `/` somewhere.
fn contains_slash(s: &[u8]) -> (r: bool)
    ensures
        r == spec_full_path(s@),
{
    let n = s.len();
    let mut i: usize = 0;
    while i < n
        invariant
            n == s@.len(),
            i <= n,
            forall|q: int| 0 <= q < i ==> #[trigger] s@[q] != SLASH,
        decreases n - i,
    {
        if s[i] == SLASH {
            return true;
        }
        i += 1;
    }
    false
}

/// `s` holds one of `*`, `?`, `[` somewhere.
fn contains_meta(s: &[u8]) -> (r: bool)
    ensures
        r == has_meta(s@),
{
    let n = s.len();
    let mut i: usize = 0;
    while i < n
        invariant
            n == s@.len(),
            i <= n,
            forall|q: int| 0 <= q < i ==> !is_meta(#[trigger] s@[q]),
        decreases n - i,
    {
        let b = s[i];
        if b == STAR || b == QUESTION || b == LBRACKET {
            return true;
        }
        i += 1;
    }
    false
}

/// Turns the pending literal bytes into one `Literal` atom, as
/// `flush` states it, and empties the pending buffer.
fn flush_lits(atoms_v: &mut Vec<MatchAtom>, lits: &mut Vec<u8>)
    ensures
        atoms_model(final(atoms_v)@) == flush(atoms_model(old(atoms_v)@), old(lits)@),
        final(lits)@ == Seq::<u8>::empty(),
{
    proof {
        assert(lits@.len() == 0 ==> lits@ =~= Seq::<u8>::empty());
    }
    if lits.len() > 0 {
        let mut tmp: Vec<u8> = Vec::new();
        core::mem::swap(lits, &mut tmp);
        proof {
            lemma_model_push(atoms_v@, MatchAtom::Literal(tmp));
            assert(lits@ =~= Seq::<u8>::empty());
        }
        atoms_v.push(MatchAtom::Literal(tmp));
    }
}

impl RsyncPattern {
    /// Compiles one raw pattern line, already stripped of comment and
    /// blank handling by the caller. On success the flags and atoms
    /// are exactly what `spec_compile` and the flag specs state; on
    /// failure the error is the one `spec_compile` names.
    pub fn new(src: &[u8]) -> (r: Result<RsyncPattern, PatternError>)
        ensures
            (match r {
                Ok(p) => spec_compile(src@) == Ok::<Seq<Atom>, PatternError>(
                    atoms_model(p.pattern@),
                ) && p.anchor_start == spec_anchor_start(src@) && p.req_dir == spec_req_dir(src@)
                    && p.full_path == spec_full_path(src@) && p.original@ == src@ && wf_pattern(p),
                Err(e) => spec_compile(src@) == Err::<Seq<Atom>, PatternError>(e),
            }),
    {
        let n = src.len();
        let original = vstd::slice::slice_to_vec(src);
        let full_path = contains_slash(src);
        let anchor_start = n > 0 && src[0] == SLASH;
        let start: usize = if anchor_start { 1 } else { 0 };
        let req_dir = n > start && src[n - 1] == SLASH;
        let end: usize = if req_dir { n - 1 } else { n };
        let body: &[u8] = &src[start..end];
        proof {
            assert(body@ =~= pattern_body(src@));
            assert(anchor_start ==> full_path);
        }
        if !contains_meta(body) {
            let mut atoms_v: Vec<MatchAtom> = Vec::new();
            atoms_v.push(MatchAtom::Literal(vstd::slice::slice_to_vec(body)));
            proof {
                assert(atoms_model(atoms_v@) =~= seq![Atom::Literal(body@)]);
            }
            return Ok(RsyncPattern { anchor_start, req_dir, full_path, pattern: atoms_v, original });
        }
        let bn = body.len();
        let ghost total = scan(body@, 0, Seq::empty(), Seq::empty());
        let mut atoms_v: Vec<MatchAtom> = Vec::new();
        let mut lits: Vec<u8> = Vec::new();
        let mut pos: usize = 0;
        proof {
            assert(atoms_model(atoms_v@) =~= Seq::<Atom>::empty());
            assert(lits@ =~= Seq::<u8>::empty());
        }
        while pos < bn
            invariant
                bn == body@.len(),
                pos <= bn,
                spec_compile(src@) == total,
                total == scan(body@, pos as int, lits@, atoms_model(atoms_v@)),
            decreases bn - pos,
        {
            let b = body[pos];
            if b == BACKSLASH {
                if bn - pos == 1 {
                    return Err(PatternError::TrailingBackslash);
                }
                lits.push(body[pos + 1]);
                pos = pos + 2;
            } else if b == LBRACKET {
                flush_lits(&mut atoms_v, &mut lits);
                let inverted = bn - pos > 1 && body[pos + 1] == CARET;
                let mut sp: usize = if inverted { pos + 2 } else { pos + 1 };
                let ghost acc2 = atoms_model(atoms_v@);
                let mut set: Vec<(u8, u8)> = Vec::new();
                proof {
                    assert(total == after_set_from(body@, sp as int, set@, inverted, acc2));
                }
                loop
                    invariant_except_break
                        total == after_set_from(body@, sp as int, set@, inverted, acc2),
                    invariant
                        bn == body@.len(),
                        sp <= bn,
                        pos < sp,
                        spec_compile(src@) == total,
                        acc2 == atoms_model(atoms_v@),
                        lits@ == Seq::<u8>::empty(),
                    ensures
                        sp <= bn,
                        pos < sp,
                        acc2 == atoms_model(atoms_v@),
                        lits@.len() == 0,
                        total == scan(
                            body@,
                            sp as int,
                            Seq::empty(),
                            acc2.push(
                                if inverted {
                                    Atom::ByteNotInSet(set@)
                                } else {
                                    Atom::ByteInSet(set@)
                                },
                            ),
                        ),
                    decreases bn - sp,
                {
                    if sp >= bn {
                        return Err(PatternError::UnterminatedSet);
                    }
                    if set.len() > 0 && body[sp] == RBRACKET {
                        proof {
                            assert(scan_set(body@, sp as int, set@) == Ok::<_, PatternError>((
                                set@,
                                sp + 1,
                            )));
                        }
                        sp += 1;
                        break;
                    }
                    if bn - sp > 1 && body[sp] == LBRACKET && body[sp + 1] == COLON {
                        return Err(PatternError::PosixClassUnsupported);
                    }
                    if bn - sp > 1 && body[sp + 1] == DASH {
                        if bn - sp <= 2 {
                            return Err(PatternError::UnterminatedSet);
                        }
                        if body[sp] >= 128 || body[sp + 2] >= 128 {
                            return Err(PatternError::NonAsciiSet);
                        }
                        set.push((body[sp], body[sp + 2]));
                        sp += 3;
                    } else {
                        if body[sp] >= 128 {
                            return Err(PatternError::NonAsciiSet);
                        }
                        set.push((body[sp], body[sp]));
                        sp += 1;
                    }
                }
                let atom = if inverted {
                    MatchAtom::ByteNotInSet(set)
                } else {
                    MatchAtom::ByteInSet(set)
                };
                proof {
                    lemma_model_push(atoms_v@, atom);
                }
                atoms_v.push(atom);
                pos = sp;
            } else if b == QUESTION {
                flush_lits(&mut atoms_v, &mut lits);
                proof {
                    lemma_model_push(atoms_v@, MatchAtom::AnyByte);
                }
                atoms_v.push(MatchAtom::AnyByte);
                pos += 1;
            } else if b == STAR {
                if bn - pos > 2 && body[pos + 1] == STAR && body[pos + 2] == STAR {
                    return Err(PatternError::MisplacedTripleStar);
                }
                flush_lits(&mut atoms_v, &mut lits);
                if bn - pos > 1 && body[pos + 1] == STAR {
                    proof {
                        lemma_model_push(atoms_v@, MatchAtom::ZeroOrMore);
                    }
                    atoms_v.push(MatchAtom::ZeroOrMore);
                    pos += 2;
                } else {
                    proof {
                        lemma_model_push(atoms_v@, MatchAtom::ZeroOrMoreNonSlash);
                    }
                    atoms_v.push(MatchAtom::ZeroOrMoreNonSlash);
                    pos += 1;
                }
            } else if b == SLASH && bn - pos == 4 && body[pos + 1] == STAR && body[pos + 2] == STAR
                && body[pos + 3] == STAR {
                flush_lits(&mut atoms_v, &mut lits);
                proof {
                    lemma_model_push(atoms_v@, MatchAtom::DirectoryOrAny);
                }
                atoms_v.push(MatchAtom::DirectoryOrAny);
                pos = bn;
            } else {
                lits.push(b);
                pos += 1;
            }
        }
        flush_lits(&mut atoms_v, &mut lits);
        proof {
            lemma_scan_len(body@, 0, Seq::empty(), Seq::empty());
        }
        Ok(RsyncPattern { anchor_start, req_dir, full_path, pattern: atoms_v, original })
    }
}

} // verus!
