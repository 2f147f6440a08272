//! Parsing of the configuration inputs.
//!
//! Each input is a newline-delimited byte sequence. Blank lines and
//! lines opening with `#` carry nothing; a `sources` entry is an
//! absolute path whose leading and trailing `/` are trimmed; an
//! `excludes` or `vetted` line is one pattern, compiled whole — a
//! malformed pattern fails the list, never silently drops.

use vstd::prelude::*;

use crate::classify::SeenRsyncPattern;
use crate::rsync_compile::spec_anchor_start;
use crate::rsync_compile::spec_compile;
use crate::rsync_compile::spec_full_path;
use crate::rsync_compile::spec_req_dir;
use crate::rsync_compile::wf_pattern;
use crate::rsync_pattern::Atom;
use crate::rsync_pattern::PatternError;
use crate::rsync_pattern::SLASH;
use crate::rsync_pattern::atoms_model;

verus! {

/// A line carries configuration unless it is empty or opens with `#`.
pub open spec fn keep_line(line: Seq<u8>) -> Seq<Seq<u8>> {
    if line.len() > 0 && line[0] != 35u8 {
        seq![line]
    } else {
        Seq::empty()
    }
}

/// The non-blank, non-comment lines of `data` from index `i` on, with
/// the current line's bytes so far in `cur` and the lines already
/// taken in `acc`.
pub open spec fn split_filtered(data: Seq<u8>, i: int, cur: Seq<u8>, acc: Seq<Seq<u8>>) -> Seq<
    Seq<u8>,
>
    decreases data.len() - i,
{
    if i < 0 || i >= data.len() {
        acc + keep_line(cur)
    } else if data[i] == 10u8 {
        split_filtered(data, i + 1, Seq::empty(), acc + keep_line(cur))
    } else {
        split_filtered(data, i + 1, cur.push(data[i]), acc)
    }
}

/// The configuration lines of `data`: split on newlines, blank and
/// `#`-opened lines dropped.
pub open spec fn config_lines(data: Seq<u8>) -> Seq<Seq<u8>> {
    split_filtered(data, 0, Seq::empty(), Seq::empty())
}

/// The byte strings a list of line buffers holds.
pub open spec fn lines_model(lines: Seq<Vec<u8>>) -> Seq<Seq<u8>> {
    Seq::new(lines.len(), |i: int| lines[i]@)
}

/// Splits a configuration input into its meaningful lines.
pub fn parse_config_lines(data: &[u8]) -> (r: Vec<Vec<u8>>)
    ensures
        lines_model(r@) == config_lines(data@),
{
    let n = data.len();
    let mut acc: Vec<Vec<u8>> = Vec::new();
    let mut cur: Vec<u8> = Vec::new();
    let mut i: usize = 0;
    proof {
        assert(lines_model(acc@) =~= Seq::<Seq<u8>>::empty());
        assert(cur@ =~= Seq::<u8>::empty());
    }
    while i < n
        invariant
            n == data@.len(),
            i <= n,
            config_lines(data@) == split_filtered(data@, i as int, cur@, lines_model(acc@)),
        decreases n - i,
    {
        let b = data[i];
        let ghost c0 = cur@;
        let ghost a0 = lines_model(acc@);
        if b == 10 {
            if cur.len() > 0 && cur[0] != 35 {
                let mut done: Vec<u8> = Vec::new();
                core::mem::swap(&mut cur, &mut done);
                acc.push(done);
                proof {
                    assert(lines_model(acc@) =~= a0 + keep_line(c0));
                }
            } else {
                cur = Vec::new();
                proof {
                    assert(lines_model(acc@) =~= a0 + keep_line(c0));
                }
            }
            proof {
                assert(cur@ =~= Seq::<u8>::empty());
            }
        } else {
            cur.push(b);
        }
        i += 1;
    }
    if cur.len() > 0 && cur[0] != 35 {
        let ghost a0 = lines_model(acc@);
        let ghost c0 = cur@;
        acc.push(cur);
        proof {
            assert(lines_model(acc@) =~= a0 + keep_line(c0));
        }
    } else {
        proof {
            assert(lines_model(acc@) =~= lines_model(acc@) + keep_line(cur@));
        }
    }
    acc
}

/// `s` with its run of leading `/` removed.
pub open spec fn trim_leading(s: Seq<u8>) -> Seq<u8>
    decreases s.len(),
{
    if s.len() > 0 && s[0] == SLASH {
        trim_leading(s.drop_first())
    } else {
        s
    }
}

/// `s` with its run of trailing `/` removed.
pub open spec fn trim_trailing(s: Seq<u8>) -> Seq<u8>
    decreases s.len(),
{
    if s.len() > 0 && s[s.len() - 1] == SLASH {
        trim_trailing(s.drop_last())
    } else {
        s
    }
}

/// A `sources` entry as the walk uses it: leading and trailing `/`
/// trimmed away.
pub open spec fn spec_trim_source(s: Seq<u8>) -> Seq<u8> {
    trim_trailing(trim_leading(s))
}

/// Trims the leading and trailing `/` runs off one `sources` entry.
pub fn trim_source(s: &[u8]) -> (r: Vec<u8>)
    ensures
        r@ == spec_trim_source(s@),
{
    let n = s.len();
    let mut a: usize = 0;
    proof {
        assert(s@.skip(0) =~= s@);
    }
    while a < n && s[a] == SLASH
        invariant
            n == s@.len(),
            a <= n,
            trim_leading(s@) == trim_leading(s@.skip(a as int)),
        decreases n - a,
    {
        proof {
            assert(s@.skip(a as int)[0] == s@[a as int]);
            assert(s@.skip(a as int).drop_first() =~= s@.skip(a + 1));
        }
        a += 1;
    }
    proof {
        assert(trim_leading(s@) =~= s@.skip(a as int));
    }
    let mut b: usize = n;
    proof {
        assert(s@.subrange(a as int, b as int) =~= s@.skip(a as int));
    }
    while b > a && s[b - 1] == SLASH
        invariant
            n == s@.len(),
            a <= b <= n,
            trim_trailing(trim_leading(s@)) == trim_trailing(s@.subrange(a as int, b as int)),
        decreases b,
    {
        proof {
            let t = s@.subrange(a as int, b as int);
            assert(t[t.len() - 1] == s@[b - 1]);
            assert(t.drop_last() =~= s@.subrange(a as int, b - 1));
        }
        b -= 1;
    }
    proof {
        let t = s@.subrange(a as int, b as int);
        assert(trim_trailing(t) =~= t);
    }
    vstd::slice::slice_to_vec(&s[a..b])
}

/// Splits the `sources` input and trims each entry.
pub fn parse_sources(data: &[u8]) -> (r: Vec<Vec<u8>>)
    ensures
        lines_model(r@).len() == config_lines(data@).len(),
        forall|i: int| 0 <= i < lines_model(r@).len() ==> lines_model(r@)[i] == spec_trim_source(
            #[trigger] config_lines(data@)[i],
        ),
{
    let lines = parse_config_lines(data);
    let n = lines.len();
    let mut out: Vec<Vec<u8>> = Vec::new();
    let mut i: usize = 0;
    while i < n
        invariant
            n == lines@.len(),
            i <= n,
            lines_model(lines@) == config_lines(data@),
            out@.len() == i,
            forall|q: int| 0 <= q < i ==> out@[q]@ == spec_trim_source(
                #[trigger] config_lines(data@)[q],
            ),
        decreases n - i,
    {
        let t = trim_source(lines[i].as_slice());
        out.push(t);
        i += 1;
    }
    out
}

/// Compiles each pattern line in order, with cleared usage flags; the
/// first malformed line fails the whole list with its error.
pub fn compile_pattern_list(lines: &Vec<Vec<u8>>) -> (r: Result<
    Vec<SeenRsyncPattern>,
    PatternError,
>)
    ensures
        (match r {
            Ok(pats) => pats@.len() == lines@.len() && (forall|i: int|
                0 <= i < lines@.len() ==> spec_compile(lines@[i]@) == Ok::<Seq<Atom>, PatternError>(
                    atoms_model((#[trigger] pats@[i]).pattern.pattern@),
                ) && !pats@[i].seen && !pats@[i].problematic && pats@[i].pattern.anchor_start
                    == spec_anchor_start(lines@[i]@) && pats@[i].pattern.req_dir == spec_req_dir(
                    lines@[i]@,
                ) && pats@[i].pattern.full_path == spec_full_path(lines@[i]@)
                    && pats@[i].pattern.original@ == lines@[i]@ && wf_pattern(pats@[i].pattern)),
            Err(e) => exists|i: int| 0 <= i < lines@.len() && spec_compile(#[trigger] lines@[i]@)
                == Err::<Seq<Atom>, PatternError>(e) && (forall|j: int|
                0 <= j < i ==> spec_compile(#[trigger] lines@[j]@) is Ok),
        }),
{
    let n = lines.len();
    let mut out: Vec<SeenRsyncPattern> = Vec::new();
    let mut i: usize = 0;
    while i < n
        invariant
            n == lines@.len(),
            i <= n,
            out@.len() == i,
            forall|q: int| 0 <= q < i ==> spec_compile(lines@[q]@) == Ok::<Seq<Atom>, PatternError>(
                atoms_model((#[trigger] out@[q]).pattern.pattern@),
            ) && !out@[q].seen && !out@[q].problematic && out@[q].pattern.anchor_start
                == spec_anchor_start(lines@[q]@) && out@[q].pattern.req_dir == spec_req_dir(
                lines@[q]@,
            ) && out@[q].pattern.full_path == spec_full_path(lines@[q]@)
                && out@[q].pattern.original@ == lines@[q]@ && wf_pattern(out@[q].pattern),
        decreases n - i,
    {
        match SeenRsyncPattern::new(lines[i].as_slice()) {
            Ok(p) => {
                out.push(p);
            },
            Err(e) => {
                proof {
                    assert(spec_compile(lines@[i as int]@) == Err::<Seq<Atom>, PatternError>(e));
                    assert forall|j: int| 0 <= j < i implies spec_compile(
                        #[trigger] lines@[j]@,
                    ) is Ok by {
                        assert(spec_compile(lines@[j]@) == Ok::<Seq<Atom>, PatternError>(
                            atoms_model(out@[j].pattern.pattern@),
                        ));
                    }
                }
                return Err(e);
            },
        }
        i += 1;
    }
    Ok(out)
}

} // verus!
