//! Serialisation of the classification tree.
//!
//! Each entry is written as a quoted, comma-terminated group headed by
//! a one-byte tag; an unvetted directory opens a bracketed group whose
//! tail holds its children's entries. Names are escaped byte for byte
//! (`\"`, `\\`, `\n`, `\xHH` for other control bytes) and then decoded
//! permissively for display: invalid text is replaced, matching stays
//! byte-exact.

use vstd::prelude::*;

use crate::classify::TestResult;

verus! {

/// The value of an ASCII hex digit character, upper case.
pub open spec fn hex_digit(v: int) -> u8 {
    if v < 10 {
        (48 + v) as u8
    } else {
        (55 + v) as u8
    }
}

/// The value a hex digit character stands for.
pub open spec fn hex_val(d: u8) -> int {
    if d < 58 {
        d - 48
    } else {
        d - 55
    }
}

/// How one byte is escaped: `"` and `\` get a backslash, newline
/// becomes `\n`, any other byte below 0x20 becomes `\xHH`, the rest
/// stand for themselves.
pub open spec fn escape_byte(b: u8) -> Seq<u8> {
    if b == 34 || b == 92 {
        seq![92u8, b]
    } else if b == 10 {
        seq![92u8, 110u8]
    } else if b < 32 {
        seq![92u8, 120u8, hex_digit(b as int / 16), hex_digit(b as int % 16)]
    } else {
        seq![b]
    }
}

/// The escaping applied to a whole byte string.
pub open spec fn escape_bytes(s: Seq<u8>) -> Seq<u8>
    decreases s.len(),
{
    if s.len() == 0 {
        Seq::empty()
    } else {
        escape_byte(s[0]) + escape_bytes(s.drop_first())
    }
}

/// The reverse reading of the escaping rules.
pub open spec fn unescape_bytes(s: Seq<u8>) -> Seq<u8>
    decreases s.len(),
{
    if s.len() == 0 {
        Seq::empty()
    } else if s[0] == 92 && s.len() >= 2 {
        if s[1] == 110 {
            seq![10u8] + unescape_bytes(s.skip(2))
        } else if s[1] == 120 && s.len() >= 4 {
            seq![((hex_val(s[2]) * 16 + hex_val(s[3])) as u8)] + unescape_bytes(s.skip(4))
        } else {
            seq![s[1]] + unescape_bytes(s.skip(2))
        }
    } else {
        seq![s[0]] + unescape_bytes(s.skip(1))
    }
}

/// Reading back one escaped byte recovers it and leaves the rest.
proof fn lemma_unescape_escape_byte(b: u8, t: Seq<u8>)
    ensures
        unescape_bytes(escape_byte(b) + t) == seq![b] + unescape_bytes(t),
{
    let e = escape_byte(b) + t;
    if b == 34 || b == 92 {
        assert(e.skip(2) =~= t);
    } else if b == 10 {
        assert(e.skip(2) =~= t);
    } else if b < 32 {
        assert(e.skip(4) =~= t);
        assert(hex_val(hex_digit(b as int / 16)) == b as int / 16);
        assert(hex_val(hex_digit(b as int % 16)) == b as int % 16);
        assert(((b as int / 16) * 16 + b as int % 16) == b as int) by (nonlinear_arith);
        assert(unescape_bytes(e) =~= seq![b] + unescape_bytes(t));
    } else {
        assert(e.skip(1) =~= t);
    }
}

/// The escaping rules lose nothing: every byte string, control bytes,
/// quotes, backslashes and newlines included, reads back unchanged.
pub proof fn lemma_escape_round_trip(s: Seq<u8>)
    ensures
        unescape_bytes(escape_bytes(s)) == s,
    decreases s.len(),
{
    if s.len() > 0 {
        lemma_unescape_escape_byte(s[0], escape_bytes(s.drop_first()));
        lemma_escape_round_trip(s.drop_first());
        assert(unescape_bytes(escape_bytes(s)) =~= s);
    }
}

/// Escaping ASCII input yields ASCII output.
pub proof fn lemma_escape_ascii(s: Seq<u8>)
    requires
        forall|i: int| 0 <= i < s.len() ==> s[i] < 128,
    ensures
        forall|i: int| 0 <= i < escape_bytes(s).len() ==> escape_bytes(s)[i] < 128,
    decreases s.len(),
{
    if s.len() > 0 {
        lemma_escape_ascii(s.drop_first());
        assert forall|i: int| 0 <= i < escape_bytes(s).len() implies escape_bytes(s)[i]
            < 128 by {
            let e = escape_byte(s[0]);
            if i >= e.len() {
                assert(escape_bytes(s)[i] == escape_bytes(s.drop_first())[i - e.len()]);
            }
        }
    }
}

/// What the permissive text decoding leaves of a byte string: a pure
/// function of the bytes.
pub uninterp spec fn lossy_of(s: Seq<u8>) -> Seq<u8>;

/// Relies on String::from_utf8_lossy: the result depends on the bytes
/// alone, and bytes below 0x80 are valid text and pass unchanged.
#[verifier::external_body]
fn lossy_decode(bytes: &Vec<u8>) -> (r: Vec<u8>)
    ensures
        r@ == lossy_of(bytes@),
        (forall|i: int| 0 <= i < bytes@.len() ==> bytes@[i] < 128) ==> r@ == bytes@,
{
    String::from_utf8_lossy(bytes.as_slice()).into_owned().into_bytes()
}

/// Appends the bytes of `s` to `out`.
fn append_bytes(out: &mut Vec<u8>, s: &[u8])
    ensures
        final(out)@ == old(out)@ + s@,
{
    let n = s.len();
    let mut i: usize = 0;
    while i < n
        invariant
            n == s@.len(),
            i <= n,
            out@ == old(out)@ + s@.take(i as int),
        decreases n - i,
    {
        out.push(s[i]);
        proof {
            assert(old(out)@ + s@.take(i as int) + seq![s@[i as int]] =~= old(out)@ + s@.take(
                i + 1,
            ));
        }
        i += 1;
    }
    proof {
        assert(s@.take(n as int) =~= s@);
    }
}

/// Escapes `bytes`, decodes the escaped text permissively, and
/// appends the result to `out`. For ASCII input the decoding changes
/// nothing and the appended bytes are exactly the escaping.
pub fn out_escaped_string(out: &mut Vec<u8>, bytes: &[u8])
    ensures
        final(out)@ == old(out)@ + lossy_of(escape_bytes(bytes@)),
        (forall|i: int| 0 <= i < bytes@.len() ==> bytes@[i] < 128) ==> final(out)@ == old(out)@
            + escape_bytes(bytes@),
{
    let n = bytes.len();
    let mut esc: Vec<u8> = Vec::new();
    let mut i: usize = 0;
    proof {
        assert(bytes@.skip(0) =~= bytes@);
    }
    while i < n
        invariant
            n == bytes@.len(),
            i <= n,
            esc@ + escape_bytes(bytes@.skip(i as int)) == escape_bytes(bytes@),
        decreases n - i,
    {
        let b = bytes[i];
        let ghost e0 = esc@;
        proof {
            assert(bytes@.skip(i as int)[0] == b);
            assert(bytes@.skip(i as int).drop_first() =~= bytes@.skip(i + 1));
        }
        if b == 34 || b == 92 {
            esc.push(92);
            esc.push(b);
        } else if b == 10 {
            esc.push(92);
            esc.push(110);
        } else if b < 32 {
            esc.push(92);
            esc.push(120);
            esc.push(if b / 16 < 10 {
                48 + b / 16
            } else {
                55 + b / 16
            });
            esc.push(if b % 16 < 10 {
                48 + b % 16
            } else {
                55 + b % 16
            });
        } else {
            esc.push(b);
        }
        proof {
            assert(esc@ =~= e0 + escape_byte(b));
            assert(e0 + escape_byte(b) + escape_bytes(bytes@.skip(i + 1)) =~= e0 + (escape_byte(b)
                + escape_bytes(bytes@.skip(i + 1))));
        }
        i += 1;
    }
    proof {
        assert(bytes@.skip(n as int) =~= Seq::<u8>::empty());
        assert(esc@ + Seq::<u8>::empty() =~= esc@);
        if forall|q: int| 0 <= q < bytes@.len() ==> bytes@[q] < 128 {
            lemma_escape_ascii(bytes@);
        }
    }
    let dec = lossy_decode(&esc);
    append_bytes(out, dec.as_slice());
}

/// The decimal digits of `n`, most significant first.
pub open spec fn dec_digits(n: int) -> Seq<u8>
    decreases n,
{
    if n < 10 {
        seq![((48 + (if n >= 0 { n % 10 } else { 0 })) as u8)]
    } else {
        dec_digits(n / 10).push(((48 + n % 10) as u8))
    }
}

/// Appends the decimal form of `n` to `out`.
pub fn push_decimal(out: &mut Vec<u8>, n: u64)
    ensures
        final(out)@ == old(out)@ + dec_digits(n as int),
    decreases n,
{
    if n >= 10 {
        push_decimal(out, n / 10);
    }
    out.push(48 + (n % 10) as u8);
    proof {
        assert(out@ =~= old(out)@ + dec_digits(n as int));
    }
}

/// An escaped, permissively decoded name as it appears in the output.
pub open spec fn display_name(name: Seq<u8>) -> Seq<u8> {
    lossy_of(escape_bytes(name))
}

/// The serialised form of one classified entry under its name. Tags:
/// `x` excluded, `v` fully vetted, `f` unvetted file with its size,
/// `e` error directory, `m` mount point; an unvetted directory is a
/// bracketed group headed `d` whose tail is its children's entries.
pub open spec fn serialize_result(r: TestResult, name: Seq<u8>) -> Seq<u8>
    decreases r, 0int,
{
    match r {
        TestResult::Excluded => seq![34u8, 120u8] + display_name(name) + seq![34u8, 44u8],
        TestResult::FullyVetted => seq![34u8, 118u8] + display_name(name) + seq![34u8, 44u8],
        TestResult::UnvettedFile(size) => seq![34u8, 102u8] + display_name(name) + seq![58u8]
            + dec_digits(size as int) + seq![34u8, 44u8],
        TestResult::ErrorDirectory => seq![34u8, 101u8] + display_name(name) + seq![34u8, 44u8],
        TestResult::Mount => seq![34u8, 109u8] + display_name(name) + seq![34u8, 44u8],
        TestResult::UnvettedDirectory(children) => seq![91u8, 34u8, 100u8] + display_name(name)
            + seq![34u8, 44u8] + serialize_children(children@, 0) + seq![93u8, 44u8, 10u8],
    }
}

/// The serialised entries of the children from index `i` on.
pub open spec fn serialize_children(cs: Seq<(Vec<u8>, TestResult)>, i: int) -> Seq<u8>
    decreases cs, cs.len() - i,
{
    if i < 0 || i >= cs.len() {
        Seq::empty()
    } else {
        serialize_result(cs[i].1, cs[i].0@) + serialize_children(cs, i + 1)
    }
}

impl TestResult {
    /// Appends the serialised form of this entry, named `name`, to
    /// `out`.
    pub fn output(&self, out: &mut Vec<u8>, name: &[u8])
        ensures
            final(out)@ == old(out)@ + serialize_result(*self, name@),
        decreases *self,
    {
        match self {
            TestResult::Excluded => {
                out.push(34);
                out.push(120);
                out_escaped_string(out, name);
                out.push(34);
                out.push(44);
                proof {
                    assert(out@ =~= old(out)@ + serialize_result(*self, name@));
                }
            },
            TestResult::FullyVetted => {
                out.push(34);
                out.push(118);
                out_escaped_string(out, name);
                out.push(34);
                out.push(44);
                proof {
                    assert(out@ =~= old(out)@ + serialize_result(*self, name@));
                }
            },
            TestResult::UnvettedFile(size) => {
                out.push(34);
                out.push(102);
                out_escaped_string(out, name);
                out.push(58);
                push_decimal(out, *size);
                out.push(34);
                out.push(44);
                proof {
                    assert(out@ =~= old(out)@ + serialize_result(*self, name@));
                }
            },
            TestResult::ErrorDirectory => {
                out.push(34);
                out.push(101);
                out_escaped_string(out, name);
                out.push(34);
                out.push(44);
                proof {
                    assert(out@ =~= old(out)@ + serialize_result(*self, name@));
                }
            },
            TestResult::Mount => {
                out.push(34);
                out.push(109);
                out_escaped_string(out, name);
                out.push(34);
                out.push(44);
                proof {
                    assert(out@ =~= old(out)@ + serialize_result(*self, name@));
                }
            },
            TestResult::UnvettedDirectory(children) => {
                out.push(91);
                out.push(34);
                out.push(100);
                out_escaped_string(out, name);
                out.push(34);
                out.push(44);
                let ghost head = out@;
                let n = children.len();
                let mut i: usize = 0;
                while i < n
                    invariant
                        *self is UnvettedDirectory,
                        self->UnvettedDirectory_0 == *children,
                        n == children@.len(),
                        i <= n,
                        out@ + serialize_children(children@, i as int) == head
                            + serialize_children(children@, 0),
                    decreases n - i,
                {
                    let ghost o0 = out@;
                    let pair = &children[i];
                    proof {
                        broadcast use vstd::std_specs::vec::axiom_vec_decreases_to_view;
                        broadcast use vstd::seq::axiom_seq_index_decreases;

                        let t = *self;
                        let cvec = t->UnvettedDirectory_0;
                        let c = cvec@[i as int];
                        assert(decreases_to!(t => t->UnvettedDirectory_0));
                        assert(decreases_to!(cvec => cvec@));
                        assert(decreases_to!(cvec@ => cvec@[i as int]));
                        assert(decreases_to!(c => c.1));
                    }
                    pair.1.output(out, pair.0.as_slice());
                    proof {
                        assert(o0 + serialize_result(children@[i as int].1, children@[i as int].0@)
                            + serialize_children(children@, i + 1) =~= o0 + (serialize_result(
                            children@[i as int].1,
                            children@[i as int].0@,
                        ) + serialize_children(children@, i + 1)));
                    }
                    i += 1;
                }
                out.push(93);
                out.push(44);
                out.push(10);
                proof {
                    assert(out@ =~= old(out)@ + serialize_result(*self, name@));
                }
            },
        }
    }
}

} // verus!
