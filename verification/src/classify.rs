//! Classification of filesystem entries against the exclude and
//! vetted pattern lists.
//!
//! The caller walks the tree and performs every filesystem call; the
//! functions here take plain values — the entry's matching path, what
//! the stat said, the already-classified children — and decide the
//! entry's classification, marking which patterns were used. Patterns
//! are consulted in list order and the first match wins.

use vstd::prelude::*;

use crate::rsync_compile::spec_compile;
use crate::rsync_compile::spec_anchor_start;
use crate::rsync_compile::spec_req_dir;
use crate::rsync_compile::spec_full_path;
use crate::rsync_compile::wf_pattern;
use crate::rsync_pattern::Atom;
use crate::rsync_pattern::atoms_model;
use crate::rsync_pattern::PatternError;
use crate::rsync_pattern::RsyncPattern;
use crate::rsync_pattern::SLASH;
use crate::rsync_pattern::spec_matches;

verus! {

/// A compiled pattern together with its per-run usage flags. `seen`
/// records that the pattern matched at least once during a walk;
/// `problematic` is kept for the report but nothing sets it any more.
#[derive(Debug)]
pub struct SeenRsyncPattern {
    pub seen: bool,
    pub problematic: bool,
    pub pattern: RsyncPattern,
}

impl SeenRsyncPattern {
    /// Compiles `source` with fresh, cleared usage flags.
    pub fn new(source: &[u8]) -> (r: Result<SeenRsyncPattern, PatternError>)
        ensures
            (match r {
                Ok(p) => !p.seen && !p.problematic && spec_compile(source@) == Ok::<
                    Seq<Atom>,
                    PatternError,
                >(atoms_model(p.pattern.pattern@)) && p.pattern.anchor_start == spec_anchor_start(
                    source@,
                ) && p.pattern.req_dir == spec_req_dir(source@) && p.pattern.full_path
                    == spec_full_path(source@) && p.pattern.original@ == source@ && wf_pattern(
                    p.pattern,
                ),
                Err(e) => spec_compile(source@) == Err::<Seq<Atom>, PatternError>(e),
            }),
    {
        let pattern = RsyncPattern::new(source)?;
        Ok(SeenRsyncPattern { seen: false, problematic: false, pattern })
    }
}

/// The classification of one filesystem entry. Only an unvetted
/// directory carries children; every other tag is a leaf of the
/// output tree, even when it covers a whole subtree.
#[derive(Debug, PartialEq, Eq)]
pub enum TestResult {
    /// Covered by an exclude pattern; its contents were never listed.
    Excluded,
    /// Covered by a vetted pattern, which overrides everything
    /// beneath it.
    FullyVetted,
    /// A file covered by neither list, with its byte length.
    UnvettedFile(u64),
    /// A directory covered by neither list, with its classified
    /// children in name order.
    UnvettedDirectory(Vec<(Vec<u8>, TestResult)>),
    /// A directory whose contents could not be listed.
    ErrorDirectory,
    /// An entry on another device: a mount point, not traversed.
    Mount,
}

/// The index of the first pattern of `pats` at or after `i` that
/// matches `path`, or `pats.len()` when none does.
pub open spec fn first_match_from(pats: Seq<SeenRsyncPattern>, path: Seq<u8>, i: int) -> int
    decreases pats.len() - i,
{
    if i < 0 || i >= pats.len() {
        pats.len() as int
    } else if spec_matches(pats[i].pattern, path) {
        i
    } else {
        first_match_from(pats, path, i + 1)
    }
}

/// The index of the first pattern of `pats` that matches `path`, or
/// `pats.len()` when none does.
pub open spec fn spec_first_match(pats: Seq<SeenRsyncPattern>, path: Seq<u8>) -> int {
    first_match_from(pats, path, 0)
}

/// `pats` with the pattern at `k` marked as having matched.
pub open spec fn mark_seen(pats: Seq<SeenRsyncPattern>, k: int) -> Seq<SeenRsyncPattern> {
    pats.update(
        k,
        (SeenRsyncPattern {
            seen: true,
            problematic: pats[k].problematic,
            pattern: pats[k].pattern,
        }),
    )
}

/// What `first_match_from` returns: the first matching index, and
/// `pats.len()` exactly when no pattern at or after `i` matches.
pub proof fn lemma_first_match_from(pats: Seq<SeenRsyncPattern>, path: Seq<u8>, i: int)
    requires
        0 <= i <= pats.len(),
    ensures
        i <= first_match_from(pats, path, i) <= pats.len(),
        first_match_from(pats, path, i) < pats.len() ==> spec_matches(
            pats[first_match_from(pats, path, i)].pattern,
            path,
        ),
        forall|q: int| i <= q < first_match_from(pats, path, i)
            ==> !(#[trigger] spec_matches(pats[q].pattern, path)),
        first_match_from(pats, path, i) == pats.len() ==> (forall|q: int|
            i <= q < pats.len() ==> !(#[trigger] spec_matches(pats[q].pattern, path))),
    decreases pats.len() - i,
{
    if i < pats.len() && !spec_matches(pats[i].pattern, path) {
        lemma_first_match_from(pats, path, i + 1);
    }
}

/// Tests `path_form` against each pattern in order; on the first
/// match, marks that pattern as seen and reports its index. The list
/// is otherwise untouched.
pub fn first_match(path_form: &[u8], pats: &mut Vec<SeenRsyncPattern>) -> (r: Option<usize>)
    requires
        path_form@.len() == 0 || path_form@[0] != SLASH,
    ensures
        ({
            let k = spec_first_match(old(pats)@, path_form@);
            if k < old(pats)@.len() {
                r == Some(k as usize) && final(pats)@ == mark_seen(old(pats)@, k)
            } else {
                r == None::<usize> && final(pats)@ == old(pats)@
            }
        }),
{
    let n = pats.len();
    let mut i: usize = 0;
    while i < n
        invariant
            n == pats@.len(),
            i <= n,
            pats@ == old(pats)@,
            path_form@.len() == 0 || path_form@[0] != SLASH,
            spec_first_match(pats@, path_form@) == first_match_from(pats@, path_form@, i as int),
        decreases n - i,
    {
        if pats[i].pattern.matches(path_form) {
            pats[i].seen = true;
            proof {
                assert(final(pats)@ =~= mark_seen(old(pats)@, i as int));
            }
            return Some(i);
        }
        i += 1;
    }
    None
}

/// Byte-lexicographic order: `a` sorts at or before `b`.
pub open spec fn lex_leq(a: Seq<u8>, b: Seq<u8>) -> bool
    decreases a.len(),
{
    if a.len() == 0 {
        true
    } else if b.len() == 0 {
        false
    } else if a[0] < b[0] {
        true
    } else if a[0] > b[0] {
        false
    } else {
        lex_leq(a.drop_first(), b.drop_first())
    }
}

/// Inserting `c` into a name-sorted children list: it goes after
/// every entry whose name sorts at or before its own, so equal names
/// keep their arrival order.
pub open spec fn insert_sorted(
    c: (Vec<u8>, TestResult),
    sorted: Seq<(Vec<u8>, TestResult)>,
) -> Seq<(Vec<u8>, TestResult)>
    decreases sorted.len(),
{
    if sorted.len() == 0 {
        seq![c]
    } else if lex_leq(sorted.last().0@, c.0@) {
        sorted.push(c)
    } else {
        insert_sorted(c, sorted.drop_last()).push(sorted.last())
    }
}

/// The children list sorted by name, stably: what a directory's
/// classified children look like in the output tree.
pub open spec fn sort_children_spec(cs: Seq<(Vec<u8>, TestResult)>) -> Seq<(Vec<u8>, TestResult)>
    decreases cs.len(),
{
    if cs.len() == 0 {
        Seq::empty()
    } else {
        insert_sorted(cs.last(), sort_children_spec(cs.drop_last()))
    }
}

/// `lex_leq` is total: two names always compare one way or the other.
pub proof fn lemma_lex_leq_total(a: Seq<u8>, b: Seq<u8>)
    ensures
        lex_leq(a, b) || lex_leq(b, a),
    decreases a.len(),
{
    if a.len() > 0 && b.len() > 0 && a[0] == b[0] {
        lemma_lex_leq_total(a.drop_first(), b.drop_first());
    }
}

/// Inserting at the position found by scanning from the end — all
/// entries from `j` on have names sorting strictly after `c`'s, the
/// one before `j` does not — is what `insert_sorted` does.
proof fn lemma_insert_sorted_at(
    c: (Vec<u8>, TestResult),
    s: Seq<(Vec<u8>, TestResult)>,
    j: int,
)
    requires
        0 <= j <= s.len(),
        forall|q: int| j <= q < s.len() ==> !lex_leq((#[trigger] s[q]).0@, c.0@),
        j > 0 ==> lex_leq(s[j - 1].0@, c.0@),
    ensures
        insert_sorted(c, s) == s.take(j) + seq![c] + s.skip(j),
    decreases s.len(),
{
    if s.len() == 0 {
        assert(insert_sorted(c, s) =~= s.take(j) + seq![c] + s.skip(j));
    } else if j == s.len() {
        assert(insert_sorted(c, s) =~= s.take(j) + seq![c] + s.skip(j));
    } else {
        assert(!lex_leq(s[s.len() - 1].0@, c.0@));
        lemma_insert_sorted_at(c, s.drop_last(), j);
        assert(insert_sorted(c, s) == (s.drop_last().take(j) + seq![c] + s.drop_last().skip(j)).push(
            s.last(),
        ));
        assert((s.drop_last().take(j) + seq![c] + s.drop_last().skip(j)).push(s.last()) =~= s.take(j)
            + seq![c] + s.skip(j));
    }
}

/// `a` sorts at or before `b` by their bytes.
fn lex_leq_bytes(a: &[u8], b: &[u8]) -> (r: bool)
    ensures
        r == lex_leq(a@, b@),
{
    let an = a.len();
    let bn = b.len();
    let mut i: usize = 0;
    proof {
        assert(a@.skip(0) =~= a@);
        assert(b@.skip(0) =~= b@);
    }
    loop
        invariant
            an == a@.len(),
            bn == b@.len(),
            i <= an,
            i <= bn,
            lex_leq(a@, b@) == lex_leq(a@.skip(i as int), b@.skip(i as int)),
        decreases an - i,
    {
        if i == an {
            return true;
        }
        if i == bn {
            return false;
        }
        if a[i] < b[i] {
            return true;
        }
        if a[i] > b[i] {
            return false;
        }
        proof {
            assert(a@.skip(i as int).drop_first() =~= a@.skip(i + 1));
            assert(b@.skip(i as int).drop_first() =~= b@.skip(i + 1));
        }
        i += 1;
    }
}

/// Inserts one classified child into a name-sorted list, keeping it
/// sorted and keeping equal names in arrival order.
fn insert_child(out: &mut Vec<(Vec<u8>, TestResult)>, c: (Vec<u8>, TestResult))
    ensures
        final(out)@ == insert_sorted(c, old(out)@),
{
    let mut j: usize = out.len();
    loop
        invariant
            j <= out@.len(),
            out@ == old(out)@,
            forall|q: int| j <= q < out@.len() ==> !lex_leq((#[trigger] out@[q]).0@, c.0@),
        ensures
            j <= out@.len(),
            out@ == old(out)@,
            forall|q: int| j <= q < out@.len() ==> !lex_leq((#[trigger] out@[q]).0@, c.0@),
            j > 0 ==> lex_leq(out@[j - 1].0@, c.0@),
        decreases j,
    {
        if j == 0 {
            break;
        }
        if lex_leq_bytes(out[j - 1].0.as_slice(), c.0.as_slice()) {
            break;
        }
        j -= 1;
    }
    proof {
        lemma_insert_sorted_at(c, out@, j as int);
    }
    let ghost o0 = out@;
    out.insert(j, c);
    proof {
        assert(out@ =~= o0.take(j as int) + seq![c] + o0.skip(j as int));
    }
}

/// Sorts a directory's classified children by name, stably:
/// `sort_children_spec` of the input, element for element.
pub fn sort_children(cs: Vec<(Vec<u8>, TestResult)>) -> (r: Vec<(Vec<u8>, TestResult)>)
    ensures
        r@ == sort_children_spec(cs@),
{
    let ghost orig = cs@;
    let mut cs = cs;
    let orig_len = cs.len();
    proof {
        assert(orig.len() == orig_len);
    }
    let mut out: Vec<(Vec<u8>, TestResult)> = Vec::new();
    proof {
        assert(out@ =~= sort_children_spec(orig.take(0)));
        assert(cs@ =~= orig.skip(0));
    }
    let mut i: usize = 0;
    while cs.len() > 0
        invariant
            orig.len() <= usize::MAX,
            i <= orig.len(),
            cs@ == orig.skip(i as int),
            out@ == sort_children_spec(orig.take(i as int)),
        decreases orig.len() - i,
    {
        let c = cs.remove(0);
        proof {
            assert(c == orig[i as int]);
            assert(cs@ =~= orig.skip(i + 1));
            assert(orig.take(i + 1).drop_last() =~= orig.take(i as int));
            assert(orig.take(i + 1).last() == orig[i as int]);
        }
        insert_child(&mut out, c);
        i += 1;
    }
    proof {
        assert(orig.take(orig.len() as int) =~= orig);
    }
    out
}

/// The form in which an entry is matched: directories carry a
/// trailing `/`, so directory-only patterns can tell them apart.
pub fn dir_form(path: &[u8], is_dir: bool) -> (r: Vec<u8>)
    ensures
        is_dir ==> r@ == path@ + seq![SLASH],
        !is_dir ==> r@ == path@,
{
    let mut r = vstd::slice::slice_to_vec(path);
    if is_dir {
        r.push(SLASH);
    }
    r
}

/// Steps one entry up to the exclude check: a mount point is its own
/// terminal classification and consults no pattern; otherwise the
/// first matching exclude pattern, marked as seen, makes the entry
/// `Excluded`. `None` means the caller goes on — listing a directory,
/// or finishing a file — with `classify_entry`.
pub fn classify_pre(path_form: &[u8], is_mount: bool, excludes: &mut Vec<SeenRsyncPattern>) -> (r:
    Option<TestResult>)
    requires
        path_form@.len() == 0 || path_form@[0] != SLASH,
    ensures
        is_mount ==> r == Some(TestResult::Mount) && final(excludes)@ == old(excludes)@,
        !is_mount ==> ({
            let k = spec_first_match(old(excludes)@, path_form@);
            if k < old(excludes)@.len() {
                r == Some(TestResult::Excluded) && final(excludes)@ == mark_seen(old(excludes)@, k)
            } else {
                r == None::<TestResult> && final(excludes)@ == old(excludes)@
            }
        }),
{
    if is_mount {
        return Some(TestResult::Mount);
    }
    match first_match(path_form, excludes) {
        Some(_) => Some(TestResult::Excluded),
        None => None,
    }
}

/// Finishes an entry that was not excluded. A directory whose
/// listing failed is an `ErrorDirectory` and consults no vetted
/// pattern (`children` is `None` in that case). Otherwise the first
/// matching vetted pattern, marked as seen, makes the entry
/// `FullyVetted` — for a directory this discards the children
/// already classified. An unvetted directory keeps its children,
/// sorted by name; an unvetted file keeps its byte length.
pub fn classify_entry(
    path_form: &[u8],
    is_dir: bool,
    size: u64,
    children: Option<Vec<(Vec<u8>, TestResult)>>,
    vetted: &mut Vec<SeenRsyncPattern>,
) -> (r: TestResult)
    requires
        path_form@.len() == 0 || path_form@[0] != SLASH,
    ensures
        (is_dir && children is None) ==> r == TestResult::ErrorDirectory && final(vetted)@ == old(
            vetted,
        )@,
        !(is_dir && children is None) ==> ({
            let k = spec_first_match(old(vetted)@, path_form@);
            if k < old(vetted)@.len() {
                r == TestResult::FullyVetted && final(vetted)@ == mark_seen(old(vetted)@, k)
            } else {
                final(vetted)@ == old(vetted)@ && (if is_dir {
                    r is UnvettedDirectory && r->UnvettedDirectory_0@ == sort_children_spec(
                        children->Some_0@,
                    )
                } else {
                    r == TestResult::UnvettedFile(size)
                })
            }
        }),
{
    match children {
        None => {
            if is_dir {
                return TestResult::ErrorDirectory;
            }
            match first_match(path_form, vetted) {
                Some(_) => TestResult::FullyVetted,
                None => TestResult::UnvettedFile(size),
            }
        },
        Some(c) => {
            match first_match(path_form, vetted) {
                Some(_) => TestResult::FullyVetted,
                None => {
                    if is_dir {
                        TestResult::UnvettedDirectory(sort_children(c))
                    } else {
                        TestResult::UnvettedFile(size)
                    }
                },
            }
        },
    }
}

/// The warning line for one pattern: the caller's label, the
/// pattern's verbatim source, a newline — or nothing if it was used.
pub open spec fn warning_entry(label: Seq<u8>, p: SeenRsyncPattern) -> Seq<u8> {
    if p.seen {
        Seq::empty()
    } else {
        label + p.pattern.original@ + seq![10u8]
    }
}

/// The warning lines for the patterns of `pats` from index `i` on.
pub open spec fn warnings_from(label: Seq<u8>, pats: Seq<SeenRsyncPattern>, i: int) -> Seq<u8>
    decreases pats.len() - i,
{
    if i < 0 || i >= pats.len() {
        Seq::empty()
    } else {
        warning_entry(label, pats[i]) + warnings_from(label, pats, i + 1)
    }
}

/// One warning line per pattern that never matched during the run —
/// exactly those whose `seen` flag is still clear — in list order.
pub open spec fn unused_warnings(label: Seq<u8>, pats: Seq<SeenRsyncPattern>) -> Seq<u8> {
    warnings_from(label, pats, 0)
}

/// Appends the bytes of `s` to `out`.
fn append_bytes(out: &mut Vec<u8>, s: &[u8])
    ensures
        final(out)@ == old(out)@ + s@,
{
    let n = s.len();
    let mut i: usize = 0;
    while i < n
        invariant
            n == s@.len(),
            i <= n,
            out@ == old(out)@ + s@.take(i as int),
        decreases n - i,
    {
        out.push(s[i]);
        proof {
            assert(old(out)@ + s@.take(i as int) + seq![s@[i as int]] =~= old(out)@ + s@.take(
                i + 1,
            ));
        }
        i += 1;
    }
    proof {
        assert(s@.take(n as int) =~= s@);
    }
}

/// Appends one warning line for every pattern whose `seen` flag is
/// still clear, in list order: the dead-rule report of a run.
pub fn unused_pattern_warnings(label: &[u8], pats: &Vec<SeenRsyncPattern>, errors: &mut Vec<u8>)
    ensures
        final(errors)@ == old(errors)@ + unused_warnings(label@, pats@),
{
    let n = pats.len();
    let mut i: usize = 0;
    while i < n
        invariant
            n == pats@.len(),
            i <= n,
            errors@ + warnings_from(label@, pats@, i as int) == old(errors)@ + unused_warnings(
                label@,
                pats@,
            ),
        decreases n - i,
    {
        let ghost e0 = errors@;
        if !pats[i].seen {
            append_bytes(errors, label);
            append_bytes(errors, pats[i].pattern.original.as_slice());
            errors.push(10);
            proof {
                assert(errors@ =~= e0 + warning_entry(label@, pats@[i as int]));
            }
        }
        proof {
            assert(e0 + warning_entry(label@, pats@[i as int]) + warnings_from(
                label@,
                pats@,
                i + 1,
            ) =~= e0 + (warning_entry(label@, pats@[i as int]) + warnings_from(
                label@,
                pats@,
                i + 1,
            )));
        }
        i += 1;
    }
}

/// The children list is sorted: every earlier name sorts at or
/// before every later one.
pub open spec fn children_sorted(cs: Seq<(Vec<u8>, TestResult)>) -> bool {
    forall|i: int, j: int| 0 <= i < j < cs.len() ==> lex_leq(
        (#[trigger] cs[i]).0@,
        (#[trigger] cs[j]).0@,
    )
}

/// `lex_leq` is transitive.
pub proof fn lemma_lex_leq_trans(a: Seq<u8>, b: Seq<u8>, c: Seq<u8>)
    requires
        lex_leq(a, b),
        lex_leq(b, c),
    ensures
        lex_leq(a, c),
    decreases a.len(),
{
    if a.len() > 0 && b.len() > 0 && c.len() > 0 && a[0] == b[0] && b[0] == c[0] {
        lemma_lex_leq_trans(a.drop_first(), b.drop_first(), c.drop_first());
    }
}

/// Inserting into a sorted children list keeps it sorted, adds the
/// one entry to its contents, and invents nothing.
proof fn lemma_insert_sorted_props(c: (Vec<u8>, TestResult), s: Seq<(Vec<u8>, TestResult)>)
    requires
        children_sorted(s),
    ensures
        insert_sorted(c, s).len() == s.len() + 1,
        children_sorted(insert_sorted(c, s)),
        insert_sorted(c, s).to_multiset() == s.to_multiset().insert(c),
        forall|i: int| 0 <= i < insert_sorted(c, s).len() ==> (#[trigger] insert_sorted(c, s)[i])
            == c || s.contains(insert_sorted(c, s)[i]),
    decreases s.len(),
{
    broadcast use vstd::seq_lib::to_multiset_build;

    let r = insert_sorted(c, s);
    if s.len() == 0 {
        assert(seq![c] =~= s.push(c));
        assert(seq![c].to_multiset() =~= s.to_multiset().insert(c));
        assert(r[0] == c);
    } else if lex_leq(s.last().0@, c.0@) {
        assert(r == s.push(c));
        assert forall|i: int, j: int| 0 <= i < j < r.len() implies lex_leq(
            (#[trigger] r[i]).0@,
            (#[trigger] r[j]).0@,
        ) by {
            if j == r.len() - 1 {
                if i < s.len() - 1 {
                    lemma_lex_leq_trans(s[i].0@, s.last().0@, c.0@);
                }
            }
        }
    } else {
        let dl = s.drop_last();
        let last = s.last();
        lemma_insert_sorted_props(c, dl);
        let q = insert_sorted(c, dl);
        assert(r == q.push(last));
        lemma_lex_leq_total(last.0@, c.0@);
        assert forall|i: int, j: int| 0 <= i < j < r.len() implies lex_leq(
            (#[trigger] r[i]).0@,
            (#[trigger] r[j]).0@,
        ) by {
            if j == r.len() - 1 {
                if q[i] == c {
                    assert(lex_leq(c.0@, last.0@));
                } else {
                    let w = choose|w: int| 0 <= w < dl.len() && dl[w] == q[i];
                    assert(s[w] == dl[w]);
                    assert(lex_leq(s[w].0@, last.0@));
                }
            }
        }
        assert(s =~= dl.push(last));
        assert(s.to_multiset() =~= dl.to_multiset().insert(last));
        assert(r.to_multiset() =~= q.to_multiset().insert(last));
        assert(r.to_multiset() =~= s.to_multiset().insert(c));
        assert forall|i: int| 0 <= i < r.len() implies (#[trigger] r[i]) == c || s.contains(
            r[i],
        ) by {
            if i < q.len() && q[i] != c {
                let w = choose|w: int| 0 <= w < dl.len() && dl[w] == q[i];
                assert(s[w] == r[i]);
            }
            if i == r.len() - 1 {
                assert(s[s.len() - 1] == r[i]);
            }
        }
    }
}

/// What sorting a directory's children gives: the same entries, as a
/// multiset, in name order.
pub proof fn lemma_sort_children_props(cs: Seq<(Vec<u8>, TestResult)>)
    ensures
        sort_children_spec(cs).len() == cs.len(),
        children_sorted(sort_children_spec(cs)),
        sort_children_spec(cs).to_multiset() == cs.to_multiset(),
    decreases cs.len(),
{
    broadcast use vstd::seq_lib::to_multiset_build;

    if cs.len() > 0 {
        lemma_sort_children_props(cs.drop_last());
        lemma_insert_sorted_props(cs.last(), sort_children_spec(cs.drop_last()));
        assert(cs =~= cs.drop_last().push(cs.last()));
        assert(cs.to_multiset() =~= cs.drop_last().to_multiset().insert(cs.last()));
    } else {
        assert(sort_children_spec(cs) =~= cs);
    }
}

/// With a non-empty label, the dead-rule report is empty exactly
/// when every pattern was used: a pattern is reported unused if and
/// only if it never matched a visited path.
pub proof fn lemma_warnings_iff_unused(label: Seq<u8>, pats: Seq<SeenRsyncPattern>, i: int)
    requires
        label.len() > 0,
        0 <= i <= pats.len(),
    ensures
        warnings_from(label, pats, i).len() == 0 <==> (forall|q: int|
            i <= q < pats.len() ==> (#[trigger] pats[q]).seen),
    decreases pats.len() - i,
{
    if i < pats.len() {
        lemma_warnings_iff_unused(label, pats, i + 1);
    }
}

} // verus!
