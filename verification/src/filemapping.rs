//! The mapper: heuristics that pair discovered local files with manifest
//! entries.  Non-audio files match by exact size and extension; audio
//! files are paired positionally after sorting by filename or by size; a
//! manual step adjusts single entries; and a final pass mirrors the
//! source-side mapping onto the targets.

use vstd::prelude::*;

use vstd::relations::total_ordering;
use vstd::relations::sorted_by;
use vstd::seq_lib::lemma_sorted_unique;

use crate::model::{SourceFile, TargetFile};

verus! {

/// The code points of a character sequence.
pub open spec fn codes(s: Seq<char>) -> Seq<u32> {
    s.map_values(|c: char| c as u32)
}

/// Lexicographic order on code-point sequences.
pub open spec fn codes_lt(a: Seq<u32>, b: Seq<u32>) -> bool
    decreases a.len(),
{
    if b.len() == 0 {
        false
    } else if a.len() == 0 {
        true
    } else if a[0] < b[0] {
        true
    } else if a[0] > b[0] {
        false
    } else {
        codes_lt(a.skip(1), b.skip(1))
    }
}

/// Lexicographic order on character sequences, by code point.
pub open spec fn chars_lt(a: Seq<char>, b: Seq<char>) -> bool {
    codes_lt(codes(a), codes(b))
}

proof fn lemma_codes_lt_irreflexive(a: Seq<u32>)
    ensures
        !codes_lt(a, a),
    decreases a.len(),
{
    if a.len() > 0 {
        lemma_codes_lt_irreflexive(a.skip(1));
    }
}

proof fn lemma_codes_lt_connected(a: Seq<u32>, b: Seq<u32>)
    ensures
        codes_lt(a, b) || codes_lt(b, a) || a == b,
    decreases a.len(),
{
    if a.len() == 0 && b.len() == 0 {
        assert(a =~= b);
    } else if a.len() > 0 && b.len() > 0 && a[0] == b[0] {
        lemma_codes_lt_connected(a.skip(1), b.skip(1));
        if a.skip(1) == b.skip(1) {
            assert(a.len() == b.len());
            assert forall|i: int| 0 <= i < a.len() implies a[i] == b[i] by {
                if i >= 1 {
                    assert(a.skip(1)[i - 1] == a[i]);
                    assert(b.skip(1)[i - 1] == b[i]);
                    assert(a.skip(1)[i - 1] == b.skip(1)[i - 1]);
                }
            }
            assert(a =~= b);
        }
    }
}

proof fn lemma_codes_lt_transitive(a: Seq<u32>, b: Seq<u32>, c: Seq<u32>)
    requires
        codes_lt(a, b),
        codes_lt(b, c),
    ensures
        codes_lt(a, c),
    decreases a.len(),
{
    if a.len() > 0 && b.len() > 0 && c.len() > 0 && a[0] == b[0] && b[0] == c[0] {
        lemma_codes_lt_transitive(a.skip(1), b.skip(1), c.skip(1));
    }
}

proof fn lemma_codes_lt_asymmetric(a: Seq<u32>, b: Seq<u32>)
    requires
        codes_lt(a, b),
    ensures
        !codes_lt(b, a),
    decreases a.len(),
{
    if a.len() > 0 && b.len() > 0 && a[0] == b[0] {
        lemma_codes_lt_asymmetric(a.skip(1), b.skip(1));
    }
}

/// Order on target positions used by the filename strategy: by path,
/// lexicographically, with the declaration position breaking ties.
pub open spec fn path_le(targets: Seq<TargetFile>, a: usize, b: usize) -> bool {
    ||| chars_lt(targets[a as int].path@, targets[b as int].path@)
    ||| (codes(targets[a as int].path@) == codes(targets[b as int].path@) && a <= b)
}

/// The path order, packaged for `sort_by`.
pub open spec fn path_order(targets: Seq<TargetFile>) -> spec_fn(usize, usize) -> bool {
    |a: usize, b: usize| path_le(targets, a, b)
}

/// The path order is a total ordering on positions.
pub proof fn lemma_path_order_total(targets: Seq<TargetFile>)
    ensures
        total_ordering(path_order(targets)),
{
    let leq = path_order(targets);
    assert forall|a: usize, b: usize| #[trigger] leq(a, b) || #[trigger] leq(b, a) by {
        lemma_codes_lt_connected(
            codes(targets[a as int].path@),
            codes(targets[b as int].path@),
        );
    }
    assert forall|a: usize, b: usize| #[trigger] leq(a, b) && #[trigger] leq(b, a) implies a
        == b by {
        if chars_lt(targets[a as int].path@, targets[b as int].path@) {
            lemma_codes_lt_asymmetric(
                codes(targets[a as int].path@),
                codes(targets[b as int].path@),
            );
        }
        lemma_codes_lt_irreflexive(codes(targets[a as int].path@));
    }
    assert forall|a: usize, b: usize, c: usize| #[trigger] leq(a, b) && #[trigger] leq(b, c)
        implies leq(a, c) by {
        if chars_lt(targets[a as int].path@, targets[b as int].path@) && chars_lt(
            targets[b as int].path@,
            targets[c as int].path@,
        ) {
            lemma_codes_lt_transitive(
                codes(targets[a as int].path@),
                codes(targets[b as int].path@),
                codes(targets[c as int].path@),
            );
        }
    }
}

/// Order on `(size, position)` pairs used by the size strategy: by size
/// ascending, with the position breaking ties.
pub open spec fn pair_le(a: (u64, usize), b: (u64, usize)) -> bool {
    ||| a.0 < b.0
    ||| (a.0 == b.0 && a.1 <= b.1)
}

/// The size order, packaged for `sort_by`.
pub open spec fn pair_order() -> spec_fn((u64, usize), (u64, usize)) -> bool {
    |a: (u64, usize), b: (u64, usize)| pair_le(a, b)
}

/// The size order is a total ordering on pairs.
pub proof fn lemma_pair_order_total()
    ensures
        total_ordering(pair_order()),
{
    let leq = pair_order();
    assert forall|a: (u64, usize), b: (u64, usize)| #[trigger] leq(a, b) && #[trigger] leq(b, a)
        implies a == b by {}
}

/// Inserting an element anywhere adds exactly it to the sequence's
/// multiset.
proof fn lemma_to_multiset_insert<A>(s: Seq<A>, j: int, v: A)
    requires
        0 <= j <= s.len(),
    ensures
        s.insert(j, v).to_multiset() =~= s.to_multiset().insert(v),
{
    broadcast use vstd::seq_lib::group_to_multiset_ensures;
    broadcast use vstd::multiset::group_multiset_axioms;

    let t = s.insert(j, v);
    assert(t.remove(j) =~= s);
    assert(t[j] == v);
    assert(t.remove(j).to_multiset() =~= t.to_multiset().remove(v));
    assert(t.to_multiset().contains(v)) by {
        assert(t.contains(v));
    }
    assert(t.to_multiset().remove(v).insert(v) =~= t.to_multiset());
}

/// Compares two target positions in the path order.
fn path_le_exec(targets: &Vec<TargetFile>, a: usize, b: usize) -> (r: bool)
    requires
        (a as int) < targets@.len(),
        (b as int) < targets@.len(),
    ensures
        r == path_le(targets@, a, b),
{
    let ghost pa = codes(targets@[a as int].path@);
    let ghost pb = codes(targets@[b as int].path@);
    if str_lt(targets[a].path.as_str(), targets[b].path.as_str()) {
        true
    } else if str_lt(targets[b].path.as_str(), targets[a].path.as_str()) {
        false
    } else {
        proof {
            lemma_codes_lt_connected(pa, pb);
        }
        a <= b
    }
}

/// Compares two strings in the lexicographic code-point order.
pub fn str_lt(a: &str, b: &str) -> (r: bool)
    ensures
        r == chars_lt(a@, b@),
{
    let la = a.unicode_len();
    let lb = b.unicode_len();
    let ghost ca_all = codes(a@);
    let ghost cb_all = codes(b@);
    proof {
        assert(ca_all.skip(0) =~= ca_all);
        assert(cb_all.skip(0) =~= cb_all);
    }
    let mut i: usize = 0;
    while i < la && i < lb
        invariant
            la == a@.len(),
            lb == b@.len(),
            ca_all == codes(a@),
            cb_all == codes(b@),
            i <= la,
            i <= lb,
            codes_lt(ca_all, cb_all) == codes_lt(
                ca_all.skip(i as int),
                cb_all.skip(i as int),
            ),
        decreases la - i,
    {
        let ca = a.get_char(i);
        let cb = b.get_char(i);
        proof {
            assert(ca_all.skip(i as int)[0] == ca as u32);
            assert(cb_all.skip(i as int)[0] == cb as u32);
            assert(ca_all.skip(i as int).skip(1) =~= ca_all.skip(i as int + 1));
            assert(cb_all.skip(i as int).skip(1) =~= cb_all.skip(i as int + 1));
        }
        if (ca as u32) < (cb as u32) {
            return true;
        }
        if (ca as u32) > (cb as u32) {
            return false;
        }
        i = i + 1;
    }
    proof {
        if i >= la {
            assert(ca_all.skip(i as int).len() == 0);
        } else {
            assert(cb_all.skip(i as int).len() == 0);
        }
    }
    la < lb
}

/// Sorts a vector of target positions by the path order, stably: equal
/// paths keep their declaration order.
fn sort_targets_by_path(targets: &Vec<TargetFile>, idxs: Vec<usize>) -> (r: Vec<usize>)
    requires
        forall|q: int| 0 <= q < idxs@.len() ==> (#[trigger] idxs@[q] as int) < targets@.len(),
    ensures
        r@ == idxs@.sort_by(path_order(targets@)),
        forall|q: int| 0 <= q < r@.len() ==> (#[trigger] r@[q] as int) < targets@.len(),
{
    let ghost leq = path_order(targets@);
    proof {
        lemma_path_order_total(targets@);
        broadcast use vstd::seq_lib::group_to_multiset_ensures;
        broadcast use vstd::multiset::group_multiset_axioms;

    }
    let n = idxs.len();
    let mut out: Vec<usize> = Vec::new();
    proof {
        assert(out@ =~= idxs@.take(0));
    }
    let mut i: usize = 0;
    while i < n
        invariant
            n == idxs@.len(),
            i <= n,
            forall|q: int| 0 <= q < idxs@.len() ==> (#[trigger] idxs@[q] as int) < targets@.len(),
            forall|q: int| 0 <= q < out@.len() ==> (#[trigger] out@[q] as int) < targets@.len(),
            leq == path_order(targets@),
            total_ordering(leq),
            sorted_by(out@, leq),
            out@.to_multiset() =~= idxs@.take(i as int).to_multiset(),
        decreases n - i,
    {
        let v = idxs[i];
        let mut j: usize = out.len();
        while j > 0 && !path_le_exec(targets, out[j - 1], v)
            invariant
                j <= out@.len(),
                forall|q: int|
                    0 <= q < out@.len() ==> (#[trigger] out@[q] as int) < targets@.len(),
                (v as int) < targets@.len(),
                leq == path_order(targets@),
                forall|q: int| j <= q < out@.len() ==> !leq(#[trigger] out@[q], v),
            decreases j,
        {
            j = j - 1;
        }
        let ghost pre = out@;
        out.insert(j, v);
        proof {
            broadcast use vstd::seq_lib::group_to_multiset_ensures;
            broadcast use vstd::multiset::group_multiset_axioms;

            lemma_to_multiset_insert(pre, j as int, v);
            assert(idxs@.take(i as int + 1).drop_last() =~= idxs@.take(i as int));
            assert(idxs@.take(i as int + 1).to_multiset() =~= idxs@.take(
                i as int,
            ).to_multiset().insert(v)) by {
                assert(idxs@.take(i as int + 1) =~= idxs@.take(i as int).push(v));
            }
            assert(sorted_by(out@, leq)) by {
                assert forall|x: int, y: int| 0 <= x < y < out@.len() implies leq(
                    out@[x],
                    out@[y],
                ) by {
                    if y == j {
                        if x < j {
                            assert(leq(pre[j - 1], v));
                            if x < j - 1 {
                                assert(leq(pre[x], pre[j - 1]));
                            }
                        }
                    } else if x == j {
                        assert(!leq(pre[y - 1], v));
                        assert(leq(v, pre[y - 1]));
                    } else if x < j && y > j {
                        assert(leq(pre[x], pre[y - 1]));
                    } else if x > j {
                        assert(leq(pre[x - 1], pre[y - 1]));
                    } else {
                        assert(leq(pre[x], pre[y]));
                    }
                }
            }
        }
        i = i + 1;
    }
    proof {
        assert(idxs@.take(n as int) =~= idxs@);
        idxs@.lemma_sort_by_ensures(leq);
        lemma_sorted_unique(out@, idxs@.sort_by(leq), leq);
        assert(out@ =~= idxs@.sort_by(leq));
    }
    out
}

/// Sorts a vector of `(size, position)` pairs by the size order, stably:
/// equal sizes keep their position order.
fn sort_size_pairs(pairs: Vec<(u64, usize)>) -> (r: Vec<(u64, usize)>)
    ensures
        r@ == pairs@.sort_by(pair_order()),
{
    let ghost leq = pair_order();
    proof {
        lemma_pair_order_total();
    }
    let n = pairs.len();
    let mut out: Vec<(u64, usize)> = Vec::new();
    proof {
        assert(out@ =~= pairs@.take(0));
    }
    let mut i: usize = 0;
    while i < n
        invariant
            n == pairs@.len(),
            i <= n,
            leq == pair_order(),
            total_ordering(leq),
            sorted_by(out@, leq),
            out@.to_multiset() =~= pairs@.take(i as int).to_multiset(),
        decreases n - i,
    {
        let v = pairs[i];
        let mut j: usize = out.len();
        while j > 0 && !(out[j - 1].0 < v.0 || (out[j - 1].0 == v.0 && out[j - 1].1 <= v.1))
            invariant
                j <= out@.len(),
                leq == pair_order(),
                forall|q: int| j <= q < out@.len() ==> !leq(#[trigger] out@[q], v),
            decreases j,
        {
            j = j - 1;
        }
        let ghost pre = out@;
        out.insert(j, v);
        proof {
            broadcast use vstd::seq_lib::group_to_multiset_ensures;
            broadcast use vstd::multiset::group_multiset_axioms;

            lemma_to_multiset_insert(pre, j as int, v);
            assert(pairs@.take(i as int + 1).to_multiset() =~= pairs@.take(
                i as int,
            ).to_multiset().insert(v)) by {
                assert(pairs@.take(i as int + 1) =~= pairs@.take(i as int).push(v));
            }
            assert(sorted_by(out@, leq)) by {
                assert forall|x: int, y: int| 0 <= x < y < out@.len() implies leq(
                    out@[x],
                    out@[y],
                ) by {
                    if y == j {
                        if x < j {
                            assert(leq(pre[j - 1], v));
                            if x < j - 1 {
                                assert(leq(pre[x], pre[j - 1]));
                            }
                        }
                    } else if x == j {
                        assert(!leq(pre[y - 1], v));
                        assert(leq(v, pre[y - 1]));
                    } else if x < j && y > j {
                        assert(leq(pre[x], pre[y - 1]));
                    } else if x > j {
                        assert(leq(pre[x - 1], pre[y - 1]));
                    } else {
                        assert(leq(pre[x], pre[y]));
                    }
                }
            }
        }
        i = i + 1;
    }
    proof {
        assert(pairs@.take(n as int) =~= pairs@);
        pairs@.lemma_sort_by_ensures(leq);
        lemma_sorted_unique(out@, pairs@.sort_by(leq), leq);
        assert(out@ =~= pairs@.sort_by(leq));
    }
    out
}


/// Positions of the audio targets among the first `n`, in declaration
/// order.
pub open spec fn audio_targets_upto(targets: Seq<TargetFile>, n: int) -> Seq<usize>
    decreases n,
{
    if n <= 0 {
        Seq::empty()
    } else if targets[n - 1].is_audio {
        audio_targets_upto(targets, n - 1).push((n - 1) as usize)
    } else {
        audio_targets_upto(targets, n - 1)
    }
}

/// Positions of all audio targets, in declaration order.
pub open spec fn audio_targets(targets: Seq<TargetFile>) -> Seq<usize> {
    audio_targets_upto(targets, targets.len() as int)
}

/// Positions of the audio sources among the first `n`, in inventory
/// order.
pub open spec fn audio_sources_upto(sources: Seq<SourceFile>, n: int) -> Seq<usize>
    decreases n,
{
    if n <= 0 {
        Seq::empty()
    } else if sources[n - 1].is_audio {
        audio_sources_upto(sources, n - 1).push((n - 1) as usize)
    } else {
        audio_sources_upto(sources, n - 1)
    }
}

/// `(size, position)` of the audio sources among the first `n`.
pub open spec fn source_pairs_upto(sources: Seq<SourceFile>, n: int) -> Seq<(u64, usize)>
    decreases n,
{
    if n <= 0 {
        Seq::empty()
    } else if sources[n - 1].is_audio {
        source_pairs_upto(sources, n - 1).push((sources[n - 1].size, (n - 1) as usize))
    } else {
        source_pairs_upto(sources, n - 1)
    }
}

/// `(size, position)` of all audio sources.
pub open spec fn source_pairs(sources: Seq<SourceFile>) -> Seq<(u64, usize)> {
    source_pairs_upto(sources, sources.len() as int)
}

/// `(size, position)` of the audio targets among the first `n`.
pub open spec fn target_pairs_upto(targets: Seq<TargetFile>, n: int) -> Seq<(u64, usize)>
    decreases n,
{
    if n <= 0 {
        Seq::empty()
    } else if targets[n - 1].is_audio {
        target_pairs_upto(targets, n - 1).push((targets[n - 1].size, (n - 1) as usize))
    } else {
        target_pairs_upto(targets, n - 1)
    }
}

/// `(size, position)` of all audio targets.
pub open spec fn target_pairs(targets: Seq<TargetFile>) -> Seq<(u64, usize)> {
    target_pairs_upto(targets, targets.len() as int)
}

/// Whether a source matches a target exactly: equal size and equal
/// extension.
pub open spec fn ext_match(t: TargetFile, s: SourceFile) -> bool {
    &&& s.size == t.size
    &&& match (s.extension, t.extension) {
        (Some(x), Some(y)) => x@ == y@,
        (None, None) => true,
        _ => false,
    }
}

/// The first target at or after position `j` that matches `s` exactly.
pub open spec fn first_exact_from(targets: Seq<TargetFile>, s: SourceFile, j: int) -> Option<
    usize,
>
    decreases targets.len() - j,
{
    if j < 0 || j >= targets.len() {
        None
    } else if ext_match(targets[j], s) {
        Some(j as usize)
    } else {
        first_exact_from(targets, s, j + 1)
    }
}

/// The first target that matches `s` exactly, scanning in declaration
/// order: ties go to the earlier declaration.
pub open spec fn first_exact(targets: Seq<TargetFile>, s: SourceFile) -> Option<usize> {
    first_exact_from(targets, s, 0)
}

/// What the exact-match strategy leaves at each source position: a
/// non-audio source with a matching target gets that target's position,
/// every other source keeps its previous state.
pub open spec fn apply_exact(old: Seq<SourceFile>, targets: Seq<TargetFile>) -> Seq<SourceFile> {
    Seq::new(
        old.len(),
        |j: int|
            if !old[j].is_audio && first_exact(targets, old[j]) is Some {
                SourceFile { mapping: first_exact(targets, old[j]), ..old[j] }
            } else {
                old[j]
            },
    )
}

/// The target position handed to the audio source of the given rank by
/// the filename strategy: the rank-th audio target in path order, or
/// nothing when the targets run out.
pub open spec fn filename_assign(targets: Seq<TargetFile>, rank: int) -> Option<usize> {
    let order = audio_targets(targets).sort_by(path_order(targets));
    if 0 <= rank < order.len() {
        Some(targets[order[rank] as int].index)
    } else {
        None
    }
}

/// What the filename strategy leaves at each source position: the i-th
/// audio source is paired with the i-th audio target in path order, or
/// cleared when no target is left; non-audio sources are untouched.
pub open spec fn apply_filename(old: Seq<SourceFile>, targets: Seq<TargetFile>) -> Seq<
    SourceFile,
> {
    Seq::new(
        old.len(),
        |j: int|
            if old[j].is_audio {
                SourceFile {
                    mapping: filename_assign(targets, audio_sources_upto(old, j).len() as int),
                    ..old[j]
                }
            } else {
                old[j]
            },
    )
}

/// The target position handed to the audio source of the given sorted
/// rank by the size strategy: the rank-th audio target in size order, or
/// nothing when the targets run out.
pub open spec fn size_assign(targets: Seq<TargetFile>, rank: int) -> Option<usize> {
    let order = target_pairs(targets).sort_by(pair_order());
    if 0 <= rank < order.len() {
        Some(targets[order[rank].1 as int].index)
    } else {
        None
    }
}

/// What the size strategy guarantees: the i-th audio source in size order
/// is paired with the i-th audio target in size order (or cleared when
/// the targets run out), and every other source is untouched.
pub open spec fn size_mapped(
    old: Seq<SourceFile>,
    new: Seq<SourceFile>,
    targets: Seq<TargetFile>,
) -> bool {
    let order = source_pairs(old).sort_by(pair_order());
    &&& new.len() == old.len()
    &&& forall|i: int|
        0 <= i < order.len() ==> new[#[trigger] order[i].1 as int] == (SourceFile {
            mapping: size_assign(targets, i),
            ..old[order[i].1 as int]
        })
    &&& forall|j: int| 0 <= j < old.len() && !(#[trigger] old[j]).is_audio ==> new[j] == old[j]
}

/// Maps every non-audio source to the first target of equal size and
/// extension, scanning targets in declaration order; sources without a
/// match, and all audio sources, are left as they were.
pub fn map_exact(sources: &mut Vec<SourceFile>, targets: &Vec<TargetFile>)
    ensures
        final(sources)@ == apply_exact(old(sources)@, targets@),
{
    let n = sources.len();
    let nt = targets.len();
    let mut j: usize = 0;
    while j < n
        invariant
            n == sources@.len() == old(sources)@.len(),
            nt == targets@.len(),
            j <= n,
            forall|q: int| j <= q < n ==> #[trigger] sources@[q] == old(sources)@[q],
            forall|q: int|
                0 <= q < j ==> #[trigger] sources@[q] == apply_exact(old(sources)@, targets@)[q],
        decreases n - j,
    {
        if !sources[j].is_audio {
            let mut p: usize = 0;
            let mut found: Option<usize> = None;
            while p < nt && found.is_none()
                invariant
                    n == sources@.len(),
                    nt == targets@.len(),
                    j < n,
                    p <= nt,
                    sources@[j as int] == old(sources)@[j as int],
                    found is None ==> first_exact(targets@, sources@[j as int])
                        == first_exact_from(targets@, sources@[j as int], p as int),
                    found matches Some(f) ==> first_exact(targets@, sources@[j as int]) == Some(
                        f,
                    ),
                decreases nt - p,
            {
                if ext_match_exec(&targets[p], &sources[j]) {
                    found = Some(p);
                }
                p = p + 1;
            }
            match found {
                Some(pos) => {
                    let ghost pre = sources@;
                    let mut sf = sources.remove(j);
                    sf.mapping = Some(pos);
                    let ghost new_s = sf;
                    sources.insert(j, sf);
                    proof {
                        assert(sources@ =~= pre.update(j as int, new_s));
                        assert(first_exact(targets@, old(sources)@[j as int]) == Some(pos));
                    }
                },
                None => {
                    proof {
                        assert(first_exact(targets@, old(sources)@[j as int]) is None);
                    }
                },
            }
        }
        j = j + 1;
    }
    proof {
        assert(sources@ =~= apply_exact(old(sources)@, targets@));
    }
}

/// Compares a target and a source for an exact match: equal size and
/// equal extension.
fn ext_match_exec(t: &TargetFile, s: &SourceFile) -> (r: bool)
    ensures
        r == ext_match(*t, *s),
{
    if s.size != t.size {
        return false;
    }
    match (&s.extension, &t.extension) {
        (Some(x), Some(y)) => *x == *y,
        (None, None) => true,
        _ => false,
    }
}

/// Pairs audio files by filename order: the i-th audio source (in
/// inventory order) is mapped to the i-th audio target after sorting the
/// audio targets by path; audio sources past the last audio target are
/// cleared.  Non-audio sources are untouched.
pub fn map_by_filename(sources: &mut Vec<SourceFile>, targets: &Vec<TargetFile>)
    ensures
        final(sources)@ == apply_filename(old(sources)@, targets@),
{
    let nt = targets.len();
    let mut audio_idx: Vec<usize> = Vec::new();
    let mut k: usize = 0;
    while k < nt
        invariant
            nt == targets@.len(),
            k <= nt,
            audio_idx@ == audio_targets_upto(targets@, k as int),
            forall|q: int| 0 <= q < audio_idx@.len() ==> (#[trigger] audio_idx@[q] as int) < nt,
        decreases nt - k,
    {
        if targets[k].is_audio {
            audio_idx.push(k);
        }
        k = k + 1;
    }
    let order = sort_targets_by_path(targets, audio_idx);
    let n = sources.len();
    let mut i: usize = 0;
    let mut j: usize = 0;
    while j < n
        invariant
            n == sources@.len() == old(sources)@.len(),
            nt == targets@.len(),
            order@ == audio_targets(targets@).sort_by(path_order(targets@)),
            forall|q: int| 0 <= q < order@.len() ==> (#[trigger] order@[q] as int) < nt,
            j <= n,
            i <= j,
            i as int == audio_sources_upto(old(sources)@, j as int).len(),
            forall|q: int| j <= q < n ==> #[trigger] sources@[q] == old(sources)@[q],
            forall|q: int|
                0 <= q < j ==> #[trigger] sources@[q] == apply_filename(
                    old(sources)@,
                    targets@,
                )[q],
        decreases n - j,
    {
        if sources[j].is_audio {
            let assigned: Option<usize> = if i < order.len() {
                Some(targets[order[i]].index)
            } else {
                None
            };
            let ghost pre = sources@;
            let mut sf = sources.remove(j);
            sf.mapping = assigned;
            let ghost new_s = sf;
            sources.insert(j, sf);
            proof {
                assert(sources@ =~= pre.update(j as int, new_s));
                assert(assigned == filename_assign(targets@, i as int));
            }
            i = i + 1;
        }
        j = j + 1;
    }
    proof {
        assert(sources@ =~= apply_filename(old(sources)@, targets@));
    }
}

/// Whether some pair in `s` carries the position `j`.
pub open spec fn contains_pos(s: Seq<(u64, usize)>, j: int) -> bool {
    exists|x: int| 0 <= x < s.len() && (#[trigger] s[x]).1 as int == j
}

proof fn lemma_source_pairs_upto_wf(sources: Seq<SourceFile>, n: int)
    requires
        0 <= n <= sources.len() <= usize::MAX,
    ensures
        forall|q: int|
            0 <= q < source_pairs_upto(sources, n).len() ==> {
                let e = #[trigger] source_pairs_upto(sources, n)[q];
                &&& (e.1 as int) < n
                &&& sources[e.1 as int].is_audio
                &&& e.0 == sources[e.1 as int].size
            },
        forall|x: int, y: int|
            0 <= x < y < source_pairs_upto(sources, n).len() ==> (#[trigger] source_pairs_upto(
                sources,
                n,
            )[x]).1 < (#[trigger] source_pairs_upto(sources, n)[y]).1,
    decreases n,
{
    if n > 0 {
        lemma_source_pairs_upto_wf(sources, n - 1);
        let cur = source_pairs_upto(sources, n);
        let prev = source_pairs_upto(sources, n - 1);
        if sources[n - 1].is_audio {
            let e = (sources[n - 1].size, (n - 1) as usize);
            assert(cur == prev.push(e));
            assert forall|q: int| 0 <= q < cur.len() implies ((#[trigger] cur[q]).1 as int) < n
                && sources[cur[q].1 as int].is_audio && cur[q].0 == sources[cur[q].1
                as int].size by {
                if q < prev.len() {
                    assert(cur[q] == prev[q]);
                } else {
                    assert(cur[q] == e);
                }
            }
            assert forall|x: int, y: int| 0 <= x < y < cur.len() implies (#[trigger] cur[x]).1 < (
            #[trigger] cur[y]).1 by {
                if y < prev.len() {
                    assert(cur[x] == prev[x] && cur[y] == prev[y]);
                } else {
                    assert(cur[y] == e);
                    assert(cur[x] == prev[x]);
                }
            }
        }
    }
}

proof fn lemma_target_pairs_upto_wf(targets: Seq<TargetFile>, n: int)
    requires
        0 <= n <= targets.len() <= usize::MAX,
    ensures
        forall|q: int|
            0 <= q < target_pairs_upto(targets, n).len() ==> {
                let e = #[trigger] target_pairs_upto(targets, n)[q];
                &&& (e.1 as int) < n
                &&& targets[e.1 as int].is_audio
                &&& e.0 == targets[e.1 as int].size
            },
    decreases n,
{
    if n > 0 {
        lemma_target_pairs_upto_wf(targets, n - 1);
        let cur = target_pairs_upto(targets, n);
        let prev = target_pairs_upto(targets, n - 1);
        if targets[n - 1].is_audio {
            let e = (targets[n - 1].size, (n - 1) as usize);
            assert(cur == prev.push(e));
            assert forall|q: int| 0 <= q < cur.len() implies ((#[trigger] cur[q]).1 as int) < n
                && targets[cur[q].1 as int].is_audio && cur[q].0 == targets[cur[q].1
                as int].size by {
                if q < prev.len() {
                    assert(cur[q] == prev[q]);
                } else {
                    assert(cur[q] == e);
                }
            }
        }
    }
}

/// The size-sorted audio source pairs carry pairwise distinct positions,
/// and every pair describes an audio source.
proof fn lemma_source_order_facts(sources: Seq<SourceFile>)
    requires
        sources.len() <= usize::MAX,
    ensures
        ({
            let order = source_pairs(sources).sort_by(pair_order());
            &&& forall|x: int, y: int|
                0 <= x < order.len() && 0 <= y < order.len() && x != y ==> (
                #[trigger] order[x]).1 != (#[trigger] order[y]).1
            &&& forall|q: int|
                0 <= q < order.len() ==> {
                    let e = #[trigger] order[q];
                    &&& (e.1 as int) < sources.len()
                    &&& sources[e.1 as int].is_audio
                    &&& e.0 == sources[e.1 as int].size
                }
        }),
{
    broadcast use vstd::seq_lib::group_to_multiset_ensures;
    broadcast use vstd::multiset::group_multiset_axioms;

    let pairs = source_pairs(sources);
    let order = pairs.sort_by(pair_order());
    lemma_pair_order_total();
    lemma_source_pairs_upto_wf(sources, sources.len() as int);
    pairs.lemma_sort_by_ensures(pair_order());
    assert(pairs.no_duplicates()) by {
        assert forall|x: int, y: int|
            0 <= x < pairs.len() && 0 <= y < pairs.len() && x != y implies pairs[x]
            != pairs[y] by {
            if x < y {
                assert(pairs[x].1 < pairs[y].1);
            } else {
                assert(pairs[y].1 < pairs[x].1);
            }
        }
    }
    pairs.lemma_multiset_has_no_duplicates();
    assert(forall|v: (u64, usize)| order.to_multiset().count(v) == pairs.to_multiset().count(v));
    order.lemma_multiset_has_no_duplicates_conv();
    assert forall|q: int| 0 <= q < order.len() implies {
        let e = #[trigger] order[q];
        &&& (e.1 as int) < sources.len()
        &&& sources[e.1 as int].is_audio
        &&& e.0 == sources[e.1 as int].size
    } by {
        assert(order.contains(order[q]));
        assert(pairs.contains(order[q]));
        let ix = choose|ix: int| 0 <= ix < pairs.len() && pairs[ix] == order[q];
        assert(pairs[ix].1 == order[q].1);
    }
    assert forall|x: int, y: int|
        0 <= x < order.len() && 0 <= y < order.len() && x != y implies (#[trigger] order[x]).1
        != (#[trigger] order[y]).1 by {
        if order[x] != order[y] {
            if order[x].1 == order[y].1 {
                assert(order.contains(order[x]));
                assert(order.contains(order[y]));
                assert(pairs.contains(order[x]));
                assert(pairs.contains(order[y]));
                let ix = choose|ix: int| 0 <= ix < pairs.len() && pairs[ix] == order[x];
                let iy = choose|iy: int| 0 <= iy < pairs.len() && pairs[iy] == order[y];
                assert(pairs[ix].1 == pairs[iy].1);
                if ix < iy {
                    assert(pairs[ix].1 < pairs[iy].1);
                } else if iy < ix {
                    assert(pairs[iy].1 < pairs[ix].1);
                }
            }
        } else {
            assert(order.no_duplicates());
        }
    }
}

/// Every size-sorted audio target pair describes an audio target.
proof fn lemma_target_order_facts(targets: Seq<TargetFile>)
    requires
        targets.len() <= usize::MAX,
    ensures
        ({
            let order = target_pairs(targets).sort_by(pair_order());
            forall|q: int|
                0 <= q < order.len() ==> ((#[trigger] order[q]).1 as int) < targets.len()
        }),
{
    let pairs = target_pairs(targets);
    let order = pairs.sort_by(pair_order());
    lemma_pair_order_total();
    lemma_target_pairs_upto_wf(targets, targets.len() as int);
    pairs.lemma_sort_by_ensures(pair_order());
    assert forall|q: int| 0 <= q < order.len() implies ((#[trigger] order[q]).1 as int)
        < targets.len() by {
        assert(order.contains(order[q]));
        assert(pairs.contains(order[q]));
        let ix = choose|ix: int| 0 <= ix < pairs.len() && pairs[ix] == order[q];
        assert(pairs[ix].1 == order[q].1);
    }
}

/// Pairs audio files by size order: both audio collections are sorted by
/// size (stably) and paired positionally; audio sources past the last
/// audio target are cleared.  Non-audio sources are untouched.
pub fn map_by_size(sources: &mut Vec<SourceFile>, targets: &Vec<TargetFile>)
    ensures
        size_mapped(old(sources)@, final(sources)@, targets@),
{
    let n = sources.len();
    let nt = targets.len();
    let mut spairs: Vec<(u64, usize)> = Vec::new();
    let mut k: usize = 0;
    while k < n
        invariant
            n == sources@.len(),
            k <= n,
            spairs@ == source_pairs_upto(sources@, k as int),
        decreases n - k,
    {
        if sources[k].is_audio {
            spairs.push((sources[k].size, k));
        }
        k = k + 1;
    }
    let mut tpairs: Vec<(u64, usize)> = Vec::new();
    let mut k2: usize = 0;
    while k2 < nt
        invariant
            nt == targets@.len(),
            k2 <= nt,
            tpairs@ == target_pairs_upto(targets@, k2 as int),
        decreases nt - k2,
    {
        if targets[k2].is_audio {
            tpairs.push((targets[k2].size, k2));
        }
        k2 = k2 + 1;
    }
    let order_s = sort_size_pairs(spairs);
    let order_t = sort_size_pairs(tpairs);
    proof {
        lemma_source_order_facts(old(sources)@);
        lemma_target_order_facts(targets@);
    }
    let m = order_s.len();
    let mut i: usize = 0;
    while i < m
        invariant
            n == sources@.len() == old(sources)@.len(),
            nt == targets@.len(),
            order_s@ == source_pairs(old(sources)@).sort_by(pair_order()),
            order_t@ == target_pairs(targets@).sort_by(pair_order()),
            m == order_s@.len(),
            i <= m,
            forall|x: int, y: int|
                0 <= x < m && 0 <= y < m && x != y ==> (#[trigger] order_s@[x]).1 != (
                #[trigger] order_s@[y]).1,
            forall|q: int| 0 <= q < m ==> ((#[trigger] order_s@[q]).1 as int) < n,
            forall|q: int| 0 <= q < order_t@.len() ==> ((#[trigger] order_t@[q]).1 as int) < nt,
            forall|x: int|
                0 <= x < i ==> sources@[(#[trigger] order_s@[x]).1 as int] == (SourceFile {
                    mapping: size_assign(targets@, x),
                    ..old(sources)@[order_s@[x].1 as int]
                }),
            forall|j: int|
                0 <= j < n && !contains_pos(order_s@.take(i as int), j) ==> #[trigger] sources@[j]
                    == old(sources)@[j],
        decreases m - i,
    {
        let p: usize = order_s[i].1;
        let assigned: Option<usize> = if i < order_t.len() {
            Some(targets[order_t[i].1].index)
        } else {
            None
        };
        proof {
            assert(!contains_pos(order_s@.take(i as int), p as int));
        }
        let ghost pre = sources@;
        let mut sf = sources.remove(p);
        sf.mapping = assigned;
        let ghost new_s = sf;
        sources.insert(p, sf);
        proof {
            assert(sources@ =~= pre.update(p as int, new_s));
            assert(assigned == size_assign(targets@, i as int));
            assert forall|j: int|
                0 <= j < n && !contains_pos(order_s@.take(i as int + 1), j) implies
                #[trigger] sources@[j] == old(sources)@[j] by {
                assert(order_s@.take(i as int + 1)[i as int].1 == p);
                assert(j != p as int);
                if contains_pos(order_s@.take(i as int), j) {
                    let x = choose|x: int|
                        0 <= x < i && (#[trigger] order_s@.take(i as int)[x]).1 as int == j;
                    assert(order_s@.take(i as int + 1)[x].1 as int == j);
                }
            }
        }
        i = i + 1;
    }
    proof {
        assert forall|j: int|
            0 <= j < n && !(#[trigger] old(sources)@[j]).is_audio implies sources@[j] == old(
            sources,
        )@[j] by {
            if contains_pos(order_s@.take(m as int), j) {
                let x = choose|x: int|
                    0 <= x < m && (#[trigger] order_s@.take(m as int)[x]).1 as int == j;
                assert(order_s@[x].1 as int == j);
                assert(old(sources)@[j].is_audio);
            }
        }
    }
}

/// One file's outcome of the manual adjustment: blank keeps the current
/// mapping, `n` clears it, and an in-range target index replaces it; an
/// out-of-range index is reported and ignored.
#[derive(Clone, Copy, Debug, PartialEq, Eq, Structural)]
pub enum ManualReply {
    /// Leave the mapping as it is.
    Keep,
    /// Remove the mapping.
    Clear,
    /// Map to the target with this index.
    Index(usize),
}

/// The mapping the manual step leaves for one source.
pub open spec fn spec_manual_step(
    current: Option<usize>,
    reply: ManualReply,
    targets_len: int,
) -> Option<usize> {
    match reply {
        ManualReply::Keep => current,
        ManualReply::Clear => None,
        ManualReply::Index(i) => if (i as int) < targets_len {
            Some(i)
        } else {
            current
        },
    }
}

/// Applies one manual adjustment to one source's mapping: keep, clear,
/// or set to an index that is checked against the number of targets.
pub fn map_manual_step(current: Option<usize>, reply: ManualReply, targets_len: usize) -> (r:
    Option<usize>)
    ensures
        r == spec_manual_step(current, reply, targets_len as int),
{
    match reply {
        ManualReply::Keep => current,
        ManualReply::Clear => None,
        ManualReply::Index(i) => {
            if i < targets_len {
                Some(i)
            } else {
                current
            }
        },
    }
}

/// The targets after mirroring the first `n` sources' mappings onto
/// them, in source order: the last source to claim a target wins.
pub open spec fn link_upto(
    sources: Seq<SourceFile>,
    targets: Seq<TargetFile>,
    n: int,
) -> Seq<TargetFile>
    decreases n,
{
    if n <= 0 {
        targets
    } else {
        let prev = link_upto(sources, targets, n - 1);
        match sources[n - 1].mapping {
            Some(m) => if (m as int) < prev.len() {
                prev.update(
                    m as int,
                    TargetFile { mapping: Some((n - 1) as usize), ..prev[m as int] },
                )
            } else {
                prev
            },
            None => prev,
        }
    }
}

/// Linking never changes how many targets there are.
pub proof fn lemma_link_upto_len(sources: Seq<SourceFile>, targets: Seq<TargetFile>, n: int)
    ensures
        link_upto(sources, targets, n).len() == targets.len(),
    decreases n,
{
    if n > 0 {
        lemma_link_upto_len(sources, targets, n - 1);
    }
}

/// Mirrors the source-side mapping onto the targets: every mapped source
/// claims its target, in source order, the last claimant winning.  A
/// mapping that points past the targets is ignored.
pub fn link_targets(sources: &Vec<SourceFile>, targets: &mut Vec<TargetFile>)
    ensures
        final(targets)@ == link_upto(sources@, old(targets)@, sources@.len() as int),
{
    let n = sources.len();
    let mut i: usize = 0;
    while i < n
        invariant
            n == sources@.len(),
            i <= n,
            targets@ == link_upto(sources@, old(targets)@, i as int),
        decreases n - i,
    {
        proof {
            lemma_link_upto_len(sources@, old(targets)@, i as int);
        }
        match sources[i].mapping {
            Some(m) => {
                if m < targets.len() {
                    let ghost pre = targets@;
                    let mut t = targets.remove(m);
                    t.mapping = Some(i);
                    let ghost new_t = t;
                    targets.insert(m, t);
                    proof {
                        assert(targets@ =~= pre.update(m as int, new_t));
                    }
                }
            },
            None => {},
        }
        i = i + 1;
    }
}

/// Builds the default mapping: the exact non-audio match runs once, the
/// filename heuristic pairs the audio files, and the result is mirrored
/// onto the targets.  The interactive loop re-running other strategies
/// drives these same functions and `link_targets` afterwards.
pub fn create_mapping(sources: &mut Vec<SourceFile>, targets: &mut Vec<TargetFile>)
    ensures
        final(sources)@ == apply_filename(
            apply_exact(old(sources)@, old(targets)@),
            old(targets)@,
        ),
        final(targets)@ == link_upto(
            apply_filename(apply_exact(old(sources)@, old(targets)@), old(targets)@),
            old(targets)@,
            old(sources)@.len() as int,
        ),
{
    map_exact(sources, targets);
    map_by_filename(sources, targets);
    link_targets(sources, targets);
}

proof fn lemma_first_exact_congruent(
    targets: Seq<TargetFile>,
    a: SourceFile,
    b: SourceFile,
    j: int,
)
    requires
        a.size == b.size,
        a.extension == b.extension,
    ensures
        first_exact_from(targets, a, j) == first_exact_from(targets, b, j),
    decreases targets.len() - j,
{
    if 0 <= j < targets.len() {
        lemma_first_exact_congruent(targets, a, b, j + 1);
    }
}

/// Re-running the exact non-audio match changes nothing: it reads only
/// sizes and extensions, which it never writes.
pub proof fn lemma_exact_idempotent(s0: Seq<SourceFile>, targets: Seq<TargetFile>)
    ensures
        apply_exact(apply_exact(s0, targets), targets) == apply_exact(s0, targets),
{
    let s1 = apply_exact(s0, targets);
    let s2 = apply_exact(s1, targets);
    assert forall|j: int| 0 <= j < s1.len() implies s2[j] == s1[j] by {
        lemma_first_exact_congruent(targets, s1[j], s0[j], 0);
    }
    assert(s2 =~= s1);
}

proof fn lemma_audio_sources_congruent(s0: Seq<SourceFile>, s1: Seq<SourceFile>, n: int)
    requires
        s1.len() == s0.len(),
        forall|j: int| 0 <= j < s0.len() ==> (#[trigger] s1[j]).is_audio == s0[j].is_audio,
        0 <= n <= s0.len(),
    ensures
        audio_sources_upto(s1, n) == audio_sources_upto(s0, n),
    decreases n,
{
    if n > 0 {
        lemma_audio_sources_congruent(s0, s1, n - 1);
    }
}

/// Re-running the filename strategy changes nothing: it reads only the
/// audio flags and the targets, which it never writes.
pub proof fn lemma_filename_idempotent(s0: Seq<SourceFile>, targets: Seq<TargetFile>)
    ensures
        apply_filename(apply_filename(s0, targets), targets) == apply_filename(s0, targets),
{
    let s1 = apply_filename(s0, targets);
    let s2 = apply_filename(s1, targets);
    assert forall|j: int| 0 <= j < s1.len() implies s2[j] == s1[j] by {
        lemma_audio_sources_congruent(s0, s1, j);
    }
    assert(s2 =~= s1);
}

proof fn lemma_source_pairs_congruent(s0: Seq<SourceFile>, s1: Seq<SourceFile>, n: int)
    requires
        s1.len() == s0.len(),
        forall|j: int| 0 <= j < s0.len() ==> (#[trigger] s1[j]).is_audio == s0[j].is_audio,
        forall|j: int| 0 <= j < s0.len() ==> (#[trigger] s1[j]).size == s0[j].size,
        0 <= n <= s0.len(),
    ensures
        source_pairs_upto(s1, n) == source_pairs_upto(s0, n),
    decreases n,
{
    if n > 0 {
        lemma_source_pairs_congruent(s0, s1, n - 1);
    }
}

proof fn lemma_source_pairs_has(sources: Seq<SourceFile>, n: int, j: int)
    requires
        0 <= j < n <= sources.len() <= usize::MAX,
        sources[j].is_audio,
    ensures
        source_pairs_upto(sources, n).contains((sources[j].size, j as usize)),
    decreases n,
{
    if j == n - 1 {
        assert(source_pairs_upto(sources, n).last() == (sources[j].size, j as usize));
    } else {
        lemma_source_pairs_has(sources, n - 1, j);
        let e = (sources[j].size, j as usize);
        let prev = source_pairs_upto(sources, n - 1);
        let x = choose|x: int| 0 <= x < prev.len() && prev[x] == e;
        assert(source_pairs_upto(sources, n)[x] == e);
    }
}

/// Every audio source position appears in the size-sorted pair order.
proof fn lemma_source_order_covers(sources: Seq<SourceFile>, j: int)
    requires
        sources.len() <= usize::MAX,
        0 <= j < sources.len(),
        sources[j].is_audio,
    ensures
        ({
            let order = source_pairs(sources).sort_by(pair_order());
            exists|i: int|
                0 <= i < order.len() && #[trigger] order[i] == (sources[j].size, j as usize)
        }),
{
    broadcast use vstd::seq_lib::group_to_multiset_ensures;
    broadcast use vstd::multiset::group_multiset_axioms;

    let pairs = source_pairs(sources);
    let order = pairs.sort_by(pair_order());
    lemma_pair_order_total();
    pairs.lemma_sort_by_ensures(pair_order());
    lemma_source_pairs_has(sources, sources.len() as int, j);
    let e = (sources[j].size, j as usize);
    assert(pairs.to_multiset().contains(e));
    assert(order.to_multiset().contains(e));
    assert(order.contains(e));
    let i = choose|i: int| 0 <= i < order.len() && order[i] == e;
    assert(order[i] == e);
}

/// The size strategy is a pure function of the sizes and audio flags:
/// any two outcomes it allows from the same input are identical.
pub proof fn lemma_size_deterministic(
    s0: Seq<SourceFile>,
    targets: Seq<TargetFile>,
    n1: Seq<SourceFile>,
    n2: Seq<SourceFile>,
)
    requires
        s0.len() <= usize::MAX,
        size_mapped(s0, n1, targets),
        size_mapped(s0, n2, targets),
    ensures
        n1 == n2,
{
    let order = source_pairs(s0).sort_by(pair_order());
    assert forall|j: int| 0 <= j < s0.len() implies n1[j] == n2[j] by {
        if s0[j].is_audio {
            lemma_source_order_covers(s0, j);
            let i = choose|i: int|
                0 <= i < order.len() && #[trigger] order[i] == (s0[j].size, j as usize);
            assert(n1[order[i].1 as int] == (SourceFile {
                mapping: size_assign(targets, i),
                ..s0[order[i].1 as int]
            }));
            assert(n2[order[i].1 as int] == (SourceFile {
                mapping: size_assign(targets, i),
                ..s0[order[i].1 as int]
            }));
        }
    }
    assert(n1 =~= n2);
}

/// Re-running the size strategy changes nothing: it reads only sizes and
/// audio flags, which it never writes.
pub proof fn lemma_size_idempotent(
    s0: Seq<SourceFile>,
    s1: Seq<SourceFile>,
    s2: Seq<SourceFile>,
    targets: Seq<TargetFile>,
)
    requires
        s0.len() <= usize::MAX,
        size_mapped(s0, s1, targets),
        size_mapped(s1, s2, targets),
    ensures
        s2 == s1,
{
    let order0 = source_pairs(s0).sort_by(pair_order());
    assert forall|j: int| 0 <= j < s0.len() implies (#[trigger] s1[j]).is_audio
        == s0[j].is_audio && s1[j].size == s0[j].size by {
        if s0[j].is_audio {
            lemma_source_order_covers(s0, j);
            let i = choose|i: int|
                0 <= i < order0.len() && #[trigger] order0[i] == (s0[j].size, j as usize);
            assert(s1[order0[i].1 as int] == (SourceFile {
                mapping: size_assign(targets, i),
                ..s0[order0[i].1 as int]
            }));
        }
    }
    lemma_source_pairs_congruent(s0, s1, s0.len() as int);
    let order1 = source_pairs(s1).sort_by(pair_order());
    assert(order1 == order0);
    assert forall|j: int| 0 <= j < s0.len() implies s2[j] == s1[j] by {
        if s0[j].is_audio {
            lemma_source_order_covers(s0, j);
            let i = choose|i: int|
                0 <= i < order0.len() && #[trigger] order0[i] == (s0[j].size, j as usize);
            assert(s1[order0[i].1 as int] == (SourceFile {
                mapping: size_assign(targets, i),
                ..s0[order0[i].1 as int]
            }));
            assert(s2[order1[i].1 as int] == (SourceFile {
                mapping: size_assign(targets, i),
                ..s1[order1[i].1 as int]
            }));
        } else {
            assert(s2[j] == s1[j]);
        }
    }
    assert(s2 =~= s1);
}
} // verus!
