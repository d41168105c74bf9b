//! The piece-level verifier and the offset recovery search.
//!
//! The manifest defines a virtual contiguous byte stream: the concatenation
//! of all targets in declaration order.  Piece `i` covers the byte range
//! `[i*L, i*L + L)` of that stream (the final piece may be short).  The
//! functions here compute which targets each piece touches, plan the exact
//! source reads that reproduce a piece, judge a piece against its manifest
//! hash, aggregate per-target results, and search a source buffer for a
//! lost byte alignment.

use vstd::prelude::*;

use rayon::iter::IntoParallelIterator;
use rayon::iter::ParallelIterator;

use crate::hashing::{sha1_of, slice_matches};
use crate::model::{Manifest, SourceFile, TargetFile, start_of, total_size, wf_targets, MAX_STREAM};

verus! {

/// Start of piece `i` in the virtual stream.
pub open spec fn piece_start(piece_length: int, i: int) -> int {
    i * piece_length
}

/// End of piece `i` in the virtual stream: one piece length past its start,
/// capped at the stream's total size (the final piece may be short).
pub open spec fn piece_end(targets: Seq<TargetFile>, piece_length: int, i: int) -> int {
    if i * piece_length + piece_length <= total_size(targets) {
        i * piece_length + piece_length
    } else {
        total_size(targets)
    }
}

/// Number of pieces the manifest needs to cover the whole stream.
pub open spec fn num_pieces(targets: Seq<TargetFile>, piece_length: int) -> int {
    (total_size(targets) + piece_length - 1) / piece_length
}

/// Whether target `k`'s byte range intersects piece `i`'s byte range.
/// A target of size zero occupies an empty range and intersects no piece.
pub open spec fn touches(targets: Seq<TargetFile>, piece_length: int, i: int, k: int) -> bool {
    &&& targets[k].size > 0
    &&& start_of(targets, k) < piece_end(targets, piece_length, i)
    &&& piece_start(piece_length, i) < start_of(targets, k + 1)
}

/// The targets among the first `n` that piece `i` touches, in declaration
/// order.
pub open spec fn span_upto(targets: Seq<TargetFile>, piece_length: int, i: int, n: int) -> Seq<
    usize,
>
    decreases n,
{
    if n <= 0 {
        Seq::empty()
    } else if touches(targets, piece_length, i, n - 1) {
        span_upto(targets, piece_length, i, n - 1).push((n - 1) as usize)
    } else {
        span_upto(targets, piece_length, i, n - 1)
    }
}

/// The ordered sequence of target indices whose byte ranges intersect piece
/// `i`: the piece's span.
pub open spec fn span_of(targets: Seq<TargetFile>, piece_length: int, i: int) -> Seq<usize> {
    span_upto(targets, piece_length, i, targets.len() as int)
}

/// Target-local start of the part of target `k` that lies inside piece `i`.
pub open spec fn chunk_lo(targets: Seq<TargetFile>, piece_length: int, i: int, k: int) -> int {
    if piece_start(piece_length, i) > start_of(targets, k) {
        piece_start(piece_length, i) - start_of(targets, k)
    } else {
        0
    }
}

/// Target-local end of the part of target `k` that lies inside piece `i`.
pub open spec fn chunk_hi(targets: Seq<TargetFile>, piece_length: int, i: int, k: int) -> int {
    if piece_end(targets, piece_length, i) < start_of(targets, k + 1) {
        piece_end(targets, piece_length, i) - start_of(targets, k)
    } else {
        targets[k].size as int
    }
}

/// Whether target `k`'s part of piece `i` can be read from its mapped
/// source: the target is mapped and the offset-adjusted read position is
/// not negative.
pub open spec fn readable_at(targets: Seq<TargetFile>, piece_length: int, i: int, k: int) -> bool {
    &&& targets[k].mapping is Some
    &&& chunk_lo(targets, piece_length, i, k) + targets[k].offset as int >= 0
}

/// Whether every target that piece `i` touches can supply its bytes.
pub open spec fn piece_readable(targets: Seq<TargetFile>, piece_length: int, i: int) -> bool {
    forall|k: int|
        0 <= k < targets.len() && touches(targets, piece_length, i, k) ==> readable_at(
            targets,
            piece_length,
            i,
            k,
        )
}

/// One planned source read: reproduce target `target`'s part of a piece by
/// reading `len` bytes of source `source` starting at byte `source_pos`.
pub struct ChunkPlan {
    /// The touched target this read stands for.
    pub target: usize,
    /// Index of the mapped source file to read from.
    pub source: usize,
    /// Offset-adjusted read position in the source file.
    pub source_pos: u64,
    /// Number of bytes to read.
    pub len: u64,
}

/// The read plan for one piece: the targets it touches and, when every one
/// of them is mapped and seekable, the ordered reads that reproduce it.
pub struct PiecePlan {
    /// Every target index the piece touches, in declaration order.
    pub files: Vec<usize>,
    /// False when some touched target is unmapped or its offset would force
    /// a read before the start of its source; the piece then counts as
    /// failed without reading.
    pub readable: bool,
    /// One planned read per touched target, in order; meaningful only when
    /// `readable` holds.
    pub chunks: Vec<ChunkPlan>,
}

/// Lays out the read plan for piece `i`: walks the full span of targets the
/// piece touches and computes the offset-adjusted read for each.
pub fn plan_piece(targets: &Vec<TargetFile>, piece_length: u64, i: u64) -> (r: PiecePlan)
    requires
        wf_targets(targets@),
        1 <= piece_length as int <= MAX_STREAM as int,
        0 <= (i as int) * (piece_length as int) < total_size(targets@),
    ensures
        r.files@ == span_of(targets@, piece_length as int, i as int),
        r.readable == piece_readable(targets@, piece_length as int, i as int),
        r.readable ==> {
            &&& r.chunks@.len() == r.files@.len()
            &&& forall|j: int|
                0 <= j < r.files@.len() ==> {
                    let k = r.files@[j] as int;
                    &&& (#[trigger] r.chunks@[j]).target == r.files@[j]
                    &&& targets@[k].mapping == Some(r.chunks@[j].source)
                    &&& r.chunks@[j].source_pos as int == chunk_lo(
                        targets@,
                        piece_length as int,
                        i as int,
                        k,
                    ) + targets@[k].offset as int
                    &&& r.chunks@[j].len as int == chunk_hi(
                        targets@,
                        piece_length as int,
                        i as int,
                        k,
                    ) - chunk_lo(targets@, piece_length as int, i as int, k)
                }
        },
{
    let ghost gl: int = piece_length as int;
    let ghost gi: int = i as int;
    let n = targets.len();
    proof {
        crate::model::lemma_start_bounded(targets@, n as int);
    }
    let ps: u64 = i * piece_length;
    let pe_raw: u64 = ps + piece_length;
    let total: u64 = compute_total(targets);
    let pe: u64 = if pe_raw <= total {
        pe_raw
    } else {
        total
    };
    assert(pe as int == piece_end(targets@, gl, gi));

    let mut files: Vec<usize> = Vec::new();
    let mut chunks: Vec<ChunkPlan> = Vec::new();
    let mut readable: bool = true;
    let ghost mut bad_q: int = 0;
    let mut start: u64 = 0;
    let mut k: usize = 0;
    while k < n
        invariant
            wf_targets(targets@),
            n == targets@.len(),
            1 <= gl <= MAX_STREAM as int,
            0 <= gi * gl < total_size(targets@),
            ps as int == gi * gl,
            pe as int == piece_end(targets@, gl, gi),
            k <= n,
            start as int == start_of(targets@, k as int),
            files@ == span_upto(targets@, gl, gi, k as int),
            readable ==> (forall|q: int|
                0 <= q < k && touches(targets@, gl, gi, q) ==> readable_at(targets@, gl, gi, q)),
            !readable ==> 0 <= bad_q < k && touches(targets@, gl, gi, bad_q) && !readable_at(
                targets@,
                gl,
                gi,
                bad_q,
            ),
            readable ==> {
                &&& chunks@.len() == files@.len()
                &&& forall|j: int|
                    0 <= j < files@.len() ==> {
                        let kk = files@[j] as int;
                        &&& (#[trigger] chunks@[j]).target == files@[j]
                        &&& targets@[kk].mapping == Some(chunks@[j].source)
                        &&& chunks@[j].source_pos as int == chunk_lo(targets@, gl, gi, kk)
                            + targets@[kk].offset as int
                        &&& chunks@[j].len as int == chunk_hi(targets@, gl, gi, kk) - chunk_lo(
                            targets@,
                            gl,
                            gi,
                            kk,
                        )
                    }
            },
        decreases n - k,
    {
        proof {
            crate::model::lemma_start_bounded(targets@, k as int + 1);
        }
        let size_k = targets[k].size;
        let next_start: u64 = start + size_k;
        if size_k > 0 && start < pe && ps < next_start {
            // target k is touched by piece i
            files.push(k);
            let lo: u64 = if ps > start {
                ps - start
            } else {
                0
            };
            let hi: u64 = if pe < next_start {
                pe - start
            } else {
                size_k
            };
            match targets[k].mapping {
                Some(src) => {
                    let pos_wide: i128 = lo as i128 + targets[k].offset as i128;
                    if pos_wide < 0 {
                        proof {
                            if readable {
                                bad_q = k as int;
                            }
                        }
                        readable = false;
                    } else if readable {
                        let source_pos: u64 = pos_wide as u64;
                        chunks.push(
                            ChunkPlan { target: k, source: src, source_pos, len: hi - lo },
                        );
                    }
                },
                None => {
                    proof {
                        if readable {
                            bad_q = k as int;
                        }
                    }
                    readable = false;
                },
            }
        }
        start = next_start;
        k = k + 1;
    }
    PiecePlan { files, readable, chunks }
}

/// Outcome of judging one piece: the targets it touched and whether the
/// reassembled bytes hashed to the manifest's digest for it.
pub struct PieceResult {
    /// Every target index the piece touches, in declaration order.
    pub files: Vec<usize>,
    /// True iff the piece could be read and its hash matched.
    pub success: bool,
}

/// Per-target verification tally.
#[derive(Clone, Copy)]
pub struct FileResult {
    /// Pieces touching this target whose hash matched.
    pub good: u32,
    /// Pieces touching this target, floored at one so a target that no
    /// piece touched reports zero confidence rather than dividing by zero.
    pub total: u32,
}

/// Concatenation of a sequence of byte chunks into one byte sequence.
pub open spec fn concat_bytes(chunks: Seq<Seq<u8>>) -> Seq<u8>
    decreases chunks.len(),
{
    if chunks.len() == 0 {
        Seq::empty()
    } else {
        concat_bytes(chunks.drop_last()) + chunks.last()
    }
}

/// Judges one piece: concatenates the bytes read for its chunks, hashes
/// them and compares against the manifest's digest for the piece.  A piece
/// whose plan was not readable fails outright, without looking at bytes.
pub fn evaluate_piece(plan: &PiecePlan, data: &Vec<Vec<u8>>, expected: &Vec<u8>) -> (r: PieceResult)
    ensures
        r.files@ == plan.files@,
        r.success == (plan.readable && sha1_of(concat_bytes(data.deep_view())) == expected@),
{
    let files = clone_indices(&plan.files);
    if !plan.readable {
        return PieceResult { files, success: false };
    }
    let mut buffer: Vec<u8> = Vec::new();
    let n = data.len();
    let mut j: usize = 0;
    while j < n
        invariant
            n == data@.len(),
            j <= n,
            buffer@ == concat_bytes(data.deep_view().take(j as int)),
        decreases n - j,
    {
        proof {
            assert(data.deep_view().take(j as int + 1).drop_last() =~= data.deep_view().take(
                j as int,
            ));
            assert(data.deep_view().take(j as int + 1).last() == data.deep_view()[j as int]);
        }
        buffer.extend_from_slice(data[j].as_slice());
        j = j + 1;
    }
    proof {
        assert(data.deep_view().take(n as int) =~= data.deep_view());
    }
    let digest = crate::hashing::sha1_digest(buffer.as_slice());
    let success = crate::hashing::bytes_eq(digest.as_slice(), expected.as_slice());
    PieceResult { files, success }
}

/// Copies a vector of indices.
fn clone_indices(v: &Vec<usize>) -> (r: Vec<usize>)
    ensures
        r@ == v@,
{
    let mut r: Vec<usize> = Vec::new();
    let n = v.len();
    let mut j: usize = 0;
    while j < n
        invariant
            n == v@.len(),
            j <= n,
            r@ == v@.take(j as int),
        decreases n - j,
    {
        proof {
            assert(v@.take(j as int + 1) =~= v@.take(j as int).push(v@[j as int]));
        }
        r.push(v[j]);
        j = j + 1;
    }
    proof {
        assert(v@.take(n as int) =~= v@);
    }
    r
}

/// Number of piece results among `results` that touch target `t`.
pub open spec fn count_touch(results: Seq<PieceResult>, t: usize) -> int
    decreases results.len(),
{
    if results.len() == 0 {
        0
    } else {
        count_touch(results.drop_last(), t) + if results.last().files@.contains(t) {
            1int
        } else {
            0int
        }
    }
}

/// Number of piece results among `results` that touch target `t` and
/// hashed correctly.
pub open spec fn count_good(results: Seq<PieceResult>, t: usize) -> int
    decreases results.len(),
{
    if results.len() == 0 {
        0
    } else {
        count_good(results.drop_last(), t) + if results.last().files@.contains(t)
            && results.last().success {
            1int
        } else {
            0int
        }
    }
}

/// Both counts stay below the number of results.
pub proof fn lemma_counts_bounded(results: Seq<PieceResult>, t: usize)
    ensures
        0 <= count_good(results, t) <= count_touch(results, t) <= results.len(),
    decreases results.len(),
{
    if results.len() > 0 {
        lemma_counts_bounded(results.drop_last(), t);
    }
}

/// The per-target tally a finished scan owes target `t`: every touching
/// piece counted, good ones separately, and a total floored at one.
pub open spec fn tally_of(results: Seq<PieceResult>, t: usize) -> FileResult {
    FileResult {
        good: count_good(results, t) as u32,
        total: if count_touch(results, t) == 0 {
            1u32
        } else {
            count_touch(results, t) as u32
        },
    }
}

/// Aggregates piece results into one `FileResult` per target: `good` counts
/// the touching pieces whose hash matched, `total` all touching pieces,
/// floored at one.
pub fn aggregate_results(targets_len: usize, results: &Vec<PieceResult>) -> (r: Vec<FileResult>)
    requires
        results@.len() <= u32::MAX,
    ensures
        r@.len() == targets_len,
        forall|t: int| 0 <= t < targets_len ==> r@[t] == tally_of(results@, t as usize),
{
    let mut r: Vec<FileResult> = Vec::new();
    let n = results.len();
    let mut t: usize = 0;
    while t < targets_len
        invariant
            n == results@.len() <= u32::MAX,
            t <= targets_len,
            r@.len() == t,
            forall|q: int| 0 <= q < t ==> r@[q] == tally_of(results@, q as usize),
        decreases targets_len - t,
    {
        let mut good: u32 = 0;
        let mut touch: u32 = 0;
        let mut j: usize = 0;
        while j < n
            invariant
                n == results@.len() <= u32::MAX,
                j <= n,
                good as int == count_good(results@.take(j as int), t),
                touch as int == count_touch(results@.take(j as int), t),
            decreases n - j,
        {
            proof {
                lemma_counts_bounded(results@.take(j as int), t);
                assert(results@.take(j as int + 1).drop_last() =~= results@.take(j as int));
            }
            if contains_index(&results[j].files, t) {
                touch = touch + 1;
                if results[j].success {
                    good = good + 1;
                }
            }
            j = j + 1;
        }
        proof {
            assert(results@.take(n as int) =~= results@);
        }
        let total: u32 = if touch == 0 {
            1
        } else {
            touch
        };
        r.push(FileResult { good, total });
        t = t + 1;
    }
    r
}

/// Whether `v` holds the index `t`.
pub fn contains_index(v: &Vec<usize>, t: usize) -> (r: bool)
    ensures
        r == v@.contains(t),
{
    let n = v.len();
    let mut j: usize = 0;
    while j < n
        invariant
            n == v@.len(),
            j <= n,
            forall|q: int| 0 <= q < j ==> v@[q] != t,
        decreases n - j,
    {
        if v[j] == t {
            return true;
        }
        j = j + 1;
    }
    false
}

/// Multiplying by a positive `l` and flooring division by `l` are adjoint:
/// `i * l <= x` exactly when `i <= x / l`.
proof fn lemma_mul_le_div(i: int, x: int, l: int)
    requires
        l > 0,
    ensures
        (i * l <= x) <==> (i <= x / l),
{
    vstd::arithmetic::div_mod::lemma_fundamental_div_mod(x, l);
    vstd::arithmetic::div_mod::lemma_mod_bound(x, l);
    let q = x / l;
    let r = x % l;
    assert((i * l <= x) <==> (i <= q)) by (nonlinear_arith)
        requires
            x == l * q + r,
            0 <= r < l,
    ;
}

/// Computes the byte position where target `k` starts in the virtual
/// stream.
pub fn compute_start(targets: &Vec<TargetFile>, k: usize) -> (r: u64)
    requires
        k <= targets@.len(),
        total_size(targets@) <= MAX_STREAM as int,
    ensures
        r as int == start_of(targets@, k as int),
{
    let mut start: u64 = 0;
    let mut q: usize = 0;
    while q < k
        invariant
            k <= targets@.len(),
            q <= k,
            total_size(targets@) <= MAX_STREAM as int,
            start as int == start_of(targets@, q as int),
        decreases k - q,
    {
        proof {
            crate::model::lemma_start_bounded(targets@, q as int + 1);
        }
        start = start + targets[q].size;
        q = q + 1;
    }
    start
}

/// Computes the exact half-open range `[lo, hi)` of piece indices whose
/// byte ranges intersect target `only`: restricting a scan to it covers
/// every boundary piece and no other.
pub fn scan_bounds(targets: &Vec<TargetFile>, piece_length: u64, only: usize) -> (r: (u64, u64))
    requires
        wf_targets(targets@),
        1 <= piece_length as int <= MAX_STREAM as int,
        (only as int) < targets@.len(),
    ensures
        r.0 as int == spec_scan_range(targets@, piece_length as int, Some(only)).0,
        r.1 as int == spec_scan_range(targets@, piece_length as int, Some(only)).1,
        forall|i: int|
            ((r.0 as int) <= i < (r.1 as int)) <==> touches(
                targets@,
                piece_length as int,
                i,
                only as int,
            ),
        r.1 as int <= num_pieces(targets@, piece_length as int),
{
    let ghost gl: int = piece_length as int;
    let ghost k: int = only as int;
    proof {
        crate::model::lemma_start_bounded(targets@, k + 1);
        crate::model::lemma_start_bounded(targets@, k);
    }
    let start: u64 = compute_start(targets, only);
    let size: u64 = targets[only].size;
    if size == 0 {
        proof {
            assert(forall|i: int| !touches(targets@, gl, i, k));
        }
        return (0, 0);
    }
    let lo: u64 = start / piece_length;
    let hi: u64 = (start + size - 1) / piece_length + 1;
    proof {
        let s = start as int;
        let z = size as int;
        let total = total_size(targets@);
        assert(start_of(targets@, k + 1) == s + z);
        assert forall|i: int| ((lo as int) <= i < (hi as int)) <==> touches(
            targets@,
            gl,
            i,
            k,
        ) by {
            lemma_mul_le_div(i, s + z - 1, gl);
            assert((i * gl < s + z) <==> (i < hi as int));
            lemma_mul_le_div(i, s - gl, gl);
            vstd::arithmetic::div_mod::lemma_fundamental_div_mod(s - gl, gl);
            vstd::arithmetic::div_mod::lemma_fundamental_div_mod(s, gl);
            vstd::arithmetic::div_mod::lemma_mod_bound(s - gl, gl);
            vstd::arithmetic::div_mod::lemma_mod_bound(s, gl);
            assert((s - gl) / gl == s / gl - 1) by (nonlinear_arith)
                requires
                    gl > 0,
                    s - gl == gl * ((s - gl) / gl) + (s - gl) % gl,
                    s == gl * (s / gl) + s % gl,
                    0 <= (s - gl) % gl < gl,
                    0 <= s % gl < gl,
            ;
            assert((s < i * gl + gl) <==> (i >= lo as int)) by (nonlinear_arith)
                requires
                    gl > 0,
                    lo as int == s / gl,
                    (i * gl <= s - gl) <==> (i <= (s - gl) / gl),
                    (s - gl) / gl == s / gl - 1,
            ;
            assert(s < total);
            assert(touches(targets@, gl, i, k) <==> (s < piece_end(targets@, gl, i) && i * gl < s
                + z));
            assert(s < piece_end(targets@, gl, i) <==> (s < i * gl + gl));
        }
        let tm = total - 1;
        assert(s + z <= total);
        vstd::arithmetic::div_mod::lemma_div_is_ordered(s + z - 1, tm, gl);
        vstd::arithmetic::div_mod::lemma_fundamental_div_mod(tm, gl);
        vstd::arithmetic::div_mod::lemma_mod_bound(tm, gl);
        assert(tm + gl == (tm / gl + 1) * gl + tm % gl) by (nonlinear_arith)
            requires
                gl > 0,
                tm == gl * (tm / gl) + tm % gl,
        ;
        vstd::arithmetic::div_mod::lemma_fundamental_div_mod_converse_div(
            tm + gl,
            gl,
            tm / gl + 1,
            tm % gl,
        );
        assert(num_pieces(targets@, gl) == tm / gl + 1);
        assert(hi as int <= num_pieces(targets@, gl));
    }
    (lo, hi)
}

/// Well-formedness of a manifest against the target collection: a positive
/// bounded piece length and one 20-byte digest per piece of the stream.
pub open spec fn wf_manifest(m: Manifest, targets: Seq<TargetFile>) -> bool {
    &&& 1 <= m.piece_length as int <= MAX_STREAM as int
    &&& m.piece_hashes@.len() == num_pieces(targets, m.piece_length as int)
    &&& forall|i: int|
        0 <= i < m.piece_hashes@.len() ==> (#[trigger] m.piece_hashes@[i])@.len() == 20
}

/// Every piece index below the piece count starts inside the stream.
pub proof fn lemma_piece_in_range(targets: Seq<TargetFile>, piece_length: int, i: int)
    requires
        piece_length > 0,
        0 <= i < num_pieces(targets, piece_length),
    ensures
        i * piece_length < total_size(targets),
{
    let total = total_size(targets);
    let tm = total - 1;
    if total <= 0 {
        vstd::arithmetic::div_mod::lemma_div_is_ordered(
            total + piece_length - 1,
            piece_length - 1,
            piece_length,
        );
        vstd::arithmetic::div_mod::lemma_basic_div_specific_divisor(piece_length);
        assert(num_pieces(targets, piece_length) <= 0);
    } else {
        vstd::arithmetic::div_mod::lemma_fundamental_div_mod(tm, piece_length);
        vstd::arithmetic::div_mod::lemma_mod_bound(tm, piece_length);
        assert(tm + piece_length == (tm / piece_length + 1) * piece_length + tm
            % piece_length) by (nonlinear_arith)
            requires
                piece_length > 0,
                tm == piece_length * (tm / piece_length) + tm % piece_length,
        ;
        vstd::arithmetic::div_mod::lemma_fundamental_div_mod_converse_div(
            tm + piece_length,
            piece_length,
            tm / piece_length + 1,
            tm % piece_length,
        );
        assert(num_pieces(targets, piece_length) == tm / piece_length + 1);
        lemma_mul_le_div(i, tm, piece_length);
    }
}

/// The half-open range of piece indices one scan covers: every piece when
/// no restriction is given, and exactly the pieces touching `only`
/// otherwise.
pub open spec fn spec_scan_range(targets: Seq<TargetFile>, piece_length: int, only: Option<
    usize,
>) -> (int, int) {
    match only {
        None => (0, num_pieces(targets, piece_length)),
        Some(f) => {
            let s = start_of(targets, f as int);
            let z = targets[f as int].size as int;
            if z == 0 {
                (0, 0)
            } else {
                (s / piece_length, (s + z - 1) / piece_length + 1)
            }
        },
    }
}

/// Computes the piece range one scan covers: all pieces, or exactly those
/// touching the one target a restricted scan asks for.
pub fn scan_range(targets: &Vec<TargetFile>, piece_length: u64, only: Option<usize>) -> (r: (
    u64,
    u64,
))
    requires
        wf_targets(targets@),
        1 <= piece_length as int <= MAX_STREAM as int,
        only is Some ==> (only.unwrap() as int) < targets@.len(),
    ensures
        r.0 as int == spec_scan_range(targets@, piece_length as int, only).0,
        r.1 as int == spec_scan_range(targets@, piece_length as int, only).1,
        r.1 as int <= num_pieces(targets@, piece_length as int),
        forall|i: int|
            r.0 as int <= i < r.1 as int ==> #[trigger] piece_start(piece_length as int, i)
                < total_size(targets@),
        only is Some ==> forall|i: int|
            (r.0 as int <= i < r.1 as int) <==> touches(
                targets@,
                piece_length as int,
                i,
                only.unwrap() as int,
            ),
{
    let ghost gl: int = piece_length as int;
    match only {
        Some(f) => {
            let r = scan_bounds(targets, piece_length, f);
            proof {
                assert forall|i: int| r.0 as int <= i < r.1 as int implies #[trigger] piece_start(
                    gl,
                    i,
                ) < total_size(targets@) by {
                    assert(touches(targets@, gl, i, f as int));
                    crate::model::lemma_start_bounded(targets@, f as int + 1);
                }
            }
            r
        },
        None => {
            let total = compute_total(targets);
            let num: u64 = (total + piece_length - 1) / piece_length;
            proof {
                assert forall|i: int| 0 <= i < num as int implies #[trigger] piece_start(gl, i)
                    < total_size(targets@) by {
                    lemma_piece_in_range(targets@, gl, i);
                }
            }
            (0, num)
        },
    }
}

/// Whether piece `i`, reassembled from `data`, hashes to `hash`: the piece
/// had to be fully readable and its digest equal to the manifest's.
pub open spec fn piece_ok(
    targets: Seq<TargetFile>,
    piece_length: int,
    i: int,
    data: Seq<Seq<u8>>,
    hash: Seq<u8>,
) -> bool {
    piece_readable(targets, piece_length, i) && sha1_of(concat_bytes(data)) == hash
}

/// Number of pieces among the first `n` scanned (piece indices `lo` up to
/// `lo + n`) that touch target `t`.
pub open spec fn scan_touch(
    targets: Seq<TargetFile>,
    piece_length: int,
    lo: int,
    n: int,
    t: usize,
) -> int
    decreases n,
{
    if n <= 0 {
        0
    } else {
        scan_touch(targets, piece_length, lo, n - 1, t) + if span_of(
            targets,
            piece_length,
            lo + n - 1,
        ).contains(t) {
            1int
        } else {
            0int
        }
    }
}

/// Number of pieces among the first `n` scanned that touch target `t` and
/// hashed correctly against the bytes read for them.
pub open spec fn scan_good(
    targets: Seq<TargetFile>,
    piece_length: int,
    lo: int,
    n: int,
    t: usize,
    data: Seq<Seq<Seq<u8>>>,
    hashes: Seq<Seq<u8>>,
) -> int
    decreases n,
{
    if n <= 0 {
        0
    } else {
        scan_good(targets, piece_length, lo, n - 1, t, data, hashes) + if span_of(
            targets,
            piece_length,
            lo + n - 1,
        ).contains(t) && piece_ok(targets, piece_length, lo + n - 1, data[n - 1], hashes[lo + n
            - 1]) {
            1int
        } else {
            0int
        }
    }
}

/// The tally the scan over `[lo, lo + n)` owes target `t`.
pub open spec fn scan_tally(
    targets: Seq<TargetFile>,
    piece_length: int,
    lo: int,
    n: int,
    t: usize,
    data: Seq<Seq<Seq<u8>>>,
    hashes: Seq<Seq<u8>>,
) -> FileResult {
    FileResult {
        good: scan_good(targets, piece_length, lo, n, t, data, hashes) as u32,
        total: if scan_touch(targets, piece_length, lo, n, t) == 0 {
            1u32
        } else {
            scan_touch(targets, piece_length, lo, n, t) as u32
        },
    }
}

/// Runs a hash check over the scanned piece range on the bytes read for
/// it, and reports one `{good, total}` tally per target, or the one tally
/// of the single target a restricted scan asked for.
///
/// `piece_data[j]` holds, for the `j`-th scanned piece, one byte chunk per
/// touched target, read from the mapped sources as `plan_piece` lays out.
/// The check never mutates mappings or offsets.
pub fn hash_check(
    manifest: &Manifest,
    targets: &Vec<TargetFile>,
    piece_data: &Vec<Vec<Vec<u8>>>,
    onlyscanfile: Option<usize>,
) -> (r: Vec<FileResult>)
    requires
        wf_targets(targets@),
        wf_manifest(*manifest, targets@),
        onlyscanfile is Some ==> (onlyscanfile.unwrap() as int) < targets@.len(),
        piece_data@.len() == spec_scan_range(targets@, manifest.piece_length as int, onlyscanfile).1
            - spec_scan_range(targets@, manifest.piece_length as int, onlyscanfile).0,
        piece_data@.len() <= u32::MAX,
        forall|j: int|
            0 <= j < piece_data@.len() && piece_readable(
                targets@,
                manifest.piece_length as int,
                spec_scan_range(targets@, manifest.piece_length as int, onlyscanfile).0 + j,
            ) ==> (#[trigger] piece_data@[j])@.len() == span_of(
                targets@,
                manifest.piece_length as int,
                spec_scan_range(targets@, manifest.piece_length as int, onlyscanfile).0 + j,
            ).len(),
    ensures
        ({
            let gl = manifest.piece_length as int;
            let lo = spec_scan_range(targets@, gl, onlyscanfile).0;
            let n = piece_data@.len() as int;
            let data = piece_data.deep_view();
            let hashes = manifest.piece_hashes.deep_view();
            match onlyscanfile {
                None => {
                    &&& r@.len() == targets@.len()
                    &&& forall|t: int|
                        0 <= t < targets@.len() ==> r@[t] == scan_tally(
                            targets@,
                            gl,
                            lo,
                            n,
                            t as usize,
                            data,
                            hashes,
                        )
                },
                Some(f) => {
                    &&& r@.len() == 1
                    &&& r@[0] == scan_tally(targets@, gl, lo, n, f, data, hashes)
                },
            }
        }),
{
    let ghost gl: int = manifest.piece_length as int;
    let (lo, hi) = scan_range(targets, manifest.piece_length, onlyscanfile);
    let ghost glo: int = lo as int;
    let n = piece_data.len();
    let nh = manifest.piece_hashes.len();
    let mut results: Vec<PieceResult> = Vec::new();
    let mut j: usize = 0;
    while j < n
        invariant
            wf_targets(targets@),
            wf_manifest(*manifest, targets@),
            gl == manifest.piece_length as int,
            glo == lo as int,
            lo as int == spec_scan_range(targets@, gl, onlyscanfile).0,
            hi as int == spec_scan_range(targets@, gl, onlyscanfile).1,
            hi as int <= num_pieces(targets@, gl),
            nh == manifest.piece_hashes@.len(),
            n == piece_data@.len() == (hi as int) - (lo as int),
            forall|i: int|
                lo as int <= i < hi as int ==> #[trigger] piece_start(gl, i) < total_size(
                    targets@,
                ),
            forall|q: int|
                0 <= q < piece_data@.len() && piece_readable(targets@, gl, glo + q) ==> (
                #[trigger] piece_data@[q])@.len() == span_of(targets@, gl, glo + q).len(),
            j <= n,
            results@.len() == j,
            forall|t: usize|
                count_touch(results@, t) == scan_touch(targets@, gl, glo, j as int, t),
            forall|t: usize|
                count_good(results@, t) == scan_good(
                    targets@,
                    gl,
                    glo,
                    j as int,
                    t,
                    piece_data.deep_view(),
                    manifest.piece_hashes.deep_view(),
                ),
        decreases n - j,
    {
        proof {
            assert(lo as int + j < hi as int <= num_pieces(targets@, gl));
            assert(piece_start(gl, glo + j) < total_size(targets@));
            assert((glo + j) * gl >= 0) by (nonlinear_arith)
                requires
                    glo + j >= 0,
                    gl >= 1,
            ;
        }
        let idx: usize = (lo + j as u64) as usize;
        let plan = plan_piece(targets, manifest.piece_length, lo + j as u64);
        let result = evaluate_piece(&plan, &piece_data[j], &manifest.piece_hashes[idx]);
        let ghost old_results = results@;
        results.push(result);
        proof {
            assert(results@.drop_last() =~= old_results);
            assert(results@.last() == result);
            assert(piece_data.deep_view()[j as int] == piece_data@[j as int].deep_view());
            assert(manifest.piece_hashes@[glo + j].deep_view() =~= manifest.piece_hashes@[glo
                + j]@);
            assert(manifest.piece_hashes.deep_view()[glo + j] == manifest.piece_hashes@[glo + j]@);
            assert(result.files@ == span_of(targets@, gl, glo + j));
            assert(result.success == (piece_readable(targets@, gl, glo + j) && sha1_of(
                concat_bytes(piece_data.deep_view()[j as int]),
            ) == manifest.piece_hashes.deep_view()[glo + j]));
            assert forall|t: usize| count_touch(results@, t) == scan_touch(
                targets@,
                gl,
                glo,
                j as int + 1,
                t,
            ) by {
                assert(count_touch(results@, t) == count_touch(old_results, t) + if span_of(
                    targets@,
                    gl,
                    glo + j,
                ).contains(t) {
                    1int
                } else {
                    0int
                });
                assert(scan_touch(targets@, gl, glo, j as int + 1, t) == scan_touch(
                    targets@,
                    gl,
                    glo,
                    j as int,
                    t,
                ) + if span_of(targets@, gl, glo + j).contains(t) {
                    1int
                } else {
                    0int
                });
            }
            assert forall|t: usize| count_good(
                results@,
                t,
            ) == scan_good(
                targets@,
                gl,
                glo,
                j as int + 1,
                t,
                piece_data.deep_view(),
                manifest.piece_hashes.deep_view(),
            ) by {
                let delta: int = if span_of(targets@, gl, glo + j).contains(t) && piece_ok(
                    targets@,
                    gl,
                    glo + j,
                    piece_data.deep_view()[j as int],
                    manifest.piece_hashes.deep_view()[glo + j],
                ) {
                    1int
                } else {
                    0int
                };
                assert(count_good(results@, t) == count_good(old_results, t) + delta);
                assert(scan_good(
                    targets@,
                    gl,
                    glo,
                    j as int + 1,
                    t,
                    piece_data.deep_view(),
                    manifest.piece_hashes.deep_view(),
                ) == scan_good(
                    targets@,
                    gl,
                    glo,
                    j as int,
                    t,
                    piece_data.deep_view(),
                    manifest.piece_hashes.deep_view(),
                ) + delta);
            }
        }
        j = j + 1;
    }
    let tallies = aggregate_results(targets.len(), &results);
    match onlyscanfile {
        Some(f) => {
            let mut single: Vec<FileResult> = Vec::new();
            single.push(tallies[f]);
            single
        },
        None => tallies,
    }
}

/// Whether a target's tally is poor enough to trigger offset recovery:
/// fewer than a fifth of its pieces verified, and the target is an audio
/// file with a mapping to correct.
pub open spec fn needs_realign(tally: FileResult, t: TargetFile) -> bool {
    &&& 5 * (tally.good as int) < tally.total as int
    &&& t.is_audio
    &&& t.mapping is Some
}

/// The offset the right-align hypothesis assigns: the source's extra
/// length over the target, taken as extra leading bytes to skip.
pub open spec fn realign_offset(sources: Seq<SourceFile>, t: TargetFile) -> int {
    sources[t.mapping.unwrap() as int].size as int - t.size as int
}

/// The target indices among the first `n` that a correction pass touches.
pub open spec fn realign_upto(
    tallies: Seq<FileResult>,
    targets: Seq<TargetFile>,
    n: int,
) -> Seq<usize>
    decreases n,
{
    if n <= 0 {
        Seq::empty()
    } else if needs_realign(tallies[n - 1], targets[n - 1]) {
        realign_upto(tallies, targets, n - 1).push((n - 1) as usize)
    } else {
        realign_upto(tallies, targets, n - 1)
    }
}

/// Takes a finished scan's tallies and applies the right-align hypothesis
/// to every poorly verifying mapped audio target: its offset becomes the
/// source's extra length over the target.  Everything else is left alone.
/// Returns the corrected target indices, in order, as the candidates for
/// a deeper piece search.
///
/// The correction depends only on declared sizes, so applying it twice
/// assigns the same offsets.
pub fn run_matches(
    sources: &Vec<SourceFile>,
    targets: &mut Vec<TargetFile>,
    tallies: &Vec<FileResult>,
) -> (corrected: Vec<usize>)
    requires
        tallies@.len() == old(targets)@.len(),
        forall|k: int|
            0 <= k < old(targets)@.len() && (#[trigger] old(targets)@[k].mapping) is Some ==> (
            old(targets)@[k].mapping.unwrap() as int) < sources@.len(),
        forall|s: int|
            0 <= s < sources@.len() ==> (#[trigger] sources@[s].size) as int <= MAX_STREAM as int,
        forall|k: int|
            0 <= k < old(targets)@.len() ==> (#[trigger] old(targets)@[k].size) as int
                <= MAX_STREAM as int,
    ensures
        final(targets)@.len() == old(targets)@.len(),
        forall|k: int|
            0 <= k < final(targets)@.len() ==> #[trigger] final(targets)@[k] == (if needs_realign(
                tallies@[k],
                old(targets)@[k],
            ) {
                TargetFile {
                    offset: realign_offset(sources@, old(targets)@[k]) as i64,
                    ..old(targets)@[k]
                }
            } else {
                old(targets)@[k]
            }),
        corrected@ == realign_upto(tallies@, old(targets)@, old(targets)@.len() as int),
{
    let n = targets.len();
    let mut corrected: Vec<usize> = Vec::new();
    let mut k: usize = 0;
    while k < n
        invariant
            n == targets@.len() == old(targets)@.len() == tallies@.len(),
            k <= n,
            forall|q: int|
                0 <= q < n && (#[trigger] old(targets)@[q].mapping) is Some ==> (
                old(targets)@[q].mapping.unwrap() as int) < sources@.len(),
            forall|s: int|
                0 <= s < sources@.len() ==> (#[trigger] sources@[s].size) as int
                    <= MAX_STREAM as int,
            forall|q: int|
                0 <= q < n ==> (#[trigger] old(targets)@[q].size) as int <= MAX_STREAM as int,
            forall|q: int| k <= q < n ==> #[trigger] targets@[q] == old(targets)@[q],
            forall|q: int|
                0 <= q < k ==> #[trigger] targets@[q] == (if needs_realign(
                    tallies@[q],
                    old(targets)@[q],
                ) {
                    TargetFile {
                        offset: realign_offset(sources@, old(targets)@[q]) as i64,
                        ..old(targets)@[q]
                    }
                } else {
                    old(targets)@[q]
                }),
            corrected@ == realign_upto(tallies@, old(targets)@, k as int),
        decreases n - k,
    {
        let poor: bool = (tallies[k].good as u64) * 5 < tallies[k].total as u64;
        if poor && targets[k].is_audio {
            match targets[k].mapping {
                Some(m) => {
                    corrected.push(k);
                    let new_offset: i64 = sources[m].size as i64 - targets[k].size as i64;
                    let ghost pre = targets@;
                    let mut t = targets.remove(k);
                    t.offset = new_offset;
                    let ghost new_t = t;
                    targets.insert(k, t);
                    proof {
                        assert(targets@ =~= pre.update(k as int, new_t));
                        assert(new_t == TargetFile {
                            offset: realign_offset(sources@, old(targets)@[k as int]) as i64,
                            ..old(targets)@[k as int]
                        });
                    }
                },
                None => {},
            }
        }
        k = k + 1;
    }
    corrected
}

/// Sums the declared sizes of all targets: the virtual stream's length.
pub fn compute_total(targets: &Vec<TargetFile>) -> (r: u64)
    requires
        total_size(targets@) <= MAX_STREAM as int,
    ensures
        r as int == total_size(targets@),
{
    let n = targets.len();
    let mut total: u64 = 0;
    let mut k: usize = 0;
    while k < n
        invariant
            n == targets@.len(),
            k <= n,
            total_size(targets@) <= MAX_STREAM as int,
            total as int == start_of(targets@, k as int),
        decreases n - k,
    {
        proof {
            crate::model::lemma_start_bounded(targets@, k as int + 1);
        }
        total = total + targets[k].size;
        k = k + 1;
    }
    total
}

/// The manifest piece whose virtual-stream position is closest to the
/// middle of target `k`'s declared byte range.
pub open spec fn middle_piece(targets: Seq<TargetFile>, piece_length: int, k: int) -> int {
    (start_of(targets, k) + targets[k].size as int / 2) / piece_length
}

/// Source-local byte position where the middle piece would start under a
/// hypothesis of zero offset.
pub open spec fn expected_local(targets: Seq<TargetFile>, piece_length: int, k: int) -> int {
    middle_piece(targets, piece_length, k) * piece_length - start_of(targets, k)
}

/// Radius of the search window: the size discrepancy between target and
/// loaded source, plus one piece length.
pub open spec fn search_radius(targets: Seq<TargetFile>, piece_length: int, k: int, src_len: int) -> int {
    let d = targets[k].size as int - src_len;
    (if d >= 0 { d } else { -d }) + piece_length
}

/// First candidate byte position of the search window, clamped at the
/// start of the source.
pub open spec fn search_lo(targets: Seq<TargetFile>, piece_length: int, k: int, src_len: int) -> int {
    let c = targets[k].size as int / 2;
    let l = c - search_radius(targets, piece_length, k, src_len);
    if l >= 0 { l } else { 0 }
}

/// One past the last candidate byte position of the search window,
/// clamped so a whole piece can still be sliced from the source.
pub open spec fn search_hi(targets: Seq<TargetFile>, piece_length: int, k: int, src_len: int) -> int {
    let c = targets[k].size as int / 2;
    let h = c + search_radius(targets, piece_length, k, src_len);
    if h <= src_len - piece_length + 1 { h } else { src_len - piece_length + 1 }
}

/// Relies on rayon: `find_any` over the parallel iterator of the candidate
/// range returns some position the predicate accepts, and returns `None`
/// only when no position in the range is accepted.  The predicate closure
/// only calls the verified `slice_matches`.
#[verifier::external_body]
fn par_find_match(buffer: &Vec<u8>, lo: usize, hi: usize, piece_len: usize, expected: &Vec<u8>) -> (r: Option<usize>)
    requires
        lo <= hi,
        hi as int + piece_len as int <= buffer@.len() + 1,
    ensures
        match r {
            Some(p) => lo <= p < hi && sha1_of(buffer@.subrange(p as int, p as int + piece_len as int)) == expected@,
            None => forall|p: int|
                lo <= p < hi ==> #[trigger] sha1_of(buffer@.subrange(p, p + piece_len as int))
                    != expected@,
        },
{
    (lo..hi).into_par_iter().find_any(|p: &usize| slice_matches(buffer, *p, piece_len, expected))
}

/// Searches the loaded source of target `index` for the byte position
/// whose piece-length slice hashes to the digest of the piece nearest the
/// middle of the target's range, scanning a window sized by the
/// target/source size discrepancy.  On a hit it derives the offset to
/// store: matched position minus the position expected under zero offset.
/// `None` means no position in the window matched.
pub fn piece_search(index: usize, manifest: &Manifest, targets: &Vec<TargetFile>, buffer: &Vec<u8>) -> (r: Option<i64>)
    requires
        wf_targets(targets@),
        wf_manifest(*manifest, targets@),
        (index as int) < targets@.len(),
        targets@[index as int].size > 0,
        buffer@.len() <= MAX_STREAM as int,
    ensures
        ({
            let gl = manifest.piece_length as int;
            let k = index as int;
            let sl = buffer@.len() as int;
            let mid = middle_piece(targets@, gl, k);
            let hash = manifest.piece_hashes.deep_view()[mid];
            match r {
                Some(off) => exists|p: int|
                    {
                        &&& search_lo(targets@, gl, k, sl) <= p < search_hi(targets@, gl, k, sl)
                        &&& #[trigger] sha1_of(buffer@.subrange(p, p + gl)) == hash
                        &&& off as int == p - expected_local(targets@, gl, k)
                    },
                None => forall|p: int|
                    search_lo(targets@, gl, k, sl) <= p < search_hi(targets@, gl, k, sl)
                        ==> #[trigger] sha1_of(buffer@.subrange(p, p + gl)) != hash,
            }
        }),
{
    let ghost gl: int = manifest.piece_length as int;
    let ghost gk: int = index as int;
    let piece_length = manifest.piece_length;
    proof {
        crate::model::lemma_start_bounded(targets@, gk);
        crate::model::lemma_start_bounded(targets@, gk + 1);
    }
    let file_offset: u64 = compute_start(targets, index);
    let fs: u64 = targets[index].size;

    // the middle piece and its digest
    let mid: u64 = (file_offset + fs / 2) / piece_length;
    proof {
        let total = total_size(targets@);
        vstd::arithmetic::div_mod::lemma_div_is_ordered(
            file_offset as int + (fs as int) / 2,
            total - 1,
            gl,
        );
        lemma_num_pieces_split(targets@, gl);
        assert((mid as int) < num_pieces(targets@, gl));
        lemma_mul_le_div(mid as int, file_offset as int + (fs as int) / 2, gl);
    }
    let nh = manifest.piece_hashes.len();
    let expected = &manifest.piece_hashes[mid as usize];

    // expected source-local position of that piece under zero offset
    let normal: i64 = (mid * piece_length) as i64 - file_offset as i64;

    // search window around the source-local middle, sized by the size
    // discrepancy
    let src_len: u64 = buffer.len() as u64;
    let diff: u64 = if fs >= src_len { fs - src_len } else { src_len - fs };
    let radius: u64 = diff + piece_length;
    let center: u64 = fs / 2;
    let lo: u64 = if center >= radius { center - radius } else { 0 };
    if src_len < piece_length {
        proof {
            assert(search_hi(targets@, gl, gk, src_len as int) <= 0);
        }
        return None;
    }
    let hi_cap: u64 = src_len - piece_length + 1;
    let hi: u64 = if center + radius <= hi_cap { center + radius } else { hi_cap };
    if hi <= lo {
        return None;
    }
    proof {
        assert(lo as int == search_lo(targets@, gl, gk, src_len as int));
        assert(hi as int == search_hi(targets@, gl, gk, src_len as int));
        assert(normal as int == expected_local(targets@, gl, gk));
        assert(manifest.piece_hashes.deep_view()[mid as int] =~= manifest.piece_hashes@[mid
            as int]@);
    }
    let found = par_find_match(buffer, lo as usize, hi as usize, piece_length as usize, expected);
    match found {
        Some(p) => {
            let off_wide: i128 = p as i128 - normal as i128;
            let off: i64 = off_wide as i64;
            proof {
                let hash = manifest.piece_hashes.deep_view()[mid as int];
                assert(sha1_of(buffer@.subrange(p as int, p as int + gl)) == hash);
                assert(off as int == p as int - expected_local(targets@, gl, gk));
                assert(search_lo(targets@, gl, gk, src_len as int) <= p as int);
                assert((p as int) < search_hi(targets@, gl, gk, src_len as int));
            }
            Some(off)
        },
        None => None,
    }
}

/// For a non-empty stream, the piece count is one more than the index of
/// the piece holding the last byte.
proof fn lemma_num_pieces_split(targets: Seq<TargetFile>, piece_length: int)
    requires
        piece_length > 0,
        total_size(targets) > 0,
    ensures
        num_pieces(targets, piece_length) == (total_size(targets) - 1) / piece_length + 1,
{
    let tm = total_size(targets) - 1;
    vstd::arithmetic::div_mod::lemma_fundamental_div_mod(tm, piece_length);
    vstd::arithmetic::div_mod::lemma_mod_bound(tm, piece_length);
    assert(tm + piece_length == (tm / piece_length + 1) * piece_length + tm
        % piece_length) by (nonlinear_arith)
        requires
            piece_length > 0,
            tm == piece_length * (tm / piece_length) + tm % piece_length,
    ;
    vstd::arithmetic::div_mod::lemma_fundamental_div_mod_converse_div(
        tm + piece_length,
        piece_length,
        tm / piece_length + 1,
        tm % piece_length,
    );
}


proof fn lemma_span_upto_increasing(targets: Seq<TargetFile>, piece_length: int, i: int, n: int)
    requires
        n <= usize::MAX,
    ensures
        forall|x: int, y: int|
            0 <= x < y < span_upto(targets, piece_length, i, n).len() ==> (#[trigger] span_upto(
                targets,
                piece_length,
                i,
                n,
            )[x]) < (#[trigger] span_upto(targets, piece_length, i, n)[y]),
        forall|x: int|
            0 <= x < span_upto(targets, piece_length, i, n).len() ==> (#[trigger] span_upto(
                targets,
                piece_length,
                i,
                n,
            )[x]) < n,
    decreases n,
{
    if n > 0 {
        lemma_span_upto_increasing(targets, piece_length, i, n - 1);
        let cur = span_upto(targets, piece_length, i, n);
        let prev = span_upto(targets, piece_length, i, n - 1);
        if touches(targets, piece_length, i, n - 1) {
            assert(cur == prev.push((n - 1) as usize));
            assert forall|x: int| 0 <= x < cur.len() implies (#[trigger] cur[x]) < n by {
                if x < prev.len() {
                    assert(cur[x] == prev[x]);
                }
            }
            assert forall|x: int, y: int| 0 <= x < y < cur.len() implies (#[trigger] cur[x]) < (
            #[trigger] cur[y]) by {
                if y < prev.len() {
                    assert(cur[x] == prev[x] && cur[y] == prev[y]);
                } else {
                    assert(cur[x] == prev[x]);
                    assert(cur[y] == (n - 1) as usize);
                    assert(prev[x] < n - 1);
                }
            }
        }
    }
}

proof fn lemma_span_upto_contains(targets: Seq<TargetFile>, piece_length: int, i: int, n: int)
    requires
        n <= targets.len(),
        targets.len() <= usize::MAX,
    ensures
        forall|k: int|
            0 <= k < n ==> (span_upto(targets, piece_length, i, n).contains(k as usize)
                <==> touches(targets, piece_length, i, k)),
    decreases n,
{
    if n > 0 {
        lemma_span_upto_contains(targets, piece_length, i, n - 1);
        let s = span_upto(targets, piece_length, i, n);
        let sp = span_upto(targets, piece_length, i, n - 1);
        lemma_span_upto_increasing(targets, piece_length, i, n - 1);
        assert forall|k: int| 0 <= k < n implies (s.contains(k as usize) <==> touches(
            targets,
            piece_length,
            i,
            k,
        )) by {
            if touches(targets, piece_length, i, n - 1) {
                assert(s =~= sp.push((n - 1) as usize));
                if k < n - 1 {
                    if sp.contains(k as usize) {
                        let x = choose|x: int| 0 <= x < sp.len() && sp[x] == k as usize;
                        assert(s[x] == k as usize);
                    }
                    if s.contains(k as usize) {
                        let x = choose|x: int| 0 <= x < s.len() && s[x] == k as usize;
                        assert(x < sp.len());
                        assert(sp[x] == k as usize);
                    }
                } else {
                    assert(s[s.len() - 1] == (n - 1) as usize);
                }
            } else {
                assert(s == sp);
                if k == n - 1 && s.contains(k as usize) {
                    let x = choose|x: int| 0 <= x < sp.len() && sp[x] == k as usize;
                    assert(sp[x] < n - 1);
                }
            }
        }
    }
}

proof fn lemma_position_in_some_target(targets: Seq<TargetFile>, p: int, n: int)
    requires
        0 <= p < start_of(targets, n),
        0 <= n <= targets.len(),
    ensures
        exists|k: int|
            0 <= k < n && #[trigger] start_of(targets, k) <= p < start_of(targets, k + 1),
    decreases n,
{
    if n > 0 {
        if p < start_of(targets, n - 1) {
            lemma_position_in_some_target(targets, p, n - 1);
        } else {
            assert(start_of(targets, n - 1) <= p < start_of(targets, n));
        }
    }
}

/// The span of every existing piece: the virtual stream pieces are laid
/// over is exactly the sum of the declared sizes, and each piece that
/// starts inside the stream touches a non-empty, strictly ascending set
/// of target positions, exactly those whose byte ranges it intersects.
pub proof fn lemma_piece_spans(targets: Seq<TargetFile>, piece_length: int, i: int)
    requires
        piece_length >= 1,
        0 <= i,
        piece_start(piece_length, i) < total_size(targets),
        targets.len() <= usize::MAX,
    ensures
        span_of(targets, piece_length, i).len() > 0,
        forall|x: int, y: int|
            0 <= x < y < span_of(targets, piece_length, i).len() ==> (#[trigger] span_of(
                targets,
                piece_length,
                i,
            )[x]) < (#[trigger] span_of(targets, piece_length, i)[y]),
        forall|k: int|
            0 <= k < targets.len() ==> (span_of(targets, piece_length, i).contains(k as usize)
                <==> touches(targets, piece_length, i, k)),
{
    let n = targets.len() as int;
    lemma_span_upto_increasing(targets, piece_length, i, n);
    lemma_span_upto_contains(targets, piece_length, i, n);
    let ps = piece_start(piece_length, i);
    lemma_position_in_some_target(targets, ps, n);
    let k = choose|k: int|
        0 <= k < n && #[trigger] start_of(targets, k) <= ps < start_of(targets, k + 1);
    assert(touches(targets, piece_length, i, k)) by {
        crate::model::lemma_start_bounded(targets, k + 1);
        assert(piece_end(targets, piece_length, i) > ps);
    }
    assert(span_of(targets, piece_length, i).contains(k as usize));
}

/// Whether the manifest's piece hashes describe the byte stream `s`: one
/// digest per piece, each the hash of that piece's slice of `s`.
pub open spec fn describes(m: Manifest, targets: Seq<TargetFile>, s: Seq<u8>) -> bool {
    &&& s.len() == total_size(targets)
    &&& forall|i: int|
        0 <= i < m.piece_hashes@.len() ==> #[trigger] m.piece_hashes.deep_view()[i] == sha1_of(
            s.subrange(
                piece_start(m.piece_length as int, i),
                piece_end(targets, m.piece_length as int, i),
            ),
        )
}

/// The true bytes of target `k`'s part of piece `i` in the stream `s`.
pub open spec fn true_chunk(
    targets: Seq<TargetFile>,
    piece_length: int,
    i: int,
    k: int,
    s: Seq<u8>,
) -> Seq<u8> {
    s.subrange(
        start_of(targets, k) + chunk_lo(targets, piece_length, i, k),
        start_of(targets, k) + chunk_hi(targets, piece_length, i, k),
    )
}

/// Chunk data that reproduces the stream `s` for every scanned piece.
pub open spec fn faithful_data(
    targets: Seq<TargetFile>,
    piece_length: int,
    lo: int,
    data: Seq<Seq<Seq<u8>>>,
    s: Seq<u8>,
) -> bool {
    &&& forall|j: int|
        0 <= j < data.len() ==> (#[trigger] data[j]).len() == span_of(
            targets,
            piece_length,
            lo + j,
        ).len()
    &&& forall|j: int, x: int|
        0 <= j < data.len() && 0 <= x < span_of(targets, piece_length, lo + j).len()
            ==> #[trigger] data[j][x] == true_chunk(
            targets,
            piece_length,
            lo + j,
            span_of(targets, piece_length, lo + j)[x] as int,
            s,
        )
}

/// The true chunks of piece `i` for the targets among the first `n`.
pub open spec fn true_chunks_upto(
    targets: Seq<TargetFile>,
    piece_length: int,
    i: int,
    s: Seq<u8>,
    n: int,
) -> Seq<Seq<u8>>
    decreases n,
{
    if n <= 0 {
        Seq::empty()
    } else if touches(targets, piece_length, i, n - 1) {
        true_chunks_upto(targets, piece_length, i, s, n - 1).push(
            true_chunk(targets, piece_length, i, n - 1, s),
        )
    } else {
        true_chunks_upto(targets, piece_length, i, s, n - 1)
    }
}

/// How far into piece `i` the first `n` targets reach.
pub open spec fn covered_to(targets: Seq<TargetFile>, piece_length: int, i: int, n: int) -> int {
    let pe = piece_end(targets, piece_length, i);
    let v = if pe < start_of(targets, n) {
        pe
    } else {
        start_of(targets, n)
    };
    if v >= piece_start(piece_length, i) {
        v
    } else {
        piece_start(piece_length, i)
    }
}

/// A touched target's part of a piece is a non-empty range inside it.
proof fn lemma_chunk_bounds(targets: Seq<TargetFile>, piece_length: int, i: int, k: int)
    requires
        piece_length >= 1,
        0 <= i,
        piece_start(piece_length, i) < total_size(targets),
        0 <= k < targets.len(),
        touches(targets, piece_length, i, k),
    ensures
        0 <= chunk_lo(targets, piece_length, i, k) < chunk_hi(targets, piece_length, i, k)
            <= targets[k].size,
{
    crate::model::lemma_start_bounded(targets, k);
    crate::model::lemma_start_bounded(targets, k + 1);
}

proof fn lemma_true_chunks_align(
    targets: Seq<TargetFile>,
    piece_length: int,
    i: int,
    s: Seq<u8>,
    n: int,
)
    requires
        n <= usize::MAX,
    ensures
        true_chunks_upto(targets, piece_length, i, s, n).len() == span_upto(
            targets,
            piece_length,
            i,
            n,
        ).len(),
        forall|x: int|
            0 <= x < span_upto(targets, piece_length, i, n).len() ==> #[trigger] true_chunks_upto(
                targets,
                piece_length,
                i,
                s,
                n,
            )[x] == true_chunk(
                targets,
                piece_length,
                i,
                span_upto(targets, piece_length, i, n)[x] as int,
                s,
            ),
    decreases n,
{
    if n > 0 {
        lemma_true_chunks_align(targets, piece_length, i, s, n - 1);
        let tc = true_chunks_upto(targets, piece_length, i, s, n);
        let tp = true_chunks_upto(targets, piece_length, i, s, n - 1);
        let sc = span_upto(targets, piece_length, i, n);
        let sp = span_upto(targets, piece_length, i, n - 1);
        if touches(targets, piece_length, i, n - 1) {
            assert forall|x: int| 0 <= x < sc.len() implies #[trigger] tc[x] == true_chunk(
                targets,
                piece_length,
                i,
                sc[x] as int,
                s,
            ) by {
                if x < sp.len() {
                    assert(tc[x] == tp[x]);
                    assert(sc[x] == sp[x]);
                } else {
                    assert(tc[x] == true_chunk(targets, piece_length, i, n - 1, s));
                    assert(sc[x] == (n - 1) as usize);
                }
            }
        }
    }
}

proof fn lemma_true_chunks_concat(
    targets: Seq<TargetFile>,
    piece_length: int,
    i: int,
    s: Seq<u8>,
    n: int,
)
    requires
        piece_length >= 1,
        0 <= i,
        piece_start(piece_length, i) < total_size(targets),
        s.len() == total_size(targets),
        0 <= n <= targets.len(),
    ensures
        concat_bytes(true_chunks_upto(targets, piece_length, i, s, n)) =~= s.subrange(
            piece_start(piece_length, i),
            covered_to(targets, piece_length, i, n),
        ),
    decreases n,
{
    let ps = piece_start(piece_length, i);
    let pe = piece_end(targets, piece_length, i);
    crate::model::lemma_start_bounded(targets, n);
    if n == 0 {
        assert(covered_to(targets, piece_length, i, 0) == ps);
    } else {
        lemma_true_chunks_concat(targets, piece_length, i, s, n - 1);
        crate::model::lemma_start_bounded(targets, n - 1);
        let prev = true_chunks_upto(targets, piece_length, i, s, n - 1);
        let a = covered_to(targets, piece_length, i, n - 1);
        let b = covered_to(targets, piece_length, i, n);
        if touches(targets, piece_length, i, n - 1) {
            lemma_chunk_bounds(targets, piece_length, i, n - 1);
            let c = true_chunk(targets, piece_length, i, n - 1, s);
            let cur = true_chunks_upto(targets, piece_length, i, s, n);
            assert(cur == prev.push(c));
            assert(cur.drop_last() =~= prev);
            assert(cur.last() == c);
            assert(a == start_of(targets, n - 1) + chunk_lo(targets, piece_length, i, n - 1));
            assert(b == start_of(targets, n - 1) + chunk_hi(targets, piece_length, i, n - 1));
            assert(concat_bytes(cur) == concat_bytes(prev) + c);
            assert(ps <= a <= b <= s.len());
            assert(concat_bytes(prev) =~= s.subrange(ps, a));
            assert(c =~= s.subrange(a, b));
            assert(s.subrange(ps, a) + s.subrange(a, b) =~= s.subrange(ps, b));
        } else {
            assert(a == b) by {
                crate::model::lemma_start_monotone(targets, n - 1, n);
            }
        }
    }
}

proof fn lemma_scan_touch_nonneg(
    targets: Seq<TargetFile>,
    piece_length: int,
    lo: int,
    n: int,
    t: usize,
)
    ensures
        scan_touch(targets, piece_length, lo, n, t) >= 0,
    decreases n,
{
    if n > 0 {
        lemma_scan_touch_nonneg(targets, piece_length, lo, n - 1, t);
    }
}

/// A piece in the scanned range whose span holds `t` makes the touch
/// count positive.
proof fn lemma_scan_touch_pos(
    targets: Seq<TargetFile>,
    piece_length: int,
    lo: int,
    n: int,
    t: usize,
    j: int,
)
    requires
        0 <= j < n,
        span_of(targets, piece_length, lo + j).contains(t),
    ensures
        scan_touch(targets, piece_length, lo, n, t) >= 1,
    decreases n,
{
    lemma_scan_touch_nonneg(targets, piece_length, lo, n - 1, t);
    if j < n - 1 {
        lemma_scan_touch_pos(targets, piece_length, lo, n - 1, t, j);
    }
}

/// The round trip at the heart of the verifier: when the chunk data read
/// for every scanned piece reproduces the stream the manifest describes,
/// and every scanned piece is readable, every touching piece of every
/// target hashes correctly.
pub proof fn lemma_faithful_scan(
    m: Manifest,
    targets: Seq<TargetFile>,
    data: Seq<Seq<Seq<u8>>>,
    s: Seq<u8>,
    lo: int,
    n: int,
)
    requires
        wf_targets(targets),
        wf_manifest(m, targets),
        targets.len() <= usize::MAX,
        describes(m, targets, s),
        0 <= lo,
        0 <= n <= data.len(),
        lo + data.len() <= num_pieces(targets, m.piece_length as int),
        faithful_data(targets, m.piece_length as int, lo, data, s),
        forall|j: int|
            0 <= j < data.len() ==> #[trigger] piece_readable(
                targets,
                m.piece_length as int,
                lo + j,
            ),
    ensures
        forall|t: usize|
            scan_good(targets, m.piece_length as int, lo, n, t, data, m.piece_hashes.deep_view())
                == scan_touch(targets, m.piece_length as int, lo, n, t),
    decreases n,
{
    let gl = m.piece_length as int;
    if n > 0 {
        lemma_faithful_scan(m, targets, data, s, lo, n - 1);
        let i = lo + n - 1;
        lemma_piece_in_range(targets, gl, i);
        lemma_true_chunks_align(targets, gl, i, s, targets.len() as int);
        lemma_true_chunks_concat(targets, gl, i, s, targets.len() as int);
        crate::model::lemma_start_bounded(targets, targets.len() as int);
        assert(data[n - 1].len() == true_chunks_upto(targets, gl, i, s, targets.len() as int).len());
        assert(data[n - 1] =~= true_chunks_upto(targets, gl, i, s, targets.len() as int));
        assert(covered_to(targets, gl, i, targets.len() as int) == piece_end(targets, gl, i));
        assert(concat_bytes(data[n - 1]) == s.subrange(piece_start(gl, i), piece_end(targets, gl, i)));
        assert(sha1_of(concat_bytes(data[n - 1])) == m.piece_hashes.deep_view()[i]);
        assert(piece_ok(targets, gl, i, data[n - 1], m.piece_hashes.deep_view()[i]));
        assert forall|t: usize| scan_good(targets, gl, lo, n, t, data, m.piece_hashes.deep_view())
            == scan_touch(targets, gl, lo, n, t) by {
            let hashes = m.piece_hashes.deep_view();
            let step: int = if span_of(targets, gl, i).contains(t) {
                1int
            } else {
                0int
            };
            assert(scan_touch(targets, gl, lo, n, t) == scan_touch(targets, gl, lo, n - 1, t)
                + step);
            assert(scan_good(targets, gl, lo, n, t, data, hashes) == scan_good(
                targets,
                gl,
                lo,
                n - 1,
                t,
                data,
                hashes,
            ) + step);
        }
    }
}

/// A mapped source is aligned when the bytes loaded from it reproduce
/// the target's slice of the stream at the target's stored offset: the
/// offset skips leading source bytes, and from there the source carries
/// the target's content whole.
pub open spec fn source_aligned(t: TargetFile, start: int, b: Seq<u8>, s: Seq<u8>) -> bool {
    &&& t.offset >= 0
    &&& t.offset as int + t.size as int <= b.len()
    &&& b.subrange(t.offset as int, t.offset as int + t.size as int) == s.subrange(
        start,
        start + t.size as int,
    )
}

/// What honest reads of the planned chunks yield: every chunk of every
/// scanned piece is the offset-adjusted slice of the loaded bytes of its
/// target's source.
pub open spec fn data_from_sources(
    targets: Seq<TargetFile>,
    piece_length: int,
    lo: int,
    data: Seq<Seq<Seq<u8>>>,
    bs: Seq<Seq<u8>>,
) -> bool {
    &&& forall|j: int|
        0 <= j < data.len() ==> (#[trigger] data[j]).len() == span_of(
            targets,
            piece_length,
            lo + j,
        ).len()
    &&& forall|j: int, x: int|
        0 <= j < data.len() && 0 <= x < span_of(targets, piece_length, lo + j).len() ==> {
            let k = span_of(targets, piece_length, lo + j)[x] as int;
            #[trigger] data[j][x] == bs[k].subrange(
                chunk_lo(targets, piece_length, lo + j, k) + targets[k].offset as int,
                chunk_hi(targets, piece_length, lo + j, k) + targets[k].offset as int,
            )
        }
}

/// The stream verifies from aligned sources: when every target is mapped
/// and its loaded source bytes reproduce its slice of the stream at its
/// offset, and the chunk data is read as planned, every piece in the
/// scanned range hashes correctly, so every target's count of good
/// pieces equals its count of touching pieces.
pub proof fn lemma_aligned_sources_verify(
    m: Manifest,
    targets: Seq<TargetFile>,
    data: Seq<Seq<Seq<u8>>>,
    bs: Seq<Seq<u8>>,
    s: Seq<u8>,
    lo: int,
)
    requires
        wf_targets(targets),
        wf_manifest(m, targets),
        targets.len() <= usize::MAX,
        describes(m, targets, s),
        0 <= lo,
        lo + data.len() <= num_pieces(targets, m.piece_length as int),
        bs.len() == targets.len(),
        forall|k: int| 0 <= k < targets.len() ==> (#[trigger] targets[k].mapping) is Some,
        forall|k: int|
            0 <= k < targets.len() ==> source_aligned(
                #[trigger] targets[k],
                start_of(targets, k),
                bs[k],
                s,
            ),
        data_from_sources(targets, m.piece_length as int, lo, data, bs),
    ensures
        forall|t: usize|
            scan_good(
                targets,
                m.piece_length as int,
                lo,
                data.len() as int,
                t,
                data,
                m.piece_hashes.deep_view(),
            ) == scan_touch(targets, m.piece_length as int, lo, data.len() as int, t),
{
    let gl = m.piece_length as int;
    assert forall|j: int| 0 <= j < data.len() implies #[trigger] piece_readable(
        targets,
        gl,
        lo + j,
    ) by {
        let i = lo + j;
        lemma_piece_in_range(targets, gl, i);
        assert forall|k: int|
            0 <= k < targets.len() && touches(targets, gl, i, k) implies readable_at(
            targets,
            gl,
            i,
            k,
        ) by {
            lemma_chunk_bounds(targets, gl, i, k);
            let cl = chunk_lo(targets, gl, i, k);
            assert(0 <= cl < targets[k].size);
            assert(0 <= cl + targets[k].offset as int);
        }
    }
    assert(faithful_data(targets, gl, lo, data, s)) by {
        assert forall|j: int, x: int|
            0 <= j < data.len() && 0 <= x < span_of(targets, gl, lo + j).len()
            implies #[trigger] data[j][x] == true_chunk(
            targets,
            gl,
            lo + j,
            span_of(targets, gl, lo + j)[x] as int,
            s,
        ) by {
            let i = lo + j;
            lemma_piece_in_range(targets, gl, i);
            lemma_span_upto_increasing(targets, gl, i, targets.len() as int);
            let k = span_of(targets, gl, i)[x] as int;
            lemma_span_upto_contains(targets, gl, i, targets.len() as int);
            assert(span_of(targets, gl, i).contains(span_of(targets, gl, i)[x]));
            assert(touches(targets, gl, i, k));
            lemma_chunk_bounds(targets, gl, i, k);
            crate::model::lemma_start_bounded(targets, k);
            crate::model::lemma_start_bounded(targets, k + 1);
            assert(start_of(targets, k + 1) == start_of(targets, k) + targets[k].size as int);
            let cl = chunk_lo(targets, gl, i, k);
            let ch = chunk_hi(targets, gl, i, k);
            let off = targets[k].offset as int;
            let start = start_of(targets, k);
            let z = targets[k].size as int;
            assert(bs[k].subrange(cl + off, ch + off) =~= s.subrange(start + cl, start + ch)) by {
                assert(0 <= cl + off);
                assert(ch + off <= bs[k].len());
                assert forall|w: int| 0 <= w < ch - cl implies #[trigger] bs[k].subrange(
                    cl + off,
                    ch + off,
                )[w] == s.subrange(start + cl, start + ch)[w] by {
                    assert(0 <= cl + w < z);
                    assert(0 <= start);
                    assert(start + z <= s.len());
                    assert(source_aligned(targets[k], start_of(targets, k), bs[k], s));
                    assert(bs[k].subrange(off, off + z) == s.subrange(start, start + z));
                    assert(bs[k].subrange(off, off + z)[cl + w] == bs[k][off + cl + w]);
                    assert(s.subrange(start, start + z)[cl + w] == s[start + cl + w]);
                    assert(bs[k][cl + off + w] == s[start + cl + w]);
                }
            }
        }
    }
    lemma_faithful_scan(m, targets, data, s, lo, data.len() as int);
}

/// The piece holding a non-empty target's first byte touches it, and its
/// index is a valid piece of the stream.
proof fn lemma_target_touched(targets: Seq<TargetFile>, piece_length: int, t: int)
    requires
        piece_length >= 1,
        0 <= t < targets.len(),
        targets[t].size > 0,
    ensures
        ({
            let ip = start_of(targets, t) / piece_length;
            &&& 0 <= ip < num_pieces(targets, piece_length)
            &&& touches(targets, piece_length, ip, t)
        }),
{
    let s = start_of(targets, t);
    let total = total_size(targets);
    crate::model::lemma_start_bounded(targets, t);
    crate::model::lemma_start_monotone(targets, t + 1, targets.len() as int);
    assert(start_of(targets, t + 1) == s + targets[t].size as int);
    assert(s + targets[t].size as int <= total);
    let ip = s / piece_length;
    vstd::arithmetic::div_mod::lemma_fundamental_div_mod(s, piece_length);
    vstd::arithmetic::div_mod::lemma_mod_bound(s, piece_length);
    assert(ip * piece_length <= s) by (nonlinear_arith)
        requires
            piece_length > 0,
            s == piece_length * ip + s % piece_length,
            0 <= s % piece_length < piece_length,
    ;
    assert(s < ip * piece_length + piece_length) by (nonlinear_arith)
        requires
            piece_length > 0,
            s == piece_length * ip + s % piece_length,
            0 <= s % piece_length < piece_length,
    ;
    lemma_num_pieces_split(targets, piece_length);
    vstd::arithmetic::div_mod::lemma_div_is_ordered(s, total - 1, piece_length);
    assert(0 <= ip) by {
        vstd::arithmetic::div_mod::lemma_div_is_ordered(0, s, piece_length);
        vstd::arithmetic::div_mod::lemma_basic_div_specific_divisor(piece_length);
    }
    assert(touches(targets, piece_length, ip, t)) by {
        assert(piece_end(targets, piece_length, ip) > s);
    }
}

/// The restricted scan range of a non-empty target lies inside the piece
/// count and holds at least the piece of the target's first byte.
proof fn lemma_scan_range_bounds(targets: Seq<TargetFile>, piece_length: int, t: int)
    requires
        piece_length >= 1,
        0 <= t < targets.len() <= usize::MAX,
        targets[t].size > 0,
    ensures
        ({
            let lo = spec_scan_range(targets, piece_length, Some(t as usize)).0;
            let hi = spec_scan_range(targets, piece_length, Some(t as usize)).1;
            &&& 0 <= lo
            &&& lo == start_of(targets, t) / piece_length
            &&& lo < hi
            &&& hi <= num_pieces(targets, piece_length)
        }),
{
    let s = start_of(targets, t);
    let z = targets[t].size as int;
    let total = total_size(targets);
    crate::model::lemma_start_bounded(targets, t);
    crate::model::lemma_start_monotone(targets, t + 1, targets.len() as int);
    assert(start_of(targets, t + 1) == s + z);
    assert(s + z <= total);
    let lo = s / piece_length;
    let hi = (s + z - 1) / piece_length + 1;
    assert(0 <= lo) by {
        vstd::arithmetic::div_mod::lemma_div_is_ordered(0, s, piece_length);
        vstd::arithmetic::div_mod::lemma_basic_div_specific_divisor(piece_length);
    }
    assert(lo < hi) by {
        vstd::arithmetic::div_mod::lemma_div_is_ordered(s, s + z - 1, piece_length);
    }
    assert(hi <= num_pieces(targets, piece_length)) by {
        lemma_num_pieces_split(targets, piece_length);
        vstd::arithmetic::div_mod::lemma_div_is_ordered(s + z - 1, total - 1, piece_length);
    }
}

/// Round trip: when every target is mapped at offset zero to a source
/// whose bytes are exactly its slice of the stream the manifest
/// describes, and every target is non-empty, a full scan reports a
/// perfect tally for every target.
pub proof fn lemma_round_trip(
    m: Manifest,
    targets: Seq<TargetFile>,
    data: Seq<Seq<Seq<u8>>>,
    bs: Seq<Seq<u8>>,
    s: Seq<u8>,
)
    requires
        wf_targets(targets),
        wf_manifest(m, targets),
        targets.len() <= usize::MAX,
        describes(m, targets, s),
        data.len() == num_pieces(targets, m.piece_length as int),
        bs.len() == targets.len(),
        forall|k: int| 0 <= k < targets.len() ==> (#[trigger] targets[k].mapping) is Some,
        forall|k: int| 0 <= k < targets.len() ==> (#[trigger] targets[k].offset) == 0,
        forall|k: int| 0 <= k < targets.len() ==> (#[trigger] targets[k].size) > 0,
        forall|k: int|
            0 <= k < targets.len() ==> #[trigger] bs[k] == s.subrange(
                start_of(targets, k),
                start_of(targets, k) + targets[k].size as int,
            ),
        data_from_sources(targets, m.piece_length as int, 0, data, bs),
    ensures
        forall|t: usize|
            #![trigger scan_tally(targets, m.piece_length as int, 0, data.len() as int, t, data, m.piece_hashes.deep_view())]
            (t as int) < targets.len() ==> {
                let tally = scan_tally(
                    targets,
                    m.piece_length as int,
                    0,
                    data.len() as int,
                    t,
                    data,
                    m.piece_hashes.deep_view(),
                );
                tally.good == tally.total
            },
{
    let gl = m.piece_length as int;
    assert forall|k: int| 0 <= k < targets.len() implies source_aligned(
        #[trigger] targets[k],
        start_of(targets, k),
        bs[k],
        s,
    ) by {
        crate::model::lemma_start_bounded(targets, k);
        crate::model::lemma_start_bounded(targets, k + 1);
        assert(start_of(targets, k + 1) == start_of(targets, k) + targets[k].size as int);
        assert(bs[k].subrange(0, targets[k].size as int) =~= bs[k]);
    }
    lemma_aligned_sources_verify(m, targets, data, bs, s, 0);
    assert forall|t: usize|
        #![trigger scan_tally(targets, m.piece_length as int, 0, data.len() as int, t, data, m.piece_hashes.deep_view())]
        (t as int) < targets.len() implies {
        let tally = scan_tally(
            targets,
            gl,
            0,
            data.len() as int,
            t,
            data,
            m.piece_hashes.deep_view(),
        );
        tally.good == tally.total
    } by {
        lemma_target_touched(targets, gl, t as int);
        let ip = start_of(targets, t as int) / gl;
        lemma_span_upto_contains(targets, gl, ip, targets.len() as int);
        assert(span_of(targets, gl, ip).contains(t));
        lemma_scan_touch_pos(targets, gl, 0, data.len() as int, t, ip);
        lemma_counts_bounded_scan(targets, gl, 0, data.len() as int, t);
    }
}

/// The touch count never exceeds the scanned range.
proof fn lemma_counts_bounded_scan(
    targets: Seq<TargetFile>,
    piece_length: int,
    lo: int,
    n: int,
    t: usize,
)
    ensures
        scan_touch(targets, piece_length, lo, n, t) <= if n >= 0 {
            n
        } else {
            0
        },
    decreases n,
{
    if n > 0 {
        lemma_counts_bounded_scan(targets, piece_length, lo, n - 1, t);
    }
}

/// A recovered offset verifies: when every target is mapped, its loaded
/// source bytes reproduce its slice of the stream at whatever offset is
/// stored (for one target, an offset derived by the piece search or the
/// right-align hypothesis), and the chunk data for the target's
/// restricted scan is read as planned, that scan reports a perfect
/// tally.
pub proof fn lemma_aligned_target_scan(
    m: Manifest,
    targets: Seq<TargetFile>,
    data: Seq<Seq<Seq<u8>>>,
    bs: Seq<Seq<u8>>,
    s: Seq<u8>,
    t: int,
)
    requires
        wf_targets(targets),
        wf_manifest(m, targets),
        targets.len() <= usize::MAX,
        describes(m, targets, s),
        0 <= t < targets.len(),
        targets[t].size > 0,
        bs.len() == targets.len(),
        forall|k: int| 0 <= k < targets.len() ==> (#[trigger] targets[k].mapping) is Some,
        forall|k: int|
            0 <= k < targets.len() ==> source_aligned(
                #[trigger] targets[k],
                start_of(targets, k),
                bs[k],
                s,
            ),
        data.len() == spec_scan_range(targets, m.piece_length as int, Some(t as usize)).1
            - spec_scan_range(targets, m.piece_length as int, Some(t as usize)).0,
        data_from_sources(
            targets,
            m.piece_length as int,
            spec_scan_range(targets, m.piece_length as int, Some(t as usize)).0,
            data,
            bs,
        ),
    ensures
        ({
            let lo = spec_scan_range(targets, m.piece_length as int, Some(t as usize)).0;
            let tally = scan_tally(
                targets,
                m.piece_length as int,
                lo,
                data.len() as int,
                t as usize,
                data,
                m.piece_hashes.deep_view(),
            );
            tally.good == tally.total
        }),
{
    let gl = m.piece_length as int;
    let lo = spec_scan_range(targets, gl, Some(t as usize)).0;
    lemma_scan_range_bounds(targets, gl, t);
    lemma_aligned_sources_verify(m, targets, data, bs, s, lo);
    lemma_target_touched(targets, gl, t);
    let ip = start_of(targets, t) / gl;
    assert(ip == lo);
    lemma_span_upto_contains(targets, gl, ip, targets.len() as int);
    assert(span_of(targets, gl, ip).contains(t as usize));
    lemma_scan_touch_pos(targets, gl, lo, data.len() as int, t as usize, 0);
    lemma_counts_bounded_scan(targets, gl, lo, data.len() as int, t as usize);
}

/// Offset correction by right-alignment: a target whose mapped source
/// carries its true content after extra leading bytes verifies fully on
/// its restricted scan once `offset = source length - target size` is
/// applied, provided the other targets' sources are aligned too (its
/// boundary pieces mix in their bytes).  The offset depends only on the
/// two lengths, so applying the hypothesis again assigns the same
/// offset.
pub proof fn lemma_right_align(
    m: Manifest,
    targets: Seq<TargetFile>,
    data: Seq<Seq<Seq<u8>>>,
    bs: Seq<Seq<u8>>,
    s: Seq<u8>,
    t: int,
)
    requires
        wf_targets(targets),
        wf_manifest(m, targets),
        targets.len() <= usize::MAX,
        describes(m, targets, s),
        0 <= t < targets.len(),
        targets[t].size > 0,
        bs.len() == targets.len(),
        forall|k: int| 0 <= k < targets.len() ==> (#[trigger] targets[k].mapping) is Some,
        forall|k: int|
            0 <= k < targets.len() && k != t ==> source_aligned(
                #[trigger] targets[k],
                start_of(targets, k),
                bs[k],
                s,
            ),
        targets[t].offset >= 0,
        targets[t].offset as int == bs[t].len() - targets[t].size as int,
        bs[t].subrange(targets[t].offset as int, bs[t].len() as int) == s.subrange(
            start_of(targets, t),
            start_of(targets, t) + targets[t].size as int,
        ),
        data.len() == spec_scan_range(targets, m.piece_length as int, Some(t as usize)).1
            - spec_scan_range(targets, m.piece_length as int, Some(t as usize)).0,
        data_from_sources(
            targets,
            m.piece_length as int,
            spec_scan_range(targets, m.piece_length as int, Some(t as usize)).0,
            data,
            bs,
        ),
    ensures
        ({
            let lo = spec_scan_range(targets, m.piece_length as int, Some(t as usize)).0;
            let tally = scan_tally(
                targets,
                m.piece_length as int,
                lo,
                data.len() as int,
                t as usize,
                data,
                m.piece_hashes.deep_view(),
            );
            tally.good == tally.total
        }),
{
    assert(source_aligned(targets[t], start_of(targets, t), bs[t], s)) by {
        assert(targets[t].offset as int + targets[t].size as int == bs[t].len());
    }
    assert forall|k: int| 0 <= k < targets.len() implies source_aligned(
        #[trigger] targets[k],
        start_of(targets, k),
        bs[k],
        s,
    ) by {}
    lemma_aligned_target_scan(m, targets, data, bs, s, t);
}

/// The pieces tile the virtual stream exactly: piece 0 starts at byte
/// zero, each piece ends where the next begins, every piece that exists
/// is non-empty, and the last piece ends at the sum of the declared
/// sizes.  The stream the piece iteration covers is that sum and nothing
/// else.
pub proof fn lemma_pieces_tile(targets: Seq<TargetFile>, piece_length: int)
    requires
        piece_length >= 1,
        total_size(targets) > 0,
    ensures
        forall|i: int|
            0 <= i < num_pieces(targets, piece_length) ==> piece_start(piece_length, i)
                < #[trigger] piece_end(targets, piece_length, i),
        forall|i: int|
            0 <= i < num_pieces(targets, piece_length) - 1 ==> #[trigger] piece_end(
                targets,
                piece_length,
                i,
            ) == piece_start(piece_length, i + 1),
        piece_end(targets, piece_length, num_pieces(targets, piece_length) - 1) == total_size(
            targets,
        ),
{
    let total = total_size(targets);
    let num = num_pieces(targets, piece_length);
    lemma_num_pieces_split(targets, piece_length);
    assert forall|i: int| 0 <= i < num implies piece_start(piece_length, i) < #[trigger] piece_end(
        targets,
        piece_length,
        i,
    ) by {
        lemma_piece_in_range(targets, piece_length, i);
    }
    assert forall|i: int| 0 <= i < num - 1 implies #[trigger] piece_end(targets, piece_length, i)
        == piece_start(piece_length, i + 1) by {
        lemma_mul_le_div(i + 1, total - 1, piece_length);
        assert((i + 1) * piece_length == i * piece_length + piece_length) by (nonlinear_arith);
        assert(i * piece_length + piece_length <= total - 1);
    }
    assert(piece_end(targets, piece_length, num - 1) == total) by {
        lemma_mul_le_div(num, total - 1, piece_length);
        assert(!(num * piece_length <= total - 1));
        assert(num * piece_length == (num - 1) * piece_length + piece_length) by (nonlinear_arith);
    }
}
} // verus!
