//! The migration writer's byte-level core: building each output file's
//! contents, exactly `target.size` bytes long, from the mapped source at
//! the discovered offset, zero-padding where the source is absent or
//! short.  Opening, creating and writing the files on disk happens outside
//! the library.

use vstd::prelude::*;

use crate::model::TargetFile;

verus! {

/// The bytes a migrated file must hold: `size` bytes where target-local
/// position `q` carries the source byte at `q + offset`, and zero where
/// that position falls outside the source.  With a positive offset the
/// first `offset` source bytes are skipped; with a negative one the file
/// starts with `-offset` zero bytes; excess source bytes past `size` are
/// truncated and a short source is zero-extended.
pub open spec fn migrated_bytes(source: Seq<u8>, offset: int, size: nat) -> Seq<u8> {
    Seq::new(
        size,
        |q: int|
            if 0 <= q + offset < source.len() {
                source[q + offset]
            } else {
                0u8
            },
    )
}

/// Builds the contents of one migrated file from its source's bytes, the
/// discovered offset and the declared size.
pub fn build_output(source: &Vec<u8>, offset: i64, size: usize) -> (r: Vec<u8>)
    ensures
        r@ == migrated_bytes(source@, offset as int, size as nat),
        r@.len() == size,
{
    let mut out: Vec<u8> = Vec::new();
    let n = source.len();
    let mut q: usize = 0;
    while q < size
        invariant
            n == source@.len(),
            q <= size,
            out@ =~= migrated_bytes(source@, offset as int, size as nat).take(q as int),
        decreases size - q,
    {
        let pos_wide: i128 = q as i128 + offset as i128;
        let byte: u8 = if 0 <= pos_wide && pos_wide < n as i128 {
            source[pos_wide as usize]
        } else {
            0
        };
        out.push(byte);
        proof {
            assert(out@ =~= migrated_bytes(source@, offset as int, size as nat).take(q as int + 1));
        }
        q = q + 1;
    }
    proof {
        assert(migrated_bytes(source@, offset as int, size as nat).take(size as int)
            =~= migrated_bytes(source@, offset as int, size as nat));
    }
    out
}

/// The source bytes one target draws on: the loaded bytes of its mapped
/// source, or nothing when it is unmapped.
pub open spec fn drawn_source(t: TargetFile, loaded: Seq<u8>) -> Seq<u8> {
    if t.mapping is Some {
        loaded
    } else {
        Seq::empty()
    }
}

/// Materializes every target's output contents in declaration order:
/// `source_data[k]` holds the loaded bytes of target `k`'s mapped source
/// (ignored when target `k` is unmapped).  Every produced file is exactly
/// its target's declared size; an unmapped target yields zero bytes only.
pub fn migrate(targets: &Vec<TargetFile>, source_data: &Vec<Vec<u8>>) -> (r: Vec<Vec<u8>>)
    requires
        source_data@.len() == targets@.len(),
        forall|k: int|
            0 <= k < targets@.len() ==> (#[trigger] targets@[k].size) as int <= usize::MAX as int,
    ensures
        r@.len() == targets@.len(),
        forall|k: int|
            0 <= k < targets@.len() ==> (#[trigger] r@[k])@ == migrated_bytes(
                drawn_source(targets@[k], source_data@[k]@),
                if targets@[k].mapping is Some {
                    targets@[k].offset as int
                } else {
                    0
                },
                targets@[k].size as nat,
            ),
        forall|k: int| 0 <= k < targets@.len() ==> ((#[trigger] r@[k])@).len() == targets@[k].size,
{
    let n = targets.len();
    let mut r: Vec<Vec<u8>> = Vec::new();
    let empty: Vec<u8> = Vec::new();
    let mut k: usize = 0;
    while k < n
        invariant
            n == targets@.len() == source_data@.len(),
            empty@.len() == 0,
            k <= n,
            r@.len() == k,
            forall|q: int|
                0 <= q < n ==> (#[trigger] targets@[q].size) as int <= usize::MAX as int,
            forall|q: int|
                0 <= q < k ==> (#[trigger] r@[q])@ == migrated_bytes(
                    drawn_source(targets@[q], source_data@[q]@),
                    if targets@[q].mapping is Some {
                        targets@[q].offset as int
                    } else {
                        0
                    },
                    targets@[q].size as nat,
                ),
        decreases n - k,
    {
        let size: usize = targets[k].size as usize;
        let out: Vec<u8> = match targets[k].mapping {
            Some(_) => build_output(&source_data[k], targets[k].offset, size),
            None => build_output(&empty, 0, size),
        };
        proof {
            assert(empty@ =~= Seq::<u8>::empty());
        }
        r.push(out);
        k = k + 1;
    }
    proof {
        assert forall|q: int| 0 <= q < n implies ((#[trigger] r@[q])@).len()
            == targets@[q].size by {}
    }
    r
}

} // verus!
