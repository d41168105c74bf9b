//! Data model: discovered local files, manifest-declared files, the parsed
//! manifest, and the arithmetic of the virtual stream that the piece hashes
//! are defined over.

use vstd::prelude::*;

verus! {

/// Ceiling on the total byte length of a manifest's virtual stream and on
/// the length of any single local file.  Real file systems stay far below
/// this; holding sizes under it keeps every offset computation inside `i64`.
pub const MAX_STREAM: u64 = 0x4000_0000_0000_0000;

/// One discovered local file, annotated at inventory time.
pub struct SourceFile {
    /// Filesystem location, as handed in by the caller.
    pub path: String,
    /// Path relative to the input root; used only for reporting.
    pub display: String,
    /// File extension as found, if any.
    pub extension: Option<String>,
    /// True iff the extension is in the fixed audio set.
    pub is_audio: bool,
    /// Byte length captured at inventory time.
    pub size: u64,
    /// Index of the target this source maps to, if any.
    pub mapping: Option<usize>,
}

/// One manifest-declared file.  Declaration order is the coordinate system
/// of the virtual stream, so `index` is load-bearing identity.
pub struct TargetFile {
    /// Position in manifest declaration order.
    pub index: usize,
    /// Manifest-declared relative path.
    pub path: String,
    /// File extension as declared, if any.
    pub extension: Option<String>,
    /// True iff the extension is in the fixed audio set.
    pub is_audio: bool,
    /// Declared byte length.
    pub size: u64,
    /// Index of the source this target maps to, if any.
    pub mapping: Option<usize>,
    /// Signed byte correction used when reading the mapped source: the byte
    /// at target-local position `q` is read from source position `q + offset`.
    /// Positive means the source carries extra leading bytes to skip;
    /// negative means the source is missing leading bytes, which are treated
    /// as absent.  Meaningful only while `mapping` is set.
    pub offset: i64,
}

/// The already-parsed manifest: piece length, ordered piece hashes and the
/// optional top-level directory name.  The declared files stand apart as the
/// ordered `TargetFile` collection.
pub struct Manifest {
    /// Fixed piece length in bytes; every piece but possibly the last covers
    /// exactly this many bytes of the virtual stream.
    pub piece_length: u64,
    /// One fixed-width digest per piece, in piece order.
    pub piece_hashes: Vec<Vec<u8>>,
    /// Optional top-level directory name declared by the manifest.
    pub directory: Option<String>,
}

/// The fixed audio extension set: flac, mp3, ogg, aac, ac3, dts.
pub open spec fn is_audio_ext(e: Seq<char>) -> bool {
    ||| e == "flac"@
    ||| e == "mp3"@
    ||| e == "ogg"@
    ||| e == "aac"@
    ||| e == "ac3"@
    ||| e == "dts"@
}

/// Audio classification of an optional extension: absent is never audio.
pub open spec fn audio_extension(ext: Option<String>) -> bool {
    match ext {
        Some(e) => is_audio_ext(e@),
        None => false,
    }
}

/// Decides whether an extension is in the fixed audio set.
pub fn is_audio_extension(ext: &Option<String>) -> (r: bool)
    ensures
        r == audio_extension(*ext),
{
    match ext {
        Some(e) => {
            if *e == "flac".to_owned() {
                true
            } else if *e == "mp3".to_owned() {
                true
            } else if *e == "ogg".to_owned() {
                true
            } else if *e == "aac".to_owned() {
                true
            } else if *e == "ac3".to_owned() {
                true
            } else {
                *e == "dts".to_owned()
            }
        },
        None => false,
    }
}

/// Byte position where target `k` starts in the virtual stream: the sum of
/// the declared sizes of the targets before it.
pub open spec fn start_of(targets: Seq<TargetFile>, k: int) -> int
    decreases k,
{
    if k <= 0 {
        0
    } else {
        start_of(targets, k - 1) + targets[k - 1].size as int
    }
}

/// Total length of the virtual stream: the sum of all declared sizes.
pub open spec fn total_size(targets: Seq<TargetFile>) -> int {
    start_of(targets, targets.len() as int)
}

/// Well-formedness of the target collection: indices match positions and
/// the stream length stays under the machine limit.
pub open spec fn wf_targets(targets: Seq<TargetFile>) -> bool {
    &&& forall|k: int| 0 <= k < targets.len() ==> (#[trigger] targets[k].index) == k
    &&& total_size(targets) <= MAX_STREAM as int
}

/// Start positions never decrease as the index grows.
pub proof fn lemma_start_monotone(targets: Seq<TargetFile>, a: int, b: int)
    requires
        a <= b,
    ensures
        start_of(targets, a) <= start_of(targets, b),
    decreases b - a,
{
    if a < b {
        lemma_start_monotone(targets, a, b - 1);
    }
}

/// A start position within the collection never exceeds the total size.
pub proof fn lemma_start_bounded(targets: Seq<TargetFile>, k: int)
    requires
        0 <= k <= targets.len(),
    ensures
        0 <= start_of(targets, k) <= total_size(targets),
{
    lemma_start_monotone(targets, 0, k);
    lemma_start_monotone(targets, k, targets.len() as int);
}

/// Builds one inventory entry for a discovered local file, classifying its
/// extension against the fixed audio set.  The mapping starts empty.
pub fn source_file(path: String, display: String, extension: Option<String>, size: u64) -> (r:
    SourceFile)
    ensures
        r.path == path,
        r.display == display,
        r.extension == extension,
        r.is_audio == audio_extension(extension),
        r.size == size,
        r.mapping is None,
{
    let is_audio = is_audio_extension(&extension);
    SourceFile { path, display, extension, is_audio, size, mapping: None }
}

/// Builds one manifest entry in declaration order, classifying its extension
/// against the fixed audio set.  The mapping starts empty and the offset at
/// zero.
pub fn target_file(index: usize, path: String, extension: Option<String>, size: u64) -> (r:
    TargetFile)
    ensures
        r.index == index,
        r.path == path,
        r.extension == extension,
        r.is_audio == audio_extension(extension),
        r.size == size,
        r.mapping is None,
        r.offset == 0,
{
    let is_audio = is_audio_extension(&extension);
    TargetFile { index, path, extension, is_audio, size, mapping: None, offset: 0 }
}

} // verus!
