use mtmigrate::filemapping::{
    create_mapping, link_targets, map_by_filename, map_by_size, map_exact, map_manual_step,
    str_lt, ManualReply,
};
use mtmigrate::model::{source_file, target_file, SourceFile, TargetFile};

fn src(path: &str, ext: Option<&str>, size: u64) -> SourceFile {
    source_file(
        String::from(path),
        String::from(path),
        ext.map(String::from),
        size,
    )
}

fn tgt(index: usize, path: &str, ext: Option<&str>, size: u64) -> TargetFile {
    target_file(index, String::from(path), ext.map(String::from), size)
}

#[test]
fn audio_classification() {
    assert!(src("a.flac", Some("flac"), 1).is_audio);
    assert!(src("a.mp3", Some("mp3"), 1).is_audio);
    assert!(src("a.dts", Some("dts"), 1).is_audio);
    assert!(!src("a.cue", Some("cue"), 1).is_audio);
    assert!(!src("a", None, 1).is_audio);
    assert!(!src("a.FLAC", Some("FLAC"), 1).is_audio);
}

#[test]
fn string_order() {
    assert!(str_lt("a", "b"));
    assert!(str_lt("", "a"));
    assert!(str_lt("abc", "abd"));
    assert!(str_lt("ab", "abc"));
    assert!(!str_lt("b", "a"));
    assert!(!str_lt("abc", "abc"));
    assert!(!str_lt("abc", "ab"));
}

#[test]
fn exact_match_non_audio() {
    // a source with identical size and extension is auto-mapped even if
    // no other heuristic runs
    let mut sources = vec![src("x.cue", Some("cue"), 512)];
    let targets = vec![
        tgt(0, "a.flac", Some("flac"), 512),
        tgt(1, "b.cue", Some("cue"), 512),
    ];
    map_exact(&mut sources, &targets);
    assert_eq!(sources[0].mapping, Some(1));
}

#[test]
fn exact_match_first_target_wins() {
    let mut sources = vec![src("x.log", Some("log"), 9)];
    let targets = vec![
        tgt(0, "a.log", Some("log"), 9),
        tgt(1, "b.log", Some("log"), 9),
    ];
    map_exact(&mut sources, &targets);
    assert_eq!(sources[0].mapping, Some(0));
}

#[test]
fn exact_match_misses_keep_previous() {
    let mut sources = vec![src("x.cue", Some("cue"), 512)];
    sources[0].mapping = Some(7);
    let targets = vec![tgt(0, "b.cue", Some("cue"), 513)];
    map_exact(&mut sources, &targets);
    assert_eq!(sources[0].mapping, Some(7));
}

#[test]
fn filename_order_pairing() {
    // sources are inventory-ordered; targets sort by path before pairing
    let mut sources = vec![
        src("01.flac", Some("flac"), 10),
        src("02.flac", Some("flac"), 20),
        src("cover.jpg", Some("jpg"), 5),
    ];
    let targets = vec![
        tgt(0, "b-second.flac", Some("flac"), 20),
        tgt(1, "a-first.flac", Some("flac"), 10),
    ];
    map_by_filename(&mut sources, &targets);
    assert_eq!(sources[0].mapping, Some(1)); // first source -> path-least target
    assert_eq!(sources[1].mapping, Some(0));
    assert_eq!(sources[2].mapping, None); // non-audio untouched (never set)
}

#[test]
fn filename_order_clears_excess_sources() {
    let mut sources = vec![
        src("01.flac", Some("flac"), 10),
        src("02.flac", Some("flac"), 20),
    ];
    sources[1].mapping = Some(0);
    let targets = vec![tgt(0, "a.flac", Some("flac"), 10)];
    map_by_filename(&mut sources, &targets);
    assert_eq!(sources[0].mapping, Some(0));
    assert_eq!(sources[1].mapping, None); // no target left: cleared
}

#[test]
fn filename_rerun_is_identical() {
    // re-running the same strategy without edits yields the same mapping
    let mut sources = vec![
        src("02.flac", Some("flac"), 20),
        src("01.flac", Some("flac"), 10),
    ];
    let targets = vec![
        tgt(0, "t2.flac", Some("flac"), 20),
        tgt(1, "t1.flac", Some("flac"), 10),
    ];
    map_by_filename(&mut sources, &targets);
    let first: Vec<Option<usize>> = sources.iter().map(|s| s.mapping).collect();
    map_by_filename(&mut sources, &targets);
    let second: Vec<Option<usize>> = sources.iter().map(|s| s.mapping).collect();
    assert_eq!(first, second);
}

#[test]
fn size_order_pairing() {
    let mut sources = vec![
        src("big.flac", Some("flac"), 300),
        src("small.flac", Some("flac"), 100),
    ];
    let targets = vec![
        tgt(0, "a.flac", Some("flac"), 290),
        tgt(1, "b.flac", Some("flac"), 110),
    ];
    map_by_size(&mut sources, &targets);
    // smallest source pairs with smallest target
    assert_eq!(sources[1].mapping, Some(1));
    assert_eq!(sources[0].mapping, Some(0));
}

#[test]
fn size_rerun_is_identical() {
    let mut sources = vec![
        src("big.flac", Some("flac"), 300),
        src("small.flac", Some("flac"), 100),
        src("note.txt", Some("txt"), 1),
    ];
    let targets = vec![
        tgt(0, "a.flac", Some("flac"), 290),
        tgt(1, "b.flac", Some("flac"), 110),
    ];
    map_by_size(&mut sources, &targets);
    let first: Vec<Option<usize>> = sources.iter().map(|s| s.mapping).collect();
    map_by_size(&mut sources, &targets);
    let second: Vec<Option<usize>> = sources.iter().map(|s| s.mapping).collect();
    assert_eq!(first, second);
}

#[test]
fn manual_step_decisions() {
    assert_eq!(map_manual_step(Some(3), ManualReply::Keep, 5), Some(3));
    assert_eq!(map_manual_step(None, ManualReply::Keep, 5), None);
    assert_eq!(map_manual_step(Some(3), ManualReply::Clear, 5), None);
    assert_eq!(map_manual_step(Some(3), ManualReply::Index(4), 5), Some(4));
    // out-of-range index is ignored
    assert_eq!(map_manual_step(Some(3), ManualReply::Index(5), 5), Some(3));
}

#[test]
fn reverse_link_last_writer_wins() {
    let sources = vec![
        src("a.flac", Some("flac"), 1),
        src("b.flac", Some("flac"), 2),
    ];
    let mut sources = sources;
    sources[0].mapping = Some(0);
    sources[1].mapping = Some(0);
    let mut targets = vec![tgt(0, "t.flac", Some("flac"), 1)];
    link_targets(&sources, &mut targets);
    assert_eq!(targets[0].mapping, Some(1));
}

#[test]
fn create_mapping_default_path() {
    let mut sources = vec![
        src("01.flac", Some("flac"), 10),
        src("x.cue", Some("cue"), 512),
    ];
    let mut targets = vec![
        tgt(0, "t.cue", Some("cue"), 512),
        tgt(1, "t1.flac", Some("flac"), 10),
    ];
    create_mapping(&mut sources, &mut targets);
    assert_eq!(sources[0].mapping, Some(1));
    assert_eq!(sources[1].mapping, Some(0));
    assert_eq!(targets[0].mapping, Some(1));
    assert_eq!(targets[1].mapping, Some(0));
}
