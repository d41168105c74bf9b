use mtmigrate::migrator::{build_output, migrate};
use mtmigrate::model::TargetFile;

fn out_target(size: u64, mapping: Option<usize>, offset: i64) -> TargetFile {
    TargetFile {
        index: 0,
        path: String::from("out"),
        extension: None,
        is_audio: false,
        size,
        mapping,
        offset,
    }
}

#[test]
fn output_copies_at_zero_offset() {
    let source = vec![1u8, 2, 3, 4];
    assert_eq!(build_output(&source, 0, 4), vec![1, 2, 3, 4]);
}

#[test]
fn output_skips_positive_offset() {
    // the first `offset` source bytes are dropped
    let source = vec![9u8, 9, 1, 2, 3];
    assert_eq!(build_output(&source, 2, 3), vec![1, 2, 3]);
}

#[test]
fn output_pads_negative_offset() {
    // `-offset` zero bytes lead, then the source from its start
    let source = vec![1u8, 2, 3];
    assert_eq!(build_output(&source, -2, 5), vec![0, 0, 1, 2, 3]);
}

#[test]
fn output_truncates_excess() {
    let source = vec![1u8, 2, 3, 4, 5];
    assert_eq!(build_output(&source, 0, 3), vec![1, 2, 3]);
}

#[test]
fn output_extends_short_source() {
    let source = vec![1u8, 2];
    assert_eq!(build_output(&source, 0, 4), vec![1, 2, 0, 0]);
}

#[test]
fn migrate_sizes_are_exact() {
    // every produced file is exactly target.size bytes, whatever the
    // mapping state
    let targets = vec![
        out_target(4, Some(0), 0),
        out_target(3, None, 0),
        out_target(4, Some(0), -1),
        out_target(2, Some(0), 2),
    ];
    let data = vec![
        vec![1u8, 2, 3],
        vec![1u8, 2, 3],
        vec![1u8, 2, 3],
        vec![1u8, 2, 3],
    ];
    let outs = migrate(&targets, &data);
    assert_eq!(outs.len(), 4);
    for (t, o) in targets.iter().zip(outs.iter()) {
        assert_eq!(o.len() as u64, t.size);
    }
    assert_eq!(outs[0], vec![1, 2, 3, 0]);
    // unmapped targets reserve zero-filled space
    assert_eq!(outs[1], vec![0, 0, 0]);
    assert_eq!(outs[2], vec![0, 1, 2, 3]);
    assert_eq!(outs[3], vec![3, 0]);
}
