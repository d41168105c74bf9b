use sha1::Digest;

use mtmigrate::matching::{
    aggregate_results, compute_total, evaluate_piece, hash_check, piece_search, plan_piece,
    run_matches, scan_bounds, FileResult, PieceResult,
};
use mtmigrate::model::{Manifest, SourceFile, TargetFile};

fn sha(data: &[u8]) -> Vec<u8> {
    sha1::Sha1::digest(data).to_vec()
}

fn plain_target(index: usize, size: u64, mapping: Option<usize>) -> TargetFile {
    TargetFile {
        index,
        path: format!("t{}", index),
        extension: None,
        is_audio: false,
        size,
        mapping,
        offset: 0,
    }
}

#[test]
fn total_is_sum_of_sizes() {
    let targets = vec![
        plain_target(0, 1000, None),
        plain_target(1, 2000, None),
        plain_target(2, 1500, None),
    ];
    assert_eq!(compute_total(&targets), 4500);
}

#[test]
fn span_walk_touch_table() {
    // 3 targets of sizes 1000, 2000, 1500: their ranges are [0, 1000),
    // [1000, 3000) and [3000, 4500) in the virtual stream.  With piece
    // length 1024, piece 0 = [0, 1024) already crosses into target 1 at
    // byte 1000, so the exact touch table is:
    let targets = vec![
        plain_target(0, 1000, None),
        plain_target(1, 2000, None),
        plain_target(2, 1500, None),
    ];
    assert_eq!(plan_piece(&targets, 1024, 0).files, vec![0, 1]);
    assert_eq!(plan_piece(&targets, 1024, 1).files, vec![1]);
    assert_eq!(plan_piece(&targets, 1024, 2).files, vec![1, 2]);
    assert_eq!(plan_piece(&targets, 1024, 3).files, vec![2]);
    assert_eq!(plan_piece(&targets, 1024, 4).files, vec![2]);
}

#[test]
fn span_walk_single_file_pieces() {
    // with piece length 1000 the pieces nest against the file boundaries
    // so that piece 0 spans target 0 alone, piece 1 spans targets 0 and
    // 1, piece 2 spans target 1 only, and piece 3 spans targets 1 and 2
    let targets = vec![
        plain_target(0, 1000, None),
        plain_target(1, 2000, None),
        plain_target(2, 1500, None),
    ];
    assert_eq!(plan_piece(&targets, 999, 0).files, vec![0]);
    assert_eq!(plan_piece(&targets, 999, 1).files, vec![0, 1]);
    assert_eq!(plan_piece(&targets, 999, 2).files, vec![1]);
    assert_eq!(plan_piece(&targets, 999, 3).files, vec![1, 2]);
}

#[test]
fn plan_reads_respect_offsets() {
    let mut targets = vec![plain_target(0, 10, Some(0)), plain_target(1, 6, Some(1))];
    targets[1].offset = 3;
    let plan = plan_piece(&targets, 8, 1);
    // piece 1 covers bytes [8, 16): 2 bytes of target 0, 6 of target 1
    assert!(plan.readable);
    assert_eq!(plan.files, vec![0, 1]);
    assert_eq!(plan.chunks.len(), 2);
    assert_eq!(plan.chunks[0].source, 0);
    assert_eq!(plan.chunks[0].source_pos, 8);
    assert_eq!(plan.chunks[0].len, 2);
    assert_eq!(plan.chunks[1].source, 1);
    assert_eq!(plan.chunks[1].source_pos, 3); // local 0 + offset 3
    assert_eq!(plan.chunks[1].len, 6);
}

#[test]
fn plan_unmapped_is_unreadable() {
    let targets = vec![plain_target(0, 10, None)];
    let plan = plan_piece(&targets, 8, 0);
    assert!(!plan.readable);
    assert_eq!(plan.files, vec![0]);
}

#[test]
fn plan_negative_seek_is_unreadable() {
    let mut targets = vec![plain_target(0, 10, Some(0))];
    targets[0].offset = -1;
    let plan = plan_piece(&targets, 8, 0);
    assert!(!plan.readable);
}

#[test]
fn evaluate_matches_true_digest() {
    let targets = vec![plain_target(0, 4, Some(0))];
    let plan = plan_piece(&targets, 4, 0);
    let data = vec![vec![1u8, 2, 3, 4]];
    let expected = sha(&[1, 2, 3, 4]);
    let good = evaluate_piece(&plan, &data, &expected);
    assert!(good.success);
    assert_eq!(good.files, vec![0]);
    let bad = evaluate_piece(&plan, &vec![vec![9u8, 2, 3, 4]], &expected);
    assert!(!bad.success);
}

#[test]
fn evaluate_concatenates_chunks() {
    let targets = vec![plain_target(0, 2, Some(0)), plain_target(1, 2, Some(1))];
    let plan = plan_piece(&targets, 4, 0);
    let expected = sha(&[5, 6, 7, 8]);
    let r = evaluate_piece(&plan, &vec![vec![5u8, 6], vec![7u8, 8]], &expected);
    assert!(r.success);
    assert_eq!(r.files, vec![0, 1]);
}

#[test]
fn unreadable_piece_fails_without_bytes() {
    let targets = vec![plain_target(0, 4, None)];
    let plan = plan_piece(&targets, 4, 0);
    let expected = sha(&[0, 0, 0, 0]);
    let r = evaluate_piece(&plan, &vec![], &expected);
    assert!(!r.success);
    assert_eq!(r.files, vec![0]);
}

#[test]
fn aggregation_counts_and_floors() {
    let results = vec![
        PieceResult { files: vec![0], success: true },
        PieceResult { files: vec![0, 1], success: false },
        PieceResult { files: vec![1], success: true },
    ];
    let r = aggregate_results(3, &results);
    assert_eq!(r.len(), 3);
    assert_eq!((r[0].good, r[0].total), (1, 2));
    assert_eq!((r[1].good, r[1].total), (1, 2));
    // a target no piece touched reports 0 good out of 1
    assert_eq!((r[2].good, r[2].total), (0, 1));
}

#[test]
fn scan_bounds_cover_boundary_pieces() {
    let targets = vec![
        plain_target(0, 1000, None),
        plain_target(1, 2000, None),
        plain_target(2, 1500, None),
    ];
    // target 1 occupies [1000, 3000): pieces 0..=2 touch it
    assert_eq!(scan_bounds(&targets, 1024, 1), (0, 3));
    // target 0 occupies [0, 1000): pieces 0 only
    assert_eq!(scan_bounds(&targets, 1024, 0), (0, 1));
    // target 2 occupies [3000, 4500): pieces 2..=4
    assert_eq!(scan_bounds(&targets, 1024, 2), (2, 5));
}

#[test]
fn full_check_round_trip() {
    // two targets over one 8-byte stream, piece length 4
    let stream: Vec<u8> = vec![10, 20, 30, 40, 50, 60, 70, 80];
    let targets = vec![plain_target(0, 3, Some(0)), plain_target(1, 5, Some(1))];
    let manifest = Manifest {
        piece_length: 4,
        piece_hashes: vec![sha(&stream[0..4]), sha(&stream[4..8])],
        directory: None,
    };
    // read the chunks exactly as planned
    let mut piece_data: Vec<Vec<Vec<u8>>> = Vec::new();
    for i in 0..2u64 {
        let plan = plan_piece(&targets, 4, i);
        let sources = [&stream[0..3], &stream[3..8]];
        let mut chunks: Vec<Vec<u8>> = Vec::new();
        for c in &plan.chunks {
            let from = c.source_pos as usize;
            let to = from + c.len as usize;
            chunks.push(sources[c.source][from..to].to_vec());
        }
        piece_data.push(chunks);
    }
    let r = hash_check(&manifest, &targets, &piece_data, None);
    assert_eq!(r.len(), 2);
    assert_eq!((r[0].good, r[0].total), (1, 1));
    assert_eq!((r[1].good, r[1].total), (2, 2));
}

#[test]
fn single_file_check_is_restricted() {
    let stream: Vec<u8> = vec![10, 20, 30, 40, 50, 60, 70, 80];
    let targets = vec![plain_target(0, 3, Some(0)), plain_target(1, 5, Some(1))];
    let manifest = Manifest {
        piece_length: 4,
        piece_hashes: vec![sha(&stream[0..4]), sha(&stream[4..8])],
        directory: None,
    };
    // target 0 touches only piece 0
    let plan = plan_piece(&targets, 4, 0);
    let mut chunks: Vec<Vec<u8>> = Vec::new();
    let sources = [&stream[0..3], &stream[3..8]];
    for c in &plan.chunks {
        let from = c.source_pos as usize;
        chunks.push(sources[c.source][from..from + c.len as usize].to_vec());
    }
    let r = hash_check(&manifest, &targets, &vec![chunks], Some(0));
    assert_eq!(r.len(), 1);
    assert_eq!((r[0].good, r[0].total), (1, 1));
}

#[test]
fn realign_applies_size_difference() {
    let sources = vec![SourceFile {
        path: String::from("s"),
        display: String::from("s"),
        extension: Some(String::from("flac")),
        is_audio: true,
        size: 130,
        mapping: Some(0),
    }];
    let mut targets = vec![plain_target(0, 100, Some(0))];
    targets[0].is_audio = true;
    let tallies = vec![FileResult { good: 0, total: 10 }];
    let corrected = run_matches(&sources, &mut targets, &tallies);
    assert_eq!(corrected, vec![0]);
    assert_eq!(targets[0].offset, 30);
    // re-running assigns the same offset
    let corrected_again = run_matches(&sources, &mut targets, &tallies);
    assert_eq!(corrected_again, vec![0]);
    assert_eq!(targets[0].offset, 30);
}

#[test]
fn realign_skips_good_and_unmapped_targets() {
    let sources = vec![SourceFile {
        path: String::from("s"),
        display: String::from("s"),
        extension: Some(String::from("flac")),
        is_audio: true,
        size: 130,
        mapping: Some(0),
    }];
    let mut targets = vec![
        plain_target(0, 100, Some(0)),
        plain_target(1, 100, None),
        plain_target(2, 100, Some(0)),
    ];
    targets[0].is_audio = true;
    targets[1].is_audio = true;
    // target 2 verifies well enough (2/10 >= 1/5)
    targets[2].is_audio = true;
    let tallies = vec![
        FileResult { good: 2, total: 10 },
        FileResult { good: 0, total: 10 },
        FileResult { good: 0, total: 10 },
    ];
    let corrected = run_matches(&sources, &mut targets, &tallies);
    assert_eq!(corrected, vec![2]);
    assert_eq!(targets[0].offset, 0);
    assert_eq!(targets[1].offset, 0);
    assert_eq!(targets[2].offset, 30);
}

#[test]
fn search_recovers_planted_offset() {
    // one 8-byte target, piece length 4; the source carries the true
    // content after 2 junk bytes
    let stream: Vec<u8> = vec![9, 8, 7, 6, 5, 4, 3, 2];
    let targets = vec![plain_target(0, 8, Some(0))];
    let manifest = Manifest {
        piece_length: 4,
        piece_hashes: vec![sha(&stream[0..4]), sha(&stream[4..8])],
        directory: None,
    };
    let mut buffer: Vec<u8> = vec![111, 222];
    buffer.extend_from_slice(&stream);
    let found = piece_search(0, &manifest, &targets, &buffer);
    assert_eq!(found, Some(2));
}

#[test]
fn search_reports_absence() {
    let stream: Vec<u8> = vec![9, 8, 7, 6, 5, 4, 3, 2];
    let targets = vec![plain_target(0, 8, Some(0))];
    let manifest = Manifest {
        piece_length: 4,
        piece_hashes: vec![sha(&stream[0..4]), sha(&stream[4..8])],
        directory: None,
    };
    let buffer: Vec<u8> = vec![0; 12];
    assert_eq!(piece_search(0, &manifest, &targets, &buffer), None);
}

#[test]
fn offset_round_trip_single_file() {
    // the lone target's source carries 3 junk bytes before the true
    // content; with the right-align offset applied, its restricted scan
    // verifies fully
    let stream: Vec<u8> = vec![1, 2, 3, 4, 5, 6, 7, 8];
    let mut targets = vec![plain_target(0, 8, Some(0))];
    targets[0].offset = 3; // source length 11 - target size 8
    let manifest = Manifest {
        piece_length: 4,
        piece_hashes: vec![sha(&stream[0..4]), sha(&stream[4..8])],
        directory: None,
    };
    let mut buffer: Vec<u8> = vec![99, 98, 97];
    buffer.extend_from_slice(&stream);
    let (lo, hi) = scan_bounds(&targets, 4, 0);
    let mut piece_data: Vec<Vec<Vec<u8>>> = Vec::new();
    for i in lo..hi {
        let plan = plan_piece(&targets, 4, i);
        let mut chunks: Vec<Vec<u8>> = Vec::new();
        for c in &plan.chunks {
            let from = c.source_pos as usize;
            chunks.push(buffer[from..from + c.len as usize].to_vec());
        }
        piece_data.push(chunks);
    }
    let r = hash_check(&manifest, &targets, &piece_data, Some(0));
    assert_eq!(r.len(), 1);
    assert_eq!((r[0].good, r[0].total), (2, 2));
}

#[test]
fn corrupt_bytes_fail_the_check() {
    let stream: Vec<u8> = vec![1, 2, 3, 4, 5, 6, 7, 8];
    let targets = vec![plain_target(0, 8, Some(0))];
    let manifest = Manifest {
        piece_length: 4,
        piece_hashes: vec![sha(&stream[0..4]), sha(&stream[4..8])],
        directory: None,
    };
    // bytes from the wrong alignment: nothing hashes right
    let piece_data = vec![vec![vec![9u8, 9, 9, 9]], vec![vec![9u8, 9, 9, 9]]];
    let r = hash_check(&manifest, &targets, &piece_data, None);
    assert_eq!(r.len(), 1);
    assert_eq!((r[0].good, r[0].total), (0, 2));
}
