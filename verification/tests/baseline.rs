use pathlight_core::baseline;
use pathlight_core::baseline::{directory, encode, fnv1a, read, Sizes, FRAME};
use pathlight_core::event::Timestamp;
use pathlight_core::measurement::{measured, FileKind, UnixStat};
use pathlight_core::snapshot::{reconcile, IdentityContinuity, ScanConsistency, ScanError, ScanErrorKind, ScanSnapshot};

fn stat(ino: u64, len: u64) -> UnixStat {
    UnixStat { dev: 7, ino, kind: FileKind::File, len, blocks: (len + 511) / 512, nlink: 1 }
}

fn snapshot(root: &str, names: &[String]) -> ScanSnapshot {
    let mut names: Vec<String> = names.to_vec();
    names.sort();
    let entries = names
        .iter()
        .enumerate()
        .map(|(i, name)| (format!("{root}/{name}"), measured(stat(i as u64 + 10, 300 + i as u64), Timestamp { secs: 1_700_000_000, nanos: 5 })))
        .collect();
    ScanSnapshot {
        root: root.to_string(),
        started_at: Timestamp { secs: 1_700_000_000, nanos: 1 },
        finished_at: Timestamp { secs: 1_700_000_001, nanos: 999_999_999 },
        consistency: ScanConsistency::ObservedInterval,
        entries,
        errors: vec![ScanError { path: format!("{root}/locked"), kind: ScanErrorKind::PermissionDenied, message: "no".into() }],
    }
}

#[test]
fn a_baseline_reads_back_as_it_was_written() {
    let taken = snapshot("/watched", &["a.txt".to_string(), "inner/b.bin".to_string()]);
    let bytes = encode(&taken, None).unwrap();

    let back = read(&bytes, "/watched", None).unwrap();

    assert_eq!(back.entries.len(), taken.entries.len());
    assert_eq!(back.root, taken.root);
    assert_eq!(back.is_complete(), taken.is_complete());
    assert_eq!(back.started_at, taken.started_at);
    assert_eq!(back.finished_at, taken.finished_at);
    for ((left, one), (right, two)) in back.entries.iter().zip(taken.entries.iter()) {
        assert_eq!(left, right);
        assert_eq!(one, two);
    }
    assert_eq!(back.errors[0].path, "/watched/locked");
    assert_eq!(back.errors[0].kind, ScanErrorKind::Other);
    let comparison = reconcile(&back, &taken, IdentityContinuity::Unknown);
    assert!(comparison.bindings.is_empty(), "{:?}", comparison.bindings);
}

#[test]
fn a_file_that_does_not_read_back_is_no_baseline() {
    let taken = snapshot("/watched", &["a.txt".to_string()]);
    let whole = encode(&taken, None).unwrap();

    assert!(read(&whole[..whole.len() - 4], "/watched", None).is_none(), "half a baseline was accepted");
    assert!(read(b"something else entirely", "/watched", None).is_none());
    assert!(read(&whole, "/somewhere/else", None).is_none());
}

#[test]
fn a_sealed_baseline_names_no_file_and_opens_only_with_its_key() {
    let names: Vec<String> = (0..12_000).map(|index| format!("confidential-{index:05}-name-that-must-not-show.txt")).collect();
    let taken = snapshot("/watched", &names);
    let key = [7_u8; 32];

    let stored = encode(&taken, Some(&key)).unwrap();

    assert!(stored.len() > FRAME, "one frame does not test the seam");
    assert!(!stored.windows(12).any(|window| window == b"confidential"), "a file name is on disk in the clear");
    assert!(read(&stored, "/watched", None).is_none(), "opened without the key");
    assert!(read(&stored, "/watched", Some(&[8_u8; 32])).is_none(), "opened with the wrong key");
    let back = read(&stored, "/watched", Some(&key)).unwrap();
    assert_eq!(back.entries.len(), taken.entries.len());
    assert_eq!(back.entries.last(), taken.entries.last());
}

#[test]
fn a_plain_baseline_reads_with_any_key_and_frames_what_is_large() {
    let names: Vec<String> = (0..20_000).map(|index| format!("file-{index:05}-with-a-long-enough-name.bin")).collect();
    let taken = snapshot("/w", &names);
    let bytes = encode(&taken, None).unwrap();
    assert!(bytes.len() > FRAME);
    assert_eq!(&bytes[..8], b"PLBASE\x03\n");
    assert_eq!(bytes[8], 0);
    let back = read(&bytes, "/w", Some(&[1_u8; 32])).unwrap();
    assert_eq!(back.entries.len(), 20_000);
}

#[test]
fn a_baseline_is_named_by_a_hash_of_its_scope() {
    assert_eq!(fnv1a(""), 0xcbf2_9ce4_8422_2325);
    assert_eq!(fnv1a("a"), 0xaf63_dc4c_8601_ec8c);
    assert_eq!(directory("/data"), "/data/baselines");
    assert_eq!(baseline::file("/data", "a"), "/data/baselines/af63dc4c8601ec8c.plb");
}

#[test]
fn sizes_answer_for_every_measured_path_and_nothing_else() {
    let taken = snapshot("/w", &["x.bin".to_string(), "y.bin".to_string()]);
    let sizes = Sizes::from(&taken);
    let x = taken.entries.iter().find(|(p, _)| p == "/w/x.bin").unwrap().1.allocated_bytes;
    assert_eq!(sizes.get("/w/x.bin"), x);
    assert_eq!(sizes.get("/w/nothing"), None);
}
