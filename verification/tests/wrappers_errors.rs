//! The delta codec on concrete values, the digest against an independent
//! computation, per-entry planning and verification, and every error
//! variant.

use patchkit::applier::apply_bundle;
use patchkit::applier::plan_entry;
use patchkit::applier::verify_entry;
use patchkit::applier::FileAction;
use patchkit::builder::build_bundle;
use patchkit::delta::delta_apply;
use patchkit::delta::delta_encode;
use patchkit::hashing::hash_bytes;
use patchkit::tree::Tree;
use patchkit::tree::TreeFile;
use patchkit::FileEntry;
use patchkit::Manifest;
use patchkit::PatchBundle;
use patchkit::PatchData;
use patchkit::PatchError;
use patchkit::PatchKind;

fn mk_tree(files: &[(&str, &[u8])]) -> Tree {
    Tree {
        files: files
            .iter()
            .map(|(p, c)| TreeFile { path: p.to_string(), contents: c.to_vec() })
            .collect(),
    }
}

#[test]
fn delta_round_trip_values() {
    let cases: Vec<(&[u8], &[u8])> = vec![
        (b"abcdef", b"abcXYZdef"),
        (b"", b""),
        (b"", b"something"),
        (b"something", b""),
        (b"same", b"same"),
        (b"abc", b"xyz"),
        (b"aaaa", b"aa"),
        (b"prefix-mid-suffix", b"prefix-MID-suffix"),
    ];
    for (old, new) in cases {
        let old_v = old.to_vec();
        let new_v = new.to_vec();
        let delta = delta_encode(&new_v, &old_v);
        let back = delta_apply(&delta, &old_v).unwrap();
        assert_eq!(back, new_v, "round trip failed for {:?} -> {:?}", old, new);
    }
}

#[test]
fn delta_exact_bytes() {
    // Layout: prefix length, suffix length, middle length (little-endian
    // u64 each), then the literal middle.
    let delta = delta_encode(&b"abcXYZdef".to_vec(), &b"abcdef".to_vec());
    let mut expect: Vec<u8> = vec![];
    expect.extend_from_slice(&3u64.to_le_bytes());
    expect.extend_from_slice(&3u64.to_le_bytes());
    expect.extend_from_slice(&3u64.to_le_bytes());
    expect.extend_from_slice(b"XYZ");
    assert_eq!(delta, expect);
}

#[test]
fn delta_is_a_delta() {
    // For a small change to a large file the delta is far smaller than the
    // post-image: the encoder does not simply store the new contents.
    let old: Vec<u8> = vec![9u8; 10_000];
    let mut new = old.clone();
    new[5_000] = 10;
    let delta = delta_encode(&new, &old);
    assert!(delta.len() < 100, "delta unexpectedly large: {}", delta.len());
}

#[test]
fn delta_rejects_garbage() {
    let old = b"abcdef".to_vec();
    assert!(delta_apply(&vec![0u8; 10], &old).is_none());
    // A well-formed header whose prefix reaches past the pre-image.
    let mut bad: Vec<u8> = vec![];
    bad.extend_from_slice(&100u64.to_le_bytes());
    bad.extend_from_slice(&0u64.to_le_bytes());
    bad.extend_from_slice(&0u64.to_le_bytes());
    assert!(delta_apply(&bad, &old).is_none());
}

#[test]
fn digest_matches_independent_computation() {
    let data = b"the quick brown fox".to_vec();
    let ours = hash_bytes(&data);
    let theirs = *blake3::hash(&data).as_bytes();
    assert_eq!(ours, theirs);
    // And it is no identity: different input, different digest.
    let other = hash_bytes(&b"the quick brown foy".to_vec());
    assert_ne!(ours, other);
}

#[test]
fn built_hashes_are_real_digests() {
    let old = mk_tree(&[("a.txt", b"hello")]);
    let new = mk_tree(&[("a.txt", b"hello")]);
    let bundle = build_bundle(
        &old,
        &new,
        &"p".to_string(),
        &"1".to_string(),
        &"2".to_string(),
        false,
    );
    assert_eq!(bundle.manifest.files[0].original_hash, *blake3::hash(b"hello").as_bytes());
}

#[test]
fn plan_entry_decides() {
    let full = PatchData::Full(b"contents".to_vec());
    let entries = vec![full];
    let h = *blake3::hash(b"x").as_bytes();
    let added = FileEntry {
        path: "f".to_string(),
        kind: PatchKind::Added { idx: 0 },
        original_hash: [0u8; 32],
        new_hash: h,
    };
    match plan_entry(&added, &entries, None).unwrap() {
        FileAction::Write(b) => assert_eq!(b, b"contents".to_vec()),
        other => panic!("expected Write, got {:?}", other),
    }
    let unchanged = FileEntry {
        path: "f".to_string(),
        kind: PatchKind::Unchanged,
        original_hash: h,
        new_hash: h,
    };
    assert!(matches!(plan_entry(&unchanged, &entries, None).unwrap(), FileAction::Noop));
    let deleted = FileEntry {
        path: "f".to_string(),
        kind: PatchKind::Deleted,
        original_hash: h,
        new_hash: [0u8; 32],
    };
    let cur = b"x".to_vec();
    assert!(matches!(plan_entry(&deleted, &entries, Some(&cur)).unwrap(), FileAction::Delete));
    assert!(matches!(plan_entry(&deleted, &entries, None).unwrap(), FileAction::Noop));
}

#[test]
fn verify_entry_checks_digest() {
    let cur = b"hello".to_vec();
    let good = FileEntry {
        path: "f".to_string(),
        kind: PatchKind::Unchanged,
        original_hash: *blake3::hash(b"hello").as_bytes(),
        new_hash: *blake3::hash(b"hello").as_bytes(),
    };
    assert!(verify_entry(&good, Some(&cur)).is_ok());
    let wrong = b"hellp".to_vec();
    assert!(matches!(
        verify_entry(&good, Some(&wrong)),
        Err(PatchError::PreconditionMismatch { .. })
    ));
    assert!(matches!(verify_entry(&good, None), Err(PatchError::PreconditionMissing { .. })));
}

fn bad_index_bundle() -> PatchBundle {
    let h = *blake3::hash(b"x").as_bytes();
    PatchBundle {
        manifest: Manifest {
            product: "p".to_string(),
            from_version: "1".to_string(),
            to_version: "2".to_string(),
            files: vec![FileEntry {
                path: "f".to_string(),
                kind: PatchKind::Added { idx: 7 },
                original_hash: [0u8; 32],
                new_hash: h,
            }],
        },
        entries: vec![],
    }
}

#[test]
fn apply_rejects_bad_index() {
    let target = mk_tree(&[]);
    let err = apply_bundle(&bad_index_bundle(), &target).unwrap_err();
    assert_eq!(err, PatchError::InvalidBundle);
}

#[test]
fn apply_rejects_wrong_payload_variant() {
    let h1 = *blake3::hash(b"old").as_bytes();
    let h2 = *blake3::hash(b"new").as_bytes();
    let bundle = PatchBundle {
        manifest: Manifest {
            product: "p".to_string(),
            from_version: "1".to_string(),
            to_version: "2".to_string(),
            files: vec![FileEntry {
                path: "f".to_string(),
                kind: PatchKind::Patched { idx: 0 },
                original_hash: h1,
                new_hash: h2,
            }],
        },
        entries: vec![PatchData::Full(b"new".to_vec())],
    };
    let target = mk_tree(&[("f", b"old")]);
    assert_eq!(apply_bundle(&bundle, &target).unwrap_err(), PatchError::InvalidBundle);
}

#[test]
fn apply_reports_codec_failure() {
    let h1 = *blake3::hash(b"old").as_bytes();
    let h2 = *blake3::hash(b"new").as_bytes();
    let bundle = PatchBundle {
        manifest: Manifest {
            product: "p".to_string(),
            from_version: "1".to_string(),
            to_version: "2".to_string(),
            files: vec![FileEntry {
                path: "f".to_string(),
                kind: PatchKind::Patched { idx: 0 },
                original_hash: h1,
                new_hash: h2,
            }],
        },
        entries: vec![PatchData::Xdelta(vec![1, 2, 3])],
    };
    let target = mk_tree(&[("f", b"old")]);
    match apply_bundle(&bundle, &target).unwrap_err() {
        PatchError::CodecFailure { path } => assert_eq!(path, "f"),
        other => panic!("expected CodecFailure, got {:?}", other),
    }
}

#[test]
fn apply_reports_missing_patch_target() {
    let h1 = *blake3::hash(b"old").as_bytes();
    let h2 = *blake3::hash(b"new").as_bytes();
    let bundle = PatchBundle {
        manifest: Manifest {
            product: "p".to_string(),
            from_version: "1".to_string(),
            to_version: "2".to_string(),
            files: vec![FileEntry {
                path: "f".to_string(),
                kind: PatchKind::Patched { idx: 0 },
                original_hash: h1,
                new_hash: h2,
            }],
        },
        entries: vec![PatchData::Xdelta(vec![1, 2, 3])],
    };
    let target = mk_tree(&[]);
    match apply_bundle(&bundle, &target).unwrap_err() {
        PatchError::PreconditionMissing { path } => assert_eq!(path, "f"),
        other => panic!("expected PreconditionMissing, got {:?}", other),
    }
}

#[test]
fn added_overwrites_existing_target() {
    // An `Added` entry overwrites a file already present at the target path.
    let old = mk_tree(&[]);
    let new = mk_tree(&[("f", b"fresh")]);
    let bundle = build_bundle(
        &old,
        &new,
        &"p".to_string(),
        &"1".to_string(),
        &"2".to_string(),
        false,
    );
    let target = mk_tree(&[("f", b"stale")]);
    let out = apply_bundle(&bundle, &target).unwrap();
    assert_eq!(out.files.len(), 1);
    assert_eq!(out.files[0].contents, b"fresh".to_vec());
}
