//! End-to-end scenarios: building a bundle from two in-memory trees and
//! applying it to the old tree.

use patchkit::applier::apply_bundle;
use patchkit::applier::verify_base_folder;
use patchkit::builder::build_bundle;
use patchkit::delta::delta_apply;
use patchkit::tree::Tree;
use patchkit::tree::TreeFile;
use patchkit::PatchBundle;
use patchkit::PatchData;
use patchkit::PatchKind;

fn mk_tree(files: &[(&str, &[u8])]) -> Tree {
    Tree {
        files: files
            .iter()
            .map(|(p, c)| TreeFile { path: p.to_string(), contents: c.to_vec() })
            .collect(),
    }
}

fn tree_as_pairs(t: &Tree) -> Vec<(String, Vec<u8>)> {
    let mut v: Vec<(String, Vec<u8>)> =
        t.files.iter().map(|f| (f.path.clone(), f.contents.clone())).collect();
    v.sort();
    v
}

fn trees_equal(a: &Tree, b: &Tree) -> bool {
    tree_as_pairs(a) == tree_as_pairs(b)
}

fn build(old: &Tree, new: &Tree, delete_extra: bool) -> PatchBundle {
    build_bundle(
        old,
        new,
        &"prod".to_string(),
        &"1.0".to_string(),
        &"2.0".to_string(),
        delete_extra,
    )
}

#[test]
fn identical_trees() {
    let old = mk_tree(&[("a.txt", b"hello")]);
    let new = mk_tree(&[("a.txt", b"hello")]);
    let bundle = build(&old, &new, false);
    assert_eq!(bundle.manifest.files.len(), 1);
    let e = &bundle.manifest.files[0];
    assert_eq!(e.path, "a.txt");
    assert!(matches!(e.kind, PatchKind::Unchanged));
    assert_eq!(e.original_hash, e.new_hash);
    assert_ne!(e.original_hash, [0u8; 32]);
    assert!(bundle.entries.is_empty());

    let target = mk_tree(&[("a.txt", b"hello")]);
    assert!(verify_base_folder(&bundle, &target).is_ok());
    let out = apply_bundle(&bundle, &target).unwrap();
    assert!(trees_equal(&out, &new));
}

#[test]
fn empty_trees() {
    let old = mk_tree(&[]);
    let new = mk_tree(&[]);
    let bundle = build(&old, &new, true);
    assert!(bundle.manifest.files.is_empty());
    assert!(bundle.entries.is_empty());
    let out = apply_bundle(&bundle, &mk_tree(&[])).unwrap();
    assert!(out.files.is_empty());
}

#[test]
fn pure_add() {
    let contents: Vec<u8> = (0u8..=255).collect();
    let old = mk_tree(&[]);
    let new = Tree {
        files: vec![TreeFile { path: "dir/b.bin".to_string(), contents: contents.clone() }],
    };
    let bundle = build(&old, &new, false);
    assert_eq!(bundle.manifest.files.len(), 1);
    let e = &bundle.manifest.files[0];
    assert!(matches!(e.kind, PatchKind::Added { idx: 0 }));
    assert_eq!(e.original_hash, [0u8; 32]);
    assert_ne!(e.new_hash, [0u8; 32]);
    assert_eq!(bundle.entries.len(), 1);
    match &bundle.entries[0] {
        PatchData::Full(b) => assert_eq!(b, &contents),
        other => panic!("expected Full, got {:?}", other),
    }

    let target = mk_tree(&[]);
    assert!(verify_base_folder(&bundle, &target).is_ok());
    let out = apply_bundle(&bundle, &target).unwrap();
    assert_eq!(out.files.len(), 1);
    assert_eq!(out.files[0].path, "dir/b.bin");
    assert_eq!(out.files[0].contents, contents);
}

#[test]
fn pure_delete() {
    let old = mk_tree(&[("stale.log", b"x")]);
    let new = mk_tree(&[]);
    let bundle = build(&old, &new, true);
    assert_eq!(bundle.manifest.files.len(), 1);
    let e = &bundle.manifest.files[0];
    assert_eq!(e.path, "stale.log");
    assert!(matches!(e.kind, PatchKind::Deleted));
    assert_ne!(e.original_hash, [0u8; 32]);
    assert_eq!(e.new_hash, [0u8; 32]);
    assert!(bundle.entries.is_empty());

    let target = mk_tree(&[("stale.log", b"x")]);
    assert!(verify_base_folder(&bundle, &target).is_ok());
    let out = apply_bundle(&bundle, &target).unwrap();
    assert!(out.files.is_empty());
}

#[test]
fn modification() {
    let old = mk_tree(&[("f", b"abcdef")]);
    let new = mk_tree(&[("f", b"abcXYZdef")]);
    let bundle = build(&old, &new, false);
    assert_eq!(bundle.manifest.files.len(), 1);
    let e = &bundle.manifest.files[0];
    assert!(matches!(e.kind, PatchKind::Patched { idx: 0 }));
    assert_ne!(e.original_hash, e.new_hash);
    assert_eq!(bundle.entries.len(), 1);
    match &bundle.entries[0] {
        PatchData::Xdelta(d) => {
            let decoded = delta_apply(d, &b"abcdef".to_vec()).unwrap();
            assert_eq!(decoded, b"abcXYZdef".to_vec());
        },
        other => panic!("expected Xdelta, got {:?}", other),
    }

    let target = mk_tree(&[("f", b"abcdef")]);
    assert!(verify_base_folder(&bundle, &target).is_ok());
    let out = apply_bundle(&bundle, &target).unwrap();
    assert!(trees_equal(&out, &new));
}

#[test]
fn precondition_violation() {
    let old = mk_tree(&[("f", b"abcdef")]);
    let new = mk_tree(&[("f", b"abcXYZdef")]);
    let bundle = build(&old, &new, false);
    let mutated = mk_tree(&[("f", b"abcdef!")]);
    let err = verify_base_folder(&bundle, &mutated).unwrap_err();
    match err {
        patchkit::PatchError::PreconditionMismatch { path } => assert_eq!(path, "f"),
        other => panic!("expected PreconditionMismatch, got {:?}", other),
    }
    // Verification mutates nothing: the tree still holds the mutated bytes.
    assert_eq!(mutated.files[0].contents, b"abcdef!".to_vec());
}

#[test]
fn missing_preimage() {
    let old = mk_tree(&[("f", b"abcdef")]);
    let new = mk_tree(&[("f", b"abcXYZdef")]);
    let bundle = build(&old, &new, false);
    let empty = mk_tree(&[]);
    let err = verify_base_folder(&bundle, &empty).unwrap_err();
    match err {
        patchkit::PatchError::PreconditionMissing { path } => assert_eq!(path, "f"),
        other => panic!("expected PreconditionMissing, got {:?}", other),
    }
}

#[test]
fn mixed_tree() {
    let old = mk_tree(&[("keep", b"K"), ("change", b"old"), ("gone", b"g")]);
    let new = mk_tree(&[("keep", b"K"), ("change", b"new"), ("fresh", b"F")]);
    let bundle = build(&old, &new, true);
    let files = &bundle.manifest.files;
    assert_eq!(files.len(), 4);
    assert_eq!(files[0].path, "keep");
    assert!(matches!(files[0].kind, PatchKind::Unchanged));
    assert_eq!(files[1].path, "change");
    assert!(matches!(files[1].kind, PatchKind::Patched { idx: 0 }));
    assert_eq!(files[2].path, "fresh");
    assert!(matches!(files[2].kind, PatchKind::Added { idx: 1 }));
    assert_eq!(files[3].path, "gone");
    assert!(matches!(files[3].kind, PatchKind::Deleted));
    assert_eq!(bundle.entries.len(), 2);
    assert!(matches!(&bundle.entries[0], PatchData::Xdelta(_)));
    match &bundle.entries[1] {
        PatchData::Full(b) => assert_eq!(b, &b"F".to_vec()),
        other => panic!("expected Full, got {:?}", other),
    }

    // The produced bundle satisfies its invariants.
    assert!(bundle.is_wf());

    let target = mk_tree(&[("keep", b"K"), ("change", b"old"), ("gone", b"g")]);
    assert!(verify_base_folder(&bundle, &target).is_ok());
    let out = apply_bundle(&bundle, &target).unwrap();
    assert!(trees_equal(&out, &new));
}

#[test]
fn round_trip_without_delete_keeps_extras() {
    let old = mk_tree(&[("keep", b"K"), ("extra", b"E")]);
    let new = mk_tree(&[("keep", b"K2")]);
    let bundle = build(&old, &new, false);
    let out = apply_bundle(&bundle, &old).unwrap();
    let expect = mk_tree(&[("keep", b"K2"), ("extra", b"E")]);
    assert!(trees_equal(&out, &expect));
}

#[test]
fn idempotent_deletion() {
    let old = mk_tree(&[("stale.log", b"x"), ("same", b"s")]);
    let new = mk_tree(&[("same", b"s")]);
    let bundle = build(&old, &new, true);
    let first = apply_bundle(&bundle, &old).unwrap();
    assert!(first.files.iter().all(|f| f.path != "stale.log"));
    // Applying again succeeds and is a no-op for the deleted entry.
    let second = apply_bundle(&bundle, &first).unwrap();
    assert!(trees_equal(&first, &second));
}

#[test]
fn build_leaves_sources_untouched() {
    let old = mk_tree(&[("a", b"1"), ("b", b"2")]);
    let new = mk_tree(&[("a", b"1x"), ("c", b"3")]);
    let old_before = tree_as_pairs(&old);
    let new_before = tree_as_pairs(&new);
    let _ = build(&old, &new, true);
    assert_eq!(tree_as_pairs(&old), old_before);
    assert_eq!(tree_as_pairs(&new), new_before);
}

fn bundles_equal(a: &PatchBundle, b: &PatchBundle) -> bool {
    if a.manifest.product != b.manifest.product
        || a.manifest.from_version != b.manifest.from_version
        || a.manifest.to_version != b.manifest.to_version
        || a.manifest.files.len() != b.manifest.files.len()
        || a.entries.len() != b.entries.len()
    {
        return false;
    }
    for (x, y) in a.manifest.files.iter().zip(b.manifest.files.iter()) {
        if x.path != y.path
            || x.kind != y.kind
            || x.original_hash != y.original_hash
            || x.new_hash != y.new_hash
        {
            return false;
        }
    }
    a.entries == b.entries
}

#[test]
fn deterministic_manifest() {
    let old = mk_tree(&[("keep", b"K"), ("change", b"old"), ("gone", b"g")]);
    let new = mk_tree(&[("keep", b"K"), ("change", b"new"), ("fresh", b"F")]);
    let one = build(&old, &new, true);
    let two = build(&old, &new, true);
    assert!(bundles_equal(&one, &two));
}
