//! The binary codec and the container framing: round trips and the failure
//! modes of decoding and of trailer parsing.

use patchkit::codec::decode_bundle;
use patchkit::codec::encode_bundle;
use patchkit::container::build_installer_image;
use patchkit::container::frame_bundle;
use patchkit::container::load_bundle;
use patchkit::container::locate_bundle;
use patchkit::FileEntry;
use patchkit::Manifest;
use patchkit::PatchBundle;
use patchkit::PatchData;
use patchkit::PatchError;
use patchkit::PatchKind;

fn sample_bundle() -> PatchBundle {
    let h1 = *blake3::hash(b"one").as_bytes();
    let h2 = *blake3::hash(b"two").as_bytes();
    let h3 = *blake3::hash(b"three").as_bytes();
    PatchBundle {
        manifest: Manifest {
            product: "demo".to_string(),
            from_version: "1.0".to_string(),
            to_version: "2.0".to_string(),
            files: vec![
                FileEntry {
                    path: "keep/it".to_string(),
                    kind: PatchKind::Unchanged,
                    original_hash: h1,
                    new_hash: h1,
                },
                FileEntry {
                    path: "change".to_string(),
                    kind: PatchKind::Patched { idx: 0 },
                    original_hash: h1,
                    new_hash: h2,
                },
                FileEntry {
                    path: "fresh-\u{00e9}".to_string(),
                    kind: PatchKind::Added { idx: 1 },
                    original_hash: [0u8; 32],
                    new_hash: h3,
                },
                FileEntry {
                    path: "gone".to_string(),
                    kind: PatchKind::Deleted,
                    original_hash: h2,
                    new_hash: [0u8; 32],
                },
            ],
        },
        entries: vec![
            PatchData::Xdelta(vec![1, 2, 3]),
            PatchData::Full(vec![4, 5, 6, 7]),
        ],
    }
}

fn bundles_equal(a: &PatchBundle, b: &PatchBundle) -> bool {
    if a.manifest.product != b.manifest.product
        || a.manifest.from_version != b.manifest.from_version
        || a.manifest.to_version != b.manifest.to_version
        || a.manifest.files.len() != b.manifest.files.len()
    {
        return false;
    }
    for (x, y) in a.manifest.files.iter().zip(b.manifest.files.iter()) {
        if x.path != y.path
            || x.kind != y.kind
            || x.original_hash != y.original_hash
            || x.new_hash != y.new_hash
        {
            return false;
        }
    }
    a.entries == b.entries
}

#[test]
fn codec_round_trip() {
    let bundle = sample_bundle();
    assert!(bundle.is_wf());
    let bytes = encode_bundle(&bundle);
    let back = decode_bundle(&bytes).unwrap();
    assert!(bundles_equal(&bundle, &back));
}

#[test]
fn empty_bundle_exact_bytes() {
    // Three empty length-prefixed strings, a zero entry count and a zero
    // payload count: forty zero bytes.
    let empty = PatchBundle {
        manifest: Manifest {
            product: String::new(),
            from_version: String::new(),
            to_version: String::new(),
            files: vec![],
        },
        entries: vec![],
    };
    let bytes = encode_bundle(&empty);
    assert_eq!(bytes, vec![0u8; 40]);
    let back = decode_bundle(&bytes).unwrap();
    assert!(bundles_equal(&empty, &back));
}

#[test]
fn trailer_is_the_encoded_length() {
    let bundle = sample_bundle();
    let stub = vec![1u8; 10];
    let image = build_installer_image(&bundle, &stub);
    let encoded = encode_bundle(&bundle);
    let n = image.len();
    assert_eq!(&image[n - 8..], &(encoded.len() as u64).to_le_bytes());
}

#[test]
fn decode_rejects_garbage() {
    let garbage = vec![0xFFu8; 64];
    assert_eq!(decode_bundle(&garbage).unwrap_err(), PatchError::InvalidBundle);
}

#[test]
fn decode_rejects_truncation() {
    let bundle = sample_bundle();
    let bytes = encode_bundle(&bundle);
    for cut in [1usize, 8, bytes.len() / 2, bytes.len() - 1] {
        let truncated: Vec<u8> = bytes[..cut].to_vec();
        assert_eq!(decode_bundle(&truncated).unwrap_err(), PatchError::InvalidBundle);
    }
}

#[test]
fn decode_rejects_trailing_bytes() {
    let bundle = sample_bundle();
    let mut bytes = encode_bundle(&bundle);
    bytes.push(0);
    assert_eq!(decode_bundle(&bytes).unwrap_err(), PatchError::InvalidBundle);
}

#[test]
fn corruption_never_decodes_to_the_original() {
    // Corrupt every byte position in turn: each corrupted image either
    // fails to decode (a bad tag, length or count) or decodes to a bundle
    // that differs from the original — never silently back to it.
    let bundle = sample_bundle();
    let mut bytes = encode_bundle(&bundle);
    let original = decode_bundle(&bytes).unwrap();
    for i in 0..bytes.len() {
        let saved = bytes[i];
        bytes[i] = saved.wrapping_add(1);
        match decode_bundle(&bytes) {
            Ok(other) => {
                // A changed byte that still decodes must not round back to
                // the original value.
                assert!(!bundles_equal(&original, &other));
            },
            Err(e) => assert_eq!(e, PatchError::InvalidBundle),
        }
        bytes[i] = saved;
    }
}

#[test]
fn decode_rejects_invariant_breakers() {
    // An out-of-range payload index encodes fine but must not decode.
    let h = *blake3::hash(b"x").as_bytes();
    let bad = PatchBundle {
        manifest: Manifest {
            product: "p".to_string(),
            from_version: "a".to_string(),
            to_version: "b".to_string(),
            files: vec![FileEntry {
                path: "f".to_string(),
                kind: PatchKind::Added { idx: 3 },
                original_hash: [0u8; 32],
                new_hash: h,
            }],
        },
        entries: vec![],
    };
    assert!(!bad.is_wf());
    let bytes = encode_bundle(&bad);
    assert_eq!(decode_bundle(&bytes).unwrap_err(), PatchError::InvalidBundle);
}

#[test]
fn framing_round_trip() {
    let bundle = sample_bundle();
    let stub: Vec<u8> = (0u8..200).collect();
    let image = build_installer_image(&bundle, &stub);
    assert_eq!(&image[..stub.len()], &stub[..]);
    let encoded = encode_bundle(&bundle);
    assert_eq!(image.len(), stub.len() + encoded.len() + 8);
    let located = locate_bundle(&image).unwrap();
    assert_eq!(located, encoded);
    let back = load_bundle(&image).unwrap();
    assert!(bundles_equal(&bundle, &back));
}

#[test]
fn corrupted_trailer_is_invalid() {
    let bundle = sample_bundle();
    let stub: Vec<u8> = vec![7u8; 64];
    let mut image = build_installer_image(&bundle, &stub);
    // Length field pointing past the beginning of the file.
    let n = image.len();
    image[n - 8..].copy_from_slice(&(n as u64).to_le_bytes());
    assert_eq!(load_bundle(&image).unwrap_err(), PatchError::InvalidBundle);
    // All-ones trailer.
    image[n - 8..].copy_from_slice(&u64::MAX.to_le_bytes());
    assert_eq!(load_bundle(&image).unwrap_err(), PatchError::InvalidBundle);
}

#[test]
fn short_image_is_invalid() {
    let image = vec![1u8, 2, 3];
    assert_eq!(load_bundle(&image).unwrap_err(), PatchError::InvalidBundle);
    let empty: Vec<u8> = vec![];
    assert_eq!(load_bundle(&empty).unwrap_err(), PatchError::InvalidBundle);
}

#[test]
fn trailer_inside_stub_is_rejected_or_invalid() {
    // A corrupted length that lands inside the stub region frames bytes
    // that are not a bundle encoding: the decoder rejects them.
    let bundle = sample_bundle();
    let stub: Vec<u8> = vec![0xAB; 100];
    let mut image = build_installer_image(&bundle, &stub);
    let n = image.len();
    image[n - 8..].copy_from_slice(&((n - 8) as u64).to_le_bytes());
    assert_eq!(load_bundle(&image).unwrap_err(), PatchError::InvalidBundle);
}
