//! The deterministic binary codec for bundles.
//!
//! Layout: every length, count and payload index is a little-endian u64;
//! byte strings are length-prefixed; strings are their UTF-8 bytes,
//! length-prefixed; digests are 32 raw bytes; the two sum types carry a
//! one-byte discriminant. A bundle is its manifest, then its payload count,
//! then the payloads. Decoding accepts exactly the encodings of well-formed
//! bundles that consume the whole input, and fails otherwise.

use vstd::prelude::*;
use vstd::bytes::lemma_auto_spec_u64_to_from_le_bytes;
use vstd::bytes::spec_u64_from_le_bytes;
use vstd::bytes::spec_u64_to_le_bytes;
use vstd::bytes::u64_from_le_bytes;
use vstd::bytes::u64_to_le_bytes;
use vstd::slice::slice_subrange;
use vstd::slice::slice_to_vec;
use vstd::utf8::decode_utf8;
use vstd::utf8::encode_utf8;
use vstd::utf8::encode_utf8_decode_utf8;
use vstd::utf8::encode_utf8_valid_utf8;
use vstd::utf8::valid_utf8;

use crate::types::bundle_wf;
use crate::types::hash_wf;
use crate::types::FileEntry;
use crate::types::FileEntryV;
use crate::types::Manifest;
use crate::types::ManifestV;
use crate::types::PatchBundle;
use crate::types::PatchBundleV;
use crate::types::PatchData;
use crate::types::PatchDataV;
use crate::types::PatchError;
use crate::types::PatchErrorV;
use crate::types::PatchKind;

verus! {

// ---------------------------------------------------------------------------
// The encoding, as spec functions
// ---------------------------------------------------------------------------

/// A length-prefixed byte string.
pub open spec fn enc_bytes(b: Seq<u8>) -> Seq<u8> {
    spec_u64_to_le_bytes(b.len() as u64) + b
}

/// A string: its UTF-8 bytes, length-prefixed.
pub open spec fn enc_string(s: Seq<char>) -> Seq<u8> {
    enc_bytes(encode_utf8(s))
}

/// An entry kind: a one-byte discriminant, and the payload index where the
/// kind carries one.
pub open spec fn enc_kind(k: PatchKind) -> Seq<u8> {
    match k {
        PatchKind::Unchanged => seq![0u8],
        PatchKind::Patched { idx } => seq![1u8] + spec_u64_to_le_bytes(idx as u64),
        PatchKind::Added { idx } => seq![2u8] + spec_u64_to_le_bytes(idx as u64),
        PatchKind::Deleted => seq![3u8],
    }
}

/// A manifest entry: path, kind, and the two digests as 32 raw bytes each.
pub open spec fn enc_entry(e: FileEntryV) -> Seq<u8> {
    enc_string(e.path) + enc_kind(e.kind) + e.original_hash + e.new_hash
}

pub open spec fn enc_entries(es: Seq<FileEntryV>) -> Seq<u8>
    decreases es.len(),
{
    if es.len() == 0 {
        Seq::<u8>::empty()
    } else {
        enc_entry(es[0]) + enc_entries(es.drop_first())
    }
}

/// A payload: a one-byte discriminant, then its length-prefixed bytes.
pub open spec fn enc_data(d: PatchDataV) -> Seq<u8> {
    match d {
        PatchDataV::Xdelta(b) => seq![0u8] + enc_bytes(b),
        PatchDataV::Full(b) => seq![1u8] + enc_bytes(b),
    }
}

pub open spec fn enc_datas(ds: Seq<PatchDataV>) -> Seq<u8>
    decreases ds.len(),
{
    if ds.len() == 0 {
        Seq::<u8>::empty()
    } else {
        enc_data(ds[0]) + enc_datas(ds.drop_first())
    }
}

/// A manifest: the three strings, the entry count, then the entries.
pub open spec fn enc_manifest(m: ManifestV) -> Seq<u8> {
    enc_string(m.product) + enc_string(m.from_version) + enc_string(m.to_version)
        + spec_u64_to_le_bytes(m.files.len() as u64) + enc_entries(m.files)
}

/// A bundle: its manifest, the payload count, then the payloads.
pub open spec fn spec_encode_bundle(b: PatchBundleV) -> Seq<u8> {
    enc_manifest(b.manifest) + spec_u64_to_le_bytes(b.entries.len() as u64) + enc_datas(b.entries)
}

// ---------------------------------------------------------------------------
// The decoding, as spec functions over the remaining input
// ---------------------------------------------------------------------------

pub open spec fn dec_u64(s: Seq<u8>) -> Option<(u64, Seq<u8>)> {
    if s.len() >= 8 {
        Some((spec_u64_from_le_bytes(s.take(8)), s.skip(8)))
    } else {
        None
    }
}

pub open spec fn dec_bytes(s: Seq<u8>) -> Option<(Seq<u8>, Seq<u8>)> {
    match dec_u64(s) {
        None => None,
        Some((n, r)) => {
            if n <= r.len() {
                Some((r.take(n as int), r.skip(n as int)))
            } else {
                None
            }
        },
    }
}

pub open spec fn dec_string(s: Seq<u8>) -> Option<(Seq<char>, Seq<u8>)> {
    match dec_bytes(s) {
        None => None,
        Some((b, r)) => {
            if valid_utf8(b) {
                Some((decode_utf8(b), r))
            } else {
                None
            }
        },
    }
}

pub open spec fn dec_hash(s: Seq<u8>) -> Option<(Seq<u8>, Seq<u8>)> {
    if s.len() >= 32 {
        Some((s.take(32), s.skip(32)))
    } else {
        None
    }
}

pub open spec fn dec_kind(s: Seq<u8>) -> Option<(PatchKind, Seq<u8>)> {
    if s.len() < 1 {
        None
    } else {
        let tag = s[0];
        let r = s.skip(1);
        if tag == 0 {
            Some((PatchKind::Unchanged, r))
        } else if tag == 3 {
            Some((PatchKind::Deleted, r))
        } else if tag == 1 || tag == 2 {
            match dec_u64(r) {
                None => None,
                Some((x, r2)) => {
                    if x <= usize::MAX as u64 {
                        if tag == 1 {
                            Some((PatchKind::Patched { idx: x as usize }, r2))
                        } else {
                            Some((PatchKind::Added { idx: x as usize }, r2))
                        }
                    } else {
                        None
                    }
                },
            }
        } else {
            None
        }
    }
}

pub open spec fn dec_entry(s: Seq<u8>) -> Option<(FileEntryV, Seq<u8>)> {
    match dec_string(s) {
        None => None,
        Some((path, r1)) => match dec_kind(r1) {
            None => None,
            Some((kind, r2)) => match dec_hash(r2) {
                None => None,
                Some((oh, r3)) => match dec_hash(r3) {
                    None => None,
                    Some((nh, r4)) => Some(
                        (FileEntryV { path, kind, original_hash: oh, new_hash: nh }, r4),
                    ),
                },
            },
        },
    }
}

pub open spec fn dec_entries(s: Seq<u8>, n: nat) -> Option<(Seq<FileEntryV>, Seq<u8>)>
    decreases n,
{
    if n == 0 {
        Some((Seq::<FileEntryV>::empty(), s))
    } else {
        match dec_entry(s) {
            None => None,
            Some((e, r)) => match dec_entries(r, (n - 1) as nat) {
                None => None,
                Some((es, r2)) => Some((seq![e] + es, r2)),
            },
        }
    }
}

pub open spec fn dec_data(s: Seq<u8>) -> Option<(PatchDataV, Seq<u8>)> {
    if s.len() < 1 {
        None
    } else {
        let tag = s[0];
        match dec_bytes(s.skip(1)) {
            None => None,
            Some((b, r)) => {
                if tag == 0 {
                    Some((PatchDataV::Xdelta(b), r))
                } else if tag == 1 {
                    Some((PatchDataV::Full(b), r))
                } else {
                    None
                }
            },
        }
    }
}

pub open spec fn dec_datas(s: Seq<u8>, n: nat) -> Option<(Seq<PatchDataV>, Seq<u8>)>
    decreases n,
{
    if n == 0 {
        Some((Seq::<PatchDataV>::empty(), s))
    } else {
        match dec_data(s) {
            None => None,
            Some((d, r)) => match dec_datas(r, (n - 1) as nat) {
                None => None,
                Some((ds, r2)) => Some((seq![d] + ds, r2)),
            },
        }
    }
}

pub open spec fn dec_manifest(s: Seq<u8>) -> Option<(ManifestV, Seq<u8>)> {
    match dec_string(s) {
        None => None,
        Some((product, r1)) => match dec_string(r1) {
            None => None,
            Some((from_version, r2)) => match dec_string(r2) {
                None => None,
                Some((to_version, r3)) => match dec_u64(r3) {
                    None => None,
                    Some((n, r4)) => {
                        if n <= usize::MAX as u64 {
                            match dec_entries(r4, n as nat) {
                                None => None,
                                Some((files, r5)) => Some(
                                    (ManifestV { product, from_version, to_version, files }, r5),
                                ),
                            }
                        } else {
                            None
                        }
                    },
                },
            },
        },
    }
}

pub open spec fn dec_bundle(s: Seq<u8>) -> Option<(PatchBundleV, Seq<u8>)> {
    match dec_manifest(s) {
        None => None,
        Some((m, r1)) => match dec_u64(r1) {
            None => None,
            Some((n, r2)) => {
                if n <= usize::MAX as u64 {
                    match dec_datas(r2, n as nat) {
                        None => None,
                        Some((ds, r3)) => Some((PatchBundleV { manifest: m, entries: ds }, r3)),
                    }
                } else {
                    None
                }
            },
        },
    }
}

/// What decoding a byte image yields: the bundle, provided the image is one
/// whole well-formed encoding; nothing otherwise.
pub open spec fn spec_decode_bundle(s: Seq<u8>) -> Option<PatchBundleV> {
    match dec_bundle(s) {
        None => None,
        Some((b, rest)) => {
            if rest.len() == 0 && bundle_wf(b) {
                Some(b)
            } else {
                None
            }
        },
    }
}

// ---------------------------------------------------------------------------
// Bounds under which the encoding is faithful
// ---------------------------------------------------------------------------

/// Every length that the encoding writes as a u64 must fit one.
pub open spec fn entry_size_ok(e: FileEntryV) -> bool {
    encode_utf8(e.path).len() <= u64::MAX
}

pub open spec fn bundle_size_ok(b: PatchBundleV) -> bool {
    &&& encode_utf8(b.manifest.product).len() <= u64::MAX
    &&& encode_utf8(b.manifest.from_version).len() <= u64::MAX
    &&& encode_utf8(b.manifest.to_version).len() <= u64::MAX
    &&& b.manifest.files.len() <= usize::MAX
    &&& b.entries.len() <= usize::MAX
    &&& forall|i: int| 0 <= i < b.manifest.files.len() ==> entry_size_ok(
        #[trigger] b.manifest.files[i],
    )
    &&& forall|i: int| 0 <= i < b.entries.len() ==> (#[trigger] b.entries[i]).payload().len()
        <= u64::MAX
}

// ---------------------------------------------------------------------------
// Round trip: decoding inverts encoding
// ---------------------------------------------------------------------------

pub proof fn lemma_dec_enc_u64(x: u64, rest: Seq<u8>)
    ensures
        dec_u64(spec_u64_to_le_bytes(x) + rest) == Some((x, rest)),
{
    lemma_auto_spec_u64_to_from_le_bytes();
    let s = spec_u64_to_le_bytes(x) + rest;
    assert(s.take(8) =~= spec_u64_to_le_bytes(x));
    assert(s.skip(8) =~= rest);
}

pub proof fn lemma_dec_enc_bytes(b: Seq<u8>, rest: Seq<u8>)
    requires
        b.len() <= u64::MAX,
    ensures
        dec_bytes(enc_bytes(b) + rest) == Some((b, rest)),
{
    let s = enc_bytes(b) + rest;
    assert(s =~= spec_u64_to_le_bytes(b.len() as u64) + (b + rest));
    lemma_dec_enc_u64(b.len() as u64, b + rest);
    assert((b + rest).take(b.len() as int) =~= b);
    assert((b + rest).skip(b.len() as int) =~= rest);
}

pub proof fn lemma_dec_enc_string(c: Seq<char>, rest: Seq<u8>)
    requires
        encode_utf8(c).len() <= u64::MAX,
    ensures
        dec_string(enc_string(c) + rest) == Some((c, rest)),
{
    lemma_dec_enc_bytes(encode_utf8(c), rest);
    encode_utf8_valid_utf8(c);
    encode_utf8_decode_utf8(c);
}

pub proof fn lemma_dec_enc_hash(h: Seq<u8>, rest: Seq<u8>)
    requires
        h.len() == 32,
    ensures
        dec_hash(h + rest) == Some((h, rest)),
{
    assert((h + rest).take(32) =~= h);
    assert((h + rest).skip(32) =~= rest);
}

pub proof fn lemma_dec_enc_kind(k: PatchKind, rest: Seq<u8>)
    ensures
        dec_kind(enc_kind(k) + rest) == Some((k, rest)),
{
    let s = enc_kind(k) + rest;
    match k {
        PatchKind::Unchanged => {
            assert(s[0] == 0u8);
            assert(s.skip(1) =~= rest);
        },
        PatchKind::Deleted => {
            assert(s[0] == 3u8);
            assert(s.skip(1) =~= rest);
        },
        PatchKind::Patched { idx } => {
            assert(s[0] == 1u8);
            assert(s.skip(1) =~= spec_u64_to_le_bytes(idx as u64) + rest);
            lemma_dec_enc_u64(idx as u64, rest);
        },
        PatchKind::Added { idx } => {
            assert(s[0] == 2u8);
            assert(s.skip(1) =~= spec_u64_to_le_bytes(idx as u64) + rest);
            lemma_dec_enc_u64(idx as u64, rest);
        },
    }
}

pub proof fn lemma_dec_enc_entry(e: FileEntryV, rest: Seq<u8>)
    requires
        entry_size_ok(e),
        hash_wf(e.original_hash),
        hash_wf(e.new_hash),
    ensures
        dec_entry(enc_entry(e) + rest) == Some((e, rest)),
{
    let s = enc_entry(e) + rest;
    let r1 = enc_kind(e.kind) + e.original_hash + e.new_hash + rest;
    let r2 = e.original_hash + e.new_hash + rest;
    let r3 = e.new_hash + rest;
    assert(s =~= enc_string(e.path) + r1);
    lemma_dec_enc_string(e.path, r1);
    assert(r1 =~= enc_kind(e.kind) + r2);
    lemma_dec_enc_kind(e.kind, r2);
    assert(r2 =~= e.original_hash + r3);
    lemma_dec_enc_hash(e.original_hash, r3);
    lemma_dec_enc_hash(e.new_hash, rest);
}

pub proof fn lemma_dec_enc_entries(es: Seq<FileEntryV>, rest: Seq<u8>)
    requires
        forall|i: int| 0 <= i < es.len() ==> entry_size_ok(#[trigger] es[i]),
        forall|i: int| 0 <= i < es.len() ==> hash_wf(#[trigger] es[i].original_hash) && hash_wf(
            es[i].new_hash,
        ),
    ensures
        dec_entries(enc_entries(es) + rest, es.len()) == Some((es, rest)),
    decreases es.len(),
{
    if es.len() == 0 {
        assert(enc_entries(es) + rest =~= rest);
        assert(Seq::<FileEntryV>::empty() =~= es);
    } else {
        let tail = es.drop_first();
        let s = enc_entries(es) + rest;
        assert(s =~= enc_entry(es[0]) + (enc_entries(tail) + rest));
        lemma_dec_enc_entry(es[0], enc_entries(tail) + rest);
        lemma_dec_enc_entries(tail, rest);
        assert(seq![es[0]] + tail =~= es);
    }
}

pub proof fn lemma_dec_enc_data(d: PatchDataV, rest: Seq<u8>)
    requires
        d.payload().len() <= u64::MAX,
    ensures
        dec_data(enc_data(d) + rest) == Some((d, rest)),
{
    let s = enc_data(d) + rest;
    match d {
        PatchDataV::Xdelta(b) => {
            assert(s[0] == 0u8);
            assert(s.skip(1) =~= enc_bytes(b) + rest);
            lemma_dec_enc_bytes(b, rest);
        },
        PatchDataV::Full(b) => {
            assert(s[0] == 1u8);
            assert(s.skip(1) =~= enc_bytes(b) + rest);
            lemma_dec_enc_bytes(b, rest);
        },
    }
}

pub proof fn lemma_dec_enc_datas(ds: Seq<PatchDataV>, rest: Seq<u8>)
    requires
        forall|i: int| 0 <= i < ds.len() ==> (#[trigger] ds[i]).payload().len() <= u64::MAX,
    ensures
        dec_datas(enc_datas(ds) + rest, ds.len()) == Some((ds, rest)),
    decreases ds.len(),
{
    if ds.len() == 0 {
        assert(enc_datas(ds) + rest =~= rest);
        assert(Seq::<PatchDataV>::empty() =~= ds);
    } else {
        let tail = ds.drop_first();
        let s = enc_datas(ds) + rest;
        assert(s =~= enc_data(ds[0]) + (enc_datas(tail) + rest));
        lemma_dec_enc_data(ds[0], enc_datas(tail) + rest);
        lemma_dec_enc_datas(tail, rest);
        assert(seq![ds[0]] + tail =~= ds);
    }
}

pub proof fn lemma_dec_enc_manifest(m: ManifestV, rest: Seq<u8>)
    requires
        encode_utf8(m.product).len() <= u64::MAX,
        encode_utf8(m.from_version).len() <= u64::MAX,
        encode_utf8(m.to_version).len() <= u64::MAX,
        m.files.len() <= usize::MAX,
        forall|i: int| 0 <= i < m.files.len() ==> entry_size_ok(#[trigger] m.files[i]),
        forall|i: int| 0 <= i < m.files.len() ==> hash_wf(#[trigger] m.files[i].original_hash)
            && hash_wf(m.files[i].new_hash),
    ensures
        dec_manifest(enc_manifest(m) + rest) == Some((m, rest)),
{
    lemma_auto_spec_u64_to_from_le_bytes();
    let s = enc_manifest(m) + rest;
    let r1 = enc_string(m.from_version) + enc_string(m.to_version) + spec_u64_to_le_bytes(
        m.files.len() as u64,
    ) + enc_entries(m.files) + rest;
    let r2 = enc_string(m.to_version) + spec_u64_to_le_bytes(m.files.len() as u64) + enc_entries(
        m.files,
    ) + rest;
    let r3 = spec_u64_to_le_bytes(m.files.len() as u64) + (enc_entries(m.files) + rest);
    assert(s =~= enc_string(m.product) + r1);
    lemma_dec_enc_string(m.product, r1);
    assert(r1 =~= enc_string(m.from_version) + r2);
    lemma_dec_enc_string(m.from_version, r2);
    assert(r2 =~= enc_string(m.to_version) + r3);
    lemma_dec_enc_string(m.to_version, r3);
    lemma_dec_enc_u64(m.files.len() as u64, enc_entries(m.files) + rest);
    lemma_dec_enc_entries(m.files, rest);
}

/// The codec inverts itself: decoding the encoding of any well-formed bundle
/// whose lengths fit the format yields that bundle again.
pub proof fn lemma_codec_round_trip(b: PatchBundleV)
    requires
        bundle_wf(b),
        bundle_size_ok(b),
    ensures
        spec_decode_bundle(spec_encode_bundle(b)) == Some(b),
{
    lemma_auto_spec_u64_to_from_le_bytes();
    let s = spec_encode_bundle(b);
    let r1 = spec_u64_to_le_bytes(b.entries.len() as u64) + enc_datas(b.entries);
    assert(s =~= enc_manifest(b.manifest) + r1);
    lemma_dec_enc_manifest(b.manifest, r1);
    lemma_dec_enc_u64(b.entries.len() as u64, enc_datas(b.entries));
    assert(enc_datas(b.entries) =~= enc_datas(b.entries) + Seq::<u8>::empty());
    lemma_dec_enc_datas(b.entries, Seq::<u8>::empty());
}

// ---------------------------------------------------------------------------
// Executable encoder
// ---------------------------------------------------------------------------

fn push_u64(out: &mut Vec<u8>, x: u64)
    ensures
        final(out)@ == old(out)@ + spec_u64_to_le_bytes(x),
{
    let mut b = u64_to_le_bytes(x);
    out.append(&mut b);
}

fn push_slice(out: &mut Vec<u8>, b: &[u8])
    ensures
        final(out)@ == old(out)@ + b@,
{
    let mut v = slice_to_vec(b);
    out.append(&mut v);
}

fn push_bytes(out: &mut Vec<u8>, b: &Vec<u8>)
    ensures
        final(out)@ == old(out)@ + enc_bytes(b@),
{
    push_u64(out, b.len() as u64);
    push_slice(out, b.as_slice());
    proof {
        assert(out@ =~= old(out)@ + enc_bytes(b@));
    }
}

fn push_string(out: &mut Vec<u8>, s: &String)
    ensures
        final(out)@ == old(out)@ + enc_string(s@),
{
    let bs = s.as_str().as_bytes();
    push_u64(out, bs.len() as u64);
    push_slice(out, bs);
    proof {
        assert(out@ =~= old(out)@ + enc_string(s@));
    }
}

fn push_kind(out: &mut Vec<u8>, k: &PatchKind)
    ensures
        final(out)@ == old(out)@ + enc_kind(*k),
{
    match k {
        PatchKind::Unchanged => {
            out.push(0u8);
            proof {
                assert(out@ =~= old(out)@ + enc_kind(*k));
            }
        },
        PatchKind::Patched { idx } => {
            out.push(1u8);
            push_u64(out, *idx as u64);
            proof {
                assert(out@ =~= old(out)@ + enc_kind(*k));
            }
        },
        PatchKind::Added { idx } => {
            out.push(2u8);
            push_u64(out, *idx as u64);
            proof {
                assert(out@ =~= old(out)@ + enc_kind(*k));
            }
        },
        PatchKind::Deleted => {
            out.push(3u8);
            proof {
                assert(out@ =~= old(out)@ + enc_kind(*k));
            }
        },
    }
}

fn push_entry(out: &mut Vec<u8>, e: &FileEntry)
    ensures
        final(out)@ == old(out)@ + enc_entry(e@),
{
    push_string(out, &e.path);
    push_kind(out, &e.kind);
    push_slice(out, e.original_hash.as_slice());
    push_slice(out, e.new_hash.as_slice());
    proof {
        assert(out@ =~= old(out)@ + enc_entry(e@));
    }
}

fn push_data(out: &mut Vec<u8>, d: &PatchData)
    ensures
        final(out)@ == old(out)@ + enc_data(d@),
{
    match d {
        PatchData::Xdelta(b) => {
            out.push(0u8);
            push_bytes(out, b);
            proof {
                assert(out@ =~= old(out)@ + enc_data(d@));
            }
        },
        PatchData::Full(b) => {
            out.push(1u8);
            push_bytes(out, b);
            proof {
                assert(out@ =~= old(out)@ + enc_data(d@));
            }
        },
    }
}

proof fn lemma_enc_entries_push(es: Seq<FileEntryV>, e: FileEntryV)
    ensures
        enc_entries(es.push(e)) == enc_entries(es) + enc_entry(e),
    decreases es.len(),
{
    if es.len() == 0 {
        assert(es.push(e)[0] == e);
        assert(es.push(e).drop_first() =~= Seq::<FileEntryV>::empty());
        assert(enc_entries(Seq::<FileEntryV>::empty()) =~= Seq::<u8>::empty());
        assert(enc_entries(es.push(e)) =~= enc_entries(es) + enc_entry(e));
    } else {
        assert(es.push(e).drop_first() =~= es.drop_first().push(e));
        lemma_enc_entries_push(es.drop_first(), e);
        assert(es.push(e)[0] == es[0]);
        assert(enc_entries(es.push(e)) == enc_entry(es[0]) + enc_entries(es.drop_first().push(e)));
        assert(enc_entries(es) == enc_entry(es[0]) + enc_entries(es.drop_first()));
        assert(enc_entries(es.push(e)) =~= enc_entries(es) + enc_entry(e));
    }
}

proof fn lemma_enc_datas_push(ds: Seq<PatchDataV>, d: PatchDataV)
    ensures
        enc_datas(ds.push(d)) == enc_datas(ds) + enc_data(d),
    decreases ds.len(),
{
    if ds.len() == 0 {
        assert(ds.push(d)[0] == d);
        assert(ds.push(d).drop_first() =~= Seq::<PatchDataV>::empty());
        assert(enc_datas(Seq::<PatchDataV>::empty()) =~= Seq::<u8>::empty());
        assert(enc_datas(ds.push(d)) =~= enc_datas(ds) + enc_data(d));
    } else {
        assert(ds.push(d).drop_first() =~= ds.drop_first().push(d));
        lemma_enc_datas_push(ds.drop_first(), d);
        assert(ds.push(d)[0] == ds[0]);
        assert(enc_datas(ds.push(d)) == enc_data(ds[0]) + enc_datas(ds.drop_first().push(d)));
        assert(enc_datas(ds) == enc_data(ds[0]) + enc_datas(ds.drop_first()));
        assert(enc_datas(ds.push(d)) =~= enc_datas(ds) + enc_data(d));
    }
}

/// Serializes a bundle to its deterministic byte image.
#[verifier::loop_isolation(false)]
pub fn encode_bundle(b: &PatchBundle) -> (r: Vec<u8>)
    ensures
        r@ == spec_encode_bundle(b@),
{
    let mut out: Vec<u8> = Vec::new();
    push_string(&mut out, &b.manifest.product);
    push_string(&mut out, &b.manifest.from_version);
    push_string(&mut out, &b.manifest.to_version);
    push_u64(&mut out, b.manifest.files.len() as u64);
    let ghost header = out@;
    let n = b.manifest.files.len();
    let mut i: usize = 0;
    proof {
        assert(b@.manifest.files.take(0) =~= Seq::<FileEntryV>::empty());
        assert(out@ =~= header + enc_entries(b@.manifest.files.take(0)));
    }
    while i < n
        invariant
            0 <= i <= n,
            out@ == header + enc_entries(b@.manifest.files.take(i as int)),
        decreases n - i,
    {
        proof {
            assert(b@.manifest.files.take(i + 1 as int) =~= b@.manifest.files.take(
                i as int,
            ).push(b@.manifest.files[i as int]));
            lemma_enc_entries_push(b@.manifest.files.take(i as int), b@.manifest.files[i as int]);
            assert(b@.manifest.files[i as int] == b.manifest.files@[i as int]@);
        }
        push_entry(&mut out, &b.manifest.files[i]);
        proof {
            assert(out@ =~= header + enc_entries(b@.manifest.files.take(i + 1 as int)));
        }
        i += 1;
    }
    proof {
        assert(b@.manifest.files.take(n as int) =~= b@.manifest.files);
        assert(out@ =~= enc_manifest(b@.manifest));
    }
    push_u64(&mut out, b.entries.len() as u64);
    let ghost header2 = out@;
    let m = b.entries.len();
    let mut j: usize = 0;
    proof {
        assert(b@.entries.take(0) =~= Seq::<PatchDataV>::empty());
        assert(out@ =~= header2 + enc_datas(b@.entries.take(0)));
    }
    while j < m
        invariant
            0 <= j <= m,
            out@ == header2 + enc_datas(b@.entries.take(j as int)),
        decreases m - j,
    {
        proof {
            assert(b@.entries.take(j + 1 as int) =~= b@.entries.take(j as int).push(
                b@.entries[j as int],
            ));
            lemma_enc_datas_push(b@.entries.take(j as int), b@.entries[j as int]);
            assert(b@.entries[j as int] == b.entries@[j as int]@);
        }
        push_data(&mut out, &b.entries[j]);
        proof {
            assert(out@ =~= header2 + enc_datas(b@.entries.take(j + 1 as int)));
        }
        j += 1;
    }
    proof {
        assert(b@.entries.take(m as int) =~= b@.entries);
        assert(out@ =~= spec_encode_bundle(b@));
    }
    out
}

// ---------------------------------------------------------------------------
// Executable decoder
// ---------------------------------------------------------------------------

/// Relies on String::from_utf8: it accepts exactly valid UTF-8 and returns
/// the string of those bytes.
#[verifier::external_body]
fn bytes_to_string(v: Vec<u8>) -> (r: Option<String>)
    ensures
        r matches Some(s) ==> valid_utf8(v@) && s@ == decode_utf8(v@),
        r is None ==> !valid_utf8(v@),
{
    match String::from_utf8(v) {
        Ok(s) => Some(s),
        Err(_) => None,
    }
}

fn read_u64(bytes: &Vec<u8>, pos: usize) -> (r: Option<(u64, usize)>)
    requires
        pos <= bytes@.len(),
    ensures
        r matches Some(xp) ==> pos <= xp.1 <= bytes@.len() && dec_u64(bytes@.skip(pos as int))
            == Some((xp.0, bytes@.skip(xp.1 as int))),
        r is None ==> dec_u64(bytes@.skip(pos as int)) is None,
{
    if bytes.len() - pos < 8 {
        return None;
    }
    let x = u64_from_le_bytes(slice_subrange(bytes.as_slice(), pos, pos + 8));
    proof {
        assert(bytes@.subrange(pos as int, pos + 8) =~= bytes@.skip(pos as int).take(8));
        assert(bytes@.skip(pos + 8) =~= bytes@.skip(pos as int).skip(8));
    }
    Some((x, pos + 8))
}

fn read_bytes(bytes: &Vec<u8>, pos: usize) -> (r: Option<(Vec<u8>, usize)>)
    requires
        pos <= bytes@.len(),
    ensures
        r matches Some(vp) ==> pos <= vp.1 <= bytes@.len() && dec_bytes(bytes@.skip(pos as int))
            == Some((vp.0@, bytes@.skip(vp.1 as int))),
        r is None ==> dec_bytes(bytes@.skip(pos as int)) is None,
{
    match read_u64(bytes, pos) {
        None => None,
        Some((n, p1)) => {
            if n > (bytes.len() - p1) as u64 {
                return None;
            }
            let n_us = n as usize;
            let v = slice_to_vec(slice_subrange(bytes.as_slice(), p1, p1 + n_us));
            proof {
                assert(bytes@.subrange(p1 as int, p1 + n_us) =~= bytes@.skip(p1 as int).take(
                    n as int,
                ));
                assert(bytes@.skip(p1 + n_us) =~= bytes@.skip(p1 as int).skip(n as int));
            }
            Some((v, p1 + n_us))
        },
    }
}

fn read_string(bytes: &Vec<u8>, pos: usize) -> (r: Option<(String, usize)>)
    requires
        pos <= bytes@.len(),
    ensures
        r matches Some(sp) ==> pos <= sp.1 <= bytes@.len() && dec_string(bytes@.skip(pos as int))
            == Some((sp.0@, bytes@.skip(sp.1 as int))),
        r is None ==> dec_string(bytes@.skip(pos as int)) is None,
{
    match read_bytes(bytes, pos) {
        None => None,
        Some((v, p1)) => {
            match bytes_to_string(v) {
                None => None,
                Some(s) => Some((s, p1)),
            }
        },
    }
}

#[verifier::loop_isolation(false)]
fn read_hash(bytes: &Vec<u8>, pos: usize) -> (r: Option<([u8; 32], usize)>)
    requires
        pos <= bytes@.len(),
    ensures
        r matches Some(hp) ==> pos <= hp.1 <= bytes@.len() && dec_hash(bytes@.skip(pos as int))
            == Some((hp.0@, bytes@.skip(hp.1 as int))),
        r is None ==> dec_hash(bytes@.skip(pos as int)) is None,
{
    if bytes.len() - pos < 32 {
        return None;
    }
    let mut h: [u8; 32] = [0u8; 32];
    let mut i: usize = 0;
    while i < 32
        invariant
            0 <= i <= 32,
            pos + 32 <= bytes@.len(),
            forall|k: int| 0 <= k < i ==> h@[k] == bytes@[pos + k],
        decreases 32 - i,
    {
        h.set(i, bytes[pos + i]);
        i += 1;
    }
    proof {
        assert(h@ =~= bytes@.skip(pos as int).take(32));
        assert(bytes@.skip(pos + 32) =~= bytes@.skip(pos as int).skip(32));
    }
    Some((h, pos + 32))
}

fn read_kind(bytes: &Vec<u8>, pos: usize) -> (r: Option<(PatchKind, usize)>)
    requires
        pos <= bytes@.len(),
    ensures
        r matches Some(kp) ==> pos <= kp.1 <= bytes@.len() && dec_kind(bytes@.skip(pos as int))
            == Some((kp.0, bytes@.skip(kp.1 as int))),
        r is None ==> dec_kind(bytes@.skip(pos as int)) is None,
{
    if bytes.len() - pos < 1 {
        return None;
    }
    let tag = bytes[pos];
    proof {
        assert(bytes@.skip(pos as int)[0] == tag);
        assert(bytes@.skip(pos + 1) =~= bytes@.skip(pos as int).skip(1));
    }
    if tag == 0 {
        Some((PatchKind::Unchanged, pos + 1))
    } else if tag == 3 {
        Some((PatchKind::Deleted, pos + 1))
    } else if tag == 1 || tag == 2 {
        match read_u64(bytes, pos + 1) {
            None => None,
            Some((x, p2)) => {
                if x > usize::MAX as u64 {
                    return None;
                }
                let idx = x as usize;
                if tag == 1 {
                    Some((PatchKind::Patched { idx }, p2))
                } else {
                    Some((PatchKind::Added { idx }, p2))
                }
            },
        }
    } else {
        None
    }
}

fn read_entry(bytes: &Vec<u8>, pos: usize) -> (r: Option<(FileEntry, usize)>)
    requires
        pos <= bytes@.len(),
    ensures
        r matches Some(ep) ==> pos <= ep.1 <= bytes@.len() && dec_entry(bytes@.skip(pos as int))
            == Some((ep.0@, bytes@.skip(ep.1 as int))),
        r is None ==> dec_entry(bytes@.skip(pos as int)) is None,
{
    match read_string(bytes, pos) {
        None => None,
        Some((path, p1)) => match read_kind(bytes, p1) {
            None => None,
            Some((kind, p2)) => match read_hash(bytes, p2) {
                None => None,
                Some((oh, p3)) => match read_hash(bytes, p3) {
                    None => None,
                    Some((nh, p4)) => Some(
                        (FileEntry { path, kind, original_hash: oh, new_hash: nh }, p4),
                    ),
                },
            },
        },
    }
}

fn read_data(bytes: &Vec<u8>, pos: usize) -> (r: Option<(PatchData, usize)>)
    requires
        pos <= bytes@.len(),
    ensures
        r matches Some(dp) ==> pos <= dp.1 <= bytes@.len() && dec_data(bytes@.skip(pos as int))
            == Some((dp.0@, bytes@.skip(dp.1 as int))),
        r is None ==> dec_data(bytes@.skip(pos as int)) is None,
{
    if bytes.len() - pos < 1 {
        return None;
    }
    let tag = bytes[pos];
    proof {
        assert(bytes@.skip(pos as int)[0] == tag);
        assert(bytes@.skip(pos + 1) =~= bytes@.skip(pos as int).skip(1));
    }
    if tag > 1 {
        return None;
    }
    match read_bytes(bytes, pos + 1) {
        None => None,
        Some((v, p2)) => {
            if tag == 0 {
                Some((PatchData::Xdelta(v), p2))
            } else {
                Some((PatchData::Full(v), p2))
            }
        },
    }
}

/// Deserializes a byte image produced by [`encode_bundle`]. Fails with
/// `InvalidBundle` on anything else: truncated input, an unknown
/// discriminant, trailing bytes, or a bundle that breaks its invariants.
#[verifier::loop_isolation(false)]
#[verifier::rlimit(50)]
pub fn decode_bundle(bytes: &Vec<u8>) -> (r: Result<PatchBundle, PatchError>)
    ensures
        r matches Ok(b) ==> spec_decode_bundle(bytes@) == Some(b@),
        r matches Err(e) ==> e@ == PatchErrorV::InvalidBundle && spec_decode_bundle(
            bytes@,
        ) is None,
{
    let ghost start = bytes@.skip(0);
    proof {
        assert(start =~= bytes@);
    }
    let product = read_string(bytes, 0);
    let (product, p1) = match product {
        None => {
            return Err(PatchError::InvalidBundle);
        },
        Some(sp) => sp,
    };
    let (from_version, p2) = match read_string(bytes, p1) {
        None => {
            return Err(PatchError::InvalidBundle);
        },
        Some(sp) => sp,
    };
    let (to_version, p3) = match read_string(bytes, p2) {
        None => {
            return Err(PatchError::InvalidBundle);
        },
        Some(sp) => sp,
    };
    let (n_files, p4) = match read_u64(bytes, p3) {
        None => {
            return Err(PatchError::InvalidBundle);
        },
        Some(xp) => xp,
    };
    if n_files > usize::MAX as u64 {
        return Err(PatchError::InvalidBundle);
    }
    let n_files_us = n_files as usize;
    let mut files: Vec<FileEntry> = Vec::new();
    let mut pos: usize = p4;
    let mut i: usize = 0;
    while i < n_files_us
        invariant
            0 <= i <= n_files_us,
            pos <= bytes@.len(),
            files.deep_view().len() == i,
            (match dec_entries(bytes@.skip(pos as int), (n_files_us - i) as nat) {
                Some(tail) => dec_entries(bytes@.skip(p4 as int), n_files_us as nat) == Some(
                    (files.deep_view() + tail.0, tail.1),
                ),
                None => dec_entries(bytes@.skip(p4 as int), n_files_us as nat) is None,
            }),
        decreases n_files_us - i,
    {
        match read_entry(bytes, pos) {
            None => {
                return Err(PatchError::InvalidBundle);
            },
            Some((e, p_next)) => {
                files.push(e);
                proof {
                    assert(files.deep_view() =~= files.deep_view().take(
                        files.deep_view().len() - 1,
                    ).push(e@));
                }
                pos = p_next;
            },
        }
        i += 1;
    }
    proof {
        assert(dec_entries(bytes@.skip(pos as int), 0nat) == Some(
            (Seq::<FileEntryV>::empty(), bytes@.skip(pos as int)),
        ));
        assert(files.deep_view() + Seq::<FileEntryV>::empty() =~= files.deep_view());
    }
    let (n_datas, p5) = match read_u64(bytes, pos) {
        None => {
            return Err(PatchError::InvalidBundle);
        },
        Some(xp) => xp,
    };
    if n_datas > usize::MAX as u64 {
        return Err(PatchError::InvalidBundle);
    }
    let n_datas_us = n_datas as usize;
    let mut entries: Vec<PatchData> = Vec::new();
    let mut pos2: usize = p5;
    let mut j: usize = 0;
    while j < n_datas_us
        invariant
            0 <= j <= n_datas_us,
            pos2 <= bytes@.len(),
            entries.deep_view().len() == j,
            (match dec_datas(bytes@.skip(pos2 as int), (n_datas_us - j) as nat) {
                Some(tail) => dec_datas(bytes@.skip(p5 as int), n_datas_us as nat) == Some(
                    (entries.deep_view() + tail.0, tail.1),
                ),
                None => dec_datas(bytes@.skip(p5 as int), n_datas_us as nat) is None,
            }),
        decreases n_datas_us - j,
    {
        match read_data(bytes, pos2) {
            None => {
                return Err(PatchError::InvalidBundle);
            },
            Some((d, p_next)) => {
                entries.push(d);
                proof {
                    assert(entries.deep_view() =~= entries.deep_view().take(
                        entries.deep_view().len() - 1,
                    ).push(d@));
                }
                pos2 = p_next;
            },
        }
        j += 1;
    }
    proof {
        assert(dec_datas(bytes@.skip(pos2 as int), 0nat) == Some(
            (Seq::<PatchDataV>::empty(), bytes@.skip(pos2 as int)),
        ));
        assert(entries.deep_view() + Seq::<PatchDataV>::empty() =~= entries.deep_view());
    }
    if pos2 != bytes.len() {
        proof {
            assert(bytes@.skip(pos2 as int).len() > 0);
        }
        return Err(PatchError::InvalidBundle);
    }
    let manifest = Manifest { product, from_version, to_version, files };
    let bundle = PatchBundle { manifest, entries };
    if !bundle.is_wf() {
        return Err(PatchError::InvalidBundle);
    }
    proof {
        assert(bytes@.skip(pos2 as int).len() == 0);
        assert(spec_decode_bundle(bytes@) == Some(bundle@));
    }
    Ok(bundle)
}

} // verus!
