//! Container framing: a produced patch executable is the applier stub's
//! bytes, the encoded bundle, and an 8-byte little-endian length trailer.
//! The applier locates the bundle from the end of its own image: no magic
//! header, only the trailer.

use vstd::prelude::*;
use vstd::bytes::lemma_auto_spec_u64_to_from_le_bytes;
use vstd::bytes::spec_u64_from_le_bytes;
use vstd::bytes::spec_u64_to_le_bytes;
use vstd::bytes::u64_from_le_bytes;
use vstd::bytes::u64_to_le_bytes;
use vstd::slice::slice_subrange;
use vstd::slice::slice_to_vec;

use crate::codec::decode_bundle;
use crate::codec::encode_bundle;
use crate::codec::spec_decode_bundle;
use crate::codec::spec_encode_bundle;
use crate::types::PatchBundle;
use crate::types::PatchBundleV;
use crate::types::PatchError;
use crate::types::PatchErrorV;

verus! {

/// The byte image of a produced patch executable.
pub open spec fn spec_frame(stub: Seq<u8>, encoded: Seq<u8>) -> Seq<u8> {
    stub + encoded + spec_u64_to_le_bytes(encoded.len() as u64)
}

/// Where the trailer of an image says the encoded bundle lies: the `B` bytes
/// ending 8 before the end, where `B` is the little-endian u64 in the last 8
/// bytes. Nothing when the image is shorter than 8 bytes or `B + 8` exceeds
/// the image.
pub open spec fn spec_locate(image: Seq<u8>) -> Option<Seq<u8>> {
    if image.len() < 8 {
        None
    } else {
        let b = spec_u64_from_le_bytes(image.skip(image.len() - 8)) as int;
        if b + 8 <= image.len() {
            Some(image.subrange(image.len() - 8 - b, image.len() - 8))
        } else {
            None
        }
    }
}

/// The bundle an image holds: located by the trailer, then decoded.
pub open spec fn spec_load(image: Seq<u8>) -> Option<PatchBundleV> {
    match spec_locate(image) {
        None => None,
        Some(enc) => spec_decode_bundle(enc),
    }
}

/// Concatenates stub, encoded bundle, and length trailer.
pub fn frame_bundle(stub: &Vec<u8>, encoded: &Vec<u8>) -> (r: Vec<u8>)
    ensures
        r@ == spec_frame(stub@, encoded@),
{
    let mut out = slice_to_vec(stub.as_slice());
    let mut enc = slice_to_vec(encoded.as_slice());
    out.append(&mut enc);
    let mut tail = u64_to_le_bytes(encoded.len() as u64);
    out.append(&mut tail);
    proof {
        assert(out@ =~= spec_frame(stub@, encoded@));
    }
    out
}

/// The whole image of a patch executable: the prebuilt applier stub followed
/// by the encoded bundle and the length trailer.
pub fn build_installer_image(bundle: &PatchBundle, stub: &Vec<u8>) -> (r: Vec<u8>)
    ensures
        r@ == spec_frame(stub@, spec_encode_bundle(bundle@)),
{
    let encoded = encode_bundle(bundle);
    frame_bundle(stub, &encoded)
}

/// Reads the trailer of an image and returns the encoded bundle bytes it
/// frames. Fails with `InvalidBundle` iff the image is shorter than 8 bytes
/// or the length field reaches past the beginning.
pub fn locate_bundle(image: &Vec<u8>) -> (r: Result<Vec<u8>, PatchError>)
    ensures
        r matches Ok(enc) ==> spec_locate(image@) == Some(enc@),
        r matches Err(e) ==> e@ == PatchErrorV::InvalidBundle && spec_locate(image@) is None,
{
    let n = image.len();
    if n < 8 {
        return Err(PatchError::InvalidBundle);
    }
    let b64 = u64_from_le_bytes(slice_subrange(image.as_slice(), n - 8, n));
    proof {
        assert(image@.subrange(n - 8, n as int) =~= image@.skip(n - 8));
    }
    if b64 > (n - 8) as u64 {
        return Err(PatchError::InvalidBundle);
    }
    let b = b64 as usize;
    let enc = slice_to_vec(slice_subrange(image.as_slice(), n - 8 - b, n - 8));
    Ok(enc)
}

/// Extracts and decodes the bundle an image carries. Fails with
/// `InvalidBundle` iff the trailer is unreadable or the framed bytes are not
/// one whole well-formed encoding.
pub fn load_bundle(image: &Vec<u8>) -> (r: Result<PatchBundle, PatchError>)
    ensures
        r matches Ok(b) ==> spec_load(image@) == Some(b@),
        r matches Err(e) ==> e@ == PatchErrorV::InvalidBundle && spec_load(image@) is None,
{
    match locate_bundle(image) {
        Err(e) => Err(e),
        Ok(enc) => decode_bundle(&enc),
    }
}

/// Framing round trip: the trailer of a framed image locates exactly the
/// encoded bundle, whatever stub precedes it.
pub proof fn lemma_frame_locate(stub: Seq<u8>, encoded: Seq<u8>)
    requires
        encoded.len() <= u64::MAX,
    ensures
        spec_locate(spec_frame(stub, encoded)) == Some(encoded),
{
    lemma_auto_spec_u64_to_from_le_bytes();
    let image = spec_frame(stub, encoded);
    assert(image.skip(image.len() - 8) =~= spec_u64_to_le_bytes(encoded.len() as u64));
    assert(image.subrange(image.len() - 8 - encoded.len(), image.len() - 8) =~= encoded);
}

/// Packing round trip: framing the encoding of a well-formed bundle gives an
/// image that loads back to that bundle.
pub proof fn lemma_container_round_trip(stub: Seq<u8>, b: PatchBundleV)
    requires
        crate::types::bundle_wf(b),
        crate::codec::bundle_size_ok(b),
        spec_encode_bundle(b).len() <= u64::MAX,
    ensures
        spec_load(spec_frame(stub, spec_encode_bundle(b))) == Some(b),
{
    lemma_frame_locate(stub, spec_encode_bundle(b));
    crate::codec::lemma_codec_round_trip(b);
}

/// A corrupted trailer: when the length field reaches past the beginning of
/// the image, loading fails before anything is looked at.
pub proof fn lemma_trailer_out_of_range(image: Seq<u8>)
    requires
        image.len() >= 8,
        spec_u64_from_le_bytes(image.skip(image.len() - 8)) + 8 > image.len(),
    ensures
        spec_locate(image) is None,
        spec_load(image) is None,
{
}

/// An image too short to hold a trailer never loads.
pub proof fn lemma_image_too_short(image: Seq<u8>)
    requires
        image.len() < 8,
    ensures
        spec_load(image) is None,
{
}

} // verus!
