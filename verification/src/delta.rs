//! The delta codec: `delta_encode(new, old)` produces a compact description
//! of `new` relative to `old`, and `delta_apply(delta, old)` reconstructs
//! `new` exactly.
//!
//! A delta stores three little-endian u64 fields — the length of the common
//! prefix, the length of the common suffix, and the length of the literal
//! middle — followed by the middle bytes of the post-image. Applying copies
//! the prefix and suffix out of the pre-image and splices the literal middle
//! between them.

use vstd::prelude::*;
use vstd::bytes::spec_u64_from_le_bytes;
use vstd::bytes::spec_u64_to_le_bytes;
use vstd::bytes::lemma_auto_spec_u64_to_from_le_bytes;
use vstd::bytes::u64_from_le_bytes;
use vstd::bytes::u64_to_le_bytes;
use vstd::slice::slice_subrange;
use vstd::slice::slice_to_vec;

verus! {

/// Length of the longest common prefix of two byte strings.
pub open spec fn common_prefix_len(a: Seq<u8>, b: Seq<u8>) -> nat
    decreases a.len(),
{
    if a.len() == 0 || b.len() == 0 || a[0] != b[0] {
        0
    } else {
        1 + common_prefix_len(a.skip(1), b.skip(1))
    }
}

/// Length of the longest common suffix of two byte strings.
pub open spec fn common_suffix_len(a: Seq<u8>, b: Seq<u8>) -> nat
    decreases a.len(),
{
    if a.len() == 0 || b.len() == 0 || a.last() != b.last() {
        0
    } else {
        1 + common_suffix_len(a.drop_last(), b.drop_last())
    }
}

pub proof fn lemma_common_prefix_len(a: Seq<u8>, b: Seq<u8>)
    ensures
        common_prefix_len(a, b) <= a.len(),
        common_prefix_len(a, b) <= b.len(),
        forall|i: int| 0 <= i < common_prefix_len(a, b) ==> a[i] == b[i],
        common_prefix_len(a, b) < a.len() && common_prefix_len(a, b) < b.len() ==> a[
            common_prefix_len(a, b) as int
        ] != b[common_prefix_len(a, b) as int],
    decreases a.len(),
{
    if a.len() == 0 || b.len() == 0 || a[0] != b[0] {
    } else {
        lemma_common_prefix_len(a.skip(1), b.skip(1));
        let k = common_prefix_len(a.skip(1), b.skip(1));
        assert forall|i: int| 0 <= i < common_prefix_len(a, b) implies a[i] == b[i] by {
            if i > 0 {
                assert(a.skip(1)[i - 1] == b.skip(1)[i - 1]);
            }
        }
        if k < a.len() - 1 && k < b.len() - 1 {
            assert(a.skip(1)[k as int] != b.skip(1)[k as int]);
        }
    }
}

pub proof fn lemma_common_suffix_len(a: Seq<u8>, b: Seq<u8>)
    ensures
        common_suffix_len(a, b) <= a.len(),
        common_suffix_len(a, b) <= b.len(),
        forall|i: int| 0 <= i < common_suffix_len(a, b) ==> #[trigger] a[a.len() - 1 - i] == b[
            b.len() - 1 - i
        ],
        common_suffix_len(a, b) < a.len() && common_suffix_len(a, b) < b.len() ==> a[a.len() - 1
            - common_suffix_len(a, b)] != b[b.len() - 1 - common_suffix_len(a, b)],
    decreases a.len(),
{
    if a.len() == 0 || b.len() == 0 || a.last() != b.last() {
    } else {
        lemma_common_suffix_len(a.drop_last(), b.drop_last());
        let k = common_suffix_len(a.drop_last(), b.drop_last());
        assert forall|i: int| 0 <= i < common_suffix_len(a, b) implies #[trigger] a[a.len() - 1
            - i] == b[b.len() - 1 - i] by {
            if i > 0 {
                assert(a.drop_last()[a.len() - 2 - (i - 1)] == b.drop_last()[b.len() - 2 - (i
                    - 1)]);
            }
        }
        if k < a.len() - 1 && k < b.len() - 1 {
            assert(a.drop_last()[a.len() - 2 - k] != b.drop_last()[b.len() - 2 - k]);
        }
    }
}

/// The delta of `new` against `old`: common prefix length, common suffix
/// length, literal middle length, then the literal middle bytes.
pub open spec fn spec_delta_encode(new: Seq<u8>, old: Seq<u8>) -> Seq<u8> {
    let p = common_prefix_len(new, old) as int;
    let s = common_suffix_len(new.skip(p), old.skip(p)) as int;
    let mid = new.subrange(p, new.len() - s);
    spec_u64_to_le_bytes(p as u64) + spec_u64_to_le_bytes(s as u64) + spec_u64_to_le_bytes(
        mid.len() as u64,
    ) + mid
}

/// Applying a delta to pre-image contents: `None` on any malformed delta or
/// one whose prefix and suffix reach past the pre-image.
pub open spec fn spec_delta_apply(delta: Seq<u8>, old: Seq<u8>) -> Option<Seq<u8>> {
    if delta.len() < 24 {
        None
    } else {
        let p = spec_u64_from_le_bytes(delta.subrange(0, 8)) as int;
        let s = spec_u64_from_le_bytes(delta.subrange(8, 16)) as int;
        let m = spec_u64_from_le_bytes(delta.subrange(16, 24)) as int;
        if delta.len() - 24 == m && p + s <= old.len() {
            Some(old.take(p) + delta.skip(24) + old.skip(old.len() - s))
        } else {
            None
        }
    }
}

/// The delta codec inverts itself: applying `delta_encode(new, old)` to `old`
/// reconstructs `new` exactly.
pub proof fn lemma_delta_round_trip(new: Seq<u8>, old: Seq<u8>)
    requires
        new.len() <= u64::MAX,
        old.len() <= u64::MAX,
    ensures
        spec_delta_apply(spec_delta_encode(new, old), old) == Some(new),
{
    lemma_auto_spec_u64_to_from_le_bytes();
    lemma_common_prefix_len(new, old);
    let p = common_prefix_len(new, old) as int;
    lemma_common_suffix_len(new.skip(p), old.skip(p));
    let s = common_suffix_len(new.skip(p), old.skip(p)) as int;
    let mid = new.subrange(p, new.len() - s);
    let delta = spec_delta_encode(new, old);
    assert(delta =~= spec_u64_to_le_bytes(p as u64) + spec_u64_to_le_bytes(s as u64)
        + spec_u64_to_le_bytes(mid.len() as u64) + mid);
    assert(delta.subrange(0, 8) =~= spec_u64_to_le_bytes(p as u64));
    assert(delta.subrange(8, 16) =~= spec_u64_to_le_bytes(s as u64));
    assert(delta.subrange(16, 24) =~= spec_u64_to_le_bytes(mid.len() as u64));
    assert(delta.skip(24) =~= mid);
    assert(p + s <= old.len());
    let out = old.take(p) + mid + old.skip(old.len() - s);
    assert(out =~= new) by {
        assert forall|i: int| 0 <= i < new.len() implies out[i] == new[i] by {
            if i < p {
                assert(new[i] == old[i]);
            } else if i < new.len() - s {
            } else {
                let j = new.len() - 1 - i;
                assert(new.skip(p)[new.skip(p).len() - 1 - j] == old.skip(p)[old.skip(p).len() - 1
                    - j]);
            }
        }
    }
    assert(spec_delta_apply(delta, old) == Some(new));
}

/// Computes the delta of `new` against `old`.
#[verifier::loop_isolation(false)]
pub fn delta_encode(new: &Vec<u8>, old: &Vec<u8>) -> (r: Vec<u8>)
    ensures
        r@ == spec_delta_encode(new@, old@),
        spec_delta_apply(r@, old@) == Some(new@),
{
    proof {
        lemma_common_prefix_len(new@, old@);
    }
    let max_p = if new.len() < old.len() {
        new.len()
    } else {
        old.len()
    };
    let mut p: usize = 0;
    while p < max_p && new[p] == old[p]
        invariant
            0 <= p <= max_p,
            forall|i: int| 0 <= i < p ==> new@[i] == old@[i],
        decreases max_p - p,
    {
        p += 1;
    }
    proof {
        assert(p == common_prefix_len(new@, old@));
    }
    let max_s = if new.len() - p < old.len() - p {
        new.len() - p
    } else {
        old.len() - p
    };
    proof {
        lemma_common_suffix_len(new@.skip(p as int), old@.skip(p as int));
    }
    let mut s: usize = 0;
    while s < max_s && new[new.len() - 1 - s] == old[old.len() - 1 - s]
        invariant
            0 <= s <= max_s,
            forall|i: int| 0 <= i < s ==> #[trigger] new@[new@.len() - 1 - i] == old@[old@.len() - 1
                - i],
        decreases max_s - s,
    {
        s += 1;
    }
    proof {
        let ns = new@.skip(p as int);
        let os = old@.skip(p as int);
        let k = common_suffix_len(ns, os);
        assert forall|i: int| 0 <= i < s implies #[trigger] ns[ns.len() - 1 - i] == os[os.len() - 1
            - i] by {
            assert(new@[new@.len() - 1 - i] == old@[old@.len() - 1 - i]);
        }
        if s < max_s {
            assert(ns[ns.len() - 1 - s] != os[os.len() - 1 - s]) by {
                assert(new@[new@.len() - 1 - s as int] != old@[old@.len() - 1 - s as int]);
            }
        }
        assert(s == k);
    }
    let mut out = u64_to_le_bytes(p as u64);
    let mut s_bytes = u64_to_le_bytes(s as u64);
    out.append(&mut s_bytes);
    let mid_len = new.len() - s - p;
    let mut m_bytes = u64_to_le_bytes(mid_len as u64);
    out.append(&mut m_bytes);
    let mut mid = slice_to_vec(slice_subrange(new.as_slice(), p, new.len() - s));
    out.append(&mut mid);
    proof {
        assert(out@ =~= spec_delta_encode(new@, old@));
        lemma_delta_round_trip(new@, old@);
    }
    out
}

/// Applies a delta to pre-image contents; `None` iff the delta is malformed
/// or does not fit the pre-image.
#[verifier::loop_isolation(false)]
pub fn delta_apply(delta: &Vec<u8>, old: &Vec<u8>) -> (r: Option<Vec<u8>>)
    ensures
        r matches Some(v) ==> spec_delta_apply(delta@, old@) == Some(v@),
        r is None ==> spec_delta_apply(delta@, old@) is None,
{
    if delta.len() < 24 {
        return None;
    }
    let p64 = u64_from_le_bytes(slice_subrange(delta.as_slice(), 0, 8));
    let s64 = u64_from_le_bytes(slice_subrange(delta.as_slice(), 8, 16));
    let m64 = u64_from_le_bytes(slice_subrange(delta.as_slice(), 16, 24));
    // The literal middle is bounded by the delta itself, and the prefix and
    // suffix by the pre-image, so all three fit in usize once checked.
    let avail = (delta.len() - 24) as u64;
    if m64 != avail {
        return None;
    }
    if p64 > old.len() as u64 || s64 > old.len() as u64 - p64 {
        return None;
    }
    let p = p64 as usize;
    let s = s64 as usize;
    let mut out = slice_to_vec(slice_subrange(old.as_slice(), 0, p));
    let mut mid = slice_to_vec(slice_subrange(delta.as_slice(), 24, delta.len()));
    out.append(&mut mid);
    let mut tail = slice_to_vec(slice_subrange(old.as_slice(), old.len() - s, old.len()));
    out.append(&mut tail);
    proof {
        assert(old@.subrange(0, p as int) =~= old@.take(p as int));
        assert(delta@.subrange(24, delta@.len() as int) =~= delta@.skip(24));
        assert(old@.subrange(old@.len() - s as int, old@.len() as int) =~= old@.skip(old@.len()
            - s as int));
        assert(spec_delta_apply(delta@, old@) == Some(out@));
    }
    Some(out)
}

} // verus!
