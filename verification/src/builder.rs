//! The builder: classifies every file of the new tree against the old tree,
//! delta-encodes changed files, captures added files whole, optionally lists
//! files to delete, and assembles the bundle.
//!
//! Payload indices are assigned in the enumeration order of the new tree, so
//! the produced bundle is a function of the two trees and the manifest
//! strings alone.

use vstd::prelude::*;
use vstd::slice::slice_to_vec;

use crate::delta::delta_encode;
use crate::delta::spec_delta_encode;
use crate::hashing::hash_bytes;
use crate::hashing::hash_of;
use crate::tree::contains_path;
use crate::tree::lemma_lookup_at_index;
use crate::tree::lookup_contents;
use crate::tree::tree_wf;
use crate::tree::Tree;
use crate::tree::TreeFileV;
use crate::types::bundle_kinds_wf;
use crate::types::entry_paths_unique;
use crate::types::entry_payload_wf;
use crate::types::FileEntry;
use crate::types::FileEntryV;
use crate::types::Manifest;
use crate::types::ManifestV;
use crate::types::PatchBundle;
use crate::types::PatchBundleV;
use crate::types::PatchData;
use crate::types::PatchDataV;
use crate::types::PatchKind;

verus! {

/// The all-zeros digest that marks a file absent from one of the trees.
pub open spec fn spec_zero_hash() -> Seq<u8> {
    Seq::new(32, |i: int| 0u8)
}

/// The entries and payloads derived from the new tree, in its enumeration
/// order, with payload indices assigned serially.
pub open spec fn build_parts(old: Seq<TreeFileV>, new: Seq<TreeFileV>) -> (Seq<FileEntryV>, Seq<
    PatchDataV,
>)
    decreases new.len(),
{
    if new.len() == 0 {
        (Seq::<FileEntryV>::empty(), Seq::<PatchDataV>::empty())
    } else {
        let (fs, es) = build_parts(old, new.drop_last());
        let nf = new.last();
        let nh = hash_of(nf.contents);
        if contains_path(old, nf.path) {
            let oc = lookup_contents(old, nf.path);
            let oh = hash_of(oc);
            if oh == nh {
                (
                    fs.push(
                        FileEntryV {
                            path: nf.path,
                            kind: PatchKind::Unchanged,
                            original_hash: oh,
                            new_hash: nh,
                        },
                    ),
                    es,
                )
            } else {
                (
                    fs.push(
                        FileEntryV {
                            path: nf.path,
                            kind: PatchKind::Patched { idx: es.len() as usize },
                            original_hash: oh,
                            new_hash: nh,
                        },
                    ),
                    es.push(PatchDataV::Xdelta(spec_delta_encode(nf.contents, oc))),
                )
            }
        } else {
            (
                fs.push(
                    FileEntryV {
                        path: nf.path,
                        kind: PatchKind::Added { idx: es.len() as usize },
                        original_hash: spec_zero_hash(),
                        new_hash: nh,
                    },
                ),
                es.push(PatchDataV::Full(nf.contents)),
            )
        }
    }
}

/// `Deleted` entries for the files of the old tree absent from the new tree,
/// in the enumeration order of the old tree.
pub open spec fn deleted_entries(old: Seq<TreeFileV>, new: Seq<TreeFileV>) -> Seq<FileEntryV>
    decreases old.len(),
{
    if old.len() == 0 {
        Seq::<FileEntryV>::empty()
    } else {
        let rest = deleted_entries(old.drop_last(), new);
        let of = old.last();
        if contains_path(new, of.path) {
            rest
        } else {
            rest.push(
                FileEntryV {
                    path: of.path,
                    kind: PatchKind::Deleted,
                    original_hash: hash_of(of.contents),
                    new_hash: spec_zero_hash(),
                },
            )
        }
    }
}

/// The bundle the builder produces from the two trees: a function of its
/// arguments alone, whatever order files were examined in.
pub open spec fn spec_build(
    old: Seq<TreeFileV>,
    new: Seq<TreeFileV>,
    product: Seq<char>,
    from_version: Seq<char>,
    to_version: Seq<char>,
    delete_extra: bool,
) -> PatchBundleV {
    let (fs, es) = build_parts(old, new);
    let files = if delete_extra {
        fs + deleted_entries(old, new)
    } else {
        fs
    };
    PatchBundleV {
        manifest: ManifestV { product, from_version, to_version, files },
        entries: es,
    }
}

/// How one entry derived from new-tree file `nf` relates to the trees: its
/// kind follows the classification, its hashes are the digests of the two
/// contents, and its payload is the delta or the full contents.
pub open spec fn entry_matches_classification(
    old: Seq<TreeFileV>,
    nf: TreeFileV,
    e: FileEntryV,
    es: Seq<PatchDataV>,
) -> bool {
    &&& e.path == nf.path
    &&& e.new_hash == hash_of(nf.contents)
    &&& if contains_path(old, nf.path) {
        let oc = lookup_contents(old, nf.path);
        if hash_of(oc) == hash_of(nf.contents) {
            e.kind == PatchKind::Unchanged && e.original_hash == hash_of(oc)
        } else {
            &&& e.kind matches PatchKind::Patched { idx }
            &&& e.original_hash == hash_of(oc)
            &&& match e.kind {
                PatchKind::Patched { idx } => idx < es.len() && es[idx as int]
                    == PatchDataV::Xdelta(spec_delta_encode(nf.contents, oc)),
                _ => false,
            }
        }
    } else {
        &&& e.original_hash == spec_zero_hash()
        &&& match e.kind {
            PatchKind::Added { idx } => idx < es.len() && es[idx as int] == PatchDataV::Full(
                nf.contents,
            ),
            _ => false,
        }
    }
}

/// The new-tree half of the build: entry `j` classifies new file `j`.
pub proof fn lemma_build_parts(old: Seq<TreeFileV>, new: Seq<TreeFileV>)
    requires
        new.len() <= usize::MAX,
    ensures
        build_parts(old, new).0.len() == new.len(),
        build_parts(old, new).1.len() <= new.len(),
        forall|j: int| 0 <= j < new.len() ==> #[trigger] build_parts(old, new).0[j].path
            == new[j].path,
        forall|j: int| 0 <= j < new.len() ==> entry_matches_classification(
            old,
            new[j],
            #[trigger] build_parts(old, new).0[j],
            build_parts(old, new).1,
        ),
    decreases new.len(),
{
    if new.len() == 0 {
    } else {
        lemma_build_parts(old, new.drop_last());
        let (fs, es) = build_parts(old, new.drop_last());
        let fs1 = build_parts(old, new).0;
        let es1 = build_parts(old, new).1;
        let nf = new.last();
        assert forall|j: int| 0 <= j < new.len() implies entry_matches_classification(
            old,
            new[j],
            #[trigger] fs1[j],
            es1,
        ) by {
            if j < new.len() - 1 {
                assert(new.drop_last()[j] == new[j]);
                assert(entry_matches_classification(old, new[j], fs[j], es));
                assert(fs1[j] == fs[j]);
                match fs[j].kind {
                    PatchKind::Patched { idx } => {
                        assert(es1[idx as int] == es[idx as int]);
                    },
                    PatchKind::Added { idx } => {
                        assert(es1[idx as int] == es[idx as int]);
                    },
                    _ => {},
                }
            } else {
                assert(fs1[j] == fs1.last());
                assert(es.len() <= new.drop_last().len());
                if contains_path(old, nf.path) {
                    let oc = lookup_contents(old, nf.path);
                    if hash_of(oc) != hash_of(nf.contents) {
                        assert(es1[es.len() as int] == PatchDataV::Xdelta(
                            spec_delta_encode(nf.contents, oc),
                        ));
                    }
                } else {
                    assert(es1[es.len() as int] == PatchDataV::Full(nf.contents));
                }
            }
        }
    }
}

/// The deleted half of the build: every deleted entry names an old-tree file
/// that the new tree lacks, and no path repeats.
pub proof fn lemma_deleted_entries(old: Seq<TreeFileV>, new: Seq<TreeFileV>)
    requires
        tree_wf(old),
    ensures
        forall|k: int| 0 <= k < deleted_entries(old, new).len() ==> {
            let e = #[trigger] deleted_entries(old, new)[k];
            &&& e.kind == PatchKind::Deleted
            &&& contains_path(old, e.path)
            &&& !contains_path(new, e.path)
            &&& e.original_hash == hash_of(lookup_contents(old, e.path))
            &&& e.new_hash == spec_zero_hash()
        },
        entry_paths_unique(deleted_entries(old, new)),
        forall|i: int| 0 <= i < old.len() && !contains_path(new, #[trigger] old[i].path)
            ==> exists|k: int| 0 <= k < deleted_entries(old, new).len() && deleted_entries(
            old,
            new,
        )[k].path == old[i].path,
    decreases old.len(),
{
    if old.len() == 0 {
    } else {
        let prefix = old.drop_last();
        assert(tree_wf(prefix));
        lemma_deleted_entries(prefix, new);
        let rest = deleted_entries(prefix, new);
        let of = old.last();
        // A path found in the prefix keeps its index and contents in the
        // whole tree, and never equals the last file's path.
        assert forall|k: int| 0 <= k < rest.len() implies {
            let e = #[trigger] rest[k];
            &&& contains_path(old, e.path)
            &&& e.path != of.path
            &&& lookup_contents(old, e.path) == lookup_contents(prefix, e.path)
        } by {
            let e = rest[k];
            let i = crate::tree::path_index(prefix, e.path);
            assert(0 <= i < prefix.len() && prefix[i].path == e.path);
            assert(old[i] == prefix[i]);
            lemma_lookup_at_index(old, i);
        }
        if !contains_path(new, of.path) {
            lemma_lookup_at_index(old, old.len() - 1);
        }
        let ds = deleted_entries(old, new);
        assert forall|i: int| 0 <= i < old.len() && !contains_path(
            new,
            #[trigger] old[i].path,
        ) implies exists|k: int| 0 <= k < ds.len() && ds[k].path == old[i].path by {
            if i < old.len() - 1 {
                assert(prefix[i].path == old[i].path);
                let k = choose|k: int| 0 <= k < rest.len() && rest[k].path == prefix[i].path;
                assert(ds[k].path == old[i].path);
            } else {
                assert(ds[ds.len() - 1].path == old[i].path);
            }
        }
    }
}

/// Every bundle the builder produces satisfies the structural invariant:
/// payload indices in bounds, payload variants matching the entry kinds, and
/// no repeated path.
pub proof fn lemma_spec_build_kinds_wf(
    old: Seq<TreeFileV>,
    new: Seq<TreeFileV>,
    product: Seq<char>,
    from_version: Seq<char>,
    to_version: Seq<char>,
    delete_extra: bool,
)
    requires
        tree_wf(old),
        tree_wf(new),
        new.len() <= usize::MAX,
    ensures
        bundle_kinds_wf(spec_build(old, new, product, from_version, to_version, delete_extra)),
{
    let b = spec_build(old, new, product, from_version, to_version, delete_extra);
    let (fs, es) = build_parts(old, new);
    let ds = deleted_entries(old, new);
    lemma_build_parts(old, new);
    lemma_deleted_entries(old, new);
    assert forall|i: int| 0 <= i < b.manifest.files.len() implies entry_payload_wf(
        #[trigger] b.manifest.files[i],
        b.entries,
    ) by {
        if i < fs.len() {
            assert(entry_matches_classification(old, new[i], fs[i], es));
        } else {
            assert(b.manifest.files[i] == ds[i - fs.len()]);
        }
    }
    assert(entry_paths_unique(b.manifest.files)) by {
        assert forall|i: int, j: int| 0 <= i < j < b.manifest.files.len() implies b.manifest.files[
            i
        ].path != b.manifest.files[j].path by {
            let n = fs.len();
            if j < n {
                assert(fs[i].path == new[i].path && fs[j].path == new[j].path);
            } else if i < n {
                assert(fs[i].path == new[i].path);
                assert(contains_path(new, new[i].path));
                assert(b.manifest.files[j] == ds[j - n]);
            } else {
                assert(b.manifest.files[i] == ds[i - n] && b.manifest.files[j] == ds[j - n]);
            }
        }
    }
}

/// The all-zeros digest.
pub fn zero_hash() -> (r: [u8; 32])
    ensures
        r@ == spec_zero_hash(),
{
    let z: [u8; 32] = [0u8; 32];
    proof {
        assert(z@ =~= spec_zero_hash());
    }
    z
}

/// Diffs the new tree against the old tree and assembles the bundle. The
/// result is a function of the arguments alone: classification may be run in
/// any order without changing it.
#[verifier::loop_isolation(false)]
pub fn build_bundle(
    old: &Tree,
    new: &Tree,
    product: &String,
    from_version: &String,
    to_version: &String,
    delete_extra: bool,
) -> (r: PatchBundle)
    requires
        tree_wf(old@),
        tree_wf(new@),
    ensures
        r@ == spec_build(old@, new@, product@, from_version@, to_version@, delete_extra),
        bundle_kinds_wf(r@),
{
    let mut files_vec: Vec<FileEntry> = Vec::new();
    let mut entries_vec: Vec<PatchData> = Vec::new();
    let n = new.files.len();
    let mut i: usize = 0;
    proof {
        assert(new@.take(0) =~= Seq::<TreeFileV>::empty());
    }
    while i < n
        invariant
            0 <= i <= n,
            files_vec.deep_view() == build_parts(old@, new@.take(i as int)).0,
            entries_vec.deep_view() == build_parts(old@, new@.take(i as int)).1,
        decreases n - i,
    {
        let ghost prefix = new@.take(i as int);
        let ghost prefix1 = new@.take(i + 1 as int);
        proof {
            assert(prefix1.drop_last() =~= prefix);
            assert(prefix1.last() == new@[i as int]);
            assert(new@[i as int] == new.files@[i as int]@);
        }
        let nf = &new.files[i];
        let nh = hash_bytes(&nf.contents);
        match old.find(&nf.path) {
            Some(oi) => {
                proof {
                    lemma_lookup_at_index(old@, oi as int);
                }
                let oc = &old.files[oi].contents;
                proof {
                    assert(old@[oi as int] == old.files@[oi as int]@);
                    assert(lookup_contents(old@, nf.path@) == oc@);
                }
                let oh = hash_bytes(oc);
                if crate::types::hash_eq(&oh, &nh) {
                    files_vec.push(
                        FileEntry {
                            path: nf.path.clone(),
                            kind: PatchKind::Unchanged,
                            original_hash: oh,
                            new_hash: nh,
                        },
                    );
                } else {
                    let idx = entries_vec.len();
                    entries_vec.push(PatchData::Xdelta(delta_encode(&nf.contents, oc)));
                    files_vec.push(
                        FileEntry {
                            path: nf.path.clone(),
                            kind: PatchKind::Patched { idx },
                            original_hash: oh,
                            new_hash: nh,
                        },
                    );
                }
            },
            None => {
                let idx = entries_vec.len();
                entries_vec.push(PatchData::Full(slice_to_vec(nf.contents.as_slice())));
                files_vec.push(
                    FileEntry {
                        path: nf.path.clone(),
                        kind: PatchKind::Added { idx },
                        original_hash: zero_hash(),
                        new_hash: nh,
                    },
                );
            },
        }
        proof {
            assert(files_vec.deep_view() =~= build_parts(old@, prefix1).0);
            assert(entries_vec.deep_view() =~= build_parts(old@, prefix1).1);
        }
        i += 1;
    }
    proof {
        assert(new@.take(n as int) =~= new@);
    }
    if delete_extra {
        let m = old.files.len();
        let mut d: usize = 0;
        proof {
            assert(old@.take(0) =~= Seq::<TreeFileV>::empty());
        }
        while d < m
            invariant
                0 <= d <= m,
                files_vec.deep_view() == build_parts(old@, new@).0 + deleted_entries(
                    old@.take(d as int),
                    new@,
                ),
                entries_vec.deep_view() == build_parts(old@, new@).1,
            decreases m - d,
        {
            let ghost prefix = old@.take(d as int);
            let ghost prefix1 = old@.take(d + 1 as int);
            proof {
                assert(prefix1.drop_last() =~= prefix);
                assert(prefix1.last() == old@[d as int]);
                assert(old@[d as int] == old.files@[d as int]@);
            }
            let of = &old.files[d];
            match new.find(&of.path) {
                Some(_) => {
                    proof {
                        assert(contains_path(new@, prefix1.last().path));
                        assert(deleted_entries(prefix1, new@) == deleted_entries(prefix, new@));
                    }
                },
                None => {
                    let oh = hash_bytes(&of.contents);
                    let ghost pre = files_vec.deep_view();
                    let ghost ev = FileEntryV {
                        path: of.path@,
                        kind: PatchKind::Deleted,
                        original_hash: hash_of(of.contents@),
                        new_hash: spec_zero_hash(),
                    };
                    files_vec.push(
                        FileEntry {
                            path: of.path.clone(),
                            kind: PatchKind::Deleted,
                            original_hash: oh,
                            new_hash: zero_hash(),
                        },
                    );
                    proof {
                        assert(!contains_path(new@, prefix1.last().path));
                        assert(deleted_entries(prefix1, new@) == deleted_entries(
                            prefix,
                            new@,
                        ).push(ev));
                        assert(files_vec.deep_view() =~= pre.push(ev));
                        assert(pre.push(ev) =~= build_parts(old@, new@).0 + deleted_entries(
                            prefix1,
                            new@,
                        ));
                    }
                },
            }
            d += 1;
        }
        proof {
            assert(old@.take(m as int) =~= old@);
        }
    }
    let manifest = Manifest {
        product: product.clone(),
        from_version: from_version.clone(),
        to_version: to_version.clone(),
        files: files_vec,
    };
    let r = PatchBundle { manifest, entries: entries_vec };
    proof {
        if !delete_extra {
            assert(r@.manifest.files =~= spec_build(
                old@,
                new@,
                product@,
                from_version@,
                to_version@,
                delete_extra,
            ).manifest.files);
        }
        assert(r@ == spec_build(old@, new@, product@, from_version@, to_version@, delete_extra));
        lemma_spec_build_kinds_wf(old@, new@, product@, from_version@, to_version@, delete_extra);
    }
    r
}

} // verus!
