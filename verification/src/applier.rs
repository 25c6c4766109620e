//! The applier: check every recorded pre-image digest against the tree at
//! hand, then carry out each entry's change. Planning one entry is a pure
//! decision from the entry, the payloads, and the current contents of its
//! target; applying a bundle folds those decisions over a whole tree.

use vstd::prelude::*;
use vstd::slice::slice_to_vec;

use crate::delta::delta_apply;
use crate::delta::spec_delta_apply;
use crate::hashing::hash_bytes;
use crate::hashing::hash_of;
use crate::tree::contains_path;
use crate::tree::lemma_lookup_at_index;
use crate::tree::lookup_contents;
use crate::tree::tree_wf;
use crate::tree::Tree;
use crate::tree::TreeFile;
use crate::tree::TreeFileV;
use crate::types::entry_paths_unique;
use crate::types::is_zero_hash;
use crate::types::FileEntry;
use crate::types::FileEntryV;
use crate::types::PatchBundle;
use crate::types::PatchBundleV;
use crate::types::PatchData;
use crate::types::PatchDataV;
use crate::types::PatchError;
use crate::types::PatchErrorV;
use crate::types::PatchKind;

verus! {

impl View for PatchError {
    type V = PatchErrorV;

    open spec fn view(&self) -> PatchErrorV {
        match self {
            PatchError::InvalidBundle => PatchErrorV::InvalidBundle,
            PatchError::PreconditionMissing { path } => PatchErrorV::PreconditionMissing {
                path: path@,
            },
            PatchError::PreconditionMismatch { path } => PatchErrorV::PreconditionMismatch {
                path: path@,
            },
            PatchError::CodecFailure { path } => PatchErrorV::CodecFailure { path: path@ },
        }
    }
}

/// What the applier does to one target file.
#[derive(Debug)]
pub enum FileAction {
    /// Leave the target alone.
    Noop,
    /// Remove the target.
    Delete,
    /// Replace (or create) the target with these contents.
    Write(Vec<u8>),
}

pub ghost enum ActionV {
    Noop,
    Delete,
    Write(Seq<u8>),
}

impl View for FileAction {
    type V = ActionV;

    open spec fn view(&self) -> ActionV {
        match self {
            FileAction::Noop => ActionV::Noop,
            FileAction::Delete => ActionV::Delete,
            FileAction::Write(b) => ActionV::Write(b@),
        }
    }
}

/// Some manifest entry names this path.
pub open spec fn manifest_contains(files: Seq<FileEntryV>, p: Seq<char>) -> bool {
    exists|i: int| 0 <= i < files.len() && files[i].path == p
}

/// The index of the manifest entry with path `p`; meaningful under
/// [`entry_paths_unique`] when [`manifest_contains`] holds.
pub open spec fn manifest_index(files: Seq<FileEntryV>, p: Seq<char>) -> int {
    choose|i: int| 0 <= i < files.len() && files[i].path == p
}

/// In a manifest without repeated paths, the entry at any index is the one
/// its path looks up.
pub proof fn lemma_entry_at_index(files: Seq<FileEntryV>, i: int)
    requires
        entry_paths_unique(files),
        0 <= i < files.len(),
    ensures
        manifest_contains(files, files[i].path),
        manifest_index(files, files[i].path) == i,
{
    assert(manifest_contains(files, files[i].path));
    let j = manifest_index(files, files[i].path);
    if j != i {
        if j < i {
            assert(files[j].path != files[i].path);
        } else {
            assert(files[i].path != files[j].path);
        }
    }
}

/// What one entry asks of its target, given the target's current contents.
pub open spec fn spec_plan(
    e: FileEntryV,
    entries: Seq<PatchDataV>,
    cur: Option<Seq<u8>>,
) -> Result<ActionV, PatchErrorV> {
    match e.kind {
        PatchKind::Unchanged => Ok(ActionV::Noop),
        PatchKind::Deleted => if cur is Some {
            Ok(ActionV::Delete)
        } else {
            Ok(ActionV::Noop)
        },
        PatchKind::Added { idx } => {
            if idx < entries.len() && entries[idx as int] is Full {
                Ok(ActionV::Write(entries[idx as int].payload()))
            } else {
                Err(PatchErrorV::InvalidBundle)
            }
        },
        PatchKind::Patched { idx } => {
            if !(idx < entries.len() && entries[idx as int] is Xdelta) {
                Err(PatchErrorV::InvalidBundle)
            } else {
                match cur {
                    None => Err(PatchErrorV::PreconditionMissing { path: e.path }),
                    Some(oc) => match spec_delta_apply(entries[idx as int].payload(), oc) {
                        Some(nb) => Ok(ActionV::Write(nb)),
                        None => Err(PatchErrorV::CodecFailure { path: e.path }),
                    },
                }
            }
        },
    }
}

pub open spec fn opt_bytes(cur: Option<&Vec<u8>>) -> Option<Seq<u8>> {
    match cur {
        Some(v) => Some(v@),
        None => None,
    }
}

/// Decides what one entry does to its target. `cur` is the target's current
/// contents, or `None` when the target is absent.
pub fn plan_entry(e: &FileEntry, entries: &Vec<PatchData>, cur: Option<&Vec<u8>>) -> (r: Result<
    FileAction,
    PatchError,
>)
    ensures
        r matches Ok(a) ==> spec_plan(e@, entries.deep_view(), opt_bytes(cur)) == Ok::<
            ActionV,
            PatchErrorV,
        >(a@),
        r matches Err(err) ==> spec_plan(e@, entries.deep_view(), opt_bytes(cur)) == Err::<
            ActionV,
            PatchErrorV,
        >(err@),
{
    match e.kind {
        PatchKind::Unchanged => Ok(FileAction::Noop),
        PatchKind::Deleted => {
            match cur {
                Some(_) => Ok(FileAction::Delete),
                None => Ok(FileAction::Noop),
            }
        },
        PatchKind::Added { idx } => {
            if idx < entries.len() {
                match &entries[idx] {
                    PatchData::Full(b) => {
                        proof {
                            assert(entries.deep_view()[idx as int] == entries@[idx as int]@);
                        }
                        Ok(FileAction::Write(slice_to_vec(b.as_slice())))
                    },
                    _ => {
                        proof {
                            assert(entries.deep_view()[idx as int] == entries@[idx as int]@);
                        }
                        Err(PatchError::InvalidBundle)
                    },
                }
            } else {
                Err(PatchError::InvalidBundle)
            }
        },
        PatchKind::Patched { idx } => {
            if idx < entries.len() {
                match &entries[idx] {
                    PatchData::Xdelta(d) => {
                        proof {
                            assert(entries.deep_view()[idx as int] == entries@[idx as int]@);
                        }
                        match cur {
                            None => Err(
                                PatchError::PreconditionMissing { path: e.path.clone() },
                            ),
                            Some(oc) => {
                                match delta_apply(d, oc) {
                                    Some(nb) => Ok(FileAction::Write(nb)),
                                    None => Err(
                                        PatchError::CodecFailure { path: e.path.clone() },
                                    ),
                                }
                            },
                        }
                    },
                    _ => {
                        proof {
                            assert(entries.deep_view()[idx as int] == entries@[idx as int]@);
                        }
                        Err(PatchError::InvalidBundle)
                    },
                }
            } else {
                Err(PatchError::InvalidBundle)
            }
        },
    }
}

// ---------------------------------------------------------------------------
// Verification of pre-images
// ---------------------------------------------------------------------------

/// The precondition check of one entry against the current contents of its
/// target: entries other than `Added` with a recorded pre-image digest demand
/// a present target whose digest matches.
pub open spec fn entry_precondition(e: FileEntryV, cur: Option<Seq<u8>>) -> Option<PatchErrorV> {
    if e.kind is Added || is_zero_hash(e.original_hash) {
        None
    } else {
        match cur {
            None => Some(PatchErrorV::PreconditionMissing { path: e.path }),
            Some(c) => if hash_of(c) != e.original_hash {
                Some(PatchErrorV::PreconditionMismatch { path: e.path })
            } else {
                None
            },
        }
    }
}

/// The current contents of path `p` in tree `t`, if present.
pub open spec fn tree_cur(t: Seq<TreeFileV>, p: Seq<char>) -> Option<Seq<u8>> {
    if contains_path(t, p) {
        Some(lookup_contents(t, p))
    } else {
        None
    }
}

/// The first failing precondition over the manifest entries, in order.
pub open spec fn spec_verify(files: Seq<FileEntryV>, t: Seq<TreeFileV>) -> Option<PatchErrorV>
    decreases files.len(),
{
    if files.len() == 0 {
        None
    } else {
        match spec_verify(files.drop_last(), t) {
            Some(err) => Some(err),
            None => entry_precondition(files.last(), tree_cur(t, files.last().path)),
        }
    }
}

/// A failure on a prefix settles the whole verification.
pub proof fn lemma_verify_prefix_error(files: Seq<FileEntryV>, t: Seq<TreeFileV>, k: int)
    requires
        0 <= k <= files.len(),
        spec_verify(files.take(k), t) is Some,
    ensures
        spec_verify(files, t) == spec_verify(files.take(k), t),
    decreases files.len(),
{
    if k == files.len() {
        assert(files.take(k) =~= files);
    } else {
        assert(files.drop_last().take(k) =~= files.take(k));
        lemma_verify_prefix_error(files.drop_last(), t, k);
    }
}

/// Checks one entry's precondition against its target's current contents.
pub fn verify_entry(e: &FileEntry, cur: Option<&Vec<u8>>) -> (r: Result<(), PatchError>)
    ensures
        r is Ok <==> entry_precondition(e@, opt_bytes(cur)) is None,
        r matches Err(err) ==> entry_precondition(e@, opt_bytes(cur)) == Some(err@),
{
    let needs_check = match e.kind {
        PatchKind::Added { .. } => false,
        _ => !crate::types::hash_is_zero(&e.original_hash),
    };
    if !needs_check {
        return Ok(());
    }
    match cur {
        None => Err(PatchError::PreconditionMissing { path: e.path.clone() }),
        Some(c) => {
            let h = hash_bytes(c);
            if !crate::types::hash_eq(&h, &e.original_hash) {
                Err(PatchError::PreconditionMismatch { path: e.path.clone() })
            } else {
                Ok(())
            }
        },
    }
}

/// Walks the manifest and checks every recorded pre-image digest against the
/// tree. Fails with the first missing or mismatching pre-image, in manifest
/// order, and touches nothing.
#[verifier::loop_isolation(false)]
pub fn verify_base_folder(bundle: &PatchBundle, tree: &Tree) -> (r: Result<(), PatchError>)
    requires
        tree_wf(tree@),
    ensures
        r is Ok <==> spec_verify(bundle@.manifest.files, tree@) is None,
        r matches Err(err) ==> spec_verify(bundle@.manifest.files, tree@) == Some(err@),
{
    let files = &bundle.manifest.files;
    let n = files.len();
    let ghost fv = bundle@.manifest.files;
    let mut i: usize = 0;
    proof {
        assert(fv.take(0) =~= Seq::<FileEntryV>::empty());
    }
    while i < n
        invariant
            0 <= i <= n,
            spec_verify(fv.take(i as int), tree@) is None,
        decreases n - i,
    {
        let ghost prefix1 = fv.take(i + 1 as int);
        proof {
            assert(prefix1.drop_last() =~= fv.take(i as int));
            assert(prefix1.last() == fv[i as int]);
            assert(fv[i as int] == files@[i as int]@);
        }
        let e = &files[i];
        let found = tree.find(&e.path);
        let r = match found {
            Some(ti) => {
                proof {
                    lemma_lookup_at_index(tree@, ti as int);
                    assert(tree_cur(tree@, e.path@) == Some(tree@[ti as int].contents));
                    assert(tree@[ti as int] == tree.files@[ti as int]@);
                }
                verify_entry(e, Some(&tree.files[ti].contents))
            },
            None => {
                proof {
                    assert(tree_cur(tree@, e.path@) is None);
                }
                verify_entry(e, None)
            },
        };
        match r {
            Ok(()) => {},
            Err(err) => {
                proof {
                    assert(spec_verify(prefix1, tree@) == Some(err@));
                    lemma_verify_prefix_error(fv, tree@, i + 1);
                }
                return Err(err);
            },
        }
        i += 1;
    }
    proof {
        assert(fv.take(n as int) =~= fv);
    }
    Ok(())
}

// ---------------------------------------------------------------------------
// Applying a bundle to a tree
// ---------------------------------------------------------------------------

/// First pass: every file already in the tree, transformed by its manifest
/// entry, in tree order. Files without an entry are kept unchanged.
pub open spec fn apply_pass1(
    files: Seq<FileEntryV>,
    entries: Seq<PatchDataV>,
    t: Seq<TreeFileV>,
) -> Result<Seq<TreeFileV>, PatchErrorV>
    decreases t.len(),
{
    if t.len() == 0 {
        Ok(Seq::<TreeFileV>::empty())
    } else {
        match apply_pass1(files, entries, t.drop_last()) {
            Err(e) => Err(e),
            Ok(rest) => {
                let tf = t.last();
                if manifest_contains(files, tf.path) {
                    let e = files[manifest_index(files, tf.path)];
                    match spec_plan(e, entries, Some(tf.contents)) {
                        Err(err) => Err(err),
                        Ok(ActionV::Noop) => Ok(rest.push(tf)),
                        Ok(ActionV::Delete) => Ok(rest),
                        Ok(ActionV::Write(b)) => Ok(
                            rest.push(TreeFileV { path: tf.path, contents: b }),
                        ),
                    }
                } else {
                    Ok(rest.push(tf))
                }
            },
        }
    }
}

/// Second pass: entries whose target is absent from the tree, in manifest
/// order. `Added` entries create their file; `Deleted` and `Unchanged` do
/// nothing; `Patched` fails, its pre-image being gone.
pub open spec fn apply_pass2(
    files: Seq<FileEntryV>,
    entries: Seq<PatchDataV>,
    t: Seq<TreeFileV>,
) -> Result<Seq<TreeFileV>, PatchErrorV>
    decreases files.len(),
{
    if files.len() == 0 {
        Ok(Seq::<TreeFileV>::empty())
    } else {
        match apply_pass2(files.drop_last(), entries, t) {
            Err(e) => Err(e),
            Ok(rest) => {
                let e = files.last();
                if contains_path(t, e.path) {
                    Ok(rest)
                } else {
                    match spec_plan(e, entries, None) {
                        Err(err) => Err(err),
                        Ok(ActionV::Noop) => Ok(rest),
                        Ok(ActionV::Delete) => Ok(rest),
                        Ok(ActionV::Write(b)) => Ok(
                            rest.push(TreeFileV { path: e.path, contents: b }),
                        ),
                    }
                }
            },
        }
    }
}

/// The whole application: transform the files the tree already has, then
/// create the files it lacks.
pub open spec fn spec_apply(b: PatchBundleV, t: Seq<TreeFileV>) -> Result<
    Seq<TreeFileV>,
    PatchErrorV,
> {
    match apply_pass1(b.manifest.files, b.entries, t) {
        Err(e) => Err(e),
        Ok(s1) => match apply_pass2(b.manifest.files, b.entries, t) {
            Err(e) => Err(e),
            Ok(s2) => Ok(s1 + s2),
        },
    }
}

pub proof fn lemma_pass1_prefix_error(
    files: Seq<FileEntryV>,
    entries: Seq<PatchDataV>,
    t: Seq<TreeFileV>,
    k: int,
)
    requires
        0 <= k <= t.len(),
        apply_pass1(files, entries, t.take(k)) is Err,
    ensures
        apply_pass1(files, entries, t) == apply_pass1(files, entries, t.take(k)),
    decreases t.len(),
{
    if k == t.len() {
        assert(t.take(k) =~= t);
    } else {
        assert(t.drop_last().take(k) =~= t.take(k));
        lemma_pass1_prefix_error(files, entries, t.drop_last(), k);
    }
}

pub proof fn lemma_pass2_prefix_error(
    files: Seq<FileEntryV>,
    entries: Seq<PatchDataV>,
    t: Seq<TreeFileV>,
    k: int,
)
    requires
        0 <= k <= files.len(),
        apply_pass2(files.take(k), entries, t) is Err,
    ensures
        apply_pass2(files, entries, t) == apply_pass2(files.take(k), entries, t),
    decreases files.len(),
{
    if k == files.len() {
        assert(files.take(k) =~= files);
    } else {
        assert(files.drop_last().take(k) =~= files.take(k));
        lemma_pass2_prefix_error(files.drop_last(), entries, t, k);
    }
}

/// Applies a bundle to a tree, returning the transformed tree. Entry order
/// does not matter to the outcome: targets are disjoint because entry paths
/// are unique.
#[verifier::loop_isolation(false)]
pub fn apply_bundle(bundle: &PatchBundle, tree: &Tree) -> (r: Result<Tree, PatchError>)
    requires
        tree_wf(tree@),
        entry_paths_unique(bundle@.manifest.files),
    ensures
        r matches Ok(out) ==> spec_apply(bundle@, tree@) == Ok::<Seq<TreeFileV>, PatchErrorV>(
            out@,
        ),
        r matches Err(err) ==> spec_apply(bundle@, tree@) == Err::<Seq<TreeFileV>, PatchErrorV>(
            err@,
        ),
{
    let files = &bundle.manifest.files;
    let ghost fv = bundle@.manifest.files;
    let ghost ev = bundle@.entries;
    let mut out: Vec<TreeFile> = Vec::new();
    let n = tree.files.len();
    let mut i: usize = 0;
    proof {
        assert(tree@.take(0) =~= Seq::<TreeFileV>::empty());
        assert(out.deep_view() =~= Seq::<TreeFileV>::empty());
        assert(apply_pass1(fv, ev, tree@.take(0)) == Ok::<Seq<TreeFileV>, PatchErrorV>(
            Seq::<TreeFileV>::empty(),
        ));
    }
    while i < n
        invariant
            0 <= i <= n,
            apply_pass1(fv, ev, tree@.take(i as int)) == Ok::<Seq<TreeFileV>, PatchErrorV>(
                out.deep_view(),
            ),
        decreases n - i,
    {
        let ghost prefix1 = tree@.take(i + 1 as int);
        proof {
            assert(prefix1.drop_last() =~= tree@.take(i as int));
            assert(prefix1.last() == tree@[i as int]);
            assert(tree@[i as int] == tree.files@[i as int]@);
        }
        let tf = &tree.files[i];
        match find_entry(files, &tf.path) {
            None => {
                out.push(tf.duplicate());
                proof {
                    assert(!manifest_contains(fv, tf.path@));
                    assert(out.deep_view() =~= apply_pass1(fv, ev, prefix1)->Ok_0);
                }
            },
            Some(ei) => {
                proof {
                    lemma_entry_at_index(fv, ei as int);
                    assert(fv[ei as int] == files@[ei as int]@);
                }
                let e = &files[ei];
                match plan_entry(e, &bundle.entries, Some(&tf.contents)) {
                    Err(err) => {
                        proof {
                            assert(apply_pass1(fv, ev, prefix1) == Err::<
                                Seq<TreeFileV>,
                                PatchErrorV,
                            >(err@));
                            lemma_pass1_prefix_error(fv, ev, tree@, i + 1);
                            assert(spec_apply(bundle@, tree@) == Err::<
                                Seq<TreeFileV>,
                                PatchErrorV,
                            >(err@));
                        }
                        return Err(err);
                    },
                    Ok(FileAction::Noop) => {
                        out.push(tf.duplicate());
                        proof {
                            assert(out.deep_view() =~= apply_pass1(fv, ev, prefix1)->Ok_0);
                        }
                    },
                    Ok(FileAction::Delete) => {
                        proof {
                            assert(out.deep_view() =~= apply_pass1(fv, ev, prefix1)->Ok_0);
                        }
                    },
                    Ok(FileAction::Write(b)) => {
                        out.push(TreeFile { path: tf.path.clone(), contents: b });
                        proof {
                            assert(out.deep_view() =~= apply_pass1(fv, ev, prefix1)->Ok_0);
                        }
                    },
                }
            },
        }
        i += 1;
    }
    proof {
        assert(tree@.take(n as int) =~= tree@);
    }
    // Second pass: create the files the tree lacks.
    let m = files.len();
    let ghost s1 = out.deep_view();
    let mut j: usize = 0;
    proof {
        assert(fv.take(0) =~= Seq::<FileEntryV>::empty());
        assert(out.deep_view().take(s1.len() as int) =~= s1);
        assert(out.deep_view().skip(s1.len() as int) =~= Seq::<TreeFileV>::empty());
    }
    while j < m
        invariant
            0 <= j <= m,
            apply_pass1(fv, ev, tree@) == Ok::<Seq<TreeFileV>, PatchErrorV>(s1),
            s1.len() <= out.deep_view().len(),
            out.deep_view().take(s1.len() as int) == s1,
            apply_pass2(fv.take(j as int), ev, tree@) == Ok::<Seq<TreeFileV>, PatchErrorV>(
                out.deep_view().skip(s1.len() as int),
            ),
        decreases m - j,
    {
        let ghost prefix1 = fv.take(j + 1 as int);
        proof {
            assert(prefix1.drop_last() =~= fv.take(j as int));
            assert(prefix1.last() == fv[j as int]);
            assert(fv[j as int] == files@[j as int]@);
        }
        let e = &files[j];
        match tree.find(&e.path) {
            Some(_) => {
                proof {
                    assert(contains_path(tree@, e.path@));
                    assert(apply_pass2(prefix1, ev, tree@) == apply_pass2(
                        fv.take(j as int),
                        ev,
                        tree@,
                    ));
                }
            },
            None => {
                match plan_entry(e, &bundle.entries, None) {
                    Err(err) => {
                        proof {
                            assert(apply_pass2(prefix1, ev, tree@) == Err::<
                                Seq<TreeFileV>,
                                PatchErrorV,
                            >(err@));
                            lemma_pass2_prefix_error(fv, ev, tree@, j + 1);
                            assert(spec_apply(bundle@, tree@) == Err::<
                                Seq<TreeFileV>,
                                PatchErrorV,
                            >(err@));
                        }
                        return Err(err);
                    },
                    Ok(FileAction::Noop) => {},
                    Ok(FileAction::Delete) => {},
                    Ok(FileAction::Write(b)) => {
                        out.push(TreeFile { path: e.path.clone(), contents: b });
                        proof {
                            assert(out.deep_view().take(s1.len() as int) =~= s1);
                            assert(out.deep_view().skip(s1.len() as int) =~= apply_pass2(
                                prefix1,
                                ev,
                                tree@,
                            )->Ok_0);
                        }
                    },
                }
            },
        }
        j += 1;
    }
    proof {
        assert(fv.take(m as int) =~= fv);
        assert(out.deep_view() =~= s1 + out.deep_view().skip(s1.len() as int));
    }
    Ok(Tree { files: out })
}

/// The index of the manifest entry with the given path, if any.
#[verifier::loop_isolation(false)]
pub fn find_entry(files: &Vec<FileEntry>, path: &String) -> (r: Option<usize>)
    ensures
        r matches Some(i) ==> i < files.len() && files.deep_view()[i as int].path == path@,
        r is Some ==> manifest_contains(files.deep_view(), path@),
        r is None ==> !manifest_contains(files.deep_view(), path@),
{
    let n = files.len();
    let mut i: usize = 0;
    while i < n
        invariant
            0 <= i <= n,
            forall|k: int| 0 <= k < i ==> files.deep_view()[k].path != path@,
        decreases n - i,
    {
        if files[i].path == *path {
            proof {
                assert(files.deep_view()[i as int] == files@[i as int]@);
            }
            return Some(i);
        }
        i += 1;
    }
    None
}

} // verus!
