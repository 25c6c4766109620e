//! The end-to-end laws of the pipeline: a bundle built from two trees passes
//! verification against the old tree and applies to it, yielding the new
//! tree; and applying a bundle without delta entries twice changes nothing
//! the second time.

use vstd::prelude::*;

use crate::applier::apply_pass1;
use crate::applier::apply_pass2;
use crate::applier::entry_precondition;
use crate::applier::lemma_verify_prefix_error;
use crate::applier::manifest_contains;
use crate::applier::manifest_index;
use crate::applier::lemma_entry_at_index;
use crate::applier::spec_apply;
use crate::applier::spec_plan;
use crate::applier::spec_verify;
use crate::applier::tree_cur;
use crate::applier::ActionV;
use crate::builder::build_parts;
use crate::builder::deleted_entries;
use crate::builder::entry_matches_classification;
use crate::builder::lemma_build_parts;
use crate::builder::lemma_deleted_entries;
use crate::builder::lemma_spec_build_kinds_wf;
use crate::builder::spec_build;
use crate::delta::lemma_delta_round_trip;
use crate::hashing::hash_of;
use crate::tree::contains_path;
use crate::tree::lemma_contains_push;
use crate::tree::lemma_lookup_at_index;
use crate::tree::lemma_tree_concat;
use crate::tree::lemma_tree_unsnoc;
use crate::tree::lookup_contents;
use crate::tree::path_index;
use crate::tree::tree_map;
use crate::tree::tree_wf;
use crate::tree::TreeFileV;
use crate::types::bundle_kinds_wf;
use crate::types::entry_paths_unique;
use crate::types::entry_payload_wf;
use crate::types::is_zero_hash;
use crate::types::FileEntryV;
use crate::types::PatchBundleV;
use crate::types::PatchDataV;
use crate::types::PatchErrorV;
use crate::types::PatchKind;

verus! {

/// Every file small enough for its length to be carried in the delta format.
pub open spec fn tree_sizes_ok(t: Seq<TreeFileV>) -> bool {
    forall|i: int| 0 <= i < t.len() ==> (#[trigger] t[i].contents).len() <= u64::MAX
}

/// The content digest separates the contents at hand: equal digests between
/// the two trees mean equal contents. This is the contract of a
/// cryptographic content digest, assumed for the files under consideration.
pub open spec fn digests_faithful(old: Seq<TreeFileV>, new: Seq<TreeFileV>) -> bool {
    forall|i: int, j: int|
        #![trigger old[i].contents, new[j].contents]
        0 <= i < old.len() && 0 <= j < new.len() && hash_of(old[i].contents) == hash_of(
            new[j].contents,
        ) ==> old[i].contents == new[j].contents
}

/// What the first apply pass makes of the old tree: files also in the new
/// tree take their new contents; files absent from it are dropped when
/// `delete_extra` is set and kept otherwise.
pub open spec fn expected_pass1(old: Seq<TreeFileV>, new: Seq<TreeFileV>, de: bool) -> Seq<
    TreeFileV,
>
    decreases old.len(),
{
    if old.len() == 0 {
        Seq::<TreeFileV>::empty()
    } else {
        let rest = expected_pass1(old.drop_last(), new, de);
        let of = old.last();
        if contains_path(new, of.path) {
            rest.push(TreeFileV { path: of.path, contents: lookup_contents(new, of.path) })
        } else if de {
            rest
        } else {
            rest.push(of)
        }
    }
}

/// What the second apply pass creates: the new-tree files absent from the
/// old tree, in new-tree order.
pub open spec fn added_files(old: Seq<TreeFileV>, new: Seq<TreeFileV>) -> Seq<TreeFileV>
    decreases new.len(),
{
    if new.len() == 0 {
        Seq::<TreeFileV>::empty()
    } else {
        let rest = added_files(old, new.drop_last());
        let nf = new.last();
        if contains_path(old, nf.path) {
            rest
        } else {
            rest.push(nf)
        }
    }
}

pub proof fn lemma_expected_pass1(old: Seq<TreeFileV>, new: Seq<TreeFileV>, de: bool)
    requires
        tree_wf(old),
        tree_wf(new),
    ensures
        tree_wf(expected_pass1(old, new, de)),
        forall|p: Seq<char>|
            #![trigger contains_path(expected_pass1(old, new, de), p)]
            contains_path(expected_pass1(old, new, de), p) <==> (contains_path(old, p) && (
            contains_path(new, p) || !de)),
        forall|p: Seq<char>|
            #![trigger lookup_contents(expected_pass1(old, new, de), p)]
            contains_path(expected_pass1(old, new, de), p) ==> lookup_contents(
                expected_pass1(old, new, de),
                p,
            ) == (if contains_path(new, p) {
                lookup_contents(new, p)
            } else {
                lookup_contents(old, p)
            }),
    decreases old.len(),
{
    let e1 = expected_pass1(old, new, de);
    if old.len() == 0 {
        assert(forall|p: Seq<char>| !contains_path(e1, p) && !contains_path(old, p));
    } else {
        let pre = old.drop_last();
        let of = old.last();
        lemma_tree_unsnoc(old);
        lemma_expected_pass1(pre, new, de);
        let rest = expected_pass1(pre, new, de);
        if contains_path(new, of.path) || !de {
            let x = if contains_path(new, of.path) {
                TreeFileV { path: of.path, contents: lookup_contents(new, of.path) }
            } else {
                of
            };
            assert(e1 == rest.push(x));
            assert(!contains_path(rest, x.path));
            assert(tree_wf(e1)) by {
                assert forall|i: int, j: int| 0 <= i < j < e1.len() implies e1[i].path
                    != e1[j].path by {
                    if j < e1.len() - 1 {
                        assert(e1[i] == rest[i] && e1[j] == rest[j]);
                    } else {
                        assert(e1[i] == rest[i]);
                        assert(contains_path(rest, rest[i].path));
                    }
                }
            }
            lemma_tree_unsnoc(e1);
            assert(e1.drop_last() =~= rest);
            assert forall|p: Seq<char>| contains_path(e1, p) implies (contains_path(old, p) && (
            contains_path(new, p) || !de)) by {
                lemma_contains_push(rest, x, p);
            }
            assert forall|p: Seq<char>| contains_path(old, p) && (contains_path(new, p)
                || !de) implies contains_path(e1, p) by {
                lemma_contains_push(rest, x, p);
            }
        } else {
            // The last old file is dropped: nothing changes.
            assert(e1 == rest);
            assert forall|p: Seq<char>| contains_path(e1, p) implies (contains_path(old, p) && (
            contains_path(new, p) || !de)) by {}
            assert forall|p: Seq<char>| contains_path(old, p) && (contains_path(new, p)
                || !de) implies contains_path(e1, p) by {
                assert(p != of.path);
                assert(contains_path(pre, p));
            }
        }
    }
}

pub proof fn lemma_added_files(old: Seq<TreeFileV>, new: Seq<TreeFileV>)
    requires
        tree_wf(old),
        tree_wf(new),
    ensures
        tree_wf(added_files(old, new)),
        forall|p: Seq<char>|
            #![trigger contains_path(added_files(old, new), p)]
            contains_path(added_files(old, new), p) <==> (contains_path(new, p) && !contains_path(
                old,
                p,
            )),
        forall|p: Seq<char>|
            #![trigger lookup_contents(added_files(old, new), p)]
            contains_path(added_files(old, new), p) ==> lookup_contents(added_files(old, new), p)
                == lookup_contents(new, p),
    decreases new.len(),
{
    let af = added_files(old, new);
    if new.len() == 0 {
        assert(forall|p: Seq<char>| !contains_path(af, p) && !contains_path(new, p));
    } else {
        let pre = new.drop_last();
        let nf = new.last();
        lemma_tree_unsnoc(new);
        lemma_added_files(old, pre);
        let rest = added_files(old, pre);
        if contains_path(old, nf.path) {
            assert(af == rest);
            assert forall|p: Seq<char>| contains_path(new, p) && !contains_path(
                old,
                p,
            ) implies contains_path(af, p) by {
                assert(p != nf.path);
            }
        } else {
            assert(af == rest.push(nf));
            assert(!contains_path(rest, nf.path));
            assert(tree_wf(af)) by {
                assert forall|i: int, j: int| 0 <= i < j < af.len() implies af[i].path
                    != af[j].path by {
                    if j < af.len() - 1 {
                        assert(af[i] == rest[i] && af[j] == rest[j]);
                    } else {
                        assert(af[i] == rest[i]);
                        assert(contains_path(rest, rest[i].path));
                    }
                }
            }
            lemma_tree_unsnoc(af);
            assert(af.drop_last() =~= rest);
            assert forall|p: Seq<char>| contains_path(af, p) implies (contains_path(new, p)
                && !contains_path(old, p)) by {
                lemma_contains_push(rest, nf, p);
            }
            assert forall|p: Seq<char>| contains_path(new, p) && !contains_path(
                old,
                p,
            ) implies contains_path(af, p) by {
                lemma_contains_push(rest, nf, p);
            }
        }
    }
}

/// The first apply pass over the old tree follows the classification: it
/// succeeds and produces [`expected_pass1`].
pub proof fn lemma_pass1_build(
    old: Seq<TreeFileV>,
    new: Seq<TreeFileV>,
    product: Seq<char>,
    from_version: Seq<char>,
    to_version: Seq<char>,
    de: bool,
    k: int,
)
    requires
        tree_wf(old),
        tree_wf(new),
        new.len() <= usize::MAX,
        tree_sizes_ok(old),
        tree_sizes_ok(new),
        digests_faithful(old, new),
        0 <= k <= old.len(),
    ensures
        apply_pass1(
            spec_build(old, new, product, from_version, to_version, de).manifest.files,
            spec_build(old, new, product, from_version, to_version, de).entries,
            old.take(k),
        ) == Ok::<Seq<TreeFileV>, PatchErrorV>(expected_pass1(old.take(k), new, de)),
    decreases k,
{
    let b = spec_build(old, new, product, from_version, to_version, de);
    let files = b.manifest.files;
    let entries = b.entries;
    let fs = build_parts(old, new).0;
    let es = build_parts(old, new).1;
    let ds = deleted_entries(old, new);
    lemma_build_parts(old, new);
    lemma_deleted_entries(old, new);
    lemma_spec_build_kinds_wf(old, new, product, from_version, to_version, de);
    if k == 0 {
        assert(old.take(0) =~= Seq::<TreeFileV>::empty());
    } else {
        lemma_pass1_build(old, new, product, from_version, to_version, de, k - 1);
        let tk = old.take(k);
        assert(tk.drop_last() =~= old.take(k - 1));
        let tf = tk.last();
        assert(tf == old[k - 1]);
        assert(contains_path(old, tf.path)) by {
            lemma_lookup_at_index(old, k - 1);
        }
        lemma_lookup_at_index(old, k - 1);
        let oc = lookup_contents(old, tf.path);
        assert(oc == tf.contents);
        let rest = expected_pass1(old.take(k - 1), new, de);
        assert(expected_pass1(tk, new, de) == if contains_path(new, tf.path) {
            rest.push(TreeFileV { path: tf.path, contents: lookup_contents(new, tf.path) })
        } else if de {
            rest
        } else {
            rest.push(tf)
        });
        if contains_path(new, tf.path) {
            let j = path_index(new, tf.path);
            assert(0 <= j < new.len() && new[j].path == tf.path);
            lemma_lookup_at_index(new, j);
            assert(files[j] == fs[j]);
            assert(fs[j].path == new[j].path);
            lemma_entry_at_index(files, j);
            assert(manifest_contains(files, tf.path));
            assert(manifest_index(files, tf.path) == j);
            assert(entry_matches_classification(old, new[j], fs[j], es));
            let e = fs[j];
            if hash_of(oc) == hash_of(new[j].contents) {
                assert(e.kind == PatchKind::Unchanged);
                assert(spec_plan(e, entries, Some(tf.contents)) == Ok::<ActionV, PatchErrorV>(
                    ActionV::Noop,
                ));
                assert(tf.contents == new[j].contents) by {
                    assert(old[k - 1].contents == oc);
                    assert(hash_of(old[k - 1].contents) == hash_of(new[j].contents));
                }
                assert(tf == TreeFileV { path: tf.path, contents: lookup_contents(new, tf.path) });
            } else {
                match e.kind {
                    PatchKind::Patched { idx } => {
                        assert(es[idx as int] == PatchDataV::Xdelta(
                            crate::delta::spec_delta_encode(new[j].contents, oc),
                        ));
                        lemma_delta_round_trip(new[j].contents, oc);
                        assert(spec_plan(e, entries, Some(tf.contents)) == Ok::<
                            ActionV,
                            PatchErrorV,
                        >(ActionV::Write(new[j].contents)));
                    },
                    _ => {
                        assert(false);
                    },
                }
            }
        } else {
            if de {
                let ki = choose|ki: int| 0 <= ki < ds.len() && ds[ki].path == old[k - 1].path;
                assert(files == fs + ds);
                assert(files[fs.len() + ki] == ds[ki]);
                lemma_entry_at_index(files, fs.len() + ki);
                assert(manifest_contains(files, tf.path));
                assert(manifest_index(files, tf.path) == fs.len() + ki);
                assert(ds[ki].kind == PatchKind::Deleted);
                assert(spec_plan(ds[ki], entries, Some(tf.contents)) == Ok::<ActionV, PatchErrorV>(
                    ActionV::Delete,
                ));
            } else {
                assert(files == fs);
                assert(!manifest_contains(files, tf.path)) by {
                    if manifest_contains(files, tf.path) {
                        let m = choose|m: int| 0 <= m < files.len() && files[m].path == tf.path;
                        assert(fs[m].path == new[m].path);
                        assert(contains_path(new, tf.path));
                    }
                }
            }
        }
    }
}

/// The second apply pass over the built manifest creates exactly the added
/// files: it succeeds and produces [`added_files`].
pub proof fn lemma_pass2_build(
    old: Seq<TreeFileV>,
    new: Seq<TreeFileV>,
    product: Seq<char>,
    from_version: Seq<char>,
    to_version: Seq<char>,
    de: bool,
    k: int,
)
    requires
        tree_wf(old),
        tree_wf(new),
        new.len() <= usize::MAX,
        0 <= k <= spec_build(old, new, product, from_version, to_version, de).manifest.files.len(),
    ensures
        apply_pass2(
            spec_build(old, new, product, from_version, to_version, de).manifest.files.take(k),
            spec_build(old, new, product, from_version, to_version, de).entries,
            old,
        ) == Ok::<Seq<TreeFileV>, PatchErrorV>(
            added_files(
                old,
                new.take(
                    if k <= new.len() {
                        k
                    } else {
                        new.len() as int
                    },
                ),
            ),
        ),
    decreases k,
{
    let b = spec_build(old, new, product, from_version, to_version, de);
    let files = b.manifest.files;
    let entries = b.entries;
    let fs = build_parts(old, new).0;
    let es = build_parts(old, new).1;
    let ds = deleted_entries(old, new);
    lemma_build_parts(old, new);
    lemma_deleted_entries(old, new);
    lemma_spec_build_kinds_wf(old, new, product, from_version, to_version, de);
    if k == 0 {
        assert(files.take(0) =~= Seq::<FileEntryV>::empty());
        assert(new.take(0) =~= Seq::<TreeFileV>::empty());
    } else {
        lemma_pass2_build(old, new, product, from_version, to_version, de, k - 1);
        let fk = files.take(k);
        assert(fk.drop_last() =~= files.take(k - 1));
        let e = fk.last();
        assert(e == files[k - 1]);
        if k - 1 < fs.len() {
            assert(e == fs[k - 1]);
            assert(entry_matches_classification(old, new[k - 1], fs[k - 1], es));
            assert(e.path == new[k - 1].path);
            let nk = new.take(k);
            assert(nk.drop_last() =~= new.take(k - 1));
            assert(nk.last() == new[k - 1]);
            if contains_path(old, e.path) {
                assert(apply_pass2(fk, entries, old) == apply_pass2(files.take(k - 1), entries, old));
                assert(added_files(old, nk) == added_files(old, new.take(k - 1)));
            } else {
                match e.kind {
                    PatchKind::Added { idx } => {
                        assert(es[idx as int] == PatchDataV::Full(new[k - 1].contents));
                        assert(spec_plan(e, entries, None) == Ok::<ActionV, PatchErrorV>(
                            ActionV::Write(new[k - 1].contents),
                        ));
                        assert(TreeFileV { path: e.path, contents: new[k - 1].contents } == new[k
                            - 1]);
                    },
                    _ => {
                        assert(false);
                    },
                }
            }
        } else {
            assert(files == fs + ds);
            assert(e == ds[k - 1 - fs.len()]);
            assert(contains_path(old, e.path));
            assert(apply_pass2(fk, entries, old) == apply_pass2(files.take(k - 1), entries, old));
        }
    }
}

/// Verification of a built bundle against the unmodified old tree finds
/// every recorded pre-image in place.
pub proof fn lemma_verify_build(
    old: Seq<TreeFileV>,
    new: Seq<TreeFileV>,
    product: Seq<char>,
    from_version: Seq<char>,
    to_version: Seq<char>,
    de: bool,
    k: int,
)
    requires
        tree_wf(old),
        tree_wf(new),
        new.len() <= usize::MAX,
        0 <= k <= spec_build(old, new, product, from_version, to_version, de).manifest.files.len(),
    ensures
        spec_verify(
            spec_build(old, new, product, from_version, to_version, de).manifest.files.take(k),
            old,
        ) is None,
    decreases k,
{
    let b = spec_build(old, new, product, from_version, to_version, de);
    let files = b.manifest.files;
    let fs = build_parts(old, new).0;
    let es = build_parts(old, new).1;
    let ds = deleted_entries(old, new);
    lemma_build_parts(old, new);
    lemma_deleted_entries(old, new);
    if k == 0 {
        assert(files.take(0) =~= Seq::<FileEntryV>::empty());
    } else {
        lemma_verify_build(old, new, product, from_version, to_version, de, k - 1);
        let fk = files.take(k);
        assert(fk.drop_last() =~= files.take(k - 1));
        let e = fk.last();
        assert(e == files[k - 1]);
        if k - 1 < fs.len() {
            assert(e == fs[k - 1]);
            assert(entry_matches_classification(old, new[k - 1], fs[k - 1], es));
            match e.kind {
                PatchKind::Added { idx } => {},
                _ => {
                    assert(contains_path(old, e.path));
                    assert(e.original_hash == hash_of(lookup_contents(old, e.path)));
                    assert(tree_cur(old, e.path) == Some(lookup_contents(old, e.path)));
                },
            }
        } else {
            assert(files == fs + ds);
            assert(e == ds[k - 1 - fs.len()]);
            assert(contains_path(old, e.path));
            assert(e.original_hash == hash_of(lookup_contents(old, e.path)));
        }
    }
}

/// Round trip: a bundle built from `old` to `new`, applied to `old`, passes
/// verification and succeeds; the resulting tree holds exactly the files of
/// `new` when `delete_extra` is set, and the files of `new` over the extra
/// files of `old` otherwise. The digest is assumed collision-free on the
/// files at hand, which is the content-digest contract.
pub proof fn lemma_build_apply_round_trip(
    old: Seq<TreeFileV>,
    new: Seq<TreeFileV>,
    product: Seq<char>,
    from_version: Seq<char>,
    to_version: Seq<char>,
    de: bool,
)
    requires
        tree_wf(old),
        tree_wf(new),
        new.len() <= usize::MAX,
        tree_sizes_ok(old),
        tree_sizes_ok(new),
        digests_faithful(old, new),
    ensures
        spec_verify(
            spec_build(old, new, product, from_version, to_version, de).manifest.files,
            old,
        ) is None,
        spec_apply(spec_build(old, new, product, from_version, to_version, de), old) is Ok,
        tree_wf(spec_apply(spec_build(old, new, product, from_version, to_version, de), old)->Ok_0),
        de ==> tree_map(
            spec_apply(spec_build(old, new, product, from_version, to_version, de), old)->Ok_0,
        ) == tree_map(new),
        !de ==> tree_map(
            spec_apply(spec_build(old, new, product, from_version, to_version, de), old)->Ok_0,
        ) == tree_map(old).union_prefer_right(tree_map(new)),
{
    let b = spec_build(old, new, product, from_version, to_version, de);
    let files = b.manifest.files;
    lemma_build_parts(old, new);
    lemma_deleted_entries(old, new);
    lemma_verify_build(old, new, product, from_version, to_version, de, files.len() as int);
    assert(files.take(files.len() as int) =~= files);
    lemma_pass1_build(old, new, product, from_version, to_version, de, old.len() as int);
    assert(old.take(old.len() as int) =~= old);
    lemma_pass2_build(old, new, product, from_version, to_version, de, files.len() as int);
    assert(new.take(new.len() as int) =~= new);
    let e1 = expected_pass1(old, new, de);
    let af = added_files(old, new);
    lemma_expected_pass1(old, new, de);
    lemma_added_files(old, new);
    assert(apply_pass1(files, b.entries, old) == Ok::<Seq<TreeFileV>, PatchErrorV>(e1));
    assert(apply_pass2(files, b.entries, old) == Ok::<Seq<TreeFileV>, PatchErrorV>(af));
    let out = e1 + af;
    assert(spec_apply(b, old) == Ok::<Seq<TreeFileV>, PatchErrorV>(out));
    assert(forall|p: Seq<char>| !(contains_path(e1, p) && contains_path(af, p)));
    lemma_tree_concat(e1, af);
    assert(tree_wf(out));
    if de {
        assert forall|p: Seq<char>| #[trigger] contains_path(out, p) implies contains_path(new, p)
            && lookup_contents(out, p) == lookup_contents(new, p) by {
            if contains_path(e1, p) {
                assert(lookup_contents(out, p) == lookup_contents(e1, p));
            } else {
                assert(contains_path(af, p));
                assert(lookup_contents(out, p) == lookup_contents(af, p));
            }
        }
        assert forall|p: Seq<char>| #[trigger] contains_path(new, p) implies contains_path(
            out,
            p,
        ) by {
            if contains_path(old, p) {
                assert(contains_path(e1, p));
            } else {
                assert(contains_path(af, p));
            }
        }
        assert(tree_map(out) =~= tree_map(new)) by {
            assert(tree_map(out).dom() =~= tree_map(new).dom());
        }
    } else {
        let target = tree_map(old).union_prefer_right(tree_map(new));
        assert forall|p: Seq<char>| #[trigger] contains_path(out, p) implies target.dom().contains(
            p,
        ) && lookup_contents(out, p) == target[p] by {
            if contains_path(e1, p) {
                assert(lookup_contents(out, p) == lookup_contents(e1, p));
            } else {
                assert(contains_path(af, p));
                assert(lookup_contents(out, p) == lookup_contents(af, p));
            }
        }
        assert forall|p: Seq<char>| #[trigger] target.dom().contains(p) implies contains_path(
            out,
            p,
        ) by {
            if contains_path(old, p) {
                assert(contains_path(e1, p));
            } else {
                assert(contains_path(new, p));
                assert(contains_path(af, p));
            }
        }
        assert(tree_map(out) =~= target) by {
            assert(tree_map(out).dom() =~= target.dom());
        }
    }
}

// ---------------------------------------------------------------------------
// Detection of mutated or missing pre-images
// ---------------------------------------------------------------------------

/// One failing entry precondition makes the whole verification fail.
proof fn lemma_verify_some(files: Seq<FileEntryV>, t: Seq<TreeFileV>, k: int)
    requires
        0 <= k < files.len(),
        entry_precondition(files[k], tree_cur(t, files[k].path)) is Some,
    ensures
        spec_verify(files, t) is Some,
    decreases files.len(),
{
    if k == files.len() - 1 {
        assert(files.last() == files[k]);
    } else {
        assert(files.drop_last()[k] == files[k]);
        lemma_verify_some(files.drop_last(), t, k);
    }
}

/// When every required pre-image is present, a verification failure can only
/// be a mismatch.
proof fn lemma_verify_mismatch_kind(files: Seq<FileEntryV>, t: Seq<TreeFileV>)
    requires
        forall|i: int| 0 <= i < files.len() && !((#[trigger] files[i]).kind is Added)
            && !is_zero_hash(files[i].original_hash) ==> contains_path(t, files[i].path),
    ensures
        spec_verify(files, t) matches Some(e) ==> e is PreconditionMismatch,
    decreases files.len(),
{
    if files.len() > 0 {
        assert(forall|i: int| 0 <= i < files.len() - 1 ==> #[trigger] files.drop_last()[i]
            == files[i]);
        lemma_verify_mismatch_kind(files.drop_last(), t);
        assert(files.last() == files[files.len() - 1]);
    }
}

/// Mutated pre-image: when every required pre-image file is present but the
/// one entry `k` names hashes differently from its recorded digest,
/// verification fails, and with a mismatch.
pub proof fn lemma_verify_detects_mutation(files: Seq<FileEntryV>, t: Seq<TreeFileV>, k: int)
    requires
        0 <= k < files.len(),
        !(files[k].kind is Added),
        !is_zero_hash(files[k].original_hash),
        contains_path(t, files[k].path),
        hash_of(lookup_contents(t, files[k].path)) != files[k].original_hash,
        forall|i: int| 0 <= i < files.len() && !((#[trigger] files[i]).kind is Added)
            && !is_zero_hash(files[i].original_hash) ==> contains_path(t, files[i].path),
    ensures
        spec_verify(files, t) is Some,
        spec_verify(files, t) matches Some(e) && e is PreconditionMismatch,
{
    assert(entry_precondition(files[k], tree_cur(t, files[k].path)) is Some);
    lemma_verify_some(files, t, k);
    lemma_verify_mismatch_kind(files, t);
}

/// Entries before `k` all pass: the prefix verifies.
proof fn lemma_verify_all_pass(files: Seq<FileEntryV>, t: Seq<TreeFileV>, k: int)
    requires
        0 <= k <= files.len(),
        forall|i: int| 0 <= i < k ==> entry_precondition(
            #[trigger] files[i],
            tree_cur(t, files[i].path),
        ) is None,
    ensures
        spec_verify(files.take(k), t) is None,
    decreases k,
{
    if k > 0 {
        lemma_verify_all_pass(files, t, k - 1);
        assert(files.take(k).drop_last() =~= files.take(k - 1));
        assert(files.take(k).last() == files[k - 1]);
    }
}

/// Missing pre-image: when the entries before `k` pass but the file entry
/// `k` expects is gone, verification fails with exactly that missing path.
pub proof fn lemma_verify_detects_missing(files: Seq<FileEntryV>, t: Seq<TreeFileV>, k: int)
    requires
        0 <= k < files.len(),
        forall|i: int| 0 <= i < k ==> entry_precondition(
            #[trigger] files[i],
            tree_cur(t, files[i].path),
        ) is None,
        !(files[k].kind is Added),
        !is_zero_hash(files[k].original_hash),
        !contains_path(t, files[k].path),
    ensures
        spec_verify(files, t) == Some(PatchErrorV::PreconditionMissing { path: files[k].path }),
{
    lemma_verify_all_pass(files, t, k);
    assert(files.take(k + 1).drop_last() =~= files.take(k));
    assert(files.take(k + 1).last() == files[k]);
    assert(tree_cur(t, files[k].path) is None);
    assert(spec_verify(files.take(k + 1), t) == Some(
        PatchErrorV::PreconditionMissing { path: files[k].path },
    ));
    lemma_verify_prefix_error(files, t, k + 1);
    assert(files.take(files.len() as int) =~= files);
}

// ---------------------------------------------------------------------------
// Idempotence of applying a bundle without delta entries
// ---------------------------------------------------------------------------

/// No entry of the manifest carries a delta.
pub open spec fn no_patched(files: Seq<FileEntryV>) -> bool {
    forall|i: int| 0 <= i < files.len() ==> !((#[trigger] files[i]).kind is Patched)
}

/// The entry kind a path resolves to is `Deleted`.
pub open spec fn path_is_deleted(files: Seq<FileEntryV>, p: Seq<char>) -> bool {
    manifest_contains(files, p) && files[manifest_index(files, p)].kind is Deleted
}

/// The entry kind a path resolves to is `Added`.
pub open spec fn path_is_added(files: Seq<FileEntryV>, p: Seq<char>) -> bool {
    manifest_contains(files, p) && files[manifest_index(files, p)].kind is Added
}

/// The payload contents an `Added` path resolves to.
pub open spec fn added_contents(
    files: Seq<FileEntryV>,
    entries: Seq<PatchDataV>,
    p: Seq<char>,
) -> Seq<u8> {
    match files[manifest_index(files, p)].kind {
        PatchKind::Added { idx } => entries[idx as int].payload(),
        _ => Seq::<u8>::empty(),
    }
}

/// First pass of a delta-free bundle: it succeeds; paths with a `Deleted`
/// entry are dropped, `Added` paths take their payload contents, everything
/// else keeps its contents.
proof fn lemma_pass1_no_patch(files: Seq<FileEntryV>, entries: Seq<PatchDataV>, t: Seq<TreeFileV>)
    requires
        tree_wf(t),
        entry_paths_unique(files),
        no_patched(files),
        forall|i: int| 0 <= i < files.len() ==> entry_payload_wf(#[trigger] files[i], entries),
    ensures
        apply_pass1(files, entries, t) is Ok,
        tree_wf(apply_pass1(files, entries, t)->Ok_0),
        forall|p: Seq<char>|
            #![trigger contains_path(apply_pass1(files, entries, t)->Ok_0, p)]
            contains_path(apply_pass1(files, entries, t)->Ok_0, p) <==> (contains_path(t, p)
                && !path_is_deleted(files, p)),
        forall|p: Seq<char>|
            #![trigger lookup_contents(apply_pass1(files, entries, t)->Ok_0, p)]
            contains_path(apply_pass1(files, entries, t)->Ok_0, p) ==> lookup_contents(
                apply_pass1(files, entries, t)->Ok_0,
                p,
            ) == (if path_is_added(files, p) {
                added_contents(files, entries, p)
            } else {
                lookup_contents(t, p)
            }),
    decreases t.len(),
{
    if t.len() == 0 {
        let r = apply_pass1(files, entries, t)->Ok_0;
        assert(forall|p: Seq<char>| !contains_path(r, p) && !contains_path(t, p));
    } else {
        let pre = t.drop_last();
        let tf = t.last();
        lemma_tree_unsnoc(t);
        lemma_pass1_no_patch(files, entries, pre);
        let rest = apply_pass1(files, entries, pre)->Ok_0;
        if manifest_contains(files, tf.path) {
            let mi = manifest_index(files, tf.path);
            assert(0 <= mi < files.len() && files[mi].path == tf.path);
            let e = files[mi];
            assert(!(e.kind is Patched));
            match e.kind {
                PatchKind::Unchanged => {
                    assert(spec_plan(e, entries, Some(tf.contents)) == Ok::<ActionV, PatchErrorV>(
                        ActionV::Noop,
                    ));
                    lemma_pass1_no_patch_push(files, entries, t, rest, tf);
                },
                PatchKind::Deleted => {
                    assert(spec_plan(e, entries, Some(tf.contents)) == Ok::<ActionV, PatchErrorV>(
                        ActionV::Delete,
                    ));
                    let r = apply_pass1(files, entries, t)->Ok_0;
                    assert(r == rest);
                    assert forall|p: Seq<char>| #[trigger] contains_path(r, p) implies (
                    contains_path(t, p) && !path_is_deleted(files, p)) by {}
                    assert forall|p: Seq<char>| contains_path(t, p) && !path_is_deleted(
                        files,
                        p,
                    ) implies #[trigger] contains_path(r, p) by {
                        if p == tf.path {
                            assert(path_is_deleted(files, p));
                        } else {
                            assert(contains_path(pre, p));
                        }
                    }
                },
                PatchKind::Added { idx } => {
                    assert(entry_payload_wf(e, entries));
                    assert(idx < entries.len() && entries[idx as int] is Full);
                    assert(spec_plan(e, entries, Some(tf.contents)) == Ok::<ActionV, PatchErrorV>(
                        ActionV::Write(entries[idx as int].payload()),
                    ));
                    let x = TreeFileV { path: tf.path, contents: entries[idx as int].payload() };
                    lemma_pass1_no_patch_push(files, entries, t, rest, x);
                },
                PatchKind::Patched { idx } => {
                    assert(false);
                },
            }
        } else {
            lemma_pass1_no_patch_push(files, entries, t, rest, tf);
        }
    }
}

/// The push step shared by the keeping and writing cases of
/// [`lemma_pass1_no_patch`].
proof fn lemma_pass1_no_patch_push(
    files: Seq<FileEntryV>,
    entries: Seq<PatchDataV>,
    t: Seq<TreeFileV>,
    rest: Seq<TreeFileV>,
    x: TreeFileV,
)
    requires
        tree_wf(t),
        t.len() > 0,
        x.path == t.last().path,
        tree_wf(rest),
        apply_pass1(files, entries, t) == Ok::<Seq<TreeFileV>, PatchErrorV>(rest.push(x)),
        forall|p: Seq<char>|
            #![trigger contains_path(rest, p)]
            contains_path(rest, p) <==> (contains_path(t.drop_last(), p) && !path_is_deleted(
                files,
                p,
            )),
        forall|p: Seq<char>|
            #![trigger lookup_contents(rest, p)]
            contains_path(rest, p) ==> lookup_contents(rest, p) == (if path_is_added(files, p) {
                added_contents(files, entries, p)
            } else {
                lookup_contents(t.drop_last(), p)
            }),
        !path_is_deleted(files, x.path),
        if path_is_added(files, x.path) {
            x.contents == added_contents(files, entries, x.path)
        } else {
            x.contents == t.last().contents
        },
    ensures
        tree_wf(rest.push(x)),
        forall|p: Seq<char>|
            #![trigger contains_path(rest.push(x), p)]
            contains_path(rest.push(x), p) <==> (contains_path(t, p) && !path_is_deleted(files, p)),
        forall|p: Seq<char>|
            #![trigger lookup_contents(rest.push(x), p)]
            contains_path(rest.push(x), p) ==> lookup_contents(rest.push(x), p) == (if
        path_is_added(files, p) {
            added_contents(files, entries, p)
        } else {
            lookup_contents(t, p)
        }),
{
    lemma_tree_unsnoc(t);
    let r = rest.push(x);
    assert(!contains_path(rest, x.path));
    assert(tree_wf(r)) by {
        assert forall|i: int, j: int| 0 <= i < j < r.len() implies r[i].path != r[j].path by {
            if j < r.len() - 1 {
                assert(r[i] == rest[i] && r[j] == rest[j]);
            } else {
                assert(r[i] == rest[i]);
                assert(contains_path(rest, rest[i].path));
            }
        }
    }
    lemma_tree_unsnoc(r);
    assert(r.drop_last() =~= rest);
    assert forall|p: Seq<char>| #[trigger] contains_path(r, p) implies (contains_path(t, p)
        && !path_is_deleted(files, p)) by {
        lemma_contains_push(rest, x, p);
    }
    assert forall|p: Seq<char>| contains_path(t, p) && !path_is_deleted(files, p) implies
        #[trigger] contains_path(r, p) by {
        lemma_contains_push(rest, x, p);
    }
    assert forall|p: Seq<char>| #[trigger] contains_path(r, p) implies lookup_contents(r, p) == (if
    path_is_added(files, p) {
        added_contents(files, entries, p)
    } else {
        lookup_contents(t, p)
    }) by {
        if p == x.path {
            assert(lookup_contents(r, p) == x.contents);
        } else {
            assert(contains_path(rest, p));
            assert(lookup_contents(r, p) == lookup_contents(rest, p));
        }
    }
}

/// Second pass of a delta-free bundle: it succeeds and creates exactly the
/// `Added` paths the tree lacks, with their payload contents.
proof fn lemma_pass2_no_patch(files: Seq<FileEntryV>, entries: Seq<PatchDataV>, t: Seq<TreeFileV>)
    requires
        entry_paths_unique(files),
        no_patched(files),
        forall|i: int| 0 <= i < files.len() ==> entry_payload_wf(#[trigger] files[i], entries),
    ensures
        apply_pass2(files, entries, t) is Ok,
        tree_wf(apply_pass2(files, entries, t)->Ok_0),
        forall|p: Seq<char>|
            #![trigger contains_path(apply_pass2(files, entries, t)->Ok_0, p)]
            contains_path(apply_pass2(files, entries, t)->Ok_0, p) <==> (!contains_path(t, p) && (
            exists|i: int| 0 <= i < files.len() && (#[trigger] files[i]).path == p && files[i].kind
                is Added)),
        forall|p: Seq<char>|
            #![trigger lookup_contents(apply_pass2(files, entries, t)->Ok_0, p)]
            contains_path(apply_pass2(files, entries, t)->Ok_0, p) ==> lookup_contents(
                apply_pass2(files, entries, t)->Ok_0,
                p,
            ) == added_contents(files, entries, p),
    decreases files.len(),
{
    if files.len() == 0 {
        let r = apply_pass2(files, entries, t)->Ok_0;
        assert(forall|p: Seq<char>| !contains_path(r, p));
    } else {
        let pre = files.drop_last();
        let e = files.last();
        assert(forall|i: int| 0 <= i < pre.len() ==> #[trigger] pre[i] == files[i]);
        lemma_pass2_no_patch(pre, entries, t);
        let rest = apply_pass2(pre, entries, t)->Ok_0;
        // Entries of the prefix resolve the same way in the whole manifest.
        assert forall|p: Seq<char>| manifest_contains(pre, p) implies manifest_contains(files, p)
            && manifest_index(files, p) == manifest_index(pre, p) by {
            let i = manifest_index(pre, p);
            assert(0 <= i < pre.len() && pre[i].path == p);
            lemma_entry_at_index(files, i);
        }
        let wrote = !contains_path(t, e.path) && e.kind is Added;
        if contains_path(t, e.path) || !(e.kind is Added) {
            // Nothing appended for the last entry.
            if !contains_path(t, e.path) {
                match e.kind {
                    PatchKind::Unchanged => {},
                    PatchKind::Deleted => {},
                    _ => {
                        assert(false);
                    },
                }
            }
            let r = apply_pass2(files, entries, t)->Ok_0;
            assert(r == rest);
            assert forall|p: Seq<char>| #[trigger] contains_path(r, p) implies (!contains_path(
                t,
                p,
            ) && (exists|i: int| 0 <= i < files.len() && (#[trigger] files[i]).path == p
                && files[i].kind is Added)) by {
                let i = choose|i: int| 0 <= i < pre.len() && (#[trigger] pre[i]).path == p
                    && pre[i].kind is Added;
                assert(files[i].path == p && files[i].kind is Added);
            }
            assert forall|p: Seq<char>| (!contains_path(t, p) && (exists|i: int| 0 <= i
                < files.len() && (#[trigger] files[i]).path == p && files[i].kind
                is Added)) implies #[trigger] contains_path(r, p) by {
                let i = choose|i: int| 0 <= i < files.len() && (#[trigger] files[i]).path == p
                    && files[i].kind is Added;
                if i == files.len() - 1 {
                    assert(false);
                } else {
                    assert(pre[i].path == p && pre[i].kind is Added);
                }
            }
            assert forall|p: Seq<char>| #[trigger] contains_path(r, p) implies lookup_contents(
                r,
                p,
            ) == added_contents(files, entries, p) by {
                assert(lookup_contents(rest, p) == added_contents(pre, entries, p));
                assert(manifest_contains(pre, p));
            }
        } else {
            match e.kind {
                PatchKind::Added { idx } => {
                    assert(entry_payload_wf(e, entries));
                    assert(spec_plan(e, entries, None) == Ok::<ActionV, PatchErrorV>(
                        ActionV::Write(entries[idx as int].payload()),
                    ));
                    let x = TreeFileV { path: e.path, contents: entries[idx as int].payload() };
                    let r = apply_pass2(files, entries, t)->Ok_0;
                    assert(r == rest.push(x));
                    assert(!contains_path(rest, x.path)) by {
                        if contains_path(rest, x.path) {
                            let i = choose|i: int| 0 <= i < pre.len() && (#[trigger] pre[i]).path
                                == x.path && pre[i].kind is Added;
                            assert(files[i].path != files[files.len() - 1].path);
                        }
                    }
                    assert(tree_wf(r)) by {
                        assert forall|i: int, j: int| 0 <= i < j < r.len() implies r[i].path
                            != r[j].path by {
                            if j < r.len() - 1 {
                                assert(r[i] == rest[i] && r[j] == rest[j]);
                            } else {
                                assert(r[i] == rest[i]);
                                assert(contains_path(rest, rest[i].path));
                            }
                        }
                    }
                    lemma_entry_at_index(files, files.len() - 1);
                    assert(path_is_added(files, e.path));
                    assert(added_contents(files, entries, e.path) == entries[idx as int].payload());
                    lemma_tree_unsnoc(r);
                    assert(r.drop_last() =~= rest);
                    assert forall|p: Seq<char>| #[trigger] contains_path(r, p) implies (
                    !contains_path(t, p) && (exists|i: int| 0 <= i < files.len() && (
                    #[trigger] files[i]).path == p && files[i].kind is Added)) by {
                        lemma_contains_push(rest, x, p);
                        if contains_path(rest, p) {
                            let i = choose|i: int| 0 <= i < pre.len() && (#[trigger] pre[i]).path
                                == p && pre[i].kind is Added;
                            assert(files[i].path == p && files[i].kind is Added);
                        } else {
                            assert(p == x.path);
                            assert(files[files.len() - 1].path == p);
                        }
                    }
                    assert forall|p: Seq<char>| (!contains_path(t, p) && (exists|i: int| 0 <= i
                        < files.len() && (#[trigger] files[i]).path == p && files[i].kind
                        is Added)) implies #[trigger] contains_path(r, p) by {
                        lemma_contains_push(rest, x, p);
                        let i = choose|i: int| 0 <= i < files.len() && (#[trigger] files[i]).path
                            == p && files[i].kind is Added;
                        if i < files.len() - 1 {
                            assert(pre[i].path == p && pre[i].kind is Added);
                        }
                    }
                    assert forall|p: Seq<char>| #[trigger] contains_path(r, p) implies
                        lookup_contents(r, p) == added_contents(files, entries, p) by {
                        if p == x.path {
                            assert(lookup_contents(r, p) == x.contents);
                        } else {
                            assert(contains_path(rest, p));
                            assert(lookup_contents(r, p) == lookup_contents(rest, p));
                            assert(lookup_contents(rest, p) == added_contents(pre, entries, p));
                            assert(manifest_contains(pre, p));
                        }
                    }
                },
                _ => {
                    assert(false);
                },
            }
        }
    }
}

/// Idempotent application: a bundle without delta entries — deletions,
/// additions and unchanged files — applies a second time to its own output,
/// succeeds again, and changes nothing; a path a `Deleted` entry names is
/// absent after either application.
pub proof fn lemma_apply_idempotent_no_patched(b: PatchBundleV, t: Seq<TreeFileV>)
    requires
        tree_wf(t),
        bundle_kinds_wf(b),
        no_patched(b.manifest.files),
    ensures
        spec_apply(b, t) is Ok,
        spec_apply(b, spec_apply(b, t)->Ok_0) is Ok,
        tree_wf(spec_apply(b, t)->Ok_0),
        tree_map(spec_apply(b, spec_apply(b, t)->Ok_0)->Ok_0) == tree_map(spec_apply(b, t)->Ok_0),
        forall|i: int| 0 <= i < b.manifest.files.len() && (#[trigger] b.manifest.files[i]).kind
            is Deleted ==> !contains_path(spec_apply(b, t)->Ok_0, b.manifest.files[i].path),
{
    let files = b.manifest.files;
    let entries = b.entries;
    lemma_pass1_no_patch(files, entries, t);
    lemma_pass2_no_patch(files, entries, t);
    let s1 = apply_pass1(files, entries, t)->Ok_0;
    let s2 = apply_pass2(files, entries, t)->Ok_0;
    assert(forall|p: Seq<char>| !(contains_path(s1, p) && contains_path(s2, p)));
    lemma_tree_concat(s1, s2);
    let out = s1 + s2;
    assert(spec_apply(b, t) == Ok::<Seq<TreeFileV>, PatchErrorV>(out));
    // Membership and contents of the first application's output.
    assert forall|p: Seq<char>| #[trigger] contains_path(out, p) implies !path_is_deleted(
        files,
        p,
    ) by {
        if contains_path(s2, p) {
            let i = choose|i: int| 0 <= i < files.len() && (#[trigger] files[i]).path == p
                && files[i].kind is Added;
            lemma_entry_at_index(files, i);
        }
    }
    assert forall|p: Seq<char>| path_is_added(files, p) implies #[trigger] contains_path(out, p)
        && lookup_contents(out, p) == added_contents(files, entries, p) by {
        let i = manifest_index(files, p);
        if contains_path(t, p) {
            assert(contains_path(s1, p));
            assert(lookup_contents(out, p) == lookup_contents(s1, p));
        } else {
            assert(files[i].path == p && files[i].kind is Added);
            assert(contains_path(s2, p));
            assert(lookup_contents(out, p) == lookup_contents(s2, p));
        }
    }
    // The second application.
    lemma_pass1_no_patch(files, entries, out);
    lemma_pass2_no_patch(files, entries, out);
    let s1b = apply_pass1(files, entries, out)->Ok_0;
    let s2b = apply_pass2(files, entries, out)->Ok_0;
    assert(forall|p: Seq<char>| !(contains_path(s1b, p) && contains_path(s2b, p)));
    lemma_tree_concat(s1b, s2b);
    let out2 = s1b + s2b;
    assert(spec_apply(b, out) == Ok::<Seq<TreeFileV>, PatchErrorV>(out2));
    assert forall|p: Seq<char>| #[trigger] contains_path(out2, p) implies contains_path(out, p)
        && lookup_contents(out2, p) == lookup_contents(out, p) by {
        if contains_path(s1b, p) {
            assert(contains_path(out, p));
            assert(lookup_contents(out2, p) == lookup_contents(s1b, p));
            if path_is_added(files, p) {
                assert(lookup_contents(s1b, p) == added_contents(files, entries, p));
            } else {
                assert(lookup_contents(s1b, p) == lookup_contents(out, p));
            }
        } else {
            assert(contains_path(s2b, p));
            let i = choose|i: int| 0 <= i < files.len() && (#[trigger] files[i]).path == p
                && files[i].kind is Added;
            lemma_entry_at_index(files, i);
            assert(path_is_added(files, p));
            assert(contains_path(out, p));
            assert(false);
        }
    }
    assert forall|p: Seq<char>| #[trigger] contains_path(out, p) implies contains_path(
        out2,
        p,
    ) by {
        assert(!path_is_deleted(files, p));
        assert(contains_path(s1b, p));
    }
    assert(tree_map(out2) =~= tree_map(out)) by {
        assert(tree_map(out2).dom() =~= tree_map(out).dom());
    }
}

} // verus!
