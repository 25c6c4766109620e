//! An in-memory directory tree: the relative path and contents of every
//! regular file under one root. The builder reads two of these; the applier
//! transforms one.

use vstd::prelude::*;
use vstd::slice::slice_to_vec;

verus! {

/// One regular file: relative forward-slash path and full contents.
#[derive(Debug)]
pub struct TreeFile {
    pub path: String,
    pub contents: Vec<u8>,
}

/// A directory tree as a sequence of files. Paths are expected to be unique;
/// see [`tree_wf`].
#[derive(Debug)]
pub struct Tree {
    pub files: Vec<TreeFile>,
}

pub ghost struct TreeFileV {
    pub path: Seq<char>,
    pub contents: Seq<u8>,
}

impl View for TreeFile {
    type V = TreeFileV;

    open spec fn view(&self) -> TreeFileV {
        TreeFileV { path: self.path@, contents: self.contents@ }
    }
}

impl DeepView for TreeFile {
    type V = TreeFileV;

    open spec fn deep_view(&self) -> TreeFileV {
        self.view()
    }
}

impl View for Tree {
    type V = Seq<TreeFileV>;

    open spec fn view(&self) -> Seq<TreeFileV> {
        self.files.deep_view()
    }
}

/// Some file of the tree has this path.
pub open spec fn contains_path(t: Seq<TreeFileV>, p: Seq<char>) -> bool {
    exists|i: int| 0 <= i < t.len() && t[i].path == p
}

/// No two files of the tree share a path.
pub open spec fn tree_wf(t: Seq<TreeFileV>) -> bool {
    forall|i: int, j: int| 0 <= i < j < t.len() ==> t[i].path != t[j].path
}

/// The index of the file with path `p`; meaningful under [`tree_wf`] when
/// [`contains_path`] holds.
pub open spec fn path_index(t: Seq<TreeFileV>, p: Seq<char>) -> int {
    choose|i: int| 0 <= i < t.len() && t[i].path == p
}

/// The contents of the file with path `p`.
pub open spec fn lookup_contents(t: Seq<TreeFileV>, p: Seq<char>) -> Seq<u8>
    recommends
        contains_path(t, p),
{
    t[path_index(t, p)].contents
}

/// The tree as a finite map from path to contents.
pub open spec fn tree_map(t: Seq<TreeFileV>) -> Map<Seq<char>, Seq<u8>> {
    Map::new(|p: Seq<char>| contains_path(t, p), |p: Seq<char>| lookup_contents(t, p))
}

/// In a well-formed tree, the file at any index is the one its path looks up.
pub proof fn lemma_lookup_at_index(t: Seq<TreeFileV>, i: int)
    requires
        tree_wf(t),
        0 <= i < t.len(),
    ensures
        contains_path(t, t[i].path),
        path_index(t, t[i].path) == i,
        lookup_contents(t, t[i].path) == t[i].contents,
{
    assert(contains_path(t, t[i].path));
    let j = path_index(t, t[i].path);
    if j != i {
        if j < i {
            assert(t[j].path != t[i].path);
        } else {
            assert(t[i].path != t[j].path);
        }
    }
}

/// Path membership distributes over appending one file.
pub proof fn lemma_contains_push(t: Seq<TreeFileV>, x: TreeFileV, p: Seq<char>)
    ensures
        contains_path(t.push(x), p) <==> (contains_path(t, p) || x.path == p),
{
    if contains_path(t, p) {
        let i = choose|i: int| 0 <= i < t.len() && t[i].path == p;
        assert(t.push(x)[i].path == p);
    }
    if x.path == p {
        assert(t.push(x)[t.len() as int].path == p);
    }
    if contains_path(t.push(x), p) {
        let i = choose|i: int| 0 <= i < t.push(x).len() && t.push(x)[i].path == p;
        if i < t.len() {
            assert(t[i].path == p);
        }
    }
}

/// Splitting off the last file of a well-formed tree: membership and lookups
/// in the prefix agree with the whole, and the last path is fresh.
pub proof fn lemma_tree_unsnoc(t: Seq<TreeFileV>)
    requires
        tree_wf(t),
        t.len() > 0,
    ensures
        tree_wf(t.drop_last()),
        !contains_path(t.drop_last(), t.last().path),
        lookup_contents(t, t.last().path) == t.last().contents,
        contains_path(t, t.last().path),
        forall|p: Seq<char>| contains_path(t, p) <==> (contains_path(t.drop_last(), p)
            || t.last().path == p),
        forall|p: Seq<char>| contains_path(t.drop_last(), p) ==> lookup_contents(t, p)
            == lookup_contents(t.drop_last(), p),
{
    let pre = t.drop_last();
    lemma_lookup_at_index(t, t.len() - 1);
    assert forall|p: Seq<char>| contains_path(t, p) implies (contains_path(pre, p) || t.last().path
        == p) by {
        let i = choose|i: int| 0 <= i < t.len() && t[i].path == p;
        if i < t.len() - 1 {
            assert(pre[i].path == p);
        }
    }
    assert forall|p: Seq<char>| contains_path(pre, p) || t.last().path == p implies contains_path(
        t,
        p,
    ) by {
        if contains_path(pre, p) {
            let i = choose|i: int| 0 <= i < pre.len() && pre[i].path == p;
            assert(t[i].path == p);
        }
    }
    assert forall|p: Seq<char>| contains_path(pre, p) implies lookup_contents(t, p)
        == lookup_contents(pre, p) by {
        let i = path_index(pre, p);
        assert(0 <= i < pre.len() && pre[i].path == p);
        assert(t[i] == pre[i]);
        lemma_lookup_at_index(t, i);
        lemma_lookup_at_index(pre, i);
    }
}

/// Concatenating two well-formed trees with disjoint paths: the result is
/// well-formed and looks up through whichever side holds the path.
pub proof fn lemma_tree_concat(a: Seq<TreeFileV>, b: Seq<TreeFileV>)
    requires
        tree_wf(a),
        tree_wf(b),
        forall|p: Seq<char>| !(contains_path(a, p) && contains_path(b, p)),
    ensures
        tree_wf(a + b),
        forall|p: Seq<char>| contains_path(a + b, p) <==> (contains_path(a, p) || contains_path(
            b,
            p,
        )),
        forall|p: Seq<char>| contains_path(a, p) ==> lookup_contents(a + b, p) == lookup_contents(
            a,
            p,
        ),
        forall|p: Seq<char>| contains_path(b, p) ==> lookup_contents(a + b, p) == lookup_contents(
            b,
            p,
        ),
{
    let c = a + b;
    assert(tree_wf(c)) by {
        assert forall|i: int, j: int| 0 <= i < j < c.len() implies c[i].path != c[j].path by {
            if i < a.len() && j >= a.len() {
                assert(c[i] == a[i]);
                assert(c[j] == b[j - a.len()]);
                assert(contains_path(a, a[i].path));
                if a[i].path == b[j - a.len()].path {
                    assert(contains_path(b, a[i].path));
                }
            }
        }
    }
    assert forall|p: Seq<char>| contains_path(c, p) implies (contains_path(a, p) || contains_path(
        b,
        p,
    )) by {
        let i = choose|i: int| 0 <= i < c.len() && c[i].path == p;
        if i < a.len() {
            assert(a[i].path == p);
        } else {
            assert(b[i - a.len()].path == p);
        }
    }
    assert forall|p: Seq<char>| contains_path(a, p) || contains_path(b, p) implies contains_path(
        c,
        p,
    ) by {
        if contains_path(a, p) {
            let i = choose|i: int| 0 <= i < a.len() && a[i].path == p;
            assert(c[i].path == p);
        } else {
            let i = choose|i: int| 0 <= i < b.len() && b[i].path == p;
            assert(c[a.len() + i].path == p);
        }
    }
    assert forall|p: Seq<char>| contains_path(a, p) implies lookup_contents(c, p)
        == lookup_contents(a, p) by {
        let i = path_index(a, p);
        assert(0 <= i < a.len() && a[i].path == p);
        assert(c[i] == a[i]);
        lemma_lookup_at_index(c, i);
        lemma_lookup_at_index(a, i);
    }
    assert forall|p: Seq<char>| contains_path(b, p) implies lookup_contents(c, p)
        == lookup_contents(b, p) by {
        let i = path_index(b, p);
        assert(0 <= i < b.len() && b[i].path == p);
        assert(c[a.len() + i] == b[i]);
        lemma_lookup_at_index(c, a.len() + i);
        lemma_lookup_at_index(b, i);
    }
}

impl Tree {
    /// The index of the file with the given path, if any.
    #[verifier::loop_isolation(false)]
    pub fn find(&self, path: &String) -> (r: Option<usize>)
        ensures
            r matches Some(i) ==> i < self.files.len() && self@[i as int].path == path@,
            r is Some ==> contains_path(self@, path@),
            r is None ==> !contains_path(self@, path@),
    {
        let n = self.files.len();
        let mut i: usize = 0;
        while i < n
            invariant
                0 <= i <= n,
                forall|j: int| 0 <= j < i ==> self@[j].path != path@,
            decreases n - i,
        {
            if self.files[i].path == *path {
                proof {
                    assert(self@[i as int] == self.files@[i as int]@);
                }
                return Some(i);
            }
            i += 1;
        }
        None
    }
}

impl TreeFile {
    /// An equal-valued copy.
    pub fn duplicate(&self) -> (r: TreeFile)
        ensures
            r@ == self@,
    {
        TreeFile { path: self.path.clone(), contents: slice_to_vec(self.contents.as_slice()) }
    }
}

} // verus!
