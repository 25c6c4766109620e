//! The data model: a manifest of per-file changes, payload blobs, and the
//! well-formedness invariants that couple them.

use vstd::prelude::*;

verus! {

/// How one file changes between the two versions.
#[derive(Clone, Copy, Debug, PartialEq, Eq, Structural)]
pub enum PatchKind {
    /// Present in both trees with identical contents.
    Unchanged,
    /// Present in both trees with different contents; `idx` points at the
    /// delta payload.
    Patched { idx: usize },
    /// Present only in the new tree; `idx` points at the full-contents
    /// payload.
    Added { idx: usize },
    /// Present only in the old tree; removed by the patch.
    Deleted,
}

/// One payload blob of a bundle, tagged by how it is to be used.
#[derive(Debug, PartialEq, Eq)]
pub enum PatchData {
    /// A binary delta against the pre-image contents.
    Xdelta(Vec<u8>),
    /// Complete post-image contents.
    Full(Vec<u8>),
}

/// One file observed in the union of the two trees.
#[derive(Debug)]
pub struct FileEntry {
    /// Relative path, forward-slash separated.
    pub path: String,
    pub kind: PatchKind,
    /// Digest of the pre-image; all zeros iff the file is absent from the
    /// old tree.
    pub original_hash: [u8; 32],
    /// Digest of the post-image; all zeros iff the file is absent from the
    /// new tree.
    pub new_hash: [u8; 32],
}

/// Describes one transition between two versions of one product.
#[derive(Debug)]
pub struct Manifest {
    pub product: String,
    pub from_version: String,
    pub to_version: String,
    pub files: Vec<FileEntry>,
}

/// A manifest together with the payload blobs its entries point at.
#[derive(Debug)]
pub struct PatchBundle {
    pub manifest: Manifest,
    pub entries: Vec<PatchData>,
}

/// Everything the library fails with.
#[derive(Debug, PartialEq, Eq)]
pub enum PatchError {
    /// The byte image holds no decodable bundle: bad trailer, inconsistent
    /// length, decoder rejection, or a bundle that breaks its invariants.
    InvalidBundle,
    /// A pre-image file a manifest entry expects is absent.
    PreconditionMissing { path: String },
    /// A pre-image file is present but hashes differently.
    PreconditionMismatch { path: String },
    /// The delta payload does not apply to the pre-image contents.
    CodecFailure { path: String },
}

// ---------------------------------------------------------------------------
// Mathematical models
// ---------------------------------------------------------------------------

pub ghost struct FileEntryV {
    pub path: Seq<char>,
    pub kind: PatchKind,
    pub original_hash: Seq<u8>,
    pub new_hash: Seq<u8>,
}

pub ghost enum PatchDataV {
    Xdelta(Seq<u8>),
    Full(Seq<u8>),
}

pub ghost struct ManifestV {
    pub product: Seq<char>,
    pub from_version: Seq<char>,
    pub to_version: Seq<char>,
    pub files: Seq<FileEntryV>,
}

pub ghost struct PatchBundleV {
    pub manifest: ManifestV,
    pub entries: Seq<PatchDataV>,
}

pub ghost enum PatchErrorV {
    InvalidBundle,
    PreconditionMissing { path: Seq<char> },
    PreconditionMismatch { path: Seq<char> },
    CodecFailure { path: Seq<char> },
}

impl View for FileEntry {
    type V = FileEntryV;

    open spec fn view(&self) -> FileEntryV {
        FileEntryV {
            path: self.path@,
            kind: self.kind,
            original_hash: self.original_hash@,
            new_hash: self.new_hash@,
        }
    }
}

impl DeepView for FileEntry {
    type V = FileEntryV;

    open spec fn deep_view(&self) -> FileEntryV {
        self.view()
    }
}

impl View for PatchData {
    type V = PatchDataV;

    open spec fn view(&self) -> PatchDataV {
        match self {
            PatchData::Xdelta(b) => PatchDataV::Xdelta(b@),
            PatchData::Full(b) => PatchDataV::Full(b@),
        }
    }
}

impl DeepView for PatchData {
    type V = PatchDataV;

    open spec fn deep_view(&self) -> PatchDataV {
        self.view()
    }
}

impl View for Manifest {
    type V = ManifestV;

    open spec fn view(&self) -> ManifestV {
        ManifestV {
            product: self.product@,
            from_version: self.from_version@,
            to_version: self.to_version@,
            files: self.files.deep_view(),
        }
    }
}

impl View for PatchBundle {
    type V = PatchBundleV;

    open spec fn view(&self) -> PatchBundleV {
        PatchBundleV { manifest: self.manifest@, entries: self.entries.deep_view() }
    }
}

impl PatchDataV {
    pub open spec fn payload(self) -> Seq<u8> {
        match self {
            PatchDataV::Xdelta(b) => b,
            PatchDataV::Full(b) => b,
        }
    }
}

// ---------------------------------------------------------------------------
// Well-formedness
// ---------------------------------------------------------------------------

/// A digest is a 256-bit value.
pub open spec fn hash_wf(h: Seq<u8>) -> bool {
    h.len() == 32
}

/// The reserved all-zeros digest that marks an absent file.
pub open spec fn is_zero_hash(h: Seq<u8>) -> bool {
    forall|i: int| 0 <= i < h.len() ==> h[i] == 0u8
}

/// The hash-field discipline of one entry: which digest is the zero marker,
/// and how the two relate, follows the entry's kind.
pub open spec fn entry_hashes_wf(e: FileEntryV) -> bool {
    &&& hash_wf(e.original_hash)
    &&& hash_wf(e.new_hash)
    &&& match e.kind {
        PatchKind::Unchanged => {
            &&& !is_zero_hash(e.original_hash)
            &&& e.original_hash == e.new_hash
        },
        PatchKind::Patched { .. } => {
            &&& !is_zero_hash(e.original_hash)
            &&& !is_zero_hash(e.new_hash)
            &&& e.original_hash != e.new_hash
        },
        PatchKind::Added { .. } => {
            &&& is_zero_hash(e.original_hash)
            &&& !is_zero_hash(e.new_hash)
        },
        PatchKind::Deleted => {
            &&& !is_zero_hash(e.original_hash)
            &&& is_zero_hash(e.new_hash)
        },
    }
}

/// An entry's payload pointer is in bounds and the payload variant matches
/// the entry's kind: `Patched` points at a delta, `Added` at full contents.
pub open spec fn entry_payload_wf(e: FileEntryV, entries: Seq<PatchDataV>) -> bool {
    match e.kind {
        PatchKind::Unchanged => true,
        PatchKind::Patched { idx } => idx < entries.len() && entries[idx as int] is Xdelta,
        PatchKind::Added { idx } => idx < entries.len() && entries[idx as int] is Full,
        PatchKind::Deleted => true,
    }
}

/// No two manifest entries name the same path.
pub open spec fn entry_paths_unique(files: Seq<FileEntryV>) -> bool {
    forall|i: int, j: int| 0 <= i < j < files.len() ==> files[i].path != files[j].path
}

/// The structural invariant of a bundle: every payload pointer is in bounds
/// with the matching payload variant, and entry paths are unique.
pub open spec fn bundle_kinds_wf(b: PatchBundleV) -> bool {
    &&& forall|i: int| 0 <= i < b.manifest.files.len() ==> entry_payload_wf(
        #[trigger] b.manifest.files[i],
        b.entries,
    )
    &&& entry_paths_unique(b.manifest.files)
}

/// The full invariant of a bundle: structure plus the hash-field discipline
/// of every entry.
pub open spec fn bundle_wf(b: PatchBundleV) -> bool {
    &&& bundle_kinds_wf(b)
    &&& forall|i: int| 0 <= i < b.manifest.files.len() ==> entry_hashes_wf(
        #[trigger] b.manifest.files[i],
    )
}

// ---------------------------------------------------------------------------
// Executable checks
// ---------------------------------------------------------------------------

/// True iff a digest is the reserved all-zeros marker.
pub fn hash_is_zero(h: &[u8; 32]) -> (r: bool)
    ensures
        r == is_zero_hash(h@),
{
    let mut i: usize = 0;
    while i < 32
        invariant
            0 <= i <= 32,
            forall|j: int| 0 <= j < i ==> h@[j] == 0u8,
        decreases 32 - i,
    {
        if h[i] != 0 {
            return false;
        }
        i += 1;
    }
    true
}

/// True iff two digests hold the same bytes.
pub fn hash_eq(a: &[u8; 32], b: &[u8; 32]) -> (r: bool)
    ensures
        r == (a@ == b@),
{
    let mut i: usize = 0;
    while i < 32
        invariant
            0 <= i <= 32,
            forall|j: int| 0 <= j < i ==> a@[j] == b@[j],
        decreases 32 - i,
    {
        if a[i] != b[i] {
            assert(a@[i as int] != b@[i as int]);
            return false;
        }
        i += 1;
    }
    proof {
        assert(a@ =~= b@);
    }
    true
}

impl FileEntry {
    /// Checks the hash-field discipline of this entry.
    pub fn hashes_wf(&self) -> (r: bool)
        ensures
            r == entry_hashes_wf(self@),
    {
        let orig_zero = hash_is_zero(&self.original_hash);
        let new_zero = hash_is_zero(&self.new_hash);
        match self.kind {
            PatchKind::Unchanged => !orig_zero && hash_eq(&self.original_hash, &self.new_hash),
            PatchKind::Patched { .. } => !orig_zero && !new_zero && !hash_eq(
                &self.original_hash,
                &self.new_hash,
            ),
            PatchKind::Added { .. } => orig_zero && !new_zero,
            PatchKind::Deleted => !orig_zero && new_zero,
        }
    }

    /// Checks that this entry's payload pointer is in bounds with the
    /// matching payload variant.
    pub fn payload_wf(&self, entries: &Vec<PatchData>) -> (r: bool)
        ensures
            r == entry_payload_wf(self@, entries.deep_view()),
    {
        match self.kind {
            PatchKind::Unchanged => true,
            PatchKind::Patched { idx } => idx < entries.len() && (match &entries[idx] {
                PatchData::Xdelta(_) => true,
                _ => false,
            }),
            PatchKind::Added { idx } => idx < entries.len() && (match &entries[idx] {
                PatchData::Full(_) => true,
                _ => false,
            }),
            PatchKind::Deleted => true,
        }
    }
}

impl PatchBundle {
    /// Checks the full bundle invariant: payload structure, hash-field
    /// discipline, and path uniqueness.
    #[verifier::loop_isolation(false)]
    pub fn is_wf(&self) -> (r: bool)
        ensures
            r == bundle_wf(self@),
    {
        let files = &self.manifest.files;
        let n = files.len();
        proof {
            assert(self@.manifest.files == files.deep_view());
            assert(files.deep_view().len() == files@.len());
        }
        let mut i: usize = 0;
        while i < n
            invariant
                0 <= i <= n,
                n == files.len(),
                forall|k: int| 0 <= k < i ==> entry_payload_wf(
                    #[trigger] files.deep_view()[k],
                    self.entries.deep_view(),
                ),
                forall|k: int| 0 <= k < i ==> entry_hashes_wf(#[trigger] files.deep_view()[k]),
                forall|k: int, l: int| 0 <= k < l < i ==> files.deep_view()[k].path
                    != files.deep_view()[l].path,
            decreases n - i,
        {
            proof {
                assert(files.deep_view()[i as int] == files@[i as int]@);
            }
            if !files[i].hashes_wf() {
                proof {
                    assert(!entry_hashes_wf(self@.manifest.files[i as int]));
                }
                return false;
            }
            if !files[i].payload_wf(&self.entries) {
                proof {
                    assert(!entry_payload_wf(self@.manifest.files[i as int], self@.entries));
                }
                return false;
            }
            let mut j: usize = 0;
            while j < i
                invariant
                    0 <= j <= i < n,
                    n == files.len(),
                    forall|k: int| 0 <= k < j ==> files.deep_view()[k].path
                        != files.deep_view()[i as int].path,
                decreases i - j,
            {
                if files[j].path == files[i].path {
                    proof {
                        assert(files.deep_view()[j as int] == files@[j as int]@);
                        assert(self@.manifest.files[j as int].path == self@.manifest.files[
                            i as int
                        ].path);
                        assert(!entry_paths_unique(self@.manifest.files));
                    }
                    return false;
                }
                j += 1;
            }
            i += 1;
        }
        true
    }
}

} // verus!
