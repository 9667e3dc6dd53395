//! The checksum oracle: metadata enumeration and content checksums for one
//! directory tree.
//!
//! `Server` is the capability set the match resolver works against. The
//! in-memory implementation holds its tree as plain values and is verified
//! here; an implementation backed by a real filesystem or by a peer process
//! supplies the same contract from outside.

use vstd::prelude::*;

use crate::digest::{sha1_hex, sha1_hex_of};
use crate::meta::{
    build_index, idx_matches_tree, idx_wf, metadata_views, spec_build_index, BucketV, Metadata,
    MetadataIndex, MetadataV, SpecFile, TreeView,
};

verus! {

/// A path can travel over the wire protocol: its byte encoding holds neither
/// a NUL (the entry terminator) nor a newline (the command terminator).
pub open spec fn path_wire_safe(p: Seq<char>) -> bool {
    forall|i: int|
        0 <= i < vstd::utf8::encode_utf8(p).len() ==> #[trigger] vstd::utf8::encode_utf8(p)[i]
            != 0u8 && vstd::utf8::encode_utf8(p)[i] != 10u8
}

/// Whether a string's bytes make it safe to carry over the wire protocol.
pub fn check_wire_safe(s: &String) -> (r: bool)
    ensures
        r == path_wire_safe(s@),
{
    let bytes = s.as_str().as_bytes();
    let n = bytes.len();
    let mut i: usize = 0;
    while i < n
        invariant
            n == bytes@.len(),
            bytes@ == vstd::utf8::encode_utf8(s@),
            0 <= i <= n,
            forall|j: int| 0 <= j < i ==> #[trigger] bytes@[j] != 0u8 && bytes@[j] != 10u8,
        decreases n - i,
    {
        let b = bytes[i];
        if b == 0 || b == 10 {
            return false;
        }
        i = i + 1;
    }
    true
}

/// One file of an in-memory tree.
pub struct FileEntry {
    pub path: String,
    pub size: u64,
    pub modified: u64,
    pub content: Vec<u8>,
}

/// Mathematical image of `FileEntry`.
#[verifier::ext_equal]
pub ghost struct FileEntryV {
    pub path: Seq<char>,
    pub size: u64,
    pub modified: u64,
    pub content: Seq<u8>,
}

impl View for FileEntry {
    type V = FileEntryV;

    open spec fn view(&self) -> FileEntryV {
        FileEntryV {
            path: self.path@,
            size: self.size,
            modified: self.modified,
            content: self.content@,
        }
    }
}

/// The file a tree holds for an entry.
pub open spec fn spec_file_of(f: FileEntryV) -> SpecFile {
    SpecFile { size: f.size, modified: f.modified, content: f.content }
}

/// The tree that a sequence of entries describes. A later entry for the same
/// path would win, but well-formed servers never hold two entries for one
/// path.
pub open spec fn tree_of(files: Seq<FileEntryV>) -> TreeView
    decreases files.len(),
{
    if files.len() == 0 {
        Map::empty()
    } else {
        tree_of(files.drop_last()).insert(files.last().path, spec_file_of(files.last()))
    }
}

/// Views of a sequence of file entries.
pub open spec fn file_views(files: Seq<FileEntry>) -> Seq<FileEntryV> {
    files.map_values(|f: FileEntry| f@)
}

/// With pairwise distinct paths, the tree of a sequence of entries holds
/// exactly those entries.
pub proof fn lemma_tree_of(files: Seq<FileEntryV>)
    requires
        forall|a: int, b: int|
            #![trigger files[a], files[b]]
            0 <= a < b < files.len() ==> files[a].path != files[b].path,
    ensures
        forall|p: Seq<char>| #[trigger]
            tree_of(files).contains_key(p) ==> exists|j: int|
                0 <= j < files.len() && files[j].path == p,
        forall|j: int|
            0 <= j < files.len() ==> tree_of(files).contains_key(#[trigger] files[j].path)
                && tree_of(files)[files[j].path] == spec_file_of(files[j]),
    decreases files.len(),
{
    if files.len() == 0 {
        return;
    }
    let prev = files.drop_last();
    let last = files.last();
    lemma_tree_of(prev);
    assert forall|p: Seq<char>| #[trigger] tree_of(files).contains_key(p) implies exists|j: int|
        0 <= j < files.len() && files[j].path == p by {
        if p == last.path {
            assert(files[files.len() - 1].path == p);
        } else {
            assert(tree_of(prev).contains_key(p));
            let j = choose|j: int| 0 <= j < prev.len() && prev[j].path == p;
            assert(files[j] == prev[j]);
            assert(files[j].path == p);
        }
    }
    assert forall|j: int| 0 <= j < files.len() implies tree_of(files).contains_key(
        #[trigger] files[j].path,
    ) && tree_of(files)[files[j].path] == spec_file_of(files[j]) by {
        if j < files.len() - 1 {
            assert(prev[j] == files[j]);
            assert(files[j].path != last.path);
        }
    }
}

/// The oracle for one directory tree: enumerate its files' metadata, compute
/// one file's content checksum, shut down. The spec-level `tree` is the
/// oracle's view of the filesystem it serves; no call changes it.
pub trait Server: Sized {
    /// The tree this oracle serves. An implementation outside this crate
    /// leaves the default, an empty tree: nothing is then promised of it.
    open spec fn tree(&self) -> TreeView {
        Map::empty()
    }

    /// The oracle is in a usable state. An implementation outside this
    /// crate leaves the default.
    open spec fn wf(&self) -> bool {
        true
    }

    /// The metadata index of the whole tree, grouped by fingerprint. Bucket
    /// and path order are the oracle's discovery order.
    fn get_metadata(&mut self) -> (idx: MetadataIndex)
        requires
            old(self).wf(),
        ensures
            final(self).wf(),
            final(self).tree() == old(self).tree(),
            idx_wf(idx@),
            idx_matches_tree(idx@, old(self).tree()),
    ;

    /// The content checksum of one file, or `None` when the tree holds no
    /// file at the path. A checksum can never silently cover less than the
    /// file's whole content.
    fn get_checksum(&mut self, file_path: &String) -> (r: Option<String>)
        requires
            old(self).wf(),
        ensures
            final(self).wf(),
            final(self).tree() == old(self).tree(),
            match r {
                Some(d) => old(self).tree().contains_key(file_path@) && d@ == sha1_hex_of(
                    old(self).tree()[file_path@].content,
                ) && crate::digest::digest_wf(d@),
                None => !old(self).tree().contains_key(file_path@),
            },
    ;

    /// Release whatever the oracle holds.
    fn exit(&mut self)
        requires
            old(self).wf(),
        ensures
            final(self).wf(),
            final(self).tree() == old(self).tree(),
    ;
}

/// An oracle over a tree held in memory.
pub struct InMemoryServer {
    pub files: Vec<FileEntry>,
}

impl InMemoryServer {
    /// Entries have pairwise distinct paths, wire-safe path bytes, and sizes
    /// that state their contents' lengths.
    pub open spec fn entries_wf(&self) -> bool {
        &&& forall|a: int, b: int|
            #![trigger self.files@[a], self.files@[b]]
            0 <= a < b < self.files@.len() ==> self.files@[a].path@ != self.files@[b].path@
        &&& forall|j: int|
            0 <= j < self.files@.len() ==> (#[trigger] self.files@[j]).size
                == self.files@[j].content@.len() && path_wire_safe(self.files@[j].path@)
    }

    /// An oracle over an empty tree.
    pub fn new() -> (r: InMemoryServer)
        ensures
            r.wf(),
            r.tree() == Map::<Seq<char>, SpecFile>::empty(),
            r.files@.len() == 0,
    {
        InMemoryServer { files: Vec::new() }
    }

    /// Whether some entry already claims the path.
    fn holds_path(&self, path: &String) -> (r: bool)
        ensures
            r == exists|j: int|
                0 <= j < self.files@.len() && (#[trigger] self.files@[j]).path@ == path@,
    {
        let n = self.files.len();
        let mut i: usize = 0;
        while i < n
            invariant
                n == self.files@.len(),
                0 <= i <= n,
                forall|j: int| 0 <= j < i ==> (#[trigger] self.files@[j]).path@ != path@,
            decreases n - i,
        {
            if self.files[i].path == *path {
                return true;
            }
            i = i + 1;
        }
        false
    }

    /// Place a file into the tree. Succeeds exactly when the path is still
    /// free and its bytes can travel over the wire protocol; the entry's size
    /// is its content's length, as a scan of a real tree would report it.
    pub fn add_file(&mut self, path: String, modified: u64, content: Vec<u8>) -> (r: bool)
        requires
            old(self).wf(),
        ensures
            final(self).wf(),
            r == (!old(self).tree().contains_key(path@) && path_wire_safe(path@)),
            r ==> final(self).tree() == old(self).tree().insert(
                path@,
                SpecFile { size: content@.len() as u64, modified, content: content@ },
            ),
            !r ==> *final(self) == *old(self),
    {
        proof {
            lemma_tree_of(file_views(self.files@));
        }
        if !check_wire_safe(&path) {
            proof {
                assert(!path_wire_safe(path@));
            }
            return false;
        }
        if self.holds_path(&path) {
            proof {
                let j = choose|j: int|
                    0 <= j < self.files@.len() && (#[trigger] self.files@[j]).path@ == path@;
                assert(file_views(self.files@)[j].path == path@);
                assert(self.tree().contains_key(path@));
            }
            return false;
        }
        proof {
            if self.tree().contains_key(path@) {
                let j = choose|j: int|
                    0 <= j < file_views(self.files@).len() && file_views(self.files@)[j].path
                        == path@;
                assert(self.files@[j].path@ == path@);
            }
        }
        let size = content.len() as u64;
        let ghost pre = self.files@;
        self.files.push(FileEntry { path, size, modified, content });
        proof {
            assert(file_views(self.files@).drop_last() =~= file_views(pre));
            assert forall|a: int, b: int|
                #![trigger self.files@[a], self.files@[b]]
                0 <= a < b < self.files@.len() implies self.files@[a].path@
                != self.files@[b].path@ by {
                if b == self.files@.len() - 1 {
                    assert(pre[a] == self.files@[a]);
                }
            }
        }
        true
    }
}

impl Server for InMemoryServer {
    open spec fn tree(&self) -> TreeView {
        tree_of(file_views(self.files@))
    }

    open spec fn wf(&self) -> bool {
        self.entries_wf()
    }

    fn get_metadata(&mut self) -> (idx: MetadataIndex) {
        let mut items: Vec<Metadata> = Vec::new();
        let n = self.files.len();
        let mut i: usize = 0;
        while i < n
            invariant
                n == self.files@.len(),
                0 <= i <= n,
                items@.len() == i,
                forall|j: int|
                    0 <= j < i ==> (#[trigger] items@[j])@ == (MetadataV {
                        path: self.files@[j].path@,
                        size: self.files@[j].size,
                        modified: self.files@[j].modified,
                    }),
            decreases n - i,
        {
            let f = &self.files[i];
            items.push(Metadata { path: f.path.clone(), size: f.size, modified: f.modified });
            i = i + 1;
        }
        let idx = build_index(&items);
        proof {
            let fv = file_views(self.files@);
            let mv = metadata_views(items@);
            lemma_tree_of(fv);
            lemma_build_index_ok_bridge(mv, fv);
            assert(idx@ == spec_build_index(mv));
        }
        idx
    }

    fn get_checksum(&mut self, file_path: &String) -> (r: Option<String>) {
        proof {
            lemma_tree_of(file_views(self.files@));
        }
        let n = self.files.len();
        let mut i: usize = 0;
        while i < n
            invariant
                self.wf(),
                n == self.files@.len(),
                0 <= i <= n,
                forall|j: int| 0 <= j < i ==> (#[trigger] self.files@[j]).path@ != file_path@,
            decreases n - i,
        {
            if self.files[i].path == *file_path {
                let d = sha1_hex(self.files[i].content.as_slice());
                proof {
                    lemma_tree_of(file_views(self.files@));
                    assert(file_views(self.files@)[i as int].path == file_path@);
                    let fv = file_views(self.files@);
                    assert(self.tree()[file_path@] == spec_file_of(fv[i as int]));
                }
                return Some(d);
            }
            i = i + 1;
        }
        proof {
            if self.tree().contains_key(file_path@) {
                let j = choose|j: int|
                    0 <= j < file_views(self.files@).len() && file_views(self.files@)[j].path
                        == file_path@;
                assert(self.files@[j].path@ == file_path@);
            }
        }
        None
    }

    fn exit(&mut self) {
    }
}

/// Bridge between the index a scan builds and the tree the entries form:
/// with distinct paths, the built index is well-formed and describes the
/// tree.
proof fn lemma_build_index_ok_bridge(mv: Seq<MetadataV>, fv: Seq<FileEntryV>)
    requires
        mv.len() == fv.len(),
        forall|j: int|
            0 <= j < mv.len() ==> #[trigger] mv[j] == (MetadataV {
                path: fv[j].path,
                size: fv[j].size,
                modified: fv[j].modified,
            }),
        forall|a: int, b: int|
            #![trigger fv[a], fv[b]]
            0 <= a < b < fv.len() ==> fv[a].path != fv[b].path,
    ensures
        idx_wf(spec_build_index(mv)),
        idx_matches_tree(spec_build_index(mv), tree_of(fv)),
{
    lemma_tree_of(fv);
    let tree = tree_of(fv);
    assert forall|a: int, b: int|
        #![trigger mv[a], mv[b]]
        0 <= a < b < mv.len() implies mv[a].path != mv[b].path by {
        assert(fv[a].path != fv[b].path);
    }
    assert forall|j: int|
        0 <= j < mv.len() implies tree.contains_key((#[trigger] mv[j]).path)
        && tree[mv[j].path].size == mv[j].size && tree[mv[j].path].modified == mv[j].modified by {
        assert(tree[fv[j].path] == spec_file_of(fv[j]));
    }
    assert forall|p: Seq<char>| #[trigger] tree.contains_key(p) implies (exists|j: int|
        0 <= j < mv.len() && mv[j].path == p) by {
        let j = choose|j: int| 0 <= j < fv.len() && fv[j].path == p;
        assert(mv[j].path == p);
    }
    crate::meta::lemma_build_matches_tree(mv, tree);
}

} // verus!
