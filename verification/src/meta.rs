//! File metadata and the fingerprint index.
//!
//! A fingerprint is the pair (size, modification time). The index groups a
//! tree's relative file paths by fingerprint, in discovery order, and is the
//! only per-tree data the match resolver consumes besides on-demand
//! checksums.

use vstd::prelude::*;

verus! {

/// One scanned file: its tree-relative path, byte size and modification time.
#[derive(Debug)]
pub struct Metadata {
    pub path: String,
    pub size: u64,
    pub modified: u64,
}

/// Mathematical image of `Metadata`.
#[verifier::ext_equal]
pub ghost struct MetadataV {
    pub path: Seq<char>,
    pub size: u64,
    pub modified: u64,
}

impl View for Metadata {
    type V = MetadataV;

    open spec fn view(&self) -> MetadataV {
        MetadataV { path: self.path@, size: self.size, modified: self.modified }
    }
}

/// Mathematical image of one file held by a tree: its fingerprint fields and
/// its content bytes.
#[verifier::ext_equal]
pub ghost struct SpecFile {
    pub size: u64,
    pub modified: u64,
    pub content: Seq<u8>,
}

/// A directory tree as the specifications see it: a finite map from relative
/// path to file.
pub type TreeView = Map<Seq<char>, SpecFile>;

/// All paths of one fingerprint, in discovery order.
pub struct Bucket {
    pub size: u64,
    pub modified: u64,
    pub paths: Vec<String>,
}

/// Mathematical image of `Bucket`.
#[verifier::ext_equal]
pub ghost struct BucketV {
    pub size: u64,
    pub modified: u64,
    pub paths: Seq<Seq<char>>,
}

/// Views of a sequence of strings.
pub open spec fn string_views(s: Seq<String>) -> Seq<Seq<char>> {
    s.map_values(|p: String| p@)
}

impl View for Bucket {
    type V = BucketV;

    open spec fn view(&self) -> BucketV {
        BucketV { size: self.size, modified: self.modified, paths: string_views(self.paths@) }
    }
}

/// The metadata index of one tree: every scanned file's path, grouped by
/// fingerprint. Bucket order and path order within a bucket are the scan's
/// discovery order.
pub struct MetadataIndex {
    pub buckets: Vec<Bucket>,
}

impl View for MetadataIndex {
    type V = Seq<BucketV>;

    open spec fn view(&self) -> Seq<BucketV> {
        self.buckets@.map_values(|b: Bucket| b@)
    }
}

/// Position of the bucket with the given fingerprint: the least matching
/// index, or -1 when no bucket matches.
pub open spec fn bucket_pos(idx: Seq<BucketV>, size: u64, modified: u64) -> int
    decreases idx.len(),
{
    if idx.len() == 0 {
        -1
    } else if idx[0].size == size && idx[0].modified == modified {
        0
    } else {
        let r = bucket_pos(idx.skip(1), size, modified);
        if r < 0 {
            -1
        } else {
            r + 1
        }
    }
}

/// `bucket_pos` finds the least index whose bucket carries the fingerprint,
/// and -1 exactly when no bucket does.
pub proof fn lemma_bucket_pos(idx: Seq<BucketV>, size: u64, modified: u64)
    ensures
        bucket_pos(idx, size, modified) >= 0 ==> {
            let p = bucket_pos(idx, size, modified);
            &&& p < idx.len()
            &&& idx[p].size == size
            &&& idx[p].modified == modified
            &&& forall|j: int|
                #![trigger idx[j]]
                0 <= j < p ==> !(idx[j].size == size && idx[j].modified == modified)
        },
        bucket_pos(idx, size, modified) < 0 ==> forall|j: int|
            #![trigger idx[j]]
            0 <= j < idx.len() ==> !(idx[j].size == size && idx[j].modified == modified),
    decreases idx.len(),
{
    if idx.len() != 0 {
        if !(idx[0].size == size && idx[0].modified == modified) {
            lemma_bucket_pos(idx.skip(1), size, modified);
            assert(forall|j: int| 1 <= j < idx.len() ==> idx[j] == idx.skip(1)[j - 1]);
        }
    }
}

/// The index after one file is recorded: its path joins the bucket of its
/// fingerprint, or starts a new final bucket.
pub open spec fn spec_insert(idx: Seq<BucketV>, m: MetadataV) -> Seq<BucketV> {
    let p = bucket_pos(idx, m.size, m.modified);
    if p < 0 {
        idx.push(BucketV { size: m.size, modified: m.modified, paths: seq![m.path] })
    } else {
        idx.update(p, BucketV { size: m.size, modified: m.modified, paths: idx[p].paths.push(m.path) })
    }
}

/// The index that recording a sequence of scanned files in order produces.
pub open spec fn spec_build_index(items: Seq<MetadataV>) -> Seq<BucketV>
    decreases items.len(),
{
    if items.len() == 0 {
        Seq::empty()
    } else {
        spec_insert(spec_build_index(items.drop_last()), items.last())
    }
}

/// The path stands somewhere in the index.
pub open spec fn path_in_index(idx: Seq<BucketV>, p: Seq<char>) -> bool {
    exists|i: int, k: int|
        0 <= i < idx.len() && 0 <= k < idx[i].paths.len() && #[trigger] idx[i].paths[k] == p
}

/// A well-formed index: no two buckets share a fingerprint, and no path
/// occurs twice.
pub open spec fn idx_wf(idx: Seq<BucketV>) -> bool {
    &&& forall|i: int, j: int|
        #![trigger idx[i], idx[j]]
        0 <= i < idx.len() && 0 <= j < idx.len() && i != j ==> !(idx[i].size == idx[j].size
            && idx[i].modified == idx[j].modified)
    &&& forall|i: int, k: int, j: int, l: int|
        #![trigger idx[i].paths[k], idx[j].paths[l]]
        0 <= i < idx.len() && 0 <= k < idx[i].paths.len() && 0 <= j < idx.len() && 0 <= l
            < idx[j].paths.len() && (i != j || k != l) ==> idx[i].paths[k] != idx[j].paths[l]
}

/// The index describes exactly the tree: every listed path is a file of the
/// tree carrying the bucket's fingerprint, and every file of the tree is
/// listed.
pub open spec fn idx_matches_tree(idx: Seq<BucketV>, tree: TreeView) -> bool {
    &&& forall|i: int, k: int|
        0 <= i < idx.len() && 0 <= k < idx[i].paths.len() ==> {
            let p = #[trigger] idx[i].paths[k];
            &&& tree.contains_key(p)
            &&& tree[p].size == idx[i].size
            &&& tree[p].modified == idx[i].modified
        }
    &&& forall|p: Seq<char>| #[trigger] tree.contains_key(p) ==> path_in_index(idx, p)
}

impl MetadataIndex {
    /// An index with no files.
    pub fn new() -> (r: MetadataIndex)
        ensures
            r@ == Seq::<BucketV>::empty(),
    {
        let r = MetadataIndex { buckets: Vec::new() };
        proof {
            assert(r@ =~= Seq::<BucketV>::empty());
        }
        r
    }

    /// Record one scanned file.
    pub fn insert(&mut self, path: String, size: u64, modified: u64)
        ensures
            final(self)@ == spec_insert(
                old(self)@,
                MetadataV { path: path@, size, modified },
            ),
    {
        let ghost orig = self@;
        let n = self.buckets.len();
        let mut i: usize = 0;
        while i < n
            invariant
                n == self.buckets.len(),
                0 <= i <= n,
                self@ == orig,
                orig == old(self)@,
                forall|j: int|
                    #![trigger orig[j]]
                    0 <= j < i ==> !(orig[j].size == size && orig[j].modified == modified),
            decreases n - i,
        {
            if self.buckets[i].size == size && self.buckets[i].modified == modified {
                proof {
                    lemma_bucket_pos(orig, size, modified);
                    assert(orig[i as int].size == size && orig[i as int].modified == modified);
                    assert(bucket_pos(orig, size, modified) == i as int);
                }
                self.buckets[i].paths.push(path);
                proof {
                    assert(self@ =~~= spec_insert(orig, MetadataV { path: path@, size, modified }));
                }
                return;
            }
            i = i + 1;
        }
        proof {
            lemma_bucket_pos(orig, size, modified);
        }
        let mut paths: Vec<String> = Vec::new();
        paths.push(path);
        self.buckets.push(Bucket { size, modified, paths });
        proof {
            assert(self@ =~~= spec_insert(orig, MetadataV { path: path@, size, modified }));
        }
    }

    /// Position of the bucket with this fingerprint, if one exists.
    pub fn find_bucket(&self, size: u64, modified: u64) -> (r: Option<usize>)
        ensures
            match r {
                Some(i) => i as int == bucket_pos(self@, size, modified),
                None => bucket_pos(self@, size, modified) < 0,
            },
    {
        let n = self.buckets.len();
        let mut i: usize = 0;
        while i < n
            invariant
                n == self.buckets.len(),
                0 <= i <= n,
                forall|j: int|
                    #![trigger self@[j]]
                    0 <= j < i ==> !(self@[j].size == size && self@[j].modified == modified),
            decreases n - i,
        {
            if self.buckets[i].size == size && self.buckets[i].modified == modified {
                proof {
                    assert(self@[i as int].size == size && self@[i as int].modified == modified);
                    lemma_bucket_pos(self@, size, modified);
                }
                return Some(i);
            }
            i = i + 1;
        }
        proof {
            lemma_bucket_pos(self@, size, modified);
        }
        None
    }

    /// Whether some bucket lists this path.
    pub fn contains_path(&self, path: &String) -> (r: bool)
        ensures
            r == path_in_index(self@, path@),
    {
        let n = self.buckets.len();
        let mut i: usize = 0;
        while i < n
            invariant
                n == self.buckets.len(),
                0 <= i <= n,
                forall|ii: int, k: int|
                    0 <= ii < i && 0 <= k < self@[ii].paths.len() ==> #[trigger] self@[ii].paths[k]
                        != path@,
            decreases n - i,
        {
            let m = self.buckets[i].paths.len();
            let mut k: usize = 0;
            while k < m
                invariant
                    n == self.buckets.len(),
                    0 <= i < n,
                    m == self.buckets[i as int].paths.len(),
                    0 <= k <= m,
                    forall|ii: int, kk: int|
                        0 <= ii < i && 0 <= kk < self@[ii].paths.len() ==> #[trigger] self@[ii].paths[kk]
                            != path@,
                    forall|kk: int|
                        0 <= kk < k ==> #[trigger] self@[i as int].paths[kk] != path@,
                decreases m - k,
            {
                let candidate = &self.buckets[i].paths[k];
                let hit = *candidate == *path;
                proof {
                    assert(self@[i as int].paths[k as int] == candidate@);
                }
                if hit {
                    return true;
                }
                k = k + 1;
            }
            i = i + 1;
        }
        false
    }
}


/// An item of the scan, as the index built from the scan lists it: the
/// bucket's fingerprint together with one of its paths.
pub open spec fn indexed_item(idx: Seq<BucketV>, i: int, k: int) -> MetadataV {
    MetadataV { path: idx[i].paths[k], size: idx[i].size, modified: idx[i].modified }
}

/// Building an index from scan results with pairwise distinct paths yields a
/// well-formed index that lists exactly those results, each under its own
/// fingerprint.
pub proof fn lemma_build_index_ok(items: Seq<MetadataV>)
    requires
        forall|a: int, b: int|
            #![trigger items[a], items[b]]
            0 <= a < b < items.len() ==> items[a].path != items[b].path,
    ensures
        idx_wf(spec_build_index(items)),
        forall|i: int, k: int|
            #![trigger spec_build_index(items)[i].paths[k]]
            0 <= i < spec_build_index(items).len() && 0 <= k < spec_build_index(
                items,
            )[i].paths.len() ==> exists|j: int|
                0 <= j < items.len() && items[j] == indexed_item(spec_build_index(items), i, k),
        forall|j: int|
            0 <= j < items.len() ==> path_in_index(spec_build_index(items), #[trigger] items[j].path),
    decreases items.len(),
{
    if items.len() == 0 {
        return;
    }
    let prev = items.drop_last();
    let m = items.last();
    lemma_build_index_ok(prev);
    let idx = spec_build_index(prev);
    let idx2 = spec_build_index(items);
    assert(idx2 == spec_insert(idx, m));
    let p = bucket_pos(idx, m.size, m.modified);
    lemma_bucket_pos(idx, m.size, m.modified);

    // The new path stands nowhere in the old index.
    assert forall|i: int, k: int|
        #![trigger idx[i].paths[k]]
        0 <= i < idx.len() && 0 <= k < idx[i].paths.len() implies idx[i].paths[k] != m.path by {
        let j = choose|j: int|
            0 <= j < prev.len() && prev[j] == indexed_item(idx, i, k);
        assert(items[j] == prev[j]);
        assert(items[items.len() - 1] == m);
    }

    if p < 0 {
        let nb = BucketV { size: m.size, modified: m.modified, paths: seq![m.path] };
        assert(idx2 == idx.push(nb));
        assert(idx_wf(idx2));
        assert forall|i: int, k: int|
            #![trigger idx2[i].paths[k]]
            0 <= i < idx2.len() && 0 <= k < idx2[i].paths.len() implies exists|j: int|
            0 <= j < items.len() && items[j] == indexed_item(idx2, i, k) by {
            if i < idx.len() {
                assert(idx2[i] == idx[i]);
                let j = choose|j: int|
                    0 <= j < prev.len() && prev[j] == indexed_item(idx, i, k);
                assert(items[j] == indexed_item(idx2, i, k));
            } else {
                assert(i == idx.len() && k == 0);
                assert(items[items.len() - 1] == indexed_item(idx2, i, k));
            }
        }
        assert forall|j: int| 0 <= j < items.len() implies path_in_index(
            idx2,
            #[trigger] items[j].path,
        ) by {
            if j < prev.len() {
                let (i, k): (int, int) = choose|i: int, k: int|
                    0 <= i < idx.len() && 0 <= k < idx[i].paths.len() && #[trigger] idx[i].paths[k]
                        == prev[j].path;
                assert(idx2[i].paths[k] == items[j].path);
            } else {
                assert(idx2[idx.len() as int].paths[0] == items[j].path);
            }
        }
    } else {
        let ob = idx[p];
        let nb = BucketV { size: m.size, modified: m.modified, paths: ob.paths.push(m.path) };
        assert(idx2 == idx.update(p, nb));
        assert(nb.paths.len() == ob.paths.len() + 1);
        assert(forall|k: int| 0 <= k < ob.paths.len() ==> nb.paths[k] == ob.paths[k]);
        assert(nb.paths[ob.paths.len() as int] == m.path);
        assert forall|i: int, j: int|
            #![trigger idx2[i], idx2[j]]
            0 <= i < idx2.len() && 0 <= j < idx2.len() && i != j implies !(idx2[i].size
            == idx2[j].size && idx2[i].modified == idx2[j].modified) by {
            assert(idx2[i] == if i == p { nb } else { idx[i] });
            assert(idx2[j] == if j == p { nb } else { idx[j] });
            assert(nb.size == idx[p].size && nb.modified == idx[p].modified);
        }
        assert forall|i: int, k: int, j: int, l: int|
            #![trigger idx2[i].paths[k], idx2[j].paths[l]]
            0 <= i < idx2.len() && 0 <= k < idx2[i].paths.len() && 0 <= j < idx2.len() && 0 <= l
                < idx2[j].paths.len() && (i != j || k != l) implies idx2[i].paths[k]
            != idx2[j].paths[l] by {
            if idx2[i].paths[k] == m.path && (i != p || k != ob.paths.len()) {
                assert(idx[i].paths[k] == m.path);
                assert(false);
            }
            if idx2[j].paths[l] == m.path && (j != p || l != ob.paths.len()) {
                assert(idx[j].paths[l] == m.path);
                assert(false);
            }
            if (i != p || k != ob.paths.len()) && (j != p || l != ob.paths.len()) {
                assert(idx2[i].paths[k] == idx[i].paths[k]);
                assert(idx2[j].paths[l] == idx[j].paths[l]);
            }
        }
        assert(idx_wf(idx2));
        assert forall|i: int, k: int|
            #![trigger idx2[i].paths[k]]
            0 <= i < idx2.len() && 0 <= k < idx2[i].paths.len() implies exists|j: int|
            0 <= j < items.len() && items[j] == indexed_item(idx2, i, k) by {
            if i == p && k == ob.paths.len() {
                assert(items[items.len() - 1] == indexed_item(idx2, i, k));
            } else {
                assert(idx2[i].paths[k] == idx[i].paths[k]);
                assert(idx2[i].size == idx[i].size && idx2[i].modified == idx[i].modified);
                let j = choose|j: int|
                    0 <= j < prev.len() && prev[j] == indexed_item(idx, i, k);
                assert(items[j] == indexed_item(idx2, i, k));
            }
        }
        assert forall|j: int| 0 <= j < items.len() implies path_in_index(
            idx2,
            #[trigger] items[j].path,
        ) by {
            if j < prev.len() {
                let (i, k): (int, int) = choose|i: int, k: int|
                    0 <= i < idx.len() && 0 <= k < idx[i].paths.len() && #[trigger] idx[i].paths[k]
                        == prev[j].path;
                assert(idx2[i].paths.len() >= idx[i].paths.len());
                assert(idx2[i].paths[k] == items[j].path);
            } else {
                assert(idx2[p].paths[ob.paths.len() as int] == items[j].path);
            }
        }
    }
}

/// In an index that describes a tree, a path stands in the index exactly
/// when the tree holds it.
pub proof fn lemma_path_in_index_iff(idx: Seq<BucketV>, tree: TreeView, p: Seq<char>)
    requires
        idx_matches_tree(idx, tree),
    ensures
        path_in_index(idx, p) <==> tree.contains_key(p),
{
    if path_in_index(idx, p) {
        let (i, k): (int, int) = choose|i: int, k: int|
            0 <= i < idx.len() && 0 <= k < idx[i].paths.len() && #[trigger] idx[i].paths[k] == p;
        assert(tree.contains_key(idx[i].paths[k]));
    }
}

/// Sequence of views of a metadata sequence.
pub open spec fn metadata_views(items: Seq<Metadata>) -> Seq<MetadataV> {
    items.map_values(|m: Metadata| m@)
}

/// Group a scan's results by fingerprint, in the order they arrive.
pub fn build_index(items: &Vec<Metadata>) -> (idx: MetadataIndex)
    ensures
        idx@ == spec_build_index(metadata_views(items@)),
{
    let mut idx = MetadataIndex::new();
    let n = items.len();
    let mut i: usize = 0;
    proof {
        assert(metadata_views(items@.take(0)) =~= Seq::<MetadataV>::empty());
    }
    while i < n
        invariant
            n == items.len(),
            0 <= i <= n,
            idx@ == spec_build_index(metadata_views(items@.take(i as int))),
        decreases n - i,
    {
        let m = &items[i];
        idx.insert(m.path.clone(), m.size, m.modified);
        proof {
            let prev = metadata_views(items@.take(i as int));
            let cur = metadata_views(items@.take(i + 1));
            assert(cur.drop_last() =~= prev);
            assert(cur.last() == items@[i as int]@);
        }
        i = i + 1;
    }
    proof {
        assert(items@.take(n as int) =~= items@);
    }
    idx
}


/// With pairwise distinct paths, scan results whose files a tree holds
/// exactly build a well-formed index that describes that tree.
pub proof fn lemma_build_matches_tree(items: Seq<MetadataV>, tree: TreeView)
    requires
        forall|a: int, b: int|
            #![trigger items[a], items[b]]
            0 <= a < b < items.len() ==> items[a].path != items[b].path,
        forall|j: int|
            0 <= j < items.len() ==> tree.contains_key((#[trigger] items[j]).path)
                && tree[items[j].path].size == items[j].size && tree[items[j].path].modified
                == items[j].modified,
        forall|p: Seq<char>| #[trigger]
            tree.contains_key(p) ==> exists|j: int| 0 <= j < items.len() && items[j].path == p,
    ensures
        idx_wf(spec_build_index(items)),
        idx_matches_tree(spec_build_index(items), tree),
{
    lemma_build_index_ok(items);
    let idx = spec_build_index(items);
    assert forall|i: int, k: int|
        #![trigger idx[i].paths[k]]
        0 <= i < idx.len() && 0 <= k < idx[i].paths.len() implies ({
        let p = idx[i].paths[k];
        &&& tree.contains_key(p)
        &&& tree[p].size == idx[i].size
        &&& tree[p].modified == idx[i].modified
    }) by {
        let j = choose|j: int| 0 <= j < items.len() && items[j] == indexed_item(idx, i, k);
        assert(tree.contains_key(items[j].path));
    }
    assert forall|p: Seq<char>| #[trigger] tree.contains_key(p) implies (path_in_index(
        idx,
        p,
    )) by {
        let j = choose|j: int| 0 <= j < items.len() && items[j].path == p;
        assert(path_in_index(idx, items[j].path));
    }
}

/// The files of one bucket, as scan items.
pub open spec fn bucket_items(b: BucketV) -> Seq<MetadataV> {
    Seq::new(b.paths.len(), |k: int| MetadataV { path: b.paths[k], size: b.size, modified: b.modified })
}

/// The index as one flat list of scan items, bucket by bucket.
pub open spec fn flatten_index(idx: Seq<BucketV>) -> Seq<MetadataV>
    decreases idx.len(),
{
    if idx.len() == 0 {
        Seq::empty()
    } else {
        bucket_items(idx[0]) + flatten_index(idx.skip(1))
    }
}

/// One more bucket extends the flat list by that bucket's items.
pub proof fn lemma_flatten_take_snoc(idx: Seq<BucketV>, i: int)
    requires
        0 <= i < idx.len(),
    ensures
        flatten_index(idx.take(i + 1)) == flatten_index(idx.take(i)) + bucket_items(idx[i]),
    decreases i,
{
    if i == 0 {
        assert(idx.take(1)[0] == idx[0]);
        assert(idx.take(1).skip(1) =~= Seq::<BucketV>::empty());
        assert(flatten_index(Seq::<BucketV>::empty()) =~= Seq::<MetadataV>::empty());
        assert(flatten_index(idx.take(0)) =~= Seq::<MetadataV>::empty());
        assert(flatten_index(idx.take(1)) == bucket_items(idx.take(1)[0]) + flatten_index(
            idx.take(1).skip(1),
        ));
        assert(flatten_index(idx.take(1)) =~= bucket_items(idx[0]));
        assert(flatten_index(idx.take(0)) + bucket_items(idx[0]) =~= bucket_items(idx[0]));
    } else {
        lemma_flatten_take_snoc(idx.skip(1), i - 1);
        assert(idx.take(i + 1)[0] == idx[0]);
        assert(idx.take(i + 1).skip(1) =~= idx.skip(1).take(i));
        assert(idx.take(i)[0] == idx[0]);
        assert(idx.take(i).skip(1) =~= idx.skip(1).take(i - 1));
        assert(idx.skip(1)[i - 1] == idx[i]);
        assert(flatten_index(idx.take(i + 1)) == bucket_items(idx[0]) + flatten_index(
            idx.skip(1).take(i),
        ));
        assert(flatten_index(idx.take(i)) == bucket_items(idx[0]) + flatten_index(
            idx.skip(1).take(i - 1),
        ));
        assert(bucket_items(idx[0]) + (flatten_index(idx.skip(1).take(i - 1)) + bucket_items(
            idx[i],
        )) =~= (bucket_items(idx[0]) + flatten_index(idx.skip(1).take(i - 1))) + bucket_items(
            idx[i],
        ));
    }
}

/// Some bucket of the index lists this file under its fingerprint.
pub open spec fn index_lists(idx: Seq<BucketV>, m: MetadataV) -> bool {
    exists|i: int, k: int|
        0 <= i < idx.len() && 0 <= k < idx[i].paths.len() && #[trigger] indexed_item(idx, i, k)
            == m
}

/// The flat list holds exactly the index's files, and, for a well-formed
/// index, no path twice.
pub proof fn lemma_flatten_index(idx: Seq<BucketV>)
    requires
        idx_wf(idx),
    ensures
        forall|j: int|
            0 <= j < flatten_index(idx).len() ==> index_lists(idx, #[trigger] flatten_index(idx)[j]),
        forall|i: int, k: int|
            0 <= i < idx.len() && 0 <= k < idx[i].paths.len() ==> flatten_index(idx).contains(
                #[trigger] indexed_item(idx, i, k),
            ),
        forall|a: int, b: int|
            #![trigger flatten_index(idx)[a], flatten_index(idx)[b]]
            0 <= a < b < flatten_index(idx).len() ==> flatten_index(idx)[a].path != flatten_index(
                idx,
            )[b].path,
    decreases idx.len(),
{
    if idx.len() == 0 {
        assert(flatten_index(idx) =~= Seq::<MetadataV>::empty());
        return;
    }
    let rest = idx.skip(1);
    let b0 = bucket_items(idx[0]);
    assert(flatten_index(idx) == b0 + flatten_index(rest));
    assert forall|a: int, b: int|
        #![trigger rest[a], rest[b]]
        0 <= a < b < rest.len() implies !(rest[a].size == rest[b].size && rest[a].modified
        == rest[b].modified) by {
        assert(rest[a] == idx[a + 1] && rest[b] == idx[b + 1]);
    }
    assert forall|i: int, k: int, j: int, l: int|
        #![trigger rest[i].paths[k], rest[j].paths[l]]
        0 <= i < rest.len() && 0 <= k < rest[i].paths.len() && 0 <= j < rest.len() && 0 <= l
            < rest[j].paths.len() && (i != j || k != l) implies rest[i].paths[k]
        != rest[j].paths[l] by {
        assert(rest[i] == idx[i + 1] && rest[j] == idx[j + 1]);
        assert(idx[i + 1].paths[k] != idx[j + 1].paths[l]);
    }
    lemma_flatten_index(rest);
    assert forall|j: int| 0 <= j < flatten_index(idx).len() implies index_lists(
        idx,
        #[trigger] flatten_index(idx)[j],
    ) by {
        if j < b0.len() {
            assert(flatten_index(idx)[j] == b0[j]);
            assert(indexed_item(idx, 0, j) == flatten_index(idx)[j]);
        } else {
            let t = j - b0.len();
            assert(flatten_index(idx)[j] == flatten_index(rest)[t]);
            assert(index_lists(rest, flatten_index(rest)[t]));
            let (i2, k2): (int, int) = choose|i2: int, k2: int|
                0 <= i2 < rest.len() && 0 <= k2 < rest[i2].paths.len() && #[trigger] indexed_item(
                    rest,
                    i2,
                    k2,
                ) == flatten_index(rest)[t];
            assert(rest[i2] == idx[i2 + 1]);
            assert(indexed_item(idx, i2 + 1, k2) == flatten_index(idx)[j]);
        }
    }
    assert forall|i: int, k: int|
        0 <= i < idx.len() && 0 <= k < idx[i].paths.len() implies flatten_index(idx).contains(
            #[trigger] indexed_item(idx, i, k),
        ) by {
        if i == 0 {
            assert(flatten_index(idx)[k] == b0[k]);
            assert(flatten_index(idx)[k] == indexed_item(idx, 0, k));
        } else {
            assert(rest[i - 1] == idx[i]);
            assert(indexed_item(rest, i - 1, k) == indexed_item(idx, i, k));
            assert(flatten_index(rest).contains(indexed_item(rest, i - 1, k)));
            let j2 = choose|j2: int|
                0 <= j2 < flatten_index(rest).len() && #[trigger] flatten_index(rest)[j2]
                    == indexed_item(rest, i - 1, k);
            assert(flatten_index(idx)[b0.len() + j2] == flatten_index(rest)[j2]);
        }
    }
    assert forall|a: int, b: int|
        #![trigger flatten_index(idx)[a], flatten_index(idx)[b]]
        0 <= a < b < flatten_index(idx).len() implies flatten_index(idx)[a].path != flatten_index(idx)[b].path by {
        if b < b0.len() {
            assert(flatten_index(idx)[a] == b0[a] && flatten_index(idx)[b] == b0[b]);
            assert(idx[0].paths[a] != idx[0].paths[b]);
        } else if a >= b0.len() {
            assert(flatten_index(idx)[a] == flatten_index(rest)[a - b0.len()]);
            assert(flatten_index(idx)[b] == flatten_index(rest)[b - b0.len()]);
        } else {
            assert(flatten_index(idx)[a] == b0[a]);
            assert(flatten_index(idx)[a].path == idx[0].paths[a]);
            let t = b - b0.len();
            assert(flatten_index(idx)[b] == flatten_index(rest)[t]);
            assert(index_lists(rest, flatten_index(rest)[t]));
            let (i2, k2): (int, int) = choose|i2: int, k2: int|
                0 <= i2 < rest.len() && 0 <= k2 < rest[i2].paths.len() && #[trigger] indexed_item(
                    rest,
                    i2,
                    k2,
                ) == flatten_index(rest)[t];
            assert(rest[i2] == idx[i2 + 1]);
            assert(flatten_index(idx)[b].path == idx[i2 + 1].paths[k2]);
            assert(idx[0].paths[a] != idx[i2 + 1].paths[k2]);
        }
    }
}


/// Yields a scan's `Metadata` records one at a time, in discovery order.
pub struct MetadataReader {
    pub items: Vec<Metadata>,
    pub pos: usize,
}

impl MetadataReader {
    /// What the reader has not yet handed out.
    pub open spec fn remaining(&self) -> Seq<Metadata> {
        self.items@.skip(self.pos as int)
    }

    /// The cursor never passes the end of the scan.
    pub open spec fn wf(&self) -> bool {
        self.pos <= self.items.len()
    }

    /// A reader over the given scan results.
    pub fn new(items: Vec<Metadata>) -> (r: MetadataReader)
        ensures
            r.wf(),
            r.remaining() == items@,
    {
        let r = MetadataReader { items, pos: 0 };
        proof {
            assert(r.remaining() =~= r.items@);
        }
        r
    }

    /// The next record, or `None` when the scan is exhausted.
    pub fn next(&mut self) -> (r: Option<Metadata>)
        requires
            old(self).wf(),
        ensures
            final(self).wf(),
            match r {
                Some(m) => old(self).remaining().len() > 0 && m == old(self).remaining()[0]
                    && final(self).remaining() == old(self).remaining().skip(1),
                None => old(self).remaining().len() == 0 && final(self).remaining()
                    == old(self).remaining(),
            },
    {
        if self.pos < self.items.len() {
            let ghost pre = self.remaining();
            let path = self.items[self.pos].path.clone();
            let size = self.items[self.pos].size;
            let modified = self.items[self.pos].modified;
            let m = Metadata { path: path, size: size, modified: modified };
            self.pos = self.pos + 1;
            proof {
                assert(self.remaining() =~= pre.skip(1));
                assert(m == pre[0]);
            }
            Some(m)
        } else {
            None
        }
    }
}

} // verus!
