//! The match resolver: pair every destination file with a source candidate
//! of the same fingerprint, classify each pair as a rename or a copy.
//!
//! For one destination path, the source bucket of its fingerprint is scanned
//! in stored order; a candidate at the destination's own path never matches,
//! and with checksum verification enabled the first candidate whose content
//! checksum equals the destination's wins. Within a bucket, the first
//! accepted correspondence is a rename; a later one is demoted to a copy
//! when the source file's expected place in the destination tree exists with
//! matching content, or when its source was already matched by an earlier
//! destination path of the bucket.

use vstd::prelude::*;

use crate::digest::sha1_hex_of;
use crate::meta::{
    bucket_pos, idx_matches_tree, lemma_bucket_pos, lemma_path_in_index_iff, path_in_index,
    string_views, BucketV, MetadataIndex, TreeView,
};
use crate::server::Server;
use vstd::pervasive::unreached;

verus! {

/// How a correspondence is classified.
#[derive(Clone, Copy, PartialEq, Eq, Structural, Debug)]
pub enum MatchKind {
    Rename,
    Copy,
}

/// A resolved pair: the destination path and the source path it matched,
/// with its classification.
#[derive(Debug)]
pub struct Correspondence {
    pub source: String,
    pub destination: String,
    pub kind: MatchKind,
}

/// Mathematical image of `Correspondence`.
#[verifier::ext_equal]
pub ghost struct CorrV {
    pub source: Seq<char>,
    pub destination: Seq<char>,
    pub kind: MatchKind,
}

impl View for Correspondence {
    type V = CorrV;

    open spec fn view(&self) -> CorrV {
        CorrV { source: self.source@, destination: self.destination@, kind: self.kind }
    }
}

/// Views of a sequence of correspondences.
pub open spec fn corr_views(s: Seq<Correspondence>) -> Seq<CorrV> {
    s.map_values(|c: Correspondence| c@)
}

/// The source candidate that a scan of the bucket accepts for destination
/// path `d`: the first candidate that is not `d` itself and whose checksum
/// matches when verification is enabled.
pub open spec fn spec_find_match(
    cands: Seq<Seq<char>>,
    d: Seq<char>,
    src_tree: TreeView,
    dst_tree: TreeView,
    checksums: bool,
) -> Option<Seq<char>>
    decreases cands.len(),
{
    if cands.len() == 0 {
        None
    } else if cands[0] == d {
        spec_find_match(cands.skip(1), d, src_tree, dst_tree, checksums)
    } else if !checksums {
        Some(cands[0])
    } else if sha1_hex_of(src_tree[cands[0]].content) == sha1_hex_of(dst_tree[d].content) {
        Some(cands[0])
    } else {
        spec_find_match(cands.skip(1), d, src_tree, dst_tree, checksums)
    }
}

/// The candidate accepted for `d` out of the whole source index: the bucket
/// of the fingerprint is scanned, and no bucket means no candidate.
pub open spec fn spec_find_in_index(
    src_idx: Seq<BucketV>,
    size: u64,
    modified: u64,
    d: Seq<char>,
    src_tree: TreeView,
    dst_tree: TreeView,
    checksums: bool,
) -> Option<Seq<char>> {
    let p = bucket_pos(src_idx, size, modified);
    if p < 0 {
        None
    } else {
        spec_find_match(src_idx[p].paths, d, src_tree, dst_tree, checksums)
    }
}

/// A later correspondence to source `s` is a copy rather than a rename:
/// something was accepted before it in the bucket, and either the
/// destination tree already holds `s` with content matching the source, or
/// an earlier correspondence of the bucket already took `s`.
pub open spec fn spec_is_copy(
    s: Seq<char>,
    src_tree: TreeView,
    dst_tree: TreeView,
    accepted: Seq<Seq<char>>,
) -> bool {
    accepted.len() > 0 && ((dst_tree.contains_key(s) && sha1_hex_of(dst_tree[s].content)
        == sha1_hex_of(src_tree[s].content)) || accepted.contains(s))
}

/// Classification of a correspondence to source `s`, given the sources
/// accepted earlier in the bucket.
pub open spec fn spec_kind(
    s: Seq<char>,
    src_tree: TreeView,
    dst_tree: TreeView,
    accepted: Seq<Seq<char>>,
) -> MatchKind {
    if spec_is_copy(s, src_tree, dst_tree, accepted) {
        MatchKind::Copy
    } else {
        MatchKind::Rename
    }
}

/// The correspondences one destination bucket produces: its paths are taken
/// in stored order, `accepted` carries the sources matched so far in this
/// bucket.
pub open spec fn spec_process_bucket(
    dst_paths: Seq<Seq<char>>,
    src_idx: Seq<BucketV>,
    size: u64,
    modified: u64,
    src_tree: TreeView,
    dst_tree: TreeView,
    checksums: bool,
    accepted: Seq<Seq<char>>,
) -> Seq<CorrV>
    decreases dst_paths.len(),
{
    if dst_paths.len() == 0 {
        Seq::empty()
    } else {
        let d = dst_paths[0];
        match spec_find_in_index(src_idx, size, modified, d, src_tree, dst_tree, checksums) {
            Option::None => spec_process_bucket(
                dst_paths.skip(1),
                src_idx,
                size,
                modified,
                src_tree,
                dst_tree,
                checksums,
                accepted,
            ),
            Option::Some(s) => seq![
                CorrV {
                    source: s,
                    destination: d,
                    kind: spec_kind(s, src_tree, dst_tree, accepted),
                },
            ] + spec_process_bucket(
                dst_paths.skip(1),
                src_idx,
                size,
                modified,
                src_tree,
                dst_tree,
                checksums,
                accepted.push(s),
            ),
        }
    }
}

/// Every correspondence the two indexes produce, destination buckets in
/// stored order.
pub open spec fn spec_resolve(
    src_idx: Seq<BucketV>,
    dst_idx: Seq<BucketV>,
    src_tree: TreeView,
    dst_tree: TreeView,
    checksums: bool,
) -> Seq<CorrV>
    decreases dst_idx.len(),
{
    if dst_idx.len() == 0 {
        Seq::empty()
    } else {
        spec_process_bucket(
            dst_idx[0].paths,
            src_idx,
            dst_idx[0].size,
            dst_idx[0].modified,
            src_tree,
            dst_tree,
            checksums,
            Seq::empty(),
        ) + spec_resolve(src_idx, dst_idx.skip(1), src_tree, dst_tree, checksums)
    }
}

/// The renames of a report, in order: the correspondences a live run would
/// apply.
pub open spec fn spec_rename_plan(corrs: Seq<CorrV>) -> Seq<CorrV>
    decreases corrs.len(),
{
    if corrs.len() == 0 {
        Seq::empty()
    } else {
        spec_rename_plan(corrs.drop_last()) + (if corrs.last().kind == MatchKind::Rename {
            seq![corrs.last()]
        } else {
            Seq::empty()
        })
    }
}

/// What an accepted candidate satisfies: it stands in the bucket, it is not
/// the destination's own path, and with verification enabled its checksum
/// equals the destination's.
pub proof fn lemma_find_match_props(
    cands: Seq<Seq<char>>,
    d: Seq<char>,
    src_tree: TreeView,
    dst_tree: TreeView,
    checksums: bool,
)
    ensures
        spec_find_match(cands, d, src_tree, dst_tree, checksums) matches Some(s) ==> cands.contains(
            s,
        ) && s != d && (checksums ==> sha1_hex_of(src_tree[s].content) == sha1_hex_of(
            dst_tree[d].content,
        )),
    decreases cands.len(),
{
    if cands.len() > 0 {
        lemma_find_match_props(cands.skip(1), d, src_tree, dst_tree, checksums);
        match spec_find_match(cands, d, src_tree, dst_tree, checksums) {
            Option::Some(s) => {
                if cands[0] != d && (!checksums || sha1_hex_of(src_tree[cands[0]].content)
                    == sha1_hex_of(dst_tree[d].content)) {
                    assert(cands.contains(cands[0]));
                } else {
                    assert(cands.skip(1).contains(s));
                    let j = choose|j: int| 0 <= j < cands.skip(1).len() && cands.skip(1)[j] == s;
                    assert(cands[j + 1] == s);
                    assert(cands.contains(s));
                }
            },
            Option::None => {},
        }
    }
}

/// The view of an optional string.
pub open spec fn opt_view(r: Option<String>) -> Option<Seq<char>> {
    match r {
        Option::Some(s) => Option::Some(s@),
        Option::None => Option::None,
    }
}

/// Whether one of the strings reads the same as `s`.
fn contains_string(v: &Vec<String>, s: &String) -> (r: bool)
    ensures
        r == string_views(v@).contains(s@),
{
    let n = v.len();
    let mut i: usize = 0;
    while i < n
        invariant
            n == v@.len(),
            0 <= i <= n,
            forall|j: int| 0 <= j < i ==> string_views(v@)[j] != s@,
        decreases n - i,
    {
        if v[i] == *s {
            proof {
                assert(string_views(v@)[i as int] == s@);
            }
            return true;
        }
        i = i + 1;
    }
    proof {
        if string_views(v@).contains(s@) {
            let j = choose|j: int|
                0 <= j < string_views(v@).len() && string_views(v@)[j] == s@;
            assert(string_views(v@)[j] != s@);
        }
    }
    false
}

/// Scan the source bucket of the fingerprint for a candidate matching the
/// destination file: skip the file's own path, and with verification enabled
/// accept the first candidate whose checksum equals the file's.
pub fn find_matching_file<S1: Server, S2: Server>(
    checksums: bool,
    file: &String,
    size: u64,
    modified: u64,
    master_index: &MetadataIndex,
    src_server: &mut S1,
    dest_server: &mut S2,
) -> (r: Option<String>)
    requires
        old(src_server).wf(),
        old(dest_server).wf(),
        idx_matches_tree(master_index@, old(src_server).tree()),
        old(dest_server).tree().contains_key(file@),
    ensures
        final(src_server).wf(),
        final(src_server).tree() == old(src_server).tree(),
        final(dest_server).wf(),
        final(dest_server).tree() == old(dest_server).tree(),
        opt_view(r) == spec_find_in_index(
            master_index@,
            size,
            modified,
            file@,
            old(src_server).tree(),
            old(dest_server).tree(),
            checksums,
        ),
{
    let ghost src_tree = src_server.tree();
    let ghost dst_tree = dest_server.tree();
    let bpos: usize = match master_index.find_bucket(size, modified) {
        Option::Some(i) => i,
        Option::None => {
            return None;
        },
    };
    proof {
        lemma_bucket_pos(master_index@, size, modified);
    }
    let bucket = &master_index.buckets[bpos];
    let ghost cv = master_index@[bpos as int].paths;
    let n = bucket.paths.len();
    let mut j: usize = 0;
    proof {
        assert(cv.skip(0) =~= cv);
    }
    while j < n
        invariant
            src_server.wf(),
            src_server.tree() == src_tree,
            src_tree == old(src_server).tree(),
            dest_server.wf(),
            dest_server.tree() == dst_tree,
            dst_tree == old(dest_server).tree(),
            idx_matches_tree(master_index@, src_tree),
            dst_tree.contains_key(file@),
            0 <= bpos < master_index@.len(),
            bpos as int == bucket_pos(master_index@, size, modified),
            cv == master_index@[bpos as int].paths,
            n == bucket.paths.len(),
            bucket == &master_index.buckets[bpos as int],
            cv == string_views(bucket.paths@),
            0 <= j <= n,
            spec_find_match(cv, file@, src_tree, dst_tree, checksums) == spec_find_match(
                cv.skip(j as int),
                file@,
                src_tree,
                dst_tree,
                checksums,
            ),
        decreases n - j,
    {
        let cand = &bucket.paths[j];
        proof {
            assert(cv.skip(j as int)[0] == cv[j as int]);
            assert(cv.skip(j as int).skip(1) =~= cv.skip(j as int + 1));
            assert(cv[j as int] == cand@);
        }
        if *cand == *file {
            j = j + 1;
            continue;
        }
        if !checksums {
            proof {
                assert(cv.skip(j as int).len() > 0);
                assert(spec_find_match(cv.skip(j as int), file@, src_tree, dst_tree, checksums)
                    == Option::Some(cand@));
            }
            return Some(cand.clone());
        }
        proof {
            assert(master_index@[bpos as int].paths[j as int] == cand@);
            assert(src_tree.contains_key(cand@));
        }
        let src_sum = match src_server.get_checksum(cand) {
            Option::Some(x) => x,
            Option::None => {
                proof {
                    assert(false);
                }
                unreached()
            },
        };
        let dest_sum = match dest_server.get_checksum(file) {
            Option::Some(x) => x,
            Option::None => {
                proof {
                    assert(false);
                }
                unreached()
            },
        };
        if src_sum == dest_sum {
            proof {
                assert(sha1_hex_of(src_tree[cand@].content) == sha1_hex_of(dst_tree[file@].content));
                assert(cv.skip(j as int).len() > 0);
                assert(spec_find_match(cv.skip(j as int), file@, src_tree, dst_tree, checksums)
                    == Option::Some(cand@));
            }
            return Some(cand.clone());
        }
        j = j + 1;
    }
    proof {
        assert(cv.skip(n as int) =~= Seq::<Seq<char>>::empty());
    }
    None
}

/// Classify a correspondence to `source`, given the sources accepted earlier
/// in the bucket: the first acceptance is a rename; a later one is a copy
/// when the source's expected place in the destination tree exists with
/// matching content, or when the source was already taken.
fn classify<S1: Server, S2: Server>(
    source: &String,
    src_server: &mut S1,
    dest_server: &mut S2,
    dest_index: &MetadataIndex,
    accepted: &Vec<String>,
) -> (r: MatchKind)
    requires
        old(src_server).wf(),
        old(dest_server).wf(),
        idx_matches_tree(dest_index@, old(dest_server).tree()),
        old(src_server).tree().contains_key(source@),
    ensures
        final(src_server).wf(),
        final(src_server).tree() == old(src_server).tree(),
        final(dest_server).wf(),
        final(dest_server).tree() == old(dest_server).tree(),
        r == spec_kind(
            source@,
            old(src_server).tree(),
            old(dest_server).tree(),
            string_views(accepted@),
        ),
{
    let ghost src_tree = src_server.tree();
    let ghost dst_tree = dest_server.tree();
    if accepted.is_empty() {
        return MatchKind::Rename;
    }
    proof {
        lemma_path_in_index_iff(dest_index@, dst_tree, source@);
    }
    if dest_index.contains_path(source) {
        let src_sum = match src_server.get_checksum(source) {
            Option::Some(x) => x,
            Option::None => {
                proof {
                    assert(false);
                }
                unreached()
            },
        };
        let dest_sum = match dest_server.get_checksum(source) {
            Option::Some(x) => x,
            Option::None => {
                proof {
                    assert(false);
                }
                unreached()
            },
        };
        if src_sum == dest_sum {
            return MatchKind::Copy;
        }
    }
    if contains_string(accepted, source) {
        return MatchKind::Copy;
    }
    MatchKind::Rename
}

/// Resolve every destination file against the source index: the report holds
/// one correspondence per matched destination path, in destination bucket
/// order, classified as the run saw it.
pub fn resolve_matches<S1: Server, S2: Server>(
    checksums: bool,
    src_server: &mut S1,
    dest_server: &mut S2,
    master_index: &MetadataIndex,
    dest_index: &MetadataIndex,
) -> (report: Vec<Correspondence>)
    requires
        old(src_server).wf(),
        old(dest_server).wf(),
        idx_matches_tree(master_index@, old(src_server).tree()),
        idx_matches_tree(dest_index@, old(dest_server).tree()),
    ensures
        final(src_server).wf(),
        final(src_server).tree() == old(src_server).tree(),
        final(dest_server).wf(),
        final(dest_server).tree() == old(dest_server).tree(),
        corr_views(report@) == spec_resolve(
            master_index@,
            dest_index@,
            old(src_server).tree(),
            old(dest_server).tree(),
            checksums,
        ),
{
    let ghost src_tree = src_server.tree();
    let ghost dst_tree = dest_server.tree();
    let ghost di = dest_index@;
    let mut report: Vec<Correspondence> = Vec::new();
    let nb = dest_index.buckets.len();
    let mut i: usize = 0;
    proof {
        assert(di.skip(0) =~= di);
        assert(corr_views(report@) =~= Seq::<CorrV>::empty());
    }
    while i < nb
        invariant
            src_server.wf(),
            src_server.tree() == src_tree,
            src_tree == old(src_server).tree(),
            dest_server.wf(),
            dest_server.tree() == dst_tree,
            dst_tree == old(dest_server).tree(),
            idx_matches_tree(master_index@, src_tree),
            idx_matches_tree(di, dst_tree),
            di == dest_index@,
            nb == dest_index.buckets.len(),
            0 <= i <= nb,
            spec_resolve(master_index@, di, src_tree, dst_tree, checksums) == corr_views(report@)
                + spec_resolve(master_index@, di.skip(i as int), src_tree, dst_tree, checksums),
        decreases nb - i,
    {
        let bucket = &dest_index.buckets[i];
        let size = bucket.size;
        let modified = bucket.modified;
        let ghost bv = di[i as int];
        let ghost base = corr_views(report@);
        let mut accepted: Vec<String> = Vec::new();
        let np = bucket.paths.len();
        let mut k: usize = 0;
        proof {
            assert(bv.paths.skip(0) =~= bv.paths);
            assert(string_views(accepted@) =~= Seq::<Seq<char>>::empty());
        }
        while k < np
            invariant
                src_server.wf(),
                src_server.tree() == src_tree,
                src_tree == old(src_server).tree(),
                dest_server.wf(),
                dest_server.tree() == dst_tree,
                dst_tree == old(dest_server).tree(),
                idx_matches_tree(master_index@, src_tree),
                idx_matches_tree(di, dst_tree),
                di == dest_index@,
                0 <= i < di.len(),
                i < dest_index.buckets.len(),
                bucket == &dest_index.buckets[i as int],
                bv == di[i as int],
                size == bv.size,
                modified == bv.modified,
                np == bucket.paths.len(),
                np == bv.paths.len(),
                0 <= k <= np,
                corr_views(report@).len() >= base.len(),
                base == corr_views(report@).take(base.len() as int),
                spec_process_bucket(
                    bv.paths,
                    master_index@,
                    size,
                    modified,
                    src_tree,
                    dst_tree,
                    checksums,
                    Seq::empty(),
                ) == corr_views(report@).skip(base.len() as int) + spec_process_bucket(
                    bv.paths.skip(k as int),
                    master_index@,
                    size,
                    modified,
                    src_tree,
                    dst_tree,
                    checksums,
                    string_views(accepted@),
                ),
            decreases np - k,
        {
            let d = &bucket.paths[k];
            proof {
                assert(bv.paths[k as int] == d@);
                assert(dst_tree.contains_key(d@));
                assert(bv.paths.skip(k as int)[0] == bv.paths[k as int]);
                assert(bv.paths.skip(k as int).skip(1) =~= bv.paths.skip(k as int + 1));
            }
            let found = find_matching_file(
                checksums,
                d,
                size,
                modified,
                master_index,
                src_server,
                dest_server,
            );
            match found {
                Option::Some(source) => {
                    proof {
                        lemma_bucket_pos(master_index@, size, modified);
                        lemma_find_match_props(
                            master_index@[bucket_pos(master_index@, size, modified)].paths,
                            d@,
                            src_tree,
                            dst_tree,
                            checksums,
                        );
                        let cands = master_index@[bucket_pos(
                            master_index@,
                            size,
                            modified,
                        )].paths;
                        let w = choose|w: int| 0 <= w < cands.len() && cands[w] == source@;
                        assert(src_tree.contains_key(source@));
                    }
                    let kind = classify(&source, src_server, dest_server, dest_index, &accepted);
                    let ghost pre_views = corr_views(report@);
                    let ghost pre_acc = string_views(accepted@);
                    let c = Correspondence {
                        source: source.clone(),
                        destination: d.clone(),
                        kind,
                    };
                    report.push(c);
                    accepted.push(source);
                    proof {
                        assert(corr_views(report@) =~~= pre_views + seq![
                            CorrV { source: source@, destination: d@, kind },
                        ]);
                        assert(string_views(accepted@) =~~= pre_acc.push(source@));
                        assert(corr_views(report@).skip(base.len() as int) =~~= pre_views.skip(
                            base.len() as int,
                        ) + seq![CorrV { source: source@, destination: d@, kind }]);
                        assert(base =~~= corr_views(report@).take(base.len() as int));
                    }
                },
                Option::None => {
                },
            }
            k = k + 1;
        }
        proof {
            assert(bv.paths.skip(np as int) =~= Seq::<Seq<char>>::empty());
            assert(spec_process_bucket(
                bv.paths.skip(np as int),
                master_index@,
                size,
                modified,
                src_tree,
                dst_tree,
                checksums,
                string_views(accepted@),
            ) =~= Seq::<CorrV>::empty());
            assert(spec_process_bucket(
                bv.paths,
                master_index@,
                size,
                modified,
                src_tree,
                dst_tree,
                checksums,
                Seq::empty(),
            ) =~~= corr_views(report@).skip(base.len() as int));
            assert(di.skip(i as int)[0] == bv);
            assert(di.skip(i as int).skip(1) =~= di.skip(i as int + 1));
            assert(corr_views(report@) =~~= base + corr_views(report@).skip(base.len() as int));
        }
        i = i + 1;
    }
    proof {
        assert(di.skip(nb as int) =~= Seq::<BucketV>::empty());
    }
    report
}

/// Fetch both trees' metadata and resolve every destination file. Which
/// index each oracle hands back depends on its discovery order; the report
/// is the resolution of one such pair of indexes.
pub fn sync_renames<S1: Server, S2: Server>(
    checksums: bool,
    source_server: &mut S1,
    dest_server: &mut S2,
) -> (report: Vec<Correspondence>)
    requires
        old(source_server).wf(),
        old(dest_server).wf(),
    ensures
        final(source_server).wf(),
        final(source_server).tree() == old(source_server).tree(),
        final(dest_server).wf(),
        final(dest_server).tree() == old(dest_server).tree(),
        exists|si: Seq<BucketV>, di: Seq<BucketV>|
            #![trigger spec_resolve(si, di, old(source_server).tree(), old(dest_server).tree(), checksums)]
            crate::meta::idx_wf(si) && idx_matches_tree(si, old(source_server).tree())
                && crate::meta::idx_wf(di) && idx_matches_tree(di, old(dest_server).tree())
                && corr_views(report@) == spec_resolve(
                si,
                di,
                old(source_server).tree(),
                old(dest_server).tree(),
                checksums,
            ),
{
    let master_index = source_server.get_metadata();
    let dest_index = dest_server.get_metadata();
    let report = resolve_matches(checksums, source_server, dest_server, &master_index, &dest_index);
    proof {
        assert(corr_views(report@) == spec_resolve(
            master_index@,
            dest_index@,
            old(source_server).tree(),
            old(dest_server).tree(),
            checksums,
        ));
    }
    report
}

/// The renames of a report, in report order: what a live run applies to the
/// destination tree. Copies are left out.
pub fn rename_plan(report: &Vec<Correspondence>) -> (plan: Vec<Correspondence>)
    ensures
        corr_views(plan@) == spec_rename_plan(corr_views(report@)),
{
    let mut plan: Vec<Correspondence> = Vec::new();
    let n = report.len();
    let mut i: usize = 0;
    proof {
        assert(corr_views(report@).take(0) =~= Seq::<CorrV>::empty());
        assert(corr_views(plan@) =~= Seq::<CorrV>::empty());
    }
    while i < n
        invariant
            n == report@.len(),
            0 <= i <= n,
            corr_views(plan@) == spec_rename_plan(corr_views(report@).take(i as int)),
        decreases n - i,
    {
        let ghost pre = corr_views(plan@);
        proof {
            assert(corr_views(report@).take(i as int + 1).drop_last() =~= corr_views(
                report@,
            ).take(i as int));
            assert(corr_views(report@).take(i as int + 1).last() == corr_views(report@)[i as int]);
        }
        let c = &report[i];
        if c.kind == MatchKind::Rename {
            plan.push(
                Correspondence {
                    source: c.source.clone(),
                    destination: c.destination.clone(),
                    kind: c.kind,
                },
            );
            proof {
                assert(corr_views(plan@) =~~= pre + seq![corr_views(report@)[i as int]]);
            }
        }
        i = i + 1;
    }
    proof {
        assert(corr_views(report@).take(n as int) =~= corr_views(report@));
    }
    plan
}

/// The report line for one correspondence, as the run prints it.
pub fn report_line(c: &Correspondence) -> (r: String)
    ensures
        c.kind == MatchKind::Rename ==> r@ == c.destination@ + " was renamed to "@ + c.source@,
        c.kind == MatchKind::Copy ==> r@ == c.destination@ + " was copied to "@ + c.source@,
{
    let mut out = c.destination.clone();
    if c.kind == MatchKind::Rename {
        out.append(" was renamed to ");
    } else {
        out.append(" was copied to ");
    }
    out.append(c.source.as_str());
    out
}

} // verus!
