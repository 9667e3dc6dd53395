//! Laws of the match resolver, stated over the same spec functions its
//! contracts use.

use vstd::prelude::*;

use crate::digest::sha1_hex_of;
use crate::executor::{spec_apply_plan, spec_plan_applies};
use crate::meta::{bucket_pos, idx_matches_tree, idx_wf, lemma_bucket_pos, BucketV, TreeView};
use crate::resolver::{
    lemma_find_match_props, spec_find_in_index, spec_find_match, spec_process_bucket,
    spec_rename_plan, spec_resolve, CorrV, MatchKind,
};

verus! {

/// No candidate is accepted for `d` when every candidate is `d` itself or,
/// with verification on, differs in checksum.
proof fn lemma_find_match_none(
    cands: Seq<Seq<char>>,
    d: Seq<char>,
    src_tree: TreeView,
    dst_tree: TreeView,
)
    requires
        forall|j: int| 0 <= j < cands.len() ==> src_tree.contains_key(#[trigger] cands[j]),
        dst_tree.contains_key(d),
        forall|sp: Seq<char>, dp: Seq<char>|
            src_tree.contains_key(sp) && dst_tree.contains_key(dp)
                ==> sha1_hex_of((#[trigger] src_tree[sp]).content) != sha1_hex_of(
                (#[trigger] dst_tree[dp]).content,
            ),
    ensures
        spec_find_match(cands, d, src_tree, dst_tree, true) is None,
    decreases cands.len(),
{
    if cands.len() > 0 {
        assert(src_tree.contains_key(cands[0]));
        assert forall|j: int| 0 <= j < cands.skip(1).len() implies src_tree.contains_key(
            #[trigger] cands.skip(1)[j],
        ) by {
            assert(cands.skip(1)[j] == cands[j + 1]);
        }
        lemma_find_match_none(cands.skip(1), d, src_tree, dst_tree);
    }
}

/// No bucket produces a correspondence when no source and destination file
/// share a checksum.
proof fn lemma_bucket_empty(
    dst_paths: Seq<Seq<char>>,
    src_idx: Seq<BucketV>,
    size: u64,
    modified: u64,
    src_tree: TreeView,
    dst_tree: TreeView,
    accepted: Seq<Seq<char>>,
)
    requires
        idx_matches_tree(src_idx, src_tree),
        forall|k: int| 0 <= k < dst_paths.len() ==> dst_tree.contains_key(#[trigger] dst_paths[k]),
        forall|sp: Seq<char>, dp: Seq<char>|
            src_tree.contains_key(sp) && dst_tree.contains_key(dp)
                ==> sha1_hex_of((#[trigger] src_tree[sp]).content) != sha1_hex_of(
                (#[trigger] dst_tree[dp]).content,
            ),
    ensures
        spec_process_bucket(dst_paths, src_idx, size, modified, src_tree, dst_tree, true, accepted)
            == Seq::<CorrV>::empty(),
    decreases dst_paths.len(),
{
    if dst_paths.len() > 0 {
        let d = dst_paths[0];
        let p = bucket_pos(src_idx, size, modified);
        lemma_bucket_pos(src_idx, size, modified);
        if p >= 0 {
            let cands = src_idx[p].paths;
            assert forall|j: int| 0 <= j < cands.len() implies src_tree.contains_key(
                #[trigger] cands[j],
            ) by {
                assert(src_idx[p].paths[j] == cands[j]);
            }
            lemma_find_match_none(cands, d, src_tree, dst_tree);
        }
        assert(spec_find_in_index(src_idx, size, modified, d, src_tree, dst_tree, true) is None);
        assert forall|k: int| 0 <= k < dst_paths.skip(1).len() implies dst_tree.contains_key(
            #[trigger] dst_paths.skip(1)[k],
        ) by {
            assert(dst_paths.skip(1)[k] == dst_paths[k + 1]);
        }
        lemma_bucket_empty(
            dst_paths.skip(1),
            src_idx,
            size,
            modified,
            src_tree,
            dst_tree,
            accepted,
        );
    }
}

/// Law: with checksum verification enabled, trees with no content in common
/// — no source file's checksum equals any destination file's — produce an
/// empty report, and so an empty rename plan.
pub proof fn lemma_no_common_content_empty_plan(
    src_idx: Seq<BucketV>,
    dst_idx: Seq<BucketV>,
    src_tree: TreeView,
    dst_tree: TreeView,
)
    requires
        idx_matches_tree(src_idx, src_tree),
        idx_matches_tree(dst_idx, dst_tree),
        forall|sp: Seq<char>, dp: Seq<char>|
            src_tree.contains_key(sp) && dst_tree.contains_key(dp)
                ==> sha1_hex_of((#[trigger] src_tree[sp]).content) != sha1_hex_of(
                (#[trigger] dst_tree[dp]).content,
            ),
    ensures
        spec_resolve(src_idx, dst_idx, src_tree, dst_tree, true) == Seq::<CorrV>::empty(),
        spec_rename_plan(spec_resolve(src_idx, dst_idx, src_tree, dst_tree, true))
            == Seq::<CorrV>::empty(),
    decreases dst_idx.len(),
{
    if dst_idx.len() > 0 {
        let b = dst_idx[0];
        assert forall|k: int| 0 <= k < b.paths.len() implies dst_tree.contains_key(
            #[trigger] b.paths[k],
        ) by {
            assert(dst_idx[0].paths[k] == b.paths[k]);
        }
        lemma_bucket_empty(
            b.paths,
            src_idx,
            b.size,
            b.modified,
            src_tree,
            dst_tree,
            Seq::empty(),
        );
        assert forall|i: int, k: int|
            #![trigger dst_idx.skip(1)[i].paths[k]]
            0 <= i < dst_idx.skip(1).len() && 0 <= k < dst_idx.skip(1)[i].paths.len() implies ({
            let p = dst_idx.skip(1)[i].paths[k];
            &&& dst_tree.contains_key(p)
            &&& dst_tree[p].size == dst_idx.skip(1)[i].size
            &&& dst_tree[p].modified == dst_idx.skip(1)[i].modified
        }) by {
            assert(dst_idx.skip(1)[i] == dst_idx[i + 1]);
            assert(dst_idx[i + 1].paths[k] == dst_idx.skip(1)[i].paths[k]);
        }
        lemma_no_common_content_empty_plan_tail(src_idx, dst_idx.skip(1), src_tree, dst_tree);
        assert(spec_resolve(src_idx, dst_idx, src_tree, dst_tree, true) =~= Seq::<CorrV>::empty());
    }
}

/// Tail step of the empty-plan law: only the listed-paths direction of the
/// destination index is needed.
proof fn lemma_no_common_content_empty_plan_tail(
    src_idx: Seq<BucketV>,
    dst_idx: Seq<BucketV>,
    src_tree: TreeView,
    dst_tree: TreeView,
)
    requires
        idx_matches_tree(src_idx, src_tree),
        forall|i: int, k: int|
            #![trigger dst_idx[i].paths[k]]
            0 <= i < dst_idx.len() && 0 <= k < dst_idx[i].paths.len() ==> dst_tree.contains_key(
                dst_idx[i].paths[k],
            ),
        forall|sp: Seq<char>, dp: Seq<char>|
            src_tree.contains_key(sp) && dst_tree.contains_key(dp)
                ==> sha1_hex_of((#[trigger] src_tree[sp]).content) != sha1_hex_of(
                (#[trigger] dst_tree[dp]).content,
            ),
    ensures
        spec_resolve(src_idx, dst_idx, src_tree, dst_tree, true) == Seq::<CorrV>::empty(),
    decreases dst_idx.len(),
{
    if dst_idx.len() > 0 {
        let b = dst_idx[0];
        assert forall|k: int| 0 <= k < b.paths.len() implies dst_tree.contains_key(
            #[trigger] b.paths[k],
        ) by {
            assert(dst_idx[0].paths[k] == b.paths[k]);
        }
        lemma_bucket_empty(
            b.paths,
            src_idx,
            b.size,
            b.modified,
            src_tree,
            dst_tree,
            Seq::empty(),
        );
        assert forall|i: int, k: int|
            #![trigger dst_idx.skip(1)[i].paths[k]]
            0 <= i < dst_idx.skip(1).len() && 0 <= k < dst_idx.skip(1)[i].paths.len() implies
        dst_tree.contains_key(dst_idx.skip(1)[i].paths[k]) by {
            assert(dst_idx.skip(1)[i] == dst_idx[i + 1]);
            assert(dst_idx[i + 1].paths[k] == dst_idx.skip(1)[i].paths[k]);
        }
        lemma_no_common_content_empty_plan_tail(src_idx, dst_idx.skip(1), src_tree, dst_tree);
        assert(spec_resolve(src_idx, dst_idx, src_tree, dst_tree, true) =~= Seq::<CorrV>::empty());
    }
}

/// What one bucket's correspondences satisfy: sources from the bucket of
/// the fingerprint in the source tree, destinations from the given paths,
/// never a self-match, checksums equal when verification is on, and a
/// repeated or pre-accepted source always classified a copy.
proof fn lemma_bucket_sound(
    dst_paths: Seq<Seq<char>>,
    src_idx: Seq<BucketV>,
    size: u64,
    modified: u64,
    src_tree: TreeView,
    dst_tree: TreeView,
    checksums: bool,
    accepted: Seq<Seq<char>>,
)
    requires
        idx_matches_tree(src_idx, src_tree),
        forall|k: int|
            0 <= k < dst_paths.len() ==> dst_tree.contains_key(#[trigger] dst_paths[k])
                && dst_tree[dst_paths[k]].size == size && dst_tree[dst_paths[k]].modified
                == modified,
    ensures
        ({
            let r = spec_process_bucket(
                dst_paths,
                src_idx,
                size,
                modified,
                src_tree,
                dst_tree,
                checksums,
                accepted,
            );
            &&& forall|t: int|
                0 <= t < r.len() ==> ({
                    let c = #[trigger] r[t];
                    &&& c.source != c.destination
                    &&& src_tree.contains_key(c.source)
                    &&& dst_tree.contains_key(c.destination)
                    &&& src_tree[c.source].size == size
                    &&& src_tree[c.source].modified == modified
                    &&& dst_tree[c.destination].size == size
                    &&& dst_tree[c.destination].modified == modified
                    &&& (checksums ==> sha1_hex_of(src_tree[c.source].content) == sha1_hex_of(
                        dst_tree[c.destination].content,
                    ))
                })
            &&& forall|t: int|
                0 <= t < r.len() && accepted.contains((#[trigger] r[t]).source) ==> r[t].kind
                    == MatchKind::Copy
            &&& forall|t: int, u: int|
                #![trigger r[t], r[u]]
                0 <= t < u < r.len() && r[t].source == r[u].source ==> r[u].kind
                    == MatchKind::Copy
        }),
    decreases dst_paths.len(),
{
    if dst_paths.len() == 0 {
        return;
    }
    let d = dst_paths[0];
    let p = bucket_pos(src_idx, size, modified);
    lemma_bucket_pos(src_idx, size, modified);
    assert forall|k: int|
        0 <= k < dst_paths.skip(1).len() implies dst_tree.contains_key(
        #[trigger] dst_paths.skip(1)[k],
    ) && dst_tree[dst_paths.skip(1)[k]].size == size && dst_tree[dst_paths.skip(1)[k]].modified
        == modified by {
        assert(dst_paths.skip(1)[k] == dst_paths[k + 1]);
    }
    let found = spec_find_in_index(src_idx, size, modified, d, src_tree, dst_tree, checksums);
    match found {
        Option::None => {
            lemma_bucket_sound(
                dst_paths.skip(1),
                src_idx,
                size,
                modified,
                src_tree,
                dst_tree,
                checksums,
                accepted,
            );
        },
        Option::Some(s) => {
            let cands = src_idx[p].paths;
            lemma_find_match_props(cands, d, src_tree, dst_tree, checksums);
            let w = choose|w: int| 0 <= w < cands.len() && cands[w] == s;
            assert(src_idx[p].paths[w] == s);
            assert(src_tree.contains_key(s) && src_tree[s].size == size && src_tree[s].modified
                == modified);
            lemma_bucket_sound(
                dst_paths.skip(1),
                src_idx,
                size,
                modified,
                src_tree,
                dst_tree,
                checksums,
                accepted.push(s),
            );
            let head = CorrV {
                source: s,
                destination: d,
                kind: crate::resolver::spec_kind(s, src_tree, dst_tree, accepted),
            };
            let tail = spec_process_bucket(
                dst_paths.skip(1),
                src_idx,
                size,
                modified,
                src_tree,
                dst_tree,
                checksums,
                accepted.push(s),
            );
            let r = spec_process_bucket(
                dst_paths,
                src_idx,
                size,
                modified,
                src_tree,
                dst_tree,
                checksums,
                accepted,
            );
            assert(r == seq![head] + tail);
            assert(r[0] == head);
            assert(forall|t: int| 1 <= t < r.len() ==> #[trigger] r[t] == tail[t - 1]);
            assert forall|t: int|
                0 <= t < r.len() && accepted.contains((#[trigger] r[t]).source) implies r[t].kind
                == MatchKind::Copy by {
                if t == 0 {
                    assert(crate::resolver::spec_is_copy(s, src_tree, dst_tree, accepted));
                } else {
                    assert(accepted.push(s).contains(r[t].source)) by {
                        let w2 = choose|w2: int|
                            0 <= w2 < accepted.len() && accepted[w2] == r[t].source;
                        assert(accepted.push(s)[w2] == r[t].source);
                    }
                }
            }
            assert forall|t: int, u: int|
                #![trigger r[t], r[u]]
                0 <= t < u < r.len() && r[t].source == r[u].source implies r[u].kind
                == MatchKind::Copy by {
                if t == 0 {
                    assert(r[u] == tail[u - 1]);
                    assert(accepted.push(s).contains(tail[u - 1].source)) by {
                        assert(accepted.push(s)[accepted.len() as int] == s);
                    }
                } else {
                    assert(r[t] == tail[t - 1] && r[u] == tail[u - 1]);
                }
            }
        },
    }
}

/// Law: every correspondence pairs a destination file with a distinct source
/// file of the same fingerprint — a file standing at its own relative path
/// never matches itself — and, with verification on, with the same checksum.
/// In particular a destination file whose only fingerprint-matching
/// candidate is its own path yields no correspondence.
pub proof fn lemma_resolve_sound(
    src_idx: Seq<BucketV>,
    dst_idx: Seq<BucketV>,
    src_tree: TreeView,
    dst_tree: TreeView,
    checksums: bool,
)
    requires
        idx_matches_tree(src_idx, src_tree),
        idx_matches_tree(dst_idx, dst_tree),
    ensures
        ({
            let r = spec_resolve(src_idx, dst_idx, src_tree, dst_tree, checksums);
            forall|t: int|
                0 <= t < r.len() ==> ({
                    let c = #[trigger] r[t];
                    &&& c.source != c.destination
                    &&& src_tree.contains_key(c.source)
                    &&& dst_tree.contains_key(c.destination)
                    &&& src_tree[c.source].size == dst_tree[c.destination].size
                    &&& src_tree[c.source].modified == dst_tree[c.destination].modified
                    &&& (checksums ==> sha1_hex_of(src_tree[c.source].content) == sha1_hex_of(
                        dst_tree[c.destination].content,
                    ))
                })
        }),
    decreases dst_idx.len(),
{
    if dst_idx.len() == 0 {
        return;
    }
    let b = dst_idx[0];
    assert forall|k: int|
        0 <= k < b.paths.len() implies dst_tree.contains_key(#[trigger] b.paths[k])
        && dst_tree[b.paths[k]].size == b.size && dst_tree[b.paths[k]].modified == b.modified by {
        assert(dst_idx[0].paths[k] == b.paths[k]);
    }
    lemma_bucket_sound(
        b.paths,
        src_idx,
        b.size,
        b.modified,
        src_tree,
        dst_tree,
        checksums,
        Seq::empty(),
    );
    assert forall|i: int, k: int|
        #![trigger dst_idx.skip(1)[i].paths[k]]
        0 <= i < dst_idx.skip(1).len() && 0 <= k < dst_idx.skip(1)[i].paths.len() implies ({
        let pp = dst_idx.skip(1)[i].paths[k];
        &&& dst_tree.contains_key(pp)
        &&& dst_tree[pp].size == dst_idx.skip(1)[i].size
        &&& dst_tree[pp].modified == dst_idx.skip(1)[i].modified
    }) by {
        assert(dst_idx.skip(1)[i] == dst_idx[i + 1]);
        assert(dst_idx[i + 1].paths[k] == dst_idx.skip(1)[i].paths[k]);
    }
    lemma_resolve_sound_tail(src_idx, dst_idx.skip(1), src_tree, dst_tree, checksums);
    let head = spec_process_bucket(
        b.paths,
        src_idx,
        b.size,
        b.modified,
        src_tree,
        dst_tree,
        checksums,
        Seq::empty(),
    );
    let tail = spec_resolve(src_idx, dst_idx.skip(1), src_tree, dst_tree, checksums);
    let r = spec_resolve(src_idx, dst_idx, src_tree, dst_tree, checksums);
    assert(r == head + tail);
    assert forall|t: int| 0 <= t < r.len() implies ({
        let c = #[trigger] r[t];
        &&& c.source != c.destination
        &&& src_tree.contains_key(c.source)
        &&& dst_tree.contains_key(c.destination)
        &&& src_tree[c.source].size == dst_tree[c.destination].size
        &&& src_tree[c.source].modified == dst_tree[c.destination].modified
        &&& (checksums ==> sha1_hex_of(src_tree[c.source].content) == sha1_hex_of(
            dst_tree[c.destination].content,
        ))
    }) by {
        if t < head.len() {
            assert(r[t] == head[t]);
        } else {
            assert(r[t] == tail[t - head.len()]);
        }
    }
}

/// Tail step of the soundness law: only the listed-paths direction of the
/// destination index is needed.
proof fn lemma_resolve_sound_tail(
    src_idx: Seq<BucketV>,
    dst_idx: Seq<BucketV>,
    src_tree: TreeView,
    dst_tree: TreeView,
    checksums: bool,
)
    requires
        idx_matches_tree(src_idx, src_tree),
        forall|i: int, k: int|
            #![trigger dst_idx[i].paths[k]]
            0 <= i < dst_idx.len() && 0 <= k < dst_idx[i].paths.len() ==> ({
                let pp = dst_idx[i].paths[k];
                &&& dst_tree.contains_key(pp)
                &&& dst_tree[pp].size == dst_idx[i].size
                &&& dst_tree[pp].modified == dst_idx[i].modified
            }),
    ensures
        ({
            let r = spec_resolve(src_idx, dst_idx, src_tree, dst_tree, checksums);
            forall|t: int|
                0 <= t < r.len() ==> ({
                    let c = #[trigger] r[t];
                    &&& c.source != c.destination
                    &&& src_tree.contains_key(c.source)
                    &&& dst_tree.contains_key(c.destination)
                    &&& src_tree[c.source].size == dst_tree[c.destination].size
                    &&& src_tree[c.source].modified == dst_tree[c.destination].modified
                    &&& (checksums ==> sha1_hex_of(src_tree[c.source].content) == sha1_hex_of(
                        dst_tree[c.destination].content,
                    ))
                })
        }),
    decreases dst_idx.len(),
{
    if dst_idx.len() == 0 {
        return;
    }
    let b = dst_idx[0];
    assert forall|k: int|
        0 <= k < b.paths.len() implies dst_tree.contains_key(#[trigger] b.paths[k])
        && dst_tree[b.paths[k]].size == b.size && dst_tree[b.paths[k]].modified == b.modified by {
        assert(dst_idx[0].paths[k] == b.paths[k]);
    }
    lemma_bucket_sound(
        b.paths,
        src_idx,
        b.size,
        b.modified,
        src_tree,
        dst_tree,
        checksums,
        Seq::empty(),
    );
    assert forall|i: int, k: int|
        #![trigger dst_idx.skip(1)[i].paths[k]]
        0 <= i < dst_idx.skip(1).len() && 0 <= k < dst_idx.skip(1)[i].paths.len() implies ({
        let pp = dst_idx.skip(1)[i].paths[k];
        &&& dst_tree.contains_key(pp)
        &&& dst_tree[pp].size == dst_idx.skip(1)[i].size
        &&& dst_tree[pp].modified == dst_idx.skip(1)[i].modified
    }) by {
        assert(dst_idx.skip(1)[i] == dst_idx[i + 1]);
        assert(dst_idx[i + 1].paths[k] == dst_idx.skip(1)[i].paths[k]);
    }
    lemma_resolve_sound_tail(src_idx, dst_idx.skip(1), src_tree, dst_tree, checksums);
    let head = spec_process_bucket(
        b.paths,
        src_idx,
        b.size,
        b.modified,
        src_tree,
        dst_tree,
        checksums,
        Seq::empty(),
    );
    let tail = spec_resolve(src_idx, dst_idx.skip(1), src_tree, dst_tree, checksums);
    let r = spec_resolve(src_idx, dst_idx, src_tree, dst_tree, checksums);
    assert(r == head + tail);
    assert forall|t: int| 0 <= t < r.len() implies ({
        let c = #[trigger] r[t];
        &&& c.source != c.destination
        &&& src_tree.contains_key(c.source)
        &&& dst_tree.contains_key(c.destination)
        &&& src_tree[c.source].size == dst_tree[c.destination].size
        &&& src_tree[c.source].modified == dst_tree[c.destination].modified
        &&& (checksums ==> sha1_hex_of(src_tree[c.source].content) == sha1_hex_of(
            dst_tree[c.destination].content,
        ))
    }) by {
        if t < head.len() {
            assert(r[t] == head[t]);
        } else {
            assert(r[t] == tail[t - head.len()]);
        }
    }
}

/// Law: within one fingerprint bucket, when a later destination path
/// resolves to a source file that an earlier destination path of the bucket
/// already matched, the later correspondence is reported as a copy, never as
/// a second independent rename. (Across buckets a source cannot repeat: a
/// correspondence pairs fingerprint-equal files only, and a source file has
/// one fingerprint.)
pub proof fn lemma_repeated_source_is_copy(
    dst_paths: Seq<Seq<char>>,
    src_idx: Seq<BucketV>,
    size: u64,
    modified: u64,
    src_tree: TreeView,
    dst_tree: TreeView,
    checksums: bool,
)
    requires
        idx_matches_tree(src_idx, src_tree),
        forall|k: int|
            0 <= k < dst_paths.len() ==> dst_tree.contains_key(#[trigger] dst_paths[k])
                && dst_tree[dst_paths[k]].size == size && dst_tree[dst_paths[k]].modified
                == modified,
    ensures
        ({
            let r = spec_process_bucket(
                dst_paths,
                src_idx,
                size,
                modified,
                src_tree,
                dst_tree,
                checksums,
                Seq::empty(),
            );
            forall|t: int, u: int|
                #![trigger r[t], r[u]]
                0 <= t < u < r.len() && r[t].source == r[u].source ==> r[u].kind
                    == MatchKind::Copy
        }),
{
    lemma_bucket_sound(
        dst_paths,
        src_idx,
        size,
        modified,
        src_tree,
        dst_tree,
        checksums,
        Seq::empty(),
    );
}

/// The destination paths matched by one bucket's run.
pub open spec fn matched_destinations(r: Seq<CorrV>) -> Set<Seq<char>> {
    Set::new(|p: Seq<char>| exists|t: int| 0 <= t < r.len() && (#[trigger] r[t]).destination == p)
}

/// A destination accepted with verification on is accepted with it off too.
proof fn lemma_find_match_flag(
    cands: Seq<Seq<char>>,
    d: Seq<char>,
    src_tree: TreeView,
    dst_tree: TreeView,
)
    ensures
        spec_find_match(cands, d, src_tree, dst_tree, true) is Some ==> spec_find_match(
            cands,
            d,
            src_tree,
            dst_tree,
            false,
        ) is Some,
    decreases cands.len(),
{
    if cands.len() > 0 {
        lemma_find_match_flag(cands.skip(1), d, src_tree, dst_tree);
    }
}

/// Within one bucket, the destinations matched with verification on are
/// among those matched with it off, whatever was accepted so far on either
/// side.
proof fn lemma_bucket_flag(
    dst_paths: Seq<Seq<char>>,
    src_idx: Seq<BucketV>,
    size: u64,
    modified: u64,
    src_tree: TreeView,
    dst_tree: TreeView,
    acc_on: Seq<Seq<char>>,
    acc_off: Seq<Seq<char>>,
)
    ensures
        ({
            let r_on = spec_process_bucket(
                dst_paths,
                src_idx,
                size,
                modified,
                src_tree,
                dst_tree,
                true,
                acc_on,
            );
            let r_off = spec_process_bucket(
                dst_paths,
                src_idx,
                size,
                modified,
                src_tree,
                dst_tree,
                false,
                acc_off,
            );
            matched_destinations(r_on).subset_of(matched_destinations(r_off))
        }),
    decreases dst_paths.len(),
{
    let r_on = spec_process_bucket(
        dst_paths,
        src_idx,
        size,
        modified,
        src_tree,
        dst_tree,
        true,
        acc_on,
    );
    let r_off = spec_process_bucket(
        dst_paths,
        src_idx,
        size,
        modified,
        src_tree,
        dst_tree,
        false,
        acc_off,
    );
    if dst_paths.len() == 0 {
        assert forall|p: Seq<char>| matched_destinations(r_on).contains(p) implies
        matched_destinations(r_off).contains(p) by {
            let t = choose|t: int| 0 <= t < r_on.len() && (#[trigger] r_on[t]).destination == p;
        }
        return;
    }
    let d = dst_paths[0];
    let p0 = bucket_pos(src_idx, size, modified);
    let f_on = spec_find_in_index(src_idx, size, modified, d, src_tree, dst_tree, true);
    let f_off = spec_find_in_index(src_idx, size, modified, d, src_tree, dst_tree, false);
    if p0 >= 0 {
        lemma_find_match_flag(src_idx[p0].paths, d, src_tree, dst_tree);
    }
    let acc_on2: Seq<Seq<char>> = if f_on is Some {
        acc_on.push(f_on.unwrap())
    } else {
        acc_on
    };
    let acc_off2: Seq<Seq<char>> = if f_off is Some {
        acc_off.push(f_off.unwrap())
    } else {
        acc_off
    };
    lemma_bucket_flag(
        dst_paths.skip(1),
        src_idx,
        size,
        modified,
        src_tree,
        dst_tree,
        acc_on2,
        acc_off2,
    );
    let t_on = spec_process_bucket(
        dst_paths.skip(1),
        src_idx,
        size,
        modified,
        src_tree,
        dst_tree,
        true,
        acc_on2,
    );
    let t_off = spec_process_bucket(
        dst_paths.skip(1),
        src_idx,
        size,
        modified,
        src_tree,
        dst_tree,
        false,
        acc_off2,
    );
    assert forall|p: Seq<char>| matched_destinations(r_on).contains(p) implies
    matched_destinations(r_off).contains(p) by {
        let t = choose|t: int| 0 <= t < r_on.len() && (#[trigger] r_on[t]).destination == p;
        if f_on is Some && t == 0 {
            assert(f_off is Some);
            assert(r_off[0].destination == d);
        } else {
            let shift: int = if f_on is Some {
                1
            } else {
                0
            };
            assert(r_on[t] == t_on[t - shift]);
            assert(matched_destinations(t_on).contains(p));
            let u = choose|u: int| 0 <= u < t_on.len() && (#[trigger] t_on[u]).destination == p;
            assert(matched_destinations(t_off).contains(p));
            let w = choose|w: int| 0 <= w < t_off.len() && (#[trigger] t_off[w]).destination == p;
            let shift2: int = if f_off is Some {
                1
            } else {
                0
            };
            assert(r_off[w + shift2] == t_off[w]);
        }
    }
}

/// Law: disabling checksum verification changes no grouping. The metadata
/// indexes are built without regard to the flag, every correspondence under
/// either flag pairs files of its bucket's fingerprint (see
/// `lemma_resolve_sound`, which holds for both flag values), and every
/// destination matched with verification on is still matched with it off —
/// only which candidate of the bucket is selected may change.
pub proof fn lemma_checksum_flag_keeps_buckets(
    dst_paths: Seq<Seq<char>>,
    src_idx: Seq<BucketV>,
    size: u64,
    modified: u64,
    src_tree: TreeView,
    dst_tree: TreeView,
)
    ensures
        matched_destinations(
            spec_process_bucket(
                dst_paths,
                src_idx,
                size,
                modified,
                src_tree,
                dst_tree,
                true,
                Seq::empty(),
            ),
        ).subset_of(
            matched_destinations(
                spec_process_bucket(
                    dst_paths,
                    src_idx,
                    size,
                    modified,
                    src_tree,
                    dst_tree,
                    false,
                    Seq::empty(),
                ),
            ),
        ),
{
    lemma_bucket_flag(
        dst_paths,
        src_idx,
        size,
        modified,
        src_tree,
        dst_tree,
        Seq::empty(),
        Seq::empty(),
    );
}

/// The scan accepts exactly `g` for `d` when `g` stands among the
/// candidates, matches `d` by checksum, and no other candidate does.
proof fn lemma_find_match_hits(
    cands: Seq<Seq<char>>,
    d: Seq<char>,
    src_tree: TreeView,
    dst_tree: TreeView,
    g: Seq<char>,
)
    requires
        cands.contains(g),
        g != d,
        sha1_hex_of(src_tree[g].content) == sha1_hex_of(dst_tree[d].content),
        forall|j: int|
            0 <= j < cands.len() && cands[j] != g && cands[j] != d ==> sha1_hex_of(
                (#[trigger] src_tree[cands[j]]).content,
            ) != sha1_hex_of(dst_tree[d].content),
    ensures
        spec_find_match(cands, d, src_tree, dst_tree, true) == Some(g),
    decreases cands.len(),
{
    let w = choose|w: int| 0 <= w < cands.len() && cands[w] == g;
    if cands[0] == d {
        assert(cands.skip(1)[w - 1] == g);
        assert(cands.skip(1).contains(g));
        assert forall|j: int|
            0 <= j < cands.skip(1).len() && cands.skip(1)[j] != g && cands.skip(1)[j]
                != d implies sha1_hex_of((#[trigger] src_tree[cands.skip(1)[j]]).content)
            != sha1_hex_of(dst_tree[d].content) by {
            assert(cands.skip(1)[j] == cands[j + 1]);
        }
        lemma_find_match_hits(cands.skip(1), d, src_tree, dst_tree, g);
    } else if cands[0] == g {
    } else {
        assert(sha1_hex_of(src_tree[cands[0]].content) != sha1_hex_of(dst_tree[d].content));
        assert(0 < w);
        assert(cands.skip(1)[w - 1] == g);
        assert(cands.skip(1).contains(g));
        assert forall|j: int|
            0 <= j < cands.skip(1).len() && cands.skip(1)[j] != g && cands.skip(1)[j]
                != d implies sha1_hex_of((#[trigger] src_tree[cands.skip(1)[j]]).content)
            != sha1_hex_of(dst_tree[d].content) by {
            assert(cands.skip(1)[j] == cands[j + 1]);
        }
        lemma_find_match_hits(cands.skip(1), d, src_tree, dst_tree, g);
    }
}

/// A bucket holding the renamed file's old path reports it renamed to its
/// new source path, so long as no other file of the bucket shares its
/// content checksum and the new path is still free in the destination tree.
proof fn lemma_bucket_detects(
    dst_paths: Seq<Seq<char>>,
    src_idx: Seq<BucketV>,
    size: u64,
    modified: u64,
    src_tree: TreeView,
    dst_tree: TreeView,
    f: Seq<char>,
    g: Seq<char>,
    accepted: Seq<Seq<char>>,
)
    requires
        idx_wf(src_idx),
        idx_matches_tree(src_idx, src_tree),
        dst_paths.contains(f),
        forall|k: int|
            0 <= k < dst_paths.len() ==> dst_tree.contains_key(#[trigger] dst_paths[k])
                && dst_tree[dst_paths[k]].size == size && dst_tree[dst_paths[k]].modified
                == modified,
        f != g,
        !dst_tree.contains_key(g),
        src_tree.contains_key(g),
        src_tree[g].size == size,
        src_tree[g].modified == modified,
        sha1_hex_of(src_tree[g].content) == sha1_hex_of(dst_tree[f].content),
        forall|p: Seq<char>|
            src_tree.contains_key(p) && p != g && (#[trigger] src_tree[p]).size == size
                && src_tree[p].modified == modified ==> sha1_hex_of(src_tree[p].content)
                != sha1_hex_of(dst_tree[f].content),
        forall|d: Seq<char>|
            dst_tree.contains_key(d) && d != f && (#[trigger] dst_tree[d]).size == size
                && dst_tree[d].modified == modified ==> sha1_hex_of(dst_tree[d].content)
                != sha1_hex_of(dst_tree[f].content),
        !accepted.contains(g),
    ensures
        spec_process_bucket(
            dst_paths,
            src_idx,
            size,
            modified,
            src_tree,
            dst_tree,
            true,
            accepted,
        ).contains(CorrV { source: g, destination: f, kind: MatchKind::Rename }),
    decreases dst_paths.len(),
{
    let d = dst_paths[0];
    let p = bucket_pos(src_idx, size, modified);
    lemma_bucket_pos(src_idx, size, modified);
    // the source bucket of this fingerprint exists: it lists g
    assert(crate::meta::path_in_index(src_idx, g) && p >= 0) by {
        assert(crate::meta::path_in_index(src_idx, g));
        let (bi, bk): (int, int) = choose|bi: int, bk: int|
            0 <= bi < src_idx.len() && 0 <= bk < src_idx[bi].paths.len()
                && #[trigger] src_idx[bi].paths[bk] == g;
        assert(src_tree[src_idx[bi].paths[bk]].size == src_idx[bi].size);
        assert(src_idx[bi].size == size && src_idx[bi].modified == modified);
        if p < 0 {
            assert(!(src_idx[bi].size == size && src_idx[bi].modified == modified));
        }
    }
    let cands = src_idx[p].paths;
    assert forall|j: int| 0 <= j < cands.len() implies src_tree.contains_key(#[trigger] cands[j])
        && src_tree[cands[j]].size == size && src_tree[cands[j]].modified == modified by {
        assert(src_idx[p].paths[j] == cands[j]);
    }
    // g stands in that bucket: fingerprints are unique across buckets
    assert(cands.contains(g)) by {
        let (bi, bk): (int, int) = choose|bi: int, bk: int|
            0 <= bi < src_idx.len() && 0 <= bk < src_idx[bi].paths.len()
                && #[trigger] src_idx[bi].paths[bk] == g;
        assert(src_tree[src_idx[bi].paths[bk]].size == src_idx[bi].size);
        assert(src_idx[bi].size == size && src_idx[bi].modified == modified);
        assert(src_idx[p].size == size && src_idx[p].modified == modified);
        assert(bi == p);
        assert(cands[bk] == g);
    }
    let found = spec_find_in_index(src_idx, size, modified, d, src_tree, dst_tree, true);
    if d == f {
        assert forall|j: int|
            0 <= j < cands.len() && cands[j] != g && cands[j] != d implies sha1_hex_of(
            (#[trigger] src_tree[cands[j]]).content,
        ) != sha1_hex_of(dst_tree[d].content) by {
            assert(src_tree.contains_key(cands[j]));
        }
        lemma_find_match_hits(cands, f, src_tree, dst_tree, g);
        assert(found == Some(g));
        let kind = crate::resolver::spec_kind(g, src_tree, dst_tree, accepted);
        assert(!crate::resolver::spec_is_copy(g, src_tree, dst_tree, accepted));
        assert(kind == MatchKind::Rename);
        let r = spec_process_bucket(
            dst_paths,
            src_idx,
            size,
            modified,
            src_tree,
            dst_tree,
            true,
            accepted,
        );
        assert(r[0] == (CorrV { source: g, destination: f, kind: MatchKind::Rename }));
        assert(r.contains(CorrV { source: g, destination: f, kind: MatchKind::Rename }));
    } else {
        // this destination is not the renamed file; whatever it matches, it
        // is not g, whose checksum only f carries
        assert(dst_paths.skip(1).contains(f)) by {
            let t = choose|t: int| 0 <= t < dst_paths.len() && dst_paths[t] == f;
            assert(t != 0);
            assert(dst_paths.skip(1)[t - 1] == f);
        }
        assert forall|k: int|
            0 <= k < dst_paths.skip(1).len() implies dst_tree.contains_key(
            #[trigger] dst_paths.skip(1)[k],
        ) && dst_tree[dst_paths.skip(1)[k]].size == size && dst_tree[dst_paths.skip(1)[k]].modified
            == modified by {
            assert(dst_paths.skip(1)[k] == dst_paths[k + 1]);
        }
        match found {
            Option::None => {
                lemma_bucket_detects(
                    dst_paths.skip(1),
                    src_idx,
                    size,
                    modified,
                    src_tree,
                    dst_tree,
                    f,
                    g,
                    accepted,
                );
            },
            Option::Some(s) => {
                lemma_find_match_props(cands, d, src_tree, dst_tree, true);
                assert(s != g) by {
                    if s == g {
                        assert(sha1_hex_of(src_tree[g].content) == sha1_hex_of(
                            dst_tree[d].content,
                        ));
                        assert(dst_tree.contains_key(d) && dst_tree[d].size == size
                            && dst_tree[d].modified == modified);
                        assert(sha1_hex_of(dst_tree[d].content) != sha1_hex_of(
                            dst_tree[f].content,
                        ));
                    }
                }
                assert(!accepted.push(s).contains(g)) by {
                    if accepted.push(s).contains(g) {
                        let t = choose|t: int|
                            0 <= t < accepted.push(s).len() && accepted.push(s)[t] == g;
                        if t < accepted.len() {
                            assert(accepted[t] == g);
                        }
                    }
                }
                lemma_bucket_detects(
                    dst_paths.skip(1),
                    src_idx,
                    size,
                    modified,
                    src_tree,
                    dst_tree,
                    f,
                    g,
                    accepted.push(s),
                );
                let head = CorrV {
                    source: s,
                    destination: d,
                    kind: crate::resolver::spec_kind(s, src_tree, dst_tree, accepted),
                };
                let tail = spec_process_bucket(
                    dst_paths.skip(1),
                    src_idx,
                    size,
                    modified,
                    src_tree,
                    dst_tree,
                    true,
                    accepted.push(s),
                );
                let r = spec_process_bucket(
                    dst_paths,
                    src_idx,
                    size,
                    modified,
                    src_tree,
                    dst_tree,
                    true,
                    accepted,
                );
                assert(r == seq![head] + tail);
                let u = choose|u: int|
                    0 <= u < tail.len() && tail[u] == (CorrV {
                        source: g,
                        destination: f,
                        kind: MatchKind::Rename,
                    });
                assert(r[u + 1] == tail[u]);
                assert(r.contains(CorrV { source: g, destination: f, kind: MatchKind::Rename }));
            },
        }
    }
}

/// Step through the destination buckets to the one holding the renamed
/// file's old path.
proof fn lemma_resolve_detects(
    src_idx: Seq<BucketV>,
    dst_idx: Seq<BucketV>,
    src_tree: TreeView,
    dst_tree: TreeView,
    f: Seq<char>,
    g: Seq<char>,
    i: int,
)
    requires
        idx_wf(src_idx),
        idx_matches_tree(src_idx, src_tree),
        forall|bi: int, k: int|
            #![trigger dst_idx[bi].paths[k]]
            0 <= bi < dst_idx.len() && 0 <= k < dst_idx[bi].paths.len() ==> ({
                let pp = dst_idx[bi].paths[k];
                &&& dst_tree.contains_key(pp)
                &&& dst_tree[pp].size == dst_idx[bi].size
                &&& dst_tree[pp].modified == dst_idx[bi].modified
            }),
        0 <= i < dst_idx.len(),
        dst_idx[i].paths.contains(f),
        f != g,
        !dst_tree.contains_key(g),
        dst_tree.contains_key(f),
        src_tree.contains_key(g),
        src_tree[g] == dst_tree[f],
        forall|p: Seq<char>|
            src_tree.contains_key(p) && p != g && (#[trigger] src_tree[p]).size
                == dst_tree[f].size && src_tree[p].modified == dst_tree[f].modified
                ==> sha1_hex_of(src_tree[p].content) != sha1_hex_of(dst_tree[f].content),
        forall|d: Seq<char>|
            dst_tree.contains_key(d) && d != f && (#[trigger] dst_tree[d]).size
                == dst_tree[f].size && dst_tree[d].modified == dst_tree[f].modified
                ==> sha1_hex_of(dst_tree[d].content) != sha1_hex_of(dst_tree[f].content),
    ensures
        spec_resolve(src_idx, dst_idx, src_tree, dst_tree, true).contains(
            CorrV { source: g, destination: f, kind: MatchKind::Rename },
        ),
    decreases i,
{
    let corr = CorrV { source: g, destination: f, kind: MatchKind::Rename };
    let b = dst_idx[0];
    let head = spec_process_bucket(
        b.paths,
        src_idx,
        b.size,
        b.modified,
        src_tree,
        dst_tree,
        true,
        Seq::empty(),
    );
    let tail = spec_resolve(src_idx, dst_idx.skip(1), src_tree, dst_tree, true);
    let r = spec_resolve(src_idx, dst_idx, src_tree, dst_tree, true);
    assert(r == head + tail);
    if i == 0 {
        let k = choose|k: int| 0 <= k < b.paths.len() && b.paths[k] == f;
        assert(dst_idx[0].paths[k] == f);
        assert(b.size == dst_tree[f].size && b.modified == dst_tree[f].modified);
        assert forall|k2: int|
            0 <= k2 < b.paths.len() implies dst_tree.contains_key(#[trigger] b.paths[k2])
            && dst_tree[b.paths[k2]].size == b.size && dst_tree[b.paths[k2]].modified
            == b.modified by {
            assert(dst_idx[0].paths[k2] == b.paths[k2]);
        }
        lemma_bucket_detects(
            b.paths,
            src_idx,
            b.size,
            b.modified,
            src_tree,
            dst_tree,
            f,
            g,
            Seq::empty(),
        );
        let u = choose|u: int| 0 <= u < head.len() && head[u] == corr;
        assert(r[u] == corr);
        assert(r.contains(corr));
    } else {
        assert forall|bi: int, k: int|
            #![trigger dst_idx.skip(1)[bi].paths[k]]
            0 <= bi < dst_idx.skip(1).len() && 0 <= k < dst_idx.skip(1)[bi].paths.len() implies ({
            let pp = dst_idx.skip(1)[bi].paths[k];
            &&& dst_tree.contains_key(pp)
            &&& dst_tree[pp].size == dst_idx.skip(1)[bi].size
            &&& dst_tree[pp].modified == dst_idx.skip(1)[bi].modified
        }) by {
            assert(dst_idx.skip(1)[bi] == dst_idx[bi + 1]);
            assert(dst_idx[bi + 1].paths[k] == dst_idx.skip(1)[bi].paths[k]);
        }
        assert(dst_idx.skip(1)[i - 1] == dst_idx[i]);
        lemma_resolve_detects(src_idx, dst_idx.skip(1), src_tree, dst_tree, f, g, i - 1);
        let u = choose|u: int| 0 <= u < tail.len() && tail[u] == corr;
        assert(r[head.len() + u] == corr);
        assert(r.contains(corr));
    }
}

/// Law: renaming file `f` to `g` in the source tree — size, modification
/// time and content unchanged — while the destination tree is an exact prior
/// copy still holding `f`, is reported as `f` renamed to `g`, provided no
/// other destination file shares `f`'s fingerprint and checksum (with such a
/// duplicate the run may pair `f` with the duplicate's source instead).
pub proof fn lemma_rename_detected(
    src_idx: Seq<BucketV>,
    dst_idx: Seq<BucketV>,
    src_tree: TreeView,
    dst_tree: TreeView,
    f: Seq<char>,
    g: Seq<char>,
)
    requires
        idx_wf(src_idx),
        idx_matches_tree(src_idx, src_tree),
        idx_matches_tree(dst_idx, dst_tree),
        f != g,
        dst_tree.contains_key(f),
        !dst_tree.contains_key(g),
        src_tree == dst_tree.remove(f).insert(g, dst_tree[f]),
        forall|d: Seq<char>|
            dst_tree.contains_key(d) && d != f && (#[trigger] dst_tree[d]).size
                == dst_tree[f].size && dst_tree[d].modified == dst_tree[f].modified
                ==> sha1_hex_of(dst_tree[d].content) != sha1_hex_of(dst_tree[f].content),
    ensures
        spec_resolve(src_idx, dst_idx, src_tree, dst_tree, true).contains(
            CorrV { source: g, destination: f, kind: MatchKind::Rename },
        ),
{
    assert(src_tree.contains_key(g) && src_tree[g] == dst_tree[f]);
    assert(!src_tree.contains_key(f));
    assert forall|p: Seq<char>|
        src_tree.contains_key(p) && p != g && (#[trigger] src_tree[p]).size == dst_tree[f].size
            && src_tree[p].modified == dst_tree[f].modified implies sha1_hex_of(
        src_tree[p].content,
    ) != sha1_hex_of(dst_tree[f].content) by {
        assert(dst_tree.contains_key(p) && p != f);
        assert(src_tree[p] == dst_tree[p]);
    }
    assert(crate::meta::path_in_index(dst_idx, f));
    let (i, k): (int, int) = choose|i: int, k: int|
        0 <= i < dst_idx.len() && 0 <= k < dst_idx[i].paths.len() && #[trigger] dst_idx[i].paths[k]
            == f;
    assert(dst_idx[i].paths.contains(f));
    lemma_resolve_detects(src_idx, dst_idx, src_tree, dst_tree, f, g, i);
}

/// Some correspondence of the run names this destination path.
pub open spec fn run_matches_destination(r: Seq<CorrV>, q: Seq<char>) -> bool {
    exists|t: int| 0 <= t < r.len() && (#[trigger] r[t]).destination == q
}

/// Some correspondence of the run names this source path.
pub open spec fn run_matches_source(r: Seq<CorrV>, q: Seq<char>) -> bool {
    exists|t: int| 0 <= t < r.len() && (#[trigger] r[t]).source == q
}

/// With every destination bucket holding at most one path, a run consists
/// of renames only, no destination or source repeats, every matched
/// destination's fingerprint names a bucket, and every singleton bucket
/// whose path finds a candidate is matched.
proof fn lemma_resolve_structure(
    src_idx: Seq<BucketV>,
    dst_idx: Seq<BucketV>,
    src_tree: TreeView,
    dst_tree: TreeView,
)
    requires
        idx_matches_tree(src_idx, src_tree),
        forall|i: int| 0 <= i < dst_idx.len() ==> (#[trigger] dst_idx[i]).paths.len() <= 1,
        forall|i: int, j: int|
            #![trigger dst_idx[i], dst_idx[j]]
            0 <= i < dst_idx.len() && 0 <= j < dst_idx.len() && i != j ==> !(dst_idx[i].size
                == dst_idx[j].size && dst_idx[i].modified == dst_idx[j].modified),
        forall|i: int, k: int|
            #![trigger dst_idx[i].paths[k]]
            0 <= i < dst_idx.len() && 0 <= k < dst_idx[i].paths.len() ==> ({
                let pp = dst_idx[i].paths[k];
                &&& dst_tree.contains_key(pp)
                &&& dst_tree[pp].size == dst_idx[i].size
                &&& dst_tree[pp].modified == dst_idx[i].modified
            }),
    ensures
        ({
            let r = spec_resolve(src_idx, dst_idx, src_tree, dst_tree, true);
            &&& forall|t: int| 0 <= t < r.len() ==> (#[trigger] r[t]).kind == MatchKind::Rename
            &&& forall|t: int, u: int|
                #![trigger r[t], r[u]]
                0 <= t < u < r.len() ==> r[t].destination != r[u].destination && r[t].source
                    != r[u].source
            &&& forall|t: int|
                0 <= t < r.len() ==> ({
                    let c = #[trigger] r[t];
                    &&& c.source != c.destination
                    &&& src_tree.contains_key(c.source)
                    &&& dst_tree.contains_key(c.destination)
                    &&& src_tree[c.source].size == dst_tree[c.destination].size
                    &&& src_tree[c.source].modified == dst_tree[c.destination].modified
                    &&& sha1_hex_of(src_tree[c.source].content) == sha1_hex_of(
                        dst_tree[c.destination].content,
                    )
                    &&& bucket_pos(
                        dst_idx,
                        dst_tree[c.destination].size,
                        dst_tree[c.destination].modified,
                    ) >= 0
                })
            &&& forall|i: int|
                0 <= i < dst_idx.len() && (#[trigger] dst_idx[i]).paths.len() == 1
                    && spec_find_in_index(
                    src_idx,
                    dst_idx[i].size,
                    dst_idx[i].modified,
                    dst_idx[i].paths[0],
                    src_tree,
                    dst_tree,
                    true,
                ) is Some ==> run_matches_destination(r, dst_idx[i].paths[0])
        }),
    decreases dst_idx.len(),
{
    let r = spec_resolve(src_idx, dst_idx, src_tree, dst_tree, true);
    if dst_idx.len() == 0 {
        return;
    }
    let b = dst_idx[0];
    let rest = dst_idx.skip(1);
    assert forall|i: int, j: int|
        #![trigger rest[i], rest[j]]
        0 <= i < rest.len() && 0 <= j < rest.len() && i != j implies !(rest[i].size == rest[j].size
        && rest[i].modified == rest[j].modified) by {
        assert(rest[i] == dst_idx[i + 1] && rest[j] == dst_idx[j + 1]);
    }
    assert forall|i: int, k: int|
        #![trigger rest[i].paths[k]]
        0 <= i < rest.len() && 0 <= k < rest[i].paths.len() implies ({
        let pp = rest[i].paths[k];
        &&& dst_tree.contains_key(pp)
        &&& dst_tree[pp].size == rest[i].size
        &&& dst_tree[pp].modified == rest[i].modified
    }) by {
        assert(rest[i] == dst_idx[i + 1]);
        assert(dst_idx[i + 1].paths[k] == rest[i].paths[k]);
    }
    assert(forall|i: int| 0 <= i < rest.len() ==> (#[trigger] rest[i]).paths.len() <= 1) by {
        assert(forall|i: int|
            0 <= i < rest.len() ==> #[trigger] rest[i] == dst_idx[i + 1]);
    }
    lemma_resolve_structure(src_idx, rest, src_tree, dst_tree);
    let head = spec_process_bucket(
        b.paths,
        src_idx,
        b.size,
        b.modified,
        src_tree,
        dst_tree,
        true,
        Seq::empty(),
    );
    let tail = spec_resolve(src_idx, rest, src_tree, dst_tree, true);
    assert(r == head + tail);
    // the head bucket holds at most one path, so it emits at most one
    // rename
    if b.paths.len() == 1 {
        let q = b.paths[0];
        assert(dst_idx[0].paths[0] == q);
        assert(dst_tree.contains_key(q) && dst_tree[q].size == b.size && dst_tree[q].modified
            == b.modified);
        let found = spec_find_in_index(src_idx, b.size, b.modified, q, src_tree, dst_tree, true);
        match found {
            Option::None => {
                assert(b.paths.skip(1) =~= Seq::<Seq<char>>::empty());
                assert(spec_process_bucket(
                    Seq::<Seq<char>>::empty(),
                    src_idx,
                    b.size,
                    b.modified,
                    src_tree,
                    dst_tree,
                    true,
                    Seq::empty(),
                ) =~= Seq::<CorrV>::empty());
                assert(head =~= Seq::<CorrV>::empty());
                assert(r =~= tail);
            },
            Option::Some(sq) => {
                assert(b.paths.skip(1) =~= Seq::<Seq<char>>::empty());
                let kind = crate::resolver::spec_kind(sq, src_tree, dst_tree, Seq::empty());
                assert(kind == MatchKind::Rename);
                let c0 = CorrV { source: sq, destination: q, kind };
                assert(spec_process_bucket(
                    Seq::<Seq<char>>::empty(),
                    src_idx,
                    b.size,
                    b.modified,
                    src_tree,
                    dst_tree,
                    true,
                    Seq::empty().push(sq),
                ) =~= Seq::<CorrV>::empty());
                assert(head =~= seq![c0]);
                let p = bucket_pos(src_idx, b.size, b.modified);
                lemma_bucket_pos(src_idx, b.size, b.modified);
                lemma_find_match_props(src_idx[p].paths, q, src_tree, dst_tree, true);
                let w = choose|w: int|
                    0 <= w < src_idx[p].paths.len() && src_idx[p].paths[w] == sq;
                assert(src_idx[p].paths[w] == sq);
                assert(src_tree.contains_key(sq) && src_tree[sq].size == b.size
                    && src_tree[sq].modified == b.modified);
                assert(bucket_pos(dst_idx, dst_tree[q].size, dst_tree[q].modified) >= 0) by {
                    lemma_bucket_pos(dst_idx, b.size, b.modified);
                    if bucket_pos(dst_idx, b.size, b.modified) < 0 {
                        assert(!(dst_idx[0].size == b.size && dst_idx[0].modified == b.modified));
                    }
                }
                assert(r[0] == c0);
                assert(forall|t: int| 1 <= t < r.len() ==> #[trigger] r[t] == tail[t - 1]);
                assert(run_matches_destination(r, q));
                // head and tail never collide: their fingerprints differ
                assert forall|u: int| 1 <= u < r.len() implies c0.destination
                    != r[u].destination && c0.source != r[u].source by {
                    let cu = tail[u - 1];
                    let pu = bucket_pos(
                        rest,
                        dst_tree[cu.destination].size,
                        dst_tree[cu.destination].modified,
                    );
                    lemma_bucket_pos(
                        rest,
                        dst_tree[cu.destination].size,
                        dst_tree[cu.destination].modified,
                    );
                    assert(rest[pu] == dst_idx[pu + 1]);
                    assert(!(dst_idx[pu + 1].size == b.size && dst_idx[pu + 1].modified
                        == b.modified));
                    if c0.destination == cu.destination {
                        assert(dst_tree[cu.destination].size == b.size
                            && dst_tree[cu.destination].modified == b.modified);
                    }
                    if c0.source == cu.source {
                        assert(src_tree[cu.source].size == dst_tree[cu.destination].size);
                        assert(src_tree[c0.source].size == b.size);
                        assert(src_tree[c0.source].modified == b.modified);
                        assert(dst_tree[cu.destination].size == b.size
                            && dst_tree[cu.destination].modified == b.modified);
                    }
                }
            },
        }
    } else {
        assert(b.paths.len() == 0);
        assert(head =~= Seq::<CorrV>::empty());
        assert(r =~= tail);
    }
    // matched singleton buckets: position 0 is handled above, the rest by
    // the tail
    assert forall|i: int|
        0 <= i < dst_idx.len() && (#[trigger] dst_idx[i]).paths.len() == 1 && spec_find_in_index(
            src_idx,
            dst_idx[i].size,
            dst_idx[i].modified,
            dst_idx[i].paths[0],
            src_tree,
            dst_tree,
            true,
        ) is Some implies run_matches_destination(r, dst_idx[i].paths[0]) by {
        if i > 0 {
            assert(rest[i - 1] == dst_idx[i]);
            assert(rest[i - 1].paths[0] == dst_idx[i].paths[0]);
            assert(run_matches_destination(tail, dst_idx[i].paths[0]));
            let t = choose|t: int|
                0 <= t < tail.len() && (#[trigger] tail[t]).destination == dst_idx[i].paths[0];
            assert(r[head.len() + t] == tail[t]);
        }
    }
}

/// Membership in a run unfolds over its first correspondence.
proof fn lemma_run_matches_unfold(plan: Seq<CorrV>, q: Seq<char>)
    requires
        plan.len() > 0,
    ensures
        run_matches_source(plan, q) == (plan[0].source == q || run_matches_source(
            plan.skip(1),
            q,
        )),
        run_matches_destination(plan, q) == (plan[0].destination == q || run_matches_destination(
            plan.skip(1),
            q,
        )),
{
    if run_matches_source(plan, q) {
        let t = choose|t: int| 0 <= t < plan.len() && (#[trigger] plan[t]).source == q;
        if t > 0 {
            assert(plan.skip(1)[t - 1].source == q);
        }
    }
    if run_matches_source(plan.skip(1), q) {
        let t = choose|t: int| 0 <= t < plan.skip(1).len() && (#[trigger] plan.skip(1)[t]).source
            == q;
        assert(plan[t + 1].source == q);
    }
    if plan[0].source == q {
        assert(run_matches_source(plan, q));
    }
    if run_matches_destination(plan, q) {
        let t = choose|t: int| 0 <= t < plan.len() && (#[trigger] plan[t]).destination == q;
        if t > 0 {
            assert(plan.skip(1)[t - 1].destination == q);
        }
    }
    if run_matches_destination(plan.skip(1), q) {
        let t = choose|t: int|
            0 <= t < plan.skip(1).len() && (#[trigger] plan.skip(1)[t]).destination == q;
        assert(plan[t + 1].destination == q);
    }
    if plan[0].destination == q {
        assert(run_matches_destination(plan, q));
    }
}

/// Applying a plan whose renames move distinct files to distinct fresh
/// targets applies fully: each moved file now stands at its target with its
/// old content, everything untouched stays, and nothing else appears.
proof fn lemma_apply_plan_moves(tree: TreeView, plan: Seq<CorrV>)
    requires
        forall|t: int|
            0 <= t < plan.len() ==> tree.contains_key((#[trigger] plan[t]).destination)
                && !tree.contains_key(plan[t].source),
        forall|t: int, u: int|
            #![trigger plan[t], plan[u]]
            0 <= t < u < plan.len() ==> plan[t].destination != plan[u].destination
                && plan[t].source != plan[u].source,
    ensures
        spec_plan_applies(tree, plan),
        forall|q: Seq<char>| #[trigger]
            spec_apply_plan(tree, plan).contains_key(q) == (run_matches_source(plan, q) || (
            tree.contains_key(q) && !run_matches_destination(plan, q))),
        forall|q: Seq<char>|
            tree.contains_key(q) && !run_matches_destination(plan, q) ==> #[trigger] spec_apply_plan(
                tree,
                plan,
            )[q] == tree[q],
        forall|t: int|
            0 <= t < plan.len() ==> spec_apply_plan(tree, plan)[(#[trigger] plan[t]).source]
                == tree[plan[t].destination],
    decreases plan.len(),
{
    let tree2 = spec_apply_plan(tree, plan);
    if plan.len() == 0 {
        assert forall|q: Seq<char>| #[trigger]
            tree2.contains_key(q) == (run_matches_source(plan, q) || (tree.contains_key(q)
                && !run_matches_destination(plan, q))) by {
            if run_matches_source(plan, q) {
                let t = choose|t: int| 0 <= t < plan.len() && (#[trigger] plan[t]).source == q;
            }
            if run_matches_destination(plan, q) {
                let t = choose|t: int|
                    0 <= t < plan.len() && (#[trigger] plan[t]).destination == q;
            }
        }
        return;
    }
    let d0 = plan[0].destination;
    let s0 = plan[0].source;
    let mid = crate::executor::spec_apply_rename(tree, d0, s0);
    let rest = plan.skip(1);
    assert(forall|t: int| 0 <= t < rest.len() ==> #[trigger] rest[t] == plan[t + 1]);
    assert forall|t: int|
        0 <= t < rest.len() implies mid.contains_key((#[trigger] rest[t]).destination)
        && !mid.contains_key(rest[t].source) by {
        assert(rest[t] == plan[t + 1]);
        assert(plan[t + 1].destination != d0 && plan[t + 1].source != s0);
        assert(tree.contains_key(plan[t + 1].destination));
        assert(plan[t + 1].destination != s0);
        assert(!tree.contains_key(plan[t + 1].source));
    }
    assert forall|t: int, u: int|
        #![trigger rest[t], rest[u]]
        0 <= t < u < rest.len() implies rest[t].destination != rest[u].destination
        && rest[t].source != rest[u].source by {
        assert(rest[t] == plan[t + 1] && rest[u] == plan[u + 1]);
    }
    lemma_apply_plan_moves(mid, rest);
    assert(tree2 == spec_apply_plan(mid, rest));
    assert forall|q: Seq<char>| #[trigger]
        tree2.contains_key(q) == (run_matches_source(plan, q) || (tree.contains_key(q)
            && !run_matches_destination(plan, q))) by {
        lemma_run_matches_unfold(plan, q);
        assert(tree2.contains_key(q) == (run_matches_source(rest, q) || (mid.contains_key(q)
            && !run_matches_destination(rest, q))));
        if q == s0 {
            assert(mid.contains_key(s0));
            if run_matches_destination(rest, s0) {
                let t = choose|t: int|
                    0 <= t < rest.len() && (#[trigger] rest[t]).destination == s0;
                assert(tree.contains_key(plan[t + 1].destination));
            }
            assert(run_matches_source(plan, q));
            assert(tree2.contains_key(q));
        } else if q == d0 {
            assert(!mid.contains_key(d0) || d0 == s0);
            assert(run_matches_destination(plan, q));
            if run_matches_source(rest, d0) {
                let t = choose|t: int| 0 <= t < rest.len() && (#[trigger] rest[t]).source == d0;
                assert(!tree.contains_key(plan[t + 1].source));
                assert(false);
            }
            assert(!tree2.contains_key(q));
        } else {
            assert(mid.contains_key(q) == tree.contains_key(q));
        }
    }
    assert forall|q: Seq<char>|
        tree.contains_key(q) && !run_matches_destination(plan, q) implies #[trigger] tree2[q]
        == tree[q] by {
        lemma_run_matches_unfold(plan, q);
        assert(q != d0);
        assert(q != s0);
        assert(mid.contains_key(q) && mid[q] == tree[q]);
    }
    assert forall|t: int|
        0 <= t < plan.len() implies tree2[(#[trigger] plan[t]).source] == tree[plan[t].destination] by {
        if t == 0 {
            assert(mid.contains_key(s0) && mid[s0] == tree[d0]);
            assert(!run_matches_destination(rest, s0)) by {
                if run_matches_destination(rest, s0) {
                    let u = choose|u: int|
                        0 <= u < rest.len() && (#[trigger] rest[u]).destination == s0;
                    assert(tree.contains_key(plan[u + 1].destination));
                }
            }
            assert(tree2[s0] == mid[s0]);
        } else {
            assert(rest[t - 1] == plan[t]);
            assert(tree2[rest[t - 1].source] == mid[rest[t - 1].destination]);
            assert(plan[t].destination != d0 && plan[t].destination != s0);
            assert(mid[plan[t].destination] == tree[plan[t].destination]);
        }
    }
}

/// A run of renames alone is its own plan.
proof fn lemma_plan_of_all_renames(r: Seq<CorrV>)
    requires
        forall|t: int| 0 <= t < r.len() ==> (#[trigger] r[t]).kind == MatchKind::Rename,
    ensures
        spec_rename_plan(r) == r,
    decreases r.len(),
{
    if r.len() > 0 {
        assert(forall|t: int| 0 <= t < r.drop_last().len() ==> #[trigger] r.drop_last()[t]
            == r[t]);
        lemma_plan_of_all_renames(r.drop_last());
        assert(r[r.len() - 1].kind == MatchKind::Rename);
        assert(spec_rename_plan(r) =~= r);
    }
}

/// A bucket none of whose paths finds a candidate produces nothing.
proof fn lemma_bucket_empty_no_match(
    dst_paths: Seq<Seq<char>>,
    src_idx: Seq<BucketV>,
    size: u64,
    modified: u64,
    src_tree: TreeView,
    tree2: TreeView,
    accepted: Seq<Seq<char>>,
)
    requires
        forall|k: int|
            0 <= k < dst_paths.len() ==> spec_find_in_index(
                src_idx,
                size,
                modified,
                #[trigger] dst_paths[k],
                src_tree,
                tree2,
                true,
            ) is None,
    ensures
        spec_process_bucket(dst_paths, src_idx, size, modified, src_tree, tree2, true, accepted)
            == Seq::<CorrV>::empty(),
    decreases dst_paths.len(),
{
    if dst_paths.len() > 0 {
        assert(spec_find_in_index(
            src_idx,
            size,
            modified,
            dst_paths[0],
            src_tree,
            tree2,
            true,
        ) is None);
        assert forall|k: int|
            0 <= k < dst_paths.skip(1).len() implies spec_find_in_index(
            src_idx,
            size,
            modified,
            #[trigger] dst_paths.skip(1)[k],
            src_tree,
            tree2,
            true,
        ) is None by {
            assert(dst_paths.skip(1)[k] == dst_paths[k + 1]);
        }
        lemma_bucket_empty_no_match(
            dst_paths.skip(1),
            src_idx,
            size,
            modified,
            src_tree,
            tree2,
            accepted,
        );
    }
}

/// A resolution in which no destination path finds a candidate is empty.
proof fn lemma_resolve_empty_no_match(
    src_idx: Seq<BucketV>,
    dst_idx2: Seq<BucketV>,
    src_tree: TreeView,
    tree2: TreeView,
)
    requires
        forall|i: int, k: int|
            #![trigger dst_idx2[i].paths[k]]
            0 <= i < dst_idx2.len() && 0 <= k < dst_idx2[i].paths.len() ==> spec_find_in_index(
                src_idx,
                dst_idx2[i].size,
                dst_idx2[i].modified,
                dst_idx2[i].paths[k],
                src_tree,
                tree2,
                true,
            ) is None,
    ensures
        spec_resolve(src_idx, dst_idx2, src_tree, tree2, true) == Seq::<CorrV>::empty(),
    decreases dst_idx2.len(),
{
    if dst_idx2.len() > 0 {
        let b = dst_idx2[0];
        assert forall|k: int|
            0 <= k < b.paths.len() implies spec_find_in_index(
            src_idx,
            b.size,
            b.modified,
            #[trigger] b.paths[k],
            src_tree,
            tree2,
            true,
        ) is None by {
            assert(dst_idx2[0].paths[k] == b.paths[k]);
        }
        lemma_bucket_empty_no_match(
            b.paths,
            src_idx,
            b.size,
            b.modified,
            src_tree,
            tree2,
            Seq::empty(),
        );
        assert forall|i: int, k: int|
            #![trigger dst_idx2.skip(1)[i].paths[k]]
            0 <= i < dst_idx2.skip(1).len() && 0 <= k < dst_idx2.skip(1)[i].paths.len() implies
        spec_find_in_index(
            src_idx,
            dst_idx2.skip(1)[i].size,
            dst_idx2.skip(1)[i].modified,
            dst_idx2.skip(1)[i].paths[k],
            src_tree,
            tree2,
            true,
        ) is None by {
            assert(dst_idx2.skip(1)[i] == dst_idx2[i + 1]);
            assert(dst_idx2[i + 1].paths[k] == dst_idx2.skip(1)[i].paths[k]);
        }
        lemma_resolve_empty_no_match(src_idx, dst_idx2.skip(1), src_tree, tree2);
        assert(spec_resolve(src_idx, dst_idx2, src_tree, tree2, true) =~= Seq::<CorrV>::empty());
    }
}

/// Law: running the tool twice, applying the plan in between, yields an
/// empty plan the second time — for trees whose fingerprints collide on no
/// two files of one tree, and a first run whose matched sources are all
/// still free in the destination tree. (Without those bounds idempotence
/// fails: with two content-equal source files `a` and `b` and one matching
/// destination file, each run keeps renaming the destination file to
/// whichever candidate is not its own name.)
pub proof fn lemma_second_run_empty(
    src_idx: Seq<BucketV>,
    dst_idx: Seq<BucketV>,
    src_tree: TreeView,
    dst_tree: TreeView,
    dst_idx2: Seq<BucketV>,
)
    requires
        idx_wf(src_idx),
        idx_matches_tree(src_idx, src_tree),
        idx_wf(dst_idx),
        idx_matches_tree(dst_idx, dst_tree),
        forall|p: Seq<char>, q: Seq<char>|
            #![trigger src_tree[p], src_tree[q]]
            src_tree.contains_key(p) && src_tree.contains_key(q) && p != q ==> !(src_tree[p].size
                == src_tree[q].size && src_tree[p].modified == src_tree[q].modified),
        forall|p: Seq<char>, q: Seq<char>|
            #![trigger dst_tree[p], dst_tree[q]]
            dst_tree.contains_key(p) && dst_tree.contains_key(q) && p != q ==> !(dst_tree[p].size
                == dst_tree[q].size && dst_tree[p].modified == dst_tree[q].modified),
        forall|t: int|
            0 <= t < spec_resolve(src_idx, dst_idx, src_tree, dst_tree, true).len()
                ==> !dst_tree.contains_key(
                (#[trigger] spec_resolve(src_idx, dst_idx, src_tree, dst_tree, true)[t]).source,
            ),
        idx_matches_tree(
            dst_idx2,
            spec_apply_plan(
                dst_tree,
                spec_rename_plan(spec_resolve(src_idx, dst_idx, src_tree, dst_tree, true)),
            ),
        ),
    ensures
        spec_plan_applies(
            dst_tree,
            spec_rename_plan(spec_resolve(src_idx, dst_idx, src_tree, dst_tree, true)),
        ),
        spec_resolve(
            src_idx,
            dst_idx2,
            src_tree,
            spec_apply_plan(
                dst_tree,
                spec_rename_plan(spec_resolve(src_idx, dst_idx, src_tree, dst_tree, true)),
            ),
            true,
        ) == Seq::<CorrV>::empty(),
{
    let r = spec_resolve(src_idx, dst_idx, src_tree, dst_tree, true);
    // destination buckets are singletons: no two destination files collide
    assert forall|i: int| 0 <= i < dst_idx.len() implies (#[trigger] dst_idx[i]).paths.len()
        <= 1 by {
        if dst_idx[i].paths.len() >= 2 {
            assert(dst_idx[i].paths[0] != dst_idx[i].paths[1]);
            let p0 = dst_idx[i].paths[0];
            let p1 = dst_idx[i].paths[1];
            assert(dst_tree.contains_key(p0) && dst_tree[p0].size == dst_idx[i].size
                && dst_tree[p0].modified == dst_idx[i].modified);
            assert(dst_tree.contains_key(p1) && dst_tree[p1].size == dst_idx[i].size
                && dst_tree[p1].modified == dst_idx[i].modified);
        }
    }
    lemma_resolve_structure(src_idx, dst_idx, src_tree, dst_tree);
    lemma_plan_of_all_renames(r);
    assert(spec_rename_plan(r) == r);
    lemma_apply_plan_moves(dst_tree, r);
    let tree2 = spec_apply_plan(dst_tree, r);
    assert forall|i: int, k: int|
        #![trigger dst_idx2[i].paths[k]]
        0 <= i < dst_idx2.len() && 0 <= k < dst_idx2[i].paths.len() implies spec_find_in_index(
        src_idx,
        dst_idx2[i].size,
        dst_idx2[i].modified,
        dst_idx2[i].paths[k],
        src_tree,
        tree2,
        true,
    ) is None by {
        let q = dst_idx2[i].paths[k];
        let size = dst_idx2[i].size;
        let modified = dst_idx2[i].modified;
        assert(tree2.contains_key(q) && tree2[q].size == size && tree2[q].modified == modified);
        let p = bucket_pos(src_idx, size, modified);
        lemma_bucket_pos(src_idx, size, modified);
        if p >= 0 {
            let cands = src_idx[p].paths;
            assert(cands.len() <= 1) by {
                if cands.len() >= 2 {
                    assert(src_idx[p].paths[0] != src_idx[p].paths[1]);
                    let c0 = src_idx[p].paths[0];
                    let c1 = src_idx[p].paths[1];
                    assert(src_tree.contains_key(c0) && src_tree[c0].size == src_idx[p].size);
                    assert(src_tree.contains_key(c1) && src_tree[c1].size == src_idx[p].size);
                    assert(src_tree[c0].modified == src_idx[p].modified);
                    assert(src_tree[c1].modified == src_idx[p].modified);
                }
            }
            if cands.len() == 0 {
                assert(spec_find_match(cands, q, src_tree, tree2, true) is None);
            } else {
                let c = cands[0];
                assert(src_idx[p].paths[0] == c);
                assert(src_tree.contains_key(c) && src_tree[c].size == size && src_tree[c].modified
                    == modified);
                assert(cands.skip(1) =~= Seq::<Seq<char>>::empty());
                assert(spec_find_match(cands.skip(1), q, src_tree, tree2, true) is None);
                if run_matches_source(r, q) {
                    let t = choose|t: int| 0 <= t < r.len() && (#[trigger] r[t]).source == q;
                    assert(tree2[r[t].source] == dst_tree[r[t].destination]);
                    assert(dst_tree[r[t].destination].size == size
                        && dst_tree[r[t].destination].modified == modified);
                    assert(src_tree.contains_key(q));
                    assert(src_tree[q].size == size && src_tree[q].modified == modified);
                    assert(c == q);
                    assert(spec_find_match(cands, q, src_tree, tree2, true) is None);
                } else {
                    assert(dst_tree.contains_key(q) && !run_matches_destination(r, q));
                    assert(tree2[q] == dst_tree[q]);
                    if c == q {
                        assert(spec_find_match(cands, q, src_tree, tree2, true) is None);
                    } else if sha1_hex_of(src_tree[c].content) == sha1_hex_of(tree2[q].content) {
                        // then the first run already matched q, so q cannot
                        // still stand in the new tree
                        assert(crate::meta::path_in_index(dst_idx, q));
                        let (bi, bk): (int, int) = choose|bi: int, bk: int|
                            0 <= bi < dst_idx.len() && 0 <= bk < dst_idx[bi].paths.len()
                                && #[trigger] dst_idx[bi].paths[bk] == q;
                        assert(dst_idx[bi].size == size && dst_idx[bi].modified == modified);
                        assert(dst_idx[bi].paths.len() == 1 && bk == 0);
                        assert(spec_find_in_index(
                            src_idx,
                            dst_idx[bi].size,
                            dst_idx[bi].modified,
                            dst_idx[bi].paths[0],
                            src_tree,
                            dst_tree,
                            true,
                        ) == Some(c)) by {
                            assert(spec_find_match(cands.skip(1), q, src_tree, dst_tree, true)
                                is None);
                            assert(sha1_hex_of(dst_tree[q].content) == sha1_hex_of(
                                tree2[q].content,
                            ));
                        }
                        assert(run_matches_destination(r, q));
                        assert(false);
                    } else {
                        assert(spec_find_match(cands, q, src_tree, tree2, true) is None);
                    }
                }
            }
        }
    }
    lemma_resolve_empty_no_match(src_idx, dst_idx2, src_tree, tree2);
}

/// Law, live mode: under the same bounds as the idempotence law, applying
/// the plan of a run that detected `f` renamed to `g` leaves the destination
/// tree holding `g` and no longer holding `f`.
pub proof fn lemma_rename_applied(
    src_idx: Seq<BucketV>,
    dst_idx: Seq<BucketV>,
    src_tree: TreeView,
    dst_tree: TreeView,
    f: Seq<char>,
    g: Seq<char>,
)
    requires
        idx_wf(src_idx),
        idx_matches_tree(src_idx, src_tree),
        idx_wf(dst_idx),
        idx_matches_tree(dst_idx, dst_tree),
        forall|p: Seq<char>, q: Seq<char>|
            #![trigger dst_tree[p], dst_tree[q]]
            dst_tree.contains_key(p) && dst_tree.contains_key(q) && p != q ==> !(dst_tree[p].size
                == dst_tree[q].size && dst_tree[p].modified == dst_tree[q].modified),
        forall|t: int|
            0 <= t < spec_resolve(src_idx, dst_idx, src_tree, dst_tree, true).len()
                ==> !dst_tree.contains_key(
                (#[trigger] spec_resolve(src_idx, dst_idx, src_tree, dst_tree, true)[t]).source,
            ),
        f != g,
        dst_tree.contains_key(f),
        !dst_tree.contains_key(g),
        src_tree == dst_tree.remove(f).insert(g, dst_tree[f]),
    ensures
        ({
            let tree2 = spec_apply_plan(
                dst_tree,
                spec_rename_plan(spec_resolve(src_idx, dst_idx, src_tree, dst_tree, true)),
            );
            &&& tree2.contains_key(g)
            &&& !tree2.contains_key(f)
        }),
{
    let r = spec_resolve(src_idx, dst_idx, src_tree, dst_tree, true);
    assert forall|d: Seq<char>|
        dst_tree.contains_key(d) && d != f && (#[trigger] dst_tree[d]).size == dst_tree[f].size
            && dst_tree[d].modified == dst_tree[f].modified implies sha1_hex_of(
        dst_tree[d].content,
    ) != sha1_hex_of(dst_tree[f].content) by {
        assert(!(dst_tree[d].size == dst_tree[f].size && dst_tree[d].modified
            == dst_tree[f].modified));
    }
    lemma_rename_detected(src_idx, dst_idx, src_tree, dst_tree, f, g);
    assert forall|i: int| 0 <= i < dst_idx.len() implies (#[trigger] dst_idx[i]).paths.len()
        <= 1 by {
        if dst_idx[i].paths.len() >= 2 {
            assert(dst_idx[i].paths[0] != dst_idx[i].paths[1]);
            let p0 = dst_idx[i].paths[0];
            let p1 = dst_idx[i].paths[1];
            assert(dst_tree.contains_key(p0) && dst_tree[p0].size == dst_idx[i].size
                && dst_tree[p0].modified == dst_idx[i].modified);
            assert(dst_tree.contains_key(p1) && dst_tree[p1].size == dst_idx[i].size
                && dst_tree[p1].modified == dst_idx[i].modified);
        }
    }
    lemma_resolve_structure(src_idx, dst_idx, src_tree, dst_tree);
    lemma_plan_of_all_renames(r);
    lemma_apply_plan_moves(dst_tree, r);
    let tree2 = spec_apply_plan(dst_tree, r);
    let t = choose|t: int|
        0 <= t < r.len() && r[t] == (CorrV {
            source: g,
            destination: f,
            kind: MatchKind::Rename,
        });
    assert(run_matches_source(r, g));
    assert(tree2.contains_key(g));
    assert(run_matches_destination(r, f));
    assert(!run_matches_source(r, f)) by {
        if run_matches_source(r, f) {
            let u = choose|u: int| 0 <= u < r.len() && (#[trigger] r[u]).source == f;
            assert(src_tree.contains_key(f));
        }
    }
    assert(!tree2.contains_key(f));
}

} // verus!
