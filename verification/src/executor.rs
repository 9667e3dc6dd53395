//! Applying a rename plan to a tree.
//!
//! Each plan entry says the file now at the entry's destination path should
//! be renamed to its source path; a rename onto an existing file replaces
//! it, as the underlying rename primitive does. The first entry whose file
//! is missing aborts the remaining entries; renames already applied stay.

use vstd::prelude::*;

use crate::meta::TreeView;
use crate::resolver::{corr_views, CorrV, Correspondence};
use crate::server::{
    file_views, lemma_tree_of, path_wire_safe, spec_file_of, tree_of, FileEntry, FileEntryV,
    InMemoryServer, Server,
};

verus! {

/// The tree after one rename: the file leaves `from` and lands on `to`,
/// replacing whatever was there.
pub open spec fn spec_apply_rename(tree: TreeView, from: Seq<char>, to: Seq<char>) -> TreeView {
    tree.remove(from).insert(to, tree[from])
}

/// The tree after a plan is applied in order, stopping at the first entry
/// whose file is missing.
pub open spec fn spec_apply_plan(tree: TreeView, plan: Seq<CorrV>) -> TreeView
    decreases plan.len(),
{
    if plan.len() == 0 {
        tree
    } else if !tree.contains_key(plan[0].destination) {
        tree
    } else {
        spec_apply_plan(
            spec_apply_rename(tree, plan[0].destination, plan[0].source),
            plan.skip(1),
        )
    }
}

/// Every entry of the plan finds its file when its turn comes.
pub open spec fn spec_plan_applies(tree: TreeView, plan: Seq<CorrV>) -> bool
    decreases plan.len(),
{
    plan.len() == 0 || (tree.contains_key(plan[0].destination) && spec_plan_applies(
        spec_apply_rename(tree, plan[0].destination, plan[0].source),
        plan.skip(1),
    ))
}

/// Removing an entry removes exactly its path from the tree the entries
/// form.
pub proof fn lemma_tree_of_remove(files: Seq<FileEntryV>, i: int)
    requires
        forall|a: int, b: int|
            #![trigger files[a], files[b]]
            0 <= a < b < files.len() ==> files[a].path != files[b].path,
        0 <= i < files.len(),
    ensures
        tree_of(files.remove(i)) == tree_of(files).remove(files[i].path),
    decreases files.len(),
{
    let rest = files.drop_last();
    let last = files.last();
    if i == files.len() - 1 {
        assert(files.remove(i) =~= rest);
        lemma_tree_of(rest);
        assert forall|a: int, b: int|
            #![trigger rest[a], rest[b]]
            0 <= a < b < rest.len() implies rest[a].path != rest[b].path by {
            assert(files[a] == rest[a] && files[b] == rest[b]);
        }
        assert(!tree_of(rest).contains_key(last.path));
        assert(tree_of(rest) =~= tree_of(rest).insert(last.path, spec_file_of(last)).remove(
            last.path,
        ));
    } else {
        assert forall|a: int, b: int|
            #![trigger rest[a], rest[b]]
            0 <= a < b < rest.len() implies rest[a].path != rest[b].path by {
            assert(files[a] == rest[a] && files[b] == rest[b]);
        }
        lemma_tree_of_remove(rest, i);
        assert(files.remove(i).drop_last() =~= rest.remove(i));
        assert(files.remove(i).last() == last);
        assert(files.remove(i).len() > 0);
        assert(tree_of(files.remove(i)) == tree_of(rest.remove(i)).insert(
            last.path,
            spec_file_of(last),
        ));
        assert(files[i] == rest[i]);
        assert(files[i].path != last.path);
        assert(tree_of(rest).remove(files[i].path).insert(last.path, spec_file_of(last))
            =~= tree_of(rest).insert(last.path, spec_file_of(last)).remove(files[i].path));
    }
}

/// Position of the entry holding the path, if one does.
fn find_entry(server: &InMemoryServer, path: &String) -> (r: Option<usize>)
    ensures
        match r {
            Some(i) => i < server.files@.len() && (#[trigger] server.files@[i as int]).path@
                == path@,
            None => forall|j: int|
                0 <= j < server.files@.len() ==> (#[trigger] server.files@[j]).path@ != path@,
        },
{
    let n = server.files.len();
    let mut i: usize = 0;
    while i < n
        invariant
            n == server.files@.len(),
            0 <= i <= n,
            forall|j: int| 0 <= j < i ==> (#[trigger] server.files@[j]).path@ != path@,
        decreases n - i,
    {
        if server.files[i].path == *path {
            return Some(i);
        }
        i = i + 1;
    }
    None
}

/// Rename one file of an in-memory tree: the entry at `from` moves to `to`,
/// replacing any file already there, as the rename primitive of a real
/// filesystem does. Fails exactly when no file is at `from`.
pub fn rename_file(server: &mut InMemoryServer, from: &String, to: &String) -> (r: bool)
    requires
        old(server).wf(),
        path_wire_safe(to@),
    ensures
        final(server).wf(),
        r == old(server).tree().contains_key(from@),
        r ==> final(server).tree() == spec_apply_rename(old(server).tree(), from@, to@),
        !r ==> *final(server) == *old(server),
{
    proof {
        lemma_tree_of(file_views(server.files@));
    }
    let from_idx: usize = match find_entry(server, from) {
        Some(i) => i,
        None => {
            proof {
                if server.tree().contains_key(from@) {
                    let j = choose|j: int|
                        0 <= j < file_views(server.files@).len() && file_views(server.files@)[j].path
                            == from@;
                    assert(server.files@[j].path@ == from@);
                }
            }
            return false;
        },
    };
    let ghost fv0 = file_views(server.files@);
    let ghost tree0 = server.tree();
    proof {
        assert(fv0[from_idx as int].path == from@);
        assert(tree0.contains_key(from@));
        assert(tree0[from@] == spec_file_of(fv0[from_idx as int]));
    }
    if *from == *to {
        proof {
            assert(spec_apply_rename(tree0, from@, to@) =~= tree0);
        }
        return true;
    }
    let entry = server.files.remove(from_idx);
    proof {
        assert(file_views(server.files@) =~= fv0.remove(from_idx as int));
        lemma_tree_of_remove(fv0, from_idx as int);
        assert forall|a: int, b: int|
            #![trigger server.files@[a], server.files@[b]]
            0 <= a < b < server.files@.len() implies server.files@[a].path@
            != server.files@[b].path@ by {
            let fv1 = file_views(server.files@);
            assert(fv1[a] == if a < from_idx as int {
                fv0[a]
            } else {
                fv0[a + 1]
            });
            assert(fv1[b] == if b < from_idx as int {
                fv0[b]
            } else {
                fv0[b + 1]
            });
        }
    }
    let ghost fv1 = file_views(server.files@);
    let ghost tree1 = server.tree();
    proof {
        assert(tree1 == tree0.remove(from@));
    }
    match find_entry(server, to) {
        Some(tidx) => {
            let ghost tpath = server.files@[tidx as int].path@;
            let _ = server.files.remove(tidx);
            proof {
                assert(file_views(server.files@) =~= fv1.remove(tidx as int));
                lemma_tree_of_remove(fv1, tidx as int);
                assert(fv1[tidx as int].path == to@);
                assert(server.tree() == tree1.remove(to@));
                assert forall|a: int, b: int|
                    #![trigger server.files@[a], server.files@[b]]
                    0 <= a < b < server.files@.len() implies server.files@[a].path@
                    != server.files@[b].path@ by {
                    let fv2 = file_views(server.files@);
                    assert(fv2[a] == if a < tidx as int {
                        fv1[a]
                    } else {
                        fv1[a + 1]
                    });
                    assert(fv2[b] == if b < tidx as int {
                        fv1[b]
                    } else {
                        fv1[b + 1]
                    });
                }
            }
        },
        None => {
            proof {
                lemma_tree_of(fv1);
                if tree1.contains_key(to@) {
                    let j = choose|j: int|
                        0 <= j < fv1.len() && fv1[j].path == to@;
                    assert(server.files@[j].path@ == to@);
                }
                assert(server.tree() =~= tree1.remove(to@));
            }
        },
    }
    let ghost fv2 = file_views(server.files@);
    let ghost tree2 = server.tree();
    proof {
        assert(tree2 == tree1.remove(to@));
        lemma_tree_of(fv2);
        if tree2.contains_key(to@) {
            let j = choose|j: int| 0 <= j < fv2.len() && fv2[j].path == to@;
        }
        assert(!tree2.contains_key(to@));
        assert forall|j: int| 0 <= j < fv2.len() implies (#[trigger] fv2[j]).path != to@ by {
            if fv2[j].path == to@ {
                assert(tree2.contains_key(fv2[j].path));
            }
        }
    }
    server.files.push(
        FileEntry { path: to.clone(), size: entry.size, modified: entry.modified, content: entry.content },
    );
    proof {
        let fv3 = file_views(server.files@);
        assert(fv3.drop_last() =~= fv2);
        assert(fv3.last().path == to@);
        assert(fv3.last() == (FileEntryV {
            path: to@,
            size: entry.size,
            modified: entry.modified,
            content: entry.content@,
        }));
        assert(server.tree() == tree2.insert(to@, spec_file_of(fv3.last())));
        assert(spec_file_of(fv3.last()) == tree0[from@]);
        assert(server.tree() =~= spec_apply_rename(tree0, from@, to@));
        assert forall|a: int, b: int|
            #![trigger server.files@[a], server.files@[b]]
            0 <= a < b < server.files@.len() implies server.files@[a].path@
            != server.files@[b].path@ by {
            if b == server.files@.len() - 1 {
                assert(fv3[a] == fv2[a]);
                assert(fv2[a].path != to@);
            } else {
                assert(fv3[a] == fv2[a] && fv3[b] == fv2[b]);
            }
        }
    }
    true
}

/// Apply every rename of a plan, in plan order. The first rename whose file
/// is missing stops the run there; what was already applied stays applied.
/// The result carries the index of the entry that failed.
pub fn apply_plan(server: &mut InMemoryServer, plan: &Vec<Correspondence>) -> (r: Result<
    (),
    usize,
>)
    requires
        old(server).wf(),
        forall|i: int|
            0 <= i < plan@.len() ==> path_wire_safe((#[trigger] plan@[i]).source@),
    ensures
        final(server).wf(),
        final(server).tree() == spec_apply_plan(old(server).tree(), corr_views(plan@)),
        r is Ok <==> spec_plan_applies(old(server).tree(), corr_views(plan@)),
        r matches Err(i) ==> i < plan@.len(),
{
    let ghost pv = corr_views(plan@);
    let ghost tree0 = server.tree();
    let n = plan.len();
    let mut i: usize = 0;
    proof {
        assert(pv.skip(0) =~= pv);
    }
    while i < n
        invariant
            server.wf(),
            n == plan@.len(),
            0 <= i <= n,
            pv == corr_views(plan@),
            tree0 == old(server).tree(),
            forall|j: int|
                0 <= j < plan@.len() ==> path_wire_safe((#[trigger] plan@[j]).source@),
            spec_apply_plan(tree0, pv) == spec_apply_plan(server.tree(), pv.skip(i as int)),
            spec_plan_applies(tree0, pv) == spec_plan_applies(server.tree(), pv.skip(i as int)),
        decreases n - i,
    {
        let c = &plan[i];
        proof {
            assert(pv[i as int] == c@);
            assert(pv.skip(i as int)[0] == pv[i as int]);
            assert(pv.skip(i as int).skip(1) =~= pv.skip(i as int + 1));
            assert(pv.skip(i as int).len() > 0);
        }
        let ok = rename_file(server, &c.destination, &c.source);
        if !ok {
            proof {
                assert(spec_apply_plan(server.tree(), pv.skip(i as int)) == server.tree());
                assert(!spec_plan_applies(server.tree(), pv.skip(i as int)));
            }
            return Err(i);
        }
        i = i + 1;
    }
    proof {
        assert(pv.skip(n as int) =~= Seq::<CorrV>::empty());
    }
    Ok(())
}

} // verus!
