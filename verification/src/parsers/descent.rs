//! Whether the groups below a group can be followed down to an end.
use crate::parsers::pbx_parser::{folder_views, FolderRaw, FolderRecord};
use crate::parsers::reference_builder::{
    descends_within, descent_ends, find_folder, folder_with_id, lemma_folder_with_id,
};
use crate::utils::text::texts;
use vstd::prelude::*;

verus! {

/// The position of the group record with id `id`: that of the last record
/// with this id.
pub open spec fn folder_index(folders: Seq<FolderRecord>, id: Seq<char>) -> Option<int>
    decreases folders.len(),
{
    if folders.len() == 0 {
        None
    } else if folders.last().isa == id {
        Some(folders.len() - 1)
    } else {
        folder_index(folders.drop_last(), id)
    }
}

/// The position found under an id is that of the record found under it.
pub proof fn lemma_folder_index(folders: Seq<FolderRecord>, id: Seq<char>)
    ensures
        match folder_index(folders, id) {
            Some(i) => 0 <= i < folders.len() && folder_with_id(folders, id) == Some(folders[i]),
            None => folder_with_id(folders, id) is None,
        },
    decreases folders.len(),
{
    if folders.len() > 0 && folders.last().isa != id {
        lemma_folder_index(folders.drop_last(), id);
    }
}

/// The id of every record names a group.
pub proof fn lemma_record_is_found(folders: Seq<FolderRecord>, i: int)
    requires
        0 <= i < folders.len(),
    ensures
        folder_with_id(folders, folders[i].isa) is Some,
    decreases folders.len(),
{
    if i < folders.len() - 1 && folders.last().isa != folders[i].isa {
        lemma_record_is_found(folders.drop_last(), i);
    }
}

/// A descent that ends within a depth ends within any greater depth.
pub proof fn lemma_descends_within_more(
    folders: Seq<FolderRecord>,
    isa: Seq<char>,
    depth: nat,
    more: nat,
)
    requires
        descends_within(folders, isa, depth),
        depth <= more,
    ensures
        descends_within(folders, isa, more),
    decreases depth,
{
    if folder_with_id(folders, isa) is Some {
        let raw = folder_with_id(folders, isa)->0;
        assert forall|k: int| 0 <= k < raw.childs.len() implies descends_within(
            folders,
            #[trigger] raw.childs[k],
            (more - 1) as nat,
        ) by {
            lemma_descends_within_more(
                folders,
                raw.childs[k],
                (depth - 1) as nat,
                (more - 1) as nat,
            );
        }
    }
}

/// The child is no group, or the descent from it is known to end.
pub open spec fn child_settled(
    folders: Seq<FolderRecord>,
    done: Seq<bool>,
    child: Seq<char>,
) -> bool {
    match folder_index(folders, child) {
        Some(i) => done[i],
        None => true,
    }
}

/// Every child of the group with id `isa` is settled.
pub open spec fn children_settled(
    folders: Seq<FolderRecord>,
    done: Seq<bool>,
    isa: Seq<char>,
) -> bool {
    forall|k: int|
        0 <= k < folder_with_id(folders, isa)->0.childs.len() ==> child_settled(
            folders,
            done,
            #[trigger] folder_with_id(folders, isa)->0.childs[k],
        )
}

/// The descent from every group that is marked ends within `bound`.
pub open spec fn marks_are_sound(folders: Seq<FolderRecord>, done: Seq<bool>, bound: nat) -> bool {
    &&& done.len() == folders.len()
    &&& forall|i: int|
        0 <= i < folders.len() && #[trigger] done[i] ==> descends_within(
            folders,
            folders[i].isa,
            bound,
        )
}

/// No further group can be marked: each group that is not marked has a
/// child that is not settled.
pub open spec fn marks_are_complete(folders: Seq<FolderRecord>, done: Seq<bool>) -> bool {
    &&& done.len() == folders.len()
    &&& forall|i: int|
        0 <= i < folders.len() && !#[trigger] done[i] ==> !children_settled(
            folders,
            done,
            folders[i].isa,
        )
}

/// How many groups are not marked.
pub open spec fn unmarked(done: Seq<bool>) -> nat
    decreases done.len(),
{
    if done.len() == 0 {
        0
    } else if done.last() {
        unmarked(done.drop_last())
    } else {
        unmarked(done.drop_last()) + 1
    }
}

proof fn lemma_mark_one(done: Seq<bool>, i: int)
    requires
        0 <= i < done.len(),
        !done[i],
    ensures
        unmarked(done.update(i, true)) + 1 == unmarked(done),
    decreases done.len(),
{
    let marked = done.update(i, true);
    if i == done.len() - 1 {
        assert(marked.drop_last() =~= done.drop_last());
    } else {
        assert(marked.drop_last() =~= done.drop_last().update(i, true));
        lemma_mark_one(done.drop_last(), i);
    }
}

/// Once no further group can be marked, every group whose descent ends is
/// marked.
proof fn lemma_complete_marks(
    folders: Seq<FolderRecord>,
    done: Seq<bool>,
    isa: Seq<char>,
    depth: nat,
)
    requires
        marks_are_complete(folders, done),
        descends_within(folders, isa, depth),
        folder_index(folders, isa) is Some,
    ensures
        done[folder_index(folders, isa)->0],
    decreases depth,
{
    let i = folder_index(folders, isa)->0;
    lemma_folder_index(folders, isa);
    lemma_folder_with_id(folders, isa);
    if !done[i] {
        let raw = folder_with_id(folders, isa)->0;
        assert(!children_settled(folders, done, folders[i].isa));
        let k = choose|k: int|
            0 <= k < raw.childs.len() && !child_settled(folders, done, #[trigger] raw.childs[k]);
        lemma_folder_index(folders, raw.childs[k]);
        lemma_complete_marks(folders, done, raw.childs[k], (depth - 1) as nat);
    }
}

/// The position of the group record with the id `isa`.
pub fn find_folder_index(folders: &Vec<FolderRaw>, isa: &String) -> (found: Option<usize>)
    ensures
        match found {
            Some(i) => folder_index(folder_views(folders@), isa@) == Some(i as int),
            None => folder_index(folder_views(folders@), isa@) is None,
        },
{
    let ghost all = folder_views(folders@);
    let mut i: usize = folders.len();
    assert(all.take(i as int) =~= all);
    while i > 0
        invariant
            i <= folders.len(),
            all == folder_views(folders@),
            folder_index(all, isa@) == folder_index(all.take(i as int), isa@),
        decreases i,
    {
        assert(all.take(i as int).drop_last() =~= all.take(i - 1));
        i -= 1;
        if folders[i].isa == *isa {
            return Some(i);
        }
    }
    None
}

/// Whether every child of `raw` is settled.
fn all_children_settled(folders: &Vec<FolderRaw>, done: &Vec<bool>, raw: &FolderRaw) -> (settled:
    bool)
    requires
        done.len() == folders.len(),
        folder_with_id(folder_views(folders@), raw@.isa) == Some(raw@),
    ensures
        settled == children_settled(folder_views(folders@), done@, raw@.isa),
{
    let ghost all = folder_views(folders@);
    let ghost childs = raw@.childs;
    let mut k: usize = 0;
    while k < raw.childs.len()
        invariant
            k <= raw.childs.len(),
            done.len() == folders.len(),
            all == folder_views(folders@),
            childs == texts(raw.childs@),
            folder_with_id(all, raw@.isa) == Some(raw@),
            forall|j: int| 0 <= j < k ==> child_settled(all, done@, #[trigger] childs[j]),
        decreases raw.childs.len() - k,
    {
        proof {
            lemma_folder_index(all, childs[k as int]);
        }
        if let Some(i) = find_folder_index(folders, &raw.childs[k]) {
            if !done[i] {
                assert(folder_with_id(all, raw@.isa)->0.childs[k as int] == childs[k as int]);
                assert(!child_settled(all, done@, childs[k as int]));
                return false;
            }
        }
        k += 1;
    }
    true
}

/// Whether following the child lists from the group `isa` down comes to an
/// end.
pub fn descent_is_finite(folders: &Vec<FolderRaw>, isa: &str) -> (finite: bool)
    ensures
        finite == descent_ends(folder_views(folders@), isa@),
{
    let ghost all = folder_views(folders@);
    let n: usize = folders.len();
    let mut done: Vec<bool> = Vec::new();
    while done.len() < n
        invariant
            done.len() <= n,
            forall|i: int| 0 <= i < done.len() ==> !done[i],
        decreases n - done.len(),
    {
        done.push(false);
    }
    let ghost mut bound: nat = 0;
    let mut changed = true;
    while changed
        invariant
            n == folders.len(),
            all == folder_views(folders@),
            marks_are_sound(all, done@, bound),
            !changed ==> marks_are_complete(all, done@),
        decreases unmarked(done@), (if changed { 1nat } else { 0nat }),
    {
        changed = false;
        let ghost at_start = done@;
        let mut i: usize = 0;
        while i < n
            invariant
                i <= n,
                n == folders.len(),
                all == folder_views(folders@),
                marks_are_sound(all, done@, bound),
                at_start.len() == n,
                unmarked(done@) <= unmarked(at_start),
                changed ==> unmarked(done@) < unmarked(at_start),
                !changed ==> done@ == at_start,
                !changed ==> forall|j: int|
                    0 <= j < i && !#[trigger] done[j] ==> !children_settled(
                        all,
                        done@,
                        all[j].isa,
                    ),
            decreases n - i,
        {
            if !done[i] {
                proof {
                    lemma_record_is_found(all, i as int);
                }
                if let Some(raw) = find_folder(folders, &folders[i].isa) {
                    proof {
                        lemma_folder_with_id(all, all[i as int].isa);
                    }
                    if all_children_settled(folders, &done, raw) {
                        proof {
                            lemma_mark_one(done@, i as int);
                            assert forall|k: int|
                                0 <= k < raw@.childs.len() implies descends_within(
                                all,
                                #[trigger] raw@.childs[k],
                                bound,
                            ) by {
                                let child = raw@.childs[k];
                                lemma_folder_index(all, child);
                                assert(child_settled(all, done@, child));
                                if folder_index(all, child) is Some {
                                    lemma_folder_with_id(all, child);
                                }
                            }
                            assert forall|j: int|
                                0 <= j < all.len() && #[trigger] done[j] implies descends_within(
                                all,
                                all[j].isa,
                                bound + 1,
                            ) by {
                                lemma_descends_within_more(all, all[j].isa, bound, bound + 1);
                            }
                            assert(descends_within(all, all[i as int].isa, bound + 1));
                            bound = bound + 1;
                        }
                        done.set(i, true);
                        changed = true;
                    }
                }
            }
            i += 1;
        }
    }
    let name = isa.to_owned();
    proof {
        lemma_folder_index(all, isa@);
        if folder_index(all, isa@) is Some {
            let i = folder_index(all, isa@)->0;
            lemma_folder_with_id(all, isa@);
            if done[i] {
                assert(descends_within(all, all[i].isa, bound));
            }
            if descent_ends(all, isa@) {
                let depth = choose|depth: nat| descends_within(all, isa@, depth);
                lemma_complete_marks(all, done@, isa@, depth);
            }
        } else {
            assert(descends_within(all, isa@, 0));
        }
    }
    match find_folder_index(folders, &name) {
        Some(i) => done[i],
        None => true,
    }
}

} // verus!
