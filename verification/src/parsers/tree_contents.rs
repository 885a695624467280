//! What a resolved tree holds, measured against the records it was built from.
use crate::parsers::pbx_parser::{FileRecord, FolderRecord};
use crate::parsers::reference_builder::{
    child_path, descends_within, descent_depth, descent_ends, file_ids, file_nodes,
    folder_node, folder_tree, folder_with_id, ids_of_files, ids_of_folders, is_file_id,
    is_folder_id, lemma_file_with_id, lemma_folder_with_id, subfolder_ids, without_repeats,
    FolderNode,
};
use vstd::prelude::*;

verus! {

/// The sum of a list of counts.
pub open spec fn sum(counts: Seq<nat>) -> nat
    decreases counts.len(),
{
    if counts.len() == 0 {
        0
    } else {
        sum(counts.drop_last()) + counts.last()
    }
}

/// The lists of `parts`, one after the other.
pub open spec fn joined(parts: Seq<Seq<Seq<char>>>) -> Seq<Seq<char>>
    decreases parts.len(),
{
    if parts.len() == 0 {
        Seq::empty()
    } else {
        joined(parts.drop_last()) + parts.last()
    }
}

/// The number of files in `folder` and in the folders below it: the sum of
/// the lengths of their file lists.
pub open spec fn file_count(folder: FolderNode) -> nat
    decreases folder, 1nat,
{
    folder.files.len() + sum(file_counts(folder))
}

/// The number of files in and below each subfolder of `folder`.
pub open spec fn file_counts(folder: FolderNode) -> Seq<nat>
    decreases folder, 0nat,
{
    Seq::new(
        folder.subfolders.len(),
        |k: int|
            if 0 <= k < folder.subfolders.len() {
                file_count(folder.subfolders[k])
            } else {
                0
            },
    )
}

/// The ids of the files in `folder` and in the folders below it, one for
/// each file.
pub open spec fn file_ids_below(folder: FolderNode) -> Seq<Seq<char>>
    decreases folder, 1nat,
{
    ids_of_files(folder.files) + joined(file_ids_by_subfolder(folder))
}

/// The ids of the files in and below each subfolder of `folder`.
pub open spec fn file_ids_by_subfolder(folder: FolderNode) -> Seq<Seq<Seq<char>>>
    decreases folder, 0nat,
{
    Seq::new(
        folder.subfolders.len(),
        |k: int|
            if 0 <= k < folder.subfolders.len() {
                file_ids_below(folder.subfolders[k])
            } else {
                Seq::empty()
            },
    )
}

/// The ids of the files and folders below `folder`, at any depth.
pub open spec fn ids_below(folder: FolderNode) -> Seq<Seq<char>>
    decreases folder, 1nat,
{
    ids_of_files(folder.files) + joined(ids_by_subfolder(folder))
}

/// For each subfolder of `folder`, its id and the ids of the files and
/// folders below it.
pub open spec fn ids_by_subfolder(folder: FolderNode) -> Seq<Seq<Seq<char>>>
    decreases folder, 0nat,
{
    Seq::new(
        folder.subfolders.len(),
        |k: int|
            if 0 <= k < folder.subfolders.len() {
                seq![folder.subfolders[k].isa] + ids_below(folder.subfolders[k])
            } else {
                Seq::empty()
            },
    )
}

/// The group at position `k` of `chain` has the next one as a child.
pub open spec fn steps_down(folders: Seq<FolderRecord>, chain: Seq<Seq<char>>, k: int) -> bool {
    folder_with_id(folders, chain[k])->0.childs.contains(chain[k + 1])
}

/// What holds of a folder and of every folder below it: no two of its files
/// and no two of its subfolders have one id, and the path of each file and
/// of each subfolder is the path of the folder, the delimiter, and the name
/// of the file or subfolder.
pub open spec fn is_well_formed(folder: FolderNode) -> bool
    decreases folder,
{
    &&& ids_of_files(folder.files).no_duplicates()
    &&& ids_of_folders(folder.subfolders).no_duplicates()
    &&& forall|k: int|
        0 <= k < folder.files.len() ==> (#[trigger] folder.files[k]).path == child_path(
            folder.path,
            folder.files[k].name,
        )
    &&& forall|k: int|
        0 <= k < folder.subfolders.len() ==> (#[trigger] folder.subfolders[k]).path
            == child_path(folder.path, folder.subfolders[k].name) && is_well_formed(
            folder.subfolders[k],
        )
}

/// `chain` leads from the group `root` down through groups, each a child of
/// the one before.
pub open spec fn is_descent(
    folders: Seq<FolderRecord>,
    root: Seq<char>,
    chain: Seq<Seq<char>>,
) -> bool {
    &&& chain.len() > 0
    &&& chain[0] == root
    &&& forall|k: int| 0 <= k < chain.len() ==> is_folder_id(folders, #[trigger] chain[k])
    &&& forall|k: int| 0 <= k < chain.len() - 1 ==> #[trigger] steps_down(folders, chain, k)
}

/// The ids of the build files in the child closure of the group `root`:
/// the children that name a build file, of `root` and of every group that a
/// descent from `root` leads to.
pub open spec fn file_ids_under(
    files: Seq<FileRecord>,
    folders: Seq<FolderRecord>,
    root: Seq<char>,
) -> Set<Seq<char>> {
    Set::new(
        |id: Seq<char>|
            exists|chain: Seq<Seq<char>>| #[trigger]
                is_descent(folders, root, chain) && folder_with_id(
                    folders,
                    chain.last(),
                )->0.childs.contains(id) && is_file_id(files, folders, id),
    )
}

proof fn lemma_joined_contains(parts: Seq<Seq<Seq<char>>>, id: Seq<char>)
    ensures
        joined(parts).contains(id) <==> exists|k: int|
            0 <= k < parts.len() && (#[trigger] parts[k]).contains(id),
    decreases parts.len(),
{
    if parts.len() > 0 {
        let front = parts.drop_last();
        lemma_joined_contains(front, id);
        if joined(parts).contains(id) {
            let i = choose|i: int| 0 <= i < joined(parts).len() && joined(parts)[i] == id;
            if i < joined(front).len() {
                assert(joined(front)[i] == id);
                let k = choose|k: int| 0 <= k < front.len() && (#[trigger] front[k]).contains(id);
                assert(parts[k] == front[k]);
            } else {
                assert(parts.last()[i - joined(front).len()] == id);
                assert(parts[parts.len() - 1].contains(id));
            }
        }
        if exists|k: int| 0 <= k < parts.len() && (#[trigger] parts[k]).contains(id) {
            let k = choose|k: int| 0 <= k < parts.len() && (#[trigger] parts[k]).contains(id);
            if k < front.len() {
                assert(front[k] == parts[k]);
                assert(joined(front).contains(id));
                let i = choose|i: int| 0 <= i < joined(front).len() && joined(front)[i] == id;
                assert(joined(parts)[i] == id);
            } else {
                let i = choose|i: int| 0 <= i < parts.last().len() && parts.last()[i] == id;
                assert(joined(parts)[joined(front).len() + i] == id);
            }
        }
    }
}

proof fn lemma_joined_len(parts: Seq<Seq<Seq<char>>>, counts: Seq<nat>)
    requires
        counts.len() == parts.len(),
        forall|k: int| 0 <= k < parts.len() ==> #[trigger] counts[k] == parts[k].len(),
    ensures
        joined(parts).len() == sum(counts),
    decreases parts.len(),
{
    if parts.len() > 0 {
        lemma_joined_len(parts.drop_last(), counts.drop_last());
    }
}

/// Leaving out repeats keeps every id, once.
pub proof fn lemma_without_repeats(ids: Seq<Seq<char>>)
    ensures
        forall|id: Seq<char>|
            #[trigger] without_repeats(ids).contains(id)
                <==> ids.contains(id),
        without_repeats(ids).no_duplicates(),
    decreases ids.len(),
{
    let kept = without_repeats(ids);
    if ids.len() > 0 {
        let front = ids.drop_last();
        let before = without_repeats(front);
        lemma_without_repeats(front);
        assert forall|id: Seq<char>| #[trigger] kept.contains(id) <==> ids.contains(id) by {
            if kept.contains(id) {
                let i = choose|i: int| 0 <= i < kept.len() && kept[i] == id;
                if i < before.len() {
                    assert(before[i] == id);
                    assert(before.contains(id));
                    let j = choose|j: int| 0 <= j < front.len() && front[j] == id;
                    assert(ids[j] == id);
                } else {
                    assert(ids[ids.len() - 1] == id);
                }
            }
            if ids.contains(id) {
                let j = choose|j: int| 0 <= j < ids.len() && ids[j] == id;
                if j < front.len() {
                    assert(front[j] == id);
                    assert(before.contains(id));
                    let i = choose|i: int| 0 <= i < before.len() && before[i] == id;
                    assert(kept[i] == id);
                } else if before.contains(id) {
                } else {
                    assert(kept[kept.len() - 1] == id);
                }
            }
        }
    }
}

/// What is kept of a child list, each id once, holds exactly the children
/// that are to be kept.
proof fn lemma_kept_once(childs: Seq<Seq<char>>, keep: spec_fn(Seq<char>) -> bool)
    ensures
        forall|id: Seq<char>|
            #[trigger] without_repeats(childs.filter(keep)).contains(id) <==> childs.contains(id)
                && keep(id),
        without_repeats(childs.filter(keep)).no_duplicates(),
{
    let kept = childs.filter(keep);
    lemma_without_repeats(kept);
    assert forall|id: Seq<char>| #[trigger]
        without_repeats(kept).contains(id) <==> childs.contains(id) && keep(id) by {
        if kept.contains(id) {
            childs.lemma_filter_contains_rev(keep, id);
            let i = choose|i: int| 0 <= i < kept.len() && kept[i] == id;
            childs.lemma_filter_pred(keep, i);
        }
        if childs.contains(id) && keep(id) {
            let i = choose|i: int| 0 <= i < childs.len() && childs[i] == id;
            childs.lemma_filter_contains(keep, i);
        }
    }
}

/// The subfolder ids of a child list are its children that name a group,
/// each once.
pub proof fn lemma_subfolder_ids(folders: Seq<FolderRecord>, childs: Seq<Seq<char>>)
    ensures
        forall|id: Seq<char>|
            #[trigger] subfolder_ids(folders, childs).contains(id) <==> childs.contains(id)
                && is_folder_id(folders, id),
        subfolder_ids(folders, childs).no_duplicates(),
{
    lemma_kept_once(childs, |id: Seq<char>| is_folder_id(folders, id));
}

/// The file ids of a child list are its children that name a build file and
/// no group, each once.
pub proof fn lemma_file_ids(
    files: Seq<FileRecord>,
    folders: Seq<FolderRecord>,
    childs: Seq<Seq<char>>,
)
    ensures
        forall|id: Seq<char>|
            #[trigger] file_ids(files, folders, childs).contains(id) <==> childs.contains(id)
                && is_file_id(files, folders, id),
        file_ids(files, folders, childs).no_duplicates(),
{
    lemma_kept_once(childs, |id: Seq<char>| is_file_id(files, folders, id));
}

/// The files of a folder have the ids of its children that name a build
/// file.
proof fn lemma_file_nodes_ids(
    files: Seq<FileRecord>,
    folders: Seq<FolderRecord>,
    childs: Seq<Seq<char>>,
    path: Seq<char>,
)
    ensures
        ids_of_files(file_nodes(files, file_ids(files, folders, childs), path)) == file_ids(
            files,
            folders,
            childs,
        ),
{
    let ids = file_ids(files, folders, childs);
    lemma_file_ids(files, folders, childs);
    assert forall|k: int| 0 <= k < ids.len() implies ids_of_files(
        file_nodes(files, ids, path),
    )[k] == ids[k] by {
        assert(ids.contains(ids[k]));
        lemma_file_with_id(files, ids[k]);
    }
    assert(ids_of_files(file_nodes(files, ids, path)) =~= ids);
}

proof fn lemma_add_contains(a: Seq<Seq<char>>, b: Seq<Seq<char>>, id: Seq<char>)
    ensures
        (a + b).contains(id) <==> a.contains(id) || b.contains(id),
{
    if (a + b).contains(id) {
        let i = choose|i: int| 0 <= i < (a + b).len() && (a + b)[i] == id;
        if i < a.len() {
            assert(a[i] == id);
        } else {
            assert(b[i - a.len()] == id);
        }
    }
    if a.contains(id) {
        let i = choose|i: int| 0 <= i < a.len() && a[i] == id;
        assert((a + b)[i] == id);
    }
    if b.contains(id) {
        let i = choose|i: int| 0 <= i < b.len() && b[i] == id;
        assert((a + b)[a.len() + i] == id);
    }
}

/// Summing the lengths of the file lists counts every file of the tree
/// once.
pub proof fn lemma_file_count_is_length(folder: FolderNode)
    ensures
        file_count(folder) == file_ids_below(folder).len(),
    decreases folder,
{
    let n = folder.subfolders.len();
    let counts = file_counts(folder);
    let parts = file_ids_by_subfolder(folder);
    assert forall|k: int| 0 <= k < n implies #[trigger] counts[k] == parts[k].len() by {
        lemma_file_count_is_length(folder.subfolders[k]);
    }
    lemma_joined_len(parts, counts);
}

/// A descent from a child that names a group, with the group put before
/// it, is a descent from the group.
proof fn lemma_descent_extends(
    folders: Seq<FolderRecord>,
    isa: Seq<char>,
    child: Seq<char>,
    tail: Seq<Seq<char>>,
)
    requires
        is_folder_id(folders, isa),
        folder_with_id(folders, isa)->0.childs.contains(child),
        is_descent(folders, child, tail),
    ensures
        is_descent(folders, isa, seq![isa] + tail),
        (seq![isa] + tail).last() == tail.last(),
{
    let chain = seq![isa] + tail;
    assert forall|i: int| 0 <= i < chain.len() implies is_folder_id(
        folders,
        #[trigger] chain[i],
    ) by {
        if i > 0 {
            assert(chain[i] == tail[i - 1]);
        }
    }
    assert forall|i: int| 0 <= i < chain.len() - 1 implies #[trigger] steps_down(
        folders,
        chain,
        i,
    ) by {
        assert(chain[i + 1] == tail[i]);
        if i > 0 {
            assert(chain[i] == tail[i - 1]);
            assert(steps_down(folders, tail, i - 1));
        }
    }
}

/// A descent of more than one group, without its first group, is a descent
/// from a child of that group.
proof fn lemma_descent_tail(folders: Seq<FolderRecord>, isa: Seq<char>, chain: Seq<Seq<char>>)
    requires
        is_descent(folders, isa, chain),
        chain.len() > 1,
    ensures
        is_descent(folders, chain[1], chain.subrange(1, chain.len() as int)),
        chain.subrange(1, chain.len() as int).last() == chain.last(),
        folder_with_id(folders, isa)->0.childs.contains(chain[1]),
        is_folder_id(folders, chain[1]),
{
    let tail = chain.subrange(1, chain.len() as int);
    assert forall|i: int| 0 <= i < tail.len() implies is_folder_id(folders, #[trigger] tail[i]) by {
        assert(tail[i] == chain[i + 1]);
    }
    assert forall|i: int| 0 <= i < tail.len() - 1 implies #[trigger] steps_down(
        folders,
        tail,
        i,
    ) by {
        assert(tail[i] == chain[i + 1]);
        assert(tail[i + 1] == chain[i + 2]);
        assert(steps_down(folders, chain, i + 1));
    }
    assert(steps_down(folders, chain, 0));
}

/// A build file lies in the child closure of a group where it is a child
/// of the group or lies in the child closure of a child that names a group.
proof fn lemma_file_ids_under(
    files: Seq<FileRecord>,
    folders: Seq<FolderRecord>,
    isa: Seq<char>,
    id: Seq<char>,
)
    requires
        is_folder_id(folders, isa),
    ensures
        file_ids_under(files, folders, isa).contains(id) <==> (folder_with_id(
            folders,
            isa,
        )->0.childs.contains(id) && is_file_id(files, folders, id)) || exists|child: Seq<char>|
            folder_with_id(folders, isa)->0.childs.contains(child) && is_folder_id(
                folders,
                child,
            ) && #[trigger] file_ids_under(files, folders, child).contains(id),
{
    let raw = folder_with_id(folders, isa)->0;
    if file_ids_under(files, folders, isa).contains(id) {
        let chain = choose|chain: Seq<Seq<char>>| #[trigger]
            is_descent(folders, isa, chain) && folder_with_id(
                folders,
                chain.last(),
            )->0.childs.contains(id) && is_file_id(files, folders, id);
        if chain.len() > 1 {
            lemma_descent_tail(folders, isa, chain);
            let tail = chain.subrange(1, chain.len() as int);
            assert(is_descent(folders, chain[1], tail));
            assert(file_ids_under(files, folders, chain[1]).contains(id));
        }
    }
    if raw.childs.contains(id) && is_file_id(files, folders, id) {
        let chain = seq![isa];
        assert(is_descent(folders, isa, chain));
        assert(chain.last() == isa);
    }
    if exists|child: Seq<char>|
        raw.childs.contains(child) && is_folder_id(folders, child) && #[trigger] file_ids_under(
            files,
            folders,
            child,
        ).contains(id) {
        let child = choose|child: Seq<char>|
            raw.childs.contains(child) && is_folder_id(folders, child)
                && #[trigger] file_ids_under(files, folders, child).contains(id);
        let tail = choose|chain: Seq<Seq<char>>| #[trigger]
            is_descent(folders, child, chain) && folder_with_id(
                folders,
                chain.last(),
            )->0.childs.contains(id) && is_file_id(files, folders, id);
        lemma_descent_extends(folders, isa, child, tail);
        assert(is_descent(folders, isa, seq![isa] + tail));
    }
}

/// The files of the tree of a group are the build files in the child
/// closure of that group.
pub proof fn lemma_files_below_node(
    files: Seq<FileRecord>,
    folders: Seq<FolderRecord>,
    isa: Seq<char>,
    name: Seq<char>,
    path: Seq<char>,
    depth: nat,
)
    requires
        descends_within(folders, isa, depth),
    ensures
        file_ids_below(folder_node(files, folders, isa, name, path, depth)).to_set()
            == file_ids_under(files, folders, isa),
    decreases depth,
{
    let tree = folder_node(files, folders, isa, name, path, depth);
    let below = file_ids_below(tree);
    let under = file_ids_under(files, folders, isa);
    if folder_with_id(folders, isa) is None {
        assert(below =~= Seq::<Seq<char>>::empty());
        assert forall|id: Seq<char>| !under.contains(id) by {
            if under.contains(id) {
                let chain = choose|chain: Seq<Seq<char>>| #[trigger]
                    is_descent(folders, isa, chain) && folder_with_id(
                        folders,
                        chain.last(),
                    )->0.childs.contains(id) && is_file_id(files, folders, id);
                assert(is_folder_id(folders, chain[0]));
            }
        }
        assert(below.to_set() =~= under);
    } else {
        let raw = folder_with_id(folders, isa)->0;
        let sub_ids = subfolder_ids(folders, raw.childs);
        let own = file_ids(files, folders, raw.childs);
        let n = sub_ids.len();
        let parts = file_ids_by_subfolder(tree);
        lemma_file_nodes_ids(files, folders, raw.childs, path);
        lemma_subfolder_ids(folders, raw.childs);
        lemma_file_ids(files, folders, raw.childs);
        assert(tree.subfolders.len() == n);
        assert(below == own + joined(parts));
        assert forall|k: int| 0 <= k < n implies (#[trigger] parts[k]).to_set()
            == file_ids_under(files, folders, sub_ids[k]) by {
            let sub = folder_with_id(folders, sub_ids[k])->0;
            assert(sub_ids.contains(sub_ids[k]));
            let j = choose|j: int| 0 <= j < raw.childs.len() && raw.childs[j] == sub_ids[k];
            assert(descends_within(folders, raw.childs[j], (depth - 1) as nat));
            lemma_folder_with_id(folders, sub_ids[k]);
            lemma_files_below_node(
                files,
                folders,
                sub.isa,
                sub.name,
                child_path(path, sub.name),
                (depth - 1) as nat,
            );
        }
        assert forall|id: Seq<char>| below.to_set().contains(id) <==> under.contains(id) by {
            lemma_joined_contains(parts, id);
            lemma_add_contains(own, joined(parts), id);
            lemma_file_ids_under(files, folders, isa, id);
            if joined(parts).contains(id) {
                let k = choose|k: int| 0 <= k < parts.len() && (#[trigger] parts[k]).contains(id);
                assert(parts[k].to_set().contains(id));
                assert(sub_ids.contains(sub_ids[k]));
                assert(file_ids_under(files, folders, sub_ids[k]).contains(id));
            }
            if exists|child: Seq<char>|
                raw.childs.contains(child) && is_folder_id(folders, child)
                    && #[trigger] file_ids_under(files, folders, child).contains(id) {
                let child = choose|child: Seq<char>|
                    raw.childs.contains(child) && is_folder_id(folders, child)
                        && #[trigger] file_ids_under(files, folders, child).contains(id);
                assert(sub_ids.contains(child));
                let k = choose|k: int| 0 <= k < sub_ids.len() && sub_ids[k] == child;
                assert(parts[k].to_set().contains(id));
                assert(parts[k].contains(id));
            }
        }
        assert(below.to_set() =~= under);
    }
}

/// The tree of a group has the id, the name and the path that were asked
/// for.
pub proof fn lemma_folder_node_fields(
    files: Seq<FileRecord>,
    folders: Seq<FolderRecord>,
    isa: Seq<char>,
    name: Seq<char>,
    path: Seq<char>,
    depth: nat,
)
    ensures
        folder_node(files, folders, isa, name, path, depth).isa == isa,
        folder_node(files, folders, isa, name, path, depth).name == name,
        folder_node(files, folders, isa, name, path, depth).path == path,
{
}

/// Every file and every folder of the tree of a group has the id of a
/// record: a child that names no record is nowhere in the tree.
pub proof fn lemma_ids_below_node(
    files: Seq<FileRecord>,
    folders: Seq<FolderRecord>,
    isa: Seq<char>,
    name: Seq<char>,
    path: Seq<char>,
    depth: nat,
)
    ensures
        forall|id: Seq<char>|
            #[trigger] ids_below(folder_node(files, folders, isa, name, path, depth)).contains(
                id,
            ) ==> is_folder_id(folders, id) || is_file_id(files, folders, id),
    decreases depth,
{
    let tree = folder_node(files, folders, isa, name, path, depth);
    let below = ids_below(tree);
    if folder_with_id(folders, isa) is Some && depth > 0 {
        let raw = folder_with_id(folders, isa)->0;
        let sub_ids = subfolder_ids(folders, raw.childs);
        let own = file_ids(files, folders, raw.childs);
        let n = sub_ids.len();
        let parts = ids_by_subfolder(tree);
        lemma_file_nodes_ids(files, folders, raw.childs, path);
        lemma_subfolder_ids(folders, raw.childs);
        lemma_file_ids(files, folders, raw.childs);
        assert(tree.subfolders.len() == n);
        assert(below =~= own + joined(parts));
        assert forall|id: Seq<char>| #[trigger] below.contains(id) implies is_folder_id(
            folders,
            id,
        ) || is_file_id(files, folders, id) by {
            lemma_joined_contains(parts, id);
            lemma_add_contains(own, joined(parts), id);
            if !own.contains(id) {
                let k = choose|k: int| 0 <= k < parts.len() && (#[trigger] parts[k]).contains(id);
                let sub = folder_with_id(folders, sub_ids[k])->0;
                assert(sub_ids.contains(sub_ids[k]));
                lemma_folder_with_id(folders, sub_ids[k]);
                lemma_add_contains(seq![tree.subfolders[k].isa], ids_below(tree.subfolders[k]), id);
                assert(parts[k] == seq![tree.subfolders[k].isa] + ids_below(tree.subfolders[k]));
                lemma_folder_node_fields(
                    files,
                    folders,
                    sub.isa,
                    sub.name,
                    child_path(path, sub.name),
                    (depth - 1) as nat,
                );
                assert(tree.subfolders[k].isa == sub_ids[k]);
                if seq![tree.subfolders[k].isa].contains(id) {
                    assert(seq![tree.subfolders[k].isa][0] == sub_ids[k]);
                    assert(id == sub_ids[k]);
                } else {
                    lemma_ids_below_node(
                        files,
                        folders,
                        sub.isa,
                        sub.name,
                        child_path(path, sub.name),
                        (depth - 1) as nat,
                    );
                }
            }
        }
    } else {
        assert(below =~= Seq::<Seq<char>>::empty());
    }
}

/// A depth within which the descent from a group ends is as good as any
/// greater one: the tree is the same.
pub proof fn lemma_depth_is_enough(
    files: Seq<FileRecord>,
    folders: Seq<FolderRecord>,
    isa: Seq<char>,
    name: Seq<char>,
    path: Seq<char>,
    depth: nat,
    more: nat,
)
    requires
        descends_within(folders, isa, depth),
        depth <= more,
    ensures
        folder_node(files, folders, isa, name, path, depth) == folder_node(
            files,
            folders,
            isa,
            name,
            path,
            more,
        ),
    decreases depth,
{
    if folder_with_id(folders, isa) is Some {
        let raw = folder_with_id(folders, isa)->0;
        let sub_ids = subfolder_ids(folders, raw.childs);
        let low = folder_node(files, folders, isa, name, path, depth);
        let high = folder_node(files, folders, isa, name, path, more);
        lemma_subfolder_ids(folders, raw.childs);
        assert forall|k: int| 0 <= k < sub_ids.len() implies low.subfolders[k]
            == high.subfolders[k] by {
            let sub = folder_with_id(folders, sub_ids[k])->0;
            assert(sub_ids.contains(sub_ids[k]));
            let j = choose|j: int| 0 <= j < raw.childs.len() && raw.childs[j] == sub_ids[k];
            assert(descends_within(folders, raw.childs[j], (depth - 1) as nat));
            lemma_folder_with_id(folders, sub_ids[k]);
            lemma_depth_is_enough(
                files,
                folders,
                sub.isa,
                sub.name,
                child_path(path, sub.name),
                (depth - 1) as nat,
                (more - 1) as nat,
            );
        }
        assert(low.subfolders =~= high.subfolders);
    }
}

/// The tree of a group is its tree down to any depth within which the
/// descent from the group ends.
pub proof fn lemma_folder_tree_is_node(
    files: Seq<FileRecord>,
    folders: Seq<FolderRecord>,
    isa: Seq<char>,
    name: Seq<char>,
    path: Seq<char>,
    depth: nat,
)
    requires
        descends_within(folders, isa, depth),
    ensures
        folder_tree(files, folders, isa, name, path) == folder_node(
            files,
            folders,
            isa,
            name,
            path,
            depth,
        ),
{
    let chosen = descent_depth(folders, isa);
    if chosen <= depth {
        lemma_depth_is_enough(files, folders, isa, name, path, chosen, depth);
    } else {
        lemma_depth_is_enough(files, folders, isa, name, path, depth, chosen);
    }
}

/// Where no file occurs twice in the tree of a group, the lengths of the
/// file lists of the tree sum up to the number of build files in the child
/// closure of the group: every such file is counted, and no other.
pub proof fn lemma_file_count_of_tree(
    files: Seq<FileRecord>,
    folders: Seq<FolderRecord>,
    isa: Seq<char>,
    name: Seq<char>,
    path: Seq<char>,
)
    requires
        descent_ends(folders, isa),
        file_ids_below(folder_tree(files, folders, isa, name, path)).no_duplicates(),
    ensures
        file_ids_below(folder_tree(files, folders, isa, name, path)).to_set() == file_ids_under(
            files,
            folders,
            isa,
        ),
        file_ids_under(files, folders, isa).finite(),
        file_count(folder_tree(files, folders, isa, name, path)) == file_ids_under(
            files,
            folders,
            isa,
        ).len(),
{
    let tree = folder_tree(files, folders, isa, name, path);
    lemma_files_below_node(files, folders, isa, name, path, descent_depth(folders, isa));
    lemma_file_count_is_length(tree);
    file_ids_below(tree).unique_seq_to_set();
    vstd::seq_lib::seq_to_set_is_finite(file_ids_below(tree));
}

/// Every file and every folder of the tree of a group has the id of a
/// record. A child id that names neither a build file nor a group is
/// nowhere in the tree.
pub proof fn lemma_tree_holds_known_ids(
    files: Seq<FileRecord>,
    folders: Seq<FolderRecord>,
    isa: Seq<char>,
    name: Seq<char>,
    path: Seq<char>,
    id: Seq<char>,
)
    requires
        ids_below(folder_tree(files, folders, isa, name, path)).contains(id),
    ensures
        is_folder_id(folders, id) || is_file_id(files, folders, id),
{
    lemma_ids_below_node(files, folders, isa, name, path, descent_depth(folders, isa));
}

/// The tree of a group is well formed.
pub proof fn lemma_node_is_well_formed(
    files: Seq<FileRecord>,
    folders: Seq<FolderRecord>,
    isa: Seq<char>,
    name: Seq<char>,
    path: Seq<char>,
    depth: nat,
)
    ensures
        is_well_formed(folder_node(files, folders, isa, name, path, depth)),
    decreases depth,
{
    let tree = folder_node(files, folders, isa, name, path, depth);
    if folder_with_id(folders, isa) is Some && depth > 0 {
        let raw = folder_with_id(folders, isa)->0;
        let sub_ids = subfolder_ids(folders, raw.childs);
        lemma_file_nodes_ids(files, folders, raw.childs, path);
        lemma_subfolder_ids(folders, raw.childs);
        lemma_file_ids(files, folders, raw.childs);
        assert forall|k: int|
            0 <= k < tree.subfolders.len() implies (#[trigger] tree.subfolders[k]).path
            == child_path(tree.path, tree.subfolders[k].name) && is_well_formed(
            tree.subfolders[k],
        ) && tree.subfolders[k].isa == sub_ids[k] by {
            let sub = folder_with_id(folders, sub_ids[k])->0;
            assert(sub_ids.contains(sub_ids[k]));
            lemma_folder_with_id(folders, sub_ids[k]);
            lemma_folder_node_fields(
                files,
                folders,
                sub.isa,
                sub.name,
                child_path(path, sub.name),
                (depth - 1) as nat,
            );
            lemma_node_is_well_formed(
                files,
                folders,
                sub.isa,
                sub.name,
                child_path(path, sub.name),
                (depth - 1) as nat,
            );
        }
        assert(ids_of_folders(tree.subfolders) =~= sub_ids);
    } else {
        assert(ids_of_files(tree.files) =~= Seq::<Seq<char>>::empty());
        assert(ids_of_folders(tree.subfolders) =~= Seq::<Seq<char>>::empty());
    }
}

/// The tree of a group is well formed: ids are not repeated within a
/// folder, and every path is the path of the folder above, the delimiter,
/// and the name.
pub proof fn lemma_tree_is_well_formed(
    files: Seq<FileRecord>,
    folders: Seq<FolderRecord>,
    isa: Seq<char>,
    name: Seq<char>,
    path: Seq<char>,
)
    ensures
        is_well_formed(folder_tree(files, folders, isa, name, path)),
        folder_tree(files, folders, isa, name, path).isa == isa,
        folder_tree(files, folders, isa, name, path).name == name,
        folder_tree(files, folders, isa, name, path).path == path,
{
    lemma_node_is_well_formed(files, folders, isa, name, path, descent_depth(folders, isa));
}

} // verus!
