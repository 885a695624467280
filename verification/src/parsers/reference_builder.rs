//! The tree of folders and files that the flat records of a descriptor describe.
use crate::parsers::pbx_parser::{
    file_records, file_views, folder_views, group_records, parse_all_raw_files,
    parse_all_raw_folders, FileRaw, FileRecord, FolderRaw, FolderRecord,
};
use crate::utils::text::{lines_of, texts};
use vstd::prelude::*;
use vstd::string::StringExecFns;

verus! {

/// Separates the folders of a path.
pub const PATH_DELIMITER: &'static str = "/";

/// A file of the tree: its id, its name and its path from the root.
#[derive(Debug, PartialEq, Eq)]
pub struct File {
    pub isa: String,
    pub name: String,
    pub path: String,
}

/// A folder of the tree: its id, its name, its path from the root, and the
/// files and folders that it holds. Within a folder no two files and no two
/// subfolders have one id.
#[derive(Debug, PartialEq, Eq)]
pub struct Folder {
    pub isa: String,
    pub name: String,
    pub path: String,
    pub files: Vec<File>,
    pub subfolders: Vec<Folder>,
}

/// What a `File` holds.
pub ghost struct FileNode {
    pub isa: Seq<char>,
    pub name: Seq<char>,
    pub path: Seq<char>,
}

/// What a `Folder` holds.
pub ghost struct FolderNode {
    pub isa: Seq<char>,
    pub name: Seq<char>,
    pub path: Seq<char>,
    pub files: Seq<FileNode>,
    pub subfolders: Seq<FolderNode>,
}

impl View for File {
    type V = FileNode;

    open spec fn view(&self) -> FileNode {
        FileNode { isa: self.isa@, name: self.name@, path: self.path@ }
    }
}

/// What `folder` holds.
pub open spec fn node_of(folder: Folder) -> FolderNode
    decreases folder,
{
    FolderNode {
        isa: folder.isa@,
        name: folder.name@,
        path: folder.path@,
        files: folder.files@.map_values(|f: File| f@),
        subfolders: Seq::new(
            folder.subfolders@.len(),
            |k: int|
                if 0 <= k < folder.subfolders@.len() {
                    node_of(folder.subfolders@[k])
                } else {
                    arbitrary()
                },
        ),
    }
}

impl View for Folder {
    type V = FolderNode;

    open spec fn view(&self) -> FolderNode {
        node_of(*self)
    }
}

/// The group record with id `id`. Where several records have this id, the
/// last of them counts.
pub open spec fn folder_with_id(folders: Seq<FolderRecord>, id: Seq<char>) -> Option<FolderRecord>
    decreases folders.len(),
{
    if folders.len() == 0 {
        None
    } else if folders.last().isa == id {
        Some(folders.last())
    } else {
        folder_with_id(folders.drop_last(), id)
    }
}

/// The build-file record with id `id`. Where several records have this id,
/// the last of them counts.
pub open spec fn file_with_id(files: Seq<FileRecord>, id: Seq<char>) -> Option<FileRecord>
    decreases files.len(),
{
    if files.len() == 0 {
        None
    } else if files.last().isa == id {
        Some(files.last())
    } else {
        file_with_id(files.drop_last(), id)
    }
}

/// `id` names a group.
pub open spec fn is_folder_id(folders: Seq<FolderRecord>, id: Seq<char>) -> bool {
    folder_with_id(folders, id) is Some
}

/// `id` names a build file and no group.
pub open spec fn is_file_id(
    files: Seq<FileRecord>,
    folders: Seq<FolderRecord>,
    id: Seq<char>,
) -> bool {
    !is_folder_id(folders, id) && file_with_id(files, id) is Some
}

/// `ids` with every id kept where it first occurs and left out after that.
pub open spec fn without_repeats(ids: Seq<Seq<char>>) -> Seq<Seq<char>>
    decreases ids.len(),
{
    if ids.len() == 0 {
        ids
    } else {
        let before = without_repeats(ids.drop_last());
        if before.contains(ids.last()) {
            before
        } else {
            before.push(ids.last())
        }
    }
}

/// The ids of the subfolders of a folder with the child ids `childs`.
pub open spec fn subfolder_ids(folders: Seq<FolderRecord>, childs: Seq<Seq<char>>) -> Seq<
    Seq<char>,
> {
    without_repeats(childs.filter(|id: Seq<char>| is_folder_id(folders, id)))
}

/// The ids of the files of a folder with the child ids `childs`.
pub open spec fn file_ids(
    files: Seq<FileRecord>,
    folders: Seq<FolderRecord>,
    childs: Seq<Seq<char>>,
) -> Seq<Seq<char>> {
    without_repeats(childs.filter(|id: Seq<char>| is_file_id(files, folders, id)))
}

/// The path of what is called `name` in the folder at `path`.
pub open spec fn child_path(path: Seq<char>, name: Seq<char>) -> Seq<char> {
    path + PATH_DELIMITER@ + name
}

/// The file with id `id` in the folder at `path`.
pub open spec fn file_node(files: Seq<FileRecord>, id: Seq<char>, path: Seq<char>) -> FileNode {
    let raw = file_with_id(files, id)->0;
    FileNode { isa: raw.isa, name: raw.name, path: child_path(path, raw.name) }
}

/// The files with the ids `ids` in the folder at `path`.
pub open spec fn file_nodes(files: Seq<FileRecord>, ids: Seq<Seq<char>>, path: Seq<char>) -> Seq<
    FileNode,
> {
    Seq::new(ids.len(), |k: int| file_node(files, ids[k], path))
}

/// The folder with id `isa`, called `name`, at `path`, with what it holds
/// down to `depth` levels of folders: its files are the children that name
/// a build file, its subfolders the children that name a group, each child
/// once, in the order of the child list. A child that names neither is not
/// in the tree. At depth 0 a folder is empty.
pub open spec fn folder_node(
    files: Seq<FileRecord>,
    folders: Seq<FolderRecord>,
    isa: Seq<char>,
    name: Seq<char>,
    path: Seq<char>,
    depth: nat,
) -> FolderNode
    decreases depth,
{
    match folder_with_id(folders, isa) {
        Some(raw) if depth > 0 => {
            let sub_ids = subfolder_ids(folders, raw.childs);
            FolderNode {
                isa,
                name,
                path,
                files: file_nodes(files, file_ids(files, folders, raw.childs), path),
                subfolders: Seq::new(
                    sub_ids.len(),
                    |k: int|
                        {
                            let sub = folder_with_id(folders, sub_ids[k])->0;
                            folder_node(
                                files,
                                folders,
                                sub.isa,
                                sub.name,
                                child_path(path, sub.name),
                                (depth - 1) as nat,
                            )
                        },
                ),
            }
        },
        _ => FolderNode { isa, name, path, files: Seq::empty(), subfolders: Seq::empty() },
    }
}

/// Following the child lists from the group `isa` down ends within `depth`
/// levels of folders.
pub open spec fn descends_within(folders: Seq<FolderRecord>, isa: Seq<char>, depth: nat) -> bool
    decreases depth,
{
    match folder_with_id(folders, isa) {
        Some(raw) => depth > 0 && forall|k: int|
            0 <= k < raw.childs.len() ==> descends_within(
                folders,
                #[trigger] raw.childs[k],
                (depth - 1) as nat,
            ),
        None => true,
    }
}

/// Following the child lists from the group `isa` down comes to an end: no
/// group below `isa` holds itself.
pub open spec fn descent_ends(folders: Seq<FolderRecord>, isa: Seq<char>) -> bool {
    exists|depth: nat| descends_within(folders, isa, depth)
}

/// A depth within which the descent from `isa` ends, where it ends.
pub open spec fn descent_depth(folders: Seq<FolderRecord>, isa: Seq<char>) -> nat {
    choose|depth: nat| descends_within(folders, isa, depth)
}

/// The folder with id `isa`, called `name`, at `path`, with all that it
/// holds.
pub open spec fn folder_tree(
    files: Seq<FileRecord>,
    folders: Seq<FolderRecord>,
    isa: Seq<char>,
    name: Seq<char>,
    path: Seq<char>,
) -> FolderNode {
    folder_node(files, folders, isa, name, path, descent_depth(folders, isa))
}

/// The record found under an id has that id.
pub proof fn lemma_folder_with_id(folders: Seq<FolderRecord>, id: Seq<char>)
    ensures
        folder_with_id(folders, id) matches Some(raw) ==> raw.isa == id && folders.contains(raw),
    decreases folders.len(),
{
    if folders.len() > 0 {
        if folders.last().isa == id {
            assert(folders[folders.len() - 1] == folders.last());
        } else {
            lemma_folder_with_id(folders.drop_last(), id);
            if folder_with_id(folders, id) is Some {
                let raw = folder_with_id(folders, id)->0;
                let k = choose|k: int|
                    0 <= k < folders.drop_last().len() && folders.drop_last()[k] == raw;
                assert(folders[k] == raw);
            }
        }
    }
}

/// The record found under an id has that id.
pub proof fn lemma_file_with_id(files: Seq<FileRecord>, id: Seq<char>)
    ensures
        file_with_id(files, id) matches Some(raw) ==> raw.isa == id && files.contains(raw),
    decreases files.len(),
{
    if files.len() > 0 {
        if files.last().isa == id {
            assert(files[files.len() - 1] == files.last());
        } else {
            lemma_file_with_id(files.drop_last(), id);
            if file_with_id(files, id) is Some {
                let raw = file_with_id(files, id)->0;
                let k = choose|k: int|
                    0 <= k < files.drop_last().len() && files.drop_last()[k] == raw;
                assert(files[k] == raw);
            }
        }
    }
}

/// One more child adds its id to the subfolders where it names a group that
/// is not among them yet.
proof fn lemma_subfolder_ids_push(
    folders: Seq<FolderRecord>,
    childs: Seq<Seq<char>>,
    child: Seq<char>,
)
    ensures
        subfolder_ids(folders, childs.push(child)) == if is_folder_id(folders, child)
            && !subfolder_ids(folders, childs).contains(child) {
            subfolder_ids(folders, childs).push(child)
        } else {
            subfolder_ids(folders, childs)
        },
{
    let kept = |id: Seq<char>| is_folder_id(folders, id);
    childs.lemma_filter_push(child, kept);
    if is_folder_id(folders, child) {
        assert(childs.filter(kept).push(child).drop_last() =~= childs.filter(kept));
    }
}

/// One more child adds its id to the files where it names a build file that
/// is not among them yet.
proof fn lemma_file_ids_push(
    files: Seq<FileRecord>,
    folders: Seq<FolderRecord>,
    childs: Seq<Seq<char>>,
    child: Seq<char>,
)
    ensures
        file_ids(files, folders, childs.push(child)) == if is_file_id(files, folders, child)
            && !file_ids(files, folders, childs).contains(child) {
            file_ids(files, folders, childs).push(child)
        } else {
            file_ids(files, folders, childs)
        },
{
    let kept = |id: Seq<char>| is_file_id(files, folders, id);
    childs.lemma_filter_push(child, kept);
    if is_file_id(files, folders, child) {
        assert(childs.filter(kept).push(child).drop_last() =~= childs.filter(kept));
    }
}

/// The group record with the id `isa`.
pub fn find_folder<'a>(folders: &'a Vec<FolderRaw>, isa: &String) -> (found: Option<&'a FolderRaw>)
    ensures
        match found {
            Some(raw) => folder_with_id(folder_views(folders@), isa@) == Some(raw@),
            None => folder_with_id(folder_views(folders@), isa@) is None,
        },
{
    let ghost all = folder_views(folders@);
    let mut i: usize = folders.len();
    assert(all.take(i as int) =~= all);
    while i > 0
        invariant
            i <= folders.len(),
            all == folder_views(folders@),
            folder_with_id(all, isa@) == folder_with_id(all.take(i as int), isa@),
        decreases i,
    {
        assert(all.take(i as int).drop_last() =~= all.take(i - 1));
        i -= 1;
        if folders[i].isa == *isa {
            return Some(&folders[i]);
        }
    }
    None
}

/// The build-file record with the id `isa`.
pub fn find_file<'a>(files: &'a Vec<FileRaw>, isa: &String) -> (found: Option<&'a FileRaw>)
    ensures
        match found {
            Some(raw) => file_with_id(file_views(files@), isa@) == Some(raw@),
            None => file_with_id(file_views(files@), isa@) is None,
        },
{
    let ghost all = file_views(files@);
    let mut i: usize = files.len();
    assert(all.take(i as int) =~= all);
    while i > 0
        invariant
            i <= files.len(),
            all == file_views(files@),
            file_with_id(all, isa@) == file_with_id(all.take(i as int), isa@),
        decreases i,
    {
        assert(all.take(i as int).drop_last() =~= all.take(i - 1));
        i -= 1;
        if files[i].isa == *isa {
            return Some(&files[i]);
        }
    }
    None
}

/// The ids of a list of files.
pub open spec fn ids_of_files(files: Seq<FileNode>) -> Seq<Seq<char>> {
    files.map_values(|f: FileNode| f.isa)
}

/// The ids of a list of folders.
pub open spec fn ids_of_folders(folders: Seq<FolderNode>) -> Seq<Seq<char>> {
    folders.map_values(|f: FolderNode| f.isa)
}

/// What the view of a folder holds, level by level.
pub proof fn lemma_folder_view(folder: Folder)
    ensures
        folder@.isa == folder.isa@,
        folder@.name == folder.name@,
        folder@.path == folder.path@,
        folder@.files == folder.files@.map_values(|f: File| f@),
        folder@.subfolders.len() == folder.subfolders@.len(),
        forall|k: int|
            0 <= k < folder.subfolders@.len() ==> #[trigger] folder@.subfolders[k]
                == folder.subfolders@[k]@,
{
}

/// Whether `folder` holds a file with the id `isa`.
fn has_file(folder: &Folder, isa: &String) -> (found: bool)
    ensures
        found == ids_of_files(folder@.files).contains(isa@),
{
    let ghost ids = ids_of_files(folder@.files);
    let mut i: usize = 0;
    while i < folder.files.len()
        invariant
            i <= folder.files.len(),
            ids == ids_of_files(folder@.files),
            ids.len() == folder.files.len(),
            forall|k: int| 0 <= k < i ==> ids[k] != isa@,
        decreases folder.files.len() - i,
    {
        assert(ids[i as int] == folder.files@[i as int].isa@);
        if folder.files[i].isa == *isa {
            return true;
        }
        i += 1;
    }
    false
}

/// Whether `folder` holds a subfolder with the id `isa`.
fn has_subfolder(folder: &Folder, isa: &String) -> (found: bool)
    ensures
        found == ids_of_folders(folder@.subfolders).contains(isa@),
{
    let ghost ids = ids_of_folders(folder@.subfolders);
    let mut i: usize = 0;
    proof {
        lemma_folder_view(*folder);
    }
    while i < folder.subfolders.len()
        invariant
            i <= folder.subfolders.len(),
            ids == ids_of_folders(folder@.subfolders),
            ids.len() == folder.subfolders.len(),
            forall|k: int|
                0 <= k < folder.subfolders@.len() ==> #[trigger] folder@.subfolders[k]
                    == folder.subfolders@[k]@,
            forall|k: int| 0 <= k < i ==> ids[k] != isa@,
        decreases folder.subfolders.len() - i,
    {
        assert(ids[i as int] == folder.subfolders@[i as int]@.isa);
        if folder.subfolders[i].isa == *isa {
            return true;
        }
        i += 1;
    }
    false
}

/// The path of what is called `name` in the folder at `path`.
fn join_path(path: &String, name: &String) -> (joined: String)
    ensures
        joined@ == child_path(path@, name@),
{
    path.clone().concat(PATH_DELIMITER).concat(name.as_str())
}

/// The folder with id `isa`, called `name`, at `path`, with what it holds
/// down to `depth` levels of folders.
fn build_folder(
    files: &Vec<FileRaw>,
    folders: &Vec<FolderRaw>,
    isa: String,
    name: String,
    path: String,
    Ghost(depth): Ghost<nat>,
) -> (folder: Folder)
    requires
        descends_within(folder_views(folders@), isa@, depth),
    ensures
        folder@ == folder_node(
            file_views(files@),
            folder_views(folders@),
            isa@,
            name@,
            path@,
            depth,
        ),
    decreases depth,
{
    let ghost all_files = file_views(files@);
    let ghost all_folders = folder_views(folders@);
    let ghost tree = folder_node(all_files, all_folders, isa@, name@, path@, depth);
    let mut current_folder = Folder {
        isa,
        name,
        path,
        files: Vec::new(),
        subfolders: Vec::new(),
    };
    proof {
        lemma_folder_view(current_folder);
        assert(current_folder@.files =~= Seq::<FileNode>::empty());
        assert(current_folder@.subfolders =~= Seq::<FolderNode>::empty());
    }
    if let Some(raw_folder) = find_folder(folders, &current_folder.isa) {
        let ghost childs = raw_folder@.childs;
        let ghost below = (depth - 1) as nat;
        let mut i: usize = 0;
        proof {
            assert(childs.take(0) =~= Seq::<Seq<char>>::empty());
            assert(subfolder_ids(all_folders, childs.take(0)) =~= Seq::<Seq<char>>::empty()) by {
                reveal(Seq::filter);
            }
            assert(file_ids(all_files, all_folders, childs.take(0)) =~= Seq::<
                Seq<char>,
            >::empty()) by {
                reveal(Seq::filter);
            }
        }
        while i < raw_folder.childs.len()
            invariant
                i <= raw_folder.childs.len(),
                all_files == file_views(files@),
                all_folders == folder_views(folders@),
                childs == raw_folder@.childs,
                childs == texts(raw_folder.childs@),
                depth > 0,
                below == depth - 1,
                forall|k: int|
                    0 <= k < childs.len() ==> descends_within(
                        all_folders,
                        #[trigger] childs[k],
                        below,
                    ),
                current_folder@.isa == tree.isa,
                current_folder@.name == tree.name,
                current_folder@.path == tree.path,
                current_folder@.files == file_nodes(
                    all_files,
                    file_ids(all_files, all_folders, childs.take(i as int)),
                    tree.path,
                ),
                ids_of_files(current_folder@.files) == file_ids(
                    all_files,
                    all_folders,
                    childs.take(i as int),
                ),
                ids_of_folders(current_folder@.subfolders) == subfolder_ids(
                    all_folders,
                    childs.take(i as int),
                ),
                forall|k: int|
                    0 <= k < current_folder@.subfolders.len()
                        ==> #[trigger] current_folder@.subfolders[k] == folder_node(
                        all_files,
                        all_folders,
                        folder_with_id(
                            all_folders,
                            subfolder_ids(all_folders, childs.take(i as int))[k],
                        )->0.isa,
                        folder_with_id(
                            all_folders,
                            subfolder_ids(all_folders, childs.take(i as int))[k],
                        )->0.name,
                        child_path(
                            tree.path,
                            folder_with_id(
                                all_folders,
                                subfolder_ids(all_folders, childs.take(i as int))[k],
                            )->0.name,
                        ),
                        below,
                    ),
            decreases raw_folder.childs.len() - i,
        {
            let child_isa = &raw_folder.childs[i];
            let ghost child = child_isa@;
            let ghost before = current_folder;
            let ghost sub_ids = subfolder_ids(all_folders, childs.take(i as int));
            let ghost own_ids = file_ids(all_files, all_folders, childs.take(i as int));
            proof {
                assert(childs[i as int] == child);
                assert(childs.take(i + 1) =~= childs.take(i as int).push(child));
                lemma_subfolder_ids_push(all_folders, childs.take(i as int), child);
                lemma_file_ids_push(all_files, all_folders, childs.take(i as int), child);
                lemma_folder_view(current_folder);
            }
            if let Some(subfolder_ref) = find_folder(folders, child_isa) {
                if !has_subfolder(&current_folder, child_isa) {
                    proof {
                        lemma_folder_with_id(all_folders, child);
                    }
                    let path = join_path(&current_folder.path, &subfolder_ref.name);
                    let subfolder = build_folder(
                        files,
                        folders,
                        subfolder_ref.isa.clone(),
                        subfolder_ref.name.clone(),
                        path,
                        Ghost(below),
                    );
                    let ghost added = subfolder@;
                    current_folder.subfolders.push(subfolder);
                    proof {
                        lemma_folder_view(current_folder);
                        assert(current_folder@.subfolders =~= before@.subfolders.push(added));
                        assert(ids_of_folders(current_folder@.subfolders) =~= sub_ids.push(
                            child,
                        ));
                    }
                }
            } else if let Some(file_ref) = find_file(files, child_isa) {
                if !has_file(&current_folder, child_isa) {
                    proof {
                        lemma_file_with_id(all_files, child);
                    }
                    let path = join_path(&current_folder.path, &file_ref.name);
                    let file = File {
                        isa: file_ref.isa.clone(),
                        name: file_ref.name.clone(),
                        path,
                    };
                    let ghost added = file@;
                    current_folder.files.push(file);
                    proof {
                        lemma_folder_view(current_folder);
                        assert(current_folder@.files =~= before@.files.push(added));
                        assert(current_folder@.subfolders =~= before@.subfolders);
                        assert(current_folder@.files =~= file_nodes(
                            all_files,
                            own_ids.push(child),
                            tree.path,
                        ));
                        assert(ids_of_files(current_folder@.files) =~= own_ids.push(child));
                    }
                }
            }
            i += 1;
        }
        proof {
            assert(childs.take(i as int) =~= childs);
            assert(current_folder@.subfolders =~= tree.subfolders);
        }
    }
    current_folder
}

/// Record `i` is the one that counts for its id: no later record has it.
pub open spec fn is_current(folders: Seq<FolderRecord>, i: int) -> bool {
    forall|j: int| i < j < folders.len() ==> (#[trigger] folders[j]).isa != folders[i].isa
}

/// Record `i` can be the root called `name`: it has that name and counts
/// for its id.
pub open spec fn is_root_candidate(folders: Seq<FolderRecord>, name: Seq<char>, i: int) -> bool {
    &&& 0 <= i < folders.len()
    &&& folders[i].name == name
    &&& is_current(folders, i)
}

/// Record `i` is the first that can be the root called `name`.
pub open spec fn is_first_root_candidate(
    folders: Seq<FolderRecord>,
    name: Seq<char>,
    i: int,
) -> bool {
    &&& is_root_candidate(folders, name, i)
    &&& forall|j: int| 0 <= j < i ==> !is_root_candidate(folders, name, j)
}

/// The id of the root folder called `name`: that of the first record with
/// this name among the records that count for their ids.
pub open spec fn root_folder_isa(folders: Seq<FolderRecord>, name: Seq<char>) -> Option<
    Seq<char>,
> {
    if exists|i: int| is_root_candidate(folders, name, i) {
        Some(folders[choose|i: int| is_first_root_candidate(folders, name, i)].isa)
    } else {
        None
    }
}

proof fn lemma_root_folder_isa_is(folders: Seq<FolderRecord>, name: Seq<char>, i: int)
    requires
        is_first_root_candidate(folders, name, i),
    ensures
        root_folder_isa(folders, name) == Some(folders[i].isa),
{
    let k = choose|k: int| is_first_root_candidate(folders, name, k);
    if k < i {
        assert(!is_root_candidate(folders, name, k));
    } else if i < k {
        assert(!is_root_candidate(folders, name, i));
    }
}

/// The record that counts for its id is the one found under that id.
pub proof fn lemma_current_is_found(folders: Seq<FolderRecord>, i: int)
    requires
        0 <= i < folders.len(),
        is_current(folders, i),
    ensures
        folder_with_id(folders, folders[i].isa) == Some(folders[i]),
    decreases folders.len(),
{
    if i < folders.len() - 1 {
        assert(folders[folders.len() - 1].isa != folders[i].isa);
        let shorter = folders.drop_last();
        assert forall|j: int| i < j < shorter.len() implies (#[trigger] shorter[j]).isa
            != shorter[i].isa by {
            assert(shorter[j] == folders[j]);
        }
        lemma_current_is_found(shorter, i);
    }
}

/// Whether no record after `i` has the id of record `i`.
fn counts_for_its_id(folders: &Vec<FolderRaw>, i: usize) -> (current: bool)
    requires
        i < folders.len(),
    ensures
        current == is_current(folder_views(folders@), i as int),
{
    let ghost all = folder_views(folders@);
    let mut j: usize = i + 1;
    while j < folders.len()
        invariant
            i < j <= folders.len(),
            all == folder_views(folders@),
            forall|k: int| i < k < j ==> (#[trigger] all[k]).isa != all[i as int].isa,
        decreases folders.len() - j,
    {
        if folders[j].isa == folders[i].isa {
            assert(all[j as int].isa == all[i as int].isa);
            return false;
        }
        j += 1;
    }
    true
}

/// The id of the root folder called `root_folder_name`, if a group has that
/// name.
pub fn find_root_folder_isa(root_folder_name: &str, folders: &Vec<FolderRaw>) -> (isa: Option<
    String,
>)
    ensures
        match isa {
            Some(id) => root_folder_isa(folder_views(folders@), root_folder_name@) == Some(id@),
            None => root_folder_isa(folder_views(folders@), root_folder_name@) is None,
        },
{
    let ghost all = folder_views(folders@);
    let name = root_folder_name.to_owned();
    let mut i: usize = 0;
    while i < folders.len()
        invariant
            i <= folders.len(),
            all == folder_views(folders@),
            name@ == root_folder_name@,
            forall|k: int| 0 <= k < i ==> !is_root_candidate(all, name@, k),
        decreases folders.len() - i,
    {
        if folders[i].name == name && counts_for_its_id(folders, i) {
            proof {
                lemma_root_folder_isa_is(all, name@, i as int);
            }
            return Some(folders[i].isa.clone());
        }
        i += 1;
    }
    None
}

/// The folder with id `isa`, called `name`, at `path`, with all that it
/// holds. The descent from `isa` has to end: a group that holds itself,
/// directly or through other groups, has no tree.
pub fn build_project_hierarhy_recursively(
    files: &Vec<FileRaw>,
    folders: &Vec<FolderRaw>,
    isa: String,
    name: String,
    path: String,
) -> (folder: Folder)
    requires
        descent_ends(folder_views(folders@), isa@),
    ensures
        folder@ == folder_tree(file_views(files@), folder_views(folders@), isa@, name@, path@),
{
    let depth = Ghost(descent_depth(folder_views(folders@), isa@));
    build_folder(files, folders, isa, name, path, depth)
}

/// The tree of the root folder called `root_folder_name`, if there is such
/// a folder. The root's path is its name.
pub open spec fn project_tree(
    files: Seq<FileRecord>,
    folders: Seq<FolderRecord>,
    root_folder_name: Seq<char>,
) -> Option<FolderNode> {
    match root_folder_isa(folders, root_folder_name) {
        Some(isa) => Some(folder_tree(files, folders, isa, root_folder_name, root_folder_name)),
        None => None,
    }
}

/// The descent from the root folder called `root_folder_name` ends, if
/// there is such a folder.
pub open spec fn root_descent_ends(
    folders: Seq<FolderRecord>,
    root_folder_name: Seq<char>,
) -> bool {
    match root_folder_isa(folders, root_folder_name) {
        Some(isa) => descent_ends(folders, isa),
        None => true,
    }
}

/// The tree of the root folder called `root_folder_name` over the given
/// records; `None` where no group has that name.
pub fn build_project_hierarchy(
    files: &Vec<FileRaw>,
    folders: &Vec<FolderRaw>,
    root_folder_name: &str,
) -> (tree: Option<Folder>)
    requires
        root_descent_ends(folder_views(folders@), root_folder_name@),
    ensures
        match tree {
            Some(root) => project_tree(
                file_views(files@),
                folder_views(folders@),
                root_folder_name@,
            ) == Some(root@),
            None => project_tree(file_views(files@), folder_views(folders@), root_folder_name@)
                is None,
        },
{
    let ghost all = folder_views(folders@);
    if let Some(root_folder_isa) = find_root_folder_isa(root_folder_name, folders) {
        proof {
            if exists|i: int| is_root_candidate(all, root_folder_name@, i) {
                let i = choose|i: int| is_first_root_candidate(all, root_folder_name@, i);
                lemma_first_candidate_exists(all, root_folder_name@);
                lemma_current_is_found(all, i);
            }
        }
        if let Some(root_raw_folder) = find_folder(folders, &root_folder_isa) {
            let root_folder = build_project_hierarhy_recursively(
                files,
                folders,
                root_folder_isa,
                root_raw_folder.name.clone(),
                root_raw_folder.name.clone(),
            );
            Some(root_folder)
        } else {
            None
        }
    } else {
        None
    }
}

proof fn lemma_first_candidate_exists(folders: Seq<FolderRecord>, name: Seq<char>)
    requires
        exists|i: int| is_root_candidate(folders, name, i),
    ensures
        is_first_root_candidate(
            folders,
            name,
            choose|i: int| is_first_root_candidate(folders, name, i),
        ),
{
    let w = choose|i: int| is_root_candidate(folders, name, i);
    lemma_least_candidate(folders, name, w);
}

proof fn lemma_least_candidate(folders: Seq<FolderRecord>, name: Seq<char>, w: int)
    requires
        is_root_candidate(folders, name, w),
    ensures
        exists|i: int| is_first_root_candidate(folders, name, i),
    decreases w,
{
    if exists|j: int| 0 <= j < w && is_root_candidate(folders, name, j) {
        let j = choose|j: int| 0 <= j < w && is_root_candidate(folders, name, j);
        lemma_least_candidate(folders, name, j);
    } else {
        assert(is_first_root_candidate(folders, name, w));
    }
}

/// The tree of the root folder called `root_folder_name` in the descriptor
/// whose text is `project_text`; `None` where no group has that name.
pub fn parse_files_tree(project_text: &str, root_folder_name: &str) -> (tree: Option<Folder>)
    requires
        root_descent_ends(group_records(lines_of(project_text@)), root_folder_name@),
    ensures
        match tree {
            Some(root) => project_tree(
                file_records(lines_of(project_text@)),
                group_records(lines_of(project_text@)),
                root_folder_name@,
            ) == Some(root@),
            None => project_tree(
                file_records(lines_of(project_text@)),
                group_records(lines_of(project_text@)),
                root_folder_name@,
            ) is None,
        },
{
    let files = parse_all_raw_files(project_text);
    let folders = parse_all_raw_folders(project_text);
    build_project_hierarchy(&files, &folders, root_folder_name)
}

} // verus!
