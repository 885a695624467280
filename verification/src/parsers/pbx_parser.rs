//! Flat records of a project descriptor: build files and groups.
use crate::utils::string_utils::{
    before, between, lemma_text_before_is_prefix, lemma_text_between_is_part, text_before,
    text_between,
};
use crate::utils::text::{
    append_chars, contains, contains_text, ends_with, has_suffix, is_first_occurrence,
    is_trimmed, lemma_delimiter_after_field, lemma_first_occurrence_is,
    lemma_trimmed_is_trimmed, lemma_trimmed_joined, lemma_trimmed_stays, lines, lines_of, slices,
    split_bounds, split_on, string_from_chars, texts, to_chars, trim, trimmed,
};
use vstd::slice::slice_subrange;
use vstd::prelude::*;

verus! {

/// Opens the comment that follows a record id.
pub const ID_COMMENT: &'static str = " /* ";

/// Closes the display name of a build file.
pub const NAME_END: &'static str = " in";

/// Ends the id of a group.
pub const GROUP_ID_END: &'static str = " = {";

/// Ends a group.
pub const GROUP_END: &'static str = "};";

/// Precedes the display name of a group.
pub const PATH_KEY: &'static str = "path = ";

/// Ends the display name of a group.
pub const PATH_END: &'static str = ";";

/// Precedes the child list of a group.
pub const CHILDREN_KEY: &'static str = "children = (";

/// Ends the child list of a group.
pub const CHILDREN_END: &'static str = ");";

/// Ends the name of an implementation file.
pub const IMPLEMENTATION_SUFFIX: &'static str = ".m";

/// Ends the name of a header.
pub const HEADER_SUFFIX: &'static str = ".h";

/// Ends the name of a Swift source file.
pub const SWIFT_SUFFIX: &'static str = ".swift";

/// Marks the line that starts a group inside the section of groups.
pub const GROUP_START: &'static str = "*/ = {";

/// Marks the line before the first build file.
pub const BUILD_FILE_SECTION_BEGIN: &'static str = "/* Begin PBXBuildFile section */";

/// Marks the line after the last build file.
pub const BUILD_FILE_SECTION_END: &'static str = "/* End PBXBuildFile section */";

/// Marks the line before the first group.
pub const GROUP_SECTION_BEGIN: &'static str = "/* Begin PBXGroup section */";

/// Marks the line after the last group.
pub const GROUP_SECTION_END: &'static str = "/* End PBXGroup section */";

/// The kind of a record.
#[derive(PartialEq, Eq, Hash, Debug)]
pub enum FileType {
    OBJC,
    SWIFT,
    FOLDER,
    /// Another type of file. Could be .js/.png/.framework etc
    NONE,
}

/// A group as the descriptor lists it: its id, its display name and the ids
/// of its children, which may name groups or build files.
#[derive(PartialEq, Eq, Hash, Debug)]
pub struct FolderRaw {
    pub isa: String,
    pub file_type: FileType,
    pub name: String,
    pub childs: Vec<String>,
}

/// A build file as the descriptor lists it: its id, its kind and its display
/// name.
#[derive(PartialEq, Eq, Hash, Debug)]
pub struct FileRaw {
    pub isa: String,
    pub file_type: FileType,
    pub name: String,
}

/// What a `FileRaw` holds.
pub ghost struct FileRecord {
    pub isa: Seq<char>,
    pub file_type: FileType,
    pub name: Seq<char>,
}

impl View for FileRaw {
    type V = FileRecord;

    open spec fn view(&self) -> FileRecord {
        FileRecord { isa: self.isa@, file_type: self.file_type, name: self.name@ }
    }
}

/// What a `FolderRaw` holds.
pub ghost struct FolderRecord {
    pub isa: Seq<char>,
    pub file_type: FileType,
    pub name: Seq<char>,
    pub childs: Seq<Seq<char>>,
}

impl View for FolderRaw {
    type V = FolderRecord;

    open spec fn view(&self) -> FolderRecord {
        FolderRecord {
            isa: self.isa@,
            file_type: self.file_type,
            name: self.name@,
            childs: texts(self.childs@),
        }
    }
}

/// The kind of a build file, by the suffix of its display name.
pub open spec fn kind_of_name(name: Seq<char>) -> FileType {
    if ends_with(name, IMPLEMENTATION_SUFFIX@) || ends_with(name, HEADER_SUFFIX@) {
        FileType::OBJC
    } else if ends_with(name, SWIFT_SUFFIX@) {
        FileType::SWIFT
    } else {
        FileType::NONE
    }
}

/// A field sliced out of `line` is missing where the slice is empty or is
/// all of `line`.
pub open spec fn field_missing(field: Seq<char>, line: Seq<char>) -> bool {
    field.len() == 0 || field == line
}

/// The build-file record that `line` holds, if it holds one: the id is the
/// text before the comment, the name the text between the opening of the
/// comment and the end of the name. There is no record where the name tells
/// no kind or where the id or the name is missing.
pub open spec fn file_record(line: Seq<char>) -> Option<FileRecord> {
    let isa = text_before(line, ID_COMMENT@);
    let name = text_between(line, ID_COMMENT@, NAME_END@);
    let file_type = kind_of_name(name);
    if file_type is NONE || field_missing(isa, line) || field_missing(name, line) {
        None
    } else {
        Some(FileRecord { isa, file_type, name })
    }
}

/// The kind of a build file, by the suffix of its display name.
pub fn file_type_of(name: &[char]) -> (t: FileType)
    ensures
        t == kind_of_name(name@),
{
    let m = to_chars(IMPLEMENTATION_SUFFIX);
    let h = to_chars(HEADER_SUFFIX);
    let swift = to_chars(SWIFT_SUFFIX);
    if has_suffix(name, m.as_slice()) || has_suffix(name, h.as_slice()) {
        FileType::OBJC
    } else if has_suffix(name, swift.as_slice()) {
        FileType::SWIFT
    } else {
        FileType::NONE
    }
}

/// The build-file record that `line` holds, if it holds one.
pub fn parse_single_file(line: &str) -> (r: Option<FileRaw>)
    ensures
        match r {
            Some(file) => file_record(line@) == Some(file@),
            None => file_record(line@) is None,
        },
{
    let chars = to_chars(line);
    parse_file_chars(chars.as_slice())
}

fn parse_file_chars(chars: &[char]) -> (r: Option<FileRaw>)
    ensures
        match r {
            Some(file) => file_record(chars@) == Some(file@),
            None => file_record(chars@) is None,
        },
{
    let ghost line = chars;
    let id_comment = to_chars(ID_COMMENT);
    let name_end = to_chars(NAME_END);
    let isa = before(chars, id_comment.as_slice());
    let name = between(chars, id_comment.as_slice(), name_end.as_slice());
    let file_type = file_type_of(name);
    if let FileType::NONE = file_type {
        return None;
    }
    let line_len = chars.len();
    proof {
        lemma_text_before_is_prefix(line@, ID_COMMENT@);
        lemma_text_between_is_part(line@, ID_COMMENT@, NAME_END@);
    }
    if isa.len() == line_len || isa.len() == 0 || name.len() == line_len || name.len() == 0 {
        return None;
    }
    Some(FileRaw { isa: string_from_chars(isa), file_type, name: string_from_chars(name) })
}

/// The text of the group that starts at line `start`: the lines from there up
/// to and including the first one that holds the end of a group, each
/// trimmed, joined with nothing between them.
pub open spec fn combined_group(lines: Seq<Seq<char>>, start: int) -> Seq<char>
    decreases lines.len() - start,
{
    if start < 0 || start >= lines.len() {
        Seq::empty()
    } else {
        let line = trimmed(lines[start]);
        if contains_text(line, GROUP_END@) {
            line
        } else {
            line + combined_group(lines, start + 1)
        }
    }
}

/// The ids that the pieces of a child list name: of each piece the text
/// before its comment, the empty ones left out.
pub open spec fn ids_of_pieces(pieces: Seq<Seq<char>>) -> Seq<Seq<char>> {
    pieces.map_values(|piece: Seq<char>| text_before(piece, ID_COMMENT@)).filter(
        |id: Seq<char>| id.len() > 0,
    )
}

/// The child ids that the text of a child list names.
pub open spec fn child_ids(children: Seq<char>) -> Seq<Seq<char>> {
    ids_of_pieces(split_on(children, ','))
}

/// The group record that the text of a group holds, if it holds one: the id
/// is the text before the opening brace, the name the value of the path, the
/// children the ids of the child list. There is no record where the id or
/// the name is missing.
pub open spec fn group_record(group: Seq<char>) -> Option<FolderRecord> {
    let isa = text_before(group, GROUP_ID_END@);
    let name = text_between(group, PATH_KEY@, PATH_END@);
    let childs = child_ids(text_between(group, CHILDREN_KEY@, CHILDREN_END@));
    if field_missing(isa, group) || field_missing(name, group) {
        None
    } else {
        Some(FolderRecord { isa, file_type: FileType::FOLDER, name, childs })
    }
}

/// One more piece adds its id, unless that id is empty.
pub proof fn lemma_ids_of_pieces_push(pieces: Seq<Seq<char>>, piece: Seq<char>)
    ensures
        ids_of_pieces(pieces.push(piece)) == if text_before(piece, ID_COMMENT@).len() > 0 {
            ids_of_pieces(pieces).push(text_before(piece, ID_COMMENT@))
        } else {
            ids_of_pieces(pieces)
        },
{
    let id_of = |piece: Seq<char>| text_before(piece, ID_COMMENT@);
    let kept = |id: Seq<char>| id.len() > 0;
    pieces.lemma_push_map_commute(id_of, piece);
    pieces.map_values(id_of).lemma_filter_push(id_of(piece), kept);
}

/// A line that is made of an id, the opening of a comment, a display name,
/// the end of the name and more text holds the record with that id and that
/// name, of the kind that the name's suffix tells, and no record where the
/// suffix tells none. The id and the name are not empty, and each is
/// followed by the first occurrence of its delimiter.
pub proof fn lemma_build_file_line(id: Seq<char>, name: Seq<char>, rest: Seq<char>)
    requires
        id.len() > 0,
        name.len() > 0,
        is_first_occurrence(
            id + ID_COMMENT@ + name + NAME_END@ + rest,
            ID_COMMENT@,
            id.len() as int,
        ),
        is_first_occurrence(name + NAME_END@ + rest, NAME_END@, name.len() as int),
    ensures
        file_record(id + ID_COMMENT@ + name + NAME_END@ + rest) == if kind_of_name(name)
            is NONE {
            None
        } else {
            Some(FileRecord { isa: id, file_type: kind_of_name(name), name })
        },
{
    let line = id + ID_COMMENT@ + name + NAME_END@ + rest;
    let tail = name + NAME_END@ + rest;
    lemma_first_occurrence_is(line, ID_COMMENT@, id.len() as int);
    assert(line.subrange(0, id.len() as int) =~= id);
    assert(line.subrange((id.len() + ID_COMMENT@.len()) as int, line.len() as int) =~= tail);
    lemma_first_occurrence_is(tail, NAME_END@, name.len() as int);
    assert(tail.subrange(0, name.len() as int) =~= name);
    assert(text_before(line, ID_COMMENT@) == id);
    assert(text_between(line, ID_COMMENT@, NAME_END@) == name);
    assert(id.len() < line.len());
    assert(name.len() < line.len());
}

/// A line of that form holds its record already where neither the id nor
/// the name holds a space.
pub proof fn lemma_plain_build_file_line(id: Seq<char>, name: Seq<char>, rest: Seq<char>)
    requires
        id.len() > 0,
        name.len() > 0,
        !id.contains(' '),
        !name.contains(' '),
    ensures
        file_record(id + ID_COMMENT@ + name + NAME_END@ + rest) == if kind_of_name(name)
            is NONE {
            None
        } else {
            Some(FileRecord { isa: id, file_type: kind_of_name(name), name })
        },
{
    reveal_strlit(" /* ");
    reveal_strlit(" in");
    let tail = name + NAME_END@ + rest;
    lemma_delimiter_after_field(id, ID_COMMENT@, tail);
    assert(id + ID_COMMENT@ + tail =~= id + ID_COMMENT@ + name + NAME_END@ + rest);
    lemma_delimiter_after_field(name, NAME_END@, rest);
    lemma_build_file_line(id, name, rest);
}

/// A line whose name tells no kind holds no record.
pub proof fn lemma_unclassified_line(line: Seq<char>)
    requires
        kind_of_name(text_between(line, ID_COMMENT@, NAME_END@)) is NONE,
    ensures
        file_record(line) is None,
{
}

/// The text of a group is trimmed.
pub proof fn lemma_combined_group_is_trimmed(lines: Seq<Seq<char>>, start: int)
    ensures
        is_trimmed(combined_group(lines, start)),
    decreases lines.len() - start,
{
    if 0 <= start < lines.len() {
        lemma_trimmed_is_trimmed(lines[start]);
        if !contains_text(trimmed(lines[start]), GROUP_END@) {
            lemma_combined_group_is_trimmed(lines, start + 1);
            lemma_trimmed_joined(trimmed(lines[start]), combined_group(lines, start + 1));
        }
    }
}

/// A group that spans several lines has the text, and so the record, of
/// the one line that holds the same content.
pub proof fn lemma_group_on_one_line(lines: Seq<Seq<char>>, start: int)
    ensures
        combined_group(seq![combined_group(lines, start)], 0) == combined_group(lines, start),
        group_record(combined_group(seq![combined_group(lines, start)], 0)) == group_record(
            combined_group(lines, start),
        ),
{
    let one = combined_group(lines, start);
    lemma_combined_group_is_trimmed(lines, start);
    lemma_trimmed_stays(one);
    assert(combined_group(seq![one], 1) =~= Seq::<char>::empty());
    assert(one + Seq::<char>::empty() =~= one);
}

/// No child id is empty, whatever the child list holds: a comma at the end
/// of the list adds no child.
pub proof fn lemma_child_ids_not_empty(children: Seq<char>)
    ensures
        forall|k: int|
            0 <= k < child_ids(children).len() ==> (#[trigger] child_ids(children)[k]).len() > 0,
{
    let ids = split_on(children, ',').map_values(
        |piece: Seq<char>| text_before(piece, ID_COMMENT@),
    );
    let kept = |id: Seq<char>| id.len() > 0;
    assert forall|k: int| 0 <= k < child_ids(children).len() implies (#[trigger] child_ids(
        children,
    )[k]).len() > 0 by {
        ids.lemma_filter_pred(kept, k);
    }
}

fn combine_group_chars(lines: &Vec<String>, start_index: usize) -> (combined: Vec<char>)
    ensures
        combined@ == combined_group(texts(lines@), start_index as int),
{
    let group_end = to_chars(GROUP_END);
    let mut combined: Vec<char> = Vec::new();
    let mut i: usize = start_index;
    let ghost all = combined_group(texts(lines@), start_index as int);
    while i < lines.len()
        invariant
            start_index <= i,
            group_end@ == GROUP_END@,
            all == combined_group(texts(lines@), start_index as int),
            all == combined@ + combined_group(texts(lines@), i as int),
        decreases lines.len() - i,
    {
        let chars = to_chars(lines[i].as_str());
        let line = trim(chars.as_slice());
        assert(line@ == trimmed(texts(lines@)[i as int]));
        let ghost before = combined@;
        let ghost rest = combined_group(texts(lines@), i + 1);
        append_chars(&mut combined, line);
        if contains(line, group_end.as_slice()) {
            return combined;
        }
        assert(before + (line@ + rest) =~= (before + line@) + rest);
        i += 1;
    }
    assert(combined@ + Seq::<char>::empty() =~= combined@);
    combined
}

/// The text of the group that starts at line `start_index`, on one line.
pub fn combine_group_into_single_line(lines: &Vec<String>, start_index: usize) -> (combined:
    String)
    ensures
        combined@ == combined_group(texts(lines@), start_index as int),
{
    let combined = combine_group_chars(lines, start_index);
    string_from_chars(combined.as_slice())
}

/// The child ids that the text of a child list names.
pub fn parse_child_ids(children: &[char]) -> (ids: Vec<String>)
    ensures
        texts(ids@) == child_ids(children@),
        forall|k: int| 0 <= k < ids.len() ==> (#[trigger] ids[k])@.len() > 0,
{
    let id_comment = to_chars(ID_COMMENT);
    let bounds = split_bounds(children, ',');
    let ghost pieces = split_on(children@, ',');
    let mut ids: Vec<String> = Vec::new();
    let mut k: usize = 0;
    assert(pieces.take(0) =~= Seq::<Seq<char>>::empty());
    assert(ids_of_pieces(Seq::<Seq<char>>::empty()) =~= Seq::<Seq<char>>::empty()) by {
        reveal(Seq::filter);
    }
    while k < bounds.len()
        invariant
            k <= bounds.len(),
            id_comment@ == ID_COMMENT@,
            pieces == slices(children@, bounds@),
            forall|j: int|
                0 <= j < bounds.len() ==> (#[trigger] bounds[j]).0 <= bounds[j].1 <= children.len(),
            texts(ids@) == ids_of_pieces(pieces.take(k as int)),
        decreases bounds.len() - k,
    {
        let (a, b) = bounds[k];
        let piece = slice_subrange(children, a, b);
        let id = before(piece, id_comment.as_slice());
        proof {
            assert(pieces.take(k + 1) =~= pieces.take(k as int).push(piece@));
            lemma_ids_of_pieces_push(pieces.take(k as int), piece@);
        }
        if id.len() > 0 {
            let ghost so_far = texts(ids@);
            ids.push(string_from_chars(id));
            assert(texts(ids@) =~= so_far.push(id@));
        }
        k += 1;
    }
    proof {
        assert(pieces.take(bounds.len() as int) =~= pieces);
        lemma_child_ids_not_empty(children@);
        assert forall|k: int| 0 <= k < ids.len() implies (#[trigger] ids[k])@.len() > 0 by {
            assert(texts(ids@)[k] == ids[k]@);
        }
    }
    ids
}

/// The record of the group that starts at line `start_index`, if its text
/// holds one.
pub fn parse_single_group(lines: &Vec<String>, start_index: usize) -> (r: Option<FolderRaw>)
    ensures
        match r {
            Some(folder) => group_record(combined_group(texts(lines@), start_index as int))
                == Some(folder@) && forall|k: int|
                0 <= k < folder.childs.len() ==> (#[trigger] folder.childs[k])@.len() > 0,
            None => group_record(combined_group(texts(lines@), start_index as int)) is None,
        },
{
    let group = combine_group_chars(lines, start_index);
    let group = group.as_slice();
    let group_id_end = to_chars(GROUP_ID_END);
    let path_key = to_chars(PATH_KEY);
    let path_end = to_chars(PATH_END);
    let children_key = to_chars(CHILDREN_KEY);
    let children_end = to_chars(CHILDREN_END);
    let isa = before(group, group_id_end.as_slice());
    let name = between(group, path_key.as_slice(), path_end.as_slice());
    let childs_string = between(group, children_key.as_slice(), children_end.as_slice());
    let childs = parse_child_ids(childs_string);
    let line_len = group.len();
    proof {
        lemma_text_before_is_prefix(group@, GROUP_ID_END@);
        lemma_text_between_is_part(group@, PATH_KEY@, PATH_END@);
    }
    if isa.len() == line_len || isa.len() == 0 || name.len() == line_len || name.len() == 0 {
        return None;
    }
    Some(
        FolderRaw {
            isa: string_from_chars(isa),
            file_type: FileType::FOLDER,
            name: string_from_chars(name),
            childs,
        },
    )
}

/// The scan for a section ends at a line that holds the section's end marker
/// and not its begin marker.
pub open spec fn scan_stops_at(line: Seq<char>, begin: Seq<char>, end: Seq<char>) -> bool {
    !contains_text(line, begin) && contains_text(line, end)
}

/// Line `i` lies inside the section that `begin` and `end` mark: it holds
/// neither marker, a line before it holds `begin`, and the scan has not
/// ended before it.
pub open spec fn in_section(
    lines: Seq<Seq<char>>,
    begin: Seq<char>,
    end: Seq<char>,
    i: int,
) -> bool {
    &&& 0 <= i < lines.len()
    &&& !contains_text(lines[i], begin)
    &&& !contains_text(lines[i], end)
    &&& exists|b: int| 0 <= b < i && contains_text(#[trigger] lines[b], begin)
    &&& forall|e: int| 0 <= e < i ==> !scan_stops_at(#[trigger] lines[e], begin, end)
}

/// The build-file record that line `i` contributes, if any.
pub open spec fn file_record_at(lines: Seq<Seq<char>>, i: int) -> Option<FileRecord> {
    if in_section(lines, BUILD_FILE_SECTION_BEGIN@, BUILD_FILE_SECTION_END@, i) {
        file_record(trimmed(lines[i]))
    } else {
        None
    }
}

/// The build-file records that the first `n` lines contribute, in order.
pub open spec fn file_records_upto(lines: Seq<Seq<char>>, n: int) -> Seq<FileRecord>
    decreases n,
{
    if n <= 0 {
        Seq::empty()
    } else {
        match file_record_at(lines, n - 1) {
            Some(record) => file_records_upto(lines, n - 1).push(record),
            None => file_records_upto(lines, n - 1),
        }
    }
}

/// The build-file records of a descriptor, in the order of their lines.
pub open spec fn file_records(lines: Seq<Seq<char>>) -> Seq<FileRecord> {
    file_records_upto(lines, lines.len() as int)
}

/// The group record that line `i` contributes, if any: the line lies in the
/// section of groups and starts a group, and the text of that group holds a
/// record.
pub open spec fn group_record_at(lines: Seq<Seq<char>>, i: int) -> Option<FolderRecord> {
    if in_section(lines, GROUP_SECTION_BEGIN@, GROUP_SECTION_END@, i) && contains_text(
        lines[i],
        GROUP_START@,
    ) {
        group_record(combined_group(lines, i))
    } else {
        None
    }
}

/// The group records that the first `n` lines contribute, in order.
pub open spec fn group_records_upto(lines: Seq<Seq<char>>, n: int) -> Seq<FolderRecord>
    decreases n,
{
    if n <= 0 {
        Seq::empty()
    } else {
        match group_record_at(lines, n - 1) {
            Some(record) => group_records_upto(lines, n - 1).push(record),
            None => group_records_upto(lines, n - 1),
        }
    }
}

/// The group records of a descriptor, in the order of their first lines.
pub open spec fn group_records(lines: Seq<Seq<char>>) -> Seq<FolderRecord> {
    group_records_upto(lines, lines.len() as int)
}

/// What a list of `FileRaw` holds.
pub open spec fn file_views(files: Seq<FileRaw>) -> Seq<FileRecord> {
    files.map_values(|f: FileRaw| f@)
}

/// What a list of `FolderRaw` holds.
pub open spec fn folder_views(folders: Seq<FolderRaw>) -> Seq<FolderRecord> {
    folders.map_values(|f: FolderRaw| f@)
}

/// No line at or after the one that ends the scan contributes a build file.
pub proof fn lemma_no_files_after_stop(lines: Seq<Seq<char>>, stop: int, n: int)
    requires
        0 <= stop <= n <= lines.len(),
        stop < lines.len(),
        scan_stops_at(lines[stop], BUILD_FILE_SECTION_BEGIN@, BUILD_FILE_SECTION_END@),
    ensures
        file_records_upto(lines, n) == file_records_upto(lines, stop),
    decreases n - stop,
{
    if n > stop {
        lemma_no_files_after_stop(lines, stop, n - 1);
    }
}

/// No line at or after the one that ends the scan contributes a group.
pub proof fn lemma_no_groups_after_stop(lines: Seq<Seq<char>>, stop: int, n: int)
    requires
        0 <= stop <= n <= lines.len(),
        stop < lines.len(),
        scan_stops_at(lines[stop], GROUP_SECTION_BEGIN@, GROUP_SECTION_END@),
    ensures
        group_records_upto(lines, n) == group_records_upto(lines, stop),
    decreases n - stop,
{
    if n > stop {
        lemma_no_groups_after_stop(lines, stop, n - 1);
    }
}

/// The build-file records of the lines of a descriptor.
pub fn parse_files_raw_list(lines: &Vec<String>) -> (result: Vec<FileRaw>)
    ensures
        file_views(result@) == file_records(texts(lines@)),
{
    let begin = to_chars(BUILD_FILE_SECTION_BEGIN);
    let end = to_chars(BUILD_FILE_SECTION_END);
    let mut result: Vec<FileRaw> = Vec::new();
    let mut did_reach_section = false;
    let mut i: usize = 0;
    let ghost all = texts(lines@);
    assert(file_views(result@) =~= Seq::<FileRecord>::empty());
    while i < lines.len()
        invariant
            i <= lines.len(),
            all == texts(lines@),
            begin@ == BUILD_FILE_SECTION_BEGIN@,
            end@ == BUILD_FILE_SECTION_END@,
            did_reach_section == exists|b: int|
                0 <= b < i && contains_text(#[trigger] all[b], BUILD_FILE_SECTION_BEGIN@),
            forall|e: int|
                0 <= e < i ==> !scan_stops_at(
                    #[trigger] all[e],
                    BUILD_FILE_SECTION_BEGIN@,
                    BUILD_FILE_SECTION_END@,
                ),
            file_views(result@) == file_records_upto(all, i as int),
        decreases lines.len() - i,
    {
        let chars = to_chars(lines[i].as_str());
        let line = chars.as_slice();
        assert(line@ == all[i as int]);
        if contains(line, begin.as_slice()) {
            did_reach_section = true;
        } else if contains(line, end.as_slice()) {
            proof {
                lemma_no_files_after_stop(all, i as int, all.len() as int);
            }
            return result;
        } else if did_reach_section {
            if let Some(file) = parse_file_chars(trim(line)) {
                let ghost so_far = file_views(result@);
                let ghost record = file@;
                result.push(file);
                assert(file_views(result@) =~= so_far.push(record));
            }
        }
        i += 1;
    }
    result
}

/// The group records of the lines of a descriptor.
pub fn parse_folders_raw_list(lines: &Vec<String>) -> (result: Vec<FolderRaw>)
    ensures
        folder_views(result@) == group_records(texts(lines@)),
{
    let begin = to_chars(GROUP_SECTION_BEGIN);
    let end = to_chars(GROUP_SECTION_END);
    let group_start = to_chars(GROUP_START);
    let mut result: Vec<FolderRaw> = Vec::new();
    let mut did_reach_section = false;
    let mut i: usize = 0;
    let ghost all = texts(lines@);
    assert(folder_views(result@) =~= Seq::<FolderRecord>::empty());
    while i < lines.len()
        invariant
            i <= lines.len(),
            all == texts(lines@),
            begin@ == GROUP_SECTION_BEGIN@,
            end@ == GROUP_SECTION_END@,
            group_start@ == GROUP_START@,
            did_reach_section == exists|b: int|
                0 <= b < i && contains_text(#[trigger] all[b], GROUP_SECTION_BEGIN@),
            forall|e: int|
                0 <= e < i ==> !scan_stops_at(
                    #[trigger] all[e],
                    GROUP_SECTION_BEGIN@,
                    GROUP_SECTION_END@,
                ),
            folder_views(result@) == group_records_upto(all, i as int),
        decreases lines.len() - i,
    {
        let chars = to_chars(lines[i].as_str());
        let line = chars.as_slice();
        assert(line@ == all[i as int]);
        if contains(line, begin.as_slice()) {
            did_reach_section = true;
        } else if contains(line, end.as_slice()) {
            proof {
                lemma_no_groups_after_stop(all, i as int, all.len() as int);
            }
            return result;
        } else if did_reach_section && contains(line, group_start.as_slice()) {
            if let Some(folder) = parse_single_group(lines, i) {
                let ghost so_far = folder_views(result@);
                let ghost record = folder@;
                result.push(folder);
                assert(folder_views(result@) =~= so_far.push(record));
            }
        }
        i += 1;
    }
    result
}

/// The group records of the descriptor whose text is `project_text`.
pub fn parse_all_raw_folders(project_text: &str) -> (folders: Vec<FolderRaw>)
    ensures
        folder_views(folders@) == group_records(lines_of(project_text@)),
{
    let project_structure_list = lines(project_text);
    parse_folders_raw_list(&project_structure_list)
}

/// The build-file records of the descriptor whose text is `project_text`.
pub fn parse_all_raw_files(project_text: &str) -> (files: Vec<FileRaw>)
    ensures
        file_views(files@) == file_records(lines_of(project_text@)),
{
    let project_structure_list = lines(project_text);
    parse_files_raw_list(&project_structure_list)
}

} // verus!
