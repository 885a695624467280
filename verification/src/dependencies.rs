//! The files that a source file depends on through its import lines.
use crate::parsers::pbx_parser::{HEADER_SUFFIX, IMPLEMENTATION_SUFFIX};
use crate::utils::string_utils::{between, text_between};
use crate::utils::text::{
    append_chars, contains, contains_text, ends_with, has_suffix, lines, lines_of,
    string_from_chars, texts, to_chars,
};
use vstd::prelude::*;
use vstd::slice::slice_subrange;

verus! {

/// Marks an import line.
pub const IMPORT_DIRECTIVE: &'static str = "#import";

/// Encloses the file name of an import line.
pub const QUOTE: &'static str = "\"";

/// The kind of a source file: an implementation file, a header, or neither.
#[derive(PartialEq, Eq, Debug)]
pub enum FileExtension {
    M,
    Header,
    Unknown,
}

/// The kind of a file, by the suffix of its name.
pub open spec fn extension_of(name: Seq<char>) -> FileExtension {
    if ends_with(name, IMPLEMENTATION_SUFFIX@) {
        FileExtension::M
    } else if ends_with(name, HEADER_SUFFIX@) {
        FileExtension::Header
    } else {
        FileExtension::Unknown
    }
}

/// The name of the file that is paired with `name`: the header of an
/// implementation file, the implementation file of a header. A name of
/// neither kind has no companion and stands for itself.
pub open spec fn companion_of(name: Seq<char>) -> Seq<char> {
    match extension_of(name) {
        FileExtension::M => name.subrange(0, name.len() - IMPLEMENTATION_SUFFIX@.len())
            + HEADER_SUFFIX@,
        FileExtension::Header => name.subrange(0, name.len() - HEADER_SUFFIX@.len())
            + IMPLEMENTATION_SUFFIX@,
        FileExtension::Unknown => name,
    }
}

impl FileExtension {
    /// The kind of the file called `name`.
    pub fn new(name: &str) -> (extension: FileExtension)
        ensures
            extension == extension_of(name@),
    {
        let chars = to_chars(name);
        let source_suffix = to_chars(IMPLEMENTATION_SUFFIX);
        let header_suffix = to_chars(HEADER_SUFFIX);
        if has_suffix(chars.as_slice(), source_suffix.as_slice()) {
            FileExtension::M
        } else if has_suffix(chars.as_slice(), header_suffix.as_slice()) {
            FileExtension::Header
        } else {
            FileExtension::Unknown
        }
    }
}

/// The name of the file that is paired with `name`.
pub fn companion(name: &str) -> (other: String)
    ensures
        other@ == companion_of(name@),
{
    let chars = to_chars(name);
    let source_suffix = to_chars(IMPLEMENTATION_SUFFIX);
    let header_suffix = to_chars(HEADER_SUFFIX);
    let mut other: Vec<char> = Vec::new();
    if has_suffix(chars.as_slice(), source_suffix.as_slice()) {
        let stem = slice_subrange(chars.as_slice(), 0, chars.len() - source_suffix.len());
        append_chars(&mut other, stem);
        append_chars(&mut other, header_suffix.as_slice());
    } else if has_suffix(chars.as_slice(), header_suffix.as_slice()) {
        let stem = slice_subrange(chars.as_slice(), 0, chars.len() - header_suffix.len());
        append_chars(&mut other, stem);
        append_chars(&mut other, source_suffix.as_slice());
    } else {
        append_chars(&mut other, chars.as_slice());
    }
    string_from_chars(other.as_slice())
}

/// A source file that has been read: its name and its text.
#[derive(PartialEq, Eq, Debug)]
pub struct SourceFile {
    pub name: String,
    pub content: String,
}

/// What a `SourceFile` holds.
pub ghost struct SourceText {
    pub name: Seq<char>,
    pub content: Seq<char>,
}

impl View for SourceFile {
    type V = SourceText;

    open spec fn view(&self) -> SourceText {
        SourceText { name: self.name@, content: self.content@ }
    }
}

/// What a list of `SourceFile` holds.
pub open spec fn source_views(files: Seq<SourceFile>) -> Seq<SourceText> {
    files.map_values(|f: SourceFile| f@)
}

/// The text that `files` holds under `name`. Where several files have this
/// name, the last of them counts.
pub open spec fn content_of(files: Seq<SourceText>, name: Seq<char>) -> Option<Seq<char>>
    decreases files.len(),
{
    if files.len() == 0 {
        None
    } else if files.last().name == name {
        Some(files.last().content)
    } else {
        content_of(files.drop_last(), name)
    }
}

/// The text that `all_files` holds under `file_name`.
pub fn find_content<'a>(file_name: &String, all_files: &'a Vec<SourceFile>) -> (content: Option<
    &'a String,
>)
    ensures
        match content {
            Some(text) => content_of(source_views(all_files@), file_name@) == Some(text@),
            None => content_of(source_views(all_files@), file_name@) is None,
        },
{
    let ghost files = source_views(all_files@);
    let mut i: usize = all_files.len();
    assert(files.take(i as int) =~= files);
    while i > 0
        invariant
            i <= all_files.len(),
            files == source_views(all_files@),
            content_of(files, file_name@) == content_of(files.take(i as int), file_name@),
        decreases i,
    {
        assert(files.take(i as int).drop_last() =~= files.take(i - 1));
        i -= 1;
        if all_files[i].name == *file_name {
            return Some(&all_files[i].content);
        }
    }
    None
}

/// Whether `line` is an import line.
pub open spec fn is_import_line(line: Seq<char>) -> bool {
    contains_text(line, IMPORT_DIRECTIVE@)
}

/// The import block ends at line `i`: the line is not empty and is no import
/// line, and an import line stands before it.
pub open spec fn block_ends_at(lines: Seq<Seq<char>>, i: int) -> bool {
    &&& 0 <= i < lines.len()
    &&& lines[i].len() > 0
    &&& !is_import_line(lines[i])
    &&& exists|b: int| 0 <= b < i && is_import_line(#[trigger] lines[b])
}

/// The file name that line `i` imports: the text between its first two
/// quotes, where the line is an import line, the import block has not ended
/// before it, and that text is not empty.
pub open spec fn import_at(lines: Seq<Seq<char>>, i: int) -> Option<Seq<char>> {
    if 0 <= i < lines.len() && is_import_line(lines[i]) && forall|e: int|
        0 <= e < i ==> !block_ends_at(lines, e) {
        let name = text_between(lines[i], QUOTE@, QUOTE@);
        if name.len() > 0 {
            Some(name)
        } else {
            None
        }
    } else {
        None
    }
}

/// The file names that the first `n` lines import, each once, in the order
/// in which they first occur.
pub open spec fn imports_upto(lines: Seq<Seq<char>>, n: int) -> Seq<Seq<char>>
    decreases n,
{
    if n <= 0 {
        Seq::empty()
    } else {
        let before = imports_upto(lines, n - 1);
        match import_at(lines, n - 1) {
            Some(name) => if before.contains(name) {
                before
            } else {
                before.push(name)
            },
            None => before,
        }
    }
}

/// The file names that the import block of `lines` imports.
pub open spec fn imports_in(lines: Seq<Seq<char>>) -> Seq<Seq<char>> {
    imports_upto(lines, lines.len() as int)
}

/// The file names that the file called `name` imports; none where `files`
/// holds no such file.
pub open spec fn imports_of(files: Seq<SourceText>, name: Seq<char>) -> Seq<Seq<char>> {
    match content_of(files, name) {
        Some(text) => imports_in(lines_of(text)),
        None => Seq::empty(),
    }
}

/// No line at or after the one that ends the import block imports anything.
pub proof fn lemma_no_imports_after_end(lines: Seq<Seq<char>>, end: int, n: int)
    requires
        block_ends_at(lines, end),
        end <= n <= lines.len(),
    ensures
        imports_upto(lines, n) == imports_upto(lines, end),
    decreases n - end,
{
    if n > end {
        lemma_no_imports_after_end(lines, end, n - 1);
        if n - 1 > end {
            assert(block_ends_at(lines, end));
        }
    }
}

/// Whether `name` is among `names`.
pub fn contains_name(names: &Vec<String>, name: &String) -> (found: bool)
    ensures
        found == texts(names@).contains(name@),
{
    let mut i: usize = 0;
    while i < names.len()
        invariant
            i <= names.len(),
            forall|k: int| 0 <= k < i ==> texts(names@)[k] != name@,
        decreases names.len() - i,
    {
        if names[i] == *name {
            assert(texts(names@)[i as int] == name@);
            return true;
        }
        i += 1;
    }
    false
}

/// The file names that the import block of `lines` imports.
pub fn imports_from_lines(lines: &Vec<String>) -> (result: Vec<String>)
    ensures
        texts(result@) == imports_in(texts(lines@)),
{
    let directive = to_chars(IMPORT_DIRECTIVE);
    let quote = to_chars(QUOTE);
    let mut did_reach_import_section = false;
    let mut result: Vec<String> = Vec::new();
    let ghost all = texts(lines@);
    let mut i: usize = 0;
    assert(texts(result@) =~= Seq::<Seq<char>>::empty());
    while i < lines.len()
        invariant
            i <= lines.len(),
            all == texts(lines@),
            directive@ == IMPORT_DIRECTIVE@,
            quote@ == QUOTE@,
            did_reach_import_section == exists|b: int|
                0 <= b < i && is_import_line(#[trigger] all[b]),
            forall|e: int| 0 <= e < i ==> !block_ends_at(all, e),
            texts(result@) == imports_upto(all, i as int),
        decreases lines.len() - i,
    {
        let chars = to_chars(lines[i].as_str());
        let line = chars.as_slice();
        assert(line@ == all[i as int]);
        if contains(line, directive.as_slice()) {
            did_reach_import_section = true;
            let dependency_file = between(line, quote.as_slice(), quote.as_slice());
            if dependency_file.len() > 0 {
                let name = string_from_chars(dependency_file);
                if !contains_name(&result, &name) {
                    let ghost so_far = texts(result@);
                    result.push(name);
                    assert(texts(result@) =~= so_far.push(dependency_file@));
                }
            }
        } else if line.len() > 0 && did_reach_import_section {
            proof {
                lemma_no_imports_after_end(all, i as int, all.len() as int);
            }
            return result;
        }
        i += 1;
    }
    result
}

/// The file names that the import block of `content` imports.
pub fn imports_from_text(content: &str) -> (result: Vec<String>)
    ensures
        texts(result@) == imports_in(lines_of(content@)),
{
    let content_lines = lines(content);
    imports_from_lines(&content_lines)
}

/// The file names that the file called `file_name` imports; none where
/// `all_files` holds no such file.
pub fn imports_from_file(file_name: &str, all_files: &Vec<SourceFile>) -> (result: Vec<String>)
    ensures
        texts(result@) == imports_of(source_views(all_files@), file_name@),
{
    let name = file_name.to_owned();
    match find_content(&name, all_files) {
        Some(content) => imports_from_text(content.as_str()),
        None => {
            let result: Vec<String> = Vec::new();
            assert(texts(result@) =~= Seq::<Seq<char>>::empty());
            result
        },
    }
}

/// The names in a list, as a set.
pub open spec fn name_set(names: Seq<String>) -> Set<Seq<char>> {
    texts(names).to_set()
}

/// The files that are marked when `name` is asked for: `name` and its
/// companion. A name that is neither a header nor an implementation file
/// marks nothing.
pub open spec fn pair_of(name: Seq<char>) -> Set<Seq<char>> {
    if extension_of(name) is Unknown {
        Set::empty()
    } else {
        set![name, companion_of(name)]
    }
}

/// `from` imports `to` or the companion of `to`.
pub open spec fn leads_to(files: Seq<SourceText>, from: Seq<char>, to: Seq<char>) -> bool {
    exists|import: Seq<char>| #[trigger]
        imports_of(files, from).contains(import) && pair_of(import).contains(to)
}

/// The file at position `k` of `chain` leads to the next one.
pub open spec fn leads_on(files: Seq<SourceText>, chain: Seq<Seq<char>>, k: int) -> bool {
    leads_to(files, chain[k], chain[k + 1])
}

/// `chain` runs from the pair of `start` along imports, through files
/// outside `visited` only.
pub open spec fn is_import_chain(
    files: Seq<SourceText>,
    start: Seq<char>,
    visited: Set<Seq<char>>,
    chain: Seq<Seq<char>>,
) -> bool {
    &&& chain.len() > 0
    &&& pair_of(start).contains(chain[0])
    &&& forall|k: int| 0 <= k < chain.len() ==> !visited.contains(#[trigger] chain[k])
    &&& forall|k: int| 0 <= k < chain.len() - 1 ==> #[trigger] leads_on(files, chain, k)
}

/// The files that a walk from `start` marks when the files of `visited` are
/// marked already: those at the end of an import chain outside `visited`.
pub open spec fn reached_from(
    files: Seq<SourceText>,
    start: Seq<char>,
    visited: Set<Seq<char>>,
) -> Set<Seq<char>> {
    Set::new(
        |name: Seq<char>|
            exists|chain: Seq<Seq<char>>| #[trigger]
                is_import_chain(files, start, visited, chain) && chain.last() == name,
    )
}

/// The first file of a pair is reached unless it is visited already.
proof fn lemma_reached_first(
    files: Seq<SourceText>,
    start: Seq<char>,
    visited: Set<Seq<char>>,
    name: Seq<char>,
)
    requires
        pair_of(start).contains(name),
        !visited.contains(name),
    ensures
        reached_from(files, start, visited).contains(name),
{
    let chain = seq![name];
    assert(is_import_chain(files, start, visited, chain));
    assert(chain.last() == name);
}

/// What a reached file leads to is reached unless it is visited already.
proof fn lemma_reached_next(
    files: Seq<SourceText>,
    start: Seq<char>,
    visited: Set<Seq<char>>,
    from: Seq<char>,
    to: Seq<char>,
)
    requires
        reached_from(files, start, visited).contains(from),
        leads_to(files, from, to),
        !visited.contains(to),
    ensures
        reached_from(files, start, visited).contains(to),
{
    let chain = choose|chain: Seq<Seq<char>>| #[trigger]
        is_import_chain(files, start, visited, chain) && chain.last() == from;
    let longer = chain.push(to);
    assert forall|k: int| 0 <= k < longer.len() implies !visited.contains(
        #[trigger] longer[k],
    ) by {
        if k < chain.len() {
            assert(longer[k] == chain[k]);
        }
    }
    assert forall|k: int| 0 <= k < longer.len() - 1 implies #[trigger] leads_on(
        files,
        longer,
        k,
    ) by {
        assert(longer[k] == chain[k]);
        if k < chain.len() - 1 {
            assert(longer[k + 1] == chain[k + 1]);
            assert(leads_on(files, chain, k));
        }
    }
    assert(longer[0] == chain[0]);
    assert(is_import_chain(files, start, visited, longer));
    assert(longer.last() == to);
}

/// Every file of a chain lies in a set that holds the pair of `start` and,
/// with each file outside `visited`, what that file leads to.
proof fn lemma_chain_stays_inside(
    files: Seq<SourceText>,
    start: Seq<char>,
    visited: Set<Seq<char>>,
    marked: Set<Seq<char>>,
    chain: Seq<Seq<char>>,
    k: int,
)
    requires
        pair_of(start).subset_of(marked),
        forall|a: Seq<char>, b: Seq<char>|
            marked.contains(a) && !visited.contains(a) && #[trigger] leads_to(files, a, b)
                ==> marked.contains(b),
        is_import_chain(files, start, visited, chain),
        0 <= k < chain.len(),
    ensures
        marked.contains(chain[k]),
    decreases k,
{
    if k > 0 {
        lemma_chain_stays_inside(files, start, visited, marked, chain, k - 1);
        assert(!visited.contains(chain[k - 1]));
        assert(leads_on(files, chain, k - 1));
    }
}

/// The pairs of all the names in a list.
spec fn pairs_of_all(names: Seq<Seq<char>>) -> Set<Seq<char>>
    decreases names.len(),
{
    if names.len() == 0 {
        Set::empty()
    } else {
        pairs_of_all(names.drop_last()).union(pair_of(names.last()))
    }
}

/// The pairs of all the names that some file of `files` imports.
spec fn mentioned(files: Seq<SourceText>) -> Set<Seq<char>>
    decreases files.len(),
{
    if files.len() == 0 {
        Set::empty()
    } else {
        mentioned(files.drop_last()).union(
            pairs_of_all(imports_in(lines_of(files.last().content))),
        )
    }
}

/// Every file that a walk from `start` can mark.
spec fn candidates(files: Seq<SourceText>, start: Seq<char>) -> Set<Seq<char>> {
    pair_of(start).union(mentioned(files))
}

proof fn lemma_pairs_of_all(names: Seq<Seq<char>>)
    ensures
        pairs_of_all(names).finite(),
        forall|name: Seq<char>, x: Seq<char>|
            names.contains(name) && #[trigger] pair_of(name).contains(x) ==> pairs_of_all(
                names,
            ).contains(x),
    decreases names.len(),
{
    if names.len() > 0 {
        lemma_pairs_of_all(names.drop_last());
        assert forall|name: Seq<char>, x: Seq<char>|
            names.contains(name) && #[trigger] pair_of(name).contains(x) implies pairs_of_all(
            names,
        ).contains(x) by {
            let k = choose|k: int| 0 <= k < names.len() && names[k] == name;
            if k < names.len() - 1 {
                assert(names.drop_last()[k] == name);
            }
        }
    }
}

proof fn lemma_mentioned(files: Seq<SourceText>)
    ensures
        mentioned(files).finite(),
        forall|name: Seq<char>, import: Seq<char>, x: Seq<char>|
            #[trigger] imports_of(files, name).contains(import) && #[trigger] pair_of(
                import,
            ).contains(x) ==> mentioned(files).contains(x),
    decreases files.len(),
{
    if files.len() > 0 {
        lemma_mentioned(files.drop_last());
        lemma_pairs_of_all(imports_in(lines_of(files.last().content)));
        assert forall|name: Seq<char>, import: Seq<char>, x: Seq<char>|
            #[trigger] imports_of(files, name).contains(import) && #[trigger] pair_of(
                import,
            ).contains(x) implies mentioned(files).contains(x) by {
            if files.last().name != name {
                assert(imports_of(files.drop_last(), name) == imports_of(files, name));
            }
        }
    }
}

/// A pending name is the start of the walk or an import of a file that the
/// walk has marked.
spec fn is_source(
    files: Seq<SourceText>,
    start: Seq<char>,
    before: Set<Seq<char>>,
    marked: Set<Seq<char>>,
    name: Seq<char>,
) -> bool {
    name == start || exists|a: Seq<char>|
        marked.contains(a) && !before.contains(a) && #[trigger] imports_of(files, a).contains(
            name,
        )
}

/// The pair of `name` is marked, or `name` is still pending.
spec fn settled(marked: Set<Seq<char>>, pending: Set<Seq<char>>, name: Seq<char>) -> bool {
    pair_of(name).subset_of(marked) || pending.contains(name)
}

/// What holds between two steps of a walk from `start` that began with the
/// files of `before` marked.
spec fn walk_invariant(
    files: Seq<SourceText>,
    start: Seq<char>,
    before: Set<Seq<char>>,
    marked: Set<Seq<char>>,
    pending: Set<Seq<char>>,
) -> bool {
    &&& before.subset_of(marked)
    &&& forall|x: Seq<char>| #[trigger]
        marked.contains(x) && !before.contains(x) ==> reached_from(files, start, before).contains(
            x,
        )
    &&& forall|p: Seq<char>| #[trigger]
        pending.contains(p) ==> is_source(files, start, before, marked, p)
    &&& forall|a: Seq<char>, i: Seq<char>|
        marked.contains(a) && !before.contains(a) && #[trigger] imports_of(files, a).contains(i)
            ==> settled(marked, pending, i)
    &&& settled(marked, pending, start)
}

proof fn lemma_walk_begins(files: Seq<SourceText>, start: Seq<char>, before: Set<Seq<char>>)
    ensures
        walk_invariant(files, start, before, before, set![start]),
        candidates(files, start).finite(),
{
    lemma_mentioned(files);
}

/// Marking a file of the pair of a pending name, with its imports added to
/// the pending names, keeps the invariant and uses up a candidate.
proof fn lemma_walk_marks(
    files: Seq<SourceText>,
    start: Seq<char>,
    before: Set<Seq<char>>,
    marked: Set<Seq<char>>,
    pending: Set<Seq<char>>,
    p: Seq<char>,
    x: Seq<char>,
)
    requires
        walk_invariant(files, start, before, marked, pending),
        pending.contains(p),
        pair_of(p).contains(x),
        !marked.contains(x),
    ensures
        walk_invariant(
            files,
            start,
            before,
            marked.insert(x),
            pending.union(imports_of(files, x).to_set()),
        ),
        candidates(files, start).contains(x),
{
    let marked2 = marked.insert(x);
    let pending2 = pending.union(imports_of(files, x).to_set());
    lemma_mentioned(files);
    assert(is_source(files, start, before, marked, p));
    if p == start {
        lemma_reached_first(files, start, before, x);
    } else {
        let a = choose|a: Seq<char>|
            marked.contains(a) && !before.contains(a) && #[trigger] imports_of(files, a).contains(
                p,
            );
        assert(leads_to(files, a, x));
        lemma_reached_next(files, start, before, a, x);
    }
    assert forall|q: Seq<char>| #[trigger] pending2.contains(q) implies is_source(
        files,
        start,
        before,
        marked2,
        q,
    ) by {
        if pending.contains(q) {
            assert(is_source(files, start, before, marked, q));
            if q != start {
                let a = choose|a: Seq<char>|
                    marked.contains(a) && !before.contains(a) && #[trigger] imports_of(
                        files,
                        a,
                    ).contains(q);
                assert(marked2.contains(a));
            }
        } else {
            assert(imports_of(files, x).contains(q));
            assert(marked2.contains(x));
        }
    }
    assert forall|a: Seq<char>, i: Seq<char>|
        marked2.contains(a) && !before.contains(a) && #[trigger] imports_of(files, a).contains(
            i,
        ) implies settled(marked2, pending2, i) by {
        if a == x {
            assert(imports_of(files, x).to_set().contains(i));
        } else {
            assert(settled(marked, pending, i));
        }
    }
    assert(settled(marked, pending, start));
}

/// Once the pair of a pending name is marked, the name need not be pending.
proof fn lemma_walk_settles(
    files: Seq<SourceText>,
    start: Seq<char>,
    before: Set<Seq<char>>,
    marked: Set<Seq<char>>,
    pending: Set<Seq<char>>,
    p: Seq<char>,
)
    requires
        walk_invariant(files, start, before, marked, pending.insert(p)),
        pair_of(p).subset_of(marked),
    ensures
        walk_invariant(files, start, before, marked, pending),
{
    let wider = pending.insert(p);
    assert forall|q: Seq<char>| #[trigger] pending.contains(q) implies is_source(
        files,
        start,
        before,
        marked,
        q,
    ) by {
        assert(wider.contains(q));
    }
    assert forall|a: Seq<char>, i: Seq<char>|
        marked.contains(a) && !before.contains(a) && #[trigger] imports_of(files, a).contains(
            i,
        ) implies settled(marked, pending, i) by {
        assert(settled(marked, wider, i));
    }
    assert(settled(marked, wider, start));
}

/// With nothing pending, the marked files are those marked before and those
/// reached.
proof fn lemma_walk_ends(
    files: Seq<SourceText>,
    start: Seq<char>,
    before: Set<Seq<char>>,
    marked: Set<Seq<char>>,
)
    requires
        walk_invariant(files, start, before, marked, Set::empty()),
    ensures
        marked == before.union(reached_from(files, start, before)),
{
    let nothing = Set::<Seq<char>>::empty();
    assert(settled(marked, nothing, start));
    assert forall|a: Seq<char>, b: Seq<char>|
        marked.contains(a) && !before.contains(a) && #[trigger] leads_to(
            files,
            a,
            b,
        ) implies marked.contains(b) by {
        let i = choose|i: Seq<char>| #[trigger]
            imports_of(files, a).contains(i) && pair_of(i).contains(b);
        assert(settled(marked, nothing, i));
    }
    assert forall|name: Seq<char>|
        reached_from(files, start, before).contains(name) implies marked.contains(name) by {
        let chain = choose|chain: Seq<Seq<char>>| #[trigger]
            is_import_chain(files, start, before, chain) && chain.last() == name;
        lemma_chain_stays_inside(files, start, before, marked, chain, chain.len() - 1);
    }
    assert(marked =~= before.union(reached_from(files, start, before)));
}

/// A walk marks the file it starts from and the companion of that file,
/// whatever is marked already.
pub proof fn lemma_walk_marks_pair(
    files: Seq<SourceText>,
    start: Seq<char>,
    visited: Set<Seq<char>>,
)
    ensures
        pair_of(start).subset_of(visited.union(reached_from(files, start, visited))),
{
    assert forall|name: Seq<char>| pair_of(start).contains(name) implies visited.union(
        reached_from(files, start, visited),
    ).contains(name) by {
        if !visited.contains(name) {
            lemma_reached_first(files, start, visited, name);
        }
    }
}

/// A walk that is repeated marks nothing new: from the files that a walk
/// has marked, the same walk reaches no further file.
pub proof fn lemma_walk_repeated(
    files: Seq<SourceText>,
    start: Seq<char>,
    visited: Set<Seq<char>>,
)
    ensures
        reached_from(
            files,
            start,
            visited.union(reached_from(files, start, visited)),
        ) == Set::<Seq<char>>::empty(),
        visited.union(reached_from(files, start, visited)).union(
            reached_from(files, start, visited.union(reached_from(files, start, visited))),
        ) == visited.union(reached_from(files, start, visited)),
{
    let marked = visited.union(reached_from(files, start, visited));
    assert forall|name: Seq<char>| !reached_from(files, start, marked).contains(name) by {
        if reached_from(files, start, marked).contains(name) {
            let chain = choose|chain: Seq<Seq<char>>| #[trigger]
                is_import_chain(files, start, marked, chain) && chain.last() == name;
            assert(!marked.contains(chain[0]));
            lemma_reached_first(files, start, visited, chain[0]);
        }
    }
    assert(reached_from(files, start, marked) =~= Set::<Seq<char>>::empty());
    assert(marked.union(reached_from(files, start, marked)) =~= marked);
}

/// From position `count` on, no name of the list occurs earlier in it.
pub open spec fn new_from(names: Seq<String>, count: int) -> bool {
    forall|k: int|
        count <= k < names.len() ==> !name_set(names.take(k)).contains((#[trigger] names[k])@)
}

proof fn lemma_name_set_push(names: Seq<String>, name: String)
    ensures
        name_set(names.push(name)) == name_set(names).insert(name@),
{
    assert(texts(names.push(name)) =~= texts(names).push(name@));
    texts(names).lemma_push_to_set_commute(name@);
}

proof fn lemma_name_set_add(names: Seq<String>, more: Seq<String>)
    ensures
        name_set(names + more) == name_set(names).union(texts(more).to_set()),
{
    assert(texts(names + more) =~= texts(names) + texts(more));
    vstd::seq_lib::seq_to_set_distributes_over_add(texts(names), texts(more));
}

/// Marks `name` unless it is marked already: reads its imports, adds it to
/// `dependencies`, and adds the imports to `pending`.
fn mark(
    name: String,
    all_files: &Vec<SourceFile>,
    dependencies: &mut Vec<String>,
    pending: &mut Vec<String>,
) -> (added: bool)
    ensures
        added == !name_set(old(dependencies)@).contains(name@),
        added ==> final(dependencies)@ == old(dependencies)@.push(name) && name_set(
            final(pending)@,
        ) == name_set(old(pending)@).union(
            imports_of(source_views(all_files@), name@).to_set(),
        ),
        !added ==> final(dependencies)@ == old(dependencies)@ && final(pending)@ == old(
            pending,
        )@,
{
    if contains_name(dependencies, &name) {
        return false;
    }
    let mut imports = imports_from_file(name.as_str(), all_files);
    proof {
        lemma_name_set_add(pending@, imports@);
    }
    dependencies.push(name);
    pending.append(&mut imports);
    true
}

/// Marks the two files of the pair of the pending name `p`.
fn mark_pair(
    h_file: String,
    m_file: String,
    all_files: &Vec<SourceFile>,
    dependencies: &mut Vec<String>,
    pending: &mut Vec<String>,
    Ghost(start): Ghost<Seq<char>>,
    Ghost(before): Ghost<Set<Seq<char>>>,
    Ghost(count): Ghost<int>,
    Ghost(p): Ghost<Seq<char>>,
)
    requires
        pair_of(p) == set![h_file@, m_file@],
        0 <= count <= old(dependencies)@.len(),
        new_from(old(dependencies)@, count),
        walk_invariant(
            source_views(all_files@),
            start,
            before,
            name_set(old(dependencies)@),
            name_set(old(pending)@).insert(p),
        ),
    ensures
        old(dependencies)@.len() <= final(dependencies)@.len(),
        final(dependencies)@.take(old(dependencies)@.len() as int) == old(dependencies)@,
        new_from(final(dependencies)@, count),
        walk_invariant(
            source_views(all_files@),
            start,
            before,
            name_set(final(dependencies)@),
            name_set(final(pending)@),
        ),
        final(dependencies)@ == old(dependencies)@ && final(pending)@ == old(pending)@
            || candidates(source_views(all_files@), start).difference(
            name_set(final(dependencies)@),
        ).len() < candidates(source_views(all_files@), start).difference(
            name_set(old(dependencies)@),
        ).len(),
{
    let ghost files = source_views(all_files@);
    let ghost all = candidates(files, start);
    let ghost names0 = dependencies@;
    let ghost marked0 = name_set(dependencies@);
    let ghost pending0 = name_set(pending@).insert(p);
    proof {
        lemma_walk_begins(files, start, before);
    }
    let ghost h = h_file@;
    let ghost m = m_file@;
    let added_h = mark(h_file, all_files, dependencies, pending);
    let ghost names1 = dependencies@;
    let ghost marked1 = name_set(dependencies@);
    let ghost pending1 = name_set(pending@).insert(p);
    proof {
        if added_h {
            lemma_name_set_push(names0, names1.last());
            lemma_walk_marks(files, start, before, marked0, pending0, p, h);
            assert(pending1 =~= pending0.union(imports_of(files, h).to_set()));
            all.lemma_set_insert_diff_decreases(marked0, h);
            assert(names1.take(names0.len() as int) =~= names0);
            assert forall|k: int| count <= k < names1.len() implies !name_set(
                names1.take(k),
            ).contains((#[trigger] names1[k])@) by {
                if k < names0.len() {
                    assert(names1.take(k) =~= names0.take(k));
                } else {
                    assert(names1.take(k) =~= names0);
                }
            }
        }
    }
    let added_m = mark(m_file, all_files, dependencies, pending);
    let ghost names2 = dependencies@;
    let ghost marked2 = name_set(dependencies@);
    let ghost pending2 = name_set(pending@).insert(p);
    proof {
        if added_m {
            lemma_name_set_push(names1, names2.last());
            lemma_walk_marks(files, start, before, marked1, pending1, p, m);
            assert(pending2 =~= pending1.union(imports_of(files, m).to_set()));
            all.lemma_set_insert_diff_decreases(marked1, m);
            assert(names2.take(names1.len() as int) =~= names1);
            assert(names2.take(names0.len() as int) =~= names0);
            assert forall|k: int| count <= k < names2.len() implies !name_set(
                names2.take(k),
            ).contains((#[trigger] names2[k])@) by {
                if k < names1.len() {
                    assert(names2.take(k) =~= names1.take(k));
                } else {
                    assert(names2.take(k) =~= names1);
                }
            }
        }
        assert(marked2.contains(h));
        assert(marked2.contains(m));
        lemma_walk_settles(files, start, before, marked2, name_set(pending@), p);
    }
}

/// Marks every file that `file_name` depends on: the file and its companion,
/// the files that either of them imports, their companions, and so on. A
/// file that `dependencies` holds already is not read again, and what only
/// it leads to is not marked.
pub fn dfs(file_name: String, all_files: &Vec<SourceFile>, dependencies: &mut Vec<String>)
    ensures
        name_set(final(dependencies)@) == name_set(old(dependencies)@).union(
            reached_from(source_views(all_files@), file_name@, name_set(old(dependencies)@)),
        ),
        old(dependencies)@.len() <= final(dependencies)@.len(),
        final(dependencies)@.take(old(dependencies)@.len() as int) == old(dependencies)@,
        new_from(final(dependencies)@, old(dependencies)@.len() as int),
{
    let ghost files = source_views(all_files@);
    let ghost start = file_name@;
    let ghost names0 = dependencies@;
    let ghost before = name_set(dependencies@);
    let ghost count = dependencies@.len() as int;
    let mut pending: Vec<String> = Vec::new();
    pending.push(file_name);
    proof {
        lemma_walk_begins(files, start, before);
        lemma_name_set_push(Seq::<String>::empty(), pending@[0]);
        assert(name_set(Seq::<String>::empty()) =~= Set::<Seq<char>>::empty());
        assert(name_set(pending@) =~= set![start]);
        assert(dependencies@.take(count) =~= names0);
    }
    while pending.len() > 0
        invariant
            files == source_views(all_files@),
            count == names0.len(),
            before == name_set(names0),
            count <= dependencies@.len(),
            dependencies@.take(count) == names0,
            new_from(dependencies@, count),
            walk_invariant(files, start, before, name_set(dependencies@), name_set(pending@)),
            candidates(files, start).finite(),
        decreases
                candidates(files, start).difference(name_set(dependencies@)).len(),
                pending.len(),
    {
        let ghost pending_before = pending@;
        let ghost names1 = dependencies@;
        let name = pending.pop().unwrap();
        proof {
            assert(pending_before =~= pending@.push(name));
            lemma_name_set_push(pending@, name);
        }
        match FileExtension::new(name.as_str()) {
            FileExtension::Header => {
                let h_file = name;
                let m_file = companion(h_file.as_str());
                assert(pair_of(h_file@) =~= set![h_file@, m_file@]);
                mark_pair(
                    h_file,
                    m_file,
                    all_files,
                    dependencies,
                    &mut pending,
                    Ghost(start),
                    Ghost(before),
                    Ghost(count),
                    Ghost(name@),
                );
            },
            FileExtension::M => {
                let m_file = name;
                let h_file = companion(m_file.as_str());
                assert(pair_of(m_file@) =~= set![h_file@, m_file@]);
                mark_pair(
                    h_file,
                    m_file,
                    all_files,
                    dependencies,
                    &mut pending,
                    Ghost(start),
                    Ghost(before),
                    Ghost(count),
                    Ghost(name@),
                );
            },
            FileExtension::Unknown => {
                proof {
                    lemma_walk_settles(
                        files,
                        start,
                        before,
                        name_set(dependencies@),
                        name_set(pending@),
                        name@,
                    );
                }
            },
        }
        proof {
            assert(dependencies@.take(count) =~= names1.take(count));
        }
    }
    proof {
        assert(name_set(pending@) =~= Set::<Seq<char>>::empty());
        lemma_walk_ends(files, start, before, name_set(dependencies@));
    }
}

} // verus!
