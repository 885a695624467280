use xcode_project_extractor::dependencies::{
    companion, contains_name, dfs, imports_from_file, imports_from_lines, imports_from_text,
    FileExtension, SourceFile,
};

fn source(name: &str, content: &str) -> SourceFile {
    SourceFile { name: name.to_string(), content: content.to_string() }
}

fn names(list: &[&str]) -> Vec<String> {
    list.iter().map(|n| n.to_string()).collect()
}

fn sorted(mut list: Vec<String>) -> Vec<String> {
    list.sort();
    list
}

#[test]
fn the_extension_goes_by_the_suffix() {
    assert_eq!(FileExtension::new("View.m"), FileExtension::M);
    assert_eq!(FileExtension::new("View.h"), FileExtension::Header);
    assert_eq!(FileExtension::new("View.swift"), FileExtension::Unknown);
    assert_eq!(FileExtension::new("View.mm"), FileExtension::Unknown);
    assert_eq!(FileExtension::new("a.mb/file"), FileExtension::Unknown);
    assert_eq!(FileExtension::new("Model.h"), FileExtension::Header);
    assert_eq!(FileExtension::new(""), FileExtension::Unknown);
    assert_eq!(FileExtension::new(".m"), FileExtension::M);
}

#[test]
fn the_companion_differs_in_the_suffix_only() {
    assert_eq!(companion("View.m"), "View.h");
    assert_eq!(companion("View.h"), "View.m");
    assert_eq!(companion("a.h.h"), "a.h.m");
    assert_eq!(companion("a.m.h"), "a.m.m");
    assert_eq!(companion("View.swift"), "View.swift");
    assert_eq!(companion(".h"), ".m");
}

#[test]
fn a_header_pulls_in_its_companion_and_the_imports_of_both() {
    let files = vec![
        source("A.h", "#import \"B.h\"\n"),
        source("A.m", "#import \"C.h\"\n"),
        source("B.h", "@interface B\n@end\n"),
        source("C.h", "@interface C\n@end\n"),
    ];
    let mut dependencies: Vec<String> = Vec::new();
    dfs("A.h".to_string(), &files, &mut dependencies);
    assert_eq!(sorted(dependencies.clone()), names(&["A.h", "A.m", "B.h", "B.m", "C.h", "C.m"]));
    assert!(names(&["A.h", "A.m", "B.h", "C.h"]).iter().all(|n| dependencies.contains(n)));
    assert_eq!(dependencies[0], "A.h");
    assert_eq!(dependencies[1], "A.m");
}

#[test]
fn an_implementation_file_pulls_in_its_header() {
    let files = vec![source("A.h", "#import \"B.h\"\n"), source("A.m", "")];
    let mut dependencies: Vec<String> = Vec::new();
    dfs("A.m".to_string(), &files, &mut dependencies);
    assert_eq!(dependencies, names(&["A.h", "A.m", "B.h", "B.m"]));
}

#[test]
fn the_import_block_ends_at_the_first_other_line() {
    let lines = names(&["#import \"A.h\"", "#import \"B.h\"", " ", "#import \"C.h\""]);
    assert_eq!(imports_from_lines(&lines), names(&["A.h", "B.h"]));
    let lines = names(&["#import \"A.h\"", "#import \"B.h\"", "@class D;", "#import \"C.h\""]);
    assert_eq!(imports_from_lines(&lines), names(&["A.h", "B.h"]));
}

#[test]
fn an_empty_line_does_not_end_the_import_block() {
    let lines = names(&["#import \"A.h\"", "#import \"B.h\"", "", "#import \"C.h\""]);
    assert_eq!(imports_from_lines(&lines), names(&["A.h", "B.h", "C.h"]));
}

#[test]
fn lines_before_the_first_import_are_passed_over() {
    let text = "// Copyright\n\n#import <UIKit/UIKit.h>\n#import \"A.h\"\n#import \"A.h\"\n  #import \"B.h\" // b\nint x;\n#import \"C.h\"\n";
    assert_eq!(imports_from_text(text), names(&["A.h", "B.h"]));
    assert_eq!(imports_from_text(""), Vec::<String>::new());
    assert_eq!(imports_from_text("int x;\n"), Vec::<String>::new());
    assert_eq!(imports_from_text("#import \"\"\n#import \"A.h\n"), Vec::<String>::new());
}

#[test]
fn a_file_that_is_not_there_imports_nothing() {
    let files = vec![source("A.h", "#import \"B.h\"\n")];
    assert_eq!(imports_from_file("B.h", &files), Vec::<String>::new());
    assert_eq!(imports_from_file("A.h", &files), names(&["B.h"]));
    assert_eq!(imports_from_file("A.h", &Vec::new()), Vec::<String>::new());
}

#[test]
fn of_two_files_with_one_name_the_later_counts() {
    let files = vec![
        source("A.h", "#import \"B.h\"\n"),
        source("C.h", ""),
        source("A.h", "#import \"C.h\"\n"),
    ];
    assert_eq!(imports_from_file("A.h", &files), names(&["C.h"]));
}

#[test]
fn a_walk_over_imports_that_form_a_circle_ends() {
    let files = vec![
        source("A.h", "#import \"B.h\"\n"),
        source("B.h", "#import \"A.h\"\n#import \"B.h\"\n"),
        source("B.m", "#import \"A.m\"\n"),
    ];
    let mut dependencies: Vec<String> = Vec::new();
    dfs("A.h".to_string(), &files, &mut dependencies);
    assert_eq!(sorted(dependencies), names(&["A.h", "A.m", "B.h", "B.m"]));
}

#[test]
fn a_name_of_another_kind_marks_nothing() {
    let files = vec![source("A.swift", "#import \"B.h\"\n"), source("A.h", "#import \"A.swift\"\n")];
    let mut dependencies: Vec<String> = Vec::new();
    dfs("A.swift".to_string(), &files, &mut dependencies);
    assert_eq!(dependencies, Vec::<String>::new());
    dfs("A.h".to_string(), &files, &mut dependencies);
    assert_eq!(dependencies, names(&["A.h", "A.m"]));
}

#[test]
fn a_second_walk_marks_nothing_new() {
    let files = vec![
        source("A.h", "#import \"B.h\"\n#import \"C.h\"\n"),
        source("B.m", "#import \"D.h\"\n"),
        source("D.h", "#import \"A.h\"\n"),
    ];
    let mut first: Vec<String> = Vec::new();
    dfs("A.h".to_string(), &files, &mut first);
    let mut second: Vec<String> = Vec::new();
    dfs("A.h".to_string(), &files, &mut second);
    assert_eq!(first, second);
    let mut again = first.clone();
    dfs("A.h".to_string(), &files, &mut again);
    assert_eq!(again, first);
    assert_eq!(
        sorted(first),
        names(&["A.h", "A.m", "B.h", "B.m", "C.h", "C.m", "D.h", "D.m"])
    );
}

#[test]
fn files_marked_before_a_walk_are_not_read_again() {
    let files = vec![
        source("A.h", "#import \"B.h\"\n"),
        source("B.h", "#import \"C.h\"\n"),
        source("B.m", "#import \"D.h\"\n"),
    ];
    let mut dependencies = names(&["B.h", "X"]);
    dfs("A.h".to_string(), &files, &mut dependencies);
    assert_eq!(dependencies, names(&["B.h", "X", "A.h", "A.m", "B.m", "D.h", "D.m"]));
}

#[test]
fn names_are_found_in_a_list() {
    let list = names(&["A.h", "B.h"]);
    assert!(contains_name(&list, &"B.h".to_string()));
    assert!(!contains_name(&list, &"B.m".to_string()));
    assert!(!contains_name(&Vec::new(), &"".to_string()));
}
