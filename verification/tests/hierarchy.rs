use xcode_project_extractor::parsers::descent::{descent_is_finite, find_folder_index};
use xcode_project_extractor::parsers::pbx_parser::{FileRaw, FileType, FolderRaw};
use xcode_project_extractor::parsers::reference_builder::{
    build_project_hierarchy, build_project_hierarhy_recursively, find_file, find_folder,
    find_root_folder_isa, parse_files_tree, File, Folder,
};

fn raw_file(isa: &str, name: &str) -> FileRaw {
    FileRaw { isa: isa.to_string(), file_type: FileType::OBJC, name: name.to_string() }
}

fn raw_folder(isa: &str, name: &str, childs: &[&str]) -> FolderRaw {
    FolderRaw {
        isa: isa.to_string(),
        file_type: FileType::FOLDER,
        name: name.to_string(),
        childs: childs.iter().map(|c| c.to_string()).collect(),
    }
}

fn file(isa: &str, name: &str, path: &str) -> File {
    File { isa: isa.to_string(), name: name.to_string(), path: path.to_string() }
}

fn folder(isa: &str, name: &str, path: &str, files: Vec<File>, subfolders: Vec<Folder>) -> Folder {
    Folder { isa: isa.to_string(), name: name.to_string(), path: path.to_string(), files, subfolders }
}

fn file_count(folder: &Folder) -> usize {
    let mut count = folder.files.len();
    for sub in &folder.subfolders {
        count += file_count(sub);
    }
    count
}

fn ids(folder: &Folder, into: &mut Vec<String>) {
    for f in &folder.files {
        into.push(f.isa.clone());
    }
    for sub in &folder.subfolders {
        into.push(sub.isa.clone());
        ids(sub, into);
    }
}

fn records() -> (Vec<FileRaw>, Vec<FolderRaw>) {
    let files = vec![
        raw_file("F1", "App.m"),
        raw_file("F2", "App.h"),
        raw_file("F3", "Item.m"),
        raw_file("F4", "Unused.m"),
    ];
    let folders = vec![
        raw_folder("G1", "App", &["F1", "G2", "F2", "MISSING", "G3"]),
        raw_folder("G2", "Items", &["F3"]),
        raw_folder("G3", "Empty", &[]),
        raw_folder("G4", "Other", &["F4"]),
    ];
    (files, folders)
}

#[test]
fn the_tree_follows_the_child_lists() {
    let (files, folders) = records();
    let tree = build_project_hierarchy(&files, &folders, "App");
    assert_eq!(
        tree,
        Some(folder(
            "G1",
            "App",
            "App",
            vec![file("F1", "App.m", "App/App.m"), file("F2", "App.h", "App/App.h")],
            vec![
                folder(
                    "G2",
                    "Items",
                    "App/Items",
                    vec![file("F3", "Item.m", "App/Items/Item.m")],
                    vec![]
                ),
                folder("G3", "Empty", "App/Empty", vec![], vec![]),
            ]
        ))
    );
}

#[test]
fn the_files_of_the_tree_are_the_files_below_the_root() {
    let (files, folders) = records();
    let tree = build_project_hierarchy(&files, &folders, "App").unwrap();
    assert_eq!(file_count(&tree), 3);
    let tree = build_project_hierarchy(&files, &folders, "Other").unwrap();
    assert_eq!(file_count(&tree), 1);
    let tree = build_project_hierarchy(&files, &folders, "Empty").unwrap();
    assert_eq!(file_count(&tree), 0);
}

#[test]
fn a_child_without_a_record_is_not_in_the_tree() {
    let (files, folders) = records();
    let tree = build_project_hierarchy(&files, &folders, "App").unwrap();
    let mut found = Vec::new();
    ids(&tree, &mut found);
    assert_eq!(found, vec!["F1", "F2", "G2", "F3", "G3"]);
    assert!(!found.contains(&"MISSING".to_string()));
}

#[test]
fn a_root_that_is_not_there_has_no_tree() {
    let (files, folders) = records();
    assert_eq!(build_project_hierarchy(&files, &folders, "Nowhere"), None);
    assert_eq!(build_project_hierarchy(&files, &Vec::new(), "App"), None);
    assert_eq!(find_root_folder_isa("Nowhere", &folders), None);
    assert_eq!(find_root_folder_isa("Items", &folders), Some("G2".to_string()));
}

#[test]
fn a_child_listed_twice_is_attached_once() {
    let files = vec![raw_file("F1", "App.m")];
    let folders = vec![
        raw_folder("G1", "App", &["F1", "G2", "F1", "G2"]),
        raw_folder("G2", "Items", &["F1"]),
    ];
    let tree = build_project_hierarchy(&files, &folders, "App").unwrap();
    assert_eq!(
        tree,
        folder(
            "G1",
            "App",
            "App",
            vec![file("F1", "App.m", "App/App.m")],
            vec![folder(
                "G2",
                "Items",
                "App/Items",
                vec![file("F1", "App.m", "App/Items/App.m")],
                vec![]
            )]
        )
    );
    assert_eq!(file_count(&tree), 2);
}

#[test]
fn an_id_that_names_a_group_and_a_file_is_a_group() {
    let files = vec![raw_file("X", "X.m")];
    let folders = vec![raw_folder("G1", "App", &["X"]), raw_folder("X", "Sub", &[])];
    let tree = build_project_hierarchy(&files, &folders, "App").unwrap();
    assert_eq!(tree.files, vec![]);
    assert_eq!(tree.subfolders, vec![folder("X", "Sub", "App/Sub", vec![], vec![])]);
}

#[test]
fn of_two_records_with_one_id_the_later_counts() {
    let files = vec![raw_file("F1", "Old.m"), raw_file("F1", "New.m")];
    let folders = vec![
        raw_folder("G1", "App", &["F1"]),
        raw_folder("G2", "App", &[]),
        raw_folder("G1", "Renamed", &["F1", "G2"]),
    ];
    assert_eq!(find_file(&files, &"F1".to_string()), Some(&files[1]));
    assert_eq!(find_folder(&folders, &"G1".to_string()), Some(&folders[2]));
    assert_eq!(find_folder(&folders, &"G9".to_string()), None);
    assert_eq!(find_folder_index(&folders, &"G1".to_string()), Some(2));
    assert_eq!(find_root_folder_isa("App", &folders), Some("G2".to_string()));
    let tree = build_project_hierarchy(&files, &folders, "Renamed").unwrap();
    assert_eq!(
        tree,
        folder(
            "G1",
            "Renamed",
            "Renamed",
            vec![file("F1", "New.m", "Renamed/New.m")],
            vec![folder("G2", "App", "Renamed/App", vec![], vec![])]
        )
    );
}

#[test]
fn the_first_of_several_roots_with_one_name_is_taken() {
    let folders = vec![
        raw_folder("G1", "Other", &[]),
        raw_folder("G2", "App", &[]),
        raw_folder("G3", "App", &[]),
    ];
    assert_eq!(find_root_folder_isa("App", &folders), Some("G2".to_string()));
}

#[test]
fn a_folder_is_built_under_the_name_and_path_given() {
    let (files, folders) = records();
    let tree = build_project_hierarhy_recursively(
        &files,
        &folders,
        "G2".to_string(),
        "Things".to_string(),
        "a/b".to_string(),
    );
    assert_eq!(
        tree,
        folder("G2", "Things", "a/b", vec![file("F3", "Item.m", "a/b/Item.m")], vec![])
    );
    let tree = build_project_hierarhy_recursively(
        &files,
        &folders,
        "F1".to_string(),
        "n".to_string(),
        "p".to_string(),
    );
    assert_eq!(tree, folder("F1", "n", "p", vec![], vec![]));
}

#[test]
fn a_descent_through_a_circle_of_groups_does_not_end() {
    let folders = vec![
        raw_folder("G1", "App", &["G2", "F1"]),
        raw_folder("G2", "Items", &["G3"]),
        raw_folder("G3", "Deep", &["G2"]),
        raw_folder("G4", "Self", &["G4"]),
        raw_folder("G5", "Fine", &["G6", "G6", "G7"]),
        raw_folder("G6", "Leaf", &["F1"]),
    ];
    assert!(!descent_is_finite(&folders, "G1"));
    assert!(!descent_is_finite(&folders, "G2"));
    assert!(!descent_is_finite(&folders, "G3"));
    assert!(!descent_is_finite(&folders, "G4"));
    assert!(descent_is_finite(&folders, "G5"));
    assert!(descent_is_finite(&folders, "G6"));
    assert!(descent_is_finite(&folders, "G7"));
    assert!(descent_is_finite(&folders, "F1"));
    assert!(descent_is_finite(&Vec::new(), "G1"));
}

#[test]
fn a_circle_that_a_later_record_breaks_is_no_circle() {
    let folders = vec![
        raw_folder("G1", "App", &["G2"]),
        raw_folder("G2", "Items", &["G1"]),
        raw_folder("G2", "Items", &[]),
    ];
    assert!(descent_is_finite(&folders, "G1"));
    assert!(descent_is_finite(&folders, "G2"));
}

#[test]
fn a_deep_chain_of_groups_is_built() {
    let mut folders = Vec::new();
    for i in 0..40 {
        let child = format!("G{}", i + 1);
        folders.push(raw_folder(&format!("G{}", i), &format!("N{}", i), &[&child]));
    }
    folders.reverse();
    assert!(descent_is_finite(&folders, "G0"));
    let tree = build_project_hierarchy(&Vec::new(), &folders, "N0").unwrap();
    let mut depth = 0;
    let mut at = &tree;
    while let Some(sub) = at.subfolders.first() {
        at = sub;
        depth += 1;
    }
    assert_eq!(depth, 39);
    assert!(at.path.ends_with("/N38/N39"));
}

#[test]
fn a_tree_is_parsed_from_the_text_of_a_descriptor() {
    let text = [
        "/* Begin PBXBuildFile section */",
        "\t\tF1 /* App.m in Sources */ = {isa = PBXBuildFile; fileRef = R1 /* App.m */; };",
        "/* End PBXBuildFile section */",
        "/* Begin PBXGroup section */",
        "\t\tG1 /* App */ = {",
        "\t\t\tisa = PBXGroup;",
        "\t\t\tchildren = (",
        "\t\t\t\tF1 /* App.m */,",
        "\t\t\t\tF9 /* Gone.m */,",
        "\t\t\t);",
        "\t\t\tpath = App;",
        "\t\t};",
        "/* End PBXGroup section */",
    ]
    .join("\n");
    assert_eq!(
        parse_files_tree(&text, "App"),
        Some(folder(
            "G1 /* App */",
            "App",
            "App",
            vec![file("F1", "App.m", "App/App.m")],
            vec![]
        ))
    );
    assert_eq!(parse_files_tree(&text, "Items"), None);
    assert_eq!(parse_files_tree("", "App"), None);
}
