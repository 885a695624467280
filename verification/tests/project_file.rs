use xcode_project_extractor::parsers::pbx_parser::{
    parse_all_raw_files, parse_all_raw_folders, parse_files_raw_list, parse_folders_raw_list,
    FileType,
};
use xcode_project_extractor::utils::text::lines;

const SOURCES: [&str; 7] = [
    "AppDelegate.m",
    "SceneDelegate.m",
    "ViewController.m",
    "main.m",
    "ItemObject.m",
    "ItemObject.h",
    "ItemStore.swift",
];

const RESOURCES: [&str; 3] = ["Main.storyboard", "Assets.xcassets", "LaunchScreen.storyboard"];

fn id(kind: usize, index: usize) -> String {
    format!("7BD23B{:02X}2981AE9F00C0AD{:02X}", kind, index)
}

/// The text of a project file with seven sources, three resources, one
/// unnamed main group and three named groups.
fn project_text() -> String {
    let mut text = String::new();
    let mut push = |line: &str| {
        text.push_str(line);
        text.push('\n');
    };
    push("// !$*UTF8*$!");
    push("{");
    push("\tarchiveVersion = 1;");
    push("\tclasses = {");
    push("\t};");
    push("\tobjectVersion = 55;");
    push("\tobjects = {");
    push("");
    push("/* Begin PBXBuildFile section */");
    for (i, name) in SOURCES.iter().enumerate() {
        push(&format!(
            "\t\t{} /* {} in Sources */ = {{isa = PBXBuildFile; fileRef = {} /* {} */; }};",
            id(1, i),
            name,
            id(2, i),
            name
        ));
    }
    for (i, name) in RESOURCES.iter().enumerate() {
        push(&format!(
            "\t\t{} /* {} in Resources */ = {{isa = PBXBuildFile; fileRef = {} /* {} */; }};",
            id(3, i),
            name,
            id(4, i),
            name
        ));
    }
    push("/* End PBXBuildFile section */");
    push("");
    push("/* Begin PBXFileReference section */");
    for (i, name) in SOURCES.iter().enumerate() {
        push(&format!(
            "\t\t{} /* {} */ = {{isa = PBXFileReference; path = {}; sourceTree = \"<group>\"; }};",
            id(2, i),
            name,
            name
        ));
    }
    push("/* End PBXFileReference section */");
    push("");
    push("/* Begin PBXGroup section */");
    push(&format!("\t\t{} = {{", id(5, 0)));
    push("\t\t\tisa = PBXGroup;");
    push("\t\t\tchildren = (");
    push(&format!("\t\t\t\t{} /* FileInjection */,", id(5, 1)));
    push(&format!("\t\t\t\t{} /* Products */,", id(5, 2)));
    push("\t\t\t);");
    push("\t\t\tsourceTree = \"<group>\";");
    push("\t\t};");
    push(&format!("\t\t{} /* FileInjection */ = {{", id(5, 1)));
    push("\t\t\tisa = PBXGroup;");
    push("\t\t\tchildren = (");
    for (i, name) in SOURCES.iter().enumerate().take(4) {
        push(&format!("\t\t\t\t{} /* {} */,", id(1, i), name));
    }
    push(&format!("\t\t\t\t{} /* Items */,", id(5, 3)));
    push("\t\t\t);");
    push("\t\t\tpath = FileInjection;");
    push("\t\t\tsourceTree = \"<group>\";");
    push("\t\t};");
    push(&format!("\t\t{} /* Products */ = {{", id(5, 2)));
    push("\t\t\tisa = PBXGroup;");
    push("\t\t\tchildren = (");
    push("\t\t\t);");
    push("\t\t\tname = Products;");
    push("\t\t\tsourceTree = \"<group>\";");
    push("\t\t};");
    push(&format!("\t\t{} /* Items */ = {{", id(5, 3)));
    push("\t\t\tisa = PBXGroup;");
    push("\t\t\tchildren = (");
    for (i, name) in SOURCES.iter().enumerate().skip(4) {
        push(&format!("\t\t\t\t{} /* {} */,", id(1, i), name));
    }
    push("\t\t\t);");
    push("\t\t\tpath = Items;");
    push("\t\t\tsourceTree = \"<group>\";");
    push("\t\t};");
    push(&format!("\t\t{} /* Frameworks */ = {{", id(5, 4)));
    push("\t\t\tisa = PBXGroup;");
    push("\t\t\tchildren = (");
    push("\t\t\t);");
    push("\t\t\tpath = Frameworks;");
    push("\t\t\tsourceTree = \"<group>\";");
    push("\t\t};");
    push("/* End PBXGroup section */");
    push("");
    push("/* Begin XCBuildConfiguration section */");
    let mut setting = 0;
    while text.lines().count() < 381 {
        text.push_str(&format!("\t\t\t\tSETTING_{} = YES;\n", setting));
        setting += 1;
    }
    text.push_str("/* End XCBuildConfiguration section */\n");
    text.push_str("\t};\n");
    text.push_str(&format!("\trootObject = {} /* Project object */;\n", id(6, 0)));
    text.push_str("}\n");
    text
}

#[test]
fn test_parse_folders_structure() {
    let lines = lines(&project_text());
    let folders = parse_folders_raw_list(&lines);
    assert_eq!(folders.len(), 3);
}

#[test]
fn test_parse_project_files_as_raw_string_list() {
    let lines = lines(&project_text());
    let files = parse_files_raw_list(&lines);
    assert_eq!(files.len(), 7);
}

#[test]
fn test_parse_project_file() {
    let result = lines(&project_text());
    assert_eq!(result.len(), 385);
}

#[test]
fn the_records_of_a_project_file_keep_their_order_and_kind() {
    let text = project_text();
    let files = parse_all_raw_files(&text);
    let names: Vec<&str> = files.iter().map(|f| f.name.as_str()).collect();
    assert_eq!(names, SOURCES.to_vec());
    assert_eq!(files[0].isa, id(1, 0));
    assert_eq!(files[5].file_type, FileType::OBJC);
    assert_eq!(files[6].file_type, FileType::SWIFT);
    let folders = parse_all_raw_folders(&text);
    let names: Vec<&str> = folders.iter().map(|f| f.name.as_str()).collect();
    assert_eq!(names, vec!["FileInjection", "Items", "Frameworks"]);
    assert_eq!(folders[1].childs, vec![id(1, 4), id(1, 5), id(1, 6)]);
    assert_eq!(folders[0].isa, format!("{} /* FileInjection */", id(5, 1)));
}
