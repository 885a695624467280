use xcode_project_extractor::parsers::pbx_parser::{
    combine_group_into_single_line, parse_all_raw_files, parse_all_raw_folders,
    parse_files_raw_list, parse_folders_raw_list, parse_single_file, parse_single_group, FileRaw,
    FileType, FolderRaw,
};

#[test]
fn test_combine_group_into_single_line() {
    let lines: Vec<String> = group_lines();
    let expected_string = "7BD23B3E2981AE9F00C0ADAE = {isa = PBXGroup;children = (7BD23B4A2981AE9F00C0ADAE /* FileInjection */,7BD23B492981AE9F00C0ADAE /* Products */,);path = Items;sourceTree = \"<group>\";};";
    let result = combine_group_into_single_line(&lines, 0);

    assert_eq!(result, expected_string);
}

#[test]
fn test_parse_single_group() {
    let lines = group_lines();
    let result = parse_single_group(&lines, 0);
    assert_eq!(
        result,
        Some(FolderRaw {
            isa: "7BD23B3E2981AE9F00C0ADAE".to_string(),
            file_type: FileType::FOLDER,
            name: "Items".to_string(),
            childs: vec![
                "7BD23B4A2981AE9F00C0ADAE".to_string(),
                "7BD23B492981AE9F00C0ADAE".to_string()
            ]
        })
    )
}

#[test]
fn test_parse_single_file() {
    {
        let line = "7B3516B22984049B00348D3A /* ItemObject.m in Sources */ = {isa = PBXBuildFile; fileRef = 7B3516B02984049B00348D3A /* ItemObject.m */; };";
        let result = parse_single_file(line);
        assert_eq!(
            result,
            Some(FileRaw {
                isa: "7B3516B22984049B00348D3A".to_string(),
                file_type: FileType::OBJC,
                name: "ItemObject.m".to_string()
            })
        )
    }
    {
        let line = "7B3516B22984049B00348D3A /* ItemObject.framework in Sources */ = {isa = PBXBuildFile; fileRef = 7B3516B02984049B00348D3A /* ItemObject.m */; };";
        let result = parse_single_file(line);
        assert_eq!(result, None)
    }
}

fn group_lines() -> Vec<String> {
    vec![
        "7BD23B3E2981AE9F00C0ADAE = {".to_string(),
        "  isa = PBXGroup; ".to_string(),
        "children = (  ".to_string(),
        "7BD23B4A2981AE9F00C0ADAE /* FileInjection */, ".to_string(),
        "7BD23B492981AE9F00C0ADAE /* Products */,".to_string(),
        ");".to_string(),
        "path = Items;".to_string(),
        "sourceTree = \"<group>\";".to_string(),
        "};".to_string(),
    ]
}

fn descriptor() -> String {
    [
        "// !$*UTF8*$!",
        "{",
        "/* Begin PBXBuildFile section */",
        "\t\t7B35 /* ItemObject.m in Sources */ = {isa = PBXBuildFile; fileRef = 7B34 /* ItemObject.m */; };",
        "\t\t7B37 /* Image.png in Resources */ = {isa = PBXBuildFile; fileRef = 7B36 /* Image.png */; };",
        "\t\t7B39 /* AppDelegate.swift in Sources */ = {isa = PBXBuildFile; fileRef = 7B38 /* AppDelegate.swift */; };",
        "\t\t7B3B /* ItemObject.h in Headers */ = {isa = PBXBuildFile; fileRef = 7B3A /* ItemObject.h */; };",
        "/* End PBXBuildFile section */",
        "\t\t7B3D /* Late.m in Sources */ = {isa = PBXBuildFile; fileRef = 7B3C /* Late.m */; };",
        "",
        "/* Begin PBXGroup section */",
        "\t\t7BD0 = {",
        "\t\t\tisa = PBXGroup;",
        "\t\t\tchildren = (",
        "\t\t\t\t7BD1 /* FileInjection */,",
        "\t\t\t);",
        "\t\t\tsourceTree = \"<group>\";",
        "\t\t};",
        "\t\t7BD1 /* FileInjection */ = {",
        "\t\t\tisa = PBXGroup;",
        "\t\t\tchildren = (",
        "\t\t\t\t7B35 /* ItemObject.m */,",
        "\t\t\t\t7BD2 /* Items */,",
        "\t\t\t);",
        "\t\t\tpath = FileInjection;",
        "\t\t\tsourceTree = \"<group>\";",
        "\t\t};",
        "\t\t7BD2 /* Items */ = {isa = PBXGroup; children = (7B3B /* ItemObject.h */,); path = Items; sourceTree = \"<group>\"; };",
        "/* End PBXGroup section */",
        "\t\t7BD3 /* Late */ = {isa = PBXGroup; children = (); path = Late; };",
        "}",
    ]
    .join("\n")
}

fn file(isa: &str, file_type: FileType, name: &str) -> FileRaw {
    FileRaw { isa: isa.to_string(), file_type, name: name.to_string() }
}

#[test]
fn files_between_the_section_markers_are_parsed_in_order() {
    let files = parse_all_raw_files(&descriptor());
    assert_eq!(
        files,
        vec![
            file("7B35", FileType::OBJC, "ItemObject.m"),
            file("7B39", FileType::SWIFT, "AppDelegate.swift"),
            file("7B3B", FileType::OBJC, "ItemObject.h"),
        ]
    );
}

#[test]
fn groups_between_the_section_markers_are_parsed_in_order() {
    let folders = parse_all_raw_folders(&descriptor());
    assert_eq!(
        folders,
        vec![
            FolderRaw {
                isa: "7BD1 /* FileInjection */".to_string(),
                file_type: FileType::FOLDER,
                name: "FileInjection".to_string(),
                childs: vec!["7B35".to_string(), "7BD2".to_string()],
            },
            FolderRaw {
                isa: "7BD2 /* Items */".to_string(),
                file_type: FileType::FOLDER,
                name: "Items".to_string(),
                childs: vec!["7B3B".to_string()],
            },
        ]
    );
}

#[test]
fn lines_outside_the_sections_yield_nothing() {
    let lines: Vec<String> = vec![
        "7B35 /* ItemObject.m in Sources */ = {isa = PBXBuildFile; };".to_string(),
        "7BD2 /* Items */ = {isa = PBXGroup; children = (); path = Items; };".to_string(),
    ];
    assert_eq!(parse_files_raw_list(&lines), vec![]);
    assert_eq!(parse_folders_raw_list(&lines), vec![]);
}

#[test]
fn an_end_marker_before_the_begin_marker_stops_the_scan() {
    let lines: Vec<String> = vec![
        "/* End PBXBuildFile section */".to_string(),
        "/* Begin PBXBuildFile section */".to_string(),
        "7B35 /* ItemObject.m in Sources */ = {isa = PBXBuildFile; };".to_string(),
    ];
    assert_eq!(parse_files_raw_list(&lines), vec![]);
}

#[test]
fn a_descriptor_with_carriage_returns_parses_alike() {
    let text = descriptor().replace("\n", "\r\n");
    assert_eq!(parse_all_raw_files(&text), parse_all_raw_files(&descriptor()));
    assert_eq!(parse_all_raw_folders(&text), parse_all_raw_folders(&descriptor()));
}

#[test]
fn a_well_formed_line_yields_its_id_name_and_kind() {
    assert_eq!(
        parse_single_file("AB12 /* View.h in Headers */ = {isa = PBXBuildFile; };"),
        Some(file("AB12", FileType::OBJC, "View.h"))
    );
    assert_eq!(
        parse_single_file("AB13 /* Model.swift in Sources */ = {isa = PBXBuildFile; };"),
        Some(file("AB13", FileType::SWIFT, "Model.swift"))
    );
    assert_eq!(
        parse_single_file("AB14 /* My File.m in Sources */ = {isa = PBXBuildFile; };"),
        Some(file("AB14", FileType::OBJC, "My File.m"))
    );
}

#[test]
fn the_kind_goes_by_the_suffix_of_the_name() {
    assert_eq!(parse_single_file("AB15 /* a.mb in Sources */ = {};"), None);
    assert_eq!(parse_single_file("AB16 /* a.html in Sources */ = {};"), None);
    assert_eq!(parse_single_file("AB17 /* a.swift.txt in Sources */ = {};"), None);
    assert_eq!(parse_single_file("AB18 /* Image.png in Resources */ = {};"), None);
}

#[test]
fn a_line_without_its_delimiters_yields_no_record() {
    assert_eq!(parse_single_file(""), None);
    assert_eq!(parse_single_file("ItemObject.m"), None);
    assert_eq!(parse_single_file(" /* ItemObject.m in Sources */"), None);
    assert_eq!(parse_single_file("AB19 /*  in Sources */"), None);
    assert_eq!(parse_single_file("AB19 /* ItemObject.m"), None);
}

#[test]
fn a_group_on_one_line_parses_like_the_same_group_on_many() {
    let lines = group_lines();
    let one_line = vec![combine_group_into_single_line(&lines, 0)];
    assert_eq!(parse_single_group(&one_line, 0), parse_single_group(&lines, 0));
}

#[test]
fn a_trailing_comma_adds_no_child() {
    let lines = vec!["AA /* G */ = {children = (X,Y,); path = G; };".to_string()];
    let group = parse_single_group(&lines, 0).unwrap();
    assert_eq!(group.childs, vec!["X".to_string(), "Y".to_string()]);
    let lines = vec!["AA /* G */ = {children = (X, Y, ); path = G; };".to_string()];
    let group = parse_single_group(&lines, 0).unwrap();
    assert!(group.childs.iter().all(|child| !child.is_empty()));
    let lines = vec!["AA /* G */ = {children = (,,X /* x */,,); path = G; };".to_string()];
    let group = parse_single_group(&lines, 0).unwrap();
    assert_eq!(group.childs, vec!["X".to_string()]);
}

#[test]
fn a_group_without_a_path_or_an_id_is_discarded() {
    let lines = vec!["AA /* G */ = {children = (X,); };".to_string()];
    assert_eq!(parse_single_group(&lines, 0), None);
    let lines = vec![" = {children = (X,); path = G; };".to_string()];
    assert_eq!(parse_single_group(&lines, 0), None);
    let lines = vec!["children = (X,); path = G; };".to_string()];
    assert_eq!(parse_single_group(&lines, 0), None);
}

#[test]
fn a_group_ends_at_the_first_closing_line_or_at_the_last_line() {
    let lines = vec![
        "AA = {".to_string(),
        " path = G; };".to_string(),
        "BB = {".to_string(),
    ];
    assert_eq!(combine_group_into_single_line(&lines, 0), "AA = {path = G; };");
    assert_eq!(combine_group_into_single_line(&lines, 2), "BB = {");
    assert_eq!(combine_group_into_single_line(&lines, 3), "");
    assert_eq!(parse_single_group(&lines, 7), None);
}
