use ws_cleaner::filtering::{DepType, Dependency, Package};
use ws_cleaner::parsing::{
    classify_entry, is_hidden_name, parse_contents, parse_items, Entry, EntryKind, Manifest,
    ParseError, XmlItem,
};

fn from_str(data: &str) -> Result<Package, ParseError> {
    parse_contents(&".".to_string(), data.as_bytes())
}

fn dep(dep: &str) -> Dependency {
    Dependency {
        name: dep.to_string(),
        dep_type: DepType::All,
    }
}
fn bdep(dep: &str) -> Dependency {
    Dependency {
        name: dep.to_string(),
        dep_type: DepType::Build,
    }
}
fn tdep(dep: &str) -> Dependency {
    Dependency {
        name: dep.to_string(),
        dep_type: DepType::Test,
    }
}
fn edep(dep: &str) -> Dependency {
    Dependency {
        name: dep.to_string(),
        dep_type: DepType::Exec,
    }
}

#[test]
fn fails_on_broken() {
    {
        let manifest1 = r#"<?xml version="1.0"?>
            <?xml-model href="http://download.ros.org/schema/package_format3.xsd" schematypens="http://www.w3.org/2001/XMLSchema"?>
            farts
            </package>
            "#;
        from_str(manifest1).expect_err("Should not have parsed!");
    }
    {
        let manifest2 = r#"nothing"#;
        from_str(manifest2).expect_err("Should not have parsed!");
    }
    {
        let manifest3 = r#"<package><name>foo</package>"#;
        from_str(manifest3).expect_err("Should not have parsed!");
    }
    {
        let manifest3 = r#"<package><foo><name>foo</name></foo></package>"#;
        from_str(manifest3).expect_err("Should not have parsed!");
    }
}

#[test]
fn parse_empty() {
    let manifest = r#"<?xml version="1.0"?>
            <?xml-model href="http://download.ros.org/schema/package_format3.xsd" schematypens="http://www.w3.org/2001/XMLSchema"?>
            <package format="3">
              <name>zzz_package</name>
              <version>1.0.0</version>
              <description>This is a cmake package</description>
              <maintainer email="foo@bar.com">Foo Bar</maintainer>
              <license>MIT</license>

              <buildtool_depend>ament_cmake</buildtool_depend>
              <export>
                <build_type>ament_cmake</build_type>
              </export>
            </package>
            "#;
    let parsed: Package = from_str(manifest).unwrap();
    assert_eq!(parsed.name, "zzz_package");
}

#[test]
fn parses_package() {
    let manifest = r#"<?xml version="1.0"?>
            <?xml-model href="http://download.ros.org/schema/package_format3.xsd" schematypens="http://www.w3.org/2001/XMLSchema"?>
            <package format="3">
              <name>zzz_package</name>
              <version>1.0.0</version>
              <description>This is a cmake package</description>
              <maintainer email="foo@bar.com">Foo Bar</maintainer>
              <license>MIT</license>

              <buildtool_depend>ament_cmake</buildtool_depend>

              <depend>dep1</depend>
              <depend>dep2</depend>

              <build_depend>build_dep1</build_depend>
              <build_depend>build_dep2</build_depend>

              <test_depend>test_dep1</test_depend>
              <test_depend>test_dep2</test_depend>

              <exec_depend>exec_dep1</exec_depend>
              <exec_depend>exec_dep2</exec_depend>

              <export>
                <build_type>ament_cmake</build_type>
              </export>
            </package>
            "#;
    let parsed: Package = from_str(manifest).unwrap();
    assert_eq!(parsed.name, "zzz_package");
    assert_eq!(
        parsed.deps,
        vec![
            dep("dep1"),
            dep("dep2"),
            bdep("build_dep1"),
            bdep("build_dep2"),
            tdep("test_dep1"),
            tdep("test_dep2"),
            edep("exec_dep1"),
            edep("exec_dep2")
        ]
    );
}

#[test]
fn processes_unordered() {
    let manifest = r#"<?xml version="1.0"?>
            <?xml-model href="http://download.ros.org/schema/package_format3.xsd" schematypens="http://www.w3.org/2001/XMLSchema"?>
            <package format="3">
              <name>zzz_package</name>
              <version>1.0.0</version>
              <description>This is a cmake package</description>
              <maintainer email="foo@bar.com">Foo Bar</maintainer>
              <license>MIT</license>

              <buildtool_depend>ament_cmake</buildtool_depend>

              <depend>dep1</depend>
              <build_depend>build_dep1</build_depend>
              <test_depend>test_dep1</test_depend>
              <exec_depend>exec_dep1</exec_depend>

              <depend>dep2</depend>
              <build_depend>build_dep2</build_depend>
              <test_depend>test_dep2</test_depend>
              <exec_depend>exec_dep2</exec_depend>

              <export>
                <build_type>ament_cmake</build_type>
              </export>
            </package>
            "#;
    let parsed: Package = from_str(manifest).unwrap();
    assert_eq!(
        parsed.deps,
        vec![
            dep("dep1"),
            bdep("build_dep1"),
            tdep("test_dep1"),
            edep("exec_dep1"),
            dep("dep2"),
            bdep("build_dep2"),
            tdep("test_dep2"),
            edep("exec_dep2")
        ]
    );
}

#[test]
fn keeps_path_and_reads_minimal_manifest() {
    let parsed = parse_contents(
        &"/ws/src/foo".to_string(),
        b"<package><name>foo</name><exec_depend>bar</exec_depend></package>",
    )
    .unwrap();
    assert_eq!(parsed.name, "foo");
    assert_eq!(parsed.path, "/ws/src/foo");
    assert_eq!(parsed.deps, vec![edep("bar")]);
}

#[test]
fn wrong_root_is_refused() {
    assert_eq!(
        from_str("<manifest><name>foo</name></manifest>"),
        Err(ParseError::NotPackage)
    );
}

#[test]
fn nested_in_dependency_is_refused() {
    assert_eq!(
        from_str("<package><name>foo</name><depend><x/></depend></package>"),
        Err(ParseError::NestedElement)
    );
}

#[test]
fn missing_name_is_refused() {
    assert_eq!(
        from_str("<package><depend>a</depend><export/></package>"),
        Err(ParseError::MissingName)
    );
}

#[test]
fn malformed_xml_is_refused() {
    assert_eq!(from_str("nothing"), Err(ParseError::Malformed));
}

#[test]
fn unmatched_close_is_refused() {
    let items = vec![
        XmlItem::Open("package".to_string()),
        XmlItem::Open("name".to_string()),
        XmlItem::Text("foo".to_string()),
        XmlItem::Close("depend".to_string()),
    ];
    assert_eq!(
        parse_items(&".".to_string(), &items),
        Err(ParseError::UnmatchedClose)
    );
}

#[test]
fn items_give_package() {
    let items = vec![
        XmlItem::Open("package".to_string()),
        XmlItem::Open("name".to_string()),
        XmlItem::Text("foo".to_string()),
        XmlItem::Close("name".to_string()),
        XmlItem::Open("test_depend".to_string()),
        XmlItem::Text("gtest".to_string()),
        XmlItem::Close("test_depend".to_string()),
        XmlItem::Other,
        XmlItem::Open("export".to_string()),
        XmlItem::Close("export".to_string()),
        XmlItem::Close("package".to_string()),
    ];
    let p = parse_items(&"p".to_string(), &items).unwrap();
    assert_eq!(p.name, "foo");
    assert_eq!(p.path, "p");
    assert_eq!(p.deps, vec![tdep("gtest")]);
}

#[test]
fn entry_orders_by_category() {
    let entry = Entry {
        pkg: Manifest {
            name: "foo".to_string(),
            depend: vec!["d".to_string()],
            build_depend: vec!["b1".to_string(), "b2".to_string()],
            exec_depend: vec!["e".to_string()],
            test_depend: vec!["t".to_string()],
        },
        path: "/x".to_string(),
    };
    let p = Package::from_entry(entry);
    assert_eq!(p.name, "foo");
    assert_eq!(p.path, "/x");
    assert_eq!(
        p.deps,
        vec![dep("d"), bdep("b1"), bdep("b2"), edep("e"), tdep("t")]
    );
}

#[test]
fn classifies_entries() {
    assert_eq!(classify_entry(false, Some("src"), false), EntryKind::IsFile);
    assert_eq!(classify_entry(true, Some(".git"), false), EntryKind::Ignored);
    assert_eq!(classify_entry(true, Some("src"), true), EntryKind::Ignored);
    assert_eq!(classify_entry(true, Some("src"), false), EntryKind::Searchable);
    assert_eq!(classify_entry(true, None, false), EntryKind::Searchable);
    assert!(is_hidden_name(".hidden"));
    assert!(!is_hidden_name("visible.d"));
    assert!(!is_hidden_name(""));
}

#[test]
fn export_holding_dependency_is_ignored() {
    let parsed =
        from_str("<package><name>n</name><export><depend>x</depend></export></package>").unwrap();
    assert_eq!(parsed.name, "n");
    assert_eq!(parsed.deps, vec![]);
}

#[test]
fn recognized_tags_inside_unrecognized_elements_are_ignored() {
    let parsed = from_str(
        "<package><export><name>x</name><build_depend>y</build_depend></export>\
         <name>n</name><depend>d</depend></package>",
    )
    .unwrap();
    assert_eq!(parsed.name, "n");
    assert_eq!(parsed.deps, vec![dep("d")]);
}

#[test]
fn nested_name_only_in_unrecognized_element_gives_missing_name() {
    assert_eq!(
        from_str("<package><foo><name>foo</name></foo></package>"),
        Err(ParseError::MissingName)
    );
}

#[test]
fn unmatched_close_at_top_is_refused() {
    let items = vec![XmlItem::Close("package".to_string())];
    assert_eq!(
        parse_items(&".".to_string(), &items),
        Err(ParseError::UnmatchedClose)
    );
}
