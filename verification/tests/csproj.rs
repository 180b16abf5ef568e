use csprojtool::csproj::parse_project_file;
use csprojtool::csproj::project_file_from_nodes;
use csprojtool::csproj::read_and_parse_project;
use csprojtool::csproj::reference_path;
use csprojtool::csproj::strip_bom;
use csprojtool::csproj::Error;
use csprojtool::csproj::PackageReference;
use csprojtool::csproj::Project;
use csprojtool::csproj::ProjectFile;
use csprojtool::csproj::ResolvedReference;
use csprojtool::path_extensions::Component;
use csprojtool::path_extensions::FilePath;
use csprojtool::xml::XmlAttribute;
use csprojtool::xml::XmlNode;

const SDK_PROJECT: &str = r#"<Project Sdk="Microsoft.NET.Sdk">
  <PropertyGroup>
    <OutputType>Exe</OutputType>
    <TargetFrameworks>netstandard2.0;net48;net48</TargetFrameworks>
    <TargetFramework>net6.0</TargetFramework>
  </PropertyGroup>
  <ItemGroup>
    <ProjectReference Include="..\Common\Lib\Lib.csproj" />
    <ProjectReference Include="..\Other\Other.csproj" />
    <ProjectReference />
    <PackageReference Include="Newtonsoft.Json" Version="13.0.1" />
    <PackageReference Include="NoVersion" />
    <PackageReference Version="1.0.0" />
  </ItemGroup>
</Project>"#;

const LEGACY_PROJECT: &str = r#"<?xml version="1.0" encoding="utf-8"?>
<Project ToolsVersion="15.0" xmlns="http://schemas.microsoft.com/developer/msbuild/2003">
  <PropertyGroup>
    <OutputType>Library</OutputType>
    <TargetFrameworkVersion>v4.7.1</TargetFrameworkVersion>
  </PropertyGroup>
</Project>"#;

fn strings(items: &[&str]) -> Vec<String> {
    items.iter().map(|s| s.to_string()).collect()
}

fn path(names: &[&str]) -> FilePath {
    FilePath {
        components: names
            .iter()
            .map(|n| match *n {
                "/" => Component::RootDir,
                ".." => Component::ParentDir,
                "." => Component::CurDir,
                name => Component::Normal(name.to_string()),
            })
            .collect(),
    }
}

fn element(name: &str, text: Option<&str>, attributes: &[(&str, &str)]) -> XmlNode {
    XmlNode {
        parent: Some(0),
        is_element: true,
        name: name.to_string(),
        text: text.map(|t| t.to_string()),
        attributes: attributes
            .iter()
            .map(|(n, v)| XmlAttribute {
                name: n.to_string(),
                value: v.to_string(),
            })
            .collect(),
    }
}

fn root() -> XmlNode {
    XmlNode {
        parent: None,
        is_element: false,
        name: String::new(),
        text: None,
        attributes: Vec::new(),
    }
}

#[test]
fn sdk_project_is_read_off() {
    let file = parse_project_file(SDK_PROJECT.as_bytes()).unwrap();
    assert_eq!(
        file,
        ProjectFile {
            is_sdk: true,
            is_exe: true,
            target_frameworks: strings(&["net48", "net6.0", "netstandard2.0"]),
            reference_includes: strings(&[r"..\Common\Lib\Lib.csproj", r"..\Other\Other.csproj"]),
            package_references: vec![PackageReference {
                name: "Newtonsoft.Json".to_string(),
                version: "13.0.1".to_string(),
            }],
        }
    );
}

#[test]
fn legacy_project_is_read_off() {
    let file = parse_project_file(LEGACY_PROJECT.as_bytes()).unwrap();
    assert_eq!(
        file,
        ProjectFile {
            is_sdk: false,
            is_exe: false,
            target_frameworks: strings(&["net471"]),
            reference_includes: Vec::new(),
            package_references: Vec::new(),
        }
    );
}

#[test]
fn byte_order_mark_changes_nothing() {
    let plain = parse_project_file(SDK_PROJECT.as_bytes()).unwrap();
    let mut marked = vec![0xEF, 0xBB, 0xBF];
    marked.extend_from_slice(SDK_PROJECT.as_bytes());
    assert_eq!(parse_project_file(&marked).unwrap(), plain);
    let mut marked = vec![0xEF, 0xBB, 0xBF];
    marked.extend_from_slice(LEGACY_PROJECT.as_bytes());
    assert_eq!(
        parse_project_file(&marked).unwrap(),
        parse_project_file(LEGACY_PROJECT.as_bytes()).unwrap()
    );
}

#[test]
fn strip_bom_counts_the_mark() {
    assert_eq!(strip_bom(&[0xEF, 0xBB, 0xBF, b'<']), 3);
    assert_eq!(strip_bom(&[0xEF, 0xBB, 0xBF]), 3);
    assert_eq!(strip_bom(&[0xFE, 0xFF, b'<']), 2);
    assert_eq!(strip_bom(&[0xFF, 0xFE, b'<']), 2);
    assert_eq!(strip_bom(&[0xEF, 0xBB]), 0);
    assert_eq!(strip_bom(&[0xEF, 0xBB, b'<']), 0);
    assert_eq!(strip_bom(b"<Project/>"), 0);
    assert_eq!(strip_bom(&[]), 0);
    assert_eq!(strip_bom(&[0xFE]), 0);
}

#[test]
fn win_exe_counts_as_executable() {
    let text = "<Project><PropertyGroup><OutputType>Library</OutputType></PropertyGroup>\
                <PropertyGroup><OutputType>WinExe</OutputType></PropertyGroup></Project>";
    assert!(parse_project_file(text.as_bytes()).unwrap().is_exe);
    let text = "<Project><PropertyGroup><OutputType>exe</OutputType></PropertyGroup></Project>";
    assert!(!parse_project_file(text.as_bytes()).unwrap().is_exe);
    let text = "<Project><PropertyGroup><OutputType> Exe </OutputType></PropertyGroup></Project>";
    assert!(!parse_project_file(text.as_bytes()).unwrap().is_exe);
}

#[test]
fn sdk_is_read_off_the_root_element() {
    let text = "<!-- first --><Project Sdk=\"x\"><Import Project=\"a\"/></Project>";
    assert!(parse_project_file(text.as_bytes()).unwrap().is_sdk);
    let text = "<Project><Import Sdk=\"x\"/></Project>";
    assert!(!parse_project_file(text.as_bytes()).unwrap().is_sdk);
}

#[test]
fn malformed_xml_is_a_parse_failure_with_its_position() {
    match parse_project_file(b"<Project>\n  <PropertyGroup>\n</Project>") {
        Err(Error::Parse(e)) => {
            assert_eq!((e.row, e.col), (3, 1));
            assert!(!e.message.is_empty());
        }
        other => panic!("{:?}", other),
    }
    assert!(matches!(parse_project_file(b""), Err(Error::Parse(_))));
    assert!(matches!(
        parse_project_file(b"no xml at all"),
        Err(Error::Parse(_))
    ));
}

#[test]
fn bytes_that_are_no_text_are_a_read_failure() {
    assert_eq!(
        parse_project_file(&[b'<', 0xC3, 0x28, b'>']),
        Err(Error::Io("stream did not contain valid UTF-8".to_string()))
    );
    assert_eq!(
        parse_project_file(&[0xFF, 0xFE, b'<', 0, b'a', 0, 0xD8, 0]),
        Err(Error::Io("stream did not contain valid UTF-8".to_string()))
    );
}

#[test]
fn unparseable_framework_version_fails_the_project() {
    let text = "<Project><PropertyGroup><TargetFrameworkVersion>4.7</TargetFrameworkVersion>\
                </PropertyGroup></Project>";
    assert_eq!(
        parse_project_file(text.as_bytes()),
        Err(Error::FrameworkVersion("4.7".to_string()))
    );
    let text = "<Project><PropertyGroup><TargetFrameworkVersion/></PropertyGroup></Project>";
    assert_eq!(
        parse_project_file(text.as_bytes()),
        Err(Error::FrameworkVersion(String::new()))
    );
    let text = "<Project><PropertyGroup><TargetFrameworkVersion> v3.5 </TargetFrameworkVersion>\
                <TargetFrameworkVersion>v3.5</TargetFrameworkVersion></PropertyGroup></Project>";
    assert_eq!(
        parse_project_file(text.as_bytes()).unwrap().target_frameworks,
        strings(&["net35"])
    );
}

#[test]
fn frameworks_are_split_sorted_and_kept_once() {
    let text = "<Project><PropertyGroup><TargetFrameworks>b;a;;b</TargetFrameworks>\
                <TargetFramework>a</TargetFramework><TargetFramework>Z</TargetFramework>\
                </PropertyGroup></Project>";
    assert_eq!(
        parse_project_file(text.as_bytes()).unwrap().target_frameworks,
        strings(&["", "Z", "a", "b"])
    );
}

#[test]
fn nodes_are_read_off_whatever_they_hold() {
    let nodes = vec![
        root(),
        element("Project", None, &[("Sdk", "x")]),
        element("OutputType", Some("WinExe"), &[]),
        element("ProjectReference", None, &[("Include", "a"), ("Include", "b")]),
        element("PackageReference", None, &[("Version", "1"), ("Include", "p")]),
    ];
    let file = project_file_from_nodes(&nodes).unwrap();
    assert!(file.is_sdk);
    assert!(file.is_exe);
    assert_eq!(file.reference_includes, strings(&["a"]));
    assert_eq!(
        file.package_references,
        vec![PackageReference {
            name: "p".to_string(),
            version: "1".to_string()
        }]
    );
    assert_eq!(
        project_file_from_nodes(&Vec::new()).unwrap(),
        ProjectFile {
            is_sdk: false,
            is_exe: false,
            target_frameworks: Vec::new(),
            reference_includes: Vec::new(),
            package_references: Vec::new(),
        }
    );
}

#[test]
fn reference_path_joins_and_simplifies() {
    let dir = path(&["/", "work", "App"]);
    assert_eq!(
        reference_path(&dir, &path(&["..", "Common", ".", "Lib", "Lib.csproj"])),
        path(&["/", "work", "Common", "Lib", "Lib.csproj"])
    );
    assert_eq!(
        reference_path(&dir, &path(&["/", "elsewhere", "x.csproj"])),
        path(&["/", "elsewhere", "x.csproj"])
    );
}

#[test]
fn project_is_made_of_its_file_and_its_references() {
    let file = parse_project_file(SDK_PROJECT.as_bytes()).unwrap();
    let at = path(&["/", "work", "App", "App.csproj"]);
    let lib = path(&["/", "work", "Common", "Lib", "Lib.csproj"]);
    let other = path(&["/", "work", "Other", "Other.csproj"]);
    let references = vec![
        ResolvedReference {
            wanted: lib.clone(),
            found: Some(lib.clone()),
        },
        ResolvedReference {
            wanted: other.clone(),
            found: Some(other.clone()),
        },
    ];
    assert_eq!(
        read_and_parse_project(at.clone(), file.clone(), references),
        Ok(Project {
            path: at.clone(),
            is_sdk: true,
            is_exe: true,
            target_frameworks: strings(&["net48", "net6.0", "netstandard2.0"]),
            project_references: vec![lib.clone(), other.clone()],
            package_references: vec![PackageReference {
                name: "Newtonsoft.Json".to_string(),
                version: "13.0.1".to_string(),
            }],
        })
    );
}

#[test]
fn missing_reference_fails_the_project() {
    let file = parse_project_file(SDK_PROJECT.as_bytes()).unwrap();
    let at = path(&["/", "work", "App", "App.csproj"]);
    let lib = path(&["/", "work", "Common", "Lib", "Lib.csproj"]);
    let other = path(&["/", "work", "Other", "Other.csproj"]);
    let third = path(&["/", "work", "Third.csproj"]);
    let references = vec![
        ResolvedReference {
            wanted: lib.clone(),
            found: Some(lib),
        },
        ResolvedReference {
            wanted: other.clone(),
            found: None,
        },
        ResolvedReference {
            wanted: third,
            found: None,
        },
    ];
    assert_eq!(
        read_and_parse_project(at, file, references),
        Err(Error::UnresolvedReference(other))
    );
}

#[test]
fn errors_say_what_failed() {
    assert_eq!(
        Error::Io("denied".to_string()).to_text('/'),
        "failed to read project: denied"
    );
    assert_eq!(
        Error::FrameworkVersion("4.7".to_string()).to_text('/'),
        "failed to parse project: no such framework version: 4.7"
    );
    assert_eq!(
        Error::UnresolvedReference(path(&["/", "work", "x.csproj"])).to_text('/'),
        "failed to read project: no such project: /work/x.csproj"
    );
    match parse_project_file(b"<a></b>") {
        Err(e) => assert!(e.to_text('/').starts_with("failed to parse project: ")),
        Ok(file) => panic!("{:?}", file),
    }
}
