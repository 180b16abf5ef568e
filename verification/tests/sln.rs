use csprojtool::path_extensions::Component;
use csprojtool::path_extensions::FilePath;
use csprojtool::sln::create_solution;
use csprojtool::sln::file::guid_from_hash;
use csprojtool::sln::file::join_str_path;
use csprojtool::sln::file::Directory;
use csprojtool::sln::file::Guid;
use csprojtool::sln::file::InnerNode;
use csprojtool::sln::file::InnerProject;
use csprojtool::sln::file::Node;
use csprojtool::sln::file::Project;
use csprojtool::sln::file::SolutionError;
use csprojtool::sln::file::SolutionFile;
use csprojtool::sln::file::FOLDER_UUID;
use csprojtool::sln::file::HEADER;
use csprojtool::sln::file::PROJECT_UUID;
use csprojtool::sln::types::Configuration;
use csprojtool::sln::types::ProcessorArchitecture;
use csprojtool::sln::types::CONFIGURATIONS;
use csprojtool::sln::types::PROCESSOR_ARCHITECTURES;
use csprojtool::sln::SolutionProject;
use siphasher::sip128::Hasher128;
use std::hash::Hash;
use uuid::Uuid;

fn path(names: &[&str]) -> FilePath {
    FilePath {
        components: names
            .iter()
            .map(|n| match *n {
                "/" => Component::RootDir,
                ".." => Component::ParentDir,
                "." => Component::CurDir,
                name => Component::Normal(name.to_string()),
            })
            .collect(),
    }
}

fn project(at: &[&str]) -> SolutionProject {
    SolutionProject {
        path: path(at),
        guid: None,
    }
}

/// The identifier of a text, computed with the hasher itself.
fn hashed(text: &str) -> Uuid {
    let mut hasher = siphasher::sip128::SipHasher::new();
    text.to_string().hash(&mut hasher);
    Uuid::from_bytes(hasher.finish128().as_bytes())
}

fn braced(id: Uuid) -> String {
    format!("{{{:X}}}", id)
}

fn text_of(solution: &SolutionFile) -> String {
    let mut text = String::new();
    solution.write(&mut text);
    text
}

fn common_lib_and_app() -> SolutionFile {
    create_solution(
        &path(&["All.sln"]),
        &path(&["/", "work"]),
        vec![
            project(&["/", "work", "Common", "Lib", "Lib.csproj"]),
            project(&["/", "work", "App", "App.csproj"]),
        ],
    )
    .unwrap()
}

#[test]
fn folder_of_a_single_project_of_its_name_is_left_out() {
    let text = text_of(&common_lib_and_app());
    let folder = braced(Uuid::from_u128(FOLDER_UUID));
    let kind = braced(Uuid::from_u128(PROJECT_UUID));
    let app = braced(hashed(r"App\App.csproj"));
    let common = braced(hashed("Common"));
    let lib = braced(hashed(r"Common\Lib\Lib.csproj"));
    let lib_folder = braced(hashed(r"Common\Lib"));
    let app_folder = braced(hashed("App"));

    let mut expected = String::from(HEADER);
    expected += &format!(
        "Project(\"{}\") = \"App\", \"App\\App.csproj\", \"{}\"\nEndProject\n",
        kind, app
    );
    expected += &format!(
        "Project(\"{}\") = \"Common\", \"Common\", \"{}\"\nEndProject\n",
        folder, common
    );
    expected += &format!(
        "Project(\"{}\") = \"Lib\", \"Common\\Lib\\Lib.csproj\", \"{}\"\nEndProject\n",
        kind, lib
    );
    expected += "Global\n";
    expected += "\tGlobalSection(SolutionConfigurationPlatforms) = preSolution\n";
    expected += "\t\tDebug|Any CPU = Debug|Any CPU\n";
    expected += "\t\tDebug|x64 = Debug|x64\n";
    expected += "\t\tDebug|x86 = Debug|x86\n";
    expected += "\t\tRelease|Any CPU = Release|Any CPU\n";
    expected += "\t\tRelease|x64 = Release|x64\n";
    expected += "\t\tRelease|x86 = Release|x86\n";
    expected += "\tEndGlobalSection\n";
    expected += "\tGlobalSection(SolutionProperties) = preSolution\n";
    expected += "\t\tHideSolutionNode = FALSE\n";
    expected += "\tEndGlobalSection\n";
    expected += "\tGlobalSection(ProjectConfigurationPlatforms) = postSolution\n";
    for id in [&app, &lib] {
        for conf in ["Debug", "Release"] {
            for arch in ["Any CPU", "x64", "x86"] {
                for suffix in ["ActiveCfg", "Build.0"] {
                    expected += &format!(
                        "\t\t{}.{}|{}.{} = {}|Any CPU\n",
                        id, conf, arch, suffix, conf
                    );
                }
            }
        }
    }
    expected += "\tEndGlobalSection\n";
    expected += "\tGlobalSection(NestedProjects) = preSolution\n";
    expected += &format!("\t\t{} = {}\n", lib, common);
    expected += "\tEndGlobalSection\n";
    expected += "EndGlobal\n";
    assert_eq!(text, expected);
    assert!(!text.contains(&lib_folder));
    assert!(!text.contains(&app_folder));
}

#[test]
fn identifiers_are_the_same_in_every_build() {
    let first = common_lib_and_app();
    let second = common_lib_and_app();
    assert_eq!(first, second);
    assert_eq!(text_of(&first), text_of(&second));
    let other_order = create_solution(
        &path(&["/", "work", "Other.sln"]),
        &path(&["/", "elsewhere"]),
        vec![
            project(&["/", "work", "App", "App.csproj"]),
            project(&["/", "work", "Common", "Lib", "Lib.csproj"]),
        ],
    )
    .unwrap();
    assert_eq!(first, other_order);
}

#[test]
fn identifiers_are_hashes_of_the_paths() {
    assert_eq!(
        guid_from_hash(r"Common\Lib").value,
        hashed(r"Common\Lib").as_u128()
    );
    assert_eq!(guid_from_hash("").value, hashed("").as_u128());
    assert_ne!(guid_from_hash("a").value, guid_from_hash("b").value);
    assert_ne!(guid_from_hash("a").value, u128::from(b'a'));
    assert_eq!(guid_from_hash("Common"), guid_from_hash("Common"));
}

#[test]
fn identifiers_are_written_in_upper_case_with_hyphens() {
    assert_eq!(
        Guid { value: FOLDER_UUID }.to_text(),
        "2150E333-8FDC-42A3-9474-1A3956D46DE8"
    );
    assert_eq!(
        Guid { value: PROJECT_UUID }.to_text(),
        "FAE04EC0-301F-11D3-BF4B-00C04F79EFBC"
    );
    assert_eq!(
        Guid { value: 0 }.to_text(),
        "00000000-0000-0000-0000-000000000000"
    );
    for value in [1u128, u128::MAX, 0x0123456789abcdef_fedcba9876543210, 0xa << 124] {
        assert_eq!(
            Guid { value }.to_text(),
            format!("{:X}", Uuid::from_u128(value))
        );
    }
}

#[test]
fn given_identifier_is_kept() {
    let given = Guid {
        value: 0x11112222333344445555666677778888,
    };
    let solution = create_solution(
        &path(&["/", "work", "All.sln"]),
        &path(&["/"]),
        vec![SolutionProject {
            path: path(&["/", "work", "Tools", "Build", "Runner.csproj"]),
            guid: Some(given),
        }],
    )
    .unwrap();
    let text = text_of(&solution);
    assert!(text.contains(
        "\") = \"Runner\", \"Tools\\Build\\Runner.csproj\", \"{11112222-3333-4444-5555-666677778888}\"\n"
    ));
    let tools = braced(hashed("Tools"));
    let build = braced(hashed(r"Tools\Build"));
    assert!(text.contains(&format!("\t\t{} = {}\n", build, tools)));
    assert!(text.contains(&format!(
        "\t\t{{11112222-3333-4444-5555-666677778888}} = {}\n",
        build
    )));
}

#[test]
fn children_stand_in_the_order_of_their_names() {
    let solution = create_solution(
        &path(&["All.sln"]),
        &path(&["/", "work"]),
        vec![
            project(&["/", "work", "src", "b", "B.csproj"]),
            project(&["/", "work", "src", "a", "A.csproj"]),
            project(&["/", "work", "src", "Z.csproj"]),
            project(&["/", "work", "src", "a", "A2.csproj"]),
            project(&["/", "work", "src", "a", "A.csproj"]),
        ],
    )
    .unwrap();
    let names: Vec<(bool, String)> = solution
        .entries()
        .iter()
        .map(|e| (e.is_folder, e.name.clone()))
        .collect();
    assert_eq!(
        names,
        vec![
            (true, "src".to_string()),
            (false, "Z".to_string()),
            (true, "a".to_string()),
            (false, "A".to_string()),
            (false, "A2".to_string()),
            (true, "b".to_string()),
            (false, "B".to_string()),
        ]
    );
    match &solution.root.nodes[0] {
        InnerNode::Directory(src) => {
            assert_eq!(src.path, "src");
            assert_eq!(src.guid.value, hashed("src").as_u128());
            assert_eq!(src.nodes.len(), 3);
        }
        other => panic!("{:?}", other),
    }
}

#[test]
fn project_outside_the_solution_is_refused() {
    assert_eq!(
        create_solution(
            &path(&["/", "work", "sub", "All.sln"]),
            &path(&["/"]),
            vec![
                project(&["/", "work", "sub", "In.csproj"]),
                project(&["/", "work", "Out.csproj"]),
            ],
        ),
        Err(SolutionError::OutsideSolution)
    );
}

#[test]
fn project_path_with_other_components_is_refused() {
    assert_eq!(
        create_solution(
            &path(&["All.sln"]),
            &FilePath::new(),
            vec![project(&["/", "work", "In.csproj"])],
        ),
        Err(SolutionError::UnexpectedComponent)
    );
}

#[test]
fn project_used_as_directory_is_refused() {
    assert_eq!(
        create_solution(
            &path(&["All.sln"]),
            &path(&["/", "work"]),
            vec![
                project(&["/", "work", "A.csproj"]),
                project(&["/", "work", "A.csproj", "B.csproj"]),
            ],
        ),
        Err(SolutionError::ProjectUsedAsDirectory)
    );
}

#[test]
fn solution_without_a_directory_is_refused() {
    assert_eq!(
        create_solution(&path(&["/"]), &path(&["/", "work"]), Vec::new()),
        Err(SolutionError::NoSolutionDirectory)
    );
    assert_eq!(
        create_solution(&FilePath::new(), &FilePath::new(), Vec::new()),
        Err(SolutionError::NoSolutionDirectory)
    );
}

#[test]
fn empty_solution_has_its_sections() {
    let solution = create_solution(&path(&["All.sln"]), &path(&["/", "work"]), Vec::new()).unwrap();
    let text = text_of(&solution);
    assert!(text.starts_with("\nMicrosoft Visual Studio Solution File, Format Version 12.00\n"));
    assert!(text.ends_with(
        "\tGlobalSection(NestedProjects) = preSolution\n\tEndGlobalSection\nEndGlobal\n"
    ));
    assert!(solution.entries().is_empty());
}

#[test]
fn folder_tree_takes_projects_by_name() {
    let names = |items: &[&str]| -> Vec<String> { items.iter().map(|s| s.to_string()).collect() };
    let tree = Directory::new()
        .insert(&names(&["b", "B.csproj"]), None)
        .unwrap()
        .insert(&names(&["a"]), None)
        .unwrap()
        .insert(&names(&["b", "A.csproj"]), None)
        .unwrap();
    assert_eq!(tree.nodes.len(), 2);
    assert_eq!(tree.nodes[0].0, "a");
    assert_eq!(tree.nodes[0].1, Node::Project(Project { guid: None }));
    match &tree.nodes[1].1 {
        Node::Directory(b) => {
            let children: Vec<&str> = b.nodes.iter().map(|(n, _)| n.as_str()).collect();
            assert_eq!(children, vec!["A.csproj", "B.csproj"]);
        }
        other => panic!("{:?}", other),
    }
    let replaced = tree.insert(&names(&["b"]), None).unwrap();
    assert_eq!(replaced.nodes[1].1, Node::Project(Project { guid: None }));
    assert_eq!(
        replaced.insert(&names(&["a", "x", "y"]), None),
        Err(SolutionError::ProjectUsedAsDirectory)
    );
}

#[test]
fn project_name_loses_its_ending() {
    let inner = InnerProject::new("Common\\Lib", "Lib.csproj".to_string(), Project { guid: None });
    assert_eq!(inner.name, "Lib");
    assert_eq!(inner.path, "Common\\Lib\\Lib.csproj");
    assert_eq!(inner.guid.value, hashed("Common\\Lib\\Lib.csproj").as_u128());
    let odd = InnerProject::new("", "Readme.txt".to_string(), Project { guid: None });
    assert_eq!(odd.name, "Readme.txt");
    assert_eq!(odd.path, "Readme.txt");
    let bare = InnerProject::new("", ".csproj".to_string(), Project { guid: None });
    assert_eq!(bare.name, "");
}

#[test]
fn project_configuration_lists_every_configuration_and_platform() {
    let inner = InnerProject::new(
        "",
        "A.csproj".to_string(),
        Project {
            guid: Some(Guid { value: 0xABC }),
        },
    );
    let mut text = String::from("x");
    inner.write_project_configuration(&mut text);
    let id = "{00000000-0000-0000-0000-000000000ABC}";
    assert!(text.starts_with(&format!("x\t\t{}.Debug|Any CPU.ActiveCfg = Debug|Any CPU\n", id)));
    assert!(text.ends_with(&format!("\t\t{}.Release|x86.Build.0 = Release|Any CPU\n", id)));
    assert_eq!(text.lines().count(), 12);
}

#[test]
fn join_str_path_joins_with_a_backslash() {
    assert_eq!(join_str_path("", "b"), "b");
    assert_eq!(join_str_path("a", "b"), "a\\b");
    assert_eq!(join_str_path("a\\b", ""), "a\\b\\");
    assert_eq!(join_str_path("", ""), "");
}

#[test]
fn configurations_and_platforms_have_their_names() {
    let configurations: Vec<&str> = CONFIGURATIONS.iter().map(|c| c.name()).collect();
    assert_eq!(configurations, vec!["Debug", "Release"]);
    let platforms: Vec<&str> = PROCESSOR_ARCHITECTURES.iter().map(|a| a.name()).collect();
    assert_eq!(platforms, vec!["Any CPU", "x64", "x86"]);
    assert_eq!(Configuration::Release.name(), "Release");
    assert_eq!(ProcessorArchitecture::X64.name(), "x64");
}
