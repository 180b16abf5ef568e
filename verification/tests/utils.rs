use csprojtool::move_command::Destination;
use csprojtool::move_command::MoveCommand;
use csprojtool::path_extensions::Component;
use csprojtool::path_extensions::FilePath;
use csprojtool::utils::find_git_root;
use csprojtool::utils::path_extension_is_csproj;
use csprojtool::move_command::ensure_root_namespace_and_assembly_name;
use csprojtool::move_command::looks_like_out_of_tree_relative_path;
use csprojtool::move_command::moved_reference;
use csprojtool::move_command::nested_projects;
use csprojtool::xml_extensions::Element;
use csprojtool::xml_extensions::XMLNode;

fn path(names: &[&str]) -> FilePath {
    FilePath {
        components: names
            .iter()
            .map(|n| match *n {
                "/" => Component::RootDir,
                ".." => Component::ParentDir,
                "." => Component::CurDir,
                name => Component::Normal(name.to_string()),
            })
            .collect(),
    }
}

#[test]
fn git_root_is_the_nearest_directory_with_a_repository() {
    let dir = path(&["/", "work", "repo", "src", "App"]);
    assert_eq!(
        find_git_root(&dir, &vec![false, false, true, false, true]),
        Some(path(&["/", "work", "repo"]))
    );
    assert_eq!(
        find_git_root(&dir, &vec![true, true]),
        Some(path(&["/", "work", "repo", "src", "App"]))
    );
    assert_eq!(
        find_git_root(&dir, &vec![false, false, false, false, true, true]),
        Some(path(&["/"]))
    );
}

#[test]
fn git_root_is_missing_where_no_directory_has_a_repository() {
    let dir = path(&["/", "work", "repo"]);
    assert_eq!(find_git_root(&dir, &vec![false, false, false]), None);
    assert_eq!(find_git_root(&dir, &Vec::new()), None);
    assert_eq!(
        find_git_root(&dir, &vec![false, false, false, false, true]),
        None
    );
    assert_eq!(
        find_git_root(&path(&["a"]), &vec![false, true]),
        Some(FilePath::new())
    );
}

#[test]
fn project_files_are_known_by_their_extension() {
    assert!(path_extension_is_csproj(&path(&["/", "work", "App.csproj"])));
    assert!(path_extension_is_csproj(&path(&["a..csproj"])));
    assert!(!path_extension_is_csproj(&path(&[".csproj"])));
    assert!(!path_extension_is_csproj(&path(&["App.csproj", ".."])));
    assert!(!path_extension_is_csproj(&path(&["App.CSPROJ"])));
    assert!(!path_extension_is_csproj(&path(&["App.csproj.bak"])));
    assert!(!path_extension_is_csproj(&path(&["csproj"])));
    assert!(!path_extension_is_csproj(&path(&["/"])));
    assert!(!path_extension_is_csproj(&FilePath::new()));
}

#[test]
fn move_to_a_project_file_keeps_its_name() {
    let command = MoveCommand::new(path(&["Old"]), path(&["libs", ".", "New", "Fresh.csproj"]));
    assert_eq!(command.source(), &path(&["Old"]));
    assert_eq!(
        command.destination(&path(&["/", "work"])),
        Some(Destination {
            dir: path(&["/", "work", "libs", "New"]),
            file: path(&["/", "work", "libs", "New", "Fresh.csproj"]),
        })
    );
}

#[test]
fn move_to_a_directory_names_the_file_after_it() {
    let command = MoveCommand::new(path(&["Old"]), path(&["..", "libs", "New"]));
    assert_eq!(
        command.destination(&path(&["/", "work", "src"])),
        Some(Destination {
            dir: path(&["/", "work", "libs", "New"]),
            file: path(&["/", "work", "libs", "New", "New.csproj"]),
        })
    );
}

#[test]
fn move_to_nowhere_has_no_destination() {
    let command = MoveCommand::new(path(&["Old"]), path(&["..", ".."]));
    assert_eq!(command.destination(&path(&["/", "work", "src"])), None);
    let command = MoveCommand::new(path(&["Old"]), FilePath::new());
    assert_eq!(command.destination(&FilePath::new()), None);
}

#[test]
fn paths_that_lead_out_are_told() {
    assert!(looks_like_out_of_tree_relative_path(r"..\Common\Lib.csproj"));
    assert!(looks_like_out_of_tree_relative_path("a/../b"));
    assert!(looks_like_out_of_tree_relative_path("../"));
    assert!(looks_like_out_of_tree_relative_path(r"x...\y"));
    assert!(!looks_like_out_of_tree_relative_path(".."));
    assert!(!looks_like_out_of_tree_relative_path("a/b.c"));
    assert!(!looks_like_out_of_tree_relative_path("./a"));
    assert!(!looks_like_out_of_tree_relative_path(". ./a"));
    assert!(!looks_like_out_of_tree_relative_path(""));
    let pattern = regex::Regex::new(r"\.\.[/\\]").unwrap();
    for text in ["..", "../", "..\\", "a..b/", "a../", "...", "./.", "/..", "\\..\\x", "é../"] {
        assert_eq!(
            looks_like_out_of_tree_relative_path(text),
            pattern.is_match(text),
            "{:?}",
            text
        );
    }
}

#[test]
fn nested_projects_are_found() {
    let projects = vec![
        path(&["/", "work", "Old", "Old.csproj"]),
        path(&["/", "work", "Old", "Inner", "Inner.csproj"]),
        path(&["/", "work", "Older", "Older.csproj"]),
        path(&["/", "work", "Old", "Other.csproj"]),
    ];
    assert_eq!(
        nested_projects(
            &projects,
            &path(&["/", "work", "Old"]),
            &path(&["/", "work", "Old", "Old.csproj"])
        ),
        vec![
            path(&["/", "work", "Old", "Inner", "Inner.csproj"]),
            path(&["/", "work", "Old", "Other.csproj"]),
        ]
    );
    assert!(nested_projects(
        &projects,
        &path(&["/", "work", "Older"]),
        &path(&["/", "work", "Older", "Older.csproj"])
    )
    .is_empty());
}

#[test]
fn references_to_the_moved_project_are_mended() {
    let dir = path(&["/", "work", "App"]);
    let old_file = path(&["/", "work", "Old", "Old.csproj"]);
    let new_file = path(&["/", "work", "libs", "New", "New.csproj"]);
    assert_eq!(
        moved_reference(&dir, &path(&["..", "Old", ".", "Old.csproj"]), &old_file, &new_file),
        Some(path(&["..", "libs", "New", "New.csproj"]))
    );
    assert_eq!(
        moved_reference(&dir, &path(&["..", "Other", "Old.csproj"]), &old_file, &new_file),
        None
    );
}

#[test]
fn project_gets_its_names() {
    let named = |name: &str, value: &str| {
        let mut e = Element::new(name);
        e.children.push(XMLNode::Text(value.to_string()));
        XMLNode::Element(e)
    };
    let group = |children: Vec<XMLNode>| {
        let mut e = Element::new("PropertyGroup");
        e.children = children;
        XMLNode::Element(e)
    };
    let mut project = Element::new("Project");
    project.children = vec![
        XMLNode::Text("\n".to_string()),
        group(vec![named("OutputType", "Exe")]),
        group(vec![named("AssemblyName", "Kept")]),
    ];
    assert!(ensure_root_namespace_and_assembly_name(&mut project, "Old"));
    assert_eq!(
        project.children,
        vec![
            XMLNode::Text("\n".to_string()),
            group(vec![named("OutputType", "Exe"), named("RootNamespace", "Old")]),
            group(vec![named("AssemblyName", "Kept")]),
        ]
    );
    assert!(!ensure_root_namespace_and_assembly_name(&mut project, "Again"));

    let mut bare = Element::new("Project");
    bare.children = vec![group(vec![])];
    assert!(ensure_root_namespace_and_assembly_name(&mut bare, "Old"));
    assert_eq!(
        bare.children,
        vec![group(vec![named("RootNamespace", "Old"), named("AssemblyName", "Old")])]
    );

    let mut without_group = Element::new("Project");
    without_group.children = vec![named("ItemGroup", "x")];
    assert!(!ensure_root_namespace_and_assembly_name(&mut without_group, "Old"));
    assert_eq!(without_group.children, vec![named("ItemGroup", "x")]);
}
