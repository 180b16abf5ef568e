use csprojtool::csproj::Error;
use csprojtool::csproj::Project;
use csprojtool::dependency_graph::dependency_graph;
use csprojtool::dependency_graph::json_root;
use csprojtool::dependency_graph::serialize_dot;
use csprojtool::dependency_graph::GraphEntry;
use csprojtool::longest_path::longest_paths;
use csprojtool::path_extensions::Component;
use csprojtool::path_extensions::FilePath;

fn path(names: &[&str]) -> FilePath {
    FilePath {
        components: names
            .iter()
            .map(|n| match *n {
                "/" => Component::RootDir,
                ".." => Component::ParentDir,
                "." => Component::CurDir,
                name => Component::Normal(name.to_string()),
            })
            .collect(),
    }
}

fn loaded(at: &[&str], is_sdk: bool, is_exe: bool, references: &[&[&str]]) -> GraphEntry {
    GraphEntry {
        path: path(at),
        outcome: Ok(Project {
            path: path(at),
            is_sdk,
            is_exe,
            target_frameworks: vec!["net48".to_string()],
            project_references: references.iter().map(|r| path(r)).collect(),
            package_references: Vec::new(),
        }),
    }
}

fn failed(at: &[&str], reason: &str) -> GraphEntry {
    GraphEntry {
        path: path(at),
        outcome: Err(Error::Io(reason.to_string())),
    }
}

fn small_graph() -> Vec<GraphEntry> {
    vec![
        loaded(
            &["App", "App.csproj"],
            true,
            true,
            &[
                &["Common", "Lib", "Lib.csproj"],
                &["Mid", "Mid.csproj"],
                &["Gone", "Gone.csproj"],
            ],
        ),
        failed(&["Bad", "Bad.csproj"], "denied"),
        loaded(&["Common", "Lib", "Lib.csproj"], false, false, &[]),
        loaded(
            &["Mid", "Mid.csproj"],
            true,
            false,
            &[&["Common", "Lib", "Lib.csproj"]],
        ),
    ]
}

#[test]
fn dot_text_of_a_small_graph() {
    let expected = r##"// 4 projects
// failed to read and parse Bad\\Bad.csproj: failed to read project: denied
digraph {
  rankdir = "LR";
  n0 [label = < App<BR/><B>App.csproj</B> >, fillcolor = "#7fc79f", style = filled, shape = "box"]
  n1 [label = < Bad<BR/><B>Bad.csproj</B> >, fillcolor = "red", style = filled, shape = "star"]
  n2 [label = < Common<BR/>Lib<BR/><B>Lib.csproj</B> >, fillcolor = "#fdc086", style = filled, shape = "ellipse"]
  n3 [label = < Mid<BR/><B>Mid.csproj</B> >, fillcolor = "#7fc79f", style = filled, shape = "ellipse"]
  n0 -> n2 [color = "#e2e2e2"];
  n0 -> n3;
  // n0 -> Gone\\Gone.csproj: not found
  n3 -> n2;
}
"##;
    assert_eq!(serialize_dot(&small_graph(), '\\'), expected);
}

#[test]
fn dot_text_with_another_separator() {
    let graph = vec![loaded(&["App", "App.csproj"], false, true, &[&["App", "App.csproj"]])];
    let expected = r##"// 1 projects
digraph {
  rankdir = "LR";
  n0 [label = < <B>App/App.csproj</B> >, fillcolor = "#fdc086", style = filled, shape = "box"]
  n0 -> n0 [color = "#e2e2e2"];
}
"##;
    assert_eq!(serialize_dot(&graph, '/'), expected);
}

#[test]
fn dot_text_of_no_projects() {
    assert_eq!(
        serialize_dot(&Vec::new(), '/'),
        "// 0 projects\ndigraph {\n  rankdir = \"LR\";\n}\n"
    );
}

#[test]
fn dot_text_numbers_many_nodes() {
    let graph: Vec<GraphEntry> = (0..12)
        .map(|i| {
            let name = format!("P{:02}", i);
            if i == 0 {
                loaded(&[name.as_str()], true, false, &[])
            } else {
                loaded(&[name.as_str()], true, false, &[&["P00"]])
            }
        })
        .collect();
    let text = serialize_dot(&graph, '/');
    assert!(text.starts_with("// 12 projects\n"));
    assert!(text.contains("  n10 [label = < <B>P10</B> >"));
    assert!(text.contains("  n11 -> n0;\n"));
    assert_eq!(text.matches(" -> n0;").count(), 11);
}

#[test]
fn longest_paths_of_a_chain_and_a_shortcut() {
    // 0 -> 1 -> 2 -> 3 and the shortcut 0 -> 3.
    let edges = vec![(0, 1), (1, 2), (2, 3), (0, 3), (7, 8)];
    let table = longest_paths(4, &edges);
    assert_eq!(table[0], vec![1, 2, 3, 4]);
    assert_eq!(table[1], vec![0, 1, 2, 3]);
    assert_eq!(table[2], vec![0, 0, 1, 2]);
    assert_eq!(table[3], vec![0, 0, 0, 1]);
}

#[test]
fn longest_paths_stay_within_bounds_on_cycles() {
    let n = 80;
    let mut edges = Vec::new();
    for i in 0..n {
        for j in 0..n {
            edges.push((i, j));
        }
    }
    let table = longest_paths(n, &edges);
    assert_eq!(table.len(), n);
    assert!(table.iter().all(|row| row.len() == n));
    assert!(table.iter().all(|row| row.iter().all(|&entry| entry > 2)));
    assert_eq!(table[n - 1][n - 1], u64::MAX);
    assert!(longest_paths(0, &edges).is_empty());
}

#[test]
fn graph_is_taken_from_the_search_root_and_sorted() {
    let root = path(&["/", "work"]);
    let entries = vec![
        loaded(
            &["/", "work", "Mid", "Mid.csproj"],
            true,
            false,
            &[&["/", "work", "Common", "Lib", "Lib.csproj"], &["/", "other", "X.csproj"]],
        ),
        failed(&["/", "work", "Bad", "Bad.csproj"], "denied"),
        loaded(&["/", "work", "Common", "Lib", "Lib.csproj"], false, false, &[]),
    ];
    let expected = vec![
        failed(&["Bad", "Bad.csproj"], "denied"),
        loaded(&["Common", "Lib", "Lib.csproj"], false, false, &[]),
        loaded(
            &["Mid", "Mid.csproj"],
            true,
            false,
            &[&["Common", "Lib", "Lib.csproj"], &["..", "other", "X.csproj"]],
        ),
    ];
    assert_eq!(dependency_graph(&root, entries), expected);
}

#[test]
fn json_holds_the_loaded_projects_only() {
    let root = json_root(small_graph());
    let names: Vec<String> = root.projects.iter().map(|p| p.path.display('/')).collect();
    assert_eq!(
        names,
        vec!["App/App.csproj", "Common/Lib/Lib.csproj", "Mid/Mid.csproj"]
    );
    assert_eq!(root.projects[0].project_references.len(), 3);
    assert!(json_root(vec![failed(&["x"], "y")]).projects.is_empty());
}
