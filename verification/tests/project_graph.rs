use csprojtool::csproj::Error;
use csprojtool::csproj::Project;
use csprojtool::path_extensions::Component;
use csprojtool::path_extensions::FilePath;
use csprojtool::project_graph::parse_projects;
use csprojtool::project_graph::ProjectGraph;

fn path(name: &str) -> FilePath {
    FilePath {
        components: vec![Component::RootDir, Component::Normal(name.to_string())],
    }
}

fn project(name: &str, references: &[&str]) -> Result<Project, Error> {
    Ok(Project {
        path: path(name),
        is_sdk: true,
        is_exe: false,
        target_frameworks: Vec::new(),
        project_references: references.iter().map(|r| path(r)).collect(),
        package_references: Vec::new(),
    })
}

/// What loading a project gives, in a world of a few files.
fn load(world: &[(&str, &[&str])], at: &FilePath) -> Result<Project, Error> {
    for (name, references) in world {
        if &path(name) == at {
            return project(name, references);
        }
    }
    Err(Error::Io("not found".to_string()))
}

fn build(world: &[(&str, &[&str])], seeds: &[&str], follow: bool) -> (ProjectGraph, usize) {
    let mut graph = parse_projects(seeds.iter().map(|s| path(s)).collect(), follow);
    let mut loads = 0;
    loop {
        let next = match graph.pending() {
            Some(next) => next.clone(),
            None => break,
        };
        assert!(graph.record(load(world, &next)));
        loads += 1;
        assert!(loads <= 100);
    }
    assert!(graph.is_complete());
    (graph, loads)
}

fn node_names(graph: &ProjectGraph) -> Vec<String> {
    let mut names: Vec<String> = graph.nodes.iter().map(|n| n.path.display('/')).collect();
    names.sort();
    names
}

const WORLD: &[(&str, &[&str])] = &[
    ("A", &["B", "C"]),
    ("B", &["C", "A"]),
    ("C", &["C", "Missing"]),
    ("D", &["A"]),
    ("E", &[]),
];

#[test]
fn every_reachable_project_appears_exactly_once() {
    let (graph, loads) = build(WORLD, &["A"], true);
    assert_eq!(node_names(&graph), vec!["/A", "/B", "/C", "/Missing"]);
    assert_eq!(loads, 4);
    assert!(graph.nodes.iter().all(|n| n.outcome.is_some()));
}

#[test]
fn cycles_do_not_load_a_project_twice() {
    let (graph, loads) = build(&[("A", &["B"]), ("B", &["A"])], &["A", "B", "A"], true);
    assert_eq!(node_names(&graph), vec!["/A", "/B"]);
    assert_eq!(loads, 2);
    let (graph, loads) = build(&[("A", &["A", "A"])], &["A"], true);
    assert_eq!(node_names(&graph), vec!["/A"]);
    assert_eq!(loads, 1);
}

#[test]
fn failed_projects_stay_nodes_without_references() {
    let (graph, _) = build(WORLD, &["C"], true);
    assert_eq!(node_names(&graph), vec!["/C", "/Missing"]);
    let missing = graph
        .nodes
        .iter()
        .find(|n| n.path == path("Missing"))
        .unwrap();
    assert_eq!(
        missing.outcome,
        Some(Err(Error::Io("not found".to_string())))
    );
}

#[test]
fn without_following_the_graph_stays_with_its_seeds() {
    let (graph, loads) = build(WORLD, &["D", "Missing", "D"], false);
    assert_eq!(node_names(&graph), vec!["/D", "/Missing"]);
    assert_eq!(loads, 2);
    assert_eq!(graph.seed_count, 2);
}

#[test]
fn building_twice_gives_the_same_graph() {
    let (first, _) = build(WORLD, &["D", "E"], true);
    let (second, _) = build(WORLD, &["D", "E"], true);
    assert_eq!(first, second);
    let (other_order, _) = build(WORLD, &["E", "D"], true);
    assert_eq!(node_names(&first), node_names(&other_order));
    for node in &first.nodes {
        let twin = other_order
            .nodes
            .iter()
            .find(|n| n.path == node.path)
            .unwrap();
        assert_eq!(twin.outcome, node.outcome);
    }
}

#[test]
fn projects_are_discovered_in_order() {
    let (graph, _) = build(WORLD, &["D"], true);
    let order: Vec<String> = graph.nodes.iter().map(|n| n.path.display('/')).collect();
    assert_eq!(order, vec!["/D", "/A", "/B", "/C", "/Missing"]);
}

#[test]
fn recording_without_a_pending_project_changes_nothing() {
    let mut graph = parse_projects(Vec::new(), true);
    assert!(graph.pending().is_none());
    assert!(!graph.record(project("A", &["B"])));
    assert!(graph.nodes.is_empty());
    assert!(graph.is_complete());
}

#[test]
fn entries_are_the_loaded_projects() {
    let (graph, _) = build(WORLD, &["B"], true);
    let entries = graph.into_entries();
    let names: Vec<String> = entries.iter().map(|e| e.path.display('/')).collect();
    assert_eq!(names, vec!["/B", "/C", "/A", "/Missing"]);
    assert_eq!(entries[1].outcome, project("C", &["C", "Missing"]));

    let mut partial = parse_projects(vec![path("A"), path("E")], true);
    assert!(partial.record(load(WORLD, &path("A"))));
    assert!(partial.contains(&path("C")));
    assert!(!partial.contains(&path("D")));
    let entries = partial.into_entries();
    assert_eq!(entries.len(), 1);
    assert_eq!(entries[0].path, path("A"));
}
