use csprojtool::csproj::Project;
use csprojtool::list::follow_references;
use csprojtool::list::list;
use csprojtool::list::Options;
use csprojtool::path_extensions::Component;
use csprojtool::path_extensions::FilePath;

fn path(names: &[&str]) -> FilePath {
    FilePath {
        components: names
            .iter()
            .map(|n| match *n {
                "/" => Component::RootDir,
                ".." => Component::ParentDir,
                "." => Component::CurDir,
                name => Component::Normal(name.to_string()),
            })
            .collect(),
    }
}

fn project(at: &[&str], references: &[&[&str]]) -> Project {
    Project {
        path: path(at),
        is_sdk: true,
        is_exe: false,
        target_frameworks: Vec::new(),
        project_references: references.iter().map(|r| path(r)).collect(),
        package_references: Vec::new(),
    }
}

fn listed(
    search: &[&str],
    incoming: bool,
    outgoing: bool,
    projects: Vec<Project>,
) -> Vec<String> {
    let search_path = path(search);
    let options = Options {
        search_path: &search_path,
        follow_incoming_project_references: incoming,
        follow_outgoing_project_references: outgoing,
    };
    list(options, &path(&["/", "work"]), projects)
        .iter()
        .map(|p| p.path.display('/'))
        .collect()
}

const A: &[&str] = &["/", "work", "A", "A.csproj"];
const B: &[&str] = &["/", "work", "B", "B.csproj"];
const C: &[&str] = &["/", "work", "C", "C.csproj"];
const D: &[&str] = &["/", "work", "D", "D.csproj"];

fn a_refers_to_b() -> Vec<Project> {
    vec![project(B, &[]), project(A, &[B])]
}

#[test]
fn listing_at_a_with_outgoing_gives_a_and_b() {
    assert_eq!(
        listed(&["A", "A.csproj"], false, true, a_refers_to_b()),
        vec!["/work/A/A.csproj", "/work/B/B.csproj"]
    );
    assert_eq!(
        listed(&[".", "A", "A.csproj"], true, true, a_refers_to_b()),
        vec!["/work/A/A.csproj", "/work/B/B.csproj"]
    );
}

#[test]
fn listing_at_b_with_outgoing_only_gives_b() {
    assert_eq!(
        listed(&["B", "B.csproj"], false, true, a_refers_to_b()),
        vec!["/work/B/B.csproj"]
    );
}

#[test]
fn listing_at_b_with_incoming_gives_a_and_b() {
    assert_eq!(
        listed(&["B", "B.csproj"], true, false, a_refers_to_b()),
        vec!["/work/A/A.csproj", "/work/B/B.csproj"]
    );
}

#[test]
fn listing_without_following_gives_what_lies_below() {
    assert_eq!(
        listed(&["A"], false, false, a_refers_to_b()),
        vec!["/work/A/A.csproj"]
    );
    assert_eq!(
        listed(&["."], false, false, a_refers_to_b()),
        vec!["/work/A/A.csproj", "/work/B/B.csproj"]
    );
    assert_eq!(
        listed(&["/", "work", "B"], false, false, a_refers_to_b()),
        vec!["/work/B/B.csproj"]
    );
    assert!(listed(&["Nowhere"], true, true, a_refers_to_b()).is_empty());
}

#[test]
fn incoming_is_followed_before_outgoing() {
    // A and C both refer to B; D refers to nothing and nothing refers to it.
    let projects = || {
        vec![
            project(D, &[]),
            project(C, &[B]),
            project(B, &[]),
            project(A, &[B, &["/", "work", "Gone", "Gone.csproj"]]),
        ]
    };
    assert_eq!(
        listed(&["A"], false, true, projects()),
        vec!["/work/A/A.csproj", "/work/B/B.csproj"]
    );
    assert_eq!(
        listed(&["B"], true, true, projects()),
        vec!["/work/A/A.csproj", "/work/B/B.csproj", "/work/C/C.csproj"]
    );
    assert_eq!(
        listed(&["A"], true, true, projects()),
        vec!["/work/A/A.csproj", "/work/B/B.csproj"]
    );
    assert_eq!(listed(&["D"], true, true, projects()), vec!["/work/D/D.csproj"]);
}

#[test]
fn selection_spreads_through_cycles() {
    let projects = vec![project(A, &[B]), project(B, &[C]), project(C, &[A])];
    assert_eq!(
        listed(&["B"], false, true, projects),
        vec!["/work/A/A.csproj", "/work/B/B.csproj", "/work/C/C.csproj"]
    );
}

#[test]
fn following_references_twice_changes_nothing() {
    let edges = vec![(0, 1), (1, 2), (2, 1), (3, 4), (4, 4), (5, 0), (9, 1), (1, 9)];
    for outgoing in [false, true] {
        for start in 0..6 {
            let mut once = vec![false; 6];
            once[start] = true;
            follow_references(&mut once, &edges, outgoing);
            let mut twice = once.clone();
            follow_references(&mut twice, &edges, outgoing);
            assert_eq!(once, twice);
            assert!(once[start]);
        }
    }
}

#[test]
fn following_references_reaches_what_a_walk_reaches() {
    let edges = vec![(0, 1), (1, 2), (2, 1), (3, 4), (4, 4), (5, 0)];
    let mut included = vec![true, false, false, false, false, false];
    follow_references(&mut included, &edges, true);
    assert_eq!(included, vec![true, true, true, false, false, false]);
    let mut included = vec![false, false, true, false, false, false];
    follow_references(&mut included, &edges, false);
    assert_eq!(included, vec![true, true, true, false, false, true]);
    let mut included = vec![false, false, false, false, true, false];
    follow_references(&mut included, &edges, false);
    assert_eq!(included, vec![false, false, false, true, true, false]);
    let mut none: Vec<bool> = Vec::new();
    follow_references(&mut none, &edges, true);
    assert!(none.is_empty());
}
