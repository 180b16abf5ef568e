use csprojtool::path_extensions::comps_eq;
use csprojtool::path_extensions::join_components;
use csprojtool::path_extensions::relative_path;
use csprojtool::path_extensions::Component;
use csprojtool::path_extensions::FilePath;
use csprojtool::path_extensions::PathExt;
use csprojtool::path_extensions::Prefix;

/// Splits a path in Windows notation into its components.
fn windows(text: &str) -> FilePath {
    let mut components = Vec::new();
    let mut rest = text;
    let mut verbatim = false;
    if let Some(tail) = rest.strip_prefix(r"\\?\UNC\") {
        let mut parts = tail.splitn(3, '\\');
        let server = parts.next().unwrap_or("").to_string();
        let share = parts.next().unwrap_or("").to_string();
        rest = &tail[(server.len() + 1 + share.len()).min(tail.len())..];
        components.push(Component::Prefix(Prefix::VerbatimUNC(server, share)));
        verbatim = true;
    } else if let Some(tail) = rest.strip_prefix(r"\\?\") {
        let bytes = tail.as_bytes();
        if bytes.len() >= 2 && bytes[1] == b':' && (bytes.len() == 2 || bytes[2] == b'\\') {
            components.push(Component::Prefix(Prefix::VerbatimDisk(
                bytes[0].to_ascii_uppercase(),
            )));
            rest = &tail[2..];
        } else {
            let end = tail.find('\\').unwrap_or(tail.len());
            components.push(Component::Prefix(Prefix::Verbatim(tail[..end].to_string())));
            rest = &tail[end..];
        }
        verbatim = true;
    } else if let Some(tail) = rest.strip_prefix(r"\\.\") {
        let end = tail.find('\\').unwrap_or(tail.len());
        components.push(Component::Prefix(Prefix::DeviceNS(tail[..end].to_string())));
        rest = &tail[end..];
    } else if let Some(tail) = rest.strip_prefix(r"\\") {
        let mut parts = tail.splitn(3, '\\');
        let server = parts.next().unwrap_or("").to_string();
        let share = parts.next().unwrap_or("").to_string();
        rest = &tail[(server.len() + 1 + share.len()).min(tail.len())..];
        components.push(Component::Prefix(Prefix::UNC(server, share)));
    } else if rest.len() >= 2 && rest.as_bytes()[1] == b':' {
        components.push(Component::Prefix(Prefix::Disk(
            rest.as_bytes()[0].to_ascii_uppercase(),
        )));
        rest = &rest[2..];
    }
    let separator = |c: char| c == '\\' || (!verbatim && c == '/');
    if rest.starts_with(separator) {
        components.push(Component::RootDir);
    }
    let leading = components.is_empty();
    for (index, part) in rest.split(separator).enumerate() {
        match part {
            "" => {}
            "." if verbatim || (leading && index == 0) => components.push(Component::CurDir),
            "." => {}
            ".." => components.push(Component::ParentDir),
            name => components.push(Component::Normal(name.to_string())),
        }
    }
    FilePath { components }
}

fn names(path: &FilePath) -> Vec<String> {
    path.components.iter().map(|c| format!("{:?}", c)).collect()
}

fn same(a: &FilePath, b: &FilePath) -> bool {
    a.same(b)
}

#[test]
fn pathbuf_only_retains_last_absolute_path() {
    let collected = FilePath::new()
        .join(&windows(r"\\?\C:\Users\Rust\README.md"))
        .join(&windows(r"\\?\D:\Data\files.txt"));
    assert!(
        same(&collected, &windows(r"\\?\D:\Data\files.txt")),
        "{:?}",
        names(&collected)
    );
}

#[test]
fn simplify_works() {
    assert!(same(
        &windows(r"\\?\D:\Data\Nested\..\files.txt").simplify(),
        &windows(r"\\?\D:\Data\files.txt"),
    ));

    assert!(same(
        &windows(r"\\?\D:\Data\Nested\..\..\files.txt").simplify(),
        &windows(r"\\?\D:\files.txt"),
    ));
}

#[test]
fn simplify_drops_curdir() {
    assert!(same(
        &windows(r"\\?\D:\.\files.txt").simplify(),
        &windows(r"\\?\D:\files.txt"),
    ));
}

#[test]
fn simplify_retains_parent_at_root() {
    assert!(same(
        &windows(r"\\?\D:\..\files.txt").simplify(),
        &windows(r"\\?\D:\..\files.txt"),
    ));
}

#[test]
fn relative_path_ignores_prefix_differences() {
    assert!(same(
        &windows("Mick"),
        &relative_path(&windows(r"C:\Users"), &windows(r"\\?\C:\Users\Mick")),
    ));
}

#[test]
fn windows_notation_is_split_as_expected() {
    let path = windows(r"\\?\D:\Data\Nested\..\files.txt");
    assert_eq!(path.components.len(), 6);
    assert!(matches!(
        path.components[0],
        Component::Prefix(Prefix::VerbatimDisk(b'D'))
    ));
    assert!(matches!(path.components[1], Component::RootDir));
    assert!(matches!(path.components[4], Component::ParentDir));
    let plain = windows(r"C:\Users");
    assert!(matches!(
        plain.components[0],
        Component::Prefix(Prefix::Disk(b'C'))
    ));
    assert_eq!(plain.components.len(), 3);
}

#[test]
fn relative_path_steps_up_and_down() {
    let from = windows(r"C:\work\App");
    let to = windows(r"C:\work\Common\Lib\Lib.csproj");
    let relative = relative_path(&from, &to);
    assert!(same(&relative, &windows(r"..\Common\Lib\Lib.csproj")));
    assert_eq!(relative.display('\\'), r"..\Common\Lib\Lib.csproj");
}

#[test]
fn relative_path_of_a_path_to_itself_is_empty() {
    let here = windows(r"C:\work\App");
    assert_eq!(relative_path(&here, &here).len(), 0);
}

#[test]
fn relative_path_between_drives_is_the_target() {
    let relative = relative_path(&windows(r"C:\work"), &windows(r"D:\data\x.csproj"));
    assert!(same(&relative, &windows(r"D:\data\x.csproj")));
}

#[test]
fn relative_path_on_rooted_paths_without_prefix() {
    let relative = relative_path(&windows("/home/me/src"), &windows("/home/me/lib/a.csproj"));
    assert!(same(&relative, &windows("../lib/a.csproj")));
    assert_eq!(relative.display('/'), "../lib/a.csproj");
}

#[test]
fn comps_eq_takes_prefixes_by_their_reduced_form() {
    let plain = Component::Prefix(Prefix::Disk(b'C'));
    let verbatim = Component::Prefix(Prefix::VerbatimDisk(b'C'));
    let other = Component::Prefix(Prefix::Disk(b'D'));
    assert!(comps_eq(&plain, &verbatim));
    assert!(!comps_eq(&plain, &other));
    assert!(!plain.same(&verbatim));
    let share = Component::Prefix(Prefix::UNC("srv".to_string(), "data".to_string()));
    let verbatim_share =
        Component::Prefix(Prefix::VerbatimUNC("srv".to_string(), "data".to_string()));
    assert!(comps_eq(&share, &verbatim_share));
    assert!(comps_eq(
        &Component::Normal("a".to_string()),
        &Component::Normal("a".to_string())
    ));
    assert!(!comps_eq(
        &Component::Normal("a".to_string()),
        &Component::Normal("A".to_string())
    ));
    assert!(!comps_eq(&Component::RootDir, &Component::CurDir));
}

#[test]
fn simplify_retains_leading_parent_steps() {
    assert!(same(
        &windows(r"..\..\a\b\..\c").simplify(),
        &windows(r"..\..\a\c")
    ));
}

#[test]
fn simplify_is_idempotent_on_examples() {
    for text in [r"a\.\b\..\c", r"..\x\..\..\y", r"\\?\D:\..\a\.\b", r"C:\a\b\..\..\.."] {
        let once = windows(text).simplify();
        let twice = once.simplify();
        assert!(same(&once, &twice), "{}", text);
    }
}

#[test]
fn join_components_joins_onto_what_is_there() {
    let mut path = windows(r"C:\work\App");
    join_components(&mut path, &windows(r"..\Common\.\Lib"));
    assert!(same(&path, &windows(r"C:\work\Common\Lib")));
}

#[test]
fn simplified_absolute_starts_from_the_current_directory() {
    let current = windows(r"C:\work");
    assert!(same(
        &windows(r"App\..\Lib").simplified_absolute(&current),
        &windows(r"C:\work\Lib")
    ));
    assert!(same(
        &windows(r"D:\x\..\y").simplified_absolute(&current),
        &windows(r"D:\y")
    ));
    assert!(same(
        &windows(r"\x").simplified_absolute(&current),
        &windows(r"C:\x")
    ));
}

#[test]
fn starts_with_compares_whole_components() {
    let path = windows(r"Common\Lib\Lib.csproj");
    assert!(path.starts_with(&windows(r"Common")));
    assert!(path.starts_with(&windows(r"Common\Lib")));
    assert!(path.starts_with(&FilePath::new()));
    assert!(!path.starts_with(&windows(r"Com")));
    assert!(!path.starts_with(&windows(r"Common\Lib\Lib.csproj\x")));
}

#[test]
fn parent_drops_the_last_name() {
    let parent = windows(r"C:\work\App.csproj").parent().unwrap();
    assert!(same(&parent, &windows(r"C:\work")));
    assert!(windows(r"C:\").parent().is_none());
    assert!(FilePath::new().parent().is_none());
    assert_eq!(windows("a").parent().unwrap().len(), 0);
}

#[test]
fn display_writes_prefixes_and_separators() {
    assert_eq!(windows(r"C:\work\App").display('\\'), r"C:\work\App");
    assert_eq!(
        windows(r"\\?\D:\Data\files.txt").display('\\'),
        r"\\?\D:\Data\files.txt"
    );
    assert_eq!(windows(r"\\srv\share\x").display('\\'), r"\\srv\share\x");
    assert_eq!(windows("/usr/lib").display('/'), "/usr/lib");
    assert_eq!(windows(r"..\a").display('/'), "../a");
    assert_eq!(FilePath::new().display('/'), "");
}

#[test]
fn clone_keeps_the_components() {
    let path = windows(r"\\?\UNC\srv\share\a\..\b");
    assert!(same(&path, &path.clone()));
}
