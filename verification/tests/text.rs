use csprojtool::order::sort;
use csprojtool::path_extensions::Component;
use csprojtool::path_extensions::FilePath;
use csprojtool::path_extensions::Prefix;
use csprojtool::path_order::path_le_exec;
use csprojtool::text::chars_of;
use csprojtool::text::push_decimal;
use csprojtool::text::push_doubled_backslashes;
use csprojtool::text::sort_dedup;
use csprojtool::text::split;
use csprojtool::text::str_eq;
use csprojtool::text::str_le;
use csprojtool::text::string_of;

fn strings(items: &[&str]) -> Vec<String> {
    items.iter().map(|s| s.to_string()).collect()
}

const SAMPLES: &[&str] = &["", "a", "A", "ab", "b", "é", "z", "日本", "a\u{10000}", "\u{ffff}"];

#[test]
fn strings_compare_as_their_bytes() {
    for a in SAMPLES {
        for b in SAMPLES {
            assert_eq!(str_eq(a, b), a == b, "{:?} {:?}", a, b);
            assert_eq!(str_le(a, b), a <= b, "{:?} {:?}", a, b);
        }
    }
}

#[test]
fn sort_puts_strings_in_order() {
    let mut expected = strings(SAMPLES);
    expected.extend(strings(&["b", "a"]));
    let sorted = sort(expected.clone());
    expected.sort();
    assert_eq!(sorted, expected);
    assert!(sort(Vec::<String>::new()).is_empty());
}

#[test]
fn sort_dedup_keeps_one_of_each() {
    assert_eq!(
        sort_dedup(strings(&["net6.0", "net48", "net6.0", "", "net48", "Net48"])),
        strings(&["", "Net48", "net48", "net6.0"])
    );
    assert!(sort_dedup(Vec::new()).is_empty());
}

#[test]
fn split_gives_the_parts_between() {
    assert_eq!(split("a;b;c", ';'), strings(&["a", "b", "c"]));
    assert_eq!(split("", ';'), strings(&[""]));
    assert_eq!(split(";", ';'), strings(&["", ""]));
    assert_eq!(split("a;;b;", ';'), strings(&["a", "", "b", ""]));
    assert_eq!(split(r"x\y", '\\'), strings(&["x", "y"]));
    assert_eq!(split("no", ';'), strings(&["no"]));
}

#[test]
fn numbers_are_written_in_decimal() {
    for n in [0usize, 7, 9, 10, 11, 99, 100, 12345, 1_000_000, usize::MAX] {
        let mut text = String::from("n");
        push_decimal(&mut text, n);
        assert_eq!(text, format!("n{}", n));
    }
}

#[test]
fn backslashes_are_doubled() {
    let mut text = String::from("> ");
    push_doubled_backslashes(&mut text, r"a\b\\c/d");
    assert_eq!(text, r"> a\\b\\\\c/d");
    let mut text = String::new();
    push_doubled_backslashes(&mut text, "");
    assert_eq!(text, "");
}

#[test]
fn characters_go_to_and_fro() {
    for sample in SAMPLES {
        let chars = chars_of(sample);
        assert_eq!(chars, sample.chars().collect::<Vec<char>>());
        assert_eq!(string_of(&chars), *sample);
    }
}

fn normal(name: &str) -> Component {
    Component::Normal(name.to_string())
}

#[test]
fn paths_are_ordered_component_by_component() {
    let paths = vec![
        FilePath { components: vec![] },
        FilePath { components: vec![Component::Prefix(Prefix::Verbatim("x".to_string()))] },
        FilePath { components: vec![Component::Prefix(Prefix::VerbatimDisk(b'C'))] },
        FilePath { components: vec![Component::Prefix(Prefix::UNC("a".to_string(), "b".to_string()))] },
        FilePath { components: vec![Component::Prefix(Prefix::UNC("a".to_string(), "c".to_string()))] },
        FilePath { components: vec![Component::Prefix(Prefix::Disk(b'C'))] },
        FilePath { components: vec![Component::Prefix(Prefix::Disk(b'D'))] },
        FilePath { components: vec![Component::RootDir] },
        FilePath { components: vec![Component::RootDir, normal("a")] },
        FilePath { components: vec![Component::CurDir] },
        FilePath { components: vec![Component::ParentDir] },
        FilePath { components: vec![Component::ParentDir, Component::ParentDir] },
        FilePath { components: vec![Component::ParentDir, normal("a")] },
        FilePath { components: vec![normal("A")] },
        FilePath { components: vec![normal("a")] },
        FilePath { components: vec![normal("a"), normal("b")] },
        FilePath { components: vec![normal("ab")] },
    ];
    for (i, a) in paths.iter().enumerate() {
        for (j, b) in paths.iter().enumerate() {
            assert_eq!(path_le_exec(a, b), i <= j, "{:?} {:?}", a, b);
        }
    }
    let mut shuffled: Vec<FilePath> = paths.iter().rev().cloned().collect();
    shuffled.swap(3, 9);
    assert_eq!(sort(shuffled), paths);
}

#[test]
fn unix_paths_are_ordered_as_the_platform_orders_them() {
    let texts = ["a/b", "a", "a/b/c", "b", "../a", "/a", "a.b", "a/c", "A/z", "/"];
    let mut by_platform: Vec<&str> = texts.to_vec();
    by_platform.sort_by(|a, b| {
        std::path::Path::new(a)
            .components()
            .cmp(std::path::Path::new(b).components())
    });
    let to_model = |text: &str| FilePath {
        components: std::path::Path::new(text)
            .components()
            .map(|c| match c {
                std::path::Component::RootDir => Component::RootDir,
                std::path::Component::CurDir => Component::CurDir,
                std::path::Component::ParentDir => Component::ParentDir,
                std::path::Component::Normal(name) => normal(name.to_str().unwrap()),
                std::path::Component::Prefix(_) => unreachable!(),
            })
            .collect(),
    };
    let sorted = sort(texts.iter().map(|t| to_model(t)).collect());
    let expected: Vec<FilePath> = by_platform.iter().map(|t| to_model(t)).collect();
    assert_eq!(sorted, expected);
}
