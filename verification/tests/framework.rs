use csprojtool::framework::char_is_digit;
use csprojtool::framework::char_is_space;
use csprojtool::framework::parse_target_framework_version;

#[test]
fn parse_target_framework_version_works() {
    assert_eq!(
        parse_target_framework_version(" v3.5 "),
        Some(String::from("net35"))
    );
    assert_eq!(
        parse_target_framework_version("v4.7.1"),
        Some(String::from("net471"))
    );
}

#[test]
fn parse_target_framework_version_refuses_other_text() {
    for text in [
        "", " ", "v", "v4", "v4.", "4.7", "v4.7.", "v4.7.1.2", "v10.0", "v4.72", "V4.7", "v4,7",
        "net47", "v4.7 x", "x v4.7", "v4 .7", "va.b", "v4.7.x",
    ] {
        assert_eq!(parse_target_framework_version(text), None, "{:?}", text);
    }
}

#[test]
fn parse_target_framework_version_ignores_white_space_around() {
    assert_eq!(
        parse_target_framework_version("\r\n\tv4.8\u{a0}\u{2003}\n"),
        Some(String::from("net48"))
    );
    assert_eq!(
        parse_target_framework_version("\u{feff}v4.8"),
        None
    );
}

#[test]
fn white_space_and_digits_are_told_apart() {
    for c in [' ', '\t', '\n', '\u{b}', '\u{c}', '\r', '\u{85}', '\u{a0}', '\u{1680}', '\u{2000}',
        '\u{200a}', '\u{2028}', '\u{2029}', '\u{202f}', '\u{205f}', '\u{3000}'] {
        assert!(char_is_space(c), "{:?}", c);
        assert!(c.is_whitespace());
    }
    for c in ['a', '0', '\u{200b}', '\u{feff}', '\u{8}', '\u{e}', '\u{180e}'] {
        assert!(!char_is_space(c), "{:?}", c);
    }
    for c in '0'..='9' {
        assert!(char_is_digit(c));
    }
    for c in ['/', ':', 'a', '\u{661}'] {
        assert!(!char_is_digit(c));
    }
}

/// Every text over `alphabet` of at most `longest` characters.
fn texts_over(alphabet: &[char], longest: usize) -> Vec<String> {
    let mut all = vec![String::new()];
    let mut last = vec![String::new()];
    for _ in 0..longest {
        let mut next = Vec::new();
        for text in &last {
            for c in alphabet {
                let mut longer = text.clone();
                longer.push(*c);
                next.push(longer);
            }
        }
        all.extend(next.iter().cloned());
        last = next;
    }
    all
}

#[test]
fn parse_target_framework_version_agrees_with_the_pattern() {
    let pattern = regex::Regex::new(r"^\s*v(\d)\.(\d)(?:\.(\d))?\s*$").unwrap();
    let mut monikers = 0;
    for text in texts_over(&[' ', 'v', '4', '7', '.', 'x', '\n'], 6) {
        let expected = pattern.captures(&text).map(|c| {
            format!(
                "net{}{}{}",
                &c[1],
                &c[2],
                c.get(3).map(|m| m.as_str()).unwrap_or("")
            )
        });
        if expected.is_some() {
            monikers += 1;
        }
        assert_eq!(parse_target_framework_version(&text), expected, "{:?}", text);
    }
    assert!(monikers > 0);
    for text in ["  v4.7.1  ", "\tv1.0\r\n", "v4.7.1\n\n", " v4.7.1.", "vv4.7", "v4..7"] {
        let expected = pattern
            .captures(text)
            .map(|c| format!("net{}{}{}", &c[1], &c[2], c.get(3).map_or("", |m| m.as_str())));
        assert_eq!(parse_target_framework_version(text), expected, "{:?}", text);
    }
}
