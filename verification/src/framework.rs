//! Legacy framework version strings and the short monikers that stand for
//! them.

use vstd::prelude::*;
use crate::text::chars_of;

verus! {

/// Whether the character is white space.
pub open spec fn is_space(c: char) -> bool {
    let u = c as u32;
    ||| 0x09 <= u <= 0x0D
    ||| u == 0x20
    ||| u == 0x85
    ||| u == 0xA0
    ||| u == 0x1680
    ||| 0x2000 <= u <= 0x200A
    ||| u == 0x2028
    ||| u == 0x2029
    ||| u == 0x202F
    ||| u == 0x205F
    ||| u == 0x3000
}

/// Whether the character is one of the digits `0` to `9`.
pub open spec fn is_digit(c: char) -> bool {
    '0' <= c <= '9'
}

/// The number of white space characters at the start of the text.
pub open spec fn leading_spaces(s: Seq<char>) -> nat
    decreases s.len(),
{
    if s.len() > 0 && is_space(s[0]) {
        1 + leading_spaces(s.skip(1))
    } else {
        0
    }
}

/// The number of white space characters at the end of the text.
pub open spec fn trailing_spaces(s: Seq<char>) -> nat
    decreases s.len(),
{
    if s.len() > 0 && is_space(s.last()) {
        1 + trailing_spaces(s.drop_last())
    } else {
        0
    }
}

/// The text without the white space at its start and its end.
pub open spec fn trimmed(s: Seq<char>) -> Seq<char> {
    let rest = s.skip(leading_spaces(s) as int);
    rest.take(rest.len() - trailing_spaces(rest))
}

/// The digits of a version of the form `vN.N` or `vN.N.N`, where each `N` is
/// one digit; `None` for any other text.
pub open spec fn version_digits(s: Seq<char>) -> Option<Seq<char>> {
    if s.len() == 4 && s[0] == 'v' && is_digit(s[1]) && s[2] == '.' && is_digit(s[3]) {
        Some(seq![s[1], s[3]])
    } else if s.len() == 6 && s[0] == 'v' && is_digit(s[1]) && s[2] == '.' && is_digit(s[3])
        && s[4] == '.' && is_digit(s[5]) {
        Some(seq![s[1], s[3], s[5]])
    } else {
        None
    }
}

/// The moniker of a legacy version text: `net` and the version's digits.
/// White space around the version is ignored.
pub open spec fn moniker_spec(text: Seq<char>) -> Option<Seq<char>> {
    match version_digits(trimmed(text)) {
        Some(digits) => Some(seq!['n', 'e', 't'] + digits),
        None => None,
    }
}

/// Decides [`is_space`].
pub fn char_is_space(c: char) -> (yes: bool)
    ensures
        yes == is_space(c),
{
    let u = c as u32;
    (0x09 <= u && u <= 0x0D) || u == 0x20 || u == 0x85 || u == 0xA0 || u == 0x1680 || (0x2000 <= u
        && u <= 0x200A) || u == 0x2028 || u == 0x2029 || u == 0x202F || u == 0x205F || u == 0x3000
}

/// Decides [`is_digit`].
pub fn char_is_digit(c: char) -> (yes: bool)
    ensures
        yes == is_digit(c),
{
    '0' <= c && c <= '9'
}

/// Gives the moniker of a legacy version text: for `v4.7.1` it is
/// `net471`. Text of any other form has no moniker.
pub fn parse_target_framework_version(text: &str) -> (out: Option<String>)
    ensures
        out is Some == moniker_spec(text@) is Some,
        out matches Some(m) ==> Some(m@) == moniker_spec(text@),
{
    let chars = chars_of(text);
    let n = chars.len();
    let ghost s = chars@;
    let mut start: usize = 0;
    assert(s.skip(0) =~= s);
    while start < n && char_is_space(chars[start])
        invariant
            start <= n,
            n == s.len(),
            s == chars@,
            leading_spaces(s) == start + leading_spaces(s.skip(start as int)),
        decreases n - start,
    {
        assert(s.skip(start as int)[0] == s[start as int]);
        assert(s.skip(start as int).skip(1) =~= s.skip(start + 1));
        start += 1;
    }
    assert(leading_spaces(s) == start) by {
        if start < n {
            assert(s.skip(start as int)[0] == s[start as int]);
        }
    }
    let ghost rest = s.skip(start as int);
    let mut end: usize = n;
    assert(rest.take(rest.len() as int) =~= rest);
    while end > start && char_is_space(chars[end - 1])
        invariant
            start <= end <= n,
            n == s.len(),
            s == chars@,
            rest == s.skip(start as int),
            trailing_spaces(rest) == (n - end) + trailing_spaces(rest.take(end - start)),
        decreases end,
    {
        assert(rest.take(end - start).last() == s[end - 1]);
        assert(rest.take(end - start).drop_last() =~= rest.take(end - start - 1));
        end -= 1;
    }
    assert(trailing_spaces(rest) == n - end) by {
        if end > start {
            assert(rest.take(end - start).last() == s[end - 1]);
        }
    }
    let ghost core = trimmed(s);
    assert(core =~= s.subrange(start as int, end as int));
    let len = end - start;
    let short = len == 4;
    let long = len == 6;
    if !short && !long {
        return None;
    }
    if !(chars[start] == 'v' && char_is_digit(chars[start + 1]) && chars[start + 2] == '.'
        && char_is_digit(chars[start + 3])) {
        return None;
    }
    if long && !(chars[start + 4] == '.' && char_is_digit(chars[start + 5])) {
        return None;
    }
    let mut out = String::new();
    out.push('n');
    out.push('e');
    out.push('t');
    out.push(chars[start + 1]);
    out.push(chars[start + 3]);
    if long {
        out.push(chars[start + 5]);
    }
    assert(Some(out@) =~= moniker_spec(text@));
    Some(out)
}

} // verus!
