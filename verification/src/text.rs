//! Small verified helpers on strings and byte sequences.

use vstd::prelude::*;
use vstd::string::StringSliceAdditionalSpecFns;
use vstd::utf8::encode_utf8;
use crate::order::TotalOrder;
use crate::order::sort;
use crate::order::sorted;

verus! {

/// `String::push` appends one character to the end of the string.
pub assume_specification[ String::push ](s: &mut String, c: char)
    ensures
        final(s)@ == old(s)@.push(c),
;

/// Tells whether two strings hold the same characters.
pub fn str_eq(a: &str, b: &str) -> (same: bool)
    ensures
        same == (a@ == b@),
{
    let x = a.as_bytes();
    let y = b.as_bytes();
    if x.len() != y.len() {
        proof {
            if a@ == b@ {
                assert(a.spec_bytes() == b.spec_bytes());
            }
        }
        return false;
    }
    let mut i: usize = 0;
    while i < x.len()
        invariant
            i <= x.len(),
            x.len() == y.len(),
            x@ == a.spec_bytes(),
            y@ == b.spec_bytes(),
            forall|k: int| 0 <= k < i ==> x@[k] == y@[k],
        decreases x.len() - i,
    {
        if x[i] != y[i] {
            return false;
        }
        i += 1;
    }
    proof {
        assert(x@ =~= y@);
        vstd::utf8::encode_utf8_decode_utf8(a@);
        vstd::utf8::encode_utf8_decode_utf8(b@);
    }
    true
}

/// Copies the characters of a string into a vector.
pub fn chars_of(s: &str) -> (out: Vec<char>)
    ensures
        out@ == s@,
{
    broadcast use vstd::string::group_string_axioms;

    let mut out: Vec<char> = Vec::new();
    for c in it: s.chars()
        invariant
            it.seq() == s@,
            out@ == s@.take(it.index() as int),
    {
        out.push(c);
        proof {
            assert(s@.take(it.index() as int).push(c) =~= s@.take(it.index() + 1));
        }
    }
    proof {
        assert(s@.take(s@.len() as int) =~= s@);
    }
    out
}

/// Builds a string from a sequence of characters.
pub fn string_of(chars: &Vec<char>) -> (out: String)
    ensures
        out@ == chars@,
{
    let mut out = String::new();
    let mut i: usize = 0;
    while i < chars.len()
        invariant
            i <= chars.len(),
            out@ == chars@.take(i as int),
        decreases chars.len() - i,
    {
        out.push(chars[i]);
        proof {
            assert(chars@.take(i as int).push(chars@[i as int]) =~= chars@.take(i + 1));
        }
        i += 1;
    }
    proof {
        assert(chars@.take(chars.len() as int) =~= chars@);
    }
    out
}

/// The lexicographic order on byte sequences.
pub open spec fn bytes_le(a: Seq<u8>, b: Seq<u8>) -> bool
    decreases a.len(),
{
    if a.len() == 0 {
        true
    } else if b.len() == 0 {
        false
    } else if a[0] != b[0] {
        a[0] < b[0]
    } else {
        bytes_le(a.skip(1), b.skip(1))
    }
}

/// The order of strings: that of their UTF-8 encodings, byte by byte.
pub open spec fn text_le(a: Seq<char>, b: Seq<char>) -> bool {
    bytes_le(encode_utf8(a), encode_utf8(b))
}

/// Any two byte sequences are comparable.
pub proof fn lemma_bytes_le_total(a: Seq<u8>, b: Seq<u8>)
    ensures
        bytes_le(a, b) || bytes_le(b, a),
    decreases a.len(),
{
    if a.len() > 0 && b.len() > 0 && a[0] == b[0] {
        lemma_bytes_le_total(a.skip(1), b.skip(1));
    }
}

/// The order on byte sequences is transitive.
pub proof fn lemma_bytes_le_transitive(a: Seq<u8>, b: Seq<u8>, c: Seq<u8>)
    requires
        bytes_le(a, b),
        bytes_le(b, c),
    ensures
        bytes_le(a, c),
    decreases a.len(),
{
    if a.len() > 0 && b.len() > 0 && c.len() > 0 && a[0] == b[0] && b[0] == c[0] {
        lemma_bytes_le_transitive(a.skip(1), b.skip(1), c.skip(1));
    }
}

/// Two byte sequences that come before each other are the same.
pub proof fn lemma_bytes_le_antisymmetric(a: Seq<u8>, b: Seq<u8>)
    requires
        bytes_le(a, b),
        bytes_le(b, a),
    ensures
        a == b,
    decreases a.len(),
{
    if a.len() > 0 && b.len() > 0 {
        lemma_bytes_le_antisymmetric(a.skip(1), b.skip(1));
        assert(a =~= seq![a[0]] + a.skip(1));
        assert(b =~= seq![b[0]] + b.skip(1));
    } else {
        assert(a =~= b);
    }
}

/// Two strings that come before each other are the same.
pub proof fn lemma_text_le_antisymmetric(a: Seq<char>, b: Seq<char>)
    requires
        text_le(a, b),
        text_le(b, a),
    ensures
        a == b,
{
    lemma_bytes_le_antisymmetric(encode_utf8(a), encode_utf8(b));
    vstd::utf8::encode_utf8_decode_utf8(a);
    vstd::utf8::encode_utf8_decode_utf8(b);
}

/// Decides the order of two strings.
pub fn str_le(a: &str, b: &str) -> (yes: bool)
    ensures
        yes == text_le(a@, b@),
{
    let x = a.as_bytes();
    let y = b.as_bytes();
    let mut i: usize = 0;
    assert(x@.skip(0) =~= x@ && y@.skip(0) =~= y@);
    loop
        invariant
            i <= x.len(),
            i <= y.len(),
            x@ == a.spec_bytes(),
            y@ == b.spec_bytes(),
            bytes_le(x@, y@) == bytes_le(x@.skip(i as int), y@.skip(i as int)),
        decreases x.len() - i,
    {
        if i >= x.len() {
            return true;
        }
        if i >= y.len() {
            return false;
        }
        assert(x@.skip(i as int)[0] == x@[i as int]);
        assert(y@.skip(i as int)[0] == y@[i as int]);
        if x[i] != y[i] {
            return x[i] < y[i];
        }
        assert(x@.skip(i as int).skip(1) =~= x@.skip(i + 1));
        assert(y@.skip(i as int).skip(1) =~= y@.skip(i + 1));
        i += 1;
    }
}

impl TotalOrder for String {
    open spec fn before(&self, other: &Self) -> bool {
        text_le(self@, other@)
    }

    fn is_before(&self, other: &Self) -> (yes: bool) {
        str_le(self.as_str(), other.as_str())
    }

    proof fn before_total(a: &Self, b: &Self) {
        lemma_bytes_le_total(encode_utf8(a@), encode_utf8(b@));
    }

    proof fn before_transitive(a: &Self, b: &Self, c: &Self) {
        lemma_bytes_le_transitive(encode_utf8(a@), encode_utf8(b@), encode_utf8(c@));
    }
}

/// Whether the strings ascend strictly: sorted, and no string twice.
pub open spec fn strictly_ascending(items: Seq<Seq<char>>) -> bool {
    forall|i: int, j: int|
        0 <= i < j < items.len() ==> text_le(#[trigger] items[i], #[trigger] items[j]) && items[i]
            != items[j]
}

/// The strings of a vector, as character sequences.
pub open spec fn texts(items: Seq<String>) -> Seq<Seq<char>> {
    items.map_values(|s: String| s@)
}

/// Sorts the strings and keeps one of each: the result ascends strictly and
/// holds exactly the strings that `items` holds.
pub fn sort_dedup(items: Vec<String>) -> (out: Vec<String>)
    ensures
        strictly_ascending(texts(out@)),
        forall|t: Seq<char>| texts(out@).contains(t) <==> texts(items@).contains(t),
{
    let ghost given = items@;
    let all = sort(items);
    proof {
        assert forall|t: Seq<char>| texts(all@).contains(t) <==> texts(given).contains(t) by {
            all@.to_multiset_ensures();
            given.to_multiset_ensures();
            if texts(all@).contains(t) {
                let i = choose|i: int| 0 <= i < all@.len() && texts(all@)[i] == t;
                assert(all@.contains(all@[i]));
                assert(all@.to_multiset().count(all@[i]) > 0);
                assert(given.to_multiset().count(all@[i]) > 0);
                assert(given.contains(all@[i]));
                let j = choose|j: int| 0 <= j < given.len() && given[j] == all@[i];
                assert(texts(given)[j] == t);
            }
            if texts(given).contains(t) {
                let j = choose|j: int| 0 <= j < given.len() && texts(given)[j] == t;
                assert(given.contains(given[j]));
                assert(given.to_multiset().count(given[j]) > 0);
                assert(all@.to_multiset().count(given[j]) > 0);
                assert(all@.contains(given[j]));
                let i = choose|i: int| 0 <= i < all@.len() && all@[i] == given[j];
                assert(texts(all@)[i] == t);
            }
        }
    }
    let mut out: Vec<String> = Vec::new();
    let mut i: usize = 0;
    while i < all.len()
        invariant
            i <= all.len(),
            sorted(all@),
            strictly_ascending(texts(out@)),
            out.len() <= i,
            i > 0 ==> out.len() > 0 && out@.last()@ == all@[i - 1]@,
            forall|k: int| 0 <= k < out.len() ==> exists|m: int| 0 <= m < i && all@[m]@ == #[trigger] out@[k]@,
            forall|m: int| 0 <= m < i ==> texts(out@).contains(#[trigger] all@[m]@),
        decreases all.len() - i,
    {
        let ghost before = out@;
        let fresh = i == 0 || !str_eq(all[i].as_str(), all[i - 1].as_str());
        if fresh {
            out.push(all[i].clone());
            proof {
                assert forall|a: int, b: int| 0 <= a < b < out.len() implies text_le(
                    #[trigger] texts(out@)[a],
                    #[trigger] texts(out@)[b],
                ) && texts(out@)[a] != texts(out@)[b] by {
                    if b == out.len() - 1 {
                        assert(texts(before)[a] == before[a]@);
                        let m = choose|m: int| 0 <= m < i && all@[m]@ == before[a]@;
                        assert(all@[m].before(&all@[i as int]));
                        assert(all@[i - 1].before(&all@[i as int]));
                        if m < i - 1 && all@[m]@ == all@[i as int]@ {
                            assert(all@[m].before(&all@[i - 1]));
                            lemma_text_le_antisymmetric(all@[i - 1]@, all@[i as int]@);
                        }
                    } else {
                        assert(texts(before)[a] == texts(out@)[a]);
                        assert(texts(before)[b] == texts(out@)[b]);
                    }
                }
                assert forall|m: int| 0 <= m < i + 1 implies texts(out@).contains(
                    #[trigger] all@[m]@,
                ) by {
                    if m < i {
                        let k = choose|k: int| 0 <= k < before.len() && texts(before)[k] == all@[m]@;
                        assert(texts(out@)[k] == all@[m]@);
                    } else {
                        assert(texts(out@)[out.len() - 1] == all@[m]@);
                    }
                }
            }
        } else {
            proof {
                assert forall|m: int| 0 <= m < i + 1 implies texts(out@).contains(
                    #[trigger] all@[m]@,
                ) by {
                    if m == i {
                        assert(texts(out@)[out.len() - 1] == all@[m]@);
                    }
                }
            }
        }
        i += 1;
    }
    proof {
        assert forall|t: Seq<char>| texts(out@).contains(t) <==> texts(all@).contains(t) by {
            if texts(out@).contains(t) {
                let k = choose|k: int| 0 <= k < out@.len() && texts(out@)[k] == t;
                let m = choose|m: int| 0 <= m < i && all@[m]@ == out@[k]@;
                assert(texts(all@)[m] == t);
            }
            if texts(all@).contains(t) {
                let m = choose|m: int| 0 <= m < all@.len() && texts(all@)[m] == t;
                assert(texts(out@).contains(all@[m]@));
            }
        }
    }
    out
}

/// The character of a digit.
pub open spec fn digit_char(d: nat) -> char {
    if d == 0 {
        '0'
    } else if d == 1 {
        '1'
    } else if d == 2 {
        '2'
    } else if d == 3 {
        '3'
    } else if d == 4 {
        '4'
    } else if d == 5 {
        '5'
    } else if d == 6 {
        '6'
    } else if d == 7 {
        '7'
    } else if d == 8 {
        '8'
    } else {
        '9'
    }
}

/// A number in decimal notation, without leading zeros.
pub open spec fn decimal_spec(n: nat) -> Seq<char>
    decreases n,
{
    if n < 10 {
        seq![digit_char(n)]
    } else {
        decimal_spec(n / 10).push(digit_char(n % 10))
    }
}

/// Appends a number in decimal notation.
pub fn push_decimal(out: &mut String, n: usize)
    ensures
        final(out)@ == old(out)@ + decimal_spec(n as nat),
    decreases n,
{
    if n >= 10 {
        push_decimal(out, n / 10);
    }
    let d = n % 10;
    let c = if d == 0 {
        '0'
    } else if d == 1 {
        '1'
    } else if d == 2 {
        '2'
    } else if d == 3 {
        '3'
    } else if d == 4 {
        '4'
    } else if d == 5 {
        '5'
    } else if d == 6 {
        '6'
    } else if d == 7 {
        '7'
    } else if d == 8 {
        '8'
    } else {
        '9'
    };
    out.push(c);
    proof {
        if n >= 10 {
            assert(out@ =~= old(out)@ + decimal_spec(n as nat));
        } else {
            assert(out@ =~= old(out)@ + decimal_spec(n as nat));
        }
    }
}

/// The text with every backslash written twice.
pub open spec fn doubled_backslashes(s: Seq<char>) -> Seq<char>
    decreases s.len(),
{
    if s.len() == 0 {
        Seq::empty()
    } else if s.last() == '\\' {
        doubled_backslashes(s.drop_last()).push('\\').push('\\')
    } else {
        doubled_backslashes(s.drop_last()).push(s.last())
    }
}

/// Appends a text with every backslash written twice.
pub fn push_doubled_backslashes(out: &mut String, text: &str)
    ensures
        final(out)@ == old(out)@ + doubled_backslashes(text@),
{
    let chars = chars_of(text);
    let mut i: usize = 0;
    assert(out@ =~= old(out)@ + doubled_backslashes(chars@.take(0)));
    while i < chars.len()
        invariant
            i <= chars.len(),
            chars@ == text@,
            out@ == old(out)@ + doubled_backslashes(chars@.take(i as int)),
        decreases chars.len() - i,
    {
        let ghost before = doubled_backslashes(chars@.take(i as int));
        proof {
            assert(chars@.take(i + 1).drop_last() =~= chars@.take(i as int));
            assert(chars@.take(i + 1).last() == chars@[i as int]);
        }
        if chars[i] == '\\' {
            out.push('\\');
            out.push('\\');
            assert(out@ =~= old(out)@ + before.push('\\').push('\\'));
        } else {
            out.push(chars[i]);
            assert(out@ =~= old(out)@ + before.push(chars@[i as int]));
        }
        i += 1;
    }
    assert(chars@.take(chars.len() as int) =~= chars@);
}

/// The parts of a text between the occurrences of `at`.
pub open spec fn split_spec(s: Seq<char>, at: char) -> Seq<Seq<char>>
    decreases s.len(),
{
    if s.len() == 0 {
        seq![Seq::<char>::empty()]
    } else {
        let parts = split_spec(s.drop_last(), at);
        if s.last() == at {
            parts.push(Seq::<char>::empty())
        } else {
            parts.drop_last().push(parts.last().push(s.last()))
        }
    }
}

/// Splits a text at the occurrences of `at`.
pub fn split(text: &str, at: char) -> (parts: Vec<String>)
    ensures
        texts(parts@) == split_spec(text@, at),
        parts.len() > 0,
{
    let chars = chars_of(text);
    let mut parts: Vec<String> = Vec::new();
    let mut cur = String::new();
    let mut i: usize = 0;
    assert(texts(parts@).push(cur@) =~= split_spec(chars@.take(0), at));
    while i < chars.len()
        invariant
            i <= chars.len(),
            chars@ == text@,
            texts(parts@).push(cur@) == split_spec(chars@.take(i as int), at),
        decreases chars.len() - i,
    {
        let ghost before = texts(parts@).push(cur@);
        proof {
            assert(chars@.take(i + 1).drop_last() =~= chars@.take(i as int));
            assert(chars@.take(i + 1).last() == chars@[i as int]);
        }
        if chars[i] == at {
            parts.push(cur);
            cur = String::new();
            assert(texts(parts@).push(cur@) =~= before.push(Seq::<char>::empty()));
        } else {
            cur.push(chars[i]);
            assert(texts(parts@).push(cur@) =~= before.drop_last().push(
                before.last().push(chars@[i as int]),
            ));
        }
        i += 1;
    }
    assert(chars@.take(chars.len() as int) =~= chars@);
    parts.push(cur);
    assert(texts(parts@) =~= split_spec(text@, at));
    parts
}

} // verus!
