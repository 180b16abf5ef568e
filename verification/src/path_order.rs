//! The order of paths: component by component, a prefix before a root, a
//! root before `.`, `.` before `..`, `..` before a name, and names by their
//! bytes.

use vstd::prelude::*;
use vstd::utf8::encode_utf8;
use crate::order::TotalOrder;
use crate::path_extensions::Component;
use crate::path_extensions::ComponentView;
use crate::path_extensions::FilePath;
use crate::path_extensions::Prefix;
use crate::path_extensions::PrefixView;
use crate::text::bytes_le;
use crate::text::lemma_bytes_le_antisymmetric;
use crate::text::lemma_bytes_le_total;
use crate::text::lemma_bytes_le_transitive;
use crate::text::str_eq;
use crate::text::str_le;

verus! {

/// What a component is ordered by: its kind, up to two names, and a drive.
pub struct SortKey {
    pub kind: int,
    pub first: Seq<u8>,
    pub second: Seq<u8>,
    pub drive: int,
}

/// The key of a component.
pub open spec fn sort_key(c: ComponentView) -> SortKey {
    let none = Seq::<u8>::empty();
    match c {
        ComponentView::Prefix(PrefixView::Verbatim(a)) => SortKey {
            kind: 0,
            first: encode_utf8(a),
            second: none,
            drive: 0,
        },
        ComponentView::Prefix(PrefixView::VerbatimUNC(a, b)) => SortKey {
            kind: 1,
            first: encode_utf8(a),
            second: encode_utf8(b),
            drive: 0,
        },
        ComponentView::Prefix(PrefixView::VerbatimDisk(d)) => SortKey {
            kind: 2,
            first: none,
            second: none,
            drive: d as int,
        },
        ComponentView::Prefix(PrefixView::DeviceNS(a)) => SortKey {
            kind: 3,
            first: encode_utf8(a),
            second: none,
            drive: 0,
        },
        ComponentView::Prefix(PrefixView::UNC(a, b)) => SortKey {
            kind: 4,
            first: encode_utf8(a),
            second: encode_utf8(b),
            drive: 0,
        },
        ComponentView::Prefix(PrefixView::Disk(d)) => SortKey {
            kind: 5,
            first: none,
            second: none,
            drive: d as int,
        },
        ComponentView::RootDir => SortKey { kind: 6, first: none, second: none, drive: 0 },
        ComponentView::CurDir => SortKey { kind: 7, first: none, second: none, drive: 0 },
        ComponentView::ParentDir => SortKey { kind: 8, first: none, second: none, drive: 0 },
        ComponentView::Normal(a) => SortKey { kind: 9, first: encode_utf8(a), second: none, drive: 0 },
    }
}

/// The order of keys: by kind, then by the first name, then by the second,
/// then by the drive.
pub open spec fn key_le(x: SortKey, y: SortKey) -> bool {
    if x.kind != y.kind {
        x.kind < y.kind
    } else if x.first != y.first {
        bytes_le(x.first, y.first)
    } else if x.second != y.second {
        bytes_le(x.second, y.second)
    } else {
        x.drive <= y.drive
    }
}

/// The order of paths: that of the first components whose keys differ; a
/// path comes before every path that it starts.
pub open spec fn path_le(a: Seq<ComponentView>, b: Seq<ComponentView>) -> bool
    decreases a.len(),
{
    if a.len() == 0 {
        true
    } else if b.len() == 0 {
        false
    } else if sort_key(a[0]) != sort_key(b[0]) {
        key_le(sort_key(a[0]), sort_key(b[0]))
    } else {
        path_le(a.skip(1), b.skip(1))
    }
}

/// Any two keys are comparable.
pub proof fn lemma_key_le_total(x: SortKey, y: SortKey)
    ensures
        key_le(x, y) || key_le(y, x),
{
    lemma_bytes_le_total(x.first, y.first);
    lemma_bytes_le_total(x.second, y.second);
}

/// Two different keys do not both come before each other.
pub proof fn lemma_key_le_antisymmetric(x: SortKey, y: SortKey)
    requires
        key_le(x, y),
        key_le(y, x),
    ensures
        x == y,
{
    if x.kind == y.kind {
        if x.first != y.first {
            lemma_bytes_le_antisymmetric(x.first, y.first);
        } else if x.second != y.second {
            lemma_bytes_le_antisymmetric(x.second, y.second);
        }
    }
}

/// The order of keys is transitive.
pub proof fn lemma_key_le_transitive(x: SortKey, y: SortKey, z: SortKey)
    requires
        key_le(x, y),
        key_le(y, z),
    ensures
        key_le(x, z),
{
    if x.kind == y.kind && y.kind == z.kind {
        if x.first != y.first && y.first != z.first {
            lemma_bytes_le_transitive(x.first, y.first, z.first);
            if x.first == z.first {
                lemma_bytes_le_antisymmetric(x.first, y.first);
            }
        } else if x.first == y.first && y.first == z.first {
            if x.second != y.second && y.second != z.second {
                lemma_bytes_le_transitive(x.second, y.second, z.second);
                if x.second == z.second {
                    lemma_bytes_le_antisymmetric(x.second, y.second);
                }
            }
        }
    }
}

/// Any two paths are comparable.
pub proof fn lemma_path_le_total(a: Seq<ComponentView>, b: Seq<ComponentView>)
    ensures
        path_le(a, b) || path_le(b, a),
    decreases a.len(),
{
    if a.len() > 0 && b.len() > 0 {
        if sort_key(a[0]) != sort_key(b[0]) {
            lemma_key_le_total(sort_key(a[0]), sort_key(b[0]));
        } else {
            lemma_path_le_total(a.skip(1), b.skip(1));
        }
    }
}

/// The order of paths is transitive.
pub proof fn lemma_path_le_transitive(
    a: Seq<ComponentView>,
    b: Seq<ComponentView>,
    c: Seq<ComponentView>,
)
    requires
        path_le(a, b),
        path_le(b, c),
    ensures
        path_le(a, c),
    decreases a.len(),
{
    if a.len() > 0 && b.len() > 0 && c.len() > 0 {
        let x = sort_key(a[0]);
        let y = sort_key(b[0]);
        let z = sort_key(c[0]);
        if x == y && y == z {
            lemma_path_le_transitive(a.skip(1), b.skip(1), c.skip(1));
        } else if x != y && y != z {
            lemma_key_le_transitive(x, y, z);
            if x == z {
                lemma_key_le_antisymmetric(x, y);
            }
        }
    }
}

/// How two strings stand to each other: 0 where they are the same, 1 where
/// the first comes before the second, 2 where it comes after.
fn str_relation(a: &str, b: &str) -> (r: u8)
    ensures
        r == 0 <==> encode_utf8(a@) == encode_utf8(b@),
        r == 1 ==> bytes_le(encode_utf8(a@), encode_utf8(b@)),
        r == 2 ==> !bytes_le(encode_utf8(a@), encode_utf8(b@)),
        r <= 2,
{
    if str_eq(a, b) {
        0
    } else {
        proof {
            if encode_utf8(a@) == encode_utf8(b@) {
                vstd::utf8::encode_utf8_decode_utf8(a@);
                vstd::utf8::encode_utf8_decode_utf8(b@);
            }
        }
        if str_le(a, b) {
            1
        } else {
            2
        }
    }
}

/// The kind, the names and the drive that a component is ordered by.
fn key_parts(c: &Component) -> (parts: (u8, &str, &str, u8))
    ensures
        sort_key(c@) == (SortKey {
            kind: parts.0 as int,
            first: encode_utf8(parts.1@),
            second: encode_utf8(parts.2@),
            drive: parts.3 as int,
        }),
{
    let none: &str = "";
    proof {
        reveal_strlit("");
        assert(none@ =~= Seq::<char>::empty());
        assert(encode_utf8(Seq::<char>::empty()) =~= Seq::<u8>::empty());
    }
    match c {
        Component::Prefix(Prefix::Verbatim(a)) => (0, a.as_str(), none, 0),
        Component::Prefix(Prefix::VerbatimUNC(a, b)) => (1, a.as_str(), b.as_str(), 0),
        Component::Prefix(Prefix::VerbatimDisk(d)) => (2, none, none, *d),
        Component::Prefix(Prefix::DeviceNS(a)) => (3, a.as_str(), none, 0),
        Component::Prefix(Prefix::UNC(a, b)) => (4, a.as_str(), b.as_str(), 0),
        Component::Prefix(Prefix::Disk(d)) => (5, none, none, *d),
        Component::RootDir => (6, none, none, 0),
        Component::CurDir => (7, none, none, 0),
        Component::ParentDir => (8, none, none, 0),
        Component::Normal(a) => (9, a.as_str(), none, 0),
    }
}

/// How the keys of two components stand to each other: 0 where they are the
/// same, 1 where the first comes before the second, 2 where it comes after.
fn key_relation(a: &Component, b: &Component) -> (r: u8)
    ensures
        r == 0 <==> sort_key(a@) == sort_key(b@),
        r == 1 ==> key_le(sort_key(a@), sort_key(b@)),
        r == 2 ==> !key_le(sort_key(a@), sort_key(b@)),
        r <= 2,
{
    let x = key_parts(a);
    let y = key_parts(b);
    if x.0 != y.0 {
        return if x.0 < y.0 {
            1
        } else {
            2
        };
    }
    let first = str_relation(x.1, y.1);
    if first != 0 {
        return first;
    }
    let second = str_relation(x.2, y.2);
    if second != 0 {
        return second;
    }
    if x.3 == y.3 {
        0
    } else if x.3 < y.3 {
        1
    } else {
        2
    }
}

/// Decides the order of two paths.
pub fn path_le_exec(a: &FilePath, b: &FilePath) -> (yes: bool)
    ensures
        yes == path_le(a@, b@),
{
    let ghost x = a@;
    let ghost y = b@;
    let mut i: usize = 0;
    assert(x.skip(0) =~= x && y.skip(0) =~= y);
    loop
        invariant
            i <= a.components.len(),
            i <= b.components.len(),
            x == a@,
            y == b@,
            path_le(x, y) == path_le(x.skip(i as int), y.skip(i as int)),
        decreases a.components.len() - i,
    {
        if i >= a.components.len() {
            return true;
        }
        if i >= b.components.len() {
            return false;
        }
        assert(x.skip(i as int)[0] == a.components@[i as int]@);
        assert(y.skip(i as int)[0] == b.components@[i as int]@);
        let r = key_relation(&a.components[i], &b.components[i]);
        if r != 0 {
            return r == 1;
        }
        assert(x.skip(i as int).skip(1) =~= x.skip(i + 1));
        assert(y.skip(i as int).skip(1) =~= y.skip(i + 1));
        i += 1;
    }
}

impl TotalOrder for FilePath {
    open spec fn before(&self, other: &Self) -> bool {
        path_le(self@, other@)
    }

    fn is_before(&self, other: &Self) -> (yes: bool) {
        path_le_exec(self, other)
    }

    proof fn before_total(a: &Self, b: &Self) {
        lemma_path_le_total(a@, b@);
    }

    proof fn before_transitive(a: &Self, b: &Self, c: &Self) {
        lemma_path_le_transitive(a@, b@, c@);
    }
}

} // verus!
