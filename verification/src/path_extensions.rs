//! Path algebra on component sequences.
//!
//! A path is held as the sequence of its components, so that every operation
//! here is a function on plain values: callers split a platform path into
//! components once and hand the sequence over.

use vstd::prelude::*;
use vstd::string::StringExecFns;
use crate::text::str_eq;

verus! {

/// The prefix of a Windows path, such as a drive letter or a network share.
#[derive(Debug, PartialEq, Eq)]
pub enum Prefix {
    Verbatim(String),
    VerbatimUNC(String, String),
    VerbatimDisk(u8),
    DeviceNS(String),
    UNC(String, String),
    Disk(u8),
}

/// One component of a path.
#[derive(Debug, PartialEq, Eq)]
pub enum Component {
    Prefix(Prefix),
    RootDir,
    CurDir,
    ParentDir,
    Normal(String),
}

/// A path, as the sequence of its components.
#[derive(Debug, PartialEq, Eq)]
pub struct FilePath {
    pub components: Vec<Component>,
}

/// The mathematical value of a [`Prefix`].
pub enum PrefixView {
    Verbatim(Seq<char>),
    VerbatimUNC(Seq<char>, Seq<char>),
    VerbatimDisk(u8),
    DeviceNS(Seq<char>),
    UNC(Seq<char>, Seq<char>),
    Disk(u8),
}

/// The mathematical value of a [`Component`].
pub enum ComponentView {
    Prefix(PrefixView),
    RootDir,
    CurDir,
    ParentDir,
    Normal(Seq<char>),
}

/// A prefix without the distinction between its verbatim and plain form.
pub enum ReducedPrefix<'a> {
    Verbatim(&'a str),
    DeviceNS(&'a str),
    UNC(&'a str, &'a str),
    Disk(u8),
}

/// The mathematical value of a [`ReducedPrefix`].
pub enum ReducedPrefixView {
    Verbatim(Seq<char>),
    DeviceNS(Seq<char>),
    UNC(Seq<char>, Seq<char>),
    Disk(u8),
}

impl View for Prefix {
    type V = PrefixView;

    open spec fn view(&self) -> PrefixView {
        match self {
            Prefix::Verbatim(a) => PrefixView::Verbatim(a@),
            Prefix::VerbatimUNC(a, b) => PrefixView::VerbatimUNC(a@, b@),
            Prefix::VerbatimDisk(d) => PrefixView::VerbatimDisk(*d),
            Prefix::DeviceNS(a) => PrefixView::DeviceNS(a@),
            Prefix::UNC(a, b) => PrefixView::UNC(a@, b@),
            Prefix::Disk(d) => PrefixView::Disk(*d),
        }
    }
}

impl View for Component {
    type V = ComponentView;

    open spec fn view(&self) -> ComponentView {
        match self {
            Component::Prefix(p) => ComponentView::Prefix(p@),
            Component::RootDir => ComponentView::RootDir,
            Component::CurDir => ComponentView::CurDir,
            Component::ParentDir => ComponentView::ParentDir,
            Component::Normal(name) => ComponentView::Normal(name@),
        }
    }
}

impl View for FilePath {
    type V = Seq<ComponentView>;

    open spec fn view(&self) -> Seq<ComponentView> {
        self.components@.map_values(|c: Component| c@)
    }
}

impl<'a> View for ReducedPrefix<'a> {
    type V = ReducedPrefixView;

    open spec fn view(&self) -> ReducedPrefixView {
        match self {
            ReducedPrefix::Verbatim(a) => ReducedPrefixView::Verbatim(a@),
            ReducedPrefix::DeviceNS(a) => ReducedPrefixView::DeviceNS(a@),
            ReducedPrefix::UNC(a, b) => ReducedPrefixView::UNC(a@, b@),
            ReducedPrefix::Disk(d) => ReducedPrefixView::Disk(*d),
        }
    }
}

/// The reduced form of a prefix: a verbatim disk or share counts as the disk or
/// share itself.
pub open spec fn reduced_prefix(p: PrefixView) -> ReducedPrefixView {
    match p {
        PrefixView::Verbatim(a) => ReducedPrefixView::Verbatim(a),
        PrefixView::VerbatimUNC(a, b) => ReducedPrefixView::UNC(a, b),
        PrefixView::VerbatimDisk(d) => ReducedPrefixView::Disk(d),
        PrefixView::DeviceNS(a) => ReducedPrefixView::DeviceNS(a),
        PrefixView::UNC(a, b) => ReducedPrefixView::UNC(a, b),
        PrefixView::Disk(d) => ReducedPrefixView::Disk(d),
    }
}

/// Two components count as equal when they are the same, or when both are
/// prefixes with the same reduced form.
pub open spec fn comps_eq_spec(a: ComponentView, b: ComponentView) -> bool {
    match (a, b) {
        (ComponentView::Prefix(p), ComponentView::Prefix(q)) => reduced_prefix(p) == reduced_prefix(
            q,
        ),
        _ => a == b,
    }
}

/// The number of leading components that two paths share.
pub open spec fn common_len(a: Seq<ComponentView>, b: Seq<ComponentView>) -> nat
    decreases a.len(),
{
    if a.len() > 0 && b.len() > 0 && comps_eq_spec(a[0], b[0]) {
        1 + common_len(a.skip(1), b.skip(1))
    } else {
        0
    }
}

/// The path after one more component is pushed onto it: a prefix starts the
/// path anew, a root keeps only a leading prefix, and anything else is appended.
pub open spec fn push_spec(path: Seq<ComponentView>, c: ComponentView) -> Seq<ComponentView> {
    match c {
        ComponentView::Prefix(_) => seq![c],
        ComponentView::RootDir => if path.len() > 0 && path[0] is Prefix {
            seq![path[0], c]
        } else {
            seq![c]
        },
        _ => path.push(c),
    }
}

/// The path that results from pushing the components of `more` onto `path`,
/// one after the other.
pub open spec fn collect_spec(path: Seq<ComponentView>, more: Seq<ComponentView>) -> Seq<
    ComponentView,
>
    decreases more.len(),
{
    if more.len() == 0 {
        path
    } else {
        collect_spec(push_spec(path, more[0]), more.skip(1))
    }
}

/// The way from the directory `src` to the path `dst`: one step up for every
/// component of `src` behind the shared start, then the rest of `dst`.
pub open spec fn relative_path_spec(src: Seq<ComponentView>, dst: Seq<ComponentView>) -> Seq<
    ComponentView,
> {
    let k = common_len(src, dst) as int;
    collect_spec(Seq::new((src.len() - k) as nat, |i: int| ComponentView::ParentDir), dst.skip(k))
}

/// One step of normalization: `.` is dropped, `..` removes a preceding normal
/// component and is kept otherwise, and every other component is pushed.
pub open spec fn join_step(path: Seq<ComponentView>, c: ComponentView) -> Seq<ComponentView> {
    match c {
        ComponentView::CurDir => path,
        ComponentView::ParentDir => if path.len() > 0 && path.last() is Normal {
            path.drop_last()
        } else {
            path.push(c)
        },
        _ => push_spec(path, c),
    }
}

/// The path that results from joining the components of `more` onto `path`
/// with [`join_step`].
pub open spec fn join_components_spec(path: Seq<ComponentView>, more: Seq<ComponentView>) -> Seq<
    ComponentView,
>
    decreases more.len(),
{
    if more.len() == 0 {
        path
    } else {
        join_components_spec(join_step(path, more[0]), more.skip(1))
    }
}

/// The normal form of a path.
pub open spec fn simplify_spec(path: Seq<ComponentView>) -> Seq<ComponentView> {
    join_components_spec(Seq::empty(), path)
}

/// Whether `path` begins with all the components of `base`.
pub open spec fn starts_with_spec(path: Seq<ComponentView>, base: Seq<ComponentView>) -> bool {
    base.len() <= path.len() && path.take(base.len() as int) == base
}

/// The path without its last component; `None` for the empty path and for one
/// that ends in a root or a prefix.
pub open spec fn parent_spec(path: Seq<ComponentView>) -> Option<Seq<ComponentView>> {
    if path.len() == 0 || path.last() is RootDir || path.last() is Prefix {
        None
    } else {
        Some(path.drop_last())
    }
}

/// Whether a path is in normal form: a prefix stands at the start only, a
/// root at the start or right behind a prefix, no `.` occurs, and no `..`
/// stands behind a name.
pub open spec fn is_simplified(path: Seq<ComponentView>) -> bool {
    &&& forall|i: int| 0 <= i < path.len() && (#[trigger] path[i]) is Prefix ==> i == 0
    &&& forall|i: int|
        0 <= i < path.len() && (#[trigger] path[i]) is RootDir ==> i == 0 || (i == 1
            && path[0] is Prefix)
    &&& forall|i: int| 0 <= i < path.len() ==> !((#[trigger] path[i]) is CurDir)
    &&& forall|i: int| 0 < i < path.len() ==> !#[trigger] up_behind_name(path, i)
}

/// Whether the component at `i` is a step up behind a name.
pub open spec fn up_behind_name(path: Seq<ComponentView>, i: int) -> bool {
    path[i] is ParentDir && path[i - 1] is Normal
}

/// One step of normalization keeps a path in normal form.
pub proof fn lemma_join_step_simplified(path: Seq<ComponentView>, c: ComponentView)
    requires
        is_simplified(path),
    ensures
        is_simplified(join_step(path, c)),
{
    let out = join_step(path, c);
    assert forall|i: int| 0 < i < out.len() implies !#[trigger] up_behind_name(out, i) by {
        if i < path.len() {
            assert(!up_behind_name(path, i));
        }
    }
}

/// Joining components onto a path in normal form gives a path in normal
/// form.
pub proof fn lemma_join_simplified(path: Seq<ComponentView>, more: Seq<ComponentView>)
    requires
        is_simplified(path),
    ensures
        is_simplified(join_components_spec(path, more)),
    decreases more.len(),
{
    if more.len() > 0 {
        lemma_join_step_simplified(path, more[0]);
        lemma_join_simplified(join_step(path, more[0]), more.skip(1));
    }
}

/// Joining the rest of a path in normal form onto its start gives the path.
pub proof fn lemma_join_of_simplified(path: Seq<ComponentView>, done: int)
    requires
        is_simplified(path),
        0 <= done <= path.len(),
    ensures
        join_components_spec(path.take(done), path.skip(done)) == path,
    decreases path.len() - done,
{
    if done == path.len() {
        assert(path.take(done) =~= path);
    } else {
        let start = path.take(done);
        let c = path[done];
        assert(path.skip(done)[0] == c);
        assert(path.skip(done).skip(1) =~= path.skip(done + 1));
        if done > 0 {
            assert(start.last() == path[done - 1]);
            assert(start[0] == path[0]);
            assert(!up_behind_name(path, done));
        }
        assert(join_step(start, c) =~= path.take(done + 1));
        lemma_join_of_simplified(path, done + 1);
    }
}

/// The normal form of a path is in normal form, and it is its own normal
/// form: to simplify twice is to simplify once.
pub proof fn lemma_simplify_is_idempotent(path: Seq<ComponentView>)
    ensures
        is_simplified(simplify_spec(path)),
        simplify_spec(simplify_spec(path)) == simplify_spec(path),
{
    lemma_join_simplified(Seq::empty(), path);
    let normal = simplify_spec(path);
    lemma_join_of_simplified(normal, 0);
    assert(normal.take(0) =~= Seq::<ComponentView>::empty());
    assert(normal.skip(0) =~= normal);
}

/// Whether a component is a name or a step up.
pub open spec fn is_name_or_step_up(c: ComponentView) -> bool {
    c is Normal || c is ParentDir
}

/// Pushing names and steps up onto a path appends them.
pub proof fn lemma_collect_steps(path: Seq<ComponentView>, more: Seq<ComponentView>)
    requires
        forall|i: int| 0 <= i < more.len() ==> is_name_or_step_up(#[trigger] more[i]),
    ensures
        collect_spec(path, more) == path + more,
    decreases more.len(),
{
    if more.len() == 0 {
        assert(path + more =~= path);
    } else {
        assert(is_name_or_step_up(more[0]));
        assert forall|i: int| 0 <= i < more.skip(1).len() implies is_name_or_step_up(
            #[trigger] more.skip(1)[i],
        ) by {
            assert(more.skip(1)[i] == more[i + 1]);
        }
        lemma_collect_steps(path.push(more[0]), more.skip(1));
        assert(path.push(more[0]) + more.skip(1) =~= path + more);
    }
}

/// Joining two runs of components, one after the other, is joining the one
/// run that they make.
pub proof fn lemma_join_in_two(
    path: Seq<ComponentView>,
    first: Seq<ComponentView>,
    second: Seq<ComponentView>,
)
    ensures
        join_components_spec(path, first + second) == join_components_spec(
            join_components_spec(path, first),
            second,
        ),
    decreases first.len(),
{
    if first.len() == 0 {
        assert(first + second =~= second);
    } else {
        assert((first + second)[0] == first[0]);
        assert((first + second).skip(1) =~= first.skip(1) + second);
        lemma_join_in_two(join_step(path, first[0]), first.skip(1), second);
    }
}

/// Steps up take the names at the end of a path away, one each.
pub proof fn lemma_join_steps_up(path: Seq<ComponentView>, ups: Seq<ComponentView>)
    requires
        ups.len() <= path.len(),
        forall|i: int| 0 <= i < ups.len() ==> #[trigger] ups[i] == ComponentView::ParentDir,
        forall|i: int| path.len() - ups.len() <= i < path.len() ==> (#[trigger] path[i]) is Normal,
    ensures
        join_components_spec(path, ups) == path.take(path.len() - ups.len()),
    decreases ups.len(),
{
    if ups.len() == 0 {
        assert(path.take(path.len() as int) =~= path);
    } else {
        assert(ups[0] == ComponentView::ParentDir);
        assert(path.last() is Normal);
        let shorter = path.drop_last();
        assert forall|i: int| 0 <= i < ups.skip(1).len() implies #[trigger] ups.skip(1)[i]
            == ComponentView::ParentDir by {
            assert(ups.skip(1)[i] == ups[i + 1]);
        }
        assert forall|i: int| shorter.len() - ups.skip(1).len() <= i < shorter.len() implies (
        #[trigger] shorter[i]) is Normal by {
            assert(shorter[i] == path[i]);
        }
        lemma_join_steps_up(shorter, ups.skip(1));
        assert(shorter.take(shorter.len() - ups.skip(1).len()) =~= path.take(
            path.len() - ups.len(),
        ));
    }
}

/// Joining names and steps up onto a path appends them, where no step up
/// comes to stand behind a name.
pub proof fn lemma_join_appends(path: Seq<ComponentView>, more: Seq<ComponentView>)
    requires
        forall|i: int| 0 <= i < more.len() ==> is_name_or_step_up(#[trigger] more[i]),
        forall|i: int| 0 < i < more.len() ==> !#[trigger] up_behind_name(more, i),
        more.len() > 0 && more[0] is ParentDir ==> path.len() == 0 || !(path.last() is Normal),
    ensures
        join_components_spec(path, more) == path + more,
    decreases more.len(),
{
    if more.len() == 0 {
        assert(path + more =~= path);
    } else {
        let rest = more.skip(1);
        assert(is_name_or_step_up(more[0]));
        assert(join_step(path, more[0]) == path.push(more[0]));
        assert forall|i: int| 0 <= i < rest.len() implies is_name_or_step_up(#[trigger] rest[i]) by {
            assert(rest[i] == more[i + 1]);
        }
        assert forall|i: int| 0 < i < rest.len() implies !#[trigger] up_behind_name(rest, i) by {
            assert(rest[i] == more[i + 1]);
            assert(rest[i - 1] == more[i]);
            assert(!up_behind_name(more, i + 1));
        }
        if rest.len() > 0 && rest[0] is ParentDir {
            assert(rest[0] == more[1]);
            assert(!up_behind_name(more, 1));
        }
        lemma_join_appends(path.push(more[0]), rest);
        assert(path.push(more[0]) + rest =~= path + more);
    }
}

/// The components that two paths share are equal, one by one.
pub proof fn lemma_common_start(a: Seq<ComponentView>, b: Seq<ComponentView>, i: int)
    requires
        0 <= i < common_len(a, b),
    ensures
        i < a.len(),
        i < b.len(),
        comps_eq_spec(a[i], b[i]),
    decreases i,
{
    if i > 0 {
        lemma_common_start(a.skip(1), b.skip(1), i - 1);
        assert(a.skip(1)[i - 1] == a[i]);
        assert(b.skip(1)[i - 1] == b[i]);
    }
}

/// Two paths share no more components than either has.
pub proof fn lemma_common_len_bound(a: Seq<ComponentView>, b: Seq<ComponentView>)
    ensures
        common_len(a, b) <= a.len(),
        common_len(a, b) <= b.len(),
    decreases a.len(),
{
    if a.len() > 0 && b.len() > 0 && comps_eq_spec(a[0], b[0]) {
        lemma_common_len_bound(a.skip(1), b.skip(1));
    }
}

/// The way from a directory to a path leads there: joined onto the
/// directory, it gives the start that both share and then the rest of the
/// path. This holds of a directory and a path in normal form, where the
/// directory goes on with names behind the shared start, and the path with
/// names and steps up.
pub proof fn lemma_relative_path_leads_there(src: Seq<ComponentView>, dst: Seq<ComponentView>)
    requires
        is_simplified(src),
        is_simplified(dst),
        forall|i: int| common_len(src, dst) <= i < src.len() ==> (#[trigger] src[i]) is Normal,
        forall|i: int| common_len(src, dst) <= i < dst.len() ==> is_name_or_step_up(#[trigger] dst[i]),
    ensures
        join_components_spec(src, relative_path_spec(src, dst)) == src.take(
            common_len(src, dst) as int,
        ) + dst.skip(common_len(src, dst) as int),
{
    lemma_common_len_bound(src, dst);
    let k = common_len(src, dst) as int;
    let ups = Seq::new((src.len() - k) as nat, |i: int| ComponentView::ParentDir);
    let rest = dst.skip(k);
    lemma_collect_steps(ups, rest);
    lemma_join_in_two(src, ups, rest);
    lemma_join_steps_up(src, ups);
    if rest.len() > 0 && rest[0] is ParentDir && k > 0 {
        lemma_common_start(src, dst, k - 1);
        assert(dst[k] is ParentDir);
        assert(!up_behind_name(dst, k));
        assert(src.take(k).last() == src[k - 1]);
    }
    assert forall|i: int| 0 < i < rest.len() implies !#[trigger] up_behind_name(rest, i) by {
        assert(rest[i] == dst[k + i]);
        assert(rest[i - 1] == dst[k + i - 1]);
        assert(!up_behind_name(dst, k + i));
    }
    lemma_join_appends(src.take(k), rest);
}

impl Clone for Prefix {
    fn clone(&self) -> (out: Self)
        ensures
            out@ == self@,
    {
        match self {
            Prefix::Verbatim(a) => Prefix::Verbatim(a.clone()),
            Prefix::VerbatimUNC(a, b) => Prefix::VerbatimUNC(a.clone(), b.clone()),
            Prefix::VerbatimDisk(d) => Prefix::VerbatimDisk(*d),
            Prefix::DeviceNS(a) => Prefix::DeviceNS(a.clone()),
            Prefix::UNC(a, b) => Prefix::UNC(a.clone(), b.clone()),
            Prefix::Disk(d) => Prefix::Disk(*d),
        }
    }
}

impl Clone for Component {
    fn clone(&self) -> (out: Self)
        ensures
            out@ == self@,
    {
        match self {
            Component::Prefix(p) => Component::Prefix(p.clone()),
            Component::RootDir => Component::RootDir,
            Component::CurDir => Component::CurDir,
            Component::ParentDir => Component::ParentDir,
            Component::Normal(name) => Component::Normal(name.clone()),
        }
    }
}

impl Clone for FilePath {
    fn clone(&self) -> (out: Self)
        ensures
            out@ == self@,
    {
        let mut components: Vec<Component> = Vec::new();
        let mut i: usize = 0;
        while i < self.components.len()
            invariant
                i <= self.components.len(),
                components.len() == i,
                forall|k: int| 0 <= k < i ==> components@[k]@ == self.components@[k]@,
            decreases self.components.len() - i,
        {
            components.push(self.components[i].clone());
            i += 1;
        }
        let out = FilePath { components };
        assert(out@ =~= self@);
        out
    }
}

impl Prefix {
    /// The reduced form of this prefix, borrowing its names.
    pub fn reduced(&self) -> (out: ReducedPrefix<'_>)
        ensures
            out@ == reduced_prefix(self@),
    {
        match self {
            Prefix::Verbatim(a) => ReducedPrefix::Verbatim(a.as_str()),
            Prefix::VerbatimUNC(a, b) => ReducedPrefix::UNC(a.as_str(), b.as_str()),
            Prefix::VerbatimDisk(d) => ReducedPrefix::Disk(*d),
            Prefix::DeviceNS(a) => ReducedPrefix::DeviceNS(a.as_str()),
            Prefix::UNC(a, b) => ReducedPrefix::UNC(a.as_str(), b.as_str()),
            Prefix::Disk(d) => ReducedPrefix::Disk(*d),
        }
    }

    /// Whether two prefixes are the same, verbatim form included.
    pub fn same(&self, other: &Prefix) -> (same: bool)
        ensures
            same == (self@ == other@),
    {
        match (self, other) {
            (Prefix::Verbatim(a), Prefix::Verbatim(x)) => str_eq(a.as_str(), x.as_str()),
            (Prefix::VerbatimUNC(a, b), Prefix::VerbatimUNC(x, y)) => str_eq(
                a.as_str(),
                x.as_str(),
            ) && str_eq(b.as_str(), y.as_str()),
            (Prefix::VerbatimDisk(d), Prefix::VerbatimDisk(e)) => *d == *e,
            (Prefix::DeviceNS(a), Prefix::DeviceNS(x)) => str_eq(a.as_str(), x.as_str()),
            (Prefix::UNC(a, b), Prefix::UNC(x, y)) => str_eq(a.as_str(), x.as_str()) && str_eq(
                b.as_str(),
                y.as_str(),
            ),
            (Prefix::Disk(d), Prefix::Disk(e)) => *d == *e,
            _ => false,
        }
    }
}

impl<'a> ReducedPrefix<'a> {
    /// Whether two reduced prefixes are the same.
    pub fn same(&self, other: &ReducedPrefix<'_>) -> (same: bool)
        ensures
            same == (self@ == other@),
    {
        match (self, other) {
            (ReducedPrefix::Verbatim(a), ReducedPrefix::Verbatim(x)) => str_eq(a, x),
            (ReducedPrefix::DeviceNS(a), ReducedPrefix::DeviceNS(x)) => str_eq(a, x),
            (ReducedPrefix::UNC(a, b), ReducedPrefix::UNC(x, y)) => str_eq(a, x) && str_eq(b, y),
            (ReducedPrefix::Disk(d), ReducedPrefix::Disk(e)) => *d == *e,
            _ => false,
        }
    }
}

impl Component {
    /// Whether two components are the same.
    pub fn same(&self, other: &Component) -> (same: bool)
        ensures
            same == (self@ == other@),
    {
        match (self, other) {
            (Component::Prefix(p), Component::Prefix(q)) => p.same(q),
            (Component::RootDir, Component::RootDir) => true,
            (Component::CurDir, Component::CurDir) => true,
            (Component::ParentDir, Component::ParentDir) => true,
            (Component::Normal(a), Component::Normal(b)) => str_eq(a.as_str(), b.as_str()),
            _ => false,
        }
    }
}

impl FilePath {
    /// The empty path.
    pub fn new() -> (out: Self)
        ensures
            out@ == Seq::<ComponentView>::empty(),
    {
        let out = FilePath { components: Vec::new() };
        assert(out@ =~= Seq::<ComponentView>::empty());
        out
    }

    /// The number of components.
    pub fn len(&self) -> (n: usize)
        ensures
            n == self@.len(),
    {
        self.components.len()
    }

    /// Pushes one component: a prefix starts the path anew, a root keeps only
    /// a leading prefix, anything else is appended.
    pub fn push(&mut self, c: Component)
        ensures
            final(self)@ == push_spec(old(self)@, c@),
    {
        match c {
            Component::Prefix(_) => {
                self.components.truncate(0);
                self.components.push(c);
            },
            Component::RootDir => {
                let keep = self.components.len() > 0 && match self.components[0] {
                    Component::Prefix(_) => true,
                    _ => false,
                };
                if keep {
                    self.components.truncate(1);
                } else {
                    self.components.truncate(0);
                }
                self.components.push(c);
            },
            _ => {
                self.components.push(c);
            },
        }
        assert(self@ =~= push_spec(old(self)@, c@));
    }

    /// This path with all the components of `other` pushed onto it.
    pub fn join(&self, other: &FilePath) -> (out: FilePath)
        ensures
            out@ == collect_spec(self@, other@),
    {
        let mut out = self.clone();
        let ghost more = other@;
        let mut i: usize = 0;
        assert(more.skip(0) =~= more);
        while i < other.components.len()
            invariant
                i <= other.components.len(),
                more == other@,
                collect_spec(out@, more.skip(i as int)) == collect_spec(self@, more),
            decreases other.components.len() - i,
        {
            proof {
                assert(more.skip(i as int).skip(1) =~= more.skip(i + 1));
                assert(more.skip(i as int)[0] == other.components@[i as int]@);
            }
            out.push(other.components[i].clone());
            i += 1;
        }
        out
    }

    /// Whether two paths have the same components.
    pub fn same(&self, other: &FilePath) -> (same: bool)
        ensures
            same == (self@ == other@),
    {
        if self.components.len() != other.components.len() {
            assert(self@.len() != other@.len());
            return false;
        }
        let mut i: usize = 0;
        while i < self.components.len()
            invariant
                i <= self.components.len(),
                self.components.len() == other.components.len(),
                forall|k: int| 0 <= k < i ==> self@[k] == other@[k],
            decreases self.components.len() - i,
        {
            if !self.components[i].same(&other.components[i]) {
                assert(self@[i as int] != other@[i as int]);
                return false;
            }
            i += 1;
        }
        assert(self@ =~= other@);
        true
    }

    /// Whether this path begins with all the components of `base`.
    pub fn starts_with(&self, base: &FilePath) -> (yes: bool)
        ensures
            yes == starts_with_spec(self@, base@),
    {
        if base.components.len() > self.components.len() {
            return false;
        }
        let mut i: usize = 0;
        while i < base.components.len()
            invariant
                i <= base.components.len(),
                base.components.len() <= self.components.len(),
                forall|k: int| 0 <= k < i ==> self@[k] == base@[k],
            decreases base.components.len() - i,
        {
            if !self.components[i].same(&base.components[i]) {
                assert(self@.take(base@.len() as int)[i as int] != base@[i as int]);
                return false;
            }
            i += 1;
        }
        assert(self@.take(base@.len() as int) =~= base@);
        true
    }

    /// The path without its last component; `None` for the empty path and for
    /// one that ends in a root or a prefix.
    pub fn parent(&self) -> (out: Option<FilePath>)
        ensures
            out is Some == parent_spec(self@) is Some,
            out matches Some(p) ==> Some(p@) == parent_spec(self@),
    {
        let n = self.components.len();
        if n == 0 {
            return None;
        }
        match self.components[n - 1] {
            Component::RootDir => None,
            Component::Prefix(_) => None,
            _ => {
                let mut p = self.clone();
                p.components.truncate(n - 1);
                assert(p@ =~= self@.drop_last());
                Some(p)
            },
        }
    }

    /// The name of the last component, where that is a normal one.
    pub fn file_name(&self) -> (out: Option<&String>)
        ensures
            match out {
                Some(name) => self@.len() > 0 && self@.last() == ComponentView::Normal(name@),
                None => self@.len() == 0 || !(self@.last() is Normal),
            },
    {
        let n = self.components.len();
        if n == 0 {
            return None;
        }
        match &self.components[n - 1] {
            Component::Normal(name) => Some(name),
            _ => None,
        }
    }
}

/// Unfolds [`common_len`] at a position where both paths still agree.
proof fn lemma_common_len_step(a: Seq<ComponentView>, b: Seq<ComponentView>, k: int)
    requires
        0 <= k < a.len(),
        k < b.len(),
        comps_eq_spec(a[k], b[k]),
    ensures
        common_len(a.skip(k), b.skip(k)) == 1 + common_len(a.skip(k + 1), b.skip(k + 1)),
{
    assert(a.skip(k).skip(1) =~= a.skip(k + 1));
    assert(b.skip(k).skip(1) =~= b.skip(k + 1));
}

/// The way from the directory `abs_src_dir` to `abs_dst_path`.
pub fn relative_path(abs_src_dir: &FilePath, abs_dst_path: &FilePath) -> (out: FilePath)
    ensures
        out@ == relative_path_spec(abs_src_dir@, abs_dst_path@),
{
    let src = &abs_src_dir.components;
    let dst = &abs_dst_path.components;
    let ghost s = abs_src_dir@;
    let ghost d = abs_dst_path@;
    let mut k: usize = 0;
    assert(s.skip(0) =~= s && d.skip(0) =~= d);
    loop
        invariant_except_break
            k <= src.len(),
            k <= dst.len(),
            common_len(s, d) == k + common_len(s.skip(k as int), d.skip(k as int)),
        invariant
            s == abs_src_dir@,
            d == abs_dst_path@,
            src == &abs_src_dir.components,
            dst == &abs_dst_path.components,
        ensures
            k <= src.len(),
            k <= dst.len(),
            common_len(s, d) == k,
        decreases src.len() - k,
    {
        if k >= src.len() || k >= dst.len() {
            break ;
        }
        if !comps_eq(&src[k], &dst[k]) {
            assert(s.skip(k as int)[0] == s[k as int]);
            assert(d.skip(k as int)[0] == d[k as int]);
            break ;
        }
        proof {
            lemma_common_len_step(s, d, k as int);
        }
        k += 1;
    }
    let mut out = FilePath::new();
    let mut i: usize = k;
    while i < src.len()
        invariant
            k <= i <= src.len(),
            out@ == Seq::new((i - k) as nat, |j: int| ComponentView::ParentDir),
        decreases src.len() - i,
    {
        out.push(Component::ParentDir);
        i += 1;
        assert(out@ =~= Seq::new((i - k) as nat, |j: int| ComponentView::ParentDir));
    }
    let ghost ups = out@;
    let mut j: usize = k;
    while j < dst.len()
        invariant
            k <= j <= dst.len(),
            d == abs_dst_path@,
            dst == &abs_dst_path.components,
            collect_spec(out@, d.skip(j as int)) == collect_spec(ups, d.skip(k as int)),
        decreases dst.len() - j,
    {
        proof {
            assert(d.skip(j as int).skip(1) =~= d.skip(j + 1));
            assert(d.skip(j as int)[0] == dst@[j as int]@);
        }
        out.push(dst[j].clone());
        j += 1;
    }
    out
}

/// Joins `components` onto `result`: `.` is dropped, `..` removes a preceding
/// normal component and is kept otherwise, every other component is pushed.
pub fn join_components(result: &mut FilePath, components: &FilePath)
    ensures
        final(result)@ == join_components_spec(old(result)@, components@),
{
    let ghost more = components@;
    let mut i: usize = 0;
    assert(more.skip(0) =~= more);
    while i < components.components.len()
        invariant
            i <= components.components.len(),
            more == components@,
            join_components_spec(result@, more.skip(i as int)) == join_components_spec(
                old(result)@,
                more,
            ),
        decreases components.components.len() - i,
    {
        proof {
            assert(more.skip(i as int).skip(1) =~= more.skip(i + 1));
            assert(more.skip(i as int)[0] == components.components@[i as int]@);
        }
        let ghost before = result@;
        match &components.components[i] {
            Component::CurDir => {},
            Component::ParentDir => {
                let n = result.components.len();
                let after_normal = n > 0 && match result.components[n - 1] {
                    Component::Normal(_) => true,
                    _ => false,
                };
                if after_normal {
                    result.components.truncate(n - 1);
                    assert(result@ =~= before.drop_last());
                } else {
                    result.push(Component::ParentDir);
                }
            },
            current => {
                result.push(current.clone());
            },
        }
        i += 1;
    }
}

/// Normalization of paths.
pub trait PathExt {
    /// The normal form of the path, as a sequence of components.
    spec fn simplify_view(&self) -> Seq<ComponentView>;

    /// The path joined onto `current_dir`, as a sequence of components.
    spec fn simplified_absolute_view(&self, current_dir: &FilePath) -> Seq<ComponentView>;

    /// The normal form of the path.
    fn simplify(&self) -> (out: FilePath)
        ensures
            out@ == self.simplify_view(),
    ;

    /// The normal form of the path, taken from `current_dir` where the path
    /// does not start anew by itself.
    fn simplified_absolute(&self, current_dir: &FilePath) -> (out: FilePath)
        ensures
            out@ == self.simplified_absolute_view(current_dir),
    ;
}

impl PathExt for FilePath {
    open spec fn simplify_view(&self) -> Seq<ComponentView> {
        simplify_spec(self@)
    }

    open spec fn simplified_absolute_view(&self, current_dir: &FilePath) -> Seq<ComponentView> {
        join_components_spec(current_dir@, self@)
    }

    fn simplify(&self) -> (out: FilePath) {
        let mut path = FilePath::new();
        join_components(&mut path, self);
        path
    }

    fn simplified_absolute(&self, current_dir: &FilePath) -> (out: FilePath) {
        let mut path = current_dir.clone();
        join_components(&mut path, self);
        path
    }
}

/// The text of a drive.
pub open spec fn drive_text(d: u8) -> Seq<char> {
    seq![d as char, ':']
}

/// The text of a prefix.
pub open spec fn prefix_text(p: PrefixView) -> Seq<char> {
    match p {
        PrefixView::Verbatim(a) => seq!['\\', '\\', '?', '\\'] + a,
        PrefixView::VerbatimUNC(a, b) => seq!['\\', '\\', '?', '\\', 'U', 'N', 'C', '\\'] + a
            + seq!['\\'] + b,
        PrefixView::VerbatimDisk(d) => seq!['\\', '\\', '?', '\\'] + drive_text(d),
        PrefixView::DeviceNS(a) => seq!['\\', '\\', '.', '\\'] + a,
        PrefixView::UNC(a, b) => seq!['\\', '\\'] + a + seq!['\\'] + b,
        PrefixView::Disk(d) => drive_text(d),
    }
}

/// The text of a component, where `separator` parts the components.
pub open spec fn component_text(c: ComponentView, separator: char) -> Seq<char> {
    match c {
        ComponentView::Prefix(p) => prefix_text(p),
        ComponentView::RootDir => seq![separator],
        ComponentView::CurDir => seq!['.'],
        ComponentView::ParentDir => seq!['.', '.'],
        ComponentView::Normal(name) => name,
    }
}

/// Whether a separator stands between two components that follow each
/// other: none before a root, none after a root or a prefix.
pub open spec fn parted(before: ComponentView, c: ComponentView) -> bool {
    !(c is RootDir) && !(before is RootDir) && !(before is Prefix)
}

/// The text of a path: its components, parted by `separator`.
pub open spec fn display_spec(path: Seq<ComponentView>, separator: char) -> Seq<char>
    decreases path.len(),
{
    if path.len() == 0 {
        Seq::empty()
    } else {
        let before = display_spec(path.drop_last(), separator);
        let c = path.last();
        if path.len() > 1 && parted(path[path.len() - 2], c) {
            before.push(separator) + component_text(c, separator)
        } else {
            before + component_text(c, separator)
        }
    }
}

impl Prefix {
    /// Appends the text of the prefix.
    pub fn push_text(&self, out: &mut String)
        ensures
            final(out)@ == old(out)@ + prefix_text(self@),
    {
        match self {
            Prefix::Verbatim(a) => {
                out.push('\\');
                out.push('\\');
                out.push('?');
                out.push('\\');
                out.append(a.as_str());
            },
            Prefix::VerbatimUNC(a, b) => {
                out.push('\\');
                out.push('\\');
                out.push('?');
                out.push('\\');
                out.push('U');
                out.push('N');
                out.push('C');
                out.push('\\');
                out.append(a.as_str());
                out.push('\\');
                out.append(b.as_str());
            },
            Prefix::VerbatimDisk(d) => {
                out.push('\\');
                out.push('\\');
                out.push('?');
                out.push('\\');
                out.push(*d as char);
                out.push(':');
            },
            Prefix::DeviceNS(a) => {
                out.push('\\');
                out.push('\\');
                out.push('.');
                out.push('\\');
                out.append(a.as_str());
            },
            Prefix::UNC(a, b) => {
                out.push('\\');
                out.push('\\');
                out.append(a.as_str());
                out.push('\\');
                out.append(b.as_str());
            },
            Prefix::Disk(d) => {
                out.push(*d as char);
                out.push(':');
            },
        }
        assert(out@ =~= old(out)@ + prefix_text(self@));
    }
}

impl Component {
    /// Appends the text of the component.
    pub fn push_text(&self, out: &mut String, separator: char)
        ensures
            final(out)@ == old(out)@ + component_text(self@, separator),
    {
        match self {
            Component::Prefix(p) => {
                p.push_text(out);
            },
            Component::RootDir => {
                out.push(separator);
            },
            Component::CurDir => {
                out.push('.');
            },
            Component::ParentDir => {
                out.push('.');
                out.push('.');
            },
            Component::Normal(name) => {
                out.append(name.as_str());
            },
        }
        assert(out@ =~= old(out)@ + component_text(self@, separator));
    }
}

impl FilePath {
    /// Appends the text of the path, its components parted by `separator`.
    pub fn push_display(&self, out: &mut String, separator: char)
        ensures
            final(out)@ == old(out)@ + display_spec(self@, separator),
    {
        let ghost path = self@;
        let mut i: usize = 0;
        assert(out@ =~= old(out)@ + display_spec(path.take(0), separator));
        while i < self.components.len()
            invariant
                i <= self.components.len(),
                path == self@,
                out@ == old(out)@ + display_spec(path.take(i as int), separator),
            decreases self.components.len() - i,
        {
            let ghost before = display_spec(path.take(i as int), separator);
            proof {
                assert(path.take(i + 1).drop_last() =~= path.take(i as int));
                assert(path.take(i + 1).last() == self.components@[i as int]@);
                if i > 0 {
                    assert(path.take(i + 1)[i - 1] == self.components@[i - 1]@);
                }
            }
            let c = &self.components[i];
            let parted = i > 0 && !matches!(c, Component::RootDir) && !matches!(
                self.components[i - 1],
                Component::RootDir
            ) && !matches!(self.components[i - 1], Component::Prefix(_));
            if parted {
                out.push(separator);
            }
            c.push_text(out, separator);
            proof {
                if parted {
                    assert(out@ =~= old(out)@ + (before.push(separator) + component_text(
                        c@,
                        separator,
                    )));
                } else {
                    assert(out@ =~= old(out)@ + (before + component_text(c@, separator)));
                }
            }
            i += 1;
        }
        assert(path.take(self.components.len() as int) =~= path);
    }

    /// The text of the path, its components parted by `separator`.
    pub fn display(&self, separator: char) -> (out: String)
        ensures
            out@ == display_spec(self@, separator),
    {
        let mut out = String::new();
        self.push_display(&mut out, separator);
        assert(out@ =~= display_spec(self@, separator));
        out
    }
}

/// Compares two components, taking prefixes by their reduced form.
pub fn comps_eq(a: &Component, b: &Component) -> (same: bool)
    ensures
        same == comps_eq_spec(a@, b@),
{
    match (a, b) {
        (Component::Prefix(p), Component::Prefix(q)) => p.reduced().same(&q.reduced()),
        _ => a.same(b),
    }
}

} // verus!
