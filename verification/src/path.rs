//! Paths as sequences of segments, and the arithmetic on them: making a path
//! absolute, making it relative to a directory, and testing containment.
//!
//! A path never touches the disk here. `..` and `.` are segments like any
//! other until a path is resolved against a directory.

use vstd::prelude::*;

verus! {

/// A path: its segments in order, and whether it starts at the root.
#[derive(Debug, PartialEq, Eq, Hash)]
pub struct Path {
    pub absolute: bool,
    pub parts: Vec<String>,
}

/// What a `Path` stands for in specifications.
pub struct PathView {
    pub absolute: bool,
    pub parts: Seq<Seq<char>>,
}

/// The texts of a sequence of strings.
pub open spec fn text_seq(v: Seq<String>) -> Seq<Seq<char>> {
    Seq::new(v.len(), |i: int| v[i]@)
}

/// The views of a sequence of paths.
pub open spec fn path_seq(v: Seq<Path>) -> Seq<PathView> {
    Seq::new(v.len(), |i: int| v[i]@)
}

impl View for Path {
    type V = PathView;

    open spec fn view(&self) -> PathView {
        PathView { absolute: self.absolute, parts: text_seq(self.parts@) }
    }
}

impl DeepView for Path {
    type V = PathView;

    open spec fn deep_view(&self) -> PathView {
        self@
    }
}

impl Clone for Path {
    fn clone(&self) -> (copy: Path)
        ensures
            copy@ == self@,
    {
        let parts = self.parts.clone();
        assert(text_seq(parts@) =~= text_seq(self.parts@));
        Path { absolute: self.absolute, parts }
    }
}

/// The two directories every command is run against: the root of the working
/// tree and the directory the user stands in.
#[derive(Debug)]
pub struct Dirs {
    pub work: Path,
    pub current: Path,
}

/// What a `Dirs` stands for in specifications.
pub struct DirsView {
    pub work: PathView,
    pub current: PathView,
}

impl View for Dirs {
    type V = DirsView;

    open spec fn view(&self) -> DirsView {
        DirsView { work: self.work@, current: self.current@ }
    }
}

impl DirsView {
    /// Both directories are canonical, and the current one lies in the
    /// working tree.
    pub open spec fn wf(self) -> bool {
        &&& canonical(self.work)
        &&& canonical(self.current)
        &&& self.work.parts.is_prefix_of(self.current.parts)
    }
}

impl Clone for Dirs {
    fn clone(&self) -> (copy: Dirs)
        ensures
            copy@ == self@,
    {
        Dirs { work: self.work.clone(), current: self.current.clone() }
    }
}

/// One step of resolution: `..` leaves the last segment, `.` stays, any other
/// segment is entered.
pub open spec fn resolve_step(base: Seq<Seq<char>>, part: Seq<char>) -> Seq<Seq<char>> {
    if part == ".."@ {
        if base.len() > 0 {
            base.drop_last()
        } else {
            base
        }
    } else if part == "."@ {
        base
    } else {
        base.push(part)
    }
}

/// The segments reached from `base` by walking `parts` in order.
pub open spec fn resolve(base: Seq<Seq<char>>, parts: Seq<Seq<char>>) -> Seq<Seq<char>>
    decreases parts.len(),
{
    if parts.len() == 0 {
        base
    } else {
        resolve_step(resolve(base, parts.drop_last()), parts.last())
    }
}

/// No `..` in `parts` is met at the root.
pub open spec fn resolvable(base: Seq<Seq<char>>, parts: Seq<Seq<char>>) -> bool {
    forall|k: int|
        0 <= k < parts.len() && (#[trigger] parts[k]) == ".."@ ==> resolve(
            base,
            parts.take(k),
        ).len() > 0
}

/// `path` can be made absolute against `dir`: it is absolute already, or it
/// never climbs above the root.
pub open spec fn resolves(path: PathView, dir: PathView) -> bool {
    path.absolute || resolvable(dir.parts, path.parts)
}

/// `path` as an absolute path, relative paths being read from `dir`. An
/// absolute path is taken as it is.
pub open spec fn absolute_form(path: PathView, dir: PathView) -> PathView {
    if path.absolute {
        path
    } else {
        PathView { absolute: dir.absolute, parts: resolve(dir.parts, path.parts) }
    }
}

/// `path` lies at or below `parent`, segment by segment.
pub open spec fn starts_with(path: PathView, parent: PathView) -> bool {
    path.absolute == parent.absolute && parent.parts.is_prefix_of(path.parts)
}

/// How many leading segments two sequences share.
pub open spec fn common_len(a: Seq<Seq<char>>, b: Seq<Seq<char>>) -> nat
    decreases a.len(),
{
    if a.len() == 0 || b.len() == 0 || a[0] != b[0] {
        0
    } else {
        1 + common_len(a.drop_first(), b.drop_first())
    }
}

/// The deepest directory that holds both paths.
pub open spec fn common_dir(a: PathView, b: PathView) -> PathView {
    if a.absolute == b.absolute {
        PathView { absolute: a.absolute, parts: a.parts.take(common_len(a.parts, b.parts) as int) }
    } else {
        PathView { absolute: false, parts: Seq::empty() }
    }
}

/// `count` times the segment `..`.
pub open spec fn climbs(count: nat) -> Seq<Seq<char>> {
    Seq::new(count, |i: int| ".."@)
}

/// `path` (absolute) as seen from the absolute directory `dir`: one `..` for
/// each segment of `dir` below their common directory, then the rest of
/// `path`.
pub open spec fn relative_form(path: PathView, dir: PathView) -> PathView {
    let shared = common_len(path.parts, dir.parts);
    PathView {
        absolute: false,
        parts: climbs((dir.parts.len() - shared) as nat) + path.parts.skip(shared as int),
    }
}

/// `path` lies at or below one of `paths`, all of them read from `current`.
pub open spec fn included(path: PathView, paths: Seq<PathView>, current: PathView) -> bool {
    exists|i: int|
        0 <= i < paths.len() && starts_with(
            absolute_form(path, current),
            absolute_form(#[trigger] paths[i], current),
        )
}

pub proof fn lemma_common_len_bounds(a: Seq<Seq<char>>, b: Seq<Seq<char>>)
    ensures
        common_len(a, b) <= a.len(),
        common_len(a, b) <= b.len(),
        a.take(common_len(a, b) as int) == b.take(common_len(a, b) as int),
        common_len(a, b) < a.len() && common_len(a, b) < b.len() ==> a[common_len(a, b) as int]
            != b[common_len(a, b) as int],
    decreases a.len(),
{
    if a.len() == 0 || b.len() == 0 || a[0] != b[0] {
        assert(a.take(0) =~= b.take(0));
    } else {
        lemma_common_len_bounds(a.drop_first(), b.drop_first());
        let n = common_len(a.drop_first(), b.drop_first()) as int;
        assert(a.drop_first().take(n) == b.drop_first().take(n));
        assert forall|i: int| 0 <= i < n + 1 implies #[trigger] a.take(n + 1)[i] == b.take(n + 1)[i] by {
            if i > 0 {
                assert(a.drop_first().take(n)[i - 1] == a[i]);
                assert(b.drop_first().take(n)[i - 1] == b[i]);
            }
        }
        assert(a.take(n + 1) =~= b.take(n + 1));
        if n < a.drop_first().len() && n < b.drop_first().len() {
            assert(a.drop_first()[n] == a[n + 1]);
            assert(b.drop_first()[n] == b[n + 1]);
        }
    }
}

/// A shared prefix that cannot be extended is the longest one.
pub proof fn lemma_common_len_unique(a: Seq<Seq<char>>, b: Seq<Seq<char>>, n: int)
    requires
        0 <= n <= a.len(),
        n <= b.len(),
        a.take(n) == b.take(n),
        n < a.len() && n < b.len() ==> a[n] != b[n],
    ensures
        common_len(a, b) == n,
    decreases a.len(),
{
    if n == 0 {
    } else {
        assert(a.take(n)[0] == b.take(n)[0]);
        assert(a.drop_first().take(n - 1) =~= a.take(n).drop_first());
        assert(b.drop_first().take(n - 1) =~= b.take(n).drop_first());
        if n < a.len() && n < b.len() {
            assert(a.drop_first()[n - 1] == a[n]);
            assert(b.drop_first()[n - 1] == b[n]);
        }
        lemma_common_len_unique(a.drop_first(), b.drop_first(), n - 1);
    }
}

fn is_parent_mark(part: &String) -> (yes: bool)
    ensures
        yes == (part@ == ".."@),
{
    let mark = String::from_str("..");
    *part == mark
}

fn is_current_mark(part: &String) -> (yes: bool)
    ensures
        yes == (part@ == "."@),
{
    let mark = String::from_str(".");
    *part == mark
}

/// Whether two lists of segments hold the same texts.
pub fn same_parts(a: &Vec<String>, b: &Vec<String>) -> (same: bool)
    ensures
        same == (text_seq(a@) == text_seq(b@)),
{
    if a.len() != b.len() {
        assert(text_seq(a@).len() != text_seq(b@).len());
        return false;
    }
    let mut i: usize = 0;
    while i < a.len()
        invariant
            0 <= i <= a.len(),
            a.len() == b.len(),
            forall|k: int| 0 <= k < i ==> a@[k]@ == b@[k]@,
        decreases a.len() - i,
    {
        if a[i] != b[i] {
            assert(text_seq(a@)[i as int] != text_seq(b@)[i as int]);
            return false;
        }
        i += 1;
    }
    assert(text_seq(a@) =~= text_seq(b@));
    true
}

/// Whether `prefix` is a leading part of `whole`, segment by segment.
pub fn parts_start_with(whole: &Vec<String>, prefix: &Vec<String>) -> (yes: bool)
    ensures
        yes == text_seq(prefix@).is_prefix_of(text_seq(whole@)),
{
    if prefix.len() > whole.len() {
        return false;
    }
    let mut i: usize = 0;
    while i < prefix.len()
        invariant
            0 <= i <= prefix.len(),
            prefix.len() <= whole.len(),
            forall|k: int| 0 <= k < i ==> whole@[k]@ == prefix@[k]@,
        decreases prefix.len() - i,
    {
        if whole[i] != prefix[i] {
            assert(text_seq(whole@)[i as int] != text_seq(prefix@)[i as int]);
            return false;
        }
        i += 1;
    }
    assert(text_seq(prefix@) =~= text_seq(whole@).subrange(0, prefix@.len() as int));
    true
}

impl Path {
    /// A path from its segments.
    pub fn new(absolute: bool, parts: Vec<String>) -> (path: Path)
        ensures
            path@ == (PathView { absolute, parts: text_seq(parts@) }),
    {
        Path { absolute, parts }
    }

    /// Whether two paths have the same segments and the same anchoring.
    pub fn same_as(&self, other: &Path) -> (same: bool)
        ensures
            same == (self@ == other@),
    {
        self.absolute == other.absolute && same_parts(&self.parts, &other.parts)
    }

    /// Whether this path lies at or below `parent`.
    pub fn starts_with(&self, parent: &Path) -> (yes: bool)
        ensures
            yes == starts_with(self@, parent@),
    {
        self.absolute == parent.absolute && parts_start_with(&self.parts, &parent.parts)
    }

    /// This path with one more segment.
    pub fn join(&self, name: &String) -> (longer: Path)
        ensures
            longer@ == (PathView { absolute: self@.absolute, parts: self@.parts.push(name@) }),
    {
        let mut parts = self.parts.clone();
        assert(text_seq(parts@) =~= text_seq(self.parts@));
        parts.push(name.clone());
        assert(text_seq(parts@) =~= text_seq(self.parts@).push(name@));
        Path { absolute: self.absolute, parts }
    }

    /// The directory that holds this path; the root and the empty path hold
    /// themselves.
    pub fn parent(&self) -> (dir: Path)
        ensures
            dir@.absolute == self@.absolute,
            dir@.parts == if self@.parts.len() > 0 {
                self@.parts.drop_last()
            } else {
                self@.parts
            },
    {
        let mut parts = self.parts.clone();
        assert(text_seq(parts@) =~= text_seq(self.parts@));
        if parts.len() > 0 {
            parts.pop();
            assert(text_seq(parts@) =~= text_seq(self.parts@).drop_last());
        }
        Path { absolute: self.absolute, parts }
    }
}

/// Makes `path` absolute against `dir` where that is possible: where `path`
/// is absolute already, or never climbs above the root.
pub fn checked_absolute_path(path: &Path, dir: &Path) -> (abs: Option<Path>)
    ensures
        abs.is_some() == resolves(path@, dir@),
        abs matches Some(p) ==> p@ == absolute_form(path@, dir@),
{
    if path.absolute {
        return Some(path.clone());
    }
    let mut parts = dir.parts.clone();
    assert(text_seq(parts@) =~= text_seq(dir.parts@));
    let mut i: usize = 0;
    assert(path@.parts.take(0) =~= Seq::empty());
    while i < path.parts.len()
        invariant
            0 <= i <= path.parts.len(),
            !path@.absolute,
            text_seq(parts@) == resolve(dir@.parts, path@.parts.take(i as int)),
            forall|k: int|
                0 <= k < i && (#[trigger] path@.parts[k]) == ".."@ ==> resolve(
                    dir@.parts,
                    path@.parts.take(k),
                ).len() > 0,
        decreases path.parts.len() - i,
    {
        let part = &path.parts[i];
        let ghost before = text_seq(parts@);
        assert(path@.parts.take(i + 1).drop_last() =~= path@.parts.take(i as int));
        assert(path@.parts.take(i + 1).last() == part@);
        if is_parent_mark(part) {
            if parts.len() == 0 {
                assert(path@.parts[i as int] == ".."@);
                assert(resolve(dir@.parts, path@.parts.take(i as int)).len() == 0);
                return None;
            }
            parts.pop();
            assert(text_seq(parts@) =~= before.drop_last());
        } else if is_current_mark(part) {
        } else {
            parts.push(part.clone());
            assert(text_seq(parts@) =~= before.push(part@));
        }
        i += 1;
    }
    assert(path@.parts.take(i as int) =~= path@.parts);
    Some(Path { absolute: dir.absolute, parts })
}

/// Makes `path` absolute against `dir`. A relative path must not climb above
/// the root.
pub fn get_absolute_path_to_dir(path: &Path, dir: &Path) -> (abs: Path)
    requires
        resolves(path@, dir@),
    ensures
        abs@ == absolute_form(path@, dir@),
{
    match checked_absolute_path(path, dir) {
        Some(abs) => abs,
        None => path.clone(),
    }
}

/// Makes `path` absolute against the current directory.
pub fn get_absolute_path(path: &Path, dirs: &Dirs) -> (abs: Path)
    requires
        resolves(path@, dirs@.current),
    ensures
        abs@ == absolute_form(path@, dirs@.current),
{
    get_absolute_path_to_dir(path, &dirs.current)
}

/// Makes a path that is relative to the working tree's root absolute.
pub fn to_workdir_absolute_path(path: &Path, dirs: &Dirs) -> (abs: Path)
    requires
        resolves(path@, dirs@.work),
    ensures
        abs@ == absolute_form(path@, dirs@.work),
{
    get_absolute_path_to_dir(path, &dirs.work)
}

/// The deepest directory that holds both paths, each read from the current
/// directory.
pub fn get_common_dir(one: &Path, other: &Path, dirs: &Dirs) -> (dir: Path)
    requires
        resolves(one@, dirs@.current),
        resolves(other@, dirs@.current),
    ensures
        dir@ == common_dir(
            absolute_form(one@, dirs@.current),
            absolute_form(other@, dirs@.current),
        ),
{
    let a = get_absolute_path(one, dirs);
    let b = get_absolute_path(other, dirs);
    if a.absolute != b.absolute {
        let parts: Vec<String> = Vec::new();
        assert(text_seq(parts@) =~= Seq::empty());
        return Path { absolute: false, parts };
    }
    let mut parts: Vec<String> = Vec::new();
    let mut i: usize = 0;
    while i < a.parts.len() && i < b.parts.len() && a.parts[i] == b.parts[i]
        invariant
            0 <= i <= a.parts.len(),
            i <= b.parts.len(),
            text_seq(parts@) =~= a@.parts.take(i as int),
            a@.parts.take(i as int) =~= b@.parts.take(i as int),
        decreases a.parts.len() - i,
    {
        parts.push(a.parts[i].clone());
        assert(a@.parts.take(i + 1) =~= a@.parts.take(i as int).push(a@.parts[i as int]));
        assert(b@.parts.take(i + 1) =~= b@.parts.take(i as int).push(b@.parts[i as int]));
        i += 1;
    }
    proof {
        lemma_common_len_unique(a@.parts, b@.parts, i as int);
    }
    Path { absolute: a.absolute, parts }
}

/// `path` as seen from the absolute directory `dir`, without `.` and with
/// `..` only in front. A relative `path` is read from the current directory.
pub fn get_relative_path_to_dir(path: &Path, dir: &Path, dirs: &Dirs) -> (rel: Path)
    requires
        dirs@.current.absolute,
        dir@.absolute,
        resolves(path@, dirs@.current),
    ensures
        rel@ == relative_form(absolute_form(path@, dirs@.current), dir@),
{
    let abs = get_absolute_path(path, dirs);
    let mut shared: usize = 0;
    while shared < abs.parts.len() && shared < dir.parts.len() && abs.parts[shared]
        == dir.parts[shared]
        invariant
            0 <= shared <= abs.parts.len(),
            shared <= dir.parts.len(),
            abs@.parts.take(shared as int) =~= dir@.parts.take(shared as int),
        decreases abs.parts.len() - shared,
    {
        assert(abs@.parts.take(shared + 1) =~= abs@.parts.take(shared as int).push(
            abs@.parts[shared as int],
        ));
        assert(dir@.parts.take(shared + 1) =~= dir@.parts.take(shared as int).push(
            dir@.parts[shared as int],
        ));
        shared += 1;
    }
    proof {
        lemma_common_len_unique(abs@.parts, dir@.parts, shared as int);
    }
    let mut parts: Vec<String> = Vec::new();
    let mut up: usize = shared;
    while up < dir.parts.len()
        invariant
            shared <= up <= dir.parts.len(),
            text_seq(parts@) =~= climbs((up - shared) as nat),
        decreases dir.parts.len() - up,
    {
        let ghost before = text_seq(parts@);
        parts.push(String::from_str(".."));
        assert(text_seq(parts@) =~= before.push(".."@));
        up += 1;
    }
    let mut i: usize = shared;
    while i < abs.parts.len()
        invariant
            shared <= i <= abs.parts.len(),
            text_seq(parts@) =~= climbs((dir.parts.len() - shared) as nat)
                + abs@.parts.subrange(shared as int, i as int),
        decreases abs.parts.len() - i,
    {
        let ghost before = text_seq(parts@);
        parts.push(abs.parts[i].clone());
        assert(text_seq(parts@) =~= before.push(abs@.parts[i as int]));
        i += 1;
    }
    assert(abs@.parts.subrange(shared as int, i as int) =~= abs@.parts.skip(shared as int));
    Path { absolute: false, parts }
}

/// `path` as seen from the working tree's root.
pub fn to_workdir_relative_path(path: &Path, dirs: &Dirs) -> (rel: Path)
    requires
        dirs@.wf(),
        resolves(path@, dirs@.current),
    ensures
        rel@ == relative_form(absolute_form(path@, dirs@.current), dirs@.work),
{
    get_relative_path_to_dir(path, &dirs.work, dirs)
}

/// `path` as seen from the current directory.
pub fn get_relative_path(path: &Path, dirs: &Dirs) -> (rel: Path)
    requires
        dirs@.wf(),
        resolves(path@, dirs@.current),
    ensures
        rel@ == relative_form(absolute_form(path@, dirs@.current), dirs@.current),
{
    get_relative_path_to_dir(path, &dirs.current, dirs)
}

/// Whether `file` lies at or below `dir`, both read from the current
/// directory. Neither has to exist, and `dir` may name a file.
pub fn is_parent_dir(file: &Path, dir: &Path, dirs: &Dirs) -> (yes: bool)
    requires
        resolves(file@, dirs@.current),
        resolves(dir@, dirs@.current),
    ensures
        yes == starts_with(
            absolute_form(file@, dirs@.current),
            absolute_form(dir@, dirs@.current),
        ),
{
    let file = get_absolute_path(file, dirs);
    let dir = get_absolute_path(dir, dirs);
    file.starts_with(&dir)
}

/// Whether `path` lies at or below `parent`; the same test as
/// `is_parent_dir`.
pub fn is_sub_path(path: &Path, parent: &Path, dirs: &Dirs) -> (yes: bool)
    requires
        resolves(path@, dirs@.current),
        resolves(parent@, dirs@.current),
    ensures
        yes == starts_with(
            absolute_form(path@, dirs@.current),
            absolute_form(parent@, dirs@.current),
        ),
{
    is_parent_dir(path, parent, dirs)
}

/// Every path of the list can be made absolute against `dir`.
pub open spec fn all_resolve(paths: Seq<PathView>, dir: PathView) -> bool {
    forall|i: int| 0 <= i < paths.len() ==> resolves(#[trigger] paths[i], dir)
}

/// Whether `path` lies at or below one of `paths`. A directory in `paths`
/// stands for everything under it.
pub fn include_in_paths(path: &Path, paths: &Vec<Path>, dirs: &Dirs) -> (yes: bool)
    requires
        resolves(path@, dirs@.current),
        all_resolve(path_seq(paths@), dirs@.current),
    ensures
        yes == included(path@, path_seq(paths@), dirs@.current),
{
    let mut i: usize = 0;
    while i < paths.len()
        invariant
            0 <= i <= paths.len(),
            resolves(path@, dirs@.current),
            all_resolve(path_seq(paths@), dirs@.current),
            forall|k: int|
                0 <= k < i ==> !starts_with(
                    absolute_form(path@, dirs@.current),
                    absolute_form(#[trigger] path_seq(paths@)[k], dirs@.current),
                ),
        decreases paths.len() - i,
    {
        assert(resolves(path_seq(paths@)[i as int], dirs@.current));
        if is_sub_path(path, &paths[i], dirs) {
            assert(starts_with(
                absolute_form(path@, dirs@.current),
                absolute_form(path_seq(paths@)[i as int], dirs@.current),
            ));
            return true;
        }
        i += 1;
    }
    false
}

/// The paths of `items` that lie at or below one of `paths`, in their order.
pub fn filter_to_fit_paths(items: &Vec<Path>, paths: &Vec<Path>, dirs: &Dirs) -> (kept: Vec<Path>)
    requires
        all_resolve(path_seq(items@), dirs@.current),
        all_resolve(path_seq(paths@), dirs@.current),
    ensures
        path_seq(kept@) == path_seq(items@).filter(
            |p: PathView| included(p, path_seq(paths@), dirs@.current),
        ),
{
    let mut kept: Vec<Path> = Vec::new();
    let ghost pred = |p: PathView| included(p, path_seq(paths@), dirs@.current);
    let mut i: usize = 0;
    assert(path_seq(items@).take(0) =~= Seq::empty());
    assert(path_seq(kept@) =~= Seq::empty());
    while i < items.len()
        invariant
            0 <= i <= items.len(),
            all_resolve(path_seq(items@), dirs@.current),
            all_resolve(path_seq(paths@), dirs@.current),
            pred == |p: PathView| included(p, path_seq(paths@), dirs@.current),
            path_seq(kept@) == path_seq(items@).take(i as int).filter(pred),
        decreases items.len() - i,
    {
        let ghost before = path_seq(kept@);
        assert(resolves(path_seq(items@)[i as int], dirs@.current));
        proof {
            let prefix = path_seq(items@).take(i as int);
            assert(path_seq(items@).take(i + 1) =~= prefix.push(items@[i as int]@));
            prefix.lemma_filter_push(items@[i as int]@, pred);
        }
        if include_in_paths(&items[i], paths, dirs) {
            kept.push(items[i].clone());
            assert(path_seq(kept@) =~= before.push(items@[i as int]@));
        }
        i += 1;
    }
    assert(path_seq(items@).take(i as int) =~= path_seq(items@));
    kept
}

/// No segment is `..` or `.`.
pub open spec fn plain(parts: Seq<Seq<char>>) -> bool {
    forall|i: int| 0 <= i < parts.len() ==> (#[trigger] parts[i]) != ".."@ && parts[i] != "."@
}

/// The path is absolute and spelled without `..` and `.`: the one spelling
/// under which a file is known.
pub open spec fn canonical(path: PathView) -> bool {
    path.absolute && plain(path.parts)
}

/// Every path of the list is canonical.
pub open spec fn all_canonical(paths: Seq<PathView>) -> bool {
    forall|i: int| 0 <= i < paths.len() ==> canonical(#[trigger] paths[i])
}

/// Where the resolution of `path` starts: at the root for an absolute path,
/// at `dir` for a relative one.
pub open spec fn anchor(path: PathView, dir: PathView) -> Seq<Seq<char>> {
    if path.absolute {
        Seq::empty()
    } else {
        dir.parts
    }
}

/// `path` has a canonical form: no `..` in it is met at the root.
pub open spec fn canonicalizable(path: PathView, dir: PathView) -> bool {
    resolvable(anchor(path, dir), path.parts)
}

/// The canonical form of `path`, relative paths being read from `dir`.
pub open spec fn canonical_form(path: PathView, dir: PathView) -> PathView {
    PathView { absolute: true, parts: resolve(anchor(path, dir), path.parts) }
}

/// Every path of the list has a canonical form.
pub open spec fn all_canonicalizable(paths: Seq<PathView>, dir: PathView) -> bool {
    forall|i: int| 0 <= i < paths.len() ==> canonicalizable(#[trigger] paths[i], dir)
}

/// Resolution keeps a plain base plain.
pub proof fn lemma_resolve_plain(base: Seq<Seq<char>>, parts: Seq<Seq<char>>)
    requires
        plain(base),
    ensures
        plain(resolve(base, parts)),
    decreases parts.len(),
{
    if parts.len() > 0 {
        lemma_resolve_plain(base, parts.drop_last());
    }
}

/// Walking two lists in a row is walking the second from where the first
/// ends.
pub proof fn lemma_resolve_concat(base: Seq<Seq<char>>, a: Seq<Seq<char>>, b: Seq<Seq<char>>)
    ensures
        resolve(base, a + b) == resolve(resolve(base, a), b),
    decreases b.len(),
{
    if b.len() == 0 {
        assert(a + b =~= a);
    } else {
        assert((a + b).drop_last() =~= a + b.drop_last());
        assert((a + b).last() == b.last());
        lemma_resolve_concat(base, a, b.drop_last());
    }
}

/// Walking plain segments appends them.
pub proof fn lemma_resolve_names(base: Seq<Seq<char>>, names: Seq<Seq<char>>)
    requires
        plain(names),
    ensures
        resolve(base, names) == base + names,
        resolvable(base, names),
    decreases names.len(),
{
    if names.len() == 0 {
        assert(base + names =~= base);
    } else {
        assert(plain(names.drop_last()));
        lemma_resolve_names(base, names.drop_last());
        assert(names.last() == names[names.len() - 1]);
        assert((base + names.drop_last()).push(names.last()) =~= base + names);
    }
}

/// Walking `..` a number of times that the base allows cuts that many
/// segments off its end.
pub proof fn lemma_resolve_climbs(base: Seq<Seq<char>>, count: nat)
    requires
        count <= base.len(),
    ensures
        resolve(base, climbs(count)) == base.take(base.len() - count),
        resolvable(base, climbs(count)),
    decreases count,
{
    if count == 0 {
        assert(climbs(0) =~= Seq::empty());
        assert(base.take(base.len() as int) =~= base);
    } else {
        let fewer = (count - 1) as nat;
        assert(climbs(count).drop_last() =~= climbs(fewer));
        assert(climbs(count).last() == ".."@);
        lemma_resolve_climbs(base, fewer);
        assert(base.take(base.len() - fewer).drop_last() =~= base.take(base.len() - count));
        assert forall|k: int|
            0 <= k < climbs(count).len() && (#[trigger] climbs(count)[k]) == ".."@ implies resolve(
            base,
            climbs(count).take(k),
        ).len() > 0 by {
            assert(climbs(count).take(k) =~= climbs(k as nat));
            lemma_resolve_climbs(base, k as nat);
        }
    }
}

/// Where both halves of a walk can be made, the whole walk can.
pub proof fn lemma_resolvable_concat(base: Seq<Seq<char>>, a: Seq<Seq<char>>, b: Seq<Seq<char>>)
    requires
        resolvable(base, a),
        resolvable(resolve(base, a), b),
    ensures
        resolvable(base, a + b),
{
    assert forall|k: int| 0 <= k < (a + b).len() && (#[trigger] (a + b)[k]) == ".."@ implies resolve(
        base,
        (a + b).take(k),
    ).len() > 0 by {
        if k < a.len() {
            assert((a + b).take(k) =~= a.take(k));
            assert(a[k] == ".."@);
        } else {
            assert((a + b).take(k) =~= a + b.take(k - a.len()));
            lemma_resolve_concat(base, a, b.take(k - a.len()));
            assert(b[k - a.len()] == ".."@);
        }
    }
}

/// Climbing from `dir` to what it shares with `parts` and walking the rest
/// of `parts` ends at `parts`.
proof fn lemma_climb_and_walk(parts: Seq<Seq<char>>, dir: Seq<Seq<char>>, shared: int)
    requires
        plain(parts),
        0 <= shared <= parts.len(),
        shared <= dir.len(),
        parts.take(shared) == dir.take(shared),
    ensures
        resolvable(dir, climbs((dir.len() - shared) as nat) + parts.skip(shared)),
        resolve(dir, climbs((dir.len() - shared) as nat) + parts.skip(shared)) == parts,
{
    let up = climbs((dir.len() - shared) as nat);
    let rest = parts.skip(shared);
    let low = dir.take(shared);
    assert(plain(rest)) by {
        assert forall|i: int| 0 <= i < rest.len() implies (#[trigger] rest[i]) != ".."@ && rest[i]
            != "."@ by {
            assert(rest[i] == parts[shared + i]);
        }
    }
    assert(resolve(dir, up) == low && resolvable(dir, up)) by {
        lemma_resolve_climbs(dir, (dir.len() - shared) as nat);
    }
    assert(resolve(low, rest) == low + rest && resolvable(low, rest)) by {
        lemma_resolve_names(low, rest);
    }
    assert(resolve(dir, up + rest) == low + rest) by {
        lemma_resolve_concat(dir, up, rest);
    }
    assert(resolvable(dir, up + rest)) by {
        lemma_resolvable_concat(dir, up, rest);
    }
    assert(low + rest == parts) by {
        assert(parts.take(shared) + rest =~= parts);
    }
}

/// A canonical path that is written relative to an absolute directory and
/// read from that directory again is the path itself. This is what lets the
/// staging area be kept with relative paths.
pub proof fn relative_path_reads_back(path: PathView, dir: PathView)
    requires
        canonical(path),
        dir.absolute,
    ensures
        !relative_form(path, dir).absolute,
        resolves(relative_form(path, dir), dir),
        canonicalizable(relative_form(path, dir), dir),
        absolute_form(relative_form(path, dir), dir) == path,
        canonical_form(relative_form(path, dir), dir) == path,
{
    let shared = common_len(path.parts, dir.parts);
    lemma_common_len_bounds(path.parts, dir.parts);
    lemma_climb_and_walk(path.parts, dir.parts, shared as int);
}

/// A plain relative path that is read from a directory and written relative
/// to it again is the path itself.
pub proof fn absolute_path_writes_back(path: PathView, dir: PathView)
    requires
        !path.absolute,
        plain(path.parts),
        dir.absolute,
    ensures
        relative_form(absolute_form(path, dir), dir) == path,
{
    lemma_resolve_names(dir.parts, path.parts);
    let abs = dir.parts + path.parts;
    assert(abs.take(dir.parts.len() as int) =~= dir.parts);
    assert(dir.parts.take(dir.parts.len() as int) =~= dir.parts);
    lemma_common_len_unique(abs, dir.parts, dir.parts.len() as int);
    assert(climbs(0) =~= Seq::empty());
    assert(climbs(0) + abs.skip(dir.parts.len() as int) =~= path.parts);
}

/// A canonical path is its own absolute and canonical form, whatever the
/// directory.
pub proof fn canonical_is_fixed(path: PathView, dir: PathView)
    requires
        canonical(path),
    ensures
        resolves(path, dir),
        canonicalizable(path, dir),
        absolute_form(path, dir) == path,
        canonical_form(path, dir) == path,
{
    lemma_resolve_names(Seq::empty(), path.parts);
    assert(Seq::<Seq<char>>::empty() + path.parts =~= path.parts);
}

/// A plain relative path read from a canonical directory lands below that
/// directory, at a canonical path.
pub proof fn plain_path_lands(path: PathView, dir: PathView)
    requires
        !path.absolute,
        plain(path.parts),
        canonical(dir),
    ensures
        resolves(path, dir),
        absolute_form(path, dir) == (PathView { absolute: true, parts: dir.parts + path.parts }),
        canonical(absolute_form(path, dir)),
{
    lemma_resolve_names(dir.parts, path.parts);
}

/// Every path of the list can be read from `dir`, and is canonical then.
pub open spec fn grounded(paths: Seq<PathView>, dir: PathView) -> bool {
    forall|i: int|
        0 <= i < paths.len() ==> resolves(#[trigger] paths[i], dir) && canonical(
            absolute_form(paths[i], dir),
        )
}

/// What is kept of a list by a filter was in the list.
pub proof fn lemma_filter_keeps<A>(s: Seq<A>, pred: spec_fn(A) -> bool, good: spec_fn(A) -> bool)
    requires
        forall|i: int| 0 <= i < s.len() ==> good(#[trigger] s[i]),
    ensures
        forall|i: int| 0 <= i < s.filter(pred).len() ==> good(#[trigger] s.filter(pred)[i]),
{
    assert forall|i: int| 0 <= i < s.filter(pred).len() implies good(
        #[trigger] s.filter(pred)[i],
    ) by {
        let x = s.filter(pred)[i];
        assert(s.filter(pred).contains(x));
        s.lemma_filter_contains_rev(pred, x);
        let j = choose|j: int| 0 <= j < s.len() && s[j] == x;
        assert(good(s[j]));
    }
}

/// Filters that agree on the elements of a list keep the same.
pub proof fn lemma_filter_agree<A>(s: Seq<A>, a: spec_fn(A) -> bool, b: spec_fn(A) -> bool)
    requires
        forall|i: int| 0 <= i < s.len() ==> a(#[trigger] s[i]) == b(s[i]),
    ensures
        s.filter(a) == s.filter(b),
    decreases s.len(),
{
    if s.len() == 0 {
        reveal(Seq::filter);
    } else {
        let front = s.drop_last();
        assert forall|i: int| 0 <= i < front.len() implies a(#[trigger] front[i]) == b(
            front[i],
        ) by {
            assert(front[i] == s[i]);
        }
        lemma_filter_agree(front, a, b);
        assert(s =~= front.push(s.last()));
        front.lemma_filter_push(s.last(), a);
        front.lemma_filter_push(s.last(), b);
    }
}

/// A filter that every element passes keeps the list.
pub proof fn lemma_filter_all<A>(s: Seq<A>, a: spec_fn(A) -> bool)
    requires
        forall|i: int| 0 <= i < s.len() ==> a(#[trigger] s[i]),
    ensures
        s.filter(a) == s,
    decreases s.len(),
{
    if s.len() == 0 {
        reveal(Seq::filter);
    } else {
        let front = s.drop_last();
        assert forall|i: int| 0 <= i < front.len() implies a(#[trigger] front[i]) by {
            assert(front[i] == s[i]);
        }
        lemma_filter_all(front, a);
        assert(s =~= front.push(s.last()));
        front.lemma_filter_push(s.last(), a);
    }
}

/// A filter that no element passes keeps nothing.
pub proof fn lemma_filter_none<A>(s: Seq<A>, a: spec_fn(A) -> bool)
    requires
        forall|i: int| 0 <= i < s.len() ==> !a(#[trigger] s[i]),
    ensures
        s.filter(a) == Seq::<A>::empty(),
    decreases s.len(),
{
    if s.len() == 0 {
        reveal(Seq::filter);
        assert(s =~= Seq::<A>::empty());
    } else {
        let front = s.drop_last();
        assert forall|i: int| 0 <= i < front.len() implies !a(#[trigger] front[i]) by {
            assert(front[i] == s[i]);
        }
        lemma_filter_none(front, a);
        assert(s =~= front.push(s.last()));
        front.lemma_filter_push(s.last(), a);
    }
}

/// Both properties hold.
pub open spec fn both<A>(a: spec_fn(A) -> bool, b: spec_fn(A) -> bool) -> spec_fn(A) -> bool {
    |x: A| a(x) && b(x)
}

/// The element is another one than `q`.
pub open spec fn is_not<A>(q: A) -> spec_fn(A) -> bool {
    |x: A| x != q
}

/// Filtering twice is filtering once by both.
pub proof fn lemma_filter_twice<A>(s: Seq<A>, a: spec_fn(A) -> bool, b: spec_fn(A) -> bool)
    ensures
        s.filter(a).filter(b) == s.filter(both(a, b)),
    decreases s.len(),
{
    let both = both(a, b);
    if s.len() == 0 {
        reveal(Seq::filter);
    } else {
        let front = s.drop_last();
        lemma_filter_twice(front, a, b);
        assert(s =~= front.push(s.last()));
        front.lemma_filter_push(s.last(), a);
        front.lemma_filter_push(s.last(), both);
        if a(s.last()) {
            front.filter(a).lemma_filter_push(s.last(), b);
        }
    }
}

/// Taking an element out of a list without repeats is filtering it out.
pub proof fn lemma_remove_is_filter<A>(s: Seq<A>, i: int)
    requires
        s.no_duplicates(),
        0 <= i < s.len(),
    ensures
        s.remove(i) == s.filter(is_not(s[i])),
    decreases s.len(),
{
    let q = s[i];
    let other = is_not(q);
    let front = s.drop_last();
    assert(s =~= front.push(s.last()));
    front.lemma_filter_push(s.last(), other);
    if i == s.len() - 1 {
        assert forall|k: int| 0 <= k < front.len() implies other(#[trigger] front[k]) by {
            assert(front[k] == s[k]);
        }
        lemma_filter_all(front, other);
        assert(s.remove(i) =~= front);
    } else {
        assert(front.no_duplicates()) by {
            assert forall|a: int, b: int|
                0 <= a < front.len() && 0 <= b < front.len() && a != b implies front[a]
                != front[b] by {
                assert(front[a] == s[a] && front[b] == s[b]);
            }
        }
        assert(front[i] == q);
        lemma_remove_is_filter(front, i);
        assert(s.last() != q);
        assert(s.remove(i) =~= front.remove(i).push(s.last()));
    }
}

/// What is kept of a list without repeats has no repeats.
pub proof fn lemma_filter_no_duplicates<A>(s: Seq<A>, a: spec_fn(A) -> bool)
    requires
        s.no_duplicates(),
    ensures
        s.filter(a).no_duplicates(),
    decreases s.len(),
{
    if s.len() == 0 {
        reveal(Seq::filter);
    } else {
        let front = s.drop_last();
        assert(front.no_duplicates()) by {
            assert forall|i: int, j: int|
                0 <= i < front.len() && 0 <= j < front.len() && i != j implies front[i]
                != front[j] by {
                assert(front[i] == s[i] && front[j] == s[j]);
            }
        }
        lemma_filter_no_duplicates(front, a);
        assert(s =~= front.push(s.last()));
        front.lemma_filter_push(s.last(), a);
        if a(s.last()) {
            let kept = front.filter(a);
            assert forall|i: int, j: int|
                0 <= i < kept.len() + 1 && 0 <= j < kept.len() + 1 && i != j implies kept.push(
                s.last(),
            )[i] != kept.push(s.last())[j] by {
                if i == kept.len() || j == kept.len() {
                    let k = if i == kept.len() { j } else { i };
                    assert(kept.contains(kept[k]));
                    front.lemma_filter_contains_rev(a, kept[k]);
                    let at = choose|at: int| 0 <= at < front.len() && front[at] == kept[k];
                    assert(s[at] == kept[k]);
                }
            }
        }
    }
}

/// Filtering a list up to one more element keeps that element or not.
pub proof fn lemma_filter_step<A>(s: Seq<A>, i: int, pred: spec_fn(A) -> bool)
    requires
        0 <= i < s.len(),
    ensures
        s.take(i + 1).filter(pred) == if pred(s[i]) {
            s.take(i).filter(pred).push(s[i])
        } else {
            s.take(i).filter(pred)
        },
{
    assert(s.take(i + 1) =~= s.take(i).push(s[i]));
    s.take(i).lemma_filter_push(s[i], pred);
}

/// The paths of the list, each written relative to `dir`.
pub open spec fn relative_seq(paths: Seq<PathView>, dir: PathView) -> Seq<PathView> {
    Seq::new(paths.len(), |i: int| relative_form(paths[i], dir))
}

/// The paths of the list, each made absolute against `dir`.
pub open spec fn absolute_seq(paths: Seq<PathView>, dir: PathView) -> Seq<PathView> {
    Seq::new(paths.len(), |i: int| absolute_form(paths[i], dir))
}

/// The canonical form of `path` where it has one.
pub fn checked_canonical_path(path: &Path, dir: &Path) -> (found: Option<Path>)
    ensures
        found.is_some() == canonicalizable(path@, dir@),
        found matches Some(p) ==> p@ == canonical_form(path@, dir@),
{
    let raw = Path { absolute: false, parts: path.parts.clone() };
    assert(text_seq(raw.parts@) =~= text_seq(path.parts@));
    let base = if path.absolute {
        let parts: Vec<String> = Vec::new();
        assert(text_seq(parts@) =~= Seq::empty());
        Path { absolute: true, parts }
    } else {
        Path { absolute: true, parts: dir.parts.clone() }
    };
    assert(base@.parts =~= anchor(path@, dir@)) by {
        if !path.absolute {
            assert(text_seq(base.parts@) =~= text_seq(dir.parts@));
        }
    }
    match checked_absolute_path(&raw, &base) {
        Some(found) => Some(found),
        None => None,
    }
}

/// The canonical form of `path`, which must have one.
pub fn canonical_path(path: &Path, dir: &Path) -> (found: Path)
    requires
        canonicalizable(path@, dir@),
    ensures
        found@ == canonical_form(path@, dir@),
{
    match checked_canonical_path(path, dir) {
        Some(found) => found,
        None => path.clone(),
    }
}

} // verus!
