//! Paths as text: the parts of `std::path` that the search uses, and the
//! fixed places it starts from.

use vstd::prelude::*;

verus! {

/// The characters of an optional string.
pub open spec fn opt_view(o: Option<String>) -> Option<Seq<char>> {
    match o {
        Some(s) => Some(s@),
        None => None,
    }
}

/// What `std::path::Path::parent` gives for the path with these characters.
pub uninterp spec fn path_parent_of(p: Seq<char>) -> Option<Seq<char>>;

/// What `std::path::Path::file_name` gives for the path with these characters.
pub uninterp spec fn path_file_name_of(p: Seq<char>) -> Option<Seq<char>>;

/// What `std::path::PathBuf::push` makes of `base` when `component` is pushed.
pub uninterp spec fn path_pushed(base: Seq<char>, component: Seq<char>) -> Seq<char>;

/// Calls `std::path::Path::parent`: the path without its final component,
/// or none where the path ends in a root or prefix or is empty. The contract
/// claims only that the result is a function of the path's characters.
#[verifier::external_body]
pub fn path_parent(p: &str) -> (res: Option<String>)
    ensures
        opt_view(res) == path_parent_of(p@),
{
    match std::path::Path::new(p).parent() {
        Some(q) => Some(q.to_string_lossy().into_owned()),
        None => None,
    }
}

/// Calls `std::path::Path::file_name`: the final component of the path, or
/// none where the path ends in `..` or is a root. The contract claims only
/// that the result is a function of the path's characters.
#[verifier::external_body]
pub fn path_file_name(p: &str) -> (res: Option<String>)
    ensures
        opt_view(res) == path_file_name_of(p@),
{
    match std::path::Path::new(p).file_name() {
        Some(q) => Some(q.to_string_lossy().into_owned()),
        None => None,
    }
}

/// What `==` on `std::path::Path` gives for the paths with these
/// characters: whether they have the same components.
pub uninterp spec fn path_same_of(a: Seq<char>, b: Seq<char>) -> bool;

/// Compares two paths with `==` on `std::path::Path`, which compares them
/// component by component (so `/a/b/` and `/a/b` are the same path). The
/// contract claims only that the result is a function of the two paths'
/// characters.
#[verifier::external_body]
pub fn path_same(a: &str, b: &str) -> (res: bool)
    ensures
        res == path_same_of(a@, b@),
{
    std::path::Path::new(a) == std::path::Path::new(b)
}

/// Calls `std::path::PathBuf::push` on a path buffer holding `base`: the
/// result is `base` extended by `component` (replaced by it where
/// `component` is absolute). The contract claims only that the result is a
/// function of the two arguments' characters.
#[verifier::external_body]
pub fn path_join(base: &str, component: &str) -> (res: String)
    ensures
        res@ == path_pushed(base@, component@),
{
    let mut buf = std::path::PathBuf::from(base);
    buf.push(component);
    buf.to_string_lossy().into_owned()
}

/// `base` with each component of `components` pushed in turn, as
/// `PathBuf::from_iter` builds it.
pub open spec fn path_pushed_all(base: Seq<char>, components: Seq<Seq<char>>) -> Seq<char>
    decreases components.len(),
{
    if components.len() == 0 {
        base
    } else {
        path_pushed(path_pushed_all(base, components.drop_last()), components.last())
    }
}

/// Pushes every component from position `from` on onto `base`.
pub fn path_join_all(base: &str, components: &Vec<String>, from: usize) -> (res: String)
    requires
        from <= components@.len(),
    ensures
        res@ == path_pushed_all(base@, crate::text::strings_view(components@).skip(from as int)),
{
    let ghost sv = crate::text::strings_view(components@);
    let mut cur = String::from_str(base);
    let mut i: usize = from;
    assert(sv.subrange(from as int, from as int) =~= Seq::<Seq<char>>::empty());
    while i < components.len()
        invariant
            from <= i <= components@.len(),
            sv == crate::text::strings_view(components@),
            cur@ == path_pushed_all(base@, sv.subrange(from as int, i as int)),
        decreases components@.len() - i,
    {
        let next = path_join(cur.as_str(), components[i].as_str());
        proof {
            let taken = sv.subrange(from as int, i + 1);
            assert(taken.drop_last() =~= sv.subrange(from as int, i as int));
            assert(taken.last() == components@[i as int]@);
        }
        cur = next;
        i = i + 1;
    }
    assert(sv.subrange(from as int, components@.len() as int) =~= sv.skip(from as int));
    cur
}

/// The `n`-th ancestor of `p`: parents are taken until `n` steps are done
/// or a path has no parent.
pub open spec fn ancestor_of(p: Seq<char>, n: nat) -> Seq<char>
    decreases n,
{
    if n == 0 {
        p
    } else {
        match path_parent_of(p) {
            Some(q) => ancestor_of(q, (n - 1) as nat),
            None => p,
        }
    }
}

/// Jumps compose: going up `a` levels and then `b` more is going up `a + b`
/// levels.
pub proof fn law_ancestor_compose(p: Seq<char>, a: nat, b: nat)
    ensures
        ancestor_of(ancestor_of(p, a), b) == ancestor_of(p, a + b),
    decreases a,
{
    if a > 0 {
        match path_parent_of(p) {
            Some(q) => {
                law_ancestor_compose(q, (a - 1) as nat, b);
                assert((a - 1) as nat + b == (a + b - 1) as nat);
            },
            None => {
                lemma_ancestor_of_top(p, b);
            },
        }
    }
}

/// A path without a parent is its own ancestor at every level.
pub proof fn lemma_ancestor_of_top(p: Seq<char>, n: nat)
    requires
        path_parent_of(p) is None,
    ensures
        ancestor_of(p, n) == p,
{
}

/// The root directory, the base of `/`-searches on Unix-like systems.
pub fn fetch_root() -> (res: Result<String, String>)
    ensures
        res matches Ok(r) && r@ == seq!['/'],
{
    let root = String::from_str("/");
    proof {
        reveal_strlit("/");
    }
    Ok(root)
}

/// What `std::path::Path::has_root` gives for the path with these characters.
pub uninterp spec fn path_has_root_of(p: Seq<char>) -> bool;

/// What `std::path::Path::components` yields at position `i` for the path
/// with these characters, none past the last component.
pub uninterp spec fn path_component_of(p: Seq<char>, i: nat) -> Option<PartView>;

/// One component of a path, as `std::path::Component` tells them apart.
#[derive(Debug)]
pub enum PathPart {
    /// A Windows prefix such as `C:`, as text.
    Prefix(String),
    /// The root directory.
    RootDir,
    /// `.`
    CurDir,
    /// `..`
    ParentDir,
    /// A name.
    Normal(String),
}

/// The mathematical value of a [`PathPart`].
pub enum PartView {
    Prefix(Seq<char>),
    RootDir,
    CurDir,
    ParentDir,
    Normal(Seq<char>),
}

impl View for PathPart {
    type V = PartView;

    open spec fn view(&self) -> PartView {
        match self {
            PathPart::Prefix(s) => PartView::Prefix(s@),
            PathPart::RootDir => PartView::RootDir,
            PathPart::CurDir => PartView::CurDir,
            PathPart::ParentDir => PartView::ParentDir,
            PathPart::Normal(s) => PartView::Normal(s@),
        }
    }
}

/// The view of an optional path component.
pub open spec fn opt_part_view(o: Option<PathPart>) -> Option<PartView> {
    match o {
        Some(c) => Some(c@),
        None => None,
    }
}

/// Calls `std::path::Path::has_root`: whether the path starts from a root.
/// The contract claims only that the result is a function of the path's
/// characters.
#[verifier::external_body]
fn path_has_root(p: &str) -> (res: bool)
    ensures
        res == path_has_root_of(p@),
{
    std::path::Path::new(p).has_root()
}

/// Calls `std::path::Path::components` and takes the component at position
/// `i`. The contract claims only that the result is a function of the
/// path's characters and of `i`.
#[verifier::external_body]
fn path_component(p: &str, i: usize) -> (res: Option<PathPart>)
    ensures
        opt_part_view(res) == path_component_of(p@, i as nat),
{
    match std::path::Path::new(p).components().nth(i) {
        Some(std::path::Component::Prefix(q)) => Some(PathPart::Prefix(q.as_os_str().to_string_lossy().into_owned())),
        Some(std::path::Component::RootDir) => Some(PathPart::RootDir),
        Some(std::path::Component::CurDir) => Some(PathPart::CurDir),
        Some(std::path::Component::ParentDir) => Some(PathPart::ParentDir),
        Some(std::path::Component::Normal(q)) => Some(PathPart::Normal(q.to_string_lossy().into_owned())),
        None => None,
    }
}

/// The drive root of the working directory `cwd`, as a Windows search
/// for `/` starts from: its prefix followed by a separator. A directory
/// without a root, or whose first components are not a prefix and then the
/// root, has none.
pub open spec fn drive_root_of(cwd: Seq<char>) -> Result<Seq<char>, Seq<char>> {
    if !path_has_root_of(cwd) {
        Err("No root found from current working directory."@)
    } else {
        match (path_component_of(cwd, 0), path_component_of(cwd, 1)) {
            (Some(PartView::Prefix(p)), Some(PartView::RootDir)) => Ok(path_pushed(path_pushed(""@, p), "\\"@)),
            _ => Err("No prefix/root component found from working directory."@),
        }
    }
}

/// The drive root is a root: it is found exactly for a working directory
/// that has a root and starts with a prefix followed by the root, and it is
/// then the prefix followed by a separator, as `PathBuf::push` writes them.
pub proof fn law_drive_root_is_prefix_and_separator(cwd: Seq<char>)
    ensures
        drive_root_of(cwd) is Ok <==> (path_has_root_of(cwd) && path_component_of(cwd, 0) is Some
            && path_component_of(cwd, 0)->0 is Prefix && path_component_of(cwd, 1) == Some(PartView::RootDir)),
        drive_root_of(cwd) is Ok ==> drive_root_of(cwd)->Ok_0 == path_pushed(
            path_pushed(""@, path_component_of(cwd, 0)->0->Prefix_0),
            "\\"@,
        ),
{
}

/// The views of a result of text.
pub open spec fn text_result_view(r: Result<String, String>) -> Result<Seq<char>, Seq<char>> {
    match r {
        Ok(s) => Ok(s@),
        Err(e) => Err(e@),
    }
}

/// The drive root of the working directory `cwd`: where a search for `/`
/// starts on Windows.
pub fn fetch_drive_root(cwd: &str) -> (res: Result<String, String>)
    ensures
        text_result_view(res) == drive_root_of(cwd@),
{
    if !path_has_root(cwd) {
        return Err(String::from_str("No root found from current working directory."));
    }
    let first = path_component(cwd, 0);
    let second = path_component(cwd, 1);
    match (first, second) {
        (Some(PathPart::Prefix(p)), Some(PathPart::RootDir)) => {
            let drive = path_join("", p.as_str());
            Ok(path_join(drive.as_str(), "\\"))
        },
        _ => Err(String::from_str("No prefix/root component found from working directory.")),
    }
}

/// The directory `n` levels above `cwd`, stopping at the top: the target of
/// a `.N` jump.
pub fn fetch_ancestor(cwd: &str, n: u32) -> (res: String)
    ensures
        res@ == ancestor_of(cwd@, n as nat),
{
    let mut cur = String::from_str(cwd);
    let mut i: u32 = 0;
    while i < n
        invariant
            i <= n,
            ancestor_of(cwd@, n as nat) == ancestor_of(cur@, (n - i) as nat),
        decreases n - i,
    {
        match path_parent(cur.as_str()) {
            Some(parent) => {
                cur = parent;
            },
            None => {
                return cur;
            },
        }
        i = i + 1;
    }
    cur
}

/// The code of `c` after ASCII lower-casing.
pub open spec fn ascii_lower_code(c: char) -> u32 {
    if 'A' <= c && c <= 'Z' {
        (c as u32 + 32) as u32
    } else {
        c as u32
    }
}

/// `a` and `b` are equal once ASCII letters are lower-cased.
pub open spec fn eq_ignoring_ascii_case(a: Seq<char>, b: Seq<char>) -> bool {
    &&& a.len() == b.len()
    &&& forall|i: int| 0 <= i < a.len() ==> ascii_lower_code(#[trigger] a[i]) == ascii_lower_code(b[i])
}

fn ascii_lower(c: char) -> (res: u32)
    ensures
        res == ascii_lower_code(c),
{
    if 'A' <= c && c <= 'Z' {
        (c as u32) + 32
    } else {
        c as u32
    }
}

/// Compares two names ignoring ASCII case, as `OsStr::eq_ignore_ascii_case` does.
pub fn eq_ignore_ascii_case(a: &str, b: &str) -> (res: bool)
    ensures
        res == eq_ignoring_ascii_case(a@, b@),
{
    let n = a.unicode_len();
    if n != b.unicode_len() {
        return false;
    }
    let mut i: usize = 0;
    while i < n
        invariant
            n == a@.len() == b@.len(),
            i <= n,
            forall|j: int| 0 <= j < i ==> ascii_lower_code(#[trigger] a@[j]) == ascii_lower_code(b@[j]),
        decreases n - i,
    {
        if ascii_lower(a.get_char(i)) != ascii_lower(b.get_char(i)) {
            return false;
        }
        i = i + 1;
    }
    true
}

} // verus!
