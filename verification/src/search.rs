//! Search terms: how command-line arguments are read into searches.

use vstd::prelude::*;

use crate::text::{
    find_char, first_index_or_len, lemma_path_segments_empty, path_segments,
    split_path_segments, strings_view,
};

verus! {

/// A single concrete directory structure to search for, such as
/// `some/thing/concrete`: its non-empty directory names, in order.
#[derive(Debug)]
pub struct SearchStructure(pub Vec<String>);

impl View for SearchStructure {
    type V = Seq<Seq<char>>;

    open spec fn view(&self) -> Seq<Seq<char>> {
        strings_view(self.0@)
    }
}

impl SearchStructure {
    /// The structure with no directory names.
    pub fn empty() -> (res: Self)
        ensures
            res@ == Seq::<Seq<char>>::empty(),
    {
        let res = SearchStructure(Vec::new());
        assert(res@ =~= Seq::<Seq<char>>::empty());
        res
    }

    /// Reads a structure from text: the non-empty pieces between `/`
    /// separators, so `"a//b/"` is the structure `a`, `b`.
    pub fn parse(input: &str) -> (res: Self)
        ensures
            res@ == path_segments(input@),
    {
        SearchStructure(split_path_segments(input))
    }

    /// Whether the structure names no directory.
    pub fn is_empty(&self) -> (res: bool)
        ensures
            res == (self@.len() == 0),
    {
        self.0.len() == 0
    }
}

/// The base of an absolute search path.
#[derive(Debug, Clone, Copy, PartialEq, Eq, Structural)]
pub enum AbsolutePathBase {
    /// The file-system root (`/`).
    Root,
    /// The user's home directory (`~`).
    Home,
}

/// A single group of search elements: one command-line argument. It is either
/// an absolute path, a path below a user shortcut, a jump up from the working
/// directory, or a fuzzy search for a directory structure.
#[derive(Debug)]
pub enum SearchGroup {
    /// An absolute search path.
    Absolute { base: AbsolutePathBase, structure: SearchStructure },
    /// A search path originating from a shortcut.
    Shortcut { name: String, structure: SearchStructure },
    /// Up N directories from the working directory.
    JumpUp(u32),
    /// A fuzzy search.
    Fuzzy(SearchStructure),
}

/// The mathematical value of a [`SearchGroup`].
pub enum GroupView {
    Absolute(AbsolutePathBase, Seq<Seq<char>>),
    Shortcut(Seq<char>, Seq<Seq<char>>),
    JumpUp(u32),
    Fuzzy(Seq<Seq<char>>),
}

impl View for SearchGroup {
    type V = GroupView;

    open spec fn view(&self) -> GroupView {
        match self {
            SearchGroup::Absolute { base, structure } => GroupView::Absolute(*base, structure@),
            SearchGroup::Shortcut { name, structure } => GroupView::Shortcut(name@, structure@),
            SearchGroup::JumpUp(n) => GroupView::JumpUp(*n),
            SearchGroup::Fuzzy(structure) => GroupView::Fuzzy(structure@),
        }
    }
}

/// Whether `c` is a number of levels that a jump may take: `1` to `9`.
pub open spec fn is_jump_digit(c: char) -> bool {
    '1' <= c && c <= '9'
}

/// The group that one command-line argument stands for:
/// - `/...` is an absolute path below the root, `~...` one below home;
/// - `+name/...` is a path below the shortcut `name`;
/// - `.N` (a single digit `N` from 1 to 9) jumps up `N` directories, `..`
///   one;
/// - anything else is a fuzzy search for its `/`-separated structure.
pub open spec fn group_of(s: Seq<char>) -> GroupView {
    if s.len() > 0 && s[0] == '/' {
        GroupView::Absolute(AbsolutePathBase::Root, path_segments(s.skip(1)))
    } else if s.len() > 0 && s[0] == '~' {
        GroupView::Absolute(AbsolutePathBase::Home, path_segments(s.skip(1)))
    } else if s.len() > 0 && s[0] == '+' {
        let k = first_index_or_len(s, '/');
        GroupView::Shortcut(s.subrange(1, k), path_segments(s.skip(k)))
    } else if s.len() == 2 && s[0] == '.' && is_jump_digit(s[1]) {
        GroupView::JumpUp((s[1] as u32 - '0' as u32) as u32)
    } else if s.len() == 2 && s[0] == '.' && s[1] == '.' {
        GroupView::JumpUp(1)
    } else {
        GroupView::Fuzzy(path_segments(s))
    }
}

/// Each argument is one group, in command-line order: where the arguments
/// are more than one, or a single one other than `/` and `~`, the search is
/// over one group per argument, the group at `i` read from the argument at
/// `i`, within the given distance.
pub proof fn law_one_group_per_argument(args: Seq<Seq<char>>, max_dist: usize)
    requires
        args.len() >= 2 || (args.len() == 1 && args[0] != seq!['/'] && args[0] != seq!['~']),
    ensures
        search_of(args, max_dist) matches SearchView::Groups(gs, d) && d == max_dist && gs.len() == args.len()
            && forall|i: int| 0 <= i < args.len() ==> #[trigger] gs[i] == group_of(args[i]),
{
}

/// A term's first character decides its kind: `/...` is a path below the
/// root and `~...` one below home, each made of the names after that first
/// character; a term of other characters that is not a jump is a fuzzy
/// search for its own names.
pub proof fn law_term_kinds(s: Seq<char>)
    ensures
        s.len() > 0 && s[0] == '/' ==> group_of(s) == GroupView::Absolute(AbsolutePathBase::Root, path_segments(s.drop_first())),
        s.len() > 0 && s[0] == '~' ==> group_of(s) == GroupView::Absolute(AbsolutePathBase::Home, path_segments(s.drop_first())),
        (s.len() == 0 || (s[0] != '/' && s[0] != '~' && s[0] != '+' && s[0] != '.')) ==> group_of(s) == GroupView::Fuzzy(path_segments(s)),
{
    if s.len() > 0 {
        assert(s.skip(1) =~= s.drop_first());
    }
}

/// A jump term jumps the number of levels it names: `.1` to `.9` jump one to
/// nine levels up, `..` one level, and `.0` is no jump.
pub proof fn law_jump_levels(c: char)
    ensures
        '1' <= c <= '9' ==> group_of(seq!['.', c]) == GroupView::JumpUp((c as u32 - 48) as u32),
        group_of(seq!['.', '.']) == GroupView::JumpUp(1),
        !(group_of(seq!['.', '0']) is JumpUp),
{
}

/// A shortcut's name is the text between the `+` and the first `/`: it
/// holds no separator, and the rest of the argument is its structure.
pub proof fn law_shortcut_name_has_no_separator(s: Seq<char>)
    requires
        s.len() > 0 && s[0] == '+',
    ensures
        group_of(s) matches GroupView::Shortcut(name, st) && !name.contains('/')
            && st == path_segments(s.skip(1 + name.len() as int)),
{
    let k = first_index_or_len(s, '/');
    if exists|j: int| 0 <= j < s.len() && s[j] == '/' {
        let j = choose|j: int| 0 <= j < s.len() && s[j] == '/';
        crate::text::lemma_first_index_exists(s, '/', j);
    } else {
        assert(!exists|j: int| crate::text::is_first_index(s, '/', j));
    }
    let name = s.subrange(1, k);
    assert forall|i: int| 0 <= i < name.len() implies name[i] != '/' by {
        assert(name[i] == s[i + 1]);
    }
}

impl SearchGroup {
    /// Reads one command-line argument as a search group.
    pub fn from_arg(value: &str) -> (res: Self)
        ensures
            res@ == group_of(value@),
    {
        let n = value.unicode_len();
        if n >= 1 {
            let first = value.get_char(0);
            if first == '/' {
                return Self::new_absolute(
                    AbsolutePathBase::Root,
                    SearchStructure::parse(value.substring_char(1, n)),
                );
            }
            if first == '~' {
                return Self::new_absolute(
                    AbsolutePathBase::Home,
                    SearchStructure::parse(value.substring_char(1, n)),
                );
            }
            if first == '+' {
                let slash = find_char(value, '/');
                let name_end = match slash {
                    Some(k) => k,
                    None => n,
                };
                let structure = match slash {
                    Some(k) => SearchStructure::parse(value.substring_char(k, n)),
                    None => SearchStructure::empty(),
                };
                proof {
                    if slash.is_none() {
                        assert(value@.skip(n as int) =~= Seq::<char>::empty());
                        lemma_path_segments_empty();
                    }
                }
                let name = String::from_str(value.substring_char(1, name_end));
                return Self::new_shortcut(name, structure);
            }
            if n == 2 && first == '.' {
                let second = value.get_char(1);
                if '1' <= second && second <= '9' {
                    let digit = (second as u32) - ('0' as u32);
                    return Self::new_jump_up(digit);
                }
                if second == '.' {
                    return Self::new_jump_up(1);
                }
            }
        }
        Self::new_fuzzy(SearchStructure::parse(value))
    }

    /// A fuzzy search group for the given structure.
    pub fn new_fuzzy(structure: SearchStructure) -> (res: Self)
        ensures
            res@ == GroupView::Fuzzy(structure@),
    {
        Self::Fuzzy(structure)
    }

    /// An absolute search group with the given base and structure.
    pub fn new_absolute(base: AbsolutePathBase, structure: SearchStructure) -> (res: Self)
        ensures
            res@ == GroupView::Absolute(base, structure@),
    {
        Self::Absolute { base, structure }
    }

    /// A shortcut search group with the given shortcut name and structure.
    pub fn new_shortcut(name: String, structure: SearchStructure) -> (res: Self)
        ensures
            res@ == GroupView::Shortcut(name@, structure@),
    {
        Self::Shortcut { name, structure }
    }

    /// A group that jumps `n` directories up from the working directory.
    pub fn new_jump_up(n: u32) -> (res: Self)
        ensures
            res@ == GroupView::JumpUp(n),
    {
        Self::JumpUp(n)
    }
}

/// The mathematical value of a [`Search`].
pub enum SearchView {
    Root,
    Home,
    Groups(Seq<GroupView>, usize),
}

/// The kind of directory search to perform.
#[derive(Debug)]
pub enum Search {
    /// Search for the root directory.
    Root,
    /// Search for the home directory.
    Home,
    /// Search by a set of search groups.
    Groups {
        /// The groups to search for, one per argument.
        groups: Vec<SearchGroup>,
        /// The maximum distance to use when searching.
        max_dist: usize,
    },
}

/// The views of a sequence of groups.
pub open spec fn groups_view(groups: Seq<SearchGroup>) -> Seq<GroupView> {
    groups.map_values(|g: SearchGroup| g@)
}

impl View for Search {
    type V = SearchView;

    open spec fn view(&self) -> SearchView {
        match self {
            Search::Root => SearchView::Root,
            Search::Home => SearchView::Home,
            Search::Groups { groups, max_dist } => SearchView::Groups(
                groups_view(groups@),
                *max_dist,
            ),
        }
    }
}

/// The search that a list of arguments asks for: no argument, or `~`
/// alone, is the home directory; `/` alone is the root; otherwise each
/// argument is one group.
pub open spec fn search_of(args: Seq<Seq<char>>, max_dist: usize) -> SearchView {
    if args.len() == 0 {
        SearchView::Home
    } else if args.len() == 1 && args[0] == seq!['/'] {
        SearchView::Root
    } else if args.len() == 1 && args[0] == seq!['~'] {
        SearchView::Home
    } else {
        SearchView::Groups(args.map_values(|a: Seq<char>| group_of(a)), max_dist)
    }
}

impl Search {
    /// Builds the search that the given arguments ask for.
    pub fn new(args: Vec<String>, max_dist: usize) -> (res: Self)
        ensures
            res@ == search_of(strings_view(args@), max_dist),
    {
        if args.len() == 0 {
            return Search::Home;
        }
        if args.len() == 1 {
            let arg = args[0].as_str();
            if arg.unicode_len() == 1 {
                let first = arg.get_char(0);
                if first == '/' {
                    assert(arg@ =~= seq!['/']);
                    return Search::Root;
                } else if first == '~' {
                    assert(arg@ =~= seq!['~']);
                    return Search::Home;
                }
            }
            proof {
                assert(strings_view(args@)[0] == arg@);
                if arg@ == seq!['/'] || arg@ == seq!['~'] {
                    assert(arg@.len() == 1);
                }
            }
        }
        let mut groups: Vec<SearchGroup> = Vec::new();
        let mut i: usize = 0;
        while i < args.len()
            invariant
                i <= args@.len(),
                groups_view(groups@) == strings_view(args@.take(i as int)).map_values(
                    |a: Seq<char>| group_of(a),
                ),
            decreases args@.len() - i,
        {
            let ghost before = groups@;
            let g = SearchGroup::from_arg(args[i].as_str());
            groups.push(g);
            proof {
                assert(args@.take(i + 1) =~= args@.take(i as int).push(args@[i as int]));
                assert(groups_view(groups@) =~= groups_view(before).push(g@));
                assert(strings_view(args@.take(i + 1)) =~= strings_view(args@.take(i as int)).push(
                    args@[i as int]@,
                ));
            }
            i = i + 1;
        }
        assert(args@.take(args@.len() as int) =~= args@);
        Search::Groups { groups, max_dist }
    }
}

/// Configuration options for the search runner.
#[derive(Debug, Clone, Copy)]
pub struct SearchRunnerOpts {
    /// Whether to respect user-defined ignores while searching.
    pub use_ignores: bool,
}

} // verus!
