//! Running a search, as a state machine.
//!
//! A search over groups moves through the groups one by one: absolute paths,
//! shortcuts and jumps lead to one directory each, while a fuzzy group walks
//! the directories near the current one and tries every directory whose name
//! matches, backtracking where the remaining groups lead nowhere. Everything
//! that needs the outside world (the working directory, the root and home
//! directories,
//! the configuration file, whether a path exists, the sub-directories of a
//! directory) is asked of the caller by a [`RunnerAction`]; the caller answers
//! with the matching [`RunnerEvent`].

use vstd::prelude::*;

use crate::config::Config;
use crate::paths::{ancestor_of, path_join_all, path_pushed_all};
use crate::search::{AbsolutePathBase, GroupView, SearchRunnerOpts, SearchGroup, Search};
use crate::walker::{
    advance_model, supply_model, EntryView, PathRelationship, StepView, WalkerView,
};
use crate::text::strings_view;

verus! {

/// What the runner waits for.
#[derive(Debug)]
pub enum Wait {
    /// Nothing: no search is under way.
    Idle,
    /// The root directory, which is the answer.
    RootForRun,
    /// The home directory, which is the answer.
    HomeForRun,
    /// The working directory, where a search over groups starts.
    CwdForGroups,
    /// The root directory, base of the absolute group `group`.
    RootForAbsolute { group: usize, dist: usize },
    /// The home directory, base of the absolute group `group`.
    HomeForAbsolute { group: usize, dist: usize },
    /// Whether the path of the absolute group `group` exists.
    ExistsAbsolute { path: String, group: usize, dist: usize },
    /// The configuration, to resolve the shortcut group `group`.
    ConfigForShortcut { group: usize, dist: usize },
    /// Whether the path of the shortcut group `group` exists.
    ExistsShortcut { path: String, group: usize, dist: usize },
    /// The working directory, base of the jump group `group`.
    CwdForJump { group: usize, dist: usize },
    /// The configuration, for the ignored names of the fuzzy group `group`.
    ConfigForFuzzy { dir: String, group: usize, up: bool, dist: usize },
    /// The listing that the innermost walk asked for.
    Listing,
    /// Whether the candidate path of the innermost fuzzy group exists.
    ExistsFuzzy { path: String },
}

/// The mathematical value of a [`Wait`].
pub enum WaitView {
    Idle,
    RootForRun,
    HomeForRun,
    CwdForGroups,
    RootForAbsolute { group: nat, dist: usize },
    HomeForAbsolute { group: nat, dist: usize },
    ExistsAbsolute { path: Seq<char>, group: nat, dist: usize },
    ConfigForShortcut { group: nat, dist: usize },
    ExistsShortcut { path: Seq<char>, group: nat, dist: usize },
    CwdForJump { group: nat, dist: usize },
    ConfigForFuzzy { dir: Seq<char>, group: nat, up: bool, dist: usize },
    Listing,
    ExistsFuzzy { path: Seq<char> },
}

impl View for Wait {
    type V = WaitView;

    open spec fn view(&self) -> WaitView {
        match self {
            Wait::Idle => WaitView::Idle,
            Wait::RootForRun => WaitView::RootForRun,
            Wait::HomeForRun => WaitView::HomeForRun,
            Wait::CwdForGroups => WaitView::CwdForGroups,
            Wait::RootForAbsolute { group, dist } => WaitView::RootForAbsolute { group: *group as nat, dist: *dist },
            Wait::HomeForAbsolute { group, dist } => WaitView::HomeForAbsolute { group: *group as nat, dist: *dist },
            Wait::ExistsAbsolute { path, group, dist } => WaitView::ExistsAbsolute { path: path@, group: *group as nat, dist: *dist },
            Wait::ConfigForShortcut { group, dist } => WaitView::ConfigForShortcut { group: *group as nat, dist: *dist },
            Wait::ExistsShortcut { path, group, dist } => WaitView::ExistsShortcut { path: path@, group: *group as nat, dist: *dist },
            Wait::CwdForJump { group, dist } => WaitView::CwdForJump { group: *group as nat, dist: *dist },
            Wait::ConfigForFuzzy { dir, group, up, dist } => WaitView::ConfigForFuzzy { dir: dir@, group: *group as nat, up: *up, dist: *dist },
            Wait::Listing => WaitView::Listing,
            Wait::ExistsFuzzy { path } => WaitView::ExistsFuzzy { path: path@ },
        }
    }
}

/// What the runner asks of its caller.
#[derive(Debug)]
pub enum RunnerAction {
    /// Answer with [`RunnerEvent::Cwd`].
    GetCwd,
    /// Answer with [`RunnerEvent::Root`].
    GetRoot,
    /// Answer with [`RunnerEvent::Home`].
    GetHome,
    /// Answer with [`RunnerEvent::Config`].
    LoadConfig,
    /// Answer with [`RunnerEvent::Exists`] for this path.
    CheckExists(String),
    /// Answer with [`RunnerEvent::Listing`]: the sub-directories of this path.
    ListDir(String),
    /// The search is over: the directory found, or an error message.
    Done(Result<String, String>),
}

/// The mathematical value of a [`RunnerAction`].
pub enum ActionView {
    GetCwd,
    GetRoot,
    GetHome,
    LoadConfig,
    CheckExists(Seq<char>),
    ListDir(Seq<char>),
    Done(Result<Seq<char>, Seq<char>>),
}

/// The characters of a result of strings.
pub open spec fn result_view(r: Result<String, String>) -> Result<Seq<char>, Seq<char>> {
    match r {
        Ok(s) => Ok(s@),
        Err(e) => Err(e@),
    }
}

impl View for RunnerAction {
    type V = ActionView;

    open spec fn view(&self) -> ActionView {
        match self {
            RunnerAction::GetCwd => ActionView::GetCwd,
            RunnerAction::GetRoot => ActionView::GetRoot,
            RunnerAction::GetHome => ActionView::GetHome,
            RunnerAction::LoadConfig => ActionView::LoadConfig,
            RunnerAction::CheckExists(p) => ActionView::CheckExists(p@),
            RunnerAction::ListDir(p) => ActionView::ListDir(p@),
            RunnerAction::Done(r) => ActionView::Done(result_view(*r)),
        }
    }
}

/// The caller's answer to a [`RunnerAction`].
pub enum RunnerEvent {
    /// The working directory, or why it could not be found.
    Cwd(Result<String, String>),
    /// The root directory (on Windows, the drive root of the working
    /// directory), or why it could not be found.
    Root(Result<String, String>),
    /// The home directory, or why it could not be found.
    Home(Result<String, String>),
    /// The configuration, or why it could not be loaded.
    Config(Result<Config, String>),
    /// Whether the path exists.
    Exists(bool),
    /// The paths of the sub-directories (empty where the directory could not
    /// be read).
    Listing(Vec<String>),
}

/// The mathematical value of a [`RunnerEvent`].
pub enum EventView {
    Cwd(Result<Seq<char>, Seq<char>>),
    Root(Result<Seq<char>, Seq<char>>),
    Home(Result<Seq<char>, Seq<char>>),
    Config(Result<Config, Seq<char>>),
    Exists(bool),
    Listing(Seq<Seq<char>>),
}

impl View for RunnerEvent {
    type V = EventView;

    open spec fn view(&self) -> EventView {
        match self {
            RunnerEvent::Cwd(r) => EventView::Cwd(result_view(*r)),
            RunnerEvent::Root(r) => EventView::Root(result_view(*r)),
            RunnerEvent::Home(r) => EventView::Home(result_view(*r)),
            RunnerEvent::Config(r) => EventView::Config(
                match r {
                    Ok(c) => Ok(*c),
                    Err(e) => Err(e@),
                },
            ),
            RunnerEvent::Exists(b) => EventView::Exists(*b),
            RunnerEvent::Listing(v) => EventView::Listing(strings_view(v@)),
        }
    }
}

/// One fuzzy group being searched: the walk around its start directory.
pub struct FuzzyFrame {
    /// The walk.
    pub walker: crate::walker::WalkerIter,
    /// The index of the fuzzy group.
    pub group: usize,
    /// The distance left when the group was reached.
    pub dist: usize,
}

/// The mathematical value of a [`FuzzyFrame`].
pub struct FrameView {
    pub walker: WalkerView,
    pub group: nat,
    pub dist: usize,
}

impl View for FuzzyFrame {
    type V = FrameView;

    open spec fn view(&self) -> FrameView {
        FrameView { walker: self.walker@, group: self.group as nat, dist: self.dist }
    }
}

/// The views of a sequence of frames.
pub open spec fn frames_view(v: Seq<FuzzyFrame>) -> Seq<FrameView> {
    v.map_values(|f: FuzzyFrame| f@)
}

/// Executes searches, one at a time, keeping the loaded configuration
/// between them.
pub struct SearchRunner {
    /// Configuration options.
    pub opts: SearchRunnerOpts,
    /// The user configuration, once loaded.
    pub config: Option<Config>,
    /// The working directory of the current search.
    pub cwd: String,
    /// The maximum distance of the current search.
    pub max_distance: usize,
    /// The groups of the current search.
    pub groups: Vec<SearchGroup>,
    /// The fuzzy groups being searched, outermost first.
    pub frames: Vec<FuzzyFrame>,
    /// What the runner waits for.
    pub wait: Wait,
}

/// The mathematical value of a [`SearchRunner`].
pub struct RunnerView {
    pub use_ignores: bool,
    pub config: Option<Config>,
    pub cwd: Seq<char>,
    pub max_distance: usize,
    pub groups: Seq<GroupView>,
    pub frames: Seq<FrameView>,
    pub wait: WaitView,
}

impl View for SearchRunner {
    type V = RunnerView;

    open spec fn view(&self) -> RunnerView {
        RunnerView {
            use_ignores: self.opts.use_ignores,
            config: self.config,
            cwd: self.cwd@,
            max_distance: self.max_distance,
            groups: crate::search::groups_view(self.groups@),
            frames: frames_view(self.frames@),
            wait: self.wait@,
        }
    }
}

/// The directory structure of a group (none for a jump).
pub open spec fn structure_of(gv: GroupView) -> Seq<Seq<char>> {
    match gv {
        GroupView::Absolute(_, s) => s,
        GroupView::Shortcut(_, s) => s,
        GroupView::JumpUp(_) => Seq::empty(),
        GroupView::Fuzzy(s) => s,
    }
}

/// `prefix`, then `x`, then `suffix`.
pub open spec fn message(prefix: Seq<char>, x: Seq<char>, suffix: Seq<char>) -> Seq<char> {
    prefix + x + suffix
}

/// The error of a search over groups that found nothing.
pub open spec fn nothing_found() -> Seq<char> {
    "Nothing found matching the given groups."@
}

/// The search ends with `res`.
pub open spec fn done_model(r: RunnerView, res: Result<Seq<char>, Seq<char>>) -> (RunnerView, ActionView) {
    (RunnerView { wait: WaitView::Idle, frames: Seq::empty(), ..r }, ActionView::Done(res))
}

/// How many directories the innermost walk has queued: what a walk's
/// progress is measured by.
pub open spec fn top_queue_len(r: RunnerView) -> nat {
    if r.frames.len() == 0 {
        0
    } else {
        r.frames.last().walker.queue.len()
    }
}

/// `r` with the innermost walk replaced by `w`.
pub open spec fn with_top_walker(r: RunnerView, w: WalkerView) -> RunnerView {
    RunnerView {
        frames: r.frames.update(r.frames.len() - 1, FrameView { walker: w, ..r.frames.last() }),
        ..r
    }
}

/// The ignored names that a walk uses.
pub open spec fn walk_ignores(r: RunnerView) -> Option<Seq<Seq<char>>> {
    if r.use_ignores {
        match r.config {
            Some(c) => Some(strings_view(c.ignore@)),
            None => None,
        }
    } else {
        None
    }
}

/// The directory name of `e` matches `first`, ignoring ASCII case.
pub open spec fn name_matches(e: EntryView, first: Seq<char>) -> bool {
    crate::paths::path_file_name_of(e.path) matches Some(name)
        && crate::paths::eq_ignoring_ascii_case(name, first)
}

/// An inner search has ended with `v`: a directory found ends the whole
/// search; nothing found lets the innermost walk go on, or ends the search
/// where there is no walk.
pub open spec fn return_model(r: RunnerView, v: Option<Seq<char>>) -> (RunnerView, ActionView)
    decreases r.frames.len(), 1nat, 0nat, 0nat,
{
    match v {
        Some(p) => done_model(r, Ok(p)),
        None => if r.frames.len() == 0 {
            done_model(r, Err(nothing_found()))
        } else {
            drive_model(r)
        },
    }
}

/// The innermost walk takes a step.
pub open spec fn drive_model(r: RunnerView) -> (RunnerView, ActionView)
    decreases r.frames.len(), 0nat, top_queue_len(r), 1nat,
{
    if r.frames.len() == 0 {
        done_model(r, Err(nothing_found()))
    } else {
        let (w, step) = advance_model(r.frames.last().walker);
        handle_model(with_top_walker(r, w), step, top_queue_len(r))
    }
}

/// Handles a step of the innermost walk: a finished walk returns nothing
/// found; a listing is asked of the caller; a directory whose name matches
/// the first element of the group leads to a check that the rest of the
/// group's structure exists below it; any other directory is passed over.
pub open spec fn handle_model(r: RunnerView, step: StepView, bound: nat) -> (RunnerView, ActionView)
    decreases r.frames.len(), 0nat, bound, 0nat,
{
    if r.frames.len() == 0 {
        done_model(r, Err(nothing_found()))
    } else {
        match step {
            StepView::Finished => return_model(RunnerView { frames: r.frames.drop_last(), ..r }, None),
            StepView::ListDir(p) => (RunnerView { wait: WaitView::Listing, ..r }, ActionView::ListDir(p)),
            StepView::Yield(e) => {
                let st = structure_of(r.groups[r.frames.last().group as int]);
                if st.len() > 0 && name_matches(e, st[0]) {
                    let p = path_pushed_all(e.path, st.skip(1));
                    (RunnerView { wait: WaitView::ExistsFuzzy { path: p }, ..r }, ActionView::CheckExists(p))
                } else if top_queue_len(r) < bound {
                    drive_model(r)
                } else {
                    done_model(r, Err(nothing_found()))
                }
            },
        }
    }
}

/// Starts the walk of the fuzzy group `g` from `dir`.
pub open spec fn start_fuzzy_model(r: RunnerView, dir: Seq<char>, g: nat, up: bool, dist: usize) -> (RunnerView, ActionView) {
    let w = WalkerView {
        max_dist: dist,
        walk_upward: up,
        include_start_dir: false,
        ignores: walk_ignores(r),
        queue: seq![EntryView { path: dir, distance: 0, relation: PathRelationship::Identical }],
        seen: Seq::empty(),
        pending: None,
    };
    drive_model(RunnerView { frames: r.frames.push(FrameView { walker: w, group: g, dist }), ..r })
}

/// Resolves the shortcut `name` of group `g` with the loaded configuration.
pub open spec fn shortcut_model(r: RunnerView, name: Seq<char>, st: Seq<Seq<char>>, g: nat, dist: usize) -> (RunnerView, ActionView) {
    let c = r.config->0;
    if c@.shortcuts.contains_key(name) {
        let p = path_pushed_all(c@.shortcuts[name], st);
        (RunnerView { wait: WaitView::ExistsShortcut { path: p, group: g, dist }, ..r }, ActionView::CheckExists(p))
    } else {
        done_model(r, Err(message("No shortcut named '"@, name, "' configured."@)))
    }
}

/// Searches for the groups from `g` on, starting at `dir`, within `dist`;
/// `up` says whether a fuzzy group may walk upward.
pub open spec fn eval_model(r: RunnerView, dir: Seq<char>, g: nat, up: bool, dist: usize) -> (RunnerView, ActionView) {
    if g >= r.groups.len() {
        return_model(r, Some(dir))
    } else if dist == 0 {
        return_model(r, None)
    } else {
        match r.groups[g as int] {
            GroupView::Absolute(AbsolutePathBase::Root, _) => (
                RunnerView { wait: WaitView::RootForAbsolute { group: g, dist }, ..r },
                ActionView::GetRoot,
            ),
            GroupView::Absolute(AbsolutePathBase::Home, _) => (
                RunnerView { wait: WaitView::HomeForAbsolute { group: g, dist }, ..r },
                ActionView::GetHome,
            ),
            GroupView::Shortcut(name, st) => if r.config is Some {
                shortcut_model(r, name, st, g, dist)
            } else {
                (RunnerView { wait: WaitView::ConfigForShortcut { group: g, dist }, ..r }, ActionView::LoadConfig)
            },
            GroupView::JumpUp(_) => (
                RunnerView { wait: WaitView::CwdForJump { group: g, dist }, ..r },
                ActionView::GetCwd,
            ),
            GroupView::Fuzzy(st) => if st.len() == 0 {
                return_model(r, Some(dir))
            } else if r.use_ignores && r.config is None {
                (RunnerView { wait: WaitView::ConfigForFuzzy { dir, group: g, up, dist }, ..r }, ActionView::LoadConfig)
            } else {
                start_fuzzy_model(r, dir, g, up, dist)
            },
        }
    }
}

/// The event answers what the runner waits for.
pub open spec fn answers(w: WaitView, ev: EventView) -> bool {
    match w {
        WaitView::RootForRun => ev is Root,
        WaitView::HomeForRun => ev is Home,
        WaitView::CwdForGroups => ev is Cwd,
        WaitView::RootForAbsolute { .. } => ev is Root,
        WaitView::HomeForAbsolute { .. } => ev is Home,
        WaitView::ExistsAbsolute { .. } => ev is Exists,
        WaitView::ConfigForShortcut { .. } => ev is Config,
        WaitView::ExistsShortcut { .. } => ev is Exists,
        WaitView::CwdForJump { .. } => ev is Cwd,
        WaitView::ConfigForFuzzy { .. } => ev is Config,
        WaitView::Listing => ev is Listing,
        WaitView::ExistsFuzzy { .. } => ev is Exists,
        WaitView::Idle => false,
    }
}

/// How the runner goes on from what it waited for, given the answer.
pub open spec fn resume_model(r: RunnerView, ev: EventView) -> (RunnerView, ActionView) {
    let r0 = RunnerView { wait: WaitView::Idle, ..r };
    match (r.wait, ev) {
        (WaitView::RootForRun, EventView::Root(res)) => done_model(r, res),
        (WaitView::HomeForRun, EventView::Home(res)) => done_model(r, res),
        (_, EventView::Root(Err(e))) => done_model(r, Err(e)),
        (_, EventView::Home(Err(e))) => done_model(r, Err(e)),
        (_, EventView::Cwd(Err(e))) => done_model(r, Err(e)),
        (_, EventView::Config(Err(e))) => done_model(r, Err(e)),
        (WaitView::CwdForGroups, EventView::Cwd(Ok(c))) => eval_model(
            RunnerView { cwd: c, ..r0 },
            c,
            0,
            true,
            r.max_distance,
        ),
        (WaitView::RootForAbsolute { group, dist }, EventView::Root(Ok(b))) => {
            let p = path_pushed_all(b, structure_of(r.groups[group as int]));
            (RunnerView { wait: WaitView::ExistsAbsolute { path: p, group, dist }, ..r }, ActionView::CheckExists(p))
        },
        (WaitView::HomeForAbsolute { group, dist }, EventView::Home(Ok(h))) => {
            let p = path_pushed_all(h, structure_of(r.groups[group as int]));
            (RunnerView { wait: WaitView::ExistsAbsolute { path: p, group, dist }, ..r }, ActionView::CheckExists(p))
        },
        (WaitView::ExistsAbsolute { path, group, dist }, EventView::Exists(b)) => if b {
            eval_model(r0, path, group + 1, false, dist)
        } else {
            done_model(r, Err(message("No absolute path exists at '"@, path, "'."@)))
        },
        (WaitView::ConfigForShortcut { group, dist }, EventView::Config(Ok(c))) => match r.groups[group as int] {
            GroupView::Shortcut(name, st) => shortcut_model(RunnerView { config: Some(c), ..r0 }, name, st, group, dist),
            _ => done_model(r, Err(Seq::empty())),
        },
        (WaitView::ExistsShortcut { path, group, dist }, EventView::Exists(b)) => if b {
            eval_model(r0, path, group + 1, false, dist)
        } else {
            done_model(r, Err(message("No valid path exists at '"@, path, "'."@)))
        },
        (WaitView::CwdForJump { group, dist }, EventView::Cwd(Ok(c))) => match r.groups[group as int] {
            GroupView::JumpUp(n) => eval_model(r0, ancestor_of(c, n as nat), group + 1, false, dist),
            _ => done_model(r, Err(Seq::empty())),
        },
        (WaitView::ConfigForFuzzy { dir, group, up, dist }, EventView::Config(Ok(c))) => start_fuzzy_model(
            RunnerView { config: Some(c), ..r0 },
            dir,
            group,
            up,
            dist,
        ),
        (WaitView::Listing, EventView::Listing(listing)) => {
            let (w, step) = supply_model(r.frames.last().walker, listing);
            handle_model(with_top_walker(r0, w), step, w.queue.len() + 1)
        },
        (WaitView::ExistsFuzzy { path }, EventView::Exists(b)) => if b {
            let top = r.frames.last();
            eval_model(r0, path, top.group + 1, false, (top.dist - 1) as usize)
        } else {
            drive_model(r0)
        },
        _ => done_model(r, Err(Seq::empty())),
    }
}

/// How a search starts: the root or home directory is asked for, and a
/// search over groups first asks for the working directory.
pub open spec fn run_model(r: RunnerView, s: crate::search::SearchView) -> (RunnerView, ActionView) {
    match s {
        crate::search::SearchView::Root => (RunnerView { wait: WaitView::RootForRun, frames: Seq::empty(), ..r }, ActionView::GetRoot),
        crate::search::SearchView::Home => (RunnerView { wait: WaitView::HomeForRun, frames: Seq::empty(), ..r }, ActionView::GetHome),
        crate::search::SearchView::Groups(groups, max_dist) => (
            RunnerView { groups, max_distance: max_dist, wait: WaitView::CwdForGroups, frames: Seq::empty(), ..r },
            ActionView::GetCwd,
        ),
    }
}

/// The frame at `k` is consistent with the groups, the settings and the
/// frames around it.
pub open spec fn frame_ok(r: RunnerView, k: int) -> bool {
    let f = r.frames[k];
    &&& f.group < r.groups.len()
    &&& r.groups[f.group as int] is Fuzzy
    &&& structure_of(r.groups[f.group as int]).len() > 0
    &&& f.walker.wf()
    &&& f.walker.max_dist == f.dist
    &&& 1 <= f.dist <= r.max_distance
    &&& !f.walker.include_start_dir
    &&& f.walker.ignores == walk_ignores(r)
    &&& (f.walker.walk_upward ==> k == 0 && f.group == 0)
    &&& (k < r.frames.len() - 1 ==> f.walker.pending is None)
    &&& (k > 0 ==> f.group > r.frames[k - 1].group && f.dist < r.frames[k - 1].dist)
}

/// The frames are consistent, and so is the loaded configuration.
pub open spec fn frames_ok(r: RunnerView) -> bool {
    &&& forall|k: int| 0 <= k < r.frames.len() ==> #[trigger] frame_ok(r, k)
    &&& (r.config matches Some(c) ==> c.wf())
    &&& (r.use_ignores && r.frames.len() > 0 ==> r.config is Some)
}

/// The innermost walk, if any, waits for nothing.
pub open spec fn top_idle(r: RunnerView) -> bool {
    r.frames.len() > 0 ==> r.frames.last().walker.pending is None
}

/// Group `g` may be searched within `dist` below the innermost fuzzy group.
pub open spec fn position_ok(r: RunnerView, g: nat, dist: usize) -> bool {
    &&& dist <= r.max_distance
    &&& (r.frames.len() > 0 ==> g > r.frames.last().group && dist < r.frames.last().dist)
}

/// What the runner waits for fits its state.
pub open spec fn wait_ok(r: RunnerView) -> bool {
    match r.wait {
        WaitView::Idle => true,
        WaitView::RootForRun => r.frames.len() == 0,
        WaitView::HomeForRun => r.frames.len() == 0,
        WaitView::CwdForGroups => r.frames.len() == 0,
        WaitView::RootForAbsolute { group, dist } => top_idle(r) && position_ok(r, group, dist)
            && group < r.groups.len() && r.groups[group as int] matches GroupView::Absolute(
            AbsolutePathBase::Root,
            _,
        ),
        WaitView::HomeForAbsolute { group, dist } => top_idle(r) && position_ok(r, group, dist)
            && group < r.groups.len() && r.groups[group as int] matches GroupView::Absolute(
            AbsolutePathBase::Home,
            _,
        ),
        WaitView::ExistsAbsolute { group, dist, .. } => top_idle(r) && position_ok(r, group, dist)
            && group < r.groups.len(),
        WaitView::ConfigForShortcut { group, dist } => top_idle(r) && position_ok(r, group, dist)
            && group < r.groups.len() && r.groups[group as int] is Shortcut && r.config is None,
        WaitView::ExistsShortcut { group, dist, .. } => top_idle(r) && position_ok(r, group, dist)
            && group < r.groups.len(),
        WaitView::CwdForJump { group, dist } => top_idle(r) && position_ok(r, group, dist)
            && group < r.groups.len() && r.groups[group as int] is JumpUp,
        WaitView::ConfigForFuzzy { group, dist, up, .. } => top_idle(r) && position_ok(r, group, dist)
            && group < r.groups.len() && r.groups[group as int] is Fuzzy
            && structure_of(r.groups[group as int]).len() > 0 && 1 <= dist && r.config is None
            && r.use_ignores && (up ==> group == 0 && r.frames.len() == 0),
        WaitView::Listing => r.frames.len() > 0 && r.frames.last().walker.pending is Some,
        WaitView::ExistsFuzzy { path } => r.frames.len() > 0 && top_idle(r) && fuzzy_candidate(r, path),
    }
}

/// `path` is what the innermost fuzzy group leads to from some directory:
/// a directory whose name matches the group's first name (ignoring ASCII
/// case), with the group's other names pushed below it.
pub open spec fn fuzzy_candidate(r: RunnerView, path: Seq<char>) -> bool {
    let st = structure_of(r.groups[r.frames.last().group as int]);
    exists|e: EntryView| #[trigger] name_matches(e, st[0]) && path == path_pushed_all(e.path, st.skip(1))
}

impl RunnerView {
    /// The invariant of a runner.
    pub open spec fn wf(self) -> bool {
        frames_ok(self) && wait_ok(self)
    }
}

impl SearchRunner {
    /// The invariant of a runner.
    pub open spec fn wf(&self) -> bool {
        self@.wf()
    }
}

/// `prefix`, then `x`, then `suffix`.
fn message_of(prefix: &str, x: &str, suffix: &str) -> (res: String)
    ensures
        res@ == message(prefix@, x@, suffix@),
{
    let mut m = String::from_str(prefix);
    m.append(x);
    m.append(suffix);
    m
}

/// A copy of a list of names.
fn clone_names(v: &Vec<String>) -> (res: Vec<String>)
    ensures
        strings_view(res@) == strings_view(v@),
{
    let mut out: Vec<String> = Vec::new();
    let mut i: usize = 0;
    while i < v.len()
        invariant
            i <= v@.len(),
            strings_view(out@) == strings_view(v@.take(i as int)),
        decreases v@.len() - i,
    {
        let ghost before = out@;
        out.push(v[i].clone());
        assert(strings_view(out@) =~= strings_view(before).push(v@[i as int]@));
        assert(v@.take(i + 1) =~= v@.take(i as int).push(v@[i as int]));
        i = i + 1;
    }
    assert(v@.take(v@.len() as int) =~= v@);
    out
}

/// `base` with the components of the structure of `g`, from position
/// `from` on, pushed in turn.
fn join_structure(base: &str, g: &SearchGroup, from: usize) -> (res: String)
    requires
        from <= structure_of(g@).len(),
    ensures
        res@ == path_pushed_all(base@, structure_of(g@).skip(from as int)),
{
    match g {
        SearchGroup::Absolute { structure, .. } => path_join_all(base, &structure.0, from),
        SearchGroup::Shortcut { structure, .. } => path_join_all(base, &structure.0, from),
        SearchGroup::JumpUp(_) => {
            assert(structure_of(g@).skip(from as int) =~= Seq::<Seq<char>>::empty());
            String::from_str(base)
        },
        SearchGroup::Fuzzy(structure) => path_join_all(base, &structure.0, from),
    }
}

proof fn lemma_frames_ok_wait(r: RunnerView, r2: RunnerView)
    requires
        frames_ok(r),
        r2 == (RunnerView { wait: r2.wait, ..r }),
    ensures
        frames_ok(r2),
        top_idle(r) == top_idle(r2),
{
    assert forall|k: int| 0 <= k < r2.frames.len() implies #[trigger] frame_ok(r2, k) by {
        assert(frame_ok(r, k));
    }
}

proof fn lemma_frames_ok_config(r: RunnerView, r2: RunnerView)
    requires
        frames_ok(r),
        r.config is None,
        (r2.config matches Some(c) && c.wf()),
        r2 == (RunnerView { config: r2.config, ..r }),
    ensures
        frames_ok(r2),
        top_idle(r) == top_idle(r2),
{
    assert forall|k: int| 0 <= k < r2.frames.len() implies #[trigger] frame_ok(r2, k) by {
        assert(frame_ok(r, k));
    }
}

proof fn lemma_replace_top(r: RunnerView, w: WalkerView)
    requires
        frames_ok(r),
        r.frames.len() > 0,
        w.wf(),
        crate::walker::same_settings(r.frames.last().walker, w),
    ensures
        frames_ok(with_top_walker(r, w)),
        top_queue_len(with_top_walker(r, w)) == w.queue.len(),
        with_top_walker(r, w).frames.last().walker == w,
{
    let r2 = with_top_walker(r, w);
    assert forall|k: int| 0 <= k < r2.frames.len() implies #[trigger] frame_ok(r2, k) by {
        assert(frame_ok(r, k));
        if k > 0 {
            assert(frame_ok(r, k - 1));
        }
    }
}

impl SearchRunner {
    /// Records what the runner waits for.
    fn set_wait(&mut self, w: Wait)
        requires
            frames_ok(old(self)@),
        ensures
            final(self)@ == (RunnerView { wait: w@, ..old(self)@ }),
            frames_ok(final(self)@),
            top_idle(final(self)@) == top_idle(old(self)@),
    {
        let ghost r = self@;
        self.wait = w;
        proof {
            lemma_frames_ok_wait(r, self@);
        }
    }

    /// A runner with the given options, before any search.
    pub fn new(opts: SearchRunnerOpts) -> (res: Self)
        ensures
            res.wf(),
            res@ == (RunnerView {
                use_ignores: opts.use_ignores,
                config: None,
                cwd: Seq::empty(),
                max_distance: 0,
                groups: Seq::empty(),
                frames: Seq::empty(),
                wait: WaitView::Idle,
            }),
    {
        let res = SearchRunner {
            opts,
            config: None,
            cwd: String::new(),
            max_distance: 0,
            groups: Vec::new(),
            frames: Vec::new(),
            wait: Wait::Idle,
        };
        assert(res@.groups =~= Seq::<GroupView>::empty());
        assert(res@.frames =~= Seq::<FrameView>::empty());
        res
    }

    /// Ends the search with `res`.
    fn done(&mut self, res: Result<String, String>) -> (act: RunnerAction)
        requires
            (old(self)@.config matches Some(c) ==> c.wf()),
        ensures
            (final(self)@, act@) == done_model(old(self)@, result_view(res)),
            final(self).wf(),
    {
        self.wait = Wait::Idle;
        self.frames = Vec::new();
        assert(frames_view(self.frames@) =~= Seq::<FrameView>::empty());
        RunnerAction::Done(res)
    }

    /// Ends the search with nothing found.
    fn done_nothing_found(&mut self) -> (act: RunnerAction)
        requires
            (old(self)@.config matches Some(c) ==> c.wf()),
        ensures
            (final(self)@, act@) == done_model(old(self)@, Err(nothing_found())),
            final(self).wf(),
    {
        let msg = String::from_str("Nothing found matching the given groups.");
        self.done(Err(msg))
    }

    /// An inner search has ended with `v`.
    fn return_value(&mut self, v: Option<String>) -> (act: RunnerAction)
        requires
            old(self)@.wait == WaitView::Idle,
            frames_ok(old(self)@),
            top_idle(old(self)@),
        ensures
            (final(self)@, act@) == return_model(old(self)@, crate::paths::opt_view(v)),
            final(self).wf(),
        decreases old(self)@.frames.len(), 1nat, 0nat, 0nat,
    {
        match v {
            Some(p) => self.done(Ok(p)),
            None => {
                if self.frames.len() == 0 {
                    self.done_nothing_found()
                } else {
                    self.drive()
                }
            },
        }
    }

    /// The innermost walk takes a step.
    fn drive(&mut self) -> (act: RunnerAction)
        requires
            old(self)@.wait == WaitView::Idle,
            frames_ok(old(self)@),
            top_idle(old(self)@),
        ensures
            (final(self)@, act@) == drive_model(old(self)@),
            final(self).wf(),
        decreases old(self)@.frames.len(), 0nat, top_queue_len(old(self)@), 1nat,
    {
        if self.frames.len() == 0 {
            return self.done_nothing_found();
        }
        let ghost r = self@;
        let mut frame = match self.frames.pop() {
            Some(f) => f,
            None => {
                return self.done_nothing_found();
            },
        };
        proof {
            assert(frame_ok(r, r.frames.len() - 1));
            assert(frame@ == r.frames.last());
        }
        let ghost bound = top_queue_len(r);
        let step = frame.walker.advance();
        let ghost w = frame.walker@;
        self.frames.push(frame);
        proof {
            assert(frames_view(self.frames@) =~= with_top_walker(r, w).frames);
            lemma_replace_top(r, w);
            crate::walker::lemma_advance_yield_shrinks(r.frames.last().walker);
        }
        self.handle(step, Ghost(bound))
    }

    /// Handles a step of the innermost walk.
    fn handle(&mut self, step: crate::walker::WalkStep, Ghost(bound): Ghost<nat>) -> (act: RunnerAction)
        requires
            old(self)@.wait == WaitView::Idle,
            frames_ok(old(self)@),
            old(self)@.frames.len() > 0 ==> (old(self)@.frames.last().walker.pending is Some
                <==> step@ is ListDir),
            step@ is Yield ==> top_queue_len(old(self)@) < bound,
        ensures
            (final(self)@, act@) == handle_model(old(self)@, step@, bound),
            final(self).wf(),
        decreases old(self)@.frames.len(), 0nat, bound, 0nat,
    {
        let ghost r = self@;
        if self.frames.len() == 0 {
            return self.done_nothing_found();
        }
        match step {
            crate::walker::WalkStep::Finished => {
                let _ = self.frames.pop();
                proof {
                    let r2 = RunnerView { frames: r.frames.drop_last(), ..r };
                    assert(frames_view(self.frames@) =~= r2.frames);
                    assert forall|k: int| 0 <= k < r2.frames.len() implies #[trigger] frame_ok(r2, k) by {
                        assert(frame_ok(r, k));
                        if k > 0 {
                            assert(frame_ok(r, k - 1));
                        }
                    }
                    if r2.frames.len() > 0 {
                        assert(frame_ok(r, r2.frames.len() - 1));
                    }
                }
                self.return_value(None)
            },
            crate::walker::WalkStep::ListDir(p) => {
                self.set_wait(Wait::Listing);
                RunnerAction::ListDir(p)
            },
            crate::walker::WalkStep::Yield(e) => {
                let top = self.frames.len() - 1;
                let g = self.frames[top].group;
                proof {
                    assert(frame_ok(r, top as int));
                }
                let group = &self.groups[g];
                let ghost st = structure_of(group@);
                let candidate = if structure_len(group) > 0 {
                    match e.dir_name() {
                        Some(name) => {
                            if name_matches_first(name.as_str(), group) {
                                Some(join_structure(e.path.as_str(), group, 1))
                            } else {
                                None
                            }
                        },
                        None => None,
                    }
                } else {
                    None
                };
                match candidate {
                    Some(p) => {
                        proof {
                            assert(name_matches(e@, st[0]));
                            assert(fuzzy_candidate(self@, p@));
                        }
                        self.set_wait(Wait::ExistsFuzzy { path: p.clone() });
                        RunnerAction::CheckExists(p)
                    },
                    None => {
                        self.drive()
                    },
                }
            },
        }
    }
}

impl SearchRunner {
    /// Starts the walk of the fuzzy group `g` from `dir`.
    fn start_fuzzy(&mut self, dir: String, g: usize, up: bool, dist: usize) -> (act: RunnerAction)
        requires
            old(self)@.wait == WaitView::Idle,
            frames_ok(old(self)@),
            top_idle(old(self)@),
            g < old(self)@.groups.len(),
            old(self)@.groups[g as int] is Fuzzy,
            structure_of(old(self)@.groups[g as int]).len() > 0,
            1 <= dist,
            position_ok(old(self)@, g as nat, dist),
            up ==> g == 0 && old(self)@.frames.len() == 0,
            old(self)@.use_ignores ==> old(self)@.config is Some,
        ensures
            (final(self)@, act@) == start_fuzzy_model(old(self)@, dir@, g as nat, up, dist),
            final(self).wf(),
    {
        let ghost r = self@;
        let mut walker = crate::walker::DirectoryWalker::new(dir, dist).include_start_dir(false).walk_upward(up);
        if self.opts.use_ignores {
            match &self.config {
                Some(c) => {
                    walker = walker.ignores(clone_names(&c.ignore));
                },
                None => {},
            }
        }
        let it = walker.into_iter();
        let ghost wv = it@;
        self.frames.push(FuzzyFrame { walker: it, group: g, dist });
        proof {
            let r2 = RunnerView { frames: r.frames.push(FrameView { walker: wv, group: g as nat, dist }), ..r };
            assert(frames_view(self.frames@) =~= r2.frames);
            assert(wv.queue =~= seq![EntryView { path: dir@, distance: 0, relation: PathRelationship::Identical }]);
            assert forall|k: int| 0 <= k < r2.frames.len() implies #[trigger] frame_ok(r2, k) by {
                if k < r.frames.len() {
                    assert(frame_ok(r, k));
                    if k > 0 {
                        assert(frame_ok(r, k - 1));
                    }
                }
            }
        }
        self.drive()
    }

    /// Resolves the shortcut group `g` with the loaded configuration.
    fn shortcut(&mut self, g: usize, dist: usize) -> (act: RunnerAction)
        requires
            old(self)@.wait == WaitView::Idle,
            g < old(self)@.groups.len(),
            old(self)@.groups[g as int] is Shortcut,
            (old(self)@.config matches Some(c) && c.wf()),
            frames_ok(old(self)@),
            top_idle(old(self)@),
            position_ok(old(self)@, g as nat, dist),
        ensures
            (final(self)@, act@) == shortcut_model(
                old(self)@,
                old(self)@.groups[g as int]->Shortcut_0,
                old(self)@.groups[g as int]->Shortcut_1,
                g as nat,
                dist,
            ),
            final(self).wf(),
    {
        let name = match &self.groups[g] {
            SearchGroup::Shortcut { name, .. } => name.clone(),
            _ => String::new(),
        };
        let target = match &self.config {
            Some(c) => match c.shortcut(name.as_str()) {
                Some(p) => Some(p.clone()),
                None => None,
            },
            None => None,
        };
        match target {
            Some(p) => {
                let path = join_structure(p.as_str(), &self.groups[g], 0);
                proof {
                    assert(structure_of(self@.groups[g as int]).skip(0) =~= structure_of(self@.groups[g as int]));
                }
                self.set_wait(Wait::ExistsShortcut { path: path.clone(), group: g, dist });
                RunnerAction::CheckExists(path)
            },
            None => self.done(Err(message_of("No shortcut named '", name.as_str(), "' configured."))),
        }
    }

    /// Searches for the groups from `g` on, starting at `dir`, within `dist`.
    fn eval(&mut self, dir: String, g: usize, up: bool, dist: usize) -> (act: RunnerAction)
        requires
            old(self)@.wait == WaitView::Idle,
            frames_ok(old(self)@),
            top_idle(old(self)@),
            g <= old(self)@.groups.len(),
            position_ok(old(self)@, g as nat, dist),
            up ==> g == 0 && old(self)@.frames.len() == 0,
        ensures
            (final(self)@, act@) == eval_model(old(self)@, dir@, g as nat, up, dist),
            final(self).wf(),
    {
        let ghost r = self@;
        if g >= self.groups.len() {
            return self.return_value(Some(dir));
        }
        if dist == 0 {
            return self.return_value(None);
        }
        let kind = group_kind(&self.groups[g]);
        match kind {
            GroupKind::Root => {
                self.set_wait(Wait::RootForAbsolute { group: g, dist });
                RunnerAction::GetRoot
            },
            GroupKind::Home => {
                self.set_wait(Wait::HomeForAbsolute { group: g, dist });
                RunnerAction::GetHome
            },
            GroupKind::Shortcut => {
                if self.config.is_some() {
                    self.shortcut(g, dist)
                } else {
                    self.set_wait(Wait::ConfigForShortcut { group: g, dist });
                    RunnerAction::LoadConfig
                }
            },
            GroupKind::Jump => {
                self.set_wait(Wait::CwdForJump { group: g, dist });
                RunnerAction::GetCwd
            },
            GroupKind::Fuzzy => {
                if structure_len(&self.groups[g]) == 0 {
                    self.return_value(Some(dir))
                } else if self.opts.use_ignores && self.config.is_none() {
                    self.set_wait(Wait::ConfigForFuzzy { dir, group: g, up, dist });
                    RunnerAction::LoadConfig
                } else {
                    self.start_fuzzy(dir, g, up, dist)
                }
            },
        }
    }
}

impl SearchRunner {
    /// Starts a search: the root or home directory, or the working directory
    /// for a search over groups, is asked for.
    pub fn run(&mut self, search: Search) -> (act: RunnerAction)
        requires
            old(self).wf(),
        ensures
            (final(self)@, act@) == run_model(old(self)@, search@),
            final(self).wf(),
    {
        match search {
            Search::Root => {
                self.frames = Vec::new();
                assert(frames_view(self.frames@) =~= Seq::<FrameView>::empty());
                self.set_wait(Wait::RootForRun);
                RunnerAction::GetRoot
            },
            Search::Home => {
                self.frames = Vec::new();
                assert(frames_view(self.frames@) =~= Seq::<FrameView>::empty());
                self.set_wait(Wait::HomeForRun);
                RunnerAction::GetHome
            },
            Search::Groups { groups, max_dist } => {
                self.groups = groups;
                self.max_distance = max_dist;
                self.frames = Vec::new();
                assert(frames_view(self.frames@) =~= Seq::<FrameView>::empty());
                self.set_wait(Wait::CwdForGroups);
                RunnerAction::GetCwd
            },
        }
    }

    /// Goes on with the search, given the caller's answer to the last action.
    pub fn resume(&mut self, event: RunnerEvent) -> (act: RunnerAction)
        requires
            old(self).wf(),
            answers(old(self)@.wait, event@),
            event@ matches EventView::Config(Ok(c)) ==> c.wf(),
        ensures
            (final(self)@, act@) == resume_model(old(self)@, event@),
            final(self).wf(),
    {
        let ghost r = self@;
        let _groups_len = self.groups.len();
        let mut wait = Wait::Idle;
        std::mem::swap(&mut wait, &mut self.wait);
        let ghost r0 = self@;
        assert(r0 == RunnerView { wait: WaitView::Idle, ..r });
        proof {
            lemma_frames_ok_wait(r, r0);
            assert(r.groups.len() == self.groups@.len());
            assert(wait@ == r.wait);
            assert(wait_ok(r));
        }
        match wait {
            Wait::RootForRun => match event {
                RunnerEvent::Root(res) => self.done(res),
                _ => self.done(Err(String::new())),
            },
            Wait::HomeForRun => match event {
                RunnerEvent::Home(res) => self.done(res),
                _ => self.done(Err(String::new())),
            },
            Wait::CwdForGroups => match event {
                RunnerEvent::Cwd(Ok(c)) => {
                    self.cwd = c.clone();
                    let d = self.max_distance;
                    self.eval(c, 0, true, d)
                },
                RunnerEvent::Cwd(Err(e)) => self.done(Err(e)),
                _ => self.done(Err(String::new())),
            },
            Wait::RootForAbsolute { group, dist } => match event {
                RunnerEvent::Root(Ok(b)) => {
                    proof {
                        assert(structure_of(r.groups[group as int]).skip(0) =~= structure_of(r.groups[group as int]));
                    }
                    let path = join_structure(b.as_str(), &self.groups[group], 0);
                    self.set_wait(Wait::ExistsAbsolute { path: path.clone(), group, dist });
                    RunnerAction::CheckExists(path)
                },
                RunnerEvent::Root(Err(e)) => self.done(Err(e)),
                _ => self.done(Err(String::new())),
            },
            Wait::HomeForAbsolute { group, dist } => match event {
                RunnerEvent::Home(Ok(h)) => {
                    proof {
                        assert(structure_of(r.groups[group as int]).skip(0) =~= structure_of(r.groups[group as int]));
                    }
                    let path = join_structure(h.as_str(), &self.groups[group], 0);
                    self.set_wait(Wait::ExistsAbsolute { path: path.clone(), group, dist });
                    RunnerAction::CheckExists(path)
                },
                RunnerEvent::Home(Err(e)) => self.done(Err(e)),
                _ => self.done(Err(String::new())),
            },
            Wait::ExistsAbsolute { path, group, dist } => match event {
                RunnerEvent::Exists(true) => self.eval(path, group + 1, false, dist),
                RunnerEvent::Exists(false) => {
                    let msg = message_of("No absolute path exists at '", path.as_str(), "'.");
                    self.done(Err(msg))
                },
                _ => self.done(Err(String::new())),
            },
            Wait::ConfigForShortcut { group, dist } => match event {
                RunnerEvent::Config(Ok(c)) => {
                    self.config = Some(c);
                    proof {
                        lemma_frames_ok_config(r0, self@);
                    }
                    self.shortcut(group, dist)
                },
                RunnerEvent::Config(Err(e)) => self.done(Err(e)),
                _ => self.done(Err(String::new())),
            },
            Wait::ExistsShortcut { path, group, dist } => match event {
                RunnerEvent::Exists(true) => self.eval(path, group + 1, false, dist),
                RunnerEvent::Exists(false) => {
                    let msg = message_of("No valid path exists at '", path.as_str(), "'.");
                    self.done(Err(msg))
                },
                _ => self.done(Err(String::new())),
            },
            Wait::CwdForJump { group, dist } => match event {
                RunnerEvent::Cwd(Ok(c)) => {
                    let n = match &self.groups[group] {
                        SearchGroup::JumpUp(n) => *n,
                        _ => 0,
                    };
                    let path = crate::paths::fetch_ancestor(c.as_str(), n);
                    self.eval(path, group + 1, false, dist)
                },
                RunnerEvent::Cwd(Err(e)) => self.done(Err(e)),
                _ => self.done(Err(String::new())),
            },
            Wait::ConfigForFuzzy { dir, group, up, dist } => match event {
                RunnerEvent::Config(Ok(c)) => {
                    self.config = Some(c);
                    proof {
                        lemma_frames_ok_config(r0, self@);
                    }
                    self.start_fuzzy(dir, group, up, dist)
                },
                RunnerEvent::Config(Err(e)) => self.done(Err(e)),
                _ => self.done(Err(String::new())),
            },
            Wait::Listing => match event {
                RunnerEvent::Listing(listing) => {
                    let mut frame = match self.frames.pop() {
                        Some(f) => f,
                        None => {
                            return self.done(Err(String::new()));
                        },
                    };
                    proof {
                        assert(frame_ok(r, r.frames.len() - 1));
                        assert(frame@ == r.frames.last());
                    }
                    let step = frame.walker.supply_listing(listing);
                    let ghost w = frame.walker@;
                    self.frames.push(frame);
                    proof {
                        assert(frames_view(self.frames@) =~= with_top_walker(r0, w).frames);
                        lemma_replace_top(r0, w);
                    }
                    self.handle(step, Ghost((w.queue.len() + 1) as nat))
                },
                _ => self.done(Err(String::new())),
            },
            Wait::ExistsFuzzy { path } => match event {
                RunnerEvent::Exists(true) => {
                    let top = self.frames.len() - 1;
                    let g = self.frames[top].group;
                    let d = self.frames[top].dist;
                    proof {
                        assert(frame_ok(r, top as int));
                    }
                    self.eval(path, g + 1, false, d - 1)
                },
                RunnerEvent::Exists(false) => self.drive(),
                _ => self.done(Err(String::new())),
            },
            Wait::Idle => self.done(Err(String::new())),
        }
    }
}

/// The search's groups, settings and loaded configuration are the same in
/// `r` and `r2`.
pub open spec fn same_search(r: RunnerView, r2: RunnerView) -> bool {
    &&& r2.config == r.config
    &&& r2.use_ignores == r.use_ignores
    &&& r2.groups == r.groups
    &&& r2.max_distance == r.max_distance
    &&& r2.cwd == r.cwd
}

proof fn lemma_return_same(r: RunnerView, v: Option<Seq<char>>)
    ensures
        same_search(r, return_model(r, v).0),
    decreases r.frames.len(), 1nat, 0nat, 0nat,
{
    if v is None && r.frames.len() > 0 {
        lemma_drive_same(r);
    }
}

proof fn lemma_drive_same(r: RunnerView)
    ensures
        same_search(r, drive_model(r).0),
    decreases r.frames.len(), 0nat, top_queue_len(r), 1nat,
{
    if r.frames.len() > 0 {
        let (w, step) = advance_model(r.frames.last().walker);
        lemma_handle_same(with_top_walker(r, w), step, top_queue_len(r));
    }
}

proof fn lemma_handle_same(r: RunnerView, step: StepView, bound: nat)
    ensures
        same_search(r, handle_model(r, step, bound).0),
    decreases r.frames.len(), 0nat, bound, 0nat,
{
    if r.frames.len() > 0 {
        match step {
            StepView::Finished => {
                lemma_return_same(RunnerView { frames: r.frames.drop_last(), ..r }, None);
            },
            StepView::ListDir(_) => {},
            StepView::Yield(e) => {
                let st = structure_of(r.groups[r.frames.last().group as int]);
                if !(st.len() > 0 && name_matches(e, st[0])) && top_queue_len(r) < bound {
                    lemma_drive_same(r);
                }
            },
        }
    }
}

proof fn lemma_eval_same(r: RunnerView, dir: Seq<char>, g: nat, up: bool, dist: usize)
    ensures
        same_search(r, eval_model(r, dir, g, up, dist).0),
{
    lemma_return_same(r, Some(dir));
    lemma_return_same(r, None);
    let w = WalkerView {
        max_dist: dist,
        walk_upward: up,
        include_start_dir: false,
        ignores: walk_ignores(r),
        queue: seq![EntryView { path: dir, distance: 0, relation: PathRelationship::Identical }],
        seen: Seq::empty(),
        pending: None,
    };
    lemma_drive_same(RunnerView { frames: r.frames.push(FrameView { walker: w, group: g, dist }), ..r });
}

/// The configuration is loaded at most once by a runner, and a search's
/// groups and settings stay as they were while it runs: once loaded, the
/// configuration is kept through every step, and no step but the answer
/// to a request for it changes it.
pub proof fn law_search_fixed_while_running(r: RunnerView, ev: EventView)
    requires
        r.wf(),
        answers(r.wait, ev),
    ensures
        r.config is Some ==> resume_model(r, ev).0.config == r.config,
        !(ev is Config) ==> resume_model(r, ev).0.config == r.config,
        resume_model(r, ev).0.groups == r.groups,
        resume_model(r, ev).0.max_distance == r.max_distance,
        resume_model(r, ev).0.use_ignores == r.use_ignores,
{
    let r0 = RunnerView { wait: WaitView::Idle, ..r };
    match (r.wait, ev) {
        (WaitView::CwdForGroups, EventView::Cwd(Ok(c))) => {
            lemma_eval_same(RunnerView { cwd: c, ..r0 }, c, 0, true, r.max_distance);
        },
        (WaitView::ExistsAbsolute { path, group, dist }, EventView::Exists(true)) => {
            lemma_eval_same(r0, path, group + 1, false, dist);
        },
        (WaitView::ExistsShortcut { path, group, dist }, EventView::Exists(true)) => {
            lemma_eval_same(r0, path, group + 1, false, dist);
        },
        (WaitView::CwdForJump { group, dist }, EventView::Cwd(Ok(c))) => {
            if let GroupView::JumpUp(n) = r.groups[group as int] {
                lemma_eval_same(r0, ancestor_of(c, n as nat), group + 1, false, dist);
            }
        },
        (WaitView::ConfigForFuzzy { dir, group, up, dist }, EventView::Config(Ok(c))) => {
            lemma_eval_same(RunnerView { config: Some(c), ..r0 }, dir, group, up, dist);
            let r1 = RunnerView { config: Some(c), ..r0 };
            let w = WalkerView {
                max_dist: dist,
                walk_upward: up,
                include_start_dir: false,
                ignores: walk_ignores(r1),
                queue: seq![EntryView { path: dir, distance: 0, relation: PathRelationship::Identical }],
                seen: Seq::empty(),
                pending: None,
            };
            lemma_drive_same(RunnerView { frames: r1.frames.push(FrameView { walker: w, group, dist }), ..r1 });
        },
        (WaitView::Listing, EventView::Listing(listing)) => {
            let (w, step) = supply_model(r.frames.last().walker, listing);
            lemma_handle_same(with_top_walker(r0, w), step, w.queue.len() + 1);
        },
        (WaitView::ExistsFuzzy { path }, EventView::Exists(b)) => {
            let top = r.frames.last();
            lemma_eval_same(r0, path, top.group + 1, false, (top.dist - 1) as usize);
            lemma_drive_same(r0);
        },
        _ => {},
    }
}

/// The action does not end the search with a directory.
pub open spec fn not_found_yet(a: ActionView) -> bool {
    !(a matches ActionView::Done(Ok(_)))
}

proof fn lemma_return_found(r: RunnerView, v: Option<Seq<char>>)
    ensures
        v matches Some(p) ==> return_model(r, v).1 == ActionView::Done(Ok(p)),
        v is None ==> not_found_yet(return_model(r, v).1),
    decreases r.frames.len(), 1nat, 0nat, 0nat,
{
    if v is None && r.frames.len() > 0 {
        lemma_drive_found(r);
    }
}

proof fn lemma_drive_found(r: RunnerView)
    ensures
        not_found_yet(drive_model(r).1),
    decreases r.frames.len(), 0nat, top_queue_len(r), 1nat,
{
    if r.frames.len() > 0 {
        let (w, step) = advance_model(r.frames.last().walker);
        lemma_handle_found(with_top_walker(r, w), step, top_queue_len(r));
    }
}

proof fn lemma_handle_found(r: RunnerView, step: StepView, bound: nat)
    ensures
        not_found_yet(handle_model(r, step, bound).1),
    decreases r.frames.len(), 0nat, bound, 0nat,
{
    if r.frames.len() > 0 {
        match step {
            StepView::Finished => {
                lemma_return_found(RunnerView { frames: r.frames.drop_last(), ..r }, None);
            },
            StepView::ListDir(_) => {},
            StepView::Yield(e) => {
                let st = structure_of(r.groups[r.frames.last().group as int]);
                if !(st.len() > 0 && name_matches(e, st[0])) && top_queue_len(r) < bound {
                    lemma_drive_found(r);
                }
            },
        }
    }
}

proof fn lemma_eval_found(r: RunnerView, dir: Seq<char>, g: nat, up: bool, dist: usize)
    ensures
        eval_model(r, dir, g, up, dist).1 matches ActionView::Done(Ok(p)) ==> p == dir,
{
    lemma_return_found(r, Some(dir));
    lemma_return_found(r, None);
    let w = WalkerView {
        max_dist: dist,
        walk_upward: up,
        include_start_dir: false,
        ignores: walk_ignores(r),
        queue: seq![EntryView { path: dir, distance: 0, relation: PathRelationship::Identical }],
        seen: Seq::empty(),
        pending: None,
    };
    lemma_drive_found(RunnerView { frames: r.frames.push(FrameView { walker: w, group: g, dist }), ..r });
}

/// A search only ends with a directory that the caller has just given:
/// the root or home directory asked for, a path whose existence was just
/// confirmed, the working directory, or the target of a jump from it.
/// A walk on its own never ends a search with a directory: every directory
/// found by a fuzzy term is checked to exist first.
pub proof fn law_found_directory_was_confirmed(r: RunnerView, ev: EventView)
    requires
        r.wf(),
        answers(r.wait, ev),
    ensures
        resume_model(r, ev).1 matches ActionView::Done(Ok(p)) ==> {
            ||| r.wait == WaitView::RootForRun && ev == EventView::Root(Ok(p))
            ||| r.wait == WaitView::HomeForRun && ev == EventView::Home(Ok(p))
            ||| ev == EventView::Exists(true) && (r.wait matches WaitView::ExistsAbsolute { path, .. } && p == path)
            ||| ev == EventView::Exists(true) && (r.wait matches WaitView::ExistsShortcut { path, .. } && p == path)
            ||| ev == EventView::Exists(true) && (r.wait matches WaitView::ExistsFuzzy { path } && p == path
                && fuzzy_candidate(r, p))
            ||| r.wait == WaitView::CwdForGroups && ev == EventView::Cwd(Ok(p))
            ||| (r.wait matches WaitView::CwdForJump { group, .. } && r.groups[group as int] matches GroupView::JumpUp(n)
                && ev matches EventView::Cwd(Ok(c)) && p == ancestor_of(c, n as nat))
        },
{
    let r0 = RunnerView { wait: WaitView::Idle, ..r };
    match (r.wait, ev) {
        (WaitView::CwdForGroups, EventView::Cwd(Ok(c))) => {
            lemma_eval_found(RunnerView { cwd: c, ..r0 }, c, 0, true, r.max_distance);
        },
        (WaitView::ExistsAbsolute { path, group, dist }, EventView::Exists(true)) => {
            lemma_eval_found(r0, path, group + 1, false, dist);
        },
        (WaitView::ExistsShortcut { path, group, dist }, EventView::Exists(true)) => {
            lemma_eval_found(r0, path, group + 1, false, dist);
        },
        (WaitView::CwdForJump { group, dist }, EventView::Cwd(Ok(c))) => {
            if let GroupView::JumpUp(n) = r.groups[group as int] {
                lemma_eval_found(r0, ancestor_of(c, n as nat), group + 1, false, dist);
            }
        },
        (WaitView::ConfigForFuzzy { dir, group, up, dist }, EventView::Config(Ok(c))) => {
            let r1 = RunnerView { config: Some(c), ..r0 };
            let w = WalkerView {
                max_dist: dist,
                walk_upward: up,
                include_start_dir: false,
                ignores: walk_ignores(r1),
                queue: seq![EntryView { path: dir, distance: 0, relation: PathRelationship::Identical }],
                seen: Seq::empty(),
                pending: None,
            };
            lemma_drive_found(RunnerView { frames: r1.frames.push(FrameView { walker: w, group, dist }), ..r1 });
        },
        (WaitView::ConfigForShortcut { .. }, EventView::Config(Ok(_))) => {},
        (WaitView::Listing, EventView::Listing(listing)) => {
            let (w, step) = supply_model(r.frames.last().walker, listing);
            lemma_handle_found(with_top_walker(r0, w), step, w.queue.len() + 1);
        },
        (WaitView::ExistsFuzzy { path }, EventView::Exists(b)) => {
            let top = r.frames.last();
            lemma_eval_found(r0, path, top.group + 1, false, (top.dist - 1) as usize);
            lemma_drive_found(r0);
        },
        _ => {},
    }
}

/// The first confirmed candidate wins: when the innermost fuzzy group is
/// the last group, a candidate whose existence is confirmed ends the
/// search with it at once; a candidate that does not exist lets the walk
/// go on with the next directory.
pub proof fn law_first_confirmed_candidate_wins(r: RunnerView, path: Seq<char>)
    requires
        r.wf(),
        r.wait == (WaitView::ExistsFuzzy { path }),
    ensures
        r.frames.last().group + 1 == r.groups.len() ==> resume_model(r, EventView::Exists(true)).1
            == ActionView::Done(Ok(path)),
        resume_model(r, EventView::Exists(false)) == drive_model(RunnerView { wait: WaitView::Idle, ..r }),
{
    lemma_return_found(RunnerView { wait: WaitView::Idle, ..r }, Some(path));
}

/// Fuzzy searches nest no deeper than the maximum distance: each nested
/// walk has strictly less distance left than the one around it, and every
/// walk stays within the maximum distance.
pub proof fn law_nesting_within_distance(r: RunnerView)
    requires
        r.wf(),
    ensures
        r.frames.len() <= r.max_distance,
        forall|k: int| 0 <= k < r.frames.len() ==> #[trigger] r.frames[k].walker.max_dist + k <= r.max_distance,
{
    assert forall|k: int| 0 <= k < r.frames.len() implies #[trigger] r.frames[k].walker.max_dist + k <= r.max_distance by {
        lemma_frame_distance(r, k);
    }
    if r.frames.len() > 0 {
        lemma_frame_distance(r, r.frames.len() - 1);
        assert(frame_ok(r, r.frames.len() - 1));
    }
}

proof fn lemma_frame_distance(r: RunnerView, k: int)
    requires
        frames_ok(r),
        0 <= k < r.frames.len(),
    ensures
        r.frames[k].dist + k <= r.max_distance,
        r.frames[k].walker.max_dist == r.frames[k].dist,
    decreases k,
{
    assert(frame_ok(r, k));
    if k > 0 {
        lemma_frame_distance(r, k - 1);
    }
}

/// Only the first term searches upward: a walk that goes above its start
/// directory is the outermost walk, and belongs to the first group; every
/// later term searches below where the previous one led.
pub proof fn law_upward_walk_only_first_term(r: RunnerView)
    requires
        r.wf(),
    ensures
        forall|k: int| 0 <= k < r.frames.len() && #[trigger] r.frames[k].walker.walk_upward
            ==> k == 0 && r.frames[k].group == 0,
{
    assert forall|k: int| 0 <= k < r.frames.len() && #[trigger] r.frames[k].walker.walk_upward
        implies k == 0 && r.frames[k].group == 0 by {
        assert(frame_ok(r, k));
    }
}

/// Walks respect the ignored names of the loaded configuration exactly when
/// the runner is asked to, and leave out the start directory of their
/// fuzzy group.
pub proof fn law_walks_use_ignores(r: RunnerView)
    requires
        r.wf(),
    ensures
        forall|k: int| 0 <= k < r.frames.len() ==> (#[trigger] r.frames[k]).walker.ignores == (if r.use_ignores {
            Some(strings_view(r.config->0.ignore@))
        } else {
            None::<Seq<Seq<char>>>
        }),
        forall|k: int| 0 <= k < r.frames.len() ==> !(#[trigger] r.frames[k]).walker.include_start_dir,
{
    assert forall|k: int| 0 <= k < r.frames.len() implies (#[trigger] r.frames[k]).walker.ignores == (if r.use_ignores {
        Some(strings_view(r.config->0.ignore@))
    } else {
        None::<Seq<Seq<char>>>
    }) && !r.frames[k].walker.include_start_dir by {
        assert(frame_ok(r, k));
    }
}

/// `a` and `b` are the same group, or fuzzy groups whose structures differ
/// only in the ASCII case of their first name.
pub open spec fn case_variant(a: GroupView, b: GroupView) -> bool {
    ||| a == b
    ||| (a matches GroupView::Fuzzy(s) && b matches GroupView::Fuzzy(t) && s.len() == t.len() && s.len() > 0
        && crate::paths::eq_ignoring_ascii_case(s[0], t[0]) && s.skip(1) == t.skip(1))
}

/// The groups `a` and `b` are pairwise case variants of each other.
pub open spec fn groups_case_variant(a: Seq<GroupView>, b: Seq<GroupView>) -> bool {
    &&& a.len() == b.len()
    &&& forall|i: int| 0 <= i < a.len() ==> case_variant(#[trigger] a[i], b[i])
}

/// `r` searching for the groups `gs` instead.
pub open spec fn regrouped(r: RunnerView, gs: Seq<GroupView>) -> RunnerView {
    RunnerView { groups: gs, ..r }
}

/// The step `x`, taken by a runner searching for the groups `gs` instead.
pub open spec fn regrouped_step(x: (RunnerView, ActionView), gs: Seq<GroupView>) -> (RunnerView, ActionView) {
    (regrouped(x.0, gs), x.1)
}

/// Every walk belongs to one of the groups.
pub open spec fn frames_grouped(r: RunnerView) -> bool {
    forall|k: int| 0 <= k < r.frames.len() ==> (#[trigger] r.frames[k]).group < r.groups.len()
}

/// Names equal but for ASCII case match the same directories.
pub proof fn law_case_insensitive_match(e: EntryView, a: Seq<char>, b: Seq<char>)
    requires
        crate::paths::eq_ignoring_ascii_case(a, b),
    ensures
        name_matches(e, a) == name_matches(e, b),
{
    if let Some(name) = crate::paths::path_file_name_of(e.path) {
        if crate::paths::eq_ignoring_ascii_case(name, a) {
            assert forall|i: int| 0 <= i < name.len() implies crate::paths::ascii_lower_code(#[trigger] name[i])
                == crate::paths::ascii_lower_code(b[i]) by {
                assert(crate::paths::ascii_lower_code(a[i]) == crate::paths::ascii_lower_code(b[i]));
            }
        }
        if crate::paths::eq_ignoring_ascii_case(name, b) {
            assert forall|i: int| 0 <= i < name.len() implies crate::paths::ascii_lower_code(#[trigger] name[i])
                == crate::paths::ascii_lower_code(a[i]) by {
                assert(crate::paths::ascii_lower_code(a[i]) == crate::paths::ascii_lower_code(b[i]));
            }
        }
    }
}

proof fn lemma_structure_case(a: GroupView, b: GroupView, e: EntryView)
    requires
        case_variant(a, b),
    ensures
        structure_of(a).len() == structure_of(b).len(),
        structure_of(a).len() > 0 ==> name_matches(e, structure_of(a)[0]) == name_matches(e, structure_of(b)[0]),
        structure_of(a).skip(1) == structure_of(b).skip(1),
        a is Fuzzy <==> b is Fuzzy,
{
    if a != b {
        law_case_insensitive_match(e, structure_of(a)[0], structure_of(b)[0]);
    }
}

proof fn lemma_return_case(r: RunnerView, v: Option<Seq<char>>, gs: Seq<GroupView>)
    requires
        groups_case_variant(r.groups, gs),
        frames_grouped(r),
    ensures
        return_model(regrouped(r, gs), v) == regrouped_step(return_model(r, v), gs),
    decreases r.frames.len(), 1nat, 0nat, 0nat,
{
    if v is None && r.frames.len() > 0 {
        lemma_drive_case(r, gs);
    }
}

proof fn lemma_drive_case(r: RunnerView, gs: Seq<GroupView>)
    requires
        groups_case_variant(r.groups, gs),
        frames_grouped(r),
    ensures
        drive_model(regrouped(r, gs)) == regrouped_step(drive_model(r), gs),
    decreases r.frames.len(), 0nat, top_queue_len(r), 1nat,
{
    if r.frames.len() > 0 {
        let (w, step) = advance_model(r.frames.last().walker);
        let r1 = with_top_walker(r, w);
        assert(with_top_walker(regrouped(r, gs), w) == regrouped(r1, gs));
        assert forall|k: int| 0 <= k < r1.frames.len() implies (#[trigger] r1.frames[k]).group < r1.groups.len() by {
            assert(r1.frames[k].group == r.frames[k].group);
        }
        lemma_handle_case(r1, step, top_queue_len(r), gs);
    }
}

proof fn lemma_handle_case(r: RunnerView, step: StepView, bound: nat, gs: Seq<GroupView>)
    requires
        groups_case_variant(r.groups, gs),
        frames_grouped(r),
    ensures
        handle_model(regrouped(r, gs), step, bound) == regrouped_step(handle_model(r, step, bound), gs),
    decreases r.frames.len(), 0nat, bound, 0nat,
{
    if r.frames.len() > 0 {
        let rg = regrouped(r, gs);
        match step {
            StepView::Finished => {
                let r1 = RunnerView { frames: r.frames.drop_last(), ..r };
                assert(RunnerView { frames: rg.frames.drop_last(), ..rg } == regrouped(r1, gs));
                assert forall|k: int| 0 <= k < r1.frames.len() implies (#[trigger] r1.frames[k]).group < r1.groups.len() by {
                    assert(r1.frames[k] == r.frames[k]);
                }
                lemma_return_case(r1, None, gs);
            },
            StepView::ListDir(_) => {},
            StepView::Yield(e) => {
                let g = r.frames.last().group as int;
                assert(r.frames.last().group < r.groups.len());
                lemma_structure_case(r.groups[g], gs[g], e);
                let st = structure_of(r.groups[g]);
                if !(st.len() > 0 && name_matches(e, st[0])) && top_queue_len(r) < bound {
                    lemma_drive_case(r, gs);
                }
            },
        }
    }
}

proof fn lemma_eval_case(r: RunnerView, dir: Seq<char>, g: nat, up: bool, dist: usize, gs: Seq<GroupView>)
    requires
        groups_case_variant(r.groups, gs),
        frames_grouped(r),
    ensures
        eval_model(regrouped(r, gs), dir, g, up, dist) == regrouped_step(eval_model(r, dir, g, up, dist), gs),
{
    lemma_return_case(r, Some(dir), gs);
    lemma_return_case(r, None, gs);
    if g < r.groups.len() && dist != 0 {
        let e = EntryView { path: dir, distance: 0, relation: PathRelationship::Identical };
        lemma_structure_case(r.groups[g as int], gs[g as int], e);
        if r.groups[g as int] is Fuzzy {
            let w = WalkerView {
                max_dist: dist,
                walk_upward: up,
                include_start_dir: false,
                ignores: walk_ignores(r),
                queue: seq![e],
                seen: Seq::empty(),
                pending: None,
            };
            let r1 = RunnerView { frames: r.frames.push(FrameView { walker: w, group: g, dist }), ..r };
            assert forall|k: int| 0 <= k < r1.frames.len() implies (#[trigger] r1.frames[k]).group < r1.groups.len() by {
                if k < r.frames.len() {
                    assert(r1.frames[k] == r.frames[k]);
                }
            }
            assert(walk_ignores(regrouped(r, gs)) == walk_ignores(r));
            assert(RunnerView { frames: r.frames.push(FrameView { walker: w, group: g, dist }), ..regrouped(r, gs) } == regrouped(r1, gs));
            lemma_drive_case(r1, gs);
        }
    }
}

/// Directory names are matched ignoring ASCII case: where the groups of a
/// search differ only in the ASCII case of the first name of fuzzy groups,
/// every step of the runner goes the same way, asks the same of its caller
/// and ends with the same answer.
pub proof fn law_case_insensitive_search(r: RunnerView, gs: Seq<GroupView>, ev: EventView)
    requires
        r.wf(),
        groups_case_variant(r.groups, gs),
    ensures
        resume_model(regrouped(r, gs), ev) == regrouped_step(resume_model(r, ev), gs),
{
    let r0 = RunnerView { wait: WaitView::Idle, ..r };
    assert(frames_grouped(r)) by {
        assert forall|k: int| 0 <= k < r.frames.len() implies (#[trigger] r.frames[k]).group < r.groups.len() by {
            assert(frame_ok(r, k));
        }
    }
    assert(RunnerView { wait: WaitView::Idle, ..regrouped(r, gs) } == regrouped(r0, gs));
    match (r.wait, ev) {
        (WaitView::CwdForGroups, EventView::Cwd(Ok(c))) => {
            let r1 = RunnerView { cwd: c, ..r0 };
            assert(RunnerView { cwd: c, ..regrouped(r0, gs) } == regrouped(r1, gs));
            lemma_eval_case(r1, c, 0, true, r.max_distance, gs);
        },
        (WaitView::HomeForAbsolute { group, dist }, EventView::Home(Ok(h))) => {
            assert(case_variant(r.groups[group as int], gs[group as int]));
        },
        (WaitView::ExistsAbsolute { path, group, dist }, EventView::Exists(true)) => {
            lemma_eval_case(r0, path, group + 1, false, dist, gs);
        },
        (WaitView::ExistsShortcut { path, group, dist }, EventView::Exists(true)) => {
            lemma_eval_case(r0, path, group + 1, false, dist, gs);
        },
        (WaitView::ConfigForShortcut { group, dist }, EventView::Config(Ok(c))) => {
            assert(case_variant(r.groups[group as int], gs[group as int]));
        },
        (WaitView::CwdForJump { group, dist }, EventView::Cwd(Ok(c))) => {
            assert(case_variant(r.groups[group as int], gs[group as int]));
            if let GroupView::JumpUp(n) = r.groups[group as int] {
                lemma_eval_case(r0, ancestor_of(c, n as nat), group + 1, false, dist, gs);
            }
        },
        (WaitView::ConfigForFuzzy { dir, group, up, dist }, EventView::Config(Ok(c))) => {
            let r1 = RunnerView { config: Some(c), ..r0 };
            assert(RunnerView { config: Some(c), ..regrouped(r0, gs) } == regrouped(r1, gs));
            lemma_eval_case(r1, dir, group, up, dist, gs);
        },
        (WaitView::Listing, EventView::Listing(listing)) => {
            let (w, step) = supply_model(r.frames.last().walker, listing);
            let r1 = with_top_walker(r0, w);
            assert(with_top_walker(regrouped(r0, gs), w) == regrouped(r1, gs));
            assert forall|k: int| 0 <= k < r1.frames.len() implies (#[trigger] r1.frames[k]).group < r1.groups.len() by {
                assert(r1.frames[k].group == r.frames[k].group);
            }
            lemma_handle_case(r1, step, w.queue.len() + 1, gs);
        },
        (WaitView::ExistsFuzzy { path }, EventView::Exists(b)) => {
            let top = r.frames.last();
            lemma_eval_case(r0, path, top.group + 1, false, (top.dist - 1) as usize, gs);
            lemma_drive_case(r0, gs);
        },
        _ => {},
    }
}

proof fn lemma_return_no_config(r: RunnerView, v: Option<Seq<char>>)
    ensures
        !(return_model(r, v).1 is LoadConfig),
    decreases r.frames.len(), 1nat, 0nat, 0nat,
{
    if v is None && r.frames.len() > 0 {
        lemma_drive_no_config(r);
    }
}

proof fn lemma_drive_no_config(r: RunnerView)
    ensures
        !(drive_model(r).1 is LoadConfig),
    decreases r.frames.len(), 0nat, top_queue_len(r), 1nat,
{
    if r.frames.len() > 0 {
        let (w, step) = advance_model(r.frames.last().walker);
        lemma_handle_no_config(with_top_walker(r, w), step, top_queue_len(r));
    }
}

proof fn lemma_handle_no_config(r: RunnerView, step: StepView, bound: nat)
    ensures
        !(handle_model(r, step, bound).1 is LoadConfig),
    decreases r.frames.len(), 0nat, bound, 0nat,
{
    if r.frames.len() > 0 {
        match step {
            StepView::Finished => {
                lemma_return_no_config(RunnerView { frames: r.frames.drop_last(), ..r }, None);
            },
            StepView::ListDir(_) => {},
            StepView::Yield(e) => {
                let st = structure_of(r.groups[r.frames.last().group as int]);
                if !(st.len() > 0 && name_matches(e, st[0])) && top_queue_len(r) < bound {
                    lemma_drive_no_config(r);
                }
            },
        }
    }
}

proof fn lemma_eval_no_config(r: RunnerView, dir: Seq<char>, g: nat, up: bool, dist: usize)
    requires
        r.config is Some,
    ensures
        !(eval_model(r, dir, g, up, dist).1 is LoadConfig),
{
    lemma_return_no_config(r, Some(dir));
    lemma_return_no_config(r, None);
    let w = WalkerView {
        max_dist: dist,
        walk_upward: up,
        include_start_dir: false,
        ignores: walk_ignores(r),
        queue: seq![EntryView { path: dir, distance: 0, relation: PathRelationship::Identical }],
        seen: Seq::empty(),
        pending: None,
    };
    lemma_drive_no_config(RunnerView { frames: r.frames.push(FrameView { walker: w, group: g, dist }), ..r });
}

/// The configuration is asked for at most once by a runner: once it is
/// loaded, it is kept and no step asks for it again; and a load that fails
/// ends the search with its error, nothing loaded.
pub proof fn law_config_asked_once(r: RunnerView, ev: EventView)
    requires
        r.wf(),
        answers(r.wait, ev),
    ensures
        r.config is Some ==> !(resume_model(r, ev).1 is LoadConfig) && resume_model(r, ev).0.config == r.config,
        ev matches EventView::Config(Err(e)) ==> resume_model(r, ev) == done_model(r, Err(e))
            && resume_model(r, ev).0.config == r.config,
{
    law_search_fixed_while_running(r, ev);
    let r0 = RunnerView { wait: WaitView::Idle, ..r };
    if r.config is Some {
        match (r.wait, ev) {
            (WaitView::CwdForGroups, EventView::Cwd(Ok(c))) => {
                lemma_eval_no_config(RunnerView { cwd: c, ..r0 }, c, 0, true, r.max_distance);
            },
            (WaitView::ExistsAbsolute { path, group, dist }, EventView::Exists(true)) => {
                lemma_eval_no_config(r0, path, group + 1, false, dist);
            },
            (WaitView::ExistsShortcut { path, group, dist }, EventView::Exists(true)) => {
                lemma_eval_no_config(r0, path, group + 1, false, dist);
            },
            (WaitView::CwdForJump { group, dist }, EventView::Cwd(Ok(c))) => {
                if let GroupView::JumpUp(n) = r.groups[group as int] {
                    lemma_eval_no_config(r0, ancestor_of(c, n as nat), group + 1, false, dist);
                }
            },
            (WaitView::Listing, EventView::Listing(listing)) => {
                let (w, step) = supply_model(r.frames.last().walker, listing);
                lemma_handle_no_config(with_top_walker(r0, w), step, w.queue.len() + 1);
            },
            (WaitView::ExistsFuzzy { path }, EventView::Exists(b)) => {
                let top = r.frames.last();
                lemma_eval_no_config(r0, path, top.group + 1, false, (top.dist - 1) as usize);
                lemma_drive_no_config(r0);
            },
            _ => {},
        }
    }
}

/// Every directory that a walk hands out whose name matches the group's
/// first name, ignoring ASCII case, is a candidate, whatever its relation to
/// the start (an ancestor of the working directory included): the runner
/// asks whether the group's other names exist below it.
pub proof fn law_every_matching_directory_is_a_candidate(r: RunnerView, e: EntryView, bound: nat)
    requires
        r.frames.len() > 0,
        structure_of(r.groups[r.frames.last().group as int]).len() > 0,
        name_matches(e, structure_of(r.groups[r.frames.last().group as int])[0]),
    ensures
        handle_model(r, StepView::Yield(e), bound).1 == ActionView::CheckExists(
            path_pushed_all(e.path, structure_of(r.groups[r.frames.last().group as int]).skip(1)),
        ),
        handle_model(r, StepView::Yield(e), bound).0.wait == (WaitView::ExistsFuzzy {
            path: path_pushed_all(e.path, structure_of(r.groups[r.frames.last().group as int]).skip(1)),
        }),
{
}

/// The kinds of group, as far as the runner tells them apart.
enum GroupKind {
    Root,
    Home,
    Shortcut,
    Jump,
    Fuzzy,
}

fn group_kind(g: &SearchGroup) -> (res: GroupKind)
    ensures
        match g@ {
            GroupView::Absolute(AbsolutePathBase::Root, _) => res is Root,
            GroupView::Absolute(AbsolutePathBase::Home, _) => res is Home,
            GroupView::Shortcut(_, _) => res is Shortcut,
            GroupView::JumpUp(_) => res is Jump,
            GroupView::Fuzzy(_) => res is Fuzzy,
        },
{
    match g {
        SearchGroup::Absolute { base: AbsolutePathBase::Root, .. } => GroupKind::Root,
        SearchGroup::Absolute { base: AbsolutePathBase::Home, .. } => GroupKind::Home,
        SearchGroup::Shortcut { .. } => GroupKind::Shortcut,
        SearchGroup::JumpUp(_) => GroupKind::Jump,
        SearchGroup::Fuzzy(_) => GroupKind::Fuzzy,
    }
}

/// The number of components of the structure of `g`.
fn structure_len(g: &SearchGroup) -> (res: usize)
    ensures
        res == structure_of(g@).len(),
{
    match g {
        SearchGroup::Absolute { structure, .. } => structure.0.len(),
        SearchGroup::Shortcut { structure, .. } => structure.0.len(),
        SearchGroup::JumpUp(_) => 0,
        SearchGroup::Fuzzy(structure) => structure.0.len(),
    }
}

/// Whether `name` matches the first component of the structure of `g`,
/// ignoring ASCII case.
fn name_matches_first(name: &str, g: &SearchGroup) -> (res: bool)
    requires
        structure_of(g@).len() > 0,
    ensures
        res == crate::paths::eq_ignoring_ascii_case(name@, structure_of(g@)[0]),
{
    match g {
        SearchGroup::Absolute { structure, .. } => crate::paths::eq_ignore_ascii_case(name, structure.0[0].as_str()),
        SearchGroup::Shortcut { structure, .. } => crate::paths::eq_ignore_ascii_case(name, structure.0[0].as_str()),
        SearchGroup::JumpUp(_) => false,
        SearchGroup::Fuzzy(structure) => crate::paths::eq_ignore_ascii_case(name, structure.0[0].as_str()),
    }
}

} // verus!
