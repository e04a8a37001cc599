//! A breadth-first directory walker, as a state machine.
//!
//! The walker decides which directories to visit and in what order; reading
//! a directory is left to the caller. [`WalkerIter::advance`] either hands out
//! the next directory, reports the end of the walk, or asks the caller to list
//! a directory; the caller then answers with
//! [`WalkerIter::supply_listing`], giving the paths of the sub-directories
//! found there (none where the directory could not be read).

use vstd::prelude::*;

use crate::config::contains_name;
use crate::paths::{ancestor_of, opt_view, path_file_name, path_file_name_of, path_parent, path_parent_of, path_same, path_same_of};
use crate::text::strings_view;

verus! {

/// Types of relationship between a directory and the start directory.
#[derive(Clone, Copy, Debug, PartialEq, Eq, Structural)]
pub enum PathRelationship {
    /// The directory is the start directory.
    Identical,
    /// The directory is an ancestor of the start directory.
    Ancestor,
    /// The directory is a descendant of the start directory.
    Descendant,
    /// The directory is neither an ancestor nor a descendant.
    Disjoint,
}

/// A single directory visited by the walker.
#[derive(Debug)]
pub struct DirEntry {
    /// The full path of this directory.
    pub path: String,
    /// Distance of this directory from the start.
    pub distance: usize,
    /// Relationship of this directory to the start directory.
    pub relation_to_start: PathRelationship,
}

/// The mathematical value of a [`DirEntry`].
pub struct EntryView {
    pub path: Seq<char>,
    pub distance: nat,
    pub relation: PathRelationship,
}

impl View for DirEntry {
    type V = EntryView;

    open spec fn view(&self) -> EntryView {
        EntryView {
            path: self.path@,
            distance: self.distance as nat,
            relation: self.relation_to_start,
        }
    }
}

impl DirEntry {
    /// The entry for the start directory.
    pub fn start_dir(path: String) -> (res: Self)
        ensures
            res@ == (EntryView { path: path@, distance: 0, relation: PathRelationship::Identical }),
    {
        DirEntry { path, distance: 0, relation_to_start: PathRelationship::Identical }
    }

    /// The full path of this directory.
    pub fn path(&self) -> (res: &String)
        ensures
            res@ == self@.path,
    {
        &self.path
    }

    /// The final component of the path, if it has one.
    pub fn dir_name(&self) -> (res: Option<String>)
        ensures
            opt_view(res) == path_file_name_of(self@.path),
    {
        path_file_name(self.path.as_str())
    }
}

/// What remains to be done with a directory once its listing is known.
#[derive(Clone, Copy, Debug, PartialEq, Eq, Structural)]
pub enum Stage {
    /// Queue its sub-directories.
    Children,
    /// Queue its sub-directories, then its parent and the parent's other
    /// sub-directories.
    ChildrenThenAncestor,
    /// The listing is that of its parent: queue the parent's
    /// sub-directories that are not already known ancestors.
    Ancestor,
}

/// A directory whose listing has been asked for.
#[derive(Debug)]
pub struct Pending {
    pub entry: DirEntry,
    pub stage: Stage,
}

/// A request of the walker, or what it hands out.
#[derive(Debug)]
pub enum WalkStep {
    /// The walk is over.
    Finished,
    /// The next directory of the walk.
    Yield(DirEntry),
    /// The caller must list the sub-directories of this path and answer with
    /// [`WalkerIter::supply_listing`].
    ListDir(String),
}

/// The mathematical value of a [`WalkStep`].
pub enum StepView {
    Finished,
    Yield(EntryView),
    ListDir(Seq<char>),
}

impl View for WalkStep {
    type V = StepView;

    open spec fn view(&self) -> StepView {
        match self {
            WalkStep::Finished => StepView::Finished,
            WalkStep::Yield(e) => StepView::Yield(e@),
            WalkStep::ListDir(p) => StepView::ListDir(p@),
        }
    }
}

/// A walker, configured but not yet started.
pub struct DirectoryWalker {
    /// The starting point for the directory walker.
    pub start_dir: String,
    /// The maximum distance from the starting point to walk.
    pub max_dist: usize,
    /// Whether to include directories that are above the starting directory.
    pub walk_upward: bool,
    /// Whether to include the starting directory in the iteration.
    pub include_start_dir: bool,
    /// Directory names not to walk into.
    pub ignores: Option<Vec<String>>,
}

impl DirectoryWalker {
    /// A walker from `start_dir` up to `max_dist` steps away, walking
    /// downward only, including the start, ignoring nothing.
    pub fn new(start_dir: String, max_dist: usize) -> (res: Self)
        ensures
            res.start_dir@ == start_dir@,
            res.max_dist == max_dist,
            !res.walk_upward,
            res.include_start_dir,
            res.ignores is None,
    {
        DirectoryWalker { start_dir, max_dist, walk_upward: false, include_start_dir: true, ignores: None }
    }

    /// Sets whether the walker also walks upward.
    pub fn walk_upward(self, enabled: bool) -> (res: Self)
        ensures
            res == (DirectoryWalker { walk_upward: enabled, ..self }),
    {
        DirectoryWalker { walk_upward: enabled, ..self }
    }

    /// Sets whether the starting directory is handed out.
    pub fn include_start_dir(self, enabled: bool) -> (res: Self)
        ensures
            res == (DirectoryWalker { include_start_dir: enabled, ..self }),
    {
        DirectoryWalker { include_start_dir: enabled, ..self }
    }

    /// Sets the directory names not to walk into.
    pub fn ignores(self, ignores: Vec<String>) -> (res: Self)
        ensures
            res == (DirectoryWalker { ignores: Some(ignores), ..self }),
    {
        DirectoryWalker { ignores: Some(ignores), ..self }
    }

    /// Starts the walk: only the start directory is queued.
    pub fn into_iter(self) -> (res: WalkerIter)
        ensures
            res.wf(),
            res@ == (WalkerView {
                max_dist: self.max_dist,
                walk_upward: self.walk_upward,
                include_start_dir: self.include_start_dir,
                ignores: opt_names_view(self.ignores),
                queue: seq![EntryView { path: self.start_dir@, distance: 0, relation: PathRelationship::Identical }],
                seen: Seq::empty(),
                pending: None,
            }),
    {
        let mut queue: std::collections::VecDeque<DirEntry> = std::collections::VecDeque::new();
        queue.push_back(DirEntry::start_dir(self.start_dir));
        let res = WalkerIter {
            max_dist: self.max_dist,
            walk_upward: self.walk_upward,
            include_start_dir: self.include_start_dir,
            ignores: self.ignores,
            queue,
            seen_ancestors: Vec::new(),
            pending: None,
        };
        assert(res@.queue =~= seq![EntryView { path: self.start_dir@, distance: 0, relation: PathRelationship::Identical }]);
        assert(res@.seen =~= Seq::<Seq<char>>::empty());
        res
    }
}

/// The names of an optional list of names.
pub open spec fn opt_names_view(o: Option<Vec<String>>) -> Option<Seq<Seq<char>>> {
    match o {
        Some(v) => Some(strings_view(v@)),
        None => None,
    }
}

/// The mathematical value of a [`WalkerIter`].
#[verifier::ext_equal]
pub struct WalkerView {
    pub max_dist: usize,
    pub walk_upward: bool,
    pub include_start_dir: bool,
    pub ignores: Option<Seq<Seq<char>>>,
    pub queue: Seq<EntryView>,
    pub seen: Seq<Seq<char>>,
    pub pending: Option<(EntryView, Stage)>,
}

/// A walk in progress.
pub struct WalkerIter {
    /// The maximum distance from the starting point to walk.
    pub max_dist: usize,
    /// Whether to include directories that are above the starting directory.
    pub walk_upward: bool,
    /// Whether to include the starting directory in the iteration.
    pub include_start_dir: bool,
    /// Directory names not to walk into.
    pub ignores: Option<Vec<String>>,
    /// The directories still to visit, in order.
    pub queue: std::collections::VecDeque<DirEntry>,
    /// The ancestors of the start already walked through.
    pub seen_ancestors: Vec<String>,
    /// The directory whose listing has been asked for, if any.
    pub pending: Option<Pending>,
}

/// The views of a sequence of entries.
pub open spec fn entries_view(v: Seq<DirEntry>) -> Seq<EntryView> {
    v.map_values(|e: DirEntry| e@)
}

impl View for WalkerIter {
    type V = WalkerView;

    open spec fn view(&self) -> WalkerView {
        WalkerView {
            max_dist: self.max_dist,
            walk_upward: self.walk_upward,
            include_start_dir: self.include_start_dir,
            ignores: opt_names_view(self.ignores),
            queue: entries_view(self.queue@),
            seen: strings_view(self.seen_ancestors@),
            pending: match self.pending {
                Some(p) => Some((p.entry@, p.stage)),
                None => None,
            },
        }
    }
}

/// The walker does not walk into `e`: it is not the start directory and its
/// name is one of the ignored names.
pub open spec fn is_ignored(w: WalkerView, e: EntryView) -> bool {
    &&& e.relation != PathRelationship::Identical
    &&& w.ignores matches Some(names)
    &&& path_file_name_of(e.path) matches Some(name)
    &&& names.contains(name)
}

/// The relationship of the sub-directories of a directory with relationship `r`.
pub open spec fn child_relation(r: PathRelationship) -> PathRelationship {
    match r {
        PathRelationship::Identical => PathRelationship::Descendant,
        PathRelationship::Descendant => PathRelationship::Descendant,
        _ => PathRelationship::Disjoint,
    }
}

/// Entries for the listed paths, one step further than `from`.
pub open spec fn listed_entries(
    paths: Seq<Seq<char>>,
    from: EntryView,
    relation: PathRelationship,
) -> Seq<EntryView> {
    paths.map_values(|p: Seq<char>| EntryView { path: p, distance: from.distance + 1, relation })
}

/// One of the known ancestors `seen` is the same path as `p`, component by
/// component.
pub open spec fn seen_has(seen: Seq<Seq<char>>, p: Seq<char>) -> bool {
    exists|i: int| 0 <= i < seen.len() && path_same_of(#[trigger] seen[i], p)
}

/// The listed paths that are not known ancestors.
pub open spec fn unseen(paths: Seq<Seq<char>>, seen: Seq<Seq<char>>) -> Seq<Seq<char>> {
    paths.filter(|p: Seq<char>| !seen_has(seen, p))
}

/// `seen` with `p` added, unless already there.
pub open spec fn add_seen(seen: Seq<Seq<char>>, p: Seq<char>) -> Seq<Seq<char>> {
    if seen_has(seen, p) {
        seen
    } else {
        seen.push(p)
    }
}

/// After the listing of `cur` is handled: hand `cur` out, unless it is the
/// start directory and that is not to be handed out; then go on.
pub open spec fn finish_model(w: WalkerView, cur: EntryView) -> (WalkerView, StepView)
    decreases w.queue.len(), 1nat,
{
    if cur.relation == PathRelationship::Identical && !w.include_start_dir {
        advance_model(w)
    } else {
        (w, StepView::Yield(cur))
    }
}

/// Moves to the parent of `cur`: queue the parent, remember `cur` as seen,
/// and ask for the parent's listing. Where `cur` has no parent, finish it.
pub open spec fn ascend_model(w: WalkerView, cur: EntryView) -> (WalkerView, StepView)
    decreases w.queue.len(), 2nat,
{
    match path_parent_of(cur.path) {
        Some(parent) => (
            WalkerView {
                seen: add_seen(w.seen, cur.path),
                queue: w.queue.push(
                    EntryView {
                        path: parent,
                        distance: cur.distance + 1,
                        relation: PathRelationship::Ancestor,
                    },
                ),
                pending: Some((cur, Stage::Ancestor)),
                ..w
            },
            StepView::ListDir(parent),
        ),
        None => finish_model(w, cur),
    }
}

/// One step of the walk: take the next queued directory; where it is at the
/// distance limit or ignored, hand it out at once (or, for a start directory
/// that is not to be handed out, go on); otherwise ask for the listing that
/// its relationship calls for.
pub open spec fn advance_model(w: WalkerView) -> (WalkerView, StepView)
    decreases w.queue.len(), 0nat,
{
    if w.queue.len() == 0 {
        (w, StepView::Finished)
    } else {
        let cur = w.queue[0];
        let rest = WalkerView { queue: w.queue.drop_first(), ..w };
        if cur.distance == w.max_dist || is_ignored(w, cur) {
            finish_model(rest, cur)
        } else {
            match cur.relation {
                PathRelationship::Identical => (
                    WalkerView {
                        pending: Some(
                            (
                                cur,
                                if w.walk_upward {
                                    Stage::ChildrenThenAncestor
                                } else {
                                    Stage::Children
                                },
                            ),
                        ),
                        ..rest
                    },
                    StepView::ListDir(cur.path),
                ),
                PathRelationship::Ancestor => ascend_model(rest, cur),
                _ => (
                    WalkerView { pending: Some((cur, Stage::Children)), ..rest },
                    StepView::ListDir(cur.path),
                ),
            }
        }
    }
}

/// Handles the listing asked for: queue the sub-directories found, as the
/// pending stage says, then go on.
pub open spec fn supply_model(w: WalkerView, listing: Seq<Seq<char>>) -> (WalkerView, StepView) {
    match w.pending {
        Some((cur, stage)) => {
            let w0 = WalkerView { pending: None, ..w };
            match stage {
                Stage::Children => finish_model(
                    WalkerView {
                        queue: w.queue + listed_entries(listing, cur, child_relation(cur.relation)),
                        ..w0
                    },
                    cur,
                ),
                Stage::ChildrenThenAncestor => ascend_model(
                    WalkerView {
                        queue: w.queue + listed_entries(listing, cur, child_relation(cur.relation)),
                        ..w0
                    },
                    cur,
                ),
                Stage::Ancestor => finish_model(
                    WalkerView {
                        queue: w.queue + listed_entries(
                            unseen(listing, w.seen),
                            cur,
                            PathRelationship::Disjoint,
                        ),
                        ..w0
                    },
                    cur,
                ),
            }
        },
        None => (w, StepView::Finished),
    }
}

/// Every queued or pending directory is at least `d` steps from the start.
pub open spec fn all_at_least(w: WalkerView, d: nat) -> bool {
    &&& forall|i: int| 0 <= i < w.queue.len() ==> d <= #[trigger] w.queue[i].distance
    &&& (w.pending matches Some((cur, _)) ==> d <= cur.distance)
}

/// Without the upward walk, only the start and its descendants occur.
pub open spec fn relation_allowed(w: WalkerView, r: PathRelationship) -> bool {
    &&& !w.walk_upward ==> (r == PathRelationship::Identical || r == PathRelationship::Descendant)
}

impl WalkerView {
    /// The invariant of a walk.
    pub open spec fn wf(self) -> bool {
        let q = self.queue;
        // nothing beyond the distance limit is queued
        &&& forall|i: int| 0 <= i < q.len() ==> #[trigger] q[i].distance <= self.max_dist
        // breadth first: the queue is ordered by distance and spans at most one step
        &&& forall|i: int, j: int| 0 <= i <= j < q.len() ==> #[trigger] q[i].distance <= #[trigger] q[j].distance
        &&& forall|j: int| 0 <= j < q.len() ==> #[trigger] q[j].distance <= q[0].distance + 1
        // only the start directory is identical to the start, and only at the front
        &&& forall|j: int| 0 <= j < q.len() && #[trigger] q[j].relation == PathRelationship::Identical
            ==> j == 0 && q[j].distance == 0 && self.pending is None
        // without the upward walk, only the start and its descendants occur
        &&& forall|j: int| 0 <= j < q.len() ==> relation_allowed(self, #[trigger] q[j].relation)
        // known ancestors are listed once
        &&& forall|i: int, j: int| 0 <= i < j < self.seen.len() ==> !path_same_of(#[trigger] self.seen[i], #[trigger] self.seen[j])
        &&& match self.pending {
            Some((cur, stage)) => {
                &&& cur.distance < self.max_dist
                &&& forall|j: int| 0 <= j < q.len() ==> cur.distance <= #[trigger] q[j].distance <= cur.distance + 1
                &&& relation_allowed(self, cur.relation)
                &&& cur.relation == PathRelationship::Identical ==> cur.distance == 0
                &&& match stage {
                    Stage::Children => cur.relation != PathRelationship::Ancestor,
                    Stage::ChildrenThenAncestor => cur.relation == PathRelationship::Identical
                        && self.walk_upward,
                    Stage::Ancestor => (cur.relation == PathRelationship::Identical
                        || cur.relation == PathRelationship::Ancestor) && self.walk_upward,
                }
                &&& stage != Stage::Ancestor ==> !is_ignored(self, cur)
            },
            None => true,
        }
    }
}

impl WalkerIter {
    /// The invariant of a walk.
    pub open spec fn wf(&self) -> bool {
        self@.wf()
    }
}

/// No queued directory is the start directory.
pub open spec fn no_identical(q: Seq<EntryView>) -> bool {
    forall|j: int| 0 <= j < q.len() ==> #[trigger] q[j].relation != PathRelationship::Identical
}

/// The settings of the walk are unchanged from `w` to `v`.
pub open spec fn same_settings(w: WalkerView, v: WalkerView) -> bool {
    &&& v.max_dist == w.max_dist
    &&& v.walk_upward == w.walk_upward
    &&& v.include_start_dir == w.include_start_dir
    &&& v.ignores == w.ignores
}

/// What every step of a walk from `w` guarantees of its outcome `r`.
pub open spec fn step_ok(w: WalkerView, r: (WalkerView, StepView)) -> bool {
    &&& r.0.wf()
    &&& same_settings(w, r.0)
    &&& (r.1 matches StepView::ListDir(_) <==> r.0.pending is Some)
    &&& (r.1 matches StepView::Finished ==> r.0.queue.len() == 0)
    &&& (r.1 matches StepView::Yield(e) ==> {
        &&& e.distance <= w.max_dist
        &&& relation_allowed(w, e.relation)
        &&& all_at_least(r.0, e.distance)
        &&& (e.relation == PathRelationship::Identical ==> w.include_start_dir)
    })
}

/// The outcome `r` keeps every lower bound `d` on distances that holds of `w`.
pub open spec fn keeps_bounds(w: WalkerView, r: (WalkerView, StepView)) -> bool {
    forall|d: nat| #[trigger] all_at_least(w, d) ==> all_at_least(r.0, d) && (r.1 matches StepView::Yield(
        e,
    ) ==> d <= e.distance)
}

/// Every step of a walk that takes the next directory keeps the walk's
/// invariant and settings; a directory handed out is within the distance
/// limit, is the start or a descendant of it unless the walk goes upward,
/// is the start only where the start is to be handed out, and is no further than anything still to come (the walk is breadth
/// first); and every lower bound on the distances still to come is kept.
pub proof fn lemma_advance(w: WalkerView)
    requires
        w.wf(),
        w.pending is None,
    ensures
        step_ok(w, advance_model(w)),
        keeps_bounds(w, advance_model(w)),
    decreases w.queue.len(), 0nat,
{
    if w.queue.len() > 0 {
        let q = w.queue;
        let cur = q[0];
        let rest = WalkerView { queue: q.drop_first(), ..w };
        assert forall|j: int| 0 <= j < rest.queue.len() implies #[trigger] rest.queue[j].relation
            != PathRelationship::Identical by {
            assert(rest.queue[j] == q[j + 1]);
        }
        assert forall|j: int| 0 <= j < rest.queue.len() implies cur.distance <= #[trigger] rest.queue[j].distance
            <= cur.distance + 1 by {
            assert(rest.queue[j] == q[j + 1]);
        }
        if cur.distance == w.max_dist || is_ignored(w, cur) {
            assert(rest.wf()) by {
                assert forall|j: int| 0 <= j < rest.queue.len() implies #[trigger] rest.queue[j] == q[j + 1] by {}
            }
            lemma_finish(rest, cur);
            assert forall|d: nat| #[trigger] all_at_least(w, d) implies d <= cur.distance by {
                assert(d <= q[0].distance);
            }
        } else {
            match cur.relation {
                PathRelationship::Ancestor => {
                    assert(rest.wf()) by {
                        assert forall|j: int| 0 <= j < rest.queue.len() implies #[trigger] rest.queue[j] == q[j + 1] by {}
                    }
                    lemma_ascend(rest, cur);
                },
                _ => {
                    let r = advance_model(w).0;
                    assert(r.wf()) by {
                        assert forall|j: int| 0 <= j < r.queue.len() implies #[trigger] r.queue[j] == q[j + 1] by {}
                    }
                },
            }
        }
    }
}

proof fn lemma_ascend(w: WalkerView, cur: EntryView)
    requires
        w.wf(),
        w.pending is None,
        no_identical(w.queue),
        w.walk_upward,
        cur.distance < w.max_dist,
        cur.relation == PathRelationship::Identical || cur.relation == PathRelationship::Ancestor,
        cur.relation == PathRelationship::Identical ==> cur.distance == 0,
        forall|j: int| 0 <= j < w.queue.len() ==> cur.distance <= #[trigger] w.queue[j].distance <= cur.distance + 1,
    ensures
        step_ok(w, ascend_model(w, cur)),
        forall|d: nat| d <= cur.distance ==> #[trigger] all_at_least(ascend_model(w, cur).0, d)
            && (ascend_model(w, cur).1 matches StepView::Yield(e) ==> d <= e.distance),
    decreases w.queue.len(), 2nat,
{
    match path_parent_of(cur.path) {
        Some(parent) => {
            let r = ascend_model(w, cur).0;
            let q = r.queue;
            let ne = EntryView { path: parent, distance: cur.distance + 1, relation: PathRelationship::Ancestor };
            assert(q == w.queue.push(ne));
            assert forall|j: int| 0 <= j < q.len() implies #[trigger] q[j].relation != PathRelationship::Identical by {
                if j < w.queue.len() {
                    assert(q[j] == w.queue[j]);
                }
            }
            assert forall|i: int, j: int| 0 <= i <= j < q.len() implies #[trigger] q[i].distance <= #[trigger] q[j].distance by {
                if j < w.queue.len() {
                    assert(q[i] == w.queue[i] && q[j] == w.queue[j]);
                } else if i < w.queue.len() {
                    assert(q[i] == w.queue[i]);
                }
            }
            assert forall|j: int| 0 <= j < q.len() implies #[trigger] q[j].distance <= q[0].distance + 1 by {
                if j < w.queue.len() {
                    assert(q[j] == w.queue[j]);
                }
                if w.queue.len() > 0 {
                    assert(q[0] == w.queue[0]);
                }
            }
            assert forall|j: int| 0 <= j < q.len() implies cur.distance <= #[trigger] q[j].distance <= cur.distance + 1 by {
                if j < w.queue.len() {
                    assert(q[j] == w.queue[j]);
                }
            }
            assert forall|j: int| 0 <= j < q.len() implies #[trigger] q[j].distance <= w.max_dist by {
                if j < w.queue.len() {
                    assert(q[j] == w.queue[j]);
                }
            }
            assert forall|j: int| 0 <= j < q.len() implies relation_allowed(r, #[trigger] q[j].relation) by {
                if j < w.queue.len() {
                    assert(q[j] == w.queue[j]);
                }
            }
            let sn = r.seen;
            assert forall|i: int, j: int| 0 <= i < j < sn.len() implies !path_same_of(#[trigger] sn[i], #[trigger] sn[j]) by {
                if !seen_has(w.seen, cur.path) && j == sn.len() - 1 {
                    assert(sn[i] == w.seen[i]);
                    if path_same_of(sn[i], sn[j]) {
                        assert(seen_has(w.seen, cur.path));
                    }
                } else {
                    assert(sn[i] == w.seen[i] && sn[j] == w.seen[j]);
                }
            }
            assert(r.wf());
        },
        None => {
            lemma_finish(w, cur);
        },
    }
}

proof fn lemma_rest_wf(w: WalkerView)
    requires
        w.wf(),
        w.pending is None,
        w.queue.len() > 0,
    ensures
        (WalkerView { queue: w.queue.drop_first(), ..w }).wf(),
{
    let q = w.queue;
    let rest = WalkerView { queue: q.drop_first(), ..w };
    assert forall|j: int| 0 <= j < rest.queue.len() implies #[trigger] rest.queue[j] == q[j + 1] by {}
    assert forall|j: int| 0 <= j < rest.queue.len() implies #[trigger] rest.queue[j].relation
        != PathRelationship::Identical by {
        assert(rest.queue[j] == q[j + 1]);
    }
}

proof fn lemma_finish(w: WalkerView, cur: EntryView)
    requires
        w.wf(),
        w.pending is None,
        no_identical(w.queue),
        cur.distance <= w.max_dist,
        relation_allowed(w, cur.relation),
        cur.relation == PathRelationship::Identical ==> cur.distance == 0,
        forall|j: int| 0 <= j < w.queue.len() ==> cur.distance <= #[trigger] w.queue[j].distance <= cur.distance + 1,
    ensures
        step_ok(w, finish_model(w, cur)),
        forall|d: nat| d <= cur.distance ==> #[trigger] all_at_least(finish_model(w, cur).0, d)
            && (finish_model(w, cur).1 matches StepView::Yield(e) ==> d <= e.distance),
    decreases w.queue.len(), 1nat,
{
    if cur.relation == PathRelationship::Identical && !w.include_start_dir {
        lemma_advance(w);
        assert forall|d: nat| d <= cur.distance implies #[trigger] all_at_least(w, d) by {}
    }
}

/// Answering a listing keeps the same guarantees as
/// [`lemma_advance`], whatever the listing holds.
pub proof fn lemma_supply(w: WalkerView, listing: Seq<Seq<char>>)
    requires
        w.wf(),
        w.pending is Some,
    ensures
        step_ok(w, supply_model(w, listing)),
        keeps_bounds(w, supply_model(w, listing)),
{
    let (cur, stage) = w.pending->0;
    let w1 = supply_queued(w, listing);
    lemma_supply_wf(w, listing);
    assert forall|d: nat| #[trigger] all_at_least(w, d) implies d <= cur.distance by {}
    match stage {
        Stage::ChildrenThenAncestor => {
            lemma_ascend(w1, cur);
        },
        _ => {
            lemma_finish(w1, cur);
        },
    }
}

/// The directory whose listing is awaited.
pub open spec fn pending_entry(w: WalkerView) -> EntryView {
    (w.pending->0).0
}

/// The stage that the awaited listing is for.
pub open spec fn pending_stage(w: WalkerView) -> Stage {
    (w.pending->0).1
}

/// The walk once the listed paths are queued, before the pending directory
/// is handled further.
pub open spec fn supply_queued(w: WalkerView, listing: Seq<Seq<char>>) -> WalkerView {
    let (cur, stage) = w.pending->0;
    let added = match stage {
        Stage::Ancestor => listed_entries(unseen(listing, w.seen), cur, PathRelationship::Disjoint),
        _ => listed_entries(listing, cur, child_relation(cur.relation)),
    };
    WalkerView { queue: w.queue + added, pending: None, ..w }
}

proof fn lemma_supply_wf(w: WalkerView, listing: Seq<Seq<char>>)
    requires
        w.wf(),
        w.pending is Some,
    ensures
        supply_queued(w, listing).wf(),
        no_identical(supply_queued(w, listing).queue),
        forall|j: int| 0 <= j < supply_queued(w, listing).queue.len() ==> pending_entry(w).distance
            <= #[trigger] supply_queued(w, listing).queue[j].distance <= pending_entry(w).distance + 1,
        supply_model(w, listing) == match pending_stage(w) {
            Stage::ChildrenThenAncestor => ascend_model(supply_queued(w, listing), pending_entry(w)),
            _ => finish_model(supply_queued(w, listing), pending_entry(w)),
        },
{
    let (cur, stage) = w.pending->0;
    let added = match stage {
        Stage::Ancestor => listed_entries(unseen(listing, w.seen), cur, PathRelationship::Disjoint),
        _ => listed_entries(listing, cur, child_relation(cur.relation)),
    };
    let w1 = supply_queued(w, listing);
    let q = w1.queue;
    let n = w.queue.len();
    assert forall|j: int| 0 <= j < q.len() implies (j < n ==> #[trigger] q[j] == w.queue[j]) && (n <= j
        ==> q[j] == added[j - n]) by {}
    assert forall|j: int| 0 <= j < q.len() implies #[trigger] q[j].relation != PathRelationship::Identical by {
        if j < n {
            assert(q[j] == w.queue[j]);
        } else {
            assert(q[j] == added[j - n]);
        }
    }
    assert forall|j: int| 0 <= j < q.len() implies cur.distance <= #[trigger] q[j].distance <= cur.distance + 1 by {
        if j < n {
            assert(q[j] == w.queue[j]);
        } else {
            assert(q[j] == added[j - n]);
        }
    }
    assert forall|j: int| 0 <= j < q.len() implies #[trigger] q[j].distance <= w.max_dist by {
        if j < n {
            assert(q[j] == w.queue[j]);
        } else {
            assert(q[j] == added[j - n]);
        }
    }
    assert forall|i: int, j: int| 0 <= i <= j < q.len() implies #[trigger] q[i].distance <= #[trigger] q[j].distance by {
        if j < n {
            assert(q[i] == w.queue[i] && q[j] == w.queue[j]);
        } else if i < n {
            assert(q[i] == w.queue[i] && q[j] == added[j - n]);
        } else {
            assert(q[i] == added[i - n] && q[j] == added[j - n]);
        }
    }
    assert forall|j: int| 0 <= j < q.len() implies #[trigger] q[j].distance <= q[0].distance + 1 by {
        if j < n {
            assert(q[j] == w.queue[j]);
        } else {
            assert(q[j] == added[j - n]);
        }
        if n > 0 {
            assert(q[0] == w.queue[0]);
        } else {
            assert(q[0] == added[0]);
        }
    }
    assert forall|j: int| 0 <= j < q.len() implies relation_allowed(w1, #[trigger] q[j].relation) by {
        if j < n {
            assert(q[j] == w.queue[j]);
        } else {
            assert(q[j] == added[j - n]);
        }
    }
    assert(w1.wf());
}

impl WalkerIter {
    fn is_ignored_entry(&self, e: &DirEntry) -> (res: bool)
        ensures
            res == is_ignored(self@, e@),
    {
        if e.relation_to_start == PathRelationship::Identical {
            return false;
        }
        match &self.ignores {
            Some(names) => match path_file_name(e.path.as_str()) {
                Some(name) => contains_name(names, name.as_str()),
                None => false,
            },
            None => false,
        }
    }

    /// Hands out the start directory, or goes on, after its listing.
    fn finish(&mut self, cur: DirEntry) -> (res: WalkStep)
        requires
            old(self)@.wf(),
            old(self)@.pending is None,
        ensures
            (final(self)@, res@) == finish_model(old(self)@, cur@),
        decreases old(self)@.queue.len(), 1nat,
    {
        if cur.relation_to_start == PathRelationship::Identical && !self.include_start_dir {
            self.advance()
        } else {
            WalkStep::Yield(cur)
        }
    }

    /// Queues the parent of `cur` and asks for the parent's listing.
    fn ascend_to(&mut self, cur: DirEntry, parent: String) -> (res: WalkStep)
        requires
            path_parent_of(cur@.path) == Some(parent@),
            cur.distance < old(self).max_dist,
        ensures
            (final(self)@, res@) == ascend_model(old(self)@, cur@),
    {
        if !seen_contains(&self.seen_ancestors, cur.path.as_str()) {
            let ghost before = self.seen_ancestors@;
            self.seen_ancestors.push(cur.path.clone());
            assert(strings_view(self.seen_ancestors@) =~= strings_view(before).push(cur@.path));
        }
        let ghost before_queue = self.queue@;
        let d = cur.distance + 1;
        self.queue.push_back(DirEntry { path: parent.clone(), distance: d, relation_to_start: PathRelationship::Ancestor });
        assert(entries_view(self.queue@) =~= entries_view(before_queue).push(EntryView { path: parent@, distance: cur@.distance + 1, relation: PathRelationship::Ancestor }));
        self.pending = Some(Pending { entry: cur, stage: Stage::Ancestor });
        WalkStep::ListDir(parent)
    }

    /// One step of the walk: hands out the next directory, reports the end
    /// of the walk, or asks for a directory listing.
    pub fn advance(&mut self) -> (res: WalkStep)
        requires
            old(self).wf(),
            old(self)@.pending is None,
        ensures
            (final(self)@, res@) == advance_model(old(self)@),
            step_ok(old(self)@, (final(self)@, res@)),
            keeps_bounds(old(self)@, (final(self)@, res@)),
        decreases old(self)@.queue.len(), 0nat,
    {
        proof {
            lemma_advance(self@);
        }
        let ghost w = self@;
        let cur = match self.queue.pop_front() {
            Some(e) => e,
            None => {
                return WalkStep::Finished;
            },
        };
        assert(entries_view(self.queue@) =~= w.queue.drop_first());
        if cur.distance == self.max_dist || self.is_ignored_entry(&cur) {
            proof {
                lemma_rest_wf(w);
            }
            return self.finish(cur);
        }
        match cur.relation_to_start {
            PathRelationship::Identical => {
                let path = cur.path.clone();
                let stage = if self.walk_upward {
                    Stage::ChildrenThenAncestor
                } else {
                    Stage::Children
                };
                self.pending = Some(Pending { entry: cur, stage });
                WalkStep::ListDir(path)
            },
            PathRelationship::Ancestor => {
                match path_parent(cur.path.as_str()) {
                    Some(parent) => self.ascend_to(cur, parent),
                    None => {
                        assert(finish_model(self@, cur@) == (self@, StepView::Yield(cur@)));
                        WalkStep::Yield(cur)
                    },
                }
            },
            _ => {
                let path = cur.path.clone();
                self.pending = Some(Pending { entry: cur, stage: Stage::Children });
                WalkStep::ListDir(path)
            },
        }
    }

    /// Queues an entry for each listed path, one step further than `from`.
    fn queue_listed(&mut self, listing: &Vec<String>, from: &DirEntry, relation: PathRelationship, skip_seen: bool)
        requires
            from.distance < usize::MAX,
        ensures
            final(self)@ == (WalkerView {
                queue: old(self)@.queue + listed_entries(
                    if skip_seen { unseen(strings_view(listing@), old(self)@.seen) } else { strings_view(listing@) },
                    from@,
                    relation,
                ),
                ..old(self)@
            }),
    {
        let ghost w = self@;
        let ghost lv = strings_view(listing@);
        let mut i: usize = 0;
        while i < listing.len()
            invariant
                i <= listing@.len(),
                lv == strings_view(listing@),
                from.distance < usize::MAX,
                self@ == (WalkerView {
                    queue: w.queue + listed_entries(
                        if skip_seen { unseen(lv.take(i as int), w.seen) } else { lv.take(i as int) },
                        from@,
                        relation,
                    ),
                    ..w
                }),
            decreases listing@.len() - i,
        {
            let ghost before = self.queue@;
            let ghost x = listing@[i as int]@;
            assert(lv.take(i + 1) =~= lv.take(i as int).push(x));
            proof {
                lv.take(i as int).lemma_filter_push(x, |p: Seq<char>| !seen_has(w.seen, p));
            }
            let take = !skip_seen || !seen_contains(&self.seen_ancestors, listing[i].as_str());
            if take {
                self.queue.push_back(DirEntry { path: listing[i].clone(), distance: from.distance + 1, relation_to_start: relation });
                assert(entries_view(self.queue@) =~= entries_view(before).push(EntryView { path: x, distance: from@.distance + 1, relation }));
            }
            let ghost prev = if skip_seen { unseen(lv.take(i as int), w.seen) } else { lv.take(i as int) };
            let ghost next = if skip_seen { unseen(lv.take(i + 1), w.seen) } else { lv.take(i + 1) };
            assert(next == if take { prev.push(x) } else { prev });
            assert(listed_entries(next, from@, relation) =~= if take {
                listed_entries(prev, from@, relation).push(EntryView { path: x, distance: from@.distance + 1, relation })
            } else {
                listed_entries(prev, from@, relation)
            });
            i = i + 1;
        }
        assert(lv.take(listing@.len() as int) =~= lv);
    }

    /// Answers the listing asked for by the last step: `listing` holds the
    /// paths of the sub-directories found (empty where the directory could
    /// not be read).
    pub fn supply_listing(&mut self, listing: Vec<String>) -> (res: WalkStep)
        requires
            old(self).wf(),
            old(self)@.pending is Some,
        ensures
            (final(self)@, res@) == supply_model(old(self)@, strings_view(listing@)),
            step_ok(old(self)@, (final(self)@, res@)),
            keeps_bounds(old(self)@, (final(self)@, res@)),
    {
        proof {
            lemma_supply(self@, strings_view(listing@));
        }
        let pending = match self.pending.take() {
            Some(p) => p,
            None => {
                return WalkStep::Finished;
            },
        };
        let cur = pending.entry;
        match pending.stage {
            Stage::Children => {
                self.queue_listed(&listing, &cur, child_relation_of(cur.relation_to_start), false);
                self.finish(cur)
            },
            Stage::ChildrenThenAncestor => {
                self.queue_listed(&listing, &cur, child_relation_of(cur.relation_to_start), false);
                match path_parent(cur.path.as_str()) {
                    Some(parent) => self.ascend_to(cur, parent),
                    None => self.finish(cur),
                }
            },
            Stage::Ancestor => {
                self.queue_listed(&listing, &cur, PathRelationship::Disjoint, true);
                self.finish(cur)
            },
        }
    }
}

fn child_relation_of(r: PathRelationship) -> (res: PathRelationship)
    ensures
        res == child_relation(r),
{
    match r {
        PathRelationship::Identical => PathRelationship::Descendant,
        PathRelationship::Descendant => PathRelationship::Descendant,
        _ => PathRelationship::Disjoint,
    }
}

/// A step that hands out a directory takes it off the queue: the queue
/// shrinks.
pub proof fn lemma_advance_yield_shrinks(w: WalkerView)
    ensures
        advance_model(w).1 is Yield ==> advance_model(w).0.queue.len() < w.queue.len(),
    decreases w.queue.len(),
{
    if w.queue.len() > 0 {
        let cur = w.queue[0];
        let rest = WalkerView { queue: w.queue.drop_first(), ..w };
        if cur.distance == w.max_dist || is_ignored(w, cur) {
            if cur.relation == PathRelationship::Identical && !w.include_start_dir {
                lemma_advance_yield_shrinks(rest);
            }
        } else if cur.relation == PathRelationship::Ancestor {
            match path_parent_of(cur.path) {
                Some(_) => {},
                None => {
                    assert(finish_model(rest, cur) == (rest, StepView::Yield(cur)));
                },
            }
        }
    }
}

/// A directory whose name is ignored (other than the start) is handed out
/// as it comes, and nothing below or around it is queued.
pub proof fn law_ignored_not_entered(w: WalkerView)
    requires
        w.wf(),
        w.pending is None,
        w.queue.len() > 0,
        is_ignored(w, w.queue[0]),
    ensures
        advance_model(w).1 == StepView::Yield(w.queue[0]),
        advance_model(w).0.queue == w.queue.drop_first(),
        advance_model(w).0.pending is None,
{
}

/// Breadth first, over any number of steps: once a directory at distance
/// `d` has been handed out, every directory handed out later is at least
/// as far, whatever the listings hold.
pub proof fn law_breadth_first(w: WalkerView, listing: Seq<Seq<char>>, d: nat)
    requires
        w.wf(),
        all_at_least(w, d),
    ensures
        w.pending is None ==> all_at_least(advance_model(w).0, d) && (advance_model(w).1 matches StepView::Yield(e) ==> d <= e.distance),
        w.pending is Some ==> all_at_least(supply_model(w, listing).0, d) && (supply_model(w, listing).1 matches StepView::Yield(e) ==> d <= e.distance),
{
    if w.pending is None {
        lemma_advance(w);
    } else {
        lemma_supply(w, listing);
    }
}

/// Ignored names hold in the upward walk too: a queued directory other than
/// the start whose name is one of the ignored names is handed out as it
/// comes, whatever its relation to the start (an ancestor or one of its
/// other children included), and nothing below or around it is queued.
pub proof fn law_ignored_handed_out_whatever_relation(w: WalkerView, names: Seq<Seq<char>>, name: Seq<char>)
    requires
        w.wf(),
        w.pending is None,
        w.queue.len() > 0,
        w.queue[0].relation != PathRelationship::Identical,
        w.ignores == Some(names),
        path_file_name_of(w.queue[0].path) == Some(name),
        names.contains(name),
    ensures
        advance_model(w) == (WalkerView { queue: w.queue.drop_first(), ..w }, StepView::Yield(w.queue[0])),
{
}

/// `p` is `start` or lies below it: going up some number of levels from `p`
/// reaches `start`.
pub open spec fn lies_below(p: Seq<char>, start: Seq<char>) -> bool {
    exists|n: nat| ancestor_of(p, n) == start
}

/// Every directory queued or pending lies below `start`.
pub open spec fn all_below(w: WalkerView, start: Seq<char>) -> bool {
    &&& forall|j: int| 0 <= j < w.queue.len() ==> lies_below(#[trigger] w.queue[j].path, start)
    &&& (w.pending matches Some((cur, _)) ==> lies_below(cur.path, start))
}

/// The outcome `r` of a step keeps everything below `start`, the directory
/// handed out included.
pub open spec fn stays_below(r: (WalkerView, StepView), start: Seq<char>) -> bool {
    &&& all_below(r.0, start)
    &&& (r.1 matches StepView::Yield(e) ==> lies_below(e.path, start))
}

/// `listing` lists children of `dir`: each listed path has `dir` as parent.
pub open spec fn lists_children_of(listing: Seq<Seq<char>>, dir: Seq<char>) -> bool {
    forall|k: int| 0 <= k < listing.len() ==> path_parent_of(#[trigger] listing[k]) == Some(dir)
}

/// Only the start and its descendants are queued.
pub open spec fn only_downward(q: Seq<EntryView>) -> bool {
    forall|j: int| 0 <= j < q.len() ==> (#[trigger] q[j]).relation == PathRelationship::Identical
        || q[j].relation == PathRelationship::Descendant
}

proof fn lemma_advance_below(w: WalkerView, start: Seq<char>)
    requires
        w.pending is None,
        !w.walk_upward,
        only_downward(w.queue),
        all_below(w, start),
    ensures
        stays_below(advance_model(w), start),
    decreases w.queue.len(), 0nat,
{
    if w.queue.len() > 0 {
        let q = w.queue;
        let cur = q[0];
        let rest = WalkerView { queue: q.drop_first(), ..w };
        assert forall|j: int| 0 <= j < rest.queue.len() implies #[trigger] rest.queue[j] == q[j + 1] by {}
        assert(only_downward(rest.queue)) by {
            assert forall|j: int| 0 <= j < rest.queue.len() implies (#[trigger] rest.queue[j]).relation
                == PathRelationship::Identical || rest.queue[j].relation == PathRelationship::Descendant by {
                assert(rest.queue[j] == q[j + 1]);
            }
        }
        assert(all_below(rest, start)) by {
            assert forall|j: int| 0 <= j < rest.queue.len() implies lies_below(#[trigger] rest.queue[j].path, start) by {
                assert(rest.queue[j] == q[j + 1]);
            }
        }
        assert(lies_below(cur.path, start));
        if cur.distance == w.max_dist || is_ignored(w, cur) {
            lemma_finish_below(rest, cur, start);
        }
    }
}

proof fn lemma_finish_below(w: WalkerView, cur: EntryView, start: Seq<char>)
    requires
        w.pending is None,
        !w.walk_upward,
        only_downward(w.queue),
        all_below(w, start),
        lies_below(cur.path, start),
    ensures
        stays_below(finish_model(w, cur), start),
    decreases w.queue.len(), 1nat,
{
    if cur.relation == PathRelationship::Identical && !w.include_start_dir {
        lemma_advance_below(w, start);
    }
}

/// Without the upward walk, the walk stays below its start: the start lies
/// below itself, and, where each listing supplied lists children of the
/// directory it was asked for, every directory queued, pending or handed
/// out lies below the start.
pub proof fn law_walk_stays_below_start(w: WalkerView, start: Seq<char>, listing: Seq<Seq<char>>)
    requires
        w.wf(),
        !w.walk_upward,
        all_below(w, start),
        w.pending matches Some((cur, _)) ==> lists_children_of(listing, cur.path),
    ensures
        lies_below(start, start),
        w.pending is None ==> stays_below(advance_model(w), start),
        w.pending is Some ==> stays_below(supply_model(w, listing), start),
{
    assert(ancestor_of(start, 0) == start);
    assert(only_downward(w.queue)) by {
        assert forall|j: int| 0 <= j < w.queue.len() implies (#[trigger] w.queue[j]).relation
            == PathRelationship::Identical || w.queue[j].relation == PathRelationship::Descendant by {
            assert(relation_allowed(w, w.queue[j].relation));
        }
    }
    if w.pending is None {
        lemma_advance_below(w, start);
    } else {
        let (cur, stage) = w.pending->0;
        assert(stage == Stage::Children);
        let added = listed_entries(listing, cur, child_relation(cur.relation));
        let w1 = WalkerView { queue: w.queue + added, pending: None, ..w };
        let n = choose|n: nat| ancestor_of(cur.path, n) == start;
        let q = w1.queue;
        let m = w.queue.len();
        assert forall|j: int| 0 <= j < q.len() implies lies_below(#[trigger] q[j].path, start)
            && (q[j].relation == PathRelationship::Identical || q[j].relation == PathRelationship::Descendant) by {
            if j < m {
                assert(q[j] == w.queue[j]);
            } else {
                assert(q[j] == added[j - m]);
                assert(path_parent_of(listing[j - m]) == Some(cur.path));
                assert(ancestor_of(listing[j - m], n + 1) == start);
            }
        }
        assert(supply_model(w, listing) == finish_model(w1, cur));
        lemma_finish_below(w1, cur, start);
    }
}

/// The final name of `p` is one of `names`.
pub open spec fn named_in(p: Seq<char>, names: Seq<Seq<char>>) -> bool {
    path_file_name_of(p) matches Some(x) && names.contains(x)
}

/// `p` lies below `start`, and no directory strictly between them has one of
/// the names `names`: the walk reached `p` without entering an ignored
/// directory.
pub open spec fn reached_clear(p: Seq<char>, start: Seq<char>, names: Seq<Seq<char>>) -> bool {
    exists|n: nat| ancestor_of(p, n) == start
        && forall|k: nat| 1 <= k < n ==> !named_in(#[trigger] ancestor_of(p, k), names)
}

/// `e` was reached without entering an ignored directory, and is the start
/// directory itself where it stands for it.
pub open spec fn entry_clear(e: EntryView, start: Seq<char>, names: Seq<Seq<char>>) -> bool {
    &&& reached_clear(e.path, start, names)
    &&& e.relation == PathRelationship::Identical ==> e.path == start
}

/// Every directory queued or pending was reached without entering an
/// ignored directory.
pub open spec fn all_clear(w: WalkerView, start: Seq<char>, names: Seq<Seq<char>>) -> bool {
    &&& forall|j: int| 0 <= j < w.queue.len() ==> entry_clear(#[trigger] w.queue[j], start, names)
    &&& (w.pending matches Some((cur, _)) ==> entry_clear(cur, start, names))
}

/// The outcome `r` of a step keeps every directory clear of ignored ones,
/// the directory handed out included.
pub open spec fn stays_clear(r: (WalkerView, StepView), start: Seq<char>, names: Seq<Seq<char>>) -> bool {
    &&& all_clear(r.0, start, names)
    &&& (r.1 matches StepView::Yield(e) ==> reached_clear(e.path, start, names))
}

proof fn lemma_advance_clear(w: WalkerView, start: Seq<char>, names: Seq<Seq<char>>)
    requires
        w.pending is None,
        !w.walk_upward,
        only_downward(w.queue),
        all_clear(w, start, names),
    ensures
        stays_clear(advance_model(w), start, names),
    decreases w.queue.len(), 0nat,
{
    if w.queue.len() > 0 {
        let q = w.queue;
        let cur = q[0];
        let rest = WalkerView { queue: q.drop_first(), ..w };
        assert forall|j: int| 0 <= j < rest.queue.len() implies #[trigger] rest.queue[j] == q[j + 1] by {}
        assert(only_downward(rest.queue)) by {
            assert forall|j: int| 0 <= j < rest.queue.len() implies (#[trigger] rest.queue[j]).relation
                == PathRelationship::Identical || rest.queue[j].relation == PathRelationship::Descendant by {
                assert(rest.queue[j] == q[j + 1]);
            }
        }
        assert(all_clear(rest, start, names)) by {
            assert forall|j: int| 0 <= j < rest.queue.len() implies entry_clear(#[trigger] rest.queue[j], start, names) by {
                assert(rest.queue[j] == q[j + 1]);
            }
        }
        assert(entry_clear(cur, start, names));
        if cur.distance == w.max_dist || is_ignored(w, cur) {
            lemma_finish_clear(rest, cur, start, names);
        }
    }
}

proof fn lemma_finish_clear(w: WalkerView, cur: EntryView, start: Seq<char>, names: Seq<Seq<char>>)
    requires
        w.pending is None,
        !w.walk_upward,
        only_downward(w.queue),
        all_clear(w, start, names),
        entry_clear(cur, start, names),
    ensures
        stays_clear(finish_model(w, cur), start, names),
    decreases w.queue.len(), 1nat,
{
    if cur.relation == PathRelationship::Identical && !w.include_start_dir {
        lemma_advance_clear(w, start, names);
    }
}

proof fn lemma_child_clear(p: Seq<char>, cur: EntryView, start: Seq<char>, names: Seq<Seq<char>>)
    requires
        path_parent_of(p) == Some(cur.path),
        entry_clear(cur, start, names),
        cur.relation != PathRelationship::Identical ==> !named_in(cur.path, names),
    ensures
        reached_clear(p, start, names),
{
    assert(ancestor_of(p, 1) == ancestor_of(cur.path, 0));
    if cur.relation == PathRelationship::Identical {
        assert(ancestor_of(p, 1) == start);
        assert(forall|k: nat| 1 <= k < 1 ==> !named_in(#[trigger] ancestor_of(p, k), names));
    } else {
        let n = choose|n: nat| ancestor_of(cur.path, n) == start
            && forall|k: nat| 1 <= k < n ==> !named_in(#[trigger] ancestor_of(cur.path, k), names);
        assert(ancestor_of(p, n + 1) == ancestor_of(cur.path, n));
        assert forall|k: nat| 1 <= k < n + 1 implies !named_in(#[trigger] ancestor_of(p, k), names) by {
            assert(ancestor_of(p, k) == ancestor_of(cur.path, (k - 1) as nat));
        }
    }
}

/// An ignored directory is never walked into: without the upward walk,
/// where each listing supplied lists children of the directory it was asked
/// for, every directory queued, pending or handed out lies below the start
/// with no ignored name on the way down to it (only the last name of a
/// directory handed out may be an ignored one).
pub proof fn law_ignored_never_walked_into(
    w: WalkerView,
    start: Seq<char>,
    names: Seq<Seq<char>>,
    listing: Seq<Seq<char>>,
)
    requires
        w.wf(),
        !w.walk_upward,
        w.ignores == Some(names),
        all_clear(w, start, names),
        w.pending matches Some((cur, _)) ==> lists_children_of(listing, cur.path),
    ensures
        w.pending is None ==> stays_clear(advance_model(w), start, names),
        w.pending is Some ==> stays_clear(supply_model(w, listing), start, names),
{
    assert(only_downward(w.queue)) by {
        assert forall|j: int| 0 <= j < w.queue.len() implies (#[trigger] w.queue[j]).relation
            == PathRelationship::Identical || w.queue[j].relation == PathRelationship::Descendant by {
            assert(relation_allowed(w, w.queue[j].relation));
        }
    }
    if w.pending is None {
        lemma_advance_clear(w, start, names);
    } else {
        let (cur, stage) = w.pending->0;
        assert(stage == Stage::Children);
        assert(!is_ignored(w, cur));
        let added = listed_entries(listing, cur, child_relation(cur.relation));
        let w1 = WalkerView { queue: w.queue + added, pending: None, ..w };
        let q = w1.queue;
        let m = w.queue.len();
        assert forall|j: int| 0 <= j < q.len() implies entry_clear(#[trigger] q[j], start, names)
            && (q[j].relation == PathRelationship::Identical || q[j].relation == PathRelationship::Descendant) by {
            if j < m {
                assert(q[j] == w.queue[j]);
            } else {
                assert(q[j] == added[j - m]);
                assert(path_parent_of(listing[j - m]) == Some(cur.path));
                lemma_child_clear(listing[j - m], cur, start, names);
            }
        }
        assert(supply_model(w, listing) == finish_model(w1, cur));
        lemma_finish_clear(w1, cur, start, names);
    }
}

/// `b` to the power `e`.
pub open spec fn power(b: nat, e: nat) -> nat
    decreases e,
{
    if e == 0 {
        1
    } else {
        b * power(b, (e - 1) as nat)
    }
}

/// The base of the measure of a walk whose listings hold at most `bound`
/// paths.
pub open spec fn walk_base(bound: nat) -> nat {
    2 * bound + 4
}

/// The weight of a queued directory at distance `d`, for the limit `max_dist`.
pub open spec fn entry_weight(max_dist: usize, d: nat, bound: nat) -> nat {
    power(walk_base(bound), (max_dist + 1 - d) as nat)
}

/// The total weight of the queued directories.
pub open spec fn queue_weight(q: Seq<EntryView>, max_dist: usize, bound: nat) -> nat
    decreases q.len(),
{
    if q.len() == 0 {
        0
    } else {
        queue_weight(q.drop_last(), max_dist, bound) + entry_weight(max_dist, q.last().distance, bound)
    }
}

/// The weight of the directory whose listing is awaited: enough to pay for
/// what its listing, and the ancestor that may follow it, can queue.
pub open spec fn pending_weight(w: WalkerView, bound: nat) -> nat {
    match w.pending {
        None => 0,
        Some((cur, stage)) => {
            let next = power(walk_base(bound), (w.max_dist - cur.distance) as nat);
            match stage {
                Stage::ChildrenThenAncestor => (2 * bound + 3) * next,
                _ => (bound + 1) * next,
            }
        },
    }
}

/// What is left of a walk whose listings hold at most `bound` paths.
pub open spec fn walk_measure(w: WalkerView, bound: nat) -> nat {
    queue_weight(w.queue, w.max_dist, bound) + pending_weight(w, bound)
}

proof fn lemma_power_pos(b: nat, e: nat)
    requires
        b >= 1,
    ensures
        power(b, e) >= 1,
    decreases e,
{
    if e > 0 {
        lemma_power_pos(b, (e - 1) as nat);
        vstd::arithmetic::mul::lemma_mul_inequality(1, b as int, power(b, (e - 1) as nat) as int);
    }
}

proof fn lemma_queue_weight_append(a: Seq<EntryView>, b: Seq<EntryView>, m: usize, bound: nat)
    ensures
        queue_weight(a + b, m, bound) == queue_weight(a, m, bound) + queue_weight(b, m, bound),
    decreases b.len(),
{
    if b.len() == 0 {
        assert(a + b =~= a);
    } else {
        lemma_queue_weight_append(a, b.drop_last(), m, bound);
        assert((a + b).drop_last() =~= a + b.drop_last());
    }
}

proof fn lemma_queue_weight_first(q: Seq<EntryView>, m: usize, bound: nat)
    requires
        q.len() > 0,
    ensures
        queue_weight(q, m, bound) == entry_weight(m, q[0].distance, bound) + queue_weight(q.drop_first(), m, bound),
{
    let one = seq![q[0]];
    lemma_queue_weight_append(one, q.drop_first(), m, bound);
    assert(one + q.drop_first() =~= q);
    assert(one.drop_last() =~= Seq::<EntryView>::empty());
    assert(queue_weight(Seq::<EntryView>::empty(), m, bound) == 0);
    assert(queue_weight(one, m, bound) == entry_weight(m, q[0].distance, bound));
}

proof fn lemma_queue_weight_listed(paths: Seq<Seq<char>>, from: EntryView, rel: PathRelationship, m: usize, bound: nat)
    ensures
        queue_weight(listed_entries(paths, from, rel), m, bound) == paths.len() * entry_weight(m, from.distance + 1, bound),
    decreases paths.len(),
{
    let l = listed_entries(paths, from, rel);
    if paths.len() > 0 {
        lemma_queue_weight_listed(paths.drop_last(), from, rel, m, bound);
        assert(l.drop_last() =~= listed_entries(paths.drop_last(), from, rel));
        let x = entry_weight(m, from.distance + 1, bound);
        assert((paths.len() - 1) * x + x == paths.len() * x) by (nonlinear_arith);
    } else {
        assert(l.len() == 0);
    }
}

/// The weight of a directory at `d` is the base times that of one at `d + 1`.
proof fn lemma_weight_step(m: usize, d: nat, bound: nat)
    requires
        d < m,
    ensures
        entry_weight(m, d, bound) == walk_base(bound) * power(walk_base(bound), (m - d) as nat),
        entry_weight(m, d + 1, bound) == power(walk_base(bound), (m - d) as nat),
        power(walk_base(bound), (m - d) as nat) >= 1,
{
    lemma_power_pos(walk_base(bound), (m - d) as nat);
}

proof fn lemma_finish_measure(w: WalkerView, cur: EntryView, bound: nat)
    requires
        w.wf(),
        w.pending is None,
    ensures
        walk_measure(finish_model(w, cur).0, bound) <= walk_measure(w, bound),
    decreases w.queue.len(), 1nat,
{
    if cur.relation == PathRelationship::Identical && !w.include_start_dir {
        lemma_advance_measure(w, bound);
    }
}

proof fn lemma_ascend_measure(w: WalkerView, cur: EntryView, bound: nat)
    requires
        w.wf(),
        w.pending is None,
        cur.distance < w.max_dist,
    ensures
        walk_measure(ascend_model(w, cur).0, bound) <= walk_measure(w, bound)
            + (bound + 2) * power(walk_base(bound), (w.max_dist - cur.distance) as nat),
    decreases w.queue.len(), 2nat,
{
    let next = power(walk_base(bound), (w.max_dist - cur.distance) as nat);
    match path_parent_of(cur.path) {
        Some(parent) => {
            let ne = EntryView { path: parent, distance: cur.distance + 1, relation: PathRelationship::Ancestor };
            let r = ascend_model(w, cur).0;
            assert(r.queue == w.queue.push(ne));
            assert(r.queue.drop_last() =~= w.queue);
            lemma_weight_step(w.max_dist, cur.distance, bound);
            assert(walk_measure(r, bound) == walk_measure(w, bound) + next + (bound + 1) * next);
            assert(next + (bound + 1) * next == (bound + 2) * next) by (nonlinear_arith);
        },
        None => {
            lemma_finish_measure(w, cur, bound);
            assert((bound + 2) * next >= 0) by (nonlinear_arith);
        },
    }
}

proof fn lemma_advance_measure(w: WalkerView, bound: nat)
    requires
        w.wf(),
        w.pending is None,
    ensures
        walk_measure(advance_model(w).0, bound) <= walk_measure(w, bound),
        !(advance_model(w).1 is Finished) ==> walk_measure(advance_model(w).0, bound) < walk_measure(w, bound),
    decreases w.queue.len(), 0nat,
{
    if w.queue.len() > 0 {
        let q = w.queue;
        let cur = q[0];
        let rest = WalkerView { queue: q.drop_first(), ..w };
        let m = w.max_dist;
        let b = walk_base(bound);
        lemma_rest_wf(w);
        lemma_queue_weight_first(q, m, bound);
        lemma_power_pos(b, (m + 1 - cur.distance) as nat);
        assert(walk_measure(rest, bound) + entry_weight(m, cur.distance, bound) == walk_measure(w, bound));
        if cur.distance == w.max_dist || is_ignored(w, cur) {
            lemma_finish_measure(rest, cur, bound);
        } else {
            let next = power(b, (m - cur.distance) as nat);
            lemma_weight_step(m, cur.distance, bound);
            assert((2 * bound + 3) * next < b * next) by (nonlinear_arith)
                requires next >= 1, b == 2 * bound + 4;
            assert((bound + 2) * next < b * next) by (nonlinear_arith)
                requires next >= 1, b == 2 * bound + 4;
            assert((bound + 1) * next < b * next) by (nonlinear_arith)
                requires next >= 1, b == 2 * bound + 4;
            if cur.relation == PathRelationship::Ancestor {
                lemma_ascend_measure(rest, cur, bound);
            }
        }
    }
}

/// A walk ends: where no listing supplied holds more than `bound` paths,
/// every step but the one that reports the end of the walk lowers
/// [`walk_measure`], a natural number, and the end of the walk is final.
pub proof fn law_walk_ends(w: WalkerView, listing: Seq<Seq<char>>, bound: nat)
    requires
        w.wf(),
        listing.len() <= bound,
    ensures
        w.pending is None && !(advance_model(w).1 is Finished) ==> walk_measure(advance_model(w).0, bound) < walk_measure(w, bound),
        w.pending is None && advance_model(w).1 is Finished ==> advance_model(w).0.queue.len() == 0
            && advance_model(w).0.pending is None,
        w.pending is Some ==> walk_measure(supply_model(w, listing).0, bound) < walk_measure(w, bound),
        w.queue.len() == 0 && w.pending is None ==> advance_model(w) == (w, StepView::Finished),
{
    if w.pending is None {
        lemma_advance_measure(w, bound);
        lemma_advance(w);
    } else {
        lemma_supply(w, listing);
        let (cur, stage) = w.pending->0;
        let m = w.max_dist;
        let b = walk_base(bound);
        let next = power(b, (m - cur.distance) as nat);
        lemma_weight_step(m, cur.distance, bound);
        let paths = match stage {
            Stage::Ancestor => unseen(listing, w.seen),
            _ => listing,
        };
        let rel = match stage {
            Stage::Ancestor => PathRelationship::Disjoint,
            _ => child_relation(cur.relation),
        };
        let added = listed_entries(paths, cur, rel);
        let w1 = supply_queued(w, listing);
        assert(w1.queue == w.queue + added);
        listing.lemma_filter_len(|p: Seq<char>| !seen_has(w.seen, p));
        lemma_queue_weight_listed(paths, cur, rel, m, bound);
        lemma_queue_weight_append(w.queue, added, m, bound);
        assert(paths.len() * next <= bound * next) by (nonlinear_arith)
            requires paths.len() <= bound;
        assert(walk_measure(w1, bound) <= queue_weight(w.queue, m, bound) + bound * next);
        lemma_supply_wf(w, listing);
        match stage {
            Stage::ChildrenThenAncestor => {
                lemma_ascend_measure(w1, cur, bound);
                assert(bound * next + (bound + 2) * next < (2 * bound + 3) * next) by (nonlinear_arith)
                    requires next >= 1;
            },
            _ => {
                lemma_finish_measure(w1, cur, bound);
                assert(bound * next < (bound + 1) * next) by (nonlinear_arith)
                    requires next >= 1;
            },
        }
    }
}

/// A known ancestor is never queued again from its parent's listing: of
/// the listed paths, exactly those that are not the same path as a known
/// ancestor are taken.
pub proof fn law_ancestors_not_queued_twice(listing: Seq<Seq<char>>, seen: Seq<Seq<char>>)
    ensures
        forall|k: int| 0 <= k < unseen(listing, seen).len() ==> !seen_has(seen, #[trigger] unseen(listing, seen)[k]),
        forall|k: int| 0 <= k < listing.len() && !seen_has(seen, #[trigger] listing[k]) ==> unseen(listing, seen).contains(listing[k]),
{
    let u = unseen(listing, seen);
    assert forall|k: int| 0 <= k < u.len() implies !seen_has(seen, #[trigger] u[k]) by {
        listing.lemma_filter_pred(|p: Seq<char>| !seen_has(seen, p), k);
    }
    assert forall|k: int| 0 <= k < listing.len() && !seen_has(seen, #[trigger] listing[k]) implies u.contains(listing[k]) by {
        listing.lemma_filter_contains(|p: Seq<char>| !seen_has(seen, p), k);
    }
}

/// Whether one of the known ancestors `seen` is the same path as `p`.
fn seen_contains(seen: &Vec<String>, p: &str) -> (res: bool)
    ensures
        res == seen_has(strings_view(seen@), p@),
{
    let ghost sv = strings_view(seen@);
    let mut i: usize = 0;
    while i < seen.len()
        invariant
            i <= seen@.len(),
            sv == strings_view(seen@),
            forall|j: int| 0 <= j < i ==> !path_same_of(#[trigger] sv[j], p@),
        decreases seen@.len() - i,
    {
        if path_same(seen[i].as_str(), p) {
            assert(sv[i as int] == seen@[i as int]@);
            return true;
        }
        assert(sv[i as int] == seen@[i as int]@);
        i = i + 1;
    }
    false
}

} // verus!
