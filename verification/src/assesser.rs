use vstd::prelude::*;

use crate::diff_util::LeftRightBoth;
use crate::dir_diff::{
    all_children_cached, computed_entries, entries_assessable, grade_diff, lemma_entry_assessable, status_stuck,
    walk_entries, Stuck, children_meaningful, clone_location, lemma_grows_trans, reported_below, reported_in_dir, spec_child, stuck_location, stuck_ok, DiffStatus,
    Differ, DiffView, DirectoryDiff, same_link, PathDiff, PathDiffView, StateView, SymlinkDiff, SymlinkState,
    SymlinkView, TypedPathDiff, TypedPathState,
};
use crate::typed_actions::{Action, Typed};

verus! {

/// Whether a change matters to the user.
#[derive(Clone, Copy, Debug, PartialEq, Eq)]
pub enum AssessmentGrade {
    Meaningful,
    Meaningless,
}

/// The state of an entry that exists on one side only.
pub type PathElementState = TypedPathState;

/// The difference between two entries of the same kind.
pub type PathElementDiff = TypedPathDiff;

/// An action on an entry, as the assesser reports it.
pub type AssessedAction = Action<PathElementState, PathElementDiff>;

/// An action on an entry together with its grade.
#[derive(Clone, Debug, PartialEq, Eq)]
pub struct Assessment {
    pub action: AssessedAction,
    pub grade: AssessmentGrade,
}

/// An assessment taken by its view.
pub struct AssessmentView {
    pub action: Action<StateView, DiffView>,
    pub grade: AssessmentGrade,
}

impl DeepView for Assessment {
    type V = AssessmentView;

    open spec fn deep_view(&self) -> AssessmentView {
        AssessmentView { action: self.action.deep_view(), grade: self.grade }
    }
}

/// The grade that says whether something meaningful happened.
pub open spec fn grade_of(meaningful: bool) -> AssessmentGrade {
    if meaningful {
        AssessmentGrade::Meaningful
    } else {
        AssessmentGrade::Meaningless
    }
}

/// Some assessment in `s` is meaningful.
pub open spec fn has_meaningful(s: Seq<AssessmentView>) -> bool {
    exists|i: int| 0 <= i < s.len() && #[trigger] s[i].grade == AssessmentGrade::Meaningful
}

/// The assessment of a link seen as `d.0` before and `d.1` after: the same link (see
/// `same_link`) does not matter; nor does a store link that only changed its hash (the
/// path within the derivation stayed); any other change matters.
pub open spec fn spec_assess_symlink(d: (SymlinkView, SymlinkView)) -> AssessmentView {
    if same_link(d.0, d.1) {
        AssessmentView {
            action: Action::Identical(Typed::Symlink(d.0)),
            grade: AssessmentGrade::Meaningless,
        }
    } else {
        match (d.0, d.1) {
            (
                SymlinkView::NixStoreLink { path_within_derivation: b, .. },
                SymlinkView::NixStoreLink { path_within_derivation: a, .. },
            ) => AssessmentView {
                action: Action::Modified(Typed::Symlink(d)),
                grade: if b == a {
                    AssessmentGrade::Meaningless
                } else {
                    AssessmentGrade::Meaningful
                },
            },
            _ => AssessmentView {
                action: Action::Modified(Typed::Symlink(d)),
                grade: AssessmentGrade::Meaningful,
            },
        }
    }
}

/// The kinds of modification that have no assessment yet.
pub open spec fn spec_unimplemented(diff: PathDiffView) -> bool {
    match diff {
        PathDiffView::Modified(Typed::File(_)) => true,
        PathDiffView::Modified(Typed::FilesystemBoundary(_)) => true,
        PathDiffView::Modified(Typed::Unknown(_)) => true,
        _ => false,
    }
}

/// The assessments of a difference; for a modified directory, `children_meaningful`
/// says whether some entry below it changed meaningfully.
///
/// An empty directory replaced by a mount point is no meaningful change; any other
/// creation, deletion or replacement is. A directory matters when an entry below it does.
pub open spec fn spec_assess(diff: PathDiffView, children_meaningful: bool) -> Seq<AssessmentView> {
    match diff {
        PathDiffView::Recreated { state } => match state {
            LeftRightBoth::Both(b, a) => {
                let mount = match (b, a) {
                    (Typed::Directory(e), Typed::FilesystemBoundary(_)) => e.len() == 0,
                    _ => false,
                };
                let grade = grade_of(!mount);
                seq![
                    AssessmentView { action: Action::Deleted(b), grade },
                    AssessmentView { action: Action::Created(a), grade },
                ]
            },
            LeftRightBoth::Left(b) => seq![
                AssessmentView { action: Action::Deleted(b), grade: AssessmentGrade::Meaningful },
            ],
            LeftRightBoth::Right(a) => seq![
                AssessmentView { action: Action::Created(a), grade: AssessmentGrade::Meaningful },
            ],
        },
        PathDiffView::Modified(d) => match d {
            Typed::Directory(e) => seq![
                AssessmentView {
                    action: Action::Modified(Typed::Directory(e)),
                    grade: grade_of(children_meaningful),
                },
            ],
            Typed::Symlink(s) => seq![spec_assess_symlink(s)],
            _ => Seq::empty(),
        },
    }
}

/// The two sides of a link are store links whose paths within the derivation are
/// equal (whatever their hashes).
pub open spec fn same_store_path(d: (SymlinkView, SymlinkView)) -> bool {
    &&& d.0 matches SymlinkView::NixStoreLink { path_within_derivation: b, .. }
    &&& d.1 matches SymlinkView::NixStoreLink { path_within_derivation: a, .. }
    &&& d.0->NixStoreLink_path_within_derivation == d.1->NixStoreLink_path_within_derivation
}

/// How a link on both sides is graded: it is reported identical (with its state
/// before) exactly when both sides are the same link, and modified (with both
/// states, before first) otherwise; the change does not matter exactly when the link
/// is the same, or both sides are store links with the same path within the
/// derivation. So two store links whose paths within the derivation differ always
/// matter, whatever their hashes.
pub proof fn lemma_link_grades(d: (SymlinkView, SymlinkView))
    ensures
        spec_assess_symlink(d).action is Identical <==> same_link(d.0, d.1),
        same_link(d.0, d.1) ==> spec_assess_symlink(d).action == Action::<StateView, DiffView>::Identical(
            Typed::Symlink(d.0),
        ),
        !same_link(d.0, d.1) ==> spec_assess_symlink(d).action == Action::<StateView, DiffView>::Modified(
            Typed::Symlink(d),
        ),
        spec_assess_symlink(d).grade == AssessmentGrade::Meaningless <==> (same_link(d.0, d.1)
            || same_store_path(d)),
        (d.0 is NixStoreLink && d.1 is NixStoreLink && d.0->NixStoreLink_path_within_derivation
            != d.1->NixStoreLink_path_within_derivation) ==> spec_assess_symlink(d).grade
            == AssessmentGrade::Meaningful,
{
}

/// How a created, deleted or replaced entry is graded: a deletion gives one
/// meaningful deletion of the old state, a creation one meaningful creation of the
/// new state, and a replacement a deletion of the old state followed by a creation
/// of the new one, both with one grade, which is meaningless exactly when an empty
/// directory was replaced by a mount point. So a replacement whose new side is not a
/// mount point always matters. A modified directory gives one modification, graded
/// by whether an entry below it matters; a link on both sides gives its link grade.
pub proof fn lemma_recreation_grades(pd: PathDiffView, m: bool)
    ensures
        pd matches PathDiffView::Recreated { state: LeftRightBoth::Left(b) } ==> spec_assess(pd, m) == seq![
            AssessmentView { action: Action::Deleted(b), grade: AssessmentGrade::Meaningful },
        ],
        pd matches PathDiffView::Recreated { state: LeftRightBoth::Right(a) } ==> spec_assess(pd, m) == seq![
            AssessmentView { action: Action::Created(a), grade: AssessmentGrade::Meaningful },
        ],
        pd matches PathDiffView::Recreated { state: LeftRightBoth::Both(b, a) } ==> {
            let s = spec_assess(pd, m);
            &&& s.len() == 2
            &&& s[0].action == Action::<StateView, DiffView>::Deleted(b)
            &&& s[1].action == Action::<StateView, DiffView>::Created(a)
            &&& s[0].grade == s[1].grade
            &&& (s[0].grade == AssessmentGrade::Meaningless <==> (b matches Typed::Directory(e) && e.len()
                == 0 && a is FilesystemBoundary))
            &&& (!(a is FilesystemBoundary) ==> s[0].grade == AssessmentGrade::Meaningful)
        },
        pd matches PathDiffView::Modified(Typed::Directory(e)) ==> spec_assess(pd, m) == seq![
            AssessmentView {
                action: Action::Modified(Typed::Directory(e)),
                grade: if m {
                    AssessmentGrade::Meaningful
                } else {
                    AssessmentGrade::Meaningless
                },
            },
        ],
        pd matches PathDiffView::Modified(Typed::Symlink(s)) ==> spec_assess(pd, m) == seq![
            spec_assess_symlink(s),
        ],
{
}

/// Whether `d` is a kind of modification that has no assessment yet.
pub fn is_unassessable(d: &PathDiff) -> (r: bool)
    ensures
        r == spec_unimplemented(d.deep_view()),
{
    match d {
        PathDiff::Modified(Typed::File(_)) => true,
        PathDiff::Modified(Typed::FilesystemBoundary(_)) => true,
        PathDiff::Modified(Typed::Unknown(_)) => true,
        _ => false,
    }
}

/// Whether some assessment in `v` is meaningful.
pub fn any_meaningful(v: &Vec<Assessment>) -> (r: bool)
    ensures
        r == has_meaningful(v.deep_view()),
{
    let mut i: usize = 0;
    while i < v.len()
        invariant
            i <= v.len(),
            forall|j: int| 0 <= j < i ==> v.deep_view()[j].grade != AssessmentGrade::Meaningful,
        decreases v.len() - i,
    {
        match v[i].grade {
            AssessmentGrade::Meaningful => {
                assert(v.deep_view()[i as int].grade == AssessmentGrade::Meaningful);
                return true;
            },
            AssessmentGrade::Meaningless => {},
        }
        i = i + 1;
    }
    false
}

/// Grades differences; owns the cache of differences while it works.
pub struct Assesser {
    pub diff_cache: Differ,
}

impl Assesser {
    /// Grades the difference `diff` found at `location`. A modified directory is
    /// graded by the entries below it, which are looked up (and computed) in the cache.
    pub fn assess(&mut self, location: &Vec<String>, diff: PathDiff) -> (r: Result<
        Vec<Assessment>,
        DiffStatus,
    >)
        requires
            old(self).diff_cache.wf(),
            !spec_unimplemented(diff.deep_view()),
        ensures
            final(self).diff_cache.wf(),
            final(self).diff_cache.grows_from(old(self).diff_cache),
            !(diff.deep_view() matches PathDiffView::Modified(Typed::Directory(_)))
                ==> final(self).diff_cache == old(self).diff_cache,
            diff.deep_view() matches PathDiffView::Modified(Typed::Directory(e))
                ==> final(self).diff_cache.cache_map().dom() == old(self).diff_cache.cache_map().dom().union(
                computed_entries(
                    old(self).diff_cache.obs_map(),
                    old(self).diff_cache.roots(),
                    old(self).diff_cache.depth_bound(),
                    location.deep_view(),
                    e,
                    0,
                ),
            ),
            match grade_diff(
                old(self).diff_cache.obs_map(),
                old(self).diff_cache.roots(),
                old(self).diff_cache.depth_bound(),
                location.deep_view(),
                diff.deep_view(),
            ) {
                Ok(v) => r matches Ok(x) && x.deep_view() == v,
                Err(s) => r matches Err(st) && status_stuck(st) == Some(s),
            },
            match r {
                Ok(v) => match diff.deep_view() {
                    PathDiffView::Modified(Typed::Directory(e)) => {
                        let m = children_meaningful(final(self).diff_cache, location.deep_view(), e);
                        &&& v.deep_view() == spec_assess(diff.deep_view(), m)
                        &&& (m || all_children_cached(final(self).diff_cache, location.deep_view(), e))
                    },
                    _ => v.deep_view() == spec_assess(diff.deep_view(), false),
                },
                Err(s) => {
                    &&& diff.deep_view() matches PathDiffView::Modified(Typed::Directory(e))
                    &&& !entries_assessable(
                        old(self).diff_cache.obs_map(),
                        old(self).diff_cache.roots(),
                        old(self).diff_cache.depth_bound(),
                        location.deep_view(),
                        e,
                    )
                    &&& stuck_ok(final(self).diff_cache, s)
                    &&& reported_in_dir(final(self).diff_cache, stuck_location(s), location.deep_view(), e)
                },
            },
        decreases old(self).diff_cache.depth_bound() - location.len(), 1int,
    {
        match diff {
            PathDiff::Recreated { state } => match state {
                LeftRightBoth::Both(diff_before, diff_after) => {
                    let mount = match (&diff_before, &diff_after) {
                        (Typed::Directory(before_dir), Typed::FilesystemBoundary(_)) => before_dir.entries.len() == 0,
                        _ => false,
                    };
                    if mount {
                        // An empty directory was replaced by a mount point
                        Ok(
                            vec![
                                Assessment {
                                    action: AssessedAction::Deleted(diff_before),
                                    grade: AssessmentGrade::Meaningless,
                                },
                                Assessment {
                                    action: AssessedAction::Created(diff_after),
                                    grade: AssessmentGrade::Meaningless,
                                },
                            ],
                        )
                    } else {
                        // Something was recreated
                        Ok(
                            vec![
                                Assessment {
                                    action: AssessedAction::Deleted(diff_before),
                                    grade: AssessmentGrade::Meaningful,
                                },
                                Assessment {
                                    action: AssessedAction::Created(diff_after),
                                    grade: AssessmentGrade::Meaningful,
                                },
                            ],
                        )
                    }
                },
                LeftRightBoth::Left(diff_before) => {
                    // Something was deleted
                    Ok(
                        vec![
                            Assessment {
                                action: AssessedAction::Deleted(diff_before),
                                grade: AssessmentGrade::Meaningful,
                            },
                        ],
                    )
                },
                LeftRightBoth::Right(diff_after) => {
                    // Something was created
                    Ok(
                        vec![
                            Assessment {
                                action: AssessedAction::Created(diff_after),
                                grade: AssessmentGrade::Meaningful,
                            },
                        ],
                    )
                },
            },
            PathDiff::Modified(path_element_diff) => match path_element_diff {
                Typed::Directory(directory_diff) => {
                    let a = assess_directory(self, location, directory_diff)?;
                    Ok(vec![a])
                },
                Typed::Symlink(symlink_diff) => Ok(vec![assess_symlink(symlink_diff)]),
                Typed::File(()) => vstd::pervasive::unreached(),
                Typed::FilesystemBoundary(()) => vstd::pervasive::unreached(),
                Typed::Unknown(_) => vstd::pervasive::unreached(),
            },
        }
    }
}

/// Grades a modified directory: it matters when some entry below it matters. The
/// entries are looked at in order, and the search stops at the first one that matters.
pub fn assess_directory(silf: &mut Assesser, location: &Vec<String>, diff: DirectoryDiff) -> (r:
    Result<Assessment, DiffStatus>)
    requires
        old(silf).diff_cache.wf(),
    ensures
        final(silf).diff_cache.wf(),
        final(silf).diff_cache.grows_from(old(silf).diff_cache),
        final(silf).diff_cache.cache_map().dom() == old(silf).diff_cache.cache_map().dom().union(
            computed_entries(
                old(silf).diff_cache.obs_map(),
                old(silf).diff_cache.roots(),
                old(silf).diff_cache.depth_bound(),
                location.deep_view(),
                diff.deep_view(),
                0,
            ),
        ),
        match walk_entries(
            old(silf).diff_cache.obs_map(),
            old(silf).diff_cache.roots(),
            old(silf).diff_cache.depth_bound(),
            location.deep_view(),
            diff.deep_view(),
            0,
        ) {
            Ok(m) => r matches Ok(a) && a.deep_view() == AssessmentView {
                action: Action::Modified(Typed::Directory(diff.deep_view())),
                grade: grade_of(m),
            },
            Err(s) => r matches Err(st) && status_stuck(st) == Some(s),
        },
        match r {
            Ok(a) => {
                let m = children_meaningful(final(silf).diff_cache, location.deep_view(), diff.deep_view());
                &&& a.deep_view() == AssessmentView {
                    action: Action::Modified(Typed::Directory(diff.deep_view())),
                    grade: grade_of(m),
                }
                &&& (m || all_children_cached(final(silf).diff_cache, location.deep_view(), diff.deep_view()))
            },
            Err(s) => !entries_assessable(
                old(silf).diff_cache.obs_map(),
                old(silf).diff_cache.roots(),
                old(silf).diff_cache.depth_bound(),
                location.deep_view(),
                diff.deep_view(),
            ) && stuck_ok(final(silf).diff_cache, s) && reported_in_dir(
                final(silf).diff_cache,
                stuck_location(s),
                location.deep_view(),
                diff.deep_view(),
            ),
        },
    decreases old(silf).diff_cache.depth_bound() - location.len(), 0int,
{
    let ghost dv = diff.deep_view();
    let ghost lv = location.deep_view();
    if location.len() >= silf.diff_cache.depth_limit() {
        // Nothing below `location` can have been observed yet.
        if diff.entries.len() == 0 {
            return Ok(
                Assessment {
                    action: AssessedAction::Modified(Typed::Directory(diff)),
                    grade: AssessmentGrade::Meaningless,
                },
            );
        }
        let mut child = clone_location(location);
        child.push(diff.entries[0].0.clone());
        proof {
            assert(child.deep_view() =~= spec_child(lv, dv[0].0));
            assert(child.deep_view().take(lv.len() as int) =~= lv);
            assert(child.deep_view().last() == dv[0].0);
        }
        let seen = silf.diff_cache.is_observed(&child);
        assert(!seen);
        return Err(DiffStatus::NeedsObservation(child));
    }
    let mut meaningful = false;
    let mut i: usize = 0;
    let n = diff.entries.len();
    while i < n && !meaningful
        invariant
            n == diff.entries.len(),
            dv == diff.deep_view(),
            lv == location.deep_view(),
            i <= n,
            silf.diff_cache.wf(),
            silf.diff_cache.grows_from(old(silf).diff_cache),
            location.len() <= silf.diff_cache.depth_bound(),
            meaningful ==> children_meaningful(silf.diff_cache, lv, dv),
            meaningful ==> walk_entries(
                old(silf).diff_cache.obs_map(),
                old(silf).diff_cache.roots(),
                old(silf).diff_cache.depth_bound(),
                lv,
                dv,
                0,
            ) == Ok::<bool, Stuck>(true),
            meaningful ==> silf.diff_cache.cache_map().dom() == old(silf).diff_cache.cache_map().dom().union(
                computed_entries(
                    old(silf).diff_cache.obs_map(),
                    old(silf).diff_cache.roots(),
                    old(silf).diff_cache.depth_bound(),
                    lv,
                    dv,
                    0,
                ),
            ),
            !meaningful ==> silf.diff_cache.cache_map().dom().union(
                computed_entries(
                    old(silf).diff_cache.obs_map(),
                    old(silf).diff_cache.roots(),
                    old(silf).diff_cache.depth_bound(),
                    lv,
                    dv,
                    i as int,
                ),
            ) == old(silf).diff_cache.cache_map().dom().union(
                computed_entries(
                    old(silf).diff_cache.obs_map(),
                    old(silf).diff_cache.roots(),
                    old(silf).diff_cache.depth_bound(),
                    lv,
                    dv,
                    0,
                ),
            ),
            !meaningful ==> walk_entries(
                old(silf).diff_cache.obs_map(),
                old(silf).diff_cache.roots(),
                old(silf).diff_cache.depth_bound(),
                lv,
                dv,
                0,
            ) == walk_entries(
                old(silf).diff_cache.obs_map(),
                old(silf).diff_cache.roots(),
                old(silf).diff_cache.depth_bound(),
                lv,
                dv,
                i as int,
            ),
            !meaningful ==> forall|j: int|
                0 <= j < i ==> #[trigger] silf.diff_cache.cache_map().contains_key(spec_child(lv, dv[j].0))
                    && !has_meaningful(silf.diff_cache.cache_map()[spec_child(lv, dv[j].0)]),
        decreases n - i, if meaningful { 0int } else { 1int },
    {
        let mut child = clone_location(location);
        child.push(diff.entries[i].0.clone());
        proof {
            assert(child.deep_view() =~= spec_child(lv, dv[i as int].0));
        }
        proof {
            assert(child.deep_view().take(lv.len() as int) =~= lv);
            assert(child.deep_view().last() == dv[i as int].0);
            if entries_assessable(
                old(silf).diff_cache.obs_map(),
                old(silf).diff_cache.roots(),
                old(silf).diff_cache.depth_bound(),
                lv,
                dv,
            ) {
                lemma_entry_assessable(
                    old(silf).diff_cache.obs_map(),
                    old(silf).diff_cache.roots(),
                    old(silf).diff_cache.depth_bound(),
                    lv,
                    dv,
                    0,
                    i as int,
                );
                assert(silf.diff_cache.fully_observed(child.deep_view()));
            }
        }
        if !silf.diff_cache.is_observed(&child) {
            return Err(DiffStatus::NeedsObservation(child));
        }
        let ghost before_call = silf.diff_cache;
        let status = silf.diff_cache.get_diff(&child);
        proof {
            lemma_grows_trans(old(silf).diff_cache, before_call, silf.diff_cache);
            assert forall|j: int| 0 <= j < i implies #[trigger] silf.diff_cache.cache_map().contains_key(
                spec_child(lv, dv[j].0),
            ) && !has_meaningful(silf.diff_cache.cache_map()[spec_child(lv, dv[j].0)]) by {
                if !meaningful {
                    assert(before_call.cache_map().dom().contains(spec_child(lv, dv[j].0)));
                    assert(silf.diff_cache.cache_map().dom().contains(spec_child(lv, dv[j].0)));
                }
            }
        }
        match status {
            DiffStatus::Ready => {
                let found = silf.diff_cache.cached(&child);
                match found {
                    Some(assessments) => {
                        if any_meaningful(assessments) {
                            meaningful = true;
                        }
                    },
                    None => vstd::pervasive::unreached(),
                }
            },
            DiffStatus::Nonexistent => {
                return Err(DiffStatus::ChildVanished(child));
            },
            other => {
                proof {
                    let l = stuck_location(other);
                    let c = child.deep_view();
                    assert(l.take(lv.len() as int) =~= l.take(c.len() as int).take(lv.len() as int));
                    assert(c.take(lv.len() as int) =~= lv);
                }
                return Err(other);
            },
        }
        if !meaningful {
            i = i + 1;
        }
    }
    let grade = if meaningful {
        AssessmentGrade::Meaningful
    } else {
        AssessmentGrade::Meaningless
    };
    Ok(Assessment { action: AssessedAction::Modified(Typed::Directory(diff)), grade })
}

/// Grades a link that exists on both sides.
pub fn assess_symlink(diff: SymlinkDiff) -> (r: Assessment)
    ensures
        r.deep_view() == spec_assess_symlink(diff.deep_view()),
        r.action is Identical <==> same_link(diff.before.deep_view(), diff.after.deep_view()),
        r.grade == AssessmentGrade::Meaningless <==> (same_link(
            diff.before.deep_view(),
            diff.after.deep_view(),
        ) || same_store_path(diff.deep_view())),
{
    if diff.before == diff.after {
        // Both links are literally identical
        Assessment {
            action: AssessedAction::Identical(Typed::Symlink(diff.before)),
            grade: AssessmentGrade::Meaningless,
        }
    } else {
        let same_derivation_path = match (&diff.before, &diff.after) {
            (
                SymlinkState::NixStoreLink { path_within_derivation: b_p, .. },
                SymlinkState::NixStoreLink { path_within_derivation: a_p, .. },
            ) => *b_p == *a_p,
            _ => false,
        };
        if same_derivation_path {
            // The path is identical and something else differs: the generation changed
            Assessment {
                action: AssessedAction::Modified(Typed::Symlink(diff)),
                grade: AssessmentGrade::Meaningless,
            }
        } else {
            Assessment {
                action: AssessedAction::Modified(Typed::Symlink(diff)),
                grade: AssessmentGrade::Meaningful,
            }
        }
    }
}

/// The directory listing an action carries, if it is about a directory.
pub open spec fn action_dir(a: Action<StateView, DiffView>) -> Option<
    Seq<(Seq<char>, LeftRightBoth<String>)>,
> {
    match a {
        Action::Created(Typed::Directory(e)) => Some(e),
        Action::Deleted(Typed::Directory(e)) => Some(e),
        Action::Modified(Typed::Directory(e)) => Some(e),
        Action::Identical(Typed::Directory(e)) => Some(e),
        _ => None,
    }
}

/// The listing of the first directory action among `s`.
pub open spec fn first_dir(s: Seq<AssessmentView>) -> Option<Seq<(Seq<char>, LeftRightBoth<String>)>>
    decreases s.len(),
{
    if s.len() == 0 {
        None
    } else {
        match action_dir(s[0].action) {
            Some(e) => Some(e),
            None => first_dir(s.drop_first()),
        }
    }
}

/// At most one of the actions in `s` is about a directory.
pub open spec fn at_most_one_dir(s: Seq<AssessmentView>) -> bool {
    forall|i: int, j: int|
        0 <= i < j < s.len() ==> !(#[trigger] action_dir(s[i].action) is Some && #[trigger] action_dir(
            s[j].action,
        ) is Some)
}

/// An assessed action turned inside out: first the kind of entry, then the action.
pub type AssessedActionInverted = Typed<
    Action<SymlinkState, SymlinkDiff>,
    Action<DirectoryDiff, DirectoryDiff>,
    Action<(), ()>,
    Action<(), ()>,
    String,
>;

/// `value` with the action moved inside the kind of entry; an unknown entry keeps
/// only its description.
pub open spec fn spec_invert(value: AssessedAction) -> AssessedActionInverted {
    match value {
        Action::Created(v) => match v {
            Typed::Symlink(it) => Typed::Symlink(Action::Created(it)),
            Typed::Directory(it) => Typed::Directory(Action::Created(it)),
            Typed::File(it) => Typed::File(Action::Created(it)),
            Typed::FilesystemBoundary(it) => Typed::FilesystemBoundary(Action::Created(it)),
            Typed::Unknown(it) => Typed::Unknown(it),
        },
        Action::Deleted(v) => match v {
            Typed::Symlink(it) => Typed::Symlink(Action::Deleted(it)),
            Typed::Directory(it) => Typed::Directory(Action::Deleted(it)),
            Typed::File(it) => Typed::File(Action::Deleted(it)),
            Typed::FilesystemBoundary(it) => Typed::FilesystemBoundary(Action::Deleted(it)),
            Typed::Unknown(it) => Typed::Unknown(it),
        },
        Action::Modified(v) => match v {
            Typed::Symlink(it) => Typed::Symlink(Action::Modified(it)),
            Typed::Directory(it) => Typed::Directory(Action::Modified(it)),
            Typed::File(it) => Typed::File(Action::Modified(it)),
            Typed::FilesystemBoundary(it) => Typed::FilesystemBoundary(Action::Modified(it)),
            Typed::Unknown(it) => Typed::Unknown(it),
        },
        Action::Identical(v) => match v {
            Typed::Symlink(it) => Typed::Symlink(Action::Identical(it)),
            Typed::Directory(it) => Typed::Directory(Action::Identical(it)),
            Typed::File(it) => Typed::File(Action::Identical(it)),
            Typed::FilesystemBoundary(it) => Typed::FilesystemBoundary(Action::Identical(it)),
            Typed::Unknown(it) => Typed::Unknown(it),
        },
    }
}

impl From<AssessedAction> for AssessedActionInverted {
    fn from(value: AssessedAction) -> (r: Self) {
        match value {
            Action::Created(v) => match v {
                Typed::Symlink(it) => Typed::Symlink(Action::Created(it)),
                Typed::Directory(it) => Typed::Directory(Action::Created(it)),
                Typed::File(it) => Typed::File(Action::Created(it)),
                Typed::FilesystemBoundary(it) => Typed::FilesystemBoundary(Action::Created(it)),
                Typed::Unknown(it) => Typed::Unknown(it),
            },
            Action::Deleted(v) => match v {
                Typed::Symlink(it) => Typed::Symlink(Action::Deleted(it)),
                Typed::Directory(it) => Typed::Directory(Action::Deleted(it)),
                Typed::File(it) => Typed::File(Action::Deleted(it)),
                Typed::FilesystemBoundary(it) => Typed::FilesystemBoundary(Action::Deleted(it)),
                Typed::Unknown(it) => Typed::Unknown(it),
            },
            Action::Modified(v) => match v {
                Typed::Symlink(it) => Typed::Symlink(Action::Modified(it)),
                Typed::Directory(it) => Typed::Directory(Action::Modified(it)),
                Typed::File(it) => Typed::File(Action::Modified(it)),
                Typed::FilesystemBoundary(it) => Typed::FilesystemBoundary(Action::Modified(it)),
                Typed::Unknown(it) => Typed::Unknown(it),
            },
            Action::Identical(v) => match v {
                Typed::Symlink(it) => Typed::Symlink(Action::Identical(it)),
                Typed::Directory(it) => Typed::Directory(Action::Identical(it)),
                Typed::File(it) => Typed::File(Action::Identical(it)),
                Typed::FilesystemBoundary(it) => Typed::FilesystemBoundary(Action::Identical(it)),
                Typed::Unknown(it) => Typed::Unknown(it),
            },
        }
    }
}

impl vstd::std_specs::convert::FromSpecImpl<AssessedAction> for AssessedActionInverted {
    open spec fn obeys_from_spec() -> bool {
        true
    }

    open spec fn from_spec(v: AssessedAction) -> Self {
        spec_invert(v)
    }
}

} // verus!
