use vstd::prelude::*;
use vstd::string::*;

use crate::assesser::{
    action_dir, at_most_one_dir, first_dir, spec_assess, AssessedAction, Assessment,
    AssessmentGrade, AssessmentView,
};
use crate::diff_util::{
    assoc_map, keys_distinct, lemma_assoc_map_contains, lemma_assoc_map_index, LeftRightBoth,
};
use crate::dir_diff::{
    children_meaningful, clone_location, lemma_cached_matches_observation, lemma_cached_one_directory,
    PathDiffView, reported_below, spec_link_target, status_stuck, Stuck, spec_child, stuck_location, stuck_ok,
    DiffStatus, DiffView, Differ,
    DirectoryDiff, StateView, SymlinkView, TypedPathDiff, TypedPathState,
};
use crate::typed_actions::{Action, Typed};
use crate::tui::nav_list::{NavListItem, NavListState};
use crate::typed_path::FileType;

pub mod nav_list;

verus! {

// ---------------------------------------------------------------------------
// How an entry is shown
// ---------------------------------------------------------------------------

/// The colour a line is drawn in.
#[derive(Clone, Copy, Debug, PartialEq, Eq)]
pub enum LineStyle {
    Created,
    Deleted,
    Modified,
    Unimportant,
    /// The terminal's own colour.
    Plain,
}

/// A line of text and its colour.
#[derive(Debug, PartialEq, Eq)]
pub struct DisplayLine {
    pub text: String,
    pub style: LineStyle,
}

/// The kind of entry a state is about.
pub open spec fn spec_state_file_type<A, B, C, D, E>(s: Typed<A, B, C, D, E>) -> FileType {
    match s {
        Typed::Symlink(_) => FileType::Symlink,
        Typed::Directory(_) => FileType::Directory,
        Typed::File(_) => FileType::File,
        Typed::FilesystemBoundary(_) => FileType::FilesystemBoundary,
        Typed::Unknown(_) => FileType::Unknown,
    }
}

impl TypedPathState {
    /// The kind of entry this state is about.
    pub fn file_type(&self) -> (r: FileType)
        ensures
            r == spec_state_file_type(self.deep_view()),
    {
        match self {
            Typed::Symlink(_) => FileType::Symlink,
            Typed::Directory(_) => FileType::Directory,
            Typed::File(_) => FileType::File,
            Typed::FilesystemBoundary(_) => FileType::FilesystemBoundary,
            Typed::Unknown(_) => FileType::Unknown,
        }
    }
}

impl TypedPathDiff {
    /// The kind of entry this difference is about.
    pub fn file_type(&self) -> (r: FileType)
        ensures
            r == spec_state_file_type(self.deep_view()),
    {
        match self {
            Typed::Symlink(_) => FileType::Symlink,
            Typed::Directory(_) => FileType::Directory,
            Typed::File(_) => FileType::File,
            Typed::FilesystemBoundary(_) => FileType::FilesystemBoundary,
            Typed::Unknown(_) => FileType::Unknown,
        }
    }
}

/// The kind of entry an action is about.
pub open spec fn spec_action_file_type(a: Action<StateView, DiffView>) -> FileType {
    match a {
        Action::Created(s) => spec_state_file_type(s),
        Action::Deleted(s) => spec_state_file_type(s),
        Action::Modified(d) => spec_state_file_type(d),
        Action::Identical(s) => spec_state_file_type(s),
    }
}

/// The colour of an assessment: meaningful creations are green, deletions red and
/// modifications yellow; everything else is grey.
pub open spec fn spec_style(a: AssessmentView) -> LineStyle {
    match a.grade {
        AssessmentGrade::Meaningful => match a.action {
            Action::Created(_) => LineStyle::Created,
            Action::Deleted(_) => LineStyle::Deleted,
            Action::Modified(_) => LineStyle::Modified,
            Action::Identical(_) => LineStyle::Unimportant,
        },
        AssessmentGrade::Meaningless => LineStyle::Unimportant,
    }
}

/// The text shown for entry `name` of kind `ft`: an icon, the name, and a slash
/// after directories and mount points.
pub open spec fn spec_display_text(ft: FileType, name: Seq<char>) -> Seq<char> {
    match ft {
        FileType::Directory => "\u{f07b} "@ + name + "/"@,
        FileType::File => "\u{f15b} "@ + name,
        FileType::Symlink => "\u{f0c1} "@ + name,
        FileType::Unknown => "? "@ + name,
        FileType::FilesystemBoundary => "\u{f08e} "@ + name + "/"@,
    }
}

/// How a line is coloured: an assessment that does not matter is always drawn
/// unimportant, whatever happened; one that matters is drawn in the colour of its
/// action (created, deleted, modified), and an identical entry is unimportant too.
pub proof fn lemma_line_colours(a: AssessmentView)
    ensures
        a.grade == AssessmentGrade::Meaningless ==> spec_style(a) == LineStyle::Unimportant,
        spec_style(a) == LineStyle::Created <==> (a.grade == AssessmentGrade::Meaningful
            && a.action is Created),
        spec_style(a) == LineStyle::Deleted <==> (a.grade == AssessmentGrade::Meaningful
            && a.action is Deleted),
        spec_style(a) == LineStyle::Modified <==> (a.grade == AssessmentGrade::Meaningful
            && a.action is Modified),
        spec_style(a) != LineStyle::Plain,
{
}

/// The text of an entry's line: an icon and a space, then the entry's name, then a
/// slash for a directory or a mount point and nothing for anything else.
pub proof fn lemma_line_text(ft: FileType, name: Seq<char>)
    ensures
        ({
            let t = spec_display_text(ft, name);
            let dirlike = ft == FileType::Directory || ft == FileType::FilesystemBoundary;
            &&& t.len() == 2 + name.len() + if dirlike { 1int } else { 0int }
            &&& t[1] == ' '
            &&& t.subrange(2, 2 + name.len() as int) == name
            &&& dirlike ==> t.last() == '/'
        }),
{
    reveal_strlit("\u{f07b} ");
    reveal_strlit("\u{f15b} ");
    reveal_strlit("\u{f0c1} ");
    reveal_strlit("? ");
    reveal_strlit("\u{f08e} ");
    reveal_strlit("/");
    let t = spec_display_text(ft, name);
    match ft {
        FileType::Directory => {
            assert(t.subrange(2, 2 + name.len() as int) =~= name);
        },
        FileType::File => {
            assert(t.subrange(2, 2 + name.len() as int) =~= name);
        },
        FileType::Symlink => {
            assert(t.subrange(2, 2 + name.len() as int) =~= name);
        },
        FileType::Unknown => {
            assert(t.subrange(2, 2 + name.len() as int) =~= name);
        },
        FileType::FilesystemBoundary => {
            assert(t.subrange(2, 2 + name.len() as int) =~= name);
        },
    }
}

/// The line that shows assessment `diff` of entry `path`.
pub fn display_diff(path: &String, diff: &Assessment) -> (r: DisplayLine)
    ensures
        r.text@ == spec_display_text(spec_action_file_type(diff.deep_view().action), path@),
        r.style == spec_style(diff.deep_view()),
        diff.grade == AssessmentGrade::Meaningless ==> r.style == LineStyle::Unimportant,
        r.style == LineStyle::Created <==> (diff.grade == AssessmentGrade::Meaningful
            && diff.action is Created),
{
    let file_type = match &diff.action {
        AssessedAction::Created(path_element_state) => path_element_state.file_type(),
        AssessedAction::Deleted(path_element_state) => path_element_state.file_type(),
        AssessedAction::Modified(path_element_diff) => path_element_diff.file_type(),
        AssessedAction::Identical(path_element_state) => path_element_state.file_type(),
    };
    let style = match diff.grade {
        AssessmentGrade::Meaningful => match &diff.action {
            AssessedAction::Created(_) => LineStyle::Created,
            AssessedAction::Deleted(_) => LineStyle::Deleted,
            AssessedAction::Modified(_) => LineStyle::Modified,
            AssessedAction::Identical(_) => LineStyle::Unimportant,
        },
        AssessmentGrade::Meaningless => LineStyle::Unimportant,
    };
    let text = match file_type {
        FileType::Directory => {
            let mut t = "\u{f07b} ".to_string();
            t.append(path.as_str());
            t.append("/");
            t
        },
        FileType::File => {
            let mut t = "\u{f15b} ".to_string();
            t.append(path.as_str());
            t
        },
        FileType::Symlink => {
            let mut t = "\u{f0c1} ".to_string();
            t.append(path.as_str());
            t
        },
        FileType::Unknown => {
            let mut t = "? ".to_string();
            t.append(path.as_str());
            t
        },
        FileType::FilesystemBoundary => {
            let mut t = "\u{f08e} ".to_string();
            t.append(path.as_str());
            t.append("/");
            t
        },
    };
    DisplayLine { text, style }
}

// ---------------------------------------------------------------------------
// How one assessment is drawn in full
// ---------------------------------------------------------------------------

/// The colour of a pane's border: what happened to the entry.
#[derive(Clone, Copy, Debug, PartialEq, Eq)]
pub enum PaneBorder {
    Created,
    Deleted,
    Modified,
    Identical,
}

/// What a pane holds inside its border.
#[derive(Debug, PartialEq, Eq)]
pub enum PaneBody {
    /// Some lines of text.
    Lines(Vec<DisplayLine>),
    /// The list of the entries of the directory at the pane's location.
    Directory,
}

/// How one assessment of a location is drawn: a box with a coloured border and a title.
#[derive(Debug, PartialEq, Eq)]
pub struct Pane {
    pub border: PaneBorder,
    pub title: String,
    pub body: PaneBody,
}

/// The text of a location: its names joined by slashes (empty at the top).
pub open spec fn spec_location_text(loc: Seq<Seq<char>>) -> Seq<char>
    decreases loc.len(),
{
    if loc.len() == 0 {
        Seq::empty()
    } else if loc.len() == 1 {
        loc[0]
    } else {
        spec_location_text(loc.drop_last()) + "/"@ + loc.last()
    }
}

/// The text of a location: its names joined by slashes (empty at the top).
pub fn location_text(loc: &Vec<String>) -> (r: String)
    ensures
        r@ == spec_location_text(loc.deep_view()),
{
    let mut t = String::new();
    let mut i: usize = 0;
    while i < loc.len()
        invariant
            i <= loc.len(),
            t@ == spec_location_text(loc.deep_view().take(i as int)),
        decreases loc.len() - i,
    {
        proof {
            let next = loc.deep_view().take(i + 1);
            assert(next.drop_last() =~= loc.deep_view().take(i as int));
            assert(next.last() == loc[i as int]@);
        }
        if i > 0 {
            t.append("/");
        } else {
            assert(t@ + loc[i as int]@ =~= loc[i as int]@);
        }
        t.append(loc[i].as_str());
        i = i + 1;
    }
    assert(loc.deep_view().take(loc.len() as int) =~= loc.deep_view());
    t
}


/// The border of the pane of an action.
pub open spec fn spec_pane_border(a: Action<StateView, DiffView>) -> PaneBorder {
    match a {
        Action::Created(_) => PaneBorder::Created,
        Action::Deleted(_) => PaneBorder::Deleted,
        Action::Modified(_) => PaneBorder::Modified,
        Action::Identical(_) => PaneBorder::Identical,
    }
}

/// The title of the pane of a state at `loc`: its kind, or for a directory its location.
pub open spec fn spec_state_title(loc: Seq<Seq<char>>, s: StateView) -> Seq<char> {
    match s {
        Typed::Symlink(_) => "Symlink"@,
        Typed::Directory(_) => spec_location_text(loc),
        Typed::File(_) => "File"@,
        Typed::FilesystemBoundary(_) => "FS Boundary"@,
        Typed::Unknown(_) => "Unknown"@,
    }
}

/// The title of the pane of an action at `loc`.
pub open spec fn spec_pane_title(loc: Seq<Seq<char>>, a: Action<StateView, DiffView>) -> Seq<char> {
    match a {
        Action::Created(s) => spec_state_title(loc, s),
        Action::Deleted(s) => spec_state_title(loc, s),
        Action::Identical(s) => spec_state_title(loc, s),
        Action::Modified(d) => match d {
            Typed::Symlink(_) => "Symlink changed"@,
            Typed::Directory(_) => spec_location_text(loc),
            Typed::File(_) => "File changed"@,
            Typed::FilesystemBoundary(_) => "FS Boundary changed"@,
            Typed::Unknown(_) => "Unknown"@,
        },
    }
}

/// The lines inside the pane of a state; `None` for a directory, which shows its entries.
pub open spec fn spec_state_lines(s: StateView) -> Option<Seq<(Seq<char>, LineStyle)>> {
    match s {
        Typed::Symlink(l) => Some(seq![(spec_link_target(l), LineStyle::Plain)]),
        Typed::Directory(_) => None,
        Typed::File(_) => Some(Seq::empty()),
        Typed::FilesystemBoundary(_) => Some(Seq::empty()),
        Typed::Unknown(t) => Some(seq![(t, LineStyle::Plain)]),
    }
}

/// The lines inside the pane of an action: a changed link shows the old target in
/// the colour of deletions and the new one in the colour of creations.
pub open spec fn spec_pane_lines(a: Action<StateView, DiffView>) -> Option<Seq<(Seq<char>, LineStyle)>> {
    match a {
        Action::Created(s) => spec_state_lines(s),
        Action::Deleted(s) => spec_state_lines(s),
        Action::Identical(s) => spec_state_lines(s),
        Action::Modified(d) => match d {
            Typed::Symlink((b, a)) => Some(
                seq![(spec_link_target(b), LineStyle::Deleted), (spec_link_target(a), LineStyle::Created)],
            ),
            Typed::Directory(_) => None,
            Typed::File(_) => Some(Seq::empty()),
            Typed::FilesystemBoundary(_) => Some(Seq::empty()),
            Typed::Unknown(t) => Some(seq![(t, LineStyle::Plain)]),
        },
    }
}

/// Lines taken by their texts and colours.
pub open spec fn lines_view(ls: Seq<DisplayLine>) -> Seq<(Seq<char>, LineStyle)> {
    ls.map_values(|l: DisplayLine| (l.text@, l.style))
}

/// A plain line.
fn plain_line(text: String) -> (r: DisplayLine)
    ensures
        r.text == text,
        r.style == LineStyle::Plain,
{
    DisplayLine { text, style: LineStyle::Plain }
}

/// The title, and the lines or directory list, of the pane of state `state` at `location`.
fn state_pane(location: &Vec<String>, state: &TypedPathState) -> (r: (String, PaneBody))
    ensures
        r.0@ == spec_state_title(location.deep_view(), state.deep_view()),
        match r.1 {
            PaneBody::Directory => spec_state_lines(state.deep_view()) is None,
            PaneBody::Lines(ls) => spec_state_lines(state.deep_view()) == Some(lines_view(ls@)),
        },
{
    match state {
        Typed::Symlink(link) => {
            let lines = vec![plain_line(link.target().clone())];
            assert(lines_view(lines@) =~= seq![(spec_link_target(link.deep_view()), LineStyle::Plain)]);
            ("Symlink".to_string(), PaneBody::Lines(lines))
        },
        Typed::Directory(_) => (location_text(location), PaneBody::Directory),
        Typed::File(_) => {
            let lines: Vec<DisplayLine> = Vec::new();
            assert(lines_view(lines@) =~= Seq::empty());
            ("File".to_string(), PaneBody::Lines(lines))
        },
        Typed::FilesystemBoundary(_) => {
            let lines: Vec<DisplayLine> = Vec::new();
            assert(lines_view(lines@) =~= Seq::empty());
            ("FS Boundary".to_string(), PaneBody::Lines(lines))
        },
        Typed::Unknown(text) => {
            let lines = vec![plain_line(text.clone())];
            assert(lines_view(lines@) =~= seq![(text@, LineStyle::Plain)]);
            ("Unknown".to_string(), PaneBody::Lines(lines))
        },
    }
}

/// The title, and the lines or directory list, of the pane of difference `diff` at `location`.
fn diff_pane(location: &Vec<String>, diff: &TypedPathDiff) -> (r: (String, PaneBody))
    ensures
        r.0@ == spec_pane_title(location.deep_view(), Action::Modified(diff.deep_view())),
        match r.1 {
            PaneBody::Directory => spec_pane_lines(Action::Modified(diff.deep_view())) is None,
            PaneBody::Lines(ls) => spec_pane_lines(Action::Modified(diff.deep_view())) == Some(
                lines_view(ls@),
            ),
        },
{
    match diff {
        Typed::Symlink(d) => {
            let lines = vec![
                DisplayLine { text: d.before.target().clone(), style: LineStyle::Deleted },
                DisplayLine { text: d.after.target().clone(), style: LineStyle::Created },
            ];
            assert(lines_view(lines@) =~= seq![
                (spec_link_target(d.before.deep_view()), LineStyle::Deleted),
                (spec_link_target(d.after.deep_view()), LineStyle::Created),
            ]);
            ("Symlink changed".to_string(), PaneBody::Lines(lines))
        },
        Typed::Directory(_) => (location_text(location), PaneBody::Directory),
        Typed::File(_) => {
            let lines: Vec<DisplayLine> = Vec::new();
            assert(lines_view(lines@) =~= Seq::empty());
            ("File changed".to_string(), PaneBody::Lines(lines))
        },
        Typed::FilesystemBoundary(_) => {
            let lines: Vec<DisplayLine> = Vec::new();
            assert(lines_view(lines@) =~= Seq::empty());
            ("FS Boundary changed".to_string(), PaneBody::Lines(lines))
        },
        Typed::Unknown(text) => {
            let lines = vec![plain_line(text.clone())];
            assert(lines_view(lines@) =~= seq![(text@, LineStyle::Plain)]);
            ("Unknown".to_string(), PaneBody::Lines(lines))
        },
    }
}

/// How an assessment is drawn as a pane: the border tells the action; every action
/// on a directory (created, deleted, identical or modified) lists the directory's
/// entries under its location as title, and no other action lists entries; a link
/// shows its target, and a changed link its old target in the colour of deletions
/// followed by its new target in the colour of creations.
pub proof fn lemma_panes(loc: Seq<Seq<char>>, a: Action<StateView, DiffView>)
    ensures
        spec_pane_lines(a) is None <==> spec_action_file_type(a) == FileType::Directory,
        spec_action_file_type(a) == FileType::Directory ==> spec_pane_title(loc, a) == spec_location_text(
            loc,
        ),
        spec_pane_border(a) == PaneBorder::Created <==> a is Created,
        spec_pane_border(a) == PaneBorder::Deleted <==> a is Deleted,
        spec_pane_border(a) == PaneBorder::Modified <==> a is Modified,
        spec_pane_border(a) == PaneBorder::Identical <==> a is Identical,
        a matches Action::Modified(Typed::Symlink(d)) ==> spec_pane_lines(a) == Some(
            seq![(spec_link_target(d.0), LineStyle::Deleted), (spec_link_target(d.1), LineStyle::Created)],
        ),
        (a matches Action::Created(Typed::Symlink(_)) || a matches Action::Deleted(Typed::Symlink(_))
            || a matches Action::Identical(Typed::Symlink(_))) ==> (spec_pane_lines(a) matches Some(ls)
            && ls.len() == 1),
{
}

/// How assessment `element` of the entry at `location` is drawn: the border tells
/// what happened (created, deleted, modified, identical); the title names the kind
/// of entry, or the location for a directory, whose pane lists its entries; a link
/// shows its target, a changed link its old and new targets.
pub fn element_pane(location: &Vec<String>, element: &Assessment) -> (r: Pane)
    ensures
        r.border == spec_pane_border(element.deep_view().action),
        r.body is Directory <==> spec_action_file_type(element.deep_view().action) == FileType::Directory,
        r.title@ == spec_pane_title(location.deep_view(), element.deep_view().action),
        match r.body {
            PaneBody::Directory => spec_pane_lines(element.deep_view().action) is None,
            PaneBody::Lines(ls) => spec_pane_lines(element.deep_view().action) == Some(lines_view(ls@)),
        },
{
    let (border, (title, body)) = match &element.action {
        Action::Created(s) => (PaneBorder::Created, state_pane(location, s)),
        Action::Deleted(s) => (PaneBorder::Deleted, state_pane(location, s)),
        Action::Identical(s) => (PaneBorder::Identical, state_pane(location, s)),
        Action::Modified(d) => (PaneBorder::Modified, diff_pane(location, d)),
    };
    Pane { border, title, body }
}

// ---------------------------------------------------------------------------
// The directory listing behind a location
// ---------------------------------------------------------------------------

/// The directory listing an action carries, if it is about a directory.
pub fn action_directory_diff(action: &AssessedAction) -> (r: Option<&DirectoryDiff>)
    ensures
        match r {
            Some(d) => action_dir(action.deep_view()) == Some(d.deep_view()),
            None => action_dir(action.deep_view()) is None,
        },
{
    match action {
        AssessedAction::Created(path_element_state) => match path_element_state {
            Typed::Directory(directory_diff) => Some(directory_diff),
            _ => None,
        },
        AssessedAction::Deleted(path_element_state) => match path_element_state {
            Typed::Directory(directory_diff) => Some(directory_diff),
            _ => None,
        },
        AssessedAction::Modified(path_element_diff) => match path_element_diff {
            Typed::Directory(directory_diff) => Some(directory_diff),
            _ => None,
        },
        AssessedAction::Identical(path_element_state) => match path_element_state {
            Typed::Directory(directory_diff) => Some(directory_diff),
            _ => None,
        },
    }
}

proof fn lemma_first_dir_at(s: Seq<AssessmentView>, i: int)
    requires
        0 <= i <= s.len(),
        forall|j: int| 0 <= j < i ==> action_dir(#[trigger] s[j].action) is None,
    ensures
        first_dir(s) == first_dir(s.skip(i)),
    decreases i,
{
    if i > 0 {
        lemma_first_dir_at(s.drop_first(), i - 1);
        assert(s.drop_first().skip(i - 1) =~= s.skip(i));
        assert(action_dir(s[0].action) is None);
    } else {
        assert(s.skip(0) =~= s);
    }
}

/// The directory listing among the assessments of one location; there is at most one.
pub fn assessments_directory_diff(v: &Vec<Assessment>) -> (r: Option<&DirectoryDiff>)
    requires
        at_most_one_dir(v.deep_view()),
    ensures
        match r {
            Some(d) => first_dir(v.deep_view()) == Some(d.deep_view()),
            None => first_dir(v.deep_view()) is None,
        },
{
    let ghost s = v.deep_view();
    let mut i: usize = 0;
    while i < v.len()
        invariant
            i <= v.len(),
            s == v.deep_view(),
            forall|j: int| 0 <= j < i ==> action_dir(#[trigger] s[j].action) is None,
        decreases v.len() - i,
    {
        match action_directory_diff(&v[i].action) {
            Some(d) => {
                proof {
                    lemma_first_dir_at(s, i as int);
                    assert(s.skip(i as int)[0] == s[i as int]);
                }
                return Some(d);
            },
            None => {},
        }
        i = i + 1;
    }
    proof {
        lemma_first_dir_at(s, i as int);
    }
    None
}

// ---------------------------------------------------------------------------
// Moving the selection
// ---------------------------------------------------------------------------

/// The names of a directory listing.
pub open spec fn entry_names(e: Seq<(Seq<char>, LeftRightBoth<String>)>) -> Seq<Seq<char>> {
    e.map_values(|x: (Seq<char>, LeftRightBoth<String>)| x.0)
}

/// The index of the first occurrence of `p` in `names`.
pub open spec fn first_index_of(names: Seq<Seq<char>>, p: Seq<char>) -> Option<int>
    decreases names.len(),
{
    if names.len() == 0 {
        None
    } else if names[0] == p {
        Some(0)
    } else {
        match first_index_of(names.drop_first(), p) {
            Some(i) => Some(i + 1),
            None => None,
        }
    }
}

/// The index of the last occurrence of `p` in `names`.
pub open spec fn last_index_of(names: Seq<Seq<char>>, p: Seq<char>) -> Option<int>
    decreases names.len(),
{
    if names.len() == 0 {
        None
    } else if names.last() == p {
        Some(names.len() - 1)
    } else {
        last_index_of(names.drop_last(), p)
    }
}

/// The entry after `prev`: the first entry when nothing (or nothing listed) was
/// selected, and the last entry stays selected at the end.
pub open spec fn spec_next(names: Seq<Seq<char>>, prev: Option<Seq<char>>) -> Option<Seq<char>> {
    let first = if names.len() > 0 {
        Some(names[0])
    } else {
        None
    };
    match prev {
        Some(p) => match first_index_of(names, p) {
            Some(i) => if i + 1 < names.len() {
                Some(names[i + 1])
            } else {
                Some(names[i])
            },
            None => first,
        },
        None => first,
    }
}

/// The entry before `next`: the last entry when nothing (or nothing listed) was
/// selected, and the first entry stays selected at the start.
pub open spec fn spec_previous(names: Seq<Seq<char>>, next: Option<Seq<char>>) -> Option<Seq<char>> {
    let last = if names.len() > 0 {
        Some(names.last())
    } else {
        None
    };
    match next {
        Some(p) => match last_index_of(names, p) {
            Some(i) => if i > 0 {
                Some(names[i - 1])
            } else {
                Some(names[i])
            },
            None => last,
        },
        None => last,
    }
}

proof fn lemma_first_index_of_at(names: Seq<Seq<char>>, p: Seq<char>, i: int)
    requires
        0 <= i <= names.len(),
        forall|j: int| 0 <= j < i ==> names[j] != p,
    ensures
        i < names.len() && names[i] == p ==> first_index_of(names, p) == Some(i),
        i == names.len() ==> first_index_of(names, p) is None,
    decreases i,
{
    if i > 0 {
        lemma_first_index_of_at(names.drop_first(), p, i - 1);
    } else if names.len() > 0 && names[0] != p {
    }
}

proof fn lemma_last_index_of_at(names: Seq<Seq<char>>, p: Seq<char>, i: int)
    requires
        -1 <= i < names.len(),
        forall|j: int| i < j < names.len() ==> names[j] != p,
    ensures
        i >= 0 && names[i] == p ==> last_index_of(names, p) == Some(i),
        i == -1 ==> last_index_of(names, p) is None,
    decreases names.len() - i,
{
    if i < names.len() - 1 {
        lemma_last_index_of_at(names.drop_last(), p, i);
    }
}

/// The names of a directory diff's entries.
fn names_of(d: &DirectoryDiff) -> (r: Vec<String>)
    ensures
        r.deep_view() == entry_names(d.deep_view()),
{
    let mut r: Vec<String> = Vec::new();
    let mut i: usize = 0;
    while i < d.entries.len()
        invariant
            i <= d.entries.len(),
            r.deep_view() =~= entry_names(d.deep_view()).take(i as int),
        decreases d.entries.len() - i,
    {
        r.push(d.entries[i].0.clone());
        assert(entry_names(d.deep_view()).take(i + 1) =~= entry_names(d.deep_view()).take(
            i as int,
        ).push(d.entries@[i as int].0@));
        i = i + 1;
    }
    assert(entry_names(d.deep_view()).take(i as int) =~= entry_names(d.deep_view()));
    r
}

/// The view of an optional name.
pub open spec fn opt_view(s: Option<&String>) -> Option<Seq<char>> {
    match s {
        Some(s) => Some(s@),
        None => None,
    }
}

/// The view of an optional owned name.
pub open spec fn opt_string_view(s: Option<String>) -> Option<Seq<char>> {
    match s {
        Some(s) => Some(s@),
        None => None,
    }
}

/// The name after `prev` in `names`, as `spec_next` says.
pub fn next_name(names: &Vec<String>, prev: Option<&String>) -> (r: Option<String>)
    ensures
        opt_string_view(r) == spec_next(names.deep_view(), opt_view(prev)),
{
    let ghost nv = names.deep_view();
    assert(names.len() > 0 ==> nv[0] == names@[0]@);
    let first = if names.len() > 0 {
        Some(names[0].clone())
    } else {
        None
    };
    match prev {
        Some(p) => {
            let mut i: usize = 0;
            while i < names.len()
                invariant
                    i <= names.len(),
                    nv == names.deep_view(),
                    opt_view(prev) == Some(p@),
                    forall|j: int| 0 <= j < i ==> nv[j] != p@,
                decreases names.len() - i,
            {
                assert(nv[i as int] == names@[i as int]@);
                if names[i] == *p {
                    proof {
                        assert(nv[i as int] == p@);
                        lemma_first_index_of_at(nv, p@, i as int);
                        assert(first_index_of(nv, p@) == Some(i as int));
                        if i + 1 < names.len() {
                            assert(nv[i + 1] == names@[i + 1]@);
                        }
                    }
                    if i + 1 < names.len() {
                        return Some(names[i + 1].clone());
                    } else {
                        return Some(names[i].clone());
                    }
                }
                i = i + 1;
            }
            proof {
                lemma_first_index_of_at(nv, p@, i as int);
            }
            first
        },
        None => first,
    }
}

/// The name before `next` in `names`, as `spec_previous` says.
pub fn previous_name(names: &Vec<String>, next: Option<&String>) -> (r: Option<String>)
    ensures
        opt_string_view(r) == spec_previous(names.deep_view(), opt_view(next)),
{
    let ghost nv = names.deep_view();
    let n = names.len();
    assert(n > 0 ==> nv.last() == names@[n - 1]@);
    let last = if n > 0 {
        Some(names[n - 1].clone())
    } else {
        None
    };
    match next {
        Some(p) => {
            let mut i: usize = n;
            while i > 0
                invariant
                    i <= n,
                    n == names.len(),
                    nv == names.deep_view(),
                    opt_view(next) == Some(p@),
                    forall|j: int| i <= j < n ==> nv[j] != p@,
                decreases i,
            {
                assert(nv[i - 1] == names@[i - 1]@);
                if names[i - 1] == *p {
                    proof {
                        lemma_last_index_of_at(nv, p@, i - 1);
                        if i > 1 {
                            assert(nv[i - 2] == names@[i - 2]@);
                        }
                    }
                    if i - 1 > 0 {
                        return Some(names[i - 2].clone());
                    } else {
                        return Some(names[i - 1].clone());
                    }
                }
                i = i - 1;
            }
            proof {
                lemma_last_index_of_at(nv, p@, -1);
            }
            last
        },
        None => last,
    }
}

/// Moving down and then up again comes back to where it started, for any entry but
/// the last one of a listing in which no name occurs twice.
pub proof fn lemma_next_then_previous(names: Seq<Seq<char>>, i: int)
    requires
        0 <= i < names.len() - 1,
        forall|a: int, b: int| 0 <= a < b < names.len() ==> names[a] != names[b],
    ensures
        spec_previous(names, spec_next(names, Some(names[i]))) == Some(names[i]),
{
    lemma_first_index_of_at(names, names[i], i);
    lemma_last_index_of_at(names, names[i + 1], i + 1);
}

/// Moving up and then down again comes back to where it started, for any entry but
/// the first one of a listing in which no name occurs twice.
pub proof fn lemma_previous_then_next(names: Seq<Seq<char>>, i: int)
    requires
        0 < i < names.len(),
        forall|a: int, b: int| 0 <= a < b < names.len() ==> names[a] != names[b],
    ensures
        spec_next(names, spec_previous(names, Some(names[i]))) == Some(names[i]),
{
    lemma_last_index_of_at(names, names[i], i);
    lemma_first_index_of_at(names, names[i - 1], i - 1);
}

/// The listing at `loc`, if its cached assessments carry one.
pub open spec fn spec_dir_at(d: Differ, loc: Seq<Seq<char>>) -> Option<
    Seq<(Seq<char>, LeftRightBoth<String>)>,
> {
    if d.cache_map().contains_key(loc) {
        first_dir(d.cache_map()[loc])
    } else {
        None
    }
}

/// The line for assessment `a` of entry `name`, leading to that entry.
pub open spec fn spec_item(name: Seq<char>, a: AssessmentView) -> (Seq<char>, LineStyle, Option<Seq<char>>) {
    (spec_display_text(spec_action_file_type(a.action), name), spec_style(a), Some(name))
}

/// `l` is `loc` itself or lies below it (see `reported_below`), or lies at or
/// below an entry of the directory listed at `loc`.
pub open spec fn reported_for_items(d: Differ, l: Seq<Seq<char>>, loc: Seq<Seq<char>>) -> bool {
    ||| reported_below(d, l, loc)
    ||| {
        &&& spec_dir_at(d, loc) matches Some(e)
        &&& l.len() > loc.len()
        &&& l.take(loc.len() as int) == loc
        &&& exists|j: int| 0 <= j < e.len() && #[trigger] e[j].0 == l[loc.len() as int]
        &&& reported_below(d, l, l.take(loc.len() as int + 1))
    }
}

/// The lines of the directory at `loc` whose entries are `names`: for each entry in
/// order, one line per assessment of that entry.
pub open spec fn spec_items(d: Differ, loc: Seq<Seq<char>>, names: Seq<Seq<char>>) -> Seq<
    (Seq<char>, LineStyle, Option<Seq<char>>),
>
    decreases names.len(),
{
    if names.len() == 0 {
        Seq::empty()
    } else {
        let name = names.last();
        spec_items(d, loc, names.drop_last()) + d.cache_map()[spec_child(loc, name)].map_values(
            |a: AssessmentView| spec_item(name, a),
        )
    }
}

/// Where listing the entries `names` below `loc`, from the `j`-th on, gets stuck:
/// at the first entry whose grading gets stuck, or that exists on neither side.
pub open spec fn items_stuck(d: Differ, loc: Seq<Seq<char>>, names: Seq<Seq<char>>, j: int) -> Option<Stuck>
    decreases names.len() - j,
{
    if j >= names.len() {
        None
    } else {
        let c = spec_child(loc, names[j]);
        match d.graded(c) {
            Ok(Some(_)) => items_stuck(d, loc, names, j + 1),
            Ok(None) => Some(Stuck::Vanished(c)),
            Err(s) => Some(s),
        }
    }
}

/// The directory listing that the difference `pd` shows (the grade plays no part in it).
pub open spec fn spec_diff_dir(pd: PathDiffView) -> Option<Seq<(Seq<char>, LeftRightBoth<String>)>> {
    first_dir(spec_assess(pd, false))
}

/// Listing the directory at `loc` cannot get stuck: the difference there is fully
/// observed, and so is every entry of the directory it shows.
pub open spec fn listing_observed(d: Differ, loc: Seq<Seq<char>>) -> bool {
    &&& d.fully_observed(loc)
    &&& match d.observed_diff(loc) {
        Some(pd) => match spec_diff_dir(pd) {
            Some(e) => forall|j: int| 0 <= j < e.len() ==> #[trigger] d.fully_observed(spec_child(loc, e[j].0)),
            None => true,
        },
        None => true,
    }
}

/// The listing a cached location shows is the one its observed difference shows.
proof fn lemma_dir_at_observed(d: Differ, loc: Seq<Seq<char>>)
    requires
        d.wf(),
        d.cache_map().contains_key(loc),
    ensures
        d.observed_diff(loc) is Some,
        spec_dir_at(d, loc) == spec_diff_dir(d.observed_diff(loc)->Some_0),
{
    lemma_cached_matches_observation(d, loc);
    let pd = d.observed_diff(loc)->Some_0;
    reveal_with_fuel(first_dir, 3);
    match pd {
        PathDiffView::Modified(Typed::Directory(e)) => {
            let m = children_meaningful(d, loc, e);
            assert(spec_assess(pd, m)[0].action == spec_assess(pd, false)[0].action);
        },
        _ => {},
    }
}

proof fn lemma_item_error_located(
    start: Differ,
    fin: Differ,
    lv: Seq<Seq<char>>,
    nv: Seq<Seq<char>>,
    i: int,
    l: Seq<Seq<char>>,
)
    requires
        fin.grows_from(start),
        start.cache_map().contains_key(lv),
        spec_dir_at(start, lv) matches Some(e) && entry_names(e) == nv,
        0 <= i < nv.len(),
        reported_below(fin, l, spec_child(lv, nv[i])),
    ensures
        reported_for_items(fin, l, lv),
{
    let c = spec_child(lv, nv[i]);
    assert(start.cache_map().dom().contains(lv));
    assert(fin.cache_map().dom().contains(lv));
    assert(spec_dir_at(fin, lv) == spec_dir_at(start, lv));
    let e = spec_dir_at(fin, lv)->Some_0;
    assert(l.take(c.len() as int) == c);
    assert(l.take(lv.len() as int) =~= c.take(lv.len() as int));
    assert(c.take(lv.len() as int) =~= lv);
    assert(l[lv.len() as int] == c[lv.len() as int]);
    assert(e[i].0 == nv[i]);
    assert(l.take(lv.len() as int + 1) =~= c);
}

proof fn lemma_items_grow(a: Differ, b: Differ, loc: Seq<Seq<char>>, names: Seq<Seq<char>>)
    requires
        b.grows_from(a),
        forall|j: int| 0 <= j < names.len() ==> #[trigger] a.cache_map().contains_key(spec_child(loc, names[j])),
    ensures
        spec_items(a, loc, names) == spec_items(b, loc, names),
    decreases names.len(),
{
    if names.len() > 0 {
        assert forall|j: int| 0 <= j < names.drop_last().len() implies #[trigger] a.cache_map().contains_key(
            spec_child(loc, names.drop_last()[j]),
        ) by {
            assert(names.drop_last()[j] == names[j]);
        }
        lemma_items_grow(a, b, loc, names.drop_last());
        let c = spec_child(loc, names[names.len() - 1]);
        assert(a.cache_map().contains_key(c));
        assert(a.cache_map().dom().contains(c));
        assert(b.cache_map().dom().contains(c));
        assert(b.cache_map()[c] == a.cache_map()[c]);
    }
}

/// The listing at `loc`, once its difference is cached.
fn listing_names(d: &Differ, location: &Vec<String>) -> (r: Option<Vec<String>>)
    requires
        d.wf(),
        d.cache_map().contains_key(location.deep_view()),
    ensures
        match r {
            Some(n) => spec_dir_at(*d, location.deep_view()) matches Some(e) && n.deep_view()
                == entry_names(e),
            None => spec_dir_at(*d, location.deep_view()) is None,
        },
{
    proof {
        lemma_cached_one_directory(*d, location.deep_view());
    }
    match d.cached(location) {
        Some(v) => match assessments_directory_diff(v) {
            Some(dir) => Some(names_of(dir)),
            None => None,
        },
        None => vstd::pervasive::unreached(),
    }
}

impl Differ {
    /// The entry below `location` that follows `previous_sub_location`, computing the
    /// difference at `location` first if needed.
    pub fn get_next(&mut self, location: &Vec<String>, previous_sub_location: Option<&String>) -> (r:
        Result<Option<String>, DiffStatus>)
        requires
            old(self).wf(),
        ensures
            final(self).wf(),
            final(self).grows_from(*old(self)),
            old(self).fully_observed(location.deep_view()) ==> r is Ok,
            match old(self).graded(location.deep_view()) {
                Err(s) => r matches Err(st) && status_stuck(st) == Some(s),
                Ok(_) => r is Ok,
            },
            match r {
                Ok(n) => opt_string_view(n) == match spec_dir_at(*final(self), location.deep_view()) {
                    Some(e) => spec_next(entry_names(e), opt_view(previous_sub_location)),
                    None => None,
                },
                Err(s) => stuck_ok(*final(self), s) && reported_below(
                    *final(self),
                    stuck_location(s),
                    location.deep_view(),
                ),
            },
    {
        match self.get_diff(location) {
            DiffStatus::Ready => {},
            DiffStatus::Nonexistent => {
                return Ok(None);
            },
            other => {
                return Err(other);
            },
        }
        match listing_names(self, location) {
            Some(names) => Ok(next_name(&names, previous_sub_location)),
            None => Ok(None),
        }
    }

    /// The entry below `location` that precedes `next_sub_location`, computing the
    /// difference at `location` first if needed.
    pub fn get_previous(&mut self, location: &Vec<String>, next_sub_location: Option<&String>) -> (r:
        Result<Option<String>, DiffStatus>)
        requires
            old(self).wf(),
        ensures
            final(self).wf(),
            final(self).grows_from(*old(self)),
            old(self).fully_observed(location.deep_view()) ==> r is Ok,
            match old(self).graded(location.deep_view()) {
                Err(s) => r matches Err(st) && status_stuck(st) == Some(s),
                Ok(_) => r is Ok,
            },
            match r {
                Ok(n) => opt_string_view(n) == match spec_dir_at(*final(self), location.deep_view()) {
                    Some(e) => spec_previous(entry_names(e), opt_view(next_sub_location)),
                    None => None,
                },
                Err(s) => stuck_ok(*final(self), s) && reported_below(
                    *final(self),
                    stuck_location(s),
                    location.deep_view(),
                ),
            },
    {
        match self.get_diff(location) {
            DiffStatus::Ready => {},
            DiffStatus::Nonexistent => {
                return Ok(None);
            },
            other => {
                return Err(other);
            },
        }
        match listing_names(self, location) {
            Some(names) => Ok(previous_name(&names, next_sub_location)),
            None => Ok(None),
        }
    }

    /// The lines that list the directory at `location`: one per assessment of each
    /// entry, entries in order. `None` when nothing there is a directory.
    pub fn get_items(&mut self, location: &Vec<String>) -> (r: Result<Option<Vec<NavListItem>>, DiffStatus>)
        requires
            old(self).wf(),
        ensures
            final(self).wf(),
            final(self).grows_from(*old(self)),
            listing_observed(*old(self), location.deep_view()) ==> r is Ok,
            match old(self).graded(location.deep_view()) {
                Err(s) => r matches Err(st) && status_stuck(st) == Some(s),
                Ok(None) => r matches Ok(None),
                Ok(Some(v)) => match first_dir(v) {
                    None => r matches Ok(None),
                    Some(e) => match items_stuck(*old(self), location.deep_view(), entry_names(e), 0) {
                        Some(s) => r matches Err(st) && status_stuck(st) == Some(s),
                        None => r matches Ok(Some(_)),
                    },
                },
            },
            match r {
                Ok(Some(items)) => spec_dir_at(*final(self), location.deep_view()) matches Some(e)
                    && items.deep_view() == spec_items(*final(self), location.deep_view(), entry_names(e)),
                Ok(None) => spec_dir_at(*final(self), location.deep_view()) is None,
                Err(s) => stuck_ok(*final(self), s) && reported_for_items(
                    *final(self),
                    stuck_location(s),
                    location.deep_view(),
                ),
            },
    {
        match self.get_diff(location) {
            DiffStatus::Ready => {},
            DiffStatus::Nonexistent => {
                return Ok(None);
            },
            other => {
                return Err(other);
            },
        }
        let names = match listing_names(self, location) {
            Some(names) => names,
            None => {
                return Ok(None);
            },
        };
        let ghost start = *self;
        let ghost lv = location.deep_view();
        let ghost nv = names.deep_view();
        proof {
            lemma_dir_at_observed(*self, lv);
            if listing_observed(*old(self), lv) {
                let e = spec_dir_at(*self, lv)->Some_0;
                assert(old(self).observed_diff(lv) == self.observed_diff(lv));
                assert forall|j: int| 0 <= j < nv.len() implies #[trigger] self.fully_observed(
                    spec_child(lv, nv[j]),
                ) by {
                    assert(nv[j] == e[j].0);
                    assert(old(self).fully_observed(spec_child(lv, e[j].0)));
                }
            }
        }
        let mut items: Vec<NavListItem> = Vec::new();
        let mut i: usize = 0;
        while i < names.len()
            invariant
                i <= names.len(),
                nv == names.deep_view(),
                lv == location.deep_view(),
                self.wf(),
                self.grows_from(start),
                start.grows_from(*old(self)),
                start.cache_map().contains_key(lv),
                spec_dir_at(start, lv) matches Some(e) && entry_names(e) == nv,
                forall|j: int| 0 <= j < i ==> #[trigger] self.cache_map().contains_key(spec_child(lv, nv[j])),
                items.deep_view() == spec_items(*self, lv, nv.take(i as int)),
                listing_observed(*old(self), lv) ==> forall|j: int|
                    0 <= j < nv.len() ==> #[trigger] self.fully_observed(spec_child(lv, nv[j])),
                items_stuck(*old(self), lv, nv, 0) == items_stuck(*old(self), lv, nv, i as int),
                old(self).graded(lv) == Ok::<Option<Seq<AssessmentView>>, Stuck>(Some(start.cache_map()[lv])),
            decreases names.len() - i,
        {
            let mut child = clone_location(location);
            child.push(names[i].clone());
            assert(child.deep_view() =~= spec_child(lv, nv[i as int]));
            let ghost before_call = *self;
            proof {
                if listing_observed(*old(self), lv) {
                    assert(self.fully_observed(spec_child(lv, nv[i as int])));
                }
                assert(old(self).graded(child.deep_view()) == self.graded(child.deep_view()));
            }
            match self.get_diff(&child) {
                DiffStatus::Ready => {},
                DiffStatus::Nonexistent => {
                    proof {
                        crate::dir_diff::lemma_grows_trans(start, before_call, *self);
                        crate::dir_diff::lemma_grows_trans(*old(self), start, *self);
                        assert(child.deep_view().take(child.deep_view().len() as int) =~= child.deep_view());
                        lemma_item_error_located(start, *self, lv, nv, i as int, child.deep_view());
                    }
                    return Err(DiffStatus::ChildVanished(child));
                },
                other => {
                    proof {
                        crate::dir_diff::lemma_grows_trans(start, before_call, *self);
                        crate::dir_diff::lemma_grows_trans(*old(self), start, *self);
                        lemma_item_error_located(start, *self, lv, nv, i as int, stuck_location(other));
                    }
                    return Err(other);
                },
            }
            proof {
                crate::dir_diff::lemma_grows_trans(start, before_call, *self);
                if listing_observed(*old(self), lv) {
                    assert forall|j: int| 0 <= j < nv.len() implies #[trigger] self.fully_observed(
                        spec_child(lv, nv[j]),
                    ) by {
                        assert(before_call.fully_observed(spec_child(lv, nv[j])));
                    }
                }
                assert forall|j: int| 0 <= j < i implies #[trigger] before_call.cache_map().contains_key(
                    spec_child(lv, nv.take(i as int)[j]),
                ) by {
                    assert(nv.take(i as int)[j] == nv[j]);
                }
                lemma_items_grow(before_call, *self, lv, nv.take(i as int));
                assert forall|j: int| 0 <= j < i + 1 implies #[trigger] self.cache_map().contains_key(
                    spec_child(lv, nv[j]),
                ) by {
                    if j < i {
                        assert(before_call.cache_map().dom().contains(spec_child(lv, nv[j])));
                        assert(self.cache_map().dom().contains(spec_child(lv, nv[j])));
                    }
                }
            }
            let v = match self.cached(&child) {
                Some(v) => v,
                None => vstd::pervasive::unreached(),
            };
            let ghost av = v.deep_view();
            let ghost prefix = items.deep_view();
            let mut k: usize = 0;
            while k < v.len()
                invariant
                    k <= v.len(),
                    av == v.deep_view(),
                    i < names.len(),
                    nv == names.deep_view(),
                    items.deep_view() == prefix + av.take(k as int).map_values(
                        |a: AssessmentView| spec_item(nv[i as int], a),
                    ),
                decreases v.len() - k,
            {
                let line = display_diff(&names[i], &v[k]);
                let ghost before_push = items.deep_view();
                let item = NavListItem { text: line, sub_location: Some(names[i].clone()) };
                assert(item.deep_view() == spec_item(names@[i as int]@, v@[k as int].deep_view()));
                items.push(item);
                proof {
                    assert(items.deep_view() =~= before_push.push(item.deep_view()));
                    assert(nv[i as int] == names@[i as int]@);
                    assert(av[k as int] == v@[k as int].deep_view());
                    assert(av.take(k + 1).map_values(|a: AssessmentView| spec_item(nv[i as int], a))
                        =~= av.take(k as int).map_values(|a: AssessmentView| spec_item(nv[i as int], a)).push(
                        spec_item(nv[i as int], av[k as int]),
                    ));
                    assert(items.deep_view() =~= prefix + av.take(k + 1).map_values(
                        |a: AssessmentView| spec_item(nv[i as int], a),
                    ));
                }
                k = k + 1;
            }
            proof {
                assert(av.take(k as int) =~= av);
                assert(nv.take(i + 1).drop_last() =~= nv.take(i as int));
                assert(nv.take(i + 1).last() == nv[i as int]);
                assert(items.deep_view() =~= spec_items(*self, lv, nv.take(i + 1)));
            }
            i = i + 1;
        }
        proof {
            assert(nv.take(i as int) =~= nv);
            crate::dir_diff::lemma_grows_trans(*old(self), start, *self);
            assert(start.cache_map().dom().contains(lv));
            assert(self.cache_map().dom().contains(lv));
        }
        Ok(Some(items))
    }
}

// ---------------------------------------------------------------------------
// The browsing state
// ---------------------------------------------------------------------------

/// A key press, as far as browsing cares.
#[derive(Clone, Copy, Debug, PartialEq, Eq)]
pub enum KeyInput {
    Down,
    Up,
    Right,
    Left,
    Quit,
    Other,
}

/// What a key press asks of the screen.
#[derive(Clone, Copy, Debug, PartialEq, Eq)]
pub enum KeyOutcome {
    Redraw,
    Unchanged,
    Quit,
}

/// The three places drawn side by side: the parent (if any), the current location,
/// and the selected entry (if any).
#[derive(Debug, PartialEq, Eq)]
pub struct DrawTargets {
    pub left: Option<Location>,
    pub middle: Location,
    pub right: Option<Location>,
}

/// The location of an entry below another, as text pieces.
pub type Location = Vec<String>;

/// Browsing state: where the user is, what is selected in each directory seen so
/// far, and the differences computed so far.
pub struct App {
    pub path: Location,
    pub nav_list_states: Vec<(Location, NavListState)>,
    pub diff_cache: Differ,
}

/// The selection states by location, with a fresh state for `path` if it had none.
pub open spec fn with_default_state(
    m: Map<Seq<Seq<char>>, (usize, Option<Seq<char>>)>,
    path: Seq<Seq<char>>,
) -> Map<Seq<Seq<char>>, (usize, Option<Seq<char>>)> {
    if m.contains_key(path) {
        m
    } else {
        m.insert(path, (0, None))
    }
}

/// Where a key press leads from `path` with `selected` highlighted: right enters
/// the selected entry, left goes to the parent; other keys stay.
pub open spec fn spec_path_after_key(path: Seq<Seq<char>>, selected: Option<Seq<char>>, key: KeyInput) -> Seq<
    Seq<char>,
> {
    match key {
        KeyInput::Right => match selected {
            Some(s) => path.push(s),
            None => path,
        },
        KeyInput::Left => if path.len() > 0 {
            path.drop_last()
        } else {
            path
        },
        _ => path,
    }
}

/// Entering the selected entry and then going to the parent comes back to where
/// browsing started.
pub proof fn lemma_enter_then_leave(path: Seq<Seq<char>>, selected: Seq<char>, other: Option<Seq<char>>)
    ensures
        spec_path_after_key(
            spec_path_after_key(path, Some(selected), KeyInput::Right),
            other,
            KeyInput::Left,
        ) == path,
{
    assert(path.push(selected).drop_last() =~= path);
}

impl App {
    /// The selection state of every location seen so far.
    pub closed spec fn nav_map(&self) -> Map<Seq<Seq<char>>, (usize, Option<Seq<char>>)> {
        assoc_map(
            self.nav_list_states@.map_values(
                |e: (Location, NavListState)| (e.0.deep_view(), e.1.deep_view()),
            ),
        )
    }

    closed spec fn nav_entries(&self) -> Seq<(Seq<Seq<char>>, (usize, Option<Seq<char>>))> {
        self.nav_list_states@.map_values(
            |e: (Location, NavListState)| (e.0.deep_view(), e.1.deep_view()),
        )
    }

    /// The state is consistent: one selection state per location, and a consistent cache.
    pub closed spec fn wf(&self) -> bool {
        &&& keys_distinct(self.nav_entries())
        &&& self.diff_cache.wf()
    }

    /// Browsing starts at the top of the trees, with nothing selected.
    pub fn new(diff_cache: Differ) -> (r: App)
        requires
            diff_cache.wf(),
        ensures
            r.wf(),
            r.path@.len() == 0,
            r.nav_map() == Map::<Seq<Seq<char>>, (usize, Option<Seq<char>>)>::empty(),
            r.diff_cache == diff_cache,
    {
        let r = App { path: Vec::new(), nav_list_states: Vec::new(), diff_cache };
        assert(r.nav_entries() =~= Seq::empty());
        r
    }

    /// The index of the selection state of `path`, made fresh if there was none.
    fn state_index(&mut self, path: &Location) -> (r: usize)
        requires
            old(self).wf(),
        ensures
            final(self).wf(),
            final(self).path == old(self).path,
            final(self).diff_cache == old(self).diff_cache,
            final(self).nav_map() == with_default_state(old(self).nav_map(), path.deep_view()),
            r < final(self).nav_list_states@.len(),
            final(self).nav_entries()[r as int].0 == path.deep_view(),
    {
        let mut i: usize = 0;
        while i < self.nav_list_states.len()
            invariant
                i <= self.nav_list_states@.len(),
                self.wf(),
                *self == *old(self),
                forall|j: int| 0 <= j < i ==> #[trigger] self.nav_entries()[j].0 != path.deep_view(),
            decreases self.nav_list_states@.len() - i,
        {
            if locations_equal_here(&self.nav_list_states[i].0, path) {
                proof {
                    lemma_assoc_map_index(self.nav_entries(), i as int);
                }
                return i;
            }
            i = i + 1;
        }
        proof {
            lemma_assoc_map_contains(self.nav_entries(), path.deep_view());
        }
        let ghost old_entries = self.nav_entries();
        let fresh: NavListState = NavListState::default();
        self.nav_list_states.push((clone_location(path), fresh));
        proof {
            assert(self.nav_entries() =~= old_entries.push((path.deep_view(), (0usize, None))));
            assert(self.nav_entries().drop_last() =~= old_entries);
            assert(keys_distinct(self.nav_entries())) by {
                assert forall|a: int, b: int| 0 <= a < b < self.nav_entries().len() implies #[trigger] self.nav_entries()[a].0
                    != #[trigger] self.nav_entries()[b].0 by {
                    if b == self.nav_entries().len() - 1 {
                        assert(old_entries[a].0 == self.nav_entries()[a].0);
                    } else {
                        assert(old_entries[a].0 != old_entries[b].0);
                    }
                }
            }
        }
        i
    }

    /// A copy of the selection state of `path` (a fresh one if it had none).
    pub fn nav_state(&mut self, path: &Location) -> (r: NavListState)
        requires
            old(self).wf(),
        ensures
            final(self).wf(),
            final(self).path == old(self).path,
            final(self).diff_cache == old(self).diff_cache,
            final(self).nav_map() == with_default_state(old(self).nav_map(), path.deep_view()),
            r.deep_view() == final(self).nav_map()[path.deep_view()],
    {
        let i = self.state_index(path);
        proof {
            lemma_assoc_map_index(self.nav_entries(), i as int);
        }
        self.nav_list_states[i].1.copy()
    }

    /// What to draw: the current location in the middle, the selected entry on the
    /// right and the parent on the left, where they exist.
    pub fn draw_targets(&mut self) -> (r: DrawTargets)
        requires
            old(self).wf(),
        ensures
            final(self).wf(),
            final(self).path == old(self).path,
            final(self).diff_cache == old(self).diff_cache,
            final(self).nav_map() == with_default_state(old(self).nav_map(), old(self).path.deep_view()),
            r.middle.deep_view() == old(self).path.deep_view(),
            match r.right {
                Some(p) => final(self).nav_map()[old(self).path.deep_view()].1 matches Some(s)
                    && p.deep_view() == old(self).path.deep_view().push(s),
                None => final(self).nav_map()[old(self).path.deep_view()].1 is None,
            },
            match r.left {
                Some(p) => old(self).path@.len() > 0 && p.deep_view() == old(self).path.deep_view().drop_last(),
                None => old(self).path@.len() == 0,
            },
    {
        let path = clone_location(&self.path);
        let state = self.nav_state(&path);
        let right = match state.selected {
            Some(selected) => {
                let mut p = clone_location(&path);
                p.push(selected);
                assert(p.deep_view() =~= path.deep_view().push(selected@));
                Some(p)
            },
            None => None,
        };
        let left = if path.len() > 0 {
            let mut p = clone_location(&path);
            p.pop();
            assert(p.deep_view() =~= path.deep_view().drop_last());
            Some(p)
        } else {
            None
        };
        DrawTargets { left, middle: path, right }
    }

    /// Handles a key press: down and up move the selection through the current
    /// directory, right enters the selected entry, left goes to the parent, and the
    /// quit key ends browsing. Every key press gives the current location a selection
    /// state if it had none.
    pub fn handle_key(&mut self, key: KeyInput) -> (r: Result<KeyOutcome, DiffStatus>)
        requires
            old(self).wf(),
        ensures
            final(self).wf(),
            final(self).diff_cache.grows_from(old(self).diff_cache),
            r is Err ==> key == KeyInput::Down || key == KeyInput::Up,
            old(self).diff_cache.graded(old(self).path.deep_view()) is Ok ==> r is Ok,
            old(self).diff_cache.fully_observed(old(self).path.deep_view()) ==> r is Ok,
            match old(self).diff_cache.graded(old(self).path.deep_view()) {
                Err(s) => (key == KeyInput::Down || key == KeyInput::Up) <==> (r matches Err(st)
                    && status_stuck(st) == Some(s)),
                Ok(_) => r is Ok,
            },
            ({
                let p = old(self).path.deep_view();
                let m = with_default_state(old(self).nav_map(), p);
                let sel = m[p].1;
                match r {
                    Ok(o) => match key {
                        KeyInput::Down => {
                            &&& o == KeyOutcome::Redraw
                            &&& final(self).path == old(self).path
                            &&& final(self).nav_map() == m.insert(
                                p,
                                (
                                    m[p].0,
                                    match spec_dir_at(final(self).diff_cache, p) {
                                        Some(e) => spec_next(entry_names(e), sel),
                                        None => None,
                                    },
                                ),
                            )
                        },
                        KeyInput::Up => {
                            &&& o == KeyOutcome::Redraw
                            &&& final(self).path == old(self).path
                            &&& final(self).nav_map() == m.insert(
                                p,
                                (
                                    m[p].0,
                                    match spec_dir_at(final(self).diff_cache, p) {
                                        Some(e) => spec_previous(entry_names(e), sel),
                                        None => None,
                                    },
                                ),
                            )
                        },
                        KeyInput::Right | KeyInput::Left => {
                            &&& final(self).nav_map() == m
                            &&& final(self).path.deep_view() == spec_path_after_key(p, sel, key)
                            &&& o == if spec_path_after_key(p, sel, key) == p {
                                KeyOutcome::Unchanged
                            } else {
                                KeyOutcome::Redraw
                            }
                        },
                        KeyInput::Quit => o == KeyOutcome::Quit && final(self).path == old(self).path
                            && final(self).nav_map() == m,
                        KeyInput::Other => o == KeyOutcome::Unchanged && final(self).path == old(self).path
                            && final(self).nav_map() == m,
                    },
                    Err(s) => stuck_ok(final(self).diff_cache, s) && reported_below(
                        final(self).diff_cache,
                        stuck_location(s),
                        p,
                    ) && final(self).path == old(self).path
                        && final(self).nav_map() == m,
                }
            }),
    {
        let path = clone_location(&self.path);
        let i = self.state_index(&path);
        proof {
            lemma_assoc_map_index(self.nav_entries(), i as int);
        }
        let ghost m = self.nav_map();
        let ghost p = path.deep_view();
        match key {
            KeyInput::Down | KeyInput::Up => {
                let next = match key {
                    KeyInput::Down => self.diff_cache.get_next(
                        &path,
                        self.nav_list_states[i].1.selected.as_ref(),
                    ),
                    _ => self.diff_cache.get_previous(&path, self.nav_list_states[i].1.selected.as_ref()),
                };
                match next {
                    Ok(selected) => {
                        let ghost old_entries = self.nav_entries();
                        let offset = self.nav_list_states[i].1.offset;
                        let (loc, _old_state) = self.nav_list_states.remove(i);
                        self.nav_list_states.insert(i, (loc, NavListState { offset, selected }));
                        proof {
                            let nv = (offset, opt_string_view(selected));
                            assert(self.nav_entries() =~= old_entries.update(i as int, (p, nv)));
                            crate::diff_util::lemma_assoc_map_update(old_entries, i as int, nv);
                            assert(keys_distinct(self.nav_entries())) by {
                                assert forall|a: int, b: int| 0 <= a < b < self.nav_entries().len() implies #[trigger] self.nav_entries()[a].0
                                    != #[trigger] self.nav_entries()[b].0 by {
                                    assert(old_entries[a].0 != old_entries[b].0);
                                }
                            }
                        }
                        Ok(KeyOutcome::Redraw)
                    },
                    Err(s) => Err(s),
                }
            },
            KeyInput::Right => {
                match &self.nav_list_states[i].1.selected {
                    Some(selected) => {
                        let s = selected.clone();
                        self.path.push(s);
                        assert(self.path.deep_view() =~= p.push(s@));
                        assert(self.path.deep_view().len() != p.len());
                        Ok(KeyOutcome::Redraw)
                    },
                    None => Ok(KeyOutcome::Unchanged),
                }
            },
            KeyInput::Left => {
                if self.path.len() > 0 {
                    self.path.pop();
                    assert(self.path.deep_view() =~= p.drop_last());
                    assert(self.path.deep_view().len() != p.len());
                    Ok(KeyOutcome::Redraw)
                } else {
                    Ok(KeyOutcome::Unchanged)
                }
            },
            KeyInput::Quit => Ok(KeyOutcome::Quit),
            KeyInput::Other => Ok(KeyOutcome::Unchanged),
        }
    }
}

/// Whether two locations name the same place.
fn locations_equal_here(a: &Location, b: &Location) -> (r: bool)
    ensures
        r == (a.deep_view() == b.deep_view()),
{
    crate::dir_diff::locations_equal(a, b)
}

} // verus!
