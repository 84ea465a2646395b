use vstd::prelude::*;

verus! {

/// A value that depends on the kind of a filesystem entry.
#[derive(Clone, Debug, PartialEq, Eq)]
pub enum Typed<TS, TD, TF, TFB, TU> {
    Symlink(TS),
    Directory(TD),
    File(TF),
    FilesystemBoundary(TFB),
    Unknown(TU),
}

impl<TS: DeepView, TD: DeepView, TF: DeepView, TFB: DeepView, TU: DeepView> DeepView for Typed<
    TS,
    TD,
    TF,
    TFB,
    TU,
> {
    type V = Typed<TS::V, TD::V, TF::V, TFB::V, TU::V>;

    open spec fn deep_view(&self) -> Self::V {
        match self {
            Typed::Symlink(v) => Typed::Symlink(v.deep_view()),
            Typed::Directory(v) => Typed::Directory(v.deep_view()),
            Typed::File(v) => Typed::File(v.deep_view()),
            Typed::FilesystemBoundary(v) => Typed::FilesystemBoundary(v.deep_view()),
            Typed::Unknown(v) => Typed::Unknown(v.deep_view()),
        }
    }
}

/// What happened to an entry between the two sides of a comparison.
#[derive(Clone, Debug, PartialEq, Eq)]
pub enum Action<TState, TDiff> {
    Created(TState),
    Deleted(TState),
    Modified(TDiff),
    Identical(TState),
}

impl<TState: DeepView, TDiff: DeepView> DeepView for Action<TState, TDiff> {
    type V = Action<TState::V, TDiff::V>;

    open spec fn deep_view(&self) -> Self::V {
        match self {
            Action::Created(s) => Action::Created(s.deep_view()),
            Action::Deleted(s) => Action::Deleted(s.deep_view()),
            Action::Modified(d) => Action::Modified(d.deep_view()),
            Action::Identical(s) => Action::Identical(s.deep_view()),
        }
    }
}

/// The payload of an action: a single state, or a difference between two states.
#[derive(Debug, PartialEq, Eq)]
pub enum StateOrDiff<TState, TDiff> {
    Diff(TDiff),
    State(TState),
}

/// An action split into its kind and its payload.
#[derive(Debug, PartialEq, Eq)]
pub struct TaggedAction<TState, TDiff> {
    pub tag: ActionTag,
    pub content: StateOrDiff<TState, TDiff>,
}

/// The kind of an action, without its payload.
#[derive(Clone, Copy, Debug, PartialEq, Eq)]
pub enum ActionTag {
    Created,
    Deleted,
    Modified,
    Identical,
}

/// The tag that names the variant of `a`.
pub open spec fn action_tag<TState, TDiff>(a: Action<TState, TDiff>) -> ActionTag {
    match a {
        Action::Created(_) => ActionTag::Created,
        Action::Deleted(_) => ActionTag::Deleted,
        Action::Modified(_) => ActionTag::Modified,
        Action::Identical(_) => ActionTag::Identical,
    }
}

/// The payload carried by `a`.
pub open spec fn action_content<TState, TDiff>(a: Action<TState, TDiff>) -> StateOrDiff<
    TState,
    TDiff,
> {
    match a {
        Action::Created(s) => StateOrDiff::State(s),
        Action::Deleted(s) => StateOrDiff::State(s),
        Action::Modified(d) => StateOrDiff::Diff(d),
        Action::Identical(s) => StateOrDiff::State(s),
    }
}

impl<TState, TDiff> Action<TState, TDiff> {
    /// Splits the action into its tag and its payload.
    pub fn to_tagged(self) -> (r: TaggedAction<TState, TDiff>)
        ensures
            r.tag == action_tag(self),
            r.content == action_content(self),
    {
        match self {
            Action::Created(state) => TaggedAction {
                tag: ActionTag::Created,
                content: StateOrDiff::State(state),
            },
            Action::Deleted(state) => TaggedAction {
                tag: ActionTag::Deleted,
                content: StateOrDiff::State(state),
            },
            Action::Modified(diff) => TaggedAction {
                tag: ActionTag::Modified,
                content: StateOrDiff::Diff(diff),
            },
            Action::Identical(state) => TaggedAction {
                tag: ActionTag::Identical,
                content: StateOrDiff::State(state),
            },
        }
    }
}

/// The tagged form loses nothing: the action can be rebuilt from its tag and payload.
pub proof fn lemma_tagged_determines_action<TState, TDiff>(
    a: Action<TState, TDiff>,
    b: Action<TState, TDiff>,
)
    requires
        action_tag(a) == action_tag(b),
        action_content(a) == action_content(b),
    ensures
        a == b,
{
}

} // verus!
