use vstd::prelude::*;

use crate::assesser::{
    at_most_one_dir, has_meaningful, spec_assess, spec_unimplemented, Assesser, Assessment,
    AssessmentView,
};
use crate::diff_util::{
    assoc_map, hashmap_diff, keyed, keys_distinct, keys_strictly_sorted, lemma_assoc_map_contains,
    lemma_assoc_map_index, lemma_sorted_distinct, lemma_sorted_same_map_equal, merge_maps, LeftRightBoth,
};
use crate::names::name_lt;
use crate::typed_actions::Typed;
use crate::typed_path::{
    spec_typed, typed_path_kind, FileType, typed_path_wf, DirectoryPath, ExistentPath, LinkInfo, SymlinkPath, TypedPath,
};

verus! {

// ---------------------------------------------------------------------------
// Symbolic links
// ---------------------------------------------------------------------------

/// What a symbolic link points to.
#[derive(Clone, Debug, Eq)]
pub enum SymlinkState {
    /// A link to anywhere outside the nix store. (`broken` holds whether the
    /// target existed when it was looked at.)
    Link { target: String, broken: bool },
    /// A link into the nix store, split into the store hash and the path within
    /// the derivation.
    NixStoreLink { target: String, hash: String, path_within_derivation: String },
}

/// A symbolic link's state with its texts taken as character sequences.
pub enum SymlinkView {
    Link { target: Seq<char>, broken: bool },
    NixStoreLink { target: Seq<char>, hash: Seq<char>, path_within_derivation: Seq<char> },
}

impl DeepView for SymlinkState {
    type V = SymlinkView;

    open spec fn deep_view(&self) -> SymlinkView {
        match self {
            SymlinkState::Link { target, broken } => SymlinkView::Link {
                target: target@,
                broken: *broken,
            },
            SymlinkState::NixStoreLink { target, hash, path_within_derivation } =>
                SymlinkView::NixStoreLink {
                target: target@,
                hash: hash@,
                path_within_derivation: path_within_derivation@,
            },
        }
    }
}

/// The text before and after the first `-` in `s`, if it has one.
pub open spec fn split_once_dash(s: Seq<char>) -> Option<(Seq<char>, Seq<char>)>
    decreases s.len(),
{
    if s.len() == 0 {
        None
    } else if s[0] == '-' {
        Some((Seq::empty(), s.drop_first()))
    } else {
        match split_once_dash(s.drop_first()) {
            Some((h, t)) => Some((seq![s[0]] + h, t)),
            None => None,
        }
    }
}

proof fn lemma_split_once_dash_at(s: Seq<char>, i: int)
    requires
        0 <= i < s.len(),
        s[i] == '-',
        forall|j: int| 0 <= j < i ==> s[j] != '-',
    ensures
        split_once_dash(s) == Some((s.take(i), s.skip(i + 1))),
    decreases i,
{
    if i == 0 {
        assert(s.take(0) =~= Seq::<char>::empty());
        assert(s.skip(1) =~= s.drop_first());
    } else {
        lemma_split_once_dash_at(s.drop_first(), i - 1);
        assert(seq![s[0]] + s.drop_first().take(i - 1) =~= s.take(i));
        assert(s.drop_first().skip(i) =~= s.skip(i + 1));
    }
}

proof fn lemma_split_once_dash_none(s: Seq<char>)
    requires
        forall|j: int| 0 <= j < s.len() ==> s[j] != '-',
    ensures
        split_once_dash(s) is None,
    decreases s.len(),
{
    if s.len() > 0 {
        lemma_split_once_dash_none(s.drop_first());
    }
}

/// Splits `s` at its first `-`, like `str::split_once("-")`.
fn split_once_dash_exec(s: &String) -> (r: Option<(String, String)>)
    ensures
        match r {
            Some((h, t)) => split_once_dash(s@) == Some((h@, t@)),
            None => split_once_dash(s@) is None,
        },
{
    let n = s.as_str().unicode_len();
    let mut i: usize = 0;
    while i < n
        invariant
            n == s@.len(),
            i <= n,
            forall|j: int| 0 <= j < i ==> s@[j] != '-',
        decreases n - i,
    {
        if s.as_str().get_char(i) == '-' {
            let head = s.as_str().substring_char(0, i).to_string();
            let tail = s.as_str().substring_char(i + 1, n).to_string();
            proof {
                lemma_split_once_dash_at(s@, i as int);
                assert(s@.subrange(0, i as int) =~= s@.take(i as int));
                assert(s@.subrange(i + 1, n as int) =~= s@.skip(i + 1));
            }
            return Some((head, tail));
        }
        i = i + 1;
    }
    proof {
        lemma_split_once_dash_none(s@);
    }
    None
}

/// What `Path::strip_prefix` gives for `path` and `base`, written back as text.
pub uninterp spec fn spec_path_strip_prefix(path: Seq<char>, base: Seq<char>) -> Option<Seq<char>>;

/// Calls `std::path::Path::strip_prefix` on `path` with `base` and renders the rest
/// with `Path::display`. The contract only names the result: it equals
/// `spec_path_strip_prefix` of the two texts (component-wise prefix removal is left unsaid).
#[verifier::external_body]
fn path_strip_prefix(path: &str, base: &str) -> (r: Option<String>)
    ensures
        match r {
            Some(rest) => spec_path_strip_prefix(path@, base@) == Some(rest@),
            None => spec_path_strip_prefix(path@, base@) is None,
        },
{
    match std::path::Path::new(path).strip_prefix(base) {
        Ok(rest) => Some(rest.display().to_string()),
        Err(_) => None,
    }
}

/// The pieces of `p` between slashes, in order, empty pieces included.
pub open spec fn slash_pieces(p: Seq<char>) -> Seq<Seq<char>>
    decreases p.len(),
{
    if p.len() == 0 {
        seq![Seq::<char>::empty()]
    } else {
        let rest = slash_pieces(p.drop_first());
        if p[0] == '/' {
            seq![Seq::<char>::empty()] + rest
        } else {
            rest.update(0, seq![p[0]] + rest[0])
        }
    }
}

/// The components of the path `p`, each as text, as `Path::components` gives them:
/// `/` for a root; `.` where a relative path begins with a `.` piece; then every
/// other piece between slashes, leaving out empty pieces (repeated and trailing
/// slashes) and `.` pieces.
pub open spec fn spec_path_components(p: Seq<char>) -> Seq<Seq<char>> {
    let pieces = slash_pieces(p);
    let rooted = p.len() > 0 && p[0] == '/';
    (if rooted {
        seq!["/"@]
    } else {
        Seq::empty()
    }) + (if !rooted && pieces[0] == "."@ {
        seq!["."@]
    } else {
        Seq::empty()
    }) + pieces.filter(|s: Seq<char>| s.len() > 0 && s != "."@)
}

/// Calls `std::path::Path::components` on `p` and writes each component out as text
/// (`Component::as_os_str`). The contract states the normalisation that the
/// documentation of `components` describes: repeated separators and `.` are
/// ignored except for a leading `.`, and a trailing separator is dropped.
#[verifier::external_body]
fn path_components(p: &str) -> (r: Vec<String>)
    ensures
        r.deep_view() == spec_path_components(p@),
{
    let mut r = Vec::new();
    for c in std::path::Path::new(p).components() {
        r.push(c.as_os_str().to_string_lossy().into_owned());
    }
    r
}

/// Whether `a` and `b` name the same path, component by component.
pub fn same_path(a: &String, b: &String) -> (r: bool)
    ensures
        r == (spec_path_components(a@) == spec_path_components(b@)),
{
    let ca = path_components(a.as_str());
    let cb = path_components(b.as_str());
    locations_equal(&ca, &cb)
}

/// Two link states are the same: of the same kind, with targets that name the same
/// path component by component (`a`, `a/` and `./a/.` do), and equal in every other field.
pub open spec fn same_link(a: SymlinkView, b: SymlinkView) -> bool {
    match (a, b) {
        (SymlinkView::Link { target: t1, broken: b1 }, SymlinkView::Link { target: t2, broken: b2 }) => {
            spec_path_components(t1) == spec_path_components(t2) && b1 == b2
        },
        (
            SymlinkView::NixStoreLink { target: t1, hash: h1, path_within_derivation: p1 },
            SymlinkView::NixStoreLink { target: t2, hash: h2, path_within_derivation: p2 },
        ) => spec_path_components(t1) == spec_path_components(t2) && h1 == h2 && p1 == p2,
        _ => false,
    }
}

/// Link states are equal when they are the same link (see `same_link`).
impl PartialEq for SymlinkState {
    fn eq(&self, other: &Self) -> (r: bool) {
        match (self, other) {
            (
                SymlinkState::Link { target: t1, broken: b1 },
                SymlinkState::Link { target: t2, broken: b2 },
            ) => *b1 == *b2 && same_path(t1, t2),
            (
                SymlinkState::NixStoreLink { target: t1, hash: h1, path_within_derivation: p1 },
                SymlinkState::NixStoreLink { target: t2, hash: h2, path_within_derivation: p2 },
            ) => *h1 == *h2 && *p1 == *p2 && same_path(t1, t2),
            _ => false,
        }
    }
}

impl vstd::std_specs::cmp::PartialEqSpecImpl for SymlinkState {
    open spec fn obeys_eq_spec() -> bool {
        true
    }

    open spec fn eq_spec(&self, other: &SymlinkState) -> bool {
        same_link(self.deep_view(), other.deep_view())
    }
}

/// The state of a link to `target` whose part below the nix store is `within_store`
/// (if it lies there at all): a store link when that part holds a `-` (the hash
/// comes before it), otherwise a plain link.
pub open spec fn spec_classify_link(
    target: Seq<char>,
    within_store: Option<Seq<char>>,
    target_exists: bool,
) -> SymlinkView {
    match within_store {
        Some(rest) => match split_once_dash(rest) {
            Some((hash, path)) => SymlinkView::NixStoreLink {
                target,
                hash,
                path_within_derivation: path,
            },
            None => SymlinkView::Link { target, broken: target_exists },
        },
        None => SymlinkView::Link { target, broken: target_exists },
    }
}

/// The state of a link read as `target`, with `target_exists` as observed.
pub open spec fn spec_link_state(target: Seq<char>, target_exists: bool) -> SymlinkView {
    spec_classify_link(target, spec_path_strip_prefix(target, "/nix/store"@), target_exists)
}

impl SymlinkState {
    /// The link's target.
    pub fn target(&self) -> (r: &String)
        ensures
            r == match self {
                SymlinkState::Link { target, .. } => target,
                SymlinkState::NixStoreLink { target, .. } => target,
            },
    {
        match self {
            SymlinkState::Link { target, .. } => target,
            SymlinkState::NixStoreLink { target, .. } => target,
        }
    }

    /// Classifies a link to `target`, given the part of it below the nix store.
    pub fn classify(target: String, within_store: Option<String>, target_exists: bool) -> (r:
        SymlinkState)
        ensures
            r.deep_view() == spec_classify_link(
                target@,
                match within_store {
                    Some(s) => Some(s@),
                    None => None,
                },
                target_exists,
            ),
    {
        match within_store {
            Some(rest) => match split_once_dash_exec(&rest) {
                Some((hash, path_within_derivation)) => SymlinkState::NixStoreLink {
                    target,
                    hash,
                    path_within_derivation,
                },
                None => SymlinkState::Link { broken: target_exists, target },
            },
            None => SymlinkState::Link { broken: target_exists, target },
        }
    }

    /// The state of the link at `value`.
    pub fn from_path(value: &SymlinkPath) -> (r: SymlinkState)
        requires
            value.wf(),
        ensures
            r.deep_view() == spec_link_state(
                value.0.link->Some_0.target@,
                value.0.link->Some_0.target_exists,
            ),
    {
        let target = value.target();
        let exists = match &value.0.link {
            Some(link) => link.target_exists,
            None => false,
        };
        let within_store = path_strip_prefix(target.as_str(), "/nix/store");
        SymlinkState::classify(target, within_store, exists)
    }
}

/// The two states of a link that exists on both sides.
#[derive(Clone, Debug, PartialEq, Eq)]
pub struct SymlinkDiff {
    pub before: SymlinkState,
    pub after: SymlinkState,
}

impl DeepView for SymlinkDiff {
    type V = (SymlinkView, SymlinkView);

    open spec fn deep_view(&self) -> Self::V {
        (self.before.deep_view(), self.after.deep_view())
    }
}

impl SymlinkDiff {
    /// Reads the states of two links.
    pub fn diff_paths(before: &SymlinkPath, after: &SymlinkPath) -> (r: Self)
        requires
            before.wf(),
            after.wf(),
        ensures
            r.before.deep_view() == spec_link_state(
                before.0.link->Some_0.target@,
                before.0.link->Some_0.target_exists,
            ),
            r.after.deep_view() == spec_link_state(
                after.0.link->Some_0.target@,
                after.0.link->Some_0.target_exists,
            ),
    {
        SymlinkDiff { before: SymlinkState::from_path(before), after: SymlinkState::from_path(after) }
    }
}

// ---------------------------------------------------------------------------
// Directories
// ---------------------------------------------------------------------------

/// The entries of a directory on both sides, sorted by name: each name with the
/// full path of the entry on the side or sides where it exists.
#[derive(Clone, Debug, PartialEq, Eq)]
pub struct DirectoryDiff {
    pub entries: Vec<(String, LeftRightBoth<String>)>,
}

impl DeepView for DirectoryDiff {
    type V = Seq<(Seq<char>, LeftRightBoth<String>)>;

    open spec fn deep_view(&self) -> Self::V {
        keyed(self.entries@)
    }
}

/// The listing of an optional directory; no directory lists nothing.
pub open spec fn listing_of(dir: Option<&DirectoryPath>) -> Seq<(String, String)> {
    match dir {
        Some(d) => d.0.entries->Some_0@,
        None => Seq::empty(),
    }
}

/// The entries of a directory that was listed as `before` and as `after`: every
/// name of either listing, in strictly ascending order, with its path on each side.
pub open spec fn spec_dir_entries(before: Seq<(String, String)>, after: Seq<(String, String)>) -> Seq<
    (Seq<char>, LeftRightBoth<String>),
> {
    choose|s: Seq<(Seq<char>, LeftRightBoth<String>)>|
        keys_strictly_sorted(s) && assoc_map(s) == merge_maps(
            assoc_map(keyed(before)),
            assoc_map(keyed(after)),
        )
}

impl DirectoryDiff {
    /// Compares the listings of a directory on the two sides; a missing side lists nothing.
    pub fn diff_paths(before: Option<&DirectoryPath>, after: Option<&DirectoryPath>) -> (r:
        DirectoryDiff)
        requires
            before matches Some(d) ==> d.wf(),
            after matches Some(d) ==> d.wf(),
        ensures
            r.deep_view() == spec_dir_entries(listing_of(before), listing_of(after)),
            keys_strictly_sorted(r.deep_view()),
            assoc_map(r.deep_view()) == merge_maps(
                assoc_map(keyed(listing_of(before))),
                assoc_map(keyed(listing_of(after))),
            ),
    {
        let before_map = match before {
            Some(dir) => dir.read_dir(),
            None => Vec::new(),
        };
        let after_map = match after {
            Some(dir) => dir.read_dir(),
            None => Vec::new(),
        };
        assert(before_map@ == listing_of(before));
        assert(after_map@ == listing_of(after));
        let items = hashmap_diff(before_map, after_map);
        proof {
            let s = keyed(items@);
            let c = spec_dir_entries(listing_of(before), listing_of(after));
            assert(keys_strictly_sorted(c) && assoc_map(c) == merge_maps(
                assoc_map(keyed(listing_of(before))),
                assoc_map(keyed(listing_of(after))),
            ));
            lemma_sorted_same_map_equal(s, c);
        }
        DirectoryDiff { entries: items }
    }
}

/// The value seen from the other side: left and right change places.
pub open spec fn swap_sides<T>(x: LeftRightBoth<T>) -> LeftRightBoth<T> {
    match x {
        LeftRightBoth::Left(p) => LeftRightBoth::Right(p),
        LeftRightBoth::Right(p) => LeftRightBoth::Left(p),
        LeftRightBoth::Both(p, q) => LeftRightBoth::Both(q, p),
    }
}

/// The entries of a directory comparison seen from the other side.
pub open spec fn swap_entries(s: Seq<(Seq<char>, LeftRightBoth<String>)>) -> Seq<
    (Seq<char>, LeftRightBoth<String>),
> {
    s.map_values(|e: (Seq<char>, LeftRightBoth<String>)| (e.0, swap_sides(e.1)))
}

proof fn lemma_assoc_map_swap(s: Seq<(Seq<char>, LeftRightBoth<String>)>)
    ensures
        assoc_map(swap_entries(s)) =~= Map::new(
            |k: Seq<char>| assoc_map(s).contains_key(k),
            |k: Seq<char>| swap_sides(assoc_map(s)[k]),
        ),
    decreases s.len(),
{
    if s.len() > 0 {
        lemma_assoc_map_swap(s.drop_last());
        assert(swap_entries(s).drop_last() =~= swap_entries(s.drop_last()));
    }
}

/// Comparing two listings the other way round gives the same entries with the
/// sides of each swapped. (`a` and `b` are the listings as maps, as the ensures
/// of `DirectoryDiff::diff_paths` give them; `s1` and `s2` are the two results.)
pub proof fn lemma_dir_entries_swap(
    s1: Seq<(Seq<char>, LeftRightBoth<String>)>,
    s2: Seq<(Seq<char>, LeftRightBoth<String>)>,
    a: Map<Seq<char>, String>,
    b: Map<Seq<char>, String>,
)
    requires
        keys_strictly_sorted(s1),
        assoc_map(s1) == merge_maps(a, b),
        keys_strictly_sorted(s2),
        assoc_map(s2) == merge_maps(b, a),
    ensures
        s2 == swap_entries(s1),
{
    let t = swap_entries(s1);
    assert(keys_strictly_sorted(t)) by {
        assert forall|i: int, j: int| 0 <= i < j < t.len() implies name_lt(#[trigger] t[i].0, #[trigger] t[j].0) by {
            assert(name_lt(s1[i].0, s1[j].0));
        }
    }
    lemma_assoc_map_swap(s1);
    assert(assoc_map(t) =~= merge_maps(b, a));
    lemma_sorted_same_map_equal(s2, t);
}

/// Comparing no listing with no listing gives no entries.
pub proof fn lemma_no_listings_no_entries(s: Seq<(Seq<char>, LeftRightBoth<String>)>)
    requires
        keys_strictly_sorted(s),
        assoc_map(s) == merge_maps(Map::<Seq<char>, String>::empty(), Map::<Seq<char>, String>::empty()),
    ensures
        s == Seq::<(Seq<char>, LeftRightBoth<String>)>::empty(),
{
    if s.len() > 0 {
        lemma_sorted_distinct(s);
        lemma_assoc_map_index(s, s.len() - 1);
        assert(!merge_maps(Map::<Seq<char>, String>::empty(), Map::<Seq<char>, String>::empty()).contains_key(
            s.last().0,
        ));
    }
    assert(s =~= Seq::<(Seq<char>, LeftRightBoth<String>)>::empty());
}

// ---------------------------------------------------------------------------
// Whole paths
// ---------------------------------------------------------------------------

/// The state of an entry that exists on one side only.
pub type TypedPathState = Typed<SymlinkState, DirectoryDiff, (), (), String>;

/// The difference between two entries of the same kind.
pub type TypedPathDiff = Typed<SymlinkDiff, DirectoryDiff, (), (), String>;

/// A state with its texts and lists taken by their views.
pub type StateView = Typed<SymlinkView, Seq<(Seq<char>, LeftRightBoth<String>)>, (), (), Seq<char>>;

/// A difference with its texts and lists taken by their views.
pub type DiffView = Typed<
    (SymlinkView, SymlinkView),
    Seq<(Seq<char>, LeftRightBoth<String>)>,
    (),
    (),
    Seq<char>,
>;

/// How an entry differs between the two sides.
#[derive(Clone, Debug, PartialEq, Eq)]
pub enum PathDiff {
    /// The entry was created, deleted, or replaced by an entry of another kind.
    Recreated { state: LeftRightBoth<TypedPathState> },
    /// The entry has the same kind on both sides.
    Modified(TypedPathDiff),
}

/// A path difference taken by its view.
pub enum PathDiffView {
    Recreated { state: LeftRightBoth<StateView> },
    Modified(DiffView),
}

impl DeepView for PathDiff {
    type V = PathDiffView;

    open spec fn deep_view(&self) -> PathDiffView {
        match self {
            PathDiff::Recreated { state } => PathDiffView::Recreated { state: state.deep_view() },
            PathDiff::Modified(d) => PathDiffView::Modified(d.deep_view()),
        }
    }
}

/// The state of an existing entry `p`, seen as created (`created`) or as deleted:
/// a directory lists its entries on the side where it exists.
pub open spec fn spec_state_of(p: TypedPath, created: bool) -> StateView {
    match p {
        Typed::Symlink(s) => Typed::Symlink(
            spec_link_state(s.0.link->Some_0.target@, s.0.link->Some_0.target_exists),
        ),
        Typed::Directory(d) => Typed::Directory(
            if created {
                spec_dir_entries(Seq::empty(), d.0.entries->Some_0@)
            } else {
                spec_dir_entries(d.0.entries->Some_0@, Seq::empty())
            },
        ),
        Typed::File(_) => Typed::File(()),
        Typed::FilesystemBoundary(_) => Typed::FilesystemBoundary(()),
        Typed::Unknown(_) => Typed::Unknown("Unknown file path type"@),
    }
}

/// The difference between an entry seen as `before` and as `after` (either may be
/// missing): nothing when both are missing; a creation or deletion when one is;
/// a modification when both have the same kind; a recreation otherwise.
pub open spec fn spec_calculate_diff(before: Option<TypedPath>, after: Option<TypedPath>) -> Option<
    PathDiffView,
> {
    match (before, after) {
        (None, None) => None,
        (None, Some(a)) => Some(
            PathDiffView::Recreated { state: LeftRightBoth::Right(spec_state_of(a, true)) },
        ),
        (Some(b), None) => Some(
            PathDiffView::Recreated { state: LeftRightBoth::Left(spec_state_of(b, false)) },
        ),
        (Some(b), Some(a)) => Some(
            match (b, a) {
                (Typed::Symlink(bs), Typed::Symlink(as_)) => PathDiffView::Modified(
                    Typed::Symlink(
                        (
                            spec_link_state(
                                bs.0.link->Some_0.target@,
                                bs.0.link->Some_0.target_exists,
                            ),
                            spec_link_state(
                                as_.0.link->Some_0.target@,
                                as_.0.link->Some_0.target_exists,
                            ),
                        ),
                    ),
                ),
                (Typed::File(_), Typed::File(_)) => PathDiffView::Modified(Typed::File(())),
                (Typed::Directory(bd), Typed::Directory(ad)) => PathDiffView::Modified(
                    Typed::Directory(spec_dir_entries(bd.0.entries->Some_0@, ad.0.entries->Some_0@)),
                ),
                (Typed::FilesystemBoundary(_), Typed::FilesystemBoundary(_)) => PathDiffView::Modified(
                    Typed::FilesystemBoundary(()),
                ),
                (Typed::Unknown(_), Typed::Unknown(_)) => PathDiffView::Modified(
                    Typed::Unknown("Unknown"@),
                ),
                (b, a) => PathDiffView::Recreated {
                    state: LeftRightBoth::Both(spec_state_of(b, false), spec_state_of(a, true)),
                },
            },
        ),
    }
}

/// Where a symbolic link points.
pub open spec fn spec_link_target(s: SymlinkView) -> Seq<char> {
    match s {
        SymlinkView::Link { target, .. } => target,
        SymlinkView::NixStoreLink { target, .. } => target,
    }
}

/// How the two sides are compared: nothing on either side gives nothing; an entry
/// on one side only is deleted (kept on the left) or created (kept on the right);
/// entries of one kind on both sides are modified, of different kinds replaced. A
/// link on both sides keeps the before side's target first and the after side's second.
pub proof fn lemma_diff_sides(before: Option<TypedPath>, after: Option<TypedPath>)
    ensures
        spec_calculate_diff(before, after) is None <==> (before is None && after is None),
        (before is None && after is Some) ==> spec_calculate_diff(before, after) matches Some(
            PathDiffView::Recreated { state: LeftRightBoth::Right(_) },
        ),
        (before is Some && after is None) ==> spec_calculate_diff(before, after) matches Some(
            PathDiffView::Recreated { state: LeftRightBoth::Left(_) },
        ),
        (before matches Some(b) && after matches Some(a) && typed_path_kind(b) == typed_path_kind(a))
            ==> spec_calculate_diff(before, after) matches Some(PathDiffView::Modified(_)),
        (before matches Some(b) && after matches Some(a) && typed_path_kind(b) != typed_path_kind(a))
            ==> spec_calculate_diff(before, after) matches Some(
            PathDiffView::Recreated { state: LeftRightBoth::Both(_, _) },
        ),
        spec_calculate_diff(before, after) matches Some(PathDiffView::Recreated { state: LeftRightBoth::Both(x, y) })
            ==> spec_state_file_kind(x) == typed_path_kind(before->Some_0) && spec_state_file_kind(y)
            == typed_path_kind(after->Some_0),
        spec_calculate_diff(before, after) matches Some(PathDiffView::Recreated { state: LeftRightBoth::Left(x) })
            ==> spec_state_file_kind(x) == typed_path_kind(before->Some_0),
        spec_calculate_diff(before, after) matches Some(PathDiffView::Recreated { state: LeftRightBoth::Right(y) })
            ==> spec_state_file_kind(y) == typed_path_kind(after->Some_0),
        spec_calculate_diff(before, after) matches Some(PathDiffView::Modified(d)) ==> spec_state_file_kind(d)
            == typed_path_kind(before->Some_0),
        (before matches Some(Typed::Symlink(_)) && after matches Some(Typed::Symlink(_))) ==> ({
            let bt = before->Some_0->Symlink_0.0.link->Some_0.target@;
            let at = after->Some_0->Symlink_0.0.link->Some_0.target@;
            spec_calculate_diff(before, after) matches Some(PathDiffView::Modified(Typed::Symlink((x, y))))
                && spec_link_target(x) == bt && spec_link_target(y) == at
        }),
{
}

/// Compares an entry seen as `before` and as `after`; `None` when it exists on neither side.
pub fn calculate_diff(before: Option<TypedPath>, after: Option<TypedPath>) -> (r: Option<PathDiff>)
    requires
        before matches Some(b) ==> typed_path_wf(b),
        after matches Some(a) ==> typed_path_wf(a),
    ensures
        match r {
            Some(d) => spec_calculate_diff(before, after) == Some(d.deep_view()),
            None => spec_calculate_diff(before, after) is None,
        },
        r is None <==> (before is None && after is None),
        (before matches Some(Typed::Symlink(_)) && after matches Some(Typed::Symlink(_))) ==> ({
            let bt = before->Some_0->Symlink_0.0.link->Some_0.target@;
            let at = after->Some_0->Symlink_0.0.link->Some_0.target@;
            r matches Some(PathDiff::Modified(Typed::Symlink(sd))) && spec_link_target(sd.before.deep_view())
                == bt && spec_link_target(sd.after.deep_view()) == at
        }),
        (before matches Some(Typed::Directory(_)) && after matches Some(Typed::Directory(_))) ==> ({
            let bl = before->Some_0->Directory_0.0.entries->Some_0@;
            let al = after->Some_0->Directory_0.0.entries->Some_0@;
            r matches Some(PathDiff::Modified(Typed::Directory(dd))) && assoc_map(dd.deep_view()) == merge_maps(
                assoc_map(keyed(bl)),
                assoc_map(keyed(al)),
            )
        }),
{
    match (before, after) {
        (None, None) => None,
        (None, Some(after_ft)) => Some(
            PathDiff::Recreated { state: LeftRightBoth::Right(from_nothing(&after_ft)) },
        ),
        (Some(before_ft), None) => Some(
            PathDiff::Recreated { state: LeftRightBoth::Left(to_nothing(&before_ft)) },
        ),
        (Some(before_ft), Some(after_ft)) => Some(
            match (before_ft, after_ft) {
                (Typed::Symlink(before_ft), Typed::Symlink(after_ft)) => PathDiff::Modified(
                    Typed::Symlink(SymlinkDiff::diff_paths(&before_ft, &after_ft)),
                ),
                (Typed::File(_), Typed::File(_)) => PathDiff::Modified(Typed::File(())),
                (Typed::Directory(before), Typed::Directory(after)) => PathDiff::Modified(
                    Typed::Directory(DirectoryDiff::diff_paths(Some(&before), Some(&after))),
                ),
                (Typed::FilesystemBoundary(_), Typed::FilesystemBoundary(_)) => PathDiff::Modified(
                    Typed::FilesystemBoundary(()),
                ),
                (Typed::Unknown(_), Typed::Unknown(_)) => PathDiff::Modified(
                    Typed::Unknown("Unknown".to_string()),
                ),
                (before, after) => PathDiff::Recreated {
                    state: LeftRightBoth::Both(to_nothing(&before), from_nothing(&after)),
                },
            },
        ),
    }
}

/// The kind of entry a state is about.
pub open spec fn spec_state_file_kind<A, B, C, D, E>(s: Typed<A, B, C, D, E>) -> FileType {
    match s {
        Typed::Symlink(_) => FileType::Symlink,
        Typed::Directory(_) => FileType::Directory,
        Typed::File(_) => FileType::File,
        Typed::FilesystemBoundary(_) => FileType::FilesystemBoundary,
        Typed::Unknown(_) => FileType::Unknown,
    }
}

/// The state of an entry that exists on the after side only.
pub fn from_nothing(path: &TypedPath) -> (r: TypedPathState)
    requires
        typed_path_wf(*path),
    ensures
        r.deep_view() == spec_state_of(*path, true),
        spec_state_file_kind(r.deep_view()) == typed_path_kind(*path),
        path matches Typed::Directory(_) ==> ({
            let l = path->Directory_0.0.entries->Some_0@;
            r matches Typed::Directory(dd) && assoc_map(dd.deep_view()) == merge_maps(
                Map::<Seq<char>, String>::empty(),
                assoc_map(keyed(l)),
            )
        }),
        path matches Typed::Symlink(_) ==> (r matches Typed::Symlink(st) && spec_link_target(
            st.deep_view(),
        ) == path->Symlink_0.0.link->Some_0.target@),
{
    match path {
        Typed::Directory(dir_path) => Typed::Directory(DirectoryDiff::diff_paths(None, Some(dir_path))),
        Typed::Symlink(symlink_path) => Typed::Symlink(SymlinkState::from_path(symlink_path)),
        Typed::File(_) => Typed::File(()),
        Typed::FilesystemBoundary(_) => Typed::FilesystemBoundary(()),
        Typed::Unknown(_) => Typed::Unknown("Unknown file path type".to_string()),
    }
}

/// The state of an entry that exists on the before side only.
pub fn to_nothing(path: &TypedPath) -> (r: TypedPathState)
    requires
        typed_path_wf(*path),
    ensures
        r.deep_view() == spec_state_of(*path, false),
        spec_state_file_kind(r.deep_view()) == typed_path_kind(*path),
        path matches Typed::Directory(_) ==> ({
            let l = path->Directory_0.0.entries->Some_0@;
            r matches Typed::Directory(dd) && assoc_map(dd.deep_view()) == merge_maps(
                assoc_map(keyed(l)),
                Map::<Seq<char>, String>::empty(),
            )
        }),
        path matches Typed::Symlink(_) ==> (r matches Typed::Symlink(st) && spec_link_target(
            st.deep_view(),
        ) == path->Symlink_0.0.link->Some_0.target@),
{
    match path {
        Typed::Directory(dir_path) => Typed::Directory(DirectoryDiff::diff_paths(Some(dir_path), None)),
        Typed::Symlink(symlink_path) => Typed::Symlink(SymlinkState::from_path(symlink_path)),
        Typed::File(_) => Typed::File(()),
        Typed::FilesystemBoundary(_) => Typed::FilesystemBoundary(()),
        Typed::Unknown(_) => Typed::Unknown("Unknown file path type".to_string()),
    }
}

// ---------------------------------------------------------------------------
// The cache of assessed differences
// ---------------------------------------------------------------------------

/// A place in the compared trees, as the names of its components below the roots.
pub type Location = Vec<String>;

/// What was seen at one location on the two sides; `None` where nothing exists.
#[derive(Debug, PartialEq, Eq)]
pub struct Observation {
    pub before: Option<ExistentPath>,
    pub after: Option<ExistentPath>,
}

impl Observation {
    /// Both sides carry the observations their kinds call for.
    pub open spec fn wf(&self) -> bool {
        &&& (self.before matches Some(p) ==> p.wf())
        &&& (self.after matches Some(p) ==> p.wf())
    }
}

/// The outcome of asking for the difference at a location.
#[derive(Debug, PartialEq, Eq)]
pub enum DiffStatus {
    /// The assessments are in the cache.
    Ready,
    /// Nothing exists at the location on either side.
    Nonexistent,
    /// This location has to be observed first.
    NeedsObservation(Location),
    /// The change at this location is of a kind that has no assessment yet.
    Unimplemented(Location),
    /// This entry was listed in its directory but exists on neither side.
    ChildVanished(Location),
}

/// The location of entry `name` inside `loc`.
pub open spec fn spec_child(loc: Seq<Seq<char>>, name: Seq<char>) -> Seq<Seq<char>> {
    loc.push(name)
}

/// Optional typed path of an optional existent path.
pub open spec fn opt_typed(p: Option<ExistentPath>, dev: Option<u64>) -> Option<TypedPath> {
    match p {
        Some(p) => Some(spec_typed(p, dev)),
        None => None,
    }
}

/// The existent path inside an optional typed path.
pub open spec fn opt_inner(t: Option<TypedPath>) -> Option<ExistentPath> {
    match t {
        Some(t) => Some(crate::typed_path::typed_path_inner(t)),
        None => None,
    }
}

/// The difference that an observation shows, with the roots on devices `roots`.
pub open spec fn spec_observed_diff(o: Observation, roots: (Option<u64>, Option<u64>)) -> Option<
    PathDiffView,
> {
    spec_calculate_diff(opt_typed(o.before, roots.0), opt_typed(o.after, roots.1))
}

/// Some entry of the directory at `loc` has a cached assessment that is meaningful.
pub open spec fn children_meaningful(
    d: Differ,
    loc: Seq<Seq<char>>,
    entries: Seq<(Seq<char>, LeftRightBoth<String>)>,
) -> bool {
    exists|j: int|
        0 <= j < entries.len() && #[trigger] d.cache_map().contains_key(spec_child(loc, entries[j].0))
            && has_meaningful(d.cache_map()[spec_child(loc, entries[j].0)])
}

/// Every entry of the directory at `loc` has cached assessments.
pub open spec fn all_children_cached(
    d: Differ,
    loc: Seq<Seq<char>>,
    entries: Seq<(Seq<char>, LeftRightBoth<String>)>,
) -> bool {
    forall|j: int| 0 <= j < entries.len() ==> #[trigger] d.cache_map().contains_key(spec_child(loc, entries[j].0))
}

/// The cached assessments at `loc` are those of its observed difference: a
/// modified directory is meaningful exactly when a cached entry below it is, and
/// when it is not, every entry below it has been assessed.
pub open spec fn cached_ok(d: Differ, loc: Seq<Seq<char>>) -> bool {
    match d.observed_diff(loc) {
        Some(pd) => !spec_unimplemented(pd) && match pd {
            PathDiffView::Modified(Typed::Directory(e)) => {
                let m = children_meaningful(d, loc, e);
                &&& d.cache_map()[loc] == spec_assess(pd, m)
                &&& (m || all_children_cached(d, loc, e))
            },
            _ => d.cache_map()[loc] == spec_assess(pd, false),
        },
        None => false,
    }
}

/// Where grading gets stuck: a location that has to be observed first, one whose
/// change has no assessment yet, or an entry that its directory lists but that
/// exists on neither side.
pub enum Stuck {
    Unobserved(Seq<Seq<char>>),
    Unassessable(Seq<Seq<char>>),
    Vanished(Seq<Seq<char>>),
}

/// Where a status says grading got stuck, if it says so.
pub open spec fn status_stuck(s: DiffStatus) -> Option<Stuck> {
    match s {
        DiffStatus::NeedsObservation(l) => Some(Stuck::Unobserved(l.deep_view())),
        DiffStatus::Unimplemented(l) => Some(Stuck::Unassessable(l.deep_view())),
        DiffStatus::ChildVanished(l) => Some(Stuck::Vanished(l.deep_view())),
        _ => None,
    }
}

/// The assessments at `loc` as the observations `obs` decide them (`None` where
/// nothing exists on either side), or where grading them gets stuck. The roots lie
/// on the devices `roots`; no observed location is longer than `depth`.
pub open spec fn walk(
    obs: Map<Seq<Seq<char>>, Observation>,
    roots: (Option<u64>, Option<u64>),
    depth: nat,
    loc: Seq<Seq<char>>,
) -> Result<Option<Seq<AssessmentView>>, Stuck>
    decreases depth - loc.len(), 2int, 0int,
{
    if !obs.contains_key(loc) {
        Err(Stuck::Unobserved(loc))
    } else {
        match spec_observed_diff(obs[loc], roots) {
            None => Ok(None),
            Some(pd) => match grade_diff(obs, roots, depth, loc, pd) {
                Ok(v) => Ok(Some(v)),
                Err(s) => Err(s),
            },
        }
    }
}

/// The assessments of the difference `pd` found at `loc`, or where grading gets
/// stuck: a modified directory is graded by its entries (see `walk_entries`).
pub open spec fn grade_diff(
    obs: Map<Seq<Seq<char>>, Observation>,
    roots: (Option<u64>, Option<u64>),
    depth: nat,
    loc: Seq<Seq<char>>,
    pd: PathDiffView,
) -> Result<Seq<AssessmentView>, Stuck>
    decreases depth - loc.len(), 1int, 0int,
{
    if spec_unimplemented(pd) {
        Err(Stuck::Unassessable(loc))
    } else {
        match pd {
            PathDiffView::Modified(Typed::Directory(e)) => match walk_entries(
                obs,
                roots,
                depth,
                loc,
                e,
                0,
            ) {
                Ok(m) => Ok(spec_assess(pd, m)),
                Err(s) => Err(s),
            },
            _ => Ok(spec_assess(pd, false)),
        }
    }
}

/// Whether an entry of `e` below `loc`, from the `j`-th on, has a meaningful
/// assessment, looking at the entries in order and stopping at the first that
/// has; or where that gets stuck.
pub open spec fn walk_entries(
    obs: Map<Seq<Seq<char>>, Observation>,
    roots: (Option<u64>, Option<u64>),
    depth: nat,
    loc: Seq<Seq<char>>,
    e: Seq<(Seq<char>, LeftRightBoth<String>)>,
    j: int,
) -> Result<bool, Stuck>
    decreases depth - loc.len(), 0int, e.len() - j,
{
    if j >= e.len() {
        Ok(false)
    } else {
        let c = spec_child(loc, e[j].0);
        if !obs.contains_key(c) || loc.len() >= depth {
            Err(Stuck::Unobserved(c))
        } else {
            match walk(obs, roots, depth, c) {
                Ok(Some(v)) => if has_meaningful(v) {
                    Ok(true)
                } else {
                    walk_entries(obs, roots, depth, loc, e, j + 1)
                },
                Ok(None) => Err(Stuck::Vanished(c)),
                Err(s) => Err(s),
            }
        }
    }
}

/// A walk that succeeds gives the same result once more is observed.
proof fn lemma_walk_grows(
    obs: Map<Seq<Seq<char>>, Observation>,
    obs2: Map<Seq<Seq<char>>, Observation>,
    roots: (Option<u64>, Option<u64>),
    depth: nat,
    depth2: nat,
    loc: Seq<Seq<char>>,
)
    requires
        obs.submap_of(obs2),
        depth <= depth2,
        walk(obs, roots, depth, loc) is Ok,
    ensures
        walk(obs2, roots, depth2, loc) == walk(obs, roots, depth, loc),
    decreases depth - loc.len(), 2int, 0int,
{
    assert(obs.dom().contains(loc));
    assert(obs2.dom().contains(loc));
    assert(obs2[loc] == obs[loc]);
    match spec_observed_diff(obs[loc], roots) {
        None => {},
        Some(pd) => {
            lemma_grade_grows(obs, obs2, roots, depth, depth2, loc, pd);
        },
    }
}

proof fn lemma_grade_grows(
    obs: Map<Seq<Seq<char>>, Observation>,
    obs2: Map<Seq<Seq<char>>, Observation>,
    roots: (Option<u64>, Option<u64>),
    depth: nat,
    depth2: nat,
    loc: Seq<Seq<char>>,
    pd: PathDiffView,
)
    requires
        obs.submap_of(obs2),
        depth <= depth2,
        grade_diff(obs, roots, depth, loc, pd) is Ok,
    ensures
        grade_diff(obs2, roots, depth2, loc, pd) == grade_diff(obs, roots, depth, loc, pd),
    decreases depth - loc.len(), 1int, 0int,
{
    if !spec_unimplemented(pd) {
        match pd {
            PathDiffView::Modified(Typed::Directory(e)) => {
                lemma_entries_grow(obs, obs2, roots, depth, depth2, loc, e, 0);
            },
            _ => {},
        }
    }
}

proof fn lemma_entries_grow(
    obs: Map<Seq<Seq<char>>, Observation>,
    obs2: Map<Seq<Seq<char>>, Observation>,
    roots: (Option<u64>, Option<u64>),
    depth: nat,
    depth2: nat,
    loc: Seq<Seq<char>>,
    e: Seq<(Seq<char>, LeftRightBoth<String>)>,
    j: int,
)
    requires
        obs.submap_of(obs2),
        depth <= depth2,
        walk_entries(obs, roots, depth, loc, e, j) is Ok,
    ensures
        walk_entries(obs2, roots, depth2, loc, e, j) == walk_entries(obs, roots, depth, loc, e, j),
    decreases depth - loc.len(), 0int, e.len() - j,
{
    if j < e.len() {
        let c = spec_child(loc, e[j].0);
        assert(obs.dom().contains(c));
        assert(obs2.dom().contains(c));
        lemma_walk_grows(obs, obs2, roots, depth, depth2, c);
        match walk(obs, roots, depth, c) {
            Ok(Some(v)) => {
                if !has_meaningful(v) {
                    lemma_entries_grow(obs, obs2, roots, depth, depth2, loc, e, j + 1);
                }
            },
            _ => {},
        }
    }
}

/// The locations whose assessments grading `loc` computes when nothing is cached:
/// every location that the walk (see `walk`) reaches and grades without getting stuck.
pub open spec fn computed(
    obs: Map<Seq<Seq<char>>, Observation>,
    roots: (Option<u64>, Option<u64>),
    depth: nat,
    loc: Seq<Seq<char>>,
) -> Set<Seq<Seq<char>>>
    decreases depth - loc.len(), 2int, 0int,
{
    if !obs.contains_key(loc) {
        Set::empty()
    } else {
        match spec_observed_diff(obs[loc], roots) {
            None => Set::empty(),
            Some(pd) => if spec_unimplemented(pd) {
                Set::empty()
            } else {
                let below = match pd {
                    PathDiffView::Modified(Typed::Directory(e)) => computed_entries(
                        obs,
                        roots,
                        depth,
                        loc,
                        e,
                        0,
                    ),
                    _ => Set::empty(),
                };
                if walk(obs, roots, depth, loc) is Ok {
                    below.insert(loc)
                } else {
                    below
                }
            },
        }
    }
}

/// The locations that grading the entries of `e` below `loc`, from the `j`-th on,
/// computes: those of each entry in order, up to the first entry that matters or
/// on which grading gets stuck.
pub open spec fn computed_entries(
    obs: Map<Seq<Seq<char>>, Observation>,
    roots: (Option<u64>, Option<u64>),
    depth: nat,
    loc: Seq<Seq<char>>,
    e: Seq<(Seq<char>, LeftRightBoth<String>)>,
    j: int,
) -> Set<Seq<Seq<char>>>
    decreases depth - loc.len(), 0int, e.len() - j,
{
    if j >= e.len() {
        Set::empty()
    } else {
        let c = spec_child(loc, e[j].0);
        if !obs.contains_key(c) || loc.len() >= depth {
            Set::empty()
        } else {
            let rest = match walk(obs, roots, depth, c) {
                Ok(Some(v)) => if has_meaningful(v) {
                    Set::empty()
                } else {
                    computed_entries(obs, roots, depth, loc, e, j + 1)
                },
                _ => Set::empty(),
            };
            computed(obs, roots, depth, c).union(rest)
        }
    }
}

/// A location whose walk succeeds computes the same locations once more is observed.
proof fn lemma_computed_grows(
    obs: Map<Seq<Seq<char>>, Observation>,
    obs2: Map<Seq<Seq<char>>, Observation>,
    roots: (Option<u64>, Option<u64>),
    depth: nat,
    depth2: nat,
    loc: Seq<Seq<char>>,
)
    requires
        obs.submap_of(obs2),
        depth <= depth2,
        walk(obs, roots, depth, loc) is Ok,
    ensures
        computed(obs2, roots, depth2, loc) == computed(obs, roots, depth, loc),
    decreases depth - loc.len(), 2int, 0int,
{
    assert(obs.dom().contains(loc));
    assert(obs2.dom().contains(loc));
    assert(obs2[loc] == obs[loc]);
    lemma_walk_grows(obs, obs2, roots, depth, depth2, loc);
    match spec_observed_diff(obs[loc], roots) {
        Some(PathDiffView::Modified(Typed::Directory(e))) => {
            lemma_computed_entries_grow(obs, obs2, roots, depth, depth2, loc, e, 0);
        },
        _ => {},
    }
}

proof fn lemma_computed_entries_grow(
    obs: Map<Seq<Seq<char>>, Observation>,
    obs2: Map<Seq<Seq<char>>, Observation>,
    roots: (Option<u64>, Option<u64>),
    depth: nat,
    depth2: nat,
    loc: Seq<Seq<char>>,
    e: Seq<(Seq<char>, LeftRightBoth<String>)>,
    j: int,
)
    requires
        obs.submap_of(obs2),
        depth <= depth2,
        walk_entries(obs, roots, depth, loc, e, j) is Ok,
    ensures
        computed_entries(obs2, roots, depth2, loc, e, j) == computed_entries(obs, roots, depth, loc, e, j),
    decreases depth - loc.len(), 0int, e.len() - j,
{
    if j < e.len() {
        let c = spec_child(loc, e[j].0);
        assert(obs.dom().contains(c));
        assert(obs2.dom().contains(c));
        lemma_walk_grows(obs, obs2, roots, depth, depth2, c);
        lemma_computed_grows(obs, obs2, roots, depth, depth2, c);
        match walk(obs, roots, depth, c) {
            Ok(Some(v)) => {
                if !has_meaningful(v) {
                    lemma_computed_entries_grow(obs, obs2, roots, depth, depth2, loc, e, j + 1);
                }
            },
            _ => {},
        }
    }
}

/// Everything the result at `loc` depends on has been observed and can be
/// assessed: `loc` is observed, something exists there, its change is of a kind
/// that has an assessment, and for a modified directory the same holds of every
/// entry it lists, recursively. (`depth` bounds the length of observed locations.)
pub open spec fn assessable(
    obs: Map<Seq<Seq<char>>, Observation>,
    roots: (Option<u64>, Option<u64>),
    depth: nat,
    loc: Seq<Seq<char>>,
) -> bool
    decreases depth - loc.len(), 1int, 0int,
{
    &&& obs.contains_key(loc)
    &&& match spec_observed_diff(obs[loc], roots) {
        Some(pd) => !spec_unimplemented(pd) && match pd {
            PathDiffView::Modified(Typed::Directory(e)) => entries_assessable_from(obs, roots, depth, loc, e, 0),
            _ => true,
        },
        None => false,
    }
}

/// The entries that `e` lists below `loc`, from the `j`-th on, are assessable.
pub open spec fn entries_assessable_from(
    obs: Map<Seq<Seq<char>>, Observation>,
    roots: (Option<u64>, Option<u64>),
    depth: nat,
    loc: Seq<Seq<char>>,
    e: Seq<(Seq<char>, LeftRightBoth<String>)>,
    j: int,
) -> bool
    decreases depth - loc.len(), 0int, e.len() - j,
{
    if j >= e.len() {
        true
    } else {
        &&& loc.len() < depth
        &&& assessable(obs, roots, depth, spec_child(loc, e[j].0))
        &&& entries_assessable_from(obs, roots, depth, loc, e, j + 1)
    }
}

/// Every entry that `e` lists below `loc` is assessable.
pub open spec fn entries_assessable(
    obs: Map<Seq<Seq<char>>, Observation>,
    roots: (Option<u64>, Option<u64>),
    depth: nat,
    loc: Seq<Seq<char>>,
    e: Seq<(Seq<char>, LeftRightBoth<String>)>,
) -> bool {
    entries_assessable_from(obs, roots, depth, loc, e, 0)
}

/// An entry of a list whose entries are assessable is assessable.
pub proof fn lemma_entry_assessable(
    obs: Map<Seq<Seq<char>>, Observation>,
    roots: (Option<u64>, Option<u64>),
    depth: nat,
    loc: Seq<Seq<char>>,
    e: Seq<(Seq<char>, LeftRightBoth<String>)>,
    j: int,
    i: int,
)
    requires
        entries_assessable_from(obs, roots, depth, loc, e, j),
        0 <= j <= i < e.len(),
    ensures
        loc.len() < depth,
        assessable(obs, roots, depth, spec_child(loc, e[i].0)),
    decreases i - j,
{
    if j < i {
        lemma_entry_assessable(obs, roots, depth, loc, e, j + 1, i);
    }
}

/// What an unsuccessful lookup reports is so: a location to observe is not
/// observed yet; an unassessable or vanished location is observed as such.
pub open spec fn stuck_ok(d: Differ, s: DiffStatus) -> bool {
    match s {
        DiffStatus::NeedsObservation(l) => !d.obs_map().contains_key(l.deep_view()),
        DiffStatus::Unimplemented(l) => d.obs_map().contains_key(l.deep_view()) && (d.observed_diff(
            l.deep_view(),
        ) matches Some(pd) && spec_unimplemented(pd)),
        DiffStatus::ChildVanished(l) => d.obs_map().contains_key(l.deep_view())
            && d.observed_diff(l.deep_view()) is None,
        _ => false,
    }
}

/// The location an unsuccessful lookup reports.
pub open spec fn stuck_location(s: DiffStatus) -> Seq<Seq<char>> {
    match s {
        DiffStatus::NeedsObservation(l) => l.deep_view(),
        DiffStatus::Unimplemented(l) => l.deep_view(),
        DiffStatus::ChildVanished(l) => l.deep_view(),
        _ => Seq::empty(),
    }
}

/// `l` is an entry that its parent, observed as a modified directory, lists.
pub open spec fn listed_by_parent(d: Differ, l: Seq<Seq<char>>) -> bool {
    &&& l.len() > 0
    &&& d.obs_map().contains_key(l.drop_last())
    &&& d.observed_diff(l.drop_last()) matches Some(PathDiffView::Modified(Typed::Directory(e)))
        && exists|j: int| 0 <= j < e.len() && #[trigger] e[j].0 == l.last()
}

/// `l` is `loc` itself, or lies below it, reached through directories that list each step.
pub open spec fn reported_below(d: Differ, l: Seq<Seq<char>>, loc: Seq<Seq<char>>) -> bool {
    &&& l.len() >= loc.len()
    &&& l.take(loc.len() as int) == loc
    &&& l.len() > loc.len() ==> listed_by_parent(d, l)
}

/// `l` lies strictly below the directory at `loc` whose entries are `e`: an entry
/// of `e` itself, or further below, reached through directories that list each step.
pub open spec fn reported_in_dir(
    d: Differ,
    l: Seq<Seq<char>>,
    loc: Seq<Seq<char>>,
    e: Seq<(Seq<char>, LeftRightBoth<String>)>,
) -> bool {
    &&& l.len() > loc.len()
    &&& l.take(loc.len() as int) == loc
    &&& l.len() == loc.len() + 1 ==> exists|j: int| 0 <= j < e.len() && #[trigger] e[j].0 == l.last()
    &&& l.len() > loc.len() + 1 ==> listed_by_parent(d, l)
}

/// Computes the differences between two trees location by location, and keeps
/// the graded result of each location it has computed.
pub struct Differ {
    assessment_cache: Vec<(Location, Vec<Assessment>)>,
    observations: Vec<(Location, Observation)>,
    before_root_dev: Option<u64>,
    after_root_dev: Option<u64>,
    depth: usize,
}

/// The name the cache goes by where it is shared.
pub type DiffCache = Differ;

/// A copy of a location.
pub fn clone_location(loc: &Vec<String>) -> (r: Vec<String>)
    ensures
        r@ == loc@,
        r.deep_view() == loc.deep_view(),
{
    let mut r: Vec<String> = Vec::new();
    let mut i: usize = 0;
    while i < loc.len()
        invariant
            i <= loc.len(),
            r@ =~= loc@.take(i as int),
        decreases loc.len() - i,
    {
        r.push(loc[i].clone());
        assert(loc@.take(i + 1) =~= loc@.take(i as int).push(loc@[i as int]));
        i = i + 1;
    }
    assert(loc@.take(loc@.len() as int) =~= loc@);
    assert(r.deep_view() =~= loc.deep_view());
    r
}

/// Whether two locations name the same place.
pub fn locations_equal(a: &Vec<String>, b: &Vec<String>) -> (r: bool)
    ensures
        r == (a.deep_view() == b.deep_view()),
{
    if a.len() != b.len() {
        assert(a.deep_view().len() != b.deep_view().len());
        return false;
    }
    let mut i: usize = 0;
    while i < a.len()
        invariant
            a.len() == b.len(),
            i <= a.len(),
            forall|j: int| 0 <= j < i ==> a@[j]@ == b@[j]@,
        decreases a.len() - i,
    {
        if a[i] != b[i] {
            assert(a.deep_view()[i as int] != b.deep_view()[i as int]);
            return false;
        }
        i = i + 1;
    }
    assert(a.deep_view() =~= b.deep_view());
    true
}

/// A copy of what was seen at a path.
fn clone_existent(p: &ExistentPath) -> (r: ExistentPath)
    ensures
        r.path == p.path,
        r.meta == p.meta,
        r.link == p.link,
        r.entries is Some <==> p.entries is Some,
        r.entries is Some ==> r.entries->Some_0@ == p.entries->Some_0@,
{
    let link = match &p.link {
        Some(l) => Some(LinkInfo { target: l.target.clone(), target_exists: l.target_exists }),
        None => None,
    };
    let entries = match &p.entries {
        Some(e) => Some(crate::typed_path::clone_listing(e)),
        None => None,
    };
    ExistentPath { path: p.path.clone(), meta: p.meta, link, entries }
}

/// Copies of a path seen the same way give the same typed path up to the copied lists.
proof fn lemma_copies_diff_alike(b1: Option<ExistentPath>, b2: Option<ExistentPath>, a1: Option<ExistentPath>, a2: Option<ExistentPath>, roots: (Option<u64>, Option<u64>))
    requires
        copies(b1, b2),
        copies(a1, a2),
    ensures
        spec_calculate_diff(opt_typed(b1, roots.0), opt_typed(a1, roots.1)) == spec_calculate_diff(
            opt_typed(b2, roots.0),
            opt_typed(a2, roots.1),
        ),
{
}

/// `p` and `q` were seen the same way (the same link, and listings with the same entries).
pub open spec fn copies(p: Option<ExistentPath>, q: Option<ExistentPath>) -> bool {
    match (p, q) {
        (Some(p), Some(q)) => {
            &&& p.path == q.path
            &&& p.meta == q.meta
            &&& p.link == q.link
            &&& (p.entries is Some <==> q.entries is Some)
            &&& (p.entries is Some ==> p.entries->Some_0@ == q.entries->Some_0@)
        },
        (None, None) => true,
        _ => false,
    }
}

impl Differ {
    /// The cache as pairs of location and assessments, taken by their views.
    pub closed spec fn cache_entries(&self) -> Seq<(Seq<Seq<char>>, Seq<AssessmentView>)> {
        self.assessment_cache@.map_values(
            |e: (Location, Vec<Assessment>)| (e.0.deep_view(), e.1.deep_view()),
        )
    }

    /// The observations as pairs of location and observation.
    pub closed spec fn obs_entries(&self) -> Seq<(Seq<Seq<char>>, Observation)> {
        self.observations@.map_values(|e: (Location, Observation)| (e.0.deep_view(), e.1))
    }

    /// The assessments computed so far, by location.
    pub open spec fn cache_map(&self) -> Map<Seq<Seq<char>>, Seq<AssessmentView>> {
        assoc_map(self.cache_entries())
    }

    /// What was observed so far, by location.
    pub open spec fn obs_map(&self) -> Map<Seq<Seq<char>>, Observation> {
        assoc_map(self.obs_entries())
    }

    /// The devices of the two roots.
    pub closed spec fn roots(&self) -> (Option<u64>, Option<u64>) {
        (self.before_root_dev, self.after_root_dev)
    }

    /// No observed location is longer than this.
    pub closed spec fn depth_bound(&self) -> nat {
        self.depth as nat
    }

    /// The difference observed at `loc`.
    pub open spec fn observed_diff(&self, loc: Seq<Seq<char>>) -> Option<PathDiffView> {
        spec_observed_diff(self.obs_map()[loc], self.roots())
    }

    /// What grading `loc` gives on what was observed so far (see `walk`).
    pub open spec fn graded(&self, loc: Seq<Seq<char>>) -> Result<Option<Seq<AssessmentView>>, Stuck> {
        walk(self.obs_map(), self.roots(), self.depth_bound(), loc)
    }

    /// The locations that grading `loc` computes when nothing is cached (see `computed`).
    pub open spec fn computed_at(&self, loc: Seq<Seq<char>>) -> Set<Seq<Seq<char>>> {
        computed(self.obs_map(), self.roots(), self.depth_bound(), loc)
    }

    /// Everything the result at `loc` depends on has been observed and can be
    /// assessed (see `assessable`).
    pub open spec fn fully_observed(&self, loc: Seq<Seq<char>>) -> bool {
        assessable(self.obs_map(), self.roots(), self.depth_bound(), loc)
    }

    /// The cache is consistent: every cached location is observed and holds exactly
    /// the assessments its observation calls for.
    pub closed spec fn wf(&self) -> bool {
        &&& keys_distinct(self.cache_entries())
        &&& keys_distinct(self.obs_entries())
        &&& forall|k: Seq<Seq<char>>| #[trigger] self.obs_map().contains_key(k) ==> k.len() <= self.depth
            && self.obs_map()[k].wf()
        &&& forall|k: Seq<Seq<char>>| #[trigger] self.cache_map().contains_key(k) ==> self.obs_map().contains_key(k)
            && cached_ok(*self, k)
        &&& forall|k: Seq<Seq<char>>| #[trigger] self.cache_map().contains_key(k) ==> self.graded(k) == Ok::<
            Option<Seq<AssessmentView>>,
            Stuck,
        >(Some(self.cache_map()[k]))
        &&& forall|k: Seq<Seq<char>>| #[trigger] self.cache_map().contains_key(k) ==> self.computed_at(
            k,
        ).subset_of(self.cache_map().dom())
    }

    /// `self` came from `old` by computing more assessments: nothing cached was
    /// changed, and the observations and roots are the same.
    pub open spec fn grows_from(&self, old: Differ) -> bool {
        &&& old.cache_map().submap_of(self.cache_map())
        &&& self.obs_map() == old.obs_map()
        &&& self.roots() == old.roots()
        &&& self.depth_bound() == old.depth_bound()
    }

    /// An empty cache for trees whose roots lie on the given devices.
    pub fn new(before_root_dev: Option<u64>, after_root_dev: Option<u64>) -> (r: Self)
        ensures
            r.wf(),
            r.cache_map() == Map::<Seq<Seq<char>>, Seq<AssessmentView>>::empty(),
            r.obs_map() == Map::<Seq<Seq<char>>, Observation>::empty(),
            r.roots() == (before_root_dev, after_root_dev),
    {
        let r = Differ {
            assessment_cache: Vec::new(),
            observations: Vec::new(),
            before_root_dev,
            after_root_dev,
            depth: 0,
        };
        assert(r.cache_entries() =~= Seq::empty());
        assert(r.obs_entries() =~= Seq::empty());
        r
    }

    /// Where `location` is in the cache, if it is.
    fn find_cached(&self, location: &Vec<String>) -> (r: Option<usize>)
        requires
            self.wf(),
        ensures
            match r {
                Some(i) => i < self.assessment_cache@.len() && self.cache_entries()[i as int].0
                    == location.deep_view(),
                None => !self.cache_map().contains_key(location.deep_view()),
            },
    {
        let mut i: usize = 0;
        while i < self.assessment_cache.len()
            invariant
                i <= self.assessment_cache@.len(),
                forall|j: int| 0 <= j < i ==> #[trigger] self.cache_entries()[j].0 != location.deep_view(),
            decreases self.assessment_cache@.len() - i,
        {
            if locations_equal(&self.assessment_cache[i].0, location) {
                return Some(i);
            }
            i = i + 1;
        }
        proof {
            lemma_assoc_map_contains(self.cache_entries(), location.deep_view());
        }
        None
    }

    /// Where `location` is among the observations, if it is.
    fn find_observed(&self, location: &Vec<String>) -> (r: Option<usize>)
        requires
            self.wf(),
        ensures
            match r {
                Some(i) => i < self.observations@.len() && self.obs_entries()[i as int].0
                    == location.deep_view(),
                None => !self.obs_map().contains_key(location.deep_view()),
            },
    {
        let mut i: usize = 0;
        while i < self.observations.len()
            invariant
                i <= self.observations@.len(),
                forall|j: int| 0 <= j < i ==> #[trigger] self.obs_entries()[j].0 != location.deep_view(),
            decreases self.observations@.len() - i,
        {
            if locations_equal(&self.observations[i].0, location) {
                return Some(i);
            }
            i = i + 1;
        }
        proof {
            lemma_assoc_map_contains(self.obs_entries(), location.deep_view());
        }
        None
    }

    /// No observed location is longer than this.
    pub(crate) fn depth_limit(&self) -> (r: usize)
        ensures
            r == self.depth_bound(),
    {
        self.depth
    }

    /// Whether `location` has been observed.
    pub fn is_observed(&self, location: &Vec<String>) -> (r: bool)
        requires
            self.wf(),
        ensures
            r == self.obs_map().contains_key(location.deep_view()),
            r ==> location.len() <= self.depth_bound(),
    {
        match self.find_observed(location) {
            Some(i) => {
                proof {
                    lemma_assoc_map_index(self.obs_entries(), i as int);
                    assert(self.obs_map().contains_key(location.deep_view()));
                    assert(location.deep_view().len() == location@.len());
                }
                true
            },
            None => false,
        }
    }

    /// The assessments cached for `location`.
    pub fn cached(&self, location: &Vec<String>) -> (r: Option<&Vec<Assessment>>)
        requires
            self.wf(),
        ensures
            r is Some <==> self.cache_map().contains_key(location.deep_view()),
            r matches Some(v) ==> v.deep_view() == self.cache_map()[location.deep_view()],
    {
        match self.find_cached(location) {
            Some(i) => {
                proof {
                    lemma_assoc_map_index(self.cache_entries(), i as int);
                }
                Some(&self.assessment_cache[i].1)
            },
            None => None,
        }
    }

    /// Records what was seen at `location`. A location that was observed before
    /// keeps its first observation.
    pub fn observe(&mut self, location: Vec<String>, observation: Observation)
        requires
            old(self).wf(),
            observation.wf(),
        ensures
            final(self).wf(),
            final(self).cache_map() == old(self).cache_map(),
            final(self).roots() == old(self).roots(),
            final(self).obs_map() == if old(self).obs_map().contains_key(location.deep_view()) {
                old(self).obs_map()
            } else {
                old(self).obs_map().insert(location.deep_view(), observation)
            },
    {
        match self.find_observed(&location) {
            Some(i) => {
                proof {
                    lemma_assoc_map_index(self.obs_entries(), i as int);
                }
                return ;
            },
            None => {},
        }
        let ghost old_self = *self;
        let ghost key = location.deep_view();
        if location.len() > self.depth {
            self.depth = location.len();
        }
        self.observations.push((location, observation));
        proof {
            assert(self.obs_entries() =~= old_self.obs_entries().push((key, observation)));
            assert(self.obs_entries().drop_last() =~= old_self.obs_entries());
            assert(self.cache_entries() =~= old_self.cache_entries());
            lemma_assoc_map_contains(old_self.obs_entries(), key);
            assert(keys_distinct(self.obs_entries())) by {
                assert forall|a: int, b: int| 0 <= a < b < self.obs_entries().len() implies #[trigger] self.obs_entries()[a].0
                    != #[trigger] self.obs_entries()[b].0 by {
                    if b == self.obs_entries().len() - 1 {
                        assert(old_self.obs_entries()[a].0 == self.obs_entries()[a].0);
                    } else {
                        assert(old_self.obs_entries()[a].0 != old_self.obs_entries()[b].0);
                    }
                }
            }
            assert forall|k: Seq<Seq<char>>| #[trigger] self.cache_map().contains_key(k) implies self.obs_map().contains_key(k)
                && cached_ok(*self, k) by {
                lemma_cached_ok_grows(old_self, *self, k);
            }
            assert forall|k: Seq<Seq<char>>| #[trigger] self.cache_map().contains_key(k) implies self.computed_at(
                k,
            ).subset_of(self.cache_map().dom()) by {
                assert(old_self.cache_map().contains_key(k));
                lemma_computed_grows(
                    old_self.obs_map(),
                    self.obs_map(),
                    self.roots(),
                    old_self.depth_bound(),
                    self.depth_bound(),
                    k,
                );
            }
            assert forall|k: Seq<Seq<char>>| #[trigger] self.cache_map().contains_key(k) implies self.graded(k)
                == Ok::<Option<Seq<AssessmentView>>, Stuck>(Some(self.cache_map()[k])) by {
                assert(old_self.cache_map().contains_key(k));
                lemma_walk_grows(
                    old_self.obs_map(),
                    self.obs_map(),
                    self.roots(),
                    old_self.depth_bound(),
                    self.depth_bound(),
                    k,
                );
            }
        }
    }

    /// Computes the assessments at `location`, and those of the entries below it
    /// that its grade depends on, and caches them. When something has to be observed
    /// first, or cannot be assessed, the status says where.
    pub fn get_diff(&mut self, location: &Vec<String>) -> (r: DiffStatus)
        requires
            old(self).wf(),
        ensures
            final(self).wf(),
            final(self).grows_from(*old(self)),
            old(self).cache_map().contains_key(location.deep_view()) ==> r is Ready,
            old(self).cache_map().contains_key(location.deep_view()) ==> *final(self) == *old(self),
            r is Nonexistent ==> *final(self) == *old(self),
            final(self).cache_map().dom() == old(self).cache_map().dom().union(
                old(self).computed_at(location.deep_view()),
            ),
            old(self).fully_observed(location.deep_view()) ==> r is Ready,
            match old(self).graded(location.deep_view()) {
                Ok(Some(v)) => r is Ready && final(self).cache_map()[location.deep_view()] == v,
                Ok(None) => r is Nonexistent,
                Err(s) => status_stuck(r) == Some(s),
            },
            r is Nonexistent ==> !final(self).cache_map().contains_key(location.deep_view()),
            !old(self).obs_map().contains_key(location.deep_view()) ==> (r matches DiffStatus::NeedsObservation(l)
                && l.deep_view() == location.deep_view()),
            match r {
                DiffStatus::Ready => final(self).cache_map().contains_key(location.deep_view()),
                DiffStatus::Nonexistent => final(self).obs_map().contains_key(location.deep_view())
                    && final(self).observed_diff(location.deep_view()) is None,
                _ => stuck_ok(*final(self), r) && reported_below(
                    *final(self),
                    stuck_location(r),
                    location.deep_view(),
                ),
            },
        decreases old(self).depth_bound() - location.len(), 2int,
    {
        match self.find_cached(location) {
            Some(i) => {
                proof {
                    lemma_assoc_map_index(self.cache_entries(), i as int);
                    assert(self.cache_map().contains_key(location.deep_view()));
                    assert(cached_ok(*self, location.deep_view()));
                }
                return DiffStatus::Ready;
            },
            None => {},
        }
        let idx = match self.find_observed(location) {
            Some(i) => i,
            None => {
                let l = clone_location(location);
                assert(l.deep_view().take(l.deep_view().len() as int) =~= l.deep_view());
                return DiffStatus::NeedsObservation(l);
            },
        };
        let ghost key = location.deep_view();
        let ghost o = self.obs_entries()[idx as int].1;
        proof {
            lemma_assoc_map_index(self.obs_entries(), idx as int);
            assert(self.obs_map()[key] == o);
            assert(self.obs_map().contains_key(key));
        }
        let before = match &self.observations[idx].1.before {
            Some(p) => Some(TypedPath::from_existent(clone_existent(p), self.before_root_dev)),
            None => None,
        };
        let after = match &self.observations[idx].1.after {
            Some(p) => Some(TypedPath::from_existent(clone_existent(p), self.after_root_dev)),
            None => None,
        };
        proof {
            let cb = opt_inner(before);
            let ca = opt_inner(after);
            assert(opt_typed(cb, self.roots().0) == before);
            assert(opt_typed(ca, self.roots().1) == after);
            lemma_copies_diff_alike(cb, o.before, ca, o.after, self.roots());
        }
        let new = match calculate_diff(before, after) {
            Some(d) => d,
            None => {
                return DiffStatus::Nonexistent;
            },
        };
        let ghost pd = new.deep_view();
        assert(self.observed_diff(key) == Some(pd));
        proof {
            if self.fully_observed(key) {
                assert(!spec_unimplemented(pd));
                match pd {
                    PathDiffView::Modified(Typed::Directory(e)) => {
                        assert(entries_assessable(self.obs_map(), self.roots(), self.depth_bound(), key, e));
                    },
                    _ => {},
                }
            }
        }
        if crate::assesser::is_unassessable(&new) {
            let l = clone_location(location);
            assert(l.deep_view().take(l.deep_view().len() as int) =~= l.deep_view());
            return DiffStatus::Unimplemented(l);
        }
        let mut taken = Differ::new(None, None);
        std::mem::swap(self, &mut taken);
        let mut assesser = Assesser { diff_cache: taken };
        let res = assesser.assess(location, new);
        *self = assesser.diff_cache;
        match res {
            Ok(assessments) => {
                match self.find_cached(location) {
                    Some(i) => {
                        proof {
                            lemma_assoc_map_index(self.cache_entries(), i as int);
                        }
                        return DiffStatus::Ready;
                    },
                    None => {},
                }
                let ghost mid = *self;
                let ghost av = assessments.deep_view();
                self.assessment_cache.push((clone_location(location), assessments));
                proof {
                    assert(self.cache_entries() =~= mid.cache_entries().push((key, av)));
                    assert(self.cache_entries().drop_last() =~= mid.cache_entries());
                    assert(self.obs_entries() =~= mid.obs_entries());
                    assert(self.cache_map() == mid.cache_map().insert(key, av));
                    lemma_assoc_map_contains(mid.cache_entries(), key);
                    assert(keys_distinct(self.cache_entries())) by {
                        assert forall|a: int, b: int| 0 <= a < b < self.cache_entries().len() implies #[trigger] self.cache_entries()[a].0
                            != #[trigger] self.cache_entries()[b].0 by {
                            if b == self.cache_entries().len() - 1 {
                                assert(mid.cache_entries()[a].0 == self.cache_entries()[a].0);
                            } else {
                                assert(mid.cache_entries()[a].0 != mid.cache_entries()[b].0);
                            }
                        }
                    }
                    assert(self.grows_from(mid));
                    lemma_new_entry_ok(mid, *self, key, av);
                    assert forall|k: Seq<Seq<char>>| #[trigger] self.cache_map().contains_key(k) implies self.obs_map().contains_key(k)
                        && cached_ok(*self, k) by {
                        if k != key {
                            lemma_cached_ok_grows(mid, *self, k);
                        }
                    }
                }
                DiffStatus::Ready
            },
            Err(s) => {
                proof {
                    let l = stuck_location(s);
                    if spec_unimplemented(pd) {
                        assert(l.take(key.len() as int) =~= key);
                    } else {
                        if l.len() == key.len() + 1 {
                            assert(l.drop_last() =~= l.take(key.len() as int));
                        }
                    }
                }
                s
            },
        }
    }
}

/// Growing is transitive.
pub proof fn lemma_grows_trans(a: Differ, b: Differ, c: Differ)
    requires
        b.grows_from(a),
        c.grows_from(b),
    ensures
        c.grows_from(a),
{
    vstd::map_lib::lemma_submap_of_trans(a.cache_map(), b.cache_map(), c.cache_map());
}

/// Assessments that were right stay right when more is cached and observed.
proof fn lemma_cached_ok_grows(old: Differ, new: Differ, k: Seq<Seq<char>>)
    requires
        old.wf(),
        old.cache_map().contains_key(k),
        old.cache_map().submap_of(new.cache_map()),
        old.obs_map().submap_of(new.obs_map()),
        old.roots() == new.roots(),
    ensures
        new.obs_map().contains_key(k),
        cached_ok(new, k),
{
    assert(old.obs_map().contains_key(k));
    assert(old.obs_map().dom().contains(k));
    assert(new.obs_map().dom().contains(k));
    assert(new.obs_map()[k] == old.obs_map()[k]);
    assert(new.observed_diff(k) == old.observed_diff(k));
    assert(old.cache_map().dom().contains(k));
    assert(new.cache_map().dom().contains(k));
    assert(new.cache_map()[k] == old.cache_map()[k]);
    match old.observed_diff(k) {
        Some(PathDiffView::Modified(Typed::Directory(e))) => {
            if children_meaningful(old, k, e) {
                let j = choose|j: int|
                    0 <= j < e.len() && #[trigger] old.cache_map().contains_key(spec_child(k, e[j].0))
                        && has_meaningful(old.cache_map()[spec_child(k, e[j].0)]);
                assert(new.cache_map().contains_key(spec_child(k, e[j].0)));
                assert(children_meaningful(new, k, e));
            } else {
                assert(all_children_cached(old, k, e));
                assert(all_children_cached(new, k, e)) by {
                    assert forall|j: int| 0 <= j < e.len() implies #[trigger] new.cache_map().contains_key(
                        spec_child(k, e[j].0),
                    ) by {
                        assert(old.cache_map().contains_key(spec_child(k, e[j].0)));
                    }
                }
                assert(!children_meaningful(new, k, e)) by {
                    if children_meaningful(new, k, e) {
                        let j = choose|j: int|
                            0 <= j < e.len() && #[trigger] new.cache_map().contains_key(spec_child(k, e[j].0))
                                && has_meaningful(new.cache_map()[spec_child(k, e[j].0)]);
                        assert(old.cache_map().contains_key(spec_child(k, e[j].0)));
                        assert(new.cache_map()[spec_child(k, e[j].0)] == old.cache_map()[spec_child(k, e[j].0)]);
                    }
                }
            }
        },
        _ => {},
    }
}

/// The entry just added for `key` is right, given what assessing it established.
proof fn lemma_new_entry_ok(mid: Differ, new: Differ, key: Seq<Seq<char>>, av: Seq<AssessmentView>)
    requires
        mid.obs_map().contains_key(key),
        !mid.cache_map().contains_key(key),
        new.cache_map() == mid.cache_map().insert(key, av),
        new.obs_map() == mid.obs_map(),
        new.roots() == mid.roots(),
        mid.observed_diff(key) matches Some(pd) && !spec_unimplemented(pd) && match pd {
            PathDiffView::Modified(Typed::Directory(e)) => {
                let m = children_meaningful(mid, key, e);
                &&& av == spec_assess(pd, m)
                &&& (m || all_children_cached(mid, key, e))
            },
            _ => av == spec_assess(pd, false),
        },
    ensures
        cached_ok(new, key),
{
    match mid.observed_diff(key) {
        Some(PathDiffView::Modified(Typed::Directory(e))) => {
            assert forall|j: int| 0 <= j < e.len() implies spec_child(key, e[j].0) != key by {
                assert(spec_child(key, e[j].0).len() == key.len() + 1);
            }
            if children_meaningful(mid, key, e) {
                let j = choose|j: int|
                    0 <= j < e.len() && #[trigger] mid.cache_map().contains_key(spec_child(key, e[j].0))
                        && has_meaningful(mid.cache_map()[spec_child(key, e[j].0)]);
                assert(spec_child(key, e[j].0) != key);
                assert(new.cache_map().contains_key(spec_child(key, e[j].0)));
                assert(children_meaningful(new, key, e));
            } else {
                assert(all_children_cached(new, key, e)) by {
                    assert forall|j: int| 0 <= j < e.len() implies #[trigger] new.cache_map().contains_key(
                        spec_child(key, e[j].0),
                    ) by {
                        assert(mid.cache_map().contains_key(spec_child(key, e[j].0)));
                    }
                }
                assert(!children_meaningful(new, key, e)) by {
                    if children_meaningful(new, key, e) {
                        let j = choose|j: int|
                            0 <= j < e.len() && #[trigger] new.cache_map().contains_key(spec_child(key, e[j].0))
                                && has_meaningful(new.cache_map()[spec_child(key, e[j].0)]);
                        assert(spec_child(key, e[j].0) != key);
                        assert(mid.cache_map().contains_key(spec_child(key, e[j].0)));
                    }
                }
            }
        },
        _ => {},
    }
}

/// A replacement never has a directory on both sides (that is a modification).
proof fn lemma_recreated_not_two_dirs(b: Option<TypedPath>, a: Option<TypedPath>)
    ensures
        spec_calculate_diff(b, a) matches Some(PathDiffView::Recreated { state: LeftRightBoth::Both(x, y) })
            ==> !(x is Directory && y is Directory),
{
}

/// The assessments of any location carry at most one directory listing.
pub proof fn lemma_cached_one_directory(d: Differ, k: Seq<Seq<char>>)
    requires
        d.wf(),
        d.cache_map().contains_key(k),
    ensures
        at_most_one_dir(d.cache_map()[k]),
{
    let o = d.obs_map()[k];
    lemma_recreated_not_two_dirs(opt_typed(o.before, d.roots().0), opt_typed(o.after, d.roots().1));
    assert(cached_ok(d, k));
}

/// Every cached result is what the observation at its location calls for (see
/// `cached_ok`), and what grading the observations made so far gives (see `walk`).
pub proof fn lemma_cached_matches_observation(d: Differ, k: Seq<Seq<char>>)
    requires
        d.wf(),
        d.cache_map().contains_key(k),
    ensures
        d.obs_map().contains_key(k),
        cached_ok(d, k),
        d.graded(k) == Ok::<Option<Seq<AssessmentView>>, Stuck>(Some(d.cache_map()[k])),
{
}

/// Computing more never changes a result that was cached before.
pub proof fn lemma_cached_values_stay(a: Differ, b: Differ, k: Seq<Seq<char>>)
    requires
        b.grows_from(a),
        a.cache_map().contains_key(k),
    ensures
        b.cache_map().contains_key(k),
        b.cache_map()[k] == a.cache_map()[k],
{
    assert(a.cache_map().dom().contains(k));
    assert(b.cache_map().dom().contains(k));
}

/// The result cached at a location depends only on what was observed: two caches
/// built on the same observations agree wherever both hold a result, whatever
/// order the locations were computed in.
pub proof fn lemma_cache_determined(d1: Differ, d2: Differ, k: Seq<Seq<char>>)
    requires
        d1.wf(),
        d2.wf(),
        d1.obs_map() == d2.obs_map(),
        d1.roots() == d2.roots(),
        d1.cache_map().contains_key(k),
        d2.cache_map().contains_key(k),
    ensures
        d1.cache_map()[k] == d2.cache_map()[k],
    decreases d1.depth_bound() - k.len(),
{
    assert(cached_ok(d1, k));
    assert(cached_ok(d2, k));
    assert(d1.observed_diff(k) == d2.observed_diff(k));
    match d1.observed_diff(k) {
        Some(PathDiffView::Modified(Typed::Directory(e))) => {
            if children_meaningful(d1, k, e) && !children_meaningful(d2, k, e) {
                let j = choose|j: int|
                    0 <= j < e.len() && #[trigger] d1.cache_map().contains_key(spec_child(k, e[j].0))
                        && has_meaningful(d1.cache_map()[spec_child(k, e[j].0)]);
                let c = spec_child(k, e[j].0);
                assert(all_children_cached(d2, k, e));
                assert(d2.cache_map().contains_key(c));
                assert(d1.obs_map().contains_key(c));
                lemma_cache_determined(d1, d2, c);
                assert(children_meaningful(d2, k, e));
            }
            if children_meaningful(d2, k, e) && !children_meaningful(d1, k, e) {
                let j = choose|j: int|
                    0 <= j < e.len() && #[trigger] d2.cache_map().contains_key(spec_child(k, e[j].0))
                        && has_meaningful(d2.cache_map()[spec_child(k, e[j].0)]);
                let c = spec_child(k, e[j].0);
                assert(all_children_cached(d1, k, e));
                assert(d1.cache_map().contains_key(c));
                assert(d1.obs_map().contains_key(c));
                lemma_cache_determined(d1, d2, c);
                assert(children_meaningful(d1, k, e));
            }
        },
        _ => {},
    }
}

/// A modified directory is graded meaningful exactly when some entry below it has a
/// meaningful assessment; when it is graded meaningless, every entry below it was assessed.
#[verifier::spinoff_prover]
pub proof fn lemma_directory_grade(d: Differ, k: Seq<Seq<char>>)
    requires
        d.wf(),
        d.cache_map().contains_key(k),
        d.observed_diff(k) matches Some(PathDiffView::Modified(Typed::Directory(_))),
    ensures
        d.cache_map()[k].len() == 1,
        ({
            let e = d.observed_diff(k)->Some_0->Modified_0->Directory_0;
            &&& (d.cache_map()[k][0].grade == crate::assesser::AssessmentGrade::Meaningful
                <==> exists|j: int|
                0 <= j < e.len() && #[trigger] d.cache_map().contains_key(spec_child(k, e[j].0))
                    && has_meaningful(d.cache_map()[spec_child(k, e[j].0)]))
            &&& (d.cache_map()[k][0].grade == crate::assesser::AssessmentGrade::Meaningless
                ==> forall|j: int|
                0 <= j < e.len() ==> #[trigger] d.cache_map().contains_key(spec_child(k, e[j].0))
                    && !has_meaningful(d.cache_map()[spec_child(k, e[j].0)]))
        }),
{
    assert(cached_ok(d, k));
}

} // verus!
