use impermanence_diff::assesser::{
    assess_directory, assess_symlink, any_meaningful, AssessedAction, AssessedActionInverted, Assesser, Assessment,
    AssessmentGrade,
};
use impermanence_diff::diff_util::{hashmap_diff, LeftRightBoth};
use impermanence_diff::dir_diff::{
    calculate_diff, from_nothing, to_nothing, same_path, DiffStatus, Differ, DirectoryDiff,
    Observation, PathDiff, SymlinkDiff, SymlinkState,
};
use impermanence_diff::names::{compare_names, NameOrder};
use impermanence_diff::typed_actions::{Action, ActionTag, StateOrDiff, Typed};
use impermanence_diff::typed_path::{
    DirectoryPath, ExistentPath, FileType, LinkInfo, PathMeta, SymlinkPath, TypedPath,
};

const DEV: u64 = 7;

fn s(x: &str) -> String {
    x.to_string()
}

fn meta(dev: u64, is_symlink: bool, is_dir: bool, is_file: bool) -> PathMeta {
    PathMeta { dev, is_symlink, is_dir, is_file }
}

fn file(path: &str) -> ExistentPath {
    ExistentPath { path: s(path), meta: meta(DEV, false, false, true), link: None, entries: None }
}

fn link(path: &str, target: &str, target_exists: bool) -> ExistentPath {
    ExistentPath {
        path: s(path),
        meta: meta(DEV, true, false, false),
        link: Some(LinkInfo { target: s(target), target_exists }),
        entries: None,
    }
}

fn dir(path: &str, names: &[&str]) -> ExistentPath {
    dir_on(DEV, path, names)
}

fn dir_on(dev: u64, path: &str, names: &[&str]) -> ExistentPath {
    ExistentPath {
        path: s(path),
        meta: meta(dev, false, true, false),
        link: None,
        entries: Some(names.iter().map(|n| (s(n), format!("{}/{}", path, n))).collect()),
    }
}

fn loc(parts: &[&str]) -> Vec<String> {
    parts.iter().map(|p| s(p)).collect()
}

#[test]
fn with_right_records_the_right_value() {
    assert_eq!(LeftRightBoth::Left(1).with_right(2), LeftRightBoth::Both(1, 2));
    assert_eq!(LeftRightBoth::Right(1).with_right(2), LeftRightBoth::Right(2));
    assert_eq!(LeftRightBoth::Both(1, 3).with_right(2), LeftRightBoth::Both(1, 2));
}

#[test]
fn hashmap_diff_merges_and_sorts_by_name() {
    let a = vec![(s("b"), 1), (s("a"), 2)];
    let b = vec![(s("c"), 3), (s("a"), 4)];
    let r = hashmap_diff(a, b);
    assert_eq!(
        r,
        vec![
            (s("a"), LeftRightBoth::Both(2, 4)),
            (s("b"), LeftRightBoth::Left(1)),
            (s("c"), LeftRightBoth::Right(3)),
        ]
    );
}

#[test]
fn hashmap_diff_later_duplicate_wins() {
    let a = vec![(s("x"), 1), (s("x"), 2)];
    let b = vec![(s("y"), 3), (s("y"), 4)];
    let r = hashmap_diff(a, b);
    assert_eq!(r, vec![(s("x"), LeftRightBoth::Left(2)), (s("y"), LeftRightBoth::Right(4))]);
}

#[test]
fn hashmap_diff_of_empty_sides() {
    let r: Vec<(String, LeftRightBoth<u8>)> = hashmap_diff(vec![], vec![]);
    assert!(r.is_empty());
}

#[test]
fn names_compare_by_code_point() {
    assert_eq!(compare_names(&s("a"), &s("b")), NameOrder::Less);
    assert_eq!(compare_names(&s("ab"), &s("a")), NameOrder::Greater);
    assert_eq!(compare_names(&s("same"), &s("same")), NameOrder::Equal);
    assert_eq!(compare_names(&s("Z"), &s("a")), NameOrder::Less);
    assert_eq!(compare_names(&s(""), &s("a")), NameOrder::Less);
}

#[test]
fn to_tagged_splits_tag_and_payload() {
    let t = Action::<u8, bool>::Created(5).to_tagged();
    assert_eq!(t.tag, ActionTag::Created);
    assert_eq!(t.content, StateOrDiff::State(5));
    let t = Action::<u8, bool>::Modified(true).to_tagged();
    assert_eq!(t.tag, ActionTag::Modified);
    assert_eq!(t.content, StateOrDiff::Diff(true));
    let t = Action::<u8, bool>::Deleted(1).to_tagged();
    assert_eq!(t.tag, ActionTag::Deleted);
    let t = Action::<u8, bool>::Identical(2).to_tagged();
    assert_eq!(t.tag, ActionTag::Identical);
    assert_eq!(t.content, StateOrDiff::State(2));
}

#[test]
fn from_existent_sorts_paths_into_kinds() {
    assert!(matches!(TypedPath::from_existent(file("/r/f"), Some(DEV)), Typed::File(_)));
    assert!(matches!(TypedPath::from_existent(link("/r/l", "/x", true), Some(DEV)), Typed::Symlink(_)));
    assert!(matches!(TypedPath::from_existent(dir("/r/d", &[]), Some(DEV)), Typed::Directory(_)));
    assert!(matches!(
        TypedPath::from_existent(dir_on(DEV + 1, "/r/m", &[]), Some(DEV)),
        Typed::FilesystemBoundary(_)
    ));
    assert!(matches!(TypedPath::from_existent(file("/r/f"), None), Typed::FilesystemBoundary(_)));
    let odd = ExistentPath { path: s("/r/p"), meta: meta(DEV, false, false, false), link: None, entries: None };
    assert!(matches!(TypedPath::from_existent(odd, Some(DEV)), Typed::Unknown(_)));
}

#[test]
fn symlink_target_and_listing_are_given_back() {
    let l = SymlinkPath(link("/r/l", "/somewhere", false));
    assert_eq!(l.target(), s("/somewhere"));
    let d = DirectoryPath(dir("/r/d", &["x"]));
    assert_eq!(d.read_dir(), vec![(s("x"), s("/r/d/x"))]);
}

#[test]
fn classify_splits_store_paths_at_the_first_dash() {
    let st = SymlinkState::classify(s("/nix/store/abc-foo-1.0/bin"), Some(s("abc-foo-1.0/bin")), true);
    assert_eq!(
        st,
        SymlinkState::NixStoreLink {
            target: s("/nix/store/abc-foo-1.0/bin"),
            hash: s("abc"),
            path_within_derivation: s("foo-1.0/bin"),
        }
    );
    let st = SymlinkState::classify(s("/nix/store/nodash"), Some(s("nodash")), true);
    assert_eq!(st, SymlinkState::Link { target: s("/nix/store/nodash"), broken: true });
    let st = SymlinkState::classify(s("/etc/x"), None, false);
    assert_eq!(st, SymlinkState::Link { target: s("/etc/x"), broken: false });
    assert_eq!(st.target(), &s("/etc/x"));
}

#[test]
fn from_path_strips_the_store_prefix() {
    let st = SymlinkState::from_path(&SymlinkPath(link("/r/l", "/nix/store/hash123-pkg-1.0/bin/x", true)));
    assert_eq!(
        st,
        SymlinkState::NixStoreLink {
            target: s("/nix/store/hash123-pkg-1.0/bin/x"),
            hash: s("hash123"),
            path_within_derivation: s("pkg-1.0/bin/x"),
        }
    );
    // The prefix is removed component by component: "/nix/storex" does not lie below it.
    let st = SymlinkState::from_path(&SymlinkPath(link("/r/l", "/nix/storex/a-b", false)));
    assert_eq!(st, SymlinkState::Link { target: s("/nix/storex/a-b"), broken: false });
    let st = SymlinkState::from_path(&SymlinkPath(link("/r/l", "/home/u/a-b", true)));
    assert_eq!(st, SymlinkState::Link { target: s("/home/u/a-b"), broken: true });
}

#[test]
fn directory_diff_lists_both_sides_in_order() {
    let b = DirectoryPath(dir("/b", &["z", "a"]));
    let a = DirectoryPath(dir("/a", &["a", "m"]));
    let d = DirectoryDiff::diff_paths(Some(&b), Some(&a));
    assert_eq!(
        d.entries,
        vec![
            (s("a"), LeftRightBoth::Both(s("/b/a"), s("/a/a"))),
            (s("m"), LeftRightBoth::Right(s("/a/m"))),
            (s("z"), LeftRightBoth::Left(s("/b/z"))),
        ]
    );
    let d = DirectoryDiff::diff_paths(None, None);
    assert!(d.entries.is_empty());
}

#[test]
fn calculate_diff_cases() {
    assert!(calculate_diff(None, None).is_none());
    let created = calculate_diff(None, Some(TypedPath::from_existent(file("/a/f"), Some(DEV))));
    assert_eq!(created, Some(PathDiff::Recreated { state: LeftRightBoth::Right(Typed::File(())) }));
    let deleted = calculate_diff(Some(TypedPath::from_existent(file("/b/f"), Some(DEV))), None);
    assert_eq!(deleted, Some(PathDiff::Recreated { state: LeftRightBoth::Left(Typed::File(())) }));
    let same_kind = calculate_diff(
        Some(TypedPath::from_existent(file("/b/f"), Some(DEV))),
        Some(TypedPath::from_existent(file("/a/f"), Some(DEV))),
    );
    assert_eq!(same_kind, Some(PathDiff::Modified(Typed::File(()))));
    let replaced = calculate_diff(
        Some(TypedPath::from_existent(file("/b/f"), Some(DEV))),
        Some(TypedPath::from_existent(link("/a/f", "/t", true), Some(DEV))),
    );
    assert_eq!(
        replaced,
        Some(PathDiff::Recreated {
            state: LeftRightBoth::Both(
                Typed::File(()),
                Typed::Symlink(SymlinkState::Link { target: s("/t"), broken: true })
            )
        })
    );
    let odd = |p: &str| ExistentPath { path: s(p), meta: meta(DEV, false, false, false), link: None, entries: None };
    let unknown = calculate_diff(
        Some(TypedPath::from_existent(odd("/b/p"), Some(DEV))),
        Some(TypedPath::from_existent(odd("/a/p"), Some(DEV))),
    );
    assert_eq!(unknown, Some(PathDiff::Modified(Typed::Unknown(s("Unknown")))));
}

#[test]
fn states_of_one_sided_entries() {
    let d = TypedPath::from_existent(dir("/d", &["k"]), Some(DEV));
    match from_nothing(&d) {
        Typed::Directory(dd) => assert_eq!(dd.entries, vec![(s("k"), LeftRightBoth::Right(s("/d/k")))]),
        other => panic!("unexpected {:?}", other),
    }
    match to_nothing(&d) {
        Typed::Directory(dd) => assert_eq!(dd.entries, vec![(s("k"), LeftRightBoth::Left(s("/d/k")))]),
        other => panic!("unexpected {:?}", other),
    }
    let odd = ExistentPath { path: s("/p"), meta: meta(DEV, false, false, false), link: None, entries: None };
    let u = TypedPath::from_existent(odd, Some(DEV));
    assert_eq!(from_nothing(&u), Typed::Unknown(s("Unknown file path type")));
}

fn nix(hash: &str, path: &str) -> SymlinkState {
    SymlinkState::NixStoreLink {
        target: format!("/nix/store/{}-{}", hash, path),
        hash: s(hash),
        path_within_derivation: s(path),
    }
}

#[test]
fn identical_links_do_not_matter() {
    let a = assess_symlink(SymlinkDiff { before: nix("h1", "p"), after: nix("h1", "p") });
    assert_eq!(a.grade, AssessmentGrade::Meaningless);
    assert_eq!(a.action, AssessedAction::Identical(Typed::Symlink(nix("h1", "p"))));
}

#[test]
fn a_new_store_generation_does_not_matter() {
    let a = assess_symlink(SymlinkDiff { before: nix("h1", "p"), after: nix("h2", "p") });
    assert_eq!(a.grade, AssessmentGrade::Meaningless);
    assert!(matches!(a.action, Action::Modified(Typed::Symlink(_))));
}

#[test]
fn other_link_changes_matter() {
    let a = assess_symlink(SymlinkDiff { before: nix("h1", "p"), after: nix("h1", "q") });
    assert_eq!(a.grade, AssessmentGrade::Meaningful);
    let a = assess_symlink(SymlinkDiff {
        before: SymlinkState::Link { target: s("/x"), broken: true },
        after: SymlinkState::Link { target: s("/x"), broken: false },
    });
    assert_eq!(a.grade, AssessmentGrade::Meaningful);
}

#[test]
fn recreations_are_graded() {
    let mut assesser = Assesser { diff_cache: Differ::new(Some(DEV), Some(DEV)) };
    let empty_dir = Typed::Directory(DirectoryDiff { entries: vec![] });
    let mount = Typed::FilesystemBoundary(());
    let r = assesser
        .assess(&loc(&["m"]), PathDiff::Recreated { state: LeftRightBoth::Both(empty_dir, mount) })
        .unwrap();
    assert_eq!(r.len(), 2);
    assert!(r.iter().all(|a| a.grade == AssessmentGrade::Meaningless));
    assert!(matches!(r[0].action, Action::Deleted(Typed::Directory(_))));
    assert!(matches!(r[1].action, Action::Created(Typed::FilesystemBoundary(()))));

    let full_dir = Typed::Directory(DirectoryDiff { entries: vec![(s("x"), LeftRightBoth::Left(s("/x")))] });
    let r = assesser
        .assess(&loc(&["m"]), PathDiff::Recreated { state: LeftRightBoth::Both(full_dir, Typed::FilesystemBoundary(())) })
        .unwrap();
    assert!(r.iter().all(|a| a.grade == AssessmentGrade::Meaningful));

    let r = assesser.assess(&loc(&["f"]), PathDiff::Recreated { state: LeftRightBoth::Left(Typed::File(())) }).unwrap();
    assert_eq!(r, vec![Assessment { action: Action::Deleted(Typed::File(())), grade: AssessmentGrade::Meaningful }]);
    let r = assesser.assess(&loc(&["f"]), PathDiff::Recreated { state: LeftRightBoth::Right(Typed::File(())) }).unwrap();
    assert_eq!(r, vec![Assessment { action: Action::Created(Typed::File(())), grade: AssessmentGrade::Meaningful }]);
}

#[test]
fn modified_files_have_no_assessment_yet() {
    let mut differ = Differ::new(Some(DEV), Some(DEV));
    differ.observe(loc(&["f"]), Observation { before: Some(file("/b/f")), after: Some(file("/a/f")) });
    assert_eq!(differ.get_diff(&loc(&["f"])), DiffStatus::Unimplemented(loc(&["f"])));
    assert!(differ.cached(&loc(&["f"])).is_none());
}

#[test]
fn any_meaningful_finds_a_meaningful_assessment() {
    let quiet = Assessment { action: Action::Created(Typed::File(())), grade: AssessmentGrade::Meaningless };
    let loud = Assessment { action: Action::Created(Typed::File(())), grade: AssessmentGrade::Meaningful };
    assert!(!any_meaningful(&vec![]));
    assert!(any_meaningful(&vec![quiet, loud]));
}

#[test]
fn inverting_moves_the_action_inside() {
    let inv: AssessedActionInverted = AssessedAction::Created(Typed::File(())).into();
    assert_eq!(inv, Typed::File(Action::Created(())));
    let inv: AssessedActionInverted = AssessedAction::Deleted(Typed::Unknown(s("u"))).into();
    assert_eq!(inv, Typed::Unknown(s("u")));
    let inv: AssessedActionInverted =
        AssessedAction::Modified(Typed::Directory(DirectoryDiff { entries: vec![] })).into();
    assert_eq!(inv, Typed::Directory(Action::Modified(DirectoryDiff { entries: vec![] })));
}

/// A tiny pair of trees: the root lists `a` before and `a`, `c` after.
fn observation_at(l: &[String]) -> Observation {
    let parts: Vec<&str> = l.iter().map(|p| p.as_str()).collect();
    match parts.as_slice() {
        [] => Observation { before: Some(dir("/b", &["a"])), after: Some(dir("/a", &["a", "c"])) },
        ["a"] => Observation {
            before: Some(link("/b/a", "/nix/store/h1-pkg/x", true)),
            after: Some(link("/a/a", "/nix/store/h2-pkg/x", true)),
        },
        ["c"] => Observation { before: None, after: Some(file("/a/c")) },
        _ => Observation { before: None, after: None },
    }
}

fn drive(differ: &mut Differ, l: &Vec<String>, observe: &dyn Fn(&[String]) -> Observation) -> DiffStatus {
    loop {
        match differ.get_diff(l) {
            DiffStatus::NeedsObservation(need) => {
                let o = observe(&need);
                differ.observe(need, o);
            }
            other => return other,
        }
    }
}

#[test]
fn the_root_matters_when_an_entry_below_matters() {
    let mut differ = Differ::new(Some(DEV), Some(DEV));
    assert_eq!(differ.get_diff(&loc(&[])), DiffStatus::NeedsObservation(loc(&[])));
    assert_eq!(drive(&mut differ, &loc(&[]), &observation_at), DiffStatus::Ready);
    let root = differ.cached(&loc(&[])).unwrap();
    assert_eq!(root.len(), 1);
    assert_eq!(root[0].grade, AssessmentGrade::Meaningful);
    let a = differ.cached(&loc(&["a"])).unwrap();
    assert_eq!(a[0].grade, AssessmentGrade::Meaningless);
    let c = differ.cached(&loc(&["c"])).unwrap();
    assert_eq!(c, &vec![Assessment { action: Action::Created(Typed::File(())), grade: AssessmentGrade::Meaningful }]);
    // Asking again gives the cached answer.
    assert_eq!(differ.get_diff(&loc(&[])), DiffStatus::Ready);
}

#[test]
fn a_directory_without_meaningful_entries_does_not_matter() {
    let observe = |l: &[String]| -> Observation {
        let parts: Vec<&str> = l.iter().map(|p| p.as_str()).collect();
        match parts.as_slice() {
            [] => Observation { before: Some(dir("/b", &["a"])), after: Some(dir("/a", &["a"])) },
            ["a"] => Observation {
                before: Some(link("/b/a", "/nix/store/h1-pkg/x", true)),
                after: Some(link("/a/a", "/nix/store/h2-pkg/x", true)),
            },
            _ => Observation { before: None, after: None },
        }
    };
    let mut differ = Differ::new(Some(DEV), Some(DEV));
    assert_eq!(drive(&mut differ, &loc(&[]), &observe), DiffStatus::Ready);
    assert_eq!(differ.cached(&loc(&[])).unwrap()[0].grade, AssessmentGrade::Meaningless);
}

#[test]
fn nothing_on_either_side_is_nonexistent() {
    let mut differ = Differ::new(Some(DEV), Some(DEV));
    assert_eq!(drive(&mut differ, &loc(&["gone"]), &observation_at), DiffStatus::Nonexistent);
    assert!(differ.cached(&loc(&["gone"])).is_none());
}

#[test]
fn a_vanished_entry_is_reported() {
    let observe = |l: &[String]| -> Observation {
        if l.is_empty() {
            Observation { before: Some(dir("/b", &["x"])), after: Some(dir("/a", &[])) }
        } else {
            Observation { before: None, after: None }
        }
    };
    let mut differ = Differ::new(Some(DEV), Some(DEV));
    assert_eq!(drive(&mut differ, &loc(&[]), &observe), DiffStatus::ChildVanished(loc(&["x"])));
}

#[test]
fn a_modified_file_below_is_reported_unimplemented() {
    let observe = |l: &[String]| -> Observation {
        if l.is_empty() {
            Observation { before: Some(dir("/b", &["f"])), after: Some(dir("/a", &["f"])) }
        } else {
            Observation { before: Some(file("/b/f")), after: Some(file("/a/f")) }
        }
    };
    let mut differ = Differ::new(Some(DEV), Some(DEV));
    assert_eq!(drive(&mut differ, &loc(&[]), &observe), DiffStatus::Unimplemented(loc(&["f"])));
}

#[test]
fn a_second_observation_is_ignored() {
    let mut differ = Differ::new(Some(DEV), Some(DEV));
    differ.observe(loc(&["c"]), Observation { before: None, after: Some(file("/a/c")) });
    differ.observe(loc(&["c"]), Observation { before: None, after: None });
    assert!(differ.is_observed(&loc(&["c"])));
    assert_eq!(differ.get_diff(&loc(&["c"])), DiffStatus::Ready);
}

#[test]
fn file_types_of_states() {
    let st: impermanence_diff::dir_diff::TypedPathState = Typed::FilesystemBoundary(());
    assert_eq!(st.file_type(), FileType::FilesystemBoundary);
}

#[test]
fn results_do_not_depend_on_the_order_of_computation() {
    let mut top_down = Differ::new(Some(DEV), Some(DEV));
    assert_eq!(drive(&mut top_down, &loc(&[]), &observation_at), DiffStatus::Ready);

    let mut bottom_up = Differ::new(Some(DEV), Some(DEV));
    assert_eq!(drive(&mut bottom_up, &loc(&["c"]), &observation_at), DiffStatus::Ready);
    assert_eq!(drive(&mut bottom_up, &loc(&["a"]), &observation_at), DiffStatus::Ready);
    assert_eq!(drive(&mut bottom_up, &loc(&[]), &observation_at), DiffStatus::Ready);

    for l in [loc(&[]), loc(&["a"]), loc(&["c"])] {
        assert_eq!(top_down.cached(&l), bottom_up.cached(&l));
    }
}

#[test]
fn a_fully_observed_tree_is_assessed_in_one_call() {
    let mut differ = Differ::new(Some(DEV), Some(DEV));
    for l in [loc(&[]), loc(&["a"]), loc(&["c"])] {
        let o = observation_at(&l);
        differ.observe(l, o);
    }
    assert_eq!(differ.get_diff(&loc(&[])), DiffStatus::Ready);
    assert_eq!(differ.cached(&loc(&[])).unwrap()[0].grade, AssessmentGrade::Meaningful);
}

#[test]
fn the_first_unobserved_entry_in_order_is_asked_for() {
    let observe = |l: &[String]| -> Observation {
        let parts: Vec<&str> = l.iter().map(|p| p.as_str()).collect();
        match parts.as_slice() {
            [] => Observation { before: Some(dir("/b", &["c", "a", "b"])), after: Some(dir("/a", &["a", "b", "c"])) },
            ["a"] => Observation { before: Some(dir("/b/a", &[])), after: Some(dir("/a/a", &[])) },
            _ => Observation { before: None, after: None },
        }
    };
    let mut differ = Differ::new(Some(DEV), Some(DEV));
    differ.observe(loc(&[]), observe(&[]));
    differ.observe(loc(&["a"]), observe(&loc(&["a"])));
    // `a` is observed and does not matter; `b` comes next, before `c`.
    assert_eq!(differ.get_diff(&loc(&[])), DiffStatus::NeedsObservation(loc(&["b"])));
}

#[test]
fn an_entry_that_matters_ends_the_search() {
    let observe = |l: &[String]| -> Observation {
        let parts: Vec<&str> = l.iter().map(|p| p.as_str()).collect();
        match parts.as_slice() {
            [] => Observation { before: Some(dir("/b", &["a"])), after: Some(dir("/a", &["a", "z"])) },
            ["a"] => Observation { before: Some(file("/b/a")), after: None },
            _ => Observation { before: None, after: None },
        }
    };
    let mut differ = Differ::new(Some(DEV), Some(DEV));
    differ.observe(loc(&[]), observe(&[]));
    differ.observe(loc(&["a"]), observe(&loc(&["a"])));
    // `a` was deleted, which matters, so `z` is never looked at.
    assert_eq!(differ.get_diff(&loc(&[])), DiffStatus::Ready);
    assert!(!differ.is_observed(&loc(&["z"])));
    assert_eq!(differ.cached(&loc(&[])).unwrap()[0].grade, AssessmentGrade::Meaningful);
}

#[test]
fn paths_are_compared_by_components() {
    assert!(same_path(&s("a"), &s("a/")));
    assert!(same_path(&s("/nix//store/./x/"), &s("/nix/store/x")));
    assert!(same_path(&s("./a"), &s("./a/.")));
    assert!(!same_path(&s("./a"), &s("a")));
    assert!(!same_path(&s("/a"), &s("a")));
    assert!(!same_path(&s("a/b"), &s("a/c")));
}

#[test]
fn links_to_the_same_path_are_identical() {
    let before = SymlinkState::Link { target: s("a"), broken: false };
    let after = SymlinkState::Link { target: s("a/"), broken: false };
    let r = assess_symlink(SymlinkDiff { before: before.clone(), after });
    assert_eq!(r, Assessment { action: Action::Identical(Typed::Symlink(before)), grade: AssessmentGrade::Meaningless });
}

#[test]
fn grading_a_deletion_leaves_the_cache_alone() {
    let mut differ = Differ::new(Some(DEV), Some(DEV));
    differ.observe(loc(&["c"]), Observation { before: None, after: Some(file("/a/c")) });
    let mut assesser = Assesser { diff_cache: differ };
    let r = assesser.assess(&loc(&["x"]), PathDiff::Recreated { state: LeftRightBoth::Left(Typed::File(())) });
    assert_eq!(r, Ok(vec![Assessment { action: Action::Deleted(Typed::File(())), grade: AssessmentGrade::Meaningful }]));
    assert!(assesser.diff_cache.cached(&loc(&["c"])).is_none());
}

#[test]
fn a_deep_directory_with_nothing_observed_below_asks_for_its_first_entry() {
    let mut assesser = Assesser { diff_cache: Differ::new(Some(DEV), Some(DEV)) };
    let d = DirectoryDiff { entries: vec![(s("k"), LeftRightBoth::Both(s("/b/q/k"), s("/a/q/k")))] };
    assert_eq!(assess_directory(&mut assesser, &loc(&["q"]), d), Err(DiffStatus::NeedsObservation(loc(&["q", "k"]))));
}

#[test]
fn comparing_the_other_way_round_swaps_sides() {
    let x = DirectoryPath(dir("/x", &["a", "b"]));
    let y = DirectoryPath(dir("/y", &["b", "c"]));
    let xy = DirectoryDiff::diff_paths(Some(&x), Some(&y));
    let yx = DirectoryDiff::diff_paths(Some(&y), Some(&x));
    let swapped: Vec<(String, LeftRightBoth<String>)> = xy
        .entries
        .into_iter()
        .map(|(n, v)| {
            let v = match v {
                LeftRightBoth::Left(p) => LeftRightBoth::Right(p),
                LeftRightBoth::Right(p) => LeftRightBoth::Left(p),
                LeftRightBoth::Both(p, q) => LeftRightBoth::Both(q, p),
            };
            (n, v)
        })
        .collect();
    assert_eq!(yx.entries, swapped);
    assert_eq!(DirectoryDiff::diff_paths(None, None), DirectoryDiff { entries: vec![] });
}

#[test]
fn link_states_compare_targets_as_paths() {
    let a = SymlinkState::Link { target: s("a"), broken: true };
    assert_ne!(a, SymlinkState::Link { target: s("./a/"), broken: true }.clone());
    assert_eq!(a, SymlinkState::Link { target: s("a//"), broken: true });
    assert_ne!(a, SymlinkState::Link { target: s("a"), broken: false });
    assert_ne!(a, SymlinkState::Link { target: s("b"), broken: true });
    assert_eq!(nix("h", "p/"), nix("h", "p/"));
}

#[test]
fn path_component_edge_cases() {
    assert!(same_path(&s("."), &s("./")));
    assert!(same_path(&s("/"), &s("//")));
    assert!(same_path(&s("/."), &s("/")));
    assert!(same_path(&s("a/./b"), &s("a/b/.")));
    assert!(!same_path(&s(""), &s(".")));
    assert!(!same_path(&s("a/.."), &s("")));
    assert!(same_path(&s("../a"), &s("..//a/")));
}
