use impermanence_diff::assesser::{AssessedAction, Assessment, AssessmentGrade};
use impermanence_diff::diff_util::LeftRightBoth;
use impermanence_diff::dir_diff::{
    DiffStatus, Differ, DirectoryDiff, Observation, SymlinkDiff, SymlinkState,
};
use impermanence_diff::thunk::Thunk;
use impermanence_diff::tui::nav_list::{selected_index, NavListItem, NavListState};
use impermanence_diff::tui::{
    action_directory_diff, assessments_directory_diff, display_diff, element_pane, location_text,
    next_name, previous_name, App, DisplayLine, KeyInput, KeyOutcome, LineStyle, Pane, PaneBody,
    PaneBorder,
};
use impermanence_diff::typed_actions::{Action, Typed};
use impermanence_diff::typed_path::{ExistentPath, LinkInfo, PathMeta};

const DEV: u64 = 3;

fn s(x: &str) -> String {
    x.to_string()
}

fn file(path: &str) -> ExistentPath {
    ExistentPath {
        path: s(path),
        meta: PathMeta { dev: DEV, is_symlink: false, is_dir: false, is_file: true },
        link: None,
        entries: None,
    }
}

fn link(path: &str, target: &str) -> ExistentPath {
    ExistentPath {
        path: s(path),
        meta: PathMeta { dev: DEV, is_symlink: true, is_dir: false, is_file: false },
        link: Some(LinkInfo { target: s(target), target_exists: true }),
        entries: None,
    }
}

fn dir(path: &str, names: &[&str]) -> ExistentPath {
    ExistentPath {
        path: s(path),
        meta: PathMeta { dev: DEV, is_symlink: false, is_dir: true, is_file: false },
        link: None,
        entries: Some(names.iter().map(|n| (s(n), format!("{}/{}", path, n))).collect()),
    }
}

fn loc(parts: &[&str]) -> Vec<String> {
    parts.iter().map(|p| s(p)).collect()
}

/// Before: root lists `a`, `b`; after: root lists `a`, `b`, `c`, and `b` became a link.
fn observe(l: &[String]) -> Observation {
    let parts: Vec<&str> = l.iter().map(|p| p.as_str()).collect();
    match parts.as_slice() {
        [] => Observation { before: Some(dir("/b", &["a", "b"])), after: Some(dir("/a", &["a", "b", "c"])) },
        ["a"] => Observation { before: Some(dir("/b/a", &[])), after: Some(dir("/a/a", &[])) },
        ["b"] => Observation { before: Some(file("/b/b")), after: Some(link("/a/b", "/etc/x")) },
        ["c"] => Observation { before: None, after: Some(file("/a/c")) },
        _ => Observation { before: None, after: None },
    }
}

fn settle<T>(differ: &mut Differ, mut op: impl FnMut(&mut Differ) -> Result<T, DiffStatus>) -> T {
    loop {
        match op(differ) {
            Ok(v) => return v,
            Err(DiffStatus::NeedsObservation(l)) => {
                let o = observe(&l);
                differ.observe(l, o);
            }
            Err(other) => panic!("stuck: {:?}", other),
        }
    }
}

fn ready_differ() -> Differ {
    let mut differ = Differ::new(Some(DEV), Some(DEV));
    settle(&mut differ, |d| match d.get_diff(&loc(&[])) {
        DiffStatus::Ready => Ok(()),
        other => Err(other),
    });
    differ
}

#[test]
fn next_and_previous_walk_the_listing() {
    let mut d = ready_differ();
    let root = loc(&[]);
    assert_eq!(settle(&mut d, |d| d.get_next(&root, None)), Some(s("a")));
    assert_eq!(settle(&mut d, |d| d.get_next(&root, Some(&s("a")))), Some(s("b")));
    assert_eq!(settle(&mut d, |d| d.get_next(&root, Some(&s("c")))), Some(s("c")));
    assert_eq!(settle(&mut d, |d| d.get_next(&root, Some(&s("zzz")))), Some(s("a")));
    assert_eq!(settle(&mut d, |d| d.get_previous(&root, None)), Some(s("c")));
    assert_eq!(settle(&mut d, |d| d.get_previous(&root, Some(&s("b")))), Some(s("a")));
    assert_eq!(settle(&mut d, |d| d.get_previous(&root, Some(&s("a")))), Some(s("a")));
    // Not a directory: nothing to walk.
    assert_eq!(settle(&mut d, |d| d.get_next(&loc(&["c"]), None)), None);
    // Nothing there at all.
    assert_eq!(settle(&mut d, |d| d.get_next(&loc(&["nothing"]), None)), None);
}

#[test]
fn down_then_up_comes_back() {
    let names = vec![s("a"), s("b"), s("c")];
    for i in 0..2 {
        let next = next_name(&names, Some(&names[i]));
        assert_eq!(previous_name(&names, next.as_ref()), Some(names[i].clone()));
    }
    for i in 1..3 {
        let prev = previous_name(&names, Some(&names[i]));
        assert_eq!(next_name(&names, prev.as_ref()), Some(names[i].clone()));
    }
    assert_eq!(next_name(&vec![], None), None);
    assert_eq!(previous_name(&vec![], Some(&s("a"))), None);
}

#[test]
fn items_list_each_entry_with_its_colour() {
    let mut d = ready_differ();
    let items = settle(&mut d, |d| d.get_items(&loc(&[]))).unwrap();
    let texts: Vec<(String, LineStyle, Option<String>)> =
        items.into_iter().map(|i| (i.text.text, i.text.style, i.sub_location)).collect();
    assert_eq!(
        texts,
        vec![
            (s("\u{f07b} a/"), LineStyle::Unimportant, Some(s("a"))),
            (s("\u{f15b} b"), LineStyle::Deleted, Some(s("b"))),
            (s("\u{f0c1} b"), LineStyle::Created, Some(s("b"))),
            (s("\u{f15b} c"), LineStyle::Created, Some(s("c"))),
        ]
    );
    assert_eq!(settle(&mut d, |d| d.get_items(&loc(&["c"]))), None);
}

#[test]
fn display_lines_by_kind_and_grade() {
    let a = Assessment { action: Action::Modified(Typed::FilesystemBoundary(())), grade: AssessmentGrade::Meaningful };
    assert_eq!(display_diff(&s("mnt"), &a), DisplayLine { text: s("\u{f08e} mnt/"), style: LineStyle::Modified });
    let a = Assessment { action: Action::Identical(Typed::Unknown(s("?"))), grade: AssessmentGrade::Meaningful };
    assert_eq!(display_diff(&s("dev"), &a), DisplayLine { text: s("? dev"), style: LineStyle::Unimportant });
    let a = Assessment { action: Action::Deleted(Typed::File(())), grade: AssessmentGrade::Meaningless };
    assert_eq!(display_diff(&s("f"), &a).style, LineStyle::Unimportant);
}

#[test]
fn the_directory_among_assessments_is_found() {
    let dd = || DirectoryDiff { entries: vec![(s("x"), LeftRightBoth::Left(s("/x")))] };
    let v = vec![
        Assessment { action: Action::Deleted(Typed::File(())), grade: AssessmentGrade::Meaningful },
        Assessment { action: Action::Created(Typed::Directory(dd())), grade: AssessmentGrade::Meaningful },
    ];
    assert_eq!(assessments_directory_diff(&v), Some(&dd()));
    assert_eq!(action_directory_diff(&AssessedAction::Created(Typed::File(()))), None);
    assert_eq!(assessments_directory_diff(&vec![]), None);
}

#[test]
fn selection_highlights_the_first_matching_item() {
    let item = |sub: Option<&str>| NavListItem {
        text: DisplayLine { text: s("t"), style: LineStyle::Created },
        sub_location: sub.map(s),
    };
    let items = vec![item(None), item(Some("a")), item(Some("b")), item(Some("b"))];
    assert_eq!(selected_index(&items, &Some(s("b"))), Some(2));
    assert_eq!(selected_index(&items, &Some(s("z"))), None);
    assert_eq!(selected_index(&items, &None), None);
}

#[test]
fn keys_move_the_selection_and_the_location() {
    let mut app = App::new(ready_differ());
    let step = |app: &mut App, key: KeyInput| -> KeyOutcome {
        loop {
            match app.handle_key(key) {
                Ok(o) => return o,
                Err(DiffStatus::NeedsObservation(l)) => {
                    let o = observe(&l);
                    app.diff_cache.observe(l, o);
                }
                Err(other) => panic!("stuck: {:?}", other),
            }
        }
    };
    assert_eq!(step(&mut app, KeyInput::Left), KeyOutcome::Unchanged);
    assert_eq!(step(&mut app, KeyInput::Right), KeyOutcome::Unchanged);
    assert_eq!(step(&mut app, KeyInput::Down), KeyOutcome::Redraw);
    assert_eq!(app.nav_state(&loc(&[])).selected, Some(s("a")));
    assert_eq!(step(&mut app, KeyInput::Down), KeyOutcome::Redraw);
    assert_eq!(step(&mut app, KeyInput::Up), KeyOutcome::Redraw);
    assert_eq!(app.nav_state(&loc(&[])).selected, Some(s("a")));
    assert_eq!(step(&mut app, KeyInput::Right), KeyOutcome::Redraw);
    assert_eq!(app.path, loc(&["a"]));
    assert_eq!(step(&mut app, KeyInput::Left), KeyOutcome::Redraw);
    assert_eq!(app.path, loc(&[]));
    assert_eq!(step(&mut app, KeyInput::Other), KeyOutcome::Unchanged);
    assert_eq!(step(&mut app, KeyInput::Quit), KeyOutcome::Quit);
}

#[test]
fn draw_targets_show_parent_location_and_selection() {
    let mut app = App::new(ready_differ());
    let t = app.draw_targets();
    assert_eq!(t.left, None);
    assert_eq!(t.middle, loc(&[]));
    assert_eq!(t.right, None);
    assert_eq!(app.nav_state(&loc(&[])), NavListState { offset: 0, selected: None });
    app.nav_list_states[0].1.selected = Some(s("b"));
    app.path = loc(&["a"]);
    let t = app.draw_targets();
    assert_eq!(t.left, Some(loc(&[])));
    assert_eq!(t.right, None);
    app.path = loc(&[]);
    let t = app.draw_targets();
    assert_eq!(t.right, Some(loc(&["b"])));
}

#[test]
fn a_thunk_computes_once_and_keeps_its_value() {
    let mut t = Thunk::lazy(|| 40 + 2);
    assert_eq!(*t.get(), 42);
    assert_eq!(*t.get(), 42);
    *t.get_mut() += 1;
    assert_eq!(*t.get(), 43);
    let mut p: Thunk<i32, fn() -> i32> = Thunk::present(7);
    assert_eq!(*p.get_mut(), 7);
}

fn link_to(target: &str) -> SymlinkState {
    SymlinkState::Link { target: s(target), broken: false }
}

#[test]
fn locations_are_joined_by_slashes() {
    assert_eq!(location_text(&vec![]), "");
    assert_eq!(location_text(&vec![s("a")]), "a");
    assert_eq!(location_text(&vec![s("a"), s("b"), s("c")]), "a/b/c");
}

#[test]
fn a_changed_link_shows_both_targets() {
    let element = Assessment {
        action: AssessedAction::Modified(Typed::Symlink(SymlinkDiff {
            before: link_to("/old"),
            after: link_to("/new"),
        })),
        grade: AssessmentGrade::Meaningful,
    };
    assert_eq!(
        element_pane(&vec![s("x")], &element),
        Pane {
            border: PaneBorder::Modified,
            title: s("Symlink changed"),
            body: PaneBody::Lines(vec![
                DisplayLine { text: s("/old"), style: LineStyle::Deleted },
                DisplayLine { text: s("/new"), style: LineStyle::Created },
            ]),
        }
    );
}

#[test]
fn panes_of_kept_created_and_deleted_entries() {
    let kept = Assessment {
        action: AssessedAction::Identical(Typed::Symlink(link_to("/t"))),
        grade: AssessmentGrade::Meaningless,
    };
    assert_eq!(
        element_pane(&vec![s("l")], &kept),
        Pane {
            border: PaneBorder::Identical,
            title: s("Symlink"),
            body: PaneBody::Lines(vec![DisplayLine { text: s("/t"), style: LineStyle::Plain }]),
        }
    );

    let created = Assessment {
        action: AssessedAction::Created(Typed::File(())),
        grade: AssessmentGrade::Meaningful,
    };
    assert_eq!(
        element_pane(&vec![s("f")], &created),
        Pane { border: PaneBorder::Created, title: s("File"), body: PaneBody::Lines(vec![]) }
    );

    let deleted = Assessment {
        action: AssessedAction::Deleted(Typed::FilesystemBoundary(())),
        grade: AssessmentGrade::Meaningless,
    };
    assert_eq!(
        element_pane(&vec![s("m")], &deleted),
        Pane { border: PaneBorder::Deleted, title: s("FS Boundary"), body: PaneBody::Lines(vec![]) }
    );

    let unknown = Assessment {
        action: AssessedAction::Created(Typed::Unknown(s("Unknown file path type"))),
        grade: AssessmentGrade::Meaningful,
    };
    assert_eq!(
        element_pane(&vec![s("u")], &unknown).body,
        PaneBody::Lines(vec![DisplayLine { text: s("Unknown file path type"), style: LineStyle::Plain }])
    );
}

#[test]
fn a_directory_pane_is_titled_by_its_location() {
    let element = Assessment {
        action: AssessedAction::Modified(Typed::Directory(DirectoryDiff { entries: vec![] })),
        grade: AssessmentGrade::Meaningless,
    };
    assert_eq!(
        element_pane(&vec![s("a"), s("b")], &element),
        Pane { border: PaneBorder::Modified, title: s("a/b"), body: PaneBody::Directory }
    );
}

#[test]
fn everything_observed_up_front_needs_no_further_observation() {
    let mut d = Differ::new(Some(DEV), Some(DEV));
    for l in [loc(&[]), loc(&["a"]), loc(&["b"]), loc(&["c"])] {
        let o = observe(&l);
        d.observe(l, o);
    }
    assert_eq!(d.get_next(&loc(&[]), None), Ok(Some(s("a"))));
    assert_eq!(d.get_items(&loc(&[])).map(|items| items.map(|i| i.len())), Ok(Some(4)));
    let mut app = App::new(d);
    assert_eq!(app.handle_key(KeyInput::Down), Ok(KeyOutcome::Redraw));
}
