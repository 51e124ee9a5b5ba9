use stask::app::screen::{popup_rows, POPUP_HEIGHT_PCT, POPUP_WIDTH_PCT};
use stask::app::{App, Mode};
use stask::command::{id, Context};
use stask::db::Db;
use stask::error::{Error, StoreError};
use stask::external_editor::EditOutcome;
use stask::help::HelpLine;
use stask::input::{EditResult, Editor};
use stask::key::{Key, KeySeq};
use stask::keymap::{Dispatcher, Keymap};
use stask::query::{Filter, Query, Sort};
use stask::status::{StatusKind, StatusMove};
use stask::status_cycle::{adjacent_status_id, Direction};
use stask::task::{Task, TaskMove};
use stask::{
    command, footer, help, keyspec, note, overlay, query_view, status_manage, style, text, tree, width,
};
use unicode_width::UnicodeWidthStr;

const TODAY: &str = "2026-07-12";
const NOW: &str = "2026-07-12T09:00:00Z";

/// a (with children b, c; b with child d) and e.
fn family() -> (Db, [i64; 5]) {
    let mut db = Db::open_in_memory().unwrap();
    let status = db.default_status_id().unwrap();
    let a = db.create_task(None, "a", None, status).unwrap().id;
    let b = db.create_task(Some(a), "b", None, status).unwrap().id;
    let c = db.create_task(Some(a), "c", None, status).unwrap().id;
    let d = db.create_task(Some(b), "d", None, status).unwrap().id;
    let e = db.create_task(None, "e", None, status).unwrap().id;
    (db, [a, b, c, d, e])
}

fn app_over(db: &Db) -> App {
    App::new_at(
        db.list_all().unwrap(),
        db.list_statuses().unwrap(),
        db.default_status_id().unwrap(),
        TODAY,
    )
}

fn press(app: &mut App, db: &mut Db, key: Key) {
    app.handle_key_at(db, key, TODAY, NOW).unwrap();
}

fn titles(tasks: &[Task]) -> Vec<&str> {
    tasks.iter().map(|t| t.title.as_str()).collect()
}

fn query(text: Option<&str>, filter: Filter, sort: Sort) -> Query {
    Query { text: text.map(str::to_string), filter, sort }
}

#[test]
fn undo_puts_the_cursor_on_a_task_outside_the_zoom() {
    let (mut db, [_, _, _, d, e]) = family();
    db.rename_task(d, "deep").unwrap();
    let mut app = app_over(&db);
    app.select_task(e);
    press(&mut app, &mut db, Key::Char('L'));
    assert_eq!(app.zoom_root, Some(e));

    press(&mut app, &mut db, Key::Char('u'));

    assert_eq!(app.zoom_root, None);
    assert_eq!(app.selected_task_id(), Some(d));
    assert_eq!(app.status_line.as_deref(), Some("undid: rename \"d\" → \"deep\""));
}

#[test]
fn undo_collapses_nothing_and_keeps_the_filter() {
    let (mut db, [a, _, _, _, e]) = family();
    db.rename_task(e, "other").unwrap();
    let mut app = app_over(&db);
    app.select_task(a);
    press(&mut app, &mut db, Key::Tab);
    app.filter = Filter::Open;

    press(&mut app, &mut db, Key::Char('u'));

    assert!(app.expanded.contains(&a));
    assert_eq!(app.filter, Filter::Open);
}

#[test]
fn a_filtered_out_task_is_not_revealed() {
    let (mut db, [_, _, _, _, e]) = family();
    let done = db.list_statuses().unwrap().iter().find(|s| s.kind == StatusKind::Done).unwrap().id;
    db.set_status(e, done).unwrap();
    db.rename_task(e, "hidden").unwrap();
    let mut app = app_over(&db);
    app.filter = Filter::Open;
    app.rebuild_rows_at(TODAY);

    press(&mut app, &mut db, Key::Char('u'));

    assert_ne!(app.selected_task_id(), Some(e));
    assert_eq!(db.list_children(None).unwrap()[1].title, "e");
}

#[test]
fn jumping_to_a_result_reveals_it() {
    let (mut db, [_, _, _, d, _]) = family();
    let mut app = app_over(&db);

    press(&mut app, &mut db, Key::Char('/'));
    press(&mut app, &mut db, Key::Char('d'));
    press(&mut app, &mut db, Key::Enter);
    press(&mut app, &mut db, Key::Enter);

    assert!(matches!(app.mode, Mode::Tree));
    assert_eq!(app.selected_task_id(), Some(d));
}

#[test]
fn zooming_out_selects_what_was_zoomed_into() {
    let (mut db, [a, b, _, _, _]) = family();
    let mut app = app_over(&db);
    app.select_task(a);
    press(&mut app, &mut db, Key::Char('L'));
    app.select_task(b);
    press(&mut app, &mut db, Key::Char('L'));
    assert_eq!(app.zoom_root, Some(b));

    press(&mut app, &mut db, Key::Char('H'));

    assert_eq!(app.zoom_root, Some(a));
    assert_eq!(app.selected_task_id(), Some(b));
}

#[test]
fn searching_and_reading_the_help_leave_the_store_alone() {
    let (mut db, _) = family();
    db.take_unsaved();
    let history = db.undo_descriptions();
    let mut app = app_over(&db);

    for key in ["/", "x", "?", "D"] {
        press(&mut app, &mut db, Key::Char(key.chars().next().unwrap()));
    }
    press(&mut app, &mut db, Key::Esc);
    for key in ["?", "D", "n", "u"] {
        press(&mut app, &mut db, Key::Char(key.chars().next().unwrap()));
    }

    assert!(db.take_unsaved().is_empty());
    assert_eq!(db.undo_descriptions(), history);
}

#[test]
fn escaping_the_input_line_creates_nothing() {
    let (mut db, _) = family();
    let mut app = app_over(&db);

    press(&mut app, &mut db, Key::Char('n'));
    press(&mut app, &mut db, Key::Char('x'));
    press(&mut app, &mut db, Key::Esc);

    assert!(matches!(app.mode, Mode::Tree));
    assert_eq!(db.list_all().unwrap().len(), 5);
}

#[test]
fn the_delete_prompt_ends_with_any_key() {
    let (mut db, [a, ..]) = family();
    let mut app = app_over(&db);
    app.select_task(a);

    press(&mut app, &mut db, Key::Char('D'));
    assert!(matches!(app.mode, Mode::ConfirmDelete { .. }));
    press(&mut app, &mut db, Key::Char('Y'));

    assert!(matches!(app.mode, Mode::Tree));
    assert_eq!(db.list_all().unwrap().len(), 5);
}

#[test]
fn the_status_menu_stays_open_on_a_foreign_key() {
    let (mut db, [a, ..]) = family();
    let mut app = app_over(&db);
    app.select_task(a);

    press(&mut app, &mut db, Key::Char('s'));
    press(&mut app, &mut db, Key::Char('§'));

    assert!(matches!(app.mode, Mode::StatusSelect { .. }));
}

#[test]
fn a_filter_chosen_in_the_search_narrows_the_tree() {
    let (mut db, [_, _, _, _, e]) = family();
    let done = db.list_statuses().unwrap().iter().find(|s| s.kind == StatusKind::Done).unwrap().id;
    db.set_status(e, done).unwrap();
    let mut app = app_over(&db);
    assert_eq!(app.rows.len(), 2);

    press(&mut app, &mut db, Key::Char('/'));
    press(&mut app, &mut db, Key::Enter);
    press(&mut app, &mut db, Key::Char('f'));
    press(&mut app, &mut db, Key::Char('o'));
    press(&mut app, &mut db, Key::Char('q'));

    assert_eq!(app.filter, Filter::Open);
    assert_eq!(app.rows.len(), 1);
}

#[test]
fn a_note_edit_lands_as_one_step() {
    let (mut db, [a, ..]) = family();
    let mut app = app_over(&db);
    let before = db.undo_descriptions().len();

    app.finish_note_edit_at(
        &mut db,
        a,
        EditOutcome::Changed("one\ntwo\n".to_string()),
        TODAY,
        NOW,
    )
    .unwrap();
    assert_eq!(db.undo_descriptions().len(), before + 1);
    assert_eq!(app.note_of(a).as_deref(), Some("one\ntwo\n"));
    assert_eq!(app.status_line.as_deref(), Some("note updated (u to undo)"));

    app.finish_note_edit_at(&mut db, a, EditOutcome::Unchanged, TODAY, NOW).unwrap();
    assert_eq!(app.status_line.as_deref(), Some("note unchanged"));
    app.finish_note_edit_at(&mut db, a, EditOutcome::Aborted, TODAY, NOW).unwrap();
    assert_eq!(
        app.status_line.as_deref(),
        Some("note edit discarded (editor exited with an error)")
    );
    assert_eq!(db.undo_descriptions().len(), before + 1);
}

#[test]
fn the_modal_never_gives_a_key_twice() {
    let (mut db, _) = family();
    let mut app = app_over(&db);

    press(&mut app, &mut db, Key::Char('S'));
    press(&mut app, &mut db, Key::Char('n'));
    press(&mut app, &mut db, Key::Char('x'));
    press(&mut app, &mut db, Key::Enter);

    let keys: Vec<char> = db.list_statuses().unwrap().iter().map(|s| s.key).collect();
    let mut unique = keys.clone();
    unique.sort();
    unique.dedup();
    assert_eq!(unique.len(), keys.len());
    assert_eq!(keys.len(), 6);
}

#[test]
fn the_status_modal_leaves_the_tasks_alone() {
    let (mut db, _) = family();
    let tasks = db.list_all().unwrap();
    let mut app = app_over(&db);

    press(&mut app, &mut db, Key::Char('S'));
    for key in ['*', 'D', 'u', 'U', 'u', 'u', 'u'] {
        press(&mut app, &mut db, Key::Char(key));
    }
    press(&mut app, &mut db, Key::Ctrl('j'));
    press(&mut app, &mut db, Key::Char('q'));

    assert!(matches!(app.mode, Mode::Tree));
    assert_eq!(db.list_all().unwrap(), tasks);
    assert_eq!(db.undo_descriptions().last().map(String::as_str), Some("edit statuses"));
}

#[test]
fn a_refused_action_leaves_data_and_history() {
    let (mut db, [a, b, _, d, _]) = family();
    let tasks = db.list_all().unwrap();
    let history = db.undo_descriptions();

    assert!(db.reparent(a, Some(d), None).is_err());
    assert!(db.set_due(b, Some("2026-02-30")).is_err());
    assert!(db.set_status(b, 77).is_err());
    assert!(db.rename_task(77, "x").is_err());

    assert_eq!(db.list_all().unwrap(), tasks);
    assert_eq!(db.undo_descriptions(), history);
}

#[test]
fn only_calendar_days_become_due_dates() {
    let (mut db, [a, ..]) = family();

    for good in ["2024-02-29", "2026-12-31", "0001-01-01", "2000-02-29"] {
        db.set_due(a, Some(good)).unwrap();
        assert_eq!(db.list_children(None).unwrap()[0].due.as_deref(), Some(good));
    }
    for bad in ["2026-02-29", "1900-02-29", "2026-13-01", "2026-00-10", "2026-04-31", "2026-1-5",
        " 2026-01-05", "2026-01-05 ", "26-01-05", "+12026-01-01", "-0001-01-01", "+2026-01-01", "2026/01/05", "tomorrow", ""]
    {
        assert_eq!(db.set_due(a, Some(bad)), Err(Error::InvalidDate(bad.to_string())), "{bad}");
    }
    assert_eq!(db.list_children(None).unwrap()[0].due.as_deref(), Some("2000-02-29"));
}

#[test]
fn a_canonical_spelling_is_what_set_due_at_compares_with() {
    let (mut db, [a, ..]) = family();

    let other = Some("2026-01-05".to_string());
    assert_eq!(
        db.set_due_at(a, Some("2026-1-5"), other, NOW),
        Err(Error::InvalidDate("2026-1-5".to_string()))
    );
    assert_eq!(
        db.set_due_at(a, Some("x"), None, NOW),
        Err(Error::InvalidDate("x".to_string()))
    );
    assert_eq!(
        db.set_due_at(a, Some("+12026-01-01"), Some("+12026-01-01".to_string()), NOW),
        Err(Error::InvalidDate("+12026-01-01".to_string()))
    );
    db.set_due_at(a, Some("x"), Some("x".to_string()), NOW).unwrap();
    assert_eq!(db.list_children(None).unwrap()[0].due.as_deref(), Some("x"));
}

#[test]
fn every_order_finds_every_task_once() {
    let (mut db, [_, b, _, _, e]) = family();
    db.set_due_at(e, Some("2026-01-01"), Some("2026-01-01".to_string()), NOW).unwrap();
    db.set_due_at(b, Some("2026-02-01"), Some("2026-02-01".to_string()), NOW).unwrap();

    let tree_order = db.search(&query(None, Filter::All, Sort::TreeOrder), TODAY).unwrap();
    assert_eq!(titles(&tree_order), ["a", "b", "d", "c", "e"]);
    let due = db.search(&query(None, Filter::All, Sort::Due), TODAY).unwrap();
    assert_eq!(titles(&due)[..2], ["e", "b"]);
    for sort in [Sort::TreeOrder, Sort::Due, Sort::Updated, Sort::Created, Sort::Title] {
        let mut found = db.search(&query(None, Filter::All, sort), TODAY).unwrap();
        found.sort_by_key(|t| t.id);
        assert_eq!(titles(&found), ["a", "b", "c", "d", "e"]);
    }
}

#[test]
fn a_search_finds_nothing_but_matches() {
    let (mut db, [a, b, ..]) = family();
    db.set_note(a, "Buy MILK\nand eggs").unwrap();
    db.rename_task(b, "milkshake").unwrap();

    let found = db.search(&query(Some("milk"), Filter::All, Sort::TreeOrder), TODAY).unwrap();
    assert_eq!(titles(&found), ["a", "milkshake"]);
    let none = db.search(&query(Some("milk"), Filter::Overdue, Sort::TreeOrder), TODAY).unwrap();
    assert!(none.is_empty());
}

#[test]
fn deleting_takes_the_subtree_and_nothing_else() {
    let (mut db, [_, b, _, _, _]) = family();

    assert_eq!(db.count_subtree(b).unwrap(), 2);
    assert_eq!(db.delete_subtree(b).unwrap(), 2);

    assert_eq!(titles(&db.list_all().unwrap()), ["a", "e", "c"]);
}

#[test]
fn a_new_task_goes_behind_the_given_order() {
    let (mut db, [a, b, ..]) = family();
    let status = db.default_status_id().unwrap();
    let order = db.list_children(Some(a)).unwrap()[0].display_order;

    let x = db.create_task(Some(a), "x", Some(order), status).unwrap();
    let y = db.create_task(Some(a), "y", None, status).unwrap();

    let children = db.list_children(Some(a)).unwrap();
    assert_eq!(titles(&children), ["b", "x", "c", "y"]);
    assert_eq!(children[0].id, b);
    assert_eq!(children[1], x);
    assert_eq!(children[3], y);
    let orders: Vec<i64> = children.iter().map(|t| t.display_order).collect();
    assert_eq!(orders, [0, 1, 2, 3]);
}

#[test]
fn a_reparented_task_takes_a_free_place() {
    let (mut db, [a, b, c, _, e]) = family();

    db.reparent(e, Some(a), Some(0)).unwrap();

    let children = db.list_children(Some(a)).unwrap();
    assert_eq!(titles(&children), ["b", "e", "c"]);
    assert_eq!(children.iter().map(|t| t.display_order).collect::<Vec<_>>(), [0, 1, 2]);
    assert_eq!([children[0].id, children[2].id], [b, c]);
}

#[test]
fn moving_down_and_up_again_changes_nothing() {
    let (mut db, [_, b, c, ..]) = family();
    let before = db.list_all().unwrap();

    db.move_task(b, TaskMove::Down).unwrap();
    assert_ne!(db.list_all().unwrap(), before);
    db.move_task(b, TaskMove::Up).unwrap();
    assert_eq!(db.list_all().unwrap(), before);

    db.move_task(c, TaskMove::Down).unwrap();
    assert_eq!(db.list_all().unwrap(), before);
}

#[test]
fn moving_back_works_beside_a_disordered_group() {
    let (db, [_, b, ..]) = family();
    let mut tasks = db.list_all().unwrap();
    for task in &mut tasks {
        if task.parent_id.is_none() {
            task.display_order = 0;
        }
    }
    let mut db = Db::from_rows(tasks, db.list_statuses().unwrap()).unwrap();
    let before = db.list_all().unwrap();

    db.move_task(b, TaskMove::Down).unwrap();
    db.move_task(b, TaskMove::Up).unwrap();

    assert_eq!(db.list_all().unwrap(), before);
}

#[test]
fn undo_and_redo_walk_the_same_path() {
    let (mut db, [a, b, _, _, e]) = family();
    let mut states = vec![db.list_all().unwrap()];
    db.rename_task(a, "A").unwrap();
    states.push(db.list_all().unwrap());
    db.reparent(e, Some(b), None).unwrap();
    states.push(db.list_all().unwrap());
    db.delete_subtree(b).unwrap();
    states.push(db.list_all().unwrap());

    for state in states.iter().rev().skip(1) {
        assert!(db.undo().unwrap().is_some());
        assert_eq!(&db.list_all().unwrap(), state);
    }
    for state in states.iter().skip(1) {
        assert!(db.redo().unwrap().is_some());
        assert_eq!(&db.list_all().unwrap(), state);
    }
}

#[test]
fn a_closed_scope_is_one_step_and_an_empty_one_none() {
    let mut db = Db::open_in_memory().unwrap();
    let before = db.list_statuses().unwrap();

    db.begin_undo_scope().unwrap();
    db.end_undo_scope("edit statuses").unwrap();
    assert!(db.undo_descriptions().is_empty());

    db.begin_undo_scope().unwrap();
    db.move_status(before[0].id, StatusMove::Down).unwrap();
    db.update_status_label(before[1].id, "later").unwrap();
    db.end_undo_scope("edit statuses").unwrap();
    assert_eq!(db.undo_descriptions(), ["edit statuses"]);
    db.undo().unwrap();
    assert_eq!(db.list_statuses().unwrap(), before);
}

#[test]
fn inside_a_scope_undo_stops_at_its_start() {
    let (mut db, _) = family();
    db.begin_undo_scope().unwrap();

    assert!(db.undo().unwrap().is_none());
    assert_eq!(db.list_all().unwrap().len(), 5);
}

#[test]
fn unsaved_changes_lead_a_copy_to_the_same_rows() {
    let (mut db, [_, b, ..]) = family();
    let copy = db.list_all().unwrap();
    db.take_unsaved();

    db.rename_task(b, "B").unwrap();
    db.undo().unwrap();
    let changes = db.take_unsaved();

    assert_eq!(changes.len(), 2);
    assert_eq!(db.list_all().unwrap(), copy);
}

#[test]
fn no_task_has_two_rows() {
    let (db, [a, b, ..]) = family();
    let tasks = db.list_all().unwrap();
    let expanded = [a, b].into_iter().collect();

    let rows = tree::build_visible_rows(&tasks, &expanded, None, None);

    let mut shown: Vec<usize> = rows.iter().map(|r| r.task_index).collect();
    assert_eq!(shown.len(), 5);
    shown.sort();
    shown.dedup();
    assert_eq!(shown.len(), 5);
}

#[test]
fn the_help_shows_the_keys_a_command_was_rebound_to() {
    let mut keymap = Keymap::default();
    keymap.rebind(Context::Tree, id::QUIT, vec![KeySeq::chars("xx"), KeySeq::from(Key::Esc)]);

    let lines = help::lines(&command::commands(), &keymap);

    assert!(lines.contains(&HelpLine::Entry {
        keys: "xx <esc>".to_string(),
        label: "quit",
        id: id::QUIT,
    }));
}

#[test]
fn an_unbound_command_is_not_in_the_help() {
    let mut keymap = Keymap::default();
    keymap.rebind(Context::Tree, id::QUIT, vec![]);

    let lines = help::lines(&command::commands(), &keymap);

    assert!(!lines.iter().any(|l| matches!(l, HelpLine::Entry { id: i, .. } if *i == id::QUIT)));
}

#[test]
fn typing_and_backspace_cancel_out() {
    let editor = Editor::with_text("käse");

    let EditResult::Continue(editor) = editor.handle_key(Key::Left) else {
        panic!("still editing");
    };
    let EditResult::Continue(editor) = editor.handle_key(Key::Char('é')) else {
        panic!("still editing");
    };
    assert_eq!(editor.text(), "käsée");
    let EditResult::Continue(editor) = editor.handle_key(Key::Backspace) else {
        panic!("still editing");
    };

    assert_eq!(editor.text(), "käse");
    assert_eq!(editor.position(), 3);
}

#[test]
fn a_pending_prefix_completes() {
    let keymap = Keymap::default();
    let mut dispatcher = Dispatcher::default();

    assert_eq!(dispatcher.key(&keymap, Context::Tree, Key::Char('g')), None);
    assert_eq!(
        dispatcher.key(&keymap, Context::Tree, Key::Char('e')),
        Some(id::SELECT_LAST)
    );
}

#[test]
fn a_shadowed_sequence_does_not_complete() {
    let mut keymap = Keymap::default();
    keymap.rebind(Context::Tree, id::QUIT, vec![KeySeq::chars("g")]);
    let mut dispatcher = Dispatcher::default();

    assert_eq!(dispatcher.key(&keymap, Context::Tree, Key::Char('g')), Some(id::QUIT));
    assert_ne!(
        dispatcher.key(&keymap, Context::Tree, Key::Char('e')),
        Some(id::SELECT_LAST)
    );
    assert_eq!(keymap.shadow_warnings().len(), 2);
}

#[test]
fn rebinding_one_command_keeps_the_others() {
    let mut keymap = Keymap::default();
    let undo = keymap.bindings_for(Context::Tree, id::UNDO).len();

    keymap.rebind(Context::Tree, id::TASK_DELETE, vec![KeySeq::chars("x"), KeySeq::chars("X")]);

    assert_eq!(keymap.bindings_for(Context::Tree, id::TASK_DELETE).len(), 2);
    assert_eq!(keymap.bindings_for(Context::Tree, id::UNDO).len(), undo);
}

#[test]
fn notation_and_keys_read_each_other_back() {
    let keys = KeySeq::from_keys(vec![Key::Char('<'), Key::Ctrl('d'), Key::Up, Key::Char('x')]);

    let text = keyspec::format_seq(&keys);

    assert_eq!(text, "<lt><ctrl-d><up>x");
    assert_eq!(keyspec::parse_seq(&text).unwrap(), keys);
}

#[test]
fn the_pane_holds_one_line_more_than_its_limit_at_most() {
    let text = "1\n2\n3\n4\n5\n6\n7";

    assert_eq!(note::pane_lines(text, 4), ["1", "2", "…", "6", "7"]);
    assert!(note::pane_lines(text, 7).len() <= 7);
}

#[test]
fn a_cut_title_ends_in_an_ellipsis() {
    assert_eq!(overlay::truncate_to_width("日本語のタスク", 7), "日本語…");
    assert_eq!(overlay::truncate_by("abcdef", 6, &vec![1; 6], 1, 4), "abc…");
    assert_eq!(overlay::truncate_by("abcdef", 6, &vec![1; 6], 1, 6), "abcdef");
    assert_eq!(overlay::truncate_by("abcdef", 6, &vec![1; 6], 1, 0), "");
}

#[test]
fn a_snippet_spells_the_match_as_the_note_does() {
    let snippet = query_view::note_snippet("one\nBuy MILK today", "milk", 40).unwrap();

    assert_eq!(snippet.matched, "MILK");
    assert_eq!(snippet.before, "Buy ");
    assert_eq!(snippet.after, " today");
    assert!(query_view::note_snippet("one\ntwo", "milk", 40).is_none());
    assert_eq!(query_view::split_budget(10, 2, 20), (2, 8));
    assert_eq!(query_view::split_budget(10, 20, 2), (8, 2));
    assert_eq!(query_view::split_budget(9, 20, 20), (4, 5));
}

#[test]
fn a_snippet_without_a_column_left_has_empty_sides() {
    let snippet = query_view::note_snippet("aXb", "X", 1).unwrap();
    assert_eq!((&*snippet.before, &*snippet.matched, &*snippet.after), ("", "X", ""));

    let snippet = query_view::note_snippet("aaXbb", "x", 2).unwrap();
    assert_eq!((&*snippet.before, &*snippet.matched, &*snippet.after), ("", "X", "…"));

    assert_eq!(query_view::take_head_by("ab", 2, &vec![1, 1], 0), "");
    assert_eq!(query_view::take_tail_by("ab", 2, &vec![1, 1], 0), "");
    assert_eq!(query_view::take_head_by("abc", 3, &vec![1, 1, 1], 2), "a…");
    assert_eq!(query_view::take_tail_by("abc", 3, &vec![1, 1, 1], 2), "…c");
    assert_eq!(query_view::take_head_by("", 0, &vec![], 0), "");
}

#[test]
fn a_snippet_fits_at_every_width() {
    // A heart with a variation selector is wider than its characters.
    for line in ["abcdefXghijkl", "日本語のXタスク名", "\u{2764}\u{fe0f}\u{2764}\u{fe0f}X\u{2764}\u{fe0f}\u{2764}\u{fe0f}\u{2764}\u{fe0f}"] {
        for max in 1..20 {
            let s = query_view::note_snippet(line, "x", max).unwrap();
            let columns = s.before.width() + s.matched.width() + s.after.width();
            assert!(columns <= max, "{columns} of {max}: {s:?}");
        }
    }
}

#[test]
fn a_cut_text_fits_though_its_characters_join() {
    let hearts = "\u{2764}\u{fe0f}".repeat(4);

    for max in 0..9 {
        assert!(overlay::truncate_to_width(&hearts, max).width() <= max);
    }
    assert_eq!(overlay::truncate_to_width(&hearts, 8), hearts);
    assert_eq!(width::trim_end("abc…".to_string(), 3), "ab…");
    assert_eq!(width::trim_start("…abc".to_string(), 3), "…bc");
    assert_eq!(width::trim_end("日".to_string(), 1), "");
    assert_eq!(width::trim_start("".to_string(), 0), "");
}

#[test]
fn a_narrower_footer_shows_the_start_of_a_wider_one() {
    let commands = command::commands();
    let keymap = Keymap::default();
    let whole = footer::footer_line(&commands, &keymap, Context::Tree, 1000);

    for columns in 0..100 {
        let line = footer::footer_line(&commands, &keymap, Context::Tree, columns);
        assert!(whole.starts_with(&line));
        assert!(line.width() <= columns);
    }
}

#[test]
fn dates_sort_by_year_then_month_then_day() {
    let days = ["0999-12-31", "2025-12-31", "2026-01-31", "2026-02-01", "2026-02-02"];

    for pair in days.windows(2) {
        assert!(text::lt(pair[0], pair[1]));
        assert!(!text::lt(pair[1], pair[0]));
    }
}

#[test]
fn a_large_percentage_is_capped_by_the_margins() {
    let popup = overlay::centered_rect(style::Rect::new(0, 0, 1000, 100), 6554, 1000);

    assert_eq!((popup.width, popup.height), (996, 98));
}

#[test]
fn the_list_gets_the_rows_that_the_other_parts_leave() {
    let (mut db, [a, ..]) = family();
    db.set_note(a, "one\ntwo").unwrap();
    let mut app = app_over(&db);

    // The note pane takes its heading and two lines, the footer one.
    assert_eq!(app.screen(60, 20, TODAY).list_rows(20), 16);
    app.show_footer = false;
    app.status_line = Some("saved".to_string());
    app.filter = Filter::Open;
    press(&mut app, &mut db, Key::Char('n'));
    // The header, the input line and the note.
    assert_eq!(app.screen(60, 20, TODAY).list_rows(20), 15);
    assert_eq!(app.screen(60, 3, TODAY).list_rows(3), 0);

    assert_eq!(popup_rows(16, false), 14);
    assert_eq!(popup_rows(16, true), 12);
    assert_eq!(popup_rows(3, true), 0);
    let popup = overlay::centered_rect(
        style::Rect::new(0, 0, 60, 20),
        POPUP_WIDTH_PCT,
        POPUP_HEIGHT_PCT,
    );
    assert_eq!(popup_rows(popup.height, false), 14);
}

#[test]
fn a_bare_tree_of_twenty_rows_lists_nineteen() {
    let db = Db::open_in_memory().unwrap();
    let app = app_over(&db);

    assert_eq!(app.screen(60, 20, TODAY).list_rows(20), 19);
}

#[test]
fn statuses_cycle_back_and_kinds_come_around() {
    let db = Db::open_in_memory().unwrap();
    let statuses = db.list_statuses().unwrap();

    for s in &statuses {
        let next = adjacent_status_id(&statuses, s.id, Direction::Next).unwrap();
        assert_eq!(adjacent_status_id(&statuses, next, Direction::Prev), Some(s.id));
        let kind = status_manage::toggle_kind(status_manage::toggle_kind(
            status_manage::toggle_kind(s.kind),
        ));
        assert_eq!(kind, s.kind);
        assert_eq!(StatusKind::parse(s.kind.as_str()), Some(s.kind));
    }
}

#[test]
fn rows_that_make_no_forest_are_refused() {
    let (db, _) = family();
    let tasks = db.list_all().unwrap();
    let statuses = db.list_statuses().unwrap();

    let mut twice = tasks.clone();
    twice.push(tasks[0].clone());
    assert_eq!(
        Db::from_rows(twice, statuses.clone()).err(),
        Some(Error::Sqlite(StoreError::DuplicateId))
    );
    let mut statuses_twice = statuses.clone();
    statuses_twice.push(statuses[0].clone());
    assert_eq!(
        Db::from_rows(tasks.clone(), statuses_twice).err(),
        Some(Error::Sqlite(StoreError::DuplicateId))
    );
    let mut orphan = tasks.clone();
    orphan[0].parent_id = Some(99);
    assert_eq!(
        Db::from_rows(orphan, statuses.clone()).err(),
        Some(Error::Sqlite(StoreError::ForeignKey))
    );
    let mut cycle = tasks;
    let inner = cycle.iter().position(|t| t.title == "d").unwrap();
    let outer = cycle.iter().position(|t| t.title == "a").unwrap();
    cycle[outer].parent_id = Some(cycle[inner].id);
    assert_eq!(
        Db::from_rows(cycle, statuses).err(),
        Some(Error::Sqlite(StoreError::ParentCycle))
    );
}

#[test]
fn commands_sort_as_their_texts() {
    let mut ids: Vec<command::CommandId> = command::commands().iter().map(|c| c.id).collect();
    let mut texts: Vec<&str> = ids.iter().map(|id| id.as_str()).collect();
    ids.sort();
    texts.sort();
    assert_eq!(ids.iter().map(|id| id.as_str()).collect::<Vec<_>>(), texts);
    assert!(id::UNDO < id::TASK_DELETE);
}

#[test]
fn the_default_bindings_neither_clash_nor_shadow() {
    let keymap = Keymap::default();
    assert_eq!(keymap.bindings().len(), 80);
    assert!(keymap.duplicate().is_none());
    assert!(keymap.shadow_warnings().is_empty());
}

#[test]
fn a_context_names_a_command_once() {
    let all = command::commands();
    for (i, a) in all.iter().enumerate() {
        for b in &all[i + 1..] {
            assert!(a.context != b.context || a.id.as_str() != b.id.as_str(), "{}", a.id.as_str());
            assert_eq!(a.id == b.id, a.id.as_str() == b.id.as_str());
        }
    }
}

#[test]
fn default_bindings_and_commands_go_together() {
    let keymap = Keymap::default();
    for (context, _, bound) in keymap.bindings() {
        assert!(command::commands().iter().any(|c| c.context == context && c.id == bound));
    }
    for c in command::commands() {
        assert!(keymap.binding_for(c.context, c.id).is_some(), "{}", c.id.as_str());
    }
}

/// The tasks that have a row.
fn shown(app: &App) -> Vec<i64> {
    app.rows.iter().map(|row| app.tasks[row.task_index].id).collect()
}

#[test]
fn a_row_needs_every_ancestor_expanded() {
    let (db, [a, b, c, d, e]) = family();
    let mut app = app_over(&db);
    assert_eq!(shown(&app), [a, e]);

    app.expanded.insert(b);
    app.rebuild_rows_at(TODAY);
    assert_eq!(shown(&app), [a, e]);

    app.expanded.insert(a);
    app.rebuild_rows_at(TODAY);
    assert_eq!(shown(&app), [a, b, d, c, e]);

    app.zoom_root = Some(a);
    app.expanded.remove(&a);
    app.rebuild_rows_at(TODAY);
    assert_eq!(shown(&app), [b, d, c]);
}

#[test]
fn pressing_keys_leaves_nothing_to_rebuild() {
    let (mut db, _) = family();
    let mut app = app_over(&db);
    let keys = "l\u{9}jLHnx\u{d}fou/b\u{d}q>J<kKsdDyuU";
    for c in keys.chars() {
        let key = match c {
            '\u{9}' => Key::Tab,
            '\u{d}' => Key::Enter,
            _ => Key::Char(c),
        };
        press(&mut app, &mut db, key);
        let before = (shown(&app), app.zoom_root);
        app.rebuild_rows_at(TODAY);
        assert_eq!((shown(&app), app.zoom_root), before, "{c:?}");
        assert_eq!(app.tasks, db.list_all().unwrap(), "{c:?}");
    }
}

#[test]
fn a_move_skips_no_sibling() {
    let mut db = Db::open_in_memory().unwrap();
    let status = db.default_status_id().unwrap();
    let ids: Vec<i64> = ["a", "b", "c"]
        .iter()
        .map(|title| db.create_task(None, title, None, status).unwrap().id)
        .collect();

    db.move_task(ids[0], TaskMove::Down).unwrap();
    assert_eq!(titles(&db.list_children(None).unwrap()), ["b", "a", "c"]);

    db.move_task(ids[2], TaskMove::Up).unwrap();
    assert_eq!(titles(&db.list_children(None).unwrap()), ["b", "c", "a"]);
}

#[test]
fn a_task_is_overdue_from_the_next_day_on() {
    let (mut db, [a, b, c, _, _]) = family();
    db.set_due(a, Some("2026-07-11")).unwrap();
    db.set_due(b, Some("2026-07-12")).unwrap();
    db.set_due(c, Some("2025-12-31")).unwrap();
    let found = db.search(&query(None, Filter::Overdue, Sort::TreeOrder), TODAY).unwrap();
    assert_eq!(titles(&found), ["a", "c"]);
}

#[test]
fn today_is_a_date() {
    let today = App::today();
    assert_eq!(today.len(), 10);
    assert!(today.chars().enumerate().all(|(i, c)| match i {
        4 | 7 => c == '-',
        _ => c.is_ascii_digit(),
    }));
    assert!(chrono::NaiveDate::parse_from_str(&today, "%Y-%m-%d").is_ok());
}
