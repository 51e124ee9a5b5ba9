use stask::app::{App, InputAction, Mode};
use stask::command;
use stask::command::id;
use stask::db::Db;
use stask::help;
use stask::key::Key;
use stask::query::{Filter, Sort};
use stask::query_view;
use stask::query_view::Focus;
use stask::status::{Status, StatusKind};
use stask::status_manage;
use stask::status_manage::{Column, Editing};
use stask::task::Task;
use stask::tree;

fn english_statuses() -> Vec<Status> {
    let rows = [
        ("Todo", StatusKind::Open, "gray", 't'),
        ("Ready", StatusKind::Open, "cyan", 'r'),
        ("Doing", StatusKind::Open, "yellow", 'd'),
        ("Done", StatusKind::Done, "green", 'x'),
        ("Cancelled", StatusKind::Cancelled, "dark_gray", 'c'),
    ];
    rows.iter()
        .enumerate()
        .map(|(i, (label, kind, color, key))| Status {
            id: i as i64 + 1,
            label: label.to_string(),
            kind: *kind,
            color: color.to_string(),
            key: *key,
            display_order: i as i64,
            is_default: i == 0,
        })
        .collect()
}

fn english_db() -> Db {
    Db::from_rows(vec![], english_statuses()).unwrap()
}

fn task(id: i64, parent_id: Option<i64>, display_order: i64) -> Task {
    Task {
        id,
        parent_id,
        display_order,
        title: format!("task {id}"),
        status_id: 1,
        due: None,
        note: String::new(),
        created_at: String::new(),
        updated_at: String::new(),
    }
}

fn default_status(db: &Db) -> i64 {
    db.default_status_id().unwrap()
}

/// Builds an App wired to `db`'s statuses, mirroring startup.
fn app_for(db: &Db, tasks: Vec<Task>) -> App {
    App::new(
        tasks,
        db.list_statuses().unwrap(),
        db.default_status_id().unwrap(),
    )
}

/// Builds an App over plain task fixtures; statuses come from a fresh
/// seeded database because they always originate there.
fn test_app(tasks: Vec<Task>) -> App {
    app_for(&Db::open_in_memory().unwrap(), tasks)
}

fn selected_id(app: &App) -> Option<i64> {
    app.rows
        .get(app.selected)
        .map(|row| app.tasks[row.task_index].id)
}

// Tests the vim-style half-page jumps in the task tree.
// Given: ten root tasks and a last-drawn list height of 6 (half: 3)
// When: half-page down runs twice, then half-page up once
// Then: the cursor moves 0 → 3 → 6 → 3, one half page per command
#[test]
fn half_page_commands_move_cursor_by_half_the_list_height() {
    let mut app = test_app((1..=10).map(|i| task(i, None, i)).collect());
    app.list_height = 6;

    app.run_command(id::HALF_PAGE_DOWN);
    assert_eq!(app.selected, 3);
    app.run_command(id::HALF_PAGE_DOWN);
    assert_eq!(app.selected, 6);
    app.run_command(id::HALF_PAGE_UP);
    assert_eq!(app.selected, 3);
}

// Tests clamping of the half-page jumps at both list ends.
// Given: three root tasks and a list height of 40, so one half page
//        (20) overshoots the whole list
// When: half-page down runs, then half-page up
// Then: the cursor clamps to the last row, then back to the first
#[test]
fn half_page_jumps_clamp_at_the_list_ends() {
    let mut app = test_app(vec![task(1, None, 0), task(2, None, 1), task(3, None, 2)]);
    app.list_height = 40;

    app.run_command(id::HALF_PAGE_DOWN);
    assert_eq!(app.selected, 2);
    app.run_command(id::HALF_PAGE_UP);
    assert_eq!(app.selected, 0);
}

// Tests the half-page jump before anything has been drawn.
// Given: ten root tasks and the initial list height of 0
// When: half-page down runs
// Then: the cursor still moves (by the minimum step of one row)
//       instead of panicking or standing still
#[test]
fn half_page_jump_before_first_draw_moves_one_row() {
    let mut app = test_app((1..=10).map(|i| task(i, None, i)).collect());

    app.run_command(id::HALF_PAGE_DOWN);

    assert_eq!(app.selected, 1);
}

// Tests the half-page jumps of the query view's result list.
// Given: ten tasks, the query view opened on the empty search (all
//        results) and a last-drawn popup height of 6 (half: 3)
// When: Ctrl-d is pressed, then Ctrl-u
// Then: the result selection moves to 3 and back to 0
#[test]
fn query_half_page_moves_selection_by_half_the_popup_height() {
    let mut db = Db::open_in_memory().unwrap();
    for i in 0..10 {
        db.create_task(None, &format!("t{i}"), None, default_status(&db))
            .unwrap();
    }
    let mut app = app_for(&db, db.list_all().unwrap());
    app.popup_height = 6;

    app.handle_key(&mut db, Key::Char('/')).unwrap();
    app.handle_key(&mut db, Key::Enter).unwrap();
    app.handle_key(&mut db, Key::Ctrl('d')).unwrap();

    let Mode::Query(state) = &app.mode else {
        panic!("query view must stay open");
    };
    assert_eq!(state.selected, 3);

    app.handle_key(&mut db, Key::Ctrl('u')).unwrap();
    let Mode::Query(state) = &app.mode else {
        panic!("query view must stay open");
    };
    assert_eq!(state.selected, 0);
}

// Tests the half-page jumps of the help list.
// Given: the help view open and a last-drawn popup height of 6 (half: 3)
// When: Ctrl-d is pressed, then Ctrl-u
// Then: the scroll offset moves to 3 and back to 0
#[test]
fn help_half_page_scrolls_by_half_the_popup_height() {
    let mut db = Db::open_in_memory().unwrap();
    let mut app = app_for(&db, vec![]);
    app.popup_height = 6;

    app.handle_key(&mut db, Key::Char('?')).unwrap();
    app.handle_key(&mut db, Key::Ctrl('d')).unwrap();

    let Mode::Help(state) = &app.mode else {
        panic!("help must stay open");
    };
    assert_eq!(state.scroll, 3);

    app.handle_key(&mut db, Key::Ctrl('u')).unwrap();
    let Mode::Help(state) = &app.mode else {
        panic!("help must stay open");
    };
    assert_eq!(state.scroll, 0);
}

// Tests zooming in on the selected task.
// Given: roots 1 and 2 where root 2 (selected) has a child 21
// When: the zoom-in command runs
// Then: task 2 becomes the zoom root and the cursor moves to the first
//       row of the zoomed view (its child 21)
#[test]
fn zoom_in_zooms_on_selection_and_selects_first_row() {
    let mut app = test_app(vec![
        task(1, None, 0),
        task(2, None, 1),
        task(21, Some(2), 0),
    ]);
    app.selected = 1;

    app.run_command(id::ZOOM_IN);

    assert_eq!(app.zoom_root, Some(2));
    assert_eq!(app.selected, 0);
    assert_eq!(selected_id(&app), Some(21));
}

// Tests zooming out one level.
// Given: a chain 1 > 11 > 111 zoomed on the middle task 11
// When: the zoom-out command runs
// Then: the zoom root becomes the parent task 1, and the cursor lands
//       on the row showing the previous zoom root 11
#[test]
fn zoom_out_steps_to_parent_and_reselects_old_root() {
    let mut app = test_app(vec![
        task(1, None, 0),
        task(11, Some(1), 0),
        task(111, Some(11), 0),
    ]);
    app.zoom_root = Some(11);
    app.rebuild_rows();

    app.run_command(id::ZOOM_OUT);

    assert_eq!(app.zoom_root, Some(1));
    assert_eq!(selected_id(&app), Some(11));
}

// Tests zooming out from a top-level zoom root.
// Given: roots 1 and 2 zoomed on root 1
// When: the zoom-out command runs
// Then: the zoom is cleared entirely and the cursor lands on the row
//       showing the previous zoom root 1
#[test]
fn zoom_out_from_root_level_clears_zoom() {
    let mut app = test_app(vec![
        task(1, None, 0),
        task(2, None, 1),
        task(11, Some(1), 0),
    ]);
    app.zoom_root = Some(1);
    app.rebuild_rows();

    app.run_command(id::ZOOM_OUT);

    assert_eq!(app.zoom_root, None);
    assert_eq!(selected_id(&app), Some(1));
}

// Tests zoom-out when not zoomed.
// Given: an unzoomed view with the cursor on the second root
// When: the zoom-out command runs
// Then: nothing changes (no zoom, cursor stays put)
#[test]
fn zoom_out_without_zoom_is_a_no_op() {
    let mut app = test_app(vec![task(1, None, 0), task(2, None, 1)]);
    app.selected = 1;

    app.run_command(id::ZOOM_OUT);

    assert_eq!(app.zoom_root, None);
    assert_eq!(app.selected, 1);
}

// Tests moving the selection to the parent task.
// Given: root 1 expanded with children 11 and 12, cursor on 12
// When: the select-parent command runs
// Then: the cursor moves to the parent 1 and the expansion is untouched
#[test]
fn select_parent_moves_to_parent() {
    let mut app = test_app(vec![
        task(1, None, 0),
        task(11, Some(1), 0),
        task(12, Some(1), 1),
    ]);
    app.expanded.insert(1);
    app.rebuild_rows();
    app.select_task(12);

    app.run_command(id::SELECT_PARENT);

    assert_eq!(selected_id(&app), Some(1));
    assert!(app.expanded.contains(&1));
}

// Tests select-parent on a top-level task.
// Given: two roots with the cursor on the second
// When: the select-parent command runs
// Then: nothing changes, there is no parent to move to
#[test]
fn select_parent_at_top_level_is_a_no_op() {
    let mut app = test_app(vec![task(1, None, 0), task(2, None, 1)]);
    app.selected = 1;

    app.run_command(id::SELECT_PARENT);

    assert_eq!(selected_id(&app), Some(2));
}

// Tests select-parent directly under the zoom root.
// Given: a chain 1 > 11 > 111 zoomed on 1, cursor on 11 (depth 0)
// When: the select-parent command runs
// Then: nothing changes, the parent sits outside the zoomed view
#[test]
fn select_parent_under_zoom_root_is_a_no_op() {
    let mut app = test_app(vec![
        task(1, None, 0),
        task(11, Some(1), 0),
        task(111, Some(11), 0),
    ]);
    app.zoom_root = Some(1);
    app.rebuild_rows();
    app.select_task(11);

    app.run_command(id::SELECT_PARENT);

    assert_eq!(selected_id(&app), Some(11));
    assert_eq!(app.zoom_root, Some(1));
}

// Tests moving the selection to the first child of a collapsed task.
// Given: root 1 collapsed with children 11 and 12
// When: the select-first-child command runs
// Then: task 1 is expanded and the cursor moves to its first child 11
#[test]
fn select_first_child_expands_and_moves() {
    let mut app = test_app(vec![
        task(1, None, 0),
        task(11, Some(1), 0),
        task(12, Some(1), 1),
    ]);

    app.run_command(id::SELECT_FIRST_CHILD);

    assert!(app.expanded.contains(&1));
    assert_eq!(selected_id(&app), Some(11));
}

// Tests select-first-child on an already expanded task.
// Given: root 1 expanded with child 11, cursor on 1
// When: the select-first-child command runs
// Then: the cursor moves to 11 without touching the expansion
#[test]
fn select_first_child_moves_when_already_expanded() {
    let mut app = test_app(vec![task(1, None, 0), task(11, Some(1), 0)]);
    app.expanded.insert(1);
    app.rebuild_rows();

    app.run_command(id::SELECT_FIRST_CHILD);

    assert_eq!(selected_id(&app), Some(11));
}

// Tests select-first-child on a task without children.
// Given: two childless roots with the cursor on the first
// When: the select-first-child command runs
// Then: nothing changes, there is no child to move to
#[test]
fn select_first_child_on_leaf_is_a_no_op() {
    let mut app = test_app(vec![task(1, None, 0), task(2, None, 1)]);

    app.run_command(id::SELECT_FIRST_CHILD);

    assert_eq!(selected_id(&app), Some(1));
    assert!(!app.expanded.contains(&1));
}

// Tests the whole help-view key flow.
// Given: an app in the tree view
// When: `?` opens the help, `j` scrolls, `/` enters the filter, "zoom"
//       is typed, Enter returns to browsing, and `q` closes the view
// Then: each step lands in the expected mode/focus, typing resets the
//       scroll, and the filter text survives into browsing
#[test]
fn help_view_opens_filters_and_closes() {
    let mut db = Db::open_in_memory().unwrap();
    let mut app = app_for(&db, vec![task(1, None, 0)]);

    app.handle_key(&mut db, Key::Char('?')).unwrap();
    assert!(matches!(app.mode, Mode::Help(_)));

    app.handle_key(&mut db, Key::Char('j')).unwrap();
    let Mode::Help(state) = &app.mode else {
        panic!("help must stay open while scrolling");
    };
    assert_eq!(state.scroll, 1);

    app.handle_key(&mut db, Key::Char('/')).unwrap();
    for c in "zoom".chars() {
        app.handle_key(&mut db, Key::Char(c)).unwrap();
    }
    let Mode::Help(state) = &app.mode else {
        panic!("help must stay open while filtering");
    };
    assert_eq!(state.focus, help::Focus::Edit);
    assert_eq!(state.scroll, 0, "typing must reset the scroll");

    app.handle_key(&mut db, Key::Enter).unwrap();
    let Mode::Help(state) = &app.mode else {
        panic!("help must stay open after confirming the filter");
    };
    assert_eq!(state.focus, help::Focus::Browse);
    assert_eq!(state.editor.text(), "zoom");

    app.handle_key(&mut db, Key::Char('q')).unwrap();
    assert!(matches!(app.mode, Mode::Tree));
}

// Tests the footer toggle.
// Given: an app with the footer shown (the default)
// When: the toggle-footer key `\` is pressed twice in the tree view
// Then: the footer turns off and back on (the binding stays active
//       while the footer is hidden)
#[test]
fn backslash_toggles_the_footer() {
    let mut db = Db::open_in_memory().unwrap();
    let mut app = app_for(&db, vec![]);
    assert!(app.show_footer);

    app.handle_key(&mut db, Key::Char('\\')).unwrap();
    assert!(!app.show_footer);

    app.handle_key(&mut db, Key::Char('\\')).unwrap();
    assert!(app.show_footer);
}

// Tests zoom-in on an empty view.
// Given: no tasks at all
// When: the zoom-in command runs
// Then: nothing changes (there is no task to zoom on)
#[test]
fn zoom_in_on_empty_view_is_a_no_op() {
    let mut app = test_app(vec![]);

    app.run_command(id::ZOOM_IN);

    assert_eq!(app.zoom_root, None);
}

// Tests that the rename command opens a prefilled input.
// Given: two root tasks with the cursor on the second one ("task 2")
// When: the rename command runs
// Then: the mode becomes Input targeting task 2 for rename, with the
//       editor prefilled with the current title and the cursor at its end
#[test]
fn rename_command_opens_input_prefilled_with_title() {
    let mut app = test_app(vec![task(1, None, 0), task(2, None, 1)]);
    app.selected = 1;

    app.run_command(id::RENAME_TASK);

    let Mode::Input { editor, action } = &app.mode else {
        panic!("rename should enter input mode");
    };
    assert!(matches!(action, InputAction::Rename(2)));
    assert_eq!(editor.text(), "task 2");
    assert_eq!(editor.cursor(), "task 2".len());
}

// Tests the rename command on an empty view.
// Given: no tasks at all
// When: the rename command runs
// Then: the mode stays Tree (there is nothing to rename)
#[test]
fn rename_command_on_empty_view_is_a_no_op() {
    let mut app = test_app(vec![]);

    app.run_command(id::RENAME_TASK);

    assert!(matches!(app.mode, Mode::Tree));
}

// Tests submitting a rename end to end.
// Given: a database task titled "設計" opened for rename
// When: "する" is typed and the input is confirmed
// Then: the task is renamed to "設計する" both in the database and in
//       the reloaded view, and the cursor stays on the same task
#[test]
fn submitting_rename_updates_task_and_keeps_selection() {
    let mut db = Db::open_in_memory().unwrap();
    db.create_task(None, "other", None, default_status(&db))
        .unwrap();
    let target = db
        .create_task(None, "設計", None, default_status(&db))
        .unwrap();
    let mut app = app_for(&db, db.list_all().unwrap());
    app.select_task(target.id);

    app.run_command(id::RENAME_TASK);
    for c in "する".chars() {
        app.handle_key(&mut db, Key::Char(c)).unwrap();
    }
    app.handle_key(&mut db, Key::Enter).unwrap();

    assert!(matches!(app.mode, Mode::Tree));
    assert_eq!(selected_id(&app), Some(target.id));
    let titles: Vec<String> = db
        .list_all()
        .unwrap()
        .into_iter()
        .map(|t| t.title)
        .collect();
    assert_eq!(titles, ["other", "設計する"]);
}

// Tests that submitting a blank rename cancels instead of renaming.
// Given: a database task titled "keep" opened for rename
// When: the prefilled title is erased down to a single space and confirmed
// Then: the task keeps its original title and the mode returns to Tree
#[test]
fn submitting_blank_rename_is_a_cancel() {
    let mut db = Db::open_in_memory().unwrap();
    let target = db
        .create_task(None, "keep", None, default_status(&db))
        .unwrap();
    let mut app = app_for(&db, db.list_all().unwrap());

    app.run_command(id::RENAME_TASK);
    for _ in 0.."keep".len() {
        app.handle_key(&mut db, Key::Backspace).unwrap();
    }
    app.handle_key(&mut db, Key::Char(' ')).unwrap();
    app.handle_key(&mut db, Key::Enter).unwrap();

    assert!(matches!(app.mode, Mode::Tree));
    let reloaded = db.list_all().unwrap();
    assert_eq!(reloaded[0].id, target.id);
    assert_eq!(reloaded[0].title, "keep");
}

// Tests that the input prompt names the action being performed.
// Given: a create action and a rename action
// When: asking each for its prompt
// Then: they differ so the user can tell what confirming will do
#[test]
fn prompt_distinguishes_create_from_rename() {
    let create = InputAction::Create(tree::CreateTarget {
        parent_id: None,
        after: None,
    });

    assert_eq!(create.prompt(), "New task: ");
    assert_eq!(InputAction::Rename(1).prompt(), "Rename: ");
}

// Tests that the set-status command opens the status-select menu.
// Given: two root tasks with the cursor on the second one
// When: the set-status command runs
// Then: the mode becomes StatusSelect targeting the selected task, and
//       the active context switches accordingly
#[test]
fn set_status_command_opens_menu_for_selected_task() {
    let mut app = test_app(vec![task(1, None, 0), task(2, None, 1)]);
    app.selected = 1;

    app.run_command(id::SET_STATUS);

    assert!(matches!(app.mode, Mode::StatusSelect { task_id: 2 }));
    assert_eq!(app.context(), command::Context::StatusSelect);
}

// Tests the set-status command on an empty view.
// Given: no tasks at all
// When: the set-status command runs
// Then: the mode stays Tree (there is nothing to change)
#[test]
fn set_status_command_on_empty_view_is_a_no_op() {
    let mut app = test_app(vec![]);

    app.run_command(id::SET_STATUS);

    assert!(matches!(app.mode, Mode::Tree));
}

// Tests applying a status from the menu end to end.
// Given: two database tasks with the status menu open for the second,
//        where "d" is the seeded key for the status labelled "Doing"
// When: the "d" key is pressed
// Then: the task's status id becomes that status in the database, the
//       mode returns to Tree, and the cursor stays on the same task
#[test]
fn status_key_applies_status_and_keeps_selection() {
    let mut db = Db::open_in_memory().unwrap();
    db.create_task(None, "other", None, default_status(&db))
        .unwrap();
    let target = db
        .create_task(None, "t", None, default_status(&db))
        .unwrap();
    let mut app = app_for(&db, db.list_all().unwrap());
    app.select_task(target.id);
    app.run_command(id::SET_STATUS);

    app.handle_key(&mut db, Key::Char('d')).unwrap();

    assert!(matches!(app.mode, Mode::Tree));
    assert_eq!(selected_id(&app), Some(target.id));
    let doing = app.statuses.iter().find(|s| s.key == 'd').unwrap().id;
    let status_ids: Vec<i64> = db
        .list_all()
        .unwrap()
        .into_iter()
        .map(|t| t.status_id)
        .collect();
    assert_eq!(status_ids, [default_status(&db), doing]);
}

// Tests cancelling the status menu.
// Given: a database task with the status menu open for it
// When: Esc is pressed
// Then: the mode returns to Tree and the status is unchanged
#[test]
fn esc_cancels_status_menu_without_change() {
    let mut db = Db::open_in_memory().unwrap();
    let target = db
        .create_task(None, "t", None, default_status(&db))
        .unwrap();
    let mut app = app_for(&db, db.list_all().unwrap());
    app.run_command(id::SET_STATUS);

    app.handle_key(&mut db, Key::Esc).unwrap();

    assert!(matches!(app.mode, Mode::Tree));
    assert_eq!(db.list_all().unwrap()[0].status_id, default_status(&db));
    assert_eq!(selected_id(&app), Some(target.id));
}

// Tests that keys not bound to any status are ignored.
// Given: a database task with the status menu open, where "z" is no
//        seeded status key
// When: "z" is pressed
// Then: the menu stays open and the status is unchanged
#[test]
fn unbound_key_in_status_menu_is_ignored() {
    let mut db = Db::open_in_memory().unwrap();
    db.create_task(None, "t", None, default_status(&db))
        .unwrap();
    let mut app = app_for(&db, db.list_all().unwrap());
    app.run_command(id::SET_STATUS);

    app.handle_key(&mut db, Key::Char('z')).unwrap();

    assert!(matches!(app.mode, Mode::StatusSelect { .. }));
    assert_eq!(db.list_all().unwrap()[0].status_id, default_status(&db));
}

// Tests cycling the selected task's status forward without the menu.
// Given: two database tasks on the default status, cursor on the second
// When: Shift+j ("J") is pressed in the Tree context
// Then: that task moves to the status following the default one in
//       display order, the mode stays Tree, and the cursor stays put
#[test]
fn shift_j_advances_status_to_next_in_display_order() {
    let mut db = Db::open_in_memory().unwrap();
    db.create_task(None, "other", None, default_status(&db))
        .unwrap();
    let target = db
        .create_task(None, "t", None, default_status(&db))
        .unwrap();
    let mut app = app_for(&db, db.list_all().unwrap());
    app.select_task(target.id);

    app.handle_key(&mut db, Key::Char('J')).unwrap();

    let position = app
        .statuses
        .iter()
        .position(|s| s.id == default_status(&db))
        .unwrap();
    let expected = app.statuses[position + 1].id;
    assert!(matches!(app.mode, Mode::Tree));
    assert_eq!(selected_id(&app), Some(target.id));
    let stored = db
        .list_all()
        .unwrap()
        .into_iter()
        .find(|t| t.id == target.id)
        .unwrap();
    assert_eq!(stored.status_id, expected);
    // The untouched sibling keeps its status.
    assert_eq!(db.list_all().unwrap()[0].status_id, default_status(&db));
}

// Tests forward wrap-around of the status cycle.
// Given: a database task already on the last status in display order
//        (cancelled kind, so the view filter is widened to All to keep
//        the task's row selectable)
// When: Shift+j ("J") is pressed
// Then: the task wraps to the first status in display order
#[test]
fn shift_j_from_last_status_wraps_to_first() {
    let mut db = Db::open_in_memory().unwrap();
    let target = db
        .create_task(None, "t", None, default_status(&db))
        .unwrap();
    let statuses = db.list_statuses().unwrap();
    db.set_status(target.id, statuses.last().unwrap().id)
        .unwrap();
    let mut app = app_for(&db, db.list_all().unwrap());
    app.filter = Filter::All;
    app.rebuild_rows();

    app.handle_key(&mut db, Key::Char('J')).unwrap();

    assert_eq!(db.list_all().unwrap()[0].status_id, statuses[0].id);
}

// Tests cycling the selected task's status backward.
// Given: a database task on the second status in display order
// When: Shift+k ("K") is pressed
// Then: the task moves back to the first status in display order
#[test]
fn shift_k_moves_status_to_previous_in_display_order() {
    let mut db = Db::open_in_memory().unwrap();
    let target = db
        .create_task(None, "t", None, default_status(&db))
        .unwrap();
    let statuses = db.list_statuses().unwrap();
    db.set_status(target.id, statuses[1].id).unwrap();
    let mut app = app_for(&db, db.list_all().unwrap());

    app.handle_key(&mut db, Key::Char('K')).unwrap();

    assert_eq!(db.list_all().unwrap()[0].status_id, statuses[0].id);
}

// Tests the status cycle on an empty view.
// Given: no tasks at all
// When: Shift+j ("J") is pressed
// Then: nothing happens and no error is raised
#[test]
fn status_cycle_on_empty_view_is_a_no_op() {
    let mut db = Db::open_in_memory().unwrap();
    let mut app = app_for(&db, vec![]);

    app.handle_key(&mut db, Key::Char('J')).unwrap();

    assert!(matches!(app.mode, Mode::Tree));
    assert!(db.list_all().unwrap().is_empty());
}

// Tests that new tasks are born with the app's default status.
// Given: an app whose default status id points at a non-default seeded
//        status (as if the user had moved the default flag), and an
//        open create input
// When: a title is typed and confirmed
// Then: the created task carries that status id
#[test]
fn created_task_uses_default_status() {
    let mut db = Db::open_in_memory().unwrap();
    let statuses = db.list_statuses().unwrap();
    let ready = statuses.iter().find(|s| !s.is_default).unwrap().id;
    let mut app = App::new(vec![], statuses, ready);

    app.run_command(id::CREATE_TASK);
    app.handle_key(&mut db, Key::Char('t')).unwrap();
    app.handle_key(&mut db, Key::Enter).unwrap();

    assert_eq!(db.list_all().unwrap()[0].status_id, ready);
}

// Tests that "t" opens the due input prefilled with the current date.
// Given: a database task with due = 2026-09-15, cursor on it
// When: "t" is pressed in the Tree context
// Then: the mode becomes Input targeting that task's due date, with the
//       editor prefilled with the stored date and a prompt naming the
//       expected format
#[test]
fn t_opens_due_input_prefilled_with_current_due() {
    let mut db = Db::open_in_memory().unwrap();
    let target = db
        .create_task(None, "t", None, default_status(&db))
        .unwrap();
    db.set_due(target.id, Some("2026-09-15")).unwrap();
    let mut app = app_for(&db, db.list_all().unwrap());

    app.handle_key(&mut db, Key::Char('t')).unwrap();

    let Mode::Input { editor, action } = &app.mode else {
        panic!("t should enter input mode");
    };
    assert!(matches!(action, InputAction::SetDue(id) if *id == target.id));
    assert_eq!(editor.text(), "2026-09-15");
    assert_eq!(action.prompt(), "Due (YYYY-MM-DD): ");
}

// Tests the due input prefill for a task without a due date.
// Given: a database task with no due date
// When: "t" is pressed
// Then: the editor opens empty
#[test]
fn t_opens_empty_due_input_when_no_due_is_set() {
    let mut db = Db::open_in_memory().unwrap();
    db.create_task(None, "t", None, default_status(&db))
        .unwrap();
    let mut app = app_for(&db, db.list_all().unwrap());

    app.handle_key(&mut db, Key::Char('t')).unwrap();

    let Mode::Input { editor, .. } = &app.mode else {
        panic!("t should enter input mode");
    };
    assert_eq!(editor.text(), "");
}

// Tests submitting a valid due date end to end.
// Given: two database tasks with the due input open for the second
// When: "2026-09-15" is typed and confirmed
// Then: the date is persisted, the mode returns to Tree, and the cursor
//       stays on the same task
#[test]
fn submitting_valid_due_persists_and_returns_to_tree() {
    let mut db = Db::open_in_memory().unwrap();
    db.create_task(None, "other", None, default_status(&db))
        .unwrap();
    let target = db
        .create_task(None, "t", None, default_status(&db))
        .unwrap();
    let mut app = app_for(&db, db.list_all().unwrap());
    app.select_task(target.id);

    app.handle_key(&mut db, Key::Char('t')).unwrap();
    press(&mut app, &mut db, "2026-09-15");
    app.handle_key(&mut db, Key::Enter).unwrap();

    assert!(matches!(app.mode, Mode::Tree));
    assert_eq!(selected_id(&app), Some(target.id));
    let dues: Vec<Option<String>> = db.list_all().unwrap().into_iter().map(|t| t.due).collect();
    assert_eq!(dues, [None, Some("2026-09-15".to_string())]);
}

// Tests that confirming an emptied due input clears the date.
// Given: a database task with due = 2026-09-15 and the due input open
//        (prefilled with that date)
// When: the prefill is erased and the empty input is confirmed
// Then: the stored due is NULL again and the mode returns to Tree
#[test]
fn submitting_empty_due_clears_the_date() {
    let mut db = Db::open_in_memory().unwrap();
    let target = db
        .create_task(None, "t", None, default_status(&db))
        .unwrap();
    db.set_due(target.id, Some("2026-09-15")).unwrap();
    let mut app = app_for(&db, db.list_all().unwrap());

    app.handle_key(&mut db, Key::Char('t')).unwrap();
    for _ in 0.."2026-09-15".len() {
        app.handle_key(&mut db, Key::Backspace).unwrap();
    }
    app.handle_key(&mut db, Key::Enter).unwrap();

    assert!(matches!(app.mode, Mode::Tree));
    assert_eq!(db.list_all().unwrap()[0].due, None);
}

// Tests that an invalid date keeps the input open for correction.
// Given: a database task with the due input open
// When: the malformed date "2026-13-99" is typed and confirmed
// Then: an error notice appears in the status line, the mode stays
//       Input with the typed text preserved (nothing to retype), and
//       the stored due is unchanged
#[test]
fn submitting_invalid_due_keeps_input_open_with_text() {
    let mut db = Db::open_in_memory().unwrap();
    db.create_task(None, "t", None, default_status(&db))
        .unwrap();
    let mut app = app_for(&db, db.list_all().unwrap());

    app.handle_key(&mut db, Key::Char('t')).unwrap();
    press(&mut app, &mut db, "2026-13-99");
    app.handle_key(&mut db, Key::Enter).unwrap();

    let Mode::Input { editor, action } = &app.mode else {
        panic!("invalid date must keep the input open");
    };
    assert!(matches!(action, InputAction::SetDue(_)));
    assert_eq!(editor.text(), "2026-13-99");
    assert!(
        app.status_line
            .as_deref()
            .is_some_and(|line| line.contains("2026-13-99")),
        "status line should name the rejected input, was {:?}",
        app.status_line
    );
    assert_eq!(db.list_all().unwrap()[0].due, None);
}


fn open_manage(app: &mut App, db: &mut Db) {
    app.handle_key(db, Key::Char('S')).unwrap();
}

fn manage_state(app: &App) -> &status_manage::ManageState {
    let Mode::StatusManage(state) = &app.mode else {
        panic!("expected the status-management modal to be open");
    };
    state
}

fn press(app: &mut App, db: &mut Db, keys: &str) {
    for c in keys.chars() {
        app.handle_key(db, Key::Char(c)).unwrap();
    }
}

// Tests that Shift+s opens the status-management modal.
// Given: an app in the Tree mode
// When: "S" is pressed
// Then: the mode becomes StatusManage with the cursor on the first
//       row's label cell, and the active context switches accordingly
#[test]
fn s_uppercase_opens_status_manage_modal() {
    let mut db = Db::open_in_memory().unwrap();
    let mut app = app_for(&db, vec![]);

    open_manage(&mut app, &mut db);

    let state = manage_state(&app);
    assert_eq!(state.row, 0);
    assert_eq!(state.col, Column::Label);
    assert_eq!(app.context(), command::Context::StatusManage);
}

// Tests that tree bindings are inert while the modal is open.
// Given: an open status-management modal over one task
// When: "r" (tree rename) is pressed
// Then: the mode stays StatusManage; no rename input opens
#[test]
fn tree_keys_do_not_leak_into_manage_modal() {
    let mut db = Db::open_in_memory().unwrap();
    db.create_task(None, "t", None, default_status(&db))
        .unwrap();
    let mut app = app_for(&db, db.list_all().unwrap());
    open_manage(&mut app, &mut db);

    app.handle_key(&mut db, Key::Char('r')).unwrap();

    assert!(matches!(app.mode, Mode::StatusManage(_)));
}

// Tests cell-cursor movement inside the modal.
// Given: an open modal over the 5 seeded statuses
// When: moving down twice, up once, right twice past checks, left once
// Then: j/k clamp within the rows and h/l walk the columns
#[test]
fn manage_navigation_moves_selected_cell() {
    let mut db = Db::open_in_memory().unwrap();
    let mut app = app_for(&db, vec![]);
    open_manage(&mut app, &mut db);

    press(&mut app, &mut db, "jj");
    assert_eq!(manage_state(&app).row, 2);
    press(&mut app, &mut db, "k");
    assert_eq!(manage_state(&app).row, 1);
    press(&mut app, &mut db, "jjjjjj");
    assert_eq!(manage_state(&app).row, 4, "row clamps at the last status");

    press(&mut app, &mut db, "l");
    assert_eq!(manage_state(&app).col, Column::Kind);
    press(&mut app, &mut db, "l");
    assert_eq!(manage_state(&app).col, Column::Color);
    press(&mut app, &mut db, "h");
    assert_eq!(manage_state(&app).col, Column::Kind);
}

// Tests renaming a status through the label cell.
// Given: an open modal with the cursor on the first row's label cell
//        (seeded label "Todo")
// When: Enter opens the prefilled editor, "x" is appended and confirmed
// Then: the label becomes "Todox" in the database and in the reloaded
//       app statuses, and the modal stays open
#[test]
fn manage_enter_on_label_edits_and_saves() {
    let mut db = english_db();
    let mut app = app_for(&db, vec![]);
    open_manage(&mut app, &mut db);

    app.handle_key(&mut db, Key::Enter).unwrap();
    let state = manage_state(&app);
    let Editing::Cell(editor) = &state.editing else {
        panic!("Enter on the label cell should open a text edit");
    };
    assert_eq!(editor.text(), "Todo", "editor must be prefilled");
    press(&mut app, &mut db, "x");
    app.handle_key(&mut db, Key::Enter).unwrap();

    assert!(matches!(manage_state(&app).editing, Editing::Nothing));
    assert_eq!(app.statuses[0].label, "Todox");
    assert_eq!(db.list_statuses().unwrap()[0].label, "Todox");
}

// Tests that submitting a blanked-out label leaves the status alone.
// Given: a label edit opened on "Todo"
// When: the prefill is erased entirely and confirmed
// Then: the label is unchanged (blank input acts as a cancel)
#[test]
fn manage_blank_label_submit_is_a_cancel() {
    let mut db = english_db();
    let mut app = app_for(&db, vec![]);
    open_manage(&mut app, &mut db);

    app.handle_key(&mut db, Key::Enter).unwrap();
    for _ in 0.."Todo".chars().count() {
        app.handle_key(&mut db, Key::Backspace).unwrap();
    }
    app.handle_key(&mut db, Key::Enter).unwrap();

    assert_eq!(app.statuses[0].label, "Todo");
    assert_eq!(db.list_statuses().unwrap()[0].label, "Todo");
}

// Tests toggling the kind cell.
// Given: an open modal with the cursor moved to the kind cell of the
//        first row (seeded kind open)
// When: Enter is pressed twice
// Then: the kind steps open→done→cancelled, persisting each time
#[test]
fn manage_enter_on_kind_toggles_through_cycle() {
    let mut db = Db::open_in_memory().unwrap();
    let mut app = app_for(&db, vec![]);
    open_manage(&mut app, &mut db);
    press(&mut app, &mut db, "l");

    app.handle_key(&mut db, Key::Enter).unwrap();
    assert_eq!(app.statuses[0].kind, StatusKind::Done);
    app.handle_key(&mut db, Key::Enter).unwrap();

    assert_eq!(app.statuses[0].kind, StatusKind::Cancelled);
    assert_eq!(
        db.list_statuses().unwrap()[0].kind,
        StatusKind::Cancelled
    );
}

// Tests editing the color cell to an unknown color name.
// Given: a color edit opened on the first row (prefill "gray")
// When: the prefill is replaced with the typo "grean" and confirmed
// Then: the value is saved anyway (it only degrades to the default
//       color at render time) and a notice warns about the unknown name
#[test]
fn manage_unknown_color_saves_with_warning() {
    let mut db = Db::open_in_memory().unwrap();
    let mut app = app_for(&db, vec![]);
    open_manage(&mut app, &mut db);
    press(&mut app, &mut db, "ll");

    app.handle_key(&mut db, Key::Enter).unwrap();
    for _ in 0.."gray".len() {
        app.handle_key(&mut db, Key::Backspace).unwrap();
    }
    press(&mut app, &mut db, "grean");
    app.handle_key(&mut db, Key::Enter).unwrap();

    assert_eq!(app.statuses[0].color, "grean");
    assert_eq!(db.list_statuses().unwrap()[0].color, "grean");
    let message = app.status_line.as_deref().unwrap();
    assert!(message.contains("grean"), "notice should name the color");
}

// Tests editing the color cell to an RGB hex value.
// Given: a color edit opened on the first row (prefill "gray")
// When: the prefill is replaced with "#ff8800" and confirmed
// Then: the value is saved and no unknown-color notice appears,
//       because the hex spec parses to a real color
#[test]
fn manage_hex_color_saves_without_warning() {
    let mut db = Db::open_in_memory().unwrap();
    let mut app = app_for(&db, vec![]);
    open_manage(&mut app, &mut db);
    press(&mut app, &mut db, "ll");

    app.handle_key(&mut db, Key::Enter).unwrap();
    for _ in 0.."gray".len() {
        app.handle_key(&mut db, Key::Backspace).unwrap();
    }
    press(&mut app, &mut db, "#ff8800");
    app.handle_key(&mut db, Key::Enter).unwrap();

    assert_eq!(app.statuses[0].color, "#ff8800");
    assert_eq!(db.list_statuses().unwrap()[0].color, "#ff8800");
    assert_eq!(app.status_line, None, "a valid hex color needs no warning");
}

// Tests reassigning a status key through the key cell.
// Given: a key capture opened on the first row (seeded key 't')
// When: the unused key "z" is pressed
// Then: the status key becomes 'z' and the capture ends
#[test]
fn manage_key_capture_sets_new_key() {
    let mut db = Db::open_in_memory().unwrap();
    let mut app = app_for(&db, vec![]);
    open_manage(&mut app, &mut db);
    press(&mut app, &mut db, "lll");

    app.handle_key(&mut db, Key::Enter).unwrap();
    assert!(matches!(manage_state(&app).editing, Editing::KeyCapture));
    press(&mut app, &mut db, "z");

    assert!(matches!(manage_state(&app).editing, Editing::Nothing));
    assert_eq!(app.statuses[0].key, 'z');
    assert_eq!(db.list_statuses().unwrap()[0].key, 'z');
}

// Tests that a key already used by another status is rejected.
// Given: a key capture opened on the first row, where "r" is the seeded
//        key of another status (Ready)
// When: "r" is pressed
// Then: the key stays 't', a notice explains the conflict, and the
//       capture ends
#[test]
fn manage_key_capture_rejects_duplicate_key() {
    let mut db = Db::open_in_memory().unwrap();
    let mut app = app_for(&db, vec![]);
    open_manage(&mut app, &mut db);
    press(&mut app, &mut db, "lll");
    app.handle_key(&mut db, Key::Enter).unwrap();

    press(&mut app, &mut db, "r");

    assert_eq!(app.statuses[0].key, 't');
    assert_eq!(db.list_statuses().unwrap()[0].key, 't');
    assert!(app.status_line.is_some(), "conflict must be reported");
}

// Tests adding a status from the modal.
// Given: an open modal over the 5 seeded statuses (keys t/r/d/x/c)
// When: "n" is pressed, "review" is typed and confirmed
// Then: a 6th status appears at the tail with kind open, color gray and
//       the first free key 'a', and the cursor moves onto its row
#[test]
fn manage_add_creates_status_with_defaults() {
    let mut db = Db::open_in_memory().unwrap();
    let mut app = app_for(&db, vec![]);
    open_manage(&mut app, &mut db);

    press(&mut app, &mut db, "n");
    assert!(matches!(manage_state(&app).editing, Editing::NewStatus(_)));
    press(&mut app, &mut db, "review");
    app.handle_key(&mut db, Key::Enter).unwrap();

    assert_eq!(app.statuses.len(), 6);
    let created = app.statuses.last().unwrap();
    assert_eq!(created.label, "review");
    assert_eq!(created.kind, StatusKind::Open);
    assert_eq!(created.color, "gray");
    assert_eq!(created.key, 'a');
    assert!(!created.is_default);
    assert_eq!(manage_state(&app).row, 5, "cursor follows the new row");
}

// Tests the delete guard for a status still in use.
// Given: one task on the second seeded status and the modal cursor on
//        that status's row
// When: "d" is pressed
// Then: nothing is deleted and the notice reports the using-task count
#[test]
fn manage_delete_in_use_shows_count_message() {
    let mut db = Db::open_in_memory().unwrap();
    let statuses = db.list_statuses().unwrap();
    db.create_task(None, "t", None, statuses[1].id).unwrap();
    let mut app = app_for(&db, db.list_all().unwrap());
    open_manage(&mut app, &mut db);
    press(&mut app, &mut db, "j");

    press(&mut app, &mut db, "D");

    assert_eq!(app.statuses.len(), 5);
    let message = app.status_line.as_deref().unwrap();
    assert!(message.contains('1'), "notice should carry the task count");
}

// Tests the delete guard for the default status.
// Given: the modal cursor on the first row, which is the seeded default
// When: "D" is pressed
// Then: nothing is deleted and a notice explains the refusal
#[test]
fn manage_delete_default_is_blocked_with_message() {
    let mut db = Db::open_in_memory().unwrap();
    let mut app = app_for(&db, vec![]);
    open_manage(&mut app, &mut db);

    press(&mut app, &mut db, "D");

    assert_eq!(app.statuses.len(), 5);
    assert!(app.status_line.is_some());
}

// Tests deleting an unprotected status.
// Given: the modal cursor on the second seeded status, which is neither
//        the default nor referenced by any task
// When: "D" is pressed
// Then: the status disappears from the app list and the database, and
//       the cursor stays on a valid row
#[test]
fn manage_delete_unused_removes_row() {
    let mut db = Db::open_in_memory().unwrap();
    let victim = db.list_statuses().unwrap()[1].id;
    let mut app = app_for(&db, vec![]);
    open_manage(&mut app, &mut db);
    press(&mut app, &mut db, "j");

    press(&mut app, &mut db, "D");

    assert_eq!(app.statuses.len(), 4);
    assert!(app.statuses.iter().all(|s| s.id != victim));
    assert!(manage_state(&app).row < app.statuses.len());
}

// Tests reordering statuses from the modal.
// Given: the modal cursor on the first seeded status (Todo)
// When: Ctrl-j is pressed (matching the tree's task-move key)
// Then: the status swaps with the one below it, both in the app list
//       and persistently, and the cursor follows the moved row
#[test]
fn manage_ctrl_j_moves_status_down_and_follows_it() {
    let mut db = english_db();
    let mut app = app_for(&db, vec![]);
    open_manage(&mut app, &mut db);

    app.handle_key(&mut db, Key::Ctrl('j')).unwrap();

    assert_eq!(app.statuses[0].label, "Ready");
    assert_eq!(app.statuses[1].label, "Todo");
    assert_eq!(db.list_statuses().unwrap()[0].label, "Ready");
    assert_eq!(manage_state(&app).row, 1, "cursor follows the moved row");
}

// Tests changing the default status from the modal.
// Given: the modal cursor moved to the second seeded status
// When: "*" is pressed
// Then: that status becomes the default (exactly one default row) and
//       the app's default-for-new-tasks id follows
#[test]
fn manage_star_sets_default_status() {
    let mut db = Db::open_in_memory().unwrap();
    let mut app = app_for(&db, vec![]);
    open_manage(&mut app, &mut db);
    press(&mut app, &mut db, "j");
    let target = app.statuses[1].id;

    press(&mut app, &mut db, "*");

    assert_eq!(app.default_status_id, target);
    let defaults: Vec<i64> = app
        .statuses
        .iter()
        .filter(|s| s.is_default)
        .map(|s| s.id)
        .collect();
    assert_eq!(defaults, [target]);
    assert_eq!(db.default_status_id().unwrap(), target);
}

// Tests both ways of leaving the modal.
// Given: an open status-management modal
// When: Esc is pressed; the modal is reopened and "q" is pressed
// Then: both keys return the app to the Tree mode
#[test]
fn esc_and_q_close_manage_modal() {
    let mut db = Db::open_in_memory().unwrap();
    let mut app = app_for(&db, vec![]);

    open_manage(&mut app, &mut db);
    app.handle_key(&mut db, Key::Esc).unwrap();
    assert!(matches!(app.mode, Mode::Tree));

    open_manage(&mut app, &mut db);
    press(&mut app, &mut db, "q");
    assert!(matches!(app.mode, Mode::Tree));
}

// Tests that a notice disappears on the next key press.
// Given: a notice raised by trying to delete the default status
// When: any other key ("j") is pressed
// Then: the notice is gone
#[test]
fn status_line_clears_on_next_key() {
    let mut db = Db::open_in_memory().unwrap();
    let mut app = app_for(&db, vec![]);
    open_manage(&mut app, &mut db);
    press(&mut app, &mut db, "D");
    assert!(app.status_line.is_some());

    press(&mut app, &mut db, "j");

    assert!(app.status_line.is_none());
}

/// Creates root tasks titled a, b, c and returns their ids.
fn three_roots(db: &mut Db) -> (i64, i64, i64) {
    let status = default_status(db);
    let a = db.create_task(None, "a", None, status).unwrap().id;
    let b = db.create_task(None, "b", None, status).unwrap().id;
    let c = db.create_task(None, "c", None, status).unwrap().id;
    (a, b, c)
}

fn root_titles(db: &Db) -> Vec<String> {
    db.list_children(None)
        .unwrap()
        .into_iter()
        .map(|t| t.title)
        .collect()
}

// Tests moving the selected task down among its siblings.
// Given: roots a, b, c with the cursor on a
// When: Ctrl-j is pressed
// Then: the persisted order becomes b, a, c and the cursor follows a to
//       its new position
#[test]
fn ctrl_j_moves_task_down_and_cursor_follows() {
    let mut db = Db::open_in_memory().unwrap();
    let (a, ..) = three_roots(&mut db);
    let mut app = app_for(&db, db.list_all().unwrap());
    app.select_task(a);

    app.handle_key(&mut db, Key::Ctrl('j')).unwrap();

    assert_eq!(root_titles(&db), ["b", "a", "c"]);
    assert_eq!(selected_id(&app), Some(a));
    assert_eq!(app.selected, 1, "cursor row moved down with the task");
}

// Tests moving the selected task up at the top edge.
// Given: roots a, b, c with the cursor on the first root a
// When: Ctrl-k is pressed
// Then: nothing changes (no wrap-around, no error)
#[test]
fn ctrl_k_at_top_edge_is_a_no_op() {
    let mut db = Db::open_in_memory().unwrap();
    let (a, ..) = three_roots(&mut db);
    let mut app = app_for(&db, db.list_all().unwrap());
    app.select_task(a);

    app.handle_key(&mut db, Key::Ctrl('k')).unwrap();

    assert_eq!(root_titles(&db), ["a", "b", "c"]);
    assert_eq!(selected_id(&app), Some(a));
}

// Tests indenting a task under its preceding sibling.
// Given: roots a, b, c with the cursor on b
// When: > is pressed
// Then: b becomes a's child, a is auto-expanded so b stays visible, and
//       the cursor stays on b
#[test]
fn alt_l_indents_under_preceding_sibling_and_expands_it() {
    let mut db = Db::open_in_memory().unwrap();
    let (a, b, _) = three_roots(&mut db);
    let mut app = app_for(&db, db.list_all().unwrap());
    app.select_task(b);

    app.handle_key(&mut db, Key::Char('>')).unwrap();

    let moved = db
        .list_all()
        .unwrap()
        .into_iter()
        .find(|t| t.id == b)
        .unwrap();
    assert_eq!(moved.parent_id, Some(a));
    assert!(app.expanded.contains(&a), "new parent must be expanded");
    assert_eq!(selected_id(&app), Some(b));
}

// Tests indenting the first sibling.
// Given: roots a, b, c with the cursor on a (no preceding sibling)
// When: > is pressed
// Then: nothing changes
#[test]
fn alt_l_on_first_sibling_is_a_no_op() {
    let mut db = Db::open_in_memory().unwrap();
    let (a, ..) = three_roots(&mut db);
    let mut app = app_for(&db, db.list_all().unwrap());
    app.select_task(a);

    app.handle_key(&mut db, Key::Char('>')).unwrap();

    assert_eq!(root_titles(&db), ["a", "b", "c"]);
    assert!(db.list_all().unwrap().iter().all(|t| t.parent_id.is_none()));
}

// Tests outdenting a nested task.
// Given: root a with child x (a expanded, cursor on x), plus root b
// When: < is pressed
// Then: x becomes a root task placed right after its old parent a, and
//       the cursor stays on x
#[test]
fn alt_h_outdents_to_after_old_parent() {
    let mut db = Db::open_in_memory().unwrap();
    let status = default_status(&db);
    let a = db.create_task(None, "a", None, status).unwrap().id;
    db.create_task(None, "b", None, status).unwrap();
    let x = db.create_task(Some(a), "x", None, status).unwrap().id;
    let mut app = app_for(&db, db.list_all().unwrap());
    app.expanded.insert(a);
    app.rebuild_rows();
    app.select_task(x);

    app.handle_key(&mut db, Key::Char('<')).unwrap();

    assert_eq!(root_titles(&db), ["a", "x", "b"]);
    assert_eq!(selected_id(&app), Some(x));
}

// Tests outdenting a root-level task.
// Given: roots a, b, c with the cursor on b
// When: < is pressed
// Then: nothing changes (there is no level above the roots)
#[test]
fn alt_h_on_root_task_is_a_no_op() {
    let mut db = Db::open_in_memory().unwrap();
    let (_, b, _) = three_roots(&mut db);
    let mut app = app_for(&db, db.list_all().unwrap());
    app.select_task(b);

    app.handle_key(&mut db, Key::Char('<')).unwrap();

    assert_eq!(root_titles(&db), ["a", "b", "c"]);
}

// Tests that outdenting cannot move a task out of the zoomed subtree.
// Given: root a > child x, zoomed on a with the cursor on x
// When: < is pressed
// Then: x stays a's child and the zoom is untouched
#[test]
fn alt_h_inside_zoom_does_not_escape_zoom_root() {
    let mut db = Db::open_in_memory().unwrap();
    let status = default_status(&db);
    let a = db.create_task(None, "a", None, status).unwrap().id;
    let x = db.create_task(Some(a), "x", None, status).unwrap().id;
    let mut app = app_for(&db, db.list_all().unwrap());
    app.zoom_root = Some(a);
    app.rebuild_rows();
    app.select_task(x);

    app.handle_key(&mut db, Key::Char('<')).unwrap();

    let child = db
        .list_all()
        .unwrap()
        .into_iter()
        .find(|t| t.id == x)
        .unwrap();
    assert_eq!(child.parent_id, Some(a));
    assert_eq!(app.zoom_root, Some(a));
}

// Tests that the delete key asks for confirmation with the subtree size.
// Given: root a with children x and y (3 tasks in the subtree), cursor
//        on a
// When: "D" is pressed
// Then: the mode becomes ConfirmDelete for a with count 3, the prompt
//       appears in the status line, and nothing is deleted yet
#[test]
fn shift_d_asks_for_confirmation_with_subtree_count() {
    let mut db = Db::open_in_memory().unwrap();
    let status = default_status(&db);
    let a = db.create_task(None, "a", None, status).unwrap().id;
    db.create_task(Some(a), "x", None, status).unwrap();
    db.create_task(Some(a), "y", None, status).unwrap();
    let mut app = app_for(&db, db.list_all().unwrap());

    press(&mut app, &mut db, "D");

    assert!(matches!(
        app.mode,
        Mode::ConfirmDelete { task_id, count } if task_id == a && count == 3
    ));
    assert_eq!(app.status_line.as_deref(), Some("delete 3 task(s)? (y/n)"));
    assert_eq!(db.list_all().unwrap().len(), 3);
}

// Tests that a childless task is deleted instantly, without the prompt.
// Given: roots a, b, c (all leaves) with the cursor on b
// When: "D" is pressed
// Then: b is gone immediately (undo covers mistakes), the cursor lands
//       on the next sibling c, and the status line names the deleted
//       task and points at undo
#[test]
fn shift_d_on_leaf_deletes_immediately_and_selects_next_sibling() {
    let mut db = Db::open_in_memory().unwrap();
    let (_, b, c) = three_roots(&mut db);
    let mut app = app_for(&db, db.list_all().unwrap());
    app.select_task(b);

    press(&mut app, &mut db, "D");

    assert!(matches!(app.mode, Mode::Tree));
    assert_eq!(root_titles(&db), ["a", "c"]);
    assert_eq!(selected_id(&app), Some(c));
    assert!(db.list_all().unwrap().iter().all(|t| t.id != b));
    assert_eq!(
        app.status_line.as_deref(),
        Some("deleted \"b\" (u to undo)")
    );
}

// Tests confirming a subtree delete.
// Given: root b with child x (2 tasks) among roots a, b, c, with the
//        delete prompt open for b
// When: "y" is pressed
// Then: the subtree is deleted, the cursor lands on the next sibling c,
//       the mode returns to Tree, and the status line reports the count
#[test]
fn y_confirms_subtree_delete_and_selects_next_sibling() {
    let mut db = Db::open_in_memory().unwrap();
    let (_, b, c) = three_roots(&mut db);
    db.create_task(Some(b), "x", None, default_status(&db))
        .unwrap();
    let mut app = app_for(&db, db.list_all().unwrap());
    app.select_task(b);

    press(&mut app, &mut db, "Dy");

    assert!(matches!(app.mode, Mode::Tree));
    assert_eq!(root_titles(&db), ["a", "c"]);
    assert_eq!(selected_id(&app), Some(c));
    assert_eq!(
        app.status_line.as_deref(),
        Some("deleted 2 task(s) (u to undo)")
    );
}

// Tests the fallback selection after deleting an only child.
// Given: root a with the single child x (a expanded, cursor on x)
// When: the leaf x is deleted via "D" (no confirmation)
// Then: the cursor falls back to the parent a
#[test]
fn delete_only_child_selects_parent() {
    let mut db = Db::open_in_memory().unwrap();
    let status = default_status(&db);
    let a = db.create_task(None, "a", None, status).unwrap().id;
    let x = db.create_task(Some(a), "x", None, status).unwrap().id;
    let mut app = app_for(&db, db.list_all().unwrap());
    app.expanded.insert(a);
    app.rebuild_rows();
    app.select_task(x);

    press(&mut app, &mut db, "D");

    assert!(db.list_all().unwrap().iter().all(|t| t.id != x));
    assert_eq!(selected_id(&app), Some(a));
}

// Tests cancelling a subtree delete.
// Given: root b with child x among roots a, b, c, prompt open for b
// When: any key other than "y" ("n") is pressed
// Then: nothing is deleted and the mode returns to Tree
#[test]
fn any_other_key_cancels_subtree_delete() {
    let mut db = Db::open_in_memory().unwrap();
    let (_, b, _) = three_roots(&mut db);
    db.create_task(Some(b), "x", None, default_status(&db))
        .unwrap();
    let mut app = app_for(&db, db.list_all().unwrap());
    app.select_task(b);

    press(&mut app, &mut db, "Dn");

    assert!(matches!(app.mode, Mode::Tree));
    assert_eq!(root_titles(&db), ["a", "b", "c"]);
    assert_eq!(db.list_all().unwrap().len(), 4);
}

// Tests the delete key on an empty view.
// Given: no tasks at all
// When: "D" is pressed
// Then: the mode stays Tree (there is nothing to delete)
#[test]
fn shift_d_on_empty_view_is_a_no_op() {
    let mut db = Db::open_in_memory().unwrap();
    let mut app = app_for(&db, vec![]);

    press(&mut app, &mut db, "D");

    assert!(matches!(app.mode, Mode::Tree));
}

// Tests deleting the last remaining task.
// Given: a single root task with the cursor on it
// When: the leaf is deleted via "D" (no confirmation)
// Then: the view is empty and no cursor row remains (no panic)
#[test]
fn delete_last_task_leaves_empty_view() {
    let mut db = Db::open_in_memory().unwrap();
    db.create_task(None, "only", None, default_status(&db))
        .unwrap();
    let mut app = app_for(&db, db.list_all().unwrap());

    press(&mut app, &mut db, "D");

    assert!(app.rows.is_empty());
    assert!(db.list_all().unwrap().is_empty());
}

// Tests that deleting inside a zoom keeps the zoom.
// Given: root a > children x, y, zoomed on a with the cursor on x
// When: the leaf x is deleted via "D" (no confirmation)
// Then: the zoom root stays a and the cursor lands on the sibling y
#[test]
fn delete_inside_zoom_keeps_zoom_root() {
    let mut db = Db::open_in_memory().unwrap();
    let status = default_status(&db);
    let a = db.create_task(None, "a", None, status).unwrap().id;
    let x = db.create_task(Some(a), "x", None, status).unwrap().id;
    let y = db.create_task(Some(a), "y", None, status).unwrap().id;
    let mut app = app_for(&db, db.list_all().unwrap());
    app.zoom_root = Some(a);
    app.rebuild_rows();
    app.select_task(x);

    press(&mut app, &mut db, "D");

    assert_eq!(app.zoom_root, Some(a));
    assert_eq!(selected_id(&app), Some(y));
}

// Tests the defensive fallback when the zoom root disappears.
// Given: a view zoomed on a task id that no longer exists in the task
//        list (e.g. removed by a future delete feature)
// When: rows are rebuilt
// Then: the zoom is dropped so the view falls back to the real roots
//       instead of rendering an empty screen
#[test]
fn rebuild_clears_zoom_when_root_is_gone() {
    let mut app = test_app(vec![task(1, None, 0)]);
    app.zoom_root = Some(999);

    app.rebuild_rows();

    assert_eq!(app.zoom_root, None);
    assert_eq!(selected_id(&app), Some(1));
}

// Tests that undo brings a restored subtree into view.
// Given: a collapsed subtree a > x > leaf deleted in the store,
//        with the app reloaded afterwards
// When: "u" is pressed
// Then: the subtree is back, its inner ancestors are expanded so every
//       restored task is visible, the cursor lands on the subtree root,
//       and the status line names the undone action
#[test]
fn u_undoes_delete_expands_ancestors_and_selects_restored_task() {
    let mut db = Db::open_in_memory().unwrap();
    let status = default_status(&db);
    let a = db.create_task(None, "a", None, status).unwrap().id;
    let x = db.create_task(Some(a), "x", None, status).unwrap().id;
    db.create_task(Some(x), "leaf", None, status).unwrap();
    db.delete_subtree(a).unwrap();
    let mut app = app_for(&db, db.list_all().unwrap());

    press(&mut app, &mut db, "u");

    assert_eq!(db.list_all().unwrap().len(), 3);
    assert!(
        app.expanded.contains(&a),
        "restored parent must be expanded"
    );
    assert!(
        app.expanded.contains(&x),
        "restored parent must be expanded"
    );
    assert_eq!(selected_id(&app), Some(a));
    assert_eq!(app.status_line.as_deref(), Some("undid: delete \"a\""));
}

// Tests undo with an empty history.
// Given: an app over a database where nothing has been changed
// When: "u" is pressed
// Then: nothing happens except a "nothing to undo" notice
#[test]
fn u_with_empty_history_reports_nothing_to_undo() {
    let mut db = Db::open_in_memory().unwrap();
    let mut app = app_for(&db, vec![]);

    press(&mut app, &mut db, "u");

    assert_eq!(app.status_line.as_deref(), Some("nothing to undo"));
    assert!(matches!(app.mode, Mode::Tree));
}

// Tests undoing a creation, where no affected task survives.
// Given: a task created through the app's input flow
// When: "u" is pressed
// Then: the task is gone again, the view is empty without a crash, and
//       the status line names the undone creation
#[test]
fn u_after_create_removes_task_and_reports() {
    let mut db = Db::open_in_memory().unwrap();
    let mut app = app_for(&db, vec![]);
    app.run_command(id::CREATE_TASK);
    press(&mut app, &mut db, "t");
    app.handle_key(&mut db, Key::Enter).unwrap();
    assert_eq!(db.list_all().unwrap().len(), 1);

    press(&mut app, &mut db, "u");

    assert!(db.list_all().unwrap().is_empty());
    assert!(app.rows.is_empty());
    assert_eq!(app.status_line.as_deref(), Some("undid: create \"t\""));
}

// Tests that undo drops the zoom when the restored task is outside it.
// Given: two roots a and b, with a deleted in the store and the
//        app zoomed on b
// When: "u" is pressed
// Then: the zoom is cleared so the restored root a is visible, and the
//       cursor lands on it
#[test]
fn u_unzooms_when_restored_task_is_outside_zoom() {
    let mut db = Db::open_in_memory().unwrap();
    let status = default_status(&db);
    let a = db.create_task(None, "a", None, status).unwrap().id;
    let b = db.create_task(None, "b", None, status).unwrap().id;
    db.create_task(Some(b), "inside", None, status).unwrap();
    db.delete_subtree(a).unwrap();
    let mut app = app_for(&db, db.list_all().unwrap());
    app.zoom_root = Some(b);
    app.rebuild_rows();

    press(&mut app, &mut db, "u");

    assert_eq!(app.zoom_root, None);
    assert_eq!(selected_id(&app), Some(a));
}

// Tests that undo keeps the zoom when the restored task is inside it.
// Given: root b > child x, with x deleted in the store and the
//        app zoomed on b
// When: "u" is pressed
// Then: the zoom stays on b and the cursor lands on the restored x
#[test]
fn u_keeps_zoom_when_restored_task_is_inside_zoom() {
    let mut db = Db::open_in_memory().unwrap();
    let status = default_status(&db);
    let b = db.create_task(None, "b", None, status).unwrap().id;
    let x = db.create_task(Some(b), "x", None, status).unwrap().id;
    db.delete_subtree(x).unwrap();
    let mut app = app_for(&db, db.list_all().unwrap());
    app.zoom_root = Some(b);
    app.rebuild_rows();

    press(&mut app, &mut db, "u");

    assert_eq!(app.zoom_root, Some(b));
    assert_eq!(selected_id(&app), Some(x));
}

// Tests redo after an undo.
// Given: a deleted root whose deletion was undone via "u"
// When: "U" is pressed
// Then: the task is deleted again and the status line names the redone
//       action; a further "U" reports nothing to redo
#[test]
fn shift_u_redoes_the_undone_delete() {
    let mut db = Db::open_in_memory().unwrap();
    let a = db
        .create_task(None, "a", None, default_status(&db))
        .unwrap()
        .id;
    db.delete_subtree(a).unwrap();
    let mut app = app_for(&db, db.list_all().unwrap());
    press(&mut app, &mut db, "u");
    assert_eq!(db.list_all().unwrap().len(), 1);

    press(&mut app, &mut db, "U");

    assert!(db.list_all().unwrap().is_empty());
    assert_eq!(app.status_line.as_deref(), Some("redid: delete \"a\""));

    press(&mut app, &mut db, "U");
    assert_eq!(app.status_line.as_deref(), Some("nothing to redo"));
}

// Tests that undoing a status edit refreshes the loaded statuses.
// Given: a status renamed in the store, with the app started
//        after the rename
// When: "u" is pressed
// Then: the app's status list shows the original label again and the
//       status line names the undone action
#[test]
fn u_after_status_edit_reloads_statuses() {
    let mut db = Db::open_in_memory().unwrap();
    let victim = db.list_statuses().unwrap()[1].id;
    let old_label = db.list_statuses().unwrap()[1].label.clone();
    db.update_status_label(victim, "renamed").unwrap();
    let mut app = app_for(&db, vec![]);
    assert_eq!(app.statuses[1].label, "renamed");

    press(&mut app, &mut db, "u");

    assert_eq!(app.statuses[1].label, old_label);
    let message = app.status_line.as_deref().unwrap();
    assert!(message.starts_with("undid: rename status"));
}

/// Renames the label of the modal's current row by appending `suffix`.
fn append_to_label(app: &mut App, db: &mut Db, suffix: &str) {
    app.handle_key(db, Key::Enter).unwrap();
    press(app, db, suffix);
    app.handle_key(db, Key::Enter).unwrap();
}

// Tests that a modal session lands as one outer undo step.
// Given: a status-management session with two edits (a label rename and
//        a reorder), closed with Esc
// When: "u" is pressed once back in the tree
// Then: both edits are reverted together (full status snapshot match),
//       the status line names the session, and "U" reapplies it whole
#[test]
fn u_after_modal_close_reverts_whole_session() {
    let mut db = Db::open_in_memory().unwrap();
    let statuses_before = db.list_statuses().unwrap();
    let mut app = app_for(&db, vec![]);
    open_manage(&mut app, &mut db);
    append_to_label(&mut app, &mut db, "x");
    press(&mut app, &mut db, "J");
    let statuses_edited = db.list_statuses().unwrap();
    app.handle_key(&mut db, Key::Esc).unwrap();

    press(&mut app, &mut db, "u");
    assert_eq!(db.list_statuses().unwrap(), statuses_before);
    assert_eq!(app.statuses, statuses_before);
    assert_eq!(app.status_line.as_deref(), Some("undid: edit statuses"));

    press(&mut app, &mut db, "U");
    assert_eq!(db.list_statuses().unwrap(), statuses_edited);
    assert_eq!(app.status_line.as_deref(), Some("redid: edit statuses"));
}

// Tests that undo inside the modal cannot reach earlier task edits.
// Given: a task created before the modal was opened, and a modal with
//        no edits of its own
// When: "u" is pressed inside the modal
// Then: the task survives, the modal stays open, and the status line
//       reports there is nothing to undo
#[test]
fn modal_undo_does_not_descend_into_pre_modal_history() {
    let mut db = Db::open_in_memory().unwrap();
    let mut app = app_for(&db, vec![]);
    app.run_command(id::CREATE_TASK);
    press(&mut app, &mut db, "t");
    app.handle_key(&mut db, Key::Enter).unwrap();
    open_manage(&mut app, &mut db);

    press(&mut app, &mut db, "u");

    assert!(matches!(app.mode, Mode::StatusManage(_)));
    assert_eq!(app.status_line.as_deref(), Some("nothing to undo"));
    assert_eq!(db.list_all().unwrap().len(), 1);
}

// Tests fine-grained undo and redo inside the modal.
// Given: an open modal in which the first status's label was renamed
// When: "u" and then "U" are pressed inside the modal
// Then: the undo restores the old label in the reloaded table and names
//       the edit; the redo brings the new label back
#[test]
fn modal_undo_and_redo_step_through_session_edits() {
    let mut db = Db::open_in_memory().unwrap();
    let old_label = db.list_statuses().unwrap()[0].label.clone();
    let mut app = app_for(&db, vec![]);
    open_manage(&mut app, &mut db);
    append_to_label(&mut app, &mut db, "x");

    press(&mut app, &mut db, "u");
    assert!(matches!(app.mode, Mode::StatusManage(_)));
    assert_eq!(app.statuses[0].label, old_label);
    let message = app.status_line.as_deref().unwrap();
    assert!(message.starts_with("undid: rename status"));

    press(&mut app, &mut db, "U");
    assert_eq!(app.statuses[0].label, format!("{old_label}x"));
    let message = app.status_line.as_deref().unwrap();
    assert!(message.starts_with("redid: rename status"));
}

// Tests that an edit-free modal session leaves the history untouched.
// Given: a task creation undone before the modal (redo holds it), and a
//        modal opened and closed without edits
// When: "U" is pressed back in the tree
// Then: the stashed redo still works and recreates the task — no empty
//       "edit statuses" step was recorded in either direction
#[test]
fn modal_without_edits_leaves_history_untouched() {
    let mut db = Db::open_in_memory().unwrap();
    let mut app = app_for(&db, vec![]);
    app.run_command(id::CREATE_TASK);
    press(&mut app, &mut db, "t");
    app.handle_key(&mut db, Key::Enter).unwrap();
    press(&mut app, &mut db, "u");
    assert!(db.list_all().unwrap().is_empty());
    open_manage(&mut app, &mut db);
    app.handle_key(&mut db, Key::Esc).unwrap();

    press(&mut app, &mut db, "U");

    assert_eq!(app.status_line.as_deref(), Some("redid: create \"t\""));
    assert_eq!(db.list_all().unwrap().len(), 1);
}

// Tests that a modal undo which empties the table cursor row clamps it.
// Given: a modal session whose only edit is adding a status, with the
//        cursor left on the new last row
// When: "u" is pressed inside the modal
// Then: the added status is gone and the cursor sits on a valid row
#[test]
fn modal_undo_of_add_clamps_cursor_row() {
    let mut db = Db::open_in_memory().unwrap();
    let mut app = app_for(&db, vec![]);
    open_manage(&mut app, &mut db);
    press(&mut app, &mut db, "n");
    press(&mut app, &mut db, "review");
    app.handle_key(&mut db, Key::Enter).unwrap();
    assert_eq!(manage_state(&app).row, 5);

    press(&mut app, &mut db, "u");

    assert_eq!(app.statuses.len(), 5);
    assert!(manage_state(&app).row < app.statuses.len());
}

// Tests that "e" requests an external-editor session for the selection.
// Given: two database tasks with the cursor on the second one
// When: "e" is pressed in the Tree context
// Then: the app records a pending note edit for that task (the event
//       loop, which owns the terminal, performs the actual handover)
//       and stays in Tree mode
#[test]
fn e_requests_note_edit_for_selected_task() {
    let mut db = Db::open_in_memory().unwrap();
    db.create_task(None, "other", None, default_status(&db))
        .unwrap();
    let target = db
        .create_task(None, "t", None, default_status(&db))
        .unwrap();
    let mut app = app_for(&db, db.list_all().unwrap());
    app.select_task(target.id);

    app.handle_key(&mut db, Key::Char('e')).unwrap();

    assert_eq!(app.pending_note_edit, Some(target.id));
    assert!(matches!(app.mode, Mode::Tree));
}

// Tests "e" on an empty view.
// Given: no tasks at all
// When: "e" is pressed
// Then: no note edit is requested
#[test]
fn e_on_empty_view_requests_nothing() {
    let mut db = Db::open_in_memory().unwrap();
    let mut app = app_for(&db, vec![]);

    app.handle_key(&mut db, Key::Char('e')).unwrap();

    assert_eq!(app.pending_note_edit, None);
}


fn query_state(app: &App) -> &query_view::QueryState {
    let Mode::Query(state) = &app.mode else {
        panic!("expected the query view to be open");
    };
    state
}

fn result_titles(app: &App) -> Vec<String> {
    query_state(app)
        .results
        .iter()
        .map(|task| task.title.clone())
        .collect()
}

/// The seeded status whose kind is done ("Done").
fn done_status(db: &Db) -> i64 {
    db.list_statuses()
        .unwrap()
        .into_iter()
        .find(|s| s.kind == StatusKind::Done)
        .unwrap()
        .id
}

// Tests that "f" opens the filter menu and "o" narrows the view.
// Given: one done root task, visible under the default all filter
// When: "f" is pressed, then "o"
// Then: the menu opens (FilterSelect context), the filter becomes
//       Open, the mode returns to Tree, and the done task's row is gone
#[test]
fn f_then_o_hides_finished_tasks_in_tree() {
    let mut db = Db::open_in_memory().unwrap();
    let done = db
        .create_task(None, "done work", None, done_status(&db))
        .unwrap();
    let mut app = app_for(&db, db.list_all().unwrap());
    assert_eq!(
        selected_id(&app),
        Some(done.id),
        "the default filter shows done tasks"
    );

    press(&mut app, &mut db, "f");
    assert!(matches!(app.mode, Mode::FilterSelect));
    assert_eq!(app.context(), command::Context::FilterSelect);
    press(&mut app, &mut db, "o");

    assert!(matches!(app.mode, Mode::Tree));
    assert_eq!(app.filter, Filter::Open);
    assert!(app.rows.is_empty(), "the open filter hides done tasks");
}

// Tests filtering the tree to one status from the menu.
// Given: a task on the default status and one on the "Doing" status
//        (seeded menu key "d")
// When: "f" then "d" are pressed
// Then: the filter becomes Status(Doing) and only that task's row is
//       left in the tree
#[test]
fn f_then_status_key_filters_tree_to_that_status() {
    let mut db = Db::open_in_memory().unwrap();
    db.create_task(None, "other", None, default_status(&db))
        .unwrap();
    let statuses = db.list_statuses().unwrap();
    let doing = statuses.iter().find(|s| s.key == 'd').unwrap().id;
    let target = db.create_task(None, "doing work", None, doing).unwrap();
    let mut app = app_for(&db, db.list_all().unwrap());

    press(&mut app, &mut db, "fd");

    assert_eq!(app.filter, Filter::Status(doing));
    assert_eq!(app.rows.len(), 1);
    assert_eq!(selected_id(&app), Some(target.id));
}

// Tests cancelling the filter menu.
// Given: the filter menu opened from the tree
// When: Esc is pressed
// Then: the mode returns to Tree and the filter is unchanged
#[test]
fn esc_cancels_filter_menu_without_change() {
    let mut db = Db::open_in_memory().unwrap();
    let mut app = app_for(&db, vec![]);
    press(&mut app, &mut db, "f");

    app.handle_key(&mut db, Key::Esc).unwrap();

    assert!(matches!(app.mode, Mode::Tree));
    assert_eq!(app.filter, Filter::All);
}

// Tests that keys not bound to any filter are ignored.
// Given: the filter menu opened from the tree, where "z" names neither
//        a fixed choice nor a seeded status key
// When: "z" is pressed
// Then: the menu stays open and the filter is unchanged
#[test]
fn unbound_key_in_filter_menu_is_ignored() {
    let mut db = Db::open_in_memory().unwrap();
    let mut app = app_for(&db, vec![]);

    press(&mut app, &mut db, "fz");

    assert!(matches!(app.mode, Mode::FilterSelect));
    assert_eq!(app.filter, Filter::All);
}

// Tests that "/" opens the query view listing everything under the
// current filter.
// Given: an open task and a done task under the default all filter
// When: "/" is pressed
// Then: the mode becomes Query with the text edit focused (Input
//       context for the footer) and the results hold both tasks — the
//       empty query means "filter and sort only"
#[test]
fn slash_opens_query_with_all_tasks_under_filter() {
    let mut db = Db::open_in_memory().unwrap();
    db.create_task(None, "open work", None, default_status(&db))
        .unwrap();
    db.create_task(None, "done work", None, done_status(&db))
        .unwrap();
    let mut app = app_for(&db, db.list_all().unwrap());

    press(&mut app, &mut db, "/");

    assert_eq!(query_state(&app).focus, Focus::Edit);
    assert_eq!(app.context(), command::Context::Input);
    assert_eq!(result_titles(&app), ["open work", "done work"]);
}

// Tests that every keystroke of the search text re-runs the search.
// Given: tasks "design" and "deploy", with the query edit open
// When: "de" then "s" are typed
// Then: after "de" both tasks match; after "des" only "design" is left
#[test]
fn typing_in_query_edit_reruns_search_incrementally() {
    let mut db = Db::open_in_memory().unwrap();
    let status = default_status(&db);
    db.create_task(None, "design", None, status).unwrap();
    db.create_task(None, "deploy", None, status).unwrap();
    let mut app = app_for(&db, db.list_all().unwrap());

    press(&mut app, &mut db, "/de");
    assert_eq!(result_titles(&app), ["design", "deploy"]);

    press(&mut app, &mut db, "s");
    assert_eq!(result_titles(&app), ["design"]);
}

// Tests that a Japanese two-character word in a note is found.
// Given: a task whose note contains "設計" and one that does not
// When: "設計" is typed into the query edit
// Then: only the task with the note hit remains in the results
#[test]
fn query_finds_japanese_word_in_note() {
    let mut db = Db::open_in_memory().unwrap();
    let status = default_status(&db);
    let hit = db.create_task(None, "auth", None, status).unwrap();
    db.set_note(hit.id, "JWT の設計を検討").unwrap();
    db.create_task(None, "other", None, status).unwrap();
    let mut app = app_for(&db, db.list_all().unwrap());

    press(&mut app, &mut db, "/設計");

    assert_eq!(result_titles(&app), ["auth"]);
}

// Tests leaving the query edit with Esc.
// Given: an open query edit
// When: Esc is pressed
// Then: the mode returns to Tree
#[test]
fn esc_in_query_edit_returns_to_tree() {
    let mut db = Db::open_in_memory().unwrap();
    let mut app = app_for(&db, vec![]);
    press(&mut app, &mut db, "/");

    app.handle_key(&mut db, Key::Esc).unwrap();

    assert!(matches!(app.mode, Mode::Tree));
}

// Tests browsing the results after confirming the search text.
// Given: three matching tasks and the query edit open
// When: Enter confirms the text, then j/j/k and ge/gg move the cursor
// Then: the focus is Browse (Query context) and the selection follows
//       each movement, clamped to the result range
#[test]
fn enter_switches_to_browse_where_jk_and_gg_ge_move() {
    let mut db = Db::open_in_memory().unwrap();
    let status = default_status(&db);
    for title in ["a", "b", "c"] {
        db.create_task(None, title, None, status).unwrap();
    }
    let mut app = app_for(&db, db.list_all().unwrap());
    press(&mut app, &mut db, "/");

    app.handle_key(&mut db, Key::Enter).unwrap();
    assert_eq!(query_state(&app).focus, Focus::Browse);
    assert_eq!(app.context(), command::Context::Query);

    press(&mut app, &mut db, "jj");
    assert_eq!(query_state(&app).selected, 2);
    press(&mut app, &mut db, "j");
    assert_eq!(query_state(&app).selected, 2, "clamped at the last item");
    press(&mut app, &mut db, "k");
    assert_eq!(query_state(&app).selected, 1);
    press(&mut app, &mut db, "gg");
    assert_eq!(query_state(&app).selected, 0);
    press(&mut app, &mut db, "ge");
    assert_eq!(query_state(&app).selected, 2);
}

// Tests reopening the text edit from the browse focus.
// Given: a browsed query whose text is "de"
// When: "/" is pressed
// Then: the focus returns to Edit with the text preserved and the
//       cursor at its end, ready to continue typing
#[test]
fn slash_in_browse_reopens_edit_with_text_preserved() {
    let mut db = Db::open_in_memory().unwrap();
    db.create_task(None, "design", None, default_status(&db))
        .unwrap();
    let mut app = app_for(&db, db.list_all().unwrap());
    press(&mut app, &mut db, "/de");
    app.handle_key(&mut db, Key::Enter).unwrap();

    press(&mut app, &mut db, "/");

    let state = query_state(&app);
    assert_eq!(state.focus, Focus::Edit);
    assert_eq!(state.editor.text(), "de");
    assert_eq!(state.editor.cursor(), "de".len());
}

// Tests picking a sort order from the sort menu.
// Given: tasks created in the order b (due 2026-02-01), a (due
//        2026-01-01), c (no due), browsed with the default tree order
// When: "," opens the sort menu and "d" picks the due sort
// Then: the results reorder to earliest due first with the dateless
//       task last, and the focus returns to Browse
#[test]
fn comma_then_d_sorts_results_by_due() {
    let mut db = Db::open_in_memory().unwrap();
    let status = default_status(&db);
    let b = db.create_task(None, "b", None, status).unwrap();
    db.set_due(b.id, Some("2026-02-01")).unwrap();
    let a = db.create_task(None, "a", None, status).unwrap();
    db.set_due(a.id, Some("2026-01-01")).unwrap();
    db.create_task(None, "c", None, status).unwrap();
    let mut app = app_for(&db, db.list_all().unwrap());
    press(&mut app, &mut db, "/");
    app.handle_key(&mut db, Key::Enter).unwrap();
    assert_eq!(result_titles(&app), ["b", "a", "c"], "tree order at first");

    press(&mut app, &mut db, ",");
    assert_eq!(query_state(&app).focus, Focus::SortMenu);
    assert_eq!(app.context(), command::Context::SortSelect);
    press(&mut app, &mut db, "d");

    let state = query_state(&app);
    assert_eq!(state.focus, Focus::Browse);
    assert_eq!(state.sort, Sort::Due);
    assert_eq!(result_titles(&app), ["a", "b", "c"]);
}

// Tests cancelling the sort menu.
// Given: an open sort menu over a browsed query
// When: Esc is pressed
// Then: the focus returns to Browse with the sort unchanged
#[test]
fn esc_cancels_sort_menu_without_change() {
    let mut db = Db::open_in_memory().unwrap();
    let mut app = app_for(&db, vec![]);
    press(&mut app, &mut db, "/");
    app.handle_key(&mut db, Key::Enter).unwrap();
    press(&mut app, &mut db, ",");

    app.handle_key(&mut db, Key::Esc).unwrap();

    let state = query_state(&app);
    assert_eq!(state.focus, Focus::Browse);
    assert_eq!(state.sort, Sort::TreeOrder);
}

// Tests changing the filter from inside the query view.
// Given: an open task and a done task, browsed under the default all
//        filter (results show both)
// When: "f" opens the filter menu and "o" picks the open filter
// Then: the results drop the done task, the shared app filter becomes
//       Open (so the tree follows), and the focus is Browse
#[test]
fn f_in_browse_refilters_results_and_tree() {
    let mut db = Db::open_in_memory().unwrap();
    db.create_task(None, "open work", None, default_status(&db))
        .unwrap();
    db.create_task(None, "done work", None, done_status(&db))
        .unwrap();
    let mut app = app_for(&db, db.list_all().unwrap());
    press(&mut app, &mut db, "/");
    app.handle_key(&mut db, Key::Enter).unwrap();
    assert_eq!(result_titles(&app), ["open work", "done work"]);

    press(&mut app, &mut db, "f");
    assert_eq!(query_state(&app).focus, Focus::FilterMenu);
    assert_eq!(app.context(), command::Context::FilterSelect);
    press(&mut app, &mut db, "o");

    assert_eq!(query_state(&app).focus, Focus::Browse);
    assert_eq!(app.filter, Filter::Open);
    assert_eq!(result_titles(&app), ["open work"]);
    assert_eq!(app.rows.len(), 1, "the tree follows the shared filter");
}

// Tests both ways of leaving the browse focus.
// Given: a browsed query
// When: "q" is pressed; the query is reopened and Esc is pressed
// Then: both keys return the app to the Tree mode
#[test]
fn q_and_esc_close_query_browse() {
    let mut db = Db::open_in_memory().unwrap();
    let mut app = app_for(&db, vec![]);

    press(&mut app, &mut db, "/");
    app.handle_key(&mut db, Key::Enter).unwrap();
    press(&mut app, &mut db, "q");
    assert!(matches!(app.mode, Mode::Tree));

    press(&mut app, &mut db, "/");
    app.handle_key(&mut db, Key::Enter).unwrap();
    app.handle_key(&mut db, Key::Esc).unwrap();
    assert!(matches!(app.mode, Mode::Tree));
}

// Tests that task-editing keys are inert while browsing results.
// Given: a browsed query over one task
// When: the tree keys "r" (rename), "D" (delete) and "t" (due) are
//       pressed
// Then: the query view stays open in Browse focus and the task is
//       untouched — the query view is read-only
#[test]
fn edit_keys_are_inert_while_browsing() {
    let mut db = Db::open_in_memory().unwrap();
    db.create_task(None, "keep", None, default_status(&db))
        .unwrap();
    let mut app = app_for(&db, db.list_all().unwrap());
    press(&mut app, &mut db, "/");
    app.handle_key(&mut db, Key::Enter).unwrap();

    press(&mut app, &mut db, "rDt");

    assert_eq!(query_state(&app).focus, Focus::Browse);
    let tasks = db.list_all().unwrap();
    assert_eq!(tasks.len(), 1);
    assert_eq!(tasks[0].title, "keep");
    assert_eq!(tasks[0].due, None);
}

// Tests jumping from a result to its place in the tree.
// Given: a chain a > x > leaf (all collapsed) plus a root b, with the
//        app zoomed on b and the query browsing a hit on "leaf"
// When: Enter is pressed on the result
// Then: the app returns to the tree, drops the zoom (the target is
//       outside it), expands the target's ancestors and selects it
#[test]
fn enter_jumps_to_result_expanding_ancestors_and_unzooming() {
    let mut db = Db::open_in_memory().unwrap();
    let status = default_status(&db);
    let a = db.create_task(None, "a", None, status).unwrap().id;
    let x = db.create_task(Some(a), "x", None, status).unwrap().id;
    let leaf = db.create_task(Some(x), "leaf", None, status).unwrap().id;
    let b = db.create_task(None, "b", None, status).unwrap().id;
    let mut app = app_for(&db, db.list_all().unwrap());
    app.zoom_root = Some(b);
    app.rebuild_rows();
    press(&mut app, &mut db, "/leaf");
    app.handle_key(&mut db, Key::Enter).unwrap();
    assert_eq!(result_titles(&app), ["leaf"]);

    app.handle_key(&mut db, Key::Enter).unwrap();

    assert!(matches!(app.mode, Mode::Tree));
    assert_eq!(app.zoom_root, None);
    assert!(app.expanded.contains(&a), "ancestors must be expanded");
    assert!(app.expanded.contains(&x), "ancestors must be expanded");
    assert_eq!(selected_id(&app), Some(leaf));
}

// Tests that a jump inside the zoomed subtree keeps the zoom.
// Given: root a > child x with the app zoomed on a, browsing a hit on x
// When: Enter is pressed on the result
// Then: the zoom stays on a and the cursor lands on x
#[test]
fn enter_jump_inside_zoom_keeps_zoom_root() {
    let mut db = Db::open_in_memory().unwrap();
    let status = default_status(&db);
    let a = db.create_task(None, "a", None, status).unwrap().id;
    let x = db.create_task(Some(a), "x", None, status).unwrap().id;
    let mut app = app_for(&db, db.list_all().unwrap());
    app.zoom_root = Some(a);
    app.rebuild_rows();
    press(&mut app, &mut db, "/x");
    app.handle_key(&mut db, Key::Enter).unwrap();

    app.handle_key(&mut db, Key::Enter).unwrap();

    assert!(matches!(app.mode, Mode::Tree));
    assert_eq!(app.zoom_root, Some(a));
    assert_eq!(selected_id(&app), Some(x));
}

// Tests browsing an empty result list.
// Given: a query whose text matches nothing, confirmed into browse
// When: movement keys and Enter are pressed
// Then: nothing crashes and the jump is a no-op (the view stays open,
//       there is nothing to jump to)
#[test]
fn browse_with_no_matches_ignores_movement_and_jump() {
    let mut db = Db::open_in_memory().unwrap();
    db.create_task(None, "design", None, default_status(&db))
        .unwrap();
    let mut app = app_for(&db, db.list_all().unwrap());
    press(&mut app, &mut db, "/zzz");
    app.handle_key(&mut db, Key::Enter).unwrap();
    assert!(query_state(&app).results.is_empty());

    press(&mut app, &mut db, "jk");
    app.handle_key(&mut db, Key::Enter).unwrap();

    assert!(matches!(app.mode, Mode::Query(_)));
}

