use stask::app::App;
use stask::command::id;
use stask::config::{config_path_from, db_path_from, parse_path_flag};
use stask::db::Db;
use stask::help::{filter_lines, keep_lines, HelpLine};
use stask::key::Key;
use stask::keyspec::{parse_seq, ParseError};
use stask::status::{read_columns, ColumnError, StatusKind};
use stask::{color, config, error, footer, overlay, style, text, width};

fn args(words: &[&str]) -> Vec<String> {
    words.iter().map(|w| w.to_string()).collect()
}

#[test]
fn store_errors_read_as_sentences() {
    let cases = [
        (error::Error::Sqlite(error::StoreError::ForeignKey), "sqlite error"),
        (error::Error::TaskNotFound(7), "task 7 not found"),
        (
            error::Error::CycleDetected { task: 1, new_parent: 2 },
            "cannot move task 1 under 2: it is the task itself or one of its descendants",
        ),
        (error::Error::InvalidDate("x".to_string()), "invalid date `x` (expected YYYY-MM-DD)"),
        (error::Error::StatusNotFound(-3), "status -3 not found"),
        (error::Error::StatusInUse { count: 12 }, "status is used by 12 task(s)"),
        (error::Error::CannotDeleteLastStatus, "the last remaining status cannot be deleted"),
        (error::Error::CannotDeleteDefaultStatus, "the default status cannot be deleted"),
        (error::Error::UndoScopeAlreadyActive, "an undo scope is already active"),
        (error::Error::UndoScopeNotActive, "no undo scope is active"),
    ];
    for (e, message) in cases {
        assert_eq!(e.message(), message);
    }
}

#[test]
fn store_errors_name_their_cause() {
    let cases = [
        (error::StoreError::ForeignKey, "FOREIGN KEY constraint failed"),
        (error::StoreError::NoRow, "Query returned no rows"),
        (
            error::StoreError::IntegerOverflow,
            "an id or display order left the integer range",
        ),
        (error::StoreError::ParentCycle, "the rows link tasks in a cycle"),
        (error::StoreError::DuplicateId, "two rows carry the same id"),
    ];
    for (e, text) in cases {
        assert_eq!(e.message(), text);
        assert_eq!(error::Error::Sqlite(e).cause().as_deref(), Some(text));
    }
    assert_eq!(error::Error::TaskNotFound(7).cause(), None);
}

#[test]
fn config_errors_read_as_sentences() {
    let cases = [
        (config::Error::Parse("line 1".to_string()), "invalid config syntax", Some("line 1")),
        (
            config::Error::UnknownContext("treee".to_string()),
            "unknown keymap context `treee` (valid: tree, query, help, input, status_select, status_manage, filter_select, sort_select)",
            None,
        ),
        (
            config::Error::UnknownCommand { context: "tree".to_string(), id: "nope".to_string() },
            "no command `nope` in context `tree` (see the ? help for ids)",
            None,
        ),
        (
            config::Error::NotOverridable("input.confirm".to_string()),
            "`input.confirm` cannot be rebound: its keys are handled by the mode itself, not the keymap",
            None,
        ),
        (
            config::Error::InvalidKeySpec {
                id: "task.delete".to_string(),
                spec: "<del".to_string(),
                source: ParseError::UnclosedAngle("<del".to_string()),
            },
            "invalid key sequence `<del` for `task.delete`",
            Some("unclosed `<` in `<del` (write a literal `<` as `<lt>`)"),
        ),
        (
            config::Error::DuplicateBinding {
                context: "tree".to_string(),
                keys: "u".to_string(),
                first: id::UNDO,
                second: id::TASK_DELETE,
            },
            "duplicate binding in context `tree`: `u` is bound to both `app.undo` and `task.delete`",
            None,
        ),
        (
            config::Error::HomeNotSet,
            "cannot locate the config directory: neither $XDG_CONFIG_HOME nor $HOME is set",
            None,
        ),
    ];
    for (e, message, cause) in cases {
        assert_eq!(e.message(), message);
        assert_eq!(e.cause().as_deref(), cause);
    }
}

#[test]
fn malformed_key_sequences_are_named() {
    assert_eq!(parse_seq("").unwrap_err(), ParseError::Empty);
    assert_eq!(ParseError::Empty.message(), "empty key sequence");
    assert_eq!(parse_seq("<f13>").unwrap_err().message(), "unknown key name `<f13>`");
}

#[test]
fn the_database_path_has_four_sources() {
    let home = Some("/home/me");
    assert_eq!(
        db_path_from(Some("~/x.db"), Some("/conf.db"), Some("/data"), home).unwrap(),
        "~/x.db"
    );
    assert_eq!(
        db_path_from(None, Some("~/Sync/t.db"), Some("/data"), home).unwrap(),
        "/home/me/Sync/t.db"
    );
    assert_eq!(db_path_from(None, Some("~"), None, home).unwrap(), "/home/me");
    assert_eq!(db_path_from(None, Some("~you/t.db"), None, home).unwrap(), "~you/t.db");
    assert_eq!(db_path_from(None, None, Some("/data"), home).unwrap(), "/data/stask/tasks.db");
    assert_eq!(
        db_path_from(None, None, None, home).unwrap(),
        "/home/me/.local/share/stask/tasks.db"
    );
    assert!(matches!(db_path_from(None, None, None, None), Err(config::Error::HomeNotSet)));
    assert!(matches!(db_path_from(None, Some("~/t.db"), None, None), Err(config::Error::HomeNotSet)));
}

#[test]
fn the_config_path_needs_a_home() {
    assert_eq!(config_path_from(Some("/xdg/"), None).unwrap(), "/xdg/stask/config.toml");
    assert!(matches!(config_path_from(None, None), Err(config::Error::HomeNotSet)));
}

#[test]
fn a_path_flag_is_followed_by_its_value() {
    let given = args(&["stask", "--config", "c.toml", "--db", "t.db"]);
    assert_eq!(parse_path_flag(&given, "--config").as_deref(), Some("c.toml"));
    assert_eq!(parse_path_flag(&given, "--db").as_deref(), Some("t.db"));
    assert_eq!(parse_path_flag(&given, "--help"), None);
    assert_eq!(parse_path_flag(&args(&["stask", "--db"]), "--db"), None);
}

#[test]
fn stored_columns_are_checked() {
    assert_eq!(read_columns("done", "xyz"), Ok((StatusKind::Done, 'x')));
    assert_eq!(
        read_columns("finished", "x"),
        Err(ColumnError::UnknownKind("finished".to_string()))
    );
    assert_eq!(read_columns("open", ""), Err(ColumnError::EmptyKey));
    assert_eq!(
        ColumnError::UnknownKind("finished".to_string()).message(),
        "unknown status kind `finished`"
    );
    assert_eq!(ColumnError::EmptyKey.message(), "empty status key");
}

#[test]
fn the_clock_writes_whole_seconds_and_days() {
    let mut db = Db::open_in_memory().unwrap();
    let status = db.default_status_id().unwrap();
    let created = db.create_task(None, "t", None, status).unwrap().created_at;

    assert_eq!(created.len(), 20);
    assert!(created.ends_with('Z'));
    assert!(chrono::DateTime::parse_from_rfc3339(&created).is_ok());

    // A task long overdue turns up whatever day it is.
    let task = db.list_all().unwrap()[0].id;
    db.set_due(task, Some("0001-01-01")).unwrap();
    let mut app = App::new(
        db.list_all().unwrap(),
        db.list_statuses().unwrap(),
        db.default_status_id().unwrap(),
    );
    app.handle_key(&mut db, Key::Char('f')).unwrap();
    app.handle_key(&mut db, Key::Char('!')).unwrap();
    assert_eq!(app.rows.len(), 1);
    db.set_due(task, Some("9999-12-31")).unwrap();
    app.tasks = db.list_all().unwrap();
    app.rebuild_rows();
    assert_eq!(app.rows.len(), 0);
}

#[test]
fn widths_count_terminal_columns() {
    assert_eq!(width::widths_of(&vec!['a', '日', '\u{301}', '\u{7}']), [1, 2, 0, 0]);
    assert_eq!(width::count_fitting(&vec![1, 2, 2, 1], 4), 2);
    assert_eq!(width::count_fitting(&vec![0, 0], 0), 2);
    assert_eq!(width::pad_to("日", 2, 5), "日   ");
    assert_eq!(width::pad_to("long", 4, 2), "long");
    assert_eq!(width::largest(&vec![3, 9, 2], 4), 9);
    assert_eq!(width::largest(&vec![], 4), 4);
}

#[test]
fn the_help_filter_ignores_case_beyond_ascii() {
    let lines = vec![
        HelpLine::Heading("tree"),
        HelpLine::Entry { keys: "Ä".to_string(), label: "umlaut", id: id::QUIT },
        HelpLine::Entry { keys: "x".to_string(), label: "other", id: id::UNDO },
    ];

    let kept = filter_lines(lines, "ä");

    assert_eq!(kept.len(), 2);
    assert!(matches!(&kept[1], HelpLine::Entry { id: i, .. } if *i == id::QUIT));
}

#[test]
fn a_heading_is_kept_only_with_an_entry() {
    let entry = |n: usize| HelpLine::Entry { keys: format!("{n}"), label: "l", id: id::QUIT };
    let lines = vec![
        HelpLine::Heading("tree"),
        entry(1),
        HelpLine::Heading("query"),
        entry(2),
        entry(3),
        HelpLine::Heading("help"),
    ];

    let kept = keep_lines(&lines, &vec![false, false, false, false, true, false]);

    assert_eq!(kept, vec![HelpLine::Heading("query"), entry(3)]);
}

#[test]
fn a_footer_entry_fits_up_to_the_last_column() {
    assert!(footer::fits(10, 2, 8, 20));
    assert!(!footer::fits(10, 2, 9, 20));
    assert!(!footer::fits(usize::MAX, usize::MAX, usize::MAX, usize::MAX));
}

#[test]
fn popups_and_scrolling_stay_inside() {
    let area = style::Rect::new(0, 0, 100, 40);
    let popup = overlay::centered_rect(area, 80, 50);
    assert_eq!((popup.x, popup.y, popup.width, popup.height), (10, 10, 80, 20));
    assert_eq!(overlay::scroll_to_show(9, 4), 6);
    assert_eq!(overlay::scroll_to_show(3, 4), 0);
}

#[test]
fn colors_take_names_and_six_hex_digits() {
    assert_eq!(color::parse_color("#0aFf10"), style::Color::Rgb(10, 255, 16));
    assert_eq!(color::parse_color("#0aff1"), style::Color::Reset);
    assert_eq!(color::parse_color("#0aff1g"), style::Color::Reset);
    assert_eq!(color::parse_color("#+1+2+3"), style::Color::Reset);
}

#[test]
fn texts_are_cut_into_lines_words_and_numbers() {
    assert_eq!(text::lines("a\r\nb\n\nc\n"), ["a", "b", "", "c"]);
    assert_eq!(text::words("  code\t--wait \n x"), ["code", "--wait", "x"]);
    assert_eq!(text::trim("\u{3000} a b\u{a0}"), "a b");
    assert_eq!(text::number(i64::MIN), "-9223372036854775808");
    assert_eq!(text::number(0), "0");
    assert!(text::lt("Z", "a"));
    assert!(text::lt("a", "ab"));
    assert!(!text::lt("a", "a"));
}
