use stask::command;
use stask::command::{commands, id};
use stask::help::{display_lines, filter_lines, lines, HelpLine};
use stask::keymap;

fn real_lines() -> Vec<HelpLine> {
    lines(&commands(), &keymap::Keymap::default())
}

fn entry(lines: &[HelpLine], wanted: command::CommandId) -> &HelpLine {
    lines
        .iter()
        .find(|line| matches!(line, HelpLine::Entry { id, .. } if *id == wanted))
        .expect("entry must exist")
}

// Tests the overall shape of the generated help list.
// Given: the real command table and the default keymap
// When: the help lines are built
// Then: the list starts with the "tree" heading, headings follow the
//       fixed context display order, and every command of the table
//       appears exactly once as an entry
#[test]
fn lines_cover_every_command_grouped_by_context() {
    let lines = real_lines();

    assert_eq!(lines.first(), Some(&HelpLine::Heading("tree")));
    let headings: Vec<&str> = lines
        .iter()
        .filter_map(|line| match line {
            HelpLine::Heading(name) => Some(*name),
            _ => None,
        })
        .collect();
    assert_eq!(
        headings,
        vec![
            "tree",
            "query",
            "help",
            "input",
            "status_select",
            "status_manage",
            "filter_select",
            "sort_select",
        ]
    );
    let entry_count = lines
        .iter()
        .filter(|line| matches!(line, HelpLine::Entry { .. }))
        .count();
    assert_eq!(entry_count, commands().len());
}

// Tests the content of a single-binding entry.
// Given: the default keymap, where delete is bound to "D" in Tree
// When: the help lines are built
// Then: the delete entry carries the key notation, the label and the
//       command id
#[test]
fn entry_shows_keys_label_and_id() {
    let lines = real_lines();

    assert_eq!(
        entry(&lines, id::TASK_DELETE),
        &HelpLine::Entry {
            keys: "D".to_string(),
            label: "delete",
            id: id::TASK_DELETE,
        }
    );
}

// Tests that an entry lists all bindings of its command.
// Given: the default keymap, where query-close is bound to "q" and Esc
// When: the help lines are built
// Then: the entry joins both notations with a space
#[test]
fn entry_joins_multiple_bindings() {
    let lines = real_lines();

    let HelpLine::Entry { keys, .. } = entry(&lines, id::QUERY_CLOSE) else {
        unreachable!("entry() only returns entries");
    };
    assert_eq!(keys, "q <esc>");
}

// Tests that special keys render in the canonical config notation.
// Given: the default keymap, where toggle-expand is bound to Tab
// When: the help lines are built
// Then: the entry shows "<tab>", ready to copy into the config file
#[test]
fn entry_uses_canonical_key_notation() {
    let lines = real_lines();

    let HelpLine::Entry { keys, .. } = entry(&lines, id::TOGGLE_EXPAND) else {
        unreachable!("entry() only returns entries");
    };
    assert_eq!(keys, "<tab>");
}

// Tests filtering by each searchable field.
// Given: the full help list
// When: filtering by a label fragment ("expand"), an id fragment
//       ("zoom") and a key notation fragment ("<tab>")
// Then: only entries matching in that field survive, with their
//       context headings; unrelated headings disappear
#[test]
fn filter_matches_keys_label_and_id() {
    let by_label = filter_lines(real_lines(), "expand");
    assert_eq!(
        by_label
            .iter()
            .filter(|l| matches!(l, HelpLine::Entry { .. }))
            .count(),
        1
    );
    assert_eq!(by_label.first(), Some(&HelpLine::Heading("tree")));

    let by_id = filter_lines(real_lines(), "zoom");
    assert!(by_id.iter().all(|line| match line {
        HelpLine::Entry { id, .. } => id.as_str().contains("zoom"),
        HelpLine::Heading(name) => *name == "tree",
    }));

    let by_keys = filter_lines(real_lines(), "<tab>");
    assert!(
        by_keys
            .iter()
            .any(|line| matches!(line, HelpLine::Entry { id, .. } if *id == id::TOGGLE_EXPAND))
    );
}

// Tests that filtering is case-insensitive and that an empty filter
// keeps the whole list.
// Given: the full help list
// When: filtering by "EXPAND" and by ""
// Then: the uppercase filter still finds the entry, and the empty
//       filter changes nothing
#[test]
fn filter_is_case_insensitive_and_empty_keeps_all() {
    let upper = filter_lines(real_lines(), "EXPAND");
    assert!(
        upper
            .iter()
            .any(|line| matches!(line, HelpLine::Entry { id, .. } if *id == id::TOGGLE_EXPAND))
    );

    let all = real_lines();
    assert_eq!(filter_lines(real_lines(), ""), all);
}

// Tests that headings without surviving entries are dropped.
// Given: the full help list
// When: filtering by "jump", which only the query context matches
// Then: exactly one heading remains, and it is "query"
#[test]
fn filter_drops_empty_headings() {
    let filtered = filter_lines(real_lines(), "jump");

    let headings: Vec<&str> = filtered
        .iter()
        .filter_map(|line| match line {
            HelpLine::Heading(name) => Some(*name),
            _ => None,
        })
        .collect();
    assert_eq!(headings, vec!["query"]);
}

// Tests the rendered form of the list.
// Given: a heading and two entries whose keys and labels differ in
//        width
// When: the display lines are built
// Then: the heading is dimmed, and the entries pad keys and labels so
//       the three columns line up
#[test]
fn display_lines_align_columns_and_dim_headings() {
    let lines = vec![
        HelpLine::Heading("tree"),
        HelpLine::Entry {
            keys: "d".to_string(),
            label: "delete",
            id: id::TASK_DELETE,
        },
        HelpLine::Entry {
            keys: "<tab>".to_string(),
            label: "expand",
            id: id::TOGGLE_EXPAND,
        },
    ];

    let rendered = display_lines(&lines);

    assert_eq!(rendered.len(), 3);
    assert!(
        rendered[0]
            .spans
            .iter()
            .all(|span| span.style.dim),
        "headings must be dimmed"
    );
    let texts: Vec<String> = rendered.iter().map(|line| line.text()).collect();
    assert_eq!(texts[1], "  d      delete  task.delete");
    assert_eq!(texts[2], "  <tab>  expand  task.toggle_expand");
}
