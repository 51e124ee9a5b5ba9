use stask::input::Editor;
use stask::query::{Filter, Query, Sort};
use stask::query_view::{
    filter_from_key, filter_name, header, note_snippet, result_item, sort_from_key, sort_name,
    QueryState, Snippet,
};
use stask::status::{Status, StatusKind};
use stask::task::Task;

fn english_statuses() -> Vec<Status> {
    let rows = [
        ("Todo", StatusKind::Open, "gray", 't'),
        ("Ready", StatusKind::Open, "cyan", 'r'),
        ("Doing", StatusKind::Open, "yellow", 'd'),
        ("Done", StatusKind::Done, "green", 'x'),
        ("Cancelled", StatusKind::Cancelled, "dark_gray", 'c'),
    ];
    rows.iter()
        .enumerate()
        .map(|(i, (label, kind, color, key))| Status {
            id: i as i64 + 1,
            label: label.to_string(),
            kind: *kind,
            color: color.to_string(),
            key: *key,
            display_order: i as i64,
            is_default: i == 0,
        })
        .collect()
}

// Tests snippets when the note does not contain the search text.
// Given: a note without the needle, and an empty needle
// When: note_snippet is called
// Then: both yield None — there is nothing to show for the note
#[test]
fn note_snippet_without_hit_is_none() {
    assert_eq!(note_snippet("some note text", "missing", 60), None);
    assert_eq!(note_snippet("some note text", "", 60), None);
}

// Tests a hit on a line that fits the width entirely.
// Given: the note line "abc def" and the needle "def", with ample width
// When: note_snippet is called
// Then: the line splits around the hit with no ellipsis on either side
#[test]
fn note_snippet_shows_short_line_in_full() {
    let snippet = note_snippet("abc def", "def", 60).unwrap();

    assert_eq!(
        snippet,
        Snippet {
            before: "abc ".to_string(),
            matched: "def".to_string(),
            after: String::new(),
        }
    );
}

// Tests that the first matching line wins.
// Given: a note whose second and third lines both contain the needle
// When: note_snippet is called
// Then: the snippet comes from the second line (the first hit)
#[test]
fn note_snippet_uses_first_matching_line() {
    let snippet = note_snippet("l1\nhit here\nhit again", "hit", 60).unwrap();

    assert_eq!(snippet.before, "");
    assert_eq!(snippet.matched, "hit");
    assert_eq!(snippet.after, " here");
}

// Tests truncation of a hit in the middle of a long line.
// Given: a line of 10 a's, "XX", 10 b's; needle "XX"; width 12
// When: note_snippet is called
// Then: the remaining 10 columns split evenly, and both cut sides carry
//       an ellipsis inside their 5-column halves
#[test]
fn note_snippet_truncates_both_sides_with_ellipsis() {
    let snippet = note_snippet("aaaaaaaaaaXXbbbbbbbbbb", "XX", 12).unwrap();

    assert_eq!(
        snippet,
        Snippet {
            before: "…aaaa".to_string(),
            matched: "XX".to_string(),
            after: "bbbb…".to_string(),
        }
    );
}

// Tests that a short side donates its unused budget to the other side.
// Given: the line "abXXcccccccccc" (before the hit only 2 columns wide),
//        needle "XX", width 12
// When: note_snippet is called
// Then: the before side keeps its 2 columns and the after side gets the
//       remaining 8, ending in an ellipsis
#[test]
fn note_snippet_gives_unused_budget_to_the_longer_side() {
    let snippet = note_snippet("abXXcccccccccc", "XX", 12).unwrap();

    assert_eq!(
        snippet,
        Snippet {
            before: "ab".to_string(),
            matched: "XX".to_string(),
            after: "ccccccc…".to_string(),
        }
    );
}

// Tests ASCII case-insensitive matching.
// Given: the note "Design Doc" and the lowercase needle "design"
// When: note_snippet is called
// Then: the hit is found and the matched part keeps its original casing
#[test]
fn note_snippet_matches_ascii_case_insensitively() {
    let snippet = note_snippet("Design Doc", "design", 60).unwrap();

    assert_eq!(snippet.matched, "Design");
    assert_eq!(snippet.after, " Doc");
}

// Tests width accounting for double-width characters.
// Given: the line "この設計を検討する" and the needle "設計" (4 columns)
//        with width 12
// When: note_snippet is called
// Then: the 8 remaining columns fit the whole 4-column before side, and
//       the after side is cut to "を…" within its 4 columns
#[test]
fn note_snippet_counts_display_columns_of_wide_characters() {
    let snippet = note_snippet("この設計を検討する", "設計", 12).unwrap();

    assert_eq!(
        snippet,
        Snippet {
            before: "この".to_string(),
            matched: "設計".to_string(),
            after: "を…".to_string(),
        }
    );
}


/// A fixed "today" for the result-line tests, so they never depend on
/// the clock.
const TODAY: &str = "2026-09-13";

fn seeded_statuses() -> Vec<Status> {
    english_statuses()
}

fn task_titled(id: i64, parent_id: Option<i64>, title: &str, status_id: i64) -> Task {
    Task {
        id,
        parent_id,
        display_order: id,
        title: title.to_string(),
        status_id,
        due: None,
        note: String::new(),
        created_at: String::new(),
        updated_at: String::new(),
    }
}

// Tests the display names of every filter.
// Given: the seeded statuses
// When: each filter variant is named
// Then: fixed filters use fixed names, a status filter uses the status
//       label, and an undefined status id degrades to the raw id
#[test]
fn filter_name_covers_all_variants() {
    let statuses = seeded_statuses();
    let doing = statuses.iter().find(|s| s.label == "Doing").unwrap().id;

    assert_eq!(filter_name(Filter::Open, &statuses), "open");
    assert_eq!(filter_name(Filter::All, &statuses), "all");
    assert_eq!(filter_name(Filter::Overdue, &statuses), "overdue");
    assert_eq!(filter_name(Filter::Status(doing), &statuses), "Doing");
    assert_eq!(filter_name(Filter::Status(999), &statuses), "999");
}

// Tests the sort-menu key resolution.
// Given: the menu keys d/u/c/t/- and an unbound key
// When: each is resolved
// Then: the menu keys map to their sort orders and the unbound key to
//       None
#[test]
fn sort_from_key_resolves_menu_keys_only() {
    assert_eq!(sort_from_key('d'), Some(Sort::Due));
    assert_eq!(sort_from_key('u'), Some(Sort::Updated));
    assert_eq!(sort_from_key('c'), Some(Sort::Created));
    assert_eq!(sort_from_key('t'), Some(Sort::Title));
    assert_eq!(sort_from_key('-'), Some(Sort::TreeOrder));
    assert_eq!(sort_from_key('z'), None);
}

// Tests the filter-menu key resolution.
// Given: the seeded statuses (keys t/r/d/x/c)
// When: the fixed keys, a status key and an unbound key are resolved
// Then: a/o/! map to their fixed filters, a status key maps to a status
//       filter, and an unbound key maps to None
#[test]
fn filter_from_key_resolves_fixed_and_status_keys() {
    let statuses = seeded_statuses();
    let doing = statuses.iter().find(|s| s.label == "Doing").unwrap().id;

    assert_eq!(filter_from_key(&statuses, 'a'), Some(Filter::All));
    assert_eq!(filter_from_key(&statuses, 'o'), Some(Filter::Open));
    assert_eq!(filter_from_key(&statuses, '!'), Some(Filter::Overdue));
    assert_eq!(filter_from_key(&statuses, 'd'), Some(Filter::Status(doing)));
    assert_eq!(filter_from_key(&statuses, 'z'), None);
}

// Tests that the fixed filter keys shadow same-letter status keys.
// Given: a status whose key is 'a', which the menu also uses for "all"
// When: 'a' is resolved
// Then: the fixed "all" choice wins, matching the menu display order
#[test]
fn filter_from_key_prefers_fixed_keys_over_status_keys() {
    let status = Status {
        id: 7,
        label: "archived".to_string(),
        kind: StatusKind::Done,
        color: "gray".to_string(),
        key: 'a',
        display_order: 0,
        is_default: false,
    };

    assert_eq!(filter_from_key(&vec![status], 'a'), Some(Filter::All));
}

// Tests the query a fresh and an edited view state describe.
// Given: a new query state, then one whose editor holds "設計" with the
//        due sort
// When: the query is built with the open filter
// Then: the empty text becomes None (match everything) and the typed
//       text is carried verbatim with sort and filter
#[test]
fn query_maps_empty_text_to_none() {
    let mut state = QueryState::new();
    assert_eq!(
        state.query(Filter::Open),
        Query {
            text: None,
            filter: Filter::Open,
            sort: Sort::TreeOrder,
        }
    );

    state.editor = Editor::with_text("設計");
    state.sort = Sort::Due;
    assert_eq!(
        state.query(Filter::Open),
        Query {
            text: Some("設計".to_string()),
            filter: Filter::Open,
            sort: Sort::Due,
        }
    );
}

// Tests selection clamping after the result list shrinks.
// Given: a selection index past the end of a one-item result list, and
//        then an empty list
// When: the selection is clamped
// Then: it lands on the last item, and on 0 for the empty list
#[test]
fn clamp_selection_keeps_index_in_bounds() {
    let mut state = QueryState::new();
    state.results = vec![Task {
        id: 1,
        parent_id: None,
        display_order: 0,
        title: "t".to_string(),
        status_id: 1,
        due: None,
        note: String::new(),
        created_at: String::new(),
        updated_at: String::new(),
    }];
    state.selected = 5;

    state.clamp_selection();
    assert_eq!(state.selected, 0);

    state.results.clear();
    state.selected = 3;
    state.clamp_selection();
    assert_eq!(state.selected, 0);
}

// Tests the display names of every sort order.
// Given: each sort variant
// When: it is named
// Then: the names match the sort-menu wording
#[test]
fn sort_name_covers_all_variants() {
    assert_eq!(sort_name(Sort::TreeOrder), "tree order");
    assert_eq!(sort_name(Sort::Due), "due");
    assert_eq!(sort_name(Sort::Updated), "updated");
    assert_eq!(sort_name(Sort::Created), "created");
    assert_eq!(sort_name(Sort::Title), "title");
}

// Tests the query header line.
// Given: the search text "設計", the due sort and the open filter
// When: the header is built
// Then: it lists search text, sort name and filter name in one line
#[test]
fn header_shows_text_sort_and_filter() {
    let header = header("設計", Sort::Due, Filter::Open, &seeded_statuses());

    assert_eq!(header, "search: 設計 | sort: due | filter: open");
}

// Tests the first line of a result for a nested task.
// Given: a chain work > design with the result task "design" on the
//        seeded "Doing" status, searched with text matching nothing in
//        the note
// When: the result item is built
// Then: it is a single line: title and status (as in the tree view)
//       followed by a dimmed span naming the ancestor path "work"
#[test]
fn result_item_appends_dimmed_ancestor_path() {
    let statuses = seeded_statuses();
    let doing = statuses.iter().find(|s| s.label == "Doing").unwrap().id;
    let parent = task_titled(1, None, "work", doing);
    let task = task_titled(2, Some(1), "design", doing);
    let all = vec![parent, task.clone()];

    let lines = result_item(&task, &statuses, &all, "design", TODAY);

    assert_eq!(lines.len(), 1, "no note hit, so no snippet line");
    let contents: Vec<String> = lines[0]
        .spans
        .iter()
        .map(|s| s.content.to_string())
        .collect();
    assert_eq!(contents, ["", "design", " [Doing]", "  work"]);
    let path = lines[0].spans.last().unwrap();
    assert!(path.style.dim);
}

// Tests the first line of a result for a root task.
// Given: a root task with no ancestors
// When: the result item is built
// Then: no path span is appended after the status
#[test]
fn result_item_for_root_task_has_no_path() {
    let statuses = seeded_statuses();
    let task = task_titled(1, None, "design", statuses[0].id);
    let all = vec![task.clone()];

    let lines = result_item(&task, &statuses, &all, "", TODAY);

    let contents: Vec<String> = lines[0]
        .spans
        .iter()
        .map(|s| s.content.to_string())
        .collect();
    assert_eq!(contents, ["", "design", " [Todo]"]);
}

// Tests the snippet line of a result whose note contains the hit.
// Given: a task whose note's second line contains the searched word
//        "設計"
// When: the result item is built
// Then: a second line appears: an indent, the dimmed text before the
//       hit, the hit itself undimmed, and the dimmed text after it
#[test]
fn result_item_adds_snippet_line_for_note_hit() {
    let statuses = seeded_statuses();
    let mut task = task_titled(1, None, "auth", statuses[0].id);
    task.note = "memo\nJWT の設計を検討".to_string();
    let all = vec![task.clone()];

    let lines = result_item(&task, &statuses, &all, "設計", TODAY);

    assert_eq!(lines.len(), 2);
    let snippet = &lines[1];
    let contents: Vec<String> = snippet
        .spans
        .iter()
        .map(|s| s.content.to_string())
        .collect();
    assert_eq!(contents, ["  ", "JWT の", "設計", "を検討"]);
    assert!(snippet.spans[1].style.dim);
    assert!(
        !snippet.spans[2].style.dim,
        "the hit must stand out against the dimmed context"
    );
    assert!(snippet.spans[3].style.dim);
}

// Tests that a result with a title-only hit gets no snippet line.
// Given: a task whose title matches the search but whose note does not
// When: the result item is built
// Then: only the task line is produced
#[test]
fn result_item_without_note_hit_has_single_line() {
    let statuses = seeded_statuses();
    let mut task = task_titled(1, None, "設計", statuses[0].id);
    task.note = "unrelated memo".to_string();
    let all = vec![task.clone()];

    let lines = result_item(&task, &statuses, &all, "設計", TODAY);

    assert_eq!(lines.len(), 1);
}
