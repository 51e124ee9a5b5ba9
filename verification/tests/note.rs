use stask::note::pane_lines;

// Tests that an empty note produces no pane content.
// Given: an empty note and a whitespace-only note
// When: pane_lines is called on each
// Then: both yield no lines, so the pane is not shown at all
#[test]
fn pane_lines_of_blank_note_are_empty() {
    assert!(pane_lines("", 6).is_empty());
    assert!(pane_lines("\n \n", 6).is_empty());
}

// Tests that a short note is shown in full.
// Given: a note of 3 lines and a limit of 6
// When: pane_lines is called
// Then: all 3 lines come back unmodified, with no ellipsis
#[test]
fn pane_lines_show_short_note_in_full() {
    let note = "\n## 2026-09-12 14:30\n調査した\n";

    let lines = pane_lines(note, 6);

    assert_eq!(lines, ["", "## 2026-09-12 14:30", "調査した"]);
}

// Tests truncation of a long note.
// Given: a note of 9 lines "l1".."l9" and a limit of 6
// When: pane_lines is called
// Then: the first 3 lines (background/purpose live at the top) and the
//       last 3 lines (latest updates) are shown, with an ellipsis line
//       marking the hidden middle
#[test]
fn pane_lines_keep_head_and_tail_and_mark_hidden_middle() {
    let note = "l1\nl2\nl3\nl4\nl5\nl6\nl7\nl8\nl9\n";

    let lines = pane_lines(note, 6);

    assert_eq!(lines, ["l1", "l2", "l3", "…", "l7", "l8", "l9"]);
}

// Tests that an odd limit gives the extra line to the head.
// Given: a note of 9 lines and a limit of 5
// When: pane_lines is called
// Then: 3 head lines and 2 tail lines are shown around the ellipsis
#[test]
fn pane_lines_give_the_extra_line_to_the_head_on_odd_limits() {
    let note = "l1\nl2\nl3\nl4\nl5\nl6\nl7\nl8\nl9\n";

    let lines = pane_lines(note, 5);

    assert_eq!(lines, ["l1", "l2", "l3", "…", "l8", "l9"]);
}

// Tests the boundary where the note exactly fills the limit.
// Given: a note of exactly 6 lines and a limit of 6
// When: pane_lines is called
// Then: all 6 lines come back with no ellipsis
#[test]
fn pane_lines_at_exact_limit_have_no_ellipsis() {
    let note = "l1\nl2\nl3\nl4\nl5\nl6\n";

    let lines = pane_lines(note, 6);

    assert_eq!(lines, ["l1", "l2", "l3", "l4", "l5", "l6"]);
}
