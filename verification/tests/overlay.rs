use stask::overlay::{centered_rect, scroll_to_show, truncate_to_width};
use stask::style::Rect;
use unicode_width::UnicodeWidthStr;

// Tests the basic centering and sizing of a popup.
// Given: a 100x40 area and a request for 80% of both dimensions
// When: the popup rect is computed
// Then: it is 80x32 and sits centered, leaving equal margins
#[test]
fn centered_rect_applies_percentages_and_centers() {
    let popup = centered_rect(Rect::new(0, 0, 100, 40), 80, 80);

    assert_eq!(popup, Rect::new(10, 4, 80, 32));
}

// Tests centering when the leftover space cannot be split evenly.
// Given: a 101x41 area and a request for 80% of both dimensions
// When: the popup rect is computed
// Then: the odd column/row goes to the right and bottom side, and the
//       popup stays fully inside the area
#[test]
fn centered_rect_puts_odd_leftover_on_the_far_side() {
    let area = Rect::new(0, 0, 101, 41);

    let popup = centered_rect(area, 80, 80);

    assert_eq!(popup, Rect::new(10, 4, 80, 32));
    assert_eq!(popup.right() + 11, area.right());
    assert_eq!(popup.bottom() + 5, area.bottom());
}

// Tests that the popup never covers the whole area.
// Given: a small 10x4 area and a request for 100% of both dimensions
// When: the popup rect is computed
// Then: at least two columns and one row of the base layer survive on
//       every side
#[test]
fn centered_rect_clamps_to_keep_the_base_layer_visible() {
    let area = Rect::new(0, 0, 10, 4);

    let popup = centered_rect(area, 100, 100);

    assert_eq!(popup, Rect::new(2, 1, 6, 2));
    assert_eq!(popup.x - area.x, 2);
    assert_eq!(area.right() - popup.right(), 2);
    assert_eq!(popup.y - area.y, 1);
    assert_eq!(area.bottom() - popup.bottom(), 1);
}

// Tests the degenerate case of a terminal too small for the margins.
// Given: a 3x1 area, which cannot fit the side margins at all
// When: the popup rect is computed
// Then: a one-cell popup is still produced, inside the area
#[test]
fn centered_rect_survives_a_tiny_area() {
    let area = Rect::new(0, 0, 3, 1);

    let popup = centered_rect(area, 80, 80);

    assert_eq!(popup, Rect::new(1, 0, 1, 1));
    assert!(popup.right() <= area.right() && popup.bottom() <= area.bottom());
}

// Tests that an empty area cannot produce an out-of-bounds popup.
// Given: a 0x0 area
// When: the popup rect is computed
// Then: the popup is empty too
#[test]
fn centered_rect_of_empty_area_is_empty() {
    let popup = centered_rect(Rect::new(0, 0, 0, 0), 80, 80);

    assert_eq!(popup.width, 0);
    assert_eq!(popup.height, 0);
}

// Tests that the popup is positioned relative to the given area.
// Given: an area offset to x=5, y=2 and a request for 50%
// When: the popup rect is computed
// Then: the popup is centered within that offset area, not the screen
#[test]
fn centered_rect_respects_the_area_origin() {
    let popup = centered_rect(Rect::new(5, 2, 20, 10), 50, 50);

    assert_eq!(popup, Rect::new(10, 4, 10, 5));
}

// Tests that a title that fits is left alone.
// Given: a title of 5 columns and a 10 column budget
// When: truncating
// Then: the title is returned unchanged
#[test]
fn truncate_keeps_text_that_fits() {
    assert_eq!(truncate_to_width("search", 10), "search");
    assert_eq!(truncate_to_width("search", 6), "search");
}

// Tests truncation of an overlong title.
// Given: a title longer than the budget
// When: truncating to 6 columns
// Then: the result ends with an ellipsis and fits the budget exactly
#[test]
fn truncate_marks_the_cut_and_fits_the_budget() {
    let cut = truncate_to_width("search: design | sort: due", 6);

    assert_eq!(cut, "searc…");
    assert_eq!(cut.width(), 6);
}

// Tests truncation in the middle of a double-width character.
// Given: a title of CJK characters, each two columns wide
// When: truncating to 5 columns
// Then: the last character is dropped rather than half-drawn, so the
//       result is 3 columns wide and still fits
#[test]
fn truncate_never_splits_a_double_width_char() {
    let cut = truncate_to_width("設計課題", 5);

    assert_eq!(cut, "設計…");
    assert!(cut.width() <= 5);
}

// Tests the no-room case.
// Given: a zero column budget
// When: truncating any non-empty text
// Then: nothing is returned, since even the ellipsis would not fit
#[test]
fn truncate_to_zero_width_is_empty() {
    assert_eq!(truncate_to_width("search", 0), "");
}

// Tests that a selection already on screen does not scroll the view.
// Given: a viewport of 10 rows and a selection within the first 10 rows
// When: the scroll offset is computed
// Then: the view stays at the top
#[test]
fn scroll_stays_at_top_while_the_selection_fits() {
    assert_eq!(scroll_to_show(0, 10), 0);
    assert_eq!(scroll_to_show(9, 10), 0);
}

// Tests scrolling past the bottom of the viewport.
// Given: a viewport of 10 rows and a selection on row 12
// When: the scroll offset is computed
// Then: the view scrolls just far enough to show the selection last
#[test]
fn scroll_follows_the_selection_past_the_bottom() {
    assert_eq!(scroll_to_show(10, 10), 1);
    assert_eq!(scroll_to_show(12, 10), 3);
}

// Tests the degenerate viewport.
// Given: a viewport with no rows at all
// When: the scroll offset is computed
// Then: it is zero, since nothing can be shown anyway
#[test]
fn scroll_of_zero_height_viewport_is_zero() {
    assert_eq!(scroll_to_show(5, 0), 0);
}
