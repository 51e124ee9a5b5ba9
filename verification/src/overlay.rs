//! Geometry helpers for the centered popups that the status, help and
//! search views are drawn in.
use vstd::prelude::*;

use crate::style::Rect;
use crate::text;
use crate::width;

verus! {

/// Columns of the base layer kept visible on each side of a popup, so the
/// task tree underneath stays recognisable as a background layer.
pub const MIN_SIDE_MARGIN: u16 = 2;

/// Rows of the base layer kept visible above and below a popup.
pub const MIN_VERTICAL_MARGIN: u16 = 1;

/// Marks a truncated text. One display column wide.
pub const ELLIPSIS: char = '…';

/// The length of a popup along one axis: the percentage of what is
/// available, at least 1 and leaving the margins, but never more than there
/// is. Showing the modal at all matters more than the margins.
pub open spec fn popup_length(available: int, pct: int, min_margin: int) -> int {
    let wanted = available * pct / 100;
    let capped = if available - 2 * min_margin >= 1 {
        available - 2 * min_margin
    } else {
        1
    };
    let clamped = if wanted < 1 {
        1
    } else if wanted > capped {
        capped
    } else {
        wanted
    };
    if clamped > available {
        available
    } else {
        clamped
    }
}

fn popup_len(available: u16, pct: u16, min_margin: u16) -> (r: u16)
    requires
        min_margin <= 2,
    ensures
        r == popup_length(available as int, pct as int, min_margin as int),
        r <= available,
{
    assert(available * pct <= 65535 * 65535) by (nonlinear_arith)
        requires
            available <= 65535,
            pct <= 65535,
    ;
    assert(available * pct >= 0) by (nonlinear_arith)
        requires
            available >= 0,
            pct >= 0,
    ;
    let product: u32 = (available as u32) * (pct as u32);
    let wanted: u32 = product / 100;
    let rest: u16 = available.saturating_sub(min_margin * 2);
    let capped: u32 = if rest >= 1 {
        rest as u32
    } else {
        1
    };
    let clamped: u32 = if wanted < 1 {
        1
    } else if wanted > capped {
        capped
    } else {
        wanted
    };
    if clamped > available as u32 {
        available
    } else {
        clamped as u16
    }
}

/// Centers a popup of `width_pct` / `height_pct` percent of `area` inside
/// it, shrinking it when needed to keep the base layer visible around it.
pub fn centered_rect(area: Rect, width_pct: u16, height_pct: u16) -> (r: Rect)
    requires
        area.x + (area.width - popup_length(
            area.width as int,
            width_pct as int,
            MIN_SIDE_MARGIN as int,
        )) / 2 <= u16::MAX,
        area.y + (area.height - popup_length(
            area.height as int,
            height_pct as int,
            MIN_VERTICAL_MARGIN as int,
        )) / 2 <= u16::MAX,
    ensures
        r.width == popup_length(area.width as int, width_pct as int, MIN_SIDE_MARGIN as int),
        r.height == popup_length(
            area.height as int,
            height_pct as int,
            MIN_VERTICAL_MARGIN as int,
        ),
        r.x == area.x + (area.width - r.width) / 2,
        r.y == area.y + (area.height - r.height) / 2,
        // The popup lies within the area.
        r.x >= area.x && r.x + r.width <= area.x + area.width,
        r.y >= area.y && r.y + r.height <= area.y + area.height,
        // What it leaves on either side is the same, but for an odd cell.
        0 <= (area.x + area.width - r.x - r.width) - (r.x - area.x) <= 1,
        0 <= (area.y + area.height - r.y - r.height) - (r.y - area.y) <= 1,
{
    let width = popup_len(area.width, width_pct, MIN_SIDE_MARGIN);
    let height = popup_len(area.height, height_pct, MIN_VERTICAL_MARGIN);
    Rect {
        x: area.x + (area.width - width) / 2,
        y: area.y + (area.height - height) / 2,
        width,
        height,
    }
}

/// A text that does not fit, cut to its longest start within the columns
/// left by the ellipsis.
pub open spec fn cut_to(text: Seq<char>, widths: Seq<usize>, budget: nat) -> Seq<char> {
    text.take(width::fit(widths, budget)).push(ELLIPSIS)
}

/// A text cut to a width, given its own width, the width of each of its
/// characters and that of the ellipsis.
pub open spec fn truncated_by(
    text: Seq<char>,
    own: nat,
    widths: Seq<usize>,
    ellipsis: nat,
    max_width: nat,
) -> Seq<char> {
    if own <= max_width {
        text
    } else if max_width == 0 {
        seq![]
    } else {
        cut_to(
            text,
            widths,
            if max_width >= ellipsis {
                (max_width - ellipsis) as nat
            } else {
                0
            },
        )
    }
}

pub open spec fn ellipsis_columns() -> usize {
    match width::char_columns(ELLIPSIS) {
        Some(w) => w,
        None => 1,
    }
}

pub open spec fn truncated(text: Seq<char>, max_width: nat) -> Seq<char> {
    width::trimmed_end(
        truncated_by(
            text,
            width::text_columns(text) as nat,
            width::columns_of(text),
            ellipsis_columns() as nat,
            max_width,
        ),
        max_width,
    )
}

/// Cuts a text to a width, given its own width, the width of each of its
/// characters and that of the ellipsis.
pub fn truncate_by(
    text: &str,
    own: usize,
    widths: &Vec<usize>,
    ellipsis: usize,
    max_width: usize,
) -> (r: String)
    requires
        widths@.len() == text@.len(),
    ensures
        r@ == truncated_by(text@, own as nat, widths@, ellipsis as nat, max_width as nat),
{
    if own <= max_width {
        return text.to_owned();
    }
    if max_width == 0 {
        let r = String::new();
        assert(r@ =~= seq![]);
        return r;
    }
    let n = width::count_fitting(widths, max_width.saturating_sub(ellipsis));
    let chars = text::chars_of(text);
    let mut r = text::string_from(&chars, 0, n);
    r.push(ELLIPSIS);
    r
}

/// Cuts `text` to `max_width` display columns, marking the cut with an
/// ellipsis. Used for popup titles, which the border clips silently
/// otherwise.
pub fn truncate_to_width(text: &str, max_width: usize) -> (r: String)
    ensures
        r@ == truncated(text@, max_width as nat),
        width::text_columns(r@) <= max_width,
        width::plain(text@) && text@.len() <= max_width ==> r@ == text@,
{
    let own = width::text_width(text);
    let ellipsis = match width::char_width(ELLIPSIS) {
        Some(w) => w,
        None => 1,
    };
    let widths = width::widths_of(&text::chars_of(text));
    width::trim_end(truncate_by(text, own, &widths, ellipsis, max_width), max_width)
}

/// A cut text and its ellipsis together take no more columns than asked for,
/// by the widths of the characters.
pub proof fn a_cut_text_fits(
    text: Seq<char>,
    own: nat,
    widths: Seq<usize>,
    ellipsis: nat,
    max_width: nat,
)
    requires
        own > max_width,
        max_width >= ellipsis,
        max_width > 0,
    ensures
        ({
            let kept = width::fit(widths, (max_width - ellipsis) as nat);
            truncated_by(text, own, widths, ellipsis, max_width) == text.take(kept).push(ELLIPSIS)
                && width::total(widths.take(kept)) + ellipsis <= max_width
        }),
{
    width::lemma_fit_exists(widths, (max_width - ellipsis) as nat);
}

/// The first visible index that shows the selection at the bottom or above.
pub open spec fn scroll_for(selected: nat, height: nat) -> nat {
    if height == 0 || selected < height {
        0
    } else {
        (selected - (height - 1)) as nat
    }
}

/// First visible index that keeps `selected` inside a viewport of `height`
/// rows, scrolling as late as possible. Recomputed per frame, so views that
/// store only a cursor still follow it.
pub fn scroll_to_show(selected: usize, height: usize) -> (r: usize)
    ensures
        r == scroll_for(selected as nat, height as nat),
        height > 0 ==> r <= selected < r + height,
{
    if height == 0 {
        return 0;
    }
    selected.saturating_sub(height - 1)
}

} // verus!
