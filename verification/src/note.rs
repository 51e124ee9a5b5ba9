//! Formatting helpers for the note tail shown in the detail pane.
use vstd::prelude::*;

use crate::text;

verus! {

/// The head and tail of a list that is too long, with an ellipsis between;
/// an odd line goes to the head.
pub open spec fn shortened(lines: Seq<Seq<char>>, max: nat) -> Seq<Seq<char>> {
    let head = (max + 1) / 2;
    let tail = max - head;
    lines.take(head as int).push("…"@) + lines.skip(lines.len() - tail)
}

/// The detail-pane body for a note.
pub open spec fn pane(note: Seq<char>, max: nat) -> Seq<Seq<char>> {
    if text::trimmed(note).len() == 0 {
        seq![]
    } else if text::lines_of(note).len() <= max {
        text::lines_of(note)
    } else {
        shortened(text::lines_of(note), max)
    }
}

/// Builds the detail-pane body for a note: the whole note when it fits in
/// `max` lines, otherwise the head, an ellipsis line, and the tail. Both
/// ends carry the valuable parts of a note — background and purpose live at
/// the top, the latest updates at the bottom — so the middle is what gets
/// cut. A blank note yields no lines, meaning no pane.
pub fn pane_lines(note: &str, max: usize) -> (r: Vec<String>)
    ensures
        text::texts(r@) == pane(note@, max as nat),
{
    if text::chars_of(text::trim(note).as_str()).len() == 0 {
        let r: Vec<String> = Vec::new();
        assert(text::texts(r@) =~= seq![]);
        return r;
    }
    let lines = text::lines(note);
    let ghost all = text::texts(lines@);
    if lines.len() <= max {
        return lines;
    }
    let head: usize = max / 2 + max % 2;
    let tail: usize = max - head;
    let mut r: Vec<String> = Vec::new();
    let mut i: usize = 0;
    while i < head
        invariant
            i <= head <= lines.len(),
            all == text::texts(lines@),
            text::texts(r@) == all.take(i as int),
        decreases head - i,
    {
        let line = lines[i].clone();
        let ghost before = text::texts(r@);
        assert(line@ == all[i as int]);
        r.push(line);
        assert(text::texts(r@) =~= before.push(line@));
        i = i + 1;
        assert(text::texts(r@) =~= all.take(i as int));
    }
    r.push("…".to_owned());
    let ghost front = all.take(head as int).push("…"@);
    assert(text::texts(r@) =~= front);
    let from: usize = lines.len() - tail;
    let mut k: usize = from;
    assert(front + all.subrange(from as int, from as int) =~= front);
    while k < lines.len()
        invariant
            from <= k <= lines.len(),
            all == text::texts(lines@),
            text::texts(r@) == front + all.subrange(from as int, k as int),
        decreases lines.len() - k,
    {
        let line = lines[k].clone();
        let ghost before = text::texts(r@);
        assert(line@ == all[k as int]);
        r.push(line);
        assert(text::texts(r@) =~= before.push(line@));
        k = k + 1;
        assert(text::texts(r@) =~= front + all.subrange(from as int, k as int));
    }
    assert(all.subrange(from as int, k as int) =~= all.skip(from as int));
    r
}

/// The pane never takes more than one line above its limit.
pub proof fn pane_stays_within_its_limit(note: Seq<char>, max: nat)
    ensures
        pane(note, max).len() <= max + 1,
{
}

} // verus!
