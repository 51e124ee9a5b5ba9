//! What the lines on the screen say, told from what they show.
use vstd::prelude::*;

use crate::color;
use crate::command::{CommandV, Context};
use crate::external_editor;
use crate::finding;
use crate::footer;
use crate::forest;
use crate::key::Key;
use crate::keymap;
use crate::keymap::BindingV;
use crate::note;
use crate::order;
use crate::overlay;
use crate::query::{Filter, Sort};
use crate::query_view;
use crate::render;
use crate::status::{StatusKind, StatusV};
use crate::status_manage::Column;
use crate::style::{Color, Style};
use crate::task::TaskV;
use crate::text;
use crate::tree;
use crate::width;

verus! {

/// No two statuses share an id.
pub open spec fn ids_differ(statuses: Seq<StatusV>) -> bool {
    forall|i: int, j: int| 0 <= i < j < statuses.len() ==> statuses[i].id != statuses[j].id
}

proof fn lemma_path_below(ts: Seq<TaskV>, i: int, j: int)
    requires
        forest::acyclic(ts),
        order::unique_ids(ts),
        0 <= i < ts.len(),
        0 <= j < ts.len(),
        ts[i].parent_id == Some(ts[j].id),
    ensures
        tree::path_text(ts, ts[i].id) == tree::path_text(ts, ts[j].id) + " › "@ + ts[i].title,
{
    let h = forest::heights(ts);
    assert(forest::descends(ts, h));
    tree::lemma_own_index(ts, i);
    tree::lemma_own_index(ts, j);
    let up = tree::upwards(ts, h, Some(ts[j].id));
    let ids = tree::upwards(ts, h, Some(ts[i].id));
    assert(ids =~= seq![ts[i].id] + up);
    assert(ids.drop_first() =~= up);
    let above = tree::titles_up(ts, up);
    let all = tree::titles_up(ts, ids);
    assert(all =~= seq![ts[i].title] + above);
    assert(above.len() > 0) by {
        assert(up[0] == ts[j].id);
    }
    assert(all.reverse() =~= above.reverse().push(ts[i].title));
    assert(all.reverse().drop_last() =~= above.reverse());
}

/// The path of a task leads from the top down to it: that of a task without
/// a parent is its title, and that of any other is its parent's path, an
/// arrow and its title.
pub proof fn a_path_leads_from_the_top_down(ts: Seq<TaskV>, i: int)
    requires
        forest::acyclic(ts),
        order::unique_ids(ts),
        0 <= i < ts.len(),
    ensures
        ts[i].parent_id is None ==> tree::path_text(ts, ts[i].id) == ts[i].title,
        forall|j: int|
            0 <= j < ts.len() && ts[i].parent_id == Some((#[trigger] ts[j]).id) ==> tree::path_text(
                ts,
                ts[i].id,
            ) == tree::path_text(ts, ts[j].id) + " › "@ + ts[i].title,
{
    let h = forest::heights(ts);
    tree::lemma_own_index(ts, i);
    if ts[i].parent_id is None {
        let ids = tree::upwards(ts, h, Some(ts[i].id));
        assert(ids =~= seq![ts[i].id]);
        assert(ids.drop_first() =~= seq![]);
        assert(tree::titles_up(ts, ids.drop_first()) =~= seq![]);
        assert(tree::titles_up(ts, ids) =~= seq![ts[i].title]);
        assert(tree::titles_up(ts, ids).reverse() =~= seq![ts[i].title]);
    }
    assert forall|j: int|
        0 <= j < ts.len() && ts[i].parent_id == Some(
            (#[trigger] ts[j]).id,
        ) implies tree::path_text(ts, ts[i].id) == tree::path_text(ts, ts[j].id) + " › "@
        + ts[i].title by {
        lemma_path_below(ts, i, j);
    }
}

/// A row shows the title, the label of the task's status in the status's
/// color, and the due date where there is one, in red exactly for an open
/// task whose date has passed.
pub proof fn a_row_shows_its_task(
    prefix: Seq<char>,
    t: TaskV,
    statuses: Seq<StatusV>,
    k: int,
    today: Seq<char>,
)
    requires
        0 <= k < statuses.len(),
        statuses[k].id == t.status_id,
        ids_differ(statuses),
    ensures
        ({
            let line = render::task_spans(prefix, t, statuses, today);
            &&& line.len() == if t.due is Some {
                4
            } else {
                3int
            }
            &&& line[0].content == prefix
            &&& line[0].style == Style { fg: None, dim: false, reversed: false }
            &&& line[1].content == t.title
            &&& line[1].style == Style { fg: None, dim: false, reversed: false }
            &&& line[2].content == " ["@ + statuses[k].label + "]"@
            &&& line[2].style.fg == Some(color::color_of(statuses[k].color))
            &&& !line[2].style.dim
            &&& t.due is Some ==> {
                &&& line[3].content == " "@ + t.due->Some_0
                &&& line[3].style.fg == Some(Color::Red) <==> statuses[k].kind
                    == StatusKind::Open && finding::precedes(t.due->Some_0, today)
                &&& line[3].style.fg != Some(Color::Red) ==> line[3].style.dim
                    && line[3].style.fg is None
            }
        }),
{
    finding::lemma_position_known(statuses, t.status_id, k);
    if t.due is Some {
        finding::texts_sort_by_their_first_difference(t.due->Some_0, today);
    }
}

/// In front of a title stand two blanks for every level, and a mark that
/// tells whether the task has children and whether they are shown.
pub proof fn a_row_is_indented_by_its_depth(depth: nat, children: bool, open: bool)
    ensures
        ({
            let p = tree::prefix_text(depth, children, open);
            &&& p.len() == 2 * depth + 2
            &&& forall|i: int| 0 <= i < 2 * depth ==> p[i] == ' '
            &&& p.last() == ' '
            &&& p[2 * depth as int] == if !children {
                ' '
            } else if open {
                '▾'
            } else {
                '▸'
            }
        }),
{
    reveal_strlit("  ");
    reveal_strlit("▾ ");
    reveal_strlit("▸ ");
}

/// A text breaks into lines at its line feeds, a carriage return in front of
/// one belonging to it; what follows the last is a line where it is not
/// empty.
pub proof fn a_text_breaks_at_its_line_feeds(first: Seq<char>, rest: Seq<char>)
    requires
        forall|i: int| 0 <= i < first.len() ==> first[i] != '\n',
    ensures
        text::lines_of(first) == (if first.len() == 0 {
            seq![]
        } else {
            seq![first]
        }),
        first.len() == 0 || first.last() != '\r' ==> text::lines_of(first.push('\n') + rest)
            == seq![first] + text::lines_of(rest),
        text::lines_of(first.push('\r').push('\n') + rest) == seq![first] + text::lines_of(rest),
{
    let n: int = first.len() as int;
    text::lemma_index_of_char(first, '\n', n);
    let a = first.push('\n') + rest;
    text::lemma_index_of_char(a, '\n', n);
    assert(a.take(n) =~= first);
    assert(a.skip(n + 1) =~= rest);
    let b = first.push('\r').push('\n') + rest;
    text::lemma_index_of_char(b, '\n', n + 1);
    assert(b.take(n + 1) =~= first.push('\r'));
    assert(first.push('\r').drop_last() =~= first);
    assert(b.skip(n + 2) =~= rest);
}

/// The pane of a note holds all its lines where they fit. Where they do not,
/// the first and the last lines are kept, as many of the first as of the
/// last or one more, with an ellipsis in place of the middle.
pub proof fn a_long_note_loses_its_middle(whole: Seq<char>, max: nat)
    ensures
        ({
            let lines = text::lines_of(whole);
            let pane = note::pane(whole, max);
            let blank = forall|k: int| 0 <= k < whole.len() ==> text::is_space(#[trigger] whole[k]);
            &&& blank ==> pane.len() == 0
            &&& !blank && lines.len() <= max ==> pane == lines
            &&& !blank && lines.len() > max ==> exists|head: nat, tail: nat|
                #![trigger kept(lines, pane, head, tail)]
                {
                    &&& head + tail == max
                    &&& tail <= head <= tail + 1
                    &&& kept(lines, pane, head, tail)
                }
        }),
{
    crate::app::effects::typed_text_loses_the_space_around_it(whole);
    let lines = text::lines_of(whole);
    let pane = note::pane(whole, max);
    if text::trimmed(whole).len() > 0 && lines.len() > max {
        let head = (max + 1) / 2;
        let tail = (max - head) as nat;
        assert(kept(lines, pane, head, tail));
    }
}

/// The first `head` and the last `tail` lines with an ellipsis between.
pub open spec fn kept(lines: Seq<Seq<char>>, pane: Seq<Seq<char>>, head: nat, tail: nat) -> bool {
    &&& pane.len() == head + 1 + tail
    &&& forall|i: int| 0 <= i < head ==> pane[i] == lines[i]
    &&& pane[head as int] == "…"@
    &&& forall|i: int|
        0 <= i < tail ==> #[trigger] pane[pane.len() - tail + i] == lines[lines.len() - tail + i]
}

proof fn lemma_trim_start_join(x: Seq<char>, y: Seq<char>)
    ensures
        text::trim_start(x).len() > 0 ==> text::trim_start(x + y) == text::trim_start(x) + y,
        text::trim_start(x).len() == 0 ==> text::trim_start(x + y) == text::trim_start(y),
    decreases x.len(),
{
    if x.len() > 0 {
        assert((x + y).drop_first() =~= x.drop_first() + y);
        if text::is_space(x[0]) {
            lemma_trim_start_join(x.drop_first(), y);
        }
    } else {
        assert(x + y =~= y);
    }
}

proof fn lemma_trim_start_twice(x: Seq<char>)
    ensures
        text::trim_start(text::trim_start(x)) == text::trim_start(x),
        text::trim_start(x).len() <= x.len(),
        text::trim_start(x).len() > 0 ==> !text::is_space(text::trim_start(x)[0]),
    decreases x.len(),
{
    if x.len() > 0 && text::is_space(x[0]) {
        lemma_trim_start_twice(x.drop_first());
    }
}

proof fn lemma_first_space(x: Seq<char>, c: char, y: Seq<char>)
    requires
        text::is_space(c),
    ensures
        text::first_space(x.push(c) + y) == text::first_space(x),
        0 <= text::first_space(x) <= x.len(),
        x.len() > 0 && !text::is_space(x[0]) ==> text::first_space(x) > 0,
        forall|i: int| 0 <= i < text::first_space(x) ==> !text::is_space(#[trigger] x[i]),
    decreases x.len(),
{
    if x.len() > 0 && !text::is_space(x[0]) {
        let rest = x.drop_first();
        assert((x.push(c) + y).drop_first() =~= rest.push(c) + y);
        lemma_first_space(rest, c, y);
        assert forall|i: int| 0 <= i < text::first_space(x) implies !text::is_space(
            #[trigger] x[i],
        ) by {
            if i > 0 {
                assert(rest[i - 1] == x[i]);
            }
        }
    }
}

proof fn lemma_words_join(x: Seq<char>, c: char, y: Seq<char>)
    requires
        text::is_space(c),
    ensures
        text::words_of(x.push(c) + y) == text::words_of(x) + text::words_of(y),
    decreases x.len(),
{
    let s = x.push(c) + y;
    let t = text::trim_start(x);
    assert(s =~= x + (seq![c] + y));
    lemma_trim_start_join(x, seq![c] + y);
    lemma_trim_start_twice(x);
    if t.len() == 0 {
        assert((seq![c] + y).drop_first() =~= y);
        assert(text::trim_start(s) == text::trim_start(y));
        assert(text::words_of(s) =~= text::words_of(x) + text::words_of(y));
    } else {
        let k = text::first_space(t);
        lemma_first_space(t, c, y);
        assert(t + (seq![c] + y) =~= t.push(c) + y);
        let u = t.push(c) + y;
        assert(u.take(k) =~= t.take(k));
        assert(u.skip(k) =~= t.skip(k).push(c) + y);
        lemma_words_join(t.skip(k), c, y);
        assert(text::words_of(s) =~= text::words_of(x) + text::words_of(y));
    }
}

proof fn lemma_one_word(w: Seq<char>)
    requires
        w.len() > 0,
        forall|i: int| 0 <= i < w.len() ==> !text::is_space(#[trigger] w[i]),
    ensures
        text::words_of(w) == seq![w],
{
    assert(text::trim_start(w) == w) by {
        assert(!text::is_space(w[0]));
    }
    lemma_no_space(w);
    assert(w.take(w.len() as int) =~= w);
    let e = w.skip(w.len() as int);
    assert(text::trim_start(e) =~= e);
    assert(text::words_of(e) =~= seq![]);
    assert(text::words_of(w) =~= seq![w]);
}

proof fn lemma_no_space(w: Seq<char>)
    requires
        forall|i: int| 0 <= i < w.len() ==> !text::is_space(#[trigger] w[i]),
    ensures
        text::first_space(w) == w.len(),
    decreases w.len(),
{
    if w.len() > 0 {
        assert(!text::is_space(w[0]));
        assert forall|i: int| 0 <= i < w.drop_first().len() implies !text::is_space(
            #[trigger] w.drop_first()[i],
        ) by {
            assert(w.drop_first()[i] == w[i + 1]);
        }
        lemma_no_space(w.drop_first());
    }
}

/// The editor's command and arguments are what white space separates: a
/// separator parts the words before it from those behind it, a run without
/// white space is one word, and `hx` is called where there is no word at
/// all.
pub proof fn an_editor_command_is_split_at_its_spaces(
    x: Seq<char>,
    c: char,
    y: Seq<char>,
    word: Seq<char>,
)
    requires
        text::is_space(c),
        word.len() > 0,
        forall|i: int| 0 <= i < word.len() ==> !text::is_space(#[trigger] word[i]),
    ensures
        ({
            let whole = x.push(c) + y;
            let blank = |s: Seq<char>|
                forall|k: int| 0 <= k < s.len() ==> text::is_space(#[trigger] s[k]);
            let words = |s: Seq<char>| external_editor::editor_words(Some(s));
            &&& words(word) == seq![word]
            &&& blank(x) ==> words(x) == seq!["hx"@]
            &&& blank(x) ==> words(whole) == words(y)
            &&& blank(y) ==> words(whole) == words(x)
            &&& !blank(x) && !blank(y) ==> words(whole) == words(x) + words(y)
            &&& external_editor::editor_words(None) == seq!["hx"@]
        }),
{
    lemma_words_join(x, c, y);
    lemma_one_word(word);
    lemma_blank_words(x);
    lemma_blank_words(y);
    assert(text::words_of(x) + seq![] =~= text::words_of(x));
    assert(seq![] + text::words_of(y) =~= text::words_of(y));
}

proof fn lemma_blank_words(s: Seq<char>)
    ensures
        text::words_of(s).len() == 0 <==> forall|k: int|
            0 <= k < s.len() ==> text::is_space(#[trigger] s[k]),
        text::words_of(s).len() == 0 ==> text::words_of(s) == Seq::<Seq<char>>::empty(),
{
    lemma_blank(s);
    if text::trim_start(s).len() == 0 {
        assert(text::words_of(s) =~= seq![]);
    } else {
        assert(text::words_of(s).len() > 0);
    }
    if text::words_of(s).len() == 0 {
        assert(text::words_of(s) =~= Seq::<Seq<char>>::empty());
    }
}

proof fn lemma_blank(s: Seq<char>)
    ensures
        text::trim_start(s).len() == 0 <==> forall|k: int|
            0 <= k < s.len() ==> text::is_space(#[trigger] s[k]),
    decreases s.len(),
{
    if s.len() > 0 {
        if text::is_space(s[0]) {
            let rest = s.drop_first();
            lemma_blank(rest);
            if text::trim_start(s).len() == 0 {
                assert forall|k: int| 0 <= k < s.len() implies text::is_space(#[trigger] s[k]) by {
                    if k > 0 {
                        assert(rest[k - 1] == s[k]);
                    }
                }
            } else {
                let k = choose|k: int| 0 <= k < rest.len() && !text::is_space(#[trigger] rest[k]);
                assert(!text::is_space(s[k + 1]));
            }
        } else {
            assert(!text::is_space(s[0]));
        }
    }
}

/// The menu for a status offers every status under its own key, in their
/// order; the filter menu offers the fixed filters before them.
pub proof fn a_menu_offers_each_status_under_its_key(statuses: Seq<StatusV>)
    ensures
        render::status_choices(statuses).len() == statuses.len(),
        forall|i: int|
            0 <= i < statuses.len() ==> (#[trigger] render::status_choices(statuses)[i])
                == seq![statuses[i].key, ' '] + statuses[i].label,
        render::fixed_filters() == seq!["a all"@, "o open"@, "! overdue"@],
{
    reveal_strlit(" ");
    reveal_strlit("all");
    reveal_strlit("open");
    reveal_strlit("overdue");
    reveal_strlit("a all");
    reveal_strlit("o open");
    reveal_strlit("! overdue");
    assert forall|i: int| 0 <= i < statuses.len() implies (#[trigger] render::status_choices(
        statuses,
    )[i]) == seq![statuses[i].key, ' '] + statuses[i].label by {
        assert(render::status_choices(statuses)[i] =~= seq![statuses[i].key, ' ']
            + statuses[i].label);
    }
    assert(render::choice('a', "all"@) =~= "a all"@);
    assert(render::choice('o', "open"@) =~= "o open"@);
    assert(render::choice('!', "overdue"@) =~= "! overdue"@);
    assert(render::fixed_filters() =~= seq!["a all"@, "o open"@, "! overdue"@]);
}

/// Joined texts follow each other with the separator between.
pub proof fn joining_puts_the_separator_between(parts: Seq<Seq<char>>, last: Seq<char>, sep: Seq<char>)
    ensures
        text::joined(seq![], sep).len() == 0,
        text::joined(seq![last], sep) == last,
        parts.len() > 0 ==> text::joined(parts.push(last), sep) == text::joined(parts, sep) + sep
            + last,
{
    assert(parts.push(last).drop_last() =~= parts);
}

/// Above the tree stands where the view is zoomed to and what it is filtered
/// by, each only where there is something to tell; a filter by status is
/// named by the status's label.
pub proof fn the_header_tells_zoom_and_filter(
    path: Option<Seq<char>>,
    filter: Filter,
    statuses: Seq<StatusV>,
    k: int,
)
    requires
        ids_differ(statuses),
        filter matches Filter::Status(id) ==> 0 <= k < statuses.len() && statuses[k].id == id,
    ensures
        ({
            let name = match filter {
                Filter::All => "all"@,
                Filter::Open => "open"@,
                Filter::Overdue => "overdue"@,
                Filter::Status(_) => statuses[k].label,
            };
            let line = render::header_text(path, filter, statuses);
            &&& query_view::filter_text(filter, statuses) == name
            &&& filter == Filter::All ==> line == path
            &&& filter != Filter::All && path is None ==> line == Some("filter: "@ + name)
            &&& filter != Filter::All && path is Some ==> line == Some(
                path->Some_0 + " | filter: "@ + name,
            )
        }),
{
    if let Filter::Status(id) = filter {
        finding::lemma_position_known(statuses, id, k);
    }
    reveal_strlit(" | ");
    reveal_strlit("filter: ");
    reveal_strlit(" | filter: ");
    if path is Some && filter != Filter::All {
        let name = query_view::filter_text(filter, statuses);
        assert(path->Some_0 + " | "@ + ("filter: "@ + name) =~= path->Some_0 + " | filter: "@
            + name);
    }
}

proof fn lemma_first_hit(lines: Seq<Seq<char>>, needle: Seq<char>, k: int, start: int)
    requires
        0 <= k < lines.len(),
        finding::mentions_at(lines[k], needle, start),
        forall|j: int| 0 <= j < k ==> !finding::mentions(#[trigger] lines[j], needle),
        forall|i: int| 0 <= i < start ==> !finding::mentions_at(lines[k], needle, i),
    ensures
        query_view::first_hit(lines, text::ascii_lower(needle)) == Some((lines[k], start)),
    decreases k,
{
    let low = text::ascii_lower(needle);
    let first = text::ascii_lower(lines[0]);
    text::lemma_first_at(first, low);
    if k == 0 {
        finding::lemma_mentions_at(lines[0], needle, start);
        assert(text::contains_text(first, low));
        let at = text::first_at(first, low)->Some_0;
        finding::lemma_mentions_at(lines[0], needle, at);
    } else {
        finding::lemma_mentions(lines[0], needle);
        let rest = lines.drop_first();
        assert(rest[k - 1] == lines[k]);
        assert forall|j: int| 0 <= j < k - 1 implies !finding::mentions(
            #[trigger] rest[j],
            needle,
        ) by {
            assert(rest[j] == lines[j + 1]);
        }
        lemma_first_hit(rest, needle, k - 1, start);
    }
}

/// What is left of a text cut at its start: an ellipsis and an end of it, or
/// nothing.
pub open spec fn is_cut_start(whole: Seq<char>, cut: Seq<char>) -> bool {
    cut.len() > 0 ==> {
        &&& cut[0] == '…'
        &&& cut.len() <= whole.len() + 1
        &&& cut.drop_first() == whole.skip(whole.len() - (cut.len() - 1))
    }
}

/// What is left of a text cut at its end: a start of it and an ellipsis, or
/// nothing.
pub open spec fn is_cut_end(whole: Seq<char>, cut: Seq<char>) -> bool {
    cut.len() > 0 ==> {
        &&& cut.last() == '…'
        &&& cut.len() <= whole.len() + 1
        &&& cut.drop_last() == whole.take(cut.len() - 1)
    }
}

proof fn lemma_cut_start(whole: Seq<char>, cut: Seq<char>, budget: nat)
    requires
        is_cut_start(whole, cut),
    ensures
        is_cut_start(whole, width::trimmed_start(cut, budget)),
    decreases cut.len(),
{
    if cut.len() > 1 && width::text_columns(cut) > budget {
        let less = cut.remove(1);
        assert(less.drop_first() =~= cut.drop_first().drop_first());
        assert(less.drop_first() =~= whole.skip(whole.len() - (less.len() - 1)));
        lemma_cut_start(whole, less, budget);
    }
}

proof fn lemma_cut_end(whole: Seq<char>, cut: Seq<char>, budget: nat)
    requires
        is_cut_end(whole, cut),
    ensures
        is_cut_end(whole, width::trimmed_end(cut, budget)),
    decreases cut.len(),
{
    if cut.len() > 1 && width::text_columns(cut) > budget {
        let less = cut.remove(cut.len() - 2);
        assert(less.drop_last() =~= cut.drop_last().drop_last());
        assert(less.drop_last() =~= whole.take(less.len() - 1));
        lemma_cut_end(whole, less, budget);
    }
}

/// A hit in a note is shown in the first line that holds it, at its first
/// place there, as the note spells it. What stands before and behind it is
/// shown too: whole where the line fits, cut on the far side otherwise.
pub proof fn a_hit_is_shown_in_its_line(
    whole: Seq<char>,
    needle: Seq<char>,
    max_width: nat,
    k: int,
    start: int,
)
    requires
        needle.len() > 0,
        0 <= k < text::lines_of(whole).len(),
        finding::mentions_at(text::lines_of(whole)[k], needle, start),
        forall|j: int|
            0 <= j < k ==> !finding::mentions(#[trigger] text::lines_of(whole)[j], needle),
        forall|i: int|
            0 <= i < start ==> !finding::mentions_at(text::lines_of(whole)[k], needle, i),
    ensures
        ({
            let line = text::lines_of(whole)[k];
            let before = line.take(start);
            let hit = line.subrange(start, start + needle.len());
            let after = line.skip(start + needle.len());
            &&& query_view::snippet(whole, needle, max_width) matches Some(s) && {
                &&& s.matched == hit
                &&& s.before == before || is_cut_start(before, s.before)
                &&& s.after == after || is_cut_end(after, s.after)
                &&& width::text_columns(before) + width::text_columns(hit) + width::text_columns(
                    after,
                ) <= max_width ==> s.before == before && s.after == after
            }
        }),
{
    let lines = text::lines_of(whole);
    lemma_first_hit(lines, needle, k, start);
    let line = lines[k];
    let before = line.take(start);
    let hit = line.subrange(start, start + needle.len());
    let after = line.skip(start + needle.len());
    let own = width::text_columns(hit) as nat;
    let remaining = if max_width >= own {
        (max_width - own) as nat
    } else {
        0
    };
    let (b, a) = query_view::budgets(
        remaining,
        width::text_columns(before) as nat,
        width::text_columns(after) as nat,
    );
    lemma_tail_of(before, b);
    lemma_head_of(after, a);
}

/// A table column is as wide as its widest cell or its heading.
pub proof fn a_column_holds_its_widest_cell(widths: Seq<usize>, least: usize)
    ensures
        width::widest(widths, least) >= least,
        forall|i: int| 0 <= i < widths.len() ==> widths[i] <= width::widest(widths, least),
        width::widest(widths, least) == least || widths.contains(width::widest(widths, least)),
    decreases widths.len(),
{
    if widths.len() > 0 {
        let rest = widths.drop_last();
        a_column_holds_its_widest_cell(rest, least);
        let w = width::widest(rest, least);
        assert forall|i: int| 0 <= i < widths.len() implies widths[i] <= width::widest(
            widths,
            least,
        ) by {
            if i < rest.len() {
                assert(rest[i] == widths[i]);
            }
        }
        if rest.contains(w) {
            let i = choose|i: int| 0 <= i < rest.len() && rest[i] == w;
            assert(widths[i] == w);
        }
        assert(widths.contains(widths.last()));
    }
}

/// The table of statuses has a line for every status below its heading. Each
/// line starts its cells with the label, the kind, the color and the key of
/// its status, the label in the status's color. Exactly the selected cell is
/// turned over, and a star marks exactly the default.
pub proof fn the_table_shows_each_status(
    statuses: Seq<StatusV>,
    selected: int,
    col: Column,
    row: int,
)
    requires
        0 <= row < statuses.len(),
    ensures
        ({
            let lines = render::table(statuses, selected, col);
            let line = lines[row + 1];
            let s = statuses[row];
            &&& lines.len() == statuses.len() + 1
            &&& line.len() == 9
            &&& begins(line[0].content, s.label)
            &&& begins(line[2].content, s.kind.text())
            &&& begins(line[4].content, s.color)
            &&& begins(line[6].content, seq![s.key])
            &&& line[8].content == if s.is_default {
                seq!['*']
            } else {
                seq![]
            }
            &&& line[0].style.fg == Some(color::color_of(s.color))
            &&& line[0].style.reversed <==> row == selected && col == Column::Label
            &&& line[2].style.reversed <==> row == selected && col == Column::Kind
            &&& line[4].style.reversed <==> row == selected && col == Column::Color
            &&& line[6].style.reversed <==> row == selected && col == Column::Key
        }),
{
    reveal_strlit("*");
    reveal_strlit("");
    let line = render::table_row(statuses, row, selected, col);
    assert(render::table(statuses, selected, col)[row + 1] == line);
    assert("*"@ =~= seq!['*']);
    assert(""@ =~= seq![]);
}

/// The text starts with these words, and nothing but blanks follows them.
pub open spec fn begins(whole: Seq<char>, words: Seq<char>) -> bool {
    &&& words.len() <= whole.len()
    &&& forall|i: int| 0 <= i < words.len() ==> whole[i] == words[i]
    &&& forall|i: int| words.len() <= i < whole.len() ==> whole[i] == ' '
}

/// A hexadecimal digit, in either case, and its value.
pub open spec fn is_digit(c: char, d: int) -> bool {
    ||| 0 <= d < 10 && c as int == '0' as int + d
    ||| 10 <= d < 16 && c as int == 'a' as int + (d - 10)
    ||| 10 <= d < 16 && c as int == 'A' as int + (d - 10)
}

/// `#` and six hexadecimal digits stand for the color whose red, green and
/// blue are the values of the three pairs. Anything else that starts with
/// `#` leaves the terminal's own color.
pub proof fn six_digits_give_a_color(name: Seq<char>, d: Seq<int>)
    requires
        name.len() > 0,
        name[0] == '#',
    ensures
        name.len() == 7 && d.len() == 6 && (forall|i: int|
            0 <= i < 6 ==> is_digit(name[i + 1], #[trigger] d[i])) ==> {
            &&& color::color_of(name) matches Color::Rgb(r, g, b)
            &&& r == 16 * d[0] + d[1]
            &&& g == 16 * d[2] + d[3]
            &&& b == 16 * d[4] + d[5]
        },
        name.len() != 7 ==> color::color_of(name) == Color::Reset,
        forall|i: int|
            1 <= i < name.len() && (forall|v: int| !is_digit(#[trigger] name[i], v))
                ==> color::color_of(name) == Color::Reset,
{
    let hex = name.skip(1);
    if name.len() == 7 {
        assert forall|i: int| 0 <= i < 6 implies #[trigger] hex[i] == name[i + 1] by {}
        if d.len() == 6 && forall|i: int| 0 <= i < 6 ==> is_digit(name[i + 1], #[trigger] d[i]) {
            assert forall|i: int| 0 <= i < 6 implies color::hex_digit(#[trigger] hex[i]) == Some(
                d[i] as u8,
            ) && 0 <= d[i] < 16 by {
                assert(is_digit(name[i + 1], d[i]));
            }
            assert(color::hex_digit(hex[0]) is Some && color::hex_digit(hex[1]) is Some);
            assert(color::hex_digit(hex[2]) is Some && color::hex_digit(hex[3]) is Some);
            assert(color::hex_digit(hex[4]) is Some && color::hex_digit(hex[5]) is Some);
        }
        assert forall|i: int|
            1 <= i < name.len() && (forall|v: int| !is_digit(
                #[trigger] name[i],
                v,
            )) implies color::color_of(name) == Color::Reset by {
            let c = name[i];
            assert(hex[i - 1] == c);
            if color::hex_digit(c) is Some {
                assert(is_digit(c, color::hex_digit(c)->Some_0 as int));
            }
        }
    }
}

proof fn lemma_tail_of(side: Seq<char>, budget: nat)
    ensures
        width::text_columns(side) <= budget ==> query_view::tail_of(side, budget) == side,
        query_view::tail_of(side, budget) == side || is_cut_start(
            side,
            query_view::tail_of(side, budget),
        ),
{
    let own = width::text_columns(side) as nat;
    let widths = width::columns_of(side.reverse());
    let cut = query_view::tail_by(side, own, widths, budget);
    if own > budget {
        if budget > 0 {
            width::lemma_fit_exists(widths, (budget - 1) as nat);
        }
        if budget > 0 {
            let n: int = width::fit(widths, (budget - 1) as nat);
            assert(cut.drop_first() =~= side.skip(side.len() - n));
        }
        assert(is_cut_start(side, cut));
        lemma_cut_start(side, cut, budget);
    }
}

proof fn lemma_head_of(side: Seq<char>, budget: nat)
    ensures
        width::text_columns(side) <= budget ==> query_view::head_of(side, budget) == side,
        query_view::head_of(side, budget) == side || is_cut_end(
            side,
            query_view::head_of(side, budget),
        ),
{
    let own = width::text_columns(side) as nat;
    let widths = width::columns_of(side);
    let cut = query_view::head_by(side, own, widths, budget);
    if own > budget {
        if budget > 0 {
            width::lemma_fit_exists(widths, (budget - 1) as nat);
        }
        if budget > 0 {
            let n: int = width::fit(widths, (budget - 1) as nat);
            assert(cut.drop_last() =~= side.take(n));
        }
        assert(is_cut_end(side, cut));
        lemma_cut_end(side, cut, budget);
    }
}

/// A result of a search shows its task as the tree does, without an indent,
/// and behind it, dimmed, the path of its parent. A second line shows a hit
/// in the note, and is there only where there is one.
pub proof fn a_result_tells_where_its_task_stands(
    t: TaskV,
    statuses: Seq<StatusV>,
    all: Seq<TaskV>,
    search: Seq<char>,
    today: Seq<char>,
)
    ensures
        ({
            let lines = query_view::result_lines(t, statuses, all, search, today);
            let row = render::task_spans(seq![], t, statuses, today);
            &&& lines[0].len() == row.len() + if t.parent_id is Some {
                1int
            } else {
                0
            }
            &&& forall|i: int| 0 <= i < row.len() ==> lines[0][i] == row[i]
            &&& t.parent_id matches Some(p) ==> lines[0].last().content == "  "@
                + tree::path_text(all, p) && lines[0].last().style.dim
            &&& search.len() == 0 ==> lines.len() == 1
            &&& search.len() > 0 ==> (lines.len() == 2 <==> exists|k: int|
                0 <= k < text::lines_of(t.note).len() && finding::mentions(
                    #[trigger] text::lines_of(t.note)[k],
                    search,
                ))
            &&& lines.len() == 2 || lines.len() == 1
            &&& lines.len() == 2 ==> {
                let hit = query_view::snippet(t.note, search, query_view::SNIPPET_WIDTH as nat);
                &&& hit matches Some(s)
                &&& lines[1].len() == 4
                &&& lines[1][1].content == s.before && lines[1][1].style.dim
                &&& lines[1][2].content == s.matched && !lines[1][2].style.dim
                &&& lines[1][3].content == s.after && lines[1][3].style.dim
            }
        }),
{
    if search.len() > 0 {
        let max = query_view::SNIPPET_WIDTH as nat;
        let ls = text::lines_of(t.note);
        query_view::a_snippet_shows_the_searched_text(t.note, search, max);
        assert forall|k: int| 0 <= k < ls.len() implies (text::contains_text(
            text::ascii_lower(#[trigger] ls[k]),
            text::ascii_lower(search),
        ) <==> finding::mentions(ls[k], search)) by {
            finding::lemma_mentions(ls[k], search);
        }
    }
}

/// The footer shows a key sequence key by key: a character as it is, and a
/// chord with its modifier in front. A hint is the sequence and the label.
pub proof fn a_hint_shows_keys_and_label(a: Seq<Key>, b: Seq<Key>, c: char, label: Seq<char>)
    ensures
        footer::seq_hint(seq![]).len() == 0,
        footer::seq_hint(a + b) == footer::seq_hint(a) + footer::seq_hint(b),
        footer::seq_hint(seq![Key::Char(c)]) == seq![c],
        footer::seq_hint(seq![Key::Ctrl(c)]) == "Ctrl-"@ + seq![c],
        footer::seq_hint(seq![Key::Alt(c)]) == "Alt-"@ + seq![c],
        footer::hint(a, label) == footer::seq_hint(a) + seq![' '] + label,
    decreases b.len(),
{
    reveal_strlit(" ");
    assert(" "@ =~= seq![' ']);
    assert(seq![Key::Char(c)].drop_last() =~= seq![]);
    assert(seq![Key::Ctrl(c)].drop_last() =~= seq![]);
    assert(seq![Key::Alt(c)].drop_last() =~= seq![]);
    assert(footer::seq_hint(seq![]) + seq![c] =~= seq![c]);
    assert(footer::seq_hint(seq![Key::Char(c)]) =~= seq![c]);
    assert("Ctrl-"@.push(c) =~= "Ctrl-"@ + seq![c]);
    assert("Alt-"@.push(c) =~= "Alt-"@ + seq![c]);
    assert(footer::seq_hint(seq![Key::Ctrl(c)]) =~= "Ctrl-"@ + seq![c]);
    assert(footer::seq_hint(seq![Key::Alt(c)]) =~= "Alt-"@ + seq![c]);
    if b.len() == 0 {
        assert(a + b =~= a);
        assert(footer::seq_hint(a) + footer::seq_hint(b) =~= footer::seq_hint(a));
    } else {
        a_hint_shows_keys_and_label(a, b.drop_last(), c, label);
        assert((a + b).drop_last() =~= a + b.drop_last());
        assert((a + b).last() == b.last());
        assert(footer::seq_hint(a + b) =~= footer::seq_hint(a) + footer::seq_hint(b));
    }
}

/// Every bound command is hinted at with the first of its sequences, and an
/// unbound one is passed over.
pub proof fn a_command_is_hinted_at_with_its_first_sequence(
    c: CommandV,
    rest: Seq<CommandV>,
    bs: Seq<BindingV>,
    context: Context,
)
    ensures
        ({
            let seqs = keymap::bound(bs, context, c.id);
            let more = footer::hints(rest, bs, context);
            footer::hints(seq![c] + rest, bs, context) == if seqs.len() == 0 {
                more
            } else {
                seq![footer::hint(seqs[0], c.label)] + more
            }
        }),
        footer::hints(seq![], bs, context).len() == 0,
{
    assert((seq![c] + rest).drop_first() =~= rest);
    assert((seq![c] + rest)[0] == c);
}

/// A line takes a hint where both, and two blanks between them, fit in the
/// width, and not otherwise.
pub proof fn a_line_takes_what_fits(line: Seq<char>, entry: Seq<char>, width: nat)
    requires
        line.len() > 0,
    ensures
        footer::takes(line, entry, width) <==> width::text_columns(line) + width::text_columns(
            "  "@,
        ) + width::text_columns(entry) <= width && width::text_columns(line + "  "@ + entry)
            <= width,
{
}

/// A text that fits stays as it is; one that does not is cut at its end,
/// which an ellipsis marks.
pub proof fn a_text_too_wide_ends_in_an_ellipsis(whole: Seq<char>, max_width: nat)
    ensures
        width::text_columns(whole) <= max_width ==> overlay::truncated(whole, max_width) == whole,
        width::text_columns(whole) > max_width ==> is_cut_end(
            whole,
            overlay::truncated(whole, max_width),
        ),
{
    let own = width::text_columns(whole) as nat;
    let widths = width::columns_of(whole);
    let ellipsis = overlay::ellipsis_columns() as nat;
    let cut = overlay::truncated_by(whole, own, widths, ellipsis, max_width);
    if own > max_width {
        if max_width > 0 {
            let budget = if max_width >= ellipsis {
                (max_width - ellipsis) as nat
            } else {
                0
            };
            width::lemma_fit_exists(widths, budget);
            let n: int = width::fit(widths, budget);
            assert(cut.drop_last() =~= whole.take(n));
        }
        lemma_cut_end(whole, cut, max_width);
    }
}

/// The view scrolls only as far as it takes to show the selection: it shows
/// the start, or the selection is on its last line.
pub proof fn scrolling_goes_no_further_than_the_selection(selected: nat, height: nat)
    requires
        height > 0,
    ensures
        ({
            let first = overlay::scroll_for(selected, height);
            &&& first <= selected < first + height
            &&& first == 0 || selected == first + height - 1
        }),
{
}

/// A popup takes its share of the screen, rounded down, where that leaves
/// the margins; it keeps the margins where they fit, has at least one cell,
/// and is never larger than the screen.
pub proof fn a_popup_takes_its_share(available: int, pct: int, margin: int)
    requires
        0 <= available,
        0 <= pct,
        0 <= margin,
    ensures
        ({
            let n = overlay::popup_length(available, pct, margin);
            &&& 0 <= n <= available
            &&& available > 0 ==> n >= 1
            &&& available > 2 * margin ==> n + 2 * margin <= available
            &&& 100 <= available * pct <= 100 * (available - 2 * margin) ==> 100 * n <= available
                * pct < 100 * (n + 1)
        }),
{
    let share = available * pct;
    assert(share >= 0) by (nonlinear_arith)
        requires
            share == available * pct,
            available >= 0,
            pct >= 0,
    ;
}

/// The value of a text of decimal digits.
pub open spec fn value_of(s: Seq<char>) -> int
    decreases s.len(),
{
    if s.len() == 0 {
        0
    } else {
        10 * value_of(s.drop_last()) + (s.last() as int - '0' as int)
    }
}

/// A number is written with decimal digits that have its value, without a
/// leading zero, and with a minus sign in front where it is negative.
pub proof fn a_number_is_written_in_digits(n: nat)
    ensures
        ({
            let s = text::decimal(n as int);
            &&& s.len() > 0
            &&& forall|i: int| 0 <= i < s.len() ==> '0' <= #[trigger] s[i] && s[i] <= '9'
            &&& value_of(s) == n
            &&& s.len() > 1 ==> s[0] != '0'
            &&& n > 0 ==> s[0] != '0' && text::decimal(-n) == seq!['-'] + s
        }),
    decreases n,
{
    let s = text::digits(n);
    if n < 10 {
        assert((n + 48) as char as int == n + 48);
        assert(s.drop_last() =~= seq![]);
        assert(s.last() as int == n + 48);
        assert(value_of(s.drop_last()) == 0);
    } else {
        a_number_is_written_in_digits(n / 10);
        let front = text::digits(n / 10);
        let d: nat = n % 10;
        assert((d + 48) as char as int == d + 48);
        assert(s.drop_last() =~= front);
        assert(s.last() as int == d + 48);
        assert(s[0] == front[0]);
        assert forall|i: int| 0 <= i < s.len() implies '0' <= #[trigger] s[i] && s[i] <= '9' by {
            if i < front.len() {
                assert(s[i] == front[i]);
            }
        }
    }
}

/// A task whose status is not listed shows the status's number, dark, and is
/// never shown as overdue.
pub proof fn an_unlisted_status_shows_its_number(
    prefix: Seq<char>,
    t: TaskV,
    statuses: Seq<StatusV>,
    today: Seq<char>,
)
    requires
        forall|k: int| 0 <= k < statuses.len() ==> (#[trigger] statuses[k]).id != t.status_id,
    ensures
        ({
            let line = render::task_spans(prefix, t, statuses, today);
            &&& line[1].content == t.title
            &&& line[2].content == " ["@ + text::decimal(t.status_id as int) + "]"@
            &&& line[2].style.fg == Some(Color::DarkGray)
            &&& t.due is Some ==> line[3].content == " "@ + t.due->Some_0 && line[3].style.fg is None
        }),
{
    finding::lemma_position_unknown(statuses, t.status_id);
}

/// The title of the search tells its text, its sort order and the filter.
pub proof fn the_search_title_tells_text_sort_and_filter(
    search: Seq<char>,
    sort: Sort,
    filter: Filter,
    statuses: Seq<StatusV>,
)
    ensures
        ({
            let name = match sort {
                Sort::TreeOrder => "tree order"@,
                Sort::Due => "due"@,
                Sort::Updated => "updated"@,
                Sort::Created => "created"@,
                Sort::Title => "title"@,
            };
            query_view::header_line(search, sort, filter, statuses) == "search: "@ + search
                + " | sort: "@ + name + " | filter: "@ + query_view::filter_text(filter, statuses)
        }),
{
}

/// The cells of a column line up: with its blanks, each takes as many
/// columns as any other, and none is cut.
pub proof fn the_cells_of_a_column_line_up(
    statuses: Seq<StatusV>,
    selected: int,
    col: Column,
    j: int,
    k: int,
)
    requires
        0 <= j < statuses.len(),
        0 <= k < statuses.len(),
    ensures
        ({
            let lines = render::table(statuses, selected, col);
            let taken = |row: int, cell: int, own: Seq<char>|
                lines[row + 1][cell].content.len() - own.len() + width::text_columns(own);
            &&& taken(j, 0, statuses[j].label) == taken(k, 0, statuses[k].label)
            &&& taken(j, 2, statuses[j].kind.text()) == taken(k, 2, statuses[k].kind.text())
            &&& taken(j, 4, statuses[j].color) == taken(k, 4, statuses[k].color)
            &&& taken(j, 0, statuses[j].label) >= width::text_columns(statuses[j].label)
            &&& taken(j, 2, statuses[j].kind.text()) >= width::text_columns(statuses[j].kind.text())
            &&& taken(j, 4, statuses[j].color) >= width::text_columns(statuses[j].color)
        }),
{
    let lines = render::table(statuses, selected, col);
    assert(lines[j + 1] == render::table_row(statuses, j, selected, col));
    assert(lines[k + 1] == render::table_row(statuses, k, selected, col));
    lemma_cell_fits(statuses, Column::Label, j);
    lemma_cell_fits(statuses, Column::Label, k);
    lemma_cell_fits(statuses, Column::Kind, j);
    lemma_cell_fits(statuses, Column::Kind, k);
    lemma_cell_fits(statuses, Column::Color, j);
    lemma_cell_fits(statuses, Column::Color, k);
}

proof fn lemma_cell_fits(statuses: Seq<StatusV>, col: Column, j: int)
    requires
        0 <= j < statuses.len(),
        col != Column::Key,
    ensures
        width::text_columns(render::cell(statuses[j], col)) <= render::table_width(statuses, col),
{
    let widths = render::cell_widths(statuses, col);
    let own = width::text_columns(render::heading(col));
    a_column_holds_its_widest_cell(widths, own);
    assert(widths[j] == width::text_columns(render::cell(statuses[j], col)));
}

} // verus!
