//! The one-line key hints at the bottom of the screen.
use vstd::prelude::*;

use crate::command;
use crate::command::{Command, CommandV, Context};
use crate::key::{Key, KeySeq};
use crate::keymap;
use crate::keymap::{BindingV, Keymap};
use crate::text;
use crate::width;

verus! {

/// How the footer shows a key.
pub open spec fn key_hint(key: Key) -> Seq<char> {
    match key {
        Key::Char(c) => seq![c],
        Key::Alt(c) => "Alt-"@.push(c),
        Key::Ctrl(c) => "Ctrl-"@.push(c),
        Key::Enter => "Enter"@,
        Key::Esc => "Esc"@,
        Key::Backspace => "BS"@,
        Key::Tab => "Tab"@,
        Key::Left => "←"@,
        Key::Right => "→"@,
        Key::Up => "↑"@,
        Key::Down => "↓"@,
    }
}

/// How the footer shows a key sequence.
pub open spec fn seq_hint(keys: Seq<Key>) -> Seq<char>
    decreases keys.len(),
{
    if keys.len() == 0 {
        seq![]
    } else {
        seq_hint(keys.drop_last()) + key_hint(keys.last())
    }
}

/// Puts a command behind those of the same or a higher priority.
pub open spec fn by_priority(sorted: Seq<CommandV>, c: CommandV) -> Seq<CommandV>
    decreases sorted.len(),
{
    if sorted.len() > 0 && sorted.last().hint_priority < c.hint_priority {
        by_priority(sorted.drop_last(), c).push(sorted.last())
    } else {
        sorted.push(c)
    }
}

/// The commands of a context that are hinted at, by descending priority;
/// equal priorities keep the table's order.
pub open spec fn hinted(commands: Seq<CommandV>, context: Context) -> Seq<CommandV>
    decreases commands.len(),
{
    if commands.len() == 0 {
        seq![]
    } else {
        let front = hinted(commands.drop_last(), context);
        let c = commands.last();
        if c.context == context && c.hint_priority > 0 {
            by_priority(front, c)
        } else {
            front
        }
    }
}

/// The hint for a command bound to a key sequence.
pub open spec fn hint(keys: Seq<Key>, label: Seq<char>) -> Seq<char> {
    seq_hint(keys) + " "@ + label
}

/// Whether an entry still fits behind a line.
pub open spec fn fits_behind(line: nat, separator: nat, entry: nat, width: nat) -> bool {
    line + separator + entry <= width
}

/// What stands between a line and the next entry.
pub open spec fn separator(line: Seq<char>) -> Seq<char> {
    if line.len() == 0 {
        ""@
    } else {
        "  "@
    }
}

/// Whether a line takes one more entry: both and the separator fit, and so
/// does what they make together.
pub open spec fn takes(line: Seq<char>, entry: Seq<char>, width: nat) -> bool {
    fits_behind(
        width::text_columns(line) as nat,
        width::text_columns(separator(line)) as nat,
        width::text_columns(entry) as nat,
        width,
    ) && width::text_columns(line + separator(line) + entry) <= width
}

/// The line extended by the commands that fit. Unbound commands are passed
/// over; the first entry that overflows ends the line, so higher-priority
/// hints are never displaced by lower-priority ones that happen to fit.
pub open spec fn extended(
    line: Seq<char>,
    commands: Seq<CommandV>,
    bs: Seq<BindingV>,
    context: Context,
    width: nat,
) -> Seq<char>
    decreases commands.len(),
{
    if commands.len() == 0 {
        line
    } else {
        let bound = keymap::bound(bs, context, commands[0].id);
        if bound.len() == 0 {
            extended(line, commands.drop_first(), bs, context, width)
        } else {
            let entry = hint(bound[0], commands[0].label);
            if takes(line, entry, width) {
                extended(line + separator(line) + entry, commands.drop_first(), bs, context, width)
            } else {
                line
            }
        }
    }
}

pub open spec fn footer_text(
    commands: Seq<CommandV>,
    bs: Seq<BindingV>,
    context: Context,
    width: nat,
) -> Seq<char> {
    extended(seq![], hinted(commands, context), bs, context, width)
}

/// Whether an entry still fits behind a line, all given by their widths.
pub fn fits(line: usize, separator: usize, entry: usize, width: usize) -> (r: bool)
    ensures
        r == fits_behind(line as nat, separator as nat, entry as nat, width as nat),
{
    line as u128 + separator as u128 + entry as u128 <= width as u128
}

fn format_key(key: Key) -> (r: String)
    ensures
        r@ == key_hint(key),
{
    match key {
        Key::Char(c) => {
            let mut r = String::new();
            r.push(c);
            assert(r@ =~= seq![c]);
            r
        },
        Key::Alt(c) => {
            let mut r = "Alt-".to_owned();
            r.push(c);
            r
        },
        Key::Ctrl(c) => {
            let mut r = "Ctrl-".to_owned();
            r.push(c);
            r
        },
        Key::Enter => "Enter".to_owned(),
        Key::Esc => "Esc".to_owned(),
        Key::Backspace => "BS".to_owned(),
        Key::Tab => "Tab".to_owned(),
        Key::Left => "←".to_owned(),
        Key::Right => "→".to_owned(),
        Key::Up => "↑".to_owned(),
        Key::Down => "↓".to_owned(),
    }
}

fn format_seq(seq: &KeySeq) -> (r: String)
    ensures
        r@ == seq_hint(seq@),
{
    let keys = seq.as_slice();
    let mut r = String::new();
    let mut i: usize = 0;
    assert(keys@.take(0) =~= seq![]);
    assert(r@ =~= seq![]);
    while i < keys.len()
        invariant
            i <= keys.len(),
            r@ == seq_hint(keys@.take(i as int)),
        decreases keys.len() - i,
    {
        assert(keys@.take(i + 1).drop_last() =~= keys@.take(i as int));
        r.append(format_key(keys[i]).as_str());
        i = i + 1;
    }
    assert(keys@.take(i as int) =~= keys@);
    r
}

/// The commands of a context that are hinted at, by descending priority.
fn hinted_commands(commands: &Vec<Command>, context: Context) -> (r: Vec<Command>)
    ensures
        command::commands_view(r@) == hinted(command::commands_view(commands@), context),
{
    let ghost all = command::commands_view(commands@);
    let mut r: Vec<Command> = Vec::new();
    let mut i: usize = 0;
    assert(all.take(0) =~= seq![]);
    assert(command::commands_view(r@) =~= seq![]);
    while i < commands.len()
        invariant
            i <= commands.len(),
            all == command::commands_view(commands@),
            command::commands_view(r@) == hinted(all.take(i as int), context),
        decreases commands.len() - i,
    {
        assert(all.take(i + 1).drop_last() =~= all.take(i as int));
        assert(all.take(i + 1).last() == commands@[i as int]@);
        let c = commands[i];
        if c.context == context && c.hint_priority > 0 {
            let ghost sorted = command::commands_view(r@);
            let mut k: usize = r.len();
            assert(sorted.skip(k as int) =~= seq![]);
            assert(by_priority(sorted.take(k as int), c@) + sorted.skip(k as int) =~= by_priority(
                sorted,
                c@,
            )) by {
                assert(sorted.take(k as int) =~= sorted);
            }
            while k > 0 && r[k - 1].hint_priority < c.hint_priority
                invariant
                    k <= r.len(),
                    sorted == command::commands_view(r@),
                    by_priority(sorted.take(k as int), c@) + sorted.skip(k as int) == by_priority(
                        sorted,
                        c@,
                    ),
                decreases k,
            {
                proof {
                    let front = sorted.take(k as int);
                    assert(front.last() == r@[k - 1]@);
                    assert(front.drop_last() =~= sorted.take(k - 1));
                    assert(by_priority(sorted.take(k - 1), c@) + sorted.skip(k - 1) =~= by_priority(
                        sorted.take(k - 1),
                        c@,
                    ).push(front.last()) + sorted.skip(k as int));
                }
                k = k - 1;
            }
            proof {
                let front = sorted.take(k as int);
                if k > 0 {
                    assert(front.last() == r@[k - 1]@);
                }
                assert(by_priority(front, c@) == front.push(c@));
            }
            r.insert(k, c);
            assert(command::commands_view(r@) =~= sorted.insert(k as int, c@));
            assert(sorted.insert(k as int, c@) =~= sorted.take(k as int).push(c@) + sorted.skip(
                k as int,
            ));
        }
        i = i + 1;
    }
    assert(all.take(i as int) =~= all);
    r
}

/// Builds the one-line key hint for `context`: bound commands ordered by
/// descending hint priority, taking as many as fit within `width` display
/// columns. Commands with priority 0 are never shown.
pub fn footer_line(
    commands: &Vec<Command>,
    keymap: &Keymap,
    context: Context,
    width: usize,
) -> (r: String)
    ensures
        r@ == footer_text(command::commands_view(commands@), keymap@, context, width as nat),
        width::text_columns(r@) <= width,
{
    let list = hinted_commands(commands, context);
    let ghost all = command::commands_view(list@);
    let ghost whole = extended(seq![], all, keymap@, context, width as nat);
    let mut line = String::new();
    let mut used: usize = width::text_width(line.as_str());
    let mut i: usize = 0;
    assert(line@ =~= seq![]);
    assert(all.skip(0) =~= all);
    while i < list.len()
        invariant
            i <= list.len(),
            all == command::commands_view(list@),
            whole == footer_text(
                command::commands_view(commands@),
                keymap@,
                context,
                width as nat,
            ),
            extended(line@, all.skip(i as int), keymap@, context, width as nat) == whole,
            used == width::text_columns(line@),
            used <= width,
        decreases list.len() - i,
    {
        let ghost rest = all.skip(i as int);
        assert(rest[0] == list@[i as int]@);
        assert(rest.drop_first() =~= all.skip(i + 1));
        if let Some(seq) = keymap.binding_for(context, list[i].id) {
            let mut entry = format_seq(seq);
            entry.append(" ");
            entry.append(list[i].label);
            let between = if crate::text::chars_of(line.as_str()).len() == 0 {
                ""
            } else {
                "  "
            };
            let longer = text::concat3(line.as_str(), between, entry.as_str());
            let wide: usize = width::text_width(longer.as_str());
            if wide > width || !fits(
                used,
                width::text_width(between),
                width::text_width(entry.as_str()),
                width,
            ) {
                return line;
            }
            line = longer;
            used = wide;
        }
        i = i + 1;
    }
    line
}

/// The hints of the bound commands, one each.
pub open spec fn hints(commands: Seq<CommandV>, bs: Seq<BindingV>, context: Context) -> Seq<
    Seq<char>,
>
    decreases commands.len(),
{
    if commands.len() == 0 {
        seq![]
    } else {
        let bound = keymap::bound(bs, context, commands[0].id);
        let rest = hints(commands.drop_first(), bs, context);
        if bound.len() == 0 {
            rest
        } else {
            seq![hint(bound[0], commands[0].label)] + rest
        }
    }
}

/// How a line goes on: it takes the next hints as long as they fit.
proof fn lemma_extended(
    shown: Seq<Seq<char>>,
    commands: Seq<CommandV>,
    bs: Seq<BindingV>,
    context: Context,
    width: nat,
) -> (n: int)
    requires
        forall|k: int| 0 <= k < shown.len() ==> (#[trigger] shown[k]).len() > 0,
    ensures
        ({
            let hs = hints(commands, bs, context);
            let line = |k: int| text::joined(shown + hs.take(k), "  "@);
            &&& 0 <= n <= hs.len()
            &&& extended(text::joined(shown, "  "@), commands, bs, context, width) == line(n)
            &&& forall|k: int| 0 <= k < n ==> takes(line(k), #[trigger] hs[k], width)
            &&& n < hs.len() ==> !takes(line(n), hs[n], width)
        }),
    decreases commands.len(),
{
    let hs = hints(commands, bs, context);
    let here = text::joined(shown, "  "@);
    assert(shown + hs.take(0) =~= shown);
    if commands.len() == 0 {
        0
    } else {
        let bound = keymap::bound(bs, context, commands[0].id);
        let rest = hints(commands.drop_first(), bs, context);
        if bound.len() == 0 {
            lemma_extended(shown, commands.drop_first(), bs, context, width)
        } else {
            let entry = hint(bound[0], commands[0].label);
            assert(hs[0] == entry);
            if takes(here, entry, width) {
                let next = shown.push(entry);
                reveal_strlit(" ");
                assert(entry.len() > 0);
                lemma_one_more(shown, entry);
                let m = lemma_extended(next, commands.drop_first(), bs, context, width);
                assert forall|k: int| 0 <= k <= rest.len() implies next + #[trigger] rest.take(k)
                    == shown + hs.take(k + 1) by {
                    assert(next + rest.take(k) =~= shown + hs.take(k + 1));
                }
                assert(next + rest.take(m) == shown + hs.take(m + 1));
                assert forall|k: int| 0 <= k < m + 1 implies takes(
                    text::joined(shown + hs.take(k), "  "@),
                    #[trigger] hs[k],
                    width,
                ) by {
                    if k > 0 {
                        assert(hs[k] == rest[k - 1]);
                        assert(next + rest.take(k - 1) == shown + hs.take(k));
                    }
                }
                if m < rest.len() {
                    assert(hs[m + 1] == rest[m]);
                }
                m + 1
            } else {
                0
            }
        }
    }
}

/// One more entry behind those joined.
proof fn lemma_one_more(shown: Seq<Seq<char>>, entry: Seq<char>)
    requires
        forall|k: int| 0 <= k < shown.len() ==> (#[trigger] shown[k]).len() > 0,
    ensures
        text::joined(shown.push(entry), "  "@) == text::joined(shown, "  "@) + separator(
            text::joined(shown, "  "@),
        ) + entry,
{
    let line = text::joined(shown, "  "@);
    assert(shown.push(entry).drop_last() =~= shown);
    reveal_strlit("");
    reveal_strlit("  ");
    if shown.len() == 0 {
        assert(line + separator(line) + entry =~= entry);
    } else {
        assert(shown[shown.len() - 1].len() > 0);
        assert(line.len() > 0);
    }
}

/// The footer joins the hints of the commands in their order, two spaces
/// apart, until the first that does not fit.
pub proof fn the_footer_joins_the_first_hints(
    commands: Seq<CommandV>,
    bs: Seq<BindingV>,
    context: Context,
    width: nat,
) -> (n: int)
    ensures
        ({
            let hs = hints(hinted(commands, context), bs, context);
            let line = |k: int| text::joined(hs.take(k), "  "@);
            &&& 0 <= n <= hs.len()
            &&& footer_text(commands, bs, context, width) == line(n)
            &&& forall|k: int| 0 <= k < n ==> takes(line(k), #[trigger] hs[k], width)
            &&& n < hs.len() ==> !takes(line(n), hs[n], width)
        }),
{
    let hs = hints(hinted(commands, context), bs, context);
    let none = Seq::<Seq<char>>::empty();
    let n = lemma_extended(none, hinted(commands, context), bs, context, width);
    assert forall|k: int| 0 <= k <= hs.len() implies none + #[trigger] hs.take(k) == hs.take(k) by {
        assert(none + hs.take(k) =~= hs.take(k));
    }
    assert(hs.take(n) == none + hs.take(n));
    assert forall|k: int| 0 <= k < n implies takes(
        text::joined(hs.take(k), "  "@),
        #[trigger] hs[k],
        width,
    ) by {
        assert(none + hs.take(k) == hs.take(k));
    }
    n
}

/// A line only grows.
proof fn lemma_grows(
    line: Seq<char>,
    commands: Seq<CommandV>,
    bs: Seq<BindingV>,
    context: Context,
    width: nat,
)
    ensures
        line.is_prefix_of(extended(line, commands, bs, context, width)),
    decreases commands.len(),
{
    if commands.len() > 0 {
        let bound = keymap::bound(bs, context, commands[0].id);
        if bound.len() == 0 {
            lemma_grows(line, commands.drop_first(), bs, context, width);
        } else {
            let longer = line + separator(line) + hint(bound[0], commands[0].label);
            let whole = extended(longer, commands.drop_first(), bs, context, width);
            lemma_grows(longer, commands.drop_first(), bs, context, width);
            assert(line =~= longer.subrange(0, line.len() as int));
            assert(longer.subrange(0, line.len() as int) =~= whole.subrange(0, line.len() as int));
        }
    }
}

proof fn lemma_narrower(
    line: Seq<char>,
    commands: Seq<CommandV>,
    bs: Seq<BindingV>,
    context: Context,
    narrow: nat,
    wide: nat,
)
    requires
        narrow <= wide,
    ensures
        extended(line, commands, bs, context, narrow).is_prefix_of(
            extended(line, commands, bs, context, wide),
        ),
    decreases commands.len(),
{
    if commands.len() > 0 {
        let rest = commands.drop_first();
        let bound = keymap::bound(bs, context, commands[0].id);
        if bound.len() == 0 {
            lemma_narrower(line, rest, bs, context, narrow, wide);
        } else {
            let entry = hint(bound[0], commands[0].label);
            if takes(line, entry, narrow) {
                assert(takes(line, entry, wide));
                lemma_narrower(line + separator(line) + entry, rest, bs, context, narrow, wide);
            } else {
                lemma_grows(line, commands, bs, context, wide);
            }
        }
    } else {
        assert(line =~= line.subrange(0, line.len() as int));
    }
}

/// A narrower footer shows the start of a wider one.
pub proof fn a_narrower_footer_is_a_prefix(
    commands: Seq<CommandV>,
    bs: Seq<BindingV>,
    context: Context,
    narrow: nat,
    wide: nat,
)
    requires
        narrow <= wide,
    ensures
        footer_text(commands, bs, context, narrow).is_prefix_of(
            footer_text(commands, bs, context, wide),
        ),
{
    lemma_narrower(seq![], hinted(commands, context), bs, context, narrow, wide);
}

proof fn lemma_fits_within(
    line: Seq<char>,
    commands: Seq<CommandV>,
    bs: Seq<BindingV>,
    context: Context,
    width: nat,
)
    requires
        width::text_columns(line) <= width,
    ensures
        width::text_columns(extended(line, commands, bs, context, width)) <= width,
    decreases commands.len(),
{
    if commands.len() > 0 {
        let bound = keymap::bound(bs, context, commands[0].id);
        if bound.len() == 0 {
            lemma_fits_within(line, commands.drop_first(), bs, context, width);
        } else {
            let entry = hint(bound[0], commands[0].label);
            if takes(line, entry, width) {
                lemma_fits_within(
                    line + separator(line) + entry,
                    commands.drop_first(),
                    bs,
                    context,
                    width,
                );
            }
        }
    }
}

/// The footer takes no more columns than there are, an empty text taking
/// none.
pub proof fn a_footer_fits(
    commands: Seq<CommandV>,
    bs: Seq<BindingV>,
    context: Context,
    width: nat,
)
    requires
        width::text_columns(seq![]) == 0,
    ensures
        width::text_columns(footer_text(commands, bs, context, width)) <= width,
{
    lemma_fits_within(seq![], hinted(commands, context), bs, context, width);
}

/// The commands of one context and priority, in the order given.
pub open spec fn ranked(commands: Seq<CommandV>, context: Context, priority: int) -> Seq<CommandV>
    decreases commands.len(),
{
    if commands.len() == 0 {
        seq![]
    } else {
        let front = ranked(commands.drop_last(), context, priority);
        let c = commands.last();
        if c.context == context && c.hint_priority == priority {
            front.push(c)
        } else {
            front
        }
    }
}

/// By descending priority.
pub open spec fn descending(commands: Seq<CommandV>) -> bool {
    forall|i: int, j: int|
        0 <= i < j < commands.len() ==> (#[trigger] commands[i]).hint_priority >= (
        #[trigger] commands[j]).hint_priority
}

/// All of one context, and hinted at.
spec fn eligible(commands: Seq<CommandV>, context: Context) -> bool {
    forall|i: int|
        0 <= i < commands.len() ==> (#[trigger] commands[i]).context == context
            && commands[i].hint_priority > 0
}

proof fn lemma_by_priority(sorted: Seq<CommandV>, c: CommandV, context: Context, priority: int)
    requires
        descending(sorted),
        eligible(sorted, context),
        c.context == context,
        c.hint_priority > 0,
    ensures
        descending(by_priority(sorted, c)),
        eligible(by_priority(sorted, c), context),
        forall|i: int|
            0 <= i < by_priority(sorted, c).len() ==> by_priority(sorted, c)[i] == c
                || sorted.contains(#[trigger] by_priority(sorted, c)[i]),
        ranked(by_priority(sorted, c), context, priority) == if c.hint_priority == priority {
            ranked(sorted, context, priority).push(c)
        } else {
            ranked(sorted, context, priority)
        },
    decreases sorted.len(),
{
    let all = by_priority(sorted, c);
    if sorted.len() > 0 && sorted.last().hint_priority < c.hint_priority {
        let front = sorted.drop_last();
        let last = sorted.last();
        assert forall|i: int, j: int| 0 <= i < j < front.len() implies (
        #[trigger] front[i]).hint_priority >= (#[trigger] front[j]).hint_priority by {
            assert(front[i] == sorted[i] && front[j] == sorted[j]);
        }
        assert forall|i: int| 0 <= i < front.len() implies (#[trigger] front[i]).context == context
            && front[i].hint_priority > 0 by {
            assert(front[i] == sorted[i]);
        }
        assert(sorted[sorted.len() - 1] == last);
        lemma_by_priority(front, c, context, priority);
        let some = by_priority(front, c);
        assert(all.drop_last() =~= some);
        assert forall|i: int| 0 <= i < all.len() implies all[i] == c || sorted.contains(
            #[trigger] all[i],
        ) by {
            if i < some.len() {
                assert(all[i] == some[i]);
                if some[i] != c {
                    let k = choose|k: int| 0 <= k < front.len() && front[k] == some[i];
                    assert(sorted[k] == some[i]);
                }
            }
        }
        assert forall|i: int| 0 <= i < all.len() implies (#[trigger] all[i]).hint_priority
            >= last.hint_priority by {
            if all[i] != c {
                let k = choose|k: int| 0 <= k < sorted.len() && sorted[k] == all[i];
                assert(sorted[k].hint_priority >= sorted[sorted.len() - 1].hint_priority || k
                    == sorted.len() - 1);
            }
        }
        assert forall|i: int, j: int| 0 <= i < j < all.len() implies (
        #[trigger] all[i]).hint_priority >= (#[trigger] all[j]).hint_priority by {
            if j < some.len() {
                assert(all[i] == some[i] && all[j] == some[j]);
            }
        }
        assert forall|i: int| 0 <= i < all.len() implies (#[trigger] all[i]).context == context
            && all[i].hint_priority > 0 by {
            if i < some.len() {
                assert(all[i] == some[i]);
            }
        }
        assert(ranked(all, context, priority) =~= if c.hint_priority == priority {
            ranked(sorted, context, priority).push(c)
        } else {
            ranked(sorted, context, priority)
        }) by {
            if c.hint_priority == priority {
                assert(last.hint_priority != priority);
            }
        }
    } else {
        assert(all.drop_last() =~= sorted);
        assert forall|i: int| 0 <= i < all.len() implies all[i] == c || sorted.contains(
            #[trigger] all[i],
        ) by {
            if i < sorted.len() {
                assert(all[i] == sorted[i]);
            }
        }
        assert forall|i: int, j: int| 0 <= i < j < all.len() implies (
        #[trigger] all[i]).hint_priority >= (#[trigger] all[j]).hint_priority by {
            assert(all[i] == sorted[i]);
            if j < sorted.len() {
                assert(all[j] == sorted[j]);
            } else {
                assert(i == sorted.len() - 1 || sorted[i].hint_priority >= sorted[sorted.len()
                    - 1].hint_priority);
            }
        }
        assert forall|i: int| 0 <= i < all.len() implies (#[trigger] all[i]).context == context
            && all[i].hint_priority > 0 by {
            if i < sorted.len() {
                assert(all[i] == sorted[i]);
            }
        }
    }
}

/// The footer hints at the commands of its context that have a priority, by
/// descending priority; commands of the same priority stay in the order of
/// the table.
pub proof fn hints_go_by_priority(commands: Seq<CommandV>, context: Context, priority: int)
    requires
        priority > 0,
    ensures
        descending(hinted(commands, context)),
        forall|i: int|
            0 <= i < hinted(commands, context).len() ==> (#[trigger] hinted(
                commands,
                context,
            )[i]).context == context && hinted(commands, context)[i].hint_priority > 0,
        ranked(hinted(commands, context), context, priority) == ranked(commands, context, priority),
    decreases commands.len(),
{
    if commands.len() > 0 {
        let front = commands.drop_last();
        let c = commands.last();
        hints_go_by_priority(front, context, priority);
        assert(eligible(hinted(front, context), context));
        if c.context == context && c.hint_priority > 0 {
            lemma_by_priority(hinted(front, context), c, context, priority);
            assert(eligible(hinted(commands, context), context));
        }
    }
}

} // verus!
