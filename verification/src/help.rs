//! The searchable key-binding list opened with `?`. Everything shown is
//! generated from the command table and the live keymap, so config
//! overrides are always reflected and the list can never go stale.
use vstd::prelude::*;

use crate::command;
use crate::command::{Command, CommandId, CommandV, Context};
use crate::input;
use crate::input::{Editor, EditorV};
use crate::key::{Key, KeySeq};
use crate::keymap;
use crate::keymap::{BindingV, Keymap};
use crate::keyspec;
use crate::style;
use crate::style::{Line, Span, SpanV, Style};
use crate::text;
use crate::width;

verus! {

/// One line of the help list: a context heading or a binding entry. The
/// command id is shown so it can be copied straight into the config file.
#[derive(Debug, PartialEq, Eq)]
pub enum HelpLine {
    Heading(&'static str),
    Entry {
        /// All bound key sequences in canonical notation, space-separated.
        keys: String,
        label: &'static str,
        id: CommandId,
    },
}

/// A help line as plain values.
#[verifier::ext_equal]
pub enum HelpLineV {
    Heading(Seq<char>),
    Entry { keys: Seq<char>, label: Seq<char>, id: CommandId },
}

impl View for HelpLine {
    type V = HelpLineV;

    open spec fn view(&self) -> HelpLineV {
        match *self {
            HelpLine::Heading(name) => HelpLineV::Heading(name@),
            HelpLine::Entry { keys, label, id } => HelpLineV::Entry {
                keys: keys@,
                label: label@,
                id,
            },
        }
    }
}

impl Clone for HelpLine {
    fn clone(&self) -> (r: Self)
        ensures
            r == *self,
    {
        match self {
            HelpLine::Heading(name) => HelpLine::Heading(name),
            HelpLine::Entry { keys, label, id } => HelpLine::Entry {
                keys: keys.clone(),
                label,
                id: *id,
            },
        }
    }
}

pub open spec fn help_view(v: Seq<HelpLine>) -> Seq<HelpLineV> {
    v.map_values(|l: HelpLine| l@)
}

/// Which part of the help view currently receives keys.
#[derive(Debug, Clone, Copy, PartialEq, Eq, Structural)]
pub enum Focus {
    /// Scrolling through the (possibly filtered) list.
    Browse,
    /// The filter text is being typed; every keystroke re-filters.
    Edit,
}

/// View state of the help view.
pub struct HelpState {
    /// Holds the filter text at all times; only focused while editing.
    pub editor: Editor,
    pub focus: Focus,
    /// Index of the first visible line; no selection, just an offset.
    pub scroll: usize,
}

/// A help view as plain values.
#[verifier::ext_equal]
pub struct HelpStateV {
    pub editor: EditorV,
    pub focus: Focus,
    pub scroll: usize,
}

impl View for HelpState {
    type V = HelpStateV;

    open spec fn view(&self) -> HelpStateV {
        HelpStateV { editor: self.editor@, focus: self.focus, scroll: self.scroll }
    }
}

/// The help view as it opens.
pub open spec fn opened() -> HelpStateV {
    HelpStateV { editor: input::prefilled(seq![]), focus: Focus::Browse, scroll: 0 }
}

impl HelpState {
    pub fn new() -> (r: Self)
        ensures
            r@ == opened(),
            r.editor.wf(),
    {
        HelpState { editor: Editor::new(), focus: Focus::Browse, scroll: 0 }
    }
}

impl Default for HelpState {
    fn default() -> (r: Self)
        ensures
            r@ == opened(),
            r.editor.wf(),
    {
        HelpState::new()
    }
}

/// The notations of several key sequences.
pub open spec fn notations(seqs: Seq<Seq<Key>>) -> Seq<Seq<char>> {
    seqs.map_values(|s: Seq<Key>| keyspec::seq_text(s))
}

/// The entries of a context: one per bound command, in table order. A
/// command stripped of all bindings cannot be invoked, so listing it would
/// only mislead.
pub open spec fn entries(commands: Seq<CommandV>, bs: Seq<BindingV>, context: Context) -> Seq<
    HelpLineV,
>
    decreases commands.len(),
{
    if commands.len() == 0 {
        seq![]
    } else {
        let front = entries(commands.drop_last(), bs, context);
        let c = commands.last();
        let seqs = keymap::bound(bs, context, c.id);
        if c.context == context && seqs.len() > 0 {
            front.push(
                HelpLineV::Entry {
                    keys: text::joined(notations(seqs), " "@),
                    label: c.label,
                    id: c.id,
                },
            )
        } else {
            front
        }
    }
}

/// A context's heading and entries; nothing where it has no entries.
pub open spec fn section(
    commands: Seq<CommandV>,
    bs: Seq<BindingV>,
    context: Context,
) -> Seq<HelpLineV> {
    let es = entries(commands, bs, context);
    if es.len() > 0 {
        seq![HelpLineV::Heading(command::context_name(context)->Some_0)] + es
    } else {
        seq![]
    }
}

/// The sections of several contexts.
pub open spec fn sections(
    commands: Seq<CommandV>,
    bs: Seq<BindingV>,
    contexts: Seq<Context>,
) -> Seq<HelpLineV>
    decreases contexts.len(),
{
    if contexts.len() == 0 {
        seq![]
    } else {
        sections(commands, bs, contexts.drop_last()) + section(commands, bs, contexts.last())
    }
}

/// The full help list.
pub open spec fn all_lines(commands: Seq<CommandV>, bs: Seq<BindingV>) -> Seq<HelpLineV> {
    sections(commands, bs, command::named_contexts())
}

fn keys_text(seqs: &Vec<&KeySeq>) -> (r: String)
    ensures
        r@ == text::joined(notations(seqs@.map_values(|s: &KeySeq| s@)), " "@),
{
    let ghost all = notations(seqs@.map_values(|s: &KeySeq| s@));
    let mut parts: Vec<String> = Vec::new();
    let mut i: usize = 0;
    assert(text::texts(parts@) =~= all.take(0));
    while i < seqs.len()
        invariant
            i <= seqs.len(),
            all == notations(seqs@.map_values(|s: &KeySeq| s@)),
            text::texts(parts@) == all.take(i as int),
        decreases seqs.len() - i,
    {
        let ghost before = text::texts(parts@);
        let part = keyspec::format_seq(seqs[i]);
        assert(part@ == all[i as int]);
        parts.push(part);
        assert(text::texts(parts@) =~= before.push(part@));
        i = i + 1;
        assert(text::texts(parts@) =~= all.take(i as int));
    }
    assert(all.take(i as int) =~= all);
    text::join(&parts, " ")
}

fn context_entries(commands: &Vec<Command>, keymap: &Keymap, context: Context) -> (r: Vec<
    HelpLine,
>)
    ensures
        help_view(r@) == entries(command::commands_view(commands@), keymap@, context),
{
    let ghost all = command::commands_view(commands@);
    let mut r: Vec<HelpLine> = Vec::new();
    let mut i: usize = 0;
    assert(all.take(0) =~= seq![]);
    assert(help_view(r@) =~= seq![]);
    while i < commands.len()
        invariant
            i <= commands.len(),
            all == command::commands_view(commands@),
            help_view(r@) == entries(all.take(i as int), keymap@, context),
        decreases commands.len() - i,
    {
        assert(all.take(i + 1).drop_last() =~= all.take(i as int));
        assert(all.take(i + 1).last() == commands@[i as int]@);
        let c = commands[i];
        if c.context == context {
            let seqs = keymap.bindings_for(context, c.id);
            assert(seqs@.map_values(|s: &KeySeq| s@).len() == seqs@.len());
            if seqs.len() > 0 {
                let ghost before = help_view(r@);
                let line = HelpLine::Entry { keys: keys_text(&seqs), label: c.label, id: c.id };
                r.push(line);
                assert(help_view(r@) =~= before.push(line@));
            }
        }
        i = i + 1;
    }
    assert(all.take(i as int) =~= all);
    r
}

/// Builds the full help list: per context (in display order) a heading
/// followed by one entry per bound command, in command-table order.
pub fn lines(commands: &Vec<Command>, keymap: &Keymap) -> (r: Vec<HelpLine>)
    ensures
        help_view(r@) == all_lines(command::commands_view(commands@), keymap@),
{
    let ghost cs = command::commands_view(commands@);
    let names = command::context_names();
    let ghost contexts = command::named_contexts();
    let mut r: Vec<HelpLine> = Vec::new();
    let mut i: usize = 0;
    assert(contexts.take(0) =~= seq![]);
    assert(help_view(r@) =~= seq![]);
    while i < names.len()
        invariant
            i <= names.len(),
            cs == command::commands_view(commands@),
            contexts == command::named_contexts(),
            names@.len() == contexts.len(),
            forall|k: int|
                0 <= k < names@.len() ==> (#[trigger] names@[k]).0 == contexts[k]
                    && command::context_name(names@[k].0) == Some(names@[k].1@),
            help_view(r@) == sections(cs, keymap@, contexts.take(i as int)),
        decreases names.len() - i,
    {
        assert(contexts.take(i + 1).drop_last() =~= contexts.take(i as int));
        assert(contexts.take(i + 1).last() == names@[i as int].0);
        let ghost before = help_view(r@);
        let mut es = context_entries(commands, keymap, names[i].0);
        let ghost added = help_view(es@);
        if es.len() > 0 {
            let heading = HelpLine::Heading(names[i].1);
            r.push(heading);
            assert(help_view(r@) =~= before.push(heading@));
            r.append(&mut es);
            assert(help_view(r@) =~= before + (seq![heading@] + added));
        } else {
            assert(before + Seq::<HelpLineV>::empty() =~= before);
        }
        i = i + 1;
    }
    assert(contexts.take(i as int) =~= contexts);
    r
}

/// A text in lower case.
pub uninterp spec fn lowercase(s: Seq<char>) -> Seq<char>;

/// Calls `str::to_lowercase`. Claimed is only that the result depends on
/// nothing but the text.
#[verifier::external_body]
fn to_lower(s: &str) -> (r: String)
    ensures
        r@ == lowercase(s@),
{
    s.to_lowercase()
}

/// Whether keys, label or id of an entry contain the text (in lower case).
pub open spec fn hit(line: HelpLineV, needle: Seq<char>) -> bool {
    match line {
        HelpLineV::Heading(_) => false,
        HelpLineV::Entry { keys, label, id } => text::contains_text(lowercase(keys), needle)
            || text::contains_text(lowercase(label), needle) || text::contains_text(
            lowercase(id.text()),
            needle,
        ),
    }
}

pub open spec fn hits(lines: Seq<HelpLineV>, needle: Seq<char>) -> Seq<bool> {
    lines.map_values(|l: HelpLineV| hit(l, needle))
}

/// The entries that are hit, each heading in front of the first of its
/// entries that is; `pending` is the heading not yet shown.
pub open spec fn kept(
    lines: Seq<HelpLineV>,
    hits: Seq<bool>,
    pending: Option<HelpLineV>,
) -> Seq<HelpLineV>
    decreases lines.len(),
{
    if lines.len() == 0 {
        seq![]
    } else {
        match lines[0] {
            HelpLineV::Heading(_) => kept(lines.drop_first(), hits.drop_first(), Some(lines[0])),
            HelpLineV::Entry { keys, label, id } => if hits[0] {
                (match pending {
                    Some(heading) => seq![heading, lines[0]],
                    None => seq![lines[0]],
                }) + kept(lines.drop_first(), hits.drop_first(), None)
            } else {
                kept(lines.drop_first(), hits.drop_first(), pending)
            },
        }
    }
}

/// The lines a filter leaves. An empty filter keeps everything.
pub open spec fn filtered(lines: Seq<HelpLineV>, filter: Seq<char>) -> Seq<HelpLineV> {
    if filter.len() == 0 {
        lines
    } else {
        kept(lines, hits(lines, lowercase(filter)), None)
    }
}

pub open spec fn pending_view(o: Option<HelpLine>) -> Option<HelpLineV> {
    match o {
        Some(l) => Some(l@),
        None => None,
    }
}

/// Keeps the entries that are hit and the headings that still have entries
/// under them.
pub fn keep_lines(lines: &Vec<HelpLine>, found: &Vec<bool>) -> (r: Vec<HelpLine>)
    requires
        found@.len() == lines@.len(),
    ensures
        help_view(r@) == kept(help_view(lines@), found@, None),
{
    let ghost all = help_view(lines@);
    let ghost whole = kept(all, found@, None);
    let mut r: Vec<HelpLine> = Vec::new();
    let mut pending: Option<HelpLine> = None;
    let mut i: usize = 0;
    assert(help_view(r@) =~= seq![]);
    assert(all.skip(0) =~= all);
    assert(found@.skip(0) =~= found@);
    assert(help_view(r@) + whole =~= whole);
    while i < lines.len()
        invariant
            i <= lines.len(),
            found@.len() == lines@.len(),
            all == help_view(lines@),
            help_view(r@) + kept(all.skip(i as int), found@.skip(i as int), pending_view(pending))
                == whole,
        decreases lines.len() - i,
    {
        let ghost rest = all.skip(i as int);
        let ghost before = help_view(r@);
        let ghost held = pending_view(pending);
        assert(rest[0] == lines@[i as int]@);
        assert(rest.drop_first() =~= all.skip(i + 1));
        assert(found@.skip(i as int)[0] == found@[i as int]);
        assert(found@.skip(i as int).drop_first() =~= found@.skip(i + 1));
        match &lines[i] {
            HelpLine::Heading(_) => {
                pending = Some(lines[i].clone());
            },
            HelpLine::Entry { keys, label, id } => {
                if found[i] {
                    match pending {
                        Some(heading) => {
                            r.push(heading);
                        },
                        None => {},
                    }
                    pending = None;
                    let line = lines[i].clone();
                    r.push(line);
                    proof {
                        let added = match held {
                            Some(heading) => seq![heading, rest[0]],
                            None => seq![rest[0]],
                        };
                        assert(help_view(r@) =~= before + added);
                        let more = kept(all.skip(i + 1), found@.skip(i + 1), None);
                        assert(before + (added + more) =~= (before + added) + more);
                    }
                }
            },
        }
        i = i + 1;
    }
    assert(help_view(r@) + kept(all.skip(i as int), found@.skip(i as int), pending_view(pending))
        =~= help_view(r@));
    r
}

fn holds(s: &str, needle: &Vec<char>) -> (r: bool)
    ensures
        r == text::contains_text(lowercase(s@), needle@),
{
    text::find(&text::chars_of(to_lower(s).as_str()), needle).is_some()
}

/// Keeps the entries whose keys, label or id contain `filter`
/// (case-insensitively), and the headings that still have entries under
/// them. An empty filter keeps everything.
pub fn filter_lines(lines: Vec<HelpLine>, filter: &str) -> (r: Vec<HelpLine>)
    ensures
        help_view(r@) == filtered(help_view(lines@), filter@),
{
    if text::chars_of(filter).len() == 0 {
        return lines;
    }
    let ghost all = help_view(lines@);
    let needle = text::chars_of(to_lower(filter).as_str());
    let ghost wanted = hits(all, needle@);
    let mut found: Vec<bool> = Vec::new();
    let mut i: usize = 0;
    while i < lines.len()
        invariant
            i <= lines.len(),
            all == help_view(lines@),
            wanted == hits(all, needle@),
            found@ == wanted.take(i as int),
        decreases lines.len() - i,
    {
        assert(all[i as int] == lines@[i as int]@);
        let is_hit = match &lines[i] {
            HelpLine::Heading(_) => false,
            HelpLine::Entry { keys, label, id } => holds(keys.as_str(), &needle) || holds(
                label,
                &needle,
            ) || holds(id.as_str(), &needle),
        };
        found.push(is_hit);
        i = i + 1;
        assert(found@ =~= wanted.take(i as int));
    }
    assert(wanted.take(i as int) =~= wanted);
    keep_lines(&lines, &found)
}

/// The display widths of the entries' keys.
pub open spec fn keys_widths(lines: Seq<HelpLineV>) -> Seq<usize>
    decreases lines.len(),
{
    if lines.len() == 0 {
        seq![]
    } else {
        let front = keys_widths(lines.drop_last());
        match lines.last() {
            HelpLineV::Entry { keys, label, id } => front.push(width::text_columns(keys)),
            _ => front,
        }
    }
}

/// The display widths of the entries' labels.
pub open spec fn label_widths(lines: Seq<HelpLineV>) -> Seq<usize>
    decreases lines.len(),
{
    if lines.len() == 0 {
        seq![]
    } else {
        let front = label_widths(lines.drop_last());
        match lines.last() {
            HelpLineV::Entry { keys, label, id } => front.push(width::text_columns(label)),
            _ => front,
        }
    }
}

/// A help line as shown, with the widths of its two padded columns.
pub open spec fn shown(line: HelpLineV, keys_width: usize, label_width: usize) -> Seq<SpanV> {
    match line {
        HelpLineV::Heading(name) => seq![style::span(name, style::dimmed())],
        HelpLineV::Entry { keys, label, id } => seq![
            style::raw(
                "  "@ + width::padded(keys, width::text_columns(keys) as nat, keys_width as nat)
                    + "  "@ + width::padded(
                    label,
                    width::text_columns(label) as nat,
                    label_width as nat,
                ) + "  "@ + id.text(),
            ),
        ],
    }
}

pub open spec fn displayed(lines: Seq<HelpLineV>) -> Seq<Seq<SpanV>> {
    lines.map_values(
        |l: HelpLineV|
            shown(
                l,
                width::widest(keys_widths(lines), 0),
                width::widest(label_widths(lines), 0),
            ),
    )
}

/// Renders help lines for display: dimmed headings, and entries aligned
/// into keys / label / id columns sized to the widest value of each.
pub fn display_lines(lines: &Vec<HelpLine>) -> (r: Vec<Line>)
    ensures
        style::lines_view(r@) == displayed(help_view(lines@)),
{
    let ghost all = help_view(lines@);
    let mut of_keys: Vec<usize> = Vec::new();
    let mut of_labels: Vec<usize> = Vec::new();
    let mut i: usize = 0;
    assert(all.take(0) =~= seq![]);
    while i < lines.len()
        invariant
            i <= lines.len(),
            all == help_view(lines@),
            of_keys@ == keys_widths(all.take(i as int)),
            of_labels@ == label_widths(all.take(i as int)),
        decreases lines.len() - i,
    {
        assert(all.take(i + 1).drop_last() =~= all.take(i as int));
        assert(all.take(i + 1).last() == lines@[i as int]@);
        match &lines[i] {
            HelpLine::Heading(_) => {},
            HelpLine::Entry { keys, label, id } => {
                of_keys.push(width::text_width(keys.as_str()));
                of_labels.push(width::text_width(label));
            },
        }
        i = i + 1;
    }
    assert(all.take(i as int) =~= all);
    let keys_width = width::largest(&of_keys, 0);
    let label_width = width::largest(&of_labels, 0);
    let ghost wanted = displayed(all);
    let mut r: Vec<Line> = Vec::new();
    let mut k: usize = 0;
    assert(style::lines_view(r@) =~= wanted.take(0));
    while k < lines.len()
        invariant
            k <= lines.len(),
            all == help_view(lines@),
            wanted == displayed(all),
            keys_width == width::widest(keys_widths(all), 0),
            label_width == width::widest(label_widths(all), 0),
            style::lines_view(r@) == wanted.take(k as int),
        decreases lines.len() - k,
    {
        assert(all[k as int] == lines@[k as int]@);
        let line = match &lines[k] {
            HelpLine::Heading(name) => Line::of(Span::styled((*name).to_owned(), Style::dim())),
            HelpLine::Entry { keys, label, id } => {
                // Padded by display columns, not chars: a user key could be
                // double-width.
                let mut content = text::concat5(
                    "  ",
                    width::pad_to(
                        keys.as_str(),
                        width::text_width(keys.as_str()),
                        keys_width,
                    ).as_str(),
                    "  ",
                    width::pad_to(label, width::text_width(label), label_width).as_str(),
                    "  ",
                );
                content.append(id.as_str());
                Line::of(Span::raw(content))
            },
        };
        assert(line@ =~= wanted[k as int]);
        let ghost before = style::lines_view(r@);
        r.push(line);
        assert(style::lines_view(r@) =~= before.push(line@));
        k = k + 1;
        assert(style::lines_view(r@) =~= wanted.take(k as int));
    }
    assert(wanted.take(k as int) =~= wanted);
    r
}

/// The help entry of a command.
pub open spec fn entry_of(c: CommandV, bs: Seq<BindingV>) -> HelpLineV {
    HelpLineV::Entry {
        keys: text::joined(notations(keymap::bound(bs, c.context, c.id)), " "@),
        label: c.label,
        id: c.id,
    }
}

/// A command that the help of a context lists.
spec fn has_entry(c: CommandV, bs: Seq<BindingV>, context: Context, line: HelpLineV) -> bool {
    c.context == context && keymap::bound(bs, context, c.id).len() > 0 && line == entry_of(c, bs)
}

proof fn lemma_entries(
    commands: Seq<CommandV>,
    bs: Seq<BindingV>,
    context: Context,
    line: HelpLineV,
)
    ensures
        entries(commands, bs, context).contains(line) <==> exists|k: int|
            0 <= k < commands.len() && has_entry(#[trigger] commands[k], bs, context, line),
    decreases commands.len(),
{
    if commands.len() > 0 {
        let front = commands.drop_last();
        let some = entries(front, bs, context);
        let all = entries(commands, bs, context);
        lemma_entries(front, bs, context, line);
        if all.contains(line) {
            let i = choose|i: int| 0 <= i < all.len() && all[i] == line;
            if i < some.len() {
                assert(some[i] == line);
                let k = choose|k: int|
                    0 <= k < front.len() && has_entry(#[trigger] front[k], bs, context, line);
                assert(has_entry(commands[k], bs, context, line));
            } else {
                assert(has_entry(commands[commands.len() - 1], bs, context, line));
            }
        }
        if exists|k: int|
            0 <= k < commands.len() && has_entry(#[trigger] commands[k], bs, context, line) {
            let k = choose|k: int|
                0 <= k < commands.len() && has_entry(#[trigger] commands[k], bs, context, line);
            if k < front.len() {
                assert(has_entry(front[k], bs, context, line));
                let i = choose|i: int| 0 <= i < some.len() && some[i] == line;
                assert(all[i] == line);
            } else {
                assert(all[all.len() - 1] == line);
            }
        }
    }
}

proof fn lemma_sections(
    commands: Seq<CommandV>,
    bs: Seq<BindingV>,
    contexts: Seq<Context>,
    line: HelpLineV,
)
    requires
        line is Entry,
    ensures
        sections(commands, bs, contexts).contains(line) <==> exists|q: int|
            0 <= q < contexts.len() && entries(
                commands,
                bs,
                #[trigger] contexts[q],
            ).contains(line),
    decreases contexts.len(),
{
    if contexts.len() > 0 {
        let front = contexts.drop_last();
        let some = sections(commands, bs, front);
        let es = entries(commands, bs, contexts.last());
        let last = section(commands, bs, contexts.last());
        let all = sections(commands, bs, contexts);
        lemma_sections(commands, bs, front, line);
        if all.contains(line) {
            let i = choose|i: int| 0 <= i < all.len() && all[i] == line;
            if i < some.len() {
                assert(some[i] == line);
                let q = choose|q: int|
                    0 <= q < front.len() && entries(
                        commands,
                        bs,
                        #[trigger] front[q],
                    ).contains(line);
                assert(contexts[q] == front[q]);
            } else {
                assert(last[i - some.len()] == line);
                assert(es[i - some.len() - 1] == line);
                assert(contexts[contexts.len() - 1] == contexts.last());
            }
        }
        if exists|q: int|
            0 <= q < contexts.len() && entries(
                commands,
                bs,
                #[trigger] contexts[q],
            ).contains(line) {
            let q = choose|q: int|
                0 <= q < contexts.len() && entries(
                    commands,
                    bs,
                    #[trigger] contexts[q],
                ).contains(line);
            if q < front.len() {
                assert(front[q] == contexts[q]);
                let i = choose|i: int| 0 <= i < some.len() && some[i] == line;
                assert(all[i] == line);
            } else {
                let i = choose|i: int| 0 <= i < es.len() && es[i] == line;
                assert(last[i + 1] == line);
                assert(all[some.len() + i + 1] == line);
            }
        }
    }
}

/// The help shows every command that is bound in its context, with the keys
/// it is bound to, and no entry besides these.
pub proof fn the_help_shows_the_actual_bindings(
    commands: Seq<CommandV>,
    bs: Seq<BindingV>,
    line: HelpLineV,
)
    requires
        line is Entry,
    ensures
        all_lines(commands, bs).contains(line) <==> exists|k: int|
            0 <= k < commands.len() && command::named_contexts().contains(
                (#[trigger] commands[k]).context,
            ) && keymap::bound(bs, commands[k].context, commands[k].id).len() > 0 && line
                == entry_of(commands[k], bs),
{
    let contexts = command::named_contexts();
    lemma_sections(commands, bs, contexts, line);
    if all_lines(commands, bs).contains(line) {
        let q = choose|q: int|
            0 <= q < contexts.len() && entries(commands, bs, #[trigger] contexts[q]).contains(line);
        lemma_entries(commands, bs, contexts[q], line);
        let k = choose|k: int|
            0 <= k < commands.len() && has_entry(#[trigger] commands[k], bs, contexts[q], line);
        assert(contexts.contains(commands[k].context));
    }
    if exists|k: int|
        0 <= k < commands.len() && contexts.contains((#[trigger] commands[k]).context)
            && keymap::bound(bs, commands[k].context, commands[k].id).len() > 0 && line == entry_of(
            commands[k],
            bs,
        ) {
        let k = choose|k: int|
            0 <= k < commands.len() && contexts.contains((#[trigger] commands[k]).context)
                && keymap::bound(bs, commands[k].context, commands[k].id).len() > 0 && line
                == entry_of(commands[k], bs);
        let q = choose|q: int| 0 <= q < contexts.len() && contexts[q] == commands[k].context;
        lemma_entries(commands, bs, contexts[q], line);
        assert(has_entry(commands[k], bs, contexts[q], line));
    }
}

/// What a filter keeps: the entries that are hit, and headings only where an
/// entry follows.
proof fn lemma_kept(lines: Seq<HelpLineV>, hits: Seq<bool>, pending: Option<HelpLineV>)
    requires
        hits.len() == lines.len(),
        pending is Some ==> pending->Some_0 is Heading,
    ensures
        forall|line: HelpLineV|
            line is Entry ==> (#[trigger] kept(lines, hits, pending).contains(line) <==> exists|
                k: int,
            |
                0 <= k < lines.len() && #[trigger] lines[k] == line && hits[k]),
        forall|i: int|
            0 <= i < kept(lines, hits, pending).len() && (#[trigger] kept(
                lines,
                hits,
                pending,
            )[i]) is Heading ==> i + 1 < kept(lines, hits, pending).len() && kept(
                lines,
                hits,
                pending,
            )[i + 1] is Entry,
    decreases lines.len(),
{
    let all = kept(lines, hits, pending);
    if lines.len() > 0 {
        let rest = lines.drop_first();
        let others = hits.drop_first();
        let held = match lines[0] {
            HelpLineV::Heading(_) => Some(lines[0]),
            HelpLineV::Entry { keys, label, id } => if hits[0] {
                None
            } else {
                pending
            },
        };
        let later = kept(rest, others, held);
        let first = if lines[0] is Entry && hits[0] {
            match pending {
                Some(heading) => seq![heading, lines[0]],
                None => seq![lines[0]],
            }
        } else {
            seq![]
        };
        lemma_kept(rest, others, held);
        assert(all =~= first + later);
        assert forall|line: HelpLineV| line is Entry implies (#[trigger] all.contains(line)
            <==> exists|k: int| 0 <= k < lines.len() && #[trigger] lines[k] == line && hits[k]) by {
            if all.contains(line) {
                let i = choose|i: int| 0 <= i < all.len() && all[i] == line;
                if i < first.len() {
                    assert(lines[0] == line && hits[0]);
                } else {
                    assert(later[i - first.len()] == line);
                    assert(later.contains(line));
                    let k = choose|k: int|
                        0 <= k < rest.len() && #[trigger] rest[k] == line && others[k];
                    assert(lines[k + 1] == line && hits[k + 1]);
                }
            }
            if exists|k: int| 0 <= k < lines.len() && #[trigger] lines[k] == line && hits[k] {
                let k = choose|k: int| 0 <= k < lines.len() && #[trigger] lines[k] == line && hits[k];
                if k == 0 {
                    assert(all[first.len() - 1] == line);
                } else {
                    assert(rest[k - 1] == line && others[k - 1]);
                    assert(later.contains(line));
                    let i = choose|i: int| 0 <= i < later.len() && later[i] == line;
                    assert(all[first.len() + i] == line);
                }
            }
        }
        assert forall|i: int| 0 <= i < all.len() && (#[trigger] all[i]) is Heading implies i + 1
            < all.len() && all[i + 1] is Entry by {
            if i >= first.len() {
                assert(all[i] == later[i - first.len()]);
                assert(all[i + 1] == later[i - first.len() + 1]);
            }
        }
    }
}

/// Filtering keeps exactly the entries in which the text occurs, whatever
/// its case, and shows no heading without an entry below it.
pub proof fn the_filter_keeps_the_hits(lines: Seq<HelpLineV>, filter: Seq<char>, line: HelpLineV)
    requires
        filter.len() > 0,
        line is Entry,
    ensures
        filtered(lines, filter).contains(line) <==> lines.contains(line) && hit(
            line,
            lowercase(filter),
        ),
        forall|i: int|
            0 <= i < filtered(lines, filter).len() && (#[trigger] filtered(lines, filter)[i]) is Heading
                ==> i + 1 < filtered(lines, filter).len() && filtered(lines, filter)[i + 1] is Entry,
{
    let found = hits(lines, lowercase(filter));
    lemma_kept(lines, found, None);
    if filtered(lines, filter).contains(line) {
        let k = choose|k: int| 0 <= k < lines.len() && #[trigger] lines[k] == line && found[k];
        assert(lines.contains(line));
    }
    if lines.contains(line) && hit(line, lowercase(filter)) {
        let k = choose|k: int| 0 <= k < lines.len() && lines[k] == line;
        assert(lines[k] == line && found[k]);
    }
}

} // verus!
