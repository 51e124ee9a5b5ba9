//! The table from keys to commands, and the dispatcher that resolves key
//! presses against it.
use vstd::prelude::*;

use crate::command::{CommandId, Context};
use crate::key;
use crate::key::{Key, KeySeq};
use crate::keyspec;

verus! {

/// Maps `(Context, KeySeq)` to a command. This single table is the source of
/// truth for both dispatch and generated key-hint displays.
#[derive(Debug)]
pub struct Keymap {
    bindings: Vec<Binding>,
}

#[derive(Debug)]
struct Binding {
    context: Context,
    seq: KeySeq,
    command: CommandId,
}

/// A binding as plain values.
#[verifier::ext_equal]
pub struct BindingV {
    pub context: Context,
    pub seq: Seq<Key>,
    pub command: CommandId,
}

impl View for Binding {
    type V = BindingV;

    closed spec fn view(&self) -> BindingV {
        BindingV { context: self.context, seq: self.seq@, command: self.command }
    }
}

spec fn bindings_view(v: Seq<Binding>) -> Seq<BindingV> {
    v.map_values(|b: Binding| b@)
}

impl View for Keymap {
    type V = Seq<BindingV>;

    closed spec fn view(&self) -> Seq<BindingV> {
        bindings_view(self.bindings@)
    }
}

/// Outcome of matching an in-progress key sequence against the keymap.
#[derive(Debug, Clone, Copy, PartialEq, Eq, Structural)]
pub enum Lookup {
    /// The sequence exactly matches a binding.
    Match(CommandId),
    /// The sequence is a strict prefix of at least one binding.
    Prefix,
    /// No binding matches or extends the sequence.
    Miss,
}

/// The first binding of a context to exactly these keys.
pub open spec fn exact(bs: Seq<BindingV>, context: Context, keys: Seq<Key>) -> Option<CommandId>
    decreases bs.len(),
{
    if bs.len() == 0 {
        None
    } else if bs[0].context == context && bs[0].seq == keys {
        Some(bs[0].command)
    } else {
        exact(bs.drop_first(), context, keys)
    }
}

/// Whether the keys begin the binding.
pub open spec fn extends(b: BindingV, context: Context, keys: Seq<Key>) -> bool {
    b.context == context && keys.is_prefix_of(b.seq)
}

pub open spec fn looked_up(bs: Seq<BindingV>, context: Context, keys: Seq<Key>) -> Lookup {
    match exact(bs, context, keys) {
        Some(command) => Lookup::Match(command),
        None => if exists|i: int| 0 <= i < bs.len() && extends(#[trigger] bs[i], context, keys) {
            Lookup::Prefix
        } else {
            Lookup::Miss
        },
    }
}

/// Whether the binding is one of this command.
pub open spec fn binds(b: BindingV, context: Context, command: CommandId) -> bool {
    b.context == context && b.command == command
}

/// The key sequences bound to a command in a context, in binding order.
pub open spec fn bound(bs: Seq<BindingV>, context: Context, command: CommandId) -> Seq<Seq<Key>>
    decreases bs.len(),
{
    if bs.len() == 0 {
        seq![]
    } else {
        let front = bound(bs.drop_last(), context, command);
        if binds(bs.last(), context, command) {
            front.push(bs.last().seq)
        } else {
            front
        }
    }
}

/// The bindings of everything else.
pub open spec fn unbound(bs: Seq<BindingV>, context: Context, command: CommandId) -> Seq<BindingV>
    decreases bs.len(),
{
    if bs.len() == 0 {
        seq![]
    } else {
        let front = unbound(bs.drop_last(), context, command);
        if binds(bs.last(), context, command) {
            front
        } else {
            front.push(bs.last())
        }
    }
}

/// The position of the command's first binding, or the end.
pub open spec fn first_bound(bs: Seq<BindingV>, context: Context, command: CommandId) -> int
    decreases bs.len(),
{
    if bs.len() == 0 || binds(bs[0], context, command) {
        0
    } else {
        1 + first_bound(bs.drop_first(), context, command)
    }
}

/// Bindings of a command to each of the sequences.
pub open spec fn bindings_of(context: Context, command: CommandId, seqs: Seq<Seq<Key>>) -> Seq<
    BindingV,
> {
    seqs.map_values(|seq: Seq<Key>| BindingV { context, seq, command })
}

/// The table with a command's bindings replaced, at the place of the first.
pub open spec fn rebound(
    bs: Seq<BindingV>,
    context: Context,
    command: CommandId,
    seqs: Seq<Seq<Key>>,
) -> Seq<BindingV> {
    let p = first_bound(bs, context, command);
    bs.take(p) + bindings_of(context, command, seqs) + unbound(bs.skip(p), context, command)
}

/// Two bindings of the same sequence in one context.
pub open spec fn clash(a: BindingV, b: BindingV) -> bool {
    a.context == b.context && a.seq == b.seq
}

/// The first binding from `j` on that clashes with the one at `i`.
pub open spec fn clash_with(bs: Seq<BindingV>, i: int, j: int) -> Option<int>
    decreases bs.len() - j,
{
    if j >= bs.len() {
        None
    } else if clash(bs[i], bs[j]) {
        Some(j)
    } else {
        clash_with(bs, i, j + 1)
    }
}

/// The first pair of clashing bindings whose first is at `i` or later.
pub open spec fn first_clash(bs: Seq<BindingV>, i: int) -> Option<(int, int)>
    decreases bs.len() - i,
{
    if i >= bs.len() {
        None
    } else {
        match clash_with(bs, i, i + 1) {
            Some(j) => Some((i, j)),
            None => first_clash(bs, i + 1),
        }
    }
}

/// `a` always fires before `b` can be completed.
pub open spec fn shadows(a: BindingV, b: BindingV) -> bool {
    a.context == b.context && a.seq.len() < b.seq.len() && a.seq.is_prefix_of(b.seq)
}

pub open spec fn shadow_warning(shorter: BindingV, shadowed: BindingV) -> Seq<char> {
    "warning: \""@ + keyspec::seq_text(shorter.seq) + "\" shadows \""@ + keyspec::seq_text(
        shadowed.seq,
    ) + "\" ("@ + shadowed.command.text() + ")"@
}

/// The warnings about one binding, for the first `n` of the others.
pub open spec fn warnings_about(bs: Seq<BindingV>, shadowed: BindingV, n: int) -> Seq<Seq<char>>
    decreases n,
{
    if n <= 0 {
        seq![]
    } else {
        let front = warnings_about(bs, shadowed, n - 1);
        if shadows(bs[n - 1], shadowed) {
            front.push(shadow_warning(bs[n - 1], shadowed))
        } else {
            front
        }
    }
}

/// The warnings about the first `n` bindings.
pub open spec fn warnings(bs: Seq<BindingV>, n: int) -> Seq<Seq<char>>
    decreases n,
{
    if n <= 0 {
        seq![]
    } else {
        warnings(bs, n - 1) + warnings_about(bs, bs[n - 1], bs.len() as int)
    }
}

/// Whether two keys sequences are equal.
fn same_seq(a: &KeySeq, b: &KeySeq) -> (r: bool)
    ensures
        r == (a@ == b@),
{
    a.is(b.as_slice())
}

impl Keymap {
    pub fn lookup(&self, context: Context, keys: &[Key]) -> (r: Lookup)
        ensures
            r == looked_up(self@, context, keys@),
    {
        let ghost bs = self@;
        let mut is_prefix = false;
        let mut i: usize = 0;
        assert(bs.skip(0) =~= bs);
        while i < self.bindings.len()
            invariant
                i <= self.bindings.len(),
                bs == bindings_view(self.bindings@),
                bs == self@,
                exact(bs, context, keys@) == exact(bs.skip(i as int), context, keys@),
                is_prefix == exists|j: int| 0 <= j < i && extends(#[trigger] bs[j], context, keys@),
            decreases self.bindings.len() - i,
        {
            let binding = &self.bindings[i];
            assert(bs.skip(i as int)[0] == bs[i as int]);
            assert(bs[i as int] == binding@);
            assert(bs.skip(i as int).drop_first() =~= bs.skip(i + 1));
            if binding.context == context {
                if binding.seq.is(keys) {
                    return Lookup::Match(binding.command);
                }
                if binding.seq.starts_with(keys) {
                    is_prefix = true;
                    assert(extends(bs[i as int], context, keys@));
                }
            }
            i = i + 1;
        }
        if is_prefix {
            Lookup::Prefix
        } else {
            Lookup::Miss
        }
    }

    /// Every binding, in order.
    pub fn bindings(&self) -> (r: Vec<(Context, &KeySeq, CommandId)>)
        ensures
            r@.len() == self@.len(),
            forall|i: int|
                0 <= i < r@.len() ==> self@[i] == (BindingV {
                    context: (#[trigger] r@[i]).0,
                    seq: r@[i].1@,
                    command: r@[i].2,
                }),
    {
        let mut r: Vec<(Context, &KeySeq, CommandId)> = Vec::new();
        let mut i: usize = 0;
        while i < self.bindings.len()
            invariant
                i <= self.bindings.len(),
                r@.len() == i,
                forall|k: int|
                    0 <= k < i ==> self@[k] == (BindingV {
                        context: (#[trigger] r@[k]).0,
                        seq: r@[k].1@,
                        command: r@[k].2,
                    }),
            decreases self.bindings.len() - i,
        {
            let b = &self.bindings[i];
            assert(self@[i as int] == b@);
            r.push((b.context, &b.seq, b.command));
            i = i + 1;
        }
        r
    }

    /// Returns the key sequence bound to `command` in `context`, if any; the
    /// first where there are several.
    pub fn binding_for(&self, context: Context, command: CommandId) -> (r: Option<&KeySeq>)
        ensures
            match r {
                Some(seq) => bound(self@, context, command).len() > 0 && seq@ == bound(
                    self@,
                    context,
                    command,
                )[0],
                None => bound(self@, context, command).len() == 0,
            },
    {
        let ghost bs = self@;
        let mut i: usize = 0;
        assert(bs.take(0) =~= seq![]);
        while i < self.bindings.len()
            invariant
                i <= self.bindings.len(),
                bs == bindings_view(self.bindings@),
                bs == self@,
                bound(bs.take(i as int), context, command).len() == 0,
            decreases self.bindings.len() - i,
        {
            assert(bs[i as int] == self.bindings@[i as int]@);
            assert(bs.take(i + 1).drop_last() =~= bs.take(i as int));
            if self.bindings[i].context == context && self.bindings[i].command == command {
                proof {
                    assert(bound(bs.take(i + 1), context, command) =~= seq![bs[i as int].seq]);
                    lemma_bound_prefix(bs, context, command, i + 1);
                }
                return Some(&self.bindings[i].seq);
            }
            i = i + 1;
        }
        assert(bs.take(i as int) =~= bs);
        None
    }

    /// Returns every key sequence bound to `command` in `context`, in
    /// binding order (a command may have several, e.g. `q` and `<esc>`).
    pub fn bindings_for(&self, context: Context, command: CommandId) -> (r: Vec<&KeySeq>)
        ensures
            r@.map_values(|s: &KeySeq| s@) == bound(self@, context, command),
    {
        let ghost bs = self@;
        let mut r: Vec<&KeySeq> = Vec::new();
        let mut i: usize = 0;
        assert(bs.take(0) =~= seq![]);
        assert(r@.map_values(|s: &KeySeq| s@) =~= seq![]);
        while i < self.bindings.len()
            invariant
                i <= self.bindings.len(),
                bs == bindings_view(self.bindings@),
                bs == self@,
                r@.map_values(|s: &KeySeq| s@) == bound(bs.take(i as int), context, command),
            decreases self.bindings.len() - i,
        {
            assert(bs[i as int] == self.bindings@[i as int]@);
            assert(bs.take(i + 1).drop_last() =~= bs.take(i as int));
            let ghost before = r@;
            if self.bindings[i].context == context && self.bindings[i].command == command {
                r.push(&self.bindings[i].seq);
                assert(r@.map_values(|s: &KeySeq| s@) =~= before.map_values(
                    |s: &KeySeq| s@,
                ).push(bs[i as int].seq));
            }
            i = i + 1;
        }
        assert(bs.take(i as int) =~= bs);
        r
    }

    /// Replaces every binding of `command` in `context` with `seqs`, used
    /// by config overrides. The new bindings keep the replaced bindings'
    /// position so footer ordering stays stable.
    pub fn rebind(&mut self, context: Context, command: CommandId, seqs: Vec<KeySeq>)
        ensures
            final(self)@ == rebound(
                old(self)@,
                context,
                command,
                seqs@.map_values(|s: KeySeq| s@),
            ),
    {
        let ghost bs = self@;
        let ghost new = seqs@.map_values(|s: KeySeq| s@);
        let mut kept: Vec<Binding> = Vec::new();
        let mut i: usize = 0;
        assert(bs.skip(0) =~= bs);
        while i < self.bindings.len() && !(self.bindings[i].context == context
            && self.bindings[i].command == command)
            invariant
                i <= self.bindings.len(),
                *self == *old(self),
                bs == bindings_view(self.bindings@),
                bs == self@,
                bindings_view(kept@) == bs.take(i as int),
                first_bound(bs, context, command) == i + first_bound(
                    bs.skip(i as int),
                    context,
                    command,
                ),
            decreases self.bindings.len() - i,
        {
            assert(bs.skip(i as int)[0] == bs[i as int]);
            assert(bs[i as int] == self.bindings@[i as int]@);
            assert(bs.skip(i as int).drop_first() =~= bs.skip(i + 1));
            let ghost before = bindings_view(kept@);
            let b = Binding {
                context: self.bindings[i].context,
                seq: self.bindings[i].seq.clone(),
                command: self.bindings[i].command,
            };
            kept.push(b);
            assert(bindings_view(kept@) =~= before.push(b@));
            i = i + 1;
            assert(bindings_view(kept@) =~= bs.take(i as int));
        }
        let ghost p = i as int;
        proof {
            if i < self.bindings.len() {
                assert(bs[i as int] == self.bindings@[i as int]@);
                assert(bs.skip(i as int)[0] == bs[i as int]);
            }
            assert(first_bound(bs, context, command) == p);
        }
        let mut k: usize = 0;
        let ghost added = bindings_of(context, command, new);
        assert(bs.take(p) + added.take(0) =~= bs.take(p));
        while k < seqs.len()
            invariant
                k <= seqs.len(),
                new == seqs@.map_values(|s: KeySeq| s@),
                added == bindings_of(context, command, new),
                bindings_view(kept@) == bs.take(p) + added.take(k as int),
            decreases seqs.len() - k,
        {
            let ghost before = bindings_view(kept@);
            let b = Binding { context, seq: seqs[k].clone(), command };
            kept.push(b);
            assert(b@ =~= added[k as int]);
            assert(bindings_view(kept@) =~= before.push(b@));
            k = k + 1;
            assert(bindings_view(kept@) =~= bs.take(p) + added.take(k as int));
        }
        assert(added.take(k as int) =~= added);
        let ghost rest = bs.skip(p);
        let ghost head = bs.take(p) + added;
        let ghost from = p;
        assert(rest.take(0) =~= seq![]);
        assert(head + unbound(rest.take(0), context, command) =~= head);
        while i < self.bindings.len()
            invariant
                from <= i <= self.bindings.len(),
                *self == *old(self),
                bs == bindings_view(self.bindings@),
                0 <= from <= bs.len(),
                rest == bs.skip(from),
                bindings_view(kept@) == head + unbound(rest.take(i - from), context, command),
            decreases self.bindings.len() - i,
        {
            let ghost done = rest.take(i - from);
            assert(rest[i - from] == self.bindings@[i as int]@);
            assert(rest.take(i + 1 - from).drop_last() =~= done);
            assert(rest.take(i + 1 - from).last() == rest[i - from]);
            if !(self.bindings[i].context == context && self.bindings[i].command == command) {
                let ghost before = bindings_view(kept@);
                let b = Binding {
                    context: self.bindings[i].context,
                    seq: self.bindings[i].seq.clone(),
                    command: self.bindings[i].command,
                };
                kept.push(b);
                assert(b@ =~= rest[i - from]);
                assert(bindings_view(kept@) =~= before.push(b@));
                assert(before.push(b@) =~= head + unbound(done, context, command).push(b@));
            }
            i = i + 1;
        }
        assert(rest.take(i - from) =~= rest);
        self.bindings = kept;
    }

    /// Finds two bindings sharing the exact same sequence in one context;
    /// such a pair would make the loser silently unreachable, so config
    /// loading treats it as an error.
    pub fn duplicate(&self) -> (r: Option<(Context, &KeySeq, CommandId, CommandId)>)
        ensures
            match r {
                Some((context, seq, first, second)) => first_clash(self@, 0) matches Some((i, j))
                    && 0 <= i < j < self@.len() && clash(self@[i], self@[j]) && self@[i] == (
                BindingV { context, seq: seq@, command: first }) && self@[j].command == second,
                None => first_clash(self@, 0) is None,
            },
    {
        let ghost bs = self@;
        let mut i: usize = 0;
        while i < self.bindings.len()
            invariant
                i <= self.bindings.len(),
                bs == bindings_view(self.bindings@),
                bs == self@,
                first_clash(bs, 0) == first_clash(bs, i as int),
            decreases self.bindings.len() - i,
        {
            let mut j: usize = i + 1;
            while j < self.bindings.len()
                invariant
                    i < j <= self.bindings.len(),
                    bs == bindings_view(self.bindings@),
                    bs == self@,
                    first_clash(bs, 0) == first_clash(bs, i as int),
                    clash_with(bs, i as int, i + 1) == clash_with(bs, i as int, j as int),
                decreases self.bindings.len() - j,
            {
                let first = &self.bindings[i];
                let second = &self.bindings[j];
                assert(bs[i as int] == first@ && bs[j as int] == second@);
                if first.context == second.context && same_seq(&first.seq, &second.seq) {
                    assert(clash(self@[i as int], self@[j as int]));
                    return Some((first.context, &first.seq, first.command, second.command));
                }
                j = j + 1;
            }
            i = i + 1;
        }
        None
    }

    /// Describes bindings that can never fire because another binding in
    /// the same context is a strict prefix of theirs (exact matches win
    /// over prefix waiting, so the shorter sequence always fires first).
    pub fn shadow_warnings(&self) -> (r: Vec<String>)
        ensures
            crate::text::texts(r@) == warnings(self@, self@.len() as int),
    {
        let ghost bs = self@;
        let mut r: Vec<String> = Vec::new();
        let mut i: usize = 0;
        assert(crate::text::texts(r@) =~= seq![]);
        while i < self.bindings.len()
            invariant
                i <= self.bindings.len(),
                bs == bindings_view(self.bindings@),
                crate::text::texts(r@) == warnings(bs, i as int),
            decreases self.bindings.len() - i,
        {
            let ghost before = crate::text::texts(r@);
            let shadowed = &self.bindings[i];
            assert(bs[i as int] == shadowed@);
            let mut j: usize = 0;
            assert(before + warnings_about(bs, bs[i as int], 0) =~= before);
            while j < self.bindings.len()
                invariant
                    j <= self.bindings.len(),
                    bs == bindings_view(self.bindings@),
                    shadowed@ == bs[i as int],
                    crate::text::texts(r@) == before + warnings_about(bs, bs[i as int], j as int),
                decreases self.bindings.len() - j,
            {
                let shorter = &self.bindings[j];
                assert(bs[j as int] == shorter@);
                if shorter.context == shadowed.context && shorter.seq.as_slice().len()
                    < shadowed.seq.as_slice().len() && shadowed.seq.starts_with(
                    shorter.seq.as_slice(),
                ) {
                    let ghost held = crate::text::texts(r@);
                    let mut line = crate::text::concat5(
                        "warning: \"",
                        keyspec::format_seq(&shorter.seq).as_str(),
                        "\" shadows \"",
                        keyspec::format_seq(&shadowed.seq).as_str(),
                        "\" (",
                    );
                    line.append(shadowed.command.as_str());
                    line.append(")");
                    assert(line@ =~= shadow_warning(bs[j as int], bs[i as int]));
                    r.push(line);
                    assert(crate::text::texts(r@) =~= held.push(line@));
                    assert(held.push(line@) =~= before + warnings_about(
                        bs,
                        bs[i as int],
                        j as int,
                    ).push(line@));
                }
                j = j + 1;
            }
            i = i + 1;
        }
        r
    }
}

/// What is bound early stays first.
proof fn lemma_bound_prefix(bs: Seq<BindingV>, context: Context, command: CommandId, n: int)
    requires
        0 <= n <= bs.len(),
        bound(bs.take(n), context, command).len() > 0,
    ensures
        bound(bs, context, command).len() > 0,
        bound(bs, context, command)[0] == bound(bs.take(n), context, command)[0],
    decreases bs.len() - n,
{
    if n == bs.len() {
        assert(bs.take(n) =~= bs);
    } else {
        assert(bs.take(n + 1).drop_last() =~= bs.take(n));
        lemma_bound_prefix(bs, context, command, n + 1);
    }
}

pub open spec fn chars_binding(context: Context, keys: Seq<char>, command: CommandId) -> BindingV {
    BindingV { context, seq: key::char_keys(keys), command }
}

pub open spec fn key_binding(context: Context, key: Key, command: CommandId) -> BindingV {
    BindingV { context, seq: seq![key], command }
}

fn bind_chars(context: Context, keys: &str, command: CommandId) -> (r: Binding)
    ensures
        r@ == chars_binding(context, keys@, command),
{
    Binding { context, seq: KeySeq::chars(keys), command }
}

fn bind_key(context: Context, key: Key, command: CommandId) -> (r: Binding)
    ensures
        r@ == key_binding(context, key, command),
{
    Binding { context, seq: KeySeq::from(key), command }
}

/// The bindings in force without any configuration.
pub open spec fn default_bindings() -> Seq<BindingV> {
    default_part_a() + default_part_b() + default_part_c() + default_part_d() + default_part_e()
}

pub open spec fn default_part_a() -> Seq<BindingV> {
    seq![
        chars_binding(Context::Tree, "q"@, CommandId::Quit),
        chars_binding(Context::Tree, "j"@, CommandId::SelectNext),
        chars_binding(Context::Tree, "k"@, CommandId::SelectPrev),
        key_binding(Context::Tree, Key::Down, CommandId::SelectNext),
        key_binding(Context::Tree, Key::Up, CommandId::SelectPrev),
        chars_binding(Context::Tree, "gg"@, CommandId::SelectFirst),
        chars_binding(Context::Tree, "ge"@, CommandId::SelectLast),
        key_binding(Context::Tree, Key::Ctrl('d'), CommandId::HalfPageDown),
        key_binding(Context::Tree, Key::Ctrl('u'), CommandId::HalfPageUp),
        chars_binding(Context::Tree, "n"@, CommandId::CreateTask),
        chars_binding(Context::Tree, "N"@, CommandId::CreateChild),
        chars_binding(Context::Tree, "r"@, CommandId::RenameTask),
        chars_binding(Context::Tree, "s"@, CommandId::SetStatus),
        chars_binding(Context::Tree, "t"@, CommandId::SetDue),
        chars_binding(Context::Tree, "e"@, CommandId::EditNote),
        chars_binding(Context::Tree, "J"@, CommandId::StatusNext),
    ]
}

pub open spec fn default_part_b() -> Seq<BindingV> {
    seq![
        chars_binding(Context::Tree, "K"@, CommandId::StatusPrev),
        key_binding(Context::Tree, Key::Tab, CommandId::ToggleExpand),
        key_binding(Context::Tree, Key::Ctrl('k'), CommandId::TaskMoveUp),
        key_binding(Context::Tree, Key::Ctrl('j'), CommandId::TaskMoveDown),
        chars_binding(Context::Tree, ">"@, CommandId::TaskIndent),
        chars_binding(Context::Tree, "<"@, CommandId::TaskOutdent),
        chars_binding(Context::Tree, "D"@, CommandId::TaskDelete),
        chars_binding(Context::Tree, "u"@, CommandId::Undo),
        chars_binding(Context::Tree, "U"@, CommandId::Redo),
        key_binding(Context::StatusSelect, Key::Esc, CommandId::StatusCancel),
        chars_binding(Context::Tree, "/"@, CommandId::ViewSearch),
        chars_binding(Context::Tree, "f"@, CommandId::ViewFilter),
        chars_binding(Context::Query, "j"@, CommandId::QueryNext),
        chars_binding(Context::Query, "k"@, CommandId::QueryPrev),
        key_binding(Context::Query, Key::Down, CommandId::QueryNext),
        key_binding(Context::Query, Key::Up, CommandId::QueryPrev),
    ]
}

pub open spec fn default_part_c() -> Seq<BindingV> {
    seq![
        chars_binding(Context::Query, "gg"@, CommandId::QueryFirst),
        chars_binding(Context::Query, "ge"@, CommandId::QueryLast),
        key_binding(Context::Query, Key::Ctrl('d'), CommandId::QueryHalfPageDown),
        key_binding(Context::Query, Key::Ctrl('u'), CommandId::QueryHalfPageUp),
        chars_binding(Context::Query, "/"@, CommandId::QueryEdit),
        chars_binding(Context::Query, ","@, CommandId::QuerySort),
        chars_binding(Context::Query, "f"@, CommandId::ViewFilter),
        key_binding(Context::Query, Key::Enter, CommandId::QueryJump),
        chars_binding(Context::Query, "q"@, CommandId::QueryClose),
        key_binding(Context::Query, Key::Esc, CommandId::QueryClose),
        key_binding(Context::FilterSelect, Key::Esc, CommandId::FilterCancel),
        key_binding(Context::SortSelect, Key::Esc, CommandId::SortCancel),
        chars_binding(Context::Tree, "h"@, CommandId::SelectParent),
        chars_binding(Context::Tree, "l"@, CommandId::SelectFirstChild),
        chars_binding(Context::Tree, "L"@, CommandId::ZoomIn),
        chars_binding(Context::Tree, "H"@, CommandId::ZoomOut),
    ]
}

pub open spec fn default_part_d() -> Seq<BindingV> {
    seq![
        chars_binding(Context::Tree, "S"@, CommandId::StatusManage),
        chars_binding(Context::StatusManage, "j"@, CommandId::ManageRowNext),
        chars_binding(Context::StatusManage, "k"@, CommandId::ManageRowPrev),
        key_binding(Context::StatusManage, Key::Down, CommandId::ManageRowNext),
        key_binding(Context::StatusManage, Key::Up, CommandId::ManageRowPrev),
        chars_binding(Context::StatusManage, "h"@, CommandId::ManageColPrev),
        chars_binding(Context::StatusManage, "l"@, CommandId::ManageColNext),
        key_binding(Context::StatusManage, Key::Enter, CommandId::ManageEdit),
        chars_binding(Context::StatusManage, "n"@, CommandId::ManageAdd),
        chars_binding(Context::StatusManage, "D"@, CommandId::ManageDelete),
        key_binding(Context::StatusManage, Key::Ctrl('j'), CommandId::ManageMoveDown),
        key_binding(Context::StatusManage, Key::Ctrl('k'), CommandId::ManageMoveUp),
        chars_binding(Context::StatusManage, "*"@, CommandId::ManageSetDefault),
        chars_binding(Context::StatusManage, "u"@, CommandId::ManageUndo),
        chars_binding(Context::StatusManage, "U"@, CommandId::ManageRedo),
        chars_binding(Context::StatusManage, "q"@, CommandId::ManageClose),
    ]
}

pub open spec fn default_part_e() -> Seq<BindingV> {
    seq![
        key_binding(Context::StatusManage, Key::Esc, CommandId::ManageClose),
        chars_binding(Context::Tree, "?"@, CommandId::Help),
        chars_binding(Context::Tree, "\\"@, CommandId::ToggleFooter),
        chars_binding(Context::Help, "j"@, CommandId::HelpNext),
        chars_binding(Context::Help, "k"@, CommandId::HelpPrev),
        key_binding(Context::Help, Key::Down, CommandId::HelpNext),
        key_binding(Context::Help, Key::Up, CommandId::HelpPrev),
        chars_binding(Context::Help, "gg"@, CommandId::HelpFirst),
        chars_binding(Context::Help, "ge"@, CommandId::HelpLast),
        key_binding(Context::Help, Key::Ctrl('d'), CommandId::HelpHalfPageDown),
        key_binding(Context::Help, Key::Ctrl('u'), CommandId::HelpHalfPageUp),
        chars_binding(Context::Help, "/"@, CommandId::HelpFilter),
        chars_binding(Context::Help, "q"@, CommandId::HelpClose),
        key_binding(Context::Help, Key::Esc, CommandId::HelpClose),
        key_binding(Context::Input, Key::Enter, CommandId::InputConfirm),
        key_binding(Context::Input, Key::Esc, CommandId::InputCancel),
    ]
}

fn push_default_a(r: &mut Vec<Binding>)
    ensures
        bindings_view(final(r)@) == bindings_view(old(r)@) + default_part_a(),
{
    r.push(bind_chars(Context::Tree, "q", CommandId::Quit));
    r.push(bind_chars(Context::Tree, "j", CommandId::SelectNext));
    r.push(bind_chars(Context::Tree, "k", CommandId::SelectPrev));
    r.push(bind_key(Context::Tree, Key::Down, CommandId::SelectNext));
    r.push(bind_key(Context::Tree, Key::Up, CommandId::SelectPrev));
    r.push(bind_chars(Context::Tree, "gg", CommandId::SelectFirst));
    r.push(bind_chars(Context::Tree, "ge", CommandId::SelectLast));
    r.push(bind_key(Context::Tree, Key::Ctrl('d'), CommandId::HalfPageDown));
    r.push(bind_key(Context::Tree, Key::Ctrl('u'), CommandId::HalfPageUp));
    r.push(bind_chars(Context::Tree, "n", CommandId::CreateTask));
    r.push(bind_chars(Context::Tree, "N", CommandId::CreateChild));
    r.push(bind_chars(Context::Tree, "r", CommandId::RenameTask));
    r.push(bind_chars(Context::Tree, "s", CommandId::SetStatus));
    r.push(bind_chars(Context::Tree, "t", CommandId::SetDue));
    r.push(bind_chars(Context::Tree, "e", CommandId::EditNote));
    r.push(bind_chars(Context::Tree, "J", CommandId::StatusNext));
    assert(bindings_view(r@) =~= bindings_view(old(r)@) + default_part_a());
}

fn push_default_b(r: &mut Vec<Binding>)
    ensures
        bindings_view(final(r)@) == bindings_view(old(r)@) + default_part_b(),
{
    r.push(bind_chars(Context::Tree, "K", CommandId::StatusPrev));
    r.push(bind_key(Context::Tree, Key::Tab, CommandId::ToggleExpand));
    r.push(bind_key(Context::Tree, Key::Ctrl('k'), CommandId::TaskMoveUp));
    r.push(bind_key(Context::Tree, Key::Ctrl('j'), CommandId::TaskMoveDown));
    r.push(bind_chars(Context::Tree, ">", CommandId::TaskIndent));
    r.push(bind_chars(Context::Tree, "<", CommandId::TaskOutdent));
    r.push(bind_chars(Context::Tree, "D", CommandId::TaskDelete));
    r.push(bind_chars(Context::Tree, "u", CommandId::Undo));
    r.push(bind_chars(Context::Tree, "U", CommandId::Redo));
    r.push(bind_key(Context::StatusSelect, Key::Esc, CommandId::StatusCancel));
    r.push(bind_chars(Context::Tree, "/", CommandId::ViewSearch));
    r.push(bind_chars(Context::Tree, "f", CommandId::ViewFilter));
    r.push(bind_chars(Context::Query, "j", CommandId::QueryNext));
    r.push(bind_chars(Context::Query, "k", CommandId::QueryPrev));
    r.push(bind_key(Context::Query, Key::Down, CommandId::QueryNext));
    r.push(bind_key(Context::Query, Key::Up, CommandId::QueryPrev));
    assert(bindings_view(r@) =~= bindings_view(old(r)@) + default_part_b());
}

fn push_default_c(r: &mut Vec<Binding>)
    ensures
        bindings_view(final(r)@) == bindings_view(old(r)@) + default_part_c(),
{
    r.push(bind_chars(Context::Query, "gg", CommandId::QueryFirst));
    r.push(bind_chars(Context::Query, "ge", CommandId::QueryLast));
    r.push(bind_key(Context::Query, Key::Ctrl('d'), CommandId::QueryHalfPageDown));
    r.push(bind_key(Context::Query, Key::Ctrl('u'), CommandId::QueryHalfPageUp));
    r.push(bind_chars(Context::Query, "/", CommandId::QueryEdit));
    r.push(bind_chars(Context::Query, ",", CommandId::QuerySort));
    r.push(bind_chars(Context::Query, "f", CommandId::ViewFilter));
    r.push(bind_key(Context::Query, Key::Enter, CommandId::QueryJump));
    r.push(bind_chars(Context::Query, "q", CommandId::QueryClose));
    r.push(bind_key(Context::Query, Key::Esc, CommandId::QueryClose));
    r.push(bind_key(Context::FilterSelect, Key::Esc, CommandId::FilterCancel));
    r.push(bind_key(Context::SortSelect, Key::Esc, CommandId::SortCancel));
    r.push(bind_chars(Context::Tree, "h", CommandId::SelectParent));
    r.push(bind_chars(Context::Tree, "l", CommandId::SelectFirstChild));
    r.push(bind_chars(Context::Tree, "L", CommandId::ZoomIn));
    r.push(bind_chars(Context::Tree, "H", CommandId::ZoomOut));
    assert(bindings_view(r@) =~= bindings_view(old(r)@) + default_part_c());
}

fn push_default_d(r: &mut Vec<Binding>)
    ensures
        bindings_view(final(r)@) == bindings_view(old(r)@) + default_part_d(),
{
    r.push(bind_chars(Context::Tree, "S", CommandId::StatusManage));
    r.push(bind_chars(Context::StatusManage, "j", CommandId::ManageRowNext));
    r.push(bind_chars(Context::StatusManage, "k", CommandId::ManageRowPrev));
    r.push(bind_key(Context::StatusManage, Key::Down, CommandId::ManageRowNext));
    r.push(bind_key(Context::StatusManage, Key::Up, CommandId::ManageRowPrev));
    r.push(bind_chars(Context::StatusManage, "h", CommandId::ManageColPrev));
    r.push(bind_chars(Context::StatusManage, "l", CommandId::ManageColNext));
    r.push(bind_key(Context::StatusManage, Key::Enter, CommandId::ManageEdit));
    r.push(bind_chars(Context::StatusManage, "n", CommandId::ManageAdd));
    r.push(bind_chars(Context::StatusManage, "D", CommandId::ManageDelete));
    r.push(bind_key(Context::StatusManage, Key::Ctrl('j'), CommandId::ManageMoveDown));
    r.push(bind_key(Context::StatusManage, Key::Ctrl('k'), CommandId::ManageMoveUp));
    r.push(bind_chars(Context::StatusManage, "*", CommandId::ManageSetDefault));
    r.push(bind_chars(Context::StatusManage, "u", CommandId::ManageUndo));
    r.push(bind_chars(Context::StatusManage, "U", CommandId::ManageRedo));
    r.push(bind_chars(Context::StatusManage, "q", CommandId::ManageClose));
    assert(bindings_view(r@) =~= bindings_view(old(r)@) + default_part_d());
}

fn push_default_e(r: &mut Vec<Binding>)
    ensures
        bindings_view(final(r)@) == bindings_view(old(r)@) + default_part_e(),
{
    r.push(bind_key(Context::StatusManage, Key::Esc, CommandId::ManageClose));
    r.push(bind_chars(Context::Tree, "?", CommandId::Help));
    r.push(bind_chars(Context::Tree, "\\", CommandId::ToggleFooter));
    r.push(bind_chars(Context::Help, "j", CommandId::HelpNext));
    r.push(bind_chars(Context::Help, "k", CommandId::HelpPrev));
    r.push(bind_key(Context::Help, Key::Down, CommandId::HelpNext));
    r.push(bind_key(Context::Help, Key::Up, CommandId::HelpPrev));
    r.push(bind_chars(Context::Help, "gg", CommandId::HelpFirst));
    r.push(bind_chars(Context::Help, "ge", CommandId::HelpLast));
    r.push(bind_key(Context::Help, Key::Ctrl('d'), CommandId::HelpHalfPageDown));
    r.push(bind_key(Context::Help, Key::Ctrl('u'), CommandId::HelpHalfPageUp));
    r.push(bind_chars(Context::Help, "/", CommandId::HelpFilter));
    r.push(bind_chars(Context::Help, "q", CommandId::HelpClose));
    r.push(bind_key(Context::Help, Key::Esc, CommandId::HelpClose));
    r.push(bind_key(Context::Input, Key::Enter, CommandId::InputConfirm));
    r.push(bind_key(Context::Input, Key::Esc, CommandId::InputCancel));
    assert(bindings_view(r@) =~= bindings_view(old(r)@) + default_part_e());
}

impl Default for Keymap {
    /// Ctrl instead of Alt chords move tasks: terminal multiplexers swallow
    /// Alt+hjkl for pane focus, so Alt bindings never reach the app there.
    /// `q` is listed before Esc so the footer, which shows the first
    /// binding, advertises the single-letter key.
    fn default() -> (r: Self)
        ensures
            r@ == default_bindings(),
    {
        let mut bindings: Vec<Binding> = Vec::new();
        push_default_a(&mut bindings);
        push_default_b(&mut bindings);
        push_default_c(&mut bindings);
        push_default_d(&mut bindings);
        push_default_e(&mut bindings);
        assert(bindings_view(bindings@) =~= default_bindings());
        Keymap { bindings }
    }
}

/// Accumulates keys until they resolve to a command. A full match fires and
/// resets; a prefix waits for more keys (no timeout); a mismatch drops the
/// whole pending sequence including the offending key.
pub struct Dispatcher {
    pending: Vec<Key>,
}

impl View for Dispatcher {
    type V = Seq<Key>;

    closed spec fn view(&self) -> Seq<Key> {
        self.pending@
    }
}

impl Default for Dispatcher {
    fn default() -> (r: Self)
        ensures
            r@ == Seq::<Key>::empty(),
    {
        Dispatcher { pending: Vec::new() }
    }
}

/// The pending keys and the command after one more key.
pub open spec fn dispatched(
    pending: Seq<Key>,
    bs: Seq<BindingV>,
    context: Context,
    key: Key,
) -> (Seq<Key>, Option<CommandId>) {
    let keys = pending.push(key);
    match looked_up(bs, context, keys) {
        Lookup::Match(command) => (seq![], Some(command)),
        Lookup::Prefix => (keys, None),
        Lookup::Miss => (seq![], None),
    }
}

impl Dispatcher {
    pub fn key(&mut self, keymap: &Keymap, context: Context, key: Key) -> (r: Option<CommandId>)
        ensures
            (final(self)@, r) == dispatched(old(self)@, keymap@, context, key),
    {
        self.pending.push(key);
        match keymap.lookup(context, self.pending.as_slice()) {
            Lookup::Match(command) => {
                self.pending.clear();
                Some(command)
            },
            Lookup::Prefix => None,
            Lookup::Miss => {
                self.pending.clear();
                None
            },
        }
    }
}

/// Keys only stay pending while some binding could still be completed by
/// them.
pub proof fn pending_keys_can_complete(
    pending: Seq<Key>,
    bs: Seq<BindingV>,
    context: Context,
    key: Key,
)
    ensures
        ({
            let kept = dispatched(pending, bs, context, key).0;
            kept.len() > 0 ==> exists|i: int|
                0 <= i < bs.len() && #[trigger] extends(bs[i], context, kept) && bs[i].seq != kept
        }),
{
    let keys = pending.push(key);
    let kept = dispatched(pending, bs, context, key).0;
    if kept.len() > 0 {
        let i = choose|i: int| 0 <= i < bs.len() && extends(#[trigger] bs[i], context, keys);
        lemma_not_exact(bs, context, keys, i);
        assert(extends(bs[i], context, kept));
    }
}

proof fn lemma_not_exact(bs: Seq<BindingV>, context: Context, keys: Seq<Key>, i: int)
    requires
        exact(bs, context, keys) is None,
        0 <= i < bs.len(),
        bs[i].context == context,
    ensures
        bs[i].seq != keys,
    decreases bs.len(),
{
    if i > 0 {
        assert(bs.drop_first()[i - 1] == bs[i]);
        lemma_not_exact(bs.drop_first(), context, keys, i - 1);
    }
}

/// The keys pending after typing some from nothing.
pub open spec fn typed(bs: Seq<BindingV>, context: Context, keys: Seq<Key>) -> Seq<Key>
    decreases keys.len(),
{
    if keys.len() == 0 {
        seq![]
    } else {
        dispatched(typed(bs, context, keys.drop_last()), bs, context, keys.last()).0
    }
}

/// No bound sequence stays pending, nor one that starts with it.
proof fn lemma_pending_unbound(bs: Seq<BindingV>, context: Context, keys: Seq<Key>, i: int)
    requires
        0 <= i < bs.len(),
        bs[i].context == context,
        bs[i].seq.len() > 0,
    ensures
        !bs[i].seq.is_prefix_of(typed(bs, context, keys)),
    decreases keys.len(),
{
    if keys.len() > 0 {
        let before = typed(bs, context, keys.drop_last());
        let after = typed(bs, context, keys);
        let s = bs[i].seq;
        lemma_pending_unbound(bs, context, keys.drop_last(), i);
        if after.len() > 0 && s.is_prefix_of(after) {
            assert(after == before.push(keys.last()));
            lemma_not_exact(bs, context, after, i);
            if s.len() == after.len() {
                assert(s =~= after);
            } else {
                assert(s =~= before.subrange(0, s.len() as int));
            }
        }
    }
}

/// Whatever was typed before, no key completes a shadowed binding: the
/// shorter one has fired by then.
pub proof fn a_shadowed_binding_never_fires(
    bs: Seq<BindingV>,
    keys: Seq<Key>,
    key: Key,
    i: int,
    j: int,
)
    requires
        0 <= i < bs.len(),
        0 <= j < bs.len(),
        bs[i].seq.len() > 0,
        shadows(bs[i], bs[j]),
    ensures
        typed(bs, bs[i].context, keys).push(key) != bs[j].seq,
{
    let pending = typed(bs, bs[i].context, keys);
    let s = bs[i].seq;
    lemma_pending_unbound(bs, bs[i].context, keys, i);
    if pending.push(key) == bs[j].seq {
        assert(s =~= pending.subrange(0, s.len() as int));
    }
}

/// After rebinding, a command has exactly the new sequences in its context.
pub proof fn rebinding_replaces_the_bindings(
    bs: Seq<BindingV>,
    context: Context,
    command: CommandId,
    seqs: Seq<Seq<Key>>,
)
    ensures
        bound(rebound(bs, context, command, seqs), context, command) == seqs,
{
    let p = first_bound(bs, context, command);
    let new = bindings_of(context, command, seqs);
    let rest = unbound(bs.skip(p), context, command);
    lemma_first_bound(bs, context, command);
    lemma_unbound_has_none(bs.skip(p), context, command);
    lemma_bound_none(bs.take(p), context, command);
    lemma_bound_none(rest, context, command);
    lemma_bound_all(context, command, seqs);
    lemma_bound_concat(bs.take(p), new, context, command);
    lemma_bound_concat(bs.take(p) + new, rest, context, command);
    assert(bound(rebound(bs, context, command, seqs), context, command) =~= seqs);
}

/// Rebinding a command leaves the bindings of every other command as they
/// are.
pub proof fn rebinding_keeps_the_others(
    bs: Seq<BindingV>,
    context: Context,
    command: CommandId,
    seqs: Seq<Seq<Key>>,
    context2: Context,
    command2: CommandId,
)
    requires
        context != context2 || command != command2,
    ensures
        bound(rebound(bs, context, command, seqs), context2, command2) == bound(
            bs,
            context2,
            command2,
        ),
{
    let p = first_bound(bs, context, command);
    let new = bindings_of(context, command, seqs);
    let tail = bs.skip(p);
    let rest = unbound(tail, context, command);
    lemma_first_bound(bs, context, command);
    lemma_bound_concat(bs.take(p), new, context2, command2);
    lemma_bound_concat(bs.take(p) + new, rest, context2, command2);
    lemma_bound_concat(bs.take(p), tail, context2, command2);
    assert(bs.take(p) + tail =~= bs);
    lemma_bound_none(new, context2, command2);
    lemma_unbound_keeps(tail, context, command, context2, command2);
    assert(bound(bs.take(p), context2, command2) + Seq::<Seq<Key>>::empty() =~= bound(
        bs.take(p),
        context2,
        command2,
    ));
}

proof fn lemma_first_bound(bs: Seq<BindingV>, context: Context, command: CommandId)
    ensures
        0 <= first_bound(bs, context, command) <= bs.len(),
        forall|i: int|
            0 <= i < first_bound(bs, context, command) ==> !binds(
                #[trigger] bs[i],
                context,
                command,
            ),
    decreases bs.len(),
{
    if bs.len() > 0 && !binds(bs[0], context, command) {
        let rest = bs.drop_first();
        lemma_first_bound(rest, context, command);
        assert forall|i: int| 0 <= i < first_bound(bs, context, command) implies !binds(
            #[trigger] bs[i],
            context,
            command,
        ) by {
            if i > 0 {
                assert(rest[i - 1] == bs[i]);
            }
        }
    }
}

proof fn lemma_unbound_has_none(bs: Seq<BindingV>, context: Context, command: CommandId)
    ensures
        forall|i: int|
            0 <= i < unbound(bs, context, command).len() ==> !binds(
                #[trigger] unbound(bs, context, command)[i],
                context,
                command,
            ),
    decreases bs.len(),
{
    if bs.len() > 0 {
        let front = unbound(bs.drop_last(), context, command);
        let all = unbound(bs, context, command);
        lemma_unbound_has_none(bs.drop_last(), context, command);
        assert forall|i: int| 0 <= i < all.len() implies !binds(
            #[trigger] all[i],
            context,
            command,
        ) by {
            if i < front.len() {
                assert(all[i] == front[i]);
            }
        }
    }
}

proof fn lemma_bound_none(bs: Seq<BindingV>, context: Context, command: CommandId)
    requires
        forall|i: int| 0 <= i < bs.len() ==> !binds(#[trigger] bs[i], context, command),
    ensures
        bound(bs, context, command) == Seq::<Seq<Key>>::empty(),
    decreases bs.len(),
{
    if bs.len() > 0 {
        assert forall|i: int| 0 <= i < bs.drop_last().len() implies !binds(
            #[trigger] bs.drop_last()[i],
            context,
            command,
        ) by {
            assert(bs.drop_last()[i] == bs[i]);
        }
        lemma_bound_none(bs.drop_last(), context, command);
        assert(!binds(bs[bs.len() - 1], context, command));
    }
}

proof fn lemma_bound_all(context: Context, command: CommandId, seqs: Seq<Seq<Key>>)
    ensures
        bound(bindings_of(context, command, seqs), context, command) == seqs,
    decreases seqs.len(),
{
    let new = bindings_of(context, command, seqs);
    if seqs.len() == 0 {
        assert(seqs =~= seq![]);
    } else {
        lemma_bound_all(context, command, seqs.drop_last());
        assert(new.drop_last() =~= bindings_of(context, command, seqs.drop_last()));
        assert(seqs.drop_last().push(seqs.last()) =~= seqs);
    }
}

proof fn lemma_bound_concat(
    a: Seq<BindingV>,
    b: Seq<BindingV>,
    context: Context,
    command: CommandId,
)
    ensures
        bound(a + b, context, command) == bound(a, context, command) + bound(b, context, command),
    decreases b.len(),
{
    if b.len() == 0 {
        assert(a + b =~= a);
        assert(bound(a, context, command) + bound(b, context, command) =~= bound(
            a,
            context,
            command,
        ));
    } else {
        assert((a + b).drop_last() =~= a + b.drop_last());
        lemma_bound_concat(a, b.drop_last(), context, command);
        assert(bound(a + b, context, command) =~= bound(a, context, command) + bound(
            b,
            context,
            command,
        ));
    }
}

proof fn lemma_unbound_keeps(
    bs: Seq<BindingV>,
    context: Context,
    command: CommandId,
    context2: Context,
    command2: CommandId,
)
    requires
        context != context2 || command != command2,
    ensures
        bound(unbound(bs, context, command), context2, command2) == bound(bs, context2, command2),
    decreases bs.len(),
{
    if bs.len() > 0 {
        let front = unbound(bs.drop_last(), context, command);
        lemma_unbound_keeps(bs.drop_last(), context, command, context2, command2);
        assert(front.push(bs.last()).drop_last() =~= front);
    }
}

/// Where no clash is found, no two bindings share a context and sequence.
pub proof fn without_clash_sequences_are_unique(bs: Seq<BindingV>, a: int, b: int)
    requires
        first_clash(bs, 0) is None,
        0 <= a < b < bs.len(),
    ensures
        !clash(bs[a], bs[b]),
{
    lemma_no_clash(bs, 0, a, b);
}

proof fn lemma_no_clash(bs: Seq<BindingV>, i: int, a: int, b: int)
    requires
        first_clash(bs, i) is None,
        0 <= i <= a < b < bs.len(),
    ensures
        !clash(bs[a], bs[b]),
    decreases a - i,
{
    if i == a {
        lemma_no_clash_with(bs, a, a + 1, b);
    } else {
        lemma_no_clash(bs, i + 1, a, b);
    }
}

proof fn lemma_no_clash_with(bs: Seq<BindingV>, i: int, j: int, b: int)
    requires
        clash_with(bs, i, j) is None,
        j <= b < bs.len(),
    ensures
        !clash(bs[i], bs[b]),
    decreases b - j,
{
    if j < b {
        lemma_no_clash_with(bs, i, j + 1, b);
    }
}

} // verus!
