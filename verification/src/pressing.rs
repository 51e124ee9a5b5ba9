//! What pressed keys do and what the settings change, told from the bindings
//! and the settings themselves.
use vstd::prelude::*;

use crate::command;
use crate::command::{CommandId, CommandV, Context};
use crate::config;
use crate::config::{ConfigFile, ConfigV, ErrorV, KeySpecs, Overrides};
use crate::defaults;
use crate::finding;
use crate::help;
use crate::help::HelpLineV;
use crate::key;
use crate::key::{Key, KeyCode, KeyEvent};
use crate::keymap;
use crate::keymap::BindingV;
use crate::keyspec;
use crate::text;

verus! {

/// The keys are the first ones of a longer sequence.
pub open spec fn starts_off(keys: Seq<Key>, seq: Seq<Key>) -> bool {
    &&& keys.len() < seq.len()
    &&& forall|k: int| 0 <= k < keys.len() ==> #[trigger] seq[k] == keys[k]
}

/// No sequence is bound twice in a context.
pub open spec fn bound_once(bs: Seq<BindingV>) -> bool {
    forall|i: int, j: int|
        0 <= i < j < bs.len() && bs[i].context == bs[j].context ==> bs[i].seq != bs[j].seq
}

proof fn lemma_exact(bs: Seq<BindingV>, context: Context, keys: Seq<Key>, i: int)
    requires
        bound_once(bs),
        0 <= i < bs.len(),
        bs[i].context == context,
        bs[i].seq == keys,
    ensures
        keymap::exact(bs, context, keys) == Some(bs[i].command),
    decreases bs.len(),
{
    if i > 0 {
        let rest = bs.drop_first();
        assert(rest[i - 1] == bs[i]);
        assert forall|a: int, b: int|
            0 <= a < b < rest.len() && rest[a].context == rest[b].context implies rest[a].seq
            != rest[b].seq by {
            assert(rest[a] == bs[a + 1] && rest[b] == bs[b + 1]);
        }
        lemma_exact(rest, context, keys, i - 1);
    }
}

proof fn lemma_no_exact(bs: Seq<BindingV>, context: Context, keys: Seq<Key>)
    requires
        forall|i: int|
            0 <= i < bs.len() && (#[trigger] bs[i]).context == context ==> bs[i].seq != keys,
    ensures
        keymap::exact(bs, context, keys) is None,
    decreases bs.len(),
{
    if bs.len() > 0 {
        let rest = bs.drop_first();
        assert forall|i: int|
            0 <= i < rest.len() && (#[trigger] rest[i]).context == context implies rest[i].seq
            != keys by {
            assert(rest[i] == bs[i + 1]);
        }
        lemma_no_exact(rest, context, keys);
    }
}

/// One more key completes the sequence bound to a command, and the command
/// is run; or it goes on towards some longer sequence, and the keys wait for
/// the rest; or it does neither, and all keys are dropped. Bindings of other
/// contexts play no part.
pub proof fn a_bound_sequence_runs_its_command(
    pending: Seq<Key>,
    bs: Seq<BindingV>,
    context: Context,
    pressed: Key,
)
    requires
        bound_once(bs),
    ensures
        ({
            let keys = pending.push(pressed);
            let (left, run) = keymap::dispatched(pending, bs, context, pressed);
            let complete = exists|i: int|
                0 <= i < bs.len() && (#[trigger] bs[i]).context == context && bs[i].seq == keys;
            let begun = exists|i: int|
                0 <= i < bs.len() && (#[trigger] bs[i]).context == context && starts_off(
                    keys,
                    bs[i].seq,
                );
            &&& forall|i: int|
                0 <= i < bs.len() && (#[trigger] bs[i]).context == context && bs[i].seq == keys
                    ==> run == Some(bs[i].command) && left.len() == 0
            &&& !complete ==> run is None
            &&& !complete && begun ==> left == keys
            &&& !complete && !begun ==> left.len() == 0
        }),
{
    let keys = pending.push(pressed);
    let (left, run) = keymap::dispatched(pending, bs, context, pressed);
    assert forall|i: int|
        0 <= i < bs.len() && (#[trigger] bs[i]).context == context && bs[i].seq
            == keys implies run == Some(bs[i].command) && left.len() == 0 by {
        lemma_exact(bs, context, keys, i);
    }
    if forall|i: int|
        0 <= i < bs.len() && (#[trigger] bs[i]).context == context ==> bs[i].seq != keys {
        lemma_no_exact(bs, context, keys);
        assert forall|i: int| 0 <= i < bs.len() implies (keymap::extends(
            #[trigger] bs[i],
            context,
            keys,
        ) <==> bs[i].context == context && starts_off(keys, bs[i].seq)) by {
            let s = bs[i].seq;
            if keymap::extends(bs[i], context, keys) {
                assert(keys =~= s.subrange(0, keys.len() as int));
                assert forall|k: int| 0 <= k < keys.len() implies #[trigger] s[k] == keys[k] by {
                    assert(s.subrange(0, keys.len() as int)[k] == s[k]);
                }
                if keys.len() == s.len() {
                    assert(s =~= keys);
                }
            }
            if starts_off(keys, s) {
                assert(keys =~= s.subrange(0, keys.len() as int));
            }
        }
    }
}

/// The sequences of a command are those bound to it in its context, in the
/// order of the bindings.
pub proof fn a_command_has_the_sequences_bound_to_it(
    bs: Seq<BindingV>,
    b: BindingV,
    context: Context,
    id: CommandId,
    seq: Seq<Key>,
)
    ensures
        keymap::bound(bs, context, id).contains(seq) <==> exists|i: int|
            0 <= i < bs.len() && (#[trigger] bs[i]).context == context && bs[i].command == id
                && bs[i].seq == seq,
        b.context == context && b.command == id ==> keymap::bound(bs.push(b), context, id)
            == keymap::bound(bs, context, id).push(b.seq),
        b.context != context || b.command != id ==> keymap::bound(bs.push(b), context, id)
            == keymap::bound(bs, context, id),
    decreases bs.len(),
{
    assert(bs.push(b).drop_last() =~= bs);
    let all = keymap::bound(bs, context, id);
    if bs.len() > 0 {
        let rest = bs.drop_last();
        let front = keymap::bound(rest, context, id);
        a_command_has_the_sequences_bound_to_it(rest, b, context, id, seq);
        if front.contains(seq) {
            let i = choose|i: int|
                0 <= i < rest.len() && (#[trigger] rest[i]).context == context && rest[i].command
                    == id && rest[i].seq == seq;
            assert(bs[i] == rest[i]);
            let k = choose|k: int| 0 <= k < front.len() && front[k] == seq;
            assert(all[k] == seq);
        }
        if all.contains(seq) && !front.contains(seq) {
            let k = choose|k: int| 0 <= k < all.len() && all[k] == seq;
            if k < front.len() {
                assert(front[k] == seq);
            }
            assert(bs[bs.len() - 1].seq == seq);
        }
        if exists|i: int|
            0 <= i < bs.len() && (#[trigger] bs[i]).context == context && bs[i].command == id
                && bs[i].seq == seq {
            let i = choose|i: int|
                0 <= i < bs.len() && (#[trigger] bs[i]).context == context && bs[i].command == id
                    && bs[i].seq == seq;
            if i < rest.len() {
                assert(rest[i] == bs[i]);
            } else {
                assert(all.last() == seq);
                assert(all[all.len() - 1] == seq);
            }
        }
    }
}

proof fn lemma_warned_about(bs: Seq<BindingV>, b: BindingV, n: int)
    requires
        0 <= n <= bs.len(),
    ensures
        keymap::warnings_about(bs, b, n).len() > 0 <==> exists|i: int|
            0 <= i < n && (#[trigger] bs[i]).context == b.context && starts_off(bs[i].seq, b.seq),
        forall|i: int|
            0 <= i < n && (#[trigger] bs[i]).context == b.context && starts_off(bs[i].seq, b.seq)
                ==> keymap::warnings_about(bs, b, n).contains(keymap::shadow_warning(bs[i], b)),
    decreases n,
{
    if n > 0 {
        lemma_warned_about(bs, b, n - 1);
        let a = bs[n - 1];
        let all = keymap::warnings_about(bs, b, n);
        let front = keymap::warnings_about(bs, b, n - 1);
        assert(keymap::shadows(a, b) <==> a.context == b.context && starts_off(a.seq, b.seq)) by {
            if keymap::shadows(a, b) {
                assert(a.seq =~= b.seq.subrange(0, a.seq.len() as int));
                assert forall|k: int| 0 <= k < a.seq.len() implies #[trigger] b.seq[k]
                    == a.seq[k] by {
                    assert(b.seq.subrange(0, a.seq.len() as int)[k] == b.seq[k]);
                }
            }
            if starts_off(a.seq, b.seq) {
                assert(a.seq =~= b.seq.subrange(0, a.seq.len() as int));
            }
        }
        assert forall|i: int|
            0 <= i < n && (#[trigger] bs[i]).context == b.context && starts_off(
                bs[i].seq,
                b.seq,
            ) implies all.contains(keymap::shadow_warning(bs[i], b)) by {
            let w = keymap::shadow_warning(bs[i], b);
            if i < n - 1 {
                let k = choose|k: int| 0 <= k < front.len() && front[k] == w;
                assert(all[k] == w);
            } else {
                assert(all[all.len() - 1] == w);
            }
        }
    }
}

proof fn lemma_warned(bs: Seq<BindingV>, n: int)
    requires
        0 <= n <= bs.len(),
    ensures
        keymap::warnings(bs, n).len() > 0 <==> exists|i: int, j: int|
            0 <= i < bs.len() && 0 <= j < n && (#[trigger] bs[i]).context == (
            #[trigger] bs[j]).context && starts_off(bs[i].seq, bs[j].seq),
        forall|i: int, j: int|
            0 <= i < bs.len() && 0 <= j < n && (#[trigger] bs[i]).context == (
            #[trigger] bs[j]).context && starts_off(bs[i].seq, bs[j].seq) ==> keymap::warnings(
                bs,
                n,
            ).contains(keymap::shadow_warning(bs[i], bs[j])),
    decreases n,
{
    if n > 0 {
        lemma_warned(bs, n - 1);
        lemma_warned_about(bs, bs[n - 1], bs.len() as int);
        let front = keymap::warnings(bs, n - 1);
        let last = keymap::warnings_about(bs, bs[n - 1], bs.len() as int);
        let all = keymap::warnings(bs, n);
        assert forall|i: int, j: int|
            0 <= i < bs.len() && 0 <= j < n && (#[trigger] bs[i]).context == (
            #[trigger] bs[j]).context && starts_off(bs[i].seq, bs[j].seq) implies all.contains(
            keymap::shadow_warning(bs[i], bs[j]),
        ) by {
            let w = keymap::shadow_warning(bs[i], bs[j]);
            if j < n - 1 {
                let k = choose|k: int| 0 <= k < front.len() && front[k] == w;
                assert(all[k] == w);
            } else {
                let k = choose|k: int| 0 <= k < last.len() && last[k] == w;
                assert(all[front.len() + k] == w);
            }
        }
        if all.len() > 0 && front.len() == 0 {
            assert(last.len() > 0);
            let i = choose|i: int|
                0 <= i < bs.len() && (#[trigger] bs[i]).context == bs[n - 1].context && starts_off(
                    bs[i].seq,
                    bs[n - 1].seq,
                );
            assert(bs[i].context == bs[n - 1].context);
        }
    }
}

/// There are warnings exactly where a sequence starts off with another one
/// of its context, which always runs first, and every such pair is warned
/// about.
pub proof fn a_sequence_that_cannot_be_typed_is_warned_about(bs: Seq<BindingV>)
    ensures
        keymap::warnings(bs, bs.len() as int).len() > 0 <==> exists|i: int, j: int|
            0 <= i < bs.len() && 0 <= j < bs.len() && (#[trigger] bs[i]).context == (
            #[trigger] bs[j]).context && starts_off(bs[i].seq, bs[j].seq),
        forall|i: int, j: int|
            0 <= i < bs.len() && 0 <= j < bs.len() && (#[trigger] bs[i]).context == (
            #[trigger] bs[j]).context && starts_off(bs[i].seq, bs[j].seq) ==> keymap::warnings(
                bs,
                bs.len() as int,
            ).contains(keymap::shadow_warning(bs[i], bs[j])),
{
    lemma_warned(bs, bs.len() as int);
}

/// A pressed key is the key that the terminal tells: a character alone, with
/// Alt, or with Ctrl in lower case, and a special key only without either.
pub proof fn a_pressed_key_is_the_one_told(e: KeyEvent)
    ensures
        e.code matches KeyCode::Char(c) ==> {
            &&& !e.control && !e.alt ==> key::event_key(e) == Some(Key::Char(c))
            &&& !e.control && e.alt ==> key::event_key(e) == Some(Key::Alt(c))
            &&& e.control && e.alt ==> key::event_key(e) is None
            &&& e.control && !e.alt ==> {
                &&& key::event_key(e) matches Some(Key::Ctrl(d))
                &&& finding::same_letter(c, d)
                &&& !('A' <= d && d <= 'Z')
            }
        },
        !(e.code is Char) && (e.control || e.alt) ==> key::event_key(e) is None,
        !e.control && !e.alt ==> {
            &&& e.code is Enter ==> key::event_key(e) == Some(Key::Enter)
            &&& e.code is Esc ==> key::event_key(e) == Some(Key::Esc)
            &&& e.code is Backspace ==> key::event_key(e) == Some(Key::Backspace)
            &&& e.code is Tab ==> key::event_key(e) == Some(Key::Tab)
            &&& e.code is Left ==> key::event_key(e) == Some(Key::Left)
            &&& e.code is Right ==> key::event_key(e) == Some(Key::Right)
            &&& e.code is Up ==> key::event_key(e) == Some(Key::Up)
            &&& e.code is Down ==> key::event_key(e) == Some(Key::Down)
        },
{
    if let KeyCode::Char(c) = e.code {
        if 'A' <= c && c <= 'Z' {
            assert((c as u8 + 32) as char as int == c as int + 32);
        }
    }
}

/// A help entry mentions the text, in lower case, among its keys, in its
/// label or in its id.
pub open spec fn speaks_of(line: HelpLineV, words: Seq<char>) -> bool {
    line matches HelpLineV::Entry { keys, label, id } && {
        ||| stands_in(help::lowercase(keys), words)
        ||| stands_in(help::lowercase(label), words)
        ||| stands_in(help::lowercase(id.text()), words)
    }
}

pub open spec fn stands_in(whole: Seq<char>, words: Seq<char>) -> bool {
    exists|k: int| #[trigger] stands_at(whole, words, k)
}

pub open spec fn stands_at(whole: Seq<char>, words: Seq<char>, k: int) -> bool {
    &&& 0 <= k
    &&& k + words.len() <= whole.len()
    &&& forall|j: int| #![trigger words[j]] 0 <= j < words.len() ==> whole[k + j] == words[j]
}

proof fn lemma_stands_at(whole: Seq<char>, words: Seq<char>, k: int)
    ensures
        text::occurs_at(whole, words, k) <==> stands_at(whole, words, k),
{
    if 0 <= k && k + words.len() <= whole.len() {
        let part = whole.subrange(k, k + words.len());
        if stands_at(whole, words, k) {
            assert(part =~= words);
        }
        if part == words {
            assert forall|j: int|
                #![trigger words[j]]
                0 <= j < words.len() implies whole[k + j] == words[j] by {
                assert(part[j] == whole[k + j]);
            }
        }
    }
}

proof fn lemma_stands(whole: Seq<char>, words: Seq<char>)
    ensures
        text::contains_text(whole, words) <==> stands_in(whole, words),
{
    if text::contains_text(whole, words) {
        let k = choose|k: int| #[trigger] text::occurs_at(whole, words, k);
        lemma_stands_at(whole, words, k);
    }
    if stands_in(whole, words) {
        let k = choose|k: int| #[trigger] stands_at(whole, words, k);
        lemma_stands_at(whole, words, k);
    }
}

proof fn lemma_hit(line: HelpLineV, words: Seq<char>)
    ensures
        help::hit(line, words) <==> speaks_of(line, words),
{
    if let HelpLineV::Entry { keys, label, id } = line {
        lemma_stands(help::lowercase(keys), words);
        lemma_stands(help::lowercase(label), words);
        lemma_stands(help::lowercase(id.text()), words);
    }
}

proof fn lemma_kept_section(
    heading: Option<HelpLineV>,
    es: Seq<HelpLineV>,
    rest: Seq<HelpLineV>,
    words: Seq<char>,
)
    requires
        forall|i: int| 0 <= i < es.len() ==> (#[trigger] es[i]) is Entry,
        rest.len() > 0 ==> rest[0] is Heading,
    ensures
        ({
            let found = es.filter(|l: HelpLineV| speaks_of(l, words));
            let shown = if found.len() == 0 || heading is None {
                found
            } else {
                seq![heading->Some_0] + found
            };
            help::kept(es + rest, help::hits(es + rest, words), heading) == shown + help::kept(
                rest,
                help::hits(rest, words),
                None,
            )
        }),
    decreases es.len(),
{
    reveal(Seq::filter);
    let p = |l: HelpLineV| speaks_of(l, words);
    let all = es + rest;
    let hs = help::hits(all, words);
    if es.len() == 0 {
        assert(all =~= rest);
        if rest.len() > 0 {
            assert(help::kept(rest, hs, heading) == help::kept(rest, hs, None));
        }
        assert(es.filter(p) =~= seq![]);
        assert(es.filter(p) + help::kept(rest, hs, None) =~= help::kept(rest, hs, None));
    } else {
        let less = es.drop_first();
        assert(all.drop_first() =~= less + rest);
        assert(hs.drop_first() =~= help::hits(less + rest, words));
        assert(all[0] == es[0]);
        assert(hs[0] == help::hit(es[0], words));
        lemma_hit(es[0], words);
        assert forall|i: int| 0 <= i < less.len() implies (#[trigger] less[i]) is Entry by {
            assert(less[i] == es[i + 1]);
        }
        lemma_filter_first(es, p);
        let found = es.filter(p);
        if speaks_of(es[0], words) {
            lemma_kept_section(None, less, rest, words);
            let later = less.filter(p);
            let tail = help::kept(rest, help::hits(rest, words), None);
            assert(found =~= seq![es[0]] + later);
            if heading is Some {
                assert(seq![heading->Some_0, es[0]] + (later + tail) =~= (seq![heading->Some_0]
                    + found) + tail);
            } else {
                assert(seq![es[0]] + (later + tail) =~= found + tail);
            }
        } else {
            lemma_kept_section(heading, less, rest, words);
        }
    }
}

proof fn lemma_filter_first(es: Seq<HelpLineV>, p: spec_fn(HelpLineV) -> bool)
    requires
        es.len() > 0,
    ensures
        es.filter(p) == (if p(es[0]) {
            seq![es[0]] + es.drop_first().filter(p)
        } else {
            es.drop_first().filter(p)
        }),
    decreases es.len(),
{
    reveal(Seq::filter);
    let rest = es.drop_first();
    if es.len() == 1 {
        assert(es.drop_last() =~= seq![]);
        assert(rest =~= seq![]);
        assert(seq![es[0]] =~= seq![es[0]] + rest.filter(p));
        assert(es.filter(p) =~= if p(es[0]) {
            seq![es[0]] + rest.filter(p)
        } else {
            rest.filter(p)
        });
    } else {
        let front = es.drop_last();
        lemma_filter_first(front, p);
        assert(front.drop_first() =~= rest.drop_last());
        assert(rest.last() == es.last());
        assert(es.filter(p) =~= if p(es[0]) {
            seq![es[0]] + rest.filter(p)
        } else {
            rest.filter(p)
        });
    }
}

/// Filtering the help leaves, of every section, the entries that mention the
/// text, in their order and below their heading, and leaves the section out
/// where there is none.
pub proof fn the_help_filter_works_section_by_section(
    heading: Seq<char>,
    es: Seq<HelpLineV>,
    rest: Seq<HelpLineV>,
    filter: Seq<char>,
)
    requires
        filter.len() > 0,
        forall|i: int| 0 <= i < es.len() ==> (#[trigger] es[i]) is Entry,
        rest.len() > 0 ==> rest[0] is Heading,
    ensures
        ({
            let head = HelpLineV::Heading(heading);
            let words = help::lowercase(filter);
            let found = es.filter(|l: HelpLineV| speaks_of(l, words));
            help::filtered(seq![head] + es + rest, filter) == (if found.len() > 0 {
                seq![head] + found
            } else {
                seq![]
            }) + help::filtered(rest, filter)
        }),
        help::filtered(rest, seq![]) == rest,
{
    let head = HelpLineV::Heading(heading);
    let words = help::lowercase(filter);
    let all = seq![head] + es + rest;
    let hs = help::hits(all, words);
    assert(all.drop_first() =~= es + rest);
    assert(hs.drop_first() =~= help::hits(es + rest, words));
    lemma_kept_section(Some(head), es, rest, words);
    let found = es.filter(|l: HelpLineV| speaks_of(l, words));
    if found.len() == 0 {
        assert(found =~= seq![]);
    }
}

proof fn lemma_named(table: Seq<CommandV>, context: Context, id: Seq<char>, k: int)
    requires
        0 <= k < table.len(),
        table[k].context == context,
        table[k].id.text() == id,
        forall|i: int|
            0 <= i < k ==> (#[trigger] table[i]).context != context || table[i].id.text() != id,
    ensures
        config::command_named(table, context, id) == Some(table[k].id),
    decreases k,
{
    if k > 0 {
        let rest = table.drop_first();
        assert(rest[k - 1] == table[k]);
        assert(table[0].context != context || table[0].id.text() != id);
        assert forall|i: int| 0 <= i < k - 1 implies (#[trigger] rest[i]).context != context
            || rest[i].id.text() != id by {
            assert(rest[i] == table[i + 1]);
        }
        lemma_named(rest, context, id, k - 1);
    }
}

proof fn lemma_unnamed(table: Seq<CommandV>, context: Context, id: Seq<char>)
    requires
        forall|i: int|
            0 <= i < table.len() ==> (#[trigger] table[i]).context != context || table[i].id.text()
                != id,
    ensures
        config::command_named(table, context, id) is None,
    decreases table.len(),
{
    if table.len() > 0 {
        let rest = table.drop_first();
        assert(table[0].context != context || table[0].id.text() != id);
        assert forall|i: int| 0 <= i < rest.len() implies (#[trigger] rest[i]).context != context
            || rest[i].id.text() != id by {
            assert(rest[i] == table[i + 1]);
        }
        lemma_unnamed(rest, context, id);
    }
}

proof fn lemma_sequences(id: Seq<char>, specs: Seq<Seq<char>>)
    ensures
        match config::sequences(id, specs) {
            Ok(seqs) => {
                &&& seqs.len() == specs.len()
                &&& forall|i: int|
                    0 <= i < specs.len() ==> keyspec::parsed(#[trigger] specs[i]) == Ok::<
                        Seq<Key>,
                        keyspec::ParseErrorV,
                    >(seqs[i])
            },
            Err(e) => exists|i: int|
                0 <= i < specs.len() && keyspec::parsed(#[trigger] specs[i]) is Err && e
                    == (ErrorV::InvalidKeySpec {
                    id,
                    spec: specs[i],
                    source: keyspec::parsed(specs[i])->Err_0,
                }),
        },
    decreases specs.len(),
{
    if specs.len() > 0 {
        let front = specs.drop_last();
        lemma_sequences(id, front);
        match config::sequences(id, front) {
            Err(e) => {
                let i = choose|i: int|
                    0 <= i < front.len() && keyspec::parsed(#[trigger] front[i]) is Err && e
                        == (ErrorV::InvalidKeySpec {
                        id,
                        spec: front[i],
                        source: keyspec::parsed(front[i])->Err_0,
                    });
                assert(specs[i] == front[i]);
            },
            Ok(some) => {
                let k: int = specs.len() - 1;
                assert(specs[k] == specs.last());
                if let Ok(keys) = keyspec::parsed(specs.last()) {
                    let all = some.push(keys);
                    assert forall|i: int| 0 <= i < specs.len() implies keyspec::parsed(
                        #[trigger] specs[i],
                    ) == Ok::<Seq<Key>, keyspec::ParseErrorV>(all[i]) by {
                        if i < k {
                            assert(front[i] == specs[i]);
                        }
                    }
                }
            },
        }
    }
}

/// An override names a command by its context and id. Where each of its
/// specs can be read, the command has exactly those sequences afterwards, and
/// every other command, and the same one in another context, keeps its own.
/// Otherwise nothing is bound: no command of that name, a command whose keys
/// are fixed, or a spec that cannot be read.
pub proof fn an_override_replaces_the_keys_of_one_command(
    bs: Seq<BindingV>,
    name: Seq<char>,
    context: Context,
    id: Seq<char>,
    specs: Seq<Seq<char>>,
    context2: Context,
    id2: CommandId,
)
    ensures
        ({
            let table = command::command_table();
            let r = config::with_override(bs, name, context, id, specs);
            let readable = forall|i: int|
                0 <= i < specs.len() ==> keyspec::parsed(#[trigger] specs[i]) is Ok;
            &&& forall|k: int|
                0 <= k < table.len() && (#[trigger] table[k]).context == context
                    && table[k].id.text() == id ==> {
                    let own = table[k].id;
                    &&& config::is_fixed(own) ==> r is Err
                    &&& !config::is_fixed(own) ==> (r is Ok <==> readable)
                    &&& r matches Ok(new) ==> {
                        let seqs = keymap::bound(new, context, own);
                        &&& seqs.len() == specs.len()
                        &&& forall|i: int|
                            0 <= i < specs.len() ==> keyspec::parsed(#[trigger] specs[i]) == Ok::<
                                Seq<Key>,
                                keyspec::ParseErrorV,
                            >(seqs[i])
                        &&& (context2 != context || id2 != own) ==> keymap::bound(
                            new,
                            context2,
                            id2,
                        ) == keymap::bound(bs, context2, id2)
                    }
                }
            &&& (forall|k: int|
                0 <= k < table.len() ==> (#[trigger] table[k]).context != context
                    || table[k].id.text() != id) ==> r is Err
        }),
{
    let table = command::command_table();
    let r = config::with_override(bs, name, context, id, specs);
    lemma_sequences(id, specs);
    assert forall|k: int|
        0 <= k < table.len() && (#[trigger] table[k]).context == context && table[k].id.text()
            == id implies {
        let own = table[k].id;
        &&& config::command_named(table, context, id) == Some(own)
        &&& r matches Ok(new) ==> {
            &&& keymap::bound(new, context, own) == config::sequences(id, specs)->Ok_0
            &&& (context2 != context || id2 != own) ==> keymap::bound(new, context2, id2)
                == keymap::bound(bs, context2, id2)
        }
    } by {
        let own = table[k].id;
        assert forall|i: int| 0 <= i < k implies (#[trigger] table[i]).context != context
            || table[i].id.text() != id by {
            if table[i].context == context && table[i].id.text() == id {
                defaults::a_context_has_one_command_of_a_text(i, k);
            }
        }
        lemma_named(table, context, id, k);
        if let Ok(new) = r {
            let seqs = config::sequences(id, specs)->Ok_0;
            keymap::rebinding_replaces_the_bindings(bs, context, own, seqs);
            if context2 != context || id2 != own {
                keymap::rebinding_keeps_the_others(bs, context, own, seqs, context2, id2);
            }
        }
    }
    if forall|k: int|
        0 <= k < table.len() ==> (#[trigger] table[k]).context != context || table[k].id.text()
            != id {
        lemma_unnamed(table, context, id);
    }
}

/// The settings name the command among their overrides.
pub open spec fn overridden(
    contexts: Seq<(String, Overrides)>,
    context: Context,
    id: Seq<char>,
) -> bool {
    exists|p: int, q: int|
        0 <= p < contexts.len() && command::context_named(contexts[p].0@) == Some(context) && 0
            <= q < contexts[p].1@.len() && (#[trigger] contexts[p].1@[q]).0@ == id
}

proof fn lemma_overrides_keep(
    bs: Seq<BindingV>,
    name: Seq<char>,
    context: Context,
    overrides: Seq<(String, KeySpecs)>,
    context2: Context,
    id2: CommandId,
)
    requires
        config::with_overrides(bs, name, context, overrides) is Ok,
        context == context2 ==> forall|q: int|
            0 <= q < overrides.len() ==> (#[trigger] overrides[q]).0@ != id2.text(),
    ensures
        keymap::bound(
            config::with_overrides(bs, name, context, overrides)->Ok_0,
            context2,
            id2,
        ) == keymap::bound(bs, context2, id2),
    decreases overrides.len(),
{
    if overrides.len() > 0 {
        let front = overrides.drop_last();
        assert forall|q: int| context == context2 && 0 <= q < front.len() implies (
        #[trigger] front[q]).0@ != id2.text() by {
            assert(front[q] == overrides[q]);
        }
        lemma_overrides_keep(bs, name, context, front, context2, id2);
        let some = config::with_overrides(bs, name, context, front)->Ok_0;
        let last = overrides[overrides.len() - 1];
        let id = last.0@;
        let table = command::command_table();
        an_override_replaces_the_keys_of_one_command(
            some,
            name,
            context,
            id,
            config::specs_of(last.1),
            context2,
            id2,
        );
        assert(exists|k: int|
            0 <= k < table.len() && (#[trigger] table[k]).context == context && table[k].id.text()
                == id);
        let k = choose|k: int|
            0 <= k < table.len() && (#[trigger] table[k]).context == context && table[k].id.text()
                == id;
        assert(context2 != context || id2 != table[k].id);
    }
}

/// A command that the settings do not name keeps its keys.
pub proof fn what_no_override_names_keeps_its_keys(
    bs: Seq<BindingV>,
    contexts: Seq<(String, Overrides)>,
    context: Context,
    id: CommandId,
)
    requires
        config::with_contexts(bs, contexts) is Ok,
        !overridden(contexts, context, id.text()),
    ensures
        keymap::bound(config::with_contexts(bs, contexts)->Ok_0, context, id) == keymap::bound(
            bs,
            context,
            id,
        ),
    decreases contexts.len(),
{
    if contexts.len() > 0 {
        let front = contexts.drop_last();
        if overridden(front, context, id.text()) {
            let (p, q) = choose|p: int, q: int|
                0 <= p < front.len() && command::context_named(front[p].0@) == Some(context) && 0
                    <= q < front[p].1@.len() && (#[trigger] front[p].1@[q]).0@ == id.text();
            assert(contexts[p] == front[p]);
            assert(contexts[p].1@[q].0@ == id.text());
        }
        what_no_override_names_keeps_its_keys(bs, front, context, id);
        let some = config::with_contexts(bs, front)->Ok_0;
        let p: int = contexts.len() - 1;
        let own = command::context_named(contexts[p].0@)->Some_0;
        assert forall|q: int| own == context && 0 <= q < contexts[p].1@.len() implies (
        #[trigger] contexts[p].1@[q]).0@ != id.text() by {}
        lemma_overrides_keep(some, contexts[p].0@, own, contexts[p].1@, context, id);
    }
}

/// The settings and the database live where the command line, the settings
/// and the environment say, in this order, below a directory of the
/// program's own.
pub proof fn files_live_where_they_are_told_to(
    flag: Seq<char>,
    told: Seq<char>,
    xdg: Seq<char>,
    home: Seq<char>,
    any: Option<Seq<char>>,
    other: Option<Seq<char>>,
    third: Option<Seq<char>>,
)
    requires
        xdg.len() > 0 && xdg.last() != '/',
        home.len() > 0 && home.last() != '/',
    ensures
        config::config_place(Some(xdg), any) == Ok::<Seq<char>, ErrorV>(
            xdg + "/stask/config.toml"@,
        ),
        config::config_place(None, Some(home)) == Ok::<Seq<char>, ErrorV>(
            home + "/.config/stask/config.toml"@,
        ),
        config::config_place(None, None) is Err,
        config::db_place(Some(flag), any, other, third) == Ok::<Seq<char>, ErrorV>(flag),
        told.len() == 0 || told[0] != '~' ==> config::db_place(None, Some(told), any, other)
            == Ok::<Seq<char>, ErrorV>(told),
        told.len() > 0 && told[0] != '/' ==> config::db_place(
            None,
            Some(seq!['~', '/'] + told),
            any,
            Some(home),
        ) == Ok::<Seq<char>, ErrorV>(home + "/"@ + told),
        config::db_place(None, Some(seq!['~']), any, Some(home)) == Ok::<Seq<char>, ErrorV>(home),
        config::db_place(None, None, Some(xdg), any) == Ok::<Seq<char>, ErrorV>(
            xdg + "/stask/tasks.db"@,
        ),
        config::db_place(None, None, None, Some(home)) == Ok::<Seq<char>, ErrorV>(
            home + "/.local/share/stask/tasks.db"@,
        ),
        config::db_place(None, None, None, None) is Err,
{
    reveal_strlit("/");
    reveal_strlit("stask");
    reveal_strlit("config.toml");
    reveal_strlit("tasks.db");
    reveal_strlit(".config");
    reveal_strlit(".local/share");
    reveal_strlit("/stask/config.toml");
    reveal_strlit("/.config/stask/config.toml");
    reveal_strlit("/stask/tasks.db");
    reveal_strlit("/.local/share/stask/tasks.db");
    let a = config::below(xdg, "stask"@);
    assert(a.last() == 'k');
    assert(config::below(a, "config.toml"@) =~= xdg + "/stask/config.toml"@);
    assert(config::below(a, "tasks.db"@) =~= xdg + "/stask/tasks.db"@);
    let b = config::below(home, ".config"@);
    assert(b.last() == 'g');
    let c = config::below(b, "stask"@);
    assert(c.last() == 'k');
    assert(config::below(c, "config.toml"@) =~= home + "/.config/stask/config.toml"@);
    let d = config::below(home, ".local/share"@);
    assert(d.last() == 'e');
    let e = config::below(d, "stask"@);
    assert(e.last() == 'k');
    assert(config::below(e, "tasks.db"@) =~= home + "/.local/share/stask/tasks.db"@);
    let t = seq!['~', '/'] + told;
    assert(t.skip(2) =~= told);
}

/// A flag's value is the argument behind the first place where the flag
/// stands; there is none where it stands nowhere or last.
pub proof fn a_flag_is_followed_by_its_value(args: Seq<Seq<char>>, name: Seq<char>, k: int)
    requires
        0 <= k <= args.len(),
        forall|i: int| 0 <= i < k ==> #[trigger] args[i] != name,
        k < args.len() ==> args[k] == name,
    ensures
        k + 1 < args.len() ==> config::flag_value(args, name) == Some(args[k + 1]),
        k + 1 >= args.len() ==> config::flag_value(args, name) is None,
    decreases args.len(),
{
    if k > 0 {
        let rest = args.drop_first();
        assert(args[0] != name);
        assert forall|i: int| 0 <= i < k - 1 implies #[trigger] rest[i] != name by {
            assert(rest[i] == args[i + 1]);
        }
        if k < args.len() {
            assert(rest[k - 1] == args[k]);
        }
        a_flag_is_followed_by_its_value(rest, name, k - 1);
    }
}

/// A refused clash is one: the two bindings share context and sequence. And
/// where two bindings do, some clash is refused.
pub proof fn only_a_clash_is_refused(bs: Seq<BindingV>)
    ensures
        keymap::first_clash(bs, 0) is None <==> bound_once(bs),
        keymap::first_clash(bs, 0) matches Some((i, j)) ==> 0 <= i < j < bs.len() && bs[i].context
            == bs[j].context && bs[i].seq == bs[j].seq,
{
    lemma_clash(bs, 0);
    if keymap::first_clash(bs, 0) is None {
        assert forall|i: int, j: int|
            0 <= i < j < bs.len() && bs[i].context == bs[j].context implies bs[i].seq
            != bs[j].seq by {
            keymap::without_clash_sequences_are_unique(bs, i, j);
        }
    }
}

proof fn lemma_clash_with(bs: Seq<BindingV>, i: int, j: int)
    requires
        0 <= i < j,
    ensures
        keymap::clash_with(bs, i, j) matches Some(k) ==> j <= k < bs.len() && bs[i].context
            == bs[k].context && bs[i].seq == bs[k].seq,
    decreases bs.len() - j,
{
    if j < bs.len() && !keymap::clash(bs[i], bs[j]) {
        lemma_clash_with(bs, i, j + 1);
    }
}

proof fn lemma_clash(bs: Seq<BindingV>, n: int)
    requires
        0 <= n,
    ensures
        keymap::first_clash(bs, n) matches Some((i, j)) ==> n <= i < j < bs.len() && bs[i].context
            == bs[j].context && bs[i].seq == bs[j].seq,
    decreases bs.len() - n,
{
    if n < bs.len() {
        lemma_clash_with(bs, n, n + 1);
        lemma_clash(bs, n + 1);
    }
}

/// The keys that a mode reads itself, those that confirm or leave an input
/// or a menu, cannot be given others; all other commands can.
pub proof fn only_keys_read_by_a_mode_are_fixed(id: CommandId)
    ensures
        config::is_fixed(id) <==> {
            ||| id is InputConfirm
            ||| id is InputCancel
            ||| id is StatusCancel
            ||| id is FilterCancel
            ||| id is SortCancel
        },
{
}

/// A spec that stands alone is the only one; a list of specs is taken whole.
pub proof fn a_list_of_specs_is_taken_whole(one: String, many: Vec<String>)
    ensures
        config::specs_of(KeySpecs::One(one)) == seq![one@],
        config::specs_of(KeySpecs::Many(many)).len() == many@.len(),
        forall|i: int|
            0 <= i < many@.len() ==> (#[trigger] config::specs_of(KeySpecs::Many(many))[i])
                == many@[i]@,
{
}

/// The help goes context by context. A context has its name as a heading and
/// below it an entry for each of its commands that is bound, in the order of
/// the table; one without such a command is left out.
pub proof fn the_help_goes_context_by_context(
    commands: Seq<CommandV>,
    c: CommandV,
    bs: Seq<BindingV>,
    contexts: Seq<Context>,
    context: Context,
)
    ensures
        ({
            let es = help::entries(commands, bs, context);
            let seqs = keymap::bound(bs, context, c.id);
            let more = help::entries(commands.push(c), bs, context);
            &&& help::sections(commands, bs, contexts.push(context)) == help::sections(
                commands,
                bs,
                contexts,
            ) + (if es.len() == 0 {
                seq![]
            } else {
                seq![HelpLineV::Heading(command::context_name(context)->Some_0)] + es
            })
            &&& c.context != context || seqs.len() == 0 ==> more == es
            &&& c.context == context && seqs.len() > 0 ==> {
                &&& more.len() == es.len() + 1
                &&& forall|i: int| 0 <= i < es.len() ==> more[i] == es[i]
                &&& more.last() matches HelpLineV::Entry { keys, label, id }
                &&& label == c.label
                &&& id == c.id
                &&& keys == text::joined(
                    Seq::new(seqs.len(), |i: int| keyspec::seq_text(seqs[i])),
                    " "@,
                )
            }
        }),
{
    assert(contexts.push(context).drop_last() =~= contexts);
    assert(commands.push(c).drop_last() =~= commands);
    let seqs = keymap::bound(bs, context, c.id);
    assert(help::notations(seqs) =~= Seq::new(
        seqs.len(),
        |i: int| keyspec::seq_text(seqs[i]),
    ));
}

/// Settings that cannot be read are refused with what the reader said, and
/// settings that can be stand for what they say, the footer and the path of
/// the database among it.
pub proof fn settings_stand_for_what_they_say(file: ConfigFile, detail: String)
    ensures
        config::read_as(Err(detail)) == Err::<ConfigV, ErrorV>(ErrorV::Parse(detail@)),
        config::read_as(Ok(file)) matches Ok(c) ==> {
            &&& c.footer == file.footer
            &&& c.db_path is Some <==> file.db_path is Some
            &&& file.db_path matches Some(path) ==> c.db_path == Some(path@)
            &&& bound_once(c.bindings)
            &&& config::with_contexts(keymap::default_bindings(), file.keymap@) == Ok::<
                Seq<BindingV>,
                ErrorV,
            >(c.bindings)
        },
        config::read_as(Ok(file)) is Err ==> (match config::with_contexts(
            keymap::default_bindings(),
            file.keymap@,
        ) {
            Err(e) => config::read_as(Ok(file)) == Err::<ConfigV, ErrorV>(e),
            Ok(bs) => !bound_once(bs),
        }),
{
    if let Ok(bs) = config::with_contexts(keymap::default_bindings(), file.keymap@) {
        only_a_clash_is_refused(bs);
    }
}

} // verus!
