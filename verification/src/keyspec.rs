//! The canonical text notation for key sequences, shared by the config
//! file, the help list and the footer. Plain characters concatenate
//! (`gg`); special keys use angle brackets (`<enter>`, `<alt-j>`); a
//! literal `<` is written `<lt>` so `<` can unambiguously start a name.
use vstd::prelude::*;

use crate::key;
use crate::key::{Key, KeySeq};
use crate::text;
use crate::text::same;

verus! {

#[derive(Debug, PartialEq, Eq)]
pub enum ParseError {
    Empty,
    UnclosedAngle(String),
    UnknownName(String),
}

/// A parse error as plain values.
#[verifier::ext_equal]
pub enum ParseErrorV {
    Empty,
    UnclosedAngle(Seq<char>),
    UnknownName(Seq<char>),
}

impl View for ParseError {
    type V = ParseErrorV;

    open spec fn view(&self) -> ParseErrorV {
        match *self {
            ParseError::Empty => ParseErrorV::Empty,
            ParseError::UnclosedAngle(s) => ParseErrorV::UnclosedAngle(s@),
            ParseError::UnknownName(s) => ParseErrorV::UnknownName(s@),
        }
    }
}

impl ParseError {
    /// What is shown to the user.
    pub fn message(&self) -> (r: String)
        ensures
            r@ == (match self@ {
                ParseErrorV::Empty => "empty key sequence"@,
                ParseErrorV::UnclosedAngle(s) => "unclosed `<` in `"@ + s
                    + "` (write a literal `<` as `<lt>`)"@,
                ParseErrorV::UnknownName(s) => "unknown key name `<"@ + s + ">`"@,
            }),
    {
        match self {
            ParseError::Empty => "empty key sequence".to_owned(),
            ParseError::UnclosedAngle(s) => text::concat3(
                "unclosed `<` in `",
                s.as_str(),
                "` (write a literal `<` as `<lt>`)",
            ),
            ParseError::UnknownName(s) => text::concat3("unknown key name `<", s.as_str(), ">`"),
        }
    }
}

/// The name of a key that is not written as itself.
pub open spec fn key_name(key: Key) -> Option<Seq<char>> {
    match key {
        // `<` must have a name because a bare `<` starts one.
        Key::Char(c) => if c == '<' {
            Some("lt"@)
        } else {
            None
        },
        Key::Alt(c) => Some("alt-"@.push(c)),
        Key::Ctrl(c) => Some("ctrl-"@.push(c)),
        Key::Enter => Some("enter"@),
        Key::Esc => Some("esc"@),
        Key::Backspace => Some("backspace"@),
        Key::Tab => Some("tab"@),
        Key::Left => Some("left"@),
        Key::Right => Some("right"@),
        Key::Up => Some("up"@),
        Key::Down => Some("down"@),
    }
}

/// A key in the canonical notation.
pub open spec fn key_text(key: Key) -> Seq<char> {
    match key_name(key) {
        Some(name) => seq!['<'] + name + seq!['>'],
        None => seq![key->Char_0],
    }
}

/// A key sequence in the canonical notation.
pub open spec fn seq_text(keys: Seq<Key>) -> Seq<char>
    decreases keys.len(),
{
    if keys.len() == 0 {
        seq![]
    } else {
        key_text(keys[0]) + seq_text(keys.drop_first())
    }
}

pub open spec fn starts(s: Seq<char>, prefix: Seq<char>) -> bool {
    prefix.len() <= s.len() && s.take(prefix.len() as int) == prefix
}

/// The key a name stands for.
pub open spec fn named_key(name: Seq<char>) -> Option<Key> {
    if starts(name, "alt-"@) {
        if name.len() == "alt-"@.len() + 1 {
            Some(key::alt_key(name.last()))
        } else {
            None
        }
    } else if starts(name, "ctrl-"@) {
        if name.len() == "ctrl-"@.len() + 1 {
            Some(key::ctrl_key(name.last()))
        } else {
            None
        }
    } else if name == "lt"@ {
        Some(Key::Char('<'))
    } else if name == "enter"@ {
        Some(Key::Enter)
    } else if name == "esc"@ {
        Some(Key::Esc)
    } else if name == "backspace"@ {
        Some(Key::Backspace)
    } else if name == "tab"@ {
        Some(Key::Tab)
    } else if name == "left"@ {
        Some(Key::Left)
    } else if name == "right"@ {
        Some(Key::Right)
    } else if name == "up"@ {
        Some(Key::Up)
    } else if name == "down"@ {
        Some(Key::Down)
    } else {
        None
    }
}

pub open spec fn prepend(key: Key, rest: Result<Seq<Key>, ParseErrorV>) -> Result<
    Seq<Key>,
    ParseErrorV,
> {
    match rest {
        Ok(keys) => Ok(seq![key] + keys),
        Err(e) => Err(e),
    }
}

/// The keys written in `s`, the rest of the notation `whole`.
pub open spec fn parse_rest(s: Seq<char>, whole: Seq<char>) -> Result<Seq<Key>, ParseErrorV>
    decreases s.len(),
{
    if s.len() == 0 {
        Ok(seq![])
    } else if s[0] == '<' {
        let k = text::index_of_char(s.skip(1), '>');
        if !(0 <= k < s.len() - 1) {
            Err(ParseErrorV::UnclosedAngle(whole))
        } else {
            let name = s.subrange(1, k + 1);
            match named_key(name) {
                Some(key) => prepend(key, parse_rest(s.skip(k + 2), whole)),
                None => Err(ParseErrorV::UnknownName(name)),
            }
        }
    } else {
        prepend(key::char_key(s[0]), parse_rest(s.skip(1), whole))
    }
}

/// The key sequence a notation stands for.
pub open spec fn parsed(s: Seq<char>) -> Result<Seq<Key>, ParseErrorV> {
    if s.len() == 0 {
        Err(ParseErrorV::Empty)
    } else {
        parse_rest(s, s)
    }
}

pub open spec fn seq_result(r: Result<KeySeq, ParseError>) -> Result<Seq<Key>, ParseErrorV> {
    match r {
        Ok(keys) => Ok(keys@),
        Err(e) => Err(e@),
    }
}

/// Renders a key sequence in the canonical notation.
pub fn format_seq(seq: &KeySeq) -> (r: String)
    ensures
        r@ == seq_text(seq@),
{
    let keys = seq.as_slice();
    let mut r = String::new();
    let mut i: usize = 0;
    assert(keys@.skip(0) =~= keys@);
    assert(r@ + seq_text(keys@.skip(0)) =~= seq_text(keys@));
    while i < keys.len()
        invariant
            i <= keys.len(),
            r@ + seq_text(keys@.skip(i as int)) == seq_text(keys@),
        decreases keys.len() - i,
    {
        let ghost before = r@;
        let ghost rest = keys@.skip(i as int);
        let part = format_key(&keys[i]);
        r.append(part.as_str());
        assert(rest.drop_first() =~= keys@.skip(i + 1));
        assert(rest[0] == keys@[i as int]);
        assert(before + (part@ + seq_text(keys@.skip(i + 1))) =~= (before + part@) + seq_text(
            keys@.skip(i + 1),
        ));
        i = i + 1;
    }
    assert(r@ + seq_text(keys@.skip(i as int)) =~= r@);
    r
}

pub fn format_key(key: &Key) -> (r: String)
    ensures
        r@ == key_text(*key),
{
    let mut r = String::new();
    match *key {
        Key::Char(c) => {
            if c != '<' {
                r.push(c);
                assert(r@ =~= key_text(*key));
                return r;
            }
            r.append("<lt");
        },
        Key::Alt(c) => {
            r.append("<alt-");
            r.push(c);
        },
        Key::Ctrl(c) => {
            r.append("<ctrl-");
            r.push(c);
        },
        Key::Enter => r.append("<enter"),
        Key::Esc => r.append("<esc"),
        Key::Backspace => r.append("<backspace"),
        Key::Tab => r.append("<tab"),
        Key::Left => r.append("<left"),
        Key::Right => r.append("<right"),
        Key::Up => r.append("<up"),
        Key::Down => r.append("<down"),
    }
    r.push('>');
    proof {
        reveal_strlit("<lt");
        reveal_strlit("lt");
        reveal_strlit("<alt-");
        reveal_strlit("alt-");
        reveal_strlit("<ctrl-");
        reveal_strlit("ctrl-");
        reveal_strlit("<enter");
        reveal_strlit("enter");
        reveal_strlit("<esc");
        reveal_strlit("esc");
        reveal_strlit("<backspace");
        reveal_strlit("backspace");
        reveal_strlit("<tab");
        reveal_strlit("tab");
        reveal_strlit("<left");
        reveal_strlit("left");
        reveal_strlit("<right");
        reveal_strlit("right");
        reveal_strlit("<up");
        reveal_strlit("up");
        reveal_strlit("<down");
        reveal_strlit("down");
        assert(r@ =~= key_text(*key));
    }
    r
}

/// The key of a name; none where there is no such key.
fn key_from_name(name: &str) -> (r: Option<Key>)
    ensures
        r == named_key(name@),
{
    let chars = text::chars_of(name);
    let alt = text::chars_of("alt-");
    let ctrl = text::chars_of("ctrl-");
    proof {
        reveal_strlit("alt-");
        reveal_strlit("ctrl-");
    }
    if text::matches_at(&chars, &alt, 0) {
        assert(starts(name@, "alt-"@));
        return if chars.len() == alt.len() + 1 {
            Some(Key::Alt(chars[chars.len() - 1]))
        } else {
            None
        };
    }
    assert(!starts(name@, "alt-"@));
    if text::matches_at(&chars, &ctrl, 0) {
        assert(starts(name@, "ctrl-"@));
        return if chars.len() == ctrl.len() + 1 {
            Some(Key::Ctrl(chars[chars.len() - 1]))
        } else {
            None
        };
    }
    assert(!starts(name@, "ctrl-"@));
    if same(name, "lt") {
        Some(Key::Char('<'))
    } else if same(name, "enter") {
        Some(Key::Enter)
    } else if same(name, "esc") {
        Some(Key::Esc)
    } else if same(name, "backspace") {
        Some(Key::Backspace)
    } else if same(name, "tab") {
        Some(Key::Tab)
    } else if same(name, "left") {
        Some(Key::Left)
    } else if same(name, "right") {
        Some(Key::Right)
    } else if same(name, "up") {
        Some(Key::Up)
    } else if same(name, "down") {
        Some(Key::Down)
    } else {
        None
    }
}

/// Adds the keys read so far in front of the rest.
spec fn with_front(done: Seq<Key>, rest: Result<Seq<Key>, ParseErrorV>) -> Result<
    Seq<Key>,
    ParseErrorV,
> {
    match rest {
        Ok(keys) => Ok(done + keys),
        Err(e) => Err(e),
    }
}

/// Parses the canonical notation back into a key sequence.
pub fn parse_seq(spec: &str) -> (r: Result<KeySeq, ParseError>)
    ensures
        seq_result(r) == parsed(spec@),
{
    let chars = text::chars_of(spec);
    if chars.len() == 0 {
        return Err(ParseError::Empty);
    }
    let ghost whole = spec@;
    let mut keys: Vec<Key> = Vec::new();
    let mut i: usize = 0;
    proof {
        assert(chars@.skip(0) =~= whole);
        assert(with_front(keys@, parse_rest(whole, whole)) =~= parse_rest(whole, whole)) by {
            if let Ok(k) = parse_rest(whole, whole) {
                assert(keys@ + k =~= k);
            }
        }
    }
    while i < chars.len()
        invariant
            i <= chars.len(),
            chars@ == whole,
            whole == spec@,
            whole.len() > 0,
            with_front(keys@, parse_rest(chars@.skip(i as int), whole)) == parse_rest(whole, whole),
        decreases chars.len() - i,
    {
        let ghost rest = chars@.skip(i as int);
        let ghost done = keys@;
        assert(rest[0] == chars@[i as int]);
        if chars[i] == '<' {
            let mut k: usize = i + 1;
            while k < chars.len() && chars[k] != '>'
                invariant
                    i < k <= chars.len(),
                    forall|j: int| i < j < k ==> chars@[j] != '>',
                decreases chars.len() - k,
            {
                k = k + 1;
            }
            proof {
                assert forall|j: int| 0 <= j < k - i - 1 implies rest.skip(1)[j] != '>' by {
                    assert(rest.skip(1)[j] == chars@[i + 1 + j]);
                }
                text::lemma_index_of_char(rest.skip(1), '>', k - i - 1);
            }
            if k >= chars.len() {
                return Err(ParseError::UnclosedAngle(spec.to_owned()));
            }
            let name = text::string_from(&chars, i + 1, k);
            assert(name@ =~= rest.subrange(1, k - i));
            match key_from_name(name.as_str()) {
                Some(key) => {
                    keys.push(key);
                    proof {
                        assert(rest.skip(k - i + 1) =~= chars@.skip(k + 1));
                        if let Ok(more) = parse_rest(chars@.skip(k + 1), whole) {
                            assert(done + (seq![key] + more) =~= done.push(key) + more);
                        }
                    }
                },
                None => {
                    return Err(ParseError::UnknownName(name));
                },
            }
            i = k + 1;
        } else {
            keys.push(Key::Char(chars[i]));
            proof {
                let key = key::char_key(rest[0]);
                assert(rest.skip(1) =~= chars@.skip(i + 1));
                if let Ok(more) = parse_rest(chars@.skip(i + 1), whole) {
                    assert(done + (seq![key] + more) =~= done.push(key) + more);
                }
            }
            i = i + 1;
        }
    }
    assert(keys@ + Seq::<Key>::empty() =~= keys@);
    Ok(KeySeq::from_keys(keys))
}

/// A key whose notation can be read back: every one but the Alt and Ctrl
/// chords of `>`, which ends a name.
pub open spec fn notable(key: Key) -> bool {
    key != Key::Alt('>') && key != Key::Ctrl('>')
}

proof fn lemma_key_names(key: Key)
    requires
        notable(key),
        key_name(key) is Some,
    ensures
        named_key(key_name(key)->Some_0) == Some(key),
        !key_name(key)->Some_0.contains('>'),
{
    reveal_strlit("lt");
    reveal_strlit("alt-");
    reveal_strlit("ctrl-");
    reveal_strlit("enter");
    reveal_strlit("esc");
    reveal_strlit("backspace");
    reveal_strlit("tab");
    reveal_strlit("left");
    reveal_strlit("right");
    reveal_strlit("up");
    reveal_strlit("down");
    let name = key_name(key)->Some_0;
    match key {
        Key::Alt(c) => {
            assert(name.take(4) =~= "alt-"@);
        },
        Key::Ctrl(c) => {
            assert(name[0] == 'c');
            if starts(name, "alt-"@) {
                assert(name.take(4)[0] == 'a');
            }
            assert(name.take(5) =~= "ctrl-"@);
        },
        _ => {
            if starts(name, "alt-"@) {
                assert(name.take(4)[0] == 'a');
                assert(name[0] == 'a');
            }
            if starts(name, "ctrl-"@) {
                assert(name.take(5)[0] == 'c');
                assert(name[0] == 'c');
            }
            lemma_names_differ();
        },
    }
}

/// The fixed key names are pairwise different.
proof fn lemma_names_differ()
    ensures
        "enter"@ != "lt"@,
        "esc"@ != "lt"@ && "esc"@ != "enter"@,
        "backspace"@ != "lt"@ && "backspace"@ != "enter"@ && "backspace"@ != "esc"@,
        "tab"@ != "lt"@ && "tab"@ != "enter"@ && "tab"@ != "esc"@ && "tab"@ != "backspace"@,
        "left"@ != "lt"@ && "left"@ != "enter"@ && "left"@ != "esc"@ && "left"@ != "backspace"@
            && "left"@ != "tab"@,
        "right"@ != "lt"@ && "right"@ != "enter"@ && "right"@ != "esc"@ && "right"@
            != "backspace"@ && "right"@ != "tab"@ && "right"@ != "left"@,
        "up"@ != "lt"@ && "up"@ != "enter"@ && "up"@ != "esc"@ && "up"@ != "backspace"@ && "up"@
            != "tab"@ && "up"@ != "left"@ && "up"@ != "right"@,
        "down"@ != "lt"@ && "down"@ != "enter"@ && "down"@ != "esc"@ && "down"@ != "backspace"@
            && "down"@ != "tab"@ && "down"@ != "left"@ && "down"@ != "right"@ && "down"@ != "up"@,
{
    reveal_strlit("lt");
    reveal_strlit("enter");
    reveal_strlit("esc");
    reveal_strlit("backspace");
    reveal_strlit("tab");
    reveal_strlit("left");
    reveal_strlit("right");
    reveal_strlit("up");
    reveal_strlit("down");
    assert("lt"@.len() == 2 && "up"@.len() == 2);
    assert("esc"@.len() == 3 && "tab"@.len() == 3);
    assert("left"@.len() == 4 && "down"@.len() == 4);
    assert("enter"@.len() == 5 && "right"@.len() == 5);
    assert("backspace"@.len() == 9);
    assert("esc"@[0] != "tab"@[0]);
    assert("enter"@[0] != "right"@[0]);
    assert("left"@[0] != "down"@[0]);
    assert("lt"@[0] != "up"@[0]);
}

/// Writing a key sequence and reading it back gives the same sequence, for
/// every non-empty sequence of keys that have a readable notation.
pub proof fn parsing_reads_back_formatting(keys: Seq<Key>)
    requires
        keys.len() > 0,
        forall|i: int| 0 <= i < keys.len() ==> notable(#[trigger] keys[i]),
    ensures
        parsed(seq_text(keys)) == Ok::<Seq<Key>, ParseErrorV>(keys),
{
    lemma_parse_formatted(keys, seq_text(keys));
    assert(key_text(keys[0]).len() > 0);
}

proof fn lemma_parse_formatted(keys: Seq<Key>, whole: Seq<char>)
    requires
        forall|i: int| 0 <= i < keys.len() ==> notable(#[trigger] keys[i]),
    ensures
        parse_rest(seq_text(keys), whole) == Ok::<Seq<Key>, ParseErrorV>(keys),
    decreases keys.len(),
{
    if keys.len() == 0 {
        assert(keys =~= seq![]);
    } else {
        let rest = keys.drop_first();
        let s = seq_text(keys);
        let more = seq_text(rest);
        lemma_parse_formatted(rest, whole);
        assert(seq![keys[0]] + rest =~= keys);
        match key_name(keys[0]) {
            Some(name) => {
                lemma_key_names(keys[0]);
                let n = name.len() as int;
                assert(s[0] == '<');
                assert forall|j: int| 0 <= j < n implies s.skip(1)[j] != '>' by {
                    assert(s.skip(1)[j] == name[j]);
                }
                assert(s.skip(1)[n] == '>');
                text::lemma_index_of_char(s.skip(1), '>', n);
                assert(s.subrange(1, n + 1) =~= name);
                assert(s.skip(n + 2) =~= more);
            },
            None => {
                assert(s.skip(1) =~= more);
            },
        }
    }
}

/// Whatever notation can be read is the canonical one: writing what was read
/// gives back the text.
pub proof fn formatting_restores_the_notation(s: Seq<char>)
    requires
        parsed(s) is Ok,
    ensures
        seq_text(parsed(s)->Ok_0) == s,
{
    lemma_format_parsed(s, s);
}

proof fn lemma_format_parsed(s: Seq<char>, whole: Seq<char>)
    requires
        parse_rest(s, whole) is Ok,
    ensures
        seq_text(parse_rest(s, whole)->Ok_0) == s,
    decreases s.len(),
{
    if s.len() == 0 {
    } else if s[0] == '<' {
        let k = text::index_of_char(s.skip(1), '>');
        let name = s.subrange(1, k + 1);
        let key = named_key(name)->Some_0;
        let rest = s.skip(k + 2);
        lemma_format_parsed(rest, whole);
        let more = parse_rest(rest, whole)->Ok_0;
        lemma_index_is(s.skip(1), '>');
        lemma_name_of_named(name);
        assert((seq![key] + more).drop_first() =~= more);
        assert(key_text(key) + rest =~= s);
    } else {
        lemma_format_parsed(s.skip(1), whole);
        let more = parse_rest(s.skip(1), whole)->Ok_0;
        let key = key::char_key(s[0]);
        assert((seq![key] + more).drop_first() =~= more);
        assert(key_text(key) + s.skip(1) =~= s);
    }
}

proof fn lemma_index_is(s: Seq<char>, c: char)
    ensures
        0 <= text::index_of_char(s, c) <= s.len(),
        text::index_of_char(s, c) < s.len() ==> s[text::index_of_char(s, c)] == c,
    decreases s.len(),
{
    if s.len() > 0 && s[0] != c {
        lemma_index_is(s.drop_first(), c);
    }
}

/// A name stands for the key that is written with it.
proof fn lemma_name_of_named(name: Seq<char>)
    requires
        named_key(name) is Some,
    ensures
        key_name(named_key(name)->Some_0) == Some(name),
{
    reveal_strlit("alt-");
    reveal_strlit("ctrl-");
    if starts(name, "alt-"@) {
        assert("alt-"@.push(name.last()) =~= name) by {
            assert forall|i: int| 0 <= i < 4 implies "alt-"@[i] == name[i] by {
                assert(name.take(4)[i] == name[i]);
            }
        }
    } else if starts(name, "ctrl-"@) {
        assert("ctrl-"@.push(name.last()) =~= name) by {
            assert forall|i: int| 0 <= i < 5 implies "ctrl-"@[i] == name[i] by {
                assert(name.take(5)[i] == name[i]);
            }
        }
    }
}

} // verus!
