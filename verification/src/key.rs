//! Keys and key sequences.
use vstd::prelude::*;

use crate::text;

verus! {

/// Terminal-backend-agnostic key representation used by the keymap and the
/// inline editor, so both stay testable without a real terminal.
#[derive(Debug, Clone, Copy, PartialEq, Eq, Hash, Structural)]
pub enum Key {
    Char(char),
    /// Alt (Meta) + character chord, e.g. Alt-j. On macOS this requires the
    /// terminal's Option-as-Meta setting.
    Alt(char),
    /// Ctrl + character chord, e.g. Ctrl-d. The character is stored
    /// lowercase because terminals disagree on the case they deliver.
    Ctrl(char),
    Enter,
    Esc,
    Backspace,
    Tab,
    Left,
    Right,
    Up,
    Down,
}

/// A key sequence such as `gg`; bindings may span multiple keystrokes.
#[derive(Debug, PartialEq, Eq, Hash)]
pub struct KeySeq(Vec<Key>);

impl View for KeySeq {
    type V = Seq<Key>;

    closed spec fn view(&self) -> Seq<Key> {
        self.0@
    }
}

/// The key that types a character.
pub open spec fn char_key(c: char) -> Key {
    Key::Char(c)
}

/// The Alt chord of a character.
pub open spec fn alt_key(c: char) -> Key {
    Key::Alt(c)
}

/// The Ctrl chord of a character.
pub open spec fn ctrl_key(c: char) -> Key {
    Key::Ctrl(c)
}

/// One character key per character.
pub open spec fn char_keys(s: Seq<char>) -> Seq<Key> {
    s.map_values(|c: char| char_key(c))
}

impl KeySeq {
    /// Builds a sequence of character keys, one per char of `s`.
    pub fn chars(s: &str) -> (r: Self)
        ensures
            r@ == char_keys(s@),
    {
        let chars = text::chars_of(s);
        let mut keys: Vec<Key> = Vec::new();
        let mut i: usize = 0;
        while i < chars.len()
            invariant
                i <= chars.len(),
                keys@ == char_keys(chars@.take(i as int)),
            decreases chars.len() - i,
        {
            let ghost before = keys@;
            keys.push(Key::Char(chars[i]));
            assert(keys@ == before.push(char_key(chars@[i as int])));
            i = i + 1;
            assert(chars@.take(i as int) =~= chars@.take(i - 1).push(chars@[i - 1]));
            assert(keys@ =~= char_keys(chars@.take(i as int)));
        }
        assert(chars@.take(i as int) =~= chars@);
        KeySeq(keys)
    }

    pub fn from_keys(keys: Vec<Key>) -> (r: Self)
        ensures
            r@ == keys@,
    {
        KeySeq(keys)
    }

    pub fn as_slice(&self) -> (r: &[Key])
        ensures
            r@ == self@,
    {
        self.0.as_slice()
    }

    pub fn starts_with(&self, prefix: &[Key]) -> (r: bool)
        ensures
            r == prefix@.is_prefix_of(self@),
    {
        if prefix.len() > self.0.len() {
            return false;
        }
        let mut i: usize = 0;
        while i < prefix.len()
            invariant
                i <= prefix.len(),
                prefix.len() <= self@.len(),
                forall|j: int| 0 <= j < i ==> self@[j] == prefix@[j],
            decreases prefix.len() - i,
        {
            if self.0[i] != prefix[i] {
                assert(self@.take(prefix@.len() as int)[i as int] != prefix@[i as int]);
                return false;
            }
            i = i + 1;
        }
        assert(prefix@ =~= self@.subrange(0, prefix@.len() as int));
        true
    }

    /// Whether the sequence is exactly these keys.
    pub fn is(&self, keys: &[Key]) -> (r: bool)
        ensures
            r == (self@ == keys@),
    {
        if self.0.len() != keys.len() {
            return false;
        }
        let r = self.starts_with(keys);
        proof {
            if r {
                assert(self@ =~= keys@);
            } else if self@ == keys@ {
                assert(keys@ =~= self@.subrange(0, keys@.len() as int));
            }
        }
        r
    }
}

impl Clone for KeySeq {
    fn clone(&self) -> (r: Self)
        ensures
            r@ == self@,
    {
        let mut keys: Vec<Key> = Vec::new();
        let mut i: usize = 0;
        while i < self.0.len()
            invariant
                i <= self.0.len(),
                keys@ == self.0@.take(i as int),
            decreases self.0.len() - i,
        {
            keys.push(self.0[i]);
            i = i + 1;
            assert(keys@ =~= self.0@.take(i as int));
        }
        assert(keys@ =~= self.0@);
        KeySeq(keys)
    }
}

impl From<Key> for KeySeq {
    fn from(key: Key) -> (r: Self)
        ensures
            r@ == seq![key],
    {
        let mut keys: Vec<Key> = Vec::new();
        keys.push(key);
        assert(keys@ =~= seq![key]);
        KeySeq(keys)
    }
}

impl vstd::std_specs::convert::FromSpecImpl<Key> for KeySeq {
    open spec fn obeys_from_spec() -> bool {
        false
    }

    open spec fn from_spec(key: Key) -> Self {
        arbitrary()
    }
}

/// The keys of the terminal that matter here.
#[derive(Debug, Clone, Copy, PartialEq, Eq, Structural)]
pub enum KeyCode {
    Char(char),
    Enter,
    Esc,
    Backspace,
    Tab,
    Left,
    Right,
    Up,
    Down,
    /// Any other key.
    Other,
}

/// One key press as the terminal delivers it.
#[derive(Debug, Clone, Copy, PartialEq, Eq, Structural)]
pub struct KeyEvent {
    pub code: KeyCode,
    pub control: bool,
    pub alt: bool,
}

/// The key of a terminal event. Of the chords only Ctrl or Alt with a
/// character are distinct; other keys under a modifier are noise.
pub open spec fn event_key(e: KeyEvent) -> Option<Key> {
    if e.control {
        match e.code {
            KeyCode::Char(c) => if e.alt {
                None
            } else {
                Some(Key::Ctrl(text::ascii_lower_char(c)))
            },
            _ => None,
        }
    } else if e.alt {
        match e.code {
            KeyCode::Char(c) => Some(Key::Alt(c)),
            _ => None,
        }
    } else {
        match e.code {
            KeyCode::Char(c) => Some(Key::Char(c)),
            KeyCode::Enter => Some(Key::Enter),
            KeyCode::Esc => Some(Key::Esc),
            KeyCode::Backspace => Some(Key::Backspace),
            KeyCode::Tab => Some(Key::Tab),
            KeyCode::Left => Some(Key::Left),
            KeyCode::Right => Some(Key::Right),
            KeyCode::Up => Some(Key::Up),
            KeyCode::Down => Some(Key::Down),
            KeyCode::Other => None,
        }
    }
}

/// Sole conversion boundary from the terminal backend's key events.
pub fn key_from_event(event: &KeyEvent) -> (r: Option<Key>)
    ensures
        r == event_key(*event),
{
    if event.control {
        return match event.code {
            KeyCode::Char(c) => {
                if event.alt {
                    None
                } else {
                    // Lowercased because terminals disagree on the delivered
                    // case.
                    Some(Key::Ctrl(text::to_ascii_lower(c)))
                }
            },
            _ => None,
        };
    }
    if event.alt {
        return match event.code {
            KeyCode::Char(c) => Some(Key::Alt(c)),
            _ => None,
        };
    }
    match event.code {
        KeyCode::Char(c) => Some(Key::Char(c)),
        KeyCode::Enter => Some(Key::Enter),
        KeyCode::Esc => Some(Key::Esc),
        KeyCode::Backspace => Some(Key::Backspace),
        KeyCode::Tab => Some(Key::Tab),
        KeyCode::Left => Some(Key::Left),
        KeyCode::Right => Some(Key::Right),
        KeyCode::Up => Some(Key::Up),
        KeyCode::Down => Some(Key::Down),
        KeyCode::Other => None,
    }
}

} // verus!
