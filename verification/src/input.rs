//! The single-line text editor behind every prompt.
use vstd::prelude::*;
use vstd::string::*;

use crate::key::Key;
use crate::text;

verus! {

/// Single-line text editor state. The cursor stands between characters, so
/// multibyte input is safe.
#[derive(Debug, PartialEq, Eq)]
pub struct Editor {
    text: String,
    /// Characters before the cursor.
    at: usize,
}

/// An editor as plain values: its text, and how many of its characters stand
/// before the cursor.
#[verifier::ext_equal]
pub struct EditorV {
    pub text: Seq<char>,
    pub at: nat,
}

impl View for Editor {
    type V = EditorV;

    closed spec fn view(&self) -> EditorV {
        EditorV { text: self.text@, at: self.at as nat }
    }
}

/// Outcome of feeding one key to the editor.
#[derive(Debug, PartialEq, Eq)]
pub enum EditResult {
    /// Editing continues with the updated state.
    Continue(Editor),
    /// The user confirmed the input; carries the final text.
    Submitted(String),
    /// The user abandoned the input.
    Cancelled,
}

/// An outcome as plain values.
#[verifier::ext_equal]
pub enum EditResultV {
    Continue(EditorV),
    Submitted(Seq<char>),
    Cancelled,
}

impl View for EditResult {
    type V = EditResultV;

    open spec fn view(&self) -> EditResultV {
        match *self {
            EditResult::Continue(editor) => EditResultV::Continue(editor@),
            EditResult::Submitted(text) => EditResultV::Submitted(text@),
            EditResult::Cancelled => EditResultV::Cancelled,
        }
    }
}

/// The text prefilled, with the cursor at its end.
pub open spec fn prefilled(text: Seq<char>) -> EditorV {
    EditorV { text, at: text.len() }
}

/// The text without what stands between two positions, the cursor where the
/// gap was.
pub open spec fn cut(text: Seq<char>, from: int, to: int) -> EditorV {
    EditorV { text: text.take(from) + text.skip(to), at: from as nat }
}

/// Where white space that ends at `at` starts.
pub open spec fn space_start(text: Seq<char>, at: int) -> int
    decreases at,
{
    if at > 0 && text::is_space(text[at - 1]) {
        space_start(text, at - 1)
    } else {
        at
    }
}

/// Where a run without white space that ends at `at` starts.
pub open spec fn run_start(text: Seq<char>, at: int) -> int
    decreases at,
{
    if at > 0 && !text::is_space(text[at - 1]) {
        run_start(text, at - 1)
    } else {
        at
    }
}

/// Where the word before `at` starts: white space directly before `at`
/// belongs to it.
pub open spec fn word_start(text: Seq<char>, at: int) -> int {
    run_start(text, space_start(text, at))
}

/// What one key does. Tab is a tree-navigation key; a literal tab in a
/// one-line title would only break alignment, so it does nothing, nor do the
/// vertical arrows and the chords that are no editing keys.
pub open spec fn edited(e: EditorV, key: Key) -> EditResultV {
    let at = e.at as int;
    match key {
        Key::Char(c) => EditResultV::Continue(
            EditorV { text: e.text.insert(at, c), at: e.at + 1 },
        ),
        Key::Backspace => EditResultV::Continue(
            if at > 0 {
                cut(e.text, at - 1, at)
            } else {
                e
            },
        ),
        Key::Left => EditResultV::Continue(
            EditorV {
                at: if at > 0 {
                    (at - 1) as nat
                } else {
                    0
                },
                ..e
            },
        ),
        Key::Right => EditResultV::Continue(
            EditorV {
                at: if at < e.text.len() {
                    e.at + 1
                } else {
                    e.at
                },
                ..e
            },
        ),
        Key::Ctrl('a') => EditResultV::Continue(EditorV { at: 0, ..e }),
        Key::Ctrl('e') => EditResultV::Continue(EditorV { at: e.text.len(), ..e }),
        Key::Ctrl('k') => EditResultV::Continue(cut(e.text, at, e.text.len() as int)),
        Key::Ctrl('u') => EditResultV::Continue(cut(e.text, 0, at)),
        Key::Ctrl('w') => EditResultV::Continue(cut(e.text, word_start(e.text, at), at)),
        Key::Enter => EditResultV::Submitted(e.text),
        Key::Esc => EditResultV::Cancelled,
        _ => EditResultV::Continue(e),
    }
}

impl Clone for Editor {
    fn clone(&self) -> (r: Self)
        ensures
            r@ == self@,
            self.wf() ==> r.wf(),
    {
        Editor { text: self.text.clone(), at: self.at }
    }
}

impl Editor {
    /// The cursor stands within the text.
    pub open spec fn wf(&self) -> bool {
        self@.at <= self@.text.len()
    }

    pub fn new() -> (r: Self)
        ensures
            r.wf(),
            r@ == prefilled(seq![]),
    {
        let r = Editor { text: String::new(), at: 0 };
        assert(r@ =~= prefilled(seq![]));
        r
    }

    /// Opens the editor prefilled, e.g. for renaming. The cursor starts at
    /// the end because appending is the most common first edit.
    pub fn with_text(text: &str) -> (r: Self)
        ensures
            r.wf(),
            r@ == prefilled(text@),
    {
        Editor { text: text.to_owned(), at: text.unicode_len() }
    }

    pub fn text(&self) -> (r: &str)
        ensures
            r@ == self@.text,
    {
        self.text.as_str()
    }

    /// How many characters stand before the cursor.
    pub fn position(&self) -> (r: usize)
        ensures
            r == self@.at,
    {
        self.at
    }

    /// Byte offset of the cursor within `text`, always on a char boundary:
    /// the length of the UTF-8 form of what stands before it.
    pub fn cursor(&self) -> (r: usize)
        requires
            self.wf(),
        ensures
            r == vstd::utf8::encode_utf8(self@.text.take(self@.at as int)).len() as usize,
    {
        self.text.as_str().substring_char(0, self.at).len()
    }

    /// The text without what stands between two positions.
    fn without(&self, from: usize, to: usize) -> (r: Editor)
        requires
            from <= to <= self@.text.len(),
        ensures
            r.wf(),
            r@ == cut(self@.text, from as int, to as int),
    {
        let chars = text::chars_of(self.text.as_str());
        let mut text = text::string_from(&chars, 0, from);
        let rest = text::string_from(&chars, to, chars.len());
        text.append(rest.as_str());
        let r = Editor { text, at: from };
        assert(r@.text =~= cut(self@.text, from as int, to as int).text);
        r
    }

    /// Where the word before the cursor starts.
    fn word_before(&self) -> (r: usize)
        requires
            self.wf(),
        ensures
            r == word_start(self@.text, self@.at as int),
            r <= self@.at,
    {
        let chars = text::chars_of(self.text.as_str());
        let mut i: usize = self.at;
        while i > 0 && text::space(chars[i - 1])
            invariant
                i <= self@.at <= chars@.len(),
                chars@ == self@.text,
                space_start(chars@, i as int) == space_start(chars@, self@.at as int),
            decreases i,
        {
            i = i - 1;
        }
        let ghost from = i as int;
        while i > 0 && !text::space(chars[i - 1])
            invariant
                i <= from <= chars@.len(),
                run_start(chars@, i as int) == run_start(chars@, from),
            decreases i,
        {
            i = i - 1;
        }
        i
    }

    /// Applies one key, consuming the state: same state + same key always
    /// yields the same result.
    pub fn handle_key(self, key: Key) -> (r: EditResult)
        requires
            self.wf(),
        ensures
            r@ == edited(self@, key),
            r matches EditResult::Continue(editor) ==> editor.wf(),
    {
        match key {
            Key::Char(c) => {
                let chars = text::chars_of(self.text.as_str());
                let mut text = text::string_from(&chars, 0, self.at);
                text.push(c);
                let rest = text::string_from(&chars, self.at, chars.len());
                text.append(rest.as_str());
                let end: usize = text.as_str().unicode_len();
                assert(self@.at < end);
                let r = Editor { text, at: self.at + 1 };
                assert(r@.text =~= self@.text.insert(self@.at as int, c));
                EditResult::Continue(r)
            },
            Key::Backspace => {
                if self.at > 0 {
                    EditResult::Continue(self.without(self.at - 1, self.at))
                } else {
                    EditResult::Continue(self)
                }
            },
            Key::Left => {
                if self.at > 0 {
                    EditResult::Continue(Editor { text: self.text, at: self.at - 1 })
                } else {
                    EditResult::Continue(self)
                }
            },
            Key::Right => {
                if self.at < self.text.as_str().unicode_len() {
                    EditResult::Continue(Editor { text: self.text, at: self.at + 1 })
                } else {
                    EditResult::Continue(self)
                }
            },
            Key::Ctrl(c) => {
                let end: usize = self.text.as_str().unicode_len();
                if c == 'a' {
                    EditResult::Continue(Editor { text: self.text, at: 0 })
                } else if c == 'e' {
                    EditResult::Continue(Editor { text: self.text, at: end })
                } else if c == 'k' {
                    EditResult::Continue(self.without(self.at, end))
                } else if c == 'u' {
                    EditResult::Continue(self.without(0, self.at))
                } else if c == 'w' {
                    let from = self.word_before();
                    EditResult::Continue(self.without(from, self.at))
                } else {
                    EditResult::Continue(self)
                }
            },
            Key::Enter => EditResult::Submitted(self.text),
            Key::Esc => EditResult::Cancelled,
            Key::Tab | Key::Alt(_) | Key::Up | Key::Down => EditResult::Continue(self),
        }
    }
}

impl Default for Editor {
    fn default() -> (r: Self)
        ensures
            r.wf(),
            r@ == prefilled(seq![]),
    {
        Editor::new()
    }
}

/// Typing a character and deleting it again gives the state back.
pub proof fn backspace_reverts_typing(e: EditorV, c: char)
    requires
        e.at <= e.text.len(),
    ensures
        edited(e, Key::Char(c)) is Continue,
        edited(edited(e, Key::Char(c))->Continue_0, Key::Backspace) == EditResultV::Continue(e),
{
    let typed = edited(e, Key::Char(c))->Continue_0;
    let at = e.at as int;
    assert(typed.text.take(at) + typed.text.skip(at + 1) =~= e.text);
}

/// The cursor never leaves the text.
pub proof fn cursor_stays_within_the_text(e: EditorV, key: Key)
    requires
        e.at <= e.text.len(),
    ensures
        edited(e, key) matches EditResultV::Continue(next) ==> next.at <= next.text.len(),
{
    lemma_word_start(e.text, e.at as int);
}

proof fn lemma_word_start(text: Seq<char>, at: int)
    requires
        0 <= at <= text.len(),
    ensures
        0 <= word_start(text, at) <= at,
{
    lemma_space_start(text, at);
    lemma_run_start(text, space_start(text, at));
}

proof fn lemma_space_start(text: Seq<char>, at: int)
    requires
        0 <= at <= text.len(),
    ensures
        0 <= space_start(text, at) <= at,
    decreases at,
{
    if at > 0 && text::is_space(text[at - 1]) {
        lemma_space_start(text, at - 1);
    }
}

proof fn lemma_run_start(text: Seq<char>, at: int)
    requires
        0 <= at <= text.len(),
    ensures
        0 <= run_start(text, at) <= at,
    decreases at,
{
    if at > 0 && !text::is_space(text[at - 1]) {
        lemma_run_start(text, at - 1);
    }
}

/// What stands before the cursor.
pub open spec fn left_of(e: EditorV) -> Seq<char> {
    e.text.subrange(0, e.at as int)
}

/// What stands behind the cursor.
pub open spec fn right_of(e: EditorV) -> Seq<char> {
    e.text.subrange(e.at as int, e.text.len() as int)
}

proof fn lemma_cut(e: EditorV, from: int)
    requires
        0 <= from <= e.at <= e.text.len(),
    ensures
        left_of(cut(e.text, from, e.at as int)) == e.text.subrange(0, from),
        right_of(cut(e.text, from, e.at as int)) == right_of(e),
        cut(e.text, from, e.at as int).at == from,
{
    let next = cut(e.text, from, e.at as int);
    assert(left_of(next) =~= e.text.subrange(0, from));
    assert(right_of(next) =~= right_of(e));
}

/// A character goes in at the cursor, and Backspace takes out the one before
/// it; what stands around stays.
pub proof fn typing_changes_the_text_at_the_cursor(e: EditorV, c: char)
    requires
        e.at <= e.text.len(),
    ensures
        edited(e, Key::Char(c)) is Continue,
        left_of(edited(e, Key::Char(c))->Continue_0) == left_of(e).push(c),
        right_of(edited(e, Key::Char(c))->Continue_0) == right_of(e),
        edited(e, Key::Backspace) is Continue,
        e.at == 0 ==> edited(e, Key::Backspace)->Continue_0 == e,
        e.at > 0 ==> left_of(edited(e, Key::Backspace)->Continue_0) == e.text.subrange(
            0,
            e.at - 1,
        ),
        right_of(edited(e, Key::Backspace)->Continue_0) == right_of(e),
{
    let typed = edited(e, Key::Char(c))->Continue_0;
    assert(left_of(typed) =~= left_of(e).push(c));
    assert(right_of(typed) =~= right_of(e));
    if e.at > 0 {
        lemma_cut(e, e.at - 1);
    }
}

/// The cursor goes one character left or right, or to either end, and the
/// text stays.
pub proof fn the_cursor_moves_in_the_text(e: EditorV)
    requires
        e.at <= e.text.len(),
    ensures
        ({
            let left = edited(e, Key::Left);
            let right = edited(e, Key::Right);
            let start = edited(e, Key::Ctrl('a'));
            let end = edited(e, Key::Ctrl('e'));
            &&& left is Continue && right is Continue && start is Continue && end is Continue
            &&& left->Continue_0.text == e.text && right->Continue_0.text == e.text
            &&& start->Continue_0.text == e.text && end->Continue_0.text == e.text
            &&& e.at > 0 ==> left->Continue_0.at == e.at - 1
            &&& e.at == 0 ==> left->Continue_0.at == 0
            &&& e.at < e.text.len() ==> right->Continue_0.at == e.at + 1
            &&& e.at == e.text.len() ==> right->Continue_0.at == e.at
            &&& start->Continue_0.at == 0
            &&& end->Continue_0.at == e.text.len()
        }),
{
}

/// Deleting to the end leaves what stands before the cursor, deleting to the
/// start what stands behind it.
pub proof fn deleting_to_an_end_leaves_the_other_side(e: EditorV)
    requires
        e.at <= e.text.len(),
    ensures
        edited(e, Key::Ctrl('k')) is Continue,
        edited(e, Key::Ctrl('k'))->Continue_0.text == left_of(e),
        edited(e, Key::Ctrl('k'))->Continue_0.at == e.at,
        edited(e, Key::Ctrl('u')) is Continue,
        edited(e, Key::Ctrl('u'))->Continue_0.text == right_of(e),
        edited(e, Key::Ctrl('u'))->Continue_0.at == 0,
{
    assert(edited(e, Key::Ctrl('k'))->Continue_0.text =~= left_of(e));
    assert(edited(e, Key::Ctrl('u'))->Continue_0.text =~= right_of(e));
}

proof fn lemma_spaces_before(text: Seq<char>, at: int)
    requires
        0 <= at <= text.len(),
    ensures
        0 <= space_start(text, at) <= at,
        forall|k: int| space_start(text, at) <= k < at ==> text::is_space(#[trigger] text[k]),
        space_start(text, at) > 0 ==> !text::is_space(text[space_start(text, at) - 1]),
    decreases at,
{
    if at > 0 && text::is_space(text[at - 1]) {
        lemma_spaces_before(text, at - 1);
    }
}

proof fn lemma_word_before(text: Seq<char>, at: int)
    requires
        0 <= at <= text.len(),
    ensures
        0 <= run_start(text, at) <= at,
        forall|k: int| run_start(text, at) <= k < at ==> !text::is_space(#[trigger] text[k]),
        run_start(text, at) > 0 ==> text::is_space(text[run_start(text, at) - 1]),
    decreases at,
{
    if at > 0 && !text::is_space(text[at - 1]) {
        lemma_word_before(text, at - 1);
    }
}

/// Deleting the previous word takes the white space right before the cursor
/// and the whole word before that, and leaves the rest.
pub proof fn deleting_a_word_takes_one_word(e: EditorV)
    requires
        e.at <= e.text.len(),
    ensures
        edited(e, Key::Ctrl('w')) is Continue,
        ({
            let next = edited(e, Key::Ctrl('w'))->Continue_0;
            let from = next.at as int;
            &&& from <= e.at
            &&& left_of(next) == e.text.subrange(0, from)
            &&& right_of(next) == right_of(e)
            &&& from > 0 ==> text::is_space(e.text[from - 1])
            &&& exists|mid: int|
                {
                    &&& from <= mid <= e.at
                    &&& #[trigger] ends_a_word(e.text, mid)
                    &&& forall|k: int| from <= k < mid ==> !text::is_space(#[trigger] e.text[k])
                    &&& forall|k: int| mid <= k < e.at ==> text::is_space(#[trigger] e.text[k])
                }
        }),
{
    let at = e.at as int;
    let mid = space_start(e.text, at);
    lemma_spaces_before(e.text, at);
    lemma_word_before(e.text, mid);
    lemma_cut(e, word_start(e.text, at));
    assert(ends_a_word(e.text, mid));
}

/// No white space right before this place.
pub open spec fn ends_a_word(text: Seq<char>, mid: int) -> bool {
    mid > 0 ==> !text::is_space(text[mid - 1])
}

/// Enter hands over the text as it is, Esc drops it, and keys that are no
/// editing keys change nothing.
pub proof fn enter_submits_and_esc_cancels(e: EditorV, c: char)
    ensures
        edited(e, Key::Enter) == EditResultV::Submitted(e.text),
        edited(e, Key::Esc) == EditResultV::Cancelled,
        edited(e, Key::Tab) == EditResultV::Continue(e),
        edited(e, Key::Up) == EditResultV::Continue(e),
        edited(e, Key::Down) == EditResultV::Continue(e),
        edited(e, Key::Alt(c)) == EditResultV::Continue(e),
        c != 'a' && c != 'e' && c != 'k' && c != 'u' && c != 'w' ==> edited(e, Key::Ctrl(c))
            == EditResultV::Continue(e),
{
}

} // verus!
