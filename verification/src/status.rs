//! User-defined statuses.
use vstd::prelude::*;

use crate::text;
use crate::text::same;

verus! {

/// Progress classification of a user-defined status. Features that cannot
/// know user-chosen labels (hiding finished tasks, progress counts) key off
/// this instead.
#[derive(Debug, Clone, Copy, PartialEq, Eq, Structural)]
pub enum StatusKind {
    Open,
    Done,
    Cancelled,
}

impl StatusKind {
    /// The stored text form.
    pub open spec fn text(self) -> Seq<char> {
        match self {
            StatusKind::Open => "open"@,
            StatusKind::Done => "done"@,
            StatusKind::Cancelled => "cancelled"@,
        }
    }

    pub fn as_str(self) -> (r: &'static str)
        ensures
            r@ == self.text(),
    {
        match self {
            StatusKind::Open => "open",
            StatusKind::Done => "done",
            StatusKind::Cancelled => "cancelled",
        }
    }

    /// The kind stored as `text`. None for any other text, instead of
    /// guessing a variant.
    pub fn parse(text: &str) -> (r: Option<Self>)
        ensures
            r matches Some(kind) ==> kind.text() == text@,
            r is None ==> forall|kind: StatusKind| #[trigger] kind.text() != text@,
    {
        if same(text, "open") {
            Some(StatusKind::Open)
        } else if same(text, "done") {
            Some(StatusKind::Done)
        } else if same(text, "cancelled") {
            Some(StatusKind::Cancelled)
        } else {
            None
        }
    }
}

/// Different kinds have different text forms, so parsing the text form of a
/// kind can only give that kind back.
pub proof fn kind_text_is_unique(a: StatusKind, b: StatusKind)
    requires
        a.text() == b.text(),
    ensures
        a == b,
{
    reveal_strlit("open");
    reveal_strlit("done");
    reveal_strlit("cancelled");
    assert("open"@[0] != "done"@[0]);
    assert("open"@[0] != "cancelled"@[0]);
    assert("done"@[0] != "cancelled"@[0]);
}

/// Which neighbour a status swaps display order with when reordered.
#[derive(Debug, Clone, Copy, PartialEq, Eq, Structural)]
pub enum StatusMove {
    Up,
    Down,
}

#[derive(Debug, PartialEq, Eq)]
pub struct Status {
    /// Internal key referenced by tasks; never shown to the user.
    pub id: i64,
    pub label: String,
    pub kind: StatusKind,
    pub color: String,
    /// One-key shortcut in the status-select menu.
    pub key: char,
    pub display_order: i64,
    pub is_default: bool,
}

/// A status as plain values.
#[verifier::ext_equal]
pub struct StatusV {
    pub id: i64,
    pub label: Seq<char>,
    pub kind: StatusKind,
    pub color: Seq<char>,
    pub key: char,
    pub display_order: i64,
    pub is_default: bool,
}

impl View for Status {
    type V = StatusV;

    open spec fn view(&self) -> StatusV {
        StatusV {
            id: self.id,
            label: self.label@,
            kind: self.kind,
            color: self.color@,
            key: self.key,
            display_order: self.display_order,
            is_default: self.is_default,
        }
    }
}

impl Clone for Status {
    fn clone(&self) -> (r: Self)
        ensures
            r == *self,
    {
        Status {
            id: self.id,
            label: self.label.clone(),
            kind: self.kind,
            color: self.color.clone(),
            key: self.key,
            display_order: self.display_order,
            is_default: self.is_default,
        }
    }
}

/// The views of a list of statuses.
pub open spec fn statuses_view(v: Seq<Status>) -> Seq<StatusV> {
    v.map_values(|s: Status| s@)
}

/// Why a stored status cannot be read.
#[derive(Debug, PartialEq, Eq)]
pub enum ColumnError {
    UnknownKind(String),
    EmptyKey,
}

impl ColumnError {
    pub fn message(&self) -> (r: String)
        ensures
            r@ == (match *self {
                ColumnError::UnknownKind(kind) => "unknown status kind `"@ + kind@ + "`"@,
                ColumnError::EmptyKey => "empty status key"@,
            }),
    {
        match self {
            ColumnError::UnknownKind(kind) => text::concat3(
                "unknown status kind `",
                kind.as_str(),
                "`",
            ),
            ColumnError::EmptyKey => "empty status key".to_owned(),
        }
    }
}

/// The kind and key of a stored status, from their text columns. A longer
/// key text stands for its first character.
pub fn read_columns(kind: &str, key: &str) -> (r: Result<(StatusKind, char), ColumnError>)
    ensures
        match r {
            Ok((k, c)) => k.text() == kind@ && key@.len() > 0 && c == key@[0],
            Err(ColumnError::UnknownKind(t)) => t@ == kind@ && forall|k: StatusKind| #[trigger]
                k.text() != kind@,
            Err(ColumnError::EmptyKey) => key@.len() == 0 && exists|k: StatusKind| #[trigger]
                k.text() == kind@,
        },
{
    let parsed = match StatusKind::parse(kind) {
        Some(parsed) => parsed,
        None => {
            return Err(ColumnError::UnknownKind(kind.to_owned()));
        },
    };
    let chars = text::chars_of(key);
    if chars.len() == 0 {
        assert(parsed.text() == kind@);
        return Err(ColumnError::EmptyKey);
    }
    Ok((parsed, chars[0]))
}

} // verus!
