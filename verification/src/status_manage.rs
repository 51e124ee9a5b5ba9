//! State of the status-management modal.
use vstd::prelude::*;

use crate::input::{Editor, EditorV};
use crate::status;
use crate::status::{Status, StatusKind, StatusV};

verus! {

/// Editable columns of the status-management table, in display order.
#[derive(Debug, Clone, Copy, PartialEq, Eq, Structural)]
pub enum Column {
    Label,
    Kind,
    Color,
    Key,
}

impl Default for Column {
    fn default() -> (r: Self)
        ensures
            r == Column::Label,
    {
        Column::Label
    }
}

pub open spec fn left_of(col: Column) -> Column {
    match col {
        Column::Label | Column::Kind => Column::Label,
        Column::Color => Column::Kind,
        Column::Key => Column::Color,
    }
}

pub open spec fn right_of(col: Column) -> Column {
    match col {
        Column::Label => Column::Kind,
        Column::Kind => Column::Color,
        Column::Color | Column::Key => Column::Key,
    }
}

impl Column {
    pub fn left(self) -> (r: Self)
        ensures
            r == left_of(self),
    {
        match self {
            Column::Label | Column::Kind => Column::Label,
            Column::Color => Column::Kind,
            Column::Key => Column::Color,
        }
    }

    pub fn right(self) -> (r: Self)
        ensures
            r == right_of(self),
    {
        match self {
            Column::Label => Column::Kind,
            Column::Kind => Column::Color,
            Column::Color | Column::Key => Column::Key,
        }
    }
}

/// What the modal is currently capturing, if anything. While this is not
/// `Nothing`, keys bypass the keymap and feed the capture instead.
#[derive(Debug)]
pub enum Editing {
    Nothing,
    /// Inline text edit of the selected label/color cell.
    Cell(Editor),
    /// The next plain key press becomes the status key.
    KeyCapture,
    /// Entering the label for a status about to be created.
    NewStatus(Editor),
}

/// A capture as plain values.
#[verifier::ext_equal]
pub enum EditingV {
    Nothing,
    Cell(EditorV),
    KeyCapture,
    NewStatus(EditorV),
}

impl View for Editing {
    type V = EditingV;

    open spec fn view(&self) -> EditingV {
        match *self {
            Editing::Nothing => EditingV::Nothing,
            Editing::Cell(e) => EditingV::Cell(e@),
            Editing::KeyCapture => EditingV::KeyCapture,
            Editing::NewStatus(e) => EditingV::NewStatus(e@),
        }
    }
}

impl Editing {
    /// The editor, where there is one, has its cursor within its text.
    pub open spec fn wf(&self) -> bool {
        match *self {
            Editing::Cell(e) => e.wf(),
            Editing::NewStatus(e) => e.wf(),
            _ => true,
        }
    }
}

impl Default for Editing {
    fn default() -> (r: Self)
        ensures
            r == Editing::Nothing,
    {
        Editing::Nothing
    }
}

/// Cursor state of the status-management modal.
#[derive(Debug)]
pub struct ManageState {
    pub row: usize,
    pub col: Column,
    pub editing: Editing,
}

/// A modal state as plain values.
#[verifier::ext_equal]
pub struct ManageV {
    pub row: usize,
    pub col: Column,
    pub editing: EditingV,
}

impl View for ManageState {
    type V = ManageV;

    open spec fn view(&self) -> ManageV {
        ManageV { row: self.row, col: self.col, editing: self.editing@ }
    }
}

/// The modal as it opens.
pub open spec fn opened() -> ManageV {
    ManageV { row: 0, col: Column::Label, editing: EditingV::Nothing }
}

/// The last index of a list, 0 where it is empty.
pub open spec fn last_index(len: usize) -> usize {
    if len == 0 {
        0
    } else {
        (len - 1) as usize
    }
}

/// An index kept within a list.
pub open spec fn clamped(i: usize, len: usize) -> usize {
    if i <= last_index(len) {
        i
    } else {
        last_index(len)
    }
}

/// One index further, but within the list.
pub open spec fn next_within(i: usize, len: usize) -> usize {
    if i < last_index(len) {
        (i + 1) as usize
    } else {
        last_index(len)
    }
}

impl Default for ManageState {
    fn default() -> (r: Self)
        ensures
            r@ == opened(),
            r.editing.wf(),
    {
        ManageState { row: 0, col: Column::Label, editing: Editing::Nothing }
    }
}

impl ManageState {
    pub fn new() -> (r: Self)
        ensures
            r@ == opened(),
            r.editing.wf(),
    {
        ManageState { row: 0, col: Column::Label, editing: Editing::Nothing }
    }

    pub fn move_down(&mut self, len: usize)
        ensures
            *final(self) == (ManageState { row: next_within(old(self).row, len), ..*old(self) }),
    {
        let last: usize = len.saturating_sub(1);
        if self.row < last {
            self.row = self.row + 1;
        } else {
            self.row = last;
        }
    }

    pub fn move_up(&mut self)
        ensures
            *final(self) == (ManageState {
                row: if old(self).row == 0 {
                    0
                } else {
                    (old(self).row - 1) as usize
                },
                ..*old(self)
            }),
    {
        self.row = self.row.saturating_sub(1);
    }

    /// Keeps the cursor on an existing row after the list shrinks.
    pub fn clamp_row(&mut self, len: usize)
        ensures
            *final(self) == (ManageState { row: clamped(old(self).row, len), ..*old(self) }),
    {
        let last: usize = len.saturating_sub(1);
        if self.row > last {
            self.row = last;
        }
    }
}

pub open spec fn next_kind(kind: StatusKind) -> StatusKind {
    match kind {
        StatusKind::Open => StatusKind::Done,
        StatusKind::Done => StatusKind::Cancelled,
        StatusKind::Cancelled => StatusKind::Open,
    }
}

/// Advances the kind one step through its fixed cycle, so a single key can
/// reach every variant.
pub fn toggle_kind(kind: StatusKind) -> (r: StatusKind)
    ensures
        r == next_kind(kind),
{
    match kind {
        StatusKind::Open => StatusKind::Done,
        StatusKind::Done => StatusKind::Cancelled,
        StatusKind::Cancelled => StatusKind::Open,
    }
}

/// Toggling reaches every kind and comes back after the third time.
pub proof fn toggling_reaches_every_kind(kind: StatusKind, wanted: StatusKind)
    ensures
        wanted == kind || wanted == next_kind(kind) || wanted == next_kind(next_kind(kind)),
        next_kind(next_kind(next_kind(kind))) == kind,
{
}

/// Some status has this key.
pub open spec fn key_used(statuses: Seq<StatusV>, key: char) -> bool {
    exists|i: int| 0 <= i < statuses.len() && (#[trigger] statuses[i]).key == key
}

/// The first letter from `n` (as a character code) up to `z` that no status
/// uses.
pub open spec fn free_from(statuses: Seq<StatusV>, n: u8) -> Option<char>
    decreases 123 - n,
{
    if n > 122 {
        None
    } else if !key_used(statuses, n as char) {
        Some(n as char)
    } else {
        free_from(statuses, (n + 1) as u8)
    }
}

/// The first letter in a-z that no status uses.
pub open spec fn unused_key(statuses: Seq<StatusV>) -> Option<char> {
    free_from(statuses, 97)
}

fn uses_key(statuses: &Vec<Status>, key: char) -> (r: bool)
    ensures
        r == key_used(status::statuses_view(statuses@), key),
{
    let ghost v = status::statuses_view(statuses@);
    let mut i: usize = 0;
    while i < statuses.len()
        invariant
            i <= statuses.len(),
            v == status::statuses_view(statuses@),
            forall|j: int| 0 <= j < i ==> (#[trigger] v[j]).key != key,
        decreases statuses.len() - i,
    {
        assert(v[i as int] == statuses@[i as int]@);
        if statuses[i].key == key {
            return true;
        }
        i = i + 1;
    }
    false
}

/// First key in a-z not used by any status; None when all are taken. New
/// statuses get this as their auto-assigned menu key.
pub fn free_key(statuses: &Vec<Status>) -> (r: Option<char>)
    ensures
        r == unused_key(status::statuses_view(statuses@)),
{
    let mut n: u8 = 97;
    while n <= 122
        invariant
            97 <= n <= 123,
            free_from(status::statuses_view(statuses@), n) == unused_key(
                status::statuses_view(statuses@),
            ),
        decreases 123 - n,
    {
        if !uses_key(statuses, n as char) {
            return Some(n as char);
        }
        n = n + 1;
    }
    None
}

/// Some other status has this key.
pub open spec fn taken(statuses: Seq<StatusV>, key: char, exclude_id: i64) -> bool {
    exists|i: int|
        0 <= i < statuses.len() && (#[trigger] statuses[i]).key == key && statuses[i].id
            != exclude_id
}

/// Whether `key` is already the menu key of a status other than
/// `exclude_id` (a status may keep its own key).
pub fn key_taken(statuses: &Vec<Status>, key: char, exclude_id: i64) -> (r: bool)
    ensures
        r == taken(status::statuses_view(statuses@), key, exclude_id),
{
    let ghost v = status::statuses_view(statuses@);
    let mut i: usize = 0;
    while i < statuses.len()
        invariant
            i <= statuses.len(),
            v == status::statuses_view(statuses@),
            forall|j: int| 0 <= j < i ==> !((#[trigger] v[j]).key == key && v[j].id != exclude_id),
        decreases statuses.len() - i,
    {
        assert(v[i as int] == statuses@[i as int]@);
        if statuses[i].key == key && statuses[i].id != exclude_id {
            return true;
        }
        i = i + 1;
    }
    false
}

} // verus!
