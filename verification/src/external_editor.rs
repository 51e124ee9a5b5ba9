//! The decisions around handing a note over to the user's `$EDITOR`.
use vstd::prelude::*;

use crate::text;

verus! {

/// What the editor session produced.
#[derive(Debug, PartialEq, Eq)]
pub enum EditOutcome {
    /// The editor exited successfully with modified text.
    Changed(String),
    /// The editor exited successfully but the text is byte-identical to the
    /// original. Callers skip the database write, so no empty undo step is
    /// recorded.
    Unchanged,
    /// The editor exited non-zero (e.g. `:cq` in Helix); the edit is
    /// discarded.
    Aborted,
}

/// An outcome as plain values.
#[verifier::ext_equal]
pub enum EditOutcomeV {
    Changed(Seq<char>),
    Unchanged,
    Aborted,
}

impl View for EditOutcome {
    type V = EditOutcomeV;

    open spec fn view(&self) -> EditOutcomeV {
        match *self {
            EditOutcome::Changed(s) => EditOutcomeV::Changed(s@),
            EditOutcome::Unchanged => EditOutcomeV::Unchanged,
            EditOutcome::Aborted => EditOutcomeV::Aborted,
        }
    }
}

/// The words of an `$EDITOR`-style value: the command and its arguments. An
/// unset or blank value stands for `hx`.
pub open spec fn editor_words(value: Option<Seq<char>>) -> Seq<Seq<char>> {
    match value {
        Some(v) => if text::words_of(v).len() > 0 {
            text::words_of(v)
        } else {
            seq!["hx"@]
        },
        None => seq!["hx"@],
    }
}

/// Splits an `$EDITOR`-style value into command and arguments on
/// whitespace. An unset or blank value falls back to `hx`.
pub fn parse_editor(value: Option<&str>) -> (r: (String, Vec<String>))
    ensures
        seq![r.0@] + text::texts(r.1@) == editor_words(crate::db::str_option(value)),
{
    let mut parts: Vec<String> = match value {
        Some(v) => text::words(v),
        None => Vec::new(),
    };
    let ghost all = text::texts(parts@);
    if parts.len() == 0 {
        let none: Vec<String> = Vec::new();
        assert(all =~= seq![]);
        assert(seq!["hx"@] + text::texts(none@) =~= seq!["hx"@]);
        return ("hx".to_owned(), none);
    }
    let command = parts.remove(0);
    assert(seq![command@] + text::texts(parts@) =~= all);
    (command, parts)
}

/// Decides the outcome of a successful editor exit from the text read back.
pub fn outcome(original: &str, edited: String) -> (r: EditOutcome)
    ensures
        r@ == (if edited@ == original@ {
            EditOutcomeV::Unchanged
        } else {
            EditOutcomeV::Changed(edited@)
        }),
{
    if text::same(edited.as_str(), original) {
        EditOutcome::Unchanged
    } else {
        EditOutcome::Changed(edited)
    }
}

} // verus!
