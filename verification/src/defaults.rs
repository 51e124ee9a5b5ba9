//! What holds of the command table and of the bindings in force without any
//! configuration.
use vstd::prelude::*;

use crate::command;
use crate::command::{CommandId, CommandV, Context};
use crate::key;
use crate::key::Key;
use crate::keymap;
use crate::keymap::BindingV;

verus! {

/// No two commands share a text.
#[verifier::rlimit(100)]
pub proof fn texts_are_unique(a: CommandId, b: CommandId)
    requires
        a.text() == b.text(),
    ensures
        a == b,
{
    // Texts of one length differ at one of the places read here.
    reveal_strlit("app.quit");
    assert("app.quit"@.len() == 8 && "app.quit"@[0] == 'a' && "app.quit"@[4] == 'q'
        && "app.quit"@[7] == 't');
    reveal_strlit("app.undo");
    assert("app.undo"@.len() == 8 && "app.undo"@[0] == 'a' && "app.undo"@[4] == 'u'
        && "app.undo"@[7] == 'o');
    reveal_strlit("app.redo");
    assert("app.redo"@.len() == 8 && "app.redo"@[0] == 'a' && "app.redo"@[4] == 'r'
        && "app.redo"@[7] == 'o');
    reveal_strlit("tree.select_next");
    assert("tree.select_next"@.len() == 16 && "tree.select_next"@[0] == 't'
        && "tree.select_next"@[4] == '.' && "tree.select_next"@[7] == 'l'
        && "tree.select_next"@[9] == 'c' && "tree.select_next"@[13] == 'e');
    reveal_strlit("tree.select_prev");
    assert("tree.select_prev"@.len() == 16 && "tree.select_prev"@[0] == 't'
        && "tree.select_prev"@[4] == '.' && "tree.select_prev"@[7] == 'l'
        && "tree.select_prev"@[9] == 'c' && "tree.select_prev"@[13] == 'r');
    reveal_strlit("tree.select_first");
    assert("tree.select_first"@.len() == 17 && "tree.select_first"@[0] == 't'
        && "tree.select_first"@[4] == '.' && "tree.select_first"@[7] == 'l'
        && "tree.select_first"@[9] == 'c' && "tree.select_first"@[13] == 'i');
    reveal_strlit("tree.select_last");
    assert("tree.select_last"@.len() == 16 && "tree.select_last"@[0] == 't'
        && "tree.select_last"@[4] == '.' && "tree.select_last"@[7] == 'l'
        && "tree.select_last"@[9] == 'c' && "tree.select_last"@[13] == 'a');
    reveal_strlit("tree.half_page_down");
    assert("tree.half_page_down"@.len() == 19 && "tree.half_page_down"@[0] == 't'
        && "tree.half_page_down"@[4] == '.' && "tree.half_page_down"@[7] == 'l'
        && "tree.half_page_down"@[9] == '_' && "tree.half_page_down"@[13] == 'e');
    reveal_strlit("tree.half_page_up");
    assert("tree.half_page_up"@.len() == 17 && "tree.half_page_up"@[0] == 't'
        && "tree.half_page_up"@[4] == '.' && "tree.half_page_up"@[7] == 'l'
        && "tree.half_page_up"@[9] == '_' && "tree.half_page_up"@[13] == 'e');
    reveal_strlit("tree.select_parent");
    assert("tree.select_parent"@.len() == 18 && "tree.select_parent"@[0] == 't'
        && "tree.select_parent"@[4] == '.' && "tree.select_parent"@[7] == 'l'
        && "tree.select_parent"@[9] == 'c' && "tree.select_parent"@[13] == 'a');
    reveal_strlit("tree.select_first_child");
    assert("tree.select_first_child"@.len() == 23 && "tree.select_first_child"@[0] == 't'
        && "tree.select_first_child"@[4] == '.' && "tree.select_first_child"@[7] == 'l'
        && "tree.select_first_child"@[9] == 'c' && "tree.select_first_child"@[13] == 'i');
    reveal_strlit("task.create");
    assert("task.create"@.len() == 11 && "task.create"@[0] == 't' && "task.create"@[4] == '.'
        && "task.create"@[7] == 'e' && "task.create"@[9] == 't');
    reveal_strlit("task.create_child");
    assert("task.create_child"@.len() == 17 && "task.create_child"@[0] == 't'
        && "task.create_child"@[4] == '.' && "task.create_child"@[7] == 'e'
        && "task.create_child"@[9] == 't' && "task.create_child"@[13] == 'h');
    reveal_strlit("task.rename");
    assert("task.rename"@.len() == 11 && "task.rename"@[0] == 't' && "task.rename"@[4] == '.'
        && "task.rename"@[7] == 'n' && "task.rename"@[9] == 'm');
    reveal_strlit("task.set_status");
    assert("task.set_status"@.len() == 15 && "task.set_status"@[0] == 't'
        && "task.set_status"@[4] == '.' && "task.set_status"@[7] == 't'
        && "task.set_status"@[9] == 's' && "task.set_status"@[13] == 'u');
    reveal_strlit("task.set_due");
    assert("task.set_due"@.len() == 12 && "task.set_due"@[0] == 't' && "task.set_due"@[4] == '.'
        && "task.set_due"@[7] == 't' && "task.set_due"@[9] == 'd');
    reveal_strlit("task.edit_note");
    assert("task.edit_note"@.len() == 14 && "task.edit_note"@[0] == 't'
        && "task.edit_note"@[4] == '.' && "task.edit_note"@[7] == 'i'
        && "task.edit_note"@[9] == '_' && "task.edit_note"@[13] == 'e');
    reveal_strlit("task.status_next");
    assert("task.status_next"@.len() == 16 && "task.status_next"@[0] == 't'
        && "task.status_next"@[4] == '.' && "task.status_next"@[7] == 'a'
        && "task.status_next"@[9] == 'u' && "task.status_next"@[13] == 'e');
    reveal_strlit("task.status_prev");
    assert("task.status_prev"@.len() == 16 && "task.status_prev"@[0] == 't'
        && "task.status_prev"@[4] == '.' && "task.status_prev"@[7] == 'a'
        && "task.status_prev"@[9] == 'u' && "task.status_prev"@[13] == 'r');
    reveal_strlit("status.cancel");
    assert("status.cancel"@.len() == 13 && "status.cancel"@[0] == 's'
        && "status.cancel"@[4] == 'u' && "status.cancel"@[7] == 'c' && "status.cancel"@[9] == 'n');
    reveal_strlit("status.manage");
    assert("status.manage"@.len() == 13 && "status.manage"@[0] == 's'
        && "status.manage"@[4] == 'u' && "status.manage"@[7] == 'm' && "status.manage"@[9] == 'n');
    reveal_strlit("statuses.row_next");
    assert("statuses.row_next"@.len() == 17 && "statuses.row_next"@[0] == 's'
        && "statuses.row_next"@[4] == 'u' && "statuses.row_next"@[7] == 's'
        && "statuses.row_next"@[9] == 'r' && "statuses.row_next"@[13] == 'n');
    reveal_strlit("statuses.row_prev");
    assert("statuses.row_prev"@.len() == 17 && "statuses.row_prev"@[0] == 's'
        && "statuses.row_prev"@[4] == 'u' && "statuses.row_prev"@[7] == 's'
        && "statuses.row_prev"@[9] == 'r' && "statuses.row_prev"@[13] == 'p');
    reveal_strlit("statuses.col_prev");
    assert("statuses.col_prev"@.len() == 17 && "statuses.col_prev"@[0] == 's'
        && "statuses.col_prev"@[4] == 'u' && "statuses.col_prev"@[7] == 's'
        && "statuses.col_prev"@[9] == 'c' && "statuses.col_prev"@[13] == 'p');
    reveal_strlit("statuses.col_next");
    assert("statuses.col_next"@.len() == 17 && "statuses.col_next"@[0] == 's'
        && "statuses.col_next"@[4] == 'u' && "statuses.col_next"@[7] == 's'
        && "statuses.col_next"@[9] == 'c' && "statuses.col_next"@[13] == 'n');
    reveal_strlit("statuses.edit_cell");
    assert("statuses.edit_cell"@.len() == 18 && "statuses.edit_cell"@[0] == 's'
        && "statuses.edit_cell"@[4] == 'u' && "statuses.edit_cell"@[7] == 's'
        && "statuses.edit_cell"@[9] == 'e' && "statuses.edit_cell"@[13] == '_');
    reveal_strlit("statuses.add");
    assert("statuses.add"@.len() == 12 && "statuses.add"@[0] == 's' && "statuses.add"@[4] == 'u'
        && "statuses.add"@[7] == 's' && "statuses.add"@[9] == 'a');
    reveal_strlit("statuses.delete");
    assert("statuses.delete"@.len() == 15 && "statuses.delete"@[0] == 's'
        && "statuses.delete"@[4] == 'u' && "statuses.delete"@[7] == 's'
        && "statuses.delete"@[9] == 'd' && "statuses.delete"@[13] == 't');
    reveal_strlit("statuses.move_down");
    assert("statuses.move_down"@.len() == 18 && "statuses.move_down"@[0] == 's'
        && "statuses.move_down"@[4] == 'u' && "statuses.move_down"@[7] == 's'
        && "statuses.move_down"@[9] == 'm' && "statuses.move_down"@[13] == '_');
    reveal_strlit("statuses.move_up");
    assert("statuses.move_up"@.len() == 16 && "statuses.move_up"@[0] == 's'
        && "statuses.move_up"@[4] == 'u' && "statuses.move_up"@[7] == 's'
        && "statuses.move_up"@[9] == 'm' && "statuses.move_up"@[13] == '_');
    reveal_strlit("statuses.set_default");
    assert("statuses.set_default"@.len() == 20 && "statuses.set_default"@[0] == 's'
        && "statuses.set_default"@[4] == 'u' && "statuses.set_default"@[7] == 's'
        && "statuses.set_default"@[9] == 's' && "statuses.set_default"@[13] == 'd');
    reveal_strlit("statuses.close");
    assert("statuses.close"@.len() == 14 && "statuses.close"@[0] == 's'
        && "statuses.close"@[4] == 'u' && "statuses.close"@[7] == 's'
        && "statuses.close"@[9] == 'c' && "statuses.close"@[13] == 'e');
    reveal_strlit("statuses.undo");
    assert("statuses.undo"@.len() == 13 && "statuses.undo"@[0] == 's'
        && "statuses.undo"@[4] == 'u' && "statuses.undo"@[7] == 's' && "statuses.undo"@[9] == 'u');
    reveal_strlit("statuses.redo");
    assert("statuses.redo"@.len() == 13 && "statuses.redo"@[0] == 's'
        && "statuses.redo"@[4] == 'u' && "statuses.redo"@[7] == 's' && "statuses.redo"@[9] == 'r');
    reveal_strlit("task.move_up");
    assert("task.move_up"@.len() == 12 && "task.move_up"@[0] == 't' && "task.move_up"@[4] == '.'
        && "task.move_up"@[7] == 'v' && "task.move_up"@[9] == '_');
    reveal_strlit("task.move_down");
    assert("task.move_down"@.len() == 14 && "task.move_down"@[0] == 't'
        && "task.move_down"@[4] == '.' && "task.move_down"@[7] == 'v'
        && "task.move_down"@[9] == '_' && "task.move_down"@[13] == 'n');
    reveal_strlit("task.indent");
    assert("task.indent"@.len() == 11 && "task.indent"@[0] == 't' && "task.indent"@[4] == '.'
        && "task.indent"@[7] == 'd' && "task.indent"@[9] == 'n');
    reveal_strlit("task.outdent");
    assert("task.outdent"@.len() == 12 && "task.outdent"@[0] == 't' && "task.outdent"@[4] == '.'
        && "task.outdent"@[7] == 't' && "task.outdent"@[9] == 'e');
    reveal_strlit("task.delete");
    assert("task.delete"@.len() == 11 && "task.delete"@[0] == 't' && "task.delete"@[4] == '.'
        && "task.delete"@[7] == 'l' && "task.delete"@[9] == 't');
    reveal_strlit("task.toggle_expand");
    assert("task.toggle_expand"@.len() == 18 && "task.toggle_expand"@[0] == 't'
        && "task.toggle_expand"@[4] == '.' && "task.toggle_expand"@[7] == 'g'
        && "task.toggle_expand"@[9] == 'l' && "task.toggle_expand"@[13] == 'x');
    reveal_strlit("view.zoom_in");
    assert("view.zoom_in"@.len() == 12 && "view.zoom_in"@[0] == 'v' && "view.zoom_in"@[4] == '.'
        && "view.zoom_in"@[7] == 'o' && "view.zoom_in"@[9] == '_');
    reveal_strlit("view.zoom_out");
    assert("view.zoom_out"@.len() == 13 && "view.zoom_out"@[0] == 'v'
        && "view.zoom_out"@[4] == '.' && "view.zoom_out"@[7] == 'o' && "view.zoom_out"@[9] == '_');
    reveal_strlit("view.filter");
    assert("view.filter"@.len() == 11 && "view.filter"@[0] == 'v' && "view.filter"@[4] == '.'
        && "view.filter"@[7] == 'l' && "view.filter"@[9] == 'e');
    reveal_strlit("view.search");
    assert("view.search"@.len() == 11 && "view.search"@[0] == 'v' && "view.search"@[4] == '.'
        && "view.search"@[7] == 'a' && "view.search"@[9] == 'c');
    reveal_strlit("query.select_next");
    assert("query.select_next"@.len() == 17 && "query.select_next"@[0] == 'q'
        && "query.select_next"@[4] == 'y' && "query.select_next"@[7] == 'e'
        && "query.select_next"@[9] == 'e' && "query.select_next"@[13] == 'n');
    reveal_strlit("query.select_prev");
    assert("query.select_prev"@.len() == 17 && "query.select_prev"@[0] == 'q'
        && "query.select_prev"@[4] == 'y' && "query.select_prev"@[7] == 'e'
        && "query.select_prev"@[9] == 'e' && "query.select_prev"@[13] == 'p');
    reveal_strlit("query.select_first");
    assert("query.select_first"@.len() == 18 && "query.select_first"@[0] == 'q'
        && "query.select_first"@[4] == 'y' && "query.select_first"@[7] == 'e'
        && "query.select_first"@[9] == 'e' && "query.select_first"@[13] == 'f');
    reveal_strlit("query.select_last");
    assert("query.select_last"@.len() == 17 && "query.select_last"@[0] == 'q'
        && "query.select_last"@[4] == 'y' && "query.select_last"@[7] == 'e'
        && "query.select_last"@[9] == 'e' && "query.select_last"@[13] == 'l');
    reveal_strlit("query.half_page_down");
    assert("query.half_page_down"@.len() == 20 && "query.half_page_down"@[0] == 'q'
        && "query.half_page_down"@[4] == 'y' && "query.half_page_down"@[7] == 'a'
        && "query.half_page_down"@[9] == 'f' && "query.half_page_down"@[13] == 'g');
    reveal_strlit("query.half_page_up");
    assert("query.half_page_up"@.len() == 18 && "query.half_page_up"@[0] == 'q'
        && "query.half_page_up"@[4] == 'y' && "query.half_page_up"@[7] == 'a'
        && "query.half_page_up"@[9] == 'f' && "query.half_page_up"@[13] == 'g');
    reveal_strlit("query.edit");
    assert("query.edit"@.len() == 10 && "query.edit"@[0] == 'q' && "query.edit"@[4] == 'y'
        && "query.edit"@[7] == 'd' && "query.edit"@[9] == 't');
    reveal_strlit("query.sort");
    assert("query.sort"@.len() == 10 && "query.sort"@[0] == 'q' && "query.sort"@[4] == 'y'
        && "query.sort"@[7] == 'o' && "query.sort"@[9] == 't');
    reveal_strlit("query.jump");
    assert("query.jump"@.len() == 10 && "query.jump"@[0] == 'q' && "query.jump"@[4] == 'y'
        && "query.jump"@[7] == 'u' && "query.jump"@[9] == 'p');
    reveal_strlit("query.close");
    assert("query.close"@.len() == 11 && "query.close"@[0] == 'q' && "query.close"@[4] == 'y'
        && "query.close"@[7] == 'l' && "query.close"@[9] == 's');
    reveal_strlit("filter.cancel");
    assert("filter.cancel"@.len() == 13 && "filter.cancel"@[0] == 'f'
        && "filter.cancel"@[4] == 'e' && "filter.cancel"@[7] == 'c' && "filter.cancel"@[9] == 'n');
    reveal_strlit("sort.cancel");
    assert("sort.cancel"@.len() == 11 && "sort.cancel"@[0] == 's' && "sort.cancel"@[4] == '.'
        && "sort.cancel"@[7] == 'n' && "sort.cancel"@[9] == 'e');
    reveal_strlit("input.confirm");
    assert("input.confirm"@.len() == 13 && "input.confirm"@[0] == 'i'
        && "input.confirm"@[4] == 't' && "input.confirm"@[7] == 'o' && "input.confirm"@[9] == 'f');
    reveal_strlit("input.cancel");
    assert("input.cancel"@.len() == 12 && "input.cancel"@[0] == 'i' && "input.cancel"@[4] == 't'
        && "input.cancel"@[7] == 'a' && "input.cancel"@[9] == 'c');
    reveal_strlit("app.help");
    assert("app.help"@.len() == 8 && "app.help"@[0] == 'a' && "app.help"@[4] == 'h'
        && "app.help"@[7] == 'p');
    reveal_strlit("view.toggle_footer");
    assert("view.toggle_footer"@.len() == 18 && "view.toggle_footer"@[0] == 'v'
        && "view.toggle_footer"@[4] == '.' && "view.toggle_footer"@[7] == 'g'
        && "view.toggle_footer"@[9] == 'l' && "view.toggle_footer"@[13] == 'o');
    reveal_strlit("help.scroll_down");
    assert("help.scroll_down"@.len() == 16 && "help.scroll_down"@[0] == 'h'
        && "help.scroll_down"@[4] == '.' && "help.scroll_down"@[7] == 'r'
        && "help.scroll_down"@[9] == 'l' && "help.scroll_down"@[13] == 'o');
    reveal_strlit("help.scroll_up");
    assert("help.scroll_up"@.len() == 14 && "help.scroll_up"@[0] == 'h'
        && "help.scroll_up"@[4] == '.' && "help.scroll_up"@[7] == 'r'
        && "help.scroll_up"@[9] == 'l' && "help.scroll_up"@[13] == 'p');
    reveal_strlit("help.first");
    assert("help.first"@.len() == 10 && "help.first"@[0] == 'h' && "help.first"@[4] == '.'
        && "help.first"@[7] == 'r' && "help.first"@[9] == 't');
    reveal_strlit("help.last");
    assert("help.last"@.len() == 9 && "help.last"@[0] == 'h' && "help.last"@[4] == '.'
        && "help.last"@[7] == 's');
    reveal_strlit("help.half_page_down");
    assert("help.half_page_down"@.len() == 19 && "help.half_page_down"@[0] == 'h'
        && "help.half_page_down"@[4] == '.' && "help.half_page_down"@[7] == 'l'
        && "help.half_page_down"@[9] == '_' && "help.half_page_down"@[13] == 'e');
    reveal_strlit("help.half_page_up");
    assert("help.half_page_up"@.len() == 17 && "help.half_page_up"@[0] == 'h'
        && "help.half_page_up"@[4] == '.' && "help.half_page_up"@[7] == 'l'
        && "help.half_page_up"@[9] == '_' && "help.half_page_up"@[13] == 'e');
    reveal_strlit("help.filter");
    assert("help.filter"@.len() == 11 && "help.filter"@[0] == 'h' && "help.filter"@[4] == '.'
        && "help.filter"@[7] == 'l' && "help.filter"@[9] == 'e');
    reveal_strlit("help.close");
    assert("help.close"@.len() == 10 && "help.close"@[0] == 'h' && "help.close"@[4] == '.'
        && "help.close"@[7] == 'o' && "help.close"@[9] == 'e');
}

/// Two entries of one context for one command.
pub open spec fn repeats(a: CommandV, b: CommandV) -> bool {
    a.context == b.context && a.id == b.id
}

spec fn apart(a: Seq<CommandV>, b: Seq<CommandV>) -> bool {
    forall|i: int, j: int|
        0 <= i < a.len() && 0 <= j < b.len() ==> !repeats(#[trigger] a[i], #[trigger] b[j])
}

spec fn all_apart(a: Seq<CommandV>) -> bool {
    forall|i: int, j: int| 0 <= i < j < a.len() ==> !repeats(#[trigger] a[i], #[trigger] a[j])
}

proof fn lemma_entries_apart()
    ensures
        all_apart(command::table_part_a()),
        all_apart(command::table_part_b()),
        all_apart(command::table_part_c()),
        all_apart(command::table_part_d()),
        all_apart(command::table_part_e()),
        all_apart(command::table_part_f()),
        apart(command::table_part_a(), command::table_part_b()),
        apart(command::table_part_a(), command::table_part_c()),
        apart(command::table_part_a(), command::table_part_d()),
        apart(command::table_part_a(), command::table_part_e()),
        apart(command::table_part_a(), command::table_part_f()),
        apart(command::table_part_b(), command::table_part_c()),
        apart(command::table_part_b(), command::table_part_d()),
        apart(command::table_part_b(), command::table_part_e()),
        apart(command::table_part_b(), command::table_part_f()),
        apart(command::table_part_c(), command::table_part_d()),
        apart(command::table_part_c(), command::table_part_e()),
        apart(command::table_part_c(), command::table_part_f()),
        apart(command::table_part_d(), command::table_part_e()),
        apart(command::table_part_d(), command::table_part_f()),
        apart(command::table_part_e(), command::table_part_f()),
{
}

proof fn lemma_joined_apart(a: Seq<CommandV>, b: Seq<CommandV>)
    requires
        all_apart(a),
        all_apart(b),
        apart(a, b),
    ensures
        all_apart(a + b),
        forall|c: Seq<CommandV>| apart(a, c) && apart(b, c) ==> #[trigger] apart(a + b, c),
{
}

/// Within a context no two commands share a text, so that a configuration
/// file names each of them unambiguously.
pub proof fn a_context_has_one_command_of_a_text(i: int, j: int)
    requires
        0 <= i < command::command_table().len(),
        0 <= j < command::command_table().len(),
        command::command_table()[i].context == command::command_table()[j].context,
        command::command_table()[i].id.text() == command::command_table()[j].id.text(),
    ensures
        i == j,
{
    lemma_entries_apart();
    let a = command::table_part_a();
    let ab = a + command::table_part_b();
    let abc = ab + command::table_part_c();
    let abcd = abc + command::table_part_d();
    let abcde = abcd + command::table_part_e();
    lemma_joined_apart(a, command::table_part_b());
    lemma_joined_apart(ab, command::table_part_c());
    lemma_joined_apart(abc, command::table_part_d());
    lemma_joined_apart(abcd, command::table_part_e());
    lemma_joined_apart(abcde, command::table_part_f());
    let table = command::command_table();
    assert(all_apart(table));
    texts_are_unique(table[i].id, table[j].id);
    if i < j {
        assert(!repeats(table[i], table[j]));
    } else if j < i {
        assert(!repeats(table[j], table[i]));
    }
}

/// The keys of the default bindings.
proof fn lemma_keys()
    ensures
        key::char_keys("q"@).len() == 1 && key::char_keys("q"@)[0] == Key::Char('q'),
        key::char_keys("j"@).len() == 1 && key::char_keys("j"@)[0] == Key::Char('j'),
        key::char_keys("k"@).len() == 1 && key::char_keys("k"@)[0] == Key::Char('k'),
        key::char_keys("gg"@).len() == 2 && key::char_keys("gg"@)[0] == Key::Char('g')
            && key::char_keys("gg"@)[1] == Key::Char('g'),
        key::char_keys("ge"@).len() == 2 && key::char_keys("ge"@)[0] == Key::Char('g')
            && key::char_keys("ge"@)[1] == Key::Char('e'),
        key::char_keys("n"@).len() == 1 && key::char_keys("n"@)[0] == Key::Char('n'),
        key::char_keys("N"@).len() == 1 && key::char_keys("N"@)[0] == Key::Char('N'),
        key::char_keys("r"@).len() == 1 && key::char_keys("r"@)[0] == Key::Char('r'),
        key::char_keys("s"@).len() == 1 && key::char_keys("s"@)[0] == Key::Char('s'),
        key::char_keys("t"@).len() == 1 && key::char_keys("t"@)[0] == Key::Char('t'),
        key::char_keys("e"@).len() == 1 && key::char_keys("e"@)[0] == Key::Char('e'),
        key::char_keys("J"@).len() == 1 && key::char_keys("J"@)[0] == Key::Char('J'),
        key::char_keys("K"@).len() == 1 && key::char_keys("K"@)[0] == Key::Char('K'),
        key::char_keys(">"@).len() == 1 && key::char_keys(">"@)[0] == Key::Char('>'),
        key::char_keys("<"@).len() == 1 && key::char_keys("<"@)[0] == Key::Char('<'),
        key::char_keys("D"@).len() == 1 && key::char_keys("D"@)[0] == Key::Char('D'),
        key::char_keys("u"@).len() == 1 && key::char_keys("u"@)[0] == Key::Char('u'),
        key::char_keys("U"@).len() == 1 && key::char_keys("U"@)[0] == Key::Char('U'),
        key::char_keys("/"@).len() == 1 && key::char_keys("/"@)[0] == Key::Char('/'),
        key::char_keys("f"@).len() == 1 && key::char_keys("f"@)[0] == Key::Char('f'),
        key::char_keys(","@).len() == 1 && key::char_keys(","@)[0] == Key::Char(','),
        key::char_keys("h"@).len() == 1 && key::char_keys("h"@)[0] == Key::Char('h'),
        key::char_keys("l"@).len() == 1 && key::char_keys("l"@)[0] == Key::Char('l'),
        key::char_keys("L"@).len() == 1 && key::char_keys("L"@)[0] == Key::Char('L'),
        key::char_keys("H"@).len() == 1 && key::char_keys("H"@)[0] == Key::Char('H'),
        key::char_keys("S"@).len() == 1 && key::char_keys("S"@)[0] == Key::Char('S'),
        key::char_keys("*"@).len() == 1 && key::char_keys("*"@)[0] == Key::Char('*'),
        key::char_keys("?"@).len() == 1 && key::char_keys("?"@)[0] == Key::Char('?'),
        key::char_keys("\\"@).len() == 1 && key::char_keys("\\"@)[0] == Key::Char('\\'),
        seq![Key::Down].len() == 1 && seq![Key::Down][0] == Key::Down,
        seq![Key::Up].len() == 1 && seq![Key::Up][0] == Key::Up,
        seq![Key::Ctrl('d')].len() == 1 && seq![Key::Ctrl('d')][0] == Key::Ctrl('d'),
        seq![Key::Ctrl('u')].len() == 1 && seq![Key::Ctrl('u')][0] == Key::Ctrl('u'),
        seq![Key::Tab].len() == 1 && seq![Key::Tab][0] == Key::Tab,
        seq![Key::Ctrl('k')].len() == 1 && seq![Key::Ctrl('k')][0] == Key::Ctrl('k'),
        seq![Key::Ctrl('j')].len() == 1 && seq![Key::Ctrl('j')][0] == Key::Ctrl('j'),
        seq![Key::Esc].len() == 1 && seq![Key::Esc][0] == Key::Esc,
        seq![Key::Enter].len() == 1 && seq![Key::Enter][0] == Key::Enter,
{
    reveal_strlit("q");
    assert("q"@[0] == 'q');
    reveal_strlit("j");
    assert("j"@[0] == 'j');
    reveal_strlit("k");
    assert("k"@[0] == 'k');
    reveal_strlit("gg");
    assert("gg"@[0] == 'g' && "gg"@[1] == 'g');
    reveal_strlit("ge");
    assert("ge"@[0] == 'g' && "ge"@[1] == 'e');
    reveal_strlit("n");
    assert("n"@[0] == 'n');
    reveal_strlit("N");
    assert("N"@[0] == 'N');
    reveal_strlit("r");
    assert("r"@[0] == 'r');
    reveal_strlit("s");
    assert("s"@[0] == 's');
    reveal_strlit("t");
    assert("t"@[0] == 't');
    reveal_strlit("e");
    assert("e"@[0] == 'e');
    reveal_strlit("J");
    assert("J"@[0] == 'J');
    reveal_strlit("K");
    assert("K"@[0] == 'K');
    reveal_strlit(">");
    assert(">"@[0] == '>');
    reveal_strlit("<");
    assert("<"@[0] == '<');
    reveal_strlit("D");
    assert("D"@[0] == 'D');
    reveal_strlit("u");
    assert("u"@[0] == 'u');
    reveal_strlit("U");
    assert("U"@[0] == 'U');
    reveal_strlit("/");
    assert("/"@[0] == '/');
    reveal_strlit("f");
    assert("f"@[0] == 'f');
    reveal_strlit(",");
    assert(","@[0] == ',');
    reveal_strlit("h");
    assert("h"@[0] == 'h');
    reveal_strlit("l");
    assert("l"@[0] == 'l');
    reveal_strlit("L");
    assert("L"@[0] == 'L');
    reveal_strlit("H");
    assert("H"@[0] == 'H');
    reveal_strlit("S");
    assert("S"@[0] == 'S');
    reveal_strlit("*");
    assert("*"@[0] == '*');
    reveal_strlit("?");
    assert("?"@[0] == '?');
    reveal_strlit("\\");
    assert("\\"@[0] == '\\');
}

/// A binding of one key, or of two that begin with one no single key is
/// bound to.
spec fn prefixed(b: BindingV) -> bool {
    ||| b.seq.len() == 1 && b.seq[0] != Key::Char('g')
    ||| b.seq.len() == 2 && b.seq[0] == Key::Char('g')
}

spec fn all_prefixed(a: Seq<BindingV>) -> bool {
    forall|i: int| 0 <= i < a.len() ==> prefixed(#[trigger] a[i])
}

spec fn clear(a: Seq<BindingV>, b: Seq<BindingV>) -> bool {
    forall|i: int, j: int|
        0 <= i < a.len() && 0 <= j < b.len() ==> !keymap::clash(#[trigger] a[i], #[trigger] b[j])
}

spec fn all_clear(a: Seq<BindingV>) -> bool {
    forall|i: int, j: int|
        0 <= i < j < a.len() ==> !keymap::clash(#[trigger] a[i], #[trigger] a[j])
}

proof fn lemma_bindings_prefixed()
    ensures
        all_prefixed(keymap::default_part_a()),
        all_prefixed(keymap::default_part_b()),
        all_prefixed(keymap::default_part_c()),
        all_prefixed(keymap::default_part_d()),
        all_prefixed(keymap::default_part_e()),
{
    lemma_keys();
}

proof fn lemma_bindings_clear()
    ensures
        all_clear(keymap::default_part_a()),
        all_clear(keymap::default_part_b()),
        all_clear(keymap::default_part_c()),
        all_clear(keymap::default_part_d()),
        all_clear(keymap::default_part_e()),
        clear(keymap::default_part_a(), keymap::default_part_b()),
        clear(keymap::default_part_a(), keymap::default_part_c()),
        clear(keymap::default_part_a(), keymap::default_part_d()),
        clear(keymap::default_part_a(), keymap::default_part_e()),
        clear(keymap::default_part_b(), keymap::default_part_c()),
        clear(keymap::default_part_b(), keymap::default_part_d()),
        clear(keymap::default_part_b(), keymap::default_part_e()),
        clear(keymap::default_part_c(), keymap::default_part_d()),
        clear(keymap::default_part_c(), keymap::default_part_e()),
        clear(keymap::default_part_d(), keymap::default_part_e()),
{
    lemma_keys();
}

proof fn lemma_joined_clear(a: Seq<BindingV>, b: Seq<BindingV>)
    requires
        all_clear(a),
        all_clear(b),
        clear(a, b),
    ensures
        all_clear(a + b),
        forall|c: Seq<BindingV>| clear(a, c) && clear(b, c) ==> #[trigger] clear(a + b, c),
{
}

proof fn lemma_no_clash_with(bs: Seq<BindingV>, i: int, j: int)
    requires
        all_clear(bs),
        0 <= i < j,
    ensures
        keymap::clash_with(bs, i, j) is None,
    decreases bs.len() - j,
{
    if j < bs.len() {
        assert(!keymap::clash(bs[i], bs[j]));
        lemma_no_clash_with(bs, i, j + 1);
    }
}

proof fn lemma_no_clash(bs: Seq<BindingV>, i: int)
    requires
        all_clear(bs),
        0 <= i,
    ensures
        keymap::first_clash(bs, i) is None,
    decreases bs.len() - i,
{
    if i < bs.len() {
        lemma_no_clash_with(bs, i, i + 1);
        lemma_no_clash(bs, i + 1);
    }
}

proof fn lemma_no_warnings_about(bs: Seq<BindingV>, shadowed: BindingV, n: int)
    requires
        all_prefixed(bs),
        prefixed(shadowed),
        n <= bs.len(),
    ensures
        keymap::warnings_about(bs, shadowed, n).len() == 0,
    decreases n,
{
    if n > 0 {
        lemma_no_warnings_about(bs, shadowed, n - 1);
        let shorter = bs[n - 1];
        assert(prefixed(shorter));
        if keymap::shadows(shorter, shadowed) {
            assert(shorter.seq[0] == shadowed.seq[0]);
        }
    }
}

proof fn lemma_no_warnings(bs: Seq<BindingV>, n: int)
    requires
        all_prefixed(bs),
        n <= bs.len(),
    ensures
        keymap::warnings(bs, n).len() == 0,
    decreases n,
{
    if n > 0 {
        lemma_no_warnings(bs, n - 1);
        assert(prefixed(bs[n - 1]));
        lemma_no_warnings_about(bs, bs[n - 1], bs.len() as int);
    }
}

/// The default bindings stand side by side: no sequence is bound twice in a
/// context, and none fires before a longer one can be completed.
pub proof fn the_default_bindings_are_clear()
    ensures
        keymap::first_clash(keymap::default_bindings(), 0) is None,
        keymap::warnings(
            keymap::default_bindings(),
            keymap::default_bindings().len() as int,
        ).len() == 0,
{
    lemma_bindings_clear();
    lemma_bindings_prefixed();
    let a = keymap::default_part_a();
    let ab = a + keymap::default_part_b();
    let abc = ab + keymap::default_part_c();
    let abcd = abc + keymap::default_part_d();
    lemma_joined_clear(a, keymap::default_part_b());
    lemma_joined_clear(ab, keymap::default_part_c());
    lemma_joined_clear(abc, keymap::default_part_d());
    lemma_joined_clear(abcd, keymap::default_part_e());
    let all = keymap::default_bindings();
    assert(all_prefixed(all));
    lemma_no_clash(all, 0);
    lemma_no_warnings(all, all.len() as int);
}

/// The command table has an entry of the context for the command.
#[verifier::opaque]
spec fn listed(context: Context, id: CommandId) -> bool {
    exists|k: int|
        0 <= k < command::command_table().len() && (
        #[trigger] command::command_table()[k]).context == context
            && command::command_table()[k].id == id
}

/// The default bindings hold one of the command in the context.
#[verifier::opaque]
spec fn has_binding(context: Context, id: CommandId) -> bool {
    exists|k: int|
        0 <= k < keymap::default_bindings().len() && keymap::binds(
            #[trigger] keymap::default_bindings()[k],
            context,
            id,
        )
}

/// What the command table lists.
proof fn lemma_listed()
    ensures
        listed(Context::Tree, CommandId::SelectNext),
        listed(Context::Tree, CommandId::SelectPrev),
        listed(Context::Tree, CommandId::ToggleExpand),
        listed(Context::Tree, CommandId::CreateTask),
        listed(Context::Tree, CommandId::CreateChild),
        listed(Context::Tree, CommandId::RenameTask),
        listed(Context::Tree, CommandId::SetStatus),
        listed(Context::Tree, CommandId::SetDue),
        listed(Context::Tree, CommandId::EditNote),
        listed(Context::Tree, CommandId::StatusNext),
        listed(Context::Tree, CommandId::StatusPrev),
        listed(Context::Tree, CommandId::TaskMoveUp),
        listed(Context::Tree, CommandId::TaskMoveDown),
        listed(Context::Tree, CommandId::TaskIndent),
        listed(Context::Tree, CommandId::TaskOutdent),
        listed(Context::Tree, CommandId::TaskDelete),
        listed(Context::Tree, CommandId::Undo),
        listed(Context::Tree, CommandId::Redo),
        listed(Context::Tree, CommandId::ZoomIn),
        listed(Context::Tree, CommandId::ZoomOut),
        listed(Context::Tree, CommandId::ViewSearch),
        listed(Context::Tree, CommandId::ViewFilter),
        listed(Context::Tree, CommandId::SelectFirst),
        listed(Context::Tree, CommandId::SelectLast),
        listed(Context::Tree, CommandId::HalfPageDown),
        listed(Context::Tree, CommandId::HalfPageUp),
        listed(Context::Tree, CommandId::SelectParent),
        listed(Context::Tree, CommandId::SelectFirstChild),
        listed(Context::Tree, CommandId::Quit),
        listed(Context::Tree, CommandId::Help),
        listed(Context::Tree, CommandId::ToggleFooter),
        listed(Context::Help, CommandId::HelpFilter),
        listed(Context::Help, CommandId::HelpClose),
        listed(Context::Help, CommandId::HelpNext),
        listed(Context::Help, CommandId::HelpPrev),
        listed(Context::Help, CommandId::HelpFirst),
        listed(Context::Help, CommandId::HelpLast),
        listed(Context::Help, CommandId::HelpHalfPageDown),
        listed(Context::Help, CommandId::HelpHalfPageUp),
        listed(Context::Input, CommandId::InputConfirm),
        listed(Context::Input, CommandId::InputCancel),
        listed(Context::StatusSelect, CommandId::StatusCancel),
        listed(Context::Tree, CommandId::StatusManage),
        listed(Context::StatusManage, CommandId::ManageEdit),
        listed(Context::StatusManage, CommandId::ManageAdd),
        listed(Context::StatusManage, CommandId::ManageDelete),
        listed(Context::StatusManage, CommandId::ManageSetDefault),
        listed(Context::StatusManage, CommandId::ManageMoveDown),
        listed(Context::StatusManage, CommandId::ManageMoveUp),
        listed(Context::StatusManage, CommandId::ManageClose),
        listed(Context::StatusManage, CommandId::ManageUndo),
        listed(Context::StatusManage, CommandId::ManageRedo),
        listed(Context::Query, CommandId::QueryJump),
        listed(Context::Query, CommandId::QueryEdit),
        listed(Context::Query, CommandId::QuerySort),
        listed(Context::Query, CommandId::ViewFilter),
        listed(Context::Query, CommandId::QueryClose),
        listed(Context::Query, CommandId::QueryNext),
        listed(Context::Query, CommandId::QueryPrev),
        listed(Context::Query, CommandId::QueryFirst),
        listed(Context::Query, CommandId::QueryLast),
        listed(Context::Query, CommandId::QueryHalfPageDown),
        listed(Context::Query, CommandId::QueryHalfPageUp),
        listed(Context::FilterSelect, CommandId::FilterCancel),
        listed(Context::SortSelect, CommandId::SortCancel),
        listed(Context::StatusManage, CommandId::ManageRowNext),
        listed(Context::StatusManage, CommandId::ManageRowPrev),
        listed(Context::StatusManage, CommandId::ManageColPrev),
        listed(Context::StatusManage, CommandId::ManageColNext),
{
    reveal(listed);
    let table = command::command_table();
    assert(table[0].id == CommandId::SelectNext);
    assert(table[1].id == CommandId::SelectPrev);
    assert(table[2].id == CommandId::ToggleExpand);
    assert(table[3].id == CommandId::CreateTask);
    assert(table[4].id == CommandId::CreateChild);
    assert(table[5].id == CommandId::RenameTask);
    assert(table[6].id == CommandId::SetStatus);
    assert(table[7].id == CommandId::SetDue);
    assert(table[8].id == CommandId::EditNote);
    assert(table[9].id == CommandId::StatusNext);
    assert(table[10].id == CommandId::StatusPrev);
    assert(table[11].id == CommandId::TaskMoveUp);
    assert(table[12].id == CommandId::TaskMoveDown);
    assert(table[13].id == CommandId::TaskIndent);
    assert(table[14].id == CommandId::TaskOutdent);
    assert(table[15].id == CommandId::TaskDelete);
    assert(table[16].id == CommandId::Undo);
    assert(table[17].id == CommandId::Redo);
    assert(table[18].id == CommandId::ZoomIn);
    assert(table[19].id == CommandId::ZoomOut);
    assert(table[20].id == CommandId::ViewSearch);
    assert(table[21].id == CommandId::ViewFilter);
    assert(table[22].id == CommandId::SelectFirst);
    assert(table[23].id == CommandId::SelectLast);
    assert(table[24].id == CommandId::HalfPageDown);
    assert(table[25].id == CommandId::HalfPageUp);
    assert(table[26].id == CommandId::SelectParent);
    assert(table[27].id == CommandId::SelectFirstChild);
    assert(table[28].id == CommandId::Quit);
    assert(table[29].id == CommandId::Help);
    assert(table[30].id == CommandId::ToggleFooter);
    assert(table[31].id == CommandId::HelpFilter);
    assert(table[32].id == CommandId::HelpClose);
    assert(table[33].id == CommandId::HelpNext);
    assert(table[34].id == CommandId::HelpPrev);
    assert(table[35].id == CommandId::HelpFirst);
    assert(table[36].id == CommandId::HelpLast);
    assert(table[37].id == CommandId::HelpHalfPageDown);
    assert(table[38].id == CommandId::HelpHalfPageUp);
    assert(table[39].id == CommandId::InputConfirm);
    assert(table[40].id == CommandId::InputCancel);
    assert(table[41].id == CommandId::StatusCancel);
    assert(table[42].id == CommandId::StatusManage);
    assert(table[43].id == CommandId::ManageEdit);
    assert(table[44].id == CommandId::ManageAdd);
    assert(table[45].id == CommandId::ManageDelete);
    assert(table[46].id == CommandId::ManageSetDefault);
    assert(table[47].id == CommandId::ManageMoveDown);
    assert(table[48].id == CommandId::ManageMoveUp);
    assert(table[49].id == CommandId::ManageClose);
    assert(table[50].id == CommandId::ManageUndo);
    assert(table[51].id == CommandId::ManageRedo);
    assert(table[52].id == CommandId::QueryJump);
    assert(table[53].id == CommandId::QueryEdit);
    assert(table[54].id == CommandId::QuerySort);
    assert(table[55].id == CommandId::ViewFilter);
    assert(table[56].id == CommandId::QueryClose);
    assert(table[57].id == CommandId::QueryNext);
    assert(table[58].id == CommandId::QueryPrev);
    assert(table[59].id == CommandId::QueryFirst);
    assert(table[60].id == CommandId::QueryLast);
    assert(table[61].id == CommandId::QueryHalfPageDown);
    assert(table[62].id == CommandId::QueryHalfPageUp);
    assert(table[63].id == CommandId::FilterCancel);
    assert(table[64].id == CommandId::SortCancel);
    assert(table[65].id == CommandId::ManageRowNext);
    assert(table[66].id == CommandId::ManageRowPrev);
    assert(table[67].id == CommandId::ManageColPrev);
    assert(table[68].id == CommandId::ManageColNext);
}

/// What the default bindings bind.
proof fn lemma_bound()
    ensures
        has_binding(Context::Tree, CommandId::Quit),
        has_binding(Context::Tree, CommandId::SelectNext),
        has_binding(Context::Tree, CommandId::SelectPrev),
        has_binding(Context::Tree, CommandId::SelectFirst),
        has_binding(Context::Tree, CommandId::SelectLast),
        has_binding(Context::Tree, CommandId::HalfPageDown),
        has_binding(Context::Tree, CommandId::HalfPageUp),
        has_binding(Context::Tree, CommandId::CreateTask),
        has_binding(Context::Tree, CommandId::CreateChild),
        has_binding(Context::Tree, CommandId::RenameTask),
        has_binding(Context::Tree, CommandId::SetStatus),
        has_binding(Context::Tree, CommandId::SetDue),
        has_binding(Context::Tree, CommandId::EditNote),
        has_binding(Context::Tree, CommandId::StatusNext),
        has_binding(Context::Tree, CommandId::StatusPrev),
        has_binding(Context::Tree, CommandId::ToggleExpand),
        has_binding(Context::Tree, CommandId::TaskMoveUp),
        has_binding(Context::Tree, CommandId::TaskMoveDown),
        has_binding(Context::Tree, CommandId::TaskIndent),
        has_binding(Context::Tree, CommandId::TaskOutdent),
        has_binding(Context::Tree, CommandId::TaskDelete),
        has_binding(Context::Tree, CommandId::Undo),
        has_binding(Context::Tree, CommandId::Redo),
        has_binding(Context::StatusSelect, CommandId::StatusCancel),
        has_binding(Context::Tree, CommandId::ViewSearch),
        has_binding(Context::Tree, CommandId::ViewFilter),
        has_binding(Context::Query, CommandId::QueryNext),
        has_binding(Context::Query, CommandId::QueryPrev),
        has_binding(Context::Query, CommandId::QueryFirst),
        has_binding(Context::Query, CommandId::QueryLast),
        has_binding(Context::Query, CommandId::QueryHalfPageDown),
        has_binding(Context::Query, CommandId::QueryHalfPageUp),
        has_binding(Context::Query, CommandId::QueryEdit),
        has_binding(Context::Query, CommandId::QuerySort),
        has_binding(Context::Query, CommandId::ViewFilter),
        has_binding(Context::Query, CommandId::QueryJump),
        has_binding(Context::Query, CommandId::QueryClose),
        has_binding(Context::FilterSelect, CommandId::FilterCancel),
        has_binding(Context::SortSelect, CommandId::SortCancel),
        has_binding(Context::Tree, CommandId::SelectParent),
        has_binding(Context::Tree, CommandId::SelectFirstChild),
        has_binding(Context::Tree, CommandId::ZoomIn),
        has_binding(Context::Tree, CommandId::ZoomOut),
        has_binding(Context::Tree, CommandId::StatusManage),
        has_binding(Context::StatusManage, CommandId::ManageRowNext),
        has_binding(Context::StatusManage, CommandId::ManageRowPrev),
        has_binding(Context::StatusManage, CommandId::ManageColPrev),
        has_binding(Context::StatusManage, CommandId::ManageColNext),
        has_binding(Context::StatusManage, CommandId::ManageEdit),
        has_binding(Context::StatusManage, CommandId::ManageAdd),
        has_binding(Context::StatusManage, CommandId::ManageDelete),
        has_binding(Context::StatusManage, CommandId::ManageMoveDown),
        has_binding(Context::StatusManage, CommandId::ManageMoveUp),
        has_binding(Context::StatusManage, CommandId::ManageSetDefault),
        has_binding(Context::StatusManage, CommandId::ManageUndo),
        has_binding(Context::StatusManage, CommandId::ManageRedo),
        has_binding(Context::StatusManage, CommandId::ManageClose),
        has_binding(Context::Tree, CommandId::Help),
        has_binding(Context::Tree, CommandId::ToggleFooter),
        has_binding(Context::Help, CommandId::HelpNext),
        has_binding(Context::Help, CommandId::HelpPrev),
        has_binding(Context::Help, CommandId::HelpFirst),
        has_binding(Context::Help, CommandId::HelpLast),
        has_binding(Context::Help, CommandId::HelpHalfPageDown),
        has_binding(Context::Help, CommandId::HelpHalfPageUp),
        has_binding(Context::Help, CommandId::HelpFilter),
        has_binding(Context::Help, CommandId::HelpClose),
        has_binding(Context::Input, CommandId::InputConfirm),
        has_binding(Context::Input, CommandId::InputCancel),
{
    reveal(has_binding);
    let all = keymap::default_bindings();
    assert(keymap::binds(all[0], Context::Tree, CommandId::Quit));
    assert(keymap::binds(all[1], Context::Tree, CommandId::SelectNext));
    assert(keymap::binds(all[2], Context::Tree, CommandId::SelectPrev));
    assert(keymap::binds(all[5], Context::Tree, CommandId::SelectFirst));
    assert(keymap::binds(all[6], Context::Tree, CommandId::SelectLast));
    assert(keymap::binds(all[7], Context::Tree, CommandId::HalfPageDown));
    assert(keymap::binds(all[8], Context::Tree, CommandId::HalfPageUp));
    assert(keymap::binds(all[9], Context::Tree, CommandId::CreateTask));
    assert(keymap::binds(all[10], Context::Tree, CommandId::CreateChild));
    assert(keymap::binds(all[11], Context::Tree, CommandId::RenameTask));
    assert(keymap::binds(all[12], Context::Tree, CommandId::SetStatus));
    assert(keymap::binds(all[13], Context::Tree, CommandId::SetDue));
    assert(keymap::binds(all[14], Context::Tree, CommandId::EditNote));
    assert(keymap::binds(all[15], Context::Tree, CommandId::StatusNext));
    assert(keymap::binds(all[16], Context::Tree, CommandId::StatusPrev));
    assert(keymap::binds(all[17], Context::Tree, CommandId::ToggleExpand));
    assert(keymap::binds(all[18], Context::Tree, CommandId::TaskMoveUp));
    assert(keymap::binds(all[19], Context::Tree, CommandId::TaskMoveDown));
    assert(keymap::binds(all[20], Context::Tree, CommandId::TaskIndent));
    assert(keymap::binds(all[21], Context::Tree, CommandId::TaskOutdent));
    assert(keymap::binds(all[22], Context::Tree, CommandId::TaskDelete));
    assert(keymap::binds(all[23], Context::Tree, CommandId::Undo));
    assert(keymap::binds(all[24], Context::Tree, CommandId::Redo));
    assert(keymap::binds(all[25], Context::StatusSelect, CommandId::StatusCancel));
    assert(keymap::binds(all[26], Context::Tree, CommandId::ViewSearch));
    assert(keymap::binds(all[27], Context::Tree, CommandId::ViewFilter));
    assert(keymap::binds(all[28], Context::Query, CommandId::QueryNext));
    assert(keymap::binds(all[29], Context::Query, CommandId::QueryPrev));
    assert(keymap::binds(all[32], Context::Query, CommandId::QueryFirst));
    assert(keymap::binds(all[33], Context::Query, CommandId::QueryLast));
    assert(keymap::binds(all[34], Context::Query, CommandId::QueryHalfPageDown));
    assert(keymap::binds(all[35], Context::Query, CommandId::QueryHalfPageUp));
    assert(keymap::binds(all[36], Context::Query, CommandId::QueryEdit));
    assert(keymap::binds(all[37], Context::Query, CommandId::QuerySort));
    assert(keymap::binds(all[38], Context::Query, CommandId::ViewFilter));
    assert(keymap::binds(all[39], Context::Query, CommandId::QueryJump));
    assert(keymap::binds(all[40], Context::Query, CommandId::QueryClose));
    assert(keymap::binds(all[42], Context::FilterSelect, CommandId::FilterCancel));
    assert(keymap::binds(all[43], Context::SortSelect, CommandId::SortCancel));
    assert(keymap::binds(all[44], Context::Tree, CommandId::SelectParent));
    assert(keymap::binds(all[45], Context::Tree, CommandId::SelectFirstChild));
    assert(keymap::binds(all[46], Context::Tree, CommandId::ZoomIn));
    assert(keymap::binds(all[47], Context::Tree, CommandId::ZoomOut));
    assert(keymap::binds(all[48], Context::Tree, CommandId::StatusManage));
    assert(keymap::binds(all[49], Context::StatusManage, CommandId::ManageRowNext));
    assert(keymap::binds(all[50], Context::StatusManage, CommandId::ManageRowPrev));
    assert(keymap::binds(all[53], Context::StatusManage, CommandId::ManageColPrev));
    assert(keymap::binds(all[54], Context::StatusManage, CommandId::ManageColNext));
    assert(keymap::binds(all[55], Context::StatusManage, CommandId::ManageEdit));
    assert(keymap::binds(all[56], Context::StatusManage, CommandId::ManageAdd));
    assert(keymap::binds(all[57], Context::StatusManage, CommandId::ManageDelete));
    assert(keymap::binds(all[58], Context::StatusManage, CommandId::ManageMoveDown));
    assert(keymap::binds(all[59], Context::StatusManage, CommandId::ManageMoveUp));
    assert(keymap::binds(all[60], Context::StatusManage, CommandId::ManageSetDefault));
    assert(keymap::binds(all[61], Context::StatusManage, CommandId::ManageUndo));
    assert(keymap::binds(all[62], Context::StatusManage, CommandId::ManageRedo));
    assert(keymap::binds(all[63], Context::StatusManage, CommandId::ManageClose));
    assert(keymap::binds(all[65], Context::Tree, CommandId::Help));
    assert(keymap::binds(all[66], Context::Tree, CommandId::ToggleFooter));
    assert(keymap::binds(all[67], Context::Help, CommandId::HelpNext));
    assert(keymap::binds(all[68], Context::Help, CommandId::HelpPrev));
    assert(keymap::binds(all[71], Context::Help, CommandId::HelpFirst));
    assert(keymap::binds(all[72], Context::Help, CommandId::HelpLast));
    assert(keymap::binds(all[73], Context::Help, CommandId::HelpHalfPageDown));
    assert(keymap::binds(all[74], Context::Help, CommandId::HelpHalfPageUp));
    assert(keymap::binds(all[75], Context::Help, CommandId::HelpFilter));
    assert(keymap::binds(all[76], Context::Help, CommandId::HelpClose));
    assert(keymap::binds(all[78], Context::Input, CommandId::InputConfirm));
    assert(keymap::binds(all[79], Context::Input, CommandId::InputCancel));
}

proof fn lemma_binding_found(bs: Seq<BindingV>, context: Context, id: CommandId, k: int)
    requires
        0 <= k < bs.len(),
        keymap::binds(bs[k], context, id),
    ensures
        keymap::bound(bs, context, id).len() > 0,
    decreases bs.len(),
{
    if k < bs.len() - 1 {
        lemma_binding_found(bs.drop_last(), context, id, k);
    }
}

spec fn all_listed(bs: Seq<BindingV>) -> bool {
    forall|i: int| 0 <= i < bs.len() ==> listed((#[trigger] bs[i]).context, bs[i].command)
}

spec fn all_bound(table: Seq<CommandV>) -> bool {
    forall|i: int| 0 <= i < table.len() ==> has_binding((#[trigger] table[i]).context, table[i].id)
}

proof fn lemma_parts_listed()
    ensures
        all_listed(keymap::default_part_a()),
        all_listed(keymap::default_part_b()),
        all_listed(keymap::default_part_c()),
        all_listed(keymap::default_part_d()),
        all_listed(keymap::default_part_e()),
{
    lemma_listed();
}

proof fn lemma_parts_bound()
    ensures
        all_bound(command::table_part_a()),
        all_bound(command::table_part_b()),
        all_bound(command::table_part_c()),
        all_bound(command::table_part_d()),
        all_bound(command::table_part_e()),
        all_bound(command::table_part_f()),
{
    lemma_bound();
}

/// Every default binding invokes a command of its context.
pub proof fn every_default_binding_names_a_command(i: int)
    requires
        0 <= i < keymap::default_bindings().len(),
    ensures
        exists|k: int|
            0 <= k < command::command_table().len() && (
            #[trigger] command::command_table()[k]).context
                == keymap::default_bindings()[i].context && command::command_table()[k].id
                == keymap::default_bindings()[i].command,
{
    lemma_parts_listed();
    let all = keymap::default_bindings();
    assert(all_listed(all));
    assert(listed(all[i].context, all[i].command));
    reveal(listed);
}

/// Every command has a default binding in its own context, so that no hint
/// lacks its keys.
pub proof fn every_command_has_a_default_binding(i: int)
    requires
        0 <= i < command::command_table().len(),
    ensures
        keymap::bound(
            keymap::default_bindings(),
            command::command_table()[i].context,
            command::command_table()[i].id,
        ).len() > 0,
{
    lemma_parts_bound();
    let table = command::command_table();
    let all = keymap::default_bindings();
    assert(all_bound(table));
    assert(has_binding(table[i].context, table[i].id));
    reveal(has_binding);
    let k = choose|k: int|
        0 <= k < all.len() && keymap::binds(#[trigger] all[k], table[i].context, table[i].id);
    lemma_binding_found(all, table[i].context, table[i].id, k);
}

} // verus!
