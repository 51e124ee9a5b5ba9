//! The commands a user can invoke, and the contexts they belong to.
use vstd::prelude::*;

use crate::text::same;

pub mod id;

verus! {

/// Stable identifier for a command; referenced by the keymap and by user
/// configuration files under its text form. The variants stand in the order
/// of their texts, so that commands sort as their texts do.
#[derive(Debug, Clone, Copy, PartialEq, Eq, PartialOrd, Ord, Hash, Structural)]
pub enum CommandId {
    Help,
    Quit,
    Redo,
    Undo,
    FilterCancel,
    HelpClose,
    HelpFilter,
    HelpFirst,
    HelpHalfPageDown,
    HelpHalfPageUp,
    HelpLast,
    HelpNext,
    HelpPrev,
    InputCancel,
    InputConfirm,
    QueryClose,
    QueryEdit,
    QueryHalfPageDown,
    QueryHalfPageUp,
    QueryJump,
    QueryFirst,
    QueryLast,
    QueryNext,
    QueryPrev,
    QuerySort,
    SortCancel,
    StatusCancel,
    StatusManage,
    ManageAdd,
    ManageClose,
    ManageColNext,
    ManageColPrev,
    ManageDelete,
    ManageEdit,
    ManageMoveDown,
    ManageMoveUp,
    ManageRedo,
    ManageRowNext,
    ManageRowPrev,
    ManageSetDefault,
    ManageUndo,
    CreateTask,
    CreateChild,
    TaskDelete,
    EditNote,
    TaskIndent,
    TaskMoveDown,
    TaskMoveUp,
    TaskOutdent,
    RenameTask,
    SetDue,
    SetStatus,
    StatusNext,
    StatusPrev,
    ToggleExpand,
    HalfPageDown,
    HalfPageUp,
    SelectFirst,
    SelectFirstChild,
    SelectLast,
    SelectNext,
    SelectParent,
    SelectPrev,
    ViewFilter,
    ViewSearch,
    ToggleFooter,
    ZoomIn,
    ZoomOut,
}

impl CommandId {
    /// The text form.
    pub open spec fn text(self) -> Seq<char> {
        match self {
            CommandId::Quit => "app.quit"@,
            CommandId::Undo => "app.undo"@,
            CommandId::Redo => "app.redo"@,
            CommandId::SelectNext => "tree.select_next"@,
            CommandId::SelectPrev => "tree.select_prev"@,
            CommandId::SelectFirst => "tree.select_first"@,
            CommandId::SelectLast => "tree.select_last"@,
            CommandId::HalfPageDown => "tree.half_page_down"@,
            CommandId::HalfPageUp => "tree.half_page_up"@,
            CommandId::SelectParent => "tree.select_parent"@,
            CommandId::SelectFirstChild => "tree.select_first_child"@,
            CommandId::CreateTask => "task.create"@,
            CommandId::CreateChild => "task.create_child"@,
            CommandId::RenameTask => "task.rename"@,
            CommandId::SetStatus => "task.set_status"@,
            CommandId::SetDue => "task.set_due"@,
            CommandId::EditNote => "task.edit_note"@,
            CommandId::StatusNext => "task.status_next"@,
            CommandId::StatusPrev => "task.status_prev"@,
            CommandId::StatusCancel => "status.cancel"@,
            CommandId::StatusManage => "status.manage"@,
            CommandId::ManageRowNext => "statuses.row_next"@,
            CommandId::ManageRowPrev => "statuses.row_prev"@,
            CommandId::ManageColPrev => "statuses.col_prev"@,
            CommandId::ManageColNext => "statuses.col_next"@,
            CommandId::ManageEdit => "statuses.edit_cell"@,
            CommandId::ManageAdd => "statuses.add"@,
            CommandId::ManageDelete => "statuses.delete"@,
            CommandId::ManageMoveDown => "statuses.move_down"@,
            CommandId::ManageMoveUp => "statuses.move_up"@,
            CommandId::ManageSetDefault => "statuses.set_default"@,
            CommandId::ManageClose => "statuses.close"@,
            CommandId::ManageUndo => "statuses.undo"@,
            CommandId::ManageRedo => "statuses.redo"@,
            CommandId::TaskMoveUp => "task.move_up"@,
            CommandId::TaskMoveDown => "task.move_down"@,
            CommandId::TaskIndent => "task.indent"@,
            CommandId::TaskOutdent => "task.outdent"@,
            CommandId::TaskDelete => "task.delete"@,
            CommandId::ToggleExpand => "task.toggle_expand"@,
            CommandId::ZoomIn => "view.zoom_in"@,
            CommandId::ZoomOut => "view.zoom_out"@,
            CommandId::ViewFilter => "view.filter"@,
            CommandId::ViewSearch => "view.search"@,
            CommandId::QueryNext => "query.select_next"@,
            CommandId::QueryPrev => "query.select_prev"@,
            CommandId::QueryFirst => "query.select_first"@,
            CommandId::QueryLast => "query.select_last"@,
            CommandId::QueryHalfPageDown => "query.half_page_down"@,
            CommandId::QueryHalfPageUp => "query.half_page_up"@,
            CommandId::QueryEdit => "query.edit"@,
            CommandId::QuerySort => "query.sort"@,
            CommandId::QueryJump => "query.jump"@,
            CommandId::QueryClose => "query.close"@,
            CommandId::FilterCancel => "filter.cancel"@,
            CommandId::SortCancel => "sort.cancel"@,
            CommandId::InputConfirm => "input.confirm"@,
            CommandId::InputCancel => "input.cancel"@,
            CommandId::Help => "app.help"@,
            CommandId::ToggleFooter => "view.toggle_footer"@,
            CommandId::HelpNext => "help.scroll_down"@,
            CommandId::HelpPrev => "help.scroll_up"@,
            CommandId::HelpFirst => "help.first"@,
            CommandId::HelpLast => "help.last"@,
            CommandId::HelpHalfPageDown => "help.half_page_down"@,
            CommandId::HelpHalfPageUp => "help.half_page_up"@,
            CommandId::HelpFilter => "help.filter"@,
            CommandId::HelpClose => "help.close"@,
        }
    }

    pub fn as_str(self) -> (r: &'static str)
        ensures
            r@ == self.text(),
    {
        match self {
            CommandId::Quit => "app.quit",
            CommandId::Undo => "app.undo",
            CommandId::Redo => "app.redo",
            CommandId::SelectNext => "tree.select_next",
            CommandId::SelectPrev => "tree.select_prev",
            CommandId::SelectFirst => "tree.select_first",
            CommandId::SelectLast => "tree.select_last",
            CommandId::HalfPageDown => "tree.half_page_down",
            CommandId::HalfPageUp => "tree.half_page_up",
            CommandId::SelectParent => "tree.select_parent",
            CommandId::SelectFirstChild => "tree.select_first_child",
            CommandId::CreateTask => "task.create",
            CommandId::CreateChild => "task.create_child",
            CommandId::RenameTask => "task.rename",
            CommandId::SetStatus => "task.set_status",
            CommandId::SetDue => "task.set_due",
            CommandId::EditNote => "task.edit_note",
            CommandId::StatusNext => "task.status_next",
            CommandId::StatusPrev => "task.status_prev",
            CommandId::StatusCancel => "status.cancel",
            CommandId::StatusManage => "status.manage",
            CommandId::ManageRowNext => "statuses.row_next",
            CommandId::ManageRowPrev => "statuses.row_prev",
            CommandId::ManageColPrev => "statuses.col_prev",
            CommandId::ManageColNext => "statuses.col_next",
            CommandId::ManageEdit => "statuses.edit_cell",
            CommandId::ManageAdd => "statuses.add",
            CommandId::ManageDelete => "statuses.delete",
            CommandId::ManageMoveDown => "statuses.move_down",
            CommandId::ManageMoveUp => "statuses.move_up",
            CommandId::ManageSetDefault => "statuses.set_default",
            CommandId::ManageClose => "statuses.close",
            CommandId::ManageUndo => "statuses.undo",
            CommandId::ManageRedo => "statuses.redo",
            CommandId::TaskMoveUp => "task.move_up",
            CommandId::TaskMoveDown => "task.move_down",
            CommandId::TaskIndent => "task.indent",
            CommandId::TaskOutdent => "task.outdent",
            CommandId::TaskDelete => "task.delete",
            CommandId::ToggleExpand => "task.toggle_expand",
            CommandId::ZoomIn => "view.zoom_in",
            CommandId::ZoomOut => "view.zoom_out",
            CommandId::ViewFilter => "view.filter",
            CommandId::ViewSearch => "view.search",
            CommandId::QueryNext => "query.select_next",
            CommandId::QueryPrev => "query.select_prev",
            CommandId::QueryFirst => "query.select_first",
            CommandId::QueryLast => "query.select_last",
            CommandId::QueryHalfPageDown => "query.half_page_down",
            CommandId::QueryHalfPageUp => "query.half_page_up",
            CommandId::QueryEdit => "query.edit",
            CommandId::QuerySort => "query.sort",
            CommandId::QueryJump => "query.jump",
            CommandId::QueryClose => "query.close",
            CommandId::FilterCancel => "filter.cancel",
            CommandId::SortCancel => "sort.cancel",
            CommandId::InputConfirm => "input.confirm",
            CommandId::InputCancel => "input.cancel",
            CommandId::Help => "app.help",
            CommandId::ToggleFooter => "view.toggle_footer",
            CommandId::HelpNext => "help.scroll_down",
            CommandId::HelpPrev => "help.scroll_up",
            CommandId::HelpFirst => "help.first",
            CommandId::HelpLast => "help.last",
            CommandId::HelpHalfPageDown => "help.half_page_down",
            CommandId::HelpHalfPageUp => "help.half_page_up",
            CommandId::HelpFilter => "help.filter",
            CommandId::HelpClose => "help.close",
        }
    }
}

/// Which part of the UI currently receives keys. Bindings and footer hints
/// are resolved per context.
#[derive(Debug, Clone, Copy, PartialEq, Eq, Hash, Structural)]
pub enum Context {
    Tree,
    Input,
    StatusSelect,
    StatusManage,
    /// The delete-confirmation prompt. It consumes keys directly (y or
    /// anything else), so no commands are bound here; the variant exists so
    /// the footer shows no misleading tree hints while it is open.
    ConfirmDelete,
    /// Browsing flat search results.
    Query,
    /// The one-key filter menu. Its choice keys come from the status
    /// definitions, so only the cancel key lives in the keymap.
    FilterSelect,
    /// The one-key sort menu of the query view; same shape as FilterSelect.
    SortSelect,
    /// The searchable key-binding list.
    Help,
}

/// The user-facing name of a context, which `[keymap.<context>]` config
/// tables use. The delete prompt has none: it consumes its keys directly and
/// binds no commands, so there is nothing to list or override.
pub open spec fn context_name(context: Context) -> Option<Seq<char>> {
    match context {
        Context::Tree => Some("tree"@),
        Context::Query => Some("query"@),
        Context::Help => Some("help"@),
        Context::Input => Some("input"@),
        Context::StatusSelect => Some("status_select"@),
        Context::StatusManage => Some("status_manage"@),
        Context::FilterSelect => Some("filter_select"@),
        Context::SortSelect => Some("sort_select"@),
        Context::ConfirmDelete => None,
    }
}

/// The named contexts, in the order the help list shows them.
pub open spec fn named_contexts() -> Seq<Context> {
    seq![
        Context::Tree,
        Context::Query,
        Context::Help,
        Context::Input,
        Context::StatusSelect,
        Context::StatusManage,
        Context::FilterSelect,
        Context::SortSelect,
    ]
}

/// Contexts by their user-facing names, in the order the help list shows
/// them.
pub fn context_names() -> (r: Vec<(Context, &'static str)>)
    ensures
        r@.len() == named_contexts().len(),
        forall|i: int|
            0 <= i < r@.len() ==> (#[trigger] r@[i]).0 == named_contexts()[i] && context_name(
                r@[i].0,
            ) == Some(r@[i].1@),
{
    let mut r: Vec<(Context, &'static str)> = Vec::new();
    r.push((Context::Tree, "tree"));
    r.push((Context::Query, "query"));
    r.push((Context::Help, "help"));
    r.push((Context::Input, "input"));
    r.push((Context::StatusSelect, "status_select"));
    r.push((Context::StatusManage, "status_manage"));
    r.push((Context::FilterSelect, "filter_select"));
    r.push((Context::SortSelect, "sort_select"));
    r
}

/// The context a name stands for.
pub open spec fn context_named(name: Seq<char>) -> Option<Context> {
    if name == "tree"@ {
        Some(Context::Tree)
    } else if name == "query"@ {
        Some(Context::Query)
    } else if name == "help"@ {
        Some(Context::Help)
    } else if name == "input"@ {
        Some(Context::Input)
    } else if name == "status_select"@ {
        Some(Context::StatusSelect)
    } else if name == "status_manage"@ {
        Some(Context::StatusManage)
    } else if name == "filter_select"@ {
        Some(Context::FilterSelect)
    } else if name == "sort_select"@ {
        Some(Context::SortSelect)
    } else {
        None
    }
}

/// A name stands for a context exactly where the context has that name, so
/// no two contexts share one.
pub proof fn context_names_are_unique(name: Seq<char>, context: Context)
    ensures
        context_named(name) == Some(context) <==> context_name(context) == Some(name),
{
    reveal_strlit("tree");
    reveal_strlit("query");
    reveal_strlit("help");
    reveal_strlit("input");
    reveal_strlit("status_select");
    reveal_strlit("status_manage");
    reveal_strlit("filter_select");
    reveal_strlit("sort_select");
    assert("tree"@[0] == 't');
    assert("help"@[0] == 'h');
    assert("query"@[0] == 'q');
    assert("input"@[0] == 'i');
    assert("status_select"@[7] == 's');
    assert("status_manage"@[7] == 'm');
    assert("status_select"@[0] == 's' && "status_select"@[1] == 't');
    assert("status_manage"@[0] == 's' && "status_manage"@[1] == 't');
    assert("filter_select"@[0] == 'f');
    assert("sort_select"@[0] == 's' && "sort_select"@[1] == 'o');
}

/// The context with this name.
pub fn context_from_name(name: &str) -> (r: Option<Context>)
    ensures
        r == context_named(name@),
{
    if same(name, "tree") {
        Some(Context::Tree)
    } else if same(name, "query") {
        Some(Context::Query)
    } else if same(name, "help") {
        Some(Context::Help)
    } else if same(name, "input") {
        Some(Context::Input)
    } else if same(name, "status_select") {
        Some(Context::StatusSelect)
    } else if same(name, "status_manage") {
        Some(Context::StatusManage)
    } else if same(name, "filter_select") {
        Some(Context::FilterSelect)
    } else if same(name, "sort_select") {
        Some(Context::SortSelect)
    } else {
        None
    }
}

/// The name shown for a context; empty where it has none.
pub fn name_of_context(context: Context) -> (r: &'static str)
    ensures
        r@ == (match context_name(context) {
            Some(name) => name,
            None => ""@,
        }),
{
    match context {
        Context::Tree => "tree",
        Context::Query => "query",
        Context::Help => "help",
        Context::Input => "input",
        Context::StatusSelect => "status_select",
        Context::StatusManage => "status_manage",
        Context::FilterSelect => "filter_select",
        Context::SortSelect => "sort_select",
        Context::ConfirmDelete => "",
    }
}

/// A user-invocable operation. Every key-hint display (footer, help) is
/// generated from this table plus the keymap, so what is shown can never
/// drift from what the keys actually do.
#[derive(Debug, Clone, Copy)]
pub struct Command {
    pub id: CommandId,
    pub label: &'static str,
    pub context: Context,
    /// Footer display priority: higher shows first, 0 hides the command
    /// from the footer.
    pub hint_priority: u8,
}

/// A command as plain values.
#[verifier::ext_equal]
pub struct CommandV {
    pub id: CommandId,
    pub label: Seq<char>,
    pub context: Context,
    pub hint_priority: u8,
}

impl View for Command {
    type V = CommandV;

    open spec fn view(&self) -> CommandV {
        CommandV {
            id: self.id,
            label: self.label@,
            context: self.context,
            hint_priority: self.hint_priority,
        }
    }
}

/// The views of a list of commands.
pub open spec fn commands_view(v: Seq<Command>) -> Seq<CommandV> {
    v.map_values(|c: Command| c@)
}

pub open spec fn entry(
    id: CommandId,
    label: Seq<char>,
    context: Context,
    hint_priority: u8,
) -> CommandV {
    CommandV { id, label, context, hint_priority }
}

/// Every command, in the order displays list equal priorities.
pub open spec fn command_table() -> Seq<CommandV> {
    table_part_a() + table_part_b() + table_part_c() + table_part_d() + table_part_e() + table_part_f()
}

pub open spec fn table_part_a() -> Seq<CommandV> {
    seq![
        entry(CommandId::SelectNext, "down"@, Context::Tree, 100),
        entry(CommandId::SelectPrev, "up"@, Context::Tree, 90),
        entry(CommandId::ToggleExpand, "expand"@, Context::Tree, 85),
        entry(CommandId::CreateTask, "new task"@, Context::Tree, 80),
        entry(CommandId::CreateChild, "sub task"@, Context::Tree, 75),
        entry(CommandId::RenameTask, "rename"@, Context::Tree, 72),
        entry(CommandId::SetStatus, "status"@, Context::Tree, 71),
        entry(CommandId::SetDue, "due"@, Context::Tree, 71),
        entry(CommandId::EditNote, "note"@, Context::Tree, 69),
        entry(CommandId::StatusNext, "status next"@, Context::Tree, 0),
        entry(CommandId::StatusPrev, "status prev"@, Context::Tree, 0),
        entry(CommandId::TaskMoveUp, "move up"@, Context::Tree, 0),
    ]
}

pub open spec fn table_part_b() -> Seq<CommandV> {
    seq![
        entry(CommandId::TaskMoveDown, "move down"@, Context::Tree, 0),
        entry(CommandId::TaskIndent, "indent"@, Context::Tree, 0),
        entry(CommandId::TaskOutdent, "outdent"@, Context::Tree, 0),
        entry(CommandId::TaskDelete, "delete"@, Context::Tree, 18),
        entry(CommandId::Undo, "undo"@, Context::Tree, 17),
        entry(CommandId::Redo, "redo"@, Context::Tree, 16),
        entry(CommandId::ZoomIn, "zoom in"@, Context::Tree, 70),
        entry(CommandId::ZoomOut, "zoom out"@, Context::Tree, 65),
        entry(CommandId::ViewSearch, "search"@, Context::Tree, 64),
        entry(CommandId::ViewFilter, "filter"@, Context::Tree, 63),
        entry(CommandId::SelectFirst, "first"@, Context::Tree, 40),
        entry(CommandId::SelectLast, "last"@, Context::Tree, 30),
    ]
}

pub open spec fn table_part_c() -> Seq<CommandV> {
    seq![
        entry(CommandId::HalfPageDown, "half page down"@, Context::Tree, 0),
        entry(CommandId::HalfPageUp, "half page up"@, Context::Tree, 0),
        entry(CommandId::SelectParent, "parent"@, Context::Tree, 0),
        entry(CommandId::SelectFirstChild, "first child"@, Context::Tree, 0),
        entry(CommandId::Quit, "quit"@, Context::Tree, 20),
        entry(CommandId::Help, "help"@, Context::Tree, 14),
        entry(CommandId::ToggleFooter, "toggle footer"@, Context::Tree, 0),
        entry(CommandId::HelpFilter, "filter"@, Context::Help, 100),
        entry(CommandId::HelpClose, "close"@, Context::Help, 90),
        entry(CommandId::HelpNext, "down"@, Context::Help, 0),
        entry(CommandId::HelpPrev, "up"@, Context::Help, 0),
        entry(CommandId::HelpFirst, "first"@, Context::Help, 0),
    ]
}

pub open spec fn table_part_d() -> Seq<CommandV> {
    seq![
        entry(CommandId::HelpLast, "last"@, Context::Help, 0),
        entry(CommandId::HelpHalfPageDown, "half page down"@, Context::Help, 0),
        entry(CommandId::HelpHalfPageUp, "half page up"@, Context::Help, 0),
        entry(CommandId::InputConfirm, "confirm"@, Context::Input, 100),
        entry(CommandId::InputCancel, "cancel"@, Context::Input, 90),
        entry(CommandId::StatusCancel, "cancel"@, Context::StatusSelect, 100),
        entry(CommandId::StatusManage, "statuses"@, Context::Tree, 15),
        entry(CommandId::ManageEdit, "edit"@, Context::StatusManage, 100),
        entry(CommandId::ManageAdd, "add"@, Context::StatusManage, 90),
        entry(CommandId::ManageDelete, "delete"@, Context::StatusManage, 85),
        entry(CommandId::ManageSetDefault, "default"@, Context::StatusManage, 80),
        entry(CommandId::ManageMoveDown, "move down"@, Context::StatusManage, 50),
    ]
}

pub open spec fn table_part_e() -> Seq<CommandV> {
    seq![
        entry(CommandId::ManageMoveUp, "move up"@, Context::StatusManage, 45),
        entry(CommandId::ManageClose, "close"@, Context::StatusManage, 40),
        entry(CommandId::ManageUndo, "undo"@, Context::StatusManage, 10),
        entry(CommandId::ManageRedo, "redo"@, Context::StatusManage, 5),
        entry(CommandId::QueryJump, "jump"@, Context::Query, 100),
        entry(CommandId::QueryEdit, "search"@, Context::Query, 90),
        entry(CommandId::QuerySort, "sort"@, Context::Query, 85),
        entry(CommandId::ViewFilter, "filter"@, Context::Query, 80),
        entry(CommandId::QueryClose, "close"@, Context::Query, 70),
        entry(CommandId::QueryNext, "down"@, Context::Query, 0),
        entry(CommandId::QueryPrev, "up"@, Context::Query, 0),
        entry(CommandId::QueryFirst, "first"@, Context::Query, 0),
    ]
}

pub open spec fn table_part_f() -> Seq<CommandV> {
    seq![
        entry(CommandId::QueryLast, "last"@, Context::Query, 0),
        entry(CommandId::QueryHalfPageDown, "half page down"@, Context::Query, 0),
        entry(CommandId::QueryHalfPageUp, "half page up"@, Context::Query, 0),
        entry(CommandId::FilterCancel, "cancel"@, Context::FilterSelect, 100),
        entry(CommandId::SortCancel, "cancel"@, Context::SortSelect, 100),
        entry(CommandId::ManageRowNext, "down"@, Context::StatusManage, 0),
        entry(CommandId::ManageRowPrev, "up"@, Context::StatusManage, 0),
        entry(CommandId::ManageColPrev, "left"@, Context::StatusManage, 0),
        entry(CommandId::ManageColNext, "right"@, Context::StatusManage, 0),
    ]
}

fn command(id: CommandId, label: &'static str, context: Context, hint_priority: u8) -> (r: Command)
    ensures
        r@ == entry(id, label@, context, hint_priority),
{
    Command { id, label, context, hint_priority }
}

fn push_part_a(r: &mut Vec<Command>)
    ensures
        commands_view(final(r)@) == commands_view(old(r)@) + table_part_a(),
{
    r.push(command(CommandId::SelectNext, "down", Context::Tree, 100));
    r.push(command(CommandId::SelectPrev, "up", Context::Tree, 90));
    r.push(command(CommandId::ToggleExpand, "expand", Context::Tree, 85));
    r.push(command(CommandId::CreateTask, "new task", Context::Tree, 80));
    r.push(command(CommandId::CreateChild, "sub task", Context::Tree, 75));
    r.push(command(CommandId::RenameTask, "rename", Context::Tree, 72));
    r.push(command(CommandId::SetStatus, "status", Context::Tree, 71));
    r.push(command(CommandId::SetDue, "due", Context::Tree, 71));
    r.push(command(CommandId::EditNote, "note", Context::Tree, 69));
    r.push(command(CommandId::StatusNext, "status next", Context::Tree, 0));
    r.push(command(CommandId::StatusPrev, "status prev", Context::Tree, 0));
    r.push(command(CommandId::TaskMoveUp, "move up", Context::Tree, 0));
    assert(commands_view(r@) =~= commands_view(old(r)@) + table_part_a());
}

fn push_part_b(r: &mut Vec<Command>)
    ensures
        commands_view(final(r)@) == commands_view(old(r)@) + table_part_b(),
{
    r.push(command(CommandId::TaskMoveDown, "move down", Context::Tree, 0));
    r.push(command(CommandId::TaskIndent, "indent", Context::Tree, 0));
    r.push(command(CommandId::TaskOutdent, "outdent", Context::Tree, 0));
    r.push(command(CommandId::TaskDelete, "delete", Context::Tree, 18));
    r.push(command(CommandId::Undo, "undo", Context::Tree, 17));
    r.push(command(CommandId::Redo, "redo", Context::Tree, 16));
    r.push(command(CommandId::ZoomIn, "zoom in", Context::Tree, 70));
    r.push(command(CommandId::ZoomOut, "zoom out", Context::Tree, 65));
    r.push(command(CommandId::ViewSearch, "search", Context::Tree, 64));
    r.push(command(CommandId::ViewFilter, "filter", Context::Tree, 63));
    r.push(command(CommandId::SelectFirst, "first", Context::Tree, 40));
    r.push(command(CommandId::SelectLast, "last", Context::Tree, 30));
    assert(commands_view(r@) =~= commands_view(old(r)@) + table_part_b());
}

fn push_part_c(r: &mut Vec<Command>)
    ensures
        commands_view(final(r)@) == commands_view(old(r)@) + table_part_c(),
{
    r.push(command(CommandId::HalfPageDown, "half page down", Context::Tree, 0));
    r.push(command(CommandId::HalfPageUp, "half page up", Context::Tree, 0));
    r.push(command(CommandId::SelectParent, "parent", Context::Tree, 0));
    r.push(command(CommandId::SelectFirstChild, "first child", Context::Tree, 0));
    r.push(command(CommandId::Quit, "quit", Context::Tree, 20));
    r.push(command(CommandId::Help, "help", Context::Tree, 14));
    r.push(command(CommandId::ToggleFooter, "toggle footer", Context::Tree, 0));
    r.push(command(CommandId::HelpFilter, "filter", Context::Help, 100));
    r.push(command(CommandId::HelpClose, "close", Context::Help, 90));
    r.push(command(CommandId::HelpNext, "down", Context::Help, 0));
    r.push(command(CommandId::HelpPrev, "up", Context::Help, 0));
    r.push(command(CommandId::HelpFirst, "first", Context::Help, 0));
    assert(commands_view(r@) =~= commands_view(old(r)@) + table_part_c());
}

fn push_part_d(r: &mut Vec<Command>)
    ensures
        commands_view(final(r)@) == commands_view(old(r)@) + table_part_d(),
{
    r.push(command(CommandId::HelpLast, "last", Context::Help, 0));
    r.push(command(CommandId::HelpHalfPageDown, "half page down", Context::Help, 0));
    r.push(command(CommandId::HelpHalfPageUp, "half page up", Context::Help, 0));
    r.push(command(CommandId::InputConfirm, "confirm", Context::Input, 100));
    r.push(command(CommandId::InputCancel, "cancel", Context::Input, 90));
    r.push(command(CommandId::StatusCancel, "cancel", Context::StatusSelect, 100));
    r.push(command(CommandId::StatusManage, "statuses", Context::Tree, 15));
    r.push(command(CommandId::ManageEdit, "edit", Context::StatusManage, 100));
    r.push(command(CommandId::ManageAdd, "add", Context::StatusManage, 90));
    r.push(command(CommandId::ManageDelete, "delete", Context::StatusManage, 85));
    r.push(command(CommandId::ManageSetDefault, "default", Context::StatusManage, 80));
    r.push(command(CommandId::ManageMoveDown, "move down", Context::StatusManage, 50));
    assert(commands_view(r@) =~= commands_view(old(r)@) + table_part_d());
}

fn push_part_e(r: &mut Vec<Command>)
    ensures
        commands_view(final(r)@) == commands_view(old(r)@) + table_part_e(),
{
    r.push(command(CommandId::ManageMoveUp, "move up", Context::StatusManage, 45));
    r.push(command(CommandId::ManageClose, "close", Context::StatusManage, 40));
    r.push(command(CommandId::ManageUndo, "undo", Context::StatusManage, 10));
    r.push(command(CommandId::ManageRedo, "redo", Context::StatusManage, 5));
    r.push(command(CommandId::QueryJump, "jump", Context::Query, 100));
    r.push(command(CommandId::QueryEdit, "search", Context::Query, 90));
    r.push(command(CommandId::QuerySort, "sort", Context::Query, 85));
    r.push(command(CommandId::ViewFilter, "filter", Context::Query, 80));
    r.push(command(CommandId::QueryClose, "close", Context::Query, 70));
    r.push(command(CommandId::QueryNext, "down", Context::Query, 0));
    r.push(command(CommandId::QueryPrev, "up", Context::Query, 0));
    r.push(command(CommandId::QueryFirst, "first", Context::Query, 0));
    assert(commands_view(r@) =~= commands_view(old(r)@) + table_part_e());
}

fn push_part_f(r: &mut Vec<Command>)
    ensures
        commands_view(final(r)@) == commands_view(old(r)@) + table_part_f(),
{
    r.push(command(CommandId::QueryLast, "last", Context::Query, 0));
    r.push(command(CommandId::QueryHalfPageDown, "half page down", Context::Query, 0));
    r.push(command(CommandId::QueryHalfPageUp, "half page up", Context::Query, 0));
    r.push(command(CommandId::FilterCancel, "cancel", Context::FilterSelect, 100));
    r.push(command(CommandId::SortCancel, "cancel", Context::SortSelect, 100));
    r.push(command(CommandId::ManageRowNext, "down", Context::StatusManage, 0));
    r.push(command(CommandId::ManageRowPrev, "up", Context::StatusManage, 0));
    r.push(command(CommandId::ManageColPrev, "left", Context::StatusManage, 0));
    r.push(command(CommandId::ManageColNext, "right", Context::StatusManage, 0));
    assert(commands_view(r@) =~= commands_view(old(r)@) + table_part_f());
}

/// Every command. Priority 0 keeps a command out of the footer: power-user
/// shortcuts and plain cursor movement would crowd out the discoverable
/// commands; the help list still shows them. "due" ties with "status" so it
/// shows right after it.
pub fn commands() -> (r: Vec<Command>)
    ensures
        commands_view(r@) == command_table(),
{
    let mut r: Vec<Command> = Vec::new();
    push_part_a(&mut r);
    push_part_b(&mut r);
    push_part_c(&mut r);
    push_part_d(&mut r);
    push_part_e(&mut r);
    push_part_f(&mut r);
    assert(commands_view(r@) =~= command_table());
    r
}

} // verus!
