//! The commands by name.
use vstd::prelude::*;

use crate::command::CommandId;

verus! {

pub const QUIT: CommandId = CommandId::Quit;

pub const UNDO: CommandId = CommandId::Undo;

pub const REDO: CommandId = CommandId::Redo;

pub const SELECT_NEXT: CommandId = CommandId::SelectNext;

pub const SELECT_PREV: CommandId = CommandId::SelectPrev;

pub const SELECT_FIRST: CommandId = CommandId::SelectFirst;

pub const SELECT_LAST: CommandId = CommandId::SelectLast;

pub const HALF_PAGE_DOWN: CommandId = CommandId::HalfPageDown;

pub const HALF_PAGE_UP: CommandId = CommandId::HalfPageUp;

pub const SELECT_PARENT: CommandId = CommandId::SelectParent;

pub const SELECT_FIRST_CHILD: CommandId = CommandId::SelectFirstChild;

pub const CREATE_TASK: CommandId = CommandId::CreateTask;

pub const CREATE_CHILD: CommandId = CommandId::CreateChild;

pub const RENAME_TASK: CommandId = CommandId::RenameTask;

pub const SET_STATUS: CommandId = CommandId::SetStatus;

pub const SET_DUE: CommandId = CommandId::SetDue;

pub const EDIT_NOTE: CommandId = CommandId::EditNote;

pub const STATUS_NEXT: CommandId = CommandId::StatusNext;

pub const STATUS_PREV: CommandId = CommandId::StatusPrev;

pub const STATUS_CANCEL: CommandId = CommandId::StatusCancel;

pub const STATUS_MANAGE: CommandId = CommandId::StatusManage;

pub const MANAGE_ROW_NEXT: CommandId = CommandId::ManageRowNext;

pub const MANAGE_ROW_PREV: CommandId = CommandId::ManageRowPrev;

pub const MANAGE_COL_PREV: CommandId = CommandId::ManageColPrev;

pub const MANAGE_COL_NEXT: CommandId = CommandId::ManageColNext;

pub const MANAGE_EDIT: CommandId = CommandId::ManageEdit;

pub const MANAGE_ADD: CommandId = CommandId::ManageAdd;

pub const MANAGE_DELETE: CommandId = CommandId::ManageDelete;

pub const MANAGE_MOVE_DOWN: CommandId = CommandId::ManageMoveDown;

pub const MANAGE_MOVE_UP: CommandId = CommandId::ManageMoveUp;

pub const MANAGE_SET_DEFAULT: CommandId = CommandId::ManageSetDefault;

pub const MANAGE_CLOSE: CommandId = CommandId::ManageClose;

pub const MANAGE_UNDO: CommandId = CommandId::ManageUndo;

pub const MANAGE_REDO: CommandId = CommandId::ManageRedo;

pub const TASK_MOVE_UP: CommandId = CommandId::TaskMoveUp;

pub const TASK_MOVE_DOWN: CommandId = CommandId::TaskMoveDown;

pub const TASK_INDENT: CommandId = CommandId::TaskIndent;

pub const TASK_OUTDENT: CommandId = CommandId::TaskOutdent;

pub const TASK_DELETE: CommandId = CommandId::TaskDelete;

pub const TOGGLE_EXPAND: CommandId = CommandId::ToggleExpand;

pub const ZOOM_IN: CommandId = CommandId::ZoomIn;

pub const ZOOM_OUT: CommandId = CommandId::ZoomOut;

pub const VIEW_FILTER: CommandId = CommandId::ViewFilter;

pub const VIEW_SEARCH: CommandId = CommandId::ViewSearch;

pub const QUERY_NEXT: CommandId = CommandId::QueryNext;

pub const QUERY_PREV: CommandId = CommandId::QueryPrev;

pub const QUERY_FIRST: CommandId = CommandId::QueryFirst;

pub const QUERY_LAST: CommandId = CommandId::QueryLast;

pub const QUERY_HALF_PAGE_DOWN: CommandId = CommandId::QueryHalfPageDown;

pub const QUERY_HALF_PAGE_UP: CommandId = CommandId::QueryHalfPageUp;

pub const QUERY_EDIT: CommandId = CommandId::QueryEdit;

pub const QUERY_SORT: CommandId = CommandId::QuerySort;

pub const QUERY_JUMP: CommandId = CommandId::QueryJump;

pub const QUERY_CLOSE: CommandId = CommandId::QueryClose;

pub const FILTER_CANCEL: CommandId = CommandId::FilterCancel;

pub const SORT_CANCEL: CommandId = CommandId::SortCancel;

pub const INPUT_CONFIRM: CommandId = CommandId::InputConfirm;

pub const INPUT_CANCEL: CommandId = CommandId::InputCancel;

pub const HELP: CommandId = CommandId::Help;

pub const TOGGLE_FOOTER: CommandId = CommandId::ToggleFooter;

pub const HELP_NEXT: CommandId = CommandId::HelpNext;

pub const HELP_PREV: CommandId = CommandId::HelpPrev;

pub const HELP_FIRST: CommandId = CommandId::HelpFirst;

pub const HELP_LAST: CommandId = CommandId::HelpLast;

pub const HELP_HALF_PAGE_DOWN: CommandId = CommandId::HelpHalfPageDown;

pub const HELP_HALF_PAGE_UP: CommandId = CommandId::HelpHalfPageUp;

pub const HELP_FILTER: CommandId = CommandId::HelpFilter;

pub const HELP_CLOSE: CommandId = CommandId::HelpClose;

} // verus!
