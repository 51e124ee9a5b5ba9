//! What the status modal, the search and the help do, told from the tables
//! and the views before and after.
use vstd::prelude::*;

use crate::app::effects;
use crate::app::model;
use crate::app::model::{AppV, ManageStep, ModeV};
use crate::app::moves;
use crate::color;
use crate::command::CommandId;
use crate::finding;
use crate::help;
use crate::help::HelpStateV;
use crate::input;
use crate::input::EditorV;
use crate::key::Key;
use crate::ops;
use crate::plans;
use crate::query_view;
use crate::query_view::QueryStateV;
use crate::status::{StatusKind, StatusMove, StatusV};
use crate::status_effects;
use crate::status_manage;
use crate::status_manage::{Column, EditingV, ManageV};
use crate::tables;
use crate::tables::{DbV, Tables};
use crate::text;

verus! {

/// Exactly this status is flagged as the default.
pub open spec fn flagged(t: Tables, f: i64) -> bool {
    &&& t.statuses.dom().contains(f)
    &&& forall|x: i64| #[trigger]
        t.statuses.dom().contains(x) ==> t.statuses[x].is_default == (x == f)
}

/// The statuses are those of the table, each once.
pub open spec fn lists(ss: Seq<StatusV>, m: Map<i64, StatusV>) -> bool {
    &&& forall|k: int| 0 <= k < ss.len() ==> m.dom().contains((#[trigger] ss[k]).id)
        && m[ss[k].id] == ss[k]
    &&& forall|x: i64| #[trigger]
        m.dom().contains(x) ==> exists|k: int| 0 <= k < ss.len() && (#[trigger] ss[k]).id == x
    &&& forall|j: int, k: int| 0 <= j < k < ss.len() ==> ss[j].id != ss[k].id
}

/// The status modal over a store whose statuses it shows, with the cursor on
/// one of them.
pub open spec fn managing(a: AppV, d: DbV, s: ManageV, f: i64) -> bool {
    &&& tables::history_ok(d, false)
    &&& d.tables.statuses.dom().finite()
    &&& forall|x: i64| #[trigger]
        d.tables.statuses.dom().contains(x) ==> d.tables.statuses[x].id == x
    &&& flagged(d.tables, f)
    &&& a.statuses == plans::statuses(d.tables.statuses)
    &&& s.row < a.statuses.len() <= usize::MAX
}

proof fn lemma_lists(m: Map<i64, StatusV>)
    requires
        m.dom().finite(),
        forall|x: i64| #[trigger] m.dom().contains(x) ==> m[x].id == x,
    ensures
        lists(plans::statuses(m), m),
{
    let ss = plans::statuses(m);
    status_effects::statuses_are_listed_in_their_order(m);
    assert forall|x: i64| #[trigger] m.dom().contains(x) implies exists|k: int|
        0 <= k < ss.len() && (#[trigger] ss[k]).id == x by {
        let k = choose|k: int| 0 <= k < ss.len() && #[trigger] ss[k] == m[x];
        assert(ss[k].id == x);
    }
    assert forall|j: int, k: int| 0 <= j < k < ss.len() implies ss[j].id != ss[k].id by {
        assert(m[ss[j].id] == ss[j] && m[ss[k].id] == ss[k]);
    }
}

/// What the modal does after an edit that went through.
proof fn lemma_relisted(a: AppV, s: ManageV, d: DbV, e: DbV, f: i64)
    requires
        d.tables.statuses.dom().finite(),
        forall|x: i64| #[trigger]
            e.tables.statuses.dom().contains(x) <==> d.tables.statuses.dom().contains(x),
        forall|x: i64| #[trigger]
            e.tables.statuses.dom().contains(x) ==> e.tables.statuses[x].id == x,
        flagged(e.tables, f),
    ensures
        ({
            let m = model::after_status_edit(a, s, (e, Ok(())));
            &&& m.result == Ok::<bool, crate::error::ErrorV>(true)
            &&& m.db == e
            &&& m.state == s
            &&& lists(m.app.statuses, e.tables.statuses)
            &&& m.app.default_status_id == f
        }),
{
    assert(e.tables.statuses.dom() =~= d.tables.statuses.dom());
    lemma_lists(e.tables.statuses);
    status_effects::the_default_status_is_the_flagged_one(e.tables, f);
}

/// The column's place in the table, from the left.
pub open spec fn place(col: Column) -> int {
    match col {
        Column::Label => 0,
        Column::Kind => 1,
        Column::Color => 2,
        Column::Key => 3,
    }
}

/// The commands of the modal move the cursor by one row or column, and not
/// off the table; nothing else changes.
pub proof fn the_modal_cursor_moves_by_one(a: AppV, d: DbV, s: ManageV)
    requires
        s.row < a.statuses.len() <= usize::MAX,
    ensures
        ({
            let down = model::manage_command(a, d, s, CommandId::ManageRowNext);
            let up = model::manage_command(a, d, s, CommandId::ManageRowPrev);
            let left = model::manage_command(a, d, s, CommandId::ManageColPrev);
            let right = model::manage_command(a, d, s, CommandId::ManageColNext);
            let still = |m: ManageStep|
                m.app == a && m.db == d && m.result == Ok::<bool, crate::error::ErrorV>(true)
                    && m.state.editing == s.editing;
            &&& still(down) && still(up) && still(left) && still(right)
            &&& down.state.col == s.col && up.state.col == s.col
            &&& left.state.row == s.row && right.state.row == s.row
            &&& down.state.row == if s.row + 1 < a.statuses.len() {
                s.row + 1
            } else {
                s.row as int
            }
            &&& up.state.row == if s.row > 0 {
                s.row - 1
            } else {
                0
            }
            &&& place(left.state.col) == if place(s.col) > 0 {
                place(s.col) - 1
            } else {
                0
            }
            &&& place(right.state.col) == if place(s.col) < 3 {
                place(s.col) + 1
            } else {
                3
            }
        }),
{
}

/// Text typed into a label or color cell and confirmed is stored, without
/// the white space around it, in that cell of the status under the cursor,
/// and in no other. Blank text changes nothing.
pub proof fn a_typed_cell_changes_one_status(
    a: AppV,
    d: DbV,
    s: ManageV,
    f: i64,
    editor: EditorV,
)
    requires
        managing(a, d, s, f),
        s.editing == EditingV::Cell(editor),
        s.col == Column::Label || s.col == Column::Color,
    ensures
        ({
            let m = model::manage_key(a, d, s, Key::Enter);
            let id = a.statuses[s.row as int].id;
            let before = d.tables.statuses[id];
            let after = m.db.tables.statuses[id];
            let core = text::trimmed(editor.text);
            &&& effects::is_core(editor.text, core)
            &&& m.result == Ok::<bool, crate::error::ErrorV>(true)
            &&& m.state == ManageV { editing: EditingV::Nothing, ..s }
            &&& core.len() == 0 ==> m.db == d && m.app == a
            &&& core.len() > 0 ==> {
                &&& status_effects::only_status(d.tables, m.db.tables, id)
                &&& after.label == if s.col == Column::Label {
                    core
                } else {
                    before.label
                }
                &&& after.color == if s.col == Column::Color {
                    core
                } else {
                    before.color
                }
                &&& after.kind == before.kind
                &&& after.key == before.key
                &&& after.display_order == before.display_order
                &&& after.is_default == before.is_default
                &&& lists(m.app.statuses, m.db.tables.statuses)
                &&& s.col == Column::Label ==> m.app.status_line == a.status_line
                &&& s.col == Column::Color ==> (m.app.status_line == a.status_line
                    || m.app.status_line is Some && color::color_of(core)
                    == crate::style::Color::Reset)
            }
        }),
{
    let idle = ManageV { editing: EditingV::Nothing, ..s };
    let id = a.statuses[s.row as int].id;
    let core = text::trimmed(editor.text);
    effects::typed_text_loses_the_space_around_it(editor.text);
    lemma_lists(d.tables.statuses);
    assert(d.tables.statuses.dom().contains(id));
    input::enter_submits_and_esc_cancels(editor, 'a');
    if core.len() > 0 {
        if s.col == Column::Label {
            status_effects::relabelling_changes_the_label_alone(d, id, core);
            lemma_relisted(a, idle, d, ops::update_status_label(d, id, core).0, f);
        } else {
            status_effects::a_color_change_changes_the_color_alone(d, id, core);
            let edit = ops::update_status_color(d, id, core);
            let b = if color::color_of(core) == crate::style::Color::Reset {
                model::says(
                    a,
                    "unknown color `"@ + core
                        + "` (expected a name or #rrggbb); it will render as the terminal default"@,
                )
            } else {
                a
            };
            lemma_relisted(b, idle, d, edit.0, f);
        }
    }
}

/// The edit command in the kind column makes an open status done, a done one
/// cancelled, and a cancelled one open, and changes nothing else. In the
/// other columns it opens an edit, of the cell's own text or of the next
/// key.
pub proof fn editing_a_cell_starts_from_what_it_holds(a: AppV, d: DbV, s: ManageV, f: i64)
    requires
        managing(a, d, s, f),
    ensures
        ({
            let m = model::manage_command(a, d, s, CommandId::ManageEdit);
            let status = a.statuses[s.row as int];
            let id = status.id;
            let before = d.tables.statuses[id];
            let after = m.db.tables.statuses[id];
            &&& m.result == Ok::<bool, crate::error::ErrorV>(true)
            &&& m.state.row == s.row && m.state.col == s.col
            &&& s.col == Column::Kind ==> {
                &&& status_effects::only_status(d.tables, m.db.tables, id)
                &&& before.kind == StatusKind::Open ==> after.kind == StatusKind::Done
                &&& before.kind == StatusKind::Done ==> after.kind == StatusKind::Cancelled
                &&& before.kind == StatusKind::Cancelled ==> after.kind == StatusKind::Open
                &&& after == StatusV { kind: after.kind, ..before }
                &&& lists(m.app.statuses, m.db.tables.statuses)
                &&& m.state == s
            }
            &&& s.col != Column::Kind ==> m.db == d && m.app == a
            &&& s.col == Column::Label ==> (m.state.editing matches EditingV::Cell(e) && e.text
                == status.label && e.at == status.label.len())
            &&& s.col == Column::Color ==> (m.state.editing matches EditingV::Cell(e) && e.text
                == status.color && e.at == status.color.len())
            &&& s.col == Column::Key ==> m.state.editing is KeyCapture
        }),
{
    let status = a.statuses[s.row as int];
    lemma_lists(d.tables.statuses);
    assert(d.tables.statuses.dom().contains(status.id));
    if s.col == Column::Kind {
        let kind = status_manage::next_kind(status.kind);
        status_effects::a_kind_change_changes_the_kind_alone(d, status.id, kind);
        lemma_relisted(a, s, d, ops::update_status_kind(d, status.id, kind).0, f);
    }
}

/// A key captured for a status becomes its key, and nothing else changes; a
/// key that another status has is refused, with nothing changed at all.
pub proof fn a_captured_key_belongs_to_one_status(
    a: AppV,
    d: DbV,
    s: ManageV,
    f: i64,
    c: char,
)
    requires
        managing(a, d, s, f),
        s.editing is KeyCapture,
    ensures
        ({
            let m = model::manage_key(a, d, s, Key::Char(c));
            let id = a.statuses[s.row as int].id;
            let before = d.tables.statuses[id];
            let after = m.db.tables.statuses[id];
            let used = exists|x: i64| #[trigger]
                d.tables.statuses.dom().contains(x) && x != id && d.tables.statuses[x].key == c;
            &&& m.result == Ok::<bool, crate::error::ErrorV>(true)
            &&& m.state == ManageV { editing: EditingV::Nothing, ..s }
            &&& used ==> m.db == d && m.app.statuses == a.statuses && m.app.status_line is Some
            &&& !used ==> {
                &&& status_effects::only_status(d.tables, m.db.tables, id)
                &&& after == StatusV { key: c, ..before }
                &&& lists(m.app.statuses, m.db.tables.statuses)
            }
        }),
{
    let idle = ManageV { editing: EditingV::Nothing, ..s };
    let status = a.statuses[s.row as int];
    let t = d.tables.statuses;
    lemma_lists(t);
    assert(t.dom().contains(status.id));
    if status_manage::taken(a.statuses, c, status.id) {
        let i = choose|i: int|
            0 <= i < a.statuses.len() && (#[trigger] a.statuses[i]).key == c && a.statuses[i].id
                != status.id;
        assert(t.dom().contains(a.statuses[i].id));
    } else {
        assert forall|x: i64| #[trigger] t.dom().contains(x) && x != status.id implies t[x].key
            != c by {
            let k = choose|k: int| 0 <= k < a.statuses.len() && (#[trigger] a.statuses[k]).id == x;
            assert(a.statuses[k] == t[x]);
        }
        status_effects::a_key_change_changes_the_key_alone(d, status.id, c);
        lemma_relisted(a, idle, d, ops::update_status_key(d, status.id, c).0, f);
    }
}

/// No status of the table has this key.
pub open spec fn is_free(m: Map<i64, StatusV>, c: char) -> bool {
    forall|x: i64| #[trigger] m.dom().contains(x) ==> m[x].key != c
}

proof fn lemma_free(ss: Seq<StatusV>, m: Map<i64, StatusV>, n: u8)
    requires
        lists(ss, m),
        97 <= n <= 123,
    ensures
        match status_manage::free_from(ss, n) {
            Some(c) => n <= c as int && c <= 'z' && is_free(m, c) && forall|b: char|
                n <= b as int && b < c ==> !(#[trigger] is_free(m, b)),
            None => forall|b: char| n <= b as int && b <= 'z' ==> !(#[trigger] is_free(m, b)),
        },
    decreases 123 - n,
{
    if n <= 122 {
        let c = n as char;
        assert(c as int == n as int);
        assert(status_manage::key_used(ss, c) <==> !is_free(m, c)) by {
            if status_manage::key_used(ss, c) {
                let i = choose|i: int| 0 <= i < ss.len() && (#[trigger] ss[i]).key == c;
                assert(m.dom().contains(ss[i].id));
            }
            if !is_free(m, c) {
                let x = choose|x: i64| #[trigger] m.dom().contains(x) && m[x].key == c;
                let k = choose|k: int| 0 <= k < ss.len() && (#[trigger] ss[k]).id == x;
                assert(ss[k] == m[x]);
            }
        }
        if status_manage::key_used(ss, c) {
            lemma_free(ss, m, (n + 1) as u8);
        }
    }
}

/// A typed label makes a new status with that label, without the white space
/// around it: open, gray, under the first letter that no status has, behind
/// all others. The cursor goes to its label. Where every letter is taken,
/// or the label is blank, nothing changes.
pub proof fn a_typed_label_adds_a_status(a: AppV, d: DbV, s: ManageV, f: i64, editor: EditorV)
    requires
        managing(a, d, s, f),
        s.editing == EditingV::NewStatus(editor),
        forall|x: i64| #[trigger]
            d.tables.statuses.dom().contains(x) ==> x < i64::MAX
                && d.tables.statuses[x].display_order < i64::MAX,
    ensures
        ({
            let m = model::manage_key(a, d, s, Key::Enter);
            let t = d.tables.statuses;
            let n = m.db.tables.statuses;
            let core = text::trimmed(editor.text);
            let full = forall|c: char| 'a' <= c && c <= 'z' ==> !(#[trigger] is_free(t, c));
            &&& effects::is_core(editor.text, core)
            &&& m.result == Ok::<bool, crate::error::ErrorV>(true)
            &&& m.state.editing is Nothing
            &&& core.len() == 0 || full ==> m.db == d && m.app.statuses == a.statuses
                && m.state.row == s.row
            &&& core.len() > 0 && !full ==> exists|id: i64|
                {
                    &&& #[trigger] n.dom().contains(id)
                    &&& !t.dom().contains(id)
                    &&& n[id].id == id
                    &&& n[id].label == core
                    &&& n[id].kind == StatusKind::Open
                    &&& n[id].color == "gray"@
                    &&& !n[id].is_default
                    &&& 'a' <= n[id].key && n[id].key <= 'z'
                    &&& is_free(t, n[id].key)
                    &&& forall|c: char| 'a' <= c && c < n[id].key ==> !(#[trigger] is_free(t, c))
                    &&& forall|x: i64| #[trigger]
                        n.dom().contains(x) <==> t.dom().contains(x) || x == id
                    &&& forall|x: i64| #[trigger]
                        t.dom().contains(x) ==> n[x] == t[x] && t[x].display_order
                            < n[id].display_order
                    &&& m.db.tables.tasks == d.tables.tasks
                    &&& lists(m.app.statuses, n)
                    &&& m.app.statuses.len() <= usize::MAX ==> m.state.row < m.app.statuses.len()
                        && m.app.statuses[m.state.row as int].id == id
                    &&& m.state.col == Column::Label
                }
        }),
{
    let idle = ManageV { editing: EditingV::Nothing, ..s };
    let core = text::trimmed(editor.text);
    let t = d.tables.statuses;
    effects::typed_text_loses_the_space_around_it(editor.text);
    input::enter_submits_and_esc_cancels(editor, 'a');
    lemma_lists(t);
    lemma_free(a.statuses, t, 97);
    if core.len() > 0 {
        match status_manage::unused_key(a.statuses) {
            None => {
                assert forall|c: char| 'a' <= c && c <= 'z' implies !(#[trigger] is_free(t, c)) by {
                    assert(97 <= c as int);
                }
            },
            Some(key) => {
                assert('a' <= key && key <= 'z' && is_free(t, key));
                status_effects::creating_a_status_appends_it(
                    d,
                    core,
                    StatusKind::Open,
                    "gray"@,
                    key,
                );
                let (e, r) = ops::create_status(d, core, StatusKind::Open, "gray"@, key);
                let row = r->Ok_0;
                let n = e.tables.statuses;
                assert(n.dom().contains(row.id));
                assert(n.dom() =~= t.dom().insert(row.id));
                assert(n[row.id].id == row.id);
                lemma_lists(n);
                assert forall|x: i64| #[trigger] n.dom().contains(x) implies n[x].is_default == (x
                    == f) by {
                    assert(t.dom().contains(f));
                    if t.dom().contains(x) {
                        assert(x < row.id);
                    }
                }
                status_effects::the_default_status_is_the_flagged_one(e.tables, f);
                let m = model::after_status_edit(a, idle, (e, Ok(())));
                let ss = m.app.statuses;
                let k = choose|k: int| 0 <= k < ss.len() && (#[trigger] ss[k]).id == row.id;
                finding::lemma_position_known(ss, row.id, k);
                assert forall|c: char| 'a' <= c && c < key implies !(#[trigger] is_free(t, c)) by {
                    assert(97 <= c as int);
                }
            },
        }
    }
}

/// Deleting takes the status under the cursor where no task has it, it is
/// not the last one and not the default; otherwise nothing changes but the
/// message.
pub proof fn the_delete_key_takes_an_unused_status(a: AppV, d: DbV, s: ManageV, f: i64)
    requires
        managing(a, d, s, f),
        d.tables.tasks.dom().finite(),
        d.tables.tasks.dom().len() <= i64::MAX,
    ensures
        ({
            let m = model::manage_command(a, d, s, CommandId::ManageDelete);
            let id = a.statuses[s.row as int].id;
            let t = d.tables.statuses;
            let n = m.db.tables.statuses;
            let held = exists|x: i64| #[trigger]
                d.tables.tasks.dom().contains(x) && d.tables.tasks[x].status_id == id;
            &&& m.result == Ok::<bool, crate::error::ErrorV>(true)
            &&& m.db.tables.tasks == d.tables.tasks
            &&& held || id == f ==> m.db == d && m.app.statuses == a.statuses
                && m.app.status_line is Some && m.state == s
            &&& !held && id != f ==> {
                &&& forall|x: i64| #[trigger]
                    n.dom().contains(x) <==> t.dom().contains(x) && x != id
                &&& forall|x: i64| #[trigger] n.dom().contains(x) ==> n[x] == t[x]
                &&& lists(m.app.statuses, n)
                &&& m.app.statuses.len() > 0 && m.app.statuses.len() <= usize::MAX
                    ==> m.state.row < m.app.statuses.len()
                &&& m.state.row <= s.row
            }
        }),
{
    let id = a.statuses[s.row as int].id;
    let t = d.tables;
    lemma_lists(t.statuses);
    assert(t.statuses.dom().contains(id));
    status_effects::deleting_a_status_takes_an_unused_one(d, id);
    let (e, r) = ops::delete_status(d, id);
    let carriers = t.tasks.dom().filter(|x: i64| t.tasks[x].status_id == id);
    let held = exists|x: i64| #[trigger] t.tasks.dom().contains(x) && t.tasks[x].status_id == id;
    vstd::set_lib::lemma_len_subset(carriers, t.tasks.dom());
    if held {
        let x = choose|x: i64| #[trigger] t.tasks.dom().contains(x) && t.tasks[x].status_id == id;
        assert(carriers.contains(x));
        assert(carriers.len() > 0) by {
            if carriers.len() == 0 {
                assert(carriers =~= Set::empty());
            }
        }
    } else {
        assert(carriers =~= Set::empty());
        assert(carriers.len() == 0);
    }
    if !held && id != f {
        assert(t.statuses.dom().contains(f));
        assert(t.statuses.dom().len() != 1) by {
            if t.statuses.dom().len() == 1 {
                let one = t.statuses.dom().remove(f);
                assert(one.len() == 0);
                assert(one.contains(id));
            }
        }
        let u = e.tables.statuses;
        assert(u.dom() =~= t.statuses.dom().remove(id));
        lemma_lists(u);
        assert(flagged(e.tables, f));
        status_effects::the_default_status_is_the_flagged_one(e.tables, f);
    }
}

/// Moving a status in the modal moves the cursor with it, and no task is
/// touched: the status and the one next to it change places.
pub proof fn a_moved_status_keeps_the_cursor(a: AppV, d: DbV, s: ManageV, f: i64, down: bool)
    requires
        managing(a, d, s, f),
    ensures
        ({
            let command = if down {
                CommandId::ManageMoveDown
            } else {
                CommandId::ManageMoveUp
            };
            let m = model::manage_command(a, d, s, command);
            let direction = if down {
                StatusMove::Down
            } else {
                StatusMove::Up
            };
            let id = a.statuses[s.row as int].id;
            &&& m.result == Ok::<bool, crate::error::ErrorV>(true)
            &&& m.db == ops::move_status(d, id, direction).0
            &&& m.db.tables.tasks == d.tables.tasks
            &&& lists(m.app.statuses, m.db.tables.statuses)
            &&& m.app.statuses.len() <= usize::MAX ==> m.state.row < m.app.statuses.len()
                && m.app.statuses[m.state.row as int].id == id
            &&& m.state.col == s.col
        }),
{
    let direction = if down {
        StatusMove::Down
    } else {
        StatusMove::Up
    };
    let id = a.statuses[s.row as int].id;
    let t = d.tables.statuses;
    lemma_lists(t);
    assert(t.dom().contains(id));
    status_effects::moving_a_status_changes_places_with_the_next(d, id, direction);
    let e = ops::move_status(d, id, direction).0;
    let n = e.tables.statuses;
    assert forall|x: i64| #[trigger] n.dom().contains(x) implies n[x].id == x && n[x].is_default
        == (x == f) by {
        assert(t.dom().contains(x));
    }
    lemma_relisted(a, s, d, e, f);
    let ss = model::after_status_edit(a, s, (e, Ok(()))).app.statuses;
    assert(n.dom().contains(id));
    let k = choose|k: int| 0 <= k < ss.len() && (#[trigger] ss[k]).id == id;
    finding::lemma_position_known(ss, id, k);
}

/// The status under the cursor becomes the default, for the store and for
/// new tasks, and no other is one any more.
pub proof fn the_default_key_flags_the_status(a: AppV, d: DbV, s: ManageV, f: i64)
    requires
        managing(a, d, s, f),
    ensures
        ({
            let m = model::manage_command(a, d, s, CommandId::ManageSetDefault);
            let id = a.statuses[s.row as int].id;
            &&& m.result == Ok::<bool, crate::error::ErrorV>(true)
            &&& flagged(m.db.tables, id)
            &&& m.db.tables.tasks == d.tables.tasks
            &&& m.app.default_status_id == id
            &&& lists(m.app.statuses, m.db.tables.statuses)
            &&& m.state == s
            &&& forall|x: i64| #[trigger]
                d.tables.statuses.dom().contains(x) ==> m.db.tables.statuses.dom().contains(x)
                    && m.db.tables.statuses[x] == (StatusV {
                    is_default: x == id,
                    ..d.tables.statuses[x]
                })
        }),
{
    let id = a.statuses[s.row as int].id;
    lemma_lists(d.tables.statuses);
    assert(d.tables.statuses.dom().contains(id));
    status_effects::one_status_becomes_the_default(d, id);
    let e = ops::set_default_status(d, id).0;
    assert(e.tables.statuses.dom().contains(id));
    lemma_relisted(a, s, d, e, id);
    assert forall|x: i64| #[trigger] d.tables.statuses.dom().contains(x) implies
        e.tables.statuses.dom().contains(x) && e.tables.statuses[x] == (StatusV {
        is_default: x == id,
        ..d.tables.statuses[x]
    }) by {
        assert(e.tables.statuses.dom().contains(x));
    }
}

/// Adding opens an empty line where some letter is free, and only a message
/// where none is; closing leaves the modal, the tables as they are.
pub proof fn opening_and_closing_change_no_row(a: AppV, d: DbV, s: ManageV, f: i64)
    requires
        managing(a, d, s, f),
    ensures
        ({
            let more = model::manage_command(a, d, s, CommandId::ManageAdd);
            let out = model::manage_command(a, d, s, CommandId::ManageClose);
            let full = forall|c: char|
                'a' <= c && c <= 'z' ==> !(#[trigger] is_free(d.tables.statuses, c));
            &&& more.db == d && more.result == Ok::<bool, crate::error::ErrorV>(true)
            &&& !full ==> more.app == a && (more.state.editing matches EditingV::NewStatus(e)
                && e.text.len() == 0)
            &&& full ==> more.state == s && more.app.status_line is Some
            &&& out.db.tables == d.tables
            &&& out.app == a
            &&& out.result is Ok ==> out.result == Ok::<bool, crate::error::ErrorV>(false)
        }),
{
    let t = d.tables.statuses;
    lemma_lists(t);
    lemma_free(a.statuses, t, 97);
    if status_manage::unused_key(a.statuses) is None {
        assert forall|c: char| 'a' <= c && c <= 'z' implies !(#[trigger] is_free(t, c)) by {
            assert(97 <= c as int);
        }
    } else {
        let c = status_manage::unused_key(a.statuses)->Some_0;
        assert('a' <= c && c <= 'z' && is_free(t, c));
    }
}

/// The commands of the search move its cursor as those of the tree do, by
/// one result, to the ends or by half a page of the popup, and never off the
/// results; nothing else changes.
pub proof fn the_search_cursor_moves_within_the_results(a: AppV, s: QueryStateV, today: Seq<char>)
    requires
        s.selected < s.results.len() <= usize::MAX,
    ensures
        ({
            let at = |command: CommandId| model::query_command(a, s, command, today);
            let last: int = s.results.len() - 1;
            let i = s.selected;
            let still = |command: CommandId|
                {
                    let r = model::query_command(a, s, command, today);
                    r.0 == a && r.2 && r.1 == QueryStateV { selected: r.1.selected, ..s }
                };
            &&& still(CommandId::QueryNext) && still(CommandId::QueryPrev)
            &&& still(CommandId::QueryFirst) && still(CommandId::QueryLast)
            &&& still(CommandId::QueryHalfPageDown) && still(CommandId::QueryHalfPageUp)
            &&& at(CommandId::QueryNext).1.selected == if i < last {
                i + 1
            } else {
                last
            }
            &&& at(CommandId::QueryPrev).1.selected == if i > 0 {
                i - 1
            } else {
                0
            }
            &&& at(CommandId::QueryFirst).1.selected == 0
            &&& at(CommandId::QueryLast).1.selected == last
            &&& forall|step: int| #[trigger]
                moves::is_half_page(a.popup_height, step) ==> {
                    &&& at(CommandId::QueryHalfPageDown).1.selected == if i + step <= last {
                        i + step
                    } else {
                        last
                    }
                    &&& at(CommandId::QueryHalfPageUp).1.selected == if step <= i {
                        i - step
                    } else {
                        0
                    }
                }
        }),
{
}

/// The help scrolls by one line, to the ends or by half a page, and never
/// off its lines; nothing else changes.
pub proof fn the_help_scrolls_within_its_lines(a: AppV, s: HelpStateV)
    requires
        s.scroll < model::help_count(a, s) <= usize::MAX,
    ensures
        ({
            let at = |command: CommandId| model::help_command(a, s, command);
            let last: int = model::help_count(a, s) - 1;
            let i = s.scroll;
            let still = |command: CommandId|
                {
                    let r = model::help_command(a, s, command);
                    r.1 && r.0 == HelpStateV { scroll: r.0.scroll, ..s }
                };
            &&& still(CommandId::HelpNext) && still(CommandId::HelpPrev)
            &&& still(CommandId::HelpFirst) && still(CommandId::HelpLast)
            &&& still(CommandId::HelpHalfPageDown) && still(CommandId::HelpHalfPageUp)
            &&& at(CommandId::HelpNext).0.scroll == if i < last {
                i + 1
            } else {
                last
            }
            &&& at(CommandId::HelpPrev).0.scroll == if i > 0 {
                i - 1
            } else {
                0
            }
            &&& at(CommandId::HelpFirst).0.scroll == 0
            &&& at(CommandId::HelpLast).0.scroll == last
            &&& forall|step: int| #[trigger]
                moves::is_half_page(a.popup_height, step) ==> {
                    &&& at(CommandId::HelpHalfPageDown).0.scroll == if i + step <= last {
                        i + step
                    } else {
                        last
                    }
                    &&& at(CommandId::HelpHalfPageUp).0.scroll == if step <= i {
                        i - step
                    } else {
                        0
                    }
                }
            &&& !at(CommandId::HelpClose).1
            &&& at(CommandId::HelpFilter).1 && at(CommandId::HelpFilter).0.editor.text
                == s.editor.text
        }),
{
}

/// In the search, Enter keeps the text and its results and turns to
/// browsing, Esc leaves the search, and neither touches the tree. In its
/// menus Esc goes back to browsing.
pub proof fn the_search_is_left_by_esc(a: AppV, d: DbV, s: QueryStateV, today: Seq<char>, now: Seq<char>)
    requires
        a.mode == ModeV::Query(s),
    ensures
        ({
            let enter = model::pressed(a, d, Key::Enter, today, now);
            let esc = model::pressed(a, d, Key::Esc, today, now);
            let quiet = AppV { status_line: None, ..a };
            &&& s.focus == query_view::Focus::Edit ==> {
                &&& esc == model::done(AppV { mode: ModeV::Tree, ..quiet }, d)
                &&& enter.db == d
                &&& enter.app == AppV { mode: enter.app.mode, ..quiet }
                &&& enter.app.mode matches ModeV::Query(q)
                &&& q.focus == query_view::Focus::Browse
                &&& q.editor.text == s.editor.text
                &&& q.results == s.results && q.selected == s.selected && q.sort == s.sort
            }
            &&& s.focus == query_view::Focus::SortMenu || s.focus
                == query_view::Focus::FilterMenu ==> {
                &&& esc.db == d
                &&& esc.app == AppV {
                    mode: ModeV::Query(QueryStateV { focus: query_view::Focus::Browse, ..s }),
                    ..quiet
                }
                &&& enter.db == d && enter.app.mode == a.mode
            }
        }),
{
}

/// The commands of the search turn to typing, to the sort menu and to the
/// filter menu, with everything else kept, and close it.
pub proof fn the_search_turns_to_its_menus(a: AppV, s: QueryStateV, today: Seq<char>)
    ensures
        ({
            let edit = model::query_command(a, s, CommandId::QueryEdit, today);
            let sort = model::query_command(a, s, CommandId::QuerySort, today);
            let filter = model::query_command(a, s, CommandId::ViewFilter, today);
            let close = model::query_command(a, s, CommandId::QueryClose, today);
            &&& edit.0 == a && edit.2
            &&& edit.1 == QueryStateV { editor: edit.1.editor, focus: edit.1.focus, ..s }
            &&& edit.1.focus == query_view::Focus::Edit
            &&& edit.1.editor.text == s.editor.text && edit.1.editor.at == s.editor.text.len()
            &&& sort == (a, QueryStateV { focus: query_view::Focus::SortMenu, ..s }, true)
            &&& filter == (a, QueryStateV { focus: query_view::Focus::FilterMenu, ..s }, true)
            &&& close.0 == a && !close.2
        }),
{
}

/// In the help, typing a filter goes back to the first line, Enter keeps the
/// filter and turns to browsing, and Esc leaves the help.
pub proof fn the_help_is_left_by_esc(a: AppV, d: DbV, s: HelpStateV, c: char, today: Seq<char>, now: Seq<char>)
    requires
        a.mode == ModeV::Help(s),
        s.focus == help::Focus::Edit,
        s.editor.at <= s.editor.text.len(),
    ensures
        ({
            let enter = model::pressed(a, d, Key::Enter, today, now);
            let esc = model::pressed(a, d, Key::Esc, today, now);
            let typed = model::pressed(a, d, Key::Char(c), today, now);
            let quiet = AppV { status_line: None, ..a };
            &&& esc == model::done(AppV { mode: ModeV::Tree, ..quiet }, d)
            &&& enter.db == d && enter.app == AppV { mode: enter.app.mode, ..quiet }
            &&& enter.app.mode matches ModeV::Help(h)
            &&& h.focus == help::Focus::Browse && h.editor.text == s.editor.text && h.scroll
                == s.scroll
            &&& typed.db == d && typed.app == AppV { mode: typed.app.mode, ..quiet }
            &&& typed.app.mode matches ModeV::Help(h)
            &&& h.focus == help::Focus::Edit && h.scroll == 0 && h.editor.text
                == s.editor.text.insert(s.editor.at as int, c)
        }),
{
    input::typing_changes_the_text_at_the_cursor(s.editor, c);
    let after = s.editor.text.insert(s.editor.at as int, c);
    match input::edited(s.editor, Key::Char(c)) {
        input::EditResultV::Continue(e) => {
            assert(e.text =~= after);
        },
        _ => {},
    }
}

/// Undo and redo in the modal are those of the store. Whatever they bring
/// back is listed, and the cursor stays on the list; where there is nothing
/// to undo or redo only a message tells it.
pub proof fn the_modal_undoes_in_the_store(a: AppV, d: DbV, s: ManageV, redo: bool)
    requires
        s.row < a.statuses.len() <= usize::MAX,
    ensures
        ({
            let m = model::manage_command(
                a,
                d,
                s,
                if redo {
                    CommandId::ManageRedo
                } else {
                    CommandId::ManageUndo
                },
            );
            let (e, o) = if redo {
                ops::redo(d)
            } else {
                ops::undo(d)
            };
            &&& m.db == e
            &&& o is None ==> m.state == s && m.app.statuses == a.statuses
                && m.app.status_line is Some
            &&& o is Some ==> m.app.statuses == plans::statuses(e.tables.statuses)
            &&& o is Some && m.result is Ok ==> {
                &&& m.result == Ok::<bool, crate::error::ErrorV>(true)
                &&& m.app.status_line == Some(
                    (if redo {
                        "redid"@
                    } else {
                        "undid"@
                    }) + ": "@ + o->Some_0.description,
                )
                &&& m.state.row <= s.row
                &&& 0 < m.app.statuses.len() <= usize::MAX ==> m.state.row < m.app.statuses.len()
                &&& m.state.col == s.col
            }
        }),
{
}

} // verus!
