//! Cycling a task through the statuses.
use vstd::prelude::*;

use crate::status;
use crate::status::{Status, StatusV};

verus! {

/// Which neighbour to pick when cycling a task's status.
#[derive(Debug, Clone, Copy, PartialEq, Eq, Structural)]
pub enum Direction {
    Next,
    Prev,
}

/// The position of the first status with this id, or the length.
pub open spec fn position(statuses: Seq<StatusV>, id: i64) -> int
    decreases statuses.len(),
{
    if statuses.len() == 0 || statuses[0].id == id {
        0
    } else {
        1 + position(statuses.drop_first(), id)
    }
}

/// The index next to `i`, wrapping around at both ends.
pub open spec fn neighbour(i: int, len: int, direction: Direction) -> int {
    match direction {
        Direction::Next => if i + 1 == len {
            0
        } else {
            i + 1
        },
        Direction::Prev => if i == 0 {
            len - 1
        } else {
            i - 1
        },
    }
}

pub open spec fn adjacent(statuses: Seq<StatusV>, id: i64, direction: Direction) -> Option<i64> {
    let i = position(statuses, id);
    if i < statuses.len() {
        Some(statuses[neighbour(i, statuses.len() as int, direction)].id)
    } else {
        None
    }
}

/// The position of the first status with this id.
pub fn position_of(statuses: &Vec<Status>, id: i64) -> (r: Option<usize>)
    ensures
        match r {
            Some(i) => i < statuses@.len() && i == position(status::statuses_view(statuses@), id)
                && statuses@[i as int].id == id,
            None => position(status::statuses_view(statuses@), id) == statuses@.len(),
        },
{
    let ghost v = status::statuses_view(statuses@);
    let mut i: usize = 0;
    assert(v.skip(0) =~= v);
    while i < statuses.len()
        invariant
            i <= statuses.len(),
            v == status::statuses_view(statuses@),
            position(v, id) == i + position(v.skip(i as int), id),
        decreases statuses.len() - i,
    {
        assert(v.skip(i as int)[0] == statuses@[i as int]@);
        if statuses[i].id == id {
            return Some(i);
        }
        assert(v.skip(i as int).drop_first() =~= v.skip(i + 1));
        i = i + 1;
    }
    None
}

/// Returns the id of the status adjacent to `current_id` in `statuses`
/// (which is already in display order), wrapping around at both ends.
/// Returns None when `current_id` is not present: the view is then stale
/// relative to the database, and writing a status picked from an
/// inconsistent view could change data the user never asked to touch.
pub fn adjacent_status_id(statuses: &Vec<Status>, current_id: i64, direction: Direction) -> (r:
    Option<i64>)
    ensures
        r == adjacent(status::statuses_view(statuses@), current_id, direction),
{
    match position_of(statuses, current_id) {
        Some(i) => {
            let n: usize = match direction {
                Direction::Next => if i == statuses.len() - 1 {
                    0
                } else {
                    i + 1
                },
                Direction::Prev => if i == 0 {
                    statuses.len() - 1
                } else {
                    i - 1
                },
            };
            Some(statuses[n].id)
        },
        None => None,
    }
}

proof fn lemma_position(statuses: Seq<StatusV>, i: int)
    requires
        0 <= i < statuses.len(),
        forall|a: int, b: int|
            0 <= a < statuses.len() && 0 <= b < statuses.len() && statuses[a].id == statuses[b].id
                ==> a == b,
    ensures
        position(statuses, statuses[i].id) == i,
    decreases statuses.len(),
{
    if i > 0 {
        assert(statuses[0].id != statuses[i].id);
        let rest = statuses.drop_first();
        assert(rest[i - 1] == statuses[i]);
        assert forall|a: int, b: int|
            0 <= a < rest.len() && 0 <= b < rest.len() && rest[a].id == rest[b].id implies a == b by {
            assert(statuses[a + 1].id == statuses[b + 1].id);
        }
        lemma_position(rest, i - 1);
    }
}

/// One step forward and one back, or one back and one forward, lead back to
/// the status itself.
pub proof fn next_and_prev_revert_each_other(statuses: Seq<StatusV>, i: int)
    requires
        0 <= i < statuses.len(),
        forall|a: int, b: int|
            0 <= a < statuses.len() && 0 <= b < statuses.len() && statuses[a].id == statuses[b].id
                ==> a == b,
    ensures
        ({
            let id = statuses[i].id;
            &&& adjacent(statuses, id, Direction::Next) matches Some(n) && adjacent(
                statuses,
                n,
                Direction::Prev,
            ) == Some(id)
            &&& adjacent(statuses, id, Direction::Prev) matches Some(p) && adjacent(
                statuses,
                p,
                Direction::Next,
            ) == Some(id)
        }),
{
    let len = statuses.len() as int;
    lemma_position(statuses, i);
    lemma_position(statuses, neighbour(i, len, Direction::Next));
    lemma_position(statuses, neighbour(i, len, Direction::Prev));
}

} // verus!
