//! What follows from the contracts of the reactor about the cells that a
//! change marks for notification.

use vstd::prelude::*;
use crate::cell::{CallbackId, ComputeCellId, ComputeCellView, InputCellId, Notice};
use crate::model::ReactorView;

verus! {

/// Every cell that a change marks lies below position `n`, depends on the
/// changed input and has a value that is not equal to the one it had; it is
/// listed with its new value, and the cells are listed in order of position.
pub proof fn law_marks_sound<T: PartialEq, F: Fn(&[T]) -> T, C: FnMut(T)>(
    before: ReactorView<T, F, C>,
    after: ReactorView<T, F, C>,
    input: InputCellId,
    n: int,
)
    requires
        n <= usize::MAX,
    ensures
        forall|m: int|
            0 <= m < before.changed_upto(after, input, n).len() ==> {
                let mark = #[trigger] before.changed_upto(after, input, n)[m];
                &&& 0 <= mark.0.0 < n
                &&& before.affected(input, mark.0.0 as int)
                &&& before.replaced(after, mark.0.0 as int)
                &&& mark.1 == after.computes[mark.0.0 as int].value.unwrap()
            },
        forall|m1: int, m2: int|
            0 <= m1 < m2 < before.changed_upto(after, input, n).len() ==> before.changed_upto(
                after,
                input,
                n,
            )[m1].0.0 < before.changed_upto(after, input, n)[m2].0.0,
    decreases n,
{
    if n > 0 {
        law_marks_sound(before, after, input, n - 1);
    }
}

/// No-op propagation: a compute cell whose value after a change is equal to
/// its value before it is not marked for notification, and neither is one
/// that does not depend on the changed input.
pub proof fn law_unchanged_not_marked<T: PartialEq, F: Fn(&[T]) -> T, C: FnMut(T)>(
    before: ReactorView<T, F, C>,
    after: ReactorView<T, F, C>,
    input: InputCellId,
    cell: ComputeCellId,
)
    requires
        before.computes.len() <= usize::MAX,
        !before.affected(input, cell.0 as int) || !before.replaced(after, cell.0 as int),
    ensures
        forall|m: int|
            0 <= m < before.changed(after, input).len() ==> (#[trigger] before.changed(
                after,
                input,
            )[m]).0 != cell,
{
    law_marks_sound(before, after, input, before.computes.len() as int);
}

/// Exactly once: a compute cell that depends on the changed input and whose
/// value after the change is not equal to its value before it is marked at
/// one position and no other, with its value after the change.
pub proof fn law_changed_marked_once<T: PartialEq, F: Fn(&[T]) -> T, C: FnMut(T)>(
    before: ReactorView<T, F, C>,
    after: ReactorView<T, F, C>,
    input: InputCellId,
    cell: ComputeCellId,
)
    requires
        before.computes.len() <= usize::MAX,
        before.affected(input, cell.0 as int),
        before.replaced(after, cell.0 as int),
    ensures
        exists|m: int|
            {
                &&& 0 <= m < before.changed(after, input).len()
                &&& #[trigger] before.changed(after, input)[m] == (
                    cell,
                    after.computes[cell.0 as int].value.unwrap(),
                )
                &&& forall|other: int|
                    0 <= other < before.changed(after, input).len() && other != m
                        ==> #[trigger] before.changed(after, input)[other].0 != cell
            },
{
    let n = before.computes.len() as int;
    lemma_marked(before, after, input, cell, n);
    law_marks_sound(before, after, input, n);
    let marks = before.changed(after, input);
    let m = choose|m: int| 0 <= m < marks.len() && (#[trigger] marks[m]).0 == cell;
    assert(marks[m] == (cell, after.computes[cell.0 as int].value.unwrap()));
    assert forall|other: int| 0 <= other < marks.len() && other != m implies #[trigger] marks[other].0
        != cell by {
        if other < m {
            assert(marks[other].0.0 < marks[m].0.0);
        } else {
            assert(marks[m].0.0 < marks[other].0.0);
        }
    }
}

/// A cell below position `n` that depends on the changed input and has a
/// value not equal to its old one is among the cells marked below `n`.
proof fn lemma_marked<T: PartialEq, F: Fn(&[T]) -> T, C: FnMut(T)>(
    before: ReactorView<T, F, C>,
    after: ReactorView<T, F, C>,
    input: InputCellId,
    cell: ComputeCellId,
    n: int,
)
    requires
        cell.0 < n <= usize::MAX,
        before.affected(input, cell.0 as int),
        before.replaced(after, cell.0 as int),
    ensures
        exists|m: int|
            0 <= m < before.changed_upto(after, input, n).len() && (#[trigger] before.changed_upto(
                after,
                input,
                n,
            )[m]).0 == cell,
    decreases n,
{
    let marks = before.changed_upto(after, input, n);
    let c = n - 1;
    let rest = before.changed_upto(after, input, c);
    if cell.0 == c {
        assert(marks == rest.push((ComputeCellId(c as usize), after.computes[c].value.unwrap())));
        assert(marks[rest.len() as int].0 == cell);
    } else {
        lemma_marked(before, after, input, cell, c);
        let m = choose|m: int| 0 <= m < rest.len() && (#[trigger] rest[m]).0 == cell;
        assert(marks[m] == rest[m]);
    }
}

/// The calls that tell the callbacks of one cell: each is for that cell,
/// carries the value and names a registered callback; they come in the
/// order of the callbacks, and every registered callback has one.
pub proof fn law_cell_notices<T, F, C>(cell: ComputeCellView<T, F, C>, value: T, n: int)
    requires
        n <= cell.callbacks.len() <= usize::MAX,
    ensures
        forall|p: int|
            0 <= p < cell.notices_upto(value, n).len() ==> {
                let notice = #[trigger] cell.notices_upto(value, n)[p];
                &&& notice.cell == cell.id
                &&& notice.value == value
                &&& notice.callback.0 < n
                &&& cell.has_callback(notice.callback)
            },
        forall|p: int, q: int|
            0 <= p < q < cell.notices_upto(value, n).len() ==> cell.notices_upto(
                value,
                n,
            )[p].callback.0 < cell.notices_upto(value, n)[q].callback.0,
        forall|k: int|
            0 <= k < n && cell.callbacks[k] is Some ==> exists|p: int|
                0 <= p < cell.notices_upto(value, n).len() && (#[trigger] cell.notices_upto(
                    value,
                    n,
                )[p]).callback.0 == k,
    decreases n,
{
    if n > 0 {
        law_cell_notices(cell, value, n - 1);
        let before = cell.notices_upto(value, n - 1);
        let all = cell.notices_upto(value, n);
        assert forall|k: int| 0 <= k < n && cell.callbacks[k] is Some implies exists|p: int|
            0 <= p < all.len() && (#[trigger] all[p]).callback.0 == k by {
            if k < n - 1 {
                let p = choose|p: int| 0 <= p < before.len() && (#[trigger] before[p]).callback.0 == k;
                assert(all[p] == before[p]);
            } else {
                assert(all[before.len() as int].callback.0 == k);
            }
        }
    }
}

/// The marks name cells of the reactor, in order of position.
pub open spec fn marks_in_order<T, F, C>(
    reactor: ReactorView<T, F, C>,
    marks: Seq<(ComputeCellId, T)>,
) -> bool {
    &&& forall|i: int| 0 <= i < marks.len() ==> (#[trigger] marks[i]).0.0 < reactor.computes.len()
    &&& forall|i: int, j: int| 0 <= i < j < marks.len() ==> marks[i].0.0 < marks[j].0.0
}

/// The first call is for a cell at a lower position than the second, or
/// for the same cell and a callback that was added before.
pub open spec fn earlier<T>(first: Notice<T>, second: Notice<T>) -> bool {
    first.cell.0 < second.cell.0 || (first.cell == second.cell && first.callback.0
        < second.callback.0)
}

/// The calls that tell about a list of marks: each is for a marked cell,
/// carries the value of its mark and names a callback registered on the
/// cell; no callback of a cell is called twice; and every callback
/// registered on a marked cell is called.
pub proof fn law_notices<T, F, C>(
    reactor: ReactorView<T, F, C>,
    marks: Seq<(ComputeCellId, T)>,
    n: int,
)
    requires
        reactor.numbered(),
        marks_in_order(reactor, marks),
        0 <= n <= marks.len(),
    ensures
        forall|p: int|
            0 <= p < reactor.notices_upto(marks, n).len() ==> {
                let notice = #[trigger] reactor.notices_upto(marks, n)[p];
                exists|i: int|
                    {
                        &&& 0 <= i < n
                        &&& #[trigger] marks[i] == (notice.cell, notice.value)
                        &&& reactor.computes[notice.cell.0 as int].has_callback(notice.callback)
                    }
            },
        forall|p: int, q: int|
            0 <= p < q < reactor.notices_upto(marks, n).len() ==> earlier(
                #[trigger] reactor.notices_upto(marks, n)[p],
                #[trigger] reactor.notices_upto(marks, n)[q],
            ),
        forall|i: int, callback: CallbackId|
            0 <= i < n && reactor.computes[marks[i].0.0 as int].has_callback(callback)
                ==> exists|p: int|
                0 <= p < reactor.notices_upto(marks, n).len() && #[trigger] reactor.notices_upto(
                    marks,
                    n,
                )[p] == (Notice { cell: marks[i].0, callback, value: marks[i].1 }),
    decreases n,
{
    if n > 0 {
        law_notices(reactor, marks, n - 1);
        let (cell, value) = marks[n - 1];
        let record = reactor.computes[cell.0 as int];
        let before = reactor.notices_upto(marks, n - 1);
        let added = record.notices(value);
        let all = reactor.notices_upto(marks, n);
        law_cell_notices(record, value, record.callbacks.len() as int);
        assert(all == before + added);
        assert(record.id == cell);
        assert forall|p: int| 0 <= p < all.len() implies {
            let notice = #[trigger] all[p];
            exists|i: int|
                {
                    &&& 0 <= i < n
                    &&& #[trigger] marks[i] == (notice.cell, notice.value)
                    &&& reactor.computes[notice.cell.0 as int].has_callback(notice.callback)
                }
        } by {
            if p < before.len() {
                assert(all[p] == before[p]);
                let i = choose|i: int|
                    {
                        &&& 0 <= i < n - 1
                        &&& #[trigger] marks[i] == (before[p].cell, before[p].value)
                        &&& reactor.computes[before[p].cell.0 as int].has_callback(
                            before[p].callback,
                        )
                    };
                assert(marks[i] == (all[p].cell, all[p].value));
            } else {
                assert(all[p] == added[p - before.len()]);
                assert(marks[n - 1] == (all[p].cell, all[p].value));
            }
        }
        assert forall|p: int, q: int| 0 <= p < q < all.len() implies earlier(
            #[trigger] all[p],
            #[trigger] all[q],
        ) by {
            if q < before.len() {
                assert(all[p] == before[p] && all[q] == before[q]);
                assert(earlier(before[p], before[q]));
            } else if p < before.len() {
                assert(all[p] == before[p]);
                assert(all[q] == added[q - before.len()]);
                let i = choose|i: int|
                    {
                        &&& 0 <= i < n - 1
                        &&& #[trigger] marks[i] == (before[p].cell, before[p].value)
                        &&& reactor.computes[before[p].cell.0 as int].has_callback(
                            before[p].callback,
                        )
                    };
                assert(marks[i].0.0 < marks[n - 1].0.0);
            } else {
                assert(all[p] == added[p - before.len()]);
                assert(all[q] == added[q - before.len()]);
            }
        }
        assert forall|i: int, callback: CallbackId|
            0 <= i < n && reactor.computes[marks[i].0.0 as int].has_callback(
                callback,
            ) implies exists|p: int|
            0 <= p < all.len() && #[trigger] all[p] == (Notice {
                cell: marks[i].0,
                callback,
                value: marks[i].1,
            }) by {
            if i < n - 1 {
                let p = choose|p: int|
                    0 <= p < before.len() && #[trigger] before[p] == (Notice {
                        cell: marks[i].0,
                        callback,
                        value: marks[i].1,
                    });
                assert(all[p] == before[p]);
            } else {
                let p = choose|p: int|
                    0 <= p < added.len() && (#[trigger] added[p]).callback.0 == callback.0;
                assert(all[before.len() + p] == added[p]);
                assert(added[p].callback == callback);
            }
        }
    }
}

/// No-op propagation: after a change, no callback is called for a compute
/// cell that does not depend on the changed input, nor for one whose value
/// is equal to the value it had; and a callback that is called gets the
/// value that its cell has after the change.
pub proof fn law_unchanged_not_notified<T: PartialEq, F: Fn(&[T]) -> T, C: FnMut(T)>(
    before: ReactorView<T, F, C>,
    after: ReactorView<T, F, C>,
    input: InputCellId,
)
    requires
        before.computes.len() == after.computes.len(),
        after.numbered(),
    ensures
        forall|p: int|
            0 <= p < after.notices(before.changed(after, input)).len() ==> {
                let notice = #[trigger] after.notices(before.changed(after, input))[p];
                &&& before.affected(input, notice.cell.0 as int)
                &&& before.replaced(after, notice.cell.0 as int)
                &&& notice.value == after.computes[notice.cell.0 as int].value.unwrap()
                &&& after.computes[notice.cell.0 as int].has_callback(notice.callback)
            },
{
    let marks = before.changed(after, input);
    law_marks_sound(before, after, input, before.computes.len() as int);
    law_notices(after, marks, marks.len() as int);
    let notices = after.notices(marks);
    assert forall|p: int| 0 <= p < notices.len() implies {
        let notice = #[trigger] notices[p];
        &&& before.affected(input, notice.cell.0 as int)
        &&& before.replaced(after, notice.cell.0 as int)
        &&& notice.value == after.computes[notice.cell.0 as int].value.unwrap()
        &&& after.computes[notice.cell.0 as int].has_callback(notice.callback)
    } by {
        let notice = notices[p];
        let i = choose|i: int|
            {
                &&& 0 <= i < marks.len()
                &&& #[trigger] marks[i] == (notice.cell, notice.value)
                &&& after.computes[notice.cell.0 as int].has_callback(notice.callback)
            };
        assert(marks[i].0 == notice.cell);
    }
}

/// Exactly once: after a change, a callback registered on a compute cell
/// that depends on the changed input and whose value is not equal to the
/// value it had is called at one place in the list of calls and at no
/// other, with the value that the cell has after the change.
pub proof fn law_changed_notified_once<T: PartialEq, F: Fn(&[T]) -> T, C: FnMut(T)>(
    before: ReactorView<T, F, C>,
    after: ReactorView<T, F, C>,
    input: InputCellId,
    cell: ComputeCellId,
    callback: CallbackId,
)
    requires
        before.computes.len() == after.computes.len(),
        after.numbered(),
        before.affected(input, cell.0 as int),
        before.replaced(after, cell.0 as int),
        after.computes[cell.0 as int].has_callback(callback),
    ensures
        exists|p: int|
            {
                &&& 0 <= p < after.notices(before.changed(after, input)).len()
                &&& #[trigger] after.notices(before.changed(after, input))[p] == (Notice {
                    cell,
                    callback,
                    value: after.computes[cell.0 as int].value.unwrap(),
                })
                &&& forall|q: int|
                    0 <= q < after.notices(before.changed(after, input)).len() && q != p ==> !((
                    #[trigger] after.notices(before.changed(after, input))[q]).cell == cell
                        && after.notices(before.changed(after, input))[q].callback == callback)
            },
{
    let marks = before.changed(after, input);
    let notices = after.notices(marks);
    law_marks_sound(before, after, input, before.computes.len() as int);
    law_changed_marked_once(before, after, input, cell);
    law_notices(after, marks, marks.len() as int);
    let value = after.computes[cell.0 as int].value.unwrap();
    let i = choose|i: int| 0 <= i < marks.len() && #[trigger] marks[i] == (cell, value);
    assert(marks[i].0 == cell);
    let p = choose|p: int|
        0 <= p < notices.len() && #[trigger] notices[p] == (Notice { cell, callback, value });
    assert forall|q: int| 0 <= q < notices.len() && q != p implies !((#[trigger] notices[q]).cell
        == cell && notices[q].callback == callback) by {
        if q < p {
            assert(earlier(notices[q], notices[p]));
        } else {
            assert(earlier(notices[p], notices[q]));
        }
    }
}

} // verus!
