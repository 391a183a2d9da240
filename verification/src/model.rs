//! The reactor as a mathematical value, and the relations between the states
//! before and after each operation.

use vstd::prelude::*;
use vstd::std_specs::cmp::PartialEqSpec;
use crate::cell::{CellId, ComputeCellId, ComputeCellView, InputCellId, Notice};

verus! {

/// The cells of a reactor: the value of each input cell and the record of
/// each compute cell, both in order of creation.
pub struct ReactorView<T, F, C> {
    pub inputs: Seq<T>,
    pub computes: Seq<ComputeCellView<T, F, C>>,
}

impl<T, F, C> ReactorView<T, F, C> {
    /// The cell `id` has been created.
    pub open spec fn contains(self, id: CellId) -> bool {
        match id {
            CellId::Input(i) => i.0 < self.inputs.len(),
            CellId::Compute(c) => c.0 < self.computes.len(),
        }
    }

    /// The current value of the cell `id`, `None` for a cell that does not exist.
    pub open spec fn value(self, id: CellId) -> Option<T> {
        match id {
            CellId::Input(i) => if i.0 < self.inputs.len() {
                Some(self.inputs[i.0 as int])
            } else {
                None
            },
            CellId::Compute(c) => if c.0 < self.computes.len() {
                self.computes[c.0 as int].value
            } else {
                None
            },
        }
    }

    /// The cell `id` existed when the compute cell at position `c` was created.
    pub open spec fn precedes(self, id: CellId, c: int) -> bool {
        match id {
            CellId::Input(i) => i.0 < self.inputs.len(),
            CellId::Compute(j) => j.0 < c,
        }
    }

    /// The compute cells that read `id` directly.
    pub open spec fn dependents(self, id: CellId) -> Set<ComputeCellId> {
        Set::new(
            |c: ComputeCellId|
                c.0 < self.computes.len() && self.computes[c.0 as int].deps.contains(id),
        )
    }

    /// Every compute cell carries its position as its identifier, and the
    /// numbers of cells and of callback slots are numbers of the machine.
    pub open spec fn numbered(self) -> bool {
        &&& self.computes.len() <= usize::MAX
        &&& forall|c: int|
            0 <= c < self.computes.len() ==> (#[trigger] self.computes[c]).id.0 == c
                && self.computes[c].callbacks.len() <= usize::MAX
    }

    /// The calls that tell about the first `n` of `marks`: for each marked
    /// cell in turn, one call of each callback registered on it, with the
    /// value that the mark carries. A mark that names no cell adds nothing.
    pub open spec fn notices_upto(self, marks: Seq<(ComputeCellId, T)>, n: int) -> Seq<Notice<T>>
        decreases n,
    {
        if n <= 0 {
            Seq::empty()
        } else {
            let (cell, value) = marks[n - 1];
            let before = self.notices_upto(marks, n - 1);
            if cell.0 < self.computes.len() {
                before + self.computes[cell.0 as int].notices(value)
            } else {
                before
            }
        }
    }

    /// The calls that tell about `marks`.
    pub open spec fn notices(self, marks: Seq<(ComputeCellId, T)>) -> Seq<Notice<T>> {
        self.notices_upto(marks, marks.len() as int)
    }

    /// The compute cell at position `c` reads `input`, or reads a compute
    /// cell at a position below `bound` that is affected by `input`.
    pub open spec fn reached(self, input: InputCellId, c: int, bound: int) -> bool
        decreases bound, 0int,
    {
        exists|k: int|
            0 <= k < self.computes[c].deps.len() && match #[trigger] self.computes[c].deps[k] {
                CellId::Input(i) => i == input,
                CellId::Compute(j) => j.0 < bound && self.affected(input, j.0 as int),
            }
    }

    /// The compute cell at position `c` depends on `input`, directly or
    /// through other compute cells.
    pub open spec fn affected(self, input: InputCellId, c: int) -> bool
        decreases c, 1int,
    {
        0 <= c < self.computes.len() && self.reached(input, c, c)
    }
}

impl<T, F: Fn(&[T]) -> T, C: FnMut(T)> ReactorView<T, F, C> {
    /// The compute cell at position `c` is consistent with the rest: it
    /// reads only cells created before it, it has seen the current value of
    /// each of them, its value is a result of its function on those values,
    /// and its function and callbacks can be called again.
    pub open spec fn cell_wf(self, c: int) -> bool {
        let cell = self.computes[c];
        &&& cell.id.0 == c
        &&& cell.cache.len() == cell.deps.len()
        &&& forall|k: int|
            0 <= k < cell.deps.len() ==> self.precedes(#[trigger] cell.deps[k], c)
        &&& forall|k: int|
            0 <= k < cell.deps.len() ==> (#[trigger] cell.cache[k]) == self.value(cell.deps[k])
        &&& cell.value is Some
        &&& cell.accepts()
        &&& cell.yields(cell.value.unwrap())
        &&& cell.listens()
    }

    /// Every compute cell is consistent with the rest.
    pub open spec fn wf(self) -> bool {
        forall|c: int| 0 <= c < self.computes.len() ==> self.cell_wf(c)
    }
}

impl<T: PartialEq, F: Fn(&[T]) -> T, C: FnMut(T)> ReactorView<T, F, C> {
    /// The value of the compute cell at position `c` in `after` is not equal
    /// to its value in `self`.
    pub open spec fn replaced(self, after: Self, c: int) -> bool {
        !self.computes[c].value.unwrap().eq_spec(&after.computes[c].value.unwrap())
    }

    /// The compute cells below position `n` that depend on `input` and whose
    /// value in `after` is not equal to their value in `self`, in order of
    /// position, each with its value in `after`.
    pub open spec fn changed_upto(self, after: Self, input: InputCellId, n: int) -> Seq<
        (ComputeCellId, T),
    >
        decreases n,
    {
        if n <= 0 {
            Seq::empty()
        } else {
            let c = n - 1;
            let rest = self.changed_upto(after, input, c);
            if self.affected(input, c) && self.replaced(after, c) {
                rest.push((ComputeCellId(c as usize), after.computes[c].value.unwrap()))
            } else {
                rest
            }
        }
    }

    /// Every compute cell that depends on `input` and whose value in `after`
    /// is not equal to its value in `self`, in order of position, each with
    /// its value in `after`.
    pub open spec fn changed(self, after: Self, input: InputCellId) -> Seq<(ComputeCellId, T)> {
        self.changed_upto(after, input, self.computes.len() as int)
    }

    /// `after` has the cells of `self`, with `value` in `input`; a compute
    /// cell keeps its identifier, dependencies, function and callbacks, and
    /// one that does not depend on `input` keeps its value and cache too.
    pub open spec fn updated(self, after: Self, input: InputCellId, value: T) -> bool {
        &&& after.inputs == self.inputs.update(input.0 as int, value)
        &&& after.computes.len() == self.computes.len()
        &&& forall|c: int|
            0 <= c < self.computes.len() ==> {
                let a = #[trigger] after.computes[c];
                let b = self.computes[c];
                &&& a.id == b.id
                &&& a.deps == b.deps
                &&& a.fun == b.fun
                &&& a.callbacks == b.callbacks
                &&& !self.affected(input, c) ==> a == b
            }
    }

    /// The state `cur` in the middle of a change of `input` to `value` that
    /// started from `self`: the compute cells below position `j` are done,
    /// the others are untouched.
    pub open spec fn updated_below(self, cur: Self, input: InputCellId, value: T, j: int) -> bool {
        &&& self.updated(cur, input, value)
        &&& forall|c: int| j <= c < self.computes.len() ==> #[trigger] cur.computes[c] == self.computes[c]
        &&& forall|c: int| 0 <= c < j && c < self.computes.len() ==> cur.cell_wf(c)
    }

    /// Below its own position a cell is reached exactly when it is affected.
    pub proof fn lemma_reached_settles(self, input: InputCellId, c: int, bound: int)
        requires
            0 <= c < self.computes.len(),
            c <= bound,
            self.cell_wf(c),
        ensures
            self.reached(input, c, bound) == self.affected(input, c),
    {
        let deps = self.computes[c].deps;
        if self.reached(input, c, bound) {
            let k = choose|k: int|
                0 <= k < deps.len() && match #[trigger] deps[k] {
                    CellId::Input(i) => i == input,
                    CellId::Compute(j) => j.0 < bound && self.affected(input, j.0 as int),
                };
            assert(self.precedes(deps[k], c));
            assert(self.reached(input, c, c));
        }
        if self.reached(input, c, c) {
            let k = choose|k: int|
                0 <= k < deps.len() && match #[trigger] deps[k] {
                    CellId::Input(i) => i == input,
                    CellId::Compute(j) => j.0 < c && self.affected(input, j.0 as int),
                };
            assert(self.reached(input, c, bound));
        }
    }

    /// With no compute cell taken into account, a cell is reached exactly
    /// when it reads the input itself.
    pub proof fn lemma_reached_first(self, input: InputCellId, c: int)
        ensures
            self.reached(input, c, 0) == self.computes[c].deps.contains(CellId::Input(input)),
    {
        let deps = self.computes[c].deps;
        if self.reached(input, c, 0) {
            let k = choose|k: int|
                0 <= k < deps.len() && match #[trigger] deps[k] {
                    CellId::Input(i) => i == input,
                    CellId::Compute(j) => j.0 < 0 && self.affected(input, j.0 as int),
                };
            assert(deps[k] == CellId::Input(input));
        }
        if deps.contains(CellId::Input(input)) {
            let k = choose|k: int| 0 <= k < deps.len() && deps[k] == CellId::Input(input);
            assert(match #[trigger] deps[k] {
                CellId::Input(i) => i == input,
                CellId::Compute(j) => j.0 < 0 && self.affected(input, j.0 as int),
            });
        }
    }

    /// Taking the compute cell at position `j` into account reaches, in
    /// addition, the cells that read it, if it is affected itself.
    pub proof fn lemma_reached_next(self, input: InputCellId, c: int, j: int)
        requires
            0 <= j < usize::MAX,
        ensures
            self.reached(input, c, j + 1) == (self.reached(input, c, j) || (self.affected(
                input,
                j,
            ) && self.computes[c].deps.contains(CellId::Compute(ComputeCellId(j as usize))))),
    {
        let deps = self.computes[c].deps;
        let cj = CellId::Compute(ComputeCellId(j as usize));
        if self.reached(input, c, j + 1) {
            let k = choose|k: int|
                0 <= k < deps.len() && match #[trigger] deps[k] {
                    CellId::Input(i) => i == input,
                    CellId::Compute(d) => d.0 < j + 1 && self.affected(input, d.0 as int),
                };
            match deps[k] {
                CellId::Input(i) => {
                    assert(self.reached(input, c, j));
                },
                CellId::Compute(d) => {
                    if d.0 < j {
                        assert(self.reached(input, c, j));
                    } else {
                        assert(deps[k] == cj);
                    }
                },
            }
        }
        if self.reached(input, c, j) {
            let k = choose|k: int|
                0 <= k < deps.len() && match #[trigger] deps[k] {
                    CellId::Input(i) => i == input,
                    CellId::Compute(d) => d.0 < j && self.affected(input, d.0 as int),
                };
            assert(self.reached(input, c, j + 1));
        }
        if self.affected(input, j) && deps.contains(cj) {
            let k = choose|k: int| 0 <= k < deps.len() && deps[k] == cj;
            assert(match #[trigger] deps[k] {
                CellId::Input(i) => i == input,
                CellId::Compute(d) => d.0 < j + 1 && self.affected(input, d.0 as int),
            });
        }
    }

    /// In the middle of a change, every dependency of the cell at position
    /// `j` exists and has a value, and the cell has seen the current value of
    /// each dependency that is neither `input` nor affected by it.
    pub proof fn lemma_caches_current(self, cur: Self, input: InputCellId, value: T, j: int)
        requires
            self.wf(),
            self.contains(CellId::Input(input)),
            0 <= j < self.computes.len(),
            self.updated_below(cur, input, value, j),
        ensures
            forall|k: int|
                0 <= k < self.computes[j].deps.len() ==> {
                    let d = #[trigger] self.computes[j].deps[k];
                    &&& cur.precedes(d, j)
                    &&& cur.value(d) is Some
                    &&& match d {
                        CellId::Input(i) => i != input,
                        CellId::Compute(c) => !self.affected(input, c.0 as int),
                    } ==> cur.value(d) == self.computes[j].cache[k]
                },
    {
        assert(self.cell_wf(j));
        assert forall|k: int| 0 <= k < self.computes[j].deps.len() implies {
            let d = #[trigger] self.computes[j].deps[k];
            &&& cur.precedes(d, j)
            &&& cur.value(d) is Some
            &&& match d {
                CellId::Input(i) => i != input,
                CellId::Compute(c) => !self.affected(input, c.0 as int),
            } ==> cur.value(d) == self.computes[j].cache[k]
        } by {
            let d = self.computes[j].deps[k];
            assert(self.precedes(d, j));
            assert(self.computes[j].cache[k] == self.value(d));
            match d {
                CellId::Input(i) => {},
                CellId::Compute(c) => {
                    assert(cur.cell_wf(c.0 as int));
                    assert(self.cell_wf(c.0 as int));
                },
            }
        }
    }

    /// Once the cell at position `j` is consistent with the cells before it,
    /// the change has gone one position further.
    pub proof fn lemma_cell_settled(self, cur: Self, done: Self, input: InputCellId, value: T, j: int)
        requires
            self.wf(),
            self.contains(CellId::Input(input)),
            0 <= j < self.computes.len(),
            self.updated_below(cur, input, value, j),
            done.inputs == cur.inputs,
            done.computes.len() == cur.computes.len(),
            forall|c: int|
                0 <= c < cur.computes.len() && c != j ==> (#[trigger] done.computes[c])
                    == cur.computes[c],
            done.computes[j].id == self.computes[j].id,
            done.computes[j].deps == self.computes[j].deps,
            done.computes[j].fun == self.computes[j].fun,
            done.computes[j].callbacks == self.computes[j].callbacks,
            done.computes[j].cache.len() == done.computes[j].deps.len(),
            forall|k: int|
                0 <= k < done.computes[j].deps.len() ==> (#[trigger] done.computes[j].cache[k])
                    == done.value(done.computes[j].deps[k]),
            done.computes[j].value is Some,
            done.computes[j].yields(done.computes[j].value.unwrap()),
            self.affected(input, j) || done.computes[j] == self.computes[j],
        ensures
            self.updated_below(done, input, value, j + 1),
    {
        assert(self.cell_wf(j));
        assert forall|c: int| 0 <= c < self.computes.len() implies {
            let a = #[trigger] done.computes[c];
            let b = self.computes[c];
            &&& a.id == b.id
            &&& a.deps == b.deps
            &&& a.fun == b.fun
            &&& a.callbacks == b.callbacks
            &&& !self.affected(input, c) ==> a == b
        } by {
            if c != j {
                assert(done.computes[c] == cur.computes[c]);
            }
        }
        assert forall|c: int| j + 1 <= c < self.computes.len() implies #[trigger] done.computes[c]
            == self.computes[c] by {
            assert(done.computes[c] == cur.computes[c]);
        }
        assert forall|c: int| 0 <= c < j + 1 && c < self.computes.len() implies done.cell_wf(c) by {
            if c < j {
                assert(cur.cell_wf(c));
                assert(done.computes[c] == cur.computes[c]);
                let cell = done.computes[c];
                assert forall|k: int| 0 <= k < cell.deps.len() implies (#[trigger] cell.cache[k])
                    == done.value(cell.deps[k]) by {
                    assert(cur.precedes(cell.deps[k], c));
                    match cell.deps[k] {
                        CellId::Input(i) => {},
                        CellId::Compute(d) => {
                            assert(done.computes[d.0 as int] == cur.computes[d.0 as int]);
                        },
                    }
                }
                assert forall|k: int| 0 <= k < cell.deps.len() implies done.precedes(
                    #[trigger] cell.deps[k],
                    c,
                ) by {
                    assert(cur.precedes(cell.deps[k], c));
                }
            } else {
                let cell = done.computes[j];
                assert forall|k: int| 0 <= k < cell.deps.len() implies done.precedes(
                    #[trigger] cell.deps[k],
                    j,
                ) by {
                    assert(self.precedes(self.computes[j].deps[k], j));
                    assert(done.inputs.len() == self.inputs.len());
                    assert(cell.deps[k] == self.computes[j].deps[k]);
                }
            }
        }
    }

    /// The changed cells below position `n` are the same for two later
    /// states that agree on the values below `n`.
    pub proof fn lemma_changed_upto_agrees(self, a: Self, b: Self, input: InputCellId, n: int)
        requires
            forall|c: int| 0 <= c < n ==> (#[trigger] a.computes[c]).value == b.computes[c].value,
        ensures
            self.changed_upto(a, input, n) == self.changed_upto(b, input, n),
        decreases n,
    {
        if n > 0 {
            self.lemma_changed_upto_agrees(a, b, input, n - 1);
            assert(a.computes[n - 1].value == b.computes[n - 1].value);
        }
    }
}

/// The call is one for the compute cell at position `c`.
pub open spec fn of_cell<T>(c: int) -> spec_fn(Notice<T>) -> bool {
    |notice: Notice<T>| notice.cell.0 == c
}

/// Where every call is for the cell at position `c`, the calls for that
/// cell are all of them.
pub proof fn lemma_all_of_cell<T>(calls: Seq<Notice<T>>, c: int)
    requires
        forall|p: int| 0 <= p < calls.len() ==> (#[trigger] calls[p]).cell.0 == c,
    ensures
        calls.filter(of_cell(c)) == calls,
    decreases calls.len(),
{
    reveal(Seq::filter);
    if calls.len() > 0 {
        lemma_all_of_cell(calls.drop_last(), c);
        assert(calls.drop_last().push(calls.last()) =~= calls);
    }
}

/// Where no call is for the cell at position `c`, there are no calls for
/// that cell.
pub proof fn lemma_none_of_cell<T>(calls: Seq<Notice<T>>, c: int)
    requires
        forall|p: int| 0 <= p < calls.len() ==> (#[trigger] calls[p]).cell.0 != c,
    ensures
        calls.filter(of_cell(c)) == Seq::<Notice<T>>::empty(),
    decreases calls.len(),
{
    reveal(Seq::filter);
    if calls.len() > 0 {
        lemma_none_of_cell(calls.drop_last(), c);
    }
}

/// One element more of a sequence holds what fewer hold, and that element.
pub proof fn lemma_take_next<A>(s: Seq<A>, k: int)
    requires
        0 <= k < s.len(),
    ensures
        forall|x: A| #[trigger] s.take(k + 1).contains(x) == (s.take(k).contains(x) || x == s[k]),
{
    let fewer = s.take(k);
    let more = s.take(k + 1);
    assert forall|x: A| #[trigger] more.contains(x) == (fewer.contains(x) || x == s[k]) by {
        if fewer.contains(x) {
            let i = choose|i: int| 0 <= i < fewer.len() && fewer[i] == x;
            assert(more[i] == x);
        }
        if x == s[k] {
            assert(more[k] == x);
        }
        if more.contains(x) {
            let i = choose|i: int| 0 <= i < more.len() && more[i] == x;
            if i < k {
                assert(fewer[i] == x);
            }
        }
    }
}

} // verus!
