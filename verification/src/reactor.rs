//! The reactor: the store of cells, and the propagation of a changed input
//! through the compute cells that depend on it.

use vstd::prelude::*;
use vstd::std_specs::cmp::PartialEqSpec;
use crate::cell::{
    CallbackId, CellId, ComputeCell, ComputeCellId, ComputeCellView, InputCell, InputCellId,
    Notice, RemoveCallbackError,
};
use crate::index::DependencyIndex;
use crate::laws::{law_cell_notices, law_marks_sound};
use crate::model::{
    lemma_all_of_cell, lemma_none_of_cell, lemma_take_next, of_cell, ReactorView,
};

verus! {

/// The dependency `d` has a new value to offer: it is `input` itself, or a
/// compute cell whose flag is set.
pub open spec fn stale(input: InputCellId, flags: Seq<bool>, d: CellId) -> bool {
    match d {
        CellId::Input(i) => i == input,
        CellId::Compute(c) => c.0 < flags.len() && flags[c.0 as int],
    }
}

/// A store of input cells and of compute cells derived from them.
pub struct Reactor<T, F, C> {
    ic: Vec<InputCell<T>>,
    cc: Vec<ComputeCell<T, F, C>>,
    inv_deps: DependencyIndex,
    /// Every call of a callback that the cells of this reactor have
    /// recorded, in order.
    fired: Ghost<Seq<Notice<T>>>,
}

impl<T, F, C> View for Reactor<T, F, C> {
    type V = ReactorView<T, F, C>;

    closed spec fn view(&self) -> ReactorView<T, F, C> {
        ReactorView {
            inputs: Seq::new(self.ic@.len(), |i: int| self.ic@[i].val),
            computes: Seq::new(self.cc@.len(), |c: int| self.cc@[c]@),
        }
    }
}

impl<T: Copy + PartialEq, F: Fn(&[T]) -> T, C: FnMut(T)> Reactor<T, F, C> {
    /// The dependency index lists, for every cell, exactly the compute cells
    /// that read it, each once; every input cell carries its own identifier;
    /// and the calls that each compute cell has recorded are the calls that
    /// the reactor has recorded for that cell.
    pub closed spec fn indexed(&self) -> bool {
        &&& forall|p: int|
            0 <= p < self.fired@.len() ==> (#[trigger] self.fired@[p]).cell.0 < self.cc@.len()
        &&& forall|c: int|
            0 <= c < self.cc@.len() ==> (#[trigger] self.cc@[c]).called() == self.fired@.filter(
                of_cell(c),
            )
        &&& self.inv_deps@.inputs.len() == self.ic@.len()
        &&& self.inv_deps@.computes.len() == self.cc@.len()
        &&& forall|i: int| 0 <= i < self.ic@.len() ==> (#[trigger] self.ic@[i]).id.0 == i
        &&& forall|id: CellId| #[trigger]
            self@.contains(id) ==> {
                &&& self.inv_deps@.dependents(id).no_duplicates()
                &&& self.inv_deps@.dependents(id).to_set() == self@.dependents(id)
            }
    }

    /// The calls of callbacks that the reactor has made since it was
    /// created, in the order in which it made them. It is made of the
    /// entries that each cell records right after each of its calls.
    pub closed spec fn fired(&self) -> Seq<Notice<T>> {
        self.fired@
    }

    /// The reactor is well formed.
    pub open spec fn wf(&self) -> bool {
        self.indexed() && self@.wf()
    }

    /// In a well-formed reactor the cells are numbered by their positions.
    pub proof fn lemma_numbered(&self)
        requires
            self.wf(),
        ensures
            self@.numbered(),
    {
        assert forall|c: int| 0 <= c < self@.computes.len() implies (#[trigger] self@.computes[c]).id.0
            == c && self@.computes[c].callbacks.len() <= usize::MAX by {
            assert(self@.cell_wf(c));
            self.cc@[c].lemma_callbacks_fit();
        }
        assert(self.cc@.len() == self.cc.len());
    }

    /// A reactor without cells.
    pub fn new() -> (reactor: Self)
        ensures
            reactor.wf(),
            reactor@.inputs.len() == 0,
            reactor@.computes.len() == 0,
            reactor.fired() == Seq::<Notice<T>>::empty(),
    {
        Self {
            ic: Vec::new(),
            cc: Vec::new(),
            inv_deps: DependencyIndex::new(),
            fired: Ghost(Seq::empty()),
        }
    }

    /// Creates an input cell with the specified initial value and returns its identifier.
    pub fn create_input(&mut self, _initial: T) -> (id: InputCellId)
        requires
            old(self).wf(),
        ensures
            final(self).wf(),
            id.0 == old(self)@.inputs.len(),
            final(self)@.inputs == old(self)@.inputs.push(_initial),
            final(self)@.computes == old(self)@.computes,
            final(self)@.value(CellId::Input(id)) == Some(_initial),
            final(self).fired() == old(self).fired(),
    {
        let id = InputCellId(self.ic.len());
        self.ic.push(InputCell { id, val: _initial });
        self.inv_deps.add_input();
        proof {
            assert(self@.inputs =~= old(self)@.inputs.push(_initial));
            assert(self@.computes =~= old(self)@.computes);
            assert forall|c: int| 0 <= c < self@.computes.len() implies self@.cell_wf(c) by {
                assert(old(self)@.cell_wf(c));
            }
            assert forall|d: CellId| #[trigger] self@.contains(d) implies {
                &&& self.inv_deps@.dependents(d).no_duplicates()
                &&& self.inv_deps@.dependents(d).to_set() == self@.dependents(d)
            } by {
                if old(self)@.contains(d) {
                    assert(self.inv_deps@.dependents(d) == old(self).inv_deps@.dependents(d));
                    assert(self@.dependents(d) =~= old(self)@.dependents(d));
                } else {
                    assert(d == CellId::Input(id));
                    assert(self.inv_deps@.dependents(d) =~= Seq::empty());
                    assert forall|c: ComputeCellId| !self@.dependents(d).contains(c) by {
                        if c.0 < self@.computes.len() && self@.computes[c.0 as int].deps.contains(d) {
                            assert(old(self)@.cell_wf(c.0 as int));
                            let k = choose|k: int|
                                0 <= k < self@.computes[c.0 as int].deps.len()
                                    && self@.computes[c.0 as int].deps[k] == d;
                            assert(old(self)@.precedes(old(self)@.computes[c.0 as int].deps[k], c.0 as int));
                        }
                    }
                    assert(self.inv_deps@.dependents(d).to_set() =~= self@.dependents(d));
                }
            }
        }
        id
    }

    /// Creates a compute cell that applies `_compute_func` to the values of
    /// `_dependencies`, taken in that order, and returns its identifier. When a
    /// dependency does not exist, nothing is created and the first such
    /// dependency is returned.
    pub fn create_compute(&mut self, _dependencies: &[CellId], _compute_func: F) -> (r: Result<
        ComputeCellId,
        CellId,
    >)
        requires
            old(self).wf(),
            forall|s: &[T]|
                s@.len() == _dependencies@.len() ==> call_requires(_compute_func, (s,)),
        ensures
            final(self).wf(),
            final(self).fired() == old(self).fired(),
            match r {
                Ok(id) => {
                    &&& forall|k: int|
                        0 <= k < _dependencies@.len() ==> old(self)@.contains(_dependencies@[k])
                    &&& id.0 == old(self)@.computes.len()
                    &&& final(self)@.inputs == old(self)@.inputs
                    &&& final(self)@.computes.len() == old(self)@.computes.len() + 1
                    &&& final(self)@.computes.drop_last() == old(self)@.computes
                    &&& final(self)@.computes.last() == (ComputeCellView::<T, F, C> {
                        id,
                        value: final(self)@.value(CellId::Compute(id)),
                        deps: _dependencies@,
                        cache: Seq::new(
                            _dependencies@.len(),
                            |k: int| old(self)@.value(_dependencies@[k]),
                        ),
                        fun: _compute_func,
                        callbacks: Seq::empty(),
                    })
                    &&& final(self)@.value(CellId::Compute(id)) is Some
                },
                Err(missing) => {
                    &&& final(self)@ == old(self)@
                    &&& exists|m: int|
                        {
                            &&& 0 <= m < _dependencies@.len()
                            &&& missing == #[trigger] _dependencies@[m]
                            &&& !old(self)@.contains(missing)
                            &&& forall|k: int|
                                0 <= k < m ==> old(self)@.contains(_dependencies@[k])
                        }
                },
            },
    {
        let id = ComputeCellId(self.cc.len());
        let n = _dependencies.len();
        let mut cell_val: Vec<(CellId, Option<T>)> = Vec::new();
        let mut k: usize = 0;
        while k < n
            invariant
                k <= n,
                n == _dependencies@.len(),
                *self == *old(self),
                old(self).wf(),
                cell_val@.len() == k,
                forall|j: int| 0 <= j < k ==> self@.contains(_dependencies@[j]),
                forall|j: int|
                    0 <= j < k ==> (#[trigger] cell_val@[j]) == (
                        _dependencies@[j],
                        self@.value(_dependencies@[j]),
                    ),
            decreases n - k,
        {
            let dep = _dependencies[k];
            match self.value(dep) {
                Some(v) => cell_val.push((dep, Some(v))),
                None => {
                    proof {
                        assert(dep == _dependencies@[k as int]);
                        if let CellId::Compute(c) = dep {
                            if c.0 < self@.computes.len() {
                                assert(self@.cell_wf(c.0 as int));
                            }
                        }
                    }
                    return Err(dep);
                },
            }
            k += 1;
        }
        self.inv_deps.add_compute();
        let mut k: usize = 0;
        while k < n
            invariant
                k <= n,
                n == _dependencies@.len(),
                self.ic == old(self).ic,
                self.cc == old(self).cc,
                self.fired == old(self).fired,
                old(self).wf(),
                id.0 == self.cc@.len(),
                self.inv_deps@.inputs.len() == self.ic@.len(),
                self.inv_deps@.computes.len() == self.cc@.len() + 1,
                self.inv_deps@.dependents(CellId::Compute(id)) == Seq::<ComputeCellId>::empty(),
                forall|j: int| 0 <= j < n ==> old(self)@.contains(_dependencies@[j]),
                cell_val@.len() == n,
                forall|j: int|
                    0 <= j < n ==> (#[trigger] cell_val@[j]) == (
                        _dependencies@[j],
                        old(self)@.value(_dependencies@[j]),
                    ),
                forall|d: CellId| #[trigger]
                    old(self)@.contains(d) ==> self.inv_deps@.dependents(d) == if _dependencies@.take(
                        k as int,
                    ).contains(d) {
                        old(self).inv_deps@.dependents(d).push(id)
                    } else {
                        old(self).inv_deps@.dependents(d)
                    },
            decreases n - k,
        {
            let dep = _dependencies[k];
            let ghost before = self.inv_deps@;
            proof {
                assert(old(self)@.contains(dep));
                Self::lemma_new_dependent(old(self), dep, id);
            }
            self.inv_deps.insert(dep, id);
            proof {
                let seen = _dependencies@.take(k as int);
                let seen_next = _dependencies@.take(k as int + 1);
                assert(seen_next =~= seen.push(dep));
                assert forall|d: CellId| #[trigger] old(self)@.contains(d) implies self.inv_deps@.dependents(
                    d,
                ) == if seen_next.contains(d) {
                    old(self).inv_deps@.dependents(d).push(id)
                } else {
                    old(self).inv_deps@.dependents(d)
                } by {
                    let list = old(self).inv_deps@.dependents(d);
                    if d == dep {
                        assert(seen_next[k as int] == dep);
                        if seen.contains(dep) {
                            assert(list.push(id)[list.len() as int] == id);
                        }
                    } else {
                        assert(before.with_edge(dep, id).dependents(d) == before.dependents(d));
                        if seen_next.contains(d) {
                            let j = choose|j: int| 0 <= j < seen_next.len() && seen_next[j] == d;
                            assert(seen[j] == d);
                        }
                    }
                }
            }
            k += 1;
        }
        let mut cell = ComputeCell::new(id, cell_val, _compute_func);
        proof {
            assert(cell@.deps =~= _dependencies@);
            assert(cell@.cache =~= Seq::new(
                _dependencies@.len(),
                |k: int| old(self)@.value(_dependencies@[k]),
            ));
            assert forall|j: int| 0 <= j < cell@.cache.len() implies (#[trigger] cell@.cache[j]) is Some by {
                let d = _dependencies@[j];
                assert(old(self)@.contains(d));
                if let CellId::Compute(c) = d {
                    assert(old(self)@.cell_wf(c.0 as int));
                }
            }
        }
        cell.compute();
        self.cc.push(cell);
        proof {
            assert forall|c: int| 0 <= c < self.cc@.len() implies (#[trigger] self.cc@[c]).called()
                == self.fired@.filter(of_cell(c)) by {
                if c < old(self).cc@.len() {
                    assert(self.cc@[c] == old(self).cc@[c]);
                } else {
                    lemma_none_of_cell(self.fired@, c);
                }
            }
        }
        proof {
            let pre = old(self)@;
            let post = self@;
            assert(_dependencies@.take(n as int) =~= _dependencies@);
            assert(post.inputs =~= pre.inputs);
            assert(post.computes.drop_last() =~= pre.computes);
            assert forall|c: int| 0 <= c < post.computes.len() implies post.cell_wf(c) by {
                if c < pre.computes.len() {
                    assert(pre.cell_wf(c));
                    assert(post.computes[c] == pre.computes[c]);
                    assert forall|j: int| 0 <= j < post.computes[c].deps.len() implies (
                    #[trigger] post.computes[c].cache[j]) == post.value(post.computes[c].deps[j]) by {
                        assert(pre.precedes(pre.computes[c].deps[j], c));
                    }
                } else {
                    assert forall|j: int| 0 <= j < post.computes[c].deps.len() implies (
                    #[trigger] post.computes[c].cache[j]) == post.value(post.computes[c].deps[j]) by {
                        assert(pre.contains(_dependencies@[j]));
                    }
                    assert forall|j: int|
                        0 <= j < post.computes[c].deps.len() implies post.precedes(
                        #[trigger] post.computes[c].deps[j],
                        c,
                    ) by {
                        assert(pre.contains(_dependencies@[j]));
                    }
                }
            }
            assert forall|d: CellId| #[trigger] post.contains(d) implies {
                &&& self.inv_deps@.dependents(d).no_duplicates()
                &&& self.inv_deps@.dependents(d).to_set() == post.dependents(d)
            } by {
                if pre.contains(d) {
                    Self::lemma_new_dependent(old(self), d, id);
                    let list = old(self).inv_deps@.dependents(d);
                    assert forall|c: ComputeCellId| pre.dependents(d).contains(c) implies post.dependents(
                        d,
                    ).contains(c) by {
                        assert(post.computes[c.0 as int] == pre.computes[c.0 as int]);
                    }
                    assert forall|c: ComputeCellId|
                        post.dependents(d).contains(c) && c != id implies pre.dependents(d).contains(
                        c,
                    ) by {
                        assert(post.computes[c.0 as int] == pre.computes[c.0 as int]);
                    }
                    if _dependencies@.contains(d) {
                        assert(post.dependents(d).contains(id));
                        assert(list.push(id).to_set() =~= post.dependents(d)) by {
                            assert forall|c: ComputeCellId|
                                list.push(id).to_set().contains(c) == post.dependents(d).contains(
                                    c,
                                ) by {
                                if list.push(id).contains(c) {
                                    let j = choose|j: int|
                                        0 <= j < list.push(id).len() && list.push(id)[j] == c;
                                    if j < list.len() {
                                        assert(list.contains(c));
                                        assert(list.to_set().contains(c));
                                    }
                                }
                                if post.dependents(d).contains(c) {
                                    if c != id {
                                        assert(list.to_set().contains(c));
                                        let j = choose|j: int| 0 <= j < list.len() && list[j] == c;
                                        assert(list.push(id)[j] == c);
                                    } else {
                                        assert(list.push(id)[list.len() as int] == id);
                                    }
                                }
                            }
                        }
                        assert(list.push(id).no_duplicates());
                    } else {
                        assert(!post.dependents(d).contains(id));
                        assert(list.to_set() =~= post.dependents(d));
                    }
                } else {
                    assert(d == CellId::Compute(id));
                    assert forall|c: ComputeCellId| !post.dependents(d).contains(c) by {
                        if c.0 < post.computes.len() && post.computes[c.0 as int].deps.contains(d) {
                            let j = choose|j: int|
                                0 <= j < post.computes[c.0 as int].deps.len()
                                    && post.computes[c.0 as int].deps[j] == d;
                            assert(post.cell_wf(c.0 as int));
                            assert(post.precedes(post.computes[c.0 as int].deps[j], c.0 as int));
                        }
                    }
                    assert(self.inv_deps@.dependents(d).to_set() =~= post.dependents(d));
                }
            }
        }
        Ok(id)
    }

    /// A compute cell that does not exist yet is among the dependents of no cell.
    proof fn lemma_new_dependent(&self, d: CellId, id: ComputeCellId)
        requires
            self.wf(),
            self@.contains(d),
            id.0 >= self@.computes.len(),
        ensures
            !self.inv_deps@.dependents(d).contains(id),
    {
        if self.inv_deps@.dependents(d).contains(id) {
            assert(self.inv_deps@.dependents(d).to_set().contains(id));
            assert(self@.dependents(d).contains(id));
        }
    }

    /// The index stays exact when neither it nor any cell's identifier or
    /// dependencies change, and the records of calls still agree.
    proof fn lemma_indexed_with(before: &Self, after: &Self)
        requires
            before.indexed(),
            forall|p: int|
                0 <= p < after.fired@.len() ==> (#[trigger] after.fired@[p]).cell.0 < after.cc@.len(),
            forall|c: int|
                0 <= c < after.cc@.len() ==> (#[trigger] after.cc@[c]).called()
                    == after.fired@.filter(of_cell(c)),
            after.inv_deps == before.inv_deps,
            after.ic@.len() == before.ic@.len(),
            after.cc@.len() == before.cc@.len(),
            forall|i: int| 0 <= i < after.ic@.len() ==> (#[trigger] after.ic@[i]).id == before.ic@[i].id,
            forall|c: int|
                0 <= c < after.cc@.len() ==> (#[trigger] after@.computes[c]).deps
                    == before@.computes[c].deps,
        ensures
            after.indexed(),
    {
        assert forall|id: CellId| #[trigger] after@.contains(id) implies {
            &&& after.inv_deps@.dependents(id).no_duplicates()
            &&& after.inv_deps@.dependents(id).to_set() == after@.dependents(id)
        } by {
            assert(before@.contains(id));
            assert(after@.dependents(id) =~= before@.dependents(id));
        }
    }

    /// The index stays exact when neither it nor any cell's identifier,
    /// dependencies or record of calls change.
    proof fn lemma_indexed_stable(before: &Self, after: &Self)
        requires
            before.indexed(),
            after.fired@ == before.fired@,
            forall|c: int|
                0 <= c < after.cc@.len() ==> (#[trigger] after.cc@[c]).called()
                    == before.cc@[c].called(),
            after.inv_deps == before.inv_deps,
            after.ic@.len() == before.ic@.len(),
            after.cc@.len() == before.cc@.len(),
            forall|i: int| 0 <= i < after.ic@.len() ==> (#[trigger] after.ic@[i]).id == before.ic@[i].id,
            forall|c: int|
                0 <= c < after.cc@.len() ==> (#[trigger] after@.computes[c]).deps
                    == before@.computes[c].deps,
        ensures
            after.indexed(),
    {
        assert forall|c: int| 0 <= c < after.cc@.len() implies (#[trigger] after.cc@[c]).called()
            == after.fired@.filter(of_cell(c)) by {
            assert(before.cc@[c].called() == before.fired@.filter(of_cell(c)));
        }
        Self::lemma_indexed_with(before, after);
    }

    /// Sets the flag of every compute cell that reads `id` directly.
    fn flag_dependents(&self, id: CellId, flags: &mut Vec<bool>)
        requires
            self.indexed(),
            self@.contains(id),
            old(flags)@.len() == self@.computes.len(),
        ensures
            final(flags)@.len() == old(flags)@.len(),
            forall|c: int|
                0 <= c < old(flags)@.len() ==> (#[trigger] final(flags)@[c]) == (old(flags)@[c]
                    || self@.computes[c].deps.contains(id)),
    {
        let list = self.inv_deps.dependents_of(id);
        let mut m: usize = 0;
        while m < list.len()
            invariant
                m <= list.len(),
                list@.to_set() == self@.dependents(id),
                flags@.len() == old(flags)@.len(),
                flags@.len() == self@.computes.len(),
                forall|c: int|
                    0 <= c < flags@.len() ==> (#[trigger] flags@[c]) == (old(flags)@[c] || list@.take(
                        m as int,
                    ).contains(ComputeCellId(c as usize))),
            decreases list.len() - m,
        {
            let c = list[m];
            proof {
                assert(list@.contains(c));
                assert(list@.to_set().contains(c));
                assert(self@.dependents(id).contains(c));
                lemma_take_next(list@, m as int);
            }
            let ghost flags_before = flags@;
            flags[c.0] = true;
            proof {
                let seen = list@.take(m as int);
                let seen_next = list@.take(m as int + 1);
                assert forall|i: int| 0 <= i < flags@.len() implies (#[trigger] flags@[i]) == (old(
                    flags,
                )@[i] || seen_next.contains(ComputeCellId(i as usize))) by {
                    let x = ComputeCellId(i as usize);
                    assert(i < flags.len());
                    assert(x.0 == i);
                    assert(seen_next.contains(x) == (seen.contains(x) || x == c));
                    assert(flags_before[i] == (old(flags)@[i] || seen.contains(x)));
                    if i == c.0 {
                        assert(x == c);
                    } else {
                        assert(x != c);
                        assert(flags@[i] == flags_before[i]);
                    }
                }
            }
            m += 1;
        }
        proof {
            assert(list@.take(list@.len() as int) =~= list@);
            assert forall|c: int| 0 <= c < flags@.len() implies (#[trigger] flags@[c]) == (old(
                flags,
            )@[c] || self@.computes[c].deps.contains(id)) by {
                let x = ComputeCellId(c as usize);
                assert(c < flags.len());
                assert(x.0 as int == c);
                assert(list@.contains(x) == list@.to_set().contains(x));
                assert(self@.dependents(id).contains(x) == (x.0 < self@.computes.len()
                    && self@.computes[x.0 as int].deps.contains(id)));
            }
        }
    }

    /// Brings the cache of the compute cell at position `j` up to date with
    /// the current value of each dependency that is `input` or a flagged
    /// compute cell.
    fn refresh(&mut self, j: usize, input: InputCellId, flags: &Vec<bool>)
        requires
            old(self).indexed(),
            j < old(self)@.computes.len(),
            flags@.len() == old(self)@.computes.len(),
            old(self)@.computes[j as int].cache.len() == old(self)@.computes[j as int].deps.len(),
            forall|k: int|
                0 <= k < old(self)@.computes[j as int].deps.len() ==> old(self)@.precedes(
                    #[trigger] old(self)@.computes[j as int].deps[k],
                    j as int,
                ),
            forall|k: int|
                0 <= k < old(self)@.computes[j as int].deps.len() ==> old(self)@.value(
                    #[trigger] old(self)@.computes[j as int].deps[k],
                ) is Some,
        ensures
            final(self).indexed(),
            final(self).fired() == old(self).fired(),
            final(self)@.inputs == old(self)@.inputs,
            final(self)@.computes.len() == old(self)@.computes.len(),
            forall|c: int|
                0 <= c < old(self)@.computes.len() && c != j ==> (#[trigger] final(self)@.computes[c])
                    == old(self)@.computes[c],
            final(self)@.computes[j as int] == (ComputeCellView {
                cache: final(self)@.computes[j as int].cache,
                ..old(self)@.computes[j as int]
            }),
            final(self)@.computes[j as int].cache.len() == old(self)@.computes[j as int].cache.len(),
            forall|k: int|
                0 <= k < old(self)@.computes[j as int].deps.len() ==> (
                #[trigger] final(self)@.computes[j as int].cache[k]) == if stale(
                    input,
                    flags@,
                    old(self)@.computes[j as int].deps[k],
                ) {
                    old(self)@.value(old(self)@.computes[j as int].deps[k])
                } else {
                    old(self)@.computes[j as int].cache[k]
                },
    {
        let m = self.cc[j].dep_count();
        let ghost start = old(self)@.computes[j as int];
        let mut k: usize = 0;
        while k < m
            invariant
                k <= m,
                m == start.deps.len(),
                j < self.cc@.len(),
                self.cc@.len() == old(self).cc@.len(),
                self.ic == old(self).ic,
                self.inv_deps == old(self).inv_deps,
                self.fired == old(self).fired,
                old(self).indexed(),
                flags@.len() == self@.computes.len(),
                start == old(self)@.computes[j as int],
                start.cache.len() == start.deps.len(),
                forall|p: int| 0 <= p < start.deps.len() ==> old(self)@.precedes(#[trigger] start.deps[p], j as int),
                forall|p: int| 0 <= p < start.deps.len() ==> old(self)@.value(#[trigger] start.deps[p]) is Some,
                forall|c: int|
                    0 <= c < self.cc@.len() && c != j ==> (#[trigger] self.cc@[c]) == old(self).cc@[c],
                self.cc@[j as int].called() == old(self).cc@[j as int].called(),
                self@.computes[j as int] == (ComputeCellView {
                    cache: self@.computes[j as int].cache,
                    ..start
                }),
                self@.computes[j as int].cache.len() == start.cache.len(),
                forall|p: int|
                    0 <= p < start.deps.len() ==> (#[trigger] self@.computes[j as int].cache[p]) == if stale(
                        input,
                        flags@,
                        start.deps[p],
                    ) && start.deps.take(k as int).contains(start.deps[p]) {
                        old(self)@.value(start.deps[p])
                    } else {
                        start.cache[p]
                    },
            decreases m - k,
        {
            let d = self.cc[j].dep(k);
            assert(old(self)@.precedes(start.deps[k as int], j as int));
            let is_stale = match d {
                CellId::Input(i) => i == input,
                CellId::Compute(c) => flags[c.0],
            };
            proof {
                lemma_take_next(start.deps, k as int);
            }
            let ghost cache_before = self@.computes[j as int].cache;
            if is_stale {
                let current = self.value(d);
                proof {
                    assert(old(self)@.value(start.deps[k as int]) is Some);
                    match d {
                        CellId::Input(i) => {
                            assert(self@.inputs =~= old(self)@.inputs);
                        },
                        CellId::Compute(c) => {
                            assert(self.cc@[c.0 as int] == old(self).cc@[c.0 as int]);
                        },
                    }
                    assert(current == old(self)@.value(d));
                }
                self.cc[j].update_dep(d, current.unwrap());
            }
            proof {
                let seen = start.deps.take(k as int);
                let seen_next = start.deps.take(k as int + 1);
                let cache = self@.computes[j as int].cache;
                assert(stale(input, flags@, d) == is_stale);
                assert forall|p: int| 0 <= p < start.deps.len() implies (#[trigger] cache[p]) == if stale(
                    input,
                    flags@,
                    start.deps[p],
                ) && seen_next.contains(start.deps[p]) {
                    old(self)@.value(start.deps[p])
                } else {
                    start.cache[p]
                } by {
                    let x = start.deps[p];
                    assert(seen_next.contains(x) == (seen.contains(x) || x == d));
                    assert(cache_before[p] == if stale(input, flags@, x) && seen.contains(x) {
                        old(self)@.value(x)
                    } else {
                        start.cache[p]
                    });
                }
            }
            k += 1;
        }
        proof {
            assert(start.deps.take(m as int) =~= start.deps);
            assert(self@.inputs =~= old(self)@.inputs);
            Self::lemma_indexed_stable(old(self), self);
        }
    }

    /// Stores `new_value` in the input cell `id` and recomputes, once each and
    /// in order of creation, the compute cells that depend on it. Returns the
    /// cells whose value changed, each with its new value.
    pub fn propagate(&mut self, id: InputCellId, new_value: T) -> (marks: Vec<(ComputeCellId, T)>)
        requires
            old(self).wf(),
            old(self)@.contains(CellId::Input(id)),
        ensures
            final(self).wf(),
            final(self).fired() == old(self).fired(),
            old(self)@.updated(final(self)@, id, new_value),
            T::obeys_eq_spec() ==> marks@ == old(self)@.changed(final(self)@, id),
    {
        let ghost pre = old(self)@;
        self.ic[id.0].val = new_value;
        let n = self.cc.len();
        proof {
            assert(self@.inputs =~= pre.inputs.update(id.0 as int, new_value));
            assert(self@.computes =~= pre.computes);
            Self::lemma_indexed_stable(old(self), self);
        }
        let mut flags: Vec<bool> = Vec::new();
        while flags.len() < n
            invariant
                flags@.len() <= n,
                forall|c: int| 0 <= c < flags@.len() ==> !(#[trigger] flags@[c]),
            decreases n - flags.len(),
        {
            flags.push(false);
        }
        self.flag_dependents(CellId::Input(id), &mut flags);
        let mut marks: Vec<(ComputeCellId, T)> = Vec::new();
        let mut j: usize = 0;
        proof {
            assert forall|c: int| 0 <= c < n implies (#[trigger] flags@[c]) == pre.reached(id, c, 0) by {
                pre.lemma_reached_first(id, c);
            }
        }
        while j < n
            invariant
                j <= n,
                n == pre.computes.len(),
                n == self.cc@.len(),
                flags@.len() == n,
                pre.wf(),
                pre.contains(CellId::Input(id)),
                self.indexed(),
                self.fired() == old(self).fired(),
                pre.updated_below(self@, id, new_value, j as int),
                forall|c: int| 0 <= c < n ==> (#[trigger] flags@[c]) == pre.reached(id, c, j as int),
                T::obeys_eq_spec() ==> marks@ == pre.changed_upto(self@, id, j as int),
            decreases n - j,
        {
            let ghost cur = self@;
            let ghost flags_before = flags@;
            proof {
                assert(pre.cell_wf(j as int));
                assert(cur.computes[j as int] == pre.computes[j as int]);
                pre.lemma_reached_settles(id, j as int, j as int);
                pre.lemma_caches_current(cur, id, new_value, j as int);
                assert forall|k: int| 0 <= k < pre.computes[j as int].deps.len() implies match (
                #[trigger] pre.computes[j as int].deps[k]) {
                    CellId::Input(i) => true,
                    CellId::Compute(c) => flags@[c.0 as int] == pre.affected(id, c.0 as int),
                } by {
                    if let CellId::Compute(c) = pre.computes[j as int].deps[k] {
                        assert(pre.precedes(pre.computes[j as int].deps[k], j as int));
                        assert(pre.cell_wf(c.0 as int));
                        pre.lemma_reached_settles(id, c.0 as int, j as int);
                    }
                }
            }
            if flags[j] {
                self.refresh(j, id, &flags);
                let ghost mid = self@;
                let ghost refreshed = *self;
                proof {
                    assert forall|k: int| 0 <= k < mid.computes[j as int].cache.len() implies (
                    #[trigger] mid.computes[j as int].cache[k]) == cur.value(
                        pre.computes[j as int].deps[k],
                    ) by {
                        let d = pre.computes[j as int].deps[k];
                        assert(cur.precedes(d, j as int));
                    }
                }
                let changed = self.cc[j].compute();
                let value = self.cc[j].value();
                let ghost done = self@;
                proof {
                    assert(done.inputs =~= cur.inputs);
                    assert forall|c: int| 0 <= c < n && c != j implies (#[trigger] done.computes[c])
                        == cur.computes[c] by {
                        assert(done.computes[c] == mid.computes[c]);
                    }
                    assert(done.computes[j as int].cache =~= mid.computes[j as int].cache);
                    assert(done.computes[j as int].args() =~= mid.computes[j as int].args());
                    assert forall|k: int| 0 <= k < done.computes[j as int].deps.len() implies (
                    #[trigger] done.computes[j as int].cache[k]) == done.value(
                        done.computes[j as int].deps[k],
                    ) by {
                        let d = pre.computes[j as int].deps[k];
                        assert(cur.precedes(d, j as int));
                        if let CellId::Compute(c) = d {
                            assert(done.computes[c.0 as int] == cur.computes[c.0 as int]);
                        }
                    }
                    pre.lemma_cell_settled(cur, done, id, new_value, j as int);
                    Self::lemma_indexed_stable(&refreshed, self);
                    pre.lemma_changed_upto_agrees(cur, done, id, j as int);
                }
                if changed {
                    marks.push((ComputeCellId(j), value.unwrap()));
                }
                self.flag_dependents(CellId::Compute(ComputeCellId(j)), &mut flags);
                proof {
                    assert forall|c: int| 0 <= c < n implies (#[trigger] flags@[c]) == pre.reached(
                        id,
                        c,
                        j as int + 1,
                    ) by {
                        pre.lemma_reached_next(id, c, j as int);
                        assert(flags_before[c] == pre.reached(id, c, j as int));
                        assert(done.computes[c].deps == pre.computes[c].deps);
                    }
                }
            } else {
                proof {
                    assert forall|k: int| 0 <= k < cur.computes[j as int].deps.len() implies (
                    #[trigger] cur.computes[j as int].cache[k]) == cur.value(
                        cur.computes[j as int].deps[k],
                    ) by {
                        let d = pre.computes[j as int].deps[k];
                        assert(cur.precedes(d, j as int));
                    }
                    pre.lemma_cell_settled(cur, cur, id, new_value, j as int);
                    assert forall|c: int| 0 <= c < n implies (#[trigger] flags@[c]) == pre.reached(
                        id,
                        c,
                        j as int + 1,
                    ) by {
                        pre.lemma_reached_next(id, c, j as int);
                    }
                }
            }
            j += 1;
        }
        marks
    }

    /// Calls, for each listed cell in turn, every callback registered on it
    /// once with the listed value, in the order in which the callbacks were
    /// added. An entry that names no cell of this reactor is passed over.
    pub fn notify(&mut self, marks: &Vec<(ComputeCellId, T)>)
        requires
            old(self).wf(),
        ensures
            final(self).wf(),
            final(self)@ == old(self)@,
            final(self).fired() == old(self).fired() + old(self)@.notices(marks@),
            forall|i: int|
                0 <= i < marks@.len() && (#[trigger] marks@[i]).0.0 < old(self)@.computes.len()
                    ==> old(self)@.computes[marks@[i].0.0 as int].told(marks@[i].1),
    {
        let mut m: usize = 0;
        while m < marks.len()
            invariant
                m <= marks.len(),
                self.wf(),
                self@ == old(self)@,
                self.fired() == old(self).fired() + old(self)@.notices_upto(marks@, m as int),
                forall|i: int|
                    0 <= i < m && (#[trigger] marks@[i]).0.0 < old(self)@.computes.len() ==> old(
                        self,
                    )@.computes[marks@[i].0.0 as int].told(marks@[i].1),
            decreases marks.len() - m,
        {
            let (cell, value) = marks[m];
            if cell.0 < self.cc.len() {
                let ghost before = *self;
                proof {
                    assert(self@.cell_wf(cell.0 as int));
                }
                self.cc[cell.0].notify(value);
                let ghost made = self.cc@[cell.0 as int].called().skip(
                    before.cc@[cell.0 as int].called().len() as int,
                );
                self.fired = Ghost(self.fired@ + made);
                proof {
                    let c = cell.0 as int;
                    let added = before@.computes[c].notices(value);
                    assert(made =~= added);
                    assert(self@.inputs =~= before@.inputs);
                    assert(self@.computes =~= before@.computes);
                    before.cc@[c].lemma_callbacks_fit();
                    law_cell_notices(
                        before@.computes[c],
                        value,
                        before@.computes[c].callbacks.len() as int,
                    );
                    assert forall|x: int| 0 <= x < self.cc@.len() implies (#[trigger] self.cc@[x]).called()
                        == self.fired@.filter(of_cell(x)) by {
                        Seq::filter_distributes_over_add(before.fired@, added, of_cell(x));
                        if x == c {
                            lemma_all_of_cell(added, x);
                        } else {
                            lemma_none_of_cell(added, x);
                            assert(self.cc@[x] == before.cc@[x]);
                            assert(before.fired@.filter(of_cell(x)) + Seq::<Notice<T>>::empty()
                                =~= before.fired@.filter(of_cell(x)));
                        }
                    }
                    assert forall|p: int| 0 <= p < self.fired@.len() implies (#[trigger] self.fired@[p]).cell.0
                        < self.cc@.len() by {
                        if p >= before.fired@.len() {
                            assert(self.fired@[p] == added[p - before.fired@.len()]);
                        } else {
                            assert(self.fired@[p] == before.fired@[p]);
                        }
                    }
                    Self::lemma_indexed_with(&before, self);
                }
            }
            proof {
                let pre = old(self)@;
                assert(self.fired() =~= old(self).fired() + pre.notices_upto(marks@, m as int + 1));
            }
            m += 1;
        }
    }

    /// Sets the value of the input cell `_id`, recomputes the compute cells
    /// that depend on it, and calls the callbacks of those whose value
    /// changed. Returns `false`, and changes nothing, if the cell does not exist.
    pub fn set_value(&mut self, _id: InputCellId, _new_value: T) -> (ok: bool)
        requires
            old(self).wf(),
        ensures
            final(self).wf(),
            ok == old(self)@.contains(CellId::Input(_id)),
            ok ==> old(self)@.updated(final(self)@, _id, _new_value),
            ok && T::obeys_eq_spec() ==> final(self).fired() == old(self).fired()
                + final(self)@.notices(old(self)@.changed(final(self)@, _id)),
            ok && T::obeys_eq_spec() ==> forall|i: int|
                0 <= i < old(self)@.changed(final(self)@, _id).len() ==> final(self)@.computes[(
                #[trigger] old(self)@.changed(final(self)@, _id)[i]).0.0 as int].told(
                    old(self)@.changed(final(self)@, _id)[i].1,
                ),
            !ok ==> final(self)@ == old(self)@ && final(self).fired() == old(self).fired(),
    {
        if _id.0 >= self.ic.len() {
            return false;
        }
        let marks = self.propagate(_id, _new_value);
        proof {
            old(self).lemma_numbered();
            law_marks_sound(old(self)@, self@, _id, old(self)@.computes.len() as int);
        }
        self.notify(&marks);
        true
    }

    /// Adds a callback to the compute cell `_id` and returns the identifier
    /// under which it can be removed, or `None` if the cell does not exist.
    pub fn add_callback(&mut self, _id: ComputeCellId, _callback: C) -> (r: Option<CallbackId>)
        requires
            old(self).wf(),
            forall|v: T| call_requires(_callback, (v,)),
        ensures
            final(self).wf(),
            final(self).fired() == old(self).fired(),
            match r {
                Some(callback) => {
                    &&& old(self)@.contains(CellId::Compute(_id))
                    &&& callback.0 == old(self)@.computes[_id.0 as int].callbacks.len()
                    &&& final(self)@ == (ReactorView {
                        computes: old(self)@.computes.update(
                            _id.0 as int,
                            ComputeCellView {
                                callbacks: old(self)@.computes[_id.0 as int].callbacks.push(
                                    Some(_callback),
                                ),
                                ..old(self)@.computes[_id.0 as int]
                            },
                        ),
                        ..old(self)@
                    })
                },
                None => !old(self)@.contains(CellId::Compute(_id)) && final(self)@ == old(self)@,
            },
    {
        if _id.0 >= self.cc.len() {
            return None;
        }
        let ghost pre = self@;
        let callback = self.cc[_id.0].add_callback(_callback);
        proof {
            let post = self@;
            assert(post.inputs =~= pre.inputs);
            assert(post.computes =~= pre.computes.update(
                _id.0 as int,
                ComputeCellView {
                    callbacks: pre.computes[_id.0 as int].callbacks.push(Some(_callback)),
                    ..pre.computes[_id.0 as int]
                },
            ));
            Self::lemma_indexed_stable(old(self), self);
            assert forall|c: int| 0 <= c < pre.computes.len() implies (#[trigger] post.computes[c])
                == (ComputeCellView { callbacks: post.computes[c].callbacks, ..pre.computes[c] })
                && post.computes[c].listens() by {
                assert(pre.cell_wf(c));
            }
            Self::lemma_callbacks_only(pre, post);
        }
        Some(callback)
    }

    /// Removes the callback `callback` from the compute cell `cell`, so that
    /// it is not called again.
    pub fn remove_callback(&mut self, cell: ComputeCellId, callback: CallbackId) -> (r: Result<
        (),
        RemoveCallbackError,
    >)
        requires
            old(self).wf(),
        ensures
            final(self).wf(),
            final(self).fired() == old(self).fired(),
            match r {
                Ok(_) => {
                    &&& old(self)@.contains(CellId::Compute(cell))
                    &&& old(self)@.computes[cell.0 as int].has_callback(callback)
                    &&& final(self)@ == (ReactorView {
                        computes: old(self)@.computes.update(
                            cell.0 as int,
                            ComputeCellView {
                                callbacks: old(self)@.computes[cell.0 as int].callbacks.update(
                                    callback.0 as int,
                                    None,
                                ),
                                ..old(self)@.computes[cell.0 as int]
                            },
                        ),
                        ..old(self)@
                    })
                },
                Err(RemoveCallbackError::NonexistentCell) => {
                    &&& !old(self)@.contains(CellId::Compute(cell))
                    &&& final(self)@ == old(self)@
                },
                Err(RemoveCallbackError::NonexistentCallback) => {
                    &&& old(self)@.contains(CellId::Compute(cell))
                    &&& !old(self)@.computes[cell.0 as int].has_callback(callback)
                    &&& final(self)@ == old(self)@
                },
            },
    {
        if cell.0 >= self.cc.len() {
            return Err(RemoveCallbackError::NonexistentCell);
        }
        let ghost pre = self@;
        let removed = self.cc[cell.0].remove_callback(callback);
        proof {
            let post = self@;
            assert(post.inputs =~= pre.inputs);
            Self::lemma_indexed_stable(old(self), self);
            if removed {
                assert(post.computes =~= pre.computes.update(
                    cell.0 as int,
                    ComputeCellView {
                        callbacks: pre.computes[cell.0 as int].callbacks.update(
                            callback.0 as int,
                            None,
                        ),
                        ..pre.computes[cell.0 as int]
                    },
                ));
            } else {
                assert(post.computes =~= pre.computes);
            }
            assert forall|c: int| 0 <= c < pre.computes.len() implies (#[trigger] post.computes[c])
                == (ComputeCellView { callbacks: post.computes[c].callbacks, ..pre.computes[c] })
                && post.computes[c].listens() by {
                assert(pre.cell_wf(c));
            }
            Self::lemma_callbacks_only(pre, post);
        }
        if removed {
            Ok(())
        } else {
            Err(RemoveCallbackError::NonexistentCallback)
        }
    }

    /// The compute cells that read `id` directly, each once, in order of
    /// creation; none for a cell that does not exist.
    pub fn dependents_of(&self, id: CellId) -> (list: Vec<ComputeCellId>)
        requires
            self.wf(),
        ensures
            list@.no_duplicates(),
            list@.to_set() == self@.dependents(id),
    {
        let mut list: Vec<ComputeCellId> = Vec::new();
        let known = match id {
            CellId::Input(i) => i.0 < self.ic.len(),
            CellId::Compute(c) => c.0 < self.cc.len(),
        };
        if known {
            let stored = self.inv_deps.dependents_of(id);
            assert(self@.contains(id));
            let mut m: usize = 0;
            while m < stored.len()
                invariant
                    m <= stored.len(),
                    stored@.no_duplicates(),
                    stored@.to_set() == self@.dependents(id),
                    list@ == stored@.take(m as int),
                decreases stored.len() - m,
            {
                list.push(stored[m]);
                assert(stored@.take(m as int + 1) =~= stored@.take(m as int).push(stored@[m as int]));
                m += 1;
            }
            assert(stored@.take(stored@.len() as int) =~= stored@);
        } else {
            proof {
                assert forall|c: ComputeCellId| !self@.dependents(id).contains(c) by {
                    if c.0 < self@.computes.len() && self@.computes[c.0 as int].deps.contains(id) {
                        let k = choose|k: int|
                            0 <= k < self@.computes[c.0 as int].deps.len()
                                && self@.computes[c.0 as int].deps[k] == id;
                        assert(self@.cell_wf(c.0 as int));
                        assert(self@.precedes(self@.computes[c.0 as int].deps[k], c.0 as int));
                    }
                }
                assert(list@.to_set() =~= self@.dependents(id));
            }
        }
        list
    }

    /// A state that differs from a well-formed one only in the callbacks of
    /// its compute cells, all of which can be called, is well formed.
    proof fn lemma_callbacks_only(pre: ReactorView<T, F, C>, post: ReactorView<T, F, C>)
        requires
            pre.wf(),
            post.inputs == pre.inputs,
            post.computes.len() == pre.computes.len(),
            forall|c: int|
                0 <= c < pre.computes.len() ==> (#[trigger] post.computes[c]) == (ComputeCellView {
                    callbacks: post.computes[c].callbacks,
                    ..pre.computes[c]
                }) && post.computes[c].listens(),
        ensures
            post.wf(),
    {
        assert forall|c: int| 0 <= c < post.computes.len() implies post.cell_wf(c) by {
            assert(pre.cell_wf(c));
            let cell = post.computes[c];
            assert(cell.args() =~= pre.computes[c].args());
            assert forall|k: int| 0 <= k < cell.deps.len() implies (#[trigger] cell.cache[k])
                == post.value(cell.deps[k]) by {
                assert(pre.precedes(cell.deps[k], c));
                if let CellId::Compute(d) = cell.deps[k] {
                    assert(post.computes[d.0 as int].value == pre.computes[d.0 as int].value);
                }
            }
            assert forall|k: int| 0 <= k < cell.deps.len() implies post.precedes(
                #[trigger] cell.deps[k],
                c,
            ) by {
                assert(pre.precedes(cell.deps[k], c));
            }
        }
    }

    /// The current value of the cell, or `None` if the cell does not exist.
    pub fn value(&self, id: CellId) -> (v: Option<T>)
        ensures
            v == self@.value(id),
    {
        match id {
            CellId::Input(iid) => {
                if iid.0 < self.ic.len() {
                    Some(self.ic[iid.0].val)
                } else {
                    None
                }
            },
            CellId::Compute(cid) => {
                if cid.0 < self.cc.len() {
                    self.cc[cid.0].value()
                } else {
                    None
                }
            },
        }
    }
}

} // verus!
