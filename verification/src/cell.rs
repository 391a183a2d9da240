//! Cell identifiers and the records that the reactor stores for each cell.

use vstd::prelude::*;
use vstd::std_specs::cmp::PartialEqSpec;

verus! {

/// Identifies an input cell by its position among the inputs of one reactor.
#[derive(Clone, Copy, Debug, PartialEq, Eq, Hash, Structural)]
pub struct InputCellId(pub usize);

/// Identifies a compute cell by its position among the compute cells of one reactor.
#[derive(Clone, Copy, Debug, PartialEq, Eq, Hash, Structural)]
pub struct ComputeCellId(pub usize);

/// Identifies a callback by its position among the callbacks ever added to one compute cell.
#[derive(Clone, Copy, Debug, PartialEq, Eq, Hash, Structural)]
pub struct CallbackId(pub usize);

/// Either kind of cell.
#[derive(Clone, Copy, Debug, PartialEq, Eq, Hash, Structural)]
pub enum CellId {
    Input(InputCellId),
    Compute(ComputeCellId),
}

/// Why a callback could not be removed.
#[derive(Debug, PartialEq, Eq, Structural)]
pub enum RemoveCallbackError {
    NonexistentCell,
    NonexistentCallback,
}

/// An input cell: an identifier and the value last given to it.
pub struct InputCell<T> {
    pub id: InputCellId,
    pub val: T,
}

/// A compute cell: a function, the cells it reads, the value last seen of each,
/// the value last computed, and the callbacks that watch it.
pub struct ComputeCell<T, F, C> {
    id: ComputeCellId,
    val: Option<T>,
    deps: Vec<(CellId, Option<T>)>,
    fun: F,
    callbacks: Vec<Option<C>>,
    /// Every call of a callback that this cell has made, in order.
    called: Ghost<Seq<Notice<T>>>,
}

/// What a compute cell holds, as mathematical values.
pub struct ComputeCellView<T, F, C> {
    pub id: ComputeCellId,
    /// The value last computed, `None` before the first computation.
    pub value: Option<T>,
    /// The cells read, in the order in which the function takes them.
    pub deps: Seq<CellId>,
    /// The value last seen of each dependency, in the same order.
    pub cache: Seq<Option<T>>,
    pub fun: F,
    /// One slot for each callback ever added; a removed callback leaves `None`.
    pub callbacks: Seq<Option<C>>,
}

/// One call of a callback: the cell that changed, the callback that was
/// called, and the value that it was called with.
pub struct Notice<T> {
    pub cell: ComputeCellId,
    pub callback: CallbackId,
    pub value: T,
}

impl<T, F, C> ComputeCellView<T, F, C> {
    /// The calls that tell the first `n` callback slots of the cell about
    /// `value`: one for each slot that holds a callback, in order.
    pub open spec fn notices_upto(self, value: T, n: int) -> Seq<Notice<T>>
        decreases n,
    {
        if n <= 0 {
            Seq::empty()
        } else if self.callbacks[n - 1] is Some {
            self.notices_upto(value, n - 1).push(
                Notice { cell: self.id, callback: CallbackId((n - 1) as usize), value },
            )
        } else {
            self.notices_upto(value, n - 1)
        }
    }

    /// The calls that tell the callbacks of the cell about `value`: one for
    /// each registered callback, in the order in which they were added.
    pub open spec fn notices(self, value: T) -> Seq<Notice<T>> {
        self.notices_upto(value, self.callbacks.len() as int)
    }

    /// Every dependency has a cached value.
    pub open spec fn ready(self) -> bool {
        forall|k: int| 0 <= k < self.cache.len() ==> (#[trigger] self.cache[k]) is Some
    }

    /// The cached dependency values, in declared order.
    pub open spec fn args(self) -> Seq<T> {
        Seq::new(self.cache.len(), |k: int| self.cache[k].unwrap())
    }

    /// The callback `id` is registered.
    pub open spec fn has_callback(self, id: CallbackId) -> bool {
        id.0 < self.callbacks.len() && self.callbacks[id.0 as int] is Some
    }
}

impl<T, F: Fn(&[T]) -> T, C: FnMut(T)> ComputeCellView<T, F, C> {
    /// The function may be called on any list that has one value for each dependency.
    pub open spec fn accepts(self) -> bool {
        forall|s: &[T]| s@.len() == self.deps.len() ==> call_requires(self.fun, (s,))
    }

    /// The function may be called on the cached dependency values.
    pub open spec fn callable(self) -> bool {
        forall|s: &[T]| s@ == self.args() ==> call_requires(self.fun, (s,))
    }

    /// `v` is a result of the function on the cached dependency values.
    pub open spec fn yields(self, v: T) -> bool {
        forall|s: &[T]| s@ == self.args() ==> call_ensures(self.fun, (s,), v)
    }

    /// Every registered callback may be called on any value.
    pub open spec fn listens(self) -> bool {
        forall|k: int, v: T|
            0 <= k < self.callbacks.len() && self.callbacks[k] is Some ==> call_requires(
                self.callbacks[k].unwrap(),
                (v,),
            )
    }

    /// The callbacks in the first `n` slots have been told `value`: each of
    /// them was called on it and has returned.
    pub open spec fn told_upto(self, value: T, n: int) -> bool {
        forall|k: int|
            0 <= k < n && k < self.callbacks.len() && self.callbacks[k] is Some ==> call_ensures(
                #[trigger] self.callbacks[k].unwrap(),
                (value,),
                (),
            )
    }

    /// Every registered callback has been told `value`.
    pub open spec fn told(self, value: T) -> bool {
        self.told_upto(value, self.callbacks.len() as int)
    }
}

impl<T, F, C> View for ComputeCell<T, F, C> {
    type V = ComputeCellView<T, F, C>;

    closed spec fn view(&self) -> ComputeCellView<T, F, C> {
        ComputeCellView {
            id: self.id,
            value: self.val,
            deps: Seq::new(self.deps@.len(), |k: int| self.deps@[k].0),
            cache: Seq::new(self.deps@.len(), |k: int| self.deps@[k].1),
            fun: self.fun,
            callbacks: self.callbacks@,
        }
    }
}

/// The dependency identifiers of a list of (identifier, cached value) pairs.
pub open spec fn dep_ids<T>(deps: Seq<(CellId, Option<T>)>) -> Seq<CellId> {
    Seq::new(deps.len(), |k: int| deps[k].0)
}

/// The cached values of a list of (identifier, cached value) pairs.
pub open spec fn dep_cache<T>(deps: Seq<(CellId, Option<T>)>) -> Seq<Option<T>> {
    Seq::new(deps.len(), |k: int| deps[k].1)
}

impl<T: Copy + PartialEq, F: Fn(&[T]) -> T, C: FnMut(T)> ComputeCell<T, F, C> {
    /// The number of callback slots of a cell is a number of the machine.
    pub proof fn lemma_callbacks_fit(&self)
        ensures
            self@.callbacks.len() <= usize::MAX,
    {
        assert(self.callbacks@.len() == self.callbacks.len());
    }

    /// The calls of callbacks that the cell has made since it was created,
    /// in the order in which it made them. An entry is added right after
    /// each call.
    pub closed spec fn called(&self) -> Seq<Notice<T>> {
        self.called@
    }

    /// A cell that has not computed yet and has no callbacks.
    pub fn new(_id: ComputeCellId, _dependencies: Vec<(CellId, Option<T>)>, _compute_func: F) -> (cell: Self)
        ensures
            cell.called() == Seq::<Notice<T>>::empty(),
            cell@ == (ComputeCellView::<T, F, C> {
                id: _id,
                value: None,
                deps: dep_ids(_dependencies@),
                cache: dep_cache(_dependencies@),
                fun: _compute_func,
                callbacks: Seq::empty(),
            }),
    {
        let cell = Self {
            id: _id,
            val: None,
            deps: _dependencies,
            fun: _compute_func,
            callbacks: Vec::new(),
            called: Ghost(Seq::empty()),
        };
        assert(cell@.deps =~= dep_ids(_dependencies@));
        assert(cell@.cache =~= dep_cache(_dependencies@));
        cell
    }

    /// Applies the function to the cached dependency values and stores the
    /// result. Says whether a value computed earlier was replaced by a different one.
    pub fn compute(&mut self) -> (changed: bool)
        requires
            old(self)@.ready(),
            old(self)@.callable(),
        ensures
            final(self).called() == old(self).called(),
            final(self)@.value is Some,
            old(self)@.yields(final(self)@.value.unwrap()),
            final(self)@ == (ComputeCellView { value: final(self)@.value, ..old(self)@ }),
            old(self)@.value is None ==> !changed,
            T::obeys_eq_spec() && old(self)@.value is Some ==> changed == !old(
                self,
            )@.value.unwrap().eq_spec(&final(self)@.value.unwrap()),
    {
        let mut values: Vec<T> = Vec::new();
        let mut k: usize = 0;
        while k < self.deps.len()
            invariant
                k <= self.deps.len(),
                self@.ready(),
                self@.callable(),
                values@.len() == k,
                forall|j: int| 0 <= j < k ==> values@[j] == self@.args()[j],
            decreases self.deps.len() - k,
        {
            assert(self@.cache[k as int] is Some);
            values.push(self.deps[k].1.unwrap());
            k += 1;
        }
        assert(values@ =~= self@.args());
        let args = values.as_slice();
        let new_val = (self.fun)(args);
        proof {
            assert forall|s: &[T]| s@ == self@.args() implies call_ensures(self.fun, (s,), new_val) by {
                assert(s =~= args);
            }
        }
        let changed = match self.val {
            Some(old_val) => old_val != new_val,
            None => false,
        };
        self.val = Some(new_val);
        changed
    }

    /// Stores `new_value` as the value last seen of `_id`, at every position
    /// at which `_id` is a dependency of this cell.
    pub fn update_dep(&mut self, _id: CellId, new_value: T)
        ensures
            final(self).called() == old(self).called(),
            final(self)@.cache == Seq::new(
                old(self)@.deps.len(),
                |k: int|
                    if old(self)@.deps[k] == _id {
                        Some(new_value)
                    } else {
                        old(self)@.cache[k]
                    },
            ),
            final(self)@ == (ComputeCellView { cache: final(self)@.cache, ..old(self)@ }),
    {
        let mut i: usize = 0;
        while i < self.deps.len()
            invariant
                i <= self.deps.len(),
                self.deps@.len() == old(self).deps@.len(),
                self.id == old(self).id,
                self.val == old(self).val,
                self.fun == old(self).fun,
                self.callbacks == old(self).callbacks,
                self.called == old(self).called,
                forall|k: int|
                    0 <= k < self.deps@.len() ==> (#[trigger] self.deps@[k]).0 == old(
                        self,
                    ).deps@[k].0,
                forall|k: int|
                    0 <= k < i ==> (#[trigger] self.deps@[k]).1 == if old(self).deps@[k].0 == _id {
                        Some(new_value)
                    } else {
                        old(self).deps@[k].1
                    },
                forall|k: int|
                    i <= k < self.deps@.len() ==> (#[trigger] self.deps@[k]).1 == old(
                        self,
                    ).deps@[k].1,
            decreases self.deps.len() - i,
        {
            if self.deps[i].0 == _id {
                self.deps[i].1 = Some(new_value);
            }
            i += 1;
        }
        assert(self@.deps =~= old(self)@.deps);
        assert(self@.cache =~= Seq::new(
            old(self)@.deps.len(),
            |k: int|
                if old(self)@.deps[k] == _id {
                    Some(new_value)
                } else {
                    old(self)@.cache[k]
                },
        ));
    }

    /// The value last computed.
    pub fn value(&self) -> (v: Option<T>)
        ensures
            v == self@.value,
    {
        self.val
    }

    /// The number of dependencies.
    pub fn dep_count(&self) -> (n: usize)
        ensures
            n == self@.deps.len(),
    {
        self.deps.len()
    }

    /// The dependency at position `k`.
    pub fn dep(&self, k: usize) -> (d: CellId)
        requires
            k < self@.deps.len(),
        ensures
            d == self@.deps[k as int],
    {
        self.deps[k].0
    }

    /// Registers `callback` and returns the identifier under which it can be removed.
    pub fn add_callback(&mut self, callback: C) -> (id: CallbackId)
        ensures
            final(self).called() == old(self).called(),
            id.0 == old(self)@.callbacks.len(),
            final(self)@ == (ComputeCellView {
                callbacks: old(self)@.callbacks.push(Some(callback)),
                ..old(self)@
            }),
    {
        let id = CallbackId(self.callbacks.len());
        self.callbacks.push(Some(callback));
        assert(self@.deps =~= old(self)@.deps);
        assert(self@.cache =~= old(self)@.cache);
        id
    }

    /// Removes the callback `id`; `false` when it is not registered.
    pub fn remove_callback(&mut self, id: CallbackId) -> (removed: bool)
        ensures
            final(self).called() == old(self).called(),
            removed == old(self)@.has_callback(id),
            removed ==> final(self)@ == (ComputeCellView {
                callbacks: old(self)@.callbacks.update(id.0 as int, None),
                ..old(self)@
            }),
            !removed ==> final(self)@ == old(self)@,
    {
        if id.0 < self.callbacks.len() && self.callbacks[id.0].is_some() {
            self.callbacks[id.0] = None;
            assert(self@.deps =~= old(self)@.deps);
            assert(self@.cache =~= old(self)@.cache);
            true
        } else {
            false
        }
    }

    /// Calls every registered callback once with `value`, in the order in
    /// which they were added, and records each call.
    pub fn notify(&mut self, value: T)
        requires
            old(self)@.listens(),
        ensures
            final(self)@ == old(self)@,
            old(self)@.told(value),
            final(self).called() == old(self).called() + old(self)@.notices(value),
    {
        broadcast use vstd::function::group_function_axioms;

        let mut k: usize = 0;
        while k < self.callbacks.len()
            invariant
                k <= self.callbacks.len(),
                self@ == old(self)@,
                self@.listens(),
                self@.told_upto(value, k as int),
                self.called@ == old(self).called@ + self@.notices_upto(value, k as int),
            decreases self.callbacks.len() - k,
        {
            proof {
                if self@.callbacks[k as int] is Some {
                    assert(call_requires(self@.callbacks[k as int].unwrap(), (value,)));
                }
            }
            match &mut self.callbacks[k] {
                Some(callback) => {
                    callback(value);
                    self.called = Ghost(
                        self.called@.push(
                            Notice { cell: self.id, callback: CallbackId(k), value },
                        ),
                    );
                },
                None => {},
            }
            proof {
                assert(self@.callbacks =~= old(self)@.callbacks);
                assert(self.called@ =~= old(self).called@ + self@.notices_upto(
                    value,
                    k as int + 1,
                ));
            }
            k += 1;
        }
    }
}

} // verus!
