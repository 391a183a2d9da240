//! The inverse of the dependency relation: for each cell, the compute cells
//! that read it directly.

use vstd::prelude::*;
use crate::cell::{CellId, ComputeCellId};

verus! {

/// For every registered cell, the list of its direct dependents.
pub struct DependencyIndex {
    inputs: Vec<Vec<ComputeCellId>>,
    computes: Vec<Vec<ComputeCellId>>,
}

/// The lists of an index, as mathematical sequences.
pub struct DependencyIndexView {
    /// The dependents of each input cell, by the input's position.
    pub inputs: Seq<Seq<ComputeCellId>>,
    /// The dependents of each compute cell, by the cell's position.
    pub computes: Seq<Seq<ComputeCellId>>,
}

impl DependencyIndexView {
    /// The cell `id` is registered.
    pub open spec fn knows(self, id: CellId) -> bool {
        match id {
            CellId::Input(i) => i.0 < self.inputs.len(),
            CellId::Compute(c) => c.0 < self.computes.len(),
        }
    }

    /// The direct dependents of `id`, in the order in which they were
    /// inserted; empty for a cell that is not registered.
    pub open spec fn dependents(self, id: CellId) -> Seq<ComputeCellId> {
        match id {
            CellId::Input(i) => if i.0 < self.inputs.len() {
                self.inputs[i.0 as int]
            } else {
                Seq::empty()
            },
            CellId::Compute(c) => if c.0 < self.computes.len() {
                self.computes[c.0 as int]
            } else {
                Seq::empty()
            },
        }
    }

    /// The index with `dependent` added to the dependents of `id`, unless it
    /// is among them already.
    pub open spec fn with_edge(self, id: CellId, dependent: ComputeCellId) -> Self {
        if self.dependents(id).contains(dependent) {
            self
        } else {
            match id {
                CellId::Input(i) => DependencyIndexView {
                    inputs: self.inputs.update(i.0 as int, self.inputs[i.0 as int].push(dependent)),
                    computes: self.computes,
                },
                CellId::Compute(c) => DependencyIndexView {
                    inputs: self.inputs,
                    computes: self.computes.update(
                        c.0 as int,
                        self.computes[c.0 as int].push(dependent),
                    ),
                },
            }
        }
    }
}

impl View for DependencyIndex {
    type V = DependencyIndexView;

    closed spec fn view(&self) -> DependencyIndexView {
        DependencyIndexView {
            inputs: Seq::new(self.inputs@.len(), |i: int| self.inputs@[i]@),
            computes: Seq::new(self.computes@.len(), |i: int| self.computes@[i]@),
        }
    }
}

/// Whether `list` holds `id`.
fn holds(list: &Vec<ComputeCellId>, id: ComputeCellId) -> (found: bool)
    ensures
        found == list@.contains(id),
{
    let mut k: usize = 0;
    while k < list.len()
        invariant
            k <= list.len(),
            forall|j: int| 0 <= j < k ==> list@[j] != id,
        decreases list.len() - k,
    {
        if list[k] == id {
            return true;
        }
        k += 1;
    }
    false
}

impl DependencyIndex {
    /// An index in which no cell is registered.
    pub fn new() -> (index: Self)
        ensures
            index@.inputs.len() == 0,
            index@.computes.len() == 0,
    {
        DependencyIndex { inputs: Vec::new(), computes: Vec::new() }
    }

    /// Registers one more input cell, without dependents.
    pub fn add_input(&mut self)
        ensures
            final(self)@.inputs == old(self)@.inputs.push(Seq::empty()),
            final(self)@.computes == old(self)@.computes,
    {
        self.inputs.push(Vec::new());
        assert(self@.inputs =~= old(self)@.inputs.push(Seq::empty()));
        assert(self@.computes =~= old(self)@.computes);
    }

    /// Registers one more compute cell, without dependents.
    pub fn add_compute(&mut self)
        ensures
            final(self)@.inputs == old(self)@.inputs,
            final(self)@.computes == old(self)@.computes.push(Seq::empty()),
    {
        self.computes.push(Vec::new());
        assert(self@.inputs =~= old(self)@.inputs);
        assert(self@.computes =~= old(self)@.computes.push(Seq::empty()));
    }

    /// Records that `dependent` reads `id`. An edge that is recorded already
    /// is not recorded twice.
    pub fn insert(&mut self, id: CellId, dependent: ComputeCellId)
        requires
            old(self)@.knows(id),
        ensures
            final(self)@ == old(self)@.with_edge(id, dependent),
    {
        match id {
            CellId::Input(i) => {
                if !holds(&self.inputs[i.0], dependent) {
                    self.inputs[i.0].push(dependent);
                }
            },
            CellId::Compute(c) => {
                if !holds(&self.computes[c.0], dependent) {
                    self.computes[c.0].push(dependent);
                }
            },
        }
        assert(self@.inputs =~= old(self)@.with_edge(id, dependent).inputs);
        assert(self@.computes =~= old(self)@.with_edge(id, dependent).computes);
    }

    /// The direct dependents of a registered cell.
    pub fn dependents_of(&self, id: CellId) -> (list: &Vec<ComputeCellId>)
        requires
            self@.knows(id),
        ensures
            list@ == self@.dependents(id),
    {
        match id {
            CellId::Input(i) => &self.inputs[i.0],
            CellId::Compute(c) => &self.computes[c.0],
        }
    }
}

} // verus!
