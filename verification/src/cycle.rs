//! An iterator that goes through another iterator a given number of times.

use vstd::prelude::*;
use vstd::std_specs::iter::{IteratorSpec, IteratorSpecImpl};

verus! {

/// Goes through an iterator `repeat` times over; with `repeat` zero it
/// starts over without end.
#[derive(Clone)]
pub struct MyCycle<I: Clone + Iterator> {
    counter: usize,
    repeat: usize,
    iter: I,
    iter_copy: I,
}

/// The state of a cycle.
pub struct MyCycleView<I> {
    /// The number of rounds that are over.
    pub counter: usize,
    /// The number of rounds to go through.
    pub repeat: usize,
    /// What is left of the current round.
    pub iter: I,
    /// The iterator as it was handed in.
    pub iter_copy: I,
}

impl<I: Clone + Iterator> View for MyCycle<I> {
    type V = MyCycleView<I>;

    closed spec fn view(&self) -> MyCycleView<I> {
        MyCycleView {
            counter: self.counter,
            repeat: self.repeat,
            iter: self.iter,
            iter_copy: self.iter_copy,
        }
    }
}

/// The number of the round after round `counter`; the count starts again
/// at zero where it no longer fits.
pub open spec fn round_after(counter: usize) -> usize {
    if counter == usize::MAX {
        0
    } else {
        (counter + 1) as usize
    }
}

impl<I: Clone + Iterator> MyCycle<I> {
    /// A cycle that goes through `iter` `repeat` times.
    pub fn new(iter: I, repeat: usize) -> (cycle: Self)
        ensures
            cycle@.counter == 0,
            cycle@.repeat == repeat,
            cycle@.iter == iter,
            cloned(iter, cycle@.iter_copy),
    {
        let iter_copy = iter.clone();
        Self { counter: 0, repeat, iter, iter_copy }
    }
}

impl<I: Clone + Iterator> Iterator for MyCycle<I> {
    type Item = <I as Iterator>::Item;

    /// The next item of the current round; at the end of a round that is
    /// not the last, the first item of a fresh copy of the iterator.
    fn next(&mut self) -> (ret: Option<Self::Item>)
        ensures
            final(self)@.repeat == old(self)@.repeat,
            final(self)@.iter_copy == old(self)@.iter_copy,
            old(self)@.iter.obeys_prophetic_iter_laws() && old(self)@.iter.remaining().len() > 0 ==> {
                &&& ret == Some(old(self)@.iter.remaining()[0])
                &&& final(self)@.iter.remaining() == old(self)@.iter.remaining().drop_first()
                &&& final(self)@.counter == old(self)@.counter
            },
            old(self)@.iter.obeys_prophetic_iter_laws() && old(self)@.iter.remaining().len() == 0
                && round_after(old(self)@.counter) == old(self)@.repeat ==> {
                &&& ret is None
                &&& final(self)@.counter == old(self)@.counter
            },
            old(self)@.iter.obeys_prophetic_iter_laws() && old(self)@.iter.remaining().len() == 0
                && round_after(old(self)@.counter) != old(self)@.repeat ==> {
                &&& final(self)@.counter == round_after(old(self)@.counter)
                &&& exists|fresh: I|
                    {
                        &&& #[trigger] cloned(old(self)@.iter_copy, fresh)
                        &&& fresh.obeys_prophetic_iter_laws() ==> if fresh.remaining().len() > 0 {
                            &&& ret == Some(fresh.remaining()[0])
                            &&& final(self)@.iter.remaining() == fresh.remaining().drop_first()
                        } else {
                            ret is None
                        }
                    }
            },
    {
        match self.iter.next() {
            Some(item) => Some(item),
            None => {
                if self.counter.wrapping_add(1) == self.repeat {
                    None
                } else {
                    self.counter = self.counter.wrapping_add(1);
                    let fresh = self.iter_copy.clone();
                    let ghost start = fresh;
                    self.iter = fresh;
                    let ret = self.iter.next();
                    assert(cloned(old(self)@.iter_copy, start));
                    ret
                }
            },
        }
    }
}

impl<I: Clone + Iterator> IteratorSpecImpl for MyCycle<I> {
    open spec fn obeys_prophetic_iter_laws(&self) -> bool {
        false
    }

    open spec fn remaining(&self) -> Seq<Self::Item> {
        Seq::empty()
    }

    open spec fn will_return_none(&self) -> bool {
        false
    }

    open spec fn decrease(&self) -> Option<nat> {
        None
    }

    open spec fn initial_value_relation(&self, init: &Self) -> bool {
        true
    }

    open spec fn peek(&self, index: int) -> Option<Self::Item> {
        None
    }
}

} // verus!
