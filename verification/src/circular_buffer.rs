//! A ring of slots with a read position and a write position.

use vstd::prelude::*;

verus! {

/// Why a read or a write was refused.
#[derive(Debug, PartialEq, Eq, Structural)]
pub enum Error {
    EmptyBuffer,
    FullBuffer,
}

/// A ring buffer that holds one slot more than its capacity.
pub struct CircularBuffer<T> {
    read_idx: usize,
    write_idx: usize,
    actual_len: usize,
    buffer: Vec<Option<T>>,
}

/// The slots of a ring buffer and its two positions.
pub struct RingView<T> {
    pub slots: Seq<Option<T>>,
    pub read: int,
    pub write: int,
}

impl<T> RingView<T> {
    /// The position after `i`, going round.
    pub open spec fn next(self, i: int) -> int {
        (i + 1) % (self.slots.len() as int)
    }

    /// Both positions lie in the ring.
    pub open spec fn wf(self) -> bool {
        &&& self.slots.len() > 0
        &&& 0 <= self.read < self.slots.len()
        &&& 0 <= self.write < self.slots.len()
    }

    /// Nothing is waiting to be read.
    pub open spec fn is_empty(self) -> bool {
        self.read == self.write
    }

    /// No further element can be written.
    pub open spec fn is_full(self) -> bool {
        self.next(self.write) == self.read
    }

    /// The number of slots between the read and the write position.
    pub open spec fn len(self) -> int {
        (self.write - self.read + self.slots.len()) % (self.slots.len() as int)
    }
}

impl<T> View for CircularBuffer<T> {
    type V = RingView<T>;

    closed spec fn view(&self) -> RingView<T> {
        RingView { slots: self.buffer@, read: self.read_idx as int, write: self.write_idx as int }
    }
}

impl<T> CircularBuffer<T> {
    /// The positions lie in the ring and the count of waiting elements is right.
    pub closed spec fn wf(&self) -> bool {
        self@.wf() && self.actual_len == self@.len()
    }

    /// An empty buffer for `capacity` elements.
    pub fn new(capacity: usize) -> (ring: Self)
        requires
            capacity < usize::MAX,
        ensures
            ring.wf(),
            ring@.wf(),
            ring@.slots == Seq::new((capacity + 1) as nat, |i: int| None::<T>),
            ring@.read == 0,
            ring@.write == 0,
    {
        let mut buffer: Vec<Option<T>> = Vec::new();
        let mut i: usize = 0;
        while i < capacity + 1
            invariant
                i <= capacity + 1,
                capacity < usize::MAX,
                buffer@ == Seq::new(i as nat, |k: int| None::<T>),
            decreases capacity + 1 - i,
        {
            buffer.push(None);
            assert(buffer@ =~= Seq::new((i + 1) as nat, |k: int| None::<T>));
            i += 1;
        }
        proof {
            lemma_distance(0, 0, capacity + 1);
        }
        Self { read_idx: 0, write_idx: 0, actual_len: 0, buffer }
    }

    /// Puts `_element` at the write position and moves that position on,
    /// unless the buffer is full.
    pub fn write(&mut self, _element: T) -> (r: Result<(), Error>)
        requires
            old(self).wf(),
        ensures
            final(self).wf(),
            final(self)@.wf(),
            match r {
                Ok(_) => {
                    &&& !old(self)@.is_full()
                    &&& final(self)@ == (RingView {
                        slots: old(self)@.slots.update(old(self)@.write, Some(_element)),
                        read: old(self)@.read,
                        write: old(self)@.next(old(self)@.write),
                    })
                },
                Err(e) => e == Error::FullBuffer && old(self)@.is_full() && final(self)@ == old(
                    self,
                )@,
            },
    {
        let n = self.buffer.len();
        if (self.write_idx + 1) % n == self.read_idx {
            Err(Error::FullBuffer)
        } else {
            proof {
                lemma_ring_grows(self.read_idx as int, self.write_idx as int, n as int);
            }
            self.buffer[self.write_idx] = Some(_element);
            self.write_idx = (self.write_idx + 1) % n;
            self.actual_len += 1;
            Ok(())
        }
    }

    /// Whether a read can be made: the buffer is empty, or the slot at the
    /// read position holds an element.
    pub fn is_readable(&self) -> (r: bool)
        requires
            self.wf(),
        ensures
            r == (self@.is_empty() || self@.slots[self@.read] is Some),
    {
        self.read_idx == self.write_idx || self.buffer[self.read_idx].is_some()
    }

    /// Takes the element at the read position and moves that position on,
    /// unless the buffer is empty.
    pub fn read(&mut self) -> (r: Result<T, Error>)
        requires
            old(self).wf(),
            old(self)@.is_empty() || old(self)@.slots[old(self)@.read] is Some,
        ensures
            final(self).wf(),
            final(self)@.wf(),
            match r {
                Ok(value) => {
                    &&& !old(self)@.is_empty()
                    &&& Some(value) == old(self)@.slots[old(self)@.read]
                    &&& final(self)@ == (RingView {
                        slots: old(self)@.slots.update(old(self)@.read, None),
                        read: old(self)@.next(old(self)@.read),
                        write: old(self)@.write,
                    })
                },
                Err(e) => e == Error::EmptyBuffer && old(self)@.is_empty() && final(self)@ == old(
                    self,
                )@,
            },
    {
        if self.read_idx == self.write_idx {
            Err(Error::EmptyBuffer)
        } else {
            let n = self.buffer.len();
            proof {
                lemma_ring_shrinks(self.read_idx as int, self.write_idx as int, n as int);
            }
            let val = self.buffer[self.read_idx].take().unwrap();
            self.read_idx = (self.read_idx + 1) % n;
            self.actual_len -= 1;
            Ok(val)
        }
    }

    /// Empties every slot and moves both positions to the start.
    pub fn clear(&mut self)
        requires
            old(self).wf(),
        ensures
            final(self).wf(),
            final(self)@.wf(),
            final(self)@ == (RingView {
                slots: Seq::new(old(self)@.slots.len(), |i: int| None::<T>),
                read: 0,
                write: 0,
            }),
    {
        self.read_idx = 0;
        self.write_idx = 0;
        self.actual_len = 0;
        let n = self.buffer.len();
        let mut i: usize = 0;
        while i < n
            invariant
                i <= n,
                n == self.buffer@.len(),
                n == old(self).buffer@.len(),
                self.read_idx == 0,
                self.write_idx == 0,
                self.actual_len == 0,
                forall|k: int| 0 <= k < i ==> (#[trigger] self.buffer@[k]) is None,
            decreases n - i,
        {
            self.buffer[i] = None;
            i += 1;
        }
        proof {
            assert(self.buffer@ =~= Seq::new(old(self)@.slots.len(), |i: int| None::<T>));
            lemma_distance(0, 0, n as int);
        }
    }

    /// Puts `_element` at the read position and moves both positions on.
    pub fn overwrite(&mut self, _element: T)
        requires
            old(self).wf(),
        ensures
            final(self).wf(),
            final(self)@.wf(),
            final(self)@ == (RingView {
                slots: old(self)@.slots.update(old(self)@.read, Some(_element)),
                read: old(self)@.next(old(self)@.read),
                write: old(self)@.next(old(self)@.write),
            }),
    {
        let n = self.buffer.len();
        proof {
            lemma_ring_turns(self.read_idx as int, self.write_idx as int, n as int);
        }
        self.buffer[self.read_idx] = Some(_element);
        self.read_idx = (self.read_idx + 1) % n;
        self.write_idx = (self.write_idx + 1) % n;
    }
}

/// Moving the write position on makes the distance one longer, unless the
/// ring is full.
proof fn lemma_ring_grows(r: int, w: int, n: int)
    requires
        0 <= r < n,
        0 <= w < n,
        (w + 1) % n != r,
    ensures
        ((w + 1) % n - r + n) % n == (w - r + n) % n + 1,
        (w - r + n) % n + 1 < n,
{
    if w + 1 < n {
        assert((w + 1) % n == w + 1) by (nonlinear_arith)
            requires
                0 <= w + 1 < n,
        ;
    } else {
        assert((w + 1) % n == 0) by (nonlinear_arith)
            requires
                w + 1 == n,
                n > 0,
        ;
    }
    lemma_distance(r, w, n);
    lemma_distance(r, (w + 1) % n, n);
}

/// Moving the read position on makes the distance one shorter, unless the
/// ring is empty.
proof fn lemma_ring_shrinks(r: int, w: int, n: int)
    requires
        0 <= r < n,
        0 <= w < n,
        r != w,
    ensures
        (w - (r + 1) % n + n) % n == (w - r + n) % n - 1,
        (w - r + n) % n >= 1,
{
    if r + 1 < n {
        assert((r + 1) % n == r + 1) by (nonlinear_arith)
            requires
                0 <= r + 1 < n,
        ;
    } else {
        assert((r + 1) % n == 0) by (nonlinear_arith)
            requires
                r + 1 == n,
                n > 0,
        ;
    }
    lemma_distance(r, w, n);
    lemma_distance((r + 1) % n, w, n);
}

/// Moving both positions on leaves the distance as it is.
proof fn lemma_ring_turns(r: int, w: int, n: int)
    requires
        0 <= r < n,
        0 <= w < n,
    ensures
        ((w + 1) % n - (r + 1) % n + n) % n == (w - r + n) % n,
        0 <= (w + 1) % n < n,
        0 <= (r + 1) % n < n,
{
    if r + 1 < n {
        assert((r + 1) % n == r + 1) by (nonlinear_arith)
            requires
                0 <= r + 1 < n,
        ;
    } else {
        assert((r + 1) % n == 0) by (nonlinear_arith)
            requires
                r + 1 == n,
                n > 0,
        ;
    }
    if w + 1 < n {
        assert((w + 1) % n == w + 1) by (nonlinear_arith)
            requires
                0 <= w + 1 < n,
        ;
    } else {
        assert((w + 1) % n == 0) by (nonlinear_arith)
            requires
                w + 1 == n,
                n > 0,
        ;
    }
    lemma_distance(r, w, n);
    lemma_distance((r + 1) % n, (w + 1) % n, n);
}

/// The distance from `r` to `w`, going round, in closed form.
proof fn lemma_distance(r: int, w: int, n: int)
    requires
        0 <= r < n,
        0 <= w < n,
    ensures
        (w - r + n) % n == if w >= r {
            w - r
        } else {
            w - r + n
        },
{
    if w >= r {
        assert((w - r + n) % n == w - r) by (nonlinear_arith)
            requires
                0 <= w - r < n,
        ;
    } else {
        assert((w - r + n) % n == w - r + n) by (nonlinear_arith)
            requires
                0 <= w - r + n < n,
        ;
    }
}

} // verus!
