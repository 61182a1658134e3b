//! A fixed-size collection acting like a first-in-first-out ring: a cursor
//! walks a fixed buffer, and writing overwrites the oldest element.
//!
//! The view of a `Fifo` lists its elements in age order, oldest first: the
//! element under the cursor is the oldest, the one just before the cursor
//! the newest.

use vstd::prelude::*;

verus! {

/// A fixed-size collection acting like a first-in-first-out ring.
pub struct Fifo<T> {
    inner: Vec<T>,
    cursor: usize,
}

impl<T> View for Fifo<T> {
    type V = Seq<T>;

    closed spec fn view(&self) -> Seq<T> {
        self.inner@.subrange(self.cursor as int, self.inner@.len() as int) + self.inner@.subrange(
            0,
            self.cursor as int,
        )
    }
}

impl<T> Fifo<T> {
    /// The cursor stays inside the buffer, except on an empty buffer where
    /// it stays at zero.
    pub closed spec fn wf(&self) -> bool {
        if self.inner@.len() == 0 {
            self.cursor == 0
        } else {
            self.cursor < self.inner@.len()
        }
    }

    /// An empty ring.
    pub fn new() -> (r: Fifo<T>)
        ensures
            r@ == Seq::<T>::empty(),
            r.wf(),
    {
        let r = Fifo { inner: Vec::new(), cursor: 0 };
        proof {
            assert(r@ =~= Seq::<T>::empty());
        }
        r
    }

    /// A ring over the given buffer, with the first element oldest.
    pub fn from_vec(inner: Vec<T>) -> (r: Fifo<T>)
        ensures
            r@ == inner@,
            r.wf(),
    {
        let r = Fifo { inner, cursor: 0 };
        proof {
            assert(r@ =~= r.inner@);
        }
        r
    }

    /// The value the cursor takes after one write: the next slot, wrapping
    /// to zero at the end of the buffer.
    fn incremented_cursor_value(&self) -> (r: usize)
        requires
            self.inner@.len() > 0,
            self.cursor_spec() < self.inner@.len(),
        ensures
            r == if self.cursor_spec() + 1 == self.inner@.len() {
                0int
            } else {
                self.cursor_spec() + 1
            },
    {
        let n = self.inner.len();
        let naively_incremented = self.cursor + 1;
        if naively_incremented == n {
            0
        } else {
            naively_incremented
        }
    }

    /// The cursor's position inside the buffer.
    pub closed spec fn cursor_spec(&self) -> int {
        self.cursor as int
    }

    /// Overwrites the oldest element; the ring then lists the remaining
    /// elements, oldest first, with the written value newest.  Returns the
    /// buffer index of the written slot.
    pub fn overwrite(&mut self, value: T) -> (r: usize)
        requires
            old(self).wf(),
            old(self)@.len() > 0,
        ensures
            final(self)@ == old(self)@.drop_first().push(value),
            final(self).wf(),
            final(self)@.len() == old(self)@.len(),
            r == old(self).cursor_spec(),
    {
        let ghost old_view = self@;
        let write_index = self.cursor;
        self.inner.set(self.cursor, value);
        self.cursor = self.incremented_cursor_value();
        proof {
            assert(self@ =~= old_view.drop_first().push(value));
        }
        write_index
    }

    /// Whether the ring holds no element.
    pub fn is_empty(&self) -> (r: bool)
        requires
            self.wf(),
        ensures
            r == (self@.len() == 0),
    {
        proof {
            assert(self@.len() == self.inner@.len());
        }
        self.inner.is_empty()
    }

    /// The number of elements the ring holds.
    pub fn len(&self) -> (r: usize)
        requires
            self.wf(),
        ensures
            r == self@.len(),
    {
        proof {
            assert(self@.len() == self.inner@.len());
        }
        self.inner.len()
    }

    /// Moves the cursor back to the start of the buffer: the ring then
    /// lists its elements in plain buffer order, which rotates the age
    /// order by the old cursor.
    pub fn reset_cursor(&mut self)
        requires
            old(self).wf(),
        ensures
            final(self)@ == old(self)@.subrange(
                old(self)@.len() - old(self).cursor_spec(),
                old(self)@.len() as int,
            ) + old(self)@.subrange(0, old(self)@.len() - old(self).cursor_spec()),
            final(self).wf(),
            final(self).cursor_spec() == 0,
    {
        let ghost old_view = self@;
        let ghost c = self.cursor as int;
        let ghost n = self.inner@.len() as int;
        self.cursor = 0;
        proof {
            assert(self@ =~= self.inner@);
            assert(old_view.subrange(n - c, n) =~= self.inner@.subrange(0, c));
            assert(old_view.subrange(0, n - c) =~= self.inner@.subrange(c, n));
            assert(self@ =~= old_view.subrange(n - c, n) + old_view.subrange(0, n - c));
        }
    }

    /// The ring's elements in age order, oldest first, as a fresh vector.
    pub fn iter(&self) -> (r: Vec<T>) where T: Copy
        requires
            self.wf(),
        ensures
            r@ == self@,
    {
        let n = self.inner.len();
        let mut out: Vec<T> = Vec::new();
        let mut k: usize = self.cursor;
        while k < n
            invariant
                self.wf(),
                n == self.inner@.len(),
                self.cursor_spec() <= k <= n,
                out@ == self.inner@.subrange(self.cursor_spec(), k as int),
            decreases n - k,
        {
            out.push(self.inner[k]);
            proof {
                assert(out@ =~= self.inner@.subrange(self.cursor_spec(), k + 1));
            }
            k = k + 1;
        }
        let mut j: usize = 0;
        while j < self.cursor
            invariant
                self.wf(),
                n == self.inner@.len(),
                0 <= j <= self.cursor_spec(),
                out@ == self.inner@.subrange(self.cursor_spec(), n as int) + self.inner@.subrange(
                    0,
                    j as int,
                ),
            decreases self.cursor_spec() - j,
        {
            out.push(self.inner[j]);
            proof {
                assert(out@ =~= self.inner@.subrange(self.cursor_spec(), n as int)
                    + self.inner@.subrange(0, j + 1));
            }
            j = j + 1;
        }
        out
    }
}

} // verus!
