//! Bundling incoming changes: several sets of them are applied at once, at the
//! price of some delay.

use vstd::prelude::*;

use crate::receive::{self, changes_len};

verus! {

/// The changes that wait to be applied.
#[verifier::ext_equal]
pub struct BatchView<T> {
    pub buf: Seq<T>,
    pub count: int,
}

/// Bundles sets of changes. `T` stands for one set.
pub struct ChangeBatcher<T> {
    buf: Vec<T>,
    count: usize,
    min_chunk: usize,
}

impl<T> View for ChangeBatcher<T> {
    type V = BatchView<T>;

    closed spec fn view(&self) -> BatchView<T> {
        BatchView { buf: self.buf@, count: self.count as int }
    }
}

/// The sets of a batch that may be there.
pub open spec fn batch_of<T>(batch: Option<Vec<T>>) -> Seq<T> {
    match batch {
        Some(sets) => sets@,
        None => Seq::empty(),
    }
}

impl<T> ChangeBatcher<T> {
    /// At how many changes a batch is applied.
    pub closed spec fn min_chunk(self) -> int {
        self.min_chunk as int
    }

    /// Nothing waits. A batch is applied once it holds `min_chunk` changes.
    pub fn new(min_chunk: usize) -> (this: ChangeBatcher<T>)
        ensures
            this.min_chunk() == min_chunk,
            this@ == (BatchView { buf: Seq::<T>::empty(), count: 0 }),
    {
        ChangeBatcher { buf: Vec::new(), count: 0, min_chunk }
    }

    /// How many changes wait.
    pub fn count(&self) -> (count: usize)
        ensures
            count == self@.count,
    {
        self.count
    }

    fn take_batch(&mut self) -> (batch: Vec<T>)
        ensures
            batch@ == old(self)@.buf,
            final(self)@ == (BatchView { buf: Seq::<T>::empty(), count: 0 }),
            final(self).min_chunk() == old(self).min_chunk(),
    {
        let mut batch: Vec<T> = Vec::new();
        std::mem::swap(&mut batch, &mut self.buf);
        self.count = 0;
        batch
    }

    fn add(&mut self, change: T, weight: usize) -> (batch: Option<Vec<T>>)
        requires
            old(self)@.count + weight <= usize::MAX,
        ensures
            final(self).min_chunk() == old(self).min_chunk(),
            match batch {
                Some(sets) => {
                    &&& old(self)@.count + weight >= old(self).min_chunk()
                    &&& sets@ == old(self)@.buf.push(change)
                    &&& final(self)@ == (BatchView { buf: Seq::<T>::empty(), count: 0 })
                },
                None => {
                    &&& old(self)@.count + weight < old(self).min_chunk()
                    &&& final(self)@ == (BatchView {
                        buf: old(self)@.buf.push(change),
                        count: old(self)@.count + weight,
                    })
                },
            },
    {
        self.count = self.count + weight;
        self.buf.push(change);
        if self.count < self.min_chunk {
            None
        } else {
            Some(self.take_batch())
        }
    }

    /// Takes a set of `len` changes. `Some` is a batch to apply now.
    pub fn on_change(&mut self, change: T, len: usize) -> (batch: Option<Vec<T>>)
        requires
            old(self)@.count + len <= usize::MAX,
        ensures
            final(self).min_chunk() == old(self).min_chunk(),
            match batch {
                Some(sets) => {
                    &&& old(self)@.count + len >= old(self).min_chunk()
                    &&& sets@ == old(self)@.buf.push(change)
                    &&& final(self)@ == (BatchView { buf: Seq::<T>::empty(), count: 0 })
                },
                None => {
                    &&& old(self)@.count + len < old(self).min_chunk()
                    &&& final(self)@ == (BatchView {
                        buf: old(self)@.buf.push(change),
                        count: old(self)@.count + len,
                    })
                },
            },
            batch_of(batch) + final(self)@.buf == old(self)@.buf.push(change),
    {
        let batch = self.add(change, len);
        assert(batch_of(batch) + self@.buf =~= old(self)@.buf.push(change));
        batch
    }

    /// Takes what waits, if anything does: after a while it is applied though it is
    /// not much.
    pub fn on_tick(&mut self) -> (batch: Option<Vec<T>>)
        ensures
            final(self).min_chunk() == old(self).min_chunk(),
            match batch {
                Some(sets) => {
                    &&& old(self)@.buf.len() > 0
                    &&& sets@ == old(self)@.buf
                    &&& final(self)@ == (BatchView { buf: Seq::<T>::empty(), count: 0 })
                },
                None => old(self)@.buf.len() == 0 && final(self)@ == old(self)@,
            },
            batch_of(batch) + final(self)@.buf == old(self)@.buf,
    {
        if self.buf.len() == 0 {
            assert(Seq::<T>::empty() + self@.buf =~= self@.buf);
            None
        } else {
            let batch = self.take_batch();
            assert(batch@ + self@.buf =~= old(self)@.buf);
            Some(batch)
        }
    }

    /// Takes a set of `len` changes that was left over when receiving ended. Here an
    /// empty set counts too.
    pub fn on_drain(&mut self, change: T, len: usize) -> (batch: Option<Vec<T>>)
        requires
            old(self)@.count + receive::weight(len) <= usize::MAX,
        ensures
            final(self).min_chunk() == old(self).min_chunk(),
            match batch {
                Some(sets) => {
                    &&& old(self)@.count + receive::weight(len) >= old(self).min_chunk()
                    &&& sets@ == old(self)@.buf.push(change)
                    &&& final(self)@ == (BatchView { buf: Seq::<T>::empty(), count: 0 })
                },
                None => {
                    &&& old(self)@.count + receive::weight(len) < old(self).min_chunk()
                    &&& final(self)@ == (BatchView {
                        buf: old(self)@.buf.push(change),
                        count: old(self)@.count + receive::weight(len),
                    })
                },
            },
            batch_of(batch) + final(self)@.buf == old(self)@.buf.push(change),
    {
        let weight: usize = changes_len(len);
        let batch = self.add(change, weight);
        assert(batch_of(batch) + self@.buf =~= old(self)@.buf.push(change));
        batch
    }

    /// The last batch: whatever still waits.
    pub fn finish(self) -> (batch: Vec<T>)
        ensures
            batch@ == self@.buf,
    {
        self.buf
    }
}

} // verus!
