//! The window of recent frame times behind the frame-rate overlay.
use vstd::prelude::*;
use std::collections::VecDeque;

verus! {

broadcast use vstd::std_specs::vecdeque::group_vec_dequeue_axioms;

/// The most recent samples, oldest first: at most `capacity` of them when
/// the capacity is positive.
pub struct Stats<T> {
    samples: VecDeque<T>,
    capacity: usize,
}

/// The window after one more sample: the oldest sample leaves when the
/// window is full.
pub open spec fn ticked<T>(window: Seq<T>, capacity: nat, sample: T) -> Seq<T> {
    if window.len() == capacity && window.len() > 0 {
        window.drop_first().push(sample)
    } else {
        window.push(sample)
    }
}

impl<T> Stats<T> {
    /// A window of positive capacity holds at most that many samples.
    #[verifier::type_invariant]
    spec fn within_capacity(&self) -> bool {
        self.capacity > 0 ==> self.samples@.len() <= self.capacity
    }

    /// The samples held, oldest first.
    pub closed spec fn window(&self) -> Seq<T> {
        self.samples@
    }

    /// How many samples the window keeps.
    pub closed spec fn capacity(&self) -> nat {
        self.capacity as nat
    }

    /// An empty window that keeps `capacity` samples.
    pub fn new(capacity: usize) -> (s: Self)
        ensures
            s.window() == Seq::<T>::empty(),
            s.capacity() == capacity,
            s.capacity() > 0 ==> s.window().len() <= s.capacity(),
    {
        Stats { samples: VecDeque::with_capacity(capacity), capacity }
    }

    /// Records one sample, dropping the oldest when the window is full.
    pub fn tick(&mut self, dt: T)
        ensures
            final(self).capacity() == old(self).capacity(),
            final(self).window() == ticked(old(self).window(), old(self).capacity(), dt),
            final(self).capacity() > 0 ==> final(self).window().len() <= final(self).capacity(),
    {
        proof {
            use_type_invariant(&*self);
        }
        let mut samples: VecDeque<T> = VecDeque::new();
        std::mem::swap(&mut samples, &mut self.samples);
        if samples.len() == self.capacity {
            let _ = samples.pop_front();
        }
        samples.push_back(dt);
        self.samples = samples;
    }

    /// How many samples the window holds.
    pub fn count(&self) -> (n: usize)
        ensures
            n == self.window().len(),
            self.capacity() > 0 ==> n <= self.capacity(),
    {
        proof {
            use_type_invariant(self);
        }
        self.samples.len()
    }

    /// The samples, oldest first.
    pub fn samples(&self) -> (s: &VecDeque<T>)
        ensures
            s@ == self.window(),
    {
        &self.samples
    }
}

/// A window of positive capacity never holds more than its capacity, and it
/// holds the newest sample last. (With capacity 0 nothing is ever dropped
/// after the first sample.)
pub proof fn lemma_ticked_bounded<T>(window: Seq<T>, capacity: nat, sample: T)
    requires
        capacity > 0,
        window.len() <= capacity,
    ensures
        ticked(window, capacity, sample).len() <= capacity,
        ticked(window, capacity, sample).last() == sample,
        ticked(window, capacity, sample).len() == if window.len() < capacity {
            window.len() + 1
        } else {
            capacity
        },
{
}

/// After a full window takes a sample, it holds the previous window without
/// its oldest sample, in the same order.
pub proof fn lemma_ticked_keeps_order<T>(window: Seq<T>, capacity: nat, sample: T)
    requires
        window.len() == capacity,
        capacity > 0,
    ensures
        forall|i: int|
            0 <= i < capacity - 1 ==> #[trigger] ticked(window, capacity, sample)[i] == window[i
                + 1],
{
}

} // verus!
