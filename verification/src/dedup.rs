//! The units that a run has walked already.

use vstd::prelude::*;

verus! {

/// Remembers the unit ids that were marked as visited, in the order in which
/// they were marked. Units are told apart by their id alone: two trees of the
/// same path with different ids are two units.
#[derive(Debug)]
pub struct Deduplicator {
    seen: Vec<usize>,
}

impl View for Deduplicator {
    type V = Seq<usize>;

    closed spec fn view(&self) -> Seq<usize> {
        self.seen@
    }
}

impl Deduplicator {
    #[verifier::type_invariant]
    closed spec fn well_formed(&self) -> bool {
        self.seen@.no_duplicates()
    }

    /// A deduplicator that has seen no unit.
    pub fn new() -> (fresh: Deduplicator)
        ensures
            fresh@ == Seq::<usize>::empty(),
    {
        Deduplicator { seen: Vec::new() }
    }

    /// Whether `unit_id` is still to be walked: whether it was not marked.
    pub fn should_visit(&self, unit_id: usize) -> (fresh: bool)
        ensures
            fresh == !self@.contains(unit_id),
            self@.no_duplicates(),
    {
        proof {
            use_type_invariant(self);
        }
        let mut i: usize = 0;
        while i < self.seen.len()
            invariant
                0 <= i <= self.seen@.len(),
                self.seen@.no_duplicates(),
                forall|k: int| 0 <= k < i ==> self.seen@[k] != unit_id,
            decreases self.seen@.len() - i,
        {
            if self.seen[i] == unit_id {
                assert(self.seen@[i as int] == unit_id);
                return false;
            }
            i = i + 1;
        }
        true
    }

    /// Marks `unit_id` as visited. What was marked stays marked, and a unit
    /// that is marked again is not put down twice.
    pub fn mark_visited(&mut self, unit_id: usize)
        ensures
            final(self)@ == if old(self)@.contains(unit_id) {
                old(self)@
            } else {
                old(self)@.push(unit_id)
            },
            final(self)@.no_duplicates(),
    {
        if self.should_visit(unit_id) {
            let mut taken = Deduplicator { seen: Vec::new() };
            core::mem::swap(self, &mut taken);
            let mut seen = taken.seen;
            let ghost before = seen@;
            seen.push(unit_id);
            proof {
                assert forall|a: int, b: int| 0 <= a < seen@.len() && 0 <= b < seen@.len() && a
                    != b implies seen@[a] != seen@[b] by {
                    if a < before.len() {
                        assert(before[a] == seen@[a]);
                        assert(before.contains(before[a]));
                    }
                    if b < before.len() {
                        assert(before[b] == seen@[b]);
                        assert(before.contains(before[b]));
                    }
                }
            }
            *self = Deduplicator { seen };
        }
    }

    /// The units that were marked, in the order in which they were marked.
    pub fn visited(&self) -> (units: &Vec<usize>)
        ensures
            units@ == self@,
            units@.no_duplicates(),
    {
        proof {
            use_type_invariant(self);
        }
        &self.seen
    }

    /// Hands over the units that were marked.
    pub fn into_visited(self) -> (units: Vec<usize>)
        ensures
            units@ == self@,
            units@.no_duplicates(),
    {
        proof {
            use_type_invariant(&self);
        }
        self.seen
    }
}

} // verus!
