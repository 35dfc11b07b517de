//! The local output directory: which fingerprint each unit currently has in
//! place, and the checks that keep a stale or mismatched archive out of it.
use crate::repo::{bytes_eq, copy_bytes};
use crate::scheduler::Step;
use vstd::prelude::*;

verus! {

/// Why an archive was not unpacked.
#[derive(Debug, Clone, Copy, PartialEq, Eq)]
pub enum RestoreError {
    /// The archive belongs to another fingerprint than the one expected for the unit.
    Mismatch,
}

/// Outcome of unpacking an archive carrying `found` where `expected` is wanted.
pub open spec fn restore_result(expected: Seq<u8>, found: Seq<u8>) -> Result<(), RestoreError> {
    if expected == found {
        Ok(())
    } else {
        Err(RestoreError::Mismatch)
    }
}

/// Output directory state after unpacking for unit `u` an archive carrying `found`.
pub open spec fn after_restore(
    d: Seq<Option<Seq<u8>>>,
    u: int,
    expected: Seq<u8>,
    found: Seq<u8>,
) -> Seq<Option<Seq<u8>>> {
    if expected == found {
        d.update(u, Some(expected))
    } else {
        d
    }
}

/// For each unit, the fingerprint of the output in place, if any.
pub struct OutputDir {
    slots: Vec<Option<Vec<u8>>>,
}

impl OutputDir {
    /// The fingerprint in place for each unit.
    pub closed spec fn view(&self) -> Seq<Option<Seq<u8>>> {
        self.slots@.map_values(|o: Option<Vec<u8>>| match o {
            Some(v) => Some(v@),
            None => None,
        })
    }

    /// An output directory for `n` units, none of them in place.
    pub fn new(n: usize) -> (r: Self)
        ensures
            r.view() == Seq::new(n as nat, |i: int| None::<Seq<u8>>),
    {
        let mut slots: Vec<Option<Vec<u8>>> = Vec::new();
        let mut i: usize = 0;
        while i < n
            invariant
                0 <= i <= n,
                slots@.len() == i,
                forall|j: int| 0 <= j < i ==> #[trigger] slots@[j] is None,
            decreases n - i,
        {
            slots.push(None);
            i = i + 1;
        }
        let r = OutputDir { slots };
        assert(r.view() =~= Seq::new(n as nat, |i: int| None::<Seq<u8>>));
        r
    }

    /// Number of unit slots.
    pub fn len(&self) -> (r: usize)
        ensures
            r == self.view().len(),
    {
        self.slots.len()
    }

    /// Whether unit `u` has the output of fingerprint `fp` in place.
    pub fn is_current(&self, u: usize, fp: &Vec<u8>) -> (r: bool)
        requires
            u < self.view().len(),
        ensures
            r == (self.view()[u as int] == Some(fp@)),
    {
        match &self.slots[u] {
            Some(v) => bytes_eq(v, fp),
            None => false,
        }
    }

    /// Unpacks for unit `u` an archive that carries fingerprint `found`, where
    /// `expected` is the fingerprint wanted for the unit. A mismatch is refused
    /// and leaves the directory as it was.
    pub fn restore(&mut self, u: usize, expected: &Vec<u8>, found: &Vec<u8>) -> (r: Result<
        (),
        RestoreError,
    >)
        requires
            u < old(self).view().len(),
        ensures
            r == restore_result(expected@, found@),
            final(self).view() == after_restore(old(self).view(), u as int, expected@, found@),
    {
        if bytes_eq(expected, found) {
            let ghost before = self.view();
            self.slots.set(u, Some(copy_bytes(expected)));
            assert(self.view() =~= before.update(u as int, Some(expected@)));
            Ok(())
        } else {
            Err(RestoreError::Mismatch)
        }
    }
}

/// Unpacking the same archive for a unit a second time changes nothing.
pub proof fn lemma_restore_idempotent(
    d: Seq<Option<Seq<u8>>>,
    u: int,
    expected: Seq<u8>,
    found: Seq<u8>,
)
    requires
        0 <= u < d.len(),
    ensures
        after_restore(after_restore(d, u, expected, found), u, expected, found) == after_restore(
            d,
            u,
            expected,
            found,
        ),
{
    if expected == found {
        assert(d.update(u, Some(expected)).update(u, Some(expected)) =~= d.update(
            u,
            Some(expected),
        ));
    }
}

/// Positions of the steps whose unit does not yet have the step's fingerprint in place.
pub fn pending_restores(steps: &Vec<Step>, dir: &OutputDir) -> (r: Vec<usize>)
    requires
        forall|i: int| 0 <= i < steps@.len() ==> #[trigger] steps@[i].unit < dir.view().len(),
    ensures
        forall|j: int| 0 <= j < r@.len() ==> #[trigger] r@[j] < steps@.len(),
        forall|j: int, k: int| 0 <= j < k < r@.len() ==> r@[j] < r@[k],
        forall|i: int|
            0 <= i < steps@.len() ==> (r@.contains(i as usize) <==> dir.view()[#[trigger] steps@[i].unit as int]
                != Some(steps@[i].fingerprint@)),
{
    let mut r: Vec<usize> = Vec::new();
    let mut i: usize = 0;
    while i < steps.len()
        invariant
            forall|i: int| 0 <= i < steps@.len() ==> #[trigger] steps@[i].unit < dir.view().len(),
            0 <= i <= steps@.len(),
            forall|j: int| 0 <= j < r@.len() ==> #[trigger] r@[j] < i,
            forall|j: int, k: int| 0 <= j < k < r@.len() ==> r@[j] < r@[k],
            forall|m: int|
                0 <= m < i ==> (r@.contains(m as usize) <==> dir.view()[#[trigger] steps@[m].unit as int]
                    != Some(steps@[m].fingerprint@)),
        decreases steps@.len() - i,
    {
        let ghost before = r@;
        if !dir.is_current(steps[i].unit, &steps[i].fingerprint) {
            r.push(i);
        }
        proof {
            assert forall|m: int|
                0 <= m < i + 1 implies (r@.contains(m as usize) <==> dir.view()[#[trigger] steps@[m].unit as int]
                    != Some(steps@[m].fingerprint@)) by {
                if m < i {
                    if before.contains(m as usize) {
                        let j = choose|j: int| 0 <= j < before.len() && before[j] == m as usize;
                        assert(r@[j] == before[j]);
                    }
                    if r@.contains(m as usize) {
                        let j = choose|j: int| 0 <= j < r@.len() && r@[j] == m as usize;
                        if j < before.len() {
                            assert(r@[j] == before[j]);
                        }
                    }
                } else {
                    if r@.contains(m as usize) {
                        let j = choose|j: int| 0 <= j < r@.len() && r@[j] == m as usize;
                        if j < before.len() {
                            assert(r@[j] == before[j]);
                        }
                    }
                    if r@.len() > before.len() {
                        assert(r@[before.len() as int] == i);
                    }
                }
            }
        }
        i = i + 1;
    }
    r
}

} // verus!
