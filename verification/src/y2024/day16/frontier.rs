use super::grid::SearchState;
use vstd::prelude::*;

verus! {

/// A state that was discovered at some accumulated cost.
#[derive(Debug, Copy, Clone, PartialEq, Eq, Structural)]
pub struct Entry {
    pub cost: u32,
    pub state: SearchState,
}

/// The discovered states that wait to be settled: a priority queue that
/// hands out an entry of least cost first.
pub struct Frontier {
    entries: Vec<Entry>,
}

/// `i` is the first position of `entries` whose cost is the least.
pub open spec fn is_first_least(entries: Seq<Entry>, i: int) -> bool {
    &&& 0 <= i < entries.len()
    &&& forall|j: int| 0 <= j < entries.len() ==> entries[i].cost <= (#[trigger] entries[j]).cost
    &&& forall|j: int| 0 <= j < i ==> entries[i].cost < (#[trigger] entries[j]).cost
}

impl Frontier {
    /// The waiting entries, in the order in which they came.
    pub closed spec fn view(&self) -> Seq<Entry> {
        self.entries@
    }

    pub fn new() -> (r: Frontier)
        ensures
            r@ == Seq::<Entry>::empty(),
    {
        Frontier { entries: Vec::new() }
    }

    pub fn len(&self) -> (r: usize)
        ensures
            r == self@.len(),
    {
        self.entries.len()
    }

    pub fn is_empty(&self) -> (r: bool)
        ensures
            r == (self@.len() == 0),
    {
        self.entries.len() == 0
    }

    pub fn push(&mut self, entry: Entry)
        ensures
            final(self)@ == old(self)@.push(entry),
    {
        self.entries.push(entry);
    }

    /// Takes out the first entry of least cost; `None` when nothing waits.
    pub fn pop(&mut self) -> (r: Option<Entry>)
        ensures
            match r {
                None => old(self)@.len() == 0 && final(self)@ == old(self)@,
                Some(e) => exists|i: int|
                    is_first_least(old(self)@, i) && e == old(self)@[i] && final(self)@ == old(
                        self,
                    )@.remove(i),
            },
    {
        if self.entries.len() == 0 {
            return None;
        }
        let mut best: usize = 0;
        let mut k: usize = 1;
        while k < self.entries.len()
            invariant
                0 <= best < k <= self.entries.len(),
                forall|j: int| 0 <= j < k ==> self.entries[best as int].cost <= (
                #[trigger] self.entries[j]).cost,
                forall|j: int| 0 <= j < best ==> self.entries[best as int].cost < (
                #[trigger] self.entries[j]).cost,
            decreases self.entries.len() - k,
        {
            if self.entries[k].cost < self.entries[best].cost {
                best = k;
            }
            k += 1;
        }
        let e = self.entries.remove(best);
        assert(is_first_least(old(self)@, best as int) && e == old(self)@[best as int] && self@
            == old(self)@.remove(best as int));
        Some(e)
    }
}

} // verus!
