//! An almanac that maps ranges of numbers onto one another.

use vstd::prelude::*;

verus! {

pub struct Day5;

/// A range of `len` numbers and one more, from `source_start` on, that is
/// mapped onto the numbers from `dest_start` on.
pub struct Range {
    pub dest_start: u32,
    pub source_start: u32,
    pub len: u32,
}

impl Range {
    /// Where the range maps `n`: a number from the start of the source up
    /// to its start and length goes as far behind the start of the
    /// destination as it lies behind the start of the source, reduced
    /// modulo 2^32; any other number stays.
    pub open spec fn mapped(&self, n: u32) -> u32 {
        if self.source_start <= n && n <= self.source_start + self.len {
            ((self.dest_start + (n - self.source_start)) % 0x1_0000_0000) as u32
        } else {
            n
        }
    }

    pub fn map(&self, n: u32) -> (r: u32)
        ensures
            r == self.mapped(n),
    {
        if self.source_start <= n && n as u64 <= self.source_start as u64 + self.len as u64 {
            ((self.dest_start as u64 + (n - self.source_start) as u64) % 0x1_0000_0000) as u32
        } else {
            n
        }
    }
}

} // verus!
