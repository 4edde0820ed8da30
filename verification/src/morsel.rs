//! Morsels: the unit of work of the executor.

use vstd::prelude::*;

verus! {

/// The greatest number of cells in a morsel.
pub const MORSEL_SIZE: usize = 1024;

/// A run of cells of a region.
#[derive(Debug)]
pub struct Morsel {
    pub data: Vec<u64>,
    /// The region that the cells come from.
    pub region_id: u64,
    /// The place of the first cell in that region.
    pub offset: usize,
    /// The number of cells.
    pub len: usize,
    /// The memory node that the cells lie on, where it is known.
    pub numa_node: Option<u32>,
}

impl Morsel {
    /// The length is that of the data, and at most a morsel's.
    pub open spec fn wf(&self) -> bool {
        self.len == self.data.len() && self.len <= MORSEL_SIZE
    }

    /// Takes the first cells of a slice, as many as a morsel holds.
    pub fn new(region_id: u64, offset: usize, cells: &[u64]) -> (m: Self)
        ensures
            m.wf(),
            m.data@ == cells@.take(if cells@.len() < MORSEL_SIZE {
                cells@.len() as int
            } else {
                MORSEL_SIZE as int
            }),
            m.region_id == region_id,
            m.offset == offset,
            m.numa_node == Some(0u32),
    {
        let len: usize = if cells.len() < MORSEL_SIZE {
            cells.len()
        } else {
            MORSEL_SIZE
        };
        let mut data: Vec<u64> = Vec::new();
        let mut i: usize = 0;
        while i < len
            invariant
                i <= len <= cells@.len(),
                data@ == cells@.take(i as int),
            decreases len - i,
        {
            data.push(cells[i]);
            proof {
                assert(cells@.take(i + 1) =~= cells@.take(i as int).push(cells@[i as int]));
            }
            i = i + 1;
        }
        Morsel { data, region_id, offset, len, numa_node: Some(0) }
    }

    /// The cells.
    pub fn as_slice(&self) -> (s: &[u64])
        ensures
            s@ == self.data@,
    {
        self.data.as_slice()
    }

    pub fn len(&self) -> (n: usize)
        ensures
            n == self.len,
    {
        self.len
    }

    pub fn is_empty(&self) -> (b: bool)
        ensures
            b == (self.len == 0),
    {
        self.len == 0
    }
}

impl Clone for Morsel {
    fn clone(&self) -> (m: Self)
        ensures
            m.data@ == self.data@,
            m.region_id == self.region_id,
            m.offset == self.offset,
            m.len == self.len,
            m.numa_node == self.numa_node,
    {
        let data: Vec<u64> = self.data.clone();
        proof {
            assert(data@ =~= self.data@);
        }
        Morsel { data, region_id: self.region_id, offset: self.offset, len: self.len, numa_node: self.numa_node }
    }
}

impl Default for Morsel {
    fn default() -> (m: Self)
        ensures
            m.wf(),
            m.data@ == Seq::<u64>::empty(),
            m.region_id == 0,
            m.offset == 0,
            m.numa_node is None,
    {
        Morsel { data: Vec::new(), region_id: 0, offset: 0, len: 0, numa_node: None }
    }
}

/// How many cells the first `k` morsels cover when a region of `n` cells is cut
/// from its start on.
pub open spec fn covered(n: nat, k: nat) -> nat
    decreases k,
{
    if k == 0 {
        0
    } else {
        let before = covered(n, (k - 1) as nat);
        before + (if n - before < MORSEL_SIZE {
            (n - before) as nat
        } else {
            MORSEL_SIZE as nat
        })
    }
}

/// Cut morsel after morsel, every one but the last is full, so the `k`-th
/// begins at `k` times the morsel size as long as cells are left.
pub proof fn morsels_cover_without_gaps(n: nat, k: nat)
    ensures
        covered(n, k) == (if k * MORSEL_SIZE <= n {
            k * MORSEL_SIZE
        } else {
            n as int
        }),
    decreases k,
{
    if k > 0 {
        morsels_cover_without_gaps(n, (k - 1) as nat);
        assert((k - 1) * MORSEL_SIZE + MORSEL_SIZE == k * MORSEL_SIZE) by (nonlinear_arith)
            requires
                k > 0,
        ;
    }
}

} // verus!
