//! Kernels: what is run over the cells of a morsel or a region.

use vstd::prelude::*;

verus! {

/// What a kernel computes.
#[derive(Clone, Copy, Debug, PartialEq, Eq, Structural)]
pub enum Operator {
    ScanEqU64,
    ScanRangeU64,
    ScanMultiPredicate,
    SimilarityHamming,
    HashProbe,
    LeapfrogJoin,
    AggregateSumF64,
    AggregateCountDistinct,
    HashBuild,
}

/// Where the cells lie.
#[derive(Clone, Copy, Debug, PartialEq, Eq, Structural)]
pub enum MemoryTier {
    L3,
    Ddr5,
    Cxl,
}

/// Arguments of a kernel.
#[derive(Clone, Copy, Debug, PartialEq, Eq, Structural)]
pub struct KernelParams {
    /// The cell to look for.
    pub target_u64: u64,
    /// The greatest Hamming distance that still counts.
    pub max_distance: u32,
    /// How many cells to read.
    pub cell_count: usize,
}

impl Default for KernelParams {
    fn default() -> (p: Self)
        ensures
            p == no_params(),
    {
        KernelParams { target_u64: 0, max_distance: 0, cell_count: 0 }
    }
}

/// Arguments that are all zero.
pub open spec fn no_params() -> KernelParams {
    KernelParams { target_u64: 0, max_distance: 0, cell_count: 0 }
}

/// What a kernel found.
#[derive(Clone, Copy, Debug, PartialEq, Eq, Structural)]
pub struct KernelResult {
    /// The number of cells that match, or that were read.
    pub count: u64,
    /// The sum of the cells, as the bit pattern of a double.
    pub sum_bits: u64,
}

impl Default for KernelResult {
    fn default() -> (r: Self)
        ensures
            r == no_result(),
    {
        KernelResult { count: 0, sum_bits: 0 }
    }
}

/// The result of a kernel that was not run.
pub open spec fn no_result() -> KernelResult {
    KernelResult { count: 0, sum_bits: 0 }
}

/// What the kernels `k` answer for an operator on a tier: a result, or nothing
/// where no kernel is there for the two.
pub open spec fn kernel_answer<K: Fn(Operator, MemoryTier, &Vec<u64>, KernelParams) -> Option<KernelResult>>(
    k: K,
    op: Operator,
    tier: MemoryTier,
    cells: &Vec<u64>,
    params: KernelParams,
) -> Option<KernelResult> {
    choose|r: Option<KernelResult>| call_ensures(k, (op, tier, cells, params), r)
}

/// `k` is a total function of its arguments on as many cells as it is told to read.
pub open spec fn is_kernel_table<K: Fn(Operator, MemoryTier, &Vec<u64>, KernelParams) -> Option<KernelResult>>(
    k: K,
) -> bool {
    &&& forall|op: Operator, tier: MemoryTier, cells: &Vec<u64>, params: KernelParams|
        params.cell_count <= cells.len() ==> #[trigger] call_requires(k, (op, tier, cells, params))
    &&& forall|op: Operator, tier: MemoryTier, cells: &Vec<u64>, params: KernelParams, r: Option<KernelResult>|
        #[trigger] call_ensures(k, (op, tier, cells, params), r) ==> r == kernel_answer(k, op, tier, cells, params)
}

/// The operator passes on the cells that it matches and drops the others.
pub open spec fn is_filter(op: Operator) -> bool {
    match op {
        Operator::ScanEqU64 => true,
        Operator::ScanRangeU64 => true,
        Operator::ScanMultiPredicate => true,
        Operator::SimilarityHamming => true,
        Operator::HashProbe => true,
        Operator::LeapfrogJoin => true,
        Operator::AggregateSumF64 => false,
        Operator::AggregateCountDistinct => false,
        Operator::HashBuild => false,
    }
}

impl Operator {
    pub open spec fn text(&self) -> Seq<char> {
        match self {
            Operator::ScanEqU64 => "ScanEqU64"@,
            Operator::ScanRangeU64 => "ScanRangeU64"@,
            Operator::ScanMultiPredicate => "ScanMultiPredicate"@,
            Operator::SimilarityHamming => "SimilarityHamming"@,
            Operator::HashProbe => "HashProbe"@,
            Operator::LeapfrogJoin => "LeapfrogJoin"@,
            Operator::AggregateSumF64 => "AggregateSumF64"@,
            Operator::AggregateCountDistinct => "AggregateCountDistinct"@,
            Operator::HashBuild => "HashBuild"@,
        }
    }

    /// The operator's name.
    pub fn name(&self) -> (s: &'static str)
        ensures
            s@ == self.text(),
    {
        match self {
            Operator::ScanEqU64 => "ScanEqU64",
            Operator::ScanRangeU64 => "ScanRangeU64",
            Operator::ScanMultiPredicate => "ScanMultiPredicate",
            Operator::SimilarityHamming => "SimilarityHamming",
            Operator::HashProbe => "HashProbe",
            Operator::LeapfrogJoin => "LeapfrogJoin",
            Operator::AggregateSumF64 => "AggregateSumF64",
            Operator::AggregateCountDistinct => "AggregateCountDistinct",
            Operator::HashBuild => "HashBuild",
        }
    }

    /// Whether the operator drops cells.
    pub fn filters(&self) -> (b: bool)
        ensures
            b == is_filter(*self),
    {
        match self {
            Operator::ScanEqU64
            | Operator::ScanRangeU64
            | Operator::ScanMultiPredicate
            | Operator::SimilarityHamming
            | Operator::HashProbe
            | Operator::LeapfrogJoin => true,
            Operator::AggregateSumF64 | Operator::AggregateCountDistinct | Operator::HashBuild => false,
        }
    }
}

impl MemoryTier {
    pub open spec fn text(&self) -> Seq<char> {
        match self {
            MemoryTier::L3 => "L3"@,
            MemoryTier::Ddr5 => "DDR5"@,
            MemoryTier::Cxl => "CXL"@,
        }
    }

    /// The tier's name.
    pub fn name(&self) -> (s: &'static str)
        ensures
            s@ == self.text(),
    {
        match self {
            MemoryTier::L3 => "L3",
            MemoryTier::Ddr5 => "DDR5",
            MemoryTier::Cxl => "CXL",
        }
    }
}

} // verus!
