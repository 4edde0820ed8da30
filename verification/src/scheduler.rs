//! Running kernels over registered regions.

use crate::error::Error;
use crate::kernel::{
    is_kernel_table, kernel_answer, no_result, KernelParams, KernelResult, MemoryTier, Operator,
};
use crate::plan::{lower_to_kernels, lowered, KernelInvocation, LogicalPlan, PlanResult, RegionId};
use crate::text::{append_text, decimal, decimal_chars, string_of};
use std::collections::HashMap;
use vstd::prelude::*;

verus! {

/// Cells and the tier that they lie on.
#[derive(Debug)]
pub struct Region {
    pub id: RegionId,
    pub tier: MemoryTier,
    pub cells: Vec<u64>,
}

impl Region {
    pub fn cell_count(&self) -> (n: usize)
        ensures
            n == self.cells.len(),
    {
        self.cells.len()
    }
}

/// The error for a region that is not registered.
pub open spec fn no_region_text(id: RegionId) -> Seq<char> {
    "region "@ + decimal(id as nat)
}

/// The error for an operator without a kernel on a tier.
pub open spec fn no_kernel_on_tier_text(op: Operator, tier: MemoryTier) -> Seq<char> {
    "no kernel for operator "@ + op.text() + " on tier "@ + tier.text()
}

fn no_region(id: RegionId) -> (e: Error)
    ensures
        e is NotFound,
        e->NotFound_0@ == no_region_text(id),
{
    let mut text: Vec<char> = Vec::new();
    append_text(&mut text, "region ");
    let mut number: Vec<char> = decimal_chars(id);
    text.append(&mut number);
    proof {
        assert(text@ =~= no_region_text(id));
    }
    Error::NotFound(string_of(&text))
}

/// The regions that kernels may read.
pub struct Scheduler {
    regions: HashMap<RegionId, Region>,
}

/// The arguments with the cell count cut down to what a region holds.
pub open spec fn clipped(params: KernelParams, region: Region) -> KernelParams {
    KernelParams {
        cell_count: if params.cell_count < region.cells.len() {
            params.cell_count
        } else {
            region.cells.len()
        },
        ..params
    }
}

/// What a kernel run on registered regions gives: nothing where the region or
/// the kernel is missing.
pub open spec fn invocation_answer<K: Fn(Operator, MemoryTier, &Vec<u64>, KernelParams) -> Option<KernelResult>>(
    regions: Map<RegionId, Region>,
    k: K,
    inv: KernelInvocation,
) -> Option<KernelResult> {
    if regions.dom().contains(inv.region_id) {
        let region = regions[inv.region_id];
        kernel_answer(k, inv.operator, region.tier, &region.cells, clipped(inv.params, region))
    } else {
        None
    }
}

/// What a plan gives for one of its kernel runs: one that cannot be carried out,
/// as where its region is not registered, gives an empty result.
pub open spec fn plan_step<K: Fn(Operator, MemoryTier, &Vec<u64>, KernelParams) -> Option<KernelResult>>(
    regions: Map<RegionId, Region>,
    k: K,
    inv: KernelInvocation,
) -> KernelResult {
    match invocation_answer(regions, k, inv) {
        Some(r) => r,
        None => no_result(),
    }
}

/// Why a kernel run fails.
pub open spec fn invocation_error<K: Fn(Operator, MemoryTier, &Vec<u64>, KernelParams) -> Option<KernelResult>>(
    regions: Map<RegionId, Region>,
    k: K,
    inv: KernelInvocation,
    e: Error,
) -> bool {
    if regions.dom().contains(inv.region_id) {
        &&& e is Unsupported
        &&& e->Unsupported_0@ == no_kernel_on_tier_text(inv.operator, regions[inv.region_id].tier)
    } else {
        &&& e is NotFound
        &&& e->NotFound_0@ == no_region_text(inv.region_id)
    }
}

impl Scheduler {
    /// The registered regions.
    pub closed spec fn view(&self) -> Map<RegionId, Region> {
        self.regions@
    }

    /// Each region stands under its own number.
    pub open spec fn wf(&self) -> bool {
        &&& self@.dom().finite()
        &&& forall|id: RegionId| #[trigger] self@.dom().contains(id) ==> self@[id].id == id
    }

    pub fn new() -> (s: Self)
        ensures
            s.wf(),
            s@ == Map::<RegionId, Region>::empty(),
    {
        Scheduler { regions: HashMap::new() }
    }

    /// Registers a region, in place of one of the same number.
    pub fn register_region(&mut self, region: Region)
        requires
            old(self).wf(),
        ensures
            final(self).wf(),
            final(self)@ == old(self)@.insert(region.id, region),
    {
        let id: RegionId = region.id;
        self.regions.insert(id, region);
    }

    /// The region of a number.
    pub fn get_region(&self, id: RegionId) -> (r: Option<&Region>)
        ensures
            match r {
                Some(region) => self@.dom().contains(id) && *region == self@[id],
                None => !self@.dom().contains(id),
            },
    {
        self.regions.get(&id)
    }

    /// Runs a kernel on the region that it names. No more cells are read than
    /// the region holds.
    pub fn execute_invocation<K: Fn(Operator, MemoryTier, &Vec<u64>, KernelParams) -> Option<KernelResult>>(
        &self,
        inv: &KernelInvocation,
        kernels: &K,
    ) -> (r: Result<KernelResult, Error>)
        requires
            is_kernel_table(*kernels),
        ensures
            match r {
                Ok(result) => invocation_answer(self@, *kernels, *inv) == Some(result),
                Err(e) => invocation_answer(self@, *kernels, *inv) is None && invocation_error(
                    self@,
                    *kernels,
                    *inv,
                    e,
                ),
            },
    {
        let region: &Region = match self.get_region(inv.region_id) {
            Some(region) => region,
            None => {
                return Err(no_region(inv.region_id));
            },
        };
        let mut params: KernelParams = inv.params;
        if params.cell_count >= region.cells.len() {
            params.cell_count = region.cells.len();
        }
        match kernels(inv.operator, region.tier, &region.cells, params) {
            Some(result) => Ok(result),
            None => {
                let mut text: Vec<char> = Vec::new();
                append_text(&mut text, "no kernel for operator ");
                append_text(&mut text, inv.operator.name());
                append_text(&mut text, " on tier ");
                append_text(&mut text, region.tier.name());
                proof {
                    assert(text@ =~= no_kernel_on_tier_text(inv.operator, region.tier));
                }
                Err(Error::Unsupported(string_of(&text)))
            },
        }
    }

    /// Runs a plan: one result for each kernel run that it comes down to.
    pub fn execute_plan<K: Fn(Operator, MemoryTier, &Vec<u64>, KernelParams) -> Option<KernelResult>>(
        &self,
        plan: &LogicalPlan,
        kernels: &K,
    ) -> (r: Result<PlanResult, Error>)
        requires
            is_kernel_table(*kernels),
        ensures
            r matches Ok(p) && p.kernel_results@ == lowered(plan.root).map_values(
                |inv: KernelInvocation| plan_step(self@, *kernels, inv),
            ),
    {
        let invocations: Vec<KernelInvocation> = lower_to_kernels(plan);
        let mut results: Vec<KernelResult> = Vec::new();
        let mut i: usize = 0;
        while i < invocations.len()
            invariant
                is_kernel_table(*kernels),
                i <= invocations.len(),
                results.len() == i,
                forall|k: int| 0 <= k < i ==> #[trigger] results@[k] == plan_step(self@, *kernels, invocations@[k]),
            decreases invocations.len() - i,
        {
            let inv: KernelInvocation = invocations[i];
            match self.execute_invocation(&inv, kernels) {
                Ok(r) => {
                    results.push(r);
                },
                Err(_) => {
                    results.push(KernelResult::default());
                },
            }
            i = i + 1;
        }
        proof {
            assert(results@ =~= lowered(plan.root).map_values(
                |inv: KernelInvocation| plan_step(self@, *kernels, inv),
            ));
        }
        Ok(PlanResult { kernel_results: results })
    }

    /// Runs one operator over all cells of a region.
    fn run_on_region<K: Fn(Operator, MemoryTier, &Vec<u64>, KernelParams) -> Option<KernelResult>>(
        &self,
        region_id: RegionId,
        operator: Operator,
        target: u64,
        max_distance: u32,
        kernels: &K,
    ) -> (r: Result<KernelResult, Error>)
        requires
            is_kernel_table(*kernels),
        ensures
            whole_region_outcome(self@, *kernels, region_id, operator, target, max_distance, r),
    {
        let (tier, cell_count): (MemoryTier, usize) = match self.get_region(region_id) {
            Some(region) => (region.tier, region.cell_count()),
            None => {
                return Err(no_region(region_id));
            },
        };
        let inv: KernelInvocation = KernelInvocation {
            operator,
            tier,
            region_id,
            params: KernelParams { target_u64: target, max_distance, cell_count },
        };
        self.execute_invocation(&inv, kernels)
    }

    /// Counts the cells of a region that equal a target.
    pub fn scan_eq<K: Fn(Operator, MemoryTier, &Vec<u64>, KernelParams) -> Option<KernelResult>>(
        &self,
        region_id: RegionId,
        target: u64,
        kernels: &K,
    ) -> (r: Result<u64, Error>)
        requires
            is_kernel_table(*kernels),
        ensures
            exists|k: Result<KernelResult, Error>|
                #[trigger] whole_region_outcome(self@, *kernels, region_id, Operator::ScanEqU64, target, 0, k) && (
                match k {
                    Ok(result) => r == Ok::<u64, Error>(result.count),
                    Err(e) => r == Err::<u64, Error>(e),
                }),
    {
        let k: Result<KernelResult, Error> = self.run_on_region(region_id, Operator::ScanEqU64, target, 0, kernels);
        match k {
            Ok(result) => Ok(result.count),
            Err(e) => Err(e),
        }
    }

    /// Sums the cells of a region as doubles; the sum is a bit pattern.
    pub fn sum_f64<K: Fn(Operator, MemoryTier, &Vec<u64>, KernelParams) -> Option<KernelResult>>(
        &self,
        region_id: RegionId,
        kernels: &K,
    ) -> (r: Result<u64, Error>)
        requires
            is_kernel_table(*kernels),
        ensures
            exists|k: Result<KernelResult, Error>|
                #[trigger] whole_region_outcome(self@, *kernels, region_id, Operator::AggregateSumF64, 0, 0, k) && (
                match k {
                    Ok(result) => r == Ok::<u64, Error>(result.sum_bits),
                    Err(e) => r == Err::<u64, Error>(e),
                }),
    {
        let k: Result<KernelResult, Error> = self.run_on_region(region_id, Operator::AggregateSumF64, 0, 0, kernels);
        match k {
            Ok(result) => Ok(result.sum_bits),
            Err(e) => Err(e),
        }
    }

    /// Counts the cells of a region within a Hamming distance of a target.
    pub fn count_similar<K: Fn(Operator, MemoryTier, &Vec<u64>, KernelParams) -> Option<KernelResult>>(
        &self,
        region_id: RegionId,
        target: u64,
        max_distance: u32,
        kernels: &K,
    ) -> (r: Result<u64, Error>)
        requires
            is_kernel_table(*kernels),
        ensures
            exists|k: Result<KernelResult, Error>|
                #[trigger] whole_region_outcome(
                    self@,
                    *kernels,
                    region_id,
                    Operator::SimilarityHamming,
                    target,
                    max_distance,
                    k,
                ) && (match k {
                    Ok(result) => r == Ok::<u64, Error>(result.count),
                    Err(e) => r == Err::<u64, Error>(e),
                }),
    {
        let k: Result<KernelResult, Error> = self.run_on_region(
            region_id,
            Operator::SimilarityHamming,
            target,
            max_distance,
            kernels,
        );
        match k {
            Ok(result) => Ok(result.count),
            Err(e) => Err(e),
        }
    }

    /// How many regions are registered.
    pub fn region_count(&self) -> (n: usize)
        ensures
            n == self@.len(),
    {
        self.regions.len()
    }
}

/// What running one operator over all cells of a region gives.
pub open spec fn whole_region_outcome<
    K: Fn(Operator, MemoryTier, &Vec<u64>, KernelParams) -> Option<KernelResult>,
>(
    regions: Map<RegionId, Region>,
    k: K,
    region_id: RegionId,
    operator: Operator,
    target: u64,
    max_distance: u32,
    r: Result<KernelResult, Error>,
) -> bool {
    if regions.dom().contains(region_id) {
        let region = regions[region_id];
        let params = KernelParams { target_u64: target, max_distance, cell_count: region.cells.len() };
        match kernel_answer(k, operator, region.tier, &region.cells, params) {
            Some(result) => r == Ok::<KernelResult, Error>(result),
            None => r matches Err(e) && e is Unsupported && e->Unsupported_0@ == no_kernel_on_tier_text(
                operator,
                region.tier,
            ),
        }
    } else {
        r matches Err(e) && e is NotFound && e->NotFound_0@ == no_region_text(region_id)
    }
}

/// A plan over regions that are not registered gives empty results, one for
/// each kernel run, and never fails.
pub proof fn plan_without_regions_is_empty<
    K: Fn(Operator, MemoryTier, &Vec<u64>, KernelParams) -> Option<KernelResult>,
>(k: K, inv: KernelInvocation)
    ensures
        plan_step(Map::<RegionId, Region>::empty(), k, inv) == no_result(),
{
}

} // verus!
