//! Logical plans and the kernel invocations that they come down to.

use crate::kernel::{no_params, KernelParams, KernelResult, MemoryTier, Operator};
use vstd::prelude::*;

verus! {

/// The number of a region; zero stands for the output of an earlier step.
pub type RegionId = u64;

/// A node of a logical plan.
#[derive(Debug)]
pub enum PlanNode {
    /// Runs an operator over a region.
    Scan { region_id: RegionId, operator: Operator, params: KernelParams },
    /// Aggregates the output of a child.
    Aggregate { child: Box<PlanNode>, operator: Operator },
    /// Joins the outputs of two children.
    Join { left: Box<PlanNode>, right: Box<PlanNode>, operator: Operator },
    /// Writes the output of a child to a region.
    Materialize { child: Box<PlanNode>, target_region: RegionId },
}

/// A logical plan.
#[derive(Debug)]
pub struct LogicalPlan {
    pub root: PlanNode,
}

impl LogicalPlan {
    pub fn new(root: PlanNode) -> (p: Self)
        ensures
            p.root == root,
    {
        LogicalPlan { root }
    }
}

/// One run of a kernel.
#[derive(Clone, Copy, Debug, PartialEq, Eq, Structural)]
pub struct KernelInvocation {
    pub operator: Operator,
    pub tier: MemoryTier,
    pub region_id: RegionId,
    pub params: KernelParams,
}

/// What running a plan gave.
#[derive(Debug, Clone)]
pub struct PlanResult {
    pub kernel_results: Vec<KernelResult>,
}

impl Default for PlanResult {
    fn default() -> (r: Self)
        ensures
            r.kernel_results@ == Seq::<KernelResult>::empty(),
    {
        PlanResult { kernel_results: Vec::new() }
    }
}

/// The run of an operator that reads what earlier steps put out.
pub open spec fn on_earlier_output(operator: Operator) -> KernelInvocation {
    KernelInvocation { operator, tier: MemoryTier::L3, region_id: 0, params: no_params() }
}

/// The kernel runs of a node: those of its children first, from left to right,
/// then its own. Writing to a region needs no kernel.
pub open spec fn lowered(node: PlanNode) -> Seq<KernelInvocation>
    decreases node,
{
    match node {
        PlanNode::Scan { region_id, operator, params } => seq![
            KernelInvocation { operator, tier: MemoryTier::L3, region_id, params },
        ],
        PlanNode::Aggregate { child, operator } => lowered(*child).push(on_earlier_output(operator)),
        PlanNode::Join { left, right, operator } => (lowered(*left) + lowered(*right)).push(
            on_earlier_output(operator),
        ),
        PlanNode::Materialize { child, target_region } => lowered(*child),
    }
}

/// How many nodes other than materializations a plan holds.
pub open spec fn step_count(node: PlanNode) -> nat
    decreases node,
{
    match node {
        PlanNode::Scan { .. } => 1,
        PlanNode::Aggregate { child, .. } => step_count(*child) + 1,
        PlanNode::Join { left, right, .. } => step_count(*left) + step_count(*right) + 1,
        PlanNode::Materialize { child, .. } => step_count(*child),
    }
}

/// The kernel runs of a plan, in the order in which they depend on each other.
pub fn lower_to_kernels(plan: &LogicalPlan) -> (invocations: Vec<KernelInvocation>)
    ensures
        invocations@ == lowered(plan.root),
{
    let mut invocations: Vec<KernelInvocation> = Vec::new();
    lower_node(&plan.root, &mut invocations);
    proof {
        assert(Seq::<KernelInvocation>::empty() + lowered(plan.root) =~= lowered(plan.root));
    }
    invocations
}

fn lower_node(node: &PlanNode, invocations: &mut Vec<KernelInvocation>)
    ensures
        final(invocations)@ == old(invocations)@ + lowered(*node),
    decreases node,
{
    let ghost before = invocations@;
    match node {
        PlanNode::Scan { region_id, operator, params } => {
            invocations.push(
                KernelInvocation { operator: *operator, tier: MemoryTier::L3, region_id: *region_id, params: *params },
            );
        },
        PlanNode::Aggregate { child, operator } => {
            lower_node(child, invocations);
            invocations.push(
                KernelInvocation {
                    operator: *operator,
                    tier: MemoryTier::L3,
                    region_id: 0,
                    params: KernelParams::default(),
                },
            );
        },
        PlanNode::Join { left, right, operator } => {
            lower_node(left, invocations);
            lower_node(right, invocations);
            invocations.push(
                KernelInvocation {
                    operator: *operator,
                    tier: MemoryTier::L3,
                    region_id: 0,
                    params: KernelParams::default(),
                },
            );
        },
        PlanNode::Materialize { child, target_region: _ } => {
            lower_node(child, invocations);
        },
    }
    proof {
        assert(invocations@ =~= before + lowered(*node));
    }
}

/// A plan comes down to one kernel run for every node but materializations.
pub proof fn lowering_has_one_run_per_step(node: PlanNode)
    ensures
        lowered(node).len() == step_count(node),
        lowered(node).len() >= 1,
    decreases node,
{
    match node {
        PlanNode::Scan { .. } => {},
        PlanNode::Aggregate { child, .. } => {
            lowering_has_one_run_per_step(*child);
        },
        PlanNode::Join { left, right, .. } => {
            lowering_has_one_run_per_step(*left);
            lowering_has_one_run_per_step(*right);
        },
        PlanNode::Materialize { child, .. } => {
            lowering_has_one_run_per_step(*child);
        },
    }
}

/// Every kernel run of a plan selects on the same tier.
pub proof fn lowering_uses_one_tier(node: PlanNode)
    ensures
        forall|i: int| 0 <= i < lowered(node).len() ==> (#[trigger] lowered(node)[i]).tier == MemoryTier::L3,
    decreases node,
{
    match node {
        PlanNode::Scan { .. } => {},
        PlanNode::Aggregate { child, .. } => {
            lowering_uses_one_tier(*child);
        },
        PlanNode::Join { left, right, .. } => {
            lowering_uses_one_tier(*left);
            lowering_uses_one_tier(*right);
        },
        PlanNode::Materialize { child, .. } => {
            lowering_uses_one_tier(*child);
        },
    }
}

} // verus!
