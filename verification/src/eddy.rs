//! Routing of morsels through operators by how selective they have been.

use crate::error::{Error, Fail};
use crate::float_bits::{arith, float_eq, float_lt, is_arith, is_nan, less, sort_rank, total_rank, FloatOp, ONE_BITS};
use crate::kernel::{
    is_filter, is_kernel_table, kernel_answer, KernelParams, KernelResult, MemoryTier, Operator,
};
use crate::morsel::Morsel;
use crate::order::{key_rows, lex_lt, precedes, stable_order};
use crate::pipeline::{morsel_params, no_kernel_text, write_no_kernel};
use crate::text::{append_text, decimal, decimal_chars, string_of};
use vstd::prelude::*;

verus! {

/// The bit pattern of `0.1`, the learning rate to use where none is asked for.
pub const DEFAULT_LEARNING_RATE: u64 = 0x3FB9_9999_9999_999A;

/// A double held between zero and one; a NaN stays.
pub open spec fn clamped_to_unit(x: u64) -> u64 {
    if float_lt(x, 0) {
        0
    } else if float_lt(ONE_BITS, x) {
        ONE_BITS
    } else {
        x
    }
}

fn clamp_to_unit(x: u64) -> (r: u64)
    ensures
        r == clamped_to_unit(x),
{
    if less(x, 0) {
        0
    } else if less(ONE_BITS, x) {
        ONE_BITS
    } else {
        x
    }
}

/// The share of cells that an operator passed on, between zero and one.
pub open spec fn passed_share<F: Fn(FloatOp, u64, u64) -> u64>(f: F, input: u64, output: u64) -> u64 {
    clamped_to_unit(
        arith(f, FloatOp::Div, arith(f, FloatOp::FromU64, output, 0), arith(f, FloatOp::FromU64, input, 0)),
    )
}

/// The estimate moved towards a new share by the learning rate.
pub open spec fn moved_estimate<F: Fn(FloatOp, u64, u64) -> u64>(f: F, estimate: u64, share: u64, lr: u64) -> u64 {
    arith(
        f,
        FloatOp::Add,
        arith(f, FloatOp::Mul, arith(f, FloatOp::Sub, ONE_BITS, lr), estimate),
        arith(f, FloatOp::Mul, lr, share),
    )
}

/// An operator and what has been seen of it.
#[derive(Debug, Clone, Copy)]
pub struct EddyOperator {
    pub operator: Operator,
    /// The estimated share of cells that it passes on, as the bit pattern of a double.
    pub selectivity: u64,
    pub morsels_processed: u64,
    pub cells_output: u64,
}

/// An operator of which nothing has been seen: it is taken to pass on everything.
pub open spec fn fresh(operator: Operator) -> EddyOperator {
    EddyOperator { operator, selectivity: ONE_BITS, morsels_processed: 0, cells_output: 0 }
}

/// An operator after it has turned `input` cells into `output`. Empty input
/// counts as a morsel but tells nothing of the selectivity.
pub open spec fn after_observation<F: Fn(FloatOp, u64, u64) -> u64>(
    f: F,
    op: EddyOperator,
    input: u64,
    output: u64,
    lr: u64,
) -> EddyOperator {
    EddyOperator {
        operator: op.operator,
        selectivity: if input == 0 {
            op.selectivity
        } else {
            moved_estimate(f, op.selectivity, passed_share(f, input, output), lr)
        },
        morsels_processed: (op.morsels_processed + 1) as u64,
        cells_output: (op.cells_output + output) as u64,
    }
}

impl EddyOperator {
    pub fn new(operator: Operator) -> (e: Self)
        ensures
            e == fresh(operator),
    {
        EddyOperator { operator, selectivity: ONE_BITS, morsels_processed: 0, cells_output: 0 }
    }

    /// Notes that the operator turned `input_cells` cells into `output_cells`.
    pub fn observe<F: Fn(FloatOp, u64, u64) -> u64>(&mut self, input_cells: u64, output_cells: u64, lr: u64, fpu: &F)
        requires
            is_arith(*fpu),
            old(self).morsels_processed < u64::MAX,
            old(self).cells_output + output_cells <= u64::MAX,
        ensures
            *final(self) == after_observation(*fpu, *old(self), input_cells, output_cells, lr),
    {
        self.morsels_processed = self.morsels_processed + 1;
        self.cells_output = self.cells_output + output_cells;
        if input_cells == 0 {
            return;
        }
        let top: u64 = fpu(FloatOp::FromU64, output_cells, 0);
        let bottom: u64 = fpu(FloatOp::FromU64, input_cells, 0);
        let share: u64 = clamp_to_unit(fpu(FloatOp::Div, top, bottom));
        let kept: u64 = fpu(FloatOp::Sub, ONE_BITS, lr);
        let old_part: u64 = fpu(FloatOp::Mul, kept, self.selectivity);
        let new_part: u64 = fpu(FloatOp::Mul, lr, share);
        self.selectivity = fpu(FloatOp::Add, old_part, new_part);
    }

    /// Forgets what has been seen.
    pub fn reset(&mut self)
        ensures
            *final(self) == fresh(old(self).operator),
    {
        self.selectivity = ONE_BITS;
        self.morsels_processed = 0;
        self.cells_output = 0;
    }
}

/// The number of cells that an operator passed on, for its selectivity: an
/// operator that does not filter passes on all of them.
pub open spec fn cells_passed(op: Operator, result: KernelResult, input_cells: u64) -> u64 {
    if is_filter(op) {
        result.count
    } else {
        input_cells
    }
}

pub fn selectivity_output_cells(op: Operator, result: &KernelResult, input_cells: u64) -> (n: u64)
    ensures
        n == cells_passed(op, *result, input_cells),
{
    if op.filters() {
        result.count
    } else {
        input_cells
    }
}

/// The number of cells that reach the operator after `op`: those that a filter
/// let pass, else as many as reached `op`.
pub open spec fn cells_reaching_next(op: Operator, result: KernelResult, current_cells: u64) -> u64 {
    if is_filter(op) {
        result.count
    } else {
        current_cells
    }
}

pub fn next_stage_cells(op: Operator, result: &KernelResult, current_cells: u64, _morsel_len: u64) -> (n: u64)
    ensures
        n == cells_reaching_next(op, *result, current_cells),
{
    if op.filters() {
        result.count
    } else {
        current_cells
    }
}

/// The operator, among the first `n` that are not yet applied, with the least
/// selectivity; of several, the first.
pub open spec fn most_selective(ops: Seq<EddyOperator>, applied: Seq<bool>, n: int) -> Option<int>
    decreases n,
{
    if n <= 0 {
        None
    } else {
        let best = most_selective(ops, applied, n - 1);
        if applied[n - 1] {
            best
        } else {
            match best {
                None => Some(n - 1),
                Some(b) => if float_lt(ops[n - 1].selectivity, ops[b].selectivity) {
                    Some(n - 1)
                } else {
                    Some(b)
                },
            }
        }
    }
}

/// The number of operators not yet applied.
pub open spec fn waiting(applied: Seq<bool>) -> nat
    decreases applied.len(),
{
    if applied.len() == 0 {
        0
    } else {
        waiting(applied.drop_last()) + (if applied.last() {
            0nat
        } else {
            1nat
        })
    }
}

/// What routing a morsel leaves behind: the operators, which of them were
/// applied, the results in the order in which they came, and the operator without
/// a kernel that ended it, if one did.
pub struct Routed {
    pub operators: Seq<EddyOperator>,
    pub applied: Seq<bool>,
    pub results: Seq<KernelResult>,
    pub missing: Option<Operator>,
}

/// Routes a morsel on from a given state. While cells are left, the most
/// selective operator that is not yet applied comes next. One without a kernel
/// ends the routing.
pub open spec fn routed<
    F: Fn(FloatOp, u64, u64) -> u64,
    K: Fn(Operator, MemoryTier, &Vec<u64>, KernelParams) -> Option<KernelResult>,
>(f: F, k: K, lr: u64, morsel: Morsel, params: KernelParams, current: u64, state: Routed) -> Routed
    decreases waiting(state.applied),
{
    match most_selective(state.operators, state.applied, state.applied.len() as int) {
        None => state,
        Some(i) => if current == 0 || !(waiting(state.applied.update(i, true)) < waiting(state.applied)) {
            state
        } else {
            let op = state.operators[i].operator;
            match kernel_answer(k, op, MemoryTier::L3, &morsel.data, morsel_params(params, morsel)) {
                None => Routed { missing: Some(op), ..state },
                Some(result) => routed(
                    f,
                    k,
                    lr,
                    morsel,
                    params,
                    cells_reaching_next(op, result, current),
                    Routed {
                        operators: state.operators.update(
                            i,
                            after_observation(
                                f,
                                state.operators[i],
                                current,
                                cells_passed(op, result, morsel.len as u64),
                                lr,
                            ),
                        ),
                        applied: state.applied.update(i, true),
                        results: state.results.push(result),
                        missing: state.missing,
                    },
                ),
            }
        },
    }
}

proof fn lemma_waiting_update(applied: Seq<bool>, i: int)
    requires
        0 <= i < applied.len(),
        !applied[i],
    ensures
        waiting(applied.update(i, true)) + 1 == waiting(applied),
    decreases applied.len(),
{
    let now = applied.update(i, true);
    if i == applied.len() - 1 {
        assert(now.drop_last() =~= applied.drop_last());
    } else {
        lemma_waiting_update(applied.drop_last(), i);
        assert(now.drop_last() =~= applied.drop_last().update(i, true));
    }
}

proof fn lemma_most_selective(ops: Seq<EddyOperator>, applied: Seq<bool>, n: int)
    requires
        0 <= n <= applied.len(),
    ensures
        match most_selective(ops, applied, n) {
            Some(i) => 0 <= i < n && !applied[i],
            None => forall|i: int| 0 <= i < n ==> #[trigger] applied[i],
        },
    decreases n,
{
    if n > 0 {
        lemma_most_selective(ops, applied, n - 1);
    }
}

/// A set of operators through which morsels are routed.
pub struct Eddy {
    pub operators: Vec<EddyOperator>,
    pub applied: Vec<bool>,
    pub learning_rate: u64,
}

/// The state before a morsel is routed.
pub open spec fn unrouted(operators: Seq<EddyOperator>) -> Routed {
    Routed { operators, applied: none_applied(operators.len()), results: Seq::empty(), missing: None }
}

/// The counters of an operator can take what its kernel says of a morsel.
pub open spec fn has_room<K: Fn(Operator, MemoryTier, &Vec<u64>, KernelParams) -> Option<KernelResult>>(
    op: EddyOperator,
    k: K,
    morsel: Morsel,
    params: KernelParams,
) -> bool {
    &&& op.morsels_processed < u64::MAX
    &&& kernel_answer(k, op.operator, MemoryTier::L3, &morsel.data, morsel_params(params, morsel)) matches Some(r)
        ==> op.cells_output + cells_passed(op.operator, r, morsel.len as u64) <= u64::MAX
}

/// No operator has been applied.
pub open spec fn none_applied(n: nat) -> Seq<bool> {
    Seq::new(n, |i: int| false)
}

impl Eddy {
    /// The rate at which estimates follow what is seen.
    pub open spec fn rate(&self) -> u64 {
        self.learning_rate
    }

    /// Which operators the last morsel went through.
    pub open spec fn marks(&self) -> Seq<bool> {
        self.applied@
    }

    /// There is a mark for every operator.
    pub open spec fn wf(&self) -> bool {
        self.marks().len() == self.operators.len()
    }

    /// An eddy over the given operators. The rate is held between zero and one.
    pub fn new(operators: Vec<Operator>, learning_rate: u64) -> (e: Self)
        ensures
            e.wf(),
            e.rate() == clamped_to_unit(learning_rate),
            e.operators@ == operators@.map_values(|op: Operator| fresh(op)),
            e.marks() == none_applied(operators@.len()),
    {
        let mut ops: Vec<EddyOperator> = Vec::new();
        let mut applied: Vec<bool> = Vec::new();
        let mut i: usize = 0;
        while i < operators.len()
            invariant
                i <= operators.len(),
                ops.len() == i,
                applied.len() == i,
                forall|k: int| 0 <= k < i ==> #[trigger] ops@[k] == fresh(operators@[k]),
                forall|k: int| 0 <= k < i ==> !#[trigger] applied@[k],
            decreases operators.len() - i,
        {
            ops.push(EddyOperator::new(operators[i]));
            applied.push(false);
            i = i + 1;
        }
        proof {
            assert(ops@ =~= operators@.map_values(|op: Operator| fresh(op)));
            assert(applied@ =~= none_applied(operators@.len()));
        }
        Eddy { operators: ops, applied, learning_rate: clamp_to_unit(learning_rate) }
    }

    fn clear_marks(&mut self)
        requires
            old(self).wf(),
        ensures
            final(self).wf(),
            final(self).operators == old(self).operators,
            final(self).rate() == old(self).rate(),
            final(self).marks() == none_applied(old(self).operators@.len()),
    {
        let n: usize = self.operators.len();
        let mut applied: Vec<bool> = Vec::new();
        let mut i: usize = 0;
        while i < n
            invariant
                i <= n,
                applied.len() == i,
                forall|k: int| 0 <= k < i ==> !#[trigger] applied@[k],
            decreases n - i,
        {
            applied.push(false);
            i = i + 1;
        }
        self.applied = applied;
        proof {
            assert(self.applied@ =~= none_applied(self.operators@.len()));
        }
    }

    fn pick(&self) -> (r: Option<usize>)
        requires
            self.wf(),
        ensures
            match r {
                Some(i) => most_selective(self.operators@, self.marks(), self.marks().len() as int) == Some(i as int)
                    && i < self.operators.len() && !self.marks()[i as int],
                None => most_selective(self.operators@, self.marks(), self.marks().len() as int) is None,
            },
    {
        let mut best: Option<usize> = None;
        let mut i: usize = 0;
        while i < self.operators.len()
            invariant
                self.wf(),
                i <= self.operators.len(),
                match best {
                    Some(b) => most_selective(self.operators@, self.marks(), i as int) == Some(b as int) && b < i
                        && !self.marks()[b as int],
                    None => most_selective(self.operators@, self.marks(), i as int) is None,
                },
            decreases self.operators.len() - i,
        {
            if !self.applied[i] {
                best = match best {
                    None => Some(i),
                    Some(b) => if less(self.operators[i].selectivity, self.operators[b].selectivity) {
                        Some(i)
                    } else {
                        Some(b)
                    },
                };
            }
            i = i + 1;
        }
        best
    }

    /// Routes a morsel through the operators and returns their results in the
    /// order in which they were applied. When a filter leaves no cells, the
    /// rest is skipped. An operator without a kernel ends the run with an error;
    /// what was seen of the operators before it stays.
    pub fn process_morsel<
        F: Fn(FloatOp, u64, u64) -> u64,
        K: Fn(Operator, MemoryTier, &Vec<u64>, KernelParams) -> Option<KernelResult>,
    >(&mut self, morsel: &Morsel, kernels: &K, params: &KernelParams, fpu: &F) -> (r: Result<Vec<KernelResult>, Error>)
        requires
            old(self).wf(),
            morsel.wf(),
            is_arith(*fpu),
            is_kernel_table(*kernels),
            forall|i: int|
                0 <= i < old(self).operators.len() ==> has_room(
                    #[trigger] old(self).operators@[i],
                    *kernels,
                    *morsel,
                    *params,
                ),
        ensures
            final(self).wf(),
            final(self).rate() == old(self).rate(),
            ({
                let end = routed(
                    *fpu,
                    *kernels,
                    old(self).rate(),
                    *morsel,
                    *params,
                    morsel.len as u64,
                    unrouted(old(self).operators@),
                );
                &&& final(self).operators@ == end.operators
                &&& final(self).marks() == end.applied
                &&& match end.missing {
                    Some(op) => r matches Err(e) && e@ == Fail::Unsupported(no_kernel_text(op)),
                    None => r matches Ok(results) && results@ == end.results,
                }
            }),
    {
        self.clear_marks();
        let mut results: Vec<KernelResult> = Vec::new();
        let cells: u64 = morsel.len() as u64;
        let mut current: u64 = cells;
        let mut p: KernelParams = *params;
        p.cell_count = morsel.len();
        let ghost goal = routed(
            *fpu,
            *kernels,
            self.rate(),
            *morsel,
            *params,
            current,
            unrouted(self.operators@),
        );
        proof {
            assert(results@ =~= Seq::<KernelResult>::empty());
        }
        let mut going: bool = true;
        while going
            invariant
                self.wf(),
                morsel.wf(),
                is_arith(*fpu),
                is_kernel_table(*kernels),
                self.rate() == old(self).rate(),
                cells == morsel.len,
                p == morsel_params(*params, *morsel),
                goal == routed(
                    *fpu,
                    *kernels,
                    old(self).rate(),
                    *morsel,
                    *params,
                    morsel.len as u64,
                    unrouted(old(self).operators@),
                ),
                forall|i: int|
                    0 <= i < self.operators.len() && !self.applied@[i] ==> has_room(
                        #[trigger] self.operators@[i],
                        *kernels,
                        *morsel,
                        *params,
                    ),
                ({
                    let now = Routed {
                        operators: self.operators@,
                        applied: self.applied@,
                        results: results@,
                        missing: None,
                    };
                    if going {
                        routed(*fpu, *kernels, self.rate(), *morsel, *params, current, now) == goal
                    } else {
                        now == goal
                    }
                }),
            decreases waiting(self.applied@) + (if going {
                1int
            } else {
                0
            }),
        {
            match self.pick() {
                None => {
                    going = false;
                },
                Some(i) => {
                    proof {
                        lemma_waiting_update(self.applied@, i as int);
                        assert(has_room(self.operators@[i as int], *kernels, *morsel, *params));
                    }
                    if current == 0 {
                        going = false;
                    } else {
                        let op: Operator = self.operators[i].operator;
                        match kernels(op, MemoryTier::L3, &morsel.data, p) {
                            None => {
                                return Err(Error::Unsupported(write_no_kernel(op)));
                            },
                            Some(result) => {
                                let output: u64 = selectivity_output_cells(op, &result, cells);
                                let rate: u64 = self.learning_rate;
                                let mut seen: EddyOperator = self.operators[i];
                                seen.observe(current, output, rate, fpu);
                                self.operators.set(i, seen);
                                current = next_stage_cells(op, &result, current, cells);
                                self.applied.set(i, true);
                                results.push(result);
                            },
                        }
                    }
                },
            }
        }
        Ok(results)
    }

    /// The estimates of all operators, in order, as bit patterns.
    pub fn selectivities(&self) -> (v: Vec<u64>)
        ensures
            v@ == self.operators@.map_values(|o: EddyOperator| o.selectivity),
    {
        let mut v: Vec<u64> = Vec::new();
        let mut i: usize = 0;
        while i < self.operators.len()
            invariant
                i <= self.operators.len(),
                v.len() == i,
                forall|k: int| 0 <= k < i ==> #[trigger] v@[k] == self.operators@[k].selectivity,
            decreases self.operators.len() - i,
        {
            v.push(self.operators[i].selectivity);
            i = i + 1;
        }
        proof {
            assert(v@ =~= self.operators@.map_values(|o: EddyOperator| o.selectivity));
        }
        v
    }

    /// The operators by selectivity, the most selective first; equal ones in
    /// the order in which they were declared.
    pub fn routing_order(&self) -> (order: Vec<usize>)
        requires
            forall|i: int| 0 <= i < self.operators.len() ==> !is_nan(#[trigger] self.operators@[i].selectivity),
        ensures
            order.len() == self.operators.len(),
            forall|i: usize| i < self.operators.len() <==> #[trigger] order@.contains(i),
            forall|i: int, j: int|
                0 <= i < j < order.len() ==> routed_before(
                    self.operators@,
                    #[trigger] order@[i] as int,
                    #[trigger] order@[j] as int,
                ),
    {
        let mut keys: Vec<Vec<u64>> = Vec::new();
        let mut i: usize = 0;
        while i < self.operators.len()
            invariant
                i <= self.operators.len(),
                keys.len() == i,
                forall|k: int| 0 <= k < i ==> (#[trigger] keys@[k])@ == seq![order_word(self.operators@[k].selectivity)],
            decreases self.operators.len() - i,
        {
            let s: u64 = self.operators[i].selectivity;
            let mut key: Vec<u64> = Vec::new();
            if s == 0x8000_0000_0000_0000 {
                key.push(sort_rank(0));
            } else {
                key.push(sort_rank(s));
            }
            proof {
                assert(key@ =~= seq![order_word(s)]);
            }
            keys.push(key);
            i = i + 1;
        }
        let order: Vec<usize> = stable_order(&keys);
        proof {
            let kr = key_rows(keys@);
            assert forall|i: usize| i < self.operators.len() implies #[trigger] order@.contains(i) by {
                assert(0 <= i < kr.len());
            }
            assert forall|i: int, j: int| 0 <= i < j < order.len() implies routed_before(
                self.operators@,
                #[trigger] order@[i] as int,
                #[trigger] order@[j] as int,
            ) by {
                let a = order@[i] as int;
                let b = order@[j] as int;
                assert(order@.contains(order@[i]));
                assert(order@.contains(order@[j]));
                assert(precedes(kr, a, b));
                let x = order_word(self.operators@[a].selectivity);
                let y = order_word(self.operators@[b].selectivity);
                assert(kr[a] == seq![x]);
                assert(kr[b] == seq![y]);
                assert(seq![x].skip(1) =~= Seq::<u64>::empty());
                assert(seq![y].skip(1) =~= Seq::<u64>::empty());
                assert(!lex_lt(seq![x].skip(1), seq![y].skip(1)));
                assert(kr[a][0] == x && kr[b][0] == y);
                lemma_order_word(self.operators@[a].selectivity, self.operators@[b].selectivity);
            }
        }
        order
    }

    pub fn operator_count(&self) -> (n: usize)
        ensures
            n == self.operators.len(),
    {
        self.operators.len()
    }

    /// An operator by number.
    pub fn operator(&self, idx: usize) -> (o: Option<&EddyOperator>)
        ensures
            match o {
                Some(op) => idx < self.operators.len() && *op == self.operators@[idx as int],
                None => idx >= self.operators.len(),
            },
    {
        if idx < self.operators.len() {
            Some(&self.operators[idx])
        } else {
            None
        }
    }

    /// Forgets what has been seen of every operator.
    pub fn reset(&mut self)
        requires
            old(self).wf(),
        ensures
            final(self).wf(),
            final(self).rate() == old(self).rate(),
            final(self).operators@ == old(self).operators@.map_values(|o: EddyOperator| fresh(o.operator)),
            final(self).marks() == none_applied(old(self).operators@.len()),
    {
        self.clear_marks();
        let mut i: usize = 0;
        while i < self.operators.len()
            invariant
                i <= self.operators.len(),
                self.operators.len() == old(self).operators.len(),
                self.rate() == old(self).rate(),
                self.marks() == none_applied(old(self).operators@.len()),
                forall|k: int| 0 <= k < i ==> #[trigger] self.operators@[k] == fresh(old(self).operators@[k].operator),
                forall|k: int| i <= k < self.operators.len() ==> #[trigger] self.operators@[k] == old(
                    self,
                ).operators@[k],
            decreases self.operators.len() - i,
        {
            let mut op: EddyOperator = self.operators[i];
            op.reset();
            self.operators.set(i, op);
            i = i + 1;
        }
        proof {
            assert(self.operators@ =~= old(self).operators@.map_values(|o: EddyOperator| fresh(o.operator)));
        }
    }

    /// The state, for people to read; the doubles are written by the caller.
    pub fn debug_text(&self, learning_rate: &str, selectivities: &str) -> (s: String)
        ensures
            s@ == "Eddy { operator_count: "@ + decimal(self.operators@.len()) + ", learning_rate: "@ + learning_rate@
                + ", selectivities: "@ + selectivities@ + " }"@,
    {
        let mut text: Vec<char> = Vec::new();
        append_text(&mut text, "Eddy { operator_count: ");
        let mut count: Vec<char> = decimal_chars(self.operators.len() as u64);
        text.append(&mut count);
        append_text(&mut text, ", learning_rate: ");
        append_text(&mut text, learning_rate);
        append_text(&mut text, ", selectivities: ");
        append_text(&mut text, selectivities);
        append_text(&mut text, " }");
        proof {
            assert(text@ =~= "Eddy { operator_count: "@ + decimal(self.operators@.len()) + ", learning_rate: "@
                + learning_rate@ + ", selectivities: "@ + selectivities@ + " }"@);
        }
        string_of(&text)
    }
}

/// The word by which a selectivity sorts; both zeros sort alike.
pub open spec fn order_word(bits: u64) -> u64 {
    if bits == 0x8000_0000_0000_0000 {
        total_rank(0)
    } else {
        total_rank(bits)
    }
}

proof fn lemma_order_word(a: u64, b: u64)
    requires
        !is_nan(a),
        !is_nan(b),
    ensures
        order_word(a) < order_word(b) <==> float_lt(a, b),
        order_word(a) == order_word(b) <==> float_eq(a, b),
{
}

/// Operator `i` is routed to before operator `j`.
pub open spec fn routed_before(ops: Seq<EddyOperator>, i: int, j: int) -> bool {
    float_lt(ops[i].selectivity, ops[j].selectivity) || (float_eq(ops[i].selectivity, ops[j].selectivity) && i < j)
}

/// In a fresh eddy all operators are alike, so they are routed to in the order
/// in which they were declared.
pub proof fn fresh_eddy_routes_in_declaration_order(ops: Seq<Operator>, i: int, j: int)
    requires
        0 <= i < ops.len(),
        0 <= j < ops.len(),
    ensures
        routed_before(ops.map_values(|op: Operator| fresh(op)), i, j) <==> i < j,
{
}

/// Routing applies no operator twice, and stops as soon as no cells are left:
/// with none to begin with, no operator is applied.
pub proof fn empty_morsel_is_not_routed<
    F: Fn(FloatOp, u64, u64) -> u64,
    K: Fn(Operator, MemoryTier, &Vec<u64>, KernelParams) -> Option<KernelResult>,
>(f: F, k: K, lr: u64, morsel: Morsel, params: KernelParams, state: Routed)
    ensures
        routed(f, k, lr, morsel, params, 0, state) == state,
{
}

/// Routing gives at most one result for each operator that was waiting.
pub proof fn routing_gives_at_most_one_result_each<
    F: Fn(FloatOp, u64, u64) -> u64,
    K: Fn(Operator, MemoryTier, &Vec<u64>, KernelParams) -> Option<KernelResult>,
>(f: F, k: K, lr: u64, morsel: Morsel, params: KernelParams, current: u64, state: Routed)
    requires
        state.applied.len() == state.operators.len(),
    ensures
        ({
            let end = routed(f, k, lr, morsel, params, current, state);
            &&& end.operators.len() == state.operators.len()
            &&& end.applied.len() == state.applied.len()
            &&& end.results.len() <= state.results.len() + waiting(state.applied)
            &&& state.results.len() <= end.results.len()
            &&& end.results.take(state.results.len() as int) == state.results
        }),
    decreases waiting(state.applied),
{
    let best = most_selective(state.operators, state.applied, state.applied.len() as int);
    lemma_most_selective(state.operators, state.applied, state.applied.len() as int);
    assert(state.results.take(state.results.len() as int) =~= state.results);
    if best is Some && current != 0 {
        let i = best->0;
        lemma_waiting_update(state.applied, i);
        let op = state.operators[i].operator;
        match kernel_answer(k, op, MemoryTier::L3, &morsel.data, morsel_params(params, morsel)) {
            None => {},
            Some(result) => {
                let next = Routed {
                    operators: state.operators.update(
                        i,
                        after_observation(
                            f,
                            state.operators[i],
                            current,
                            cells_passed(op, result, morsel.len as u64),
                            lr,
                        ),
                    ),
                    applied: state.applied.update(i, true),
                    results: state.results.push(result),
                    missing: state.missing,
                };
                let reach = cells_reaching_next(op, result, current);
                routing_gives_at_most_one_result_each(f, k, lr, morsel, params, reach, next);
                let end = routed(f, k, lr, morsel, params, reach, next);
                assert(end.results.take(state.results.len() as int) =~= end.results.take(
                    next.results.len() as int,
                ).take(state.results.len() as int));
                assert(next.results.take(state.results.len() as int) =~= state.results);
            },
        }
    }
}

/// Where the operator that comes next has no kernel, routing ends there and says
/// so.
pub proof fn missing_kernel_ends_routing<
    F: Fn(FloatOp, u64, u64) -> u64,
    K: Fn(Operator, MemoryTier, &Vec<u64>, KernelParams) -> Option<KernelResult>,
>(f: F, k: K, lr: u64, morsel: Morsel, params: KernelParams, current: u64, state: Routed, i: int)
    requires
        current > 0,
        state.applied.len() == state.operators.len(),
        most_selective(state.operators, state.applied, state.applied.len() as int) == Some(i),
        kernel_answer(
            k,
            state.operators[i].operator,
            MemoryTier::L3,
            &morsel.data,
            morsel_params(params, morsel),
        ) is None,
    ensures
        routed(f, k, lr, morsel, params, current, state) == (Routed {
            missing: Some(state.operators[i].operator),
            ..state
        }),
{
    lemma_most_selective(state.operators, state.applied, state.applied.len() as int);
    lemma_waiting_update(state.applied, i);
}

/// At the rate one the estimate becomes the share that was seen, where the
/// arithmetic has `1 - 1 = 0`, `0 * x = 0`, `1 * x = x` and `0 + x = x`.
pub proof fn full_rate_follows_the_share<F: Fn(FloatOp, u64, u64) -> u64>(f: F, op: EddyOperator, input: u64, output: u64)
    requires
        input > 0,
        arith(f, FloatOp::Sub, ONE_BITS, ONE_BITS) == 0,
        arith(f, FloatOp::Mul, 0, op.selectivity) == 0,
        arith(f, FloatOp::Mul, ONE_BITS, passed_share(f, input, output)) == passed_share(f, input, output),
        arith(f, FloatOp::Add, 0, passed_share(f, input, output)) == passed_share(f, input, output),
    ensures
        after_observation(f, op, input, output, ONE_BITS).selectivity == passed_share(f, input, output),
{
}

/// At the rate zero the estimate stays, where the arithmetic has `1 - 0 = 1`,
/// `1 * x = x`, `0 * x = 0` and `x + 0 = x`.
pub proof fn zero_rate_keeps_the_estimate<F: Fn(FloatOp, u64, u64) -> u64>(f: F, op: EddyOperator, input: u64, output: u64)
    requires
        arith(f, FloatOp::Sub, ONE_BITS, 0) == ONE_BITS,
        arith(f, FloatOp::Mul, ONE_BITS, op.selectivity) == op.selectivity,
        arith(f, FloatOp::Mul, 0, passed_share(f, input, output)) == 0,
        arith(f, FloatOp::Add, op.selectivity, 0) == op.selectivity,
    ensures
        after_observation(f, op, input, output, 0).selectivity == op.selectivity,
{
}

/// The share that was seen is held between zero and one, also where more cells
/// came out than went in.
pub proof fn share_is_within_unit<F: Fn(FloatOp, u64, u64) -> u64>(f: F, input: u64, output: u64)
    ensures
        !float_lt(passed_share(f, input, output), 0),
        !float_lt(ONE_BITS, passed_share(f, input, output)),
{
}

} // verus!
