//! Pipelines that run a fixed list of operators over each morsel, and the
//! buffers between pipelines.

use crate::error::{Error, Fail};
use crate::kernel::{is_kernel_table, kernel_answer, KernelParams, KernelResult, MemoryTier, Operator};
use crate::morsel::Morsel;
use crate::text::{append_text, decimal, decimal_chars, string_of};
use vstd::prelude::*;

verus! {

/// The arguments of a kernel on a morsel: all of its cells are read.
pub open spec fn morsel_params(params: KernelParams, morsel: Morsel) -> KernelParams {
    KernelParams { cell_count: morsel.len, ..params }
}

/// The error for an operator without a kernel.
pub open spec fn no_kernel_text(op: Operator) -> Seq<char> {
    "no kernel for operator "@ + op.text()
}

pub fn write_no_kernel(op: Operator) -> (s: String)
    ensures
        s@ == no_kernel_text(op),
{
    let mut text: Vec<char> = Vec::new();
    append_text(&mut text, "no kernel for operator ");
    append_text(&mut text, op.name());
    proof {
        assert(text@ =~= no_kernel_text(op));
    }
    string_of(&text)
}

/// What the kernel of a stage answers on a morsel.
pub open spec fn stage_answer<K: Fn(Operator, MemoryTier, &Vec<u64>, KernelParams) -> Option<KernelResult>>(
    k: K,
    stages: Seq<Operator>,
    s: int,
    morsel: Morsel,
    params: KernelParams,
) -> Option<KernelResult> {
    kernel_answer(k, stages[s], MemoryTier::L3, &morsel.data, morsel_params(params, morsel))
}

/// The first of the stages, from `s` on, that has no kernel.
pub open spec fn first_without_kernel<K: Fn(Operator, MemoryTier, &Vec<u64>, KernelParams) -> Option<KernelResult>>(
    k: K,
    stages: Seq<Operator>,
    s: int,
    morsel: Morsel,
    params: KernelParams,
) -> Option<int>
    decreases stages.len() - s,
{
    if s >= stages.len() {
        None
    } else if stage_answer(k, stages, s, morsel, params) is None {
        Some(s)
    } else {
        first_without_kernel(k, stages, s + 1, morsel, params)
    }
}

/// The answers of the first `n` stages on a morsel.
pub open spec fn stage_answers<K: Fn(Operator, MemoryTier, &Vec<u64>, KernelParams) -> Option<KernelResult>>(
    k: K,
    stages: Seq<Operator>,
    n: int,
    morsel: Morsel,
    params: KernelParams,
) -> Seq<KernelResult> {
    Seq::new(n as nat, |s: int| stage_answer(k, stages, s, morsel, params)->0)
}

/// The names of operators, separated by commas.
pub open spec fn stage_list(stages: Seq<Operator>) -> Seq<char>
    decreases stages.len(),
{
    if stages.len() == 0 {
        Seq::empty()
    } else if stages.len() == 1 {
        stages[0].text()
    } else {
        stage_list(stages.drop_last()) + ", "@ + stages.last().text()
    }
}

/// A list of operators and the results that they have given so far.
pub struct Pipeline {
    stages: Vec<Operator>,
    results: Vec<KernelResult>,
}

impl Pipeline {
    pub closed spec fn stages(&self) -> Seq<Operator> {
        self.stages@
    }

    /// The results since the last reset: stage after stage for the first
    /// morsel, then for the next.
    pub closed spec fn outputs(&self) -> Seq<KernelResult> {
        self.results@
    }

    /// A pipeline of the given operators.
    pub fn new(stages: Vec<Operator>) -> (p: Self)
        ensures
            p.stages() == stages@,
            p.outputs() == Seq::<KernelResult>::empty(),
    {
        Pipeline { stages, results: Vec::new() }
    }

    /// Runs every stage on a morsel. Each stage reads the whole morsel, and its
    /// result is kept. The first stage without a kernel ends the run with an
    /// error; the results of the stages before it stay.
    pub fn execute_morsel<K: Fn(Operator, MemoryTier, &Vec<u64>, KernelParams) -> Option<KernelResult>>(
        &mut self,
        morsel: &Morsel,
        kernels: &K,
        params: &KernelParams,
    ) -> (r: Result<(), Error>)
        requires
            morsel.wf(),
            is_kernel_table(*kernels),
        ensures
            final(self).stages() == old(self).stages(),
            match first_without_kernel(*kernels, old(self).stages(), 0, *morsel, *params) {
                None => r is Ok && final(self).outputs() == old(self).outputs() + stage_answers(
                    *kernels,
                    old(self).stages(),
                    old(self).stages().len() as int,
                    *morsel,
                    *params,
                ),
                Some(n) => (r matches Err(e) && e@ == Fail::Unsupported(no_kernel_text(old(self).stages()[n])))
                    && final(self).outputs() == old(self).outputs() + stage_answers(
                    *kernels,
                    old(self).stages(),
                    n,
                    *morsel,
                    *params,
                ),
            },
    {
        let mut p: KernelParams = *params;
        p.cell_count = morsel.len();
        let ghost kept = self.results@;
        let ghost stages = self.stages@;
        let mut s: usize = 0;
        proof {
            assert(self.results@ =~= kept + stage_answers(*kernels, stages, 0, *morsel, *params));
        }
        while s < self.stages.len()
            invariant
                morsel.wf(),
                is_kernel_table(*kernels),
                stages == old(self).stages(),
                self.stages@ == stages,
                p == morsel_params(*params, *morsel),
                s <= self.stages.len(),
                kept == old(self).outputs(),
                self.results@ == kept + stage_answers(*kernels, stages, s as int, *morsel, *params),
                first_without_kernel(*kernels, stages, 0, *morsel, *params) == first_without_kernel(
                    *kernels,
                    stages,
                    s as int,
                    *morsel,
                    *params,
                ),
            decreases self.stages.len() - s,
        {
            let op: Operator = self.stages[s];
            match kernels(op, MemoryTier::L3, &morsel.data, p) {
                Some(result) => {
                    self.results.push(result);
                    proof {
                        assert(stage_answer(*kernels, stages, s as int, *morsel, *params) == Some(result));
                        assert(self.results@ =~= kept + stage_answers(*kernels, stages, s + 1, *morsel, *params));
                    }
                },
                None => {
                    proof {
                        assert(stage_answer(*kernels, stages, s as int, *morsel, *params) is None);
                    }
                    return Err(Error::Unsupported(write_no_kernel(op)));
                },
            }
            s = s + 1;
        }
        Ok(())
    }

    /// The results since the last reset.
    pub fn results(&self) -> (r: &[KernelResult])
        ensures
            r@ == self.outputs(),
    {
        self.results.as_slice()
    }

    pub fn stage_count(&self) -> (n: usize)
        ensures
            n == self.stages().len(),
    {
        self.stages.len()
    }

    /// Forgets the results; the stages stay.
    pub fn reset(&mut self)
        ensures
            final(self).stages() == old(self).stages(),
            final(self).outputs() == Seq::<KernelResult>::empty(),
    {
        self.results.clear();
        proof {
            assert(self.results@ =~= Seq::<KernelResult>::empty());
        }
    }

    /// The stages and the number of results, for people to read.
    pub fn debug_text(&self) -> (s: String)
        ensures
            s@ == "Pipeline { stages: ["@ + stage_list(self.stages()) + "], result_count: "@ + decimal(
                self.outputs().len(),
            ) + " }"@,
    {
        let mut text: Vec<char> = Vec::new();
        append_text(&mut text, "Pipeline { stages: [");
        let ghost head = "Pipeline { stages: ["@;
        proof {
            assert(text@ =~= head);
            assert(self.stages@.take(0) =~= Seq::<Operator>::empty());
            assert(head + stage_list(self.stages@.take(0)) =~= head);
        }
        let mut i: usize = 0;
        while i < self.stages.len()
            invariant
                i <= self.stages.len(),
                text@ == head + stage_list(self.stages@.take(i as int)),
            decreases self.stages.len() - i,
        {
            proof {
                assert(self.stages@.take(i + 1).drop_last() =~= self.stages@.take(i as int));
                assert(self.stages@.take(i + 1).last() == self.stages@[i as int]);
            }
            if i > 0 {
                append_text(&mut text, ", ");
            }
            append_text(&mut text, self.stages[i].name());
            proof {
                assert(text@ =~= head + stage_list(self.stages@.take(i + 1)));
            }
            i = i + 1;
        }
        append_text(&mut text, "], result_count: ");
        let mut count: Vec<char> = decimal_chars(self.results.len() as u64);
        text.append(&mut count);
        append_text(&mut text, " }");
        proof {
            assert(self.stages@.take(i as int) =~= self.stages@);
        }
        string_of(&text)
    }
}

/// What a pipeline has put out after running the first `m` morsels, each to the
/// end, when stage `s` of morsel `k` answered `answers[k][s]`.
pub open spec fn outputs_of(answers: Seq<Seq<KernelResult>>, m: nat) -> Seq<KernelResult>
    decreases m,
{
    if m == 0 {
        Seq::empty()
    } else {
        outputs_of(answers, (m - 1) as nat) + answers[m - 1]
    }
}

/// What a pipeline has put out after running morsels from the first to the end,
/// every stage having a kernel.
pub open spec fn run_outputs<K: Fn(Operator, MemoryTier, &Vec<u64>, KernelParams) -> Option<KernelResult>>(
    k: K,
    stages: Seq<Operator>,
    morsels: Seq<Morsel>,
    params: KernelParams,
) -> Seq<KernelResult> {
    outputs_of(
        Seq::new(morsels.len(), |i: int| stage_answers(k, stages, stages.len() as int, morsels[i], params)),
        morsels.len(),
    )
}

/// Running one more morsel puts its answers behind those of the morsels before.
pub proof fn runs_follow_each_other<K: Fn(Operator, MemoryTier, &Vec<u64>, KernelParams) -> Option<KernelResult>>(
    k: K,
    stages: Seq<Operator>,
    morsels: Seq<Morsel>,
    next: Morsel,
    params: KernelParams,
)
    ensures
        run_outputs(k, stages, Seq::empty(), params) == Seq::<KernelResult>::empty(),
        run_outputs(k, stages, morsels.push(next), params) == run_outputs(k, stages, morsels, params) + stage_answers(
            k,
            stages,
            stages.len() as int,
            next,
            params,
        ),
{
    let n = stages.len() as int;
    let more = morsels.push(next);
    let a = Seq::new(morsels.len(), |i: int| stage_answers(k, stages, n, morsels[i], params));
    let b = Seq::new(more.len(), |i: int| stage_answers(k, stages, n, more[i], params));
    lemma_outputs_prefix(a, b, morsels.len());
}

proof fn lemma_outputs_prefix(a: Seq<Seq<KernelResult>>, b: Seq<Seq<KernelResult>>, m: nat)
    requires
        m <= a.len(),
        m <= b.len(),
        forall|i: int| 0 <= i < m ==> a[i] == b[i],
    ensures
        outputs_of(a, m) == outputs_of(b, m),
    decreases m,
{
    if m > 0 {
        lemma_outputs_prefix(a, b, (m - 1) as nat);
    }
}

/// The answer of stage `s` on morsel `i` stands at place `i * stages + s`.
pub proof fn runs_are_laid_out_by_morsel<K: Fn(Operator, MemoryTier, &Vec<u64>, KernelParams) -> Option<KernelResult>>(
    k: K,
    stages: Seq<Operator>,
    morsels: Seq<Morsel>,
    params: KernelParams,
    i: int,
    s: int,
)
    requires
        0 <= i < morsels.len(),
        0 <= s < stages.len(),
    ensures
        run_outputs(k, stages, morsels, params).len() == morsels.len() * stages.len(),
        run_outputs(k, stages, morsels, params)[i * stages.len() + s] == stage_answer(k, stages, s, morsels[i], params)->0,
{
    let n = stages.len() as int;
    let answers = Seq::new(morsels.len(), |j: int| stage_answers(k, stages, n, morsels[j], params));
    outputs_are_laid_out_by_morsel(answers, stages.len(), morsels.len(), i, s);
}

/// The result of stage `s` for morsel `k` stands at place `k * stages + s`.
pub proof fn outputs_are_laid_out_by_morsel(answers: Seq<Seq<KernelResult>>, stages: nat, m: nat, k: int, s: int)
    requires
        m <= answers.len(),
        forall|i: int| 0 <= i < answers.len() ==> (#[trigger] answers[i]).len() == stages,
        0 <= k < m,
        0 <= s < stages,
    ensures
        outputs_of(answers, m).len() == m * stages,
        k * stages + s < m * stages,
        outputs_of(answers, m)[k * stages + s] == answers[k][s],
    decreases m,
{
    lemma_outputs_len(answers, stages, m);
    lemma_outputs_len(answers, stages, (m - 1) as nat);
    if k < m - 1 {
        outputs_are_laid_out_by_morsel(answers, stages, (m - 1) as nat, k, s);
        assert((m - 1) * stages + stages == m * stages) by (nonlinear_arith);
    } else {
        assert((m - 1) * stages + stages == m * stages) by (nonlinear_arith);
    }
}

proof fn lemma_outputs_len(answers: Seq<Seq<KernelResult>>, stages: nat, m: nat)
    requires
        m <= answers.len(),
        forall|i: int| 0 <= i < answers.len() ==> (#[trigger] answers[i]).len() == stages,
    ensures
        outputs_of(answers, m).len() == m * stages,
    decreases m,
{
    if m > 0 {
        lemma_outputs_len(answers, stages, (m - 1) as nat);
        assert((m - 1) * stages + stages == m * stages) by (nonlinear_arith)
            requires
                m > 0,
        ;
    } else {
        assert(m * stages == 0) by (nonlinear_arith)
            requires
                m == 0,
        ;
    }
}

/// A buffer that takes in all of its input before any of it is read.
#[derive(Debug)]
pub struct PipelineBreaker {
    materialized: Vec<u64>,
}

impl PipelineBreaker {
    /// The cells that are held.
    pub closed spec fn view(&self) -> Seq<u64> {
        self.materialized@
    }

    pub fn new() -> (b: Self)
        ensures
            b@ == Seq::<u64>::empty(),
    {
        PipelineBreaker { materialized: Vec::new() }
    }

    /// Adds cells behind those that are held.
    pub fn push(&mut self, data: &[u64])
        ensures
            final(self)@ == old(self)@ + data@,
    {
        let mut i: usize = 0;
        proof {
            assert(self@ + data@.take(0) =~= self@);
        }
        while i < data.len()
            invariant
                i <= data@.len(),
                self@ == old(self)@ + data@.take(i as int),
            decreases data@.len() - i,
        {
            self.materialized.push(data[i]);
            proof {
                assert(self@ =~= old(self)@ + data@.take(i + 1));
            }
            i = i + 1;
        }
        proof {
            assert(data@.take(i as int) =~= data@);
        }
    }

    /// Hands over all cells and keeps none.
    pub fn drain(&mut self) -> (cells: Vec<u64>)
        ensures
            cells@ == old(self)@,
            final(self)@ == Seq::<u64>::empty(),
    {
        let mut cells: Vec<u64> = Vec::new();
        cells.append(&mut self.materialized);
        proof {
            assert(cells@ =~= old(self)@);
            assert(self@ =~= Seq::<u64>::empty());
        }
        cells
    }

    pub fn len(&self) -> (n: usize)
        ensures
            n == self@.len(),
    {
        self.materialized.len()
    }

    pub fn is_empty(&self) -> (b: bool)
        ensures
            b == (self@.len() == 0),
    {
        self.materialized.len() == 0
    }
}

impl Default for PipelineBreaker {
    fn default() -> (b: Self)
        ensures
            b@ == Seq::<u64>::empty(),
    {
        PipelineBreaker::new()
    }
}

/// What a breaker holds after taking in the first `n` batches.
pub open spec fn batches_held(batches: Seq<Seq<u64>>, n: nat) -> Seq<u64>
    decreases n,
{
    if n == 0 {
        Seq::empty()
    } else {
        batches_held(batches, (n - 1) as nat) + batches[n - 1]
    }
}

/// Draining gives the batches back end to end: what a breaker holds after them
/// is their concatenation.
pub proof fn drained_is_concatenation(batches: Seq<Seq<u64>>)
    ensures
        batches_held(batches, batches.len()) == batches.flatten(),
{
    lemma_held_prefix(batches, batches.len());
    assert(batches.take(batches.len() as int) =~= batches);
}

proof fn lemma_held_prefix(batches: Seq<Seq<u64>>, n: nat)
    requires
        n <= batches.len(),
    ensures
        batches_held(batches, n) == batches.take(n as int).flatten(),
    decreases n,
{
    if n > 0 {
        lemma_held_prefix(batches, (n - 1) as nat);
        let now = batches.take(n as int);
        assert(now.drop_last() =~= batches.take(n - 1));
        now.lemma_flatten_and_flatten_alt_are_equivalent();
        now.drop_last().lemma_flatten_and_flatten_alt_are_equivalent();
        assert(now.last() == batches[n - 1]);
    } else {
        assert(batches.take(0) =~= Seq::<Seq<u64>>::empty());
    }
}

} // verus!
