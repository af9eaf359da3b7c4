//! Running plans: threading bytes and properties through converters, with
//! resource accounting.

use vstd::prelude::*;

use crate::converter::{ConvertError, ConvertOutput, Converter};
use crate::planner::{Plan, StepModel};
use crate::properties::{EntriesModel, Properties};
use crate::registry::{self, Registry};
use std::sync::Arc;
use std::time::{Duration, Instant};

verus! {

#[verifier::external_type_specification]
#[verifier::external_body]
pub struct ExInstant(Instant);

/// Relies on `std::time::Instant::now`: the current instant, of which nothing is assumed.
#[verifier::external_body]
fn clock_now() -> Instant {
    Instant::now()
}

/// Relies on `std::time::Instant::elapsed`: the time since `start`, of which nothing is assumed.
#[verifier::external_body]
fn clock_elapsed(start: &Instant) -> Duration {
    start.elapsed()
}

/// What a plan runs against.
pub struct ExecutionContext<C: Converter> {
    /// Converters, by id.
    pub registry: Arc<Registry<C>>,
    /// Largest intermediate output allowed, in bytes.
    pub memory_limit: Option<usize>,
    /// Largest number of jobs run at once.
    pub parallelism: Option<usize>,
}

impl<C: Converter> ExecutionContext<C> {
    /// A context without limits.
    pub fn new(registry: Arc<Registry<C>>) -> (r: Self)
        ensures
            r.registry == registry,
            r.memory_limit is None,
            r.parallelism is None,
    {
        ExecutionContext { registry, memory_limit: None, parallelism: None }
    }

    /// The same context with a memory limit.
    pub fn with_memory_limit(self, bytes: usize) -> (r: Self)
        ensures
            r.registry == self.registry,
            r.memory_limit == Some(bytes),
            r.parallelism == self.parallelism,
    {
        ExecutionContext { memory_limit: Some(bytes), ..self }
    }

    /// The same context with a parallelism limit.
    pub fn with_parallelism(self, jobs: usize) -> (r: Self)
        ensures
            r.registry == self.registry,
            r.memory_limit == self.memory_limit,
            r.parallelism == Some(jobs),
    {
        ExecutionContext { parallelism: Some(jobs), ..self }
    }
}

/// Statistics of one run.
#[derive(Debug)]
pub struct ExecutionStats {
    /// Wall-clock time taken.
    pub duration: Duration,
    /// Largest byte buffer seen: the input or a step's output.
    pub peak_memory: usize,
    /// Number of steps run.
    pub steps_executed: usize,
}

/// The outcome of a run.
#[derive(Debug)]
pub struct ExecutionResult {
    pub data: Vec<u8>,
    pub props: Properties,
    pub stats: ExecutionStats,
}

/// A plan with its input, for batch runs.
pub struct Job {
    pub plan: Plan,
    pub input: Vec<u8>,
    pub props: Properties,
}

impl Job {
    pub fn new(plan: Plan, input: Vec<u8>, props: Properties) -> (r: Job)
        ensures
            r.plan == plan,
            r.input == input,
            r.props == props,
    {
        Job { plan, input, props }
    }
}

/// Why a run failed.
#[derive(Debug)]
pub enum ExecuteError {
    /// The converter of step `step` failed.
    ConversionFailed { step: usize, source: ConvertError },
    /// No converter has this id.
    ConverterNotFound(String),
    /// A step produced more bytes than the limit.
    MemoryLimitExceeded { needed: usize, limit: usize },
    /// A step produced an empty list of outputs.
    EmptyPlan,
}

/// What a step leaves when its converter returned `output`: its output, or the
/// first output of a list, unless that exceeds `memory_limit`.
pub fn step_outcome(step: usize, output: Result<ConvertOutput, ConvertError>, memory_limit: Option<usize>) -> (r: Result<(Vec<u8>, Properties), ExecuteError>)
    ensures
        r == step_result(step, output, memory_limit),
        match output {
            Err(e) => r == Err::<(Vec<u8>, Properties), ExecuteError>(ExecuteError::ConversionFailed { step, source: e }),
            Ok(ConvertOutput::Multiple(outs)) if outs.len() == 0 => r == Err::<(Vec<u8>, Properties), ExecuteError>(ExecuteError::EmptyPlan),
            Ok(out) => {
                let first = match out {
                    ConvertOutput::Single(d, p) => (d, p),
                    ConvertOutput::Multiple(outs) => outs[0],
                };
                match memory_limit {
                    Some(l) if first.0.len() > l => r == Err::<(Vec<u8>, Properties), ExecuteError>(ExecuteError::MemoryLimitExceeded { needed: first.0.len(), limit: l }),
                    _ => r == Ok::<(Vec<u8>, Properties), ExecuteError>(first),
                }
            },
        },
{
    let first = match output {
        Err(e) => {
            return Err(ExecuteError::ConversionFailed { step, source: e });
        },
        Ok(ConvertOutput::Single(d, p)) => (d, p),
        Ok(ConvertOutput::Multiple(mut outs)) => {
            if outs.len() == 0 {
                return Err(ExecuteError::EmptyPlan);
            }
            outs.remove(0)
        },
    };
    match memory_limit {
        Some(l) => {
            if first.0.len() > l {
                return Err(ExecuteError::MemoryLimitExceeded { needed: first.0.len(), limit: l });
            }
        },
        None => {},
    }
    Ok(first)
}

/// `step_outcome` as a function: what a step leaves when its converter returned `output`.
pub open spec fn step_result(step: usize, output: Result<ConvertOutput, ConvertError>, memory_limit: Option<usize>) -> Result<(Vec<u8>, Properties), ExecuteError> {
    match output {
        Err(e) => Err(ExecuteError::ConversionFailed { step, source: e }),
        Ok(ConvertOutput::Multiple(outs)) if outs.len() == 0 => Err(ExecuteError::EmptyPlan),
        Ok(out) => {
            let first = match out {
                ConvertOutput::Single(d, p) => (d, p),
                ConvertOutput::Multiple(outs) => outs[0],
            };
            match memory_limit {
                Some(l) if first.0.len() > l => Err(ExecuteError::MemoryLimitExceeded { needed: first.0.len(), limit: l }),
                _ => Ok(first),
            }
        },
    }
}

/// Bytes and properties between two steps.
pub type RunState = (Seq<u8>, EntriesModel);

/// The state that a successful step leaves.
pub open spec fn state_of(r: Result<(Vec<u8>, Properties), ExecuteError>) -> RunState {
    match r {
        Ok(v) => (v.0@, v.1@),
        Err(_) => (Seq::empty(), Seq::empty()),
    }
}

/// The converter registered under `id` converted `state` and returned `out`.
pub open spec fn step_ran<C: Converter>(reg: Registry<C>, id: Seq<char>, state: RunState, out: Result<ConvertOutput, ConvertError>) -> bool {
    exists|i: int| 0 <= i < reg@.len() && reg@[i].id == id && #[trigger] reg.converter_at(i).converts(state.0, state.1, out)
}

/// `outs` and `states` record a run of the first `outs.len()` steps with ids
/// `ids` from `start`: each step's converter got the state that the step before
/// left, and `step_result` of its output is the next state.
pub open spec fn good_run<C: Converter>(
    reg: Registry<C>,
    ids: Seq<Seq<char>>,
    limit: Option<usize>,
    start: RunState,
    outs: Seq<Result<ConvertOutput, ConvertError>>,
    states: Seq<RunState>,
) -> bool {
    &&& states.len() == outs.len() + 1
    &&& outs.len() <= ids.len()
    &&& states[0] == start
    &&& forall|k: int| 0 <= k < outs.len() ==> {
        &&& step_ran(reg, ids[k], states[k], #[trigger] outs[k])
        &&& step_result(k as usize, outs[k], limit) is Ok
        &&& state_of(step_result(k as usize, outs[k], limit)) == states[k + 1]
    }
}

/// Step `k` of a run stopped with error `e` in state `state`: its id is not
/// registered, or its converter returned an output that `step_result` turns into `e`.
pub open spec fn failed_at<C: Converter>(reg: Registry<C>, ids: Seq<Seq<char>>, limit: Option<usize>, k: int, state: RunState, e: ExecuteError) -> bool {
    if registry::has_id(reg@, ids[k]) {
        exists|out: Result<ConvertOutput, ConvertError>| step_ran(reg, ids[k], state, out) && #[trigger] step_result(k as usize, out, limit) == Err::<(Vec<u8>, Properties), ExecuteError>(e)
    } else {
        e matches ExecuteError::ConverterNotFound(id) && id@ == ids[k]
    }
}

/// The largest byte count among the states.
pub open spec fn peak_of(states: Seq<RunState>) -> nat
    decreases states.len(),
{
    if states.len() == 0 {
        0
    } else {
        let p = peak_of(states.drop_last());
        if states.last().0.len() > p {
            states.last().0.len()
        } else {
            p
        }
    }
}

/// What a sequential run of `plan` gives: every step in order until one
/// fails; the result is the last state, or the first failure.
pub open spec fn sequential_run<C: Converter>(
    ctx: ExecutionContext<C>,
    plan: Plan,
    input: Seq<u8>,
    props: EntriesModel,
    r: Result<ExecutionResult, ExecuteError>,
) -> bool {
    let ids = step_ids(plan@);
    let n = plan.steps@.len();
    match r {
        Ok(res) => exists|outs: Seq<Result<ConvertOutput, ConvertError>>, states: Seq<RunState>| {
            &&& #[trigger] good_run(*ctx.registry, ids, ctx.memory_limit, (input, props), outs, states)
            &&& outs.len() == n
            &&& res.data@ == states[n as int].0
            &&& res.props@ == states[n as int].1
            &&& res.stats.steps_executed == n
            &&& res.stats.peak_memory == peak_of(states)
        },
        Err(e) => exists|outs: Seq<Result<ConvertOutput, ConvertError>>, states: Seq<RunState>| {
            &&& #[trigger] good_run(*ctx.registry, ids, ctx.memory_limit, (input, props), outs, states)
            &&& outs.len() < n
            &&& failed_at(*ctx.registry, ids, ctx.memory_limit, outs.len() as int, states.last(), e)
        },
    }
}

/// How plans are run.
pub trait Executor<C: Converter> {
    /// What running `plan` on `input` with `props` may give; the default states nothing.
    open spec fn runs(
        &self,
        ctx: ExecutionContext<C>,
        plan: Plan,
        input: Seq<u8>,
        props: EntriesModel,
        r: Result<ExecutionResult, ExecuteError>,
    ) -> bool {
        true
    }

    /// Runs `plan` on `input` with properties `props`.
    fn execute(
        &self,
        ctx: &ExecutionContext<C>,
        plan: &Plan,
        input: Vec<u8>,
        props: Properties,
    ) -> (r: Result<ExecutionResult, ExecuteError>)
        ensures
            self.runs(*ctx, *plan, input@, props@, r),
    ;

    /// Runs independent jobs one after another; one result per job, in order,
    /// each what `execute` gives for that job.
    fn execute_batch(&self, ctx: &ExecutionContext<C>, jobs: Vec<Job>) -> (r: Vec<
        Result<ExecutionResult, ExecuteError>,
    >)
        ensures
            r@.len() == jobs@.len(),
            forall|i: int| 0 <= i < jobs@.len() ==> self.runs(*ctx, jobs@[i].plan, jobs@[i].input@, jobs@[i].props@, #[trigger] r@[i]),
    {
        let mut jobs = jobs;
        let ghost all = jobs@;
        let n = jobs.len();
        let mut results: Vec<Result<ExecutionResult, ExecuteError>> = Vec::new();
        while jobs.len() > 0
            invariant
                results@.len() + jobs@.len() == n,
                n == all.len(),
                jobs@ == all.subrange(results@.len() as int, n as int),
                forall|i: int| 0 <= i < results@.len() ==> self.runs(*ctx, all[i].plan, all[i].input@, all[i].props@, #[trigger] results@[i]),
            decreases jobs.len(),
        {
            let ghost before = jobs@;
            let job = jobs.remove(0);
            proof {
                assert(before[0] == all[results@.len() as int]);
                assert(jobs@ =~= all.subrange(results@.len() as int + 1, n as int));
            }
            let ghost j = job;
            let r = self.execute(ctx, &job.plan, job.input, job.props);
            results.push(r);
        }
        results
    }
}

/// Runs steps one after another, with no limit but the context's memory limit.
#[derive(Debug)]
pub struct SimpleExecutor;

impl SimpleExecutor {
    pub fn new() -> (r: SimpleExecutor)
        ensures
            r == SimpleExecutor,
    {
        SimpleExecutor
    }
}

pub open spec fn step_ids(steps: Seq<StepModel>) -> Seq<Seq<char>> {
    steps.map_values(|s: StepModel| s.0)
}

impl<C: Converter> Executor<C> for SimpleExecutor {
    open spec fn runs(
        &self,
        ctx: ExecutionContext<C>,
        plan: Plan,
        input: Seq<u8>,
        props: EntriesModel,
        r: Result<ExecutionResult, ExecuteError>,
    ) -> bool {
        sequential_run(ctx, plan, input, props, r)
    }

    fn execute(
        &self,
        ctx: &ExecutionContext<C>,
        plan: &Plan,
        input: Vec<u8>,
        props: Properties,
    ) -> (r: Result<ExecutionResult, ExecuteError>)
        ensures
            plan.steps@.len() == 0 ==> (r matches Ok(res) && res.data == input && res.props
                == props && res.stats.steps_executed == 0 && res.stats.peak_memory == input@.len()),
    {
        let start = clock_now();
        let ghost input0 = input;
        let ghost props0 = props;
        let ghost ids = step_ids(plan@);
        let ghost mut outs: Seq<Result<ConvertOutput, ConvertError>> = Seq::empty();
        let ghost mut states: Seq<RunState> = seq![(input@, props@)];
        let mut data = input;
        let mut current = props;
        let mut peak: usize = data.len();
        let mut k: usize = 0;
        proof {
            assert(peak_of(states) == input0@.len()) by {
                assert(states.drop_last() =~= Seq::<RunState>::empty());
                assert(states.last() == (input0@, props0@));
                assert(peak_of(Seq::<RunState>::empty()) == 0);
            }
        }
        while k < plan.steps.len()
            invariant
                k <= plan.steps@.len(),
                ids == step_ids(plan@),
                ids.len() == plan.steps@.len(),
                good_run(*ctx.registry, ids, ctx.memory_limit, (input0@, props0@), outs, states),
                outs.len() == k,
                states[k as int] == (data@, current@),
                peak == peak_of(states),
                k == 0 ==> data == input0 && current == props0,
                input0 == input,
                props0 == props,
            decreases plan.steps.len() - k,
        {
            let step = &plan.steps[k];
            assert(ids[k as int] == step.converter_id@);
            let converter = match ctx.registry.get(step.converter_id.as_str()) {
                Some(c) => c,
                None => {
                    let e = ExecuteError::ConverterNotFound(step.converter_id.clone());
                    proof {
                        assert(failed_at(*ctx.registry, ids, ctx.memory_limit, k as int, states.last(), e));
                        assert(good_run(*ctx.registry, ids, ctx.memory_limit, (input0@, props0@), outs, states));
                        assert(outs.len() < plan.steps@.len());
                        assert(sequential_run(*ctx, *plan, input0@, props0@, Err::<ExecutionResult, ExecuteError>(e)));
                        assert(self.runs(*ctx, *plan, input0@, props0@, Err::<ExecutionResult, ExecuteError>(e)));
                    }
                    return Err(e);
                },
            };
            let output = converter.convert(data.as_slice(), &current);
            let ghost out = output;
            proof {
                let i = choose|i: int|
                    0 <= i < (*ctx.registry)@.len() && (*ctx.registry)@[i].id == ids[k as int] && *converter == (*ctx.registry).converter_at(i);
                assert((*ctx.registry).converter_at(i).converts(states[k as int].0, states[k as int].1, out));
                assert(step_ran(*ctx.registry, ids[k as int], states[k as int], out));
            }
            match step_outcome(k, output, ctx.memory_limit) {
                Err(e) => {
                    proof {
                        assert(step_result(k, out, ctx.memory_limit) == Err::<(Vec<u8>, Properties), ExecuteError>(e));
                        assert(failed_at(*ctx.registry, ids, ctx.memory_limit, k as int, states.last(), e));
                        assert(good_run(*ctx.registry, ids, ctx.memory_limit, (input0@, props0@), outs, states));
                        assert(outs.len() < plan.steps@.len());
                        assert(sequential_run(*ctx, *plan, input0@, props0@, Err::<ExecutionResult, ExecuteError>(e)));
                        assert(self.runs(*ctx, *plan, input0@, props0@, Err::<ExecutionResult, ExecuteError>(e)));
                    }
                    return Err(e);
                },
                Ok((d, p)) => {
                    let ghost old_outs = outs;
                    let ghost old_states = states;
                    proof {
                        outs = outs.push(out);
                        states = states.push((d@, p@));
                        assert(states.drop_last() =~= old_states);
                        assert forall|j: int| 0 <= j < outs.len() implies {
                            &&& step_ran(*ctx.registry, ids[j], states[j], #[trigger] outs[j])
                            &&& step_result(j as usize, outs[j], ctx.memory_limit) is Ok
                            &&& state_of(step_result(j as usize, outs[j], ctx.memory_limit)) == states[j + 1]
                        } by {
                            if j < k {
                                assert(outs[j] == old_outs[j]);
                                assert(states[j] == old_states[j]);
                                assert(states[j + 1] == old_states[j + 1]);
                            }
                        }
                    }
                    if d.len() > peak {
                        peak = d.len();
                    }
                    data = d;
                    current = p;
                },
            }
            k = k + 1;
        }
        let duration = clock_elapsed(&start);
        let res = ExecutionResult {
            data,
            props: current,
            stats: ExecutionStats { duration, peak_memory: peak, steps_executed: plan.steps.len() },
        };
        proof {
            assert(good_run(*ctx.registry, ids, ctx.memory_limit, (input0@, props0@), outs, states));
            if k == 0 {
                assert(states.drop_last() =~= Seq::<RunState>::empty());
                assert(peak_of(Seq::<RunState>::empty()) == 0);
            }
        }
        Ok(res)
    }
}

/// The expansion factor of a converter family, by id prefix.
pub open spec fn family_factor(id: Seq<char>) -> nat {
    if "audio."@.is_prefix_of(id) {
        10
    } else if "image."@.is_prefix_of(id) {
        4
    } else if "video."@.is_prefix_of(id) {
        100
    } else {
        1
    }
}

/// `n` times the factors of `ids`, saturating at the largest `usize`.
pub open spec fn estimate(n: nat, ids: Seq<Seq<char>>) -> nat
    decreases ids.len(),
{
    if ids.len() == 0 {
        n
    } else {
        let e = estimate(n, ids.drop_last()) * family_factor(ids.last());
        if e > usize::MAX {
            usize::MAX as nat
        } else {
            e
        }
    }
}

fn has_prefix(s: &str, prefix: &str) -> (r: bool)
    ensures
        r == prefix@.is_prefix_of(s@),
{
    let n = prefix.unicode_len();
    if s.unicode_len() < n {
        return false;
    }
    let mut i: usize = 0;
    while i < n
        invariant
            i <= n,
            n == prefix@.len(),
            n <= s@.len(),
            forall|j: int| 0 <= j < i ==> prefix@[j] == s@[j],
        decreases n - i,
    {
        if prefix.get_char(i) != s.get_char(i) {
            return false;
        }
        i = i + 1;
    }
    assert(prefix@ =~= s@.subrange(0, n as int));
    true
}

fn factor_of(id: &str) -> (r: usize)
    ensures
        r == family_factor(id@),
{
    if has_prefix(id, "audio.") {
        10
    } else if has_prefix(id, "image.") {
        4
    } else if has_prefix(id, "video.") {
        100
    } else {
        1
    }
}

/// An estimate of peak memory: `input_size` times 10 for each `audio.` step,
/// 4 for each `image.` step and 100 for each `video.` step, saturating.
pub fn estimate_memory(input_size: usize, plan: &Plan) -> (r: usize)
    ensures
        r == estimate(input_size as nat, step_ids(plan@)),
{
    let mut e: usize = input_size;
    let mut i: usize = 0;
    while i < plan.steps.len()
        invariant
            i <= plan.steps@.len(),
            e == estimate(input_size as nat, step_ids(plan@).subrange(0, i as int)),
        decreases plan.steps.len() - i,
    {
        let f = factor_of(plan.steps[i].converter_id.as_str());
        proof {
            let sub = step_ids(plan@).subrange(0, i + 1);
            assert(sub.drop_last() =~= step_ids(plan@).subrange(0, i as int));
            assert(sub.last() == plan.steps@[i as int].converter_id@);
        }
        e = match e.checked_mul(f) {
            Some(x) => x,
            None => usize::MAX,
        };
        i = i + 1;
    }
    assert(step_ids(plan@).subrange(0, plan.steps@.len() as int) =~= step_ids(plan@));
    e
}

/// A larger input never lowers the estimate.
pub proof fn lemma_estimate_monotone_in_size(n: nat, m: nat, ids: Seq<Seq<char>>)
    requires
        n <= m,
    ensures
        estimate(n, ids) <= estimate(m, ids),
    decreases ids.len(),
{
    if ids.len() > 0 {
        lemma_estimate_monotone_in_size(n, m, ids.drop_last());
        let a = estimate(n, ids.drop_last());
        let b = estimate(m, ids.drop_last());
        let f = family_factor(ids.last());
        assert(a * f <= b * f) by (nonlinear_arith)
            requires
                a <= b,
        ;
    }
}

/// One more step never lowers the estimate of an input that fits in memory.
pub proof fn lemma_estimate_monotone_in_steps(n: nat, ids: Seq<Seq<char>>, id: Seq<char>)
    requires
        n <= usize::MAX,
    ensures
        estimate(n, ids) <= estimate(n, ids.push(id)),
{
    lemma_estimate_bounded(n, ids);
    assert(ids.push(id).drop_last() =~= ids);
    let e = estimate(n, ids);
    let f = family_factor(id);
    assert(e <= e * f) by (nonlinear_arith)
        requires
            f >= 1,
    ;
}

pub proof fn lemma_estimate_bounded(n: nat, ids: Seq<Seq<char>>)
    requires
        n <= usize::MAX,
    ensures
        estimate(n, ids) <= usize::MAX,
    decreases ids.len(),
{
    if ids.len() > 0 {
        lemma_estimate_bounded(n, ids.drop_last());
    }
}


/// Every converter of `reg` has one output port, and whatever output of it
/// `step_result` passes on carries the properties that this port projects.
pub open spec fn projecting<C: Converter>(reg: Registry<C>, limit: Option<usize>) -> bool {
    &&& forall|i: int| 0 <= i < reg@.len() ==> #[trigger] reg@[i].outputs.len() == 1
    &&& forall|i: int, k: usize, state: RunState, out: Result<ConvertOutput, ConvertError>|
        0 <= i < reg@.len() && #[trigger] reg.converter_at(i).converts(state.0, state.1, out) && #[trigger] step_result(k, out, limit) is Ok
            ==> state_of(step_result(k, out, limit)).1 == crate::pattern::project(state.1, reg@[i].outputs[0].1)
}

/// Running a plan that the planner gave for `source` and `target`, through
/// converters that deliver exactly what their declarations project, ends in
/// properties that `target` matches.
pub proof fn lemma_planned_run_reaches_target<C: Converter>(
    planner: crate::planner::Planner,
    ctx: ExecutionContext<C>,
    plan: Plan,
    input: Seq<u8>,
    source: EntriesModel,
    target: crate::pattern::PatternModel,
    res: ExecutionResult,
)
    requires
        registry::ids_unique((*ctx.registry)@),
        projecting(*ctx.registry, ctx.memory_limit),
        planner.plan_outcome((*ctx.registry)@, source, target, Ok::<Plan, crate::planner::PlanError>(plan)),
        sequential_run(ctx, plan, input, source, Ok::<ExecutionResult, ExecuteError>(res)),
    ensures
        crate::pattern::pattern_matches(target, res.props@),
{
    let reg = *ctx.registry;
    let ds = reg@;
    let ids = step_ids(plan@);
    let n = plan.steps@.len();
    let (outs, states) = choose|outs: Seq<Result<ConvertOutput, ConvertError>>, states: Seq<RunState>| {
        &&& #[trigger] good_run(reg, ids, ctx.memory_limit, (input, source), outs, states)
        &&& outs.len() == n
        &&& res.data@ == states[n as int].0
        &&& res.props@ == states[n as int].1
        &&& res.stats.steps_executed == n
        &&& res.stats.peak_memory == peak_of(states)
    };
    assert forall|k: int| 0 <= k <= n implies #[trigger] states[k].1 == crate::planner::props_before(source, plan@, k) by {
        lemma_run_follows_plan(planner, ctx, plan, input, source, outs, states, k);
    }
    assert(states[n as int].1 == crate::planner::plan_result(source, plan@));
}

proof fn lemma_run_follows_plan<C: Converter>(
    planner: crate::planner::Planner,
    ctx: ExecutionContext<C>,
    plan: Plan,
    input: Seq<u8>,
    source: EntriesModel,
    outs: Seq<Result<ConvertOutput, ConvertError>>,
    states: Seq<RunState>,
    k: int,
)
    requires
        registry::ids_unique((*ctx.registry)@),
        projecting(*ctx.registry, ctx.memory_limit),
        crate::planner::chain_valid((*ctx.registry)@, source, plan@),
        good_run(*ctx.registry, step_ids(plan@), ctx.memory_limit, (input, source), outs, states),
        outs.len() == plan.steps@.len(),
        0 <= k <= plan.steps@.len(),
    ensures
        states[k].1 == crate::planner::props_before(source, plan@, k),
    decreases k,
{
    let reg = *ctx.registry;
    let ds = reg@;
    let ids = step_ids(plan@);
    if k > 0 {
        let j = k - 1;
        lemma_run_follows_plan(planner, ctx, plan, input, source, outs, states, j);
        assert(step_ran(reg, ids[j], states[j], outs[j]));
        let i = choose|i: int| 0 <= i < ds.len() && ds[i].id == ids[j] && #[trigger] reg.converter_at(i).converts(states[j].0, states[j].1, outs[j]);
        let s = plan@[j];
        assert(crate::planner::step_valid(ds, crate::planner::props_before(source, plan@, j), plan@[j]));
        let (c, p, o) = choose|c: int, p: int, o: int| {
            &&& 0 <= c < ds.len()
            &&& #[trigger] ds[c].id == s.0
            &&& 0 <= p < ds[c].inputs.len()
            &&& #[trigger] ds[c].inputs[p].0 == s.1
            &&& crate::pattern::pattern_matches(ds[c].inputs[p].1, crate::planner::props_before(source, plan@, j))
            &&& 0 <= o < ds[c].outputs.len()
            &&& #[trigger] ds[c].outputs[o].0 == s.2
            &&& s.3 == crate::pattern::project(crate::planner::props_before(source, plan@, j), ds[c].outputs[o].1)
        };
        assert(ids[j] == s.0);
        assert(c == i);
        assert(ds[c].outputs.len() == 1);
        assert(step_result(j as usize, outs[j], ctx.memory_limit) is Ok);
    }
}

} // verus!
