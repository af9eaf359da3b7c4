//! Workflows: a source, steps that each plan-and-run or relabel, and a sink.

use vstd::prelude::*;

use crate::converter::Converter;
use crate::executor::{ExecuteError, ExecutionContext, ExecutionResult, Executor};
use crate::pattern::PropertyPattern;
use crate::executor::RunState;
use crate::planner::{Plan, PlanError, Planner};
use crate::properties::{self, EntriesModel, Properties, Value};

verus! {

/// Where a workflow's input comes from.
#[derive(Debug)]
pub enum Source {
    /// A file, read whole.
    File(String),
    /// Standard input, read whole.
    Stdin,
    /// Bytes and properties given in place.
    Inline(Vec<u8>, Properties),
}

/// Where a workflow's output goes.
#[derive(Debug)]
pub enum Sink {
    File(String),
    Stdout,
    Discard,
}

/// One step of a workflow.
#[derive(Debug)]
pub enum Step {
    /// Plan a conversion to properties that this pattern matches, and run it.
    Target(PropertyPattern),
    /// Set these properties without converting (labels an input).
    Delta(Properties),
}

/// A named pipeline: a source, ordered steps, a sink.
#[derive(Debug)]
pub struct Workflow {
    pub name: String,
    pub source: Source,
    pub steps: Vec<Step>,
    pub sink: Sink,
}

/// Why a workflow stopped, with the index of the step.
#[derive(Debug)]
pub enum WorkflowError {
    Plan { step: usize, error: PlanError },
    Execute { step: usize, error: ExecuteError },
}

/// `props` with each entry of `delta` set, in order.
pub open spec fn apply_delta(props: EntriesModel, delta: EntriesModel) -> EntriesModel
    decreases delta.len(),
{
    if delta.len() == 0 {
        props
    } else {
        properties::upsert(apply_delta(props, delta.drop_last()), delta.last().0, delta.last().1)
    }
}

/// Whether every step is a `Delta`.
pub open spec fn all_deltas(steps: Seq<Step>) -> bool {
    forall|i: int| 0 <= i < steps.len() ==> #[trigger] steps[i] is Delta
}

/// The properties after the `Delta` steps `steps`.
pub open spec fn deltas_applied(props: EntriesModel, steps: Seq<Step>) -> EntriesModel
    decreases steps.len(),
{
    if steps.len() == 0 {
        props
    } else {
        match steps.last() {
            Step::Delta(d) => apply_delta(deltas_applied(props, steps.drop_last()), d@),
            Step::Target(_) => deltas_applied(props, steps.drop_last()),
        }
    }
}

/// `props` with the entries of `delta` set.
pub fn apply_properties(props: Properties, delta: &Properties) -> (r: Properties)
    ensures
        r@ == apply_delta(props@, delta@),
{
    let entries = delta.entries();
    let ghost dm = delta@;
    proof {
        properties::lemma_map_model(entries@);
    }
    let mut p = props;
    let mut i: usize = 0;
    while i < entries.len()
        invariant
            i <= entries@.len(),
            properties::map_model(entries@) == dm,
            dm.len() == entries@.len(),
            p@ == apply_delta(props@, dm.subrange(0, i as int)),
        decreases entries.len() - i,
    {
        proof {
            properties::lemma_map_model(entries@);
            let sub = dm.subrange(0, i + 1);
            assert(sub.drop_last() =~= dm.subrange(0, i as int));
        }
        let key = entries[i].0.clone();
        let value: Value = entries[i].1.clone();
        p.insert(key, value);
        i = i + 1;
    }
    assert(dm.subrange(0, dm.len() as int) =~= dm);
    p
}

/// Step `step` took the bytes and properties `from` to `to`: a `Delta` sets its
/// properties; a `Target` planned from `from` and ran that plan.
pub open spec fn step_done<C: Converter, E: Executor<C>>(
    planner: Planner,
    executor: E,
    ctx: ExecutionContext<C>,
    step: Step,
    from: RunState,
    to: RunState,
) -> bool {
    match step {
        Step::Delta(d) => to == (from.0, apply_delta(from.1, d@)),
        Step::Target(t) => exists|plan: Plan, res: ExecutionResult|
            planner.plan_outcome((*ctx.registry)@, from.1, t@, Ok::<Plan, PlanError>(plan))
                && #[trigger] executor.runs(ctx, plan, from.0, from.1, Ok::<ExecutionResult, ExecuteError>(res))
                && to == (res.data@, res.props@),
    }
}

/// Step `k`, a `Target`, stopped at `from` with `e`: planning failed, or running the plan did.
pub open spec fn step_failed<C: Converter, E: Executor<C>>(
    planner: Planner,
    executor: E,
    ctx: ExecutionContext<C>,
    step: Step,
    k: int,
    from: RunState,
    e: WorkflowError,
) -> bool {
    match step {
        Step::Delta(_) => false,
        Step::Target(t) => match e {
            WorkflowError::Plan { step, error } => step == k && planner.plan_outcome(
                (*ctx.registry)@,
                from.1,
                t@,
                Err::<Plan, PlanError>(error),
            ),
            WorkflowError::Execute { step, error } => step == k && exists|plan: Plan|
                #[trigger] planner.plan_outcome((*ctx.registry)@, from.1, t@, Ok::<Plan, PlanError>(plan))
                    && executor.runs(ctx, plan, from.0, from.1, Err::<ExecutionResult, ExecuteError>(error)),
        },
    }
}

/// `states` record the first `states.len() - 1` steps of `steps` from `start`.
pub open spec fn steps_run<C: Converter, E: Executor<C>>(
    planner: Planner,
    executor: E,
    ctx: ExecutionContext<C>,
    steps: Seq<Step>,
    start: RunState,
    states: Seq<RunState>,
) -> bool {
    &&& 1 <= states.len() <= steps.len() + 1
    &&& states[0] == start
    &&& forall|k: int| 0 <= k < states.len() - 1 ==> step_done(planner, executor, ctx, steps[k], states[k], #[trigger] states[k + 1])
}

impl Workflow {
    /// Runs the steps on `data` with properties `props`: a `Target` step plans
    /// from the current properties and runs the plan; a `Delta` step sets properties.
    pub fn run_steps<C: Converter, E: Executor<C>>(
        &self,
        planner: &Planner,
        executor: &E,
        ctx: &ExecutionContext<C>,
        data: Vec<u8>,
        props: Properties,
    ) -> (r: Result<(Vec<u8>, Properties), WorkflowError>)
        ensures
            all_deltas(self.steps@) ==> (r matches Ok(out) && out.0 == data && out.1@ == deltas_applied(
                props@,
                self.steps@,
            )),
            r matches Ok(out) ==> exists|states: Seq<RunState>|
                #[trigger] steps_run(*planner, *executor, *ctx, self.steps@, (data@, props@), states)
                    && states.len() == self.steps@.len() + 1 && states.last() == (out.0@, out.1@),
            r matches Err(e) ==> exists|states: Seq<RunState>|
                #[trigger] steps_run(*planner, *executor, *ctx, self.steps@, (data@, props@), states)
                    && states.len() <= self.steps@.len() && step_failed(
                    *planner,
                    *executor,
                    *ctx,
                    self.steps@[states.len() - 1],
                    states.len() - 1,
                    states.last(),
                    e,
                ),
    {
        let ghost data0 = data;
        let ghost props0 = props;
        let mut cur = data;
        let mut cur_props = props;
        let ghost mut states: Seq<RunState> = seq![(data0@, props0@)];
        let mut i: usize = 0;
        while i < self.steps.len()
            invariant
                i <= self.steps@.len(),
                data0 == data,
                props0 == props,
                all_deltas(self.steps@) ==> cur == data0 && cur_props@ == deltas_applied(
                    props0@,
                    self.steps@.subrange(0, i as int),
                ),
                steps_run(*planner, *executor, *ctx, self.steps@, (data0@, props0@), states),
                states.len() == i + 1,
                states.last() == (cur@, cur_props@),
            decreases self.steps.len() - i,
        {
            proof {
                let sub = self.steps@.subrange(0, i + 1);
                assert(sub.drop_last() =~= self.steps@.subrange(0, i as int));
            }
            let ghost from = (cur@, cur_props@);
            match &self.steps[i] {
                Step::Target(target) => {
                    let plan = match planner.plan(&*ctx.registry, &cur_props, target) {
                        Ok(p) => p,
                        Err(error) => {
                            let e = WorkflowError::Plan { step: i, error };
                            assert(step_failed(*planner, *executor, *ctx, self.steps@[i as int], i as int, states.last(), e));
                            return Err(e);
                        },
                    };
                    let outcome = executor.execute(ctx, &plan, cur, cur_props);
                    let ghost run = outcome;
                    assert(executor.runs(*ctx, plan, from.0, from.1, run));
                    let result = match outcome {
                        Ok(res) => res,
                        Err(error) => {
                            let e = WorkflowError::Execute { step: i, error };
                            assert(planner.plan_outcome((*ctx.registry)@, from.1, target@, Ok::<Plan, PlanError>(plan)));
                            assert(step_failed(*planner, *executor, *ctx, self.steps@[i as int], i as int, states.last(), e));
                            return Err(e);
                        },
                    };
                    proof {
                        assert(planner.plan_outcome((*ctx.registry)@, from.1, target@, Ok::<Plan, PlanError>(plan)));
                        assert(run == Ok::<ExecutionResult, ExecuteError>(result));
                        assert(step_done(*planner, *executor, *ctx, self.steps@[i as int], from, (result.data@, result.props@)));
                    }
                    cur = result.data;
                    cur_props = result.props;
                },
                Step::Delta(delta) => {
                    cur_props = apply_properties(cur_props, delta);
                },
            }
            proof {
                let old_states = states;
                states = states.push((cur@, cur_props@));
                assert forall|k: int| 0 <= k < states.len() - 1 implies step_done(*planner, *executor, *ctx, self.steps@[k], states[k], #[trigger] states[k + 1]) by {
                    if k < i {
                        assert(states[k] == old_states[k]);
                        assert(states[k + 1] == old_states[k + 1]);
                    }
                }
            }
            i = i + 1;
        }
        assert(self.steps@.subrange(0, self.steps@.len() as int) =~= self.steps@);
        Ok((cur, cur_props))
    }
}

} // verus!
