//! Uniform-cost search for a chain of converters from a source property state
//! to one that a target pattern matches.

use vstd::prelude::*;

use crate::converter::{Converter, DeclModel};
use crate::pattern::{self, project_properties, PropertyPattern};
use crate::properties::{EntriesModel, Properties};
use crate::registry::{self, Registry};

verus! {

/// One hop of a plan: the converter, the ports used, and the properties that
/// its declaration guarantees after the hop.
#[derive(Debug)]
pub struct PlanStep {
    pub converter_id: String,
    pub input_port: String,
    pub output_port: String,
    pub output_properties: Properties,
}

/// The model of a step: converter id, input port, output port, projected properties.
pub type StepModel = (Seq<char>, Seq<char>, Seq<char>, EntriesModel);

impl View for PlanStep {
    type V = StepModel;

    open spec fn view(&self) -> StepModel {
        (self.converter_id@, self.input_port@, self.output_port@, self.output_properties@)
    }
}

impl Clone for PlanStep {
    fn clone(&self) -> (r: Self)
        ensures
            r@ == self@,
    {
        PlanStep {
            converter_id: self.converter_id.clone(),
            input_port: self.input_port.clone(),
            output_port: self.output_port.clone(),
            output_properties: self.output_properties.clone(),
        }
    }
}

pub open spec fn steps_model(steps: Seq<PlanStep>) -> Seq<StepModel> {
    steps.map_values(|s: PlanStep| s@)
}

/// A sequence of steps and its total cost. No steps is the identity.
#[derive(Debug)]
pub struct Plan {
    pub steps: Vec<PlanStep>,
    pub cost: u64,
}

impl View for Plan {
    type V = Seq<StepModel>;

    open spec fn view(&self) -> Seq<StepModel> {
        steps_model(self.steps@)
    }
}

fn clone_steps(steps: &Vec<PlanStep>) -> (r: Vec<PlanStep>)
    ensures
        steps_model(r@) == steps_model(steps@),
{
    let mut r: Vec<PlanStep> = Vec::new();
    let mut i: usize = 0;
    while i < steps.len()
        invariant
            i <= steps.len(),
            r@.len() == i,
            forall|j: int| 0 <= j < i ==> #[trigger] r@[j]@ == steps@[j]@,
        decreases steps.len() - i,
    {
        r.push(steps[i].clone());
        i = i + 1;
    }
    assert(steps_model(r@) =~= steps_model(steps@));
    r
}

impl Clone for Plan {
    fn clone(&self) -> (r: Self)
        ensures
            r@ == self@,
            r.cost == self.cost,
    {
        Plan { steps: clone_steps(&self.steps), cost: self.cost }
    }
}

/// The properties before step `k` of `steps`, starting from `source`.
pub open spec fn props_before(source: EntriesModel, steps: Seq<StepModel>, k: int) -> EntriesModel {
    if k == 0 {
        source
    } else {
        steps[k - 1].3
    }
}

/// The properties after all of `steps`.
pub open spec fn plan_result(source: EntriesModel, steps: Seq<StepModel>) -> EntriesModel {
    props_before(source, steps, steps.len() as int)
}

/// Step `s` is an edge out of `prev`: a registered converter whose named input
/// port accepts `prev` and whose named output port projects `prev` to `s.3`.
pub open spec fn step_valid(ds: Seq<DeclModel>, prev: EntriesModel, s: StepModel) -> bool {
    exists|c: int, i: int, o: int|
        {
            &&& 0 <= c < ds.len()
            &&& #[trigger] ds[c].id == s.0
            &&& 0 <= i < ds[c].inputs.len()
            &&& #[trigger] ds[c].inputs[i].0 == s.1
            &&& pattern::pattern_matches(ds[c].inputs[i].1, prev)
            &&& 0 <= o < ds[c].outputs.len()
            &&& #[trigger] ds[c].outputs[o].0 == s.2
            &&& s.3 == pattern::project(prev, ds[c].outputs[o].1)
        }
}

/// Each step of `steps` is an edge out of the properties the previous one left.
pub open spec fn chain_valid(ds: Seq<DeclModel>, source: EntriesModel, steps: Seq<StepModel>) -> bool {
    forall|k: int| 0 <= k < steps.len() ==> step_valid(ds, props_before(source, steps, k), #[trigger] steps[k])
}

/// The cost of the converter with id `id`.
pub open spec fn id_cost(ds: Seq<DeclModel>, id: Seq<char>) -> nat {
    ds[choose|c: int| 0 <= c < ds.len() && ds[c].id == id].cost as nat
}

/// The sum of the costs of the converters of `steps`.
pub open spec fn steps_cost(ds: Seq<DeclModel>, steps: Seq<StepModel>) -> nat
    decreases steps.len(),
{
    if steps.len() == 0 {
        0
    } else {
        steps_cost(ds, steps.drop_last()) + id_cost(ds, steps.last().0)
    }
}

/// Why no plan was found.
#[derive(Debug)]
pub enum PlanError {
    /// No chain within the depth and cost budgets reaches the target.
    NoPath,
    /// The search stopped after its limit of expansions.
    BudgetExceeded,
}

/// Search settings.
#[derive(Debug)]
pub struct Planner {
    /// Longest plan allowed.
    pub max_depth: Option<usize>,
    /// Highest total cost allowed.
    pub max_cost: Option<u64>,
    /// How many property states the search may expand before it gives up.
    pub max_expansions: usize,
}

pub proof fn lemma_chain_push(
    ds: Seq<DeclModel>,
    source: EntriesModel,
    steps: Seq<StepModel>,
    s: StepModel,
)
    requires
        chain_valid(ds, source, steps),
        step_valid(ds, plan_result(source, steps), s),
    ensures
        chain_valid(ds, source, steps.push(s)),
        plan_result(source, steps.push(s)) == s.3,
{
    let n = steps.push(s);
    assert forall|k: int| 0 <= k < n.len() implies step_valid(ds, props_before(source, n, k), #[trigger] n[k]) by {
        if k < steps.len() {
            assert(n[k] == steps[k]);
            assert(props_before(source, n, k) == props_before(source, steps, k));
        }
    }
}

/// The properties before step `k` of a run that produced `outs`.
pub open spec fn run_before(source: EntriesModel, outs: Seq<EntriesModel>, k: int) -> EntriesModel {
    if k == 0 {
        source
    } else {
        outs[k - 1]
    }
}

/// Each converter of the run produced exactly what its declaration
/// guarantees for the properties it was given.
pub open spec fn run_follows_declarations(
    ds: Seq<DeclModel>,
    source: EntriesModel,
    steps: Seq<StepModel>,
    outs: Seq<EntriesModel>,
) -> bool {
    &&& outs.len() == steps.len()
    &&& forall|k: int, c: int, o: int|
        0 <= k < steps.len() && 0 <= c < ds.len() && 0 <= o < ds[c].outputs.len() && ds[c].id
            == #[trigger] steps[k].0 && #[trigger] ds[c].outputs[o].0 == steps[k].2 ==> outs[k]
            == pattern::project(run_before(source, outs, k), ds[c].outputs[o].1)
}

/// Running a valid chain whose converters produce what they declare gives the
/// planned properties after every step, so a plan that reaches the target in
/// the planner's model reaches it when run.
pub proof fn lemma_run_reaches_target(
    ds: Seq<DeclModel>,
    source: EntriesModel,
    steps: Seq<StepModel>,
    target: pattern::PatternModel,
    outs: Seq<EntriesModel>,
)
    requires
        chain_valid(ds, source, steps),
        pattern::pattern_matches(target, plan_result(source, steps)),
        run_follows_declarations(ds, source, steps, outs),
    ensures
        forall|k: int| 0 <= k < steps.len() ==> outs[k] == (#[trigger] steps[k]).3,
        pattern::pattern_matches(target, run_before(source, outs, outs.len() as int)),
{
    lemma_run_matches_plan(ds, source, steps, outs, steps.len() as int);
}

proof fn lemma_run_matches_plan(
    ds: Seq<DeclModel>,
    source: EntriesModel,
    steps: Seq<StepModel>,
    outs: Seq<EntriesModel>,
    n: int,
)
    requires
        0 <= n <= steps.len(),
        chain_valid(ds, source, steps),
        run_follows_declarations(ds, source, steps, outs),
    ensures
        forall|k: int| 0 <= k < n ==> outs[k] == (#[trigger] steps[k]).3,
    decreases n,
{
    if n > 0 {
        lemma_run_matches_plan(ds, source, steps, outs, n - 1);
        let k = n - 1;
        assert(step_valid(ds, props_before(source, steps, k), steps[k]));
        let (c, i, o) = choose|c: int, i: int, o: int|
            {
                &&& 0 <= c < ds.len()
                &&& #[trigger] ds[c].id == steps[k].0
                &&& 0 <= i < ds[c].inputs.len()
                &&& #[trigger] ds[c].inputs[i].0 == steps[k].1
                &&& pattern::pattern_matches(ds[c].inputs[i].1, props_before(source, steps, k))
                &&& 0 <= o < ds[c].outputs.len()
                &&& #[trigger] ds[c].outputs[o].0 == steps[k].2
                &&& steps[k].3 == pattern::project(props_before(source, steps, k), ds[c].outputs[o].1)
            };
        assert(run_before(source, outs, k) == props_before(source, steps, k));
        assert(outs[k] == pattern::project(run_before(source, outs, k), ds[c].outputs[o].1));
    }
}

/// A node of the search: a state, the steps that reached it and their cost.
struct Node {
    props: Properties,
    path: Vec<PlanStep>,
    cost: u64,
}

impl Planner {
    /// No depth or cost limit; up to 100000 expansions.
    pub fn new() -> (r: Planner)
        ensures
            r.max_depth is None,
            r.max_cost is None,
            r.max_expansions == 100000,
    {
        Planner { max_depth: None, max_cost: None, max_expansions: 100000 }
    }

    /// The same planner with a depth limit.
    pub fn with_max_depth(self, depth: usize) -> (r: Planner)
        ensures
            r.max_depth == Some(depth),
            r.max_cost == self.max_cost,
            r.max_expansions == self.max_expansions,
    {
        Planner { max_depth: Some(depth), ..self }
    }

    /// The same planner with a cost limit.
    pub fn with_max_cost(self, cost: u64) -> (r: Planner)
        ensures
            r.max_cost == Some(cost),
            r.max_depth == self.max_depth,
            r.max_expansions == self.max_expansions,
    {
        Planner { max_cost: Some(cost), ..self }
    }

    /// The same planner with another expansion limit.
    pub fn with_max_expansions(self, n: usize) -> (r: Planner)
        ensures
            r.max_expansions == n,
            r.max_depth == self.max_depth,
            r.max_cost == self.max_cost,
    {
        Planner { max_expansions: n, ..self }
    }

    pub open spec fn within_budget(&self, steps: Seq<StepModel>, cost: nat) -> bool {
        &&& (self.max_depth matches Some(d) ==> steps.len() <= d)
        &&& (self.max_cost matches Some(m) ==> cost <= m)
    }

    /// A converter that one step from the source may use within the budgets:
    /// one output port, its cost within `max_cost`, a depth of one allowed.
    pub open spec fn single_step_allowed(&self, d: DeclModel) -> bool {
        &&& d.outputs.len() == 1
        &&& (self.max_cost matches Some(m) ==> d.cost <= m)
        &&& (self.max_depth matches Some(n) ==> n >= 1)
    }

    spec fn child_exists(&self, source: &Properties, nodes: Seq<Node>, d: DeclModel) -> bool {
        exists|w: int|
            0 <= w < nodes.len() && nodes[w].props@ == pattern::project(source@, d.outputs[0].1)
                && nodes[w].cost == d.cost
    }

    spec fn source_expanded<C: Converter>(&self, registry: &Registry<C>, source: &Properties, nodes: Seq<Node>) -> bool {
        forall|c: int, p: int|
            #[trigger] registry::is_candidate(registry@, source@, c, p) && self.single_step_allowed(registry@[c])
                ==> self.child_exists(source, nodes, registry@[c])
    }

    /// The node one edge beyond `parent`, through input port `p` of converter
    /// `c`, unless the converter has other than one output or a budget forbids it.
    fn make_child<C: Converter>(&self, registry: &Registry<C>, source: &Properties, parent: &Node, c: usize, p: usize) -> (r: Option<Node>)
        requires
            registry::ids_unique(registry@),
            self.node_ok(registry, source, *parent),
            registry::is_candidate(registry@, parent.props@, c as int, p as int),
        ensures
            r matches Some(n) ==> self.node_ok(registry, source, n) && n.props@ == pattern::project(
                parent.props@,
                registry@[c as int].outputs[0].1,
            ),
            (parent.cost == 0 && parent.path@.len() == 0 && self.single_step_allowed(registry@[c as int]))
                ==> r is Some,
            r matches Some(n) ==> n.cost == parent.cost + registry@[c as int].cost,
    {
        let decl = registry.decl_at(c);
        if decl.outputs.len() != 1 {
            return None;
        }
        let new_cost = match parent.cost.checked_add(decl.cost) {
            Some(x) => x,
            None => return None,
        };
        match self.max_cost {
            Some(m) => if new_cost > m {
                return None;
            },
            None => {},
        }
        match self.max_depth {
            Some(d) => if parent.path.len() >= d {
                return None;
            },
            None => {},
        }
        let out_props = project_properties(&parent.props, &decl.outputs[0].1.pattern);
        let step = PlanStep {
            converter_id: decl.id.clone(),
            input_port: decl.inputs[p].0.clone(),
            output_port: decl.outputs[0].0.clone(),
            output_properties: out_props.clone(),
        };
        let mut path = clone_steps(&parent.path);
        let ghost pm = steps_model(path@);
        proof {
            assert(step_valid(registry@, plan_result(source@, pm), step@)) by {
                assert(registry@[c as int].id == step@.0);
                assert(registry@[c as int].inputs[p as int].0 == step@.1);
                assert(registry@[c as int].outputs[0].0 == step@.2);
                assert(registry@[c as int].outputs[0].1 == decl.outputs@[0].1.pattern@);
            }
            lemma_chain_push(registry@, source@, pm, step@);
            let d = registry@;
            let cc = choose|c2: int| 0 <= c2 < d.len() && d[c2].id == step@.0;
            assert(cc == c as int);
        }
        let ghost sm = step@;
        path.push(step);
        proof {
            assert(steps_model(path@) =~= pm.push(sm));
            assert(pm.push(sm).drop_last() =~= pm);
        }
        let child = Node { props: out_props, path, cost: new_cost };
        assert(self.node_ok(registry, source, child));
        Some(child)
    }

    /// `paths` are valid chains within the budgets from `source`, none ending
    /// where `target` matches, no two ending in properties with the same entries.
    pub open spec fn distinct_dead_ends(
        &self,
        ds: Seq<DeclModel>,
        source: EntriesModel,
        target: pattern::PatternModel,
        paths: Seq<Seq<StepModel>>,
    ) -> bool {
        &&& forall|i: int| 0 <= i < paths.len() ==> {
            &&& chain_valid(ds, source, #[trigger] paths[i])
            &&& self.within_budget(paths[i], steps_cost(ds, paths[i]))
            &&& !pattern::pattern_matches(target, plan_result(source, paths[i]))
        }
        &&& forall|i: int, j: int| 0 <= i < j < paths.len() ==> !(crate::properties::same_content(
            plan_result(source, #[trigger] paths[i]),
            plan_result(source, #[trigger] paths[j]),
        ) && crate::properties::same_content(plan_result(source, paths[j]), plan_result(source, paths[i])))
    }

    /// What `plan` promises for `source`, `target` and a registry with declarations `ds`.
    pub open spec fn plan_outcome(
        &self,
        ds: Seq<DeclModel>,
        source: EntriesModel,
        target: pattern::PatternModel,
        r: Result<Plan, PlanError>,
    ) -> bool {
        &&& (pattern::pattern_matches(target, source) ==> (r matches Ok(p) && p.steps@.len() == 0
                && p.cost == 0))
        &&& (r matches Ok(p) ==> {
                &&& chain_valid(ds, source, p@)
                &&& pattern::pattern_matches(target, plan_result(source, p@))
                &&& p.cost as nat == steps_cost(ds, p@)
                &&& self.within_budget(p@, p.cost as nat)
            })
        &&& (r matches Ok(plan) ==> forall|c: int, p: int|
                #[trigger] registry::is_candidate(ds, source, c, p) && self.single_step_allowed(
                    ds[c],
                ) && pattern::pattern_matches(target, pattern::project(source, ds[c].outputs[0].1))
                    ==> plan.cost <= ds[c].cost)
        &&& (r matches Err(PlanError::BudgetExceeded) ==> exists|paths: Seq<Seq<StepModel>>|
                #[trigger] self.distinct_dead_ends(ds, source, target, paths) && paths.len() == self.max_expansions)
        &&& (r matches Err(PlanError::NoPath) ==> forall|c: int, p: int|
                #[trigger] registry::is_candidate(ds, source, c, p) && self.single_step_allowed(
                    ds[c],
                ) ==> !pattern::pattern_matches(
                    target,
                    pattern::project(source, ds[c].outputs[0].1),
                ))
    }

    spec fn node_ok<C: Converter>(&self, registry: &Registry<C>, source: &Properties, n: Node) -> bool {
        &&& chain_valid(registry@, source@, steps_model(n.path@))
        &&& plan_result(source@, steps_model(n.path@)) == n.props@
        &&& n.cost as nat == steps_cost(registry@, steps_model(n.path@))
        &&& self.within_budget(steps_model(n.path@), n.cost as nat)
    }

    /// A cheapest-first search from `source` for a state that `target` matches.
    ///
    /// Nodes are expanded in order of total cost, ties in order of discovery;
    /// edges are tried in registry order. States with the same entries are
    /// expanded once. Converters with more than one output port are not used.
    #[verifier::rlimit(100)]
    pub fn plan<C: Converter>(
        &self,
        registry: &Registry<C>,
        source: &Properties,
        target: &PropertyPattern,
    ) -> (r: Result<Plan, PlanError>)
        ensures
            pattern::pattern_matches(target@, source@) ==> (r matches Ok(p) && p.steps@.len() == 0
                && p.cost == 0),
            r matches Ok(p) ==> {
                &&& chain_valid(registry@, source@, p@)
                &&& pattern::pattern_matches(target@, plan_result(source@, p@))
                &&& p.cost as nat == steps_cost(registry@, p@)
                &&& self.within_budget(p@, p.cost as nat)
            },
            r matches Ok(plan) ==> forall|c: int, p: int|
                #[trigger] registry::is_candidate(registry@, source@, c, p) && self.single_step_allowed(
                    registry@[c],
                ) && pattern::pattern_matches(target@, pattern::project(source@, registry@[c].outputs[0].1))
                    ==> plan.cost <= registry@[c].cost,
            r matches Err(PlanError::BudgetExceeded) ==> exists|paths: Seq<Seq<StepModel>>|
                #[trigger] self.distinct_dead_ends(registry@, source@, target@, paths) && paths.len() == self.max_expansions,
            r matches Err(PlanError::NoPath) ==> forall|c: int, p: int|
                #[trigger] registry::is_candidate(registry@, source@, c, p) && self.single_step_allowed(
                    registry@[c],
                ) ==> !pattern::pattern_matches(
                    target@,
                    pattern::project(source@, registry@[c].outputs[0].1),
                ),
            self.plan_outcome(registry@, source@, target@, r),
    {
        if target.matches(source) {
            return Ok(Plan { steps: Vec::new(), cost: 0 });
        }
        proof {
            use_type_invariant(registry);
        }
        let registry_len = registry.len();
        let mut nodes: Vec<Node> = Vec::new();
        let start = Node { props: source.clone(), path: Vec::new(), cost: 0 };
        proof {
            assert(steps_model(start.path@) =~= Seq::<StepModel>::empty());
        }
        nodes.push(start);
        let mut open: Vec<usize> = Vec::new();
        open.push(0);
        let mut visited: Vec<Properties> = Vec::new();
        let mut expansions: usize = 0;
        let ghost mut expanded: Seq<Seq<StepModel>> = Seq::empty();
        while open.len() > 0
            invariant
                !pattern::pattern_matches(target@, source@),
                registry::ids_unique(registry@),
                registry@.len() == registry_len,
                nodes@.len() >= 1,
                nodes@[0].props@ == source@,
                nodes@[0].path@.len() == 0,
                nodes@[0].cost == 0,
                forall|k: int| 0 <= k < nodes@.len() ==> self.node_ok(registry, source, #[trigger] nodes@[k]),
                forall|k: int| 0 <= k < open@.len() ==> #[trigger] open@[k] < nodes@.len(),
                forall|k: usize|
                    k < nodes@.len() ==> open@.contains(k) || !pattern::pattern_matches(
                        target@,
                        #[trigger] nodes@[k as int].props@,
                    ),
                forall|v: int| 0 <= v < visited@.len() ==> !pattern::pattern_matches(target@, #[trigger] visited@[v]@),
                expansions == 0 ==> open@ == seq![0usize] && visited@.len() == 0,
                expansions > 0 ==> self.source_expanded(registry, source, nodes@),
                expansions <= self.max_expansions,
                expanded.len() == expansions,
                visited@.len() == expansions,
                self.distinct_dead_ends(registry@, source@, target@, expanded),
                forall|v: int| 0 <= v < visited@.len() ==> #[trigger] visited@[v]@ == plan_result(source@, expanded[v]),
            decreases self.max_expansions - expansions, open.len(),
        {
            if expansions == self.max_expansions {
                return Err(PlanError::BudgetExceeded);
            }
            let first = expansions == 0;
            // the open node of least cost, the earliest found among equals
            let mut best: usize = 0;
            let mut k: usize = 1;
            while k < open.len()
                invariant
                    best < open.len(),
                    1 <= k <= open.len(),
                    forall|j: int| 0 <= j < open@.len() ==> #[trigger] open@[j] < nodes@.len(),
                    forall|j: int| 0 <= j < k ==> nodes@[open@[best as int] as int].cost <= nodes@[#[trigger] open@[j] as int].cost,
                decreases open.len() - k,
            {
                if nodes[open[k]].cost < nodes[open[best]].cost {
                    best = k;
                }
                k = k + 1;
            }
            let ghost open_before = open@;
            let idx = open.remove(best);
            proof {
                assert forall|j: int| 0 <= j < open@.len() implies #[trigger] open@[j] < nodes@.len() by {
                    if j < best {
                        assert(open@[j] == open_before[j]);
                    } else {
                        assert(open@[j] == open_before[j + 1]);
                    }
                }
                assert forall|k: usize| k < nodes@.len() && k != idx && open_before.contains(k) implies #[trigger] open@.contains(k) by {
                    let j = choose|j: int| 0 <= j < open_before.len() && open_before[j] == k;
                    assert(open_before[best as int] == idx);
                    if j < best {
                        assert(open@[j] == open_before[j]);
                    } else {
                        assert(j != best);
                        assert(open@[j - 1] == open_before[j]);
                    }
                }
                if first {
                    assert(idx == 0);
                }
            }
            let mut seen = false;
            let mut v: usize = 0;
            while v < visited.len()
                invariant
                    v <= visited.len(),
                    idx < nodes@.len(),
                    seen ==> !pattern::pattern_matches(target@, nodes@[idx as int].props@),
                    seen ==> visited@.len() > 0,
                    !seen ==> forall|w: int| 0 <= w < v ==> !(crate::properties::same_content(#[trigger] visited@[w]@, nodes@[idx as int].props@)
                        && crate::properties::same_content(nodes@[idx as int].props@, visited@[w]@)),
                    forall|w: int| 0 <= w < visited@.len() ==> !pattern::pattern_matches(target@, #[trigger] visited@[w]@),
                decreases visited.len() - v,
            {
                let a = &visited[v];
                let b = &nodes[idx].props;
                if a.same_content(b) && b.same_content(a) {
                    proof {
                        use_type_invariant(a);
                        use_type_invariant(b);
                        crate::properties::lemma_same_content_lookup(a@, b@);
                        pattern::lemma_matches_same_lookups(target@, a@, b@);
                    }
                    seen = true;
                }
                v = v + 1;
            }
            if !seen {
                if target.matches(&nodes[idx].props) {
                    let n = &nodes[idx];
                    assert(self.node_ok(registry, source, nodes@[idx as int]));
                    proof {
                        assert forall|c: int, p: int|
                            #[trigger] registry::is_candidate(registry@, source@, c, p) && self.single_step_allowed(registry@[c])
                                && pattern::pattern_matches(target@, pattern::project(source@, registry@[c].outputs[0].1))
                            implies n.cost <= registry@[c].cost by {
                            assert(!first);
                            let w = choose|w: int|
                                0 <= w < nodes@.len() && nodes@[w].props@ == pattern::project(source@, registry@[c].outputs[0].1)
                                    && nodes@[w].cost == registry@[c].cost;
                            assert(nodes@[(w as usize) as int] == nodes@[w]);
                            assert(open_before.contains(w as usize));
                            let j = choose|j: int| 0 <= j < open_before.len() && open_before[j] == w as usize;
                            assert(nodes@[open_before[j] as int].cost >= nodes@[open_before[best as int] as int].cost);
                        }
                    }
                    return Ok(Plan { steps: clone_steps(&n.path), cost: n.cost });
                }
                let node_props = nodes[idx].props.clone();
                let ghost before_visited = visited@;
                visited.push(node_props);
                proof {
                    let path = steps_model(nodes@[idx as int].path@);
                    assert(self.node_ok(registry, source, nodes@[idx as int]));
                    let old_expanded = expanded;
                    expanded = expanded.push(path);
                    assert forall|i: int| 0 <= i < expanded.len() implies {
                        &&& chain_valid(registry@, source@, #[trigger] expanded[i])
                        &&& self.within_budget(expanded[i], steps_cost(registry@, expanded[i]))
                        &&& !pattern::pattern_matches(target@, plan_result(source@, expanded[i]))
                    } by {
                        if i < old_expanded.len() {
                            assert(expanded[i] == old_expanded[i]);
                        }
                    }
                    assert forall|i: int, j: int| 0 <= i < j < expanded.len() implies !(crate::properties::same_content(
                        plan_result(source@, #[trigger] expanded[i]),
                        plan_result(source@, #[trigger] expanded[j]),
                    ) && crate::properties::same_content(plan_result(source@, expanded[j]), plan_result(source@, expanded[i]))) by {
                        assert(expanded[i] == old_expanded[i]);
                        if j < old_expanded.len() {
                            assert(expanded[j] == old_expanded[j]);
                        } else {
                            assert(visited@[i] == before_visited[i]);
                            assert(before_visited[i]@ == plan_result(source@, old_expanded[i]));
                        }
                    }
                    assert forall|v: int| 0 <= v < visited@.len() implies #[trigger] visited@[v]@ == plan_result(source@, expanded[v]) by {
                        if v < before_visited.len() {
                            assert(visited@[v] == before_visited[v]);
                            assert(expanded[v] == old_expanded[v]);
                        }
                    }
                }
                expansions = expansions + 1;
                let cands = registry.candidates(&nodes[idx].props);
                assert(!pattern::pattern_matches(target@, nodes@[idx as int].props@));
                let ghost nodes_before = nodes@;
                let ghost open_mid = open@;
                let mut ci: usize = 0;
                while ci < cands.len()
                    invariant
                        registry::ids_unique(registry@),
                        idx < nodes_before.len(),
                        nodes_before.len() <= nodes@.len(),
                        forall|k: int| 0 <= k < nodes_before.len() ==> nodes@[k] == nodes_before[k],
                        nodes@[0].props@ == source@,
                        nodes@[0].path@.len() == 0,
                        nodes@[0].cost == 0,
                        first ==> idx == 0,
                        forall|k: int| 0 <= k < nodes@.len() ==> self.node_ok(registry, source, #[trigger] nodes@[k]),
                        forall|k: int| 0 <= k < open@.len() ==> #[trigger] open@[k] < nodes@.len(),
                        forall|k: int| 0 <= k < open_mid.len() ==> open@[k] == open_mid[k],
                        open_mid.len() <= open@.len(),
                        forall|k: usize| nodes_before.len() <= k < nodes@.len() ==> #[trigger] open@.contains(k),
                        forall|k: int| 0 <= k < cands@.len() ==> registry::is_candidate(registry@, nodes_before[idx as int].props@, #[trigger] cands@[k].0 as int, cands@[k].1 as int),
                        first ==> forall|k: int| 0 <= k < ci && #[trigger] self.single_step_allowed(registry@[cands@[k].0 as int]) ==> self.child_exists(
                            source,
                            nodes@,
                            registry@[cands@[k].0 as int],
                        ),
                    decreases cands.len() - ci,
                {
                    let (c, p) = cands[ci];
                    let child = self.make_child(registry, source, &nodes[idx], c, p);
                    let ghost nodes_prev = nodes@;
                    let ghost open_prev = open@;
                    match child {
                        Some(child) => {
                            nodes.push(child);
                            open.push(nodes.len() - 1);
                            proof {
                                assert(open@[open@.len() - 1] == (nodes@.len() - 1) as usize);
                                assert forall|k: usize| nodes_before.len() <= k < nodes@.len() implies #[trigger] open@.contains(k) by {
                                    if k < nodes@.len() - 1 {
                                        assert(open_prev.contains(k));
                                        let j = choose|j: int| 0 <= j < open_prev.len() && open_prev[j] == k;
                                        assert(open@[j] == open_prev[j]);
                                    }
                                }
                            }
                        },
                        None => {},
                    }
                    proof {
                        if first {
                            assert forall|k: int| 0 <= k < ci + 1 && #[trigger] self.single_step_allowed(registry@[cands@[k].0 as int]) implies self.child_exists(source, nodes@, registry@[cands@[k].0 as int]) by {
                                if k < ci {
                                    let d = registry@[cands@[k].0 as int];
                                    let w = choose|w: int| 0 <= w < nodes_prev.len() && nodes_prev[w].props@ == pattern::project(source@, d.outputs[0].1) && nodes_prev[w].cost == d.cost;
                                    assert(nodes@[w] == nodes_prev[w]);
                                } else {
                                    assert(nodes@[nodes@.len() - 1].props@ == pattern::project(source@, registry@[c as int].outputs[0].1));
                                    assert(nodes@[nodes@.len() - 1].cost == registry@[c as int].cost);
                                }
                            }
                        }
                    }
                    ci = ci + 1;
                }
                proof {
                    assert forall|k: usize| k < nodes@.len() implies open@.contains(k) || !pattern::pattern_matches(target@, #[trigger] nodes@[k as int].props@) by {
                        if k >= nodes_before.len() {
                        } else {
                            assert(nodes@[k as int] == nodes_before[k as int]);
                            if k == idx {
                                assert(!pattern::pattern_matches(target@, nodes_before[idx as int].props@));
                            } else {
                                if open_before.contains(k) {
                                    assert(open_mid.contains(k));
                                    let j = choose|j: int| 0 <= j < open_mid.len() && open_mid[j] == k;
                                    assert(open@[j] == open_mid[j]);
                                } else {
                                    assert(!pattern::pattern_matches(target@, nodes_before[k as int].props@));
                                }
                            }
                        }
                    }
                    if first {
                        assert forall|c: int, p: int| #[trigger] registry::is_candidate(registry@, source@, c, p) && self.single_step_allowed(registry@[c]) implies self.child_exists(source, nodes@, registry@[c]) by {
                            assert(cands@.contains((c as usize, p as usize)));
                            let j = choose|j: int| 0 <= j < cands@.len() && cands@[j] == (c as usize, p as usize);
                            assert(cands@[j].0 as int == c);
                            assert(self.single_step_allowed(registry@[cands@[j].0 as int]));
                        }
                    } else {
                        assert forall|c: int, p: int| #[trigger] registry::is_candidate(registry@, source@, c, p) && self.single_step_allowed(registry@[c]) implies self.child_exists(source, nodes@, registry@[c]) by {
                            let w = choose|w: int| 0 <= w < nodes_before.len() && nodes_before[w].props@ == pattern::project(source@, registry@[c].outputs[0].1) && nodes_before[w].cost == registry@[c].cost;
                            assert(nodes@[w] == nodes_before[w]);
                        }
                    }
                }
            } else {
                proof {
                    assert forall|k: usize| k < nodes@.len() implies open@.contains(k) || !pattern::pattern_matches(target@, #[trigger] nodes@[k as int].props@) by {
                        if k == idx {
                        } else {
                            if open_before.contains(k) {
                                assert(open@.contains(k));
                            }
                        }
                    }
                }
            }
        }
        proof {
            assert forall|c: int, p: int| #[trigger] registry::is_candidate(registry@, source@, c, p) && self.single_step_allowed(registry@[c]) implies !pattern::pattern_matches(target@, pattern::project(source@, registry@[c].outputs[0].1)) by {
                let w = choose|w: int| 0 <= w < nodes@.len() && nodes@[w].props@ == pattern::project(source@, registry@[c].outputs[0].1) && nodes@[w].cost == registry@[c].cost;
                assert(!open@.contains(w as usize));
                assert(nodes@[(w as usize) as int] == nodes@[w]);
            }
        }
        Err(PlanError::NoPath)
    }
}

} // verus!
