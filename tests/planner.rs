use cambium::converter::{ConvertError, ConvertOutput, Converter, ConverterDecl};
use cambium::executor::{ExecuteError, ExecutionContext, Executor, SimpleExecutor};
use cambium::pattern::{Predicate, PropertyPattern};
use cambium::planner::{Plan, PlanError, PlanStep, Planner};
use cambium::properties::{Properties, Value};
use cambium::registry::{RegisterError, Registry};
use std::sync::Arc;

/// Passes the bytes through and sets `format` to the declared output format.
struct Relabel {
    decl: ConverterDecl,
    to: String,
}

fn relabel(from: &str, to: &str, cost: u64) -> Relabel {
    let decl = ConverterDecl::simple(
        &format!("{}-to-{}", from, to),
        PropertyPattern::new().eq("format", Value::text(from)),
        PropertyPattern::new().eq("format", Value::text(to)),
    )
    .cost(cost);
    Relabel { decl, to: to.to_string() }
}

impl Converter for Relabel {
    fn decl(&self) -> &ConverterDecl {
        &self.decl
    }

    fn convert(&self, input: &[u8], props: &Properties) -> Result<ConvertOutput, ConvertError> {
        let mut out = props.clone();
        out.insert("format".to_string(), Value::text(&self.to));
        Ok(ConvertOutput::Single(input.to_vec(), out))
    }
}

/// Doubles its input.
struct Doubler {
    decl: ConverterDecl,
}

impl Converter for Doubler {
    fn decl(&self) -> &ConverterDecl {
        &self.decl
    }

    fn convert(&self, input: &[u8], props: &Properties) -> Result<ConvertOutput, ConvertError> {
        let mut data = input.to_vec();
        data.extend_from_slice(input);
        Ok(ConvertOutput::Single(data, props.clone()))
    }
}

fn format_is(f: &str) -> PropertyPattern {
    PropertyPattern::new().eq("format", Value::text(f))
}

fn props_of(f: &str) -> Properties {
    Properties::new().with("format", Value::text(f))
}

fn ids(plan: &Plan) -> Vec<String> {
    plan.steps.iter().map(|s| s.converter_id.clone()).collect()
}

#[test]
fn identity_plan() {
    let mut registry = Registry::new();
    registry.register(relabel("a", "b", 1)).unwrap();
    let plan = Planner::new().plan(&registry, &props_of("a"), &format_is("a")).unwrap();
    assert!(plan.steps.is_empty());
    assert_eq!(plan.cost, 0);
}

#[test]
fn single_step_plan_and_execution() {
    let mut registry = Registry::new();
    registry.register(relabel("a", "b", 1)).unwrap();
    let plan = Planner::new().plan(&registry, &props_of("a"), &format_is("b")).unwrap();
    assert_eq!(ids(&plan), vec!["a-to-b".to_string()]);
    assert_eq!(plan.cost, 1);
    assert_eq!(plan.steps[0].input_port, "in");
    assert_eq!(plan.steps[0].output_port, "out");
    assert!(plan.steps[0].output_properties == props_of("b"));

    let ctx = ExecutionContext::new(Arc::new(registry));
    let result = SimpleExecutor::new()
        .execute(&ctx, &plan, b"xyz".to_vec(), props_of("a"))
        .unwrap();
    assert_eq!(result.data, b"xyz".to_vec());
    assert!(result.props == props_of("b"));
    assert!(format_is("b").matches(&result.props));
}

#[test]
fn two_step_chain_is_cheaper() {
    let mut registry = Registry::new();
    registry.register(relabel("a", "b", 1)).unwrap();
    registry.register(relabel("b", "c", 1)).unwrap();
    registry.register(relabel("a", "c", 3)).unwrap();
    let plan = Planner::new().plan(&registry, &props_of("a"), &format_is("c")).unwrap();
    assert_eq!(ids(&plan), vec!["a-to-b".to_string(), "b-to-c".to_string()]);
    assert_eq!(plan.cost, 2);
}

#[test]
fn no_path() {
    let mut registry = Registry::new();
    registry.register(relabel("a", "b", 1)).unwrap();
    let r = Planner::new().plan(&registry, &props_of("a"), &format_is("z"));
    assert!(matches!(r, Err(PlanError::NoPath)));
}

#[test]
fn ties_follow_registration_order() {
    let mut registry = Registry::new();
    registry.register(relabel("a", "b1", 1)).unwrap();
    registry.register(relabel("a", "b2", 1)).unwrap();
    let p1 = Planner::new().plan(&registry, &props_of("a"), &format_is("b1")).unwrap();
    assert_eq!(ids(&p1), vec!["a-to-b1".to_string()]);
    let p2 = Planner::new().plan(&registry, &props_of("a"), &format_is("b2")).unwrap();
    assert_eq!(ids(&p2), vec!["a-to-b2".to_string()]);

    // either goal acceptable: the first registered wins
    let either = PropertyPattern::new().with(
        "format",
        Predicate::OneOf(vec![Value::text("b1"), Value::text("b2")]),
    );
    let p = Planner::new().plan(&registry, &props_of("a"), &either).unwrap();
    assert_eq!(ids(&p), vec!["a-to-b1".to_string()]);

    let mut swapped = Registry::new();
    swapped.register(relabel("a", "b2", 1)).unwrap();
    swapped.register(relabel("a", "b1", 1)).unwrap();
    let q1 = Planner::new().plan(&swapped, &props_of("a"), &format_is("b1")).unwrap();
    assert_eq!(ids(&q1), vec!["a-to-b1".to_string()]);
    let q = Planner::new().plan(&swapped, &props_of("a"), &either).unwrap();
    assert_eq!(ids(&q), vec!["a-to-b2".to_string()]);
}

#[test]
fn planning_is_deterministic() {
    let mut registry = Registry::new();
    registry.register(relabel("a", "b", 1)).unwrap();
    registry.register(relabel("b", "c", 1)).unwrap();
    registry.register(relabel("a", "x", 1)).unwrap();
    registry.register(relabel("x", "c", 1)).unwrap();
    let planner = Planner::new();
    let first = planner.plan(&registry, &props_of("a"), &format_is("c")).unwrap();
    let second = planner.plan(&registry, &props_of("a"), &format_is("c")).unwrap();
    assert_eq!(ids(&first), ids(&second));
    assert_eq!(first.cost, second.cost);
}

#[test]
fn replanning_from_after_the_first_step() {
    let mut registry = Registry::new();
    registry.register(relabel("a", "b", 1)).unwrap();
    registry.register(relabel("b", "c", 1)).unwrap();
    registry.register(relabel("c", "d", 1)).unwrap();
    let target = format_is("d");
    let full = Planner::new().plan(&registry, &props_of("a"), &target).unwrap();
    assert_eq!(full.steps.len(), 3);
    let rest = Planner::new()
        .plan(&registry, &full.steps[0].output_properties, &target)
        .unwrap();
    assert_eq!(ids(&rest), ids(&full)[1..].to_vec());
    assert_eq!(rest.cost, full.cost - 1);
}

#[test]
fn duplicate_id_is_rejected() {
    let mut registry = Registry::new();
    registry.register(relabel("a", "b", 1)).unwrap();
    let r = registry.register(relabel("a", "b", 5));
    assert!(matches!(r, Err(RegisterError::DuplicateId(ref id)) if id == "a-to-b"));
    assert_eq!(registry.len(), 1);
}

#[test]
fn budgets_prune_plans() {
    let mut registry = Registry::new();
    registry.register(relabel("a", "b", 1)).unwrap();
    registry.register(relabel("b", "c", 1)).unwrap();
    let r = Planner::new()
        .with_max_depth(1)
        .plan(&registry, &props_of("a"), &format_is("c"));
    assert!(matches!(r, Err(PlanError::NoPath)));
    let r = Planner::new()
        .with_max_cost(1)
        .plan(&registry, &props_of("a"), &format_is("c"));
    assert!(matches!(r, Err(PlanError::NoPath)));
    let ok = Planner::new()
        .with_max_cost(2)
        .plan(&registry, &props_of("a"), &format_is("c"))
        .unwrap();
    assert_eq!(ok.cost, 2);
}

#[test]
fn unrelated_keys_are_kept() {
    let mut registry = Registry::new();
    registry.register(relabel("a", "b", 1)).unwrap();
    let source = props_of("a").with("charset", Value::text("utf-8"));
    let target = format_is("b").eq("charset", Value::text("utf-8"));
    let plan = Planner::new().plan(&registry, &source, &target).unwrap();
    assert_eq!(plan.steps.len(), 1);
    let out = &plan.steps[0].output_properties;
    assert_eq!(out.get("charset").and_then(|v| v.as_str()), Some("utf-8"));
    assert_eq!(out.get("format").and_then(|v| v.as_str()), Some("b"));
}

#[test]
fn memory_limit_exceeded() {
    let mut registry = Registry::new();
    let decl = ConverterDecl::simple("double", format_is("a"), format_is("a"));
    registry.register(Doubler { decl }).unwrap();
    let ctx = ExecutionContext::new(Arc::new(registry)).with_memory_limit(1024);
    let plan = Plan {
        steps: vec![PlanStep {
            converter_id: "double".to_string(),
            input_port: "in".to_string(),
            output_port: "out".to_string(),
            output_properties: props_of("a"),
        }],
        cost: 1,
    };
    let r = SimpleExecutor::new().execute(&ctx, &plan, vec![0u8; 1024], props_of("a"));
    assert!(matches!(
        r,
        Err(ExecuteError::MemoryLimitExceeded { needed: 2048, limit: 1024 })
    ));
}

#[test]
fn missing_converter_is_reported() {
    let registry: Registry<Relabel> = Registry::new();
    let ctx = ExecutionContext::new(Arc::new(registry));
    let plan = Plan {
        steps: vec![PlanStep {
            converter_id: "nowhere".to_string(),
            input_port: "in".to_string(),
            output_port: "out".to_string(),
            output_properties: props_of("b"),
        }],
        cost: 1,
    };
    let r = SimpleExecutor::new().execute(&ctx, &plan, b"x".to_vec(), props_of("a"));
    assert!(matches!(r, Err(ExecuteError::ConverterNotFound(ref id)) if id == "nowhere"));
}

#[test]
fn budget_exceeded_after_the_expansion_limit() {
    let mut registry = Registry::new();
    registry.register(relabel("a", "b", 1)).unwrap();
    registry.register(relabel("b", "c", 1)).unwrap();
    let r = Planner::new()
        .with_max_expansions(1)
        .plan(&registry, &props_of("a"), &format_is("c"));
    assert!(matches!(r, Err(PlanError::BudgetExceeded)));
    let r = Planner::new()
        .with_max_expansions(2)
        .plan(&registry, &props_of("a"), &format_is("c"));
    assert!(matches!(r, Err(PlanError::BudgetExceeded)));
    let ok = Planner::new()
        .with_max_expansions(3)
        .plan(&registry, &props_of("a"), &format_is("c"));
    assert!(ok.is_ok());
}
