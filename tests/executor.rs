use cambium::converter::{ConvertError, ConvertOutput, Converter, ConverterDecl};
use cambium::executor::{estimate_memory, ExecutionContext, Executor, Job, SimpleExecutor};
use cambium::pattern::{Predicate, PropertyPattern};
use cambium::planner::{Plan, PlanStep};
use cambium::properties::{Properties, Value};
use cambium::registry::Registry;
use std::sync::Arc;

struct IdentityConverter {
    decl: ConverterDecl,
}

impl IdentityConverter {
    fn new(from: &str, to: &str) -> Self {
        let id = format!("test.{}-to-{}", from, to);
        let decl = ConverterDecl::simple(
            &id,
            PropertyPattern::new().eq("format", Value::text(from)),
            PropertyPattern::new().eq("format", Value::text(to)),
        );
        Self { decl }
    }
}

impl Converter for IdentityConverter {
    fn decl(&self) -> &ConverterDecl {
        &self.decl
    }

    fn convert(&self, input: &[u8], props: &Properties) -> Result<ConvertOutput, ConvertError> {
        let mut out_props = props.clone();
        let to_format = self
            .decl
            .outputs
            .iter()
            .find(|(name, _)| name == "out")
            .and_then(|(_, p)| p.pattern.get("format"))
            .and_then(|pred| {
                if let Predicate::Eq(v) = pred {
                    v.as_str()
                } else {
                    None
                }
            })
            .unwrap_or("unknown");
        out_props.insert("format".into(), Value::text(to_format));
        Ok(ConvertOutput::Single(input.to_vec(), out_props))
    }
}

fn step(id: &str, format: &str) -> PlanStep {
    PlanStep {
        converter_id: id.into(),
        input_port: "in".into(),
        output_port: "out".into(),
        output_properties: Properties::new().with("format", Value::text(format)),
    }
}

#[test]
fn test_simple_executor() {
    let mut registry = Registry::new();
    registry.register(IdentityConverter::new("a", "b")).unwrap();
    registry.register(IdentityConverter::new("b", "c")).unwrap();

    let ctx = ExecutionContext::new(Arc::new(registry));

    let plan = Plan {
        steps: vec![step("test.a-to-b", "b"), step("test.b-to-c", "c")],
        cost: 2,
    };

    let executor = SimpleExecutor::new();
    let input = b"test data".to_vec();
    let props = Properties::new().with("format", Value::text("a"));

    let result = executor.execute(&ctx, &plan, input.clone(), props).unwrap();

    assert_eq!(result.data, input);
    assert_eq!(
        result.props.get("format").and_then(|v| v.as_str()),
        Some("c")
    );
    assert_eq!(result.stats.steps_executed, 2);
}

#[test]
fn test_execute_empty_plan() {
    let registry: Registry<IdentityConverter> = Registry::new();
    let ctx = ExecutionContext::new(Arc::new(registry));

    let plan = Plan {
        steps: vec![],
        cost: 0,
    };

    let executor = SimpleExecutor::new();
    let input = b"test data".to_vec();
    let props = Properties::new().with("format", Value::text("a"));

    let result = executor
        .execute(&ctx, &plan, input.clone(), props.clone())
        .unwrap();

    assert_eq!(result.data, input);
    assert_eq!(result.props, props);
    assert_eq!(result.stats.steps_executed, 0);
}

#[test]
fn test_estimate_memory() {
    let plan = Plan {
        steps: vec![PlanStep {
            converter_id: "audio.mp3-to-wav".into(),
            input_port: "in".into(),
            output_port: "out".into(),
            output_properties: Properties::new(),
        }],
        cost: 1,
    };

    let estimate = estimate_memory(1000, &plan);
    assert_eq!(estimate, 10000);
}

#[test]
fn test_execute_batch() {
    let mut registry = Registry::new();
    registry.register(IdentityConverter::new("a", "b")).unwrap();

    let ctx = ExecutionContext::new(Arc::new(registry));

    let plan = Plan {
        steps: vec![step("test.a-to-b", "b")],
        cost: 1,
    };

    let jobs = vec![
        Job::new(
            plan.clone(),
            b"one".to_vec(),
            Properties::new().with("format", Value::text("a")),
        ),
        Job::new(
            plan.clone(),
            b"two".to_vec(),
            Properties::new().with("format", Value::text("a")),
        ),
        Job::new(
            plan,
            b"three".to_vec(),
            Properties::new().with("format", Value::text("a")),
        ),
    ];

    let executor = SimpleExecutor::new();
    let results = executor.execute_batch(&ctx, jobs);

    assert_eq!(results.len(), 3);
    assert!(results.iter().all(|r| r.is_ok()));
}
