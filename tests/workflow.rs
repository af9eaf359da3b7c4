use cambium::converter::{ConvertError, ConvertOutput, Converter, ConverterDecl};
use cambium::executor::{ExecutionContext, SimpleExecutor};
use cambium::pattern::PropertyPattern;
use cambium::planner::{PlanError, Planner};
use cambium::properties::{Properties, Value};
use cambium::registry::Registry;
use cambium::workflow::{Sink, Source, Step, Workflow, WorkflowError};
use std::sync::Arc;

struct Upper {
    decl: ConverterDecl,
}

impl Converter for Upper {
    fn decl(&self) -> &ConverterDecl {
        &self.decl
    }

    fn convert(&self, input: &[u8], props: &Properties) -> Result<ConvertOutput, ConvertError> {
        let mut out = props.clone();
        out.insert("format".to_string(), Value::text("upper"));
        Ok(ConvertOutput::Single(input.to_ascii_uppercase(), out))
    }
}

fn context() -> ExecutionContext<Upper> {
    let decl = ConverterDecl::simple(
        "text.lower-to-upper",
        PropertyPattern::new().eq("format", Value::text("lower")),
        PropertyPattern::new().eq("format", Value::text("upper")),
    );
    let mut registry = Registry::new();
    registry.register(Upper { decl }).unwrap();
    ExecutionContext::new(Arc::new(registry))
}

fn workflow(steps: Vec<Step>) -> Workflow {
    Workflow {
        name: "demo".to_string(),
        source: Source::Inline(b"abc".to_vec(), Properties::new()),
        steps,
        sink: Sink::Discard,
    }
}

#[test]
fn label_then_convert() {
    let wf = workflow(vec![
        Step::Delta(Properties::new().with("format", Value::text("lower"))),
        Step::Target(PropertyPattern::new().eq("format", Value::text("upper"))),
    ]);
    let (data, props) = wf
        .run_steps(&Planner::new(), &SimpleExecutor::new(), &context(), b"abc".to_vec(), Properties::new())
        .unwrap();
    assert_eq!(data, b"ABC".to_vec());
    assert_eq!(props.get("format").and_then(|v| v.as_str()), Some("upper"));
}

#[test]
fn errors_name_the_step() {
    let wf = workflow(vec![
        Step::Delta(Properties::new().with("format", Value::text("lower"))),
        Step::Target(PropertyPattern::new().eq("format", Value::text("pdf"))),
    ]);
    let r = wf.run_steps(&Planner::new(), &SimpleExecutor::new(), &context(), b"abc".to_vec(), Properties::new());
    assert!(matches!(r, Err(WorkflowError::Plan { step: 1, error: PlanError::NoPath })));
}

#[test]
fn deltas_only_relabel() {
    let wf = workflow(vec![
        Step::Delta(Properties::new().with("a", Value::Int(1))),
        Step::Delta(Properties::new().with("a", Value::Int(2)).with("b", Value::Int(3))),
    ]);
    let (data, props) = wf
        .run_steps(&Planner::new(), &SimpleExecutor::new(), &context(), b"abc".to_vec(), Properties::new())
        .unwrap();
    assert_eq!(data, b"abc".to_vec());
    assert_eq!(props.get("a").and_then(|v| v.as_i64()), Some(2));
    assert_eq!(props.len(), 2);
}

struct Failing {
    decl: ConverterDecl,
}

impl Converter for Failing {
    fn decl(&self) -> &ConverterDecl {
        &self.decl
    }

    fn convert(&self, _: &[u8], _: &Properties) -> Result<ConvertOutput, ConvertError> {
        Err(ConvertError::Failed("broken".to_string()))
    }
}

#[test]
fn execution_errors_name_the_step() {
    let decl = ConverterDecl::simple(
        "text.broken",
        PropertyPattern::new().eq("format", Value::text("lower")),
        PropertyPattern::new().eq("format", Value::text("upper")),
    );
    let mut registry = Registry::new();
    registry.register(Failing { decl }).unwrap();
    let ctx = ExecutionContext::new(Arc::new(registry));
    let wf = workflow(vec![
        Step::Delta(Properties::new().with("format", Value::text("lower"))),
        Step::Target(PropertyPattern::new().eq("format", Value::text("upper"))),
    ]);
    let r = wf.run_steps(&Planner::new(), &SimpleExecutor::new(), &ctx, b"abc".to_vec(), Properties::new());
    assert!(matches!(r, Err(WorkflowError::Execute { step: 1, .. })));
}
