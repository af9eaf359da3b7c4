use cambium::converter::{ConvertError, ConvertOutput, Converter, ConverterDecl};
use cambium::executor::{estimate_memory, ExecuteError, ExecutionContext, Executor, SimpleExecutor};
use cambium::pattern::{evaluate, project_properties, Predicate, PropertyPattern};
use cambium::planner::{Plan, PlanStep};
use cambium::properties::{values_equal, Properties, Value};
use cambium::registry::Registry;
use std::sync::Arc;

fn s(t: &str) -> Value {
    Value::text(t)
}

#[test]
fn properties_keep_order_and_replace_in_place() {
    let mut p = Properties::new().with("a", s("1")).with("b", Value::Int(2));
    assert_eq!(p.len(), 2);
    let old = p.insert("a".to_string(), Value::Bool(true));
    assert!(matches!(old, Some(Value::Str(ref x)) if x == "1"));
    assert_eq!(p.entries()[0].0, "a");
    assert_eq!(p.get("a").and_then(|v| v.as_bool()), Some(true));
    assert_eq!(p.get("b").and_then(|v| v.as_i64()), Some(2));
    assert!(p.get("c").is_none());
    assert!(p.remove("a").is_some());
    assert!(p.remove("a").is_none());
    assert_eq!(p.entries()[0].0, "b");
    assert!(!p.contains_key("a"));
}

#[test]
fn properties_equality_depends_on_order_content_does_not() {
    let ab = Properties::new().with("a", Value::Int(1)).with("b", Value::Int(2));
    let ba = Properties::new().with("b", Value::Int(2)).with("a", Value::Int(1));
    assert!(ab != ba);
    assert!(ab.same_content(&ba));
    assert!(ab == ab.clone());
}

#[test]
fn values_compare_structurally() {
    let l1 = Value::List(vec![Value::Int(1), Value::Object(vec![("k".to_string(), s("v"))])]);
    let l2 = Value::List(vec![Value::Int(1), Value::Object(vec![("k".to_string(), s("v"))])]);
    let l3 = Value::List(vec![Value::Int(1), Value::Object(vec![("k".to_string(), s("w"))])]);
    assert!(values_equal(&l1, &l2));
    assert!(!values_equal(&l1, &l3));
    assert!(l1 == l1.clone());
    assert!(Value::Int(1) != Value::Float(1));
    assert!(Value::Bytes(vec![1, 2]) == Value::Bytes(vec![1, 2]));
    assert_eq!(Value::Null.as_str(), None);
    assert_eq!(Value::Int(3).as_str(), None);
}

#[test]
fn predicates_evaluate() {
    let v = s("json");
    assert!(evaluate(&Predicate::Exists, Some(&v)));
    assert!(!evaluate(&Predicate::Exists, None));
    assert!(!evaluate(&Predicate::NotEq(s("yaml")), None));
    assert!(evaluate(&Predicate::NotEq(s("yaml")), Some(&v)));
    assert!(evaluate(&Predicate::OneOf(vec![s("x"), s("json")]), Some(&v)));
    assert!(!evaluate(&Predicate::OneOf(vec![]), Some(&v)));
    assert!(evaluate(&Predicate::Matches("^js".to_string()), Some(&v)));
    assert!(!evaluate(&Predicate::Matches("^ya".to_string()), Some(&v)));
    assert!(!evaluate(&Predicate::Matches("(".to_string()), Some(&v)));
    assert!(!evaluate(&Predicate::Matches(".*".to_string()), Some(&Value::Int(1))));
    assert!(evaluate(&Predicate::Range(1, 10), Some(&Value::Int(10))));
    assert!(!evaluate(&Predicate::Range(1, 10), Some(&Value::Int(11))));
    assert!(!evaluate(&Predicate::Range(1, 10), Some(&s("5"))));
}

#[test]
fn patterns_match_and_combine() {
    let props = Properties::new().with("format", s("png")).with("width", Value::Int(640));
    assert!(PropertyPattern::new().matches(&props));
    let p = PropertyPattern::new().eq("format", s("png")).range("width", 1, 1000);
    assert!(p.matches(&props));
    assert!(!PropertyPattern::new().present("height").matches(&props));
    assert!(PropertyPattern::new().matches_regex("format", "p.g").matches(&props));
    // later predicates win when combined
    let q = PropertyPattern::new().eq("format", s("jpg"));
    let both = q.and(&PropertyPattern::new().eq("format", s("png")));
    assert_eq!(both.len(), 1);
    assert!(both.matches(&props));
}

#[test]
fn projection_sets_only_what_is_guaranteed() {
    let props = Properties::new().with("format", s("a")).with("charset", s("utf-8"));
    let out = PropertyPattern::new()
        .eq("format", s("b"))
        .one_of("lang", vec![s("en")])
        .one_of("size", vec![s("s"), s("m")])
        .present("charset")
        .range("width", 0, 5);
    let p = project_properties(&props, &out);
    assert_eq!(p.len(), 3);
    assert_eq!(p.get("format").and_then(|v| v.as_str()), Some("b"));
    assert_eq!(p.get("lang").and_then(|v| v.as_str()), Some("en"));
    assert_eq!(p.get("charset").and_then(|v| v.as_str()), Some("utf-8"));
    assert!(p.get("size").is_none());
    assert!(p.get("width").is_none());
}

#[test]
fn candidates_in_registry_order() {
    struct Named(ConverterDecl);
    impl Converter for Named {
        fn decl(&self) -> &ConverterDecl {
            &self.0
        }
        fn convert(&self, _: &[u8], _: &Properties) -> Result<ConvertOutput, ConvertError> {
            Err(ConvertError::Unsupported("never".to_string()))
        }
    }
    let any = PropertyPattern::new();
    let mut r = Registry::new();
    r.register(Named(ConverterDecl::simple("x", PropertyPattern::new().eq("format", s("z")), any.clone()))).unwrap();
    r.register(Named(ConverterDecl::simple("y", any.clone(), any.clone()))).unwrap();
    r.register(Named(ConverterDecl::simple("w", PropertyPattern::new().eq("format", s("a")), any.clone()))).unwrap();
    let c = r.candidates(&Properties::new().with("format", s("a")));
    assert_eq!(c, vec![(1, 0), (2, 0)]);
    assert!(r.get("w").is_some());
    assert!(r.get("v").is_none());
}

/// Returns a scripted outcome.
struct Scripted {
    decl: ConverterDecl,
    outcome: fn(&[u8], &Properties) -> Result<ConvertOutput, ConvertError>,
}

impl Converter for Scripted {
    fn decl(&self) -> &ConverterDecl {
        &self.decl
    }
    fn convert(&self, input: &[u8], props: &Properties) -> Result<ConvertOutput, ConvertError> {
        (self.outcome)(input, props)
    }
}

fn one_step_plan(id: &str) -> Plan {
    Plan {
        steps: vec![PlanStep {
            converter_id: id.to_string(),
            input_port: "in".to_string(),
            output_port: "out".to_string(),
            output_properties: Properties::new(),
        }],
        cost: 1,
    }
}

fn run(outcome: fn(&[u8], &Properties) -> Result<ConvertOutput, ConvertError>) -> Result<(Vec<u8>, usize, usize), ExecuteError> {
    let decl = ConverterDecl::simple("s", PropertyPattern::new(), PropertyPattern::new());
    let mut r = Registry::new();
    r.register(Scripted { decl, outcome }).unwrap();
    let ctx = ExecutionContext::new(Arc::new(r)).with_memory_limit(100).with_parallelism(2);
    SimpleExecutor::new()
        .execute(&ctx, &one_step_plan("s"), b"in".to_vec(), Properties::new())
        .map(|res| (res.data, res.stats.peak_memory, res.stats.steps_executed))
}

#[test]
fn executor_outcomes() {
    // a list of outputs: the first is taken
    let r = run(|_, p| {
        Ok(ConvertOutput::Multiple(vec![(b"first!".to_vec(), p.clone()), (b"second".to_vec(), p.clone())]))
    });
    assert_eq!(r.unwrap(), (b"first!".to_vec(), 6, 1));
    let r = run(|_, _| Ok(ConvertOutput::Multiple(vec![])));
    assert!(matches!(r, Err(ExecuteError::EmptyPlan)));
    let r = run(|_, _| Err(ConvertError::InvalidInput("bad".to_string())));
    assert!(matches!(r, Err(ExecuteError::ConversionFailed { step: 0, source: ConvertError::InvalidInput(_) })));
    let r = run(|_, p| Ok(ConvertOutput::Single(vec![0; 101], p.clone())));
    assert!(matches!(r, Err(ExecuteError::MemoryLimitExceeded { needed: 101, limit: 100 })));
    let r = run(|_, p| Ok(ConvertOutput::Single(vec![0; 100], p.clone())));
    assert_eq!(r.unwrap().1, 100);
}

#[test]
fn memory_estimates_grow_with_size_and_steps() {
    let mut plan = Plan { steps: vec![], cost: 0 };
    assert_eq!(estimate_memory(7, &plan), 7);
    for id in ["image.png-to-bmp", "text.x", "video.a-to-b", "audio.a-to-b"] {
        plan.steps.push(one_step_plan(id).steps.remove(0));
    }
    assert_eq!(estimate_memory(7, &plan), 7 * 4 * 100 * 10);
    assert!(estimate_memory(8, &plan) >= estimate_memory(7, &plan));
    assert_eq!(estimate_memory(usize::MAX / 2, &plan), usize::MAX);
    let short = Plan { steps: plan.steps[..1].to_vec(), cost: 1 };
    assert!(estimate_memory(7, &plan) >= estimate_memory(7, &short));
}
