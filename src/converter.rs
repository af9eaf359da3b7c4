//! The converter contract: declarations of ports and patterns, and the conversion itself.

use vstd::prelude::*;

use crate::pattern::{self, PredicateModel, PropertyPattern};
use crate::properties::{self, EntriesModel, Properties, Value, ValueModel};

verus! {

/// Why a conversion failed.
#[derive(Debug)]
pub enum ConvertError {
    /// The data is malformed.
    InvalidInput(String),
    /// An internal encoding error.
    Failed(String),
    /// A declared capability was refused at run time.
    Unsupported(String),
}

/// What a conversion produces.
#[derive(Debug)]
pub enum ConvertOutput {
    Single(Vec<u8>, Properties),
    Multiple(Vec<(Vec<u8>, Properties)>),
}

/// A port of a converter, with the pattern that data on it satisfies.
#[derive(Debug)]
pub struct PortDecl {
    pub pattern: PropertyPattern,
}

impl Clone for PortDecl {
    fn clone(&self) -> (r: Self)
        ensures
            r.pattern@ == self.pattern@,
    {
        PortDecl { pattern: self.pattern.clone() }
    }
}

/// What a converter declares of itself.
///
/// `cost` is a positive integer weight; the planner minimises the sum of the weights.
#[derive(Debug)]
pub struct ConverterDecl {
    pub id: String,
    pub description: Option<String>,
    pub cost: u64,
    pub inputs: Vec<(String, PortDecl)>,
    pub outputs: Vec<(String, PortDecl)>,
}

/// The model of a declaration: id, cost, and named port patterns.
pub struct DeclModel {
    pub id: Seq<char>,
    pub cost: u64,
    pub inputs: Seq<(Seq<char>, pattern::PatternModel)>,
    pub outputs: Seq<(Seq<char>, pattern::PatternModel)>,
}

pub open spec fn ports_model(ps: Seq<(String, PortDecl)>) -> Seq<(Seq<char>, pattern::PatternModel)> {
    ps.map_values(|e: (String, PortDecl)| (e.0@, e.1.pattern@))
}

impl View for ConverterDecl {
    type V = DeclModel;

    open spec fn view(&self) -> DeclModel {
        DeclModel {
            id: self.id@,
            cost: self.cost,
            inputs: ports_model(self.inputs@),
            outputs: ports_model(self.outputs@),
        }
    }
}

/// Whether some port of `ports` has a pattern that matches `props`.
pub open spec fn some_port_matches(ports: Seq<(Seq<char>, pattern::PatternModel)>, props: EntriesModel) -> bool {
    exists|i: int| 0 <= i < ports.len() && pattern::pattern_matches(#[trigger] ports[i].1, props)
}

impl DeclModel {
    /// Whether an input port accepts `props`.
    pub open spec fn accepts(&self, props: EntriesModel) -> bool {
        some_port_matches(self.inputs, props)
    }

    /// Whether `props` satisfies an output port.
    pub open spec fn produces(&self, props: EntriesModel) -> bool {
        some_port_matches(self.outputs, props)
    }
}

fn clone_ports(ps: &Vec<(String, PortDecl)>) -> (r: Vec<(String, PortDecl)>)
    ensures
        ports_model(r@) == ports_model(ps@),
{
    let mut r: Vec<(String, PortDecl)> = Vec::new();
    let mut i: usize = 0;
    while i < ps.len()
        invariant
            i <= ps.len(),
            r@.len() == i,
            forall|j: int| 0 <= j < i ==> #[trigger] r@[j].0@ == ps@[j].0@ && r@[j].1.pattern@ == ps@[j].1.pattern@,
        decreases ps.len() - i,
    {
        r.push((ps[i].0.clone(), ps[i].1.clone()));
        i = i + 1;
    }
    assert(ports_model(r@) =~= ports_model(ps@));
    r
}

impl Clone for ConverterDecl {
    fn clone(&self) -> (r: Self)
        ensures
            r@ == self@,
    {
        let description = match &self.description {
            Some(d) => Some(d.clone()),
            None => None,
        };
        ConverterDecl {
            id: self.id.clone(),
            description,
            cost: self.cost,
            inputs: clone_ports(&self.inputs),
            outputs: clone_ports(&self.outputs),
        }
    }
}

impl ConverterDecl {
    /// A declaration with one input port `in` and one output port `out`, of cost 1.
    pub fn simple(id: &str, input: PropertyPattern, output: PropertyPattern) -> (r: ConverterDecl)
        ensures
            r@ == (DeclModel {
                id: id@,
                cost: 1,
                inputs: seq![("in"@, input@)],
                outputs: seq![("out"@, output@)],
            }),
            r.description is None,
    {
        let ghost im = input@;
        let ghost om = output@;
        let mut inputs: Vec<(String, PortDecl)> = Vec::new();
        inputs.push(("in".to_string(), PortDecl { pattern: input }));
        let mut outputs: Vec<(String, PortDecl)> = Vec::new();
        outputs.push(("out".to_string(), PortDecl { pattern: output }));
        let r = ConverterDecl { id: id.to_string(), description: None, cost: 1, inputs, outputs };
        assert(ports_model(r.inputs@) =~= seq![("in"@, im)]);
        assert(ports_model(r.outputs@) =~= seq![("out"@, om)]);
        r
    }

    /// The same declaration with a description.
    pub fn description(self, text: &str) -> (r: ConverterDecl)
        ensures
            r@ == self@,
            r.description is Some,
            r.description->0@ == text@,
    {
        ConverterDecl { description: Some(text.to_string()), ..self }
    }

    /// The same declaration with cost `cost`.
    pub fn cost(self, cost: u64) -> (r: ConverterDecl)
        requires
            cost > 0,
        ensures
            r@ == (DeclModel { cost, ..self@ }),
            r.description == self.description,
    {
        ConverterDecl { cost, ..self }
    }
}

/// A unit of work with a declaration and a byte transformation.
///
/// Given properties that an input port of its declaration accepts, a single
/// output's properties should satisfy an output port of the declaration.
///
/// An implementation may state its behaviour through the spec functions below;
/// their defaults state nothing.
pub trait Converter {
    /// Whether `decl_model` is the model of what `decl` returns.
    open spec fn states_decl(&self) -> bool {
        false
    }

    /// The model of the declaration, where `states_decl` holds.
    open spec fn decl_model(&self) -> DeclModel {
        arbitrary()
    }

    /// What converting `input` with `props` may return.
    open spec fn converts(&self, input: Seq<u8>, props: EntriesModel, out: Result<ConvertOutput, ConvertError>) -> bool {
        true
    }

    fn decl(&self) -> (r: &ConverterDecl)
        ensures
            self.states_decl() ==> r@ == self.decl_model(),
    ;

    fn convert(&self, input: &[u8], props: &Properties) -> (r: Result<ConvertOutput, ConvertError>)
        ensures
            self.converts(input@, props@, r),
    ;
}

/// The pattern `format == f`.
pub open spec fn format_pattern(f: Seq<char>) -> pattern::PatternModel {
    seq![("format"@, PredicateModel::Eq(ValueModel::Str(f)))]
}

pub open spec fn format_decl_model(id: Seq<char>, from: Seq<char>, to: Seq<char>) -> DeclModel {
    DeclModel {
        id,
        cost: 1,
        inputs: seq![("in"@, format_pattern(from))],
        outputs: seq![("out"@, format_pattern(to))],
    }
}

/// A declaration `id` from `format == from` to `format == to`, with one port each.
pub fn format_decl(id: &str, from: &str, to: &str) -> (r: ConverterDecl)
    ensures
        r@ == format_decl_model(id@, from@, to@),
{
    let input = PropertyPattern::new().eq("format", Value::text(from));
    let output = PropertyPattern::new().eq("format", Value::text(to));
    proof {
        assert(input@ =~= format_pattern(from@));
        assert(output@ =~= format_pattern(to@));
    }
    ConverterDecl::simple(id, input, output)
}

/// `props` with `format` set to `f`.
pub fn with_format(props: &Properties, f: &str) -> (r: Properties)
    ensures
        r@ == properties::upsert(props@, "format"@, ValueModel::Str(f@)),
        properties::lookup(r@, "format"@) == Some(ValueModel::Str(f@)),
{
    proof {
        use_type_invariant(props);
        properties::lemma_upsert_unique(props@, "format"@, ValueModel::Str(f@));
    }
    let mut r = props.clone();
    r.insert("format".to_string(), Value::text(f));
    r
}

/// Properties whose `format` is `f` satisfy the output port of a declaration
/// whose only output pattern is `format == f`.
pub proof fn lemma_format_produced(d: DeclModel, f: Seq<char>, props: EntriesModel)
    requires
        d.outputs.len() >= 1,
        d.outputs[0].1 == format_pattern(f),
        properties::lookup(props, "format"@) == Some(ValueModel::Str(f)),
    ensures
        d.produces(props),
{
    assert(pattern::pattern_matches(d.outputs[0].1, props));
}

} // verus!
