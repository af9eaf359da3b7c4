//! Predicates over a single property value, and patterns over properties.

use vstd::prelude::*;

use crate::properties::{self, clone_list, values_equal, EntriesModel, Properties, Value, ValueModel};

verus! {

/// Whether the regular expression `pattern` compiles and finds a match in `text`.
pub uninterp spec fn regex_finds(pattern: Seq<char>, text: Seq<char>) -> bool;

/// Relies on `regex::Regex::new` and `regex::Regex::is_match`: the answer depends on
/// the pattern and the text alone; a pattern that does not compile matches nothing.
#[verifier::external_body]
fn regex_is_match(pattern: &str, text: &str) -> (r: bool)
    ensures
        r == regex_finds(pattern@, text@),
{
    match regex::Regex::new(pattern) {
        Ok(re) => re.is_match(text),
        Err(_) => false,
    }
}

/// A condition on the value of one property.
#[derive(Debug)]
pub enum Predicate {
    /// The key is present.
    Exists,
    /// The value equals this one.
    Eq(Value),
    /// The value is present and differs from this one.
    NotEq(Value),
    /// The value equals one of these.
    OneOf(Vec<Value>),
    /// The value is a string in which this regular expression finds a match.
    Matches(String),
    /// The value is an integer within these inclusive bounds.
    Range(i64, i64),
}

/// The mathematical model of a `Predicate`.
pub enum PredicateModel {
    Exists,
    Eq(ValueModel),
    NotEq(ValueModel),
    OneOf(Seq<ValueModel>),
    Matches(Seq<char>),
    Range(i64, i64),
}

impl Predicate {
    pub open spec fn model(&self) -> PredicateModel {
        match self {
            Predicate::Exists => PredicateModel::Exists,
            Predicate::Eq(v) => PredicateModel::Eq(v.model()),
            Predicate::NotEq(v) => PredicateModel::NotEq(v.model()),
            Predicate::OneOf(vs) => PredicateModel::OneOf(properties::list_model(vs@)),
            Predicate::Matches(re) => PredicateModel::Matches(re@),
            Predicate::Range(lo, hi) => PredicateModel::Range(*lo, *hi),
        }
    }
}

impl Clone for Predicate {
    fn clone(&self) -> (r: Self)
        ensures
            r.model() == self.model(),
    {
        match self {
            Predicate::Exists => Predicate::Exists,
            Predicate::Eq(v) => Predicate::Eq(v.clone()),
            Predicate::NotEq(v) => Predicate::NotEq(v.clone()),
            Predicate::OneOf(vs) => Predicate::OneOf(clone_list(vs)),
            Predicate::Matches(re) => Predicate::Matches(re.clone()),
            Predicate::Range(lo, hi) => Predicate::Range(*lo, *hi),
        }
    }
}

pub open spec fn option_model(v: Option<&Value>) -> Option<ValueModel> {
    match v {
        Some(x) => Some(x.model()),
        None => None,
    }
}

/// Whether predicate `p` holds of the (possibly missing) value `v`.
pub open spec fn holds(p: PredicateModel, v: Option<ValueModel>) -> bool {
    match v {
        None => false,
        Some(x) => match p {
            PredicateModel::Exists => true,
            PredicateModel::Eq(y) => x == y,
            PredicateModel::NotEq(y) => x != y,
            PredicateModel::OneOf(ys) => ys.contains(x),
            PredicateModel::Matches(re) => match x {
                ValueModel::Str(t) => regex_finds(re, t),
                _ => false,
            },
            PredicateModel::Range(lo, hi) => match x {
                ValueModel::Int(i) => lo <= i <= hi,
                _ => false,
            },
        },
    }
}

/// Evaluates `pred` against the value of a property, `None` when the key is missing.
pub fn evaluate(pred: &Predicate, value: Option<&Value>) -> (r: bool)
    ensures
        r == holds(pred.model(), option_model(value)),
{
    match value {
        None => false,
        Some(x) => match pred {
            Predicate::Exists => true,
            Predicate::Eq(y) => values_equal(x, y),
            Predicate::NotEq(y) => !values_equal(x, y),
            Predicate::OneOf(ys) => {
                proof {
                    properties::lemma_list_model(ys@);
                }
                let mut i: usize = 0;
                while i < ys.len()
                    invariant
                        i <= ys.len(),
                        pred is OneOf,
                        pred->OneOf_0 == *ys,
                        value == Some(x),
                        properties::list_model(ys@).len() == ys.len(),
                        forall|j: int| 0 <= j < ys.len() ==> #[trigger] properties::list_model(ys@)[j] == ys@[j].model(),
                        forall|j: int| 0 <= j < i ==> properties::list_model(ys@)[j] != x.model(),
                    decreases ys.len() - i,
                {
                    if values_equal(x, &ys[i]) {
                        assert(properties::list_model(ys@)[i as int] == x.model());
                        assert(properties::list_model(ys@).contains(x.model()));
                        return true;
                    }
                    i = i + 1;
                }
                false
            },
            Predicate::Matches(re) => match x {
                Value::Str(t) => regex_is_match(re.as_str(), t.as_str()),
                _ => false,
            },
            Predicate::Range(lo, hi) => match x {
                Value::Int(i) => *lo <= *i && *i <= *hi,
                _ => false,
            },
        },
    }
}


/// The keys of a pattern with the models of their predicates, in order.
pub type PatternModel = Seq<(Seq<char>, PredicateModel)>;

pub open spec fn pattern_model(l: Seq<(String, Predicate)>) -> PatternModel {
    l.map_values(|e: (String, Predicate)| (e.0@, e.1.model()))
}

/// Every predicate of `pat` holds of the value its key has in `props`.
pub open spec fn pattern_matches(pat: PatternModel, props: EntriesModel) -> bool {
    forall|i: int| 0 <= i < pat.len() ==> holds(#[trigger] pat[i].1, properties::lookup(props, pat[i].0))
}

/// The least update of `props` that a pattern guarantees: each `Eq(v)`, and each
/// `OneOf` of a single value `v`, sets its key to `v`; other predicates leave their key alone.
pub open spec fn project(props: EntriesModel, pat: PatternModel) -> EntriesModel
    decreases pat.len(),
{
    if pat.len() == 0 {
        props
    } else {
        let prev = project(props, pat.drop_last());
        let k = pat.last().0;
        match pat.last().1 {
            PredicateModel::Eq(v) => properties::upsert(prev, k, v),
            PredicateModel::OneOf(vs) => if vs.len() == 1 {
                properties::upsert(prev, k, vs[0])
            } else {
                prev
            },
            _ => prev,
        }
    }
}

/// `a` conjoined with `b`: on a key that both constrain, `b`'s predicate wins.
pub open spec fn conjoin(a: PatternModel, b: PatternModel) -> PatternModel
    decreases b.len(),
{
    if b.len() == 0 {
        a
    } else {
        properties::upsert(conjoin(a, b.drop_last()), b.last().0, b.last().1)
    }
}

/// A set of predicates, one per key, that must all hold.
#[derive(Debug)]
pub struct PropertyPattern {
    predicates: Vec<(String, Predicate)>,
}

impl View for PropertyPattern {
    type V = PatternModel;

    closed spec fn view(&self) -> PatternModel {
        pattern_model(self.predicates@)
    }
}

impl PropertyPattern {
    /// Each key occurs once.
    #[verifier::type_invariant]
    pub open spec fn inv(&self) -> bool {
        properties::keys_unique(self@)
    }

    /// The empty pattern, which matches anything.
    pub fn new() -> (r: PropertyPattern)
        ensures
            r@ == Seq::<(Seq<char>, PredicateModel)>::empty(),
    {
        let r = PropertyPattern { predicates: Vec::new() };
        assert(pattern_model(r.predicates@) =~= Seq::<(Seq<char>, PredicateModel)>::empty());
        r
    }

    /// The number of constrained keys.
    pub fn len(&self) -> (r: usize)
        ensures
            r == self@.len(),
    {
        self.predicates.len()
    }

    /// The predicates in order.
    pub fn predicates(&self) -> (r: &Vec<(String, Predicate)>)
        ensures
            pattern_model(r@) == self@,
    {
        &self.predicates
    }

    fn position(&self, key: &str) -> (r: Option<usize>)
        ensures
            match r {
                Some(i) => i < self@.len() && self@[i as int].0 == key@ && properties::key_index(self@, key@)
                    == i,
                None => !properties::has_key(self@, key@),
            },
    {
        proof {
            use_type_invariant(self);
        }
        let k = key.to_string();
        let mut i: usize = 0;
        while i < self.predicates.len()
            invariant
                i <= self.predicates.len(),
                k@ == key@,
                properties::keys_unique(self@),
                self@ == pattern_model(self.predicates@),
                forall|j: int| 0 <= j < i ==> self@[j].0 != key@,
            decreases self.predicates.len() - i,
        {
            if self.predicates[i].0 == k {
                proof {
                    properties::lemma_lookup_at(self@, i as int);
                }
                return Some(i);
            }
            i = i + 1;
        }
        None
    }

    /// The predicate on `key`, if any.
    pub fn get(&self, key: &str) -> (r: Option<&Predicate>)
        ensures
            match r {
                Some(p) => properties::lookup(self@, key@) == Some(p.model()),
                None => properties::lookup(self@, key@) is None,
            },
    {
        match self.position(key) {
            Some(i) => Some(&self.predicates[i].1),
            None => None,
        }
    }

    /// The pattern with `pred` on `key`, in place of any earlier predicate on it.
    pub fn with(self, key: &str, pred: Predicate) -> (r: PropertyPattern)
        ensures
            r@ == properties::upsert(self@, key@, pred.model()),
    {
        proof {
            use_type_invariant(&self);
            properties::lemma_upsert_unique(self@, key@, pred.model());
        }
        let ghost old_model = self@;
        let pos = self.position(key);
        let PropertyPattern { mut predicates } = self;
        let ghost before = predicates@;
        let entry = (key.to_string(), pred);
        let ghost e = entry;
        match pos {
            Some(i) => {
                predicates.remove(i);
                predicates.insert(i, entry);
                assert(predicates@ =~= before.update(i as int, e));
            },
            None => {
                predicates.push(entry);
                assert(predicates@ =~= before.push(e));
            },
        }
        assert(pattern_model(predicates@) =~= properties::upsert(old_model, key@, pred.model()));
        PropertyPattern { predicates }
    }

    /// Requires `key` to equal `value`.
    pub fn eq(self, key: &str, value: Value) -> (r: PropertyPattern)
        ensures
            r@ == properties::upsert(self@, key@, PredicateModel::Eq(value.model())),
    {
        self.with(key, Predicate::Eq(value))
    }

    /// Requires `key` to be present.
    pub fn present(self, key: &str) -> (r: PropertyPattern)
        ensures
            r@ == properties::upsert(self@, key@, PredicateModel::Exists),
    {
        self.with(key, Predicate::Exists)
    }

    /// Requires `key` to equal one of `values`.
    pub fn one_of(self, key: &str, values: Vec<Value>) -> (r: PropertyPattern)
        ensures
            r@ == properties::upsert(self@, key@, PredicateModel::OneOf(properties::list_model(values@))),
    {
        self.with(key, Predicate::OneOf(values))
    }

    /// Requires `key` to be a string in which `regex` finds a match.
    pub fn matches_regex(self, key: &str, regex: &str) -> (r: PropertyPattern)
        ensures
            r@ == properties::upsert(self@, key@, PredicateModel::Matches(regex@)),
    {
        self.with(key, Predicate::Matches(regex.to_string()))
    }

    /// Requires `key` to be an integer in `lo..=hi`.
    pub fn range(self, key: &str, lo: i64, hi: i64) -> (r: PropertyPattern)
        ensures
            r@ == properties::upsert(self@, key@, PredicateModel::Range(lo, hi)),
    {
        self.with(key, Predicate::Range(lo, hi))
    }

    /// Both patterns at once; on a key that both constrain, `other` wins.
    pub fn and(self, other: &PropertyPattern) -> (r: PropertyPattern)
        ensures
            r@ == conjoin(self@, other@),
    {
        let mut r = self;
        let mut i: usize = 0;
        while i < other.predicates.len()
            invariant
                i <= other.predicates.len(),
                other@ == pattern_model(other.predicates@),
                r@ == conjoin(self@, other@.subrange(0, i as int)),
            decreases other.predicates.len() - i,
        {
            let e = &other.predicates[i];
            r = r.with(e.0.as_str(), e.1.clone());
            proof {
                let sub = other@.subrange(0, i + 1);
                assert(sub.drop_last() =~= other@.subrange(0, i as int));
            }
            i = i + 1;
        }
        assert(other@.subrange(0, other@.len() as int) =~= other@);
        r
    }

    /// Whether every predicate holds of `props`.
    pub fn matches(&self, props: &Properties) -> (r: bool)
        ensures
            r == pattern_matches(self@, props@),
    {
        let mut i: usize = 0;
        while i < self.predicates.len()
            invariant
                i <= self.predicates.len(),
                self@ == pattern_model(self.predicates@),
                forall|j: int| 0 <= j < i ==> holds(#[trigger] self@[j].1, properties::lookup(props@, self@[j].0)),
            decreases self.predicates.len() - i,
        {
            let e = &self.predicates[i];
            let v = props.get(e.0.as_str());
            if !evaluate(&e.1, v) {
                assert(self@[i as int] == (e.0@, e.1.model()));
                assert(!holds(self@[i as int].1, properties::lookup(props@, self@[i as int].0)));
                return false;
            }
            i = i + 1;
        }
        true
    }
}

impl Clone for PropertyPattern {
    fn clone(&self) -> (r: Self)
        ensures
            r@ == self@,
    {
        proof {
            use_type_invariant(self);
        }
        let mut predicates: Vec<(String, Predicate)> = Vec::new();
        let mut i: usize = 0;
        while i < self.predicates.len()
            invariant
                i <= self.predicates.len(),
                predicates@.len() == i,
                forall|j: int|
                    0 <= j < i ==> #[trigger] predicates@[j].0@ == self.predicates@[j].0@
                        && predicates@[j].1.model() == self.predicates@[j].1.model(),
            decreases self.predicates.len() - i,
        {
            let k = self.predicates[i].0.clone();
            let p = self.predicates[i].1.clone();
            predicates.push((k, p));
            i = i + 1;
        }
        assert(pattern_model(predicates@) =~= pattern_model(self.predicates@));
        PropertyPattern { predicates }
    }
}

/// `props` updated as `pattern` guarantees (see `project`).
pub fn project_properties(props: &Properties, pattern: &PropertyPattern) -> (r: Properties)
    ensures
        r@ == project(props@, pattern@),
{
    let mut r = props.clone();
    let preds = pattern.predicates();
    let mut i: usize = 0;
    while i < preds.len()
        invariant
            i <= preds.len(),
            pattern@ == pattern_model(preds@),
            r@ == project(props@, pattern@.subrange(0, i as int)),
        decreases preds.len() - i,
    {
        let ghost sub = pattern@.subrange(0, i + 1);
        proof {
            assert(sub.drop_last() =~= pattern@.subrange(0, i as int));
            assert(sub.last() == (preds@[i as int].0@, preds@[i as int].1.model()));
        }
        let e = &preds[i];
        let ghost before = r@;
        assert(before == project(props@, sub.drop_last()));
        match &e.1 {
            Predicate::Eq(v) => {
                assert(sub.last().1 == PredicateModel::Eq(v.model()));
                r.insert(e.0.clone(), v.clone());
            },
            Predicate::OneOf(vs) => {
                proof {
                    properties::lemma_list_model(vs@);
                }
                assert(sub.last().1 == PredicateModel::OneOf(properties::list_model(vs@)));
                if vs.len() == 1 {
                    r.insert(e.0.clone(), vs[0].clone());
                }
            },
            _ => {},
        }
        assert(r@ == project(props@, sub));
        i = i + 1;
    }
    assert(pattern@.subrange(0, pattern@.len() as int) =~= pattern@);
    r
}


/// Whether a pattern matches depends on what the properties map keys to, not on their order.
pub proof fn lemma_matches_same_lookups(pat: PatternModel, a: EntriesModel, b: EntriesModel)
    requires
        forall|k: Seq<char>| #[trigger] properties::lookup(a, k) == properties::lookup(b, k),
    ensures
        pattern_matches(pat, a) == pattern_matches(pat, b),
{
    if pattern_matches(pat, a) {
        assert forall|i: int| 0 <= i < pat.len() implies holds(#[trigger] pat[i].1, properties::lookup(b, pat[i].0)) by {
            assert(properties::lookup(a, pat[i].0) == properties::lookup(b, pat[i].0));
        }
    }
    if pattern_matches(pat, b) {
        assert forall|i: int| 0 <= i < pat.len() implies holds(#[trigger] pat[i].1, properties::lookup(a, pat[i].0)) by {
            assert(properties::lookup(a, pat[i].0) == properties::lookup(b, pat[i].0));
        }
    }
}

} // verus!
