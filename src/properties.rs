//! Tagged values and ordered property maps.

use vstd::prelude::*;

verus! {

/// A tagged scalar describing one aspect of a data blob.
///
/// Floating-point numbers are carried as their IEEE-754 bit pattern.
#[derive(Debug)]
pub enum Value {
    Null,
    Bool(bool),
    Int(i64),
    Float(u64),
    Str(String),
    Bytes(Vec<u8>),
    List(Vec<Value>),
    Object(Vec<(String, Value)>),
}

/// The mathematical model of a `Value`: equality of models is structural equality.
pub enum ValueModel {
    Null,
    Bool(bool),
    Int(i64),
    Float(u64),
    Str(Seq<char>),
    Bytes(Seq<u8>),
    List(Seq<ValueModel>),
    Object(Seq<(Seq<char>, ValueModel)>),
}

pub open spec fn list_model(l: Seq<Value>) -> Seq<ValueModel>
    decreases l,
{
    if l.len() == 0 {
        Seq::empty()
    } else {
        list_model(l.drop_last()).push(l.last().model())
    }
}

pub open spec fn map_model(l: Seq<(String, Value)>) -> Seq<(Seq<char>, ValueModel)>
    decreases l,
{
    if l.len() == 0 {
        Seq::empty()
    } else {
        map_model(l.drop_last()).push((l.last().0@, l.last().1.model()))
    }
}

impl Value {
    pub open spec fn model(&self) -> ValueModel
        decreases self,
    {
        match self {
            Value::Null => ValueModel::Null,
            Value::Bool(b) => ValueModel::Bool(*b),
            Value::Int(i) => ValueModel::Int(*i),
            Value::Float(f) => ValueModel::Float(*f),
            Value::Str(s) => ValueModel::Str(s@),
            Value::Bytes(b) => ValueModel::Bytes(b@),
            Value::List(l) => ValueModel::List(list_model(l@)),
            Value::Object(m) => ValueModel::Object(map_model(m@)),
        }
    }
}


impl Clone for Value {
    /// A deep copy with the same model.
    fn clone(&self) -> (r: Self)
        ensures
            r.model() == self.model(),
    {
        copy_value(self)
    }
}

fn copy_value(v: &Value) -> (r: Value)
    ensures
        r.model() == v.model(),
    decreases v,
{
        match v {
            Value::Null => Value::Null,
            Value::Bool(b) => Value::Bool(*b),
            Value::Int(i) => Value::Int(*i),
            Value::Float(f) => Value::Float(*f),
            Value::Str(s) => Value::Str(s.clone()),
            Value::Bytes(b) => Value::Bytes(b.clone()),
            Value::List(l) => {
                let mut r: Vec<Value> = Vec::new();
                let mut i: usize = 0;
                while i < l.len()
                    invariant
                        i <= l.len(),
                        v is List,
                        v->List_0 == *l,
                        list_model(r@) == list_model(l@.subrange(0, i as int)),
                    decreases l.len() - i,
                {
                    proof {
                        assert(decreases_to!(*v => v->List_0));
                        assert(decreases_to!(l => l[i as int]));
                    }
                    let c = copy_value(&l[i]);
                    let ghost prev = r@;
                    r.push(c);
                    proof {
                        assert(l@.subrange(0, i + 1).drop_last() =~= l@.subrange(0, i as int));
                        assert(r@.drop_last() =~= prev);
                    }
                    i = i + 1;
                }
                assert(l@.subrange(0, l.len() as int) =~= l@);
                Value::List(r)
            },
            Value::Object(m) => {
                let mut r: Vec<(String, Value)> = Vec::new();
                let mut i: usize = 0;
                while i < m.len()
                    invariant
                        i <= m.len(),
                        v is Object,
                        v->Object_0 == *m,
                        map_model(r@) == map_model(m@.subrange(0, i as int)),
                    decreases m.len() - i,
                {
                    proof {
                        assert(decreases_to!(*v => v->Object_0));
                        assert(decreases_to!(m => m[i as int]));
                        assert(decreases_to!(m[i as int] => m[i as int].1));
                    }
                    let k = m[i].0.clone();
                    let c = copy_value(&m[i].1);
                    let ghost prev = r@;
                    r.push((k, c));
                    proof {
                        assert(m@.subrange(0, i + 1).drop_last() =~= m@.subrange(0, i as int));
                        assert(r@.drop_last() =~= prev);
                    }
                    i = i + 1;
                }
                assert(m@.subrange(0, m.len() as int) =~= m@);
                Value::Object(r)
            },
        }
}


/// Pointwise description of `list_model`.
pub proof fn lemma_list_model(l: Seq<Value>)
    ensures
        list_model(l).len() == l.len(),
        forall|i: int| 0 <= i < l.len() ==> #[trigger] list_model(l)[i] == l[i].model(),
    decreases l.len(),
{
    if l.len() > 0 {
        lemma_list_model(l.drop_last());
    }
}

/// Pointwise description of `map_model`.
pub proof fn lemma_map_model(l: Seq<(String, Value)>)
    ensures
        map_model(l).len() == l.len(),
        forall|i: int|
            0 <= i < l.len() ==> #[trigger] map_model(l)[i] == (l[i].0@, l[i].1.model()),
    decreases l.len(),
{
    if l.len() > 0 {
        lemma_map_model(l.drop_last());
    }
}

fn bytes_equal(a: &Vec<u8>, b: &Vec<u8>) -> (r: bool)
    ensures
        r == (a@ == b@),
{
    if a.len() != b.len() {
        return false;
    }
    let mut i: usize = 0;
    while i < a.len()
        invariant
            i <= a.len(),
            a.len() == b.len(),
            forall|j: int| 0 <= j < i ==> a@[j] == b@[j],
        decreases a.len() - i,
    {
        if a[i] != b[i] {
            return false;
        }
        i = i + 1;
    }
    assert(a@ =~= b@);
    true
}

/// Structural equality of two values.
pub fn values_equal(a: &Value, b: &Value) -> (r: bool)
    ensures
        r == (a.model() == b.model()),
    decreases a,
{
    match (a, b) {
        (Value::Null, Value::Null) => true,
        (Value::Bool(x), Value::Bool(y)) => *x == *y,
        (Value::Int(x), Value::Int(y)) => *x == *y,
        (Value::Float(x), Value::Float(y)) => *x == *y,
        (Value::Str(x), Value::Str(y)) => *x == *y,
        (Value::Bytes(x), Value::Bytes(y)) => bytes_equal(x, y),
        (Value::List(x), Value::List(y)) => {
            proof {
                lemma_list_model(x@);
                lemma_list_model(y@);
            }
            if x.len() != y.len() {
                return false;
            }
            let mut i: usize = 0;
            while i < x.len()
                invariant
                    i <= x.len(),
                    x.len() == y.len(),
                    a is List,
                    a->List_0 == *x,
                    b is List,
                    b->List_0 == *y,
                    list_model(x@).len() == x.len(),
                    list_model(y@).len() == y.len(),
                    forall|j: int| 0 <= j < x.len() ==> #[trigger] list_model(x@)[j] == x@[j].model(),
                    forall|j: int| 0 <= j < y.len() ==> #[trigger] list_model(y@)[j] == y@[j].model(),
                    forall|j: int| 0 <= j < i ==> list_model(x@)[j] == list_model(y@)[j],
                decreases x.len() - i,
            {
                proof {
                    assert(decreases_to!(*a => a->List_0));
                    assert(decreases_to!(x => x[i as int]));
                }
                if !values_equal(&x[i], &y[i]) {
                    assert(list_model(x@)[i as int] != list_model(y@)[i as int]);
                    return false;
                }
                i = i + 1;
            }
            assert(list_model(x@) =~= list_model(y@));
            true
        },
        (Value::Object(x), Value::Object(y)) => {
            proof {
                lemma_map_model(x@);
                lemma_map_model(y@);
            }
            if x.len() != y.len() {
                return false;
            }
            let mut i: usize = 0;
            while i < x.len()
                invariant
                    i <= x.len(),
                    x.len() == y.len(),
                    a is Object,
                    a->Object_0 == *x,
                    b is Object,
                    b->Object_0 == *y,
                    map_model(x@).len() == x.len(),
                    map_model(y@).len() == y.len(),
                    forall|j: int|
                        0 <= j < x.len() ==> #[trigger] map_model(x@)[j] == (
                        x@[j].0@,
                        x@[j].1.model(),
                    ),
                    forall|j: int|
                        0 <= j < y.len() ==> #[trigger] map_model(y@)[j] == (
                        y@[j].0@,
                        y@[j].1.model(),
                    ),
                    forall|j: int| 0 <= j < i ==> map_model(x@)[j] == map_model(y@)[j],
                decreases x.len() - i,
            {
                proof {
                    assert(decreases_to!(*a => a->Object_0));
                    assert(decreases_to!(x => x[i as int]));
                    assert(decreases_to!(x[i as int] => x[i as int].1));
                }
                if x[i].0 != y[i].0 {
                    assert(map_model(x@)[i as int] != map_model(y@)[i as int]);
                    return false;
                }
                if !values_equal(&x[i].1, &y[i].1) {
                    assert(map_model(x@)[i as int] != map_model(y@)[i as int]);
                    return false;
                }
                i = i + 1;
            }
            assert(map_model(x@) =~= map_model(y@));
            true
        },
        _ => false,
    }
}


impl Value {
    /// The string held, when this is a string.
    pub fn as_str(&self) -> (r: Option<&str>)
        ensures
            match self.model() {
                ValueModel::Str(t) => r is Some && r->0@ == t,
                _ => r is None,
            },
    {
        match self {
            Value::Str(s) => Some(s.as_str()),
            _ => None,
        }
    }

    /// The integer held, when this is an integer.
    pub fn as_i64(&self) -> (r: Option<i64>)
        ensures
            match self.model() {
                ValueModel::Int(i) => r == Some(i),
                _ => r is None,
            },
    {
        match self {
            Value::Int(i) => Some(*i),
            _ => None,
        }
    }

    /// The boolean held, when this is a boolean.
    pub fn as_bool(&self) -> (r: Option<bool>)
        ensures
            match self.model() {
                ValueModel::Bool(b) => r == Some(b),
                _ => r is None,
            },
    {
        match self {
            Value::Bool(b) => Some(*b),
            _ => None,
        }
    }

    /// The IEEE-754 bit pattern held, when this is a float.
    pub fn as_f64_bits(&self) -> (r: Option<u64>)
        ensures
            match self.model() {
                ValueModel::Float(f) => r == Some(f),
                _ => r is None,
            },
    {
        match self {
            Value::Float(f) => Some(*f),
            _ => None,
        }
    }

    /// The bytes held, when this is a byte blob.
    pub fn as_bytes(&self) -> (r: Option<&Vec<u8>>)
        ensures
            match self.model() {
                ValueModel::Bytes(b) => r is Some && r->0@ == b,
                _ => r is None,
            },
    {
        match self {
            Value::Bytes(b) => Some(b),
            _ => None,
        }
    }

    /// The items held, when this is a list.
    pub fn as_list(&self) -> (r: Option<&Vec<Value>>)
        ensures
            match self.model() {
                ValueModel::List(l) => r is Some && list_model(r->0@) == l,
                _ => r is None,
            },
    {
        match self {
            Value::List(l) => Some(l),
            _ => None,
        }
    }

    /// The entries held, when this is a map.
    pub fn as_map(&self) -> (r: Option<&Vec<(String, Value)>>)
        ensures
            match self.model() {
                ValueModel::Object(m) => r is Some && map_model(r->0@) == m,
                _ => r is None,
            },
    {
        match self {
            Value::Object(m) => Some(m),
            _ => None,
        }
    }
}

impl PartialEq for Value {
    fn eq(&self, other: &Value) -> (r: bool) {
        values_equal(self, other)
    }
}

impl vstd::std_specs::cmp::PartialEqSpecImpl for Value {
    open spec fn obeys_eq_spec() -> bool {
        true
    }

    open spec fn eq_spec(&self, other: &Value) -> bool {
        self.model() == other.model()
    }
}

impl Value {
    /// A string value holding `s`.
    pub fn text(s: &str) -> (r: Value)
        ensures
            r.model() == ValueModel::Str(s@),
    {
        Value::Str(s.to_string())
    }
}


/// An entry sequence: keys with the models of their values, in order.
pub type EntriesModel = Seq<(Seq<char>, ValueModel)>;

pub open spec fn has_key<V>(m: Seq<(Seq<char>, V)>, k: Seq<char>) -> bool {
    exists|i: int| 0 <= i < m.len() && m[i].0 == k
}

pub open spec fn keys_unique<V>(m: Seq<(Seq<char>, V)>) -> bool {
    forall|i: int, j: int| 0 <= i < m.len() && 0 <= j < m.len() && i != j ==> m[i].0 != m[j].0
}

/// The position of key `k` in `m`.
pub open spec fn key_index<V>(m: Seq<(Seq<char>, V)>, k: Seq<char>) -> int {
    choose|i: int| 0 <= i < m.len() && m[i].0 == k
}

/// What `m` maps `k` to.
pub open spec fn lookup<V>(m: Seq<(Seq<char>, V)>, k: Seq<char>) -> Option<V> {
    if has_key(m, k) {
        Some(m[key_index(m, k)].1)
    } else {
        None
    }
}

/// `m` with `k` mapped to `v`: in place when present, appended otherwise.
pub open spec fn upsert<V>(m: Seq<(Seq<char>, V)>, k: Seq<char>, v: V) -> Seq<(Seq<char>, V)> {
    if has_key(m, k) {
        m.update(key_index(m, k), (k, v))
    } else {
        m.push((k, v))
    }
}

/// `m` without key `k`, the order of the rest kept.
pub open spec fn remove_key<V>(m: Seq<(Seq<char>, V)>, k: Seq<char>) -> Seq<(Seq<char>, V)> {
    if has_key(m, k) {
        m.remove(key_index(m, k))
    } else {
        m
    }
}

/// Same entries, in any order.
pub open spec fn same_content(a: EntriesModel, b: EntriesModel) -> bool {
    &&& a.len() == b.len()
    &&& forall|i: int| 0 <= i < a.len() ==> lookup(b, #[trigger] a[i].0) == Some(a[i].1)
}

/// Maps with the same entries, each with unique keys, look up alike.
pub proof fn lemma_same_content_lookup(a: EntriesModel, b: EntriesModel)
    requires
        keys_unique(a),
        keys_unique(b),
        same_content(a, b),
        same_content(b, a),
    ensures
        forall|k: Seq<char>| #[trigger] lookup(a, k) == lookup(b, k),
{
    assert forall|k: Seq<char>| #[trigger] lookup(a, k) == lookup(b, k) by {
        if has_key(a, k) {
            let i = key_index(a, k);
            lemma_lookup_at(a, i);
            assert(lookup(b, a[i].0) == Some(a[i].1));
        } else if has_key(b, k) {
            let i = key_index(b, k);
            lemma_lookup_at(b, i);
            assert(lookup(a, b[i].0) == Some(b[i].1));
        }
    }
}

pub proof fn lemma_lookup_at<V>(m: Seq<(Seq<char>, V)>, i: int)
    requires
        keys_unique(m),
        0 <= i < m.len(),
    ensures
        has_key(m, m[i].0),
        key_index(m, m[i].0) == i,
        lookup(m, m[i].0) == Some(m[i].1),
{
    assert(has_key(m, m[i].0));
}

pub proof fn lemma_upsert_unique<V>(m: Seq<(Seq<char>, V)>, k: Seq<char>, v: V)
    requires
        keys_unique(m),
    ensures
        keys_unique(upsert(m, k, v)),
        lookup(upsert(m, k, v), k) == Some(v),
        has_key(m, k) ==> upsert(m, k, v).len() == m.len(),
        !has_key(m, k) ==> upsert(m, k, v).len() == m.len() + 1,
        forall|k2: Seq<char>| k2 != k ==> lookup(upsert(m, k, v), k2) == lookup(m, k2),
{
    let r = upsert(m, k, v);
    if has_key(m, k) {
        let i = key_index(m, k);
        assert(r[i].0 == k);
        lemma_lookup_at(r, i);
        assert forall|k2: Seq<char>| k2 != k implies lookup(r, k2) == lookup(m, k2) by {
            if has_key(m, k2) {
                let j = key_index(m, k2);
                assert(r[j] == m[j]);
                lemma_lookup_at(r, j);
            }
            if has_key(r, k2) {
                let j = key_index(r, k2);
                assert(r[j] == m[j]);
            }
        }
    } else {
        let i = m.len() as int;
        assert(r[i].0 == k);
        lemma_lookup_at(r, i);
        assert forall|k2: Seq<char>| k2 != k implies lookup(r, k2) == lookup(m, k2) by {
            if has_key(m, k2) {
                let j = key_index(m, k2);
                assert(r[j] == m[j]);
                lemma_lookup_at(r, j);
            }
            if has_key(r, k2) {
                let j = key_index(r, k2);
                assert(r[j] == m[j]);
            }
        }
    }
}

/// An ordered mapping from string keys to values; each key at most once.
#[derive(Debug)]
pub struct Properties {
    entries: Vec<(String, Value)>,
}

impl View for Properties {
    type V = EntriesModel;

    closed spec fn view(&self) -> EntriesModel {
        map_model(self.entries@)
    }
}

impl Properties {
    /// Each key occurs once.
    #[verifier::type_invariant]
    pub open spec fn inv(&self) -> bool {
        keys_unique(self@)
    }

    /// No properties.
    pub fn new() -> (r: Properties)
        ensures
            r@ == Seq::<(Seq<char>, ValueModel)>::empty(),
    {
        let r = Properties { entries: Vec::new() };
        proof {
            assert(map_model(r.entries@) =~= Seq::<(Seq<char>, ValueModel)>::empty());
        }
        r
    }

    /// The number of keys.
    pub fn len(&self) -> (r: usize)
        ensures
            r == self@.len(),
    {
        proof {
            lemma_map_model(self.entries@);
        }
        self.entries.len()
    }

    /// Whether there are no keys.
    pub fn is_empty(&self) -> (r: bool)
        ensures
            r == (self@.len() == 0),
    {
        self.len() == 0
    }

    /// The entries in insertion order.
    pub fn entries(&self) -> (r: &Vec<(String, Value)>)
        ensures
            map_model(r@) == self@,
    {
        &self.entries
    }

    fn position(&self, key: &str) -> (r: Option<usize>)
        ensures
            match r {
                Some(i) => i < self@.len() && self@[i as int].0 == key@ && key_index(self@, key@)
                    == i,
                None => !has_key(self@, key@),
            },
    {
        proof {
            use_type_invariant(self);
            lemma_map_model(self.entries@);
        }
        let k = key.to_string();
        let mut i: usize = 0;
        while i < self.entries.len()
            invariant
                i <= self.entries.len(),
                k@ == key@,
                keys_unique(self@),
                self@.len() == self.entries.len(),
                forall|j: int| 0 <= j < self.entries.len() ==> #[trigger] self@[j] == (
                    self.entries@[j].0@,
                    self.entries@[j].1.model(),
                ),
                forall|j: int| 0 <= j < i ==> self@[j].0 != key@,
            decreases self.entries.len() - i,
        {
            if self.entries[i].0 == k {
                proof {
                    lemma_lookup_at(self@, i as int);
                }
                return Some(i);
            }
            i = i + 1;
        }
        None
    }

    /// Moves the entries out, leaving no properties behind.
    fn take_entries(&mut self) -> (r: Vec<(String, Value)>)
        ensures
            map_model(r@) == old(self)@,
            final(self)@.len() == 0,
    {
        let mut taken = Properties::new();
        std::mem::swap(self, &mut taken);
        let Properties { entries } = taken;
        entries
    }

    /// Whether `key` is present.
    pub fn contains_key(&self, key: &str) -> (r: bool)
        ensures
            r == has_key(self@, key@),
    {
        self.position(key).is_some()
    }

    /// The value of `key`, if present.
    pub fn get(&self, key: &str) -> (r: Option<&Value>)
        ensures
            match r {
                Some(v) => lookup(self@, key@) == Some(v.model()),
                None => lookup(self@, key@) is None,
            },
    {
        proof {
            lemma_map_model(self.entries@);
        }
        match self.position(key) {
            Some(i) => Some(&self.entries[i].1),
            None => None,
        }
    }

    /// Maps `key` to `value`: an existing key keeps its place, a new one goes last.
    /// Returns the value it replaced.
    pub fn insert(&mut self, key: String, value: Value) -> (r: Option<Value>)
        ensures
            final(self)@ == upsert(old(self)@, key@, value.model()),
            match r {
                Some(v) => lookup(old(self)@, key@) == Some(v.model()),
                None => lookup(old(self)@, key@) is None,
            },
    {
        proof {
            use_type_invariant(&*self);
            lemma_map_model(self.entries@);
            lemma_upsert_unique(self@, key@, value.model());
        }
        let ghost old_model = self@;
        let ghost vm = value.model();
        let ghost km = key@;
        match self.position(key.as_str()) {
            Some(i) => {
                let mut entries = self.take_entries();
                proof {
                    lemma_map_model(entries@);
                }
                let ghost before = entries@;
                let ghost kv = (key, value);
                let old_entry = entries.remove(i);
                entries.insert(i, (key, value));
                proof {
                    assert(entries@ =~= before.update(i as int, kv));
                    lemma_map_model(entries@);
                    assert(map_model(entries@) =~= upsert(old_model, km, vm));
                }
                *self = Properties { entries };
                Some(old_entry.1)
            },
            None => {
                let mut entries = self.take_entries();
                proof {
                    lemma_map_model(entries@);
                }
                let ghost before = entries@;
                entries.push((key, value));
                proof {
                    lemma_map_model(entries@);
                    assert(map_model(entries@) =~= upsert(old_model, km, vm));
                }
                *self = Properties { entries };
                None
            },
        }
    }

    /// Builder form of `insert`.
    pub fn with(self, key: &str, value: Value) -> (r: Properties)
        ensures
            r@ == upsert(self@, key@, value.model()),
    {
        let mut p = self;
        p.insert(key.to_string(), value);
        p
    }

    /// Removes `key`, keeping the order of the others. Returns its value.
    pub fn remove(&mut self, key: &str) -> (r: Option<Value>)
        ensures
            final(self)@ == remove_key(old(self)@, key@),
            match r {
                Some(v) => lookup(old(self)@, key@) == Some(v.model()),
                None => lookup(old(self)@, key@) is None,
            },
    {
        proof {
            use_type_invariant(&*self);
            lemma_map_model(self.entries@);
        }
        let ghost old_model = self@;
        match self.position(key) {
            Some(i) => {
                let mut entries = self.take_entries();
                proof {
                    lemma_map_model(entries@);
                }
                let ghost before = entries@;
                let old_entry = entries.remove(i);
                proof {
                    assert(entries@ =~= before.remove(i as int));
                    lemma_map_model(entries@);
                    lemma_lookup_at(old_model, i as int);
                    assert(map_model(entries@) =~= remove_key(old_model, key@));
                    assert forall|a: int, b: int|
                        0 <= a < entries@.len() && 0 <= b < entries@.len() && a != b implies
                        map_model(entries@)[a].0 != map_model(entries@)[b].0 by {
                        let a2 = if a < i { a } else { a + 1 };
                        let b2 = if b < i { b } else { b + 1 };
                        assert(old_model[a2].0 != old_model[b2].0);
                    }
                }
                *self = Properties { entries };
                Some(old_entry.1)
            },
            None => None,
        }
    }

    /// Whether both hold the same entries, in any order.
    pub fn same_content(&self, other: &Properties) -> (r: bool)
        ensures
            r == same_content(self@, other@),
    {
        proof {
            lemma_map_model(self.entries@);
        }
        if self.len() != other.len() {
            return false;
        }
        let mut i: usize = 0;
        while i < self.entries.len()
            invariant
                i <= self.entries.len(),
                self@.len() == self.entries.len(),
                self@.len() == other@.len(),
                forall|j: int| 0 <= j < self.entries.len() ==> #[trigger] self@[j] == (
                    self.entries@[j].0@,
                    self.entries@[j].1.model(),
                ),
                forall|j: int| 0 <= j < i ==> lookup(other@, #[trigger] self@[j].0) == Some(self@[j].1),
            decreases self.entries.len() - i,
        {
            let e = &self.entries[i];
            match other.get(e.0.as_str()) {
                Some(v) => {
                    if !values_equal(v, &e.1) {
                        assert(self@[i as int].0 == e.0@);
                        return false;
                    }
                },
                None => {
                    assert(self@[i as int].0 == e.0@);
                    return false;
                },
            }
            i = i + 1;
        }
        true
    }
}

impl Clone for Properties {
    fn clone(&self) -> (r: Self)
        ensures
            r@ == self@,
    {
        proof {
            use_type_invariant(self);
            lemma_map_model(self.entries@);
        }
        let mut entries: Vec<(String, Value)> = Vec::new();
        let mut i: usize = 0;
        while i < self.entries.len()
            invariant
                i <= self.entries.len(),
                map_model(entries@) == map_model(self.entries@.subrange(0, i as int)),
            decreases self.entries.len() - i,
        {
            let k = self.entries[i].0.clone();
            let v = self.entries[i].1.clone();
            let ghost prev = entries@;
            entries.push((k, v));
            proof {
                assert(self.entries@.subrange(0, i + 1).drop_last() =~= self.entries@.subrange(
                    0,
                    i as int,
                ));
                assert(entries@.drop_last() =~= prev);
            }
            i = i + 1;
        }
        assert(self.entries@.subrange(0, self.entries.len() as int) =~= self.entries@);
        Properties { entries }
    }
}

impl PartialEq for Properties {
    /// Equal keys in equal order, with structurally equal values.
    fn eq(&self, other: &Properties) -> (r: bool) {
        proof {
            lemma_map_model(self.entries@);
            lemma_map_model(other.entries@);
        }
        if self.entries.len() != other.entries.len() {
            return false;
        }
        let mut i: usize = 0;
        while i < self.entries.len()
            invariant
                i <= self.entries.len(),
                self.entries.len() == other.entries.len(),
                self@.len() == self.entries.len(),
                other@.len() == other.entries.len(),
                forall|j: int| 0 <= j < self.entries.len() ==> #[trigger] self@[j] == (
                    self.entries@[j].0@,
                    self.entries@[j].1.model(),
                ),
                forall|j: int| 0 <= j < other.entries.len() ==> #[trigger] other@[j] == (
                    other.entries@[j].0@,
                    other.entries@[j].1.model(),
                ),
                forall|j: int| 0 <= j < i ==> self@[j] == other@[j],
            decreases self.entries.len() - i,
        {
            if self.entries[i].0 != other.entries[i].0 {
                assert(self@[i as int] != other@[i as int]);
                return false;
            }
            if !values_equal(&self.entries[i].1, &other.entries[i].1) {
                assert(self@[i as int] != other@[i as int]);
                return false;
            }
            i = i + 1;
        }
        assert(self@ =~= other@);
        true
    }
}

impl vstd::std_specs::cmp::PartialEqSpecImpl for Properties {
    open spec fn obeys_eq_spec() -> bool {
        true
    }

    open spec fn eq_spec(&self, other: &Properties) -> bool {
        self@ == other@
    }
}


/// A deep copy of each value of `l`, in order.
pub fn clone_list(l: &Vec<Value>) -> (r: Vec<Value>)
    ensures
        list_model(r@) == list_model(l@),
{
    let mut r: Vec<Value> = Vec::new();
    let mut i: usize = 0;
    while i < l.len()
        invariant
            i <= l.len(),
            list_model(r@) == list_model(l@.subrange(0, i as int)),
        decreases l.len() - i,
    {
        let c = copy_value(&l[i]);
        let ghost prev = r@;
        r.push(c);
        proof {
            assert(l@.subrange(0, i + 1).drop_last() =~= l@.subrange(0, i as int));
            assert(r@.drop_last() =~= prev);
        }
        i = i + 1;
    }
    assert(l@.subrange(0, l.len() as int) =~= l@);
    r
}

} // verus!
