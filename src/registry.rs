//! A collection of converters keyed by their unique ids.

use vstd::prelude::*;

use crate::converter::{Converter, ConverterDecl, DeclModel};
use crate::pattern;
use crate::properties::{EntriesModel, Properties};

verus! {

/// Why a converter could not be registered.
#[derive(Debug)]
pub enum RegisterError {
    /// A converter with this id is registered already.
    DuplicateId(String),
}

pub open spec fn decls_of<C>(es: Seq<(ConverterDecl, C)>) -> Seq<DeclModel> {
    es.map_values(|e: (ConverterDecl, C)| e.0@)
}

pub open spec fn ids_unique(ds: Seq<DeclModel>) -> bool {
    forall|i: int, j: int| 0 <= i < ds.len() && 0 <= j < ds.len() && i != j ==> ds[i].id != ds[j].id
}

pub open spec fn has_id(ds: Seq<DeclModel>, id: Seq<char>) -> bool {
    exists|i: int| 0 <= i < ds.len() && ds[i].id == id
}

/// Whether input port `p` of converter `c` accepts `props`.
pub open spec fn is_candidate(ds: Seq<DeclModel>, props: EntriesModel, c: int, p: int) -> bool {
    &&& 0 <= c < ds.len()
    &&& 0 <= p < ds[c].inputs.len()
    &&& pattern::pattern_matches(ds[c].inputs[p].1, props)
}

/// Lexicographic order of (converter, port) index pairs.
pub open spec fn pair_before(a: (usize, usize), b: (usize, usize)) -> bool {
    a.0 < b.0 || (a.0 == b.0 && a.1 < b.1)
}

/// Converters in registration order, each with the declaration it had when
/// registered; each id at most once.
pub struct Registry<C: Converter> {
    entries: Vec<(ConverterDecl, C)>,
}

impl<C: Converter> View for Registry<C> {
    type V = Seq<DeclModel>;

    closed spec fn view(&self) -> Seq<DeclModel> {
        decls_of(self.entries@)
    }
}

impl<C: Converter> Registry<C> {
    /// Each id occurs once.
    #[verifier::type_invariant]
    pub open spec fn inv(&self) -> bool {
        ids_unique(self@)
    }

    /// The converter registered at position `i`.
    pub closed spec fn converter_at(&self, i: int) -> C {
        self.entries@[i].1
    }

    /// An empty registry.
    pub fn new() -> (r: Registry<C>)
        ensures
            r@ == Seq::<DeclModel>::empty(),
    {
        let r = Registry { entries: Vec::new() };
        assert(decls_of(r.entries@) =~= Seq::<DeclModel>::empty());
        r
    }

    /// The number of converters.
    pub fn len(&self) -> (r: usize)
        ensures
            r == self@.len(),
    {
        self.entries.len()
    }

    /// Whether no converter is registered.
    pub fn is_empty(&self) -> (r: bool)
        ensures
            r == (self@.len() == 0),
    {
        self.entries.len() == 0
    }

    /// The declaration of the converter at position `i`.
    pub fn decl_at(&self, i: usize) -> (r: &ConverterDecl)
        requires
            i < self@.len(),
        ensures
            r@ == self@[i as int],
    {
        &self.entries[i].0
    }

    /// The converter at position `i` in registration order.
    pub fn at(&self, i: usize) -> (r: &C)
        requires
            i < self@.len(),
        ensures
            *r == self.converter_at(i as int),
    {
        &self.entries[i].1
    }

    /// The position of the converter with id `id`.
    pub fn index_of(&self, id: &str) -> (r: Option<usize>)
        ensures
            match r {
                Some(i) => i < self@.len() && self@[i as int].id == id@,
                None => !has_id(self@, id@),
            },
    {
        let k = id.to_string();
        let mut i: usize = 0;
        while i < self.entries.len()
            invariant
                i <= self.entries.len(),
                k@ == id@,
                self@ == decls_of(self.entries@),
                forall|j: int| 0 <= j < i ==> self@[j].id != id@,
            decreases self.entries.len() - i,
        {
            if self.entries[i].0.id == k {
                return Some(i);
            }
            i = i + 1;
        }
        None
    }

    /// The converter with id `id`, if registered.
    pub fn get(&self, id: &str) -> (r: Option<&C>)
        ensures
            r is Some <==> has_id(self@, id@),
            r matches Some(c) ==> exists|i: int|
                0 <= i < self@.len() && self@[i].id == id@ && *c == self.converter_at(i),
    {
        match self.index_of(id) {
            Some(i) => {
                let c = &self.entries[i].1;
                assert(*c == self.converter_at(i as int));
                Some(c)
            },
            None => None,
        }
    }

    /// Adds `converter` under its declaration's id, unless that id is taken.
    pub fn register(&mut self, converter: C) -> (r: Result<(), RegisterError>)
        ensures
            match r {
                Ok(()) => {
                    &&& final(self)@.len() == old(self)@.len() + 1
                    &&& final(self)@.drop_last() == old(self)@
                    &&& !has_id(old(self)@, final(self)@.last().id)
                },
                Err(RegisterError::DuplicateId(id)) => has_id(old(self)@, id@) && final(self)@
                    == old(self)@,
            },
            converter.states_decl() ==> (r is Ok <==> !has_id(old(self)@, converter.decl_model().id)),
            converter.states_decl() && r is Ok ==> final(self)@ == old(self)@.push(converter.decl_model()),
    {
        proof {
            use_type_invariant(&*self);
        }
        let decl = converter.decl().clone();
        match self.index_of(decl.id.as_str()) {
            Some(_) => Err(RegisterError::DuplicateId(decl.id)),
            None => {
                let mut taken = Registry::new();
                std::mem::swap(self, &mut taken);
                let Registry { mut entries } = taken;
                let ghost before = entries@;
                let ghost d = decl@;
                entries.push((decl, converter));
                proof {
                    assert(decls_of(entries@) =~= decls_of(before).push(d));
                    assert(decls_of(entries@).drop_last() =~= decls_of(before));
                }
                *self = Registry { entries };
                Ok(())
            },
        }
    }

    /// Registers `cs` in order, stopping at the first whose id is taken.
    pub fn register_each(&mut self, cs: Vec<C>) -> (r: Result<(), RegisterError>)
        requires
            forall|i: int| 0 <= i < cs@.len() ==> #[trigger] cs@[i].states_decl(),
            forall|i: int, j: int|
                0 <= i < j < cs@.len() ==> #[trigger] cs@[i].decl_model().id != #[trigger] cs@[j].decl_model().id,
        ensures
            r is Ok <==> forall|i: int| 0 <= i < cs@.len() ==> !has_id(old(self)@, #[trigger] cs@[i].decl_model().id),
            r is Ok ==> final(self)@ == old(self)@ + models_of(cs@),
    {
        let ghost all = cs@;
        let ghost start = self@;
        let n = cs.len();
        let mut rest = cs;
        let mut i: usize = 0;
        while i < n
            invariant
                i <= n == all.len(),
                rest@ == all.subrange(i as int, n as int),
                all == cs@,
                start == old(self)@,
                self@ == start + models_of(all).subrange(0, i as int),
                forall|j: int| 0 <= j < i ==> !has_id(start, #[trigger] all[j].decl_model().id),
                forall|j: int| 0 <= j < all.len() ==> #[trigger] all[j].states_decl(),
                forall|a: int, b: int|
                    0 <= a < b < all.len() ==> #[trigger] all[a].decl_model().id != #[trigger] all[b].decl_model().id,
            decreases n - i,
        {
            let ghost before = rest@;
            let ghost prev = self@;
            let c = rest.remove(0);
            proof {
                assert(before[0] == all[i as int]);
                assert(rest@ =~= all.subrange(i as int + 1, n as int));
                lemma_has_id_concat(start, models_of(all).subrange(0, i as int), all[i as int].decl_model().id);
                if has_id(models_of(all).subrange(0, i as int), all[i as int].decl_model().id) {
                    let j = choose|j: int| 0 <= j < i && models_of(all).subrange(0, i as int)[j].id == all[i as int].decl_model().id;
                    assert(models_of(all)[j] == all[j].decl_model());
                }
            }
            match self.register(c) {
                Ok(()) => {
                    proof {
                        assert(models_of(all).subrange(0, i as int + 1) =~= models_of(all).subrange(0, i as int).push(all[i as int].decl_model()));
                        assert(start + models_of(all).subrange(0, i as int + 1) =~= prev.push(all[i as int].decl_model()));
                    }
                },
                Err(e) => {
                    proof {
                        assert(all[i as int].states_decl());
                        assert(has_id(prev, all[i as int].decl_model().id));
                        assert(has_id(start, all[i as int].decl_model().id));
                        assert(!(forall|j: int| 0 <= j < all.len() ==> !has_id(start, #[trigger] all[j].decl_model().id)));
                    }
                    return Err(e);
                },
            }
            i = i + 1;
        }
        assert(models_of(all).subrange(0, n as int) =~= models_of(all));
        Ok(())
    }

    /// Every (converter, input port) pair whose pattern matches `props`, in
    /// registration order and then port order.
    pub fn candidates(&self, props: &Properties) -> (r: Vec<(usize, usize)>)
        ensures
            forall|k: int| 0 <= k < r@.len() ==> is_candidate(self@, props@, #[trigger] r@[k].0 as int, r@[k].1 as int),
            forall|c: int, p: int| is_candidate(self@, props@, c, p) ==> r@.contains((c as usize, p as usize)),
            forall|k: int, l: int| 0 <= k < l < r@.len() ==> pair_before(#[trigger] r@[k], #[trigger] r@[l]),
    {
        let mut r: Vec<(usize, usize)> = Vec::new();
        let mut c: usize = 0;
        while c < self.entries.len()
            invariant
                c <= self.entries.len(),
                self@ == decls_of(self.entries@),
                forall|k: int| 0 <= k < r@.len() ==> is_candidate(self@, props@, #[trigger] r@[k].0 as int, r@[k].1 as int),
                forall|k: int| 0 <= k < r@.len() ==> (#[trigger] r@[k]).0 < c,
                forall|c2: int, p: int| 0 <= c2 < c && is_candidate(self@, props@, c2, p) ==> r@.contains((c2 as usize, p as usize)),
                forall|k: int, l: int| 0 <= k < l < r@.len() ==> pair_before(#[trigger] r@[k], #[trigger] r@[l]),
            decreases self.entries.len() - c,
        {
            let d = &self.entries[c].0;
            let mut p: usize = 0;
            while p < d.inputs.len()
                invariant
                    c < self.entries.len(),
                    p <= d.inputs.len(),
                    d@ == self@[c as int],
                    self@ == decls_of(self.entries@),
                    forall|k: int| 0 <= k < r@.len() ==> is_candidate(self@, props@, #[trigger] r@[k].0 as int, r@[k].1 as int),
                    forall|k: int| 0 <= k < r@.len() ==> pair_before(#[trigger] r@[k], (c, p)),
                    forall|c2: int, p2: int| (0 <= c2 < c || (c2 == c && 0 <= p2 < p)) && is_candidate(self@, props@, c2, p2) ==> r@.contains((c2 as usize, p2 as usize)),
                    forall|k: int, l: int| 0 <= k < l < r@.len() ==> pair_before(#[trigger] r@[k], #[trigger] r@[l]),
                decreases d.inputs.len() - p,
            {
                assert(self@[c as int].inputs[p as int].1 == d.inputs@[p as int].1.pattern@);
                if d.inputs[p].1.pattern.matches(props) {
                    let ghost before = r@;
                    r.push((c, p));
                    proof {
                        assert forall|c2: int, p2: int| (0 <= c2 < c || (c2 == c && 0 <= p2 < p + 1)) && is_candidate(self@, props@, c2, p2) implies r@.contains((c2 as usize, p2 as usize)) by {
                            if c2 == c && p2 == p {
                                assert(r@[r@.len() - 1] == (c, p));
                            } else {
                                assert(before.contains((c2 as usize, p2 as usize)));
                                let k = choose|k: int| 0 <= k < before.len() && before[k] == (c2 as usize, p2 as usize);
                                assert(r@[k] == before[k]);
                            }
                        }
                    }
                }
                p = p + 1;
            }
            c = c + 1;
        }
        r
    }
}


/// The declarations that converters `cs` state, in order.
pub open spec fn models_of<C: Converter>(cs: Seq<C>) -> Seq<DeclModel> {
    cs.map_values(|c: C| c.decl_model())
}

pub proof fn lemma_has_id_concat(a: Seq<DeclModel>, b: Seq<DeclModel>, id: Seq<char>)
    ensures
        has_id(a + b, id) <==> has_id(a, id) || has_id(b, id),
{
    let s = a + b;
    if has_id(s, id) {
        let i = choose|i: int| 0 <= i < s.len() && s[i].id == id;
        if i >= a.len() {
            assert(b[i - a.len()] == s[i]);
        }
    }
    if has_id(a, id) {
        let i = choose|i: int| 0 <= i < a.len() && a[i].id == id;
        assert(s[i] == a[i]);
    }
    if has_id(b, id) {
        let i = choose|i: int| 0 <= i < b.len() && b[i].id == id;
        assert(s[i + a.len()] == b[i]);
    }
}

} // verus!
