//! The candidate individual under search: an opaque routing assignment
//! reduced to what the search core reads of it, together with an extension
//! store for computed annotations.

use vstd::prelude::*;

verus! {

/// One annotation held by a solution's extension store. The store is
/// heterogeneous: a typed accessor reports absence instead of coercing a
/// value of the wrong shape.
#[derive(Debug)]
pub enum ExtValue {
    /// A scalar annotation in fixed-point micro-units.
    Int(i64),
    /// A vector annotation, e.g. a cached per-objective fitness vector.
    List(Vec<i64>),
}

/// Ghost image of an `ExtValue`.
pub enum ExtView {
    Int(i64),
    List(Seq<i64>),
}

impl View for ExtValue {
    type V = ExtView;

    open spec fn view(&self) -> ExtView {
        match self {
            ExtValue::Int(v) => ExtView::Int(*v),
            ExtValue::List(v) => ExtView::List(v@),
        }
    }
}

/// One candidate solution. The search core never looks inside the routing
/// assignment itself; it reads the cached per-objective fitness vector
/// (micro-units, smaller is better), the structural size (number of routes)
/// and the extension store.
#[derive(Debug)]
pub struct Solution {
    /// Cached fitness value per objective, indexed by objective index.
    pub fitness: Vec<i64>,
    /// Number of routes in the assignment.
    pub routes: usize,
    /// Annotations keyed by a small integer identifier; at most one binding
    /// per key.
    pub extensions: Vec<(u32, ExtValue)>,
}

/// Ghost image of a `Solution`.
pub struct SolutionView {
    pub fitness: Seq<i64>,
    pub routes: nat,
    pub extensions: Seq<(u32, ExtView)>,
}

impl View for Solution {
    type V = SolutionView;

    open spec fn view(&self) -> SolutionView {
        SolutionView {
            fitness: self.fitness@,
            routes: self.routes as nat,
            extensions: self.extensions@.map_values(|p: (u32, ExtValue)| (p.0, p.1@)),
        }
    }
}

/// First binding for `key`, if any.
pub open spec fn spec_ext_get(exts: Seq<(u32, ExtView)>, key: u32) -> Option<ExtView>
    decreases exts.len(),
{
    if exts.len() == 0 {
        None
    } else if exts[0].0 == key {
        Some(exts[0].1)
    } else {
        spec_ext_get(exts.drop_first(), key)
    }
}

/// The store after binding `key` to `value`: an existing binding is replaced
/// in place, otherwise the binding is appended.
pub open spec fn spec_ext_set(
    exts: Seq<(u32, ExtView)>,
    key: u32,
    value: ExtView,
) -> Seq<(u32, ExtView)>
    decreases exts.len(),
{
    if exts.len() == 0 {
        seq![(key, value)]
    } else if exts[0].0 == key {
        seq![(key, value)] + exts.drop_first()
    } else {
        seq![exts[0]] + spec_ext_set(exts.drop_first(), key, value)
    }
}

impl ExtValue {
    /// Deep copy of one annotation.
    pub fn deep_copy(&self) -> (r: ExtValue)
        ensures
            r@ == self@,
    {
        match self {
            ExtValue::Int(v) => ExtValue::Int(*v),
            ExtValue::List(v) => {
                let c = v.clone();
                proof {
                    assert(forall|i: int| 0 <= i < v@.len() ==> c@[i] == v@[i]);
                    assert(c@ =~= v@);
                }
                ExtValue::List(c)
            },
        }
    }
}

impl Solution {
    /// A fresh solution with the given fitness vector and route count and an
    /// empty extension store.
    pub fn new(fitness: Vec<i64>, routes: usize) -> (r: Solution)
        ensures
            r@.fitness == fitness@,
            r@.routes == routes as nat,
            r@.extensions.len() == 0,
    {
        let r = Solution { fitness, routes, extensions: Vec::new() };
        proof {
            assert(r@.extensions =~= Seq::<(u32, ExtView)>::empty());
        }
        r
    }

    /// Explicit deep copy: the copy carries the same image but shares no
    /// storage with `self`, so the caller may mutate it freely without
    /// touching any solution still held by a population.
    pub fn deep_copy(&self) -> (r: Solution)
        ensures
            r@ == self@,
    {
        let fitness = self.fitness.clone();
        proof {
            assert(forall|i: int| 0 <= i < self.fitness@.len() ==> fitness@[i] == self.fitness@[i]);
            assert(fitness@ =~= self.fitness@);
        }
        let mut extensions: Vec<(u32, ExtValue)> = Vec::new();
        let mut i: usize = 0;
        while i < self.extensions.len()
            invariant
                i <= self.extensions.len(),
                extensions@.len() == i,
                forall|j: int|
                    0 <= j < i ==> (#[trigger] extensions@[j]).0 == self.extensions@[j].0
                        && extensions@[j].1@ == self.extensions@[j].1@,
            decreases self.extensions.len() - i,
        {
            let (k, v) = &self.extensions[i];
            extensions.push((*k, v.deep_copy()));
            i += 1;
        }
        let r = Solution { fitness, routes: self.routes, extensions };
        proof {
            assert(r@.extensions =~= self@.extensions);
            assert(r@.fitness =~= self@.fitness);
        }
        r
    }

    /// First annotation bound to `key`, if any.
    pub fn get_ext(&self, key: u32) -> (r: Option<&ExtValue>)
        ensures
            match r {
                Some(v) => spec_ext_get(self@.extensions, key) == Some(v@),
                None => spec_ext_get(self@.extensions, key) is None,
            },
    {
        proof {
            assert(self@.extensions.skip(0) =~= self@.extensions);
        }
        let mut i: usize = 0;
        while i < self.extensions.len()
            invariant
                i <= self.extensions.len(),
                spec_ext_get(self@.extensions, key) == spec_ext_get(
                    self@.extensions.skip(i as int),
                    key,
                ),
                forall|j: int| 0 <= j < i ==> (#[trigger] self@.extensions[j]).0 != key,
            decreases self.extensions.len() - i,
        {
            proof {
                assert(self@.extensions.skip(i as int)[0] == self@.extensions[i as int]);
                assert(self@.extensions.skip(i as int).drop_first() =~= self@.extensions.skip(
                    i as int + 1,
                ));
            }
            if self.extensions[i].0 == key {
                return Some(&self.extensions[i].1);
            }
            i += 1;
        }
        proof {
            assert(self@.extensions.skip(i as int) =~= Seq::<(u32, ExtView)>::empty());
        }
        None
    }

    /// Scalar annotation bound to `key`; `None` when the key is absent or the
    /// binding holds a value of another shape.
    pub fn get_ext_int(&self, key: u32) -> (r: Option<i64>)
        ensures
            match r {
                Some(v) => spec_ext_get(self@.extensions, key) == Some(ExtView::Int(v)),
                None => !(spec_ext_get(self@.extensions, key) matches Some(ExtView::Int(_))),
            },
    {
        match self.get_ext(key) {
            Some(ExtValue::Int(v)) => Some(*v),
            _ => None,
        }
    }

    /// Vector annotation bound to `key`; `None` when the key is absent or the
    /// binding holds a value of another shape.
    pub fn get_ext_list(&self, key: u32) -> (r: Option<&Vec<i64>>)
        ensures
            match r {
                Some(v) => spec_ext_get(self@.extensions, key) == Some(ExtView::List(v@)),
                None => !(spec_ext_get(self@.extensions, key) matches Some(ExtView::List(_))),
            },
    {
        match self.get_ext(key) {
            Some(ExtValue::List(v)) => Some(v),
            _ => None,
        }
    }

    /// Binds `key` to `value`, replacing an existing binding in place.
    pub fn set_ext(&mut self, key: u32, value: ExtValue)
        ensures
            final(self)@.fitness == old(self)@.fitness,
            final(self)@.routes == old(self)@.routes,
            final(self)@.extensions == spec_ext_set(old(self)@.extensions, key, value@),
    {
        let ghost old_exts = old(self)@.extensions;
        let ghost gv = value@;
        let mut i: usize = 0;
        while i < self.extensions.len()
            invariant
                i <= self.extensions.len(),
                *self == *old(self),
                value@ == gv,
                forall|j: int| 0 <= j < i ==> (#[trigger] old_exts[j]).0 != key,
                old_exts == old(self)@.extensions,
            decreases self.extensions.len() - i,
        {
            proof {
                assert(old_exts[i as int] == (self.extensions@[i as int].0, self.extensions@[i as int].1@));
            }
            if self.extensions[i].0 == key {
                let ghost old_vec = self.extensions@;
                self.extensions[i] = (key, value);
                proof {
                    lemma_ext_set_at(old_exts, key, gv, i as int);
                    assert(self.extensions@ == old_vec.update(i as int, (key, value)));
                    assert(self.extensions@[i as int].0 == key && self.extensions@[i as int].1@
                        == gv);
                    assert(forall|j: int|
                        0 <= j < old_vec.len() && j != i ==> self.extensions@[j] == old_vec[j]);
                    assert(forall|j: int|
                        0 <= j < old_vec.len() ==> #[trigger] self@.extensions[j]
                            == old_exts.update(i as int, (key, gv))[j]);
                    assert(self@.extensions =~= old_exts.update(i as int, (key, gv)));
                }
                return ;
            }
            i += 1;
        }
        self.extensions.push((key, value));
        proof {
            lemma_ext_set_append(old_exts, key, gv);
            assert(self@.extensions =~= old_exts + seq![(key, gv)]);
        }
    }
}

/// When the first `i` bindings miss `key` and binding `i` carries it,
/// `spec_ext_set` is an in-place update at `i`.
proof fn lemma_ext_set_at(exts: Seq<(u32, ExtView)>, key: u32, value: ExtView, i: int)
    requires
        0 <= i < exts.len(),
        forall|j: int| 0 <= j < i ==> (#[trigger] exts[j]).0 != key,
        exts[i].0 == key,
    ensures
        spec_ext_set(exts, key, value) =~= exts.update(i, (key, value)),
    decreases i,
{
    if i == 0 {
        assert(spec_ext_set(exts, key, value) =~= exts.update(0, (key, value)));
    } else {
        assert(exts[0].0 != key);
        lemma_ext_set_at(exts.drop_first(), key, value, i - 1);
        assert(spec_ext_set(exts, key, value) == seq![exts[0]] + spec_ext_set(
            exts.drop_first(),
            key,
            value,
        ));
        assert(seq![exts[0]] + exts.drop_first().update(i - 1, (key, value)) =~= exts.update(
            i,
            (key, value),
        ));
    }
}

/// When no binding carries `key`, `spec_ext_set` appends the new binding.
proof fn lemma_ext_set_append(exts: Seq<(u32, ExtView)>, key: u32, value: ExtView)
    requires
        forall|j: int| 0 <= j < exts.len() ==> (#[trigger] exts[j]).0 != key,
    ensures
        spec_ext_set(exts, key, value) =~= exts + seq![(key, value)],
    decreases exts.len(),
{
    if exts.len() == 0 {
    } else {
        lemma_ext_set_append(exts.drop_first(), key, value);
        assert(spec_ext_set(exts, key, value) =~= exts + seq![(key, value)]);
    }
}

} // verus!
