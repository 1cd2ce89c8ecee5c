//! The inference-context model: a store of inference-variable bindings,
//! the resolve and unify capabilities over it, the region-obligation sink,
//! and the projection cache.
//!
//! The store keeps itself in *solved form*: a bound value never mentions
//! another bound variable (binding a variable substitutes its value through
//! the whole store). Resolution is therefore a single structural pass.

use vstd::prelude::*;

use crate::cache::ProjectionCache;
use crate::predicate::{
    Obligation, ParamEnv, Predicate, ProjectionPredicate, ProjectionTy, SpecObligation,
    SpecParamEnv, SpecPredicate, SpecProjectionPredicate, SpecProjectionTy, SpecTraitRef, TraitRef,
};
use crate::ty::{
    lemma_occurs_seq, lemma_subst_var_occurs, lemma_view_ty_seq_index, lemma_view_ty_seq_len,
    occurs, occurs_seq, subst_var, ty_eq, ty_occurs, ty_subst_var, view_ty, view_ty_seq, SpecTy,
    Ty,
};

verus! {

/// The view of one binding slot.
pub open spec fn view_binding(o: Option<Ty>) -> Option<SpecTy> {
    match o {
        Some(t) => Some(view_ty(t)),
        None => None,
    }
}

/// The view of the binding store.
pub open spec fn view_bindings(s: Seq<Option<Ty>>) -> Seq<Option<SpecTy>>
    decreases s,
{
    if s.len() == 0 {
        Seq::empty()
    } else {
        seq![view_binding(s[0])] + view_bindings(s.drop_first())
    }
}

pub broadcast proof fn lemma_view_bindings_len(s: Seq<Option<Ty>>)
    ensures
        #[trigger] view_bindings(s).len() == s.len(),
    decreases s,
{
    if s.len() != 0 {
        lemma_view_bindings_len(s.drop_first());
    }
}

pub broadcast proof fn lemma_view_bindings_index(s: Seq<Option<Ty>>, i: int)
    requires
        0 <= i < s.len(),
    ensures
        #[trigger] view_bindings(s)[i] == view_binding(s[i]),
    decreases s,
{
    broadcast use vstd::seq::group_seq_axioms;

    if i > 0 {
        lemma_view_bindings_index(s.drop_first(), i - 1);
        lemma_view_bindings_len(s.drop_first());
        assert(view_bindings(s)[i] == view_bindings(s.drop_first())[i - 1]);
        assert(s.drop_first()[i - 1] == s[i]);
    } else {
        assert(view_bindings(s)[0] == view_binding(s[0]));
    }
}

/// Whether variable `v` is bound in the store.
pub open spec fn is_bound(b: Seq<Option<SpecTy>>, v: u64) -> bool {
    v < b.len() && b[v as int] is Some
}

/// The value bound to `v`.
pub open spec fn bound_value(b: Seq<Option<SpecTy>>, v: u64) -> SpecTy
    recommends
        is_bound(b, v),
{
    b[v as int]->0
}

/// No variable occurring in `t` is bound in `b`: `t` is fully resolved.
pub open spec fn ty_resolved_in(b: Seq<Option<SpecTy>>, t: SpecTy) -> bool {
    forall|u: u64| occurs(u, t) ==> !is_bound(b, u)
}

pub open spec fn seq_resolved_in(b: Seq<Option<SpecTy>>, s: Seq<SpecTy>) -> bool {
    forall|u: u64| occurs_seq(u, s) ==> !is_bound(b, u)
}

/// The store is in solved form: every bound value is fully resolved.
pub open spec fn store_wf(b: Seq<Option<SpecTy>>) -> bool {
    forall|i: int| 0 <= i < b.len() ==> match #[trigger] b[i] {
        Some(x) => ty_resolved_in(b, x),
        None => true,
    }
}

/// Single-pass resolution: replaces each bound variable by its value.
pub open spec fn spec_resolve(b: Seq<Option<SpecTy>>, t: SpecTy) -> SpecTy
    decreases t,
{
    match t {
        SpecTy::Infer(v) => if is_bound(b, v) {
            bound_value(b, v)
        } else {
            SpecTy::Infer(v)
        },
        SpecTy::Param(p) => SpecTy::Param(p),
        SpecTy::Adt(d, a) => SpecTy::Adt(d, spec_resolve_seq(b, a)),
        SpecTy::Opaque(d, a) => SpecTy::Opaque(d, spec_resolve_seq(b, a)),
        SpecTy::Projection(tr, item, a) => SpecTy::Projection(tr, item, spec_resolve_seq(b, a)),
        SpecTy::Dynamic(d) => SpecTy::Dynamic(d),
        SpecTy::Closure(d, a, ret) => SpecTy::Closure(
            d,
            spec_resolve_seq(b, a),
            Box::new(spec_resolve(b, *ret)),
        ),
        SpecTy::Generator(d, y, r) => SpecTy::Generator(
            d,
            Box::new(spec_resolve(b, *y)),
            Box::new(spec_resolve(b, *r)),
        ),
        SpecTy::Error => SpecTy::Error,
    }
}

pub open spec fn spec_resolve_seq(b: Seq<Option<SpecTy>>, s: Seq<SpecTy>) -> Seq<SpecTy>
    decreases s,
{
    if s.len() == 0 {
        Seq::empty()
    } else {
        seq![spec_resolve(b, s[0])] + spec_resolve_seq(b, s.drop_first())
    }
}

pub broadcast proof fn lemma_spec_resolve_seq_len(b: Seq<Option<SpecTy>>, s: Seq<SpecTy>)
    ensures
        #[trigger] spec_resolve_seq(b, s).len() == s.len(),
    decreases s,
{
    if s.len() != 0 {
        lemma_spec_resolve_seq_len(b, s.drop_first());
    }
}

pub broadcast proof fn lemma_spec_resolve_seq_index(b: Seq<Option<SpecTy>>, s: Seq<SpecTy>, i: int)
    requires
        0 <= i < s.len(),
    ensures
        #[trigger] spec_resolve_seq(b, s)[i] == spec_resolve(b, s[i]),
    decreases s,
{
    broadcast use vstd::seq::group_seq_axioms;

    if i > 0 {
        lemma_spec_resolve_seq_index(b, s.drop_first(), i - 1);
        lemma_spec_resolve_seq_len(b, s.drop_first());
        assert(spec_resolve_seq(b, s)[i] == spec_resolve_seq(b, s.drop_first())[i - 1]);
        assert(s.drop_first()[i - 1] == s[i]);
    } else {
        assert(spec_resolve_seq(b, s)[0] == spec_resolve(b, s[0]));
    }
}

/// On a solved store, resolution yields a fully resolved type.
pub proof fn lemma_resolve_resolved(b: Seq<Option<SpecTy>>, t: SpecTy)
    requires
        store_wf(b),
    ensures
        ty_resolved_in(b, spec_resolve(b, t)),
    decreases t,
{
    broadcast use {lemma_occurs_seq, lemma_spec_resolve_seq_len, lemma_spec_resolve_seq_index};

    match t {
        SpecTy::Infer(v) => {
            if is_bound(b, v) {
                assert(b[v as int] is Some);
            }
        }
        SpecTy::Adt(_, a) => lemma_resolve_resolved_seq(b, a),
        SpecTy::Opaque(_, a) => lemma_resolve_resolved_seq(b, a),
        SpecTy::Projection(_, _, a) => lemma_resolve_resolved_seq(b, a),
        SpecTy::Closure(_, a, ret) => {
            lemma_resolve_resolved_seq(b, a);
            lemma_resolve_resolved(b, *ret);
            assert forall|u: u64| occurs(u, spec_resolve(b, t)) implies !is_bound(b, u) by {
                if occurs_seq(u, spec_resolve_seq(b, a)) {
                } else {
                    assert(occurs(u, spec_resolve(b, *ret)));
                }
            }
        }
        SpecTy::Generator(_, y, r) => {
            lemma_resolve_resolved(b, *y);
            lemma_resolve_resolved(b, *r);
            assert forall|u: u64| occurs(u, spec_resolve(b, t)) implies !is_bound(b, u) by {
                if occurs(u, spec_resolve(b, *y)) {
                } else {
                    assert(occurs(u, spec_resolve(b, *r)));
                }
            }
        }
        _ => {}
    }
}

pub proof fn lemma_resolve_resolved_seq(b: Seq<Option<SpecTy>>, s: Seq<SpecTy>)
    requires
        store_wf(b),
    ensures
        seq_resolved_in(b, spec_resolve_seq(b, s)),
    decreases s,
{
    broadcast use {lemma_occurs_seq, lemma_spec_resolve_seq_len, lemma_spec_resolve_seq_index};

    assert forall|u: u64| occurs_seq(u, spec_resolve_seq(b, s)) implies !is_bound(b, u) by {
        let i = choose|i: int|
            0 <= i < spec_resolve_seq(b, s).len() && occurs(u, spec_resolve_seq(b, s)[i]);
        lemma_resolve_resolved(b, s[i]);
    }
}

/// A fully resolved type resolves to itself.
pub proof fn lemma_resolve_identity(b: Seq<Option<SpecTy>>, t: SpecTy)
    requires
        ty_resolved_in(b, t),
    ensures
        spec_resolve(b, t) == t,
    decreases t,
{
    broadcast use {lemma_occurs_seq, lemma_spec_resolve_seq_len, lemma_spec_resolve_seq_index};

    match t {
        SpecTy::Infer(v) => {
            assert(occurs(v, t));
        }
        SpecTy::Adt(d, a) => {
            lemma_resolve_identity_seq(b, a);
        }
        SpecTy::Opaque(d, a) => {
            lemma_resolve_identity_seq(b, a);
        }
        SpecTy::Projection(tr, item, a) => {
            lemma_resolve_identity_seq(b, a);
        }
        SpecTy::Closure(d, a, ret) => {
            lemma_resolve_identity_seq(b, a);
            assert(ty_resolved_in(b, *ret));
            lemma_resolve_identity(b, *ret);
        }
        SpecTy::Generator(d, y, r) => {
            assert(ty_resolved_in(b, *y));
            assert(ty_resolved_in(b, *r));
            lemma_resolve_identity(b, *y);
            lemma_resolve_identity(b, *r);
        }
        _ => {}
    }
}

pub proof fn lemma_resolve_identity_seq(b: Seq<Option<SpecTy>>, s: Seq<SpecTy>)
    requires
        seq_resolved_in(b, s),
    ensures
        spec_resolve_seq(b, s) == s,
    decreases s,
{
    broadcast use {lemma_occurs_seq, lemma_spec_resolve_seq_len, lemma_spec_resolve_seq_index};

    assert forall|i: int| 0 <= i < s.len() implies spec_resolve_seq(b, s)[i] == s[i] by {
        assert forall|u: u64| occurs(u, s[i]) implies !is_bound(b, u) by {
            assert(occurs_seq(u, s));
        }
        lemma_resolve_identity(b, s[i]);
    }
    assert(spec_resolve_seq(b, s) =~= s);
}

/// A type without inference variables is resolved in every store and
/// resolves to itself.
pub proof fn lemma_no_infer_resolved(b: Seq<Option<SpecTy>>, t: SpecTy)
    requires
        !crate::ty::has_infer(t),
    ensures
        ty_resolved_in(b, t),
        spec_resolve(b, t) == t,
{
    assert forall|u: u64| occurs(u, t) implies !is_bound(b, u) by {
        crate::ty::lemma_occurs_implies_has_infer(u, t);
    }
    lemma_resolve_identity(b, t);
}

/// A sequence without inference variables resolves to itself.
pub proof fn lemma_no_infer_seq_resolved(b: Seq<Option<SpecTy>>, s: Seq<SpecTy>)
    requires
        !crate::ty::has_infer_seq(s),
    ensures
        spec_resolve_seq(b, s) == s,
{
    broadcast use {
        crate::ty::lemma_has_infer_seq,
        lemma_spec_resolve_seq_len,
        lemma_spec_resolve_seq_index,
    };

    assert forall|i: int| 0 <= i < s.len() implies spec_resolve_seq(b, s)[i] == s[i] by {
        lemma_no_infer_resolved(b, s[i]);
    }
    assert(spec_resolve_seq(b, s) =~= s);
}

/// A predicate without inference variables resolves to itself.
pub proof fn lemma_no_infer_predicate_resolved(b: Seq<Option<SpecTy>>, p: SpecPredicate)
    requires
        !crate::predicate::spec_predicate_has_infer(p),
    ensures
        spec_resolve_predicate(b, p) == p,
{
    match p {
        SpecPredicate::Trait(tr) => {
            lemma_no_infer_seq_resolved(b, tr.substs);
            assert(spec_resolve_trait_ref(b, tr) =~= tr);
        }
        SpecPredicate::TypeOutlives(t, _, _) => {
            lemma_no_infer_resolved(b, t);
        }
        SpecPredicate::Projection(pp) => {
            lemma_no_infer_seq_resolved(b, pp.projection_ty.substs);
            lemma_no_infer_resolved(b, pp.ty);
            assert(spec_resolve_projection_ty(b, pp.projection_ty) =~= pp.projection_ty);
        }
        SpecPredicate::WellFormed(t) => {
            lemma_no_infer_resolved(b, t);
        }
        SpecPredicate::Subtype(x, y) => {
            lemma_no_infer_resolved(b, x);
            lemma_no_infer_resolved(b, y);
        }
        _ => {}
    }
}

/// Resolution is idempotent on a solved store.
pub proof fn lemma_resolve_idempotent(b: Seq<Option<SpecTy>>, t: SpecTy)
    requires
        store_wf(b),
    ensures
        spec_resolve(b, spec_resolve(b, t)) == spec_resolve(b, t),
{
    lemma_resolve_resolved(b, t);
    lemma_resolve_identity(b, spec_resolve(b, t));
}

/// The store after binding `v` to `t`: `t` is substituted through every
/// stored value and recorded under `v`.
pub open spec fn store_bind(b: Seq<Option<SpecTy>>, v: u64, t: SpecTy) -> Seq<Option<SpecTy>> {
    Seq::new(
        b.len(),
        |i: int|
            if i == v as int {
                Some(t)
            } else {
                match b[i] {
                    Some(x) => Some(subst_var(v, t, x)),
                    None => None,
                }
            },
    )
}

/// Binding preserves the solved form of the store.
pub proof fn lemma_store_bind_wf(b: Seq<Option<SpecTy>>, v: u64, t: SpecTy)
    requires
        store_wf(b),
        v < b.len(),
        b[v as int] is None,
        ty_resolved_in(b, t),
        !occurs(v, t),
    ensures
        store_wf(store_bind(b, v, t)),
        forall|u: u64| #[trigger]
            is_bound(store_bind(b, v, t), u) <==> (is_bound(b, u) || u == v),
{
    let nb = store_bind(b, v, t);
    assert forall|u: u64| #[trigger] is_bound(nb, u) <==> (is_bound(b, u) || u == v) by {
        if u < b.len() {
            if u == v {
                assert(nb[u as int] is Some);
            }
        }
    }
    assert forall|i: int| 0 <= i < nb.len() implies match #[trigger] nb[i] {
        Some(x) => ty_resolved_in(nb, x),
        None => true,
    } by {
        if nb[i] is Some {
            let x = nb[i]->0;
            if i == v as int {
                assert(x == t);
                assert forall|u: u64| occurs(u, x) implies !is_bound(nb, u) by {
                    assert(!is_bound(b, u));
                    assert(u != v);
                }
            } else {
                let x0 = b[i]->0;
                assert(x == subst_var(v, t, x0));
                assert forall|u: u64| occurs(u, x) implies !is_bound(nb, u) by {
                    lemma_subst_var_occurs(v, t, x0, u);
                    if occurs(u, x0) && u != v {
                        assert(!is_bound(b, u));
                    } else {
                        assert(occurs(u, t));
                        assert(!is_bound(b, u));
                        assert(u != v);
                    }
                }
            }
        }
    }
}

/// A type resolved before a binding, with the binding substituted through
/// it, is resolved after the binding.
pub proof fn lemma_subst_var_resolved(b: Seq<Option<SpecTy>>, v: u64, t: SpecTy, x: SpecTy)
    requires
        ty_resolved_in(b, x),
        ty_resolved_in(b, t),
        !occurs(v, t),
    ensures
        ty_resolved_in(store_bind(b, v, t), subst_var(v, t, x)),
{
    let nb = store_bind(b, v, t);
    assert forall|u: u64| occurs(u, subst_var(v, t, x)) implies !is_bound(nb, u) by {
        lemma_subst_var_occurs(v, t, x, u);
        assert(!is_bound(b, u));
        assert(u != v);
        if u < nb.len() {
            assert(nb[u as int] == b[u as int]);
        }
    }
}

/// A saturating increment, the step of the assembly counter.
pub open spec fn sat_inc(n: u64) -> u64 {
    if n < u64::MAX {
        (n + 1) as u64
    } else {
        n
    }
}

/// An error drawn from the unification capability.
#[derive(Clone, Copy, PartialEq, Eq, Structural, Debug)]
pub struct TypeMismatch {}

/// How many slots of the store are still unbound: the measure that
/// unification lowers whenever it binds a variable.
pub open spec fn unbound_count(s: Seq<Option<SpecTy>>) -> nat
    decreases s.len(),
{
    if s.len() == 0 {
        0
    } else {
        unbound_count(s.drop_last()) + (if s.last() is None {
            1nat
        } else {
            0nat
        })
    }
}

/// Binding one unbound slot, every other slot keeping its boundness,
/// lowers the unbound count by exactly one.
proof fn lemma_unbound_count_bind(b: Seq<Option<SpecTy>>, nb: Seq<Option<SpecTy>>, v: u64)
    requires
        v < b.len(),
        b[v as int] is None,
        nb.len() == b.len(),
        nb[v as int] is Some,
        forall|k: int| 0 <= k < b.len() && k != v ==> ((#[trigger] nb[k]) is None <==> b[k]
            is None),
    ensures
        unbound_count(nb) + 1 == unbound_count(b),
    decreases b.len(),
{
    if v as int == b.len() - 1 {
        lemma_unbound_count_same(b.drop_last(), nb.drop_last());
    } else {
        lemma_unbound_count_bind(b.drop_last(), nb.drop_last(), v);
    }
}

/// Two stores bound in the same slots have the same unbound count.
proof fn lemma_unbound_count_same(b: Seq<Option<SpecTy>>, nb: Seq<Option<SpecTy>>)
    requires
        nb.len() == b.len(),
        forall|k: int| 0 <= k < b.len() ==> ((#[trigger] nb[k]) is None <==> b[k] is None),
    ensures
        unbound_count(nb) == unbound_count(b),
    decreases b.len(),
{
    if b.len() > 0 {
        lemma_unbound_count_same(b.drop_last(), nb.drop_last());
    }
}

/// The total structural size of a unification worklist: the measure that
/// every step not binding a variable lowers.
pub open spec fn wl_size(wl: Seq<(Ty, Ty)>) -> nat
    decreases wl.len(),
{
    if wl.len() == 0 {
        0
    } else {
        wl_size(wl.drop_last()) + crate::ty::sty_size(wl.last().0@) + crate::ty::sty_size(
            wl.last().1@,
        )
    }
}

/// The inference context: the binding store in solved form, the region
/// obligations registered so far, the projection cache, and a counter of
/// candidate-assembly runs.
#[derive(Debug)]
pub struct InferCtxt {
    pub bindings: Vec<Option<Ty>>,
    /// `(type, region, cause)` triples handed to the region capability.
    pub region_obligations: Vec<(Ty, u64, u64)>,
    pub cache: ProjectionCache,
    /// How many times candidate assembly has run; the cache's purpose is
    /// observable through it.
    pub assembly_count: u64,
}

impl InferCtxt {
    /// The view of the binding store.
    pub open spec fn b(&self) -> Seq<Option<SpecTy>> {
        view_bindings(self.bindings@)
    }

    pub open spec fn wf(&self) -> bool {
        &&& store_wf(self.b())
        &&& self.cache.wf()
    }

    pub fn new() -> (r: InferCtxt)
        ensures
            r.wf(),
            r.b().len() == 0,
            r.cache@ == Map::<SpecProjectionTy, crate::cache::SpecCacheEntry>::empty(),
            r.region_obligations@.len() == 0,
            r.assembly_count == 0,
    {
        InferCtxt {
            bindings: Vec::new(),
            region_obligations: Vec::new(),
            cache: ProjectionCache::new(),
            assembly_count: 0,
        }
    }

    /// A fresh, unbound inference variable.
    pub fn next_ty_var(&mut self) -> (r: Ty)
        requires
            old(self).wf(),
        ensures
            final(self).wf(),
            final(self).b() == old(self).b().push(None),
            r@ == SpecTy::Infer(old(self).b().len() as u64),
            final(self).cache == old(self).cache,
            final(self).region_obligations == old(self).region_obligations,
            final(self).assembly_count == old(self).assembly_count,
    {
        broadcast use {lemma_view_bindings_len, lemma_view_bindings_index};

        let id = self.bindings.len() as u64;
        self.bindings.push(None);
        proof {
            assert(self.b() =~= old(self).b().push(None));
            assert forall|i: int| 0 <= i < self.b().len() implies match #[trigger] self.b()[i] {
                Some(x) => ty_resolved_in(self.b(), x),
                None => true,
            } by {
                if i < old(self).b().len() {
                    assert(self.b()[i] == old(self).b()[i]);
                    if self.b()[i] is Some {
                        let x = self.b()[i]->0;
                        assert forall|u: u64| occurs(u, x) implies !is_bound(self.b(), u) by {
                            assert(!is_bound(old(self).b(), u));
                            if u < self.b().len() && u < old(self).b().len() {
                                assert(self.b()[u as int] == old(self).b()[u as int]);
                            }
                        }
                    }
                }
            }
        }
        Ty::Infer(id)
    }

    /// Whether a variable a pending obligation stalled on has since been
    /// bound.
    pub fn var_changed(&self, v: u64) -> (r: bool)
        ensures
            r == is_bound(self.b(), v),
    {
        broadcast use {lemma_view_bindings_len, lemma_view_bindings_index};

        if v < self.bindings.len() as u64 {
            self.bindings[v as usize].is_some()
        } else {
            false
        }
    }

    /// Substitutes currently known bindings through a type.
    pub fn resolve_ty(&self, t: &Ty) -> (r: Ty)
        ensures
            r@ == spec_resolve(self.b(), t@),
    {
        resolve_ty_rec(&self.bindings, t)
    }

    /// Notes one more run of projection candidate assembly.
    pub fn bump_assembly_count(&mut self)
        ensures
            final(self).bindings == old(self).bindings,
            final(self).cache == old(self).cache,
            final(self).region_obligations == old(self).region_obligations,
            final(self).assembly_count == sat_inc(old(self).assembly_count),
    {
        if self.assembly_count < u64::MAX {
            self.assembly_count = self.assembly_count + 1;
        }
    }

    /// Records `ty: region` with the region capability.
    pub fn register_region_obligation(&mut self, ty: Ty, region: u64, cause: u64)
        ensures
            final(self).bindings == old(self).bindings,
            final(self).cache == old(self).cache,
            final(self).assembly_count == old(self).assembly_count,
            final(self).region_obligations@ == old(self).region_obligations@.push(
                (ty, region, cause),
            ),
    {
        self.region_obligations.push((ty, region, cause));
    }

    /// A snapshot of the binding store, for probing.
    pub fn snapshot(&self) -> (r: Vec<Option<Ty>>)
        ensures
            view_bindings(r@) == self.b(),
    {
        broadcast use {lemma_view_bindings_len, lemma_view_bindings_index};

        let mut out: Vec<Option<Ty>> = Vec::new();
        let n = self.bindings.len();
        for i in 0..n
            invariant
                n == self.bindings@.len(),
                out@.len() == i,
                forall|j: int| 0 <= j < i ==> view_binding(out@[j]) == view_binding(
                    self.bindings@[j],
                ),
        {
            let entry = match &self.bindings[i] {
                Some(t) => Some(t.clone()),
                None => None,
            };
            out.push(entry);
        }
        proof {
            assert(view_bindings(out@) =~= self.b());
        }
        out
    }

    /// Returns to a snapshot taken in a solved state.
    pub fn rollback(&mut self, snap: Vec<Option<Ty>>)
        requires
            store_wf(view_bindings(snap@)),
        ensures
            final(self).b() == view_bindings(snap@),
            store_wf(final(self).b()),
            final(self).cache == old(self).cache,
            final(self).region_obligations == old(self).region_obligations,
            final(self).assembly_count == old(self).assembly_count,
    {
        self.bindings = snap;
    }
}

/// Single-pass resolution over the store.
fn resolve_ty_rec(b: &Vec<Option<Ty>>, t: &Ty) -> (r: Ty)
    ensures
        r@ == spec_resolve(view_bindings(b@), t@),
    decreases t,
{
    broadcast use {
        lemma_view_bindings_len, lemma_view_bindings_index, lemma_view_ty_seq_len,
        lemma_view_ty_seq_index, lemma_spec_resolve_seq_len, lemma_spec_resolve_seq_index,
    };

    match t {
        Ty::Infer(v) => {
            if *v < b.len() as u64 {
                match &b[*v as usize] {
                    Some(x) => x.clone(),
                    None => Ty::Infer(*v),
                }
            } else {
                Ty::Infer(*v)
            }
        }
        Ty::Param(p) => Ty::Param(*p),
        Ty::Adt(d, a) => Ty::Adt(*d, resolve_tys_rec(b, a)),
        Ty::Opaque(d, a) => Ty::Opaque(*d, resolve_tys_rec(b, a)),
        Ty::Projection(tr, item, a) => Ty::Projection(*tr, *item, resolve_tys_rec(b, a)),
        Ty::Dynamic(d) => Ty::Dynamic(*d),
        Ty::Closure(d, a, ret) => Ty::Closure(
            *d,
            resolve_tys_rec(b, a),
            Box::new(resolve_ty_rec(b, ret)),
        ),
        Ty::Generator(d, y, r) => Ty::Generator(
            *d,
            Box::new(resolve_ty_rec(b, y)),
            Box::new(resolve_ty_rec(b, r)),
        ),
        Ty::Error => Ty::Error,
    }
}

fn resolve_tys_rec(b: &Vec<Option<Ty>>, tys: &Vec<Ty>) -> (r: Vec<Ty>)
    ensures
        view_ty_seq(r@) == spec_resolve_seq(view_bindings(b@), view_ty_seq(tys@)),
        r@.len() == tys@.len(),
    decreases tys@,
{
    broadcast use {
        lemma_view_ty_seq_len, lemma_view_ty_seq_index, lemma_spec_resolve_seq_len,
        lemma_spec_resolve_seq_index,
    };

    let mut out: Vec<Ty> = Vec::new();
    let n = tys.len();
    for i in 0..n
        invariant
            n == tys@.len(),
            out@.len() == i,
            forall|j: int| 0 <= j < i ==> view_ty(out@[j]) == spec_resolve(
                view_bindings(b@),
                view_ty_seq(tys@)[j],
            ),
    {
        out.push(resolve_ty_rec(b, &tys[i]));
    }
    proof {
        assert(view_ty_seq(out@) =~= spec_resolve_seq(view_bindings(b@), view_ty_seq(tys@)));
    }
    out
}

/// Every worklist pair is fully resolved in `b`.
pub open spec fn wl_resolved(b: Seq<Option<SpecTy>>, wl: Seq<(Ty, Ty)>) -> bool {
    forall|k: int| 0 <= k < wl.len() ==> ty_resolved_in(b, (#[trigger] wl[k]).0@)
        && ty_resolved_in(b, wl[k].1@)
}

impl InferCtxt {
    /// Binds the unbound variable `v` to the fully resolved value `t`,
    /// keeping the store in solved form.
    fn bind_var(&mut self, v: u64, t: &Ty)
        requires
            old(self).wf(),
            v < old(self).b().len(),
            old(self).b()[v as int] is None,
            ty_resolved_in(old(self).b(), t@),
            !occurs(v, t@),
        ensures
            final(self).wf(),
            final(self).b() == store_bind(old(self).b(), v, t@),
            final(self).cache == old(self).cache,
            final(self).region_obligations == old(self).region_obligations,
            final(self).assembly_count == old(self).assembly_count,
    {
        broadcast use {lemma_view_bindings_len, lemma_view_bindings_index};

        let ghost b0 = self.b();
        let n = self.bindings.len();
        for i in 0..n
            invariant
                n == self.bindings@.len(),
                self.cache == old(self).cache,
                self.region_obligations == old(self).region_obligations,
                self.assembly_count == old(self).assembly_count,
                forall|j: int| 0 <= j < i ==> #[trigger] view_binding(self.bindings@[j]) == (
                match b0[j] {
                    Some(x) => Some(subst_var(v, t@, x)),
                    None => None,
                }),
                forall|j: int| i <= j < n ==> view_binding(#[trigger] self.bindings@[j]) == b0[j],
        {
            let replacement = match &self.bindings[i] {
                Some(x) => Some(ty_subst_var(v, t, x)),
                None => None,
            };
            self.bindings[i] = replacement;
        }
        self.bindings[v as usize] = Some(t.clone());
        proof {
            assert(self.b() =~= store_bind(b0, v, t@));
            lemma_store_bind_wf(b0, v, t@);
        }
    }

    /// Binds `v` to `rep` if `v` belongs to this store and the binding is
    /// not cyclic; reports whether it did.
    fn try_bind(&mut self, v: u64, rep: &Ty) -> (r: bool)
        requires
            old(self).wf(),
            !is_bound(old(self).b(), v),
            ty_resolved_in(old(self).b(), rep@),
        ensures
            final(self).wf(),
            final(self).cache == old(self).cache,
            final(self).region_obligations == old(self).region_obligations,
            final(self).assembly_count == old(self).assembly_count,
            r ==> !occurs(v, rep@) && v < old(self).b().len() && final(self).b() == store_bind(
                old(self).b(),
                v,
                rep@,
            ),
            !r ==> *final(self) == *old(self),
    {
        broadcast use {lemma_view_bindings_len, lemma_view_bindings_index};

        if v >= self.bindings.len() as u64 {
            return false;
        }
        if ty_occurs(v, rep) {
            return false;
        }
        self.bind_var(v, rep);
        true
    }

    /// The unification capability: makes the two types equal where
    /// possible, binding inference variables as a side effect and
    /// deferring projections as nested predicates. Mismatched rigid heads
    /// or a cyclic binding yield an error. Variables not created by this
    /// context are treated as rigid. Termination is structural: every
    /// step either binds one more variable or shrinks the worklist.
    pub fn unify(&mut self, a: &Ty, b: &Ty) -> (r: Result<Vec<Predicate>, TypeMismatch>)
        requires
            old(self).wf(),
        ensures
            final(self).wf(),
            final(self).cache == old(self).cache,
            final(self).region_obligations == old(self).region_obligations,
            final(self).assembly_count == old(self).assembly_count,
            // Two types already equal once resolved unify trivially:
            // nothing is bound and nothing is deferred.
            spec_resolve(old(self).b(), a@) == spec_resolve(old(self).b(), b@) ==> (r matches Ok(
                v,
            ) && v@.len() == 0 && *final(self) == *old(self)),
    {
        broadcast use {lemma_view_ty_seq_len, lemma_view_ty_seq_index, lemma_occurs_seq};

        let ghost trivial = spec_resolve(old(self).b(), a@) == spec_resolve(old(self).b(), b@);
        let mut worklist: Vec<(Ty, Ty)> = Vec::new();
        let ra = self.resolve_ty(a);
        let rb = self.resolve_ty(b);
        proof {
            lemma_resolve_resolved(self.b(), a@);
            lemma_resolve_resolved(self.b(), b@);
        }
        worklist.push((ra, rb));
        let mut nested: Vec<Predicate> = Vec::new();
        loop
            invariant
                self.wf(),
                self.cache == old(self).cache,
                self.region_obligations == old(self).region_obligations,
                self.assembly_count == old(self).assembly_count,
                wl_resolved(self.b(), worklist@),
                trivial == (spec_resolve(old(self).b(), a@) == spec_resolve(old(self).b(), b@)),
                trivial ==> (*self == *old(self) && nested@.len() == 0 && forall|k: int|
                    0 <= k < worklist@.len() ==> (#[trigger] worklist@[k]).0@ == worklist@[k].1@),
            decreases unbound_count(self.b()), wl_size(worklist@),
        {
            let ghost wl0 = worklist@;
            let pair = match worklist.pop() {
                Some(p) => p,
                None => {
                    return Ok(nested);
                }
            };
            let ghost bcur = self.b();
            proof {
                assert(wl0[wl0.len() - 1] == pair);
                assert(ty_resolved_in(bcur, pair.0@));
                assert(ty_resolved_in(bcur, pair.1@));
                assert(worklist@ == wl0.drop_last());
                crate::ty::lemma_sty_size_pos(pair.0@);
                crate::ty::lemma_sty_size_pos(pair.1@);
                assert(wl_size(wl0) == wl_size(wl0.drop_last()) + crate::ty::sty_size(pair.0@)
                    + crate::ty::sty_size(pair.1@));
            }
            let ghost popped = crate::ty::sty_size(pair.0@) + crate::ty::sty_size(pair.1@);
            let (x, y) = pair;
            if ty_eq(&x, &y) {
                continue;
            }
            match (x, y) {
                (Ty::Error, _) => {}
                (_, Ty::Error) => {}
                (Ty::Infer(v), other) => {
                    proof {
                        assert(occurs(v, SpecTy::Infer(v)));
                        assert(!is_bound(bcur, v));
                    }
                    if !self.try_bind(v, &other) {
                        return Err(TypeMismatch {});
                    }
                    proof {
                        lemma_unbound_count_bind(bcur, self.b(), v);
                    }
                    subst_worklist(v, &other, &mut worklist, Ghost(bcur), Ghost(self.b()));
                }
                (other, Ty::Infer(v)) => {
                    proof {
                        assert(occurs(v, SpecTy::Infer(v)));
                        assert(!is_bound(bcur, v));
                    }
                    if !self.try_bind(v, &other) {
                        return Err(TypeMismatch {});
                    }
                    proof {
                        lemma_unbound_count_bind(bcur, self.b(), v);
                    }
                    subst_worklist(v, &other, &mut worklist, Ghost(bcur), Ghost(self.b()));
                }
                (Ty::Projection(tr, item, args), other) => {
                    nested.push(
                        Predicate::Projection(
                            ProjectionPredicate {
                                projection_ty: ProjectionTy {
                                    trait_id: tr,
                                    item_id: item,
                                    substs: args,
                                },
                                ty: other,
                            },
                        ),
                    );
                }
                (other, Ty::Projection(tr, item, args)) => {
                    nested.push(
                        Predicate::Projection(
                            ProjectionPredicate {
                                projection_ty: ProjectionTy {
                                    trait_id: tr,
                                    item_id: item,
                                    substs: args,
                                },
                                ty: other,
                            },
                        ),
                    );
                }
                (Ty::Adt(d1, a1), Ty::Adt(d2, a2)) => {
                    if d1 != d2 || a1.len() != a2.len() {
                        return Err(TypeMismatch {});
                    }
                    let ghost s1 = view_ty_seq(a1@);
                    let ghost s2 = view_ty_seq(a2@);
                    proof {
                        assert(popped == 2 + crate::ty::sty_size_seq(s1)
                            + crate::ty::sty_size_seq(s2));
                    }
                    push_ty_pairs(&mut worklist, a1, a2, Ghost(bcur));
                    proof {
                        assert(wl_size(worklist@) < wl_size(wl0));
                    }
                }
                (Ty::Opaque(d1, a1), Ty::Opaque(d2, a2)) => {
                    if d1 != d2 || a1.len() != a2.len() {
                        return Err(TypeMismatch {});
                    }
                    let ghost s1 = view_ty_seq(a1@);
                    let ghost s2 = view_ty_seq(a2@);
                    proof {
                        assert(popped == 2 + crate::ty::sty_size_seq(s1)
                            + crate::ty::sty_size_seq(s2));
                    }
                    push_ty_pairs(&mut worklist, a1, a2, Ghost(bcur));
                    proof {
                        assert(wl_size(worklist@) < wl_size(wl0));
                    }
                }
                (Ty::Closure(d1, a1, r1), Ty::Closure(d2, a2, r2)) => {
                    if d1 != d2 || a1.len() != a2.len() {
                        return Err(TypeMismatch {});
                    }
                    let ghost s1 = view_ty_seq(a1@);
                    let ghost s2 = view_ty_seq(a2@);
                    let ghost vr1 = r1@;
                    let ghost vr2 = r2@;
                    proof {
                        assert(popped == 2 + crate::ty::sty_size_seq(s1) + crate::ty::sty_size(
                            vr1,
                        ) + crate::ty::sty_size_seq(s2) + crate::ty::sty_size(vr2));
                    }
                    push_ty_pairs(&mut worklist, a1, a2, Ghost(bcur));
                    let ghost wmid = worklist@;
                    worklist.push((*r1, *r2));
                    proof {
                        assert(worklist@.drop_last() =~= wmid);
                        assert(worklist@.last().0@ == vr1);
                        assert(worklist@.last().1@ == vr2);
                        assert(wl_size(worklist@) == wl_size(wmid) + crate::ty::sty_size(vr1)
                            + crate::ty::sty_size(vr2));
                        assert(wl_size(worklist@) < wl_size(wl0));
                    }
                }
                (Ty::Generator(d1, y1, r1), Ty::Generator(d2, y2, r2)) => {
                    if d1 != d2 {
                        return Err(TypeMismatch {});
                    }
                    let ghost vy1 = y1@;
                    let ghost vy2 = y2@;
                    let ghost vr1 = r1@;
                    let ghost vr2 = r2@;
                    proof {
                        assert(popped == 2 + crate::ty::sty_size(vy1) + crate::ty::sty_size(
                            vr1,
                        ) + crate::ty::sty_size(vy2) + crate::ty::sty_size(vr2));
                    }
                    let ghost wp0 = worklist@;
                    worklist.push((*y1, *y2));
                    proof {
                        assert(worklist@.drop_last() =~= wp0);
                        assert(worklist@.last().0@ == vy1);
                        assert(worklist@.last().1@ == vy2);
                        assert(wl_size(worklist@) == wl_size(wp0) + crate::ty::sty_size(vy1)
                            + crate::ty::sty_size(vy2));
                    }
                    let ghost wp1 = worklist@;
                    worklist.push((*r1, *r2));
                    proof {
                        assert(worklist@.drop_last() =~= wp1);
                        assert(worklist@.last().0@ == vr1);
                        assert(worklist@.last().1@ == vr2);
                        assert(wl_size(worklist@) == wl_size(wp1) + crate::ty::sty_size(vr1)
                            + crate::ty::sty_size(vr2));
                        assert(wl_size(worklist@) < wl_size(wl0));
                    }
                }
                _ => {
                    return Err(TypeMismatch {});
                }
            }
        }
    }
}

/// Substitutes a fresh binding through the remaining worklist, restoring
/// its resolvedness with respect to the extended store.
fn subst_worklist(
    v: u64,
    rep: &Ty,
    worklist: &mut Vec<(Ty, Ty)>,
    Ghost(b0): Ghost<Seq<Option<SpecTy>>>,
    Ghost(b1): Ghost<Seq<Option<SpecTy>>>,
)
    requires
        b1 == store_bind(b0, v, rep@),
        ty_resolved_in(b0, rep@),
        !occurs(v, rep@),
        wl_resolved(b0, old(worklist)@),
    ensures
        final(worklist)@.len() == old(worklist)@.len(),
        wl_resolved(b1, final(worklist)@),
{
    let n = worklist.len();
    for i in 0..n
        invariant
            n == worklist@.len(),
            forall|k: int| i <= k < n ==> ty_resolved_in(b0, (#[trigger] worklist@[k]).0@)
                && ty_resolved_in(b0, worklist@[k].1@),
            forall|k: int| 0 <= k < i ==> ty_resolved_in(b1, (#[trigger] worklist@[k]).0@)
                && ty_resolved_in(b1, worklist@[k].1@),
    {
        let x = ty_subst_var(v, rep, &worklist[i].0);
        let y = ty_subst_var(v, rep, &worklist[i].1);
        proof {
            lemma_subst_var_resolved(b0, v, rep@, worklist@[i as int].0@);
            lemma_subst_var_resolved(b0, v, rep@, worklist@[i as int].1@);
        }
        worklist[i] = (x, y);
    }
}

/// Appends the pointwise pairs of two equally long, resolved lists.
fn push_ty_pairs(
    worklist: &mut Vec<(Ty, Ty)>,
    xs: Vec<Ty>,
    ys: Vec<Ty>,
    Ghost(b): Ghost<Seq<Option<SpecTy>>>,
)
    requires
        xs@.len() == ys@.len(),
        wl_resolved(b, old(worklist)@),
        seq_resolved_in(b, view_ty_seq(xs@)),
        seq_resolved_in(b, view_ty_seq(ys@)),
    ensures
        wl_resolved(b, final(worklist)@),
        wl_size(final(worklist)@) == wl_size(old(worklist)@) + crate::ty::sty_size_seq(
            view_ty_seq(xs@),
        ) + crate::ty::sty_size_seq(view_ty_seq(ys@)),
{
    broadcast use {lemma_view_ty_seq_len, lemma_view_ty_seq_index, lemma_occurs_seq};

    let ghost xs_in = xs@;
    let ghost ys_in = ys@;
    let mut xs = xs;
    let mut ys = ys;
    loop
        invariant
            xs@.len() == ys@.len(),
            seq_resolved_in(b, view_ty_seq(xs@)),
            seq_resolved_in(b, view_ty_seq(ys@)),
            wl_resolved(b, worklist@),
            wl_size(worklist@) + crate::ty::sty_size_seq(view_ty_seq(xs@))
                + crate::ty::sty_size_seq(view_ty_seq(ys@)) == wl_size(old(worklist)@)
                + crate::ty::sty_size_seq(view_ty_seq(xs_in)) + crate::ty::sty_size_seq(
                view_ty_seq(ys_in),
            ),
        decreases xs@.len(),
    {
        let ghost xs0 = xs@;
        let ghost ys0 = ys@;
        let ghost w0 = worklist@;
        let x = match xs.pop() {
            Some(t) => t,
            None => {
                return;
            }
        };
        let y = match ys.pop() {
            Some(t) => t,
            None => {
                proof {
                    assert(false);
                }
                Ty::Error
            }
        };
        proof {
            assert(x@ == view_ty_seq(xs0)[xs0.len() - 1]);
            assert(y@ == view_ty_seq(ys0)[ys0.len() - 1]);
            assert(view_ty_seq(xs@) =~= view_ty_seq(xs0).drop_last());
            assert(view_ty_seq(ys@) =~= view_ty_seq(ys0).drop_last());
            crate::ty::lemma_sty_size_seq_drop_last(view_ty_seq(xs0));
            crate::ty::lemma_sty_size_seq_drop_last(view_ty_seq(ys0));
            assert forall|u: u64| occurs(u, x@) implies !is_bound(b, u) by {
                assert(occurs_seq(u, view_ty_seq(xs0)));
            }
            assert forall|u: u64| occurs(u, y@) implies !is_bound(b, u) by {
                assert(occurs_seq(u, view_ty_seq(ys0)));
            }
            assert forall|u: u64| occurs_seq(u, view_ty_seq(xs@)) implies !is_bound(b, u) by {
                let i = choose|i: int|
                    0 <= i < view_ty_seq(xs@).len() && occurs(u, view_ty_seq(xs@)[i]);
                assert(view_ty_seq(xs0)[i] == view_ty_seq(xs@)[i]);
                assert(occurs_seq(u, view_ty_seq(xs0)));
            }
            assert forall|u: u64| occurs_seq(u, view_ty_seq(ys@)) implies !is_bound(b, u) by {
                let i = choose|i: int|
                    0 <= i < view_ty_seq(ys@).len() && occurs(u, view_ty_seq(ys@)[i]);
                assert(view_ty_seq(ys0)[i] == view_ty_seq(ys@)[i]);
                assert(occurs_seq(u, view_ty_seq(ys0)));
            }
        }
        worklist.push((x, y));
        proof {
            assert(worklist@.drop_last() =~= w0);
            assert(worklist@.last() == (x, y));
        }
    }
}

/// Resolution lifted to trait references.
pub open spec fn spec_resolve_trait_ref(b: Seq<Option<SpecTy>>, tr: SpecTraitRef) -> SpecTraitRef {
    SpecTraitRef { trait_id: tr.trait_id, substs: spec_resolve_seq(b, tr.substs) }
}

/// Resolution lifted to projection references.
pub open spec fn spec_resolve_projection_ty(
    b: Seq<Option<SpecTy>>,
    p: SpecProjectionTy,
) -> SpecProjectionTy {
    SpecProjectionTy {
        trait_id: p.trait_id,
        item_id: p.item_id,
        substs: spec_resolve_seq(b, p.substs),
    }
}

/// Resolution lifted to predicates.
pub open spec fn spec_resolve_predicate(b: Seq<Option<SpecTy>>, p: SpecPredicate) -> SpecPredicate {
    match p {
        SpecPredicate::Trait(tr) => SpecPredicate::Trait(spec_resolve_trait_ref(b, tr)),
        SpecPredicate::RegionOutlives(x, y) => SpecPredicate::RegionOutlives(x, y),
        SpecPredicate::TypeOutlives(t, r, hr) => SpecPredicate::TypeOutlives(
            spec_resolve(b, t),
            r,
            hr,
        ),
        SpecPredicate::Projection(pp) => SpecPredicate::Projection(
            SpecProjectionPredicate {
                projection_ty: spec_resolve_projection_ty(b, pp.projection_ty),
                ty: spec_resolve(b, pp.ty),
            },
        ),
        SpecPredicate::WellFormed(t) => SpecPredicate::WellFormed(spec_resolve(b, t)),
        SpecPredicate::ObjectSafe(d) => SpecPredicate::ObjectSafe(d),
        SpecPredicate::ClosureKind(d, k) => SpecPredicate::ClosureKind(d, k),
        SpecPredicate::Subtype(x, y) => SpecPredicate::Subtype(
            spec_resolve(b, x),
            spec_resolve(b, y),
        ),
        SpecPredicate::ConstEvaluatable(d) => SpecPredicate::ConstEvaluatable(d),
        SpecPredicate::ConstEquate(x, y) => SpecPredicate::ConstEquate(x, y),
    }
}

/// Resolution lifted to obligations: the predicate is resolved, the
/// provenance and ambient assumptions are kept.
pub open spec fn spec_resolve_obligation(
    b: Seq<Option<SpecTy>>,
    o: SpecObligation,
) -> SpecObligation {
    SpecObligation {
        cause: o.cause,
        param_env: o.param_env,
        recursion_depth: o.recursion_depth,
        predicate: spec_resolve_predicate(b, o.predicate),
    }
}

impl InferCtxt {
    /// Substitutes currently known bindings through a trait reference.
    pub fn resolve_trait_ref(&self, tr: &TraitRef) -> (r: TraitRef)
        ensures
            r@ == spec_resolve_trait_ref(self.b(), tr@),
    {
        TraitRef { trait_id: tr.trait_id, substs: resolve_tys_rec(&self.bindings, &tr.substs) }
    }

    /// Substitutes currently known bindings through a projection
    /// reference, as cache keys require.
    pub fn resolve_projection_ty(&self, p: &ProjectionTy) -> (r: ProjectionTy)
        ensures
            r@ == spec_resolve_projection_ty(self.b(), p@),
    {
        ProjectionTy {
            trait_id: p.trait_id,
            item_id: p.item_id,
            substs: resolve_tys_rec(&self.bindings, &p.substs),
        }
    }

    /// Substitutes currently known bindings through a predicate.
    pub fn resolve_predicate(&self, p: &Predicate) -> (r: Predicate)
        ensures
            r@ == spec_resolve_predicate(self.b(), p@),
    {
        match p {
            Predicate::Trait(tr) => Predicate::Trait(self.resolve_trait_ref(tr)),
            Predicate::RegionOutlives(x, y) => Predicate::RegionOutlives(*x, *y),
            Predicate::TypeOutlives(t, r, hr) => Predicate::TypeOutlives(
                self.resolve_ty(t),
                *r,
                *hr,
            ),
            Predicate::Projection(pp) => Predicate::Projection(
                ProjectionPredicate {
                    projection_ty: self.resolve_projection_ty(&pp.projection_ty),
                    ty: self.resolve_ty(&pp.ty),
                },
            ),
            Predicate::WellFormed(t) => Predicate::WellFormed(self.resolve_ty(t)),
            Predicate::ObjectSafe(d) => Predicate::ObjectSafe(*d),
            Predicate::ClosureKind(d, k) => Predicate::ClosureKind(*d, *k),
            Predicate::Subtype(x, y) => Predicate::Subtype(self.resolve_ty(x), self.resolve_ty(y)),
            Predicate::ConstEvaluatable(d) => Predicate::ConstEvaluatable(*d),
            Predicate::ConstEquate(x, y) => Predicate::ConstEquate(*x, *y),
        }
    }

    /// Substitutes currently known bindings through an obligation's
    /// predicate.
    pub fn resolve_obligation(&self, o: &Obligation) -> (r: Obligation)
        ensures
            r@ == spec_resolve_obligation(self.b(), o@),
    {
        let r = Obligation {
            cause: o.cause,
            param_env: o.param_env.clone(),
            recursion_depth: o.recursion_depth,
            predicate: self.resolve_predicate(&o.predicate),
        };
        proof {
            assert(r@ =~= spec_resolve_obligation(self.b(), o@));
        }
        r
    }
}

} // verus!
