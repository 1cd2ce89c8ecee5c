//! The selection capability: given a trait obligation, chooses what
//! satisfies it — a caller bound, a user impl, a built-in rule for
//! closures, generators, trait objects or discriminants — or reports
//! ambiguity or failure. Consumed by the fulfillment driver and by
//! projection candidate assembly; its internal matching policy is simple
//! first-order unification against impl headers, with where-clause
//! candidates taking priority over impls.

use vstd::prelude::*;

use crate::infer::{store_wf, view_bindings, InferCtxt, TypeMismatch};
use crate::predicate::{
    obligations_eq, subst_predicate, view_obligation_seq, ClosureKind, Obligation, ParamEnv,
    Predicate, SpecObligation, TraitRef,
};
use crate::tables::Tables;
use crate::ty::{clone_tys, tys_subst, Ty};

verus! {

/// The bound on obligation recursion depth; exceeding it is a fatal
/// overflow rather than an endless loop.
pub const RECURSION_LIMIT: u64 = 128;

/// Why selection failed.
#[derive(Clone, Copy, PartialEq, Eq, Structural, Debug)]
pub enum SelectionError {
    /// No implementation satisfies the bound.
    Unimplemented,
    /// The recursion-depth bound was exceeded.
    Overflow,
    /// A constant could not be evaluated.
    ConstEvalFailure,
}

/// A selected user impl: which impl, the inferred values of its generic
/// parameters, and the nested obligations selection incurred.
#[derive(Debug)]
pub struct ImplSourceUserDefinedData {
    pub impl_index: usize,
    pub substs: Vec<Ty>,
    pub nested: Vec<Obligation>,
}

impl View for ImplSourceUserDefinedData {
    type V = (int, Seq<crate::ty::SpecTy>, Seq<SpecObligation>);

    open spec fn view(&self) -> (int, Seq<crate::ty::SpecTy>, Seq<SpecObligation>) {
        (
            self.impl_index as int,
            crate::ty::view_ty_seq(self.substs@),
            view_obligation_seq(self.nested@),
        )
    }
}

/// The view of what satisfies a trait obligation.
pub enum SpecImplSource {
    UserDefined(int, Seq<crate::ty::SpecTy>, Seq<SpecObligation>),
    Param,
    Object,
    Closure,
    Generator,
    DiscriminantKind,
}

/// What satisfies a trait obligation.
#[derive(Debug)]
pub enum ImplSource {
    /// A user-written impl.
    UserDefined(ImplSourceUserDefinedData),
    /// A caller bound from the ambient environment; says nothing about
    /// associated types.
    Param,
    /// The self type is a trait object carrying the bound.
    Object,
    /// The built-in callable rule for closures.
    Closure,
    /// The built-in rule for generators.
    Generator,
    /// The built-in discriminant rule, implemented for every type.
    DiscriminantKind,
}

impl View for ImplSource {
    type V = SpecImplSource;

    open spec fn view(&self) -> SpecImplSource {
        match self {
            ImplSource::UserDefined(d) => SpecImplSource::UserDefined(d@.0, d@.1, d@.2),
            ImplSource::Param => SpecImplSource::Param,
            ImplSource::Object => SpecImplSource::Object,
            ImplSource::Closure => SpecImplSource::Closure,
            ImplSource::Generator => SpecImplSource::Generator,
            ImplSource::DiscriminantKind => SpecImplSource::DiscriminantKind,
        }
    }
}

/// Structural equality of impl sources, decided on the views.
pub fn impl_source_eq(a: &ImplSource, b: &ImplSource) -> (r: bool)
    ensures
        r == (a@ == b@),
{
    match (a, b) {
        (ImplSource::UserDefined(x), ImplSource::UserDefined(y)) => {
            x.impl_index == y.impl_index && crate::ty::tys_eq(&x.substs, &y.substs)
                && obligations_eq(&x.nested, &y.nested)
        }
        (ImplSource::Param, ImplSource::Param) => true,
        (ImplSource::Object, ImplSource::Object) => true,
        (ImplSource::Closure, ImplSource::Closure) => true,
        (ImplSource::Generator, ImplSource::Generator) => true,
        (ImplSource::DiscriminantKind, ImplSource::DiscriminantKind) => true,
        _ => false,
    }
}

/// Wraps plain predicates into obligations at the given depth.
pub fn obligations_from(
    preds: &Vec<Predicate>,
    env: &ParamEnv,
    cause: u64,
    depth: u64,
) -> (r: Vec<Obligation>)
    ensures
        r@.len() == preds@.len(),
        forall|i: int| 0 <= i < r@.len() ==> (#[trigger] r@[i])@.predicate == preds@[i]@
            && r@[i]@.param_env == env@ && r@[i]@.recursion_depth == depth && r@[i]@.cause
            == cause,
{
    let mut out: Vec<Obligation> = Vec::new();
    let n = preds.len();
    for i in 0..n
        invariant
            n == preds@.len(),
            out@.len() == i,
            forall|j: int| 0 <= j < i ==> (#[trigger] out@[j])@.predicate == preds@[j]@
                && out@[j]@.param_env == env@ && out@[j]@.recursion_depth == depth
                && out@[j]@.cause == cause,
    {
        out.push(
            Obligation {
                cause,
                param_env: env.clone(),
                recursion_depth: depth,
                predicate: preds[i].clone(),
            },
        );
    }
    out
}

/// Unifies two trait references pointwise, returning the deferred
/// predicates, or a mismatch. The caller decides whether to keep or roll
/// back the bindings. References already equal once resolved unify
/// trivially, binding and deferring nothing.
pub fn unify_trait_refs(
    infcx: &mut InferCtxt,
    a: &TraitRef,
    b: &TraitRef,
) -> (r: Result<Vec<Predicate>, TypeMismatch>)
    requires
        old(infcx).wf(),
    ensures
        final(infcx).wf(),
        final(infcx).cache == old(infcx).cache,
        final(infcx).region_obligations == old(infcx).region_obligations,
        final(infcx).assembly_count == old(infcx).assembly_count,
        (a@.trait_id == b@.trait_id && a@.substs.len() == b@.substs.len()
            && crate::infer::spec_resolve_seq(old(infcx).b(), a@.substs)
            == crate::infer::spec_resolve_seq(old(infcx).b(), b@.substs)) ==> (r matches Ok(v)
            && v@.len() == 0 && *final(infcx) == *old(infcx)),
{
    broadcast use {
        crate::ty::lemma_view_ty_seq_len,
        crate::ty::lemma_view_ty_seq_index,
        crate::infer::lemma_spec_resolve_seq_len,
        crate::infer::lemma_spec_resolve_seq_index,
    };

    let ghost trivial = a@.trait_id == b@.trait_id && a@.substs.len() == b@.substs.len()
        && crate::infer::spec_resolve_seq(old(infcx).b(), a@.substs)
        == crate::infer::spec_resolve_seq(old(infcx).b(), b@.substs);
    if a.trait_id != b.trait_id {
        return Err(TypeMismatch {});
    }
    if a.substs.len() != b.substs.len() {
        return Err(TypeMismatch {});
    }
    let mut nested: Vec<Predicate> = Vec::new();
    let n = a.substs.len();
    for i in 0..n
        invariant
            n == a.substs@.len() == b.substs@.len(),
            infcx.wf(),
            infcx.cache == old(infcx).cache,
            infcx.region_obligations == old(infcx).region_obligations,
            infcx.assembly_count == old(infcx).assembly_count,
            trivial == (a@.trait_id == b@.trait_id && a@.substs.len() == b@.substs.len()
                && crate::infer::spec_resolve_seq(old(infcx).b(), a@.substs)
                == crate::infer::spec_resolve_seq(old(infcx).b(), b@.substs)),
            trivial ==> (*infcx == *old(infcx) && nested@.len() == 0),
    {
        proof {
            if trivial {
                assert(crate::infer::spec_resolve_seq(old(infcx).b(), a@.substs)[i as int]
                    == crate::infer::spec_resolve(old(infcx).b(), a.substs@[i as int]@));
                assert(crate::infer::spec_resolve_seq(old(infcx).b(), b@.substs)[i as int]
                    == crate::infer::spec_resolve(old(infcx).b(), b.substs@[i as int]@));
            }
        }
        match infcx.unify(&a.substs[i], &b.substs[i]) {
            Ok(mut ps) => {
                nested.append(&mut ps);
            }
            Err(e) => {
                return Err(e);
            }
        }
    }
    Ok(nested)
}

/// Probes whether the environment holds a bound matching the trait
/// reference, without committing any bindings.
fn env_bound_matches(
    infcx: &mut InferCtxt,
    env: &ParamEnv,
    tr: &TraitRef,
) -> (r: bool)
    requires
        old(infcx).wf(),
    ensures
        final(infcx).wf(),
        final(infcx).b() == old(infcx).b(),
        final(infcx).cache == old(infcx).cache,
        final(infcx).region_obligations == old(infcx).region_obligations,
        final(infcx).assembly_count == old(infcx).assembly_count,
{
    let n = env.caller_bounds.len();
    for i in 0..n
        invariant
            n == env.caller_bounds@.len(),
            infcx.wf(),
            infcx.b() == old(infcx).b(),
            infcx.cache == old(infcx).cache,
            infcx.region_obligations == old(infcx).region_obligations,
            infcx.assembly_count == old(infcx).assembly_count,
    {
        match &env.caller_bounds[i] {
            Predicate::Trait(bound_tr) => {
                let snap = infcx.snapshot();
                let matched = match unify_trait_refs(infcx, tr, bound_tr) {
                    Ok(_) => true,
                    Err(_) => false,
                };
                proof {
                    assert(store_wf(view_bindings(snap@)));
                }
                infcx.rollback(snap);
                if matched {
                    return true;
                }
            }
            _ => {}
        }
    }
    false
}

/// Instantiates the header of an impl with fresh inference variables.
/// Returns the fresh variables and the instantiated trait reference.
fn instantiate_impl(
    tables: &Tables,
    infcx: &mut InferCtxt,
    impl_index: usize,
) -> (r: (Vec<Ty>, TraitRef))
    requires
        old(infcx).wf(),
        impl_index < tables.impls@.len(),
    ensures
        final(infcx).wf(),
        final(infcx).cache == old(infcx).cache,
        final(infcx).region_obligations == old(infcx).region_obligations,
        final(infcx).assembly_count == old(infcx).assembly_count,
{
    let generics = tables.impls[impl_index].generics;
    let mut fresh: Vec<Ty> = Vec::new();
    let mut k: u64 = 0;
    while k < generics
        invariant
            infcx.wf(),
            infcx.cache == old(infcx).cache,
            infcx.region_obligations == old(infcx).region_obligations,
            infcx.assembly_count == old(infcx).assembly_count,
        decreases generics - k,
    {
        let v = infcx.next_ty_var();
        fresh.push(v);
        k = k + 1;
    }
    let header = TraitRef {
        trait_id: tables.impls[impl_index].trait_ref.trait_id,
        substs: tys_subst(&fresh, &tables.impls[impl_index].trait_ref.substs),
    };
    (fresh, header)
}

/// The kind of closure a callable trait demands, given that it is one of
/// the three callable traits.
pub open spec fn spec_callable_kind(tables: &Tables, trait_id: u64) -> ClosureKind {
    if trait_id == tables.fn_trait {
        ClosureKind::Fn
    } else if trait_id == tables.fn_mut_trait {
        ClosureKind::FnMut
    } else {
        ClosureKind::FnOnce
    }
}

/// The kind of closure a callable trait demands, if it is one.
fn callable_kind_of_trait(tables: &Tables, trait_id: u64) -> (r: Option<ClosureKind>)
    ensures
        r == (if trait_id == tables.fn_trait {
            Some(ClosureKind::Fn)
        } else if trait_id == tables.fn_mut_trait {
            Some(ClosureKind::FnMut)
        } else if trait_id == tables.fn_once_trait {
            Some(ClosureKind::FnOnce)
        } else {
            None
        }),
{
    if trait_id == tables.fn_trait {
        Some(ClosureKind::Fn)
    } else if trait_id == tables.fn_mut_trait {
        Some(ClosureKind::FnMut)
    } else if trait_id == tables.fn_once_trait {
        Some(ClosureKind::FnOnce)
    } else {
        None
    }
}

/// The selection capability.
///
/// Resolves the trait reference, then decides by the head of the self
/// type: an unresolved variable is ambiguity (`Ok(None)`); closures,
/// generators, trait objects and the discriminant trait use built-in
/// rules; otherwise a matching caller bound wins, then a unique matching
/// impl is committed, several matching impls are ambiguity, and none is
/// `Unimplemented`. A depth beyond the recursion bound is `Overflow`.
pub fn select(
    tables: &Tables,
    infcx: &mut InferCtxt,
    env: &ParamEnv,
    trait_ref: &TraitRef,
    cause: u64,
    depth: u64,
) -> (r: Result<Option<ImplSource>, SelectionError>)
    requires
        old(infcx).wf(),
    ensures
        final(infcx).wf(),
        final(infcx).cache == old(infcx).cache,
        final(infcx).region_obligations == old(infcx).region_obligations,
        final(infcx).assembly_count == old(infcx).assembly_count,
        depth > RECURSION_LIMIT ==> r == Err::<Option<ImplSource>, SelectionError>(
            SelectionError::Overflow,
        ),
        r matches Ok(Some(ImplSource::UserDefined(d))) ==> d.impl_index
            < tables.impls@.len(),
        ({
            let tr = crate::infer::spec_resolve_trait_ref(old(infcx).b(), trait_ref@);
            // An unresolved self type is ambiguity; an already-failed
            // self type selects trivially.
            &&& (depth <= RECURSION_LIMIT && tr.substs.len() > 0 && tr.substs[0] is Infer
                ==> r == Ok::<Option<ImplSource>, SelectionError>(None))
            &&& (depth <= RECURSION_LIMIT && tr.substs.len() > 0 && tr.substs[0] is Error
                ==> r == Ok::<Option<ImplSource>, SelectionError>(Some(ImplSource::Param)))
            // A closure asked for a callable trait is decided by its
            // recorded kind: selected when the kind extends the demanded
            // one, failed when it does not, ambiguous while unknown.
            &&& ((depth <= RECURSION_LIMIT && tr.substs.len() > 0 && tr.substs[0] is Closure && (
            tr.trait_id == tables.fn_trait || tr.trait_id == tables.fn_mut_trait || tr.trait_id
                == tables.fn_once_trait)) ==> (match
            tables.spec_closure_kind(tr.substs[0]->Closure_0) {
                Some(actual) => if actual.spec_extends(spec_callable_kind(tables, tr.trait_id)) {
                    r == Ok::<Option<ImplSource>, SelectionError>(Some(ImplSource::Closure))
                } else {
                    r == Err::<Option<ImplSource>, SelectionError>(SelectionError::Unimplemented)
                },
                None => r == Ok::<Option<ImplSource>, SelectionError>(None),
            }))
            // A generator asked for the generator trait selects by the
            // built-in rule.
            &&& ((depth <= RECURSION_LIMIT && tr.substs.len() > 0 && tr.substs[0] is Generator
                && tr.trait_id == tables.generator_trait) ==> r == Ok::<
                Option<ImplSource>,
                SelectionError,
            >(Some(ImplSource::Generator)))
        }),
{
    broadcast use {crate::ty::lemma_view_ty_seq_len, crate::ty::lemma_view_ty_seq_index};

    if depth > RECURSION_LIMIT {
        return Err(SelectionError::Overflow);
    }
    let tr = infcx.resolve_trait_ref(trait_ref);
    if tr.substs.len() == 0 {
        return Err(SelectionError::Unimplemented);
    }

    // Built-in rules decided by the head of the self type.
    match &tr.substs[0] {
        Ty::Infer(_) => {
            return Ok(None);
        }
        Ty::Error => {
            return Ok(Some(ImplSource::Param));
        }
        Ty::Closure(d, _, _) => {
            match callable_kind_of_trait(tables, tr.trait_id) {
                Some(required) => {
                    match tables.closure_kind(*d) {
                        Some(actual) => {
                            if actual.extends(required) {
                                return Ok(Some(ImplSource::Closure));
                            } else {
                                return Err(SelectionError::Unimplemented);
                            }
                        }
                        None => {
                            return Ok(None);
                        }
                    }
                }
                None => {}
            }
        }
        Ty::Generator(_, _, _) => {
            if tr.trait_id == tables.generator_trait {
                return Ok(Some(ImplSource::Generator));
            }
        }
        Ty::Dynamic(did) => {
            match tables.lookup_dyn(*did) {
                Some(i) => {
                    if tables.dyns[i].1.principal_trait == tr.trait_id {
                        let self_args = clone_tys(&tr.substs);
                        let principal = TraitRef {
                            trait_id: tables.dyns[i].1.principal_trait,
                            substs: tys_subst(&self_args, &tables.dyns[i].1.principal_substs),
                        };
                        let snap = infcx.snapshot();
                        proof {
                            assert(store_wf(view_bindings(snap@)));
                        }
                        match unify_trait_refs(infcx, &tr, &principal) {
                            Ok(_) => {
                                return Ok(Some(ImplSource::Object));
                            }
                            Err(_) => {
                                infcx.rollback(snap);
                            }
                        }
                    }
                }
                None => {}
            }
        }
        _ => {}
    }

    if tr.trait_id == tables.discriminant_trait {
        return Ok(Some(ImplSource::DiscriminantKind));
    }

    // A caller bound dominates impls.
    if env_bound_matches(infcx, env, &tr) {
        return Ok(Some(ImplSource::Param));
    }

    // Probe every impl of this trait.
    let n = tables.impls.len();
    let mut matching: Option<usize> = None;
    let mut match_count: u64 = 0;
    for i in 0..n
        invariant
            n == tables.impls@.len(),
            infcx.wf(),
            infcx.cache == old(infcx).cache,
            infcx.region_obligations == old(infcx).region_obligations,
            infcx.assembly_count == old(infcx).assembly_count,
            match matching {
                Some(m) => m < n,
                None => true,
            },
    {
        if tables.impls[i].trait_ref.trait_id == tr.trait_id {
            let snap = infcx.snapshot();
            proof {
                assert(store_wf(view_bindings(snap@)));
            }
            let (_fresh, header) = instantiate_impl(tables, infcx, i);
            let probe_ok = match unify_trait_refs(infcx, &tr, &header) {
                Ok(_) => true,
                Err(_) => false,
            };
            infcx.rollback(snap);
            if probe_ok {
                matching = Some(i);
                match_count = if match_count < u64::MAX {
                    match_count + 1
                } else {
                    match_count
                };
            }
        }
    }

    match matching {
        None => Err(SelectionError::Unimplemented),
        Some(i) => {
            if match_count > 1 {
                // Conflicting impls: not enough information to commit.
                return Ok(None);
            }
            // Commit the unique match.
            let snap = infcx.snapshot();
            proof {
                assert(store_wf(view_bindings(snap@)));
            }
            let (fresh, header) = instantiate_impl(tables, infcx, i);
            match unify_trait_refs(infcx, &tr, &header) {
                Ok(unify_preds) => {
                    let child_depth = if depth < u64::MAX {
                        depth + 1
                    } else {
                        depth
                    };
                    let mut nested = obligations_from(&unify_preds, env, cause, child_depth);
                    let wc = tys_subst_predicates(&fresh, &tables.impls[i].where_clauses);
                    let mut wc_obls = obligations_from(&wc, env, cause, child_depth);
                    nested.append(&mut wc_obls);
                    Ok(
                        Some(
                            ImplSource::UserDefined(
                                ImplSourceUserDefinedData { impl_index: i, substs: fresh, nested },
                            ),
                        ),
                    )
                }
                Err(_) => {
                    // The probe matched but the commit did not: undo and
                    // treat as ambiguous rather than wrong.
                    infcx.rollback(snap);
                    Ok(None)
                }
            }
        }
    }
}

/// Substitutes generic arguments through a list of predicates.
pub fn tys_subst_predicates(args: &Vec<Ty>, ps: &Vec<Predicate>) -> (r: Vec<Predicate>)
    ensures
        r@.len() == ps@.len(),
        forall|i: int| 0 <= i < r@.len() ==> (#[trigger] r@[i])@
            == crate::predicate::spec_subst_predicate(
            crate::ty::view_ty_seq(args@),
            ps@[i]@,
        ),
{
    let mut out: Vec<Predicate> = Vec::new();
    let n = ps.len();
    for i in 0..n
        invariant
            n == ps@.len(),
            out@.len() == i,
            forall|j: int| 0 <= j < i ==> (#[trigger] out@[j])@
                == crate::predicate::spec_subst_predicate(
                crate::ty::view_ty_seq(args@),
                ps@[j]@,
            ),
    {
        out.push(subst_predicate(args, &ps[i]));
    }
    out
}

/// The evaluation capability: whether a fully concrete obligation is
/// known to hold outright — it selects, and selection incurs nothing
/// further. Probes only; commits nothing.
pub fn predicate_must_hold(
    tables: &Tables,
    infcx: &mut InferCtxt,
    obligation: &Obligation,
) -> (r: bool)
    requires
        old(infcx).wf(),
    ensures
        final(infcx).wf(),
        final(infcx).b() == old(infcx).b(),
        final(infcx).cache == old(infcx).cache,
        final(infcx).region_obligations == old(infcx).region_obligations,
        final(infcx).assembly_count == old(infcx).assembly_count,
        // Where selection's own contract decides the probe, so does the
        // evaluation: a closure bound on a callable trait holds exactly
        // when the recorded kind extends the demanded one, a generator
        // bound on the generator trait holds outright.
        (obligation@.predicate matches crate::predicate::SpecPredicate::Trait(tr) ==> ({
            let rtr = crate::infer::spec_resolve_trait_ref(old(infcx).b(), tr);
            (obligation@.recursion_depth <= RECURSION_LIMIT && rtr.substs.len() > 0) ==> ({
                &&& ((rtr.substs[0] is Closure && (rtr.trait_id == tables.fn_trait
                    || rtr.trait_id == tables.fn_mut_trait || rtr.trait_id
                    == tables.fn_once_trait)) ==> (match tables.spec_closure_kind(
                    rtr.substs[0]->Closure_0,
                ) {
                    Some(actual) => r == actual.spec_extends(
                        spec_callable_kind(tables, rtr.trait_id),
                    ),
                    None => r == false,
                }))
                &&& ((rtr.substs[0] is Generator && rtr.trait_id == tables.generator_trait)
                    ==> r == true)
            })
        })),
{
    match &obligation.predicate {
        Predicate::Trait(tr) => {
            let snap = infcx.snapshot();
            proof {
                assert(store_wf(view_bindings(snap@)));
            }
            let res = select(
                tables,
                infcx,
                &obligation.param_env,
                tr,
                obligation.cause,
                obligation.recursion_depth,
            );
            let holds = match res {
                Ok(Some(src)) => match src {
                    ImplSource::UserDefined(d) => d.nested.len() == 0,
                    _ => true,
                },
                _ => false,
            };
            infcx.rollback(snap);
            holds
        }
        _ => false,
    }
}

/// A cycle of these obligations is a legitimate co-inductive match:
/// every participant is a trait bound whose trait permits circular
/// proof.
pub open spec fn spec_coinductive(tables: &Tables, cycle: Seq<Obligation>) -> bool {
    forall|i: int| 0 <= i < cycle.len() ==> match (#[trigger] cycle[i]).predicate {
        Predicate::Trait(ref tr) => tables.spec_trait_flags(tr.trait_id).coinductive,
        _ => false,
    }
}

/// Decides whether a cycle is a legitimate co-inductive match.
pub fn coinductive_match(tables: &Tables, cycle: &Vec<Obligation>) -> (r: bool)
    ensures
        r == spec_coinductive(tables, cycle@),
{
    let n = cycle.len();
    for i in 0..n
        invariant
            n == cycle@.len(),
            forall|j: int| 0 <= j < i ==> match (#[trigger] cycle@[j]).predicate {
                Predicate::Trait(ref tr) => tables.spec_trait_flags(tr.trait_id).coinductive,
                _ => false,
            },
    {
        let ok = match &cycle[i].predicate {
            Predicate::Trait(tr) => tables.lookup_trait_flags(tr.trait_id).coinductive,
            _ => false,
        };
        if !ok {
            return false;
        }
    }
    true
}

} // verus!
