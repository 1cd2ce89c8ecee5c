//! Unit-level checks: closure-kind dispatch, candidate accumulation,
//! the projection cache's state machine, and the unification capability.

use fulfillment::cache::{ProjectionCache, ProjectionCacheEntry};
use fulfillment::infer::InferCtxt;
use fulfillment::predicate::{
    needs_fn_once_adapter_shim, ClosureKind, ProjectionPredicate, ProjectionTy,
};
use fulfillment::project::{ProjectionTyCandidate, ProjectionTyCandidateSet};
use fulfillment::select::{ImplSource, ImplSourceUserDefinedData};
use fulfillment::ty::{ty_eq, Ty};

fn small_proj(tag: u64) -> ProjectionPredicate {
    ProjectionPredicate {
        projection_ty: ProjectionTy {
            trait_id: 1,
            item_id: 2,
            substs: vec![Ty::Adt(tag, Vec::new())],
        },
        ty: Ty::Adt(90, Vec::new()),
    }
}

#[test]
fn fn_once_adapter_shim_decisions() {
    // Same kind: no adapter.
    assert_eq!(needs_fn_once_adapter_shim(ClosureKind::Fn, ClosureKind::Fn), Ok(false));
    assert_eq!(needs_fn_once_adapter_shim(ClosureKind::FnMut, ClosureKind::FnMut), Ok(false));
    assert_eq!(needs_fn_once_adapter_shim(ClosureKind::FnOnce, ClosureKind::FnOnce), Ok(false));
    // A Fn closure called as FnMut works as it is.
    assert_eq!(needs_fn_once_adapter_shim(ClosureKind::Fn, ClosureKind::FnMut), Ok(false));
    // Dispatching by value needs the adapter shim.
    assert_eq!(needs_fn_once_adapter_shim(ClosureKind::Fn, ClosureKind::FnOnce), Ok(true));
    assert_eq!(needs_fn_once_adapter_shim(ClosureKind::FnMut, ClosureKind::FnOnce), Ok(true));
    // Calling through a stronger kind than the closure's own is impossible.
    assert_eq!(needs_fn_once_adapter_shim(ClosureKind::FnMut, ClosureKind::Fn), Err(()));
    assert_eq!(needs_fn_once_adapter_shim(ClosureKind::FnOnce, ClosureKind::Fn), Err(()));
    assert_eq!(needs_fn_once_adapter_shim(ClosureKind::FnOnce, ClosureKind::FnMut), Err(()));
}

#[test]
fn closure_kind_extension() {
    assert!(ClosureKind::Fn.extends(ClosureKind::FnOnce));
    assert!(ClosureKind::Fn.extends(ClosureKind::FnMut));
    assert!(ClosureKind::FnMut.extends(ClosureKind::FnOnce));
    assert!(!ClosureKind::FnMut.extends(ClosureKind::Fn));
    assert!(!ClosureKind::FnOnce.extends(ClosureKind::FnMut));
}

#[test]
fn candidate_set_accumulates_with_priority() {
    // A first candidate is kept.
    let mut set = ProjectionTyCandidateSet::NoCandidate;
    assert!(set.push_candidate(ProjectionTyCandidate::ParamEnv(small_proj(1))));
    // A duplicate is silently dropped.
    assert!(!set.push_candidate(ProjectionTyCandidate::ParamEnv(small_proj(1))));
    assert!(matches!(set, ProjectionTyCandidateSet::Single(_)));
    // Two distinct ambient candidates collapse to ambiguity.
    assert!(!set.push_candidate(ProjectionTyCandidate::ParamEnv(small_proj(2))));
    assert!(matches!(set, ProjectionTyCandidateSet::Ambiguous));

    // An ambient candidate dominates a trait-definition candidate.
    let mut set = ProjectionTyCandidateSet::NoCandidate;
    assert!(set.push_candidate(ProjectionTyCandidate::ParamEnv(small_proj(1))));
    assert!(!set.push_candidate(ProjectionTyCandidate::TraitDef(small_proj(2))));
    match &set {
        ProjectionTyCandidateSet::Single(ProjectionTyCandidate::ParamEnv(_)) => {}
        other => panic!("unexpected set: {:?}", other),
    }

    // In the other order the ambient candidate still wins.
    let mut set = ProjectionTyCandidateSet::NoCandidate;
    assert!(set.push_candidate(ProjectionTyCandidate::TraitDef(small_proj(2))));
    assert!(set.push_candidate(ProjectionTyCandidate::ParamEnv(small_proj(1))));
    match &set {
        ProjectionTyCandidateSet::Single(ProjectionTyCandidate::ParamEnv(_)) => {}
        other => panic!("unexpected set: {:?}", other),
    }

    // Two distinct candidates of equal standing are ambiguous.
    let mut set = ProjectionTyCandidateSet::NoCandidate;
    assert!(set.push_candidate(ProjectionTyCandidate::TraitDef(small_proj(1))));
    assert!(!set.push_candidate(ProjectionTyCandidate::TraitDef(small_proj(2))));
    assert!(matches!(set, ProjectionTyCandidateSet::Ambiguous));
}

#[test]
fn cache_state_machine() {
    let mut cache = ProjectionCache::new();
    let key = ProjectionTy { trait_id: 1, item_id: 2, substs: vec![Ty::Adt(3, Vec::new())] };
    // An absent key starts a computation.
    assert!(cache.try_start(&key).is_ok());
    // A second request for the same key observes the computation on foot.
    match cache.try_start(&key) {
        Err(ProjectionCacheEntry::InProgress) => {}
        other => panic!("unexpected entry: {:?}", other),
    }
    // Completing to ambiguous is observed on the next request.
    cache.set_entry(&key, ProjectionCacheEntry::Ambiguous);
    match cache.try_start(&key) {
        Err(ProjectionCacheEntry::Ambiguous) => {}
        other => panic!("unexpected entry: {:?}", other),
    }
    // A different key is independent.
    let other_key = ProjectionTy { trait_id: 1, item_id: 2, substs: vec![Ty::Adt(4, Vec::new())] };
    assert!(cache.try_start(&other_key).is_ok());
    cache.set_entry(&other_key, ProjectionCacheEntry::Error);
    match cache.get(&key) {
        Some(ProjectionCacheEntry::Ambiguous) => {}
        other => panic!("unexpected entry: {:?}", other),
    }
}

#[test]
fn unification_binds_and_rejects() {
    let mut infcx = InferCtxt::new();
    let v = infcx.next_ty_var();
    // Vec<?0> against Vec<i32> binds ?0 := i32.
    let a = Ty::Adt(10, vec![v.clone()]);
    let b = Ty::Adt(10, vec![Ty::Adt(11, Vec::new())]);
    let nested = infcx.unify(&a, &b).unwrap();
    assert_eq!(nested.len(), 0);
    assert_eq!(infcx.resolve_ty(&v), Ty::Adt(11, Vec::new()));
    // Mismatched constructors are rejected.
    let c = Ty::Adt(12, Vec::new());
    let d = Ty::Adt(13, Vec::new());
    assert!(infcx.unify(&c, &d).is_err());
    // A variable bound once keeps its value.
    assert!(infcx.unify(&v, &Ty::Adt(11, Vec::new())).is_ok());
    assert!(infcx.unify(&v, &Ty::Adt(12, Vec::new())).is_err());
}

#[test]
fn unification_rejects_cyclic_binding() {
    let mut infcx = InferCtxt::new();
    let v = infcx.next_ty_var();
    // ?0 == Vec<?0> has no finite solution.
    let cyclic = Ty::Adt(10, vec![v.clone()]);
    assert!(infcx.unify(&v, &cyclic).is_err());
}

#[test]
fn unification_defers_projections_as_predicates() {
    let mut infcx = InferCtxt::new();
    let proj = Ty::Projection(1, 2, vec![Ty::Adt(3, Vec::new())]);
    let target = Ty::Adt(4, Vec::new());
    let nested = infcx.unify(&proj, &target).unwrap();
    assert_eq!(nested.len(), 1);
    match &nested[0] {
        fulfillment::predicate::Predicate::Projection(pp) => {
            assert_eq!(pp.projection_ty.trait_id, 1);
            assert_eq!(pp.projection_ty.item_id, 2);
            assert!(ty_eq(&pp.ty, &target));
        }
        other => panic!("unexpected predicate: {:?}", other),
    }
}

#[test]
fn shared_variables_unify_consistently() {
    let mut infcx = InferCtxt::new();
    let v = infcx.next_ty_var();
    // F<?0, ?0> against F<i32, bool-like> must fail on the second use.
    let a = Ty::Adt(10, vec![v.clone(), v.clone()]);
    let b = Ty::Adt(10, vec![Ty::Adt(11, Vec::new()), Ty::Adt(12, Vec::new())]);
    assert!(infcx.unify(&a, &b).is_err());
    // Against equal arguments it succeeds.
    let mut infcx = InferCtxt::new();
    let v = infcx.next_ty_var();
    let a = Ty::Adt(10, vec![v.clone(), v.clone()]);
    let c = Ty::Adt(10, vec![Ty::Adt(11, Vec::new()), Ty::Adt(11, Vec::new())]);
    assert!(infcx.unify(&a, &c).is_ok());
    assert_eq!(infcx.resolve_ty(&v), Ty::Adt(11, Vec::new()));
}

#[test]
fn duplicate_impl_candidate_is_deduplicated_not_ambiguous() {
    // The same impl-derived candidate pushed twice is silently dropped,
    // exactly like a duplicate ambient candidate.
    let source = |idx: usize| {
        ProjectionTyCandidate::Select(ImplSource::UserDefined(ImplSourceUserDefinedData {
            impl_index: idx,
            substs: vec![Ty::Adt(5, Vec::new())],
            nested: Vec::new(),
        }))
    };
    let mut set = ProjectionTyCandidateSet::NoCandidate;
    assert!(set.push_candidate(source(3)));
    assert!(!set.push_candidate(source(3)));
    assert!(matches!(set, ProjectionTyCandidateSet::Single(_)));
    // A genuinely different impl-derived candidate still conflicts.
    assert!(!set.push_candidate(source(4)));
    assert!(matches!(set, ProjectionTyCandidateSet::Ambiguous));
}
