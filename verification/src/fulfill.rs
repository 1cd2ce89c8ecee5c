//! The fulfillment driver: tracks a set of registered obligations, runs
//! the obligation forest to a fixpoint, dispatches each predicate kind to
//! its handling rule, and aggregates the errors of one run.
//!
//! Callers register obligations, then call `select_where_possible` to
//! push inference along, and finally `select_all_or_error` to report
//! whatever never resolved as ambiguous. Overflow and non-co-inductive
//! cycles are escalated immediately as fatal, because continuing would
//! not terminate.

use vstd::prelude::*;

use crate::forest::{NodeState, ObligationForest, RegisterChild};
use crate::infer::{is_bound, InferCtxt};
use crate::predicate::{
    Const, Obligation, ParamEnv, PendingPredicateObligation, Predicate, ProjectionTy,
    SpecPendingObligation, SpecPredicate,
};
use crate::project::{
    cache_keys_preserved, project_and_unify_type, InProgress, OverflowError, ProjectAndUnifyError,
};
use crate::select::{
    coinductive_match, obligations_from, predicate_must_hold, select, ImplSource, SelectionError,
};
use crate::tables::{ConstEvalResult, Tables};
use crate::ty::{SpecTy, Ty};

verus! {

/// The bound on full passes over the forest. The loop normally ends at a
/// stall — a pass in which nothing progressed; a pathological input still
/// progressing at this bound is escalated as a fatal overflow, like the
/// recursion-depth bound, so worst-case work stays bounded and nothing is
/// misreported as ambiguous.
pub const MAX_PASSES: usize = 1000;

/// Why an obligation failed.
#[derive(Debug)]
pub enum FulfillmentErrorCode {
    /// Selection failed: no implementation, overflow, or a failed
    /// constant.
    CodeSelectionError(SelectionError),
    /// A projection normalized but did not unify with the expected type.
    CodeProjectionError,
    /// A subtyping constraint failed between the two types.
    CodeSubtypeError(Ty, Ty),
    /// Two constants were required equal and are not.
    CodeConstEquateError(Const, Const),
    /// Never resolved: not enough information at the end of the run.
    CodeAmbiguity,
    /// A non-co-inductive cycle, with the participating obligations.
    CodeCycle(Vec<Obligation>),
}

/// A failed obligation: the root obligation it descends from, the error
/// kind, and the chain from that root down to the failing node.
#[derive(Debug)]
pub struct FulfillmentError {
    pub obligation: Obligation,
    pub code: FulfillmentErrorCode,
    pub backtrace: Vec<Obligation>,
}

/// What processing one pending obligation produced.
#[derive(Debug)]
pub enum ProcessResult {
    /// Not enough information; stays pending.
    Unchanged,
    /// Holds, presuming the given child obligations hold.
    Changed(Vec<PendingPredicateObligation>),
    /// Does not hold.
    Error(FulfillmentErrorCode),
}

/// Wraps plain obligations as pending forest entries with no stalled
/// variables.
pub fn mk_pending(os: Vec<Obligation>) -> (r: Vec<PendingPredicateObligation>)
    ensures
        r@.len() == os@.len(),
        forall|i: int| 0 <= i < r@.len() ==> (#[trigger] r@[i])@.obligation == os@[i]@
            && r@[i]@.stalled_on.len() == 0,
{
    let mut out: Vec<PendingPredicateObligation> = Vec::new();
    let n = os.len();
    for i in 0..n
        invariant
            n == os@.len(),
            out@.len() == i,
            forall|j: int| 0 <= j < i ==> (#[trigger] out@[j])@.obligation == os@[j]@
                && out@[j]@.stalled_on.len() == 0,
    {
        out.push(
            PendingPredicateObligation { obligation: os[i].clone(), stalled_on: Vec::new() },
        );
    }
    out
}

/// An obligation is blocked when it stalled on at least one variable and
/// none of them has been bound since.
pub open spec fn stall_blocked(b: Seq<Option<SpecTy>>, p: SpecPendingObligation) -> bool {
    p.stalled_on.len() > 0 && forall|k: int|
        0 <= k < p.stalled_on.len() ==> !is_bound(b, #[trigger] p.stalled_on[k])
}

/// Whether any variable the obligation stalled on has changed; an
/// obligation with no stalled variables is always worth retrying.
fn stalled_vars_changed(infcx: &InferCtxt, pending: &PendingPredicateObligation) -> (r: bool)
    ensures
        r == !stall_blocked(infcx.b(), pending@),
{
    let n = pending.stalled_on.len();
    if n == 0 {
        return true;
    }
    for k in 0..n
        invariant
            n == pending.stalled_on@.len(),
            forall|j: int| 0 <= j < k ==> !is_bound(infcx.b(), #[trigger] pending.stalled_on@[j]),
    {
        if infcx.var_changed(pending.stalled_on[k]) {
            return true;
        }
    }
    false
}

/// Processes one pending obligation: checks the stall shortcut, resolves
/// the predicate, and dispatches it by kind to the matching capability.
/// A fatal overflow is returned as an error rather than queued.
#[verifier::rlimit(100)]
pub fn process_obligation(
    tables: &Tables,
    infcx: &mut InferCtxt,
    pending: &mut PendingPredicateObligation,
    register_region_obligations: bool,
) -> (r: Result<ProcessResult, FulfillmentError>)
    requires
        old(infcx).wf(),
    ensures
        final(infcx).wf(),
        cache_keys_preserved(old(infcx).cache@, final(infcx).cache@),
        stall_blocked(old(infcx).b(), old(pending)@) ==> (r matches Ok(
            ProcessResult::Unchanged,
        ) && *final(pending) == *old(pending) && *final(infcx) == *old(infcx)),
        !stall_blocked(old(infcx).b(), old(pending)@) ==> (old(pending)@.obligation.predicate matches SpecPredicate::ObjectSafe(d) ==> (
        if tables.spec_trait_flags(d).object_safe {
            r matches Ok(ProcessResult::Changed(v)) && v@.len() == 0
        } else {
            r == Ok::<ProcessResult, FulfillmentError>(
                ProcessResult::Error(
                    FulfillmentErrorCode::CodeSelectionError(SelectionError::Unimplemented),
                ),
            )
        })),
        !stall_blocked(old(infcx).b(), old(pending)@) ==> (old(pending)@.obligation.predicate matches SpecPredicate::ClosureKind(d, kind) ==> (
        match tables.spec_closure_kind(d) {
            Some(actual) => if actual.spec_extends(kind) {
                r matches Ok(ProcessResult::Changed(v)) && v@.len() == 0
            } else {
                r == Ok::<ProcessResult, FulfillmentError>(
                    ProcessResult::Error(
                        FulfillmentErrorCode::CodeSelectionError(SelectionError::Unimplemented),
                    ),
                )
            },
            None => r matches Ok(ProcessResult::Unchanged),
        })),
        !stall_blocked(old(infcx).b(), old(pending)@) ==> (old(pending)@.obligation.predicate matches SpecPredicate::ConstEvaluatable(d) ==> (
        match tables.spec_const_eval(d) {
            ConstEvalResult::Value(v0) => r matches Ok(ProcessResult::Changed(v)) && v@.len()
                == 0,
            ConstEvalResult::TooGeneric => r matches Ok(ProcessResult::Unchanged),
            ConstEvalResult::Reported => r == Ok::<ProcessResult, FulfillmentError>(
                ProcessResult::Error(
                    FulfillmentErrorCode::CodeSelectionError(SelectionError::ConstEvalFailure),
                ),
            ),
        })),
        !stall_blocked(old(infcx).b(), old(pending)@) ==> (old(pending)@.obligation.predicate matches SpecPredicate::RegionOutlives(a, b) ==> (r matches Ok(
            ProcessResult::Changed(v),
        ) && v@.len() == 0)),
        !stall_blocked(old(infcx).b(), old(pending)@) ==> (old(pending)@.obligation.predicate matches SpecPredicate::TypeOutlives(t, reg, hr) ==> (r matches Ok(
            ProcessResult::Changed(v),
        ) && v@.len() == 0)),
        // Only a type-outlives obligation touches the region store; one
        // that runs records exactly its constraint, against the static
        // region when it quantifies over its own.
        !(old(pending)@.obligation.predicate matches SpecPredicate::TypeOutlives(t, reg, hr))
            ==> final(infcx).region_obligations == old(infcx).region_obligations,
        !stall_blocked(old(infcx).b(), old(pending)@) ==> (old(pending)@.obligation.predicate matches SpecPredicate::TypeOutlives(t, reg, hr) ==> (
        if register_region_obligations {
            final(infcx).region_obligations@.len() == old(infcx).region_obligations@.len() + 1
                && final(infcx).region_obligations@.drop_last() == old(infcx).region_obligations@
                && final(infcx).region_obligations@.last().0@ == crate::infer::spec_resolve(
                old(infcx).b(),
                t,
            ) && final(infcx).region_obligations@.last().1 == (if hr {
                0
            } else {
                reg
            }) && final(infcx).region_obligations@.last().2 == old(pending)@.obligation.cause
        } else {
            final(infcx).region_obligations == old(infcx).region_obligations
        })),
        // A well-formedness check stalls on an unresolved type and
        // succeeds outright on anything else.
        !stall_blocked(old(infcx).b(), old(pending)@) ==> (old(pending)@.obligation.predicate matches SpecPredicate::WellFormed(t) ==> (
        match crate::infer::spec_resolve(old(infcx).b(), t) {
            SpecTy::Infer(v) => (r matches Ok(ProcessResult::Unchanged)) && final(pending)@.stalled_on
                =~= seq![v],
            _ => (r matches Ok(ProcessResult::Changed(v2)) && v2@.len() == 0),
        })),
        // A subtyping constraint between two unresolved variables stalls
        // on both; otherwise it either progresses or fails with exactly
        // the two resolved types.
        !stall_blocked(old(infcx).b(), old(pending)@) ==> (old(pending)@.obligation.predicate matches SpecPredicate::Subtype(sa, sb) ==> (
        match (crate::infer::spec_resolve(old(infcx).b(), sa), crate::infer::spec_resolve(
            old(infcx).b(),
            sb,
        )) {
            (SpecTy::Infer(va), SpecTy::Infer(vb)) => (r matches Ok(ProcessResult::Unchanged))
                && final(pending)@.stalled_on =~= seq![va, vb],
            _ => ((r matches Ok(ProcessResult::Changed(v2))) || (r matches Ok(
                ProcessResult::Error(FulfillmentErrorCode::CodeSubtypeError(x, y)),
            ) && x@ == crate::infer::spec_resolve(old(infcx).b(), sa) && y@
                == crate::infer::spec_resolve(old(infcx).b(), sb))),
        })),
        // A trait bound that stays pending stalls exactly on the
        // unresolved variables of its resolved trait reference; one that
        // fails fails with a selection error.
        !stall_blocked(old(infcx).b(), old(pending)@) ==> (old(pending)@.obligation.predicate matches SpecPredicate::Trait(tr) ==> ({
            &&& (r matches Ok(ProcessResult::Unchanged) ==> final(pending)@.stalled_on
                == crate::predicate::spec_trait_ref_infer_vars(
                crate::infer::spec_resolve_trait_ref(
                    final(infcx).b(),
                    crate::infer::spec_resolve_trait_ref(old(infcx).b(), tr),
                ),
            ))
            &&& (r matches Ok(ProcessResult::Error(code)) ==> (code matches
            FulfillmentErrorCode::CodeSelectionError(e0)))
            // Where selection's own contract decides the outcome, so does
            // processing: an unresolved self type stalls the bound, an
            // already-failed one holds trivially with nothing further.
            &&& ((old(pending)@.obligation.recursion_depth <= crate::select::RECURSION_LIMIT
                && crate::infer::spec_resolve_trait_ref(old(infcx).b(), tr).substs.len() > 0)
                ==> ({
                let rtr = crate::infer::spec_resolve_trait_ref(old(infcx).b(), tr);
                let head = rtr.substs[0];
                &&& (head is Infer ==> r matches Ok(ProcessResult::Unchanged))
                &&& (head is Error ==> (r matches Ok(ProcessResult::Changed(v)) && v@.len()
                    == 0))
                // A closure bound on a callable trait is decided by the
                // closure's recorded kind; a generator bound on the
                // generator trait holds by the built-in rule.
                &&& ((head is Closure && (rtr.trait_id == tables.fn_trait || rtr.trait_id
                    == tables.fn_mut_trait || rtr.trait_id == tables.fn_once_trait)) ==> (match
                tables.spec_closure_kind(head->Closure_0) {
                    Some(actual) => if actual.spec_extends(
                        crate::select::spec_callable_kind(tables, rtr.trait_id),
                    ) {
                        r matches Ok(ProcessResult::Changed(v)) && v@.len() == 0
                    } else {
                        r == Ok::<ProcessResult, FulfillmentError>(
                            ProcessResult::Error(
                                FulfillmentErrorCode::CodeSelectionError(
                                    SelectionError::Unimplemented,
                                ),
                            ),
                        )
                    },
                    None => r matches Ok(ProcessResult::Unchanged),
                }))
                &&& ((head is Generator && rtr.trait_id == tables.generator_trait) ==> (r
                matches Ok(ProcessResult::Changed(v)) && v@.len() == 0))
            }))
        })),
        // A projection that stays pending stalls on its resolved trait
        // reference's variables; a mismatch fails as a projection error.
        !stall_blocked(old(infcx).b(), old(pending)@) ==> (old(pending)@.obligation.predicate matches SpecPredicate::Projection(pp0) ==> ({
            &&& (r matches Ok(ProcessResult::Unchanged) ==> final(pending)@.stalled_on
                == crate::predicate::spec_trait_ref_infer_vars(
                crate::infer::spec_resolve_trait_ref(
                    final(infcx).b(),
                    crate::infer::spec_resolve_projection_ty(
                        old(infcx).b(),
                        pp0.projection_ty,
                    ).trait_ref(),
                ),
            ))
            &&& (r matches Ok(ProcessResult::Error(code)) ==> code
                == FulfillmentErrorCode::CodeProjectionError)
            // Recursive re-entry — the projection's key already marked in
            // progress — re-queues the identical (resolved) obligation as
            // one child, breaking the recursion without losing it.
            &&& ({
                let key = crate::infer::spec_resolve_projection_ty(
                    old(infcx).b(),
                    pp0.projection_ty,
                );
                (old(infcx).cache@.contains_key(key) && old(infcx).cache@[key] is InProgress)
                    ==> (r matches Ok(ProcessResult::Changed(v)) && v@.len() == 1 && v@[0]@.obligation
                    == crate::infer::spec_resolve_obligation(
                    old(infcx).b(),
                    old(pending)@.obligation,
                ) && v@[0]@.stalled_on.len() == 0)
            })
            // A fresh key whose self type is an unresolved variable, with
            // no ambient projection bound for the item, stays pending —
            // stalled, by the clause above, on its trait reference's
            // variables, the self variable among them.
            &&& ({
                let key = crate::infer::spec_resolve_projection_ty(
                    old(infcx).b(),
                    pp0.projection_ty,
                );
                (!old(infcx).cache@.contains_key(key)
                    && old(pending)@.obligation.recursion_depth
                    <= crate::select::RECURSION_LIMIT && !crate::ty::has_error_seq(key.substs)
                    && key.substs.len() > 0 && key.substs[0] is Infer && (forall|i: int|
                    0 <= i < old(pending)@.obligation.param_env.caller_bounds.len()
                        ==> !crate::project::spec_scans_item(
                        #[trigger] old(pending)@.obligation.param_env.caller_bounds[i],
                        key.item_id,
                    ))) ==> r matches Ok(ProcessResult::Unchanged)
            })
        })),
        // Only a projection escalates a fatal error, and only for
        // overflow.
        r matches Err(f) ==> (old(pending)@.obligation.predicate is Projection && f.code
            == FulfillmentErrorCode::CodeSelectionError(SelectionError::Overflow)),
        // A queued failure is a per-kind processing error, never an
        // ambiguity or cycle classification.
        r matches Ok(ProcessResult::Error(code)) ==> (!(code is CodeAmbiguity) && !(code
            is CodeCycle)),
{
    // If the obligation was stalled on unresolved variables, first check
    // whether any of them has been resolved; if not, do no more work yet.
    if !stalled_vars_changed(infcx, pending) {
        return Ok(ProcessResult::Unchanged);
    }

    pending.stalled_on = Vec::new();

    if crate::predicate::predicate_has_infer(&pending.obligation.predicate) {
        let resolved = infcx.resolve_predicate(&pending.obligation.predicate);
        pending.obligation.predicate = resolved;
    }

    let predicate = pending.obligation.predicate.clone();
    let env = pending.obligation.param_env.clone();
    let cause = pending.obligation.cause;
    let depth = pending.obligation.recursion_depth;

    match predicate {
        Predicate::Trait(tr) => {
            proof {
                broadcast use crate::ty::lemma_has_infer_seq;

                // The trait reference selection sees resolves to the same
                // reference as the original predicate's: resolution is
                // idempotent; and an unresolved resolved head means the
                // predicate still has inference variables.
                match old(pending)@.obligation.predicate {
                    SpecPredicate::Trait(tq) => {
                        crate::infer::lemma_resolve_resolved_seq(old(infcx).b(), tq.substs);
                        crate::infer::lemma_resolve_identity_seq(
                            old(infcx).b(),
                            crate::infer::spec_resolve_seq(old(infcx).b(), tq.substs),
                        );
                        if !crate::predicate::spec_predicate_has_infer(
                            old(pending)@.obligation.predicate,
                        ) {
                            crate::infer::lemma_no_infer_predicate_resolved(
                                old(infcx).b(),
                                old(pending)@.obligation.predicate,
                            );
                        }
                        let rtr = crate::infer::spec_resolve_trait_ref(old(infcx).b(), tq);
                        if rtr.substs.len() > 0 && rtr.substs[0] is Infer {
                            assert(crate::ty::has_infer(rtr.substs[0]));
                            assert(crate::ty::has_infer_seq(rtr.substs));
                        }
                    }
                    _ => {}
                }
            }
            let is_global = !crate::predicate::predicate_has_infer(&pending.obligation.predicate)
                && !crate::ty::tys_have_param(&tr.substs);
            if is_global {
                // Fully concrete: a cheap global evaluation may settle it
                // with better caching.
                if predicate_must_hold(tables, infcx, &pending.obligation) {
                    return Ok(ProcessResult::Changed(Vec::new()));
                }
            }
            match select(tables, infcx, &env, &tr, cause, depth) {
                Ok(Some(impl_source)) => {
                    let nested = match impl_source {
                        ImplSource::UserDefined(data) => data.nested,
                        _ => Vec::new(),
                    };
                    Ok(ProcessResult::Changed(mk_pending(nested)))
                }
                Ok(None) => {
                    // The only reason selection cannot progress is
                    // missing information about the types involved.
                    proof {
                        match old(pending)@.obligation.predicate {
                            SpecPredicate::Trait(tr0) => {
                                if !crate::predicate::spec_predicate_has_infer(
                                    old(pending)@.obligation.predicate,
                                ) {
                                    crate::infer::lemma_no_infer_seq_resolved(
                                        old(infcx).b(),
                                        tr0.substs,
                                    );
                                    assert(crate::infer::spec_resolve_trait_ref(
                                        old(infcx).b(),
                                        tr0,
                                    ) =~= tr0);
                                }
                            }
                            _ => {}
                        }
                    }
                    let resolved_tr = infcx.resolve_trait_ref(&tr);
                    pending.stalled_on = crate::predicate::trait_ref_infer_vars_of(&resolved_tr);
                    Ok(ProcessResult::Unchanged)
                }
                Err(e) => Ok(
                    ProcessResult::Error(FulfillmentErrorCode::CodeSelectionError(e)),
                ),
            }
        }
        Predicate::RegionOutlives(_, _) => {
            // The region capability records the constraint; it cannot
            // fail here.
            Ok(ProcessResult::Changed(Vec::new()))
        }
        Predicate::TypeOutlives(t, region, higher_ranked) => {
            proof {
                match old(pending)@.obligation.predicate {
                    SpecPredicate::TypeOutlives(t0, r0, h0) => {
                        if !crate::predicate::spec_predicate_has_infer(
                            old(pending)@.obligation.predicate,
                        ) {
                            crate::infer::lemma_no_infer_resolved(old(infcx).b(), t0);
                        }
                    }
                    _ => {}
                }
            }
            if register_region_obligations {
                if higher_ranked {
                    // `for<'a> T: 'a` with `'a` not in `T` is treated
                    // conservatively as `T: 'static`.
                    infcx.register_region_obligation(t, 0, cause);
                } else {
                    infcx.register_region_obligation(t, region, cause);
                }
                proof {
                    assert(infcx.region_obligations@.drop_last() =~= old(infcx).region_obligations@);
                }
            }
            Ok(ProcessResult::Changed(Vec::new()))
        }
        Predicate::Projection(pp) => {
            proof {
                broadcast use {
                    crate::predicate::lemma_view_predicate_seq_len,
                    crate::predicate::lemma_view_predicate_seq_index,
                };

                // The key the cache is consulted under is the same whether
                // the predicate was resolved here or was already resolved:
                // resolution is idempotent.
                match old(pending)@.obligation.predicate {
                    SpecPredicate::Projection(pq) => {
                        crate::infer::lemma_resolve_resolved_seq(
                            old(infcx).b(),
                            pq.projection_ty.substs,
                        );
                        crate::infer::lemma_resolve_identity_seq(
                            old(infcx).b(),
                            crate::infer::spec_resolve_seq(
                                old(infcx).b(),
                                pq.projection_ty.substs,
                            ),
                        );
                        if !crate::predicate::spec_predicate_has_infer(
                            old(pending)@.obligation.predicate,
                        ) {
                            crate::infer::lemma_no_infer_predicate_resolved(
                                old(infcx).b(),
                                old(pending)@.obligation.predicate,
                            );
                        }
                    }
                    _ => {}
                }
                // The cloned environment scans the same caller bounds as
                // the obligation's own.
                assert(env@ == old(pending)@.obligation.param_env);
                assert(env.caller_bounds@.len()
                    == old(pending)@.obligation.param_env.caller_bounds.len());
                assert forall|i: int| 0 <= i < env.caller_bounds@.len() implies (
                #[trigger] env.caller_bounds@[i])@
                    == old(pending)@.obligation.param_env.caller_bounds[i] by {
                    assert(crate::predicate::view_predicate_seq(env.caller_bounds@)[i]
                        == env.caller_bounds@[i]@);
                }
            }
            match project_and_unify_type(tables, infcx, &env, cause, depth, &pp) {
                Ok(Ok(Some(os))) => Ok(ProcessResult::Changed(mk_pending(os))),
                Ok(Ok(None)) => {
                    proof {
                        match old(pending)@.obligation.predicate {
                            SpecPredicate::Projection(pq) => {
                                if !crate::predicate::spec_predicate_has_infer(
                                    old(pending)@.obligation.predicate,
                                ) {
                                    crate::infer::lemma_no_infer_seq_resolved(
                                        old(infcx).b(),
                                        pq.projection_ty.substs,
                                    );
                                    assert(crate::infer::spec_resolve_projection_ty(
                                        old(infcx).b(),
                                        pq.projection_ty,
                                    ) =~= pq.projection_ty);
                                }
                            }
                            _ => {}
                        }
                    }
                    let resolved_tr = infcx.resolve_trait_ref(&pp.projection_ty.trait_ref());
                    pending.stalled_on = crate::predicate::trait_ref_infer_vars_of(&resolved_tr);
                    Ok(ProcessResult::Unchanged)
                }
                Ok(Err(InProgress { .. })) => {
                    // Recursive re-entry into the same projection:
                    // re-queue the obligation unchanged, breaking the
                    // recursion without losing it.
                    let mut requeued: Vec<Obligation> = Vec::new();
                    requeued.push(pending.obligation.clone());
                    proof {
                        assert(requeued@[0]@ =~= crate::infer::spec_resolve_obligation(
                            old(infcx).b(),
                            old(pending)@.obligation,
                        ));
                    }
                    Ok(ProcessResult::Changed(mk_pending(requeued)))
                }
                Err(ProjectAndUnifyError::Mismatched(_)) => Ok(
                    ProcessResult::Error(FulfillmentErrorCode::CodeProjectionError),
                ),
                Err(ProjectAndUnifyError::Overflow(e)) => {
                    // Fatal: continuing would not terminate.
                    Err(
                        FulfillmentError {
                            obligation: e.obligation,
                            code: FulfillmentErrorCode::CodeSelectionError(
                                SelectionError::Overflow,
                            ),
                            backtrace: Vec::new(),
                        },
                    )
                }
            }
        }
        Predicate::ObjectSafe(d) => {
            if !tables.lookup_trait_flags(d).object_safe {
                Ok(
                    ProcessResult::Error(
                        FulfillmentErrorCode::CodeSelectionError(SelectionError::Unimplemented),
                    ),
                )
            } else {
                Ok(ProcessResult::Changed(Vec::new()))
            }
        }
        Predicate::ClosureKind(d, kind) => {
            match tables.closure_kind(d) {
                Some(actual) => {
                    if actual.extends(kind) {
                        Ok(ProcessResult::Changed(Vec::new()))
                    } else {
                        Ok(
                            ProcessResult::Error(
                                FulfillmentErrorCode::CodeSelectionError(
                                    SelectionError::Unimplemented,
                                ),
                            ),
                        )
                    }
                }
                None => Ok(ProcessResult::Unchanged),
            }
        }
        Predicate::WellFormed(t) => {
            let resolved = infcx.resolve_ty(&t);
            match resolved {
                Ty::Infer(v) => {
                    // Nothing is known of the type yet.
                    let mut stalled: Vec<u64> = Vec::new();
                    stalled.push(v);
                    pending.stalled_on = stalled;
                    Ok(ProcessResult::Unchanged)
                }
                _ => Ok(ProcessResult::Changed(Vec::new())),
            }
        }
        Predicate::Subtype(a, b) => {
            proof {
                match old(pending)@.obligation.predicate {
                    SpecPredicate::Subtype(sa0, sb0) => {
                        crate::infer::lemma_resolve_idempotent(old(infcx).b(), sa0);
                        crate::infer::lemma_resolve_idempotent(old(infcx).b(), sb0);
                        if !crate::predicate::spec_predicate_has_infer(
                            old(pending)@.obligation.predicate,
                        ) {
                            crate::infer::lemma_no_infer_resolved(old(infcx).b(), sa0);
                            crate::infer::lemma_no_infer_resolved(old(infcx).b(), sb0);
                        }
                    }
                    _ => {}
                }
            }
            let ra = infcx.resolve_ty(&a);
            let rb = infcx.resolve_ty(&b);
            let stall = match (&ra, &rb) {
                (Ty::Infer(va), Ty::Infer(vb)) => Some((*va, *vb)),
                _ => None,
            };
            match stall {
                Some((va, vb)) => {
                    // Both sides unresolved: wait for either.
                    let mut stalled: Vec<u64> = Vec::new();
                    stalled.push(va);
                    stalled.push(vb);
                    pending.stalled_on = stalled;
                    proof {
                        assert(pending.stalled_on@ =~= seq![va, vb]);
                    }
                    Ok(ProcessResult::Unchanged)
                }
                None => {
                    match infcx.unify(&ra, &rb) {
                        Ok(preds) => {
                            let child_depth = if depth < u64::MAX {
                                depth + 1
                            } else {
                                depth
                            };
                            let os = obligations_from(&preds, &env, cause, child_depth);
                            Ok(ProcessResult::Changed(mk_pending(os)))
                        }
                        Err(_) => Ok(
                            ProcessResult::Error(FulfillmentErrorCode::CodeSubtypeError(ra, rb)),
                        ),
                    }
                }
            }
        }
        Predicate::ConstEvaluatable(d) => {
            match tables.const_eval(d) {
                ConstEvalResult::Value(_) => Ok(ProcessResult::Changed(Vec::new())),
                ConstEvalResult::TooGeneric => Ok(ProcessResult::Unchanged),
                ConstEvalResult::Reported => Ok(
                    ProcessResult::Error(
                        FulfillmentErrorCode::CodeSelectionError(
                            SelectionError::ConstEvalFailure,
                        ),
                    ),
                ),
            }
        }
        Predicate::ConstEquate(c1, c2) => {
            let e1 = eval_const(tables, c1);
            let e2 = eval_const(tables, c2);
            match (e1, e2) {
                (ConstEvalResult::Reported, _) => Ok(
                    ProcessResult::Error(
                        FulfillmentErrorCode::CodeSelectionError(
                            SelectionError::ConstEvalFailure,
                        ),
                    ),
                ),
                (_, ConstEvalResult::Reported) => Ok(
                    ProcessResult::Error(
                        FulfillmentErrorCode::CodeSelectionError(
                            SelectionError::ConstEvalFailure,
                        ),
                    ),
                ),
                (ConstEvalResult::TooGeneric, _) => Ok(ProcessResult::Unchanged),
                (_, ConstEvalResult::TooGeneric) => Ok(ProcessResult::Unchanged),
                (ConstEvalResult::Value(v1), ConstEvalResult::Value(v2)) => {
                    if v1 == v2 {
                        Ok(ProcessResult::Changed(Vec::new()))
                    } else {
                        Ok(
                            ProcessResult::Error(
                                FulfillmentErrorCode::CodeConstEquateError(
                                    Const::Value(v1),
                                    Const::Value(v2),
                                ),
                            ),
                        )
                    }
                }
            }
        }
    }
}

/// Evaluates a constant through the const-evaluation capability.
fn eval_const(tables: &Tables, c: Const) -> (r: ConstEvalResult)
    ensures
        r == (match c {
            Const::Value(v) => ConstEvalResult::Value(v),
            Const::Unevaluated(d) => tables.spec_const_eval(d),
        }),
{
    match c {
        Const::Value(v) => ConstEvalResult::Value(v),
        Const::Unevaluated(d) => tables.const_eval(d),
    }
}

/// The fulfillment context: the obligations registered so far, whether
/// region obligations are recorded on the inference context, and whether
/// the context may be used inside an inference snapshot.
#[derive(Debug)]
pub struct FulfillmentContext {
    pub predicates: ObligationForest,
    pub register_region_obligations: bool,
    pub usable_in_snapshot: bool,
}

impl FulfillmentContext {
    /// The forest is well formed, and a finalized node never waits on an
    /// unfinalized one.
    pub open spec fn wf(&self) -> bool {
        &&& self.predicates.wf()
        &&& self.predicates.done_closed()
    }

    /// A fresh fulfillment context.
    pub fn new() -> (r: FulfillmentContext)
        ensures
            r.wf(),
            r.predicates.nodes@.len() == 0,
            r.register_region_obligations == true,
            r.usable_in_snapshot == false,
    {
        FulfillmentContext {
            predicates: ObligationForest::new(),
            register_region_obligations: true,
            usable_in_snapshot: false,
        }
    }

    /// A context usable inside an inference snapshot.
    pub fn new_in_snapshot() -> (r: FulfillmentContext)
        ensures
            r.wf(),
            r.predicates.nodes@.len() == 0,
            r.register_region_obligations == true,
            r.usable_in_snapshot == true,
    {
        FulfillmentContext {
            predicates: ObligationForest::new(),
            register_region_obligations: true,
            usable_in_snapshot: true,
        }
    }

    /// A context that does not record region obligations, for callers
    /// that already know the regions hold.
    pub fn new_ignoring_regions() -> (r: FulfillmentContext)
        ensures
            r.wf(),
            r.predicates.nodes@.len() == 0,
            r.register_region_obligations == false,
            r.usable_in_snapshot == false,
    {
        FulfillmentContext {
            predicates: ObligationForest::new(),
            register_region_obligations: false,
            usable_in_snapshot: false,
        }
    }

    /// Registers one obligation, resolved first so that duplicates are
    /// recognized.
    pub fn register_predicate_obligation(
        &mut self,
        infcx: &InferCtxt,
        obligation: Obligation,
    )
        requires
            old(self).wf(),
        ensures
            final(self).wf(),
            final(self).register_region_obligations == old(self).register_region_obligations,
            final(self).usable_in_snapshot == old(self).usable_in_snapshot,
            final(self).predicates.nodes@.len() >= old(self).predicates.nodes@.len(),
            // The resolved obligation now stands in the forest, under its
            // dedup key.
            exists|i: int|
                0 <= i < final(self).predicates.nodes@.len() && crate::forest::spec_same_key(
                    (#[trigger] final(self).predicates.nodes@[i]).pending@.obligation,
                    crate::infer::spec_resolve_obligation(infcx.b(), obligation@),
                ),
            // A fresh key is appended as a pending root with no stalled
            // variables; a key already registered changes nothing.
            (forall|i: int|
                0 <= i < old(self).predicates.nodes@.len() ==> !crate::forest::spec_same_key(
                    (#[trigger] old(self).predicates.nodes@[i]).pending@.obligation,
                    crate::infer::spec_resolve_obligation(infcx.b(), obligation@),
                )) ==> (final(self).predicates.nodes@.len() == old(self).predicates.nodes@.len()
                + 1 && final(self).predicates.nodes@.drop_last() == old(self).predicates.nodes@
                && final(self).predicates.nodes@.last().state == NodeState::Pending && final(self).predicates.nodes@.last().parent is None && final(self).predicates.nodes@.last().pending@.obligation
                == crate::infer::spec_resolve_obligation(infcx.b(), obligation@) && final(self).predicates.nodes@.last().pending@.stalled_on.len() == 0),
            (exists|i: int|
                0 <= i < old(self).predicates.nodes@.len() && crate::forest::spec_same_key(
                    (#[trigger] old(self).predicates.nodes@[i]).pending@.obligation,
                    crate::infer::spec_resolve_obligation(infcx.b(), obligation@),
                )) ==> final(self).predicates.nodes@ == old(self).predicates.nodes@,
            // Nodes already registered are untouched either way.
            forall|k: int|
                0 <= k < old(self).predicates.nodes@.len() ==> (#[trigger] final(self).predicates.nodes@[k]) == old(self).predicates.nodes@[k],
    {
        let obligation = infcx.resolve_obligation(&obligation);
        self.predicates.register_obligation(
            PendingPredicateObligation { obligation, stalled_on: Vec::new() },
        );
        proof {
            if self.predicates.nodes@.len() > old(self).predicates.nodes@.len() {
                assert(forall|k: int|
                    0 <= k < old(self).predicates.nodes@.len() ==> (
                    #[trigger] self.predicates.nodes@[k]) == self.predicates.nodes@.drop_last()[k]);
            }
        }
    }

    /// Registers a batch of obligations.
    #[verifier::rlimit(60)]
    pub fn register_predicate_obligations(
        &mut self,
        infcx: &InferCtxt,
        obligations: Vec<Obligation>,
    )
        requires
            old(self).wf(),
        ensures
            final(self).wf(),
            final(self).register_region_obligations == old(self).register_region_obligations,
            final(self).usable_in_snapshot == old(self).usable_in_snapshot,
            // Every obligation of the batch now stands in the forest,
            // resolved, under its dedup key.
            forall|i: int|
                0 <= i < obligations@.len() ==> exists|j: int|
                    0 <= j < final(self).predicates.nodes@.len() && crate::forest::spec_same_key(
                        (#[trigger] final(self).predicates.nodes@[j]).pending@.obligation,
                        crate::infer::spec_resolve_obligation(
                            infcx.b(),
                            (#[trigger] obligations@[i])@,
                        ),
                    ),
    {
        let n = obligations.len();
        for i in 0..n
            invariant
                n == obligations@.len(),
                self.wf(),
                self.register_region_obligations == old(self).register_region_obligations,
                self.usable_in_snapshot == old(self).usable_in_snapshot,
                forall|k: int|
                    0 <= k < i ==> exists|j: int|
                        0 <= j < self.predicates.nodes@.len() && crate::forest::spec_same_key(
                            (#[trigger] self.predicates.nodes@[j]).pending@.obligation,
                            crate::infer::spec_resolve_obligation(
                                infcx.b(),
                                (#[trigger] obligations@[k])@,
                            ),
                        ),
        {
            self.register_predicate_obligation(infcx, obligations[i].clone());
        }
    }

    /// Normalizes one projection, registering the incurred obligations
    /// with this context; if normalization bottoms out in ambiguity, the
    /// returned type is a fresh variable constrained by a deferred
    /// obligation.
    pub fn normalize_projection_type(
        &mut self,
        tables: &Tables,
        infcx: &mut InferCtxt,
        env: &ParamEnv,
        projection_ty: &ProjectionTy,
        cause: u64,
    ) -> (r: Result<Ty, OverflowError>)
        requires
            old(self).wf(),
            old(infcx).wf(),
        ensures
            final(self).wf(),
            final(infcx).wf(),
            ({
                let key = crate::infer::spec_resolve_projection_ty(
                    old(infcx).b(),
                    projection_ty@,
                );
                let c = old(infcx).cache@;
                // A cached ambiguity or in-progress entry yields a fresh
                // placeholder; a cached value is returned as is.
                &&& ((c.contains_key(key) && (c[key] is Ambiguous || c[key] is InProgress))
                    ==> (r matches Ok(t) && t@ == SpecTy::Infer(old(infcx).b().len() as u64)))
                &&& ((c.contains_key(key) && c[key] is NormalizedTy) ==> (r matches Ok(t) && t@
                    == crate::project::entry_value(c[key])))
                // The deferred `projection == placeholder` obligation is
                // registered with this context, to be retried later.
                &&& ((c.contains_key(key) && (c[key] is Ambiguous || c[key] is InProgress))
                    ==> exists|j: int|
                    0 <= j < final(self).predicates.nodes@.len() && crate::forest::spec_same_key(
                        (#[trigger] final(self).predicates.nodes@[j]).pending@.obligation,
                        crate::infer::spec_resolve_obligation(
                            final(infcx).b(),
                            (crate::predicate::SpecObligation {
                                cause,
                                param_env: env@,
                                recursion_depth: 1,
                                predicate: SpecPredicate::Projection(
                                    crate::predicate::SpecProjectionPredicate {
                                        projection_ty: projection_ty@,
                                        ty: SpecTy::Infer(old(infcx).b().len() as u64),
                                    },
                                ),
                            }),
                        ),
                    ))
            }),
    {
        let mut obligations: Vec<Obligation> = Vec::new();
        let normalized = crate::project::normalize_projection_type(
            tables,
            infcx,
            env,
            projection_ty,
            cause,
            0,
            &mut obligations,
        )?;
        self.register_predicate_obligations(infcx, obligations);
        Ok(normalized)
    }

    /// Runs forest passes until one makes no progress, collecting errors;
    /// a fatal overflow or a non-co-inductive cycle returns immediately.
    fn select(
        &mut self,
        tables: &Tables,
        infcx: &mut InferCtxt,
    ) -> (r: Result<(), Vec<FulfillmentError>>)
        requires
            old(self).wf(),
            old(infcx).wf(),
        ensures
            final(self).wf(),
            final(infcx).wf(),
            final(self).register_region_obligations == old(self).register_region_obligations,
            r matches Err(errs) ==> errs@.len() > 0,
            // A run reports processing failures and fatal cycles, never
            // ambiguity; a reported cycle is genuinely non-co-inductive.
            r matches Err(errs) ==> forall|i: int|
                0 <= i < errs@.len() ==> !((#[trigger] errs@[i]).code is CodeAmbiguity),
            r matches Err(errs) ==> forall|i: int|
                0 <= i < errs@.len() ==> ((#[trigger] errs@[i]).code matches
                FulfillmentErrorCode::CodeCycle(chain) ==> !crate::select::spec_coinductive(
                    tables,
                    chain@,
                )),
    {
        let mut errors: Vec<FulfillmentError> = Vec::new();
        let mut pass: usize = 0;
        while pass < MAX_PASSES
            invariant
                self.wf(),
                infcx.wf(),
                self.register_region_obligations == old(self).register_region_obligations,
                forall|k: int| 0 <= k < errors@.len() ==> !((#[trigger] errors@[k]).code
                    is CodeAmbiguity),
                forall|k: int| 0 <= k < errors@.len() ==> ((#[trigger] errors@[k]).code matches
                FulfillmentErrorCode::CodeCycle(chain) ==> !crate::select::spec_coinductive(
                    tables,
                    chain@,
                )),
            decreases MAX_PASSES - pass,
        {
            let n0 = self.predicates.nodes.len();
            let mut made_progress = false;
            for i in 0..n0
                invariant
                    self.wf(),
                    infcx.wf(),
                    self.register_region_obligations == old(self).register_region_obligations,
                    n0 <= self.predicates.nodes@.len(),
                    forall|k: int| 0 <= k < errors@.len() ==> !((#[trigger] errors@[k]).code
                        is CodeAmbiguity),
                    forall|k: int| 0 <= k < errors@.len() ==> ((#[trigger] errors@[k]).code matches
                    FulfillmentErrorCode::CodeCycle(chain) ==> !crate::select::spec_coinductive(
                        tables,
                        chain@,
                    )),
            {
                let is_pending = match self.predicates.nodes[i].state {
                    NodeState::Pending => true,
                    _ => false,
                };
                if is_pending {
                    let mut pending = self.predicates.nodes[i].pending.clone();
                    let outcome = process_obligation(
                        tables,
                        infcx,
                        &mut pending,
                        self.register_region_obligations,
                    );
                    self.predicates.nodes[i].pending = pending;
                    match outcome {
                        Err(fatal) => {
                            // Escalated immediately, not merely queued.
                            let mut fatal_errors: Vec<FulfillmentError> = Vec::new();
                            fatal_errors.push(fatal);
                            return Err(fatal_errors);
                        }
                        Ok(ProcessResult::Unchanged) => {}
                        Ok(ProcessResult::Changed(children)) => {
                            made_progress = true;
                            self.predicates.nodes[i].state = NodeState::Success;
                            let m = children.len();
                            for c in 0..m
                                invariant
                                    m == children@.len(),
                                    self.wf(),
                                    infcx.wf(),
                                    self.register_region_obligations == old(self).register_region_obligations,
                                    i < self.predicates.nodes@.len(),
                                    n0 <= self.predicates.nodes@.len(),
                                    self.predicates.nodes@[i as int].state == NodeState::Success,
                                    forall|k: int| 0 <= k < errors@.len() ==> !((
                                    #[trigger] errors@[k]).code is CodeAmbiguity),
                                    forall|k: int| 0 <= k < errors@.len() ==> ((
                                    #[trigger] errors@[k]).code matches
                                    FulfillmentErrorCode::CodeCycle(chain)
                                        ==> !crate::select::spec_coinductive(tables, chain@)),
                            {
                                let child = children[c].obligation.clone();
                                match self.predicates.register_child(i, child) {
                                    RegisterChild::Awaited => {}
                                    RegisterChild::AlreadyDone => {}
                                    RegisterChild::Cycle(chain) => {
                                        if coinductive_match(tables, &chain) {
                                            // A legitimate circular proof:
                                            // the child holds trivially.
                                        } else {
                                            // A genuine infinite
                                            // recursion: fatal.
                                            let cobl = if chain.len() > 0 {
                                                chain[0].clone()
                                            } else {
                                                self.predicates.nodes[i].pending.obligation.clone()
                                            };
                                            let mut fatal_errors: Vec<FulfillmentError> =
                                                Vec::new();
                                            fatal_errors.push(
                                                FulfillmentError {
                                                    obligation: cobl,
                                                    code: FulfillmentErrorCode::CodeCycle(chain),
                                                    backtrace: Vec::new(),
                                                },
                                            );
                                            return Err(fatal_errors);
                                        }
                                    }
                                }
                            }
                        }
                        Ok(ProcessResult::Error(code)) => {
                            made_progress = true;
                            let backtrace = self.predicates.backtrace(i);
                            self.predicates.nodes[i].state = NodeState::Error;
                            errors.push(
                                FulfillmentError {
                                    obligation: backtrace[0].clone(),
                                    code,
                                    backtrace,
                                },
                            );
                        }
                    }
                }
            }
            self.predicates.propagate();
            if !made_progress {
                break;
            }
            pass = pass + 1;
        }
        if pass == MAX_PASSES {
            // Never stalled within the pass bound: a pathological input.
            // Continuing might not terminate, so escalate the first
            // obligation still pending as a fatal overflow.
            let n = self.predicates.nodes.len();
            for i in 0..n
                invariant
                    self.wf(),
                    n == self.predicates.nodes@.len(),
            {
                let is_pending = match self.predicates.nodes[i].state {
                    NodeState::Pending => true,
                    _ => false,
                };
                if is_pending {
                    let backtrace = self.predicates.backtrace(i);
                    let mut fatal_errors: Vec<FulfillmentError> = Vec::new();
                    fatal_errors.push(
                        FulfillmentError {
                            obligation: self.predicates.nodes[i].pending.obligation.clone(),
                            code: FulfillmentErrorCode::CodeSelectionError(
                                SelectionError::Overflow,
                            ),
                            backtrace,
                        },
                    );
                    return Err(fatal_errors);
                }
            }
        }
        if errors.len() == 0 {
            Ok(())
        } else {
            Err(errors)
        }
    }

    /// Attempts to resolve the registered obligations, retaining only
    /// those that remain ambiguous; helpful to push inference along.
    pub fn select_where_possible(
        &mut self,
        tables: &Tables,
        infcx: &mut InferCtxt,
    ) -> (r: Result<(), Vec<FulfillmentError>>)
        requires
            old(self).wf(),
            old(infcx).wf(),
        ensures
            final(self).wf(),
            final(infcx).wf(),
            r matches Err(errs) ==> errs@.len() > 0,
            // A run reports processing failures and fatal cycles, never
            // ambiguity; a reported cycle is genuinely non-co-inductive.
            r matches Err(errs) ==> forall|i: int|
                0 <= i < errs@.len() ==> !((#[trigger] errs@[i]).code is CodeAmbiguity),
            r matches Err(errs) ==> forall|i: int|
                0 <= i < errs@.len() ==> ((#[trigger] errs@[i]).code matches
                FulfillmentErrorCode::CodeCycle(chain) ==> !crate::select::spec_coinductive(
                    tables,
                    chain@,
                )),
    {
        self.select(tables, infcx)
    }

    /// Resolves the registered obligations, then reports every obligation
    /// that never finalized as ambiguous: success means every node ended
    /// done or failed — nothing was left pending or waiting.
    #[verifier::rlimit(60)]
    pub fn select_all_or_error(
        &mut self,
        tables: &Tables,
        infcx: &mut InferCtxt,
    ) -> (r: Result<(), Vec<FulfillmentError>>)
        requires
            old(self).wf(),
            old(infcx).wf(),
        ensures
            final(self).wf(),
            final(infcx).wf(),
            r matches Err(errs) ==> errs@.len() > 0,
            r matches Ok(u) ==> forall|j: int|
                0 <= j < final(self).predicates.nodes@.len() ==> ((
                #[trigger] final(self).predicates.nodes@[j]).state == NodeState::Done || final(self).predicates.nodes@[j].state == NodeState::Error),
            r matches Ok(u) ==> !final(self).predicates.has_pending(),
            final(self).predicates.done_closed(),
            // A reported cycle is genuinely non-co-inductive, and every
            // ambiguity error names an obligation whose node was left
            // unfinalized.
            r matches Err(errs) ==> forall|i: int|
                0 <= i < errs@.len() ==> ((#[trigger] errs@[i]).code matches
                FulfillmentErrorCode::CodeCycle(chain) ==> !crate::select::spec_coinductive(
                    tables,
                    chain@,
                )),
            r matches Err(errs) ==> forall|i: int|
                0 <= i < errs@.len() ==> ((#[trigger] errs@[i]).code is CodeAmbiguity
                    ==> exists|j: int|
                    0 <= j < final(self).predicates.nodes@.len() && ((#[trigger] final(self).predicates.nodes@[j]).state == NodeState::Pending || final(self).predicates.nodes@[j].state == NodeState::Success) && errs@[i].obligation@
                        == final(self).predicates.nodes@[j].pending@.obligation),
            // The ambiguity batch is exact: one error per unresolved node,
            // in node order, and nothing else in it.
            r matches Err(errs) ==> ((exists|k: int|
                0 <= k < errs@.len() && (#[trigger] errs@[k]).code is CodeAmbiguity) ==> (
            errs@.len() == ObligationForest::spec_unresolved_obligations(
                final(self).predicates.nodes@,
            ).len() && forall|k: int|
                0 <= k < errs@.len() ==> (#[trigger] errs@[k]).code is CodeAmbiguity
                    && errs@[k].obligation@ == ObligationForest::spec_unresolved_obligations(
                    final(self).predicates.nodes@,
                )[k])),
    {
        match self.select(tables, infcx) {
            Err(errs) => {
                return Err(errs);
            }
            Ok(()) => {}
        }
        let mut ambiguous: Vec<FulfillmentError> = Vec::new();
        let n = self.predicates.nodes.len();
        for i in 0..n
            invariant
                n == self.predicates.nodes@.len(),
                self.wf(),
                ambiguous@.len() == 0 ==> forall|j: int| 0 <= j < i ==> ((
                #[trigger] self.predicates.nodes@[j]).state == NodeState::Done
                    || self.predicates.nodes@[j].state == NodeState::Error),
                forall|k: int| 0 <= k < ambiguous@.len() ==> (#[trigger] ambiguous@[k]).code
                    is CodeAmbiguity,
                forall|k: int| 0 <= k < ambiguous@.len() ==> exists|j: int|
                    0 <= j < self.predicates.nodes@.len() && ((
                    #[trigger] self.predicates.nodes@[j]).state == NodeState::Pending
                        || self.predicates.nodes@[j].state == NodeState::Success) && (
                    #[trigger] ambiguous@[k]).obligation@
                        == self.predicates.nodes@[j].pending@.obligation,
                ambiguous@.len() == ObligationForest::spec_unresolved_obligations(
                    self.predicates.nodes@.take(i as int),
                ).len(),
                forall|k: int| 0 <= k < ambiguous@.len() ==> (#[trigger] ambiguous@[k]).obligation@
                    == ObligationForest::spec_unresolved_obligations(
                    self.predicates.nodes@.take(i as int),
                )[k],
        {
            let ghost prefix = self.predicates.nodes@.take(i as int);
            proof {
                assert(self.predicates.nodes@.take(i + 1).drop_last() =~= prefix);
                assert(self.predicates.nodes@.take(i + 1).last()
                    == self.predicates.nodes@[i as int]);
            }
            // A node still pending, or succeeded but forever waiting on
            // an unfinished node (as in a wait cycle through a shared
            // obligation), never resolved.
            let unresolved = match self.predicates.nodes[i].state {
                NodeState::Pending => true,
                NodeState::Success => true,
                NodeState::Done => false,
                NodeState::Error => false,
            };
            if unresolved {
                let backtrace = self.predicates.backtrace(i);
                ambiguous.push(
                    FulfillmentError {
                        obligation: self.predicates.nodes[i].pending.obligation.clone(),
                        code: FulfillmentErrorCode::CodeAmbiguity,
                        backtrace,
                    },
                );
            }
        }
        proof {
            assert(self.predicates.nodes@.take(n as int) =~= self.predicates.nodes@);
        }
        if ambiguous.len() == 0 {
            Ok(())
        } else {
            Err(ambiguous)
        }
    }

    /// A snapshot of the obligations still pending: every pending node's
    /// obligation, in deterministic node order.
    pub fn pending_obligations(&self) -> (r: Vec<Obligation>)
        ensures
            crate::predicate::view_obligation_seq(r@)
                == ObligationForest::spec_pending_obligations(self.predicates.nodes@),
    {
        self.predicates.pending_obligations()
    }
}

} // verus!
