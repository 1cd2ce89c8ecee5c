//! Projecting associated types out of trait references: candidate
//! assembly and confirmation, the memoizing normalization entry points,
//! and the structural normalizer.
//!
//! Candidates come from three sources, in fixed priority order: ambient
//! caller bounds, bounds on the trait definition itself, and impl
//! selection. An ambient-bound candidate strictly dominates impl-derived
//! candidates; conflicting candidates collapse to ambiguity.

use vstd::prelude::*;

use crate::cache::{NormalizedTy, ProjectionCacheEntry, SpecCacheEntry};
use crate::infer::{
    spec_resolve_projection_ty, store_wf, view_bindings, InferCtxt, TypeMismatch,
};
use crate::predicate::{
    clone_obligations, clone_predicates, lemma_view_obligation_seq_index,
    lemma_view_obligation_seq_len, view_obligation_seq, Obligation, ParamEnv, Predicate,
    ProjectionPredicate, ProjectionTy, Reveal, SpecObligation, SpecParamEnv, SpecPredicate,
    SpecProjectionPredicate, SpecProjectionTy, TraitRef,
};
use crate::select::{
    obligations_from, select, unify_trait_refs, ImplSource, ImplSourceUserDefinedData,
    SelectionError, RECURSION_LIMIT,
};
use crate::tables::Tables;
use crate::ty::{
    clone_tys, sty_size, ty_has_error, ty_has_infer, ty_has_param, ty_has_projections, ty_subst,
    tys_have_error, view_ty_seq, SpecTy, Ty,
};

verus! {

/// Why a projection could not be resolved to a single candidate.
#[derive(Debug)]
pub enum ProjectionTyError {
    /// Multiple conflicting sources of information.
    TooManyCandidates,
    /// An error occurred selecting the underlying trait bound.
    TraitSelectionError(SelectionError),
}

/// The projection is already being normalized further up the stack; the
/// caller must fall back to treating it as equal to itself.
#[derive(Debug)]
pub struct InProgress {}

/// Normalization failed to unify the projected type with the expected
/// type.
#[derive(Debug)]
pub struct MismatchedProjectionTypes {}

/// The normalizer exceeded the recursion-depth bound while unfolding a
/// self-referential opaque type; escalated immediately as fatal.
#[derive(Debug)]
pub struct OverflowError {
    pub obligation: Obligation,
}

/// The view of a candidate; what a selected impl source carries is not
/// part of the candidate's identity.
pub enum SpecCandidate {
    ParamEnv(SpecProjectionPredicate),
    TraitDef(SpecProjectionPredicate),
    Select(crate::select::SpecImplSource),
}

/// One way to resolve a projection.
#[derive(Debug)]
pub enum ProjectionTyCandidate {
    /// From a where-clause in the environment or an object type.
    ParamEnv(ProjectionPredicate),
    /// From a bound on the trait definition itself.
    TraitDef(ProjectionPredicate),
    /// From impl selection.
    Select(ImplSource),
}

pub open spec fn view_candidate(c: ProjectionTyCandidate) -> SpecCandidate {
    match c {
        ProjectionTyCandidate::ParamEnv(p) => SpecCandidate::ParamEnv(p@),
        ProjectionTyCandidate::TraitDef(p) => SpecCandidate::TraitDef(p@),
        ProjectionTyCandidate::Select(src) => SpecCandidate::Select(src@),
    }
}

impl View for ProjectionTyCandidate {
    type V = SpecCandidate;

    open spec fn view(&self) -> SpecCandidate {
        view_candidate(*self)
    }
}

/// Candidate identity, for deduplication: a duplicate candidate of any
/// kind is the same candidate.
pub open spec fn spec_candidate_eq(a: SpecCandidate, b: SpecCandidate) -> bool {
    match (a, b) {
        (SpecCandidate::ParamEnv(x), SpecCandidate::ParamEnv(y)) => x == y,
        (SpecCandidate::TraitDef(x), SpecCandidate::TraitDef(y)) => x == y,
        (SpecCandidate::Select(x), SpecCandidate::Select(y)) => x == y,
        _ => false,
    }
}

fn candidate_eq(a: &ProjectionTyCandidate, b: &ProjectionTyCandidate) -> (r: bool)
    ensures
        r == spec_candidate_eq(a@, b@),
{
    match (a, b) {
        (ProjectionTyCandidate::ParamEnv(x), ProjectionTyCandidate::ParamEnv(y)) => {
            let r = crate::predicate::projection_ty_eq(&x.projection_ty, &y.projection_ty)
                && crate::ty::ty_eq(&x.ty, &y.ty);
            proof {
                if x@.projection_ty == y@.projection_ty && x@.ty == y@.ty {
                    assert(x@ =~= y@);
                }
            }
            r
        }
        (ProjectionTyCandidate::TraitDef(x), ProjectionTyCandidate::TraitDef(y)) => {
            let r = crate::predicate::projection_ty_eq(&x.projection_ty, &y.projection_ty)
                && crate::ty::ty_eq(&x.ty, &y.ty);
            proof {
                if x@.projection_ty == y@.projection_ty && x@.ty == y@.ty {
                    assert(x@ =~= y@);
                }
            }
            r
        }
        (ProjectionTyCandidate::Select(x), ProjectionTyCandidate::Select(y)) => {
            crate::select::impl_source_eq(x, y)
        }
        _ => false,
    }
}

/// The view of the candidate accumulator.
pub enum SpecCandidateSet {
    NoCandidate,
    Single(SpecCandidate),
    Ambiguous,
    Error(SelectionError),
}

/// A monotone candidate accumulator: candidates are pushed one at a time;
/// a second distinct candidate flips the set to ambiguous unless the
/// priority rule applies.
#[derive(Debug)]
pub enum ProjectionTyCandidateSet {
    NoCandidate,
    Single(ProjectionTyCandidate),
    Ambiguous,
    Error(SelectionError),
}

pub open spec fn view_candidate_set(s: ProjectionTyCandidateSet) -> SpecCandidateSet {
    match s {
        ProjectionTyCandidateSet::NoCandidate => SpecCandidateSet::NoCandidate,
        ProjectionTyCandidateSet::Single(c) => SpecCandidateSet::Single(view_candidate(c)),
        ProjectionTyCandidateSet::Ambiguous => SpecCandidateSet::Ambiguous,
        ProjectionTyCandidateSet::Error(e) => SpecCandidateSet::Error(e),
    }
}

impl View for ProjectionTyCandidateSet {
    type V = SpecCandidateSet;

    open spec fn view(&self) -> SpecCandidateSet {
        view_candidate_set(*self)
    }
}

/// What pushing a candidate does: the new set, and whether the candidate
/// was kept. A duplicate is silently dropped; an ambient-bound candidate
/// strictly dominates any other kind; two distinct candidates of equal
/// standing collapse the set to ambiguous; an ambiguous or failed set
/// absorbs everything.
pub open spec fn spec_push_candidate(
    s: SpecCandidateSet,
    c: SpecCandidate,
) -> (SpecCandidateSet, bool) {
    match s {
        SpecCandidateSet::NoCandidate => (SpecCandidateSet::Single(c), true),
        SpecCandidateSet::Single(cur) => {
            if spec_candidate_eq(cur, c) {
                (SpecCandidateSet::Single(cur), false)
            } else {
                match (cur, c) {
                    (SpecCandidate::ParamEnv(_), SpecCandidate::ParamEnv(_)) => (
                        SpecCandidateSet::Ambiguous,
                        false,
                    ),
                    (SpecCandidate::ParamEnv(_), _) => (SpecCandidateSet::Single(cur), false),
                    (_, SpecCandidate::ParamEnv(_)) => (SpecCandidateSet::Single(c), true),
                    (_, _) => (SpecCandidateSet::Ambiguous, false),
                }
            }
        }
        SpecCandidateSet::Ambiguous => (SpecCandidateSet::Ambiguous, false),
        SpecCandidateSet::Error(e) => (SpecCandidateSet::Error(e), false),
    }
}

impl ProjectionTyCandidateSet {
    /// Pushes one candidate, enforcing deduplication and the priority
    /// rule; reports whether the candidate was kept.
    pub fn push_candidate(&mut self, candidate: ProjectionTyCandidate) -> (r: bool)
        ensures
            (final(self)@, r) == spec_push_candidate(old(self)@, candidate@),
    {
        match self {
            ProjectionTyCandidateSet::NoCandidate => {
                *self = ProjectionTyCandidateSet::Single(candidate);
                true
            }
            ProjectionTyCandidateSet::Single(current) => {
                if candidate_eq(current, &candidate) {
                    false
                } else {
                    let current_is_env = match current {
                        ProjectionTyCandidate::ParamEnv(_) => true,
                        _ => false,
                    };
                    let candidate_is_env = match &candidate {
                        ProjectionTyCandidate::ParamEnv(_) => true,
                        _ => false,
                    };
                    if current_is_env && candidate_is_env {
                        *self = ProjectionTyCandidateSet::Ambiguous;
                        false
                    } else if current_is_env {
                        false
                    } else if candidate_is_env {
                        *self = ProjectionTyCandidateSet::Single(candidate);
                        true
                    } else {
                        *self = ProjectionTyCandidateSet::Ambiguous;
                        false
                    }
                }
            }
            ProjectionTyCandidateSet::Ambiguous => false,
            ProjectionTyCandidateSet::Error(_) => false,
        }
    }

    /// Collapses the set: conflicting information was discovered.
    pub fn mark_ambiguous(&mut self)
        ensures
            final(self)@ == SpecCandidateSet::Ambiguous,
    {
        *self = ProjectionTyCandidateSet::Ambiguous;
    }

    /// Records a selection failure.
    pub fn mark_error(&mut self, err: SelectionError)
        ensures
            final(self)@ == SpecCandidateSet::Error(err),
    {
        *self = ProjectionTyCandidateSet::Error(err);
    }
}

/// The outcome of computing one projection.
#[derive(Debug)]
pub enum ProjectedTy {
    /// A candidate produced a (possibly still unnormalized) type.
    Progress(Progress),
    /// No candidate defines this projection yet, commonly because the
    /// self type is not resolved enough; distinct from ambiguity and
    /// from selection failure.
    NoProgress(Ty),
}

/// A projected type together with the obligations it incurred.
#[derive(Debug)]
pub struct Progress {
    pub ty: Ty,
    pub obligations: Vec<Obligation>,
}

impl Progress {
    /// The propagated-failure result.
    pub fn error() -> (r: Progress)
        ensures
            r.ty@ == SpecTy::Error,
            r.obligations@.len() == 0,
    {
        Progress { ty: Ty::Error, obligations: Vec::new() }
    }

    /// Appends further obligations to the result.
    pub fn with_addl_obligations(self, obligations: Vec<Obligation>) -> (r: Progress)
        ensures
            r.ty == self.ty,
            r.obligations@ == self.obligations@ + obligations@,
    {
        let mut s = self;
        let mut obligations = obligations;
        s.obligations.append(&mut obligations);
        s
    }
}

/// Whether a predicate is a projection bound for the given associated
/// item: the only kind of bound the scan can turn into a candidate.
pub open spec fn spec_scans_item(p: SpecPredicate, item_id: u64) -> bool {
    match p {
        SpecPredicate::Projection(pp) => pp.projection_ty.item_id == item_id,
        _ => false,
    }
}

/// Scans a list of predicates for projection bounds on the same
/// associated item whose trait reference can unify with the obligation's,
/// pushing each match as a candidate of the given kind. Matching is
/// probed only; nothing is committed. A list without a projection bound
/// for the item contributes nothing.
fn assemble_candidates_from_predicates(
    infcx: &mut InferCtxt,
    projection: &ProjectionTy,
    env_source: bool,
    bounds: &Vec<Predicate>,
    candidate_set: &mut ProjectionTyCandidateSet,
)
    requires
        old(infcx).wf(),
    ensures
        final(infcx).wf(),
        final(infcx).b() == old(infcx).b(),
        final(infcx).cache == old(infcx).cache,
        final(infcx).region_obligations == old(infcx).region_obligations,
        final(infcx).assembly_count == old(infcx).assembly_count,
        (forall|i: int|
            0 <= i < bounds@.len() ==> !spec_scans_item(
                (#[trigger] bounds@[i])@,
                projection@.item_id,
            )) ==> *final(candidate_set) == *old(candidate_set),
{
    let obligation_trait_ref = projection.trait_ref();
    let n = bounds.len();
    for i in 0..n
        invariant
            n == bounds@.len(),
            infcx.wf(),
            infcx.b() == old(infcx).b(),
            infcx.cache == old(infcx).cache,
            infcx.region_obligations == old(infcx).region_obligations,
            infcx.assembly_count == old(infcx).assembly_count,
            (forall|k: int|
                0 <= k < bounds@.len() ==> !spec_scans_item(
                    (#[trigger] bounds@[k])@,
                    projection@.item_id,
                )) ==> *candidate_set == *old(candidate_set),
    {
        match &bounds[i] {
            Predicate::Projection(data) => {
                if data.projection_ty.item_id == projection.item_id {
                    let snap = infcx.snapshot();
                    proof {
                        assert(store_wf(view_bindings(snap@)));
                    }
                    let data_trait_ref = data.projection_ty.trait_ref();
                    let is_match = match unify_trait_refs(
                        infcx,
                        &obligation_trait_ref,
                        &data_trait_ref,
                    ) {
                        Ok(_) => true,
                        Err(_) => false,
                    };
                    infcx.rollback(snap);
                    if is_match {
                        let c = if env_source {
                            ProjectionTyCandidate::ParamEnv(data.clone())
                        } else {
                            ProjectionTyCandidate::TraitDef(data.clone())
                        };
                        candidate_set.push_candidate(c);
                    }
                }
            }
            _ => {}
        }
    }
}

/// The first candidate source: projection bounds among the ambient
/// caller bounds. An environment without a projection bound for the item
/// contributes nothing.
fn assemble_candidates_from_param_env(
    infcx: &mut InferCtxt,
    env: &ParamEnv,
    projection: &ProjectionTy,
    candidate_set: &mut ProjectionTyCandidateSet,
)
    requires
        old(infcx).wf(),
    ensures
        final(infcx).wf(),
        final(infcx).b() == old(infcx).b(),
        final(infcx).cache == old(infcx).cache,
        final(infcx).region_obligations == old(infcx).region_obligations,
        final(infcx).assembly_count == old(infcx).assembly_count,
        (forall|i: int|
            0 <= i < env.caller_bounds@.len() ==> !spec_scans_item(
                (#[trigger] env.caller_bounds@[i])@,
                projection@.item_id,
            )) ==> *final(candidate_set) == *old(candidate_set),
{
    let bounds = clone_predicates(&env.caller_bounds);
    proof {
        broadcast use {
            crate::predicate::lemma_view_predicate_seq_len,
            crate::predicate::lemma_view_predicate_seq_index,
        };

        assert forall|i: int| 0 <= i < bounds@.len() implies (#[trigger] bounds@[i])@
            == env.caller_bounds@[i]@ by {
            assert(crate::predicate::view_predicate_seq(bounds@)[i]
                == crate::predicate::view_predicate_seq(env.caller_bounds@)[i]);
        }
    }
    assemble_candidates_from_predicates(infcx, projection, true, &bounds, candidate_set);
}

/// The second candidate source: when the self type is itself a projection
/// or an opaque type, the bounds declared on its defining item propagate
/// known associated-type bounds transitively. An unresolved self type
/// induces ambiguity outright.
fn assemble_candidates_from_trait_def(
    tables: &Tables,
    infcx: &mut InferCtxt,
    projection: &ProjectionTy,
    candidate_set: &mut ProjectionTyCandidateSet,
)
    requires
        old(infcx).wf(),
    ensures
        final(infcx).wf(),
        final(infcx).b() == old(infcx).b(),
        final(infcx).cache == old(infcx).cache,
        final(infcx).region_obligations == old(infcx).region_obligations,
        final(infcx).assembly_count == old(infcx).assembly_count,
        // Only a projection or opaque self type contributes trait-bound
        // candidates; anything else — an unresolved variable included —
        // leaves the set alone.
        projection.substs@.len() == 0 ==> *final(candidate_set) == *old(candidate_set),
        projection.substs@.len() > 0 ==> (match projection@.substs[0] {
            SpecTy::Projection(pt, pi, pa) => true,
            SpecTy::Opaque(od, oa) => true,
            _ => *final(candidate_set) == *old(candidate_set),
        }),
{
    broadcast use {crate::ty::lemma_view_ty_seq_len, crate::ty::lemma_view_ty_seq_index};

    if projection.substs.len() == 0 {
        return;
    }
    let (def_id, args) = match &projection.substs[0] {
        Ty::Projection(_, item, args) => (*item, clone_tys(args)),
        Ty::Opaque(def, args) => (*def, clone_tys(args)),
        Ty::Infer(_) => {
            // An unresolved self type defines nothing yet: no candidate,
            // so the projection comes back unchanged rather than
            // ambiguous.
            return;
        }
        _ => {
            return;
        }
    };
    match tables.lookup_item_bounds(def_id) {
        Some(i) => {
            let bounds = crate::select::tys_subst_predicates(&args, &tables.item_bounds[i].1);
            assemble_candidates_from_predicates(infcx, projection, false, &bounds, candidate_set);
        }
        None => {}
    }
}

/// The eligibility policy for an impl-derived candidate — authoritative,
/// and deliberately not simpler: a user impl's associated type is
/// projectable when its definition is final (it has a value and is not a
/// specializable default); a specializable default only past type
/// checking (reveal-all) and only once the resolved trait reference has
/// no inference variables or generic parameters left, since a more
/// specialized impl could still override it; the built-in callable,
/// generator and object rules always; the built-in discriminant rule only
/// for a determined self head; a caller bound never — it proves the trait
/// holds but says nothing about the associated type's value.
pub open spec fn spec_impl_eligible(
    tables: &Tables,
    b: Seq<Option<SpecTy>>,
    reveal: Reveal,
    projection: SpecProjectionTy,
    src: crate::select::SpecImplSource,
) -> bool {
    match src {
        crate::select::SpecImplSource::Closure => true,
        crate::select::SpecImplSource::Generator => true,
        crate::select::SpecImplSource::Object => true,
        crate::select::SpecImplSource::Param => false,
        crate::select::SpecImplSource::DiscriminantKind => projection.substs.len() > 0
            && spec_head_determined(crate::infer::spec_resolve(b, projection.substs[0])),
        crate::select::SpecImplSource::UserDefined(idx, _, _) => 0 <= idx < tables.impls@.len()
            && match spec_find_assoc_ty(tables.impls@[idx].assoc_tys@, projection.item_id) {
            Some(a) => {
                let def = tables.impls@[idx].assoc_tys@[a];
                if def.has_value && !def.is_default {
                    true
                } else {
                    match reveal {
                        Reveal::All => !crate::ty::has_infer_seq(
                            crate::infer::spec_resolve_seq(b, projection.substs),
                        ) && !crate::ty::has_param_seq(
                            crate::infer::spec_resolve_seq(b, projection.substs),
                        ),
                        Reveal::UserFacing => false,
                    }
                }
            },
            None => false,
        },
    }
}

/// The view of a selection outcome.
pub open spec fn view_selection(r: Result<Option<ImplSource>, SelectionError>) -> Result<
    Option<crate::select::SpecImplSource>,
    SelectionError,
> {
    match r {
        Ok(Some(s)) => Ok(Some(s@)),
        Ok(None) => Ok(None),
        Err(e) => Err(e),
    }
}

/// What one selection outcome does to the candidate set: a selection
/// failure marks it failed, an undecided selection marks it ambiguous, an
/// eligible source is pushed under the priority rule, and an ineligible
/// one changes nothing. The flag says whether the source was kept — and
/// with it, whether selection's inference effects are to be kept.
pub open spec fn spec_consider_impl_source(
    tables: &Tables,
    b: Seq<Option<SpecTy>>,
    reveal: Reveal,
    projection: SpecProjectionTy,
    s: SpecCandidateSet,
    sel: Result<Option<crate::select::SpecImplSource>, SelectionError>,
) -> (SpecCandidateSet, bool) {
    match sel {
        Err(e) => (SpecCandidateSet::Error(e), false),
        Ok(None) => (SpecCandidateSet::Ambiguous, false),
        Ok(Some(src)) => if spec_impl_eligible(tables, b, reveal, projection, src) {
            spec_push_candidate(s, SpecCandidate::Select(src))
        } else {
            (s, false)
        },
    }
}

/// Applies one selection outcome to the candidate set, deciding
/// eligibility by the authoritative policy; reports whether the source
/// was kept.
fn consider_impl_source(
    tables: &Tables,
    infcx: &InferCtxt,
    env: &ParamEnv,
    projection: &ProjectionTy,
    selection: Result<Option<ImplSource>, SelectionError>,
    candidate_set: &mut ProjectionTyCandidateSet,
) -> (kept: bool)
    requires
        selection matches Ok(Some(ImplSource::UserDefined(d))) ==> d.impl_index
            < tables.impls@.len(),
    ensures
        (final(candidate_set)@, kept) == spec_consider_impl_source(
            tables,
            infcx.b(),
            env.reveal,
            projection@,
            old(candidate_set)@,
            view_selection(selection),
        ),
{
    broadcast use {crate::ty::lemma_view_ty_seq_len, crate::ty::lemma_view_ty_seq_index};

    let impl_source = match selection {
        Ok(Some(src)) => src,
        Ok(None) => {
            candidate_set.mark_ambiguous();
            return false;
        }
        Err(e) => {
            candidate_set.mark_error(e);
            return false;
        }
    };
    let eligible = match &impl_source {
        ImplSource::Closure => true,
        ImplSource::Generator => true,
        ImplSource::Object => true,
        ImplSource::UserDefined(data) => {
            match find_assoc_ty_def(tables, data.impl_index, projection.item_id) {
                Some(a) => {
                    let is_final = tables.impls[data.impl_index].assoc_tys[a].has_value
                        && !tables.impls[data.impl_index].assoc_tys[a].is_default;
                    if is_final {
                        // Non-specializable items are always projectable.
                        true
                    } else {
                        // A specializable default is revealed only past
                        // type checking and only for a fully concrete
                        // trait reference; otherwise it stays ineligible,
                        // yielding ambiguity rather than a wrong answer.
                        match env.reveal {
                            Reveal::All => {
                                let resolved = infcx.resolve_trait_ref(&projection.trait_ref());
                                !tys_have_infer_or_param(&resolved.substs)
                            }
                            Reveal::UserFacing => false,
                        }
                    }
                }
                None => {
                    // Neither the impl nor its trait defines the item:
                    // a definition error reported elsewhere.
                    false
                }
            }
        }
        ImplSource::DiscriminantKind => {
            match infcx.resolve_projection_self(projection) {
                Some(head_determined) => head_determined,
                None => false,
            }
        }
        ImplSource::Param => {
            // A caller bound proves the trait holds but says nothing
            // about the value of an associated type.
            false
        }
    };
    proof {
        assert(eligible == spec_impl_eligible(
            tables,
            infcx.b(),
            env.reveal,
            projection@,
            impl_source@,
        ));
    }
    if eligible {
        candidate_set.push_candidate(ProjectionTyCandidate::Select(impl_source))
    } else {
        false
    }
}

/// The third candidate source: impl selection on the projection's trait
/// bound, its outcome applied to the set by `spec_consider_impl_source`.
/// Unless an impl-derived candidate was kept, every inference effect of
/// the selection attempt is rolled back.
fn assemble_candidates_from_impls(
    tables: &Tables,
    infcx: &mut InferCtxt,
    env: &ParamEnv,
    projection: &ProjectionTy,
    cause: u64,
    depth: u64,
    candidate_set: &mut ProjectionTyCandidateSet,
)
    requires
        old(infcx).wf(),
    ensures
        final(infcx).wf(),
        final(infcx).cache == old(infcx).cache,
        final(infcx).region_obligations == old(infcx).region_obligations,
        final(infcx).assembly_count == old(infcx).assembly_count,
        // An unresolved self type contributes no impl candidate and no
        // ambiguity: the projection makes no progress instead.
        (projection.substs@.len() > 0 && crate::infer::spec_resolve(
            old(infcx).b(),
            projection@.substs[0],
        ) is Infer) ==> (*final(candidate_set) == *old(candidate_set) && *final(infcx) == *old(infcx)),
        // A kept impl-derived candidate leaves the set exactly that
        // single candidate; in every other outcome the inference effects
        // of the selection attempt are rolled back.
        !(final(candidate_set)@ matches SpecCandidateSet::Single(SpecCandidate::Select(_)))
            ==> final(infcx).b() == old(infcx).b(),
{
    broadcast use {crate::ty::lemma_view_ty_seq_len, crate::ty::lemma_view_ty_seq_index};

    if projection.substs.len() > 0 {
        let self_head = infcx.resolve_ty(&projection.substs[0]);
        match self_head {
            Ty::Infer(_) => {
                // Nothing is known of the self type: no impl can be
                // chosen yet, and no candidate means no progress.
                return;
            }
            _ => {}
        }
    }
    let trait_ref = projection.trait_ref();
    let snap = infcx.snapshot();
    proof {
        assert(store_wf(view_bindings(snap@)));
    }
    let selection = select(tables, infcx, env, &trait_ref, cause, depth);
    let kept = consider_impl_source(tables, infcx, env, projection, selection, candidate_set);
    if !kept {
        infcx.rollback(snap);
    } else {
        proof {
            assert(candidate_set@ matches SpecCandidateSet::Single(SpecCandidate::Select(_)));
        }
    }
}

/// Whether any element contains an inference variable or a generic
/// parameter, so the list could still become more specialized.
fn tys_have_infer_or_param(tys: &Vec<Ty>) -> (r: bool)
    ensures
        r == (crate::ty::has_infer_seq(view_ty_seq(tys@)) || crate::ty::has_param_seq(
            view_ty_seq(tys@),
        )),
{
    if crate::ty::tys_have_infer(tys) {
        return true;
    }
    crate::ty::tys_have_param(tys)
}

/// The first definition of `item_id` among an impl's associated types.
pub open spec fn spec_find_assoc_ty(s: Seq<crate::tables::AssocTyDef>, item_id: u64) -> Option<
    int,
>
    decreases s.len(),
{
    if s.len() == 0 {
        None
    } else if s[0].item_id == item_id {
        Some(0)
    } else {
        match spec_find_assoc_ty(s.drop_first(), item_id) {
            Some(i) => Some(i + 1),
            None => None,
        }
    }
}

proof fn lemma_find_assoc_ty_hit(s: Seq<crate::tables::AssocTyDef>, item_id: u64, i: int)
    requires
        0 <= i < s.len(),
        s[i].item_id == item_id,
        forall|j: int| 0 <= j < i ==> s[j].item_id != item_id,
    ensures
        spec_find_assoc_ty(s, item_id) == Some(i),
    decreases s.len(),
{
    if i > 0 {
        lemma_find_assoc_ty_hit(s.drop_first(), item_id, i - 1);
        assert(s.drop_first()[i - 1] == s[i]);
    }
}

proof fn lemma_find_assoc_ty_miss(s: Seq<crate::tables::AssocTyDef>, item_id: u64)
    requires
        forall|j: int| 0 <= j < s.len() ==> s[j].item_id != item_id,
    ensures
        spec_find_assoc_ty(s, item_id) is None,
    decreases s.len(),
{
    if s.len() > 0 {
        assert(forall|j: int|
            0 <= j < s.drop_first().len() ==> s.drop_first()[j].item_id != item_id);
        lemma_find_assoc_ty_miss(s.drop_first(), item_id);
    }
}

/// The specialization-lookup capability: the first definition of
/// `item_id` inside the impl, if the impl defines it.
fn find_assoc_ty_def(tables: &Tables, impl_index: usize, item_id: u64) -> (r: Option<usize>)
    requires
        impl_index < tables.impls@.len(),
    ensures
        match r {
            Some(a) => a < tables.impls@[impl_index as int].assoc_tys@.len()
                && tables.impls@[impl_index as int].assoc_tys@[a as int].item_id == item_id
                && spec_find_assoc_ty(tables.impls@[impl_index as int].assoc_tys@, item_id)
                == Some(a as int),
            None => spec_find_assoc_ty(
                tables.impls@[impl_index as int].assoc_tys@,
                item_id,
            ) is None,
        },
{
    let n = tables.impls[impl_index].assoc_tys.len();
    for a in 0..n
        invariant
            n == tables.impls@[impl_index as int].assoc_tys@.len(),
            forall|j: int| 0 <= j < a ==> tables.impls@[impl_index as int].assoc_tys@[j].item_id
                != item_id,
    {
        if tables.impls[impl_index].assoc_tys[a].item_id == item_id {
            proof {
                lemma_find_assoc_ty_hit(
                    tables.impls@[impl_index as int].assoc_tys@,
                    item_id,
                    a as int,
                );
            }
            return Some(a);
        }
    }
    proof {
        lemma_find_assoc_ty_miss(tables.impls@[impl_index as int].assoc_tys@, item_id);
    }
    None
}

/// Whether a type's head is settled enough that its discriminant type is
/// already determined.
pub open spec fn spec_head_determined(t: SpecTy) -> bool {
    match t {
        SpecTy::Adt(_, _) => true,
        SpecTy::Closure(_, _, _) => true,
        SpecTy::Generator(_, _, _) => true,
        SpecTy::Dynamic(_) => true,
        _ => false,
    }
}

impl InferCtxt {
    /// Whether the resolved self type of the projection has a determined
    /// discriminant type; `None` when there is no self type at all.
    fn resolve_projection_self(&self, projection: &ProjectionTy) -> (r: Option<bool>)
        ensures
            r == (if projection.substs@.len() == 0 {
                Option::<bool>::None
            } else {
                Some(
                    spec_head_determined(
                        crate::infer::spec_resolve(self.b(), projection@.substs[0]),
                    ),
                )
            }),
    {
        broadcast use {crate::ty::lemma_view_ty_seq_len, crate::ty::lemma_view_ty_seq_index};

        if projection.substs.len() == 0 {
            return None;
        }
        let self_ty = self.resolve_ty(&projection.substs[0]);
        let determined = match self_ty {
            Ty::Adt(_, _) => true,
            Ty::Closure(_, _, _) => true,
            Ty::Generator(_, _, _) => true,
            Ty::Dynamic(_) => true,
            Ty::Infer(_) => false,
            Ty::Param(_) => false,
            Ty::Projection(_, _, _) => false,
            Ty::Opaque(_, _) => false,
            Ty::Error => false,
        };
        Some(determined)
    }
}

/// Confirms an ambient-bound or trait-definition candidate: unifies the
/// candidate's trait reference against the obligation's and returns the
/// candidate's type, with the unification obligations at the next depth;
/// a candidate that fails to unify yields the silencing error type with
/// nothing further.
fn confirm_param_env_candidate(
    tables: &Tables,
    infcx: &mut InferCtxt,
    env: &ParamEnv,
    projection: &ProjectionTy,
    cause: u64,
    depth: u64,
    pp: &ProjectionPredicate,
) -> (r: Progress)
    requires
        old(infcx).wf(),
    ensures
        final(infcx).wf(),
        final(infcx).cache == old(infcx).cache,
        final(infcx).region_obligations == old(infcx).region_obligations,
        final(infcx).assembly_count == old(infcx).assembly_count,
        (r.ty@ == pp.ty@ && forall|i: int|
            0 <= i < r.obligations@.len() ==> (#[trigger] r.obligations@[i])@.param_env == env@
                && r.obligations@[i]@.cause == cause && r.obligations@[i]@.recursion_depth
                == crate::infer::sat_inc(depth)) || (r.ty@ == SpecTy::Error && r.obligations@.len()
            == 0),
        // A candidate whose trait reference is already equal, resolved, to
        // the obligation's confirms to exactly its type, with nothing
        // bound and nothing deferred: the error disjunct arises only from
        // a unification failure.
        (pp.projection_ty@.trait_id == projection@.trait_id && pp.projection_ty@.substs.len()
            == projection@.substs.len() && crate::infer::spec_resolve_seq(
            old(infcx).b(),
            pp.projection_ty@.substs,
        ) == crate::infer::spec_resolve_seq(old(infcx).b(), projection@.substs)) ==> (r.ty@
            == pp.ty@ && r.obligations@.len() == 0 && *final(infcx) == *old(infcx)),
{
    let obligation_trait_ref = projection.trait_ref();
    let cache_trait_ref = pp.projection_ty.trait_ref();
    match unify_trait_refs(infcx, &cache_trait_ref, &obligation_trait_ref) {
        Ok(preds) => {
            let child_depth = if depth < u64::MAX {
                depth + 1
            } else {
                depth
            };
            Progress {
                ty: pp.ty.clone(),
                obligations: obligations_from(&preds, env, cause, child_depth),
            }
        }
        Err(_) => {
            // The obligation failed to unify with the chosen bound; a
            // failed type silences further reports.
            Progress::error()
        }
    }
}

/// Confirms a selected user impl: the result is the defining item's type
/// with the impl's inferred generic arguments substituted through it,
/// carrying the selection's nested obligations; a missing definition is
/// a reported-elsewhere error.
fn confirm_impl_candidate(
    tables: &Tables,
    infcx: &mut InferCtxt,
    env: &ParamEnv,
    projection: &ProjectionTy,
    cause: u64,
    depth: u64,
    data: ImplSourceUserDefinedData,
) -> (r: Progress)
    requires
        old(infcx).wf(),
    ensures
        final(infcx).wf(),
        *final(infcx) == *old(infcx),
        r.obligations == data.nested,
        r.ty@ == (if data.impl_index < tables.impls@.len() {
            match spec_find_assoc_ty(
                tables.impls@[data.impl_index as int].assoc_tys@,
                projection@.item_id,
            ) {
                Some(a) => if tables.impls@[data.impl_index as int].assoc_tys@[a].has_value {
                    crate::ty::subst_ty(
                        crate::ty::view_ty_seq(data.substs@),
                        tables.impls@[data.impl_index as int].assoc_tys@[a].ty@,
                    )
                } else {
                    SpecTy::Error
                },
                None => SpecTy::Error,
            }
        } else {
            SpecTy::Error
        }),
{
    if data.impl_index >= tables.impls.len() {
        return Progress { ty: Ty::Error, obligations: data.nested };
    }
    match find_assoc_ty_def(tables, data.impl_index, projection.item_id) {
        None => Progress { ty: Ty::Error, obligations: data.nested },
        Some(a) => {
            if !tables.impls[data.impl_index].assoc_tys[a].has_value {
                // The impl is missing a definition for the associated
                // type; the definition checker reports it.
                Progress { ty: Ty::Error, obligations: data.nested }
            } else {
                Progress {
                    ty: ty_subst(&data.substs, &tables.impls[data.impl_index].assoc_tys[a].ty),
                    obligations: data.nested,
                }
            }
        }
    }
}

/// Confirms a trait-object candidate: finds the first projection bound of
/// the object type that projects the right item and whose trait reference
/// matches, and confirms it like an ambient bound. An object type without
/// such a bound is ill-formed.
fn confirm_object_candidate(
    tables: &Tables,
    infcx: &mut InferCtxt,
    env: &ParamEnv,
    projection: &ProjectionTy,
    cause: u64,
    depth: u64,
) -> (r: Progress)
    requires
        old(infcx).wf(),
    ensures
        final(infcx).wf(),
        final(infcx).cache == old(infcx).cache,
        final(infcx).region_obligations == old(infcx).region_obligations,
        final(infcx).assembly_count == old(infcx).assembly_count,
        // The result is one of the object type's own projection bounds
        // for this item, instantiated at the object type — or the
        // silencing error type (an ill-formed object among them).
        r.ty@ == SpecTy::Error || (exists|did: u64, i: int, j: int|
            #![trigger crate::ty::subst_ty(seq![SpecTy::Dynamic(did)], tables.dyns@[i].1.bounds@[j].ty@)]
            {
                &&& crate::infer::spec_resolve(old(infcx).b(), projection@.substs[0])
                    == SpecTy::Dynamic(did)
                &&& 0 <= i < tables.dyns@.len() && tables.dyns@[i].0 == did
                &&& 0 <= j < tables.dyns@[i].1.bounds@.len()
                &&& tables.dyns@[i].1.bounds@[j].projection_ty.item_id == projection@.item_id
                &&& r.ty@ == crate::ty::subst_ty(
                    seq![SpecTy::Dynamic(did)],
                    tables.dyns@[i].1.bounds@[j].ty@,
                )
            }),
{
    broadcast use {crate::ty::lemma_view_ty_seq_len, crate::ty::lemma_view_ty_seq_index};

    if projection.substs.len() == 0 {
        return Progress::error();
    }
    let self_ty = infcx.resolve_ty(&projection.substs[0]);
    let did = match self_ty {
        Ty::Dynamic(did) => did,
        _ => {
            return Progress::error();
        }
    };
    let dyn_index = match tables.lookup_dyn(did) {
        Some(i) => i,
        None => {
            return Progress::error();
        }
    };
    let mut self_args: Vec<Ty> = Vec::new();
    self_args.push(Ty::Dynamic(did));
    let obligation_trait_ref = projection.trait_ref();
    let n = tables.dyns[dyn_index].1.bounds.len();
    for i in 0..n
        invariant
            n == tables.dyns@[dyn_index as int].1.bounds@.len(),
            dyn_index < tables.dyns@.len(),
            self_args@.len() == 1,
            infcx.wf(),
            infcx.cache == old(infcx).cache,
            infcx.region_obligations == old(infcx).region_obligations,
            infcx.assembly_count == old(infcx).assembly_count,
    {
        let bound = &tables.dyns[dyn_index].1.bounds[i];
        if bound.projection_ty.item_id == projection.item_id {
            let pp = ProjectionPredicate {
                projection_ty: ProjectionTy {
                    trait_id: bound.projection_ty.trait_id,
                    item_id: bound.projection_ty.item_id,
                    substs: crate::ty::tys_subst(&self_args, &bound.projection_ty.substs),
                },
                ty: ty_subst(&self_args, &bound.ty),
            };
            let snap = infcx.snapshot();
            proof {
                assert(store_wf(view_bindings(snap@)));
            }
            let pp_trait_ref = pp.projection_ty.trait_ref();
            let is_match = match unify_trait_refs(infcx, &obligation_trait_ref, &pp_trait_ref) {
                Ok(_) => true,
                Err(_) => false,
            };
            infcx.rollback(snap);
            if is_match {
                proof {
                    assert(crate::ty::view_ty_seq(self_args@) =~= seq![SpecTy::Dynamic(did)]);
                }
                let result = confirm_param_env_candidate(
                    tables,
                    infcx,
                    env,
                    projection,
                    cause,
                    depth,
                    &pp,
                );
                proof {
                    if result.ty@ != SpecTy::Error {
                        assert(result.ty@ == crate::ty::subst_ty(
                            seq![SpecTy::Dynamic(did)],
                            tables.dyns@[dyn_index as int].1.bounds@[i as int].ty@,
                        ));
                    }
                }
                return result;
            }
        }
    }
    // No matching bound: the object type should list all of its
    // projections explicitly.
    Progress::error()
}

/// Confirms the built-in callable rule: the projection is the resolved
/// closure's return type, synthesized from the closure's own signature.
fn confirm_closure_candidate(
    tables: &Tables,
    infcx: &mut InferCtxt,
    env: &ParamEnv,
    projection: &ProjectionTy,
    cause: u64,
    depth: u64,
) -> (r: Progress)
    requires
        old(infcx).wf(),
    ensures
        final(infcx).wf(),
        final(infcx).cache == old(infcx).cache,
        final(infcx).region_obligations == old(infcx).region_obligations,
        final(infcx).assembly_count == old(infcx).assembly_count,
        ({
            if projection.substs@.len() == 0 {
                r.ty@ == SpecTy::Error && r.obligations@.len() == 0
            } else {
                match crate::infer::spec_resolve(old(infcx).b(), projection@.substs[0]) {
                    SpecTy::Closure(cd, cargs, cret) => r.ty@ == *cret || r.ty@ == SpecTy::Error,
                    _ => r.ty@ == SpecTy::Error && r.obligations@.len() == 0,
                }
            }
        }),
{
    broadcast use {crate::ty::lemma_view_ty_seq_len, crate::ty::lemma_view_ty_seq_index};

    if projection.substs.len() == 0 {
        return Progress::error();
    }
    let self_ty = infcx.resolve_ty(&projection.substs[0]);
    let (args, ret) = match self_ty {
        Ty::Closure(_, args, ret) => (args, ret),
        _ => {
            return Progress::error();
        }
    };
    confirm_callable_candidate(tables, infcx, env, projection, cause, depth, args, *ret)
}

/// Shared by every callable source: builds the bound
/// `<Self as FnOnce<Args>>::Output == Ret` from the callable's signature
/// and confirms it like an ambient bound: the projection is the
/// callable's return type.
fn confirm_callable_candidate(
    tables: &Tables,
    infcx: &mut InferCtxt,
    env: &ParamEnv,
    projection: &ProjectionTy,
    cause: u64,
    depth: u64,
    sig_args: Vec<Ty>,
    sig_ret: Ty,
) -> (r: Progress)
    requires
        old(infcx).wf(),
        projection.substs@.len() > 0,
    ensures
        final(infcx).wf(),
        final(infcx).cache == old(infcx).cache,
        final(infcx).region_obligations == old(infcx).region_obligations,
        final(infcx).assembly_count == old(infcx).assembly_count,
        r.ty@ == sig_ret@ || r.ty@ == SpecTy::Error,
{
    let self_ty = infcx.resolve_ty(&projection.substs[0]);
    let mut substs: Vec<Ty> = Vec::new();
    substs.push(self_ty);
    substs.push(Ty::Adt(tables.tuple_adt, sig_args));
    let pp = ProjectionPredicate {
        projection_ty: ProjectionTy {
            trait_id: tables.fn_once_trait,
            item_id: tables.fn_once_output_item,
            substs,
        },
        ty: sig_ret,
    };
    confirm_param_env_candidate(tables, infcx, env, projection, cause, depth, &pp)
}

/// Confirms the built-in generator rule: the projection is the resolved
/// generator's yield or return type, by item.
fn confirm_generator_candidate(
    tables: &Tables,
    infcx: &mut InferCtxt,
    env: &ParamEnv,
    projection: &ProjectionTy,
    cause: u64,
    depth: u64,
) -> (r: Progress)
    requires
        old(infcx).wf(),
    ensures
        final(infcx).wf(),
        final(infcx).cache == old(infcx).cache,
        final(infcx).region_obligations == old(infcx).region_obligations,
        final(infcx).assembly_count == old(infcx).assembly_count,
        ({
            if projection.substs@.len() == 0 {
                r.ty@ == SpecTy::Error && r.obligations@.len() == 0
            } else {
                match crate::infer::spec_resolve(old(infcx).b(), projection@.substs[0]) {
                    SpecTy::Generator(gd, gy, gr) => {
                        if projection@.item_id == tables.generator_return_item {
                            r.ty@ == *gr || r.ty@ == SpecTy::Error
                        } else if projection@.item_id == tables.generator_yield_item {
                            r.ty@ == *gy || r.ty@ == SpecTy::Error
                        } else {
                            r.ty@ == SpecTy::Error && r.obligations@.len() == 0
                        }
                    },
                    _ => r.ty@ == SpecTy::Error && r.obligations@.len() == 0,
                }
            }
        }),
{
    broadcast use {crate::ty::lemma_view_ty_seq_len, crate::ty::lemma_view_ty_seq_index};

    if projection.substs.len() == 0 {
        return Progress::error();
    }
    let self_ty = infcx.resolve_ty(&projection.substs[0]);
    let (yield_ty, ret_ty) = match &self_ty {
        Ty::Generator(_, y, r) => ((**y).clone(), (**r).clone()),
        _ => {
            return Progress::error();
        }
    };
    let ty = if projection.item_id == tables.generator_return_item {
        ret_ty
    } else if projection.item_id == tables.generator_yield_item {
        yield_ty
    } else {
        return Progress::error();
    };
    let mut substs: Vec<Ty> = Vec::new();
    substs.push(self_ty);
    let pp = ProjectionPredicate {
        projection_ty: ProjectionTy {
            trait_id: tables.generator_trait,
            item_id: projection.item_id,
            substs,
        },
        ty,
    };
    confirm_param_env_candidate(tables, infcx, env, projection, cause, depth, &pp)
}

/// Confirms the built-in discriminant rule: enums project to their
/// declared discriminant type, generators to the generator discriminant
/// type, everything else to the default.
fn confirm_discriminant_kind_candidate(
    tables: &Tables,
    infcx: &mut InferCtxt,
    env: &ParamEnv,
    projection: &ProjectionTy,
    cause: u64,
    depth: u64,
) -> (r: Progress)
    requires
        old(infcx).wf(),
    ensures
        final(infcx).wf(),
        final(infcx).cache == old(infcx).cache,
        final(infcx).region_obligations == old(infcx).region_obligations,
        final(infcx).assembly_count == old(infcx).assembly_count,
        ({
            if projection.substs@.len() == 0 {
                r.ty@ == SpecTy::Error && r.obligations@.len() == 0
            } else {
                let discr = match crate::infer::spec_resolve(
                    old(infcx).b(),
                    projection@.substs[0],
                ) {
                    SpecTy::Adt(a, aargs) => match tables.spec_enum_discr(a) {
                        Some(d) => d,
                        None => tables.u8_adt,
                    },
                    SpecTy::Generator(gd, gy, gr) => tables.i32_adt,
                    _ => tables.u8_adt,
                };
                r.ty@ == SpecTy::Adt(discr, Seq::empty()) || r.ty@ == SpecTy::Error
            }
        }),
{
    broadcast use {crate::ty::lemma_view_ty_seq_len, crate::ty::lemma_view_ty_seq_index};

    if projection.substs.len() == 0 {
        return Progress::error();
    }
    let self_ty = infcx.resolve_ty(&projection.substs[0]);
    let discr_adt = match &self_ty {
        Ty::Adt(a, _) => match tables.enum_discr_of(*a) {
            Some(d) => d,
            None => tables.u8_adt,
        },
        Ty::Generator(_, _, _) => tables.i32_adt,
        _ => tables.u8_adt,
    };
    let empty_args: Vec<Ty> = Vec::new();
    proof {
        assert(crate::ty::view_ty_seq(empty_args@) =~= Seq::<SpecTy>::empty());
    }
    let discr_ty = Ty::Adt(discr_adt, empty_args);
    let mut substs: Vec<Ty> = Vec::new();
    substs.push(self_ty);
    let pp = ProjectionPredicate {
        projection_ty: ProjectionTy {
            trait_id: tables.discriminant_trait,
            item_id: tables.discriminant_item,
            substs,
        },
        ty: discr_ty,
    };
    confirm_param_env_candidate(tables, infcx, env, projection, cause, depth, &pp)
}

/// Confirms a selected impl source by its kind.
fn confirm_select_candidate(
    tables: &Tables,
    infcx: &mut InferCtxt,
    env: &ParamEnv,
    projection: &ProjectionTy,
    cause: u64,
    depth: u64,
    impl_source: ImplSource,
) -> (r: Progress)
    requires
        old(infcx).wf(),
    ensures
        final(infcx).wf(),
        final(infcx).cache == old(infcx).cache,
        final(infcx).region_obligations == old(infcx).region_obligations,
        final(infcx).assembly_count == old(infcx).assembly_count,
{
    match impl_source {
        ImplSource::UserDefined(data) => {
            confirm_impl_candidate(tables, infcx, env, projection, cause, depth, data)
        }
        ImplSource::Closure => confirm_closure_candidate(
            tables,
            infcx,
            env,
            projection,
            cause,
            depth,
        ),
        ImplSource::Generator => confirm_generator_candidate(
            tables,
            infcx,
            env,
            projection,
            cause,
            depth,
        ),
        ImplSource::Object => confirm_object_candidate(
            tables,
            infcx,
            env,
            projection,
            cause,
            depth,
        ),
        ImplSource::DiscriminantKind => confirm_discriminant_kind_candidate(
            tables,
            infcx,
            env,
            projection,
            cause,
            depth,
        ),
        ImplSource::Param => {
            // Assembly never keeps a caller-bound source as a candidate.
            Progress::error()
        }
    }
}

/// Confirms the chosen candidate into a concrete type and nested
/// obligations.
fn confirm_candidate(
    tables: &Tables,
    infcx: &mut InferCtxt,
    env: &ParamEnv,
    projection: &ProjectionTy,
    cause: u64,
    depth: u64,
    candidate: ProjectionTyCandidate,
) -> (r: Progress)
    requires
        old(infcx).wf(),
    ensures
        final(infcx).wf(),
        final(infcx).cache == old(infcx).cache,
        final(infcx).region_obligations == old(infcx).region_obligations,
        final(infcx).assembly_count == old(infcx).assembly_count,
{
    match candidate {
        ProjectionTyCandidate::ParamEnv(pp) => confirm_param_env_candidate(
            tables,
            infcx,
            env,
            projection,
            cause,
            depth,
            &pp,
        ),
        ProjectionTyCandidate::TraitDef(pp) => confirm_param_env_candidate(
            tables,
            infcx,
            env,
            projection,
            cause,
            depth,
            &pp,
        ),
        ProjectionTyCandidate::Select(impl_source) => confirm_select_candidate(
            tables,
            infcx,
            env,
            projection,
            cause,
            depth,
            impl_source,
        ),
    }
}

/// Computes the result of a projection, if it can: assembles candidates
/// from the three sources in priority order and confirms the survivor.
/// The projection must be fully resolved. Runs candidate assembly
/// exactly once (the assembly counter advances by one step).
pub fn project_type(
    tables: &Tables,
    infcx: &mut InferCtxt,
    env: &ParamEnv,
    projection: &ProjectionTy,
    cause: u64,
    depth: u64,
) -> (r: Result<ProjectedTy, ProjectionTyError>)
    requires
        old(infcx).wf(),
    ensures
        final(infcx).wf(),
        final(infcx).cache == old(infcx).cache,
        final(infcx).region_obligations == old(infcx).region_obligations,
        final(infcx).assembly_count == crate::infer::sat_inc(old(infcx).assembly_count),
        depth > RECURSION_LIMIT ==> r matches Err(ProjectionTyError::TraitSelectionError(
            SelectionError::Overflow,
        )),
        r matches Ok(_) ==> depth <= RECURSION_LIMIT,
        // No candidate leaves the projection itself, untouched.
        r matches Ok(ProjectedTy::NoProgress(t)) ==> t@ == projection@.as_ty(),
        // Ambiguity and absence of candidates commit nothing: every
        // inference effect of assembly is rolled back.
        r matches Err(ProjectionTyError::TooManyCandidates) ==> final(infcx).b() == old(infcx).b(),
        r matches Ok(ProjectedTy::NoProgress(t)) ==> final(infcx).b() == old(infcx).b(),
        // An unresolved self type — not hidden behind a projection or
        // opaque head — with no ambient projection bound for the item
        // yields no candidate from any source: the projection comes back
        // unchanged rather than ambiguous or failed.
        (depth <= RECURSION_LIMIT && !crate::ty::has_error_seq(projection@.substs)
            && projection.substs@.len() > 0 && projection@.substs[0] is Infer
            && crate::infer::spec_resolve(old(infcx).b(), projection@.substs[0]) is Infer
            && (forall|i: int|
            0 <= i < env.caller_bounds@.len() ==> !spec_scans_item(
                (#[trigger] env.caller_bounds@[i])@,
                projection@.item_id,
            ))) ==> (r matches Ok(ProjectedTy::NoProgress(t)) && t@ == projection@.as_ty()),
{
    infcx.bump_assembly_count();
    if depth > RECURSION_LIMIT {
        return Err(ProjectionTyError::TraitSelectionError(SelectionError::Overflow));
    }
    if tys_have_error(&projection.substs) {
        return Ok(ProjectedTy::Progress(Progress::error()));
    }

    let mut candidates = ProjectionTyCandidateSet::NoCandidate;

    // The ambient environment has the highest priority and so runs
    // first; impl selection checks the outcome of its push and so runs
    // last.
    assemble_candidates_from_param_env(infcx, env, projection, &mut candidates);
    assemble_candidates_from_trait_def(tables, infcx, projection, &mut candidates);
    assemble_candidates_from_impls(
        tables,
        infcx,
        env,
        projection,
        cause,
        depth,
        &mut candidates,
    );

    match candidates {
        ProjectionTyCandidateSet::Single(candidate) => Ok(
            ProjectedTy::Progress(
                confirm_candidate(tables, infcx, env, projection, cause, depth, candidate),
            ),
        ),
        ProjectionTyCandidateSet::NoCandidate => Ok(ProjectedTy::NoProgress(projection.as_ty())),
        ProjectionTyCandidateSet::Error(e) => Err(ProjectionTyError::TraitSelectionError(e)),
        ProjectionTyCandidateSet::Ambiguous => Err(ProjectionTyError::TooManyCandidates),
    }
}

/// Either of the two recoverable ways normalization can decline, or the
/// fatal overflow.
#[derive(Debug)]
pub enum NormalizeFailure {
    /// The same projection is already being normalized further up.
    InProgress,
    /// The recursion-depth bound was exceeded; fatal.
    Overflow(OverflowError),
}

/// How far the recursion-depth budget reaches past `depth`.
pub open spec fn depth_left(depth: u64) -> nat {
    if depth <= RECURSION_LIMIT + 1 {
        (RECURSION_LIMIT + 2 - depth) as nat
    } else {
        0
    }
}

/// The view of a normalization outcome; both recoverable declines
/// collapse to one failure marker.
pub open spec fn view_norm_result(r: Result<Option<Ty>, NormalizeFailure>) -> Result<
    Option<SpecTy>,
    (),
> {
    match r {
        Ok(Some(t)) => Ok(Some(t@)),
        Ok(None) => Ok(None),
        Err(_) => Err(()),
    }
}

/// What a cached entry forces the next normalization of the same key to
/// do, before any inference progress: an ambiguous entry answers
/// ambiguous again, an in-progress entry answers in-progress, a
/// normalized entry answers its value — and none of them re-runs
/// candidate assembly.
pub open spec fn cache_hit_outcome(
    cache_pre: Map<SpecProjectionTy, SpecCacheEntry>,
    key: SpecProjectionTy,
    outcome: Result<Option<SpecTy>, ()>,
    count_pre: u64,
    count_post: u64,
) -> bool {
    &&& (cache_pre.contains_key(key) && cache_pre[key] is Ambiguous ==> outcome == Ok::<
        Option<SpecTy>,
        (),
    >(None) && count_post == count_pre)
    &&& (cache_pre.contains_key(key) && cache_pre[key] is InProgress ==> outcome == Err::<
        Option<SpecTy>,
        (),
    >(()) && count_post == count_pre)
    &&& (cache_pre.contains_key(key) && cache_pre[key] is NormalizedTy ==> outcome == Ok::<
        Option<SpecTy>,
        (),
    >(Some(entry_value(cache_pre[key]))) && count_post == count_pre)
}

/// The value held by a normalized entry.
pub open spec fn entry_value(e: SpecCacheEntry) -> SpecTy {
    match e {
        SpecCacheEntry::NormalizedTy(v, _) => v,
        _ => SpecTy::Error,
    }
}

/// The nested obligations stored with a normalized entry.
pub open spec fn entry_obls(e: SpecCacheEntry) -> Seq<SpecObligation> {
    match e {
        SpecCacheEntry::NormalizedTy(_, o) => o,
        _ => Seq::empty(),
    }
}

/// The trait bound re-added on every reuse of a cached normalization:
/// nothing else guarantees that the bound justifying the cached value was
/// actually proven.
pub open spec fn paranoid_obligation(
    key: SpecProjectionTy,
    env: SpecParamEnv,
    cause: u64,
    depth: u64,
) -> SpecObligation {
    SpecObligation {
        cause,
        param_env: env,
        recursion_depth: depth,
        predicate: SpecPredicate::Trait(key.trait_ref()),
    }
}

/// No key is ever dropped from the cache.
pub open spec fn cache_keys_preserved(
    pre: Map<SpecProjectionTy, SpecCacheEntry>,
    post: Map<SpecProjectionTy, SpecCacheEntry>,
) -> bool {
    forall|k: SpecProjectionTy| #[trigger] pre.contains_key(k) ==> post.contains_key(k)
}

/// Whether the type still has unresolved inference variables once the
/// current bindings are substituted through it.
fn resolved_ty_has_infer(infcx: &InferCtxt, t: &Ty) -> (r: bool)
    ensures
        r == crate::ty::has_infer(crate::infer::spec_resolve(infcx.b(), t@)),
{
    let resolved = infcx.resolve_ty(t);
    ty_has_infer(&resolved)
}

/// The obligations kept with a cached value that still has unresolved
/// variables: exactly the projection predicates whose projected-to type
/// is itself still unresolved under the current bindings — the only ones
/// that could still bind the value's variables.
pub open spec fn spec_prune(
    b: Seq<Option<SpecTy>>,
    obls: Seq<SpecObligation>,
) -> Seq<SpecObligation>
    decreases obls.len(),
{
    if obls.len() == 0 {
        Seq::empty()
    } else {
        let rest = spec_prune(b, obls.drop_last());
        match obls.last().predicate {
            SpecPredicate::Projection(pp) => if crate::ty::has_infer(
                crate::infer::spec_resolve(b, pp.ty),
            ) {
                rest.push(obls.last())
            } else {
                rest
            },
            _ => rest,
        }
    }
}

/// If the cached value still has unresolved variables, keep only the
/// projection obligations that could bind them; once the value is fully
/// resolved, nothing needs to accompany it any more.
fn prune_cache_value_obligations(
    infcx: &InferCtxt,
    value: &Ty,
    obligations: &Vec<Obligation>,
) -> (r: Vec<Obligation>)
    ensures
        !crate::ty::has_infer(crate::infer::spec_resolve(infcx.b(), value@)) ==> r@.len() == 0,
        crate::ty::has_infer(crate::infer::spec_resolve(infcx.b(), value@))
            ==> view_obligation_seq(r@) == spec_prune(
            infcx.b(),
            view_obligation_seq(obligations@),
        ),
{
    broadcast use {lemma_view_obligation_seq_len, lemma_view_obligation_seq_index};

    if !resolved_ty_has_infer(infcx, value) {
        return Vec::new();
    }
    let ghost all = view_obligation_seq(obligations@);
    let mut out: Vec<Obligation> = Vec::new();
    let n = obligations.len();
    for i in 0..n
        invariant
            n == obligations@.len(),
            all == view_obligation_seq(obligations@),
            view_obligation_seq(out@) == spec_prune(infcx.b(), all.take(i as int)),
    {
        proof {
            assert(all.take(i + 1).drop_last() =~= all.take(i as int));
            assert(all.take(i + 1).last() == obligations@[i as int]@);
        }
        let ghost out0 = view_obligation_seq(out@);
        match &obligations[i].predicate {
            Predicate::Projection(data) => {
                if resolved_ty_has_infer(infcx, &data.ty) {
                    out.push(obligations[i].clone());
                    proof {
                        assert(view_obligation_seq(out@) =~= out0.push(
                            obligations@[i as int]@,
                        ));
                    }
                } else {
                    proof {
                        assert(view_obligation_seq(out@) =~= spec_prune(
                            infcx.b(),
                            all.take(i + 1),
                        ));
                    }
                }
            }
            _ => {
                proof {
                    assert(view_obligation_seq(out@) =~= spec_prune(infcx.b(), all.take(i + 1)));
                }
            }
        }
    }
    proof {
        assert(all.take(n as int) =~= all);
    }
    out
}

/// Every reuse of a cached normalization re-adds the trait bound that
/// justified the projection; nothing else guarantees the bound was
/// actually proven where the entry was first filled in.
fn get_paranoid_cache_value_obligation(
    env: &ParamEnv,
    projection: &ProjectionTy,
    cause: u64,
    depth: u64,
) -> (r: Obligation)
    ensures
        r@ == paranoid_obligation(projection@, env@, cause, depth),
{
    let r = Obligation {
        cause,
        param_env: env.clone(),
        recursion_depth: depth,
        predicate: Predicate::Trait(projection.trait_ref()),
    };
    proof {
        assert(r@ =~= paranoid_obligation(projection@, env@, cause, depth));
    }
    r
}

/// When `<T as Trait>::Item` cannot be normalized because `T: Trait`
/// does not hold, hand back a fresh variable and the bound itself as an
/// obligation; proving the bound will fail and report the real error.
fn normalize_to_error(
    tables: &Tables,
    infcx: &mut InferCtxt,
    env: &ParamEnv,
    projection: &ProjectionTy,
    cause: u64,
    depth: u64,
) -> (r: NormalizedTy)
    requires
        old(infcx).wf(),
    ensures
        final(infcx).wf(),
        final(infcx).b() == old(infcx).b().push(None),
        final(infcx).cache == old(infcx).cache,
        final(infcx).region_obligations == old(infcx).region_obligations,
        final(infcx).assembly_count == old(infcx).assembly_count,
        r.value@ == SpecTy::Infer(old(infcx).b().len() as u64),
        r.obligations@.len() == 1,
        r.obligations@[0]@ == paranoid_obligation(projection@, env@, cause, depth),
{
    let trait_obligation = Obligation {
        cause,
        param_env: env.clone(),
        recursion_depth: depth,
        predicate: Predicate::Trait(projection.trait_ref()),
    };
    proof {
        assert(trait_obligation@ =~= paranoid_obligation(projection@, env@, cause, depth));
    }
    let new_value = infcx.next_ty_var();
    let mut obligations: Vec<Obligation> = Vec::new();
    obligations.push(trait_obligation);
    NormalizedTy { value: new_value, obligations }
}

/// The guts of normalization: normalize one projection through the
/// cache. `Ok(None)` is ambiguity (unresolved variables in the
/// projection); `Err(InProgress)` is a recursive request for the same
/// key; a cached entry decides the outcome without re-running candidate
/// assembly, exactly as `cache_hit_outcome` states.
pub fn opt_normalize_projection_type(
    tables: &Tables,
    infcx: &mut InferCtxt,
    env: &ParamEnv,
    projection_ty: &ProjectionTy,
    cause: u64,
    depth: u64,
    obligations: &mut Vec<Obligation>,
) -> (r: Result<Option<Ty>, NormalizeFailure>)
    requires
        old(infcx).wf(),
    ensures
        final(infcx).wf(),
        final(infcx).region_obligations == old(infcx).region_obligations,
        cache_keys_preserved(old(infcx).cache@, final(infcx).cache@),
        old(obligations)@.is_prefix_of(final(obligations)@),
        cache_hit_outcome(
            old(infcx).cache@,
            spec_resolve_projection_ty(old(infcx).b(), projection_ty@),
            view_norm_result(r),
            old(infcx).assembly_count,
            final(infcx).assembly_count,
        ),
        ({
            let key = spec_resolve_projection_ty(old(infcx).b(), projection_ty@);
            let c = old(infcx).cache@;
            let c2 = final(infcx).cache@;
            let obls0 = view_obligation_seq(old(obligations)@);
            let obls1 = view_obligation_seq(final(obligations)@);
            let paranoid = paranoid_obligation(key, env@, cause, depth);
            &&& (c.contains_key(key) && (c[key] is Ambiguous || c[key] is InProgress)
                ==> *final(infcx) == *old(infcx) && final(obligations)@ == old(obligations)@)
            &&& (c.contains_key(key) && c[key] is InProgress ==> r matches Err(
                NormalizeFailure::InProgress,
            ))
            // A reused normalized entry: the value comes back, the
            // justifying trait bound is re-added, and the entry is
            // completed (stored obligations dropped) once its value is
            // fully resolved, else its obligations accompany the reuse.
            &&& (c.contains_key(key) && c[key] is NormalizedTy ==> final(infcx).b() == old(infcx).b()
                && (if !crate::ty::has_infer(
                    crate::infer::spec_resolve(old(infcx).b(), entry_value(c[key])),
                ) {
                    c2 == c.insert(
                        key,
                        SpecCacheEntry::NormalizedTy(entry_value(c[key]), Seq::empty()),
                    ) && obls1 == obls0.push(paranoid)
                } else {
                    c2 == c && obls1 == obls0 + entry_obls(c[key]) + seq![paranoid]
                }))
            // A failed entry: a fresh placeholder variable comes back,
            // accompanied by the failing trait bound itself.
            &&& (c.contains_key(key) && c[key] is Error ==> (r matches Ok(Some(t)) && t@
                == SpecTy::Infer(old(infcx).b().len() as u64) && final(infcx).b() == old(infcx).b().push(None) && obls1 == obls0.push(paranoid)))
            &&& (r matches Ok(Some(t)) ==> (!c.contains_key(key) ==> c2.contains_key(key) && ((
            c2[key] is NormalizedTy && entry_value(c2[key]) == t@) || c2[key] is Error)))
            // The first computation and the entry it leaves agree: a later
            // reuse of the entry returns exactly what this call returned.
            &&& ((!c.contains_key(key) && c2.contains_key(key) && c2[key] is NormalizedTy) ==> (
            r matches Ok(Some(t)) && t@ == entry_value(c2[key])))
            // An unresolved self type — not hidden behind a projection or
            // opaque head — with no ambient projection bound for the item
            // makes no progress: the resolved projection itself comes
            // back, nothing is bound.
            &&& ((!c.contains_key(key) && depth <= RECURSION_LIMIT && !crate::ty::has_error_seq(
                key.substs,
            ) && key.substs.len() > 0 && key.substs[0] is Infer && (forall|i: int|
                0 <= i < env.caller_bounds@.len() ==> !spec_scans_item(
                    (#[trigger] env.caller_bounds@[i])@,
                    key.item_id,
                ))) ==> (r matches Ok(Some(t)) && t@ == key.as_ty() && final(infcx).b() == old(infcx).b()))
            &&& ((!c.contains_key(key) && r is Ok && r->Ok_0 is None) ==> c2.contains_key(key)
                && c2[key] is Ambiguous)
            // A first attempt that ends ambiguous — assembly ran once and
            // found conflicting candidates — answers ambiguous, commits
            // nothing, and caches only the ambiguity.
            &&& ((!c.contains_key(key) && c2.contains_key(key) && c2[key] is Ambiguous) ==> (r
                == Ok::<Option<Ty>, NormalizeFailure>(None) && final(infcx).b() == old(infcx).b()
                && final(infcx).assembly_count == crate::infer::sat_inc(
                old(infcx).assembly_count,
            ) && final(obligations)@ == old(obligations)@ && c2 == c.insert(
                key,
                SpecCacheEntry::Ambiguous,
            )))
            // Only a recursive request for a key already on foot answers
            // in-progress; only overflow fails a fresh key, and it leaves
            // the failure recorded.
            &&& (r matches Err(NormalizeFailure::InProgress) ==> c.contains_key(key) && c[key]
                is InProgress)
            &&& ((!c.contains_key(key) && r is Err) ==> c2.contains_key(key) && c2[key] is Error)
            // A fresh key never stays marked in progress, whatever the
            // outcome.
            &&& (!c.contains_key(key) ==> c2.contains_key(key) && !(c2[key] is InProgress))
        }),
    decreases depth_left(depth), 0int, sty_size(SpecTy::Projection(projection_ty@.trait_id, projection_ty@.item_id, projection_ty@.substs)), 0int,
{
    broadcast use {vstd::map::group_map_axioms, crate::ty::lemma_occurs_seq};

    let ghost orig_substs = projection_ty@.substs;
    let projection_ty = infcx.resolve_projection_ty(projection_ty);
    let cache_key = projection_ty.clone();
    proof {
        // The resolved key is fully resolved, so its head — were it still
        // an inference variable — is an unbound one and resolves to
        // itself.
        crate::infer::lemma_resolve_resolved_seq(infcx.b(), orig_substs);
        if projection_ty@.substs.len() > 0 && projection_ty@.substs[0] is Infer {
            assert(crate::ty::occurs_seq(
                projection_ty@.substs[0]->Infer_0,
                projection_ty@.substs,
            )) by {
                assert(crate::ty::occurs(
                    projection_ty@.substs[0]->Infer_0,
                    projection_ty@.substs[0],
                ));
            }
        }
    }

    match infcx.cache.try_start(&cache_key) {
        Err(entry) => {
            match entry {
                ProjectionCacheEntry::Ambiguous => {
                    // The last attempt found conflicting candidates, and
                    // nothing in the key has changed since: still
                    // ambiguous.
                    return Ok(None);
                }
                ProjectionCacheEntry::InProgress => {
                    // Asked to normalize A::B while normalizing A::B:
                    // the conservative answer is that A::B equals
                    // itself; the caller handles it.
                    return Err(NormalizeFailure::InProgress);
                }
                ProjectionCacheEntry::NormalizedTy(n) => {
                    // The hottest path: reuse the cached value. Once the
                    // value is fully resolved its obligations are
                    // discharged for good; until then they accompany
                    // every reuse.
                    broadcast use {lemma_view_obligation_seq_len, lemma_view_obligation_seq_index};

                    let ghost obls0 = view_obligation_seq(obligations@);
                    if !resolved_ty_has_infer(infcx, &n.value) {
                        let completed = NormalizedTy {
                            value: n.value.clone(),
                            obligations: Vec::new(),
                        };
                        proof {
                            assert(view_obligation_seq(completed.obligations@)
                                =~= Seq::<SpecObligation>::empty());
                        }
                        infcx.cache.set_entry(
                            &cache_key,
                            ProjectionCacheEntry::NormalizedTy(completed),
                        );
                    } else {
                        let mut cached = clone_obligations(&n.obligations);
                        obligations.append(&mut cached);
                        proof {
                            assert(view_obligation_seq(obligations@) =~= obls0 + view_obligation_seq(
                                n.obligations@,
                            ));
                        }
                    }
                    obligations.push(
                        get_paranoid_cache_value_obligation(env, &projection_ty, cause, depth),
                    );
                    proof {
                        let key = cache_key@;
                        let paranoid = paranoid_obligation(key, env@, cause, depth);
                        if !crate::ty::has_infer(
                            crate::infer::spec_resolve(infcx.b(), n.value@),
                        ) {
                            assert(view_obligation_seq(obligations@) =~= obls0.push(paranoid));
                        } else {
                            assert(view_obligation_seq(obligations@) =~= obls0
                                + view_obligation_seq(n.obligations@) + seq![paranoid]);
                        }
                    }
                    return Ok(Some(n.value));
                }
                ProjectionCacheEntry::Error => {
                    broadcast use {lemma_view_obligation_seq_len, lemma_view_obligation_seq_index};

                    let ghost obls0 = view_obligation_seq(obligations@);
                    let result = normalize_to_error(
                        tables,
                        infcx,
                        env,
                        &projection_ty,
                        cause,
                        depth,
                    );
                    let mut errs = result.obligations;
                    obligations.append(&mut errs);
                    proof {
                        assert(view_obligation_seq(obligations@) =~= obls0.push(
                            paranoid_obligation(cache_key@, env@, cause, depth),
                        ));
                    }
                    return Ok(Some(result.value));
                }
            }
        }
        Ok(()) => {}
    }

    let ghost c1 = infcx.cache@;
    match project_type(tables, infcx, env, &projection_ty, cause, depth) {
        Ok(ProjectedTy::Progress(progress)) => {
            // What a candidate hands out was written in an impl or a
            // where-clause and may itself mention projections: it must
            // be re-normalized, one level deeper.
            let mut projected_obligations = progress.obligations;
            let result_value = if ty_has_projections(&progress.ty) {
                match fold_ty(
                    tables,
                    infcx,
                    env,
                    cause,
                    depth + 1,
                    &progress.ty,
                    &mut projected_obligations,
                ) {
                    Ok(t) => {
                        proof {
                            assert forall|k: SpecProjectionTy|
                                old(infcx).cache@.contains_key(k) implies infcx.cache@.contains_key(
                                k,
                            ) by {
                                assert(c1.contains_key(k));
                            }
                            assert(infcx.cache@.contains_key(cache_key@)) by {
                                assert(c1.contains_key(cache_key@));
                            }
                        }
                        t
                    }
                    Err(e) => {
                        // The key must not dangle in progress: record the
                        // failure before escalating.
                        proof {
                            assert forall|k: SpecProjectionTy|
                                old(infcx).cache@.contains_key(k) implies infcx.cache@.contains_key(
                                k,
                            ) by {
                                assert(c1.contains_key(k));
                            }
                            assert(infcx.cache@.contains_key(cache_key@)) by {
                                assert(c1.contains_key(cache_key@));
                            }
                        }
                        infcx.cache.set_entry(&cache_key, ProjectionCacheEntry::Error);
                        return Err(NormalizeFailure::Overflow(e));
                    }
                }
            } else {
                progress.ty
            };
            let pruned = prune_cache_value_obligations(
                infcx,
                &result_value,
                &projected_obligations,
            );
            let entry = NormalizedTy { value: result_value.clone(), obligations: pruned };
            infcx.cache.set_entry(&cache_key, ProjectionCacheEntry::NormalizedTy(entry));
            obligations.append(&mut projected_obligations);
            Ok(Some(result_value))
        }
        Ok(ProjectedTy::NoProgress(projected_ty)) => {
            // Nobody defines this projection yet; cache the unchanged
            // reference so the next request is answered at once.
            let entry = NormalizedTy { value: projected_ty.clone(), obligations: Vec::new() };
            infcx.cache.set_entry(&cache_key, ProjectionCacheEntry::NormalizedTy(entry));
            Ok(Some(projected_ty))
        }
        Err(ProjectionTyError::TooManyCandidates) => {
            infcx.cache.set_entry(&cache_key, ProjectionCacheEntry::Ambiguous);
            Ok(None)
        }
        Err(ProjectionTyError::TraitSelectionError(_)) => {
            // Proving `T: Trait` failed; record the error, and let the
            // returned bound report it when processed.
            infcx.cache.set_entry(&cache_key, ProjectionCacheEntry::Error);
            let result = normalize_to_error(tables, infcx, env, &projection_ty, cause, depth);
            let mut errs = result.obligations;
            obligations.append(&mut errs);
            Ok(Some(result.value))
        }
    }
}

/// Normalizes one projection to a type, always: if normalization bottoms
/// out in ambiguity or recursion, a fresh inference variable stands in
/// for the result and a deferred `projection == variable` obligation is
/// registered to be retried later, guaranteeing forward progress.
pub fn normalize_projection_type(
    tables: &Tables,
    infcx: &mut InferCtxt,
    env: &ParamEnv,
    projection_ty: &ProjectionTy,
    cause: u64,
    depth: u64,
    obligations: &mut Vec<Obligation>,
) -> (r: Result<Ty, OverflowError>)
    requires
        old(infcx).wf(),
    ensures
        final(infcx).wf(),
        final(infcx).region_obligations == old(infcx).region_obligations,
        cache_keys_preserved(old(infcx).cache@, final(infcx).cache@),
        old(obligations)@.is_prefix_of(final(obligations)@),
        ({
            let key = spec_resolve_projection_ty(old(infcx).b(), projection_ty@);
            let c = old(infcx).cache@;
            // Every ambiguous or in-progress outcome — a cached ambiguity,
            // a recursive request, or a first attempt that assembly left
            // ambiguous — yields a fresh placeholder variable plus exactly
            // one deferred `projection == placeholder` obligation at the
            // next depth, guaranteeing forward progress for the caller; a
            // cached value is returned as is.
            &&& (((c.contains_key(key) && (c[key] is Ambiguous || c[key] is InProgress)) || (
            !c.contains_key(key) && final(infcx).cache@.contains_key(key) && final(infcx).cache@[key] is Ambiguous)) ==> (r
            matches Ok(t) && t@ == SpecTy::Infer(old(infcx).b().len() as u64) && final(obligations)@ == old(obligations)@.push(final(obligations)@.last()) && final(obligations)@.last()@
                == crate::predicate::SpecObligation {
                cause,
                param_env: env@,
                recursion_depth: crate::infer::sat_inc(depth),
                predicate: SpecPredicate::Projection(
                    SpecProjectionPredicate {
                        projection_ty: projection_ty@,
                        ty: SpecTy::Infer(old(infcx).b().len() as u64),
                    },
                ),
            }))
            &&& ((c.contains_key(key) && c[key] is NormalizedTy) ==> (r matches Ok(t) && t@
                == entry_value(c[key])))
        }),
    decreases depth_left(depth), 0int, sty_size(SpecTy::Projection(projection_ty@.trait_id, projection_ty@.item_id, projection_ty@.substs)), 1int,
{
    match opt_normalize_projection_type(
        tables,
        infcx,
        env,
        projection_ty,
        cause,
        depth,
        obligations,
    ) {
        Ok(Some(t)) => Ok(t),
        Err(NormalizeFailure::Overflow(e)) => Err(e),
        r => {
            // Ambiguity, or a recursive request: create a variable and a
            // deferred equality to resolve once more is known.
            let ty_var = infcx.next_ty_var();
            let projection = ProjectionPredicate {
                projection_ty: projection_ty.clone(),
                ty: ty_var.clone(),
            };
            let child_depth = if depth < u64::MAX {
                depth + 1
            } else {
                depth
            };
            obligations.push(
                Obligation {
                    cause,
                    param_env: env.clone(),
                    recursion_depth: child_depth,
                    predicate: Predicate::Projection(projection),
                },
            );
            Ok(ty_var)
        }
    }
}

/// One structural pass of the associated-type normalizer over a type
/// whose bindings are already substituted: descends into every subterm,
/// rewrites each projection through the cache, and unfolds opaque types
/// when the ambient reveal mode allows, raising a fatal overflow past
/// the recursion bound.
fn fold_ty(
    tables: &Tables,
    infcx: &mut InferCtxt,
    env: &ParamEnv,
    cause: u64,
    depth: u64,
    t: &Ty,
    obligations: &mut Vec<Obligation>,
) -> (r: Result<Ty, OverflowError>)
    requires
        old(infcx).wf(),
    ensures
        final(infcx).wf(),
        final(infcx).region_obligations == old(infcx).region_obligations,
        cache_keys_preserved(old(infcx).cache@, final(infcx).cache@),
        old(obligations)@.is_prefix_of(final(obligations)@),
        // A resolved, projection-free term passes through untouched.
        crate::infer::ty_resolved_in(old(infcx).b(), t@) && !crate::ty::has_projections(t@)
            ==> (r matches Ok(rt) && rt@ == t@ && *final(infcx) == *old(infcx) && final(obligations)@ == old(obligations)@),
        // A resolved projection whose arguments need no rewriting is
        // decided by the cache exactly as one normalization of its key.
        t@ matches SpecTy::Projection(tr, item, targs) ==> ((crate::infer::ty_resolved_in(
            old(infcx).b(),
            t@,
        ) && !crate::ty::has_projections_seq(targs)) ==> ({
            let key = SpecProjectionTy { trait_id: tr, item_id: item, substs: targs };
            let c = old(infcx).cache@;
            &&& ((c.contains_key(key) && c[key] is NormalizedTy) ==> (r matches Ok(rt) && rt@
                == entry_value(c[key])))
            &&& ((c.contains_key(key) && (c[key] is Ambiguous || c[key] is InProgress)) ==> (r
            matches Ok(rt) && rt@ == SpecTy::Infer(old(infcx).b().len() as u64)))
        })),
        // A resolved opaque head whose arguments need no rewriting is
        // kept under user-facing reveal; under reveal-all it is unfolded
        // one level into its recorded definition (an unrecorded one is
        // kept too).
        t@ matches SpecTy::Opaque(od, oargs) ==> ((crate::infer::ty_resolved_in(
            old(infcx).b(),
            t@,
        ) && !crate::ty::has_projections_seq(oargs)) ==> ({
            &&& (env.reveal is UserFacing ==> (r matches Ok(rt) && rt@ == t@ && *final(infcx)
                == *old(infcx) && final(obligations)@ == old(obligations)@))
            &&& ((env.reveal is All && depth <= RECURSION_LIMIT
                && crate::tables::spec_first_key_index(tables.opaques@, od) is None) ==> (r
            matches Ok(rt) && rt@ == t@ && *final(infcx) == *old(infcx) && final(obligations)@
                == old(obligations)@))
            &&& ((env.reveal is All && depth <= RECURSION_LIMIT) ==> (
            crate::tables::spec_first_key_index(tables.opaques@, od) matches Some(i) ==> ({
                let unfolded = crate::ty::subst_ty(oargs, tables.opaques@[i].1@);
                (!crate::ty::has_projections(unfolded) && !crate::ty::has_infer(unfolded)) ==> (
                r matches Ok(rt) && rt@ == unfolded)
            })))
        })),
    decreases depth_left(depth), 1int, sty_size(t@), 0int,
{
    broadcast use {
        crate::ty::lemma_view_ty_seq_len, crate::ty::lemma_view_ty_seq_index,
        crate::ty::lemma_occurs_seq, crate::ty::lemma_has_projections_seq,
    };

    proof {
        if crate::infer::ty_resolved_in(old(infcx).b(), t@) {
            crate::infer::lemma_resolve_identity(old(infcx).b(), t@);
        }
    }
    match t {
        Ty::Infer(v) => Ok(infcx.resolve_ty(t)),
        Ty::Param(p) => Ok(Ty::Param(*p)),
        Ty::Dynamic(d) => Ok(Ty::Dynamic(*d)),
        Ty::Error => Ok(Ty::Error),
        Ty::Adt(d, args) => {
            proof {
                lemma_parts_resolved(old(infcx).b(), t@, view_ty_seq(args@));
            }
            let folded = fold_tys(tables, infcx, env, cause, depth, args, obligations)?;
            Ok(Ty::Adt(*d, folded))
        }
        Ty::Closure(d, args, ret) => {
            proof {
                lemma_parts_resolved(old(infcx).b(), t@, view_ty_seq(args@));
            }
            let folded = fold_tys(tables, infcx, env, cause, depth, args, obligations)?;
            let folded_ret = fold_ty(tables, infcx, env, cause, depth, ret, obligations)?;
            Ok(Ty::Closure(*d, folded, Box::new(folded_ret)))
        }
        Ty::Generator(d, y, ret) => {
            let folded_y = fold_ty(tables, infcx, env, cause, depth, y, obligations)?;
            let folded_ret = fold_ty(tables, infcx, env, cause, depth, ret, obligations)?;
            Ok(Ty::Generator(*d, Box::new(folded_y), Box::new(folded_ret)))
        }
        Ty::Opaque(def_id, args) => {
            proof {
                lemma_parts_resolved(old(infcx).b(), t@, view_ty_seq(args@));
            }
            let folded = fold_tys(tables, infcx, env, cause, depth, args, obligations)?;
            match env.reveal {
                Reveal::UserFacing => {
                    // Only unfold opaque types after type checking.
                    Ok(Ty::Opaque(*def_id, folded))
                }
                Reveal::All => {
                    if depth > RECURSION_LIMIT {
                        // A self-referential opaque type: fatal.
                        return Err(
                            OverflowError {
                                obligation: Obligation {
                                    cause,
                                    param_env: env.clone(),
                                    recursion_depth: depth,
                                    predicate: Predicate::WellFormed(Ty::Opaque(*def_id, folded)),
                                },
                            },
                        );
                    }
                    match tables.lookup_opaque(*def_id) {
                        Some(i) => {
                            let concrete = ty_subst(&folded, &tables.opaques[i].1);
                            proof {
                                if !crate::ty::has_infer(concrete@) {
                                    crate::infer::lemma_no_infer_resolved(infcx.b(), concrete@);
                                }
                            }
                            fold_ty(tables, infcx, env, cause, depth + 1, &concrete, obligations)
                        }
                        None => Ok(Ty::Opaque(*def_id, folded)),
                    }
                }
            }
        }
        Ty::Projection(tr, item, args) => {
            proof {
                lemma_parts_resolved(old(infcx).b(), t@, view_ty_seq(args@));
            }
            let folded = fold_tys(tables, infcx, env, cause, depth, args, obligations)?;
            let projection = ProjectionTy { trait_id: *tr, item_id: *item, substs: folded };
            proof {
                if crate::infer::ty_resolved_in(old(infcx).b(), t@)
                    && !crate::ty::has_projections_seq(view_ty_seq(args@)) {
                    crate::infer::lemma_resolve_identity_seq(
                        old(infcx).b(),
                        view_ty_seq(args@),
                    );
                    assert(spec_resolve_projection_ty(infcx.b(), projection@)
                        =~= SpecProjectionTy {
                        trait_id: *tr,
                        item_id: *item,
                        substs: view_ty_seq(args@),
                    });
                }
            }
            normalize_projection_type(
                tables,
                infcx,
                env,
                &projection,
                cause,
                depth,
                obligations,
            )
        }
    }
}

/// The arguments of a resolved term are themselves resolved.
proof fn lemma_parts_resolved(b: Seq<Option<SpecTy>>, t: SpecTy, parts: Seq<SpecTy>)
    requires
        t matches SpecTy::Adt(d, a) ==> a == parts,
        t matches SpecTy::Opaque(d, a) ==> a == parts,
        t matches SpecTy::Projection(tr, it, a) ==> a == parts,
        t matches SpecTy::Closure(d, a, ret) ==> a == parts,
    ensures
        crate::infer::ty_resolved_in(b, t) && (t is Adt || t is Opaque || t is Projection
            || t is Closure) ==> crate::infer::seq_resolved_in(b, parts),
{
    broadcast use crate::ty::lemma_occurs_seq;

    if crate::infer::ty_resolved_in(b, t) && (t is Adt || t is Opaque || t is Projection
        || t is Closure) {
        assert forall|u: u64| crate::ty::occurs_seq(u, parts) implies !crate::infer::is_bound(
            b,
            u,
        ) by {
            assert(crate::ty::occurs(u, t));
        }
    }
}

/// The normalizer over a list of types, elementwise.
fn fold_tys(
    tables: &Tables,
    infcx: &mut InferCtxt,
    env: &ParamEnv,
    cause: u64,
    depth: u64,
    tys: &Vec<Ty>,
    obligations: &mut Vec<Obligation>,
) -> (r: Result<Vec<Ty>, OverflowError>)
    requires
        old(infcx).wf(),
    ensures
        final(infcx).wf(),
        final(infcx).region_obligations == old(infcx).region_obligations,
        cache_keys_preserved(old(infcx).cache@, final(infcx).cache@),
        old(obligations)@.is_prefix_of(final(obligations)@),
        // Resolved, projection-free arguments pass through untouched.
        crate::infer::seq_resolved_in(old(infcx).b(), view_ty_seq(tys@))
            && !crate::ty::has_projections_seq(view_ty_seq(tys@)) ==> (r matches Ok(rv)
            && view_ty_seq(rv@) == view_ty_seq(tys@) && *final(infcx) == *old(infcx) && final(obligations)@ == old(obligations)@),
    decreases depth_left(depth), 1int, crate::ty::sty_size_seq(view_ty_seq(tys@)), 1int,
{
    broadcast use {
        crate::ty::lemma_view_ty_seq_len, crate::ty::lemma_view_ty_seq_index,
        crate::ty::lemma_sty_size_seq_index, crate::ty::lemma_occurs_seq,
        crate::ty::lemma_has_projections_seq,
    };

    let mut out: Vec<Ty> = Vec::new();
    let n = tys.len();
    let ghost guard = crate::infer::seq_resolved_in(old(infcx).b(), view_ty_seq(tys@))
        && !crate::ty::has_projections_seq(view_ty_seq(tys@));
    for i in 0..n
        invariant
            n == tys@.len(),
            infcx.wf(),
            infcx.region_obligations == old(infcx).region_obligations,
            cache_keys_preserved(old(infcx).cache@, infcx.cache@),
            old(obligations)@.is_prefix_of(obligations@),
            guard == (crate::infer::seq_resolved_in(old(infcx).b(), view_ty_seq(tys@))
                && !crate::ty::has_projections_seq(view_ty_seq(tys@))),
            guard ==> (*infcx == *old(infcx) && obligations@ == old(obligations)@ && out@.len()
                == i && (forall|j: int|
                0 <= j < i ==> crate::ty::view_ty(#[trigger] out@[j]) == crate::ty::view_ty(
                    tys@[j],
                ))),
    {
        proof {
            assert(view_ty_seq(tys@)[i as int] == crate::ty::view_ty(tys@[i as int]));
            assert(sty_size(view_ty_seq(tys@)[i as int]) <= crate::ty::sty_size_seq(
                view_ty_seq(tys@),
            ));
            if guard {
                assert forall|u: u64|
                    crate::ty::occurs(u, tys@[i as int]@) implies !crate::infer::is_bound(
                    old(infcx).b(),
                    u,
                ) by {
                    assert(view_ty_seq(tys@)[i as int] == tys@[i as int]@);
                    assert(crate::ty::occurs(u, view_ty_seq(tys@)[i as int]));
                    assert(crate::ty::occurs_seq(u, view_ty_seq(tys@)));
                }
                assert(!crate::ty::has_projections(tys@[i as int]@)) by {
                    if crate::ty::has_projections(tys@[i as int]@) {
                        assert(crate::ty::has_projections(view_ty_seq(tys@)[i as int]));
                        assert(crate::ty::has_projections_seq(view_ty_seq(tys@)));
                    }
                }
            }
        }
        match fold_ty(tables, infcx, env, cause, depth, &tys[i], obligations) {
            Ok(t) => {
                out.push(t);
            }
            Err(e) => {
                return Err(e);
            }
        }
    }
    proof {
        if guard {
            assert(view_ty_seq(out@) =~= view_ty_seq(tys@));
        }
    }
    Ok(out)
}

/// Why `project_and_unify_type` failed.
#[derive(Debug)]
pub enum ProjectAndUnifyError {
    /// The projection normalized, but not to the expected type.
    Mismatched(MismatchedProjectionTypes),
    /// Fatal overflow while normalizing.
    Overflow(OverflowError),
}

/// Evaluates the constraint `<T as Trait>::Item == V`: normalizes the
/// projection and unifies the result with `V`. `Ok(Ok(None))` is
/// ambiguity, `Ok(Err(InProgress))` a recursive request for the same
/// projection; a mismatch rolls the bindings back.
pub fn project_and_unify_type(
    tables: &Tables,
    infcx: &mut InferCtxt,
    env: &ParamEnv,
    cause: u64,
    depth: u64,
    pp: &ProjectionPredicate,
) -> (r: Result<Result<Option<Vec<Obligation>>, InProgress>, ProjectAndUnifyError>)
    requires
        old(infcx).wf(),
    ensures
        final(infcx).wf(),
        final(infcx).region_obligations == old(infcx).region_obligations,
        cache_keys_preserved(old(infcx).cache@, final(infcx).cache@),
        // A mismatch commits nothing: the bindings are rolled back.
        r matches Err(ProjectAndUnifyError::Mismatched(m)) ==> final(infcx).b() == old(infcx).b(),
        ({
            let key = spec_resolve_projection_ty(old(infcx).b(), pp.projection_ty@);
            let c = old(infcx).cache@;
            // A recursive request for a projection already being
            // normalized answers in-progress; a cached ambiguity answers
            // ambiguous; neither touches anything.
            &&& ((c.contains_key(key) && c[key] is InProgress) ==> (r matches Ok(rr) && rr
                is Err && *final(infcx) == *old(infcx)))
            &&& ((c.contains_key(key) && c[key] is Ambiguous) ==> (r matches Ok(rr)
                && rr == Result::<Option<Vec<Obligation>>, InProgress>::Ok(None) && *final(infcx)
                == *old(infcx)))
            // An unresolved self type, not hidden behind a projection or
            // opaque head, with no ambient projection bound for the item:
            // the projection normalizes to itself, which is no progress —
            // the constraint stays open and nothing is bound.
            &&& ((!c.contains_key(key) && depth <= RECURSION_LIMIT && !crate::ty::has_error_seq(
                key.substs,
            ) && key.substs.len() > 0 && key.substs[0] is Infer && (forall|i: int|
                0 <= i < env.caller_bounds@.len() ==> !spec_scans_item(
                    (#[trigger] env.caller_bounds@[i])@,
                    key.item_id,
                ))) ==> (r matches Ok(rr) && rr matches Ok(o) && o is None && final(infcx).b()
                == old(infcx).b()))
        }),
{
    let snapshot = infcx.snapshot();
    proof {
        assert(store_wf(view_bindings(snapshot@)));
    }
    let mut obligations: Vec<Obligation> = Vec::new();
    let normalized_ty = match opt_normalize_projection_type(
        tables,
        infcx,
        env,
        &pp.projection_ty,
        cause,
        depth,
        &mut obligations,
    ) {
        Ok(Some(n)) => n,
        Ok(None) => {
            return Ok(Ok(None));
        }
        Err(NormalizeFailure::InProgress) => {
            return Ok(Err(InProgress {}));
        }
        Err(NormalizeFailure::Overflow(e)) => {
            return Err(ProjectAndUnifyError::Overflow(e));
        }
    };
    proof {
        broadcast use crate::ty::lemma_occurs_seq;

        // Where normalization handed back the resolved projection itself,
        // that term is fully resolved and survives resolution unchanged.
        let key = spec_resolve_projection_ty(old(infcx).b(), pp.projection_ty@);
        crate::infer::lemma_resolve_resolved_seq(old(infcx).b(), pp.projection_ty@.substs);
        if infcx.b() == old(infcx).b() && normalized_ty@ == key.as_ty() {
            assert(crate::infer::ty_resolved_in(infcx.b(), key.as_ty())) by {
                assert forall|u: u64|
                    crate::ty::occurs(u, key.as_ty()) implies !crate::infer::is_bound(
                    infcx.b(),
                    u,
                ) by {
                    assert(crate::ty::occurs_seq(u, key.substs));
                }
            }
            crate::infer::lemma_resolve_identity(infcx.b(), key.as_ty());
            crate::infer::lemma_resolve_identity_seq(infcx.b(), key.substs);
        }
    }
    // Normalization that hands the projection back unchanged made no
    // progress: the caller keeps the obligation pending rather than
    // equating the projection with itself.
    let resolved_projection = infcx.resolve_projection_ty(&pp.projection_ty);
    let unchanged = resolved_projection.as_ty();
    let resolved_normalized = infcx.resolve_ty(&normalized_ty);
    if crate::ty::ty_eq(&resolved_normalized, &unchanged) {
        return Ok(Ok(None));
    }
    match infcx.unify(&normalized_ty, &pp.ty) {
        Ok(preds) => {
            let child_depth = if depth < u64::MAX {
                depth + 1
            } else {
                depth
            };
            let mut inferred = obligations_from(&preds, env, cause, child_depth);
            obligations.append(&mut inferred);
            Ok(Ok(Some(obligations)))
        }
        Err(_) => {
            infcx.rollback(snapshot);
            Err(ProjectAndUnifyError::Mismatched(MismatchedProjectionTypes {}))
        }
    }
}

/// Normalizes every projection and revealable opaque type nested inside
/// `value`, appending the incurred obligations to `obligations`. A value
/// that is fully resolved and projection-free comes back unchanged with
/// nothing appended and nothing else touched.
pub fn normalize_with_depth_to(
    tables: &Tables,
    infcx: &mut InferCtxt,
    env: &ParamEnv,
    cause: u64,
    depth: u64,
    value: &Ty,
    obligations: &mut Vec<Obligation>,
) -> (r: Result<Ty, OverflowError>)
    requires
        old(infcx).wf(),
    ensures
        final(infcx).wf(),
        final(infcx).region_obligations == old(infcx).region_obligations,
        cache_keys_preserved(old(infcx).cache@, final(infcx).cache@),
        old(obligations)@.is_prefix_of(final(obligations)@),
        !crate::ty::has_projections(crate::infer::spec_resolve(old(infcx).b(), value@))
            ==> (r matches Ok(t) && t@ == crate::infer::spec_resolve(old(infcx).b(), value@)
            && *final(infcx) == *old(infcx) && final(obligations)@ == old(obligations)@),
        crate::infer::ty_resolved_in(old(infcx).b(), value@) && !crate::ty::has_projections(
            value@,
        ) ==> (r matches Ok(t) && t@ == value@ && *final(infcx) == *old(infcx) && final(obligations)@ == old(obligations)@),
        // A value that resolves to a projection with nothing further to
        // rewrite inside is decided by the projection cache exactly as
        // one normalization of its key.
        crate::infer::spec_resolve(old(infcx).b(), value@) matches SpecTy::Projection(
            tr,
            item,
            targs,
        ) ==> (!crate::ty::has_projections_seq(targs) ==> ({
            let key = SpecProjectionTy { trait_id: tr, item_id: item, substs: targs };
            let c = old(infcx).cache@;
            &&& ((c.contains_key(key) && c[key] is NormalizedTy) ==> (r matches Ok(t) && t@
                == entry_value(c[key])))
            &&& ((c.contains_key(key) && (c[key] is Ambiguous || c[key] is InProgress)) ==> (r
            matches Ok(t) && t@ == SpecTy::Infer(old(infcx).b().len() as u64)))
        })),
        // An opaque head is never unfolded under user-facing reveal: with
        // nothing further to rewrite inside, it comes back untouched.
        crate::infer::spec_resolve(old(infcx).b(), value@) matches SpecTy::Opaque(od, oargs)
            ==> ((env.reveal is UserFacing && !crate::ty::has_projections_seq(oargs)) ==> (r
        matches Ok(t) && t@ == crate::infer::spec_resolve(old(infcx).b(), value@))),
{
    proof {
        if crate::infer::ty_resolved_in(old(infcx).b(), value@) {
            crate::infer::lemma_resolve_identity(old(infcx).b(), value@);
        }
        crate::infer::lemma_resolve_resolved(old(infcx).b(), value@);
    }
    let resolved = infcx.resolve_ty(value);
    if !ty_has_projections(&resolved) {
        // The fast path: nothing to rewrite, nothing to allocate.
        return Ok(resolved);
    }
    fold_ty(tables, infcx, env, cause, depth, &resolved, obligations)
}

/// As `normalize_with_depth_to`, collecting the incurred obligations.
pub fn normalize_with_depth(
    tables: &Tables,
    infcx: &mut InferCtxt,
    env: &ParamEnv,
    cause: u64,
    depth: u64,
    value: &Ty,
) -> (r: Result<(Ty, Vec<Obligation>), OverflowError>)
    requires
        old(infcx).wf(),
    ensures
        final(infcx).wf(),
        final(infcx).region_obligations == old(infcx).region_obligations,
        cache_keys_preserved(old(infcx).cache@, final(infcx).cache@),
        crate::infer::ty_resolved_in(old(infcx).b(), value@) && !crate::ty::has_projections(
            value@,
        ) ==> (r matches Ok(p) && p.0@ == value@ && p.1@.len() == 0 && *final(infcx) == *old(infcx)),
{
    let mut obligations: Vec<Obligation> = Vec::new();
    let value = normalize_with_depth_to(tables, infcx, env, cause, depth, value, &mut obligations)?;
    Ok((value, obligations))
}

/// Normalizes every projection nested inside `value`, appending the
/// incurred obligations.
pub fn normalize_to(
    tables: &Tables,
    infcx: &mut InferCtxt,
    env: &ParamEnv,
    cause: u64,
    value: &Ty,
    obligations: &mut Vec<Obligation>,
) -> (r: Result<Ty, OverflowError>)
    requires
        old(infcx).wf(),
    ensures
        final(infcx).wf(),
        final(infcx).region_obligations == old(infcx).region_obligations,
        cache_keys_preserved(old(infcx).cache@, final(infcx).cache@),
        old(obligations)@.is_prefix_of(final(obligations)@),
        crate::infer::ty_resolved_in(old(infcx).b(), value@) && !crate::ty::has_projections(
            value@,
        ) ==> (r matches Ok(t) && t@ == value@ && *final(infcx) == *old(infcx) && final(obligations)@ == old(obligations)@),
{
    normalize_with_depth_to(tables, infcx, env, cause, 0, value, obligations)
}

/// Normalizes every projection nested inside `value`, collecting the
/// incurred obligations. Normalizing an already fully normalized value
/// returns it unchanged with zero obligations.
pub fn normalize(
    tables: &Tables,
    infcx: &mut InferCtxt,
    env: &ParamEnv,
    cause: u64,
    value: &Ty,
) -> (r: Result<(Ty, Vec<Obligation>), OverflowError>)
    requires
        old(infcx).wf(),
    ensures
        final(infcx).wf(),
        final(infcx).region_obligations == old(infcx).region_obligations,
        cache_keys_preserved(old(infcx).cache@, final(infcx).cache@),
        crate::infer::ty_resolved_in(old(infcx).b(), value@) && !crate::ty::has_projections(
            value@,
        ) ==> (r matches Ok(p) && p.0@ == value@ && p.1@.len() == 0 && *final(infcx) == *old(infcx)),
{
    normalize_with_depth(tables, infcx, env, cause, 0, value)
}

/// Cache soundness: once a normalization has cached key `k` as a
/// normalized value — which `opt_normalize_projection_type` does exactly
/// when it returns that value — a second normalization of the same key,
/// before any inference progress, yields the identical result, and the
/// assembly counter shows that candidate assembly did not run again.
pub proof fn lemma_cache_soundness(
    cache1: Map<SpecProjectionTy, SpecCacheEntry>,
    k: SpecProjectionTy,
    v: SpecTy,
    outcome2: Result<Option<SpecTy>, ()>,
    count1: u64,
    count2: u64,
)
    requires
        cache1.contains_key(k),
        cache1[k] is NormalizedTy,
        entry_value(cache1[k]) == v,
        cache_hit_outcome(cache1, k, outcome2, count1, count2),
    ensures
        outcome2 == Ok::<Option<SpecTy>, ()>(Some(v)),
        count2 == count1,
{
}

/// Ambiguity monotonicity: once key `k` is cached as ambiguous, querying
/// it again before any of its inference variables change yields
/// ambiguous again, without re-running candidate assembly.
pub proof fn lemma_ambiguity_monotonic(
    cache1: Map<SpecProjectionTy, SpecCacheEntry>,
    k: SpecProjectionTy,
    outcome2: Result<Option<SpecTy>, ()>,
    count1: u64,
    count2: u64,
)
    requires
        cache1.contains_key(k),
        cache1[k] is Ambiguous,
        cache_hit_outcome(cache1, k, outcome2, count1, count2),
    ensures
        outcome2 == Ok::<Option<SpecTy>, ()>(None),
        count2 == count1,
{
}

/// The priority rule: given one ambient-bound candidate and one
/// impl-derived candidate for the same projection, assembly keeps the
/// ambient-bound candidate and never reports ambiguity — whichever order
/// the two are pushed in.
pub proof fn lemma_param_env_priority(p: SpecProjectionPredicate, src: crate::select::SpecImplSource)
    ensures
        ({
            let (s1, kept1) = spec_push_candidate(
                SpecCandidateSet::NoCandidate,
                SpecCandidate::ParamEnv(p),
            );
            let (s2, kept2) = spec_push_candidate(s1, SpecCandidate::Select(src));
            s2 == SpecCandidateSet::Single(SpecCandidate::ParamEnv(p)) && kept1 && !kept2
        }),
        ({
            let (s1, kept1) = spec_push_candidate(
                SpecCandidateSet::NoCandidate,
                SpecCandidate::Select(src),
            );
            let (s2, kept2) = spec_push_candidate(s1, SpecCandidate::ParamEnv(p));
            s2 == SpecCandidateSet::Single(SpecCandidate::ParamEnv(p)) && kept1 && kept2
        }),
        // A duplicate candidate of any kind, impl-derived included, is
        // silently dropped and never causes ambiguity.
        spec_push_candidate(
            SpecCandidateSet::Single(SpecCandidate::Select(src)),
            SpecCandidate::Select(src),
        ) == (SpecCandidateSet::Single(SpecCandidate::Select(src)), false),
{
}

} // verus!
