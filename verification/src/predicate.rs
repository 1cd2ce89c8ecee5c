//! Predicates: the type-level propositions the engine proves, and the
//! obligations that carry them together with their provenance and ambient
//! assumptions.

use vstd::prelude::*;

use crate::ty::{
    clone_tys, has_infer, has_infer_seq, has_projections, has_projections_seq, infer_vars_seq,
    subst_ty, subst_ty_seq, tys_eq, tys_have_infer, tys_have_projections, tys_subst, view_ty,
    view_ty_seq, SpecTy, Ty,
};

verus! {

/// Whether opaque types are unfolded to their concrete definition during
/// normalization.
#[derive(Clone, Copy, PartialEq, Eq, Structural, Debug)]
pub enum Reveal {
    /// Leave opaque types alone (type checking).
    UserFacing,
    /// Unfold opaque types (late-compilation passes).
    All,
}

/// How a closure may be called.
#[derive(Clone, Copy, PartialEq, Eq, Structural, Debug)]
pub enum ClosureKind {
    Fn,
    FnMut,
    FnOnce,
}

impl ClosureKind {
    /// Whether a closure of kind `self` can stand where kind `other`
    /// is demanded.
    pub open spec fn spec_extends(self, other: ClosureKind) -> bool {
        match (self, other) {
            (ClosureKind::Fn, _) => true,
            (ClosureKind::FnMut, ClosureKind::FnMut) => true,
            (ClosureKind::FnMut, ClosureKind::FnOnce) => true,
            (ClosureKind::FnOnce, ClosureKind::FnOnce) => true,
            _ => false,
        }
    }

    pub fn extends(self, other: ClosureKind) -> (r: bool)
        ensures
            r == self.spec_extends(other),
    {
        match (self, other) {
            (ClosureKind::Fn, _) => true,
            (ClosureKind::FnMut, ClosureKind::FnMut) => true,
            (ClosureKind::FnMut, ClosureKind::FnOnce) => true,
            (ClosureKind::FnOnce, ClosureKind::FnOnce) => true,
            _ => false,
        }
    }
}

/// Whether dispatching a closure of kind `actual` through a demanded kind
/// `trait_kind` needs a by-value adapter shim; `Err` means the dispatch is
/// impossible.
pub open spec fn spec_needs_fn_once_adapter_shim(
    actual: ClosureKind,
    trait_kind: ClosureKind,
) -> Result<bool, ()> {
    match (actual, trait_kind) {
        (ClosureKind::Fn, ClosureKind::Fn) => Ok(false),
        (ClosureKind::FnMut, ClosureKind::FnMut) => Ok(false),
        (ClosureKind::FnOnce, ClosureKind::FnOnce) => Ok(false),
        (ClosureKind::Fn, ClosureKind::FnMut) => Ok(false),
        (ClosureKind::Fn, ClosureKind::FnOnce) => Ok(true),
        (ClosureKind::FnMut, ClosureKind::FnOnce) => Ok(true),
        _ => Err(()),
    }
}

/// A `Fn`/`FnMut` closure called through `FnOnce` needs a shim that takes
/// `self` by value; calling through a weaker kind than the closure's own
/// is impossible.
pub fn needs_fn_once_adapter_shim(
    actual_closure_kind: ClosureKind,
    trait_closure_kind: ClosureKind,
) -> (r: Result<bool, ()>)
    ensures
        r == spec_needs_fn_once_adapter_shim(actual_closure_kind, trait_closure_kind),
{
    match (actual_closure_kind, trait_closure_kind) {
        (ClosureKind::Fn, ClosureKind::Fn)
        | (ClosureKind::FnMut, ClosureKind::FnMut)
        | (ClosureKind::FnOnce, ClosureKind::FnOnce) => Ok(false),
        (ClosureKind::Fn, ClosureKind::FnMut) => Ok(false),
        (ClosureKind::Fn, ClosureKind::FnOnce) => Ok(true),
        (ClosureKind::FnMut, ClosureKind::FnOnce) => Ok(true),
        (ClosureKind::FnMut, _) => Err(()),
        (ClosureKind::FnOnce, _) => Err(()),
    }
}

/// A constant: either an evaluated plain value or a reference to a
/// definition the const-evaluation capability can resolve.
#[derive(Clone, Copy, PartialEq, Eq, Structural, Debug)]
pub enum Const {
    Value(u64),
    Unevaluated(u64),
}

/// The view of a trait reference `args[0]: Trait<args[1..]>`.
pub struct SpecTraitRef {
    pub trait_id: u64,
    pub substs: Seq<SpecTy>,
}

/// A trait reference: `substs[0]` is the self type.
#[derive(PartialEq, Eq, Debug)]
pub struct TraitRef {
    pub trait_id: u64,
    pub substs: Vec<Ty>,
}

impl View for TraitRef {
    type V = SpecTraitRef;

    open spec fn view(&self) -> SpecTraitRef {
        SpecTraitRef { trait_id: self.trait_id, substs: view_ty_seq(self.substs@) }
    }
}

impl Clone for TraitRef {
    fn clone(&self) -> (r: TraitRef)
        ensures
            r@ == self@,
    {
        TraitRef { trait_id: self.trait_id, substs: clone_tys(&self.substs) }
    }
}

impl TraitRef {
    pub open spec fn spec_self_ty(self) -> SpecTy
        recommends
            self@.substs.len() > 0,
    {
        self@.substs[0]
    }
}

/// Structural equality of trait references, decided on the views.
pub fn trait_ref_eq(a: &TraitRef, b: &TraitRef) -> (r: bool)
    ensures
        r == (a@ == b@),
{
    let r = a.trait_id == b.trait_id && tys_eq(&a.substs, &b.substs);
    proof {
        if a@.trait_id == b@.trait_id && a@.substs == b@.substs {
            assert(a@ =~= b@);
        }
    }
    r
}

/// The view of an associated-type reference
/// `<substs[0] as Trait<substs[1..]>>::Item`.
pub struct SpecProjectionTy {
    pub trait_id: u64,
    pub item_id: u64,
    pub substs: Seq<SpecTy>,
}

/// An associated-type reference; the projection cache is keyed by the
/// fully resolved form of this value.
#[derive(PartialEq, Eq, Debug)]
pub struct ProjectionTy {
    pub trait_id: u64,
    pub item_id: u64,
    pub substs: Vec<Ty>,
}

impl View for ProjectionTy {
    type V = SpecProjectionTy;

    open spec fn view(&self) -> SpecProjectionTy {
        SpecProjectionTy {
            trait_id: self.trait_id,
            item_id: self.item_id,
            substs: view_ty_seq(self.substs@),
        }
    }
}

impl Clone for ProjectionTy {
    fn clone(&self) -> (r: ProjectionTy)
        ensures
            r@ == self@,
    {
        ProjectionTy {
            trait_id: self.trait_id,
            item_id: self.item_id,
            substs: clone_tys(&self.substs),
        }
    }
}

impl SpecProjectionTy {
    /// The trait bound that justifies this projection.
    pub open spec fn trait_ref(self) -> SpecTraitRef {
        SpecTraitRef { trait_id: self.trait_id, substs: self.substs }
    }

    /// The same reference as an unresolved type term.
    pub open spec fn as_ty(self) -> SpecTy {
        SpecTy::Projection(self.trait_id, self.item_id, self.substs)
    }
}

impl ProjectionTy {
    /// The trait bound that justifies this projection.
    pub fn trait_ref(&self) -> (r: TraitRef)
        ensures
            r@ == self@.trait_ref(),
    {
        TraitRef { trait_id: self.trait_id, substs: clone_tys(&self.substs) }
    }

    /// The same reference as an unresolved type term.
    pub fn as_ty(&self) -> (r: Ty)
        ensures
            r@ == self@.as_ty(),
    {
        Ty::Projection(self.trait_id, self.item_id, clone_tys(&self.substs))
    }
}

/// Structural equality of projection references, decided on the views.
pub fn projection_ty_eq(a: &ProjectionTy, b: &ProjectionTy) -> (r: bool)
    ensures
        r == (a@ == b@),
{
    let r = a.trait_id == b.trait_id && a.item_id == b.item_id && tys_eq(&a.substs, &b.substs);
    proof {
        if a@.trait_id == b@.trait_id && a@.item_id == b@.item_id && a@.substs == b@.substs {
            assert(a@ =~= b@);
        }
    }
    r
}

/// The view of a projection predicate.
pub struct SpecProjectionPredicate {
    pub projection_ty: SpecProjectionTy,
    pub ty: SpecTy,
}

/// `<.. as Trait>::Item == ty`.
#[derive(PartialEq, Eq, Debug)]
pub struct ProjectionPredicate {
    pub projection_ty: ProjectionTy,
    pub ty: Ty,
}

impl View for ProjectionPredicate {
    type V = SpecProjectionPredicate;

    open spec fn view(&self) -> SpecProjectionPredicate {
        SpecProjectionPredicate { projection_ty: self.projection_ty@, ty: self.ty@ }
    }
}

impl Clone for ProjectionPredicate {
    fn clone(&self) -> (r: ProjectionPredicate)
        ensures
            r@ == self@,
    {
        ProjectionPredicate { projection_ty: self.projection_ty.clone(), ty: self.ty.clone() }
    }
}

/// The view of a predicate.
pub enum SpecPredicate {
    Trait(SpecTraitRef),
    RegionOutlives(u64, u64),
    TypeOutlives(SpecTy, u64, bool),
    Projection(SpecProjectionPredicate),
    WellFormed(SpecTy),
    ObjectSafe(u64),
    ClosureKind(u64, ClosureKind),
    Subtype(SpecTy, SpecTy),
    ConstEvaluatable(u64),
    ConstEquate(Const, Const),
}

/// A type-level proposition to prove.
#[derive(PartialEq, Eq, Debug)]
pub enum Predicate {
    /// `substs[0]: Trait<substs[1..]>`.
    Trait(TraitRef),
    /// `'a: 'b`, by region id.
    RegionOutlives(u64, u64),
    /// `T: 'a`; the flag says the predicate quantifies over its region,
    /// which is conservatively treated as `T: 'static`.
    TypeOutlives(Ty, u64, bool),
    /// `<T as Trait>::Item == U`.
    Projection(ProjectionPredicate),
    /// The type is well-formed.
    WellFormed(Ty),
    /// The trait can be used as a trait object.
    ObjectSafe(u64),
    /// The closure with this definition id has (at least) the given kind.
    ClosureKind(u64, ClosureKind),
    /// The first type is a subtype of the second.
    Subtype(Ty, Ty),
    /// The constant with this definition id can be evaluated.
    ConstEvaluatable(u64),
    /// The two constants are equal.
    ConstEquate(Const, Const),
}

pub open spec fn view_predicate(p: Predicate) -> SpecPredicate {
    match p {
        Predicate::Trait(tr) => SpecPredicate::Trait(tr@),
        Predicate::RegionOutlives(a, b) => SpecPredicate::RegionOutlives(a, b),
        Predicate::TypeOutlives(t, r, hr) => SpecPredicate::TypeOutlives(view_ty(t), r, hr),
        Predicate::Projection(pp) => SpecPredicate::Projection(pp@),
        Predicate::WellFormed(t) => SpecPredicate::WellFormed(view_ty(t)),
        Predicate::ObjectSafe(d) => SpecPredicate::ObjectSafe(d),
        Predicate::ClosureKind(d, k) => SpecPredicate::ClosureKind(d, k),
        Predicate::Subtype(a, b) => SpecPredicate::Subtype(view_ty(a), view_ty(b)),
        Predicate::ConstEvaluatable(d) => SpecPredicate::ConstEvaluatable(d),
        Predicate::ConstEquate(a, b) => SpecPredicate::ConstEquate(a, b),
    }
}

impl View for Predicate {
    type V = SpecPredicate;

    open spec fn view(&self) -> SpecPredicate {
        view_predicate(*self)
    }
}

impl Clone for Predicate {
    fn clone(&self) -> (r: Predicate)
        ensures
            r@ == self@,
    {
        match self {
            Predicate::Trait(tr) => Predicate::Trait(tr.clone()),
            Predicate::RegionOutlives(a, b) => Predicate::RegionOutlives(*a, *b),
            Predicate::TypeOutlives(t, r, hr) => Predicate::TypeOutlives(t.clone(), *r, *hr),
            Predicate::Projection(pp) => Predicate::Projection(pp.clone()),
            Predicate::WellFormed(t) => Predicate::WellFormed(t.clone()),
            Predicate::ObjectSafe(d) => Predicate::ObjectSafe(*d),
            Predicate::ClosureKind(d, k) => Predicate::ClosureKind(*d, *k),
            Predicate::Subtype(a, b) => Predicate::Subtype(a.clone(), b.clone()),
            Predicate::ConstEvaluatable(d) => Predicate::ConstEvaluatable(*d),
            Predicate::ConstEquate(a, b) => Predicate::ConstEquate(*a, *b),
        }
    }
}

pub open spec fn view_predicate_seq(s: Seq<Predicate>) -> Seq<SpecPredicate>
    decreases s,
{
    if s.len() == 0 {
        Seq::empty()
    } else {
        seq![view_predicate(s[0])] + view_predicate_seq(s.drop_first())
    }
}

pub broadcast proof fn lemma_view_predicate_seq_len(s: Seq<Predicate>)
    ensures
        #[trigger] view_predicate_seq(s).len() == s.len(),
    decreases s,
{
    if s.len() != 0 {
        lemma_view_predicate_seq_len(s.drop_first());
    }
}

pub broadcast proof fn lemma_view_predicate_seq_index(s: Seq<Predicate>, i: int)
    requires
        0 <= i < s.len(),
    ensures
        #[trigger] view_predicate_seq(s)[i] == view_predicate(s[i]),
    decreases s,
{
    broadcast use vstd::seq::group_seq_axioms;

    if i > 0 {
        lemma_view_predicate_seq_index(s.drop_first(), i - 1);
        lemma_view_predicate_seq_len(s.drop_first());
        assert(view_predicate_seq(s)[i] == view_predicate_seq(s.drop_first())[i - 1]);
        assert(s.drop_first()[i - 1] == s[i]);
    } else {
        assert(view_predicate_seq(s)[0] == view_predicate(s[0]));
    }
}

/// A deep copy of a list of predicates, preserving the view elementwise.
pub fn clone_predicates(ps: &Vec<Predicate>) -> (r: Vec<Predicate>)
    ensures
        view_predicate_seq(r@) == view_predicate_seq(ps@),
        r@.len() == ps@.len(),
{
    broadcast use {lemma_view_predicate_seq_len, lemma_view_predicate_seq_index};

    let mut out: Vec<Predicate> = Vec::new();
    let n = ps.len();
    for i in 0..n
        invariant
            n == ps@.len(),
            out@.len() == i,
            forall|j: int| 0 <= j < i ==> view_predicate(out@[j]) == view_predicate(ps@[j]),
    {
        out.push(ps[i].clone());
    }
    proof {
        assert(view_predicate_seq(out@) =~= view_predicate_seq(ps@));
    }
    out
}

/// Structural equality of predicates, decided on the views.
pub fn predicate_eq(a: &Predicate, b: &Predicate) -> (r: bool)
    ensures
        r == (a@ == b@),
{
    match (a, b) {
        (Predicate::Trait(x), Predicate::Trait(y)) => trait_ref_eq(x, y),
        (Predicate::RegionOutlives(a1, b1), Predicate::RegionOutlives(a2, b2)) => {
            a1 == a2 && b1 == b2
        }
        (Predicate::TypeOutlives(t1, r1, h1), Predicate::TypeOutlives(t2, r2, h2)) => {
            r1 == r2 && h1 == h2 && crate::ty::ty_eq(t1, t2)
        }
        (Predicate::Projection(p1), Predicate::Projection(p2)) => {
            let r = projection_ty_eq(&p1.projection_ty, &p2.projection_ty) && crate::ty::ty_eq(
                &p1.ty,
                &p2.ty,
            );
            proof {
                if p1@.projection_ty == p2@.projection_ty && p1@.ty == p2@.ty {
                    assert(p1@ =~= p2@);
                }
            }
            r
        }
        (Predicate::WellFormed(t1), Predicate::WellFormed(t2)) => crate::ty::ty_eq(t1, t2),
        (Predicate::ObjectSafe(d1), Predicate::ObjectSafe(d2)) => d1 == d2,
        (Predicate::ClosureKind(d1, k1), Predicate::ClosureKind(d2, k2)) => d1 == d2 && k1 == k2,
        (Predicate::Subtype(a1, b1), Predicate::Subtype(a2, b2)) => {
            crate::ty::ty_eq(a1, a2) && crate::ty::ty_eq(b1, b2)
        }
        (Predicate::ConstEvaluatable(d1), Predicate::ConstEvaluatable(d2)) => d1 == d2,
        (Predicate::ConstEquate(a1, b1), Predicate::ConstEquate(a2, b2)) => a1 == a2 && b1 == b2,
        _ => false,
    }
}

/// The view of the ambient assumptions.
pub struct SpecParamEnv {
    pub caller_bounds: Seq<SpecPredicate>,
    pub reveal: Reveal,
}

/// The ambient assumptions: the where-clauses in scope, and whether opaque
/// types may be revealed.
#[derive(PartialEq, Eq, Debug)]
pub struct ParamEnv {
    pub caller_bounds: Vec<Predicate>,
    pub reveal: Reveal,
}

impl View for ParamEnv {
    type V = SpecParamEnv;

    open spec fn view(&self) -> SpecParamEnv {
        SpecParamEnv {
            caller_bounds: view_predicate_seq(self.caller_bounds@),
            reveal: self.reveal,
        }
    }
}

impl Clone for ParamEnv {
    fn clone(&self) -> (r: ParamEnv)
        ensures
            r@ == self@,
    {
        ParamEnv { caller_bounds: clone_predicates(&self.caller_bounds), reveal: self.reveal }
    }
}

/// Structural equality of ambient environments, decided on the views.
pub fn param_env_eq(a: &ParamEnv, b: &ParamEnv) -> (r: bool)
    ensures
        r == (a@ == b@),
{
    broadcast use {lemma_view_predicate_seq_len, lemma_view_predicate_seq_index};

    if a.reveal != b.reveal {
        return false;
    }
    if a.caller_bounds.len() != b.caller_bounds.len() {
        proof {
            assert(view_predicate_seq(a.caller_bounds@).len() == a.caller_bounds@.len());
            assert(view_predicate_seq(b.caller_bounds@).len() == b.caller_bounds@.len());
        }
        return false;
    }
    let n = a.caller_bounds.len();
    for i in 0..n
        invariant
            n == a.caller_bounds@.len() == b.caller_bounds@.len(),
            forall|j: int| 0 <= j < i ==> view_predicate(a.caller_bounds@[j]) == view_predicate(
                b.caller_bounds@[j],
            ),
    {
        if !predicate_eq(&a.caller_bounds[i], &b.caller_bounds[i]) {
            proof {
                assert(view_predicate_seq(a.caller_bounds@)[i as int] != view_predicate_seq(
                    b.caller_bounds@,
                )[i as int]);
            }
            return false;
        }
    }
    proof {
        assert(view_predicate_seq(a.caller_bounds@) =~= view_predicate_seq(b.caller_bounds@));
        assert(a@ =~= b@);
    }
    true
}

/// The view of an obligation.
pub struct SpecObligation {
    pub cause: u64,
    pub param_env: SpecParamEnv,
    pub recursion_depth: u64,
    pub predicate: SpecPredicate,
}

/// A proposition to prove, with its provenance (a plain cause id), its
/// ambient assumptions, and the recursion depth at which it arose.
#[derive(PartialEq, Eq, Debug)]
pub struct Obligation {
    pub cause: u64,
    pub param_env: ParamEnv,
    pub recursion_depth: u64,
    pub predicate: Predicate,
}

impl View for Obligation {
    type V = SpecObligation;

    open spec fn view(&self) -> SpecObligation {
        SpecObligation {
            cause: self.cause,
            param_env: self.param_env@,
            recursion_depth: self.recursion_depth,
            predicate: self.predicate@,
        }
    }
}

impl Clone for Obligation {
    fn clone(&self) -> (r: Obligation)
        ensures
            r@ == self@,
    {
        let r = Obligation {
            cause: self.cause,
            param_env: self.param_env.clone(),
            recursion_depth: self.recursion_depth,
            predicate: self.predicate.clone(),
        };
        proof {
            assert(r@ =~= self@);
        }
        r
    }
}

pub open spec fn view_obligation_seq(s: Seq<Obligation>) -> Seq<SpecObligation>
    decreases s,
{
    if s.len() == 0 {
        Seq::empty()
    } else {
        seq![s[0]@] + view_obligation_seq(s.drop_first())
    }
}

pub broadcast proof fn lemma_view_obligation_seq_len(s: Seq<Obligation>)
    ensures
        #[trigger] view_obligation_seq(s).len() == s.len(),
    decreases s,
{
    if s.len() != 0 {
        lemma_view_obligation_seq_len(s.drop_first());
    }
}

pub broadcast proof fn lemma_view_obligation_seq_index(s: Seq<Obligation>, i: int)
    requires
        0 <= i < s.len(),
    ensures
        #[trigger] view_obligation_seq(s)[i] == s[i]@,
    decreases s,
{
    broadcast use vstd::seq::group_seq_axioms;

    if i > 0 {
        lemma_view_obligation_seq_index(s.drop_first(), i - 1);
        lemma_view_obligation_seq_len(s.drop_first());
        assert(view_obligation_seq(s)[i] == view_obligation_seq(s.drop_first())[i - 1]);
        assert(s.drop_first()[i - 1] == s[i]);
    } else {
        assert(view_obligation_seq(s)[0] == s[0]@);
    }
}

/// A deep copy of a list of obligations, preserving the view elementwise.
pub fn clone_obligations(os: &Vec<Obligation>) -> (r: Vec<Obligation>)
    ensures
        view_obligation_seq(r@) == view_obligation_seq(os@),
        r@.len() == os@.len(),
{
    broadcast use {lemma_view_obligation_seq_len, lemma_view_obligation_seq_index};

    let mut out: Vec<Obligation> = Vec::new();
    let n = os.len();
    for i in 0..n
        invariant
            n == os@.len(),
            out@.len() == i,
            forall|j: int| 0 <= j < i ==> out@[j]@ == os@[j]@,
    {
        out.push(os[i].clone());
    }
    proof {
        assert(view_obligation_seq(out@) =~= view_obligation_seq(os@));
    }
    out
}

/// The view of a pending obligation.
pub struct SpecPendingObligation {
    pub obligation: SpecObligation,
    pub stalled_on: Seq<u64>,
}

/// An obligation waiting in the forest, together with the inference
/// variables whose resolution it is blocked on. `stalled_on` is cleared
/// when progress is attempted and repopulated when the obligation blocks.
#[derive(PartialEq, Eq, Debug)]
pub struct PendingPredicateObligation {
    pub obligation: Obligation,
    pub stalled_on: Vec<u64>,
}

impl View for PendingPredicateObligation {
    type V = SpecPendingObligation;

    open spec fn view(&self) -> SpecPendingObligation {
        SpecPendingObligation { obligation: self.obligation@, stalled_on: self.stalled_on@ }
    }
}

impl Clone for PendingPredicateObligation {
    fn clone(&self) -> (r: PendingPredicateObligation)
        ensures
            r@ == self@,
    {
        let mut stalled: Vec<u64> = Vec::new();
        let n = self.stalled_on.len();
        for i in 0..n
            invariant
                n == self.stalled_on@.len(),
                stalled@ == self.stalled_on@.take(i as int),
        {
            stalled.push(self.stalled_on[i]);
            proof {
                assert(stalled@ =~= self.stalled_on@.take(i + 1));
            }
        }
        proof {
            assert(self.stalled_on@.take(n as int) =~= self.stalled_on@);
        }
        let r = PendingPredicateObligation {
            obligation: self.obligation.clone(),
            stalled_on: stalled,
        };
        proof {
            assert(r@ =~= self@);
        }
        r
    }
}

/// Structural equality of obligations, decided on the views.
pub fn obligation_eq(a: &Obligation, b: &Obligation) -> (r: bool)
    ensures
        r == (a@ == b@),
{
    let r = a.cause == b.cause && a.recursion_depth == b.recursion_depth && param_env_eq(
        &a.param_env,
        &b.param_env,
    ) && predicate_eq(&a.predicate, &b.predicate);
    proof {
        if a@.cause == b@.cause && a@.recursion_depth == b@.recursion_depth && a@.param_env
            == b@.param_env && a@.predicate == b@.predicate {
            assert(a@ =~= b@);
        }
    }
    r
}

/// Structural equality of obligation lists, decided on the views.
pub fn obligations_eq(a: &Vec<Obligation>, b: &Vec<Obligation>) -> (r: bool)
    ensures
        r == (view_obligation_seq(a@) == view_obligation_seq(b@)),
{
    broadcast use {lemma_view_obligation_seq_len, lemma_view_obligation_seq_index};

    if a.len() != b.len() {
        proof {
            assert(view_obligation_seq(a@).len() == a@.len());
            assert(view_obligation_seq(b@).len() == b@.len());
        }
        return false;
    }
    let n = a.len();
    for i in 0..n
        invariant
            n == a@.len() == b@.len(),
            forall|j: int| 0 <= j < i ==> (#[trigger] a@[j])@ == b@[j]@,
    {
        if !obligation_eq(&a[i], &b[i]) {
            proof {
                assert(view_obligation_seq(a@)[i as int] != view_obligation_seq(b@)[i as int]);
            }
            return false;
        }
    }
    proof {
        assert(view_obligation_seq(a@) =~= view_obligation_seq(b@));
    }
    true
}

/// The substitution of generic parameters through a predicate.
pub open spec fn spec_subst_predicate(args: Seq<SpecTy>, p: SpecPredicate) -> SpecPredicate {
    match p {
        SpecPredicate::Trait(tr) => SpecPredicate::Trait(
            SpecTraitRef { trait_id: tr.trait_id, substs: subst_ty_seq(args, tr.substs) },
        ),
        SpecPredicate::RegionOutlives(a, b) => SpecPredicate::RegionOutlives(a, b),
        SpecPredicate::TypeOutlives(t, r, hr) => SpecPredicate::TypeOutlives(
            subst_ty(args, t),
            r,
            hr,
        ),
        SpecPredicate::Projection(pp) => SpecPredicate::Projection(
            SpecProjectionPredicate {
                projection_ty: SpecProjectionTy {
                    trait_id: pp.projection_ty.trait_id,
                    item_id: pp.projection_ty.item_id,
                    substs: subst_ty_seq(args, pp.projection_ty.substs),
                },
                ty: subst_ty(args, pp.ty),
            },
        ),
        SpecPredicate::WellFormed(t) => SpecPredicate::WellFormed(subst_ty(args, t)),
        SpecPredicate::ObjectSafe(d) => SpecPredicate::ObjectSafe(d),
        SpecPredicate::ClosureKind(d, k) => SpecPredicate::ClosureKind(d, k),
        SpecPredicate::Subtype(a, b) => SpecPredicate::Subtype(subst_ty(args, a), subst_ty(args, b)),
        SpecPredicate::ConstEvaluatable(d) => SpecPredicate::ConstEvaluatable(d),
        SpecPredicate::ConstEquate(a, b) => SpecPredicate::ConstEquate(a, b),
    }
}

/// Substitutes `args` for the generic parameters of `p`.
pub fn subst_predicate(args: &Vec<Ty>, p: &Predicate) -> (r: Predicate)
    ensures
        r@ == spec_subst_predicate(view_ty_seq(args@), p@),
{
    match p {
        Predicate::Trait(tr) => Predicate::Trait(
            TraitRef { trait_id: tr.trait_id, substs: tys_subst(args, &tr.substs) },
        ),
        Predicate::RegionOutlives(a, b) => Predicate::RegionOutlives(*a, *b),
        Predicate::TypeOutlives(t, r, hr) => Predicate::TypeOutlives(
            crate::ty::ty_subst(args, t),
            *r,
            *hr,
        ),
        Predicate::Projection(pp) => Predicate::Projection(
            ProjectionPredicate {
                projection_ty: ProjectionTy {
                    trait_id: pp.projection_ty.trait_id,
                    item_id: pp.projection_ty.item_id,
                    substs: tys_subst(args, &pp.projection_ty.substs),
                },
                ty: crate::ty::ty_subst(args, &pp.ty),
            },
        ),
        Predicate::WellFormed(t) => Predicate::WellFormed(crate::ty::ty_subst(args, t)),
        Predicate::ObjectSafe(d) => Predicate::ObjectSafe(*d),
        Predicate::ClosureKind(d, k) => Predicate::ClosureKind(*d, *k),
        Predicate::Subtype(a, b) => Predicate::Subtype(
            crate::ty::ty_subst(args, a),
            crate::ty::ty_subst(args, b),
        ),
        Predicate::ConstEvaluatable(d) => Predicate::ConstEvaluatable(*d),
        Predicate::ConstEquate(a, b) => Predicate::ConstEquate(*a, *b),
    }
}

/// Whether a predicate mentions an inference variable anywhere.
pub open spec fn spec_predicate_has_infer(p: SpecPredicate) -> bool {
    match p {
        SpecPredicate::Trait(tr) => has_infer_seq(tr.substs),
        SpecPredicate::RegionOutlives(_, _) => false,
        SpecPredicate::TypeOutlives(t, _, _) => has_infer(t),
        SpecPredicate::Projection(pp) => has_infer_seq(pp.projection_ty.substs) || has_infer(
            pp.ty,
        ),
        SpecPredicate::WellFormed(t) => has_infer(t),
        SpecPredicate::ObjectSafe(_) => false,
        SpecPredicate::ClosureKind(_, _) => false,
        SpecPredicate::Subtype(a, b) => has_infer(a) || has_infer(b),
        SpecPredicate::ConstEvaluatable(_) => false,
        SpecPredicate::ConstEquate(_, _) => false,
    }
}

pub fn predicate_has_infer(p: &Predicate) -> (r: bool)
    ensures
        r == spec_predicate_has_infer(p@),
{
    match p {
        Predicate::Trait(tr) => tys_have_infer(&tr.substs),
        Predicate::RegionOutlives(_, _) => false,
        Predicate::TypeOutlives(t, _, _) => crate::ty::ty_has_infer(t),
        Predicate::Projection(pp) => {
            tys_have_infer(&pp.projection_ty.substs) || crate::ty::ty_has_infer(&pp.ty)
        }
        Predicate::WellFormed(t) => crate::ty::ty_has_infer(t),
        Predicate::ObjectSafe(_) => false,
        Predicate::ClosureKind(_, _) => false,
        Predicate::Subtype(a, b) => crate::ty::ty_has_infer(a) || crate::ty::ty_has_infer(b),
        Predicate::ConstEvaluatable(_) => false,
        Predicate::ConstEquate(_, _) => false,
    }
}

/// The inference variables a trait reference is stalled on.
pub open spec fn spec_trait_ref_infer_vars(tr: SpecTraitRef) -> Seq<u64> {
    infer_vars_seq(tr.substs)
}

/// A trait reference whose self type is an unresolved variable stalls on
/// that variable: it stands first among the stalled-on variables.
pub proof fn lemma_infer_head_stalls(tr: SpecTraitRef)
    requires
        tr.substs.len() > 0,
        tr.substs[0] is Infer,
    ensures
        spec_trait_ref_infer_vars(tr).len() > 0,
        spec_trait_ref_infer_vars(tr)[0] == tr.substs[0]->Infer_0,
{
    assert(crate::ty::infer_vars(tr.substs[0]) =~= seq![tr.substs[0]->Infer_0]);
    assert(crate::ty::infer_vars_seq(tr.substs) == crate::ty::infer_vars(tr.substs[0])
        + crate::ty::infer_vars_seq(tr.substs.drop_first()));
}

/// Collects the inference variables of a trait reference, in order.
pub fn trait_ref_infer_vars_of(tr: &TraitRef) -> (r: Vec<u64>)
    ensures
        r@ == spec_trait_ref_infer_vars(tr@),
{
    let mut out: Vec<u64> = Vec::new();
    crate::ty::push_infer_vars_seq(&tr.substs, &mut out);
    proof {
        assert(out@ =~= spec_trait_ref_infer_vars(tr@));
    }
    out
}

} // verus!
