//! The type model the engine works on.
//!
//! Named type constructors, traits, associated items, opaque types, closures
//! and generators are identified by plain integer ids; what each id means is
//! recorded in [`crate::tables::Tables`]. Inference variables are integer ids
//! bound by the inference context.
//!
//! Each executable type has a mathematical view (`SpecTy`, built from `Seq`
//! rather than `Vec`) that all contracts speak of.

use vstd::prelude::*;

verus! {

/// The mathematical view of a type term.
pub enum SpecTy {
    /// An unresolved inference variable.
    Infer(u64),
    /// A generic parameter, identified by its index.
    Param(u64),
    /// A named type constructor applied to arguments.
    Adt(u64, Seq<SpecTy>),
    /// An opaque (`impl Trait`-like) type: definition id and its arguments.
    Opaque(u64, Seq<SpecTy>),
    /// An unresolved associated-type reference
    /// `<args[0] as Trait<args[1..]>>::Item`: trait id, item id, arguments.
    Projection(u64, u64, Seq<SpecTy>),
    /// A trait-object type; its projection bounds live in the tables.
    /// Object types are fully concrete in this model.
    Dynamic(u64),
    /// A closure: definition id, argument types, return type.
    Closure(u64, Seq<SpecTy>, Box<SpecTy>),
    /// A generator: definition id, yield type, return type.
    Generator(u64, Box<SpecTy>, Box<SpecTy>),
    /// A type that already failed to check; propagated, never reported twice.
    Error,
}

/// A type term. `Adt(d, args)` covers every named nominal constructor,
/// scalars included (an arity-zero `Adt`).
#[derive(PartialEq, Eq, Debug)]
pub enum Ty {
    Infer(u64),
    Param(u64),
    Adt(u64, Vec<Ty>),
    Opaque(u64, Vec<Ty>),
    Projection(u64, u64, Vec<Ty>),
    Dynamic(u64),
    Closure(u64, Vec<Ty>, Box<Ty>),
    Generator(u64, Box<Ty>, Box<Ty>),
    Error,
}

/// The view of a type term.
pub open spec fn view_ty(t: Ty) -> SpecTy
    decreases t,
{
    match t {
        Ty::Infer(v) => SpecTy::Infer(v),
        Ty::Param(p) => SpecTy::Param(p),
        Ty::Adt(d, args) => SpecTy::Adt(d, view_ty_seq(args@)),
        Ty::Opaque(d, args) => SpecTy::Opaque(d, view_ty_seq(args@)),
        Ty::Projection(tr, item, args) => SpecTy::Projection(tr, item, view_ty_seq(args@)),
        Ty::Dynamic(d) => SpecTy::Dynamic(d),
        Ty::Closure(d, args, ret) => SpecTy::Closure(
            d,
            view_ty_seq(args@),
            Box::new(view_ty(*ret)),
        ),
        Ty::Generator(d, y, r) => SpecTy::Generator(
            d,
            Box::new(view_ty(*y)),
            Box::new(view_ty(*r)),
        ),
        Ty::Error => SpecTy::Error,
    }
}

/// The view of a sequence of type terms, elementwise.
pub open spec fn view_ty_seq(s: Seq<Ty>) -> Seq<SpecTy>
    decreases s,
{
    if s.len() == 0 {
        Seq::empty()
    } else {
        seq![view_ty(s[0])] + view_ty_seq(s.drop_first())
    }
}

/// `view_ty_seq` preserves the length.
pub broadcast proof fn lemma_view_ty_seq_len(s: Seq<Ty>)
    ensures
        #[trigger] view_ty_seq(s).len() == s.len(),
    decreases s,
{
    if s.len() != 0 {
        lemma_view_ty_seq_len(s.drop_first());
    }
}

/// `view_ty_seq` maps `view_ty` over the sequence, index by index.
pub broadcast proof fn lemma_view_ty_seq_index(s: Seq<Ty>, i: int)
    requires
        0 <= i < s.len(),
    ensures
        #[trigger] view_ty_seq(s)[i] == view_ty(s[i]),
    decreases s,
{
    broadcast use vstd::seq::group_seq_axioms;

    if i > 0 {
        lemma_view_ty_seq_index(s.drop_first(), i - 1);
        lemma_view_ty_seq_len(s.drop_first());
        assert(view_ty_seq(s)[i] == view_ty_seq(s.drop_first())[i - 1]);
        assert(s.drop_first()[i - 1] == s[i]);
    } else {
        assert(view_ty_seq(s)[0] == view_ty(s[0]));
    }
}

impl View for Ty {
    type V = SpecTy;

    open spec fn view(&self) -> SpecTy {
        view_ty(*self)
    }
}

impl DeepView for Ty {
    type V = SpecTy;

    open spec fn deep_view(&self) -> SpecTy {
        view_ty(*self)
    }
}

/// Whether a type contains a projection or an opaque type anywhere,
/// so that normalization could still rewrite it.
pub open spec fn has_projections(t: SpecTy) -> bool
    decreases t,
{
    match t {
        SpecTy::Infer(_) => false,
        SpecTy::Param(_) => false,
        SpecTy::Adt(_, args) => has_projections_seq(args),
        SpecTy::Opaque(_, _) => true,
        SpecTy::Projection(_, _, _) => true,
        SpecTy::Dynamic(_) => false,
        SpecTy::Closure(_, args, ret) => has_projections_seq(args) || has_projections(*ret),
        SpecTy::Generator(_, y, r) => has_projections(*y) || has_projections(*r),
        SpecTy::Error => false,
    }
}

pub open spec fn has_projections_seq(s: Seq<SpecTy>) -> bool
    decreases s,
{
    if s.len() == 0 {
        false
    } else {
        has_projections(s[0]) || has_projections_seq(s.drop_first())
    }
}

pub broadcast proof fn lemma_has_projections_seq(s: Seq<SpecTy>)
    ensures
        #[trigger] has_projections_seq(s) <==> exists|i: int|
            0 <= i < s.len() && has_projections(s[i]),
    decreases s,
{
    if s.len() != 0 {
        lemma_has_projections_seq(s.drop_first());
        if has_projections_seq(s) {
            if has_projections(s[0]) {
                assert(0 <= 0 < s.len() && has_projections(s[0]));
            } else {
                let j = choose|j: int|
                    0 <= j < s.drop_first().len() && has_projections(s.drop_first()[j]);
                assert(s[j + 1] == s.drop_first()[j]);
                assert(0 <= j + 1 < s.len() && has_projections(s[j + 1]));
            }
        }
        if exists|i: int| 0 <= i < s.len() && has_projections(s[i]) {
            let i = choose|i: int| 0 <= i < s.len() && has_projections(s[i]);
            if i > 0 {
                assert(s.drop_first()[i - 1] == s[i]);
                assert(0 <= i - 1 < s.drop_first().len()
                    && has_projections(s.drop_first()[i - 1]));
            }
        }
    }
}

/// Whether a type contains an inference variable anywhere.
pub open spec fn has_infer(t: SpecTy) -> bool
    decreases t,
{
    match t {
        SpecTy::Infer(_) => true,
        SpecTy::Param(_) => false,
        SpecTy::Adt(_, args) => has_infer_seq(args),
        SpecTy::Opaque(_, args) => has_infer_seq(args),
        SpecTy::Projection(_, _, args) => has_infer_seq(args),
        SpecTy::Dynamic(_) => false,
        SpecTy::Closure(_, args, ret) => has_infer_seq(args) || has_infer(*ret),
        SpecTy::Generator(_, y, r) => has_infer(*y) || has_infer(*r),
        SpecTy::Error => false,
    }
}

pub open spec fn has_infer_seq(s: Seq<SpecTy>) -> bool
    decreases s,
{
    if s.len() == 0 {
        false
    } else {
        has_infer(s[0]) || has_infer_seq(s.drop_first())
    }
}

pub broadcast proof fn lemma_has_infer_seq(s: Seq<SpecTy>)
    ensures
        #[trigger] has_infer_seq(s) <==> exists|i: int| 0 <= i < s.len() && has_infer(s[i]),
    decreases s,
{
    if s.len() != 0 {
        lemma_has_infer_seq(s.drop_first());
        if has_infer_seq(s) {
            if has_infer(s[0]) {
                assert(0 <= 0 < s.len() && has_infer(s[0]));
            } else {
                let j = choose|j: int|
                    0 <= j < s.drop_first().len() && has_infer(s.drop_first()[j]);
                assert(s[j + 1] == s.drop_first()[j]);
                assert(0 <= j + 1 < s.len() && has_infer(s[j + 1]));
            }
        }
        if exists|i: int| 0 <= i < s.len() && has_infer(s[i]) {
            let i = choose|i: int| 0 <= i < s.len() && has_infer(s[i]);
            if i > 0 {
                assert(s.drop_first()[i - 1] == s[i]);
                assert(0 <= i - 1 < s.drop_first().len() && has_infer(s.drop_first()[i - 1]));
            }
        }
    }
}

/// The inference variables occurring in a type, in pre-order.
pub open spec fn infer_vars(t: SpecTy) -> Seq<u64>
    decreases t,
{
    match t {
        SpecTy::Infer(v) => seq![v],
        SpecTy::Param(_) => Seq::empty(),
        SpecTy::Adt(_, args) => infer_vars_seq(args),
        SpecTy::Opaque(_, args) => infer_vars_seq(args),
        SpecTy::Projection(_, _, args) => infer_vars_seq(args),
        SpecTy::Dynamic(_) => Seq::empty(),
        SpecTy::Closure(_, args, ret) => infer_vars_seq(args) + infer_vars(*ret),
        SpecTy::Generator(_, y, r) => infer_vars(*y) + infer_vars(*r),
        SpecTy::Error => Seq::empty(),
    }
}

pub open spec fn infer_vars_seq(s: Seq<SpecTy>) -> Seq<u64>
    decreases s,
{
    if s.len() == 0 {
        Seq::empty()
    } else {
        infer_vars(s[0]) + infer_vars_seq(s.drop_first())
    }
}

/// Whether the inference variable `v` occurs in `t`.
pub open spec fn occurs(v: u64, t: SpecTy) -> bool
    decreases t,
{
    match t {
        SpecTy::Infer(u) => u == v,
        SpecTy::Param(_) => false,
        SpecTy::Adt(_, args) => occurs_seq(v, args),
        SpecTy::Opaque(_, args) => occurs_seq(v, args),
        SpecTy::Projection(_, _, args) => occurs_seq(v, args),
        SpecTy::Dynamic(_) => false,
        SpecTy::Closure(_, args, ret) => occurs_seq(v, args) || occurs(v, *ret),
        SpecTy::Generator(_, y, r) => occurs(v, *y) || occurs(v, *r),
        SpecTy::Error => false,
    }
}

pub open spec fn occurs_seq(v: u64, s: Seq<SpecTy>) -> bool
    decreases s,
{
    if s.len() == 0 {
        false
    } else {
        occurs(v, s[0]) || occurs_seq(v, s.drop_first())
    }
}

pub broadcast proof fn lemma_occurs_seq(v: u64, s: Seq<SpecTy>)
    ensures
        #[trigger] occurs_seq(v, s) <==> exists|i: int| 0 <= i < s.len() && occurs(v, s[i]),
    decreases s,
{
    if s.len() != 0 {
        lemma_occurs_seq(v, s.drop_first());
        if occurs_seq(v, s) {
            if occurs(v, s[0]) {
                assert(0 <= 0 < s.len() && occurs(v, s[0]));
            } else {
                let j = choose|j: int|
                    0 <= j < s.drop_first().len() && occurs(v, s.drop_first()[j]);
                assert(s[j + 1] == s.drop_first()[j]);
                assert(0 <= j + 1 < s.len() && occurs(v, s[j + 1]));
            }
        }
        if exists|i: int| 0 <= i < s.len() && occurs(v, s[i]) {
            let i = choose|i: int| 0 <= i < s.len() && occurs(v, s[i]);
            if i > 0 {
                assert(s.drop_first()[i - 1] == s[i]);
                assert(0 <= i - 1 < s.drop_first().len() && occurs(v, s.drop_first()[i - 1]));
            }
        }
    }
}

/// Substitution of generic parameters: `Param(i)` becomes `args[i]`.
/// An out-of-range parameter index denotes a malformed definition and
/// becomes `Error`.
pub open spec fn subst_ty(args: Seq<SpecTy>, t: SpecTy) -> SpecTy
    decreases t,
{
    match t {
        SpecTy::Infer(v) => SpecTy::Infer(v),
        SpecTy::Param(p) => if p < args.len() {
            args[p as int]
        } else {
            SpecTy::Error
        },
        SpecTy::Adt(d, a) => SpecTy::Adt(d, subst_ty_seq(args, a)),
        SpecTy::Opaque(d, a) => SpecTy::Opaque(d, subst_ty_seq(args, a)),
        SpecTy::Projection(tr, item, a) => SpecTy::Projection(tr, item, subst_ty_seq(args, a)),
        SpecTy::Dynamic(d) => SpecTy::Dynamic(d),
        SpecTy::Closure(d, a, ret) => SpecTy::Closure(
            d,
            subst_ty_seq(args, a),
            Box::new(subst_ty(args, *ret)),
        ),
        SpecTy::Generator(d, y, r) => SpecTy::Generator(
            d,
            Box::new(subst_ty(args, *y)),
            Box::new(subst_ty(args, *r)),
        ),
        SpecTy::Error => SpecTy::Error,
    }
}

pub open spec fn subst_ty_seq(args: Seq<SpecTy>, s: Seq<SpecTy>) -> Seq<SpecTy>
    decreases s,
{
    if s.len() == 0 {
        Seq::empty()
    } else {
        seq![subst_ty(args, s[0])] + subst_ty_seq(args, s.drop_first())
    }
}

pub broadcast proof fn lemma_subst_ty_seq_len(args: Seq<SpecTy>, s: Seq<SpecTy>)
    ensures
        #[trigger] subst_ty_seq(args, s).len() == s.len(),
    decreases s,
{
    if s.len() != 0 {
        lemma_subst_ty_seq_len(args, s.drop_first());
    }
}

pub broadcast proof fn lemma_subst_ty_seq_index(args: Seq<SpecTy>, s: Seq<SpecTy>, i: int)
    requires
        0 <= i < s.len(),
    ensures
        #[trigger] subst_ty_seq(args, s)[i] == subst_ty(args, s[i]),
    decreases s,
{
    broadcast use vstd::seq::group_seq_axioms;

    if i > 0 {
        lemma_subst_ty_seq_index(args, s.drop_first(), i - 1);
        lemma_subst_ty_seq_len(args, s.drop_first());
        assert(subst_ty_seq(args, s)[i] == subst_ty_seq(args, s.drop_first())[i - 1]);
        assert(s.drop_first()[i - 1] == s[i]);
    } else {
        assert(subst_ty_seq(args, s)[0] == subst_ty(args, s[0]));
    }
}


impl Clone for Ty {
    /// A deep copy; the copy has the same view as the original.
    fn clone(&self) -> (r: Ty)
        ensures
            r@ == self@,
        decreases self,
    {
    broadcast use {lemma_view_ty_seq_len, lemma_view_ty_seq_index};

        let r = match self {
            Ty::Infer(v) => Ty::Infer(*v),
            Ty::Param(p) => Ty::Param(*p),
            Ty::Adt(d, args) => Ty::Adt(*d, clone_tys(args)),
            Ty::Opaque(d, args) => Ty::Opaque(*d, clone_tys(args)),
            Ty::Projection(t, i, args) => Ty::Projection(*t, *i, clone_tys(args)),
            Ty::Dynamic(d) => Ty::Dynamic(*d),
            Ty::Closure(d, args, ret) => {
                Ty::Closure(*d, clone_tys(args), Box::new((**ret).clone()))
            }
            Ty::Generator(d, y, ret) => {
                Ty::Generator(*d, Box::new((**y).clone()), Box::new((**ret).clone()))
            }
            Ty::Error => Ty::Error,
        };
        r
    }
}

/// A deep copy of a list of types, preserving the view elementwise.
pub fn clone_tys(tys: &Vec<Ty>) -> (r: Vec<Ty>)
    ensures
        view_ty_seq(r@) == view_ty_seq(tys@),
        r@.len() == tys@.len(),
    decreases tys@,
{
    broadcast use {lemma_view_ty_seq_len, lemma_view_ty_seq_index};

    let mut out: Vec<Ty> = Vec::new();
    let n = tys.len();
    for i in 0..n
        invariant
            n == tys@.len(),
            out@.len() == i,
            forall|j: int| 0 <= j < i ==> view_ty(out@[j]) == view_ty(tys@[j]),
    {
        out.push(tys[i].clone());
    }
    proof {
        assert(view_ty_seq(out@) =~= view_ty_seq(tys@));
    }
    out
}

/// Structural equality of two types, decided on the views.
pub fn ty_eq(a: &Ty, b: &Ty) -> (r: bool)
    ensures
        r == (a@ == b@),
    decreases a,
{
    broadcast use {lemma_view_ty_seq_len, lemma_view_ty_seq_index};

    match (a, b) {
        (Ty::Infer(x), Ty::Infer(y)) => x == y,
        (Ty::Param(x), Ty::Param(y)) => x == y,
        (Ty::Adt(d1, a1), Ty::Adt(d2, a2)) => d1 == d2 && tys_eq(a1, a2),
        (Ty::Opaque(d1, a1), Ty::Opaque(d2, a2)) => d1 == d2 && tys_eq(a1, a2),
        (Ty::Projection(t1, i1, a1), Ty::Projection(t2, i2, a2)) => {
            t1 == t2 && i1 == i2 && tys_eq(a1, a2)
        }
        (Ty::Dynamic(x), Ty::Dynamic(y)) => x == y,
        (Ty::Closure(d1, a1, r1), Ty::Closure(d2, a2, r2)) => {
            d1 == d2 && tys_eq(a1, a2) && ty_eq(r1, r2)
        }
        (Ty::Generator(d1, y1, r1), Ty::Generator(d2, y2, r2)) => {
            d1 == d2 && ty_eq(y1, y2) && ty_eq(r1, r2)
        }
        (Ty::Error, Ty::Error) => true,
        _ => false,
    }
}

/// Structural equality of two lists of types, decided on the views.
pub fn tys_eq(a: &Vec<Ty>, b: &Vec<Ty>) -> (r: bool)
    ensures
        r == (view_ty_seq(a@) == view_ty_seq(b@)),
    decreases a@,
{
    broadcast use {lemma_view_ty_seq_len, lemma_view_ty_seq_index};

    if a.len() != b.len() {
        proof {
            assert(view_ty_seq(a@).len() == a@.len());
            assert(view_ty_seq(b@).len() == b@.len());
        }
        return false;
    }
    let n = a.len();
    for i in 0..n
        invariant
            n == a@.len() == b@.len(),
            forall|j: int| 0 <= j < i ==> view_ty(a@[j]) == view_ty(b@[j]),
    {
        if !ty_eq(&a[i], &b[i]) {
            proof {
                assert(view_ty_seq(a@)[i as int] != view_ty_seq(b@)[i as int]);
            }
            return false;
        }
    }
    proof {
        assert(view_ty_seq(a@) =~= view_ty_seq(b@));
    }
    true
}

/// Whether normalization could still rewrite this type.
pub fn ty_has_projections(t: &Ty) -> (r: bool)
    ensures
        r == has_projections(t@),
    decreases t,
{
    broadcast use {lemma_view_ty_seq_len, lemma_view_ty_seq_index, lemma_has_projections_seq};

    match t {
        Ty::Infer(_) => false,
        Ty::Param(_) => false,
        Ty::Adt(_, args) => tys_have_projections(args),
        Ty::Opaque(_, _) => true,
        Ty::Projection(_, _, _) => true,
        Ty::Dynamic(_) => false,
        Ty::Closure(_, args, ret) => tys_have_projections(args) || ty_has_projections(ret),
        Ty::Generator(_, y, r) => ty_has_projections(y) || ty_has_projections(r),
        Ty::Error => false,
    }
}

pub fn tys_have_projections(tys: &Vec<Ty>) -> (r: bool)
    ensures
        r == has_projections_seq(view_ty_seq(tys@)),
    decreases tys@,
{
    broadcast use {lemma_view_ty_seq_len, lemma_view_ty_seq_index, lemma_has_projections_seq};

    let n = tys.len();
    for i in 0..n
        invariant
            n == tys@.len(),
            forall|j: int| 0 <= j < i ==> !has_projections(view_ty_seq(tys@)[j]),
    {
        if ty_has_projections(&tys[i]) {
            proof {
                assert(has_projections(view_ty_seq(tys@)[i as int]));
            }
            return true;
        }
    }
    false
}

/// Whether the type contains an inference variable.
pub fn ty_has_infer(t: &Ty) -> (r: bool)
    ensures
        r == has_infer(t@),
    decreases t,
{
    broadcast use {lemma_view_ty_seq_len, lemma_view_ty_seq_index, lemma_has_infer_seq};

    match t {
        Ty::Infer(_) => true,
        Ty::Param(_) => false,
        Ty::Adt(_, args) => tys_have_infer(args),
        Ty::Opaque(_, args) => tys_have_infer(args),
        Ty::Projection(_, _, args) => tys_have_infer(args),
        Ty::Dynamic(_) => false,
        Ty::Closure(_, args, ret) => tys_have_infer(args) || ty_has_infer(ret),
        Ty::Generator(_, y, r) => ty_has_infer(y) || ty_has_infer(r),
        Ty::Error => false,
    }
}

pub fn tys_have_infer(tys: &Vec<Ty>) -> (r: bool)
    ensures
        r == has_infer_seq(view_ty_seq(tys@)),
    decreases tys@,
{
    broadcast use {lemma_view_ty_seq_len, lemma_view_ty_seq_index, lemma_has_infer_seq};

    let n = tys.len();
    for i in 0..n
        invariant
            n == tys@.len(),
            forall|j: int| 0 <= j < i ==> !has_infer(view_ty_seq(tys@)[j]),
    {
        if ty_has_infer(&tys[i]) {
            proof {
                assert(has_infer(view_ty_seq(tys@)[i as int]));
            }
            return true;
        }
    }
    false
}

/// Whether the inference variable `v` occurs in `t`.
pub fn ty_occurs(v: u64, t: &Ty) -> (r: bool)
    ensures
        r == occurs(v, t@),
    decreases t,
{
    broadcast use {lemma_view_ty_seq_len, lemma_view_ty_seq_index, lemma_occurs_seq};

    match t {
        Ty::Infer(u) => *u == v,
        Ty::Param(_) => false,
        Ty::Adt(_, args) => tys_occurs(v, args),
        Ty::Opaque(_, args) => tys_occurs(v, args),
        Ty::Projection(_, _, args) => tys_occurs(v, args),
        Ty::Dynamic(_) => false,
        Ty::Closure(_, args, ret) => tys_occurs(v, args) || ty_occurs(v, ret),
        Ty::Generator(_, y, r) => ty_occurs(v, y) || ty_occurs(v, r),
        Ty::Error => false,
    }
}

pub fn tys_occurs(v: u64, tys: &Vec<Ty>) -> (r: bool)
    ensures
        r == occurs_seq(v, view_ty_seq(tys@)),
    decreases tys@,
{
    broadcast use {lemma_view_ty_seq_len, lemma_view_ty_seq_index, lemma_occurs_seq};

    let n = tys.len();
    for i in 0..n
        invariant
            n == tys@.len(),
            forall|j: int| 0 <= j < i ==> !occurs(v, view_ty_seq(tys@)[j]),
    {
        if ty_occurs(v, &tys[i]) {
            proof {
                assert(occurs(v, view_ty_seq(tys@)[i as int]));
            }
            return true;
        }
    }
    false
}

/// Appends the inference variables of `t`, in pre-order, to `out`.
pub fn push_infer_vars(t: &Ty, out: &mut Vec<u64>)
    ensures
        final(out)@ == old(out)@ + infer_vars(t@),
    decreases t,
{
    broadcast use {lemma_view_ty_seq_len, lemma_view_ty_seq_index};

    match t {
        Ty::Infer(v) => {
            out.push(*v);
            proof {
                assert(out@ =~= old(out)@ + infer_vars(t@));
            }
        }
        Ty::Param(_) => {
            proof {
                assert(out@ =~= old(out)@ + infer_vars(t@));
            }
        }
        Ty::Adt(_, args) => push_infer_vars_seq(args, out),
        Ty::Opaque(_, args) => push_infer_vars_seq(args, out),
        Ty::Projection(_, _, args) => push_infer_vars_seq(args, out),
        Ty::Dynamic(_) => {
            proof {
                assert(out@ =~= old(out)@ + infer_vars(t@));
            }
        }
        Ty::Closure(_, args, ret) => {
            push_infer_vars_seq(args, out);
            push_infer_vars(ret, out);
            proof {
                assert(out@ =~= old(out)@ + infer_vars(t@));
            }
        }
        Ty::Generator(_, y, r) => {
            push_infer_vars(y, out);
            push_infer_vars(r, out);
            proof {
                assert(out@ =~= old(out)@ + infer_vars(t@));
            }
        }
        Ty::Error => {
            proof {
                assert(out@ =~= old(out)@ + infer_vars(t@));
            }
        }
    }
}

pub fn push_infer_vars_seq(tys: &Vec<Ty>, out: &mut Vec<u64>)
    ensures
        final(out)@ == old(out)@ + infer_vars_seq(view_ty_seq(tys@)),
    decreases tys@,
{
    broadcast use {lemma_view_ty_seq_len, lemma_view_ty_seq_index};

    let n = tys.len();
    for i in 0..n
        invariant
            n == tys@.len(),
            out@ == old(out)@ + infer_vars_seq(view_ty_seq(tys@).take(i as int)),
    {
        push_infer_vars(&tys[i], out);
        proof {
            lemma_infer_vars_seq_take(view_ty_seq(tys@), i as int);
            assert(out@ =~= old(out)@ + infer_vars_seq(view_ty_seq(tys@).take(i + 1)));
        }
    }
    proof {
        assert(view_ty_seq(tys@).take(n as int) =~= view_ty_seq(tys@));
    }
}

/// Taking one more element extends the concatenated variable list.
proof fn lemma_infer_vars_seq_take(s: Seq<SpecTy>, i: int)
    requires
        0 <= i < s.len(),
    ensures
        infer_vars_seq(s.take(i + 1)) == infer_vars_seq(s.take(i)) + infer_vars(s[i]),
    decreases i,
{
    if i == 0 {
        assert(s.take(1).drop_first() =~= Seq::<SpecTy>::empty());
        assert(s.take(1)[0] == s[0]);
        assert(s.take(0) =~= Seq::<SpecTy>::empty());
        assert(infer_vars_seq(s.take(1)) =~= infer_vars_seq(s.take(0)) + infer_vars(s[0]));
    } else {
        lemma_infer_vars_seq_take(s.drop_first(), i - 1);
        assert(s.take(i + 1).drop_first() =~= s.drop_first().take(i));
        assert(s.take(i).drop_first() =~= s.drop_first().take(i - 1));
        assert(s.take(i + 1)[0] == s[0]);
        assert(s.take(i)[0] == s[0]);
        assert(s.drop_first()[i - 1] == s[i]);
        assert(infer_vars_seq(s.take(i + 1)) =~= infer_vars_seq(s.take(i)) + infer_vars(s[i]));
    }
}

/// Substitutes `args` for the generic parameters of `t`.
pub fn ty_subst(args: &Vec<Ty>, t: &Ty) -> (r: Ty)
    ensures
        r@ == subst_ty(view_ty_seq(args@), t@),
    decreases t,
{
    broadcast use {lemma_view_ty_seq_len, lemma_view_ty_seq_index, lemma_subst_ty_seq_len, lemma_subst_ty_seq_index};

    match t {
        Ty::Infer(v) => Ty::Infer(*v),
        Ty::Param(p) => {
            if *p < args.len() as u64 {
                args[*p as usize].clone()
            } else {
                Ty::Error
            }
        }
        Ty::Adt(d, a) => Ty::Adt(*d, tys_subst(args, a)),
        Ty::Opaque(d, a) => Ty::Opaque(*d, tys_subst(args, a)),
        Ty::Projection(tr, item, a) => Ty::Projection(*tr, *item, tys_subst(args, a)),
        Ty::Dynamic(d) => Ty::Dynamic(*d),
        Ty::Closure(d, a, ret) => Ty::Closure(
            *d,
            tys_subst(args, a),
            Box::new(ty_subst(args, ret)),
        ),
        Ty::Generator(d, y, r) => Ty::Generator(
            *d,
            Box::new(ty_subst(args, y)),
            Box::new(ty_subst(args, r)),
        ),
        Ty::Error => Ty::Error,
    }
}

pub fn tys_subst(args: &Vec<Ty>, tys: &Vec<Ty>) -> (r: Vec<Ty>)
    ensures
        view_ty_seq(r@) == subst_ty_seq(view_ty_seq(args@), view_ty_seq(tys@)),
        r@.len() == tys@.len(),
    decreases tys@,
{
    broadcast use {lemma_view_ty_seq_len, lemma_view_ty_seq_index, lemma_subst_ty_seq_len, lemma_subst_ty_seq_index};

    let mut out: Vec<Ty> = Vec::new();
    let n = tys.len();
    for i in 0..n
        invariant
            n == tys@.len(),
            out@.len() == i,
            forall|j: int| 0 <= j < i ==> view_ty(out@[j]) == subst_ty(
                view_ty_seq(args@),
                view_ty_seq(tys@)[j],
            ),
    {
        out.push(ty_subst(args, &tys[i]));
    }
    proof {
        assert(view_ty_seq(out@) =~= subst_ty_seq(view_ty_seq(args@), view_ty_seq(tys@)));
    }
    out
}

/// Replaces the inference variable `v` by `rep` throughout `t`.
pub open spec fn subst_var(v: u64, rep: SpecTy, t: SpecTy) -> SpecTy
    decreases t,
{
    match t {
        SpecTy::Infer(u) => if u == v {
            rep
        } else {
            SpecTy::Infer(u)
        },
        SpecTy::Param(p) => SpecTy::Param(p),
        SpecTy::Adt(d, a) => SpecTy::Adt(d, subst_var_seq(v, rep, a)),
        SpecTy::Opaque(d, a) => SpecTy::Opaque(d, subst_var_seq(v, rep, a)),
        SpecTy::Projection(tr, item, a) => SpecTy::Projection(tr, item, subst_var_seq(v, rep, a)),
        SpecTy::Dynamic(d) => SpecTy::Dynamic(d),
        SpecTy::Closure(d, a, ret) => SpecTy::Closure(
            d,
            subst_var_seq(v, rep, a),
            Box::new(subst_var(v, rep, *ret)),
        ),
        SpecTy::Generator(d, y, r) => SpecTy::Generator(
            d,
            Box::new(subst_var(v, rep, *y)),
            Box::new(subst_var(v, rep, *r)),
        ),
        SpecTy::Error => SpecTy::Error,
    }
}

pub open spec fn subst_var_seq(v: u64, rep: SpecTy, s: Seq<SpecTy>) -> Seq<SpecTy>
    decreases s,
{
    if s.len() == 0 {
        Seq::empty()
    } else {
        seq![subst_var(v, rep, s[0])] + subst_var_seq(v, rep, s.drop_first())
    }
}

pub broadcast proof fn lemma_subst_var_seq_len(v: u64, rep: SpecTy, s: Seq<SpecTy>)
    ensures
        #[trigger] subst_var_seq(v, rep, s).len() == s.len(),
    decreases s,
{
    if s.len() != 0 {
        lemma_subst_var_seq_len(v, rep, s.drop_first());
    }
}

pub broadcast proof fn lemma_subst_var_seq_index(v: u64, rep: SpecTy, s: Seq<SpecTy>, i: int)
    requires
        0 <= i < s.len(),
    ensures
        #[trigger] subst_var_seq(v, rep, s)[i] == subst_var(v, rep, s[i]),
    decreases s,
{
    broadcast use vstd::seq::group_seq_axioms;

    if i > 0 {
        lemma_subst_var_seq_index(v, rep, s.drop_first(), i - 1);
        lemma_subst_var_seq_len(v, rep, s.drop_first());
        assert(subst_var_seq(v, rep, s)[i] == subst_var_seq(v, rep, s.drop_first())[i - 1]);
        assert(s.drop_first()[i - 1] == s[i]);
    } else {
        assert(subst_var_seq(v, rep, s)[0] == subst_var(v, rep, s[0]));
    }
}

/// A variable occurring after the substitution occurred before it, in the
/// replaced type or in the replacement; in particular the substituted
/// variable itself is gone if it does not occur in the replacement.
pub proof fn lemma_subst_var_occurs(v: u64, rep: SpecTy, t: SpecTy, u: u64)
    ensures
        occurs(u, subst_var(v, rep, t)) ==> ((occurs(u, t) && u != v) || occurs(u, rep)),
    decreases t,
{
    broadcast use {lemma_occurs_seq, lemma_subst_var_seq_len, lemma_subst_var_seq_index};

    match t {
        SpecTy::Adt(_, a) => lemma_subst_var_occurs_seq(v, rep, a, u),
        SpecTy::Opaque(_, a) => lemma_subst_var_occurs_seq(v, rep, a, u),
        SpecTy::Projection(_, _, a) => lemma_subst_var_occurs_seq(v, rep, a, u),
        SpecTy::Closure(_, a, ret) => {
            lemma_subst_var_occurs_seq(v, rep, a, u);
            lemma_subst_var_occurs(v, rep, *ret, u);
        }
        SpecTy::Generator(_, y, r) => {
            lemma_subst_var_occurs(v, rep, *y, u);
            lemma_subst_var_occurs(v, rep, *r, u);
        }
        _ => {}
    }
}

pub proof fn lemma_subst_var_occurs_seq(v: u64, rep: SpecTy, s: Seq<SpecTy>, u: u64)
    ensures
        occurs_seq(u, subst_var_seq(v, rep, s)) ==> ((occurs_seq(u, s) && u != v) || occurs(
            u,
            rep,
        )),
    decreases s,
{
    broadcast use {lemma_occurs_seq, lemma_subst_var_seq_len, lemma_subst_var_seq_index};

    if s.len() != 0 {
        lemma_subst_var_occurs(v, rep, s[0], u);
        lemma_subst_var_occurs_seq(v, rep, s.drop_first(), u);
        if occurs_seq(u, subst_var_seq(v, rep, s)) {
            let i = choose|i: int|
                0 <= i < subst_var_seq(v, rep, s).len() && occurs(
                    u,
                    subst_var_seq(v, rep, s)[i],
                );
            if i == 0 {
            } else {
                assert(subst_var_seq(v, rep, s.drop_first())[i - 1] == subst_var_seq(
                    v,
                    rep,
                    s,
                )[i]);
                assert(occurs_seq(u, subst_var_seq(v, rep, s.drop_first())));
            }
        }
    }
}

/// Substitutes `rep` for the inference variable `v` throughout `t`.
pub fn ty_subst_var(v: u64, rep: &Ty, t: &Ty) -> (r: Ty)
    ensures
        r@ == subst_var(v, rep@, t@),
    decreases t,
{
    broadcast use {
        lemma_view_ty_seq_len, lemma_view_ty_seq_index, lemma_subst_var_seq_len,
        lemma_subst_var_seq_index,
    };

    match t {
        Ty::Infer(u) => {
            if *u == v {
                rep.clone()
            } else {
                Ty::Infer(*u)
            }
        }
        Ty::Param(p) => Ty::Param(*p),
        Ty::Adt(d, a) => Ty::Adt(*d, tys_subst_var(v, rep, a)),
        Ty::Opaque(d, a) => Ty::Opaque(*d, tys_subst_var(v, rep, a)),
        Ty::Projection(tr, item, a) => Ty::Projection(*tr, *item, tys_subst_var(v, rep, a)),
        Ty::Dynamic(d) => Ty::Dynamic(*d),
        Ty::Closure(d, a, ret) => Ty::Closure(
            *d,
            tys_subst_var(v, rep, a),
            Box::new(ty_subst_var(v, rep, ret)),
        ),
        Ty::Generator(d, y, r) => Ty::Generator(
            *d,
            Box::new(ty_subst_var(v, rep, y)),
            Box::new(ty_subst_var(v, rep, r)),
        ),
        Ty::Error => Ty::Error,
    }
}

pub fn tys_subst_var(v: u64, rep: &Ty, tys: &Vec<Ty>) -> (r: Vec<Ty>)
    ensures
        view_ty_seq(r@) == subst_var_seq(v, rep@, view_ty_seq(tys@)),
        r@.len() == tys@.len(),
    decreases tys@,
{
    broadcast use {
        lemma_view_ty_seq_len, lemma_view_ty_seq_index, lemma_subst_var_seq_len,
        lemma_subst_var_seq_index,
    };

    let mut out: Vec<Ty> = Vec::new();
    let n = tys.len();
    for i in 0..n
        invariant
            n == tys@.len(),
            out@.len() == i,
            forall|j: int| 0 <= j < i ==> view_ty(out@[j]) == subst_var(
                v,
                rep@,
                view_ty_seq(tys@)[j],
            ),
    {
        out.push(ty_subst_var(v, rep, &tys[i]));
    }
    proof {
        assert(view_ty_seq(out@) =~= subst_var_seq(v, rep@, view_ty_seq(tys@)));
    }
    out
}

/// Structural size, the measure for the normalizer's recursion.
pub open spec fn sty_size(t: SpecTy) -> nat
    decreases t,
{
    match t {
        SpecTy::Adt(_, args) => 1 + sty_size_seq(args),
        SpecTy::Opaque(_, args) => 1 + sty_size_seq(args),
        SpecTy::Projection(_, _, args) => 1 + sty_size_seq(args),
        SpecTy::Closure(_, args, ret) => 1 + sty_size_seq(args) + sty_size(*ret),
        SpecTy::Generator(_, y, r) => 1 + sty_size(*y) + sty_size(*r),
        _ => 1,
    }
}

pub open spec fn sty_size_seq(s: Seq<SpecTy>) -> nat
    decreases s,
{
    if s.len() == 0 {
        0
    } else {
        sty_size(s[0]) + sty_size_seq(s.drop_first())
    }
}

/// Every type term has positive size.
pub proof fn lemma_sty_size_pos(t: SpecTy)
    ensures
        sty_size(t) >= 1,
{
    match t {
        SpecTy::Adt(_, _) => {}
        SpecTy::Opaque(_, _) => {}
        SpecTy::Projection(_, _, _) => {}
        SpecTy::Closure(_, _, _) => {}
        SpecTy::Generator(_, _, _) => {}
        _ => {}
    }
}

/// The size of a sequence splits off its last element.
pub proof fn lemma_sty_size_seq_drop_last(s: Seq<SpecTy>)
    requires
        s.len() > 0,
    ensures
        sty_size_seq(s) == sty_size_seq(s.drop_last()) + sty_size(s.last()),
    decreases s.len(),
{
    if s.len() > 1 {
        lemma_sty_size_seq_drop_last(s.drop_first());
        assert(s.drop_last().drop_first() =~= s.drop_first().drop_last());
        assert(s.drop_last()[0] == s[0]);
        assert(s.drop_first().last() == s.last());
        assert(sty_size_seq(s) == sty_size(s[0]) + sty_size_seq(s.drop_first()));
        assert(sty_size_seq(s.drop_last()) == sty_size(s.drop_last()[0]) + sty_size_seq(
            s.drop_last().drop_first(),
        ));
    } else {
        assert(s.drop_last() =~= Seq::<SpecTy>::empty());
        assert(s.drop_first() =~= Seq::<SpecTy>::empty());
        assert(sty_size_seq(s) == sty_size(s[0]) + sty_size_seq(s.drop_first()));
    }
}

/// An element weighs no more than its sequence.
pub broadcast proof fn lemma_sty_size_seq_index(s: Seq<SpecTy>, i: int)
    requires
        0 <= i < s.len(),
    ensures
        #[trigger] sty_size(s[i]) <= sty_size_seq(s),
    decreases s,
{
    if i > 0 {
        lemma_sty_size_seq_index(s.drop_first(), i - 1);
        assert(s.drop_first()[i - 1] == s[i]);
    }
}

/// Whether the already-failed type is anywhere inside.
pub open spec fn has_error(t: SpecTy) -> bool
    decreases t,
{
    match t {
        SpecTy::Infer(_) => false,
        SpecTy::Param(_) => false,
        SpecTy::Adt(_, args) => has_error_seq(args),
        SpecTy::Opaque(_, args) => has_error_seq(args),
        SpecTy::Projection(_, _, args) => has_error_seq(args),
        SpecTy::Dynamic(_) => false,
        SpecTy::Closure(_, args, ret) => has_error_seq(args) || has_error(*ret),
        SpecTy::Generator(_, y, r) => has_error(*y) || has_error(*r),
        SpecTy::Error => true,
    }
}

pub open spec fn has_error_seq(s: Seq<SpecTy>) -> bool
    decreases s,
{
    if s.len() == 0 {
        false
    } else {
        has_error(s[0]) || has_error_seq(s.drop_first())
    }
}

pub broadcast proof fn lemma_has_error_seq(s: Seq<SpecTy>)
    ensures
        #[trigger] has_error_seq(s) <==> exists|i: int| 0 <= i < s.len() && has_error(s[i]),
    decreases s,
{
    if s.len() != 0 {
        lemma_has_error_seq(s.drop_first());
        if has_error_seq(s) {
            if has_error(s[0]) {
                assert(0 <= 0 < s.len() && has_error(s[0]));
            } else {
                let j = choose|j: int|
                    0 <= j < s.drop_first().len() && has_error(s.drop_first()[j]);
                assert(s[j + 1] == s.drop_first()[j]);
                assert(0 <= j + 1 < s.len() && has_error(s[j + 1]));
            }
        }
        if exists|i: int| 0 <= i < s.len() && has_error(s[i]) {
            let i = choose|i: int| 0 <= i < s.len() && has_error(s[i]);
            if i > 0 {
                assert(s.drop_first()[i - 1] == s[i]);
                assert(0 <= i - 1 < s.drop_first().len() && has_error(s.drop_first()[i - 1]));
            }
        }
    }
}

pub fn ty_has_error(t: &Ty) -> (r: bool)
    ensures
        r == has_error(t@),
    decreases t,
{
    broadcast use {lemma_view_ty_seq_len, lemma_view_ty_seq_index, lemma_has_error_seq};

    match t {
        Ty::Infer(_) => false,
        Ty::Param(_) => false,
        Ty::Adt(_, args) => tys_have_error(args),
        Ty::Opaque(_, args) => tys_have_error(args),
        Ty::Projection(_, _, args) => tys_have_error(args),
        Ty::Dynamic(_) => false,
        Ty::Closure(_, args, ret) => tys_have_error(args) || ty_has_error(ret),
        Ty::Generator(_, y, r) => ty_has_error(y) || ty_has_error(r),
        Ty::Error => true,
    }
}

pub fn tys_have_error(tys: &Vec<Ty>) -> (r: bool)
    ensures
        r == has_error_seq(view_ty_seq(tys@)),
    decreases tys@,
{
    broadcast use {lemma_view_ty_seq_len, lemma_view_ty_seq_index, lemma_has_error_seq};

    let n = tys.len();
    for i in 0..n
        invariant
            n == tys@.len(),
            forall|j: int| 0 <= j < i ==> !has_error(view_ty_seq(tys@)[j]),
    {
        if ty_has_error(&tys[i]) {
            proof {
                assert(has_error(view_ty_seq(tys@)[i as int]));
            }
            return true;
        }
    }
    false
}

/// Whether a generic parameter occurs anywhere inside.
pub open spec fn has_param(t: SpecTy) -> bool
    decreases t,
{
    match t {
        SpecTy::Infer(_) => false,
        SpecTy::Param(_) => true,
        SpecTy::Adt(_, args) => has_param_seq(args),
        SpecTy::Opaque(_, args) => has_param_seq(args),
        SpecTy::Projection(_, _, args) => has_param_seq(args),
        SpecTy::Dynamic(_) => false,
        SpecTy::Closure(_, args, ret) => has_param_seq(args) || has_param(*ret),
        SpecTy::Generator(_, y, r) => has_param(*y) || has_param(*r),
        SpecTy::Error => false,
    }
}

pub open spec fn has_param_seq(s: Seq<SpecTy>) -> bool
    decreases s,
{
    if s.len() == 0 {
        false
    } else {
        has_param(s[0]) || has_param_seq(s.drop_first())
    }
}

pub broadcast proof fn lemma_has_param_seq(s: Seq<SpecTy>)
    ensures
        #[trigger] has_param_seq(s) <==> exists|i: int| 0 <= i < s.len() && has_param(s[i]),
    decreases s,
{
    if s.len() != 0 {
        lemma_has_param_seq(s.drop_first());
        if has_param_seq(s) {
            if has_param(s[0]) {
                assert(0 <= 0 < s.len() && has_param(s[0]));
            } else {
                let j = choose|j: int|
                    0 <= j < s.drop_first().len() && has_param(s.drop_first()[j]);
                assert(s[j + 1] == s.drop_first()[j]);
                assert(0 <= j + 1 < s.len() && has_param(s[j + 1]));
            }
        }
        if exists|i: int| 0 <= i < s.len() && has_param(s[i]) {
            let i = choose|i: int| 0 <= i < s.len() && has_param(s[i]);
            if i > 0 {
                assert(s.drop_first()[i - 1] == s[i]);
                assert(0 <= i - 1 < s.drop_first().len() && has_param(s.drop_first()[i - 1]));
            }
        }
    }
}

pub fn ty_has_param(t: &Ty) -> (r: bool)
    ensures
        r == has_param(t@),
    decreases t,
{
    broadcast use {lemma_view_ty_seq_len, lemma_view_ty_seq_index, lemma_has_param_seq};

    match t {
        Ty::Infer(_) => false,
        Ty::Param(_) => true,
        Ty::Adt(_, args) => tys_have_param(args),
        Ty::Opaque(_, args) => tys_have_param(args),
        Ty::Projection(_, _, args) => tys_have_param(args),
        Ty::Dynamic(_) => false,
        Ty::Closure(_, args, ret) => tys_have_param(args) || ty_has_param(ret),
        Ty::Generator(_, y, r) => ty_has_param(y) || ty_has_param(r),
        Ty::Error => false,
    }
}

pub fn tys_have_param(tys: &Vec<Ty>) -> (r: bool)
    ensures
        r == has_param_seq(view_ty_seq(tys@)),
    decreases tys@,
{
    broadcast use {lemma_view_ty_seq_len, lemma_view_ty_seq_index, lemma_has_param_seq};

    let n = tys.len();
    for i in 0..n
        invariant
            n == tys@.len(),
            forall|j: int| 0 <= j < i ==> !has_param(view_ty_seq(tys@)[j]),
    {
        if ty_has_param(&tys[i]) {
            proof {
                assert(has_param(view_ty_seq(tys@)[i as int]));
            }
            return true;
        }
    }
    false
}

/// A type without inference variables has no variable occurrences.
pub proof fn lemma_occurs_implies_has_infer(u: u64, t: SpecTy)
    ensures
        occurs(u, t) ==> has_infer(t),
    decreases t,
{
    broadcast use {lemma_occurs_seq, lemma_has_infer_seq};

    match t {
        SpecTy::Adt(_, a) => lemma_occurs_implies_has_infer_seq(u, a),
        SpecTy::Opaque(_, a) => lemma_occurs_implies_has_infer_seq(u, a),
        SpecTy::Projection(_, _, a) => lemma_occurs_implies_has_infer_seq(u, a),
        SpecTy::Closure(_, a, ret) => {
            lemma_occurs_implies_has_infer_seq(u, a);
            lemma_occurs_implies_has_infer(u, *ret);
        }
        SpecTy::Generator(_, y, r) => {
            lemma_occurs_implies_has_infer(u, *y);
            lemma_occurs_implies_has_infer(u, *r);
        }
        _ => {}
    }
}

pub proof fn lemma_occurs_implies_has_infer_seq(u: u64, s: Seq<SpecTy>)
    ensures
        occurs_seq(u, s) ==> has_infer_seq(s),
    decreases s,
{
    broadcast use {lemma_occurs_seq, lemma_has_infer_seq};

    if occurs_seq(u, s) {
        let i = choose|i: int| 0 <= i < s.len() && occurs(u, s[i]);
        lemma_occurs_implies_has_infer(u, s[i]);
    }
}

} // verus!
