//! The definition tables: what each integer id used by the type model
//! means. A `Tables` value describes one type-checking unit's world of
//! traits, impls, associated-type definitions, opaque types, trait objects,
//! closures and constants. It is built once and only read.

use vstd::prelude::*;

use crate::predicate::{ClosureKind, Predicate, ProjectionPredicate, TraitRef};
use crate::ty::Ty;

verus! {

/// The first value stored under `id`, if any.
pub open spec fn find_key<V>(s: Seq<(u64, V)>, id: u64) -> Option<V>
    decreases s.len(),
{
    if s.len() == 0 {
        None
    } else if s[0].0 == id {
        Some(s[0].1)
    } else {
        find_key(s.drop_first(), id)
    }
}

/// If `i` is the first index holding `id`, the lookup returns its value.
pub proof fn lemma_find_key_hit<V>(s: Seq<(u64, V)>, id: u64, i: int)
    requires
        0 <= i < s.len(),
        s[i].0 == id,
        forall|j: int| 0 <= j < i ==> s[j].0 != id,
    ensures
        find_key(s, id) == Some(s[i].1),
    decreases s.len(),
{
    if i > 0 {
        assert(s[0].0 != id);
        lemma_find_key_hit(s.drop_first(), id, i - 1);
        assert(s.drop_first()[i - 1] == s[i]);
    }
}

/// If no index holds `id`, the lookup misses.
pub proof fn lemma_find_key_miss<V>(s: Seq<(u64, V)>, id: u64)
    requires
        forall|j: int| 0 <= j < s.len() ==> s[j].0 != id,
    ensures
        find_key(s, id) is None,
    decreases s.len(),
{
    if s.len() > 0 {
        assert(s[0].0 != id);
        assert(forall|j: int| 0 <= j < s.drop_first().len() ==> s.drop_first()[j].0 != id);
        lemma_find_key_miss(s.drop_first(), id);
    }
}

/// One associated-type definition inside an impl.
#[derive(Debug)]
pub struct AssocTyDef {
    /// The associated item this defines.
    pub item_id: u64,
    /// The defining type, over the impl's generic parameters.
    pub ty: Ty,
    /// Whether the impl actually supplies a value (a missing value is a
    /// definition error reported elsewhere).
    pub has_value: bool,
    /// Whether the value is a specializable `default`.
    pub is_default: bool,
}

/// One impl: `impl<P0..Pn> Trait<..> for SelfTy { type Item = ..; }`,
/// everything written over the impl's generic parameters `Param(i)`.
#[derive(Debug)]
pub struct ImplDef {
    /// The implemented trait reference; `substs[0]` is the self type.
    pub trait_ref: TraitRef,
    /// The number of generic parameters of the impl.
    pub generics: u64,
    /// The associated types the impl defines.
    pub assoc_tys: Vec<AssocTyDef>,
    /// The impl's where-clauses, instantiated as nested obligations when
    /// the impl is selected.
    pub where_clauses: Vec<Predicate>,
}

/// Per-trait flags.
#[derive(Clone, Copy, PartialEq, Eq, Structural, Debug)]
pub struct TraitFlags {
    /// Whether a cyclic proof through this trait is legitimate.
    pub coinductive: bool,
    /// Whether the trait can be used as a trait object.
    pub object_safe: bool,
}

/// A trait-object type: its principal trait and its projection bounds.
/// `Param(0)` stands for the object type itself.
#[derive(Debug)]
pub struct DynDef {
    pub principal_trait: u64,
    pub principal_substs: Vec<Ty>,
    pub bounds: Vec<ProjectionPredicate>,
}

/// What the const-evaluation capability answers for a definition.
#[derive(Clone, Copy, PartialEq, Eq, Structural, Debug)]
pub enum ConstEvalResult {
    /// Evaluated to a plain value.
    Value(u64),
    /// Evaluation failed and the error has been reported.
    Reported,
    /// Not enough information yet; retry later.
    TooGeneric,
}

/// The definition tables.
#[derive(Debug)]
pub struct Tables {
    pub impls: Vec<ImplDef>,
    pub trait_flags: Vec<(u64, TraitFlags)>,
    /// Bounds declared on an associated item or opaque definition, over
    /// the definition's generic parameters.
    pub item_bounds: Vec<(u64, Vec<Predicate>)>,
    /// The concrete type behind an opaque definition, over its parameters.
    pub opaques: Vec<(u64, Ty)>,
    pub dyns: Vec<(u64, DynDef)>,
    pub const_evals: Vec<(u64, ConstEvalResult)>,
    /// The inferred kind of each closure, where known.
    pub closure_kinds: Vec<(u64, ClosureKind)>,
    /// Enum constructors and their discriminant types.
    pub enum_discr: Vec<(u64, u64)>,
    pub fn_once_trait: u64,
    pub fn_mut_trait: u64,
    pub fn_trait: u64,
    pub fn_once_output_item: u64,
    pub generator_trait: u64,
    pub generator_yield_item: u64,
    pub generator_return_item: u64,
    pub discriminant_trait: u64,
    pub discriminant_item: u64,
    /// The constructor id standing for argument tuples of callables.
    pub tuple_adt: u64,
    /// The constructor id of `u8`, the default discriminant type.
    pub u8_adt: u64,
    /// The constructor id of `i32`, the generator discriminant type.
    pub i32_adt: u64,
}

impl Tables {
    pub open spec fn spec_trait_flags(&self, id: u64) -> TraitFlags {
        match find_key(self.trait_flags@, id) {
            Some(f) => f,
            None => TraitFlags { coinductive: false, object_safe: false },
        }
    }

    /// The flags of a trait; an unknown trait has none set.
    pub fn lookup_trait_flags(&self, id: u64) -> (r: TraitFlags)
        ensures
            r == self.spec_trait_flags(id),
    {
        let n = self.trait_flags.len();
        for i in 0..n
            invariant
                n == self.trait_flags@.len(),
                forall|j: int| 0 <= j < i ==> self.trait_flags@[j].0 != id,
        {
            if self.trait_flags[i].0 == id {
                proof {
                    lemma_find_key_hit(self.trait_flags@, id, i as int);
                }
                return self.trait_flags[i].1;
            }
        }
        proof {
            lemma_find_key_miss(self.trait_flags@, id);
        }
        TraitFlags { coinductive: false, object_safe: false }
    }

    pub open spec fn spec_item_bounds_index(&self, id: u64) -> Option<int> {
        spec_first_key_index(self.item_bounds@, id)
    }

    /// The index of the bounds recorded for an associated item or opaque
    /// definition.
    pub fn lookup_item_bounds(&self, id: u64) -> (r: Option<usize>)
        ensures
            match r {
                Some(i) => i < self.item_bounds@.len() && self.item_bounds@[i as int].0 == id
                    && spec_first_key_index(self.item_bounds@, id) == Some(i as int),
                None => spec_first_key_index(self.item_bounds@, id) is None,
            },
    {
        let n = self.item_bounds.len();
        for i in 0..n
            invariant
                n == self.item_bounds@.len(),
                forall|j: int| 0 <= j < i ==> self.item_bounds@[j].0 != id,
        {
            if self.item_bounds[i].0 == id {
                proof {
                    lemma_first_key_index_hit(self.item_bounds@, id, i as int);
                }
                return Some(i);
            }
        }
        proof {
            lemma_first_key_index_miss(self.item_bounds@, id);
        }
        None
    }

    /// The index of the concrete type behind an opaque definition.
    pub fn lookup_opaque(&self, id: u64) -> (r: Option<usize>)
        ensures
            match r {
                Some(i) => i < self.opaques@.len() && self.opaques@[i as int].0 == id
                    && spec_first_key_index(self.opaques@, id) == Some(i as int),
                None => spec_first_key_index(self.opaques@, id) is None,
            },
    {
        let n = self.opaques.len();
        for i in 0..n
            invariant
                n == self.opaques@.len(),
                forall|j: int| 0 <= j < i ==> self.opaques@[j].0 != id,
        {
            if self.opaques[i].0 == id {
                proof {
                    lemma_first_key_index_hit(self.opaques@, id, i as int);
                }
                return Some(i);
            }
        }
        proof {
            lemma_first_key_index_miss(self.opaques@, id);
        }
        None
    }

    /// The index of a trait-object definition.
    pub fn lookup_dyn(&self, id: u64) -> (r: Option<usize>)
        ensures
            match r {
                Some(i) => i < self.dyns@.len() && self.dyns@[i as int].0 == id
                    && spec_first_key_index(self.dyns@, id) == Some(i as int),
                None => spec_first_key_index(self.dyns@, id) is None,
            },
    {
        let n = self.dyns.len();
        for i in 0..n
            invariant
                n == self.dyns@.len(),
                forall|j: int| 0 <= j < i ==> self.dyns@[j].0 != id,
        {
            if self.dyns[i].0 == id {
                proof {
                    lemma_first_key_index_hit(self.dyns@, id, i as int);
                }
                return Some(i);
            }
        }
        proof {
            lemma_first_key_index_miss(self.dyns@, id);
        }
        None
    }

    pub open spec fn spec_const_eval(&self, id: u64) -> ConstEvalResult {
        match find_key(self.const_evals@, id) {
            Some(r) => r,
            None => ConstEvalResult::Reported,
        }
    }

    /// The const-evaluation capability: what evaluating the definition
    /// yields. An unknown definition is a reported error.
    pub fn const_eval(&self, id: u64) -> (r: ConstEvalResult)
        ensures
            r == self.spec_const_eval(id),
    {
        let n = self.const_evals.len();
        for i in 0..n
            invariant
                n == self.const_evals@.len(),
                forall|j: int| 0 <= j < i ==> self.const_evals@[j].0 != id,
        {
            if self.const_evals[i].0 == id {
                proof {
                    lemma_find_key_hit(self.const_evals@, id, i as int);
                }
                return self.const_evals[i].1;
            }
        }
        proof {
            lemma_find_key_miss(self.const_evals@, id);
        }
        ConstEvalResult::Reported
    }

    pub open spec fn spec_closure_kind(&self, id: u64) -> Option<ClosureKind> {
        find_key(self.closure_kinds@, id)
    }

    /// The closure-kind capability: the inferred kind of a closure, or
    /// `None` while it is not yet known.
    pub fn closure_kind(&self, id: u64) -> (r: Option<ClosureKind>)
        ensures
            r == self.spec_closure_kind(id),
    {
        let n = self.closure_kinds.len();
        for i in 0..n
            invariant
                n == self.closure_kinds@.len(),
                forall|j: int| 0 <= j < i ==> self.closure_kinds@[j].0 != id,
        {
            if self.closure_kinds[i].0 == id {
                proof {
                    lemma_find_key_hit(self.closure_kinds@, id, i as int);
                }
                return Some(self.closure_kinds[i].1);
            }
        }
        proof {
            lemma_find_key_miss(self.closure_kinds@, id);
        }
        None
    }

    pub open spec fn spec_enum_discr(&self, id: u64) -> Option<u64> {
        find_key(self.enum_discr@, id)
    }

    /// The discriminant type of an enum constructor, or `None` for a
    /// non-enum constructor.
    pub fn enum_discr_of(&self, id: u64) -> (r: Option<u64>)
        ensures
            r == self.spec_enum_discr(id),
    {
        let n = self.enum_discr.len();
        for i in 0..n
            invariant
                n == self.enum_discr@.len(),
                forall|j: int| 0 <= j < i ==> self.enum_discr@[j].0 != id,
        {
            if self.enum_discr[i].0 == id {
                proof {
                    lemma_find_key_hit(self.enum_discr@, id, i as int);
                }
                return Some(self.enum_discr[i].1);
            }
        }
        proof {
            lemma_find_key_miss(self.enum_discr@, id);
        }
        None
    }
}

/// The first index holding `id`, if any.
pub open spec fn spec_first_key_index<V>(s: Seq<(u64, V)>, id: u64) -> Option<int>
    decreases s.len(),
{
    if s.len() == 0 {
        None
    } else if s[0].0 == id {
        Some(0)
    } else {
        match spec_first_key_index(s.drop_first(), id) {
            Some(i) => Some(i + 1),
            None => None,
        }
    }
}

pub proof fn lemma_first_key_index_hit<V>(s: Seq<(u64, V)>, id: u64, i: int)
    requires
        0 <= i < s.len(),
        s[i].0 == id,
        forall|j: int| 0 <= j < i ==> s[j].0 != id,
    ensures
        spec_first_key_index(s, id) == Some(i),
    decreases s.len(),
{
    if i > 0 {
        assert(s[0].0 != id);
        lemma_first_key_index_hit(s.drop_first(), id, i - 1);
        assert(s.drop_first()[i - 1] == s[i]);
    }
}

pub proof fn lemma_first_key_index_miss<V>(s: Seq<(u64, V)>, id: u64)
    requires
        forall|j: int| 0 <= j < s.len() ==> s[j].0 != id,
    ensures
        spec_first_key_index(s, id) is None,
    decreases s.len(),
{
    if s.len() > 0 {
        assert(s[0].0 != id);
        assert(forall|j: int| 0 <= j < s.drop_first().len() ==> s.drop_first()[j].0 != id);
        lemma_first_key_index_miss(s.drop_first(), id);
    }
}

} // verus!
