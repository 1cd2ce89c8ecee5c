//! End-to-end scenarios for the fulfillment engine: registering
//! obligations, running the forest to a fixpoint, and normalizing
//! projections through the cache.

use fulfillment::fulfill::{FulfillmentContext, FulfillmentError, FulfillmentErrorCode};
use fulfillment::infer::InferCtxt;
use fulfillment::predicate::{
    Const, Obligation, ParamEnv, Predicate, ProjectionPredicate, ProjectionTy, Reveal, TraitRef,
};
use fulfillment::select::SelectionError;
use fulfillment::tables::{AssocTyDef, DynDef, ImplDef, Tables, TraitFlags};
use fulfillment::ty::Ty;

// Trait ids.
const CLONE_TRAIT: u64 = 1;
const ITERATOR_TRAIT: u64 = 2;
const MY_TRAIT: u64 = 3;
const LOOPY_TRAIT: u64 = 4;
const COIND_TRAIT: u64 = 5;
const MUTUAL_A: u64 = 6;
const MUTUAL_B: u64 = 7;
const AMBIG_TRAIT: u64 = 8;
const FN_ONCE_TRAIT: u64 = 11;
const FN_MUT_TRAIT: u64 = 12;
const FN_TRAIT: u64 = 13;
const GENERATOR_TRAIT: u64 = 14;
const DISCR_TRAIT: u64 = 15;

// Associated item ids.
const ITERATOR_ITEM: u64 = 21;
const MY_ASSOC: u64 = 22;
const AMBIG_ASSOC: u64 = 27;
const FN_ONCE_OUTPUT: u64 = 23;
const GEN_YIELD: u64 = 24;
const GEN_RETURN: u64 = 25;
const DISCR_ITEM: u64 = 26;

// Type constructor ids.
const VEC_ADT: u64 = 101;
const BOX_ADT: u64 = 102;
const I32_ADT: u64 = 103;
const U32_ADT: u64 = 104;
const U8_ADT: u64 = 105;
const ISIZE_ADT: u64 = 106;
const LOOPY_SELF: u64 = 107;
const TUPLE_ADT: u64 = 108;

// Opaque, dyn, closure, generator, enum, const definition ids.
const OPAQUE_DEF: u64 = 301;
const DYN_DEF: u64 = 302;
const CLOSURE_DEF: u64 = 303;
const GENERATOR_DEF: u64 = 304;
const ENUM_ADT: u64 = 305;
const CONST_OK: u64 = 306;
const CONST_BAD: u64 = 307;

fn i32_ty() -> Ty {
    Ty::Adt(I32_ADT, Vec::new())
}

fn u32_ty() -> Ty {
    Ty::Adt(U32_ADT, Vec::new())
}

fn vec_of(t: Ty) -> Ty {
    Ty::Adt(VEC_ADT, vec![t])
}

fn box_of(t: Ty) -> Ty {
    Ty::Adt(BOX_ADT, vec![t])
}

/// `impl<T> Clone for Vec<T> where T: Clone`, `impl Clone for i32`,
/// `impl<T> MyTrait for Vec<T> { type AssocType = Box<T>; }`, a
/// self-requiring impl for the cycle tests, an opaque definition, a
/// trait object, a closure and a generator.
fn basic_tables() -> Tables {
    let impls = vec![
        ImplDef {
            trait_ref: TraitRef { trait_id: CLONE_TRAIT, substs: vec![vec_of(Ty::Param(0))] },
            generics: 1,
            assoc_tys: Vec::new(),
            where_clauses: vec![Predicate::Trait(TraitRef {
                trait_id: CLONE_TRAIT,
                substs: vec![Ty::Param(0)],
            })],
        },
        ImplDef {
            trait_ref: TraitRef { trait_id: CLONE_TRAIT, substs: vec![i32_ty()] },
            generics: 0,
            assoc_tys: Vec::new(),
            where_clauses: Vec::new(),
        },
        ImplDef {
            trait_ref: TraitRef { trait_id: MY_TRAIT, substs: vec![vec_of(Ty::Param(0))] },
            generics: 1,
            assoc_tys: vec![AssocTyDef {
                item_id: MY_ASSOC,
                ty: box_of(Ty::Param(0)),
                has_value: true,
                is_default: false,
            }],
            where_clauses: Vec::new(),
        },
        // The cyclic impls: proving the bound requires the bound itself.
        ImplDef {
            trait_ref: TraitRef {
                trait_id: LOOPY_TRAIT,
                substs: vec![Ty::Adt(LOOPY_SELF, Vec::new())],
            },
            generics: 0,
            assoc_tys: Vec::new(),
            where_clauses: vec![Predicate::Trait(TraitRef {
                trait_id: LOOPY_TRAIT,
                substs: vec![Ty::Adt(LOOPY_SELF, Vec::new())],
            })],
        },
        ImplDef {
            trait_ref: TraitRef {
                trait_id: COIND_TRAIT,
                substs: vec![Ty::Adt(LOOPY_SELF, Vec::new())],
            },
            generics: 0,
            assoc_tys: Vec::new(),
            where_clauses: vec![Predicate::Trait(TraitRef {
                trait_id: COIND_TRAIT,
                substs: vec![Ty::Adt(LOOPY_SELF, Vec::new())],
            })],
        },
        ImplDef {
            trait_ref: TraitRef {
                trait_id: MUTUAL_A,
                substs: vec![Ty::Adt(LOOPY_SELF, Vec::new())],
            },
            generics: 0,
            assoc_tys: Vec::new(),
            where_clauses: vec![Predicate::Trait(TraitRef {
                trait_id: MUTUAL_B,
                substs: vec![Ty::Adt(LOOPY_SELF, Vec::new())],
            })],
        },
        ImplDef {
            trait_ref: TraitRef {
                trait_id: MUTUAL_B,
                substs: vec![Ty::Adt(LOOPY_SELF, Vec::new())],
            },
            generics: 0,
            assoc_tys: Vec::new(),
            where_clauses: vec![Predicate::Trait(TraitRef {
                trait_id: MUTUAL_A,
                substs: vec![Ty::Adt(LOOPY_SELF, Vec::new())],
            })],
        },
        // Two overlapping impls: selecting for Vec<?0> is ambiguous.
        ImplDef {
            trait_ref: TraitRef { trait_id: AMBIG_TRAIT, substs: vec![vec_of(Ty::Param(0))] },
            generics: 1,
            assoc_tys: vec![AssocTyDef {
                item_id: AMBIG_ASSOC,
                ty: i32_ty(),
                has_value: true,
                is_default: false,
            }],
            where_clauses: Vec::new(),
        },
        ImplDef {
            trait_ref: TraitRef { trait_id: AMBIG_TRAIT, substs: vec![vec_of(u32_ty())] },
            generics: 0,
            assoc_tys: vec![AssocTyDef {
                item_id: AMBIG_ASSOC,
                ty: u32_ty(),
                has_value: true,
                is_default: false,
            }],
            where_clauses: Vec::new(),
        },
    ];
    Tables {
        impls,
        trait_flags: vec![
            (CLONE_TRAIT, TraitFlags { coinductive: false, object_safe: true }),
            (LOOPY_TRAIT, TraitFlags { coinductive: false, object_safe: false }),
            (COIND_TRAIT, TraitFlags { coinductive: true, object_safe: false }),
        ],
        item_bounds: Vec::new(),
        opaques: vec![(OPAQUE_DEF, vec_of(Ty::Param(0)))],
        dyns: vec![(
            DYN_DEF,
            DynDef {
                principal_trait: ITERATOR_TRAIT,
                principal_substs: vec![Ty::Param(0)],
                bounds: vec![ProjectionPredicate {
                    projection_ty: ProjectionTy {
                        trait_id: ITERATOR_TRAIT,
                        item_id: ITERATOR_ITEM,
                        substs: vec![Ty::Param(0)],
                    },
                    ty: u32_ty(),
                }],
            },
        )],
        const_evals: vec![(CONST_OK, fulfillment::tables::ConstEvalResult::Value(7))],
        closure_kinds: vec![(CLOSURE_DEF, fulfillment::predicate::ClosureKind::Fn)],
        enum_discr: vec![(ENUM_ADT, ISIZE_ADT)],
        fn_once_trait: FN_ONCE_TRAIT,
        fn_mut_trait: FN_MUT_TRAIT,
        fn_trait: FN_TRAIT,
        fn_once_output_item: FN_ONCE_OUTPUT,
        generator_trait: GENERATOR_TRAIT,
        generator_yield_item: GEN_YIELD,
        generator_return_item: GEN_RETURN,
        discriminant_trait: DISCR_TRAIT,
        discriminant_item: DISCR_ITEM,
        tuple_adt: TUPLE_ADT,
        u8_adt: U8_ADT,
        i32_adt: I32_ADT,
    }
}

fn empty_env() -> ParamEnv {
    ParamEnv { caller_bounds: Vec::new(), reveal: Reveal::UserFacing }
}

fn trait_obligation(trait_id: u64, self_ty: Ty) -> Obligation {
    Obligation {
        cause: 0,
        param_env: empty_env(),
        recursion_depth: 0,
        predicate: Predicate::Trait(TraitRef { trait_id, substs: vec![self_ty] }),
    }
}

#[test]
fn vec_i32_clone_fulfills() {
    let tables = basic_tables();
    let mut infcx = InferCtxt::new();
    let mut fctx = FulfillmentContext::new();
    fctx.register_predicate_obligation(&infcx, trait_obligation(CLONE_TRAIT, vec_of(i32_ty())));
    let result = fctx.select_all_or_error(&tables, &mut infcx);
    assert!(result.is_ok());
    assert_eq!(fctx.pending_obligations().len(), 0);
}

#[test]
fn missing_impl_reports_unimplemented() {
    let tables = basic_tables();
    let mut infcx = InferCtxt::new();
    let mut fctx = FulfillmentContext::new();
    // No impl of Clone for u32 exists.
    fctx.register_predicate_obligation(&infcx, trait_obligation(CLONE_TRAIT, u32_ty()));
    let result = fctx.select_all_or_error(&tables, &mut infcx);
    let errors = result.unwrap_err();
    assert_eq!(errors.len(), 1);
    match &errors[0].code {
        FulfillmentErrorCode::CodeSelectionError(SelectionError::Unimplemented) => {}
        other => panic!("unexpected error code: {:?}", other),
    }
    // The reported obligation is the one registered.
    match &errors[0].obligation.predicate {
        Predicate::Trait(tr) => assert_eq!(tr.trait_id, CLONE_TRAIT),
        other => panic!("unexpected predicate: {:?}", other),
    }
}

#[test]
fn nested_failure_reports_root_obligation() {
    let tables = basic_tables();
    let mut infcx = InferCtxt::new();
    let mut fctx = FulfillmentContext::new();
    // Vec<u32>: Clone selects the Vec impl, whose nested u32: Clone fails;
    // the reported error carries the root obligation in its backtrace.
    fctx.register_predicate_obligation(&infcx, trait_obligation(CLONE_TRAIT, vec_of(u32_ty())));
    let errors = fctx.select_all_or_error(&tables, &mut infcx).unwrap_err();
    assert_eq!(errors.len(), 1);
    assert!(errors[0].backtrace.len() >= 2);
    match &errors[0].obligation.predicate {
        Predicate::Trait(tr) => {
            assert_eq!(tr.trait_id, CLONE_TRAIT);
            assert_eq!(tr.substs[0], vec_of(u32_ty()));
        }
        other => panic!("unexpected predicate: {:?}", other),
    }
}

#[test]
fn unresolved_projection_stays_pending_with_stall_vars() {
    let tables = basic_tables();
    let mut infcx = InferCtxt::new();
    let mut fctx = FulfillmentContext::new();
    let t = infcx.next_ty_var();
    let var_id = match &t {
        Ty::Infer(v) => *v,
        _ => unreachable!(),
    };
    // Normalizing a projection with an unresolved self type makes no
    // progress: the projection comes back unchanged.
    let projection = ProjectionTy {
        trait_id: ITERATOR_TRAIT,
        item_id: ITERATOR_ITEM,
        substs: vec![t.clone()],
    };
    let normalized = fctx
        .normalize_projection_type(&tables, &mut infcx, &empty_env(), &projection, 0)
        .unwrap();
    assert_eq!(normalized, Ty::Projection(ITERATOR_TRAIT, ITERATOR_ITEM, vec![t.clone()]));
    // A registered equality on it stays pending, stalled on the variable.
    fctx.register_predicate_obligation(
        &infcx,
        Obligation {
            cause: 0,
            param_env: empty_env(),
            recursion_depth: 0,
            predicate: Predicate::Projection(ProjectionPredicate {
                projection_ty: projection,
                ty: u32_ty(),
            }),
        },
    );
    let result = fctx.select_where_possible(&tables, &mut infcx);
    assert!(result.is_ok());
    let pending = fctx.pending_obligations();
    assert_eq!(pending.len(), 1);
    let stalled = &fctx.predicates.nodes[0].pending.stalled_on;
    assert!(stalled.contains(&var_id));
}

#[test]
fn projection_normalizes_through_impl() {
    let tables = basic_tables();
    let mut infcx = InferCtxt::new();
    let mut fctx = FulfillmentContext::new();
    // <Vec<u32> as MyTrait>::AssocType == Box<u32>.
    let obligation = Obligation {
        cause: 0,
        param_env: empty_env(),
        recursion_depth: 0,
        predicate: Predicate::Projection(ProjectionPredicate {
            projection_ty: ProjectionTy {
                trait_id: MY_TRAIT,
                item_id: MY_ASSOC,
                substs: vec![vec_of(u32_ty())],
            },
            ty: box_of(u32_ty()),
        }),
    };
    fctx.register_predicate_obligation(&infcx, obligation);
    let result = fctx.select_all_or_error(&tables, &mut infcx);
    assert!(result.is_ok());
    assert_eq!(fctx.pending_obligations().len(), 0);
}

#[test]
fn normalize_projection_yields_defining_type() {
    let tables = basic_tables();
    let mut infcx = InferCtxt::new();
    let mut fctx = FulfillmentContext::new();
    let projection = ProjectionTy {
        trait_id: MY_TRAIT,
        item_id: MY_ASSOC,
        substs: vec![vec_of(u32_ty())],
    };
    let normalized = fctx
        .normalize_projection_type(&tables, &mut infcx, &empty_env(), &projection, 0)
        .unwrap();
    let resolved = infcx.resolve_ty(&normalized);
    assert_eq!(resolved, box_of(u32_ty()));
}

#[test]
fn cyclic_obligation_is_a_fatal_cycle_error() {
    let tables = basic_tables();
    let mut infcx = InferCtxt::new();
    let mut fctx = FulfillmentContext::new();
    fctx.register_predicate_obligation(
        &infcx,
        trait_obligation(LOOPY_TRAIT, Ty::Adt(LOOPY_SELF, Vec::new())),
    );
    let errors = fctx.select_all_or_error(&tables, &mut infcx).unwrap_err();
    assert_eq!(errors.len(), 1);
    assert!(matches!(errors[0].code, FulfillmentErrorCode::CodeCycle(_)));
}

#[test]
fn coinductive_cycle_fulfills() {
    let tables = basic_tables();
    let mut infcx = InferCtxt::new();
    let mut fctx = FulfillmentContext::new();
    fctx.register_predicate_obligation(
        &infcx,
        trait_obligation(COIND_TRAIT, Ty::Adt(LOOPY_SELF, Vec::new())),
    );
    let result = fctx.select_all_or_error(&tables, &mut infcx);
    assert!(result.is_ok());
}

#[test]
fn acyclic_chain_resolves_fully() {
    let tables = basic_tables();
    let mut infcx = InferCtxt::new();
    let mut fctx = FulfillmentContext::new();
    // Vec<Vec<Vec<Vec<Vec<i32>>>>>: Clone unfolds one nested obligation
    // per depth level and fully resolves.
    let deep = vec_of(vec_of(vec_of(vec_of(vec_of(i32_ty())))));
    fctx.register_predicate_obligation(&infcx, trait_obligation(CLONE_TRAIT, deep));
    let result = fctx.select_all_or_error(&tables, &mut infcx);
    assert!(result.is_ok());
    assert_eq!(fctx.pending_obligations().len(), 0);
}

#[test]
fn ambient_bound_dominates_impl_candidate() {
    let tables = basic_tables();
    let mut infcx = InferCtxt::new();
    let mut fctx = FulfillmentContext::new();
    // The environment promises <Vec<u32> as MyTrait>::AssocType == i32,
    // while the impl would give Box<u32>: the ambient bound wins, and no
    // ambiguity is reported.
    let env = ParamEnv {
        caller_bounds: vec![Predicate::Projection(ProjectionPredicate {
            projection_ty: ProjectionTy {
                trait_id: MY_TRAIT,
                item_id: MY_ASSOC,
                substs: vec![vec_of(u32_ty())],
            },
            ty: i32_ty(),
        })],
        reveal: Reveal::UserFacing,
    };
    let projection = ProjectionTy {
        trait_id: MY_TRAIT,
        item_id: MY_ASSOC,
        substs: vec![vec_of(u32_ty())],
    };
    let normalized = fctx
        .normalize_projection_type(&tables, &mut infcx, &env, &projection, 0)
        .unwrap();
    let resolved = infcx.resolve_ty(&normalized);
    assert_eq!(resolved, i32_ty());
}

#[test]
fn cached_normalization_skips_assembly_and_repeats_result() {
    let tables = basic_tables();
    let mut infcx = InferCtxt::new();
    let env = empty_env();
    let projection = ProjectionTy {
        trait_id: MY_TRAIT,
        item_id: MY_ASSOC,
        substs: vec![vec_of(u32_ty())],
    };
    let mut obls1: Vec<Obligation> = Vec::new();
    let first = fulfillment::project::opt_normalize_projection_type(
        &tables, &mut infcx, &env, &projection, 0, 0, &mut obls1,
    );
    let count_after_first = infcx.assembly_count;
    assert!(count_after_first >= 1);
    let first_value = match first {
        Ok(Some(t)) => infcx.resolve_ty(&t),
        other => panic!("unexpected first outcome: {:?}", other),
    };
    let mut obls2: Vec<Obligation> = Vec::new();
    let second = fulfillment::project::opt_normalize_projection_type(
        &tables, &mut infcx, &env, &projection, 0, 0, &mut obls2,
    );
    // Identical result, and assembly did not run again.
    let second_value = match second {
        Ok(Some(t)) => infcx.resolve_ty(&t),
        other => panic!("unexpected second outcome: {:?}", other),
    };
    assert_eq!(first_value, second_value);
    assert_eq!(infcx.assembly_count, count_after_first);
}

#[test]
fn ambiguous_normalization_stays_ambiguous_without_assembly() {
    let tables = basic_tables();
    let mut infcx = InferCtxt::new();
    let env = empty_env();
    // Vec<?0> matches both overlapping impls: conflicting candidates.
    let t = infcx.next_ty_var();
    let projection = ProjectionTy {
        trait_id: AMBIG_TRAIT,
        item_id: AMBIG_ASSOC,
        substs: vec![vec_of(t)],
    };
    let mut obls1: Vec<Obligation> = Vec::new();
    let first = fulfillment::project::opt_normalize_projection_type(
        &tables, &mut infcx, &env, &projection, 0, 0, &mut obls1,
    );
    assert!(matches!(first, Ok(None)));
    let count_after_first = infcx.assembly_count;
    let mut obls2: Vec<Obligation> = Vec::new();
    let second = fulfillment::project::opt_normalize_projection_type(
        &tables, &mut infcx, &env, &projection, 0, 0, &mut obls2,
    );
    assert!(matches!(second, Ok(None)));
    assert_eq!(infcx.assembly_count, count_after_first);
    assert_eq!(obls2.len(), 0);
}

#[test]
fn normalizing_a_normalized_type_is_identity() {
    let tables = basic_tables();
    let mut infcx = InferCtxt::new();
    let env = empty_env();
    let value = vec_of(box_of(i32_ty()));
    let count_before = infcx.assembly_count;
    let (normalized, obligations) =
        fulfillment::project::normalize(&tables, &mut infcx, &env, 0, &value).unwrap();
    assert_eq!(normalized, value);
    assert_eq!(obligations.len(), 0);
    assert_eq!(infcx.assembly_count, count_before);
}

#[test]
fn normalize_rewrites_nested_projection() {
    let tables = basic_tables();
    let mut infcx = InferCtxt::new();
    let env = empty_env();
    // Vec<<Vec<u32> as MyTrait>::AssocType> normalizes to Vec<Box<u32>>.
    let value = vec_of(Ty::Projection(
        MY_TRAIT,
        MY_ASSOC,
        vec![vec_of(u32_ty())],
    ));
    let (normalized, _obligations) =
        fulfillment::project::normalize(&tables, &mut infcx, &env, 0, &value).unwrap();
    let resolved = infcx.resolve_ty(&normalized);
    assert_eq!(resolved, vec_of(box_of(u32_ty())));
}

#[test]
fn opaque_type_reveals_only_past_type_checking() {
    let tables = basic_tables();
    let mut infcx = InferCtxt::new();
    let opaque = Ty::Opaque(OPAQUE_DEF, vec![i32_ty()]);

    let user_facing = ParamEnv { caller_bounds: Vec::new(), reveal: Reveal::UserFacing };
    let (kept, _) =
        fulfillment::project::normalize(&tables, &mut infcx, &user_facing, 0, &opaque).unwrap();
    assert_eq!(kept, Ty::Opaque(OPAQUE_DEF, vec![i32_ty()]));

    let reveal_all = ParamEnv { caller_bounds: Vec::new(), reveal: Reveal::All };
    let (revealed, _) =
        fulfillment::project::normalize(&tables, &mut infcx, &reveal_all, 0, &opaque).unwrap();
    assert_eq!(revealed, vec_of(i32_ty()));
}

#[test]
fn closure_output_projects_to_return_type() {
    let tables = basic_tables();
    let mut infcx = InferCtxt::new();
    let mut fctx = FulfillmentContext::new();
    let closure = Ty::Closure(CLOSURE_DEF, vec![i32_ty()], Box::new(u32_ty()));
    let projection = ProjectionTy {
        trait_id: FN_ONCE_TRAIT,
        item_id: FN_ONCE_OUTPUT,
        substs: vec![closure, Ty::Adt(TUPLE_ADT, vec![i32_ty()])],
    };
    let normalized = fctx
        .normalize_projection_type(&tables, &mut infcx, &empty_env(), &projection, 0)
        .unwrap();
    let resolved = infcx.resolve_ty(&normalized);
    assert_eq!(resolved, u32_ty());
}

#[test]
fn generator_projects_yield_and_return() {
    let tables = basic_tables();
    let mut infcx = InferCtxt::new();
    let mut fctx = FulfillmentContext::new();
    let generator = Ty::Generator(GENERATOR_DEF, Box::new(i32_ty()), Box::new(u32_ty()));
    let yield_proj = ProjectionTy {
        trait_id: GENERATOR_TRAIT,
        item_id: GEN_YIELD,
        substs: vec![generator.clone()],
    };
    let ret_proj = ProjectionTy {
        trait_id: GENERATOR_TRAIT,
        item_id: GEN_RETURN,
        substs: vec![generator],
    };
    let y = fctx
        .normalize_projection_type(&tables, &mut infcx, &empty_env(), &yield_proj, 0)
        .unwrap();
    assert_eq!(infcx.resolve_ty(&y), i32_ty());
    let r = fctx
        .normalize_projection_type(&tables, &mut infcx, &empty_env(), &ret_proj, 0)
        .unwrap();
    assert_eq!(infcx.resolve_ty(&r), u32_ty());
}

#[test]
fn object_projection_uses_the_object_bound() {
    let tables = basic_tables();
    let mut infcx = InferCtxt::new();
    let mut fctx = FulfillmentContext::new();
    // <dyn Iterator<Item = u32> as Iterator>::Item normalizes to u32.
    let projection = ProjectionTy {
        trait_id: ITERATOR_TRAIT,
        item_id: ITERATOR_ITEM,
        substs: vec![Ty::Dynamic(DYN_DEF)],
    };
    let normalized = fctx
        .normalize_projection_type(&tables, &mut infcx, &empty_env(), &projection, 0)
        .unwrap();
    assert_eq!(infcx.resolve_ty(&normalized), u32_ty());
}

#[test]
fn discriminant_of_enum_projects_to_declared_type() {
    let tables = basic_tables();
    let mut infcx = InferCtxt::new();
    let mut fctx = FulfillmentContext::new();
    let projection = ProjectionTy {
        trait_id: DISCR_TRAIT,
        item_id: DISCR_ITEM,
        substs: vec![Ty::Adt(ENUM_ADT, Vec::new())],
    };
    let normalized = fctx
        .normalize_projection_type(&tables, &mut infcx, &empty_env(), &projection, 0)
        .unwrap();
    assert_eq!(infcx.resolve_ty(&normalized), Ty::Adt(ISIZE_ADT, Vec::new()));

    // Any non-enum concrete type defaults to u8.
    let projection = ProjectionTy {
        trait_id: DISCR_TRAIT,
        item_id: DISCR_ITEM,
        substs: vec![u32_ty()],
    };
    let normalized = fctx
        .normalize_projection_type(&tables, &mut infcx, &empty_env(), &projection, 0)
        .unwrap();
    assert_eq!(infcx.resolve_ty(&normalized), Ty::Adt(U8_ADT, Vec::new()));
}

#[test]
fn const_equate_and_object_safety_errors() {
    let tables = basic_tables();
    let mut infcx = InferCtxt::new();
    let mut fctx = FulfillmentContext::new();
    fctx.register_predicate_obligation(
        &infcx,
        Obligation {
            cause: 0,
            param_env: empty_env(),
            recursion_depth: 0,
            predicate: Predicate::ConstEquate(Const::Value(1), Const::Value(2)),
        },
    );
    let errors = fctx.select_all_or_error(&tables, &mut infcx).unwrap_err();
    assert!(matches!(
        errors[0].code,
        FulfillmentErrorCode::CodeConstEquateError(Const::Value(1), Const::Value(2))
    ));

    let mut fctx = FulfillmentContext::new();
    fctx.register_predicate_obligation(
        &infcx,
        Obligation {
            cause: 0,
            param_env: empty_env(),
            recursion_depth: 0,
            // MyTrait was never marked object safe.
            predicate: Predicate::ObjectSafe(MY_TRAIT),
        },
    );
    let errors = fctx.select_all_or_error(&tables, &mut infcx).unwrap_err();
    assert!(matches!(
        errors[0].code,
        FulfillmentErrorCode::CodeSelectionError(SelectionError::Unimplemented)
    ));
}

#[test]
fn const_obligations_resolve_through_evaluation() {
    let tables = basic_tables();
    let mut infcx = InferCtxt::new();
    let mut fctx = FulfillmentContext::new();
    fctx.register_predicate_obligation(
        &infcx,
        Obligation {
            cause: 0,
            param_env: empty_env(),
            recursion_depth: 0,
            predicate: Predicate::ConstEvaluatable(CONST_OK),
        },
    );
    fctx.register_predicate_obligation(
        &infcx,
        Obligation {
            cause: 0,
            param_env: empty_env(),
            recursion_depth: 0,
            predicate: Predicate::ConstEquate(Const::Unevaluated(CONST_OK), Const::Value(7)),
        },
    );
    assert!(fctx.select_all_or_error(&tables, &mut infcx).is_ok());

    let mut fctx = FulfillmentContext::new();
    fctx.register_predicate_obligation(
        &infcx,
        Obligation {
            cause: 0,
            param_env: empty_env(),
            recursion_depth: 0,
            // An unknown definition is a reported evaluation failure.
            predicate: Predicate::ConstEvaluatable(CONST_BAD),
        },
    );
    let errors = fctx.select_all_or_error(&tables, &mut infcx).unwrap_err();
    assert!(matches!(
        errors[0].code,
        FulfillmentErrorCode::CodeSelectionError(SelectionError::ConstEvalFailure)
    ));
}

#[test]
fn subtype_binds_variables_and_outlives_registers_regions() {
    let tables = basic_tables();
    let mut infcx = InferCtxt::new();
    let mut fctx = FulfillmentContext::new();
    let v = infcx.next_ty_var();
    fctx.register_predicate_obligation(
        &infcx,
        Obligation {
            cause: 0,
            param_env: empty_env(),
            recursion_depth: 0,
            predicate: Predicate::Subtype(v.clone(), i32_ty()),
        },
    );
    fctx.register_predicate_obligation(
        &infcx,
        Obligation {
            cause: 7,
            param_env: empty_env(),
            recursion_depth: 0,
            predicate: Predicate::TypeOutlives(i32_ty(), 3, false),
        },
    );
    assert!(fctx.select_all_or_error(&tables, &mut infcx).is_ok());
    assert_eq!(infcx.resolve_ty(&v), i32_ty());
    assert_eq!(infcx.region_obligations.len(), 1);
    assert_eq!(infcx.region_obligations[0].1, 3);
    assert_eq!(infcx.region_obligations[0].2, 7);
}

#[test]
fn higher_ranked_outlives_is_treated_as_static() {
    let tables = basic_tables();
    let mut infcx = InferCtxt::new();
    let mut fctx = FulfillmentContext::new();
    fctx.register_predicate_obligation(
        &infcx,
        Obligation {
            cause: 0,
            param_env: empty_env(),
            recursion_depth: 0,
            predicate: Predicate::TypeOutlives(i32_ty(), 5, true),
        },
    );
    assert!(fctx.select_all_or_error(&tables, &mut infcx).is_ok());
    // Recorded against the static region, not region 5.
    assert_eq!(infcx.region_obligations[0].1, 0);
}

#[test]
fn well_formed_stalls_on_unresolved_type() {
    let tables = basic_tables();
    let mut infcx = InferCtxt::new();
    let mut fctx = FulfillmentContext::new();
    let v = infcx.next_ty_var();
    fctx.register_predicate_obligation(
        &infcx,
        Obligation {
            cause: 0,
            param_env: empty_env(),
            recursion_depth: 0,
            predicate: Predicate::WellFormed(v),
        },
    );
    assert!(fctx.select_where_possible(&tables, &mut infcx).is_ok());
    assert_eq!(fctx.pending_obligations().len(), 1);
    let errors = fctx.select_all_or_error(&tables, &mut infcx).unwrap_err();
    assert!(matches!(errors[0].code, FulfillmentErrorCode::CodeAmbiguity));
}

#[test]
fn registering_the_same_obligation_twice_makes_one_node() {
    let tables = basic_tables();
    let mut infcx = InferCtxt::new();
    let mut fctx = FulfillmentContext::new();
    let o = trait_obligation(CLONE_TRAIT, vec_of(i32_ty()));
    fctx.register_predicate_obligation(&infcx, o.clone());
    fctx.register_predicate_obligation(&infcx, o);
    assert_eq!(fctx.predicates.nodes.len(), 1);
    assert!(fctx.select_all_or_error(&tables, &mut infcx).is_ok());
}

#[test]
fn stalled_obligation_retries_after_inference_progress() {
    let tables = basic_tables();
    let mut infcx = InferCtxt::new();
    let mut fctx = FulfillmentContext::new();
    let t = infcx.next_ty_var();
    // <?0 as MyTrait>::AssocType == Box<u32> cannot progress yet.
    fctx.register_predicate_obligation(
        &infcx,
        Obligation {
            cause: 0,
            param_env: empty_env(),
            recursion_depth: 0,
            predicate: Predicate::Projection(ProjectionPredicate {
                projection_ty: ProjectionTy {
                    trait_id: MY_TRAIT,
                    item_id: MY_ASSOC,
                    substs: vec![t.clone()],
                },
                ty: box_of(u32_ty()),
            }),
        },
    );
    assert!(fctx.select_where_possible(&tables, &mut infcx).is_ok());
    assert_eq!(fctx.pending_obligations().len(), 1);
    // Once inference makes progress (?0 := Vec<u32>), the next run
    // resolves the projection through the impl.
    fctx.register_predicate_obligation(
        &infcx,
        Obligation {
            cause: 0,
            param_env: empty_env(),
            recursion_depth: 0,
            predicate: Predicate::Subtype(t, vec_of(u32_ty())),
        },
    );
    let result = fctx.select_all_or_error(&tables, &mut infcx);
    assert!(result.is_ok());
    assert_eq!(fctx.pending_obligations().len(), 0);
}

#[test]
fn several_matching_impls_are_ambiguous_not_an_error() {
    let tables = basic_tables();
    let mut infcx = InferCtxt::new();
    let mut fctx = FulfillmentContext::new();
    // ?0: Clone could be satisfied by either Clone impl, so selection
    // must not commit: the obligation stays pending.
    let t = infcx.next_ty_var();
    fctx.register_predicate_obligation(&infcx, trait_obligation(CLONE_TRAIT, t));
    assert!(fctx.select_where_possible(&tables, &mut infcx).is_ok());
    assert_eq!(fctx.pending_obligations().len(), 1);
}

#[test]
fn normalize_to_appends_after_existing_obligations() {
    let tables = basic_tables();
    let mut infcx = InferCtxt::new();
    let env = empty_env();
    let marker = trait_obligation(CLONE_TRAIT, i32_ty());
    let mut obligations = vec![marker.clone()];
    // A fully normalized value appends nothing.
    let r = fulfillment::project::normalize_to(
        &tables, &mut infcx, &env, 0, &vec_of(i32_ty()), &mut obligations,
    )
    .unwrap();
    assert_eq!(r, vec_of(i32_ty()));
    assert_eq!(obligations.len(), 1);
    // Normalizing a projection keeps the existing prefix in place.
    let proj = Ty::Projection(MY_TRAIT, MY_ASSOC, vec![vec_of(u32_ty())]);
    let r = fulfillment::project::normalize_to(&tables, &mut infcx, &env, 0, &proj, &mut obligations)
        .unwrap();
    assert_eq!(infcx.resolve_ty(&r), box_of(u32_ty()));
    assert_eq!(obligations[0], marker);
}

#[test]
fn mutually_recursive_bound_is_a_cycle_error() {
    let tables = basic_tables();
    let mut infcx = InferCtxt::new();
    let mut fctx = FulfillmentContext::new();
    // MutualA requires MutualB requires MutualA: caught on the parent
    // chain and escalated as a fatal cycle.
    fctx.register_predicate_obligation(
        &infcx,
        trait_obligation(MUTUAL_A, Ty::Adt(LOOPY_SELF, Vec::new())),
    );
    let errors = fctx.select_all_or_error(&tables, &mut infcx).unwrap_err();
    assert!(matches!(errors[0].code, FulfillmentErrorCode::CodeCycle(_)));
}

#[test]
fn wait_cycle_through_shared_nodes_is_not_a_silent_success() {
    let tables = basic_tables();
    let mut infcx = InferCtxt::new();
    let mut fctx = FulfillmentContext::new();
    // Registered as two separate roots, each becomes the other's shared
    // child; neither can ever finalize, and neither may be reported as
    // proven.
    fctx.register_predicate_obligation(
        &infcx,
        trait_obligation(MUTUAL_A, Ty::Adt(LOOPY_SELF, Vec::new())),
    );
    fctx.register_predicate_obligation(
        &infcx,
        trait_obligation(MUTUAL_B, Ty::Adt(LOOPY_SELF, Vec::new())),
    );
    let errors = fctx.select_all_or_error(&tables, &mut infcx).unwrap_err();
    assert!(errors.len() >= 1);
}

#[test]
fn first_ambiguous_attempt_yields_placeholder_and_deferred_obligation() {
    let tables = basic_tables();
    let mut infcx = InferCtxt::new();
    let env = empty_env();
    // Vec<?0> matches both overlapping impls: the very first attempt ends
    // ambiguous, yet a type is still returned — a fresh placeholder — and
    // exactly one deferred `projection == placeholder` obligation at the
    // next recursion depth guarantees forward progress for the caller.
    let t = infcx.next_ty_var();
    let projection = ProjectionTy {
        trait_id: AMBIG_TRAIT,
        item_id: AMBIG_ASSOC,
        substs: vec![vec_of(t)],
    };
    let mut obls: Vec<Obligation> = Vec::new();
    let placeholder = fulfillment::project::normalize_projection_type(
        &tables, &mut infcx, &env, &projection, 0, 3, &mut obls,
    )
    .unwrap();
    match &placeholder {
        Ty::Infer(_) => {}
        other => panic!("expected a fresh placeholder, got {:?}", other),
    }
    assert_eq!(obls.len(), 1);
    assert_eq!(obls[0].recursion_depth, 4);
    match &obls[0].predicate {
        Predicate::Projection(pp) => {
            assert_eq!(pp.projection_ty.trait_id, AMBIG_TRAIT);
            assert_eq!(pp.projection_ty.item_id, AMBIG_ASSOC);
            assert_eq!(pp.ty, placeholder);
        }
        other => panic!("expected a deferred projection, got {:?}", other),
    }
}

#[test]
fn closure_bound_is_decided_by_its_recorded_kind() {
    let tables = basic_tables();
    // CLOSURE_DEF is recorded as a `Fn` closure: it satisfies every
    // callable trait, since `Fn` extends `FnMut` and `FnOnce`.
    let closure = Ty::Closure(CLOSURE_DEF, vec![i32_ty()], Box::new(u32_ty()));
    for trait_id in [FN_TRAIT, FN_MUT_TRAIT, FN_ONCE_TRAIT] {
        let mut infcx = InferCtxt::new();
        let mut fctx = FulfillmentContext::new();
        fctx.register_predicate_obligation(&infcx, trait_obligation(trait_id, closure.clone()));
        assert!(fctx.select_all_or_error(&tables, &mut infcx).is_ok());
    }
    // A closure whose kind was never recorded stays ambiguous.
    let unknown = Ty::Closure(999, vec![i32_ty()], Box::new(u32_ty()));
    let mut infcx = InferCtxt::new();
    let mut fctx = FulfillmentContext::new();
    fctx.register_predicate_obligation(&infcx, trait_obligation(FN_TRAIT, unknown));
    let errors = fctx.select_all_or_error(&tables, &mut infcx).unwrap_err();
    assert!(matches!(errors[0].code, FulfillmentErrorCode::CodeAmbiguity));
}
