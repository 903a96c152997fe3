use type_analysis::db::Session;
use type_analysis::hir::{
    EarlyResolvedPath, Enum, Contract, Expr, ExprNode, FieldDef, GenericArg, GenericParam, Hir,
    HirTyId, HirTyKind, IdentId, Item, ItemId, NameDomain, NameRes, NameResBucket, NameResKind,
    NameResolutionError, Partial, PathId, PathResolution, PrimTy, ScopeId, Struct, TypeAlias,
};
use type_analysis::diagnostics::Span;
use type_analysis::queries::lower_hir_ty;
use type_analysis::ty::{AdtRef, InvalidCause, Kind, TyData, TyId, TyParam};

fn in_types(kind: NameResKind) -> EarlyResolvedPath {
    EarlyResolvedPath::Full(NameResBucket {
        ty: Ok(NameRes { kind, domain: NameDomain::Type }),
        value: Err(NameResolutionError::NotFound),
    })
}

fn to_item(item: usize) -> EarlyResolvedPath {
    in_types(NameResKind::Scope(ScopeId::Item(ItemId(item))))
}

fn scope() -> ScopeId {
    ScopeId::Item(ItemId(0))
}

fn res(path: usize, resolved: EarlyResolvedPath) -> PathResolution {
    PathResolution { path: PathId(path), scope: scope(), resolved }
}

fn path(path: usize, args: &[usize]) -> HirTyKind {
    HirTyKind::Path(
        Partial::Present(PathId(path)),
        args.iter().map(|a| GenericArg::Type(Partial::Present(HirTyId(*a)))).collect(),
    )
}

fn present(tys: &[usize]) -> Vec<Partial<HirTyId>> {
    tys.iter().map(|t| Partial::Present(HirTyId(*t))).collect()
}

const U32: usize = 0;
const BOOL: usize = 1;
const POINT: usize = 2;
const SHAPE: usize = 3;
const BANK: usize = 4;
const FUNC: usize = 5;
const UNDECLARED: usize = 6;
const PARAM_T: usize = 7;
const PARAM_UNNAMED: usize = 8;
const ASSOC: usize = 9;
const AMBIGUOUS: usize = 10;
const INT_ALIAS: usize = 11;

fn program() -> Hir {
    let items = vec![
        Item::Struct(Struct {
            name: Partial::Present(IdentId(50)),
            generic_params: vec![
                GenericParam::Type(Partial::Present(IdentId(100))),
                GenericParam::Type(Partial::Absent),
            ],
            fields: vec![FieldDef { name: Partial::Present(IdentId(60)), ty: Partial::Present(HirTyId(0)) }],
        }),
        Item::Enum(Enum { name: Partial::Present(IdentId(51)), generic_params: vec![], variants: vec![] }),
        Item::Contract(Contract { name: Partial::Present(IdentId(52)), fields: vec![] }),
        Item::Func(Partial::Present(IdentId(53))),
        Item::TypeAlias(TypeAlias {
            name: Partial::Present(IdentId(54)),
            generic_params: vec![],
            ty: Partial::Present(HirTyId(0)),
            span: Span { start: 10, end: 20 },
        }),
    ];
    let resolutions = vec![
        res(U32, in_types(NameResKind::Prim(PrimTy::U32))),
        res(BOOL, in_types(NameResKind::Prim(PrimTy::Bool))),
        res(POINT, to_item(0)),
        res(SHAPE, to_item(1)),
        res(BANK, to_item(2)),
        res(FUNC, to_item(3)),
        res(PARAM_T, in_types(NameResKind::Scope(ScopeId::GenericParam(ItemId(0), 0)))),
        res(PARAM_UNNAMED, in_types(NameResKind::Scope(ScopeId::GenericParam(ItemId(0), 1)))),
        res(
            ASSOC,
            EarlyResolvedPath::Partial {
                res: NameRes {
                    kind: NameResKind::Scope(ScopeId::Item(ItemId(0))),
                    domain: NameDomain::Type,
                },
                unresolved_from: 1,
            },
        ),
        res(
            AMBIGUOUS,
            EarlyResolvedPath::Full(NameResBucket {
                ty: Err(NameResolutionError::Ambiguous),
                value: Err(NameResolutionError::NotFound),
            }),
        ),
        res(INT_ALIAS, to_item(4)),
        // The alias's own scope knows `u32` too.
        PathResolution {
            path: PathId(U32),
            scope: ScopeId::Item(ItemId(4)),
            resolved: in_types(NameResKind::Prim(PrimTy::U32)),
        },
    ];
    let tys = vec![
        path(U32, &[]),                                     // 0
        path(BOOL, &[]),                                    // 1
        HirTyKind::Ptr(Partial::Present(HirTyId(0))),       // 2
        path(POINT, &[0, 1]),                               // 3
        path(POINT, &[0]),                                  // 4
        HirTyKind::Tuple(present(&[0, 1])),                 // 5
        HirTyKind::Tuple(present(&[0, 4])),                 // 6
        HirTyKind::Tuple(vec![]),                           // 7
        HirTyKind::SelfType,                                // 8
        path(FUNC, &[]),                                    // 9
        path(UNDECLARED, &[]),                              // 10
        path(PARAM_T, &[]),                                 // 11
        path(PARAM_UNNAMED, &[]),                           // 12
        path(ASSOC, &[]),                                   // 13
        path(AMBIGUOUS, &[]),                               // 14
        HirTyKind::Path(Partial::Absent, vec![]),           // 15
        HirTyKind::Ptr(Partial::Absent),                    // 16
        HirTyKind::Tuple(vec![Partial::Present(HirTyId(0)), Partial::Absent]), // 17
        path(SHAPE, &[]),                                   // 18
        path(BANK, &[]),                                    // 19
        path(INT_ALIAS, &[]),                               // 20
        HirTyKind::Ptr(Partial::Present(HirTyId(2))),       // 21
        path(UNDECLARED, &[0, 1]),                          // 22
        HirTyKind::Tuple(present(&[5, 2, 1])),              // 23
        HirTyKind::Tuple(present(&[4, 4])),                 // 24
        path(INT_ALIAS, &[1]),                              // 25
    ];
    Hir { tys, items, resolutions, exprs: Vec::<ExprNode>::new() }
}

fn session() -> (Hir, Session) {
    let hir = program();
    assert!(hir.validate());
    let s = Session::new(&hir);
    (hir, s)
}

fn lower(hir: &Hir, s: &mut Session, ty: usize) -> TyId {
    lower_hir_ty(hir, s, HirTyId(ty), scope())
}

#[test]
fn lowers_primitive_path() {
    let (hir, mut s) = session();
    let ty = lower(&hir, &mut s, 0);
    assert_eq!(s.types.data(ty), TyData::Prim(PrimTy::U32));
    let ty = lower(&hir, &mut s, 1);
    assert_eq!(s.types.data(ty), TyData::Prim(PrimTy::Bool));
}

#[test]
fn lowers_pointer_as_application() {
    let (hir, mut s) = session();
    let ty = lower(&hir, &mut s, 2);
    let ptr = s.types.ptr();
    let pointee = s.types.prim(PrimTy::U32);
    assert_eq!(s.types.data(ty), TyData::App(ptr, pointee));
    assert!(s.types.is_mono_type(&hir, ty));
}

#[test]
fn lowers_pointer_to_pointer() {
    let (hir, mut s) = session();
    let ty = lower(&hir, &mut s, 21);
    let inner = lower(&hir, &mut s, 2);
    let ptr = s.types.ptr();
    assert_eq!(s.types.data(ty), TyData::App(ptr, inner));
}

#[test]
fn pointer_to_absent_type_is_invalid_other() {
    let (hir, mut s) = session();
    let ty = lower(&hir, &mut s, 16);
    assert_eq!(s.types.data(ty), TyData::Invalid(InvalidCause::Other));
}

#[test]
fn generic_arguments_are_applied_left_to_right() {
    let (hir, mut s) = session();
    let ty = lower(&hir, &mut s, 3);
    let point = s.types.adt(AdtRef::Struct(ItemId(0)));
    let first = s.types.prim(PrimTy::U32);
    let second = s.types.prim(PrimTy::Bool);
    let partly = s.types.app(point, first);
    assert_eq!(s.types.data(ty), TyData::App(partly, second));
    assert_eq!(s.types.data(partly), TyData::App(point, first));
    assert!(s.types.is_mono_type(&hir, ty));
    assert!(!s.types.is_mono_type(&hir, partly));
    assert!(!s.types.is_mono_type(&hir, point));
}

#[test]
fn partly_applied_struct_is_not_fully_applied() {
    let (hir, mut s) = session();
    let ty = lower(&hir, &mut s, 4);
    assert!(!s.types.is_mono_type(&hir, ty));
    assert!(!s.types.is_invalid(ty));
}

#[test]
fn tuple_of_fully_applied_elements_keeps_arity_and_order() {
    let (hir, mut s) = session();
    let ty = lower(&hir, &mut s, 5);
    let ctor = s.types.tuple(2);
    assert_eq!(s.types.data(ctor), TyData::Tuple(2));
    let first = s.types.prim(PrimTy::U32);
    let second = s.types.prim(PrimTy::Bool);
    let partly = s.types.app(ctor, first);
    assert_eq!(s.types.data(ty), TyData::App(partly, second));
    assert!(s.types.is_mono_type(&hir, ty));
}

#[test]
fn nested_tuple_keeps_element_order() {
    let (hir, mut s) = session();
    let ty = lower(&hir, &mut s, 23);
    let e0 = lower(&hir, &mut s, 5);
    let e1 = lower(&hir, &mut s, 2);
    let e2 = lower(&hir, &mut s, 1);
    let ctor = s.types.tuple(3);
    let a = s.types.app(ctor, e0);
    let b = s.types.app(a, e1);
    assert_eq!(s.types.data(ty), TyData::App(b, e2));
}

#[test]
fn tuple_with_one_partly_applied_element_is_invalid_as_a_whole() {
    let (hir, mut s) = session();
    let ty = lower(&hir, &mut s, 6);
    assert_eq!(s.types.data(ty), TyData::Invalid(InvalidCause::NotFullyApplied));
    let ty = lower(&hir, &mut s, 24);
    assert_eq!(s.types.data(ty), TyData::Invalid(InvalidCause::NotFullyApplied));
}

#[test]
fn tuple_with_absent_element_is_invalid_for_the_element_s_cause() {
    let (hir, mut s) = session();
    let ty = lower(&hir, &mut s, 17);
    assert_eq!(s.types.data(ty), TyData::Invalid(InvalidCause::Other));
}

#[test]
fn empty_tuple_is_the_unit_type() {
    let (hir, mut s) = session();
    let ty = lower(&hir, &mut s, 7);
    assert_eq!(s.types.data(ty), TyData::Unit);
    assert_eq!(ty, s.types.unit());
}

#[test]
fn self_type_in_a_struct_is_the_struct_itself() {
    let (hir, mut s) = session();
    let ty = lower(&hir, &mut s, 8);
    assert_eq!(s.types.data(ty), TyData::Adt(AdtRef::Struct(ItemId(0))));
    let in_param = lower_hir_ty(&hir, &mut s, HirTyId(8), ScopeId::GenericParam(ItemId(0), 0));
    assert_eq!(in_param, ty);
}

#[test]
fn self_type_in_an_enum_and_in_a_contract() {
    let (hir, mut s) = session();
    let ty = lower_hir_ty(&hir, &mut s, HirTyId(8), ScopeId::Item(ItemId(1)));
    assert_eq!(s.types.data(ty), TyData::Adt(AdtRef::Enum(ItemId(1))));
    let ty = lower_hir_ty(&hir, &mut s, HirTyId(8), ScopeId::Item(ItemId(2)));
    assert_eq!(s.types.data(ty), TyData::Adt(AdtRef::Contract(ItemId(2))));
}

#[test]
fn self_type_outside_of_a_type_is_invalid() {
    let (hir, mut s) = session();
    let ty = lower_hir_ty(&hir, &mut s, HirTyId(8), ScopeId::Item(ItemId(3)));
    assert_eq!(s.types.data(ty), TyData::Invalid(InvalidCause::Other));
    let ty = lower_hir_ty(&hir, &mut s, HirTyId(8), ScopeId::Item(ItemId(99)));
    assert_eq!(s.types.data(ty), TyData::Invalid(InvalidCause::Other));
}

#[test]
fn undeclared_identifier_is_invalid_other() {
    let (hir, mut s) = session();
    let ty = lower(&hir, &mut s, 10);
    assert_eq!(s.types.data(ty), TyData::Invalid(InvalidCause::Other));
    let with_args = lower(&hir, &mut s, 22);
    assert_eq!(with_args, ty);
    // Nothing was resolved on the way that could carry a diagnostic.
    assert!(s.aliases.iter().all(|entry| entry.is_none()));
}

#[test]
fn path_to_an_item_that_is_no_type() {
    let (hir, mut s) = session();
    let ty = lower(&hir, &mut s, 9);
    assert_eq!(s.types.data(ty), TyData::Invalid(InvalidCause::ReferenceToNonType));
}

#[test]
fn path_into_an_associated_type() {
    let (hir, mut s) = session();
    let ty = lower(&hir, &mut s, 13);
    assert_eq!(s.types.data(ty), TyData::Invalid(InvalidCause::AssocTy));
}

#[test]
fn ambiguous_path_is_invalid_other() {
    let (hir, mut s) = session();
    let ty = lower(&hir, &mut s, 14);
    assert_eq!(s.types.data(ty), TyData::Invalid(InvalidCause::Other));
}

#[test]
fn absent_path_is_invalid_other() {
    let (hir, mut s) = session();
    let ty = lower(&hir, &mut s, 15);
    assert_eq!(s.types.data(ty), TyData::Invalid(InvalidCause::Other));
}

#[test]
fn named_generic_parameter_is_a_type_parameter() {
    let (hir, mut s) = session();
    let ty = lower(&hir, &mut s, 11);
    assert_eq!(
        s.types.data(ty),
        TyData::TyParam(TyParam { name: IdentId(100), idx: 0, kind: Kind::Star })
    );
}

#[test]
fn unnamed_generic_parameter_is_invalid_other() {
    let (hir, mut s) = session();
    let ty = lower(&hir, &mut s, 12);
    assert_eq!(s.types.data(ty), TyData::Invalid(InvalidCause::Other));
}

#[test]
fn enum_and_contract_paths_are_algebraic_types() {
    let (hir, mut s) = session();
    let ty = lower(&hir, &mut s, 18);
    assert_eq!(s.types.data(ty), TyData::Adt(AdtRef::Enum(ItemId(1))));
    let ty = lower(&hir, &mut s, 19);
    assert_eq!(s.types.data(ty), TyData::Adt(AdtRef::Contract(ItemId(2))));
}

#[test]
fn alias_path_stands_for_its_target() {
    let (hir, mut s) = session();
    let ty = lower(&hir, &mut s, 20);
    assert_eq!(s.types.data(ty), TyData::Prim(PrimTy::U32));
    assert!(s.aliases[4].is_some());
}

#[test]
fn arguments_beyond_the_parameters_of_an_alias_are_applied() {
    let (hir, mut s) = session();
    let ty = lower(&hir, &mut s, 25);
    let base = s.types.prim(PrimTy::U32);
    let arg = s.types.prim(PrimTy::Bool);
    assert_eq!(s.types.data(ty), TyData::App(base, arg));
}

#[test]
fn lowering_again_gives_the_same_handle_and_adds_nothing() {
    let (hir, mut s) = session();
    for ty in 0..hir.tys.len() {
        let first = lower(&hir, &mut s, ty);
        let nodes = s.types.nodes.len();
        let second = lower(&hir, &mut s, ty);
        assert_eq!(first, second);
        assert_eq!(s.types.nodes.len(), nodes);
    }
}

#[test]
fn structurally_equal_descriptors_share_a_handle() {
    let mut hir = program();
    hir.tys.push(HirTyKind::Ptr(Partial::Present(HirTyId(0))));
    let again = hir.tys.len() - 1;
    assert!(hir.validate());
    let mut s = Session::new(&hir);
    let a = lower(&hir, &mut s, 2);
    let b = lower(&hir, &mut s, again);
    assert_eq!(a, b);
    let c = lower(&hir, &mut s, 21);
    assert_ne!(a, c);
}

#[test]
fn program_with_an_array_type_is_not_accepted() {
    let mut hir = program();
    hir.tys.push(HirTyKind::Array(Partial::Present(HirTyId(0))));
    assert!(!hir.validate());
}

#[test]
fn program_with_a_constant_generic_argument_is_not_accepted() {
    let mut hir = program();
    hir.tys.push(HirTyKind::Path(Partial::Present(PathId(POINT)), vec![GenericArg::Const]));
    assert!(!hir.validate());
}

#[test]
fn program_with_a_constant_generic_parameter_is_not_accepted() {
    let mut hir = program();
    hir.items.push(Item::Enum(Enum {
        name: Partial::Absent,
        generic_params: vec![GenericParam::Const],
        variants: vec![],
    }));
    assert!(!hir.validate());
}

#[test]
fn descriptor_that_refers_forward_is_not_accepted() {
    let mut hir = program();
    let at = hir.tys.len();
    hir.tys.push(HirTyKind::Ptr(Partial::Present(HirTyId(at))));
    assert!(!hir.validate());
    let mut hir = program();
    let at = hir.tys.len();
    hir.tys.push(HirTyKind::Tuple(present(&[0, at + 1])));
    assert!(!hir.validate());
}

#[test]
fn resolution_to_a_missing_item_or_parameter_is_not_accepted() {
    let mut hir = program();
    hir.resolutions.push(res(40, to_item(99)));
    assert!(!hir.validate());
    let mut hir = program();
    hir.resolutions.push(res(
        40,
        in_types(NameResKind::Scope(ScopeId::GenericParam(ItemId(0), 2))),
    ));
    assert!(!hir.validate());
    let mut hir = program();
    hir.resolutions.push(res(
        40,
        in_types(NameResKind::Scope(ScopeId::GenericParam(ItemId(2), 0))),
    ));
    assert!(!hir.validate());
}

#[test]
fn expressions_do_not_stand_in_the_way_of_lowering() {
    let mut hir = program();
    hir.exprs.push(ExprNode { data: Partial::Present(Expr::Bin), span: Span { start: 0, end: 1 } });
    assert!(hir.validate());
    assert!(!hir.validate_exprs(1));
    assert!(hir.validate_exprs(0));
    let mut s = Session::new(&hir);
    let ty = lower(&hir, &mut s, 0);
    assert_eq!(s.types.data(ty), TyData::Prim(PrimTy::U32));
}

#[test]
fn descriptor_that_names_no_alias_keeps_no_outcome() {
    let (hir, mut s) = session();
    for ty in 0..hir.tys.len() {
        if ty == 20 || ty == 25 {
            continue;
        }
        lower(&hir, &mut s, ty);
        assert!(s.aliases.iter().all(|entry| entry.is_none()));
        assert!(s.adts.iter().all(|entry| entry.is_none()));
    }
}

#[test]
fn lowering_again_keeps_the_outcomes_as_they_are() {
    let (hir, mut s) = session();
    lower(&hir, &mut s, 20);
    let kept = s.aliases.iter().filter(|entry| entry.is_some()).count();
    assert_eq!(kept, 1);
    assert!(s.aliases[4].as_ref().unwrap().diagnostics.is_empty());
    lower(&hir, &mut s, 20);
    lower(&hir, &mut s, 25);
    assert_eq!(s.aliases.iter().filter(|entry| entry.is_some()).count(), 1);
    assert!(s.aliases[4].as_ref().unwrap().diagnostics.is_empty());
}

#[test]
fn first_answer_of_name_resolution_counts() {
    let mut hir = program();
    hir.resolutions.push(res(U32, in_types(NameResKind::Prim(PrimTy::Bool))));
    assert!(hir.validate());
    let mut s = Session::new(&hir);
    let ty = lower(&hir, &mut s, 0);
    assert_eq!(s.types.data(ty), TyData::Prim(PrimTy::U32));
    assert_eq!(
        hir.resolve_path_early(PathId(U32), ScopeId::Item(ItemId(7))),
        EarlyResolvedPath::Full(NameResBucket::not_found())
    );
}
