use type_analysis::adt::AdtTyBuilder;
use type_analysis::db::Session;
use type_analysis::diagnostics::Span;
use type_analysis::hir::{
    Contract, EarlyResolvedPath, Enum, FieldDef, GenericArg, GenericParam, Hir, HirTyId, HirTyKind,
    IdentId, Item, ItemId, NameDomain, NameRes, NameResBucket, NameResKind, NameResolutionError,
    Partial, PathId, PathResolution, PrimTy, ScopeId, Struct, TypeAlias, VariantDef,
};
use type_analysis::lower::lower_generic_param;
use type_analysis::queries::{lower_adt, lower_hir_ty};
use type_analysis::ty::{AdtRef, InvalidCause, Kind, TyData, TyParam};

const POINT: usize = 0; // struct Point<T, _> { x: T, y: u32, next: *Self, pair: Pair }
const SHAPE: usize = 1; // enum Shape<T> { Circle(u32), Square, Boxed(*Point<T, bool>), Odd(Point) }
const BANK: usize = 2; // contract Bank { owner: u32, vault: Shape }
const PAIR: usize = 3; // type Pair = (u32, bool)
const EMPTY: usize = 4; // struct Empty {}
const FUNC: usize = 5;

const U32: usize = 10;
const BOOL: usize = 11;
const T: usize = 12;

fn in_types(kind: NameResKind) -> EarlyResolvedPath {
    EarlyResolvedPath::Full(NameResBucket {
        ty: Ok(NameRes { kind, domain: NameDomain::Type }),
        value: Err(NameResolutionError::NotFound),
    })
}

fn path(path: usize, args: &[usize]) -> HirTyKind {
    HirTyKind::Path(
        Partial::Present(PathId(path)),
        args.iter().map(|a| GenericArg::Type(Partial::Present(HirTyId(*a)))).collect(),
    )
}

fn field(name: usize, ty: usize) -> FieldDef {
    FieldDef { name: Partial::Present(IdentId(name)), ty: Partial::Present(HirTyId(ty)) }
}

fn program() -> Hir {
    let tys = vec![
        path(T, &[]),                                 // 0
        path(U32, &[]),                               // 1
        HirTyKind::SelfType,                          // 2
        HirTyKind::Ptr(Partial::Present(HirTyId(2))), // 3
        path(PAIR, &[]),                              // 4
        path(BOOL, &[]),                              // 5
        path(POINT, &[0, 5]),                         // 6
        HirTyKind::Ptr(Partial::Present(HirTyId(6))), // 7
        path(POINT, &[]),                             // 8
        path(SHAPE, &[]),                             // 9
        HirTyKind::Tuple(vec![Partial::Present(HirTyId(1)), Partial::Present(HirTyId(5))]), // 10
    ];
    let items = vec![
        Item::Struct(Struct {
            name: Partial::Present(IdentId(500)),
            generic_params: vec![
                GenericParam::Type(Partial::Present(IdentId(100))),
                GenericParam::Type(Partial::Absent),
            ],
            fields: vec![
                field(1, 0),
                field(2, 1),
                field(3, 3),
                field(4, 4),
                FieldDef { name: Partial::Absent, ty: Partial::Absent },
            ],
        }),
        Item::Enum(Enum {
            name: Partial::Present(IdentId(501)),
            generic_params: vec![GenericParam::Type(Partial::Present(IdentId(100)))],
            variants: vec![
                VariantDef { name: Partial::Present(IdentId(10)), ty: Some(HirTyId(1)) },
                VariantDef { name: Partial::Present(IdentId(11)), ty: None },
                VariantDef { name: Partial::Present(IdentId(12)), ty: Some(HirTyId(7)) },
                VariantDef { name: Partial::Absent, ty: Some(HirTyId(8)) },
            ],
        }),
        Item::Contract(Contract {
            name: Partial::Present(IdentId(502)),
            fields: vec![field(20, 1), field(21, 9)],
        }),
        Item::TypeAlias(TypeAlias {
            name: Partial::Present(IdentId(503)),
            generic_params: vec![],
            ty: Partial::Present(HirTyId(10)),
            span: Span { start: 1, end: 2 },
        }),
        Item::Struct(Struct {
            name: Partial::Present(IdentId(504)),
            generic_params: vec![],
            fields: vec![],
        }),
        Item::Func(Partial::Present(IdentId(505))),
    ];
    let mut resolutions = Vec::new();
    for scope in 0..items.len() {
        let scope = ScopeId::Item(ItemId(scope));
        for item in 0..items.len() {
            resolutions.push(PathResolution {
                path: PathId(item),
                scope,
                resolved: in_types(NameResKind::Scope(ScopeId::Item(ItemId(item)))),
            });
        }
        resolutions.push(PathResolution {
            path: PathId(U32),
            scope,
            resolved: in_types(NameResKind::Prim(PrimTy::U32)),
        });
        resolutions.push(PathResolution {
            path: PathId(BOOL),
            scope,
            resolved: in_types(NameResKind::Prim(PrimTy::Bool)),
        });
    }
    for owner in [POINT, SHAPE] {
        resolutions.push(PathResolution {
            path: PathId(T),
            scope: ScopeId::Item(ItemId(owner)),
            resolved: in_types(NameResKind::Scope(ScopeId::GenericParam(ItemId(owner), 0))),
        });
    }
    Hir { tys, items, resolutions, exprs: vec![] }
}

fn session() -> (Hir, Session) {
    let hir = program();
    assert!(hir.validate());
    let s = Session::new(&hir);
    (hir, s)
}

fn param_t() -> TyData {
    TyData::TyParam(TyParam { name: IdentId(100), idx: 0, kind: Kind::Star })
}

#[test]
fn struct_has_one_variant_with_its_fields_in_order() {
    let (hir, mut s) = session();
    let ty = lower_adt(&hir, &mut s, AdtRef::Struct(ItemId(POINT)));
    assert_eq!(s.types.data(ty), TyData::Adt(AdtRef::Struct(ItemId(POINT))));
    let ptr = s.types.ptr();
    let this = s.types.adt(AdtRef::Struct(ItemId(POINT)));
    let next = s.types.app(ptr, this);
    let pair = lower_hir_ty(&hir, &mut s, HirTyId(10), ScopeId::Item(ItemId(POINT)));
    let def = s.adt_def(ItemId(POINT)).unwrap();
    assert_eq!(def.adt, AdtRef::Struct(ItemId(POINT)));
    assert_eq!(def.variants.len(), 1);
    assert_eq!(def.variants[0].name, Partial::Present(IdentId(500)));
    let tys = &def.variants[0].tys;
    assert_eq!(tys.len(), 5);
    assert_eq!(s.types.data(tys[0]), param_t());
    assert_eq!(s.types.data(tys[1]), TyData::Prim(PrimTy::U32));
    assert_eq!(tys[2], next);
    assert_eq!(tys[3], pair);
    assert_eq!(s.types.data(tys[4]), TyData::Invalid(InvalidCause::Other));
}

#[test]
fn struct_parameters_are_lowered_in_order() {
    let (hir, mut s) = session();
    lower_adt(&hir, &mut s, AdtRef::Struct(ItemId(POINT)));
    let def = s.adt_def(ItemId(POINT)).unwrap();
    assert_eq!(def.params.len(), 2);
    assert_eq!(s.types.data(def.params[0]), param_t());
    assert_eq!(s.types.data(def.params[1]), TyData::Invalid(InvalidCause::Other));
}

#[test]
fn enum_has_one_variant_for_each_case_in_order() {
    let (hir, mut s) = session();
    let ty = lower_adt(&hir, &mut s, AdtRef::Enum(ItemId(SHAPE)));
    assert_eq!(s.types.data(ty), TyData::Adt(AdtRef::Enum(ItemId(SHAPE))));
    let boxed = lower_hir_ty(&hir, &mut s, HirTyId(7), ScopeId::Item(ItemId(SHAPE)));
    let def = s.adt_def(ItemId(SHAPE)).unwrap();
    assert_eq!(def.params.len(), 1);
    assert_eq!(s.types.data(def.params[0]), param_t());
    let names: Vec<Partial<IdentId>> = def.variants.iter().map(|v| v.name).collect();
    assert_eq!(
        names,
        vec![
            Partial::Present(IdentId(10)),
            Partial::Present(IdentId(11)),
            Partial::Present(IdentId(12)),
            Partial::Absent,
        ]
    );
    assert_eq!(def.variants[0].tys.len(), 1);
    assert_eq!(s.types.data(def.variants[0].tys[0]), TyData::Prim(PrimTy::U32));
    assert!(def.variants[1].tys.is_empty());
    assert_eq!(def.variants[2].tys, vec![boxed]);
    // A payload need not be fully applied.
    assert_eq!(def.variants[3].tys.len(), 1);
    assert_eq!(s.types.data(def.variants[3].tys[0]), TyData::Adt(AdtRef::Struct(ItemId(POINT))));
    assert!(!s.types.is_mono_type(&hir, def.variants[3].tys[0]));
}

#[test]
fn contract_has_no_parameters_and_one_variant() {
    let (hir, mut s) = session();
    let ty = lower_adt(&hir, &mut s, AdtRef::Contract(ItemId(BANK)));
    assert_eq!(s.types.data(ty), TyData::Adt(AdtRef::Contract(ItemId(BANK))));
    assert!(s.types.is_mono_type(&hir, ty));
    let def = s.adt_def(ItemId(BANK)).unwrap();
    assert!(def.params.is_empty());
    assert_eq!(def.variants.len(), 1);
    assert_eq!(def.variants[0].name, Partial::Present(IdentId(502)));
    assert_eq!(def.variants[0].tys.len(), 2);
    assert_eq!(s.types.data(def.variants[0].tys[0]), TyData::Prim(PrimTy::U32));
    assert_eq!(s.types.data(def.variants[0].tys[1]), TyData::Adt(AdtRef::Enum(ItemId(SHAPE))));
    // Naming another algebraic type does not build its definition.
    assert!(s.adt_def(ItemId(SHAPE)).is_none());
}

#[test]
fn struct_without_fields_has_one_empty_variant() {
    let (hir, mut s) = session();
    lower_adt(&hir, &mut s, AdtRef::Struct(ItemId(EMPTY)));
    let def = s.adt_def(ItemId(EMPTY)).unwrap();
    assert_eq!(def.variants.len(), 1);
    assert!(def.variants[0].tys.is_empty());
    assert!(def.params.is_empty());
}

#[test]
fn definition_is_built_once() {
    let (hir, mut s) = session();
    assert!(s.adt_def(ItemId(POINT)).is_none());
    let first = lower_adt(&hir, &mut s, AdtRef::Struct(ItemId(POINT)));
    let nodes = s.types.nodes.len();
    let second = lower_adt(&hir, &mut s, AdtRef::Struct(ItemId(POINT)));
    assert_eq!(first, second);
    assert_eq!(s.types.nodes.len(), nodes);
    assert!(s.adts[POINT].as_ref().unwrap().diagnostics.is_empty());
}

#[test]
fn builder_collects_parameters_then_variants() {
    let (hir, mut s) = session();
    let mut builder = AdtTyBuilder::new(AdtRef::Enum(ItemId(SHAPE)));
    assert!(builder.params.is_empty() && builder.variants.is_empty() && builder.diags.is_empty());
    builder.collect_params(&hir, &mut s);
    assert_eq!(builder.params.len(), 1);
    assert!(builder.variants.is_empty());
    builder.collect_variants(&hir, &mut s);
    assert_eq!(builder.params.len(), 1);
    assert_eq!(builder.variants.len(), 4);
    assert!(s.adt_def(ItemId(SHAPE)).is_none());
}

#[test]
fn build_hands_out_the_type_and_no_diagnostics() {
    let (hir, mut s) = session();
    let (ty, diags) = AdtTyBuilder::new(AdtRef::Contract(ItemId(BANK))).build(&hir, &mut s);
    assert_eq!(s.types.data(ty), TyData::Adt(AdtRef::Contract(ItemId(BANK))));
    assert!(diags.is_empty());
    assert!(s.adt_def(ItemId(BANK)).is_some());
}

#[test]
fn generic_parameter_by_position() {
    let (hir, mut s) = session();
    let named = lower_generic_param(&hir, &mut s, ItemId(POINT), 0);
    assert_eq!(s.types.data(named), param_t());
    let unnamed = lower_generic_param(&hir, &mut s, ItemId(POINT), 1);
    assert_eq!(s.types.data(unnamed), TyData::Invalid(InvalidCause::Other));
    let of_enum = lower_generic_param(&hir, &mut s, ItemId(SHAPE), 0);
    assert_eq!(of_enum, named);
}

#[test]
fn tells_sound_references_from_others() {
    let hir = program();
    assert!(hir.is_adt_ref(AdtRef::Struct(ItemId(POINT))));
    assert!(hir.is_adt_ref(AdtRef::Enum(ItemId(SHAPE))));
    assert!(hir.is_adt_ref(AdtRef::Contract(ItemId(BANK))));
    assert!(!hir.is_adt_ref(AdtRef::Enum(ItemId(POINT))));
    assert!(!hir.is_adt_ref(AdtRef::Struct(ItemId(FUNC))));
    assert!(!hir.is_adt_ref(AdtRef::Struct(ItemId(PAIR))));
    assert!(!hir.is_adt_ref(AdtRef::Struct(ItemId(77))));
    assert_eq!(AdtRef::from_struct(ItemId(1)).as_item(), ItemId(1));
    assert_eq!(AdtRef::from_enum(ItemId(2)), AdtRef::Enum(ItemId(2)));
    assert_eq!(AdtRef::from_contract(ItemId(3)), AdtRef::Contract(ItemId(3)));
}

#[test]
fn builder_steps_add_to_what_the_builder_holds() {
    let (hir, mut s) = session();
    let mut builder = AdtTyBuilder::new(AdtRef::Enum(ItemId(SHAPE)));
    builder.collect_params(&hir, &mut s);
    builder.collect_params(&hir, &mut s);
    assert_eq!(builder.params.len(), 2);
    assert_eq!(builder.params[0], builder.params[1]);
    assert_eq!(s.types.data(builder.params[0]), param_t());
    builder.collect_variants(&hir, &mut s);
    let first: Vec<Partial<IdentId>> = builder.variants.iter().map(|v| v.name).collect();
    builder.collect_variants(&hir, &mut s);
    assert_eq!(builder.variants.len(), 8);
    for (at, name) in first.iter().enumerate() {
        assert_eq!(builder.variants[at].name, *name);
        assert_eq!(builder.variants[4 + at].name, *name);
        assert_eq!(builder.variants[4 + at].tys, builder.variants[at].tys);
        assert!(builder.variants[at].tys.len() <= 1);
    }
    let mut builder = AdtTyBuilder::new(AdtRef::Struct(ItemId(POINT)));
    builder.collect_variants(&hir, &mut s);
    builder.collect_variants(&hir, &mut s);
    assert_eq!(builder.variants.len(), 2);
    assert_eq!(builder.variants[0].tys, builder.variants[1].tys);
    assert_eq!(builder.variants[1].tys.len(), 5);
    let mut builder = AdtTyBuilder::new(AdtRef::Contract(ItemId(BANK)));
    builder.params.push(builder_param(&mut s));
    builder.collect_params(&hir, &mut s);
    assert_eq!(builder.params.len(), 1);
}

fn builder_param(s: &mut Session) -> type_analysis::ty::TyId {
    s.types.prim(PrimTy::Bool)
}

#[test]
fn kept_definition_is_handed_out_without_keeping_more() {
    let (hir, mut s) = session();
    lower_adt(&hir, &mut s, AdtRef::Struct(ItemId(POINT)));
    let aliases = s.aliases.iter().filter(|entry| entry.is_some()).count();
    let adts = s.adts.iter().filter(|entry| entry.is_some()).count();
    assert_eq!((aliases, adts), (1, 1));
    lower_adt(&hir, &mut s, AdtRef::Struct(ItemId(POINT)));
    assert_eq!(s.aliases.iter().filter(|entry| entry.is_some()).count(), 1);
    assert_eq!(s.adts.iter().filter(|entry| entry.is_some()).count(), 1);
}
