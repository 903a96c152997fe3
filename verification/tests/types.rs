use type_analysis::db::{Session, TempContext, TypeError};
use type_analysis::diagnostics::{Diagnostic, Label, LabelStyle, Severity, SourceFileId, Span};
use type_analysis::hir::{Hir, IdentId, ItemId, NameDomain, NameRes, NameResBucket, NameResKind,
    NameResolutionError, Partial, PrimTy, ScopeId};
use type_analysis::lower::{apply_all, copy_ids, make_tuple};
use type_analysis::ty::{AdtRef, InvalidCause, Kind, TyData, TyId, TyParam, TyStore};

fn empty() -> (Hir, Session) {
    let hir = Hir { tys: vec![], items: vec![], resolutions: vec![], exprs: vec![] };
    assert!(hir.validate());
    let s = Session::new(&hir);
    (hir, s)
}

#[test]
fn primary_label() {
    let label = Label::primary(Span { start: 3, end: 9 }, "here");
    assert_eq!(label.style, LabelStyle::Primary);
    assert_eq!(label.span, Span { start: 3, end: 9 });
    assert_eq!(label.message, "here");
}

#[test]
fn secondary_label() {
    let label = Label::secondary(Span { start: 0, end: 0 }, "");
    assert_eq!(label.style, LabelStyle::Secondary);
    assert_eq!(label.span, Span { start: 0, end: 0 });
    assert_eq!(label.message, "");
}

#[test]
fn error_diagnostic_has_one_primary_label() {
    let diag = Diagnostic::error("broken", Span { start: 1, end: 2 }, "this");
    assert_eq!(diag.severity, Severity::Error);
    assert_eq!(diag.message, "broken");
    assert_eq!(diag.labels, vec![Label::primary(Span { start: 1, end: 2 }, "this")]);
    assert!(diag.notes.is_empty());
}

#[test]
fn copy_of_a_diagnostic_is_equal_to_it() {
    let diag = Diagnostic {
        severity: Severity::Warning,
        message: String::from("careful"),
        labels: vec![
            Label::secondary(Span { start: 5, end: 6 }, "second"),
            Label::primary(Span { start: 1, end: 2 }, "first"),
        ],
        notes: vec![String::from("a note"), String::from("another")],
    };
    assert_eq!(diag.duplicate(), diag);
    assert_eq!(diag.labels[0].duplicate(), diag.labels[0]);
    assert_eq!(diag.clone(), diag);
    assert_eq!(SourceFileId(3), SourceFileId(3));
}

#[test]
fn context_collects_errors_in_order() {
    let mut context = TempContext::new();
    assert!(context.diagnostics.is_empty());
    let voucher = context.error("first", Span { start: 0, end: 1 }, "a");
    context.error("second", Span { start: 2, end: 3 }, "b");
    let _error: TypeError = TypeError::new(voucher);
    assert_eq!(context.diagnostics.len(), 2);
    assert_eq!(context.diagnostics[0], Diagnostic::error("first", Span { start: 0, end: 1 }, "a"));
    assert_eq!(context.diagnostics[1], Diagnostic::error("second", Span { start: 2, end: 3 }, "b"));
}

#[test]
fn equal_types_have_equal_handles() {
    let mut store = TyStore::new();
    let a = store.prim(PrimTy::U8);
    let b = store.prim(PrimTy::U8);
    let c = store.prim(PrimTy::I8);
    assert_eq!(a, b);
    assert_ne!(a, c);
    let ptr = store.ptr();
    let pa = store.app(ptr, a);
    let pb = store.app(ptr, b);
    let pc = store.app(ptr, c);
    assert_eq!(pa, pb);
    assert_ne!(pa, pc);
    let ppa = store.app(ptr, pa);
    assert_ne!(ppa, pa);
    assert_eq!(store.app(ptr, pb), ppa);
    assert_eq!(store.nodes.len(), 6);
    assert_eq!(store.data(pa), TyData::App(ptr, a));
    assert_eq!(store.data(ptr), TyData::Ptr);
}

#[test]
fn every_kind_of_type_is_kept_once() {
    let mut store = TyStore::new();
    let param = TyParam { name: IdentId(1), idx: 0, kind: Kind::Star };
    let first = vec![
        store.unit(),
        store.bot(),
        store.bool(),
        store.ptr(),
        store.tuple(3),
        store.ty_param(param),
        store.adt(AdtRef::Enum(ItemId(4))),
        store.invalid(InvalidCause::AssocTy),
        store.var(5),
    ];
    let nodes = store.nodes.len();
    assert_eq!(nodes, first.len());
    let second = vec![
        store.unit(),
        store.bot(),
        store.prim(PrimTy::Bool),
        store.ptr(),
        store.tuple(3),
        store.ty_param(param),
        store.adt(AdtRef::Enum(ItemId(4))),
        store.invalid(InvalidCause::AssocTy),
        store.var(5),
    ];
    assert_eq!(first, second);
    assert_eq!(store.nodes.len(), nodes);
    assert_ne!(store.tuple(2), store.tuple(3));
    assert_ne!(store.var(6), store.var(5));
    assert_ne!(store.invalid(InvalidCause::Other), store.invalid(InvalidCause::AssocTy));
    assert_ne!(store.adt(AdtRef::Struct(ItemId(4))), store.adt(AdtRef::Enum(ItemId(4))));
    assert_eq!(store.data(first[8]), TyData::Var(5));
    assert_eq!(store.data(first[4]), TyData::Tuple(3));
}

#[test]
fn tuple_of_arity_zero_is_unit() {
    let mut store = TyStore::new();
    let unit = store.unit();
    assert_eq!(store.tuple(0), unit);
    assert_eq!(store.data(unit), TyData::Unit);
}

#[test]
fn application_of_or_to_an_invalid_type_is_that_invalid_type() {
    let mut store = TyStore::new();
    let ptr = store.ptr();
    let other = store.invalid(InvalidCause::Other);
    let assoc = store.invalid(InvalidCause::AssocTy);
    assert_eq!(store.app(ptr, other), other);
    assert_eq!(store.app(assoc, ptr), assoc);
    assert_eq!(store.app(assoc, other), assoc);
    assert!(store.is_invalid(other));
    assert!(!store.is_invalid(ptr));
}

#[test]
fn fully_applied_means_waiting_for_no_argument() {
    let (hir, mut s) = empty();
    let t = &mut s.types;
    let int = t.prim(PrimTy::U64);
    let ptr = t.ptr();
    let pair = t.tuple(2);
    let unit = t.unit();
    let bot = t.bot();
    let var = t.var(0);
    let invalid = t.invalid(InvalidCause::Other);
    let param = t.ty_param(TyParam { name: IdentId(1), idx: 0, kind: Kind::Star });
    let missing = t.adt(AdtRef::Struct(ItemId(9)));
    for ty in [int, unit, bot, var, invalid, param, missing] {
        assert!(t.is_mono_type(&hir, ty));
    }
    assert!(!t.is_mono_type(&hir, ptr));
    assert!(!t.is_mono_type(&hir, pair));
    let one = t.app(pair, int);
    assert!(!t.is_mono_type(&hir, one));
    let two = t.app(one, int);
    assert!(t.is_mono_type(&hir, two));
    let three = t.app(two, int);
    assert!(t.is_mono_type(&hir, three));
    let ptr_int = t.app(ptr, int);
    assert!(t.is_mono_type(&hir, ptr_int));
    let odd = t.app(int, int);
    assert!(t.is_mono_type(&hir, odd));
}

#[test]
fn applies_arguments_in_order() {
    let (hir, mut s) = empty();
    let base = s.types.tuple(3);
    let a = s.types.prim(PrimTy::U8);
    let b = s.types.prim(PrimTy::U16);
    let none = apply_all(&hir, &mut s, base, &vec![]);
    assert_eq!(none, base);
    let all = apply_all(&hir, &mut s, base, &vec![a, b, a]);
    let one = s.types.app(base, a);
    let two = s.types.app(one, b);
    assert_eq!(s.types.data(all), TyData::App(two, a));
}

#[test]
fn makes_tuples_all_or_nothing() {
    let (hir, mut s) = empty();
    let a = s.types.prim(PrimTy::U8);
    let ptr = s.types.ptr();
    let good = make_tuple(&hir, &mut s, &vec![a, a]);
    let ctor = s.types.tuple(2);
    let one = s.types.app(ctor, a);
    assert_eq!(s.types.data(good), TyData::App(one, a));
    for elems in [vec![ptr], vec![a, ptr], vec![ptr, a], vec![a, ptr, a]] {
        let bad = make_tuple(&hir, &mut s, &elems);
        assert_eq!(s.types.data(bad), TyData::Invalid(InvalidCause::NotFullyApplied));
    }
    let invalid = s.types.invalid(InvalidCause::AssocTy);
    let poisoned = make_tuple(&hir, &mut s, &vec![a, invalid]);
    assert_eq!(poisoned, invalid);
    let first_bad = make_tuple(&hir, &mut s, &vec![invalid, ptr]);
    assert_eq!(s.types.data(first_bad), TyData::Invalid(InvalidCause::NotFullyApplied));
    let unit = make_tuple(&hir, &mut s, &vec![]);
    assert_eq!(s.types.data(unit), TyData::Unit);
}

#[test]
fn copies_handles() {
    let ids = vec![TyId(3), TyId(1), TyId(3)];
    assert_eq!(copy_ids(&ids), ids);
    assert_eq!(copy_ids(&vec![]), Vec::<TyId>::new());
}

#[test]
fn picks_the_candidate_of_a_domain() {
    let res = NameRes { kind: NameResKind::Prim(PrimTy::Bool), domain: NameDomain::Type };
    let bucket = NameResBucket { ty: Ok(res), value: Err(NameResolutionError::Invisible) };
    assert_eq!(bucket.pick(NameDomain::Type), Ok(res));
    assert_eq!(bucket.pick(NameDomain::Value), Err(NameResolutionError::Invisible));
    let none = NameResBucket::not_found();
    assert_eq!(none.pick(NameDomain::Type), Err(NameResolutionError::NotFound));
    assert_eq!(none.pick(NameDomain::Value), Err(NameResolutionError::NotFound));
    assert_eq!(Partial::Present(3).to_opt(), Some(3));
    assert_eq!(Partial::<u8>::Absent.to_opt(), None);
    assert_eq!(ScopeId::GenericParam(ItemId(4), 2).item(), ItemId(4));
    assert_eq!(ScopeId::Item(ItemId(5)).item(), ItemId(5));
}

#[test]
fn new_session_keeps_nothing() {
    let (hir, s) = empty();
    assert!(s.types.nodes.is_empty());
    assert!(s.aliases.is_empty() && s.adts.is_empty());
    assert!(!hir.is_type_alias(ItemId(0)));
    assert!(s.adt_def(ItemId(0)).is_none());
}
