//! The syntax-level program that the analysis consumes: type descriptors,
//! items, expressions, and the outcome of name resolution, all held in
//! arenas and addressed by small handles.

use vstd::prelude::*;
use crate::diagnostics::Span;

verus! {

/// A piece of syntax that the parser may have failed to produce.
#[derive(Clone, Copy, Debug, PartialEq, Eq, Hash)]
pub enum Partial<T> {
    Present(T),
    Absent,
}

impl<T> Partial<T> {
    pub fn to_opt(self) -> (r: Option<T>)
        ensures
            r == match self {
                Partial::Present(t) => Some(t),
                Partial::Absent => None::<T>,
            },
    {
        match self {
            Partial::Present(t) => Some(t),
            Partial::Absent => None,
        }
    }
}

/// An interned identifier.
#[derive(Clone, Copy, Debug, PartialEq, Eq, Hash, Structural)]
pub struct IdentId(pub usize);

/// An interned path, the key under which name resolution files its result.
#[derive(Clone, Copy, Debug, PartialEq, Eq, Hash, Structural)]
pub struct PathId(pub usize);

/// A syntax-level type descriptor, by position in [`Hir::tys`].
#[derive(Clone, Copy, Debug, PartialEq, Eq, Hash, Structural)]
pub struct HirTyId(pub usize);

/// An item, by position in [`Hir::items`].
#[derive(Clone, Copy, Debug, PartialEq, Eq, Hash, Structural)]
pub struct ItemId(pub usize);

/// An expression, by position in [`Hir::exprs`].
#[derive(Clone, Copy, Debug, PartialEq, Eq, Hash, Structural)]
pub struct ExprId(pub usize);

/// A place in which names are looked up.
#[derive(Clone, Copy, Debug, PartialEq, Eq, Hash, Structural)]
pub enum ScopeId {
    /// The inside of an item.
    Item(ItemId),
    /// One generic parameter of an item, by position.
    GenericParam(ItemId, usize),
}

impl ScopeId {
    /// The item that the scope belongs to.
    pub open spec fn item_spec(self) -> ItemId {
        match self {
            ScopeId::Item(item) => item,
            ScopeId::GenericParam(item, _) => item,
        }
    }

    #[verifier::when_used_as_spec(item_spec)]
    pub fn item(self) -> (item: ItemId)
        ensures
            item == self.item_spec(),
    {
        match self {
            ScopeId::Item(item) => item,
            ScopeId::GenericParam(item, _) => item,
        }
    }
}

/// The built-in types that a name can resolve to.
#[derive(Clone, Copy, Debug, PartialEq, Eq, Hash, Structural)]
pub enum PrimTy {
    Bool,
    U8,
    U16,
    U32,
    U64,
    U128,
    U256,
    I8,
    I16,
    I32,
    I64,
    I128,
    I256,
    String,
}

#[derive(Clone, Copy, Debug, PartialEq, Eq, Hash)]
pub enum GenericArg {
    Type(Partial<HirTyId>),
    /// A constant argument. Lowering has no meaning for it yet.
    Const,
}

impl GenericArg {
    /// The type that the argument names; a constant argument names none.
    pub open spec fn ty(self) -> Partial<HirTyId> {
        match self {
            GenericArg::Type(ty) => ty,
            GenericArg::Const => Partial::Absent,
        }
    }
}

#[derive(Clone, Copy, Debug, PartialEq, Eq, Hash)]
pub enum GenericParam {
    /// A type parameter; the name is absent where the parser recovered from an error.
    Type(Partial<IdentId>),
    /// A constant parameter. Lowering has no meaning for it yet.
    Const,
}

#[derive(Clone, Debug, PartialEq, Eq, Hash)]
pub enum HirTyKind {
    Ptr(Partial<HirTyId>),
    Path(Partial<PathId>, Vec<GenericArg>),
    SelfType,
    Tuple(Vec<Partial<HirTyId>>),
    /// An array of the given element type. Lowering has no meaning for it yet.
    Array(Partial<HirTyId>),
}

#[derive(Clone, Copy, Debug, PartialEq, Eq, Hash)]
pub struct FieldDef {
    pub name: Partial<IdentId>,
    pub ty: Partial<HirTyId>,
}

#[derive(Clone, Copy, Debug, PartialEq, Eq, Hash)]
pub struct VariantDef {
    pub name: Partial<IdentId>,
    pub ty: Option<HirTyId>,
}

#[derive(Clone, Debug, PartialEq, Eq, Hash)]
pub struct Struct {
    pub name: Partial<IdentId>,
    pub generic_params: Vec<GenericParam>,
    pub fields: Vec<FieldDef>,
}

#[derive(Clone, Debug, PartialEq, Eq, Hash)]
pub struct Enum {
    pub name: Partial<IdentId>,
    pub generic_params: Vec<GenericParam>,
    pub variants: Vec<VariantDef>,
}

#[derive(Clone, Debug, PartialEq, Eq, Hash)]
pub struct Contract {
    pub name: Partial<IdentId>,
    pub fields: Vec<FieldDef>,
}

#[derive(Clone, Debug, PartialEq, Eq, Hash)]
pub struct TypeAlias {
    pub name: Partial<IdentId>,
    pub generic_params: Vec<GenericParam>,
    pub ty: Partial<HirTyId>,
    /// Where the alias is declared.
    pub span: Span,
}

#[derive(Clone, Debug, PartialEq, Eq, Hash)]
pub enum Item {
    Struct(Struct),
    Enum(Enum),
    Contract(Contract),
    TypeAlias(TypeAlias),
    Func(Partial<IdentId>),
    Const(Partial<IdentId>),
    Mod(Partial<IdentId>),
}

impl Item {
    /// The declared generic parameters; items that cannot have any declare none.
    pub open spec fn generic_params_spec(self) -> Seq<GenericParam> {
        match self {
            Item::Struct(s) => s.generic_params@,
            Item::Enum(e) => e.generic_params@,
            Item::TypeAlias(a) => a.generic_params@,
            _ => Seq::empty(),
        }
    }

    /// Whether a type descriptor can name this item as an algebraic type.
    pub open spec fn is_adt(self) -> bool {
        self is Struct || self is Enum || self is Contract
    }
}

#[derive(Clone, Copy, Debug, PartialEq, Eq, Hash, Structural)]
pub enum NameDomain {
    Type,
    Value,
}

#[derive(Clone, Copy, Debug, PartialEq, Eq, Hash, Structural)]
pub enum NameResKind {
    Scope(ScopeId),
    Prim(PrimTy),
}

/// What a name stands for in one domain.
#[derive(Clone, Copy, Debug, PartialEq, Eq, Hash, Structural)]
pub struct NameRes {
    pub kind: NameResKind,
    pub domain: NameDomain,
}

/// Why a name stands for nothing in one domain. Name resolution has
/// reported each of these itself.
#[derive(Clone, Copy, Debug, PartialEq, Eq, Hash, Structural)]
pub enum NameResolutionError {
    NotFound,
    Invalid,
    Invisible,
    Ambiguous,
}

/// The candidates that a fully resolved path has, one per domain.
#[derive(Clone, Copy, Debug, PartialEq, Eq, Hash)]
pub struct NameResBucket {
    pub ty: Result<NameRes, NameResolutionError>,
    pub value: Result<NameRes, NameResolutionError>,
}

impl NameResBucket {
    pub open spec fn pick_spec(self, domain: NameDomain) -> Result<NameRes, NameResolutionError> {
        match domain {
            NameDomain::Type => self.ty,
            NameDomain::Value => self.value,
        }
    }

    /// The candidate in the given domain.
    #[verifier::when_used_as_spec(pick_spec)]
    pub fn pick(self, domain: NameDomain) -> (r: Result<NameRes, NameResolutionError>)
        ensures
            r == self.pick_spec(domain),
    {
        match domain {
            NameDomain::Type => self.ty,
            NameDomain::Value => self.value,
        }
    }

    /// The bucket of a name that nothing declares.
    pub open spec fn not_found_spec() -> NameResBucket {
        NameResBucket {
            ty: Err(NameResolutionError::NotFound),
            value: Err(NameResolutionError::NotFound),
        }
    }

    #[verifier::when_used_as_spec(not_found_spec)]
    pub fn not_found() -> (r: NameResBucket)
        ensures
            r == Self::not_found_spec(),
    {
        NameResBucket {
            ty: Err(NameResolutionError::NotFound),
            value: Err(NameResolutionError::NotFound),
        }
    }
}

/// What name resolution made of a path before types were known.
#[derive(Clone, Copy, Debug, PartialEq, Eq, Hash)]
pub enum EarlyResolvedPath {
    /// Every segment resolved.
    Full(NameResBucket),
    /// A prefix resolved to `res`; the segments from `unresolved_from` on can
    /// only be resolved once types are known.
    Partial { res: NameRes, unresolved_from: usize },
}

/// One answer of name resolution: what `path` is in `scope`.
#[derive(Clone, Copy, Debug, PartialEq, Eq, Hash)]
pub struct PathResolution {
    pub path: PathId,
    pub scope: ScopeId,
    pub resolved: EarlyResolvedPath,
}

#[derive(Clone, Copy, Debug, PartialEq, Eq, Hash)]
pub enum LitKind {
    Int(u64),
    Bool(bool),
    String(IdentId),
}

#[derive(Clone, Debug, PartialEq, Eq, Hash)]
pub enum Expr {
    Lit(LitKind),
    Block(Vec<ExprId>),
    If(ExprId, ExprId, Option<ExprId>),
    Bin,
    Un,
    Call,
    MethodCall,
    Path,
    RecordInit,
    Field,
    Tuple,
    Index,
    Array,
    ArrayRep,
    Match,
    Assign,
    AugAssign,
}

#[derive(Clone, Debug, PartialEq, Eq, Hash)]
pub struct ExprNode {
    pub data: Partial<Expr>,
    pub span: Span,
}

/// The program under analysis.
#[derive(Clone, Debug, PartialEq, Eq, Hash)]
pub struct Hir {
    pub tys: Vec<HirTyKind>,
    pub items: Vec<Item>,
    pub resolutions: Vec<PathResolution>,
    pub exprs: Vec<ExprNode>,
}

/// Whether the descriptor, where present, lies before position `bound`.
pub open spec fn ty_below(ty: Partial<HirTyId>, bound: int) -> bool {
    match ty {
        Partial::Present(t) => t.0 < bound,
        Partial::Absent => true,
    }
}

/// Whether a generic argument is a type that lies before position `bound`.
pub open spec fn arg_below(arg: GenericArg, bound: int) -> bool {
    match arg {
        GenericArg::Type(ty) => ty_below(ty, bound),
        GenericArg::Const => false,
    }
}

/// Whether every parameter of the list is a type parameter.
pub open spec fn params_supported(params: Seq<GenericParam>) -> bool {
    forall|k: int| 0 <= k < params.len() ==> (#[trigger] params[k]) is Type
}

/// Whether every field's type, where present, lies before position `bound`.
pub open spec fn fields_below(fields: Seq<FieldDef>, bound: int) -> bool {
    forall|k: int| 0 <= k < fields.len() ==> ty_below((#[trigger] fields[k]).ty, bound)
}

/// Whether every payload type lies before position `bound`.
pub open spec fn variants_below(variants: Seq<VariantDef>, bound: int) -> bool {
    forall|k: int|
        0 <= k < variants.len() ==> ((#[trigger] variants[k]).ty matches Some(t) ==> t.0 < bound)
}

/// Whether the descriptor at position `at` has a shape that lowering gives
/// a meaning to, and is built from descriptors that stand before it.
pub open spec fn ty_kind_ok(kind: HirTyKind, at: int) -> bool {
    match kind {
        HirTyKind::Ptr(pointee) => ty_below(pointee, at),
        HirTyKind::Path(_, args) => forall|k: int|
            0 <= k < args@.len() ==> arg_below(#[trigger] args@[k], at),
        HirTyKind::SelfType => true,
        HirTyKind::Tuple(elems) => forall|k: int|
            0 <= k < elems@.len() ==> ty_below(#[trigger] elems@[k], at),
        HirTyKind::Array(_) => false,
    }
}

/// Whether the item names only descriptors that exist, and declares only
/// type parameters.
pub open spec fn item_ok(item: Item, n_tys: int) -> bool {
    match item {
        Item::Struct(s) => params_supported(s.generic_params@) && fields_below(s.fields@, n_tys),
        Item::Enum(e) => params_supported(e.generic_params@) && variants_below(
            e.variants@,
            n_tys,
        ),
        Item::Contract(c) => fields_below(c.fields@, n_tys),
        Item::TypeAlias(a) => params_supported(a.generic_params@) && ty_below(a.ty, n_tys),
        _ => true,
    }
}

/// Whether a type candidate points at something that exists: a built-in
/// type, an item, or a declared generic parameter of an item.
pub open spec fn name_res_ok(res: NameRes, items: Seq<Item>) -> bool {
    match res.kind {
        NameResKind::Prim(_) => true,
        NameResKind::Scope(ScopeId::Item(item)) => item.0 < items.len(),
        NameResKind::Scope(ScopeId::GenericParam(item, idx)) => item.0 < items.len() && idx
            < items[item.0 as int].generic_params_spec().len(),
    }
}

/// Whether the type candidate of a resolved path, if it has one, points at
/// something that exists.
pub open spec fn resolution_ok(entry: PathResolution, items: Seq<Item>) -> bool {
    resolved_ok(entry.resolved, items)
}

/// Whether the type candidate of a resolved path, if it has one, points at
/// something that exists.
pub open spec fn resolved_ok(resolved: EarlyResolvedPath, items: Seq<Item>) -> bool {
    match resolved {
        EarlyResolvedPath::Full(bucket) => match bucket.ty {
            Ok(res) => name_res_ok(res, items),
            Err(_) => true,
        },
        EarlyResolvedPath::Partial { .. } => true,
    }
}

/// In a program that the analysis accepts, the parts of a descriptor stand
/// before it, and no descriptor is an array.
pub proof fn lemma_children_below(hir: &Hir, ty: HirTyId)
    requires
        hir.wf(),
        ty.0 < hir.tys@.len(),
    ensures
        hir.tys@[ty.0 as int] matches HirTyKind::Ptr(pointee) ==> ty_below(
            pointee,
            ty.0 as int,
        ),
        hir.tys@[ty.0 as int] matches HirTyKind::Path(_, args) ==> forall|k: int|
            0 <= k < args@.len() ==> arg_below(#[trigger] args@[k], ty.0 as int),
        hir.tys@[ty.0 as int] matches HirTyKind::Tuple(elems) ==> forall|k: int|
            0 <= k < elems@.len() ==> ty_below(#[trigger] elems@[k], ty.0 as int),
        !(hir.tys@[ty.0 as int] is Array),
{
    assert(ty_kind_ok(hir.tys@[ty.0 as int], ty.0 as int));
}

/// In a program that the analysis accepts, what a path resolves to
/// points at something that exists.
pub proof fn lemma_resolve_ok(hir: &Hir, path: PathId, scope: ScopeId)
    requires
        hir.wf(),
    ensures
        resolved_ok(hir.resolve_spec(path, scope), hir.items@),
{
    lemma_lookup_ok(hir, path, scope, 0);
}

proof fn lemma_lookup_ok(hir: &Hir, path: PathId, scope: ScopeId, from: int)
    requires
        hir.wf(),
        0 <= from,
    ensures
        resolved_ok(lookup_from(hir.resolutions@, path, scope, from), hir.items@),
    decreases hir.resolutions@.len() - from,
{
    if from < hir.resolutions@.len() {
        assert(resolution_ok(hir.resolutions@[from], hir.items@));
        if !(hir.resolutions@[from].path == path && hir.resolutions@[from].scope == scope) {
            lemma_lookup_ok(hir, path, scope, from + 1);
        }
    }
}

/// Whether the expression at position `at` has a shape that the checker
/// gives a meaning to, and is built from expressions that stand before it.
pub open spec fn expr_ok(node: ExprNode, at: int) -> bool {
    match node.data {
        Partial::Absent => true,
        Partial::Present(Expr::Lit(_)) => true,
        Partial::Present(Expr::Block(stmts)) => forall|k: int|
            0 <= k < stmts@.len() ==> (#[trigger] stmts@[k]).0 < at,
        Partial::Present(Expr::If(cond, then, els)) => cond.0 < at && then.0 < at && (els matches Some(
            e,
        ) ==> e.0 < at),
        Partial::Present(_) => false,
    }
}

fn check_ty_below(ty: Partial<HirTyId>, bound: usize) -> (ok: bool)
    ensures
        ok == ty_below(ty, bound as int),
{
    match ty {
        Partial::Present(t) => t.0 < bound,
        Partial::Absent => true,
    }
}

fn check_tys_below(tys: &Vec<Partial<HirTyId>>, bound: usize) -> (ok: bool)
    ensures
        ok == (forall|k: int| 0 <= k < tys@.len() ==> ty_below(#[trigger] tys@[k], bound as int)),
{
    let mut k: usize = 0;
    while k < tys.len()
        invariant
            k <= tys@.len(),
            forall|j: int| 0 <= j < k ==> ty_below(#[trigger] tys@[j], bound as int),
        decreases tys@.len() - k,
    {
        if !check_ty_below(tys[k], bound) {
            return false;
        }
        k += 1;
    }
    true
}

fn check_args_below(args: &Vec<GenericArg>, bound: usize) -> (ok: bool)
    ensures
        ok == (forall|k: int| 0 <= k < args@.len() ==> arg_below(#[trigger] args@[k], bound as int)),
{
    let mut k: usize = 0;
    while k < args.len()
        invariant
            k <= args@.len(),
            forall|j: int| 0 <= j < k ==> arg_below(#[trigger] args@[j], bound as int),
        decreases args@.len() - k,
    {
        let ok = match args[k] {
            GenericArg::Type(ty) => check_ty_below(ty, bound),
            GenericArg::Const => false,
        };
        if !ok {
            return false;
        }
        k += 1;
    }
    true
}

fn check_ty_kind(kind: &HirTyKind, at: usize) -> (ok: bool)
    ensures
        ok == ty_kind_ok(*kind, at as int),
{
    match kind {
        HirTyKind::Ptr(pointee) => check_ty_below(*pointee, at),
        HirTyKind::Path(_, args) => check_args_below(args, at),
        HirTyKind::SelfType => true,
        HirTyKind::Tuple(elems) => check_tys_below(elems, at),
        HirTyKind::Array(_) => false,
    }
}

fn check_params(params: &Vec<GenericParam>) -> (ok: bool)
    ensures
        ok == params_supported(params@),
{
    let mut k: usize = 0;
    while k < params.len()
        invariant
            k <= params@.len(),
            forall|j: int| 0 <= j < k ==> (#[trigger] params@[j]) is Type,
        decreases params@.len() - k,
    {
        match params[k] {
            GenericParam::Type(_) => {},
            GenericParam::Const => {
                return false;
            },
        }
        k += 1;
    }
    true
}

fn check_fields(fields: &Vec<FieldDef>, bound: usize) -> (ok: bool)
    ensures
        ok == fields_below(fields@, bound as int),
{
    let mut k: usize = 0;
    while k < fields.len()
        invariant
            k <= fields@.len(),
            forall|j: int| 0 <= j < k ==> ty_below((#[trigger] fields@[j]).ty, bound as int),
        decreases fields@.len() - k,
    {
        if !check_ty_below(fields[k].ty, bound) {
            return false;
        }
        k += 1;
    }
    true
}

fn check_variants(variants: &Vec<VariantDef>, bound: usize) -> (ok: bool)
    ensures
        ok == variants_below(variants@, bound as int),
{
    let mut k: usize = 0;
    while k < variants.len()
        invariant
            k <= variants@.len(),
            forall|j: int|
                0 <= j < k ==> ((#[trigger] variants@[j]).ty matches Some(t) ==> t.0 < bound),
        decreases variants@.len() - k,
    {
        match variants[k].ty {
            Some(t) => {
                if t.0 >= bound {
                    return false;
                }
            },
            None => {},
        }
        k += 1;
    }
    true
}

fn check_item(item: &Item, n_tys: usize) -> (ok: bool)
    ensures
        ok == item_ok(*item, n_tys as int),
{
    match item {
        Item::Struct(s) => check_params(&s.generic_params) && check_fields(&s.fields, n_tys),
        Item::Enum(e) => check_params(&e.generic_params) && check_variants(&e.variants, n_tys),
        Item::Contract(c) => check_fields(&c.fields, n_tys),
        Item::TypeAlias(a) => check_params(&a.generic_params) && check_ty_below(a.ty, n_tys),
        _ => true,
    }
}

fn check_resolution(hir: &Hir, entry: &PathResolution) -> (ok: bool)
    ensures
        ok == resolution_ok(*entry, hir.items@),
{
    match entry.resolved {
        EarlyResolvedPath::Full(bucket) => match bucket.ty {
            Ok(res) => match res.kind {
                NameResKind::Prim(_) => true,
                NameResKind::Scope(ScopeId::Item(item)) => item.0 < hir.items.len(),
                NameResKind::Scope(ScopeId::GenericParam(item, idx)) => item.0 < hir.items.len()
                    && idx < hir.generic_param_count(item),
            },
            Err(_) => true,
        },
        EarlyResolvedPath::Partial { .. } => true,
    }
}

fn check_stmts(stmts: &Vec<ExprId>, at: usize) -> (ok: bool)
    ensures
        ok == (forall|k: int| 0 <= k < stmts@.len() ==> (#[trigger] stmts@[k]).0 < at),
{
    let mut k: usize = 0;
    while k < stmts.len()
        invariant
            k <= stmts@.len(),
            forall|j: int| 0 <= j < k ==> (#[trigger] stmts@[j]).0 < at,
        decreases stmts@.len() - k,
    {
        if stmts[k].0 >= at {
            return false;
        }
        k += 1;
    }
    true
}

fn check_expr_node(node: &ExprNode, at: usize) -> (ok: bool)
    ensures
        ok == expr_ok(*node, at as int),
{
    match &node.data {
        Partial::Absent => true,
        Partial::Present(expr) => match expr {
            Expr::Lit(_) => true,
            Expr::Block(stmts) => check_stmts(stmts, at),
            Expr::If(cond, then, els) => {
                let els_ok = match els {
                    Some(e) => e.0 < at,
                    None => true,
                };
                cond.0 < at && then.0 < at && els_ok
            },
            _ => false,
        },
    }
}

/// The first answer on `path` in `scope` among the entries from `from` on;
/// the bucket of an undeclared name where there is none.
pub open spec fn lookup_from(
    entries: Seq<PathResolution>,
    path: PathId,
    scope: ScopeId,
    from: int,
) -> EarlyResolvedPath
    decreases entries.len() - from,
{
    if from < 0 || from >= entries.len() {
        EarlyResolvedPath::Full(NameResBucket::not_found_spec())
    } else if entries[from].path == path && entries[from].scope == scope {
        entries[from].resolved
    } else {
        lookup_from(entries, path, scope, from + 1)
    }
}

impl Hir {
    /// The declarations of the program are such as the analysis accepts:
    /// every handle in a descriptor, an item or an answer of name
    /// resolution points at something that stands before its user, and no
    /// descriptor or generic parameter has a shape that is still without
    /// a meaning (arrays, constant generics). Nothing is asked of the
    /// expressions here: see [`Hir::exprs_ok`].
    pub open spec fn wf(&self) -> bool {
        &&& forall|i: int| 0 <= i < self.tys@.len() ==> ty_kind_ok(#[trigger] self.tys@[i], i)
        &&& forall|i: int|
            0 <= i < self.items@.len() ==> item_ok(#[trigger] self.items@[i], self.tys@.len() as int)
        &&& forall|i: int|
            0 <= i < self.resolutions@.len() ==> resolution_ok(
                #[trigger] self.resolutions@[i],
                self.items@,
            )
    }

    /// The expressions before position `upto` are such as the checker
    /// accepts: each is a literal, a block or a conditional, or absent,
    /// and is built from expressions that stand before it.
    pub open spec fn exprs_ok(&self, upto: int) -> bool {
        forall|i: int|
            0 <= i < upto && i < self.exprs@.len() ==> expr_ok(#[trigger] self.exprs@[i], i)
    }

    /// Decides whether the expressions before position `upto` are such as
    /// the checker accepts.
    pub fn validate_exprs(&self, upto: usize) -> (ok: bool)
        ensures
            ok == self.exprs_ok(upto as int),
    {
        let mut i: usize = 0;
        while i < self.exprs.len() && i < upto
            invariant
                i <= self.exprs@.len(),
                i <= upto,
                forall|j: int| 0 <= j < i ==> expr_ok(#[trigger] self.exprs@[j], j),
            decreases self.exprs@.len() - i,
        {
            if !check_expr_node(&self.exprs[i], i) {
                return false;
            }
            i += 1;
        }
        true
    }

    /// Decides whether the declarations of the program are such as the
    /// analysis accepts.
    pub fn validate(&self) -> (ok: bool)
        ensures
            ok == self.wf(),
    {
        let mut i: usize = 0;
        while i < self.tys.len()
            invariant
                i <= self.tys@.len(),
                forall|j: int| 0 <= j < i ==> ty_kind_ok(#[trigger] self.tys@[j], j),
            decreases self.tys@.len() - i,
        {
            if !check_ty_kind(&self.tys[i], i) {
                return false;
            }
            i += 1;
        }
        let n_tys = self.tys.len();
        let mut i: usize = 0;
        while i < self.items.len()
            invariant
                i <= self.items@.len(),
                n_tys == self.tys@.len(),
                forall|j: int| 0 <= j < i ==> item_ok(#[trigger] self.items@[j], n_tys as int),
            decreases self.items@.len() - i,
        {
            if !check_item(&self.items[i], n_tys) {
                return false;
            }
            i += 1;
        }
        let mut i: usize = 0;
        while i < self.resolutions.len()
            invariant
                i <= self.resolutions@.len(),
                forall|j: int|
                    0 <= j < i ==> resolution_ok(#[trigger] self.resolutions@[j], self.items@),
            decreases self.resolutions@.len() - i,
        {
            if !check_resolution(self, &self.resolutions[i]) {
                return false;
            }
            i += 1;
        }
        true
    }

    /// What name resolution made of `path` in `scope`.
    pub open spec fn resolve_spec(&self, path: PathId, scope: ScopeId) -> EarlyResolvedPath {
        lookup_from(self.resolutions@, path, scope, 0)
    }

    /// What the implicit self type of `scope` is bound to: the algebraic
    /// type that the scope belongs to, and nothing elsewhere.
    pub open spec fn resolve_self_spec(&self, scope: ScopeId) -> EarlyResolvedPath {
        let item = scope.item_spec();
        if item.0 < self.items@.len() && self.items@[item.0 as int].is_adt() {
            EarlyResolvedPath::Full(
                NameResBucket {
                    ty: Ok(
                        NameRes {
                            kind: NameResKind::Scope(ScopeId::Item(item)),
                            domain: NameDomain::Type,
                        },
                    ),
                    value: Err(NameResolutionError::NotFound),
                },
            )
        } else {
            EarlyResolvedPath::Full(NameResBucket::not_found_spec())
        }
    }

    /// Looks up what name resolution made of `path` in `scope`. A path that
    /// it has no answer for is an undeclared name.
    pub fn resolve_path_early(&self, path: PathId, scope: ScopeId) -> (r: EarlyResolvedPath)
        ensures
            r == self.resolve_spec(path, scope),
    {
        let mut i: usize = 0;
        while i < self.resolutions.len()
            invariant
                i <= self.resolutions@.len(),
                lookup_from(self.resolutions@, path, scope, 0) == lookup_from(
                    self.resolutions@,
                    path,
                    scope,
                    i as int,
                ),
            decreases self.resolutions@.len() - i,
        {
            let entry = &self.resolutions[i];
            if entry.path == path && entry.scope == scope {
                return entry.resolved;
            }
            i += 1;
        }
        EarlyResolvedPath::Full(NameResBucket::not_found())
    }

    /// Resolves the implicit self type of `scope`.
    pub fn resolve_self_ty(&self, scope: ScopeId) -> (r: EarlyResolvedPath)
        ensures
            r == self.resolve_self_spec(scope),
    {
        let item = scope.item();
        if item.0 < self.items.len() {
            let is_adt = match &self.items[item.0] {
                Item::Struct(_) => true,
                Item::Enum(_) => true,
                Item::Contract(_) => true,
                _ => false,
            };
            if is_adt {
                return EarlyResolvedPath::Full(
                    NameResBucket {
                        ty: Ok(
                            NameRes {
                                kind: NameResKind::Scope(ScopeId::Item(item)),
                                domain: NameDomain::Type,
                            },
                        ),
                        value: Err(NameResolutionError::NotFound),
                    },
                );
            }
        }
        EarlyResolvedPath::Full(NameResBucket::not_found())
    }

    /// How many generic parameters the item declares.
    pub fn generic_param_count(&self, item: ItemId) -> (n: usize)
        requires
            item.0 < self.items@.len(),
        ensures
            n == self.items@[item.0 as int].generic_params_spec().len(),
    {
        match &self.items[item.0] {
            Item::Struct(s) => s.generic_params.len(),
            Item::Enum(e) => e.generic_params.len(),
            Item::TypeAlias(a) => a.generic_params.len(),
            _ => 0,
        }
    }
}

} // verus!
