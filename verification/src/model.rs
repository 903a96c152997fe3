//! What lowering means: the type that a syntax-level descriptor stands
//! for, as a function of the program and of the aliases resolved so far.

use vstd::prelude::*;
use either::Either;
use crate::hir::{
    EarlyResolvedPath, FieldDef, GenericArg, GenericParam, Hir, HirTyId, HirTyKind, Item,
    ItemId, NameDomain, NameResKind, Partial, ScopeId, VariantDef,
};
use crate::ty::{app_all, app_ty, is_mono, tuple_ctor, AdtRef, InvalidCause, Kind, Ty, TyParam};

verus! {

/// `either::Either`, a sum type with the two public variants `Left` and `Right`.
#[verifier::external_type_specification]
#[verifier::reject_recursive_types(L)]
#[verifier::reject_recursive_types(R)]
pub struct ExEither<L, R>(Either<L, R>);

/// What a type alias stands for: a target type in which the parameters
/// occur, to be replaced by arguments.
pub struct AliasTy {
    pub alias_to: Ty,
    pub params: Seq<Ty>,
}

/// The aliases resolved so far, each with what it stands for.
pub type AliasTable = Map<ItemId, AliasTy>;

/// What an alias stands for whose definition refers to itself: an invalid
/// type without parameters.
pub open spec fn poisoned_alias() -> AliasTy {
    AliasTy { alias_to: Ty::Invalid(InvalidCause::Other), params: Seq::empty() }
}

/// The types that the generic arguments name.
pub open spec fn arg_tys(args: Seq<GenericArg>) -> Seq<Partial<HirTyId>> {
    Seq::new(args.len(), |i: int| args[i].ty())
}

/// The declared types of the fields.
pub open spec fn field_tys(fields: Seq<FieldDef>) -> Seq<Partial<HirTyId>> {
    Seq::new(fields.len(), |i: int| fields[i].ty)
}

/// The payload type of each enum case, absent where the case has none.
pub open spec fn payload_tys(variants: Seq<VariantDef>) -> Seq<Partial<HirTyId>> {
    Seq::new(
        variants.len(),
        |i: int|
            match variants[i].ty {
                Some(t) => Partial::Present(t),
                None => Partial::Absent,
            },
    )
}

/// The generic parameter of `item` at position `idx` as a type: a type
/// parameter where it has a name, invalid where it has none.
pub open spec fn generic_param_ty(hir: &Hir, item: ItemId, idx: usize) -> Ty {
    if item.0 < hir.items@.len() && idx < hir.items@[item.0 as int].generic_params_spec().len() {
        match hir.items@[item.0 as int].generic_params_spec()[idx as int] {
            GenericParam::Type(Partial::Present(name)) => Ty::Param(
                TyParam { name, idx, kind: Kind::Star },
            ),
            _ => Ty::Invalid(InvalidCause::Other),
        }
    } else {
        Ty::Invalid(InvalidCause::Other)
    }
}

/// How many generic parameters the item declares.
pub open spec fn generic_param_len(hir: &Hir, item: ItemId) -> nat {
    if item.0 < hir.items@.len() {
        hir.items@[item.0 as int].generic_params_spec().len()
    } else {
        0
    }
}

/// The generic parameters of `item` as types, in declaration order.
pub open spec fn generic_param_tys(hir: &Hir, item: ItemId) -> Seq<Ty> {
    Seq::new(generic_param_len(hir, item), |i: int| generic_param_ty(hir, item, i as usize))
}

/// Whether a resolved path names the type alias `alias`.
pub open spec fn names_alias(hir: &Hir, res: EarlyResolvedPath, alias: ItemId) -> bool {
    &&& res matches EarlyResolvedPath::Full(bucket)
    &&& bucket.ty matches Ok(name)
    &&& name.kind == NameResKind::Scope(ScopeId::Item(alias))
    &&& alias.0 < hir.items@.len()
    &&& hir.items@[alias.0 as int] is TypeAlias
}

/// What an item is as a type: an algebraic type, an alias, or no type at all.
pub open spec fn item_ty(hir: &Hir, aliases: AliasTable, item: ItemId) -> Either<Ty, AliasTy> {
    if item.0 < hir.items@.len() {
        match hir.items@[item.0 as int] {
            Item::Enum(_) => Either::Left(Ty::Adt(AdtRef::Enum(item))),
            Item::Struct(_) => Either::Left(Ty::Adt(AdtRef::Struct(item))),
            Item::Contract(_) => Either::Left(Ty::Adt(AdtRef::Contract(item))),
            Item::TypeAlias(_) => Either::Right(aliases[item]),
            _ => Either::Left(Ty::Invalid(InvalidCause::ReferenceToNonType)),
        }
    } else {
        Either::Left(Ty::Invalid(InvalidCause::ReferenceToNonType))
    }
}

/// What a resolved path is as a type. A path without a candidate among
/// the types is invalid, and so is one that leads into an associated type.
pub open spec fn resolved_ty(hir: &Hir, aliases: AliasTable, res: EarlyResolvedPath) -> Either<
    Ty,
    AliasTy,
> {
    match res {
        EarlyResolvedPath::Full(bucket) => match bucket.pick_spec(NameDomain::Type) {
            Ok(name) => match name.kind {
                NameResKind::Prim(prim) => Either::Left(Ty::Prim(prim)),
                NameResKind::Scope(ScopeId::GenericParam(item, idx)) => Either::Left(
                    generic_param_ty(hir, item, idx),
                ),
                NameResKind::Scope(ScopeId::Item(item)) => item_ty(hir, aliases, item),
            },
            Err(_) => Either::Left(Ty::Invalid(InvalidCause::Other)),
        },
        EarlyResolvedPath::Partial { .. } => Either::Left(Ty::Invalid(InvalidCause::AssocTy)),
    }
}

/// The first position from `from` on at which `ty` stands in `params`, or -1.
pub open spec fn position_from(params: Seq<Ty>, ty: Ty, from: int) -> int
    decreases params.len() - from,
{
    if from < 0 || from >= params.len() {
        -1
    } else if params[from] == ty {
        from
    } else {
        position_from(params, ty, from + 1)
    }
}

/// `ty` with each type parameter that stands in `params` replaced by the
/// argument at the same position. A parameter without an argument stays.
pub open spec fn subst_ty(ty: Ty, params: Seq<Ty>, args: Seq<Ty>) -> Ty
    decreases ty,
{
    match ty {
        Ty::Param(_) => {
            let at = position_from(params, ty, 0);
            if 0 <= at < args.len() {
                args[at]
            } else {
                ty
            }
        },
        Ty::App(base, arg) => app_ty(subst_ty(*base, params, args), subst_ty(*arg, params, args)),
        _ => ty,
    }
}

/// An alias with arguments for its parameters. With too few arguments it
/// is not fully applied; arguments beyond the parameters are applied to
/// what the alias stands for.
pub open spec fn subst_with_ty(alias: AliasTy, args: Seq<Ty>) -> Ty {
    if args.len() < alias.params.len() {
        Ty::Invalid(InvalidCause::NotFullyApplied)
    } else {
        app_all(
            subst_ty(alias.alias_to, alias.params, args),
            args.subrange(alias.params.len() as int, args.len() as int),
        )
    }
}

/// A use of an alias with the given arguments. An alias to a type that
/// still waits for arguments cannot be used.
pub open spec fn instantiate(hir: &Hir, alias: AliasTy, args: Seq<Ty>) -> Ty {
    if is_mono(hir, alias.alias_to) {
        subst_with_ty(alias, args)
    } else {
        Ty::Invalid(InvalidCause::NotFullyApplied)
    }
}

/// Whether every type of the list is fully applied.
pub open spec fn all_mono(hir: &Hir, tys: Seq<Ty>) -> bool {
    forall|i: int| 0 <= i < tys.len() ==> is_mono(hir, #[trigger] tys[i])
}

/// The tuple of the given element types. One element that still waits for
/// arguments makes the whole tuple invalid.
pub open spec fn tuple_ty(hir: &Hir, elems: Seq<Ty>) -> Ty {
    if all_mono(hir, elems) {
        app_all(tuple_ctor(elems.len() as usize), elems)
    } else {
        Ty::Invalid(InvalidCause::NotFullyApplied)
    }
}

/// The pointer to the given type.
pub open spec fn ptr_ty(pointee: Ty) -> Ty {
    app_ty(Ty::Ptr, pointee)
}

/// What a type of either kind is as a type, where only a plain type is expected.
pub open spec fn left_or_invalid(ty: Either<Ty, AliasTy>) -> Ty {
    match ty {
        Either::Left(t) => t,
        Either::Right(_) => Ty::Invalid(InvalidCause::Other),
    }
}

/// What the path of a descriptor is as a type; an absent path is invalid.
pub open spec fn path_head(
    hir: &Hir,
    aliases: AliasTable,
    scope: ScopeId,
    path: Partial<crate::hir::PathId>,
) -> Either<Ty, AliasTy> {
    match path {
        Partial::Present(p) => resolved_ty(hir, aliases, hir.resolve_spec(p, scope)),
        Partial::Absent => Either::Left(Ty::Invalid(InvalidCause::Other)),
    }
}

/// A path with generic arguments: a plain type is applied to them one
/// after the other, an alias is used with them.
pub open spec fn path_result(hir: &Hir, head: Either<Ty, AliasTy>, args: Seq<Ty>) -> Ty {
    match head {
        Either::Left(base) => app_all(base, args),
        Either::Right(alias) => instantiate(hir, alias, args),
    }
}

/// The type that the descriptor `ty` stands for in `scope`.
pub open spec fn lower_ty(hir: &Hir, aliases: AliasTable, scope: ScopeId, ty: HirTyId) -> Ty
    decreases ty.0 + 1, 0nat,
{
    if ty.0 >= hir.tys@.len() {
        Ty::Invalid(InvalidCause::Other)
    } else {
        match hir.tys@[ty.0 as int] {
            HirTyKind::Ptr(pointee) => ptr_ty(
                lower_partial(hir, aliases, scope, pointee, ty.0 as nat),
            ),
            HirTyKind::Path(path, args) => path_result(
                hir,
                path_head(hir, aliases, scope, path),
                lower_tys(hir, aliases, scope, arg_tys(args@), ty.0 as nat),
            ),
            HirTyKind::SelfType => left_or_invalid(
                resolved_ty(hir, aliases, hir.resolve_self_spec(scope)),
            ),
            HirTyKind::Tuple(elems) => tuple_ty(
                hir,
                lower_tys(hir, aliases, scope, elems@, ty.0 as nat),
            ),
            HirTyKind::Array(_) => Ty::Invalid(InvalidCause::Other),
        }
    }
}

/// The type that a descriptor stands for which may be absent, and which
/// stands before position `bound` if it is there. An absent one is invalid.
pub open spec fn lower_partial(
    hir: &Hir,
    aliases: AliasTable,
    scope: ScopeId,
    ty: Partial<HirTyId>,
    bound: nat,
) -> Ty
    decreases bound, 1nat,
{
    match ty {
        Partial::Present(t) => if t.0 < bound {
            lower_ty(hir, aliases, scope, t)
        } else {
            Ty::Invalid(InvalidCause::Other)
        },
        Partial::Absent => Ty::Invalid(InvalidCause::Other),
    }
}

/// The types that the descriptors of a list stand for, in order.
pub open spec fn lower_tys(
    hir: &Hir,
    aliases: AliasTable,
    scope: ScopeId,
    tys: Seq<Partial<HirTyId>>,
    bound: nat,
) -> Seq<Ty>
    decreases bound, 2 + tys.len(),
{
    if tys.len() == 0 {
        Seq::empty()
    } else {
        lower_tys(hir, aliases, scope, tys.drop_last(), bound).push(
            lower_partial(hir, aliases, scope, tys.last(), bound),
        )
    }
}

/// Whether the descriptor `ty`, read in `scope`, names the alias `alias`
/// somewhere in it.
pub open spec fn ty_mentions(hir: &Hir, scope: ScopeId, ty: HirTyId, alias: ItemId) -> bool
    decreases ty.0 + 1, 0nat,
{
    if ty.0 >= hir.tys@.len() {
        false
    } else {
        match hir.tys@[ty.0 as int] {
            HirTyKind::Ptr(pointee) => partial_mentions(hir, scope, pointee, ty.0 as nat, alias),
            HirTyKind::Path(path, args) => (path matches Partial::Present(p) && names_alias(
                hir,
                hir.resolve_spec(p, scope),
                alias,
            )) || tys_mention(hir, scope, arg_tys(args@), ty.0 as nat, alias),
            HirTyKind::SelfType => false,
            HirTyKind::Tuple(elems) => tys_mention(hir, scope, elems@, ty.0 as nat, alias),
            HirTyKind::Array(_) => false,
        }
    }
}

/// Whether a descriptor that may be absent names the alias.
pub open spec fn partial_mentions(
    hir: &Hir,
    scope: ScopeId,
    ty: Partial<HirTyId>,
    bound: nat,
    alias: ItemId,
) -> bool
    decreases bound, 1nat,
{
    match ty {
        Partial::Present(t) => t.0 < bound && ty_mentions(hir, scope, t, alias),
        Partial::Absent => false,
    }
}

/// Whether one of the descriptors of a list names the alias.
pub open spec fn tys_mention(
    hir: &Hir,
    scope: ScopeId,
    tys: Seq<Partial<HirTyId>>,
    bound: nat,
    alias: ItemId,
) -> bool
    decreases bound, 2 + tys.len(),
{
    if tys.len() == 0 {
        false
    } else {
        tys_mention(hir, scope, tys.drop_last(), bound, alias) || partial_mentions(
            hir,
            scope,
            tys.last(),
            bound,
            alias,
        )
    }
}

/// Whether the definition of the alias `from` names the alias `to`.
pub open spec fn alias_refers(hir: &Hir, from: ItemId, to: ItemId) -> bool {
    &&& from.0 < hir.items@.len()
    &&& hir.items@[from.0 as int] matches Item::TypeAlias(def)
    &&& partial_mentions(hir, ScopeId::Item(from), def.ty, hir.tys@.len(), to)
}

/// Whether each alias of the list names the next one in its definition.
pub open spec fn is_walk(hir: &Hir, walk: Seq<ItemId>) -> bool {
    &&& walk.len() >= 2
    &&& forall|i: int|
        0 <= i < walk.len() - 1 ==> alias_refers(hir, #[trigger] walk[i], walk[i + 1])
}

/// Whether the definition of `from` leads to `to`, directly or through
/// other aliases.
pub open spec fn alias_reaches(hir: &Hir, from: ItemId, to: ItemId) -> bool {
    exists|walk: Seq<ItemId>| #[trigger]
        is_walk(hir, walk) && walk.first() == from && walk.last() == to
}

/// Whether the definition of the alias leads back to the alias itself.
pub open spec fn alias_is_recursive(hir: &Hir, alias: ItemId) -> bool {
    alias_reaches(hir, alias, alias)
}

/// What the alias `alias` stands for, given what the aliases stand for
/// that its definition names: its definition lowered in the alias's own
/// scope, over its own generic parameters.
pub open spec fn alias_ty(hir: &Hir, aliases: AliasTable, alias: ItemId) -> AliasTy {
    if alias.0 < hir.items@.len() {
        match hir.items@[alias.0 as int] {
            Item::TypeAlias(def) => AliasTy {
                alias_to: lower_partial(
                    hir,
                    aliases,
                    ScopeId::Item(alias),
                    def.ty,
                    hir.tys@.len(),
                ),
                params: generic_param_tys(hir, alias),
            },
            _ => poisoned_alias(),
        }
    } else {
        poisoned_alias()
    }
}

/// One variant of an algebraic type: a name and the types of the payload.
pub struct VariantTy {
    pub name: Partial<crate::hir::IdentId>,
    pub tys: Seq<Ty>,
}

/// The definition of an algebraic type.
pub struct AdtDefTy {
    pub adt: AdtRef,
    pub params: Seq<Ty>,
    pub variants: Seq<VariantTy>,
}

/// The variant that an enum case declares: its name, and its payload type
/// where it has one.
pub open spec fn enum_variant_ty(
    hir: &Hir,
    aliases: AliasTable,
    scope: ScopeId,
    variant: VariantDef,
) -> VariantTy {
    VariantTy {
        name: variant.name,
        tys: match variant.ty {
            Some(t) => seq![
                lower_partial(hir, aliases, scope, Partial::Present(t), hir.tys@.len()),
            ],
            None => Seq::empty(),
        },
    }
}

/// The one variant of a struct or contract: named like the item, with the
/// field types as its payload, in declaration order.
pub open spec fn record_variant_ty(
    hir: &Hir,
    aliases: AliasTable,
    scope: ScopeId,
    name: Partial<crate::hir::IdentId>,
    fields: Seq<FieldDef>,
) -> VariantTy {
    VariantTy { name, tys: lower_tys(hir, aliases, scope, field_tys(fields), hir.tys@.len()) }
}

/// Whether the reference points at an item of the kind that it claims.
pub open spec fn adt_ref_ok(hir: &Hir, adt: AdtRef) -> bool {
    &&& adt.item_spec().0 < hir.items@.len()
    &&& match adt {
        AdtRef::Struct(item) => hir.items@[item.0 as int] is Struct,
        AdtRef::Enum(item) => hir.items@[item.0 as int] is Enum,
        AdtRef::Contract(item) => hir.items@[item.0 as int] is Contract,
    }
}

/// The variants of an algebraic type, in declaration order, each lowered
/// in the item's own scope.
pub open spec fn adt_variants(hir: &Hir, aliases: AliasTable, adt: AdtRef) -> Seq<VariantTy> {
    let item = adt.item_spec();
    let scope = ScopeId::Item(item);
    if item.0 < hir.items@.len() {
        match hir.items@[item.0 as int] {
            Item::Struct(s) => seq![record_variant_ty(hir, aliases, scope, s.name, s.fields@)],
            Item::Contract(c) => seq![record_variant_ty(hir, aliases, scope, c.name, c.fields@)],
            Item::Enum(e) => Seq::new(
                e.variants@.len(),
                |i: int| enum_variant_ty(hir, aliases, scope, e.variants@[i]),
            ),
            _ => Seq::empty(),
        }
    } else {
        Seq::empty()
    }
}

/// The definition of the algebraic type that comes from `adt`.
pub open spec fn adt_def_ty(hir: &Hir, aliases: AliasTable, adt: AdtRef) -> AdtDefTy {
    AdtDefTy {
        adt,
        params: generic_param_tys(hir, adt.item_spec()),
        variants: adt_variants(hir, aliases, adt),
    }
}

/// Whether the definition of the algebraic type names the alias in one of
/// its fields or payloads.
pub open spec fn adt_mentions(hir: &Hir, adt: AdtRef, alias: ItemId) -> bool {
    let item = adt.item_spec();
    let scope = ScopeId::Item(item);
    item.0 < hir.items@.len() && match hir.items@[item.0 as int] {
        Item::Struct(s) => tys_mention(hir, scope, field_tys(s.fields@), hir.tys@.len(), alias),
        Item::Contract(c) => tys_mention(hir, scope, field_tys(c.fields@), hir.tys@.len(), alias),
        Item::Enum(e) => tys_mention(hir, scope, payload_tys(e.variants@), hir.tys@.len(), alias),
        _ => false,
    }
}

/// Two tables that agree on every alias that a descriptor names give the
/// descriptor the same type.
pub proof fn lemma_lower_ty_frame(
    hir: &Hir,
    a: AliasTable,
    b: AliasTable,
    scope: ScopeId,
    ty: HirTyId,
)
    requires
        forall|alias: ItemId| ty_mentions(hir, scope, ty, alias) ==> a[alias] == b[alias],
    ensures
        lower_ty(hir, a, scope, ty) == lower_ty(hir, b, scope, ty),
    decreases ty.0 + 1, 0nat,
{
    if ty.0 < hir.tys@.len() {
        match hir.tys@[ty.0 as int] {
            HirTyKind::Ptr(pointee) => {
                lemma_lower_partial_frame(hir, a, b, scope, pointee, ty.0 as nat);
            },
            HirTyKind::Path(path, args) => {
                lemma_lower_tys_frame(hir, a, b, scope, arg_tys(args@), ty.0 as nat);
                match path {
                    Partial::Present(p) => {
                        let res = hir.resolve_spec(p, scope);
                        assert(resolved_ty(hir, a, res) == resolved_ty(hir, b, res)) by {
                            if resolved_ty(hir, a, res) is Right || resolved_ty(hir, b, res) is Right {
                                let alias = res->Full_0.ty->Ok_0.kind->Scope_0->Item_0;
                                assert(names_alias(hir, res, alias));
                                assert(ty_mentions(hir, scope, ty, alias));
                            }
                        }
                    },
                    Partial::Absent => {},
                }
            },
            HirTyKind::SelfType => {
                let res = hir.resolve_self_spec(scope);
                assert(resolved_ty(hir, a, res) == resolved_ty(hir, b, res));
            },
            HirTyKind::Tuple(elems) => {
                lemma_lower_tys_frame(hir, a, b, scope, elems@, ty.0 as nat);
            },
            HirTyKind::Array(_) => {},
        }
    }
}

/// The same for a descriptor that may be absent.
pub proof fn lemma_lower_partial_frame(
    hir: &Hir,
    a: AliasTable,
    b: AliasTable,
    scope: ScopeId,
    ty: Partial<HirTyId>,
    bound: nat,
)
    requires
        forall|alias: ItemId|
            partial_mentions(hir, scope, ty, bound, alias) ==> a[alias] == b[alias],
    ensures
        lower_partial(hir, a, scope, ty, bound) == lower_partial(hir, b, scope, ty, bound),
    decreases bound, 1nat,
{
    match ty {
        Partial::Present(t) => {
            if t.0 < bound {
                lemma_lower_ty_frame(hir, a, b, scope, t);
            }
        },
        Partial::Absent => {},
    }
}

/// The same for a list of descriptors.
pub proof fn lemma_lower_tys_frame(
    hir: &Hir,
    a: AliasTable,
    b: AliasTable,
    scope: ScopeId,
    tys: Seq<Partial<HirTyId>>,
    bound: nat,
)
    requires
        forall|alias: ItemId| tys_mention(hir, scope, tys, bound, alias) ==> a[alias] == b[alias],
    ensures
        lower_tys(hir, a, scope, tys, bound) == lower_tys(hir, b, scope, tys, bound),
    decreases bound, 2 + tys.len(),
{
    if tys.len() > 0 {
        lemma_lower_tys_frame(hir, a, b, scope, tys.drop_last(), bound);
        lemma_lower_partial_frame(hir, a, b, scope, tys.last(), bound);
    }
}

/// The list of lowered types is as long as the list of descriptors, and
/// holds at each position what the descriptor at that position stands for.
pub proof fn lemma_lower_tys_index(
    hir: &Hir,
    aliases: AliasTable,
    scope: ScopeId,
    tys: Seq<Partial<HirTyId>>,
    bound: nat,
)
    ensures
        lower_tys(hir, aliases, scope, tys, bound).len() == tys.len(),
        forall|i: int|
            0 <= i < tys.len() ==> #[trigger] lower_tys(hir, aliases, scope, tys, bound)[i]
                == lower_partial(hir, aliases, scope, tys[i], bound),
    decreases tys.len(),
{
    if tys.len() > 0 {
        lemma_lower_tys_index(hir, aliases, scope, tys.drop_last(), bound);
    }
}

/// A list of descriptors names an alias exactly if one of them does.
pub proof fn lemma_tys_mention_index(
    hir: &Hir,
    scope: ScopeId,
    tys: Seq<Partial<HirTyId>>,
    bound: nat,
    alias: ItemId,
)
    ensures
        tys_mention(hir, scope, tys, bound, alias) <==> exists|i: int|
            0 <= i < tys.len() && partial_mentions(hir, scope, #[trigger] tys[i], bound, alias),
    decreases tys.len(),
{
    if tys.len() > 0 {
        lemma_tys_mention_index(hir, scope, tys.drop_last(), bound, alias);
        if tys_mention(hir, scope, tys.drop_last(), bound, alias) {
            let i = choose|i: int|
                0 <= i < tys.drop_last().len() && partial_mentions(
                    hir,
                    scope,
                    #[trigger] tys.drop_last()[i],
                    bound,
                    alias,
                );
            assert(tys[i] == tys.drop_last()[i]);
        }
        if exists|i: int|
            0 <= i < tys.len() && partial_mentions(hir, scope, #[trigger] tys[i], bound, alias) {
            let i = choose|i: int|
                0 <= i < tys.len() && partial_mentions(hir, scope, #[trigger] tys[i], bound, alias);
            if i < tys.len() - 1 {
                assert(tys[i] == tys.drop_last()[i]);
            }
        }
    }
}

} // verus!
