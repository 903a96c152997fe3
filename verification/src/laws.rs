//! What holds of the analysis as a whole.

use vstd::prelude::*;
use crate::db::{lemma_table_kept, Session};
use crate::hir::{
    EarlyResolvedPath, ExprId, Hir, HirTyId, HirTyKind, Item, ItemId, Partial, ScopeId,
};
use crate::lower::{chain_ok, lemma_chain_bounded, lemma_chain_push, lowered_ty, within};
use crate::model::{
    adt_def_ty, alias_is_recursive, alias_refers, all_mono, enum_variant_ty, field_tys,
    lemma_lower_partial_frame, lemma_lower_tys_index, lemma_lower_ty_frame, lower_partial,
    lower_ty, lower_tys, partial_mentions, subst_ty, ty_mentions, AliasTable,
};
use crate::ty::{
    app_all, lemma_extends_keeps_trees, lemma_stored_once, tuple_ctor, AdtRef, InvalidCause, Ty,
    TyData, TyId, TyStore,
};
use crate::ty_check::{
    apply_ty, check_block_spec, check_expr_spec, check_if_spec, check_in_scope_spec,
    check_stmts_spec, entered, CheckState, ScopeEvent,
};

verus! {

/// Interning. Two handles of a store are equal exactly if the types that
/// they stand for are equal as trees; and equality of handles is
/// reflexive, symmetric and transitive.
pub proof fn lemma_handles_are_canonical(store: &TyStore, a: TyId, b: TyId, c: TyId)
    requires
        store.wf(),
        store.contains(a),
        store.contains(b),
        store.contains(c),
    ensures
        (a == b) <==> (store.view_of(a) == store.view_of(b)),
        a == a,
        a == b ==> b == a,
        a == b && b == c ==> a == c,
{
    if store.view_of(a) == store.view_of(b) {
        lemma_stored_once(store.nodes@, a.0 as int, b.0 as int);
    }
}

/// Interning, over time. A type that is asked for again, however much the
/// store has grown in between, comes under the handle that it had.
pub proof fn lemma_same_type_same_handle(old: &TyStore, new: &TyStore, a: TyId, b: TyId)
    requires
        new.wf(),
        new.extends(old),
        old.contains(a),
        new.contains(b),
        new.view_of(b) == old.view_of(a),
    ensures
        a == b,
{
    lemma_extends_keeps_trees(old, new);
    assert(new.view_of(a) == old.view_of(a));
    lemma_stored_once(new.nodes@, a.0 as int, b.0 as int);
}

/// What a resolved alias stands for depends on the program alone: two
/// sessions of the same program that have both resolved the alias agree
/// on it.
pub proof fn lemma_resolved_aliases_agree(hir: &Hir, s1: &Session, s2: &Session, alias: ItemId)
    requires
        s1.wf(hir),
        s2.wf(hir),
        s1.has_alias(alias),
        s2.has_alias(alias),
    ensures
        s1.alias_table()[alias] == s2.alias_table()[alias],
{
    lemma_aliases_agree_in(hir, s1, s2, alias, Seq::empty());
}

proof fn lemma_aliases_agree_in(
    hir: &Hir,
    s1: &Session,
    s2: &Session,
    alias: ItemId,
    stack: Seq<ItemId>,
)
    requires
        s1.wf(hir),
        s2.wf(hir),
        s1.has_alias(alias),
        s2.has_alias(alias),
        chain_ok(hir, stack),
        within(hir, stack, alias),
    ensures
        s1.alias_table()[alias] == s2.alias_table()[alias],
    decreases hir.items@.len() - stack.len(),
{
    assert(s1.alias_entry_ok(hir, alias));
    assert(s2.alias_entry_ok(hir, alias));
    if !alias_is_recursive(hir, alias) {
        lemma_chain_push(hir, stack, alias);
        lemma_chain_bounded(hir, stack.push(alias));
        let def = hir.items@[alias.0 as int]->TypeAlias_0;
        assert forall|other: ItemId|
            partial_mentions(
                hir,
                ScopeId::Item(alias),
                def.ty,
                hir.tys@.len(),
                other,
            ) implies s1.alias_table()[other] == s2.alias_table()[other] by {
            assert(alias_refers(hir, alias, other));
            assert(s1.has_alias(other));
            assert(s2.has_alias(other));
            assert(within(hir, stack.push(alias), other));
            lemma_aliases_agree_in(hir, s1, s2, other, stack.push(alias));
        }
        lemma_lower_partial_frame(
            hir,
            s1.alias_table(),
            s2.alias_table(),
            ScopeId::Item(alias),
            def.ty,
            hir.tys@.len(),
        );
    }
}

/// Lowering depends on the program alone: two sessions of the same
/// program that have both resolved the aliases that a descriptor names
/// give the descriptor the same type.
pub proof fn lemma_lowering_agrees(hir: &Hir, s1: &Session, s2: &Session, scope: ScopeId, ty: HirTyId)
    requires
        s1.wf(hir),
        s2.wf(hir),
        forall|alias: ItemId|
            ty_mentions(hir, scope, ty, alias) ==> s1.has_alias(alias) && s2.has_alias(alias),
    ensures
        lower_ty(hir, s1.alias_table(), scope, ty) == lower_ty(hir, s2.alias_table(), scope, ty),
{
    assert forall|alias: ItemId| ty_mentions(hir, scope, ty, alias) implies s1.alias_table()[alias]
        == s2.alias_table()[alias] by {
        lemma_resolved_aliases_agree(hir, s1, s2, alias);
    }
    lemma_lower_ty_frame(hir, s1.alias_table(), s2.alias_table(), scope, ty);
}

/// Lowering the same descriptor again, later in the session, gives the
/// handle that it gave before.
pub proof fn lemma_lowering_is_stable(
    hir: &Hir,
    s1: &Session,
    s2: &Session,
    scope: ScopeId,
    ty: HirTyId,
    r1: TyId,
    r2: TyId,
)
    requires
        s1.wf(hir),
        s2.wf(hir),
        s2.extends(s1),
        lowered_ty(hir, s1, scope, ty, r1),
        lowered_ty(hir, s2, scope, ty, r2),
    ensures
        r1 == r2,
{
    lemma_table_kept(hir, s1, s2);
    lemma_lowering_agrees(hir, s1, s2, scope, ty);
    lemma_same_type_same_handle(&s1.types, &s2.types, r1, r2);
}

/// The type at the head of a chain of applications.
pub open spec fn spine_head(ty: Ty) -> Ty
    decreases ty,
{
    match ty {
        Ty::App(base, _) => spine_head(*base),
        _ => ty,
    }
}

/// The arguments of a chain of applications, first to last.
pub open spec fn spine_args(ty: Ty) -> Seq<Ty>
    decreases ty,
{
    match ty {
        Ty::App(base, arg) => spine_args(*base).push(*arg),
        _ => Seq::empty(),
    }
}

/// Whether none of the types is invalid.
pub open spec fn none_invalid(tys: Seq<Ty>) -> bool {
    forall|i: int| 0 <= i < tys.len() ==> !(#[trigger] tys[i] is Invalid)
}

proof fn lemma_app_all_spine(base: Ty, args: Seq<Ty>)
    requires
        !(base is App),
        !(base is Invalid),
        none_invalid(args),
    ensures
        !(app_all(base, args) is Invalid),
        spine_head(app_all(base, args)) == base,
        spine_args(app_all(base, args)) == args,
    decreases args.len(),
{
    if args.len() > 0 {
        assert forall|i: int| 0 <= i < args.drop_last().len() implies !(
        #[trigger] args.drop_last()[i] is Invalid) by {
            assert(args.drop_last()[i] == args[i]);
        }
        lemma_app_all_spine(base, args.drop_last());
        assert(!(args.last() is Invalid));
        assert(args.drop_last().push(args.last()) =~= args);
    } else {
        assert(spine_args(base) =~= args);
    }
}

proof fn lemma_app_all_invalid(cause: InvalidCause, args: Seq<Ty>)
    ensures
        app_all(Ty::Invalid(cause), args) == Ty::Invalid(cause),
    decreases args.len(),
{
    if args.len() > 0 {
        lemma_app_all_invalid(cause, args.drop_last());
    }
}

/// Tuples are all or nothing. A tuple with an element that is not fully
/// applied lowers to the invalid type of that cause. A tuple whose
/// elements are all fully applied, and none of them invalid, lowers to
/// the tuple constructor of its arity applied to the elements in order.
pub proof fn lemma_tuple_all_or_nothing(hir: &Hir, aliases: AliasTable, scope: ScopeId, ty: HirTyId)
    requires
        ty.0 < hir.tys@.len(),
        hir.tys@[ty.0 as int] is Tuple,
    ensures
        ({
            let elems = lower_tys(
                hir,
                aliases,
                scope,
                hir.tys@[ty.0 as int]->Tuple_0@,
                ty.0 as nat,
            );
            let lowered = lower_ty(hir, aliases, scope, ty);
            &&& elems.len() == hir.tys@[ty.0 as int]->Tuple_0@.len()
            &&& !all_mono(hir, elems) ==> lowered == Ty::Invalid(InvalidCause::NotFullyApplied)
            &&& all_mono(hir, elems) && none_invalid(elems) ==> !(lowered is Invalid) && spine_head(
                lowered,
            ) == tuple_ctor(elems.len() as usize) && spine_args(lowered) == elems
        }),
{
    let decl = hir.tys@[ty.0 as int]->Tuple_0@;
    let elems = lower_tys(hir, aliases, scope, decl, ty.0 as nat);
    lemma_lower_tys_index(hir, aliases, scope, decl, ty.0 as nat);
    if all_mono(hir, elems) && none_invalid(elems) {
        lemma_app_all_spine(tuple_ctor(elems.len() as usize), elems);
    }
}

/// Declaration order is kept. The definition of a struct or contract has
/// one variant, whose payload is the field types in the order of the
/// fields; the definition of an enum has one variant for each case, in
/// the order of the cases, each under the name of its case.
pub proof fn lemma_declaration_order(hir: &Hir, aliases: AliasTable, adt: AdtRef)
    requires
        adt.item_spec().0 < hir.items@.len(),
    ensures
        ({
            let def = adt_def_ty(hir, aliases, adt);
            let scope = ScopeId::Item(adt.item_spec());
            let n = hir.tys@.len();
            match hir.items@[adt.item_spec().0 as int] {
                Item::Struct(s) => def.variants.len() == 1 && def.variants[0].name == s.name
                    && def.variants[0].tys.len() == s.fields@.len() && forall|j: int|
                    0 <= j < s.fields@.len() ==> #[trigger] def.variants[0].tys[j] == lower_partial(
                        hir,
                        aliases,
                        scope,
                        s.fields@[j].ty,
                        n,
                    ),
                Item::Contract(c) => def.variants.len() == 1 && def.variants[0].name == c.name
                    && def.variants[0].tys.len() == c.fields@.len() && forall|j: int|
                    0 <= j < c.fields@.len() ==> #[trigger] def.variants[0].tys[j] == lower_partial(
                        hir,
                        aliases,
                        scope,
                        c.fields@[j].ty,
                        n,
                    ),
                Item::Enum(e) => def.variants.len() == e.variants@.len() && forall|i: int|
                    0 <= i < e.variants@.len() ==> #[trigger] def.variants[i] == enum_variant_ty(
                        hir,
                        aliases,
                        scope,
                        e.variants@[i],
                    ) && def.variants[i].name == e.variants@[i].name,
                _ => true,
            }
        }),
{
    let scope = ScopeId::Item(adt.item_spec());
    let n = hir.tys@.len();
    match hir.items@[adt.item_spec().0 as int] {
        Item::Struct(s) => {
            lemma_lower_tys_index(hir, aliases, scope, field_tys(s.fields@), n);
        },
        Item::Contract(c) => {
            lemma_lower_tys_index(hir, aliases, scope, field_tys(c.fields@), n);
        },
        _ => {},
    }
}

/// A conditional without an else branch has the unit type, whatever the
/// type of its then branch: checked against an expectation that the
/// unit type meets, it checks to the unit type.
pub proof fn lemma_if_without_else_is_unit(hir: &Hir, st: CheckState, expr: ExprId, expected: Ty)
    requires
        expr.0 < hir.exprs@.len(),
        crate::hir::expr_ok(hir.exprs@[expr.0 as int], expr.0 as int),
        hir.exprs@[expr.0 as int].data matches Partial::Present(crate::hir::Expr::If(_, _, None)),
        expected == Ty::Unit || expected == Ty::Bot,
    ensures
        check_expr_spec(hir, st, expr, expected).0 == Ty::Unit,
{
}

/// The implicit self type of the scope of a struct, enum or contract is
/// the algebraic type of that item itself: no alias, and not invalid.
pub proof fn lemma_self_type_is_own_adt(hir: &Hir, aliases: AliasTable, scope: ScopeId, ty: HirTyId)
    requires
        ty.0 < hir.tys@.len(),
        hir.tys@[ty.0 as int] is SelfType,
        scope.item_spec().0 < hir.items@.len(),
        hir.items@[scope.item_spec().0 as int].is_adt(),
    ensures
        lower_ty(hir, aliases, scope, ty) == match hir.items@[scope.item_spec().0 as int] {
            Item::Struct(_) => Ty::Adt(AdtRef::Struct(scope.item_spec())),
            Item::Enum(_) => Ty::Adt(AdtRef::Enum(scope.item_spec())),
            _ => Ty::Adt(AdtRef::Contract(scope.item_spec())),
        },
{
}

/// A path that names nothing among the types lowers to the invalid type
/// without a class of its own, whatever its generic arguments.
pub proof fn lemma_undeclared_is_invalid(hir: &Hir, aliases: AliasTable, scope: ScopeId, ty: HirTyId)
    requires
        ty.0 < hir.tys@.len(),
        hir.tys@[ty.0 as int] matches HirTyKind::Path(Partial::Present(p), _)
            && hir.resolve_spec(p, scope) matches EarlyResolvedPath::Full(bucket) && bucket.ty is Err,
    ensures
        lower_ty(hir, aliases, scope, ty) == Ty::Invalid(InvalidCause::Other),
{
    let args = hir.tys@[ty.0 as int]->Path_1;
    lemma_app_all_invalid(
        InvalidCause::Other,
        lower_tys(hir, aliases, scope, crate::model::arg_tys(args@), ty.0 as nat),
    );
}

/// A conditional without an else branch has the unit type before it is
/// held against what is expected of it, whatever the type of its then
/// branch and whatever is expected.
pub proof fn lemma_conditional_without_else_has_unit_type(
    hir: &Hir,
    st: CheckState,
    bound: nat,
    cond: ExprId,
    then: ExprId,
    expected: Ty,
)
    requires
        cond.0 < bound,
        then.0 < bound,
    ensures
        check_if_spec(hir, st, bound, cond, then, None, expected).0 == Ty::Unit,
{
}

/// Checking an expression in a scope of its own opens the scope first and
/// closes it last, and nothing else is done to the scopes in between but
/// what checking the expression does.
pub proof fn lemma_scope_is_entered_and_left(hir: &Hir, st: CheckState, expr: ExprId, expected: Ty)
    ensures
        ({
            let inner = check_expr_spec(hir, entered(st, expr), expr, expected);
            let outer = check_in_scope_spec(hir, st, expr, expected);
            &&& entered(st, expr).log == st.log.push(ScopeEvent::Enter(expr))
            &&& outer.0 == inner.0
            &&& outer.1.log == inner.1.log.push(ScopeEvent::Leave)
        }),
{
}

/// In a store, a type in which no parameter is replaced, and no variable,
/// is the type itself.
pub proof fn lemma_nothing_replaced(store: &TyStore, id: TyId, args: Seq<Ty>)
    requires
        store.wf(),
        store.contains(id),
    ensures
        subst_ty(store.view_of(id), Seq::empty(), args) == store.view_of(id),
        apply_ty(Map::empty(), store.view_of(id)) == store.view_of(id),
        store.view_of(id) is Invalid <==> store.nodes@[id.0 as int] is Invalid,
    decreases id.0,
{
    match store.nodes@[id.0 as int] {
        TyData::App(base, arg) => {
            lemma_nothing_replaced(store, base, args);
            lemma_nothing_replaced(store, arg, args);
        },
        _ => {},
    }
}

/// Scopes are balanced. Checking an expression, however deeply its
/// parts are nested, leaves open the scopes that were open before.
pub proof fn lemma_scopes_are_balanced(hir: &Hir, st: CheckState, expr: ExprId, expected: Ty)
    ensures
        check_expr_spec(hir, st, expr, expected).1.scopes == st.scopes,
    decreases expr.0 + 1, 0nat, 0nat,
{
    if expr.0 < hir.exprs@.len() {
        match hir.exprs@[expr.0 as int].data {
            Partial::Present(crate::hir::Expr::Block(stmts)) => {
                lemma_block_is_balanced(hir, st, stmts@, expr, expected);
            },
            Partial::Present(crate::hir::Expr::If(cond, then, els)) => {
                lemma_conditional_is_balanced(hir, st, expr.0 as nat, cond, then, els, expected);
            },
            _ => {},
        }
    }
}

proof fn lemma_stmts_are_balanced(hir: &Hir, st: CheckState, stmts: Seq<ExprId>, bound: nat)
    ensures
        check_stmts_spec(hir, st, stmts, bound).scopes == st.scopes,
    decreases bound, 0nat, stmts.len(),
{
    if stmts.len() > 0 {
        lemma_stmts_are_balanced(hir, st, stmts.drop_last(), bound);
        if stmts.last().0 < bound {
            lemma_scopes_are_balanced(
                hir,
                check_stmts_spec(hir, st, stmts.drop_last(), bound),
                stmts.last(),
                Ty::Bot,
            );
        }
    }
}

proof fn lemma_block_is_balanced(
    hir: &Hir,
    st: CheckState,
    stmts: Seq<ExprId>,
    expr: ExprId,
    expected: Ty,
)
    ensures
        check_block_spec(hir, st, stmts, expr, expected).1.scopes == st.scopes,
    decreases expr.0, 1nat, 0nat,
{
    if stmts.len() > 0 {
        lemma_stmts_are_balanced(hir, entered(st, expr), stmts.drop_last(), expr.0 as nat);
        let st1 = check_stmts_spec(hir, entered(st, expr), stmts.drop_last(), expr.0 as nat);
        if stmts.last().0 < expr.0 {
            lemma_scopes_are_balanced(hir, st1, stmts.last(), expected);
        }
        assert(st.scopes.push(expr).drop_last() =~= st.scopes);
    }
}

proof fn lemma_in_scope_is_balanced(hir: &Hir, st: CheckState, expr: ExprId, expected: Ty)
    ensures
        check_in_scope_spec(hir, st, expr, expected).1.scopes == st.scopes,
    decreases expr.0 + 1, 1nat, 0nat,
{
    lemma_scopes_are_balanced(hir, entered(st, expr), expr, expected);
    assert(st.scopes.push(expr).drop_last() =~= st.scopes);
}

proof fn lemma_conditional_is_balanced(
    hir: &Hir,
    st: CheckState,
    bound: nat,
    cond: ExprId,
    then: ExprId,
    els: Option<ExprId>,
    expected: Ty,
)
    ensures
        check_if_spec(hir, st, bound, cond, then, els, expected).1.scopes == st.scopes,
    decreases bound, 2nat, 0nat,
{
    if cond.0 < bound && then.0 < bound && (els matches Some(e) ==> e.0 < bound) {
        lemma_scopes_are_balanced(hir, st, cond, Ty::Prim(crate::hir::PrimTy::Bool));
        let st1 = check_expr_spec(hir, st, cond, Ty::Prim(crate::hir::PrimTy::Bool)).1;
        match els {
            Some(e) => {
                lemma_in_scope_is_balanced(hir, st1, then, expected);
                let st2 = check_in_scope_spec(hir, st1, then, expected).1;
                lemma_in_scope_is_balanced(hir, st2, e, expected);
            },
            None => {
                let var = st1.next_var;
                let st2 = CheckState { next_var: (var + 1) as usize, ..st1 };
                lemma_in_scope_is_balanced(hir, st2, then, Ty::Var(var));
            },
        }
    }
}

} // verus!
