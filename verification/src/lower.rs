//! Lowering: from syntax-level type descriptors to semantic types.

use std::rc::Rc;
use vstd::prelude::*;
use vstd::pervasive::unreached;
use vstd::set_lib::{lemma_int_range, lemma_len_subset, set_int_range};
use vstd::slice::slice_index_get;
use either::Either;
use crate::cycle::is_recursive_alias;
use crate::db::{
    alias_contained, alias_view, lemma_extends_trans, lemma_same_queries,
    lemma_same_queries_refl, lemma_same_queries_trans, lemma_table_kept, lemma_views_kept,
    lemma_wf_step, outcome_view, recursion_error, AliasAnalysis, Analysis, Session, TempContext,
    TyAlias, TypeError,
};
use crate::diagnostics::{diagnostic_views, Diagnostic, DiagnosticView};
use crate::hir::{
    arg_below, lemma_children_below, lemma_resolve_ok, resolved_ok, ty_below, EarlyResolvedPath,
    GenericArg, GenericParam, Hir, HirTyId, HirTyKind, Item, ItemId, NameDomain, NameResKind,
    Partial, PathId, ScopeId,
};
use crate::model;
use crate::model::{
    alias_is_recursive, alias_refers, alias_ty, all_mono, arg_tys, generic_param_ty,
    generic_param_tys, is_walk, lemma_lower_partial_frame, lemma_lower_tys_index,
    lemma_tys_mention_index, names_alias, partial_mentions, path_head, path_result,
    poisoned_alias, position_from, ptr_ty, resolved_ty, subst_ty, subst_with_ty, tuple_ty,
    ty_mentions, tys_mention, AliasTy,
};
use crate::ty::{
    app_all, is_mono, lemma_extends_keeps_trees, lemma_stored_once, tuple_ctor, AdtRef,
    InvalidCause, Kind, Ty, TyData, TyId, TyParam, TyStore,
};

verus! {

/// An independent copy of a list of handles.
pub fn copy_ids(ids: &Vec<TyId>) -> (copy: Vec<TyId>)
    ensures
        copy@ == ids@,
{
    let mut copy: Vec<TyId> = Vec::new();
    let mut i: usize = 0;
    while i < ids.len()
        invariant
            i <= ids@.len(),
            copy@ == ids@.subrange(0, i as int),
        decreases ids@.len() - i,
    {
        copy.push(ids[i]);
        proof {
            assert(copy@ =~= ids@.subrange(0, i + 1));
        }
        i += 1;
    }
    proof {
        assert(ids@.subrange(0, ids@.len() as int) =~= ids@);
    }
    copy
}

/// The first position at which `ty` stands in `params`.
fn position(types: &TyStore, params: &Vec<TyId>, ty: TyId) -> (at: Option<usize>)
    requires
        types.wf(),
        types.contains(ty),
        types.contains_all(params@),
    ensures
        match at {
            Some(i) => i < params@.len() && position_from(
                types.views_of(params@),
                types.view_of(ty),
                0,
            ) == i,
            None => position_from(types.views_of(params@), types.view_of(ty), 0) == -1,
        },
{
    let mut i: usize = 0;
    while i < params.len()
        invariant
            i <= params@.len(),
            types.wf(),
            types.contains(ty),
            types.contains_all(params@),
            position_from(types.views_of(params@), types.view_of(ty), 0) == position_from(
                types.views_of(params@),
                types.view_of(ty),
                i as int,
            ),
        decreases params@.len() - i,
    {
        if params[i] == ty {
            return Some(i);
        }
        proof {
            assert(types.contains(params@[i as int]));
            if types.view_of(params@[i as int]) == types.view_of(ty) {
                lemma_stored_once(types.nodes@, params@[i as int].0 as int, ty.0 as int);
            }
        }
        i += 1;
    }
    None
}

/// `ty` with the parameters `params` replaced by the arguments `args`.
fn subst(s: &mut Session, Ghost(hir): Ghost<&Hir>, ty: TyId, params: &Vec<TyId>, args: &[TyId]) -> (r:
    TyId)
    requires
        old(s).wf(hir),
        old(s).types.contains(ty),
        old(s).types.contains_all(params@),
        old(s).types.contains_all(args@),
    ensures
        final(s).wf(hir),
        final(s).same_queries(old(s)),
        final(s).types.contains(r),
        final(s).types.view_of(r) == subst_ty(
            old(s).types.view_of(ty),
            old(s).types.views_of(params@),
            old(s).types.views_of(args@),
        ),
    decreases ty.0,
{
    proof {
        lemma_same_queries_refl(s);
    }
    match s.types.data(ty) {
        TyData::TyParam(_) => {
            match position(&s.types, params, ty) {
                Some(i) => {
                    if i < args.len() {
                        let arg = *slice_index_get(args, i);
                        proof {
                            assert(s.types.contains(args@[i as int]));
                        }
                        arg
                    } else {
                        ty
                    }
                },
                None => ty,
            }
        },
        TyData::App(base, arg) => {
            let ghost s0 = *s;
            let new_base = subst(s, Ghost(hir), base, params, args);
            let ghost s1 = *s;
            proof {
                lemma_extends_keeps_trees(&s0.types, &s1.types);
                lemma_views_kept(&s0.types, &s1.types, params@);
                lemma_views_kept(&s0.types, &s1.types, args@);
            }
            let new_arg = subst(s, Ghost(hir), arg, params, args);
            let ghost s2 = *s;
            proof {
                lemma_extends_keeps_trees(&s1.types, &s2.types);
            }
            let r = s.app(Ghost(hir), new_base, new_arg);
            proof {
                lemma_same_queries_trans(&s0, &s1, &s2);
                lemma_same_queries_trans(&s0, &s2, s);
            }
            r
        },
        _ => ty,
    }
}

impl TyAlias {
    /// The type that the alias stands for when `substs` take the place of
    /// its parameters. With fewer arguments than parameters the result is
    /// not fully applied; arguments beyond the parameters are applied to
    /// the result.
    pub fn subst_with(&self, hir: &Hir, s: &mut Session, substs: &[TyId]) -> (r: TyId)
        requires
            old(s).wf(hir),
            alias_contained(&old(s).types, self),
            old(s).types.contains_all(substs@),
            is_mono(hir, old(s).types.view_of(self.alias_to)),
        ensures
            final(s).wf(hir),
            final(s).same_queries(old(s)),
            final(s).types.contains(r),
            final(s).types.view_of(r) == subst_with_ty(
                alias_view(&old(s).types, self),
                old(s).types.views_of(substs@),
            ),
    {
        if substs.len() < self.params.len() {
            return s.invalid(Ghost(hir), InvalidCause::NotFullyApplied);
        }
        let ghost s0 = *s;
        let ghost args = s0.types.views_of(substs@);
        let n = self.params.len();
        let mut acc = subst(s, Ghost(hir), self.alias_to, &self.params, substs);
        let mut i: usize = n;
        proof {
            assert(args.subrange(n as int, n as int) =~= Seq::<crate::ty::Ty>::empty());
        }
        while i < substs.len()
            invariant
                n <= i <= substs@.len(),
                s0.wf(hir),
                s.wf(hir),
                s.same_queries(&s0),
                s.types.contains(acc),
                s0.types.contains_all(substs@),
                args == s0.types.views_of(substs@),
                s.types.view_of(acc) == app_all(
                    subst_ty(
                        s0.types.view_of(self.alias_to),
                        s0.types.views_of(self.params@),
                        args,
                    ),
                    args.subrange(n as int, i as int),
                ),
            decreases substs@.len() - i,
        {
            let ghost s1 = *s;
            let arg = *slice_index_get(substs, i);
            proof {
                assert(s0.types.contains(substs@[i as int]));
                lemma_extends_keeps_trees(&s0.types, &s1.types);
                assert(args.subrange(n as int, i + 1).drop_last() =~= args.subrange(
                    n as int,
                    i as int,
                ));
            }
            acc = s.app(Ghost(hir), acc, arg);
            proof {
                lemma_same_queries_trans(&s0, &s1, s);
            }
            i += 1;
        }
        acc
    }
}

/// The generic parameter of `item` at position `idx` as a type: a type
/// parameter where it has a name, invalid where it has none.
pub fn lower_generic_param(hir: &Hir, s: &mut Session, item: ItemId, idx: usize) -> (r: TyId)
    requires
        old(s).wf(hir),
        item.0 < hir.items@.len(),
        idx < hir.items@[item.0 as int].generic_params_spec().len(),
    ensures
        final(s).wf(hir),
        final(s).same_queries(old(s)),
        final(s).types.contains(r),
        final(s).types.view_of(r) == generic_param_ty(hir, item, idx),
{
    let param = match &hir.items[item.0] {
        Item::Struct(def) => def.generic_params[idx],
        Item::Enum(def) => def.generic_params[idx],
        Item::TypeAlias(def) => def.generic_params[idx],
        _ => GenericParam::Const,
    };
    match param {
        GenericParam::Type(Partial::Present(name)) => {
            s.ty_param(Ghost(hir), TyParam { name, idx, kind: Kind::Star })
        },
        _ => s.invalid(Ghost(hir), InvalidCause::Other),
    }
}

/// What a `Left` holds.
pub open spec fn left_value<L, R>(e: Either<L, R>) -> L {
    match e {
        Either::Left(value) => value,
        Either::Right(_) => arbitrary(),
    }
}

/// `Either::unwrap_left` of the crate `either`: hands out the value of a
/// `Left`, and panics on a `Right`, which the `requires` leaves out.
pub assume_specification<L, R>[ Either::<L, R>::unwrap_left ](e: Either<L, R>) -> (left: L)
    where
        R: core::fmt::Debug,
    requires
        e is Left,
    ensures
        left == left_value(e),
;

/// The aliases whose definitions are being lowered, outermost first: none
/// of them leads back to itself, and each names the next in its definition.
pub open spec fn chain_ok(hir: &Hir, stack: Seq<ItemId>) -> bool {
    &&& forall|i: int|
        0 <= i < stack.len() ==> (#[trigger] stack[i]).0 < hir.items@.len() && !alias_is_recursive(
            hir,
            stack[i],
        )
    &&& forall|i: int|
        0 <= i < stack.len() - 1 ==> alias_refers(hir, #[trigger] stack[i], stack[i + 1])
}

/// Whether the innermost definition being lowered, if there is one, names `alias`.
pub open spec fn within(hir: &Hir, stack: Seq<ItemId>, alias: ItemId) -> bool {
    stack.len() > 0 ==> alias_refers(hir, stack.last(), alias)
}

pub open spec fn within_ty(hir: &Hir, stack: Seq<ItemId>, scope: ScopeId, ty: HirTyId) -> bool {
    forall|a: ItemId| ty_mentions(hir, scope, ty, a) ==> within(hir, stack, a)
}

pub open spec fn within_partial(
    hir: &Hir,
    stack: Seq<ItemId>,
    scope: ScopeId,
    ty: Partial<HirTyId>,
    bound: nat,
) -> bool {
    forall|a: ItemId| partial_mentions(hir, scope, ty, bound, a) ==> within(hir, stack, a)
}

pub open spec fn within_tys(
    hir: &Hir,
    stack: Seq<ItemId>,
    scope: ScopeId,
    tys: Seq<Partial<HirTyId>>,
    bound: nat,
) -> bool {
    forall|a: ItemId| tys_mention(hir, scope, tys, bound, a) ==> within(hir, stack, a)
}

/// Whether the path of a descriptor names the alias.
pub open spec fn path_mentions(hir: &Hir, scope: ScopeId, path: Partial<PathId>, a: ItemId) -> bool {
    path matches Partial::Present(p) && names_alias(hir, hir.resolve_spec(p, scope), a)
}

/// Whether every alias that the descriptor names has been resolved.
pub open spec fn ty_resolved(hir: &Hir, s: &Session, scope: ScopeId, ty: HirTyId) -> bool {
    forall|a: ItemId| ty_mentions(hir, scope, ty, a) ==> s.has_alias(a)
}

/// The same for a descriptor that may be absent.
pub open spec fn partial_resolved(
    hir: &Hir,
    s: &Session,
    scope: ScopeId,
    ty: Partial<HirTyId>,
    bound: nat,
) -> bool {
    forall|a: ItemId| partial_mentions(hir, scope, ty, bound, a) ==> s.has_alias(a)
}

/// The same for a list of descriptors.
pub open spec fn tys_resolved(
    hir: &Hir,
    s: &Session,
    scope: ScopeId,
    tys: Seq<Partial<HirTyId>>,
    bound: nat,
) -> bool {
    forall|a: ItemId| tys_mention(hir, scope, tys, bound, a) ==> s.has_alias(a)
}

/// Whether the alias that a resolved path names, if it names one, has been resolved.
pub open spec fn names_resolved(hir: &Hir, s: &Session, res: EarlyResolvedPath) -> bool {
    forall|a: ItemId| names_alias(hir, res, a) ==> s.has_alias(a)
}

/// Whether every alias that a path or its generic arguments name has been resolved.
pub open spec fn path_resolved(
    hir: &Hir,
    s: &Session,
    scope: ScopeId,
    path: Partial<PathId>,
    args: Seq<GenericArg>,
    bound: nat,
) -> bool {
    forall|a: ItemId|
        path_mentions(hir, scope, path, a) || tys_mention(hir, scope, arg_tys(args), bound, a)
            ==> s.has_alias(a)
}

/// `r` is the descriptor `ty` lowered, and every alias that `ty` names is resolved.
pub open spec fn lowered_ty(hir: &Hir, s: &Session, scope: ScopeId, ty: HirTyId, r: TyId) -> bool {
    &&& s.types.contains(r)
    &&& s.types.view_of(r) == model::lower_ty(hir, s.alias_table(), scope, ty)
    &&& forall|a: ItemId| ty_mentions(hir, scope, ty, a) ==> s.has_alias(a)
}

/// The same for a descriptor that may be absent.
pub open spec fn lowered_partial(
    hir: &Hir,
    s: &Session,
    scope: ScopeId,
    ty: Partial<HirTyId>,
    bound: nat,
    r: TyId,
) -> bool {
    &&& s.types.contains(r)
    &&& s.types.view_of(r) == model::lower_partial(hir, s.alias_table(), scope, ty, bound)
    &&& forall|a: ItemId| partial_mentions(hir, scope, ty, bound, a) ==> s.has_alias(a)
}

/// The same for a list of descriptors, position by position.
pub open spec fn lowered_all(
    hir: &Hir,
    s: &Session,
    scope: ScopeId,
    tys: Seq<Partial<HirTyId>>,
    bound: nat,
    out: Seq<TyId>,
) -> bool {
    &&& out.len() == tys.len()
    &&& forall|j: int|
        0 <= j < tys.len() ==> lowered_partial(hir, s, scope, tys[j], bound, #[trigger] out[j])
}

/// `head` is what the model expects, in the handles of the session.
pub open spec fn head_ok(s: &Session, expected: Either<Ty, AliasTy>, head: Either<TyId, TyAlias>) -> bool {
    match head {
        Either::Left(t) => s.types.contains(t) && expected == Either::<Ty, AliasTy>::Left(
            s.types.view_of(t),
        ),
        Either::Right(a) => alias_contained(&s.types, &a) && expected == Either::<
            Ty,
            AliasTy,
        >::Right(alias_view(&s.types, &a)),
    }
}

/// `head` is the resolved path as a type, and the alias that the path
/// names, if it names one, is resolved.
pub open spec fn resolved_post(
    hir: &Hir,
    s: &Session,
    res: EarlyResolvedPath,
    head: Either<TyId, TyAlias>,
) -> bool {
    &&& head_ok(s, resolved_ty(hir, s.alias_table(), res), head)
    &&& forall|a: ItemId| names_alias(hir, res, a) ==> s.has_alias(a)
}

pub proof fn lemma_lowered_kept(
    hir: &Hir,
    s1: &Session,
    s2: &Session,
    scope: ScopeId,
    ty: Partial<HirTyId>,
    bound: nat,
    r: TyId,
)
    requires
        s1.wf(hir),
        s2.extends(s1),
        lowered_partial(hir, s1, scope, ty, bound, r),
    ensures
        lowered_partial(hir, s2, scope, ty, bound, r),
{
    lemma_table_kept(hir, s1, s2);
    lemma_extends_keeps_trees(&s1.types, &s2.types);
    assert forall|a: ItemId| partial_mentions(hir, scope, ty, bound, a) implies s1.alias_table()[a]
        == s2.alias_table()[a] && s2.has_alias(a) by {
        assert(s1.has_alias(a));
    }
    lemma_lower_partial_frame(hir, s1.alias_table(), s2.alias_table(), scope, ty, bound);
}

pub proof fn lemma_lowered_all_kept(
    hir: &Hir,
    s1: &Session,
    s2: &Session,
    scope: ScopeId,
    tys: Seq<Partial<HirTyId>>,
    bound: nat,
    out: Seq<TyId>,
)
    requires
        s1.wf(hir),
        s2.extends(s1),
        lowered_all(hir, s1, scope, tys, bound, out),
    ensures
        lowered_all(hir, s2, scope, tys, bound, out),
{
    assert forall|j: int| 0 <= j < tys.len() implies lowered_partial(
        hir,
        s2,
        scope,
        tys[j],
        bound,
        #[trigger] out[j],
    ) by {
        lemma_lowered_kept(hir, s1, s2, scope, tys[j], bound, out[j]);
    }
}

pub proof fn lemma_lowered_all_views(
    hir: &Hir,
    s: &Session,
    scope: ScopeId,
    tys: Seq<Partial<HirTyId>>,
    bound: nat,
    out: Seq<TyId>,
)
    requires
        lowered_all(hir, s, scope, tys, bound, out),
    ensures
        s.types.contains_all(out),
        s.types.views_of(out) == model::lower_tys(hir, s.alias_table(), scope, tys, bound),
        forall|a: ItemId| tys_mention(hir, scope, tys, bound, a) ==> s.has_alias(a),
{
    lemma_lower_tys_index(hir, s.alias_table(), scope, tys, bound);
    assert(s.types.views_of(out) =~= model::lower_tys(hir, s.alias_table(), scope, tys, bound));
    assert forall|a: ItemId| tys_mention(hir, scope, tys, bound, a) implies s.has_alias(a) by {
        lemma_tys_mention_index(hir, scope, tys, bound, a);
        let j = choose|j: int|
            0 <= j < tys.len() && partial_mentions(hir, scope, #[trigger] tys[j], bound, a);
        assert(lowered_partial(hir, s, scope, tys[j], bound, out[j]));
    }
}

proof fn lemma_within_index(
    hir: &Hir,
    stack: Seq<ItemId>,
    scope: ScopeId,
    tys: Seq<Partial<HirTyId>>,
    bound: nat,
    j: int,
)
    requires
        within_tys(hir, stack, scope, tys, bound),
        0 <= j < tys.len(),
    ensures
        within_partial(hir, stack, scope, tys[j], bound),
{
    assert forall|a: ItemId| partial_mentions(hir, scope, tys[j], bound, a) implies within(
        hir,
        stack,
        a,
    ) by {
        lemma_tys_mention_index(hir, scope, tys, bound, a);
    }
}

proof fn lemma_resolved_kept(
    hir: &Hir,
    s1: &Session,
    s2: &Session,
    res: EarlyResolvedPath,
    head: Either<TyId, TyAlias>,
)
    requires
        s1.wf(hir),
        s2.extends(s1),
        resolved_post(hir, s1, res, head),
    ensures
        resolved_post(hir, s2, res, head),
{
    lemma_table_kept(hir, s1, s2);
    lemma_extends_keeps_trees(&s1.types, &s2.types);
    match head {
        Either::Left(t) => {},
        Either::Right(a) => {
            lemma_views_kept(&s1.types, &s2.types, a.params@);
            let alias = res->Full_0.ty->Ok_0.kind->Scope_0->Item_0;
            assert(names_alias(hir, res, alias));
            assert(s1.has_alias(alias));
        },
    }
    assert forall|a: ItemId| names_alias(hir, res, a) implies s2.has_alias(a) by {
        assert(s1.has_alias(a));
    }
}

/// A definition that leads to none of the aliases being lowered extends the chain.
pub proof fn lemma_chain_push(hir: &Hir, stack: Seq<ItemId>, alias: ItemId)
    requires
        chain_ok(hir, stack),
        within(hir, stack, alias),
        alias.0 < hir.items@.len(),
        !alias_is_recursive(hir, alias),
    ensures
        chain_ok(hir, stack.push(alias)),
{
    let longer = stack.push(alias);
    assert forall|i: int| 0 <= i < longer.len() - 1 implies alias_refers(
        hir,
        #[trigger] longer[i],
        longer[i + 1],
    ) by {
        if i < stack.len() - 1 {
            assert(alias_refers(hir, stack[i], stack[i + 1]));
        }
    }
}

/// The chain of definitions being lowered is no longer than the program has items.
pub proof fn lemma_chain_bounded(hir: &Hir, stack: Seq<ItemId>)
    requires
        chain_ok(hir, stack),
    ensures
        stack.len() <= hir.items@.len(),
{
    let n = hir.items@.len() as int;
    let ints = Seq::new(stack.len(), |i: int| stack[i].0 as int);
    assert forall|i: int, j: int|
        0 <= i < ints.len() && 0 <= j < ints.len() && i != j implies ints[i] != ints[j] by {
        if ints[i] == ints[j] {
            let lo = if i < j {
                i
            } else {
                j
            };
            let hi = if i < j {
                j
            } else {
                i
            };
            assert(stack[lo] == stack[hi]);
            let walk = stack.subrange(lo, hi + 1);
            assert forall|k: int| 0 <= k < walk.len() - 1 implies alias_refers(
                hir,
                #[trigger] walk[k],
                walk[k + 1],
            ) by {
                assert(alias_refers(hir, stack[lo + k], stack[lo + k + 1]));
            }
            assert(is_walk(hir, walk));
            assert(walk.first() == stack[lo] && walk.last() == stack[lo]);
            assert(alias_is_recursive(hir, stack[lo]));
        }
    }
    assert(ints.no_duplicates());
    ints.unique_seq_to_set();
    lemma_int_range(0, n);
    assert(ints.to_set().subset_of(set_int_range(0, n))) by {
        assert forall|x: int| ints.to_set().contains(x) implies set_int_range(0, n).contains(x) by {
            assert(ints.contains(x));
            let k = choose|k: int| 0 <= k < ints.len() && ints[k] == x;
            assert(stack[k].0 < n);
        }
    }
    lemma_len_subset(ints.to_set(), set_int_range(0, n));
}

/// `base` applied to each of `args` in turn.
pub fn apply_all(hir: &Hir, s: &mut Session, base: TyId, args: &Vec<TyId>) -> (r: TyId)
    requires
        old(s).wf(hir),
        old(s).types.contains(base),
        old(s).types.contains_all(args@),
    ensures
        final(s).wf(hir),
        final(s).same_queries(old(s)),
        final(s).types.contains(r),
        final(s).types.view_of(r) == app_all(
            old(s).types.view_of(base),
            old(s).types.views_of(args@),
        ),
{
    let ghost s0 = *s;
    let ghost views = s0.types.views_of(args@);
    let mut acc = base;
    let mut i: usize = 0;
    proof {
        lemma_same_queries_refl(s);
        assert(views.subrange(0, 0) =~= Seq::<Ty>::empty());
    }
    while i < args.len()
        invariant
            i <= args@.len(),
            s0.wf(hir),
            s.wf(hir),
            s.same_queries(&s0),
            s.types.contains(acc),
            s0.types.contains_all(args@),
            views == s0.types.views_of(args@),
            s.types.view_of(acc) == app_all(s0.types.view_of(base), views.subrange(0, i as int)),
        decreases args@.len() - i,
    {
        let ghost s1 = *s;
        proof {
            assert(s0.types.contains(args@[i as int]));
            lemma_extends_keeps_trees(&s0.types, &s1.types);
            assert(views.subrange(0, i + 1).drop_last() =~= views.subrange(0, i as int));
        }
        acc = s.app(Ghost(hir), acc, args[i]);
        proof {
            lemma_same_queries_trans(&s0, &s1, s);
        }
        i += 1;
    }
    proof {
        assert(views.subrange(0, views.len() as int) =~= views);
    }
    acc
}

/// The tuple of the given element types. One element that still waits
/// for arguments makes the whole tuple invalid.
pub fn make_tuple(hir: &Hir, s: &mut Session, elems: &Vec<TyId>) -> (r: TyId)
    requires
        old(s).wf(hir),
        old(s).types.contains_all(elems@),
    ensures
        final(s).wf(hir),
        final(s).same_queries(old(s)),
        final(s).types.contains(r),
        final(s).types.view_of(r) == tuple_ty(hir, old(s).types.views_of(elems@)),
{
    let ghost s0 = *s;
    let ghost views = s0.types.views_of(elems@);
    let n = elems.len();
    let mut acc = s.tuple(Ghost(hir), n);
    let mut i: usize = 0;
    proof {
        assert(views.subrange(0, 0) =~= Seq::<Ty>::empty());
    }
    while i < elems.len()
        invariant
            i <= elems@.len(),
            n == elems@.len(),
            s0.wf(hir),
            s.wf(hir),
            s.same_queries(&s0),
            s.types.contains(acc),
            s0.types.contains_all(elems@),
            views == s0.types.views_of(elems@),
            s.types.view_of(acc) == if all_mono(hir, views.subrange(0, i as int)) {
                app_all(tuple_ctor(n), views.subrange(0, i as int))
            } else {
                Ty::Invalid(InvalidCause::NotFullyApplied)
            },
        decreases elems@.len() - i,
    {
        let ghost s1 = *s;
        let ghost before = views.subrange(0, i as int);
        let ghost after = views.subrange(0, i + 1);
        proof {
            assert(s0.types.contains(elems@[i as int]));
            lemma_extends_keeps_trees(&s0.types, &s1.types);
            assert(after.drop_last() =~= before);
            assert(after.last() == views[i as int]);
            if all_mono(hir, after) {
                assert forall|j: int| 0 <= j < before.len() implies is_mono(
                    hir,
                    #[trigger] before[j],
                ) by {
                    assert(before[j] == after[j]);
                }
            }
            if all_mono(hir, before) && is_mono(hir, views[i as int]) {
                assert forall|j: int| 0 <= j < after.len() implies is_mono(
                    hir,
                    #[trigger] after[j],
                ) by {
                    if j < i {
                        assert(before[j] == after[j]);
                    }
                }
            }
            if !is_mono(hir, views[i as int]) {
                assert(!is_mono(hir, after[i as int]));
            }
        }
        if !s.types.is_mono_type(hir, elems[i]) {
            acc = s.invalid(Ghost(hir), InvalidCause::NotFullyApplied);
        } else {
            acc = s.app(Ghost(hir), acc, elems[i]);
        }
        proof {
            lemma_same_queries_trans(&s0, &s1, s);
        }
        i += 1;
    }
    proof {
        assert(views.subrange(0, views.len() as int) =~= views);
    }
    acc
}

/// An independent copy of the outcome of resolving an alias.
fn copy_outcome(entry: &AliasAnalysis) -> (copy: AliasAnalysis)
    ensures
        entry.value is Err <==> copy.value is Err,
        entry.value matches Ok(a) ==> copy.value matches Ok(b) && b.alias_to == a.alias_to
            && b.params@ == a.params@,
        diagnostic_views(copy.diagnostics@) == diagnostic_views(entry.diagnostics@),
{
    let value = match &entry.value {
        Ok(alias) => Ok(TyAlias { alias_to: alias.alias_to, params: copy_ids(&alias.params) }),
        Err(e) => Err(*e),
    };
    let source: &Vec<Diagnostic> = &entry.diagnostics;
    let mut diagnostics: Vec<Diagnostic> = Vec::new();
    let mut i: usize = 0;
    while i < source.len()
        invariant
            i <= source@.len(),
            diagnostics@.len() == i,
            forall|j: int| 0 <= j < i ==> (#[trigger] diagnostics@[j])@ == source@[j]@,
        decreases source@.len() - i,
    {
        diagnostics.push(source[i].duplicate());
        i += 1;
    }
    proof {
        assert(diagnostic_views(diagnostics@) =~= diagnostic_views(source@));
    }
    Analysis { value, diagnostics: Rc::new(diagnostics) }
}

/// What resolving an alias gives whose definition leads back to itself:
/// an error, with the one diagnostic that says so at the alias's own
/// declaration.
pub fn type_alias_type_cycle(hir: &Hir, _cycle: &[String], alias: &ItemId) -> (r: AliasAnalysis)
    requires
        alias.0 < hir.items@.len(),
        hir.items@[alias.0 as int] is TypeAlias,
    ensures
        r.value is Err,
        diagnostic_views(r.diagnostics@) == seq![
            recursion_error(hir.items@[alias.0 as int]->TypeAlias_0.span),
        ],
{
    let mut context = TempContext::new();
    let span = match &hir.items[alias.0] {
        Item::TypeAlias(def) => def.span,
        _ => unreached(),
    };
    proof {
        assert(diagnostic_views(context.diagnostics@) =~= Seq::<DiagnosticView>::empty());
    }
    let err = Err(TypeError::new(context.error("recursive type definition", span, "")));
    proof {
        assert(diagnostic_views(context.diagnostics@) =~= seq![recursion_error(span)]);
    }
    Analysis { value: err, diagnostics: Rc::new(context.diagnostics) }
}

/// Lowers the definition of an alias in the alias's own scope.
pub(crate) fn type_alias_type_in(
    hir: &Hir,
    s: &mut Session,
    alias: ItemId,
    Ghost(stack): Ghost<Seq<ItemId>>,
) -> (r: AliasAnalysis)
    requires
        old(s).wf(hir),
        alias.0 < hir.items@.len(),
        hir.items@[alias.0 as int] is TypeAlias,
        chain_ok(hir, stack),
        stack.len() > 0 ==> stack.last() == alias,
    ensures
        final(s).wf(hir),
        final(s).extends(old(s)),
        r.value matches Ok(lowered) && alias_contained(&final(s).types, &lowered) && alias_view(
            &final(s).types,
            &lowered,
        ) == alias_ty(hir, final(s).alias_table(), alias),
        r.diagnostics@.len() == 0,
        forall|other: ItemId| alias_refers(hir, alias, other) ==> final(s).has_alias(other),
        (forall|other: ItemId| alias_refers(hir, alias, other) ==> old(s).has_alias(other))
            ==> final(s).same_queries(old(s)),
    decreases hir.items@.len() - stack.len(), hir.tys@.len() + 1, 0nat,
{
    let builder = TyBuilder::new(ScopeId::Item(alias));
    let n_tys = hir.tys.len();
    match &hir.items[alias.0] {
        Item::TypeAlias(def) => {
            proof {
                assert(crate::hir::item_ok(hir.items@[alias.0 as int], hir.tys@.len() as int));
            }
            let alias_to = builder.lower_partial(
                hir,
                s,
                def.ty,
                Ghost(n_tys as nat),
                Ghost(stack),
            );
            let ghost s1 = *s;
            let mut params: Vec<TyId> = Vec::new();
            let mut idx: usize = 0;
            proof {
                lemma_same_queries_refl(s);
            }
            while idx < def.generic_params.len()
                invariant
                    idx <= def.generic_params@.len(),
                    alias.0 < hir.items@.len(),
                    hir.items@[alias.0 as int] == Item::TypeAlias(*def),
                    s1.wf(hir),
                    s.wf(hir),
                    s.same_queries(&s1),
                    params@.len() == idx,
                    forall|j: int|
                        0 <= j < idx ==> s.types.contains(#[trigger] params@[j]) && s.types.view_of(
                            params@[j],
                        ) == generic_param_ty(hir, alias, j as usize),
                decreases def.generic_params@.len() - idx,
            {
                let ghost s2 = *s;
                let param = lower_generic_param(hir, s, alias, idx);
                proof {
                    lemma_same_queries_trans(&s1, &s2, s);
                    lemma_extends_keeps_trees(&s2.types, &s.types);
                }
                params.push(param);
                idx += 1;
            }
            proof {
                lemma_same_queries(hir, &s1, s);
                lemma_extends_trans(old(s), &s1, s);
                lemma_lowered_kept(
                    hir,
                    &s1,
                    s,
                    ScopeId::Item(alias),
                    def.ty,
                    n_tys as nat,
                    alias_to,
                );
                assert(s.types.views_of(params@) =~= generic_param_tys(hir, alias));
                if forall|other: ItemId| alias_refers(hir, alias, other) ==> old(s).has_alias(other) {
                    assert(partial_resolved(
                        hir,
                        old(s),
                        ScopeId::Item(alias),
                        def.ty,
                        n_tys as nat,
                    )) by {
                        assert forall|a: ItemId|
                            partial_mentions(
                                hir,
                                ScopeId::Item(alias),
                                def.ty,
                                n_tys as nat,
                                a,
                            ) implies old(s).has_alias(a) by {
                            assert(alias_refers(hir, alias, a));
                        }
                    }
                    lemma_same_queries_trans(old(s), &s1, s);
                }
            }
            Analysis { value: Ok(TyAlias { alias_to, params }), diagnostics: Rc::new(Vec::new()) }
        },
        _ => unreached(),
    }
}

/// Resolves an alias: what is kept for it where it has been resolved
/// before; else the error of a definition that leads back to itself, or
/// the definition lowered. The outcome is kept.
pub(crate) fn resolve_alias_in(
    hir: &Hir,
    s: &mut Session,
    alias: ItemId,
    Ghost(stack): Ghost<Seq<ItemId>>,
) -> (r: AliasAnalysis)
    requires
        old(s).wf(hir),
        alias.0 < hir.items@.len(),
        hir.items@[alias.0 as int] is TypeAlias,
        chain_ok(hir, stack),
        within(hir, stack, alias),
    ensures
        final(s).wf(hir),
        final(s).extends(old(s)),
        final(s).has_alias(alias),
        r.value matches Ok(lowered) ==> alias_contained(&final(s).types, &lowered),
        outcome_view(&final(s).types, &r.value) == final(s).alias_table()[alias],
        r.value is Err <==> alias_is_recursive(hir, alias),
        r.value matches Ok(lowered) ==> alias_view(&final(s).types, &lowered) == alias_ty(
            hir,
            final(s).alias_table(),
            alias,
        ),
        diagnostic_views(r.diagnostics@) == if alias_is_recursive(hir, alias) {
            seq![recursion_error(hir.items@[alias.0 as int]->TypeAlias_0.span)]
        } else {
            Seq::<DiagnosticView>::empty()
        },
        old(s).has_alias(alias) ==> final(s).same_queries(old(s)),
    decreases hir.items@.len() - stack.len(), 0nat, 0nat,
{
    proof {
        lemma_same_queries_refl(s);
    }
    if s.aliases[alias.0].is_none() {
        let analysis = if is_recursive_alias(hir, alias) {
            let names: Vec<String> = Vec::new();
            type_alias_type_cycle(hir, names.as_slice(), &alias)
        } else {
            proof {
                lemma_chain_push(hir, stack, alias);
                lemma_chain_bounded(hir, stack.push(alias));
            }
            type_alias_type_in(hir, s, alias, Ghost(stack.push(alias)))
        };
        if s.aliases[alias.0].is_none() {
            let ghost s1 = *s;
            s.aliases.set(alias.0, Some(analysis));
            proof {
                assert(s.extends(&s1)) by {
                    assert(s.types.nodes@.subrange(0, s1.types.nodes@.len() as int)
                        =~= s1.types.nodes@);
                }
                lemma_table_kept(hir, &s1, s);
                if !alias_is_recursive(hir, alias) {
                    let def = hir.items@[alias.0 as int]->TypeAlias_0;
                    assert forall|other: ItemId|
                        partial_mentions(
                            hir,
                            ScopeId::Item(alias),
                            def.ty,
                            hir.tys@.len(),
                            other,
                        ) implies s1.alias_table()[other] == s.alias_table()[other] by {
                        assert(alias_refers(hir, alias, other));
                        assert(s1.has_alias(other));
                    }
                    lemma_lower_partial_frame(
                        hir,
                        s1.alias_table(),
                        s.alias_table(),
                        ScopeId::Item(alias),
                        def.ty,
                        hir.tys@.len(),
                    );
                    assert forall|other: ItemId| #[trigger]
                        alias_refers(hir, alias, other) implies s.has_alias(other) by {
                        assert(s1.has_alias(other));
                    }
                }
                assert(s.alias_entry_ok(hir, alias));
                assert forall|other: ItemId|
                    s.has_alias(other) && !s1.has_alias(other) implies #[trigger] s.alias_entry_ok(
                    hir,
                    other,
                ) by {
                    assert(other == alias);
                }
                assert forall|item: ItemId|
                    s.has_adt(item) && !s1.has_adt(item) implies #[trigger] s.adt_entry_ok(
                    hir,
                    item,
                ) by {}
                lemma_wf_step(hir, &s1, s);
                lemma_extends_trans(old(s), &s1, s);
            }
        }
    }
    proof {
        assert(s.has_alias(alias));
        assert(s.alias_entry_ok(hir, alias));
    }
    match &s.aliases[alias.0] {
        Some(entry) => {
            let copy = copy_outcome(entry);
            proof {
                if !alias_is_recursive(hir, alias) {
                    assert(diagnostic_views(entry.diagnostics@) =~= Seq::<DiagnosticView>::empty());
                    assert(s.types.views_of(copy.value->Ok_0.params@) =~= s.types.views_of(
                        entry.value->Ok_0.params@,
                    ));
                }
            }
            copy
        },
        None => unreached(),
    }
}

/// The alias as a lowered alias. One that could not be resolved stands
/// for an invalid type.
pub(crate) fn lower_type_alias_in(
    hir: &Hir,
    s: &mut Session,
    alias: ItemId,
    Ghost(stack): Ghost<Seq<ItemId>>,
) -> (r: TyAlias)
    requires
        old(s).wf(hir),
        alias.0 < hir.items@.len(),
        hir.items@[alias.0 as int] is TypeAlias,
        chain_ok(hir, stack),
        within(hir, stack, alias),
    ensures
        final(s).wf(hir),
        final(s).extends(old(s)),
        final(s).has_alias(alias),
        alias_contained(&final(s).types, &r),
        alias_view(&final(s).types, &r) == final(s).alias_table()[alias],
        old(s).has_alias(alias) ==> final(s).same_queries(old(s)),
    decreases hir.items@.len() - stack.len(), 0nat, 1nat,
{
    let analysis = resolve_alias_in(hir, s, alias, Ghost(stack));
    match analysis.value {
        Ok(lowered) => lowered,
        Err(_) => {
            let ghost s1 = *s;
            let invalid = s.invalid(Ghost(hir), InvalidCause::Other);
            let r = TyAlias { alias_to: invalid, params: Vec::new() };
            proof {
                lemma_extends_trans(old(s), &s1, s);
                assert(alias_view(&s.types, &r).params =~= poisoned_alias().params);
                if old(s).has_alias(alias) {
                    lemma_same_queries_trans(old(s), &s1, s);
                }
            }
            r
        },
    }
}

/// Lowers type descriptors that are read in one scope.
pub struct TyBuilder {
    pub scope: ScopeId,
}

impl TyBuilder {
    pub fn new(scope: ScopeId) -> (builder: Self)
        ensures
            builder.scope == scope,
    {
        TyBuilder { scope }
    }

    pub(crate) fn lower_ty(
        &self,
        hir: &Hir,
        s: &mut Session,
        ty: HirTyId,
        Ghost(stack): Ghost<Seq<ItemId>>,
    ) -> (r: TyId)
        requires
            old(s).wf(hir),
            ty.0 < hir.tys@.len(),
            chain_ok(hir, stack),
            within_ty(hir, stack, self.scope, ty),
        ensures
            final(s).wf(hir),
            final(s).extends(old(s)),
            lowered_ty(hir, final(s), self.scope, ty, r),
            ty_resolved(hir, old(s), self.scope, ty) ==> final(s).same_queries(old(s)),
        decreases hir.items@.len() - stack.len(), ty.0 + 1, 0nat,
    {
        proof {
            lemma_children_below(hir, ty);
            if ty_resolved(hir, old(s), self.scope, ty) {
                match hir.tys@[ty.0 as int] {
                    HirTyKind::Ptr(pointee) => {
                        assert(partial_resolved(hir, old(s), self.scope, pointee, ty.0 as nat)) by {
                            assert forall|a: ItemId|
                                partial_mentions(
                                    hir,
                                    self.scope,
                                    pointee,
                                    ty.0 as nat,
                                    a,
                                ) implies old(s).has_alias(a) by {
                                assert(ty_mentions(hir, self.scope, ty, a));
                            }
                        }
                    },
                    HirTyKind::Path(path, args) => {
                        assert(path_resolved(hir, old(s), self.scope, path, args@, ty.0 as nat)) by {
                            assert forall|a: ItemId|
                                path_mentions(hir, self.scope, path, a) || tys_mention(
                                    hir,
                                    self.scope,
                                    arg_tys(args@),
                                    ty.0 as nat,
                                    a,
                                ) implies old(s).has_alias(a) by {
                                assert(ty_mentions(hir, self.scope, ty, a));
                            }
                        }
                    },
                    HirTyKind::Tuple(elems) => {
                        assert(tys_resolved(hir, old(s), self.scope, elems@, ty.0 as nat)) by {
                            assert forall|a: ItemId|
                                tys_mention(
                                    hir,
                                    self.scope,
                                    elems@,
                                    ty.0 as nat,
                                    a,
                                ) implies old(s).has_alias(a) by {
                                assert(ty_mentions(hir, self.scope, ty, a));
                            }
                        }
                    },
                    _ => {},
                }
            }
        }
        match &hir.tys[ty.0] {
            HirTyKind::Ptr(pointee) => self.lower_ptr(
                hir,
                s,
                *pointee,
                Ghost(ty.0 as nat),
                Ghost(stack),
            ),
            HirTyKind::Path(path, args) => {
                proof {
                    assert forall|a: ItemId|
                        path_mentions(hir, self.scope, *path, a) || tys_mention(
                            hir,
                            self.scope,
                            arg_tys(args@),
                            ty.0 as nat,
                            a,
                        ) implies within(hir, stack, a) by {
                        assert(ty_mentions(hir, self.scope, ty, a));
                    }
                }
                self.lower_path(hir, s, *path, args, Ghost(ty.0 as nat), Ghost(stack))
            },
            HirTyKind::SelfType => self.lower_self_ty(hir, s, Ghost(stack)),
            HirTyKind::Tuple(elems) => self.lower_tuple(
                hir,
                s,
                elems,
                Ghost(ty.0 as nat),
                Ghost(stack),
            ),
            HirTyKind::Array(_) => unreached(),
        }
    }

    /// Lowers a descriptor that may be absent; an absent one is invalid.
    pub(crate) fn lower_partial(
        &self,
        hir: &Hir,
        s: &mut Session,
        ty: Partial<HirTyId>,
        Ghost(bound): Ghost<nat>,
        Ghost(stack): Ghost<Seq<ItemId>>,
    ) -> (r: TyId)
        requires
            old(s).wf(hir),
            ty_below(ty, bound as int),
            bound <= hir.tys@.len(),
            chain_ok(hir, stack),
            within_partial(hir, stack, self.scope, ty, bound),
        ensures
            final(s).wf(hir),
            final(s).extends(old(s)),
            lowered_partial(hir, final(s), self.scope, ty, bound, r),
            partial_resolved(hir, old(s), self.scope, ty, bound) ==> final(s).same_queries(old(s)),
        decreases hir.items@.len() - stack.len(), bound, 1nat,
    {
        proof {
            if partial_resolved(hir, old(s), self.scope, ty, bound) {
                match ty {
                    Partial::Present(t) => {
                        assert(ty_resolved(hir, old(s), self.scope, t)) by {
                            assert forall|a: ItemId|
                                ty_mentions(hir, self.scope, t, a) implies old(s).has_alias(a) by {
                                assert(partial_mentions(hir, self.scope, ty, bound, a));
                            }
                        }
                    },
                    Partial::Absent => {},
                }
            }
        }
        match ty.to_opt() {
            Some(t) => self.lower_ty(hir, s, t, Ghost(stack)),
            None => s.invalid(Ghost(hir), InvalidCause::Other),
        }
    }

    pub(crate) fn lower_path(
        &self,
        hir: &Hir,
        s: &mut Session,
        path: Partial<PathId>,
        args: &Vec<GenericArg>,
        Ghost(bound): Ghost<nat>,
        Ghost(stack): Ghost<Seq<ItemId>>,
    ) -> (r: TyId)
        requires
            old(s).wf(hir),
            bound <= hir.tys@.len(),
            forall|k: int| 0 <= k < args@.len() ==> arg_below(#[trigger] args@[k], bound as int),
            chain_ok(hir, stack),
            forall|a: ItemId|
                path_mentions(hir, self.scope, path, a) || tys_mention(
                    hir,
                    self.scope,
                    arg_tys(args@),
                    bound,
                    a,
                ) ==> within(hir, stack, a),
        ensures
            final(s).wf(hir),
            final(s).extends(old(s)),
            final(s).types.contains(r),
            final(s).types.view_of(r) == path_result(
                hir,
                path_head(hir, final(s).alias_table(), self.scope, path),
                model::lower_tys(hir, final(s).alias_table(), self.scope, arg_tys(args@), bound),
            ),
            forall|a: ItemId|
                path_mentions(hir, self.scope, path, a) || tys_mention(
                    hir,
                    self.scope,
                    arg_tys(args@),
                    bound,
                    a,
                ) ==> final(s).has_alias(a),
            path_resolved(hir, old(s), self.scope, path, args@, bound) ==> final(s).same_queries(
                old(s),
            ),
        decreases hir.items@.len() - stack.len(), bound, 4nat,
    {
        let ghost res = match path {
            Partial::Present(p) => hir.resolve_spec(p, self.scope),
            Partial::Absent => EarlyResolvedPath::Full(crate::hir::NameResBucket::not_found_spec()),
        };
        let head = match path.to_opt() {
            Some(p) => {
                let resolved = hir.resolve_path_early(p, self.scope);
                proof {
                    lemma_resolve_ok(hir, p, self.scope);
                }
                self.lower_resolved_path(hir, s, &resolved, Ghost(stack))
            },
            None => Either::Left(s.invalid(Ghost(hir), InvalidCause::Other)),
        };
        let ghost s1 = *s;
        proof {
            assert(resolved_post(hir, &s1, res, head));
        }
        let lowered_args = self.lower_args(hir, s, args, Ghost(bound), Ghost(stack));
        let ghost s2 = *s;
        proof {
            lemma_resolved_kept(hir, &s1, &s2, res, head);
            lemma_lowered_all_views(hir, &s2, self.scope, arg_tys(args@), bound, lowered_args@);
            lemma_extends_trans(old(s), &s1, &s2);
            assert(resolved_ty(hir, s2.alias_table(), res) == path_head(
                hir,
                s2.alias_table(),
                self.scope,
                path,
            ));
        }
        let r = match head {
            Either::Left(base) => apply_all(hir, s, base, &lowered_args),
            Either::Right(alias) => {
                if s.types.is_mono_type(hir, alias.alias_to) {
                    alias.subst_with(hir, s, lowered_args.as_slice())
                } else {
                    s.invalid(Ghost(hir), InvalidCause::NotFullyApplied)
                }
            },
        };
        proof {
            lemma_same_queries(hir, &s2, s);
            lemma_extends_trans(old(s), &s2, s);
            assert forall|a: ItemId|
                path_mentions(hir, self.scope, path, a) || tys_mention(
                    hir,
                    self.scope,
                    arg_tys(args@),
                    bound,
                    a,
                ) implies s.has_alias(a) by {
                assert(s2.has_alias(a));
            }
            if path_resolved(hir, old(s), self.scope, path, args@, bound) {
                assert(names_resolved(hir, old(s), res)) by {
                    assert forall|a: ItemId| names_alias(hir, res, a) implies old(s).has_alias(
                        a,
                    ) by {
                        assert(path_mentions(hir, self.scope, path, a));
                    }
                }
                assert(s1.same_queries(old(s)));
                assert(tys_resolved(hir, &s1, self.scope, arg_tys(args@), bound)) by {
                    assert forall|a: ItemId|
                        tys_mention(
                            hir,
                            self.scope,
                            arg_tys(args@),
                            bound,
                            a,
                        ) implies s1.has_alias(a) by {
                        assert(old(s).has_alias(a));
                    }
                }
                lemma_same_queries_trans(old(s), &s1, &s2);
                lemma_same_queries_trans(old(s), &s2, s);
            }
        }
        r
    }

    /// Lowers the implicit self type of the scope.
    pub(crate) fn lower_self_ty(&self, hir: &Hir, s: &mut Session, Ghost(stack): Ghost<Seq<ItemId>>) -> (r:
        TyId)
        requires
            old(s).wf(hir),
            chain_ok(hir, stack),
        ensures
            final(s).wf(hir),
            final(s).extends(old(s)),
            final(s).types.contains(r),
            final(s).types.view_of(r) == model::left_or_invalid(
                resolved_ty(hir, final(s).alias_table(), hir.resolve_self_spec(self.scope)),
            ),
            final(s).same_queries(old(s)),
        decreases hir.items@.len() - stack.len(), 0nat, 3nat,
    {
        let res = hir.resolve_self_ty(self.scope);
        proof {
            assert(names_resolved(hir, old(s), res));
        }
        self.lower_resolved_path(hir, s, &res, Ghost(stack)).unwrap_left()
    }

    pub(crate) fn lower_ptr(
        &self,
        hir: &Hir,
        s: &mut Session,
        pointee: Partial<HirTyId>,
        Ghost(bound): Ghost<nat>,
        Ghost(stack): Ghost<Seq<ItemId>>,
    ) -> (r: TyId)
        requires
            old(s).wf(hir),
            ty_below(pointee, bound as int),
            bound <= hir.tys@.len(),
            chain_ok(hir, stack),
            within_partial(hir, stack, self.scope, pointee, bound),
        ensures
            final(s).wf(hir),
            final(s).extends(old(s)),
            final(s).types.contains(r),
            final(s).types.view_of(r) == ptr_ty(
                model::lower_partial(hir, final(s).alias_table(), self.scope, pointee, bound),
            ),
            forall|a: ItemId|
                partial_mentions(hir, self.scope, pointee, bound, a) ==> final(s).has_alias(a),
            partial_resolved(hir, old(s), self.scope, pointee, bound) ==> final(s).same_queries(
                old(s),
            ),
        decreases hir.items@.len() - stack.len(), bound, 2nat,
    {
        let pointee_ty = self.lower_partial(hir, s, pointee, Ghost(bound), Ghost(stack));
        let ghost s1 = *s;
        let ptr = s.ptr(Ghost(hir));
        let ghost s2 = *s;
        proof {
            lemma_extends_keeps_trees(&s1.types, &s2.types);
        }
        let r = s.app(Ghost(hir), ptr, pointee_ty);
        proof {
            lemma_extends_trans(old(s), &s1, &s2);
            lemma_extends_trans(old(s), &s2, s);
            lemma_extends_trans(&s1, &s2, s);
            lemma_lowered_kept(hir, &s1, s, self.scope, pointee, bound, pointee_ty);
            if partial_resolved(hir, old(s), self.scope, pointee, bound) {
                lemma_same_queries_trans(old(s), &s1, &s2);
                lemma_same_queries_trans(old(s), &s2, s);
            }
        }
        r
    }

    pub(crate) fn lower_tuple(
        &self,
        hir: &Hir,
        s: &mut Session,
        elems: &Vec<Partial<HirTyId>>,
        Ghost(bound): Ghost<nat>,
        Ghost(stack): Ghost<Seq<ItemId>>,
    ) -> (r: TyId)
        requires
            old(s).wf(hir),
            bound <= hir.tys@.len(),
            forall|k: int| 0 <= k < elems@.len() ==> ty_below(#[trigger] elems@[k], bound as int),
            chain_ok(hir, stack),
            within_tys(hir, stack, self.scope, elems@, bound),
        ensures
            final(s).wf(hir),
            final(s).extends(old(s)),
            final(s).types.contains(r),
            final(s).types.view_of(r) == tuple_ty(
                hir,
                model::lower_tys(hir, final(s).alias_table(), self.scope, elems@, bound),
            ),
            forall|a: ItemId|
                tys_mention(hir, self.scope, elems@, bound, a) ==> final(s).has_alias(a),
            tys_resolved(hir, old(s), self.scope, elems@, bound) ==> final(s).same_queries(old(s)),
        decreases hir.items@.len() - stack.len(), bound, 4nat,
    {
        let elem_tys = self.lower_list(hir, s, elems, Ghost(bound), Ghost(stack));
        let ghost s1 = *s;
        proof {
            lemma_lowered_all_views(hir, &s1, self.scope, elems@, bound, elem_tys@);
        }
        let r = make_tuple(hir, s, &elem_tys);
        proof {
            lemma_same_queries(hir, &s1, s);
            lemma_extends_trans(old(s), &s1, s);
            assert forall|a: ItemId|
                tys_mention(hir, self.scope, elems@, bound, a) implies s.has_alias(a) by {
                assert(s1.has_alias(a));
            }
            if tys_resolved(hir, old(s), self.scope, elems@, bound) {
                lemma_same_queries_trans(old(s), &s1, s);
            }
        }
        r
    }

    /// Lowers each descriptor of a list, in order.
    pub(crate) fn lower_list(
        &self,
        hir: &Hir,
        s: &mut Session,
        tys: &Vec<Partial<HirTyId>>,
        Ghost(bound): Ghost<nat>,
        Ghost(stack): Ghost<Seq<ItemId>>,
    ) -> (out: Vec<TyId>)
        requires
            old(s).wf(hir),
            bound <= hir.tys@.len(),
            forall|k: int| 0 <= k < tys@.len() ==> ty_below(#[trigger] tys@[k], bound as int),
            chain_ok(hir, stack),
            within_tys(hir, stack, self.scope, tys@, bound),
        ensures
            final(s).wf(hir),
            final(s).extends(old(s)),
            lowered_all(hir, final(s), self.scope, tys@, bound, out@),
            tys_resolved(hir, old(s), self.scope, tys@, bound) ==> final(s).same_queries(old(s)),
        decreases hir.items@.len() - stack.len(), bound, 3nat,
    {
        let mut out: Vec<TyId> = Vec::new();
        let mut i: usize = 0;
        proof {
            lemma_same_queries_refl(s);
        }
        while i < tys.len()
            invariant
                i <= tys@.len(),
                old(s).wf(hir),
                s.wf(hir),
                s.extends(old(s)),
                bound <= hir.tys@.len(),
                forall|k: int| 0 <= k < tys@.len() ==> ty_below(#[trigger] tys@[k], bound as int),
                chain_ok(hir, stack),
                within_tys(hir, stack, self.scope, tys@, bound),
                lowered_all(hir, s, self.scope, tys@.subrange(0, i as int), bound, out@),
                tys_resolved(hir, old(s), self.scope, tys@, bound) ==> s.same_queries(old(s)),
            decreases tys@.len() - i,
        {
            let ghost s1 = *s;
            let ghost out1 = out@;
            proof {
                lemma_within_index(hir, stack, self.scope, tys@, bound, i as int);
                assert(ty_below(tys@[i as int], bound as int));
            }
            let r = self.lower_partial(hir, s, tys[i], Ghost(bound), Ghost(stack));
            out.push(r);
            proof {
                lemma_extends_trans(old(s), &s1, s);
                if tys_resolved(hir, old(s), self.scope, tys@, bound) {
                    assert(partial_resolved(hir, &s1, self.scope, tys@[i as int], bound)) by {
                        assert forall|a: ItemId|
                            partial_mentions(
                                hir,
                                self.scope,
                                tys@[i as int],
                                bound,
                                a,
                            ) implies s1.has_alias(a) by {
                            lemma_tys_mention_index(hir, self.scope, tys@, bound, a);
                            assert(old(s).has_alias(a));
                        }
                    }
                    lemma_same_queries_trans(old(s), &s1, s);
                }
                lemma_lowered_all_kept(
                    hir,
                    &s1,
                    s,
                    self.scope,
                    tys@.subrange(0, i as int),
                    bound,
                    out1,
                );
                let prefix = tys@.subrange(0, i + 1);
                assert forall|j: int| 0 <= j < prefix.len() implies lowered_partial(
                    hir,
                    s,
                    self.scope,
                    prefix[j],
                    bound,
                    #[trigger] out@[j],
                ) by {
                    if j < i {
                        assert(out@[j] == out1[j]);
                        assert(prefix[j] == tys@.subrange(0, i as int)[j]);
                    }
                }
            }
            i += 1;
        }
        proof {
            assert(tys@.subrange(0, tys@.len() as int) =~= tys@);
        }
        out
    }

    /// Lowers each generic argument of a list, in order.
    pub(crate) fn lower_args(
        &self,
        hir: &Hir,
        s: &mut Session,
        args: &Vec<GenericArg>,
        Ghost(bound): Ghost<nat>,
        Ghost(stack): Ghost<Seq<ItemId>>,
    ) -> (out: Vec<TyId>)
        requires
            old(s).wf(hir),
            bound <= hir.tys@.len(),
            forall|k: int| 0 <= k < args@.len() ==> arg_below(#[trigger] args@[k], bound as int),
            chain_ok(hir, stack),
            within_tys(hir, stack, self.scope, arg_tys(args@), bound),
        ensures
            final(s).wf(hir),
            final(s).extends(old(s)),
            lowered_all(hir, final(s), self.scope, arg_tys(args@), bound, out@),
            tys_resolved(hir, old(s), self.scope, arg_tys(args@), bound) ==> final(s).same_queries(
                old(s),
            ),
        decreases hir.items@.len() - stack.len(), bound, 3nat,
    {
        let ghost list = arg_tys(args@);
        let mut out: Vec<TyId> = Vec::new();
        let mut i: usize = 0;
        proof {
            lemma_same_queries_refl(s);
        }
        while i < args.len()
            invariant
                i <= args@.len(),
                list == arg_tys(args@),
                old(s).wf(hir),
                s.wf(hir),
                s.extends(old(s)),
                bound <= hir.tys@.len(),
                forall|k: int|
                    0 <= k < args@.len() ==> arg_below(#[trigger] args@[k], bound as int),
                chain_ok(hir, stack),
                within_tys(hir, stack, self.scope, list, bound),
                lowered_all(hir, s, self.scope, list.subrange(0, i as int), bound, out@),
                tys_resolved(hir, old(s), self.scope, list, bound) ==> s.same_queries(old(s)),
            decreases args@.len() - i,
        {
            let ghost s1 = *s;
            let ghost out1 = out@;
            proof {
                lemma_within_index(hir, stack, self.scope, list, bound, i as int);
                assert(arg_below(args@[i as int], bound as int));
            }
            let r = self.lower_generic_arg(hir, s, &args[i], Ghost(bound), Ghost(stack));
            out.push(r);
            proof {
                lemma_extends_trans(old(s), &s1, s);
                if tys_resolved(hir, old(s), self.scope, list, bound) {
                    assert(partial_resolved(hir, &s1, self.scope, list[i as int], bound)) by {
                        assert forall|a: ItemId|
                            partial_mentions(
                                hir,
                                self.scope,
                                list[i as int],
                                bound,
                                a,
                            ) implies s1.has_alias(a) by {
                            lemma_tys_mention_index(hir, self.scope, list, bound, a);
                            assert(old(s).has_alias(a));
                        }
                    }
                    lemma_same_queries_trans(old(s), &s1, s);
                }
                lemma_lowered_all_kept(
                    hir,
                    &s1,
                    s,
                    self.scope,
                    list.subrange(0, i as int),
                    bound,
                    out1,
                );
                let prefix = list.subrange(0, i + 1);
                assert forall|j: int| 0 <= j < prefix.len() implies lowered_partial(
                    hir,
                    s,
                    self.scope,
                    prefix[j],
                    bound,
                    #[trigger] out@[j],
                ) by {
                    if j < i {
                        assert(out@[j] == out1[j]);
                        assert(prefix[j] == list.subrange(0, i as int)[j]);
                    }
                }
            }
            i += 1;
        }
        proof {
            assert(list.subrange(0, list.len() as int) =~= list);
        }
        out
    }

    pub(crate) fn lower_resolved_path(
        &self,
        hir: &Hir,
        s: &mut Session,
        path: &EarlyResolvedPath,
        Ghost(stack): Ghost<Seq<ItemId>>,
    ) -> (r: Either<TyId, TyAlias>)
        requires
            old(s).wf(hir),
            chain_ok(hir, stack),
            resolved_ok(*path, hir.items@),
            forall|a: ItemId| names_alias(hir, *path, a) ==> within(hir, stack, a),
        ensures
            final(s).wf(hir),
            final(s).extends(old(s)),
            resolved_post(hir, final(s), *path, r),
            names_resolved(hir, old(s), *path) ==> final(s).same_queries(old(s)),
        decreases hir.items@.len() - stack.len(), 0nat, 2nat,
    {
        let res = match path {
            EarlyResolvedPath::Full(bucket) => match bucket.pick(NameDomain::Type) {
                Ok(res) => res,
                // Name resolution has reported this one.
                Err(_) => {
                    return Either::Left(s.invalid(Ghost(hir), InvalidCause::Other));
                },
            },
            EarlyResolvedPath::Partial { .. } => {
                return Either::Left(s.invalid(Ghost(hir), InvalidCause::AssocTy));
            },
        };
        let scope = match res.kind {
            NameResKind::Scope(scope) => scope,
            NameResKind::Prim(prim) => {
                return Either::Left(s.prim(Ghost(hir), prim));
            },
        };
        let item = match scope {
            ScopeId::Item(item) => item,
            ScopeId::GenericParam(item, idx) => {
                let ghost s0 = *s;
                let param = lower_generic_param(hir, s, item, idx);
                proof {
                    lemma_same_queries(hir, &s0, s);
                }
                return Either::Left(param);
            },
        };
        match &hir.items[item.0] {
            Item::Enum(_) => Either::Left(s.adt(Ghost(hir), AdtRef::from_enum(item))),
            Item::Struct(_) => Either::Left(s.adt(Ghost(hir), AdtRef::from_struct(item))),
            Item::Contract(_) => Either::Left(s.adt(Ghost(hir), AdtRef::from_contract(item))),
            Item::TypeAlias(_) => {
                proof {
                    assert(names_alias(hir, *path, item));
                }
                Either::Right(lower_type_alias_in(hir, s, item, Ghost(stack)))
            },
            _ => Either::Left(s.invalid(Ghost(hir), InvalidCause::ReferenceToNonType)),
        }
    }

    pub(crate) fn lower_generic_arg(
        &self,
        hir: &Hir,
        s: &mut Session,
        arg: &GenericArg,
        Ghost(bound): Ghost<nat>,
        Ghost(stack): Ghost<Seq<ItemId>>,
    ) -> (r: TyId)
        requires
            old(s).wf(hir),
            arg_below(*arg, bound as int),
            bound <= hir.tys@.len(),
            chain_ok(hir, stack),
            within_partial(hir, stack, self.scope, arg.ty(), bound),
        ensures
            final(s).wf(hir),
            final(s).extends(old(s)),
            lowered_partial(hir, final(s), self.scope, arg.ty(), bound, r),
            partial_resolved(hir, old(s), self.scope, arg.ty(), bound) ==> final(s).same_queries(
                old(s),
            ),
        decreases hir.items@.len() - stack.len(), bound, 2nat,
    {
        match arg {
            GenericArg::Type(ty) => self.lower_partial(hir, s, *ty, Ghost(bound), Ghost(stack)),
            GenericArg::Const => unreached(),
        }
    }
}

} // verus!
