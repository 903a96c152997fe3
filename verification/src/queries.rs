//! The questions that the analysis answers: the type of a descriptor, the
//! definition of an algebraic type, what an alias stands for. A
//! definition and the outcome for an alias are computed once in a session
//! and kept; a type is kept once in the store, under one handle.

use vstd::prelude::*;
use crate::adt::{lemma_adt_def_kept, AdtTyBuilder};
use crate::db::{
    alias_contained, alias_view, outcome_view, recursion_error, AliasAnalysis, Session, TyAlias,
};
use crate::diagnostics::{diagnostic_views, DiagnosticView};
use crate::hir::{Hir, HirTyId, Item, ItemId, ScopeId};
use crate::lower::{
    lower_type_alias_in, lowered_ty, resolve_alias_in, ty_resolved, type_alias_type_in, TyBuilder,
};
use crate::model::{adt_def_ty, adt_ref_ok, alias_is_recursive, alias_refers, alias_ty};
use crate::ty::{AdtRef, Ty, TyId};

verus! {

impl Hir {
    /// Whether the item is a type alias.
    pub fn is_type_alias(&self, item: ItemId) -> (r: bool)
        ensures
            r == (item.0 < self.items@.len() && self.items@[item.0 as int] is TypeAlias),
    {
        if item.0 < self.items.len() {
            match &self.items[item.0] {
                Item::TypeAlias(_) => true,
                _ => false,
            }
        } else {
            false
        }
    }

    /// Whether the reference points at an item of the kind that it claims.
    pub fn is_adt_ref(&self, adt: AdtRef) -> (r: bool)
        ensures
            r == adt_ref_ok(self, adt),
    {
        let item = adt.as_item();
        if item.0 < self.items.len() {
            match (adt, &self.items[item.0]) {
                (AdtRef::Struct(_), Item::Struct(_)) => true,
                (AdtRef::Enum(_), Item::Enum(_)) => true,
                (AdtRef::Contract(_), Item::Contract(_)) => true,
                _ => false,
            }
        } else {
            false
        }
    }
}

/// Lowers the type descriptor `ty`, read in `scope`. Lowering reports
/// nothing itself. Where every alias that the descriptor names has been
/// resolved before (so where it names none, and where it is lowered
/// again), no outcome is kept that was not kept before, and with that no
/// diagnostic.
pub fn lower_hir_ty(hir: &Hir, s: &mut Session, ty: HirTyId, scope: ScopeId) -> (r: TyId)
    requires
        old(s).wf(hir),
        ty.0 < hir.tys@.len(),
    ensures
        final(s).wf(hir),
        final(s).extends(old(s)),
        lowered_ty(hir, final(s), scope, ty, r),
        ty_resolved(hir, old(s), scope, ty) ==> final(s).same_queries(old(s)),
{
    TyBuilder::new(scope).lower_ty(hir, s, ty, Ghost(Seq::<ItemId>::empty()))
}

/// The algebraic type that comes from `adt`. Its definition is built
/// unless the session keeps it already; where it does, nothing is kept
/// that was not kept before.
pub fn lower_adt(hir: &Hir, s: &mut Session, adt: AdtRef) -> (r: TyId)
    requires
        old(s).wf(hir),
        adt_ref_ok(hir, adt),
    ensures
        final(s).wf(hir),
        final(s).extends(old(s)),
        final(s).types.contains(r),
        final(s).types.view_of(r) == Ty::Adt(adt),
        final(s).has_adt(adt.item_spec()),
        final(s).adt_def_ty(adt.item_spec()) == adt_def_ty(hir, final(s).alias_table(), adt),
        old(s).has_adt(adt.item_spec()) ==> final(s).same_queries(old(s)),
{
    let item = adt.as_item();
    if s.adts[item.0].is_some() {
        let ghost s0 = *s;
        proof {
            assert(s0.has_adt(item));
            assert(s0.adt_entry_ok(hir, item));
        }
        let r = s.adt(Ghost(hir), adt);
        proof {
            lemma_adt_def_kept(hir, &s0, s, item);
        }
        r
    } else {
        let (ty, _diags) = AdtTyBuilder::new(adt).build(hir, s);
        ty
    }
}

/// The alias as a lowered alias. An alias whose definition leads back to
/// itself stands for an invalid type without parameters.
pub fn lower_type_alias(hir: &Hir, s: &mut Session, alias: ItemId) -> (r: TyAlias)
    requires
        old(s).wf(hir),
        alias.0 < hir.items@.len(),
        hir.items@[alias.0 as int] is TypeAlias,
    ensures
        final(s).wf(hir),
        final(s).extends(old(s)),
        final(s).has_alias(alias),
        alias_contained(&final(s).types, &r),
        alias_view(&final(s).types, &r) == final(s).alias_table()[alias],
        alias_view(&final(s).types, &r) == if alias_is_recursive(hir, alias) {
            crate::model::poisoned_alias()
        } else {
            alias_ty(hir, final(s).alias_table(), alias)
        },
        old(s).has_alias(alias) ==> final(s).same_queries(old(s)),
{
    let r = lower_type_alias_in(hir, s, alias, Ghost(Seq::<ItemId>::empty()));
    proof {
        assert(s.alias_entry_ok(hir, alias));
    }
    r
}

/// Resolves an alias. An alias whose definition leads back to itself,
/// directly or through other aliases, gives an error with exactly one
/// diagnostic, at the alias's own declaration; any other alias gives its
/// definition lowered, without diagnostics. The outcome is kept, and
/// asking again gives the same.
pub fn resolve_alias(hir: &Hir, s: &mut Session, alias: ItemId) -> (r: AliasAnalysis)
    requires
        old(s).wf(hir),
        alias.0 < hir.items@.len(),
        hir.items@[alias.0 as int] is TypeAlias,
    ensures
        final(s).wf(hir),
        final(s).extends(old(s)),
        final(s).has_alias(alias),
        r.value is Err <==> alias_is_recursive(hir, alias),
        r.value matches Ok(lowered) ==> alias_contained(&final(s).types, &lowered) && alias_view(
            &final(s).types,
            &lowered,
        ) == alias_ty(hir, final(s).alias_table(), alias),
        outcome_view(&final(s).types, &r.value) == final(s).alias_table()[alias],
        diagnostic_views(r.diagnostics@) == if alias_is_recursive(hir, alias) {
            seq![recursion_error(hir.items@[alias.0 as int]->TypeAlias_0.span)]
        } else {
            Seq::<DiagnosticView>::empty()
        },
        old(s).has_alias(alias) ==> final(s).same_queries(old(s)),
{
    resolve_alias_in(hir, s, alias, Ghost(Seq::<ItemId>::empty()))
}

/// Lowers the definition of an alias in the alias's own scope, over its
/// own generic parameters. This looks at the definition only: whether
/// it leads back to the alias is for [`resolve_alias`] to find.
pub fn type_alias_type(hir: &Hir, s: &mut Session, alias: ItemId) -> (r: AliasAnalysis)
    requires
        old(s).wf(hir),
        alias.0 < hir.items@.len(),
        hir.items@[alias.0 as int] is TypeAlias,
    ensures
        final(s).wf(hir),
        final(s).extends(old(s)),
        r.value matches Ok(lowered) && alias_contained(&final(s).types, &lowered) && alias_view(
            &final(s).types,
            &lowered,
        ) == alias_ty(hir, final(s).alias_table(), alias),
        r.diagnostics@.len() == 0,
        forall|other: ItemId| alias_refers(hir, alias, other) ==> final(s).has_alias(other),
        (forall|other: ItemId| alias_refers(hir, alias, other) ==> old(s).has_alias(other))
            ==> final(s).same_queries(old(s)),
{
    type_alias_type_in(hir, s, alias, Ghost(Seq::<ItemId>::empty()))
}

} // verus!
