//! The state of one compilation session: the type store and what has been
//! computed so far for aliases and algebraic types. Everything is computed
//! once per key and kept.

use std::rc::Rc;
use vstd::prelude::*;
use crate::diagnostics::{diagnostic_views, error_diagnostic, Diagnostic, DiagnosticView, Span};
use crate::hir::{Hir, IdentId, Item, ItemId, Partial, PrimTy, ScopeId};
use crate::model::{
    adt_def_ty, adt_mentions, adt_ref_ok, adt_variants, alias_is_recursive, alias_refers,
    alias_ty, enum_variant_ty, field_tys, lemma_lower_partial_frame, lemma_lower_tys_frame,
    lemma_tys_mention_index, partial_mentions, payload_tys, poisoned_alias, AdtDefTy,
    AliasTable, AliasTy, VariantTy,
};
use crate::ty::{
    app_ty, lemma_extends_keeps_trees, tuple_ctor, AdtRef, InvalidCause, Ty, TyId, TyParam,
    TyStore,
};

verus! {

/// Shows that a diagnostic has been recorded. Only recording one makes one.
#[derive(Clone, Copy, Debug, PartialEq, Eq, Hash)]
pub struct DiagnosticVoucher(());

/// A type could not be determined, and the reason has been reported.
#[derive(Clone, Copy, Debug, PartialEq, Eq, Hash)]
pub struct TypeError(DiagnosticVoucher);

impl TypeError {
    /// The voucher of the diagnostic that reported the error.
    pub closed spec fn voucher(self) -> DiagnosticVoucher {
        self.0
    }

    pub fn new(voucher: DiagnosticVoucher) -> (e: TypeError)
        ensures
            e.voucher() == voucher,
    {
        TypeError(voucher)
    }
}

/// A result together with the diagnostics that computing it produced.
#[derive(Debug)]
pub struct Analysis<T> {
    pub value: T,
    pub diagnostics: Rc<Vec<Diagnostic>>,
}

/// Collects the diagnostics of one computation.
#[derive(Debug)]
pub struct TempContext {
    pub diagnostics: Vec<Diagnostic>,
}

impl TempContext {
    pub fn new() -> (ctx: TempContext)
        ensures
            ctx.diagnostics@.len() == 0,
    {
        TempContext { diagnostics: Vec::new() }
    }

    /// Records an error with one primary label.
    pub fn error(&mut self, message: &str, span: Span, label: &str) -> (voucher: DiagnosticVoucher)
        ensures
            final(self).diagnostics@.len() == old(self).diagnostics@.len() + 1,
            diagnostic_views(final(self).diagnostics@) == diagnostic_views(
                old(self).diagnostics@,
            ).push(error_diagnostic(message@, span, label@)),
    {
        self.diagnostics.push(Diagnostic::error(message, span, label));
        proof {
            assert(diagnostic_views(self.diagnostics@) =~= diagnostic_views(
                old(self).diagnostics@,
            ).push(error_diagnostic(message@, span, label@)));
        }
        DiagnosticVoucher(())
    }
}

/// A lowered type alias. It is no type itself: it becomes one when its
/// parameters are replaced by arguments. The target must be fully applied
/// by then.
#[derive(Debug, PartialEq, Eq)]
pub struct TyAlias {
    pub alias_to: TyId,
    pub params: Vec<TyId>,
}

/// One variant of an algebraic type.
#[derive(Debug, PartialEq, Eq)]
pub struct AdtVariant {
    pub name: Partial<IdentId>,
    pub tys: Vec<TyId>,
}

/// The definition of an algebraic type: where it comes from, its
/// parameters and its variants, all in declaration order.
#[derive(Debug, PartialEq, Eq)]
pub struct AdtDef {
    pub adt: AdtRef,
    pub params: Vec<TyId>,
    pub variants: Vec<AdtVariant>,
}

pub type AliasAnalysis = Analysis<Result<TyAlias, TypeError>>;

/// The diagnostic of an alias whose definition leads back to itself.
pub open spec fn recursion_error(span: Span) -> DiagnosticView {
    error_diagnostic("recursive type definition"@, span, ""@)
}

/// What a lowered alias stands for.
pub open spec fn alias_view(types: &TyStore, alias: &TyAlias) -> AliasTy {
    AliasTy { alias_to: types.view_of(alias.alias_to), params: types.views_of(alias.params@) }
}

/// What the outcome of resolving an alias stands for. An alias that could
/// not be resolved stands for an invalid type.
pub open spec fn outcome_view(types: &TyStore, outcome: &Result<TyAlias, TypeError>) -> AliasTy {
    match outcome {
        Ok(alias) => alias_view(types, alias),
        Err(_) => poisoned_alias(),
    }
}

/// Whether the handles of a lowered alias are handles of the store.
pub open spec fn alias_contained(types: &TyStore, alias: &TyAlias) -> bool {
    types.contains(alias.alias_to) && types.contains_all(alias.params@)
}

pub open spec fn variant_view(types: &TyStore, variant: &AdtVariant) -> VariantTy {
    VariantTy { name: variant.name, tys: types.views_of(variant.tys@) }
}

/// The definition as the model has it.
pub open spec fn adt_def_view(types: &TyStore, def: &AdtDef) -> AdtDefTy {
    AdtDefTy {
        adt: def.adt,
        params: types.views_of(def.params@),
        variants: Seq::new(def.variants@.len(), |i: int| variant_view(types, &def.variants@[i])),
    }
}

/// Whether the handles of a definition are handles of the store.
pub open spec fn adt_def_contained(types: &TyStore, def: &AdtDef) -> bool {
    &&& types.contains_all(def.params@)
    &&& forall|i: int|
        0 <= i < def.variants@.len() ==> types.contains_all((#[trigger] def.variants@[i]).tys@)
}

/// What has been computed in this session.
#[derive(Debug)]
pub struct Session {
    pub types: TyStore,
    /// The outcome of resolving each alias, by item; `None` until asked for.
    pub aliases: Vec<Option<AliasAnalysis>>,
    /// The definition of each algebraic type, by item; `None` until asked for.
    pub adts: Vec<Option<Analysis<AdtDef>>>,
}

impl Session {
    /// Whether the alias has been resolved.
    pub open spec fn has_alias(&self, alias: ItemId) -> bool {
        alias.0 < self.aliases@.len() && self.aliases@[alias.0 as int] is Some
    }

    /// Whether the algebraic type of the item has been defined.
    pub open spec fn has_adt(&self, item: ItemId) -> bool {
        item.0 < self.adts@.len() && self.adts@[item.0 as int] is Some
    }

    /// The aliases resolved so far, each with what it stands for.
    pub open spec fn alias_table(&self) -> AliasTable {
        Map::new(
            |alias: ItemId| self.has_alias(alias),
            |alias: ItemId| outcome_view(&self.types, &self.aliases@[alias.0 as int]->0.value),
        )
    }

    /// The kept outcome for an alias is what resolving it must give: for
    /// an alias that leads back to itself the error with its one
    /// diagnostic; for any other its definition lowered, without
    /// diagnostics, every alias that the definition names being resolved
    /// too.
    pub open spec fn alias_entry_ok(&self, hir: &Hir, alias: ItemId) -> bool {
        let entry = self.aliases@[alias.0 as int]->0;
        &&& alias.0 < hir.items@.len()
        &&& hir.items@[alias.0 as int] matches Item::TypeAlias(def)
        &&& if alias_is_recursive(hir, alias) {
            &&& entry.value is Err
            &&& diagnostic_views(entry.diagnostics@) == seq![recursion_error(def.span)]
        } else {
            &&& entry.value matches Ok(lowered)
            &&& alias_contained(&self.types, &lowered)
            &&& alias_view(&self.types, &lowered) == alias_ty(hir, self.alias_table(), alias)
            &&& entry.diagnostics@.len() == 0
            &&& forall|other: ItemId| #[trigger]
                alias_refers(hir, alias, other) ==> self.has_alias(other)
        }
    }

    /// The kept definition of an algebraic type is what building it must
    /// give, every alias that it names being resolved.
    pub open spec fn adt_entry_ok(&self, hir: &Hir, item: ItemId) -> bool {
        let entry = self.adts@[item.0 as int]->0;
        &&& adt_ref_ok(hir, entry.value.adt)
        &&& entry.value.adt.item_spec() == item
        &&& adt_def_contained(&self.types, &entry.value)
        &&& adt_def_view(&self.types, &entry.value) == adt_def_ty(
            hir,
            self.alias_table(),
            entry.value.adt,
        )
        &&& entry.diagnostics@.len() == 0
        &&& forall|other: ItemId| #[trigger]
            adt_mentions(hir, entry.value.adt, other) ==> self.has_alias(other)
    }

    /// The session is one of the program `hir`, and everything kept in it
    /// is what computing it anew would give.
    pub open spec fn wf(&self, hir: &Hir) -> bool {
        &&& hir.wf()
        &&& self.types.wf()
        &&& self.aliases@.len() == hir.items@.len()
        &&& self.adts@.len() == hir.items@.len()
        &&& forall|alias: ItemId| #[trigger] self.has_alias(alias) ==> self.alias_entry_ok(hir, alias)
        &&& forall|item: ItemId| #[trigger] self.has_adt(item) ==> self.adt_entry_ok(hir, item)
    }

    /// Whether this session keeps everything that `old` kept.
    pub open spec fn extends(&self, old: &Session) -> bool {
        &&& self.types.extends(&old.types)
        &&& self.aliases@.len() == old.aliases@.len()
        &&& self.adts@.len() == old.adts@.len()
        &&& forall|alias: ItemId| #[trigger]
            old.has_alias(alias) ==> self.aliases@[alias.0 as int] == old.aliases@[alias.0 as int]
        &&& forall|item: ItemId| #[trigger]
            old.has_adt(item) ==> self.adts@[item.0 as int] == old.adts@[item.0 as int]
    }

    /// Whether this session differs from `old` by new types only.
    pub open spec fn same_queries(&self, old: &Session) -> bool {
        &&& self.types.extends(&old.types)
        &&& self.aliases@ == old.aliases@
        &&& self.adts@ == old.adts@
    }

    pub fn new(hir: &Hir) -> (session: Session)
        requires
            hir.wf(),
        ensures
            session.wf(hir),
            session.types.nodes@.len() == 0,
            forall|alias: ItemId| !session.has_alias(alias),
            forall|item: ItemId| !session.has_adt(item),
    {
        let mut aliases: Vec<Option<AliasAnalysis>> = Vec::new();
        let mut adts: Vec<Option<Analysis<AdtDef>>> = Vec::new();
        let mut i: usize = 0;
        while i < hir.items.len()
            invariant
                i <= hir.items@.len(),
                aliases@.len() == i,
                adts@.len() == i,
                forall|j: int| 0 <= j < i ==> #[trigger] aliases@[j] is None,
                forall|j: int| 0 <= j < i ==> #[trigger] adts@[j] is None,
            decreases hir.items@.len() - i,
        {
            aliases.push(None);
            adts.push(None);
            i += 1;
        }
        Session { types: TyStore::new(), aliases, adts }
    }

    /// The invalid type with the given cause.
    pub(crate) fn invalid(&mut self, Ghost(hir): Ghost<&Hir>, cause: InvalidCause) -> (id: TyId)
        requires
            old(self).wf(hir),
        ensures
            final(self).wf(hir),
            final(self).same_queries(old(self)),
            final(self).extends(old(self)),
            final(self).alias_table() == old(self).alias_table(),
            final(self).types.contains(id),
            final(self).types.view_of(id) == Ty::Invalid(cause),
    {
        let ghost before = *self;
        let id = self.types.invalid(cause);
        proof {
            lemma_same_queries(hir, &before, self);
        }
        id
    }

    /// Applies `base` to `arg`; an invalid part is handed back in place of
    /// an application.
    pub(crate) fn app(&mut self, Ghost(hir): Ghost<&Hir>, base: TyId, arg: TyId) -> (id: TyId)
        requires
            old(self).wf(hir),
            old(self).types.contains(base),
            old(self).types.contains(arg),
        ensures
            final(self).wf(hir),
            final(self).same_queries(old(self)),
            final(self).extends(old(self)),
            final(self).alias_table() == old(self).alias_table(),
            final(self).types.contains(id),
            final(self).types.view_of(id) == app_ty(
                old(self).types.view_of(base),
                old(self).types.view_of(arg),
            ),
    {
        let ghost before = *self;
        let id = self.types.app(base, arg);
        proof {
            lemma_same_queries(hir, &before, self);
        }
        id
    }

    /// The pointer constructor.
    pub(crate) fn ptr(&mut self, Ghost(hir): Ghost<&Hir>) -> (id: TyId)
        requires
            old(self).wf(hir),
        ensures
            final(self).wf(hir),
            final(self).same_queries(old(self)),
            final(self).extends(old(self)),
            final(self).alias_table() == old(self).alias_table(),
            final(self).types.contains(id),
            final(self).types.view_of(id) == Ty::Ptr,
    {
        let ghost before = *self;
        let id = self.types.ptr();
        proof {
            lemma_same_queries(hir, &before, self);
        }
        id
    }

    /// The tuple constructor of the given arity; of arity zero, the unit type.
    pub(crate) fn tuple(&mut self, Ghost(hir): Ghost<&Hir>, arity: usize) -> (id: TyId)
        requires
            old(self).wf(hir),
        ensures
            final(self).wf(hir),
            final(self).same_queries(old(self)),
            final(self).extends(old(self)),
            final(self).alias_table() == old(self).alias_table(),
            final(self).types.contains(id),
            final(self).types.view_of(id) == tuple_ctor(arity),
    {
        let ghost before = *self;
        let id = self.types.tuple(arity);
        proof {
            lemma_same_queries(hir, &before, self);
        }
        id
    }

    /// The built-in type `prim`.
    pub(crate) fn prim(&mut self, Ghost(hir): Ghost<&Hir>, prim: PrimTy) -> (id: TyId)
        requires
            old(self).wf(hir),
        ensures
            final(self).wf(hir),
            final(self).same_queries(old(self)),
            final(self).extends(old(self)),
            final(self).alias_table() == old(self).alias_table(),
            final(self).types.contains(id),
            final(self).types.view_of(id) == Ty::Prim(prim),
    {
        let ghost before = *self;
        let id = self.types.prim(prim);
        proof {
            lemma_same_queries(hir, &before, self);
        }
        id
    }

    /// The algebraic type that comes from `adt`.
    pub(crate) fn adt(&mut self, Ghost(hir): Ghost<&Hir>, adt: AdtRef) -> (id: TyId)
        requires
            old(self).wf(hir),
        ensures
            final(self).wf(hir),
            final(self).same_queries(old(self)),
            final(self).extends(old(self)),
            final(self).alias_table() == old(self).alias_table(),
            final(self).types.contains(id),
            final(self).types.view_of(id) == Ty::Adt(adt),
    {
        let ghost before = *self;
        let id = self.types.adt(adt);
        proof {
            lemma_same_queries(hir, &before, self);
        }
        id
    }

    /// The unit type.
    pub(crate) fn unit(&mut self, Ghost(hir): Ghost<&Hir>) -> (id: TyId)
        requires
            old(self).wf(hir),
        ensures
            final(self).wf(hir),
            final(self).same_queries(old(self)),
            final(self).extends(old(self)),
            final(self).alias_table() == old(self).alias_table(),
            final(self).types.contains(id),
            final(self).types.view_of(id) == Ty::Unit,
    {
        let ghost before = *self;
        let id = self.types.unit();
        proof {
            lemma_same_queries(hir, &before, self);
        }
        id
    }

    /// The type that constrains nothing.
    pub(crate) fn bot(&mut self, Ghost(hir): Ghost<&Hir>) -> (id: TyId)
        requires
            old(self).wf(hir),
        ensures
            final(self).wf(hir),
            final(self).same_queries(old(self)),
            final(self).extends(old(self)),
            final(self).alias_table() == old(self).alias_table(),
            final(self).types.contains(id),
            final(self).types.view_of(id) == Ty::Bot,
    {
        let ghost before = *self;
        let id = self.types.bot();
        proof {
            lemma_same_queries(hir, &before, self);
        }
        id
    }

    /// The inference variable with the given number.
    pub(crate) fn var(&mut self, Ghost(hir): Ghost<&Hir>, number: usize) -> (id: TyId)
        requires
            old(self).wf(hir),
        ensures
            final(self).wf(hir),
            final(self).same_queries(old(self)),
            final(self).extends(old(self)),
            final(self).alias_table() == old(self).alias_table(),
            final(self).types.contains(id),
            final(self).types.view_of(id) == Ty::Var(number),
    {
        let ghost before = *self;
        let id = self.types.var(number);
        proof {
            lemma_same_queries(hir, &before, self);
        }
        id
    }

    /// The generic parameter `param` as a type.
    pub(crate) fn ty_param(&mut self, Ghost(hir): Ghost<&Hir>, param: TyParam) -> (id: TyId)
        requires
            old(self).wf(hir),
        ensures
            final(self).wf(hir),
            final(self).same_queries(old(self)),
            final(self).extends(old(self)),
            final(self).alias_table() == old(self).alias_table(),
            final(self).types.contains(id),
            final(self).types.view_of(id) == Ty::Param(param),
    {
        let ghost before = *self;
        let id = self.types.ty_param(param);
        proof {
            lemma_same_queries(hir, &before, self);
        }
        id
    }
}

/// A store that extends another gives lists of the other's handles the same types.
pub proof fn lemma_views_kept(old: &TyStore, new: &TyStore, ids: Seq<TyId>)
    requires
        new.extends(old),
        old.contains_all(ids),
    ensures
        new.views_of(ids) == old.views_of(ids),
        new.contains_all(ids),
{
    lemma_extends_keeps_trees(old, new);
    assert(new.views_of(ids) =~= old.views_of(ids));
}

/// Extending a session leaves what the resolved aliases stand for.
pub proof fn lemma_table_kept(hir: &Hir, old: &Session, new: &Session)
    requires
        old.wf(hir),
        new.extends(old),
    ensures
        forall|alias: ItemId| #[trigger]
            old.has_alias(alias) ==> new.has_alias(alias) && new.alias_table()[alias]
                == old.alias_table()[alias],
{
    lemma_extends_keeps_trees(&old.types, &new.types);
    assert forall|alias: ItemId| #[trigger] old.has_alias(alias) implies new.has_alias(alias)
        && new.alias_table()[alias] == old.alias_table()[alias] by {
        assert(old.alias_entry_ok(hir, alias));
        let entry = old.aliases@[alias.0 as int]->0;
        match entry.value {
            Ok(lowered) => {
                lemma_views_kept(&old.types, &new.types, lowered.params@);
            },
            Err(_) => {},
        }
    }
}

/// Two tables that agree on every alias that the definition of an
/// algebraic type names give it the same definition.
pub proof fn lemma_adt_def_frame(hir: &Hir, a: AliasTable, b: AliasTable, adt: AdtRef)
    requires
        forall|alias: ItemId| adt_mentions(hir, adt, alias) ==> a[alias] == b[alias],
    ensures
        adt_def_ty(hir, a, adt) == adt_def_ty(hir, b, adt),
{
    let item = adt.item_spec();
    let scope = ScopeId::Item(item);
    let n = hir.tys@.len();
    if item.0 < hir.items@.len() {
        match hir.items@[item.0 as int] {
            Item::Struct(s) => {
                lemma_lower_tys_frame(hir, a, b, scope, field_tys(s.fields@), n);
            },
            Item::Contract(c) => {
                lemma_lower_tys_frame(hir, a, b, scope, field_tys(c.fields@), n);
            },
            Item::Enum(e) => {
                let payloads = payload_tys(e.variants@);
                assert forall|i: int| 0 <= i < e.variants@.len() implies enum_variant_ty(
                    hir,
                    a,
                    scope,
                    e.variants@[i],
                ) == enum_variant_ty(hir, b, scope, e.variants@[i]) by {
                    assert forall|alias: ItemId|
                        partial_mentions(hir, scope, payloads[i], n, alias) implies a[alias]
                        == b[alias] by {
                        lemma_tys_mention_index(hir, scope, payloads, n, alias);
                    }
                    lemma_lower_partial_frame(hir, a, b, scope, payloads[i], n);
                }
                assert(adt_variants(hir, a, adt) =~= adt_variants(
                    hir,
                    b,
                    adt,
                ));
            },
            _ => {},
        }
    }
}

/// A session stays sound when it is extended by entries that are sound.
pub proof fn lemma_wf_step(hir: &Hir, old: &Session, new: &Session)
    requires
        old.wf(hir),
        new.types.wf(),
        new.extends(old),
        forall|alias: ItemId|
            new.has_alias(alias) && !old.has_alias(alias) ==> #[trigger] new.alias_entry_ok(
                hir,
                alias,
            ),
        forall|item: ItemId|
            new.has_adt(item) && !old.has_adt(item) ==> #[trigger] new.adt_entry_ok(hir, item),
    ensures
        new.wf(hir),
{
    lemma_table_kept(hir, old, new);
    lemma_extends_keeps_trees(&old.types, &new.types);
    assert forall|alias: ItemId| #[trigger] new.has_alias(alias) implies new.alias_entry_ok(
        hir,
        alias,
    ) by {
        if old.has_alias(alias) {
            assert(old.alias_entry_ok(hir, alias));
            if !alias_is_recursive(hir, alias) {
                let lowered = old.aliases@[alias.0 as int]->0.value->Ok_0;
                lemma_views_kept(&old.types, &new.types, lowered.params@);
                let def = hir.items@[alias.0 as int]->TypeAlias_0;
                assert forall|other: ItemId|
                    partial_mentions(
                        hir,
                        ScopeId::Item(alias),
                        def.ty,
                        hir.tys@.len(),
                        other,
                    ) implies old.alias_table()[other] == new.alias_table()[other] by {
                    assert(alias_refers(hir, alias, other));
                    assert(old.has_alias(other));
                }
                lemma_lower_partial_frame(
                    hir,
                    old.alias_table(),
                    new.alias_table(),
                    ScopeId::Item(alias),
                    def.ty,
                    hir.tys@.len(),
                );
                assert forall|other: ItemId| #[trigger]
                    alias_refers(hir, alias, other) implies new.has_alias(other) by {
                    assert(old.has_alias(other));
                }
            }
        }
    }
    assert forall|item: ItemId| #[trigger] new.has_adt(item) implies new.adt_entry_ok(hir, item) by {
        if old.has_adt(item) {
            assert(old.adt_entry_ok(hir, item));
            let def = old.adts@[item.0 as int]->0.value;
            lemma_views_kept(&old.types, &new.types, def.params@);
            assert forall|i: int| 0 <= i < def.variants@.len() implies new.types.contains_all(
                (#[trigger] def.variants@[i]).tys@,
            ) && variant_view(&new.types, &def.variants@[i]) == variant_view(
                &old.types,
                &def.variants@[i],
            ) by {
                lemma_views_kept(&old.types, &new.types, def.variants@[i].tys@);
            }
            assert(adt_def_view(&new.types, &def).variants =~= adt_def_view(
                &old.types,
                &def,
            ).variants);
            assert forall|other: ItemId| adt_mentions(hir, def.adt, other) implies old.alias_table()[other]
                == new.alias_table()[other] by {
                assert(old.has_alias(other));
            }
            lemma_adt_def_frame(hir, old.alias_table(), new.alias_table(), def.adt);
            assert forall|other: ItemId| #[trigger]
                adt_mentions(hir, def.adt, other) implies new.has_alias(other) by {
                assert(old.has_alias(other));
            }
        }
    }
}

/// A session stays sound when only its type store grows, and the
/// resolved aliases stand for what they stood for.
pub proof fn lemma_same_queries(hir: &Hir, old: &Session, new: &Session)
    requires
        old.wf(hir),
        new.types.wf(),
        new.same_queries(old),
    ensures
        new.wf(hir),
        new.extends(old),
        new.alias_table() == old.alias_table(),
{
    assert(new.extends(old));
    lemma_wf_step(hir, old, new);
    lemma_table_kept(hir, old, new);
    assert(new.alias_table() =~= old.alias_table());
}

/// Extending is transitive.
pub proof fn lemma_extends_trans(a: &Session, b: &Session, c: &Session)
    requires
        b.extends(a),
        c.extends(b),
    ensures
        c.extends(a),
{
    assert(c.types.nodes@.subrange(0, a.types.nodes@.len() as int) =~= b.types.nodes@.subrange(
        0,
        a.types.nodes@.len() as int,
    ));
    assert forall|alias: ItemId| #[trigger] a.has_alias(alias) implies c.aliases@[alias.0 as int]
        == a.aliases@[alias.0 as int] by {
        assert(b.has_alias(alias));
    }
    assert forall|item: ItemId| #[trigger] a.has_adt(item) implies c.adts@[item.0 as int]
        == a.adts@[item.0 as int] by {
        assert(b.has_adt(item));
    }
}

/// Growing only the type store is transitive, and keeps handles.
pub proof fn lemma_same_queries_trans(a: &Session, b: &Session, c: &Session)
    requires
        b.same_queries(a),
        c.same_queries(b),
    ensures
        c.same_queries(a),
{
    assert(c.types.nodes@.subrange(0, a.types.nodes@.len() as int) =~= b.types.nodes@.subrange(
        0,
        a.types.nodes@.len() as int,
    ));
}

/// A session differs from itself by nothing.
pub proof fn lemma_same_queries_refl(a: &Session)
    ensures
        a.same_queries(a),
        a.extends(a),
{
    assert(a.types.nodes@.subrange(0, a.types.nodes@.len() as int) =~= a.types.nodes@);
}

} // verus!
