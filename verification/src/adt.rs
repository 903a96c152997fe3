//! Building the definition of an algebraic type from its declaration.

use std::rc::Rc;
use vstd::prelude::*;
use crate::db::{
    adt_def_view, lemma_extends_trans, lemma_same_queries, lemma_same_queries_refl,
    lemma_same_queries_trans, lemma_views_kept, lemma_wf_step, variant_view, AdtDef, AdtVariant,
    Analysis, Session,
};
use crate::diagnostics::Diagnostic;
use crate::hir::{
    fields_below, item_ok, ty_below, variants_below, FieldDef, Hir, HirTyId, IdentId, Item,
    ItemId, Partial, ScopeId, VariantDef,
};
use crate::lower::{
    lemma_lowered_all_views, lemma_lowered_kept, lower_generic_param, lowered_partial,
    TyBuilder,
};
use crate::model::{
    adt_def_ty, adt_mentions, adt_ref_ok, adt_variants, enum_variant_ty, field_tys,
    generic_param_len, generic_param_ty, generic_param_tys, lemma_tys_mention_index,
    partial_mentions, payload_tys, record_variant_ty, tys_mention,
};
use crate::ty::{lemma_extends_keeps_trees, AdtRef, Ty, TyId};

verus! {

impl Session {
    /// The kept definition of the algebraic type of `item`, as the model has it.
    pub open spec fn adt_def_ty(&self, item: ItemId) -> crate::model::AdtDefTy {
        adt_def_view(&self.types, &self.adts@[item.0 as int]->0.value)
    }

    /// The definition of the algebraic type of `item`, if it has been built.
    pub fn adt_def(&self, item: ItemId) -> (def: Option<&AdtDef>)
        ensures
            def is Some <==> self.has_adt(item),
            def matches Some(d) ==> *d == self.adts@[item.0 as int]->0.value,
    {
        if item.0 < self.adts.len() {
            match &self.adts[item.0] {
                Some(entry) => Some(&entry.value),
                None => None,
            }
        } else {
            None
        }
    }
}

/// Whether the builder's variant `built` is the enum case `variant` lowered.
pub open spec fn variant_lowered(
    hir: &Hir,
    s: &Session,
    scope: ScopeId,
    variant: VariantDef,
    built: &AdtVariant,
) -> bool {
    &&& built.name == variant.name
    &&& match variant.ty {
        Some(t) => built.tys@.len() == 1 && lowered_partial(
            hir,
            s,
            scope,
            Partial::Present(t),
            hir.tys@.len(),
            built.tys@[0],
        ),
        None => built.tys@.len() == 0,
    }
}

proof fn lemma_variant_kept(
    hir: &Hir,
    s1: &Session,
    s2: &Session,
    scope: ScopeId,
    variant: VariantDef,
    built: &AdtVariant,
)
    requires
        s1.wf(hir),
        s2.extends(s1),
        variant_lowered(hir, s1, scope, variant, built),
    ensures
        variant_lowered(hir, s2, scope, variant, built),
{
    match variant.ty {
        Some(t) => {
            lemma_lowered_kept(
                hir,
                s1,
                s2,
                scope,
                Partial::Present(t),
                hir.tys@.len(),
                built.tys@[0],
            );
        },
        None => {},
    }
}

proof fn lemma_variant_view(
    hir: &Hir,
    s: &Session,
    scope: ScopeId,
    variant: VariantDef,
    built: &AdtVariant,
)
    requires
        variant_lowered(hir, s, scope, variant, built),
    ensures
        s.types.contains_all(built.tys@),
        variant_view(&s.types, built) == enum_variant_ty(hir, s.alias_table(), scope, variant),
{
    assert(variant_view(&s.types, built).tys =~= enum_variant_ty(
        hir,
        s.alias_table(),
        scope,
        variant,
    ).tys);
}

/// Collects the parameters and the variants of one algebraic type.
pub struct AdtTyBuilder {
    pub adt: AdtRef,
    pub params: Vec<TyId>,
    pub variants: Vec<AdtVariant>,
    pub diags: Vec<Diagnostic>,
}

impl AdtTyBuilder {
    pub fn new(adt: AdtRef) -> (builder: Self)
        ensures
            builder.adt == adt,
            builder.params@.len() == 0,
            builder.variants@.len() == 0,
            builder.diags@.len() == 0,
    {
        Self { adt, params: Vec::new(), variants: Vec::new(), diags: Vec::new() }
    }

    /// Builds the definition, keeps it in the session unless one is kept
    /// already, and hands out the algebraic type with the diagnostics
    /// collected on the way.
    pub fn build(self, hir: &Hir, s: &mut Session) -> (r: (TyId, Vec<Diagnostic>))
        requires
            old(s).wf(hir),
            adt_ref_ok(hir, self.adt),
            self.params@.len() == 0,
            self.variants@.len() == 0,
            self.diags@.len() == 0,
        ensures
            final(s).wf(hir),
            final(s).extends(old(s)),
            final(s).types.contains(r.0),
            final(s).types.view_of(r.0) == Ty::Adt(self.adt),
            r.1@.len() == 0,
            final(s).has_adt(self.adt.item_spec()),
            final(s).adt_def_ty(self.adt.item_spec()) == adt_def_ty(
                hir,
                final(s).alias_table(),
                self.adt,
            ),
    {
        let ghost adt = self.adt;
        let item = self.adt.as_item();
        let mut builder = self;
        builder.collect_params(hir, s);
        let ghost s1 = *s;
        builder.collect_variants(hir, s);
        let ghost s2 = *s;
        proof {
            lemma_extends_trans(old(s), &s1, &s2);
            assert(builder.params@.subrange(0, builder.params@.len() as int) =~= builder.params@);
            assert(builder.variants@.subrange(0, builder.variants@.len() as int)
                =~= builder.variants@);
            lemma_views_kept(&s1.types, &s2.types, builder.params@);
        }
        if s.adts[item.0].is_none() {
            let def = AdtDef { adt: builder.adt, params: builder.params, variants: builder.variants };
            proof {
                assert(adt_def_view(&s2.types, &def).variants =~= adt_variants(
                    hir,
                    s2.alias_table(),
                    adt,
                ));
            }
            s.adts.set(item.0, Some(Analysis { value: def, diagnostics: Rc::new(Vec::new()) }));
            proof {
                assert(s.extends(&s2)) by {
                    assert(s.types.nodes@.subrange(0, s2.types.nodes@.len() as int)
                        =~= s2.types.nodes@);
                }
                assert(s.alias_table() =~= s2.alias_table());
                assert forall|other: ItemId| #[trigger]
                    adt_mentions(hir, adt, other) implies s.has_alias(other) by {
                    assert(s2.has_alias(other));
                }
                assert(s.adt_entry_ok(hir, item));
                assert forall|other: ItemId|
                    s.has_adt(other) && !s2.has_adt(other) implies #[trigger] s.adt_entry_ok(
                    hir,
                    other,
                ) by {
                    assert(other == item);
                }
                assert forall|other: ItemId|
                    s.has_alias(other) && !s2.has_alias(other) implies #[trigger] s.alias_entry_ok(
                    hir,
                    other,
                ) by {}
                lemma_wf_step(hir, &s2, s);
                lemma_extends_trans(old(s), &s2, s);
            }
        }
        let ghost s3 = *s;
        proof {
            assert(s3.has_adt(item));
            assert(s3.adt_entry_ok(hir, item));
        }
        let ty = s.adt(Ghost(hir), builder.adt);
        proof {
            lemma_extends_trans(old(s), &s3, s);
            lemma_adt_def_kept(hir, &s3, s, item);
        }
        (ty, builder.diags)
    }

    /// Lowers the declared generic parameters, in declaration order, and
    /// adds them to the parameters that the builder holds. A contract
    /// has none.
    pub fn collect_params(&mut self, hir: &Hir, s: &mut Session)
        requires
            old(s).wf(hir),
            adt_ref_ok(hir, old(self).adt),
        ensures
            final(s).wf(hir),
            final(s).same_queries(old(s)),
            final(s).extends(old(s)),
            final(s).alias_table() == old(s).alias_table(),
            final(self).adt == old(self).adt,
            final(self).variants == old(self).variants,
            final(self).diags == old(self).diags,
            final(self).params@.len() == old(self).params@.len() + generic_param_len(
                hir,
                old(self).adt.item_spec(),
            ),
            final(self).params@.subrange(0, old(self).params@.len() as int) == old(self).params@,
            final(s).types.contains_all(
                final(self).params@.subrange(
                    old(self).params@.len() as int,
                    final(self).params@.len() as int,
                ),
            ),
            final(s).types.views_of(
                final(self).params@.subrange(
                    old(self).params@.len() as int,
                    final(self).params@.len() as int,
                ),
            ) == generic_param_tys(hir, old(self).adt.item_spec()),
    {
        let item = self.adt.as_item();
        let count = match self.adt {
            AdtRef::Struct(_) => hir.generic_param_count(item),
            AdtRef::Enum(_) => hir.generic_param_count(item),
            AdtRef::Contract(_) => 0,
        };
        let ghost s0 = *s;
        let ghost held = self.params@;
        proof {
            lemma_same_queries_refl(s);
            assert(self.params@.subrange(0, held.len() as int) =~= held);
        }
        let mut idx: usize = 0;
        while idx < count
            invariant
                idx <= count,
                count == hir.items@[item.0 as int].generic_params_spec().len(),
                item.0 < hir.items@.len(),
                item == old(self).adt.item_spec(),
                held == old(self).params@,
                s0.wf(hir),
                s.wf(hir),
                s.same_queries(&s0),
                self.adt == old(self).adt,
                self.variants == old(self).variants,
                self.diags == old(self).diags,
                self.params@.len() == held.len() + idx,
                self.params@.subrange(0, held.len() as int) == held,
                forall|j: int|
                    0 <= j < idx ==> s.types.contains(self.params@[held.len() + j])
                        && s.types.view_of(self.params@[held.len() + j]) == #[trigger] generic_param_ty(
                        hir,
                        item,
                        j as usize,
                    ),
            decreases count - idx,
        {
            let ghost s1 = *s;
            let ghost before = self.params@;
            let param = lower_generic_param(hir, s, item, idx);
            proof {
                lemma_same_queries_trans(&s0, &s1, s);
                lemma_extends_keeps_trees(&s1.types, &s.types);
            }
            self.params.push(param);
            proof {
                assert(self.params@.subrange(0, held.len() as int) =~= before.subrange(
                    0,
                    held.len() as int,
                ));
                assert forall|j: int| 0 <= j < idx + 1 implies s.types.contains(
                    self.params@[held.len() + j],
                ) && s.types.view_of(self.params@[held.len() + j]) == #[trigger] generic_param_ty(
                    hir,
                    item,
                    j as usize,
                ) by {
                    if j < idx {
                        assert(self.params@[held.len() + j] == before[held.len() + j]);
                    }
                }
            }
            idx += 1;
        }
        proof {
            lemma_same_queries(hir, &s0, s);
            let added = self.params@.subrange(held.len() as int, self.params@.len() as int);
            assert forall|j: int| 0 <= j < added.len() implies s.types.contains(
                #[trigger] added[j],
            ) && s.types.view_of(added[j]) == generic_param_ty(hir, item, j as usize) by {
                assert(added[j] == self.params@[held.len() + j]);
                let _ = generic_param_ty(hir, item, j as usize);
            }
            assert(s.types.views_of(added) =~= generic_param_tys(hir, item));
        }
    }

    /// Collects the variants, in declaration order, and adds them to the
    /// variants that the builder holds: the one variant of a struct or
    /// contract, or one variant for each case of an enum.
    pub fn collect_variants(&mut self, hir: &Hir, s: &mut Session)
        requires
            old(s).wf(hir),
            adt_ref_ok(hir, old(self).adt),
        ensures
            final(s).wf(hir),
            final(s).extends(old(s)),
            final(self).adt == old(self).adt,
            final(self).params == old(self).params,
            final(self).diags == old(self).diags,
            old(self).variants@.len() <= final(self).variants@.len(),
            final(self).variants@.subrange(0, old(self).variants@.len() as int) == old(
                self,
            ).variants@,
            variants_built(
                hir,
                final(s),
                old(self).adt,
                final(self).variants@.subrange(
                    old(self).variants@.len() as int,
                    final(self).variants@.len() as int,
                ),
            ),
    {
        let item = self.adt.as_item();
        let ghost held = self.variants@;
        proof {
            assert(item_ok(hir.items@[item.0 as int], hir.tys@.len() as int));
        }
        match &hir.items[item.0] {
            Item::Struct(def) => {
                self.collect_field_types(hir, s, def.name, &def.fields);
            },
            Item::Contract(def) => {
                self.collect_field_types(hir, s, def.name, &def.fields);
            },
            Item::Enum(def) => {
                self.collect_enum_variant_types(hir, s, &def.variants);
            },
            _ => {},
        }
        proof {
            let built = self.variants@.subrange(held.len() as int, self.variants@.len() as int);
            let expected = adt_variants(hir, s.alias_table(), old(self).adt);
            assert forall|j: int| 0 <= j < built.len() implies s.types.contains_all(
                (#[trigger] built[j]).tys@,
            ) && variant_view(&s.types, &built[j]) == expected[j] by {
                assert(built[j] == self.variants@[held.len() + j]);
                match hir.items@[item.0 as int] {
                    Item::Enum(def) => {
                        let _ = def.variants@[j];
                    },
                    _ => {},
                }
            }
            assert(Seq::new(built.len(), |i: int| variant_view(&s.types, &built[i])) =~= expected);
        }
    }

    /// Adds the one variant of a struct or contract: the field types in
    /// declaration order, under the item's own name.
    fn collect_field_types(
        &mut self,
        hir: &Hir,
        s: &mut Session,
        name: Partial<IdentId>,
        fields: &Vec<FieldDef>,
    )
        requires
            old(s).wf(hir),
            fields_below(fields@, hir.tys@.len() as int),
        ensures
            final(s).wf(hir),
            final(s).extends(old(s)),
            final(self).adt == old(self).adt,
            final(self).params == old(self).params,
            final(self).diags == old(self).diags,
            final(self).variants@.len() == old(self).variants@.len() + 1,
            final(self).variants@.subrange(0, old(self).variants@.len() as int) == old(
                self,
            ).variants@,
            final(s).types.contains_all(
                final(self).variants@[old(self).variants@.len() as int].tys@,
            ),
            variant_view(
                &final(s).types,
                &final(self).variants@[old(self).variants@.len() as int],
            ) == record_variant_ty(
                hir,
                final(s).alias_table(),
                ScopeId::Item(old(self).adt.item_spec()),
                name,
                fields@,
            ),
            forall|other: ItemId|
                tys_mention(
                    hir,
                    ScopeId::Item(old(self).adt.item_spec()),
                    field_tys(fields@),
                    hir.tys@.len(),
                    other,
                ) ==> final(s).has_alias(other),
    {
        let scope = ScopeId::Item(self.adt.as_item());
        let builder = TyBuilder::new(scope);
        let mut list: Vec<Partial<HirTyId>> = Vec::new();
        let mut i: usize = 0;
        while i < fields.len()
            invariant
                i <= fields@.len(),
                list@.len() == i,
                fields_below(fields@, hir.tys@.len() as int),
                forall|j: int| 0 <= j < i ==> #[trigger] list@[j] == fields@[j].ty,
            decreases fields@.len() - i,
        {
            list.push(fields[i].ty);
            i += 1;
        }
        proof {
            assert(list@ =~= field_tys(fields@));
            assert forall|k: int| 0 <= k < list@.len() implies ty_below(
                #[trigger] list@[k],
                hir.tys@.len() as int,
            ) by {
                assert(ty_below(fields@[k].ty, hir.tys@.len() as int));
            }
        }
        let tys = builder.lower_list(
            hir,
            s,
            &list,
            Ghost(hir.tys@.len() as nat),
            Ghost(Seq::<ItemId>::empty()),
        );
        proof {
            lemma_lowered_all_views(hir, s, scope, list@, hir.tys@.len(), tys@);
        }
        self.variants.push(AdtVariant { name, tys });
        proof {
            assert(self.variants@.subrange(0, old(self).variants@.len() as int) =~= old(
                self,
            ).variants@);
        }
    }

    /// Adds one variant for each case of an enum, in declaration order: a
    /// case with a payload type has that one type, a case without has none.
    fn collect_enum_variant_types(&mut self, hir: &Hir, s: &mut Session, variants: &Vec<VariantDef>)
        requires
            old(s).wf(hir),
            variants_below(variants@, hir.tys@.len() as int),
        ensures
            final(s).wf(hir),
            final(s).extends(old(s)),
            final(self).adt == old(self).adt,
            final(self).params == old(self).params,
            final(self).diags == old(self).diags,
            final(self).variants@.len() == old(self).variants@.len() + variants@.len(),
            final(self).variants@.subrange(0, old(self).variants@.len() as int) == old(
                self,
            ).variants@,
            forall|j: int|
                0 <= j < variants@.len() ==> final(s).types.contains_all(
                    final(self).variants@[old(self).variants@.len() + j].tys@,
                ) && variant_view(
                    &final(s).types,
                    &final(self).variants@[old(self).variants@.len() + j],
                ) == enum_variant_ty(
                    hir,
                    final(s).alias_table(),
                    ScopeId::Item(old(self).adt.item_spec()),
                    #[trigger] variants@[j],
                ),
            forall|other: ItemId|
                tys_mention(
                    hir,
                    ScopeId::Item(old(self).adt.item_spec()),
                    payload_tys(variants@),
                    hir.tys@.len(),
                    other,
                ) ==> final(s).has_alias(other),
    {
        let scope = ScopeId::Item(self.adt.as_item());
        let builder = TyBuilder::new(scope);
        let ghost n_tys = hir.tys@.len();
        let ghost held = self.variants@;
        let mut i: usize = 0;
        proof {
            lemma_same_queries_refl(s);
            assert(self.variants@.subrange(0, held.len() as int) =~= held);
        }
        while i < variants.len()
            invariant
                i <= variants@.len(),
                n_tys == hir.tys@.len(),
                scope == ScopeId::Item(old(self).adt.item_spec()),
                builder.scope == scope,
                held == old(self).variants@,
                old(s).wf(hir),
                s.wf(hir),
                s.extends(old(s)),
                variants_below(variants@, hir.tys@.len() as int),
                self.adt == old(self).adt,
                self.params == old(self).params,
                self.diags == old(self).diags,
                self.variants@.len() == held.len() + i,
                self.variants@.subrange(0, held.len() as int) == held,
                forall|j: int|
                    0 <= j < i ==> variant_lowered(
                        hir,
                        s,
                        scope,
                        #[trigger] variants@[j],
                        &self.variants@[held.len() + j],
                    ),
            decreases variants@.len() - i,
        {
            let ghost s1 = *s;
            let ghost built1 = self.variants@;
            let variant = variants[i];
            let mut tys: Vec<TyId> = Vec::new();
            match variant.ty {
                Some(t) => {
                    proof {
                        assert(variants@[i as int].ty matches Some(t) ==> t.0 < n_tys);
                    }
                    let ty = builder.lower_partial(
                        hir,
                        s,
                        Partial::Present(t),
                        Ghost(n_tys),
                        Ghost(Seq::<ItemId>::empty()),
                    );
                    tys.push(ty);
                },
                None => {
                    proof {
                        lemma_same_queries_refl(s);
                    }
                },
            }
            self.variants.push(AdtVariant { name: variant.name, tys });
            proof {
                lemma_extends_trans(old(s), &s1, s);
                assert(self.variants@.subrange(0, held.len() as int) =~= built1.subrange(
                    0,
                    held.len() as int,
                ));
                assert forall|j: int| 0 <= j < i + 1 implies variant_lowered(
                    hir,
                    s,
                    scope,
                    #[trigger] variants@[j],
                    &self.variants@[held.len() + j],
                ) by {
                    if j < i {
                        assert(self.variants@[held.len() + j] == built1[held.len() + j]);
                        lemma_variant_kept(
                            hir,
                            &s1,
                            s,
                            scope,
                            variants@[j],
                            &built1[held.len() + j],
                        );
                    }
                }
            }
            i += 1;
        }
        proof {
            assert forall|j: int| 0 <= j < variants@.len() implies s.types.contains_all(
                self.variants@[held.len() + j].tys@,
            ) && variant_view(&s.types, &self.variants@[held.len() + j]) == enum_variant_ty(
                hir,
                s.alias_table(),
                scope,
                #[trigger] variants@[j],
            ) by {
                lemma_variant_view(hir, s, scope, variants@[j], &self.variants@[held.len() + j]);
            }
            assert forall|other: ItemId|
                tys_mention(hir, scope, payload_tys(variants@), n_tys, other) implies s.has_alias(
                other,
            ) by {
                lemma_tys_mention_index(hir, scope, payload_tys(variants@), n_tys, other);
                let j = choose|j: int|
                    0 <= j < payload_tys(variants@).len() && partial_mentions(
                        hir,
                        scope,
                        #[trigger] payload_tys(variants@)[j],
                        n_tys,
                        other,
                    );
                assert(variant_lowered(
                    hir,
                    s,
                    scope,
                    variants@[j],
                    &self.variants@[held.len() + j],
                ));
            }
        }
    }
}

/// The builder's variants are those of the declaration, lowered, with
/// every alias that they name resolved.
pub open spec fn variants_built(hir: &Hir, s: &Session, adt: AdtRef, built: Seq<AdtVariant>) -> bool {
    &&& forall|j: int| 0 <= j < built.len() ==> s.types.contains_all((#[trigger] built[j]).tys@)
    &&& Seq::new(built.len(), |i: int| variant_view(&s.types, &built[i])) == adt_variants(
        hir,
        s.alias_table(),
        adt,
    )
    &&& forall|other: ItemId| adt_mentions(hir, adt, other) ==> s.has_alias(other)
}

/// A kept definition stands for the same when only the type store grows.
pub proof fn lemma_adt_def_kept(hir: &Hir, s1: &Session, s2: &Session, item: ItemId)
    requires
        s1.wf(hir),
        s2.wf(hir),
        s2.extends(s1),
        s1.has_adt(item),
    ensures
        s2.has_adt(item),
        s2.adt_def_ty(item) == adt_def_ty(
            hir,
            s2.alias_table(),
            s2.adts@[item.0 as int]->0.value.adt,
        ),
        s2.adts@[item.0 as int]->0.value.adt == s1.adts@[item.0 as int]->0.value.adt,
{
    assert(s2.has_adt(item));
    assert(s2.adt_entry_ok(hir, item));
}

} // verus!
