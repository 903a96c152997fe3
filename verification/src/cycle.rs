//! Finding the type aliases whose definition leads back to themselves.

use vstd::prelude::*;
use vstd::set_lib::{lemma_int_range, lemma_len_subset, set_int_range};
use crate::hir::{
    arg_below, item_ok, lemma_children_below, ty_below, EarlyResolvedPath, GenericArg, Hir,
    HirTyId, HirTyKind, Item, ItemId, NameResKind, Partial, ScopeId,
};
use crate::model::{
    alias_is_recursive, alias_reaches, alias_refers, arg_tys, is_walk, names_alias,
    partial_mentions, ty_mentions, tys_mention,
};

verus! {

/// The alias that a resolved path names, if it names one.
pub fn named_alias(hir: &Hir, res: EarlyResolvedPath) -> (alias: Option<ItemId>)
    ensures
        alias matches Some(a) ==> names_alias(hir, res, a),
        forall|a: ItemId| names_alias(hir, res, a) ==> alias == Some(a),
{
    match res {
        EarlyResolvedPath::Full(bucket) => match bucket.ty {
            Ok(name) => match name.kind {
                NameResKind::Scope(ScopeId::Item(item)) => {
                    if item.0 < hir.items.len() {
                        match &hir.items[item.0] {
                            Item::TypeAlias(_) => Some(item),
                            _ => None,
                        }
                    } else {
                        None
                    }
                },
                _ => None,
            },
            Err(_) => None,
        },
        EarlyResolvedPath::Partial { .. } => None,
    }
}

/// Adds to `out` the aliases that the descriptor names.
fn collect_ty(hir: &Hir, scope: ScopeId, ty: HirTyId, out: &mut Vec<ItemId>)
    requires
        hir.wf(),
        ty.0 < hir.tys@.len(),
    ensures
        forall|a: ItemId|
            final(out)@.contains(a) <==> old(out)@.contains(a) || ty_mentions(hir, scope, ty, a),
    decreases ty.0 + 1, 0nat,
{
    broadcast use vstd::seq_lib::lemma_seq_contains_after_push;

    proof {
        lemma_children_below(hir, ty);
    }
    match &hir.tys[ty.0] {
        HirTyKind::Ptr(pointee) => {
            collect_partial(hir, scope, *pointee, Ghost(ty.0 as nat), out);
        },
        HirTyKind::Path(path, args) => {
            match path {
                Partial::Present(p) => {
                    match named_alias(hir, hir.resolve_path_early(*p, scope)) {
                        Some(a) => {
                            out.push(a);
                        },
                        None => {},
                    }
                },
                Partial::Absent => {},
            }
            collect_args(hir, scope, args, Ghost(ty.0 as nat), out);
        },
        HirTyKind::SelfType => {},
        HirTyKind::Tuple(elems) => {
            collect_list(hir, scope, elems, Ghost(ty.0 as nat), out);
        },
        HirTyKind::Array(_) => {},
    }
}

/// Adds to `out` the aliases that the generic arguments name.
fn collect_args(
    hir: &Hir,
    scope: ScopeId,
    args: &Vec<GenericArg>,
    Ghost(bound): Ghost<nat>,
    out: &mut Vec<ItemId>,
)
    requires
        hir.wf(),
        bound <= hir.tys@.len(),
        forall|k: int| 0 <= k < args@.len() ==> arg_below(#[trigger] args@[k], bound as int),
    ensures
        forall|a: ItemId|
            final(out)@.contains(a) <==> old(out)@.contains(a) || tys_mention(
                hir,
                scope,
                arg_tys(args@),
                bound,
                a,
            ),
    decreases bound, 2nat,
{
    let ghost list = arg_tys(args@);
    let mut i: usize = 0;
    proof {
        assert(list.subrange(0, 0) =~= Seq::<Partial<HirTyId>>::empty());
    }
    while i < args.len()
        invariant
            i <= args@.len(),
            hir.wf(),
            bound <= hir.tys@.len(),
            forall|k: int|
                0 <= k < args@.len() ==> arg_below(#[trigger] args@[k], bound as int),
            list == arg_tys(args@),
            forall|a: ItemId|
                out@.contains(a) <==> old(out)@.contains(a) || tys_mention(
                    hir,
                    scope,
                    list.subrange(0, i as int),
                    bound,
                    a,
                ),
        decreases args@.len() - i,
    {
        proof {
            assert(arg_below(args@[i as int], bound as int));
            assert(list.subrange(0, i + 1).drop_last() =~= list.subrange(0, i as int));
            assert(list.subrange(0, i + 1).last() == args@[i as int].ty());
        }
        match args[i] {
            GenericArg::Type(arg) => {
                collect_partial(hir, scope, arg, Ghost(bound), out);
            },
            GenericArg::Const => {},
        }
        i += 1;
    }
    proof {
        assert(list.subrange(0, list.len() as int) =~= list);
    }
}

/// Adds to `out` the aliases that the descriptors of a list name.
fn collect_list(
    hir: &Hir,
    scope: ScopeId,
    tys: &Vec<Partial<HirTyId>>,
    Ghost(bound): Ghost<nat>,
    out: &mut Vec<ItemId>,
)
    requires
        hir.wf(),
        bound <= hir.tys@.len(),
        forall|k: int| 0 <= k < tys@.len() ==> ty_below(#[trigger] tys@[k], bound as int),
    ensures
        forall|a: ItemId|
            final(out)@.contains(a) <==> old(out)@.contains(a) || tys_mention(
                hir,
                scope,
                tys@,
                bound,
                a,
            ),
    decreases bound, 2nat,
{
    let mut i: usize = 0;
    proof {
        assert(tys@.subrange(0, 0) =~= Seq::<Partial<HirTyId>>::empty());
    }
    while i < tys.len()
        invariant
            i <= tys@.len(),
            hir.wf(),
            bound <= hir.tys@.len(),
            forall|k: int|
                0 <= k < tys@.len() ==> ty_below(#[trigger] tys@[k], bound as int),
            forall|a: ItemId|
                out@.contains(a) <==> old(out)@.contains(a) || tys_mention(
                    hir,
                    scope,
                    tys@.subrange(0, i as int),
                    bound,
                    a,
                ),
        decreases tys@.len() - i,
    {
        proof {
            assert(ty_below(tys@[i as int], bound as int));
            assert(tys@.subrange(0, i + 1).drop_last() =~= tys@.subrange(0, i as int));
            assert(tys@.subrange(0, i + 1).last() == tys@[i as int]);
        }
        collect_partial(hir, scope, tys[i], Ghost(bound), out);
        i += 1;
    }
    proof {
        assert(tys@.subrange(0, tys@.len() as int) =~= tys@);
    }
}

/// Adds to `out` the aliases that a descriptor names which may be absent.
fn collect_partial(
    hir: &Hir,
    scope: ScopeId,
    ty: Partial<HirTyId>,
    Ghost(bound): Ghost<nat>,
    out: &mut Vec<ItemId>,
)
    requires
        hir.wf(),
        ty_below(ty, bound as int),
        bound <= hir.tys@.len(),
    ensures
        forall|a: ItemId|
            final(out)@.contains(a) <==> old(out)@.contains(a) || partial_mentions(
                hir,
                scope,
                ty,
                bound,
                a,
            ),
    decreases bound, 1nat,
{
    match ty {
        Partial::Present(t) => {
            collect_ty(hir, scope, t, out);
        },
        Partial::Absent => {},
    }
}

/// The aliases that the definition of `alias` names.
pub fn alias_refs(hir: &Hir, alias: ItemId) -> (refs: Vec<ItemId>)
    requires
        hir.wf(),
        alias.0 < hir.items@.len(),
    ensures
        forall|a: ItemId| refs@.contains(a) <==> alias_refers(hir, alias, a),
{
    let mut refs: Vec<ItemId> = Vec::new();
    match &hir.items[alias.0] {
        Item::TypeAlias(def) => {
            assert(item_ok(hir.items@[alias.0 as int], hir.tys@.len() as int));
            collect_partial(
                hir,
                ScopeId::Item(alias),
                def.ty,
                Ghost(hir.tys@.len() as nat),
                &mut refs,
            );
        },
        _ => {},
    }
    refs
}

/// The positions that are not marked.
pub open spec fn unvisited(visited: Seq<bool>) -> Set<int> {
    Set::new(|i: int| 0 <= i < visited.len() && !visited[i])
}

proof fn lemma_unvisited_finite(visited: Seq<bool>)
    ensures
        unvisited(visited).finite(),
{
    lemma_int_range(0, visited.len() as int);
    lemma_len_subset(unvisited(visited), set_int_range(0, visited.len() as int));
}

proof fn lemma_mark(visited: Seq<bool>, at: int)
    requires
        0 <= at < visited.len(),
        !visited[at],
    ensures
        unvisited(visited.update(at, true)).len() + 1 == unvisited(visited).len(),
{
    lemma_unvisited_finite(visited);
    assert(unvisited(visited.update(at, true)) =~= unvisited(visited).remove(at));
    vstd::set::axiom_set_remove_len(unvisited(visited), at);
}

/// Whether the item is marked.
pub open spec fn marked(visited: Seq<bool>, item: ItemId) -> bool {
    item.0 < visited.len() && visited[item.0 as int]
}

/// Every marked item is one that the definition of `alias` leads to.
pub open spec fn marks_sound(hir: &Hir, alias: ItemId, visited: Seq<bool>) -> bool {
    forall|item: ItemId| #[trigger] marked(visited, item) ==> alias_reaches(hir, alias, item)
}

/// Every item that waits to be looked at is marked.
pub open spec fn work_marked(work: Seq<ItemId>, visited: Seq<bool>) -> bool {
    forall|k: int| 0 <= k < work.len() ==> marked(visited, #[trigger] work[k])
}

/// Every alias that the definition of `item` names is marked.
pub open spec fn closed_at(hir: &Hir, visited: Seq<bool>, item: ItemId) -> bool {
    forall|w: ItemId| #[trigger] alias_refers(hir, item, w) ==> marked(visited, w)
}

/// Every marked item either waits to be looked at or has been.
pub open spec fn settled(hir: &Hir, visited: Seq<bool>, work: Seq<ItemId>) -> bool {
    forall|item: ItemId| #[trigger]
        marked(visited, item) ==> work.contains(item) || closed_at(hir, visited, item)
}

proof fn lemma_reaches_edge(hir: &Hir, from: ItemId, to: ItemId)
    requires
        alias_refers(hir, from, to),
    ensures
        alias_reaches(hir, from, to),
{
    let walk = seq![from, to];
    assert(is_walk(hir, walk));
    assert(walk.first() == from && walk.last() == to);
}

proof fn lemma_reaches_step(hir: &Hir, from: ItemId, via: ItemId, to: ItemId)
    requires
        alias_reaches(hir, from, via),
        alias_refers(hir, via, to),
    ensures
        alias_reaches(hir, from, to),
{
    let walk = choose|walk: Seq<ItemId>| #[trigger]
        is_walk(hir, walk) && walk.first() == from && walk.last() == via;
    let longer = walk.push(to);
    assert forall|i: int| 0 <= i < longer.len() - 1 implies alias_refers(
        hir,
        #[trigger] longer[i],
        longer[i + 1],
    ) by {
        if i < walk.len() - 1 {
            assert(alias_refers(hir, walk[i], walk[i + 1]));
        }
    }
    assert(is_walk(hir, longer));
    assert(longer.first() == from && longer.last() == to);
}

/// Where the marks are closed under "names in its definition", a walk
/// from `alias` stays among the marked items.
proof fn lemma_closed_walk(hir: &Hir, alias: ItemId, visited: Seq<bool>, walk: Seq<ItemId>, k: int)
    requires
        is_walk(hir, walk),
        walk.first() == alias,
        closed_at(hir, visited, alias),
        forall|item: ItemId| #[trigger] marked(visited, item) ==> closed_at(hir, visited, item),
        1 <= k < walk.len(),
    ensures
        marked(visited, walk[k]),
    decreases k,
{
    assert(alias_refers(hir, walk[k - 1], walk[k]));
    if k > 1 {
        lemma_closed_walk(hir, alias, visited, walk, k - 1);
        assert(closed_at(hir, visited, walk[k - 1]));
    }
}

/// Marks the items of `found` that are not marked yet, and puts them on
/// the list of those to look at.
fn visit_all(
    Ghost(hir): Ghost<&Hir>,
    Ghost(alias): Ghost<ItemId>,
    found: &Vec<ItemId>,
    visited: &mut Vec<bool>,
    work: &mut Vec<ItemId>,
)
    requires
        forall|k: int|
            0 <= k < found@.len() ==> (#[trigger] found@[k]).0 < old(visited)@.len()
                && alias_reaches(hir, alias, found@[k]),
        marks_sound(hir, alias, old(visited)@),
        work_marked(old(work)@, old(visited)@),
    ensures
        final(visited)@.len() == old(visited)@.len(),
        forall|item: ItemId| #[trigger]
            marked(old(visited)@, item) ==> marked(final(visited)@, item),
        forall|k: int| 0 <= k < found@.len() ==> marked(final(visited)@, #[trigger] found@[k]),
        marks_sound(hir, alias, final(visited)@),
        work_marked(final(work)@, final(visited)@),
        old(work)@.len() <= final(work)@.len(),
        final(work)@.subrange(0, old(work)@.len() as int) == old(work)@,
        forall|item: ItemId| #[trigger]
            marked(final(visited)@, item) && !marked(old(visited)@, item) ==> final(work)@.contains(
                item,
            ),
        unvisited(final(visited)@).len() + final(work)@.len() <= unvisited(old(visited)@).len()
            + old(work)@.len(),
{
    broadcast use vstd::seq_lib::lemma_seq_contains_after_push;

    let mut k: usize = 0;
    proof {
        assert(work@.subrange(0, work@.len() as int) =~= work@);
    }
    while k < found.len()
        invariant
            k <= found@.len(),
            visited@.len() == old(visited)@.len(),
            forall|j: int|
                0 <= j < found@.len() ==> (#[trigger] found@[j]).0 < visited@.len()
                    && alias_reaches(hir, alias, found@[j]),
            forall|item: ItemId| #[trigger] marked(old(visited)@, item) ==> marked(visited@, item),
            forall|j: int| 0 <= j < k ==> marked(visited@, #[trigger] found@[j]),
            marks_sound(hir, alias, visited@),
            work_marked(work@, visited@),
            old(work)@.len() <= work@.len(),
            work@.subrange(0, old(work)@.len() as int) == old(work)@,
            forall|item: ItemId| #[trigger]
                marked(visited@, item) && !marked(old(visited)@, item) ==> work@.contains(item),
            unvisited(visited@).len() + work@.len() <= unvisited(old(visited)@).len()
                + old(work)@.len(),
        decreases found@.len() - k,
    {
        let item = found[k];
        if !visited[item.0] {
            let ghost before = visited@;
            let ghost work_before = work@;
            proof {
                lemma_mark(visited@, item.0 as int);
            }
            visited.set(item.0, true);
            work.push(item);
            proof {
                assert(work@.subrange(0, old(work)@.len() as int) =~= work_before.subrange(
                    0,
                    old(work)@.len() as int,
                ));
                assert forall|x: ItemId| #[trigger] marked(visited@, x) implies marked(before, x)
                    || x == item by {}
                assert forall|x: ItemId| #[trigger] marked(before, x) implies marked(
                    visited@,
                    x,
                ) by {}
                assert forall|x: ItemId| #[trigger] marked(visited@, x) implies alias_reaches(
                    hir,
                    alias,
                    x,
                ) by {
                    if x != item {
                        assert(marked(before, x));
                    }
                }
                assert forall|j: int| 0 <= j < work@.len() implies marked(
                    visited@,
                    #[trigger] work@[j],
                ) by {
                    if j < work_before.len() {
                        assert(marked(before, work_before[j]));
                    }
                }
                assert forall|x: ItemId| #[trigger]
                    marked(visited@, x) && !marked(old(visited)@, x) implies work@.contains(x) by {
                    if x != item {
                        assert(marked(before, x));
                        assert(work_before.contains(x));
                        let j = choose|j: int| 0 <= j < work_before.len() && work_before[j] == x;
                        assert(work@[j] == x);
                    } else {
                        assert(work@[work@.len() - 1] == x);
                    }
                }
                assert forall|j: int| 0 <= j < k + 1 implies marked(
                    visited@,
                    #[trigger] found@[j],
                ) by {
                    if j < k {
                        assert(marked(before, found@[j]));
                    }
                }
            }
        }
        k += 1;
    }
}

/// Decides whether the definition of the alias leads back to the alias
/// itself, directly or through other aliases.
pub fn is_recursive_alias(hir: &Hir, alias: ItemId) -> (r: bool)
    requires
        hir.wf(),
        alias.0 < hir.items@.len(),
    ensures
        r == alias_is_recursive(hir, alias),
{
    let n = hir.items.len();
    let mut visited: Vec<bool> = Vec::new();
    let mut i: usize = 0;
    while i < n
        invariant
            i <= n,
            visited@.len() == i,
            forall|v: int| 0 <= v < i ==> !#[trigger] visited@[v],
        decreases n - i,
    {
        visited.push(false);
        i += 1;
    }
    let mut work: Vec<ItemId> = Vec::new();
    let first = alias_refs(hir, alias);
    proof {
        assert forall|k: int| 0 <= k < first@.len() implies (#[trigger] first@[k]).0 < visited@.len()
            && alias_reaches(hir, alias, first@[k]) by {
            assert(first@.contains(first@[k]));
            lemma_reaches_edge(hir, alias, first@[k]);
            lemma_refers_in_range(hir, alias, first@[k]);
        }
        assert forall|item: ItemId| #[trigger] marked(visited@, item) implies false by {}
    }
    visit_all(Ghost(hir), Ghost(alias), &first, &mut visited, &mut work);
    proof {
        assert forall|w: ItemId| #[trigger] alias_refers(hir, alias, w) implies marked(
            visited@,
            w,
        ) by {
            assert(first@.contains(w));
            let k = choose|k: int| 0 <= k < first@.len() && first@[k] == w;
            assert(marked(visited@, first@[k]));
        }
    }
    while work.len() > 0
        invariant
            hir.wf(),
            alias.0 < hir.items@.len(),
            visited@.len() == hir.items@.len(),
            marks_sound(hir, alias, visited@),
            work_marked(work@, visited@),
            settled(hir, visited@, work@),
            closed_at(hir, visited@, alias),
        decreases unvisited(visited@).len(), work@.len(),
    {
        let ghost visited0 = visited@;
        let ghost work0 = work@;
        let item = work.pop().unwrap();
        let ghost work1 = work@;
        let found = alias_refs(hir, item);
        proof {
            assert(work0[work0.len() - 1] == item);
            assert(marked(visited0, work0[work0.len() - 1]));
            assert forall|k: int| 0 <= k < found@.len() implies (#[trigger] found@[k]).0
                < visited@.len() && alias_reaches(hir, alias, found@[k]) by {
                assert(found@.contains(found@[k]));
                lemma_reaches_step(hir, alias, item, found@[k]);
                lemma_refers_in_range(hir, item, found@[k]);
            }
            assert forall|j: int| 0 <= j < work1.len() implies marked(
                visited@,
                #[trigger] work1[j],
            ) by {
                assert(work0[j] == work1[j]);
            }
        }
        visit_all(Ghost(hir), Ghost(alias), &found, &mut visited, &mut work);
        proof {
            let ghost visited2 = visited@;
            let ghost work2 = work@;
            assert(closed_at(hir, visited2, item)) by {
                assert forall|w: ItemId| #[trigger] alias_refers(hir, item, w) implies marked(
                    visited2,
                    w,
                ) by {
                    assert(found@.contains(w));
                    let k = choose|k: int| 0 <= k < found@.len() && found@[k] == w;
                    assert(marked(visited2, found@[k]));
                }
            }
            assert forall|x: ItemId| #[trigger] marked(visited2, x) implies work2.contains(x)
                || closed_at(hir, visited2, x) by {
                if x == item {
                } else if !marked(visited0, x) {
                } else {
                    if work0.contains(x) {
                        let j = choose|j: int| 0 <= j < work0.len() && work0[j] == x;
                        assert(j < work1.len());
                        assert(work1[j] == x);
                        assert(work2.subrange(0, work1.len() as int)[j] == work2[j]);
                        assert(work2[j] == x);
                    } else {
                        assert(closed_at(hir, visited0, x));
                        assert forall|w: ItemId| #[trigger] alias_refers(hir, x, w) implies marked(
                            visited2,
                            w,
                        ) by {
                            assert(marked(visited0, w));
                        }
                    }
                }
            }
            assert forall|w: ItemId| #[trigger] alias_refers(hir, alias, w) implies marked(
                visited2,
                w,
            ) by {
                assert(marked(visited0, w));
            }
        }
    }
    let r = visited[alias.0];
    proof {
        if r {
            assert(marked(visited@, alias));
        }
        if alias_is_recursive(hir, alias) {
            let walk = choose|walk: Seq<ItemId>| #[trigger]
                is_walk(hir, walk) && walk.first() == alias && walk.last() == alias;
            assert forall|item: ItemId| #[trigger] marked(visited@, item) implies closed_at(
                hir,
                visited@,
                item,
            ) by {
                assert(!work@.contains(item));
            }
            lemma_closed_walk(hir, alias, visited@, walk, walk.len() - 1);
        }
    }
    r
}

/// An alias that a definition names is an item of the program.
proof fn lemma_refers_in_range(hir: &Hir, from: ItemId, to: ItemId)
    requires
        alias_refers(hir, from, to),
    ensures
        to.0 < hir.items@.len(),
{
    let def = hir.items@[from.0 as int]->TypeAlias_0;
    lemma_partial_mentions_in_range(hir, ScopeId::Item(from), def.ty, hir.tys@.len(), to);
}

proof fn lemma_ty_mentions_in_range(hir: &Hir, scope: ScopeId, ty: HirTyId, alias: ItemId)
    requires
        ty_mentions(hir, scope, ty, alias),
    ensures
        alias.0 < hir.items@.len(),
    decreases ty.0 + 1, 0nat,
{
    match hir.tys@[ty.0 as int] {
        HirTyKind::Ptr(pointee) => {
            lemma_partial_mentions_in_range(hir, scope, pointee, ty.0 as nat, alias);
        },
        HirTyKind::Path(path, args) => {
            if tys_mention(hir, scope, arg_tys(args@), ty.0 as nat, alias) {
                lemma_tys_mention_in_range(hir, scope, arg_tys(args@), ty.0 as nat, alias);
            }
        },
        HirTyKind::Tuple(elems) => {
            lemma_tys_mention_in_range(hir, scope, elems@, ty.0 as nat, alias);
        },
        _ => {},
    }
}

proof fn lemma_partial_mentions_in_range(
    hir: &Hir,
    scope: ScopeId,
    ty: Partial<HirTyId>,
    bound: nat,
    alias: ItemId,
)
    requires
        partial_mentions(hir, scope, ty, bound, alias),
    ensures
        alias.0 < hir.items@.len(),
    decreases bound, 1nat,
{
    match ty {
        Partial::Present(t) => {
            lemma_ty_mentions_in_range(hir, scope, t, alias);
        },
        Partial::Absent => {},
    }
}

proof fn lemma_tys_mention_in_range(
    hir: &Hir,
    scope: ScopeId,
    tys: Seq<Partial<HirTyId>>,
    bound: nat,
    alias: ItemId,
)
    requires
        tys_mention(hir, scope, tys, bound, alias),
    ensures
        alias.0 < hir.items@.len(),
    decreases bound, 2 + tys.len(),
{
    if tys_mention(hir, scope, tys.drop_last(), bound, alias) {
        lemma_tys_mention_in_range(hir, scope, tys.drop_last(), bound, alias);
    } else {
        lemma_partial_mentions_in_range(hir, scope, tys.last(), bound, alias);
    }
}

} // verus!
