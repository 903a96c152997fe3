//! Semantic types. A type is a tree; the store keeps each distinct tree
//! once and hands out a handle for it, so that two handles are equal
//! exactly when the trees are.

use vstd::prelude::*;
use crate::hir::{Hir, IdentId, ItemId, PrimTy};

verus! {

/// Why a type is invalid.
#[derive(Clone, Copy, Debug, PartialEq, Eq, Hash, Structural)]
pub enum InvalidCause {
    /// Anything that has been reported elsewhere or has no class of its own.
    Other,
    /// A type constructor that still waits for arguments, where a complete
    /// type is needed.
    NotFullyApplied,
    /// A path into an associated type.
    AssocTy,
    /// A path that names an item which is no type.
    ReferenceToNonType,
}

/// The kind of a type parameter. There is one kind so far.
#[derive(Clone, Copy, Debug, PartialEq, Eq, Hash, Structural)]
pub enum Kind {
    Star,
}

/// A generic parameter as a type.
#[derive(Clone, Copy, Debug, PartialEq, Eq, Hash, Structural)]
pub struct TyParam {
    pub name: IdentId,
    pub idx: usize,
    pub kind: Kind,
}

/// The item that an algebraic type comes from.
#[derive(Clone, Copy, Debug, PartialEq, Eq, Hash, Structural)]
pub enum AdtRef {
    Struct(ItemId),
    Enum(ItemId),
    Contract(ItemId),
}

impl AdtRef {
    pub open spec fn item_spec(self) -> ItemId {
        match self {
            AdtRef::Struct(item) => item,
            AdtRef::Enum(item) => item,
            AdtRef::Contract(item) => item,
        }
    }

    /// The item that the reference points at.
    #[verifier::when_used_as_spec(item_spec)]
    pub fn as_item(self) -> (item: ItemId)
        ensures
            item == self.item_spec(),
    {
        match self {
            AdtRef::Struct(item) => item,
            AdtRef::Enum(item) => item,
            AdtRef::Contract(item) => item,
        }
    }

    pub fn from_struct(item: ItemId) -> (r: AdtRef)
        ensures
            r == AdtRef::Struct(item),
    {
        AdtRef::Struct(item)
    }

    pub fn from_enum(item: ItemId) -> (r: AdtRef)
        ensures
            r == AdtRef::Enum(item),
    {
        AdtRef::Enum(item)
    }

    pub fn from_contract(item: ItemId) -> (r: AdtRef)
        ensures
            r == AdtRef::Contract(item),
    {
        AdtRef::Contract(item)
    }
}

/// A handle for a type in a [`TyStore`].
#[derive(Clone, Copy, Debug, PartialEq, Eq, Hash, Structural)]
pub struct TyId(pub usize);

/// One node of a stored type: its shape, with handles for the parts.
#[derive(Clone, Copy, Debug, PartialEq, Eq, Hash, Structural)]
pub enum TyData {
    Prim(PrimTy),
    /// The pointer constructor, which waits for the pointee.
    Ptr,
    /// The tuple constructor of the given arity, which waits for the elements.
    Tuple(usize),
    TyParam(TyParam),
    Adt(AdtRef),
    /// A type applied to an argument.
    App(TyId, TyId),
    Unit,
    /// The type that constrains nothing.
    Bot,
    Invalid(InvalidCause),
    /// An inference variable, by its number.
    Var(usize),
}

/// A type as a tree: what a handle stands for.
pub enum Ty {
    Prim(PrimTy),
    Ptr,
    Tuple(usize),
    Param(TyParam),
    Adt(AdtRef),
    App(Box<Ty>, Box<Ty>),
    Unit,
    Bot,
    Invalid(InvalidCause),
    Var(usize),
}

/// The tree of the node at position `i`.
pub open spec fn ty_at(nodes: Seq<TyData>, i: int) -> Ty
    decreases i,
{
    if i < 0 || i >= nodes.len() {
        Ty::Invalid(InvalidCause::Other)
    } else {
        match nodes[i] {
            TyData::Prim(p) => Ty::Prim(p),
            TyData::Ptr => Ty::Ptr,
            TyData::Tuple(n) => Ty::Tuple(n),
            TyData::TyParam(p) => Ty::Param(p),
            TyData::Adt(adt) => Ty::Adt(adt),
            TyData::App(base, arg) => if base.0 < i && arg.0 < i {
                Ty::App(Box::new(ty_at(nodes, base.0 as int)), Box::new(ty_at(nodes, arg.0 as int)))
            } else {
                Ty::Invalid(InvalidCause::Other)
            },
            TyData::Unit => Ty::Unit,
            TyData::Bot => Ty::Bot,
            TyData::Invalid(cause) => Ty::Invalid(cause),
            TyData::Var(v) => Ty::Var(v),
        }
    }
}

/// The tree that a node describes, given the trees of its parts.
pub open spec fn data_ty(nodes: Seq<TyData>, data: TyData) -> Ty {
    match data {
        TyData::Prim(p) => Ty::Prim(p),
        TyData::Ptr => Ty::Ptr,
        TyData::Tuple(n) => Ty::Tuple(n),
        TyData::TyParam(p) => Ty::Param(p),
        TyData::Adt(adt) => Ty::Adt(adt),
        TyData::App(base, arg) => Ty::App(
            Box::new(ty_at(nodes, base.0 as int)),
            Box::new(ty_at(nodes, arg.0 as int)),
        ),
        TyData::Unit => Ty::Unit,
        TyData::Bot => Ty::Bot,
        TyData::Invalid(cause) => Ty::Invalid(cause),
        TyData::Var(v) => Ty::Var(v),
    }
}

/// Applying `base` to `arg`. An invalid part makes the whole invalid, for
/// the same cause, the base's first.
pub open spec fn app_ty(base: Ty, arg: Ty) -> Ty {
    if base is Invalid {
        base
    } else if arg is Invalid {
        arg
    } else {
        Ty::App(Box::new(base), Box::new(arg))
    }
}

/// Applying `base` to each of `args` in turn.
pub open spec fn app_all(base: Ty, args: Seq<Ty>) -> Ty
    decreases args.len(),
{
    if args.len() == 0 {
        base
    } else {
        app_ty(app_all(base, args.drop_last()), args.last())
    }
}

/// The tuple constructor of the given arity; of arity zero, the unit type.
pub open spec fn tuple_ctor(arity: usize) -> Ty {
    if arity == 0 {
        Ty::Unit
    } else {
        Ty::Tuple(arity)
    }
}

/// How many generic parameters an algebraic type declares.
pub open spec fn adt_param_count(hir: &Hir, adt: AdtRef) -> nat {
    if adt.item_spec().0 < hir.items@.len() {
        hir.items@[adt.item_spec().0 as int].generic_params_spec().len()
    } else {
        0
    }
}

/// How many arguments the type still waits for.
pub open spec fn arity(hir: &Hir, ty: Ty) -> nat
    decreases ty,
{
    match ty {
        Ty::Ptr => 1,
        Ty::Tuple(n) => n as nat,
        Ty::Adt(adt) => adt_param_count(hir, adt),
        Ty::App(base, _) => {
            let waiting = arity(hir, *base);
            if waiting > 0 {
                (waiting - 1) as nat
            } else {
                0
            }
        },
        _ => 0,
    }
}

/// Whether the type is fully applied: it waits for no argument.
pub open spec fn is_mono(hir: &Hir, ty: Ty) -> bool {
    arity(hir, ty) == 0
}

/// The type store. Every distinct type is in it at most once.
#[derive(Debug)]
pub struct TyStore {
    pub nodes: Vec<TyData>,
}

impl TyStore {
    /// The parts of an application stand before it and are not invalid,
    /// and no node occurs twice.
    pub open spec fn wf(&self) -> bool {
        store_wf(self.nodes@)
    }

    /// Whether the handle is one of this store.
    pub open spec fn contains(&self, id: TyId) -> bool {
        id.0 < self.nodes@.len()
    }

    /// The type that the handle stands for.
    pub open spec fn view_of(&self, id: TyId) -> Ty {
        ty_at(self.nodes@, id.0 as int)
    }

    /// The types that the handles stand for, in order.
    pub open spec fn views_of(&self, ids: Seq<TyId>) -> Seq<Ty> {
        Seq::new(ids.len(), |i: int| self.view_of(ids[i]))
    }

    /// Whether every handle of the list is one of this store.
    pub open spec fn contains_all(&self, ids: Seq<TyId>) -> bool {
        forall|i: int| 0 <= i < ids.len() ==> self.contains(#[trigger] ids[i])
    }

    /// Whether this store holds everything that `old` held, under the same handles.
    pub open spec fn extends(&self, old: &TyStore) -> bool {
        old.nodes@.len() <= self.nodes@.len() && self.nodes@.subrange(0, old.nodes@.len() as int)
            == old.nodes@
    }

    /// Whether the store holds a handle for the given type.
    pub open spec fn has(&self, ty: Ty) -> bool {
        exists|id: TyId| self.contains(id) && #[trigger] self.view_of(id) == ty
    }

    pub fn new() -> (store: TyStore)
        ensures
            store.wf(),
            store.nodes@.len() == 0,
    {
        TyStore { nodes: Vec::new() }
    }

    /// The node behind a handle.
    pub fn data(&self, id: TyId) -> (data: TyData)
        requires
            self.wf(),
            self.contains(id),
        ensures
            data == self.nodes@[id.0 as int],
            data_ty(self.nodes@, data) == self.view_of(id),
            data matches TyData::App(base, arg) ==> base.0 < id.0 && arg.0 < id.0,
    {
        self.nodes[id.0]
    }

    /// The handle of the node `data`, which is added if the store lacks it.
    fn intern(&mut self, data: TyData) -> (id: TyId)
        requires
            old(self).wf(),
            data matches TyData::App(base, arg) ==> old(self).contains(base) && old(self).contains(
                arg,
            ) && !(old(self).view_of(base) is Invalid) && !(old(self).view_of(arg) is Invalid),
        ensures
            final(self).wf(),
            final(self).extends(old(self)),
            final(self).contains(id),
            final(self).nodes@[id.0 as int] == data,
            final(self).view_of(id) == data_ty(old(self).nodes@, data),
            old(self).has(data_ty(old(self).nodes@, data)) ==> final(self).nodes@ == old(
                self,
            ).nodes@,
    {
        let mut i: usize = 0;
        while i < self.nodes.len()
            invariant
                i <= self.nodes@.len(),
                self.nodes@ == old(self).nodes@,
                store_wf(self.nodes@),
                forall|j: int| 0 <= j < i ==> #[trigger] self.nodes@[j] != data,
            decreases self.nodes@.len() - i,
        {
            if self.nodes[i] == data {
                proof {
                    assert(self.nodes@.subrange(0, self.nodes@.len() as int) =~= self.nodes@);
                }
                return TyId(i);
            }
            i += 1;
        }
        proof {
            if old(self).has(data_ty(old(self).nodes@, data)) {
                let other = choose|other: TyId|
                    old(self).contains(other) && #[trigger] old(self).view_of(other) == data_ty(
                        old(self).nodes@,
                        data,
                    );
                lemma_same_tree_same_node(old(self).nodes@, other.0 as int, data);
                assert(false);
            }
        }
        self.nodes.push(data);
        proof {
            assert(self.nodes@.subrange(0, old(self).nodes@.len() as int) =~= old(self).nodes@);
            match data {
                TyData::App(base, arg) => {
                    lemma_prefix_keeps_tree(old(self).nodes@, self.nodes@, base.0 as int);
                    lemma_prefix_keeps_tree(old(self).nodes@, self.nodes@, arg.0 as int);
                },
                _ => {},
            }
        }
        TyId(i)
    }

    /// The built-in type `prim`.
    pub fn prim(&mut self, prim: PrimTy) -> (id: TyId)
        requires
            old(self).wf(),
        ensures
            final(self).wf(),
            final(self).extends(old(self)),
            final(self).contains(id),
            final(self).view_of(id) == Ty::Prim(prim),
    {
        self.intern(TyData::Prim(prim))
    }

    /// The pointer constructor.
    pub fn ptr(&mut self) -> (id: TyId)
        requires
            old(self).wf(),
        ensures
            final(self).wf(),
            final(self).extends(old(self)),
            final(self).contains(id),
            final(self).view_of(id) == Ty::Ptr,
    {
        self.intern(TyData::Ptr)
    }

    /// The tuple constructor of the given arity; of arity zero, the unit type.
    pub fn tuple(&mut self, arity: usize) -> (id: TyId)
        requires
            old(self).wf(),
        ensures
            final(self).wf(),
            final(self).extends(old(self)),
            final(self).contains(id),
            final(self).view_of(id) == tuple_ctor(arity),
    {
        if arity == 0 {
            self.intern(TyData::Unit)
        } else {
            self.intern(TyData::Tuple(arity))
        }
    }

    /// The unit type.
    pub fn unit(&mut self) -> (id: TyId)
        requires
            old(self).wf(),
        ensures
            final(self).wf(),
            final(self).extends(old(self)),
            final(self).contains(id),
            final(self).view_of(id) == Ty::Unit,
    {
        self.intern(TyData::Unit)
    }

    /// The type that constrains nothing.
    pub fn bot(&mut self) -> (id: TyId)
        requires
            old(self).wf(),
        ensures
            final(self).wf(),
            final(self).extends(old(self)),
            final(self).contains(id),
            final(self).view_of(id) == Ty::Bot,
    {
        self.intern(TyData::Bot)
    }

    /// The boolean type.
    pub fn bool(&mut self) -> (id: TyId)
        requires
            old(self).wf(),
        ensures
            final(self).wf(),
            final(self).extends(old(self)),
            final(self).contains(id),
            final(self).view_of(id) == Ty::Prim(PrimTy::Bool),
    {
        self.intern(TyData::Prim(PrimTy::Bool))
    }

    /// The invalid type with the given cause.
    pub fn invalid(&mut self, cause: InvalidCause) -> (id: TyId)
        requires
            old(self).wf(),
        ensures
            final(self).wf(),
            final(self).extends(old(self)),
            final(self).contains(id),
            final(self).view_of(id) == Ty::Invalid(cause),
    {
        self.intern(TyData::Invalid(cause))
    }

    /// The generic parameter `param` as a type.
    pub fn ty_param(&mut self, param: TyParam) -> (id: TyId)
        requires
            old(self).wf(),
        ensures
            final(self).wf(),
            final(self).extends(old(self)),
            final(self).contains(id),
            final(self).view_of(id) == Ty::Param(param),
    {
        self.intern(TyData::TyParam(param))
    }

    /// The algebraic type that comes from `adt`.
    pub fn adt(&mut self, adt: AdtRef) -> (id: TyId)
        requires
            old(self).wf(),
        ensures
            final(self).wf(),
            final(self).extends(old(self)),
            final(self).contains(id),
            final(self).view_of(id) == Ty::Adt(adt),
    {
        self.intern(TyData::Adt(adt))
    }

    /// The inference variable with the given number.
    pub fn var(&mut self, number: usize) -> (id: TyId)
        requires
            old(self).wf(),
        ensures
            final(self).wf(),
            final(self).extends(old(self)),
            final(self).contains(id),
            final(self).view_of(id) == Ty::Var(number),
    {
        self.intern(TyData::Var(number))
    }

    /// Applies `base` to `arg`. An invalid part is handed back in place of
    /// an application.
    pub fn app(&mut self, base: TyId, arg: TyId) -> (id: TyId)
        requires
            old(self).wf(),
            old(self).contains(base),
            old(self).contains(arg),
        ensures
            final(self).wf(),
            final(self).extends(old(self)),
            final(self).contains(id),
            final(self).view_of(id) == app_ty(old(self).view_of(base), old(self).view_of(arg)),
    {
        proof {
            assert(self.nodes@.subrange(0, self.nodes@.len() as int) =~= self.nodes@);
        }
        if self.is_invalid(base) {
            base
        } else if self.is_invalid(arg) {
            arg
        } else {
            self.intern(TyData::App(base, arg))
        }
    }

    /// Whether the type is invalid.
    pub fn is_invalid(&self, id: TyId) -> (r: bool)
        requires
            self.wf(),
            self.contains(id),
        ensures
            r == (self.view_of(id) is Invalid),
    {
        match self.data(id) {
            TyData::Invalid(_) => true,
            _ => false,
        }
    }

    /// Whether the type is fully applied, as a type of the program `hir`.
    pub fn is_mono_type(&self, hir: &Hir, id: TyId) -> (r: bool)
        requires
            self.wf(),
            self.contains(id),
        ensures
            r == is_mono(hir, self.view_of(id)),
    {
        let mut head = id;
        let mut applied: usize = 0;
        loop
            invariant
                self.wf(),
                self.contains(head),
                applied + head.0 <= id.0,
                arity(hir, self.view_of(id)) == if arity(hir, self.view_of(head)) > applied {
                    arity(hir, self.view_of(head)) - applied
                } else {
                    0
                },
            decreases head.0,
        {
            match self.data(head) {
                TyData::App(base, _) => {
                    head = base;
                    applied += 1;
                },
                TyData::Ptr => {
                    return applied >= 1;
                },
                TyData::Tuple(n) => {
                    return applied >= n;
                },
                TyData::Adt(adt) => {
                    let item = adt.as_item();
                    let waiting = if item.0 < hir.items.len() {
                        hir.generic_param_count(item)
                    } else {
                        0
                    };
                    return applied >= waiting;
                },
                _ => {
                    return true;
                },
            }
        }
    }
}

/// A node whose tree is that of the node at `i` is the node at `i`.
proof fn lemma_same_tree_same_node(nodes: Seq<TyData>, i: int, data: TyData)
    requires
        0 <= i < nodes.len(),
        store_wf(nodes),
        data matches TyData::App(base, arg) ==> base.0 < nodes.len() && arg.0 < nodes.len(),
        ty_at(nodes, i) == data_ty(nodes, data),
    ensures
        nodes[i] == data,
{
    match nodes[i] {
        TyData::App(base, arg) => {
            match data {
                TyData::App(base2, arg2) => {
                    lemma_stored_once(nodes, base.0 as int, base2.0 as int);
                    lemma_stored_once(nodes, arg.0 as int, arg2.0 as int);
                },
                _ => {},
            }
        },
        _ => {},
    }
}

/// The well-formedness of a store, over its nodes.
pub open spec fn store_wf(nodes: Seq<TyData>) -> bool {
    &&& forall|i: int|
        0 <= i < nodes.len() ==> (#[trigger] nodes[i] matches TyData::App(base, arg) ==> base.0 < i
            && arg.0 < i && !(nodes[base.0 as int] is Invalid) && !(nodes[arg.0 as int] is Invalid))
    &&& forall|i: int, j: int|
        0 <= i < nodes.len() && 0 <= j < nodes.len() && #[trigger] nodes[i] == #[trigger] nodes[j]
            ==> i == j
}

/// Two positions with the same tree are the same position.
pub proof fn lemma_stored_once(nodes: Seq<TyData>, i: int, j: int)
    requires
        store_wf(nodes),
        0 <= i < nodes.len(),
        0 <= j < nodes.len(),
        ty_at(nodes, i) == ty_at(nodes, j),
    ensures
        i == j,
    decreases i,
{
    match nodes[i] {
        TyData::App(base, arg) => {
            match nodes[j] {
                TyData::App(base2, arg2) => {
                    lemma_stored_once(nodes, base.0 as int, base2.0 as int);
                    lemma_stored_once(nodes, arg.0 as int, arg2.0 as int);
                },
                _ => {},
            }
        },
        _ => {},
    }
}

/// A store that extends another gives the other's handles the same trees.
pub proof fn lemma_extends_keeps_trees(old: &TyStore, new: &TyStore)
    requires
        new.extends(old),
    ensures
        forall|id: TyId| old.contains(id) ==> #[trigger] new.view_of(id) == old.view_of(id),
{
    assert forall|id: TyId| old.contains(id) implies #[trigger] new.view_of(id) == old.view_of(
        id,
    ) by {
        lemma_prefix_keeps_tree(old.nodes@, new.nodes@, id.0 as int);
    }
}

proof fn lemma_prefix_keeps_tree(old: Seq<TyData>, new: Seq<TyData>, i: int)
    requires
        old.len() <= new.len(),
        new.subrange(0, old.len() as int) == old,
        0 <= i < old.len(),
    ensures
        ty_at(new, i) == ty_at(old, i),
    decreases i,
{
    assert(new.subrange(0, old.len() as int)[i] == new[i]);
    match old[i] {
        TyData::App(base, arg) => {
            if base.0 < i && arg.0 < i {
                lemma_prefix_keeps_tree(old, new, base.0 as int);
                lemma_prefix_keeps_tree(old, new, arg.0 as int);
            }
        },
        _ => {},
    }
}

} // verus!
