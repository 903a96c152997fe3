//! The expression checker: literals, blocks and conditionals, checked
//! against an expected type by unification.

use vstd::prelude::*;
use vstd::pervasive::unreached;
use crate::db::{lemma_same_queries_refl, lemma_same_queries_trans, Session};
use crate::diagnostics::{diagnostic_views, error_diagnostic, Diagnostic, DiagnosticView, Span};
use crate::hir::{expr_ok, Expr, ExprId, Hir, LitKind, Partial, PrimTy};
use crate::ty::{
    app_ty, lemma_extends_keeps_trees, lemma_stored_once, InvalidCause, Ty, TyData, TyId,
    TyStore,
};

verus! {

/// What the checker knows: what the inference variables are bound to, the
/// type recorded for each checked expression, the diagnostics so far, the
/// number of the next inference variable, the scopes that are open, and
/// the scopes entered and left.
pub struct CheckState {
    pub bindings: Map<usize, Ty>,
    pub typed: Map<ExprId, Ty>,
    pub diags: Seq<DiagnosticView>,
    pub next_var: usize,
    /// The expressions that opened the scopes that are open, innermost last.
    pub scopes: Seq<ExprId>,
    /// Every scope entered and left so far, in order.
    pub log: Seq<ScopeEvent>,
}

/// One step on the stack of scopes.
pub enum ScopeEvent {
    /// A scope was opened for the expression.
    Enter(ExprId),
    /// The innermost scope was closed.
    Leave,
}

/// What the checker knows once a scope is opened for the expression.
pub open spec fn entered(st: CheckState, expr: ExprId) -> CheckState {
    CheckState { scopes: st.scopes.push(expr), log: st.log.push(ScopeEvent::Enter(expr)), ..st }
}

/// What the checker knows once the innermost scope is closed.
pub open spec fn left(st: CheckState) -> CheckState {
    CheckState { scopes: st.scopes.drop_last(), log: st.log.push(ScopeEvent::Leave), ..st }
}

/// `ty` with each bound inference variable replaced by what it is bound to.
pub open spec fn apply_ty(bindings: Map<usize, Ty>, ty: Ty) -> Ty
    decreases ty,
{
    match ty {
        Ty::Var(v) => if bindings.contains_key(v) {
            bindings[v]
        } else {
            ty
        },
        Ty::App(base, arg) => app_ty(apply_ty(bindings, *base), apply_ty(bindings, *arg)),
        _ => ty,
    }
}

/// Whether the type holds no inference variable.
pub open spec fn ground(ty: Ty) -> bool
    decreases ty,
{
    match ty {
        Ty::Var(_) => false,
        Ty::App(base, arg) => ground(*base) && ground(*arg),
        _ => true,
    }
}

/// Whether every inference variable in the type has a number below `bound`.
pub open spec fn vars_below(ty: Ty, bound: usize) -> bool
    decreases ty,
{
    match ty {
        Ty::Var(v) => v < bound,
        Ty::App(base, arg) => vars_below(*base, bound) && vars_below(*arg, bound),
        _ => true,
    }
}

/// Whether every variable is bound to a type without variables.
pub open spec fn all_ground(bindings: Map<usize, Ty>) -> bool {
    forall|v: usize| bindings.contains_key(v) ==> ground(#[trigger] bindings[v])
}

/// How two types, with the bound variables replaced, unify.
pub enum Unified {
    /// They unify to the given type, and nothing is bound.
    Same(Ty),
    /// The variable is bound to the type, which is also the result.
    Bind(usize, Ty),
    /// They do not unify.
    Mismatch,
}

/// Unification of an actual with an expected type. An invalid type stays
/// invalid, and is no mismatch; the type that constrains nothing gives
/// way to the other; equal types unify; an unbound variable is bound to
/// a type without variables; everything else is a mismatch.
pub open spec fn unify_outcome(actual: Ty, expected: Ty) -> Unified {
    if actual is Invalid {
        Unified::Same(actual)
    } else if expected is Invalid {
        Unified::Same(expected)
    } else if expected is Bot {
        Unified::Same(actual)
    } else if actual is Bot {
        Unified::Same(expected)
    } else if actual == expected {
        Unified::Same(actual)
    } else if expected is Var && ground(actual) {
        Unified::Bind(expected->Var_0, actual)
    } else if actual is Var && ground(expected) {
        Unified::Bind(actual->Var_0, expected)
    } else {
        Unified::Mismatch
    }
}

/// The diagnostic of an expression whose type is not the expected one.
pub open spec fn mismatch_error(span: Span) -> DiagnosticView {
    error_diagnostic("type mismatch"@, span, ""@)
}

/// The type of a literal.
pub open spec fn lit_ty_of(lit: LitKind) -> Ty {
    match lit {
        LitKind::Int(_) => Ty::Prim(PrimTy::U256),
        LitKind::Bool(_) => Ty::Prim(PrimTy::Bool),
        LitKind::String(_) => Ty::Prim(PrimTy::String),
    }
}

/// Where the expression stands in the source.
pub open spec fn expr_span(hir: &Hir, expr: ExprId) -> Span {
    hir.exprs@[expr.0 as int].span
}

/// The last step of checking an expression: its actual type is unified
/// with the expected one, and the outcome is recorded for the expression.
pub open spec fn unify_spec(hir: &Hir, st: CheckState, expr: ExprId, actual: Ty, expected: Ty) -> (
    Ty,
    CheckState,
) {
    let a = apply_ty(st.bindings, actual);
    let e = apply_ty(st.bindings, expected);
    match unify_outcome(a, e) {
        Unified::Same(ty) => (ty, CheckState { typed: st.typed.insert(expr, ty), ..st }),
        Unified::Bind(v, ty) => (
            ty,
            CheckState { bindings: st.bindings.insert(v, ty), typed: st.typed.insert(expr, ty), ..st },
        ),
        Unified::Mismatch => (
            Ty::Invalid(InvalidCause::Other),
            CheckState {
                typed: st.typed.insert(expr, Ty::Invalid(InvalidCause::Other)),
                diags: st.diags.push(mismatch_error(expr_span(hir, expr))),
                ..st
            },
        ),
    }
}

/// Checking the expression `expr` against the type `expected`: the type
/// of the expression and what the checker knows afterwards.
pub open spec fn check_expr_spec(hir: &Hir, st: CheckState, expr: ExprId, expected: Ty) -> (
    Ty,
    CheckState,
)
    decreases expr.0 + 1, 0nat, 0nat,
{
    if expr.0 >= hir.exprs@.len() {
        (Ty::Invalid(InvalidCause::Other), st)
    } else {
        match hir.exprs@[expr.0 as int].data {
            Partial::Absent => (
                Ty::Invalid(InvalidCause::Other),
                CheckState { typed: st.typed.insert(expr, Ty::Invalid(InvalidCause::Other)), ..st },
            ),
            Partial::Present(Expr::Lit(lit)) => unify_spec(hir, st, expr, lit_ty_of(lit), expected),
            Partial::Present(Expr::Block(stmts)) => {
                let (actual, st1) = check_block_spec(hir, st, stmts@, expr, expected);
                unify_spec(hir, st1, expr, actual, expected)
            },
            Partial::Present(Expr::If(cond, then, els)) => {
                let (actual, st1) = check_if_spec(hir, st, expr.0 as nat, cond, then, els, expected);
                unify_spec(hir, st1, expr, actual, expected)
            },
            Partial::Present(_) => (Ty::Invalid(InvalidCause::Other), st),
        }
    }
}

/// Checking each statement of the list in turn, the type of none being asked for.
pub open spec fn check_stmts_spec(hir: &Hir, st: CheckState, stmts: Seq<ExprId>, bound: nat) -> CheckState
    decreases bound, 0nat, stmts.len(),
{
    if stmts.len() == 0 {
        st
    } else {
        let st1 = check_stmts_spec(hir, st, stmts.drop_last(), bound);
        if stmts.last().0 < bound {
            check_expr_spec(hir, st1, stmts.last(), Ty::Bot).1
        } else {
            st1
        }
    }
}

/// A block: the unit type if it is empty, and no scope is opened. Else
/// a scope is opened for the block, the statements but the last are
/// checked in turn, the type of none being asked for, the last is
/// checked against what is expected of the block, and the scope is
/// closed; the block has the type of its last statement.
pub open spec fn check_block_spec(
    hir: &Hir,
    st: CheckState,
    stmts: Seq<ExprId>,
    expr: ExprId,
    expected: Ty,
) -> (Ty, CheckState)
    decreases expr.0, 1nat, 0nat,
{
    if stmts.len() == 0 {
        (Ty::Unit, st)
    } else {
        let st1 = check_stmts_spec(hir, entered(st, expr), stmts.drop_last(), expr.0 as nat);
        if stmts.last().0 < expr.0 {
            let (ty, st2) = check_expr_spec(hir, st1, stmts.last(), expected);
            (ty, left(st2))
        } else {
            (Ty::Invalid(InvalidCause::Other), left(st1))
        }
    }
}

/// Checking an expression in a scope of its own: the scope is opened,
/// the expression is checked, and the scope is closed.
pub open spec fn check_in_scope_spec(hir: &Hir, st: CheckState, expr: ExprId, expected: Ty) -> (
    Ty,
    CheckState,
)
    decreases expr.0 + 1, 1nat, 0nat,
{
    let (ty, st1) = check_expr_spec(hir, entered(st, expr), expr, expected);
    (ty, left(st1))
}

/// A conditional. The condition is checked against the boolean type.
/// With an else branch both branches are checked, each in a scope of its
/// own, against what is expected of the conditional, whose type is that
/// of the else branch. Without one the then branch is checked in a scope
/// of its own against a new variable, which is given up afterwards, and
/// the conditional has the unit type.
pub open spec fn check_if_spec(
    hir: &Hir,
    st: CheckState,
    bound: nat,
    cond: ExprId,
    then: ExprId,
    els: Option<ExprId>,
    expected: Ty,
) -> (Ty, CheckState)
    decreases bound, 2nat, 0nat,
{
    if cond.0 < bound && then.0 < bound && (els matches Some(e) ==> e.0 < bound) {
        let st1 = check_expr_spec(hir, st, cond, Ty::Prim(PrimTy::Bool)).1;
        match els {
            Some(e) => {
                let st2 = check_in_scope_spec(hir, st1, then, expected).1;
                check_in_scope_spec(hir, st2, e, expected)
            },
            None => {
                let var = st1.next_var;
                let st2 = CheckState { next_var: (var + 1) as usize, ..st1 };
                let st3 = check_in_scope_spec(hir, st2, then, Ty::Var(var)).1;
                (Ty::Unit, CheckState { bindings: st3.bindings.remove(var), next_var: var, ..st3 })
            },
        }
    } else {
        (Ty::Invalid(InvalidCause::Other), st)
    }
}

proof fn lemma_ground_vars_below(ty: Ty, bound: usize)
    requires
        ground(ty),
    ensures
        vars_below(ty, bound),
    decreases ty,
{
    match ty {
        Ty::App(base, arg) => {
            lemma_ground_vars_below(*base, bound);
            lemma_ground_vars_below(*arg, bound);
        },
        _ => {},
    }
}

proof fn lemma_apply_vars_below(bindings: Map<usize, Ty>, ty: Ty, bound: usize)
    requires
        all_ground(bindings),
        vars_below(ty, bound),
    ensures
        vars_below(apply_ty(bindings, ty), bound),
    decreases ty,
{
    match ty {
        Ty::Var(v) => {
            if bindings.contains_key(v) {
                lemma_ground_vars_below(bindings[v], bound);
            }
        },
        Ty::App(base, arg) => {
            lemma_apply_vars_below(bindings, *base, bound);
            lemma_apply_vars_below(bindings, *arg, bound);
        },
        _ => {},
    }
}

/// A variable that is left after the bound ones were replaced is unbound.
proof fn lemma_apply_var_unbound(bindings: Map<usize, Ty>, ty: Ty)
    requires
        all_ground(bindings),
        apply_ty(bindings, ty) is Var,
    ensures
        !bindings.contains_key(apply_ty(bindings, ty)->Var_0),
{
    match ty {
        Ty::Var(v) => {
            if bindings.contains_key(v) {
                assert(ground(bindings[v]));
            }
        },
        _ => {},
    }
}

/// What the inference variables are bound to. A variable is bound to a
/// type without variables, or not at all.
#[derive(Debug)]
pub struct UnificationTable {
    /// By number of the variable; `None` for an unbound one.
    pub bindings: Vec<Option<TyId>>,
    /// The number of the next variable. Those from here on are not in use.
    pub next_var: usize,
}

impl UnificationTable {
    pub open spec fn wf(&self, types: &TyStore) -> bool {
        &&& self.next_var <= self.bindings@.len()
        &&& forall|v: int|
            0 <= v < self.bindings@.len() ==> (#[trigger] self.bindings@[v] matches Some(t) ==> v
                < self.next_var && types.contains(t) && ground(types.view_of(t)))
    }

    /// The bindings as the model has them.
    pub open spec fn view(&self, types: &TyStore) -> Map<usize, Ty> {
        Map::new(
            |v: usize| v < self.bindings@.len() && self.bindings@[v as int] is Some,
            |v: usize| types.view_of(self.bindings@[v as int]->0),
        )
    }

    /// Takes the next variable into use, unbound.
    fn new_var(&mut self, Ghost(types): Ghost<&TyStore>) -> (var: usize)
        requires
            old(self).wf(types),
            old(self).next_var < usize::MAX,
        ensures
            final(self).wf(types),
            var == old(self).next_var,
            final(self).next_var == var + 1,
            final(self).view(types) == old(self).view(types),
    {
        let var = self.next_var;
        if self.bindings.len() == var {
            self.bindings.push(None);
        }
        self.next_var = var + 1;
        proof {
            assert(self.view(types) =~= old(self).view(types));
        }
        var
    }

    /// Gives up the variable taken into use last, with what it is bound to.
    fn release(&mut self, Ghost(types): Ghost<&TyStore>, var: usize)
        requires
            old(self).wf(types),
            var + 1 == old(self).next_var,
        ensures
            final(self).wf(types),
            final(self).next_var == var,
            final(self).view(types) == old(self).view(types).remove(var),
    {
        self.bindings.set(var, None);
        self.next_var = var;
        proof {
            assert(self.view(types) =~= old(self).view(types).remove(var));
        }
    }

    /// Binds an unbound variable to a type without variables.
    fn bind(&mut self, Ghost(types): Ghost<&TyStore>, var: usize, ty: TyId)
        requires
            old(self).wf(types),
            var < old(self).next_var,
            types.contains(ty),
            ground(types.view_of(ty)),
        ensures
            final(self).wf(types),
            final(self).next_var == old(self).next_var,
            final(self).view(types) == old(self).view(types).insert(var, types.view_of(ty)),
    {
        self.bindings.set(var, Some(ty));
        proof {
            assert(self.view(types) =~= old(self).view(types).insert(var, types.view_of(ty)));
        }
    }

    /// `ty` with each bound variable replaced by what it is bound to.
    pub fn apply(&self, hir: &Hir, s: &mut Session, ty: TyId) -> (r: TyId)
        requires
            old(s).wf(hir),
            self.wf(&old(s).types),
            old(s).types.contains(ty),
        ensures
            final(s).wf(hir),
            final(s).same_queries(old(s)),
            self.wf(&final(s).types),
            self.view(&final(s).types) == self.view(&old(s).types),
            final(s).types.contains(r),
            final(s).types.view_of(r) == apply_ty(
                self.view(&old(s).types),
                old(s).types.view_of(ty),
            ),
        decreases ty.0,
    {
        proof {
            lemma_same_queries_refl(s);
        }
        match s.types.data(ty) {
            TyData::Var(v) => {
                if v < self.bindings.len() {
                    match self.bindings[v] {
                        Some(bound) => bound,
                        None => ty,
                    }
                } else {
                    ty
                }
            },
            TyData::App(base, arg) => {
                let ghost s0 = *s;
                let new_base = self.apply(hir, s, base);
                let ghost s1 = *s;
                proof {
                    lemma_extends_keeps_trees(&s0.types, &s1.types);
                }
                let new_arg = self.apply(hir, s, arg);
                let ghost s2 = *s;
                proof {
                    lemma_extends_keeps_trees(&s1.types, &s2.types);
                }
                let r = s.app(Ghost(hir), new_base, new_arg);
                proof {
                    lemma_same_queries_trans(&s0, &s1, &s2);
                    lemma_same_queries_trans(&s0, &s2, s);
                    lemma_table_kept(self, &s2.types, &s.types);
                }
                r
            },
            _ => ty,
        }
    }
}

/// Decides whether the type holds no inference variable.
pub fn is_ground(types: &TyStore, ty: TyId) -> (r: bool)
    requires
        types.wf(),
        types.contains(ty),
    ensures
        r == ground(types.view_of(ty)),
    decreases ty.0,
{
    match types.data(ty) {
        TyData::Var(_) => false,
        TyData::App(base, arg) => is_ground(types, base) && is_ground(types, arg),
        _ => true,
    }
}

/// Decides whether every inference variable in the type has a number below `bound`.
pub fn has_vars_below(types: &TyStore, ty: TyId, bound: usize) -> (r: bool)
    requires
        types.wf(),
        types.contains(ty),
    ensures
        r == vars_below(types.view_of(ty), bound),
    decreases ty.0,
{
    match types.data(ty) {
        TyData::Var(v) => v < bound,
        TyData::App(base, arg) => has_vars_below(types, base, bound) && has_vars_below(
            types,
            arg,
            bound,
        ),
        _ => true,
    }
}

/// A table stays sound, and means the same, when the type store grows.
pub proof fn lemma_table_kept(table: &UnificationTable, old: &TyStore, new: &TyStore)
    requires
        table.wf(old),
        new.extends(old),
    ensures
        table.wf(new),
        table.view(new) == table.view(old),
{
    lemma_extends_keeps_trees(old, new);
    assert(table.view(new) =~= table.view(old));
}

/// The scopes that are open, and the type recorded for each expression.
pub struct TyCheckEnv {
    /// The expressions that opened the scopes, innermost last.
    pub scopes: Vec<ExprId>,
    /// By expression; `None` for one that has not been checked.
    pub expr_tys: Vec<Option<TyId>>,
    /// Every scope entered and left so far, in order.
    pub log: Ghost<Seq<ScopeEvent>>,
}

impl TyCheckEnv {
    pub open spec fn wf(&self, hir: &Hir, types: &TyStore) -> bool {
        &&& self.expr_tys@.len() == hir.exprs@.len()
        &&& forall|e: int|
            0 <= e < self.expr_tys@.len() ==> (#[trigger] self.expr_tys@[e] matches Some(t)
                ==> types.contains(t))
    }

    /// The recorded types as the model has them.
    pub open spec fn view(&self, types: &TyStore) -> Map<ExprId, Ty> {
        Map::new(
            |e: ExprId| e.0 < self.expr_tys@.len() && self.expr_tys@[e.0 as int] is Some,
            |e: ExprId| types.view_of(self.expr_tys@[e.0 as int]->0),
        )
    }

    /// Opens a scope for the expression.
    pub fn enter_scope(&mut self, expr: ExprId)
        ensures
            final(self).scopes@ == old(self).scopes@.push(expr),
            final(self).expr_tys == old(self).expr_tys,
            final(self).log@ == old(self).log@.push(ScopeEvent::Enter(expr)),
    {
        self.scopes.push(expr);
        self.log = Ghost(self.log@.push(ScopeEvent::Enter(expr)));
    }

    /// Closes the innermost scope.
    pub fn leave_scope(&mut self)
        requires
            old(self).scopes@.len() > 0,
        ensures
            final(self).scopes@ == old(self).scopes@.drop_last(),
            final(self).expr_tys == old(self).expr_tys,
            final(self).log@ == old(self).log@.push(ScopeEvent::Leave),
    {
        self.scopes.pop();
        self.log = Ghost(self.log@.push(ScopeEvent::Leave));
    }

    /// Records the type of the expression.
    pub(crate) fn type_expr(&mut self, Ghost(types): Ghost<&TyStore>, expr: ExprId, ty: TyId)
        requires
            expr.0 < old(self).expr_tys@.len(),
            types.contains(ty),
        ensures
            final(self).scopes == old(self).scopes,
            final(self).log == old(self).log,
            final(self).expr_tys@ == old(self).expr_tys@.update(expr.0 as int, Some(ty)),
            final(self).view(types) == old(self).view(types).insert(expr, types.view_of(ty)),
    {
        self.expr_tys.set(expr.0, Some(ty));
        proof {
            assert(self.view(types) =~= old(self).view(types).insert(expr, types.view_of(ty)));
        }
    }

    /// The type recorded for the expression, if it has been checked.
    pub fn expr_ty(&self, expr: ExprId) -> (ty: Option<TyId>)
        ensures
            ty == if expr.0 < self.expr_tys@.len() {
                self.expr_tys@[expr.0 as int]
            } else {
                None
            },
    {
        if expr.0 < self.expr_tys.len() {
            self.expr_tys[expr.0]
        } else {
            None
        }
    }
}

/// Checks expressions, and collects what it finds.
pub struct TyChecker {
    pub env: TyCheckEnv,
    pub table: UnificationTable,
    pub diags: Vec<Diagnostic>,
}

impl TyChecker {
    pub open spec fn wf(&self, hir: &Hir, s: &Session) -> bool {
        &&& s.wf(hir)
        &&& self.env.wf(hir, &s.types)
        &&& self.table.wf(&s.types)
    }

    /// What the checker knows, as the model has it.
    pub open spec fn state(&self, types: &TyStore) -> CheckState {
        CheckState {
            bindings: self.table.view(types),
            typed: self.env.view(types),
            diags: diagnostic_views(self.diags@),
            next_var: self.table.next_var,
            scopes: self.env.scopes@,
            log: self.env.log@,
        }
    }

    /// A checker that has checked nothing.
    pub fn new(hir: &Hir, s: &Session) -> (checker: TyChecker)
        requires
            s.wf(hir),
        ensures
            checker.wf(hir, s),
            checker.env.scopes@.len() == 0,
            checker.state(&s.types) == (CheckState {
                bindings: Map::empty(),
                typed: Map::empty(),
                diags: Seq::empty(),
                next_var: 0,
                scopes: Seq::empty(),
                log: Seq::empty(),
            }),
    {
        let mut expr_tys: Vec<Option<TyId>> = Vec::new();
        let mut i: usize = 0;
        while i < hir.exprs.len()
            invariant
                i <= hir.exprs@.len(),
                expr_tys@.len() == i,
                forall|j: int| 0 <= j < i ==> #[trigger] expr_tys@[j] is None,
            decreases hir.exprs@.len() - i,
        {
            expr_tys.push(None);
            i += 1;
        }
        let checker = TyChecker {
            env: TyCheckEnv { scopes: Vec::new(), expr_tys, log: Ghost(Seq::empty()) },
            table: UnificationTable { bindings: Vec::new(), next_var: 0 },
            diags: Vec::new(),
        };
        proof {
            assert(checker.table.view(&s.types) =~= Map::<usize, Ty>::empty());
            assert(checker.env.view(&s.types) =~= Map::<ExprId, Ty>::empty());
            assert(diagnostic_views(checker.diags@) =~= Seq::<DiagnosticView>::empty());
        }
        checker
    }

    /// A new inference variable, bound to nothing.
    pub fn fresh_ty(&mut self, hir: &Hir, s: &mut Session) -> (r: TyId)
        requires
            old(self).wf(hir, old(s)),
            old(self).table.next_var < usize::MAX,
        ensures
            final(self).wf(hir, final(s)),
            final(s).same_queries(old(s)),
            final(s).types.contains(r),
            final(s).types.view_of(r) == Ty::Var(old(self).table.next_var),
            final(self).env == old(self).env,
            final(self).diags == old(self).diags,
            final(self).state(&final(s).types) == (CheckState {
                next_var: (old(self).table.next_var + 1) as usize,
                ..old(self).state(&old(s).types)
            }),
    {
        let ghost s0 = *s;
        let var = self.table.new_var(Ghost(&s.types));
        let r = s.var(Ghost(hir), var);
        proof {
            lemma_checker_kept(self, hir, &s0, s);
        }
        r
    }

    /// The type of a literal.
    fn lit_ty(&self, hir: &Hir, s: &mut Session, lit: &LitKind) -> (r: TyId)
        requires
            old(s).wf(hir),
        ensures
            final(s).wf(hir),
            final(s).same_queries(old(s)),
            final(s).types.contains(r),
            final(s).types.view_of(r) == lit_ty_of(*lit),
    {
        match lit {
            LitKind::Int(_) => s.prim(Ghost(hir), PrimTy::U256),
            LitKind::Bool(_) => s.prim(Ghost(hir), PrimTy::Bool),
            LitKind::String(_) => s.prim(Ghost(hir), PrimTy::String),
        }
    }

    /// Unifies the actual type of the expression with the expected one,
    /// and records the outcome for the expression. A mismatch gives an
    /// invalid type and one diagnostic.
    fn unify_ty(&mut self, hir: &Hir, s: &mut Session, expr: ExprId, actual: TyId, expected: TyId) -> (r:
        TyId)
        requires
            old(self).wf(hir, old(s)),
            expr.0 < hir.exprs@.len(),
            old(s).types.contains(actual),
            old(s).types.contains(expected),
            vars_below(old(s).types.view_of(actual), old(self).table.next_var),
            vars_below(old(s).types.view_of(expected), old(self).table.next_var),
        ensures
            final(self).wf(hir, final(s)),
            final(s).same_queries(old(s)),
            final(self).env.scopes == old(self).env.scopes,
            final(self).table.next_var == old(self).table.next_var,
            final(s).types.contains(r),
            vars_below(final(s).types.view_of(r), old(self).table.next_var),
            final(s).types.view_of(r) == unify_spec(
                hir,
                old(self).state(&old(s).types),
                expr,
                old(s).types.view_of(actual),
                old(s).types.view_of(expected),
            ).0,
            final(self).state(&final(s).types) == unify_spec(
                hir,
                old(self).state(&old(s).types),
                expr,
                old(s).types.view_of(actual),
                old(s).types.view_of(expected),
            ).1,
    {
        let ghost s0 = *s;
        let ghost st0 = self.state(&s0.types);
        let ghost bound = self.table.next_var;
        let a = self.table.apply(hir, s, actual);
        let ghost s1 = *s;
        proof {
            lemma_extends_keeps_trees(&s0.types, &s1.types);
        }
        let e = self.table.apply(hir, s, expected);
        let ghost s2 = *s;
        let ghost ta = s2.types.view_of(a);
        let ghost te = s2.types.view_of(e);
        proof {
            lemma_extends_keeps_trees(&s1.types, &s2.types);
            lemma_same_queries_trans(&s0, &s1, &s2);
            lemma_checker_kept(self, hir, &s0, &s2);
            assert(all_ground(st0.bindings));
            lemma_apply_vars_below(st0.bindings, s0.types.view_of(actual), bound);
            lemma_apply_vars_below(st0.bindings, s0.types.view_of(expected), bound);
            assert(ta == apply_ty(st0.bindings, s0.types.view_of(actual)));
            assert(te == apply_ty(st0.bindings, s0.types.view_of(expected)));
            if ta == te {
                lemma_stored_once(s2.types.nodes@, a.0 as int, e.0 as int);
            }
            if ta is Var {
                lemma_apply_var_unbound(st0.bindings, s0.types.view_of(actual));
            }
            if te is Var {
                lemma_apply_var_unbound(st0.bindings, s0.types.view_of(expected));
            }
        }
        let data_a = s.types.data(a);
        let data_e = s.types.data(e);
        let a_invalid = s.types.is_invalid(a);
        let e_invalid = s.types.is_invalid(e);
        let e_bot = match data_e {
            TyData::Bot => true,
            _ => false,
        };
        let a_bot = match data_a {
            TyData::Bot => true,
            _ => false,
        };
        let r = if a_invalid {
            a
        } else if e_invalid {
            e
        } else if e_bot {
            a
        } else if a_bot {
            e
        } else if a == e {
            a
        } else {
            let binding = match data_e {
                TyData::Var(v) => {
                    if is_ground(&s.types, a) {
                        Some((v, a))
                    } else {
                        None
                    }
                },
                _ => match data_a {
                    TyData::Var(v) => {
                        if is_ground(&s.types, e) {
                            Some((v, e))
                        } else {
                            None
                        }
                    },
                    _ => None,
                },
            };
            match binding {
                Some((v, ty)) => {
                    proof {
                        lemma_ground_vars_below(s2.types.view_of(ty), bound);
                    }
                    self.table.bind(Ghost(&s.types), v, ty);
                    ty
                },
                None => {
                    let span = hir.exprs[expr.0].span;
                    let invalid = s.invalid(Ghost(hir), InvalidCause::Other);
                    self.diags.push(Diagnostic::error("type mismatch", span, ""));
                    proof {
                        lemma_same_queries_trans(&s0, &s2, s);
                        lemma_table_kept(&self.table, &s2.types, &s.types);
                        lemma_env_kept(&self.env, hir, &s2.types, &s.types);
                        assert(diagnostic_views(self.diags@) =~= st0.diags.push(
                            mismatch_error(span),
                        ));
                    }
                    invalid
                },
            }
        };
        self.env.type_expr(Ghost(&s.types), expr, r);
        r
    }

    /// Whether the checker can check the expression against the expected
    /// type: both exist, the expression and those before it have shapes
    /// that the checker gives a meaning to, the expected type holds only
    /// variables that the checker has handed out, and there are numbers
    /// left for the variables that the check may need.
    pub open spec fn can_check_spec(&self, hir: &Hir, s: &Session, expr: ExprId, expected: TyId) -> bool {
        &&& expr.0 < hir.exprs@.len()
        &&& hir.exprs_ok(expr.0 + 1)
        &&& s.types.contains(expected)
        &&& vars_below(s.types.view_of(expected), self.table.next_var)
        &&& self.table.next_var + expr.0 < usize::MAX
    }

    /// Decides whether the checker can check the expression against the
    /// expected type.
    pub fn can_check(&self, hir: &Hir, s: &Session, expr: ExprId, expected: TyId) -> (r: bool)
        requires
            self.wf(hir, s),
        ensures
            r == self.can_check_spec(hir, s, expr, expected),
    {
        expr.0 < hir.exprs.len() && hir.validate_exprs(expr.0 + 1) && expected.0
            < s.types.nodes.len() && has_vars_below(
            &s.types,
            expected,
            self.table.next_var,
        ) && expr.0 < usize::MAX - self.table.next_var
    }

    /// Checks the expression against the expected type, and records the
    /// type that it has. The scopes that are open afterwards are those
    /// that were open before.
    pub fn check_expr(&mut self, hir: &Hir, s: &mut Session, expr: ExprId, expected: TyId) -> (r: TyId)
        requires
            old(self).wf(hir, old(s)),
            old(self).can_check_spec(hir, old(s), expr, expected),
        ensures
            final(self).wf(hir, final(s)),
            final(s).same_queries(old(s)),
            final(self).env.scopes@ == old(self).env.scopes@,
            final(self).table.next_var == old(self).table.next_var,
            final(s).types.contains(r),
            vars_below(final(s).types.view_of(r), old(self).table.next_var),
            final(s).types.view_of(r) == check_expr_spec(
                hir,
                old(self).state(&old(s).types),
                expr,
                old(s).types.view_of(expected),
            ).0,
            final(self).state(&final(s).types) == check_expr_spec(
                hir,
                old(self).state(&old(s).types),
                expr,
                old(s).types.view_of(expected),
            ).1,
        decreases expr.0 + 1, 0nat, 0nat,
    {
        let ghost s0 = *s;
        proof {
            assert(expr_ok(hir.exprs@[expr.0 as int], expr.0 as int));
        }
        match &hir.exprs[expr.0].data {
            Partial::Absent => {
                let ty = s.invalid(Ghost(hir), InvalidCause::Other);
                proof {
                    lemma_checker_kept(self, hir, &s0, s);
                }
                self.env.type_expr(Ghost(&s.types), expr, ty);
                ty
            },
            Partial::Present(data) => {
                let actual = match data {
                    Expr::Lit(lit) => {
                        let ty = self.lit_ty(hir, s, lit);
                        proof {
                            lemma_checker_kept(self, hir, &s0, s);
                        }
                        ty
                    },
                    Expr::Block(stmts) => self.check_block(hir, s, expr, stmts, expected),
                    Expr::If(cond, then, els) => self.check_if(
                        hir,
                        s,
                        expr,
                        *cond,
                        *then,
                        *els,
                        expected,
                    ),
                    _ => unreached(),
                };
                let ghost s1 = *s;
                proof {
                    lemma_extends_keeps_trees(&s0.types, &s1.types);
                }
                let r = self.unify_ty(hir, s, expr, actual, expected);
                proof {
                    lemma_same_queries_trans(&s0, &s1, s);
                }
                r
            },
        }
    }

    /// Checks the statements of a block in a scope of its own.
    fn check_block(
        &mut self,
        hir: &Hir,
        s: &mut Session,
        expr: ExprId,
        stmts: &Vec<ExprId>,
        expected: TyId,
    ) -> (r: TyId)
        requires
            old(self).wf(hir, old(s)),
            expr.0 < hir.exprs@.len(),
            hir.exprs_ok(expr.0 as int),
            forall|k: int| 0 <= k < stmts@.len() ==> (#[trigger] stmts@[k]).0 < expr.0,
            old(s).types.contains(expected),
            vars_below(old(s).types.view_of(expected), old(self).table.next_var),
            old(self).table.next_var + expr.0 < usize::MAX,
        ensures
            final(self).wf(hir, final(s)),
            final(s).same_queries(old(s)),
            final(self).env.scopes@ == old(self).env.scopes@,
            final(self).table.next_var == old(self).table.next_var,
            final(s).types.contains(r),
            vars_below(final(s).types.view_of(r), old(self).table.next_var),
            final(s).types.view_of(r) == check_block_spec(
                hir,
                old(self).state(&old(s).types),
                stmts@,
                expr,
                old(s).types.view_of(expected),
            ).0,
            final(self).state(&final(s).types) == check_block_spec(
                hir,
                old(self).state(&old(s).types),
                stmts@,
                expr,
                old(s).types.view_of(expected),
            ).1,
        decreases expr.0, 2nat, 0nat,
    {
        let ghost s0 = *s;
        let ghost st0 = self.state(&s0.types);
        let ghost bound = expr.0 as nat;
        if stmts.len() == 0 {
            let r = s.unit(Ghost(hir));
            proof {
                lemma_checker_kept(self, hir, &s0, s);
            }
            r
        } else {
            self.env.enter_scope(expr);
            let bot = s.bot(Ghost(hir));
            proof {
                lemma_checker_kept(self, hir, &s0, s);
                assert(stmts@.subrange(0, 0) =~= Seq::<ExprId>::empty());
            }
            let n = stmts.len() - 1;
            let mut i: usize = 0;
            while i < n
                invariant
                    i <= n,
                    n + 1 == stmts@.len(),
                    bound == expr.0,
                    expr.0 < hir.exprs@.len(),
                    forall|k: int| 0 <= k < stmts@.len() ==> (#[trigger] stmts@[k]).0 < expr.0,
                    s0.wf(hir),
                    s0.types.contains(expected),
                    self.wf(hir, s),
                    s.same_queries(&s0),
                    s.types.contains(bot),
                    s.types.view_of(bot) == Ty::Bot,
                    self.env.scopes@ == old(self).env.scopes@.push(expr),
                    self.table.next_var == old(self).table.next_var,
                    self.table.next_var + expr.0 < usize::MAX,
                    hir.exprs_ok(expr.0 as int),
                    self.state(&s.types) == check_stmts_spec(
                        hir,
                        entered(st0, expr),
                        stmts@.subrange(0, i as int),
                        bound,
                    ),
                decreases n - i,
            {
                let ghost s1 = *s;
                proof {
                    assert(stmts@[i as int].0 < expr.0);
                    assert(stmts@.subrange(0, i + 1).drop_last() =~= stmts@.subrange(0, i as int));
                    assert(stmts@.subrange(0, i + 1).last() == stmts@[i as int]);
                }
                self.check_expr(hir, s, stmts[i], bot);
                proof {
                    lemma_same_queries_trans(&s0, &s1, s);
                    lemma_extends_keeps_trees(&s1.types, &s.types);
                }
                i += 1;
            }
            let ghost s2 = *s;
            let last = stmts[n];
            proof {
                assert(stmts@[n as int].0 < expr.0);
                assert(stmts@.subrange(0, n as int) =~= stmts@.drop_last());
                lemma_extends_keeps_trees(&s0.types, &s2.types);
            }
            let res = self.check_expr(hir, s, last, expected);
            self.env.leave_scope();
            proof {
                lemma_same_queries_trans(&s0, &s2, s);
                assert(old(self).env.scopes@.push(expr).drop_last() =~= old(self).env.scopes@);
            }
            res
        }
    }

    /// Checks a conditional.
    fn check_if(
        &mut self,
        hir: &Hir,
        s: &mut Session,
        expr: ExprId,
        cond: ExprId,
        then: ExprId,
        els: Option<ExprId>,
        expected: TyId,
    ) -> (r: TyId)
        requires
            old(self).wf(hir, old(s)),
            expr.0 < hir.exprs@.len(),
            hir.exprs_ok(expr.0 as int),
            cond.0 < expr.0,
            then.0 < expr.0,
            els matches Some(e) ==> e.0 < expr.0,
            old(s).types.contains(expected),
            vars_below(old(s).types.view_of(expected), old(self).table.next_var),
            old(self).table.next_var + expr.0 < usize::MAX,
        ensures
            final(self).wf(hir, final(s)),
            final(s).same_queries(old(s)),
            final(self).env.scopes@ == old(self).env.scopes@,
            final(self).table.next_var == old(self).table.next_var,
            final(s).types.contains(r),
            vars_below(final(s).types.view_of(r), old(self).table.next_var),
            final(s).types.view_of(r) == check_if_spec(
                hir,
                old(self).state(&old(s).types),
                expr.0 as nat,
                cond,
                then,
                els,
                old(s).types.view_of(expected),
            ).0,
            final(self).state(&final(s).types) == check_if_spec(
                hir,
                old(self).state(&old(s).types),
                expr.0 as nat,
                cond,
                then,
                els,
                old(s).types.view_of(expected),
            ).1,
        decreases expr.0, 2nat, 0nat,
    {
        let ghost s0 = *s;
        let boolean = s.prim(Ghost(hir), PrimTy::Bool);
        let ghost s1 = *s;
        proof {
            lemma_checker_kept(self, hir, &s0, &s1);
        }
        self.check_expr(hir, s, cond, boolean);
        let ghost s2 = *s;
        proof {
            lemma_same_queries_trans(&s0, &s1, &s2);
            lemma_extends_keeps_trees(&s0.types, &s2.types);
        }
        match els {
            Some(els) => {
                self.check_expr_in_new_scope(hir, s, then, expected);
                let ghost s3 = *s;
                proof {
                    lemma_same_queries_trans(&s0, &s2, &s3);
                    lemma_extends_keeps_trees(&s0.types, &s3.types);
                }
                let r = self.check_expr_in_new_scope(hir, s, els, expected);
                proof {
                    lemma_same_queries_trans(&s0, &s3, s);
                }
                r
            },
            None => {
                // Without an else branch the conditional itself has the unit type.
                let var = self.table.new_var(Ghost(&s.types));
                let fresh = s.var(Ghost(hir), var);
                let ghost s3 = *s;
                proof {
                    lemma_same_queries_trans(&s0, &s2, &s3);
                    lemma_checker_kept(self, hir, &s2, &s3);
                }
                self.check_expr_in_new_scope(hir, s, then, fresh);
                let ghost s4 = *s;
                self.table.release(Ghost(&s.types), var);
                let r = s.unit(Ghost(hir));
                proof {
                    lemma_same_queries_trans(&s0, &s3, &s4);
                    lemma_same_queries_trans(&s0, &s4, s);
                    lemma_checker_kept(self, hir, &s4, s);
                }
                r
            },
        }
    }

    /// Checks the expression in a scope of its own.
    fn check_expr_in_new_scope(&mut self, hir: &Hir, s: &mut Session, expr: ExprId, expected: TyId) -> (r:
        TyId)
        requires
            old(self).wf(hir, old(s)),
            old(self).can_check_spec(hir, old(s), expr, expected),
        ensures
            final(self).wf(hir, final(s)),
            final(s).same_queries(old(s)),
            final(self).env.scopes@ == old(self).env.scopes@,
            final(self).table.next_var == old(self).table.next_var,
            final(s).types.contains(r),
            vars_below(final(s).types.view_of(r), old(self).table.next_var),
            final(s).types.view_of(r) == check_in_scope_spec(
                hir,
                old(self).state(&old(s).types),
                expr,
                old(s).types.view_of(expected),
            ).0,
            final(self).state(&final(s).types) == check_in_scope_spec(
                hir,
                old(self).state(&old(s).types),
                expr,
                old(s).types.view_of(expected),
            ).1,
        decreases expr.0 + 1, 1nat, 0nat,
    {
        self.env.enter_scope(expr);
        let ty = self.check_expr(hir, s, expr, expected);
        self.env.leave_scope();
        proof {
            assert(old(self).env.scopes@.push(expr).drop_last() =~= old(self).env.scopes@);
        }
        ty
    }
}

/// The recorded types stay sound, and mean the same, when the type store grows.
pub proof fn lemma_env_kept(env: &TyCheckEnv, hir: &Hir, old: &TyStore, new: &TyStore)
    requires
        env.wf(hir, old),
        new.extends(old),
    ensures
        env.wf(hir, new),
        env.view(new) == env.view(old),
{
    lemma_extends_keeps_trees(old, new);
    assert(env.view(new) =~= env.view(old));
}

/// A checker stays sound, and knows the same, when only the type store grows.
pub proof fn lemma_checker_kept(checker: &TyChecker, hir: &Hir, old: &Session, new: &Session)
    requires
        checker.env.wf(hir, &old.types),
        checker.table.wf(&old.types),
        new.wf(hir),
        new.types.extends(&old.types),
    ensures
        checker.wf(hir, new),
        checker.state(&new.types) == checker.state(&old.types),
{
    lemma_env_kept(&checker.env, hir, &old.types, &new.types);
    lemma_table_kept(&checker.table, &old.types, &new.types);
}

} // verus!
