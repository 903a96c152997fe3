use type_analysis::db::Session;
use type_analysis::diagnostics::{LabelStyle, Severity, Span};
use type_analysis::hir::{Expr, ExprId, ExprNode, Hir, IdentId, LitKind, Partial, PrimTy};
use type_analysis::ty::{InvalidCause, TyData, TyId};
use type_analysis::ty_check::{has_vars_below, is_ground, TyChecker};

const COND: usize = 0; // true
const ONE: usize = 1; // 1
const BLOCK_ONE: usize = 2; // { 1 }
const TWO: usize = 3; // 2
const BLOCK_TWO: usize = 4; // { 2 }
const IF_ELSE: usize = 5; // if true { 1 } else { 2 }
const IF_ONLY: usize = 6; // if true { 1 }
const EMPTY: usize = 7; // { }
const TEXT: usize = 8; // "text"
const STMTS: usize = 9; // { "text"; 1 }
const ABSENT: usize = 10;
const BAD_COND: usize = 11; // if 1 { 1 }
const MIXED: usize = 12; // if true { 1 } else { }
const NESTED: usize = 13; // { if true { 1 }; if true { 1 } else { 2 } }
const DEEP: usize = 14; // if true { { if true { 1 } } }
const BLOCK_TEXT: usize = 15; // { "text" }
const IF_TEXT: usize = 16; // if true { "text" }
const IF_DIFFER: usize = 17; // if true { 1 } else { "text" }
const BLOCK_ABSENT: usize = 18; // { <absent> }
const INNER: usize = 19; // if true { 1 } (another one)
const BLOCK_INNER: usize = 20; // { if true { 1 } }

fn span_of(expr: usize) -> Span {
    Span { start: 10 * expr, end: 10 * expr + 3 }
}

fn program() -> Hir {
    let block = |stmts: &[usize]| Expr::Block(stmts.iter().map(|e| ExprId(*e)).collect());
    let cond = |c: usize, t: usize, e: Option<usize>| Expr::If(ExprId(c), ExprId(t), e.map(ExprId));
    let exprs = vec![
        Some(Expr::Lit(LitKind::Bool(true))),
        Some(Expr::Lit(LitKind::Int(1))),
        Some(block(&[ONE])),
        Some(Expr::Lit(LitKind::Int(2))),
        Some(block(&[TWO])),
        Some(cond(COND, BLOCK_ONE, Some(BLOCK_TWO))),
        Some(cond(COND, BLOCK_ONE, None)),
        Some(block(&[])),
        Some(Expr::Lit(LitKind::String(IdentId(7)))),
        Some(block(&[TEXT, ONE])),
        None,
        Some(cond(ONE, BLOCK_ONE, None)),
        Some(cond(COND, BLOCK_ONE, Some(EMPTY))),
        Some(block(&[IF_ONLY, IF_ELSE])),
        Some(cond(COND, BLOCK_INNER, None)),
        Some(block(&[TEXT])),
        Some(cond(COND, BLOCK_TEXT, None)),
        Some(cond(COND, BLOCK_ONE, Some(BLOCK_TEXT))),
        Some(block(&[ABSENT])),
        Some(cond(COND, BLOCK_ONE, None)),
        Some(block(&[INNER])),
    ];
    // `DEEP` names `BLOCK_INNER`, which must stand before it.
    let mut nodes: Vec<ExprNode> = exprs
        .into_iter()
        .enumerate()
        .map(|(i, data)| ExprNode {
            data: match data {
                Some(e) => Partial::Present(e),
                None => Partial::Absent,
            },
            span: span_of(i),
        })
        .collect();
    let deep = nodes[DEEP].clone();
    nodes[DEEP] = ExprNode { data: Partial::Absent, span: span_of(DEEP) };
    nodes.push(ExprNode { data: deep.data, span: span_of(21) });
    Hir { tys: vec![], items: vec![], resolutions: vec![], exprs: nodes }
}

const DEEP_AT: usize = 21;

struct Setup {
    hir: Hir,
    s: Session,
    checker: TyChecker,
}

fn setup() -> Setup {
    let hir = program();
    assert!(hir.validate());
    let s = Session::new(&hir);
    let checker = TyChecker::new(&hir, &s);
    Setup { hir, s, checker }
}

impl Setup {
    fn check(&mut self, expr: usize, expected: TyId) -> TyData {
        let ty = self.checker.check_expr(&self.hir, &mut self.s, ExprId(expr), expected);
        assert_eq!(self.checker.env.expr_ty(ExprId(expr)), Some(ty));
        assert!(self.checker.env.scopes.is_empty());
        self.s.types.data(ty)
    }

    fn recorded(&self, expr: usize) -> Option<TyData> {
        self.checker.env.expr_ty(ExprId(expr)).map(|ty| self.s.types.data(ty))
    }

    fn integer(&mut self) -> TyId {
        self.s.types.prim(PrimTy::U256)
    }

    fn bot(&mut self) -> TyId {
        self.s.types.bot()
    }

    fn assert_mismatch_at(&self, at: usize, expr: usize) {
        let diag = &self.checker.diags[at];
        assert_eq!(diag.severity, Severity::Error);
        assert_eq!(diag.message, "type mismatch");
        assert_eq!(diag.labels.len(), 1);
        assert_eq!(diag.labels[0].style, LabelStyle::Primary);
        assert_eq!(diag.labels[0].span, span_of(expr));
        assert_eq!(diag.labels[0].message, "");
        assert!(diag.notes.is_empty());
    }
}

const INT: TyData = TyData::Prim(PrimTy::U256);
const BOOL: TyData = TyData::Prim(PrimTy::Bool);
const STRING: TyData = TyData::Prim(PrimTy::String);
const INVALID: TyData = TyData::Invalid(InvalidCause::Other);

#[test]
fn literal_has_the_type_of_its_kind() {
    let mut t = setup();
    let bot = t.bot();
    assert_eq!(t.check(COND, bot), BOOL);
    assert_eq!(t.check(ONE, bot), INT);
    assert_eq!(t.check(TEXT, bot), STRING);
    assert!(t.checker.diags.is_empty());
}

#[test]
fn conditional_with_else_against_integer() {
    let mut t = setup();
    let int = t.integer();
    assert_eq!(t.check(IF_ELSE, int), INT);
    assert!(t.checker.diags.is_empty());
    assert_eq!(t.recorded(COND), Some(BOOL));
    for expr in [ONE, BLOCK_ONE, TWO, BLOCK_TWO, IF_ELSE] {
        assert_eq!(t.recorded(expr), Some(INT));
    }
    assert_eq!(t.recorded(EMPTY), None);
}

#[test]
fn conditional_without_else_is_unit() {
    let mut t = setup();
    let bot = t.bot();
    assert_eq!(t.check(IF_ONLY, bot), TyData::Unit);
    assert!(t.checker.diags.is_empty());
    assert_eq!(t.recorded(BLOCK_ONE), Some(INT));
    assert_eq!(t.recorded(ONE), Some(INT));
    let mut t = setup();
    let bot = t.bot();
    assert_eq!(t.check(IF_TEXT, bot), TyData::Unit);
    assert_eq!(t.recorded(BLOCK_TEXT), Some(STRING));
    assert!(t.checker.diags.is_empty());
    let mut t = setup();
    let unit = t.s.types.unit();
    assert_eq!(t.check(IF_ONLY, unit), TyData::Unit);
    assert!(t.checker.diags.is_empty());
}

#[test]
fn conditional_without_else_gives_up_its_variable() {
    let mut t = setup();
    let bot = t.bot();
    t.check(IF_ONLY, bot);
    assert_eq!(t.checker.table.next_var, 0);
    assert!(t.checker.table.bindings.iter().all(|b| b.is_none()));
    // The same variable number serves the next conditional, unbound again.
    assert_eq!(t.check(IF_TEXT, bot), TyData::Unit);
    assert!(t.checker.diags.is_empty());
}

#[test]
fn conditional_without_else_against_integer_is_a_mismatch() {
    let mut t = setup();
    let int = t.integer();
    assert_eq!(t.check(IF_ONLY, int), INVALID);
    assert_eq!(t.checker.diags.len(), 1);
    t.assert_mismatch_at(0, IF_ONLY);
}

#[test]
fn conditional_has_the_type_of_its_else_branch() {
    let mut t = setup();
    let bot = t.bot();
    assert_eq!(t.check(MIXED, bot), TyData::Unit);
    assert_eq!(t.recorded(BLOCK_ONE), Some(INT));
    assert_eq!(t.recorded(EMPTY), Some(TyData::Unit));
    assert!(t.checker.diags.is_empty());
    let mut t = setup();
    let bot = t.bot();
    assert_eq!(t.check(IF_DIFFER, bot), STRING);
    assert!(t.checker.diags.is_empty());
}

#[test]
fn each_branch_is_checked_against_the_expected_type() {
    let mut t = setup();
    let int = t.integer();
    assert_eq!(t.check(IF_DIFFER, int), INVALID);
    // The literal in the else branch does not fit; the block around it and
    // the conditional carry the invalid type on without a word.
    assert_eq!(t.checker.diags.len(), 1);
    t.assert_mismatch_at(0, TEXT);
    assert_eq!(t.recorded(TEXT), Some(INVALID));
    assert_eq!(t.recorded(BLOCK_TEXT), Some(INVALID));
    assert_eq!(t.recorded(BLOCK_ONE), Some(INT));
}

#[test]
fn condition_must_be_boolean() {
    let mut t = setup();
    let bot = t.bot();
    assert_eq!(t.check(BAD_COND, bot), TyData::Unit);
    assert_eq!(t.checker.diags.len(), 1);
    t.assert_mismatch_at(0, ONE);
}

#[test]
fn empty_block_is_unit() {
    let mut t = setup();
    let bot = t.bot();
    assert_eq!(t.check(EMPTY, bot), TyData::Unit);
    let int = t.integer();
    assert_eq!(t.check(EMPTY, int), INVALID);
    assert_eq!(t.checker.diags.len(), 1);
    t.assert_mismatch_at(0, EMPTY);
}

#[test]
fn block_has_the_type_of_its_last_statement() {
    let mut t = setup();
    let int = t.integer();
    assert_eq!(t.check(STMTS, int), INT);
    assert!(t.checker.diags.is_empty());
    assert_eq!(t.recorded(TEXT), Some(STRING));
    assert_eq!(t.recorded(ONE), Some(INT));
}

#[test]
fn absent_expression_is_invalid_without_a_diagnostic() {
    let mut t = setup();
    let int = t.integer();
    assert_eq!(t.check(ABSENT, int), INVALID);
    assert_eq!(t.check(BLOCK_ABSENT, int), INVALID);
    assert!(t.checker.diags.is_empty());
}

#[test]
fn scopes_are_closed_after_nested_checks() {
    let mut t = setup();
    let int = t.integer();
    assert_eq!(t.check(NESTED, int), INT);
    assert!(t.checker.env.scopes.is_empty());
    let bot = t.bot();
    assert_eq!(t.check(DEEP_AT, bot), TyData::Unit);
    assert!(t.checker.env.scopes.is_empty());
    assert!(t.checker.diags.is_empty());
    assert_eq!(t.checker.table.next_var, 0);
}

#[test]
fn scopes_that_were_open_stay_open() {
    let mut t = setup();
    t.checker.env.enter_scope(ExprId(99));
    let int = t.integer();
    let ty = t.checker.check_expr(&t.hir, &mut t.s, ExprId(NESTED), int);
    assert_eq!(t.s.types.data(ty), INT);
    assert_eq!(t.checker.env.scopes, vec![ExprId(99)]);
    t.checker.env.leave_scope();
    assert!(t.checker.env.scopes.is_empty());
}

#[test]
fn unbound_variable_is_bound_by_the_first_use() {
    let mut t = setup();
    let var = t.checker.fresh_ty(&t.hir, &mut t.s);
    assert_eq!(t.s.types.data(var), TyData::Var(0));
    assert_eq!(t.checker.table.next_var, 1);
    assert_eq!(t.check(ONE, var), INT);
    assert!(t.checker.diags.is_empty());
    let int = t.integer();
    assert_eq!(t.checker.table.bindings[0], Some(int));
    assert_eq!(t.checker.table.apply(&t.hir, &mut t.s, var), int);
    // Bound to the integer type, the variable does not fit a string.
    assert_eq!(t.check(TEXT, var), INVALID);
    assert_eq!(t.checker.diags.len(), 1);
    t.assert_mismatch_at(0, TEXT);
    assert_eq!(t.check(TWO, var), INT);
    assert_eq!(t.checker.diags.len(), 1);
}

#[test]
fn both_branches_share_the_expected_variable() {
    let mut t = setup();
    let var = t.checker.fresh_ty(&t.hir, &mut t.s);
    assert_eq!(t.check(IF_DIFFER, var), INVALID);
    assert_eq!(t.checker.diags.len(), 1);
    t.assert_mismatch_at(0, TEXT);
    let mut t = setup();
    let var = t.checker.fresh_ty(&t.hir, &mut t.s);
    assert_eq!(t.check(IF_ELSE, var), INT);
    assert!(t.checker.diags.is_empty());
}

#[test]
fn variables_are_replaced_inside_applications() {
    let mut t = setup();
    let var = t.checker.fresh_ty(&t.hir, &mut t.s);
    let ptr = t.s.types.ptr();
    let ptr_var = t.s.types.app(ptr, var);
    assert!(!is_ground(&t.s.types, ptr_var));
    assert_eq!(t.checker.table.apply(&t.hir, &mut t.s, ptr_var), ptr_var);
    assert_eq!(t.check(ONE, var), INT);
    let int = t.integer();
    let ptr_int = t.s.types.app(ptr, int);
    assert!(is_ground(&t.s.types, ptr_int));
    assert!(has_vars_below(&t.s.types, ptr_int, 0));
    assert!(has_vars_below(&t.s.types, ptr_var, 1));
    assert!(!has_vars_below(&t.s.types, ptr_var, 0));
    assert_eq!(t.checker.table.apply(&t.hir, &mut t.s, ptr_var), ptr_int);
}

#[test]
fn type_with_an_unbound_variable_inside_is_no_match_for_a_literal() {
    let mut t = setup();
    let var = t.checker.fresh_ty(&t.hir, &mut t.s);
    let ptr = t.s.types.ptr();
    let ptr_var = t.s.types.app(ptr, var);
    assert_eq!(t.check(ONE, ptr_var), INVALID);
    assert_eq!(t.checker.diags.len(), 1);
    assert_eq!(t.checker.table.bindings[0], None);
}

#[test]
fn invalid_expectation_is_carried_on_without_a_diagnostic() {
    let mut t = setup();
    let invalid = t.s.types.invalid(InvalidCause::AssocTy);
    assert_eq!(t.check(ONE, invalid), TyData::Invalid(InvalidCause::AssocTy));
    assert!(t.checker.diags.is_empty());
}

#[test]
fn new_checker_has_checked_nothing() {
    let t = setup();
    assert!(t.checker.diags.is_empty());
    assert!(t.checker.env.scopes.is_empty());
    assert_eq!(t.checker.env.expr_tys.len(), t.hir.exprs.len());
    assert_eq!(t.recorded(ONE), None);
    assert_eq!(t.checker.env.expr_ty(ExprId(1000)), None);
}

#[test]
fn tells_what_it_can_check() {
    let mut t = setup();
    let int = t.integer();
    assert!(t.checker.can_check(&t.hir, &t.s, ExprId(ONE), int));
    assert!(!t.checker.can_check(&t.hir, &t.s, ExprId(1000), int));
    assert!(!t.checker.can_check(&t.hir, &t.s, ExprId(ONE), TyId(1000)));
    // A variable that this checker has not handed out.
    let foreign = t.s.types.var(0);
    assert!(!t.checker.can_check(&t.hir, &t.s, ExprId(ONE), foreign));
    let own = t.checker.fresh_ty(&t.hir, &mut t.s);
    assert_eq!(own, foreign);
    assert!(t.checker.can_check(&t.hir, &t.s, ExprId(ONE), own));
    let later = t.s.types.var(1);
    let ptr = t.s.types.ptr();
    let inside = t.s.types.app(ptr, later);
    assert!(!t.checker.can_check(&t.hir, &t.s, ExprId(ONE), inside));
    t.checker.table.next_var = usize::MAX - 1;
    assert!(t.checker.can_check(&t.hir, &t.s, ExprId(COND), int));
    assert!(!t.checker.can_check(&t.hir, &t.s, ExprId(ONE), int));
}

#[test]
fn expression_of_another_shape_cannot_be_checked() {
    let mut hir = program();
    let at = hir.exprs.len();
    hir.exprs.push(ExprNode { data: Partial::Present(Expr::Call), span: span_of(at) });
    hir.exprs.push(ExprNode {
        data: Partial::Present(Expr::Lit(LitKind::Int(3))),
        span: span_of(at + 1),
    });
    assert!(hir.validate());
    assert!(hir.validate_exprs(at));
    assert!(!hir.validate_exprs(at + 1));
    let mut s = Session::new(&hir);
    let mut checker = TyChecker::new(&hir, &s);
    let bot = s.types.bot();
    assert!(!checker.can_check(&hir, &s, ExprId(at), bot));
    assert!(!checker.can_check(&hir, &s, ExprId(at + 1), bot));
    // What stands before it is checked as ever.
    assert!(checker.can_check(&hir, &s, ExprId(IF_ELSE), bot));
    let ty = checker.check_expr(&hir, &mut s, ExprId(IF_ELSE), bot);
    assert_eq!(s.types.data(ty), INT);
}

#[test]
fn expression_that_refers_forward_cannot_be_checked() {
    let mut hir = program();
    let at = hir.exprs.len();
    hir.exprs.push(ExprNode {
        data: Partial::Present(Expr::Block(vec![ExprId(at)])),
        span: span_of(at),
    });
    let mut s = Session::new(&hir);
    let checker = TyChecker::new(&hir, &s);
    let bot = s.types.bot();
    assert!(!hir.validate_exprs(at + 1));
    assert!(!checker.can_check(&hir, &s, ExprId(at), bot));
}
