//! Deep copies of syntax trees (the derived `Clone` is not available on these
//! recursive types).
use vstd::prelude::*;
use crate::parser::{Expr, Stmt, TemplateExprPart, PropKey, SwitchCase};
use crate::text::slice_range;

verus! {

/// The same names, in the same order.
pub open spec fn same_names(a: Seq<Vec<char>>, b: Seq<Vec<char>>) -> bool {
    a.len() == b.len() && forall|i: int| 0 <= i < a.len() ==> #[trigger] a[i]@ == b[i]@
}

/// Both absent, or both present with the same characters.
pub open spec fn same_opt_chars(a: Option<Vec<char>>, b: Option<Vec<char>>) -> bool {
    match a {
        Some(x) => b matches Some(y) && x@ == y@,
        None => b is None,
    }
}

/// Expressions of the same shape, with the same names, texts, numbers and operators.
pub open spec fn same_expr(a: Expr, b: Expr) -> bool
    decreases a,
{
    match a {
        Expr::Number(n) => b == Expr::Number(n),
        Expr::Str(s) => b matches Expr::Str(t) && s@ == t@,
        Expr::Bool(x) => b == Expr::Bool(x),
        Expr::Null => b is Null,
        Expr::Undefined => b is Undefined,
        Expr::Ident(s) => b matches Expr::Ident(t) && s@ == t@,
        Expr::This => b is This,
        Expr::TemplateLiteral(p) => b matches Expr::TemplateLiteral(q) && p@.len() == q@.len()
            && forall|i: int| 0 <= i < p@.len() ==> same_part(#[trigger] p@[i], q@[i]),
        Expr::Array(x) => b matches Expr::Array(y) && same_exprs(x@, y@),
        Expr::Object(p) => b matches Expr::Object(q) && p@.len() == q@.len() && forall|i: int|
            0 <= i < p@.len() ==> same_prop(#[trigger] p@[i], q@[i]),
        Expr::Binary(l, op, r) => b matches Expr::Binary(l2, op2, r2) && op == op2 && same_expr(
            *l,
            *l2,
        ) && same_expr(*r, *r2),
        Expr::Unary(op, x) => b matches Expr::Unary(op2, y) && op == op2 && same_expr(*x, *y),
        Expr::Postfix(x, op) => b matches Expr::Postfix(y, op2) && op == op2 && same_expr(*x, *y),
        Expr::Assign(t, op, v) => b matches Expr::Assign(t2, op2, v2) && op == op2 && same_expr(
            *t,
            *t2,
        ) && same_expr(*v, *v2),
        Expr::Member(o, p) => b matches Expr::Member(o2, p2) && p@ == p2@ && same_expr(*o, *o2),
        Expr::Index(o, i) => b matches Expr::Index(o2, i2) && same_expr(*o, *o2) && same_expr(
            *i,
            *i2,
        ),
        Expr::OptionalMember(o, p) => b matches Expr::OptionalMember(o2, p2) && p@ == p2@
            && same_expr(*o, *o2),
        Expr::Call(c, args) => b matches Expr::Call(c2, args2) && same_expr(*c, *c2) && same_exprs(
            args@,
            args2@,
        ),
        Expr::New(c, args) => b matches Expr::New(c2, args2) && same_expr(*c, *c2) && same_exprs(
            args@,
            args2@,
        ),
        Expr::Ternary(c, x, y) => b matches Expr::Ternary(c2, x2, y2) && same_expr(*c, *c2)
            && same_expr(*x, *x2) && same_expr(*y, *y2),
        Expr::Arrow(ps, body) => b matches Expr::Arrow(ps2, body2) && same_names(ps@, ps2@)
            && same_stmt(*body, *body2),
        Expr::FunctionExpr(n, ps, body) => b matches Expr::FunctionExpr(n2, ps2, body2)
            && same_opt_chars(n, n2) && same_names(ps@, ps2@) && same_stmts(body@, body2@),
        Expr::Regex(p, f) => b matches Expr::Regex(p2, f2) && p@ == p2@ && f@ == f2@,
        Expr::Typeof(x) => b matches Expr::Typeof(y) && same_expr(*x, *y),
        Expr::Void(x) => b matches Expr::Void(y) && same_expr(*x, *y),
        Expr::Delete(x) => b matches Expr::Delete(y) && same_expr(*x, *y),
        Expr::Sequence(x) => b matches Expr::Sequence(y) && same_exprs(x@, y@),
        Expr::Spread(x) => b matches Expr::Spread(y) && same_expr(*x, *y),
    }
}

/// Element by element the same expressions.
pub open spec fn same_exprs(a: Seq<Expr>, b: Seq<Expr>) -> bool
    decreases a,
{
    a.len() == b.len() && forall|i: int| 0 <= i < a.len() ==> same_expr(#[trigger] a[i], b[i])
}

/// Element by element the same statements.
pub open spec fn same_stmts(a: Seq<Stmt>, b: Seq<Stmt>) -> bool
    decreases a,
{
    a.len() == b.len() && forall|i: int| 0 <= i < a.len() ==> same_stmt(#[trigger] a[i], b[i])
}

/// Both absent, or the same expression.
pub open spec fn same_opt_expr(a: Option<Expr>, b: Option<Expr>) -> bool
    decreases a,
{
    match a {
        Some(x) => b matches Some(y) && same_expr(x, y),
        None => b is None,
    }
}

/// The same part of a template literal.
pub open spec fn same_part(a: TemplateExprPart, b: TemplateExprPart) -> bool
    decreases a,
{
    match a {
        TemplateExprPart::Str(s) => b matches TemplateExprPart::Str(t) && s@ == t@,
        TemplateExprPart::Expr(x) => b matches TemplateExprPart::Expr(y) && same_expr(x, y),
    }
}

/// The same property of an object literal.
pub open spec fn same_prop(a: (PropKey, Expr), b: (PropKey, Expr)) -> bool
    decreases a,
{
    (match a.0 {
        PropKey::Ident(s) => b.0 matches PropKey::Ident(t) && s@ == t@,
        PropKey::Str(s) => b.0 matches PropKey::Str(t) && s@ == t@,
        PropKey::Number(n) => b.0 == PropKey::Number(n),
        PropKey::Computed(x) => b.0 matches PropKey::Computed(y) && same_expr(x, y),
    }) && same_expr(a.1, b.1)
}

/// The same declared name and initializer.
pub open spec fn same_decl(a: (Vec<char>, Option<Expr>), b: (Vec<char>, Option<Expr>)) -> bool
    decreases a,
{
    a.0@ == b.0@ && same_opt_expr(a.1, b.1)
}

/// The same case of a `switch`.
pub open spec fn same_case(a: SwitchCase, b: SwitchCase) -> bool
    decreases a,
{
    same_opt_expr(a.test, b.test) && same_stmts(a.body@, b.body@)
}

/// Statements of the same shape, with the same parts.
pub open spec fn same_stmt(a: Stmt, b: Stmt) -> bool
    decreases a,
{
    match a {
        Stmt::Expr(e) => b matches Stmt::Expr(e2) && same_expr(e, e2),
        Stmt::VarDecl(k, ds) => b matches Stmt::VarDecl(k2, ds2) && k == k2 && ds@.len()
            == ds2@.len() && forall|i: int| 0 <= i < ds@.len() ==> same_decl(#[trigger] ds@[i], ds2@[i]),
        Stmt::Block(x) => b matches Stmt::Block(y) && same_stmts(x@, y@),
        Stmt::If(c, t, e) => b matches Stmt::If(c2, t2, e2) && same_expr(c, c2) && same_stmt(*t, *t2)
            && match e {
            Some(x) => e2 matches Some(y) && same_stmt(*x, *y),
            None => e2 is None,
        },
        Stmt::While(c, x) => b matches Stmt::While(c2, y) && same_expr(c, c2) && same_stmt(*x, *y),
        Stmt::DoWhile(x, c) => b matches Stmt::DoWhile(y, c2) && same_expr(c, c2) && same_stmt(*x, *y),
        Stmt::For(init, cond, upd, body) => b matches Stmt::For(init2, cond2, upd2, body2) && (
        match init {
            Some(x) => init2 matches Some(y) && same_stmt(*x, *y),
            None => init2 is None,
        }) && same_opt_expr(cond, cond2) && same_opt_expr(upd, upd2) && same_stmt(*body, *body2),
        Stmt::ForIn(k, n, e, x) => b matches Stmt::ForIn(k2, n2, e2, y) && k == k2 && n@ == n2@
            && same_expr(e, e2) && same_stmt(*x, *y),
        Stmt::ForOf(k, n, e, x) => b matches Stmt::ForOf(k2, n2, e2, y) && k == k2 && n@ == n2@
            && same_expr(e, e2) && same_stmt(*x, *y),
        Stmt::FunctionDecl(n, ps, body) => b matches Stmt::FunctionDecl(n2, ps2, body2) && n@
            == n2@ && same_names(ps@, ps2@) && same_stmts(body@, body2@),
        Stmt::Return(e) => b matches Stmt::Return(e2) && same_opt_expr(e, e2),
        Stmt::Break => b is Break,
        Stmt::Continue => b is Continue,
        Stmt::Switch(d, cs) => b matches Stmt::Switch(d2, cs2) && same_expr(d, d2) && cs@.len()
            == cs2@.len() && forall|i: int| 0 <= i < cs@.len() ==> same_case(#[trigger] cs@[i], cs2@[i]),
        Stmt::TryCatch(body, catch, fin) => b matches Stmt::TryCatch(body2, catch2, fin2)
            && same_stmts(body@, body2@) && (match catch {
            Some(c) => catch2 matches Some(c2) && same_opt_chars(c.0, c2.0) && same_stmts(
                c.1@,
                c2.1@,
            ),
            None => catch2 is None,
        }) && (match fin {
            Some(f) => fin2 matches Some(f2) && same_stmts(f@, f2@),
            None => fin2 is None,
        }),
        Stmt::Throw(e) => b matches Stmt::Throw(e2) && same_expr(e, e2),
        Stmt::Empty => b is Empty,
    }
}

pub fn clone_chars(v: &Vec<char>) -> (r: Vec<char>)
    ensures
        r@ == v@,
{
    let r = slice_range(v.as_slice(), 0, v.len());
    assert(v@.subrange(0, v@.len() as int) =~= v@);
    r
}

pub fn clone_names(v: &Vec<Vec<char>>) -> (r: Vec<Vec<char>>)
    ensures
        r@.len() == v@.len(),
        forall|i: int| 0 <= i < v@.len() ==> #[trigger] r@[i]@ == v@[i]@,
{
    let mut r: Vec<Vec<char>> = Vec::new();
    let mut i: usize = 0;
    while i < v.len()
        invariant
            0 <= i <= v@.len(),
            r@.len() == i,
            forall|j: int| 0 <= j < i ==> #[trigger] r@[j]@ == v@[j]@,
        decreases v.len() - i,
    {
        r.push(clone_chars(&v[i]));
        i = i + 1;
    }
    r
}

pub fn clone_opt_chars(v: &Option<Vec<char>>) -> (r: Option<Vec<char>>)
    ensures
        v is None <==> r is None,
        v matches Some(x) ==> (r matches Some(y) && y@ == x@),
{
    match v {
        Some(s) => Some(clone_chars(s)),
        None => None,
    }
}

pub fn clone_exprs(v: &Vec<Expr>) -> (r: Vec<Expr>)
    ensures
        same_exprs(v@, r@),
    decreases v,
{
    let mut r: Vec<Expr> = Vec::new();
    let mut i: usize = 0;
    while i < v.len()
        invariant
            0 <= i <= v@.len(),
            r@.len() == i,
            forall|j: int| 0 <= j < i ==> #[trigger] same_expr(v@[j], r@[j]),
        decreases v.len() - i,
    {
        proof {
            assert(decreases_to!(v => v@)); assert(decreases_to!(v@ => v@[i as int]));
        }
        r.push(clone_expr(&v[i]));
        i = i + 1;
    }
    proof {
        assert forall|k: int| 0 <= k < v@.len() implies same_expr(#[trigger] v@[k], r@[k]) by {
            assert(same_expr(v@[k], r@[k]));
        }
        assert(same_exprs(v@, r@));
    }
    r
}

pub fn clone_stmts(v: &Vec<Stmt>) -> (r: Vec<Stmt>)
    ensures
        same_stmts(v@, r@),
    decreases v,
{
    let mut r: Vec<Stmt> = Vec::new();
    let mut i: usize = 0;
    while i < v.len()
        invariant
            0 <= i <= v@.len(),
            r@.len() == i,
            forall|j: int| 0 <= j < i ==> #[trigger] same_stmt(v@[j], r@[j]),
        decreases v.len() - i,
    {
        proof {
            assert(decreases_to!(v => v@)); assert(decreases_to!(v@ => v@[i as int]));
        }
        r.push(clone_stmt(&v[i]));
        i = i + 1;
    }
    proof {
        assert forall|k: int| 0 <= k < v@.len() implies same_stmt(#[trigger] v@[k], r@[k]) by {
            assert(same_stmt(v@[k], r@[k]));
        }
        assert(same_stmts(v@, r@));
    }
    r
}

pub fn clone_opt_expr(e: &Option<Expr>) -> (r: Option<Expr>)
    ensures
        same_opt_expr(*e, r),
    decreases e,
{
    match e {
        Some(x) => Some(clone_expr(x)),
        None => None,
    }
}

fn clone_template_part(p: &TemplateExprPart) -> (r: TemplateExprPart)
    ensures
        same_part(*p, r),
    decreases p,
{
    match p {
        TemplateExprPart::Str(s) => TemplateExprPart::Str(clone_chars(s)),
        TemplateExprPart::Expr(x) => TemplateExprPart::Expr(clone_expr(x)),
    }
}

fn clone_prop(p: &(PropKey, Expr)) -> (r: (PropKey, Expr))
    ensures
        same_prop(*p, r),
    decreases p,
{
    let key = match &p.0 {
        PropKey::Ident(s) => PropKey::Ident(clone_chars(s)),
        PropKey::Str(s) => PropKey::Str(clone_chars(s)),
        PropKey::Number(n) => PropKey::Number(*n),
        PropKey::Computed(x) => PropKey::Computed(clone_expr(x)),
    };
    (key, clone_expr(&p.1))
}

fn clone_decl(d: &(Vec<char>, Option<Expr>)) -> (r: (Vec<char>, Option<Expr>))
    ensures
        same_decl(*d, r),
    decreases d,
{
    (clone_chars(&d.0), clone_opt_expr(&d.1))
}

fn clone_case(c: &SwitchCase) -> (r: SwitchCase)
    ensures
        same_case(*c, r),
    decreases c,
{
    SwitchCase { test: clone_opt_expr(&c.test), body: clone_stmts(&c.body) }
}

fn clone_template_parts(v: &Vec<TemplateExprPart>) -> (r: Vec<TemplateExprPart>)
    ensures
        v@.len() == r@.len() && forall|i: int| 0 <= i < v@.len() ==> same_part(#[trigger] v@[i], r@[i]),
    decreases v,
{
    let mut r: Vec<TemplateExprPart> = Vec::new();
    let mut i: usize = 0;
    while i < v.len()
        invariant
            0 <= i <= v@.len(),
            r@.len() == i,
            forall|j: int| 0 <= j < i ==> #[trigger] same_part(v@[j], r@[j]),
        decreases v.len() - i,
    {
        proof {
            assert(decreases_to!(v => v@)); assert(decreases_to!(v@ => v@[i as int]));
        }
        r.push(clone_template_part(&v[i]));
        i = i + 1;
    }
    r
}

fn clone_props(v: &Vec<(PropKey, Expr)>) -> (r: Vec<(PropKey, Expr)>)
    ensures
        v@.len() == r@.len() && forall|i: int| 0 <= i < v@.len() ==> same_prop(#[trigger] v@[i], r@[i]),
    decreases v,
{
    let mut r: Vec<(PropKey, Expr)> = Vec::new();
    let mut i: usize = 0;
    while i < v.len()
        invariant
            0 <= i <= v@.len(),
            r@.len() == i,
            forall|j: int| 0 <= j < i ==> #[trigger] same_prop(v@[j], r@[j]),
        decreases v.len() - i,
    {
        proof {
            assert(decreases_to!(v => v@)); assert(decreases_to!(v@ => v@[i as int]));
        }
        r.push(clone_prop(&v[i]));
        i = i + 1;
    }
    r
}

fn clone_decls(v: &Vec<(Vec<char>, Option<Expr>)>) -> (r: Vec<(Vec<char>, Option<Expr>)>)
    ensures
        v@.len() == r@.len() && forall|i: int| 0 <= i < v@.len() ==> same_decl(#[trigger] v@[i], r@[i]),
    decreases v,
{
    let mut r: Vec<(Vec<char>, Option<Expr>)> = Vec::new();
    let mut i: usize = 0;
    while i < v.len()
        invariant
            0 <= i <= v@.len(),
            r@.len() == i,
            forall|j: int| 0 <= j < i ==> #[trigger] same_decl(v@[j], r@[j]),
        decreases v.len() - i,
    {
        proof {
            assert(decreases_to!(v => v@)); assert(decreases_to!(v@ => v@[i as int]));
        }
        r.push(clone_decl(&v[i]));
        i = i + 1;
    }
    r
}

fn clone_cases(v: &Vec<SwitchCase>) -> (r: Vec<SwitchCase>)
    ensures
        v@.len() == r@.len() && forall|i: int| 0 <= i < v@.len() ==> same_case(#[trigger] v@[i], r@[i]),
    decreases v,
{
    let mut r: Vec<SwitchCase> = Vec::new();
    let mut i: usize = 0;
    while i < v.len()
        invariant
            0 <= i <= v@.len(),
            r@.len() == i,
            forall|j: int| 0 <= j < i ==> #[trigger] same_case(v@[j], r@[j]),
        decreases v.len() - i,
    {
        proof {
            assert(decreases_to!(v => v@)); assert(decreases_to!(v@ => v@[i as int]));
        }
        r.push(clone_case(&v[i]));
        i = i + 1;
    }
    r
}

pub fn clone_expr(e: &Expr) -> (r: Expr)
    ensures
        same_expr(*e, r),
    decreases e,
{
    match e {
        Expr::Number(n) => Expr::Number(*n),
        Expr::Str(s) => Expr::Str(clone_chars(s)),
        Expr::Bool(b) => Expr::Bool(*b),
        Expr::Null => Expr::Null,
        Expr::Undefined => Expr::Undefined,
        Expr::Ident(s) => Expr::Ident(clone_chars(s)),
        Expr::This => Expr::This,
        Expr::TemplateLiteral(parts) => Expr::TemplateLiteral(clone_template_parts(parts)),
        Expr::Array(items) => Expr::Array(clone_exprs(items)),
        Expr::Object(props) => Expr::Object(clone_props(props)),
        Expr::Binary(l, op, r) => Expr::Binary(Box::new(clone_expr(l)), *op, Box::new(clone_expr(r))),
        Expr::Unary(op, x) => Expr::Unary(*op, Box::new(clone_expr(x))),
        Expr::Postfix(x, op) => Expr::Postfix(Box::new(clone_expr(x)), *op),
        Expr::Assign(t, op, v) => Expr::Assign(Box::new(clone_expr(t)), *op, Box::new(clone_expr(v))),
        Expr::Member(o, p) => Expr::Member(Box::new(clone_expr(o)), clone_chars(p)),
        Expr::Index(o, i) => Expr::Index(Box::new(clone_expr(o)), Box::new(clone_expr(i))),
        Expr::OptionalMember(o, p) => Expr::OptionalMember(Box::new(clone_expr(o)), clone_chars(p)),
        Expr::Call(c, args) => Expr::Call(Box::new(clone_expr(c)), clone_exprs(args)),
        Expr::New(c, args) => Expr::New(Box::new(clone_expr(c)), clone_exprs(args)),
        Expr::Ternary(c, a, b) => Expr::Ternary(
            Box::new(clone_expr(c)),
            Box::new(clone_expr(a)),
            Box::new(clone_expr(b)),
        ),
        Expr::Arrow(params, body) => Expr::Arrow(clone_names(params), Box::new(clone_stmt(body))),
        Expr::FunctionExpr(name, params, body) => Expr::FunctionExpr(
            clone_opt_chars(name),
            clone_names(params),
            clone_stmts(body),
        ),
        Expr::Regex(p, f) => Expr::Regex(clone_chars(p), clone_chars(f)),
        Expr::Typeof(x) => Expr::Typeof(Box::new(clone_expr(x))),
        Expr::Void(x) => Expr::Void(Box::new(clone_expr(x))),
        Expr::Delete(x) => Expr::Delete(Box::new(clone_expr(x))),
        Expr::Sequence(items) => Expr::Sequence(clone_exprs(items)),
        Expr::Spread(x) => Expr::Spread(Box::new(clone_expr(x))),
    }
}

pub fn clone_stmt(s: &Stmt) -> (r: Stmt)
    ensures
        same_stmt(*s, r),
    decreases s,
{
    match s {
        Stmt::Expr(e) => Stmt::Expr(clone_expr(e)),
        Stmt::VarDecl(kind, decls) => Stmt::VarDecl(*kind, clone_decls(decls)),
        Stmt::Block(stmts) => Stmt::Block(clone_stmts(stmts)),
        Stmt::If(c, t, e) => {
            let els = match e {
                Some(x) => Some(Box::new(clone_stmt(x))),
                None => None,
            };
            Stmt::If(clone_expr(c), Box::new(clone_stmt(t)), els)
        },
        Stmt::While(c, b) => Stmt::While(clone_expr(c), Box::new(clone_stmt(b))),
        Stmt::DoWhile(b, c) => Stmt::DoWhile(Box::new(clone_stmt(b)), clone_expr(c)),
        Stmt::For(init, cond, update, body) => {
            let i2 = match init {
                Some(x) => Some(Box::new(clone_stmt(x))),
                None => None,
            };
            Stmt::For(i2, clone_opt_expr(cond), clone_opt_expr(update), Box::new(clone_stmt(body)))
        },
        Stmt::ForIn(k, n, e, b) => Stmt::ForIn(*k, clone_chars(n), clone_expr(e), Box::new(clone_stmt(b))),
        Stmt::ForOf(k, n, e, b) => Stmt::ForOf(*k, clone_chars(n), clone_expr(e), Box::new(clone_stmt(b))),
        Stmt::FunctionDecl(n, params, body) => Stmt::FunctionDecl(
            clone_chars(n),
            clone_names(params),
            clone_stmts(body),
        ),
        Stmt::Return(e) => Stmt::Return(clone_opt_expr(e)),
        Stmt::Break => Stmt::Break,
        Stmt::Continue => Stmt::Continue,
        Stmt::Switch(d, cases) => Stmt::Switch(clone_expr(d), clone_cases(cases)),
        Stmt::TryCatch(body, catch, finally) => {
            let c2 = match catch {
                Some((p, b)) => Some((clone_opt_chars(p), clone_stmts(b))),
                None => None,
            };
            let f2 = match finally {
                Some(b) => Some(clone_stmts(b)),
                None => None,
            };
            Stmt::TryCatch(clone_stmts(body), c2, f2)
        },
        Stmt::Throw(e) => Stmt::Throw(clone_expr(e)),
        Stmt::Empty => Stmt::Empty,
    }
}

} // verus!
