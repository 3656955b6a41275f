//! JavaScript parser: recursive descent from a token stream to an AST.
//!
//! Supports variable declarations, assignments, function declarations and
//! expressions, if/else, for, while, do-while, switch, try/catch/finally, object and
//! array literals, member access (dot and bracket), calls, arrow functions, ternary,
//! binary and unary operators, typeof, new, void, delete and throw.
use vstd::prelude::*;
use crate::double::Double;
use crate::tokenizer::{Token, TemplatePart, spec_keyword_token, tok_view};
use crate::text::{str_to_chars, push_str, push_all, slices_eq};
use crate::debugfmt::{debug_token, debug_token_fits};
use crate::astclone::clone_expr;

verus! {

// ---------------------------------------------------------------------------
// AST nodes
// ---------------------------------------------------------------------------

#[derive(Debug)]
pub enum Expr {
    Number(Double),
    Str(Vec<char>),
    Bool(bool),
    Null,
    Undefined,
    Ident(Vec<char>),
    This,
    /// Template literal: string parts and expression parts
    TemplateLiteral(Vec<TemplateExprPart>),
    /// Array literal: [a, b, c]
    Array(Vec<Expr>),
    /// Object literal: { key: value, ... }
    Object(Vec<(PropKey, Expr)>),
    /// Binary operation: a + b
    Binary(Box<Expr>, BinOp, Box<Expr>),
    /// Unary operation: !a, -a, ~a
    Unary(UnaryOp, Box<Expr>),
    /// Postfix operation: a++, a--
    Postfix(Box<Expr>, PostfixOp),
    /// Assignment: a = b, a += b, ...
    Assign(Box<Expr>, AssignOp, Box<Expr>),
    /// Member access: obj.prop
    Member(Box<Expr>, Vec<char>),
    /// Computed member access: obj[expr]
    Index(Box<Expr>, Box<Expr>),
    /// Optional chaining: obj?.prop
    OptionalMember(Box<Expr>, Vec<char>),
    /// Function call: f(a, b)
    Call(Box<Expr>, Vec<Expr>),
    /// new Foo(args)
    New(Box<Expr>, Vec<Expr>),
    /// Ternary: cond ? a : b
    Ternary(Box<Expr>, Box<Expr>, Box<Expr>),
    /// Arrow function: (params) => body
    Arrow(Vec<Vec<char>>, Box<Stmt>),
    /// Function expression: function name(params) { body }
    FunctionExpr(Option<Vec<char>>, Vec<Vec<char>>, Vec<Stmt>),
    /// Regex literal: /pattern/flags
    Regex(Vec<char>, Vec<char>),
    /// typeof expr
    Typeof(Box<Expr>),
    /// void expr
    Void(Box<Expr>),
    /// delete expr
    Delete(Box<Expr>),
    /// Comma expression: (a, b)
    Sequence(Vec<Expr>),
    /// Spread: ...expr
    Spread(Box<Expr>),
}

#[derive(Debug)]
pub enum TemplateExprPart {
    Str(Vec<char>),
    Expr(Expr),
}

#[derive(Debug)]
pub enum PropKey {
    Ident(Vec<char>),
    Str(Vec<char>),
    Number(Double),
    Computed(Expr),
}

#[derive(Debug, Clone, Copy, PartialEq, Eq, Structural)]
pub enum BinOp {
    Add,
    Sub,
    Mul,
    Div,
    Mod,
    Pow,
    Eq,
    StrictEq,
    NotEq,
    StrictNotEq,
    Lt,
    Gt,
    LtEq,
    GtEq,
    And,
    Or,
    NullishCoalesce,
    BitAnd,
    BitOr,
    BitXor,
    Shl,
    Shr,
    Ushr,
    Instanceof,
    In,
}

#[derive(Debug, Clone, Copy, PartialEq, Eq, Structural)]
pub enum UnaryOp {
    Neg,
    Pos,
    Not,
    BitNot,
    Typeof,
    Void,
    Delete,
}

#[derive(Debug, Clone, Copy, PartialEq, Eq, Structural)]
pub enum PostfixOp {
    Inc,
    Dec,
}

#[derive(Debug, Clone, Copy, PartialEq, Eq, Structural)]
pub enum AssignOp {
    Assign,
    AddAssign,
    SubAssign,
    MulAssign,
    DivAssign,
    ModAssign,
    BitAndAssign,
    BitOrAssign,
    BitXorAssign,
    ShlAssign,
    ShrAssign,
    UshrAssign,
}

#[derive(Debug)]
pub enum Stmt {
    /// Expression statement
    Expr(Expr),
    /// Variable declaration: var/let/const name = expr, ...
    VarDecl(VarKind, Vec<(Vec<char>, Option<Expr>)>),
    /// Block: { stmts }
    Block(Vec<Stmt>),
    /// If statement
    If(Expr, Box<Stmt>, Option<Box<Stmt>>),
    /// While loop
    While(Expr, Box<Stmt>),
    /// Do-while loop
    DoWhile(Box<Stmt>, Expr),
    /// For loop: for (init; cond; update) body
    For(Option<Box<Stmt>>, Option<Expr>, Option<Expr>, Box<Stmt>),
    /// For-in loop
    ForIn(VarKind, Vec<char>, Expr, Box<Stmt>),
    /// For-of loop
    ForOf(VarKind, Vec<char>, Expr, Box<Stmt>),
    /// Function declaration
    FunctionDecl(Vec<char>, Vec<Vec<char>>, Vec<Stmt>),
    /// Return statement
    Return(Option<Expr>),
    Break,
    Continue,
    Switch(Expr, Vec<SwitchCase>),
    /// Try/catch/finally
    TryCatch(Vec<Stmt>, Option<(Option<Vec<char>>, Vec<Stmt>)>, Option<Vec<Stmt>>),
    Throw(Expr),
    /// Empty statement (lone semicolon)
    Empty,
}

#[derive(Debug)]
pub struct SwitchCase {
    /// None = default case
    pub test: Option<Expr>,
    pub body: Vec<Stmt>,
}

#[derive(Debug, Clone, Copy, PartialEq, Eq, Structural)]
pub enum VarKind {
    Var,
    Let,
    Const,
}

// ---------------------------------------------------------------------------
// Token sizes: a measure that shrinks whenever the parser consumes a token or
// descends into the tokens of a template literal.
// ---------------------------------------------------------------------------

pub open spec fn token_size(t: Token) -> nat
    decreases t,
{
    match t {
        Token::TemplateLiteral(parts) => 1 + parts_size(parts@),
        _ => 1,
    }
}

pub open spec fn part_size(p: TemplatePart) -> nat
    decreases p,
{
    match p {
        TemplatePart::Str(_) => 1,
        TemplatePart::Expr(toks) => 1 + toks_size(toks@),
    }
}

pub open spec fn parts_size(s: Seq<TemplatePart>) -> nat
    decreases s,
{
    if s.len() == 0 {
        0
    } else {
        part_size(s[0]) + parts_size(s.drop_first())
    }
}

pub open spec fn toks_size(s: Seq<Token>) -> nat
    decreases s,
{
    if s.len() == 0 {
        0
    } else {
        token_size(s[0]) + toks_size(s.drop_first())
    }
}

proof fn lemma_toks_size_skip(s: Seq<Token>, i: int)
    requires
        0 <= i < s.len(),
    ensures
        toks_size(s.skip(i)) == token_size(s[i]) + toks_size(s.skip(i + 1)),
        token_size(s[i]) >= 1,
{
    assert(s.skip(i).drop_first() =~= s.skip(i + 1));
    assert(s.skip(i)[0] == s[i]);
}

proof fn lemma_toks_size_skip_mono(s: Seq<Token>, a: int, b: int)
    requires
        0 <= a <= b <= s.len(),
    ensures
        toks_size(s.skip(a)) >= toks_size(s.skip(b)) + (b - a),
    decreases b - a,
{
    if a < b {
        lemma_toks_size_skip(s, a);
        lemma_toks_size_skip_mono(s, a + 1, b);
    }
}

proof fn lemma_toks_size_push_eof(s: Seq<Token>)
    ensures
        toks_size(s.push(Token::Eof)) == toks_size(s) + 1,
    decreases s.len(),
{
    let t = s.push(Token::Eof);
    if s.len() == 0 {
        assert(t.drop_first() =~= Seq::<Token>::empty());
        assert(toks_size(t.drop_first()) == 0);
        assert(t[0] == Token::Eof);
        assert(token_size(t[0]) == 1);
    } else {
        assert(t[0] == s[0]);
        assert(t.drop_first() =~= s.drop_first().push(Token::Eof));
        lemma_toks_size_push_eof(s.drop_first());
    }
}

proof fn lemma_parts_size_elem(s: Seq<TemplatePart>, k: int)
    requires
        0 <= k < s.len(),
    ensures
        part_size(s[k]) <= parts_size(s.skip(k)),
        parts_size(s.skip(k)) == part_size(s[k]) + parts_size(s.skip(k + 1)),
{
    assert(s.skip(k).drop_first() =~= s.skip(k + 1));
    assert(s.skip(k)[0] == s[k]);
}

// ---------------------------------------------------------------------------
// Parser
// ---------------------------------------------------------------------------

/// Parses a token stream into a program (a list of statements).
/// A literal or name token, with the expression it makes on its own.
pub open spec fn spec_atom_expr(t: Token) -> Option<Expr> {
    match t {
        Token::Number(n) => Some(Expr::Number(n)),
        Token::Str(s) => Some(Expr::Str(s)),
        Token::True => Some(Expr::Bool(true)),
        Token::False => Some(Expr::Bool(false)),
        Token::Null => Some(Expr::Null),
        Token::Undefined => Some(Expr::Undefined),
        Token::Ident(n) => Some(Expr::Ident(n)),
        _ => None,
    }
}

/// At `p`: `(`, then `n` (at least one) literals or names separated by commas, then `)`.
pub open spec fn atom_args_at(t: Seq<Token>, p: int, n: int) -> bool {
    &&& n >= 1 && 0 <= p && p + 2 * n < t.len()
    &&& t[p] is LParen
    &&& forall|j: int| 0 <= j < n ==> #[trigger] spec_atom_expr(t[p + 1 + 2 * j]) is Some
    &&& forall|j: int| 0 <= j < n - 1 ==> #[trigger] t[p + 2 + 2 * j] is Comma
    &&& t[p + 2 * n] is RParen
}

/// The expressions of such an argument list, in order.
pub open spec fn atom_args(t: Seq<Token>, p: int, n: int) -> Seq<Expr> {
    Seq::new(n as nat, |j: int| spec_atom_expr(t[p + 1 + 2 * j])->0)
}

/// At `p`: a literal or name called with the argument list of `atom_args_at`, then a
/// token that ends an expression.
pub open spec fn call_shape(t: Seq<Token>, p: int, n: int) -> bool {
    &&& spec_atom_expr(t[p]) is Some
    &&& atom_args_at(t, p + 1, n)
    &&& p + 2 * n + 2 < t.len()
    &&& spec_stop_token(t[p + 2 * n + 2])
}

/// At `p`: a literal or name, `.`, a name, then a token that ends an expression or `=`.
pub open spec fn member_shape(t: Seq<Token>, p: int) -> bool {
    &&& 0 <= p && p + 3 < t.len()
    &&& spec_atom_expr(t[p]) is Some
    &&& t[p + 1] is Dot
    &&& t[p + 2] is Ident
    &&& (spec_stop_token(t[p + 3]) || t[p + 3] is Assign)
}

/// `x` is the member expression that `member_shape` describes at `p`.
pub open spec fn member_form(x: Expr, t: Seq<Token>, p: int) -> bool {
    x matches Expr::Member(o, m) && *o == spec_atom_expr(t[p])->0 && m@ == t[p + 2]->Ident_0@
}

/// `x` is the call that `method_call_shape` describes at `p` with `n` arguments.
pub open spec fn method_call_form(x: Expr, t: Seq<Token>, p: int, n: int) -> bool {
    x matches Expr::Call(c, a) && member_form(*c, t, p) && a@ == atom_args(t, p + 3, n)
}

/// At `p`: `x.name = y` with `x` and `y` literals or names, then a token that ends an
/// expression.
pub open spec fn member_assign_shape(t: Seq<Token>, p: int) -> bool {
    &&& member_shape(t, p)
    &&& t[p + 3] is Assign
    &&& p + 5 < t.len()
    &&& spec_atom_expr(t[p + 4]) is Some
    &&& spec_stop_token(t[p + 5])
}

/// `x` is the assignment that `member_assign_shape` describes at `p`.
pub open spec fn member_assign_form(x: Expr, t: Seq<Token>, p: int) -> bool {
    x matches Expr::Assign(l, op, rv) && op is Assign && member_form(*l, t, p) && *rv
        == spec_atom_expr(t[p + 4])->0
}

/// At `p`: a literal or name, `.`, a name, called with the argument list of
/// `atom_args_at`, then a token that ends an expression.
pub open spec fn method_call_shape(t: Seq<Token>, p: int, n: int) -> bool {
    &&& 0 <= p
    &&& spec_atom_expr(t[p]) is Some
    &&& t[p + 1] is Dot
    &&& t[p + 2] is Ident
    &&& atom_args_at(t, p + 3, n)
    &&& p + 2 * n + 4 < t.len()
    &&& spec_stop_token(t[p + 2 * n + 4])
}

/// Such an argument list reads the same in a token sequence that agrees from its start on.
proof fn lemma_atom_args_transfer(t: Seq<Token>, u: Seq<Token>, q: int, n: int)
    requires
        atom_args_at(t, q, n),
        u.len() == t.len(),
        forall|i: int| q <= i < t.len() ==> u[i] == t[i],
    ensures
        atom_args_at(u, q, n),
        atom_args(u, q, n) == atom_args(t, q, n),
{
    assert forall|j: int| 0 <= j < n implies #[trigger] spec_atom_expr(u[q + 1 + 2 * j]) is Some by {
        assert(u[q + 1 + 2 * j] == t[q + 1 + 2 * j]);
    }
    assert forall|j: int| 0 <= j < n - 1 implies #[trigger] u[q + 2 + 2 * j] is Comma by {
        assert(u[q + 2 + 2 * j] == t[q + 2 + 2 * j]);
    }
    assert(u[q] == t[q]);
    assert(u[q + 2 * n] == t[q + 2 * n]);
    assert(atom_args(u, q, n) =~= atom_args(t, q, n)) by {
        assert forall|j: int| 0 <= j < n implies atom_args(u, q, n)[j] == atom_args(t, q, n)[j] by {
            assert(u[q + 1 + 2 * j] == t[q + 1 + 2 * j]);
        }
    }
}

/// The declaration keyword a token stands for.
pub open spec fn spec_var_kind(t: Token) -> Option<VarKind> {
    match t {
        Token::Var => Some(VarKind::Var),
        Token::Let => Some(VarKind::Let),
        Token::Const => Some(VarKind::Const),
        _ => None,
    }
}

/// At `p`: `for ( var name in|of x ) ;` with `x` a literal or name.
pub open spec fn for_each_shape(t: Seq<Token>, p: int) -> bool {
    &&& 0 <= p && p + 7 < t.len()
    &&& t[p + 1] is LParen
    &&& spec_var_kind(t[p + 2]) is Some
    &&& t[p + 3] is Ident
    &&& (t[p + 4] is In || t[p + 4] is Of)
    &&& spec_atom_expr(t[p + 5]) is Some
    &&& t[p + 6] is RParen
    &&& t[p + 7] is Semicolon
}

/// An argument list of literals and names has one length only.
proof fn lemma_atom_args_unique(t: Seq<Token>, p: int, n: int, n2: int)
    requires
        atom_args_at(t, p, n),
        atom_args_at(t, p, n2),
    ensures
        n == n2,
{
    if n < n2 {
        assert(t[p + 2 + 2 * (n - 1)] is Comma);
    } else if n2 < n {
        assert(t[p + 2 + 2 * (n2 - 1)] is Comma);
    }
}

/// The string form of a literal token view: a string's text, `true`, `false`, `null`,
/// `undefined`.
pub open spec fn lit_view_form(v: (int, Seq<char>)) -> Option<Seq<char>> {
    if v.0 == 2 {
        Some(v.1)
    } else if v.0 == 10 {
        Some("true"@)
    } else if v.0 == 11 {
        Some("false"@)
    } else if v.0 == 12 {
        Some("null"@)
    } else if v.0 == 13 {
        Some("undefined"@)
    } else {
        None
    }
}

/// The string form of a literal expression of those kinds.
pub open spec fn lit_expr_form(x: Expr) -> Option<Seq<char>> {
    match x {
        Expr::Str(s) => Some(s@),
        Expr::Bool(b) => Some(if b { "true"@ } else { "false"@ }),
        Expr::Null => Some("null"@),
        Expr::Undefined => Some("undefined"@),
        _ => None,
    }
}

/// From `q`: such literals separated by commas and closed by `)`: their forms and the
/// position of the `)`.
pub open spec fn lit_args_view(vs: Seq<(int, Seq<char>)>, q: int) -> Option<(Seq<Seq<char>>, int)>
    decreases vs.len() - q,
{
    if q < 0 || q + 1 >= vs.len() {
        None
    } else {
        match lit_view_form(vs[q]) {
            Some(f) => if vs[q + 1].0 == 6 {
                Some((seq![f], q + 1))
            } else if vs[q + 1].0 == 7 {
                match lit_args_view(vs, q + 2) {
                    Some((fs, e)) => Some((seq![f] + fs, e)),
                    None => None,
                }
            } else {
                None
            },
            None => None,
        }
    }
}

/// A statement of the plain fragment of scripts at `p`: `console.log(...)` with literal
/// arguments (kind 1, with the arguments' forms), or `document.cookie = '...'` (kind 2,
/// with the string), each ended by `;` or the end of input; and where the next statement
/// starts.
pub open spec fn plain_stmt_view(vs: Seq<(int, Seq<char>)>, p: int) -> Option<
    (int, Seq<Seq<char>>, int),
> {
    if 0 <= p && p + 4 < vs.len() && vs[p] == (3int, "console"@) && vs[p + 1].0 == 4 && vs[p + 2]
        == (3int, "log"@) && vs[p + 3].0 == 5 {
        match lit_args_view(vs, p + 4) {
            Some((fs, e)) => if e + 1 < vs.len() && vs[e + 1].0 == 8 {
                Some((1, fs, e + 2))
            } else if e + 1 < vs.len() && vs[e + 1].0 == 1 {
                Some((1, fs, e + 1))
            } else {
                None
            },
            None => None,
        }
    } else if 0 <= p && p + 5 < vs.len() && vs[p] == (3int, "document"@) && vs[p + 1].0 == 4 && vs[p
        + 2] == (3int, "cookie"@) && vs[p + 3].0 == 9 && vs[p + 4].0 == 2 {
        if vs[p + 5].0 == 8 {
            Some((2, seq![vs[p + 4].1], p + 6))
        } else if vs[p + 5].0 == 1 {
            Some((2, seq![vs[p + 4].1], p + 5))
        } else {
            None
        }
    } else {
        None
    }
}

/// The statements of a plain script from `p` up to the end of input (empty statements
/// dropped), as (kind, text) pairs; `None` where something else stands.
pub open spec fn plain_script_view(vs: Seq<(int, Seq<char>)>, p: int) -> Option<
    Seq<(int, Seq<Seq<char>>)>,
>
    decreases vs.len() - p,
{
    if p < 0 || p >= vs.len() {
        None
    } else if vs[p].0 == 1 {
        Some(Seq::empty())
    } else if vs[p].0 == 8 {
        plain_script_view(vs, p + 1)
    } else {
        match plain_stmt_view(vs, p) {
            Some((k, x, e)) => if p < e {
                match plain_script_view(vs, e) {
                    Some(rest) => Some(seq![(k, x)] + rest),
                    None => None,
                }
            } else {
                None
            },
            None => None,
        }
    }
}

/// The parsed statement `st` is the plain statement `eff`.
pub open spec fn stmt_is_plain(st: Stmt, eff: (int, Seq<Seq<char>>)) -> bool {
    &&& eff.0 == 1 ==> (st matches Stmt::Expr(x) && (x matches Expr::Call(c, a) && (*c matches Expr::Member(
        o,
        m,
    ) && (*o matches Expr::Ident(n) && n@ == "console"@) && m@ == "log"@) && a@.len() == eff.1.len()
        && forall|j: int| 0 <= j < a@.len() ==> lit_expr_form(#[trigger] a@[j]) == Some(eff.1[j])))
    &&& eff.0 == 2 ==> (st matches Stmt::Expr(x) && (x matches Expr::Assign(l, op, rv) && op is Assign
        && (*l matches Expr::Member(o, m) && (*o matches Expr::Ident(n) && n@ == "document"@) && m@
        == "cookie"@) && (*rv matches Expr::Str(v) && eff.1 == seq![v@])))
    &&& eff.0 == 1 || eff.0 == 2
}

/// Literal arguments read from their views: where they stand, their expressions and the
/// closing `)`.
proof fn lemma_lit_args(t: Seq<Token>, vs: Seq<(int, Seq<char>)>, r: int)
    requires
        vs == t.map_values(|x: Token| tok_view(x)),
        lit_args_view(vs, r) is Some,
    ensures
        ({
            let (fs, e) = lit_args_view(vs, r)->0;
            &&& fs.len() >= 1
            &&& e == r + 2 * fs.len() - 1
            &&& e < t.len()
            &&& t[e] is RParen
            &&& forall|j: int| 0 <= j < fs.len() ==> spec_atom_expr(#[trigger] t[r + 2 * j]) is Some
                && lit_expr_form(spec_atom_expr(t[r + 2 * j])->0) == Some(fs[j])
            &&& forall|j: int| 0 <= j < fs.len() - 1 ==> #[trigger] t[r + 1 + 2 * j] is Comma
        }),
    decreases vs.len() - r,
{
    let tk = t[r];
    assert(vs[r] == tok_view(tk));
    assert(vs[r + 1] == tok_view(t[r + 1]));
    if vs[r + 1].0 == 7 {
        lemma_lit_args(t, vs, r + 2);
        let (fs2, e2) = lit_args_view(vs, r + 2)->0;
        let (fs, e) = lit_args_view(vs, r)->0;
        assert(fs == seq![lit_view_form(vs[r])->0] + fs2);
        assert forall|j: int| 0 <= j < fs.len() implies spec_atom_expr(#[trigger] t[r + 2 * j]) is Some
            && lit_expr_form(spec_atom_expr(t[r + 2 * j])->0) == Some(fs[j]) by {
            if j > 0 {
                assert(t[r + 2 * j] == t[(r + 2) + 2 * (j - 1)]);
                assert(fs[j] == fs2[j - 1]);
            }
        }
        assert forall|j: int| 0 <= j < fs.len() - 1 implies #[trigger] t[r + 1 + 2 * j] is Comma by {
            if j > 0 {
                assert(t[r + 1 + 2 * j] == t[(r + 2) + 1 + 2 * (j - 1)]);
            }
        }
    }
}

/// A plain statement read from its views is one of the shapes the parser turns into
/// that statement.
proof fn lemma_plain_stmt(t: Seq<Token>, vs: Seq<(int, Seq<char>)>, p: int)
    requires
        vs == t.map_values(|x: Token| tok_view(x)),
        plain_stmt_view(vs, p) is Some,
    ensures
        ({
            let (k, fs, e) = plain_stmt_view(vs, p)->0;
            &&& k == 1 ==> method_call_shape(t, p, fs.len() as int) && e == p + 2 * fs.len() + 4 + (
            if t[p + 2 * fs.len() + 4] is Semicolon {
                1int
            } else {
                0int
            }) && forall|x: Expr|
                #[trigger] method_call_form(x, t, p, fs.len() as int) ==> stmt_is_plain(
                    Stmt::Expr(x),
                    (k, fs),
                )
            &&& k == 2 ==> member_assign_shape(t, p) && e == p + 5 + (if t[p + 5] is Semicolon {
                1int
            } else {
                0int
            }) && forall|x: Expr|
                #[trigger] member_assign_form(x, t, p) ==> stmt_is_plain(Stmt::Expr(x), (k, fs))
            &&& k == 1 || k == 2
        }),
{
    let (k, fs, e) = plain_stmt_view(vs, p)->0;
    assert(vs[p] == tok_view(t[p]));
    assert(vs[p + 1] == tok_view(t[p + 1]));
    assert(vs[p + 2] == tok_view(t[p + 2]));
    assert(vs[p + 3] == tok_view(t[p + 3]));
    if k == 1 {
        lemma_lit_args(t, vs, p + 4);
        let n = fs.len() as int;
        assert(vs[p + 2 * n + 4] == tok_view(t[p + 2 * n + 4]));
        assert forall|j: int| 0 <= j < n implies #[trigger] spec_atom_expr(t[p + 3 + 1 + 2 * j]) is Some by {
            assert(t[p + 3 + 1 + 2 * j] == t[(p + 4) + 2 * j]);
        }
        assert forall|j: int| 0 <= j < n - 1 implies #[trigger] t[p + 3 + 2 + 2 * j] is Comma by {
            assert(t[p + 3 + 2 + 2 * j] == t[(p + 4) + 1 + 2 * j]);
        }
        assert(atom_args_at(t, p + 3, n));
        assert forall|x: Expr| #[trigger] method_call_form(x, t, p, n) implies stmt_is_plain(
            Stmt::Expr(x),
            (k, fs),
        ) by {
            if let Expr::Call(c, a) = x {
                assert forall|j: int| 0 <= j < a@.len() implies lit_expr_form(#[trigger] a@[j]) == Some(
                    fs[j],
                ) by {
                    assert(a@[j] == spec_atom_expr(t[(p + 4) + 2 * j])->0);
                }
            }
        }
    } else {
        assert(vs[p + 4] == tok_view(t[p + 4]));
        assert(vs[p + 5] == tok_view(t[p + 5]));
    }
}

/// A token that ends an expression: `;`, a closing bracket, `:`, `,` or the end of input.
pub open spec fn spec_stop_token(t: Token) -> bool {
    t is Semicolon || t is RParen || t is RBracket || t is RBrace || t is Colon || t is Comma || t is Eof
}

/// At `p` stands a literal, and right after it a token that ends an expression.
pub open spec fn atom_then_stop(t: Seq<Token>, p: int) -> bool {
    0 <= p && p + 1 < t.len() && spec_atom_expr(t[p]) is Some && spec_stop_token(t[p + 1])
}

/// At `p`: `while (true);`.
pub open spec fn spin_at(t: Seq<Token>, p: int) -> bool {
    0 <= p && p + 4 < t.len() && t[p] is While && t[p + 1] is LParen && t[p + 2] is True && t[p + 3] is RParen
        && t[p + 4] is Semicolon
}

/// At `p`: `while (true);`, then nothing but semicolons up to the end of input.
pub open spec fn spin_script(t: Seq<Token>, p: int) -> bool {
    spin_at(t, p) && p + 5 < t.len() && only_semicolons_from(t, p + 5)
}

/// At `p`: `throw`, a literal or a name, then nothing but semicolons up to the end of input.
pub open spec fn throw_script(t: Seq<Token>, p: int) -> bool {
    0 <= p && p + 2 < t.len() && t[p] is Throw && spec_atom_expr(t[p + 1]) is Some
        && only_semicolons_from(t, p + 2)
}

/// A token that ends an operand: one that ends an expression, or a binary operator.
pub open spec fn spec_operand_end(t: Token) -> bool {
    spec_stop_token(t) || spec_token_binop(t) is Some
}

/// At `p` stands a literal or a name, and right after it a token that ends an operand.
pub open spec fn atom_then_end(t: Seq<Token>, p: int) -> bool {
    0 <= p && p + 1 < t.len() && spec_atom_expr(t[p]) is Some && spec_operand_end(t[p + 1])
}

/// At `p` stands a literal or a name, and right after it a token that ends an expression
/// or a binary operator that binds looser than `level`.
pub open spec fn atom_then_looser(t: Seq<Token>, p: int, level: int) -> bool {
    0 <= p && p + 1 < t.len() && spec_atom_expr(t[p]) is Some && (spec_stop_token(t[p + 1]) || (
    spec_token_binop(t[p + 1]) matches Some(op) && spec_binop_level(op) < level))
}

/// At `p`: `a op1 b op2 c` with literals or names `a`, `b`, `c`, two binary operators of
/// precedence `level`, and then a token that ends the expression.
pub open spec fn chain_shape(t: Seq<Token>, p: int, level: int) -> bool {
    &&& 0 <= p && p + 5 < t.len()
    &&& spec_atom_expr(t[p]) is Some && spec_atom_expr(t[p + 2]) is Some && spec_atom_expr(t[p + 4]) is Some
    &&& (spec_token_binop(t[p + 1]) matches Some(o) && spec_binop_level(o) == level)
    &&& (spec_token_binop(t[p + 3]) matches Some(o) && spec_binop_level(o) == level)
    &&& spec_stop_token(t[p + 5])
}

/// The expression of such a chain, grouped to the left: `(a op1 b) op2 c`.
pub open spec fn chain_form(t: Seq<Token>, p: int) -> Expr {
    Expr::Binary(
        Box::new(
            Expr::Binary(
                Box::new(spec_atom_expr(t[p])->0),
                spec_token_binop(t[p + 1])->0,
                Box::new(spec_atom_expr(t[p + 2])->0),
            ),
        ),
        spec_token_binop(t[p + 3])->0,
        Box::new(spec_atom_expr(t[p + 4])->0),
    )
}

/// From `p` on there are only semicolons and the end of input.
pub open spec fn only_semicolons_from(t: Seq<Token>, p: int) -> bool {
    forall|k: int| p <= k < t.len() ==> (#[trigger] t[k] is Semicolon || t[k] is Eof)
}

pub fn parse(tokens: Vec<Token>) -> (r: Result<Vec<Stmt>, Vec<char>>)
    ensures
        only_semicolons_from(tokens@, 0) ==> (r matches Ok(v) && v@.len() == 0),
        tokens@.len() > 0 && tokens@.last() is Eof ==> (plain_script_view(
            tokens@.map_values(|x: Token| tok_view(x)),
            0,
        ) matches Some(effs) ==> (r matches Ok(v) && v@.len() == effs.len() && forall|i: int|
            0 <= i < v@.len() ==> stmt_is_plain(#[trigger] v@[i], effs[i]))),
        throw_lit_view(tokens@.map_values(|x: Token| tok_view(x))) matches Some(x) ==> (r matches Ok(v)
            && v@.len() == 1 && (v@[0] matches Stmt::Throw(e) && (e matches Expr::Str(s) && s@ == x))),
        spin_view(tokens@.map_values(|x: Token| tok_view(x))) ==> (r matches Ok(v) && v@.len() == 1
            && v@[0] == Stmt::While(Expr::Bool(true), Box::new(Stmt::Empty))),
{
    let ghost t = tokens@;
    proof {
        let vs = t.map_values(|x: Token| tok_view(x));
        if throw_lit_view(vs) is Some {
            assert(vs[0] == tok_view(t[0]));
            assert(vs[1] == tok_view(t[1]));
            assert(t[0] is Throw);
            assert(t[1] is Str);
            assert forall|k: int| 2 <= k < t.len() implies (#[trigger] t[k] is Semicolon || t[k] is Eof) by {
                assert(vs[k] == tok_view(t[k]));
            }
            assert(throw_script(t, 0));
        }
        if spin_view(vs) {
            assert(vs[0] == tok_view(t[0]));
            assert(vs[1] == tok_view(t[1]));
            assert(vs[2] == tok_view(t[2]));
            assert(vs[3] == tok_view(t[3]));
            assert(vs[4] == tok_view(t[4]));
            assert forall|k: int| 5 <= k < t.len() implies (#[trigger] t[k] is Semicolon || t[k] is Eof) by {
                assert(vs[k] == tok_view(t[k]));
            }
            assert(spin_script(t, 0));
        }
    }
    let mut parser = Parser::new(tokens);
    parser.parse_program()
}

/// The token views of the script `while (true);` (then only semicolons).
pub open spec fn spin_view(vs: Seq<(int, Seq<char>)>) -> bool {
    vs.len() >= 6 && vs[0].0 == 20 && vs[1].0 == 5 && vs[2].0 == 10 && vs[3].0 == 6 && vs[4].0 == 8
        && forall|k: int| 5 <= k < vs.len() ==> (#[trigger] vs[k]).0 == 8 || vs[k].0 == 1
}

/// The text of the string literal of a script `throw '...'` (then only semicolons), read
/// from its token views.
pub open spec fn throw_lit_view(vs: Seq<(int, Seq<char>)>) -> Option<Seq<char>> {
    if vs.len() >= 3 && vs[0].0 == 19 && vs[1].0 == 2 && forall|k: int|
        2 <= k < vs.len() ==> (#[trigger] vs[k]).0 == 8 || vs[k].0 == 1 {
        Some(vs[1].1)
    } else {
        None
    }
}

pub struct Parser {
    pub tokens: Vec<Token>,
    pub pos: usize,
}

/// `new` follows `old` in a parse: same length, position not moved back, and the
/// tokens from the new position on untouched.
pub open spec fn advanced(old: Parser, new: Parser) -> bool {
    &&& new.tokens@.len() == old.tokens@.len()
    &&& old.pos <= new.pos <= new.tokens@.len()
    &&& forall|i: int| new.pos <= i < new.tokens@.len() ==> new.tokens@[i] == old.tokens@[i]
}

pub open spec fn consumed(old: Parser, new: Parser) -> bool {
    advanced(old, new) && new.pos > old.pos
}

proof fn lemma_step(start: Parser, before: Parser, now: Parser)
    requires
        start.wf(),
        consumed(start, before),
        advanced(before, now),
    ensures
        consumed(start, now),
        now.remaining() < start.remaining(),
{
    lemma_remaining_mono(start, now);
}

proof fn lemma_advanced_trans(a: Parser, b: Parser, c: Parser)
    requires
        advanced(a, b),
        advanced(b, c),
    ensures
        advanced(a, c),
{
}

proof fn lemma_remaining_mono(a: Parser, b: Parser)
    requires
        a.wf(),
        advanced(a, b),
    ensures
        b.remaining() <= a.remaining(),
        b.pos > a.pos ==> b.remaining() < a.remaining(),
{
    assert(b.tokens@.skip(b.pos as int) =~= a.tokens@.skip(b.pos as int));
    lemma_toks_size_skip_mono(a.tokens@, a.pos as int, b.pos as int);
}

/// How a keyword token is spelled; `unknown` for every other token.
pub open spec fn spec_keyword_spelling(t: Token) -> Seq<char> {
    match t {
        Token::Var => "var"@,
        Token::Let => "let"@,
        Token::Const => "const"@,
        Token::Function => "function"@,
        Token::Return => "return"@,
        Token::If => "if"@,
        Token::Else => "else"@,
        Token::For => "for"@,
        Token::While => "while"@,
        Token::Do => "do"@,
        Token::Break => "break"@,
        Token::Continue => "continue"@,
        Token::Switch => "switch"@,
        Token::Case => "case"@,
        Token::Default => "default"@,
        Token::New => "new"@,
        Token::This => "this"@,
        Token::Typeof => "typeof"@,
        Token::Instanceof => "instanceof"@,
        Token::In => "in"@,
        Token::Of => "of"@,
        Token::True => "true"@,
        Token::False => "false"@,
        Token::Null => "null"@,
        Token::Undefined => "undefined"@,
        Token::Try => "try"@,
        Token::Catch => "catch"@,
        Token::Finally => "finally"@,
        Token::Throw => "throw"@,
        Token::Void => "void"@,
        Token::Delete => "delete"@,
        _ => "unknown"@,
    }
}

/// A word that the tokenizer reads as a keyword is spelled back by that keyword: the
/// name of a keyword used as a property name (`x.default`) is the word itself.
pub proof fn law_keyword_spelling(w: Seq<char>)
    ensures
        spec_keyword_token(w) matches Some(t) ==> spec_keyword_spelling(t) == w,
{
}

/// Name of a keyword token used as a property name ("unknown" for other tokens).
pub fn keyword_as_ident(tok: &Token) -> (r: Vec<char>)
    ensures
        r@ == spec_keyword_spelling(*tok),
{
    let s: &str = match tok {
        Token::Var => "var",
        Token::Let => "let",
        Token::Const => "const",
        Token::Function => "function",
        Token::Return => "return",
        Token::If => "if",
        Token::Else => "else",
        Token::For => "for",
        Token::While => "while",
        Token::Do => "do",
        Token::Break => "break",
        Token::Continue => "continue",
        Token::Switch => "switch",
        Token::Case => "case",
        Token::Default => "default",
        Token::New => "new",
        Token::This => "this",
        Token::Typeof => "typeof",
        Token::Instanceof => "instanceof",
        Token::In => "in",
        Token::Of => "of",
        Token::Try => "try",
        Token::Catch => "catch",
        Token::Finally => "finally",
        Token::Throw => "throw",
        Token::Void => "void",
        Token::Delete => "delete",
        Token::True => "true",
        Token::False => "false",
        Token::Null => "null",
        Token::Undefined => "undefined",
        _ => "unknown",
    };
    str_to_chars(s)
}

/// The keywords accepted after `.` as a property name.
pub open spec fn spec_member_keyword(t: Token) -> bool {
    match t {
        Token::Var | Token::Let | Token::Const | Token::Function | Token::Return | Token::If
        | Token::Else | Token::For | Token::While | Token::Do | Token::Break | Token::Continue
        | Token::Switch | Token::Case | Token::Default | Token::New | Token::This
        | Token::Typeof | Token::Instanceof | Token::In | Token::Try | Token::Catch
        | Token::Finally | Token::Throw | Token::Void | Token::Delete | Token::True
        | Token::False | Token::Null | Token::Undefined => true,
        _ => false,
    }
}

/// Name of a keyword accepted after `.` as a property name.
fn member_keyword_name(tok: &Token) -> (r: Option<Vec<char>>)
    ensures
        r is Some <==> spec_member_keyword(*tok),
        r matches Some(v) ==> v@ == spec_keyword_spelling(*tok),
{
    match tok {
        Token::Of => None,
        Token::Var | Token::Let | Token::Const | Token::Function | Token::Return | Token::If
        | Token::Else | Token::For | Token::While | Token::Do | Token::Break | Token::Continue
        | Token::Switch | Token::Case | Token::Default | Token::New | Token::This
        | Token::Typeof | Token::Instanceof | Token::In | Token::Try | Token::Catch
        | Token::Finally | Token::Throw | Token::Void | Token::Delete | Token::True
        | Token::False | Token::Null | Token::Undefined => Some(keyword_as_ident(tok)),
        _ => None,
    }
}

/// The tag of `simple_tag`: a number for each variant without payload, 0 for the others.
pub open spec fn spec_simple_tag(t: Token) -> u8 {
    match t {
        Token::True => 1,
        Token::False => 2,
        Token::Null => 3,
        Token::Undefined => 4,
        Token::Var => 5,
        Token::Let => 6,
        Token::Const => 7,
        Token::Function => 8,
        Token::Return => 9,
        Token::If => 10,
        Token::Else => 11,
        Token::For => 12,
        Token::While => 13,
        Token::Do => 14,
        Token::Break => 15,
        Token::Continue => 16,
        Token::Switch => 17,
        Token::Case => 18,
        Token::Default => 19,
        Token::New => 20,
        Token::This => 21,
        Token::Typeof => 22,
        Token::Instanceof => 23,
        Token::In => 24,
        Token::Of => 25,
        Token::Try => 26,
        Token::Catch => 27,
        Token::Finally => 28,
        Token::Throw => 29,
        Token::Void => 30,
        Token::Delete => 31,
        Token::Plus => 32,
        Token::Minus => 33,
        Token::Star => 34,
        Token::Slash => 35,
        Token::Percent => 36,
        Token::DoubleStar => 37,
        Token::Assign => 38,
        Token::PlusAssign => 39,
        Token::MinusAssign => 40,
        Token::StarAssign => 41,
        Token::SlashAssign => 42,
        Token::PercentAssign => 43,
        Token::AmpAssign => 44,
        Token::PipeAssign => 45,
        Token::CaretAssign => 46,
        Token::ShlAssign => 47,
        Token::ShrAssign => 48,
        Token::UshrAssign => 49,
        Token::Eq => 50,
        Token::StrictEq => 51,
        Token::NotEq => 52,
        Token::StrictNotEq => 53,
        Token::Lt => 54,
        Token::Gt => 55,
        Token::LtEq => 56,
        Token::GtEq => 57,
        Token::And => 58,
        Token::Or => 59,
        Token::Not => 60,
        Token::BitAnd => 61,
        Token::BitOr => 62,
        Token::BitXor => 63,
        Token::BitNot => 64,
        Token::Shl => 65,
        Token::Shr => 66,
        Token::Ushr => 67,
        Token::Question => 68,
        Token::NullishCoalesce => 69,
        Token::OptionalChain => 70,
        Token::Arrow => 71,
        Token::Spread => 72,
        Token::PlusPlus => 73,
        Token::MinusMinus => 74,
        Token::LParen => 75,
        Token::RParen => 76,
        Token::LBrace => 77,
        Token::RBrace => 78,
        Token::LBracket => 79,
        Token::RBracket => 80,
        Token::Comma => 81,
        Token::Semicolon => 82,
        Token::Colon => 83,
        Token::Dot => 84,
        Token::Eof => 85,
        _ => 0,
    }
}

/// The variant without payload that has tag `k`.
pub open spec fn spec_tag_token(k: u8) -> Token {
    if k == 1 {
        Token::True
    } else if k == 2 {
        Token::False
    } else if k == 3 {
        Token::Null
    } else if k == 4 {
        Token::Undefined
    } else if k == 5 {
        Token::Var
    } else if k == 6 {
        Token::Let
    } else if k == 7 {
        Token::Const
    } else if k == 8 {
        Token::Function
    } else if k == 9 {
        Token::Return
    } else if k == 10 {
        Token::If
    } else if k == 11 {
        Token::Else
    } else if k == 12 {
        Token::For
    } else if k == 13 {
        Token::While
    } else if k == 14 {
        Token::Do
    } else if k == 15 {
        Token::Break
    } else if k == 16 {
        Token::Continue
    } else if k == 17 {
        Token::Switch
    } else if k == 18 {
        Token::Case
    } else if k == 19 {
        Token::Default
    } else if k == 20 {
        Token::New
    } else if k == 21 {
        Token::This
    } else if k == 22 {
        Token::Typeof
    } else if k == 23 {
        Token::Instanceof
    } else if k == 24 {
        Token::In
    } else if k == 25 {
        Token::Of
    } else if k == 26 {
        Token::Try
    } else if k == 27 {
        Token::Catch
    } else if k == 28 {
        Token::Finally
    } else if k == 29 {
        Token::Throw
    } else if k == 30 {
        Token::Void
    } else if k == 31 {
        Token::Delete
    } else if k == 32 {
        Token::Plus
    } else if k == 33 {
        Token::Minus
    } else if k == 34 {
        Token::Star
    } else if k == 35 {
        Token::Slash
    } else if k == 36 {
        Token::Percent
    } else if k == 37 {
        Token::DoubleStar
    } else if k == 38 {
        Token::Assign
    } else if k == 39 {
        Token::PlusAssign
    } else if k == 40 {
        Token::MinusAssign
    } else if k == 41 {
        Token::StarAssign
    } else if k == 42 {
        Token::SlashAssign
    } else if k == 43 {
        Token::PercentAssign
    } else if k == 44 {
        Token::AmpAssign
    } else if k == 45 {
        Token::PipeAssign
    } else if k == 46 {
        Token::CaretAssign
    } else if k == 47 {
        Token::ShlAssign
    } else if k == 48 {
        Token::ShrAssign
    } else if k == 49 {
        Token::UshrAssign
    } else if k == 50 {
        Token::Eq
    } else if k == 51 {
        Token::StrictEq
    } else if k == 52 {
        Token::NotEq
    } else if k == 53 {
        Token::StrictNotEq
    } else if k == 54 {
        Token::Lt
    } else if k == 55 {
        Token::Gt
    } else if k == 56 {
        Token::LtEq
    } else if k == 57 {
        Token::GtEq
    } else if k == 58 {
        Token::And
    } else if k == 59 {
        Token::Or
    } else if k == 60 {
        Token::Not
    } else if k == 61 {
        Token::BitAnd
    } else if k == 62 {
        Token::BitOr
    } else if k == 63 {
        Token::BitXor
    } else if k == 64 {
        Token::BitNot
    } else if k == 65 {
        Token::Shl
    } else if k == 66 {
        Token::Shr
    } else if k == 67 {
        Token::Ushr
    } else if k == 68 {
        Token::Question
    } else if k == 69 {
        Token::NullishCoalesce
    } else if k == 70 {
        Token::OptionalChain
    } else if k == 71 {
        Token::Arrow
    } else if k == 72 {
        Token::Spread
    } else if k == 73 {
        Token::PlusPlus
    } else if k == 74 {
        Token::MinusMinus
    } else if k == 75 {
        Token::LParen
    } else if k == 76 {
        Token::RParen
    } else if k == 77 {
        Token::LBrace
    } else if k == 78 {
        Token::RBrace
    } else if k == 79 {
        Token::LBracket
    } else if k == 80 {
        Token::RBracket
    } else if k == 81 {
        Token::Comma
    } else if k == 82 {
        Token::Semicolon
    } else if k == 83 {
        Token::Colon
    } else if k == 84 {
        Token::Dot
    } else if k == 85 {
        Token::Eof
    } else {
        Token::Eof
    }
}

/// A variant without payload is given back by its tag.
proof fn lemma_tag_token(t: Token)
    requires
        spec_simple_tag(t) != 0,
    ensures
        spec_tag_token(spec_simple_tag(t)) == t,
{
}

/// A number identifying each variant without payload; 0 for variants with payload.
pub fn simple_tag(t: &Token) -> (r: u8)
    ensures
        r == spec_simple_tag(*t),
        (r == 85) == (*t is Eof),
{
    match t {
        Token::Number(_) | Token::Str(_) | Token::TemplateLiteral(_) | Token::Regex(..)
        | Token::Ident(_) => 0,
        Token::True => 1,
        Token::False => 2,
        Token::Null => 3,
        Token::Undefined => 4,
        Token::Var => 5,
        Token::Let => 6,
        Token::Const => 7,
        Token::Function => 8,
        Token::Return => 9,
        Token::If => 10,
        Token::Else => 11,
        Token::For => 12,
        Token::While => 13,
        Token::Do => 14,
        Token::Break => 15,
        Token::Continue => 16,
        Token::Switch => 17,
        Token::Case => 18,
        Token::Default => 19,
        Token::New => 20,
        Token::This => 21,
        Token::Typeof => 22,
        Token::Instanceof => 23,
        Token::In => 24,
        Token::Of => 25,
        Token::Try => 26,
        Token::Catch => 27,
        Token::Finally => 28,
        Token::Throw => 29,
        Token::Void => 30,
        Token::Delete => 31,
        Token::Plus => 32,
        Token::Minus => 33,
        Token::Star => 34,
        Token::Slash => 35,
        Token::Percent => 36,
        Token::DoubleStar => 37,
        Token::Assign => 38,
        Token::PlusAssign => 39,
        Token::MinusAssign => 40,
        Token::StarAssign => 41,
        Token::SlashAssign => 42,
        Token::PercentAssign => 43,
        Token::AmpAssign => 44,
        Token::PipeAssign => 45,
        Token::CaretAssign => 46,
        Token::ShlAssign => 47,
        Token::ShrAssign => 48,
        Token::UshrAssign => 49,
        Token::Eq => 50,
        Token::StrictEq => 51,
        Token::NotEq => 52,
        Token::StrictNotEq => 53,
        Token::Lt => 54,
        Token::Gt => 55,
        Token::LtEq => 56,
        Token::GtEq => 57,
        Token::And => 58,
        Token::Or => 59,
        Token::Not => 60,
        Token::BitAnd => 61,
        Token::BitOr => 62,
        Token::BitXor => 63,
        Token::BitNot => 64,
        Token::Shl => 65,
        Token::Shr => 66,
        Token::Ushr => 67,
        Token::Question => 68,
        Token::NullishCoalesce => 69,
        Token::OptionalChain => 70,
        Token::Arrow => 71,
        Token::Spread => 72,
        Token::PlusPlus => 73,
        Token::MinusMinus => 74,
        Token::LParen => 75,
        Token::RParen => 76,
        Token::LBrace => 77,
        Token::RBrace => 78,
        Token::LBracket => 79,
        Token::RBracket => 80,
        Token::Comma => 81,
        Token::Semicolon => 82,
        Token::Colon => 83,
        Token::Dot => 84,
        Token::Eof => 85,
    }
}

/// Token equality (`PartialEq` on tokens).
pub fn tok_eq(a: &Token, b: &Token) -> (r: bool)
    ensures
        r ==> ((*a is Eof) == (*b is Eof)),
        spec_simple_tag(*a) != 0 ==> (r <==> *a == *b),
        spec_simple_tag(*b) != 0 ==> (r <==> *a == *b),
        *a matches Token::Str(x) ==> (r <==> (*b matches Token::Str(y) && x@ == y@)),
        *a matches Token::Ident(x) ==> (r <==> (*b matches Token::Ident(y) && x@ == y@)),
    decreases a,
{
    proof {
        if spec_simple_tag(*a) != 0 {
            lemma_tag_token(*a);
            if spec_simple_tag(*b) != 0 {
                lemma_tag_token(*b);
            }
        }
    }
    match (a, b) {
        (Token::Number(x), Token::Number(y)) => x.eq(y),
        (Token::Str(x), Token::Str(y)) => slices_eq(x.as_slice(), y.as_slice()),
        (Token::Ident(x), Token::Ident(y)) => slices_eq(x.as_slice(), y.as_slice()),
        (Token::Regex(p1, f1), Token::Regex(p2, f2)) => p1 == p2 && f1 == f2,
        (Token::TemplateLiteral(x), Token::TemplateLiteral(y)) => template_parts_eq(x, y),
        _ => {
            let ta = simple_tag(a);
            ta != 0 && ta == simple_tag(b)
        },
    }
}

/// Every part is text.
/// A text part of a template turns into the same text; an expression part into a parsed
/// expression.
pub open spec fn converted_part(p: TemplatePart, q: TemplateExprPart) -> bool {
    match p {
        TemplatePart::Str(s) => q matches TemplateExprPart::Str(t) && t@ == s@,
        TemplatePart::Expr(_) => q is Expr,
    }
}

pub open spec fn all_text_parts(p: Seq<TemplatePart>) -> bool {
    forall|i: int| 0 <= i < p.len() ==> #[trigger] p[i] is Str
}

fn template_parts_eq(x: &Vec<TemplatePart>, y: &Vec<TemplatePart>) -> (r: bool)
    ensures
        x@.len() != y@.len() ==> !r,
        all_text_parts(x@) && all_text_parts(y@) ==> (r <==> (x@.len() == y@.len() && forall|i: int|
            0 <= i < x@.len() ==> (#[trigger] x@[i])->Str_0@ == y@[i]->Str_0@)),
    decreases x,
{
    if x.len() != y.len() {
        return false;
    }
    let mut i: usize = 0;
    while i < x.len()
        invariant
            x@.len() == y@.len(),
            0 <= i <= x@.len(),
            all_text_parts(x@) && all_text_parts(y@) ==> forall|j: int|
                0 <= j < i ==> (#[trigger] x@[j])->Str_0@ == y@[j]->Str_0@,
        decreases x.len() - i,
    {
        proof {
            assert(decreases_to!(x => x@));
            assert(decreases_to!(x@ => x@[i as int]));
        }
        let same = match (&x[i], &y[i]) {
            (TemplatePart::Str(s1), TemplatePart::Str(s2)) => slices_eq(s1.as_slice(), s2.as_slice()),
            (TemplatePart::Expr(t1), TemplatePart::Expr(t2)) => token_list_eq(t1, t2),
            _ => false,
        };
        if !same {
            return false;
        }
        i = i + 1;
    }
    true
}

fn token_list_eq(x: &Vec<Token>, y: &Vec<Token>) -> (r: bool)
    ensures
        x@.len() != y@.len() ==> !r,
        (forall|i: int| 0 <= i < x@.len() ==> spec_simple_tag(#[trigger] x@[i]) != 0) ==> (r <==> x@
            == y@),
    decreases x,
{
    if x.len() != y.len() {
        return false;
    }
    let mut i: usize = 0;
    while i < x.len()
        invariant
            x@.len() == y@.len(),
            0 <= i <= x@.len(),
            (forall|k: int| 0 <= k < x@.len() ==> spec_simple_tag(#[trigger] x@[k]) != 0) ==> forall|j: int|
                0 <= j < i ==> x@[j] == y@[j],
        decreases x.len() - i,
    {
        proof {
            assert(decreases_to!(x => x@));
            assert(decreases_to!(x@ => x@[i as int]));
        }
        if !tok_eq(&x[i], &y[i]) {
            return false;
        }
        i = i + 1;
    }
    proof {
        if forall|k: int| 0 <= k < x@.len() ==> spec_simple_tag(#[trigger] x@[k]) != 0 {
            assert(x@ =~= y@);
        }
    }
    true
}

impl Parser {
    pub open spec fn wf(&self) -> bool {
        &&& self.tokens@.len() > 0
        &&& self.tokens@.last() is Eof
        &&& self.pos < self.tokens@.len()
    }

    /// Total size of the tokens not yet consumed.
    pub open spec fn remaining(&self) -> nat {
        toks_size(self.tokens@.skip(self.pos as int))
    }

    /// A parser at the start of `tokens`; an `Eof` is appended when the stream does not
    /// end with one (reading past the end yields `Eof` either way).
    pub fn new(tokens: Vec<Token>) -> (r: Parser)
        ensures
            r.pos == 0,
            r.wf(),
            tokens@.len() > 0 && tokens@.last() is Eof ==> r.tokens == tokens,
            !(tokens@.len() > 0 && tokens@.last() is Eof) ==> r.tokens@ == tokens@.push(
                Token::Eof,
            ),
    {
        let mut tokens = tokens;
        let n = tokens.len();
        if n == 0 || !matches!(tokens[n - 1], Token::Eof) {
            tokens.push(Token::Eof);
        }
        Parser { tokens, pos: 0 }
    }

    /// The current token.
    pub fn peek(&self) -> (r: &Token)
        requires
            self.wf(),
        ensures
            *r == self.tokens@[self.pos as int],
    {
        &self.tokens[self.pos]
    }

    /// The token `offset` places ahead (`Eof` past the end).
    pub fn peek_at(&self, offset: usize) -> (r: &Token)
        requires
            self.wf(),
        ensures
            self.pos + offset < self.tokens@.len() ==> *r == self.tokens@[self.pos + offset],
            self.pos + offset >= self.tokens@.len() ==> *r is Eof,
    {
        if offset < self.tokens.len() - self.pos {
            &self.tokens[self.pos + offset]
        } else {
            &self.tokens[self.tokens.len() - 1]
        }
    }

    /// Takes the current token and moves past it; at the final `Eof` the position stays.
    pub fn advance(&mut self) -> (r: Token)
        requires
            old(self).wf(),
        ensures
            final(self).wf(),
            advanced(*old(self), *final(self)),
            r == old(self).tokens@[old(self).pos as int],
            old(self).pos + 1 < old(self).tokens@.len() ==> final(self).pos == old(self).pos + 1,
            old(self).pos + 1 >= old(self).tokens@.len() ==> r is Eof && *final(self) == *old(
                self,
            ),
    {
        if self.tokens.len() - self.pos > 1 {
            let mut tok = Token::Eof;
            std::mem::swap(&mut tok, &mut self.tokens[self.pos]);
            self.pos = self.pos + 1;
            tok
        } else {
            Token::Eof
        }
    }

    pub fn expect(&mut self, expected: &Token) -> (r: Result<(), Vec<char>>)
        requires
            old(self).wf(),
            !(*expected is Eof),
        ensures
            final(self).wf(),
            advanced(*old(self), *final(self)),
            r is Ok ==> final(self).pos == old(self).pos + 1,
            spec_simple_tag(*expected) != 0 ==> (r is Ok <==> old(self).tokens@[old(self).pos as int]
                == *expected),
    {
        let got = self.advance();
        if tok_eq(&got, expected) {
            return Ok(());
        }
        let mut msg = str_to_chars("expected ");
        push_all(&mut msg, debug_token(expected).as_slice());
        push_str(&mut msg, ", got ");
        push_all(&mut msg, debug_token(&got).as_slice());
        Err(msg)
    }

    pub fn eat(&mut self, expected: &Token) -> (r: bool)
        requires
            old(self).wf(),
            !(*expected is Eof),
        ensures
            final(self).wf(),
            advanced(*old(self), *final(self)),
            r ==> final(self).pos == old(self).pos + 1,
            !r ==> *final(self) == *old(self),
            spec_simple_tag(*expected) != 0 ==> (r <==> old(self).tokens@[old(self).pos as int]
                == *expected),
    {
        if tok_eq(self.peek(), expected) {
            self.advance();
            true
        } else {
            false
        }
    }

    /// Consumes a semicolon if present (automatic semicolon insertion).
    pub fn eat_semicolon(&mut self)
        requires
            old(self).wf(),
        ensures
            final(self).wf(),
            advanced(*old(self), *final(self)),
            old(self).tokens@[old(self).pos as int] is Semicolon ==> final(self).pos == old(self).pos
                + 1,
            !(old(self).tokens@[old(self).pos as int] is Semicolon) ==> *final(self) == *old(self),
    {
        self.eat(&Token::Semicolon);
    }

    pub fn at_eof(&self) -> (r: bool)
        requires
            self.wf(),
        ensures
            r == (self.tokens@[self.pos as int] is Eof),
    {
        matches!(self.peek(), Token::Eof)
    }
}


/// Ranks that order the mutually recursive parse functions among calls made before
/// any token is consumed.
pub const R_STMT: u64 = 90;
pub const R_EXPR_STMT: u64 = 85;
pub const R_COMPOUND: u64 = 80;
pub const R_EXPR: u64 = 70;
pub const R_ASSIGN: u64 = 69;
pub const R_ARROW: u64 = 68;
pub const R_PARAMS: u64 = 67;
pub const R_TERNARY: u64 = 60;
pub const R_BINARY: u64 = 59;
pub const R_UNARY: u64 = 47;
pub const R_POSTFIX: u64 = 46;
pub const R_CALL: u64 = 45;
pub const R_ARGS: u64 = 44;
pub const R_PRIMARY: u64 = 43;
pub const R_LITERAL: u64 = 42;
pub const R_BLOCK_BODY: u64 = 41;

/// The binary operator levels, loosest first.
pub const LEVEL_NULLISH: u64 = 0;
pub const LEVEL_OR: u64 = 1;
pub const LEVEL_AND: u64 = 2;
pub const LEVEL_BIT_OR: u64 = 3;
pub const LEVEL_BIT_XOR: u64 = 4;
pub const LEVEL_BIT_AND: u64 = 5;
pub const LEVEL_EQUALITY: u64 = 6;
pub const LEVEL_COMPARISON: u64 = 7;
pub const LEVEL_SHIFT: u64 = 8;
pub const LEVEL_ADDITIVE: u64 = 9;
pub const LEVEL_MULTIPLICATIVE: u64 = 10;

/// The binary operator a token spells (`**` is handled apart, as it binds to the right).
pub open spec fn spec_token_binop(t: Token) -> Option<BinOp> {
    match t {
        Token::NullishCoalesce => Some(BinOp::NullishCoalesce),
        Token::Or => Some(BinOp::Or),
        Token::And => Some(BinOp::And),
        Token::BitOr => Some(BinOp::BitOr),
        Token::BitXor => Some(BinOp::BitXor),
        Token::BitAnd => Some(BinOp::BitAnd),
        Token::Eq => Some(BinOp::Eq),
        Token::StrictEq => Some(BinOp::StrictEq),
        Token::NotEq => Some(BinOp::NotEq),
        Token::StrictNotEq => Some(BinOp::StrictNotEq),
        Token::Lt => Some(BinOp::Lt),
        Token::Gt => Some(BinOp::Gt),
        Token::LtEq => Some(BinOp::LtEq),
        Token::GtEq => Some(BinOp::GtEq),
        Token::Instanceof => Some(BinOp::Instanceof),
        Token::In => Some(BinOp::In),
        Token::Shl => Some(BinOp::Shl),
        Token::Shr => Some(BinOp::Shr),
        Token::Ushr => Some(BinOp::Ushr),
        Token::Plus => Some(BinOp::Add),
        Token::Minus => Some(BinOp::Sub),
        Token::Star => Some(BinOp::Mul),
        Token::Slash => Some(BinOp::Div),
        Token::Percent => Some(BinOp::Mod),
        _ => None,
    }
}

/// The precedence level of a binary operator: `??` binds loosest, `*` `/` `%` tightest.
pub open spec fn spec_binop_level(op: BinOp) -> int {
    match op {
        BinOp::NullishCoalesce => LEVEL_NULLISH as int,
        BinOp::Or => LEVEL_OR as int,
        BinOp::And => LEVEL_AND as int,
        BinOp::BitOr => LEVEL_BIT_OR as int,
        BinOp::BitXor => LEVEL_BIT_XOR as int,
        BinOp::BitAnd => LEVEL_BIT_AND as int,
        BinOp::Eq | BinOp::StrictEq | BinOp::NotEq | BinOp::StrictNotEq => LEVEL_EQUALITY as int,
        BinOp::Lt | BinOp::Gt | BinOp::LtEq | BinOp::GtEq | BinOp::Instanceof | BinOp::In => LEVEL_COMPARISON as int,
        BinOp::Shl | BinOp::Shr | BinOp::Ushr => LEVEL_SHIFT as int,
        BinOp::Add | BinOp::Sub => LEVEL_ADDITIVE as int,
        BinOp::Mul | BinOp::Div | BinOp::Mod => LEVEL_MULTIPLICATIVE as int,
        _ => -1,
    }
}

/// The operator of `tok` at a binary precedence level, if it is one.
pub fn binop_at_level(tok: &Token, level: u64) -> (r: Option<BinOp>)
    ensures
        r == (match spec_token_binop(*tok) {
            Some(op) => if spec_binop_level(op) == level {
                Some(op)
            } else {
                None::<BinOp>
            },
            None => None,
        }),
{
    match level {
        0 => match tok {
            Token::NullishCoalesce => Some(BinOp::NullishCoalesce),
            _ => None,
        },
        1 => match tok {
            Token::Or => Some(BinOp::Or),
            _ => None,
        },
        2 => match tok {
            Token::And => Some(BinOp::And),
            _ => None,
        },
        3 => match tok {
            Token::BitOr => Some(BinOp::BitOr),
            _ => None,
        },
        4 => match tok {
            Token::BitXor => Some(BinOp::BitXor),
            _ => None,
        },
        5 => match tok {
            Token::BitAnd => Some(BinOp::BitAnd),
            _ => None,
        },
        6 => match tok {
            Token::Eq => Some(BinOp::Eq),
            Token::StrictEq => Some(BinOp::StrictEq),
            Token::NotEq => Some(BinOp::NotEq),
            Token::StrictNotEq => Some(BinOp::StrictNotEq),
            _ => None,
        },
        7 => match tok {
            Token::Lt => Some(BinOp::Lt),
            Token::Gt => Some(BinOp::Gt),
            Token::LtEq => Some(BinOp::LtEq),
            Token::GtEq => Some(BinOp::GtEq),
            Token::Instanceof => Some(BinOp::Instanceof),
            Token::In => Some(BinOp::In),
            _ => None,
        },
        8 => match tok {
            Token::Shl => Some(BinOp::Shl),
            Token::Shr => Some(BinOp::Shr),
            Token::Ushr => Some(BinOp::Ushr),
            _ => None,
        },
        9 => match tok {
            Token::Plus => Some(BinOp::Add),
            Token::Minus => Some(BinOp::Sub),
            _ => None,
        },
        10 => match tok {
            Token::Star => Some(BinOp::Mul),
            Token::Slash => Some(BinOp::Div),
            Token::Percent => Some(BinOp::Mod),
            _ => None,
        },
        _ => None,
    }
}

/// The assignment operator a token spells.
pub open spec fn spec_token_assign_op(t: Token) -> Option<AssignOp> {
    match t {
        Token::Assign => Some(AssignOp::Assign),
        Token::PlusAssign => Some(AssignOp::AddAssign),
        Token::MinusAssign => Some(AssignOp::SubAssign),
        Token::StarAssign => Some(AssignOp::MulAssign),
        Token::SlashAssign => Some(AssignOp::DivAssign),
        Token::PercentAssign => Some(AssignOp::ModAssign),
        Token::AmpAssign => Some(AssignOp::BitAndAssign),
        Token::PipeAssign => Some(AssignOp::BitOrAssign),
        Token::CaretAssign => Some(AssignOp::BitXorAssign),
        Token::ShlAssign => Some(AssignOp::ShlAssign),
        Token::ShrAssign => Some(AssignOp::ShrAssign),
        Token::UshrAssign => Some(AssignOp::UshrAssign),
        _ => None,
    }
}

/// The assignment operator a token stands for, if any.
pub fn assign_op_of(tok: &Token) -> (r: Option<AssignOp>)
    ensures
        r == spec_token_assign_op(*tok),
{
    match tok {
        Token::Assign => Some(AssignOp::Assign),
        Token::PlusAssign => Some(AssignOp::AddAssign),
        Token::MinusAssign => Some(AssignOp::SubAssign),
        Token::StarAssign => Some(AssignOp::MulAssign),
        Token::SlashAssign => Some(AssignOp::DivAssign),
        Token::PercentAssign => Some(AssignOp::ModAssign),
        Token::AmpAssign => Some(AssignOp::BitAndAssign),
        Token::PipeAssign => Some(AssignOp::BitOrAssign),
        Token::CaretAssign => Some(AssignOp::BitXorAssign),
        Token::ShlAssign => Some(AssignOp::ShlAssign),
        Token::ShrAssign => Some(AssignOp::ShrAssign),
        Token::UshrAssign => Some(AssignOp::UshrAssign),
        _ => None,
    }
}

/// Opening minus closing parentheses among the tokens from `a` up to `b`.
pub open spec fn paren_depth(t: Seq<Token>, a: int, b: int) -> int
    decreases b - a,
{
    if b <= a {
        0
    } else {
        paren_depth(t, a, b - 1) + (if t[b - 1] is LParen {
            1int
        } else if t[b - 1] is RParen {
            -1int
        } else {
            0int
        })
    }
}

/// The parenthesis opening at `start` is closed at `j`, within a hundred tokens and
/// before the end of the input.
pub open spec fn group_closes_at(t: Seq<Token>, start: int, j: int) -> bool {
    &&& start < j < t.len()
    &&& j - start <= 100
    &&& t[j] is RParen
    &&& paren_depth(t, start, j + 1) == 0
    &&& forall|k: int| start < k <= j ==> paren_depth(t, start, k) > 0
    &&& forall|k: int| start <= k <= j ==> !(#[trigger] t[k] is Eof)
}

/// An arrow function starts at `start`: a name followed by `=>`, or a parenthesized
/// group (closed within a hundred tokens) followed by `=>`.
pub open spec fn spec_arrow_ahead(t: Seq<Token>, start: int) -> bool {
    ||| t[start] is Ident && start + 1 < t.len() && t[start + 1] is Arrow
    ||| t[start] is LParen && exists|j: int| #[trigger] group_closes_at(t, start, j) && j + 1 < t.len()
        && t[j + 1] is Arrow
}

/// Where the depth stays positive up to `i` the group does not close before `i`.
proof fn lemma_no_group(t: Seq<Token>, start: int, i: int)
    requires
        forall|k: int| start < k <= i ==> paren_depth(t, start, k) > 0,
        i >= t.len() || (i < t.len() && t[i] is Eof) || i - start > 100,
        start < i,
    ensures
        forall|j: int| !group_closes_at(t, start, j),
{
    assert forall|j: int| !group_closes_at(t, start, j) by {
        if group_closes_at(t, start, j) {
            if j < i {
                assert(paren_depth(t, start, j + 1) > 0);
            }
        }
    }
}

/// The first place where the depth returns to zero is the only place the group closes.
proof fn lemma_group_unique(t: Seq<Token>, start: int, i: int)
    requires
        start < i < t.len(),
        i - start <= 100,
        t[i] is RParen,
        paren_depth(t, start, i + 1) == 0,
        forall|k: int| start < k <= i ==> paren_depth(t, start, k) > 0,
        forall|k: int| start <= k <= i ==> !(#[trigger] t[k] is Eof),
    ensures
        group_closes_at(t, start, i),
        forall|j: int| group_closes_at(t, start, j) ==> j == i,
{
    assert forall|j: int| group_closes_at(t, start, j) implies j == i by {
        if j < i {
            assert(paren_depth(t, start, j + 1) > 0);
        } else if j > i {
            assert(paren_depth(t, start, i + 1) > 0);
        }
    }
}

/// `format!(prefix + "{:?}", tok)`.
fn error_with_token(prefix: &str, tok: &Token) -> (r: Vec<char>)
    ensures
        exists|d: Seq<char>| #[trigger] debug_token_fits(*tok, d) && r@ == prefix@ + d,
{
    let mut msg = str_to_chars(prefix);
    let d = debug_token(tok);
    push_all(&mut msg, d.as_slice());
    assert(debug_token_fits(*tok, d@));
    msg
}

impl Parser {
    pub fn parse_program(&mut self) -> (r: Result<Vec<Stmt>, Vec<char>>)
        requires
            old(self).wf(),
        ensures
            final(self).wf(),
            only_semicolons_from(old(self).tokens@, old(self).pos as int) ==> (r matches Ok(v)
                && v@.len() == 0),
            plain_script_view(old(self).tokens@.map_values(|x: Token| tok_view(x)), old(self).pos as int) matches Some(
                effs,
            ) ==> (r matches Ok(v) && v@.len() == effs.len() && forall|i: int|
                0 <= i < v@.len() ==> stmt_is_plain(#[trigger] v@[i], effs[i])),
            throw_script(old(self).tokens@, old(self).pos as int) ==> (r matches Ok(v) && v@.len() == 1
                && v@[0] == Stmt::Throw(spec_atom_expr(old(self).tokens@[old(self).pos + 1])->0)),
            spin_script(old(self).tokens@, old(self).pos as int) ==> (r matches Ok(v) && v@.len() == 1
                && v@[0] == Stmt::While(Expr::Bool(true), Box::new(Stmt::Empty))),
    {
        let mut stmts: Vec<Stmt> = Vec::new();
        let ghost t = self.tokens@;
        let ghost ts = throw_script(t, self.pos as int);
        let ghost ss = spin_script(t, self.pos as int);
        let ghost p0 = self.pos as int;
        let ghost vs = t.map_values(|x: Token| tok_view(x));
        let ghost has = plain_script_view(vs, self.pos as int) is Some;
        let ghost effs = plain_script_view(vs, self.pos as int)->0;
        while !self.at_eof()
            invariant
                self.wf(),
                only_semicolons_from(old(self).tokens@, old(self).pos as int) ==> stmts@.len() == 0
                    && only_semicolons_from(self.tokens@, self.pos as int),
                t == old(self).tokens@,
                vs == t.map_values(|x: Token| tok_view(x)),
                has == (plain_script_view(vs, old(self).pos as int) is Some),
                effs == plain_script_view(vs, old(self).pos as int)->0,
                has ==> advanced(*old(self), *self) && plain_script_view(vs, self.pos as int) is Some
                    && stmts@.len() <= effs.len() && plain_script_view(vs, self.pos as int)->0 == effs.skip(
                    stmts@.len() as int,
                ) && forall|i: int| 0 <= i < stmts@.len() ==> stmt_is_plain(#[trigger] stmts@[i], effs[i]),
            ts == throw_script(t, p0),
            p0 == old(self).pos,
            ts ==> advanced(*old(self), *self) && (stmts@.len() == 0 ==> self.pos == p0) && (stmts@.len()
                > 0 ==> stmts@.len() == 1 && stmts@[0] == Stmt::Throw(spec_atom_expr(t[p0 + 1])->0)
                && only_semicolons_from(self.tokens@, self.pos as int)),
            ss == spin_script(t, p0),
            ss ==> advanced(*old(self), *self) && (stmts@.len() == 0 ==> self.pos == p0) && (stmts@.len()
                > 0 ==> stmts@.len() == 1 && stmts@[0] == Stmt::While(Expr::Bool(true), Box::new(Stmt::Empty))
                && only_semicolons_from(self.tokens@, self.pos as int)),
            decreases self.remaining(),
        {
            let ghost before = *self;
            proof {
                if (ts || ss) && stmts@.len() == 0 {
                    assert(self.tokens@[p0] == t[p0]);
                    assert(self.tokens@[p0 + 1] == t[p0 + 1]);
                    assert(self.tokens@[p0 + 2] == t[p0 + 2]);
                }
                if ss && stmts@.len() == 0 {
                    assert(self.tokens@[p0 + 3] == t[p0 + 3]);
                    assert(self.tokens@[p0 + 4] == t[p0 + 4]);
                }
            }
            proof {
                if has {
                    assert(self.tokens@[self.pos as int] == t[self.pos as int]);
                    assert(vs[self.pos as int] == tok_view(t[self.pos as int]));
                }
            }
            if self.eat(&Token::Semicolon) {
                proof {
                    lemma_remaining_mono(before, *self);
                }
                continue;
            }
            let ghost k = stmts@.len() as int;
            proof {
                if has {
                    lemma_plain_stmt(t, vs, self.pos as int);
                    let (kk, fs, e) = plain_stmt_view(vs, self.pos as int)->0;
                    if kk == 1 {
                        let n = fs.len() as int;
                        assert forall|i: int| self.pos <= i < t.len() implies self.tokens@[i] == t[i] by {}
                        assert(method_call_shape(self.tokens@, self.pos as int, n)) by {
                            lemma_atom_args_transfer(t, self.tokens@, self.pos + 3, n);
                            assert(self.tokens@[self.pos as int] == t[self.pos as int]);
                            assert(self.tokens@[self.pos + 1] == t[self.pos + 1]);
                            assert(self.tokens@[self.pos + 2] == t[self.pos + 2]);
                            assert(self.tokens@[self.pos + 2 * n + 4] == t[self.pos + 2 * n + 4]);
                        }
                    } else {
                        assert(self.tokens@[self.pos as int] == t[self.pos as int]);
                        assert(self.tokens@[self.pos + 1] == t[self.pos + 1]);
                        assert(self.tokens@[self.pos + 2] == t[self.pos + 2]);
                        assert(self.tokens@[self.pos + 3] == t[self.pos + 3]);
                        assert(self.tokens@[self.pos + 4] == t[self.pos + 4]);
                        assert(self.tokens@[self.pos + 5] == t[self.pos + 5]);
                    }
                }
            }
            let st = self.parse_statement()?;
            proof {
                lemma_remaining_mono(before, *self);
            }
            let ghost gst = st;
            stmts.push(st);
            proof {
                if has {
                    let (kk, fs, e) = plain_stmt_view(vs, before.pos as int)->0;
                    let n = fs.len() as int;
                    if kk == 1 {
                        lemma_atom_args_transfer(t, before.tokens@, before.pos + 3, n);
                        assert(atom_args(before.tokens@, before.pos + 3, n) == atom_args(t, before.pos + 3, n));
                        if let Stmt::Expr(x) = gst {
                            assert(method_call_form(x, t, before.pos as int, n));
                        }
                    } else {
                        if let Stmt::Expr(x) = gst {
                            assert(before.tokens@[before.pos as int] == t[before.pos as int]);
                            assert(before.tokens@[before.pos + 2] == t[before.pos + 2]);
                            assert(before.tokens@[before.pos + 4] == t[before.pos + 4]);
                            assert(member_assign_form(x, t, before.pos as int));
                        }
                    }
                    assert(vs[before.pos as int].0 != 8);
                    assert(vs[before.pos as int].0 != 1);
                    assert(plain_script_view(vs, before.pos as int) == Some(
                        seq![(kk, fs)] + plain_script_view(vs, e)->0,
                    ));
                    assert(self.pos == e);
                    let sk = effs.skip(k);
                    let rest = plain_script_view(vs, e)->0;
                    assert(sk == seq![(kk, fs)] + rest);
                    assert(sk.len() == rest.len() + 1);
                    assert(k < effs.len());
                    assert(sk[0] == effs[k]);
                    assert(effs[k] == (kk, fs));
                    assert(effs.skip(k + 1) =~= rest) by {
                        assert forall|i: int| 0 <= i < rest.len() implies effs.skip(k + 1)[i] == rest[i] by {
                            assert(sk[i + 1] == effs[k + 1 + i]);
                            assert(sk[i + 1] == rest[i]);
                        }
                    }
                    assert(effs.skip(k + 1) == plain_script_view(vs, self.pos as int)->0);
                    assert(stmt_is_plain(stmts@[k], effs[k]));
                    assert(advanced(*old(self), *self));
                }
            }
        }
        proof {
            if has {
                assert(vs[self.pos as int] == tok_view(t[self.pos as int]));
                assert(self.tokens@[self.pos as int] == t[self.pos as int]);
            }
        }
        Ok(stmts)
    }

    pub fn parse_statement(&mut self) -> (r: Result<Stmt, Vec<char>>)
        requires
            old(self).wf(),
        ensures
            final(self).wf(),
            advanced(*old(self), *final(self)),
            r is Ok ==> final(self).pos > old(self).pos,
            old(self).tokens@[old(self).pos as int] == Token::Semicolon ==> r == Ok::<Stmt, Vec<char>>(Stmt::Empty) && final(self).pos
                == old(self).pos + 1,
            old(self).tokens@[old(self).pos as int] == Token::Break ==> r == Ok::<Stmt, Vec<char>>(Stmt::Break),
            old(self).tokens@[old(self).pos as int] == Token::Continue ==> r == Ok::<Stmt, Vec<char>>(Stmt::Continue),
            spin_at(old(self).tokens@, old(self).pos as int) ==> r == Ok::<Stmt, Vec<char>>(
                Stmt::While(Expr::Bool(true), Box::new(Stmt::Empty)),
            ) && final(self).pos == old(self).pos + 5,
            old(self).tokens@[old(self).pos as int] is Throw && atom_then_stop(old(self).tokens@, old(self).pos + 1)
                ==> r == Ok::<Stmt, Vec<char>>(
                Stmt::Throw(spec_atom_expr(old(self).tokens@[old(self).pos + 1])->0),
            ) && final(self).pos == old(self).pos + 2 + (if old(self).tokens@[old(self).pos + 2] is Semicolon {
                1int
            } else {
                0int
            }),
            atom_then_stop(old(self).tokens@, old(self).pos as int) ==> r == Ok::<Stmt, Vec<char>>(
                Stmt::Expr(spec_atom_expr(old(self).tokens@[old(self).pos as int])->0),
            ),
            forall|n: int|
                #[trigger] method_call_shape(old(self).tokens@, old(self).pos as int, n) ==> (r matches Ok(
                    Stmt::Expr(x),
                ) && method_call_form(x, old(self).tokens@, old(self).pos as int, n) && final(self).pos
                    == old(self).pos + 2 * n + 4 + (if old(self).tokens@[old(self).pos + 2 * n + 4] is Semicolon {
                    1int
                } else {
                    0int
                })),
            member_assign_shape(old(self).tokens@, old(self).pos as int) ==> (r matches Ok(Stmt::Expr(x))
                && member_assign_form(x, old(self).tokens@, old(self).pos as int) && final(self).pos
                == old(self).pos + 5 + (if old(self).tokens@[old(self).pos + 5] is Semicolon {
                1int
            } else {
                0int
            })),
        decreases old(self).remaining(), R_STMT,
    {
        match self.peek() {
            Token::LBrace => self.parse_block(),
            Token::Var => self.parse_var_decl(VarKind::Var),
            Token::Let => self.parse_var_decl(VarKind::Let),
            Token::Const => self.parse_var_decl(VarKind::Const),
            Token::Function => self.parse_function_decl(),
            Token::If => self.parse_if(),
            Token::While => self.parse_while(),
            Token::Do => self.parse_do_while(),
            Token::For => self.parse_for(),
            Token::Return => self.parse_return(),
            Token::Break => {
                self.advance();
                self.eat_semicolon();
                Ok(Stmt::Break)
            },
            Token::Continue => {
                self.advance();
                self.eat_semicolon();
                Ok(Stmt::Continue)
            },
            Token::Switch => self.parse_switch(),
            Token::Try => self.parse_try(),
            Token::Throw => self.parse_throw(),
            Token::Semicolon => {
                self.advance();
                Ok(Stmt::Empty)
            },
            _ => self.parse_expression_statement(),
        }
    }

    fn parse_block(&mut self) -> (r: Result<Stmt, Vec<char>>)
        requires
            old(self).wf(),
        ensures
            r matches Ok(st) ==> st is Block,
            final(self).wf(),
            advanced(*old(self), *final(self)),
            r is Ok ==> final(self).pos > old(self).pos,
            old(self).pos + 1 < old(self).tokens@.len() && old(self).tokens@[old(self).pos as int] == Token::LBrace && old(self).tokens@[old(self).pos + 1] == Token::RBrace ==> (r matches Ok(
                v,
            ) && (v matches Stmt::Block(b) && b@.len() == 0) && final(self).pos == old(self).pos + 2),
        decreases old(self).remaining(), R_COMPOUND,
    {
        let stmts = self.parse_block_body()?;
        Ok(Stmt::Block(stmts))
    }

    fn parse_block_body(&mut self) -> (r: Result<Vec<Stmt>, Vec<char>>)
        requires
            old(self).wf(),
        ensures
            final(self).wf(),
            advanced(*old(self), *final(self)),
            r is Ok ==> final(self).pos > old(self).pos,
            old(self).pos + 1 < old(self).tokens@.len() && old(self).tokens@[old(self).pos as int] == Token::LBrace && old(self).tokens@[old(self).pos + 1] == Token::RBrace ==> (r matches Ok(
                v,
            ) && v@.len() == 0 && final(self).pos == old(self).pos + 2),
        decreases old(self).remaining(), R_BLOCK_BODY,
    {
        let ghost start = *self;
        self.expect(&Token::LBrace)?;
        proof {
            lemma_remaining_mono(start, *self);
        }
        let mut stmts: Vec<Stmt> = Vec::new();
        while !matches!(self.peek(), Token::RBrace | Token::Eof)
            invariant
                self.wf(),
                consumed(start, *self),
                start.wf(),
                start == *old(self),
                start.pos + 1 < start.tokens@.len() && start.tokens@[start.pos as int] == Token::LBrace
                    && start.tokens@[start.pos + 1] == Token::RBrace ==> self.pos == start.pos + 1
                    && stmts@.len() == 0,
            decreases self.remaining(),
        {
            let ghost before = *self;
            if self.eat(&Token::Semicolon) {
                proof {
                    lemma_remaining_mono(before, *self);
                }
                continue;
            }
            proof {
                lemma_remaining_mono(start, *self);
            }
            let st = self.parse_statement()?;
            proof {
                lemma_remaining_mono(before, *self);
            }
            stmts.push(st);
        }
        self.expect(&Token::RBrace)?;
        Ok(stmts)
    }

    fn parse_var_decl(&mut self, kind: VarKind) -> (r: Result<Stmt, Vec<char>>)
        requires
            old(self).wf(),
            !(old(self).tokens@[old(self).pos as int] is Eof),
        ensures
            r matches Ok(st) ==> st matches Stmt::VarDecl(k, _) && k == kind,
            final(self).wf(),
            advanced(*old(self), *final(self)),
            r is Ok ==> final(self).pos > old(self).pos,
            old(self).pos + 2 < old(self).tokens@.len() && old(self).tokens@[old(self).pos + 1] is Ident && old(self).tokens@[old(self).pos + 2] == Token::Semicolon ==> (r matches Ok(Stmt::VarDecl(k, ds)) && ds@.len() == 1 && ds@[0].0 == old(self).tokens@[old(self).pos + 1]->Ident_0 && ds@[0].1 is None),
        decreases old(self).remaining(), R_COMPOUND,
    {
        let ghost start = *self;
        self.advance();
        let mut decls: Vec<(Vec<char>, Option<Expr>)> = Vec::new();
        loop
            invariant_except_break
                old(self).pos + 2 < old(self).tokens@.len() && old(self).tokens@[old(self).pos + 1] is Ident && old(self).tokens@[old(self).pos + 2] == Token::Semicolon ==> self.pos == old(self).pos + 1 && decls@.len() == 0,
            invariant
                self.wf(),
                consumed(start, *self),
                start.wf(),
                start == *old(self),
            ensures
                old(self).pos + 2 < old(self).tokens@.len() && old(self).tokens@[old(self).pos + 1] is Ident && old(self).tokens@[old(self).pos + 2] == Token::Semicolon ==> decls@.len() == 1 && decls@[0].0 == old(self).tokens@[old(self).pos + 1]->Ident_0
                    && decls@[0].1 is None,
            decreases self.remaining(),
        {
            let ghost before = *self;
            let name = match self.advance() {
                Token::Ident(n) => n,
                other => {
                    return Err(error_with_token("expected identifier in var decl, got ", &other));
                },
            };
            proof {
                lemma_remaining_mono(start, *self);
                lemma_remaining_mono(before, *self);
            }
            let init = if self.eat(&Token::Assign) {
                proof {
                    lemma_remaining_mono(start, *self);
                }
                Some(self.parse_assignment_expr()?)
            } else {
                None
            };
            decls.push((name, init));
            proof {
                lemma_remaining_mono(before, *self);
            }
            if !self.eat(&Token::Comma) {
                break;
            }
            proof {
                lemma_remaining_mono(before, *self);
            }
        }
        self.eat_semicolon();
        Ok(Stmt::VarDecl(kind, decls))
    }

    fn parse_function_decl(&mut self) -> (r: Result<Stmt, Vec<char>>)
        requires
            old(self).wf(),
            !(old(self).tokens@[old(self).pos as int] is Eof),
        ensures
            r matches Ok(st) ==> st is FunctionDecl,
            final(self).wf(),
            advanced(*old(self), *final(self)),
            r is Ok ==> final(self).pos > old(self).pos,
            old(self).pos + 5 < old(self).tokens@.len() && old(self).tokens@[old(self).pos + 2] == Token::LParen && old(self).tokens@[old(self).pos + 3] == Token::RParen && old(self).tokens@[old(self).pos + 4] == Token::LBrace && old(self).tokens@[old(self).pos + 5] == Token::RBrace && old(self).tokens@[old(self).pos + 1] is Ident ==> (r matches Ok(Stmt::FunctionDecl(n, ps, b)) && n == old(self).tokens@[old(self).pos + 1]->Ident_0 && ps@.len() == 0 && b@.len() == 0),
        decreases old(self).remaining(), R_COMPOUND,
    {
        let ghost start = *self;
        self.advance();
        let name = match self.advance() {
            Token::Ident(n) => n,
            other => {
                return Err(error_with_token("expected function name, got ", &other));
            },
        };
        proof {
            lemma_remaining_mono(start, *self);
        }
        let params = self.parse_param_list()?;
        proof {
            lemma_remaining_mono(start, *self);
        }
        let body = self.parse_block_body()?;
        Ok(Stmt::FunctionDecl(name, params, body))
    }

    fn parse_param_list(&mut self) -> (r: Result<Vec<Vec<char>>, Vec<char>>)
        requires
            old(self).wf(),
        ensures
            final(self).wf(),
            advanced(*old(self), *final(self)),
            r is Ok ==> final(self).pos > old(self).pos,
            old(self).pos + 1 < old(self).tokens@.len() && old(self).tokens@[old(self).pos as int] == Token::LParen && old(self).tokens@[old(self).pos + 1] == Token::RParen ==> (r matches Ok(
                v,
            ) && v@.len() == 0 && final(self).pos == old(self).pos + 2),
        decreases old(self).remaining(), R_PARAMS,
    {
        let ghost start = *self;
        self.expect(&Token::LParen)?;
        let mut params: Vec<Vec<char>> = Vec::new();
        while !matches!(self.peek(), Token::RParen | Token::Eof)
            invariant
                self.wf(),
                consumed(start, *self),
                start.wf(),
                start == *old(self),
                start.pos + 1 < start.tokens@.len() && start.tokens@[start.pos as int] == Token::LParen
                    && start.tokens@[start.pos + 1] == Token::RParen ==> self.pos == start.pos + 1
                    && params@.len() == 0,
            decreases self.remaining(),
        {
            let ghost before = *self;
            match self.advance() {
                Token::Ident(n) => {
                    params.push(n);
                },
                Token::Spread => {
                    if let Token::Ident(n) = self.advance() {
                        params.push(n);
                    }
                },
                other => {
                    return Err(error_with_token("expected parameter name, got ", &other));
                },
            }
            proof {
                lemma_remaining_mono(start, *self);
                lemma_remaining_mono(before, *self);
            }
            if self.eat(&Token::Assign) {
                proof {
                    lemma_remaining_mono(start, *self);
                }
                let _ = self.parse_assignment_expr()?;
            }
            if !self.eat(&Token::Comma) {
                break;
            }
            proof {
                lemma_remaining_mono(before, *self);
            }
        }
        self.expect(&Token::RParen)?;
        Ok(params)
    }

    fn parse_if(&mut self) -> (r: Result<Stmt, Vec<char>>)
        requires
            old(self).wf(),
            !(old(self).tokens@[old(self).pos as int] is Eof),
        ensures
            r matches Ok(st) ==> st is If,
            final(self).wf(),
            advanced(*old(self), *final(self)),
            r is Ok ==> final(self).pos > old(self).pos,
            old(self).pos + 5 < old(self).tokens@.len() && old(self).tokens@[old(self).pos + 1] == Token::LParen && old(self).tokens@[old(self).pos + 3] == Token::RParen && old(self).tokens@[old(self).pos + 4] == Token::Semicolon && atom_then_stop(old(self).tokens@, old(self).pos + 2) && old(self).tokens@[old(self).pos + 5] != Token::Else ==> r == Ok::<Stmt, Vec<char>>(Stmt::If(spec_atom_expr(old(self).tokens@[old(self).pos + 2])->0, Box::new(Stmt::Empty), None)),
        decreases old(self).remaining(), R_COMPOUND,
    {
        let ghost start = *self;
        self.advance();
        self.expect(&Token::LParen)?;
        proof {
            lemma_remaining_mono(start, *self);
        }
        let cond = self.parse_expression()?;
        self.expect(&Token::RParen)?;
        proof {
            lemma_remaining_mono(start, *self);
        }
        let then = self.parse_statement()?;
        proof {
            lemma_remaining_mono(start, *self);
        }
        let else_branch = if self.eat(&Token::Else) {
            proof {
                lemma_remaining_mono(start, *self);
            }
            Some(Box::new(self.parse_statement()?))
        } else {
            None
        };
        Ok(Stmt::If(cond, Box::new(then), else_branch))
    }

    fn parse_while(&mut self) -> (r: Result<Stmt, Vec<char>>)
        requires
            old(self).wf(),
            !(old(self).tokens@[old(self).pos as int] is Eof),
        ensures
            r matches Ok(st) ==> st is While,
            final(self).wf(),
            advanced(*old(self), *final(self)),
            r is Ok ==> final(self).pos > old(self).pos,
            old(self).pos + 4 < old(self).tokens@.len() && old(self).tokens@[old(self).pos + 1] == Token::LParen && old(self).tokens@[old(self).pos + 3] == Token::RParen && old(self).tokens@[old(self).pos + 4] == Token::Semicolon && atom_then_stop(old(self).tokens@, old(self).pos + 2) ==> r == Ok::<Stmt, Vec<char>>(Stmt::While(spec_atom_expr(old(self).tokens@[old(self).pos + 2])->0, Box::new(Stmt::Empty))) && final(self).pos == old(self).pos + 5,
        decreases old(self).remaining(), R_COMPOUND,
    {
        let ghost start = *self;
        self.advance();
        self.expect(&Token::LParen)?;
        proof {
            lemma_remaining_mono(start, *self);
        }
        let cond = self.parse_expression()?;
        self.expect(&Token::RParen)?;
        proof {
            lemma_remaining_mono(start, *self);
        }
        let body = self.parse_statement()?;
        Ok(Stmt::While(cond, Box::new(body)))
    }

    fn parse_do_while(&mut self) -> (r: Result<Stmt, Vec<char>>)
        requires
            old(self).wf(),
            !(old(self).tokens@[old(self).pos as int] is Eof),
        ensures
            r matches Ok(st) ==> st is DoWhile,
            final(self).wf(),
            advanced(*old(self), *final(self)),
            r is Ok ==> final(self).pos > old(self).pos,
            old(self).pos + 5 < old(self).tokens@.len() && old(self).tokens@[old(self).pos + 1] == Token::Semicolon && old(self).tokens@[old(self).pos + 2] == Token::While && old(self).tokens@[old(self).pos + 3] == Token::LParen && old(self).tokens@[old(self).pos + 5] == Token::RParen && atom_then_stop(old(self).tokens@, old(self).pos + 4) ==> r == Ok::<Stmt, Vec<char>>(Stmt::DoWhile(Box::new(Stmt::Empty), spec_atom_expr(old(self).tokens@[old(self).pos + 4])->0)),
        decreases old(self).remaining(), R_COMPOUND,
    {
        let ghost start = *self;
        self.advance();
        proof {
            lemma_remaining_mono(start, *self);
        }
        let body = self.parse_statement()?;
        self.expect(&Token::While)?;
        self.expect(&Token::LParen)?;
        proof {
            lemma_remaining_mono(start, *self);
        }
        let cond = self.parse_expression()?;
        self.expect(&Token::RParen)?;
        self.eat_semicolon();
        Ok(Stmt::DoWhile(Box::new(body), cond))
    }

    /// `cond; update) body` of a classic for loop, after the first `;`.
    fn parse_for_rest(&mut self, init: Option<Box<Stmt>>) -> (r: Result<Stmt, Vec<char>>)
        requires
            old(self).wf(),
        ensures
            r matches Ok(st) ==> st is For,
            final(self).wf(),
            advanced(*old(self), *final(self)),
            r is Ok ==> final(self).pos > old(self).pos,
            old(self).pos + 2 < old(self).tokens@.len() && old(self).tokens@[old(self).pos as int] == Token::Semicolon && old(self).tokens@[old(self).pos + 1] == Token::RParen && old(self).tokens@[old(self).pos + 2] == Token::Semicolon ==> r == Ok::<Stmt, Vec<char>>(Stmt::For(init, None, None, Box::new(Stmt::Empty))),
        decreases old(self).remaining(), R_COMPOUND,
    {
        let ghost start = *self;
        let cond = if !matches!(self.peek(), Token::Semicolon) {
            Some(self.parse_expression()?)
        } else {
            None
        };
        self.expect(&Token::Semicolon)?;
        proof {
            lemma_remaining_mono(start, *self);
        }
        let update = if !matches!(self.peek(), Token::RParen) {
            Some(self.parse_expression()?)
        } else {
            None
        };
        self.expect(&Token::RParen)?;
        proof {
            lemma_remaining_mono(start, *self);
        }
        let body = self.parse_statement()?;
        Ok(Stmt::For(init, cond, update, Box::new(body)))
    }

    fn parse_for(&mut self) -> (r: Result<Stmt, Vec<char>>)
        requires
            old(self).wf(),
            !(old(self).tokens@[old(self).pos as int] is Eof),
        ensures
            r matches Ok(st) ==> st is For || st is ForIn || st is ForOf,
            final(self).wf(),
            advanced(*old(self), *final(self)),
            r is Ok ==> final(self).pos > old(self).pos,
            old(self).pos + 5 < old(self).tokens@.len() && old(self).tokens@[old(self).pos + 1] == Token::LParen && old(self).tokens@[old(self).pos + 2] == Token::Semicolon && old(self).tokens@[old(self).pos + 3] == Token::Semicolon && old(self).tokens@[old(self).pos + 4] == Token::RParen && old(self).tokens@[old(self).pos + 5] == Token::Semicolon ==> r == Ok::<Stmt, Vec<char>>(Stmt::For(None, None, None, Box::new(Stmt::Empty))),
            for_each_shape(old(self).tokens@, old(self).pos as int) ==> ({
                let t = old(self).tokens@;
                let p = old(self).pos as int;
                let kind = spec_var_kind(t[p + 2])->0;
                let name = t[p + 3]->Ident_0;
                let x = spec_atom_expr(t[p + 5])->0;
                &&& t[p + 4] is In ==> (r matches Ok(Stmt::ForIn(k, n, e, b)) && k == kind && n@ == name@
                    && e == x && *b == Stmt::Empty)
                &&& t[p + 4] is Of ==> (r matches Ok(Stmt::ForOf(k, n, e, b)) && k == kind && n@ == name@
                    && e == x && *b == Stmt::Empty)
            }),
        decreases old(self).remaining(), R_COMPOUND,
    {
        let ghost start = *self;
        let ghost t = self.tokens@;
        let ghost p = self.pos as int;
        let ghost shape = for_each_shape(t, p);
        self.advance();
        self.expect(&Token::LParen)?;
        proof {
            lemma_remaining_mono(start, *self);
        }
        proof {
            if shape {
                assert(self.pos == p + 2);
                assert(self.tokens@[p + 2] == t[p + 2]);
            }
        }
        let kind = match self.peek() {
            Token::Var => Some(VarKind::Var),
            Token::Let => Some(VarKind::Let),
            Token::Const => Some(VarKind::Const),
            _ => None,
        };
        if let Some(vk) = kind {
            self.advance();
            proof {
                lemma_remaining_mono(start, *self);
            }
            proof {
                if shape {
                    assert(self.pos == p + 3);
                    assert(self.tokens@[p + 3] == t[p + 3]);
                    assert(self.tokens@[p + 4] == t[p + 4]);
                    assert(self.tokens@[p + 5] == t[p + 5]);
                    assert(self.tokens@[p + 6] == t[p + 6]);
                    assert(self.tokens@[p + 7] == t[p + 7]);
                }
            }
            let is_named_iter = matches!(self.peek(), Token::Ident(_)) && matches!(
                self.peek_at(1),
                Token::In | Token::Of
            );
            proof {
                if shape {
                    assert(is_named_iter);
                }
            }
            if is_named_iter {
                let name = match self.advance() {
                    Token::Ident(n) => n,
                    _ => Vec::new(),
                };
                let is_of = matches!(self.peek(), Token::Of);
                self.advance();
                proof {
                    lemma_remaining_mono(start, *self);
                }
                proof {
                    if shape {
                        assert(self.pos == p + 5);
                        assert(self.tokens@[p + 5] == t[p + 5]);
                        assert(self.tokens@[p + 6] == t[p + 6]);
                        assert(atom_then_stop(self.tokens@, self.pos as int));
                    }
                }
                let iter_expr = self.parse_expression()?;
                self.expect(&Token::RParen)?;
                proof {
                    if shape {
                        assert(self.pos == p + 7);
                        assert(self.tokens@[p + 7] == t[p + 7]);
                    }
                }
                proof {
                    lemma_remaining_mono(start, *self);
                }
                let body = self.parse_statement()?;
                return if is_of {
                    Ok(Stmt::ForOf(vk, name, iter_expr, Box::new(body)))
                } else {
                    Ok(Stmt::ForIn(vk, name, iter_expr, Box::new(body)))
                };
            }
            let mut decls: Vec<(Vec<char>, Option<Expr>)> = Vec::new();
            loop
                invariant
                    self.wf(),
                    consumed(start, *self),
                    start.wf(),
                    start == *old(self),
                    !(old(self).tokens@[old(self).pos + 2] == Token::Semicolon),
                    !shape,
                    shape == for_each_shape(old(self).tokens@, old(self).pos as int),
                decreases self.remaining(),
            {
                let ghost before = *self;
                let dname = match self.advance() {
                    Token::Ident(n) => n,
                    other => {
                        return Err(error_with_token("expected ident in for-init, got ", &other));
                    },
                };
                proof {
                    lemma_remaining_mono(start, *self);
                    lemma_remaining_mono(before, *self);
                }
                let init = if self.eat(&Token::Assign) {
                    proof {
                        lemma_remaining_mono(start, *self);
                    }
                    Some(self.parse_assignment_expr()?)
                } else {
                    None
                };
                decls.push((dname, init));
                if !self.eat(&Token::Comma) {
                    break;
                }
                proof {
                    lemma_remaining_mono(before, *self);
                }
            }
            let init_stmt = Stmt::VarDecl(vk, decls);
            self.expect(&Token::Semicolon)?;
            proof {
                lemma_remaining_mono(start, *self);
            }
            return self.parse_for_rest(Some(Box::new(init_stmt)));
        }
        if matches!(self.peek(), Token::Semicolon) {
            self.advance();
            proof {
                lemma_remaining_mono(start, *self);
            }
            return self.parse_for_rest(None);
        }
        let expr = self.parse_expression()?;
        proof {
            lemma_remaining_mono(start, *self);
        }
        if matches!(self.peek(), Token::In | Token::Of) {
            if let Expr::Ident(name) = expr {
                let is_of = matches!(self.peek(), Token::Of);
                self.advance();
                proof {
                    lemma_remaining_mono(start, *self);
                }
                let iter_expr = self.parse_expression()?;
                self.expect(&Token::RParen)?;
                proof {
                    lemma_remaining_mono(start, *self);
                }
                let body = self.parse_statement()?;
                return if is_of {
                    Ok(Stmt::ForOf(VarKind::Var, name, iter_expr, Box::new(body)))
                } else {
                    Ok(Stmt::ForIn(VarKind::Var, name, iter_expr, Box::new(body)))
                };
            } else {
                let init_stmt = Stmt::Expr(expr);
                self.expect(&Token::Semicolon)?;
                proof {
                    lemma_remaining_mono(start, *self);
                }
                return self.parse_for_rest(Some(Box::new(init_stmt)));
            }
        }
        let init_stmt = Stmt::Expr(expr);
        self.expect(&Token::Semicolon)?;
        proof {
            lemma_remaining_mono(start, *self);
        }
        self.parse_for_rest(Some(Box::new(init_stmt)))
    }

    fn parse_return(&mut self) -> (r: Result<Stmt, Vec<char>>)
        requires
            old(self).wf(),
            !(old(self).tokens@[old(self).pos as int] is Eof),
        ensures
            r matches Ok(st) ==> st is Return,
            final(self).wf(),
            advanced(*old(self), *final(self)),
            r is Ok ==> final(self).pos > old(self).pos,
            old(self).pos + 1 < old(self).tokens@.len() && (old(self).tokens@[old(self).pos + 1] is Semicolon || old(self).tokens@[old(self).pos + 1] is RBrace || old(self).tokens@[old(self).pos + 1] is Eof)
                ==> r == Ok::<Stmt, Vec<char>>(Stmt::Return(None)),
            atom_then_stop(old(self).tokens@, old(self).pos + 1) ==> r == Ok::<Stmt, Vec<char>>(
                Stmt::Return(Some(spec_atom_expr(old(self).tokens@[old(self).pos + 1])->0)),
            ),
        decreases old(self).remaining(), R_COMPOUND,
    {
        let ghost start = *self;
        self.advance();
        proof {
            lemma_remaining_mono(start, *self);
        }
        if matches!(self.peek(), Token::Semicolon | Token::RBrace | Token::Eof) {
            self.eat_semicolon();
            return Ok(Stmt::Return(None));
        }
        let val = self.parse_expression()?;
        self.eat_semicolon();
        Ok(Stmt::Return(Some(val)))
    }

    fn parse_switch(&mut self) -> (r: Result<Stmt, Vec<char>>)
        requires
            old(self).wf(),
            !(old(self).tokens@[old(self).pos as int] is Eof),
        ensures
            r matches Ok(st) ==> st is Switch,
            final(self).wf(),
            advanced(*old(self), *final(self)),
            r is Ok ==> final(self).pos > old(self).pos,
            old(self).pos + 5 < old(self).tokens@.len() && old(self).tokens@[old(self).pos + 1] == Token::LParen && old(self).tokens@[old(self).pos + 3] == Token::RParen && old(self).tokens@[old(self).pos + 4] == Token::LBrace && old(self).tokens@[old(self).pos + 5] == Token::RBrace && atom_then_stop(old(self).tokens@, old(self).pos + 2) ==> (r matches Ok(Stmt::Switch(d, c)) && d == spec_atom_expr(old(self).tokens@[old(self).pos + 2])->0 && c@.len() == 0),
        decreases old(self).remaining(), R_COMPOUND,
    {
        let ghost start = *self;
        self.advance();
        self.expect(&Token::LParen)?;
        proof {
            lemma_remaining_mono(start, *self);
        }
        let disc = self.parse_expression()?;
        self.expect(&Token::RParen)?;
        self.expect(&Token::LBrace)?;
        let mut cases: Vec<SwitchCase> = Vec::new();
        while !matches!(self.peek(), Token::RBrace | Token::Eof)
            invariant
                self.wf(),
                consumed(start, *self),
                start.wf(),
                start == *old(self),
                old(self).pos + 5 < old(self).tokens@.len() && old(self).tokens@[old(self).pos + 1] == Token::LParen && old(self).tokens@[old(self).pos + 3] == Token::RParen && old(self).tokens@[old(self).pos + 4] == Token::LBrace && old(self).tokens@[old(self).pos + 5] == Token::RBrace && atom_then_stop(old(self).tokens@, old(self).pos + 2) ==> self.pos == old(self).pos + 5 && cases@.len() == 0,
            decreases self.remaining(),
        {
            let ghost before = *self;
            let test = if self.eat(&Token::Case) {
                proof {
                    lemma_remaining_mono(start, *self);
                }
                let expr = self.parse_expression()?;
                self.expect(&Token::Colon)?;
                Some(expr)
            } else if self.eat(&Token::Default) {
                self.expect(&Token::Colon)?;
                None
            } else {
                return Err(error_with_token("expected case or default, got ", self.peek()));
            };
            proof {
                lemma_remaining_mono(before, *self);
            }
            let mut body: Vec<Stmt> = Vec::new();
            while !matches!(self.peek(), Token::Case | Token::Default | Token::RBrace | Token::Eof)
                invariant
                    self.wf(),
                    consumed(start, *self),
                    consumed(before, *self),
                    start.wf(),
                    start == *old(self),
                    before.wf(),
                    !(old(self).pos + 5 < old(self).tokens@.len() && old(self).tokens@[old(self).pos + 1] == Token::LParen && old(self).tokens@[old(self).pos + 3] == Token::RParen && old(self).tokens@[old(self).pos + 4] == Token::LBrace && old(self).tokens@[old(self).pos + 5] == Token::RBrace && atom_then_stop(old(self).tokens@, old(self).pos + 2)),
                decreases self.remaining(),
            {
                let ghost inner = *self;
                if self.eat(&Token::Semicolon) {
                    proof {
                        lemma_remaining_mono(inner, *self);
                    }
                    continue;
                }
                proof {
                    lemma_remaining_mono(start, *self);
                }
                let st = self.parse_statement()?;
                proof {
                    lemma_remaining_mono(inner, *self);
                }
                body.push(st);
            }
            proof {
                lemma_remaining_mono(before, *self);
            }
            cases.push(SwitchCase { test, body });
        }
        self.expect(&Token::RBrace)?;
        Ok(Stmt::Switch(disc, cases))
    }

    fn parse_try(&mut self) -> (r: Result<Stmt, Vec<char>>)
        requires
            old(self).wf(),
            !(old(self).tokens@[old(self).pos as int] is Eof),
        ensures
            r matches Ok(st) ==> st is TryCatch,
            final(self).wf(),
            advanced(*old(self), *final(self)),
            r is Ok ==> final(self).pos > old(self).pos,
            old(self).pos + 5 < old(self).tokens@.len() && old(self).tokens@[old(self).pos + 1] == Token::LBrace && old(self).tokens@[old(self).pos + 2] == Token::RBrace && old(self).tokens@[old(self).pos + 3] == Token::Finally && old(self).tokens@[old(self).pos + 4] == Token::LBrace && old(self).tokens@[old(self).pos + 5] == Token::RBrace ==> (r matches Ok(Stmt::TryCatch(b, c, f)) && b@.len() == 0 && c is None && (f matches Some(fb) && fb@.len() == 0)),
        decreases old(self).remaining(), R_COMPOUND,
    {
        let ghost start = *self;
        self.advance();
        proof {
            lemma_remaining_mono(start, *self);
        }
        let try_body = self.parse_block_body()?;
        proof {
            lemma_remaining_mono(start, *self);
        }
        let catch = if self.eat(&Token::Catch) {
            let param = if self.eat(&Token::LParen) {
                let name = match self.advance() {
                    Token::Ident(n) => Some(n),
                    _ => None,
                };
                self.expect(&Token::RParen)?;
                name
            } else {
                None
            };
            proof {
                lemma_remaining_mono(start, *self);
            }
            let body = self.parse_block_body()?;
            Some((param, body))
        } else {
            None
        };
        proof {
            lemma_remaining_mono(start, *self);
        }
        let finally = if self.eat(&Token::Finally) {
            proof {
                lemma_remaining_mono(start, *self);
            }
            Some(self.parse_block_body()?)
        } else {
            None
        };
        Ok(Stmt::TryCatch(try_body, catch, finally))
    }

    fn parse_throw(&mut self) -> (r: Result<Stmt, Vec<char>>)
        requires
            old(self).wf(),
            !(old(self).tokens@[old(self).pos as int] is Eof),
        ensures
            r matches Ok(st) ==> st is Throw,
            final(self).wf(),
            advanced(*old(self), *final(self)),
            r is Ok ==> final(self).pos > old(self).pos,
            atom_then_stop(old(self).tokens@, old(self).pos + 1) ==> r == Ok::<Stmt, Vec<char>>(
                Stmt::Throw(spec_atom_expr(old(self).tokens@[old(self).pos + 1])->0),
            ) && final(self).pos == old(self).pos + 2 + (if old(self).tokens@[old(self).pos + 2] is Semicolon {
                1int
            } else {
                0int
            }),
        decreases old(self).remaining(), R_COMPOUND,
    {
        let ghost start = *self;
        self.advance();
        proof {
            lemma_remaining_mono(start, *self);
        }
        let expr = self.parse_expression()?;
        self.eat_semicolon();
        Ok(Stmt::Throw(expr))
    }

    fn parse_expression_statement(&mut self) -> (r: Result<Stmt, Vec<char>>)
        requires
            old(self).wf(),
        ensures
            r matches Ok(st) ==> st is Expr,
            final(self).wf(),
            advanced(*old(self), *final(self)),
            r is Ok ==> final(self).pos > old(self).pos,
            atom_then_stop(old(self).tokens@, old(self).pos as int) ==> r == Ok::<Stmt, Vec<char>>(
                Stmt::Expr(spec_atom_expr(old(self).tokens@[old(self).pos as int])->0),
            ),
            forall|n: int|
                #[trigger] method_call_shape(old(self).tokens@, old(self).pos as int, n) ==> (r matches Ok(
                    Stmt::Expr(x),
                ) && method_call_form(x, old(self).tokens@, old(self).pos as int, n) && final(self).pos
                    == old(self).pos + 2 * n + 4 + (if old(self).tokens@[old(self).pos + 2 * n + 4] is Semicolon {
                    1int
                } else {
                    0int
                })),
            member_assign_shape(old(self).tokens@, old(self).pos as int) ==> (r matches Ok(Stmt::Expr(x))
                && member_assign_form(x, old(self).tokens@, old(self).pos as int) && final(self).pos
                == old(self).pos + 5 + (if old(self).tokens@[old(self).pos + 5] is Semicolon {
                1int
            } else {
                0int
            })),
        decreases old(self).remaining(), R_EXPR_STMT,
    {
        let ghost t = self.tokens@;
        let ghost p = self.pos as int;
        let ghost nm = choose|n: int| method_call_shape(t, p, n);
        proof {
            if exists|n: int| method_call_shape(t, p, n) {
                assert(method_call_shape(t, p, nm));
            }
        }
        let expr = self.parse_expression()?;
        proof {
            assert(self.tokens@[self.pos as int] == t[self.pos as int]);
        }
        self.eat_semicolon();
        proof {
            assert forall|n2: int| #[trigger] method_call_shape(t, p, n2) implies n2 == nm by {
                lemma_atom_args_unique(t, p + 3, nm, n2);
            }
        }
        Ok(Stmt::Expr(expr))
    }

    // -------------------------------------------------------------------
    // Expressions (precedence climbing)
    // -------------------------------------------------------------------

    pub fn parse_expression(&mut self) -> (r: Result<Expr, Vec<char>>)
        requires
            old(self).wf(),
        ensures
            final(self).wf(),
            advanced(*old(self), *final(self)),
            r is Ok ==> final(self).pos > old(self).pos,
            atom_then_stop(old(self).tokens@, old(self).pos as int) ==> r == Ok::<Expr, Vec<char>>(
                spec_atom_expr(old(self).tokens@[old(self).pos as int])->0,
            ) && final(self).pos == old(self).pos + 1,
            forall|n: int|
                #[trigger] method_call_shape(old(self).tokens@, old(self).pos as int, n) ==> (r matches Ok(
                    x,
                ) && method_call_form(x, old(self).tokens@, old(self).pos as int, n) && final(self).pos
                    == old(self).pos + 2 * n + 4),
            member_assign_shape(old(self).tokens@, old(self).pos as int) ==> (r matches Ok(x)
                && member_assign_form(x, old(self).tokens@, old(self).pos as int) && final(self).pos
                == old(self).pos + 5),
            forall|lv: int|
                0 <= lv <= LEVEL_MULTIPLICATIVE && #[trigger] chain_shape(
                    old(self).tokens@,
                    old(self).pos as int,
                    lv,
                ) ==> r == Ok::<Expr, Vec<char>>(chain_form(old(self).tokens@, old(self).pos as int))
                    && final(self).pos == old(self).pos + 5,
        decreases old(self).remaining(), R_EXPR,
    {
        // a following comma is left to the callers that accept lists
        self.parse_assignment_expr()
    }

    pub fn parse_assignment_expr(&mut self) -> (r: Result<Expr, Vec<char>>)
        requires
            old(self).wf(),
        ensures
            final(self).wf(),
            advanced(*old(self), *final(self)),
            r is Ok ==> final(self).pos > old(self).pos,
            atom_then_stop(old(self).tokens@, old(self).pos as int) ==> r == Ok::<Expr, Vec<char>>(
                spec_atom_expr(old(self).tokens@[old(self).pos as int])->0,
            ) && final(self).pos == old(self).pos + 1,
            forall|n: int|
                #[trigger] method_call_shape(old(self).tokens@, old(self).pos as int, n) ==> (r matches Ok(
                    x,
                ) && method_call_form(x, old(self).tokens@, old(self).pos as int, n) && final(self).pos
                    == old(self).pos + 2 * n + 4),
            member_assign_shape(old(self).tokens@, old(self).pos as int) ==> (r matches Ok(x)
                && member_assign_form(x, old(self).tokens@, old(self).pos as int) && final(self).pos
                == old(self).pos + 5),
            forall|lv: int|
                0 <= lv <= LEVEL_MULTIPLICATIVE && #[trigger] chain_shape(
                    old(self).tokens@,
                    old(self).pos as int,
                    lv,
                ) ==> r == Ok::<Expr, Vec<char>>(chain_form(old(self).tokens@, old(self).pos as int))
                    && final(self).pos == old(self).pos + 5,
        decreases old(self).remaining(), R_ASSIGN,
    {
        let ghost start = *self;
        let ghost t = self.tokens@;
        let ghost p = self.pos as int;
        let ghost is_mc = exists|n: int| method_call_shape(t, p, n);
        let ghost nm = choose|n: int| method_call_shape(t, p, n);
        if self.is_arrow_function() {
            proof {
                if is_mc {
                    assert(method_call_shape(t, p, nm));
                }
            }
            return self.parse_arrow_function();
        }
        let left = self.parse_ternary()?;
        proof {
            if is_mc {
                assert(method_call_shape(t, p, nm));
            }
            assert(self.tokens@[self.pos as int] == t[self.pos as int]);
            if member_assign_shape(t, p) {
                assert(self.tokens@[p + 4] == t[p + 4]);
                assert(self.tokens@[p + 5] == t[p + 5]);
            }
        }
        proof {
            lemma_remaining_mono(start, *self);
        }
        let op = assign_op_of(self.peek());
        if let Some(op) = op {
            self.advance();
            proof {
                lemma_remaining_mono(start, *self);
            }
            proof {
                if member_assign_shape(t, p) {
                    assert(atom_then_stop(self.tokens@, self.pos as int));
                }
            }
            let right = self.parse_assignment_expr()?;
            return Ok(Expr::Assign(Box::new(left), op, Box::new(right)));
        }
        proof {
            assert forall|n2: int| #[trigger] method_call_shape(t, p, n2) implies n2 == nm by {
                lemma_atom_args_unique(t, p + 3, nm, n2);
            }
        }
        Ok(left)
    }

    /// `ident =>`, `() =>`, `(a, b) =>`: a parenthesized group (within 100 tokens) followed
    /// by an arrow.
    pub fn is_arrow_function(&self) -> (r: bool)
        requires
            self.wf(),
        ensures
            r == spec_arrow_ahead(self.tokens@, self.pos as int),
    {
        let start = self.pos;
        let n = self.tokens.len();
        let ghost t = self.tokens@;
        if matches!(self.tokens[start], Token::Ident(_)) {
            if start + 1 < n && matches!(self.tokens[start + 1], Token::Arrow) {
                return true;
            }
        }
        if !matches!(self.tokens[start], Token::LParen) {
            return false;
        }
        let mut depth: i64 = 0;
        let mut i = start;
        loop
            invariant
                start <= i <= start + 100,
                i <= n,
                start < n,
                start == self.pos,
                n == self.tokens@.len(),
                t == self.tokens@,
                t[start as int] is LParen,
                !(t[start as int] is Ident && start + 1 < n && t[start + 1] is Arrow),
                depth == paren_depth(t, start as int, i as int),
                -(i - start) <= depth <= i - start,
                forall|k: int| start < k <= i ==> paren_depth(t, start as int, k) > 0,
                forall|k: int| start <= k < i ==> !(#[trigger] t[k] is Eof),
            decreases start + 100 - i,
        {
            if i >= n {
                proof {
                    lemma_no_group(t, start as int, i as int);
                }
                return false;
            }
            match &self.tokens[i] {
                Token::LParen => {
                    depth = depth + 1;
                },
                Token::RParen => {
                    depth = depth - 1;
                    if depth == 0 {
                        proof {
                            lemma_group_unique(t, start as int, i as int);
                        }
                        return i + 1 < n && matches!(self.tokens[i + 1], Token::Arrow);
                    }
                },
                Token::Eof => {
                    proof {
                        lemma_no_group(t, start as int, i as int);
                    }
                    return false;
                },
                _ => {},
            }
            // the scan gives up past a hundred tokens
            if i - start >= 100 {
                proof {
                    lemma_no_group(t, start as int, i + 1);
                }
                return false;
            }
            i = i + 1;
        }
    }

    fn parse_arrow_function(&mut self) -> (r: Result<Expr, Vec<char>>)
        requires
            old(self).wf(),
        ensures
            r matches Ok(e) ==> e is Arrow,
            final(self).wf(),
            advanced(*old(self), *final(self)),
            r is Ok ==> final(self).pos > old(self).pos,
            old(self).pos + 4 < old(self).tokens@.len() && old(self).tokens@[old(self).pos as int] == Token::LParen && old(self).tokens@[old(self).pos + 1] == Token::RParen && old(self).tokens@[old(self).pos + 2] == Token::Arrow && old(self).tokens@[old(self).pos + 3] == Token::LBrace && old(self).tokens@[old(self).pos + 4] == Token::RBrace ==> (r matches Ok(
                Expr::Arrow(ps, body),
            ) && ps@.len() == 0 && (*body matches Stmt::Block(b) && b@.len() == 0)),
        decreases old(self).remaining(), R_ARROW,
    {
        let ghost start = *self;
        let params = if matches!(self.peek(), Token::Ident(_)) {
            let mut v: Vec<Vec<char>> = Vec::new();
            if let Token::Ident(name) = self.advance() {
                v.push(name);
            }
            v
        } else {
            self.parse_param_list()?
        };
        self.expect(&Token::Arrow)?;
        proof {
            lemma_remaining_mono(start, *self);
        }
        let body = if matches!(self.peek(), Token::LBrace) {
            let stmts = self.parse_block_body()?;
            Stmt::Block(stmts)
        } else {
            let expr = self.parse_assignment_expr()?;
            Stmt::Return(Some(expr))
        };
        Ok(Expr::Arrow(params, Box::new(body)))
    }

    fn parse_ternary(&mut self) -> (r: Result<Expr, Vec<char>>)
        requires
            old(self).wf(),
        ensures
            final(self).wf(),
            advanced(*old(self), *final(self)),
            r is Ok ==> final(self).pos > old(self).pos,
            atom_then_stop(old(self).tokens@, old(self).pos as int) ==> r == Ok::<Expr, Vec<char>>(
                spec_atom_expr(old(self).tokens@[old(self).pos as int])->0,
            ) && final(self).pos == old(self).pos + 1,
            member_shape(old(self).tokens@, old(self).pos as int) ==> (r matches Ok(x) && member_form(
                x,
                old(self).tokens@,
                old(self).pos as int,
            ) && final(self).pos == old(self).pos + 3),
            forall|n: int|
                #[trigger] method_call_shape(old(self).tokens@, old(self).pos as int, n) ==> (r matches Ok(
                    x,
                ) && method_call_form(x, old(self).tokens@, old(self).pos as int, n) && final(self).pos
                    == old(self).pos + 2 * n + 4),
            forall|lv: int|
                0 <= lv <= LEVEL_MULTIPLICATIVE && #[trigger] chain_shape(
                    old(self).tokens@,
                    old(self).pos as int,
                    lv,
                ) ==> r == Ok::<Expr, Vec<char>>(chain_form(old(self).tokens@, old(self).pos as int))
                    && final(self).pos == old(self).pos + 5,
        decreases old(self).remaining(), R_TERNARY,
    {
        let ghost start = *self;
        let expr = self.parse_binary(LEVEL_NULLISH)?;
        if self.eat(&Token::Question) {
            proof {
                lemma_remaining_mono(start, *self);
            }
            let then = self.parse_assignment_expr()?;
            self.expect(&Token::Colon)?;
            proof {
                lemma_remaining_mono(start, *self);
            }
            let else_expr = self.parse_assignment_expr()?;
            Ok(Expr::Ternary(Box::new(expr), Box::new(then), Box::new(else_expr)))
        } else {
            Ok(expr)
        }
    }

    /// Left-associative binary operators at `level` and tighter (the levels from
    /// nullish coalescing down to multiplicative).
    fn parse_binary(&mut self, level: u64) -> (r: Result<Expr, Vec<char>>)
        requires
            old(self).wf(),
            level <= LEVEL_MULTIPLICATIVE,
        ensures
            final(self).wf(),
            advanced(*old(self), *final(self)),
            r is Ok ==> final(self).pos > old(self).pos,
            atom_then_looser(old(self).tokens@, old(self).pos as int, level as int) ==> r == Ok::<
                Expr,
                Vec<char>,
            >(spec_atom_expr(old(self).tokens@[old(self).pos as int])->0) && final(self).pos == old(
                self,
            ).pos + 1,
            forall|lv: int|
                level <= lv <= LEVEL_MULTIPLICATIVE && #[trigger] chain_shape(
                    old(self).tokens@,
                    old(self).pos as int,
                    lv,
                ) ==> r == Ok::<Expr, Vec<char>>(chain_form(old(self).tokens@, old(self).pos as int))
                    && final(self).pos == old(self).pos + 5,
            member_shape(old(self).tokens@, old(self).pos as int) ==> (r matches Ok(x) && member_form(
                x,
                old(self).tokens@,
                old(self).pos as int,
            ) && final(self).pos == old(self).pos + 3),
            forall|n: int|
                #[trigger] method_call_shape(old(self).tokens@, old(self).pos as int, n) ==> (r matches Ok(
                    x,
                ) && method_call_form(x, old(self).tokens@, old(self).pos as int, n) && final(self).pos
                    == old(self).pos + 2 * n + 4),
        decreases old(self).remaining(), R_BINARY - level,
    {
        let ghost start = *self;
        let ghost t = self.tokens@;
        let ghost p = self.pos as int;
        let ghost is_m = member_shape(t, p);
        let ghost is_mc = exists|n: int| method_call_shape(t, p, n);
        let ghost nm = choose|n: int| method_call_shape(t, p, n);
        let ghost has_chain = exists|lv: int| level <= lv <= LEVEL_MULTIPLICATIVE && #[trigger] chain_shape(t, p, lv);
        let ghost clv = choose|lv: int| level <= lv <= LEVEL_MULTIPLICATIVE && #[trigger] chain_shape(t, p, lv);
        let ghost here = has_chain && clv == level;
        proof {
            if has_chain && clv > level {
                assert(chain_shape(t, p, clv));
            }
            if here {
                assert(atom_then_looser(t, p, level + 1));
            }
        }
        let mut left = if level < LEVEL_MULTIPLICATIVE {
            self.parse_binary(level + 1)?
        } else {
            self.parse_exponentiation()?
        };
        let ghost mut k: int = 0;
        proof {
            if is_mc {
                assert(method_call_shape(t, p, nm));
            }
        }
        loop
            invariant
                self.wf(),
                consumed(start, *self),
                start.wf(),
                start == *old(self),
                level <= LEVEL_MULTIPLICATIVE,
                atom_then_looser(start.tokens@, start.pos as int, level as int) ==> self.pos == start.pos
                    + 1 && left == spec_atom_expr(start.tokens@[start.pos as int])->0,
                has_chain == exists|lv: int| level <= lv <= LEVEL_MULTIPLICATIVE && #[trigger] chain_shape(t, p, lv),
                has_chain ==> level <= clv <= LEVEL_MULTIPLICATIVE && chain_shape(t, p, clv),
                here == (has_chain && clv == level),
                has_chain && !here ==> self.pos == p + 5 && left == chain_form(t, p),
                here ==> 0 <= k <= 2,
                here && k == 0 ==> self.pos == p + 1 && left == spec_atom_expr(t[p])->0,
                here && k == 1 ==> self.pos == p + 3 && left == Expr::Binary(
                    Box::new(spec_atom_expr(t[p])->0),
                    spec_token_binop(t[p + 1])->0,
                    Box::new(spec_atom_expr(t[p + 2])->0),
                ),
                here && k == 2 ==> self.pos == p + 5 && left == chain_form(t, p),
                t == start.tokens@,
                p == start.pos,
                is_m == member_shape(t, p),
                is_mc == exists|n: int| method_call_shape(t, p, n),
                is_m ==> self.pos == p + 3 && member_form(left, t, p),
                is_mc ==> method_call_shape(t, p, nm) && self.pos == p + 2 * nm + 4 && method_call_form(
                    left,
                    t,
                    p,
                    nm,
                ),
            ensures
                here ==> k == 2,
            decreases self.remaining(),
        {
            proof {
                assert(self.tokens@[self.pos as int] == t[self.pos as int]);
            }
            let op = match binop_at_level(self.peek(), level) {
                Some(op) => op,
                None => {
                    break;
                },
            };
            let ghost before = *self;
            self.advance();
            proof {
                lemma_remaining_mono(start, *self);
                if here {
                    assert(k < 2);
                    assert(self.tokens@[self.pos as int] == t[self.pos as int]);
                    assert(self.tokens@[self.pos + 1] == t[self.pos + 1]);
                    assert(atom_then_looser(self.tokens@, self.pos as int, level + 1));
                    assert(op == spec_token_binop(t[p + 1 + 2 * k])->0);
                }
            }
            let right = if level < LEVEL_MULTIPLICATIVE {
                self.parse_binary(level + 1)?
            } else {
                self.parse_exponentiation()?
            };
            proof {
                lemma_remaining_mono(before, *self);
            }
            left = Expr::Binary(Box::new(left), op, Box::new(right));
            proof {
                if here {
                    k = k + 1;
                }
            }
        }
        proof {
            assert forall|n2: int| #[trigger] method_call_shape(t, p, n2) implies n2 == nm by {
                lemma_atom_args_unique(t, p + 3, nm, n2);
            }
        }
        Ok(left)
    }

    fn parse_exponentiation(&mut self) -> (r: Result<Expr, Vec<char>>)
        requires
            old(self).wf(),
        ensures
            final(self).wf(),
            advanced(*old(self), *final(self)),
            r is Ok ==> final(self).pos > old(self).pos,
            atom_then_end(old(self).tokens@, old(self).pos as int) ==> r == Ok::<Expr, Vec<char>>(
                spec_atom_expr(old(self).tokens@[old(self).pos as int])->0,
            ) && final(self).pos == old(self).pos + 1,
            member_shape(old(self).tokens@, old(self).pos as int) ==> (r matches Ok(x) && member_form(
                x,
                old(self).tokens@,
                old(self).pos as int,
            ) && final(self).pos == old(self).pos + 3),
            forall|n: int|
                #[trigger] method_call_shape(old(self).tokens@, old(self).pos as int, n) ==> (r matches Ok(
                    x,
                ) && method_call_form(x, old(self).tokens@, old(self).pos as int, n) && final(self).pos
                    == old(self).pos + 2 * n + 4),
        decreases old(self).remaining(), R_BINARY - LEVEL_MULTIPLICATIVE - 1,
    {
        let ghost start = *self;
        let left = self.parse_unary()?;
        if self.eat(&Token::DoubleStar) {
            proof {
                lemma_remaining_mono(start, *self);
            }
            let right = self.parse_exponentiation()?;
            Ok(Expr::Binary(Box::new(left), BinOp::Pow, Box::new(right)))
        } else {
            Ok(left)
        }
    }

    fn parse_unary(&mut self) -> (r: Result<Expr, Vec<char>>)
        requires
            old(self).wf(),
        ensures
            final(self).wf(),
            advanced(*old(self), *final(self)),
            r is Ok ==> final(self).pos > old(self).pos,
            atom_then_end(old(self).tokens@, old(self).pos as int) ==> r == Ok::<Expr, Vec<char>>(
                spec_atom_expr(old(self).tokens@[old(self).pos as int])->0,
            ) && final(self).pos == old(self).pos + 1,
            member_shape(old(self).tokens@, old(self).pos as int) ==> (r matches Ok(x) && member_form(
                x,
                old(self).tokens@,
                old(self).pos as int,
            ) && final(self).pos == old(self).pos + 3),
            forall|n: int|
                #[trigger] method_call_shape(old(self).tokens@, old(self).pos as int, n) ==> (r matches Ok(
                    x,
                ) && method_call_form(x, old(self).tokens@, old(self).pos as int, n) && final(self).pos
                    == old(self).pos + 2 * n + 4),
        decreases old(self).remaining(), R_UNARY,
    {
        let ghost start = *self;
        let kind: u8 = match self.peek() {
            Token::Not => 1,
            Token::BitNot => 2,
            Token::Minus => 3,
            Token::Plus => 4,
            Token::Typeof => 5,
            Token::Void => 6,
            Token::Delete => 7,
            Token::PlusPlus => 8,
            Token::MinusMinus => 9,
            _ => 0,
        };
        if kind == 0 {
            return self.parse_postfix();
        }
        self.advance();
        proof {
            lemma_remaining_mono(start, *self);
        }
        let expr = self.parse_unary()?;
        let r = match kind {
            1 => Expr::Unary(UnaryOp::Not, Box::new(expr)),
            2 => Expr::Unary(UnaryOp::BitNot, Box::new(expr)),
            3 => Expr::Unary(UnaryOp::Neg, Box::new(expr)),
            4 => Expr::Unary(UnaryOp::Pos, Box::new(expr)),
            5 => Expr::Typeof(Box::new(expr)),
            6 => Expr::Void(Box::new(expr)),
            7 => Expr::Delete(Box::new(expr)),
            8 => {
                // pre-increment: x = x + 1
                let target = clone_expr(&expr);
                Expr::Assign(
                    Box::new(target),
                    AssignOp::AddAssign,
                    Box::new(Expr::Number(Double::one())),
                )
            },
            _ => {
                let target = clone_expr(&expr);
                Expr::Assign(
                    Box::new(target),
                    AssignOp::SubAssign,
                    Box::new(Expr::Number(Double::one())),
                )
            },
        };
        Ok(r)
    }

    fn parse_postfix(&mut self) -> (r: Result<Expr, Vec<char>>)
        requires
            old(self).wf(),
        ensures
            final(self).wf(),
            advanced(*old(self), *final(self)),
            r is Ok ==> final(self).pos > old(self).pos,
            atom_then_end(old(self).tokens@, old(self).pos as int) ==> r == Ok::<Expr, Vec<char>>(
                spec_atom_expr(old(self).tokens@[old(self).pos as int])->0,
            ) && final(self).pos == old(self).pos + 1,
            member_shape(old(self).tokens@, old(self).pos as int) ==> (r matches Ok(x) && member_form(
                x,
                old(self).tokens@,
                old(self).pos as int,
            ) && final(self).pos == old(self).pos + 3),
            forall|n: int|
                #[trigger] method_call_shape(old(self).tokens@, old(self).pos as int, n) ==> (r matches Ok(
                    x,
                ) && method_call_form(x, old(self).tokens@, old(self).pos as int, n) && final(self).pos
                    == old(self).pos + 2 * n + 4),
        decreases old(self).remaining(), R_POSTFIX,
    {
        let ghost start = *self;
        let ghost t = self.tokens@;
        let ghost p = self.pos as int;
        let ghost is_m = member_shape(t, p);
        let ghost is_mc = exists|n: int| method_call_shape(t, p, n);
        let ghost nm = choose|n: int| method_call_shape(t, p, n);
        let mut expr = self.parse_call_or_member()?;
        proof {
            if is_mc {
                assert(method_call_shape(t, p, nm));
            }
        }
        loop
            invariant
                self.wf(),
                consumed(start, *self),
                start == *old(self),
                atom_then_end(start.tokens@, start.pos as int) ==> self.pos == start.pos + 1 && expr
                    == spec_atom_expr(start.tokens@[start.pos as int])->0,
                t == start.tokens@,
                p == start.pos,
                is_m == member_shape(t, p),
                is_mc == exists|n: int| method_call_shape(t, p, n),
                is_m ==> self.pos == p + 3 && member_form(expr, t, p),
                is_mc ==> method_call_shape(t, p, nm) && self.pos == p + 2 * nm + 4 && method_call_form(
                    expr,
                    t,
                    p,
                    nm,
                ),
            decreases self.remaining(),
        {
            proof {
                assert(self.tokens@[self.pos as int] == t[self.pos as int]);
            }
            let ghost before = *self;
            if matches!(self.peek(), Token::PlusPlus) {
                self.advance();
                expr = Expr::Postfix(Box::new(expr), PostfixOp::Inc);
            } else if matches!(self.peek(), Token::MinusMinus) {
                self.advance();
                expr = Expr::Postfix(Box::new(expr), PostfixOp::Dec);
            } else {
                break;
            }
            proof {
                lemma_remaining_mono(before, *self);
            }
        }
        proof {
            assert forall|n2: int| #[trigger] method_call_shape(t, p, n2) implies n2 == nm by {
                lemma_atom_args_unique(t, p + 3, nm, n2);
            }
        }
        Ok(expr)
    }

    fn parse_call_or_member(&mut self) -> (r: Result<Expr, Vec<char>>)
        requires
            old(self).wf(),
        ensures
            final(self).wf(),
            advanced(*old(self), *final(self)),
            r is Ok ==> final(self).pos > old(self).pos,
            atom_then_end(old(self).tokens@, old(self).pos as int) ==> r == Ok::<Expr, Vec<char>>(
                spec_atom_expr(old(self).tokens@[old(self).pos as int])->0,
            ) && final(self).pos == old(self).pos + 1,
            member_shape(old(self).tokens@, old(self).pos as int) ==> (r matches Ok(Expr::Member(o, m))
                && *o == spec_atom_expr(old(self).tokens@[old(self).pos as int])->0 && m@ == old(
                self,
            ).tokens@[old(self).pos + 2]->Ident_0@ && final(self).pos == old(self).pos + 3),
            forall|n: int|
                #[trigger] call_shape(old(self).tokens@, old(self).pos as int, n) ==> (r matches Ok(
                    Expr::Call(c, a),
                ) && *c == spec_atom_expr(old(self).tokens@[old(self).pos as int])->0 && a@
                    == atom_args(old(self).tokens@, old(self).pos + 1, n) && final(self).pos == old(
                    self,
                ).pos + 2 * n + 2),
            forall|n: int|
                #[trigger] method_call_shape(old(self).tokens@, old(self).pos as int, n) ==> (r matches Ok(
                    Expr::Call(c, a),
                ) && (*c matches Expr::Member(o, m) && *o == spec_atom_expr(
                    old(self).tokens@[old(self).pos as int],
                )->0 && m@ == old(self).tokens@[old(self).pos + 2]->Ident_0@) && a@ == atom_args(
                    old(self).tokens@,
                    old(self).pos + 3,
                    n,
                ) && final(self).pos == old(self).pos + 2 * n + 4),
        decreases old(self).remaining(), R_CALL,
    {
        let ghost start = *self;
        let ghost t = self.tokens@;
        let ghost p = self.pos as int;
        let ghost atom = spec_atom_expr(t[p])->0;
        let ghost is_call = exists|n: int| call_shape(t, p, n);
        let ghost nc = choose|n: int| call_shape(t, p, n);
        let ghost is_mcall = exists|n: int| method_call_shape(t, p, n);
        let ghost nm = choose|n: int| method_call_shape(t, p, n);
        let ghost is_member = member_shape(t, p);
        let ghost mname = t[p + 2]->Ident_0;
        let mut expr = if self.eat(&Token::New) {
            proof {
                lemma_remaining_mono(start, *self);
            }
            let callee = self.parse_primary()?;
            proof {
                lemma_remaining_mono(start, *self);
            }
            let args = if matches!(self.peek(), Token::LParen) {
                self.parse_arg_list()?
            } else {
                Vec::new()
            };
            Expr::New(Box::new(callee), args)
        } else {
            self.parse_primary()?
        };
        loop
            invariant
                self.wf(),
                consumed(start, *self),
                start.wf(),
                start == *old(self),
                atom_then_end(start.tokens@, start.pos as int) ==> self.pos == start.pos + 1 && expr
                    == spec_atom_expr(start.tokens@[start.pos as int])->0,
                t == start.tokens@,
                p == start.pos,
                atom == spec_atom_expr(t[p])->0,
                is_call == exists|n: int| call_shape(t, p, n),
                is_call ==> call_shape(t, p, nc) && ((self.pos == p + 1 && expr == atom) || (self.pos
                    == p + 2 * nc + 2 && (expr matches Expr::Call(c, a) && *c == atom && a@ == atom_args(
                    t,
                    p + 1,
                    nc,
                )))),
                is_member == member_shape(t, p),
                mname == t[p + 2]->Ident_0,
                is_member ==> (self.pos == p + 1 && expr == atom) || (self.pos == p + 3 && (expr
                    matches Expr::Member(o, m) && *o == atom && m@ == mname@)),
                is_mcall == exists|n: int| method_call_shape(t, p, n),
                is_mcall ==> method_call_shape(t, p, nm) && ((self.pos == p + 1 && expr == atom) || (
                self.pos == p + 3 && (expr matches Expr::Member(o, m) && *o == atom && m@ == mname@))
                    || (self.pos == p + 2 * nm + 4 && (expr matches Expr::Call(c, a) && (*c matches Expr::Member(
                    o,
                    m,
                ) && *o == atom && m@ == mname@) && a@ == atom_args(t, p + 3, nm)))),
            ensures
                is_call ==> self.pos == p + 2 * nc + 2 && (expr matches Expr::Call(c, a) && *c == atom
                    && a@ == atom_args(t, p + 1, nc)),
                is_member ==> self.pos == p + 3 && (expr matches Expr::Member(o, m) && *o == atom && m@
                    == mname@),
                is_mcall ==> self.pos == p + 2 * nm + 4 && (expr matches Expr::Call(c, a) && (*c matches Expr::Member(
                    o,
                    m,
                ) && *o == atom && m@ == mname@) && a@ == atom_args(t, p + 3, nm)),
            decreases self.remaining(),
        {
            proof {
                let q = self.pos as int;
                assert(self.tokens@[q] == t[q]);
                if q + 1 < t.len() {
                    assert(self.tokens@[q + 1] == t[q + 1]);
                }
            }
            let ghost before = *self;
            proof {
                lemma_remaining_mono(start, *self);
            }
            if matches!(self.peek(), Token::LParen) {
                proof {
                    if is_call && self.pos == p + 1 {
                        lemma_atom_args_transfer(t, self.tokens@, p + 1, nc);
                    }
                    if is_mcall && self.pos == p + 3 {
                        lemma_atom_args_transfer(t, self.tokens@, p + 3, nm);
                    }
                }
                let args = self.parse_arg_list()?;
                expr = Expr::Call(Box::new(expr), args);
            } else if matches!(self.peek(), Token::Dot) {
                proof {
                    if (is_member || is_mcall) && self.pos == p + 1 {
                        assert(self.tokens@[p + 2] == t[p + 2]);
                    }
                }
                self.advance();
                let tok = self.advance();
                let name = match tok {
                    Token::Ident(n) => n,
                    other => match member_keyword_name(&other) {
                        Some(n) => n,
                        None => {
                            return Err(
                                error_with_token("expected property name after '.', got ", &other),
                            );
                        },
                    },
                };
                expr = Expr::Member(Box::new(expr), name);
            } else if matches!(self.peek(), Token::OptionalChain) {
                self.advance();
                let name = match self.advance() {
                    Token::Ident(n) => n,
                    other => {
                        return Err(
                            error_with_token("expected property name after '?.', got ", &other),
                        );
                    },
                };
                expr = Expr::OptionalMember(Box::new(expr), name);
            } else if matches!(self.peek(), Token::LBracket) {
                self.advance();
                proof {
                    lemma_remaining_mono(start, *self);
                }
                let index = self.parse_expression()?;
                self.expect(&Token::RBracket)?;
                expr = Expr::Index(Box::new(expr), Box::new(index));
            } else {
                break;
            }
            proof {
                lemma_remaining_mono(before, *self);
            }
        }
        proof {
            assert forall|n2: int| #[trigger] call_shape(t, p, n2) implies n2 == nc by {
                lemma_atom_args_unique(t, p + 1, nc, n2);
            }
            assert forall|n2: int| #[trigger] method_call_shape(t, p, n2) implies n2 == nm by {
                lemma_atom_args_unique(t, p + 3, nm, n2);
            }
        }
        Ok(expr)
    }

    fn parse_arg_list(&mut self) -> (r: Result<Vec<Expr>, Vec<char>>)
        requires
            old(self).wf(),
        ensures
            final(self).wf(),
            advanced(*old(self), *final(self)),
            r is Ok ==> final(self).pos > old(self).pos,
            old(self).pos + 1 < old(self).tokens@.len() && old(self).tokens@[old(self).pos as int] == Token::LParen && old(self).tokens@[old(self).pos + 1] == Token::RParen ==> (r matches Ok(
                v,
            ) && v@.len() == 0 && final(self).pos == old(self).pos + 2),
            forall|n: int|
                #[trigger] atom_args_at(old(self).tokens@, old(self).pos as int, n) ==> (r matches Ok(v)
                    && v@ == atom_args(old(self).tokens@, old(self).pos as int, n) && final(self).pos
                    == old(self).pos + 2 * n + 1),
        decreases old(self).remaining(), R_ARGS,
    {
        let ghost start = *self;
        let ghost t = self.tokens@;
        let ghost p = self.pos as int;
        let ghost has = exists|n: int| atom_args_at(t, p, n);
        let ghost n = choose|n: int| atom_args_at(t, p, n);
        self.expect(&Token::LParen)?;
        let mut args: Vec<Expr> = Vec::new();
        proof {
            if has {
                assert(atom_args_at(t, p, n));
                assert(args@ =~= atom_args(t, p, n).take(0));
                assert(spec_atom_expr(t[p + 1 + 2 * 0]) is Some);
            }
        }
        while !matches!(self.peek(), Token::RParen | Token::Eof)
            invariant
                self.wf(),
                consumed(start, *self),
                start.wf(),
                start == *old(self),
                start.pos + 1 < start.tokens@.len() && start.tokens@[start.pos as int] == Token::LParen
                    && start.tokens@[start.pos + 1] == Token::RParen ==> self.pos == start.pos + 1
                    && args@.len() == 0,
                t == start.tokens@,
                p == start.pos,
                has == exists|n: int| atom_args_at(t, p, n),
                has ==> atom_args_at(t, p, n),
                has ==> args@.len() <= n && (args@.len() < n ==> self.pos == p + 1 + 2 * args@.len())
                    && (args@.len() == n ==> self.pos == p + 2 * n) && args@ == atom_args(t, p, n).take(
                    args@.len() as int,
                ),
                has && args@.len() < n ==> spec_atom_expr(t[self.pos as int]) is Some,
            ensures
                has ==> args@.len() == n && self.pos == p + 2 * n && args@ == atom_args(t, p, n).take(
                    n,
                ),
            decreases self.remaining(),
        {
            proof {
                if has {
                    let k = args@.len() as int;
                    if k == n {
                        assert(t[p + 2 * n] is RParen);
                    }
                    assert(k < n);
                    assert(spec_atom_expr(t[p + 1 + 2 * k]) is Some);
                    if k < n - 1 {
                        assert(t[p + 2 + 2 * k] is Comma);
                    }
                    assert(atom_then_stop(t, p + 1 + 2 * k));
                    assert(self.tokens@[self.pos as int] == t[self.pos as int]);
                    assert(self.tokens@[self.pos + 1] == t[self.pos + 1]);
                    assert(atom_then_stop(self.tokens@, self.pos as int));
                }
            }
            let ghost before = *self;
            proof {
                lemma_remaining_mono(start, *self);
            }
            if self.eat(&Token::Spread) {
                proof {
                    lemma_remaining_mono(start, *self);
                }
                let expr = self.parse_assignment_expr()?;
                args.push(Expr::Spread(Box::new(expr)));
            } else {
                args.push(self.parse_assignment_expr()?);
            }
            proof {
                lemma_remaining_mono(before, *self);
            }
            proof {
                if has {
                    let k = args@.len() - 1;
                    assert(args@ =~= atom_args(t, p, n).take(args@.len() as int));
                    if k + 1 < n {
                        assert(t[p + 2 + 2 * k] is Comma);
                        assert(spec_atom_expr(t[p + 1 + 2 * (k + 1)]) is Some);
                    }
                    assert(self.tokens@[self.pos as int] == t[self.pos as int]);
                }
            }
            if !self.eat(&Token::Comma) {
                break;
            }
            proof {
                lemma_remaining_mono(before, *self);
            }
        }
        proof {
            if has {
                assert(args@ =~= atom_args(t, p, n));
            }
        }
        self.expect(&Token::RParen)?;
        proof {
            assert forall|n2: int| #[trigger] atom_args_at(t, p, n2) implies n2 == n by {
                lemma_atom_args_unique(t, p, n, n2);
            }
        }
        Ok(args)
    }

    fn parse_primary(&mut self) -> (r: Result<Expr, Vec<char>>)
        requires
            old(self).wf(),
        ensures
            final(self).wf(),
            advanced(*old(self), *final(self)),
            r is Ok ==> final(self).pos > old(self).pos,
            spec_atom_expr(old(self).tokens@[old(self).pos as int]) matches Some(e) ==> r == Ok::<
                Expr,
                Vec<char>,
            >(e) && final(self).pos == old(self).pos + 1,
        decreases old(self).remaining(), R_PRIMARY,
    {
        let ghost start = *self;
        match self.peek() {
            Token::Number(_) | Token::Str(_) | Token::True | Token::False | Token::Null
            | Token::Undefined | Token::This | Token::Ident(_) | Token::Regex(..) => {
                let tok = self.advance();
                let e = match tok {
                    Token::Number(n) => Expr::Number(n),
                    Token::Str(s) => Expr::Str(s),
                    Token::True => Expr::Bool(true),
                    Token::False => Expr::Bool(false),
                    Token::Null => Expr::Null,
                    Token::Undefined => Expr::Undefined,
                    Token::This => Expr::This,
                    Token::Ident(name) => Expr::Ident(name),
                    Token::Regex(p, f) => Expr::Regex(p, f),
                    _ => Expr::Undefined,
                };
                Ok(e)
            },
            Token::TemplateLiteral(_) => {
                proof {
                    lemma_toks_size_skip(self.tokens@, self.pos as int);
                }
                let tok = self.advance();
                match tok {
                    Token::TemplateLiteral(parts) => Parser::convert_template_parts(parts),
                    _ => Ok(Expr::Undefined),
                }
            },
            Token::LParen => {
                self.advance();
                proof {
                    lemma_remaining_mono(start, *self);
                }
                let expr = self.parse_expression()?;
                self.expect(&Token::RParen)?;
                Ok(expr)
            },
            Token::LBracket => self.parse_array_literal(),
            Token::LBrace => self.parse_object_literal(),
            Token::Function => self.parse_function_expr(),
            _ => Err(error_with_token("unexpected token in expression: ", self.peek())),
        }
    }

    /// Parses the expression parts of a template literal with sub-parsers.
    fn convert_template_parts(parts: Vec<TemplatePart>) -> (r: Result<Expr, Vec<char>>)
        ensures
            r matches Ok(e) ==> (e matches Expr::TemplateLiteral(v) && v@.len() == parts@.len()
                && forall|j: int| 0 <= j < parts@.len() ==> converted_part(#[trigger] parts@[j], v@[j])),
            all_text_parts(parts@) ==> r is Ok,
        decreases parts_size(parts@) + 1, 0nat,
    {
        let ghost all = parts@;
        let mut rest = parts;
        let mut out: Vec<TemplateExprPart> = Vec::new();
        let ghost mut k: int = 0;
        while rest.len() > 0
            invariant
                0 <= k <= all.len(),
                rest@ == all.skip(k),
                all == parts@,
                out@.len() == k,
                forall|j: int| 0 <= j < k ==> converted_part(#[trigger] all[j], out@[j]),
            decreases rest@.len(),
        {
            proof {
                lemma_parts_size_elem(all, k);
                lemma_parts_size_skip_le(all, k);
            }
            let part = rest.remove(0);
            proof {
                assert(part == all[k]);
                k = k + 1;
                assert(rest@ =~= all.skip(k));
            }
            let ghost gp = part;
            proof {
                assert(part_size(gp) <= parts_size(all));
            }
            match part {
                TemplatePart::Str(s) => {
                    out.push(TemplateExprPart::Str(s));
                },
                TemplatePart::Expr(tokens) => {
                    let ghost inner = tokens@;
                    let mut sub_parser = Parser::new(tokens);
                    proof {
                        lemma_toks_size_push_eof(inner);
                        assert(sub_parser.tokens@.skip(0) =~= sub_parser.tokens@);
                        assert(part_size(gp) == 1 + toks_size(inner));
                        assert(sub_parser.remaining() <= toks_size(inner) + 1);
                    }
                    let expr = sub_parser.parse_expression()?;
                    out.push(TemplateExprPart::Expr(expr));
                },
            }
        }
        assert(k == all.len());
        Ok(Expr::TemplateLiteral(out))
    }

    fn parse_array_literal(&mut self) -> (r: Result<Expr, Vec<char>>)
        requires
            old(self).wf(),
        ensures
            r matches Ok(e) ==> e is Array,
            final(self).wf(),
            advanced(*old(self), *final(self)),
            r is Ok ==> final(self).pos > old(self).pos,
            old(self).pos + 1 < old(self).tokens@.len() && old(self).tokens@[old(self).pos as int] == Token::LBracket && old(self).tokens@[old(self).pos + 1] == Token::RBracket ==> (r matches Ok(
                v,
            ) && (v matches Expr::Array(els) && els@.len() == 0) && final(self).pos == old(self).pos + 2),
        decreases old(self).remaining(), R_LITERAL,
    {
        let ghost start = *self;
        self.expect(&Token::LBracket)?;
        let mut elements: Vec<Expr> = Vec::new();
        while !matches!(self.peek(), Token::RBracket | Token::Eof)
            invariant
                self.wf(),
                consumed(start, *self),
                start.wf(),
                start == *old(self),
                start.pos + 1 < start.tokens@.len() && start.tokens@[start.pos as int] == Token::LBracket
                    && start.tokens@[start.pos + 1] == Token::RBracket ==> self.pos == start.pos + 1
                    && elements@.len() == 0,
            decreases self.remaining(),
        {
            let ghost before = *self;
            proof {
                lemma_remaining_mono(start, *self);
            }
            if self.eat(&Token::Comma) {
                elements.push(Expr::Undefined);
                proof {
                    lemma_remaining_mono(before, *self);
                }
                continue;
            }
            if self.eat(&Token::Spread) {
                proof {
                    lemma_step(start, before, *self);
                }
                let expr = self.parse_assignment_expr()?;
                elements.push(Expr::Spread(Box::new(expr)));
            } else {
                elements.push(self.parse_assignment_expr()?);
            }
            proof {
                lemma_remaining_mono(before, *self);
            }
            if !self.eat(&Token::Comma) {
                break;
            }
            proof {
                lemma_remaining_mono(before, *self);
            }
        }
        self.expect(&Token::RBracket)?;
        Ok(Expr::Array(elements))
    }

    fn parse_object_literal(&mut self) -> (r: Result<Expr, Vec<char>>)
        requires
            old(self).wf(),
        ensures
            r matches Ok(e) ==> e is Object,
            final(self).wf(),
            advanced(*old(self), *final(self)),
            r is Ok ==> final(self).pos > old(self).pos,
            old(self).pos + 1 < old(self).tokens@.len() && old(self).tokens@[old(self).pos as int] == Token::LBrace && old(self).tokens@[old(self).pos + 1] == Token::RBrace ==> (r matches Ok(
                v,
            ) && (v matches Expr::Object(ps) && ps@.len() == 0) && final(self).pos == old(self).pos + 2),
        decreases old(self).remaining(), R_LITERAL,
    {
        let ghost start = *self;
        self.expect(&Token::LBrace)?;
        let mut props: Vec<(PropKey, Expr)> = Vec::new();
        while !matches!(self.peek(), Token::RBrace | Token::Eof)
            invariant
                self.wf(),
                consumed(start, *self),
                start.wf(),
                start == *old(self),
                start.pos + 1 < start.tokens@.len() && start.tokens@[start.pos as int] == Token::LBrace
                    && start.tokens@[start.pos + 1] == Token::RBrace ==> self.pos == start.pos + 1
                    && props@.len() == 0,
            decreases self.remaining(),
        {
            let ghost before = *self;
            proof {
                lemma_remaining_mono(start, *self);
            }
            let key = if matches!(self.peek(), Token::Ident(_)) {
                let name = match self.advance() {
                    Token::Ident(n) => n,
                    _ => Vec::new(),
                };
                if matches!(self.peek(), Token::Comma | Token::RBrace) {
                    // shorthand: { foo } means { foo: foo }
                    let value_name = crate::text::slice_range(name.as_slice(), 0, name.len());
                    props.push((PropKey::Ident(name), Expr::Ident(value_name)));
                    self.eat(&Token::Comma);
                    proof {
                        lemma_remaining_mono(before, *self);
                    }
                    continue;
                }
                PropKey::Ident(name)
            } else if matches!(self.peek(), Token::Str(_)) {
                match self.advance() {
                    Token::Str(s) => PropKey::Str(s),
                    _ => PropKey::Str(Vec::new()),
                }
            } else if matches!(self.peek(), Token::Number(_)) {
                match self.advance() {
                    Token::Number(n) => PropKey::Number(n),
                    _ => PropKey::Number(Double::zero(false)),
                }
            } else if matches!(self.peek(), Token::LBracket) {
                self.advance();
                proof {
                    lemma_step(start, before, *self);
                }
                let expr = self.parse_expression()?;
                self.expect(&Token::RBracket)?;
                PropKey::Computed(expr)
            } else {
                // keywords can be property names
                let tok = self.advance();
                PropKey::Ident(keyword_as_ident(&tok))
            };
            proof {
                lemma_remaining_mono(start, *self);
                lemma_remaining_mono(before, *self);
            }
            if matches!(self.peek(), Token::LParen) {
                // method shorthand: { foo(x) { ... } }
                let params = self.parse_param_list()?;
                proof {
                    lemma_remaining_mono(start, *self);
                }
                let body = self.parse_block_body()?;
                let key_name = match &key {
                    PropKey::Ident(n) => crate::text::slice_range(n.as_slice(), 0, n.len()),
                    _ => str_to_chars("anonymous"),
                };
                props.push((key, Expr::FunctionExpr(Some(key_name), params, body)));
                self.eat(&Token::Comma);
                proof {
                    lemma_remaining_mono(before, *self);
                }
                continue;
            }
            self.expect(&Token::Colon)?;
            proof {
                lemma_remaining_mono(start, *self);
            }
            let value = self.parse_assignment_expr()?;
            props.push((key, value));
            proof {
                lemma_remaining_mono(before, *self);
            }
            if !self.eat(&Token::Comma) {
                break;
            }
            proof {
                lemma_remaining_mono(before, *self);
            }
        }
        self.expect(&Token::RBrace)?;
        Ok(Expr::Object(props))
    }

    fn parse_function_expr(&mut self) -> (r: Result<Expr, Vec<char>>)
        requires
            old(self).wf(),
            !(old(self).tokens@[old(self).pos as int] is Eof),
        ensures
            r matches Ok(e) ==> e is FunctionExpr,
            final(self).wf(),
            advanced(*old(self), *final(self)),
            r is Ok ==> final(self).pos > old(self).pos,
            old(self).pos + 4 < old(self).tokens@.len() && old(self).tokens@[old(self).pos + 1] == Token::LParen && old(self).tokens@[old(self).pos + 2] == Token::RParen && old(self).tokens@[old(self).pos + 3] == Token::LBrace && old(self).tokens@[old(self).pos + 4] == Token::RBrace ==> (r matches Ok(
                Expr::FunctionExpr(n, ps, b),
            ) && n is None && ps@.len() == 0 && b@.len() == 0),
        decreases old(self).remaining(), R_LITERAL,
    {
        let ghost start = *self;
        self.advance();
        let name = if matches!(self.peek(), Token::Ident(_)) {
            match self.advance() {
                Token::Ident(n) => Some(n),
                _ => None,
            }
        } else {
            None
        };
        proof {
            lemma_remaining_mono(start, *self);
        }
        let params = self.parse_param_list()?;
        proof {
            lemma_remaining_mono(start, *self);
        }
        let body = self.parse_block_body()?;
        Ok(Expr::FunctionExpr(name, params, body))
    }
}

proof fn lemma_parts_size_skip_le(s: Seq<TemplatePart>, k: int)
    requires
        0 <= k <= s.len(),
    ensures
        parts_size(s.skip(k)) <= parts_size(s),
    decreases k,
{
    if k > 0 {
        lemma_parts_size_skip_le(s, k - 1);
        lemma_parts_size_elem(s, k - 1);
    } else {
        assert(s.skip(0) =~= s);
    }
}

} // verus!
