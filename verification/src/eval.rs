//! Tree-walking evaluator: statements, expressions, assignment, properties and
//! calls of JavaScript functions.
use vstd::prelude::*;
use crate::double::{Double, spec_order_key};
use crate::parser::{stmt_is_plain, lit_expr_form, VarKind, Expr, Stmt, BinOp, UnaryOp, PostfixOp, AssignOp, PropKey, TemplateExprPart, SwitchCase};
use crate::value::{Value, JsFunction, PropMap, clone_value, clone_values, clone_map, join_values, equiv, all_strings, string_views, spec_join};
use crate::text::{str_to_chars, chars_to_string, push_all, push_str, eq_str, slices_eq, slice_range};
use crate::astclone::{clone_chars, clone_names, clone_stmts, clone_stmt, clone_expr, clone_opt_chars};
use crate::numfmt::format_number;
use crate::numparse::u64_from_radix;
use crate::mathfn::pow;
use crate::value::{spec_truthy, opt_equiv, key_at, all_formed, string_forms, string_form, spec_strict_eq, lemma_equiv_same_reading};
use crate::methods::math_call_result;
use crate::builtins::{spec_btoa, spec_atob_bytes, spec_strip_b64_space, spec_percent_encode, spec_percent_decode, js_parse_int_result};
use crate::numparse::float_text_specials;
use crate::json::json_fits;
use crate::text::spec_trim;
use vstd::utf8::{encode_utf8, valid_utf8, decode_utf8};
use crate::methods::{string_method_result, spec_number_binop, object_static_call, object_static_result, array_method, array_method_result, seq_equiv, str_arg};
use crate::json::{json_parse_result, spec_json_quote};
use crate::double::{spec_is_int_value, spec_clamp, spec_trunc, spec_safe_int, safe_limit, safe_value, int_double, lemma_int_double_of, lemma_int_double, lemma_safe_value};

verus! {

pub const MAX_CALL_DEPTH: usize = 256;

pub const MAX_LOOP_ITERATIONS: usize = 1_000_000;

/// How a statement finished.
pub enum Signal {
    /// Completed normally.
    Normal,
    Return(Value),
    Break,
    Continue,
    Throw(Value),
}

/// One level of the scope chain.
pub struct Scope {
    pub vars: PropMap,
}

impl Scope {
    pub fn new() -> (r: Scope)
        ensures
            r.vars.seq().len() == 0,
    {
        Scope { vars: PropMap::new() }
    }
}

/// The interpreter state: the scope chain (global scope first), the text written by
/// `console.log`, the value of `document.cookie`, the depth of JavaScript calls and
/// the state of `Math.random`.
pub struct Interpreter {
    pub scopes: Vec<Scope>,
    pub output: Vec<char>,
    pub cookie: Vec<char>,
    pub call_depth: usize,
    pub rng_state: u64,
}

/// The array methods that call a JavaScript function for the items.
pub open spec fn array_callback_method(m: Seq<char>) -> bool {
    m == "map"@ || m == "filter"@ || m == "forEach"@ || m == "find"@ || m == "findIndex"@ || m
        == "some"@ || m == "every"@ || m == "reduce"@
}

/// `v` holds copies of the items of `arr` at the ascending positions `p`.
pub open spec fn is_picked(p: Seq<int>, n: int, arr: Seq<Value>, v: Seq<Value>) -> bool {
    &&& p.len() == v.len()
    &&& forall|k: int| 0 <= k < p.len() ==> 0 <= #[trigger] p[k] < n
    &&& forall|a: int, b: int| 0 <= a < b < p.len() ==> #[trigger] p[a] < #[trigger] p[b]
    &&& forall|k: int| 0 <= k < p.len() ==> equiv(arr[p[k]], #[trigger] v[k])
}

/// `v` is a number that, where `n` is below 2^53, stands for an index below `n` or -1.
pub open spec fn is_index_value(v: Value, n: int) -> bool {
    v matches Value::Number(x) && is_index_number(x, n)
}

/// `x`, where `n` is below 2^53, stands for an index below `n` or -1.
pub open spec fn is_index_number(x: Double, n: int) -> bool {
    n < 0x20_0000_0000_0000 ==> exists|i: int| -1 <= i < n && #[trigger] spec_is_int_value(x, i)
}

/// `v` is made of copies of some items of `arr`, in their order.
pub open spec fn picked_from(arr: Seq<Value>, v: Seq<Value>) -> bool {
    exists|p: Seq<int>| #[trigger] is_picked(p, arr.len() as int, arr, v)
}

/// The names of the callback methods are all different.
proof fn lemma_callback_names_distinct()
    ensures
        "map"@ != "filter"@,
        "map"@ != "forEach"@,
        "map"@ != "find"@,
        "map"@ != "findIndex"@,
        "map"@ != "some"@,
        "map"@ != "every"@,
        "map"@ != "reduce"@,
        "filter"@ != "forEach"@,
        "filter"@ != "find"@,
        "filter"@ != "findIndex"@,
        "filter"@ != "some"@,
        "filter"@ != "every"@,
        "filter"@ != "reduce"@,
        "forEach"@ != "find"@,
        "forEach"@ != "findIndex"@,
        "forEach"@ != "some"@,
        "forEach"@ != "every"@,
        "forEach"@ != "reduce"@,
        "find"@ != "findIndex"@,
        "find"@ != "some"@,
        "find"@ != "every"@,
        "find"@ != "reduce"@,
        "findIndex"@ != "some"@,
        "findIndex"@ != "every"@,
        "findIndex"@ != "reduce"@,
        "some"@ != "every"@,
        "some"@ != "reduce"@,
        "every"@ != "reduce"@,
{
    reveal_strlit("map");
    reveal_strlit("filter");
    reveal_strlit("forEach");
    reveal_strlit("find");
    reveal_strlit("findIndex");
    reveal_strlit("some");
    reveal_strlit("every");
    reveal_strlit("reduce");
    assert("map"@.len() == 3 && "filter"@.len() == 6 && "forEach"@.len() == 7 && "find"@.len()
        == 4 && "findIndex"@.len() == 9 && "some"@.len() == 4 && "every"@.len() == 5
        && "reduce"@.len() == 6);
    assert("find"@[0] != "some"@[0] && "filter"@[0] != "reduce"@[0]);
}

/// Every item is a number.
pub open spec fn all_numbers(args: Seq<Value>) -> bool {
    forall|i: int| 0 <= i < args.len() ==> #[trigger] args[i] is Number
}

/// The character codes that `String.fromCharCode` keeps from number arguments: each
/// read as `x as u32`, kept where it is the code of a character.
pub open spec fn spec_kept_char_codes(args: Seq<Value>) -> Seq<int>
    decreases args.len(),
{
    if args.len() == 0 {
        Seq::empty()
    } else {
        let code = spec_clamp(spec_trunc(args.last()->Number_0), 0, u32::MAX as int);
        spec_kept_char_codes(args.drop_last()) + (if code < 0xD800 || (0xE000 <= code
            <= 0x10FFFF) {
            seq![code]
        } else {
            Seq::empty()
        })
    }
}

/// The characters of `t` have the codes `codes`.
pub open spec fn has_char_codes(t: Seq<char>, codes: Seq<int>) -> bool {
    t.len() == codes.len() && forall|i: int| 0 <= i < t.len() ==> (#[trigger] t[i] as u32) as int
        == codes[i]
}

/// Lengths and telling characters of the names of the built-in objects and their
/// methods.
/// The global functions the interpreter answers itself.
pub open spec fn global_function_name(n: Seq<char>) -> bool {
    n == "btoa"@ || n == "atob"@ || n == "encodeURIComponent"@ || n == "escape"@ || n
        == "encodeURI"@ || n == "decodeURIComponent"@ || n == "decodeURI"@ || n == "unescape"@ || n
        == "String"@ || n == "Boolean"@ || n == "Number"@ || n == "isNaN"@ || n == "clearTimeout"@
        || n == "clearInterval"@ || n == "parseInt"@ || n == "parseFloat"@ || n == "isFinite"@ || n
        == "Array"@ || n == "Object"@ || n == "setTimeout"@ || n == "setInterval"@ || n == "eval"@
        || n == "Date"@ || n == "RegExp"@
}

/// Lengths and telling characters of the global function names.
proof fn lemma_global_function_names()
    ensures
        "parseInt"@.len() == 8 && "parseFloat"@.len() == 10 && "isFinite"@.len() == 8
            && "Array"@.len() == 5 && "Object"@.len() == 6 && "setTimeout"@.len() == 10
            && "setInterval"@.len() == 11 && "eval"@.len() == 4 && "Date"@.len() == 4
            && "RegExp"@.len() == 6,
        "parseInt"@[0] == 'p' && "parseFloat"@[0] == 'p' && "parseInt"@[5] != "parseFloat"@[5]
            && "isFinite"@[0] == 'i' && "isNaN"@[0] == 'i' && "setTimeout"@[3] != "setInterval"@[3]
            && "Date"@[0] != "eval"@[0] && "RegExp"@[0] != "String"@[0] && "setTimeout"@[0] == 's'
            && "setInterval"@[0] == 's' && "Object"@[0] == 'O' && "Number"@[0] == 'N'
            && "Boolean"@[0] == 'B' && "isNaN"@.len() == 5 && "RegExp"@[0] == 'R' && "escape"@[0]
            == 'e' && "String"@[0] == 'S',
{
    reveal_strlit("parseInt");
    reveal_strlit("parseFloat");
    reveal_strlit("isFinite");
    reveal_strlit("isNaN");
    reveal_strlit("Array");
    reveal_strlit("Object");
    reveal_strlit("setTimeout");
    reveal_strlit("setInterval");
    reveal_strlit("eval");
    reveal_strlit("Date");
    reveal_strlit("RegExp");
    reveal_strlit("String");
    reveal_strlit("Number");
    reveal_strlit("Boolean");
    reveal_strlit("escape");
}

/// The names of the built-in objects whose methods the interpreter answers itself.
pub open spec fn builtin_object_name(n: Seq<char>) -> bool {
    n == "console"@ || n == "Math"@ || n == "JSON"@ || n == "Object"@ || n == "Array"@ || n
        == "String"@ || n == "Number"@ || n == "Date"@ || n == "document"@
}

proof fn lemma_builtin_object_names()
    ensures
        "console"@.len() == 7 && "Math"@.len() == 4 && "JSON"@.len() == 4 && "Object"@.len() == 6
            && "Array"@.len() == 5 && "String"@.len() == 6 && "Number"@.len() == 6 && "Date"@.len()
            == 4 && "document"@.len() == 8,
        "Math"@[0] != "JSON"@[0] && "Math"@[0] != "Date"@[0] && "JSON"@[0] != "Date"@[0]
            && "Object"@[0] != "String"@[0] && "Object"@[0] != "Number"@[0] && "String"@[0]
            != "Number"@[0],
        "log"@.len() == 3 && "info"@.len() == 4 && "warn"@.len() == 4 && "error"@.len() == 5
            && "debug"@.len() == 5 && "info"@[0] != "warn"@[0] && "error"@[0] != "debug"@[0],
        "stringify"@.len() == 9 && "parse"@.len() == 5 && "isArray"@.len() == 7 && "from"@.len() == 4
            && "fromCharCode"@.len() == 12,
        "isInteger"@.len() == 9 && "isFinite"@.len() == 8 && "isNaN"@.len() == 5 && "parseInt"@.len()
            == 8 && "isFinite"@[0] != "parseInt"@[0] && "now"@.len() == 3,
        "createElement"@.len() == 13 && "getElementById"@.len() == 14 && "querySelector"@.len() == 13
            && "getElementsByTagName"@.len() == 20 && "getElementsByClassName"@.len() == 22
            && "querySelectorAll"@.len() == 16 && "write"@.len() == 5 && "writeln"@.len() == 7
            && "createElement"@[0] != "querySelector"@[0],
{
    reveal_strlit("console");
    reveal_strlit("Math");
    reveal_strlit("JSON");
    reveal_strlit("Object");
    reveal_strlit("Array");
    reveal_strlit("String");
    reveal_strlit("Number");
    reveal_strlit("Date");
    reveal_strlit("document");
    reveal_strlit("log");
    reveal_strlit("info");
    reveal_strlit("warn");
    reveal_strlit("error");
    reveal_strlit("debug");
    reveal_strlit("stringify");
    reveal_strlit("parse");
    reveal_strlit("isArray");
    reveal_strlit("from");
    reveal_strlit("fromCharCode");
    reveal_strlit("isInteger");
    reveal_strlit("isFinite");
    reveal_strlit("isNaN");
    reveal_strlit("parseInt");
    reveal_strlit("now");
    reveal_strlit("createElement");
    reveal_strlit("getElementById");
    reveal_strlit("querySelector");
    reveal_strlit("getElementsByTagName");
    reveal_strlit("getElementsByClassName");
    reveal_strlit("querySelectorAll");
    reveal_strlit("write");
    reveal_strlit("writeln");
}

/// A literal expression: a number, a boolean, `null`, `undefined` or a string.
pub open spec fn is_literal_expr(e: Expr) -> bool {
    e is Number || e is Bool || e is Null || e is Undefined || e is Str
}

/// `v` is the value of the literal expression `e`.
pub open spec fn literal_value(e: Expr, v: Value) -> bool {
    match e {
        Expr::Number(n) => v == Value::Number(n),
        Expr::Bool(b) => v == Value::Bool(b),
        Expr::Null => v is Null,
        Expr::Undefined => v is Undefined,
        Expr::Str(s) => v matches Value::Str(t) && t@ == s@,
        _ => false,
    }
}

/// Every expression is a literal.
pub open spec fn all_literal(es: Seq<Expr>) -> bool {
    forall|i: int| 0 <= i < es.len() ==> #[trigger] is_literal_expr(es[i])
}

/// `vs` are the values of the literal expressions `es`, one for one.
pub open spec fn literal_values(es: Seq<Expr>, vs: Seq<Value>) -> bool {
    es.len() == vs.len() && forall|i: int| 0 <= i < es.len() ==> #[trigger] literal_value(es[i], vs[i])
}

/// Every part of a template is text.
pub open spec fn all_text_template(parts: Seq<TemplateExprPart>) -> bool {
    forall|i: int| 0 <= i < parts.len() ==> #[trigger] parts[i] is Str
}

/// The text parts of a template, one after the other.
pub open spec fn template_text(parts: Seq<TemplateExprPart>) -> Seq<char>
    decreases parts.len(),
{
    if parts.len() == 0 {
        Seq::empty()
    } else {
        template_text(parts.drop_last()) + match parts.last() {
            TemplateExprPart::Str(t) => t@,
            TemplateExprPart::Expr(_) => Seq::empty(),
        }
    }
}

/// Every statement is the empty statement.
pub open spec fn all_empty_stmts(s: Seq<Stmt>) -> bool {
    forall|i: int| 0 <= i < s.len() ==> #[trigger] s[i] is Empty
}

/// One step of the xorshift64 generator.
pub open spec fn spec_xorshift(s: u64) -> u64 {
    let s1 = s ^ (s << 13u64);
    let s2 = s1 ^ (s1 >> 7u64);
    s2 ^ (s2 << 17u64)
}

/// `a` is a prefix of `b`.
pub open spec fn seq_prefix(a: Seq<char>, b: Seq<char>) -> bool {
    a.len() <= b.len() && forall|i: int| 0 <= i < a.len() ==> #[trigger] b[i] == a[i]
}

/// What every evaluation step keeps: the state stays well formed, the call depth is
/// restored, and the output and the cookie are only ever appended to, the cookie only
/// by parts separated by `"; "`.
pub open spec fn follows(old: Interpreter, new: Interpreter) -> bool {
    &&& new.wf()
    &&& new.call_depth == old.call_depth
    &&& seq_prefix(old.output@, new.output@)
    &&& seq_prefix(old.cookie@, new.cookie@)
    &&& cookie_separated(old.cookie@, new.cookie@)
}

/// In what was added to the cookie, every `;` is followed by a space: it only ever
/// stands in the separator `"; "`.
pub open spec fn cookie_separated(old_c: Seq<char>, new_c: Seq<char>) -> bool {
    forall|i: int|
        old_c.len() <= i < new_c.len() && #[trigger] new_c[i] == ';' ==> i + 1 < new_c.len()
            && new_c[i + 1] == ' '
}

/// The result of a binary operator that the pure fragment evaluates: strict
/// (in)equality of any values, the order comparisons of two numbers, and `+ - * /` on
/// two safe integers whose exact result is a nonzero safe integer (`/` only where the
/// divisor divides the dividend).
pub open spec fn pure_binop(op: BinOp, a: Value, b: Value) -> Option<Value> {
    match op {
        BinOp::StrictEq => Some(Value::Bool(spec_strict_eq(a, b))),
        BinOp::StrictNotEq => Some(Value::Bool(!spec_strict_eq(a, b))),
        BinOp::Lt | BinOp::Gt | BinOp::LtEq | BinOp::GtEq => match (a, b) {
            (Value::Number(x), Value::Number(y)) => {
                let ordered = !x.is_nan_spec() && !y.is_nan_spec();
                let (kx, ky) = (spec_order_key(x.bits), spec_order_key(y.bits));
                Some(
                    Value::Bool(
                        ordered && match op {
                            BinOp::Lt => kx < ky,
                            BinOp::Gt => kx > ky,
                            BinOp::LtEq => kx <= ky,
                            _ => kx >= ky,
                        },
                    ),
                )
            },
            _ => None,
        },
        BinOp::Add | BinOp::Sub | BinOp::Mul | BinOp::Div => match (a, b) {
            (Value::Number(x), Value::Number(y)) => match (safe_value(x), safe_value(y)) {
                (Some(i), Some(j)) => {
                    let v = int_arith(op, i, j);
                    if (op is Div ==> j != 0 && i % j == 0) && -safe_limit() < v < safe_limit() && v
                        != 0 {
                        Some(Value::Number(int_double(v)))
                    } else {
                        None
                    }
                },
                _ => None,
            },
            _ => None,
        },
        _ => None,
    }
}

/// The exact result of `+`, `-`, `*` or `/` on two integers.
pub open spec fn int_arith(op: BinOp, i: int, j: int) -> int {
    if op is Add {
        i + j
    } else if op is Sub {
        i - j
    } else if op is Mul {
        i * j
    } else {
        i / j
    }
}

/// `+`, `-`, `*` and `/` (where the divisor divides the dividend) on two safe integers
/// give exactly the integer result, where that is a nonzero safe integer too.
pub proof fn law_pure_int_arith(op: BinOp, i: int, j: int)
    requires
        op is Add || op is Sub || op is Mul || op is Div,
        op is Div ==> j != 0 && i % j == 0,
        -safe_limit() < i < safe_limit(),
        -safe_limit() < j < safe_limit(),
        -safe_limit() < int_arith(op, i, j) < safe_limit(),
        int_arith(op, i, j) != 0,
    ensures
        pure_binop(op, Value::Number(int_double(i)), Value::Number(int_double(j))) == Some(
            Value::Number(int_double(int_arith(op, i, j))),
        ),
{
    lemma_int_double(i);
    lemma_int_double(j);
    lemma_safe_value(int_double(i), i);
    lemma_safe_value(int_double(j), j);
}

/// The value of an expression that reads variables but changes nothing: literals,
/// names (an unbound name reads `undefined`), `!`, the conditional operator, the
/// short-circuit operators and the operators of `pure_binop`. `None` where the
/// expression is outside this fragment.
pub open spec fn pure_value(scopes: Seq<Scope>, e: Expr) -> Option<Value>
    decreases e,
{
    match e {
        Expr::Number(n) => Some(Value::Number(n)),
        Expr::Str(s) => Some(Value::Str(s)),
        Expr::Bool(b) => Some(Value::Bool(b)),
        Expr::Null => Some(Value::Null),
        Expr::Undefined => Some(Value::Undefined),
        Expr::This => Some(Value::Undefined),
        Expr::Ident(name) => if name@ == "document"@ {
            None
        } else {
            Some(
                match scope_lookup(scopes, name@) {
                    Some(w) => w,
                    None => Value::Undefined,
                },
            )
        },
        Expr::Ternary(c, a, b) => match pure_value(scopes, *c) {
            Some(v) => if spec_truthy(v) {
                pure_value(scopes, *a)
            } else {
                pure_value(scopes, *b)
            },
            None => None,
        },
        Expr::Binary(l, op, r) => match pure_value(scopes, *l) {
            Some(lv) => if op is And {
                if !spec_truthy(lv) {
                    Some(lv)
                } else {
                    pure_value(scopes, *r)
                }
            } else if op is Or {
                if spec_truthy(lv) {
                    Some(lv)
                } else {
                    pure_value(scopes, *r)
                }
            } else if op is NullishCoalesce {
                if !(lv is Null || lv is Undefined) {
                    Some(lv)
                } else {
                    pure_value(scopes, *r)
                }
            } else {
                match pure_value(scopes, *r) {
                    Some(rv) => pure_binop(op, lv, rv),
                    None => None,
                }
            },
            None => None,
        },
        Expr::Unary(op, inner) => if op is Not {
            match pure_value(scopes, *inner) {
                Some(v) => Some(Value::Bool(!spec_truthy(v))),
                None => None,
            }
        } else {
            None
        },
        _ => None,
    }
}

/// The value thrown by `throw e` where `e` is of the pure fragment; `None` for every other
/// statement.
pub open spec fn pure_throw(scopes: Seq<Scope>, st: Stmt) -> Option<Value> {
    match st {
        Stmt::Throw(e) => pure_value(scopes, e),
        _ => None,
    }
}

/// The value a declaration `name = e` (or a bare `name`, which reads `undefined`) gives
/// its name, where `e` is of the pure fragment.
pub open spec fn decl_value(scopes: Seq<Scope>, d: (Vec<char>, Option<Expr>)) -> Option<Value> {
    match d.1 {
        Some(e) => pure_value(scopes, e),
        None => Some(Value::Undefined),
    }
}

/// The scope a `var` declaration binds in: the function's own scope inside a call,
/// the global scope otherwise.
pub open spec fn spec_var_level(i: Interpreter) -> int {
    if i.call_depth > 0 && i.scopes@.len() >= 2 {
        1
    } else {
        0
    }
}

/// The value returned by `return e` where `e` is of the pure fragment; `None` for every
/// other statement.
pub open spec fn pure_return(scopes: Seq<Scope>, st: Stmt) -> Option<Value> {
    match st {
        Stmt::Return(Some(e)) => pure_value(scopes, e),
        _ => None,
    }
}

/// The value a body gives back when it starts with `return` of a literal.
pub open spec fn lit_return(ss: Seq<Stmt>) -> Option<Value> {
    if ss.len() > 0 && (ss[0] matches Stmt::Return(Some(e)) && is_literal_expr(e)) {
        pure_return(Seq::empty(), ss[0])
    } else {
        None
    }
}

/// The value of an expression of the pure fragment in which the name `p` reads `v` and
/// no other name is read; `None` outside that fragment.
pub open spec fn arg_value(e: Expr, p: Seq<char>, v: Value) -> Option<Value>
    decreases e,
{
    match e {
        Expr::Number(n) => Some(Value::Number(n)),
        Expr::Str(s) => Some(Value::Str(s)),
        Expr::Bool(b) => Some(Value::Bool(b)),
        Expr::Null => Some(Value::Null),
        Expr::Undefined => Some(Value::Undefined),
        Expr::This => Some(Value::Undefined),
        Expr::Ident(name) => if name@ == p && p != "document"@ {
            Some(v)
        } else {
            None
        },
        Expr::Ternary(c, a, b) => match arg_value(*c, p, v) {
            Some(cv) => if spec_truthy(cv) {
                arg_value(*a, p, v)
            } else {
                arg_value(*b, p, v)
            },
            None => None,
        },
        Expr::Binary(l, op, r) => match arg_value(*l, p, v) {
            Some(lv) => if op is And {
                if !spec_truthy(lv) {
                    Some(lv)
                } else {
                    arg_value(*r, p, v)
                }
            } else if op is Or {
                if spec_truthy(lv) {
                    Some(lv)
                } else {
                    arg_value(*r, p, v)
                }
            } else if op is NullishCoalesce {
                if !(lv is Null || lv is Undefined) {
                    Some(lv)
                } else {
                    arg_value(*r, p, v)
                }
            } else {
                match arg_value(*r, p, v) {
                    Some(rv) => pure_binop(op, lv, rv),
                    None => None,
                }
            },
            None => None,
        },
        Expr::Unary(op, inner) => if op is Not {
            match arg_value(*inner, p, v) {
                Some(w) => Some(Value::Bool(!spec_truthy(w))),
                None => None,
            }
        } else {
            None
        },
        _ => None,
    }
}

/// What a call of a function of one parameter gives for the argument `v`, where its
/// body starts by returning an expression of the pure fragment that reads no name but
/// that parameter; `None` for every other function.
pub open spec fn callback_value(f: JsFunction, v: Value) -> Option<Value> {
    if f.params@.len() == 1 && f.params@[0]@ != "arguments"@ && f.body@.len() > 0 {
        match f.body@[0] {
            Stmt::Return(Some(e)) => arg_value(e, f.params@[0]@, v),
            _ => None,
        }
    } else {
        None
    }
}

/// Every item of `arr` gives `f` a value of the pure fragment.
pub open spec fn callback_total(f: JsFunction, arr: Seq<Value>) -> bool {
    forall|k: int| 0 <= k < arr.len() ==> #[trigger] callback_value(f, arr[k]) is Some
}

/// `f` gives a truthy value for the item `k` of `arr`.
pub open spec fn callback_hit(f: JsFunction, arr: Seq<Value>, k: int) -> bool {
    spec_truthy(callback_value(f, arr[k])->0)
}

/// `j` is the first index of `arr` whose item `f` takes for truthy, or -1 where there is
/// none.
pub open spec fn first_hit(f: JsFunction, arr: Seq<Value>, j: int) -> bool {
    &&& -1 <= j < arr.len()
    &&& j >= 0 ==> callback_hit(f, arr, j)
    &&& forall|k: int| 0 <= k < arr.len() && (j == -1 || k < j) ==> !#[trigger] callback_hit(f, arr, k)
}

/// Where the scopes bind `p` to `v`, an expression that reads only `p` has there the
/// value `arg_value` gives it.
proof fn lemma_arg_value_scopes(scopes: Seq<Scope>, e: Expr, p: Seq<char>, v: Value)
    requires
        scope_lookup(scopes, p) == Some(v),
        arg_value(e, p, v) is Some,
    ensures
        pure_value(scopes, e) == arg_value(e, p, v),
    decreases e,
{
    match e {
        Expr::Ternary(c, a, b) => {
            lemma_arg_value_scopes(scopes, *c, p, v);
            if spec_truthy(arg_value(*c, p, v)->0) {
                lemma_arg_value_scopes(scopes, *a, p, v);
            } else {
                lemma_arg_value_scopes(scopes, *b, p, v);
            }
        },
        Expr::Binary(l, op, r) => {
            lemma_arg_value_scopes(scopes, *l, p, v);
            if arg_value(*r, p, v) is Some {
                lemma_arg_value_scopes(scopes, *r, p, v);
            }
        },
        Expr::Unary(op, inner) => {
            lemma_arg_value_scopes(scopes, *inner, p, v);
        },
        _ => {},
    }
}

/// The operators of the pure fragment give the same result on equivalent operands.
proof fn lemma_binop_equiv(op: BinOp, a: Value, b: Value, c: Value, d: Value)
    requires
        equiv(a, c),
        equiv(b, d),
        pure_binop(op, a, b) is Some,
    ensures
        pure_binop(op, c, d) == pure_binop(op, a, b),
{
    lemma_equiv_same_reading(a, c, b, d);
}

/// Equivalent arguments give equivalent values.
proof fn lemma_arg_value_equiv(e: Expr, p: Seq<char>, v1: Value, v2: Value)
    requires
        equiv(v1, v2),
        arg_value(e, p, v1) is Some,
    ensures
        arg_value(e, p, v2) matches Some(u) && equiv(arg_value(e, p, v1)->0, u),
    decreases e,
{
    match e {
        Expr::Ident(name) => {},
        Expr::Ternary(c, a, b) => {
            lemma_arg_value_equiv(*c, p, v1, v2);
            crate::value::lemma_equiv_truthy(arg_value(*c, p, v1)->0, arg_value(*c, p, v2)->0);
            if spec_truthy(arg_value(*c, p, v1)->0) {
                lemma_arg_value_equiv(*a, p, v1, v2);
            } else {
                lemma_arg_value_equiv(*b, p, v1, v2);
            }
        },
        Expr::Binary(l, op, r) => {
            lemma_arg_value_equiv(*l, p, v1, v2);
            let lv1 = arg_value(*l, p, v1)->0;
            let lv2 = arg_value(*l, p, v2)->0;
            crate::value::lemma_equiv_truthy(lv1, lv2);
            if arg_value(*r, p, v1) is Some {
                lemma_arg_value_equiv(*r, p, v1, v2);
            }
            if !(op is And || op is Or || op is NullishCoalesce) {
                let rv1 = arg_value(*r, p, v1)->0;
                let rv2 = arg_value(*r, p, v2)->0;
                lemma_binop_equiv(op, lv1, rv1, lv2, rv2);
                crate::value::lemma_equiv_refl(pure_binop(op, lv1, rv1)->0);
            }
        },
        Expr::Unary(op, inner) => {
            lemma_arg_value_equiv(*inner, p, v1, v2);
            crate::value::lemma_equiv_truthy(arg_value(*inner, p, v1)->0, arg_value(*inner, p, v2)->0);
        },
        _ => {
            crate::value::lemma_equiv_refl(arg_value(e, p, v1)->0);
        },
    }
}

/// Every expression is in the pure fragment.
pub open spec fn all_pure(scopes: Seq<Scope>, es: Seq<Expr>) -> bool {
    forall|i: int| 0 <= i < es.len() ==> #[trigger] pure_value(scopes, es[i]) is Some
}

/// The values of expressions of the pure fragment.
pub open spec fn pure_vals(scopes: Seq<Scope>, es: Seq<Expr>) -> Seq<Value> {
    es.map_values(|e: Expr| pure_value(scopes, e)->0)
}

/// `console.log` and its siblings, called by name.
pub open spec fn console_callee(c: Expr) -> bool {
    c matches Expr::Member(o, m) && (*o matches Expr::Ident(n) && n@ == "console"@) && (m@ == "log"@
        || m@ == "info"@ || m@ == "warn"@ || m@ == "error"@ || m@ == "debug"@)
}

/// The line `console.log` writes for these values: their string forms joined by single
/// spaces, then a newline.
pub open spec fn console_line(vals: Seq<Value>) -> Seq<char> {
    spec_join(string_forms(vals), " "@) + seq!['\n']
}

/// `console.log(args...)` with arguments of the pure fragment whose string forms are
/// fixed: the line it writes.
pub open spec fn console_effect(scopes: Seq<Scope>, e: Expr) -> Option<Seq<char>> {
    match e {
        Expr::Call(c, a) => if console_callee(*c) && all_pure(scopes, a@) && all_formed(
            pure_vals(scopes, a@),
        ) {
            Some(console_line(pure_vals(scopes, a@)))
        } else {
            None
        },
        _ => None,
    }
}

/// The state the simple fragment changes: the output, then the cookie.
pub type RunText = (Seq<char>, Seq<char>);

/// The output and cookie after a statement of the simple fragment, and whether it ended
/// with `break`. The fragment writes with `console.log` and `document.cookie` and changes
/// nothing else that it reads: the empty statement, `break`, expression statements of the
/// pure fragment, `console.log` calls on them and cookie assignments of them, `if` on a
/// pure condition, blocks, and `switch` on a pure value with pure case tests. `None`
/// outside the fragment.
pub open spec fn simple_effect(scopes: Seq<Scope>, st: RunText, s: Stmt) -> Option<(RunText, bool)>
    decreases s, 0nat,
{
    match s {
        Stmt::Empty => Some((st, false)),
        Stmt::Break => Some((st, true)),
        Stmt::Expr(e) => if pure_value(scopes, e) is Some {
            Some((st, false))
        } else if console_effect(scopes, e) is Some {
            Some(((st.0 + console_effect(scopes, e)->0, st.1), false))
        } else if cookie_effect(scopes, e) is Some {
            Some(((st.0, spec_cookie_append(st.1, cookie_effect(scopes, e)->0)), false))
        } else {
            None
        },
        Stmt::If(c, t, el) => match pure_value(scopes, c) {
            Some(v) => if spec_truthy(v) {
                simple_effect(scopes, st, *t)
            } else {
                match el {
                    Some(x) => simple_effect(scopes, st, *x),
                    None => Some((st, false)),
                }
            },
            None => None,
        },
        Stmt::Block(stmts) => simple_seq(scopes, st, stmts@),
        Stmt::Switch(d, cases) => match pure_value(scopes, d) {
            Some(v) => if tests_pure(scopes, cases@) {
                switch_effect(scopes, st, v, cases@)
            } else {
                None
            },
            None => None,
        },
        _ => None,
    }
}

/// Running the statements `ss` of the simple fragment in order; a `break` ends the run.
pub open spec fn simple_seq(scopes: Seq<Scope>, st: RunText, ss: Seq<Stmt>) -> Option<(RunText, bool)>
    decreases ss, 0nat,
{
    if ss.len() == 0 {
        Some((st, false))
    } else {
        match simple_seq(scopes, st, ss.drop_last()) {
            Some((o, true)) => Some((o, true)),
            Some((o, false)) => simple_effect(scopes, o, ss.last()),
            None => None,
        }
    }
}

/// Every case test of the switch is in the pure fragment.
pub open spec fn tests_pure(scopes: Seq<Scope>, cases: Seq<SwitchCase>) -> bool {
    forall|i: int|
        0 <= i < cases.len() ==> (#[trigger] cases[i].test matches Some(t) ==> pure_value(scopes, t) is Some)
}

/// The case has a test whose value is strictly equal to `v`.
pub open spec fn case_matches(scopes: Seq<Scope>, v: Value, c: SwitchCase) -> bool {
    c.test matches Some(t) && spec_strict_eq(v, pure_value(scopes, t)->0)
}

/// The first case at or after `k` whose test matches `v`.
pub open spec fn first_match(scopes: Seq<Scope>, v: Value, cases: Seq<SwitchCase>, k: int) -> Option<int>
    decreases cases.len() - k,
{
    if k < 0 || k >= cases.len() {
        None
    } else if case_matches(scopes, v, cases[k]) {
        Some(k)
    } else {
        first_match(scopes, v, cases, k + 1)
    }
}

/// The first `default` case at or after `k`.
pub open spec fn first_default(cases: Seq<SwitchCase>, k: int) -> Option<int>
    decreases cases.len() - k,
{
    if k < 0 || k >= cases.len() {
        None
    } else if cases[k].test is None {
        Some(k)
    } else {
        first_default(cases, k + 1)
    }
}

/// The bodies of the cases from `k` on, run one after the other until a `break`.
pub open spec fn run_bodies(scopes: Seq<Scope>, st: RunText, cases: Seq<SwitchCase>, k: int) -> Option<
    (RunText, bool),
>
    decreases cases, cases.len() - k,
{
    if k < 0 || k >= cases.len() {
        Some((st, false))
    } else {
        match simple_seq(scopes, st, cases[k].body@) {
            Some((o, true)) => Some((o, false)),
            Some((o, false)) => run_bodies(scopes, o, cases, k + 1),
            None => None,
        }
    }
}

/// A switch on `v`: from the first matching case on, every body runs until a `break`;
/// without a match, the body of the first `default` case alone.
pub open spec fn switch_effect(scopes: Seq<Scope>, st: RunText, v: Value, cases: Seq<SwitchCase>) -> Option<
    (RunText, bool),
>
    decreases cases, cases.len() + 1,
{
    match first_match(scopes, v, cases, 0) {
        Some(m) => if 0 <= m <= cases.len() {
            run_bodies(scopes, st, cases, m)
        } else {
            None
        },
        None => match first_default(cases, 0) {
            Some(j) => if 0 <= j < cases.len() {
                match simple_seq(scopes, st, cases[j].body@) {
                    Some((o, _)) => Some((o, false)),
                    None => None,
                }
            } else {
                None
            },
            None => Some((st, false)),
        },
    }
}

/// A `while` loop whose condition is pure and truthy and whose body is a simple
/// statement that changes neither output nor cookie and does not break: it never ends on
/// its own, so the iteration limit stops it.
pub open spec fn spins(scopes: Seq<Scope>, st: RunText, s: Stmt) -> bool {
    s matches Stmt::While(c, b) && ((pure_value(scopes, c) matches Some(v) && spec_truthy(v))
        && simple_effect(scopes, st, *b) == Some((st, false)))
}

/// `for (;;) {}` and its like: no initializer, no update, no condition or `true`, and a
/// body that does nothing.
pub open spec fn for_spins(s: Stmt) -> bool {
    s matches Stmt::For(i, c, u, b) && (i is None && u is None && (c is None || c == Some(
        Expr::Bool(true),
    )) && (*b is Empty || (*b matches Stmt::Block(ss) && all_empty_stmts(ss@))))
}

/// The output and cookie after a plain statement: a `console.log` line of the forms
/// joined by spaces, or the cookie with the string appended.
pub open spec fn apply_plain(eff: (int, Seq<Seq<char>>), st: RunText) -> RunText {
    if eff.0 == 1 {
        (st.0 + spec_join(eff.1, " "@) + seq!['\n'], st.1)
    } else {
        (st.0, spec_cookie_append(st.1, eff.1[0]))
    }
}

/// The output and cookie after the plain statements `effs`, in order.
pub open spec fn run_plain(effs: Seq<(int, Seq<Seq<char>>)>, st: RunText) -> RunText
    decreases effs.len(),
{
    if effs.len() == 0 {
        st
    } else {
        apply_plain(effs.last(), run_plain(effs.drop_last(), st))
    }
}

/// A plain statement has its effect whatever the scopes.
proof fn lemma_plain_effect(sc: Seq<Scope>, st: RunText, s: Stmt, eff: (int, Seq<Seq<char>>))
    requires
        stmt_is_plain(s, eff),
    ensures
        simple_effect(sc, st, s) == Some((apply_plain(eff, st), false)),
{
    if let Stmt::Expr(x) = s {
        if eff.0 == 1 {
            if let Expr::Call(c, a) = x {
                assert forall|j: int| 0 <= j < a@.len() implies #[trigger] pure_value(sc, a@[j])
                    is Some && string_form(pure_value(sc, a@[j])->0) == Some(eff.1[j]) by {
                    assert(lit_expr_form(a@[j]) == Some(eff.1[j]));
                }
                assert(all_pure(sc, a@));
                let vals = pure_vals(sc, a@);
                assert forall|j: int| 0 <= j < vals.len() implies #[trigger] string_form(vals[j]) is Some by {
                    assert(pure_value(sc, a@[j]) is Some);
                }
                assert(string_forms(vals) =~= eff.1) by {
                    assert forall|j: int| 0 <= j < vals.len() implies string_forms(vals)[j] == eff.1[j] by {
                        assert(string_form(pure_value(sc, a@[j])->0) == Some(eff.1[j]));
                    }
                }
                reveal_strlit("log");
                reveal_strlit("console");
                assert(console_callee(*c));
                assert(console_effect(sc, x) == Some(console_line(vals)));
            }
        } else {
            if let Expr::Assign(l, op, rv) = x {
                assert(is_cookie_assignment(x));
                assert(cookie_effect(sc, x) == Some(eff.1[0]));
            }
        }
    }
}

/// Plain statements run as `run_plain` says, whatever the scopes.
proof fn lemma_plain_seq(sc: Seq<Scope>, st: RunText, ss: Seq<Stmt>, effs: Seq<(int, Seq<Seq<char>>)>)
    requires
        ss.len() == effs.len(),
        forall|i: int| 0 <= i < ss.len() ==> stmt_is_plain(#[trigger] ss[i], effs[i]),
    ensures
        simple_seq(sc, st, ss) == Some((run_plain(effs, st), false)),
    decreases ss.len(),
{
    if ss.len() > 0 {
        assert forall|i: int| 0 <= i < ss.drop_last().len() implies stmt_is_plain(
            #[trigger] ss.drop_last()[i],
            effs.drop_last()[i],
        ) by {
            assert(stmt_is_plain(ss[i], effs[i]));
        }
        lemma_plain_seq(sc, st, ss.drop_last(), effs.drop_last());
        assert(stmt_is_plain(ss[ss.len() - 1], effs[effs.len() - 1]));
        lemma_plain_effect(sc, run_plain(effs.drop_last(), st), ss.last(), effs.last());
    }
}

/// Statements that are plain run as `run_plain` says, from any scopes.
pub proof fn lemma_plain_seq_pub(sc: Seq<Scope>, st: RunText, ss: Seq<Stmt>, effs: Seq<(int, Seq<Seq<char>>)>)
    requires
        ss.len() == effs.len(),
        forall|i: int| 0 <= i < ss.len() ==> stmt_is_plain(#[trigger] ss[i], effs[i]),
    ensures
        simple_seq(sc, st, ss) == Some((run_plain(effs, st), false)),
{
    lemma_plain_seq(sc, st, ss, effs);
}

/// The plain effect of a statement read from the statement itself: `console.log` of
/// string, boolean, `null` and `undefined` literals, or `document.cookie = '...'`.
pub open spec fn plain_effect_of(st: Stmt) -> Option<(int, Seq<Seq<char>>)> {
    match st {
        Stmt::Expr(x) => match x {
            Expr::Call(c, a) => if (*c matches Expr::Member(o, m) && (*o matches Expr::Ident(n) && n@
                == "console"@) && m@ == "log"@) && forall|j: int|
                0 <= j < a@.len() ==> #[trigger] lit_expr_form(a@[j]) is Some {
                Some((1, a@.map_values(|e: Expr| lit_expr_form(e)->0)))
            } else {
                None
            },
            Expr::Assign(l, op, rv) => if op is Assign && (*l matches Expr::Member(o, m) && (
            *o matches Expr::Ident(n) && n@ == "document"@) && m@ == "cookie"@) && *rv is Str {
                Some((2, seq![rv->Str_0@]))
            } else {
                None
            },
            _ => None,
        },
        _ => None,
    }
}

/// Every statement of `ss` has a plain effect.
pub open spec fn plain_body(ss: Seq<Stmt>) -> bool {
    forall|i: int| 0 <= i < ss.len() ==> #[trigger] plain_effect_of(ss[i]) is Some
}

/// The plain effects of the statements of a plain body, in order.
pub open spec fn plain_effects(ss: Seq<Stmt>) -> Seq<(int, Seq<Seq<char>>)> {
    ss.map_values(|s: Stmt| plain_effect_of(s)->0)
}

/// The output and cookie after running the plain effects `effs` `n` times over.
pub open spec fn run_plain_times(effs: Seq<(int, Seq<Seq<char>>)>, st: RunText, n: nat) -> RunText
    decreases n,
{
    if n == 0 {
        st
    } else {
        run_plain(effs, run_plain_times(effs, st, (n - 1) as nat))
    }
}

/// A `try` statement of plain bodies: the output and cookie after the `try` body (or,
/// where that starts by throwing a value of the pure fragment, after the `catch` body),
/// then after the `finally` body; `None` for every other statement.
pub open spec fn plain_try(scopes: Seq<Scope>, st: RunText, s: Stmt) -> Option<RunText> {
    match s {
        Stmt::TryCatch(t, c, f) => {
            let fin_ok = match f {
                Some(fb) => plain_body(fb@),
                None => true,
            };
            let fin = match f {
                Some(fb) => plain_effects(fb@),
                None => Seq::empty(),
            };
            if !fin_ok {
                None
            } else if plain_body(t@) {
                Some(run_plain(fin, run_plain(plain_effects(t@), st)))
            } else if t@.len() > 0 && pure_throw(scopes, t@[0]) is Some {
                match c {
                    Some(cc) => if plain_body(cc.1@) {
                        Some(run_plain(fin, run_plain(plain_effects(cc.1@), st)))
                    } else {
                        None
                    },
                    None => None,
                }
            } else {
                None
            }
        },
        _ => None,
    }
}

/// A plain body runs as its plain effects, on any scopes.
proof fn lemma_plain_body(sc: Seq<Scope>, st: RunText, ss: Seq<Stmt>)
    requires
        plain_body(ss),
    ensures
        simple_seq(sc, st, ss) == Some((run_plain(plain_effects(ss), st), false)),
{
    let effs = plain_effects(ss);
    assert forall|i: int| 0 <= i < ss.len() implies stmt_is_plain(#[trigger] ss[i], effs[i]) by {
        assert(plain_effect_of(ss[i]) is Some);
    }
    lemma_plain_seq(sc, st, ss, effs);
}

/// A switch absorbs the `break` that ends it.
proof fn lemma_bodies_no_break(scopes: Seq<Scope>, st: RunText, cases: Seq<SwitchCase>, k: int)
    ensures
        run_bodies(scopes, st, cases, k) matches Some((_, b)) ==> !b,
    decreases cases.len() - k,
{
    if 0 <= k < cases.len() {
        if let Some((o, false)) = simple_seq(scopes, st, cases[k].body@) {
            lemma_bodies_no_break(scopes, o, cases, k + 1);
        }
    }
}

proof fn lemma_switch_no_break(scopes: Seq<Scope>, st: RunText, v: Value, cases: Seq<SwitchCase>)
    ensures
        switch_effect(scopes, st, v, cases) matches Some((_, b)) ==> !b,
{
    if let Some(m) = first_match(scopes, v, cases, 0) {
        lemma_bodies_no_break(scopes, st, cases, m);
    }
}

/// Chains on which every expression has the same pure value.
pub open spec fn same_pure(a: Seq<Scope>, b: Seq<Scope>) -> bool {
    forall|e: Expr| #[trigger] pure_value(a, e) == pure_value(b, e)
}

proof fn lemma_console_same(a: Seq<Scope>, b: Seq<Scope>, e: Expr)
    requires
        same_pure(a, b),
    ensures
        console_effect(a, e) == console_effect(b, e),
        cookie_effect(a, e) == cookie_effect(b, e),
{
    if let Expr::Call(c, args) = e {
        assert forall|i: int| 0 <= i < args@.len() implies #[trigger] pure_value(a, args@[i])
            == pure_value(b, args@[i]) by {
            assert(pure_value(a, args@[i]) == pure_value(b, args@[i]));
        }
        assert(pure_vals(a, args@) =~= pure_vals(b, args@));
        if all_pure(a, args@) {
            assert forall|i: int| 0 <= i < args@.len() implies #[trigger] pure_value(b, args@[i])
                is Some by {
                assert(pure_value(a, args@[i]) is Some);
            }
        }
        if all_pure(b, args@) {
            assert forall|i: int| 0 <= i < args@.len() implies #[trigger] pure_value(a, args@[i])
                is Some by {
                assert(pure_value(b, args@[i]) is Some);
            }
        }
    }
    if let Expr::Assign(_, _, value) = e {
        assert(pure_value(a, *value) == pure_value(b, *value));
    }
}

/// Chains with the same pure values give every simple statement the same effect.
proof fn lemma_same_simple(a: Seq<Scope>, b: Seq<Scope>, st: RunText, s: Stmt)
    requires
        same_pure(a, b),
    ensures
        simple_effect(a, st, s) == simple_effect(b, st, s),
    decreases s, 0nat,
{
    match s {
        Stmt::Expr(e) => {
            assert(pure_value(a, e) == pure_value(b, e));
            lemma_console_same(a, b, e);
        },
        Stmt::If(c, t, el) => {
            assert(pure_value(a, c) == pure_value(b, c));
            lemma_same_simple(a, b, st, *t);
            if let Some(x) = el {
                lemma_same_simple(a, b, st, *x);
            }
        },
        Stmt::Block(stmts) => {
            lemma_same_seq(a, b, st, stmts@);
        },
        Stmt::Switch(d, cases) => {
            assert(pure_value(a, d) == pure_value(b, d));
            assert(tests_pure(a, cases@) == tests_pure(b, cases@)) by {
                if tests_pure(a, cases@) {
                    assert forall|i: int| 0 <= i < cases@.len() implies (#[trigger] cases@[i].test matches Some(
                        t,
                    ) ==> pure_value(b, t) is Some) by {
                        if let Some(t) = cases@[i].test {
                            assert(pure_value(a, t) == pure_value(b, t));
                        }
                    }
                }
                if tests_pure(b, cases@) {
                    assert forall|i: int| 0 <= i < cases@.len() implies (#[trigger] cases@[i].test matches Some(
                        t,
                    ) ==> pure_value(a, t) is Some) by {
                        if let Some(t) = cases@[i].test {
                            assert(pure_value(a, t) == pure_value(b, t));
                        }
                    }
                }
            }
            if let Some(v) = pure_value(a, d) {
                lemma_same_switch(a, b, st, v, cases@);
            }
        },
        _ => {},
    }
}

proof fn lemma_same_seq(a: Seq<Scope>, b: Seq<Scope>, st: RunText, ss: Seq<Stmt>)
    requires
        same_pure(a, b),
    ensures
        simple_seq(a, st, ss) == simple_seq(b, st, ss),
    decreases ss, 0nat,
{
    if ss.len() > 0 {
        lemma_same_seq(a, b, st, ss.drop_last());
        if let Some((o, false)) = simple_seq(a, st, ss.drop_last()) {
            lemma_same_simple(a, b, o, ss.last());
        }
    }
}

proof fn lemma_same_first_match(a: Seq<Scope>, b: Seq<Scope>, v: Value, cases: Seq<SwitchCase>, k: int)
    requires
        same_pure(a, b),
    ensures
        first_match(a, v, cases, k) == first_match(b, v, cases, k),
    decreases cases.len() - k,
{
    if 0 <= k < cases.len() {
        if let Some(t) = cases[k].test {
            assert(pure_value(a, t) == pure_value(b, t));
        }
        lemma_same_first_match(a, b, v, cases, k + 1);
    }
}

proof fn lemma_same_bodies(a: Seq<Scope>, b: Seq<Scope>, st: RunText, cases: Seq<SwitchCase>, k: int)
    requires
        same_pure(a, b),
    ensures
        run_bodies(a, st, cases, k) == run_bodies(b, st, cases, k),
    decreases cases, cases.len() - k,
{
    if 0 <= k < cases.len() {
        lemma_same_seq(a, b, st, cases[k].body@);
        if let Some((o, false)) = simple_seq(a, st, cases[k].body@) {
            lemma_same_bodies(a, b, o, cases, k + 1);
        }
    }
}

proof fn lemma_same_switch(a: Seq<Scope>, b: Seq<Scope>, st: RunText, v: Value, cases: Seq<SwitchCase>)
    requires
        same_pure(a, b),
    ensures
        switch_effect(a, st, v, cases) == switch_effect(b, st, v, cases),
    decreases cases, cases.len() + 1,
{
    lemma_same_first_match(a, b, v, cases, 0);
    if let Some(m) = first_match(a, v, cases, 0) {
        if 0 <= m <= cases.len() {
            lemma_same_bodies(a, b, st, cases, m);
        }
    } else if let Some(j) = first_default(cases, 0) {
        if 0 <= j < cases.len() {
            lemma_same_seq(a, b, st, cases[j].body@);
        }
    }
}

/// Agreeing chains have the same pure values.
proof fn lemma_agree_same_pure(a: Seq<Scope>, b: Seq<Scope>)
    requires
        agree_except_doc(a, b),
    ensures
        same_pure(a, b),
{
    assert forall|e: Expr| #[trigger] pure_value(a, e) == pure_value(b, e) by {
        lemma_agree_pure(a, b, e);
    }
}

/// An innermost scope without variables leaves the pure values as they were.
proof fn lemma_push_same_pure(scopes: Seq<Scope>, sc: Scope)
    requires
        sc.vars.seq().len() == 0,
    ensures
        same_pure(scopes.push(sc), scopes),
{
    assert forall|e: Expr| #[trigger] pure_value(scopes.push(sc), e) == pure_value(scopes, e) by {
        lemma_pure_push_empty(scopes, sc, e);
    }
}

/// A prefix of a simple statement list is simple.
proof fn lemma_simple_seq_prefix(scopes: Seq<Scope>, out: RunText, ss: Seq<Stmt>, i: int)
    requires
        0 <= i <= ss.len(),
        simple_seq(scopes, out, ss) is Some,
    ensures
        simple_seq(scopes, out, ss.take(i)) is Some,
    decreases ss.len(),
{
    if i == ss.len() {
        assert(ss.take(i) =~= ss);
    } else {
        lemma_simple_seq_prefix(scopes, out, ss.drop_last(), i);
        assert(ss.drop_last().take(i) =~= ss.take(i));
    }
}

/// Once a prefix has broken off, the whole list ends the same way.
proof fn lemma_simple_seq_break(scopes: Seq<Scope>, out: RunText, ss: Seq<Stmt>, i: int, o: RunText)
    requires
        0 <= i <= ss.len(),
        simple_seq(scopes, out, ss.take(i)) == Some((o, true)),
    ensures
        simple_seq(scopes, out, ss) == Some((o, true)),
    decreases ss.len(),
{
    if i == ss.len() {
        assert(ss.take(i) =~= ss);
    } else {
        assert(ss.drop_last().take(i) =~= ss.take(i));
        lemma_simple_seq_break(scopes, out, ss.drop_last(), i, o);
    }
}

/// `document.cookie = e` with `e` of the pure fragment and a string: the string.
pub open spec fn cookie_effect(scopes: Seq<Scope>, e: Expr) -> Option<Seq<char>> {
    match e {
        Expr::Assign(_, _, value) => if is_cookie_assignment(e) {
            match pure_value(scopes, *value) {
                Some(Value::Str(v)) => Some(v@),
                _ => None,
            }
        } else {
            None
        },
        _ => None,
    }
}

/// Two scope chains of the same length whose scopes agree on every name but
/// `document` (the one name a cookie assignment rewrites).
pub open spec fn agree_except_doc(a: Seq<Scope>, b: Seq<Scope>) -> bool {
    &&& a.len() == b.len()
    &&& forall|i: int, k: Seq<char>|
        0 <= i < a.len() && k != "document"@ ==> #[trigger] a[i].vars.get_spec(k)
            == b[i].vars.get_spec(k)
}

proof fn lemma_agree_lookup(a: Seq<Scope>, b: Seq<Scope>, k: Seq<char>)
    requires
        agree_except_doc(a, b),
        k != "document"@,
    ensures
        scope_lookup(a, k) == scope_lookup(b, k),
    decreases a.len(),
{
    if a.len() > 0 {
        assert(a.last().vars.get_spec(k) == b.last().vars.get_spec(k)) by {
            assert(a[a.len() - 1].vars.get_spec(k) == b[a.len() - 1].vars.get_spec(k));
        }
        assert(agree_except_doc(a.drop_last(), b.drop_last())) by {
            assert forall|i: int, k2: Seq<char>|
                0 <= i < a.drop_last().len() && k2 != "document"@ implies #[trigger] a.drop_last()[i].vars.get_spec(
                k2,
            ) == b.drop_last()[i].vars.get_spec(k2) by {
                assert(a[i].vars.get_spec(k2) == b[i].vars.get_spec(k2));
            }
        }
        lemma_agree_lookup(a.drop_last(), b.drop_last(), k);
    }
}

proof fn lemma_agree_pure(a: Seq<Scope>, b: Seq<Scope>, e: Expr)
    requires
        agree_except_doc(a, b),
    ensures
        pure_value(a, e) == pure_value(b, e),
    decreases e,
{
    match e {
        Expr::Ident(name) => {
            if name@ != "document"@ {
                lemma_agree_lookup(a, b, name@);
            }
        },
        Expr::Ternary(c, x, y) => {
            lemma_agree_pure(a, b, *c);
            lemma_agree_pure(a, b, *x);
            lemma_agree_pure(a, b, *y);
        },
        Expr::Binary(l, _, r) => {
            lemma_agree_pure(a, b, *l);
            lemma_agree_pure(a, b, *r);
        },
        Expr::Unary(_, inner) => {
            lemma_agree_pure(a, b, *inner);
        },
        _ => {},
    }
}

proof fn lemma_agree_trans(a: Seq<Scope>, b: Seq<Scope>, c: Seq<Scope>)
    requires
        agree_except_doc(a, b),
        agree_except_doc(b, c),
    ensures
        agree_except_doc(a, c),
{
    assert forall|i: int, k: Seq<char>| 0 <= i < a.len() && k != "document"@ implies #[trigger] a[i].vars.get_spec(
        k,
    ) == c[i].vars.get_spec(k) by {
        assert(a[i].vars.get_spec(k) == b[i].vars.get_spec(k));
        assert(b[i].vars.get_spec(k) == c[i].vars.get_spec(k));
    }
}

/// An innermost scope without variables changes no lookup.
proof fn lemma_lookup_push_empty(scopes: Seq<Scope>, sc: Scope, k: Seq<char>)
    requires
        sc.vars.seq().len() == 0,
    ensures
        scope_lookup(scopes.push(sc), k) == scope_lookup(scopes, k),
{
    assert(scopes.push(sc).drop_last() =~= scopes);
    assert(sc.vars.get_spec(k) is None);
}

/// An innermost scope without variables changes no pure value.
proof fn lemma_pure_push_empty(scopes: Seq<Scope>, sc: Scope, e: Expr)
    requires
        sc.vars.seq().len() == 0,
    ensures
        pure_value(scopes.push(sc), e) == pure_value(scopes, e),
    decreases e,
{
    match e {
        Expr::Ident(name) => {
            lemma_lookup_push_empty(scopes, sc, name@);
        },
        Expr::Ternary(c, a, b) => {
            lemma_pure_push_empty(scopes, sc, *c);
            lemma_pure_push_empty(scopes, sc, *a);
            lemma_pure_push_empty(scopes, sc, *b);
        },
        Expr::Binary(l, _, r) => {
            lemma_pure_push_empty(scopes, sc, *l);
            lemma_pure_push_empty(scopes, sc, *r);
        },
        Expr::Unary(_, inner) => {
            lemma_pure_push_empty(scopes, sc, *inner);
        },
        _ => {},
    }
}

/// Some entry among the first `j` of `e` is named `k`.
pub open spec fn seen_key(e: Seq<(Vec<char>, Value)>, k: Seq<char>, j: int) -> bool {
    exists|w: int| 0 <= w < j && #[trigger] e[w].0@ == k
}

/// What `k` reads after the first `j` entries of `m` are laid over the chain `prev`.
pub open spec fn read_through(m: PropMap, prev: Seq<Scope>, k: Seq<char>, j: int) -> Option<Value> {
    if seen_key(m.seq(), k, j) {
        m.get_spec(k)
    } else {
        scope_lookup(prev, k)
    }
}

/// The value of variable `k` in the innermost scope that has it.
pub open spec fn scope_lookup(scopes: Seq<Scope>, k: Seq<char>) -> Option<Value>
    decreases scopes.len(),
{
    if scopes.len() == 0 {
        None
    } else if scopes.last().vars.get_spec(k) is Some {
        scopes.last().vars.get_spec(k)
    } else {
        scope_lookup(scopes.drop_last(), k)
    }
}

/// Changing one scope so that it has `k`, and leaving every other name of it as it
/// was, makes `k` read back from there or from an inner scope; other names read the
/// same as before unless an inner scope shadows them.
proof fn lemma_lookup_update(scopes: Seq<Scope>, i: int, sc: Scope, k: Seq<char>, k2: Seq<char>)
    requires
        0 <= i < scopes.len(),
        forall|k3: Seq<char>| k3 != k ==> sc.vars.get_spec(k3) == scopes[i].vars.get_spec(k3),
        sc.vars.get_spec(k) is Some,
        forall|j: int| i < j < scopes.len() ==> scopes[j].vars.get_spec(k) is None,
    ensures
        k2 != k ==> scope_lookup(scopes.update(i, sc), k2) == scope_lookup(scopes, k2),
        k2 == k ==> scope_lookup(scopes.update(i, sc), k2) == sc.vars.get_spec(k),
    decreases scopes.len(),
{
    let ns = scopes.update(i, sc);
    if i == scopes.len() - 1 {
        assert(ns.drop_last() =~= scopes.drop_last());
    } else {
        assert(ns.drop_last() =~= scopes.drop_last().update(i, sc));
        lemma_lookup_update(scopes.drop_last(), i, sc, k, k2);
    }
}

/// Changing one scope only at `k` leaves every other name reading as before.
proof fn lemma_lookup_update_other(scopes: Seq<Scope>, i: int, sc: Scope, k: Seq<char>, k2: Seq<char>)
    requires
        0 <= i < scopes.len(),
        forall|k3: Seq<char>| k3 != k ==> sc.vars.get_spec(k3) == scopes[i].vars.get_spec(k3),
        k2 != k,
    ensures
        scope_lookup(scopes.update(i, sc), k2) == scope_lookup(scopes, k2),
    decreases scopes.len(),
{
    let ns = scopes.update(i, sc);
    if i == scopes.len() - 1 {
        assert(ns.drop_last() =~= scopes.drop_last());
    } else {
        assert(ns.drop_last() =~= scopes.drop_last().update(i, sc));
        lemma_lookup_update_other(scopes.drop_last(), i, sc, k, k2);
    }
}

/// Parses a property name as an array index (`str::parse::<usize>`).
pub fn parse_index(s: &[char]) -> (r: Option<usize>)
    ensures
        r matches Some(i) ==> crate::numparse::spec_from_str_radix(s@, 10) == Some(i as u64),
        r is None ==> (crate::numparse::spec_from_str_radix(s@, 10) matches Some(v) ==> v
            > usize::MAX),
{
    if s.len() == 0 {
        return None;
    }
    match u64_from_radix(s, 10) {
        Some(v) => if v <= usize::MAX as u64 {
            Some(v as usize)
        } else {
            None
        },
        None => None,
    }
}

/// The text of a literal as a fresh character vector.
/// The global bindings of a fresh interpreter: `NaN`, `Infinity`, `Math` (with `PI`), the
/// objects `console`, `window` and `navigator`, `document` with an empty `cookie`,
/// `location` (`https:`, no host, path `/`) and `screen` (1920 by 1080).
pub open spec fn initial_globals(scopes: Seq<Scope>) -> bool {
    &&& (scope_lookup(scopes, "NaN"@) matches Some(Value::Number(d)) && d.is_nan_spec())
    &&& (scope_lookup(scopes, "Infinity"@) matches Some(Value::Number(d)) && d.is_inf_spec()
        && !d.is_neg_spec())
    &&& (scope_lookup(scopes, "Math"@) matches Some(Value::Object(m)) && m.get_spec("PI"@) == Some(
        Value::Number(Double { bits: crate::mathfn::PI_BITS }),
    ))
    &&& (scope_lookup(scopes, "console"@) matches Some(Value::Object(_)))
    &&& (scope_lookup(scopes, "window"@) matches Some(Value::Object(_)))
    &&& (scope_lookup(scopes, "navigator"@) matches Some(Value::Object(_)))
    &&& (scope_lookup(scopes, "document"@) matches Some(Value::Object(d)) && (d.get_spec(
        "cookie"@,
    ) matches Some(Value::Str(c)) && c@.len() == 0))
    &&& (scope_lookup(scopes, "location"@) matches Some(Value::Object(l)) && (l.get_spec(
        "protocol"@,
    ) matches Some(Value::Str(p)) && p@ == "https:"@) && (l.get_spec("hostname"@) matches Some(
        Value::Str(h),
    ) && h@.len() == 0) && (l.get_spec("pathname"@) matches Some(Value::Str(q)) && q@ == "/"@))
    &&& (scope_lookup(scopes, "screen"@) matches Some(Value::Object(m)) && (m.get_spec("width"@) matches Some(
        Value::Number(w),
    ) && spec_is_int_value(w, 1920)) && (m.get_spec("height"@) matches Some(Value::Number(h))
        && spec_is_int_value(h, 1080)))
}

fn lit(s: &str) -> (r: Vec<char>)
    ensures
        r@ == s@,
{
    str_to_chars(s)
}

/// The characters of `s`, each as a one-character string value.
pub fn chars_as_values(s: &Vec<char>) -> (r: Vec<Value>)
    ensures
        r@.len() == s@.len(),
        forall|i: int| 0 <= i < s@.len() ==> (#[trigger] r@[i] matches Value::Str(c) && c@ == seq![s@[i]]),
{
    let mut out: Vec<Value> = Vec::new();
    let mut i: usize = 0;
    while i < s.len()
        invariant
            0 <= i <= s@.len(),
            out@.len() == i,
            forall|j: int| 0 <= j < i ==> (#[trigger] out@[j] matches Value::Str(c) && c@ == seq![s@[j]]),
        decreases s.len() - i,
    {
        out.push(Value::Str(crate::text::char_to_string(s[i])));
        i = i + 1;
    }
    out
}

/// The text before the first `;` (all of it when there is none).
pub open spec fn spec_cookie_part(s: Seq<char>) -> Seq<char>
    decreases s.len(),
{
    if s.len() == 0 || s[0] == ';' {
        seq![]
    } else {
        seq![s[0]] + spec_cookie_part(s.drop_first())
    }
}

/// The cookie after `document.cookie = v` with `v` a string: the part of `v` before the
/// first `;` is appended, after `"; "` when there was a cookie already.
pub open spec fn spec_cookie_append(cookie: Seq<char>, v: Seq<char>) -> Seq<char> {
    if cookie.len() > 0 {
        cookie + "; "@ + spec_cookie_part(v)
    } else {
        cookie + spec_cookie_part(v)
    }
}

/// The part before the first `;` holds no `;`.
proof fn lemma_cookie_part_no_semicolon(s: Seq<char>)
    ensures
        forall|i: int| 0 <= i < spec_cookie_part(s).len() ==> spec_cookie_part(s)[i] != ';',
        spec_cookie_part(s).len() <= s.len(),
    decreases s.len(),
{
    if s.len() > 0 && s[0] != ';' {
        lemma_cookie_part_no_semicolon(s.drop_first());
        let rest = spec_cookie_part(s.drop_first());
        assert forall|i: int| 0 <= i < spec_cookie_part(s).len() implies spec_cookie_part(s)[i]
            != ';' by {
            if i > 0 {
                assert(spec_cookie_part(s)[i] == rest[i - 1]);
            }
        }
    }
}

/// A cookie assignment adds a `;` only in the separator `"; "`.
proof fn lemma_cookie_append_separated(c: Seq<char>, v: Seq<char>)
    ensures
        seq_prefix(c, spec_cookie_append(c, v)),
        cookie_separated(c, spec_cookie_append(c, v)),
{
    reveal_strlit("; ");
    lemma_cookie_part_no_semicolon(v);
    let p = spec_cookie_part(v);
    let n = spec_cookie_append(c, v);
    if c.len() > 0 {
        assert(n =~= c + seq![';', ' '] + p);
        assert forall|i: int| c.len() <= i < n.len() && #[trigger] n[i] == ';' implies i + 1
            < n.len() && n[i + 1] == ' ' by {
            if i >= c.len() + 2 {
                assert(n[i] == p[i - c.len() - 2]);
            }
        }
    } else {
        assert(n =~= p);
    }
}

/// `b` is a suffix of `a`.
pub open spec fn seq_ends_with(a: Seq<char>, b: Seq<char>) -> bool {
    b.len() <= a.len() && a.subrange(a.len() - b.len(), a.len() as int) == b
}

/// `document.cookie = <value>`.
pub open spec fn is_cookie_assignment(e: Expr) -> bool {
    e matches Expr::Assign(target, op, _) && op is Assign && (*target matches Expr::Member(obj, prop)
        && prop@ == "cookie"@ && (*obj matches Expr::Ident(n) && n@ == "document"@))
}

/// The part of a cookie assignment before the first `;`.
pub fn cookie_part(s: &Vec<char>) -> (r: Vec<char>)
    ensures
        r@ == spec_cookie_part(s@),
{
    let mut i: usize = 0;
    assert(s@.skip(0) =~= s@);
    while i < s.len() && s[i] != ';'
        invariant
            0 <= i <= s@.len(),
            s@.subrange(0, i as int) + spec_cookie_part(s@.skip(i as int)) == spec_cookie_part(s@),
        decreases s.len() - i,
    {
        assert(s@.skip(i as int).drop_first() =~= s@.skip(i + 1));
        assert(s@.subrange(0, i + 1) =~= s@.subrange(0, i as int) + seq![s@[i as int]]);
        i = i + 1;
    }
    let r = slice_range(s.as_slice(), 0, i);
    if i < s.len() {
        assert(s@.skip(i as int)[0] == ';');
    } else {
        assert(s@.skip(i as int).len() == 0);
    }
    r
}

/// `n` copies of `undefined`.
pub fn undefined_values(n: usize) -> (r: Vec<Value>)
    ensures
        r@.len() == n,
        forall|i: int| 0 <= i < n ==> #[trigger] r@[i] is Undefined,
{
    let mut out: Vec<Value> = Vec::new();
    let mut i: usize = 0;
    while i < n
        invariant
            0 <= i <= n,
            out@.len() == i,
            forall|j: int| 0 <= j < i ==> #[trigger] out@[j] is Undefined,
        decreases n - i,
    {
        out.push(Value::Undefined);
        i = i + 1;
    }
    out
}

fn number(n: u64) -> (r: Value)
    ensures
        n < 0x20_0000_0000_0000 ==> (r matches Value::Number(x) && spec_is_int_value(x, n as int)),
{
    Value::Number(Double::from_u64(n))
}

/// Argument `i`, or `undefined`.
pub fn arg_or_undefined(args: &Vec<Value>, i: usize) -> (r: Value)
    ensures
        i < args@.len() ==> equiv(args@[i as int], r),
        i >= args@.len() ==> r is Undefined,
{
    if i < args.len() {
        clone_value(&args[i])
    } else {
        Value::Undefined
    }
}

/// The string form of argument `i`, or the empty string.
pub fn arg_string(args: &Vec<Value>, i: usize) -> (r: Vec<char>)
    ensures
        i < args@.len() ==> (args@[i as int] matches Value::Str(a) ==> r@ == a@),
        i >= args@.len() ==> r@.len() == 0 && r@ == Seq::<char>::empty(),
{
    if i < args.len() {
        args[i].to_string_val()
    } else {
        let v: Vec<char> = Vec::new();
        assert(v@ =~= Seq::<char>::empty());
        v
    }
}

/// The numeric value of argument `i`, or `default`.
pub fn arg_number(args: &Vec<Value>, i: usize, default: Double) -> (r: Double)
    ensures
        i < args@.len() ==> (args@[i as int] matches Value::Number(n) ==> r == n),
        i >= args@.len() ==> r == default,
{
    if i < args.len() {
        args[i].to_number()
    } else {
        default
    }
}

impl Interpreter {
    pub open spec fn wf(&self) -> bool {
        &&& self.scopes@.len() >= 1
        &&& self.call_depth <= MAX_CALL_DEPTH
    }

    /// Calls left before the depth limit.
    pub open spec fn fuel(&self) -> nat {
        (MAX_CALL_DEPTH - self.call_depth) as nat
    }

    pub fn new() -> (r: Interpreter)
        ensures
            r.wf(),
            r.call_depth == 0,
            r.output@.len() == 0,
            r.cookie@.len() == 0,
            r.scopes@.len() == 1,
            initial_globals(r.scopes@),
    {
        let mut scopes: Vec<Scope> = Vec::new();
        scopes.push(Scope::new());
        let mut interp = Interpreter {
            scopes,
            output: Vec::new(),
            cookie: Vec::new(),
            call_depth: 0,
            rng_state: 0x12345678_ABCDEF01u64,
        };
        interp.init_globals();
        interp
    }

    /// The captured output, leaving it empty.
    pub fn take_output(&mut self) -> (r: Vec<char>)
        ensures
            r@ == old(self).output@,
            final(self).output@.len() == 0,
            final(self).cookie == old(self).cookie,
            final(self).scopes == old(self).scopes,
            final(self).call_depth == old(self).call_depth,
    {
        let mut out: Vec<char> = Vec::new();
        std::mem::swap(&mut out, &mut self.output);
        out
    }

    pub fn get_cookie(&self) -> (r: &Vec<char>)
        ensures
            *r == self.cookie,
    {
        &self.cookie
    }

    /// Removes a variable from the global scope and gives its value back.
    pub fn take_var(&mut self, name: &[char]) -> (r: Option<Value>)
        requires
            old(self).wf(),
        ensures
            follows(*old(self), *final(self)),
            final(self).output == old(self).output,
            final(self).cookie == old(self).cookie,
            r == old(self).scopes@[0].vars.get_spec(name@),
            final(self).scopes@[0].vars.get_spec(name@) is None,
            final(self).scopes@.len() == old(self).scopes@.len(),
            forall|k: Seq<char>|
                k != name@ ==> #[trigger] final(self).scopes@[0].vars.get_spec(k) == old(
                    self,
                ).scopes@[0].vars.get_spec(k),
            forall|j: int| 0 < j < old(self).scopes@.len() ==> #[trigger] final(self).scopes@[j] == old(
                self,
            ).scopes@[j],
            final(self).rng_state == old(self).rng_state,
    {
        self.scopes[0].vars.remove(name)
    }

    /// Sets a variable in the global scope.
    pub fn set_global(&mut self, name: &[char], val: Value)
        requires
            old(self).wf(),
        ensures
            follows(*old(self), *final(self)),
            final(self).output == old(self).output,
            final(self).cookie == old(self).cookie,
            final(self).scopes@[0].vars.get_spec(name@) == Some(val),
            final(self).scopes@.len() == old(self).scopes@.len(),
            forall|k: Seq<char>|
                k != name@ ==> #[trigger] final(self).scopes@[0].vars.get_spec(k) == old(
                    self,
                ).scopes@[0].vars.get_spec(k),
            forall|j: int| 0 < j < old(self).scopes@.len() ==> #[trigger] final(self).scopes@[j] == old(
                self,
            ).scopes@[j],
            final(self).rng_state == old(self).rng_state,
    {
        let k = slice_range(name, 0, name.len());
        proof {
            assert(name@.subrange(0, name@.len() as int) =~= name@);
        }
        self.scopes[0].vars.insert(k, val);
    }

    pub fn set_cookie(&mut self, c: Vec<char>)
        ensures
            final(self).cookie == c,
            final(self).scopes == old(self).scopes,
            final(self).output == old(self).output,
            final(self).call_depth == old(self).call_depth,
    {
        self.cookie = c;
    }

    fn push_scope(&mut self)
        requires
            old(self).wf(),
        ensures
            follows(*old(self), *final(self)),
            final(self).output == old(self).output,
            final(self).cookie == old(self).cookie,
            final(self).rng_state == old(self).rng_state,
            final(self).scopes@.len() == old(self).scopes@.len() + 1,
            forall|i: int| 0 <= i < old(self).scopes@.len() ==> final(self).scopes@[i] == old(self).scopes@[i],
            final(self).scopes@.last().vars.seq().len() == 0,
    {
        self.scopes.push(Scope::new());
    }

    fn pop_scope(&mut self)
        requires
            old(self).wf(),
        ensures
            follows(*old(self), *final(self)),
            final(self).output == old(self).output,
            final(self).cookie == old(self).cookie,
            final(self).rng_state == old(self).rng_state,
            final(self).scopes@ == (if old(self).scopes@.len() > 1 {
                old(self).scopes@.drop_last()
            } else {
                old(self).scopes@
            }),
    {
        if self.scopes.len() > 1 {
            self.scopes.pop();
        }
    }

    /// Sets a variable in the innermost scope.
    fn set_var(&mut self, name: &[char], val: Value)
        requires
            old(self).wf(),
        ensures
            follows(*old(self), *final(self)),
            final(self).output == old(self).output,
            final(self).cookie == old(self).cookie,
            final(self).scopes@.len() == old(self).scopes@.len(),
            scope_lookup(final(self).scopes@, name@) == Some(val),
            forall|k: Seq<char>|
                k != name@ ==> scope_lookup(final(self).scopes@, k) == scope_lookup(
                    old(self).scopes@,
                    k,
                ),
    {
        let n = self.scopes.len();
        let k = slice_range(name, 0, name.len());
        proof {
            assert(name@.subrange(0, name@.len() as int) =~= name@);
        }
        let ghost old_scopes = self.scopes@;
        self.scopes[n - 1].vars.insert(k, val);
        proof {
            let sc = self.scopes@[n - 1];
            assert(self.scopes@ =~= old_scopes.update(n - 1, sc));
            assert forall|k2: Seq<char>| k2 != name@ implies scope_lookup(self.scopes@, k2)
                == scope_lookup(old_scopes, k2) by {
                lemma_lookup_update(old_scopes, n - 1, sc, name@, k2);
            }
            lemma_lookup_update(old_scopes, n - 1, sc, name@, name@);
        }
    }

    /// Declares a variable in scope `level` of the chain.
    fn set_var_at(&mut self, level: usize, name: &[char], val: Value)
        requires
            old(self).wf(),
            level < old(self).scopes@.len(),
        ensures
            follows(*old(self), *final(self)),
            final(self).output == old(self).output,
            final(self).cookie == old(self).cookie,
            final(self).rng_state == old(self).rng_state,
            final(self).scopes@.len() == old(self).scopes@.len(),
            final(self).scopes@[level as int].vars.get_spec(name@) == Some(val),
            forall|j: int| 0 <= j < old(self).scopes@.len() && j != level ==> final(self).scopes@[j]
                == old(self).scopes@[j],
            forall|k: Seq<char>|
                k != name@ ==> scope_lookup(final(self).scopes@, k) == scope_lookup(
                    old(self).scopes@,
                    k,
                ),
    {
        let k = slice_range(name, 0, name.len());
        proof {
            assert(name@.subrange(0, name@.len() as int) =~= name@);
        }
        let ghost old_scopes = self.scopes@;
        self.scopes[level].vars.insert(k, val);
        proof {
            let sc = self.scopes@[level as int];
            assert(self.scopes@ =~= old_scopes.update(level as int, sc));
            assert forall|k2: Seq<char>| k2 != name@ implies scope_lookup(self.scopes@, k2)
                == scope_lookup(old_scopes, k2) by {
                lemma_lookup_update_other(old_scopes, level as int, sc, name@, k2);
            }
        }
    }

    /// The scope that `var` declares into: the function's own scope inside a call (the
    /// one after the captured variables), the global scope otherwise.
    fn var_level(&self) -> (r: usize)
        requires
            self.wf(),
        ensures
            r < self.scopes@.len(),
            r == (if self.call_depth > 0 && self.scopes@.len() >= 2 {
                1int
            } else {
                0int
            }),
    {
        if self.call_depth > 0 && self.scopes.len() >= 2 {
            1
        } else {
            0
        }
    }

    /// The value of a variable, looked up from the innermost scope outwards.
    fn get_var(&self, name: &[char]) -> (r: Option<Value>)
        ensures
            r is None <==> scope_lookup(self.scopes@, name@) is None,
            r matches Some(v) ==> equiv(scope_lookup(self.scopes@, name@)->0, v),
    {
        let mut i = self.scopes.len();
        assert(self.scopes@.take(i as int) =~= self.scopes@);
        while i > 0
            invariant
                i <= self.scopes@.len(),
                scope_lookup(self.scopes@, name@) == scope_lookup(self.scopes@.take(i as int), name@),
            decreases i,
        {
            let ghost t = self.scopes@.take(i as int);
            assert(t.drop_last() =~= self.scopes@.take(i - 1));
            assert(t.last() == self.scopes@[i - 1]);
            i = i - 1;
            match self.scopes[i].vars.get(name) {
                Some(v) => {
                    return Some(clone_value(v));
                },
                None => {},
            }
        }
        None
    }

    /// Assigns to the innermost scope that has the variable; false (and nothing
    /// changed) when none has it.
    fn update_var(&mut self, name: &[char], val: Value) -> (r: bool)
        requires
            old(self).wf(),
        ensures
            follows(*old(self), *final(self)),
            final(self).output == old(self).output,
            final(self).cookie == old(self).cookie,
            final(self).scopes@.len() == old(self).scopes@.len(),
            r <==> scope_lookup(old(self).scopes@, name@) is Some,
            !r ==> *final(self) == *old(self),
            r ==> scope_lookup(final(self).scopes@, name@) == Some(val),
            forall|k: Seq<char>|
                k != name@ ==> scope_lookup(final(self).scopes@, k) == scope_lookup(
                    old(self).scopes@,
                    k,
                ),
            forall|j: int, k: Seq<char>|
                0 <= j < old(self).scopes@.len() && k != name@ ==> #[trigger] final(self).scopes@[j].vars.get_spec(
                    k,
                ) == old(self).scopes@[j].vars.get_spec(k),
            final(self).rng_state == old(self).rng_state,
    {
        let mut i = self.scopes.len();
        assert(self.scopes@.take(i as int) =~= self.scopes@);
        while i > 0
            invariant
                i <= self.scopes@.len(),
                *self == *old(self),
                self.wf(),
                scope_lookup(self.scopes@, name@) == scope_lookup(self.scopes@.take(i as int), name@),
                forall|j: int| i <= j < self.scopes@.len() ==> (#[trigger] self.scopes@[j]).vars.get_spec(
                    name@,
                ) is None,
            decreases i,
        {
            let ghost t = self.scopes@.take(i as int);
            assert(t.drop_last() =~= self.scopes@.take(i - 1));
            assert(t.last() == self.scopes@[i - 1]);
            i = i - 1;
            if self.scopes[i].vars.contains_key(name) {
                let k = slice_range(name, 0, name.len());
                proof {
                    assert(name@.subrange(0, name@.len() as int) =~= name@);
                }
                let ghost old_scopes = self.scopes@;
                self.scopes[i].vars.insert(k, val);
                proof {
                    let sc = self.scopes@[i as int];
                    assert(self.scopes@ =~= old_scopes.update(i as int, sc));
                    assert forall|k2: Seq<char>| k2 != name@ implies scope_lookup(self.scopes@, k2)
                        == scope_lookup(old_scopes, k2) by {
                        lemma_lookup_update(old_scopes, i as int, sc, name@, k2);
                    }
                    lemma_lookup_update(old_scopes, i as int, sc, name@, name@);
                }
                return true;
            }
        }
        assert(self.scopes@.take(0) =~= Seq::<Scope>::empty());
        false
    }

    fn init_globals(&mut self)
        requires
            old(self).wf(),
        ensures
            follows(*old(self), *final(self)),
            final(self).output == old(self).output,
            final(self).cookie == old(self).cookie,
            final(self).scopes@.len() == old(self).scopes@.len(),
            initial_globals(final(self).scopes@),
    {
        proof {
            reveal_strlit("NaN");
            reveal_strlit("Infinity");
            reveal_strlit("Math");
            reveal_strlit("PI");
            reveal_strlit("E");
            reveal_strlit("LN2");
            reveal_strlit("LN10");
            reveal_strlit("SQRT2");
            reveal_strlit("LOG2E");
            reveal_strlit("LOG10E");
            reveal_strlit("console");
            reveal_strlit("document");
            reveal_strlit("cookie");
            reveal_strlit("window");
            reveal_strlit("navigator");
            reveal_strlit("screen");
            reveal_strlit("location");
            reveal_strlit("width");
            reveal_strlit("height");
            reveal_strlit("protocol");
            reveal_strlit("hostname");
            reveal_strlit("pathname");
            reveal_strlit("href");
            reveal_strlit("search");
            reveal_strlit("hash");
            assert("screen"@.len() == 6 && "location"@.len() == 8 && "width"@.len() == 5
                && "height"@.len() == 6 && "protocol"@.len() == 8 && "search"@.len() == 6
                && "hash"@.len() == 4 && "NaN"@.len() == 3 && "Infinity"@.len() == 8
                && "Math"@.len() == 4 && "console"@.len() == 7 && "document"@.len() == 8
                && "window"@.len() == 6 && "navigator"@.len() == 9 && "hostname"@.len() == 8
                && "pathname"@.len() == 8 && "href"@.len() == 4 && "PI"@.len() == 2 && "E"@.len() == 1
                && "LN2"@.len() == 3 && "LN10"@.len() == 4 && "SQRT2"@.len() == 5
                && "LOG2E"@.len() == 5 && "LOG10E"@.len() == 6);
            assert("Infinity"@[0] != "document"@[0] && "Infinity"@[0] != "location"@[0]
                && "document"@[0] != "location"@[0] && "window"@[0] != "screen"@[0]
                && "hostname"@[0] != "pathname"@[0] && "hostname"@[0] != "protocol"@[0]
                && "pathname"@[1] != "protocol"@[1] && "href"@[1] != "hash"@[1]);
        }
        self.set_var(&lit("NaN"), Value::Number(Double::nan()));
        self.set_var(&lit("Infinity"), Value::Number(Double::infinity(false)));
        let mut math = PropMap::new();
        math.insert(lit("PI"), Value::Number(Double::from_bits(crate::mathfn::PI_BITS)));
        math.insert(lit("E"), Value::Number(Double::from_bits(crate::mathfn::E_BITS)));
        math.insert(lit("LN2"), Value::Number(Double::from_bits(crate::mathfn::LN_2_BITS)));
        math.insert(lit("LN10"), Value::Number(Double::from_bits(crate::mathfn::LN_10_BITS)));
        math.insert(lit("SQRT2"), Value::Number(Double::from_bits(crate::mathfn::SQRT_2_BITS)));
        math.insert(lit("LOG2E"), Value::Number(Double::from_bits(crate::mathfn::LOG2_E_BITS)));
        math.insert(lit("LOG10E"), Value::Number(Double::from_bits(crate::mathfn::LOG10_E_BITS)));
        self.set_var(&lit("Math"), Value::Object(math));
        self.set_var(&lit("console"), Value::Object(PropMap::new()));
        let mut doc = PropMap::new();
        doc.insert(lit("cookie"), Value::Str(Vec::new()));
        self.set_var(&lit("document"), Value::Object(doc));
        self.set_var(&lit("window"), Value::Object(PropMap::new()));
        let mut nav = PropMap::new();
        nav.insert(
            lit("userAgent"),
            Value::Str(
                lit(
                    "Mozilla/5.0 (compatible; js-lite) AppleWebKit/537.36 Chrome/120.0.0.0 Safari/537.36",
                ),
            ),
        );
        nav.insert(lit("language"), Value::Str(lit("en-US")));
        nav.insert(lit("cookieEnabled"), Value::Bool(true));
        self.set_var(&lit("navigator"), Value::Object(nav));
        let mut loc = PropMap::new();
        loc.insert(lit("href"), Value::Str(Vec::new()));
        loc.insert(lit("hostname"), Value::Str(Vec::new()));
        loc.insert(lit("pathname"), Value::Str(lit("/")));
        loc.insert(lit("protocol"), Value::Str(lit("https:")));
        loc.insert(lit("search"), Value::Str(Vec::new()));
        loc.insert(lit("hash"), Value::Str(Vec::new()));
        self.set_var(&lit("location"), Value::Object(loc));
        let mut screen = PropMap::new();
        screen.insert(lit("width"), number(1920));
        screen.insert(lit("height"), number(1080));
        self.set_var(&lit("screen"), Value::Object(screen));
    }

    /// xorshift64; the result is the state divided by `u64::MAX`.
    pub fn next_random(&mut self) -> (r: Double)
        ensures
            final(self).rng_state == spec_xorshift(old(self).rng_state),
            final(self).scopes == old(self).scopes,
            final(self).output == old(self).output,
            final(self).cookie == old(self).cookie,
            final(self).call_depth == old(self).call_depth,
    {
        let mut s = self.rng_state;
        s = s ^ (s << 13u64);
        s = s ^ (s >> 7u64);
        s = s ^ (s << 17u64);
        self.rng_state = s;
        Double::from_u64(s).div(&Double::from_u64(u64::MAX))
    }

    /// All variables of the scope chain in one map (inner scopes win).
    fn capture_scope(&self) -> (r: PropMap)
        ensures
            forall|k: Seq<char>| #[trigger] opt_equiv(scope_lookup(self.scopes@, k), r.get_spec(k)),
    {
        let mut captured = PropMap::new();
        let mut i: usize = 0;
        while i < self.scopes.len()
            invariant
                0 <= i <= self.scopes@.len(),
                forall|k: Seq<char>|
                    #[trigger] opt_equiv(
                        scope_lookup(self.scopes@.take(i as int), k),
                        captured.get_spec(k),
                    ),
            decreases self.scopes.len() - i,
        {
            let m = &self.scopes[i].vars;
            let ghost prev = self.scopes@.take(i as int);
            let mut j: usize = 0;
            while j < m.len()
                invariant
                    0 <= j <= m.seq().len(),
                    prev == self.scopes@.take(i as int),
                    forall|k: Seq<char>|
                        #[trigger] opt_equiv(
                            read_through(*m, prev, k, j as int),
                            captured.get_spec(k),
                        ),
                decreases m.seq().len() - j,
            {
                let key = m.key_at(j);
                let val = m.value_at(j);
                let ghost gk = key@;
                let ghost before = captured;
                captured.insert(clone_chars(key), clone_value(val));
                proof {
                    assert forall|k: Seq<char>|
                        #[trigger] opt_equiv(
                            read_through(*m, prev, k, j + 1),
                            captured.get_spec(k),
                        ) by {
                        if k == gk {
                            assert(key_at(m.seq(), k, j as int));
                        } else {
                            if seen_key(m.seq(), k, j + 1) {
                                let w = choose|w: int| 0 <= w < j + 1 && #[trigger] m.seq()[w].0@ == k;
                                assert(0 <= w < j && m.seq()[w].0@ == k);
                            }
                            assert(seen_key(m.seq(), k, j + 1) == seen_key(m.seq(), k, j as int));
                            assert(opt_equiv(read_through(*m, prev, k, j as int), before.get_spec(k)));
                        }
                    }
                }
                j = j + 1;
            }
            proof {
                let next = self.scopes@.take(i + 1);
                assert(next.drop_last() =~= prev);
                assert(next.last() == self.scopes@[i as int]);
                assert forall|k: Seq<char>|
                    #[trigger] opt_equiv(scope_lookup(next, k), captured.get_spec(k)) by {
                    assert(opt_equiv(read_through(*m, prev, k, j as int), captured.get_spec(k)));
                    if m.get_spec(k) is Some {
                        let w = choose|w: int| key_at(m.seq(), k, w);
                        assert(seen_key(m.seq(), k, j as int)) by {
                            assert(0 <= w < j && m.seq()[w].0@ == k);
                        }
                    } else {
                        if seen_key(m.seq(), k, j as int) {
                            let w = choose|w: int| 0 <= w < j && #[trigger] m.seq()[w].0@ == k;
                            assert(key_at(m.seq(), k, w));
                        }
                    }
                }
            }
            i = i + 1;
        }
        assert(self.scopes@.take(self.scopes@.len() as int) =~= self.scopes@);
        captured
    }

    // -------------------------------------------------------------------
    // Statements
    // -------------------------------------------------------------------

    pub fn exec_block(&mut self, stmts: &Vec<Stmt>) -> (r: Result<Signal, Vec<char>>)
        requires
            old(self).wf(),
        ensures
            follows(*old(self), *final(self)),
            all_empty_stmts(stmts@) ==> r == Ok::<Signal, Vec<char>>(Signal::Normal) && *final(self)
                == *old(self),
            simple_seq(old(self).scopes@, (old(self).output@, old(self).cookie@), stmts@) matches Some(
                (o, brk),
            ) ==> r == Ok::<Signal, Vec<char>>(if brk { Signal::Break } else { Signal::Normal })
                && final(self).output@ == o.0 && final(self).cookie@ == o.1 && agree_except_doc(
                old(self).scopes@,
                final(self).scopes@,
            ) && final(self).rng_state == old(self).rng_state,
            stmts@.len() > 0 ==> (pure_throw(old(self).scopes@, stmts@[0]) matches Some(v) ==> (r matches Ok(
                Signal::Throw(w),
            ) && equiv(v, w)) && *final(self) == *old(self)),
            stmts@.len() > 0 ==> (pure_return(old(self).scopes@, stmts@[0]) matches Some(v) ==> (r matches Ok(
                Signal::Return(w),
            ) && equiv(v, w)) && *final(self) == *old(self)),
            stmts@.len() > 0 && (spins(old(self).scopes@, (old(self).output@, old(self).cookie@), stmts@[0])
                || for_spins(stmts@[0])) ==> (r matches Err(e) && e@ == "infinite loop detected"@),
        decreases old(self).fuel(), stmts, 0nat,
    {
        let mut i: usize = 0;
        while i < stmts.len()
            invariant
                0 <= i <= stmts@.len(),
                follows(*old(self), *self),
                all_empty_stmts(stmts@) ==> *self == *old(self),
                i == 0 ==> *self == *old(self),
                i > 0 ==> pure_throw(old(self).scopes@, stmts@[0]) is None,
                i > 0 ==> pure_return(old(self).scopes@, stmts@[0]) is None,
                i > 0 ==> !(spins(old(self).scopes@, (old(self).output@, old(self).cookie@), stmts@[0])
                    || for_spins(stmts@[0])),
                simple_seq(old(self).scopes@, (old(self).output@, old(self).cookie@), stmts@) is Some ==> simple_seq(
                    old(self).scopes@,
                    (old(self).output@, old(self).cookie@),
                    stmts@.take(i as int),
                ) == Some(((self.output@, self.cookie@), false)) && agree_except_doc(old(self).scopes@, self.scopes@)
                    && self.rng_state == old(self).rng_state,
            decreases stmts.len() - i,
        {
            proof {
                assert(decreases_to!(stmts => stmts@));
                assert(decreases_to!(stmts@ => stmts@[i as int]));
                if simple_seq(old(self).scopes@, (old(self).output@, old(self).cookie@), stmts@) is Some {
                    lemma_simple_seq_prefix(old(self).scopes@, (old(self).output@, old(self).cookie@), stmts@, i + 1);
                    let p = stmts@.take(i + 1);
                    assert(p.drop_last() =~= stmts@.take(i as int));
                    assert(p.last() == stmts@[i as int]);
                    lemma_agree_same_pure(old(self).scopes@, self.scopes@);
                    lemma_same_simple(old(self).scopes@, self.scopes@, (self.output@, self.cookie@), stmts@[i as int]);
                }
            }
            let ghost before = self.scopes@;
            let signal = self.exec_stmt(&stmts[i])?;
            proof {
                if simple_seq(old(self).scopes@, (old(self).output@, old(self).cookie@), stmts@) is Some {
                    lemma_agree_trans(old(self).scopes@, before, self.scopes@);
                    if signal is Break {
                        lemma_simple_seq_break(
                            old(self).scopes@,
                            (old(self).output@, old(self).cookie@),
                            stmts@,
                            i + 1,
                            (self.output@, self.cookie@),
                        );
                    }
                }
            }
            match signal {
                Signal::Normal => {},
                other => {
                    return Ok(other);
                },
            }
            i = i + 1;
        }
        proof {
            assert(stmts@.take(stmts@.len() as int) =~= stmts@);
        }
        Ok(Signal::Normal)
    }

    pub fn exec_stmt(&mut self, stmt: &Stmt) -> (r: Result<Signal, Vec<char>>)
        requires
            old(self).wf(),
        ensures
            follows(*old(self), *final(self)),
            *stmt is Empty ==> r == Ok::<Signal, Vec<char>>(Signal::Normal) && *final(self) == *old(
                self,
            ),
            *stmt is Break ==> r == Ok::<Signal, Vec<char>>(Signal::Break) && *final(self) == *old(
                self,
            ),
            *stmt is Continue ==> r == Ok::<Signal, Vec<char>>(Signal::Continue) && *final(self)
                == *old(self),
            (*stmt is Expr || *stmt is VarDecl || *stmt is FunctionDecl) && r is Ok ==> r
                == Ok::<Signal, Vec<char>>(Signal::Normal),
            *stmt is Return ==> (r matches Ok(sig) ==> sig is Return),
            *stmt is Throw ==> (r matches Ok(sig) ==> sig is Throw),
            pure_throw(old(self).scopes@, *stmt) matches Some(v) ==> (r matches Ok(Signal::Throw(w))
                && equiv(v, w)) && *final(self) == *old(self),
            pure_return(old(self).scopes@, *stmt) matches Some(v) ==> (r matches Ok(Signal::Return(w))
                && equiv(v, w)) && *final(self) == *old(self),
            spins(old(self).scopes@, (old(self).output@, old(self).cookie@), *stmt) || for_spins(*stmt)
                ==> (r matches Err(e) && e@ == "infinite loop detected"@),
            *stmt matches Stmt::Block(ss) ==> (all_empty_stmts(ss@) ==> r == Ok::<Signal, Vec<char>>(
                Signal::Normal,
            )),
            plain_try(old(self).scopes@, (old(self).output@, old(self).cookie@), *stmt) matches Some(o)
                ==> r == Ok::<Signal, Vec<char>>(Signal::Normal) && (final(self).output@,
                final(self).cookie@) == o,
            *stmt matches Stmt::VarDecl(kind, ds) ==> (ds@.len() == 1 ==> (decl_value(
                old(self).scopes@,
                ds@[0],
            ) matches Some(v) ==> r == Ok::<Signal, Vec<char>>(Signal::Normal) && (kind is Var ==> (
            final(self).scopes@[spec_var_level(*old(self))].vars.get_spec(ds@[0].0@) matches Some(w)
                && equiv(v, w))) && (!(kind is Var) ==> (scope_lookup(final(self).scopes@, ds@[0].0@) matches Some(
                w,
            ) && equiv(v, w))))),
            (*stmt is While || *stmt is DoWhile || *stmt is For || *stmt is ForIn || *stmt is ForOf)
                ==> (r matches Ok(sig) ==> !(sig is Break) && !(sig is Continue)),
            *stmt is Switch ==> (r matches Ok(sig) ==> !(sig is Break)),
            simple_effect(old(self).scopes@, (old(self).output@, old(self).cookie@), *stmt) matches Some(
                (o, brk),
            ) ==> r == Ok::<Signal, Vec<char>>(if brk { Signal::Break } else { Signal::Normal })
                && final(self).output@ == o.0 && final(self).cookie@ == o.1 && agree_except_doc(
                old(self).scopes@,
                final(self).scopes@,
            ) && final(self).rng_state == old(self).rng_state,
        decreases old(self).fuel(), stmt, 2nat,
    {
        match stmt {
            Stmt::Empty => Ok(Signal::Normal),
            Stmt::Expr(expr) => {
                self.eval_expr(expr)?;
                Ok(Signal::Normal)
            },
            Stmt::VarDecl(kind, decls) => {
                let is_var = match kind {
                    VarKind::Var => true,
                    _ => false,
                };
                self.exec_var_decls(is_var, decls)?;
                Ok(Signal::Normal)
            },
            Stmt::Block(stmts) => {
                self.push_scope();
                proof {
                    let pushed = self.scopes@;
                    assert(pushed =~= old(self).scopes@.push(pushed.last()));
                    lemma_push_same_pure(old(self).scopes@, pushed.last());
                    lemma_same_seq(pushed, old(self).scopes@, (old(self).output@, old(self).cookie@), stmts@);
                }
                let ghost inner = self.scopes@;
                let result = self.exec_block(stmts);
                let ghost after = self.scopes@;
                self.pop_scope();
                proof {
                    if simple_effect(old(self).scopes@, (old(self).output@, old(self).cookie@), *stmt) is Some {
                        assert(self.scopes@ =~= after.drop_last());
                        assert(inner.drop_last() =~= old(self).scopes@);
                        assert forall|i: int, k: Seq<char>|
                            0 <= i < old(self).scopes@.len() && k != "document"@ implies #[trigger] old(
                            self,
                        ).scopes@[i].vars.get_spec(k) == self.scopes@[i].vars.get_spec(k) by {
                            assert(inner[i].vars.get_spec(k) == after[i].vars.get_spec(k));
                        }
                    }
                }
                result
            },
            Stmt::If(cond, then, else_branch) => {
                let ghost pv = pure_value(self.scopes@, *cond);
                let val = self.eval_expr(cond)?;
                proof {
                    if pv is Some {
                        lemma_equiv_same_reading(pv->0, val, pv->0, val);
                    }
                }
                if val.is_truthy() {
                    self.exec_stmt(then)
                } else {
                    match else_branch {
                        Some(el) => self.exec_stmt(el),
                        None => Ok(Signal::Normal),
                    }
                }
            },
            Stmt::While(..) => self.exec_while(stmt),
            Stmt::DoWhile(..) => self.exec_do_while(stmt),
            Stmt::For(..) => self.exec_for(stmt),
            Stmt::ForIn(..) => self.exec_for_in(stmt),
            Stmt::ForOf(..) => self.exec_for_of(stmt),
            Stmt::FunctionDecl(name, params, body_stmts) => {
                let closure = self.capture_scope();
                let func = Value::Function(
                    JsFunction {
                        name: Some(clone_chars(name)),
                        params: clone_names(params),
                        body: clone_stmts(body_stmts),
                        closure,
                    },
                );
                self.set_var(name.as_slice(), func);
                Ok(Signal::Normal)
            },
            Stmt::Return(expr) => {
                let val = match expr {
                    Some(e) => self.eval_expr(e)?,
                    None => Value::Undefined,
                };
                Ok(Signal::Return(val))
            },
            Stmt::Break => Ok(Signal::Break),
            Stmt::Continue => Ok(Signal::Continue),
            Stmt::Switch(d, c) => {
                proof {
                    if let Some(v) = pure_value(old(self).scopes@, *d) {
                        lemma_switch_no_break(old(self).scopes@, (old(self).output@, old(self).cookie@), v, c@);
                    }
                }
                self.exec_switch(stmt)
            },
            Stmt::TryCatch(..) => self.exec_try(stmt),
            Stmt::Throw(expr) => {
                let val = self.eval_expr(expr)?;
                Ok(Signal::Throw(val))
            },
        }
    }

    fn exec_var_decls(&mut self, is_var: bool, decls: &Vec<(Vec<char>, Option<Expr>)>) -> (r: Result<
        (),
        Vec<char>,
    >)
        requires
            old(self).wf(),
        ensures
            follows(*old(self), *final(self)),
            decls@.len() == 0 ==> r == Ok::<(), Vec<char>>(()) && *final(self) == *old(self),
            decls@.len() == 1 ==> (decl_value(old(self).scopes@, decls@[0]) matches Some(v) ==> r is Ok
                && (is_var ==> (final(self).scopes@[spec_var_level(*old(self))].vars.get_spec(
                decls@[0].0@,
            ) matches Some(w) && equiv(v, w))) && (!is_var ==> (scope_lookup(
                final(self).scopes@,
                decls@[0].0@,
            ) matches Some(w) && equiv(v, w)))),
        decreases old(self).fuel(), decls, 0nat,
    {
        let ghost dv = if decls@.len() == 1 {
            decl_value(old(self).scopes@, decls@[0])
        } else {
            None
        };
        let mut i: usize = 0;
        while i < decls.len()
            invariant
                0 <= i <= decls@.len(),
                follows(*old(self), *self),
                decls@.len() == 0 ==> *self == *old(self),
                dv == (if decls@.len() == 1 {
                    decl_value(old(self).scopes@, decls@[0])
                } else {
                    None
                }),
                dv is Some && i == 0 ==> *self == *old(self),
                dv is Some && i == 1 ==> (is_var ==> (self.scopes@[spec_var_level(*old(self))].vars.get_spec(
                    decls@[0].0@,
                ) matches Some(w) && equiv(dv->0, w))) && (!is_var ==> (scope_lookup(
                    self.scopes@,
                    decls@[0].0@,
                ) matches Some(w) && equiv(dv->0, w))),
            decreases decls.len() - i,
        {
            proof {
                assert(decreases_to!(decls => decls@));
                assert(decreases_to!(decls@ => decls@[i as int]));
                assert(decreases_to!(decls@[i as int] => decls@[i as int].1));
            }
            let val = match &decls[i].1 {
                Some(expr) => self.eval_expr(expr)?,
                None => Value::Undefined,
            };
            proof {
                if dv is Some && decls@[0].1 is None {
                    crate::value::lemma_equiv_refl(val);
                }
            }
            if is_var {
                // `var` is scoped to the function, not to the block
                let level = self.var_level();
                self.set_var_at(level, decls[i].0.as_slice(), val);
            } else {
                self.set_var(decls[i].0.as_slice(), val);
            }
            i = i + 1;
        }
        Ok(())
    }

    fn exec_while(&mut self, stmt: &Stmt) -> (r: Result<Signal, Vec<char>>)
        requires
            old(self).wf(),
        ensures
            follows(*old(self), *final(self)),
            r matches Ok(sig) ==> !(sig is Break) && !(sig is Continue),
            !(*stmt is While) || (*stmt matches Stmt::While(c, _) && c == Expr::Bool(false)) ==> r
                == Ok::<Signal, Vec<char>>(Signal::Normal) && *final(self) == *old(self),
            spins(old(self).scopes@, (old(self).output@, old(self).cookie@), *stmt) ==> (r matches Err(
                e,
            ) && e@ == "infinite loop detected"@),
        decreases old(self).fuel(), stmt, 1nat,
    {
        let (cond, body) = match stmt {
            Stmt::While(c, b) => (c, b),
            _ => {
                return Ok(Signal::Normal);
            },
        };
        let ghost sc = self.scopes@;
        let ghost st0 = (self.output@, self.cookie@);
        let ghost spin = spins(sc, st0, *stmt);
        let mut iterations: usize = 0;
        loop
            invariant
                follows(*old(self), *self),
                iterations <= MAX_LOOP_ITERATIONS,
                decreases_to!(*stmt => *cond),
                decreases_to!(*stmt => **body),
                *stmt is While,
                (*stmt matches Stmt::While(c, _) && c == Expr::Bool(false)) ==> *cond == Expr::Bool(
                    false,
                ) && *self == *old(self),
                *stmt == Stmt::While(*cond, *body),
                sc == old(self).scopes@,
                st0 == (old(self).output@, old(self).cookie@),
                spin == spins(sc, st0, *stmt),
                spin ==> (self.output@, self.cookie@) == st0 && agree_except_doc(sc, self.scopes@),
            ensures
                !spin,
            decreases MAX_LOOP_ITERATIONS - iterations,
        {
            proof {
                if spin {
                    lemma_agree_same_pure(sc, self.scopes@);
                    assert(pure_value(sc, *cond) == pure_value(self.scopes@, *cond));
                    lemma_same_simple(sc, self.scopes@, st0, **body);
                }
            }
            let ghost pc = pure_value(self.scopes@, *cond);
            let val = self.eval_expr(cond)?;
            proof {
                if spin {
                    lemma_equiv_same_reading(pc->0, val, pc->0, val);
                }
            }
            if !val.is_truthy() {
                break;
            }
            let ghost before = self.scopes@;
            let signal = self.exec_stmt(body)?;
            proof {
                if spin {
                    lemma_agree_trans(sc, before, self.scopes@);
                }
            }
            match signal {
                Signal::Break => {
                    break;
                },
                Signal::Return(v) => {
                    return Ok(Signal::Return(v));
                },
                Signal::Throw(v) => {
                    return Ok(Signal::Throw(v));
                },
                _ => {},
            }
            if iterations == MAX_LOOP_ITERATIONS {
                return Err(lit("infinite loop detected"));
            }
            iterations = iterations + 1;
        }
        Ok(Signal::Normal)
    }

    fn exec_do_while(&mut self, stmt: &Stmt) -> (r: Result<Signal, Vec<char>>)
        requires
            old(self).wf(),
        ensures
            follows(*old(self), *final(self)),
            r matches Ok(sig) ==> !(sig is Break) && !(sig is Continue),
            !(*stmt is DoWhile) || (*stmt matches Stmt::DoWhile(b, c) && *b == Stmt::Empty && c
                == Expr::Bool(false)) ==> r == Ok::<Signal, Vec<char>>(Signal::Normal) && *final(self)
                == *old(self),
        decreases old(self).fuel(), stmt, 1nat,
    {
        let (body, cond) = match stmt {
            Stmt::DoWhile(b, c) => (b, c),
            _ => {
                return Ok(Signal::Normal);
            },
        };
        let mut iterations: usize = 0;
        loop
            invariant
                follows(*old(self), *self),
                iterations <= MAX_LOOP_ITERATIONS,
                decreases_to!(*stmt => *cond),
                decreases_to!(*stmt => **body),
                *stmt is DoWhile,
                (*stmt matches Stmt::DoWhile(b, c) && *b == Stmt::Empty && c == Expr::Bool(false))
                    ==> **body == Stmt::Empty && *cond == Expr::Bool(false) && *self == *old(self),
            decreases MAX_LOOP_ITERATIONS - iterations,
        {
            let signal = self.exec_stmt(body)?;
            match signal {
                Signal::Break => {
                    break;
                },
                Signal::Return(v) => {
                    return Ok(Signal::Return(v));
                },
                Signal::Throw(v) => {
                    return Ok(Signal::Throw(v));
                },
                _ => {},
            }
            let val = self.eval_expr(cond)?;
            if !val.is_truthy() {
                break;
            }
            if iterations == MAX_LOOP_ITERATIONS {
                return Err(lit("infinite loop detected"));
            }
            iterations = iterations + 1;
        }
        Ok(Signal::Normal)
    }

    fn exec_for(&mut self, stmt: &Stmt) -> (r: Result<Signal, Vec<char>>)
        requires
            old(self).wf(),
        ensures
            follows(*old(self), *final(self)),
            r matches Ok(sig) ==> !(sig is Break) && !(sig is Continue),
            !(*stmt is For) ==> r == Ok::<Signal, Vec<char>>(Signal::Normal) && *final(self) == *old(
                self,
            ),
            (*stmt matches Stmt::For(i, c, _, _) && i is None && c == Some(Expr::Bool(false))) ==> r
                == Ok::<Signal, Vec<char>>(Signal::Normal) && final(self).scopes@ == old(self).scopes@
                && final(self).output == old(self).output && final(self).cookie == old(self).cookie,
            for_spins(*stmt) ==> (r matches Err(e) && e@ == "infinite loop detected"@),
        decreases old(self).fuel(), stmt, 1nat,
    {
        let (init, cond, update, body) = match stmt {
            Stmt::For(i, c, u, b) => (i, c, u, b),
            _ => {
                return Ok(Signal::Normal);
            },
        };
        proof {
            reveal_strlit("infinite loop detected");
        }
        self.push_scope();
        match init {
            Some(init_stmt) => {
                self.exec_stmt(init_stmt)?;
            },
            None => {},
        }
        let mut iterations: usize = 0;
        loop
            invariant
                follows(*old(self), *self),
                iterations <= MAX_LOOP_ITERATIONS,
                decreases_to!(*stmt => *cond),
                decreases_to!(*stmt => *update),
                decreases_to!(*stmt => **body),
                *stmt is For,
                (*stmt matches Stmt::For(i, c, _, _) && i is None && c == Some(Expr::Bool(false)))
                    ==> *cond == Some(Expr::Bool(false)) && self.scopes@.len() == old(self).scopes@.len()
                    + 1 && self.scopes@.drop_last() == old(self).scopes@ && self.output == old(
                    self,
                ).output && self.cookie == old(self).cookie,
                *stmt == Stmt::For(*init, *cond, *update, *body),
            ensures
                !for_spins(*stmt),
            decreases MAX_LOOP_ITERATIONS - iterations,
        {
            match cond {
                Some(cond_expr) => {
                    let val = self.eval_expr(cond_expr)?;
                    if !val.is_truthy() {
                        break;
                    }
                },
                None => {},
            }
            let signal = self.exec_stmt(body)?;
            match signal {
                Signal::Break => {
                    break;
                },
                Signal::Return(v) => {
                    self.pop_scope();
                    return Ok(Signal::Return(v));
                },
                Signal::Throw(v) => {
                    self.pop_scope();
                    return Ok(Signal::Throw(v));
                },
                _ => {},
            }
            match update {
                Some(update_expr) => {
                    self.eval_expr(update_expr)?;
                },
                None => {},
            }
            if iterations == MAX_LOOP_ITERATIONS {
                self.pop_scope();
                return Err(lit("infinite loop detected"));
            }
            iterations = iterations + 1;
        }
        self.pop_scope();
        Ok(Signal::Normal)
    }

    fn exec_for_in(&mut self, stmt: &Stmt) -> (r: Result<Signal, Vec<char>>)
        requires
            old(self).wf(),
        ensures
            follows(*old(self), *final(self)),
            r matches Ok(sig) ==> !(sig is Break) && !(sig is Continue),
            !(*stmt is ForIn) || (*stmt matches Stmt::ForIn(_, _, e, _) && (e is Number || e is Bool
                || e is Null || e is Undefined || e is Str)) ==> r == Ok::<Signal, Vec<char>>(
                Signal::Normal,
            ) && *final(self) == *old(self),
        decreases old(self).fuel(), stmt, 1nat,
    {
        let (name, obj_expr, body) = match stmt {
            Stmt::ForIn(_, n, o, b) => (n, o, b),
            _ => {
                return Ok(Signal::Normal);
            },
        };
        let obj = self.eval_expr(obj_expr)?;
        match obj {
            Value::Object(map) => {
                let keys = map.keys();
                let mut i: usize = 0;
                while i < keys.len()
                    invariant
                        follows(*old(self), *self),
                        0 <= i <= keys@.len(),
                        decreases_to!(*stmt => **body),
                        *stmt is ForIn,
                        !(*stmt matches Stmt::ForIn(_, _, e, _) && (e is Number || e is Bool || e is Null
                            || e is Undefined || e is Str)),
                    decreases keys.len() - i,
                {
                    self.set_var(name.as_slice(), Value::Str(clone_chars(&keys[i])));
                    let signal = self.exec_stmt(body)?;
                    match signal {
                        Signal::Break => {
                            break;
                        },
                        Signal::Return(v) => {
                            return Ok(Signal::Return(v));
                        },
                        Signal::Throw(v) => {
                            return Ok(Signal::Throw(v));
                        },
                        _ => {},
                    }
                    i = i + 1;
                }
            },
            Value::Array(arr) => {
                let mut i: usize = 0;
                while i < arr.len()
                    invariant
                        follows(*old(self), *self),
                        0 <= i <= arr@.len(),
                        decreases_to!(*stmt => **body),
                        *stmt is ForIn,
                        !(*stmt matches Stmt::ForIn(_, _, e, _) && (e is Number || e is Bool || e is Null
                            || e is Undefined || e is Str)),
                    decreases arr.len() - i,
                {
                    self.set_var(name.as_slice(), Value::Number(Double::from_usize(i)));
                    let signal = self.exec_stmt(body)?;
                    match signal {
                        Signal::Break => {
                            break;
                        },
                        Signal::Return(v) => {
                            return Ok(Signal::Return(v));
                        },
                        Signal::Throw(v) => {
                            return Ok(Signal::Throw(v));
                        },
                        _ => {},
                    }
                    i = i + 1;
                }
            },
            _ => {},
        }
        Ok(Signal::Normal)
    }

    fn exec_for_of(&mut self, stmt: &Stmt) -> (r: Result<Signal, Vec<char>>)
        requires
            old(self).wf(),
        ensures
            follows(*old(self), *final(self)),
            r matches Ok(sig) ==> !(sig is Break) && !(sig is Continue),
            !(*stmt is ForOf) || (*stmt matches Stmt::ForOf(_, _, e, _) && (e is Number || e is Bool
                || e is Null || e is Undefined)) ==> r == Ok::<Signal, Vec<char>>(Signal::Normal)
                && *final(self) == *old(self),
        decreases old(self).fuel(), stmt, 1nat,
    {
        let (name, iter_expr, body) = match stmt {
            Stmt::ForOf(_, n, e, b) => (n, e, b),
            _ => {
                return Ok(Signal::Normal);
            },
        };
        let iter = self.eval_expr(iter_expr)?;
        let items: Vec<Value> = match iter {
            Value::Array(arr) => arr,
            Value::Str(s) => chars_as_values(&s),
            _ => Vec::new(),
        };
        let mut i: usize = 0;
        while i < items.len()
            invariant
                follows(*old(self), *self),
                0 <= i <= items@.len(),
                *stmt is ForOf,
                (*stmt matches Stmt::ForOf(_, _, e, _) && (e is Number || e is Bool || e is Null
                    || e is Undefined)) ==> items@.len() == 0 && *self == *old(self),
                decreases_to!(*stmt => **body),
            decreases items.len() - i,
        {
            self.set_var(name.as_slice(), clone_value(&items[i]));
            let signal = self.exec_stmt(body)?;
            match signal {
                Signal::Break => {
                    break;
                },
                Signal::Return(v) => {
                    return Ok(Signal::Return(v));
                },
                Signal::Throw(v) => {
                    return Ok(Signal::Throw(v));
                },
                _ => {},
            }
            i = i + 1;
        }
        Ok(Signal::Normal)
    }

    fn exec_switch(&mut self, stmt: &Stmt) -> (r: Result<Signal, Vec<char>>)
        requires
            old(self).wf(),
        ensures
            follows(*old(self), *final(self)),
            r matches Ok(sig) ==> !(sig is Break),
            !(*stmt is Switch) || (*stmt matches Stmt::Switch(d, c) && c@.len() == 0 && (d is Number
                || d is Bool || d is Null || d is Undefined)) ==> r == Ok::<Signal, Vec<char>>(
                Signal::Normal,
            ) && *final(self) == *old(self),
            *stmt is Switch ==> (simple_effect(old(self).scopes@, (old(self).output@, old(self).cookie@), *stmt) matches Some(
                (o, ob),
            ) ==> r == Ok::<Signal, Vec<char>>(Signal::Normal) && final(self).output@ == o.0
                && final(self).cookie@ == o.1 && agree_except_doc(old(self).scopes@, final(self).scopes@)
                && final(self).rng_state == old(self).rng_state),
        decreases old(self).fuel(), stmt, 1nat,
    {
        let (disc, cases) = match stmt {
            Stmt::Switch(d, c) => (d, c),
            _ => {
                return Ok(Signal::Normal);
            },
        };
        let ghost sc = self.scopes@;
        let ghost st0 = (self.output@, self.cookie@);
        let ghost good = simple_effect(sc, st0, *stmt) is Some;
        let ghost pv = pure_value(sc, *disc);
        let disc_val = self.eval_expr(disc)?;
        let ghost v = pv->0;
        let ghost total = if good {
            (simple_effect(sc, st0, *stmt)->0).0
        } else {
            st0
        };
        proof {
            if good {
                lemma_switch_no_break(sc, st0, v, cases@);
                assert(simple_effect(sc, st0, *stmt) == switch_effect(sc, st0, v, cases@));
            }
        }
        let mut matched = false;
        let mut fell_through = false;
        let mut i: usize = 0;
        while i < cases.len()
            invariant
                follows(*old(self), *self),
                0 <= i <= cases@.len(),
                decreases_to!(*stmt => *cases),
                *stmt is Switch,
                *stmt == Stmt::Switch(*disc, *cases),
                (*stmt matches Stmt::Switch(d, c) && c@.len() == 0 && (d is Number || d is Bool
                    || d is Null || d is Undefined)) ==> *self == *old(self) && cases@.len() == 0,
                sc == old(self).scopes@,
                st0 == (old(self).output@, old(self).cookie@),
                good == (simple_effect(sc, st0, *stmt) is Some),
                good ==> simple_effect(sc, st0, *stmt) == Some((total, false)),
                good ==> pv is Some && v == pv->0 && tests_pure(sc, cases@) && equiv(v, disc_val)
                    && switch_effect(sc, st0, v, cases@) == Some((total, false)),
                good && !matched && !fell_through ==> *self == *old(self) && first_match(sc, v, cases@, 0)
                    == first_match(sc, v, cases@, i as int),
                good && (matched || fell_through) ==> run_bodies(
                    sc,
                    (self.output@, self.cookie@),
                    cases@,
                    i as int,
                ) == Some((total, false)) && agree_except_doc(sc, self.scopes@) && self.rng_state
                    == old(self).rng_state,
            decreases cases.len() - i,
        {
            proof {
                assert(decreases_to!(*cases => cases@));
                assert(decreases_to!(cases@ => cases@[i as int]));
                assert(decreases_to!(cases@[i as int] => cases@[i as int].test));
                assert(decreases_to!(cases@[i as int] => cases@[i as int].body));
            }
            let case = &cases[i];
            if !matched && !fell_through {
                match &case.test {
                    Some(test) => {
                        let ghost tv = pure_value(sc, *test);
                        let test_val = self.eval_expr(test)?;
                        proof {
                            if good {
                                assert(cases@[i as int].test matches Some(t) ==> pure_value(sc, t) is Some);
                                lemma_equiv_same_reading(v, disc_val, tv->0, test_val);
                            }
                        }
                        if disc_val.strict_eq(&test_val) {
                            matched = true;
                        }
                    },
                    None => {},
                }
                proof {
                    if good && !matched {
                        assert(!case_matches(sc, v, cases@[i as int]));
                    }
                    if good && matched {
                        assert(case_matches(sc, v, cases@[i as int]));
                        assert(first_match(sc, v, cases@, i as int) == Some(i as int));
                        assert(first_match(sc, v, cases@, 0) == Some(i as int));
                        assert(run_bodies(sc, st0, cases@, i as int) == Some((total, false)));
                        assert(st0 == (self.output@, self.cookie@));
                    }
                }
            }
            if matched || fell_through {
                proof {
                    if good {
                        lemma_agree_same_pure(sc, self.scopes@);
                        lemma_same_seq(sc, self.scopes@, (self.output@, self.cookie@), cases@[i as int].body@);
                    }
                }
                let ghost before = self.scopes@;
                let ghost st_i = (self.output@, self.cookie@);
                proof {
                    if good {
                        assert(run_bodies(sc, st_i, cases@, i as int) == Some((total, false)));
                        assert(simple_seq(sc, st_i, cases@[i as int].body@) is Some);
                    }
                }
                let signal = self.exec_block(&case.body)?;
                proof {
                    if good {
                        lemma_agree_trans(sc, before, self.scopes@);
                        let res = simple_seq(sc, st_i, cases@[i as int].body@)->0;
                        assert(res.0 == (self.output@, self.cookie@));
                        if res.1 {
                            assert(total == (self.output@, self.cookie@));
                        } else {
                            assert(run_bodies(sc, (self.output@, self.cookie@), cases@, i + 1)
                                == Some((total, false)));
                        }
                    }
                }
                match signal {
                    Signal::Break => {
                        return Ok(Signal::Normal);
                    },
                    Signal::Normal => {
                        fell_through = true;
                    },
                    other => {
                        return Ok(other);
                    },
                }
            }
            i = i + 1;
        }
        if !matched && !fell_through {
            let mut j: usize = 0;
            while j < cases.len()
                invariant
                    follows(*old(self), *self),
                    0 <= j <= cases@.len(),
                    decreases_to!(*stmt => *cases),
                    *stmt is Switch,
                (*stmt matches Stmt::Switch(d, c) && c@.len() == 0 && (d is Number || d is Bool
                        || d is Null || d is Undefined)) ==> *self == *old(self) && cases@.len() == 0,
                    sc == old(self).scopes@,
                    st0 == (old(self).output@, old(self).cookie@),
                    good == (simple_effect(sc, st0, *stmt) is Some),
                    good ==> simple_effect(sc, st0, *stmt) == Some((total, false)),
                    good ==> switch_effect(sc, st0, v, cases@) == Some((total, false)) && first_match(
                        sc,
                        v,
                        cases@,
                        0,
                    ) is None && *self == *old(self) && first_default(cases@, 0) == first_default(
                        cases@,
                        j as int,
                    ),
                decreases cases.len() - j,
            {
                proof {
                    assert(decreases_to!(*cases => cases@));
                    assert(decreases_to!(cases@ => cases@[j as int]));
                    assert(decreases_to!(cases@[j as int] => cases@[j as int].body));
                }
                if cases[j].test.is_none() {
                    proof {
                        if good {
                            assert(first_default(cases@, j as int) == Some(j as int));
                            assert(first_default(cases@, 0) == Some(j as int));
                            assert(simple_seq(sc, st0, cases@[j as int].body@) is Some);
                            assert((simple_seq(sc, st0, cases@[j as int].body@)->0).0 == total);
                            assert(self.scopes@ == sc);
                            assert((self.output@, self.cookie@) == st0);
                            assert(simple_seq(self.scopes@, (self.output@, self.cookie@), cases@[j as int].body@) is Some);
                        }
                    }
                    let signal = self.exec_block(&cases[j].body)?;
                    return match signal {
                        Signal::Break => Ok(Signal::Normal),
                        other => Ok(other),
                    };
                }
                j = j + 1;
            }
        }
        Ok(Signal::Normal)
    }

    fn exec_try(&mut self, stmt: &Stmt) -> (r: Result<Signal, Vec<char>>)
        requires
            old(self).wf(),
        ensures
            follows(*old(self), *final(self)),
            !(*stmt is TryCatch) || (*stmt matches Stmt::TryCatch(t, _, f) && all_empty_stmts(t@) && (
            f matches Some(fb) ==> all_empty_stmts(fb@))) ==> r == Ok::<Signal, Vec<char>>(
                Signal::Normal,
            ) && *final(self) == *old(self),
            plain_try(old(self).scopes@, (old(self).output@, old(self).cookie@), *stmt) matches Some(o)
                ==> r == Ok::<Signal, Vec<char>>(Signal::Normal) && (final(self).output@,
                final(self).cookie@) == o,
        decreases old(self).fuel(), stmt, 1nat,
    {
        let (try_body, catch, finally) = match stmt {
            Stmt::TryCatch(t, c, f) => (t, c, f),
            _ => {
                return Ok(Signal::Normal);
            },
        };
        let ghost pt = plain_try(self.scopes@, (self.output@, self.cookie@), *stmt);
        let ghost st0 = (self.output@, self.cookie@);
        proof {
            if plain_body(try_body@) {
                lemma_plain_body(self.scopes@, st0, try_body@);
            }
        }
        let result = self.exec_block(try_body);
        let ghost mid = (self.output@, self.cookie@);
        let needs_catch = match &result {
            Ok(Signal::Throw(_)) => true,
            Err(_) => true,
            _ => false,
        };
        let signal = if needs_catch && catch.is_some() {
            let (param, catch_body) = match catch {
                Some(c) => (&c.0, &c.1),
                None => {
                    return Ok(Signal::Normal);
                },
            };
            self.push_scope();
            let thrown = match result {
                Ok(Signal::Throw(v)) => v,
                Err(e) => Value::Str(e),
                _ => Value::Undefined,
            };
            match param {
                Some(name) => {
                    self.set_var(name.as_slice(), thrown);
                },
                None => {},
            }
            proof {
                if plain_body(catch_body@) {
                    lemma_plain_body(self.scopes@, (self.output@, self.cookie@), catch_body@);
                }
            }
            let sig = self.exec_block(catch_body);
            self.pop_scope();
            sig?
        } else {
            match result {
                Ok(s) => s,
                Err(e) => {
                    match finally {
                        Some(finally_body) => {
                            let _ = self.exec_block(finally_body);
                        },
                        None => {},
                    }
                    return Err(e);
                },
            }
        };
        let ghost before_fin = (self.output@, self.cookie@);
        match finally {
            Some(finally_body) => {
                proof {
                    if plain_body(finally_body@) {
                        lemma_plain_body(self.scopes@, before_fin, finally_body@);
                    }
                }
                let _ = self.exec_block(finally_body);
            },
            None => {},
        }
        Ok(signal)
    }

    // -------------------------------------------------------------------
    // Expressions
    // -------------------------------------------------------------------

    pub fn eval_expr(&mut self, expr: &Expr) -> (r: Result<Value, Vec<char>>)
        requires
            old(self).wf(),
        ensures
            follows(*old(self), *final(self)),
            *expr matches Expr::Number(n) ==> r == Ok::<Value, Vec<char>>(Value::Number(n))
                && *final(self) == *old(self),
            *expr matches Expr::Bool(b) ==> r == Ok::<Value, Vec<char>>(Value::Bool(b))
                && *final(self) == *old(self),
            *expr is Null ==> r == Ok::<Value, Vec<char>>(Value::Null) && *final(self) == *old(self),
            *expr is Undefined || *expr is This ==> r == Ok::<Value, Vec<char>>(Value::Undefined)
                && *final(self) == *old(self),
            *expr matches Expr::Str(s) ==> (r matches Ok(Value::Str(v)) && v@ == s@) && *final(self)
                == *old(self),
            *expr is Spread ==> r is Err && *final(self) == *old(self),
            *expr is Typeof ==> (r matches Ok(v) ==> v is Str),
            *expr is Void ==> (r matches Ok(v) ==> v is Undefined),
            *expr is Delete ==> (r matches Ok(v) ==> v == Value::Bool(true)),
            *expr is Postfix ==> (r matches Ok(v) ==> v is Number),
            *expr matches Expr::Ident(name) ==> *final(self) == *old(self) && (r matches Ok(v) && (
            scope_lookup(old(self).scopes@, name@) matches Some(w) ==> equiv(w, v)) && (
            scope_lookup(old(self).scopes@, name@) is None ==> v is Undefined)),
            *expr matches Expr::Assign(target, op, _) ==> (op is Assign && *target is Ident ==> (
            r matches Ok(v) ==> (scope_lookup(final(self).scopes@, target->Ident_0@) matches Some(
                w,
            ) && equiv(v, w)))),
            is_cookie_assignment(*expr) ==> (r matches Ok(Value::Str(v)) ==> seq_ends_with(
                final(self).cookie@,
                spec_cookie_part(v@),
            )),
            pure_value(old(self).scopes@, *expr) matches Some(v) ==> *final(self) == *old(self) && (
            r matches Ok(w) && equiv(v, w)),
            console_effect(old(self).scopes@, *expr) matches Some(line) ==> r == Ok::<Value, Vec<char>>(
                Value::Undefined,
            ) && final(self).output@ == old(self).output@ + line && final(self).cookie == old(
                self,
            ).cookie && final(self).scopes == old(self).scopes && final(self).rng_state == old(
                self,
            ).rng_state,
            cookie_effect(old(self).scopes@, *expr) matches Some(v) ==> r is Ok && final(self).cookie@
                == spec_cookie_append(old(self).cookie@, v) && final(self).output == old(self).output
                && agree_except_doc(old(self).scopes@, final(self).scopes@) && final(self).rng_state
                == old(self).rng_state,
        decreases old(self).fuel(), expr, 10nat,
    {
        match expr {
            Expr::Number(n) => Ok(Value::Number(*n)),
            Expr::Str(s) => Ok(Value::Str(clone_chars(s))),
            Expr::Bool(b) => Ok(Value::Bool(*b)),
            Expr::Null => Ok(Value::Null),
            Expr::Undefined => Ok(Value::Undefined),
            Expr::This => Ok(Value::Undefined),
            Expr::Ident(name) => match self.get_var(name.as_slice()) {
                Some(v) => Ok(v),
                None => Ok(Value::Undefined),
            },
            Expr::TemplateLiteral(parts) => self.eval_template(parts),
            Expr::Array(elements) => self.eval_array_literal(elements),
            Expr::Object(props) => self.eval_object_literal(props),
            Expr::Binary(..) => self.eval_binary(expr),
            Expr::Unary(op, inner) => {
                let ghost pv = pure_value(self.scopes@, **inner);
                let val = self.eval_expr(inner)?;
                proof {
                    if pv is Some {
                        lemma_equiv_same_reading(pv->0, val, pv->0, val);
                    }
                }
                Ok(
                    match op {
                        UnaryOp::Neg => Value::Number(val.to_number().neg()),
                        UnaryOp::Pos => Value::Number(val.to_number()),
                        UnaryOp::Not => Value::Bool(!val.is_truthy()),
                        UnaryOp::BitNot => Value::Number(Double::from_i64((!val.to_i32()) as i64)),
                        UnaryOp::Typeof => Value::Str(str_to_chars(val.type_of())),
                        UnaryOp::Void => Value::Undefined,
                        UnaryOp::Delete => Value::Bool(true),
                    },
                )
            },
            Expr::Typeof(inner) => {
                let val = self.eval_expr(inner)?;
                Ok(Value::Str(str_to_chars(val.type_of())))
            },
            Expr::Void(inner) => {
                self.eval_expr(inner)?;
                Ok(Value::Undefined)
            },
            Expr::Delete(inner) => {
                self.eval_expr(inner)?;
                Ok(Value::Bool(true))
            },
            Expr::Postfix(inner, op) => {
                let val = self.eval_expr(inner)?;
                let num = val.to_number();
                let one = Double::one();
                let new_val = match op {
                    PostfixOp::Inc => Value::Number(num.add(&one)),
                    PostfixOp::Dec => Value::Number(num.sub(&one)),
                };
                self.assign_to(inner, new_val)?;
                Ok(Value::Number(num))
            },
            Expr::Assign(..) => self.eval_assign(expr),
            Expr::Member(obj, prop) => {
                let obj_val = self.eval_expr(obj)?;
                self.get_property(&obj_val, prop.as_slice())
            },
            Expr::OptionalMember(obj, prop) => {
                let obj_val = self.eval_expr(obj)?;
                if matches!(obj_val, Value::Null | Value::Undefined) {
                    return Ok(Value::Undefined);
                }
                self.get_property(&obj_val, prop.as_slice())
            },
            Expr::Index(obj, idx) => {
                let obj_val = self.eval_expr(obj)?;
                let idx_val = self.eval_expr(idx)?;
                let key = idx_val.to_string_val();
                self.get_property(&obj_val, key.as_slice())
            },
            Expr::Call(..) => self.eval_call(expr),
            Expr::New(..) => self.eval_new(expr),
            Expr::Ternary(cond, then, else_expr) => {
                let ghost pv = pure_value(self.scopes@, **cond);
                let val = self.eval_expr(cond)?;
                proof {
                    if pv is Some {
                        lemma_equiv_same_reading(pv->0, val, pv->0, val);
                    }
                }
                if val.is_truthy() {
                    self.eval_expr(then)
                } else {
                    self.eval_expr(else_expr)
                }
            },
            Expr::Arrow(params, body) => {
                let closure = self.capture_scope();
                let stmts: Vec<Stmt> = match &**body {
                    Stmt::Block(stmts) => clone_stmts(stmts),
                    Stmt::Return(Some(e)) => vec![Stmt::Return(Some(clone_expr(e)))],
                    other => vec![clone_stmt(other)],
                };
                Ok(
                    Value::Function(
                        JsFunction { name: None, params: clone_names(params), body: stmts, closure },
                    ),
                )
            },
            Expr::FunctionExpr(name, params, body) => {
                let closure = self.capture_scope();
                Ok(
                    Value::Function(
                        JsFunction {
                            name: clone_opt_chars(name),
                            params: clone_names(params),
                            body: clone_stmts(body),
                            closure,
                        },
                    ),
                )
            },
            Expr::Regex(pattern, flags) => Ok(Value::Regex(clone_chars(pattern), clone_chars(flags))),
            Expr::Sequence(exprs) => self.eval_sequence(exprs),
            Expr::Spread(_) => Err(lit("spread not supported in this context")),
        }
    }

    fn eval_template(&mut self, parts: &Vec<TemplateExprPart>) -> (r: Result<Value, Vec<char>>)
        requires
            old(self).wf(),
        ensures
            follows(*old(self), *final(self)),
            r matches Ok(v) ==> v is Str,
            all_text_template(parts@) ==> *final(self) == *old(self) && (r matches Ok(Value::Str(t))
                && t@ == template_text(parts@)),
        decreases old(self).fuel(), parts, 0nat,
    {
        let mut result: Vec<char> = Vec::new();
        let mut i: usize = 0;
        while i < parts.len()
            invariant
                follows(*old(self), *self),
                0 <= i <= parts@.len(),
                all_text_template(parts@) ==> *self == *old(self) && result@ == template_text(
                    parts@.take(i as int),
                ),
            decreases parts.len() - i,
        {
            proof {
                assert(decreases_to!(parts => parts@));
                assert(decreases_to!(parts@ => parts@[i as int]));
            }
            proof {
                assert(parts@.take(i + 1).drop_last() =~= parts@.take(i as int));
            }
            match &parts[i] {
                TemplateExprPart::Str(s) => push_all(&mut result, s.as_slice()),
                TemplateExprPart::Expr(e) => {
                    let val = self.eval_expr(e)?;
                    let s = val.to_string_val();
                    push_all(&mut result, s.as_slice());
                },
            }
            i = i + 1;
        }
        assert(parts@.take(parts@.len() as int) =~= parts@);
        Ok(Value::Str(result))
    }

    fn eval_array_literal(&mut self, elements: &Vec<Expr>) -> (r: Result<Value, Vec<char>>)
        requires
            old(self).wf(),
        ensures
            follows(*old(self), *final(self)),
            all_literal(elements@) ==> *final(self) == *old(self) && (r matches Ok(Value::Array(v))
                && literal_values(elements@, v@)),
        decreases old(self).fuel(), elements, 0nat,
    {
        let mut arr: Vec<Value> = Vec::new();
        let mut i: usize = 0;
        while i < elements.len()
            invariant
                follows(*old(self), *self),
                0 <= i <= elements@.len(),
                all_literal(elements@) ==> *self == *old(self) && literal_values(elements@.take(i as int), arr@),
            decreases elements.len() - i,
        {
            proof {
                assert(decreases_to!(elements => elements@));
                assert(decreases_to!(elements@ => elements@[i as int]));
                if all_literal(elements@) {
                    assert(is_literal_expr(elements@[i as int]));
                    assert(elements@.take(i + 1).drop_last() =~= elements@.take(i as int));
                }
            }
            match &elements[i] {
                Expr::Spread(inner) => {
                    let val = self.eval_expr(inner)?;
                    match val {
                        Value::Array(mut items) => arr.append(&mut items),
                        other => arr.push(other),
                    }
                },
                el => {
                    let v = self.eval_expr(el)?;
                    arr.push(v);
                },
            }
            i = i + 1;
        }
        assert(elements@.take(elements@.len() as int) =~= elements@);
        Ok(Value::Array(arr))
    }

    fn eval_object_literal(&mut self, props: &Vec<(PropKey, Expr)>) -> (r: Result<
        Value,
        Vec<char>,
    >)
        requires
            old(self).wf(),
        ensures
            follows(*old(self), *final(self)),
            r matches Ok(v) ==> v is Object,
            props@.len() == 0 ==> *final(self) == *old(self) && (r matches Ok(Value::Object(m))
                && m.seq().len() == 0),
        decreases old(self).fuel(), props, 0nat,
    {
        let mut map = PropMap::new();
        let mut i: usize = 0;
        while i < props.len()
            invariant
                follows(*old(self), *self),
                0 <= i <= props@.len(),
                props@.len() == 0 ==> *self == *old(self) && map.seq().len() == 0,
            decreases props.len() - i,
        {
            proof {
                assert(decreases_to!(props => props@));
                assert(decreases_to!(props@ => props@[i as int]));
                assert(decreases_to!(props@[i as int] => props@[i as int].0));
                assert(decreases_to!(props@[i as int] => props@[i as int].1));
            }
            let key_str = match &props[i].0 {
                PropKey::Ident(n) => clone_chars(n),
                PropKey::Str(s) => clone_chars(s),
                PropKey::Number(n) => format_number(n),
                PropKey::Computed(e) => {
                    let v = self.eval_expr(e)?;
                    v.to_string_val()
                },
            };
            let val = self.eval_expr(&props[i].1)?;
            map.insert(key_str, val);
            i = i + 1;
        }
        Ok(Value::Object(map))
    }

    fn eval_sequence(&mut self, exprs: &Vec<Expr>) -> (r: Result<Value, Vec<char>>)
        requires
            old(self).wf(),
        ensures
            follows(*old(self), *final(self)),
            all_literal(exprs@) ==> *final(self) == *old(self) && (r matches Ok(v) && (exprs@.len() == 0
                ==> v is Undefined) && (exprs@.len() > 0 ==> literal_value(exprs@.last(), v))),
        decreases old(self).fuel(), exprs, 0nat,
    {
        let mut last = Value::Undefined;
        let mut i: usize = 0;
        while i < exprs.len()
            invariant
                follows(*old(self), *self),
                0 <= i <= exprs@.len(),
                all_literal(exprs@) ==> *self == *old(self) && (i == 0 ==> last is Undefined) && (i > 0
                    ==> literal_value(exprs@[i - 1], last)),
            decreases exprs.len() - i,
        {
            proof {
                assert(decreases_to!(exprs => exprs@));
                assert(decreases_to!(exprs@ => exprs@[i as int]));
                if all_literal(exprs@) {
                    assert(is_literal_expr(exprs@[i as int]));
                    assert(exprs@.take(i + 1).drop_last() =~= exprs@.take(i as int));
                }
            }
            last = self.eval_expr(&exprs[i])?;
            i = i + 1;
        }
        Ok(last)
    }

    fn eval_binary(&mut self, expr: &Expr) -> (r: Result<Value, Vec<char>>)
        requires
            old(self).wf(),
        ensures
            follows(*old(self), *final(self)),
            !(*expr is Binary) ==> r == Ok::<Value, Vec<char>>(Value::Undefined) && *final(self)
                == *old(self),
            *expr matches Expr::Binary(l, op, rr) ==> (!(op is And || op is Or || op is NullishCoalesce)
                ==> (*l matches Expr::Number(a) ==> (*rr matches Expr::Number(b) ==> *final(self)
                == *old(self) && spec_number_binop(op, a, b, r)))),
            *expr matches Expr::Binary(l, op, rr) ==> (op is Add ==> (*l matches Expr::Str(a) ==> (
            *rr matches Expr::Str(b) ==> *final(self) == *old(self) && (r matches Ok(Value::Str(c))
                && c@ == a@ + b@)))),
            *expr matches Expr::Binary(l, op, _) ==> (op is And && *l == Expr::Bool(false) ==> r
                == Ok::<Value, Vec<char>>(Value::Bool(false)) && *final(self) == *old(self)),
            *expr matches Expr::Binary(l, op, _) ==> (op is Or && *l == Expr::Bool(true) ==> r
                == Ok::<Value, Vec<char>>(Value::Bool(true)) && *final(self) == *old(self)),
            *expr matches Expr::Binary(l, op, _) ==> (op is NullishCoalesce ==> (*l matches Expr::Number(
                n,
            ) ==> r == Ok::<Value, Vec<char>>(Value::Number(n)) && *final(self) == *old(self))),
            *expr is Binary ==> (pure_value(old(self).scopes@, *expr) matches Some(v) ==> *final(self)
                == *old(self) && (r matches Ok(w) && equiv(v, w))),
        decreases old(self).fuel(), expr, 5nat,
    {
        let (left, op, right) = match expr {
            Expr::Binary(l, o, r) => (l, *o, r),
            _ => {
                return Ok(Value::Undefined);
            },
        };
        match op {
            BinOp::And => {
                let ghost pl = pure_value(self.scopes@, **left);
                let l = self.eval_expr(left)?;
                proof {
                    if pl is Some {
                        lemma_equiv_same_reading(pl->0, l, pl->0, l);
                    }
                }
                if !l.is_truthy() {
                    return Ok(l);
                }
                return self.eval_expr(right);
            },
            BinOp::Or => {
                let ghost pl = pure_value(self.scopes@, **left);
                let l = self.eval_expr(left)?;
                proof {
                    if pl is Some {
                        lemma_equiv_same_reading(pl->0, l, pl->0, l);
                    }
                }
                if l.is_truthy() {
                    return Ok(l);
                }
                return self.eval_expr(right);
            },
            BinOp::NullishCoalesce => {
                let ghost pl = pure_value(self.scopes@, **left);
                let l = self.eval_expr(left)?;
                proof {
                    if pl is Some {
                        lemma_equiv_same_reading(pl->0, l, pl->0, l);
                    }
                }
                if !matches!(l, Value::Null | Value::Undefined) {
                    return Ok(l);
                }
                return self.eval_expr(right);
            },
            _ => {},
        }
        let ghost pl = pure_value(self.scopes@, **left);
        let l = self.eval_expr(left)?;
        let ghost pr = pure_value(self.scopes@, **right);
        let r = self.eval_expr(right)?;
        proof {
            if pl is Some && pr is Some {
                lemma_equiv_same_reading(pl->0, l, pr->0, r);
            }
        }
        let res = self.eval_binop(&l, op, &r);
        proof {
            if pl is Some && pr is Some && (op is Add || op is Sub || op is Mul || op is Div)
                && pl->0 is Number && pr->0 is Number {
                let x = pl->0->Number_0;
                let y = pr->0->Number_0;
                assert(l == Value::Number(x) && r == Value::Number(y));
                if safe_value(x) is Some && safe_value(y) is Some {
                    let i = safe_value(x)->0;
                    let j = safe_value(y)->0;
                    assert(spec_safe_int(x, i) && spec_safe_int(y, j));
                    let v = int_arith(op, i, j);
                    if (op is Div ==> j != 0 && i % j == 0) && -safe_limit() < v < safe_limit() && v
                        != 0 {
                        let d = res->Ok_0->Number_0;
                        lemma_int_double_of(d, v);
                    }
                }
            }
        }
        res
    }

    fn eval_assign(&mut self, expr: &Expr) -> (r: Result<Value, Vec<char>>)
        requires
            old(self).wf(),
        ensures
            follows(*old(self), *final(self)),
            *expr matches Expr::Assign(target, op, _) ==> (op is Assign && *target is Ident ==> (
            r matches Ok(v) ==> (scope_lookup(final(self).scopes@, target->Ident_0@) matches Some(
                w,
            ) && equiv(v, w)))),
            is_cookie_assignment(*expr) ==> (r matches Ok(Value::Str(v)) ==> seq_ends_with(
                final(self).cookie@,
                spec_cookie_part(v@),
            )),
            !(*expr is Assign) ==> r == Ok::<Value, Vec<char>>(Value::Undefined) && *final(self)
                == *old(self),
            *expr matches Expr::Assign(target, op, value) ==> (op is Assign && *target is Ident
                && is_literal_expr(*value) ==> (r matches Ok(v) && literal_value(*value, v))),
            cookie_effect(old(self).scopes@, *expr) matches Some(v) ==> r is Ok && final(self).cookie@
                == spec_cookie_append(old(self).cookie@, v) && final(self).output == old(self).output
                && agree_except_doc(old(self).scopes@, final(self).scopes@) && final(self).rng_state
                == old(self).rng_state,
        decreases old(self).fuel(), expr, 5nat,
    {
        let (target, op, value) = match expr {
            Expr::Assign(t, o, v) => (t, *o, v),
            _ => {
                return Ok(Value::Undefined);
            },
        };
        let rhs = self.eval_expr(value)?;
        let final_val = match op {
            AssignOp::Assign => rhs,
            _ => {
                let lhs = self.eval_expr(target)?;
                let bop = match op {
                    AssignOp::AddAssign => BinOp::Add,
                    AssignOp::SubAssign => BinOp::Sub,
                    AssignOp::MulAssign => BinOp::Mul,
                    AssignOp::DivAssign => BinOp::Div,
                    AssignOp::ModAssign => BinOp::Mod,
                    AssignOp::BitAndAssign => BinOp::BitAnd,
                    AssignOp::BitOrAssign => BinOp::BitOr,
                    AssignOp::BitXorAssign => BinOp::BitXor,
                    AssignOp::ShlAssign => BinOp::Shl,
                    AssignOp::ShrAssign => BinOp::Shr,
                    _ => BinOp::Ushr,
                };
                self.eval_binop(&lhs, bop, &rhs)?
            },
        };
        let copy = clone_value(&final_val);
        let ghost stored = copy;
        self.assign_to(target, copy)?;
        proof {
            let tg: Expr = **target;
            if tg is Ident {
                let w = scope_lookup(self.scopes@, tg->Ident_0@)->0;
                crate::value::lemma_equiv_trans(final_val, stored, w);
            }
            if is_cookie_assignment(*expr) {
                if let Value::Str(v) = stored {
                    let c = self.cookie@;
                    let p = spec_cookie_part(v@);
                    assert(c.subrange(c.len() - p.len(), c.len() as int) =~= p);
                }
            }
        }
        Ok(final_val)
    }

    fn assign_to(&mut self, target: &Expr, val: Value) -> (r: Result<(), Vec<char>>)
        requires
            old(self).wf(),
        ensures
            follows(*old(self), *final(self)),
            *target matches Expr::Ident(name) ==> r is Ok && (scope_lookup(
                final(self).scopes@,
                name@,
            ) matches Some(w) && equiv(val, w)),
            *target matches Expr::Member(obj, prop) ==> (*obj matches Expr::Ident(n) ==> (n@
                == "document"@ && prop@ == "cookie"@ ==> r is Ok && (val matches Value::Str(v)
                ==> final(self).cookie@ == spec_cookie_append(old(self).cookie@, v@))
                && final(self).output == old(self).output && agree_except_doc(old(self).scopes@,
                final(self).scopes@) && final(self).rng_state == old(self).rng_state)),
        decreases old(self).fuel(), target, 11nat,
    {
        match target {
            Expr::Ident(name) => {
                let copy = clone_value(&val);
                if !self.update_var(name.as_slice(), copy) {
                    proof {
                        crate::value::lemma_equiv_refl(val);
                    }
                    self.set_var(name.as_slice(), val);
                }
                Ok(())
            },
            Expr::Member(obj_expr, prop) => self.set_object_property(obj_expr, prop.as_slice(), val),
            Expr::Index(obj_expr, idx_expr) => {
                let idx = self.eval_expr(idx_expr)?;
                let key = idx.to_string_val();
                self.set_object_property(obj_expr, key.as_slice(), val)
            },
            _ => Err(lit("invalid assignment target")),
        }
    }

    fn set_object_property(&mut self, obj_expr: &Expr, prop: &[char], val: Value) -> (r: Result<
        (),
        Vec<char>,
    >)
        requires
            old(self).wf(),
        ensures
            follows(*old(self), *final(self)),
            *obj_expr matches Expr::Ident(n) ==> (n@ == "document"@ && prop@ == "cookie"@ ==> r is Ok
                && (val matches Value::Str(v) ==> final(self).cookie@ == spec_cookie_append(
                old(self).cookie@,
                v@,
            )) && (!(val is Str) ==> final(self).cookie@ == old(self).cookie@) && final(self).output
                == old(self).output && agree_except_doc(old(self).scopes@, final(self).scopes@)
                && final(self).rng_state == old(self).rng_state),
        decreases old(self).fuel(), obj_expr, 12nat,
    {
        if let Expr::Ident(name) = obj_expr {
            if eq_str(name.as_slice(), "document") && eq_str(prop, "cookie") {
                if let Value::Str(s) = &val {
                    let part = cookie_part(s);
                    let ghost before = self.cookie@;
                    if self.cookie.len() > 0 {
                        push_str(&mut self.cookie, "; ");
                    }
                    push_all(&mut self.cookie, part.as_slice());
                    assert(self.cookie@ =~= spec_cookie_append(before, s@));
                    proof {
                        lemma_cookie_append_separated(before, s@);
                    }
                }
                let ghost after_cookie = self.cookie@;
                let doc_name = lit("document");
                match self.get_var(doc_name.as_slice()) {
                    Some(Value::Object(mut map)) => {
                        map.insert(lit("cookie"), Value::Str(clone_chars(&self.cookie)));
                        self.update_var(doc_name.as_slice(), Value::Object(map));
                    },
                    _ => {},
                }
                assert(self.cookie@ == after_cookie);
                return Ok(());
            }
        }
        let mut obj = self.eval_expr(obj_expr)?;
        match &mut obj {
            Value::Object(map) => {
                let k = slice_range(prop, 0, prop.len());
                map.insert(k, val);
            },
            Value::Array(arr) => {
                match parse_index(prop) {
                    Some(idx) => {
                        while arr.len() <= idx
                            decreases idx + 1 - arr@.len(),
                        {
                            arr.push(Value::Undefined);
                        }
                        arr.set(idx, val);
                    },
                    None => {
                        if eq_str(prop, "length") {
                            if let Value::Number(n) = &val {
                                let new_len = n.to_usize_sat();
                                arr.truncate(new_len);
                            }
                        }
                    },
                }
            },
            _ => {},
        }
        self.assign_to(obj_expr, obj)?;
        Ok(())
    }

    fn get_property(&self, obj: &Value, prop: &[char]) -> (r: Result<Value, Vec<char>>)
        ensures
            r is Ok,
            *obj matches Value::Object(m) ==> (r matches Ok(v) && (m.get_spec(prop@) matches Some(w)
                ==> equiv(w, v)) && (m.get_spec(prop@) is None ==> v is Undefined)),
            *obj matches Value::Array(arr) ==> (prop@ == "length"@ ==> (r matches Ok(Value::Number(x))
                && (arr@.len() < 0x20_0000_0000_0000 ==> spec_is_int_value(x, arr@.len() as int)))),
            *obj matches Value::Str(st) ==> (prop@ == "length"@ ==> (r matches Ok(Value::Number(x)) && (
            encode_utf8(st@).len() < 0x20_0000_0000_0000 ==> spec_is_int_value(
                x,
                encode_utf8(st@).len() as int,
            )))),
            !(*obj is Object || *obj is Array || *obj is Str) ==> r == Ok::<Value, Vec<char>>(
                Value::Undefined,
            ),
    {
        match obj {
            Value::Object(map) => match map.get(prop) {
                Some(v) => Ok(clone_value(v)),
                None => Ok(Value::Undefined),
            },
            Value::Array(arr) => {
                if eq_str(prop, "length") {
                    return Ok(Value::Number(Double::from_usize(arr.len())));
                }
                match parse_index(prop) {
                    Some(idx) => if idx < arr.len() {
                        Ok(clone_value(&arr[idx]))
                    } else {
                        Ok(Value::Undefined)
                    },
                    None => Ok(Value::Undefined),
                }
            },
            Value::Str(s) => {
                if eq_str(prop, "length") {
                    let b = crate::builtins::utf8_bytes(s);
                    return Ok(Value::Number(Double::from_usize(b.len())));
                }
                match parse_index(prop) {
                    Some(idx) => if idx < s.len() {
                        Ok(Value::Str(crate::text::char_to_string(s[idx])))
                    } else {
                        Ok(Value::Undefined)
                    },
                    None => Ok(Value::Undefined),
                }
            },
            _ => Ok(Value::Undefined),
        }
    }

    // -------------------------------------------------------------------
    // Calls
    // -------------------------------------------------------------------

    fn eval_args(&mut self, arg_exprs: &Vec<Expr>) -> (r: Result<Vec<Value>, Vec<char>>)
        requires
            old(self).wf(),
        ensures
            follows(*old(self), *final(self)),
            all_literal(arg_exprs@) ==> *final(self) == *old(self) && (r matches Ok(v) && literal_values(
                arg_exprs@,
                v@,
            )),
            all_pure(old(self).scopes@, arg_exprs@) ==> *final(self) == *old(self) && (r matches Ok(v)
                && v@.len() == arg_exprs@.len() && forall|j: int|
                0 <= j < v@.len() ==> equiv(#[trigger] pure_vals(old(self).scopes@, arg_exprs@)[j], v@[j])),
        decreases old(self).fuel(), arg_exprs, 0nat,
    {
        let mut args: Vec<Value> = Vec::new();
        let mut i: usize = 0;
        while i < arg_exprs.len()
            invariant
                follows(*old(self), *self),
                0 <= i <= arg_exprs@.len(),
                all_literal(arg_exprs@) ==> *self == *old(self) && literal_values(arg_exprs@.take(i as int), args@),
                all_pure(old(self).scopes@, arg_exprs@) ==> *self == *old(self) && args@.len() == i
                    && forall|j: int|
                    0 <= j < i ==> equiv(#[trigger] pure_vals(old(self).scopes@, arg_exprs@)[j], args@[j]),
            decreases arg_exprs.len() - i,
        {
            proof {
                if all_pure(old(self).scopes@, arg_exprs@) {
                    assert(pure_value(old(self).scopes@, arg_exprs@[i as int]) is Some);
                }
            }
            proof {
                assert(decreases_to!(arg_exprs => arg_exprs@));
                assert(decreases_to!(arg_exprs@ => arg_exprs@[i as int]));
                if all_literal(arg_exprs@) {
                    assert(is_literal_expr(arg_exprs@[i as int]));
                    assert(arg_exprs@.take(i + 1).drop_last() =~= arg_exprs@.take(i as int));
                }
            }
            match &arg_exprs[i] {
                Expr::Spread(inner) => {
                    let val = self.eval_expr(inner)?;
                    match val {
                        Value::Array(mut items) => args.append(&mut items),
                        other => args.push(other),
                    }
                },
                a => {
                    let v = self.eval_expr(a)?;
                    args.push(v);
                },
            }
            i = i + 1;
        }
        assert(arg_exprs@.take(arg_exprs@.len() as int) =~= arg_exprs@);
        Ok(args)
    }

    fn eval_call(&mut self, expr: &Expr) -> (r: Result<Value, Vec<char>>)
        requires
            old(self).wf(),
        ensures
            follows(*old(self), *final(self)),
            !(*expr is Call) ==> r == Ok::<Value, Vec<char>>(Value::Undefined) && *final(self)
                == *old(self),
            console_effect(old(self).scopes@, *expr) matches Some(line) ==> r == Ok::<Value, Vec<char>>(
                Value::Undefined,
            ) && final(self).output@ == old(self).output@ + line && final(self).cookie == old(
                self,
            ).cookie && final(self).scopes == old(self).scopes && final(self).rng_state == old(
                self,
            ).rng_state,
        decreases old(self).fuel(), expr, 7nat,
    {
        let (callee, arg_exprs) = match expr {
            Expr::Call(c, a) => (c, a),
            _ => {
                return Ok(Value::Undefined);
            },
        };
        let ghost pv = pure_vals(self.scopes@, arg_exprs@);
        let args = self.eval_args(arg_exprs)?;
        proof {
            if console_effect(old(self).scopes@, *expr) is Some {
                crate::value::lemma_string_forms_equiv(pv, args@);
            }
        }
        match &**callee {
            Expr::Member(obj, method) => {
                if let Expr::Ident(obj_name) = &**obj {
                    return self.eval_method_call(
                        obj_name.as_slice(),
                        method.as_slice(),
                        &args,
                        Ghost(*expr),
                    );
                }
                let obj_val = self.eval_expr(obj)?;
                return self.eval_value_method_call(&obj_val, method.as_slice(), &args, Ghost(*expr));
            },
            Expr::Ident(name) => {
                return self.eval_global_call(name.as_slice(), &args, Ghost(*expr));
            },
            _ => {},
        }
        let func_val = self.eval_expr(callee)?;
        self.call_function(&func_val, &args, Ghost(*expr))
    }

    fn eval_global_call(&mut self, name: &[char], args: &Vec<Value>, Ghost(node): Ghost<Expr>) -> (r:
        Result<Value, Vec<char>>)
        requires
            old(self).wf(),
        ensures
            follows(*old(self), *final(self)),
            name@ == "btoa"@ ==> *final(self) == *old(self) && (args@.len() > 0 ==> (
            args@[0] matches Value::Str(a) ==> (r matches Ok(Value::Str(t)) && t@ == spec_btoa(
                encode_utf8(a@),
            )))),
            name@ == "atob"@ ==> *final(self) == *old(self) && (args@.len() > 0 ==> (
            args@[0] matches Value::Str(a) ==> (r matches Ok(Value::Str(t)) && (valid_utf8(
                spec_atob_bytes(spec_strip_b64_space(encode_utf8(a@))),
            ) ==> t@ == decode_utf8(spec_atob_bytes(spec_strip_b64_space(encode_utf8(a@)))))))),
            name@ == "encodeURIComponent"@ || name@ == "escape"@ ==> *final(self) == *old(self) && (
            args@.len() > 0 ==> (args@[0] matches Value::Str(a) ==> (r matches Ok(Value::Str(t))
                && t@ == spec_percent_encode(encode_utf8(a@), false)))),
            name@ == "encodeURI"@ ==> *final(self) == *old(self) && (args@.len() > 0 ==> (
            args@[0] matches Value::Str(a) ==> (r matches Ok(Value::Str(t)) && t@
                == spec_percent_encode(encode_utf8(a@), true)))),
            name@ == "decodeURIComponent"@ || name@ == "decodeURI"@ || name@ == "unescape"@
                ==> *final(self) == *old(self) && (args@.len() > 0 ==> (args@[0] matches Value::Str(
                a,
            ) ==> (r matches Ok(Value::Str(t)) && t@ == spec_percent_decode(encode_utf8(a@))))),
            name@ == "String"@ ==> *final(self) == *old(self) && (r matches Ok(Value::Str(t)) && (
            args@.len() == 0 ==> t@.len() == 0) && (args@.len() > 0 ==> (args@[0] matches Value::Str(
                a,
            ) ==> t@ == a@))),
            name@ == "Boolean"@ ==> *final(self) == *old(self) && r == Ok::<Value, Vec<char>>(
                Value::Bool(args@.len() > 0 && spec_truthy(args@[0])),
            ),
            name@ == "Number"@ ==> *final(self) == *old(self) && (args@.len() == 0 ==> r
                == Ok::<Value, Vec<char>>(Value::Number(Double { bits: 0 }))) && (args@.len() > 0 ==> (
            args@[0] matches Value::Number(n) ==> r == Ok::<Value, Vec<char>>(Value::Number(n)))),
            name@ == "isNaN"@ ==> *final(self) == *old(self) && (args@.len() > 0 ==> (
            args@[0] matches Value::Number(n) ==> r == Ok::<Value, Vec<char>>(
                Value::Bool(n.is_nan_spec()),
            ))),
            name@ == "clearTimeout"@ || name@ == "clearInterval"@ ==> *final(self) == *old(self) && r
                == Ok::<Value, Vec<char>>(Value::Undefined),
            name@ == "parseInt"@ ==> *final(self) == *old(self) && (str_arg(args@, 0) matches Some(a)
                ==> (r matches Ok(Value::Number(x)) && (args@.len() <= 1 ==> js_parse_int_result(
                a,
                0,
                x,
            )))),
            name@ == "parseFloat"@ ==> *final(self) == *old(self) && (str_arg(args@, 0) matches Some(a)
                ==> (r matches Ok(Value::Number(x)) && float_text_specials(spec_trim(a), x))),
            name@ == "isFinite"@ ==> *final(self) == *old(self) && (args@.len() == 0 ==> r
                == Ok::<Value, Vec<char>>(Value::Bool(false))) && (args@.len() > 0 ==> (
            args@[0] matches Value::Number(n) ==> r == Ok::<Value, Vec<char>>(
                Value::Bool(!n.is_nan_spec() && !n.is_inf_spec()),
            ))),
            name@ == "setTimeout"@ || name@ == "setInterval"@ ==> (r matches Ok(v) ==> (v matches Value::Number(
                x,
            ) && spec_is_int_value(x, 0))) && (!(args@.len() > 0 && args@[0] is Function)
                ==> *final(self) == *old(self) && r is Ok) && (args@.len() > 0 ==> (
            args@[0] matches Value::Function(f) ==> (plain_body(f.body@) && old(self).call_depth
                < MAX_CALL_DEPTH ==> r is Ok && (final(self).output@, final(self).cookie@) == run_plain(
                plain_effects(f.body@),
                (old(self).output@, old(self).cookie@),
            )))),
            name@ == "RegExp"@ ==> *final(self) == *old(self) && (str_arg(args@, 0) matches Some(p)
                ==> (str_arg(args@, 1) matches Some(f) ==> (r matches Ok(Value::Regex(q, g)) && q@ == p
                && g@ == f))),
            !global_function_name(name@) && scope_lookup(old(self).scopes@, name@) is None ==> (r matches Err(
                e,
            ) && e@ == name@ + " is not a function"@) && *final(self) == *old(self),
        decreases old(self).fuel(), node, 6nat,
    {
        proof {
            reveal_strlit("btoa");
            reveal_strlit("atob");
            reveal_strlit("encodeURIComponent");
            reveal_strlit("escape");
            reveal_strlit("encodeURI");
            reveal_strlit("decodeURIComponent");
            reveal_strlit("decodeURI");
            reveal_strlit("unescape");
            reveal_strlit("String");
            reveal_strlit("Boolean");
            reveal_strlit("Number");
            reveal_strlit("isNaN");
            reveal_strlit("clearTimeout");
            reveal_strlit("clearInterval");
            lemma_global_function_names();
            assert("btoa"@.len() == 4 && "atob"@.len() == 4 && "encodeURIComponent"@.len() == 18
                && "escape"@.len() == 6 && "encodeURI"@.len() == 9 && "decodeURIComponent"@.len() == 18
                && "decodeURI"@.len() == 9 && "unescape"@.len() == 8 && "String"@.len() == 6
                && "Boolean"@.len() == 7 && "Number"@.len() == 6 && "isNaN"@.len() == 5
                && "clearTimeout"@.len() == 12 && "clearInterval"@.len() == 13);
            assert("btoa"@[0] != "atob"@[0] && "encodeURIComponent"@[0] != "decodeURIComponent"@[0]
                && "encodeURI"@[0] != "decodeURI"@[0] && "escape"@[0] != "String"@[0] && "escape"@[0]
                != "Number"@[0] && "String"@[0] != "Number"@[0]);
        }
        if eq_str(name, "btoa") {
            Ok(Value::Str(crate::builtins::btoa(&arg_string(args, 0))))
        } else if eq_str(name, "atob") {
            Ok(Value::Str(crate::builtins::atob(&arg_string(args, 0))))
        } else if eq_str(name, "encodeURIComponent") || eq_str(name, "escape") {
            Ok(Value::Str(crate::builtins::encode_uri_component(&arg_string(args, 0))))
        } else if eq_str(name, "encodeURI") {
            Ok(Value::Str(crate::builtins::encode_uri(&arg_string(args, 0))))
        } else if eq_str(name, "decodeURIComponent") || eq_str(name, "decodeURI") || eq_str(
            name,
            "unescape",
        ) {
            Ok(Value::Str(crate::builtins::decode_uri_component(&arg_string(args, 0))))
        } else if eq_str(name, "String") {
            Ok(Value::Str(arg_string(args, 0)))
        } else if eq_str(name, "Boolean") {
            Ok(Value::Bool(args.len() > 0 && args[0].is_truthy()))
        } else if eq_str(name, "Number") {
            Ok(Value::Number(arg_number(args, 0, Double::zero(false))))
        } else if eq_str(name, "isNaN") {
            Ok(Value::Bool(arg_number(args, 0, Double::nan()).is_nan()))
        } else if eq_str(name, "clearTimeout") || eq_str(name, "clearInterval") {
            Ok(Value::Undefined)
        } else if eq_str(name, "parseInt") {
            let s = arg_string(args, 0);
            let radix = if args.len() > 1 {
                args[1].to_number().to_u32_sat()
            } else {
                0
            };
            Ok(Value::Number(crate::builtins::js_parse_int(&s, radix)))
        } else if eq_str(name, "parseFloat") {
            let s = arg_string(args, 0);
            let t = crate::text::trim(s.as_slice());
            Ok(Value::Number(crate::numparse::parse_float_simple(t.as_slice())))
        } else if eq_str(name, "isFinite") {
            Ok(Value::Bool(arg_number(args, 0, Double::nan()).is_finite()))
        } else if eq_str(name, "Array") {
            if args.len() == 1 {
                if let Value::Number(n) = &args[0] {
                    return Ok(Value::Array(undefined_values(n.to_usize_sat())));
                }
            }
            Ok(Value::Array(clone_values(args)))
        } else if eq_str(name, "Object") {
            if args.len() > 0 {
                if let Value::Object(m) = &args[0] {
                    return Ok(Value::Object(clone_map(m)));
                }
            }
            Ok(Value::Object(PropMap::new()))
        } else if eq_str(name, "setTimeout") || eq_str(name, "setInterval") {
            if args.len() > 0 {
                if let Value::Function(_) = &args[0] {
                    let no_args: Vec<Value> = Vec::new();
                    self.call_function(&args[0], &no_args, Ghost(node))?;
                }
            }
            Ok(number(0))
        } else if eq_str(name, "eval") {
            if args.len() > 0 {
                if let Value::Str(code) = &args[0] {
                    return self.eval_code(code, Ghost(node));
                }
            }
            Ok(arg_or_undefined(args, 0))
        } else if eq_str(name, "Date") {
            Ok(Value::Str(lit("Tue Jan 01 2030 00:00:00 GMT+0000")))
        } else if eq_str(name, "RegExp") {
            Ok(Value::Regex(arg_string(args, 0), arg_string(args, 1)))
        } else {
            match self.get_var(name) {
                Some(func) => self.call_function(&func, args, Ghost(node)),
                None => {
                    let mut msg = slice_range(name, 0, name.len());
                    push_str(&mut msg, " is not a function");
                    Err(msg)
                },
            }
        }
    }

    /// `eval(code)`: runs the statements of `code` in the current scope and gives the
    /// value of the last expression statement. It counts as one call towards the depth
    /// limit.
    fn eval_code(&mut self, code: &Vec<char>, Ghost(node): Ghost<Expr>) -> (r: Result<
        Value,
        Vec<char>,
    >)
        requires
            old(self).wf(),
        ensures
            follows(*old(self), *final(self)),
            old(self).call_depth < MAX_CALL_DEPTH && crate::tokenizer::skip_ws_comments(
                encode_utf8(code@),
                0,
            ) >= encode_utf8(code@).len() ==> r == Ok::<Value, Vec<char>>(Value::Undefined)
                && final(self).output == old(self).output && final(self).cookie == old(self).cookie,
        decreases old(self).fuel(), node, 5nat,
    {
        let src = chars_to_string(code);
        let tokens = crate::tokenizer::tokenize(src.as_str())?;
        let ast = crate::parser::parse(tokens)?;
        if self.call_depth >= MAX_CALL_DEPTH {
            return Err(lit("Maximum call stack size exceeded"));
        }
        self.call_depth = self.call_depth + 1;
        let r = self.run_code(&ast);
        self.call_depth = self.call_depth - 1;
        r
    }

    fn run_code(&mut self, ast: &Vec<Stmt>) -> (r: Result<Value, Vec<char>>)
        requires
            old(self).wf(),
        ensures
            follows(*old(self), *final(self)),
            all_empty_stmts(ast@) ==> r == Ok::<Value, Vec<char>>(Value::Undefined) && *final(self)
                == *old(self),
        decreases old(self).fuel(), ast, 1nat,
    {
        let mut last = Value::Undefined;
        let mut i: usize = 0;
        while i < ast.len()
            invariant
                follows(*old(self), *self),
                0 <= i <= ast@.len(),
                all_empty_stmts(ast@) ==> *self == *old(self) && last is Undefined,
            decreases ast.len() - i,
        {
            proof {
                assert(decreases_to!(ast => ast@));
                assert(decreases_to!(ast@ => ast@[i as int]));
            }
            match self.exec_stmt(&ast[i])? {
                Signal::Return(v) => {
                    return Ok(v);
                },
                Signal::Throw(v) => {
                    let mut msg = lit("Uncaught: ");
                    push_all(&mut msg, v.to_string_val().as_slice());
                    return Err(msg);
                },
                _ => {
                    if let Stmt::Expr(e) = &ast[i] {
                        last = self.eval_expr(e)?;
                    }
                },
            }
            i = i + 1;
        }
        Ok(last)
    }

    fn eval_method_call(
        &mut self,
        obj_name: &[char],
        method: &[char],
        args: &Vec<Value>,
        Ghost(node): Ghost<Expr>,
    ) -> (r: Result<Value, Vec<char>>)
        requires
            old(self).wf(),
        ensures
            follows(*old(self), *final(self)),
            obj_name@ == "console"@ && (method@ == "log"@ || method@ == "info"@ || method@ == "warn"@
                || method@ == "error"@ || method@ == "debug"@) ==> r == Ok::<Value, Vec<char>>(
                Value::Undefined,
            ) && final(self).output@.last() == '\n' && (all_strings(args@) ==> final(self).output@
                == old(self).output@ + spec_join(string_views(args@), " "@) + seq!['\n']) && (
            all_formed(args@) ==> final(self).output@ == old(self).output@ + spec_join(
                string_forms(args@),
                " "@,
            ) + seq!['\n']) && final(self).cookie == old(self).cookie && final(self).scopes
                == old(self).scopes && final(self).rng_state == old(self).rng_state,
            obj_name@ == "console"@ && !(method@ == "log"@ || method@ == "info"@ || method@ == "warn"@
                || method@ == "error"@ || method@ == "debug"@) ==> *final(self) == *old(self) && r
                == Ok::<Value, Vec<char>>(Value::Undefined),
            obj_name@ == "Math"@ ==> final(self).output == old(self).output && final(self).cookie
                == old(self).cookie && final(self).scopes == old(self).scopes && (r matches Ok(v)
                && v is Number && math_call_result(method@, args@, v)),
            obj_name@ == "JSON"@ && method@ == "stringify"@ ==> *final(self) == *old(self) && (r matches Ok(
                Value::Str(t),
            ) && (args@.len() == 0 ==> t@ == "undefined"@) && (args@.len() > 0 ==> (args@[0] matches Value::Str(
                a,
            ) ==> t@ == spec_json_quote(a@))) && (args@.len() > 0 ==> json_fits(args@[0], t@))),
            obj_name@ == "JSON"@ && method@ == "parse"@ ==> *final(self) == *old(self) && (str_arg(
                args@,
                0,
            ) matches Some(a) ==> json_parse_result(a, r)),
            obj_name@ == "Object"@ ==> *final(self) == *old(self) && (r matches Ok(v)
                && object_static_result(method@, args@, v)),
            obj_name@ == "Array"@ && method@ == "isArray"@ ==> *final(self) == *old(self) && r
                == Ok::<Value, Vec<char>>(Value::Bool(args@.len() > 0 && args@[0] is Array)),
            obj_name@ == "Array"@ && method@ == "from"@ ==> *final(self) == *old(self) && (r matches Ok(
                Value::Array(v),
            ) && (if args@.len() > 0 && args@[0] is Array {
                seq_equiv(args@[0]->Array_0@, v@)
            } else if args@.len() > 0 && args@[0] is Str {
                v@.len() == args@[0]->Str_0@.len() && forall|i: int|
                    0 <= i < v@.len() ==> (#[trigger] v@[i] matches Value::Str(c) && c@ == seq![
                        args@[0]->Str_0@[i],
                    ])
            } else {
                v@.len() == 0
            })),
            obj_name@ == "String"@ && method@ == "fromCharCode"@ ==> *final(self) == *old(self) && (
            r matches Ok(Value::Str(t)) && (all_numbers(args@) ==> has_char_codes(t@, spec_kept_char_codes(args@)))),
            obj_name@ == "Number"@ && method@ == "isFinite"@ ==> *final(self) == *old(self) && (if args@.len()
                == 0 {
                r == Ok::<Value, Vec<char>>(Value::Bool(false))
            } else {
                args@[0] matches Value::Number(x) ==> r == Ok::<Value, Vec<char>>(
                    Value::Bool(!x.is_nan_spec() && !x.is_inf_spec()),
                )
            }),
            obj_name@ == "Number"@ && method@ == "isNaN"@ ==> *final(self) == *old(self) && (if args@.len()
                == 0 {
                r == Ok::<Value, Vec<char>>(Value::Bool(true))
            } else {
                args@[0] matches Value::Number(x) ==> r == Ok::<Value, Vec<char>>(
                    Value::Bool(x.is_nan_spec()),
                )
            }),
            obj_name@ == "Number"@ ==> *final(self) == *old(self),
            obj_name@ == "Date"@ ==> *final(self) == *old(self) && (method@ == "now"@ ==> (r matches Ok(
                Value::Number(x),
            ) && spec_is_int_value(x, 1700000000000))),
            obj_name@ == "document"@ && (method@ == "getElementById"@ || method@ == "querySelector"@)
                ==> *final(self) == *old(self) && r == Ok::<Value, Vec<char>>(Value::Null),
            obj_name@ == "document"@ && (method@ == "getElementsByTagName"@ || method@
                == "getElementsByClassName"@ || method@ == "querySelectorAll"@) ==> *final(self)
                == *old(self) && (r matches Ok(Value::Array(v)) && v@.len() == 0),
            obj_name@ == "document"@ && (method@ == "write"@ || method@ == "writeln"@) ==> r
                == Ok::<Value, Vec<char>>(Value::Undefined) && final(self).scopes == old(self).scopes
                && final(self).cookie == old(self).cookie && (all_strings(args@) ==> final(self).output@
                == old(self).output@ + spec_join(string_views(args@), seq![])),
            !builtin_object_name(obj_name@) && method@ == "push"@ ==> (scope_lookup(
                old(self).scopes@,
                obj_name@,
            ) matches Some(Value::Array(a)) ==> (r matches Ok(Value::Number(x)) && (a@.len()
                + args@.len() < 0x20_0000_0000_0000 ==> spec_is_int_value(x, (a@.len() + args@.len()) as int))
                && (scope_lookup(final(self).scopes@, obj_name@) matches Some(Value::Array(b))
                && b@.len() == a@.len() + args@.len() && (forall|j: int|
                0 <= j < a@.len() ==> equiv(a@[j], #[trigger] b@[j])) && (forall|j: int|
                0 <= j < args@.len() ==> equiv(args@[j], #[trigger] b@[a@.len() + j]))))),
        decreases old(self).fuel(), node, 6nat,
    {
        proof {
            lemma_builtin_object_names();
        }
        if eq_str(obj_name, "console") {
            if eq_str(method, "log") || eq_str(method, "info") || eq_str(method, "warn") || eq_str(
                method,
                "error",
            ) || eq_str(method, "debug") {
                let sep = vec![' '];
                proof {
                    reveal_strlit(" ");
                    assert(sep@ =~= " "@);
                }
                let line = join_values(args, &sep);
                push_all(&mut self.output, line.as_slice());
                self.output.push('\n');
            }
            Ok(Value::Undefined)
        } else if eq_str(obj_name, "Math") {
            Ok(self.eval_math_call(method, args))
        } else if eq_str(obj_name, "JSON") {
            if eq_str(method, "stringify") {
                let val = arg_or_undefined(args, 0);
                proof {
                    reveal_strlit("undefined");
                }
                let text = crate::json::json_stringify(&val);
                proof {
                    if args@.len() > 0 {
                        lemma_equiv_same_reading(args@[0], val, args@[0], val);
                        crate::value::lemma_string_form_equiv(args@[0], val);
                    }
                }
                Ok(Value::Str(text))
            } else if eq_str(method, "parse") {
                let text = arg_string(args, 0);
                proof {
                    if args@.len() == 0 {
                        assert(text@ =~= Seq::<char>::empty());
                    }
                }
                crate::json::json_parse(&text)
            } else {
                Ok(Value::Undefined)
            }
        } else if eq_str(obj_name, "Object") {
            Ok(object_static_call(method, args))
        } else if eq_str(obj_name, "Array") {
            if eq_str(method, "isArray") {
                Ok(Value::Bool(args.len() > 0 && matches!(args[0], Value::Array(_))))
            } else if eq_str(method, "from") {
                if args.len() > 0 {
                    match &args[0] {
                        Value::Array(arr) => {
                            return Ok(Value::Array(clone_values(arr)));
                        },
                        Value::Str(s) => {
                            return Ok(Value::Array(chars_as_values(s)));
                        },
                        _ => {},
                    }
                }
                Ok(Value::Array(Vec::new()))
            } else {
                Ok(Value::Undefined)
            }
        } else if eq_str(obj_name, "String") {
            if eq_str(method, "fromCharCode") {
                let mut s: Vec<char> = Vec::new();
                let mut i: usize = 0;
                assert(args@.take(0) =~= Seq::<Value>::empty());
                while i < args.len()
                    invariant
                        0 <= i <= args@.len(),
                        all_numbers(args@) ==> has_char_codes(s@, spec_kept_char_codes(args@.take(i as int))),
                    decreases args.len() - i,
                {
                    proof {
                        assert(args@.take(i + 1).drop_last() =~= args@.take(i as int));
                        assert(args@.take(i + 1).last() == args@[i as int]);
                    }
                    let code = args[i].to_number().to_u32_sat();
                    if let Some(c) = crate::text::char_from_u32(code) {
                        s.push(c);
                    }
                    i = i + 1;
                }
                assert(args@.take(args@.len() as int) =~= args@);
                Ok(Value::Str(s))
            } else {
                Ok(Value::Undefined)
            }
        } else if eq_str(obj_name, "Number") {
            if eq_str(method, "isInteger") {
                let n = arg_number(args, 0, Double::nan());
                let back = Double::from_i64(n.to_i64());
                Ok(Value::Bool(crate::value::double_eq(&n, &back) && n.is_finite()))
            } else if eq_str(method, "isFinite") {
                Ok(Value::Bool(arg_number(args, 0, Double::nan()).is_finite()))
            } else if eq_str(method, "isNaN") {
                Ok(Value::Bool(arg_number(args, 0, Double::nan()).is_nan()))
            } else if eq_str(method, "parseInt") {
                let s = arg_string(args, 0);
                let radix = if args.len() > 1 {
                    args[1].to_number().to_u32_sat()
                } else {
                    10
                };
                Ok(Value::Number(crate::builtins::js_parse_int(&s, radix)))
            } else {
                Ok(Value::Undefined)
            }
        } else if eq_str(obj_name, "Date") {
            if eq_str(method, "now") {
                Ok(number(1700000000000))
            } else {
                Ok(Value::Undefined)
            }
        } else if eq_str(obj_name, "document") {
            if eq_str(method, "createElement") {
                let tag = arg_string(args, 0);
                let mut el = PropMap::new();
                el.insert(lit("tagName"), Value::Str(tag));
                el.insert(lit("innerHTML"), Value::Str(Vec::new()));
                el.insert(lit("style"), Value::Object(PropMap::new()));
                el.insert(lit("className"), Value::Str(Vec::new()));
                el.insert(lit("id"), Value::Str(Vec::new()));
                Ok(Value::Object(el))
            } else if eq_str(method, "getElementById") || eq_str(method, "querySelector") {
                Ok(Value::Null)
            } else if eq_str(method, "getElementsByTagName") || eq_str(
                method,
                "getElementsByClassName",
            ) || eq_str(method, "querySelectorAll") {
                Ok(Value::Array(Vec::new()))
            } else if eq_str(method, "write") || eq_str(method, "writeln") {
                let mut i: usize = 0;
                assert(string_views(args@.take(0)) =~= Seq::<Seq<char>>::empty());
                while i < args.len()
                    invariant
                        0 <= i <= args@.len(),
                        follows(*old(self), *self),
                        self.scopes == old(self).scopes,
                        self.cookie == old(self).cookie,
                        all_strings(args@) ==> self.output@ == old(self).output@ + spec_join(
                            string_views(args@.take(i as int)),
                            seq![],
                        ),
                    decreases args.len() - i,
                {
                    let s = args[i].to_string_val();
                    push_all(&mut self.output, s.as_slice());
                    proof {
                        let p = string_views(args@.take(i + 1));
                        assert(p.drop_last() =~= string_views(args@.take(i as int)));
                        if all_strings(args@) {
                            assert(args@[i as int] is Str);
                            assert(p.last() == args@[i as int]->Str_0@);
                            assert(self.output@ =~= old(self).output@ + spec_join(p, seq![]));
                        }
                    }
                    i = i + 1;
                }
                assert(args@.take(args@.len() as int) =~= args@);
                Ok(Value::Undefined)
            } else {
                Ok(Value::Undefined)
            }
        } else {
            let obj_val = match self.get_var(obj_name) {
                Some(v) => v,
                None => Value::Undefined,
            };
            if let Value::Array(arr) = &obj_val {
                if eq_str(method, "push") {
                    // `push` grows the array held in the variable
                    let mut grown = clone_values(arr);
                    let ghost base = grown@;
                    let mut i: usize = 0;
                    while i < args.len()
                        invariant
                            0 <= i <= args@.len(),
                            grown@.len() == base.len() + i,
                            forall|j: int| 0 <= j < base.len() ==> grown@[j] == base[j],
                            forall|j: int| 0 <= j < i ==> equiv(args@[j], #[trigger] grown@[base.len() + j]),
                        decreases args.len() - i,
                    {
                        grown.push(clone_value(&args[i]));
                        i = i + 1;
                    }
                    let n = grown.len();
                    let ghost stored = grown@;
                    self.update_var(obj_name, Value::Array(grown));
                    proof {
                        assert forall|j: int| 0 <= j < arr@.len() implies equiv(
                            #[trigger] scope_lookup(old(self).scopes@, obj_name@)->0->Array_0@[j],
                            stored[j],
                        ) by {
                            crate::value::lemma_equiv_trans(
                                scope_lookup(old(self).scopes@, obj_name@)->0->Array_0@[j],
                                arr@[j],
                                stored[j],
                            );
                        }
                    }
                    return Ok(Value::Number(Double::from_usize(n)));
                }
            }
            self.eval_value_method_call(&obj_val, method, args, Ghost(node))
        }
    }

    fn eval_value_method_call(
        &mut self,
        obj: &Value,
        method: &[char],
        args: &Vec<Value>,
        Ghost(node): Ghost<Expr>,
    ) -> (r: Result<Value, Vec<char>>)
        requires
            old(self).wf(),
        ensures
            follows(*old(self), *final(self)),
            *obj matches Value::Str(st) ==> *final(self) == *old(self) && (r matches Ok(v)
                && string_method_result(st@, method@, args@, v)),
            *obj matches Value::Array(arr) ==> (!array_callback_method(method@) ==> *final(self)
                == *old(self) && (r matches Ok(v) && array_method_result(arr@, method@, args@, v))),
            *obj is Regex ==> *final(self) == *old(self) && r is Ok,
        decreases old(self).fuel(), node, 5nat,
    {
        match obj {
            Value::Str(s) => self.eval_string_method(s, method, args),
            Value::Array(arr) => self.eval_array_method(arr, method, args, Ghost(node)),
            Value::Object(map) => {
                match map.get(method) {
                    Some(Value::Function(func)) => {
                        let f = crate::value::clone_function(func);
                        return self.call_js_function(&f, args, Ghost(node));
                    },
                    _ => {},
                }
                if eq_str(method, "hasOwnProperty") {
                    let key = arg_string(args, 0);
                    return Ok(Value::Bool(map.contains_key(key.as_slice())));
                }
                if eq_str(method, "toString") {
                    return Ok(Value::Str(lit("[object Object]")));
                }
                Ok(Value::Undefined)
            },
            Value::Regex(pattern, flags) => self.eval_regex_method(pattern, flags, method, args),
            Value::Number(n) => {
                if eq_str(method, "toString") {
                    let radix = if args.len() > 0 {
                        args[0].to_number().to_u32_sat()
                    } else {
                        10
                    };
                    match crate::numfmt::number_to_string(n, radix) {
                        Ok(s) => Ok(Value::Str(s)),
                        Err(e) => Err(e),
                    }
                } else if eq_str(method, "toFixed") {
                    let digits = if args.len() > 0 {
                        args[0].to_number().to_usize_sat()
                    } else {
                        0
                    };
                    Ok(Value::Str(crate::numfmt::to_fixed(n, digits)))
                } else {
                    Ok(Value::Undefined)
                }
            },
            Value::Function(func) => {
                if eq_str(method, "call") {
                    let call_args = if args.len() > 1 {
                        let mut v: Vec<Value> = Vec::new();
                        let mut i: usize = 1;
                        while i < args.len()
                            invariant
                                1 <= i <= args@.len(),
                            decreases args.len() - i,
                        {
                            v.push(clone_value(&args[i]));
                            i = i + 1;
                        }
                        v
                    } else {
                        Vec::new()
                    };
                    self.call_js_function(func, &call_args, Ghost(node))
                } else if eq_str(method, "apply") {
                    let call_args = if args.len() > 1 {
                        match &args[1] {
                            Value::Array(a) => clone_values(a),
                            _ => Vec::new(),
                        }
                    } else {
                        Vec::new()
                    };
                    self.call_js_function(func, &call_args, Ghost(node))
                } else if eq_str(method, "bind") {
                    Ok(Value::Function(crate::value::clone_function(func)))
                } else {
                    Ok(Value::Undefined)
                }
            },
            _ => Ok(Value::Undefined),
        }
    }

    /// Calls `func` with `(item, index)` for an array callback.
    fn call_with_item(
        &mut self,
        func: &Value,
        item: &Value,
        i: usize,
        Ghost(node): Ghost<Expr>,
    ) -> (r: Result<Value, Vec<char>>)
        requires
            old(self).wf(),
        ensures
            follows(*old(self), *final(self)),
            (*func matches Value::Function(f) && all_empty_stmts(f.body@)) && old(self).call_depth < MAX_CALL_DEPTH ==> r == Ok::<Value, Vec<char>>(
                Value::Undefined,
            ) && final(self).output == old(self).output && final(self).cookie == old(self).cookie,
            *func matches Value::Function(f) ==> (plain_body(f.body@) && old(self).call_depth
                < MAX_CALL_DEPTH ==> r == Ok::<Value, Vec<char>>(Value::Undefined) && (
            final(self).output@, final(self).cookie@) == run_plain(
                plain_effects(f.body@),
                (old(self).output@, old(self).cookie@),
            )),
            *func matches Value::Function(f) ==> (lit_return(f.body@) matches Some(v) ==> (old(
                self,
            ).call_depth < MAX_CALL_DEPTH ==> (r matches Ok(w) && equiv(v, w)))),
            *func matches Value::Function(f) ==> (callback_value(f, *item) matches Some(v) ==> (old(
                self,
            ).call_depth < MAX_CALL_DEPTH ==> (r matches Ok(w) && equiv(v, w)))),
        decreases old(self).fuel(), node, 3nat,
    {
        let mut a: Vec<Value> = Vec::new();
        a.push(clone_value(item));
        a.push(Value::Number(Double::from_usize(i)));
        let ghost cb = *func is Function && callback_value(func->Function_0, *item) is Some;
        let ghost ret_expr = func->Function_0.body@[0]->Return_0->0;
        let ghost p = func->Function_0.params@[0]@;
        proof {
            if cb {
                lemma_arg_value_equiv(ret_expr, p, *item, a@[0]);
            }
        }
        let r = self.call_function(func, &a, Ghost(node));
        proof {
            if cb && old(self).call_depth < MAX_CALL_DEPTH {
                crate::value::lemma_equiv_trans(
                    arg_value(ret_expr, p, *item)->0,
                    arg_value(ret_expr, p, a@[0])->0,
                    r->Ok_0,
                );
            }
        }
        r
    }

    /// The array methods. For a callback of one parameter whose body returns an
    /// expression of the pure fragment of that parameter, `every`, `some`, `find`,
    /// `findIndex`, `map` and `filter` give what the callback's values on the items,
    /// taken in order, call for.
    fn eval_array_method(
        &mut self,
        arr: &Vec<Value>,
        method: &[char],
        args: &Vec<Value>,
        Ghost(node): Ghost<Expr>,
    ) -> (r: Result<Value, Vec<char>>)
        requires
            old(self).wf(),
        ensures
            follows(*old(self), *final(self)),
            !array_callback_method(method@) ==> *final(self) == *old(self) && (r matches Ok(v)
                && array_method_result(arr@, method@, args@, v)),
            (method@ == "map"@ || method@ == "filter"@) && args@.len() == 0 ==> *final(self)
                == *old(self) && (r matches Ok(Value::Array(v)) && seq_equiv(arr@, v@)),
            method@ == "map"@ ==> (r matches Ok(v) ==> v matches Value::Array(a) && a@.len()
                == arr@.len()),
            (method@ == "map"@ || method@ == "forEach"@) && args@.len() > 0 ==> (args@[0] matches Value::Function(
                f,
            ) ==> (plain_body(f.body@) && old(self).call_depth < MAX_CALL_DEPTH ==> r is Ok && (
            final(self).output@, final(self).cookie@) == run_plain_times(
                plain_effects(f.body@),
                (old(self).output@, old(self).cookie@),
                arr@.len(),
            ) && (method@ == "map"@ ==> (r matches Ok(Value::Array(a)) && forall|k: int|
                0 <= k < a@.len() ==> #[trigger] a@[k] is Undefined)))),
            method@ == "filter"@ ==> (r matches Ok(v) ==> v matches Value::Array(a)
                && picked_from(arr@, a@)),
            method@ == "forEach"@ ==> (r matches Ok(v) ==> v is Undefined) && (args@.len() == 0
                ==> *final(self) == *old(self) && r is Ok),
            method@ == "find"@ ==> (r matches Ok(v) ==> v is Undefined || exists|j: int|
                0 <= j < arr@.len() && equiv(#[trigger] arr@[j], v)) && (args@.len() == 0
                ==> *final(self) == *old(self) && r == Ok::<Value, Vec<char>>(Value::Undefined)),
            method@ == "findIndex"@ ==> (r matches Ok(v) ==> is_index_value(v, arr@.len() as int)),
            (method@ == "every"@ || method@ == "some"@) && args@.len() > 0 ==> (args@[0] matches Value::Function(
                f,
            ) ==> (lit_return(f.body@) matches Some(v) ==> (old(self).call_depth < MAX_CALL_DEPTH ==> r
                == Ok::<Value, Vec<char>>(
                Value::Bool(
                    if method@ == "every"@ {
                        arr@.len() == 0 || spec_truthy(v)
                    } else {
                        arr@.len() > 0 && spec_truthy(v)
                    },
                ),
            )))),
            (method@ == "every"@ || method@ == "some"@) && args@.len() > 0 ==> (args@[0] matches Value::Function(
                f,
            ) ==> ((forall|k: int| 0 <= k < arr@.len() ==> #[trigger] callback_value(f, arr@[k]) is Some)
                && old(self).call_depth < MAX_CALL_DEPTH ==> r == Ok::<Value, Vec<char>>(
                Value::Bool(
                    if method@ == "every"@ {
                        forall|k: int|
                            0 <= k < arr@.len() ==> spec_truthy(#[trigger] callback_value(f, arr@[k])->0)
                    } else {
                        exists|k: int|
                            0 <= k < arr@.len() && spec_truthy(#[trigger] callback_value(f, arr@[k])->0)
                    },
                ),
            ))),
            method@ == "map"@ && args@.len() > 0 ==> (args@[0] matches Value::Function(f) ==> (
            callback_total(f, arr@) && old(self).call_depth < MAX_CALL_DEPTH ==> (r matches Ok(
                Value::Array(a),
            ) && a@.len() == arr@.len() && forall|k: int|
                0 <= k < arr@.len() ==> equiv(callback_value(f, arr@[k])->0, #[trigger] a@[k])))),
            method@ == "filter"@ && args@.len() > 0 ==> (args@[0] matches Value::Function(f) ==> (
            callback_total(f, arr@) && old(self).call_depth < MAX_CALL_DEPTH ==> (r matches Ok(
                Value::Array(a),
            ) && exists|p: Seq<int>|
                #[trigger] is_picked(p, arr@.len() as int, arr@, a@) && forall|k: int|
                    0 <= k < arr@.len() ==> (p.contains(k) <==> #[trigger] callback_hit(f, arr@, k))))),
            (method@ == "find"@ || method@ == "findIndex"@) && args@.len() > 0 ==> (args@[0] matches Value::Function(
                f,
            ) ==> (callback_total(f, arr@) && old(self).call_depth < MAX_CALL_DEPTH ==> exists|j: int|
                #[trigger] first_hit(f, arr@, j) && (if method@ == "find"@ {
                    if j == -1 {
                        r == Ok::<Value, Vec<char>>(Value::Undefined)
                    } else {
                        r matches Ok(v) && equiv(arr@[j], v)
                    }
                } else {
                    r matches Ok(Value::Number(y)) && (arr@.len() < 0x20_0000_0000_0000
                        ==> spec_is_int_value(y, j))
                }))),
            method@ == "findIndex"@ && args@.len() == 0 ==> *final(self) == *old(self) && (r matches Ok(
                Value::Number(y),
            ) && spec_is_int_value(y, -1)),
            method@ == "some"@ || method@ == "every"@ ==> (r matches Ok(v) ==> v is Bool) && (
            args@.len() == 0 ==> *final(self) == *old(self) && r == Ok::<Value, Vec<char>>(
                Value::Bool(method@ == "every"@),
            )),
            method@ == "reduce"@ && arr@.len() == 0 ==> *final(self) == *old(self) && (if args@.len()
                > 1 {
                r matches Ok(v) && equiv(args@[1], v)
            } else {
                r is Err
            }),
            method@ == "reduce"@ && arr@.len() == 1 && args@.len() <= 1 ==> *final(self)
                == *old(self) && (r matches Ok(v) && equiv(arr@[0], v)),
        decreases old(self).fuel(), node, 4nat,
    {
        proof {
            lemma_callback_names_distinct();
        }
        let n = arr.len();
        if eq_str(method, "map") || eq_str(method, "filter") || eq_str(method, "forEach") {
            if args.len() == 0 {
                if eq_str(method, "forEach") {
                    return Ok(Value::Undefined);
                }
                let copy = clone_values(arr);
                proof {
                    let p = Seq::new(n as nat, |k: int| k);
                    assert(is_picked(p, arr@.len() as int, arr@, copy@));
                }
                return Ok(Value::Array(copy));
            }
            let is_map = eq_str(method, "map");
            let is_filter = eq_str(method, "filter");
            let mut result: Vec<Value> = Vec::new();
            let ghost mut picked: Seq<int> = Seq::empty();
            let ghost pf = args@[0] is Function && plain_body(args@[0]->Function_0.body@)
                && old(self).call_depth < MAX_CALL_DEPTH;
            let ghost effs = plain_effects(args@[0]->Function_0.body@);
            let ghost st0 = (old(self).output@, old(self).cookie@);
            let ghost cbt = args@[0] is Function && callback_total(args@[0]->Function_0, arr@) && old(
                self,
            ).call_depth < MAX_CALL_DEPTH;
            let mut i: usize = 0;
            while i < n
                invariant
                    follows(*old(self), *self),
                    n == arr@.len(),
                    0 <= i <= n,
                    args@.len() > 0,
                    array_callback_method(method@),
                    is_map == (method@ == "map"@),
                    is_filter == (method@ == "filter"@),
                    method@ == "map"@ || method@ == "filter"@ || method@ == "forEach"@,
                    is_map ==> result@.len() == i,
                    picked.len() == result@.len(),
                    forall|k: int| 0 <= k < picked.len() ==> 0 <= #[trigger] picked[k] < i,
                    forall|a: int, b: int|
                        0 <= a < b < picked.len() ==> #[trigger] picked[a] < #[trigger] picked[b],
                    !is_map ==> forall|k: int|
                        0 <= k < picked.len() ==> equiv(arr@[picked[k]], #[trigger] result@[k]),
                    pf == (args@[0] is Function && plain_body(args@[0]->Function_0.body@)
                        && old(self).call_depth < MAX_CALL_DEPTH),
                    effs == plain_effects(args@[0]->Function_0.body@),
                    st0 == (old(self).output@, old(self).cookie@),
                    pf ==> (self.output@, self.cookie@) == run_plain_times(effs, st0, i as nat) && (is_map
                        ==> forall|k: int| 0 <= k < result@.len() ==> #[trigger] result@[k] is Undefined),
                    cbt == (args@[0] is Function && callback_total(args@[0]->Function_0, arr@) && old(
                        self,
                    ).call_depth < MAX_CALL_DEPTH),
                    cbt && is_map ==> forall|k: int|
                        0 <= k < result@.len() ==> equiv(
                            callback_value(args@[0]->Function_0, arr@[k])->0,
                            #[trigger] result@[k],
                        ),
                    cbt && is_filter ==> forall|k: int|
                        0 <= k < i ==> (picked.contains(k) <==> #[trigger] callback_hit(
                            args@[0]->Function_0,
                            arr@,
                            k,
                        )),
                decreases n - i,
            {
                proof {
                    lemma_callback_names_distinct();
                }
                let val = self.call_with_item(&args[0], &arr[i], i, Ghost(node))?;
                proof {
                    if pf {
                        assert(run_plain_times(effs, st0, (i + 1) as nat) == run_plain(
                            effs,
                            run_plain_times(effs, st0, i as nat),
                        ));
                    }
                    if cbt {
                        assert(callback_value(args@[0]->Function_0, arr@[i as int]) is Some);
                        crate::value::lemma_equiv_truthy(
                            callback_value(args@[0]->Function_0, arr@[i as int])->0,
                            val,
                        );
                    }
                }
                let ghost picked0 = picked;
                if is_map {
                    result.push(val);
                    proof {
                        picked = picked.push(i as int);
                    }
                } else if is_filter {
                    if val.is_truthy() {
                        result.push(clone_value(&arr[i]));
                        proof {
                            picked = picked.push(i as int);
                        }
                    }
                }
                proof {
                    if cbt && is_filter {
                        assert forall|k: int| 0 <= k < i + 1 implies (picked.contains(k)
                            <==> #[trigger] callback_hit(args@[0]->Function_0, arr@, k)) by {
                            if k < i {
                                if picked.contains(k) {
                                    let t = choose|t: int| 0 <= t < picked.len() && picked[t] == k;
                                    if t == picked0.len() {
                                        assert(picked[t] == i);
                                    } else {
                                        assert(picked0[t] == k);
                                    }
                                }
                                if picked0.contains(k) {
                                    let t = choose|t: int| 0 <= t < picked0.len() && picked0[t] == k;
                                    assert(picked[t] == k);
                                }
                            } else {
                                if picked.contains(k) {
                                    let t = choose|t: int| 0 <= t < picked.len() && picked[t] == k;
                                    if t < picked0.len() {
                                        assert(picked0[t] == k);
                                    }
                                }
                                if picked.len() > picked0.len() {
                                    assert(picked[picked0.len() as int] == i);
                                }
                            }
                        }
                    }
                }
                i = i + 1;
            }
            if is_map || is_filter {
                proof {
                    if is_filter {
                        assert(is_picked(picked, arr@.len() as int, arr@, result@));
                    }
                }
                Ok(Value::Array(result))
            } else {
                Ok(Value::Undefined)
            }
        } else if eq_str(method, "find") || eq_str(method, "findIndex") || eq_str(method, "some")
            || eq_str(method, "every") {
            let is_find = eq_str(method, "find");
            let is_find_index = eq_str(method, "findIndex");
            let is_some = eq_str(method, "some");
            if args.len() > 0 {
                let mut i: usize = 0;
                while i < n
                    invariant
                        follows(*old(self), *self),
                        n == arr@.len(),
                        0 <= i <= n,
                        args@.len() > 0,
                        array_callback_method(method@),
                        is_find == (method@ == "find"@),
                        is_find_index == (method@ == "findIndex"@),
                        is_some == (method@ == "some"@),
                        is_find || is_find_index || is_some || method@ == "every"@,
                        (is_some || method@ == "every"@) && args@[0] is Function && lit_return(
                            args@[0]->Function_0.body@,
                        ) is Some && old(self).call_depth < MAX_CALL_DEPTH ==> i == 0 || (if is_some {
                            !spec_truthy(lit_return(args@[0]->Function_0.body@)->0)
                        } else {
                            spec_truthy(lit_return(args@[0]->Function_0.body@)->0)
                        }),
                        (is_some || method@ == "every"@) && args@[0] is Function && (forall|k: int|
                            0 <= k < arr@.len() ==> #[trigger] callback_value(args@[0]->Function_0, arr@[k])
                                is Some) && old(self).call_depth < MAX_CALL_DEPTH ==> forall|k: int|
                            0 <= k < i ==> spec_truthy(#[trigger] callback_value(args@[0]->Function_0, arr@[k])->0)
                                != is_some,
                        (is_find || is_find_index) && args@[0] is Function && callback_total(
                            args@[0]->Function_0,
                            arr@,
                        ) && old(self).call_depth < MAX_CALL_DEPTH ==> forall|k: int|
                            0 <= k < i ==> !#[trigger] callback_hit(args@[0]->Function_0, arr@, k),
                    decreases n - i,
                {
                    proof {
                        lemma_callback_names_distinct();
                    }
                    let val = self.call_with_item(&args[0], &arr[i], i, Ghost(node))?;
                    proof {
                        if args@[0] is Function && lit_return(args@[0]->Function_0.body@) is Some
                            && old(self).call_depth < MAX_CALL_DEPTH {
                            crate::value::lemma_equiv_truthy(lit_return(args@[0]->Function_0.body@)->0, val);
                        }
                        if args@[0] is Function && (forall|k: int|
                            0 <= k < arr@.len() ==> #[trigger] callback_value(args@[0]->Function_0, arr@[k])
                                is Some) && old(self).call_depth < MAX_CALL_DEPTH {
                            assert(callback_value(args@[0]->Function_0, arr@[i as int]) is Some);
                            crate::value::lemma_equiv_truthy(
                                callback_value(args@[0]->Function_0, arr@[i as int])->0,
                                val,
                            );
                        }
                    }
                    if is_find || is_find_index || is_some {
                        if val.is_truthy() {
                            proof {
                                if args@[0] is Function && callback_total(args@[0]->Function_0, arr@)
                                    && old(self).call_depth < MAX_CALL_DEPTH {
                                    assert(first_hit(args@[0]->Function_0, arr@, i as int));
                                }
                            }
                            if is_find {
                                let item = clone_value(&arr[i]);
                                assert(equiv(arr@[i as int], item));
                                return Ok(item);
                            } else if is_find_index {
                                let x = Double::from_usize(i);
                                assert(is_index_number(x, arr@.len() as int)) by {
                                    if n < 0x20_0000_0000_0000 {
                                        assert(spec_is_int_value(x, i as int));
                                    }
                                }
                                return Ok(Value::Number(x));
                            } else {
                                return Ok(Value::Bool(true));
                            }
                        }
                    } else if !val.is_truthy() {
                        return Ok(Value::Bool(false));
                    }
                    i = i + 1;
                }
                proof {
                    if (is_find || is_find_index) && args@[0] is Function && callback_total(
                        args@[0]->Function_0,
                        arr@,
                    ) && old(self).call_depth < MAX_CALL_DEPTH {
                        assert(first_hit(args@[0]->Function_0, arr@, -1));
                    }
                }
            }
            if is_find {
                Ok(Value::Undefined)
            } else if is_find_index {
                let x = Double::from_i64(-1);
                assert(spec_is_int_value(x, -1));
                assert(is_index_number(x, arr@.len() as int));
                Ok(Value::Number(x))
            } else {
                Ok(Value::Bool(!is_some))
            }
        } else if eq_str(method, "reduce") {
            let func = arg_or_undefined(args, 0);
            let mut acc = if args.len() > 1 {
                clone_value(&args[1])
            } else if n > 0 {
                clone_value(&arr[0])
            } else {
                return Err(lit("Reduce of empty array with no initial value"));
            };
            let mut i: usize = if args.len() > 1 {
                0
            } else {
                1
            };
            let ghost init = if args@.len() > 1 {
                args@[1]
            } else {
                arr@[0]
            };
            assert(equiv(init, acc));
            while i < n
                invariant
                    follows(*old(self), *self),
                    n == arr@.len(),
                    method@ == "reduce"@,
                    args@.len() <= 1 ==> i >= 1,
                    n <= 1 && (args@.len() <= 1 || n == 0) ==> *self == *old(self) && equiv(
                        init,
                        acc,
                    ),
                decreases n - i,
            {
                proof {
                    lemma_callback_names_distinct();
                }
                let mut a: Vec<Value> = Vec::new();
                a.push(acc);
                a.push(clone_value(&arr[i]));
                a.push(Value::Number(Double::from_usize(i)));
                acc = self.call_function(&func, &a, Ghost(node))?;
                i = i + 1;
            }
            Ok(acc)
        } else {
            Ok(array_method(arr, method, args))
        }
    }

    fn eval_new(&mut self, expr: &Expr) -> (r: Result<Value, Vec<char>>)
        requires
            old(self).wf(),
        ensures
            follows(*old(self), *final(self)),
            !(*expr is New) ==> r == Ok::<Value, Vec<char>>(Value::Undefined) && *final(self)
                == *old(self),
            *expr matches Expr::New(c, a) ==> (all_literal(a@) ==> (*c matches Expr::Ident(n) ==> (
            n@ == "Object"@ ==> *final(self) == *old(self) && (r matches Ok(Value::Object(m))
                && m.seq().len() == 0)))),
            *expr matches Expr::New(c, a) ==> (all_literal(a@) ==> (*c matches Expr::Ident(n) ==> (
            n@ == "RegExp"@ ==> *final(self) == *old(self) && (r matches Ok(Value::Regex(p, f)) && (
            a@.len() > 0 ==> (a@[0] matches Expr::Str(ps) ==> p@ == ps@)))))),
        decreases old(self).fuel(), expr, 7nat,
    {
        let (callee, arg_exprs) = match expr {
            Expr::New(c, a) => (c, a),
            _ => {
                return Ok(Value::Undefined);
            },
        };
        let args = self.eval_plain_args(arg_exprs)?;
        proof {
            reveal_strlit("Date");
            reveal_strlit("RegExp");
            reveal_strlit("Array");
            reveal_strlit("Object");
            assert("Object"@.len() == 6 && "Date"@.len() == 4 && "Array"@.len() == 5
                && "RegExp"@.len() == 6 && "Object"@[0] != "RegExp"@[0]);
            if all_literal(arg_exprs@) && arg_exprs@.len() > 0 {
                assert(is_literal_expr(arg_exprs@[0]));
                assert(literal_value(arg_exprs@[0], args@[0]));
            }
        }
        if let Expr::Ident(name) = &**callee {
            if eq_str(name.as_slice(), "Date") {
                let mut obj = PropMap::new();
                let mut body: Vec<Stmt> = Vec::new();
                body.push(Stmt::Return(Some(Expr::Number(Double::from_u64(1700000000000)))));
                obj.insert(
                    lit("getTime"),
                    Value::Function(
                        JsFunction {
                            name: Some(lit("getTime")),
                            params: Vec::new(),
                            body,
                            closure: PropMap::new(),
                        },
                    ),
                );
                return Ok(Value::Object(obj));
            }
            if eq_str(name.as_slice(), "RegExp") {
                return Ok(Value::Regex(arg_string(&args, 0), arg_string(&args, 1)));
            }
            if eq_str(name.as_slice(), "Array") {
                if args.len() == 1 {
                    if let Value::Number(n) = &args[0] {
                        return Ok(Value::Array(undefined_values(n.to_usize_sat())));
                    }
                }
                return Ok(Value::Array(args));
            }
            if eq_str(name.as_slice(), "Object") {
                return Ok(Value::Object(PropMap::new()));
            }
            if eq_str(name.as_slice(), "Error") || eq_str(name.as_slice(), "TypeError") || eq_str(
                name.as_slice(),
                "RangeError",
            ) || eq_str(name.as_slice(), "SyntaxError") || eq_str(
                name.as_slice(),
                "ReferenceError",
            ) {
                let msg = arg_string(&args, 0);
                let mut obj = PropMap::new();
                obj.insert(lit("name"), Value::Str(clone_chars(name)));
                obj.insert(lit("message"), Value::Str(msg));
                obj.insert(lit("stack"), Value::Str(Vec::new()));
                return Ok(Value::Object(obj));
            }
        }
        let func_val = self.eval_expr(callee)?;
        match func_val {
            Value::Function(func) => {
                let result = self.call_js_function(&func, &args, Ghost(*expr))?;
                match result {
                    Value::Object(_) => Ok(result),
                    _ => Ok(Value::Object(PropMap::new())),
                }
            },
            _ => Ok(Value::Object(PropMap::new())),
        }
    }

    /// Arguments of `new`, each evaluated as it stands.
    fn eval_plain_args(&mut self, arg_exprs: &Vec<Expr>) -> (r: Result<Vec<Value>, Vec<char>>)
        requires
            old(self).wf(),
        ensures
            follows(*old(self), *final(self)),
            all_literal(arg_exprs@) ==> *final(self) == *old(self) && (r matches Ok(v) && literal_values(
                arg_exprs@,
                v@,
            )),
            all_pure(old(self).scopes@, arg_exprs@) ==> *final(self) == *old(self) && (r matches Ok(v)
                && v@.len() == arg_exprs@.len() && forall|j: int|
                0 <= j < v@.len() ==> equiv(#[trigger] pure_vals(old(self).scopes@, arg_exprs@)[j], v@[j])),
        decreases old(self).fuel(), arg_exprs, 0nat,
    {
        let mut args: Vec<Value> = Vec::new();
        let mut i: usize = 0;
        while i < arg_exprs.len()
            invariant
                follows(*old(self), *self),
                0 <= i <= arg_exprs@.len(),
                all_literal(arg_exprs@) ==> *self == *old(self) && literal_values(arg_exprs@.take(i as int), args@),
                all_pure(old(self).scopes@, arg_exprs@) ==> *self == *old(self) && args@.len() == i
                    && forall|j: int|
                    0 <= j < i ==> equiv(#[trigger] pure_vals(old(self).scopes@, arg_exprs@)[j], args@[j]),
            decreases arg_exprs.len() - i,
        {
            proof {
                if all_pure(old(self).scopes@, arg_exprs@) {
                    assert(pure_value(old(self).scopes@, arg_exprs@[i as int]) is Some);
                }
            }
            proof {
                assert(decreases_to!(arg_exprs => arg_exprs@));
                assert(decreases_to!(arg_exprs@ => arg_exprs@[i as int]));
                if all_literal(arg_exprs@) {
                    assert(is_literal_expr(arg_exprs@[i as int]));
                    assert(arg_exprs@.take(i + 1).drop_last() =~= arg_exprs@.take(i as int));
                }
            }
            let v = self.eval_expr(&arg_exprs[i])?;
            args.push(v);
            i = i + 1;
        }
        assert(arg_exprs@.take(arg_exprs@.len() as int) =~= arg_exprs@);
        Ok(args)
    }

    fn call_function(&mut self, func: &Value, args: &Vec<Value>, Ghost(node): Ghost<Expr>) -> (r:
        Result<Value, Vec<char>>)
        requires
            old(self).wf(),
        ensures
            follows(*old(self), *final(self)),
            !(*func is Function) ==> r is Err && *final(self) == *old(self),
            (*func matches Value::Function(f) && all_empty_stmts(f.body@)) && old(self).call_depth < MAX_CALL_DEPTH ==> r == Ok::<Value, Vec<char>>(
                Value::Undefined,
            ) && final(self).output == old(self).output && final(self).cookie == old(self).cookie,
            *func matches Value::Function(f) ==> (plain_body(f.body@) && old(self).call_depth
                < MAX_CALL_DEPTH ==> r == Ok::<Value, Vec<char>>(Value::Undefined) && (
            final(self).output@, final(self).cookie@) == run_plain(
                plain_effects(f.body@),
                (old(self).output@, old(self).cookie@),
            )),
            *func matches Value::Function(f) ==> (lit_return(f.body@) matches Some(v) ==> (old(
                self,
            ).call_depth < MAX_CALL_DEPTH ==> (r matches Ok(w) && equiv(v, w)))),
            *func matches Value::Function(f) ==> (args@.len() > 0 ==> (callback_value(f, args@[0]) matches Some(
                v,
            ) ==> (old(self).call_depth < MAX_CALL_DEPTH ==> (r matches Ok(w) && equiv(v, w))))),
        decreases old(self).fuel(), node, 2nat,
    {
        match func {
            Value::Function(f) => self.call_js_function(f, args, Ghost(node)),
            _ => {
                let mut msg = lit("not a function: ");
                push_all(&mut msg, crate::debugfmt::debug_str(&str_to_chars(func.type_of())).as_slice());
                Err(msg)
            },
        }
    }

    /// Runs a JavaScript function: a fresh scope chain made of the captured variables,
    /// then the parameters and `arguments`; the caller's scopes are restored afterwards.
    /// Past the depth limit the call fails.
    fn call_js_function(&mut self, func: &JsFunction, args: &Vec<Value>, Ghost(node): Ghost<Expr>) -> (r:
        Result<Value, Vec<char>>)
        requires
            old(self).wf(),
        ensures
            follows(*old(self), *final(self)),
            final(self).scopes == old(self).scopes,
            old(self).call_depth == MAX_CALL_DEPTH ==> (r matches Err(e) && e@
                == "Maximum call stack size exceeded"@) && *final(self) == *old(self),
            all_empty_stmts(func.body@) && old(self).call_depth < MAX_CALL_DEPTH ==> r == Ok::<Value, Vec<char>>(
                Value::Undefined,
            ) && final(self).output == old(self).output && final(self).cookie == old(self).cookie,
            plain_body(func.body@) && old(self).call_depth < MAX_CALL_DEPTH ==> r == Ok::<Value, Vec<char>>(
                Value::Undefined,
            ) && (final(self).output@, final(self).cookie@) == run_plain(
                plain_effects(func.body@),
                (old(self).output@, old(self).cookie@),
            ),
            lit_return(func.body@) matches Some(v) ==> (old(self).call_depth < MAX_CALL_DEPTH ==> (r matches Ok(
                w,
            ) && equiv(v, w)) && final(self).output == old(self).output && final(self).cookie == old(
                self,
            ).cookie),
            args@.len() > 0 ==> (callback_value(*func, args@[0]) matches Some(v) ==> (old(self).call_depth
                < MAX_CALL_DEPTH ==> (r matches Ok(w) && equiv(v, w)) && final(self).output == old(
                self,
            ).output && final(self).cookie == old(self).cookie)),
        decreases old(self).fuel(), node, 1nat,
    {
        if self.call_depth >= MAX_CALL_DEPTH {
            return Err(lit("Maximum call stack size exceeded"));
        }
        self.call_depth = self.call_depth + 1;
        let mut saved: Vec<Scope> = Vec::new();
        std::mem::swap(&mut saved, &mut self.scopes);
        let closure_scope = Scope { vars: clone_map(&func.closure) };
        self.scopes.push(closure_scope);
        if let Some(own_name) = &func.name {
            // a named function sees itself under its own name, unless its closure
            // already binds that name
            if !func.closure.contains_key(own_name.as_slice()) {
                let itself = Value::Function(crate::value::clone_function(func));
                self.set_var(own_name.as_slice(), itself);
            }
        }
        self.push_scope();
        let mut i: usize = 0;
        while i < func.params.len()
            invariant
                self.wf(),
                self.call_depth == old(self).call_depth + 1,
                self.output == old(self).output,
                self.cookie == old(self).cookie,
                func.params@.len() == 1 && args@.len() > 0 && i >= 1 ==> (scope_lookup(
                    self.scopes@,
                    func.params@[0]@,
                ) matches Some(w) && equiv(args@[0], w)),
            decreases func.params.len() - i,
        {
            let val = arg_or_undefined(args, i);
            self.set_var(func.params[i].as_slice(), val);
            i = i + 1;
        }
        self.set_var(&lit("arguments"), Value::Array(clone_values(args)));
        let ghost cb = args@.len() > 0 && callback_value(*func, args@[0]) is Some;
        let ghost bound = scope_lookup(self.scopes@, func.params@[0]@)->0;
        let ghost ret_expr = func.body@[0]->Return_0->0;
        proof {
            if cb {
                lemma_arg_value_equiv(ret_expr, func.params@[0]@, args@[0], bound);
                lemma_arg_value_scopes(self.scopes@, ret_expr, func.params@[0]@, bound);
                assert(pure_return(self.scopes@, func.body@[0]) == arg_value(ret_expr, func.params@[0]@, bound));
            }
        }
        proof {
            if plain_body(func.body@) {
                lemma_plain_body(self.scopes@, (self.output@, self.cookie@), func.body@);
            }
            if lit_return(func.body@) is Some {
                assert(pure_return(self.scopes@, func.body@[0]) == lit_return(func.body@));
            }
        }
        let result = self.exec_block(&func.body);
        proof {
            if cb {
                crate::value::lemma_equiv_trans(
                    callback_value(*func, args@[0])->0,
                    arg_value(ret_expr, func.params@[0]@, bound)->0,
                    result->Ok_0->Return_0,
                );
            }
        }
        self.scopes = saved;
        self.call_depth = self.call_depth - 1;
        match result {
            Ok(Signal::Return(val)) => Ok(val),
            Ok(Signal::Throw(val)) => {
                let mut msg = lit("Uncaught: ");
                push_all(&mut msg, val.to_string_val().as_slice());
                Err(msg)
            },
            Ok(_) => Ok(Value::Undefined),
            Err(e) => Err(e),
        }
    }
}

} // verus!
