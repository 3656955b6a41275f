//! A small JavaScript interpreter: tokenizer, parser and tree-walking evaluator for
//! the subset of the language that challenge scripts use (arithmetic, strings,
//! objects, arrays, functions, control flow, `document.cookie`).
//!
//! Numbers are binary64 values computed with integer arithmetic (`double`); strings
//! are character vectors.
use vstd::prelude::*;
use vstd::string::StringSliceAdditionalSpecFns;

pub mod double;
pub mod text;
pub mod numparse;
pub mod debugfmt;
pub mod tokenizer;
pub mod parser;
pub mod astclone;
pub mod bignum;
pub mod numfmt;
pub mod mathfn;
pub mod value;
pub mod builtins;
pub mod regex;
pub mod json;
pub mod eval;
pub mod methods;

pub use crate::eval::Interpreter;
pub use crate::value::Value;
use crate::eval::{Signal, pure_throw, spins, for_spins, follows, seq_prefix, cookie_separated, all_empty_stmts, simple_seq, run_plain, RunText, lemma_plain_seq_pub};
use crate::tokenizer::{lex_views, lex_error};
use crate::parser::{plain_script_view, stmt_is_plain, throw_lit_view, spin_view, Expr};
use crate::parser::Stmt;
use crate::value::{scalar_form, lemma_equiv_scalar_form};
use crate::text::{str_to_chars, chars_to_string, push_all, push_str};

verus! {

/// Runs statements on an interpreter; an uncaught `throw` becomes the error
/// `Uncaught: <value>`, every other way of finishing is success.
pub fn run_block(interp: &mut Interpreter, stmts: &Vec<Stmt>) -> (r: Result<(), Vec<char>>)
    requires
        old(interp).wf(),
    ensures
        follows(*old(interp), *final(interp)),
        all_empty_stmts(stmts@) ==> r is Ok && *final(interp) == *old(interp),
        simple_seq(old(interp).scopes@, (old(interp).output@, old(interp).cookie@), stmts@) matches Some(
            (o, ob),
        ) ==> r is Ok && final(interp).output@ == o.0 && final(interp).cookie@ == o.1,
        stmts@.len() > 0 ==> (pure_throw(old(interp).scopes@, stmts@[0]) matches Some(v) ==> (
        scalar_form(v) matches Some(t) ==> (r matches Err(m) && m@ == "Uncaught: "@ + t))),
        stmts@.len() > 0 && (spins(old(interp).scopes@, (old(interp).output@, old(interp).cookie@), stmts@[0])
            || for_spins(stmts@[0])) ==> (r matches Err(e) && e@ == "infinite loop detected"@),
{
    match interp.exec_block(stmts) {
        Ok(Signal::Throw(val)) => {
            let mut msg = str_to_chars("Uncaught: ");
            let text = val.to_string_val();
            proof {
                if stmts@.len() > 0 && pure_throw(old(interp).scopes@, stmts@[0]) is Some {
                    lemma_equiv_scalar_form(pure_throw(old(interp).scopes@, stmts@[0])->0, val);
                }
            }
            push_all(&mut msg, text.as_slice());
            Err(msg)
        },
        Ok(_) => Ok(()),
        Err(e) => Err(e),
    }
}

/// `source` holds nothing but blank space and comments.
pub open spec fn blank_source(source: &str) -> bool {
    crate::tokenizer::skip_ws_comments(source.spec_bytes(), 0) >= source.spec_bytes().len()
}

/// The output and cookie after running `source`, starting from no output and the cookie
/// `c`, where `source` is a plain script: statements `console.log(...)` with string,
/// boolean, `null` and `undefined` arguments and `document.cookie = '...'`, separated by
/// `;`. `None` for every other source.
pub open spec fn plain_run(source: Seq<u8>, c: Seq<char>) -> Option<RunText> {
    match lex_views(source, 0) {
        Some(vs) => match plain_script_view(vs, 0) {
            Some(effs) => Some(run_plain(effs, (Seq::empty(), c))),
            None => None,
        },
        None => None,
    }
}

/// The error of a script `throw '...'` (then only semicolons): `Uncaught: ` and the string.
pub open spec fn throw_message(source: Seq<u8>) -> Option<Seq<char>> {
    match lex_views(source, 0) {
        Some(vs) => match throw_lit_view(vs) {
            Some(x) => Some("Uncaught: "@ + x),
            None => None,
        },
        None => None,
    }
}

/// Tokenizes and parses `source`.
/// `source` is the script `while (true);`: a loop that never ends.
pub open spec fn spin_source(source: Seq<u8>) -> bool {
    lex_views(source, 0) matches Some(vs) && spin_view(vs)
}

fn load(source: &str) -> (r: Result<Vec<Stmt>, Vec<char>>)
    ensures
        spin_source(source.spec_bytes()) ==> (r matches Ok(v) && v@.len() == 1 && v@[0] == Stmt::While(
            Expr::Bool(true),
            Box::new(Stmt::Empty),
        )),
        lex_error(source.spec_bytes(), 0) matches Some(m) ==> (r matches Err(e) && e@ == m),
        lex_views(source.spec_bytes(), 0) matches Some(vs) ==> (throw_lit_view(vs) matches Some(x)
            ==> (r matches Ok(v) && v@.len() == 1 && (v@[0] matches Stmt::Throw(e) && (e matches Expr::Str(
            s,
        ) && s@ == x)))),
        blank_source(source) ==> (r matches Ok(v) && v@.len() == 0),
        lex_views(source.spec_bytes(), 0) matches Some(vs) ==> (plain_script_view(vs, 0) matches Some(
            effs,
        ) ==> (r matches Ok(v) && v@.len() == effs.len() && forall|i: int|
            0 <= i < v@.len() ==> stmt_is_plain(#[trigger] v@[i], effs[i]))),
{
    let tokens = crate::tokenizer::tokenize(source)?;
    crate::parser::parse(tokens)
}

/// Runs `source` and gives what it wrote with `console.log` (one line per call). A
/// tokenizer or parser error comes back as it is; an uncaught `throw` of `v` gives
/// `Uncaught: ` and the string form of `v`.
pub fn execute(source: &str) -> (r: Result<String, String>)
    ensures
        blank_source(source) ==> (r matches Ok(out) && out@.len() == 0),
        plain_run(source.spec_bytes(), Seq::empty()) matches Some(o) ==> (r matches Ok(out) && out@
            == o.0),
        throw_message(source.spec_bytes()) matches Some(m) ==> (r matches Err(e) && e@ == m),
        lex_error(source.spec_bytes(), 0) matches Some(m) ==> (r matches Err(e) && e@ == m),
        spin_source(source.spec_bytes()) ==> (r matches Err(e) && e@ == "infinite loop detected"@),
{
    let ast = match load(source) {
        Ok(a) => a,
        Err(e) => {
            return Err(chars_to_string(&e));
        },
    };
    let mut interp = Interpreter::new();
    proof {
        assert(interp.output@ =~= Seq::<char>::empty());
        assert(interp.cookie@ =~= Seq::<char>::empty());
        if lex_views(source.spec_bytes(), 0) is Some {
            if plain_script_view(lex_views(source.spec_bytes(), 0)->0, 0) is Some {
                lemma_plain_seq_pub(
                    interp.scopes@,
                    (interp.output@, interp.cookie@),
                    ast@,
                    plain_script_view(lex_views(source.spec_bytes(), 0)->0, 0)->0,
                );
            }
        }
    }
    match run_block(&mut interp, &ast) {
        Ok(()) => {},
        Err(e) => {
            return Err(chars_to_string(&e));
        },
    }
    let out = interp.take_output();
    Ok(chars_to_string(&out))
}

/// Runs `source` and gives the final value of `document.cookie`: the parts assigned to it,
/// separated by `"; "` (every `;` in it is followed by a space).
pub fn execute_for_cookie(source: &str) -> (r: Result<String, String>)
    ensures
        r matches Ok(cookie) ==> cookie_separated(Seq::empty(), cookie@),
        blank_source(source) ==> (r matches Ok(cookie) && cookie@.len() == 0),
        plain_run(source.spec_bytes(), Seq::empty()) matches Some(o) ==> (r matches Ok(cookie)
            && cookie@ == o.1),
        throw_message(source.spec_bytes()) matches Some(m) ==> (r matches Err(e) && e@ == m),
        lex_error(source.spec_bytes(), 0) matches Some(m) ==> (r matches Err(e) && e@ == m),
        spin_source(source.spec_bytes()) ==> (r matches Err(e) && e@ == "infinite loop detected"@),
{
    let ast = match load(source) {
        Ok(a) => a,
        Err(e) => {
            return Err(chars_to_string(&e));
        },
    };
    let mut interp = Interpreter::new();
    proof {
        assert(interp.output@ =~= Seq::<char>::empty());
        assert(interp.cookie@ =~= Seq::<char>::empty());
        if lex_views(source.spec_bytes(), 0) is Some {
            if plain_script_view(lex_views(source.spec_bytes(), 0)->0, 0) is Some {
                lemma_plain_seq_pub(
                    interp.scopes@,
                    (interp.output@, interp.cookie@),
                    ast@,
                    plain_script_view(lex_views(source.spec_bytes(), 0)->0, 0)->0,
                );
            }
        }
    }
    match run_block(&mut interp, &ast) {
        Ok(()) => {},
        Err(e) => {
            return Err(chars_to_string(&e));
        },
    }
    Ok(chars_to_string(interp.get_cookie()))
}

/// Runs `source` with `document.cookie` set to `initial_cookie` and `location` set to
/// `https://<hostname><path>`; gives the output and the final cookie. Assignments to
/// `document.cookie` only append, so the final cookie starts with `initial_cookie`.
pub fn execute_with_context(source: &str, initial_cookie: &str, hostname: &str, path: &str) -> (r:
    Result<(String, String), String>)
    ensures
        r matches Ok((out, cookie)) ==> seq_prefix(initial_cookie@, cookie@) && cookie_separated(
            initial_cookie@,
            cookie@,
        ),
        blank_source(source) ==> (r matches Ok((out, cookie)) && out@.len() == 0 && cookie@
            == initial_cookie@),
        plain_run(source.spec_bytes(), initial_cookie@) matches Some(o) ==> (r matches Ok(
            (out, cookie),
        ) && out@ == o.0 && cookie@ == o.1),
        throw_message(source.spec_bytes()) matches Some(m) ==> (r matches Err(e) && e@ == m),
        lex_error(source.spec_bytes(), 0) matches Some(m) ==> (r matches Err(e) && e@ == m),
        spin_source(source.spec_bytes()) ==> (r matches Err(e) && e@ == "infinite loop detected"@),
{
    let ast = match load(source) {
        Ok(a) => a,
        Err(e) => {
            return Err(chars_to_string(&e));
        },
    };
    let mut interp = Interpreter::new();
    let cookie = str_to_chars(initial_cookie);
    interp.set_cookie(cookie);
    let doc_name = str_to_chars("document");
    match interp.take_var(doc_name.as_slice()) {
        Some(Value::Object(mut doc)) => {
            doc.insert(str_to_chars("cookie"), Value::Str(str_to_chars(initial_cookie)));
            interp.set_global(doc_name.as_slice(), Value::Object(doc));
        },
        _ => {},
    }
    let loc_name = str_to_chars("location");
    match interp.take_var(loc_name.as_slice()) {
        Some(Value::Object(mut loc)) => {
            loc.insert(str_to_chars("hostname"), Value::Str(str_to_chars(hostname)));
            loc.insert(str_to_chars("pathname"), Value::Str(str_to_chars(path)));
            let mut href = str_to_chars("https://");
            push_str(&mut href, hostname);
            push_str(&mut href, path);
            loc.insert(str_to_chars("href"), Value::Str(href));
            interp.set_global(loc_name.as_slice(), Value::Object(loc));
        },
        _ => {},
    }
    let ghost before = interp;
    assert(before.cookie@ == initial_cookie@);
    proof {
        assert(interp.output@ =~= Seq::<char>::empty());
        if lex_views(source.spec_bytes(), 0) is Some {
            if plain_script_view(lex_views(source.spec_bytes(), 0)->0, 0) is Some {
                lemma_plain_seq_pub(
                    interp.scopes@,
                    (interp.output@, interp.cookie@),
                    ast@,
                    plain_script_view(lex_views(source.spec_bytes(), 0)->0, 0)->0,
                );
            }
        }
    }
    match run_block(&mut interp, &ast) {
        Ok(()) => {},
        Err(e) => {
            return Err(chars_to_string(&e));
        },
    }
    let output = interp.take_output();
    let cookie = chars_to_string(interp.get_cookie());
    Ok((chars_to_string(&output), cookie))
}

} // verus!
