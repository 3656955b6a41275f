//! Concrete cases of the library's stated properties: safe-integer arithmetic, the
//! fresh interpreter's globals, plain-pattern matching, and whole runs of plain scripts,
//! thrown strings and unterminated literals.
use js_lite::double::Double;
use js_lite::regex::simple_regex_match;
use js_lite::tokenizer::{tokenize, Token};
use js_lite::value::Value;
use js_lite::{execute, execute_for_cookie, execute_with_context, Interpreter};

fn d(n: i64) -> Double {
    Double::from_i64(n)
}

fn chars(s: &str) -> Vec<char> {
    s.chars().collect()
}

#[test]
fn safe_integer_sum_is_exact() {
    let r = d(1473).add(&d(21));
    assert_eq!(r.bits, d(1494).bits);
    assert_eq!(r.safe_int(), Some(1494));
    let big = d(0x1F_FFFF_FFFF_FFFE).add(&d(1));
    assert_eq!(big.safe_int(), Some(0x1F_FFFF_FFFF_FFFF));
    assert_eq!(d(5).add(&d(-5)).bits, 0);
}

#[test]
fn safe_integer_difference_is_exact() {
    assert_eq!(d(2).sub(&d(3)).safe_int(), Some(-1));
    assert_eq!(d(-40).sub(&d(2)).bits, d(-42).bits);
    assert_eq!(d(7).sub(&d(7)).bits, 0);
}

#[test]
fn safe_integer_product_is_exact() {
    assert_eq!(d(47).mul(&d(31)).safe_int(), Some(1457));
    assert_eq!(d(-3).mul(&d(7)).bits, d(-21).bits);
    assert_eq!(d(67_108_864).mul(&d(67_108_863)).safe_int(), Some(4_503_599_560_261_632));
}

#[test]
fn safe_int_reads_integers_only() {
    assert_eq!(d(-9).safe_int(), Some(-9));
    assert_eq!(Double::zero(true).safe_int(), Some(0));
    assert_eq!(Double::nan().safe_int(), None);
    assert_eq!(Double::infinity(false).safe_int(), None);
    assert_eq!(d(1).div(&d(2)).safe_int(), None);
    assert_eq!(Double::from_u64(1 << 53).safe_int(), None);
}

#[test]
fn fresh_interpreter_globals() {
    let interp = Interpreter::new();
    assert_eq!(interp.scopes.len(), 1);
    let vars = &interp.scopes[0].vars;
    match vars.get(&chars("document")) {
        Some(Value::Object(doc)) => match doc.get(&chars("cookie")) {
            Some(Value::Str(c)) => assert!(c.is_empty()),
            _ => panic!("document.cookie is not a string"),
        },
        _ => panic!("document is not an object"),
    }
    match vars.get(&chars("Math")) {
        Some(Value::Object(m)) => match m.get(&chars("PI")) {
            Some(Value::Number(pi)) => assert_eq!(pi.bits, 0x400921fb54442d18),
            _ => panic!("Math.PI is not a number"),
        },
        _ => panic!("Math is not an object"),
    }
    assert!(matches!(vars.get(&chars("console")), Some(Value::Object(_))));
    assert!(matches!(vars.get(&chars("NaN")), Some(Value::Number(n)) if n.is_nan()));
    match vars.get(&chars("location")) {
        Some(Value::Object(l)) => {
            assert!(matches!(l.get(&chars("pathname")), Some(Value::Str(p)) if *p == chars("/")));
            assert!(matches!(l.get(&chars("protocol")), Some(Value::Str(p)) if *p == chars("https:")));
        },
        _ => panic!("location is not an object"),
    }
}

#[test]
fn plain_pattern_match_found_or_not() {
    assert_eq!(simple_regex_match(&chars("a cookie jar"), &chars("cookie")), Some(chars("cookie")));
    assert_eq!(simple_regex_match(&chars("a cookie jar"), &chars("cake")), None);
    assert_eq!(simple_regex_match(&chars("abc"), &chars("")), Some(chars("")));
}

#[test]
fn plain_script_output() {
    assert_eq!(
        execute("console.log('a', true, null); console.log(undefined)").unwrap(),
        "a true null\nundefined\n"
    );
    assert_eq!(execute("console.log('hello world')").unwrap(), "hello world\n");
}

#[test]
fn plain_script_cookie_parts() {
    assert_eq!(
        execute_for_cookie("document.cookie = 'a=1; path=/'; document.cookie = 'b=2'").unwrap(),
        "a=1; b=2"
    );
    let (out, cookie) = execute_with_context(
        "document.cookie = 'session=abc; path=/';",
        "existing=value",
        "example.com",
        "/page",
    )
    .unwrap();
    assert_eq!(out, "");
    assert_eq!(cookie, "existing=value; session=abc");
}

#[test]
fn thrown_string_is_the_error() {
    assert_eq!(execute("throw 'oops'").unwrap_err(), "Uncaught: oops");
    assert_eq!(execute("throw \"x\";;").unwrap_err(), "Uncaught: x");
    assert_eq!(execute_for_cookie("throw 'no cookie'").unwrap_err(), "Uncaught: no cookie");
}

#[test]
fn unterminated_literal_is_the_error() {
    assert_eq!(execute("var s = 'abc").unwrap_err(), "unterminated string literal");
    assert_eq!(execute_for_cookie("console.log(\"x").unwrap_err(), "unterminated string literal");
}

#[test]
fn math_min_max_pick_an_argument() {
    assert_eq!(execute("console.log(Math.max(3, 7, 5))").unwrap(), "7\n");
    assert_eq!(execute("console.log(Math.min(3, -7, 5))").unwrap(), "-7\n");
    assert_eq!(execute("console.log(Math.min(2))").unwrap(), "2\n");
}

#[test]
fn empty_endless_loops_hit_the_limit() {
    assert_eq!(execute("for (;;) {}").unwrap_err(), "infinite loop detected");
    assert_eq!(execute("for (; true;);").unwrap_err(), "infinite loop detected");
    assert_eq!(execute("while (true) {}").unwrap_err(), "infinite loop detected");
    assert_eq!(execute("while (true);").unwrap_err(), "infinite loop detected");
    assert_eq!(execute_for_cookie("while (true);;").unwrap_err(), "infinite loop detected");
}

#[test]
fn set_timeout_runs_its_callback_once() {
    assert_eq!(
        execute("setTimeout(function() { console.log('tick'); }, 100); console.log('after')").unwrap(),
        "tick\nafter\n"
    );
    assert_eq!(
        execute_for_cookie("setTimeout(function() { document.cookie = 'later=1'; }, 5000)").unwrap(),
        "later=1"
    );
}

#[test]
fn callbacks_run_once_per_item() {
    assert_eq!(execute("[1, 2, 3].forEach(function(x) { console.log('x'); })").unwrap(), "x\nx\nx\n");
    assert_eq!(
        execute("var r = [1, 2].map(function(x) { console.log('m'); }); console.log(r.length, r[0])").unwrap(),
        "m\nm\n2 undefined\n"
    );
}

#[test]
fn declarations_bind_their_value() {
    assert_eq!(execute("var x = 'a'; console.log(x)").unwrap(), "a\n");
    assert_eq!(execute("let y; console.log(y)").unwrap(), "undefined\n");
    assert_eq!(execute("{ var z = true; } console.log(z)").unwrap(), "true\n");
}

#[test]
fn try_catch_and_finally_on_plain_bodies() {
    assert_eq!(
        execute("try { throw 'x'; } catch (e) { console.log('caught'); } finally { console.log('done'); }").unwrap(),
        "caught\ndone\n"
    );
    assert_eq!(
        execute("try { console.log('a'); } catch (e) { console.log('b'); } finally { console.log('c'); }").unwrap(),
        "a\nc\n"
    );
}

#[test]
fn safe_integer_expressions() {
    assert_eq!(execute("console.log(2 + 3)").unwrap(), "5\n");
    assert_eq!(execute("var x = 47 * 31 + 16; console.log(x)").unwrap(), "1473\n");
    assert_eq!(execute("console.log(10 - 12, 6 * -7)").unwrap(), "-2 -42\n");
}

#[test]
fn slash_is_division_after_a_value_and_a_regex_elsewhere() {
    let toks = tokenize("a / b").unwrap();
    assert!(matches!(toks[1], Token::Slash));
    let toks = tokenize("x /= 2").unwrap();
    assert!(matches!(toks[1], Token::SlashAssign));
    let toks = tokenize("(/ab+c/g)").unwrap();
    assert!(matches!(toks[1], Token::Regex(_, _)));
    let toks = tokenize("a >>>= b").unwrap();
    assert_eq!(toks.len(), 4);
}

#[test]
fn digit_strings_convert_exactly() {
    assert_eq!(Value::Str(chars(" 1473 ")).to_number().safe_int(), Some(1473));
    assert_eq!(Value::Str(chars("9007199254740991")).to_number().safe_int(), Some(9007199254740991));
    assert_eq!(Value::Str(chars("0")).to_number().bits, 0);
    assert_eq!(execute("console.log(Number(' 42 ') + 1)").unwrap(), "43\n");
}

#[test]
fn pure_integer_arithmetic_law_cases() {
    assert_eq!(d(47).mul(&d(31)).add(&d(16)).safe_int(), Some(1473));
    assert_eq!(d(1494).sub(&d(747)).safe_int(), Some(747));
}

#[test]
fn safe_integer_quotient_and_rounding() {
    assert_eq!(d(1494).div(&d(2)).safe_int(), Some(747));
    assert_eq!(d(-42).div(&d(6)).safe_int(), Some(-7));
    assert_eq!(d(1).div(&d(3)).safe_int(), None);
    assert_eq!(
        execute("var a = {}; a.value = 47 * 31 + 16; a.value += 3 * 7; a.value = Math.round(a.value / 2); console.log(a.value);").unwrap(),
        "747\n"
    );
    assert_eq!(execute("console.log(Math.round(-3), Math.round(2.5))").unwrap(), "-3 3\n");
}
