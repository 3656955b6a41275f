//! Behaviour of the interpreter on whole programs.
use js_lite::{execute, execute_for_cookie};


#[test]
fn test_hello_world() {
    let out = execute("console.log('hello world')").unwrap();
    assert_eq!(out.trim(), "hello world");
}

#[test]
fn test_variables_and_math() {
    let out = execute("var x = 2 + 3; console.log(x)").unwrap();
    assert_eq!(out.trim(), "5");
}

#[test]
fn test_string_concat() {
    let out = execute("var a = 'hello'; var b = ' world'; console.log(a + b)").unwrap();
    assert_eq!(out.trim(), "hello world");
}

#[test]
fn test_if_else() {
    let out = execute("var x = 10; if (x > 5) { console.log('big'); } else { console.log('small'); }").unwrap();
    assert_eq!(out.trim(), "big");
}

#[test]
fn test_for_loop() {
    let out = execute("for (var i = 0; i < 3; i++) { console.log(i); }").unwrap();
    assert_eq!(out.trim(), "0\n1\n2");
}

#[test]
fn test_while_loop() {
    let out = execute("var x = 0; while (x < 3) { console.log(x); x++; }").unwrap();
    assert_eq!(out.trim(), "0\n1\n2");
}

#[test]
fn test_function_def() {
    let out = execute("function add(a, b) { return a + b; } console.log(add(3, 4))").unwrap();
    assert_eq!(out.trim(), "7");
}

#[test]
fn test_bitwise_ops() {
    let out = execute("console.log(0xFF & 0x0F); console.log(0x0F | 0xF0); console.log(5 ^ 3); console.log(1 << 4)").unwrap();
    assert_eq!(out.trim(), "15\n255\n6\n16");
}

#[test]
fn test_parse_int() {
    let out = execute("console.log(parseInt('42')); console.log(parseInt('0xFF', 16)); console.log(parseInt('10', 2))").unwrap();
    assert_eq!(out.trim(), "42\n255\n2");
}

#[test]
fn test_string_methods() {
    let out = execute("console.log('hello'.toUpperCase()); console.log('HELLO'.toLowerCase()); console.log('  hi  '.trim())").unwrap();
    assert_eq!(out.trim(), "HELLO\nhello\nhi");
}

#[test]
fn test_array_methods() {
    let out = execute("var a = [1, 2, 3]; console.log(a.join('-')); console.log(a.map(function(x) { return x * 2; }).join(','))").unwrap();
    assert_eq!(out.trim(), "1-2-3\n2,4,6");
}

#[test]
fn test_math_floor_ceil() {
    let out = execute("console.log(Math.floor(3.7)); console.log(Math.ceil(3.2)); console.log(Math.abs(-5))").unwrap();
    assert_eq!(out.trim(), "3\n4\n5");
}

#[test]
fn test_btoa_atob() {
    let out = execute("var encoded = btoa('hello'); console.log(encoded); console.log(atob(encoded))").unwrap();
    assert_eq!(out.trim(), "aGVsbG8=\nhello");
}

#[test]
fn test_encode_uri_component() {
    let out = execute("console.log(encodeURIComponent('hello world'))").unwrap();
    assert_eq!(out.trim(), "hello%20world");
}

#[test]
fn test_document_cookie() {
    let cookie = execute_for_cookie("document.cookie = 'cf_clearance=abc123; path=/'").unwrap();
    assert_eq!(cookie, "cf_clearance=abc123");
}

#[test]
fn test_ternary() {
    let out = execute("var x = 5; console.log(x > 3 ? 'yes' : 'no')").unwrap();
    assert_eq!(out.trim(), "yes");
}

#[test]
fn test_arrow_function() {
    let out = execute("var double = x => x * 2; console.log(double(21))").unwrap();
    assert_eq!(out.trim(), "42");
}

#[test]
fn test_template_literal() {
    let out = execute("var x = 42; console.log(`value is ${x}`)").unwrap();
    assert_eq!(out.trim(), "value is 42");
}

#[test]
fn test_try_catch() {
    let out = execute("try { throw 'oops'; } catch(e) { console.log('caught: ' + e); }").unwrap();
    assert_eq!(out.trim(), "caught: oops");
}

#[test]
fn test_typeof() {
    let out = execute("console.log(typeof 42); console.log(typeof 'hi'); console.log(typeof true)").unwrap();
    assert_eq!(out.trim(), "number\nstring\nboolean");
}

#[test]
fn test_object_literal() {
    let out = execute("var o = {a: 1, b: 'hello'}; console.log(o.a); console.log(o.b)").unwrap();
    assert_eq!(out.trim(), "1\nhello");
}

#[test]
fn test_json_stringify_parse() {
    let out = execute(r#"var o = {a: 1}; var s = JSON.stringify(o); console.log(s); var p = JSON.parse(s); console.log(p.a)"#).unwrap();
    assert_eq!(out.trim(), "{\"a\":1}\n1");
}

#[test]
fn test_string_char_code() {
    let out = execute("console.log(String.fromCharCode(65, 66, 67))").unwrap();
    assert_eq!(out.trim(), "ABC");
}

#[test]
fn test_regex_test() {
    let out = execute("var re = /\\d+/; console.log(re.test('abc123'))").unwrap();
    assert_eq!(out.trim(), "true");
}

#[test]
fn test_switch() {
    let out = execute("var x = 2; switch(x) { case 1: console.log('one'); break; case 2: console.log('two'); break; default: console.log('other'); }").unwrap();
    assert_eq!(out.trim(), "two");
}

#[test]
fn test_set_timeout_stub() {
    let out = execute("setTimeout(function() { console.log('fired'); }, 100)").unwrap();
    assert_eq!(out.trim(), "fired");
}

#[test]
fn test_nullish_coalescing() {
    let out = execute("var x = null; console.log(x ?? 'default')").unwrap();
    assert_eq!(out.trim(), "default");
}

#[test]
fn test_number_to_string_radix() {
    let out = execute("console.log((255).toString(16))").unwrap();
    assert_eq!(out.trim(), "ff");
}

#[test]
fn test_cloudflare_style_math() {
    // Typical Cloudflare challenge pattern: accumulate values
    let code = r#"
        var t = 'example.com';
        var a = {};
        a.value = 47 * 31 + 16;
        a.value += 3 * 7;
        a.value = Math.round(a.value / 2);
        console.log(a.value);
    "#;
    let out = execute(code).unwrap();
    assert!(out.trim().parse::<f64>().is_ok());
}
