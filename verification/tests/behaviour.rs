//! Programs exercising the evaluator: operators, conversions, built-ins, control
//! flow and the error paths.
use js_lite::{execute, execute_for_cookie, execute_with_context};

fn run(src: &str) -> String {
    execute(src).unwrap().trim().to_string()
}

#[test]
fn number_formatting() {
    assert_eq!(run("console.log(0.1 + 0.2)"), "0.30000000000000004");
    assert_eq!(run("console.log(1 / 3)"), "0.3333333333333333");
    assert_eq!(run("console.log(5 / 0); console.log(-5 / 0); console.log(0 / 0)"), "Infinity\n-Infinity\nNaN");
    assert_eq!(run("console.log(-0)"), "0");
    assert_eq!(run("console.log(1e21)"), "1000000000000000000000");
    assert_eq!(run("console.log(2.5e-7)"), "0.00000025000000000000004");
    assert_eq!(run("console.log(123456789012)"), "123456789012");
}

#[test]
fn number_methods() {
    assert_eq!(run("console.log((255).toString(2))"), "11111111");
    assert_eq!(run("console.log((-255).toString(16))"), "-ff");
    assert_eq!(run("console.log((3.7).toString(16))"), "3");
    assert_eq!(run("console.log((3.14159).toFixed(2))"), "3.14");
    assert_eq!(run("console.log((2.5).toFixed(0))"), "3");
    assert_eq!(run("console.log((1.005).toFixed(1))"), "1.0");
}

#[test]
fn arithmetic_and_comparison() {
    assert_eq!(run("console.log(7 % 3); console.log(-7 % 3); console.log(2 ** 10)"), "1\n-1\n1024");
    assert_eq!(run("console.log('3' * '4'); console.log('3' + 4); console.log(3 + 4 + '5')"), "12\n34\n75");
    assert_eq!(run("console.log(1 < 2, 'b' > 'a', null >= 0)"), "true false true");
    assert_eq!(run("console.log(NaN < 1, NaN >= 1)"), "false false");
}

#[test]
fn bitwise_and_shifts() {
    assert_eq!(run("console.log(~5); console.log(-1 >>> 28); console.log(1 << 31); console.log(-16 >> 2)"), "-6\n15\n-2147483648\n-4");
    assert_eq!(run("console.log(4294967296 | 0); console.log(3.9 | 0)"), "0\n3");
}

#[test]
fn equality() {
    assert_eq!(run("console.log(1 == '1', null == undefined, null === undefined)"), "true true false");
    assert_eq!(run("console.log(NaN == NaN, true == 1, '1' === 1, 0 === -0)"), "false true false true");
    assert_eq!(run("console.log([] == [], 'a' != 'b', 2 !== 2)"), "false true false");
}

#[test]
fn typeof_values() {
    assert_eq!(
        run("console.log(typeof null, typeof undefined, typeof function(){}, typeof [], typeof {}, typeof /x/)"),
        "object undefined function object object object"
    );
}

#[test]
fn string_methods_more() {
    assert_eq!(run("console.log('abcdef'.slice(-3)); console.log('abcdef'.substring(1, 3)); console.log('abc'.substr(1))"), "def\nbc\nbc");
    assert_eq!(run("console.log('a,b,c'.split(',').length); console.log('abc'.split('').join('-'))"), "3\na-b-c");
    assert_eq!(run("console.log('hello'.indexOf('l'), 'hello'.lastIndexOf('l'), 'hello'.indexOf('z'))"), "2 3 -1");
    assert_eq!(run("console.log('hello'.charAt(1), 'hello'.charCodeAt(0))"), "e 104");
    assert_eq!(run("console.log('ab'.repeat(3)); console.log('5'.padStart(3, '0')); console.log('x'.padEnd(3, 'ab'))"), "ababab\n005\nxab");
    assert_eq!(run("console.log('Hello'.replace('l', 'L')); console.log('aaa'.replaceAll('a', 'b'))"), "HeLlo\nbbb");
    assert_eq!(run("console.log('abc'.includes('b'), 'abc'.startsWith('ab'), 'abc'.endsWith('bc'))"), "true true true");
    assert_eq!(run("console.log('abc'.match(/b/)); console.log('abc'.search('c')); console.log('a'.concat('b', 1))"), "b\n2\nab1");
    assert_eq!(run("console.log('a-b-c'.split('-', 2).join('+'))"), "a+b");
}

#[test]
fn string_length_counts_utf8_bytes() {
    assert_eq!(run("console.log('héllo'.length)"), "6");
    assert_eq!(run("console.log('héllo'[1])"), "é");
}

#[test]
fn array_methods_more() {
    assert_eq!(run("console.log([3, 1, 2].sort()); console.log([1, 2, 3].reverse())"), "1,2,3\n3,2,1");
    assert_eq!(run("console.log([10, 9, 1].sort())"), "1,10,9");
    assert_eq!(run("console.log([1, 2, 3].indexOf(2), [1, 2, 3].includes(4))"), "1 false");
    assert_eq!(run("console.log([1, 2, 3, 4].slice(1, 3)); console.log([1, [2, [3]]].flat().length)"), "2,3\n3");
    assert_eq!(run("console.log([1, 2, 3].filter(x => x > 1)); console.log([1, 2, 3].reduce((a, b) => a + b))"), "2,3\n6");
    assert_eq!(run("console.log([1, 2, 3].reduce((a, b) => a + b, 10))"), "16");
    assert_eq!(run("console.log([1, 2, 3].find(x => x > 1), [1, 2, 3].findIndex(x => x > 1))"), "2 1");
    assert_eq!(run("console.log([1, 2, 3].some(x => x > 2), [1, 2, 3].every(x => x > 0))"), "true true");
    assert_eq!(run("console.log([1, 2].concat([3], 4)); console.log([0, 0].fill(7)); console.log([1, 2, 3, 4].splice(1, 2))"), "1,2,3,4\n7,7\n2,3");
}

#[test]
fn builtin_object_calls() {
    assert_eq!(run("console.log(JSON.stringify('a\"b'), JSON.stringify())"), "\"a\\\"b\" undefined");
    assert_eq!(run("console.log(Number.isNaN(0 / 0), Number.isNaN(1), Number.isFinite(1 / 0), Number.isFinite(2))"), "true false false true");
    assert_eq!(run("console.log(String.fromCharCode(72, 55296, 105), Array.from(5).length)"), "Hi 0");
    assert_eq!(run("console.log(document.getElementById('x'), document.querySelectorAll('p').length)"), "null 0");
    assert_eq!(run("document.write('a', 'b'); console.log('')"), "ab");
    assert_eq!(run("console.log(console.nothing(1))"), "undefined");
}

#[test]
fn string_method_edges() {
    assert_eq!(run("console.log('abc'.charAt(5).length, 'abc'.charCodeAt(9))"), "0 NaN");
    assert_eq!(run("console.log('abcdef'.substring(-2, 2)); console.log('abcdef'.slice(2, -1)); console.log('abcdef'.substr(-2, 1))"), "ab\ncde\ne");
    assert_eq!(run("console.log('a-b-c'.replace('-', '+')); console.log('abc'.replace('x', 'y'))"), "a+b-c\nabc");
    assert_eq!(run("console.log('abcd'.padEnd(2, '-')); console.log('x'.padStart(4) + '|')"), "abcd\n   x|");
    assert_eq!(run("console.log('a,b,c'.split(',', 2)); console.log('abc'.match('b'), 'abc'.match('z'))"), "a,b\nb null");
    assert_eq!(run("console.log('ab'.repeat(0).length, 'ab'.unknownMethod())"), "0 undefined");
}

#[test]
fn array_method_edges() {
    assert_eq!(run("console.log([1, 2, 3, 4].slice(-2)); console.log([1, 2, 3].slice(2, 1).length)"), "3,4\n0");
    assert_eq!(run("console.log([1, 2, 3].indexOf(7), [1, 2, 3].findIndex(x => x > 5))"), "-1 -1");
    assert_eq!(run("console.log([1, 2, 3].splice(1)); console.log([1, 2].splice(5).length)"), "2,3\n0");
    assert_eq!(run("console.log([1, 2].unshift(0, 0)); console.log([1, 2].nothing())"), "4\nundefined");
    assert_eq!(run("console.log([4, 5].map()); console.log([].reduce((a, b) => a + b, 9))"), "4,5\n9");
    assert_eq!(run("console.log([[1], [2, [3]]].flat(2).length, [1, 2].find(x => x > 9))"), "3 undefined");
    assert!(execute("[].reduce((a, b) => a + b)").unwrap_err().contains("Reduce of empty array"));
}

#[test]
fn array_push_grows_the_variable() {
    assert_eq!(run("var a = [1, 2, 3]; console.log(a.push(4)); console.log(a.length)"), "4\n4");
    assert_eq!(run("var a = [1, 2]; a.push(3); console.log(a.length)"), "3");
    assert_eq!(run("var a = []; a.push('x', 'y'); console.log(a.join('-'))"), "x-y");
}

#[test]
fn array_assignment_by_index_and_length() {
    assert_eq!(run("var a = []; a[2] = 'x'; console.log(a.length); console.log(a[0])"), "3\nundefined");
    assert_eq!(run("var a = [1, 2, 3, 4]; a.length = 2; console.log(a)"), "1,2");
}

#[test]
fn objects_more() {
    assert_eq!(run("console.log(Object.keys({b: 1, a: 2})); console.log(Object.values({b: 1, a: 2}))"), "a,b\n2,1");
    assert_eq!(run("console.log(Object.entries({a: 1})); console.log(Object.keys(Object.assign({a: 1}, {b: 2})))"), "a,1\na,b");
    assert_eq!(run("var o = {a: 1}; console.log(o.hasOwnProperty('a'), 'a' in o, 1 in [5, 6], o.zz)"), "true true true undefined");
    assert_eq!(run("var o = {x: {y: 2}}; o.x.y = 3; console.log(o.x.y); console.log(o?.q?.r)"), "3\nundefined");
}

#[test]
fn json_more() {
    assert_eq!(run("console.log(JSON.stringify({b: 1, a: [1, 'x', true, null]}))"), "{\"a\":[1,\"x\",true,null],\"b\":1}");
    assert_eq!(run("console.log(JSON.parse('{\"x\": [1, 2, {\"y\": \"z\"}]}').x[2].y)"), "z");
    assert_eq!(run("console.log(JSON.stringify('a\"b'))"), "\"a\\\"b\"");
}

#[test]
fn json_parse_errors() {
    assert_eq!(execute("JSON.parse('')").unwrap_err(), "unexpected end of JSON");
    assert_eq!(execute("JSON.parse('[1 2]')").unwrap_err(), "expected ',' in array");
    assert_eq!(execute("JSON.parse('x')").unwrap_err(), "unexpected character in JSON: Some('x')");
}

#[test]
fn loops_and_control_flow() {
    assert_eq!(run("for (var k in {b: 1, a: 2}) { console.log(k); }"), "a\nb");
    assert_eq!(run("for (var c of 'hi') { console.log(c); }"), "h\ni");
    assert_eq!(run("var i = 0; do { i++; } while (i < 5); console.log(i)"), "5");
    assert_eq!(run("for (var i = 0; i < 10; i++) { if (i == 2) continue; if (i == 4) break; console.log(i); }"), "0\n1\n3");
    assert_eq!(run("var x = 3; switch (x) { case 1: console.log('one'); default: console.log('d'); case 4: console.log('four'); }"), "d");
    assert_eq!(run("switch (1) { case 1: console.log('a'); case 2: console.log('b'); break; case 3: console.log('c'); }"), "a\nb");
}

#[test]
fn closures_capture_a_copy() {
    let src = "function counter() { var c = 0; return function() { c++; return c; }; } var f = counter(); console.log(f()); console.log(f());";
    assert_eq!(run(src), "1\n1");
}

#[test]
fn functions_call_themselves_by_name() {
    let src = "function fact(n) { return n <= 1 ? 1 : n * fact(n - 1); } console.log(fact(1)); console.log(fact(3));";
    assert_eq!(run(src), "1\n6");
    assert_eq!(run("function fact(n) { return n <= 1 ? 1 : n * fact(n - 1); } console.log(fact(5))"), "120");
}

#[test]
fn var_is_function_scoped() {
    assert_eq!(run("{ var x = 5; } console.log(x)"), "5");
    assert_eq!(run("if (true) { var y = 'in'; } console.log(y)"), "in");
    assert_eq!(run("function f() { if (true) { var z = 3; } return z; } console.log(f())"), "3");
    assert_eq!(run("{ let w = 1; } console.log(typeof w)"), "undefined");
}

#[test]
fn call_depth_limit() {
    let src = "function f(g) { return g(g); } f(f);";
    assert_eq!(execute(src).unwrap_err(), "Maximum call stack size exceeded");
}

#[test]
fn nested_eval_stops_at_the_depth_limit() {
    assert_eq!(execute("var s = 'eval(s)'; eval(s);").unwrap_err(), "Maximum call stack size exceeded");
    assert_eq!(run("console.log(eval('1 + 2'))"), "3");
}

#[test]
fn infinite_loop_is_cut_off() {
    assert_eq!(execute("while (true) {}").unwrap_err(), "infinite loop detected");
}

#[test]
fn errors_and_exceptions() {
    assert_eq!(execute("throw 'boom'").unwrap_err(), "Uncaught: boom");
    assert_eq!(run("try { foo(); } catch (e) { console.log(e); }"), "foo is not a function");
    assert_eq!(run("try { console.log(1); } finally { console.log(2); }"), "1\n2");
    assert_eq!(run("try { throw new Error('bad'); } catch (e) { console.log(e.message, e.name); }"), "bad Error");
    assert_eq!(execute("[].reduce(function(a, b) { return a; })").unwrap_err(), "Reduce of empty array with no initial value");
    assert_eq!(execute("var f = 3; [1].map(f)").unwrap_err(), "not a function: \"number\"");
    assert_eq!(execute("(5)++").unwrap_err(), "invalid assignment target");
    assert_eq!(execute("[...[1]]; (...x)").is_err(), true);
}

#[test]
fn syntax_errors() {
    assert_eq!(execute("var = 1;").unwrap_err(), "expected identifier in var decl, got Assign");
    assert_eq!(execute("'abc").unwrap_err(), "unterminated string literal");
    assert_eq!(execute("var x = #;").unwrap_err(), "unexpected character: '#'");
}

#[test]
fn cookies() {
    assert_eq!(execute_for_cookie("document.cookie = 'a=1'; document.cookie = 'b=2; path=/'").unwrap(), "a=1; b=2");
    assert_eq!(run("document.cookie = 'a=1'; console.log(document.cookie)"), "a=1");
    let (out, cookie) = execute_with_context(
        "console.log(location.href); console.log(location.hostname); console.log(document.cookie); document.cookie = 'x=1';",
        "init=0",
        "example.com",
        "/p",
    )
    .unwrap();
    assert_eq!(out, "https://example.com/p\nexample.com\ninit=0\n");
    assert_eq!(cookie, "init=0; x=1");
}

#[test]
fn math_functions() {
    assert_eq!(run("console.log(Math.max(1, 5, 3), Math.min(), Math.pow(2, 10))"), "5 Infinity 1024");
    assert_eq!(run("console.log(Math.round(2.5), Math.round(-2.5), Math.floor(-3.5), Math.trunc(-3.5))"), "3 -2 -4 -3");
    assert_eq!(run("console.log(Math.sqrt(16), Math.sign(-3), Math.abs(-0))"), "4 -1 0");
    assert_eq!(run("console.log(Math.clz32(1), Math.imul(3, 4), Math.hypot(3, 4))"), "31 12 5");
    assert_eq!(run("console.log(Math.PI)"), "3.141592653589793");
    assert_eq!(run("var r = Math.random(); console.log(r >= 0 && r < 1)"), "true");
}

#[test]
fn globals_and_conversions() {
    assert_eq!(run("console.log(parseFloat('3.5abc'), parseInt('  -12px'), parseInt('z'))"), "3.5 -12 NaN");
    assert_eq!(run("console.log(Number('0x1f'), Number(''), Number('1e3'), Number(true))"), "31 0 1000 1");
    assert_eq!(run("console.log(String(12), Boolean(''), Boolean('a'), isNaN('x'), isFinite('5'))"), "12 false true true true");
    assert_eq!(run("console.log(Number.isInteger(5), Number.isInteger(5.5), Number.parseInt('08'))"), "true false 8");
    assert_eq!(run("console.log(Array.isArray([]), Array.from('ab'), Array(3).length)"), "true a,b 3");
    assert_eq!(run("console.log(String.fromCharCode(104, 105), Date.now())"), "hi 1700000000000");
    assert_eq!(run("console.log(new Date().getTime())"), "1700000000000");
}

#[test]
fn uri_and_base64() {
    assert_eq!(run("console.log(encodeURIComponent('a b&c/d'))"), "a%20b%26c%2Fd");
    assert_eq!(run("console.log(encodeURI('a b&c/d'))"), "a%20b&c/d");
    assert_eq!(run("console.log(encodeURIComponent('é'))"), "%C3%A9");
    assert_eq!(run("console.log(decodeURIComponent('%C3%A9'))"), "Ã©");
    assert_eq!(run("console.log(decodeURIComponent('%zz%4'))"), "%zz%4");
    assert_eq!(run("console.log(decodeURIComponent(encodeURIComponent('hello world!')))"), "hello world!");
    assert_eq!(run("console.log(btoa('a'), btoa('ab'), btoa('abc'))"), "YQ== YWI= YWJj");
    assert_eq!(run("console.log(atob('YWJj\\n'), atob('/w==').length)"), "abc 0");
}

#[test]
fn regex_methods() {
    assert_eq!(run("console.log(/^ab+c$/.test('abbbc'), /^ab+c$/.test('abd'), /[0-9]+/.exec('ab12c'))"), "true false 12");
    assert_eq!(run("console.log(/x/.exec('abc'))"), "null");
    assert_eq!(run("console.log(new RegExp('b.d').test('abcd'))"), "true");
}

#[test]
fn set_timeout_runs_only_functions() {
    assert_eq!(run("console.log(setTimeout('x', 5))"), "0");
}

#[test]
fn cookie_parts_are_separated() {
    let cookie = execute_for_cookie("document.cookie = 'a=1;b'; document.cookie = ';x'; document.cookie = 'c=3'").unwrap();
    assert_eq!(cookie, "a=1; ; c=3");
    let chars: Vec<char> = cookie.chars().collect();
    for (i, c) in chars.iter().enumerate() {
        if *c == ';' {
            assert_eq!(chars[i + 1], ' ');
        }
    }
}

#[test]
fn arrows_and_groups() {
    assert_eq!(run("var f = (a, b) => a + b; console.log(f(2, 3))"), "5");
    assert_eq!(execute("var g = ((a), b) => a * b").unwrap_err(), "expected parameter name, got LParen");
    assert_eq!(run("console.log((1 + 2) * 3)"), "9");
    assert_eq!(run("var h = x => (x + 1) * 2; console.log(h(1))"), "4");
}

#[test]
fn number_comparisons_and_integer_parts() {
    assert_eq!(run("console.log(NaN < 1, NaN >= NaN, -0 <= 0, 2 > -Infinity)"), "false false true true");
    assert_eq!(run("console.log(Math.floor(-2.5), Math.ceil(-2.5), Math.trunc(-2.5))"), "-3 -2 -2");
    assert_eq!(run("console.log(Math.floor(7), Math.ceil(7.000001))"), "7 8");
    assert_eq!(run("console.log(parseInt('  0x1f'), parseInt('-12.9'), parseInt('abc'))"), "31 -12 NaN");
    assert_eq!(run("var o = Object.assign({a: 1, b: 2}, 5, {b: 3}); console.log(o.a, o.b)"), "1 3");
}

#[test]
fn to_fixed_of_nan_reads_as_zero() {
    assert_eq!(run("console.log(NaN.toFixed(0))"), "0");
    assert_eq!(run("console.log(NaN.toFixed(3))"), "0.000");
    assert_eq!(run("console.log((0.05).toFixed(3))"), "0.050");
}

#[test]
fn template_and_closure_capture() {
    assert_eq!(run("console.log(`plain text`)"), "plain text");
    assert_eq!(run("var a = 1; console.log(`a=${a}, b=${ {x:2}.x }`)"), "a=1, b=2");
    assert_eq!(run("var x = 1; function outer() { var x = 2; return function() { return x; }; } console.log(outer()())"), "2");
}

#[test]
fn console_log_joins_string_forms() {
    assert_eq!(execute("console.log('a', 1, true, null); console.log(undefined)").unwrap(), "a 1 true null\nundefined\n");
    assert_eq!(run("console.log([1, 'b', null])"), "1,b,null");
}

#[test]
fn if_else_runs_the_chosen_branch() {
    assert_eq!(run("if (1 < 2) { console.log('yes'); } else { console.log('no'); }"), "yes");
    assert_eq!(run("var a = 3; if (a === 4) console.log('four'); else console.log('other')"), "other");
    assert_eq!(run("console.log(2 > 1 ? 'big' : 'small', null ?? 'dflt', 0 || 'or')"), "big dflt or");
}

#[test]
fn cookie_assignments_append_their_first_part() {
    assert_eq!(execute_for_cookie("document.cookie = 'a=1; path=/'; document.cookie = 'b=2'").unwrap(), "a=1; b=2");
}

#[test]
fn index_methods_on_strings() {
    assert_eq!(run("console.log('abcabc'.indexOf('c'), 'abcabc'.lastIndexOf('c'), 'abcabc'.indexOf('c', 3), 'abc'.search('z'))"), "2 5 5 -1");
    assert_eq!(run("console.log(Math.abs(-3), Math.abs(2))"), "3 2");
}

#[test]
fn switch_falls_through_until_break() {
    assert_eq!(run("switch (2) { case 1: console.log('one'); case 2: console.log('two'); case 3: console.log('three'); break; case 4: console.log('four'); }"), "two\nthree");
    assert_eq!(run("switch ('x') { case 'y': console.log('y'); break; default: console.log('d'); }"), "d");
    assert_eq!(run("var k = 5; switch (k) { case 1: console.log('a'); }"), "");
}

#[test]
fn hex_literals_read_their_value() {
    assert_eq!(run("console.log(0xFF, 0x10, 0Xa)"), "255 16 10");
}

#[test]
fn for_in_and_for_of_parse_their_parts() {
    assert_eq!(run("var o = {a: 1, b: 2}; var ks = ''; for (var k in o) ks = ks + k; console.log(ks)"), "ab");
    assert_eq!(run("var s = 0; var xs = [1, 2, 3]; for (var x of xs) s = s + x; console.log(s)"), "6");
}

#[test]
fn global_functions_follow_their_contracts() {
    assert_eq!(run("console.log(parseInt('42px'), isFinite(1 / 0), isFinite(3))"), "42 false true");
    assert_eq!(execute("nosuch(1)").unwrap_err(), "nosuch is not a function");
    assert_eq!(run("setTimeout(function() { console.log('ran'); }, 10); console.log('after')"), "ran\nafter");
}
