//! Number arithmetic and formatting, the lexer's tokens, and the array and object
//! helpers, called directly.
use js_lite::bignum::Big;
use js_lite::debugfmt::{debug_char, debug_str, debug_token, hex_lower};
use js_lite::double::Double;
use js_lite::mathfn::{ceil, floor, trunc};
use js_lite::methods::{flatten_array, object_static_call, sort_by_string};
use js_lite::numfmt::{
    debug_number, display_number, format_number, i64_to_dec, number_to_string, plain_decimal,
    shortest_digits, u64_to_dec,
};
use js_lite::parser::{assign_op_of, binop_at_level, keyword_as_ident, AssignOp, BinOp};
use js_lite::tokenizer::{keyword_or_ident, tokenize, Token};
use js_lite::value::{PropMap, Value};

fn cs(s: &str) -> Vec<char> {
    s.chars().collect()
}

fn st(v: &[char]) -> String {
    v.iter().collect()
}

fn d(x: f64) -> Double {
    Double::from_bits(x.to_bits())
}

fn f(x: Double) -> f64 {
    f64::from_bits(x.bits)
}

fn strs(v: &[Value]) -> Vec<String> {
    v.iter()
        .map(|x| match x {
            Value::Str(s) => st(s),
            _ => String::from("?"),
        })
        .collect()
}

#[test]
fn big_arithmetic() {
    let mut a = Big::from_u64(0xFFFF_FFFF_FFFF_FFFF);
    a.mul_small(10);
    let mut b = Big::from_u64(0xFFFF_FFFF_FFFF_FFFF);
    b.shl(3);
    let mut c = Big::from_u64(0xFFFF_FFFF_FFFF_FFFF);
    c.mul_pow10(1);
    // 10 x > 8 x, 10 x == 10 x
    assert_eq!(a.compare(&b), 1);
    assert_eq!(b.compare(&a), -1);
    assert_eq!(a.compare(&c), 0);
    let mut one = Big::from_u64(1);
    one.shl(100);
    let mut two = Big::from_u64(2);
    two.shl(99);
    assert_eq!(one.compare(&two), 0);
}

#[test]
fn decimal_digits() {
    assert_eq!(st(&u64_to_dec(0)), "0");
    assert_eq!(st(&u64_to_dec(1234567890)), "1234567890");
    assert_eq!(st(&i64_to_dec(-42)), "-42");
    assert_eq!(st(&i64_to_dec(i64::MIN)), "-9223372036854775808");
    assert_eq!(st(&plain_decimal(125, -2)), "1.25");
    assert_eq!(st(&plain_decimal(5, -3)), "0.005");
    assert_eq!(st(&plain_decimal(12, 3)), "12000");
}

#[test]
fn shortest_decimal_reads_back() {
    // 0.1 = 0x3FB999999999999A: significand 0x1999999999999A, exponent -56
    assert_eq!(shortest_digits(0x1999_9999_9999_9A, -56), (1, -1));
    // 1/3
    let (digits, k) = shortest_digits(0x15555555555555, -54);
    assert_eq!((digits, k), (3333333333333333, -16));
}

#[test]
fn number_text() {
    assert_eq!(st(&format_number(&d(42.0))), "42");
    assert_eq!(st(&format_number(&d(-7.0))), "-7");
    assert_eq!(st(&format_number(&d(0.1 + 0.2))), "0.30000000000000004");
    assert_eq!(st(&format_number(&d(1e15))), "1000000000000000");
    assert_eq!(st(&format_number(&d(f64::NAN))), "NaN");
    assert_eq!(st(&format_number(&d(f64::NEG_INFINITY))), "-Infinity");
    assert_eq!(st(&format_number(&d(-0.0))), "0");
    assert_eq!(st(&display_number(&d(-0.0))), "-0");
    assert_eq!(st(&display_number(&d(2.5))), "2.5");
    assert_eq!(st(&debug_number(&d(1.0))), "1.0");
    assert_eq!(st(&debug_number(&d(1e-7))), "1e-7");
    assert_eq!(st(&debug_number(&d(1.5e20))), "1.5e20");
}

#[test]
fn number_in_radix() {
    assert_eq!(st(&number_to_string(&d(255.0), 16).unwrap()), "ff");
    assert_eq!(st(&number_to_string(&d(-255.9), 2).unwrap()), "-11111111");
    assert_eq!(st(&number_to_string(&d(35.0), 36).unwrap()), "z");
    assert_eq!(st(&number_to_string(&d(-0.5), 2).unwrap()), "0");
    assert_eq!(st(&number_to_string(&d(3.0), 10).unwrap()), "3");
    assert!(number_to_string(&d(3.0), 1).is_err());
    assert_eq!(st(&number_to_string(&d(0.0), 1).unwrap()), "0");
}

#[test]
fn integer_parts() {
    assert_eq!(f(floor(&d(-1.5))), -2.0);
    assert_eq!(f(floor(&d(2.0))), 2.0);
    assert_eq!(f(ceil(&d(1.2))), 2.0);
    assert_eq!(f(ceil(&d(-1.2))), -1.0);
    assert_eq!(f(trunc(&d(-1.7))), -1.0);
    assert_eq!(f(trunc(&d(123456.999))), 123456.0);
    assert!(f(floor(&d(f64::NAN))).is_nan());
    assert_eq!(f(ceil(&d(f64::INFINITY))), f64::INFINITY);
}

#[test]
fn comparisons_and_conversions() {
    assert!(d(-1.0).lt(&d(0.5)));
    assert!(!d(f64::NAN).le(&d(f64::NAN)));
    assert!(d(0.0).eq(&d(-0.0)));
    assert!(d(f64::INFINITY).gt(&d(1e308)));
    assert_eq!(d(-3.99).to_i64(), -3);
    assert_eq!(d(1e30).to_i64(), i64::MAX);
    assert_eq!(d(-5.0).to_u32_sat(), 0);
    assert_eq!(f(Double::from_i64(-9007199254740991)), -9007199254740991.0);
    assert_eq!(Value::Number(d(4294967301.0)).to_i32(), 5);
    assert_eq!(Value::Number(d(-1.0)).to_u32(), 4294967295);
    assert_eq!(Value::Bool(true).to_i32(), 1);
}

#[test]
fn operators_are_read_longest_first() {
    let toks = tokenize(">>>= >>= >> > ... ?. ?? === !== => **").unwrap();
    let kinds: Vec<String> = toks.iter().map(|t| format!("{:?}", t)).collect();
    assert_eq!(
        kinds,
        vec![
            "UshrAssign", "ShrAssign", "Shr", "Gt", "Spread", "OptionalChain",
            "NullishCoalesce", "StrictEq", "StrictNotEq", "Arrow", "DoubleStar", "Eof"
        ]
    );
}

#[test]
fn words_and_strings() {
    let toks = tokenize("default $x _y1 'a\\tb' \"q\\\"\"").unwrap();
    assert!(matches!(toks[0], Token::Default));
    assert!(matches!(&toks[1], Token::Ident(n) if st(n) == "$x"));
    assert!(matches!(&toks[2], Token::Ident(n) if st(n) == "_y1"));
    assert!(matches!(&toks[3], Token::Str(s) if st(s) == "a\tb"));
    assert!(matches!(&toks[4], Token::Str(s) if st(s) == "q\""));
    assert!(matches!(toks[5], Token::Eof));
    assert!(tokenize("a # b").is_err());
    assert!(matches!(keyword_or_ident(cs("typeof")), Token::Typeof));
    assert!(matches!(keyword_or_ident(cs("typeofx")), Token::Ident(_)));
    assert_eq!(st(&keyword_as_ident(&Token::Default)), "default");
    assert_eq!(st(&keyword_as_ident(&keyword_or_ident(cs("instanceof")))), "instanceof");
}

#[test]
fn operator_tables() {
    assert_eq!(binop_at_level(&Token::Plus, 9), Some(BinOp::Add));
    assert_eq!(binop_at_level(&Token::Plus, 10), None);
    assert_eq!(binop_at_level(&Token::In, 7), Some(BinOp::In));
    assert_eq!(assign_op_of(&Token::UshrAssign), Some(AssignOp::UshrAssign));
    assert_eq!(assign_op_of(&Token::Eq), None);
}

#[test]
fn debug_renderings() {
    assert_eq!(st(&hex_lower(255)), "ff");
    assert_eq!(st(&hex_lower(0)), "0");
    assert_eq!(st(&debug_char('\'')), "'\\''");
    assert_eq!(st(&debug_char('\u{7}')), "'\\u{7}'");
    assert_eq!(st(&debug_str(&cs("a\"b\n"))), "\"a\\\"b\\n\"");
    assert_eq!(st(&debug_token(&Token::Ident(cs("x")))), "Ident(\"x\")");
    assert_eq!(st(&debug_token(&Token::LBrace)), "LBrace");
}

#[test]
fn array_helpers() {
    let arr = vec![Value::Str(cs("b")), Value::Str(cs("a")), Value::Str(cs("c")), Value::Str(cs("a"))];
    assert_eq!(strs(&sort_by_string(&arr)), vec!["a", "a", "b", "c"]);
    let nested = vec![
        Value::Str(cs("x")),
        Value::Array(vec![Value::Str(cs("y")), Value::Array(vec![Value::Str(cs("z"))])]),
    ];
    let one = flatten_array(&nested, 1);
    assert_eq!(one.len(), 3);
    assert!(matches!(&one[2], Value::Array(v) if v.len() == 1));
    assert_eq!(strs(&flatten_array(&nested, 2)), vec!["x", "y", "z"]);
}

#[test]
fn object_statics() {
    let mut a = PropMap::new();
    a.insert(cs("k"), Value::Str(cs("1")));
    a.insert(cs("b"), Value::Str(cs("2")));
    let mut b = PropMap::new();
    b.insert(cs("k"), Value::Str(cs("3")));
    let args = vec![Value::Object(a), Value::Str(cs("skip")), Value::Object(b)];
    match object_static_call(&cs("keys"), &args) {
        Value::Array(v) => assert_eq!(strs(&v), vec!["b", "k"]),
        _ => panic!("keys gives an array"),
    }
    match object_static_call(&cs("assign"), &args) {
        Value::Object(m) => {
            assert!(matches!(m.get(&cs("k")), Some(Value::Str(s)) if st(s) == "3"));
            assert!(matches!(m.get(&cs("b")), Some(Value::Str(s)) if st(s) == "2"));
        },
        _ => panic!("assign gives an object"),
    }
    assert!(matches!(object_static_call(&cs("nothing"), &args), Value::Undefined));
}
