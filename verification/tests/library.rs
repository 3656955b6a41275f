//! The library's building blocks called directly: text conversions, percent-encoding,
//! base64, the property map, JSON and the pattern matcher.
use js_lite::builtins::{
    atob, b64_decode_char, btoa, decode_uri_component, encode_uri, encode_uri_component,
    from_hex_digit, hex_digit, js_parse_int, replace_first,
};
use js_lite::double::Double;
use js_lite::json::{json_parse, json_parse_string, json_stringify};
use js_lite::regex::{matches_element, parse_pattern_element, regex_match_at, regex_match_inner, simple_regex_match, PatElement};
use js_lite::text::{char_from_u32, char_to_lowercase, char_to_string, char_to_uppercase, chars_to_string, str_to_chars};
use js_lite::value::{PropMap, Value};

fn cs(s: &str) -> Vec<char> {
    s.chars().collect()
}

fn st(v: &[char]) -> String {
    v.iter().collect()
}

#[test]
fn text_wrappers() {
    assert_eq!(str_to_chars("héllo"), vec!['h', 'é', 'l', 'l', 'o']);
    assert_eq!(chars_to_string(&vec!['ü', 'x']), "üx");
    assert_eq!(char_from_u32(0x41), Some('A'));
    assert_eq!(char_from_u32(0xD800), None);
    assert_eq!(char_from_u32(0x110000), None);
    assert_eq!(char_to_lowercase('Ä'), vec!['ä']);
    assert_eq!(char_to_uppercase('ß'), vec!['S', 'S']);
    assert_eq!(char_to_uppercase('a'), vec!['A']);
    assert_eq!(char_to_string('z'), vec!['z']);
}

#[test]
fn hex_digits() {
    assert_eq!(hex_digit(0), '0');
    assert_eq!(hex_digit(10), 'A');
    assert_eq!(hex_digit(15), 'F');
    assert_eq!(hex_digit(16), '0');
    assert_eq!(from_hex_digit(b'7'), Some(7));
    assert_eq!(from_hex_digit(b'c'), Some(12));
    assert_eq!(from_hex_digit(b'C'), Some(12));
    assert_eq!(from_hex_digit(b'g'), None);
}

#[test]
fn percent_encoding() {
    assert_eq!(st(&encode_uri_component(&cs("a b/é"))), "a%20b%2F%C3%A9");
    assert_eq!(st(&encode_uri(&cs("a b/é?x=1#f"))), "a%20b/%C3%A9?x=1#f");
    assert_eq!(st(&decode_uri_component(&cs("%41%2b%2"))), "A+%2");
}

#[test]
fn percent_decoding_inverts_encoding() {
    for s in ["hello world", "a+b=c&d", "~*'()!", "tab\there"] {
        let v = cs(s);
        assert_eq!(decode_uri_component(&encode_uri_component(&v)), v);
        assert_eq!(decode_uri_component(&encode_uri(&v)), v);
    }
    // non-ASCII text comes back as one character per UTF-8 byte
    assert_eq!(st(&decode_uri_component(&encode_uri_component(&cs("é")))), "\u{c3}\u{a9}");
}

#[test]
fn base64() {
    assert_eq!(st(&btoa(&cs("hello"))), "aGVsbG8=");
    assert_eq!(st(&btoa(&cs(""))), "");
    assert_eq!(st(&btoa(&cs("é"))), "w6k=");
    assert_eq!(st(&atob(&cs("aGVs bG8=\r\n"))), "hello");
    assert_eq!(st(&atob(&cs("aGVsbG"))), "hel");
    assert_eq!(st(&atob(&cs("gA=="))), "");
    assert_eq!(b64_decode_char(b'A'), 0);
    assert_eq!(b64_decode_char(b'z'), 51);
    assert_eq!(b64_decode_char(b'9'), 61);
    assert_eq!(b64_decode_char(b'/'), 63);
    assert_eq!(b64_decode_char(b'='), 0);
}

#[test]
fn base64_decoding_inverts_encoding() {
    for s in ["", "a", "ab", "abc", "abcd", "héllo wörld ✓", "\u{1F600} emoji"] {
        let v = cs(s);
        assert_eq!(atob(&btoa(&v)), v);
    }
}

#[test]
fn parse_int_radix() {
    assert_eq!(js_parse_int(&cs("ff"), 16), Double::from_bits(255f64.to_bits()));
    assert_eq!(js_parse_int(&cs("0x1A"), 0), Double::from_bits(26f64.to_bits()));
    assert_eq!(js_parse_int(&cs(" -42abc"), 10), Double::from_bits((-42f64).to_bits()));
    assert_eq!(js_parse_int(&cs("777"), 8), Double::from_bits(511f64.to_bits()));
    assert!(js_parse_int(&cs("9"), 8).is_nan());
    assert!(js_parse_int(&cs(""), 10).is_nan());
}

#[test]
fn replace_first_occurrence() {
    assert_eq!(st(&replace_first(&cs("a-b-c"), &cs("-"), &cs("+"))), "a+b-c");
    assert_eq!(st(&replace_first(&cs("abc"), &cs("x"), &cs("y"))), "abc");
    assert_eq!(st(&replace_first(&cs("abc"), &cs(""), &cs(">"))), ">abc");
}

#[test]
fn property_map_reads_back_writes() {
    let mut m = PropMap::new();
    m.insert(cs("b"), Value::Bool(true));
    m.insert(cs("a"), Value::Null);
    m.insert(cs("c"), Value::Undefined);
    m.insert(cs("a"), Value::Bool(false));
    assert_eq!(m.len(), 3);
    assert!(matches!(m.get(&cs("a")), Some(Value::Bool(false))));
    assert!(matches!(m.get(&cs("b")), Some(Value::Bool(true))));
    assert!(m.get(&cs("z")).is_none());
    let keys: Vec<String> = m.keys().iter().map(|k| st(k)).collect();
    assert_eq!(keys, vec!["a", "b", "c"]);
    assert!(matches!(m.remove(&cs("b")), Some(Value::Bool(true))));
    assert!(!m.contains_key(&cs("b")));
    assert_eq!(m.len(), 2);
    assert!(m.remove(&cs("b")).is_none());
}

#[test]
fn json_values() {
    let v = json_parse(&cs(" [1, \"two\", {\"k\": null}, true] ")).ok().unwrap();
    assert_eq!(st(&json_stringify(&v)), "[1,\"two\",{\"k\":null},true]");
    assert!(json_parse(&cs("")).is_err());
    assert!(json_parse(&cs("{\"a\" 1}")).is_err());
    let (s, used) = json_parse_string(&cs("\"a\\nb\\u0041\" tail"), 0).ok().unwrap();
    assert_eq!(st(&s), "a\nbA");
    assert_eq!(used, 12);
    assert!(json_parse_string(&cs("\"open"), 0).is_err());
    assert!(json_parse_string(&cs("x"), 0).is_err());
}

#[test]
fn pattern_elements() {
    let p = b"\\d[a-c]x";
    let (e, next) = parse_pattern_element(p, 0).unwrap();
    assert!(matches!(e, PatElement::Digit));
    assert_eq!(next, 2);
    let (e, next) = parse_pattern_element(p, 2).unwrap();
    assert!(matches!(e, PatElement::CharClass(_, false)));
    assert_eq!(next, 7);
    assert!(matches_element(b'b', &e));
    assert!(!matches_element(b'd', &e));
    assert!(parse_pattern_element(p, 8).is_none());
    let (g, next) = parse_pattern_element(b"(ab)c", 0).unwrap();
    assert!(matches!(g, PatElement::Group(_)));
    assert_eq!(next, 4);
    assert!(matches_element(b' ', &PatElement::Space));
    assert!(!matches_element(b'\n', &PatElement::Dot));
}

#[test]
fn pattern_matching() {
    assert_eq!(regex_match_inner(b"aaab", 0, b"a*b", 0), Some(4));
    assert_eq!(regex_match_at(b"xab", 1, b"ab"), Some(3));
    assert_eq!(regex_match_at(b"xab", 0, b"ab"), None);
    assert_eq!(simple_regex_match(&cs("abc123"), &cs("\\d+")).map(|m| st(&m)), Some(String::from("123")));
    assert_eq!(simple_regex_match(&cs("abc"), &cs("^b")), None);
    assert_eq!(simple_regex_match(&cs("abc"), &cs("c$")).map(|m| st(&m)), Some(String::from("c")));
    assert_eq!(simple_regex_match(&cs("colour"), &cs("colou?r")).map(|m| st(&m)), Some(String::from("colour")));
}

#[test]
fn json_string_round_trip() {
    for text in ["plain", "quote \" and back\\slash", "lines\nand\ttabs\r", "", "ünï/cøde"] {
        let v = Value::Str(cs(text));
        let encoded = json_stringify(&v);
        match json_parse(&encoded) {
            Ok(Value::Str(back)) => assert_eq!(st(&back), text),
            _ => panic!("a quoted string reads back as a string"),
        }
    }
    assert_eq!(st(&json_stringify(&Value::Str(cs("a\"b")))), "\"a\\\"b\"");
}
