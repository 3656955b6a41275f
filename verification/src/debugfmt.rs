//! Debug renderings (`{:?}`) of characters, strings and tokens, used in error messages.
use vstd::prelude::*;
use crate::text::{push_str, push_all};
use crate::value::spec_join;
use crate::tokenizer::{Token, TemplatePart};
use crate::numfmt::debug_number;

verus! {

/// The lowercase hexadecimal digit character of `d < 16`.
pub open spec fn spec_hex_char(d: nat) -> char {
    if d < 10 {
        (0x30 + d) as char
    } else {
        (0x61 + d - 10) as char
    }
}

/// The lowercase hexadecimal digits of `v`, without leading zeros ("0" for zero).
pub open spec fn spec_hex(v: nat) -> Seq<char>
    decreases v,
{
    if v < 16 {
        seq![spec_hex_char(v)]
    } else {
        spec_hex(v / 16).push(spec_hex_char(v % 16))
    }
}

/// The digits of `x` if it is positive, else nothing.
pub open spec fn hex_head(x: nat) -> Seq<char> {
    if x > 0 {
        spec_hex(x)
    } else {
        Seq::empty()
    }
}

/// Lowercase hexadecimal digits of `v` without leading zeros.
pub fn hex_lower(v: u32) -> (r: Vec<char>)
    ensures
        r@ == spec_hex(v as nat),
        r@.len() >= 1,
{
    let mut digits: Vec<char> = Vec::new();
    let mut x = v;
    digits.push(hex_digit_lower(x % 16));
    x = x / 16;
    while x > 0
        invariant
            digits@.len() >= 1,
            spec_hex(v as nat) == hex_head(x as nat) + crate::numfmt::reversed(digits@),
        decreases x,
    {
        let ghost before = digits@;
        let c = hex_digit_lower(x % 16);
        digits.push(c);
        proof {
            assert(crate::numfmt::reversed(digits@) =~= seq![c] + crate::numfmt::reversed(before));
            assert(hex_head(x as nat) =~= hex_head((x / 16) as nat) + seq![c]);
        }
        x = x / 16;
    }
    proof {
        assert(hex_head(0) + crate::numfmt::reversed(digits@) =~= crate::numfmt::reversed(digits@));
    }
    let mut r: Vec<char> = Vec::new();
    let mut i = digits.len();
    while i > 0
        invariant
            i <= digits@.len(),
            digits@.len() >= 1,
            r@.len() == digits@.len() - i,
            forall|j: int| 0 <= j < r@.len() ==> r@[j] == digits@[digits@.len() - 1 - j],
        decreases i,
    {
        i = i - 1;
        r.push(digits[i]);
    }
    assert(r@ =~= crate::numfmt::reversed(digits@));
    r
}

/// The lowercase hexadecimal digit for `d < 16`.
pub fn hex_digit_lower(d: u32) -> (r: char)
    requires
        d < 16,
    ensures
        r == spec_hex_char(d as nat),
{
    if d < 10 {
        ((0x30 + d) as u8) as char
    } else {
        ((0x61 + d - 10) as u8) as char
    }
}

/// Whether `c` is printed with a `\u{..}` escape by `escape_debug` (control characters).
pub open spec fn spec_needs_unicode_escape(c: char) -> bool {
    let v = c as u32;
    v < 0x20 || (0x7F <= v && v < 0xA0) || v == 0xAD
}

/// The `escape_debug` form of `c`: backslash escapes for NUL, tab, CR, LF, backslash and
/// the quote of the context (a single quote inside a char literal, a double quote
/// inside a string), `\u{..}` with hexadecimal digits for control characters, and the
/// character itself otherwise.
pub open spec fn spec_escape(c: char, in_char: bool) -> Seq<char> {
    if c == '\0' {
        "\\0"@
    } else if c == '\t' {
        "\\t"@
    } else if c == '\r' {
        "\\r"@
    } else if c == '\n' {
        "\\n"@
    } else if c == '\\' {
        "\\\\"@
    } else if c == '\'' && in_char {
        "\\'"@
    } else if c == '"' && !in_char {
        "\\\""@
    } else if spec_needs_unicode_escape(c) {
        "\\u{"@ + spec_hex(c as nat) + seq!['}']
    } else {
        seq![c]
    }
}

/// The escaped characters of a string.
pub open spec fn spec_escape_str(s: Seq<char>) -> Seq<char>
    decreases s.len(),
{
    if s.len() == 0 {
        Seq::empty()
    } else {
        spec_escape_str(s.drop_last()) + spec_escape(s.last(), false)
    }
}

/// Appends the `escape_debug` form of `c`; `in_char` selects the quoting context
/// (a single quote is escaped inside a char literal, a double quote inside a string).
pub fn push_escaped(out: &mut Vec<char>, c: char, in_char: bool)
    ensures
        final(out)@ == old(out)@ + spec_escape(c, in_char),
{
    let v = c as u32;
    if c == '\0' {
        push_str(out, "\\0");
    } else if c == '\t' {
        push_str(out, "\\t");
    } else if c == '\r' {
        push_str(out, "\\r");
    } else if c == '\n' {
        push_str(out, "\\n");
    } else if c == '\\' {
        push_str(out, "\\\\");
    } else if c == '\'' && in_char {
        push_str(out, "\\'");
    } else if c == '"' && !in_char {
        push_str(out, "\\\"");
    } else if v < 0x20 || (0x7F <= v && v < 0xA0) || v == 0xAD {
        push_str(out, "\\u{");
        let h = hex_lower(v);
        push_all(out, h.as_slice());
        out.push('}');
        assert(v as nat == c as nat);
    } else {
        out.push(c);
    }
}

/// `format!("{:?}", c)` for a character.
pub fn debug_char(c: char) -> (r: Vec<char>)
    ensures
        r@ == seq!['\''] + spec_escape(c, true) + seq!['\''],
{
    let mut out: Vec<char> = Vec::new();
    out.push('\'');
    push_escaped(&mut out, c, true);
    out.push('\'');
    out
}

/// `format!("{:?}", s)` for a string.
pub fn debug_str(s: &[char]) -> (r: Vec<char>)
    ensures
        r@ == seq!['"'] + spec_escape_str(s@) + seq!['"'],
{
    let mut out: Vec<char> = Vec::new();
    out.push('"');
    let mut i: usize = 0;
    while i < s.len()
        invariant
            0 <= i <= s@.len(),
            out@ == seq!['"'] + spec_escape_str(s@.take(i as int)),
        decreases s.len() - i,
    {
        proof {
            assert(s@.take(i + 1).drop_last() =~= s@.take(i as int));
        }
        push_escaped(&mut out, s[i], false);
        i = i + 1;
    }
    assert(s@.take(s@.len() as int) =~= s@);
    out.push('"');
    out
}

/// The name of a token's variant, as the derived `Debug` prints it.
pub open spec fn spec_variant_name(t: Token) -> Seq<char> {
    match t {
        Token::Number(_) => "Number"@,
        Token::Str(_) => "Str"@,
        Token::TemplateLiteral(_) => "TemplateLiteral"@,
        Token::Regex(..) => "Regex"@,
        Token::True => "True"@,
        Token::False => "False"@,
        Token::Null => "Null"@,
        Token::Undefined => "Undefined"@,
        Token::Ident(_) => "Ident"@,
        Token::Var => "Var"@,
        Token::Let => "Let"@,
        Token::Const => "Const"@,
        Token::Function => "Function"@,
        Token::Return => "Return"@,
        Token::If => "If"@,
        Token::Else => "Else"@,
        Token::For => "For"@,
        Token::While => "While"@,
        Token::Do => "Do"@,
        Token::Break => "Break"@,
        Token::Continue => "Continue"@,
        Token::Switch => "Switch"@,
        Token::Case => "Case"@,
        Token::Default => "Default"@,
        Token::New => "New"@,
        Token::This => "This"@,
        Token::Typeof => "Typeof"@,
        Token::Instanceof => "Instanceof"@,
        Token::In => "In"@,
        Token::Of => "Of"@,
        Token::Try => "Try"@,
        Token::Catch => "Catch"@,
        Token::Finally => "Finally"@,
        Token::Throw => "Throw"@,
        Token::Void => "Void"@,
        Token::Delete => "Delete"@,
        Token::Plus => "Plus"@,
        Token::Minus => "Minus"@,
        Token::Star => "Star"@,
        Token::Slash => "Slash"@,
        Token::Percent => "Percent"@,
        Token::DoubleStar => "DoubleStar"@,
        Token::Assign => "Assign"@,
        Token::PlusAssign => "PlusAssign"@,
        Token::MinusAssign => "MinusAssign"@,
        Token::StarAssign => "StarAssign"@,
        Token::SlashAssign => "SlashAssign"@,
        Token::PercentAssign => "PercentAssign"@,
        Token::AmpAssign => "AmpAssign"@,
        Token::PipeAssign => "PipeAssign"@,
        Token::CaretAssign => "CaretAssign"@,
        Token::ShlAssign => "ShlAssign"@,
        Token::ShrAssign => "ShrAssign"@,
        Token::UshrAssign => "UshrAssign"@,
        Token::Eq => "Eq"@,
        Token::StrictEq => "StrictEq"@,
        Token::NotEq => "NotEq"@,
        Token::StrictNotEq => "StrictNotEq"@,
        Token::Lt => "Lt"@,
        Token::Gt => "Gt"@,
        Token::LtEq => "LtEq"@,
        Token::GtEq => "GtEq"@,
        Token::And => "And"@,
        Token::Or => "Or"@,
        Token::Not => "Not"@,
        Token::BitAnd => "BitAnd"@,
        Token::BitOr => "BitOr"@,
        Token::BitXor => "BitXor"@,
        Token::BitNot => "BitNot"@,
        Token::Shl => "Shl"@,
        Token::Shr => "Shr"@,
        Token::Ushr => "Ushr"@,
        Token::Question => "Question"@,
        Token::NullishCoalesce => "NullishCoalesce"@,
        Token::OptionalChain => "OptionalChain"@,
        Token::Arrow => "Arrow"@,
        Token::Spread => "Spread"@,
        Token::PlusPlus => "PlusPlus"@,
        Token::MinusMinus => "MinusMinus"@,
        Token::LParen => "LParen"@,
        Token::RParen => "RParen"@,
        Token::LBrace => "LBrace"@,
        Token::RBrace => "RBrace"@,
        Token::LBracket => "LBracket"@,
        Token::RBracket => "RBracket"@,
        Token::Comma => "Comma"@,
        Token::Semicolon => "Semicolon"@,
        Token::Colon => "Colon"@,
        Token::Dot => "Dot"@,
        Token::Eof => "Eof"@,
    }
}

/// The name of a token variant without payload.
pub fn token_variant_name(t: &Token) -> (r: &'static str)
    ensures
        r@ == spec_variant_name(*t),
{
    match t {
        Token::Number(_) => "Number",
        Token::Str(_) => "Str",
        Token::TemplateLiteral(_) => "TemplateLiteral",
        Token::Regex(..) => "Regex",
        Token::True => "True",
        Token::False => "False",
        Token::Null => "Null",
        Token::Undefined => "Undefined",
        Token::Ident(_) => "Ident",
        Token::Var => "Var",
        Token::Let => "Let",
        Token::Const => "Const",
        Token::Function => "Function",
        Token::Return => "Return",
        Token::If => "If",
        Token::Else => "Else",
        Token::For => "For",
        Token::While => "While",
        Token::Do => "Do",
        Token::Break => "Break",
        Token::Continue => "Continue",
        Token::Switch => "Switch",
        Token::Case => "Case",
        Token::Default => "Default",
        Token::New => "New",
        Token::This => "This",
        Token::Typeof => "Typeof",
        Token::Instanceof => "Instanceof",
        Token::In => "In",
        Token::Of => "Of",
        Token::Try => "Try",
        Token::Catch => "Catch",
        Token::Finally => "Finally",
        Token::Throw => "Throw",
        Token::Void => "Void",
        Token::Delete => "Delete",
        Token::Plus => "Plus",
        Token::Minus => "Minus",
        Token::Star => "Star",
        Token::Slash => "Slash",
        Token::Percent => "Percent",
        Token::DoubleStar => "DoubleStar",
        Token::Assign => "Assign",
        Token::PlusAssign => "PlusAssign",
        Token::MinusAssign => "MinusAssign",
        Token::StarAssign => "StarAssign",
        Token::SlashAssign => "SlashAssign",
        Token::PercentAssign => "PercentAssign",
        Token::AmpAssign => "AmpAssign",
        Token::PipeAssign => "PipeAssign",
        Token::CaretAssign => "CaretAssign",
        Token::ShlAssign => "ShlAssign",
        Token::ShrAssign => "ShrAssign",
        Token::UshrAssign => "UshrAssign",
        Token::Eq => "Eq",
        Token::StrictEq => "StrictEq",
        Token::NotEq => "NotEq",
        Token::StrictNotEq => "StrictNotEq",
        Token::Lt => "Lt",
        Token::Gt => "Gt",
        Token::LtEq => "LtEq",
        Token::GtEq => "GtEq",
        Token::And => "And",
        Token::Or => "Or",
        Token::Not => "Not",
        Token::BitAnd => "BitAnd",
        Token::BitOr => "BitOr",
        Token::BitXor => "BitXor",
        Token::BitNot => "BitNot",
        Token::Shl => "Shl",
        Token::Shr => "Shr",
        Token::Ushr => "Ushr",
        Token::Question => "Question",
        Token::NullishCoalesce => "NullishCoalesce",
        Token::OptionalChain => "OptionalChain",
        Token::Arrow => "Arrow",
        Token::Spread => "Spread",
        Token::PlusPlus => "PlusPlus",
        Token::MinusMinus => "MinusMinus",
        Token::LParen => "LParen",
        Token::RParen => "RParen",
        Token::LBrace => "LBrace",
        Token::RBrace => "RBrace",
        Token::LBracket => "LBracket",
        Token::RBracket => "RBracket",
        Token::Comma => "Comma",
        Token::Semicolon => "Semicolon",
        Token::Colon => "Colon",
        Token::Dot => "Dot",
        Token::Eof => "Eof",
    }
}

/// `d` is how a token is shown, as far as it is stated: the variant's name, then the
/// payload of a string, name or regex in quotes.
pub open spec fn debug_token_fits(t: Token, d: Seq<char>) -> bool {
    &&& !(t is Number || t is Str || t is Ident || t is Regex || t is TemplateLiteral) ==> d
        == spec_variant_name(t)
    &&& t matches Token::Str(s) ==> d == spec_variant_name(t) + seq!['('] + spec_quoted(s@) + seq![')']
    &&& t matches Token::Ident(s) ==> d == spec_variant_name(t) + seq!['('] + spec_quoted(s@) + seq![')']
    &&& t matches Token::Regex(p, f) ==> d == spec_variant_name(t) + seq!['('] + spec_quoted(p@)
        + ", "@ + spec_quoted(f@) + seq![')']
}

/// `d` shows the tokens `v`, separated by `", "`.
pub open spec fn debug_list_fits(v: Seq<Token>, d: Seq<char>) -> bool {
    exists|parts: Seq<Seq<char>>|
        parts.len() == v.len() && d == spec_join(parts, ", "@) && forall|i: int|
            0 <= i < v.len() ==> #[trigger] debug_token_fits(v[i], parts[i])
}

/// `d` shows the template part `p`: text as `Str("...")`, tokens as `Expr([...])`.
pub open spec fn debug_part_fits(p: TemplatePart, d: Seq<char>) -> bool {
    match p {
        TemplatePart::Str(s) => d == "Str("@ + spec_quoted(s@) + seq![')'],
        TemplatePart::Expr(toks) => exists|m: Seq<char>|
            #[trigger] debug_list_fits(toks@, m) && d == "Expr(["@ + m + "])"@,
    }
}

/// `d` shows the template parts `v`, separated by `", "`.
pub open spec fn debug_parts_fit(v: Seq<TemplatePart>, d: Seq<char>) -> bool {
    exists|parts: Seq<Seq<char>>|
        parts.len() == v.len() && d == spec_join(parts, ", "@) && forall|i: int|
            0 <= i < v.len() ==> #[trigger] debug_part_fits(v[i], parts[i])
}

fn debug_template_parts(v: &Vec<TemplatePart>) -> (r: Vec<char>)
    ensures
        debug_parts_fit(v@, r@),
    decreases v,
{
    let mut out: Vec<char> = Vec::new();
    let ghost mut parts: Seq<Seq<char>> = Seq::empty();
    let mut i: usize = 0;
    while i < v.len()
        invariant
            0 <= i <= v@.len(),
            parts.len() == i,
            out@ == spec_join(parts, ", "@),
            forall|k: int| 0 <= k < i ==> #[trigger] debug_part_fits(v@[k], parts[k]),
        decreases v.len() - i,
    {
        if i > 0 {
            push_str(&mut out, ", ");
        }
        proof {
            assert(decreases_to!(v => v@)); assert(decreases_to!(v@ => v@[i as int]));
        }
        let d = debug_template_part(&v[i]);
        push_all(&mut out, d.as_slice());
        proof {
            reveal_strlit(", ");
            let np = parts.push(d@);
            assert(np.drop_last() =~= parts);
            if i > 0 {
                assert(out@ =~= spec_join(np, ", "@));
            } else {
                assert(out@ =~= spec_join(np, ", "@));
            }
            parts = np;
        }
        i = i + 1;
    }
    out
}

fn debug_token_list(v: &Vec<Token>) -> (r: Vec<char>)
    ensures
        debug_list_fits(v@, r@),
    decreases v,
{
    let mut out: Vec<char> = Vec::new();
    let ghost mut parts: Seq<Seq<char>> = Seq::empty();
    let mut i: usize = 0;
    while i < v.len()
        invariant
            0 <= i <= v@.len(),
            parts.len() == i,
            out@ == spec_join(parts, ", "@),
            forall|k: int| 0 <= k < i ==> #[trigger] debug_token_fits(v@[k], parts[k]),
        decreases v.len() - i,
    {
        if i > 0 {
            push_str(&mut out, ", ");
        }
        proof {
            assert(decreases_to!(v => v@)); assert(decreases_to!(v@ => v@[i as int]));
        }
        let d = debug_token(&v[i]);
        push_all(&mut out, d.as_slice());
        proof {
            reveal_strlit(", ");
            let np = parts.push(d@);
            assert(np.drop_last() =~= parts);
            if i > 0 {
                assert(out@ =~= spec_join(np, ", "@));
            } else {
                assert(out@ =~= spec_join(np, ", "@));
            }
            parts = np;
        }
        i = i + 1;
    }
    out
}

fn debug_template_part(p: &TemplatePart) -> (r: Vec<char>)
    ensures
        debug_part_fits(*p, r@),
    decreases p,
{
    proof {
        reveal_strlit("Str(");
        reveal_strlit("Expr([");
        reveal_strlit("])");
    }
    let mut out: Vec<char> = Vec::new();
    match p {
        TemplatePart::Str(s) => {
            push_str(&mut out, "Str(");
            push_all(&mut out, debug_str(s.as_slice()).as_slice());
            out.push(')');
            assert(out@ =~= "Str("@ + spec_quoted(s@) + seq![')']);
        },
        TemplatePart::Expr(toks) => {
            push_str(&mut out, "Expr([");
            let m = debug_token_list(toks);
            push_all(&mut out, m.as_slice());
            push_str(&mut out, "])");
            assert(debug_list_fits(toks@, m@) && out@ =~= "Expr(["@ + m@ + "])"@);
        },
    }
    out
}

/// `s` in double quotes, escaped.
pub open spec fn spec_quoted(s: Seq<char>) -> Seq<char> {
    seq!['"'] + spec_escape_str(s) + seq!['"']
}

/// `format!("{:?}", tok)` as the derived `Debug` of tokens renders it.
pub fn debug_token(t: &Token) -> (r: Vec<char>)
    ensures
        !(*t is Number || *t is Str || *t is Ident || *t is Regex || *t is TemplateLiteral) ==> r@
            == spec_variant_name(*t),
        *t matches Token::Str(s) ==> r@ == spec_variant_name(*t) + seq!['('] + spec_quoted(s@)
            + seq![')'],
        *t matches Token::Ident(s) ==> r@ == spec_variant_name(*t) + seq!['('] + spec_quoted(s@)
            + seq![')'],
        *t matches Token::Regex(p, f) ==> r@ == spec_variant_name(*t) + seq!['('] + spec_quoted(
            p@,
        ) + ", "@ + spec_quoted(f@) + seq![')'],
    decreases t,
{
    let mut out: Vec<char> = Vec::new();
    push_str(&mut out, token_variant_name(t));
    match t {
        Token::Number(n) => {
            out.push('(');
            push_all(&mut out, debug_number(n).as_slice());
            out.push(')');
        },
        Token::Str(s) | Token::Ident(s) => {
            out.push('(');
            push_all(&mut out, debug_str(s.as_slice()).as_slice());
            out.push(')');
        },
        Token::Regex(p, f) => {
            out.push('(');
            push_all(&mut out, debug_str(p.as_slice()).as_slice());
            push_str(&mut out, ", ");
            push_all(&mut out, debug_str(f.as_slice()).as_slice());
            out.push(')');
        },
        Token::TemplateLiteral(parts) => {
            push_str(&mut out, "([");
            push_all(&mut out, debug_template_parts(parts).as_slice());
            push_str(&mut out, "])");
        },
        _ => {},
    }
    out
}

} // verus!
