//! JavaScript tokenizer.
//!
//! Converts source text into a flat stream of tokens: identifiers and keywords,
//! number literals (integer, float, hex, binary), string literals with escapes,
//! template literals with `${expr}` interpolation, regex literals, all operators
//! and delimiters. Comments and whitespace are skipped.
use vstd::prelude::*;
use crate::double::{Double, spec_is_int_value};
use vstd::string::StringSliceAdditionalSpecFns;
use crate::text::{str_to_chars, eq_str, slice_range, push_all, char_from_u32, trim, spec_utf8_len, trim_start_index, trim_end_index};
use crate::numparse::{parse_float, pow10};

verus! {

#[derive(Debug)]
pub enum Token {
    // Literals
    Number(Double),
    Str(Vec<char>),
    TemplateLiteral(Vec<TemplatePart>),
    /// (pattern, flags)
    Regex(Vec<char>, Vec<char>),
    True,
    False,
    Null,
    Undefined,
    // Identifier
    Ident(Vec<char>),
    // Keywords
    Var,
    Let,
    Const,
    Function,
    Return,
    If,
    Else,
    For,
    While,
    Do,
    Break,
    Continue,
    Switch,
    Case,
    Default,
    New,
    This,
    Typeof,
    Instanceof,
    In,
    Of,
    Try,
    Catch,
    Finally,
    Throw,
    Void,
    Delete,
    // Operators
    Plus,
    Minus,
    Star,
    Slash,
    Percent,
    DoubleStar,
    Assign,
    PlusAssign,
    MinusAssign,
    StarAssign,
    SlashAssign,
    PercentAssign,
    AmpAssign,
    PipeAssign,
    CaretAssign,
    ShlAssign,
    ShrAssign,
    UshrAssign,
    Eq,
    StrictEq,
    NotEq,
    StrictNotEq,
    Lt,
    Gt,
    LtEq,
    GtEq,
    And,
    Or,
    Not,
    BitAnd,
    BitOr,
    BitXor,
    BitNot,
    Shl,
    Shr,
    Ushr,
    Question,
    NullishCoalesce,
    OptionalChain,
    Arrow,
    Spread,
    PlusPlus,
    MinusMinus,
    // Delimiters
    LParen,
    RParen,
    LBrace,
    RBrace,
    LBracket,
    RBracket,
    Comma,
    Semicolon,
    Colon,
    Dot,
    Eof,
}

/// A part of a template literal.
#[derive(Debug)]
pub enum TemplatePart {
    /// Raw string portion.
    Str(Vec<char>),
    /// Expression tokens inside `${...}`.
    Expr(Vec<Token>),
}

// Byte values of the ASCII characters the tokenizer looks at.
pub const B_TAB: u8 = 0x09;
pub const B_LF: u8 = 0x0A;
pub const B_CR: u8 = 0x0D;
pub const B_SPACE: u8 = 0x20;
pub const B_BANG: u8 = 0x21;
pub const B_DQUOTE: u8 = 0x22;
pub const B_DOLLAR: u8 = 0x24;
pub const B_PERCENT: u8 = 0x25;
pub const B_AMP: u8 = 0x26;
pub const B_SQUOTE: u8 = 0x27;
pub const B_LPAREN: u8 = 0x28;
pub const B_RPAREN: u8 = 0x29;
pub const B_STAR: u8 = 0x2A;
pub const B_PLUS: u8 = 0x2B;
pub const B_COMMA: u8 = 0x2C;
pub const B_MINUS: u8 = 0x2D;
pub const B_DOT: u8 = 0x2E;
pub const B_SLASH: u8 = 0x2F;
pub const B_ZERO: u8 = 0x30;
pub const B_ONE: u8 = 0x31;
pub const B_NINE: u8 = 0x39;
pub const B_COLON: u8 = 0x3A;
pub const B_SEMI: u8 = 0x3B;
pub const B_LT: u8 = 0x3C;
pub const B_EQ: u8 = 0x3D;
pub const B_GT: u8 = 0x3E;
pub const B_QUESTION: u8 = 0x3F;
pub const B_UPPER_B: u8 = 0x42;
pub const B_UPPER_E: u8 = 0x45;
pub const B_UPPER_X: u8 = 0x58;
pub const B_LBRACKET: u8 = 0x5B;
pub const B_BACKSLASH: u8 = 0x5C;
pub const B_RBRACKET: u8 = 0x5D;
pub const B_CARET: u8 = 0x5E;
pub const B_UNDERSCORE: u8 = 0x5F;
pub const B_BACKTICK: u8 = 0x60;
pub const B_LOWER_B: u8 = 0x62;
pub const B_LOWER_E: u8 = 0x65;
pub const B_LOWER_N: u8 = 0x6E;
pub const B_LOWER_R: u8 = 0x72;
pub const B_LOWER_T: u8 = 0x74;
pub const B_LOWER_U: u8 = 0x75;
pub const B_LOWER_X: u8 = 0x78;
pub const B_LBRACE: u8 = 0x7B;
pub const B_PIPE: u8 = 0x7C;
pub const B_RBRACE: u8 = 0x7D;
pub const B_TILDE: u8 = 0x7E;

pub open spec fn spec_is_digit(b: u8) -> bool {
    0x30 <= b <= 0x39
}

pub open spec fn spec_is_alpha(b: u8) -> bool {
    (0x41 <= b <= 0x5A) || (0x61 <= b <= 0x7A)
}

pub open spec fn spec_is_hex(b: u8) -> bool {
    spec_is_digit(b) || (0x41 <= b <= 0x46) || (0x61 <= b <= 0x66)
}

/// Value of a hexadecimal digit.
pub open spec fn spec_hex_val(b: u8) -> int {
    if spec_is_digit(b) {
        b - 0x30
    } else if 0x41 <= b <= 0x46 {
        b - 0x41 + 10
    } else {
        b - 0x61 + 10
    }
}

/// Value of a sequence of hexadecimal digits, most significant first.
pub open spec fn spec_hex_seq_val(s: Seq<u8>) -> int
    decreases s.len(),
{
    if s.len() == 0 {
        0
    } else {
        spec_hex_seq_val(s.drop_last()) * 16 + spec_hex_val(s.last())
    }
}

pub fn is_digit(b: u8) -> (r: bool)
    ensures
        r == spec_is_digit(b),
{
    0x30 <= b && b <= 0x39
}

pub fn is_alpha(b: u8) -> (r: bool)
    ensures
        r == spec_is_alpha(b),
{
    (0x41 <= b && b <= 0x5A) || (0x61 <= b && b <= 0x7A)
}

pub fn is_alnum(b: u8) -> (r: bool)
    ensures
        r == (spec_is_alpha(b) || spec_is_digit(b)),
{
    is_alpha(b) || is_digit(b)
}

pub fn is_hex(b: u8) -> (r: bool)
    ensures
        r == spec_is_hex(b),
{
    is_digit(b) || (0x41 <= b && b <= 0x46) || (0x61 <= b && b <= 0x66)
}

/// Value of a hexadecimal digit byte.
pub fn hex_val(b: u8) -> (r: u32)
    requires
        spec_is_hex(b),
    ensures
        r == spec_hex_val(b),
        r < 16,
{
    if is_digit(b) {
        (b - 0x30) as u32
    } else if 0x41 <= b && b <= 0x46 {
        (b - 0x41 + 10) as u32
    } else {
        (b - 0x61 + 10) as u32
    }
}

/// Whether `b` may start an identifier.
pub open spec fn spec_ident_start(b: u8) -> bool {
    spec_is_alpha(b) || b == 0x5F || b == 0x24
}

/// Whether `b` may continue an identifier.
pub open spec fn spec_ident_part(b: u8) -> bool {
    spec_is_alpha(b) || spec_is_digit(b) || b == 0x5F || b == 0x24
}

/// Whitespace that the tokenizer skips.
pub open spec fn spec_is_blank(b: u8) -> bool {
    b == 0x20 || b == 0x09 || b == 0x0A || b == 0x0D
}

/// Position of the first byte at or after `p` that is not a space, tab, CR or LF.
pub open spec fn skip_blanks(s: Seq<u8>, p: int) -> int
    decreases s.len() - p,
{
    if 0 <= p < s.len() && spec_is_blank(s[p]) {
        skip_blanks(s, p + 1)
    } else {
        p
    }
}

/// Position of the first `\n` at or after `p`, or the end.
pub open spec fn line_end(s: Seq<u8>, p: int) -> int
    decreases s.len() - p,
{
    if 0 <= p < s.len() && s[p] != 0x0A {
        line_end(s, p + 1)
    } else {
        p
    }
}

/// Position just past the first `*/` starting at or after `p`; when there is none, the
/// position the scan stops at (the last byte, or `p` itself).
pub open spec fn block_comment_end(s: Seq<u8>, p: int) -> int
    decreases s.len() - p,
{
    if 0 <= p && p + 1 < s.len() {
        if s[p] == 0x2A && s[p + 1] == 0x2F {
            p + 2
        } else {
            block_comment_end(s, p + 1)
        }
    } else {
        p
    }
}

/// Position after skipping whitespace, `//` line comments and `/* */` block comments.
pub open spec fn skip_ws_comments(s: Seq<u8>, p: int) -> int
    decreases s.len() - p, 1int,
{
    let q = skip_blanks(s, p);
    if 0 <= p <= q && q + 1 < s.len() && s[q] == 0x2F && s[q + 1] == 0x2F {
        skip_ws_comments_after(s, line_end(s, q + 2), p)
    } else if 0 <= p <= q && q + 1 < s.len() && s[q] == 0x2F && s[q + 1] == 0x2A {
        skip_ws_comments_after(s, block_comment_end(s, q + 2), p)
    } else {
        q
    }
}

pub open spec fn skip_ws_comments_after(s: Seq<u8>, q: int, p: int) -> int
    decreases s.len() - p, 0int,
{
    if p < q <= s.len() {
        skip_ws_comments(s, q)
    } else {
        q
    }
}

/// The text of an operator or punctuation token; empty for every other token.
pub open spec fn spec_punct_spelling(t: Token) -> Seq<u8> {
    match t {
        Token::Plus => seq![B_PLUS],
        Token::Minus => seq![B_MINUS],
        Token::Star => seq![B_STAR],
        Token::Slash => seq![B_SLASH],
        Token::Percent => seq![B_PERCENT],
        Token::DoubleStar => seq![B_STAR, B_STAR],
        Token::Assign => seq![B_EQ],
        Token::PlusAssign => seq![B_PLUS, B_EQ],
        Token::MinusAssign => seq![B_MINUS, B_EQ],
        Token::StarAssign => seq![B_STAR, B_EQ],
        Token::SlashAssign => seq![B_SLASH, B_EQ],
        Token::PercentAssign => seq![B_PERCENT, B_EQ],
        Token::AmpAssign => seq![B_AMP, B_EQ],
        Token::PipeAssign => seq![B_PIPE, B_EQ],
        Token::CaretAssign => seq![B_CARET, B_EQ],
        Token::ShlAssign => seq![B_LT, B_LT, B_EQ],
        Token::ShrAssign => seq![B_GT, B_GT, B_EQ],
        Token::UshrAssign => seq![B_GT, B_GT, B_GT, B_EQ],
        Token::Eq => seq![B_EQ, B_EQ],
        Token::StrictEq => seq![B_EQ, B_EQ, B_EQ],
        Token::NotEq => seq![B_BANG, B_EQ],
        Token::StrictNotEq => seq![B_BANG, B_EQ, B_EQ],
        Token::Lt => seq![B_LT],
        Token::Gt => seq![B_GT],
        Token::LtEq => seq![B_LT, B_EQ],
        Token::GtEq => seq![B_GT, B_EQ],
        Token::And => seq![B_AMP, B_AMP],
        Token::Or => seq![B_PIPE, B_PIPE],
        Token::Not => seq![B_BANG],
        Token::BitAnd => seq![B_AMP],
        Token::BitOr => seq![B_PIPE],
        Token::BitXor => seq![B_CARET],
        Token::BitNot => seq![B_TILDE],
        Token::Shl => seq![B_LT, B_LT],
        Token::Shr => seq![B_GT, B_GT],
        Token::Ushr => seq![B_GT, B_GT, B_GT],
        Token::Question => seq![B_QUESTION],
        Token::NullishCoalesce => seq![B_QUESTION, B_QUESTION],
        Token::OptionalChain => seq![B_QUESTION, B_DOT],
        Token::Arrow => seq![B_EQ, B_GT],
        Token::Spread => seq![B_DOT, B_DOT, B_DOT],
        Token::PlusPlus => seq![B_PLUS, B_PLUS],
        Token::MinusMinus => seq![B_MINUS, B_MINUS],
        Token::LParen => seq![B_LPAREN],
        Token::RParen => seq![B_RPAREN],
        Token::LBrace => seq![B_LBRACE],
        Token::RBrace => seq![B_RBRACE],
        Token::LBracket => seq![B_LBRACKET],
        Token::RBracket => seq![B_RBRACKET],
        Token::Comma => seq![B_COMMA],
        Token::Semicolon => seq![B_SEMI],
        Token::Colon => seq![B_COLON],
        Token::Dot => seq![B_DOT],
        _ => Seq::empty(),
    }
}

/// Position just past the run of identifier bytes that starts at `p`.
pub open spec fn ident_end(s: Seq<u8>, p: int) -> int
    decreases s.len() - p,
{
    if 0 <= p < s.len() && spec_ident_part(s[p]) {
        ident_end(s, p + 1)
    } else {
        p
    }
}

/// Bytes taken one for one as characters (`b as char`).
pub open spec fn bytes_to_chars(s: Seq<u8>) -> Seq<char> {
    s.map_values(|b: u8| b as char)
}

/// `t` is the token for the word `w`: its keyword, or an identifier named `w`.
pub open spec fn spec_word_token(w: Seq<char>, t: Token) -> bool {
    match spec_keyword_token(w) {
        Some(k) => t == k,
        None => t matches Token::Ident(v) && v@ == w,
    }
}

/// The bytes of `s` from `q` on begin with `w`.
pub open spec fn spelled_at(s: Seq<u8>, q: int, w: Seq<u8>) -> bool {
    0 <= q && q + w.len() <= s.len() && s.subrange(q, q + w.len()) == w
}

/// The character that the escape `\b` stands for, for every `b` other than `x` and `u`:
/// `\n`, `\r`, `\t` and `\0` are control characters, every other byte stands for itself.
pub open spec fn spec_simple_escape(b: u8) -> char {
    if b == B_LOWER_N {
        '\n'
    } else if b == B_LOWER_R {
        '\r'
    } else if b == B_LOWER_T {
        '\t'
    } else if b == B_ZERO {
        '\0'
    } else {
        b as char
    }
}

/// From `p` on, a string body runs to the end of the input without its closing quote:
/// ASCII characters and simple escapes (no `\x`, `\u`) only.
pub open spec fn spec_unterminated(s: Seq<u8>, p: int, quote: u8) -> bool
    decreases s.len() - p,
{
    if p < 0 {
        false
    } else if p >= s.len() {
        true
    } else if s[p] == B_BACKSLASH {
        p + 1 < s.len() && s[p + 1] != B_LOWER_X && s[p + 1] != B_LOWER_U && spec_unterminated(
            s,
            p + 2,
            quote,
        )
    } else if s[p] == quote {
        false
    } else if s[p] < 0x80 {
        spec_unterminated(s, p + 1, quote)
    } else {
        false
    }
}

/// The text of a string literal whose body starts at `p` (just past the opening quote)
/// and the position just past its closing quote, for a body of ASCII bytes and simple
/// escapes; `None` when the body is unterminated or holds `\x`, `\u` or other bytes.
pub open spec fn spec_plain_string(s: Seq<u8>, p: int, quote: u8) -> Option<(Seq<char>, int)>
    decreases s.len() - p,
{
    if p < 0 || p >= s.len() {
        None
    } else if s[p] == B_BACKSLASH {
        if p + 1 < s.len() && s[p + 1] != B_LOWER_X && s[p + 1] != B_LOWER_U {
            match spec_plain_string(s, p + 2, quote) {
                Some((rest, e)) => Some((seq![spec_simple_escape(s[p + 1])] + rest, e)),
                None => None,
            }
        } else {
            None
        }
    } else if s[p] == quote {
        Some((Seq::empty(), p + 1))
    } else if s[p] < 0x80 {
        match spec_plain_string(s, p + 1, quote) {
            Some((rest, e)) => Some((seq![s[p] as char] + rest, e)),
            None => None,
        }
    } else {
        None
    }
}

/// The bytes that can begin a token: quotes, backquote, digits, identifier bytes and the
/// first byte of every operator and punctuation mark.
pub open spec fn spec_starts_token(b: u8) -> bool {
    b == B_DQUOTE || b == B_SQUOTE || b == B_BACKTICK || spec_is_digit(b) || spec_ident_start(b)
        || b == B_PLUS || b == B_MINUS || b == B_STAR || b == B_SLASH || b == B_PERCENT || b
        == B_EQ || b == B_BANG || b == B_LT || b == B_GT || b == B_AMP || b == B_PIPE || b
        == B_CARET || b == B_TILDE || b == B_QUESTION || b == B_LPAREN || b == B_RPAREN || b
        == B_LBRACE || b == B_RBRACE || b == B_LBRACKET || b == B_RBRACKET || b == B_COMMA || b
        == B_SEMI || b == B_COLON || b == B_DOT
}

/// A byte that starts an operator or punctuation token: every byte that starts a token
/// but a quote, a backquote, a digit, an identifier byte, `.` and `/`.
pub open spec fn spec_operator_start(b: u8) -> bool {
    spec_starts_token(b) && !(b == B_DQUOTE || b == B_SQUOTE || b == B_BACKTICK || spec_is_digit(b)
        || spec_ident_start(b) || b == B_DOT || b == B_SLASH)
}

/// The kind of token that may start at `q`: a quote starts a string, a backquote a
/// template, a digit (or a dot before a digit) a number, a slash where a regex may
/// stand a regex; an identifier byte starts a word and anything else punctuation.
pub open spec fn spec_token_kind_fits(s: Seq<u8>, q: int, allows_regex: bool, t: Token) -> bool {
    if q >= s.len() {
        t is Eof
    } else if s[q] == B_DQUOTE || s[q] == B_SQUOTE {
        t is Str
    } else if s[q] == B_BACKTICK {
        t is TemplateLiteral
    } else if spec_is_digit(s[q]) || (s[q] == B_DOT && q + 1 < s.len() && spec_is_digit(s[q + 1])) {
        t is Number
    } else if s[q] == B_SLASH && allows_regex {
        t is Regex
    } else if spec_ident_start(s[q]) {
        t is Ident || spec_keyword_token(bytes_to_chars(s.subrange(q, ident_end(s, q)))) == Some(t)
    } else {
        spec_punct_spelling(t).len() > 0
    }
}

/// Position of the first byte at or after `p` that is not a decimal digit.
pub open spec fn digits_end(s: Seq<u8>, p: int) -> int
    decreases s.len() - p,
{
    if 0 <= p < s.len() && spec_is_digit(s[p]) {
        digits_end(s, p + 1)
    } else {
        p
    }
}

/// A decimal integer literal at `p`: digits that do not begin a `0x` or `0b` prefix and
/// are followed by neither a fraction nor an exponent; gives its value and its end.
pub open spec fn spec_int_literal(s: Seq<u8>, p: int) -> Option<(int, int)> {
    if 0 <= p < s.len() && spec_is_digit(s[p]) && !(s[p] == B_ZERO && p + 1 < s.len() && (s[p
        + 1] == B_LOWER_X || s[p + 1] == B_UPPER_X || s[p + 1] == B_LOWER_B || s[p + 1]
        == B_UPPER_B)) {
        let e = digits_end(s, p);
        if e < s.len() && ((s[e] == B_DOT && e + 1 < s.len() && spec_is_digit(s[e + 1])) || s[e]
            == B_LOWER_E || s[e] == B_UPPER_E) {
            None
        } else {
            Some((spec_dec_val(bytes_to_chars(s.subrange(p, e))), e))
        }
    } else {
        None
    }
}

/// A run of digits is read by `parse_int` as it stands: nothing to trim, no sign.
proof fn lemma_digits_read_whole(t: Seq<char>)
    requires
        t.len() > 0,
        spec_all_digits(t),
    ensures
        spec_int_body(t) == t,
        !spec_int_negative(t),
{
    assert('0' <= t[0] <= '9');
    assert('0' <= t.last() <= '9');
    assert(!crate::text::spec_is_whitespace(t[0]));
    assert(!crate::text::spec_is_whitespace(t.last()));
    assert(trim_start_index(t) == 0);
    let u = t.subrange(0, t.len() as int);
    assert(u =~= t);
    assert(trim_end_index(u) == u.len());
    assert(u.subrange(0, trim_end_index(u)) =~= t);
}

/// From `p` up to `e` (at most six places) there are only hexadecimal digits, and `e`
/// is the end of `s` or a `}`.
pub open spec fn hex_run_to(s: Seq<u8>, p: int, e: int) -> bool {
    &&& p <= e <= s.len()
    &&& e - p <= 6
    &&& e == s.len() || s[e] == 0x7D
    &&& forall|k: int| p <= k < e ==> spec_is_hex(#[trigger] s[k])
}

/// The first position at or after `p` that does not hold a hexadecimal digit.
pub open spec fn hex_end(s: Seq<u8>, p: int) -> int
    decreases s.len() - p,
{
    if 0 <= p < s.len() && spec_is_hex(s[p]) {
        hex_end(s, p + 1)
    } else {
        p
    }
}

/// A hexadecimal literal `0x...` at `p` whose digits run up to `hex_end`.
pub open spec fn hex_literal_at(s: Seq<u8>, p: int) -> bool {
    &&& 0 <= p && p + 2 < s.len()
    &&& s[p] == 0x30
    &&& (s[p + 1] == 0x78 || s[p + 1] == 0x58)
    &&& spec_is_hex(s[p + 2])
}

/// Before the end of a hexadecimal run every byte is a digit, and the run ends at the
/// same place from any point inside it.
proof fn lemma_hex_end_step(s: Seq<u8>, q: int)
    requires
        0 <= q < s.len(),
        spec_is_hex(s[q]),
    ensures
        hex_end(s, q + 1) == hex_end(s, q),
        q < hex_end(s, q),
{
    lemma_hex_end_bounds(s, q + 1);
}

/// `hex_end` lies at or after its start, within the text.
proof fn lemma_hex_end_bounds(s: Seq<u8>, p: int)
    requires
        0 <= p <= s.len(),
    ensures
        p <= hex_end(s, p) <= s.len(),
        forall|k: int| p <= k < hex_end(s, p) ==> spec_is_hex(#[trigger] s[k]),
    decreases s.len() - p,
{
    if p < s.len() && spec_is_hex(s[p]) {
        lemma_hex_end_bounds(s, p + 1);
    }
}

/// Reading more hexadecimal digits never makes the value smaller.
proof fn lemma_hex_val_grows(s: Seq<u8>, a: int, q: int, e: int)
    requires
        0 <= a <= q <= e <= s.len(),
        forall|k: int| a <= k < e ==> spec_is_hex(#[trigger] s[k]),
    ensures
        spec_hex_seq_val(s.subrange(a, q)) <= spec_hex_seq_val(s.subrange(a, e)),
    decreases e - q,
{
    if q < e {
        lemma_hex_val_grows(s, a, q + 1, e);
        assert(s.subrange(a, q + 1).drop_last() =~= s.subrange(a, q));
        lemma_hex_val_nonneg(s.subrange(a, q));
        assert(spec_is_hex(s[q]));
    }
}

proof fn lemma_hex_val_nonneg(s: Seq<u8>)
    requires
        forall|k: int| 0 <= k < s.len() ==> spec_is_hex(#[trigger] s[k]),
    ensures
        spec_hex_seq_val(s) >= 0,
    decreases s.len(),
{
    if s.len() > 0 {
        lemma_hex_val_nonneg(s.drop_last());
    }
}

/// The single-character punctuation token that starts at `q`: brackets, `;`, `,`,
/// `:`, a `.` that begins neither a number nor `...`, and a `=` that begins neither
/// `==` nor `=>`.
pub open spec fn simple_punct(s: Seq<u8>, q: int) -> Option<Token> {
    if q < 0 || q >= s.len() {
        None
    } else if s[q] == B_LPAREN {
        Some(Token::LParen)
    } else if s[q] == B_RPAREN {
        Some(Token::RParen)
    } else if s[q] == B_LBRACE {
        Some(Token::LBrace)
    } else if s[q] == B_RBRACE {
        Some(Token::RBrace)
    } else if s[q] == B_LBRACKET {
        Some(Token::LBracket)
    } else if s[q] == B_RBRACKET {
        Some(Token::RBracket)
    } else if s[q] == B_COMMA {
        Some(Token::Comma)
    } else if s[q] == B_SEMI {
        Some(Token::Semicolon)
    } else if s[q] == B_COLON {
        Some(Token::Colon)
    } else if s[q] == B_DOT && !(q + 1 < s.len() && (spec_is_digit(s[q + 1]) || s[q + 1] == B_DOT)) {
        Some(Token::Dot)
    } else if s[q] == B_EQ && !(q + 1 < s.len() && (s[q + 1] == B_EQ || s[q + 1] == B_GT)) {
        Some(Token::Assign)
    } else {
        None
    }
}

/// What a token is, as far as the plain fragment of scripts tells tokens apart: a kind
/// number (0 for the kinds it does not use) and, for strings and names, the text.
pub open spec fn tok_view(t: Token) -> (int, Seq<char>) {
    match t {
        Token::Eof => (1, Seq::empty()),
        Token::Str(x) => (2, x@),
        Token::Ident(x) => (3, x@),
        Token::Dot => (4, Seq::empty()),
        Token::LParen => (5, Seq::empty()),
        Token::RParen => (6, Seq::empty()),
        Token::Comma => (7, Seq::empty()),
        Token::Semicolon => (8, Seq::empty()),
        Token::Assign => (9, Seq::empty()),
        Token::True => (10, Seq::empty()),
        Token::False => (11, Seq::empty()),
        Token::Null => (12, Seq::empty()),
        Token::Undefined => (13, Seq::empty()),
        Token::LBrace => (14, Seq::empty()),
        Token::RBrace => (15, Seq::empty()),
        Token::LBracket => (16, Seq::empty()),
        Token::RBracket => (17, Seq::empty()),
        Token::Colon => (18, Seq::empty()),
        Token::Throw => (19, Seq::empty()),
        Token::While => (20, Seq::empty()),
        _ => (0, Seq::empty()),
    }
}

/// The view of the token of the plain fragment at `q` and the position after it:
/// simple punctuation, a string without `\x`/`\u` escapes, or a word.
pub open spec fn plain_token_view(s: Seq<u8>, q: int) -> Option<((int, Seq<char>), int)> {
    if q < 0 || q >= s.len() {
        None
    } else if simple_punct(s, q) is Some {
        Some((tok_view(simple_punct(s, q)->0), q + 1))
    } else if s[q] == B_DQUOTE || s[q] == B_SQUOTE {
        match spec_plain_string(s, q + 1, s[q]) {
            Some((v, e)) => Some(((2, v), e)),
            None => None,
        }
    } else if spec_ident_start(s[q]) {
        let w = bytes_to_chars(s.subrange(q, ident_end(s, q)));
        Some(
            (
                match spec_keyword_token(w) {
                    Some(k) => tok_view(k),
                    None => (3, w),
                },
                ident_end(s, q),
            ),
        )
    } else {
        None
    }
}

/// The views of the tokens of `s` from `p` on, ending with the end of input, where every
/// token is of the plain fragment; `None` otherwise.
pub open spec fn lex_views(s: Seq<u8>, p: int) -> Option<Seq<(int, Seq<char>)>>
    decreases s.len() - p,
{
    let q = skip_ws_comments(s, p);
    if p < 0 || p > s.len() || q < p || q > s.len() {
        None
    } else if q == s.len() {
        Some(seq![(1, Seq::empty())])
    } else {
        match plain_token_view(s, q) {
            Some((v, e)) => if q < e <= s.len() {
                match lex_views(s, e) {
                    Some(rest) => Some(seq![v] + rest),
                    None => None,
                }
            } else {
                None
            },
            None => None,
        }
    }
}

/// At `q` a string literal opens that its input never closes.
pub open spec fn unterminated_at(s: Seq<u8>, q: int) -> bool {
    0 <= q < s.len() && (s[q] == B_DQUOTE || s[q] == B_SQUOTE) && spec_unterminated(s, q + 1, s[q])
}

/// The error of tokenizing `s` from `p` where tokens of the plain fragment lead up to a
/// string literal that is never closed; `None` otherwise.
pub open spec fn lex_error(s: Seq<u8>, p: int) -> Option<Seq<char>>
    decreases s.len() - p,
{
    let q = skip_ws_comments(s, p);
    if p < 0 || p > s.len() || q < p || q >= s.len() {
        None
    } else if unterminated_at(s, q) {
        Some("unterminated string literal"@)
    } else {
        match plain_token_view(s, q) {
            Some((v, e)) => if q < e <= s.len() {
                lex_error(s, e)
            } else {
                None
            },
            None => None,
        }
    }
}

/// Where the next token of `t` starts: after the blanks and comments at its position.
pub open spec fn token_start(t: Tokenizer) -> int {
    skip_ws_comments(t.src@, t.pos as int)
}

pub fn tokenize(source: &str) -> (r: Result<Vec<Token>, Vec<char>>)
    ensures
        skip_ws_comments(source.spec_bytes(), 0) >= source.spec_bytes().len() ==> (r matches Ok(toks)
            && toks@.len() == 1 && toks@[0] is Eof),
        r matches Ok(toks) ==> toks@.len() > 0 && toks@.last() is Eof,
        r matches Ok(toks) ==> forall|i: int| 0 <= i < toks@.len() - 1 ==> !(#[trigger] toks@[i] is Eof),
        lex_views(source.spec_bytes(), 0) matches Some(vs) ==> (r matches Ok(toks) && toks@.map_values(
            |t: Token| tok_view(t),
        ) == vs),
        lex_error(source.spec_bytes(), 0) matches Some(m) ==> (r matches Err(e) && e@ == m),
{
    let mut tokenizer = Tokenizer::new(source);
    tokenizer.tokenize_all()
}

pub struct Tokenizer {
    pub src: Vec<u8>,
    pub pos: usize,
    /// Whether the last meaningful token could precede a regex literal: after operators,
    /// `(`, `[`, `{`, `,`, `;`, `return` and the like a `/` starts a regex; after
    /// identifiers, numbers, `)`, `]`, `}` it is division.
    pub last_token_allows_regex: bool,
}

/// The token kinds after which a `/` starts a regex literal.
pub open spec fn spec_allows_regex(t: Token) -> bool {
    match t {
        Token::Assign | Token::PlusAssign | Token::MinusAssign | Token::StarAssign
        | Token::SlashAssign | Token::PercentAssign | Token::AmpAssign | Token::PipeAssign
        | Token::CaretAssign | Token::ShlAssign | Token::ShrAssign | Token::UshrAssign
        | Token::Plus | Token::Minus | Token::Star | Token::Percent | Token::Eq
        | Token::StrictEq | Token::NotEq | Token::StrictNotEq | Token::Lt | Token::Gt
        | Token::LtEq | Token::GtEq | Token::And | Token::Or | Token::Not | Token::BitAnd
        | Token::BitOr | Token::BitXor | Token::BitNot | Token::Shl | Token::Shr | Token::Ushr
        | Token::Question | Token::NullishCoalesce | Token::Comma | Token::Semicolon
        | Token::Colon | Token::LParen | Token::LBracket | Token::LBrace | Token::Return
        | Token::Throw | Token::Typeof | Token::Void | Token::Delete | Token::New | Token::In
        | Token::Instanceof | Token::Case | Token::Arrow | Token::Spread | Token::DoubleStar => true,
        _ => false,
    }
}

pub fn allows_regex(t: &Token) -> (r: bool)
    ensures
        r == spec_allows_regex(*t),
{
    match t {
        Token::Assign | Token::PlusAssign | Token::MinusAssign | Token::StarAssign
        | Token::SlashAssign | Token::PercentAssign | Token::AmpAssign | Token::PipeAssign
        | Token::CaretAssign | Token::ShlAssign | Token::ShrAssign | Token::UshrAssign
        | Token::Plus | Token::Minus | Token::Star | Token::Percent | Token::Eq
        | Token::StrictEq | Token::NotEq | Token::StrictNotEq | Token::Lt | Token::Gt
        | Token::LtEq | Token::GtEq | Token::And | Token::Or | Token::Not | Token::BitAnd
        | Token::BitOr | Token::BitXor | Token::BitNot | Token::Shl | Token::Shr | Token::Ushr
        | Token::Question | Token::NullishCoalesce | Token::Comma | Token::Semicolon
        | Token::Colon | Token::LParen | Token::LBracket | Token::LBrace | Token::Return
        | Token::Throw | Token::Typeof | Token::Void | Token::Delete | Token::New | Token::In
        | Token::Instanceof | Token::Case | Token::Arrow | Token::Spread | Token::DoubleStar => true,
        _ => false,
    }
}

/// Decodes the character whose UTF-8 encoding starts at `start`, as
/// `core::str::from_utf8(&src[start..])` followed by `chars().next()` does on the bytes
/// of a `str`: `None` when `start` is inside a character.
pub fn decode_char_at(src: &Vec<u8>, start: usize) -> (r: Option<(char, usize)>)
    requires
        start < src@.len(),
    ensures
        r matches Some((c, n)) ==> 1 <= n <= 4 && start + n <= src@.len() && n
            == spec_utf8_len(c),
        src@[start as int] < 0x80 ==> (r matches Some((c, n)) && n == 1 && c as u32 == src@[start as int]),
{
    let b0 = src[start] as u32;
    let len = src.len();
    if b0 < 0x80 {
        let c = char_from_u32(b0);
        match c {
            Some(ch) => Some((ch, 1)),
            None => None,
        }
    } else if b0 < 0xC0 {
        None
    } else if b0 < 0xE0 {
        if len - start <= 1 {
            return None;
        }
        let b1 = src[start + 1] as u32;
        if b1 < 0x80 || b1 >= 0xC0 {
            return None;
        }
        let v = (b0 - 0xC0) * 64 + (b1 - 0x80);
        if v < 0x80 {
            return None;
        }
        match char_from_u32(v) {
            Some(ch) => Some((ch, 2)),
            None => None,
        }
    } else if b0 < 0xF0 {
        if len - start <= 2 {
            return None;
        }
        let b1 = src[start + 1] as u32;
        let b2 = src[start + 2] as u32;
        if b1 < 0x80 || b1 >= 0xC0 || b2 < 0x80 || b2 >= 0xC0 {
            return None;
        }
        let v = (b0 - 0xE0) * 4096 + (b1 - 0x80) * 64 + (b2 - 0x80);
        if v < 0x800 {
            return None;
        }
        match char_from_u32(v) {
            Some(ch) => Some((ch, 3)),
            None => None,
        }
    } else if b0 < 0xF8 {
        if len - start <= 3 {
            return None;
        }
        let b1 = src[start + 1] as u32;
        let b2 = src[start + 2] as u32;
        let b3 = src[start + 3] as u32;
        if b1 < 0x80 || b1 >= 0xC0 || b2 < 0x80 || b2 >= 0xC0 || b3 < 0x80 || b3 >= 0xC0 {
            return None;
        }
        let v = (b0 - 0xF0) * 262144 + (b1 - 0x80) * 4096 + (b2 - 0x80) * 64 + (b3 - 0x80);
        if v < 0x10000 {
            return None;
        }
        match char_from_u32(v) {
            Some(ch) => Some((ch, 4)),
            None => None,
        }
    } else {
        None
    }
}

/// The keyword token that the word `w` spells, if it is a keyword.
pub open spec fn spec_keyword_token(w: Seq<char>) -> Option<Token> {
    if w == "var"@ {
        Some(Token::Var)
    } else if w == "let"@ {
        Some(Token::Let)
    } else if w == "const"@ {
        Some(Token::Const)
    } else if w == "function"@ {
        Some(Token::Function)
    } else if w == "return"@ {
        Some(Token::Return)
    } else if w == "if"@ {
        Some(Token::If)
    } else if w == "else"@ {
        Some(Token::Else)
    } else if w == "for"@ {
        Some(Token::For)
    } else if w == "while"@ {
        Some(Token::While)
    } else if w == "do"@ {
        Some(Token::Do)
    } else if w == "break"@ {
        Some(Token::Break)
    } else if w == "continue"@ {
        Some(Token::Continue)
    } else if w == "switch"@ {
        Some(Token::Switch)
    } else if w == "case"@ {
        Some(Token::Case)
    } else if w == "default"@ {
        Some(Token::Default)
    } else if w == "new"@ {
        Some(Token::New)
    } else if w == "this"@ {
        Some(Token::This)
    } else if w == "typeof"@ {
        Some(Token::Typeof)
    } else if w == "instanceof"@ {
        Some(Token::Instanceof)
    } else if w == "in"@ {
        Some(Token::In)
    } else if w == "of"@ {
        Some(Token::Of)
    } else if w == "true"@ {
        Some(Token::True)
    } else if w == "false"@ {
        Some(Token::False)
    } else if w == "null"@ {
        Some(Token::Null)
    } else if w == "undefined"@ {
        Some(Token::Undefined)
    } else if w == "try"@ {
        Some(Token::Try)
    } else if w == "catch"@ {
        Some(Token::Catch)
    } else if w == "finally"@ {
        Some(Token::Finally)
    } else if w == "throw"@ {
        Some(Token::Throw)
    } else if w == "void"@ {
        Some(Token::Void)
    } else if w == "delete"@ {
        Some(Token::Delete)
    } else {
        None
    }
}

/// The keyword token spelled by `word`, or an identifier.
pub fn keyword_or_ident(word: Vec<char>) -> (r: Token)
    ensures
        r == (match spec_keyword_token(word@) {
            Some(t) => t,
            None => Token::Ident(word),
        }),
{
    if eq_str(&word, "var") {
        Token::Var
    } else if eq_str(&word, "let") {
        Token::Let
    } else if eq_str(&word, "const") {
        Token::Const
    } else if eq_str(&word, "function") {
        Token::Function
    } else if eq_str(&word, "return") {
        Token::Return
    } else if eq_str(&word, "if") {
        Token::If
    } else if eq_str(&word, "else") {
        Token::Else
    } else if eq_str(&word, "for") {
        Token::For
    } else if eq_str(&word, "while") {
        Token::While
    } else if eq_str(&word, "do") {
        Token::Do
    } else if eq_str(&word, "break") {
        Token::Break
    } else if eq_str(&word, "continue") {
        Token::Continue
    } else if eq_str(&word, "switch") {
        Token::Switch
    } else if eq_str(&word, "case") {
        Token::Case
    } else if eq_str(&word, "default") {
        Token::Default
    } else if eq_str(&word, "new") {
        Token::New
    } else if eq_str(&word, "this") {
        Token::This
    } else if eq_str(&word, "typeof") {
        Token::Typeof
    } else if eq_str(&word, "instanceof") {
        Token::Instanceof
    } else if eq_str(&word, "in") {
        Token::In
    } else if eq_str(&word, "of") {
        Token::Of
    } else if eq_str(&word, "true") {
        Token::True
    } else if eq_str(&word, "false") {
        Token::False
    } else if eq_str(&word, "null") {
        Token::Null
    } else if eq_str(&word, "undefined") {
        Token::Undefined
    } else if eq_str(&word, "try") {
        Token::Try
    } else if eq_str(&word, "catch") {
        Token::Catch
    } else if eq_str(&word, "finally") {
        Token::Finally
    } else if eq_str(&word, "throw") {
        Token::Throw
    } else if eq_str(&word, "void") {
        Token::Void
    } else if eq_str(&word, "delete") {
        Token::Delete
    } else {
        Token::Ident(word)
    }
}

/// Appends `b` to `s` as the character with that code (`b as char`).
fn push_byte(s: &mut Vec<char>, b: u8)
    ensures
        final(s)@ == old(s)@.push(b as char),
{
    s.push(b as char);
}

impl Tokenizer {
    pub open spec fn wf(&self) -> bool {
        self.pos <= self.src@.len()
    }

    pub fn new(source: &str) -> (r: Tokenizer)
        ensures
            r.src@ == source.spec_bytes(),
            r.pos == 0,
            r.last_token_allows_regex,
            r.wf(),
    {
        let bytes = source.as_bytes();
        let src = slice_range(bytes, 0, bytes.len());
        assert(bytes@.subrange(0, bytes@.len() as int) =~= bytes@);
        Tokenizer { src, pos: 0, last_token_allows_regex: true }
    }

    pub fn peek(&self) -> (r: Option<u8>)
        requires
            self.wf(),
        ensures
            r == (if self.pos < self.src@.len() {
                Some(self.src@[self.pos as int])
            } else {
                None::<u8>
            }),
    {
        if self.pos < self.src.len() {
            Some(self.src[self.pos])
        } else {
            None
        }
    }

    pub fn peek_at(&self, offset: usize) -> (r: Option<u8>)
        requires
            self.wf(),
        ensures
            r == (if self.pos + offset < self.src@.len() {
                Some(self.src@[self.pos + offset])
            } else {
                None::<u8>
            }),
    {
        if offset < self.src.len() - self.pos {
            Some(self.src[self.pos + offset])
        } else {
            None
        }
    }

    pub fn advance(&mut self) -> (r: Option<u8>)
        requires
            old(self).wf(),
        ensures
            final(self).wf(),
            final(self).src == old(self).src,
            final(self).last_token_allows_regex == old(self).last_token_allows_regex,
            r == (if old(self).pos < old(self).src@.len() {
                Some(old(self).src@[old(self).pos as int])
            } else {
                None::<u8>
            }),
            final(self).pos == (if r is Some {
                old(self).pos + 1
            } else {
                old(self).pos as int
            }),
    {
        if self.pos < self.src.len() {
            let ch = self.src[self.pos];
            self.pos = self.pos + 1;
            Some(ch)
        } else {
            None
        }
    }

    fn skip_blank_run(&mut self)
        requires
            old(self).wf(),
        ensures
            final(self).wf(),
            final(self).src == old(self).src,
            final(self).last_token_allows_regex == old(self).last_token_allows_regex,
            final(self).pos == skip_blanks(old(self).src@, old(self).pos as int),
    {
        while self.pos < self.src.len() && (self.src[self.pos] == B_SPACE || self.src[self.pos]
            == B_TAB || self.src[self.pos] == B_LF || self.src[self.pos] == B_CR)
            invariant
                self.wf(),
                self.src == old(self).src,
                self.last_token_allows_regex == old(self).last_token_allows_regex,
                skip_blanks(self.src@, self.pos as int) == skip_blanks(
                    old(self).src@,
                    old(self).pos as int,
                ),
            decreases self.src@.len() - self.pos,
        {
            self.pos = self.pos + 1;
        }
    }

    pub fn skip_whitespace_and_comments(&mut self)
        requires
            old(self).wf(),
        ensures
            final(self).wf(),
            final(self).src == old(self).src,
            final(self).last_token_allows_regex == old(self).last_token_allows_regex,
            final(self).pos == skip_ws_comments(old(self).src@, old(self).pos as int),
            final(self).pos >= old(self).pos,
    {
        let ghost s = self.src@;
        let len = self.src.len();
        loop
            invariant
                self.wf(),
                len == self.src@.len(),
                self.src == old(self).src,
                s == self.src@,
                self.last_token_allows_regex == old(self).last_token_allows_regex,
                self.pos >= old(self).pos,
                skip_ws_comments(s, self.pos as int) == skip_ws_comments(s, old(self).pos as int),
            ensures
                self.pos == skip_ws_comments(s, self.pos as int),
            decreases self.src@.len() - self.pos,
        {
            let ghost p0 = self.pos as int;
            proof {
                lemma_skip_blanks_bounds(s, p0);
            }
            self.skip_blank_run();
            let ghost q = self.pos as int;
            if len - self.pos > 1 && self.src[self.pos] == B_SLASH && self.src[self.pos + 1]
                == B_SLASH {
                self.pos = self.pos + 2;
                while self.pos < len && self.src[self.pos] != B_LF
                    invariant
                        self.wf(),
                        len == self.src@.len(),
                        self.src == old(self).src,
                        s == self.src@,
                        self.last_token_allows_regex == old(self).last_token_allows_regex,
                        line_end(s, self.pos as int) == line_end(s, q + 2),
                        self.pos >= q + 2,
                    decreases self.src@.len() - self.pos,
                {
                    self.pos = self.pos + 1;
                }
                proof {
                    lemma_line_end_bounds(s, q + 2);
                    assert(skip_ws_comments(s, p0) == skip_ws_comments_after(s, line_end(s, q + 2), p0));
                }
                continue;
            }
            if len - self.pos > 1 && self.src[self.pos] == B_SLASH && self.src[self.pos + 1]
                == B_STAR {
                self.pos = self.pos + 2;
                while len - self.pos > 1 && !(self.src[self.pos] == B_STAR && self.src[self.pos
                    + 1] == B_SLASH)
                    invariant
                        self.wf(),
                        len == self.src@.len(),
                        self.src == old(self).src,
                        s == self.src@,
                        self.last_token_allows_regex == old(self).last_token_allows_regex,
                        block_comment_end(s, self.pos as int) == block_comment_end(s, q + 2),
                        self.pos >= q + 2,
                    decreases self.src@.len() - self.pos,
                {
                    self.pos = self.pos + 1;
                }
                if len - self.pos > 1 {
                    self.pos = self.pos + 2;
                }
                proof {
                    lemma_block_comment_end_bounds(s, q + 2);
                    assert(skip_ws_comments(s, p0) == skip_ws_comments_after(s, block_comment_end(s, q + 2), p0));
                }
                continue;
            }
            proof {
                lemma_skip_blanks_idem(s, p0);
                assert(skip_ws_comments(s, q) == q);
                assert(skip_ws_comments(s, p0) == q);
            }
            break;
        }
    }

    /// Reads a quoted string literal whose opening quote is at the current position.
    pub fn read_string(&mut self, quote: u8) -> (r: Result<Vec<char>, Vec<char>>)
        requires
            old(self).wf(),
        ensures
            final(self).wf(),
            final(self).src == old(self).src,
            final(self).last_token_allows_regex == old(self).last_token_allows_regex,
            final(self).pos >= old(self).pos,
            r is Ok ==> final(self).pos > old(self).pos && final(self).src@[final(self).pos
                - 1] == quote,
            spec_plain_string(old(self).src@, old(self).pos + 1, quote) matches Some((v, e)) ==> (
            r matches Ok(x) && x@ == v && final(self).pos == e),
            spec_unterminated(old(self).src@, old(self).pos + 1, quote) ==> (r matches Err(m) && m@
                == "unterminated string literal"@),
    {
        proof {
            reveal_strlit("unterminated string literal");
        }
        self.advance();
        let ghost start = self.pos;
        let ghost body = spec_plain_string(self.src@, old(self).pos + 1, quote);
        let mut s: Vec<char> = Vec::new();
        loop
            invariant
                self.wf(),
                self.src == old(self).src,
                self.last_token_allows_regex == old(self).last_token_allows_regex,
                self.pos >= old(self).pos,
                body == spec_plain_string(self.src@, old(self).pos + 1, quote),
                body matches Some((v, e)) ==> (spec_plain_string(self.src@, self.pos as int, quote) matches Some((v2, e2)) && e2 == e && v == s@ + v2),
                spec_unterminated(self.src@, old(self).pos + 1, quote) ==> spec_unterminated(
                    self.src@,
                    self.pos as int,
                    quote,
                ),
            decreases self.src@.len() - self.pos,
        {
            let ghost p = self.pos as int;
            let ghost s0 = s@;
            match self.advance() {
                None => {
                    return Err(str_to_chars("unterminated string literal"));
                },
                Some(ch) => {
                    if ch == B_BACKSLASH {
                        match self.advance() {
                            Some(e) => {
                                if e == B_LOWER_N {
                                    s.push('\n');
                                } else if e == B_LOWER_R {
                                    s.push('\r');
                                } else if e == B_LOWER_T {
                                    s.push('\t');
                                } else if e == B_BACKSLASH {
                                    s.push('\\');
                                } else if e == B_SQUOTE {
                                    s.push('\'');
                                } else if e == B_DQUOTE {
                                    s.push('"');
                                } else if e == B_BACKTICK {
                                    s.push('`');
                                } else if e == B_ZERO {
                                    s.push('\0');
                                } else if e == B_SLASH {
                                    s.push('/');
                                } else if e == B_LOWER_X {
                                    let h = self.read_hex_escape(2)?;
                                    if let Some(c) = char_from_u32(h) {
                                        s.push(c);
                                    }
                                } else if e == B_LOWER_U {
                                    let h = if self.peek() == Some(B_LBRACE) {
                                        self.advance();
                                        let val = self.read_hex_escape_variable()?;
                                        if self.peek() == Some(B_RBRACE) {
                                            self.advance();
                                        }
                                        val
                                    } else {
                                        self.read_hex_escape(4)?
                                    };
                                    if let Some(c) = char_from_u32(h) {
                                        s.push(c);
                                    }
                                } else {
                                    // unknown escape: keep the character as-is
                                    push_byte(&mut s, e);
                                }
                            },
                            None => {
                                return Err(str_to_chars("unterminated string escape"));
                            },
                        }
                    } else if ch == quote {
                        return Ok(s);
                    } else if ch < 0x80 {
                        push_byte(&mut s, ch);
                    } else {
                        let start = self.pos - 1;
                        let slen = self.src.len();
                        let dec = decode_char_at(&self.src, start);
                        match dec {
                            Some((c, n)) => {
                                assert(start + n <= slen);
                                s.push(c);
                                self.pos = start + n;
                            },
                            None => {
                                push_byte(&mut s, ch);
                            },
                        }
                    }
                },
            }
        }
    }

    /// Reads a template literal whose opening backtick is at the current position.
    fn read_template_literal(&mut self) -> (r: Result<Token, Vec<char>>)
        requires
            old(self).wf(),
            old(self).pos < old(self).src@.len(),
        ensures
            r matches Ok(t) ==> t is TemplateLiteral,
            final(self).wf(),
            final(self).src == old(self).src,
            final(self).pos > old(self).pos,
        decreases old(self).src@.len() - old(self).pos, 1int,
    {
        self.advance();
        let mut parts: Vec<TemplatePart> = Vec::new();
        let mut current: Vec<char> = Vec::new();
        loop
            invariant
                self.wf(),
                self.src == old(self).src,
                self.pos > old(self).pos,
            decreases self.src@.len() - self.pos,
        {
            match self.peek() {
                None => {
                    return Err(str_to_chars("unterminated template literal"));
                },
                Some(ch) => {
                    if ch == B_BACKTICK {
                        self.advance();
                        if current.len() > 0 {
                            parts.push(TemplatePart::Str(current));
                        }
                        return Ok(Token::TemplateLiteral(parts));
                    } else if ch == B_DOLLAR && self.peek_at(1) == Some(B_LBRACE) {
                        self.advance();
                        self.advance();
                        if current.len() > 0 {
                            let taken = current;
                            current = Vec::new();
                            parts.push(TemplatePart::Str(taken));
                        }
                        let expr_tokens = self.tokenize_template_expr()?;
                        parts.push(TemplatePart::Expr(expr_tokens));
                    } else if ch == B_BACKSLASH {
                        self.advance();
                        match self.advance() {
                            Some(e) => {
                                if e == B_LOWER_N {
                                    current.push('\n');
                                } else if e == B_LOWER_R {
                                    current.push('\r');
                                } else if e == B_LOWER_T {
                                    current.push('\t');
                                } else if e == B_BACKSLASH {
                                    current.push('\\');
                                } else if e == B_BACKTICK {
                                    current.push('`');
                                } else if e == B_DOLLAR {
                                    current.push('$');
                                } else {
                                    push_byte(&mut current, e);
                                }
                            },
                            None => {
                                return Err(str_to_chars("unterminated template escape"));
                            },
                        }
                    } else {
                        self.advance();
                        if ch < 0x80 {
                            push_byte(&mut current, ch);
                        } else {
                            let start = self.pos - 1;
                            let slen = self.src.len();
                        let dec = decode_char_at(&self.src, start);
                            match dec {
                                Some((c, n)) => {
                                    assert(start + n <= slen);
                                    current.push(c);
                                    self.pos = start + n;
                                },
                                None => {
                                    push_byte(&mut current, ch);
                                },
                            }
                        }
                    }
                },
            }
        }
    }

    /// Tokenizes the expression inside `${ ... }` up to its matching closing brace.
    fn tokenize_template_expr(&mut self) -> (r: Result<Vec<Token>, Vec<char>>)
        requires
            old(self).wf(),
            old(self).pos >= 1,
        ensures
            final(self).wf(),
            final(self).src == old(self).src,
            final(self).pos >= old(self).pos,
            r matches Ok(v) ==> final(self).pos > old(self).pos && final(self).src@[final(self).pos
                - 1] == B_RBRACE && forall|i: int| 0 <= i < v@.len() ==> !(#[trigger] v@[i] is Eof),
            token_start(*old(self)) >= old(self).src@.len() ==> r is Err,
            token_start(*old(self)) < old(self).src@.len() && old(self).src@[token_start(
                *old(self),
            )] == B_RBRACE ==> (r matches Ok(v) && v@.len() == 0 && final(self).pos == token_start(
                *old(self),
            ) + 1),
        decreases old(self).src@.len() - old(self).pos, 3int,
    {
        let mut tokens: Vec<Token> = Vec::new();
        let mut brace_depth: usize = 1;
        let ghost mut first = true;
        loop
            invariant
                self.wf(),
                self.src == old(self).src,
                self.pos >= old(self).pos,
                brace_depth >= 1,
                old(self).pos >= 1,
                brace_depth <= 1 + self.pos - old(self).pos,
                forall|i: int| 0 <= i < tokens@.len() ==> !(#[trigger] tokens@[i] is Eof),
                first ==> self.pos == old(self).pos && tokens@.len() == 0 && brace_depth == 1,
                token_start(*old(self)) < old(self).src@.len() && old(self).src@[token_start(
                    *old(self),
                )] == B_RBRACE ==> first,
                token_start(*old(self)) >= old(self).src@.len() ==> first,
            decreases self.src@.len() - self.pos,
        {
            let ghost was_first = first;
            self.skip_whitespace_and_comments();
            proof {
                if was_first {
                    assert(self.pos == token_start(*old(self)));
                }
                first = false;
            }
            match self.peek() {
                None => {
                    return Err(str_to_chars("unterminated template expression"));
                },
                Some(ch) => {
                    if ch == B_RBRACE {
                        brace_depth = brace_depth - 1;
                        if brace_depth == 0 {
                            self.advance();
                            return Ok(tokens);
                        }
                        self.advance();
                        tokens.push(Token::RBrace);
                    } else if ch == B_LBRACE {
                        self.advance();
                        brace_depth = brace_depth + 1;
                        tokens.push(Token::LBrace);
                    } else {
                        let ghost before = self.pos;
                        let tok = self.next_token()?;
                        if matches!(tok, Token::Eof) {
                            return Err(str_to_chars("unterminated template expression"));
                        }
                        tokens.push(tok);
                    }
                },
            }
        }
    }

    /// Reads exactly `count` hexadecimal digits and returns their value.
    pub fn read_hex_escape(&mut self, count: usize) -> (r: Result<u32, Vec<char>>)
        requires
            old(self).wf(),
            count <= 4,
        ensures
            final(self).wf(),
            final(self).src == old(self).src,
            final(self).last_token_allows_regex == old(self).last_token_allows_regex,
            final(self).pos >= old(self).pos,
            r matches Ok(v) ==> final(self).pos == old(self).pos + count && (forall|i: int|
                old(self).pos <= i < final(self).pos ==> spec_is_hex(#[trigger] old(self).src@[i]))
                && v == spec_hex_seq_val(
                old(self).src@.subrange(old(self).pos as int, final(self).pos as int),
            ),
            r is Ok <==> (old(self).pos + count <= old(self).src@.len() && forall|i: int|
                old(self).pos <= i < old(self).pos + count ==> spec_is_hex(
                    #[trigger] old(self).src@[i],
                )),
    {
        let mut val: u32 = 0;
        let mut k: usize = 0;
        let ghost p0 = self.pos as int;
        let ghost s = self.src@;
        while k < count
            invariant
                self.wf(),
                self.src == old(self).src,
                s == self.src@,
                self.last_token_allows_regex == old(self).last_token_allows_regex,
                p0 == old(self).pos,
                k <= count <= 4,
                self.pos == p0 + k,
                forall|i: int| p0 <= i < p0 + k ==> spec_is_hex(#[trigger] s[i]),
                val == spec_hex_seq_val(s.subrange(p0, p0 + k)),
                val < pow16(k as nat),
            decreases count - k,
        {
            match self.advance() {
                Some(ch) => {
                    if !is_hex(ch) {
                        return Err(str_to_chars("invalid hex escape"));
                    }
                    let digit = hex_val(ch);
                    proof {
                        assert(s.subrange(p0, p0 + k + 1).drop_last() =~= s.subrange(p0, p0 + k));
                        lemma_pow16_step(k as nat);
                        lemma_pow16_bound(k as nat);
                    }
                    val = val * 16 + digit;
                    k = k + 1;
                },
                None => {
                    return Err(str_to_chars("unterminated hex escape"));
                },
            }
        }
        Ok(val)
    }

    /// Reads hexadecimal digits up to a `}` (not consumed) or the end, at most six.
    pub fn read_hex_escape_variable(&mut self) -> (r: Result<u32, Vec<char>>)
        requires
            old(self).wf(),
        ensures
            final(self).wf(),
            final(self).src == old(self).src,
            final(self).last_token_allows_regex == old(self).last_token_allows_regex,
            final(self).pos >= old(self).pos,
            forall|e: int| #[trigger] hex_run_to(old(self).src@, old(self).pos as int, e) ==> (r is Ok
                && final(self).pos == e),
            r matches Ok(v) ==> final(self).pos - old(self).pos <= 6 && (forall|i: int|
                old(self).pos <= i < final(self).pos ==> spec_is_hex(#[trigger] old(self).src@[i]))
                && (final(self).pos == old(self).src@.len() || old(self).src@[final(self).pos as int]
                == 0x7D) && v == spec_hex_seq_val(
                old(self).src@.subrange(old(self).pos as int, final(self).pos as int),
            ),
    {
        let mut val: u32 = 0;
        let mut count: usize = 0;
        let ghost p0 = self.pos as int;
        let ghost s = self.src@;
        while self.pos < self.src.len() && self.src[self.pos] != B_RBRACE
            invariant
                self.wf(),
                self.src == old(self).src,
                s == self.src@,
                self.last_token_allows_regex == old(self).last_token_allows_regex,
                p0 == old(self).pos,
                count <= 6,
                self.pos == p0 + count,
                forall|i: int| p0 <= i < p0 + count ==> spec_is_hex(#[trigger] s[i]),
                val == spec_hex_seq_val(s.subrange(p0, p0 + count)),
                val < pow16(count as nat),
                forall|e: int| #[trigger] hex_run_to(s, p0, e) ==> self.pos <= e,
            decreases self.src@.len() - self.pos,
        {
            let ch = self.src[self.pos];
            self.pos = self.pos + 1;
            if !is_hex(ch) {
                return Err(str_to_chars("invalid hex escape"));
            }
            let digit = hex_val(ch);
            proof {
                assert(s.subrange(p0, p0 + count + 1).drop_last() =~= s.subrange(p0, p0 + count));
                lemma_pow16_step(count as nat);
                lemma_pow16_bound(count as nat);
            }
            val = val * 16 + digit;
            count = count + 1;
            if count > 6 {
                return Err(str_to_chars("hex escape too long"));
            }
        }
        Ok(val)
    }

    /// Reads a number literal (decimal, `0x` hex or `0b` binary) at the current position.
    fn read_number(&mut self) -> (r: Result<Token, Vec<char>>)
        requires
            old(self).wf(),
            old(self).pos < old(self).src@.len(),
            spec_is_digit(old(self).src@[old(self).pos as int]) || old(self).src@[old(
                self,
            ).pos as int] == 0x2E,
        ensures
            r matches Ok(t) ==> t is Number,
            final(self).wf(),
            final(self).src == old(self).src,
            final(self).pos > old(self).pos,
            spec_int_literal(old(self).src@, old(self).pos as int) matches Some((v, e)) ==> (v
                < 0x20_0000_0000_0000 ==> (r matches Ok(Token::Number(x)) && spec_is_int_value(x, v)
                && final(self).pos == e)),
            hex_literal_at(old(self).src@, old(self).pos as int) && spec_hex_seq_val(
                old(self).src@.subrange(
                    old(self).pos + 2,
                    hex_end(old(self).src@, old(self).pos + 2),
                ),
            ) < 0x20_0000_0000_0000 ==> (r matches Ok(Token::Number(x)) && spec_is_int_value(
                x,
                spec_hex_seq_val(
                    old(self).src@.subrange(
                        old(self).pos + 2,
                        hex_end(old(self).src@, old(self).pos + 2),
                    ),
                ),
            ) && final(self).pos == hex_end(old(self).src@, old(self).pos + 2)),
    {
        let start = self.pos;
        let p1 = self.peek_at(1);
        if self.peek() == Some(B_ZERO) && (p1 == Some(B_LOWER_X) || p1 == Some(B_UPPER_X)) {
            self.advance();
            self.advance();
            let mut val: u64 = 0;
            let mut ok = true;
            let mut ndigits: usize = 0;
            let ghost src = self.src@;
            let ghost a = start + 2;
            let ghost e = hex_end(src, a);
            let ghost small = hex_literal_at(src, start as int) && spec_hex_seq_val(src.subrange(a, e))
                < 0x20_0000_0000_0000;
            proof {
                assert(src.subrange(a, a) =~= Seq::<u8>::empty());
                if small {
                    lemma_hex_end_bounds(src, a);
                    assert(self.pos == a);
                    assert(spec_hex_seq_val(src.subrange(a, a)) == 0);
                }
            }
            while self.pos < self.src.len() && is_hex(self.src[self.pos])
                invariant
                    self.wf(),
                    self.src == old(self).src,
                    self.pos > old(self).pos,
                    ndigits <= self.pos,
                    src == self.src@,
                    a == old(self).pos + 2,
                    e == hex_end(src, a),
                    small == (hex_literal_at(src, old(self).pos as int) && spec_hex_seq_val(src.subrange(a, e))
                        < 0x20_0000_0000_0000),
                    small ==> a <= self.pos <= e && ndigits == self.pos - a && hex_end(src, self.pos as int) == e
                        && ok && val == spec_hex_seq_val(src.subrange(a, self.pos as int)) && (forall|k: int|
                        a <= k < self.pos ==> spec_is_hex(#[trigger] src[k])),
                decreases self.src@.len() - self.pos,
            {
                let d = hex_val(self.src[self.pos]) as u64;
                proof {
                    if small {
                        let q = self.pos as int;
                        lemma_hex_end_step(src, q);
                        assert(q < e);
                        lemma_hex_end_bounds(src, a);
                        lemma_hex_val_grows(src, a, q + 1, e);
                        assert(src.subrange(a, q + 1).drop_last() =~= src.subrange(a, q));
                        assert(src.subrange(a, q + 1).last() == src[q]);
                        assert(spec_hex_seq_val(src.subrange(a, q + 1)) == val * 16 + d);
                    }
                }
                if ok {
                    match val.checked_mul(16) {
                        Some(v1) => match v1.checked_add(d) {
                            Some(v2) => {
                                val = v2;
                            },
                            None => {
                                ok = false;
                            },
                        },
                        None => {
                            ok = false;
                        },
                    }
                }
                ndigits = ndigits + 1;
                self.pos = self.pos + 1;
            }
            proof {
                if small {
                    if self.pos < e {
                        lemma_hex_end_bounds(src, self.pos as int);
                        assert(spec_is_hex(src[self.pos as int]));
                    }
                    assert(self.pos == e);
                    assert(ndigits > 0) by {
                        lemma_hex_end_step(src, a);
                    }
                }
            }
            if !ok || ndigits == 0 {
                return Err(str_to_chars("invalid hex literal"));
            }
            return Ok(Token::Number(Double::from_u64(val)));
        }
        if self.peek() == Some(B_ZERO) && (p1 == Some(B_LOWER_B) || p1 == Some(B_UPPER_B)) {
            self.advance();
            self.advance();
            let mut val: u64 = 0;
            let mut ok = true;
            let mut ndigits: usize = 0;
            while self.pos < self.src.len() && (self.src[self.pos] == B_ZERO || self.src[self.pos]
                == B_ONE)
                invariant
                    self.wf(),
                    self.src == old(self).src,
                    self.pos > old(self).pos,
                    ndigits <= self.pos,
                decreases self.src@.len() - self.pos,
            {
                let d = (self.src[self.pos] - B_ZERO) as u64;
                if ok {
                    match val.checked_mul(2) {
                        Some(v1) => match v1.checked_add(d) {
                            Some(v2) => {
                                val = v2;
                            },
                            None => {
                                ok = false;
                            },
                        },
                        None => {
                            ok = false;
                        },
                    }
                }
                ndigits = ndigits + 1;
                self.pos = self.pos + 1;
            }
            if !ok || ndigits == 0 {
                return Err(str_to_chars("invalid binary literal"));
            }
            return Ok(Token::Number(Double::from_u64(val)));
        }
        while self.pos < self.src.len() && is_digit(self.src[self.pos])
            invariant
                self.wf(),
                self.src == old(self).src,
                self.pos >= old(self).pos,
                start == old(self).pos,
                digits_end(self.src@, self.pos as int) == digits_end(self.src@, start as int),
                forall|k: int| start <= k < self.pos ==> spec_is_digit(#[trigger] self.src@[k]),
            decreases self.src@.len() - self.pos,
        {
            self.pos = self.pos + 1;
        }
        let ghost digits_stop = self.pos;
        let mut is_float = false;
        if self.peek() == Some(B_DOT) {
            match self.peek_at(1) {
                Some(c) => {
                    if is_digit(c) {
                        is_float = true;
                        self.advance();
                        while self.pos < self.src.len() && is_digit(self.src[self.pos])
                            invariant
                                self.wf(),
                                self.src == old(self).src,
                                self.pos > old(self).pos,
                            decreases self.src@.len() - self.pos,
                        {
                            self.pos = self.pos + 1;
                        }
                    }
                },
                None => {},
            }
        }
        let pe = self.peek();
        if pe == Some(B_LOWER_E) || pe == Some(B_UPPER_E) {
            is_float = true;
            self.advance();
            let ps = self.peek();
            if ps == Some(B_PLUS) || ps == Some(B_MINUS) {
                self.advance();
            }
            while self.pos < self.src.len() && is_digit(self.src[self.pos])
                invariant
                    self.wf(),
                    self.src == old(self).src,
                    self.pos > old(self).pos,
                decreases self.src@.len() - self.pos,
            {
                self.pos = self.pos + 1;
            }
        }
        if self.pos == start {
            // a lone '.' is never passed here; keep the position moving regardless
            self.advance();
            return Err(str_to_chars("invalid number"));
        }
        let mut text: Vec<char> = Vec::new();
        let mut i = start;
        while i < self.pos
            invariant
                start <= i <= self.pos <= self.src@.len(),
                text@ == bytes_to_chars(self.src@.subrange(start as int, i as int)),
            decreases self.pos - i,
        {
            proof {
                assert(self.src@.subrange(start as int, i + 1) =~= self.src@.subrange(
                    start as int,
                    i as int,
                ).push(self.src@[i as int]));
            }
            text.push(self.src[i] as char);
            i = i + 1;
            proof {
                assert(text@ =~= bytes_to_chars(self.src@.subrange(start as int, i as int)));
            }
        }
        let ghost lit = spec_int_literal(old(self).src@, start as int);
        let ghost lit_val: int = match lit {
            Some(p) => p.0,
            None => 0,
        };
        let ghost lit_end: int = match lit {
            Some(p) => p.1,
            None => 0,
        };
        proof {
            if lit is Some && !is_float {
                assert(self.pos == digits_stop);
                assert forall|k: int| 0 <= k < text@.len() implies '0' <= #[trigger] text@[k] <= '9' by {
                    assert(spec_is_digit(self.src@[start + k]));
                }
                lemma_digits_read_whole(text@);
                assert(text@ == bytes_to_chars(old(self).src@.subrange(start as int, lit_end)));
                assert(spec_dec_val(spec_int_body(text@)) == lit_val);
                lemma_dec_val_nonneg(text@);
            }
        }
        if is_float {
            let val = parse_float(&text)?;
            Ok(Token::Number(val))
        } else {
            match parse_int(&text) {
                Ok(v) => {
                    proof {
                        if lit is Some {
                            assert(v == lit_val);
                        }
                    }
                    Ok(Token::Number(Double::from_i64(v)))
                },
                Err(_) => {
                    proof {
                        if lit is Some {
                            assert(lit_val >= 0x20_0000_0000_0000);
                        }
                    }
                    let val = parse_float(&text)?;
                    Ok(Token::Number(val))
                },
            }
        }
    }

    /// Reads a regex literal `/pattern/flags` whose opening slash is at the current position.
    fn read_regex(&mut self) -> (r: Result<Token, Vec<char>>)
        requires
            old(self).wf(),
            old(self).pos < old(self).src@.len(),
        ensures
            r matches Ok(t) ==> t is Regex,
            final(self).wf(),
            final(self).src == old(self).src,
            final(self).pos > old(self).pos,
    {
        self.advance();
        let mut pattern: Vec<char> = Vec::new();
        let mut in_class = false;
        loop
            invariant
                self.wf(),
                self.src == old(self).src,
                self.pos > old(self).pos,
            decreases self.src@.len() - self.pos,
        {
            match self.advance() {
                None => {
                    return Err(str_to_chars("unterminated regex literal"));
                },
                Some(ch) => {
                    if ch == B_BACKSLASH {
                        pattern.push('\\');
                        if let Some(c) = self.advance() {
                            push_byte(&mut pattern, c);
                        }
                    } else if ch == B_LBRACKET {
                        in_class = true;
                        pattern.push('[');
                    } else if ch == B_RBRACKET {
                        in_class = false;
                        pattern.push(']');
                    } else if ch == B_SLASH && !in_class {
                        let mut flags: Vec<char> = Vec::new();
                        while self.pos < self.src.len() && is_alpha(self.src[self.pos])
                            invariant
                                self.wf(),
                                self.src == old(self).src,
                                self.pos > old(self).pos,
                            decreases self.src@.len() - self.pos,
                        {
                            push_byte(&mut flags, self.src[self.pos]);
                            self.pos = self.pos + 1;
                        }
                        return Ok(Token::Regex(pattern, flags));
                    } else {
                        push_byte(&mut pattern, ch);
                    }
                },
            }
        }
    }

    /// Reads an identifier or keyword at the current position.
    fn read_identifier(&mut self) -> (r: Token)
        requires
            old(self).wf(),
        ensures
            !(r is Eof),
            final(self).wf(),
            final(self).src == old(self).src,
            final(self).last_token_allows_regex == old(self).last_token_allows_regex,
            final(self).pos >= old(self).pos,
            old(self).pos < old(self).src@.len() && spec_ident_part(
                old(self).src@[old(self).pos as int],
            ) ==> final(self).pos > old(self).pos,
            final(self).pos == ident_end(old(self).src@, old(self).pos as int),
            spec_word_token(
                bytes_to_chars(old(self).src@.subrange(old(self).pos as int, final(self).pos as int)),
                r,
            ),
    {
        let mut word: Vec<char> = Vec::new();
        while self.pos < self.src.len() && (is_alnum(self.src[self.pos]) || self.src[self.pos]
            == B_UNDERSCORE || self.src[self.pos] == B_DOLLAR)
            invariant
                self.wf(),
                self.src == old(self).src,
                self.last_token_allows_regex == old(self).last_token_allows_regex,
                self.pos >= old(self).pos,
                ident_end(self.src@, self.pos as int) == ident_end(
                    self.src@,
                    old(self).pos as int,
                ),
                word@ == bytes_to_chars(self.src@.subrange(old(self).pos as int, self.pos as int)),
            decreases self.src@.len() - self.pos,
        {
            let ghost s = self.src@;
            let ghost p = self.pos as int;
            push_byte(&mut word, self.src[self.pos]);
            self.pos = self.pos + 1;
            assert(s.subrange(old(self).pos as int, p + 1) =~= s.subrange(old(self).pos as int, p).push(s[p]));
            assert(bytes_to_chars(s.subrange(old(self).pos as int, p + 1)) =~= bytes_to_chars(
                s.subrange(old(self).pos as int, p),
            ).push(s[p] as char));
        }
        keyword_or_ident(word)
    }

    /// Reads one token; `Eof` at the end of the input.
    pub fn next_token(&mut self) -> (r: Result<Token, Vec<char>>)
        requires
            old(self).wf(),
        ensures
            final(self).wf(),
            final(self).src == old(self).src,
            final(self).pos >= old(self).pos,
            r matches Ok(t) ==> (t is Eof ==> final(self).pos == final(self).src@.len()),
            r matches Ok(t) ==> (!(t is Eof) ==> final(self).pos > old(self).pos),
            token_start(*old(self)) >= old(self).src@.len() ==> r matches Ok(Token::Eof),
            r matches Ok(t) ==> (spec_punct_spelling(t).len() > 0 ==> old(self).src@.subrange(
                token_start(*old(self)),
                final(self).pos as int,
            ) =~= spec_punct_spelling(t)),
            r matches Ok(t) ==> (spec_punct_spelling(t).len() > 0 ==> forall|t2: Token|
                #[trigger] spec_punct_spelling(t2).len() > spec_punct_spelling(t).len()
                    ==> !spelled_at(old(self).src@, token_start(*old(self)), spec_punct_spelling(t2))),
            token_start(*old(self)) < old(self).src@.len() && !spec_starts_token(
                old(self).src@[token_start(*old(self))],
            ) ==> r is Err,
            token_start(*old(self)) < old(self).src@.len() && (old(self).src@[token_start(
                *old(self),
            )] == B_DQUOTE || old(self).src@[token_start(*old(self))] == B_SQUOTE) ==> (
            spec_plain_string(
                old(self).src@,
                token_start(*old(self)) + 1,
                old(self).src@[token_start(*old(self))],
            ) matches Some((v, e)) ==> (r matches Ok(Token::Str(x)) && x@ == v && final(self).pos
                == e)),
            r matches Ok(t) ==> spec_token_kind_fits(
                old(self).src@,
                token_start(*old(self)),
                old(self).last_token_allows_regex,
                t,
            ),
            token_start(*old(self)) < old(self).src@.len() && spec_ident_start(
                old(self).src@[token_start(*old(self))],
            ) ==> (r matches Ok(t) && final(self).pos == ident_end(
                old(self).src@,
                token_start(*old(self)),
            ) && spec_word_token(
                bytes_to_chars(
                    old(self).src@.subrange(token_start(*old(self)), final(self).pos as int),
                ),
                t,
            )),
            spec_int_literal(old(self).src@, token_start(*old(self))) matches Some((v, e)) ==> (v
                < 0x20_0000_0000_0000 ==> (r matches Ok(Token::Number(x)) && spec_is_int_value(x, v)
                && final(self).pos == e)),
            hex_literal_at(old(self).src@, token_start(*old(self))) && spec_hex_seq_val(
                old(self).src@.subrange(
                    token_start(*old(self)) + 2,
                    hex_end(old(self).src@, token_start(*old(self)) + 2),
                ),
            ) < 0x20_0000_0000_0000 ==> (r matches Ok(Token::Number(x)) && spec_is_int_value(
                x,
                spec_hex_seq_val(
                    old(self).src@.subrange(
                        token_start(*old(self)) + 2,
                        hex_end(old(self).src@, token_start(*old(self)) + 2),
                    ),
                ),
            ) && final(self).pos == hex_end(old(self).src@, token_start(*old(self)) + 2)),
            r matches Ok(t) ==> (!(t is Eof) ==> final(self).last_token_allows_regex == spec_allows_regex(t)),
            simple_punct(old(self).src@, token_start(*old(self))) matches Some(t) ==> r == Ok::<
                Token,
                Vec<char>,
            >(t) && final(self).pos == token_start(*old(self)) + 1,
            unterminated_at(old(self).src@, token_start(*old(self))) ==> (r matches Err(m) && m@
                == "unterminated string literal"@),
            token_start(*old(self)) < old(self).src@.len() && spec_operator_start(
                old(self).src@[token_start(*old(self))],
            ) ==> r is Ok,
            token_start(*old(self)) < old(self).src@.len() && old(self).src@[token_start(*old(self))]
                == B_SLASH ==> (if old(self).last_token_allows_regex {
                r matches Ok(t) ==> t is Regex
            } else {
                r matches Ok(t) && (t is Slash || t is SlashAssign)
            }),
        decreases old(self).src@.len() - old(self).pos, 2int,
    {
        self.skip_whitespace_and_comments();
        let ch = match self.peek() {
            None => {
                return Ok(Token::Eof);
            },
            Some(c) => c,
        };
        let ghost p0 = self.pos;
        let tok = if ch == B_DQUOTE || ch == B_SQUOTE {
            let s = self.read_string(ch)?;
            Token::Str(s)
        } else if ch == B_BACKTICK {
            self.read_template_literal()?
        } else if is_digit(ch) {
            self.read_number()?
        } else if ch == B_DOT {
            let c1 = self.peek_at(1);
            if c1.is_some() && is_digit(c1.unwrap()) {
                self.read_number()?
            } else if c1 == Some(B_DOT) && self.peek_at(2) == Some(B_DOT) {
                self.advance();
                self.advance();
                self.advance();
                Token::Spread
            } else {
                self.advance();
                Token::Dot
            }
        } else if ch == B_SLASH {
            if self.last_token_allows_regex {
                self.read_regex()?
            } else {
                self.advance();
                if self.peek() == Some(B_EQ) {
                    self.advance();
                    Token::SlashAssign
                } else {
                    Token::Slash
                }
            }
        } else if ch == B_PLUS {
            self.advance();
            if self.peek() == Some(B_PLUS) {
                self.advance();
                Token::PlusPlus
            } else if self.peek() == Some(B_EQ) {
                self.advance();
                Token::PlusAssign
            } else {
                Token::Plus
            }
        } else if ch == B_MINUS {
            self.advance();
            if self.peek() == Some(B_MINUS) {
                self.advance();
                Token::MinusMinus
            } else if self.peek() == Some(B_EQ) {
                self.advance();
                Token::MinusAssign
            } else {
                Token::Minus
            }
        } else if ch == B_STAR {
            self.advance();
            if self.peek() == Some(B_STAR) {
                self.advance();
                Token::DoubleStar
            } else if self.peek() == Some(B_EQ) {
                self.advance();
                Token::StarAssign
            } else {
                Token::Star
            }
        } else if ch == B_PERCENT {
            self.advance();
            if self.peek() == Some(B_EQ) {
                self.advance();
                Token::PercentAssign
            } else {
                Token::Percent
            }
        } else if ch == B_EQ {
            self.advance();
            if self.peek() == Some(B_EQ) {
                self.advance();
                if self.peek() == Some(B_EQ) {
                    self.advance();
                    Token::StrictEq
                } else {
                    Token::Eq
                }
            } else if self.peek() == Some(B_GT) {
                self.advance();
                Token::Arrow
            } else {
                Token::Assign
            }
        } else if ch == B_BANG {
            self.advance();
            if self.peek() == Some(B_EQ) {
                self.advance();
                if self.peek() == Some(B_EQ) {
                    self.advance();
                    Token::StrictNotEq
                } else {
                    Token::NotEq
                }
            } else {
                Token::Not
            }
        } else if ch == B_LT {
            self.advance();
            if self.peek() == Some(B_LT) {
                self.advance();
                if self.peek() == Some(B_EQ) {
                    self.advance();
                    Token::ShlAssign
                } else {
                    Token::Shl
                }
            } else if self.peek() == Some(B_EQ) {
                self.advance();
                Token::LtEq
            } else {
                Token::Lt
            }
        } else if ch == B_GT {
            self.advance();
            if self.peek() == Some(B_GT) {
                self.advance();
                if self.peek() == Some(B_GT) {
                    self.advance();
                    if self.peek() == Some(B_EQ) {
                        self.advance();
                        Token::UshrAssign
                    } else {
                        Token::Ushr
                    }
                } else if self.peek() == Some(B_EQ) {
                    self.advance();
                    Token::ShrAssign
                } else {
                    Token::Shr
                }
            } else if self.peek() == Some(B_EQ) {
                self.advance();
                Token::GtEq
            } else {
                Token::Gt
            }
        } else if ch == B_AMP {
            self.advance();
            if self.peek() == Some(B_AMP) {
                self.advance();
                Token::And
            } else if self.peek() == Some(B_EQ) {
                self.advance();
                Token::AmpAssign
            } else {
                Token::BitAnd
            }
        } else if ch == B_PIPE {
            self.advance();
            if self.peek() == Some(B_PIPE) {
                self.advance();
                Token::Or
            } else if self.peek() == Some(B_EQ) {
                self.advance();
                Token::PipeAssign
            } else {
                Token::BitOr
            }
        } else if ch == B_CARET {
            self.advance();
            if self.peek() == Some(B_EQ) {
                self.advance();
                Token::CaretAssign
            } else {
                Token::BitXor
            }
        } else if ch == B_TILDE {
            self.advance();
            Token::BitNot
        } else if ch == B_QUESTION {
            self.advance();
            if self.peek() == Some(B_QUESTION) {
                self.advance();
                Token::NullishCoalesce
            } else if self.peek() == Some(B_DOT) {
                self.advance();
                Token::OptionalChain
            } else {
                Token::Question
            }
        } else if ch == B_LPAREN {
            self.advance();
            Token::LParen
        } else if ch == B_RPAREN {
            self.advance();
            Token::RParen
        } else if ch == B_LBRACE {
            self.advance();
            Token::LBrace
        } else if ch == B_RBRACE {
            self.advance();
            Token::RBrace
        } else if ch == B_LBRACKET {
            self.advance();
            Token::LBracket
        } else if ch == B_RBRACKET {
            self.advance();
            Token::RBracket
        } else if ch == B_COMMA {
            self.advance();
            Token::Comma
        } else if ch == B_SEMI {
            self.advance();
            Token::Semicolon
        } else if ch == B_COLON {
            self.advance();
            Token::Colon
        } else if is_alpha(ch) || ch == B_UNDERSCORE || ch == B_DOLLAR {
            self.read_identifier()
        } else {
            self.advance();
            let mut msg = str_to_chars("unexpected character: ");
            let d = crate::debugfmt::debug_char(ch as char);
            push_all(&mut msg, d.as_slice());
            return Err(msg);
        };
        self.last_token_allows_regex = allows_regex(&tok);
        Ok(tok)
    }

    /// Reads all tokens up to and including `Eof`.
    pub fn tokenize_all(&mut self) -> (r: Result<Vec<Token>, Vec<char>>)
        requires
            old(self).wf(),
        ensures
            r matches Ok(toks) ==> toks@.len() > 0 && toks@.last() is Eof,
            r matches Ok(toks) ==> forall|i: int| 0 <= i < toks@.len() - 1 ==> !(#[trigger] toks@[i] is Eof),
            token_start(*old(self)) >= old(self).src@.len() ==> (r matches Ok(toks) && toks@.len() == 1),
            lex_views(old(self).src@, old(self).pos as int) matches Some(vs) ==> (r matches Ok(toks)
                && toks@.map_values(|t: Token| tok_view(t)) == vs),
            lex_error(old(self).src@, old(self).pos as int) matches Some(m) ==> (r matches Err(e) && e@
                == m),
    {
        let mut tokens: Vec<Token> = Vec::new();
        let ghost err = lex_error(self.src@, self.pos as int);
        let ghost src = self.src@;
        let ghost has = lex_views(src, self.pos as int) is Some;
        let ghost vs = lex_views(src, self.pos as int)->0;
        loop
            invariant
                self.wf(),
                forall|i: int| 0 <= i < tokens@.len() ==> !(#[trigger] tokens@[i] is Eof),
                token_start(*old(self)) >= old(self).src@.len() ==> tokens@.len() == 0 && self.src
                    == old(self).src && self.pos == old(self).pos,
                src == old(self).src@,
                has == (lex_views(src, old(self).pos as int) is Some),
                vs == lex_views(src, old(self).pos as int)->0,
                has ==> self.src@ == src && lex_views(src, self.pos as int) is Some && tokens@.map_values(
                    |t: Token| tok_view(t),
                ) + lex_views(src, self.pos as int)->0 == vs,
                err == lex_error(src, old(self).pos as int),
                err is Some ==> self.src@ == src && lex_error(src, self.pos as int) == err,
            decreases self.src@.len() - self.pos,
        {
            let ghost before = self.pos;
            let ghost q = token_start(*self);
            let tok = self.next_token()?;
            proof {
                if err is Some {
                    assert(q < src.len());
                    assert(!unterminated_at(src, q));
                    let pv = plain_token_view(src, q);
                    assert(pv is Some);
                    assert(tok_view(tok) == (pv->0).0);
                    assert(self.pos == (pv->0).1);
                }
            }
            proof {
                if has {
                    let lv = lex_views(src, before as int)->0;
                    if q < src.len() {
                        let pv = plain_token_view(src, q);
                        assert(pv is Some);
                        assert(tok_view(tok) == (pv->0).0);
                        assert(self.pos == (pv->0).1);
                        assert(lv == seq![(pv->0).0] + lex_views(src, self.pos as int)->0);
                    } else {
                        assert(lv == seq![(1int, Seq::<char>::empty())]);
                    }
                }
            }
            if matches!(tok, Token::Eof) {
                let ghost pre = tokens@;
                tokens.push(Token::Eof);
                proof {
                    if has {
                        assert(tokens@.map_values(|t: Token| tok_view(t)) =~= pre.map_values(
                            |t: Token| tok_view(t),
                        ) + lex_views(src, before as int)->0);
                    }
                }
                return Ok(tokens);
            }
            let ghost pre = tokens@;
            tokens.push(tok);
            proof {
                if has {
                    assert(tokens@.map_values(|t: Token| tok_view(t)) =~= pre.map_values(
                        |t: Token| tok_view(t),
                    ).push(tok_view(tok)));
                    assert(tokens@.map_values(|t: Token| tok_view(t)) + lex_views(src, self.pos as int)->0
                        =~= pre.map_values(|t: Token| tok_view(t)) + lex_views(src, before as int)->0);
                }
            }
        }
    }
}

pub open spec fn pow16(n: nat) -> nat
    decreases n,
{
    if n == 0 {
        1
    } else {
        16 * pow16((n - 1) as nat)
    }
}

proof fn lemma_pow16_step(k: nat)
    ensures
        pow16(k + 1) == 16 * pow16(k),
{
}

proof fn lemma_pow16_bound(k: nat)
    requires
        k <= 6,
    ensures
        pow16(k) <= 0x100_0000,
{
    reveal_with_fuel(pow16, 7);
    if k < 6 {
        assert(pow16(k) <= pow16(6)) by {
            lemma_pow16_mono(k, 6);
        }
    }
}

proof fn lemma_pow16_mono(a: nat, b: nat)
    requires
        a <= b,
    ensures
        pow16(a) <= pow16(b),
    decreases b,
{
    if a < b {
        lemma_pow16_mono(a, (b - 1) as nat);
    }
}

proof fn lemma_line_end_bounds(s: Seq<u8>, p: int)
    requires
        0 <= p,
    ensures
        p <= line_end(s, p),
        p <= s.len() ==> line_end(s, p) <= s.len(),
    decreases s.len() - p,
{
    if 0 <= p < s.len() && s[p] != 0x0A {
        lemma_line_end_bounds(s, p + 1);
    }
}

proof fn lemma_block_comment_end_bounds(s: Seq<u8>, p: int)
    requires
        0 <= p,
    ensures
        p <= block_comment_end(s, p),
        p <= s.len() ==> block_comment_end(s, p) <= s.len(),
    decreases s.len() - p,
{
    if 0 <= p && p + 1 < s.len() {
        if !(s[p] == 0x2A && s[p + 1] == 0x2F) {
            lemma_block_comment_end_bounds(s, p + 1);
        }
    }
}

proof fn lemma_skip_blanks_idem(s: Seq<u8>, p: int)
    requires
        0 <= p <= s.len(),
    ensures
        skip_blanks(s, skip_blanks(s, p)) == skip_blanks(s, p),
    decreases s.len() - p,
{
    if 0 <= p < s.len() && spec_is_blank(s[p]) {
        lemma_skip_blanks_idem(s, p + 1);
    }
}

proof fn lemma_skip_blanks_bounds(s: Seq<u8>, p: int)
    requires
        0 <= p <= s.len(),
    ensures
        p <= skip_blanks(s, p) <= s.len(),
    decreases s.len() - p,
{
    if 0 <= p < s.len() && spec_is_blank(s[p]) {
        lemma_skip_blanks_bounds(s, p + 1);
    }
}

/// `skip_blanks` stops at a byte that is not blank.
proof fn lemma_skip_blanks_stops(s: Seq<u8>, p: int)
    requires
        0 <= p <= s.len(),
    ensures
        skip_blanks(s, p) < s.len() ==> !spec_is_blank(s[skip_blanks(s, p)]),
    decreases s.len() - p,
{
    if 0 <= p < s.len() && spec_is_blank(s[p]) {
        lemma_skip_blanks_stops(s, p + 1);
    }
}

/// Skipping blank space and comments stops at the end, or at a byte that is neither
/// blank nor the start of a comment.
pub proof fn law_skip_stops_at_token(s: Seq<u8>, p: int)
    requires
        0 <= p <= s.len(),
    ensures
        p <= skip_ws_comments(s, p) <= s.len(),
        skip_ws_comments(s, p) < s.len() ==> ({
            let q = skip_ws_comments(s, p);
            !spec_is_blank(s[q]) && !(q + 1 < s.len() && s[q] == 0x2F && (s[q + 1] == 0x2F || s[q
                + 1] == 0x2A))
        }),
    decreases s.len() - p,
{
    lemma_skip_blanks_bounds(s, p);
    lemma_skip_blanks_stops(s, p);
    let q = skip_blanks(s, p);
    if q + 1 < s.len() && s[q] == 0x2F && s[q + 1] == 0x2F {
        lemma_line_end_bounds(s, q + 2);
        law_skip_stops_at_token(s, line_end(s, q + 2));
    } else if q + 1 < s.len() && s[q] == 0x2F && s[q + 1] == 0x2A {
        lemma_block_comment_end_bounds(s, q + 2);
        law_skip_stops_at_token(s, block_comment_end(s, q + 2));
    }
}

/// Decimal value of a sequence of digit characters.
pub open spec fn spec_dec_val(s: Seq<char>) -> int
    decreases s.len(),
{
    if s.len() == 0 {
        0
    } else {
        spec_dec_val(s.drop_last()) * 10 + (s.last() as u32 - 0x30)
    }
}

pub open spec fn spec_all_digits(s: Seq<char>) -> bool {
    forall|i: int| 0 <= i < s.len() ==> '0' <= #[trigger] s[i] <= '9'
}

/// The text that `parse_int` reads: trimmed, with an optional leading `-` removed.
pub open spec fn spec_int_body(s: Seq<char>) -> Seq<char> {
    let t = s.subrange(trim_start_index(s), s.len() as int);
    let u = t.subrange(0, trim_end_index(t));
    if u.len() > 0 && u[0] == '-' {
        u.drop_first()
    } else {
        u
    }
}

pub open spec fn spec_int_negative(s: Seq<char>) -> bool {
    let t = s.subrange(trim_start_index(s), s.len() as int);
    let u = t.subrange(0, trim_end_index(t));
    u.len() > 0 && u[0] == '-'
}

/// Parses a decimal integer: trimmed, optional `-`, then digits only; fails on any other
/// character and on a value above `i64::MAX`.
pub fn parse_int(s: &[char]) -> (r: Result<i64, Vec<char>>)
    ensures
        r is Ok <==> (spec_all_digits(spec_int_body(s@)) && spec_dec_val(spec_int_body(s@))
            <= i64::MAX),
        r matches Ok(v) ==> v == (if spec_int_negative(s@) {
            -spec_dec_val(spec_int_body(s@))
        } else {
            spec_dec_val(spec_int_body(s@))
        }),
{
    let t = trim(s);
    let neg = t.len() > 0 && t[0] == '-';
    let body = if neg {
        proof {
            assert(t@.subrange(1, t@.len() as int) =~= t@.drop_first());
        }
        slice_range(t.as_slice(), 1, t.len())
    } else {
        proof {
            assert(t@.subrange(0, t@.len() as int) =~= t@);
        }
        slice_range(t.as_slice(), 0, t.len())
    };
    assert(body@ == spec_int_body(s@));
    assert(neg == spec_int_negative(s@));
    let mut val: i64 = 0;
    let mut i: usize = 0;
    while i < body.len()
        invariant
            0 <= i <= body@.len(),
            spec_all_digits(body@.subrange(0, i as int)),
            body@ == spec_int_body(s@),
            val == spec_dec_val(body@.subrange(0, i as int)),
            0 <= val,
        decreases body.len() - i,
    {
        let c = body[i];
        proof {
            assert(body@.subrange(0, i + 1).drop_last() =~= body@.subrange(0, i as int));
        }
        if c < '0' || c > '9' {
            proof {
                assert(!spec_all_digits(body@)) by {
                    assert(!('0' <= body@[i as int] <= '9'));
                }
            }
            return Err(str_to_chars("invalid integer"));
        }
        let d = ((c as u32) - 0x30) as i64;
        if val > (i64::MAX - d) / 10 {
            assert(val * 10 + d > i64::MAX) by (nonlinear_arith)
                requires
                    val > (i64::MAX - d) / 10,
                    0 <= d <= 9,
            ;
            proof {
                assert(spec_all_digits(body@.subrange(0, i + 1))) by {
                    assert forall|j: int| 0 <= j < i + 1 implies '0' <= #[trigger] body@.subrange(0, i + 1)[j] <= '9' by {
                        if j < i {
                            assert(body@.subrange(0, i + 1)[j] == body@.subrange(0, i as int)[j]);
                        }
                    }
                }
                assert(spec_dec_val(body@.subrange(0, i + 1)) == val * 10 + d);
                lemma_dec_val_prefix_mono(body@, (i + 1) as int);
            }
            return Err(str_to_chars("integer overflow"));
        }
        assert(val * 10 + d <= i64::MAX) by (nonlinear_arith)
            requires
                val <= (i64::MAX - d) / 10,
                0 <= d <= 9,
                0 <= val,
        ;
        val = val * 10 + d;
        i = i + 1;
    }
    proof {
        assert(body@.subrange(0, body@.len() as int) =~= body@);
    }
    if neg {
        Ok(-val)
    } else {
        Ok(val)
    }
}

proof fn lemma_dec_val_nonneg(s: Seq<char>)
    requires
        spec_all_digits(s),
    ensures
        spec_dec_val(s) >= 0,
    decreases s.len(),
{
    if s.len() > 0 {
        assert(spec_all_digits(s.drop_last())) by {
            assert forall|i: int| 0 <= i < s.drop_last().len() implies '0' <= #[trigger] s.drop_last()[i] <= '9' by {
                assert(s.drop_last()[i] == s[i]);
            }
        }
        lemma_dec_val_nonneg(s.drop_last());
    }
}

/// Extending a digit string never lowers its value.
proof fn lemma_dec_val_prefix_mono(s: Seq<char>, i: int)
    requires
        0 <= i <= s.len(),
    ensures
        spec_all_digits(s) ==> spec_dec_val(s.subrange(0, i)) <= spec_dec_val(s),
    decreases s.len() - i,
{
    if spec_all_digits(s) {
        if i < s.len() {
            lemma_dec_val_prefix_mono(s, i + 1);
            assert(s.subrange(0, i + 1).drop_last() =~= s.subrange(0, i));
            assert(spec_all_digits(s.subrange(0, i))) by {
                assert forall|j: int| 0 <= j < s.subrange(0, i).len() implies '0' <= #[trigger] s.subrange(0, i)[j] <= '9' by {
                    assert(s.subrange(0, i)[j] == s[j]);
                }
            }
            lemma_dec_val_nonneg(s.subrange(0, i));
            assert('0' <= s[i] <= '9');
        } else {
            assert(s.subrange(0, i) =~= s);
        }
    }
}

} // verus!
