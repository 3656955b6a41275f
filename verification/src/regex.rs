//! A small backtracking matcher for regular-expression literals: literals, `.`,
//! `\d \D \w \W \s \S`, character classes, groups (matched as a whole), the
//! quantifiers `* + ?` and the anchors `^ $`. It works on UTF-8 bytes.
use vstd::prelude::*;
use vstd::utf8::{encode_utf8, valid_utf8, decode_utf8};
use crate::builtins::utf8_bytes;
use crate::text::{slice_range, str_to_chars};

verus! {

/// One element of a pattern.
pub enum PatElement {
    Literal(u8),
    Dot,
    Digit,
    NonDigit,
    Word,
    NonWord,
    Space,
    NonSpace,
    /// Inclusive byte ranges, and whether the class is negated.
    CharClass(Vec<(u8, u8)>, bool),
    Group(Vec<u8>),
}

pub open spec fn spec_is_digit(b: u8) -> bool {
    0x30 <= b <= 0x39
}

pub open spec fn spec_is_word(b: u8) -> bool {
    (0x30 <= b <= 0x39) || (0x41 <= b <= 0x5A) || (0x61 <= b <= 0x7A) || b == 0x5F
}

pub open spec fn spec_is_space(b: u8) -> bool {
    b == 0x20 || b == 0x09 || b == 0x0A || b == 0x0D
}

pub open spec fn spec_in_ranges(ranges: Seq<(u8, u8)>, b: u8) -> bool {
    exists|i: int| 0 <= i < ranges.len() && ranges[i].0 <= b && b <= ranges[i].1
}

/// A byte that stands for itself in a pattern: none of `. \\ [ ( | * + ?`.
pub open spec fn spec_plain_byte(b: u8) -> bool {
    b != 0x2E && b != 0x5C && b != 0x5B && b != 0x28 && b != 0x7C && b != 0x2A && b != 0x2B && b
        != 0x3F
}

/// From `pp` on, the pattern is made of bytes that stand for themselves.
pub open spec fn plain_from(pat: Seq<u8>, pp: int) -> bool {
    0 <= pp <= pat.len() && forall|k: int| pp <= k < pat.len() ==> spec_plain_byte(#[trigger] pat[k])
}

/// Where the rest of the pattern is plain text, it matches at `tp` exactly where the text
/// goes on with those bytes, and the match ends after them.
pub open spec fn plain_match(text: Seq<u8>, tp: int, pat: Seq<u8>, pp: int) -> Option<usize> {
    let k = pat.len() - pp;
    if tp + k <= text.len() && text.subrange(tp, tp + k) == pat.subrange(pp, pat.len() as int) {
        Some((tp + k) as usize)
    } else {
        None
    }
}

/// Whether byte `ch` matches the element (a group matches any byte).
pub open spec fn spec_matches_element(ch: u8, elem: PatElement) -> bool {
    match elem {
        PatElement::Literal(e) => ch == e,
        PatElement::Dot => ch != 0x0A,
        PatElement::Digit => spec_is_digit(ch),
        PatElement::NonDigit => !spec_is_digit(ch),
        PatElement::Word => spec_is_word(ch),
        PatElement::NonWord => !spec_is_word(ch),
        PatElement::Space => spec_is_space(ch),
        PatElement::NonSpace => !spec_is_space(ch),
        PatElement::CharClass(ranges, negated) => spec_in_ranges(ranges@, ch) != negated,
        PatElement::Group(_) => true,
    }
}

pub fn matches_element(ch: u8, elem: &PatElement) -> (r: bool)
    ensures
        r == spec_matches_element(ch, *elem),
{
    match elem {
        PatElement::Literal(expected) => ch == *expected,
        PatElement::Dot => ch != 0x0A,
        PatElement::Digit => 0x30 <= ch && ch <= 0x39,
        PatElement::NonDigit => !(0x30 <= ch && ch <= 0x39),
        PatElement::Word => (0x30 <= ch && ch <= 0x39) || (0x41 <= ch && ch <= 0x5A) || (0x61 <= ch
            && ch <= 0x7A) || ch == 0x5F,
        PatElement::NonWord => !((0x30 <= ch && ch <= 0x39) || (0x41 <= ch && ch <= 0x5A) || (0x61
            <= ch && ch <= 0x7A) || ch == 0x5F),
        PatElement::Space => ch == 0x20 || ch == 0x09 || ch == 0x0A || ch == 0x0D,
        PatElement::NonSpace => !(ch == 0x20 || ch == 0x09 || ch == 0x0A || ch == 0x0D),
        PatElement::CharClass(ranges, negated) => {
            let mut in_class = false;
            let mut i: usize = 0;
            while i < ranges.len()
                invariant
                    0 <= i <= ranges@.len(),
                    in_class == exists|j: int|
                        0 <= j < i && ranges@[j].0 <= ch && ch <= ranges@[j].1,
                decreases ranges.len() - i,
            {
                if ranges[i].0 <= ch && ch <= ranges[i].1 {
                    in_class = true;
                }
                i = i + 1;
            }
            if *negated {
                !in_class
            } else {
                in_class
            }
        },
        PatElement::Group(_) => true,
    }
}

/// Reads the pattern element at `pp`: `None` only at the end of the pattern; otherwise
/// the element and the position after it, which is past `pp` and within the pattern.
pub fn parse_pattern_element(pat: &[u8], pp: usize) -> (r: Option<(PatElement, usize)>)
    ensures
        r is None <==> pp >= pat@.len(),
        r matches Some((e, next)) ==> pp < next <= pat@.len(),
        r matches Some((e, next)) ==> (pat@[pp as int] == 0x2E ==> e is Dot),
        pp < pat@.len() && spec_plain_byte(pat@[pp as int]) ==> r == Some((PatElement::Literal(pat@[pp as int]), (pp + 1) as usize)),
{
    if pp >= pat.len() {
        return None;
    }
    let c = pat[pp];
    if c == 0x2E {
        Some((PatElement::Dot, pp + 1))
    } else if c == 0x5C {
        if pp + 1 >= pat.len() {
            return Some((PatElement::Literal(0x5C), pp + 1));
        }
        let e = match pat[pp + 1] {
            0x64 => PatElement::Digit,
            0x44 => PatElement::NonDigit,
            0x77 => PatElement::Word,
            0x57 => PatElement::NonWord,
            0x73 => PatElement::Space,
            0x53 => PatElement::NonSpace,
            ch => PatElement::Literal(ch),
        };
        Some((e, pp + 2))
    } else if c == 0x5B {
        let negated = pp + 1 < pat.len() && pat[pp + 1] == 0x5E;
        let start = if negated {
            pp + 2
        } else {
            pp + 1
        };
        let mut ranges: Vec<(u8, u8)> = Vec::new();
        let mut i = start;
        while i < pat.len() && pat[i] != 0x5D
            invariant
                pp < start <= i <= pat@.len(),
            decreases pat.len() - i,
        {
            if pat.len() - i > 2 && pat[i + 1] == 0x2D && pat[i + 2] != 0x5D {
                ranges.push((pat[i], pat[i + 2]));
                i = i + 3;
            } else if pat[i] == 0x5C && pat.len() - i > 1 {
                ranges.push((pat[i + 1], pat[i + 1]));
                i = i + 2;
            } else {
                ranges.push((pat[i], pat[i]));
                i = i + 1;
            }
        }
        let end = if i < pat.len() {
            i + 1
        } else {
            i
        };
        Some((PatElement::CharClass(ranges, negated), end))
    } else if c == 0x28 {
        let mut depth: usize = 1;
        let mut i = pp + 1;
        let mut closed = false;
        while i < pat.len()
            invariant_except_break
                !closed,
                1 <= depth,
                i < pat@.len() + 1,
            invariant
                pp < i <= pat@.len(),
                depth <= i - pp,
            ensures
                closed ==> i < pat@.len(),
            decreases pat.len() - i,
        {
            let b = pat[i];
            if b == 0x28 {
                depth = depth + 1;
            } else if b == 0x29 {
                depth = depth - 1;
                if depth == 0 {
                    closed = true;
                    break;
                }
            } else if b == 0x5C {
                i = i + 1;
                if i >= pat.len() {
                    break;
                }
            }
            i = i + 1;
        }
        if closed {
            let inner = slice_range(pat, pp + 1, i);
            Some((PatElement::Group(inner), i + 1))
        } else {
            Some((PatElement::Literal(0x28), pp + 1))
        }
    } else if c == 0x7C {
        Some((PatElement::Dot, pp + 1))
    } else {
        Some((PatElement::Literal(c), pp + 1))
    }
}

/// Matches `pat[pp..]` against `text` from `tp`, backtracking over quantifiers
/// (greedy, at most 10000 repetitions); gives the end of the match.
pub fn regex_match_inner(text: &[u8], tp: usize, pat: &[u8], pp: usize) -> (r: Option<usize>)
    requires
        tp <= text@.len(),
    ensures
        r matches Some(e) ==> tp <= e <= text@.len(),
        pp >= pat@.len() ==> r == Some(tp),
        plain_from(pat@, pp as int) ==> r == plain_match(text@, tp as int, pat@, pp as int),
    decreases pat@.len() - pp,
{
    if pp >= pat.len() {
        proof {
            if plain_from(pat@, pp as int) {
                assert(text@.subrange(tp as int, tp as int) =~= pat@.subrange(pp as int, pat@.len() as int));
            }
        }
        return Some(tp);
    }
    let (matcher, next_pp) = match parse_pattern_element(pat, pp) {
        Some(x) => x,
        None => {
            return None;
        },
    };
    let mut quant: Option<(usize, usize, usize)> = None;
    if next_pp < pat.len() {
        let q = pat[next_pp];
        if q == 0x2A {
            quant = Some((0, 10000, next_pp + 1));
        } else if q == 0x2B {
            quant = Some((1, 10000, next_pp + 1));
        } else if q == 0x3F {
            quant = Some((0, 1, next_pp + 1));
        }
    }
    proof {
        if quant is Some && plain_from(pat@, pp as int) {
            assert(spec_plain_byte(pat@[next_pp as int]));
        }
    }
    match quant {
        Some((min, max, after_quant)) => {
            let mut cur = tp;
            let mut count: usize = 0;
            let mut positions: Vec<usize> = Vec::new();
            positions.push(cur);
            while count < max && cur < text.len() && matches_element(text[cur], &matcher)
                invariant
                    tp <= cur <= text@.len(),
                    cur == tp + count,
                    count <= max,
                    positions@.len() == count + 1,
                    forall|j: int|
                        0 <= j < positions@.len() ==> tp <= #[trigger] positions@[j] <= cur,
                decreases text@.len() - cur,
            {
                cur = cur + 1;
                count = count + 1;
                positions.push(cur);
            }
            while positions.len() > min
                invariant
                    forall|j: int|
                        0 <= j < positions@.len() ==> tp <= #[trigger] positions@[j] <= cur,
                    tp <= cur <= text@.len(),
                    pp < after_quant <= pat@.len(),
                    !plain_from(pat@, pp as int),
                decreases positions@.len(),
            {
                let try_pos = match positions.pop() {
                    Some(p) => p,
                    None => cur,
                };
                if let Some(result) = regex_match_inner(text, try_pos, pat, after_quant) {
                    return Some(result);
                }
            }
            if count >= min {
                let last = if positions.len() > 0 {
                    positions[positions.len() - 1]
                } else {
                    cur
                };
                if let Some(result) = regex_match_inner(text, last, pat, after_quant) {
                    return Some(result);
                }
            }
            None
        },
        None => {
            if tp < text.len() && matches_element(text[tp], &matcher) {
                let res = regex_match_inner(text, tp + 1, pat, next_pp);
                proof {
                    if plain_from(pat@, pp as int) {
                        lemma_plain_step(text@, tp as int, pat@, pp as int);
                    }
                }
                res
            } else if matches!(matcher, PatElement::Group(_)) {
                regex_match_inner(text, tp, pat, next_pp)
            } else {
                proof {
                    if plain_from(pat@, pp as int) {
                        let k = pat@.len() - pp;
                        if tp + k <= text@.len() {
                            assert(text@.subrange(tp as int, tp + k)[0] == text@[tp as int]);
                            assert(pat@.subrange(pp as int, pat@.len() as int)[0] == pat@[pp as int]);
                        }
                    }
                }
                None
            }
        },
    }
}

/// One step of a plain match: the first bytes agree and the rest matches on.
proof fn lemma_plain_step(text: Seq<u8>, tp: int, pat: Seq<u8>, pp: int)
    requires
        0 <= tp < text.len(),
        0 <= pp < pat.len(),
        text[tp] == pat[pp],
    ensures
        plain_match(text, tp, pat, pp) == plain_match(text, tp + 1, pat, pp + 1),
{
    let k = pat.len() - pp;
    if tp + k <= text.len() {
        if text.subrange(tp, tp + k) == pat.subrange(pp, pat.len() as int) {
            assert(text.subrange(tp + 1, tp + k) =~= text.subrange(tp, tp + k).drop_first());
            assert(pat.subrange(pp + 1, pat.len() as int) =~= pat.subrange(pp, pat.len() as int).drop_first());
        }
        if text.subrange(tp + 1, tp + k) == pat.subrange(pp + 1, pat.len() as int) {
            assert(text.subrange(tp, tp + k) =~= pat.subrange(pp, pat.len() as int)) by {
                assert forall|i: int| 0 <= i < k implies text.subrange(tp, tp + k)[i] == pat.subrange(
                    pp,
                    pat.len() as int,
                )[i] by {
                    if i > 0 {
                        assert(text.subrange(tp + 1, tp + k)[i - 1] == pat.subrange(pp + 1, pat.len() as int)[i - 1]);
                    }
                }
            }
        }
    }
}

/// Matches `pattern` against `text` from byte position `text_pos`.
pub fn regex_match_at(text: &[u8], text_pos: usize, pattern: &[u8]) -> (r: Option<usize>)
    requires
        text_pos <= text@.len(),
    ensures
        r matches Some(e) ==> text_pos <= e <= text@.len(),
        plain_from(pattern@, 0) ==> r == plain_match(text@, text_pos as int, pattern@, 0),
{
    regex_match_inner(text, text_pos, pattern, 0)
}

/// The text of the bytes `b[from..to]`, when they are whole UTF-8 characters.
fn text_of(b: &[u8], from: usize, to: usize) -> (r: Option<Vec<char>>)
    requires
        from <= to <= b@.len(),
    ensures
        r matches Some(cs) ==> encode_utf8(cs@) == b@.subrange(from as int, to as int),
        r is Some <==> valid_utf8(b@.subrange(from as int, to as int)),
{
    let piece = slice_range(b, from, to);
    match crate::builtins::string_from_utf8(piece) {
        Some(s) => {
            proof {
                vstd::utf8::decode_utf8_encode_utf8(b@.subrange(from as int, to as int));
            }
            Some(str_to_chars(s.as_str()))
        },
        None => None,
    }
}

/// A pattern of bytes that all stand for themselves, with no anchor: no `^` first and no
/// `$` last.
pub open spec fn plain_pattern(pat: Seq<u8>) -> bool {
    plain_from(pat, 0) && !(pat.len() > 0 && pat[0] == 0x5E) && !(pat.len() > 0 && pat.last()
        == 0x24)
}

/// `pat` occurs in `text` as a run of bytes.
pub open spec fn bytes_occur(text: Seq<u8>, pat: Seq<u8>) -> bool {
    exists|i: int| 0 <= i && i + pat.len() <= text.len() && #[trigger] text.subrange(i, i + pat.len()) == pat
}

/// The leftmost match of `pattern` in `text` (a `^` anchors it at the start, a final `$`
/// not preceded by a backslash at the end). The match is a piece of `text`; a match that
/// would cut a character in two counts as no match.
pub fn simple_regex_match(text: &Vec<char>, pattern: &Vec<char>) -> (r: Option<Vec<char>>)
    ensures
        r matches Some(m) ==> exists|i: int, j: int|
            0 <= i <= j <= encode_utf8(text@).len() && encode_utf8(m@) == encode_utf8(
                text@,
            ).subrange(i, j),
        pattern@.len() == 0 ==> (r matches Some(m) && m@.len() == 0),
        plain_pattern(encode_utf8(pattern@)) ==> ((r is Some <==> bytes_occur(
            encode_utf8(text@),
            encode_utf8(pattern@),
        )) && (r matches Some(m) ==> m@ == pattern@)),
{
    let tb = utf8_bytes(text);
    let pb = utf8_bytes(pattern);
    let anchored_start = pb.len() > 0 && pb[0] == 0x5E;
    let p1 = if anchored_start {
        slice_range(pb.as_slice(), 1, pb.len())
    } else {
        slice_range(pb.as_slice(), 0, pb.len())
    };
    let n1 = p1.len();
    let ends_dollar = n1 > 0 && p1[n1 - 1] == 0x24;
    let escaped_dollar = n1 > 1 && p1[n1 - 2] == 0x5C && p1[n1 - 1] == 0x24;
    let anchored_end = ends_dollar && !escaped_dollar;
    let p = if anchored_end {
        slice_range(p1.as_slice(), 0, n1 - 1)
    } else {
        p1
    };
    let n = tb.len();
    proof {
        if plain_pattern(pb@) {
            assert(p1@ =~= pb@);
            assert(!anchored_end);
            assert(p@ == pb@);
        }
    }
    if anchored_start {
        match regex_match_at(tb.as_slice(), 0, p.as_slice()) {
            Some(end) => {
                if anchored_end && end != n {
                    return None;
                }
                return text_of(tb.as_slice(), 0, end);
            },
            None => {
                return None;
            },
        }
    }
    proof {
        if pattern@.len() == 0 {
            assert(p@.len() == 0);
            assert(plain_from(p@, 0));
        }
    }
    let mut start: usize = 0;
    while start <= n
        invariant
            start <= n,
            n == tb@.len(),
            tb@ == encode_utf8(text@),
            pattern@.len() == 0 ==> start == 0 && p@.len() == 0 && !anchored_end && plain_from(p@, 0),
            pb@ == encode_utf8(pattern@),
            plain_pattern(pb@) ==> p@ == pb@ && !anchored_end && forall|s: int|
                0 <= s < start ==> #[trigger] plain_match(tb@, s, p@, 0) is None,
        ensures
            pattern@.len() > 0,
            plain_pattern(pb@) ==> forall|s: int|
                0 <= s <= n ==> #[trigger] plain_match(tb@, s, p@, 0) is None,
        decreases n + 1 - start,
    {
        proof {
            if pattern@.len() == 0 {
                assert(tb@.subrange(0, 0) =~= p@.subrange(0, 0));
                assert(plain_match(tb@, 0, p@, 0) == Some(0usize));
            }
        }
        if let Some(end) = regex_match_at(tb.as_slice(), start, p.as_slice()) {
            if !(anchored_end && end != n) {
                proof {
                    if pattern@.len() == 0 {
                        assert(tb@.subrange(0, 0) =~= p@.subrange(0, 0));
                        assert(end == 0);
                        assert(tb@.subrange(start as int, end as int) =~= Seq::<u8>::empty());
                    }
                }
                let m = text_of(tb.as_slice(), start, end);
                proof {
                    if plain_pattern(pb@) {
                        assert(tb@.subrange(start as int, end as int) == pb@);
                        vstd::utf8::encode_utf8_decode_utf8(pattern@);
                        vstd::utf8::encode_utf8_valid_utf8(pattern@);
                        if m is Some {
                            vstd::utf8::encode_utf8_decode_utf8(m->0@);
                        }
                        assert(bytes_occur(tb@, pb@)) by {
                            assert(tb@.subrange(start as int, start + pb@.len()) == pb@);
                        }
                    }
                    if pattern@.len() == 0 {
                        if m is Some && m->0@.len() > 0 {
                            let cs = m->0@;
                            assert(encode_utf8(cs).len() > 0) by {
                                vstd::utf8::encode_utf8_first_scalar(cs);
                            }
                        }
                    }
                }
                return m;
            }
        }
        if start == n {
            break;
        }
        start = start + 1;
    }
    proof {
        if plain_pattern(pb@) {
            if bytes_occur(tb@, pb@) {
                let i = choose|i: int| 0 <= i && i + pb@.len() <= tb@.len() && #[trigger] tb@.subrange(
                    i,
                    i + pb@.len(),
                ) == pb@;
                assert(plain_match(tb@, i, p@, 0) is Some);
            }
        }
    }
    None
}

} // verus!
