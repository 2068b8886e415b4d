//! Tokenizer: source bytes to lexemes, with maximal munch.
use vstd::prelude::*;
use vstd::string::StringExecFns;
use vstd::string::StringSliceAdditionalSpecFns;
use super::token::{Lexeme, LexemeV, Tok, TokV, lexemes_view};
use super::text::{bytes_as_chars, latin1_text, quoted};

verus! {

/// Bytes that are white space when read as a (Latin-1) character: tab, line
/// feed, vertical tab, form feed, carriage return, space, U+0085, U+00A0.
pub open spec fn is_ws(c: u8) -> bool {
    (9 <= c && c <= 13) || c == 32 || c == 0x85 || c == 0xA0
}

pub open spec fn is_digit(c: u8) -> bool {
    48 <= c && c <= 57
}

pub open spec fn is_alpha(c: u8) -> bool {
    (65 <= c && c <= 90) || (97 <= c && c <= 122)
}

pub open spec fn is_ident_start(c: u8) -> bool {
    is_alpha(c) || c == 95
}

pub open spec fn is_ident_char(c: u8) -> bool {
    is_alpha(c) || is_digit(c) || c == 95
}

/// `e` or `E`.
pub open spec fn is_exp_marker(c: u8) -> bool {
    c == 101 || c == 69
}

/// `+` or `-`.
pub open spec fn is_sign(c: u8) -> bool {
    c == 43 || c == 45
}

/// End of the numeric literal scanned from `i`: digits and `.`, and `e`/`E`
/// each optionally followed by one sign.
pub open spec fn number_end(b: Seq<u8>, i: int) -> int
    decreases b.len() - i,
{
    if 0 <= i < b.len() {
        if is_digit(b[i]) || b[i] == 46 {
            number_end(b, i + 1)
        } else if is_exp_marker(b[i]) {
            if i + 1 < b.len() && is_sign(b[i + 1]) {
                number_end(b, i + 2)
            } else {
                number_end(b, i + 1)
            }
        } else {
            i
        }
    } else {
        i
    }
}

/// End of the identifier scanned from `i`.
pub open spec fn ident_end(b: Seq<u8>, i: int) -> int
    decreases b.len() - i,
{
    if 0 <= i < b.len() && is_ident_char(b[i]) {
        ident_end(b, i + 1)
    } else {
        i
    }
}

pub proof fn lemma_number_end(b: Seq<u8>, i: int)
    requires
        0 <= i <= b.len(),
    ensures
        i <= number_end(b, i) <= b.len(),
        i < b.len() && (is_digit(b[i]) || b[i] == 46) ==> number_end(b, i) > i,
    decreases b.len() - i,
{
    if i < b.len() {
        if is_digit(b[i]) || b[i] == 46 {
            lemma_number_end(b, i + 1);
        } else if is_exp_marker(b[i]) {
            if i + 1 < b.len() && is_sign(b[i + 1]) {
                lemma_number_end(b, i + 2);
            } else {
                lemma_number_end(b, i + 1);
            }
        }
    }
}

pub proof fn lemma_ident_end(b: Seq<u8>, i: int)
    requires
        0 <= i <= b.len(),
    ensures
        i <= ident_end(b, i) <= b.len(),
        i < b.len() && is_ident_char(b[i]) ==> ident_end(b, i) > i,
        forall|k: int| i <= k < ident_end(b, i) ==> is_ident_char(#[trigger] b[k]),
    decreases b.len() - i,
{
    if i < b.len() && is_ident_char(b[i]) {
        lemma_ident_end(b, i + 1);
    }
}

/// Rust's grammar of a decimal float without sign: `Digit+`, `Digit+ '.' Digit*`
/// or `Digit* '.' Digit+`.
pub open spec fn valid_mantissa(t: Seq<u8>) -> bool {
    &&& forall|k: int| 0 <= k < t.len() ==> is_digit(#[trigger] t[k]) || t[k] == 46
    &&& forall|j: int, k: int| 0 <= j < k < t.len() ==> !(#[trigger] t[j] == 46 && #[trigger] t[k] == 46)
    &&& exists|k: int| 0 <= k < t.len() && is_digit(#[trigger] t[k])
}

/// The part after `e`/`E`: an optional sign, then `Digit+`.
pub open spec fn valid_exponent(t: Seq<u8>) -> bool {
    if t.len() >= 1 && is_sign(t[0]) {
        t.len() >= 2 && forall|k: int| 1 <= k < t.len() ==> is_digit(#[trigger] t[k])
    } else {
        t.len() >= 1 && forall|k: int| 0 <= k < t.len() ==> is_digit(#[trigger] t[k])
    }
}

/// The unsigned decimal literals that `f64::from_str` accepts.
pub open spec fn valid_float_literal(s: Seq<u8>) -> bool {
    ||| valid_mantissa(s)
    ||| exists|m: int|
        0 <= m < s.len() && is_exp_marker(#[trigger] s[m]) && valid_mantissa(s.take(m))
            && valid_exponent(s.skip(m + 1))
}

pub open spec fn unexpected_char_msg(c: u8) -> Seq<char> {
    "unexpected char '"@ + seq![c as char] + "'"@
}

pub open spec fn bad_number_msg(s: Seq<u8>) -> Seq<char> {
    "bad number '"@ + bytes_as_chars(s) + "'"@
}

pub open spec fn cons_lex(x: LexemeV, r: Result<Seq<LexemeV>, Seq<char>>) -> Result<Seq<LexemeV>, Seq<char>> {
    match r {
        Ok(t) => Ok(seq![x] + t),
        Err(m) => Err(m),
    }
}

pub open spec fn prepend_lex(p: Seq<LexemeV>, r: Result<Seq<LexemeV>, Seq<char>>) -> Result<Seq<LexemeV>, Seq<char>> {
    match r {
        Ok(t) => Ok(p + t),
        Err(m) => Err(m),
    }
}

pub open spec fn single_char_tok(c: u8) -> Option<TokV> {
    if c == 43 {
        Some(TokV::Plus)
    } else if c == 45 {
        Some(TokV::Minus)
    } else if c == 47 {
        Some(TokV::Slash)
    } else if c == 40 {
        Some(TokV::LParen)
    } else if c == 41 {
        Some(TokV::RParen)
    } else if c == 44 {
        Some(TokV::Comma)
    } else {
        None
    }
}

/// The lexemes of `b` from position `i`, or the message of the first error.
pub open spec fn lex_from(b: Seq<u8>, i: int) -> Result<Seq<LexemeV>, Seq<char>>
    decreases b.len() - i,
{
    if 0 <= i < b.len() {
        let c = b[i];
        if is_ws(c) {
            lex_from(b, i + 1)
        } else if single_char_tok(c) is Some {
            cons_lex(LexemeV::Token(single_char_tok(c)->0), lex_from(b, i + 1))
        } else if c == 42 {
            if i + 1 < b.len() && b[i + 1] == 42 {
                cons_lex(LexemeV::Token(TokV::Pow), lex_from(b, i + 2))
            } else {
                cons_lex(LexemeV::Token(TokV::Star), lex_from(b, i + 1))
            }
        } else if is_digit(c) || c == 46 {
            proof {
                lemma_number_end(b, i);
            }
            let e = number_end(b, i);
            let s = b.subrange(i, e);
            if valid_float_literal(s) {
                cons_lex(LexemeV::Number(s), lex_from(b, e))
            } else {
                Err(bad_number_msg(s))
            }
        } else if is_ident_start(c) {
            proof {
                lemma_ident_end(b, i);
            }
            let e = ident_end(b, i);
            // identifier bytes are ASCII, so each byte is one character of the name
            cons_lex(LexemeV::Token(TokV::Ident(bytes_as_chars(b.subrange(i, e)))), lex_from(b, e))
        } else {
            Err(unexpected_char_msg(c))
        }
    } else {
        Ok(seq![])
    }
}

/// The tokenizer's result on a source string.
pub open spec fn lex(src: &str) -> Result<Seq<LexemeV>, Seq<char>> {
    lex_from(src.spec_bytes(), 0)
}


proof fn lemma_prepend_cons(p: Seq<LexemeV>, x: LexemeV, r: Result<Seq<LexemeV>, Seq<char>>)
    ensures
        prepend_lex(p, cons_lex(x, r)) == prepend_lex(p.push(x), r),
{
    if let Ok(t) = r {
        assert(p + (seq![x] + t) =~= p.push(x) + t);
    }
}

fn is_digit_byte(c: u8) -> (r: bool)
    ensures
        r == is_digit(c),
{
    48 <= c && c <= 57
}

/// End of the numeric literal that starts at `start`.
fn scan_number(b: &[u8], start: usize) -> (e: usize)
    requires
        start <= b@.len(),
    ensures
        e == number_end(b@, start as int),
{
    let mut i = start;
    while i < b.len()
        invariant
            start <= i <= b@.len(),
            number_end(b@, start as int) == number_end(b@, i as int),
        ensures
            number_end(b@, start as int) == i,
        decreases b@.len() - i,
    {
        let d = b[i];
        if is_digit_byte(d) || d == 46 {
            i = i + 1;
        } else if d == 101 || d == 69 {
            i = i + 1;
            if i < b.len() && (b[i] == 43 || b[i] == 45) {
                i = i + 1;
            }
        } else {
            break;
        }
    }
    i
}

/// End of the identifier that starts at `start`.
fn scan_ident(b: &[u8], start: usize) -> (e: usize)
    requires
        start <= b@.len(),
    ensures
        e == ident_end(b@, start as int),
{
    let mut i = start;
    while i < b.len()
        invariant
            start <= i <= b@.len(),
            ident_end(b@, start as int) == ident_end(b@, i as int),
        ensures
            ident_end(b@, start as int) == i,
        decreases b@.len() - i,
    {
        let d = b[i];
        if (65 <= d && d <= 90) || (97 <= d && d <= 122) || is_digit_byte(d) || d == 95 {
            i = i + 1;
        } else {
            break;
        }
    }
    i
}

/// A copy of `b[lo..hi]`.
fn copy_range(b: &[u8], lo: usize, hi: usize) -> (r: Vec<u8>)
    requires
        lo <= hi <= b@.len(),
    ensures
        r@ == b@.subrange(lo as int, hi as int),
{
    let mut r: Vec<u8> = Vec::new();
    let mut k = lo;
    while k < hi
        invariant
            lo <= k <= hi <= b@.len(),
            r@ == b@.subrange(lo as int, k as int),
        decreases hi - k,
    {
        r.push(b[k]);
        proof {
            assert(b@.subrange(lo as int, k + 1) =~= b@.subrange(lo as int, k as int).push(b@[k as int]));
        }
        k = k + 1;
    }
    r
}

/// Whether `t[..n]` is a valid mantissa.
fn mantissa_ok(t: &[u8], n: usize) -> (r: bool)
    requires
        n <= t@.len(),
    ensures
        r == valid_mantissa(t@.take(n as int)),
{
    let ghost s = t@.take(n as int);
    let mut k: usize = 0;
    let mut seen_dot = false;
    let mut seen_digit = false;
    while k < n
        invariant
            0 <= k <= n <= t@.len(),
            s == t@.take(n as int),
            forall|j: int| 0 <= j < k ==> is_digit(#[trigger] s[j]) || s[j] == 46,
            forall|i: int, j: int| 0 <= i < j < k ==> !(#[trigger] s[i] == 46 && #[trigger] s[j] == 46),
            seen_dot <==> exists|j: int| 0 <= j < k && #[trigger] s[j] == 46,
            seen_digit <==> exists|j: int| 0 <= j < k && is_digit(#[trigger] s[j]),
        decreases n - k,
    {
        let c = t[k];
        assert(s[k as int] == c);
        if is_digit_byte(c) {
            seen_digit = true;
        } else if c == 46 {
            if seen_dot {
                proof {
                    let j = choose|j: int| 0 <= j < k && #[trigger] s[j] == 46;
                    assert(s[j] == 46 && s[k as int] == 46);
                }
                return false;
            }
            seen_dot = true;
        } else {
            return false;
        }
        k = k + 1;
    }
    seen_digit
}

/// Whether `t[lo..]` is a valid exponent part.
fn exponent_ok(t: &[u8], lo: usize) -> (r: bool)
    requires
        lo <= t@.len(),
    ensures
        r == valid_exponent(t@.skip(lo as int)),
{
    let ghost s = t@.skip(lo as int);
    if lo >= t.len() {
        return false;
    }
    let mut k = lo;
    if t[lo] == 43 || t[lo] == 45 {
        k = lo + 1;
        if k >= t.len() {
            return false;
        }
    }
    let first = k;
    while k < t.len()
        invariant
            lo <= first <= k <= t@.len(),
            s == t@.skip(lo as int),
            first == lo || first == lo + 1,
            first == lo + 1 <==> is_sign(s[0]),
            forall|j: int| first - lo <= j < k - lo ==> is_digit(#[trigger] s[j]),
        decreases t@.len() - k,
    {
        if !is_digit_byte(t[k]) {
            assert(s[k - lo] == t@[k as int]);
            return false;
        }
        assert(s[k - lo] == t@[k as int]);
        k = k + 1;
    }
    true
}

/// Index of the first `e`/`E` in `t`, or `t.len()`.
fn first_exp_marker(t: &[u8]) -> (m: usize)
    ensures
        m <= t@.len(),
        forall|k: int| 0 <= k < m ==> !is_exp_marker(#[trigger] t@[k]),
        m < t@.len() ==> is_exp_marker(t@[m as int]),
{
    let mut k: usize = 0;
    while k < t.len()
        invariant
            k <= t@.len(),
            forall|j: int| 0 <= j < k ==> !is_exp_marker(#[trigger] t@[j]),
        decreases t@.len() - k,
    {
        if t[k] == 101 || t[k] == 69 {
            return k;
        }
        k = k + 1;
    }
    k
}

/// Whether `t` is a literal that `f64::from_str` accepts.
fn float_literal_ok(t: &[u8]) -> (r: bool)
    ensures
        r == valid_float_literal(t@),
{
    let m = first_exp_marker(t);
    if m == t.len() {
        let r = mantissa_ok(t, m);
        proof {
            assert(t@.take(m as int) =~= t@);
            if !r {
                assert forall|mm: int| 0 <= mm < t@.len() && is_exp_marker(#[trigger] t@[mm]) implies !(
                valid_mantissa(t@.take(mm)) && valid_exponent(t@.skip(mm + 1))) by {}
            }
        }
        r
    } else {
        let a = mantissa_ok(t, m);
        let b = exponent_ok(t, m + 1);
        proof {
            // no valid mantissa can contain the marker at m
            assert(!is_digit(t@[m as int]) && t@[m as int] != 46);
            assert(!valid_mantissa(t@));
            assert forall|mm: int| 0 <= mm < t@.len() && is_exp_marker(#[trigger] t@[mm]) && mm != m
                implies !valid_mantissa(t@.take(mm)) by {
                if mm > m {
                    assert(t@.take(mm)[m as int] == t@[m as int]);
                }
            }
        }
        a && b
    }
}

/// Tokenize `src`. A numeric literal is returned as its source text, checked
/// to be one that `f64::from_str` accepts.
pub fn tokenize(src: &str) -> (res: Result<Vec<Lexeme>, String>)
    ensures
        match (res, lex(src)) {
            (Ok(v), Ok(s)) => lexemes_view(v@) == s,
            (Err(m), Err(sm)) => m@ == sm,
            _ => false,
        },
{
    let b = src.as_bytes();
    let mut i: usize = 0;
    let mut out: Vec<Lexeme> = Vec::new();
    while i < b.len()
        invariant
            0 <= i <= b@.len(),
            b@ == src.spec_bytes(),
            lex(src) == prepend_lex(lexemes_view(out@), lex_from(b@, i as int)),
        decreases b@.len() - i,
    {
        let c = b[i];
        let ghost old_out = lexemes_view(out@);
        let ghost i0 = i as int;
        if (9 <= c && c <= 13) || c == 32 || c == 0x85 || c == 0xA0 {
            i = i + 1;
            continue;
        }
        let single = if c == 43 {
            Some(Tok::Plus)
        } else if c == 45 {
            Some(Tok::Minus)
        } else if c == 47 {
            Some(Tok::Slash)
        } else if c == 40 {
            Some(Tok::LParen)
        } else if c == 41 {
            Some(Tok::RParen)
        } else if c == 44 {
            Some(Tok::Comma)
        } else {
            None
        };
        assert(single_char_tok(c) == match single { Some(t) => Some(t@), None => None::<TokV> });
        match single {
            Some(t) => {
                out.push(Lexeme::Token(t));
                i = i + 1;
            },
            None => {
                if c == 42 {
                    if i + 1 < b.len() && b[i + 1] == 42 {
                        out.push(Lexeme::Token(Tok::Pow));
                        i = i + 2;
                    } else {
                        out.push(Lexeme::Token(Tok::Star));
                        i = i + 1;
                    }
                } else if is_digit_byte(c) || c == 46 {
                    proof {
                        lemma_number_end(b@, i as int);
                    }
                    let e = scan_number(b, i);
                    let lit = copy_range(b, i, e);
                    if !float_literal_ok(lit.as_slice()) {
                        return Err(quoted("bad number '", lit.as_slice(), "'"));
                    }
                    out.push(Lexeme::Number(lit));
                    i = e;
                } else if (65 <= c && c <= 90) || (97 <= c && c <= 122) || c == 95 {
                    proof {
                        lemma_ident_end(b@, i as int);
                    }
                    let e = scan_ident(b, i);
                    let name = copy_range(b, i, e);
                    out.push(Lexeme::Token(Tok::Ident(latin1_text(name.as_slice()))));
                    i = e;
                } else {
                    return Err(quoted("unexpected char '", &[c], "'"));
                }
            },
        }
        proof {
            assert(lexemes_view(out@) =~= old_out.push(out@.last()@));
            assert(lex_from(b@, i0) == cons_lex(out@.last()@, lex_from(b@, i as int)));
            lemma_prepend_cons(old_out, out@.last()@, lex_from(b@, i as int));
        }
    }
    proof {
        assert(lexemes_view(out@) + seq![] =~= lexemes_view(out@));
    }
    Ok(out)
}

} // verus!
