//! The lexer of the type-definition language.
//!
//! The source is read as UTF-8 bytes.  Whitespace and `//`-to-end-of-line
//! comments are discardable separators; the tokens are unsigned decimal
//! numbers, single-character operators from `|=@:;,#()[]{}<>`, and ASCII
//! identifiers.  Any other byte is a lexical error, as is a number that
//! does not fit 32 bits.

use vstd::prelude::*;

use crate::error::{Error, ErrorKind};
use crate::strutil::ascii_to_string;

verus! {

/// One token of the type-definition language.
#[derive(Debug)]
pub enum Token {
    /// An unsigned decimal number.
    Num(u32),
    /// A single-character operator, as its ASCII byte.
    Op(u8),
    /// An identifier.
    Ident(String),
}

/// Ghost mirror of a token.
pub enum SpecToken {
    Num(u32),
    Op(u8),
    Ident(Seq<char>),
}

pub open spec fn token_view(t: Token) -> SpecToken {
    match t {
        Token::Num(n) => SpecToken::Num(n),
        Token::Op(c) => SpecToken::Op(c),
        Token::Ident(s) => SpecToken::Ident(s@),
    }
}

impl View for Token {
    type V = SpecToken;

    open spec fn view(&self) -> SpecToken {
        token_view(*self)
    }
}

pub open spec fn tokens_view(ts: Seq<Token>) -> Seq<SpecToken> {
    Seq::new(ts.len(), |i: int| token_view(ts[i]))
}

// ---------------------------------------------------------------------------
// byte classes
// ---------------------------------------------------------------------------

pub open spec fn spec_is_ws(b: u8) -> bool {
    b == 32 || b == 9 || b == 10 || b == 13
}

pub open spec fn spec_is_digit(b: u8) -> bool {
    48 <= b <= 57
}

pub open spec fn spec_is_ident_start(b: u8) -> bool {
    (65 <= b <= 90) || (97 <= b <= 122) || b == 95
}

pub open spec fn spec_is_ident_cont(b: u8) -> bool {
    spec_is_ident_start(b) || spec_is_digit(b)
}

/// The operator characters `| = @ : ; , # ( ) [ ] { } < >`.
pub open spec fn spec_is_op(b: u8) -> bool {
    b == 124 || b == 61 || b == 64 || b == 58 || b == 59 || b == 44 || b == 35 || b == 40 || b == 41
        || b == 91 || b == 93 || b == 123 || b == 125 || b == 60 || b == 62
}

fn is_ws_byte(b: u8) -> (r: bool)
    ensures
        r == spec_is_ws(b),
{
    b == 32 || b == 9 || b == 10 || b == 13
}

fn is_digit_byte(b: u8) -> (r: bool)
    ensures
        r == spec_is_digit(b),
{
    48 <= b && b <= 57
}

fn is_ident_start_byte(b: u8) -> (r: bool)
    ensures
        r == spec_is_ident_start(b),
{
    (65 <= b && b <= 90) || (97 <= b && b <= 122) || b == 95
}

fn is_ident_cont_byte(b: u8) -> (r: bool)
    ensures
        r == spec_is_ident_cont(b),
{
    is_ident_start_byte(b) || is_digit_byte(b)
}

fn is_op_byte(b: u8) -> (r: bool)
    ensures
        r == spec_is_op(b),
{
    b == 124 || b == 61 || b == 64 || b == 58 || b == 59 || b == 44 || b == 35 || b == 40 || b == 41
        || b == 91 || b == 93 || b == 123 || b == 125 || b == 60 || b == 62
}

// ---------------------------------------------------------------------------
// scanning positions
// ---------------------------------------------------------------------------

/// The position of the next line feed at or after `pos`, or the end.
pub open spec fn spec_line_end(s: Seq<u8>, pos: int) -> int
    decreases s.len() - pos,
{
    if 0 <= pos && pos < s.len() && s[pos] != 10 {
        spec_line_end(s, pos + 1)
    } else {
        pos
    }
}

pub proof fn lemma_line_end_bounds(s: Seq<u8>, pos: int)
    requires
        0 <= pos <= s.len(),
    ensures
        pos <= spec_line_end(s, pos) <= s.len(),
    decreases s.len() - pos,
{
    if pos < s.len() && s[pos] != 10 {
        lemma_line_end_bounds(s, pos + 1);
    }
}

/// The position after any run of whitespace and `//` comments at `pos`.
pub open spec fn spec_skip_trivia(s: Seq<u8>, pos: int) -> int
    decreases s.len() - pos,
    via spec_skip_trivia_dec
{
    if 0 <= pos && pos < s.len() {
        if spec_is_ws(s[pos]) {
            spec_skip_trivia(s, pos + 1)
        } else if s[pos] == 47 && pos + 1 < s.len() && s[pos + 1] == 47 {
            spec_skip_trivia(s, spec_line_end(s, pos + 2))
        } else {
            pos
        }
    } else {
        pos
    }
}

#[via_fn]
proof fn spec_skip_trivia_dec(s: Seq<u8>, pos: int) {
    if 0 <= pos && pos < s.len() {
        if !spec_is_ws(s[pos]) && s[pos] == 47 && pos + 1 < s.len() && s[pos + 1] == 47 {
            lemma_line_end_bounds(s, pos + 2);
        }
    }
}

pub proof fn lemma_skip_trivia_bounds(s: Seq<u8>, pos: int)
    requires
        0 <= pos <= s.len(),
    ensures
        pos <= spec_skip_trivia(s, pos) <= s.len(),
    decreases s.len() - pos,
{
    if pos < s.len() {
        if spec_is_ws(s[pos]) {
            lemma_skip_trivia_bounds(s, pos + 1);
        } else if s[pos] == 47 && pos + 1 < s.len() && s[pos + 1] == 47 {
            lemma_line_end_bounds(s, pos + 2);
            lemma_skip_trivia_bounds(s, spec_line_end(s, pos + 2));
        }
    }
}

/// The end of the digit run starting at `pos`.
pub open spec fn spec_digits_end(s: Seq<u8>, pos: int) -> int
    decreases s.len() - pos,
{
    if 0 <= pos && pos < s.len() && spec_is_digit(s[pos]) {
        spec_digits_end(s, pos + 1)
    } else {
        pos
    }
}

pub proof fn lemma_digits_end_bounds(s: Seq<u8>, pos: int)
    requires
        0 <= pos <= s.len(),
    ensures
        pos <= spec_digits_end(s, pos) <= s.len(),
    decreases s.len() - pos,
{
    if pos < s.len() && spec_is_digit(s[pos]) {
        lemma_digits_end_bounds(s, pos + 1);
    }
}

/// The end of the identifier run starting at `pos`.
pub open spec fn spec_ident_end(s: Seq<u8>, pos: int) -> int
    decreases s.len() - pos,
{
    if 0 <= pos && pos < s.len() && spec_is_ident_cont(s[pos]) {
        spec_ident_end(s, pos + 1)
    } else {
        pos
    }
}

pub proof fn lemma_ident_end_bounds(s: Seq<u8>, pos: int)
    requires
        0 <= pos <= s.len(),
    ensures
        pos <= spec_ident_end(s, pos) <= s.len(),
        forall|j: int| pos <= j < spec_ident_end(s, pos) ==> spec_is_ident_cont(s[j]),
    decreases s.len() - pos,
{
    if pos < s.len() && spec_is_ident_cont(s[pos]) {
        lemma_ident_end_bounds(s, pos + 1);
    }
}

/// The value of the decimal digit run `s[from..to]`.
pub open spec fn spec_dec_val(s: Seq<u8>, from: int, to: int) -> int
    decreases to - from,
{
    if to <= from {
        0
    } else {
        spec_dec_val(s, from, to - 1) * 10 + (s[to - 1] - 48)
    }
}

proof fn lemma_dec_val_nonneg(s: Seq<u8>, from: int, to: int)
    requires
        forall|j: int| from <= j < to ==> spec_is_digit(s[j]),
    ensures
        spec_dec_val(s, from, to) >= 0,
    decreases to - from,
{
    if to > from {
        lemma_dec_val_nonneg(s, from, to - 1);
    }
}

// ---------------------------------------------------------------------------
// tokens
// ---------------------------------------------------------------------------

/// The next token at or after `pos`, with the position after it; `None` at
/// the end of input; an error on a byte no token starts with, or on a
/// number that does not fit 32 bits.
pub open spec fn spec_next_token(s: Seq<u8>, pos: int) -> Result<
    Option<(SpecToken, int)>,
    ErrorKind,
> {
    let p = spec_skip_trivia(s, pos);
    if p >= s.len() {
        Ok(None)
    } else {
        let b = s[p];
        if spec_is_digit(b) {
            let e = spec_digits_end(s, p);
            let v = spec_dec_val(s, p, e);
            if v > u32::MAX {
                Err(ErrorKind::Lex)
            } else {
                Ok(Some((SpecToken::Num(v as u32), e)))
            }
        } else if spec_is_op(b) {
            Ok(Some((SpecToken::Op(b), p + 1)))
        } else if spec_is_ident_start(b) {
            let e = spec_ident_end(s, p);
            Ok(Some((SpecToken::Ident(Seq::new((e - p) as nat, |i: int| s[p + i] as char)), e)))
        } else {
            Err(ErrorKind::Lex)
        }
    }
}

pub proof fn lemma_next_token_bounds(s: Seq<u8>, pos: int)
    requires
        0 <= pos <= s.len(),
    ensures
        match spec_next_token(s, pos) {
            Ok(st) => st matches Some(pair) ==> pos < pair.1 <= s.len(),
            _ => true,
        },
{
    lemma_skip_trivia_bounds(s, pos);
    let p = spec_skip_trivia(s, pos);
    if p < s.len() {
        let b = s[p];
        if spec_is_digit(b) {
            lemma_digits_end_bounds(s, p + 1);
            assert(spec_digits_end(s, p) == spec_digits_end(s, p + 1));
        } else if spec_is_op(b) {
        } else if spec_is_ident_start(b) {
            lemma_ident_end_bounds(s, p + 1);
            assert(spec_ident_end(s, p) == spec_ident_end(s, p + 1));
        }
    }
}

/// All tokens from `pos` to the end of input.
pub open spec fn spec_lex_from(s: Seq<u8>, pos: int) -> Result<Seq<SpecToken>, ErrorKind>
    decreases s.len() - pos,
    when 0 <= pos <= s.len()
    via spec_lex_from_dec
{
    match spec_next_token(s, pos) {
        Err(k) => Err(k),
        Ok(None) => Ok(Seq::empty()),
        Ok(Some((t, e))) => match spec_lex_from(s, e) {
            Err(k) => Err(k),
            Ok(rest) => Ok(seq![t] + rest),
        },
    }
}

#[via_fn]
proof fn spec_lex_from_dec(s: Seq<u8>, pos: int) {
    lemma_next_token_bounds(s, pos);
}

/// The token stream of a whole source text.
pub open spec fn spec_lex(s: Seq<u8>) -> Result<Seq<SpecToken>, ErrorKind> {
    spec_lex_from(s, 0)
}

// ---------------------------------------------------------------------------
// executable lexer
// ---------------------------------------------------------------------------

fn skip_trivia(s: &Vec<u8>, pos: usize) -> (r: usize)
    requires
        pos <= s@.len(),
    ensures
        r as int == spec_skip_trivia(s@, pos as int),
        pos <= r <= s@.len(),
        r as int == spec_skip_trivia(s@, r as int),
{
    let n = s.len();
    let mut p = pos;
    loop
        invariant
            pos <= p <= n,
            n == s@.len(),
            spec_skip_trivia(s@, pos as int) == spec_skip_trivia(s@, p as int),
        ensures
            pos <= p <= n,
            spec_skip_trivia(s@, pos as int) == spec_skip_trivia(s@, p as int),
            spec_skip_trivia(s@, p as int) == p as int,
        decreases n - p,
    {
        if p >= n {
            break;
        }
        let b = s[p];
        if is_ws_byte(b) {
            p += 1;
        } else if b == 47 && p + 1 < n && s[p + 1] == 47 {
            let mut e: usize = p + 2;
            while e < n && s[e] != 10
                invariant
                    p + 2 <= e <= n,
                    n == s@.len(),
                    spec_line_end(s@, p as int + 2) == spec_line_end(s@, e as int),
                decreases n - e,
            {
                e += 1;
            }
            proof {
                assert(spec_line_end(s@, e as int) == e as int);
            }
            p = e;
        } else {
            break;
        }
    }
    p
}

/// One token appended keeps the whole-stream equation of the lexer loop.
proof fn lemma_lex_step(s: Seq<u8>, pos: int, outv: Seq<Token>, t: Token, e: int)
    requires
        0 <= pos <= s.len(),
        outv.len() > 0,
        outv[outv.len() - 1] == t,
        spec_next_token(s, pos) == Ok::<Option<(SpecToken, int)>, ErrorKind>(
            Some((token_view(t), e)),
        ),
    ensures
        match spec_lex_from(s, pos) {
            Ok(ts) => spec_lex_from(s, e) matches Ok(rest) && tokens_view(outv.drop_last()) + ts
                == tokens_view(outv) + rest,
            Err(k) => spec_lex_from(s, e) matches Err(k2) && k2 == k,
        },
{
    lemma_next_token_bounds(s, pos);
    match spec_lex_from(s, e) {
        Ok(rest) => {
            assert(spec_lex_from(s, pos) == Ok::<Seq<SpecToken>, ErrorKind>(
                seq![token_view(t)] + rest,
            ));
            assert(tokens_view(outv.drop_last()) + (seq![token_view(t)] + rest) =~= tokens_view(
                outv,
            ) + rest);
        },
        Err(k) => {
            assert(spec_lex_from(s, pos) == Err::<Seq<SpecToken>, ErrorKind>(k));
        },
    }
}

/// Lexes the source bytes into the token stream.
pub fn lex(src: &Vec<u8>) -> (r: Result<Vec<Token>, Error>)
    ensures
        match spec_lex(src@) {
            Ok(ts) => r matches Ok(v) && tokens_view(v@) == ts,
            Err(k) => r matches Err(e) && e.kind == k,
        },
{
    let n = src.len();
    let mut pos: usize = 0;
    let mut out: Vec<Token> = Vec::new();
    proof {
        assert(tokens_view(out@) =~= Seq::<SpecToken>::empty());
    }
    loop
        invariant
            pos <= n,
            n == src@.len(),
            spec_lex(src@) == match spec_lex_from(src@, pos as int) {
                Ok(rest) => Ok::<Seq<SpecToken>, ErrorKind>(tokens_view(out@) + rest),
                Err(k) => Err::<Seq<SpecToken>, ErrorKind>(k),
            },
        ensures
            spec_lex(src@) == Ok::<Seq<SpecToken>, ErrorKind>(tokens_view(out@)),
        decreases n - pos,
    {
        let ghost pos0 = pos as int;
        let p = skip_trivia(src, pos);
        proof {
            lemma_next_token_bounds(src@, pos0);
        }
        if p >= n {
            proof {
                assert(spec_next_token(src@, pos0) == Ok::<Option<(SpecToken, int)>, ErrorKind>(
                    None,
                ));
                assert(spec_lex_from(src@, pos0) == Ok::<Seq<SpecToken>, ErrorKind>(
                    Seq::empty(),
                ));
                assert(tokens_view(out@) + Seq::<SpecToken>::empty() =~= tokens_view(out@));
            }
            break;
        }
        let b = src[p];
        if is_digit_byte(b) {
            let mut e: usize = p;
            let mut val: u64 = 0;
            while e < n && is_digit_byte(src[e])
                invariant
                    p <= e <= n,
                    n == src@.len(),
                    spec_digits_end(src@, p as int) == spec_digits_end(src@, e as int),
                    forall|j: int| p <= j < e ==> spec_is_digit(src@[j]),
                    val <= 0x1_0000_0000,
                    (val as int == spec_dec_val(src@, p as int, e as int) && val <= u32::MAX)
                        || (val == 0x1_0000_0000 && spec_dec_val(src@, p as int, e as int)
                        > u32::MAX),
                decreases n - e,
            {
                let d = src[e] - 48;
                proof {
                    lemma_dec_val_nonneg(src@, p as int, e as int);
                }
                if val > u32::MAX as u64 / 10 {
                    val = 0x1_0000_0000;
                } else {
                    val = val * 10 + d as u64;
                    if val > u32::MAX as u64 {
                        val = 0x1_0000_0000;
                    }
                }
                e += 1;
            }
            proof {
                assert(spec_digits_end(src@, e as int) == e as int);
            }
            if val > u32::MAX as u64 {
                proof {
                    assert(spec_next_token(src@, pos0) == Err::<Option<(SpecToken, int)>, ErrorKind>(
                        ErrorKind::Lex,
                    ));
                }
                return Err(Error::from_text(ErrorKind::Lex, "number literal does not fit 32 bits"));
            }
            let t = Token::Num(val as u32);
            let ghost tg = t;
            let ghost prev = out@;
            out.push(t);
            proof {
                assert(out@.drop_last() =~= prev);
                lemma_lex_step(src@, pos0, out@, tg, e as int);
            }
            pos = e;
        } else if is_op_byte(b) {
            let t = Token::Op(b);
            let ghost tg = t;
            let ghost prev = out@;
            out.push(t);
            proof {
                assert(out@.drop_last() =~= prev);
                lemma_lex_step(src@, pos0, out@, tg, p as int + 1);
            }
            pos = p + 1;
        } else if is_ident_start_byte(b) {
            let mut e: usize = p;
            let mut name_bytes: Vec<u8> = Vec::new();
            while e < n && is_ident_cont_byte(src[e])
                invariant
                    p <= e <= n,
                    n == src@.len(),
                    spec_ident_end(src@, p as int) == spec_ident_end(src@, e as int),
                    forall|j: int| p <= j < e ==> spec_is_ident_cont(src@[j]),
                    name_bytes@.len() == e - p,
                    forall|j: int| 0 <= j < e - p ==> name_bytes@[j] == src@[p + j],
                decreases n - e,
            {
                name_bytes.push(src[e]);
                e += 1;
            }
            proof {
                assert(spec_ident_end(src@, e as int) == e as int);
                assert(forall|j: int| 0 <= j < name_bytes@.len() ==> name_bytes@[j] < 0x80);
            }
            let ghost nb = name_bytes@;
            let name = ascii_to_string(name_bytes);
            proof {
                assert(name@ =~= Seq::new((e - p) as nat, |i: int| src@[p as int + i] as char));
            }
            let t = Token::Ident(name);
            let ghost tg = t;
            let ghost prev = out@;
            out.push(t);
            proof {
                assert(out@.drop_last() =~= prev);
                lemma_lex_step(src@, pos0, out@, tg, e as int);
            }
            pos = e;
        } else {
            proof {
                assert(spec_next_token(src@, pos0) == Err::<Option<(SpecToken, int)>, ErrorKind>(
                    ErrorKind::Lex,
                ));
            }
            return Err(Error::from_text(ErrorKind::Lex, "unexpected character in input"));
        }
    }
    Ok(out)
}

} // verus!
