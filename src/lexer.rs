use vstd::prelude::*;

use crate::error::ParseError;
use vstd::string::StringSliceAdditionalSpecFns;

verus! {

/// The kinds of tokens, with their payloads.
#[derive(Clone, Debug, PartialEq, Eq)]
pub enum TokenType {
    Number(u64),
    Ident(Vec<char>),
    OpSingle(char),
    End,
}

/// A token and the byte offset at which it starts.
#[derive(Clone, Debug, PartialEq, Eq)]
pub struct Token {
    pub typ: TokenType,
    pub pos: u32,
}

/// An ASCII decimal digit.
pub open spec fn is_digit(b: u8) -> bool {
    48 <= b <= 57
}

/// A byte that may start an identifier: an ASCII letter or `_`.
pub open spec fn is_alpha(b: u8) -> bool {
    (65 <= b <= 90) || (97 <= b <= 122) || b == 95
}

/// A byte that may continue an identifier.
pub open spec fn is_alnum(b: u8) -> bool {
    is_alpha(b) || is_digit(b)
}

/// Space, tab, line feed or carriage return.
pub open spec fn is_space(b: u8) -> bool {
    b == 32 || b == 9 || b == 10 || b == 13
}

/// The single-character operators: `+ - * / ^ ( )`.
pub open spec fn is_op_byte(b: u8) -> bool {
    b == 43 || b == 45 || b == 42 || b == 47 || b == 94 || b == 40 || b == 41
}

/// The decimal value of a run of digits.
pub open spec fn digits_value(s: Seq<u8>) -> nat
    decreases s.len(),
{
    if s.len() == 0 {
        0
    } else {
        digits_value(s.drop_last()) * 10 + (s.last() - 48) as nat
    }
}

/// The characters that a run of ASCII bytes spells.
pub open spec fn ascii_chars(s: Seq<u8>) -> Seq<char> {
    s.map_values(|b: u8| b as char)
}

/// Every byte of `s` in `lo..hi` satisfies `p`.
pub open spec fn all_in(s: Seq<u8>, lo: int, hi: int, p: spec_fn(u8) -> bool) -> bool {
    forall|i: int| lo <= i < hi ==> #[trigger] p(s[i])
}

/// Splits a byte string into tokens, one at a time, on request.
pub struct Lexer<'a> {
    bytes: &'a [u8],
    pos: usize,
}

impl<'a> Lexer<'a> {
    /// The bytes being split into tokens.
    pub closed spec fn input(&self) -> Seq<u8> {
        self.bytes@
    }

    /// Offset of the first byte not yet read.
    pub closed spec fn offset(&self) -> nat {
        self.pos as nat
    }

    pub open spec fn wf(&self) -> bool {
        self.offset() <= self.input().len() <= u32::MAX
    }

    /// A lexer at the start of `text`, whose offsets must fit in `u32`.
    pub fn new(text: &'a str) -> (r: Lexer<'a>)
        requires
            text.spec_bytes().len() <= u32::MAX,
        ensures
            r.wf(),
            r.input() == text.spec_bytes(),
            r.offset() == 0,
    {
        let bytes = text.as_bytes();
        Lexer { bytes, pos: 0 }
    }
}

impl<'a> Lexer<'a> {
    /// Skips white space, then reads the next token. At the end of the input
    /// it gives `End`, as often as it is asked.
    pub fn next_token(&mut self) -> (r: Result<Token, ParseError>)
        requires
            old(self).wf(),
        ensures
            final(self).wf(),
            final(self).input() == old(self).input(),
            old(self).offset() <= final(self).offset(),
            lexed(old(self).input(), old(self).offset() as int, final(self).offset() as int, r),
    {
        let len = self.bytes.len();
        while self.pos < len && is_space_byte(self.bytes[self.pos])
            invariant
                self.wf(),
                self.input() == old(self).input(),
                len == self.input().len(),
                old(self).offset() <= self.offset(),
                all_in(self.input(), old(self).offset() as int, self.offset() as int, |b: u8| is_space(b)),
            decreases len - self.pos,
        {
            self.pos = self.pos + 1;
        }
        let start = self.pos;
        if start == len {
            return Ok(Token { typ: TokenType::End, pos: start as u32 });
        }
        let b = self.bytes[start];
        if is_op_char_byte(b) {
            self.pos = start + 1;
            Ok(Token { typ: TokenType::OpSingle(b as char), pos: start as u32 })
        } else if is_digit_byte(b) {
            let mut v: u64 = 0;
            let mut overflow = false;
            while self.pos < len && is_digit_byte(self.bytes[self.pos])
                invariant
                    self.wf(),
                    self.input() == old(self).input(),
                    len == self.input().len(),
                    start <= self.pos,
                    all_in(self.input(), start as int, self.offset() as int, |b: u8| is_digit(b)),
                    !overflow ==> v as nat == digits_value(self.input().subrange(start as int, self.pos as int)),
                    overflow ==> digits_value(self.input().subrange(start as int, self.pos as int)) > u64::MAX,
                decreases len - self.pos,
            {
                let d = (self.bytes[self.pos] - 48) as u64;
                proof {
                    let s = self.input().subrange(start as int, self.pos as int + 1);
                    assert(s.drop_last() =~= self.input().subrange(start as int, self.pos as int));
                }
                if !overflow {
                    if v > (u64::MAX - d) / 10 {
                        overflow = true;
                    } else {
                        v = v * 10 + d;
                    }
                }
                self.pos = self.pos + 1;
            }
            if overflow {
                Err(ParseError::Lex(start as u32))
            } else {
                Ok(Token { typ: TokenType::Number(v), pos: start as u32 })
            }
        } else if is_alpha_byte(b) {
            let mut name: Vec<char> = Vec::new();
            while self.pos < len && is_alnum_byte(self.bytes[self.pos])
                invariant
                    self.wf(),
                    self.input() == old(self).input(),
                    len == self.input().len(),
                    start <= self.pos,
                    all_in(self.input(), start as int, self.offset() as int, |b: u8| is_alnum(b)),
                    name@ == ascii_chars(self.input().subrange(start as int, self.pos as int)),
                decreases len - self.pos,
            {
                name.push(self.bytes[self.pos] as char);
                self.pos = self.pos + 1;
                proof {
                    assert(name@ =~= ascii_chars(self.input().subrange(start as int, self.pos as int)));
                }
            }
            Ok(Token { typ: TokenType::Ident(name), pos: start as u32 })
        } else {
            Err(ParseError::Lex(start as u32))
        }
    }
}

fn is_space_byte(b: u8) -> (r: bool)
    ensures
        r == is_space(b),
{
    b == 32 || b == 9 || b == 10 || b == 13
}

fn is_digit_byte(b: u8) -> (r: bool)
    ensures
        r == is_digit(b),
{
    48 <= b && b <= 57
}

fn is_alpha_byte(b: u8) -> (r: bool)
    ensures
        r == is_alpha(b),
{
    (65 <= b && b <= 90) || (97 <= b && b <= 122) || b == 95
}

fn is_alnum_byte(b: u8) -> (r: bool)
    ensures
        r == is_alnum(b),
{
    is_alpha_byte(b) || is_digit_byte(b)
}

fn is_op_char_byte(b: u8) -> (r: bool)
    ensures
        r == is_op_byte(b),
{
    b == 43 || b == 45 || b == 42 || b == 47 || b == 94 || b == 40 || b == 41
}

/// What reading one token from offset `p` of `s` may give, ending at offset `q`:
/// white space is skipped up to the token's start `t`; an operator is one byte;
/// a number or an identifier is the longest run of its bytes; the end of the
/// input gives `End`; a byte that starts no token, or a number past `u64`,
/// gives `Lex` with the offset of its first byte.
pub open spec fn lexed(s: Seq<u8>, p: int, q: int, r: Result<Token, ParseError>) -> bool {
    match r {
        Ok(tok) => {
            let t = tok.pos as int;
            &&& p <= t <= q <= s.len()
            &&& all_in(s, p, t, |b: u8| is_space(b))
            &&& match tok.typ {
                TokenType::End => t == s.len() && q == s.len(),
                TokenType::OpSingle(c) => t < s.len() && is_op_byte(s[t]) && c == s[t] as char
                    && q == t + 1,
                TokenType::Number(v) => {
                    &&& t < q
                    &&& all_in(s, t, q, |b: u8| is_digit(b))
                    &&& (q == s.len() || !is_digit(s[q]))
                    &&& v as nat == digits_value(s.subrange(t, q))
                },
                TokenType::Ident(name) => {
                    &&& t < q
                    &&& is_alpha(s[t])
                    &&& all_in(s, t, q, |b: u8| is_alnum(b))
                    &&& (q == s.len() || !is_alnum(s[q]))
                    &&& name@ == ascii_chars(s.subrange(t, q))
                },
            }
        },
        Err(ParseError::Lex(e)) => {
            let t = e as int;
            &&& p <= t < s.len()
            &&& all_in(s, p, t, |b: u8| is_space(b))
            &&& !is_space(s[t])
            &&& (!is_op_byte(s[t]) && !is_digit(s[t]) && !is_alpha(s[t]) || is_digit(s[t])
                && exists|k: int|
                t < k <= s.len() && all_in(s, t, k, |b: u8| is_digit(b)) && (k == s.len()
                    || !is_digit(s[k])) && digits_value(#[trigger] s.subrange(t, k)) > u64::MAX)
        },
        _ => false,
    }
}

/// `toks` are the tokens read one after another from the start of `s`,
/// token `i` ending at offset `ends[i]`.
pub open spec fn lexes(s: Seq<u8>, toks: Seq<Token>, ends: Seq<int>) -> bool {
    &&& toks.len() == ends.len()
    &&& forall|i: int|
        0 <= i < toks.len() ==> lexed(
            s,
            if i == 0 {
                0
            } else {
                ends[i - 1]
            },
            ends[i],
            Ok(#[trigger] toks[i]),
        )
}

/// The kinds of a run of tokens.
pub open spec fn types(toks: Seq<Token>) -> Seq<TokenType> {
    toks.map_values(|t: Token| t.typ)
}

/// A token's offset, kept for all tokens but `)`.
pub open spec fn pos_of(t: Token) -> Option<u32> {
    if t.typ == TokenType::OpSingle(')') {
        None
    } else {
        Some(t.pos)
    }
}

/// The offsets of a run of tokens, as `pos_of` keeps them.
pub open spec fn positions(toks: Seq<Token>) -> Seq<Option<u32>> {
    toks.map_values(|t: Token| pos_of(t))
}

} // verus!
