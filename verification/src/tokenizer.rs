use vstd::prelude::*;

use crate::rational::Rational;
use crate::token::{token_wf, tokens_wf, Token};
use vstd::string::StrSliceExecFns;

verus! {

/// Why lexing failed.
#[derive(Debug, Clone, Copy, PartialEq, Eq, Structural)]
pub enum LexError {
    /// The input held no characters at all.
    EmptyInput,
    /// A character no token can start with, and its character offset.
    UnknownCharacter { character: char, position: usize },
    /// A numeric literal that does not denote a representable number, with
    /// the character offset at which the literal starts.
    InvalidNumber { position: usize },
}

/// A Unicode white-space character (the `White_Space` property).
pub open spec fn is_space_char(c: char) -> bool {
    let v = c as int;
    v == 0x20 || v == 0x09 || v == 0x0A || v == 0x0B || v == 0x0C || v == 0x0D || v == 0x85
        || v == 0xA0 || v == 0x1680 || (0x2000 <= v && v <= 0x200A) || v == 0x2028 || v == 0x2029
        || v == 0x202F || v == 0x205F || v == 0x3000
}

/// A decimal digit.
pub open spec fn is_digit_char(c: char) -> bool {
    0x30 <= c as int <= 0x39
}

/// The value of a decimal digit.
pub open spec fn digit_val(c: char) -> int {
    c as int - 0x30
}

/// A digit-group separator, recognized inside a literal and discarded.
pub open spec fn is_sep_char(c: char) -> bool {
    c == ',' || c == '_'
}

/// A character that continues a numeric literal.
pub open spec fn is_number_char(c: char) -> bool {
    is_digit_char(c) || c == '.' || is_sep_char(c)
}

fn is_space(c: char) -> (r: bool)
    ensures
        r == is_space_char(c),
{
    let v = c as u32;
    v == 0x20 || v == 0x09 || v == 0x0A || v == 0x0B || v == 0x0C || v == 0x0D || v == 0x85
        || v == 0xA0 || v == 0x1680 || (0x2000 <= v && v <= 0x200A) || v == 0x2028 || v == 0x2029
        || v == 0x202F || v == 0x205F || v == 0x3000
}

fn is_digit(c: char) -> (r: bool)
    ensures
        r == is_digit_char(c),
{
    let v = c as u32;
    0x30 <= v && v <= 0x39
}

fn digit_value(c: char) -> (r: u32)
    requires
        is_digit_char(c),
    ensures
        r as int == digit_val(c),
{
    let v = c as u32;
    v - 0x30
}

/// First index at or after `i` holding a non-white-space character (or the
/// end of the text).
pub open spec fn skip_ws_from(s: Seq<char>, i: int) -> int
    decreases s.len() - i,
{
    if 0 <= i < s.len() && is_space_char(s[i]) {
        skip_ws_from(s, i + 1)
    } else {
        i
    }
}

/// First index at or after `i` that no longer continues a numeric literal.
pub open spec fn number_end(s: Seq<char>, i: int) -> int
    decreases s.len() - i,
{
    if 0 <= i < s.len() && is_number_char(s[i]) {
        number_end(s, i + 1)
    } else {
        i
    }
}

/// Folds the characters of a literal body into `(numerator, denominator)`,
/// reading digits in order, tracking one optional decimal point, and passing
/// over separators.  `None` means the body denotes no number (a second
/// decimal point, or a character outside the literal alphabet).
pub open spec fn scan_body(body: Seq<char>, num: int, den: int, seen_dot: bool) -> Option<
    (int, int),
>
    decreases body.len(),
{
    if body.len() == 0 {
        Some((num, den))
    } else {
        let c = body.first();
        if is_digit_char(c) {
            scan_body(
                body.drop_first(),
                num * 10 + digit_val(c),
                if seen_dot {
                    den * 10
                } else {
                    den
                },
                seen_dot,
            )
        } else if c == '.' {
            if seen_dot {
                None
            } else {
                scan_body(body.drop_first(), num, den, true)
            }
        } else if is_sep_char(c) {
            scan_body(body.drop_first(), num, den, seen_dot)
        } else {
            None
        }
    }
}

/// The exact rational a literal body denotes: `digits / 10^k` with `k` the
/// number of digits after the decimal point.
pub open spec fn number_value(body: Seq<char>) -> Option<(int, int)> {
    scan_body(body, 0, 1, false)
}

/// The token a numeric literal starting at `start` scans to, together with
/// the index just past it; or the error when the literal denotes no
/// representable number.
pub open spec fn spec_number_token(s: Seq<char>, start: int) -> Result<(Token, int), LexError> {
    let end = number_end(s, start);
    match number_value(s.subrange(start, end)) {
        Option::None => Err(LexError::InvalidNumber { position: start as usize }),
        Option::Some((n, d)) => if n <= i64::MAX && d <= i64::MAX {
            Ok((Token::Number(Rational { num: n as i64, den: d as i64 }), end))
        } else {
            Err(LexError::InvalidNumber { position: start as usize })
        },
    }
}

/// Prepends a token to the result of lexing the rest of the text.
pub open spec fn lex_cons(t: Token, rest: Result<Seq<Token>, LexError>) -> Result<
    Seq<Token>,
    LexError,
> {
    match rest {
        Ok(ts) => Ok(seq![t] + ts),
        Err(e) => Err(e),
    }
}

/// The token sequence of the text from index `i` on: white space is passed
/// over, single-character symbols map directly, a digit starts a numeric
/// literal, and any other character is a fatal error naming it and its
/// offset.
pub open spec fn lex_from(s: Seq<char>, i: int) -> Result<Seq<Token>, LexError>
    decreases s.len() - i,
        via lex_from_decreases
{
    if i < 0 || i >= s.len() {
        Ok(Seq::empty())
    } else if is_space_char(s[i]) {
        lex_from(s, i + 1)
    } else if s[i] == '+' {
        lex_cons(Token::Plus, lex_from(s, i + 1))
    } else if s[i] == '-' {
        lex_cons(Token::Minus, lex_from(s, i + 1))
    } else if s[i] == '*' {
        lex_cons(Token::Times, lex_from(s, i + 1))
    } else if s[i] == '/' {
        lex_cons(Token::Divide, lex_from(s, i + 1))
    } else if s[i] == '(' {
        lex_cons(Token::LParen, lex_from(s, i + 1))
    } else if s[i] == ')' {
        lex_cons(Token::RParen, lex_from(s, i + 1))
    } else if is_digit_char(s[i]) {
        match spec_number_token(s, i) {
            Err(e) => Err(e),
            Ok(p) => lex_cons(p.0, lex_from(s, p.1)),
        }
    } else {
        Err(LexError::UnknownCharacter { character: s[i], position: i as usize })
    }
}

#[via_fn]
proof fn lex_from_decreases(s: Seq<char>, i: int) {
    if 0 <= i < s.len() && is_digit_char(s[i]) {
        lemma_number_end_advances(s, i);
    }
}

/// The token sequence of a whole text; empty input is rejected before any
/// token is produced.
pub open spec fn spec_lex(s: Seq<char>) -> Result<Seq<Token>, LexError> {
    if s.len() == 0 {
        Err(LexError::EmptyInput)
    } else {
        lex_from(s, 0)
    }
}

proof fn lemma_skip_ws_bounds(s: Seq<char>, i: int)
    requires
        0 <= i <= s.len(),
    ensures
        i <= skip_ws_from(s, i) <= s.len(),
    decreases s.len() - i,
{
    if i < s.len() && is_space_char(s[i]) {
        lemma_skip_ws_bounds(s, i + 1);
    }
}

/// Where the white-space skip stops, no white space stands.
proof fn lemma_skip_ws_stops(s: Seq<char>, i: int)
    requires
        0 <= i,
    ensures
        skip_ws_from(s, i) >= s.len() || !is_space_char(s[skip_ws_from(s, i)]),
    decreases s.len() - i,
{
    if i < s.len() && is_space_char(s[i]) {
        lemma_skip_ws_stops(s, i + 1);
    }
}

proof fn lemma_number_end_bounds(s: Seq<char>, i: int)
    requires
        0 <= i <= s.len(),
    ensures
        i <= number_end(s, i) <= s.len(),
    decreases s.len() - i,
{
    if i < s.len() && is_number_char(s[i]) {
        lemma_number_end_bounds(s, i + 1);
    }
}

proof fn lemma_number_end_advances(s: Seq<char>, i: int)
    requires
        0 <= i < s.len(),
        is_number_char(s[i]),
    ensures
        i + 1 <= number_end(s, i) <= s.len(),
{
    lemma_number_end_bounds(s, i + 1);
}

/// Lexing is unmoved by leading white space.
proof fn lemma_lex_skip_ws(s: Seq<char>, i: int)
    requires
        0 <= i,
    ensures
        lex_from(s, i) == lex_from(s, skip_ws_from(s, i)),
    decreases s.len() - i,
{
    if i < s.len() && is_space_char(s[i]) {
        lemma_lex_skip_ws(s, i + 1);
    }
}

/// The fold of a literal body never shrinks the numerator or denominator.
proof fn lemma_scan_body_monotone(body: Seq<char>, num: int, den: int, seen_dot: bool)
    requires
        num >= 0,
        den >= 1,
    ensures
        scan_body(body, num, den, seen_dot) matches Some(p) ==> p.0 >= num && p.1 >= den,
    decreases body.len(),
{
    if body.len() > 0 {
        let c = body.first();
        if is_digit_char(c) {
            lemma_scan_body_monotone(
                body.drop_first(),
                num * 10 + digit_val(c),
                if seen_dot {
                    den * 10
                } else {
                    den
                },
                seen_dot,
            );
        } else if c == '.' {
            if !seen_dot {
                lemma_scan_body_monotone(body.drop_first(), num, den, true);
            }
        } else if is_sep_char(c) {
            lemma_scan_body_monotone(body.drop_first(), num, den, seen_dot);
        }
    }
}

/// A literal body with the digit-group separators removed.
pub open spec fn strip_separators(body: Seq<char>) -> Seq<char>
    decreases body.len(),
{
    if body.len() == 0 {
        Seq::empty()
    } else if is_sep_char(body.first()) {
        strip_separators(body.drop_first())
    } else {
        seq![body.first()] + strip_separators(body.drop_first())
    }
}

proof fn lemma_scan_skips_separators(body: Seq<char>, num: int, den: int, seen_dot: bool)
    ensures
        scan_body(body, num, den, seen_dot) == scan_body(
            strip_separators(body),
            num,
            den,
            seen_dot,
        ),
    decreases body.len(),
{
    if body.len() > 0 {
        let c = body.first();
        let rest = body.drop_first();
        if is_sep_char(c) {
            lemma_scan_skips_separators(rest, num, den, seen_dot);
        } else {
            let stripped = seq![c] + strip_separators(rest);
            assert(stripped[0] == c);
            assert(stripped.drop_first() =~= strip_separators(rest));
            if is_digit_char(c) {
                lemma_scan_skips_separators(
                    rest,
                    num * 10 + digit_val(c),
                    if seen_dot {
                        den * 10
                    } else {
                        den
                    },
                    seen_dot,
                );
            } else if c == '.' {
                if !seen_dot {
                    lemma_scan_skips_separators(rest, num, den, true);
                }
            }
        }
    }
}

/// Digit-group separators are semantically transparent: two literal bodies
/// that agree once the separators are removed denote the same number.
pub proof fn lemma_separators_transparent(b1: Seq<char>, b2: Seq<char>)
    requires
        strip_separators(b1) == strip_separators(b2),
    ensures
        number_value(b1) == number_value(b2),
{
    lemma_scan_skips_separators(b1, 0, 1, false);
    lemma_scan_skips_separators(b2, 0, 1, false);
}

/// A single-pass scanner over a borrowed text.  It is stateful: each token
/// is taken at most once, and a fresh scanner is needed to restart.
pub struct Tokenizer<'a> {
    string: &'a str,
    position: usize,
}

impl<'a> Tokenizer<'a> {
    /// The text being scanned.
    pub closed spec fn input(self) -> Seq<char> {
        self.string@
    }

    /// The current character offset of the scanner.
    pub closed spec fn pos(self) -> int {
        self.position as int
    }

    /// What `peek` yields: the character under the scanner, if any.
    pub open spec fn spec_peek(self) -> Option<char> {
        if self.pos() < self.input().len() {
            Some(self.input()[self.pos()])
        } else {
            None
        }
    }

    /// Rejects empty input before any scanning; otherwise the scanner starts
    /// at the first character.
    pub fn new(string: &'a str) -> (r: Result<Self, LexError>)
        ensures
            string@.len() == 0 ==> (r matches Err(e) && e == LexError::EmptyInput),
            string@.len() != 0 ==> (r matches Ok(t) && t.input() == string@ && t.pos() == 0),
    {
        if string.unicode_len() == 0 {
            Err(LexError::EmptyInput)
        } else {
            Ok(Tokenizer { string, position: 0 })
        }
    }

    /// The character under the scanner, without consuming it.
    pub fn peek(&self) -> (r: Option<char>)
        ensures
            r == self.spec_peek(),
            r matches Some(c) ==> self.pos() < self.input().len() && self.pos() < usize::MAX,
    {
        if self.position < self.string.unicode_len() {
            Some(self.string.get_char(self.position))
        } else {
            None
        }
    }

    /// Moves the scanner one character forward.
    pub fn advance(&mut self)
        requires
            old(self).pos() < usize::MAX,
        ensures
            final(self).input() == old(self).input(),
            final(self).pos() == old(self).pos() + 1,
    {
        self.position = self.position + 1;
    }

    /// Takes the character under the scanner, if any, and moves forward.
    pub fn consume(&mut self) -> (r: Option<char>)
        requires
            old(self).pos() < usize::MAX,
        ensures
            r == old(self).spec_peek(),
            final(self).input() == old(self).input(),
            final(self).pos() == old(self).pos() + 1,
    {
        let c = self.peek();
        self.advance();
        c
    }

    /// Moves the scanner past any white space.
    #[verifier::loop_isolation(false)]
    pub fn skip_whitespace(&mut self)
        ensures
            final(self).input() == old(self).input(),
            final(self).pos() == skip_ws_from(old(self).input(), old(self).pos()),
    {
        loop
            invariant
                self.input() == old(self).input(),
                old(self).pos() <= self.pos(),
                skip_ws_from(self.input(), old(self).pos()) == skip_ws_from(
                    self.input(),
                    self.pos(),
                ),
            decreases self.input().len() - self.pos(),
        {
            match self.peek() {
                Some(ch) => {
                    if is_space(ch) {
                        self.advance();
                    } else {
                        return ;
                    }
                },
                None => {
                    return ;
                },
            }
        }
    }

    /// Scans one numeric literal starting at the current (digit) character.
    fn parse_number(&mut self) -> (r: Result<Token, LexError>)
        requires
            old(self).pos() < old(self).input().len(),
            is_digit_char(old(self).input()[old(self).pos()]),
        ensures
            final(self).input() == old(self).input(),
            match r {
                Ok(t) => spec_number_token(old(self).input(), old(self).pos()) == Ok::<
                    (Token, int),
                    LexError,
                >((t, final(self).pos())) && token_wf(t),
                Err(e) => spec_number_token(old(self).input(), old(self).pos()) == Err::<
                    (Token, int),
                    LexError,
                >(e),
            },
    {
        let ghost s = self.input();
        let ghost start = self.pos();
        let ghost end = number_end(s, start);
        let start_position = self.position;
        let mut num: i64 = 0;
        let mut den: i64 = 1;
        let mut seen_dot = false;
        proof {
            lemma_number_end_bounds(s, start);
        }
        loop
            invariant
                s == old(self).input(),
                start == old(self).pos(),
                end == number_end(s, start),
                self.input() == s,
                start <= self.pos() <= end <= s.len(),
                number_end(s, self.pos()) == end,
                start_position as int == start,
                0 <= num <= i64::MAX,
                1 <= den <= i64::MAX,
                scan_body(s.subrange(self.pos(), end), num as int, den as int, seen_dot)
                    == number_value(s.subrange(start, end)),
            ensures
                self.pos() == end,
            decreases end - self.pos(),
        {
            let c = match self.peek() {
                Some(c) => c,
                None => {
                    break ;
                },
            };
            let ghost pos = self.pos();
            let ghost body = s.subrange(pos, end);
            if is_digit(c) {
                proof {
                    lemma_number_end_advances(s, pos);
                    assert(body.first() == c);
                    assert(body.drop_first() =~= s.subrange(pos + 1, end));
                }
                let d = digit_value(c) as i64;
                let wide_num: i128 = (num as i128) * 10 + (d as i128);
                if wide_num > i64::MAX as i128 {
                    proof {
                        lemma_scan_body_monotone(
                            body.drop_first(),
                            num as int * 10 + digit_val(c),
                            if seen_dot {
                                den as int * 10
                            } else {
                                den as int
                            },
                            seen_dot,
                        );
                    }
                    return Err(LexError::InvalidNumber { position: start_position });
                }
                if seen_dot {
                    let wide_den: i128 = (den as i128) * 10;
                    if wide_den > i64::MAX as i128 {
                        proof {
                            lemma_scan_body_monotone(
                                body.drop_first(),
                                num as int * 10 + digit_val(c),
                                den as int * 10,
                                seen_dot,
                            );
                        }
                        return Err(LexError::InvalidNumber { position: start_position });
                    }
                    den = wide_den as i64;
                }
                num = wide_num as i64;
                self.advance();
            } else if c == '.' {
                proof {
                    lemma_number_end_advances(s, pos);
                    assert(body.first() == c);
                    assert(body.drop_first() =~= s.subrange(pos + 1, end));
                }
                if seen_dot {
                    return Err(LexError::InvalidNumber { position: start_position });
                }
                seen_dot = true;
                self.advance();
            } else if c == ',' || c == '_' {
                proof {
                    lemma_number_end_advances(s, pos);
                    assert(body.first() == c);
                    assert(body.drop_first() =~= s.subrange(pos + 1, end));
                }
                self.advance();
            } else {
                break ;
            }
        }
        proof {
            assert(s.subrange(self.pos(), end).len() == 0);
        }
        Ok(Token::Number(Rational { num, den }))
    }

    /// Scans the next token; `Ok(None)` means the text is exhausted.
    fn next_token(&mut self) -> (r: Result<Option<Token>, LexError>)
        requires
            0 <= old(self).pos(),
        ensures
            final(self).input() == old(self).input(),
            match r {
                Ok(Some(t)) => lex_from(old(self).input(), old(self).pos()) == lex_cons(
                    t,
                    lex_from(old(self).input(), final(self).pos()),
                ) && old(self).pos() < final(self).pos() <= old(self).input().len() && token_wf(t),
                Ok(None) => lex_from(old(self).input(), old(self).pos()) == Ok::<
                    Seq<Token>,
                    LexError,
                >(Seq::empty()),
                Err(e) => lex_from(old(self).input(), old(self).pos()) == Err::<
                    Seq<Token>,
                    LexError,
                >(e),
            },
    {
        let ghost s = self.input();
        let ghost p0 = self.pos();
        self.skip_whitespace();
        proof {
            lemma_lex_skip_ws(s, p0);
            lemma_skip_ws_stops(s, p0);
            if p0 <= s.len() {
                lemma_skip_ws_bounds(s, p0);
            }
        }
        let character = match self.peek() {
            Some(c) => c,
            None => {
                return Ok(None);
            },
        };
        match character {
            '+' => {
                self.advance();
                Ok(Some(Token::Plus))
            },
            '-' => {
                self.advance();
                Ok(Some(Token::Minus))
            },
            '*' => {
                self.advance();
                Ok(Some(Token::Times))
            },
            '/' => {
                self.advance();
                Ok(Some(Token::Divide))
            },
            '(' => {
                self.advance();
                Ok(Some(Token::LParen))
            },
            ')' => {
                self.advance();
                Ok(Some(Token::RParen))
            },
            c => {
                if is_digit(c) {
                    proof {
                        lemma_number_end_advances(s, self.pos());
                    }
                    match self.parse_number() {
                        Ok(t) => Ok(Some(t)),
                        Err(e) => Err(e),
                    }
                } else {
                    Err(
                        LexError::UnknownCharacter {
                            character: c,
                            position: self.position,
                        },
                    )
                }
            },
        }
    }

    /// Scans the whole remaining text into a token sequence, or reports the
    /// first lexical error.
    pub fn tokens(&mut self) -> (r: Result<Vec<Token>, LexError>)
        ensures
            final(self).input() == old(self).input(),
            match r {
                Ok(v) => lex_from(old(self).input(), old(self).pos()) == Ok::<
                    Seq<Token>,
                    LexError,
                >(v@) && tokens_wf(v@),
                Err(e) => lex_from(old(self).input(), old(self).pos()) == Err::<
                    Seq<Token>,
                    LexError,
                >(e),
            },
    {
        let ghost s = self.input();
        let ghost p0 = self.pos();
        let mut out: Vec<Token> = Vec::new();
        loop
            invariant
                s == old(self).input(),
                p0 == old(self).pos(),
                self.input() == s,
                0 <= self.pos(),
                tokens_wf(out@),
                match lex_from(s, self.pos()) {
                    Ok(ts) => lex_from(s, p0) == Ok::<Seq<Token>, LexError>(out@ + ts),
                    Err(e) => lex_from(s, p0) == Err::<Seq<Token>, LexError>(e),
                },
            decreases s.len() - self.pos() + 1,
        {
            match self.next_token() {
                Ok(Some(t)) => {
                    proof {
                        match lex_from(s, self.pos()) {
                            Ok(rest) => {
                                assert(out@ + (seq![t] + rest) =~= out@.push(t) + rest);
                            },
                            Err(_) => {},
                        }
                    }
                    out.push(t);
                },
                Ok(None) => {
                    proof {
                        assert(out@ + Seq::<Token>::empty() =~= out@);
                    }
                    return Ok(out);
                },
                Err(e) => {
                    return Err(e);
                },
            }
        }
    }
}

} // verus!
