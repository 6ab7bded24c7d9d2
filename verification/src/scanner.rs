//! Lexical scanner: turns source text into a sequence of tokens.
//!
//! The scanner walks the text once, left to right. Parentheses and `+` become
//! single tokens, runs of decimal digits become number tokens, runs started by
//! an alphabetic character become identifier tokens, and spaces and all other
//! unrecognized characters are silently skipped. A numeric literal that does
//! not fit in a `u64` is reported as an error.

use vstd::prelude::*;
use vstd::string::*;

use crate::numeral::decimal_digits;
use crate::numeral::digits_value;
use crate::numeral::is_digit;
use crate::numeral::is_digit_char;
use crate::numeral::lemma_digits_value_prefix;
use crate::numeral::u64_to_decimal;

verus! {

/// One lexical unit of the source text.
#[derive(Clone, Debug, PartialEq)]
pub enum Token {
    LeftParen,
    RightParen,
    Identifier(String),
    Number(u64),
}

/// The mathematical value of a token: identifier text as a character sequence.
pub enum TokenView {
    LeftParen,
    RightParen,
    Identifier(Seq<char>),
    Number(u64),
}

impl View for Token {
    type V = TokenView;

    open spec fn view(&self) -> TokenView {
        match self {
            Token::LeftParen => TokenView::LeftParen,
            Token::RightParen => TokenView::RightParen,
            Token::Identifier(name) => TokenView::Identifier(name@),
            Token::Number(value) => TokenView::Number(*value),
        }
    }
}

/// The textual description of a token, as in its debug formatting.
pub open spec fn token_desc(t: TokenView) -> Seq<char> {
    match t {
        TokenView::LeftParen => "LeftParen"@,
        TokenView::RightParen => "RightParen"@,
        TokenView::Identifier(name) => "Identifier(\""@ + name + "\")"@,
        TokenView::Number(value) => "Number("@ + decimal_digits(value as nat) + ")"@,
    }
}

impl Token {
    /// The textual description of this token.
    pub fn render(&self) -> (s: String)
        ensures
            s@ == token_desc(self@),
    {
        match self {
            Token::LeftParen => String::from_str("LeftParen"),
            Token::RightParen => String::from_str("RightParen"),
            Token::Identifier(name) => {
                let s = String::from_str("Identifier(\"").concat(name.as_str());
                s.concat("\")")
            },
            Token::Number(value) => {
                let digits = u64_to_decimal(*value);
                let s = String::from_str("Number(").concat(digits.as_str());
                s.concat(")")
            },
        }
    }
}

/// The views of a sequence of tokens, in order.
pub open spec fn views_of_tokens(ts: Seq<Token>) -> Seq<TokenView> {
    ts.map_values(|t: Token| t@)
}

pub proof fn lemma_views_of_tokens_push(ts: Seq<Token>, t: Token)
    ensures
        views_of_tokens(ts.push(t)) == views_of_tokens(ts).push(t@),
{
    assert(views_of_tokens(ts.push(t)) =~= views_of_tokens(ts).push(t@));
}

/// The error of the scanner: a numeric literal too large for a `u64`.
#[derive(Clone, Debug, PartialEq, Eq)]
pub enum ScanError {
    NumericOverflow,
}

/// Whether Rust's `char::is_alphabetic` holds of `c`.
pub uninterp spec fn char_is_alphabetic(c: char) -> bool;

/// Relies on `char::is_alphabetic`: whether the character has the Unicode
/// `Alphabetic` property, a function of the character alone.
#[verifier::external_body]
fn alphabetic(c: char) -> (r: bool)
    ensures
        r == char_is_alphabetic(c),
{
    c.is_alphabetic()
}

/// Relies on `String::push`: appends the given character to the string.
#[verifier::external_body]
fn push_char(s: &mut String, c: char)
    ensures
        final(s)@ == old(s)@.push(c),
{
    s.push(c);
}

/// The length of the longest prefix of `s` made of decimal digits.
pub open spec fn digit_run_len(s: Seq<char>) -> nat
    decreases s.len(),
{
    if s.len() == 0 || !is_digit_char(s[0]) {
        0
    } else {
        1 + digit_run_len(s.skip(1))
    }
}

/// The length of the longest prefix of `s` free of spaces and closing
/// parentheses: the characters an identifier absorbs.
pub open spec fn ident_run_len(s: Seq<char>) -> nat
    decreases s.len(),
{
    if s.len() == 0 || s[0] == ' ' || s[0] == ')' {
        0
    } else {
        1 + ident_run_len(s.skip(1))
    }
}

pub proof fn lemma_digit_run_len(s: Seq<char>)
    ensures
        digit_run_len(s) <= s.len(),
        forall|i: int| 0 <= i < digit_run_len(s) ==> is_digit_char(s[i]),
        digit_run_len(s) < s.len() ==> !is_digit_char(s[digit_run_len(s) as int]),
    decreases s.len(),
{
    if s.len() != 0 && is_digit_char(s[0]) {
        lemma_digit_run_len(s.skip(1));
        assert forall|i: int| 0 <= i < digit_run_len(s) implies is_digit_char(s[i]) by {
            if i >= 1 {
                assert(is_digit_char(s.skip(1)[i - 1]));
            }
        }
        if digit_run_len(s) < s.len() {
            assert(s[digit_run_len(s) as int] == s.skip(1)[digit_run_len(s.skip(1)) as int]);
        }
    }
}

pub proof fn lemma_ident_run_len(s: Seq<char>)
    ensures
        ident_run_len(s) <= s.len(),
        forall|i: int| 0 <= i < ident_run_len(s) ==> s[i] != ' ' && s[i] != ')',
        ident_run_len(s) < s.len() ==> s[ident_run_len(s) as int] == ' ' || s[ident_run_len(s) as int] == ')',
    decreases s.len(),
{
    if s.len() != 0 && s[0] != ' ' && s[0] != ')' {
        lemma_ident_run_len(s.skip(1));
        assert forall|i: int| 0 <= i < ident_run_len(s) implies s[i] != ' ' && s[i] != ')' by {
            if i >= 1 {
                assert(s.skip(1)[i - 1] != ' ' && s.skip(1)[i - 1] != ')');
            }
        }
        if ident_run_len(s) < s.len() {
            assert(s[ident_run_len(s) as int] == s.skip(1)[ident_run_len(s.skip(1)) as int]);
        }
    }
}

/// The tokens of the source text `s`, in source order.
///
/// The value of a number token is meaningful only when `scan_overflows(s)` is
/// false; the scanner reports an error in that case rather than a token list.
pub open spec fn scan_tokens(s: Seq<char>) -> Seq<TokenView>
    decreases s.len(),
    via scan_tokens_decreases
{
    if s.len() == 0 {
        Seq::empty()
    } else {
        let c = s[0];
        if c == '(' {
            seq![TokenView::LeftParen] + scan_tokens(s.skip(1))
        } else if c == ')' {
            seq![TokenView::RightParen] + scan_tokens(s.skip(1))
        } else if c == ' ' {
            scan_tokens(s.skip(1))
        } else if c == '+' {
            seq![TokenView::Identifier(seq!['+'])] + scan_tokens(s.skip(1))
        } else if is_digit_char(c) {
            let n = digit_run_len(s);
            seq![TokenView::Number(digits_value(s.take(n as int)) as u64)] + scan_tokens(
                s.skip(n as int),
            )
        } else if char_is_alphabetic(c) {
            let n = ident_run_len(s);
            seq![TokenView::Identifier(s.take(n as int))] + scan_tokens(s.skip(n as int))
        } else {
            scan_tokens(s.skip(1))
        }
    }
}

#[via_fn]
proof fn scan_tokens_decreases(s: Seq<char>) {
    lemma_digit_run_len(s);
    lemma_ident_run_len(s);
}

/// Whether the source text `s` holds a numeric literal whose value does not
/// fit in a `u64`.
pub open spec fn scan_overflows(s: Seq<char>) -> bool
    decreases s.len(),
    via scan_overflows_decreases
{
    if s.len() == 0 {
        false
    } else {
        let c = s[0];
        if c == '(' || c == ')' || c == ' ' || c == '+' {
            scan_overflows(s.skip(1))
        } else if is_digit_char(c) {
            let n = digit_run_len(s);
            digits_value(s.take(n as int)) > u64::MAX || scan_overflows(s.skip(n as int))
        } else if char_is_alphabetic(c) {
            scan_overflows(s.skip(ident_run_len(s) as int))
        } else {
            scan_overflows(s.skip(1))
        }
    }
}

#[via_fn]
proof fn scan_overflows_decreases(s: Seq<char>) {
    lemma_digit_run_len(s);
    lemma_ident_run_len(s);
}

/// Single-pass tokenizer over the source text.
pub struct Scanner {
    pub tokens: Vec<Token>,
    chars: Vec<char>,
    pos: usize,
}

impl Scanner {
    /// The characters of the source text not yet consumed.
    pub closed spec fn remaining(&self) -> Seq<char> {
        if self.pos <= self.chars@.len() {
            self.chars@.skip(self.pos as int)
        } else {
            Seq::empty()
        }
    }

    /// The views of the tokens emitted so far.
    pub closed spec fn emitted(&self) -> Seq<TokenView> {
        views_of_tokens(self.tokens@)
    }

    pub fn new(code: &str) -> (s: Scanner)
        ensures
            s.emitted() == Seq::<TokenView>::empty(),
            s.remaining() == code@,
    {
        let n = code.unicode_len();
        let mut chars: Vec<char> = Vec::new();
        let mut i: usize = 0;
        while i < n
            invariant
                i <= n,
                n == code@.len(),
                chars@ == code@.take(i as int),
            decreases n - i,
        {
            let c = code.get_char(i);
            chars.push(c);
            proof {
                assert(chars@ =~= code@.take(i as int + 1));
            }
            i += 1;
        }
        proof {
            assert(code@.take(n as int) =~= code@);
        }
        let s = Scanner { tokens: Vec::new(), chars, pos: 0 };
        proof {
            assert(s.remaining() =~= code@);
            assert(s.emitted() =~= Seq::<TokenView>::empty());
        }
        s
    }

    /// Pushes a token and steps past the single character that produced it.
    fn add_token(&mut self, token: Token)
        requires
            old(self).pos < old(self).chars@.len(),
        ensures
            final(self).chars@ == old(self).chars@,
            final(self).pos == old(self).pos + 1,
            final(self).tokens@ == old(self).tokens@.push(token),
    {
        self.tokens.push(token);
        let n = self.chars.len();
        proof {
            assert(self.pos < n);
        }
        self.pos = self.pos + 1;
    }

    /// Consumes a run of decimal digits and emits its value as a number
    /// token, or reports overflow of `u64`.
    fn number(&mut self) -> (r: Result<(), ScanError>)
        requires
            old(self).pos < old(self).chars@.len(),
            is_digit_char(old(self).chars@[old(self).pos as int]),
        ensures
            final(self).chars@ == old(self).chars@,
            ({
                let rem = old(self).remaining();
                let n = digit_run_len(rem);
                match r {
                    Ok(()) => digits_value(rem.take(n as int)) <= u64::MAX
                        && final(self).pos == old(self).pos + n
                        && views_of_tokens(final(self).tokens@) == views_of_tokens(
                        old(self).tokens@,
                    ).push(TokenView::Number(digits_value(rem.take(n as int)) as u64)),
                    Err(e) => digits_value(rem.take(n as int)) > u64::MAX && e
                        == ScanError::NumericOverflow,
                }
            }),
    {
        let ghost rem: Seq<char> = self.chars@.skip(self.pos as int);
        let ghost n: nat = digit_run_len(rem);
        let ghost pos0: int = self.pos as int;
        proof {
            lemma_digit_run_len(rem);
        }
        let mut value: u64 = 0;
        while self.pos < self.chars.len() && is_digit(self.chars[self.pos])
            invariant
                self.chars@ == old(self).chars@,
                self.tokens@ == old(self).tokens@,
                rem == self.chars@.skip(pos0),
                pos0 == old(self).pos,
                n == digit_run_len(rem),
                digit_run_len(rem) <= rem.len(),
                forall|i: int| 0 <= i < n ==> is_digit_char(rem[i]),
                n < rem.len() ==> !is_digit_char(rem[n as int]),
                pos0 <= self.pos <= self.chars@.len(),
                self.pos - pos0 <= n,
                value == digits_value(rem.take(self.pos - pos0)),
            decreases self.chars@.len() - self.pos,
        {
            let ghost k: int = self.pos - pos0;
            let c = self.chars[self.pos];
            proof {
                assert(rem[k] == c);
                if k == n {
                    assert(pos0 + n < self.chars@.len());
                    assert(!is_digit_char(rem[n as int]));
                    assert(false);
                }
                assert(k + 1 <= n);
                assert(rem.take(k + 1).drop_last() =~= rem.take(k));
                assert(rem.take(k + 1).last() == rem[k]);
            }
            let u: u32 = c as u32;
            let d: u64 = (u - 48) as u64;
            proof {
                assert(digits_value(rem.take(k + 1)) == digits_value(rem.take(k)) * 10 + d);
            }
            if value > (u64::MAX - d) / 10 {
                proof {
                    let m: int = u64::MAX - d;
                    assert(m == 10 * (m / 10) + m % 10) by {
                        vstd::arithmetic::div_mod::lemma_fundamental_div_mod(m, 10);
                    }
                    assert(0 <= m % 10 < 10);
                    assert(10 * (value as int) + d > u64::MAX);
                    assert(digits_value(rem.take(k + 1)) > u64::MAX);
                    assert(rem.take(n as int).take(k + 1) =~= rem.take(k + 1));
                    lemma_digits_value_prefix(rem.take(n as int), k + 1);
                }
                return Err(ScanError::NumericOverflow);
            }
            proof {
                let m: int = u64::MAX - d;
                assert(m == 10 * (m / 10) + m % 10) by {
                    vstd::arithmetic::div_mod::lemma_fundamental_div_mod(m, 10);
                }
                assert(0 <= m % 10 < 10);
                assert((value as int) * 10 + d <= u64::MAX);
            }
            value = value * 10 + d;
            self.pos = self.pos + 1;
        }
        proof {
            let k: int = self.pos - pos0;
            if k < n {
                assert(is_digit_char(rem[k]));
                assert(pos0 + k < self.chars@.len());
                assert(false);
            }
            assert(k == n);
        }
        self.tokens.push(Token::Number(value));
        proof {
            lemma_views_of_tokens_push(old(self).tokens@, Token::Number(value));
            assert(digits_value(rem.take(n as int)) as u64 == value);
        }
        Ok(())
    }

    /// Consumes a run of characters free of spaces and closing parentheses
    /// and emits it as an identifier token.
    fn identifier(&mut self)
        requires
            old(self).pos <= old(self).chars@.len(),
        ensures
            final(self).chars@ == old(self).chars@,
            ({
                let rem = old(self).remaining();
                let n = ident_run_len(rem);
                final(self).pos == old(self).pos + n && views_of_tokens(final(self).tokens@)
                    == views_of_tokens(old(self).tokens@).push(
                    TokenView::Identifier(rem.take(n as int)),
                )
            }),
    {
        let ghost rem: Seq<char> = self.chars@.skip(self.pos as int);
        let ghost n: nat = ident_run_len(rem);
        let ghost pos0: int = self.pos as int;
        proof {
            lemma_ident_run_len(rem);
        }
        let mut name = String::new();
        while self.pos < self.chars.len() && self.chars[self.pos] != ' ' && self.chars[self.pos]
            != ')'
            invariant
                self.chars@ == old(self).chars@,
                self.tokens@ == old(self).tokens@,
                rem == self.chars@.skip(pos0),
                pos0 == old(self).pos,
                n == ident_run_len(rem),
                ident_run_len(rem) <= rem.len(),
                forall|i: int| 0 <= i < n ==> rem[i] != ' ' && rem[i] != ')',
                n < rem.len() ==> rem[n as int] == ' ' || rem[n as int] == ')',
                pos0 <= self.pos <= self.chars@.len(),
                self.pos - pos0 <= n,
                name@ == rem.take(self.pos - pos0),
            decreases self.chars@.len() - self.pos,
        {
            let ghost k: int = self.pos - pos0;
            let c = self.chars[self.pos];
            proof {
                assert(rem[k] == c);
                if k == n {
                    assert(false);
                }
                assert(rem.take(k + 1) =~= rem.take(k).push(rem[k]));
            }
            push_char(&mut name, c);
            self.pos = self.pos + 1;
        }
        proof {
            let k: int = self.pos - pos0;
            if k < n {
                assert(rem[k] != ' ' && rem[k] != ')');
                assert(false);
            }
            assert(k == n);
        }
        self.tokens.push(Token::Identifier(name));
        proof {
            lemma_views_of_tokens_push(old(self).tokens@, Token::Identifier(name));
        }
    }

    /// Tokenizes the whole remaining source text.
    ///
    /// Consumes the scanner, so a scanner cannot be used twice. Returns the
    /// accumulated tokens, or an error if a numeric literal overflows `u64`.
    pub fn scan(self) -> (r: Result<Vec<Token>, ScanError>)
        ensures
            ({
                let toks0 = self.emitted();
                let rem = self.remaining();
                match r {
                    Ok(ts) => !scan_overflows(rem) && views_of_tokens(ts@) == toks0 + scan_tokens(
                        rem,
                    ),
                    Err(e) => scan_overflows(rem) && e == ScanError::NumericOverflow,
                }
            }),
    {
        let mut this = self;
        while this.pos < this.chars.len()
            invariant
                this.chars@ == self.chars@,
                views_of_tokens(this.tokens@) + scan_tokens(this.remaining()) == views_of_tokens(
                    self.tokens@,
                ) + scan_tokens(self.remaining()),
                scan_overflows(this.remaining()) == scan_overflows(self.remaining()),
            decreases this.chars@.len() - this.pos,
        {
            let ghost rem: Seq<char> = this.chars@.skip(this.pos as int);
            let ghost toks_pre: Seq<Token> = this.tokens@;
            proof {
                assert(rem[0] == this.chars@[this.pos as int]);
                assert(this.chars@.skip(this.pos as int + 1) =~= rem.skip(1));
            }
            let c = this.chars[this.pos];
            if c == '(' {
                this.add_token(Token::LeftParen);
                proof {
                    lemma_views_of_tokens_push(toks_pre, Token::LeftParen);
                    assert(views_of_tokens(this.tokens@) + scan_tokens(this.remaining())
                        =~= views_of_tokens(toks_pre) + scan_tokens(rem));
                }
            } else if c == ')' {
                this.add_token(Token::RightParen);
                proof {
                    lemma_views_of_tokens_push(toks_pre, Token::RightParen);
                    assert(views_of_tokens(this.tokens@) + scan_tokens(this.remaining())
                        =~= views_of_tokens(toks_pre) + scan_tokens(rem));
                }
            } else if c == ' ' {
                this.pos = this.pos + 1;
            } else if c == '+' {
                let name = String::from_str("+");
                proof {
                    reveal_strlit("+");
                    assert(name@ =~= seq!['+']);
                }
                this.add_token(Token::Identifier(name));
                proof {
                    lemma_views_of_tokens_push(toks_pre, Token::Identifier(name));
                    assert(views_of_tokens(this.tokens@) + scan_tokens(this.remaining())
                        =~= views_of_tokens(toks_pre) + scan_tokens(rem));
                }
            } else if is_digit(c) {
                proof {
                    lemma_digit_run_len(rem);
                    assert(this.remaining() == rem);
                }
                let ghost n: nat = digit_run_len(rem);
                match this.number() {
                    Ok(()) => {
                        proof {
                            assert(this.chars@.skip(this.pos as int) =~= rem.skip(n as int));
                            assert(views_of_tokens(this.tokens@) + scan_tokens(this.remaining())
                                =~= views_of_tokens(toks_pre) + scan_tokens(rem));
                        }
                    },
                    Err(e) => {
                        proof {
                            assert(scan_overflows(rem));
                        }
                        return Err(e);
                    },
                }
            } else if alphabetic(c) {
                proof {
                    lemma_ident_run_len(rem);
                    assert(this.remaining() == rem);
                }
                let ghost n: nat = ident_run_len(rem);
                this.identifier();
                proof {
                    assert(this.chars@.skip(this.pos as int) =~= rem.skip(n as int));
                    assert(views_of_tokens(this.tokens@) + scan_tokens(this.remaining())
                        =~= views_of_tokens(toks_pre) + scan_tokens(rem));
                }
            } else {
                this.pos = this.pos + 1;
            }
        }
        proof {
            assert(this.remaining() =~= Seq::<char>::empty());
            assert(views_of_tokens(this.tokens@) + scan_tokens(this.remaining())
                =~= views_of_tokens(this.tokens@));
            assert(views_of_tokens(self.tokens@) + scan_tokens(self.remaining())
                == views_of_tokens(this.tokens@));
        }
        Ok(this.tokens)
    }
}

} // verus!
