//! Recursive-descent parser: turns the token sequence produced by the
//! scanner into an abstract syntax tree, following the grammar
//!
//! ```text
//! expression -> atom | list
//! list       -> "(" expression* ")"
//! atom       -> NUMBER | IDENTIFIER
//! ```
//!
//! The tree can be rendered as text: numbers as their decimal digits,
//! identifiers wrapped in double quotes, lists in square brackets with
//! comma-separated items.

use vstd::prelude::*;
use vstd::string::*;

use crate::numeral::decimal_digits;
use crate::numeral::u64_to_decimal;
use crate::scanner::scan_overflows;
use crate::scanner::scan_tokens;
use crate::scanner::token_desc;
use crate::scanner::views_of_tokens;
use crate::scanner::Token;
use crate::scanner::TokenView;

verus! {

/// The parser's error: the current or required token does not match the
/// grammar position being parsed.
#[derive(Debug)]
pub enum ParseError {
    UnexpectedToken(String),
}

impl View for ParseError {
    type V = Seq<char>;

    open spec fn view(&self) -> Seq<char> {
        match self {
            ParseError::UnexpectedToken(desc) => desc@,
        }
    }
}

impl ParseError {
    /// The user-facing message for this error.
    pub fn render(&self) -> (s: String)
        ensures
            s@ == "Unexpected token: "@ + self@,
    {
        match self {
            ParseError::UnexpectedToken(desc) => String::from_str("Unexpected token: ").concat(
                desc.as_str(),
            ),
        }
    }
}

/// A leaf value: an identifier's text or an unsigned number.
#[derive(Debug)]
pub enum AtomValue {
    String(String),
    Number(u64),
}

/// The mathematical value of an atom.
pub enum AtomView {
    Str(Seq<char>),
    Num(u64),
}

impl View for AtomValue {
    type V = AtomView;

    open spec fn view(&self) -> AtomView {
        match self {
            AtomValue::String(text) => AtomView::Str(text@),
            AtomValue::Number(value) => AtomView::Num(*value),
        }
    }
}

/// An expression: an ordered list of sub-expressions or a leaf atom.
#[derive(Debug)]
pub enum Expr {
    List(Vec<Expr>),
    Atom(AtomValue),
}

/// The mathematical value of an expression tree.
pub enum ExprView {
    List(Seq<ExprView>),
    Atom(AtomView),
}

/// The view of an expression tree.
pub open spec fn expr_view(e: Expr) -> ExprView
    decreases e,
{
    match e {
        Expr::List(items) => ExprView::List(exprs_view(items@)),
        Expr::Atom(a) => ExprView::Atom(a@),
    }
}

/// The views of a sequence of expressions, in order.
pub open spec fn exprs_view(es: Seq<Expr>) -> Seq<ExprView>
    decreases es,
{
    if es.len() == 0 {
        Seq::empty()
    } else {
        seq![expr_view(es[0])] + exprs_view(es.subrange(1, es.len() as int))
    }
}

impl View for Expr {
    type V = ExprView;

    open spec fn view(&self) -> ExprView {
        expr_view(*self)
    }
}

pub proof fn lemma_exprs_view(es: Seq<Expr>)
    ensures
        exprs_view(es).len() == es.len(),
        forall|i: int| 0 <= i < es.len() ==> exprs_view(es)[i] == expr_view(es[i]),
    decreases es.len(),
{
    if es.len() > 0 {
        lemma_exprs_view(es.subrange(1, es.len() as int));
        assert forall|i: int| 0 <= i < es.len() implies exprs_view(es)[i] == expr_view(es[i]) by {
            if i >= 1 {
                assert(exprs_view(es.subrange(1, es.len() as int))[i - 1] == expr_view(
                    es.subrange(1, es.len() as int)[i - 1],
                ));
            }
        }
    }
}

pub proof fn lemma_exprs_view_push(es: Seq<Expr>, e: Expr)
    ensures
        exprs_view(es.push(e)) == exprs_view(es).push(expr_view(e)),
{
    lemma_exprs_view(es);
    lemma_exprs_view(es.push(e));
    assert(exprs_view(es.push(e)) =~= exprs_view(es).push(expr_view(e)));
}

/// The rendering of an atom: decimal digits for a number, the text wrapped
/// in double quotes for an identifier.
pub open spec fn render_atom(a: AtomView) -> Seq<char> {
    match a {
        AtomView::Str(text) => "\""@ + text + "\""@,
        AtomView::Num(value) => decimal_digits(value as nat),
    }
}

/// The rendering of an expression tree.
pub open spec fn render_expr(e: ExprView) -> Seq<char>
    decreases e,
{
    match e {
        ExprView::Atom(a) => render_atom(a),
        ExprView::List(items) => "["@ + render_list(items) + "]"@,
    }
}

/// The comma-and-space-separated renderings of a list's items.
pub open spec fn render_list(items: Seq<ExprView>) -> Seq<char>
    decreases items,
{
    if items.len() == 0 {
        Seq::empty()
    } else if items.len() == 1 {
        render_expr(items[0])
    } else {
        render_expr(items[0]) + ", "@ + render_list(items.subrange(1, items.len() as int))
    }
}

pub proof fn lemma_render_list_push(items: Seq<ExprView>, e: ExprView)
    ensures
        render_list(items.push(e)) == if items.len() == 0 {
            render_expr(e)
        } else {
            render_list(items) + ", "@ + render_expr(e)
        },
    decreases items.len(),
{
    let p = items.push(e);
    if items.len() == 0 {
        assert(p.len() == 1);
        assert(p[0] == e);
    } else {
        let tail = items.subrange(1, items.len() as int);
        assert(p[0] == items[0]);
        assert(p.subrange(1, p.len() as int) =~= tail.push(e));
        lemma_render_list_push(tail, e);
        if items.len() == 1 {
            assert(render_list(p) == render_expr(items[0]) + ", "@ + render_expr(e));
        } else {
            assert(render_list(p) =~= render_list(items) + ", "@ + render_expr(e));
        }
    }
}

impl AtomValue {
    /// The rendering of this atom.
    pub fn render(&self) -> (s: String)
        ensures
            s@ == render_atom(self@),
    {
        match self {
            AtomValue::Number(value) => u64_to_decimal(*value),
            AtomValue::String(text) => {
                let s = String::from_str("\"").concat(text.as_str());
                s.concat("\"")
            },
        }
    }
}

impl Expr {
    /// The rendering of this expression tree.
    pub fn render(&self) -> (s: String)
        ensures
            s@ == render_expr(self@),
        decreases *self,
    {
        match self {
            Expr::Atom(a) => a.render(),
            Expr::List(items) => {
                let ghost vs: Seq<ExprView> = exprs_view(items@);
                proof {
                    lemma_exprs_view(items@);
                    assert(self@ == ExprView::List(vs));
                }
                let mut out = String::from_str("[");
                let mut idx: usize = 0;
                proof {
                    assert(vs.take(0) =~= Seq::<ExprView>::empty());
                }
                while idx < items.len()
                    invariant
                        idx <= items.len(),
                        *self == Expr::List(*items),
                        vs == exprs_view(items@),
                        vs.len() == items@.len(),
                        forall|i: int| 0 <= i < items@.len() ==> vs[i] == expr_view(items@[i]),
                        out@ == "["@ + render_list(vs.take(idx as int)),
                    decreases items@.len() - idx,
                {
                    if idx > 0 {
                        out.append(", ");
                    }
                    proof {
                        assert(*items == (*self)->List_0);
                        assert(decreases_to!(*self => (*self)->List_0));
                        assert(decreases_to!(*items => items@));
                        assert(decreases_to!(items@ => items@[idx as int]));
                        assert(decreases_to!(*self => items@[idx as int]));
                    }
                    let piece = items[idx].render();
                    out.append(piece.as_str());
                    proof {
                        let k: int = idx as int;
                        assert(vs.take(k + 1) =~= vs.take(k).push(vs[k]));
                        lemma_render_list_push(vs.take(k), vs[k]);
                        assert(out@ =~= "["@ + render_list(vs.take(k + 1)));
                    }
                    idx = idx + 1;
                }
                proof {
                    assert(vs.take(items@.len() as int) =~= vs);
                }
                out.concat("]")
            },
        }
    }
}

/// The expression starting at token index `i`, with explicit recursion
/// fuel: the pair of its tree and the index just past it, or the description
/// of the offending token.
///
/// `None` means the fuel ran out; any fuel above the number of tokens still
/// ahead of `i` is enough (`lemma_parse_fuel`), so `spec_expression` below
/// never runs out.
pub open spec fn spec_expression_fueled(toks: Seq<TokenView>, i: nat, fuel: nat) -> Option<
    Result<(ExprView, nat), Seq<char>>,
>
    decreases fuel, 0nat,
{
    if i >= toks.len() {
        Some(Ok((ExprView::List(Seq::empty()), i)))
    } else {
        match toks[i as int] {
            TokenView::LeftParen => if fuel == 0 {
                None
            } else {
                match spec_items_fueled(toks, (i + 1) as nat, (fuel - 1) as nat) {
                    None => None,
                    Some(Ok((items, j))) => Some(Ok((ExprView::List(items), j))),
                    Some(Err(desc)) => Some(Err(desc)),
                }
            },
            TokenView::Identifier(name) => Some(
                Ok((ExprView::Atom(AtomView::Str(name)), (i + 1) as nat)),
            ),
            TokenView::Number(value) => Some(
                Ok((ExprView::Atom(AtomView::Num(value)), (i + 1) as nat)),
            ),
            TokenView::RightParen => Some(Err(token_desc(TokenView::RightParen))),
        }
    }
}

/// The run of expressions from token index `i` up to and including a
/// closing parenthesis, with explicit recursion fuel.
pub open spec fn spec_items_fueled(toks: Seq<TokenView>, i: nat, fuel: nat) -> Option<
    Result<(Seq<ExprView>, nat), Seq<char>>,
>
    decreases fuel, 1nat,
{
    if i >= toks.len() {
        Some(Err(token_desc(TokenView::RightParen)))
    } else if toks[i as int] == TokenView::RightParen {
        Some(Ok((Seq::empty(), (i + 1) as nat)))
    } else {
        match spec_expression_fueled(toks, i, fuel) {
            None => None,
            Some(Err(desc)) => Some(Err(desc)),
            Some(Ok((e, j))) => if fuel == 0 {
                None
            } else {
                match spec_items_fueled(toks, j, (fuel - 1) as nat) {
                    None => None,
                    Some(Err(desc)) => Some(Err(desc)),
                    Some(Ok((rest, k))) => Some(Ok((seq![e] + rest, k))),
                }
            },
        }
    }
}

/// Any fuel above the number of tokens ahead of `i` is enough: the result is
/// defined, independent of the exact fuel, and its index moves forward and
/// stays within bounds.
pub proof fn lemma_parse_fuel(toks: Seq<TokenView>, i: nat, fuel1: nat, fuel2: nat)
    requires
        i <= toks.len(),
        fuel1 > toks.len() - i,
        fuel2 > toks.len() - i,
    ensures
        spec_expression_fueled(toks, i, fuel1) is Some,
        spec_expression_fueled(toks, i, fuel1) == spec_expression_fueled(toks, i, fuel2),
        (match spec_expression_fueled(toks, i, fuel1) {
            Some(Ok((e, j))) => i <= j <= toks.len() && (i < toks.len() ==> i < j),
            _ => true,
        }),
        spec_items_fueled(toks, i, fuel1) is Some,
        spec_items_fueled(toks, i, fuel1) == spec_items_fueled(toks, i, fuel2),
        (match spec_items_fueled(toks, i, fuel1) {
            Some(Ok((items, j))) => i < j <= toks.len(),
            _ => true,
        }),
    decreases fuel1,
{
    let len = toks.len();
    if i < len {
        match toks[i as int] {
            TokenView::LeftParen => {
                lemma_parse_fuel(toks, (i + 1) as nat, (fuel1 - 1) as nat, (fuel2 - 1) as nat);
            },
            _ => {},
        }
    }
    if i < len && toks[i as int] != TokenView::RightParen {
        match spec_expression_fueled(toks, i, fuel1) {
            Some(Ok((e, j))) => {
                lemma_parse_fuel(toks, j, (fuel1 - 1) as nat, (fuel2 - 1) as nat);
            },
            _ => {},
        }
    }
}

/// The expression starting at token index `i`: the pair of its tree and the
/// index just past it, or the description of the offending token.
///
/// At the end of the tokens the result is an empty list, so empty input
/// parses successfully.
pub open spec fn spec_expression(toks: Seq<TokenView>, i: nat) -> Result<
    (ExprView, nat),
    Seq<char>,
> {
    match spec_expression_fueled(toks, i, (toks.len() + 1) as nat) {
        Some(r) => r,
        None => arbitrary(),
    }
}

/// The run of expressions from token index `i` up to and including a
/// closing parenthesis.
pub open spec fn spec_items(toks: Seq<TokenView>, i: nat) -> Result<
    (Seq<ExprView>, nat),
    Seq<char>,
> {
    match spec_items_fueled(toks, i, (toks.len() + 1) as nat) {
        Some(r) => r,
        None => arbitrary(),
    }
}

/// The result of parsing a token sequence: its first complete expression.
/// Tokens after that expression are ignored.
pub open spec fn spec_parse(toks: Seq<TokenView>) -> Result<ExprView, Seq<char>> {
    match spec_expression(toks, 0) {
        Ok((e, j)) => Ok(e),
        Err(desc) => Err(desc),
    }
}

/// `spec_expression` unfolded one grammar step.
pub proof fn lemma_spec_expression_unfold(toks: Seq<TokenView>, i: nat)
    requires
        i <= toks.len(),
    ensures
        i == toks.len() ==> spec_expression(toks, i) == Ok::<(ExprView, nat), Seq<char>>(
            (ExprView::List(Seq::empty()), i),
        ),
        i < toks.len() ==> spec_expression(toks, i) == (match toks[i as int] {
            TokenView::LeftParen => (match spec_items(toks, (i + 1) as nat) {
                Ok((items, j)) => Ok((ExprView::List(items), j)),
                Err(desc) => Err(desc),
            }),
            TokenView::Identifier(name) => Ok(
                (ExprView::Atom(AtomView::Str(name)), (i + 1) as nat),
            ),
            TokenView::Number(value) => Ok((ExprView::Atom(AtomView::Num(value)), (i + 1) as nat)),
            TokenView::RightParen => Err(token_desc(TokenView::RightParen)),
        }),
{
    let len = toks.len();
    lemma_parse_fuel(toks, i, (len + 1) as nat, (len + 1) as nat);
    if i < len && toks[i as int] is LeftParen {
        lemma_parse_fuel(toks, (i + 1) as nat, len as nat, (len + 1) as nat);
    }
}

/// `spec_items` unfolded one grammar step.
pub proof fn lemma_spec_items_unfold(toks: Seq<TokenView>, i: nat)
    requires
        i <= toks.len(),
    ensures
        i == toks.len() ==> spec_items(toks, i) == Err::<(Seq<ExprView>, nat), Seq<char>>(
            token_desc(TokenView::RightParen),
        ),
        i < toks.len() && toks[i as int] == TokenView::RightParen ==> spec_items(toks, i)
            == Ok::<(Seq<ExprView>, nat), Seq<char>>((Seq::empty(), (i + 1) as nat)),
        i < toks.len() && toks[i as int] != TokenView::RightParen ==> spec_items(toks, i) == (
        match spec_expression(toks, i) {
            Ok((e, j)) => (match spec_items(toks, j) {
                Ok((rest, k)) => Ok((seq![e] + rest, k)),
                Err(desc) => Err(desc),
            }),
            Err(desc) => Err(desc),
        }),
{
    let len = toks.len();
    lemma_parse_fuel(toks, i, (len + 1) as nat, (len + 1) as nat);
    if i < len && toks[i as int] != TokenView::RightParen {
        match spec_expression_fueled(toks, i, (len + 1) as nat) {
            Some(Ok((e, j))) => {
                lemma_parse_fuel(toks, j, len as nat, (len + 1) as nat);
            },
            _ => {},
        }
    }
}

/// The index in a successful `spec_expression` result moves forward and
/// stays within the token sequence.
pub proof fn lemma_spec_expression_bounds(toks: Seq<TokenView>, i: nat)
    requires
        i <= toks.len(),
    ensures
        (match spec_expression(toks, i) {
            Ok((e, j)) => i <= j <= toks.len() && (i < toks.len() ==> i < j),
            Err(_) => true,
        }),
{
    lemma_parse_fuel(toks, i, (toks.len() + 1) as nat, (toks.len() + 1) as nat);
}

/// The index in a successful `spec_items` result moves forward and stays
/// within the token sequence.
pub proof fn lemma_spec_items_bounds(toks: Seq<TokenView>, i: nat)
    requires
        i <= toks.len(),
    ensures
        (match spec_items(toks, i) {
            Ok((items, j)) => i < j <= toks.len(),
            Err(_) => true,
        }),
{
    lemma_parse_fuel(toks, i, (toks.len() + 1) as nat, (toks.len() + 1) as nat);
}

/// Recursive-descent parser over an immutable token buffer, with a cursor
/// that only moves forward.
pub struct Parser {
    token_index: usize,
    tokens: Vec<Token>,
}

impl Parser {
    /// The views of the tokens being parsed.
    pub closed spec fn toks(&self) -> Seq<TokenView> {
        views_of_tokens(self.tokens@)
    }

    /// The current position in the token sequence.
    pub closed spec fn cursor(&self) -> nat {
        self.token_index as nat
    }

    #[verifier::type_invariant]
    closed spec fn wf(self) -> bool {
        self.token_index <= self.tokens@.len()
    }

    pub fn new(tokens: Vec<Token>) -> (p: Parser)
        ensures
            p.toks() == views_of_tokens(tokens@),
            p.cursor() == 0,
    {
        Parser { tokens, token_index: 0 }
    }

    /// A copy of the token `t`.
    fn clone_token(t: &Token) -> (r: Token)
        ensures
            r@ == t@,
    {
        match t {
            Token::LeftParen => Token::LeftParen,
            Token::RightParen => Token::RightParen,
            Token::Identifier(name) => Token::Identifier(name.clone()),
            Token::Number(value) => Token::Number(*value),
        }
    }

    /// Whether two tokens are the same lexical unit.
    fn token_eq(a: &Token, b: &Token) -> (r: bool)
        ensures
            r == (a@ == b@),
    {
        match (a, b) {
            (Token::LeftParen, Token::LeftParen) => true,
            (Token::RightParen, Token::RightParen) => true,
            (Token::Identifier(x), Token::Identifier(y)) => *x == *y,
            (Token::Number(x), Token::Number(y)) => *x == *y,
            _ => false,
        }
    }

    /// The token under the cursor, if any, without consuming it.
    fn current_token(&self) -> (r: Option<Token>)
        ensures
            (match r {
                Some(t) => self.cursor() < self.toks().len() && t@ == self.toks()[self.cursor() as int],
                None => self.cursor() >= self.toks().len(),
            }),
    {
        proof {
            use_type_invariant(&*self);
        }
        if self.token_index < self.tokens.len() {
            Some(Self::clone_token(&self.tokens[self.token_index]))
        } else {
            None
        }
    }

    /// Steps the cursor past the current token if it equals `token`;
    /// otherwise reports the expected token as unexpected.
    fn consume(&mut self, token: Token) -> (r: Result<(), ParseError>)
        ensures
            final(self).toks() == old(self).toks(),
            (if old(self).cursor() < old(self).toks().len()
                && old(self).toks()[old(self).cursor() as int] == token@ {
                r is Ok && final(self).cursor() == old(self).cursor() + 1
            } else {
                (r matches Err(e) && e@ == token_desc(token@))
                    && final(self).cursor() == old(self).cursor()
            }),
    {
        proof {
            use_type_invariant(&*self);
        }
        let mut matched = false;
        if self.token_index < self.tokens.len() {
            let current = &self.tokens[self.token_index];
            if Self::token_eq(current, &token) {
                matched = true;
            }
        }
        if matched {
            self.token_index = self.token_index + 1;
            Ok(())
        } else {
            Err(ParseError::UnexpectedToken(token.render()))
        }
    }

    /// Steps the cursor past the current token.
    fn advance(&mut self)
        requires
            old(self).cursor() < old(self).toks().len(),
        ensures
            final(self).toks() == old(self).toks(),
            final(self).cursor() == old(self).cursor() + 1,
    {
        proof {
            use_type_invariant(&*self);
        }
        let n = self.tokens.len();
        proof {
            assert(self.token_index < n);
        }
        self.token_index = self.token_index + 1;
    }

    /// Whether the loop over a list's items must stop: the tokens are
    /// exhausted or the current token closes the list.
    fn at_list_end(&self) -> (r: bool)
        ensures
            r == (self.cursor() >= self.toks().len() || self.toks()[self.cursor() as int]
                == TokenView::RightParen),
    {
        proof {
            use_type_invariant(&*self);
        }
        if self.token_index < self.tokens.len() {
            match &self.tokens[self.token_index] {
                Token::RightParen => true,
                _ => false,
            }
        } else {
            true
        }
    }

    /// Parses a parenthesized list: a `(`, the item expressions, and a `)`.
    fn list(&mut self) -> (r: Result<Vec<Expr>, ParseError>)
        ensures
            final(self).toks() == old(self).toks(),
            old(self).cursor() <= final(self).cursor(),
            (if old(self).cursor() < old(self).toks().len()
                && old(self).toks()[old(self).cursor() as int] == TokenView::LeftParen {
                match spec_items(old(self).toks(), (old(self).cursor() + 1) as nat) {
                    Ok((items, j)) => (r matches Ok(es) && exprs_view(es@) == items)
                        && final(self).cursor() == j,
                    Err(desc) => (r matches Err(e) && e@ == desc),
                }
            } else {
                (r matches Err(e) && e@ == token_desc(TokenView::LeftParen))
            }),
        decreases old(self).toks().len() - old(self).cursor(), 0nat,
    {
        proof {
            use_type_invariant(&*self);
        }
        let ghost toks: Seq<TokenView> = self.toks();
        let ghost c0: nat = self.cursor();
        match self.consume(Token::LeftParen) {
            Err(e) => {
                return Err(e);
            },
            Ok(()) => {},
        }
        let mut expressions: Vec<Expr> = Vec::new();
        proof {
            assert(exprs_view(expressions@) =~= Seq::<ExprView>::empty());
            match spec_items(toks, (c0 + 1) as nat) {
                Ok((rest, k)) => {
                    assert(exprs_view(expressions@) + rest =~= rest);
                },
                Err(desc) => {},
            }
        }
        while !self.at_list_end()
            invariant
                old(self).toks() == toks,
                old(self).cursor() == c0,
                c0 < toks.len(),
                toks[c0 as int] == TokenView::LeftParen,
                self.toks() == toks,
                self.cursor() <= toks.len(),
                c0 + 1 <= self.cursor(),
                spec_items(toks, (c0 + 1) as nat) == (match spec_items(toks, self.cursor()) {
                    Ok((rest, k)) => Ok::<(Seq<ExprView>, nat), Seq<char>>(
                        (exprs_view(expressions@) + rest, k),
                    ),
                    Err(desc) => Err(desc),
                }),
            decreases toks.len() - self.cursor(),
        {
            let ghost c: nat = self.cursor();
            let ghost es_pre: Seq<Expr> = expressions@;
            proof {
                lemma_spec_items_unfold(toks, c);
                lemma_spec_expression_bounds(toks, c);
            }
            match self.expression() {
                Err(e) => {
                    return Err(e);
                },
                Ok(expr) => {
                    expressions.push(expr);
                    proof {
                        lemma_exprs_view_push(es_pre, expr);
                        lemma_spec_items_bounds(toks, self.cursor());
                        assert(spec_items(toks, (c0 + 1) as nat) == (match spec_items(
                            toks,
                            self.cursor(),
                        ) {
                            Ok((rest, k)) => Ok::<(Seq<ExprView>, nat), Seq<char>>(
                                (exprs_view(expressions@) + rest, k),
                            ),
                            Err(desc) => Err(desc),
                        })) by {
                            match spec_items(toks, self.cursor()) {
                                Ok((rest, k)) => {
                                    assert(exprs_view(es_pre) + (seq![expr_view(expr)] + rest)
                                        =~= exprs_view(expressions@) + rest);
                                },
                                Err(desc) => {},
                            }
                        }
                    }
                },
            }
        }
        let ghost c_end: nat = self.cursor();
        proof {
            lemma_spec_items_unfold(toks, c_end);
        }
        match self.consume(Token::RightParen) {
            Err(e) => {
                return Err(e);
            },
            Ok(()) => {},
        }
        proof {
            assert(exprs_view(expressions@) + Seq::<ExprView>::empty() =~= exprs_view(
                expressions@,
            ));
        }
        Ok(expressions)
    }

    /// Parses one expression: a list if the current token opens one, an atom
    /// for an identifier or a number, an empty list at the end of the
    /// tokens, and an error otherwise.
    fn expression(&mut self) -> (r: Result<Expr, ParseError>)
        ensures
            final(self).toks() == old(self).toks(),
            old(self).cursor() <= final(self).cursor(),
            (match spec_expression(old(self).toks(), old(self).cursor()) {
                Ok((ev, j)) => (r matches Ok(e) && e@ == ev) && final(self).cursor() == j,
                Err(desc) => (r matches Err(e) && e@ == desc),
            }),
        decreases old(self).toks().len() - old(self).cursor(), 1nat,
    {
        proof {
            use_type_invariant(&*self);
            lemma_spec_expression_unfold(self.toks(), self.cursor());
        }
        let ghost toks: Seq<TokenView> = self.toks();
        let ghost c: nat = self.cursor();
        match self.current_token() {
            Some(Token::LeftParen) => {
                match self.list() {
                    Ok(exprs) => {
                        let e = Expr::List(exprs);
                        proof {
                            assert(e@ == ExprView::List(exprs_view(exprs@)));
                        }
                        Ok(e)
                    },
                    Err(e) => Err(e),
                }
            },
            Some(Token::Identifier(name)) => {
                self.advance();
                Ok(Expr::Atom(AtomValue::String(name)))
            },
            Some(Token::Number(value)) => {
                self.advance();
                Ok(Expr::Atom(AtomValue::Number(value)))
            },
            Some(token) => Err(ParseError::UnexpectedToken(token.render())),
            None => {
                let e = Expr::List(Vec::new());
                proof {
                    assert(exprs_view(Seq::<Expr>::empty()) =~= Seq::<ExprView>::empty());
                }
                Ok(e)
            },
        }
    }

    /// Parses the first complete expression at the cursor. Tokens after it
    /// are left unconsumed and ignored.
    pub fn parse(&mut self) -> (r: Result<Expr, ParseError>)
        ensures
            final(self).toks() == old(self).toks(),
            (match spec_expression(old(self).toks(), old(self).cursor()) {
                Ok((ev, j)) => (r matches Ok(e) && e@ == ev) && final(self).cursor() == j,
                Err(desc) => (r matches Err(e) && e@ == desc),
            }),
    {
        self.expression()
    }
}

/// The pipeline is deterministic: identical source text always yields the
/// same token sequence, the same parse outcome, and hence the same rendered
/// text.
pub proof fn lemma_pipeline_deterministic(s1: Seq<char>, s2: Seq<char>)
    requires
        s1 == s2,
    ensures
        scan_tokens(s1) == scan_tokens(s2),
        scan_overflows(s1) == scan_overflows(s2),
        spec_parse(scan_tokens(s1)) == spec_parse(scan_tokens(s2)),
        (match spec_parse(scan_tokens(s1)) {
            Ok(e1) => (match spec_parse(scan_tokens(s2)) {
                Ok(e2) => render_expr(e1) == render_expr(e2),
                Err(_) => false,
            }),
            Err(_) => true,
        }),
{
}

/// A stray closing parenthesis at the start of the tokens fails to parse,
/// with the closing parenthesis as the unexpected token.
pub proof fn lemma_leading_right_paren_fails(toks: Seq<TokenView>)
    requires
        toks.len() > 0,
        toks[0] == TokenView::RightParen,
    ensures
        spec_parse(toks) == Err::<ExprView, Seq<char>>(token_desc(TokenView::RightParen)),
{
    lemma_spec_expression_unfold(toks, 0);
}

/// A token stream that opens a list but never holds a closing parenthesis
/// fails to parse: no partial tree is produced.
pub proof fn lemma_unclosed_list_fails(toks: Seq<TokenView>)
    requires
        toks.len() > 0,
        toks[0] == TokenView::LeftParen,
        forall|k: int| 0 <= k < toks.len() ==> toks[k] != TokenView::RightParen,
    ensures
        spec_parse(toks) is Err,
{
    lemma_spec_expression_unfold(toks, 0);
    lemma_no_close_items_fail(toks, 1);
}

/// Helper for `lemma_unclosed_list_fails`: without a closing parenthesis
/// ahead, the run of list items always ends in an error.
proof fn lemma_no_close_items_fail(toks: Seq<TokenView>, i: nat)
    requires
        i <= toks.len(),
        forall|k: int| 0 <= k < toks.len() ==> toks[k] != TokenView::RightParen,
    ensures
        spec_items(toks, i) is Err,
    decreases toks.len() - i,
{
    lemma_spec_items_unfold(toks, i);
    if i < toks.len() {
        lemma_spec_expression_unfold(toks, i);
        lemma_spec_expression_bounds(toks, i);
        match toks[i as int] {
            TokenView::LeftParen => {
                lemma_no_close_items_fail(toks, (i + 1) as nat);
            },
            TokenView::Identifier(name) => {
                lemma_no_close_items_fail(toks, (i + 1) as nat);
            },
            TokenView::Number(value) => {
                lemma_no_close_items_fail(toks, (i + 1) as nat);
            },
            TokenView::RightParen => {
                assert(false);
            },
        }
    }
}

} // verus!
