//! The parser: tokens to an expression tree.
//!
//! ```text
//! expr        := equality
//! equality    := comparison (("=="|"!=") comparison)*
//! comparison  := term ((">"|">="|"<"|"<=") term)*
//! term        := factor (("+"|"-") factor)*
//! factor      := unary (("*"|"/"|"%") unary)*
//! unary       := ("-"|"!") unary | primary
//! primary     := NUMBER | "(" expr ")"
//! ```
//!
//! The four binary tiers are numbered from `factor`, 1, up to `equality`, 4;
//! each folds to the left. One expression is parsed and `Eof` must follow it.
//! A token sequence that runs out is read as if `Eof` stood behind it, at
//! position 0:0.
//!
//! Nesting is limited, so that the parser's own recursion is: a parenthesis
//! or a unary operator that would open a level beyond `MAX_NESTING` is
//! unexpected.

use crate::lexer::{numbers_are_decimal, token_views, Position, Token, TokenType, TokenView};
use crate::text::is_decimal;
use vstd::prelude::*;

verus! {

/// The operators in front of one operand.
#[derive(Clone, Copy, Debug, PartialEq, Eq, Structural)]
pub enum UnOp {
    Negate,
    Not,
}

/// The operators between two operands.
#[derive(Clone, Copy, Debug, PartialEq, Eq, Structural)]
pub enum BinOp {
    Add,
    Sub,
    Mul,
    Div,
    Mod,
    Equal,
    NotEqual,
    Greater,
    GreaterEqual,
    Less,
    LessEqual,
}

/// An expression. A number holds its numeral as `N`; the parser fills it
/// with the token's lexeme.
#[derive(Debug, PartialEq)]
#[allow(inconsistent_fields)]
pub enum Expr<N> {
    Number(N),
    UnOp { op: UnOp, expr: Box<Expr<N>> },
    BinOp { op: BinOp, lhs: Box<Expr<N>>, rhs: Box<Expr<N>> },
}

impl<N: View> Expr<N> {
    /// The same tree with the view of each numeral in place of the numeral.
    pub open spec fn model(self) -> Expr<N::V>
        decreases self,
    {
        match self {
            Expr::Number(n) => Expr::Number(n@),
            Expr::UnOp { op, expr } => Expr::UnOp { op, expr: Box::new(expr.model()) },
            Expr::BinOp { op, lhs, rhs } => Expr::BinOp {
                op,
                lhs: Box::new(lhs.model()),
                rhs: Box::new(rhs.model()),
            },
        }
    }
}

impl<N: View> View for Expr<N> {
    type V = Expr<N::V>;

    open spec fn view(&self) -> Expr<N::V> {
        self.model()
    }
}

/// A parse error: the kind and place of the token that cannot stand where
/// it does.
#[derive(Clone, Copy, Debug, PartialEq, Eq, Structural)]
pub enum ParseError {
    UnexpectedToken(TokenType, Position),
}

/// The highest binary tier, `equality`.
pub const TOP_TIER: usize = 4;

/// How many parentheses and unary operators may stand open around an
/// operand.
pub const MAX_NESTING: usize = 128;

/// The token at index `i`, or `Eof` at 0:0 where the sequence has run out.
pub open spec fn token_at(ts: Seq<TokenView>, i: int) -> TokenView {
    if 0 <= i < ts.len() {
        ts[i]
    } else {
        TokenView { kind: TokenType::Eof, lexeme: Seq::empty(), at: Position(0, 0) }
    }
}

/// The error that names the token at index `i`.
pub open spec fn unexpected(ts: Seq<TokenView>, i: int) -> ParseError {
    ParseError::UnexpectedToken(token_at(ts, i).kind, token_at(ts, i).at)
}

/// The operator that a token of kind `kind` is at binary tier `tier`.
pub open spec fn binary_op(tier: nat, kind: TokenType) -> Option<BinOp> {
    if tier == 4 {
        match kind {
            TokenType::EqualEqual => Some(BinOp::Equal),
            TokenType::BangEqual => Some(BinOp::NotEqual),
            _ => None,
        }
    } else if tier == 3 {
        match kind {
            TokenType::Greater => Some(BinOp::Greater),
            TokenType::GreaterEqual => Some(BinOp::GreaterEqual),
            TokenType::Less => Some(BinOp::Less),
            TokenType::LessEqual => Some(BinOp::LessEqual),
            _ => None,
        }
    } else if tier == 2 {
        match kind {
            TokenType::Plus => Some(BinOp::Add),
            TokenType::Minus => Some(BinOp::Sub),
            _ => None,
        }
    } else if tier == 1 {
        match kind {
            TokenType::Star => Some(BinOp::Mul),
            TokenType::Slash => Some(BinOp::Div),
            TokenType::Modulo => Some(BinOp::Mod),
            _ => None,
        }
    } else {
        None
    }
}

/// The operator that a token of kind `kind` is in front of a `unary`.
pub open spec fn unary_op(kind: TokenType) -> Option<UnOp> {
    match kind {
        TokenType::Minus => Some(UnOp::Negate),
        TokenType::Bang => Some(UnOp::Not),
        _ => None,
    }
}

/// An expression and the index of the token behind it, or the first error.
pub type Parsed = Result<(Expr<Seq<char>>, int), ParseError>;

/// `primary` at index `i`, with `depth` levels of nesting left to open.
pub open spec fn primary(ts: Seq<TokenView>, i: int, depth: nat) -> Parsed
    decreases ts.len() - i, 0int,
{
    if 0 <= i < ts.len() && ts[i].kind == TokenType::Number {
        Ok((Expr::Number(ts[i].lexeme), i + 1))
    } else if 0 <= i < ts.len() && ts[i].kind == TokenType::ParOpen && depth > 0 {
        let inner = binary(ts, i + 1, TOP_TIER as nat, (depth - 1) as nat);
        if inner is Ok && token_at(ts, inner->Ok_0.1).kind == TokenType::ParClose {
            Ok((inner->Ok_0.0, inner->Ok_0.1 + 1))
        } else if inner is Ok {
            Err(unexpected(ts, inner->Ok_0.1))
        } else {
            inner
        }
    } else {
        Err(unexpected(ts, i))
    }
}

/// `unary` at index `i`, with `depth` levels of nesting left to open.
pub open spec fn unary(ts: Seq<TokenView>, i: int, depth: nat) -> Parsed
    decreases ts.len() - i, 1int,
{
    if 0 <= i < ts.len() && unary_op(ts[i].kind) is Some && depth == 0 {
        Err(unexpected(ts, i))
    } else if 0 <= i < ts.len() && unary_op(ts[i].kind) is Some {
        match unary(ts, i + 1, (depth - 1) as nat) {
            Ok((expr, next)) => Ok(
                (Expr::UnOp { op: unary_op(ts[i].kind).unwrap(), expr: Box::new(expr) }, next),
            ),
            Err(e) => Err(e),
        }
    } else {
        primary(ts, i, depth)
    }
}

/// The binary tier `tier` at index `i`; tier 0 is `unary`.
///
/// An operand that parses stops behind where it started, so the test on
/// its end never fails.
pub open spec fn binary(ts: Seq<TokenView>, i: int, tier: nat, depth: nat) -> Parsed
    decreases ts.len() - i, tier + 2,
{
    if tier == 0 {
        unary(ts, i, depth)
    } else {
        let first = binary(ts, i, (tier - 1) as nat, depth);
        if first is Ok && i < first->Ok_0.1 <= ts.len() {
            chain(ts, first->Ok_0.0, first->Ok_0.1, tier, depth)
        } else {
            first
        }
    }
}

/// What follows the operand `lhs` of tier `tier`, which stops at index `i`:
/// operators of that tier with their right operands, folded to the left.
pub open spec fn chain(
    ts: Seq<TokenView>,
    lhs: Expr<Seq<char>>,
    i: int,
    tier: nat,
    depth: nat,
) -> Parsed
    decreases ts.len() - i, 0int,
{
    if 0 <= i < ts.len() && tier > 0 && binary_op(tier, ts[i].kind) is Some {
        let op = binary_op(tier, ts[i].kind).unwrap();
        let operand = binary(ts, i + 1, (tier - 1) as nat, depth);
        if operand is Ok && i < operand->Ok_0.1 <= ts.len() {
            chain(
                ts,
                Expr::BinOp { op, lhs: Box::new(lhs), rhs: Box::new(operand->Ok_0.0) },
                operand->Ok_0.1,
                tier,
                depth,
            )
        } else {
            operand
        }
    } else {
        Ok((lhs, i))
    }
}

/// The expression that a token sequence spells, or the first error.
pub open spec fn parsed(ts: Seq<TokenView>) -> Result<Expr<Seq<char>>, ParseError> {
    match binary(ts, 0, TOP_TIER as nat, MAX_NESTING as nat) {
        Ok((expr, next)) => if token_at(ts, next).kind == TokenType::Eof {
            Ok(expr)
        } else {
            Err(unexpected(ts, next))
        },
        Err(e) => Err(e),
    }
}

/// What parses stops behind where it started, and inside the sequence.
pub proof fn lemma_parse_advances(ts: Seq<TokenView>, i: int, tier: nat, depth: nat)
    ensures
        binary(ts, i, tier, depth) matches Ok((_, next)) ==> i < next <= ts.len(),
        unary(ts, i, depth) matches Ok((_, next)) ==> i < next <= ts.len(),
        primary(ts, i, depth) matches Ok((_, next)) ==> i < next <= ts.len(),
    decreases ts.len() - i, tier + 2,
{
    lemma_unary_advances(ts, i, depth);
    if tier > 0 {
        lemma_parse_advances(ts, i, (tier - 1) as nat, depth);
        let first = binary(ts, i, (tier - 1) as nat, depth);
        if first is Ok {
            lemma_chain_advances(ts, first->Ok_0.0, first->Ok_0.1, tier, depth);
        }
    }
}

proof fn lemma_unary_advances(ts: Seq<TokenView>, i: int, depth: nat)
    ensures
        unary(ts, i, depth) matches Ok((_, next)) ==> i < next <= ts.len(),
        primary(ts, i, depth) matches Ok((_, next)) ==> i < next <= ts.len(),
    decreases ts.len() - i, 1int,
{
    if 0 <= i < ts.len() && depth > 0 {
        if unary_op(ts[i].kind) is Some {
            lemma_unary_advances(ts, i + 1, (depth - 1) as nat);
        }
        if ts[i].kind == TokenType::ParOpen {
            lemma_parse_advances(ts, i + 1, TOP_TIER as nat, (depth - 1) as nat);
        }
    }
}

proof fn lemma_chain_advances(
    ts: Seq<TokenView>,
    lhs: Expr<Seq<char>>,
    i: int,
    tier: nat,
    depth: nat,
)
    requires
        i <= ts.len(),
    ensures
        chain(ts, lhs, i, tier, depth) matches Ok((_, next)) ==> i <= next <= ts.len(),
    decreases ts.len() - i, 0int,
{
    if 0 <= i < ts.len() && tier > 0 && binary_op(tier, ts[i].kind) is Some {
        let op = binary_op(tier, ts[i].kind).unwrap();
        let operand = binary(ts, i + 1, (tier - 1) as nat, depth);
        if operand is Ok && i < operand->Ok_0.1 <= ts.len() {
            lemma_chain_advances(
                ts,
                Expr::BinOp { op, lhs: Box::new(lhs), rhs: Box::new(operand->Ok_0.0) },
                operand->Ok_0.1,
                tier,
                depth,
            );
        } else {
            lemma_parse_advances(ts, i + 1, (tier - 1) as nat, depth);
        }
    }
}

/// Whether what a parsing function returned is what the grammar gives.
spec fn agrees(r: Result<(Expr<String>, usize), ParseError>, expected: Parsed) -> bool {
    match expected {
        Ok((expr, next)) => r matches Ok((e, n)) && e@ == expr && n == next,
        Err(error) => r matches Err(e) && e == error,
    }
}

fn peek(tokens: &Vec<Token<'_>>, i: usize) -> (r: (TokenType, Position))
    ensures
        r.0 == token_at(token_views(tokens@), i as int).kind,
        r.1 == token_at(token_views(tokens@), i as int).at,
{
    if i < tokens.len() {
        (tokens[i].kind(), tokens[i].at())
    } else {
        (TokenType::Eof, Position(0, 0))
    }
}

fn binary_operator(tier: usize, kind: TokenType) -> (r: Option<BinOp>)
    ensures
        r == binary_op(tier as nat, kind),
{
    if tier == 4 {
        match kind {
            TokenType::EqualEqual => Some(BinOp::Equal),
            TokenType::BangEqual => Some(BinOp::NotEqual),
            _ => None,
        }
    } else if tier == 3 {
        match kind {
            TokenType::Greater => Some(BinOp::Greater),
            TokenType::GreaterEqual => Some(BinOp::GreaterEqual),
            TokenType::Less => Some(BinOp::Less),
            TokenType::LessEqual => Some(BinOp::LessEqual),
            _ => None,
        }
    } else if tier == 2 {
        match kind {
            TokenType::Plus => Some(BinOp::Add),
            TokenType::Minus => Some(BinOp::Sub),
            _ => None,
        }
    } else if tier == 1 {
        match kind {
            TokenType::Star => Some(BinOp::Mul),
            TokenType::Slash => Some(BinOp::Div),
            TokenType::Modulo => Some(BinOp::Mod),
            _ => None,
        }
    } else {
        None
    }
}

fn unary_operator(kind: TokenType) -> (r: Option<UnOp>)
    ensures
        r == unary_op(kind),
{
    match kind {
        TokenType::Minus => Some(UnOp::Negate),
        TokenType::Bang => Some(UnOp::Not),
        _ => None,
    }
}

// The three functions below call each other by the grammar. Each call goes to
// a lower tier or opens a level of nesting, so their recursion is no deeper
// than `(depth + 1) * (TOP_TIER + 3)` calls, however long the tokens are.
fn parse_primary(tokens: &Vec<Token<'_>>, i: usize, depth: usize) -> (r: Result<
    (Expr<String>, usize),
    ParseError,
>)
    ensures
        agrees(r, primary(token_views(tokens@), i as int, depth as nat)),
        r matches Ok((_, next)) ==> i < next <= tokens@.len(),
    decreases depth, 0int,
{
    let (kind, at) = peek(tokens, i);
    if i < tokens.len() && kind == TokenType::Number {
        Ok((Expr::Number(tokens[i].lexeme().to_owned()), i + 1))
    } else if i < tokens.len() && kind == TokenType::ParOpen && depth > 0 {
        match parse_binary(tokens, i + 1, TOP_TIER, depth - 1) {
            Ok((expr, next)) => {
                let (closing, closing_at) = peek(tokens, next);
                if closing == TokenType::ParClose {
                    Ok((expr, next + 1))
                } else {
                    Err(ParseError::UnexpectedToken(closing, closing_at))
                }
            },
            Err(e) => Err(e),
        }
    } else {
        Err(ParseError::UnexpectedToken(kind, at))
    }
}

fn parse_unary(tokens: &Vec<Token<'_>>, i: usize, depth: usize) -> (r: Result<
    (Expr<String>, usize),
    ParseError,
>)
    ensures
        agrees(r, unary(token_views(tokens@), i as int, depth as nat)),
        r matches Ok((_, next)) ==> i < next <= tokens@.len(),
    decreases depth, 1int,
{
    let (kind, at) = peek(tokens, i);
    match unary_operator(kind) {
        Some(op) if i < tokens.len() => {
            if depth == 0 {
                return Err(ParseError::UnexpectedToken(kind, at));
            }
            match parse_unary(tokens, i + 1, depth - 1) {
                Ok((expr, next)) => Ok((Expr::UnOp { op, expr: Box::new(expr) }, next)),
                Err(e) => Err(e),
            }
        },
        _ => parse_primary(tokens, i, depth),
    }
}

fn parse_binary(tokens: &Vec<Token<'_>>, i: usize, tier: usize, depth: usize) -> (r: Result<
    (Expr<String>, usize),
    ParseError,
>)
    ensures
        agrees(r, binary(token_views(tokens@), i as int, tier as nat, depth as nat)),
        r matches Ok((_, next)) ==> i < next <= tokens@.len(),
    decreases depth, tier + 2,
{
    if tier == 0 {
        return parse_unary(tokens, i, depth);
    }
    let ghost ts = token_views(tokens@);
    let (mut lhs, mut at) = match parse_binary(tokens, i, tier - 1, depth) {
        Ok(first) => first,
        Err(e) => {
            return Err(e);
        },
    };
    loop
        invariant
            ts == token_views(tokens@),
            tier > 0,
            i < at <= tokens@.len(),
            chain(ts, lhs@, at as int, tier as nat, depth as nat) == binary(
                ts,
                i as int,
                tier as nat,
                depth as nat,
            ),
        decreases tokens@.len() - at,
    {
        let (kind, _) = peek(tokens, at);
        match binary_operator(tier, kind) {
            Some(op) if at < tokens.len() => {
                match parse_binary(tokens, at + 1, tier - 1, depth) {
                    Ok((rhs, next)) => {
                        lhs = Expr::BinOp { op, lhs: Box::new(lhs), rhs: Box::new(rhs) };
                        at = next;
                    },
                    Err(e) => {
                        return Err(e);
                    },
                }
            },
            _ => {
                return Ok((lhs, at));
            },
        }
    }
}

/// A parser over a token sequence of its own.
#[derive(Debug)]
pub struct AstParser<'s> {
    tokens: Vec<Token<'s>>,
}

impl<'s> AstParser<'s> {
    /// The tokens that this parser holds.
    pub closed spec fn tokens(&self) -> Seq<TokenView> {
        token_views(self.tokens@)
    }

    pub fn new(tokens: Vec<Token<'s>>) -> (r: Self)
        ensures
            r.tokens() == token_views(tokens@),
    {
        AstParser { tokens }
    }

    /// Parses the tokens as one expression that `Eof` follows: the whole
    /// tree, or the first token that cannot stand where it does. The
    /// parser's recursion is no deeper than the nesting it admits.
    pub fn parse(self) -> (r: Result<Expr<String>, ParseError>)
        ensures
            match parsed(self.tokens()) {
                Ok(expr) => r matches Ok(e) && e@ == expr,
                Err(error) => r matches Err(e) && e == error,
            },
    {
        match parse_binary(&self.tokens, 0, TOP_TIER, MAX_NESTING) {
            Ok((expr, next)) => {
                let (kind, at) = peek(&self.tokens, next);
                if kind == TokenType::Eof {
                    Ok(expr)
                } else {
                    Err(ParseError::UnexpectedToken(kind, at))
                }
            },
            Err(e) => Err(e),
        }
    }
}

/// What parses within a limit on nesting parses to the same with a wider
/// limit: the limit turns away, and changes nothing else.
pub proof fn lemma_wider_limit_agrees(ts: Seq<TokenView>, i: int, tier: nat, depth: nat)
    ensures
        binary(ts, i, tier, depth) is Ok ==> binary(ts, i, tier, depth + 1) == binary(
            ts,
            i,
            tier,
            depth,
        ),
        unary(ts, i, depth) is Ok ==> unary(ts, i, depth + 1) == unary(ts, i, depth),
        primary(ts, i, depth) is Ok ==> primary(ts, i, depth + 1) == primary(ts, i, depth),
    decreases ts.len() - i, tier + 2,
{
    lemma_unary_wider_limit_agrees(ts, i, depth);
    if tier > 0 {
        lemma_wider_limit_agrees(ts, i, (tier - 1) as nat, depth);
        let first = binary(ts, i, (tier - 1) as nat, depth);
        if first is Ok && i < first->Ok_0.1 <= ts.len() {
            lemma_chain_wider_limit_agrees(ts, first->Ok_0.0, first->Ok_0.1, tier, depth);
        }
    }
}

proof fn lemma_unary_wider_limit_agrees(ts: Seq<TokenView>, i: int, depth: nat)
    ensures
        unary(ts, i, depth) is Ok ==> unary(ts, i, depth + 1) == unary(ts, i, depth),
        primary(ts, i, depth) is Ok ==> primary(ts, i, depth + 1) == primary(ts, i, depth),
    decreases ts.len() - i, 1int,
{
    if 0 <= i < ts.len() && depth > 0 {
        if unary_op(ts[i].kind) is Some {
            lemma_unary_wider_limit_agrees(ts, i + 1, (depth - 1) as nat);
        }
        if ts[i].kind == TokenType::ParOpen {
            lemma_wider_limit_agrees(ts, i + 1, TOP_TIER as nat, (depth - 1) as nat);
        }
    }
}

proof fn lemma_chain_wider_limit_agrees(
    ts: Seq<TokenView>,
    lhs: Expr<Seq<char>>,
    i: int,
    tier: nat,
    depth: nat,
)
    ensures
        chain(ts, lhs, i, tier, depth) is Ok ==> chain(ts, lhs, i, tier, depth + 1) == chain(
            ts,
            lhs,
            i,
            tier,
            depth,
        ),
    decreases ts.len() - i, 0int,
{
    if 0 <= i < ts.len() && tier > 0 && binary_op(tier, ts[i].kind) is Some {
        let op = binary_op(tier, ts[i].kind).unwrap();
        lemma_wider_limit_agrees(ts, i + 1, (tier - 1) as nat, depth);
        let operand = binary(ts, i + 1, (tier - 1) as nat, depth);
        if operand is Ok && i < operand->Ok_0.1 <= ts.len() {
            lemma_chain_wider_limit_agrees(
                ts,
                Expr::BinOp { op, lhs: Box::new(lhs), rhs: Box::new(operand->Ok_0.0) },
                operand->Ok_0.1,
                tier,
                depth,
            );
        }
    }
}

/// An expression whose numbers are all decimal numerals.
pub open spec fn all_decimal(expr: Expr<Seq<char>>) -> bool
    decreases expr,
{
    match expr {
        Expr::Number(numeral) => is_decimal(numeral),
        Expr::UnOp { expr, .. } => all_decimal(*expr),
        Expr::BinOp { lhs, rhs, .. } => all_decimal(*lhs) && all_decimal(*rhs),
    }
}

proof fn lemma_binary_all_decimal(ts: Seq<TokenView>, i: int, tier: nat, depth: nat)
    requires
        numbers_are_decimal(ts),
    ensures
        binary(ts, i, tier, depth) matches Ok((expr, _)) ==> all_decimal(expr),
        unary(ts, i, depth) matches Ok((expr, _)) ==> all_decimal(expr),
        primary(ts, i, depth) matches Ok((expr, _)) ==> all_decimal(expr),
    decreases ts.len() - i, tier + 2,
{
    lemma_unary_all_decimal(ts, i, depth);
    if tier > 0 {
        lemma_binary_all_decimal(ts, i, (tier - 1) as nat, depth);
        let first = binary(ts, i, (tier - 1) as nat, depth);
        if first is Ok && i < first->Ok_0.1 <= ts.len() {
            lemma_chain_all_decimal(ts, first->Ok_0.0, first->Ok_0.1, tier, depth);
        }
    }
}

proof fn lemma_unary_all_decimal(ts: Seq<TokenView>, i: int, depth: nat)
    requires
        numbers_are_decimal(ts),
    ensures
        unary(ts, i, depth) matches Ok((expr, _)) ==> all_decimal(expr),
        primary(ts, i, depth) matches Ok((expr, _)) ==> all_decimal(expr),
    decreases ts.len() - i, 1int,
{
    if 0 <= i < ts.len() && depth > 0 {
        if unary_op(ts[i].kind) is Some {
            lemma_unary_all_decimal(ts, i + 1, (depth - 1) as nat);
        }
        if ts[i].kind == TokenType::ParOpen {
            lemma_binary_all_decimal(ts, i + 1, TOP_TIER as nat, (depth - 1) as nat);
        }
    }
}

proof fn lemma_chain_all_decimal(
    ts: Seq<TokenView>,
    lhs: Expr<Seq<char>>,
    i: int,
    tier: nat,
    depth: nat,
)
    requires
        numbers_are_decimal(ts),
        all_decimal(lhs),
    ensures
        chain(ts, lhs, i, tier, depth) matches Ok((expr, _)) ==> all_decimal(expr),
    decreases ts.len() - i, 0int,
{
    if 0 <= i < ts.len() && tier > 0 && binary_op(tier, ts[i].kind) is Some {
        let op = binary_op(tier, ts[i].kind).unwrap();
        lemma_binary_all_decimal(ts, i + 1, (tier - 1) as nat, depth);
        let operand = binary(ts, i + 1, (tier - 1) as nat, depth);
        if operand is Ok && i < operand->Ok_0.1 <= ts.len() {
            lemma_chain_all_decimal(
                ts,
                Expr::BinOp { op, lhs: Box::new(lhs), rhs: Box::new(operand->Ok_0.0) },
                operand->Ok_0.1,
                tier,
                depth,
            );
        }
    }
}

/// Where every number token is a decimal numeral, as the lexer's are, so is
/// every number of the expression parsed from them.
pub proof fn lemma_parsed_numbers_are_decimal(ts: Seq<TokenView>)
    requires
        numbers_are_decimal(ts),
    ensures
        parsed(ts) matches Ok(expr) ==> all_decimal(expr),
{
    lemma_binary_all_decimal(ts, 0, TOP_TIER as nat, MAX_NESTING as nat);
}

/// A product binds tighter than a sum: `a + b * c` is `a + (b * c)`.
pub proof fn lemma_product_binds_tighter(ts: Seq<TokenView>)
    requires
        ts.len() == 6,
        ts[0].kind == TokenType::Number,
        ts[1].kind == TokenType::Plus,
        ts[2].kind == TokenType::Number,
        ts[3].kind == TokenType::Star,
        ts[4].kind == TokenType::Number,
        ts[5].kind == TokenType::Eof,
    ensures
        parsed(ts) == Ok::<Expr<Seq<char>>, ParseError>(
            Expr::BinOp {
                op: BinOp::Add,
                lhs: Box::new(Expr::Number(ts[0].lexeme)),
                rhs: Box::new(
                    Expr::BinOp {
                        op: BinOp::Mul,
                        lhs: Box::new(Expr::Number(ts[2].lexeme)),
                        rhs: Box::new(Expr::Number(ts[4].lexeme)),
                    },
                ),
            },
        ),
{
    reveal_with_fuel(binary, 6);
    reveal_with_fuel(chain, 3);
    let a = Expr::Number(ts[0].lexeme);
    let b = Expr::Number(ts[2].lexeme);
    let c = Expr::Number(ts[4].lexeme);
    let product = Expr::BinOp { op: BinOp::Mul, lhs: Box::new(b), rhs: Box::new(c) };
    let sum = Expr::BinOp { op: BinOp::Add, lhs: Box::new(a), rhs: Box::new(product) };
    assert(binary(ts, 0, 1, 128) == Ok::<(Expr<Seq<char>>, int), ParseError>((a, 1)));
    assert(binary(ts, 2, 0, 128) == Ok::<(Expr<Seq<char>>, int), ParseError>((b, 3)));
    assert(binary(ts, 4, 0, 128) == Ok::<(Expr<Seq<char>>, int), ParseError>((c, 5)));
    assert(chain(ts, b, 3, 1, 128) == Ok::<(Expr<Seq<char>>, int), ParseError>((product, 5)));
    assert(binary(ts, 2, 1, 128) == Ok::<(Expr<Seq<char>>, int), ParseError>((product, 5)));
    assert(chain(ts, a, 1, 2, 128) == Ok::<(Expr<Seq<char>>, int), ParseError>((sum, 5)));
    assert(binary(ts, 0, 2, 128) == Ok::<(Expr<Seq<char>>, int), ParseError>((sum, 5)));
    assert(binary(ts, 0, 3, 128) == Ok::<(Expr<Seq<char>>, int), ParseError>((sum, 5)));
    assert(binary(ts, 0, 4, 128) == Ok::<(Expr<Seq<char>>, int), ParseError>((sum, 5)));
}

/// A difference folds to the left: `a - b - c` is `(a - b) - c`.
pub proof fn lemma_difference_folds_left(ts: Seq<TokenView>)
    requires
        ts.len() == 6,
        ts[0].kind == TokenType::Number,
        ts[1].kind == TokenType::Minus,
        ts[2].kind == TokenType::Number,
        ts[3].kind == TokenType::Minus,
        ts[4].kind == TokenType::Number,
        ts[5].kind == TokenType::Eof,
    ensures
        parsed(ts) == Ok::<Expr<Seq<char>>, ParseError>(
            Expr::BinOp {
                op: BinOp::Sub,
                lhs: Box::new(
                    Expr::BinOp {
                        op: BinOp::Sub,
                        lhs: Box::new(Expr::Number(ts[0].lexeme)),
                        rhs: Box::new(Expr::Number(ts[2].lexeme)),
                    },
                ),
                rhs: Box::new(Expr::Number(ts[4].lexeme)),
            },
        ),
{
    reveal_with_fuel(binary, 6);
    reveal_with_fuel(chain, 3);
    let a = Expr::Number(ts[0].lexeme);
    let b = Expr::Number(ts[2].lexeme);
    let c = Expr::Number(ts[4].lexeme);
    let first = Expr::BinOp { op: BinOp::Sub, lhs: Box::new(a), rhs: Box::new(b) };
    let both = Expr::BinOp { op: BinOp::Sub, lhs: Box::new(first), rhs: Box::new(c) };
    assert(binary(ts, 0, 1, 128) == Ok::<(Expr<Seq<char>>, int), ParseError>((a, 1)));
    assert(binary(ts, 2, 1, 128) == Ok::<(Expr<Seq<char>>, int), ParseError>((b, 3)));
    assert(binary(ts, 4, 1, 128) == Ok::<(Expr<Seq<char>>, int), ParseError>((c, 5)));
    assert(chain(ts, both, 5, 2, 128) == Ok::<(Expr<Seq<char>>, int), ParseError>((both, 5)));
    assert(chain(ts, first, 3, 2, 128) == Ok::<(Expr<Seq<char>>, int), ParseError>((both, 5)));
    assert(chain(ts, a, 1, 2, 128) == Ok::<(Expr<Seq<char>>, int), ParseError>((both, 5)));
    assert(binary(ts, 0, 2, 128) == Ok::<(Expr<Seq<char>>, int), ParseError>((both, 5)));
    assert(binary(ts, 0, 3, 128) == Ok::<(Expr<Seq<char>>, int), ParseError>((both, 5)));
    assert(binary(ts, 0, 4, 128) == Ok::<(Expr<Seq<char>>, int), ParseError>((both, 5)));
}

} // verus!
