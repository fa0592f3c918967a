//! The lexer: source text to tokens.
//!
//! The source is read as UTF-8 bytes, line by line. A line ends at a line
//! feed, and a carriage return right before it is not part of the line; no
//! token spans two lines. Columns count bytes. A byte outside ASCII is an
//! error wherever a token would hold it, inside a string too.

use crate::text::{
    behind_first, cut, decimal, decimal_text, digit, digits_end, find_behind_first,
    find_digits_end, find_line_end, find_non_ascii, find_word_end, first_non_ascii, is_decimal,
    is_digit, is_letter, is_space, is_word, lemma_ascii_is_utf8, lemma_behind_first_bounds,
    lemma_behind_first_passes, lemma_behind_first_skips, lemma_behind_first_stands,
    lemma_boundary_at_ascii, lemma_boundary_behind_ascii, lemma_digits_end_bounds,
    lemma_digits_end_is, lemma_digits_end_stands, lemma_encode_utf8_add,
    lemma_first_non_ascii_bounds, lemma_first_non_ascii_is, lemma_line_end_behind,
    lemma_line_end_bounds, lemma_line_end_same, lemma_line_end_stands, lemma_word_end_bounds,
    lemma_word_end_stands, letter, line_end, next_line, same_bytes, space, starts, word_end,
    CARRIAGE_RETURN, DOT, LINE_FEED, UNDERSCORE,
};
use vstd::prelude::*;
use vstd::string::StringSliceAdditionalSpecFns;
use vstd::utf8::*;

verus! {

/// The bytes that tokens start with, by name.
pub const QUOTE: u8 = 0x22;

pub const EQUALS: u8 = 0x3d;

pub const SEMICOLON: u8 = 0x3b;

pub const PAR_OPEN: u8 = 0x28;

pub const PAR_CLOSE: u8 = 0x29;

pub const PLUS: u8 = 0x2b;

pub const MINUS: u8 = 0x2d;

pub const STAR: u8 = 0x2a;

pub const SLASH: u8 = 0x2f;

pub const PERCENT: u8 = 0x25;

pub const BANG: u8 = 0x21;

pub const GREATER: u8 = 0x3e;

pub const LESS: u8 = 0x3c;

pub const AMPERSAND: u8 = 0x26;

pub const PIPE: u8 = 0x7c;

/// The kinds of token.
#[derive(Clone, Copy, Debug, PartialEq, Eq, Structural)]
pub enum TokenType {
    Plus,
    PlusEqual,
    Minus,
    MinusEqual,
    Star,
    StarEqual,
    Slash,
    SlashEqual,
    Modulo,
    ModuloEqual,
    Ampersand,
    AmpersandEqual,
    Pipe,
    PipeEqual,
    Semicolon,
    ParOpen,
    ParClose,
    If,
    Then,
    Else,
    End,
    Fnc,
    Return,
    And,
    Or,
    Equal,
    EqualEqual,
    Bang,
    BangEqual,
    Greater,
    GreaterEqual,
    Less,
    LessEqual,
    Number,
    String,
    Ident,
    Eof,
}

/// A place in the source: line and column, both counted from one.
#[derive(Clone, Copy, Debug, PartialEq, Eq, Structural)]
pub struct Position(pub usize, pub usize);

/// What a position prints as: the line, a colon, the column.
pub open spec fn position_text(at: Position) -> Seq<char> {
    decimal(at.0 as nat) + seq![':'] + decimal(at.1 as nat)
}

impl Position {
    pub fn line(&self) -> (r: usize)
        ensures
            r == self.0,
    {
        self.0
    }

    pub fn column(&self) -> (r: usize)
        ensures
            r == self.1,
    {
        self.1
    }

    /// The position as `line:column`.
    pub fn to_string(&self) -> (r: String)
        ensures
            r@ == position_text(*self),
    {
        let mut r = decimal_text(self.0);
        proof {
            reveal_strlit(":");
            assert(":"@ =~= seq![':']);
        }
        r = vstd::string::StringExecFns::concat(r, ":");
        let column = decimal_text(self.1);
        r = vstd::string::StringExecFns::concat(r, column.as_str());
        r
    }
}

/// A token as contracts see it.
pub struct TokenView {
    pub kind: TokenType,
    pub lexeme: Seq<char>,
    pub at: Position,
}

/// A token: its kind, the text it was scanned from, and where that starts.
#[derive(Clone, Copy, Debug, PartialEq, Eq)]
pub struct Token<'s> {
    kind: TokenType,
    lexeme: &'s str,
    at: Position,
}

impl<'s> View for Token<'s> {
    type V = TokenView;

    closed spec fn view(&self) -> TokenView {
        TokenView { kind: self.kind, lexeme: self.lexeme@, at: self.at }
    }
}

impl<'s> Token<'s> {
    pub fn new(kind: TokenType, lexeme: &'s str, at: Position) -> (r: Self)
        ensures
            r@ == (TokenView { kind, lexeme: lexeme@, at }),
    {
        Token { kind, lexeme, at }
    }

    pub fn kind(&self) -> (r: TokenType)
        ensures
            r == self@.kind,
    {
        self.kind
    }

    pub fn lexeme(&self) -> (r: &'s str)
        ensures
            r@ == self@.lexeme,
    {
        self.lexeme
    }

    pub fn at(&self) -> (r: Position)
        ensures
            r == self@.at,
    {
        self.at
    }

    /// The token taken apart: kind, lexeme, position.
    pub fn dissolve(self) -> (r: (TokenType, &'s str, Position))
        ensures
            r.0 == self@.kind,
            r.1@ == self@.lexeme,
            r.2 == self@.at,
    {
        (self.kind, self.lexeme, self.at)
    }
}

/// The views of a run of tokens.
pub open spec fn token_views(tokens: Seq<Token<'_>>) -> Seq<TokenView> {
    tokens.map_values(|t: Token| t@)
}

/// A lexical error, with the place of the byte that caused it.
#[derive(Clone, Copy, Debug, PartialEq, Eq, Structural)]
pub enum SyntaxError {
    /// A byte outside ASCII, where a token would start or inside a string.
    NonAsciiCharacter(Position),
    /// An ASCII character that starts no token.
    UnexpectedCharacter(char, Position),
}

/// The kind of a token that is one byte and never more: `;`, `(`, `)`.
pub open spec fn punctuation(b: u8) -> Option<TokenType> {
    if b == SEMICOLON {
        Some(TokenType::Semicolon)
    } else if b == PAR_OPEN {
        Some(TokenType::ParOpen)
    } else if b == PAR_CLOSE {
        Some(TokenType::ParClose)
    } else {
        None
    }
}

/// For a byte that is an operator: its kind alone, and its kind with `=`
/// right behind it.
pub open spec fn operator(b: u8) -> Option<(TokenType, TokenType)> {
    if b == PLUS {
        Some((TokenType::Plus, TokenType::PlusEqual))
    } else if b == MINUS {
        Some((TokenType::Minus, TokenType::MinusEqual))
    } else if b == STAR {
        Some((TokenType::Star, TokenType::StarEqual))
    } else if b == SLASH {
        Some((TokenType::Slash, TokenType::SlashEqual))
    } else if b == PERCENT {
        Some((TokenType::Modulo, TokenType::ModuloEqual))
    } else if b == EQUALS {
        Some((TokenType::Equal, TokenType::EqualEqual))
    } else if b == BANG {
        Some((TokenType::Bang, TokenType::BangEqual))
    } else if b == GREATER {
        Some((TokenType::Greater, TokenType::GreaterEqual))
    } else if b == LESS {
        Some((TokenType::Less, TokenType::LessEqual))
    } else if b == AMPERSAND {
        Some((TokenType::Ampersand, TokenType::AmpersandEqual))
    } else if b == PIPE {
        Some((TokenType::Pipe, TokenType::PipeEqual))
    } else {
        None
    }
}

/// The kind of a word: that of the keyword it spells, else `Ident`.
pub open spec fn word_kind(lexeme: Seq<u8>) -> TokenType {
    if lexeme == encode_utf8("if"@) {
        TokenType::If
    } else if lexeme == encode_utf8("then"@) {
        TokenType::Then
    } else if lexeme == encode_utf8("else"@) {
        TokenType::Else
    } else if lexeme == encode_utf8("end"@) {
        TokenType::End
    } else if lexeme == encode_utf8("fnc"@) {
        TokenType::Fnc
    } else if lexeme == encode_utf8("return"@) {
        TokenType::Return
    } else if lexeme == encode_utf8("and"@) {
        TokenType::And
    } else if lexeme == encode_utf8("or"@) {
        TokenType::Or
    } else {
        TokenType::Ident
    }
}

/// Where the token that starts at `i` stops, in a line whose content stops at
/// `end`.
///
/// An operator takes one `=` behind it and no more. A string runs through
/// its closing quote, or to the end of the line. A number is digits, then at
/// most one dot with the digits behind it. A word is letters, digits and
/// underscores.
pub open spec fn token_end(s: Seq<u8>, i: int, end: int) -> int {
    let b = s[i];
    if operator(b) is Some {
        if i + 1 < end && s[i + 1] == EQUALS {
            i + 2
        } else {
            i + 1
        }
    } else if b == QUOTE {
        behind_first(s, QUOTE, i + 1, end)
    } else if is_digit(b) {
        let whole = digits_end(s, i + 1, end);
        if whole < end && s[whole] == DOT {
            digits_end(s, whole + 1, end)
        } else {
            whole
        }
    } else if is_letter(b) || b == UNDERSCORE {
        word_end(s, i + 1, end)
    } else {
        i + 1
    }
}

/// The kind of the token that starts at `i`, or `None` where no token starts
/// with that byte.
pub open spec fn token_kind(s: Seq<u8>, i: int, end: int) -> Option<TokenType> {
    let b = s[i];
    if punctuation(b) is Some {
        punctuation(b)
    } else if operator(b) is Some {
        let kinds = operator(b).unwrap();
        if token_end(s, i, end) == i + 2 {
            Some(kinds.1)
        } else {
            Some(kinds.0)
        }
    } else if b == QUOTE {
        Some(TokenType::String)
    } else if is_digit(b) {
        Some(TokenType::Number)
    } else if is_letter(b) || b == UNDERSCORE {
        Some(word_kind(s.subrange(i, token_end(s, i, end))))
    } else {
        None
    }
}

/// The token that closes every token sequence. It stands one line below the
/// last line scanned, in column one; where no number is left for that line,
/// it stands in the last line there is.
pub open spec fn end_of_input(line: int) -> TokenView {
    let below = if line < usize::MAX {
        line + 1
    } else {
        usize::MAX as int
    };
    TokenView { kind: TokenType::Eof, lexeme: "<EOF>"@, at: Position(below as usize, 1) }
}

/// `tokens` in front of what `rest` holds; the error of `rest` where it is one.
pub open spec fn followed_by(
    tokens: Seq<TokenView>,
    rest: Result<Seq<TokenView>, SyntaxError>,
) -> Result<Seq<TokenView>, SyntaxError> {
    match rest {
        Ok(more) => Ok(tokens + more),
        Err(e) => Err(e),
    }
}

/// The tokens from byte `i` on, where `i` lies in line number `line`, which
/// starts at byte `start`.
///
/// White space is passed over. A byte outside ASCII fails where a token
/// would start with it and where a token holds it, as only a string can: at
/// the first such byte. An ASCII byte that starts no token fails.
pub open spec fn scan(s: Seq<u8>, i: int, start: int, line: int) -> Result<
    Seq<TokenView>,
    SyntaxError,
>
    decreases s.len() - i,
    via scan_decreases
{
    let end = line_end(s, i);
    if i < 0 || i >= s.len() {
        Ok(seq![end_of_input(line)])
    } else if end == i {
        let next = next_line(s, i);
        if next >= s.len() {
            Ok(seq![end_of_input(line)])
        } else {
            scan(s, next, next, line + 1)
        }
    } else {
        let at = Position(line as usize, (i - start + 1) as usize);
        if s[i] >= 0x80 {
            Err(SyntaxError::NonAsciiCharacter(at))
        } else if is_space(s[i]) {
            scan(s, i + 1, start, line)
        } else {
            match token_kind(s, i, end) {
                None => Err(SyntaxError::UnexpectedCharacter(s[i] as char, at)),
                Some(kind) => {
                    let stop = token_end(s, i, end);
                    let bad = first_non_ascii(s, i, stop);
                    if bad < stop {
                        Err(
                            SyntaxError::NonAsciiCharacter(
                                Position(line as usize, (bad - start + 1) as usize),
                            ),
                        )
                    } else {
                        let lexeme = decode_utf8(s.subrange(i, stop));
                        followed_by(
                            seq![TokenView { kind, lexeme, at }],
                            scan(s, stop, start, line),
                        )
                    }
                },
            }
        }
    }
}

#[via_fn]
proof fn scan_decreases(s: Seq<u8>, i: int, start: int, line: int) {
    if 0 <= i < s.len() {
        lemma_line_end_bounds(s, i);
        let end = line_end(s, i);
        if end > i && s[i] < 0x80 {
            lemma_token_end_bounds(s, i, end);
        }
    }
}

/// A token is at least one byte long, stays inside its line, and stops at
/// the end of the line or behind an ASCII byte.
pub proof fn lemma_token_end_bounds(s: Seq<u8>, i: int, end: int)
    requires
        0 <= i < end <= s.len(),
        s[i] < 0x80,
    ensures
        i < token_end(s, i, end) <= end,
        token_end(s, i, end) == end || s[token_end(s, i, end) - 1] < 0x80,
{
    let b = s[i];
    if operator(b) is Some {
    } else if b == QUOTE {
        lemma_behind_first_bounds(s, QUOTE, i + 1, end);
    } else if is_digit(b) {
        lemma_digits_end_bounds(s, i + 1, end);
        let whole = digits_end(s, i + 1, end);
        if whole < end && s[whole] == DOT {
            lemma_digits_end_bounds(s, whole + 1, end);
        }
    } else if is_letter(b) || b == UNDERSCORE {
        lemma_word_end_bounds(s, i + 1, end);
    }
}

/// The tokens of a source text, or its first lexical error.
pub open spec fn lex(source: Seq<char>) -> Result<Seq<TokenView>, SyntaxError> {
    scan(encode_utf8(source), 0, 0, 1)
}

fn punctuation_kind(b: u8) -> (r: Option<TokenType>)
    ensures
        r == punctuation(b),
{
    if b == SEMICOLON {
        Some(TokenType::Semicolon)
    } else if b == PAR_OPEN {
        Some(TokenType::ParOpen)
    } else if b == PAR_CLOSE {
        Some(TokenType::ParClose)
    } else {
        None
    }
}

fn operator_kinds(b: u8) -> (r: Option<(TokenType, TokenType)>)
    ensures
        r == operator(b),
{
    if b == PLUS {
        Some((TokenType::Plus, TokenType::PlusEqual))
    } else if b == MINUS {
        Some((TokenType::Minus, TokenType::MinusEqual))
    } else if b == STAR {
        Some((TokenType::Star, TokenType::StarEqual))
    } else if b == SLASH {
        Some((TokenType::Slash, TokenType::SlashEqual))
    } else if b == PERCENT {
        Some((TokenType::Modulo, TokenType::ModuloEqual))
    } else if b == EQUALS {
        Some((TokenType::Equal, TokenType::EqualEqual))
    } else if b == BANG {
        Some((TokenType::Bang, TokenType::BangEqual))
    } else if b == GREATER {
        Some((TokenType::Greater, TokenType::GreaterEqual))
    } else if b == LESS {
        Some((TokenType::Less, TokenType::LessEqual))
    } else if b == AMPERSAND {
        Some((TokenType::Ampersand, TokenType::AmpersandEqual))
    } else if b == PIPE {
        Some((TokenType::Pipe, TokenType::PipeEqual))
    } else {
        None
    }
}

fn keyword_or_ident(s: &[u8], from: usize, to: usize) -> (r: TokenType)
    requires
        from <= to <= s@.len(),
    ensures
        r == word_kind(s@.subrange(from as int, to as int)),
{
    if same_bytes(s, from, to, "if") {
        TokenType::If
    } else if same_bytes(s, from, to, "then") {
        TokenType::Then
    } else if same_bytes(s, from, to, "else") {
        TokenType::Else
    } else if same_bytes(s, from, to, "end") {
        TokenType::End
    } else if same_bytes(s, from, to, "fnc") {
        TokenType::Fnc
    } else if same_bytes(s, from, to, "return") {
        TokenType::Return
    } else if same_bytes(s, from, to, "and") {
        TokenType::And
    } else if same_bytes(s, from, to, "or") {
        TokenType::Or
    } else {
        TokenType::Ident
    }
}

/// The kind of the token that starts at `i`, and where it stops.
fn token_at(s: &[u8], i: usize, end: usize) -> (r: (Option<TokenType>, usize))
    requires
        i < end <= s@.len(),
        s@[i as int] < 0x80,
    ensures
        r.0 == token_kind(s@, i as int, end as int),
        r.1 == token_end(s@, i as int, end as int),
        i < r.1 <= end,
{
    proof {
        lemma_token_end_bounds(s@, i as int, end as int);
    }
    let b = s[i];
    if let Some(kind) = punctuation_kind(b) {
        (Some(kind), i + 1)
    } else if let Some(kinds) = operator_kinds(b) {
        if i + 1 < end && s[i + 1] == EQUALS {
            (Some(kinds.1), i + 2)
        } else {
            (Some(kinds.0), i + 1)
        }
    } else if b == QUOTE {
        (Some(TokenType::String), find_behind_first(s, QUOTE, i + 1, end))
    } else if digit(b) {
        let whole = find_digits_end(s, i + 1, end);
        if whole < end && s[whole] == DOT {
            (Some(TokenType::Number), find_digits_end(s, whole + 1, end))
        } else {
            (Some(TokenType::Number), whole)
        }
    } else if letter(b) || b == UNDERSCORE {
        let stop = find_word_end(s, i + 1, end);
        (Some(keyword_or_ident(s, i, stop)), stop)
    } else {
        (None, i + 1)
    }
}

proof fn lemma_followed_by_push(
    tokens: Seq<TokenView>,
    t: TokenView,
    rest: Result<Seq<TokenView>, SyntaxError>,
)
    ensures
        followed_by(tokens, followed_by(seq![t], rest)) == followed_by(tokens.push(t), rest),
{
    if let Ok(more) = rest {
        assert(tokens + (seq![t] + more) =~= tokens.push(t) + more);
    }
}

/// A lexer over a source text of its own.
#[derive(Debug)]
pub struct Lexer {
    source: String,
}

impl Lexer {
    /// The text that this lexer scans.
    pub closed spec fn source(&self) -> Seq<char> {
        self.source@
    }

    pub fn new(source: &str) -> (r: Self)
        ensures
            r.source() == source@,
    {
        Lexer { source: source.to_owned() }
    }

    /// Scans the whole source: its tokens in order with one `Eof` behind
    /// them, or the first lexical error.
    pub fn scan_tokens(&self) -> (r: Result<Vec<Token<'_>>, SyntaxError>)
        ensures
            match lex(self.source()) {
                Ok(tokens) => r matches Ok(v) && token_views(v@) == tokens,
                Err(e) => r matches Err(x) && x == e,
            },
    {
        let text = self.source.as_str();
        let s = text.as_bytes();
        let n = s.len();
        let mut tokens: Vec<Token<'_>> = Vec::new();
        let mut i: usize = 0;
        let mut start: usize = 0;
        let mut line: usize = 1;
        let mut end = find_line_end(s, 0);
        let mut done = false;
        proof {
            encode_utf8_valid_utf8(self.source());
            assert(token_views(tokens@) =~= Seq::<TokenView>::empty());
            assert(followed_by(token_views(tokens@), scan(s@, 0, 0, 1)) == scan(s@, 0, 0, 1)) by {
                if let Ok(more) = scan(s@, 0, 0, 1) {
                    assert(Seq::<TokenView>::empty() + more =~= more);
                }
            }
        }
        while !done
            invariant
                text@ == self.source(),
                s@ == text.spec_bytes(),
                s@ == encode_utf8(self.source()),
                valid_utf8(s@),
                n == s@.len(),
                start <= i <= end <= n,
                end == line_end(s@, i as int),
                1 <= line <= start + 1,
                start < n || n == 0,
                lex(self.source()) == followed_by(
                    token_views(tokens@),
                    scan(s@, i as int, start as int, line as int),
                ),
                done ==> scan(s@, i as int, start as int, line as int) == Ok::<
                    Seq<TokenView>,
                    SyntaxError,
                >(seq![end_of_input(line as int)]),
            decreases n - i + (if done { 0int } else { 1int }),
        {
            if i >= n {
                done = true;
            } else if i == end {
                proof {
                    lemma_line_end_bounds(s@, i as int);
                }
                let next = if s[i] == LINE_FEED {
                    i + 1
                } else {
                    i + 2
                };
                if next >= n {
                    done = true;
                } else {
                    i = next;
                    start = next;
                    line = line + 1;
                    end = find_line_end(s, next);
                }
            } else {
                let b = s[i];
                let at = Position(line, i - start + 1);
                if b >= 0x80 {
                    return Err(SyntaxError::NonAsciiCharacter(at));
                }
                if space(b) {
                    proof {
                        lemma_line_end_same(s@, i as int, i + 1);
                    }
                    i = i + 1;
                } else {
                    let (kind, stop) = token_at(s, i, end);
                    match kind {
                        None => {
                            return Err(SyntaxError::UnexpectedCharacter(b as char, at));
                        },
                        Some(kind) => {
                            let bad = find_non_ascii(s, i, stop);
                            if bad < stop {
                                return Err(
                                    SyntaxError::NonAsciiCharacter(
                                        Position(line, bad - start + 1),
                                    ),
                                );
                            }
                            proof {
                                lemma_token_end_bounds(s@, i as int, end as int);
                                lemma_line_end_bounds(s@, i as int);
                                lemma_line_end_same(s@, i as int, stop as int);
                                lemma_boundary_at_ascii(s@, i as int);
                                if stop == end {
                                    if end == n {
                                        is_char_boundary_start_end_of_seq(s@);
                                    } else {
                                        lemma_boundary_at_ascii(s@, end as int);
                                    }
                                } else {
                                    lemma_boundary_behind_ascii(s@, stop - 1);
                                }
                            }
                            let lexeme = cut(text, i, stop);
                            let token = Token::new(kind, lexeme, at);
                            proof {
                                lemma_followed_by_push(
                                    token_views(tokens@),
                                    token@,
                                    scan(s@, stop as int, start as int, line as int),
                                );
                                assert(token_views(tokens@.push(token)) =~= token_views(
                                    tokens@,
                                ).push(token@));
                            }
                            tokens.push(token);
                            i = stop;
                        },
                    }
                }
            }
        }
        let below = if line < usize::MAX {
            line + 1
        } else {
            line
        };
        let last = Token::new(TokenType::Eof, "<EOF>", Position(below, 1));
        proof {
            assert(token_views(tokens@.push(last)) =~= token_views(tokens@) + seq![
                end_of_input(line as int),
            ]);
        }
        tokens.push(last);
        Ok(tokens)
    }
}

/// A token sequence that holds `Eof` once, in the last place.
pub open spec fn closed_by_eof(tokens: Seq<TokenView>) -> bool {
    &&& tokens.len() > 0
    &&& tokens.last().kind == TokenType::Eof
    &&& forall|k: int| 0 <= k < tokens.len() - 1 ==> (#[trigger] tokens[k]).kind != TokenType::Eof
}

proof fn lemma_scan_closed_by_eof(s: Seq<u8>, i: int, start: int, line: int)
    ensures
        scan(s, i, start, line) matches Ok(tokens) ==> closed_by_eof(tokens),
    decreases s.len() - i,
{
    let end = line_end(s, i);
    if i < 0 || i >= s.len() {
    } else if end == i {
        let next = next_line(s, i);
        if next < s.len() {
            lemma_scan_closed_by_eof(s, next, next, line + 1);
        }
    } else if s[i] >= 0x80 {
    } else if is_space(s[i]) {
        lemma_scan_closed_by_eof(s, i + 1, start, line);
    } else if token_kind(s, i, end) is Some {
        lemma_line_end_bounds(s, i);
        lemma_token_end_bounds(s, i, end);
        let stop = token_end(s, i, end);
        lemma_scan_closed_by_eof(s, stop, start, line);
        lemma_first_non_ascii_bounds(s, i, stop);
        if scan(s, i, start, line) is Ok {
            let more = scan(s, stop, start, line).unwrap();
            let tokens = scan(s, i, start, line).unwrap();
            assert(tokens =~= seq![tokens[0]] + more);
            assert(tokens[0].kind == token_kind(s, i, end).unwrap());
            assert forall|k: int| 0 <= k < tokens.len() - 1 implies (#[trigger] tokens[k]).kind
                != TokenType::Eof by {
                if k > 0 {
                    assert(tokens[k] == more[k - 1]);
                }
            }
        }
    }
}

proof fn lemma_scan_ascii(s: Seq<u8>, i: int, start: int, line: int)
    requires
        forall|k: int| 0 <= k < s.len() ==> s[k] < 0x80,
    ensures
        scan(s, i, start, line) matches Err(e) ==> e is UnexpectedCharacter,
    decreases s.len() - i,
{
    let end = line_end(s, i);
    if i < 0 || i >= s.len() {
    } else if end == i {
        let next = next_line(s, i);
        if next < s.len() {
            lemma_scan_ascii(s, next, next, line + 1);
        }
    } else if is_space(s[i]) {
        lemma_scan_ascii(s, i + 1, start, line);
    } else if token_kind(s, i, end) is Some {
        lemma_line_end_bounds(s, i);
        lemma_token_end_bounds(s, i, end);
        lemma_first_non_ascii_bounds(s, i, token_end(s, i, end));
        lemma_scan_ascii(s, token_end(s, i, end), start, line);
    }
}

/// Lexing that succeeds gives a sequence with exactly one `Eof`, in the last
/// place.
pub proof fn lemma_lex_closed_by_eof(source: Seq<char>)
    ensures
        lex(source) matches Ok(tokens) ==> closed_by_eof(tokens),
{
    lemma_scan_closed_by_eof(encode_utf8(source), 0, 0, 1);
}

/// On ASCII text lexing fails only at a character that starts no token.
pub proof fn lemma_lex_ascii(source: Seq<char>)
    requires
        is_ascii_chars(source),
    ensures
        lex(source) matches Err(e) ==> e is UnexpectedCharacter,
{
    is_ascii_chars_encode_utf8(source);
    let s = encode_utf8(source);
    assert forall|k: int| 0 <= k < s.len() implies s[k] < 0x80 by {
        assert(source[k] as u8 == s[k]);
    }
    lemma_scan_ascii(s, 0, 0, 1);
}

proof fn lemma_number_lexeme_is_decimal(s: Seq<u8>, i: int, end: int)
    requires
        0 <= i < end <= s.len(),
        is_digit(s[i]),
    ensures
        is_decimal(decode_utf8(s.subrange(i, token_end(s, i, end)))),
{
    let stop = token_end(s, i, end);
    let whole = digits_end(s, i + 1, end);
    lemma_token_end_bounds(s, i, end);
    lemma_digits_end_bounds(s, i + 1, end);
    let sub = s.subrange(i, stop);
    let n = stop - i;
    if whole < end && s[whole] == DOT {
        lemma_digits_end_bounds(s, whole + 1, end);
        assert forall|j: int| 0 <= j < whole - i implies is_digit(#[trigger] sub[j]) by {
            assert(sub[j] == s[i + j]);
        }
        assert(sub[whole - i] == DOT);
        lemma_digits_end_is(sub, 0, whole - i, n);
        assert forall|j: int| whole - i + 1 <= j < n implies is_digit(#[trigger] sub[j]) by {
            assert(sub[j] == s[i + j]);
        }
        lemma_digits_end_is(sub, whole - i + 1, n, n);
    } else {
        assert forall|j: int| 0 <= j < n implies is_digit(#[trigger] sub[j]) by {
            assert(sub[j] == s[i + j]);
        }
        lemma_digits_end_is(sub, 0, n, n);
    }
    assert forall|j: int| 0 <= j < sub.len() implies #[trigger] sub[j] < 0x80 by {
        assert(sub[j] == s[i + j]);
        assert(is_digit(sub[j]) || sub[j] == DOT);
    }
    lemma_ascii_is_utf8(sub);
    decode_utf8_encode_utf8(sub);
}

/// A token sequence whose numbers are all decimal numerals.
pub open spec fn numbers_are_decimal(tokens: Seq<TokenView>) -> bool {
    forall|k: int|
        0 <= k < tokens.len() && (#[trigger] tokens[k]).kind == TokenType::Number ==> is_decimal(
            tokens[k].lexeme,
        )
}

proof fn lemma_scan_numbers_are_decimal(s: Seq<u8>, i: int, start: int, line: int)
    ensures
        scan(s, i, start, line) matches Ok(tokens) ==> numbers_are_decimal(tokens),
    decreases s.len() - i,
{
    let end = line_end(s, i);
    if i < 0 || i >= s.len() {
    } else if end == i {
        let next = next_line(s, i);
        if next < s.len() {
            lemma_scan_numbers_are_decimal(s, next, next, line + 1);
        }
    } else if s[i] >= 0x80 {
    } else if is_space(s[i]) {
        lemma_scan_numbers_are_decimal(s, i + 1, start, line);
    } else if token_kind(s, i, end) is Some {
        lemma_line_end_bounds(s, i);
        lemma_token_end_bounds(s, i, end);
        let stop = token_end(s, i, end);
        lemma_scan_numbers_are_decimal(s, stop, start, line);
        lemma_first_non_ascii_bounds(s, i, stop);
        if scan(s, i, start, line) is Ok {
            let more = scan(s, stop, start, line).unwrap();
            let tokens = scan(s, i, start, line).unwrap();
            assert(tokens =~= seq![tokens[0]] + more);
            if token_kind(s, i, end) == Some(TokenType::Number) {
                assert(is_digit(s[i]));
                lemma_number_lexeme_is_decimal(s, i, end);
            }
            assert forall|k: int|
                0 <= k < tokens.len() && (#[trigger] tokens[k]).kind
                    == TokenType::Number implies is_decimal(tokens[k].lexeme) by {
                if k > 0 {
                    assert(tokens[k] == more[k - 1]);
                }
            }
        }
    }
}

/// Every number that the lexer gives is an unsigned decimal numeral.
pub proof fn lemma_lexed_numbers_are_decimal(source: Seq<char>)
    ensures
        lex(source) matches Ok(tokens) ==> numbers_are_decimal(tokens),
{
    lemma_scan_numbers_are_decimal(encode_utf8(source), 0, 0, 1);
}

/// A token of `s` that stops before the end of `s` is the same token in a
/// text that starts with `s`.
proof fn lemma_token_stands(s: Seq<u8>, u: Seq<u8>, i: int, end: int, limit: int)
    requires
        starts(u, s),
        0 <= i < end <= s.len(),
        s[i] < 0x80,
        token_end(s, i, end) < s.len(),
        i < limit <= u.len(),
        limit == end || (end == s.len() && limit >= s.len() - 1),
    ensures
        token_end(u, i, limit) == token_end(s, i, end),
        token_kind(u, i, limit) == token_kind(s, i, end),
{
    let b = s[i];
    let stop = token_end(s, i, end);
    assert(u[i] == s[i]);
    lemma_token_end_bounds(s, i, end);
    if operator(b) is Some {
        if i + 1 < s.len() {
            assert(u[i + 1] == s[i + 1]);
        }
    } else if b == QUOTE {
        lemma_behind_first_bounds(s, QUOTE, i + 1, end);
        lemma_behind_first_stands(s, u, QUOTE, i + 1, end, limit);
    } else if is_digit(b) {
        let whole = digits_end(s, i + 1, end);
        lemma_digits_end_bounds(s, i + 1, end);
        if whole < end && s[whole] == DOT {
            lemma_digits_end_bounds(s, whole + 1, end);
        }
        lemma_digits_end_stands(s, u, i + 1, end, limit);
        assert(u[whole] == s[whole]);
        if whole < end && s[whole] == DOT {
            lemma_digits_end_stands(s, u, whole + 1, end, limit);
        }
    } else if is_letter(b) || b == UNDERSCORE {
        lemma_word_end_bounds(s, i + 1, end);
        lemma_word_end_stands(s, u, i + 1, end, limit);
        assert(u.subrange(i, stop) =~= s.subrange(i, stop));
    }
}

/// A token that is no string holds ASCII bytes only.
proof fn lemma_token_is_ascii(s: Seq<u8>, i: int, end: int)
    requires
        0 <= i < end <= s.len(),
        s[i] < 0x80,
        s[i] != QUOTE,
    ensures
        first_non_ascii(s, i, token_end(s, i, end)) == token_end(s, i, end),
{
    let b = s[i];
    let stop = token_end(s, i, end);
    lemma_token_end_bounds(s, i, end);
    if operator(b) is Some {
    } else if is_digit(b) {
        let whole = digits_end(s, i + 1, end);
        lemma_digits_end_bounds(s, i + 1, end);
        if whole < end && s[whole] == DOT {
            lemma_digits_end_bounds(s, whole + 1, end);
        }
    } else if is_letter(b) || b == UNDERSCORE {
        lemma_word_end_bounds(s, i + 1, end);
    }
    assert forall|j: int| i <= j < stop implies #[trigger] s[j] < 0x80 by {
        if is_digit(b) {
            assert(is_digit(s[j]) || s[j] == DOT);
        } else if is_letter(b) || b == UNDERSCORE {
            if j > i {
                assert(is_word(s[j]));
            }
        }
    }
    lemma_first_non_ascii_is(s, i, stop, stop);
}

proof fn lemma_scan_error_stands(s: Seq<u8>, u: Seq<u8>, i: int, start: int, line: int)
    requires
        starts(u, s),
        scan(s, i, start, line) is Err,
    ensures
        scan(u, i, start, line) == scan(s, i, start, line),
    decreases s.len() - i,
{
    assert(0 <= i < s.len());
    assert(u[i] == s[i]);
    let end = line_end(s, i);
    let limit = line_end(u, i);
    lemma_line_end_bounds(s, i);
    lemma_line_end_bounds(u, i);
    if end < s.len() {
        lemma_line_end_stands(s, u, i);
    } else {
        lemma_line_end_behind(s, u, i);
    }
    if end == i {
        lemma_scan_error_stands(s, u, next_line(s, i), next_line(s, i), line + 1);
    } else {
        if limit == i {
            assert(s[i] == CARRIAGE_RETURN);
            assert(i + 1 == s.len());
            assert(scan(s, i + 1, start, line) is Ok);
        } else if s[i] >= 0x80 {
        } else if is_space(s[i]) {
            lemma_scan_error_stands(s, u, i + 1, start, line);
        } else if token_kind(s, i, end) is Some {
            let stop = token_end(s, i, end);
            let bad = first_non_ascii(s, i, stop);
            lemma_token_end_bounds(s, i, end);
            lemma_first_non_ascii_bounds(s, i, stop);
            assert forall|j: int| i <= j < bad implies #[trigger] u[j] < 0x80 by {
                assert(u[j] == s[j]);
            }
            if bad < stop {
                if s[i] != QUOTE {
                    lemma_token_is_ascii(s, i, end);
                }
                assert(u[bad] == s[bad]);
                assert(bad < limit);
                lemma_behind_first_skips(s, QUOTE, i + 1, bad, end);
                assert forall|j: int| i + 1 <= j <= bad implies #[trigger] u[j] != QUOTE by {
                    assert(u[j] == s[j]);
                }
                lemma_behind_first_passes(u, QUOTE, i + 1, bad, limit);
                lemma_token_end_bounds(u, i, limit);
                lemma_first_non_ascii_is(u, i, bad, token_end(u, i, limit));
                assert(token_kind(u, i, limit) is Some);
            } else {
                assert(scan(s, stop, start, line) is Err);
                lemma_token_stands(s, u, i, end, limit);
                lemma_first_non_ascii_is(u, i, stop, stop);
                lemma_scan_error_stands(s, u, stop, start, line);
                assert(u.subrange(i, stop) =~= s.subrange(i, stop));
            }
        } else {
            assert(token_kind(u, i, limit) is None);
        }
    }
}

/// An error, once met, stands whatever follows it: a source that fails to
/// lex fails in the same way with any text behind it.
pub proof fn lemma_lex_error_stands(source: Seq<char>, more: Seq<char>)
    ensures
        lex(source) is Err ==> lex(source + more) == lex(source),
{
    if lex(source) is Err {
        let s = encode_utf8(source);
        let u = encode_utf8(source + more);
        lemma_encode_utf8_add(source, more);
        assert(starts(u, s));
        lemma_scan_error_stands(s, u, 0, 0, 1);
    }
}

/// A place whose line and column are both counted from one.
pub open spec fn from_one(at: Position) -> bool {
    at.0 >= 1 && at.1 >= 1
}

/// The place that an error names.
pub open spec fn error_place(e: SyntaxError) -> Position {
    match e {
        SyntaxError::NonAsciiCharacter(at) => at,
        SyntaxError::UnexpectedCharacter(_, at) => at,
    }
}

proof fn lemma_scan_from_one(s: Seq<u8>, i: int, start: int, line: int)
    requires
        s.len() <= usize::MAX,
        0 <= start <= i,
        1 <= line <= start + 1,
        start < s.len() || s.len() == 0,
    ensures
        match scan(s, i, start, line) {
            Ok(tokens) => forall|k: int| 0 <= k < tokens.len() ==> from_one((#[trigger] tokens[k]).at),
            Err(e) => from_one(error_place(e)),
        },
    decreases s.len() - i,
{
    let end = line_end(s, i);
    if i >= s.len() {
    } else if end == i {
        let next = next_line(s, i);
        if next < s.len() {
            lemma_scan_from_one(s, next, next, line + 1);
        }
    } else if s[i] >= 0x80 {
    } else if is_space(s[i]) {
        lemma_scan_from_one(s, i + 1, start, line);
    } else if token_kind(s, i, end) is Some {
        lemma_line_end_bounds(s, i);
        lemma_token_end_bounds(s, i, end);
        let stop = token_end(s, i, end);
        lemma_scan_from_one(s, stop, start, line);
        lemma_first_non_ascii_bounds(s, i, stop);
        if scan(s, i, start, line) is Ok {
            let more = scan(s, stop, start, line).unwrap();
            let tokens = scan(s, i, start, line).unwrap();
            assert(tokens =~= seq![tokens[0]] + more);
            assert forall|k: int| 0 <= k < tokens.len() implies from_one(
                (#[trigger] tokens[k]).at,
            ) by {
                if k > 0 {
                    assert(tokens[k] == more[k - 1]);
                }
            }
        }
    }
}

/// Lines and columns are counted from one, in every token and in every
/// error, for a source whose length a `usize` holds.
pub proof fn lemma_lex_from_one(source: Seq<char>)
    requires
        encode_utf8(source).len() <= usize::MAX,
    ensures
        match lex(source) {
            Ok(tokens) => forall|k: int| 0 <= k < tokens.len() ==> from_one((#[trigger] tokens[k]).at),
            Err(e) => from_one(error_place(e)),
        },
{
    lemma_scan_from_one(encode_utf8(source), 0, 0, 1);
}

proof fn lemma_scan_ok_is_ascii(s: Seq<u8>, i: int, start: int, line: int)
    requires
        0 <= i,
        scan(s, i, start, line) is Ok,
    ensures
        forall|j: int| i <= j < s.len() ==> #[trigger] s[j] < 0x80,
    decreases s.len() - i,
{
    let end = line_end(s, i);
    if i >= s.len() {
    } else if end == i {
        let next = next_line(s, i);
        lemma_line_end_bounds(s, i);
        if next < s.len() {
            lemma_scan_ok_is_ascii(s, next, next, line + 1);
        }
    } else if is_space(s[i]) {
        lemma_scan_ok_is_ascii(s, i + 1, start, line);
    } else {
        lemma_line_end_bounds(s, i);
        lemma_token_end_bounds(s, i, end);
        let stop = token_end(s, i, end);
        lemma_first_non_ascii_bounds(s, i, stop);
        lemma_scan_ok_is_ascii(s, stop, start, line);
    }
}

/// Only ASCII text lexes: a source that holds a byte outside ASCII, in a
/// string or anywhere else, fails.
pub proof fn lemma_lex_ok_is_ascii(source: Seq<char>)
    ensures
        lex(source) is Ok ==> forall|j: int|
            0 <= j < encode_utf8(source).len() ==> #[trigger] encode_utf8(source)[j] < 0x80,
{
    if lex(source) is Ok {
        lemma_scan_ok_is_ascii(encode_utf8(source), 0, 0, 1);
    }
}

} // verus!
