//! From text to positioned tokens: words between whitespace, words cut at
//! the one-character symbols, and each piece given its kind.

use vstd::prelude::*;
use crate::chars::{alphanumeric, is_whitespace, to_chars, to_text, whitespace};
use crate::number::{float_literal, is_float_literal};
use crate::rebuild::{joined, lemma_pieces_rebuild, lemma_tokens_rebuild, solid};

verus! {

#[derive(PartialEq, Debug, Clone, Copy)]
pub enum Side {
    Right,
    Left,
}

#[derive(PartialEq, Debug)]
pub enum TokenType {
    /// A number, kept as the literal that was read.
    Number(String),
    Plus,
    Minus,
    Star,
    Divide,
    Identifier(String),
    Parenthisies(Side),
}

/// A token with its place: the line, and the half-open range of columns.
#[derive(PartialEq, Debug)]
pub struct Token {
    pub token_type: TokenType,
    pub line: usize,
    pub line_pos: (usize, usize),
}

/// A stretch of one line, before it has a kind.
#[derive(PartialEq, Debug)]
pub struct TokenPos {
    pub content: Vec<char>,
    pub line: usize,
    pub start: usize,
    pub end: usize,
}

/// What a `TokenPos` stands for.
pub struct Piece {
    pub content: Seq<char>,
    pub line: int,
    pub start: int,
    pub end: int,
}

impl Piece {
    /// The columns cover exactly the content.
    pub open spec fn wf(self) -> bool {
        0 <= self.line && 0 <= self.start && self.end == self.start + self.content.len()
    }

    /// The column behind the content, counted from `start`, is a `usize`.
    pub open spec fn in_reach(self) -> bool {
        self.start + self.content.len() <= usize::MAX
    }
}

impl View for TokenPos {
    type V = Piece;

    open spec fn view(&self) -> Piece {
        Piece {
            content: self.content@,
            line: self.line as int,
            start: self.start as int,
            end: self.end as int,
        }
    }
}

/// The pieces that a sequence of `TokenPos` stands for.
pub open spec fn pieces_of(v: Seq<TokenPos>) -> Seq<Piece> {
    Seq::new(v.len(), |i: int| v[i]@)
}

pub open spec fn is_symbol(c: char) -> bool {
    c == '+' || c == '-' || c == '*' || c == '/' || c == '(' || c == ')'
}

/// Whether the character is one of the symbols that stand alone.
pub fn single_token_char(character: char) -> (r: bool)
    ensures
        r == is_symbol(character),
{
    match character {
        '+' | '-' | '*' | '/' | '(' | ')' => true,
        _ => false,
    }
}

/// A character between words: a line break or other whitespace.
pub open spec fn is_gap(c: char) -> bool {
    c == '\n' || whitespace(c)
}

/// The line that position `n` of the text is on: the line breaks before it.
pub open spec fn line_of(text: Seq<char>, n: int) -> int
    decreases n,
{
    if n <= 0 {
        0
    } else {
        line_of(text, n - 1) + if text[n - 1] == '\n' {
            1int
        } else {
            0int
        }
    }
}

/// The column of position `n`: the characters since the last line break.
pub open spec fn column_of(text: Seq<char>, n: int) -> int
    decreases n,
{
    if n <= 0 {
        0
    } else if text[n - 1] == '\n' {
        0
    } else {
        column_of(text, n - 1) + 1
    }
}

/// The index just past the characters from `i` on that are no gap.
pub open spec fn word_end(text: Seq<char>, i: int) -> int
    decreases text.len() - i,
{
    if 0 <= i < text.len() && !is_gap(text[i]) {
        word_end(text, i + 1)
    } else {
        i
    }
}

/// A word begins at `i`: no gap there, and a gap or nothing before it.
pub open spec fn word_starts(text: Seq<char>, i: int) -> bool {
    0 <= i < text.len() && !is_gap(text[i]) && (i == 0 || is_gap(text[i - 1]))
}

/// The word that begins at `i`, with its line and columns.
pub open spec fn word_at(text: Seq<char>, i: int) -> Piece {
    let e = word_end(text, i);
    Piece {
        content: text.subrange(i, e),
        line: line_of(text, i),
        start: column_of(text, i),
        end: column_of(text, i) + (e - i),
    }
}

/// The words that begin before position `n`, in the order of the text.
pub open spec fn words(text: Seq<char>, n: int) -> Seq<Piece>
    decreases n,
{
    if n <= 0 {
        Seq::empty()
    } else if word_starts(text, n - 1) {
        words(text, n - 1).push(word_at(text, n - 1))
    } else {
        words(text, n - 1)
    }
}

/// A stretch without gaps that ends at a gap or at the end is a whole word.
proof fn lemma_word_end(text: Seq<char>, i: int, j: int)
    requires
        0 <= i <= j <= text.len(),
        forall|k: int| i <= k < j ==> !is_gap(#[trigger] text[k]),
        j == text.len() || is_gap(text[j]),
    ensures
        word_end(text, i) == j,
    decreases j - i,
{
    if i < j {
        lemma_word_end(text, i + 1, j);
    }
}

/// Cuts the text into its words: the longest stretches without whitespace,
/// each with its line and its columns.
pub fn split_whitespace_to_tokens(string: &String) -> (out: Vec<TokenPos>)
    ensures
        pieces_of(out@) == words(string@, string@.len() as int),
        forall|k: int| 0 <= k < out@.len() ==> (#[trigger] out@[k])@.wf(),
{
    let text: Vec<char> = to_chars(string.as_str());
    let n: usize = text.len();
    let mut out: Vec<TokenPos> = Vec::new();
    let mut line: usize = 0;
    let mut column: usize = 0;
    let mut i: usize = 0;
    while i < n
        invariant
            n == text@.len(),
            text@ == string@,
            i <= n,
            line == line_of(text@, i as int),
            column == column_of(text@, i as int),
            line <= i,
            column <= i,
            i == 0 || i == n || is_gap(text@[i - 1]) || is_gap(text@[i as int]),
            pieces_of(out@) =~= words(text@, i as int),
            forall|k: int| 0 <= k < out@.len() ==> (#[trigger] out@[k])@.wf(),
        decreases n - i,
    {
        let c: char = text[i];
        if c == '\n' {
            line += 1;
            column = 0;
            i += 1;
        } else if is_whitespace(c) {
            column += 1;
            i += 1;
        } else {
            let start: usize = i;
            let mut content: Vec<char> = Vec::new();
            content.push(c);
            let mut j: usize = i + 1;
            assert(word_starts(text@, start as int));
            while j < n && !(text[j] == '\n' || is_whitespace(text[j]))
                invariant
                    n == text@.len(),
                    start < j <= n,
                    forall|k: int| start <= k < j ==> !is_gap(#[trigger] text@[k]),
                    content@ =~= text@.subrange(start as int, j as int),
                    line == line_of(text@, j as int),
                    column + (j - start) == column_of(text@, j as int),
                    column <= start,
                    words(text@, j as int) =~= words(text@, start + 1),
                decreases n - j,
            {
                content.push(text[j]);
                j += 1;
            }
            proof {
                lemma_word_end(text@, start as int, j as int);
            }
            let end: usize = column + (j - start);
            out.push(TokenPos { content, line, start: column, end });
            column = end;
            i = j;
        }
    }
    out
}

/// The index just past the characters from `i` on that are no symbol.
pub open spec fn plain_end(c: Seq<char>, i: int) -> int
    decreases c.len() - i,
{
    if 0 <= i < c.len() && !is_symbol(c[i]) {
        plain_end(c, i + 1)
    } else {
        i
    }
}

/// Where the part that begins at `i` ends: a symbol stands alone, other
/// characters run on up to the next symbol.
pub open spec fn part_end(c: Seq<char>, i: int) -> int {
    if is_symbol(c[i]) {
        i + 1
    } else {
        plain_end(c, i)
    }
}

/// A part begins at `i`: at the front, at a symbol, and behind a symbol.
pub open spec fn part_starts(c: Seq<char>, i: int) -> bool {
    0 <= i < c.len() && (i == 0 || is_symbol(c[i]) || is_symbol(c[i - 1]))
}

/// The part of `p` that begins at `i` of its content.
pub open spec fn part_at(p: Piece, i: int) -> Piece {
    let e = part_end(p.content, i);
    Piece { content: p.content.subrange(i, e), line: p.line, start: p.start + i, end: p.start + e }
}

/// The parts of `p` that begin before `n`, in order.
pub open spec fn parts(p: Piece, n: int) -> Seq<Piece>
    decreases n,
{
    if n <= 0 {
        Seq::empty()
    } else if part_starts(p.content, n - 1) {
        parts(p, n - 1).push(part_at(p, n - 1))
    } else {
        parts(p, n - 1)
    }
}

/// What one piece is cut into. One of a single character, or none, stays.
pub open spec fn split_piece(p: Piece) -> Seq<Piece> {
    if p.content.len() <= 1 {
        seq![p]
    } else {
        parts(p, p.content.len() as int)
    }
}

/// What the pieces are cut into, in order.
pub open spec fn split_pieces(ps: Seq<Piece>) -> Seq<Piece>
    decreases ps.len(),
{
    if ps.len() == 0 {
        Seq::empty()
    } else {
        split_pieces(ps.drop_last()) + split_piece(ps.last())
    }
}

proof fn lemma_plain_end(c: Seq<char>, i: int, j: int)
    requires
        0 <= i <= j <= c.len(),
        forall|k: int| i <= k < j ==> !is_symbol(#[trigger] c[k]),
        j == c.len() || is_symbol(c[j]),
    ensures
        plain_end(c, i) == j,
    decreases j - i,
{
    if i < j {
        lemma_plain_end(c, i + 1, j);
    }
}

fn copy_range(v: &Vec<char>, from: usize, to: usize) -> (out: Vec<char>)
    requires
        from <= to <= v@.len(),
    ensures
        out@ == v@.subrange(from as int, to as int),
{
    let mut out: Vec<char> = Vec::new();
    let mut i: usize = from;
    while i < to
        invariant
            from <= i <= to <= v@.len(),
            out@ =~= v@.subrange(from as int, i as int),
        decreases to - i,
    {
        out.push(v[i]);
        i += 1;
    }
    out
}

/// Cuts each piece of more than one character at its symbols: every symbol
/// becomes a piece of its own, and the characters between symbols stay
/// together. Lines are kept, columns follow the characters.
pub fn split_inside_tokens(tokens: &Vec<TokenPos>) -> (out: Vec<TokenPos>)
    requires
        forall|k: int| 0 <= k < tokens@.len() ==> (#[trigger] tokens@[k])@.in_reach(),
    ensures
        pieces_of(out@) == split_pieces(pieces_of(tokens@)),
{
    let mut out: Vec<TokenPos> = Vec::new();
    let mut t: usize = 0;
    while t < tokens.len()
        invariant
            t <= tokens@.len(),
            forall|k: int| 0 <= k < tokens@.len() ==> (#[trigger] tokens@[k])@.in_reach(),
            pieces_of(out@) =~= split_pieces(pieces_of(tokens@).take(t as int)),
        decreases tokens@.len() - t,
    {
        let token: &TokenPos = &tokens[t];
        let m: usize = token.content.len();
        let ghost before = pieces_of(out@);
        let ghost p = token@;
        proof {
            let next = pieces_of(tokens@).take(t + 1);
            assert(next.drop_last() =~= pieces_of(tokens@).take(t as int));
            assert(next.last() == p);
            assert(p.in_reach());
        }
        if m <= 1 {
            let content: Vec<char> = copy_range(&token.content, 0, m);
            assert(content@ =~= token.content@);
            out.push(TokenPos { content, line: token.line, start: token.start, end: token.end });
            assert(pieces_of(out@) =~= before + seq![p]);
        } else {
            let mut i: usize = 0;
            while i < m
                invariant
                    m == token.content@.len(),
                    p == token@,
                    p.in_reach(),
                    i <= m,
                    i == m || part_starts(p.content, i as int),
                    pieces_of(out@) =~= before + parts(p, i as int),
                decreases m - i,
            {
                let mut j: usize = i + 1;
                if !single_token_char(token.content[i]) {
                    while j < m && !single_token_char(token.content[j])
                        invariant
                            m == token.content@.len(),
                            p == token@,
                            i < j <= m,
                            forall|k: int| i <= k < j ==> !is_symbol(#[trigger] p.content[k]),
                            parts(p, j as int) =~= parts(p, i + 1),
                        decreases m - j,
                    {
                        j += 1;
                    }
                    proof {
                        lemma_plain_end(p.content, i as int, j as int);
                    }
                }
                let content: Vec<char> = copy_range(&token.content, i, j);
                proof {
                    assert(part_end(p.content, i as int) == j);
                    assert(parts(p, i + 1) == parts(p, i as int).push(part_at(p, i as int)));
                    assert(parts(p, j as int) == parts(p, i + 1));
                }
                let ghost earlier = pieces_of(out@);
                out.push(
                    TokenPos {
                        content,
                        line: token.line,
                        start: token.start + i,
                        end: token.start + j,
                    },
                );
                assert(out@.last()@ == part_at(p, i as int));
                assert(pieces_of(out@) =~= earlier.push(part_at(p, i as int)));
                assert(pieces_of(out@) =~= before + parts(p, j as int));
                i = j;
            }
        }
        t += 1;
    }
    assert(pieces_of(tokens@).take(t as int) =~= pieces_of(tokens@));
    out
}

/// What a `TokenType` stands for: its kind, with the text where it has one.
pub enum TokenKind {
    Number(Seq<char>),
    Plus,
    Minus,
    Star,
    Divide,
    Identifier(Seq<char>),
    Parenthisies(Side),
}

/// What a `Token` stands for.
pub struct TokenModel {
    pub kind: TokenKind,
    pub line: int,
    pub start: int,
    pub end: int,
}

impl View for TokenType {
    type V = TokenKind;

    open spec fn view(&self) -> TokenKind {
        match self {
            TokenType::Number(text) => TokenKind::Number(text@),
            TokenType::Plus => TokenKind::Plus,
            TokenType::Minus => TokenKind::Minus,
            TokenType::Star => TokenKind::Star,
            TokenType::Divide => TokenKind::Divide,
            TokenType::Identifier(text) => TokenKind::Identifier(text@),
            TokenType::Parenthisies(side) => TokenKind::Parenthisies(*side),
        }
    }
}

impl View for Token {
    type V = TokenModel;

    open spec fn view(&self) -> TokenModel {
        TokenModel {
            kind: self.token_type@,
            line: self.line as int,
            start: self.line_pos.0 as int,
            end: self.line_pos.1 as int,
        }
    }
}

/// What a sequence of tokens stands for.
pub open spec fn models_of(v: Seq<Token>) -> Seq<TokenModel> {
    Seq::new(v.len(), |i: int| v[i]@)
}

impl TokenKind {
    /// The characters that the token was read from.
    pub open spec fn content(self) -> Seq<char> {
        match self {
            TokenKind::Number(text) => text,
            TokenKind::Plus => seq!['+'],
            TokenKind::Minus => seq!['-'],
            TokenKind::Star => seq!['*'],
            TokenKind::Divide => seq!['/'],
            TokenKind::Identifier(text) => text,
            TokenKind::Parenthisies(Side::Left) => seq!['('],
            TokenKind::Parenthisies(Side::Right) => seq![')'],
        }
    }
}

/// The kind that a symbol has, and none for any other character.
pub open spec fn symbol_kind(c: char) -> Option<TokenKind> {
    if c == '+' {
        Some(TokenKind::Plus)
    } else if c == '-' {
        Some(TokenKind::Minus)
    } else if c == '*' {
        Some(TokenKind::Star)
    } else if c == '/' {
        Some(TokenKind::Divide)
    } else if c == '(' {
        Some(TokenKind::Parenthisies(Side::Left))
    } else if c == ')' {
        Some(TokenKind::Parenthisies(Side::Right))
    } else {
        None
    }
}

pub open spec fn all_alphanumeric(s: Seq<char>) -> bool {
    forall|i: int| 0 <= i < s.len() ==> alphanumeric(#[trigger] s[i])
}

/// The kind of a piece with this content, where `plain` says whether all
/// of its characters are alphanumeric: a number where it is a floating-point
/// literal; else an identifier where `plain`; else its kind where it is one
/// symbol; else none.
pub open spec fn classify_given(s: Seq<char>, plain: bool) -> Option<TokenKind> {
    if is_float_literal(s) {
        Some(TokenKind::Number(s))
    } else if plain {
        Some(TokenKind::Identifier(s))
    } else if s.len() == 1 {
        symbol_kind(s[0])
    } else {
        None
    }
}

/// The kind of a piece with this content.
pub open spec fn classify(s: Seq<char>) -> Option<TokenKind> {
    classify_given(s, all_alphanumeric(s))
}

/// The token of kind `kind` at the place of `p`.
pub open spec fn token_at(kind: TokenKind, p: Piece) -> TokenModel {
    TokenModel { kind, line: p.line, start: p.start, end: p.end }
}

/// The token has the kind that the content of `p` has, and the place of `p`.
pub open spec fn fits(token: Token, p: Piece) -> bool {
    classify(p.content) == Some(token@.kind) && token@ == token_at(token@.kind, p)
}

/// The token is an identifier with the content and the place of `p`.
pub open spec fn blames(token: Token, p: Piece) -> bool {
    token@ == token_at(TokenKind::Identifier(p.content), p)
}

/// What giving kinds to `ps` comes to. Where every piece has a kind: the
/// tokens, one for each piece, in order. Else: the first piece without one,
/// as an identifier, and the reason.
pub open spec fn typed(ps: Seq<Piece>, r: Result<Vec<Token>, (Token, &'static str)>) -> bool {
    match r {
        Ok(tokens) => {
            &&& tokens@.len() == ps.len()
            &&& forall|i: int| 0 <= i < ps.len() ==> fits(#[trigger] tokens@[i], ps[i])
        },
        Err((token, reason)) => {
            &&& reason@ == "Invalid token"@
            &&& exists|k: int|
                {
                    &&& 0 <= k < ps.len()
                    &&& classify(#[trigger] ps[k].content) is None
                    &&& forall|j: int| 0 <= j < k ==> classify(#[trigger] ps[j].content) is Some
                    &&& blames(token, ps[k])
                }
        },
    }
}

fn is_all_alphanumeric(s: &Vec<char>) -> (r: bool)
    ensures
        r == all_alphanumeric(s@),
{
    let mut i: usize = 0;
    while i < s.len()
        invariant
            i <= s@.len(),
            forall|k: int| 0 <= k < i ==> alphanumeric(#[trigger] s@[k]),
        decreases s@.len() - i,
    {
        if !s[i].is_alphanumeric() {
            return false;
        }
        i += 1;
    }
    true
}

impl Token {
    fn new(token_type: TokenType, token_pos: &TokenPos) -> (token: Token)
        ensures
            token@ == token_at(token_type@, token_pos@),
            token.token_type == token_type,
    {
        Token { token_type, line: token_pos.line, line_pos: (token_pos.start, token_pos.end) }
    }
}

/// The kind of one piece, or none, where `plain` says whether all of its
/// characters are alphanumeric.
pub fn token_type_given(content: &Vec<char>, plain: bool) -> (r: Option<TokenType>)
    ensures
        match r {
            Some(t) => classify_given(content@, plain) == Some(t@),
            None => classify_given(content@, plain) is None,
        },
{
    if float_literal(content) {
        return Some(TokenType::Number(to_text(content)));
    }
    if plain {
        return Some(TokenType::Identifier(to_text(content)));
    }
    if content.len() != 1 {
        return None;
    }
    match content[0] {
        '+' => Some(TokenType::Plus),
        '-' => Some(TokenType::Minus),
        '*' => Some(TokenType::Star),
        '/' => Some(TokenType::Divide),
        '(' => Some(TokenType::Parenthisies(Side::Left)),
        ')' => Some(TokenType::Parenthisies(Side::Right)),
        _ => None,
    }
}

/// The kind of one piece, or none.
pub fn token_type_of(content: &Vec<char>) -> (r: Option<TokenType>)
    ensures
        match r {
            Some(t) => classify(content@) == Some(t@),
            None => classify(content@) is None,
        },
{
    token_type_given(content, is_all_alphanumeric(content))
}

/// Gives each piece its kind, in order, and stops at the first that has none.
pub fn give_tokens_types(token_pos: Vec<TokenPos>) -> (r: Result<
    Vec<Token>,
    (Token, &'static str),
>)
    ensures
        typed(pieces_of(token_pos@), r),
{
    let mut tokens: Vec<Token> = Vec::new();
    let mut i: usize = 0;
    while i < token_pos.len()
        invariant
            i <= token_pos@.len(),
            tokens@.len() == i,
            forall|k: int| 0 <= k < i ==> fits(#[trigger] tokens@[k], token_pos@[k]@),
        decreases token_pos@.len() - i,
    {
        let piece: &TokenPos = &token_pos[i];
        match token_type_of(&piece.content) {
            Some(token_type) => {
                tokens.push(Token::new(token_type, piece));
            },
            None => {
                let text: String = to_text(&piece.content);
                let token: Token = Token::new(TokenType::Identifier(text), piece);
                proof {
                    let ps = pieces_of(token_pos@);
                    assert(classify(ps[i as int].content) is None);
                    assert(blames(token, ps[i as int]));
                    assert forall|j: int| 0 <= j < i implies classify(
                        #[trigger] ps[j].content,
                    ) is Some by {
                        assert(fits(tokens@[j], token_pos@[j]@));
                    }
                }
                return Err((token, "Invalid token"));
            },
        }
        i += 1;
    }
    proof {
        let ps = pieces_of(token_pos@);
        assert forall|k: int| 0 <= k < ps.len() implies fits(#[trigger] tokens@[k], ps[k]) by {
            assert(fits(tokens@[k], token_pos@[k]@));
        }
    }
    Ok(tokens)
}

/// The pieces of a text: its words, cut at the symbols.
pub open spec fn pieces(text: Seq<char>) -> Seq<Piece> {
    split_pieces(words(text, text.len() as int))
}

/// Tokenizes the text: the tokens of its pieces in order, or the first piece
/// that is no token. The tokens, read from left to right, hold the
/// characters of the text that are no whitespace.
pub fn run(string: &String) -> (r: Result<Vec<Token>, (Token, &'static str)>)
    ensures
        typed(pieces(string@), r),
        match r {
            Ok(tokens) => joined(models_of(tokens@)) == solid(string@, string@.len() as int),
            Err(_) => true,
        },
{
    let token_pos: Vec<TokenPos> = split_whitespace_to_tokens(string);
    let token_pos: Vec<TokenPos> = split_inside_tokens(&token_pos);
    let r = give_tokens_types(token_pos);
    proof {
        lemma_pieces_rebuild(string@);
        if r is Ok {
            lemma_tokens_rebuild(pieces(string@), r->Ok_0@);
        }
    }
    r
}

} // verus!
