//! The Veloct kernel language: a lexer over characters, a single-pass parser
//! for modules of (GPU) functions, and a bytecode emitter.
//!
//! Floating-point literals are carried as the text they were written with; the
//! conversion to `f64`/`f32` is left to the caller.

use vstd::prelude::*;
use crate::chars::{char_is_alphabetic, char_is_numeric, char_is_whitespace, char_is_alphanumeric};

verus! {

broadcast use vstd::std_specs::vec::axiom_vec_index_decreases;

// ============================================================================
// 1. LEXER / TOKENIZER
// ============================================================================

#[derive(Debug, Clone, PartialEq)]
pub enum Token {
    Module, Struct, System, Public, Kernel, Fn, Mut, Let, Return, If, Else, While,
    GPUCompute, Ident(String), IntLit(i64),
    /// A numeric literal with a decimal point, as written in the source.
    FloatLit(String),
    Colon, Semicolon, Comma, Dot, Assign,
    Plus, Minus, Star, Slash, Modulo,
    LParen, RParen, LBrace, RBrace, LBracket, RBracket,
    Eof,
}

/// What a token stands for; identifiers and float literals by their characters.
pub enum TokenModel {
    Module, Struct, System, Public, Kernel, Fn, Mut, Let, Return, If, Else, While,
    GPUCompute, Ident(Seq<char>), IntLit(i64), FloatLit(Seq<char>),
    Colon, Semicolon, Comma, Dot, Assign,
    Plus, Minus, Star, Slash, Modulo,
    LParen, RParen, LBrace, RBrace, LBracket, RBracket,
    Eof,
}

impl View for Token {
    type V = TokenModel;

    open spec fn view(&self) -> TokenModel {
        match self {
            Token::Module => TokenModel::Module,
            Token::Struct => TokenModel::Struct,
            Token::System => TokenModel::System,
            Token::Public => TokenModel::Public,
            Token::Kernel => TokenModel::Kernel,
            Token::Fn => TokenModel::Fn,
            Token::Mut => TokenModel::Mut,
            Token::Let => TokenModel::Let,
            Token::Return => TokenModel::Return,
            Token::If => TokenModel::If,
            Token::Else => TokenModel::Else,
            Token::While => TokenModel::While,
            Token::GPUCompute => TokenModel::GPUCompute,
            Token::Ident(s) => TokenModel::Ident(s@),
            Token::IntLit(v) => TokenModel::IntLit(*v),
            Token::FloatLit(s) => TokenModel::FloatLit(s@),
            Token::Colon => TokenModel::Colon,
            Token::Semicolon => TokenModel::Semicolon,
            Token::Comma => TokenModel::Comma,
            Token::Dot => TokenModel::Dot,
            Token::Assign => TokenModel::Assign,
            Token::Plus => TokenModel::Plus,
            Token::Minus => TokenModel::Minus,
            Token::Star => TokenModel::Star,
            Token::Slash => TokenModel::Slash,
            Token::Modulo => TokenModel::Modulo,
            Token::LParen => TokenModel::LParen,
            Token::RParen => TokenModel::RParen,
            Token::LBrace => TokenModel::LBrace,
            Token::RBrace => TokenModel::RBrace,
            Token::LBracket => TokenModel::LBracket,
            Token::RBracket => TokenModel::RBracket,
            Token::Eof => TokenModel::Eof,
        }
    }
}

/// The keyword a word stands for, if it is one.
pub open spec fn keyword(w: Seq<char>) -> Option<TokenModel> {
    if w == seq!['m', 'o', 'd', 'u', 'l', 'e'] {
        Some(TokenModel::Module)
    } else if w == seq!['s', 't', 'r', 'u', 'c', 't'] {
        Some(TokenModel::Struct)
    } else if w == seq!['s', 'y', 's', 't', 'e', 'm'] {
        Some(TokenModel::System)
    } else if w == seq!['p', 'u', 'b', 'l', 'i', 'c'] {
        Some(TokenModel::Public)
    } else if w == seq!['k', 'e', 'r', 'n', 'e', 'l'] {
        Some(TokenModel::Kernel)
    } else if w == seq!['f', 'n'] {
        Some(TokenModel::Fn)
    } else if w == seq!['m', 'u', 't'] {
        Some(TokenModel::Mut)
    } else if w == seq!['l', 'e', 't'] {
        Some(TokenModel::Let)
    } else if w == seq!['r', 'e', 't', 'u', 'r', 'n'] {
        Some(TokenModel::Return)
    } else if w == seq!['i', 'f'] {
        Some(TokenModel::If)
    } else if w == seq!['e', 'l', 's', 'e'] {
        Some(TokenModel::Else)
    } else if w == seq!['w', 'h', 'i', 'l', 'e'] {
        Some(TokenModel::While)
    } else if w == seq!['G', 'P', 'U', 'C', 'o', 'm', 'p', 'u', 't', 'e'] {
        Some(TokenModel::GPUCompute)
    } else {
        None
    }
}

/// The token of a single-character symbol; any other character reads as `Eof`.
pub open spec fn symbol(c: char) -> TokenModel {
    if c == ':' {
        TokenModel::Colon
    } else if c == ';' {
        TokenModel::Semicolon
    } else if c == ',' {
        TokenModel::Comma
    } else if c == '.' {
        TokenModel::Dot
    } else if c == '=' {
        TokenModel::Assign
    } else if c == '+' {
        TokenModel::Plus
    } else if c == '-' {
        TokenModel::Minus
    } else if c == '*' {
        TokenModel::Star
    } else if c == '/' {
        TokenModel::Slash
    } else if c == '%' {
        TokenModel::Modulo
    } else if c == '(' {
        TokenModel::LParen
    } else if c == ')' {
        TokenModel::RParen
    } else if c == '{' {
        TokenModel::LBrace
    } else if c == '}' {
        TokenModel::RBrace
    } else if c == '[' {
        TokenModel::LBracket
    } else if c == ']' {
        TokenModel::RBracket
    } else {
        TokenModel::Eof
    }
}

/// Whether `c` is one of the ASCII digits `0` to `9`.
pub open spec fn is_digit(c: char) -> bool {
    '0' <= c <= '9'
}

/// The value of a string of decimal digits (read as if every character were a digit).
pub open spec fn decimal(t: Seq<char>) -> int
    decreases t.len(),
{
    if t.len() == 0 {
        0
    } else {
        10 * decimal(t.drop_last()) + (t.last() as int - '0' as int)
    }
}

/// What `str::parse::<i64>` gives for a nonempty string without sign: the
/// decimal value when every character is an ASCII digit and the value fits.
pub open spec fn parse_i64(t: Seq<char>) -> Option<i64> {
    if t.len() > 0 && (forall|i: int| 0 <= i < t.len() ==> is_digit(#[trigger] t[i]))
        && decimal(t) <= i64::MAX {
        Some(decimal(t) as i64)
    } else {
        None
    }
}

/// The token of a numeric literal's text: a float literal when it holds a
/// decimal point, else an integer literal whose value is 0 when the text is no
/// `i64` (a digit that is not ASCII, or too large a value).
pub open spec fn number_token(t: Seq<char>) -> TokenModel {
    if t.contains('.') {
        TokenModel::FloatLit(t)
    } else {
        match parse_i64(t) {
            Some(v) => TokenModel::IntLit(v),
            None => TokenModel::IntLit(0),
        }
    }
}

/// The index of the end of the line that `p` is on (of the next `'\n'`, or the end).
pub open spec fn line_end(s: Seq<char>, p: nat) -> nat
    decreases s.len() - p,
{
    if p < s.len() && s[p as int] != '\n' {
        line_end(s, p + 1)
    } else {
        p
    }
}

pub proof fn lemma_line_end(s: Seq<char>, p: nat)
    ensures
        p <= line_end(s, p),
        p <= s.len() ==> line_end(s, p) <= s.len(),
    decreases s.len() - p,
{
    if p < s.len() && s[p as int] != '\n' {
        lemma_line_end(s, p + 1);
    }
}

/// Whether a `//` comment starts at `p`.
pub open spec fn comment_at(s: Seq<char>, p: nat) -> bool {
    p + 1 < s.len() && s[p as int] == '/' && s[p + 1int] == '/'
}

/// The first index from `p` on that is not white space or inside a `//` comment.
pub open spec fn skip_blank(s: Seq<char>, p: nat) -> nat
    decreases s.len() - p,
{
    if p < s.len() {
        if char_is_whitespace(s[p as int]) {
            skip_blank(s, p + 1)
        } else if comment_at(s, p) {
            proof {
                lemma_line_end(s, p);
                assert(line_end(s, p) == line_end(s, p + 1));
                lemma_line_end(s, p + 1);
            }
            skip_blank(s, line_end(s, p))
        } else {
            p
        }
    } else {
        p
    }
}

pub proof fn lemma_skip_blank(s: Seq<char>, p: nat)
    ensures
        p <= skip_blank(s, p),
        p <= s.len() ==> skip_blank(s, p) <= s.len(),
    decreases s.len() - p,
{
    if p < s.len() {
        if char_is_whitespace(s[p as int]) {
            lemma_skip_blank(s, p + 1);
        } else if comment_at(s, p) {
            lemma_line_end(s, p);
            assert(line_end(s, p) == line_end(s, p + 1));
            lemma_line_end(s, p + 1);
            lemma_skip_blank(s, line_end(s, p));
        }
    }
}

/// `skip_blank` stops at a character that is neither white space nor the
/// start of a comment, or at the end.
pub proof fn lemma_skip_blank_stops(s: Seq<char>, p: nat)
    ensures
        ({
            let q = skip_blank(s, p);
            q < s.len() ==> !char_is_whitespace(s[q as int]) && !comment_at(s, q)
        }),
    decreases s.len() - p,
{
    if p < s.len() {
        if char_is_whitespace(s[p as int]) {
            lemma_skip_blank_stops(s, p + 1);
        } else if comment_at(s, p) {
            lemma_line_end(s, p);
            assert(line_end(s, p) == line_end(s, p + 1));
            lemma_line_end(s, p + 1);
            lemma_skip_blank_stops(s, line_end(s, p));
        }
    }
}

/// White space and comments do not change what the lexer reads: lexing from
/// `p` gives what lexing from the first character after them gives.
pub proof fn lemma_blank_insensitive(s: Seq<char>, p: nat)
    ensures
        lex_step(s, p) == lex_step(s, skip_blank(s, p)),
{
    let q = skip_blank(s, p);
    lemma_skip_blank_stops(s, p);
    assert(skip_blank(s, q) == q);
}

/// Whether `c` continues an identifier or keyword.
pub open spec fn word_char(c: char) -> bool {
    char_is_alphanumeric(c) || c == '_'
}

/// Whether `c` continues a numeric literal.
pub open spec fn number_char(c: char) -> bool {
    char_is_numeric(c) || c == '.'
}

/// The end of the run of word characters from `p` on.
pub open spec fn word_end(s: Seq<char>, p: nat) -> nat
    decreases s.len() - p,
{
    if p < s.len() && word_char(s[p as int]) {
        word_end(s, p + 1)
    } else {
        p
    }
}

/// The end of the run of number characters from `p` on.
pub open spec fn number_end(s: Seq<char>, p: nat) -> nat
    decreases s.len() - p,
{
    if p < s.len() && number_char(s[p as int]) {
        number_end(s, p + 1)
    } else {
        p
    }
}

pub proof fn lemma_word_end(s: Seq<char>, p: nat)
    ensures
        p <= word_end(s, p),
        p <= s.len() ==> word_end(s, p) <= s.len(),
        forall|i: int| p <= i < word_end(s, p) ==> word_char(#[trigger] s[i]),
        p < s.len() && word_char(s[p as int]) ==> p < word_end(s, p),
    decreases s.len() - p,
{
    if p < s.len() && word_char(s[p as int]) {
        lemma_word_end(s, p + 1);
    }
}

pub proof fn lemma_number_end(s: Seq<char>, p: nat)
    ensures
        p <= number_end(s, p),
        p <= s.len() ==> number_end(s, p) <= s.len(),
        forall|i: int| p <= i < number_end(s, p) ==> number_char(#[trigger] s[i]),
        p < s.len() && number_char(s[p as int]) ==> p < number_end(s, p),
    decreases s.len() - p,
{
    if p < s.len() && number_char(s[p as int]) {
        lemma_number_end(s, p + 1);
    }
}

/// One step of the lexer on `s` from index `p`: the token and the index after it.
pub open spec fn lex_step(s: Seq<char>, p: nat) -> (TokenModel, nat) {
    let q = skip_blank(s, p);
    if q >= s.len() {
        (TokenModel::Eof, q)
    } else {
        let c = s[q as int];
        if char_is_alphabetic(c) || c == '_' {
            let r = word_end(s, q);
            let w = s.subrange(q as int, r as int);
            (
                match keyword(w) {
                    Some(k) => k,
                    None => TokenModel::Ident(w),
                },
                r,
            )
        } else if char_is_numeric(c) {
            let r = number_end(s, q);
            (number_token(s.subrange(q as int, r as int)), r)
        } else {
            (symbol(c), q + 1)
        }
    }
}

/// The lexer reads nothing past the end, and moves forward unless it is at the end.
pub proof fn lemma_lex_step(s: Seq<char>, p: nat)
    ensures
        p <= s.len() ==> p <= lex_step(s, p).1 <= s.len(),
        p < s.len() && skip_blank(s, p) < s.len() ==> p < lex_step(s, p).1,
        lex_step(s, p).1 == p ==> lex_step(s, p).0 is Eof,
        p >= s.len() ==> lex_step(s, p) == (TokenModel::Eof, p),
{
    lemma_skip_blank(s, p);
    let q = skip_blank(s, p);
    if q < s.len() {
        lemma_word_end(s, q);
        lemma_number_end(s, q);
        let c = s[q as int];
        if char_is_alphabetic(c) || c == '_' {
            assert(word_char(c));
        } else if char_is_numeric(c) {
            assert(number_char(c));
        }
    }
}

/// A lexer over the characters of a source.
pub struct Lexer<'a> {
    input: &'a [char],
    pos: usize,
}

impl<'a> Lexer<'a> {
    /// The characters being read.
    pub closed spec fn text(&self) -> Seq<char> {
        self.input@
    }

    /// The index of the next character to read.
    pub closed spec fn position(&self) -> nat {
        self.pos as nat
    }

    pub closed spec fn wf(&self) -> bool {
        self.pos <= self.input@.len()
    }

    /// A well-formed lexer stands within its text.
    pub proof fn lemma_position_in_text(&self)
        requires
            self.wf(),
        ensures
            self.position() <= self.text().len(),
    {
    }

    /// A lexer at the start of `source`.
    pub fn new(source: &'a [char]) -> (lexer: Self)
        ensures
            lexer.wf(),
            lexer.text() == source@,
            lexer.position() == 0,
    {
        Lexer { input: source, pos: 0 }
    }

    /// Moves past white space and `//` comments (up to the end of their line).
    pub fn skip_whitespace_and_comments(&mut self)
        requires
            old(self).wf(),
        ensures
            final(self).wf(),
            final(self).text() == old(self).text(),
            final(self).position() == skip_blank(old(self).text(), old(self).position()),
    {
        let ghost s = self.input@;
        let ghost p0 = self.pos as nat;
        proof { lemma_skip_blank(s, p0); }
        while self.pos < self.input.len()
            invariant
                s == self.input@,
                self.pos <= s.len(),
                skip_blank(s, p0) == skip_blank(s, self.pos as nat),
            ensures
                s == self.input@,
                self.pos <= s.len(),
                skip_blank(s, p0) == self.pos,
            decreases s.len() - self.pos,
        {
            let ch = self.input[self.pos];
            if crate::chars::whitespace(ch) {
                self.pos += 1;
            } else if ch == '/' && self.pos + 1 < self.input.len() && self.input[self.pos + 1] == '/' {
                let ghost start = self.pos as nat;
                while self.pos < self.input.len() && self.input[self.pos] != '\n'
                    invariant
                        s == self.input@,
                        start <= self.pos <= s.len(),
                        line_end(s, start) == line_end(s, self.pos as nat),
                    decreases s.len() - self.pos,
                {
                    self.pos += 1;
                }
                proof {
                    lemma_line_end(s, start);
                }
            } else {
                break;
            }
        }
    }

    /// Reads the next token after white space and comments.
    pub fn next_token(&mut self) -> (token: Token)
        requires
            old(self).wf(),
        ensures
            final(self).wf(),
            final(self).text() == old(self).text(),
            (token@, final(self).position()) == lex_step(old(self).text(), old(self).position()),
    {
        self.skip_whitespace_and_comments();
        if self.pos >= self.input.len() {
            return Token::Eof;
        }

        let ghost s = self.input@;
        let ch = self.input[self.pos];

        // Identifiers and Keywords
        if crate::chars::alphabetic(ch) || ch == '_' {
            let start: usize = self.pos;
            while self.pos < self.input.len()
                && (crate::chars::alphanumeric(self.input[self.pos]) || self.input[self.pos] == '_')
                invariant
                    s == self.input@,
                    start <= self.pos <= s.len(),
                    word_end(s, start as nat) == word_end(s, self.pos as nat),
                decreases s.len() - self.pos,
            {
                self.pos += 1;
            }
            return word_token(self.input, start, self.pos);
        }

        // Numeric Literals
        if crate::chars::numeric(ch) {
            let start: usize = self.pos;
            let mut is_float = false;
            while self.pos < self.input.len()
                && (crate::chars::numeric(self.input[self.pos]) || self.input[self.pos] == '.')
                invariant
                    s == self.input@,
                    start <= self.pos <= s.len(),
                    number_end(s, start as nat) == number_end(s, self.pos as nat),
                    is_float == s.subrange(start as int, self.pos as int).contains('.'),
                decreases s.len() - self.pos,
            {
                proof {
                    let t = s.subrange(start as int, self.pos as int);
                    let x = s[self.pos as int];
                    let t2 = s.subrange(start as int, self.pos + 1);
                    assert(t2 =~= t.push(x));
                    if x == '.' {
                        assert(t2[t.len() as int] == '.');
                    }
                    if t.contains('.') {
                        let k = choose|k: int| 0 <= k < t.len() && t[k] == '.';
                        assert(t2[k] == '.');
                    }
                    if t2.contains('.') {
                        let k = choose|k: int| 0 <= k < t2.len() && t2[k] == '.';
                        if k < t.len() {
                            assert(t[k] == '.');
                        }
                    }
                    assert(t2.contains('.') == (t.contains('.') || x == '.'));
                }
                if self.input[self.pos] == '.' {
                    is_float = true;
                }
                self.pos += 1;
            }
            let digits = &self.input[start..self.pos];
            assert(digits@ =~= s.subrange(start as int, self.pos as int));
            if is_float {
                return Token::FloatLit(crate::text::string_from_chars(digits));
            } else {
                proof {
                    lemma_number_end(s, start as nat);
                }
                return match parse_decimal(digits) {
                    Some(v) => Token::IntLit(v),
                    None => Token::IntLit(0),
                };
            }
        }

        // Single Character Symbols
        self.pos += 1;
        symbol_token(ch)
    }
}

/// The token of the word `input[start..end]`: a keyword, or an identifier.
fn word_token(input: &[char], start: usize, end: usize) -> (t: Token)
    requires
        start <= end <= input@.len(),
    ensures
        t@ == (match keyword(input@.subrange(start as int, end as int)) {
            Some(k) => k,
            None => TokenModel::Ident(input@.subrange(start as int, end as int)),
        }),
{
    let w = &input[start..end];
    assert(w@ =~= input@.subrange(start as int, end as int));
    if same_chars(w, &['m', 'o', 'd', 'u', 'l', 'e']) {
        Token::Module
    } else if same_chars(w, &['s', 't', 'r', 'u', 'c', 't']) {
        Token::Struct
    } else if same_chars(w, &['s', 'y', 's', 't', 'e', 'm']) {
        Token::System
    } else if same_chars(w, &['p', 'u', 'b', 'l', 'i', 'c']) {
        Token::Public
    } else if same_chars(w, &['k', 'e', 'r', 'n', 'e', 'l']) {
        Token::Kernel
    } else if same_chars(w, &['f', 'n']) {
        Token::Fn
    } else if same_chars(w, &['m', 'u', 't']) {
        Token::Mut
    } else if same_chars(w, &['l', 'e', 't']) {
        Token::Let
    } else if same_chars(w, &['r', 'e', 't', 'u', 'r', 'n']) {
        Token::Return
    } else if same_chars(w, &['i', 'f']) {
        Token::If
    } else if same_chars(w, &['e', 'l', 's', 'e']) {
        Token::Else
    } else if same_chars(w, &['w', 'h', 'i', 'l', 'e']) {
        Token::While
    } else if same_chars(w, &['G', 'P', 'U', 'C', 'o', 'm', 'p', 'u', 't', 'e']) {
        Token::GPUCompute
    } else {
        Token::Ident(crate::text::string_from_chars(w))
    }
}

/// Whether two character slices hold the same characters.
fn same_chars(a: &[char], b: &[char]) -> (r: bool)
    ensures
        r == (a@ == b@),
{
    if a.len() != b.len() {
        return false;
    }
    let mut i: usize = 0;
    while i < a.len()
        invariant
            a@.len() == b@.len(),
            i <= a@.len(),
            forall|j: int| 0 <= j < i ==> a@[j] == b@[j],
        decreases a@.len() - i,
    {
        if a[i] != b[i] {
            return false;
        }
        i += 1;
    }
    assert(a@ =~= b@);
    true
}

/// The token of a single-character symbol.
fn symbol_token(c: char) -> (t: Token)
    ensures
        t@ == symbol(c),
{
    match c {
        ':' => Token::Colon,
        ';' => Token::Semicolon,
        ',' => Token::Comma,
        '.' => Token::Dot,
        '=' => Token::Assign,
        '+' => Token::Plus,
        '-' => Token::Minus,
        '*' => Token::Star,
        '/' => Token::Slash,
        '%' => Token::Modulo,
        '(' => Token::LParen,
        ')' => Token::RParen,
        '{' => Token::LBrace,
        '}' => Token::RBrace,
        '[' => Token::LBracket,
        ']' => Token::RBracket,
        _ => Token::Eof,
    }
}

/// The decimal value of a digit string prefix is at most that of the whole.
pub proof fn lemma_decimal_prefix(t: Seq<char>, i: int)
    requires
        0 <= i <= t.len(),
        forall|k: int| 0 <= k < t.len() ==> is_digit(#[trigger] t[k]),
    ensures
        0 <= decimal(t.take(i)) <= decimal(t),
    decreases t.len() - i,
{
    if i < t.len() {
        lemma_decimal_prefix(t, i + 1);
        assert(t.take(i + 1).drop_last() =~= t.take(i));
        assert(t.take(i + 1).last() == t[i]);
    } else {
        assert(t.take(i) =~= t);
    }
    lemma_decimal_nonneg(t.take(i));
}

pub proof fn lemma_decimal_nonneg(t: Seq<char>)
    requires
        forall|k: int| 0 <= k < t.len() ==> is_digit(#[trigger] t[k]),
    ensures
        0 <= decimal(t),
    decreases t.len(),
{
    if t.len() > 0 {
        assert(forall|k: int| 0 <= k < t.drop_last().len() ==> t.drop_last()[k] == t[k]);
        lemma_decimal_nonneg(t.drop_last());
    }
}

/// `str::parse::<i64>` on the text of a numeric literal.
fn parse_decimal(digits: &[char]) -> (r: Option<i64>)
    requires
        digits@.len() > 0,
    ensures
        r == parse_i64(digits@),
{
    let ghost t = digits@;
    let mut v: i64 = 0;
    let mut i: usize = 0;
    assert(t.take(0) =~= Seq::<char>::empty());
    while i < digits.len()
        invariant
            t == digits@,
            i <= t.len(),
            forall|k: int| 0 <= k < i ==> is_digit(#[trigger] t[k]),
            v == decimal(t.take(i as int)),
            0 <= v,
        decreases t.len() - i,
    {
        let c = digits[i];
        if !('0' <= c && c <= '9') {
            assert(!is_digit(t[i as int]));
            return None;
        }
        let d: i64 = (c as u32 - '0' as u32) as i64;
        assert(t.take(i + 1).drop_last() =~= t.take(i as int));
        assert(t.take(i + 1).last() == c);
        if v > (i64::MAX - d) / 10 {
            proof {
                assert(decimal(t.take(i + 1)) == 10 * v + d);
                assert(10 * v + d > i64::MAX);
                if forall|k: int| 0 <= k < t.len() ==> is_digit(#[trigger] t[k]) {
                    lemma_decimal_prefix(t, i + 1);
                }
            }
            return None;
        }
        v = v * 10 + d;
        i += 1;
    }
    assert(t.take(t.len() as int) =~= t);
    Some(v)
}


impl Token {
    /// A copy of this token.
    pub(crate) fn duplicate(&self) -> (t: Token)
        ensures
            t@ == self@,
    {
        match self {
            Token::Ident(s) => Token::Ident(s.clone()),
            Token::IntLit(v) => Token::IntLit(*v),
            Token::FloatLit(s) => Token::FloatLit(s.clone()),
            Token::Module => Token::Module,
            Token::Struct => Token::Struct,
            Token::System => Token::System,
            Token::Public => Token::Public,
            Token::Kernel => Token::Kernel,
            Token::Fn => Token::Fn,
            Token::Mut => Token::Mut,
            Token::Let => Token::Let,
            Token::Return => Token::Return,
            Token::If => Token::If,
            Token::Else => Token::Else,
            Token::While => Token::While,
            Token::GPUCompute => Token::GPUCompute,
            Token::Colon => Token::Colon,
            Token::Semicolon => Token::Semicolon,
            Token::Comma => Token::Comma,
            Token::Dot => Token::Dot,
            Token::Assign => Token::Assign,
            Token::Plus => Token::Plus,
            Token::Minus => Token::Minus,
            Token::Star => Token::Star,
            Token::Slash => Token::Slash,
            Token::Modulo => Token::Modulo,
            Token::LParen => Token::LParen,
            Token::RParen => Token::RParen,
            Token::LBrace => Token::LBrace,
            Token::RBrace => Token::RBrace,
            Token::LBracket => Token::LBracket,
            Token::RBracket => Token::RBracket,
            Token::Eof => Token::Eof,
        }
    }

    /// The variant of this token, as a number (what `std::mem::discriminant` tells apart).
    pub(crate) fn kind(&self) -> (k: u8)
        ensures
            k == token_kind(self@),
    {
        match self {
            Token::Module => 0,
            Token::Struct => 1,
            Token::System => 2,
            Token::Public => 3,
            Token::Kernel => 4,
            Token::Fn => 5,
            Token::Mut => 6,
            Token::Let => 7,
            Token::Return => 8,
            Token::If => 9,
            Token::Else => 10,
            Token::While => 11,
            Token::GPUCompute => 12,
            Token::Ident(_) => 13,
            Token::IntLit(_) => 14,
            Token::FloatLit(_) => 15,
            Token::Colon => 16,
            Token::Semicolon => 17,
            Token::Comma => 18,
            Token::Dot => 19,
            Token::Assign => 20,
            Token::Plus => 21,
            Token::Minus => 22,
            Token::Star => 23,
            Token::Slash => 24,
            Token::Modulo => 25,
            Token::LParen => 26,
            Token::RParen => 27,
            Token::LBrace => 28,
            Token::RBrace => 29,
            Token::LBracket => 30,
            Token::RBracket => 31,
            Token::Eof => 32,
        }
    }
}

/// The variant of a token, as a number.
pub open spec fn token_kind(t: TokenModel) -> u8 {
    match t {
        TokenModel::Module => 0,
        TokenModel::Struct => 1,
        TokenModel::System => 2,
        TokenModel::Public => 3,
        TokenModel::Kernel => 4,
        TokenModel::Fn => 5,
        TokenModel::Mut => 6,
        TokenModel::Let => 7,
        TokenModel::Return => 8,
        TokenModel::If => 9,
        TokenModel::Else => 10,
        TokenModel::While => 11,
        TokenModel::GPUCompute => 12,
        TokenModel::Ident(_) => 13,
        TokenModel::IntLit(_) => 14,
        TokenModel::FloatLit(_) => 15,
        TokenModel::Colon => 16,
        TokenModel::Semicolon => 17,
        TokenModel::Comma => 18,
        TokenModel::Dot => 19,
        TokenModel::Assign => 20,
        TokenModel::Plus => 21,
        TokenModel::Minus => 22,
        TokenModel::Star => 23,
        TokenModel::Slash => 24,
        TokenModel::Modulo => 25,
        TokenModel::LParen => 26,
        TokenModel::RParen => 27,
        TokenModel::LBrace => 28,
        TokenModel::RBrace => 29,
        TokenModel::LBracket => 30,
        TokenModel::RBracket => 31,
        TokenModel::Eof => 32,
    }
}

// ============================================================================
// 2. ABSTRACT SYNTAX TREE (AST)
// ============================================================================

#[derive(Debug)]
pub enum Type {
    I16, I32, I64, U8, U16, U32, U64, F32, F64, Bool, Vec2, Vec3, Vec4,
    Array(Box<Type>, usize),
    Custom(String),
}

#[derive(Debug)]
pub enum ASTExpr {
    LiteralInt(i64),
    /// A floating-point literal, as written in the source.
    LiteralFloat(String),
    Variable(String),
    BinaryOp { left: Box<ASTExpr>, op: char, right: Box<ASTExpr> },
    FnCall { name: String, args: Vec<ASTExpr> },
}

#[derive(Debug, Clone)]
pub enum ASTStmt {
    LetDecl { name: String, is_mut: bool, init: ASTExpr },
    Assign { name: String, value: ASTExpr },
    Return(Option<ASTExpr>),
    Expr(ASTExpr),
}

#[derive(Debug, Clone)]
pub struct ASTFunction {
    pub name: String,
    pub is_gpu_kernel: bool,
    pub is_public: bool,
    pub params: Vec<(String, Type)>,
    pub return_type: Option<Type>,
    pub body: Vec<ASTStmt>,
}

#[derive(Debug, Clone)]
pub struct ASTModule {
    pub name: String,
    pub functions: Vec<ASTFunction>,
}

/// A numeric literal: an integer, or the text of a floating-point literal.
pub enum LiteralModel {
    Int(i64),
    Float(Seq<char>),
}

/// The statements the parser builds.
pub enum StmtModel {
    Let { name: Seq<char>, is_mut: bool, init: LiteralModel },
    Return,
}

/// A function as the parser reads it.
pub struct FunctionModel {
    pub name: Seq<char>,
    pub is_gpu_kernel: bool,
    pub is_public: bool,
    /// Whether a return type was announced (`-`), which the parser reads as `f32`.
    pub returns_f32: bool,
    pub body: Seq<StmtModel>,
}

/// A module as the parser reads it.
pub struct ModuleModel {
    pub name: Seq<char>,
    pub functions: Seq<FunctionModel>,
}

/// The text `0.0`, which stands for the initializer of a `let` whose
/// initializer is not a numeric literal.
pub open spec fn zero_text() -> Seq<char> {
    seq!['0', '.', '0']
}

/// The statement model of a statement of the forms the parser builds.
pub open spec fn stmt_model(s: ASTStmt) -> Option<StmtModel> {
    match s {
        ASTStmt::LetDecl { name, is_mut, init } => match init {
            ASTExpr::LiteralInt(v) => Some(StmtModel::Let { name: name@, is_mut, init: LiteralModel::Int(v) }),
            ASTExpr::LiteralFloat(t) => Some(StmtModel::Let { name: name@, is_mut, init: LiteralModel::Float(t@) }),
            _ => None,
        },
        ASTStmt::Return(None) => Some(StmtModel::Return),
        _ => None,
    }
}

/// `body` consists of the statements `m`.
pub open spec fn body_matches(body: Seq<ASTStmt>, m: Seq<StmtModel>) -> bool {
    &&& body.len() == m.len()
    &&& forall|i: int| 0 <= i < body.len() ==> stmt_model(#[trigger] body[i]) == Some(m[i])
}

/// `f` is the function `m`: no parameters, and the return type `f32` exactly
/// when one was announced.
pub open spec fn function_matches(f: ASTFunction, m: FunctionModel) -> bool {
    &&& f.name@ == m.name
    &&& f.is_gpu_kernel == m.is_gpu_kernel
    &&& f.is_public == m.is_public
    &&& f.params@.len() == 0
    &&& f.return_type == (if m.returns_f32 { Some(Type::F32) } else { None })
    &&& body_matches(f.body@, m.body)
}

/// `a` is the module `m`.
pub open spec fn module_matches(a: ASTModule, m: ModuleModel) -> bool {
    &&& a.name@ == m.name
    &&& a.functions@.len() == m.functions.len()
    &&& forall|i: int| 0 <= i < m.functions.len() ==> function_matches(#[trigger] a.functions@[i], m.functions[i])
}

impl Clone for Type {
    fn clone(&self) -> (t: Self)
        ensures
            t == *self,
        decreases self,
    {
        match self {
            Type::I16 => Type::I16,
            Type::I32 => Type::I32,
            Type::I64 => Type::I64,
            Type::U8 => Type::U8,
            Type::U16 => Type::U16,
            Type::U32 => Type::U32,
            Type::U64 => Type::U64,
            Type::F32 => Type::F32,
            Type::F64 => Type::F64,
            Type::Bool => Type::Bool,
            Type::Vec2 => Type::Vec2,
            Type::Vec3 => Type::Vec3,
            Type::Vec4 => Type::Vec4,
            Type::Array(inner, n) => Type::Array(Box::new((**inner).clone()), *n),
            Type::Custom(name) => Type::Custom(name.clone()),
        }
    }
}

/// Whether two expressions are the same tree: equal literals, names and
/// operators at every node, and argument lists of the same length whose
/// arguments are the same trees.
pub open spec fn same_expr(a: ASTExpr, b: ASTExpr) -> bool
    decreases a,
{
    match a {
        ASTExpr::LiteralInt(x) => b == ASTExpr::LiteralInt(x),
        ASTExpr::LiteralFloat(t) => b == ASTExpr::LiteralFloat(t),
        ASTExpr::Variable(n) => b == ASTExpr::Variable(n),
        ASTExpr::BinaryOp { left, op, right } => match b {
            ASTExpr::BinaryOp { left: left2, op: op2, right: right2 } => op == op2 && same_expr(*left, *left2)
                && same_expr(*right, *right2),
            _ => false,
        },
        ASTExpr::FnCall { name, args } => match b {
            ASTExpr::FnCall { name: name2, args: args2 } => name == name2 && args.len() == args2.len() && (
            forall|i: int| 0 <= i < args.len() ==> same_expr(#[trigger] args[i], args2[i])),
            _ => false,
        },
    }
}

impl Clone for ASTExpr {
    /// A copy of the expression tree (argument lists are new vectors).
    fn clone(&self) -> (e: Self)
        ensures
            same_expr(e, *self),
        decreases self,
    {
        match self {
            ASTExpr::LiteralInt(v) => ASTExpr::LiteralInt(*v),
            ASTExpr::LiteralFloat(t) => ASTExpr::LiteralFloat(t.clone()),
            ASTExpr::Variable(name) => ASTExpr::Variable(name.clone()),
            ASTExpr::BinaryOp { left, op, right } => ASTExpr::BinaryOp {
                left: Box::new((**left).clone()),
                op: *op,
                right: Box::new((**right).clone()),
            },
            ASTExpr::FnCall { name, args } => {
                let mut copied: Vec<ASTExpr> = Vec::new();
                #[verifier::loop_isolation(false)]
                for i in 0..args.len()
                    invariant
                        copied@.len() == i,
                        forall|j: int| 0 <= j < i ==> same_expr(#[trigger] copied@[j], args@[j]),
                {
                    proof {
                        vstd::std_specs::vec::axiom_vec_index_decreases(*args, i as int);
                    }
                    let c = args[i].clone();
                    copied.push(c);
                }
                ASTExpr::FnCall { name: name.clone(), args: copied }
            },
        }
    }
}

// ============================================================================
// 3. PARSER
// ============================================================================

/// The parser's state: the source, the lexer's position, and the current token.
pub struct ParseState {
    pub text: Seq<char>,
    pub pos: nat,
    pub current: TokenModel,
}

/// The state after the current token is consumed.
pub open spec fn advance(st: ParseState) -> ParseState {
    let (t, p) = lex_step(st.text, st.pos);
    ParseState { text: st.text, pos: p, current: t }
}

/// Consumes the current token if `ok`; `None` (where parsing stops) otherwise.
pub open spec fn eat_if(st: ParseState, ok: bool) -> Option<ParseState> {
    if ok {
        Some(advance(st))
    } else {
        None
    }
}

/// A measure of the input left, which every consumption of a token other
/// than `Eof` decreases.
pub open spec fn measure(st: ParseState) -> nat {
    2 * (if st.pos <= st.text.len() { (st.text.len() - st.pos) as nat } else { 0 })
        + (if st.current is Eof { 0nat } else { 1nat })
}

pub proof fn lemma_advance(st: ParseState)
    ensures
        measure(advance(st)) <= measure(st),
        !(st.current is Eof) ==> measure(advance(st)) < measure(st),
{
    lemma_lex_step(st.text, st.pos);
}

/// The statement `let [mut] <name> = <init> ;` from `st` on (at `let`).
pub open spec fn parse_let(st: ParseState) -> Option<(StmtModel, ParseState)> {
    let st1 = advance(st);
    let is_mut = st1.current is Mut;
    let st2 = if is_mut { advance(st1) } else { st1 };
    match st2.current {
        TokenModel::Ident(name) => {
            let st3 = advance(st2);
            if st3.current is Assign {
                let st4 = advance(st3);
                let init = match st4.current {
                    TokenModel::FloatLit(t) => LiteralModel::Float(t),
                    TokenModel::IntLit(v) => LiteralModel::Int(v),
                    _ => LiteralModel::Float(zero_text()),
                };
                let st5 = advance(st4);
                match eat_if(st5, st5.current is Semicolon) {
                    Some(st6) => Some((StmtModel::Let { name, is_mut, init }, st6)),
                    None => None,
                }
            } else {
                None
            }
        },
        _ => None,
    }
}

pub proof fn lemma_parse_let(st: ParseState)
    requires
        !(st.current is Eof),
    ensures
        parse_let(st) matches Some((_, st2)) ==> measure(st2) < measure(st),
{
    let st1 = advance(st);
    lemma_advance(st);
    lemma_advance(st1);
    let st2 = if st1.current is Mut { advance(st1) } else { st1 };
    lemma_advance(st2);
    let st3 = advance(st2);
    lemma_advance(st3);
    let st4 = advance(st3);
    lemma_advance(st4);
    let st5 = advance(st4);
    lemma_advance(st5);
}

/// The statements of a function body from `st` on, up to `}` or `Eof`, after
/// those already read (`acc`); `None` where a statement is malformed.
pub open spec fn parse_body(st: ParseState, acc: Seq<StmtModel>) -> Option<(Seq<StmtModel>, ParseState)>
    decreases measure(st),
{
    if st.current is RBrace || st.current is Eof {
        Some((acc, st))
    } else if st.current is Let {
        match parse_let(st) {
            Some((stmt, st2)) => {
                proof {
                    lemma_parse_let(st);
                }
                parse_body(st2, acc.push(stmt))
            },
            None => None,
        }
    } else if st.current is Return {
        let st1 = advance(st);
        proof {
            lemma_advance(st);
            lemma_advance(st1);
        }
        if st1.current is Semicolon {
            parse_body(advance(st1), acc.push(StmtModel::Return))
        } else {
            None
        }
    } else {
        proof {
            lemma_advance(st);
        }
        parse_body(advance(st), acc)
    }
}

pub proof fn lemma_parse_body(st: ParseState, acc: Seq<StmtModel>)
    ensures
        parse_body(st, acc) matches Some((_, st2)) ==> measure(st2) <= measure(st),
    decreases measure(st),
{
    if st.current is RBrace || st.current is Eof {
    } else if st.current is Let {
        lemma_parse_let(st);
        if let Some((stmt, st2)) = parse_let(st) {
            lemma_parse_body(st2, acc.push(stmt));
        }
    } else if st.current is Return {
        let st1 = advance(st);
        lemma_advance(st);
        lemma_advance(st1);
        if st1.current is Semicolon {
            lemma_parse_body(advance(st1), acc.push(StmtModel::Return));
        }
    } else {
        lemma_advance(st);
        lemma_parse_body(advance(st), acc);
    }
}

/// An optional `[GPUCompute]` attribute: whether it marks a GPU kernel, and the
/// state after it; `None` when the `[` is not closed by `]`.
pub open spec fn parse_attribute(st: ParseState) -> Option<(bool, ParseState)> {
    if st.current is LBracket {
        let st1 = advance(st);
        let gpu = st1.current is GPUCompute;
        let st2 = if gpu { advance(st1) } else { st1 };
        match eat_if(st2, st2.current is RBracket) {
            Some(st3) => Some((gpu, st3)),
            None => None,
        }
    } else {
        Some((false, st))
    }
}

/// An optional `system [<name>] {` header; `None` when the `{` is missing.
pub open spec fn skip_system(st: ParseState) -> Option<ParseState> {
    if st.current is System {
        let st1 = advance(st);
        let st2 = if st1.current is Ident { advance(st1) } else { st1 };
        eat_if(st2, st2.current is LBrace)
    } else {
        Some(st)
    }
}

/// The function `(kernel | fn) <name> ( ) [-] { <body> }` from `st` on.
pub open spec fn parse_function(st: ParseState, gpu: bool, public: bool) -> Option<(FunctionModel, ParseState)> {
    let is_gpu_kernel = gpu || st.current is Kernel;
    let st1 = advance(st);
    match st1.current {
        TokenModel::Ident(name) => {
            let st2 = advance(st1);
            match eat_if(st2, st2.current is LParen) {
                None => None,
                Some(st3) => match eat_if(st3, st3.current is RParen) {
                    None => None,
                    Some(st4) => {
                        let returns_f32 = st4.current is Minus;
                        let st5 = if returns_f32 { advance(st4) } else { st4 };
                        match eat_if(st5, st5.current is LBrace) {
                            None => None,
                            Some(st6) => match parse_body(st6, Seq::empty()) {
                                None => None,
                                Some((body, st7)) => match eat_if(st7, st7.current is RBrace) {
                                    None => None,
                                    Some(st8) => Some((
                                        FunctionModel { name, is_gpu_kernel, is_public: public, returns_f32, body },
                                        st8,
                                    )),
                                },
                            },
                        }
                    },
                },
            }
        },
        _ => None,
    }
}

/// The measure after a prefix of an item is read: unchanged, or smaller.
pub open spec fn no_more(st1: ParseState, st: ParseState) -> bool {
    st1 == st || measure(st1) < measure(st)
}

pub proof fn lemma_item_prefix(st: ParseState)
    ensures
        parse_attribute(st) matches Some((_, st1)) ==> no_more(st1, st),
        skip_system(st) matches Some(st1) ==> no_more(st1, st),
        st.current is Public ==> measure(advance(st)) < measure(st),
{
    lemma_advance(st);
    let st1 = advance(st);
    lemma_advance(st1);
    let st2 = advance(st1);
    lemma_advance(st2);
}

pub proof fn lemma_parse_function(st: ParseState, gpu: bool, public: bool)
    requires
        !(st.current is Eof),
    ensures
        parse_function(st, gpu, public) matches Some((_, st2)) ==> measure(st2) < measure(st),
{
    let st1 = advance(st);
    lemma_advance(st);
    lemma_advance(st1);
    let st2 = advance(st1);
    lemma_advance(st2);
    let st3 = advance(st2);
    lemma_advance(st3);
    let st4 = advance(st3);
    lemma_advance(st4);
    let st5 = if st4.current is Minus { advance(st4) } else { st4 };
    lemma_advance(st5);
    let st6 = advance(st5);
    lemma_parse_body(st6, Seq::empty());
    if let Some((body, st7)) = parse_body(st6, Seq::empty()) {
        lemma_advance(st7);
    }
}

/// What precedes a function among the items: an optional `[GPUCompute]`
/// attribute, an optional `public`, and an optional `system` header. Whether
/// the attribute marks a GPU kernel, whether `public` was there, and the state
/// after them; `None` where one of them is malformed.
pub open spec fn item_prefix(st: ParseState) -> Option<(bool, bool, ParseState)> {
    match parse_attribute(st) {
        None => None,
        Some((gpu, st1)) => {
            let public = st1.current is Public;
            let st2 = if public { advance(st1) } else { st1 };
            match skip_system(st2) {
                None => None,
                Some(st3) => Some((gpu, public, st3)),
            }
        },
    }
}

pub proof fn lemma_item_prefix_measure(st: ParseState)
    ensures
        item_prefix(st) matches Some((_, _, st3)) ==> no_more(st3, st),
{
    lemma_item_prefix(st);
    if let Some((gpu, st1)) = parse_attribute(st) {
        lemma_item_prefix(st1);
        lemma_advance(st1);
        let st2 = if st1.current is Public { advance(st1) } else { st1 };
        lemma_item_prefix(st2);
    }
}

/// The items of a module from `st` on, up to `Eof`, after those already read:
/// functions (with an optional `[GPUCompute]` attribute, `public`, and an
/// enclosing `system` header), and any other token, which is skipped.
pub open spec fn parse_items(st: ParseState, acc: Seq<FunctionModel>) -> Option<(Seq<FunctionModel>, ParseState)>
    decreases measure(st),
{
    if st.current is Eof {
        Some((acc, st))
    } else {
        match item_prefix(st) {
            None => None,
            Some((gpu, public, st3)) => {
                proof {
                    lemma_item_prefix_measure(st);
                    lemma_advance(st3);
                }
                if st3.current is Kernel || st3.current is Fn {
                    match parse_function(st3, gpu, public) {
                        None => None,
                        Some((f, st4)) => {
                            proof {
                                lemma_parse_function(st3, gpu, public);
                            }
                            parse_items(st4, acc.push(f))
                        },
                    }
                } else {
                    parse_items(advance(st3), acc)
                }
            },
        }
    }
}

/// A module `module <name> ; <items>` from `st` on: its model and the state
/// after it, or `None` where the parser rejects the input.
pub open spec fn parse_module_from(st: ParseState) -> Option<(ModuleModel, ParseState)> {
    match eat_if(st, st.current is Module) {
        None => None,
        Some(st1) => match st1.current {
            TokenModel::Ident(name) => {
                let st2 = advance(st1);
                match eat_if(st2, st2.current is Semicolon) {
                    None => None,
                    Some(st3) => match parse_items(st3, Seq::empty()) {
                        None => None,
                        Some((functions, st4)) => Some((ModuleModel { name, functions }, st4)),
                    },
                }
            },
            _ => None,
        },
    }
}


/// The model of a parse result: `None` where the parser stops.
pub open spec fn module_result(st: ParseState) -> Option<ModuleModel> {
    match parse_module_from(st) {
        Some((m, _)) => Some(m),
        None => None,
    }
}

/// A single-pass parser over the tokens of a lexer.
pub struct Parser<'a> {
    lexer: Lexer<'a>,
    cur_tok: Token,
}

impl<'a> Parser<'a> {
    pub closed spec fn wf(&self) -> bool {
        self.lexer.wf()
    }

    /// A well-formed parser's lexer stands within its text.
    pub proof fn lemma_position_in_text(&self)
        requires
            self.wf(),
        ensures
            self.state().pos <= self.state().text.len(),
    {
    }

    /// The parser's state: the source, the lexer's position, and the current token.
    pub closed spec fn state(&self) -> ParseState {
        ParseState { text: self.lexer.text(), pos: self.lexer.position(), current: self.cur_tok@ }
    }

    /// A parser whose current token is the first token of `lexer`.
    pub fn new(lexer: Lexer<'a>) -> (parser: Self)
        requires
            lexer.wf(),
        ensures
            parser.wf(),
            parser.state() == advance(
                ParseState { text: lexer.text(), pos: lexer.position(), current: TokenModel::Eof },
            ),
    {
        let mut lexer = lexer;
        let first_tok = lexer.next_token();
        Parser { lexer, cur_tok: first_tok }
    }

    /// Consumes the current token.
    fn bump(&mut self)
        requires
            old(self).wf(),
        ensures
            final(self).wf(),
            final(self).state() == advance(old(self).state()),
    {
        self.cur_tok = self.lexer.next_token();
    }

    /// Whether the current token is of the same variant as `expected`.
    fn at(&self, expected: &Token) -> (ok: bool)
        ensures
            ok == (token_kind(self.state().current) == token_kind(expected@)),
    {
        self.cur_tok.kind() == expected.kind()
    }

    /// Consumes the current token, which must be of the same variant as
    /// `expected` (the variant is all that is compared).
    fn eat(&mut self, expected: Token)
        requires
            old(self).wf(),
            token_kind(old(self).state().current) == token_kind(expected@),
        ensures
            final(self).wf(),
            final(self).state() == advance(old(self).state()),
    {
        self.bump();
    }

    fn parse_let(&mut self) -> (stmt: Option<ASTStmt>)
        requires
            old(self).wf(),
            old(self).state().current is Let,
        ensures
            final(self).wf(),
            parse_let(old(self).state()) matches Some((m, st)) ==> {
                &&& stmt matches Some(s)
                &&& stmt_model(s) == Some(m)
                &&& final(self).state() == st
            },
            parse_let(old(self).state()) is None ==> stmt is None,
    {
        self.bump();
        let mut is_mut = false;
        if matches!(self.cur_tok, Token::Mut) {
            is_mut = true;
            self.bump();
        }
        let var_name = match &self.cur_tok {
            Token::Ident(n) => n.clone(),
            _ => {
                return None;
            },
        };
        self.bump();
        if !self.at(&Token::Assign) {
            return None;
        }
        self.eat(Token::Assign);
        let init_expr = match &self.cur_tok {
            Token::FloatLit(v) => ASTExpr::LiteralFloat(v.clone()),
            Token::IntLit(v) => ASTExpr::LiteralInt(*v),
            _ => {
                let zero = crate::text::string_from_chars(&['0', '.', '0']);
                ASTExpr::LiteralFloat(zero)
            },
        };
        self.bump();
        if !self.at(&Token::Semicolon) {
            return None;
        }
        self.eat(Token::Semicolon);
        Some(ASTStmt::LetDecl { name: var_name, is_mut, init: init_expr })
    }

    fn parse_body(&mut self) -> (body: Option<Vec<ASTStmt>>)
        requires
            old(self).wf(),
        ensures
            final(self).wf(),
            parse_body(old(self).state(), Seq::empty()) matches Some((m, st)) ==> {
                &&& body matches Some(b)
                &&& body_matches(b@, m)
                &&& final(self).state() == st
            },
            parse_body(old(self).state(), Seq::empty()) is None ==> body is None,
    {
        let ghost st0 = self.state();
        let ghost mut acc: Seq<StmtModel> = Seq::empty();
        let mut body: Vec<ASTStmt> = Vec::new();
        while !matches!(self.cur_tok, Token::RBrace) && !matches!(self.cur_tok, Token::Eof)
            invariant
                self.wf(),
                st0 == old(self).state(),
                parse_body(st0, Seq::empty()) == parse_body(self.state(), acc),
                body_matches(body@, acc),
            decreases measure(self.state()),
        {
            let ghost st = self.state();
            if matches!(self.cur_tok, Token::Let) {
                proof {
                    lemma_parse_let(st);
                }
                match self.parse_let() {
                    Some(stmt) => {
                        let ghost m = parse_let(st).unwrap().0;
                        body.push(stmt);
                        proof {
                            acc = acc.push(m);
                        }
                    },
                    None => {
                        return None;
                    },
                }
            } else if matches!(self.cur_tok, Token::Return) {
                proof {
                    lemma_advance(st);
                    lemma_advance(advance(st));
                }
                self.bump();
                if !self.at(&Token::Semicolon) {
                    return None;
                }
                self.eat(Token::Semicolon);
                body.push(ASTStmt::Return(None));
                proof {
                    acc = acc.push(StmtModel::Return);
                }
            } else {
                proof {
                    lemma_advance(st);
                }
                self.bump();
            }
        }
        Some(body)
    }

    fn parse_function(&mut self, gpu: bool, is_public: bool) -> (func: Option<ASTFunction>)
        requires
            old(self).wf(),
            old(self).state().current is Kernel || old(self).state().current is Fn,
        ensures
            final(self).wf(),
            parse_function(old(self).state(), gpu, is_public) matches Some((m, st)) ==> {
                &&& func matches Some(f)
                &&& function_matches(f, m)
                &&& final(self).state() == st
            },
            parse_function(old(self).state(), gpu, is_public) is None ==> func is None,
    {
        let is_gpu_kernel = gpu || matches!(self.cur_tok, Token::Kernel);
        self.bump();
        let fn_name = match &self.cur_tok {
            Token::Ident(n) => n.clone(),
            _ => {
                return None;
            },
        };
        self.bump();
        if !self.at(&Token::LParen) {
            return None;
        }
        self.eat(Token::LParen);
        if !self.at(&Token::RParen) {
            return None;
        }
        self.eat(Token::RParen);
        let mut return_type = None;
        if matches!(self.cur_tok, Token::Minus) {
            self.bump();
            return_type = Some(Type::F32);
        }
        if !self.at(&Token::LBrace) {
            return None;
        }
        self.eat(Token::LBrace);
        let body = match self.parse_body() {
            Some(b) => b,
            None => {
                return None;
            },
        };
        if !self.at(&Token::RBrace) {
            return None;
        }
        self.eat(Token::RBrace);
        Some(ASTFunction { name: fn_name, is_gpu_kernel, is_public, params: Vec::new(), return_type, body })
    }

    #[verifier::rlimit(40)]
    fn parse_item_prefix(&mut self) -> (flags: Option<(bool, bool)>)
        requires
            old(self).wf(),
        ensures
            final(self).wf(),
            item_prefix(old(self).state()) matches Some((gpu, public, st)) ==> {
                &&& flags == Some((gpu, public))
                &&& final(self).state() == st
            },
            item_prefix(old(self).state()) is None ==> flags is None,
    {
        let mut is_public = false;
        let mut is_gpu_kernel = false;

        if matches!(self.cur_tok, Token::LBracket) {
            self.bump();
            if matches!(self.cur_tok, Token::GPUCompute) {
                is_gpu_kernel = true;
                self.bump();
            }
            if !self.at(&Token::RBracket) {
                return None;
            }
            self.eat(Token::RBracket);
        }

        if matches!(self.cur_tok, Token::Public) {
            is_public = true;
            self.bump();
        }

        if matches!(self.cur_tok, Token::System) {
            self.bump();
            if matches!(self.cur_tok, Token::Ident(_)) {
                self.bump();
            }
            if !self.at(&Token::LBrace) {
                return None;
            }
            self.eat(Token::LBrace);
        }
        Some((is_gpu_kernel, is_public))
    }

    /// Parses the module from the current token on; `None` where
    /// [`Parser::parse_module`] would panic.
    fn parse_module_checked(&mut self) -> (module: Option<ASTModule>)
        requires
            old(self).wf(),
        ensures
            final(self).wf(),
            parse_module_from(old(self).state()) matches Some((m, st)) ==> {
                &&& module matches Some(a)
                &&& module_matches(a, m)
                &&& final(self).state() == st
            },
            parse_module_from(old(self).state()) is None ==> module is None,
    {
        if !self.at(&Token::Module) {
            return None;
        }
        self.eat(Token::Module);
        let mod_name = match &self.cur_tok {
            Token::Ident(name) => name.clone(),
            _ => {
                return None;
            },
        };
        self.bump();
        if !self.at(&Token::Semicolon) {
            return None;
        }
        self.eat(Token::Semicolon);

        let ghost st0 = self.state();
        let ghost mut acc: Seq<FunctionModel> = Seq::empty();
        let mut functions: Vec<ASTFunction> = Vec::new();

        while !matches!(self.cur_tok, Token::Eof)
            invariant
                self.wf(),
                parse_module_from(old(self).state()) == (match parse_items(st0, Seq::empty()) {
                    None => None,
                    Some((functions, st4)) => Some((ModuleModel { name: mod_name@, functions }, st4)),
                }),
                parse_items(st0, Seq::empty()) == parse_items(self.state(), acc),
                functions@.len() == acc.len(),
                forall|i: int| 0 <= i < acc.len() ==> function_matches(#[trigger] functions@[i], acc[i]),
            decreases measure(self.state()),
        {
            let ghost st = self.state();
            let (is_gpu_kernel, is_public) = match self.parse_item_prefix() {
                Some(flags) => flags,
                None => {
                    return None;
                },
            };
            let ghost st3 = self.state();
            proof {
                lemma_item_prefix_measure(st);
                lemma_advance(st3);
            }

            if matches!(self.cur_tok, Token::Kernel) || matches!(self.cur_tok, Token::Fn) {
                proof {
                    lemma_parse_function(st3, is_gpu_kernel, is_public);
                }
                match self.parse_function(is_gpu_kernel, is_public) {
                    Some(f) => {
                        let ghost m = parse_function(st3, is_gpu_kernel, is_public).unwrap().0;
                        functions.push(f);
                        proof {
                            acc = acc.push(m);
                        }
                    },
                    None => {
                        return None;
                    },
                }
            } else {
                self.bump();
            }
        }

        Some(ASTModule { name: mod_name, functions })
    }

    /// Parses a whole module. It requires an input that the parser accepts;
    /// [`Parser::try_parse_module`] checks that and parses any input.
    pub fn parse_module(&mut self) -> (module: ASTModule)
        requires
            old(self).wf(),
            module_result(old(self).state()) is Some,
        ensures
            final(self).wf(),
            module_matches(module, module_result(old(self).state()).unwrap()),
            final(self).state() == parse_module_from(old(self).state()).unwrap().1,
    {
        match self.parse_module_checked() {
            Some(m) => m,
            None => {
                proof {
                    assert(false);
                }
                ASTModule { name: String::new(), functions: Vec::new() }
            },
        }
    }

    /// Parses a whole module if the parser accepts the input; `None`, with
    /// nothing consumed, on an input that [`Parser::parse_module`] does not accept.
    pub fn try_parse_module(&mut self) -> (module: Option<ASTModule>)
        requires
            old(self).wf(),
        ensures
            final(self).wf(),
            module_result(old(self).state()) matches Some(m) ==> {
                &&& module matches Some(a)
                &&& module_matches(a, m)
                &&& final(self).state() == parse_module_from(old(self).state()).unwrap().1
            },
            module_result(old(self).state()) is None ==> {
                &&& module is None
                &&& final(self).state() == old(self).state()
            },
    {
        let mut probe = Parser {
            lexer: Lexer { input: self.lexer.input, pos: self.lexer.pos },
            cur_tok: self.cur_tok.duplicate(),
        };
        match probe.parse_module_checked() {
            Some(_) => Some(self.parse_module()),
            None => None,
        }
    }
}


// ============================================================================
// 4. BYTECODE EMITTER
// ============================================================================

/// The value a `PushF32` pushes: an integer or the text of a floating-point
/// literal, converted to `f32` when the bytecode is run.
#[derive(Debug, Clone)]
pub enum Literal {
    Int(i64),
    Float(String),
}

impl View for Literal {
    type V = LiteralModel;

    open spec fn view(&self) -> LiteralModel {
        match self {
            Literal::Int(v) => LiteralModel::Int(*v),
            Literal::Float(t) => LiteralModel::Float(t@),
        }
    }
}

#[derive(Debug, Clone)]
pub enum Opcode {
    Nop,
    PushF32(Literal),
    StoreLocal(u32),
    LoadLocal(u32),
    AddF32,
    SubF32,
    MulF32,
    DispatchGPUKernel { threads_x: u32, threads_y: u32, threads_z: u32 },
    Return,
}

/// An opcode, with the pushed value by its model.
pub enum OpModel {
    Nop,
    PushF32(LiteralModel),
    StoreLocal(u32),
    LoadLocal(u32),
    AddF32,
    SubF32,
    MulF32,
    DispatchGPUKernel { threads_x: u32, threads_y: u32, threads_z: u32 },
    Return,
}

impl View for Opcode {
    type V = OpModel;

    open spec fn view(&self) -> OpModel {
        match self {
            Opcode::Nop => OpModel::Nop,
            Opcode::PushF32(l) => OpModel::PushF32(l@),
            Opcode::StoreLocal(i) => OpModel::StoreLocal(*i),
            Opcode::LoadLocal(i) => OpModel::LoadLocal(*i),
            Opcode::AddF32 => OpModel::AddF32,
            Opcode::SubF32 => OpModel::SubF32,
            Opcode::MulF32 => OpModel::MulF32,
            Opcode::DispatchGPUKernel { threads_x, threads_y, threads_z } => OpModel::DispatchGPUKernel {
                threads_x: *threads_x,
                threads_y: *threads_y,
                threads_z: *threads_z,
            },
            Opcode::Return => OpModel::Return,
        }
    }
}

impl Opcode {
    /// A copy of this opcode.
    pub(crate) fn duplicate(&self) -> (op: Opcode)
        ensures
            op@ == self@,
    {
        match self {
            Opcode::Nop => Opcode::Nop,
            Opcode::PushF32(Literal::Int(v)) => Opcode::PushF32(Literal::Int(*v)),
            Opcode::PushF32(Literal::Float(t)) => Opcode::PushF32(Literal::Float(t.clone())),
            Opcode::StoreLocal(i) => Opcode::StoreLocal(*i),
            Opcode::LoadLocal(i) => Opcode::LoadLocal(*i),
            Opcode::AddF32 => Opcode::AddF32,
            Opcode::SubF32 => Opcode::SubF32,
            Opcode::MulF32 => Opcode::MulF32,
            Opcode::DispatchGPUKernel { threads_x, threads_y, threads_z } => Opcode::DispatchGPUKernel {
                threads_x: *threads_x,
                threads_y: *threads_y,
                threads_z: *threads_z,
            },
            Opcode::Return => Opcode::Return,
        }
    }
}

/// The models of a sequence of opcodes.
pub open spec fn ops_model(ops: Seq<Opcode>) -> Seq<OpModel> {
    ops.map_values(|op: Opcode| op@)
}

/// The symbol table of a sequence of entries: each name maps to the index of
/// its first entry.
pub open spec fn symbols(entries: Seq<(String, u32)>) -> Map<Seq<char>, u32>
    decreases entries.len(),
{
    if entries.len() == 0 {
        Map::empty()
    } else {
        symbols(entries.drop_first()).insert(entries[0].0@, entries[0].1)
    }
}

/// The value a `let` initializer pushes, for a numeric literal.
pub open spec fn pushed_literal(init: ASTExpr) -> Option<LiteralModel> {
    match init {
        ASTExpr::LiteralFloat(t) => Some(LiteralModel::Float(t@)),
        ASTExpr::LiteralInt(v) => Some(LiteralModel::Int(v)),
        _ => None,
    }
}

/// The number of `let` declarations among `stmts`.
pub open spec fn let_count(stmts: Seq<ASTStmt>) -> nat
    decreases stmts.len(),
{
    if stmts.len() == 0 {
        0
    } else {
        let_count(stmts.drop_last()) + (if stmts.last() is LetDecl { 1nat } else { 0nat })
    }
}

/// The opcodes of one statement, `local` being the index of its local slot:
/// a `let` pushes its literal initializer (if it has one) and stores it in
/// the slot; a `return` returns; other statements emit nothing.
pub open spec fn stmt_ops(stmt: ASTStmt, local: nat) -> Seq<OpModel> {
    match stmt {
        ASTStmt::LetDecl { init, .. } => (match pushed_literal(init) {
            Some(l) => seq![OpModel::PushF32(l)],
            None => Seq::empty(),
        }) + seq![OpModel::StoreLocal(local as u32)],
        ASTStmt::Return(_) => seq![OpModel::Return],
        _ => Seq::empty(),
    }
}

/// The opcodes of a function body; the `let`s take the local slots 0, 1, 2, ...
pub open spec fn body_ops(stmts: Seq<ASTStmt>) -> Seq<OpModel>
    decreases stmts.len(),
{
    if stmts.len() == 0 {
        Seq::empty()
    } else {
        body_ops(stmts.drop_last()) + stmt_ops(stmts.last(), let_count(stmts.drop_last()))
    }
}

/// The opcodes of a function: a dispatch of 64 x 1 x 1 threads for a GPU
/// kernel, then those of its body.
pub open spec fn function_ops(f: ASTFunction) -> Seq<OpModel> {
    (if f.is_gpu_kernel {
        seq![OpModel::DispatchGPUKernel { threads_x: 64, threads_y: 1, threads_z: 1 }]
    } else {
        Seq::empty()
    }) + body_ops(f.body@)
}

/// The opcodes of a sequence of functions, one after the other.
pub open spec fn module_ops(fns: Seq<ASTFunction>) -> Seq<OpModel>
    decreases fns.len(),
{
    if fns.len() == 0 {
        Seq::empty()
    } else {
        module_ops(fns.drop_last()) + function_ops(fns.last())
    }
}

/// The symbol table after the `let`s of a body are recorded in `table`: each
/// declared name maps to its local slot, a later declaration replacing an earlier.
pub open spec fn body_symbols(table: Map<Seq<char>, u32>, stmts: Seq<ASTStmt>) -> Map<Seq<char>, u32>
    decreases stmts.len(),
{
    if stmts.len() == 0 {
        table
    } else {
        let before = body_symbols(table, stmts.drop_last());
        match stmts.last() {
            ASTStmt::LetDecl { name, .. } => before.insert(name@, let_count(stmts.drop_last()) as u32),
            _ => before,
        }
    }
}

/// The symbol table after the functions `fns` are compiled, one after the other.
pub open spec fn module_symbols(table: Map<Seq<char>, u32>, fns: Seq<ASTFunction>) -> Map<Seq<char>, u32>
    decreases fns.len(),
{
    if fns.len() == 0 {
        table
    } else {
        body_symbols(module_symbols(table, fns.drop_last()), fns.last().body@)
    }
}

/// Replacing the first entry of a name sets the name's index.
pub proof fn lemma_symbols_update(entries: Seq<(String, u32)>, i: int, entry: (String, u32))
    requires
        0 <= i < entries.len(),
        entries[i].0@ == entry.0@,
        forall|j: int| 0 <= j < i ==> entries[j].0@ != entry.0@,
    ensures
        symbols(entries.update(i, entry)) == symbols(entries).insert(entry.0@, entry.1),
    decreases i,
{
    let updated = entries.update(i, entry);
    if i == 0 {
        assert(updated.drop_first() =~= entries.drop_first());
    } else {
        assert(updated.drop_first() =~= entries.drop_first().update(i - 1, entry));
        lemma_symbols_update(entries.drop_first(), i - 1, entry);
    }
    assert(symbols(updated) =~= symbols(entries).insert(entry.0@, entry.1));
}

/// Appending an entry for a new name sets the name's index.
pub proof fn lemma_symbols_push(entries: Seq<(String, u32)>, entry: (String, u32))
    requires
        forall|j: int| 0 <= j < entries.len() ==> entries[j].0@ != entry.0@,
    ensures
        symbols(entries.push(entry)) == symbols(entries).insert(entry.0@, entry.1),
    decreases entries.len(),
{
    let pushed = entries.push(entry);
    if entries.len() == 0 {
        assert(pushed.drop_first() =~= Seq::<(String, u32)>::empty());
        assert(symbols(pushed) == symbols(pushed.drop_first()).insert(entry.0@, entry.1));
        assert(symbols(entries) == Map::<Seq<char>, u32>::empty());
    } else {
        assert(pushed.drop_first() =~= entries.drop_first().push(entry));
        assert(pushed[0] == entries[0]);
        assert(entries[0].0@ != entry.0@);
        lemma_symbols_push(entries.drop_first(), entry);
        assert(symbols(pushed) == symbols(pushed.drop_first()).insert(entries[0].0@, entries[0].1));
        assert(symbols(entries) == symbols(entries.drop_first()).insert(entries[0].0@, entries[0].1));
    }
    assert(symbols(pushed) =~= symbols(entries).insert(entry.0@, entry.1));
}

/// No name occurs twice among the entries.
pub open spec fn names_distinct(entries: Seq<(String, u32)>) -> bool {
    forall|i: int, j: int|
        0 <= i < entries.len() && 0 <= j < entries.len() && i != j ==> (#[trigger] entries[i]).0@
            != (#[trigger] entries[j]).0@
}

/// Whether some entry is for `name`.
pub open spec fn has_entry(entries: Seq<(String, u32)>, name: Seq<char>) -> bool {
    exists|i: int| 0 <= i < entries.len() && (#[trigger] entries[i]).0@ == name
}

/// Records `name` with index `index` in the table: its entry is replaced if
/// it has one, and a new entry is added otherwise.
fn insert_symbol(table: &mut Vec<(String, u32)>, name: &String, index: u32)
    ensures
        symbols(final(table)@) == symbols(old(table)@).insert(name@, index),
        final(table)@.len() == old(table)@.len() + (if has_entry(old(table)@, name@) { 0int } else { 1int }),
        names_distinct(old(table)@) ==> names_distinct(final(table)@),
{
    let mut i: usize = 0;
    while i < table.len()
        invariant
            i <= table@.len(),
            table@ == old(table)@,
            forall|j: int| 0 <= j < i ==> table@[j].0@ != name@,
        decreases table@.len() - i,
    {
        if table[i].0 == *name {
            let entry = (name.clone(), index);
            proof {
                lemma_symbols_update(table@, i as int, entry);
            }
            table[i] = entry;
            proof {
                assert(has_entry(old(table)@, name@)) by {
                    assert(old(table)@[i as int].0@ == name@);
                }
                if names_distinct(old(table)@) {
                    assert forall|a: int, b: int|
                        0 <= a < table@.len() && 0 <= b < table@.len() && a != b
                        implies (#[trigger] table@[a]).0@ != (#[trigger] table@[b]).0@ by {
                        assert(old(table)@[a].0@ != old(table)@[b].0@);
                    }
                }
            }
            return;
        }
        i += 1;
    }
    let entry = (name.clone(), index);
    proof {
        lemma_symbols_push(table@, entry);
        assert(!has_entry(old(table)@, name@));
    }
    table.push(entry);
    proof {
        if names_distinct(old(table)@) {
            assert forall|a: int, b: int|
                0 <= a < table@.len() && 0 <= b < table@.len() && a != b
                implies (#[trigger] table@[a]).0@ != (#[trigger] table@[b]).0@ by {
                if a < old(table)@.len() && b < old(table)@.len() {
                    assert(old(table)@[a].0@ != old(table)@[b].0@);
                }
            }
        }
    }
}

/// The bytecode emitter; its bytecode and symbol table grow with each module compiled.
pub struct VeloctCompiler {
    /// The local slot of each declared name (the last declaration wins).
    pub symbol_table: Vec<(String, u32)>,
    pub bytecode: Vec<Opcode>,
}

impl VeloctCompiler {
    /// A compiler with an empty symbol table and no bytecode.
    pub fn new() -> (compiler: Self)
        ensures
            compiler.symbol_table@.len() == 0,
            compiler.bytecode@.len() == 0,
            names_distinct(compiler.symbol_table@),
    {
        VeloctCompiler { symbol_table: Vec::new(), bytecode: Vec::new() }
    }

    /// Emits the opcodes of one function.
    fn compile_function(&mut self, func: &ASTFunction)
        requires
            let_count(func.body@) <= u32::MAX,
        ensures
            ops_model(final(self).bytecode@) == ops_model(old(self).bytecode@) + function_ops(*func),
            symbols(final(self).symbol_table@) == body_symbols(symbols(old(self).symbol_table@), func.body@),
            names_distinct(old(self).symbol_table@) ==> names_distinct(final(self).symbol_table@),
    {
        if func.is_gpu_kernel {
            self.bytecode.push(Opcode::DispatchGPUKernel { threads_x: 64, threads_y: 1, threads_z: 1 });
        }
        let ghost start = ops_model(self.bytecode@);
        let ghost table0 = symbols(old(self).symbol_table@);
        let ghost body = func.body@;
        proof {
            assert(body.take(0) =~= Seq::<ASTStmt>::empty());
            assert(start == ops_model(old(self).bytecode@) + (if func.is_gpu_kernel {
                seq![OpModel::DispatchGPUKernel { threads_x: 64, threads_y: 1, threads_z: 1 }]
            } else {
                Seq::empty()
            }));
        }

        let mut local_idx: u32 = 0;
        for i in 0..func.body.len()
            invariant
                body == func.body@,
                let_count(body) <= u32::MAX,
                local_idx == let_count(body.take(i as int)),
                ops_model(self.bytecode@) == start + body_ops(body.take(i as int)),
                symbols(self.symbol_table@) == body_symbols(table0, body.take(i as int)),
                names_distinct(old(self).symbol_table@) ==> names_distinct(self.symbol_table@),
        {
            let ghost prefix = body.take(i as int);
            proof {
                assert(body.take(i + 1).drop_last() =~= prefix);
                assert(body.take(i + 1).last() == body[i as int]);
                lemma_let_count_prefix(body, i + 1);
            }
            let ghost before = self.bytecode@;
            let ghost added = stmt_ops(body[i as int], let_count(prefix));
            match &func.body[i] {
                ASTStmt::LetDecl { name, init, .. } => {
                    match init {
                        ASTExpr::LiteralFloat(val) => self.bytecode.push(Opcode::PushF32(Literal::Float(val.clone()))),
                        ASTExpr::LiteralInt(val) => self.bytecode.push(Opcode::PushF32(Literal::Int(*val))),
                        _ => {},
                    }
                    insert_symbol(&mut self.symbol_table, name, local_idx);
                    self.bytecode.push(Opcode::StoreLocal(local_idx));
                    local_idx += 1;
                },
                ASTStmt::Return(_) => {
                    self.bytecode.push(Opcode::Return);
                },
                _ => {},
            }
            proof {
                assert(ops_model(self.bytecode@) =~= ops_model(before) + added);
                assert(body_ops(body.take(i + 1)) == body_ops(prefix) + added);
                assert(ops_model(self.bytecode@) =~= start + body_ops(body.take(i + 1)));
            }
        }
        proof {
            assert(body.take(body.len() as int) =~= body);
        }
    }

    /// Appends the opcodes of the module's functions to the bytecode, records
    /// each `let` in the symbol table, and returns all the bytecode so far.
    pub fn compile_module(&mut self, module: &ASTModule) -> (ops: Vec<Opcode>)
        requires
            forall|i: int| 0 <= i < module.functions@.len()
                ==> let_count((#[trigger] module.functions@[i]).body@) <= u32::MAX,
        ensures
            ops_model(final(self).bytecode@) == ops_model(old(self).bytecode@) + module_ops(module.functions@),
            symbols(final(self).symbol_table@) == module_symbols(symbols(old(self).symbol_table@), module.functions@),
            names_distinct(old(self).symbol_table@) ==> names_distinct(final(self).symbol_table@),
            ops_model(ops@) == ops_model(final(self).bytecode@),
    {
        let ghost fns = module.functions@;
        let ghost start = ops_model(old(self).bytecode@);
        let ghost table0 = symbols(old(self).symbol_table@);
        proof {
            assert(fns.take(0) =~= Seq::<ASTFunction>::empty());
            assert(start + Seq::<OpModel>::empty() =~= start);
        }
        for i in 0..module.functions.len()
            invariant
                fns == module.functions@,
                forall|k: int| 0 <= k < fns.len() ==> let_count((#[trigger] fns[k]).body@) <= u32::MAX,
                ops_model(self.bytecode@) == start + module_ops(fns.take(i as int)),
                symbols(self.symbol_table@) == module_symbols(table0, fns.take(i as int)),
                names_distinct(old(self).symbol_table@) ==> names_distinct(self.symbol_table@),
        {
            proof {
                assert(fns.take(i + 1).drop_last() =~= fns.take(i as int));
                assert(fns.take(i + 1).last() == fns[i as int]);
            }
            self.compile_function(&module.functions[i]);
            proof {
                assert(ops_model(self.bytecode@) =~= start + module_ops(fns.take(i + 1)));
            }
        }
        proof {
            assert(fns.take(fns.len() as int) =~= fns);
        }
        let mut copy: Vec<Opcode> = Vec::new();
        let n: usize = self.bytecode.len();
        for i in 0..n
            invariant
                n == self.bytecode@.len(),
                ops_model(copy@) == ops_model(self.bytecode@).take(i as int),
        {
            let ghost prev = copy@;
            let op = self.bytecode[i].duplicate();
            copy.push(op);
            proof {
                assert(copy@ == prev.push(op));
                assert(op@ == ops_model(self.bytecode@)[i as int]);
                assert(ops_model(copy@) =~= ops_model(prev).push(op@));
                assert(ops_model(copy@) =~= ops_model(self.bytecode@).take(i + 1));
            }
        }
        proof {
            assert(ops_model(self.bytecode@).take(self.bytecode@.len() as int) =~= ops_model(self.bytecode@));
        }
        copy
    }
}

/// Compiling the functions `a` and then, in a later call, `b` emits the same
/// bytecode and leaves the same symbol table as compiling `a` followed by `b`
/// at once: the compiler only appends.
pub proof fn lemma_compile_concat(table: Map<Seq<char>, u32>, a: Seq<ASTFunction>, b: Seq<ASTFunction>)
    ensures
        module_ops(a + b) == module_ops(a) + module_ops(b),
        module_symbols(table, a + b) == module_symbols(module_symbols(table, a), b),
    decreases b.len(),
{
    if b.len() == 0 {
        assert(a + b =~= a);
        assert(module_ops(a) + module_ops(b) =~= module_ops(a));
    } else {
        assert((a + b).drop_last() =~= a + b.drop_last());
        assert((a + b).last() == b.last());
        lemma_compile_concat(table, a, b.drop_last());
        assert(module_ops(a + b) =~= module_ops(a) + module_ops(b));
    }
}

/// Whether an opcode stores into a local slot.
pub open spec fn is_store(op: OpModel) -> bool {
    op is StoreLocal
}

/// The stores `StoreLocal(0)`, ..., `StoreLocal(n - 1)`.
pub open spec fn stores_upto(n: nat) -> Seq<OpModel> {
    Seq::new(n, |k: int| OpModel::StoreLocal(k as u32))
}

/// Slot allocation: the stores a function body emits are, in order, into the
/// slots 0, 1, 2, ..., one for each `let`.
pub proof fn lemma_body_slots(stmts: Seq<ASTStmt>)
    requires
        let_count(stmts) <= u32::MAX + 1,
    ensures
        body_ops(stmts).filter(|op: OpModel| is_store(op)) == stores_upto(let_count(stmts)),
    decreases stmts.len(),
{
    let pred = |op: OpModel| is_store(op);
    if stmts.len() == 0 {
        assert(body_ops(stmts).filter(pred) =~= stores_upto(0));
    } else {
        let prefix = stmts.drop_last();
        lemma_let_count_prefix(stmts, stmts.len() - 1);
        assert(stmts.take(stmts.len() - 1) =~= prefix);
        lemma_body_slots(prefix);
        let added = stmt_ops(stmts.last(), let_count(prefix));
        Seq::filter_distributes_over_add(body_ops(prefix), added, pred);
        reveal_with_fuel(Seq::filter, 3);
        match stmts.last() {
            ASTStmt::LetDecl { init, .. } => {
                let store = seq![OpModel::StoreLocal(let_count(prefix) as u32)];
                match pushed_literal(init) {
                    Some(l) => {
                        let push = seq![OpModel::PushF32(l)];
                        Seq::filter_distributes_over_add(push, store, pred);
                        assert(push.filter(pred) =~= Seq::empty()) by {
                            assert(push.drop_last() =~= Seq::<OpModel>::empty());
                        }
                    },
                    None => {
                        assert(added =~= store);
                    },
                }
                assert(store.drop_last() =~= Seq::<OpModel>::empty());
                assert(store.filter(pred) =~= store);
            },
            ASTStmt::Return(_) => {
                assert(seq![OpModel::Return].drop_last() =~= Seq::<OpModel>::empty());
                assert(added.filter(pred) =~= Seq::empty());
            },
            _ => {
                assert(added.filter(pred) =~= Seq::empty());
            },
        }
        assert(body_ops(stmts).filter(pred) =~= stores_upto(let_count(stmts)));
    }
}

/// The number of `let` declarations in a function body, which
/// [`VeloctCompiler::compile_module`] numbers with `u32` slots.
pub fn let_count_of(body: &Vec<ASTStmt>) -> (n: usize)
    ensures
        n == let_count(body@),
{
    let mut n: usize = 0;
    let ghost stmts = body@;
    assert(stmts.take(0) =~= Seq::<ASTStmt>::empty());
    for i in 0..body.len()
        invariant
            stmts == body@,
            n == let_count(stmts.take(i as int)),
            n <= i,
    {
        assert(stmts.take(i + 1).drop_last() =~= stmts.take(i as int));
        if matches!(body[i], ASTStmt::LetDecl { .. }) {
            n += 1;
        }
    }
    assert(stmts.take(stmts.len() as int) =~= stmts);
    n
}

/// The `let`s of a prefix are no more than those of the whole.
pub proof fn lemma_let_count_prefix(stmts: Seq<ASTStmt>, i: int)
    requires
        0 <= i <= stmts.len(),
    ensures
        let_count(stmts.take(i)) <= let_count(stmts),
    decreases stmts.len() - i,
{
    if i < stmts.len() {
        lemma_let_count_prefix(stmts, i + 1);
        assert(stmts.take(i + 1).drop_last() =~= stmts.take(i));
    } else {
        assert(stmts.take(i) =~= stmts);
    }
}


/// A token never starts at white space or inside a comment: lexing from a
/// white-space character gives what lexing from the next character gives, and
/// lexing from a `//` gives what lexing from the end of its line gives.
pub proof fn lemma_blank_skipped(s: Seq<char>, p: nat)
    requires
        p < s.len(),
    ensures
        char_is_whitespace(s[p as int]) ==> lex_step(s, p) == lex_step(s, p + 1),
        comment_at(s, p) ==> lex_step(s, p) == lex_step(s, line_end(s, p)),
{
}

/// Identifiers start at an alphabetic character or `_` and take the longest
/// run of word characters (alphanumeric or `_`) from there. The token is an
/// identifier holding that run, or a keyword; a word that starts with `_` is
/// always an identifier.
pub proof fn lemma_word_token(s: Seq<char>, p: nat)
    ensures
        ({
            let q = skip_blank(s, p);
            let (t, r) = lex_step(s, p);
            q < s.len() && (char_is_alphabetic(s[q as int]) || s[q as int] == '_') ==> {
                &&& q < r <= s.len()
                &&& forall|m: int| q <= m < r ==> char_is_alphanumeric(#[trigger] s[m]) || s[m] == '_'
                &&& (r == s.len() || !(char_is_alphanumeric(s[r as int]) || s[r as int] == '_'))
                &&& (t == TokenModel::Ident(s.subrange(q as int, r as int)) || token_kind(t) <= 12)
                &&& (s[q as int] == '_' ==> t == TokenModel::Ident(s.subrange(q as int, r as int)))
            }
        }),
{
    let q = skip_blank(s, p);
    lemma_skip_blank(s, p);
    if q < s.len() && (char_is_alphabetic(s[q as int]) || s[q as int] == '_') {
        lemma_word_end(s, q);
        lemma_word_end_stops(s, q);
        let r = word_end(s, q);
        let w = s.subrange(q as int, r as int);
        assert(w[0] == s[q as int]);
        if s[q as int] == '_' {
            assert(keyword(w) is None);
        }
    }
}

/// The run of word characters stops at the end or at a character outside it.
pub proof fn lemma_word_end_stops(s: Seq<char>, p: nat)
    ensures
        word_end(s, p) >= s.len() || !word_char(s[word_end(s, p) as int]),
    decreases s.len() - p,
{
    if p < s.len() && word_char(s[p as int]) {
        lemma_word_end_stops(s, p + 1);
    }
}

/// What a function header says of the function: a GPU kernel exactly when the
/// `kernel` keyword or a `[GPUCompute]` attribute marks it, the name that
/// follows `kernel`/`fn`, and the return type `f32` exactly when a `-` token
/// follows its `()`, whether or not it is a kernel.
pub proof fn lemma_function_header(st: ParseState, gpu: bool, public: bool)
    ensures
        parse_function(st, gpu, public) matches Some((f, _)) ==> {
            let after_name = advance(advance(st));
            let after_params = advance(advance(after_name));
            &&& f.is_gpu_kernel == (gpu || st.current is Kernel)
            &&& f.is_public == public
            &&& advance(st).current == TokenModel::Ident(f.name)
            &&& after_name.current is LParen
            &&& advance(after_name).current is RParen
            &&& f.returns_f32 == (after_params.current is Minus)
        },
{
}

/// Every `let` whose initializer is a numeric literal emits, in its place in
/// the body's opcodes, a push of that literal followed by a store into its
/// slot, the number of `let`s before it: an integer `v` (zero too) pushes
/// `Int(v)`, a float pushes its text.
pub proof fn lemma_let_literal_ops(stmts: Seq<ASTStmt>, i: int)
    requires
        0 <= i < stmts.len(),
    ensures
        ({
            let before = body_ops(stmts.take(i));
            let upto = body_ops(stmts.take(i + 1));
            let slot = OpModel::StoreLocal(let_count(stmts.take(i)) as u32);
            &&& body_ops(stmts).len() >= upto.len()
            &&& body_ops(stmts).take(upto.len() as int) == upto
            &&& (match stmts[i] {
                ASTStmt::LetDecl { init: ASTExpr::LiteralInt(v), .. } =>
                    upto == before + seq![OpModel::PushF32(LiteralModel::Int(v)), slot],
                ASTStmt::LetDecl { init: ASTExpr::LiteralFloat(t), .. } =>
                    upto == before + seq![OpModel::PushF32(LiteralModel::Float(t@)), slot],
                _ => true,
            })
        }),
{
    assert(stmts.take(i + 1).drop_last() =~= stmts.take(i));
    assert(stmts.take(i + 1).last() == stmts[i]);
    lemma_body_ops_prefix(stmts, i + 1);
    match stmts[i] {
        ASTStmt::LetDecl { init: ASTExpr::LiteralInt(v), .. } => {
            assert(body_ops(stmts.take(i + 1)) =~= body_ops(stmts.take(i)) + seq![
                OpModel::PushF32(LiteralModel::Int(v)),
                OpModel::StoreLocal(let_count(stmts.take(i)) as u32),
            ]);
        },
        ASTStmt::LetDecl { init: ASTExpr::LiteralFloat(t), .. } => {
            assert(body_ops(stmts.take(i + 1)) =~= body_ops(stmts.take(i)) + seq![
                OpModel::PushF32(LiteralModel::Float(t@)),
                OpModel::StoreLocal(let_count(stmts.take(i)) as u32),
            ]);
        },
        _ => {},
    }
}

/// The opcodes of a prefix of a body are a prefix of the body's opcodes.
pub proof fn lemma_body_ops_prefix(stmts: Seq<ASTStmt>, i: int)
    requires
        0 <= i <= stmts.len(),
    ensures
        body_ops(stmts).len() >= body_ops(stmts.take(i)).len(),
        body_ops(stmts).take(body_ops(stmts.take(i)).len() as int) == body_ops(stmts.take(i)),
    decreases stmts.len() - i,
{
    if i == stmts.len() {
        assert(stmts.take(i) =~= stmts);
        assert(body_ops(stmts).take(body_ops(stmts).len() as int) =~= body_ops(stmts));
    } else {
        lemma_body_ops_prefix(stmts, i + 1);
        assert(stmts.take(i + 1).drop_last() =~= stmts.take(i));
        let a = body_ops(stmts.take(i));
        let b = body_ops(stmts.take(i + 1));
        assert(b == a + stmt_ops(stmts.take(i + 1).last(), let_count(stmts.take(i))));
        assert(b.take(a.len() as int) =~= a);
        assert(body_ops(stmts).take(a.len() as int) =~= b.take(a.len() as int));
    }
}

} // verus!
