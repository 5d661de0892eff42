//! The schema ingestion front end: a lexer that hands out slices of the source
//! text, a parser for `module <name>; <key> = <number>;` headers, and a code
//! generator that flattens the parsed header into a byte stream.

use vstd::prelude::*;
use vstd::std_specs::iter::IteratorSpec;
use vstd::utf8::encode_utf8;
use crate::chars::{delimiter_free, char_is_alphabetic, char_is_numeric, char_is_whitespace, char_is_alphanumeric};

verus! {

broadcast use vstd::string::group_string_axioms;

/// Minimal, tightly packed token representations for the zero-allocation parser.
#[derive(Debug, Clone, Copy, PartialEq, Eq)]
pub enum Token<'a> {
    Module,
    Identifier(&'a str),
    Assign,
    Number(&'a str),
    Semicolon,
    Eof,
}

/// What a token stands for: its kind, and for identifiers and numbers the
/// characters of its text.
pub enum TokenModel {
    Module,
    Identifier(Seq<char>),
    Assign,
    Number(Seq<char>),
    Semicolon,
    Eof,
}

impl<'a> View for Token<'a> {
    type V = TokenModel;

    open spec fn view(&self) -> TokenModel {
        match *self {
            Token::Module => TokenModel::Module,
            Token::Identifier(s) => TokenModel::Identifier(s@),
            Token::Assign => TokenModel::Assign,
            Token::Number(s) => TokenModel::Number(s@),
            Token::Semicolon => TokenModel::Semicolon,
            Token::Eof => TokenModel::Eof,
        }
    }
}

/// The three kinds of character runs the lexer scans.
#[derive(Clone, Copy)]
pub enum Run {
    /// White space between tokens.
    Space,
    /// The characters of an identifier or keyword.
    Word,
    /// The characters of a numeric literal.
    Digits,
}

/// Whether `c` continues a run of the given kind.
pub open spec fn in_run(kind: Run, c: char) -> bool {
    match kind {
        Run::Space => char_is_whitespace(c),
        Run::Word => char_is_alphanumeric(c) || c == '_' || c == '.',
        Run::Digits => char_is_numeric(c) || c == '.',
    }
}

/// Number of leading characters of `t` that belong to a run of the given kind.
pub open spec fn run_len(t: Seq<char>, kind: Run) -> nat
    decreases t.len(),
{
    if t.len() > 0 && in_run(kind, t[0]) {
        1 + run_len(t.drop_first(), kind)
    } else {
        0
    }
}

/// The keyword `module`.
pub open spec fn module_keyword() -> Seq<char> {
    seq!['m', 'o', 'd', 'u', 'l', 'e']
}

/// One step of the lexer on the characters `s`, starting at character index
/// `i`: the token found and the index just after it.
pub open spec fn lex_step(s: Seq<char>, i: int) -> (TokenModel, int) {
    let j = i + run_len(s.skip(i), Run::Space);
    if j >= s.len() {
        (TokenModel::Eof, j)
    } else {
        let c = s[j];
        if char_is_alphabetic(c) || c == '_' {
            let k = j + run_len(s.skip(j), Run::Word);
            let word = s.subrange(j, k);
            if word == module_keyword() {
                (TokenModel::Module, k)
            } else {
                (TokenModel::Identifier(word), k)
            }
        } else if char_is_numeric(c) {
            let k = j + run_len(s.skip(j), Run::Digits);
            (TokenModel::Number(s.subrange(j, k)), k)
        } else if c == '=' {
            (TokenModel::Assign, j + 1)
        } else if c == ';' {
            (TokenModel::Semicolon, j + 1)
        } else {
            (TokenModel::Eof, j + 1)
        }
    }
}

/// Zero-allocation Lexer that slices string references without copying memory.
pub struct Lexer<'a> {
    source: &'a str,
    cursor: usize,
    /// The number of characters before `cursor`.
    chars_read: Ghost<nat>,
}

impl<'a> Lexer<'a> {
    /// The characters of the source text.
    pub closed spec fn text(&self) -> Seq<char> {
        self.source@
    }

    /// The character index of the lexer's position.
    pub closed spec fn pos(&self) -> int {
        self.chars_read@ as int
    }

    /// A well-formed lexer stands at a character index within its text.
    pub proof fn lemma_pos_in_text(&self)
        requires
            self.wf(),
        ensures
            0 <= self.pos() <= self.text().len(),
    {
    }

    /// The position is a character index into the source, and the byte cursor
    /// is the length of the encoding of the characters before it.
    pub closed spec fn wf(&self) -> bool {
        &&& self.chars_read@ <= self.source@.len()
        &&& self.cursor == encode_utf8(self.source@.take(self.chars_read@ as int)).len()
        &&& encode_utf8(self.source@).len() <= usize::MAX
    }

    /// A lexer at the start of `source`.
    pub fn new(source: &'a str) -> (lexer: Self)
        ensures
            lexer.wf(),
            lexer.text() == source@,
            lexer.pos() == 0,
    {
        // The encoding is a byte slice in memory, so its length fits a `usize`.
        let bytes: &[u8] = source.as_bytes();
        let _count: usize = bytes.len();
        proof {
            assert(source@.take(0) =~= Seq::<char>::empty());
        }
        Self { source, cursor: 0, chars_read: Ghost(0) }
    }

    /// The rest of the source text from the cursor on.
    fn remaining(&self) -> (rest: &'a str)
        requires
            self.wf(),
        ensures
            rest@ == self.text().skip(self.pos()),
            encode_utf8(rest@).len() == encode_utf8(self.text()).len() - self.cursor,
    {
        let ghost s = self.source@;
        let ghost i = self.chars_read@ as int;
        proof {
            crate::chars::lemma_encode_boundary(s, i);
            crate::chars::lemma_encode_split(s, i);
        }
        let (_, rest) = self.source.split_at(self.cursor);
        proof {
            crate::chars::lemma_encode_injective(rest@, s.skip(i));
        }
        rest
    }

    /// Moves the cursor over `n` characters of the remaining text, whose
    /// encoding is `bytes` long.
    fn advance(&mut self, n: Ghost<nat>, bytes: usize)
        requires
            old(self).wf(),
            old(self).pos() + n@ <= old(self).text().len(),
            bytes == encode_utf8(old(self).text().skip(old(self).pos()).take(n@ as int)).len(),
        ensures
            final(self).wf(),
            final(self).text() == old(self).text(),
            final(self).pos() == old(self).pos() + n@,
            final(self).source == old(self).source,
    {
        let ghost s = self.source@;
        let ghost i = self.chars_read@ as int;
        proof {
            let j = i + n@;
            assert(s.take(j) =~= s.take(i) + s.skip(i).take(n@ as int));
            crate::chars::lemma_encode_concat(s.take(i), s.skip(i).take(n@ as int));
            crate::chars::lemma_encode_split(s, j);
        }
        self.cursor = self.cursor + bytes;
        self.chars_read = Ghost((self.chars_read@ + n@) as nat);
    }

    /// Reads the next token: an identifier (or the keyword `module`), a
    /// number, `=`, `;`, or `Eof` at the end and for any other character.
    pub fn next_token(&mut self) -> (token: Token<'a>)
        requires
            old(self).wf(),
        ensures
            final(self).wf(),
            final(self).text() == old(self).text(),
            (token@, final(self).pos()) == lex_step(old(self).text(), old(self).pos()),
    {
        self.skip_whitespace();
        let ghost s = self.source@;
        let ghost j = self.chars_read@ as int;
        if self.cursor >= self.source.len() {
            proof {
                crate::chars::lemma_encode_split(s, j);
                if j < s.len() {
                    crate::chars::lemma_encode_split(s.skip(j), 1);
                    assert(s.skip(j).take(1) =~= seq![s[j]]);
                    assert(encode_utf8(seq![s[j]]) == vstd::utf8::encode_scalar(s[j] as u32)
                        + encode_utf8(seq![s[j]].drop_first()));
                    assert(vstd::utf8::encode_scalar(s[j] as u32).len() > 0);
                }
            }
            return Token::Eof;
        }
        let remaining = self.remaining();
        let mut it = remaining.chars();
        let first = it.next();
        proof {
            if j >= s.len() {
                assert(s.take(j) =~= s);
            }
        }
        match first {
            Some(first_char) => {
                assert(first_char == s[j]);
                if crate::chars::alphabetic(first_char) || first_char == '_' {
                    let len: usize = scan_run(remaining, Run::Word);
                    let ghost k = run_len(remaining@, Run::Word);
                    proof { lemma_run_len_bound(remaining@, Run::Word); }
                    let ident = prefix(remaining, len, Ghost(k));
                    self.advance(Ghost(k), len);
                    proof {
                        assert(ident@ =~= s.subrange(j, j + k));
                    }
                    if is_module_keyword(ident) {
                        return Token::Module;
                    } else {
                        return Token::Identifier(ident);
                    }
                }
                if crate::chars::numeric(first_char) {
                    let len: usize = scan_run(remaining, Run::Digits);
                    let ghost k = run_len(remaining@, Run::Digits);
                    proof { lemma_run_len_bound(remaining@, Run::Digits); }
                    let num = prefix(remaining, len, Ghost(k));
                    self.advance(Ghost(k), len);
                    proof {
                        assert(num@ =~= s.subrange(j, j + k));
                    }
                    return Token::Number(num);
                }
                let width: usize = crate::chars::utf8_width(first_char);
                proof {
                    let t = remaining@;
                    assert(t.take(1) =~= seq![first_char]);
                    assert(encode_utf8(seq![first_char]) == vstd::utf8::encode_scalar(first_char as u32)
                        + encode_utf8(seq![first_char].drop_first()));
                    assert(encode_utf8(seq![first_char]) =~= vstd::utf8::encode_scalar(first_char as u32));
                }
                match first_char {
                    '=' => {
                        self.advance(Ghost(1), width);
                        return Token::Assign;
                    },
                    ';' => {
                        self.advance(Ghost(1), width);
                        return Token::Semicolon;
                    },
                    _ => {
                        self.advance(Ghost(1), width);
                    },
                }
            },
            None => {},
        }
        Token::Eof
    }

    /// Moves the cursor past the white space in front of it.
    pub fn skip_whitespace(&mut self)
        requires
            old(self).wf(),
        ensures
            final(self).wf(),
            final(self).text() == old(self).text(),
            final(self).pos() == old(self).pos() + run_len(old(self).text().skip(old(self).pos()), Run::Space),
    {
        let remaining = self.remaining();
        let ws_len: usize = scan_run(remaining, Run::Space);
        proof { lemma_run_len_bound(remaining@, Run::Space); }
        self.advance(Ghost(run_len(remaining@, Run::Space)), ws_len);
    }
}

/// Where only white space is left, the lexer yields `Eof` and stops at the
/// end of the text; at the end it yields `Eof` and stays there.
pub proof fn lemma_eof_at_end(s: Seq<char>, i: int)
    requires
        0 <= i <= s.len(),
        i + run_len(s.skip(i), Run::Space) == s.len(),
    ensures
        lex_step(s, i) == (TokenModel::Eof, s.len() as int),
        lex_step(s, s.len() as int) == (TokenModel::Eof, s.len() as int),
{
    assert(s.skip(s.len() as int) =~= Seq::<char>::empty());
}

/// From inside the text, every step of the lexer moves forward, and never past
/// the end.
pub proof fn lemma_lexer_progress(s: Seq<char>, i: int)
    requires
        0 <= i < s.len(),
    ensures
        i < lex_step(s, i).1 <= s.len(),
{
    lemma_run_len_bound(s.skip(i), Run::Space);
    let j = i + run_len(s.skip(i), Run::Space);
    if j < s.len() {
        lemma_run_len_bound(s.skip(j), Run::Word);
        lemma_run_len_bound(s.skip(j), Run::Digits);
        assert(s.skip(j)[0] == s[j]);
    }
}

/// The lexer does not copy: the text of an identifier or a number is the
/// nonempty run of source characters that ends where the lexer stops.
pub proof fn lemma_token_text_is_slice(s: Seq<char>, i: int)
    requires
        0 <= i <= s.len(),
    ensures
        ({
            let (t, k) = lex_step(s, i);
            match t {
                TokenModel::Identifier(w) => w.len() > 0 && 0 <= k - w.len() && w == s.subrange(k - w.len(), k),
                TokenModel::Number(w) => w.len() > 0 && 0 <= k - w.len() && w == s.subrange(k - w.len(), k),
                _ => true,
            }
        }),
{
    lemma_run_len_bound(s.skip(i), Run::Space);
    let j = i + run_len(s.skip(i), Run::Space);
    if j < s.len() {
        lemma_run_len_bound(s.skip(j), Run::Word);
        lemma_run_len_bound(s.skip(j), Run::Digits);
        assert(s.skip(j)[0] == s[j]);
    }
}

/// A run never extends past the end of the text.
pub proof fn lemma_run_len_bound(t: Seq<char>, kind: Run)
    ensures
        run_len(t, kind) <= t.len(),
    decreases t.len(),
{
    if t.len() > 0 && in_run(kind, t[0]) {
        lemma_run_len_bound(t.drop_first(), kind);
    }
}

/// The byte length of the leading run of the given kind in `text`.
fn scan_run(text: &str, kind: Run) -> (n: usize)
    requires
        encode_utf8(text@).len() <= usize::MAX,
    ensures
        n == encode_utf8(text@.take(run_len(text@, kind) as int)).len(),
{
    let ghost t = text@;
    let mut it = text.chars();
    let mut n: usize = 0;
    let ghost mut k: int = 0;
    proof {
        assert(t.skip(0) =~= t);
        assert(t.take(0) =~= Seq::<char>::empty());
    }
    loop
        invariant_except_break
            it.remaining() == t.skip(k),
        invariant
            0 <= k <= t.len(),
            run_len(t, kind) == k + run_len(t.skip(k), kind),
            n == encode_utf8(t.take(k)).len(),
            encode_utf8(t).len() <= usize::MAX,
        ensures
            run_len(t, kind) == k,
            n == encode_utf8(t.take(k)).len(),
        decreases t.len() - k,
    {
        let next = it.next();
        match next {
            Some(c) => {
                assert(c == t[k]);
                if run_member(kind, c) {
                    let w: usize = crate::chars::utf8_width(c);
                    proof {
                        assert(t.skip(k).drop_first() =~= t.skip(k + 1));
                        assert(t.take(k + 1) =~= t.take(k) + seq![c]);
                        crate::chars::lemma_encode_concat(t.take(k), seq![c]);
                        assert(encode_utf8(seq![c]) == vstd::utf8::encode_scalar(c as u32)
                            + encode_utf8(seq![c].drop_first()));
                        assert(encode_utf8(seq![c]) =~= vstd::utf8::encode_scalar(c as u32));
                        crate::chars::lemma_encode_split(t, k + 1);
                    }
                    n = n + w;
                    proof { k = k + 1; }
                } else {
                    break;
                }
            },
            None => {
                break;
            },
        }
    }
    n
}

/// Whether `c` continues a run of the given kind.
fn run_member(kind: Run, c: char) -> (r: bool)
    ensures
        r == in_run(kind, c),
{
    match kind {
        Run::Space => crate::chars::whitespace(c),
        Run::Word => crate::chars::alphanumeric(c) || c == '_' || c == '.',
        Run::Digits => crate::chars::numeric(c) || c == '.',
    }
}

/// The first `k` characters of `text`, which take `len` bytes.
fn prefix<'t>(text: &'t str, len: usize, k: Ghost<nat>) -> (p: &'t str)
    requires
        k@ <= text@.len(),
        len == encode_utf8(text@.take(k@ as int)).len(),
    ensures
        p@ == text@.take(k@ as int),
{
    proof {
        crate::chars::lemma_encode_boundary(text@, k@ as int);
        crate::chars::lemma_encode_split(text@, k@ as int);
    }
    let (p, _) = text.split_at(len);
    proof {
        crate::chars::lemma_encode_injective(p@, text@.take(k@ as int));
    }
    p
}

/// Whether `word` is the keyword `module`.
fn is_module_keyword(word: &str) -> (r: bool)
    ensures
        r == (word@ == module_keyword()),
{
    let expected: [char; 6] = ['m', 'o', 'd', 'u', 'l', 'e'];
    let ghost w = word@;
    assert(expected@ =~= module_keyword());
    let mut it = word.chars();
    let mut i: usize = 0;
    assert(w.skip(0) =~= w);
    while i < 6
        invariant
            i <= 6,
            i <= w.len(),
            it.remaining() == w.skip(i as int),
            expected@ == module_keyword(),
            w == word@,
            forall|j: int| 0 <= j < i ==> w[j] == module_keyword()[j],
        decreases 6 - i,
    {
        match it.next() {
            Some(c) => {
                assert(c == w[i as int]);
                if c != expected[i] {
                    assert(w[i as int] != module_keyword()[i as int]);
                    assert(!(w =~= module_keyword()));
                    return false;
                }
                assert(w.skip(i as int).drop_first() =~= w.skip(i + 1));
            },
            None => {
                assert(w.len() == i);
                assert(module_keyword().len() == 6);
                assert(!(w =~= module_keyword()));
                return false;
            },
        }
        i = i + 1;
    }
    let rest = it.next();
    match rest {
        Some(_) => false,
        None => {
            assert(w =~= module_keyword());
            true
        },
    }
}


/// Tightly packed abstract syntax layout nodes.
#[derive(Debug, Clone)]
pub struct AstNode<'a> {
    pub module_name: &'a str,
    pub key: &'a str,
    pub value: &'a str,
}

/// The characters of the three fields of an [`AstNode`].
#[verifier::ext_equal]
pub struct AstModel {
    pub module_name: Seq<char>,
    pub key: Seq<char>,
    pub value: Seq<char>,
}

impl<'a> View for AstNode<'a> {
    type V = AstModel;

    open spec fn view(&self) -> AstModel {
        AstModel { module_name: self.module_name@, key: self.key@, value: self.value@ }
    }
}

/// The parser's state: the source characters, the lexer's position, and the
/// current (not yet consumed) token.
pub struct ParseState {
    pub text: Seq<char>,
    pub pos: int,
    pub current: TokenModel,
}

/// The state after consuming the current token.
pub open spec fn consume_state(st: ParseState) -> ParseState {
    let (t, p) = lex_step(st.text, st.pos);
    ParseState { text: st.text, pos: p, current: t }
}

/// Consumes the current token if it is a semicolon.
pub open spec fn skip_semicolon(st: ParseState) -> ParseState {
    if st.current is Semicolon {
        consume_state(st)
    } else {
        st
    }
}

/// The optional `key = number ;` assignment after the header, once the module
/// name is known: the result and the state after it.
pub open spec fn parse_assignment(name: Seq<char>, st: ParseState) -> (AstModel, ParseState) {
    let empty = Seq::<char>::empty();
    match st.current {
        TokenModel::Identifier(k) => {
            let st1 = consume_state(st);
            if st1.current is Assign {
                let st2 = consume_state(st1);
                match st2.current {
                    TokenModel::Number(v) => (
                        AstModel { module_name: name, key: k, value: v },
                        skip_semicolon(consume_state(st2)),
                    ),
                    _ => (AstModel { module_name: name, key: k, value: empty }, st2),
                }
            } else {
                (AstModel { module_name: name, key: k, value: empty }, st1)
            }
        },
        _ => (AstModel { module_name: name, key: empty, value: empty }, st),
    }
}

/// The grammar `module <identifier> [;] [<identifier> [= [<number> [;]]]]`:
/// the header found from `st` on, or `None` when the tokens do not start with
/// `module` followed by an identifier, and the state after what was read.
pub open spec fn parse_header(st: ParseState) -> (Option<AstModel>, ParseState) {
    if st.current is Module {
        let st1 = consume_state(st);
        match st1.current {
            TokenModel::Identifier(name) => {
                let (ast, st2) = parse_assignment(name, skip_semicolon(consume_state(st1)));
                (Some(ast), st2)
            },
            _ => (None, st1),
        }
    } else {
        (None, st)
    }
}

/// The view of an optional header.
pub open spec fn header_view(h: Option<AstNode>) -> Option<AstModel> {
    match h {
        Some(a) => Some(a@),
        None => None,
    }
}

/// The Zero-Allocation Structural Schema Parser.
pub struct Parser<'a> {
    lexer: Lexer<'a>,
    current_token: Token<'a>,
}

impl<'a> Parser<'a> {
    pub closed spec fn wf(&self) -> bool {
        self.lexer.wf()
    }

    /// A well-formed parser's lexer stands within its text.
    pub proof fn lemma_pos_in_text(&self)
        requires
            self.wf(),
        ensures
            0 <= self.state().pos <= self.state().text.len(),
    {
    }

    /// The parser's state in terms of characters and token models.
    pub closed spec fn state(&self) -> ParseState {
        ParseState { text: self.lexer.text(), pos: self.lexer.pos(), current: self.current_token@ }
    }

    /// A parser whose current token is the first token of `lexer`.
    pub fn new(lexer: Lexer<'a>) -> (parser: Self)
        requires
            lexer.wf(),
        ensures
            parser.wf(),
            (parser.state().current, parser.state().pos) == lex_step(lexer.text(), lexer.pos()),
            parser.state().text == lexer.text(),
    {
        let mut lexer = lexer;
        let current_token = lexer.next_token();
        Self { lexer, current_token }
    }

    fn consume(&mut self)
        requires
            old(self).wf(),
        ensures
            final(self).wf(),
            final(self).state() == consume_state(old(self).state()),
    {
        self.current_token = self.lexer.next_token();
    }

    /// Parses a header `module <name> [;] [<key> [= [<number> [;]]]]`; the
    /// key and the value are empty where they are missing.
    #[verifier::rlimit(50)]
    pub fn parse_module(&mut self) -> (ast: Option<AstNode<'a>>)
        requires
            old(self).wf(),
        ensures
            final(self).wf(),
            (header_view(ast), final(self).state()) == parse_header(old(self).state()),
    {
        proof {
            reveal_strlit("");
        }
        if let Token::Module = self.current_token {
            self.consume();

            if let Token::Identifier(mod_name) = self.current_token {
                self.consume();

                if let Token::Semicolon = self.current_token {
                    self.consume();
                }

                let mut key = "";
                let mut value = "";

                if let Token::Identifier(k) = self.current_token {
                    key = k;
                    self.consume();

                    if let Token::Assign = self.current_token {
                        self.consume();

                        if let Token::Number(v) = self.current_token {
                            value = v;
                            self.consume();

                            if let Token::Semicolon = self.current_token {
                                self.consume();
                            }
                        }
                    }
                }

                return Some(AstNode { module_name: mod_name, key, value });
            }
        }
        None
    }
}

/// The byte stream that [`VeloctCompiler::compile_module`] generates for a
/// header: the module registration command `0xCC`, the UTF-8 bytes of the
/// module name, the divider `:` (`0x3A`), the key, the assignment operator `=`
/// (`0x3D`), the value, and the termination marker `0xFF`.
pub open spec fn module_opcodes(module_name: Seq<char>, key: Seq<char>, value: Seq<char>) -> Seq<u8> {
    seq![0xCCu8] + encode_utf8(module_name) + seq![0x3Au8] + encode_utf8(key) + seq![0x3Du8]
        + encode_utf8(value) + seq![0xFFu8]
}

/// The master code generation engine.
pub struct VeloctCompiler;

impl VeloctCompiler {
    /// The code generator.
    pub fn new() -> (compiler: Self) {
        Self
    }

    /// Generates flattened binary schema opcodes branchlessly into a continuous byte array.
    pub fn compile_module(&self, ast: &AstNode) -> (opcodes: Vec<u8>)
        ensures
            opcodes@ == module_opcodes(ast.module_name@, ast.key@, ast.value@),
    {
        let mut opcodes = Vec::with_capacity(32);
        opcodes.push(0xCCu8);
        push_all(&mut opcodes, ast.module_name.as_bytes());
        opcodes.push(0x3Au8);
        push_all(&mut opcodes, ast.key.as_bytes());
        opcodes.push(0x3Du8);
        push_all(&mut opcodes, ast.value.as_bytes());
        opcodes.push(0xFFu8);
        proof {
            assert(opcodes@ =~= module_opcodes(ast.module_name@, ast.key@, ast.value@));
        }
        opcodes
    }
}

/// Appends the bytes of `bytes` to `out`.
fn push_all(out: &mut Vec<u8>, bytes: &[u8])
    ensures
        final(out)@ == old(out)@ + bytes@,
{
    let ghost start = out@;
    for i in 0..bytes.len()
        invariant
            out@ == start + bytes@.take(i as int),
    {
        out.push(bytes[i]);
        proof {
            assert(bytes@.take(i + 1) =~= bytes@.take(i as int).push(bytes@[i as int]));
        }
    }
    proof {
        assert(bytes@.take(bytes@.len() as int) =~= bytes@);
    }
}


/// Every character of a leading run belongs to the run.
pub proof fn lemma_run_members(t: Seq<char>, kind: Run)
    ensures
        forall|m: int| 0 <= m < run_len(t, kind) ==> in_run(kind, #[trigger] t[m]),
    decreases t.len(),
{
    lemma_run_len_bound(t, kind);
    if t.len() > 0 && in_run(kind, t[0]) {
        lemma_run_members(t.drop_first(), kind);
        assert forall|m: int| 0 <= m < run_len(t, kind) implies in_run(kind, #[trigger] t[m]) by {
            if m > 0 {
                assert(t[m] == t.drop_first()[m - 1]);
            }
        }
    }
}

/// Identifiers and numbers never hold `:` or `=`.
pub proof fn lemma_token_delimiter_free(s: Seq<char>, i: int)
    requires
        0 <= i <= s.len(),
    ensures
        match lex_step(s, i).0 {
            TokenModel::Identifier(w) => delimiter_free(w),
            TokenModel::Number(w) => delimiter_free(w),
            _ => true,
        },
{
    lemma_run_len_bound(s.skip(i), Run::Space);
    let j = i + run_len(s.skip(i), Run::Space);
    if j < s.len() {
        lemma_run_len_bound(s.skip(j), Run::Word);
        lemma_run_len_bound(s.skip(j), Run::Digits);
        lemma_run_members(s.skip(j), Run::Word);
        lemma_run_members(s.skip(j), Run::Digits);
        let kw = run_len(s.skip(j), Run::Word);
        let kd = run_len(s.skip(j), Run::Digits);
        let w = s.subrange(j, j + kw);
        let d = s.subrange(j, j + kd);
        assert forall|m: int| 0 <= m < w.len() implies (#[trigger] w[m]) as u32 != 0x3A && w[m] as u32 != 0x3D by {
            assert(w[m] == s.skip(j)[m]);
            assert(in_run(Run::Word, s.skip(j)[m]));
        }
        assert forall|m: int| 0 <= m < d.len() implies (#[trigger] d[m]) as u32 != 0x3A && d[m] as u32 != 0x3D by {
            assert(d[m] == s.skip(j)[m]);
            assert(in_run(Run::Digits, s.skip(j)[m]));
        }
    }
}

/// What the assignment part of a header yields holds no `:` or `=` in its
/// fields, when the name does not.
proof fn lemma_assignment_delimiter_free(name: Seq<char>, st: ParseState)
    requires
        delimiter_free(name),
        0 <= st.pos <= st.text.len(),
        match st.current {
            TokenModel::Identifier(w) => delimiter_free(w),
            _ => true,
        },
    ensures
        ({
            let ast = parse_assignment(name, st).0;
            delimiter_free(ast.module_name) && delimiter_free(ast.key) && delimiter_free(ast.value)
        }),
{
    lemma_lexer_bounds(st.text, st.pos);
    let st1 = consume_state(st);
    lemma_lexer_bounds(st1.text, st1.pos);
    lemma_token_delimiter_free(st1.text, st1.pos);
}

/// The lexer stays within the text.
proof fn lemma_lexer_bounds(s: Seq<char>, i: int)
    requires
        0 <= i <= s.len(),
    ensures
        i <= lex_step(s, i).1 <= s.len(),
{
    if i < s.len() {
        lemma_lexer_progress(s, i);
    } else {
        lemma_eof_at_end(s, i);
    }
}

/// The byte stream of a header splits back into its fields: after the command
/// byte `0xCC`, the first `0x3A` ends the module name, the first `0x3D` after
/// it ends the key, and the value runs up to the final `0xFF`. This holds when
/// the name and the key hold no `:` and no `=`, as every header that
/// [`Parser::parse_module`] returns does.
pub proof fn lemma_opcodes_split(name: Seq<char>, key: Seq<char>, value: Seq<char>)
    requires
        delimiter_free(name),
        delimiter_free(key),
    ensures
        ({
            let bytes = module_opcodes(name, key, value);
            let i = 1 + encode_utf8(name).len() as int;
            let j = i + 1 + encode_utf8(key).len() as int;
            &&& bytes[0] == 0xCC
            &&& bytes[i] == 0x3A
            &&& forall|m: int| 0 < m < i ==> #[trigger] bytes[m] != 0x3A
            &&& bytes[j] == 0x3D
            &&& forall|m: int| i < m < j ==> #[trigger] bytes[m] != 0x3D
            &&& bytes[bytes.len() - 1] == 0xFF
            &&& bytes.subrange(1, i) == encode_utf8(name)
            &&& bytes.subrange(i + 1, j) == encode_utf8(key)
            &&& bytes.subrange(j + 1, bytes.len() - 1) == encode_utf8(value)
        }),
{
    crate::chars::lemma_encode_delimiter_free(name);
    crate::chars::lemma_encode_delimiter_free(key);
    let en = encode_utf8(name);
    let ek = encode_utf8(key);
    let ev = encode_utf8(value);
    let bytes = module_opcodes(name, key, value);
    let i = 1 + en.len() as int;
    let j = i + 1 + ek.len() as int;
    assert(bytes.len() == j + 1 + ev.len() + 1);
    assert forall|m: int| 0 < m < i implies #[trigger] bytes[m] != 0x3A by {
        assert(bytes[m] == en[m - 1]);
    }
    assert forall|m: int| i < m < j implies #[trigger] bytes[m] != 0x3D by {
        assert(bytes[m] == ek[m - i - 1]);
    }
    assert(bytes.subrange(1, i) =~= en);
    assert(bytes.subrange(i + 1, j) =~= ek);
    assert(bytes.subrange(j + 1, bytes.len() - 1) =~= ev);
}

/// A parsed header round-trips through its byte stream: the stream splits
/// back, at its first `:` and first `=`, into the UTF-8 bytes of the module
/// name, the key and the value.
pub proof fn lemma_header_round_trip(st: ParseState)
    requires
        0 <= st.pos <= st.text.len(),
    ensures
        parse_header(st).0 matches Some(ast) ==> {
            let bytes = module_opcodes(ast.module_name, ast.key, ast.value);
            let i = 1 + encode_utf8(ast.module_name).len() as int;
            let j = i + 1 + encode_utf8(ast.key).len() as int;
            &&& bytes[0] == 0xCC
            &&& bytes[i] == 0x3A
            &&& forall|m: int| 0 < m < i ==> #[trigger] bytes[m] != 0x3A
            &&& bytes[j] == 0x3D
            &&& forall|m: int| i < m < j ==> #[trigger] bytes[m] != 0x3D
            &&& bytes[bytes.len() - 1] == 0xFF
            &&& bytes.subrange(1, i) == encode_utf8(ast.module_name)
            &&& bytes.subrange(i + 1, j) == encode_utf8(ast.key)
            &&& bytes.subrange(j + 1, bytes.len() - 1) == encode_utf8(ast.value)
        },
{
    if let Some(ast) = parse_header(st).0 {
        let st1 = consume_state(st);
        lemma_lexer_bounds(st.text, st.pos);
        lemma_token_delimiter_free(st.text, st.pos);
        if let TokenModel::Identifier(name) = st1.current {
            let st2 = consume_state(st1);
            lemma_lexer_bounds(st1.text, st1.pos);
            lemma_lexer_bounds(st2.text, st2.pos);
            lemma_token_delimiter_free(st1.text, st1.pos);
            lemma_token_delimiter_free(st2.text, st2.pos);
            let st3 = skip_semicolon(st2);
            if st2.current is Semicolon {
                lemma_token_delimiter_free(st3.text, st2.pos);
            }
            lemma_assignment_delimiter_free(name, st3);
            lemma_opcodes_split(ast.module_name, ast.key, ast.value);
        }
    }
}


/// A token never starts at white space: where the text at `i` is a character
/// for which `char::is_whitespace` holds (U+000D among them), lexing from `i`
/// gives what lexing from the next character gives.
pub proof fn lemma_whitespace_skipped(s: Seq<char>, i: int)
    requires
        0 <= i < s.len(),
        char_is_whitespace(s[i]),
    ensures
        lex_step(s, i) == lex_step(s, i + 1),
{
    assert(s.skip(i)[0] == s[i]);
    assert(s.skip(i).drop_first() =~= s.skip(i + 1));
}

/// The fields of a header, token by token: it is found exactly when the
/// tokens start with `module` and an identifier, which is the module name;
/// after an optional `;`, an identifier is the key; after the key and `=`, a
/// number token is the value, whatever its text. A missing key or value is empty.
pub proof fn lemma_header_fields(st: ParseState)
    ensures
        ({
            let st1 = consume_state(st);
            let st2 = consume_state(st1);
            let st3 = if st2.current is Semicolon { consume_state(st2) } else { st2 };
            let st4 = consume_state(st3);
            let st5 = consume_state(st4);
            &&& (parse_header(st).0 is Some <==> (st.current is Module && st1.current is Identifier))
            &&& parse_header(st).0 matches Some(ast) ==> {
                &&& st1.current == TokenModel::Identifier(ast.module_name)
                &&& (match st3.current {
                    TokenModel::Identifier(k) => ast.key == k,
                    _ => ast.key == Seq::<char>::empty(),
                })
                &&& (match (st3.current, st4.current, st5.current) {
                    (TokenModel::Identifier(_), TokenModel::Assign, TokenModel::Number(v)) => ast.value == v,
                    _ => ast.value == Seq::<char>::empty(),
                })
            }
        }),
{
}

} // verus!
