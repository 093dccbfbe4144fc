use crate::token::{Literal, Token, TokenType};
use vstd::prelude::*;
use vstd::string::*;

verus! {

/// What the scanner can find wrong with the source.
#[derive(PartialEq, Eq, Structural, Clone, Copy, Debug)]
pub enum ScanError {
    UnexpectedCharacter,
    UnterminatedString,
    UnterminatedComment,
}

/// A scanning error and the line it was found on.
#[derive(PartialEq, Eq, Structural, Clone, Copy, Debug)]
pub struct ScanDiagnostic {
    pub kind: ScanError,
    pub line: usize,
}

/// What one step of the scanner finds at a position: a token, a stretch that
/// yields nothing (a blank character or a comment), or an error.
#[derive(PartialEq, Eq, Structural, Clone, Copy, Debug)]
pub enum Piece {
    Token(TokenType),
    Blank,
    Error(ScanError),
}

/// A piece with the position just behind it.
pub struct Lexed {
    pub piece: Piece,
    pub end: int,
}

/// A token as a stretch `[start, end)` of the source.
pub struct Lexeme {
    pub kind: TokenType,
    pub start: int,
    pub end: int,
}

/// A decimal digit.
pub open spec fn is_digit(c: char) -> bool {
    '0' <= c && c <= '9'
}

/// A letter or an underscore: what a word starts with.
pub open spec fn is_alpha(c: char) -> bool {
    ('a' <= c && c <= 'z') || ('A' <= c && c <= 'Z') || c == '_'
}

/// A letter, a digit or an underscore: what a word goes on with.
pub open spec fn is_alphanumeric(c: char) -> bool {
    is_digit(c) || is_alpha(c)
}

/// A blank, a tab, a carriage return or a line feed.
pub open spec fn is_blank(c: char) -> bool {
    c == ' ' || c == '\r' || c == '\t' || c == '\n'
}

/// The first position from `pos` on that holds no digit.
pub open spec fn digits_end(src: Seq<char>, pos: int) -> int
    decreases src.len() - pos,
{
    if 0 <= pos < src.len() && is_digit(src[pos]) {
        digits_end(src, pos + 1)
    } else {
        pos
    }
}

/// The first position from `pos` on that holds no letter, digit or underscore.
pub open spec fn identifier_end(src: Seq<char>, pos: int) -> int
    decreases src.len() - pos,
{
    if 0 <= pos < src.len() && is_alphanumeric(src[pos]) {
        identifier_end(src, pos + 1)
    } else {
        pos
    }
}

/// The first position from `pos` on that holds `stop`, or the length of the
/// source if none does.
pub open spec fn find_char(src: Seq<char>, pos: int, stop: char) -> int
    decreases src.len() - pos,
{
    if 0 <= pos < src.len() && src[pos] != stop {
        find_char(src, pos + 1, stop)
    } else {
        pos
    }
}

/// The position just behind the first `*/` that starts at `pos` or later, or
/// the length of the source plus one if there is none.
pub open spec fn comment_end(src: Seq<char>, pos: int) -> int
    decreases src.len() - pos,
{
    if 0 <= pos && pos + 1 < src.len() {
        if src[pos] == '*' && src[pos + 1] == '/' {
            pos + 2
        } else {
            comment_end(src, pos + 1)
        }
    } else {
        (src.len() + 1) as int
    }
}

/// The number of line feeds in `src[0..pos)`, plus one.
pub open spec fn line_at(src: Seq<char>, pos: int) -> int
    decreases pos,
{
    if pos <= 0 || pos > src.len() {
        1
    } else if src[pos - 1] == '\n' {
        line_at(src, pos - 1) + 1
    } else {
        line_at(src, pos - 1)
    }
}

/// The keyword table: the kind of a word.
pub open spec fn word_kind(text: Seq<char>) -> TokenType {
    if text == "and"@ {
        TokenType::And
    } else if text == "class"@ {
        TokenType::Class
    } else if text == "else"@ {
        TokenType::Else
    } else if text == "false"@ {
        TokenType::False
    } else if text == "for"@ {
        TokenType::For
    } else if text == "fn"@ {
        TokenType::Fn
    } else if text == "if"@ {
        TokenType::If
    } else if text == "nil"@ {
        TokenType::Nil
    } else if text == "or"@ {
        TokenType::Or
    } else if text == "print"@ {
        TokenType::Print
    } else if text == "return"@ {
        TokenType::Return
    } else if text == "super"@ {
        TokenType::Super
    } else if text == "this"@ {
        TokenType::This
    } else if text == "true"@ {
        TokenType::True
    } else if text == "var"@ {
        TokenType::Var
    } else if text == "while"@ {
        TokenType::While
    } else {
        TokenType::Identifier
    }
}

/// Whether `src` holds `c` at `pos`.
pub open spec fn has_char(src: Seq<char>, pos: int, c: char) -> bool {
    0 <= pos < src.len() && src[pos] == c
}

/// The end of the number literal that starts at `pos`: digits, and a fraction
/// if a dot with a digit behind it follows.
pub open spec fn number_end(src: Seq<char>, pos: int) -> int {
    let whole = digits_end(src, pos + 1);
    if has_char(src, whole, '.') && whole + 1 < src.len() && is_digit(src[whole + 1]) {
        digits_end(src, whole + 2)
    } else {
        whole
    }
}

/// One or two characters: `two` if `=` follows, `one` if not.
pub open spec fn with_equal(src: Seq<char>, pos: int, one: TokenType, two: TokenType) -> Lexed {
    if has_char(src, pos + 1, '=') {
        Lexed { piece: Piece::Token(two), end: pos + 2 }
    } else {
        Lexed { piece: Piece::Token(one), end: pos + 1 }
    }
}

/// A token of one character.
pub open spec fn single(kind: TokenType, pos: int) -> Lexed {
    Lexed { piece: Piece::Token(kind), end: pos + 1 }
}

/// The piece that starts at `pos`, and where it ends.
pub open spec fn lex_at(src: Seq<char>, pos: int) -> Lexed
    recommends
        0 <= pos < src.len(),
{
    let c = src[pos];
    if c == '(' {
        single(TokenType::LeftParen, pos)
    } else if c == ')' {
        single(TokenType::RightParen, pos)
    } else if c == '{' {
        single(TokenType::LeftBrace, pos)
    } else if c == '}' {
        single(TokenType::RightBrace, pos)
    } else if c == ',' {
        single(TokenType::Comma, pos)
    } else if c == '.' {
        single(TokenType::Dot, pos)
    } else if c == '-' {
        single(TokenType::Minus, pos)
    } else if c == '+' {
        single(TokenType::Plus, pos)
    } else if c == ';' {
        single(TokenType::Semicolon, pos)
    } else if c == '*' {
        single(TokenType::Star, pos)
    } else if c == '!' {
        with_equal(src, pos, TokenType::Bang, TokenType::BangEqual)
    } else if c == '=' {
        with_equal(src, pos, TokenType::Equal, TokenType::EqualEqual)
    } else if c == '>' {
        with_equal(src, pos, TokenType::Greater, TokenType::GreaterEqual)
    } else if c == '<' {
        with_equal(src, pos, TokenType::Less, TokenType::LessEqual)
    } else if c == '/' {
        if has_char(src, pos + 1, '/') {
            Lexed { piece: Piece::Blank, end: find_char(src, pos + 2, '\n') }
        } else if has_char(src, pos + 1, '*') {
            let close = comment_end(src, pos + 2);
            if close <= src.len() {
                Lexed { piece: Piece::Blank, end: close }
            } else {
                Lexed { piece: Piece::Error(ScanError::UnterminatedComment), end: src.len() as int }
            }
        } else {
            single(TokenType::Slash, pos)
        }
    } else if is_blank(c) {
        Lexed { piece: Piece::Blank, end: pos + 1 }
    } else if c == '"' {
        let quote = find_char(src, pos + 1, '"');
        if quote < src.len() {
            Lexed { piece: Piece::Token(TokenType::String), end: quote + 1 }
        } else {
            Lexed { piece: Piece::Error(ScanError::UnterminatedString), end: src.len() as int }
        }
    } else if is_digit(c) {
        Lexed { piece: Piece::Token(TokenType::Number), end: number_end(src, pos) }
    } else if is_alpha(c) {
        let end = identifier_end(src, pos + 1);
        Lexed { piece: Piece::Token(word_kind(src.subrange(pos, end))), end }
    } else {
        Lexed { piece: Piece::Error(ScanError::UnexpectedCharacter), end: pos + 1 }
    }
}

/// The tokens of `src[pos..]`, in order, as stretches of the source.
pub open spec fn lexemes_from(src: Seq<char>, pos: int) -> Seq<Lexeme>
    decreases src.len() - pos,
{
    if 0 <= pos < src.len() {
        let lexed = lex_at(src, pos);
        if lexed.end <= pos || lexed.end > src.len() {
            Seq::empty()
        } else {
            match lexed.piece {
                Piece::Token(kind) => seq![Lexeme { kind, start: pos, end: lexed.end }]
                    + lexemes_from(src, lexed.end),
                _ => lexemes_from(src, lexed.end),
            }
        }
    } else {
        Seq::empty()
    }
}

/// The errors of `src[pos..]`, in order.
pub open spec fn errors_from(src: Seq<char>, pos: int) -> Seq<ScanDiagnostic>
    decreases src.len() - pos,
{
    if 0 <= pos < src.len() {
        let lexed = lex_at(src, pos);
        if lexed.end <= pos || lexed.end > src.len() {
            Seq::empty()
        } else {
            match lexed.piece {
                Piece::Error(kind) => seq![
                    ScanDiagnostic { kind, line: line_at(src, lexed.end) as usize },
                ] + errors_from(src, lexed.end),
                _ => errors_from(src, lexed.end),
            }
        }
    } else {
        Seq::empty()
    }
}

/// What a token's literal holds: the text between the quotes for a string,
/// the digits for a number, nothing for any other kind.
pub open spec fn literal_matches(literal: Literal, src: Seq<char>, lexeme: Lexeme) -> bool {
    match lexeme.kind {
        TokenType::String => literal matches Literal::String(s)
            && s@ == src.subrange(lexeme.start + 1, lexeme.end - 1),
        TokenType::Number => literal matches Literal::Number(s)
            && s@ == src.subrange(lexeme.start, lexeme.end),
        _ => literal == Literal::Nil,
    }
}

/// `token` is the token for the stretch `lexeme` of `src`.
pub open spec fn token_matches(token: Token, src: Seq<char>, lexeme: Lexeme) -> bool {
    &&& token.token_type == lexeme.kind
    &&& token.lexeme@ == src.subrange(lexeme.start, lexeme.end)
    &&& token.line == line_at(src, lexeme.end)
    &&& literal_matches(token.literal, src, lexeme)
}

/// `token` closes the token sequence of `src`.
pub open spec fn is_eof_token(token: Token, src: Seq<char>) -> bool {
    &&& token.token_type == TokenType::Eof
    &&& token.lexeme@ == Seq::<char>::empty()
    &&& token.literal == Literal::Nil
    &&& token.line == line_at(src, src.len() as int)
}

/// `tokens` are the tokens for the stretches `lexemes` of `src`, one for one.
pub open spec fn tokens_match(tokens: Seq<Token>, src: Seq<char>, lexemes: Seq<Lexeme>) -> bool {
    &&& tokens.len() == lexemes.len()
    &&& forall|i: int|
        0 <= i < lexemes.len() ==> token_matches(#[trigger] tokens[i], src, lexemes[i])
}

/// A line number is at least one, and at most one more than the number
/// of characters before it.
pub proof fn lemma_line_bound(src: Seq<char>, pos: int)
    ensures
        1 <= line_at(src, pos) <= pos + 1 || (pos < 0 && line_at(src, pos) == 1),
        1 <= line_at(src, pos) <= src.len() + 1,
    decreases pos,
{
    if pos <= 0 || pos > src.len() {
    } else {
        lemma_line_bound(src, pos - 1);
    }
}

/// The scanner: the source, the tokens and errors found so far, the start
/// of the piece being scanned, the cursor, the line of the cursor, and the
/// length of the source in characters.
pub struct Scanner {
    pub source: String,
    pub tokens: Vec<Token>,
    pub errors: Vec<ScanDiagnostic>,
    pub start: usize,
    pub current: usize,
    pub line: usize,
    pub length: usize,
}

fn is_digit_char(c: char) -> (r: bool)
    ensures
        r == is_digit(c),
{
    '0' <= c && c <= '9'
}

fn is_alpha_char(c: char) -> (r: bool)
    ensures
        r == is_alpha(c),
{
    ('a' <= c && c <= 'z') || ('A' <= c && c <= 'Z') || c == '_'
}

fn is_alphanumeric_char(c: char) -> (r: bool)
    ensures
        r == is_alphanumeric(c),
{
    is_digit_char(c) || is_alpha_char(c)
}

/// The kind of a word: a keyword's kind, or `Identifier`.
pub fn text2token(text: &String) -> (r: TokenType)
    ensures
        r == word_kind(text@),
{
    if *text == String::from_str("and") {
        TokenType::And
    } else if *text == String::from_str("class") {
        TokenType::Class
    } else if *text == String::from_str("else") {
        TokenType::Else
    } else if *text == String::from_str("false") {
        TokenType::False
    } else if *text == String::from_str("for") {
        TokenType::For
    } else if *text == String::from_str("fn") {
        TokenType::Fn
    } else if *text == String::from_str("if") {
        TokenType::If
    } else if *text == String::from_str("nil") {
        TokenType::Nil
    } else if *text == String::from_str("or") {
        TokenType::Or
    } else if *text == String::from_str("print") {
        TokenType::Print
    } else if *text == String::from_str("return") {
        TokenType::Return
    } else if *text == String::from_str("super") {
        TokenType::Super
    } else if *text == String::from_str("this") {
        TokenType::This
    } else if *text == String::from_str("true") {
        TokenType::True
    } else if *text == String::from_str("var") {
        TokenType::Var
    } else if *text == String::from_str("while") {
        TokenType::While
    } else {
        TokenType::Identifier
    }
}

impl Scanner {
    /// The cursor lies in the source and the line counter agrees with it.
    pub open spec fn wf(&self) -> bool {
        &&& self.length == self.source@.len()
        &&& self.length < usize::MAX
        &&& self.start <= self.current <= self.length
        &&& self.line == line_at(self.source@, self.current as int)
    }

    /// Nothing but the cursor and the line counter differs from `pre`.
    pub open spec fn only_moved(&self, pre: &Scanner) -> bool {
        &&& self.source == pre.source
        &&& self.tokens == pre.tokens
        &&& self.errors == pre.errors
        &&& self.start == pre.start
        &&& self.length == pre.length
        &&& self.current >= pre.current
    }

    /// A scanner at the start of `source`.
    pub fn new(source: String) -> (r: Self)
        requires
            source@.len() < usize::MAX,
        ensures
            r.wf(),
            r.source == source,
            r.tokens@.len() == 0,
            r.errors@.len() == 0,
            r.start == 0,
            r.current == 0,
    {
        let length: usize = source.as_str().unicode_len();
        Self { source, tokens: Vec::new(), errors: Vec::new(), start: 0, current: 0, line: 1, length }
    }

    fn is_at_end(&self) -> (r: bool)
        ensures
            r == (self.current >= self.length),
    {
        self.current >= self.length
    }

    fn advance(&mut self) -> (c: char)
        requires
            old(self).wf(),
            old(self).current < old(self).length,
        ensures
            final(self).wf(),
            final(self).only_moved(old(self)),
            final(self).current == old(self).current + 1,
            c == old(self).source@[old(self).current as int],
    {
        let c: char = self.source.as_str().get_char(self.current);
        proof {
            lemma_line_bound(self.source@, self.current as int);
        }
        self.current += 1;
        if c == '\n' {
            self.line += 1;
        }
        c
    }

    fn matches(&mut self, expected: char) -> (r: bool)
        requires
            old(self).wf(),
        ensures
            final(self).wf(),
            final(self).only_moved(old(self)),
            r == has_char(old(self).source@, old(self).current as int, expected),
            final(self).current == if r { old(self).current + 1 } else { old(self).current as int },
    {
        if self.current >= self.length {
            return false;
        }
        if self.source.as_str().get_char(self.current) != expected {
            return false;
        }
        self.advance();
        true
    }

    fn peek(&self) -> (c: char)
        requires
            self.wf(),
        ensures
            self.current < self.length ==> c == self.source@[self.current as int],
            self.current >= self.length ==> c == '\0',
    {
        if self.current < self.length {
            self.source.as_str().get_char(self.current)
        } else {
            '\0'
        }
    }

    fn peek_next(&self) -> (c: char)
        requires
            self.wf(),
        ensures
            self.current + 1 < self.length ==> c == self.source@[self.current + 1],
            self.current + 1 >= self.length ==> c == '\0',
    {
        if self.current < self.length && self.current + 1 < self.length {
            self.source.as_str().get_char(self.current + 1)
        } else {
            '\0'
        }
    }

    fn add_token(&mut self, token_type: TokenType, literal: Literal)
        requires
            old(self).wf(),
        ensures
            final(self).wf(),
            final(self).source == old(self).source,
            final(self).errors == old(self).errors,
            final(self).start == old(self).start,
            final(self).current == old(self).current,
            final(self).tokens@.len() == old(self).tokens@.len() + 1,
            final(self).tokens@.drop_last() == old(self).tokens@,
            final(self).tokens@.last().token_type == token_type,
            final(self).tokens@.last().literal == literal,
            final(self).tokens@.last().line == old(self).line,
            final(self).tokens@.last().lexeme@ == old(self).source@.subrange(
                old(self).start as int,
                old(self).current as int,
            ),
    {
        let lexeme: String = String::from_str(
            self.source.as_str().substring_char(self.start, self.current),
        );
        self.tokens.push(Token::new(token_type, lexeme, literal, self.line));
        assert(self.tokens@.drop_last() =~= old(self).tokens@);
    }

    fn add_token_no_lit(&mut self, token_type: TokenType)
        requires
            old(self).wf(),
        ensures
            final(self).wf(),
            final(self).source == old(self).source,
            final(self).errors == old(self).errors,
            final(self).start == old(self).start,
            final(self).current == old(self).current,
            final(self).tokens@.len() == old(self).tokens@.len() + 1,
            final(self).tokens@.drop_last() == old(self).tokens@,
            final(self).tokens@.last().token_type == token_type,
            final(self).tokens@.last().literal == Literal::Nil,
            final(self).tokens@.last().line == old(self).line,
            final(self).tokens@.last().lexeme@ == old(self).source@.subrange(
                old(self).start as int,
                old(self).current as int,
            ),
    {
        self.add_token(token_type, Literal::Nil)
    }

    fn add_error(&mut self, kind: ScanError)
        requires
            old(self).wf(),
        ensures
            final(self).wf(),
            final(self).source == old(self).source,
            final(self).tokens == old(self).tokens,
            final(self).start == old(self).start,
            final(self).current == old(self).current,
            final(self).errors@ == old(self).errors@.push(
                ScanDiagnostic { kind, line: old(self).line },
            ),
    {
        self.errors.push(ScanDiagnostic { kind, line: self.line });
    }

    fn skip_digits(&mut self)
        requires
            old(self).wf(),
        ensures
            final(self).wf(),
            final(self).only_moved(old(self)),
            final(self).current == digits_end(old(self).source@, old(self).current as int),
    {
        while self.current < self.length && is_digit_char(self.peek())
            invariant
                self.wf(),
                self.only_moved(old(self)),
                digits_end(self.source@, self.current as int) == digits_end(
                    old(self).source@,
                    old(self).current as int,
                ),
            decreases self.length - self.current,
        {
            self.advance();
        }
    }

    fn skip_word(&mut self)
        requires
            old(self).wf(),
        ensures
            final(self).wf(),
            final(self).only_moved(old(self)),
            final(self).current == identifier_end(old(self).source@, old(self).current as int),
    {
        while self.current < self.length && is_alphanumeric_char(self.peek())
            invariant
                self.wf(),
                self.only_moved(old(self)),
                identifier_end(self.source@, self.current as int) == identifier_end(
                    old(self).source@,
                    old(self).current as int,
                ),
            decreases self.length - self.current,
        {
            self.advance();
        }
    }

    fn skip_until(&mut self, stop: char)
        requires
            old(self).wf(),
        ensures
            final(self).wf(),
            final(self).only_moved(old(self)),
            final(self).current == find_char(old(self).source@, old(self).current as int, stop),
    {
        while self.current < self.length && self.peek() != stop
            invariant
                self.wf(),
                self.only_moved(old(self)),
                find_char(self.source@, self.current as int, stop) == find_char(
                    old(self).source@,
                    old(self).current as int,
                    stop,
                ),
            decreases self.length - self.current,
        {
            self.advance();
        }
    }

    /// Moves behind the `*/` that closes a block comment, or to the end of the
    /// source if there is none; tells which.
    fn skip_comment(&mut self) -> (closed: bool)
        requires
            old(self).wf(),
        ensures
            final(self).wf(),
            final(self).only_moved(old(self)),
            closed == (comment_end(old(self).source@, old(self).current as int)
                <= old(self).length),
            closed ==> final(self).current == comment_end(
                old(self).source@,
                old(self).current as int,
            ),
            !closed ==> final(self).current == old(self).length,
    {
        while self.current < self.length
            invariant
                self.wf(),
                self.only_moved(old(self)),
                comment_end(self.source@, self.current as int) == comment_end(
                    old(self).source@,
                    old(self).current as int,
                ),
            decreases self.length - self.current,
        {
            let c: char = self.advance();
            if c == '*' && self.peek() == '/' {
                self.advance();
                return true;
            }
        }
        false
    }
}

impl Scanner {
    /// What one step does, given the piece `lexed` found at the cursor: a
    /// token is appended, an error is recorded, or nothing but the cursor
    /// moves.
    pub open spec fn stepped(&self, pre: &Scanner, lexed: Lexed) -> bool {
        let src = pre.source@;
        &&& self.source == pre.source
        &&& self.current == lexed.end
        &&& self.current > pre.start
        &&& match lexed.piece {
            Piece::Token(kind) => {
                &&& self.errors == pre.errors
                &&& self.tokens@.len() == pre.tokens@.len() + 1
                &&& self.tokens@.drop_last() == pre.tokens@
                &&& token_matches(
                    self.tokens@.last(),
                    src,
                    Lexeme { kind, start: pre.start as int, end: lexed.end },
                )
            },
            Piece::Blank => self.errors == pre.errors && self.tokens == pre.tokens,
            Piece::Error(kind) => {
                &&& self.tokens == pre.tokens
                &&& self.errors@ == pre.errors@.push(
                    ScanDiagnostic { kind, line: line_at(src, lexed.end) as usize },
                )
            },
        }
    }

    fn add_string(&mut self)
        requires
            old(self).wf(),
            old(self).current == old(self).start + 1,
            old(self).source@[old(self).start as int] == '"',
        ensures
            final(self).wf(),
            final(self).stepped(old(self), lex_at(old(self).source@, old(self).start as int)),
            final(self).start == old(self).start,
    {
        self.skip_until('"');
        if self.is_at_end() {
            self.add_error(ScanError::UnterminatedString);
            return ;
        }
        self.advance();
        let text: String = String::from_str(
            self.source.as_str().substring_char(self.start + 1, self.current - 1),
        );
        self.add_token(TokenType::String, Literal::String(text));
    }

    fn add_number(&mut self)
        requires
            old(self).wf(),
            old(self).current == old(self).start + 1,
            is_digit(old(self).source@[old(self).start as int]),
        ensures
            final(self).wf(),
            final(self).stepped(old(self), lex_at(old(self).source@, old(self).start as int)),
            final(self).start == old(self).start,
    {
        self.skip_digits();
        if self.peek() == '.' && is_digit_char(self.peek_next()) {
            self.advance();
            self.skip_digits();
        }
        let text: String = String::from_str(
            self.source.as_str().substring_char(self.start, self.current),
        );
        self.add_token(TokenType::Number, Literal::Number(text));
    }

    fn add_identifier(&mut self)
        requires
            old(self).wf(),
            old(self).current == old(self).start + 1,
            is_alpha(old(self).source@[old(self).start as int]),
        ensures
            final(self).wf(),
            final(self).stepped(old(self), lex_at(old(self).source@, old(self).start as int)),
            final(self).start == old(self).start,
    {
        self.skip_word();
        let text: String = String::from_str(
            self.source.as_str().substring_char(self.start, self.current),
        );
        let token_type: TokenType = text2token(&text);
        self.add_token_no_lit(token_type);
    }

    fn add_operator(&mut self, one: TokenType, two: TokenType)
        requires
            old(self).wf(),
            old(self).current == old(self).start + 1,
            one != TokenType::String,
            one != TokenType::Number,
            two != TokenType::String,
            two != TokenType::Number,
        ensures
            final(self).wf(),
            final(self).stepped(
                old(self),
                with_equal(old(self).source@, old(self).start as int, one, two),
            ),
            final(self).start == old(self).start,
    {
        if self.matches('=') {
            self.add_token_no_lit(two);
        } else {
            self.add_token_no_lit(one);
        }
    }

    fn add_slash_or_comment(&mut self)
        requires
            old(self).wf(),
            old(self).current == old(self).start + 1,
            old(self).source@[old(self).start as int] == '/',
        ensures
            final(self).wf(),
            final(self).stepped(old(self), lex_at(old(self).source@, old(self).start as int)),
            final(self).start == old(self).start,
    {
        if self.matches('/') {
            self.skip_until('\n');
        } else if self.matches('*') {
            let closed: bool = self.skip_comment();
            if !closed {
                self.add_error(ScanError::UnterminatedComment);
            }
        } else {
            self.add_token_no_lit(TokenType::Slash);
        }
    }

    /// Scans the piece at the cursor.
    fn scan_single_token(&mut self)
        requires
            old(self).wf(),
            old(self).current < old(self).length,
            old(self).start == old(self).current,
        ensures
            final(self).wf(),
            final(self).stepped(old(self), lex_at(old(self).source@, old(self).current as int)),
    {
        let c: char = self.advance();
        if c == '(' {
            self.add_token_no_lit(TokenType::LeftParen);
        } else if c == ')' {
            self.add_token_no_lit(TokenType::RightParen);
        } else if c == '{' {
            self.add_token_no_lit(TokenType::LeftBrace);
        } else if c == '}' {
            self.add_token_no_lit(TokenType::RightBrace);
        } else if c == ',' {
            self.add_token_no_lit(TokenType::Comma);
        } else if c == '.' {
            self.add_token_no_lit(TokenType::Dot);
        } else if c == '-' {
            self.add_token_no_lit(TokenType::Minus);
        } else if c == '+' {
            self.add_token_no_lit(TokenType::Plus);
        } else if c == ';' {
            self.add_token_no_lit(TokenType::Semicolon);
        } else if c == '*' {
            self.add_token_no_lit(TokenType::Star);
        } else if c == '!' {
            self.add_operator(TokenType::Bang, TokenType::BangEqual);
        } else if c == '=' {
            self.add_operator(TokenType::Equal, TokenType::EqualEqual);
        } else if c == '>' {
            self.add_operator(TokenType::Greater, TokenType::GreaterEqual);
        } else if c == '<' {
            self.add_operator(TokenType::Less, TokenType::LessEqual);
        } else if c == '/' {
            self.add_slash_or_comment();
        } else if c == ' ' || c == '\r' || c == '\t' || c == '\n' {
        } else if c == '"' {
            self.add_string();
        } else if is_digit_char(c) {
            self.add_number();
        } else if is_alpha_char(c) {
            self.add_identifier();
        } else {
            self.add_error(ScanError::UnexpectedCharacter);
        }
    }

    /// Scans the source from the cursor to its end and closes the token
    /// sequence with an end-of-file token. Every stretch of the source yields
    /// what `lex_at` says, in order; an error is recorded and scanning goes on.
    pub fn scan_tokens(&mut self) -> (r: &Vec<Token>)
        requires
            old(self).wf(),
        ensures
            final(self).wf(),
            final(self).source == old(self).source,
            final(self).current == old(self).length,
            *r == final(self).tokens,
            r@.len() == old(self).tokens@.len() + lexemes_from(
                old(self).source@,
                old(self).current as int,
            ).len() + 1,
            r@.subrange(0, old(self).tokens@.len() as int) == old(self).tokens@,
            tokens_match(
                r@.subrange(old(self).tokens@.len() as int, r@.len() - 1),
                old(self).source@,
                lexemes_from(old(self).source@, old(self).current as int),
            ),
            is_eof_token(r@.last(), old(self).source@),
            final(self).errors@ == old(self).errors@ + errors_from(
                old(self).source@,
                old(self).current as int,
            ),
    {
        let ghost src = self.source@;
        let ghost done: Seq<Lexeme> = Seq::empty();
        let ghost base = self.tokens@.len() as int;
        assert(self.tokens@.subrange(0, base) =~= old(self).tokens@);
        while !self.is_at_end()
            invariant
                self.wf(),
                self.source == old(self).source,
                src == self.source@,
                base == old(self).tokens@.len(),
                self.tokens@.len() == base + done.len(),
                self.tokens@.subrange(0, base) == old(self).tokens@,
                tokens_match(self.tokens@.subrange(base, self.tokens@.len() as int), src, done),
                done + lexemes_from(src, self.current as int) == lexemes_from(
                    src,
                    old(self).current as int,
                ),
                self.errors@ + errors_from(src, self.current as int) == old(self).errors@
                    + errors_from(src, old(self).current as int),
            decreases self.length - self.current,
        {
            self.start = self.current;
            let ghost pre = *self;
            let ghost lexed = lex_at(src, self.current as int);
            self.scan_single_token();
            proof {
                let rest = lexemes_from(src, lexed.end);
                let rest_errors = errors_from(src, lexed.end);
                match lexed.piece {
                    Piece::Token(kind) => {
                        let lexeme = Lexeme { kind, start: pre.current as int, end: lexed.end };
                        assert(done.push(lexeme) + rest =~= done + (seq![lexeme] + rest));
                        done = done.push(lexeme);
                        let now = self.tokens@.subrange(base, self.tokens@.len() as int);
                        let before = pre.tokens@.subrange(base, pre.tokens@.len() as int);
                        assert(now.drop_last() =~= before);
                        assert(now.last() == self.tokens@.last());
                        assert forall|i: int| 0 <= i < done.len() implies token_matches(
                            #[trigger] now[i],
                            src,
                            done[i],
                        ) by {
                            if i < done.len() - 1 {
                                assert(now[i] == before[i]);
                            }
                        }
                        assert(self.tokens@.subrange(0, base) =~= pre.tokens@.subrange(0, base));
                    },
                    Piece::Blank => {},
                    Piece::Error(kind) => {
                        let error = ScanDiagnostic { kind, line: line_at(src, lexed.end) as usize };
                        assert(pre.errors@.push(error) + rest_errors =~= pre.errors@ + (seq![error]
                            + rest_errors));
                    },
                }
            }
        }
        proof {
            lemma_line_bound(src, self.current as int);
        }
        let ghost scanned = self.tokens@;
        self.tokens.push(Token::new(TokenType::Eof, String::new(), Literal::Nil, self.line));
        proof {
            assert(done =~= lexemes_from(src, old(self).current as int));
            assert(self.errors@ =~= old(self).errors@ + errors_from(
                src,
                old(self).current as int,
            ));
            assert(self.tokens@.subrange(0, base) =~= scanned.subrange(0, base));
            assert(self.tokens@.subrange(base, self.tokens@.len() - 1) =~= scanned.subrange(
                base,
                scanned.len() as int,
            ));
        }
        &self.tokens
    }
}

/// `find_char` finds the first `stop` from `pos` on, or the end.
pub proof fn lemma_find_char(src: Seq<char>, pos: int, stop: char)
    requires
        0 <= pos <= src.len(),
    ensures
        pos <= find_char(src, pos, stop) <= src.len(),
        forall|i: int| pos <= i < find_char(src, pos, stop) ==> src[i] != stop,
        find_char(src, pos, stop) < src.len() ==> src[find_char(src, pos, stop)] == stop,
    decreases src.len() - pos,
{
    if pos < src.len() && src[pos] != stop {
        lemma_find_char(src, pos + 1, stop);
    }
}

/// A `*/` stands at `pos`.
pub open spec fn closes_at(src: Seq<char>, pos: int) -> bool {
    0 <= pos && pos + 1 < src.len() && src[pos] == '*' && src[pos + 1] == '/'
}

/// `comment_end` finds the first `*/` from `pos` on and gives the position
/// behind it, or there is none.
pub proof fn lemma_comment_end(src: Seq<char>, pos: int)
    requires
        0 <= pos <= src.len(),
    ensures
        ({
            let end = comment_end(src, pos);
            if end <= src.len() {
                &&& pos + 2 <= end
                &&& src[end - 2] == '*'
                &&& src[end - 1] == '/'
                &&& forall|i: int| pos <= i < end - 2 ==> !#[trigger] closes_at(src, i)
            } else {
                forall|i: int| pos <= i ==> !#[trigger] closes_at(src, i)
            }
        }),
    decreases src.len() - pos,
{
    if pos + 1 < src.len() && !(src[pos] == '*' && src[pos + 1] == '/') {
        lemma_comment_end(src, pos + 1);
    }
}

/// `digits_end` skips digits and nothing else.
pub proof fn lemma_digits_end(src: Seq<char>, pos: int)
    requires
        0 <= pos <= src.len(),
    ensures
        pos <= digits_end(src, pos) <= src.len(),
        forall|i: int| pos <= i < digits_end(src, pos) ==> is_digit(src[i]),
        digits_end(src, pos) < src.len() ==> !is_digit(src[digits_end(src, pos)]),
    decreases src.len() - pos,
{
    if pos < src.len() && is_digit(src[pos]) {
        lemma_digits_end(src, pos + 1);
    }
}

/// `identifier_end` skips letters, digits and underscores and nothing else.
pub proof fn lemma_identifier_end(src: Seq<char>, pos: int)
    requires
        0 <= pos <= src.len(),
    ensures
        pos <= identifier_end(src, pos) <= src.len(),
        forall|i: int| pos <= i < identifier_end(src, pos) ==> is_alphanumeric(src[i]),
        identifier_end(src, pos) < src.len() ==> !is_alphanumeric(
            src[identifier_end(src, pos)],
        ),
    decreases src.len() - pos,
{
    if pos < src.len() && is_alphanumeric(src[pos]) {
        lemma_identifier_end(src, pos + 1);
    }
}

/// Every piece is at least one character long and ends in the source.
pub proof fn lemma_lex_progress(src: Seq<char>, pos: int)
    requires
        0 <= pos < src.len(),
    ensures
        pos < lex_at(src, pos).end <= src.len(),
{
    lemma_find_char(src, pos + 1, '"');
    lemma_identifier_end(src, pos + 1);
    lemma_digits_end(src, pos + 1);
    let whole = digits_end(src, pos + 1);
    if whole + 2 <= src.len() {
        lemma_digits_end(src, whole + 2);
    }
    if pos + 2 <= src.len() {
        lemma_find_char(src, pos + 2, '\n');
        lemma_comment_end(src, pos + 2);
    }
}

/// What yields no token is a blank character, a line comment up to the
/// next line feed, or a block comment through its `*/`.
pub proof fn lemma_blank_piece(src: Seq<char>, pos: int)
    requires
        0 <= pos < src.len(),
        lex_at(src, pos).piece == Piece::Blank,
    ensures
        ({
            let end = lex_at(src, pos).end;
            ||| (is_blank(src[pos]) && end == pos + 1)
            ||| (src[pos] == '/' && has_char(src, pos + 1, '/') && end == find_char(
                src,
                pos + 2,
                '\n',
            ))
            ||| (src[pos] == '/' && has_char(src, pos + 1, '*') && end == comment_end(
                src,
                pos + 2,
            ) && end <= src.len())
        }),
{
}

/// The texts of the stretches `lexemes`, one behind the other.
pub open spec fn lexeme_text(src: Seq<char>, lexemes: Seq<Lexeme>) -> Seq<char>
    decreases lexemes.len(),
{
    if lexemes.len() == 0 {
        Seq::empty()
    } else {
        src.subrange(lexemes[0].start, lexemes[0].end) + lexeme_text(src, lexemes.drop_first())
    }
}

/// The source from `pos` on without what yields no token: without blank
/// characters and comments.
pub open spec fn significant(src: Seq<char>, pos: int) -> Seq<char>
    decreases src.len() - pos,
{
    if 0 <= pos < src.len() {
        let lexed = lex_at(src, pos);
        if lexed.end <= pos || lexed.end > src.len() {
            Seq::empty()
        } else if lexed.piece == Piece::Blank {
            significant(src, lexed.end)
        } else {
            src.subrange(pos, lexed.end) + significant(src, lexed.end)
        }
    } else {
        Seq::empty()
    }
}

/// Scanning and then writing the lexemes one behind the other gives the
/// source back without its blank characters and comments, where the source
/// scans without error.
pub proof fn lemma_scan_round_trip(src: Seq<char>, pos: int)
    requires
        0 <= pos,
        errors_from(src, pos).len() == 0,
    ensures
        lexeme_text(src, lexemes_from(src, pos)) == significant(src, pos),
    decreases src.len() - pos,
{
    if pos < src.len() {
        let lexed = lex_at(src, pos);
        if lexed.end <= pos || lexed.end > src.len() {
        } else {
            match lexed.piece {
                Piece::Token(kind) => {
                    let lexeme = Lexeme { kind, start: pos, end: lexed.end };
                    let rest = lexemes_from(src, lexed.end);
                    lemma_scan_round_trip(src, lexed.end);
                    assert((seq![lexeme] + rest).drop_first() =~= rest);
                    assert((seq![lexeme] + rest)[0] == lexeme);
                },
                Piece::Blank => {
                    lemma_scan_round_trip(src, lexed.end);
                },
                Piece::Error(kind) => {
                    let error = ScanDiagnostic { kind, line: line_at(src, lexed.end) as usize };
                    assert((seq![error] + errors_from(src, lexed.end)).len() > 0);
                },
            }
        }
    }
}

} // verus!
