use lox::scanner::{text2token, ScanError, Scanner};
use lox::token::{Literal, Token, TokenType};

fn scan(source: &str) -> (Vec<Token>, Vec<(ScanError, usize)>) {
    let mut scanner = Scanner::new(source.to_string());
    scanner.scan_tokens();
    let errors = scanner.errors.iter().map(|e| (e.kind, e.line)).collect();
    (scanner.tokens, errors)
}

fn kinds(source: &str) -> Vec<TokenType> {
    scan(source).0.iter().map(|t| t.token_type).collect()
}

fn lexemes(source: &str) -> Vec<String> {
    scan(source).0.iter().map(|t| t.lexeme.clone()).collect()
}

#[test]
fn scans_single_characters() {
    assert_eq!(
        kinds("(){},.-+;*/"),
        vec![
            TokenType::LeftParen,
            TokenType::RightParen,
            TokenType::LeftBrace,
            TokenType::RightBrace,
            TokenType::Comma,
            TokenType::Dot,
            TokenType::Minus,
            TokenType::Plus,
            TokenType::Semicolon,
            TokenType::Star,
            TokenType::Slash,
            TokenType::Eof
        ]
    );
}

#[test]
fn scans_one_or_two_character_operators() {
    assert_eq!(
        kinds("! != = == > >= < <="),
        vec![
            TokenType::Bang,
            TokenType::BangEqual,
            TokenType::Equal,
            TokenType::EqualEqual,
            TokenType::Greater,
            TokenType::GreaterEqual,
            TokenType::Less,
            TokenType::LessEqual,
            TokenType::Eof
        ]
    );
    assert_eq!(kinds("!===="), vec![
        TokenType::BangEqual,
        TokenType::EqualEqual,
        TokenType::Equal,
        TokenType::Eof
    ]);
    assert_eq!(lexemes("a<=b"), vec!["a", "<=", "b", ""]);
}

#[test]
fn scans_keywords() {
    assert_eq!(
        kinds("and class else false for fn if nil or print return super this true var while"),
        vec![
            TokenType::And,
            TokenType::Class,
            TokenType::Else,
            TokenType::False,
            TokenType::For,
            TokenType::Fn,
            TokenType::If,
            TokenType::Nil,
            TokenType::Or,
            TokenType::Print,
            TokenType::Return,
            TokenType::Super,
            TokenType::This,
            TokenType::True,
            TokenType::Var,
            TokenType::While,
            TokenType::Eof
        ]
    );
}

#[test]
fn a_keyword_is_a_whole_word() {
    assert_eq!(
        kinds("orchid o or_ classy _if fun If"),
        vec![
            TokenType::Identifier,
            TokenType::Identifier,
            TokenType::Identifier,
            TokenType::Identifier,
            TokenType::Identifier,
            TokenType::Identifier,
            TokenType::Identifier,
            TokenType::Eof
        ]
    );
    assert_eq!(text2token(&"while".to_string()), TokenType::While);
    assert_eq!(text2token(&"whil".to_string()), TokenType::Identifier);
    assert_eq!(text2token(&"".to_string()), TokenType::Identifier);
}

#[test]
fn scans_identifiers() {
    let (tokens, errors) = scan("abc _a1 A_b9");
    assert!(errors.is_empty());
    assert_eq!(tokens.len(), 4);
    assert_eq!(tokens[0].lexeme, "abc");
    assert_eq!(tokens[1].lexeme, "_a1");
    assert_eq!(tokens[2].lexeme, "A_b9");
    assert_eq!(tokens[0].literal, Literal::Nil);
    assert_eq!(tokens[3].token_type, TokenType::Eof);
    assert_eq!(tokens[3].lexeme, "");
}

#[test]
fn scans_numbers() {
    let (tokens, errors) = scan("12 3.25 7. .5 1.2.3");
    assert!(errors.is_empty());
    let texts: Vec<&str> = tokens.iter().map(|t| t.lexeme.as_str()).collect();
    assert_eq!(texts, vec!["12", "3.25", "7", ".", ".", "5", "1.2", ".", "3", ""]);
    assert_eq!(tokens[0].token_type, TokenType::Number);
    assert_eq!(tokens[0].literal, Literal::Number("12".to_string()));
    assert_eq!(tokens[1].literal, Literal::Number("3.25".to_string()));
    assert_eq!(tokens[2].literal, Literal::Number("7".to_string()));
    assert_eq!(tokens[3].token_type, TokenType::Dot);
    assert_eq!(tokens[6].literal, Literal::Number("1.2".to_string()));
}

#[test]
fn a_number_ends_where_a_word_starts() {
    assert_eq!(kinds("12ab"), vec![TokenType::Number, TokenType::Identifier, TokenType::Eof]);
    assert_eq!(lexemes("12ab"), vec!["12", "ab", ""]);
}

#[test]
fn scans_strings() {
    let (tokens, errors) = scan("\"hi\" \"\" \"a b\"");
    assert!(errors.is_empty());
    assert_eq!(tokens[0].token_type, TokenType::String);
    assert_eq!(tokens[0].lexeme, "\"hi\"");
    assert_eq!(tokens[0].literal, Literal::String("hi".to_string()));
    assert_eq!(tokens[1].lexeme, "\"\"");
    assert_eq!(tokens[1].literal, Literal::String("".to_string()));
    assert_eq!(tokens[2].literal, Literal::String("a b".to_string()));
}

#[test]
fn a_string_has_no_escapes_and_may_span_lines() {
    let (tokens, errors) = scan("\"a\\n\" \"x\ny\" z");
    assert!(errors.is_empty());
    assert_eq!(tokens[0].literal, Literal::String("a\\n".to_string()));
    assert_eq!(tokens[0].line, 1);
    assert_eq!(tokens[1].literal, Literal::String("x\ny".to_string()));
    assert_eq!(tokens[1].line, 2);
    assert_eq!(tokens[2].line, 2);
}

#[test]
fn counts_lines() {
    let (tokens, _) = scan("a\nb\n\nc // d\ne /* f\n g */ h\n");
    let lines: Vec<usize> = tokens.iter().map(|t| t.line).collect();
    assert_eq!(lines, vec![1, 2, 4, 5, 6, 7]);
    let (tokens, _) = scan("");
    assert_eq!(tokens.len(), 1);
    assert_eq!(tokens[0].line, 1);
    assert_eq!(tokens[0].token_type, TokenType::Eof);
    assert_eq!(tokens[0].literal, Literal::Nil);
}

#[test]
fn skips_comments() {
    assert_eq!(lexemes("a // b c\nd"), vec!["a", "d", ""]);
    assert_eq!(lexemes("a /* b */ c"), vec!["a", "c", ""]);
    assert_eq!(lexemes("a /* b /* c */ d */"), vec!["a", "d", "*", "/", ""]);
    assert_eq!(lexemes("a /**/ b"), vec!["a", "b", ""]);
    assert_eq!(lexemes("a /*/ b */ c"), vec!["a", "c", ""]);
    assert_eq!(lexemes("// only"), vec![""]);
    assert_eq!(lexemes("/* ** */x"), vec!["x", ""]);
    assert_eq!(lexemes("1 / 2"), vec!["1", "/", "2", ""]);
}

#[test]
fn reports_an_unexpected_character_and_goes_on() {
    let (tokens, errors) = scan("a @ b\n# c");
    assert_eq!(errors, vec![(ScanError::UnexpectedCharacter, 1), (ScanError::UnexpectedCharacter, 2)]);
    let texts: Vec<&str> = tokens.iter().map(|t| t.lexeme.as_str()).collect();
    assert_eq!(texts, vec!["a", "b", "c", ""]);
}

#[test]
fn reports_an_unterminated_string() {
    let (tokens, errors) = scan("a \"bc\nd");
    assert_eq!(errors, vec![(ScanError::UnterminatedString, 2)]);
    assert_eq!(tokens.len(), 2);
    assert_eq!(tokens[1].token_type, TokenType::Eof);
    assert_eq!(tokens[1].line, 2);
}

#[test]
fn reports_an_unterminated_comment() {
    let (tokens, errors) = scan("a /* b\n\n c *");
    assert_eq!(errors, vec![(ScanError::UnterminatedComment, 3)]);
    assert_eq!(tokens.len(), 2);
    let (_, errors) = scan("/*/");
    assert_eq!(errors, vec![(ScanError::UnterminatedComment, 1)]);
}

#[test]
fn characters_beyond_ascii_are_counted_as_characters() {
    let (tokens, errors) = scan("\"żółw\" x é y");
    assert_eq!(errors, vec![(ScanError::UnexpectedCharacter, 1)]);
    assert_eq!(tokens[0].literal, Literal::String("żółw".to_string()));
    assert_eq!(tokens[1].lexeme, "x");
    assert_eq!(tokens[2].lexeme, "y");
}

#[test]
fn scanning_twice_goes_on_where_it_stopped() {
    let mut scanner = Scanner::new("a b".to_string());
    assert_eq!(scanner.scan_tokens().len(), 3);
    assert_eq!(scanner.scan_tokens().len(), 4);
    assert_eq!(scanner.tokens[3].token_type, TokenType::Eof);
}

fn strip(source: &str) -> String {
    // What is left of a source without blanks and comments; the sources
    // below hold no string with a blank, a slash or a line feed in it.
    let chars: Vec<char> = source.chars().collect();
    let mut out = String::new();
    let mut i = 0;
    while i < chars.len() {
        let c = chars[i];
        if c == '/' && i + 1 < chars.len() && chars[i + 1] == '/' {
            while i < chars.len() && chars[i] != '\n' {
                i += 1;
            }
        } else if c == '/' && i + 1 < chars.len() && chars[i + 1] == '*' {
            i += 2;
            while !(chars[i] == '*' && chars[i + 1] == '/') {
                i += 1;
            }
            i += 2;
        } else if c == ' ' || c == '\t' || c == '\r' || c == '\n' {
            i += 1;
        } else {
            out.push(c);
            i += 1;
        }
    }
    out
}

#[test]
fn the_lexemes_are_the_source_without_blanks_and_comments() {
    for source in [
        "var a = 1;\n// note\nprint a + 2.5; /* two\nlines */ fn f(x) { return x <= 3 or !x; }",
        "class A < B { init() { this.x = \"s\"; super.init(); } }",
        "",
        "   \n\t ",
        "a/b//c\n/d",
        "x/**/y/***/z",
    ] {
        let (tokens, errors) = scan(source);
        assert!(errors.is_empty());
        let joined: String = tokens.iter().map(|t| t.lexeme.as_str()).collect();
        assert_eq!(joined, strip(source));
    }
}

#[test]
fn a_token_is_described() {
    let token = Token::new(TokenType::Identifier, "abc".to_string(), Literal::Nil, 12);
    assert_eq!(
        token.describe(),
        "Token( type: Identifier, lexeme: \"abc\", literal: \"None\", line: 12 )"
    );
    let token = Token::new(
        TokenType::String,
        "\"s\"".to_string(),
        Literal::String("s".to_string()),
        3,
    );
    assert_eq!(
        token.describe(),
        "Token( type: String, lexeme: \"\"s\"\", literal: \"String\", line: 3 )"
    );
    assert_eq!(TokenType::LeftParen.name(), "LeftParen");
    assert_eq!(TokenType::Eof.name(), "Eof");
    assert_eq!(Literal::Number("1".to_string()).name(), "Number");
    assert_eq!(Literal::Boolean(true).name(), "Boolean");
    let copy = token.clone();
    assert_eq!(copy, token);
}
