use crate::ast::Ast;
use crate::callable::{LoxCallable, NativeFunction};
use crate::error::{
    decimal, decimal_text, scan_message, scan_text, static_message, static_text, syntax_message,
    syntax_text, LoxError,
};
use crate::expr::Span;
use crate::frame::Frame;
use crate::grammar::{spec_program, PState, ParseDiagnostic};
use crate::interpreter::{Interpreter, Machine};
use crate::object::Object;
use crate::parser::Parser;
use crate::resolver::Resolver;
use crate::scanner::{
    errors_from, is_eof_token, lexemes_from, tokens_match, ScanDiagnostic, Scanner,
};
use crate::scopes::{
    spec_resolve_program, ClassType, FunctionType, RState, Resolution, ResolveDiagnostic,
};
use crate::token::{Token, TokenType};
use vstd::prelude::*;
use vstd::string::*;

verus! {

/// The interpreter with its error flags: what a session of the language
/// holds from one program to the next.
pub struct Lox {
    pub interpreter: Interpreter,
    pub had_error: bool,
    pub had_runtime_error: bool,
}

/// A line for the error sink about a parse or static error: the line
/// number, where on the line, and the message.
pub open spec fn report_text(line: nat, loc: Seq<char>, message: Seq<char>) -> Seq<char> {
    "[line "@ + decimal_text(line) + "] Error "@ + loc + ": "@ + message
}

/// Where an error at the token `token` is: at the end, or at the token's
/// text.
pub open spec fn place_text(token: Token) -> Seq<char> {
    if token.token_type == TokenType::Eof {
        "at end"@
    } else {
        "at '"@ + token.lexeme@ + "'"@
    }
}

/// A line for the error sink about an error at the token `token`.
pub open spec fn parse_error_text(token: Token, message: Seq<char>) -> Seq<char> {
    report_text(token.line as nat, place_text(token), message)
}

/// What the error sink gets for a runtime error: the message, and the line
/// of the token below it if there is a token.
pub open spec fn runtime_error_text(message: Seq<char>, token: Option<Token>) -> Seq<char> {
    match token {
        Some(token) => message + "\n[line "@ + decimal_text(token.line as nat) + "]"@,
        None => message,
    }
}

/// The texts of lines.
pub open spec fn texts(lines: Seq<String>) -> Seq<Seq<char>> {
    Seq::new(lines.len(), |i: int| lines[i]@)
}

/// The lines for the scanning errors `errors`.
pub open spec fn scan_lines(errors: Seq<ScanDiagnostic>) -> Seq<Seq<char>> {
    Seq::new(
        errors.len(),
        |i: int| report_text(errors[i].line as nat, ""@, scan_text(errors[i].kind)),
    )
}

/// The lines for the syntax errors `errors`.
pub open spec fn syntax_lines(tokens: Seq<Token>, errors: Seq<ParseDiagnostic>) -> Seq<Seq<char>> {
    Seq::new(
        errors.len(),
        |i: int| parse_error_text(tokens[errors[i].token as int], syntax_text(errors[i].kind)),
    )
}

/// The lines for the static errors `errors`.
pub open spec fn static_lines(tokens: Seq<Token>, errors: Seq<ResolveDiagnostic>) -> Seq<
    Seq<char>,
> {
    Seq::new(
        errors.len(),
        |i: int| parse_error_text(tokens[errors[i].token as int], static_text(errors[i].kind)),
    )
}

/// The depth of the expression `expr` after the first `upto` of
/// `resolutions` were recorded over the depth `base`.
pub open spec fn depth_after(
    base: Option<usize>,
    resolutions: Seq<Resolution>,
    upto: int,
    expr: usize,
) -> Option<usize>
    decreases upto,
{
    if upto <= 0 {
        base
    } else if resolutions[upto - 1].expr == expr {
        Some(resolutions[upto - 1].depth)
    } else {
        depth_after(base, resolutions, upto - 1, expr)
    }
}

/// Where the resolver starts: at top level, with nothing recorded.
pub open spec fn resolver_start() -> RState {
    RState {
        scopes: Seq::empty(),
        current_function: FunctionType::Outside,
        current_class: ClassType::Outside,
        resolutions: Seq::empty(),
        errors: Seq::empty(),
    }
}

impl Lox {
    /// A session with a new interpreter and no error.
    pub fn new() -> (r: Self)
        ensures
            r.interpreter@.wf(),
            r.interpreter@.frames.len() == 0,
            r.interpreter@.value is None,
            r.interpreter@.pending is None,
            r.interpreter@.locals.len() == 0,
            r.interpreter@.environment == r.interpreter@.globals,
            r.interpreter@.heap.environments@.len() == 1,
            r.interpreter@.heap.environments@[0].enclosing is None,
            r.interpreter@.heap.environments@[0].values@ == Map::<Seq<char>, Object>::empty()
                .insert(
                "clock"@,
                Object::Callable(LoxCallable::Native { arity: 0, function: NativeFunction::Clock }),
            ),
            r.interpreter@.heap.classes@.len() == 0,
            r.interpreter@.heap.instances@.len() == 0,
            r.interpreter@.heap.ast.tokens@.len() == 0,
            r.interpreter@.heap.ast.exprs@.len() == 0,
            r.interpreter@.heap.ast.stmts@.len() == 0,
            !r.had_error,
            !r.had_runtime_error,
    {
        Lox { interpreter: Interpreter::new(), had_error: false, had_runtime_error: false }
    }

    /// The line for a parse or static error, which is flagged.
    pub fn report(&mut self, line: usize, loc: &str, message: &str) -> (r: String)
        ensures
            r@ == report_text(line as nat, loc@, message@),
            final(self).had_error,
            final(self).interpreter == old(self).interpreter,
            final(self).had_runtime_error == old(self).had_runtime_error,
    {
        self.had_error = true;
        String::from_str("[line ").concat(decimal(line).as_str()).concat("] Error ").concat(
            loc,
        ).concat(": ").concat(message)
    }

    /// The line for an error that has a line and no token.
    pub fn error(&mut self, line: usize, message: &str) -> (r: String)
        ensures
            r@ == report_text(line as nat, ""@, message@),
            final(self).had_error,
            final(self).interpreter == old(self).interpreter,
            final(self).had_runtime_error == old(self).had_runtime_error,
    {
        self.report(line, "", message)
    }

    /// The line for an error at the token `token`.
    pub fn parse_error(&mut self, token: &Token, message: &str) -> (r: String)
        ensures
            r@ == parse_error_text(*token, message@),
            final(self).had_error,
            final(self).interpreter == old(self).interpreter,
            final(self).had_runtime_error == old(self).had_runtime_error,
    {
        match token.token_type {
            TokenType::Eof => self.report(token.line, "at end", message),
            _ => {
                let loc: String = String::from_str("at '").concat(token.lexeme.as_str()).concat(
                    "'",
                );
                self.report(token.line, loc.as_str(), message)
            },
        }
    }

    /// What the error sink gets for the runtime error `error`, which is
    /// flagged.
    pub fn runtime_error(&mut self, error: LoxError) -> (r: String)
        requires
            error is RuntimeError,
        ensures
            error matches LoxError::RuntimeError { message, token } && r@ == runtime_error_text(
                message@,
                token,
            ),
            final(self).had_runtime_error,
            final(self).interpreter == old(self).interpreter,
            final(self).had_error == old(self).had_error,
    {
        self.had_runtime_error = true;
        match error {
            LoxError::RuntimeError { message, token } => match token {
                Some(token) => message.concat("\n[line ").concat(
                    decimal(token.line).as_str(),
                ).concat("]"),
                None => message,
            },
            LoxError::ParseError => String::new(),
        }
    }

    /// Appends the lines for the scanning errors `errors`.
    fn report_scan_errors(&mut self, errors: &Vec<ScanDiagnostic>, lines: &mut Vec<String>)
        ensures
            texts(final(lines)@) == texts(old(lines)@) + scan_lines(errors@),
            final(self).had_error == (old(self).had_error || errors@.len() > 0),
            final(self).interpreter == old(self).interpreter,
            final(self).had_runtime_error == old(self).had_runtime_error,
    {
        let mut i: usize = 0;
        assert(texts(lines@) =~= texts(old(lines)@) + scan_lines(errors@).subrange(0, 0));
        while i < errors.len()
            invariant
                i <= errors@.len(),
                texts(lines@) == texts(old(lines)@) + scan_lines(errors@).subrange(0, i as int),
                self.had_error == (old(self).had_error || i > 0),
                self.interpreter == old(self).interpreter,
                self.had_runtime_error == old(self).had_runtime_error,
            decreases errors@.len() - i,
        {
            let ghost before = lines@;
            let line: String = self.error(errors[i].line, scan_message(errors[i].kind));
            lines.push(line);
            proof {
                assert(texts(lines@) =~= texts(before).push(line@));
                assert(scan_lines(errors@).subrange(0, i + 1) =~= scan_lines(errors@).subrange(
                    0,
                    i as int,
                ).push(line@));
                assert(texts(lines@) =~= texts(old(lines)@) + scan_lines(errors@).subrange(
                    0,
                    i + 1,
                ));
            }
            i += 1;
        }
        assert(scan_lines(errors@).subrange(0, errors@.len() as int) =~= scan_lines(errors@));
    }

    /// Appends the lines for the syntax errors `errors`.
    fn report_syntax_errors(
        &mut self,
        tokens: &Vec<Token>,
        errors: &Vec<ParseDiagnostic>,
        lines: &mut Vec<String>,
    )
        requires
            forall|i: int|
                0 <= i < errors@.len() ==> (#[trigger] errors@[i]).token < tokens@.len(),
        ensures
            texts(final(lines)@) == texts(old(lines)@) + syntax_lines(tokens@, errors@),
            final(self).had_error == (old(self).had_error || errors@.len() > 0),
            final(self).interpreter == old(self).interpreter,
            final(self).had_runtime_error == old(self).had_runtime_error,
    {
        let mut i: usize = 0;
        let ghost all = syntax_lines(tokens@, errors@);
        assert(texts(lines@) =~= texts(old(lines)@) + all.subrange(0, 0));
        while i < errors.len()
            invariant
                i <= errors@.len(),
                all == syntax_lines(tokens@, errors@),
                forall|i: int|
                    0 <= i < errors@.len() ==> (#[trigger] errors@[i]).token < tokens@.len(),
                texts(lines@) == texts(old(lines)@) + all.subrange(0, i as int),
                self.had_error == (old(self).had_error || i > 0),
                self.interpreter == old(self).interpreter,
                self.had_runtime_error == old(self).had_runtime_error,
            decreases errors@.len() - i,
        {
            let ghost before = lines@;
            let line: String = self.parse_error(
                &tokens[errors[i].token],
                syntax_message(errors[i].kind),
            );
            lines.push(line);
            proof {
                assert(texts(lines@) =~= texts(before).push(line@));
                assert(all.subrange(0, i + 1) =~= all.subrange(0, i as int).push(line@));
                assert(texts(lines@) =~= texts(old(lines)@) + all.subrange(0, i + 1));
            }
            i += 1;
        }
        assert(all.subrange(0, errors@.len() as int) =~= all);
    }

    /// Appends the lines for the static errors `errors`.
    fn report_static_errors(
        &mut self,
        tokens: &Vec<Token>,
        errors: &Vec<ResolveDiagnostic>,
        lines: &mut Vec<String>,
    )
        requires
            forall|i: int|
                0 <= i < errors@.len() ==> (#[trigger] errors@[i]).token < tokens@.len(),
        ensures
            texts(final(lines)@) == texts(old(lines)@) + static_lines(tokens@, errors@),
            final(self).had_error == (old(self).had_error || errors@.len() > 0),
            final(self).interpreter == old(self).interpreter,
            final(self).had_runtime_error == old(self).had_runtime_error,
    {
        let mut i: usize = 0;
        let ghost all = static_lines(tokens@, errors@);
        assert(texts(lines@) =~= texts(old(lines)@) + all.subrange(0, 0));
        while i < errors.len()
            invariant
                i <= errors@.len(),
                all == static_lines(tokens@, errors@),
                forall|i: int|
                    0 <= i < errors@.len() ==> (#[trigger] errors@[i]).token < tokens@.len(),
                texts(lines@) == texts(old(lines)@) + all.subrange(0, i as int),
                self.had_error == (old(self).had_error || i > 0),
                self.interpreter == old(self).interpreter,
                self.had_runtime_error == old(self).had_runtime_error,
            decreases errors@.len() - i,
        {
            let ghost before = lines@;
            let line: String = self.parse_error(
                &tokens[errors[i].token],
                static_message(errors[i].kind),
            );
            lines.push(line);
            proof {
                assert(texts(lines@) =~= texts(before).push(line@));
                assert(all.subrange(0, i + 1) =~= all.subrange(0, i as int).push(line@));
                assert(texts(lines@) =~= texts(old(lines)@) + all.subrange(0, i + 1));
            }
            i += 1;
        }
        assert(all.subrange(0, errors@.len() as int) =~= all);
    }
}

/// `tokens` are the tokens of `source`, closed by an end-of-file token.
pub open spec fn scanned(source: Seq<char>, tokens: Seq<Token>) -> bool {
    let lexemes = lexemes_from(source, 0);
    &&& tokens.len() == lexemes.len() + 1
    &&& tokens_match(tokens.subrange(0, lexemes.len() as int), source, lexemes)
    &&& is_eof_token(tokens.last(), source)
}

/// Where the parser starts on tokens appended to the tree `ast`.
pub open spec fn parser_start(ast: &Ast) -> PState {
    PState {
        current: ast.tokens@.len() as int,
        exprs: ast.exprs@,
        stmts: ast.stmts@,
        lists: ast.lists@,
        errors: Seq::empty(),
    }
}

/// The tree `ast` is `earlier` with the tokens `tokens` appended and parsed
/// as a program: it holds the nodes that the parser made, and behind the
/// parser's lists the list of the statements `statements` that parsed;
/// `errors` are the syntax errors.
pub open spec fn parsed(
    earlier: &Ast,
    tokens: Seq<Token>,
    ast: &Ast,
    statements: Seq<usize>,
    errors: Seq<ParseDiagnostic>,
) -> bool {
    let outcome = spec_program(ast.kinds(), parser_start(earlier), Seq::empty());
    &&& ast.tokens@ == earlier.tokens@ + tokens
    &&& outcome.result == Some(statements)
    &&& ast.exprs@ == outcome.state.exprs
    &&& ast.stmts@ == outcome.state.stmts
    &&& ast.lists@ == outcome.state.lists + statements
    &&& errors == outcome.state.errors
}

/// The run of the program's statements in the list table of the tree.
pub open spec fn program_span(ast: &Ast, statements: Seq<usize>) -> Span {
    Span { start: (ast.lists@.len() - statements.len()) as usize, len: statements.len() as usize }
}

/// What running a source does to a session. The source is scanned and its
/// tokens, closed by an end-of-file token, are appended to those of the
/// tree; they are parsed, which appends the nodes, and the statements that
/// parsed are appended as a list. If an error is flagged by then, the lines
/// are those of the scanning and syntax errors, and the interpreter goes on
/// as it was. If not, the statements are resolved; if that finds errors, the
/// lines are theirs. If not, there are no lines, the depths that the
/// resolver found are recorded, and the interpreter starts the program.
pub open spec fn loaded(pre: Lox, source: Seq<char>, post: Lox, lines: Seq<String>) -> bool {
    let earlier = &pre.interpreter.heap.ast;
    let ast = &post.interpreter.heap.ast;
    let tokens = ast.tokens@.subrange(earlier.tokens@.len() as int, ast.tokens@.len() as int);
    let outcome = spec_program(ast.kinds(), parser_start(earlier), Seq::empty());
    let statements = outcome.result.unwrap();
    let scan_errors = errors_from(source, 0);
    let resolved = spec_resolve_program(ast, resolver_start(), statements, 0);
    let heap = post.interpreter.heap;
    &&& scanned(source, tokens)
    &&& parsed(earlier, tokens, ast, statements, outcome.state.errors)
    &&& heap.environments == pre.interpreter.heap.environments
    &&& heap.classes == pre.interpreter.heap.classes
    &&& heap.instances == pre.interpreter.heap.instances
    &&& post.had_runtime_error == pre.had_runtime_error
    &&& if pre.had_error || scan_errors.len() + outcome.state.errors.len() > 0 {
        &&& texts(lines) == scan_lines(scan_errors) + syntax_lines(
            ast.tokens@,
            outcome.state.errors,
        )
        &&& post.had_error
        &&& post.interpreter@ == pre.interpreter@.on(heap)
    } else if resolved.errors.len() > 0 {
        &&& texts(lines) == static_lines(ast.tokens@, resolved.errors)
        &&& post.had_error
        &&& post.interpreter@ == pre.interpreter@.on(heap)
    } else {
        &&& lines.len() == 0
        &&& !post.had_error
        &&& post.interpreter@ == (Machine {
            locals: post.interpreter@.locals,
            ..pre.interpreter@.on(heap).abort().push(
                Frame::ExecList { span: program_span(ast, statements), next: 0 },
            )
        })
        &&& forall|e: usize|
            post.interpreter@.depth(e) == depth_after(
                pre.interpreter@.depth(e),
                resolved.resolutions,
                resolved.resolutions.len() as int,
                e,
            )
    }
}

/// A copy of a list of indices.
fn copy_list(list: &Vec<usize>) -> (r: Vec<usize>)
    ensures
        r@ == list@,
{
    let mut r: Vec<usize> = Vec::new();
    let mut i: usize = 0;
    while i < list.len()
        invariant
            i <= list@.len(),
            r@ == list@.subrange(0, i as int),
        decreases list@.len() - i,
    {
        r.push(list[i]);
        assert(r@ =~= list@.subrange(0, i + 1));
        i += 1;
    }
    assert(list@.subrange(0, list@.len() as int) =~= list@);
    r
}

impl Lox {
    /// Records the depths `resolutions` in the interpreter, in order.
    fn record(&mut self, resolutions: &Vec<Resolution>)
        requires
            forall|i: int|
                0 <= i < resolutions@.len() ==> (#[trigger] resolutions@[i]).expr < old(
                    self,
                ).interpreter.heap.ast.exprs@.len(),
        ensures
            final(self).interpreter@ == (Machine {
                locals: final(self).interpreter@.locals,
                ..old(self).interpreter@
            }),
            final(self).had_error == old(self).had_error,
            final(self).had_runtime_error == old(self).had_runtime_error,
            forall|e: usize|
                final(self).interpreter@.depth(e) == depth_after(
                    old(self).interpreter@.depth(e),
                    resolutions@,
                    resolutions@.len() as int,
                    e,
                ),
    {
        let mut i: usize = 0;
        while i < resolutions.len()
            invariant
                i <= resolutions@.len(),
                forall|i: int|
                    0 <= i < resolutions@.len() ==> (#[trigger] resolutions@[i]).expr < old(
                        self,
                    ).interpreter.heap.ast.exprs@.len(),
                self.interpreter@ == (Machine {
                    locals: self.interpreter@.locals,
                    ..old(self).interpreter@
                }),
                self.had_error == old(self).had_error,
                self.had_runtime_error == old(self).had_runtime_error,
                forall|e: usize|
                    self.interpreter@.depth(e) == depth_after(
                        old(self).interpreter@.depth(e),
                        resolutions@,
                        i as int,
                        e,
                    ),
            decreases resolutions@.len() - i,
        {
            self.interpreter.resolve(resolutions[i].expr, resolutions[i].depth);
            i += 1;
        }
    }

    /// Scans `source`.
    fn scan(source: String) -> (r: (Vec<Token>, Vec<ScanDiagnostic>))
        requires
            source@.len() < usize::MAX,
        ensures
            scanned(source@, r.0@),
            r.1@ == errors_from(source@, 0),
    {
        let mut scanner: Scanner = Scanner::new(source);
        scanner.scan_tokens();
        let Scanner { source, tokens, errors, start, current, line, length } = scanner;
        proof {
            assert(tokens@.subrange(0, 0) =~= Seq::<Token>::empty());
            assert(errors@ =~= errors_from(source@, 0));
        }
        (tokens, errors)
    }

    /// Parses `tokens` as a program onto the tree `ast`.
    fn parse(ast: Ast, tokens: Vec<Token>) -> (r: (Ast, Vec<usize>, Vec<ParseDiagnostic>))
        requires
            ast.wf(),
            tokens@.len() > 0,
            tokens@.last().token_type == TokenType::Eof,
        ensures
            parsed(&ast, tokens@, &r.0, r.1@, r.2@),
            r.0.wf(),
            r.0.extends(&ast),
            forall|i: int| 0 <= i < r.1@.len() ==> #[trigger] r.1@[i] < r.0.stmts@.len(),
            forall|i: int| 0 <= i < r.2@.len() ==> (#[trigger] r.2@[i]).token < r.0.tokens@.len(),
            crate::ast::span_below(
                r.0.lists@,
                program_span(&r.0, r.1@),
                r.0.stmts@.len() as int,
            ),
    {
        let mut parser: Parser = Parser::resume(ast, tokens);
        let ghost resumed = parser;
        let statements: Vec<usize> = parser.parse();
        let Parser { ast: grown, current, errors } = parser;
        let mut grown: Ast = grown;
        let mut program: Vec<usize> = copy_list(&statements);
        let ghost bound = grown.stmts@.len() as int;
        let ghost before = grown;
        let count: usize = grown.lists.len();
        let span: Span = grown.add_list(&mut program, Ghost(bound));
        proof {
            assert(resumed.ast.extends(&ast));
            assert(before.extends(&resumed.ast));
            assert(grown.extends(&before));
            assert(grown.kinds() =~= before.kinds());
            assert(before.kinds() =~= resumed.ast.kinds());
            assert(resumed.errors@ =~= Seq::<ParseDiagnostic>::empty());
            assert(resumed.state() == parser_start(&ast));
            assert(span == program_span(&grown, statements@));
        }
        (grown, statements, errors)
    }

    /// Loads the program `source`: scans, parses and resolves it, and starts
    /// it if no error is flagged. Gives the lines for the error sink.
    pub fn run(&mut self, source: String) -> (lines: Vec<String>)
        requires
            old(self).interpreter@.wf(),
            source@.len() < usize::MAX,
        ensures
            final(self).interpreter@.wf(),
            loaded(*old(self), source@, *final(self), lines@),
    {
        let mut lines: Vec<String> = Vec::new();
        let scan = Lox::scan(source);
        let tokens: Vec<Token> = scan.0;
        let scan_errors: Vec<ScanDiagnostic> = scan.1;
        self.report_scan_errors(&scan_errors, &mut lines);
        assert(texts(lines@) =~= scan_lines(scan_errors@));

        let ghost earlier = self.interpreter.heap;
        let ghost before = self.interpreter@;
        let ghost scanned_tokens = tokens@;
        let mut ast: Ast = Ast::new();
        core::mem::swap(&mut self.interpreter.heap.ast, &mut ast);
        proof {
            earlier.lemma_ast();
        }
        let parse = Lox::parse(ast, tokens);
        let ast: Ast = parse.0;
        let statements: Vec<usize> = parse.1;
        let errors: Vec<ParseDiagnostic> = parse.2;
        self.report_syntax_errors(&ast.tokens, &errors, &mut lines);

        let mut resolver: Resolver = Resolver::new();
        proof {
            assert(resolver.state().scopes =~= Seq::empty());
            assert(resolver.state().resolutions =~= Seq::empty());
            assert(resolver.state().errors =~= Seq::empty());
            assert(resolver.state() == resolver_start());
        }
        let ghost reported = lines@;
        if !self.had_error {
            resolver.resolve_stmt_list(&ast, &statements);
            self.report_static_errors(&ast.tokens, &resolver.errors, &mut lines);
        }
        assert(self.had_error || resolver.state().within(&ast));
        let start: usize = ast.lists.len() - statements.len();
        let program = Span { start, len: statements.len() };
        self.interpreter.heap.ast = ast;
        proof {
            self.interpreter.heap.lemma_grown_wf(&earlier);
            before.lemma_wf_on(self.interpreter.heap);
            let first = earlier.ast.tokens@.len() as int;
            assert(self.interpreter.heap.ast.tokens@.subrange(
                first,
                self.interpreter.heap.ast.tokens@.len() as int,
            ) =~= scanned_tokens);
            if !(old(self).had_error || scan_errors@.len() + errors@.len() > 0) {
                assert(scan_lines(scan_errors@) =~= Seq::<Seq<char>>::empty());
                assert(syntax_lines(self.interpreter.heap.ast.tokens@, errors@) =~= Seq::<
                    Seq<char>,
                >::empty());
                assert(texts(reported) =~= Seq::<Seq<char>>::empty());
                assert(texts(lines@) =~= static_lines(
                    self.interpreter.heap.ast.tokens@,
                    resolver.errors@,
                ));
            }
        }
        if self.had_error {
            return lines;
        }
        proof {
            assert(static_lines(self.interpreter.heap.ast.tokens@, resolver.errors@).len() == 0);
            assert(texts(lines@).len() == 0);
        }
        let ghost loaded_heap = self.interpreter.heap;
        let ghost loaded_machine = self.interpreter@;
        proof {
            assert(resolver.state().within(&self.interpreter.heap.ast));
            assert forall|i: int| 0 <= i < resolver.resolutions@.len() implies (
            #[trigger] resolver.resolutions@[i]).expr
                < self.interpreter.heap.ast.exprs@.len() by {
                assert(resolver.state().resolutions[i] == resolver.resolutions@[i]);
            }
        }
        self.record(&resolver.resolutions);
        let ghost recorded = self.interpreter@;
        self.interpreter.start(program);
        proof {
            let pre = *old(self);
            let post = *self;
            let ast = &post.interpreter.heap.ast;
            let outcome = spec_program(
                ast.kinds(),
                parser_start(&pre.interpreter.heap.ast),
                Seq::empty(),
            );
            assert(outcome.result.unwrap() == statements@);
            let resolved = spec_resolve_program(ast, resolver_start(), statements@, 0);
            assert(resolved == resolver.state());
            assert(lines@.len() == 0);
            assert(post.interpreter.heap == loaded_heap);
            assert(program == program_span(ast, statements@));
            assert(post.interpreter@ == (Machine {
                locals: post.interpreter@.locals,
                ..pre.interpreter@.on(post.interpreter.heap).abort().push(
                    Frame::ExecList { span: program_span(ast, statements@), next: 0 },
                )
            }));
            assert forall|e: usize|
                post.interpreter@.depth(e) == depth_after(
                    pre.interpreter@.depth(e),
                    resolved.resolutions,
                    resolved.resolutions.len() as int,
                    e,
                ) by {
                assert(post.interpreter@.depth(e) == recorded.depth(e));
                assert(loaded_machine.depth(e) == pre.interpreter@.depth(e));
                assert(recorded.depth(e) == depth_after(
                    loaded_machine.depth(e),
                    resolver.resolutions@,
                    resolver.resolutions@.len() as int,
                    e,
                ));
            }
        }
        lines
    }
}

} // verus!
