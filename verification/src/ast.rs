use crate::expr::{Constant, Expr, Span};
use crate::stmt::Stmt;
use crate::token::{Literal, Token, TokenType};
use vstd::prelude::*;
use vstd::string::*;

verus! {

/// A syntax tree, flattened: the tokens it was parsed from, its expression
/// and statement nodes, and the lists that nodes refer to. A node refers
/// only to nodes that were made before it, so the tables never hold a cycle.
pub struct Ast {
    pub tokens: Vec<Token>,
    pub exprs: Vec<Expr>,
    pub stmts: Vec<Stmt>,
    pub lists: Vec<usize>,
}

/// The run `span` lies in a list table of `lists` entries.
pub open spec fn span_fits(span: Span, lists: int) -> bool {
    span.start + span.len <= lists
}

/// Every entry of the run `span` is below `bound`.
pub open spec fn span_below(lists: Seq<usize>, span: Span, bound: int) -> bool {
    &&& span_fits(span, lists.len() as int)
    &&& forall|i: int| span.start <= i < span.start + span.len ==> #[trigger] lists[i] < bound
}

/// The expression node `e`, standing at index `id`, names only tokens that
/// exist and expressions before it.
pub open spec fn expr_fits(e: Expr, id: int, tokens: int, lists: Seq<usize>) -> bool {
    match e {
        Expr::Assign { name, value } => name < tokens && value < id,
        Expr::Binary { left, operator, right } => left < id && operator < tokens && right < id,
        Expr::Call { callee, paren, arguments } => callee < id && paren < tokens && span_below(
            lists,
            arguments,
            id,
        ),
        Expr::Get { object, name } => object < id && name < tokens,
        Expr::Grouping { expression } => expression < id,
        Expr::Literal { value } => match value {
            Constant::OfToken(token) => token < tokens,
            _ => true,
        },
        Expr::Logical { left, operator, right } => left < id && operator < tokens && right < id,
        Expr::SetProperty { object, name, value } => object < id && name < tokens && value < id,
        Expr::Super { keyword, method } => keyword < tokens && method < tokens,
        Expr::This { keyword } => keyword < tokens,
        Expr::Unary { operator, right } => operator < tokens && right < id,
        Expr::Variable { name } => name < tokens,
    }
}

/// `id` is below `bound` if it is there at all.
pub open spec fn option_below(id: Option<usize>, bound: int) -> bool {
    match id {
        Some(id) => id < bound,
        None => true,
    }
}

/// The statement node `s`, standing at index `id`, names only tokens and
/// expressions that exist and statements before it.
pub open spec fn stmt_fits(s: Stmt, id: int, tokens: int, exprs: int, lists: Seq<usize>) -> bool {
    match s {
        Stmt::Block { statements } => span_below(lists, statements, id),
        Stmt::Class { name, superclass, methods } => name < tokens && option_below(
            superclass,
            exprs,
        ) && span_below(lists, methods, id),
        Stmt::Expression { expression } => expression < exprs,
        Stmt::Function { name, params, body } => name < tokens && span_below(
            lists,
            params,
            tokens,
        ) && span_below(lists, body, id),
        Stmt::If { condition, then_branch, else_branch } => condition < exprs && then_branch < id
            && option_below(else_branch, id),
        Stmt::Print { expression } => expression < exprs,
        Stmt::Return { keyword, value } => keyword < tokens && option_below(value, exprs),
        Stmt::Var { name, initializer } => name < tokens && option_below(initializer, exprs),
        Stmt::While { condition, body } => condition < exprs && body < id,
    }
}

impl Ast {
    /// Every node names only what exists, and only nodes before itself.
    #[verifier::opaque]
    pub open spec fn wf(&self) -> bool {
        &&& forall|i: int|
            0 <= i < self.exprs@.len() ==> expr_fits(
                #[trigger] self.exprs@[i],
                i,
                self.tokens@.len() as int,
                self.lists@,
            )
        &&& forall|i: int|
            0 <= i < self.stmts@.len() ==> stmt_fits(
                #[trigger] self.stmts@[i],
                i,
                self.tokens@.len() as int,
                self.exprs@.len() as int,
                self.lists@,
            )
    }

    /// The tree holds all that `earlier` holds, at the same places, and maybe
    /// more behind it.
    pub open spec fn extends(&self, earlier: &Ast) -> bool {
        &&& earlier.tokens@.is_prefix_of(self.tokens@)
        &&& earlier.exprs@.is_prefix_of(self.exprs@)
        &&& earlier.stmts@.is_prefix_of(self.stmts@)
        &&& earlier.lists@.is_prefix_of(self.lists@)
    }

    /// The kinds of the tokens, in order.
    pub open spec fn kinds(&self) -> Seq<TokenType> {
        Seq::new(self.tokens@.len(), |i: int| self.tokens@[i].token_type)
    }

    /// The text of a token.
    pub open spec fn text(&self, token: usize) -> Seq<char> {
        self.tokens@[token as int].lexeme@
    }

    /// A tree with no tokens and no nodes.
    pub fn new() -> (r: Ast)
        ensures
            r.wf(),
            r.tokens@.len() == 0,
            r.exprs@.len() == 0,
            r.stmts@.len() == 0,
            r.lists@.len() == 0,
    {
        reveal(Ast::wf);
        Ast { tokens: Vec::new(), exprs: Vec::new(), stmts: Vec::new(), lists: Vec::new() }
    }

    /// What a well-formed tree says of one expression node.
    pub proof fn lemma_expr_fits(&self, id: int)
        requires
            self.wf(),
            0 <= id < self.exprs@.len(),
        ensures
            expr_fits(self.exprs@[id], id, self.tokens@.len() as int, self.lists@),
    {
        reveal(Ast::wf);
    }

    /// What a well-formed tree says of one statement node.
    pub proof fn lemma_stmt_fits(&self, id: int)
        requires
            self.wf(),
            0 <= id < self.stmts@.len(),
        ensures
            stmt_fits(
                self.stmts@[id],
                id,
                self.tokens@.len() as int,
                self.exprs@.len() as int,
                self.lists@,
            ),
    {
        reveal(Ast::wf);
    }

    /// The `i`-th entry of the run `span`.
    pub fn list_entry(&self, span: Span, i: usize) -> (r: usize)
        requires
            span_fits(span, self.lists@.len() as int),
            i < span.len,
        ensures
            r == self.lists@[span.start + i],
    {
        let count: usize = self.lists.len();
        self.lists[span.start + i]
    }

    /// Appends tokens, and says where the first of them stands.
    pub fn add_tokens(&mut self, tokens: &mut Vec<Token>) -> (start: usize)
        requires
            old(self).wf(),
        ensures
            final(self).wf(),
            final(self).tokens@ == old(self).tokens@ + old(tokens)@,
            final(self).exprs == old(self).exprs,
            final(self).stmts == old(self).stmts,
            final(self).lists == old(self).lists,
            start == old(self).tokens@.len(),
    {
        reveal(Ast::wf);
        let start: usize = self.tokens.len();
        self.tokens.append(tokens);
        start
    }

    /// Appends an expression node and gives its index.
    pub fn add_expr(&mut self, e: Expr) -> (id: usize)
        requires
            old(self).wf(),
            expr_fits(
                e,
                old(self).exprs@.len() as int,
                old(self).tokens@.len() as int,
                old(self).lists@,
            ),
        ensures
            final(self).wf(),
            final(self).exprs@ == old(self).exprs@.push(e),
            final(self).tokens == old(self).tokens,
            final(self).stmts == old(self).stmts,
            final(self).lists == old(self).lists,
            id == old(self).exprs@.len(),
    {
        reveal(Ast::wf);
        let id: usize = self.exprs.len();
        self.exprs.push(e);
        id
    }

    /// Appends a statement node and gives its index.
    pub fn add_stmt(&mut self, s: Stmt) -> (id: usize)
        requires
            old(self).wf(),
            stmt_fits(
                s,
                old(self).stmts@.len() as int,
                old(self).tokens@.len() as int,
                old(self).exprs@.len() as int,
                old(self).lists@,
            ),
        ensures
            final(self).wf(),
            final(self).stmts@ == old(self).stmts@.push(s),
            final(self).tokens == old(self).tokens,
            final(self).exprs == old(self).exprs,
            final(self).lists == old(self).lists,
            id == old(self).stmts@.len(),
    {
        reveal(Ast::wf);
        let id: usize = self.stmts.len();
        self.stmts.push(s);
        id
    }

    /// Appends the entries of `items` to the list table and says where they
    /// stand.
    pub(crate) fn add_list(&mut self, items: &mut Vec<usize>, Ghost(bound): Ghost<int>) -> (span:
        Span)
        requires
            old(self).wf(),
            forall|i: int| 0 <= i < old(items)@.len() ==> #[trigger] old(items)@[i] < bound,
        ensures
            final(self).wf(),
            final(self).lists@ == old(self).lists@ + old(items)@,
            final(self).tokens == old(self).tokens,
            final(self).exprs == old(self).exprs,
            final(self).stmts == old(self).stmts,
            span.start == old(self).lists@.len(),
            span.len == old(items)@.len(),
            span_below(final(self).lists@, span, bound),
    {
        reveal(Ast::wf);
        let span = Span { start: self.lists.len(), len: items.len() };
        self.lists.append(items);
        span
    }
}

/// The text of a literal: `nil`, `true` or `false`, the text of a string,
/// the digits of a number.
pub open spec fn literal_text(ast: &Ast, value: Constant) -> Seq<char> {
    match value {
        Constant::Nil => "nil"@,
        Constant::Boolean(b) => if b {
            "true"@
        } else {
            "false"@
        },
        Constant::OfToken(token) => match ast.tokens@[token as int].literal {
            Literal::String(s) => s@,
            Literal::Number(s) => s@,
            Literal::Boolean(b) => if b {
                "true"@
            } else {
                "false"@
            },
            Literal::Nil => "nil"@,
        },
    }
}

/// `name` and the texts `parts` in parentheses, with blanks between them.
pub open spec fn parenthesized(name: Seq<char>, parts: Seq<String>) -> Seq<char> {
    "("@ + name + joined(parts, parts.len() as int) + ")"@
}

/// The first `upto` of the texts `parts`, each behind a blank.
pub open spec fn joined(parts: Seq<String>, upto: int) -> Seq<char>
    decreases upto,
{
    if upto <= 0 {
        Seq::empty()
    } else {
        joined(parts, upto - 1) + " "@ + parts[upto - 1]@
    }
}

/// The expression in prefix notation: a literal as its text, `(op left
/// right)` for a binary and `(op right)` for a unary expression, `(group
/// inner)` for a grouping, and nothing for any other expression.
pub open spec fn expr_text(ast: &Ast, id: usize) -> Seq<char>
    decreases id,
    when ast.wf() && id < ast.exprs@.len()
{
    proof {
        ast.lemma_expr_fits(id as int);
    }
    match ast.exprs@[id as int] {
        Expr::Literal { value } => literal_text(ast, value),
        Expr::Binary { left, operator, right } => "("@ + ast.text(operator) + " "@ + expr_text(
            ast,
            left,
        ) + " "@ + expr_text(ast, right) + ")"@,
        Expr::Grouping { expression } => "(group "@ + expr_text(ast, expression) + ")"@,
        Expr::Unary { operator, right } => "("@ + ast.text(operator) + " "@ + expr_text(
            ast,
            right,
        ) + ")"@,
        _ => Seq::empty(),
    }
}

/// The expression `expr` of the tree `ast` in prefix notation.
pub fn print(ast: &Ast, expr: usize) -> (r: String)
    requires
        ast.wf(),
        expr < ast.exprs@.len(),
    ensures
        r@ == expr_text(ast, expr),
{
    visit_expr(ast, expr)
}

fn visit_expr(ast: &Ast, expr: usize) -> (r: String)
    requires
        ast.wf(),
        expr < ast.exprs@.len(),
    ensures
        r@ == expr_text(ast, expr),
    decreases expr,
{
    proof {
        ast.lemma_expr_fits(expr as int);
    }
    match ast.exprs[expr] {
        Expr::Literal { value } => match value {
            Constant::Nil => String::from_str("nil"),
            Constant::Boolean(b) => if b {
                String::from_str("true")
            } else {
                String::from_str("false")
            },
            Constant::OfToken(token) => match &ast.tokens[token].literal {
                Literal::String(s) => s.clone(),
                Literal::Number(s) => s.clone(),
                Literal::Boolean(b) => if *b {
                    String::from_str("true")
                } else {
                    String::from_str("false")
                },
                Literal::Nil => String::from_str("nil"),
            },
        },
        Expr::Binary { left, operator, right } => {
            let mut parts: Vec<String> = Vec::new();
            parts.push(visit_expr(ast, left));
            parts.push(visit_expr(ast, right));
            let r = parenthesize(ast.tokens[operator].lexeme.as_str(), &parts);
            proof {
                reveal_with_fuel(joined, 3);
                assert(r@ =~= expr_text(ast, expr));
            }
            r
        },
        Expr::Grouping { expression } => {
            let mut parts: Vec<String> = Vec::new();
            parts.push(visit_expr(ast, expression));
            let r = parenthesize("group", &parts);
            proof {
                reveal_with_fuel(joined, 2);
                reveal_strlit("group");
                reveal_strlit("(group ");
                reveal_strlit("(");
                reveal_strlit(" ");
                assert(r@ =~= expr_text(ast, expr));
            }
            r
        },
        Expr::Unary { operator, right } => {
            let mut parts: Vec<String> = Vec::new();
            parts.push(visit_expr(ast, right));
            let r = parenthesize(ast.tokens[operator].lexeme.as_str(), &parts);
            proof {
                reveal_with_fuel(joined, 2);
                assert(r@ =~= expr_text(ast, expr));
            }
            r
        },
        _ => {
            let r = String::new();
            assert(r@ =~= expr_text(ast, expr));
            r
        },
    }
}

/// `name` and the texts `parts` in parentheses, with blanks between them.
pub fn parenthesize(name: &str, parts: &Vec<String>) -> (r: String)
    ensures
        r@ == parenthesized(name@, parts@),
{
    let mut res: String = String::from_str("(").concat(name);
    let mut i: usize = 0;
    while i < parts.len()
        invariant
            i <= parts@.len(),
            res@ == "("@ + name@ + joined(parts@, i as int),
        decreases parts@.len() - i,
    {
        res = res.concat(" ").concat(parts[i].as_str());
        assert(res@ =~= "("@ + name@ + joined(parts@, i + 1));
        i += 1;
    }
    res.concat(")")
}

} // verus!
