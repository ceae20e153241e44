//! The parser: tokens to a program tree, with the variables and labels
//! checked on the way.

use vstd::prelude::*;
pub use crate::grammar::ParseError;
use crate::ast::{
    all_well_formed, lemma_block_view, Comparison, Expression, Primary, PrintMessage, Statement,
    ExpressionView, StatementView, Term, TermComp, TermCompView, TermView, Unary,
};
use crate::grammar::{
    lemma_block_well_formed, lemma_comparison_advances, lemma_component_advances,
    lemma_statement_advances, lemma_term_advances, parse_block, parse_comparison,
    parse_component, parse_components, parse_expression, parse_guarded, parse_ident_statement,
    parse_let, parse_print, parse_program, parse_statement, parse_term, parse_terms,
    parse_unary, prepended, scope_after, token_at, Block, NameKeyword, Parsed, ScopeView, Step,
};
use crate::symbols::NameSet;
use crate::token::{Token, TokenView};

verus! {

/// Whether `result` is what the grammar says: the same error, or a value
/// with the view that the grammar gives.
spec fn agrees<T: View>(result: Result<T, ParseError>, value: Result<T::V, ParseError>) -> bool {
    match value {
        Ok(v) => result is Ok && result->Ok_0@ == v,
        Err(e) => result is Err && result->Err_0 == e,
    }
}

/// A cursor over a sequence of tokens.
struct TokenStream {
    tokens: Vec<Token>,
    pos: usize,
}

impl TokenStream {
    #[verifier::type_invariant]
    spec fn in_bounds(self) -> bool {
        self.pos <= self.tokens.len()
    }

    /// The whole sequence that the cursor runs over.
    spec fn source(&self) -> Seq<TokenView> {
        self.tokens.deep_view()
    }

    /// How many tokens have been taken.
    spec fn position(&self) -> int {
        self.pos as int
    }

    /// A cursor at the start of `tokens`.
    fn new(tokens: Vec<Token>) -> (stream: TokenStream)
        ensures
            stream.source() == tokens.deep_view(),
            stream.position() == 0,
    {
        TokenStream { tokens, pos: 0 }
    }

    /// The next token, if there is one, without taking it.
    fn peek(&self) -> (token: Option<&Token>)
        ensures
            0 <= self.position() <= self.source().len(),
            token.deep_view() == token_at(self.source(), self.position()),
    {
        proof {
            use_type_invariant(self);
        }
        if self.pos < self.tokens.len() {
            Some(&self.tokens[self.pos])
        } else {
            None
        }
    }

    /// Takes the next token, if there is one.
    fn advance(&mut self)
        ensures
            final(self).source() == old(self).source(),
            0 <= old(self).position() <= old(self).source().len(),
            final(self).position() == if old(self).position() < old(self).source().len() {
                old(self).position() + 1
            } else {
                old(self).position()
            },
    {
        proof {
            use_type_invariant(&*self);
        }
        if self.pos < self.tokens.len() {
            self.pos = self.pos + 1;
        }
    }
}

impl Unary {
    /// Reads a unary expression: an optional sign and a primary.
    fn build(symbols: &NameSet, tokens: &mut TokenStream) -> (result: Result<Unary, ParseError>)
        ensures
            final(tokens).source() == old(tokens).source(),
            final(tokens).position() == parse_unary(
                symbols@,
                old(tokens).source(),
                old(tokens).position(),
            ).next,
            agrees(
                result,
                parse_unary(symbols@, old(tokens).source(), old(tokens).position()).value,
            ),
    {
        let operator = match tokens.peek() {
            Some(Token::Add) => Some(Token::Add),
            Some(Token::Sub) => Some(Token::Sub),
            _ => None,
        };
        if operator.is_some() {
            tokens.advance();
        }
        let primary = match tokens.peek() {
            Some(Token::Float(text)) => Primary::Float(text.clone()),
            Some(Token::Int(value)) => Primary::Int(*value),
            Some(Token::Ident(name)) => {
                if symbols.contains(name.as_str()) {
                    Primary::Ident(name.clone())
                } else {
                    return Err(ParseError::UndeclaredIdentifier);
                }
            },
            _ => {
                return Err(ParseError::ExpectedPrimary);
            },
        };
        tokens.advance();
        Ok(Unary { operator, primary })
    }
}

/// `items` before what `rest` collected, or the error of `rest`.
spec fn after<T>(items: Seq<T>, rest: Parsed<Seq<T>>) -> Parsed<Seq<T>> {
    Parsed {
        value: match rest.value {
            Ok(found) => Ok(items + found),
            Err(e) => Err(e),
        },
        next: rest.next,
    }
}

/// Nothing before what `rest` collected is `rest`, and `items` with
/// `first` behind them before `rest` is `items` before `first` and `rest`.
proof fn lemma_after<T>(items: Seq<T>, first: T, rest: Parsed<Seq<T>>)
    ensures
        after(Seq::<T>::empty(), rest) == rest,
        after(items.push(first), rest) == after(items, prepended(first, rest)),
{
    match rest.value {
        Ok(found) => {
            assert(Seq::<T>::empty() + found =~= found);
            assert(items.push(first) + found =~= items + (seq![first] + found));
        },
        Err(_) => {},
    }
}

impl TermComp {
    /// Reads one multiplication or division, if a scaling sign comes next.
    fn build(symbols: &NameSet, tokens: &mut TokenStream) -> (result: Result<
        Option<TermComp>,
        ParseError,
    >)
        ensures
            final(tokens).source() == old(tokens).source(),
            final(tokens).position() == parse_component(
                symbols@,
                old(tokens).source(),
                old(tokens).position(),
            ).next,
            match parse_component(symbols@, old(tokens).source(), old(tokens).position()).value {
                Ok(found) => result is Ok && result->Ok_0.deep_view() == found,
                Err(e) => result is Err && result->Err_0 == e,
            },
    {
        let operator = match tokens.peek() {
            Some(Token::Mul) => Token::Mul,
            Some(Token::Div) => Token::Div,
            _ => {
                return Ok(None);
            },
        };
        tokens.advance();
        match Unary::build(symbols, tokens) {
            Ok(unary) => Ok(Some(TermComp { operator, unary })),
            Err(e) => Err(e),
        }
    }
}

impl Term {
    /// Reads a term: a unary and the multiplications and divisions after it.
    fn build(symbols: &NameSet, tokens: &mut TokenStream) -> (result: Result<Term, ParseError>)
        ensures
            final(tokens).source() == old(tokens).source(),
            final(tokens).position() == parse_term(
                symbols@,
                old(tokens).source(),
                old(tokens).position(),
            ).next,
            agrees(
                result,
                parse_term(symbols@, old(tokens).source(), old(tokens).position()).value,
            ),
    {
        let unary = match Unary::build(symbols, tokens) {
            Ok(unary) => unary,
            Err(e) => {
                return Err(e);
            },
        };
        let mut components: Vec<TermComp> = Vec::new();
        let ghost src = tokens.source();
        let ghost start = tokens.position();
        let ghost whole = parse_components(symbols@, src, start);
        proof {
            use_type_invariant(&*tokens);
            assert(components.deep_view() =~= Seq::<TermCompView>::empty());
            lemma_after(Seq::<TermCompView>::empty(), arbitrary(), whole);
        }
        loop
            invariant
                src == old(tokens).source(),
                tokens.source() == src,
                0 <= tokens.position() <= src.len(),
                whole == after(
                    components.deep_view(),
                    parse_components(symbols@, src, tokens.position()),
                ),
                whole.value matches Err(e) ==> parse_term(
                    symbols@,
                    src,
                    old(tokens).position(),
                ) == (Parsed { value: Err::<TermView, ParseError>(e), next: whole.next }),
            ensures
                tokens.source() == src,
                whole == (Parsed {
                    value: Ok::<Seq<TermCompView>, ParseError>(components.deep_view()),
                    next: tokens.position(),
                }),
            decreases src.len() - tokens.position(),
        {
            let ghost before = components.deep_view();
            let ghost pos = tokens.position();
            proof {
                lemma_component_advances(symbols@, src, pos);
            }
            match TermComp::build(symbols, tokens) {
                Ok(Some(component)) => {
                    proof {
                        lemma_after(
                            before,
                            component@,
                            parse_components(symbols@, src, tokens.position()),
                        );
                    }
                    components.push(component);
                    assert(components.deep_view() =~= before.push(component@));
                },
                Ok(None) => {
                    assert(before + Seq::<TermCompView>::empty() =~= before);
                    break ;
                },
                Err(e) => {
                    return Err(e);
                },
            }
        }
        Ok(Term { unary, components })
    }
}

/// Whether a term can start with `token`.
fn starts_term(token: &Token) -> (starts: bool)
    ensures
        starts == crate::grammar::starts_term(token@),
{
    match token {
        Token::Add => true,
        Token::Sub => true,
        Token::Float(_) => true,
        Token::Int(_) => true,
        Token::Ident(_) => true,
        _ => false,
    }
}

impl Expression {
    /// Reads an expression: a term and the terms after it.
    fn build(symbols: &NameSet, tokens: &mut TokenStream) -> (result: Result<
        Expression,
        ParseError,
    >)
        ensures
            final(tokens).source() == old(tokens).source(),
            final(tokens).position() == parse_expression(
                symbols@,
                old(tokens).source(),
                old(tokens).position(),
            ).next,
            agrees(
                result,
                parse_expression(symbols@, old(tokens).source(), old(tokens).position()).value,
            ),
    {
        let first_term = match Term::build(symbols, tokens) {
            Ok(term) => term,
            Err(e) => {
                return Err(e);
            },
        };
        let mut other_terms: Vec<Term> = Vec::new();
        let ghost src = tokens.source();
        let ghost start = tokens.position();
        let ghost whole = parse_terms(symbols@, src, start);
        proof {
            use_type_invariant(&*tokens);
            assert(other_terms.deep_view() =~= Seq::<TermView>::empty());
            lemma_after(Seq::<TermView>::empty(), arbitrary(), whole);
        }
        loop
            invariant
                src == old(tokens).source(),
                tokens.source() == src,
                0 <= tokens.position() <= src.len(),
                whole == after(
                    other_terms.deep_view(),
                    parse_terms(symbols@, src, tokens.position()),
                ),
                whole.value matches Err(e) ==> parse_expression(
                    symbols@,
                    src,
                    old(tokens).position(),
                ) == (Parsed { value: Err::<ExpressionView, ParseError>(e), next: whole.next }),
            ensures
                tokens.source() == src,
                whole == (Parsed {
                    value: Ok::<Seq<TermView>, ParseError>(other_terms.deep_view()),
                    next: tokens.position(),
                }),
            decreases src.len() - tokens.position(),
        {
            let ghost before = other_terms.deep_view();
            let ghost pos = tokens.position();
            let more = match tokens.peek() {
                Some(token) => starts_term(token),
                None => false,
            };
            if !more {
                assert(before + Seq::<TermView>::empty() =~= before);
                break ;
            }
            proof {
                lemma_term_advances(symbols@, src, pos);
            }
            match Term::build(symbols, tokens) {
                Ok(term) => {
                    proof {
                        lemma_after(before, term@, parse_terms(symbols@, src, tokens.position()));
                    }
                    other_terms.push(term);
                    assert(other_terms.deep_view() =~= before.push(term@));
                },
                Err(e) => {
                    return Err(e);
                },
            }
        }
        Ok(Expression { first_term, other_terms })
    }
}

impl Comparison {
    /// Reads a comparison: an expression, a relation and an expression.
    fn build(symbols: &NameSet, tokens: &mut TokenStream) -> (result: Result<
        Comparison,
        ParseError,
    >)
        ensures
            final(tokens).source() == old(tokens).source(),
            final(tokens).position() == parse_comparison(
                symbols@,
                old(tokens).source(),
                old(tokens).position(),
            ).next,
            agrees(
                result,
                parse_comparison(symbols@, old(tokens).source(), old(tokens).position()).value,
            ),
    {
        proof {
            reveal(parse_comparison);
        }
        let left = match Expression::build(symbols, tokens) {
            Ok(expression) => expression,
            Err(e) => {
                return Err(e);
            },
        };
        let operator = match tokens.peek() {
            Some(Token::Equals) => Some(Token::Equals),
            Some(Token::NotEquals) => Some(Token::NotEquals),
            Some(Token::Gt) => Some(Token::Gt),
            Some(Token::Gte) => Some(Token::Gte),
            Some(Token::Lt) => Some(Token::Lt),
            Some(Token::Lte) => Some(Token::Lte),
            _ => None,
        };
        tokens.advance();
        let operator = match operator {
            Some(operator) => operator,
            None => {
                return Err(ParseError::ExpectedOperator);
            },
        };
        let right = match Expression::build(symbols, tokens) {
            Ok(expression) => expression,
            Err(e) => {
                return Err(e);
            },
        };
        Ok(Comparison { left, operator, right })
    }
}

/// The names that the parser has met so far.
#[derive(Debug)]
struct Scope {
    symbols: NameSet,
    labels_declared: NameSet,
    labels_gotoed: NameSet,
}

impl View for Scope {
    type V = ScopeView;

    closed spec fn view(&self) -> ScopeView {
        ScopeView {
            symbols: self.symbols@,
            labels_declared: self.labels_declared@,
            labels_gotoed: self.labels_gotoed@,
        }
    }
}

impl Scope {
    /// A scope without names.
    fn new() -> (scope: Scope)
        ensures
            scope@ == ScopeView::empty(),
    {
        Scope {
            symbols: NameSet::new(),
            labels_declared: NameSet::new(),
            labels_gotoed: NameSet::new(),
        }
    }
}

/// Whether a statement function did what the grammar says: on success the
/// statement and the cursor are those of `step`; on failure the error is.
spec fn follows(result: Result<Statement, ParseError>, position: int, step: Step) -> bool {
    match step.outcome {
        Ok((statement, next)) => result is Ok && result->Ok_0@ == statement && position == next,
        Err(e) => result is Err && result->Err_0 == e,
    }
}

impl Statement {
    /// Reads the rest of a `GOTO`, `LABEL` or `INPUT` statement, after its
    /// keyword `statement_type`.
    fn ident_statement(
        scope: &mut Scope,
        tokens: &mut TokenStream,
        statement_type: NameKeyword,
    ) -> (result: Result<Statement, ParseError>)
        ensures
            final(tokens).source() == old(tokens).source(),
            final(scope)@ == parse_ident_statement(
                old(scope)@,
                old(tokens).source(),
                old(tokens).position(),
                statement_type,
            ).scope,
            follows(
                result,
                final(tokens).position(),
                parse_ident_statement(
                    old(scope)@,
                    old(tokens).source(),
                    old(tokens).position(),
                    statement_type,
                ),
            ),
    {
        proof {
            reveal(parse_ident_statement);
        }
        let ident = match tokens.peek() {
            Some(Token::Ident(name)) => name.clone(),
            _ => {
                return Err(ParseError::ExpectedIdentifier);
            },
        };
        tokens.advance();
        match tokens.peek() {
            Some(Token::NewLine) => {},
            _ => {
                return Err(ParseError::ExpectedNewline);
            },
        }
        tokens.advance();
        match statement_type {
            NameKeyword::Goto => {
                if scope.labels_declared.contains(ident.as_str()) {
                    scope.labels_gotoed.insert(ident.clone());
                    Ok(Statement::Goto { ident })
                } else {
                    Err(ParseError::UndeclaredLabel)
                }
            },
            NameKeyword::Label => {
                scope.labels_declared.insert(ident.clone());
                Ok(Statement::Label { ident })
            },
            NameKeyword::Input => {
                scope.symbols.insert(ident.clone());
                Ok(Statement::Input { ident })
            },
        }
    }

    /// Reads the rest of a `LET` statement, after its keyword.
    fn let_statement(scope: &mut Scope, tokens: &mut TokenStream) -> (result: Result<
        Statement,
        ParseError,
    >)
        ensures
            final(tokens).source() == old(tokens).source(),
            final(scope)@ == parse_let(
                old(scope)@,
                old(tokens).source(),
                old(tokens).position(),
            ).scope,
            follows(
                result,
                final(tokens).position(),
                parse_let(old(scope)@, old(tokens).source(), old(tokens).position()),
            ),
    {
        proof {
            reveal(parse_let);
        }
        let ident = match tokens.peek() {
            Some(Token::Ident(name)) => name.clone(),
            _ => {
                return Err(ParseError::ExpectedIdentifier);
            },
        };
        tokens.advance();
        match tokens.peek() {
            Some(Token::Assign) => {},
            _ => {
                return Err(ParseError::ExpectedAssign);
            },
        }
        tokens.advance();
        let expression = match Expression::build(&scope.symbols, tokens) {
            Ok(expression) => expression,
            Err(e) => {
                return Err(e);
            },
        };
        match tokens.peek() {
            Some(Token::NewLine) => {},
            _ => {
                return Err(ParseError::ExpectedNewlineAfterLet);
            },
        }
        tokens.advance();
        scope.symbols.insert(ident.clone());
        Ok(Statement::Let { ident, expression })
    }

    /// Reads the rest of a `PRINT` statement, after its keyword.
    fn print_statement(scope: &mut Scope, tokens: &mut TokenStream) -> (result: Result<
        Statement,
        ParseError,
    >)
        ensures
            final(tokens).source() == old(tokens).source(),
            final(scope)@ == parse_print(
                old(scope)@,
                old(tokens).source(),
                old(tokens).position(),
            ).scope,
            follows(
                result,
                final(tokens).position(),
                parse_print(old(scope)@, old(tokens).source(), old(tokens).position()),
            ),
    {
        proof {
            reveal(parse_print);
        }
        let literal = match tokens.peek() {
            Some(Token::StrLit(text)) => Some(text.clone()),
            _ => None,
        };
        let message = match literal {
            Some(text) => {
                tokens.advance();
                PrintMessage::StrLit(text)
            },
            None => match Expression::build(&scope.symbols, tokens) {
                Ok(expression) => PrintMessage::Expression(expression),
                Err(e) => {
                    return Err(e);
                },
            },
        };
        match tokens.peek() {
            Some(Token::NewLine) => {},
            _ => {
                return Err(ParseError::ExpectedNewlineAfterPrint);
            },
        }
        tokens.advance();
        Ok(Statement::Print(message))
    }
}

/// `items` before the statements that `rest` found.
spec fn preceded(items: Seq<StatementView>, rest: Block) -> Block {
    Block {
        outcome: match rest.outcome {
            Ok((statements, end)) => Ok((items + statements, end)),
            Err(e) => Err(e),
        },
        scope: rest.scope,
    }
}

/// Whether the statement-sequence function did what the grammar says: on
/// success the statements and the cursor are those of `block`; on failure
/// the error is.
spec fn block_follows(result: Result<Vec<Statement>, ParseError>, position: int, block: Block) -> bool {
    match block.outcome {
        Ok((statements, end)) => result is Ok && result->Ok_0.deep_view() == statements
            && position == end,
        Err(e) => result is Err && result->Err_0 == e,
    }
}

impl Statement {
    /// Reads the rest of an `IF` statement, after its keyword.
    fn if_statement(scope: &mut Scope, tokens: &mut TokenStream) -> (result: Result<
        Statement,
        ParseError,
    >)
        ensures
            final(tokens).source() == old(tokens).source(),
            final(scope)@ == parse_guarded(
                old(scope)@,
                old(tokens).source(),
                old(tokens).position(),
                false,
            ).scope,
            follows(
                result,
                final(tokens).position(),
                parse_guarded(old(scope)@, old(tokens).source(), old(tokens).position(), false),
            ),
        decreases old(tokens).source().len() - old(tokens).position(), 0nat,
    {
        proof {
            use_type_invariant(&*tokens);
            lemma_comparison_advances(scope@.symbols, tokens.source(), tokens.position());
        }
        let comparison = match Comparison::build(&scope.symbols, tokens) {
            Ok(comparison) => comparison,
            Err(e) => {
                return Err(e);
            },
        };
        match tokens.peek() {
            Some(Token::Then) => {},
            _ => {
                return Err(ParseError::ExpectedThen);
            },
        }
        tokens.advance();
        match tokens.peek() {
            Some(Token::NewLine) => {},
            _ => {
                return Err(ParseError::ExpectedNewlineAfterThen);
            },
        }
        tokens.advance();
        let statements = match Program::get_statements(scope, tokens, Some(Token::EndIf)) {
            Ok(statements) => statements,
            Err(e) => {
                return Err(e);
            },
        };
        match tokens.peek() {
            Some(Token::NewLine) => {},
            _ => {
                return Err(ParseError::ExpectedNewlineAfterEndIf);
            },
        }
        tokens.advance();
        proof {
            lemma_block_view(statements, comparison);
        }
        Ok(Statement::If { comparison, statements })
    }

    /// Reads the rest of a `WHILE` statement, after its keyword.
    fn while_statement(scope: &mut Scope, tokens: &mut TokenStream) -> (result: Result<
        Statement,
        ParseError,
    >)
        ensures
            final(tokens).source() == old(tokens).source(),
            final(scope)@ == parse_guarded(
                old(scope)@,
                old(tokens).source(),
                old(tokens).position(),
                true,
            ).scope,
            follows(
                result,
                final(tokens).position(),
                parse_guarded(old(scope)@, old(tokens).source(), old(tokens).position(), true),
            ),
        decreases old(tokens).source().len() - old(tokens).position(), 0nat,
    {
        proof {
            use_type_invariant(&*tokens);
            lemma_comparison_advances(scope@.symbols, tokens.source(), tokens.position());
        }
        let comparison = match Comparison::build(&scope.symbols, tokens) {
            Ok(comparison) => comparison,
            Err(e) => {
                return Err(e);
            },
        };
        match tokens.peek() {
            Some(Token::Repeat) => {},
            _ => {
                return Err(ParseError::ExpectedRepeat);
            },
        }
        tokens.advance();
        match tokens.peek() {
            Some(Token::NewLine) => {},
            _ => {
                return Err(ParseError::ExpectedNewlineAfterRepeat);
            },
        }
        tokens.advance();
        let statements = match Program::get_statements(scope, tokens, Some(Token::EndWhile)) {
            Ok(statements) => statements,
            Err(e) => {
                return Err(e);
            },
        };
        match tokens.peek() {
            Some(Token::NewLine) => {},
            _ => {
                return Err(ParseError::ExpectedNewlineAfterEndWhile);
            },
        }
        tokens.advance();
        proof {
            lemma_block_view(statements, comparison);
        }
        Ok(Statement::While { comparison, statements })
    }
}

/// The keywords that start a statement.
enum Start {
    Let,
    Print,
    If,
    While,
    Name(NameKeyword),
}

impl Statement {
    /// Reads one statement, from its keyword on.
    fn build(scope: &mut Scope, tokens: &mut TokenStream) -> (result: Result<
        Statement,
        ParseError,
    >)
        ensures
            final(tokens).source() == old(tokens).source(),
            final(scope)@ == parse_statement(
                old(scope)@,
                old(tokens).source(),
                old(tokens).position(),
            ).scope,
            follows(
                result,
                final(tokens).position(),
                parse_statement(old(scope)@, old(tokens).source(), old(tokens).position()),
            ),
        decreases old(tokens).source().len() - old(tokens).position(), 1nat,
    {
        let start = match tokens.peek() {
            Some(Token::Let) => Start::Let,
            Some(Token::Print) => Start::Print,
            Some(Token::If) => Start::If,
            Some(Token::While) => Start::While,
            Some(Token::Input) => Start::Name(NameKeyword::Input),
            Some(Token::Goto) => Start::Name(NameKeyword::Goto),
            Some(Token::Label) => Start::Name(NameKeyword::Label),
            _ => {
                return Err(ParseError::StatementNotImplemented);
            },
        };
        tokens.advance();
        match start {
            Start::Let => Statement::let_statement(scope, tokens),
            Start::Print => Statement::print_statement(scope, tokens),
            Start::If => Statement::if_statement(scope, tokens),
            Start::While => Statement::while_statement(scope, tokens),
            Start::Name(keyword) => Statement::ident_statement(scope, tokens, keyword),
        }
    }
}

/// A program: its statements in source order, and the names that they
/// declare and use.
#[derive(Debug)]
pub struct Program {
    statements: Vec<Statement>,
    scope: Scope,
}

/// The mathematical value of a [`Program`].
pub struct ProgramView {
    pub statements: Seq<StatementView>,
    pub scope: ScopeView,
}

impl View for Program {
    type V = ProgramView;

    closed spec fn view(&self) -> ProgramView {
        ProgramView { statements: self.statements.deep_view(), scope: self.scope@ }
    }
}

impl Program {
    #[verifier::type_invariant]
    spec fn well_formed(self) -> bool {
        all_well_formed(self.statements.deep_view())
    }

    /// A program without statements and names.
    pub fn new() -> (program: Program)
        ensures
            program@ == (ProgramView { statements: Seq::empty(), scope: ScopeView::empty() }),
    {
        let program = Program { statements: Vec::new(), scope: Scope::new() };
        assert(program.statements.deep_view() =~= Seq::<StatementView>::empty());
        program
    }

    /// Parses `tokens` as a whole program. The names that the statements
    /// declare are added to those that the program holds already, also
    /// where a later statement fails. The statements replace those that the
    /// program holds, unless parsing fails.
    pub fn build(&mut self, tokens: Vec<Token>) -> (result: Result<(), ParseError>)
        ensures
            final(self)@.scope == scope_after(old(self)@.scope, tokens.deep_view()),
            match parse_program(old(self)@.scope, tokens.deep_view()) {
                Ok(statements) => result is Ok && final(self)@.statements == statements,
                Err(e) => result == Err::<(), ParseError>(e) && final(self)@.statements == old(
                    self,
                )@.statements,
            },
    {
        let ghost src = tokens.deep_view();
        let mut stream = TokenStream::new(tokens);
        let mut scope = Scope::new();
        proof {
            use_type_invariant(&*self);
        }
        std::mem::swap(&mut scope, &mut self.scope);
        proof {
            lemma_block_well_formed(scope@, src, 0, None);
        }
        let parsed = Program::get_statements(&mut scope, &mut stream, None);
        std::mem::swap(&mut scope, &mut self.scope);
        match parsed {
            Ok(statements) => {
                self.statements = statements;
                Ok(())
            },
            Err(e) => Err(e),
        }
    }

    /// The statements, in source order.
    pub fn statements(&self) -> (statements: &Vec<Statement>)
        ensures
            statements.deep_view() == self@.statements,
            all_well_formed(self@.statements),
    {
        proof {
            use_type_invariant(self);
        }
        &self.statements
    }

    /// The variables that the program declares, each of them once.
    pub fn symbols(&self) -> (symbols: &NameSet)
        ensures
            symbols@ == self@.scope.symbols,
            self@.scope.symbols.no_duplicates(),
    {
        let _ = self.scope.symbols.names();
        &self.scope.symbols
    }
}

impl Program {
    /// Reads statements up to the end of the tokens, or up to and including
    /// `sentinel` where one is given.
    fn get_statements(
        scope: &mut Scope,
        tokens: &mut TokenStream,
        sentinel: Option<Token>,
    ) -> (result: Result<Vec<Statement>, ParseError>)
        ensures
            final(tokens).source() == old(tokens).source(),
            final(scope)@ == parse_block(
                old(scope)@,
                old(tokens).source(),
                old(tokens).position(),
                sentinel.deep_view(),
            ).scope,
            block_follows(
                result,
                final(tokens).position(),
                parse_block(
                    old(scope)@,
                    old(tokens).source(),
                    old(tokens).position(),
                    sentinel.deep_view(),
                ),
            ),
        decreases old(tokens).source().len() - old(tokens).position(), 2nat,
    {
        let mut statements: Vec<Statement> = Vec::new();
        let ghost src = tokens.source();
        let ghost start = tokens.position();
        let ghost whole = parse_block(scope@, src, start, sentinel.deep_view());
        proof {
            use_type_invariant(&*tokens);
            assert(statements.deep_view() =~= Seq::<StatementView>::empty());
            match whole.outcome {
                Ok((found, _)) => {
                    assert(statements.deep_view() + found =~= found);
                },
                Err(_) => {},
            }
        }
        loop
            invariant
                src == old(tokens).source(),
                start == old(tokens).position(),
                whole == parse_block(old(scope)@, src, start, sentinel.deep_view()),
                tokens.source() == src,
                0 <= start <= tokens.position() <= src.len(),
                whole == preceded(
                    statements.deep_view(),
                    parse_block(scope@, src, tokens.position(), sentinel.deep_view()),
                ),
            decreases src.len() - tokens.position(),
        {
            let ghost before = statements.deep_view();
            let ghost pos = tokens.position();
            let ghost scope_before = scope@;
            let ghost here = parse_block(scope_before, src, pos, sentinel.deep_view());
            let blank = match tokens.peek() {
                None => {
                    assert(before + Seq::<StatementView>::empty() =~= before);
                    return Ok(statements);
                },
                Some(token) => {
                    let closes = match &sentinel {
                        Some(closing) => *closing == *token,
                        None => false,
                    };
                    if closes {
                        tokens.advance();
                        assert(before + Seq::<StatementView>::empty() =~= before);
                        return Ok(statements);
                    }
                    match token {
                        Token::NewLine => true,
                        _ => false,
                    }
                },
            };
            if blank {
                tokens.advance();
                assert(here == parse_block(scope_before, src, pos + 1, sentinel.deep_view()));
            } else {
                proof {
                    lemma_statement_advances(scope_before, src, pos);
                }
                let ghost first = parse_statement(scope_before, src, pos);
                match Statement::build(scope, tokens) {
                    Ok(statement) => {
                        proof {
                            let rest = parse_block(
                                scope@,
                                src,
                                tokens.position(),
                                sentinel.deep_view(),
                            );
                            assert(first.outcome == Ok::<(StatementView, int), ParseError>(
                                (statement@, tokens.position()),
                            ));
                            assert(here == preceded(seq![statement@], rest));
                            match rest.outcome {
                                Ok((found, _)) => {
                                    assert(before.push(statement@) + found =~= before + (
                                    seq![statement@] + found));
                                },
                                Err(_) => {},
                            }
                        }
                        statements.push(statement);
                        assert(statements.deep_view() =~= before.push(statement@));
                    },
                    Err(e) => {
                        assert(here.outcome == Err::<(Seq<StatementView>, int), ParseError>(e));
                        return Err(e);
                    },
                }
            }
        }
    }
}

} // verus!
