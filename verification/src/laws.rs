//! What holds of the lexer, the grammar and the emitter together.

use vstd::prelude::*;
use crate::ast::{
    ComparisonView, ExpressionView, PrimaryView, PrintMessageView, StatementView, TermCompView,
    TermView, UnaryView,
};
use crate::emitter::{
    block_text, component_text, declaration_text, expression_text, footer_text, header_text,
    joined, primary_text, program_text, scaling_text, sign_text, statement_text, term_text,
    terminated, unary_text,
};
use crate::grammar::{
    closing_keyword, is_scaling, is_sign, lemma_comparison_advances, lemma_statement_advances, lemma_term_advances,
    newline_at, opening_keyword, parse_block, parse_comparison, parse_component,
    parse_components, parse_expression, parse_guarded, parse_ident_statement, parse_let,
    parse_print, parse_program, parse_statement, parse_term, parse_terms, parse_unary,
    scope_after, starts_term, token_at, Block, NameKeyword, ParseError, ScopeView, Step,
};
use crate::lexer::{
    keyword_class, lemma_lex_step_advances, lemma_run_end, lex, lex_from, lex_step, name_class,
    number_class, run_end, LexError,
};
use crate::parser::ProgramView;
use crate::symbols::{lemma_with_name_distinct, lemma_with_name_keeps, with_name};
use crate::text::{
    char_is_alphabetic, char_is_alphanumeric, char_is_uppercase, lemma_integer_text_chars,
    lemma_occurrences_concat, lemma_occurrences_none, occurrences,
};
use crate::token::TokenView;

verus! {

/// From any position on, a text without a double quote has tokens, and no
/// more of them than characters.
pub proof fn lemma_lex_from_is_total(s: Seq<char>, pos: int)
    requires
        0 <= pos <= s.len(),
        forall|i: int| pos <= i < s.len() ==> s[i] != '"',
    ensures
        lex_from(s, pos) is Ok,
    decreases s.len() - pos,
{
    if pos < s.len() {
        lemma_lex_step_advances(s, pos);
        match lex_step(s, pos) {
            Ok(step) => {
                lemma_lex_from_is_total(s, step.next);
            },
            Err(_) => {},
        }
    }
}

/// The lexer fails on no text but one that holds a double quote: only a
/// string literal that the text ends in is an error.
pub proof fn lemma_lex_is_total(s: Seq<char>)
    requires
        !s.contains('"'),
    ensures
        lex(s) is Ok,
{
    assert forall|i: int| 0 <= i < s.len() implies s[i] != '"' by {
        if s[i] == '"' {
            assert(s.contains('"'));
        }
    }
    lemma_lex_from_is_total(s, 0);
}

/// Whether `c` is an arithmetic sign, one of the characters of which
/// the relations are made, a line break, a blank or a tab.
pub open spec fn is_sign_or_blank(c: char) -> bool {
    c == '+' || c == '-' || c == '*' || c == '/' || c == '=' || c == '>' || c == '<' || c == '!'
        || c == '\n' || c == ' ' || c == '\t'
}

/// A text of signs, blanks and letters has tokens, granted that the
/// double quote is no letter. Nothing in this library says what the class
/// of letters holds; the law is stated for whatever it holds, and asks of
/// it this one thing.
pub proof fn lemma_lex_is_total_on_letters(s: Seq<char>)
    ensures
        !char_is_alphabetic('"') && (forall|i: int|
            0 <= i < s.len() ==> is_sign_or_blank(s[i]) || char_is_alphabetic(s[i])) ==> lex(
            s,
        ) is Ok,
{
    if !char_is_alphabetic('"') && (forall|i: int|
        0 <= i < s.len() ==> is_sign_or_blank(s[i]) || char_is_alphabetic(s[i])) {
        assert forall|i: int| 0 <= i < s.len() implies s[i] != '"' by {
            assert(is_sign_or_blank(s[i]) || char_is_alphabetic(s[i]));
        }
        lemma_lex_from_is_total(s, 0);
    }
}

/// The tokens of a text from a position on are no more than the
/// characters from there on.
pub proof fn lemma_lex_from_length(s: Seq<char>, pos: int)
    requires
        0 <= pos <= s.len(),
    ensures
        lex_from(s, pos) matches Ok(tokens) ==> tokens.len() <= s.len() - pos,
    decreases s.len() - pos,
{
    if pos < s.len() {
        lemma_lex_step_advances(s, pos);
        match lex_step(s, pos) {
            Ok(step) => {
                lemma_lex_from_length(s, step.next);
            },
            Err(_) => {},
        }
    }
}

/// Every token is made of at least one character: a text has no more
/// tokens than characters.
pub proof fn lemma_lex_length(s: Seq<char>)
    ensures
        lex(s) matches Ok(tokens) ==> tokens.len() <= s.len(),
{
    lemma_lex_from_length(s, 0);
}

/// The token that one of the characters `+ - * /` or a line break makes.
pub open spec fn operator_token(c: char) -> TokenView {
    if c == '+' {
        TokenView::Add
    } else if c == '-' {
        TokenView::Sub
    } else if c == '*' {
        TokenView::Mul
    } else if c == '/' {
        TokenView::Div
    } else {
        TokenView::NewLine
    }
}

/// Whether `c` is one of the characters `+ - * /` or a line break.
pub open spec fn is_operator_char(c: char) -> bool {
    c == '+' || c == '-' || c == '*' || c == '/' || c == '\n'
}

/// From any position on, a text of arithmetic signs and line breaks has
/// one token for each character.
pub proof fn lemma_lex_from_operators(s: Seq<char>, pos: int)
    requires
        0 <= pos <= s.len(),
        forall|i: int| pos <= i < s.len() ==> is_operator_char(s[i]),
    ensures
        lex_from(s, pos) == Ok::<Seq<TokenView>, LexError>(
            Seq::new((s.len() - pos) as nat, |i: int| operator_token(s[pos + i])),
        ),
    decreases s.len() - pos,
{
    if pos < s.len() {
        lemma_lex_from_operators(s, pos + 1);
        let rest = Seq::new((s.len() - pos - 1) as nat, |i: int| operator_token(s[pos + 1 + i]));
        let all = Seq::new((s.len() - pos) as nat, |i: int| operator_token(s[pos + i]));
        assert(seq![operator_token(s[pos])] + rest =~= all);
    } else {
        assert(Seq::new((s.len() - pos) as nat, |i: int| operator_token(s[pos + i]))
            =~= Seq::<TokenView>::empty());
    }
}

/// A text of arithmetic signs and line breaks has one token for each
/// character, in the order of the characters.
pub proof fn lemma_lex_operators(s: Seq<char>)
    requires
        forall|i: int| 0 <= i < s.len() ==> is_operator_char(s[i]),
    ensures
        lex(s) == Ok::<Seq<TokenView>, LexError>(
            Seq::new(s.len(), |i: int| operator_token(s[i])),
        ),
{
    lemma_lex_from_operators(s, 0);
    assert(Seq::new((s.len() - 0) as nat, |i: int| operator_token(s[0 + i])) =~= Seq::new(
        s.len(),
        |i: int| operator_token(s[i]),
    ));
}

/// Whether the variable of `unary`, if it is one, is among `symbols`.
pub open spec fn unary_in_scope(symbols: Seq<Seq<char>>, unary: UnaryView) -> bool {
    unary.primary matches PrimaryView::Ident(name) ==> symbols.contains(name)
}

/// Whether every variable of `term` is among `symbols`.
pub open spec fn term_in_scope(symbols: Seq<Seq<char>>, term: TermView) -> bool {
    &&& unary_in_scope(symbols, term.unary)
    &&& forall|i: int|
        #![trigger term.components[i]]
        0 <= i < term.components.len() ==> unary_in_scope(symbols, term.components[i].unary)
}

/// Whether every variable of `expression` is among `symbols`.
pub open spec fn expression_in_scope(symbols: Seq<Seq<char>>, expression: ExpressionView) -> bool {
    &&& term_in_scope(symbols, expression.first_term)
    &&& forall|i: int|
        #![trigger expression.other_terms[i]]
        0 <= i < expression.other_terms.len() ==> term_in_scope(
            symbols,
            expression.other_terms[i],
        )
}

/// Whether every variable of `comparison` is among `symbols`.
pub open spec fn comparison_in_scope(symbols: Seq<Seq<char>>, comparison: ComparisonView) -> bool {
    &&& expression_in_scope(symbols, comparison.left)
    &&& expression_in_scope(symbols, comparison.right)
}

/// The scope after `statement`, which started in `scope`: a `LET` and an
/// `INPUT` declare their variable, a `LABEL` its label, a `GOTO` notes its
/// label, and an `IF` and a `WHILE` do what the statements of their body do.
pub open spec fn scope_after_statement(scope: ScopeView, statement: StatementView) -> ScopeView
    decreases statement,
{
    match statement {
        StatementView::Let { ident, expression } => scope.declare(ident),
        StatementView::Input { ident } => scope.declare(ident),
        StatementView::Label { ident } => scope.declare_label(ident),
        StatementView::Goto { ident } => scope.jump_to(ident),
        StatementView::Print(_) => scope,
        StatementView::If { comparison, statements } => scope_after_statements(scope, statements),
        StatementView::While { comparison, statements } => scope_after_statements(
            scope,
            statements,
        ),
    }
}

/// The scope after `statements` in turn, the first of which started in `scope`.
pub open spec fn scope_after_statements(
    scope: ScopeView,
    statements: Seq<StatementView>,
) -> ScopeView
    decreases statements,
{
    if statements.len() == 0 {
        scope
    } else {
        scope_after_statements(
            scope_after_statement(scope, statements[0]),
            statements.drop_first(),
        )
    }
}

/// Whether `statement`, which starts in `scope`, uses only what is
/// declared before the place of use: an expression only variables that
/// `scope` or an earlier statement of the same body declares, a `GOTO`
/// only such a label.
pub open spec fn statement_in_scope(scope: ScopeView, statement: StatementView) -> bool
    decreases statement,
{
    match statement {
        StatementView::Let { ident, expression } => expression_in_scope(scope.symbols, expression),
        StatementView::Print(PrintMessageView::Expression(expression)) => expression_in_scope(
            scope.symbols,
            expression,
        ),
        StatementView::Print(PrintMessageView::StrLit(_)) => true,
        StatementView::Input { ident } => true,
        StatementView::Label { ident } => true,
        StatementView::Goto { ident } => scope.labels_declared.contains(ident),
        StatementView::If { comparison, statements } => comparison_in_scope(
            scope.symbols,
            comparison,
        ) && statements_in_scope(scope, statements),
        StatementView::While { comparison, statements } => comparison_in_scope(
            scope.symbols,
            comparison,
        ) && statements_in_scope(scope, statements),
    }
}

/// Whether each of `statements`, the first of which starts in `scope`,
/// uses only what is declared before the place of use.
pub open spec fn statements_in_scope(scope: ScopeView, statements: Seq<StatementView>) -> bool
    decreases statements,
{
    if statements.len() == 0 {
        true
    } else {
        statement_in_scope(scope, statements[0]) && statements_in_scope(
            scope_after_statement(scope, statements[0]),
            statements.drop_first(),
        )
    }
}

/// The components that the grammar accepts use declared variables only.
pub proof fn lemma_components_in_scope(
    symbols: Seq<Seq<char>>,
    tokens: Seq<TokenView>,
    pos: int,
)
    ensures
        parse_components(symbols, tokens, pos).value matches Ok(items) ==> forall|i: int|
            #![trigger items[i]]
            0 <= i < items.len() ==> unary_in_scope(symbols, items[i].unary),
    decreases tokens.len() - pos,
{
    let first = parse_component(symbols, tokens, pos);
    if first.value matches Ok(Some(_)) {
        lemma_components_in_scope(symbols, tokens, first.next);
        match (parse_components(symbols, tokens, first.next).value, parse_components(
            symbols,
            tokens,
            pos,
        ).value) {
            (Ok(rest), Ok(all)) => {
                assert forall|i: int| #![trigger all[i]] 0 <= i < all.len() implies unary_in_scope(
                    symbols,
                    all[i].unary,
                ) by {
                    if i > 0 {
                        assert(all[i] == rest[i - 1]);
                    }
                }
            },
            _ => {},
        }
    }
}

/// The terms that the grammar accepts use declared variables only.
pub proof fn lemma_term_in_scope(symbols: Seq<Seq<char>>, tokens: Seq<TokenView>, pos: int)
    ensures
        parse_term(symbols, tokens, pos).value matches Ok(term) ==> term_in_scope(symbols, term),
{
    lemma_components_in_scope(symbols, tokens, parse_unary(symbols, tokens, pos).next);
}

/// The further terms that the grammar accepts use declared variables only.
pub proof fn lemma_terms_in_scope(symbols: Seq<Seq<char>>, tokens: Seq<TokenView>, pos: int)
    ensures
        parse_terms(symbols, tokens, pos).value matches Ok(items) ==> forall|i: int|
            #![trigger items[i]]
            0 <= i < items.len() ==> term_in_scope(symbols, items[i]),
    decreases tokens.len() - pos,
{
    if 0 <= pos < tokens.len() && starts_term(tokens[pos]) {
        lemma_term_in_scope(symbols, tokens, pos);
        lemma_term_advances(symbols, tokens, pos);
        let term = parse_term(symbols, tokens, pos);
        if term.value is Ok {
            lemma_terms_in_scope(symbols, tokens, term.next);
            match (parse_terms(symbols, tokens, term.next).value, parse_terms(
                symbols,
                tokens,
                pos,
            ).value) {
                (Ok(rest), Ok(all)) => {
                    assert forall|i: int| #![trigger all[i]] 0 <= i < all.len() implies term_in_scope(
                        symbols,
                        all[i],
                    ) by {
                        if i > 0 {
                            assert(all[i] == rest[i - 1]);
                        }
                    }
                },
                _ => {},
            }
        }
    }
}

/// The expressions that the grammar accepts use declared variables only.
pub proof fn lemma_expression_in_scope(symbols: Seq<Seq<char>>, tokens: Seq<TokenView>, pos: int)
    ensures
        parse_expression(symbols, tokens, pos).value matches Ok(expression)
            ==> expression_in_scope(symbols, expression),
{
    lemma_term_in_scope(symbols, tokens, pos);
    lemma_terms_in_scope(symbols, tokens, parse_term(symbols, tokens, pos).next);
}

/// The comparisons that the grammar accepts use declared variables only.
pub proof fn lemma_comparison_in_scope(symbols: Seq<Seq<char>>, tokens: Seq<TokenView>, pos: int)
    ensures
        parse_comparison(symbols, tokens, pos).value matches Ok(comparison)
            ==> comparison_in_scope(symbols, comparison),
{
    reveal(parse_comparison);
    lemma_expression_in_scope(symbols, tokens, pos);
    lemma_expression_in_scope(symbols, tokens, parse_expression(symbols, tokens, pos).next + 1);
}

/// Whether `step` gives a statement that uses only what `scope`
/// declares, and leaves the scope that the statement's declarations make.
pub open spec fn step_in_scope(scope: ScopeView, step: Step) -> bool {
    step.outcome matches Ok((statement, _)) ==> {
        &&& statement_in_scope(scope, statement)
        &&& step.scope == scope_after_statement(scope, statement)
    }
}

/// A `LET` that the grammar accepts uses declared variables only, and
/// declares its own.
pub proof fn lemma_let_in_scope(scope: ScopeView, tokens: Seq<TokenView>, pos: int)
    ensures
        step_in_scope(scope, parse_let(scope, tokens, pos)),
{
    reveal(parse_let);
    lemma_expression_in_scope(scope.symbols, tokens, pos + 2);
}

/// A `PRINT` that the grammar accepts uses declared variables only, and
/// declares nothing.
pub proof fn lemma_print_in_scope(scope: ScopeView, tokens: Seq<TokenView>, pos: int)
    ensures
        step_in_scope(scope, parse_print(scope, tokens, pos)),
{
    reveal(parse_print);
    lemma_expression_in_scope(scope.symbols, tokens, pos);
}

/// A `GOTO` that the grammar accepts jumps to a declared label; a `LABEL`
/// and an `INPUT` declare their name.
pub proof fn lemma_ident_statement_in_scope(
    scope: ScopeView,
    tokens: Seq<TokenView>,
    pos: int,
    kind: NameKeyword,
)
    ensures
        step_in_scope(scope, parse_ident_statement(scope, tokens, pos, kind)),
{
    reveal(parse_ident_statement);
}

/// A statement that the grammar accepts uses only what was declared
/// before it, and leaves the scope that its declarations make.
pub proof fn lemma_statement_in_scope(scope: ScopeView, tokens: Seq<TokenView>, pos: int)
    ensures
        step_in_scope(scope, parse_statement(scope, tokens, pos)),
    decreases tokens.len() - pos, 1nat,
{
    match token_at(tokens, pos) {
        Some(TokenView::Let) => lemma_let_in_scope(scope, tokens, pos + 1),
        Some(TokenView::Print) => lemma_print_in_scope(scope, tokens, pos + 1),
        Some(TokenView::If) => lemma_guarded_in_scope(scope, tokens, pos + 1, false),
        Some(TokenView::While) => lemma_guarded_in_scope(scope, tokens, pos + 1, true),
        Some(TokenView::Input) => lemma_ident_statement_in_scope(
            scope,
            tokens,
            pos + 1,
            NameKeyword::Input,
        ),
        Some(TokenView::Goto) => lemma_ident_statement_in_scope(
            scope,
            tokens,
            pos + 1,
            NameKeyword::Goto,
        ),
        Some(TokenView::Label) => lemma_ident_statement_in_scope(
            scope,
            tokens,
            pos + 1,
            NameKeyword::Label,
        ),
        _ => {},
    }
}

/// An `IF` or a `WHILE` that the grammar accepts uses only what was
/// declared before the place of use, and leaves the scope that the
/// declarations of its body make.
pub proof fn lemma_guarded_in_scope(
    scope: ScopeView,
    tokens: Seq<TokenView>,
    pos: int,
    repeats: bool,
)
    ensures
        step_in_scope(scope, parse_guarded(scope, tokens, pos, repeats)),
    decreases tokens.len() - pos, 0nat,
{
    lemma_comparison_in_scope(scope.symbols, tokens, pos);
    let guard = parse_comparison(scope.symbols, tokens, pos);
    if guard.value is Ok && token_at(tokens, guard.next) == Some(opening_keyword(repeats))
        && newline_at(tokens, guard.next + 1) {
        lemma_comparison_advances(scope.symbols, tokens, pos);
        lemma_block_in_scope(scope, tokens, guard.next + 2, Some(closing_keyword(repeats)));
    }
}

/// The statements that the grammar accepts use only what was declared
/// before the place of use, and leave the scope that their declarations
/// make.
pub proof fn lemma_block_in_scope(
    scope: ScopeView,
    tokens: Seq<TokenView>,
    pos: int,
    sentinel: Option<TokenView>,
)
    ensures
        parse_block(scope, tokens, pos, sentinel).outcome matches Ok((statements, _)) ==> {
            &&& statements_in_scope(scope, statements)
            &&& parse_block(scope, tokens, pos, sentinel).scope == scope_after_statements(
                scope,
                statements,
            )
        },
    decreases tokens.len() - pos, 2nat,
{
    match token_at(tokens, pos) {
        None => {},
        Some(token) => {
            if sentinel == Some(token) {
            } else if token is NewLine {
                lemma_block_in_scope(scope, tokens, pos + 1, sentinel);
            } else {
                lemma_statement_in_scope(scope, tokens, pos);
                let first = parse_statement(scope, tokens, pos);
                match first.outcome {
                    Ok((statement, next)) => {
                        if pos < next <= tokens.len() {
                            lemma_block_in_scope(first.scope, tokens, next, sentinel);
                            let rest = parse_block(first.scope, tokens, next, sentinel);
                            match rest.outcome {
                                Ok((found, _)) => {
                                    let all = seq![statement] + found;
                                    assert(all[0] == statement);
                                    assert(all.drop_first() =~= found);
                                },
                                Err(_) => {},
                            }
                        }
                    },
                    Err(_) => {},
                }
            }
        },
    }
}

/// Declare before use: in a program that parses, every expression uses
/// only variables that the starting scope or an earlier statement declares,
/// and every `GOTO` jumps to a label that the starting scope or an earlier
/// statement declares. The scope that parsing leaves behind is the one that
/// the declarations of the statements make.
pub proof fn lemma_parsed_program_in_scope(scope: ScopeView, tokens: Seq<TokenView>)
    ensures
        parse_program(scope, tokens) matches Ok(statements) ==> {
            &&& statements_in_scope(scope, statements)
            &&& scope_after(scope, tokens) == scope_after_statements(scope, statements)
        },
{
    lemma_block_in_scope(scope, tokens, 0, None);
}

/// Whether `later` holds every variable and every declared label of `earlier`.
pub open spec fn extends(later: ScopeView, earlier: ScopeView) -> bool {
    &&& forall|name: Seq<char>|
        earlier.symbols.contains(name) ==> later.symbols.contains(name)
    &&& forall|name: Seq<char>|
        earlier.labels_declared.contains(name) ==> later.labels_declared.contains(name)
}

/// What is declared stays declared: a statement takes no variable and no
/// label out of the scope.
pub proof fn lemma_statement_extends_scope(scope: ScopeView, statement: StatementView)
    ensures
        extends(scope_after_statement(scope, statement), scope),
    decreases statement,
{
    match statement {
        StatementView::Let { ident, expression } => {
            lemma_with_name_keeps(scope.symbols, ident);
        },
        StatementView::Input { ident } => {
            lemma_with_name_keeps(scope.symbols, ident);
        },
        StatementView::Label { ident } => {
            lemma_with_name_keeps(scope.labels_declared, ident);
        },
        StatementView::Goto { ident } => {},
        StatementView::Print(_) => {},
        StatementView::If { comparison, statements } => {
            lemma_statements_extend_scope(scope, statements);
        },
        StatementView::While { comparison, statements } => {
            lemma_statements_extend_scope(scope, statements);
        },
    }
}

/// What is declared stays declared: statements take no variable and no
/// label out of the scope.
pub proof fn lemma_statements_extend_scope(scope: ScopeView, statements: Seq<StatementView>)
    ensures
        extends(scope_after_statements(scope, statements), scope),
    decreases statements,
{
    if statements.len() > 0 {
        let middle = scope_after_statement(scope, statements[0]);
        lemma_statement_extends_scope(scope, statements[0]);
        lemma_statements_extend_scope(middle, statements.drop_first());
    }
}

/// `PRINT` of a variable that is not declared fails, whatever follows, and
/// the scope stays as it was.
pub proof fn lemma_print_of_undeclared_fails(
    scope: ScopeView,
    tokens: Seq<TokenView>,
    pos: int,
    name: Seq<char>,
)
    requires
        token_at(tokens, pos) == Some(TokenView::Print),
        token_at(tokens, pos + 1) == Some(TokenView::Ident(name)),
        !scope.symbols.contains(name),
    ensures
        parse_statement(scope, tokens, pos).outcome == Err::<(StatementView, int), ParseError>(
            ParseError::UndeclaredIdentifier,
        ),
        parse_statement(scope, tokens, pos).scope == scope,
{
    reveal(parse_print);
}

/// A program that starts with `PRINT` of a variable that is not declared
/// does not parse, whatever follows: a `LET` or an `INPUT` further down
/// comes too late.
pub proof fn lemma_print_before_declaration_fails(
    scope: ScopeView,
    tokens: Seq<TokenView>,
    name: Seq<char>,
)
    requires
        token_at(tokens, 0) == Some(TokenView::Print),
        token_at(tokens, 1) == Some(TokenView::Ident(name)),
        !scope.symbols.contains(name),
    ensures
        parse_program(scope, tokens) == Err::<Seq<StatementView>, ParseError>(
            ParseError::UndeclaredIdentifier,
        ),
{
    lemma_print_of_undeclared_fails(scope, tokens, 0, name);
}

/// `GOTO` to a label that is not declared fails, whatever follows, and the
/// scope stays as it was.
pub proof fn lemma_goto_of_undeclared_fails(
    scope: ScopeView,
    tokens: Seq<TokenView>,
    pos: int,
    name: Seq<char>,
)
    requires
        token_at(tokens, pos) == Some(TokenView::Goto),
        token_at(tokens, pos + 1) == Some(TokenView::Ident(name)),
        !scope.labels_declared.contains(name),
    ensures
        parse_statement(scope, tokens, pos).outcome == Err::<(StatementView, int), ParseError>(
            if newline_at(tokens, pos + 2) {
                ParseError::UndeclaredLabel
            } else {
                ParseError::ExpectedNewline
            },
        ),
        parse_statement(scope, tokens, pos).scope == scope,
{
    reveal(parse_ident_statement);
}

/// A program that starts with `GOTO` to a label that is not declared does
/// not parse, whatever follows: a `LABEL` further down comes too late.
pub proof fn lemma_goto_before_label_fails(
    scope: ScopeView,
    tokens: Seq<TokenView>,
    name: Seq<char>,
)
    requires
        token_at(tokens, 0) == Some(TokenView::Goto),
        token_at(tokens, 1) == Some(TokenView::Ident(name)),
        !scope.labels_declared.contains(name),
    ensures
        parse_program(scope, tokens) is Err,
{
    lemma_goto_of_undeclared_fails(scope, tokens, 0, name);
}

/// `LABEL name` on a line of its own declares the label.
pub proof fn lemma_label_declares(
    scope: ScopeView,
    tokens: Seq<TokenView>,
    pos: int,
    name: Seq<char>,
)
    requires
        token_at(tokens, pos) == Some(TokenView::Label),
        token_at(tokens, pos + 1) == Some(TokenView::Ident(name)),
        newline_at(tokens, pos + 2),
    ensures
        parse_statement(scope, tokens, pos).outcome == Ok::<(StatementView, int), ParseError>(
            (StatementView::Label { ident: name }, pos + 3),
        ),
        parse_statement(scope, tokens, pos).scope == scope.declare_label(name),
        parse_statement(scope, tokens, pos).scope.labels_declared.contains(name),
{
    reveal(parse_ident_statement);
    lemma_with_name_keeps(scope.labels_declared, name);
}

/// `GOTO name` on a line of its own, to a label that is declared, is
/// accepted.
pub proof fn lemma_goto_of_declared_succeeds(
    scope: ScopeView,
    tokens: Seq<TokenView>,
    pos: int,
    name: Seq<char>,
)
    requires
        token_at(tokens, pos) == Some(TokenView::Goto),
        token_at(tokens, pos + 1) == Some(TokenView::Ident(name)),
        newline_at(tokens, pos + 2),
        scope.labels_declared.contains(name),
    ensures
        parse_statement(scope, tokens, pos).outcome == Ok::<(StatementView, int), ParseError>(
            (StatementView::Goto { ident: name }, pos + 3),
        ),
        parse_statement(scope, tokens, pos).scope == scope.jump_to(name),
{
    reveal(parse_ident_statement);
}

/// The tokens of `LABEL name`, a line break, `GOTO name`, a line break.
pub open spec fn label_then_goto(name: Seq<char>) -> Seq<TokenView> {
    seq![
        TokenView::Label,
        TokenView::Ident(name),
        TokenView::NewLine,
        TokenView::Goto,
        TokenView::Ident(name),
        TokenView::NewLine,
    ]
}

/// The tokens of `GOTO name`, a line break, `LABEL name`, a line break.
pub open spec fn goto_then_label(name: Seq<char>) -> Seq<TokenView> {
    seq![
        TokenView::Goto,
        TokenView::Ident(name),
        TokenView::NewLine,
        TokenView::Label,
        TokenView::Ident(name),
        TokenView::NewLine,
    ]
}

/// Jumps go backward only: a label and then a jump to it parse, in
/// whatever scope.
pub proof fn lemma_label_then_goto_parses(scope: ScopeView, name: Seq<char>)
    ensures
        parse_program(scope, label_then_goto(name)) == Ok::<Seq<StatementView>, ParseError>(
            seq![StatementView::Label { ident: name }, StatementView::Goto { ident: name }],
        ),
{
    let tokens = label_then_goto(name);
    lemma_label_declares(scope, tokens, 0, name);
    let declared = scope.declare_label(name);
    lemma_goto_of_declared_succeeds(declared, tokens, 3, name);
    let jumped = declared.jump_to(name);
    assert(parse_block(jumped, tokens, 6, None).outcome == Ok::<
        (Seq<StatementView>, int),
        ParseError,
    >((Seq::empty(), 6)));
    let last = parse_block(declared, tokens, 3, None);
    assert(last.outcome == Ok::<(Seq<StatementView>, int), ParseError>(
        (seq![StatementView::Goto { ident: name }] + Seq::empty(), 6),
    ));
    assert(seq![StatementView::Label { ident: name }] + (seq![
        StatementView::Goto { ident: name },
    ] + Seq::empty()) =~= seq![
        StatementView::Label { ident: name },
        StatementView::Goto { ident: name },
    ]);
}

/// Jumps go backward only: a jump and then its label do not parse, unless
/// the scope held the label before.
pub proof fn lemma_goto_then_label_fails(scope: ScopeView, name: Seq<char>)
    requires
        !scope.labels_declared.contains(name),
    ensures
        parse_program(scope, goto_then_label(name)) == Err::<Seq<StatementView>, ParseError>(
            ParseError::UndeclaredLabel,
        ),
{
    lemma_goto_of_undeclared_fails(scope, goto_then_label(name), 0, name);
}

/// How many line breaks `text` holds.
pub open spec fn line_breaks(text: Seq<char>) -> nat {
    occurrences(text, '\n')
}

/// Whether a number as it was written, or a variable's name, holds no
/// line break.
pub open spec fn unary_on_one_line(unary: UnaryView) -> bool {
    match unary.primary {
        PrimaryView::Float(text) => line_breaks(text) == 0,
        PrimaryView::Ident(name) => line_breaks(name) == 0,
        PrimaryView::Int(_) => true,
    }
}

/// Whether no number and no name of `term` holds a line break.
pub open spec fn term_on_one_line(term: TermView) -> bool {
    &&& unary_on_one_line(term.unary)
    &&& forall|i: int|
        #![trigger term.components[i]]
        0 <= i < term.components.len() ==> unary_on_one_line(term.components[i].unary)
}

/// Whether no number and no name of `expression` holds a line break.
pub open spec fn expression_on_one_line(expression: ExpressionView) -> bool {
    &&& term_on_one_line(expression.first_term)
    &&& forall|i: int|
        #![trigger expression.other_terms[i]]
        0 <= i < expression.other_terms.len() ==> term_on_one_line(expression.other_terms[i])
}

/// Whether `statement` is a `LET` or a `PRINT` of a string, and none of
/// its names, numbers and strings holds a line break.
pub open spec fn is_plain_line(statement: StatementView) -> bool {
    match statement {
        StatementView::Let { ident, expression } => line_breaks(ident) == 0
            && expression_on_one_line(expression),
        StatementView::Print(PrintMessageView::StrLit(message)) => line_breaks(message) == 0,
        _ => false,
    }
}

/// The text of a unary holds no line break unless its name or number does.
pub proof fn lemma_unary_text_on_one_line(unary: UnaryView)
    requires
        unary_on_one_line(unary),
    ensures
        line_breaks(unary_text(unary)) == 0,
{
    reveal_strlit("+");
    reveal_strlit("-");
    lemma_occurrences_none("+"@, '\n');
    lemma_occurrences_none("-"@, '\n');
    match unary.primary {
        PrimaryView::Int(value) => {
            lemma_integer_text_chars(value, '\n');
        },
        _ => {},
    }
    match unary.operator {
        Some(sign) => {
            lemma_occurrences_concat(sign_text(sign), primary_text(unary.primary), '\n');
        },
        None => {},
    }
}

/// The text of a component holds no line break unless its name or number does.
pub proof fn lemma_component_text_on_one_line(component: TermCompView)
    requires
        unary_on_one_line(component.unary),
    ensures
        line_breaks(component_text(component)) == 0,
{
    reveal_strlit("*");
    reveal_strlit("/");
    lemma_occurrences_none("*"@, '\n');
    lemma_occurrences_none("/"@, '\n');
    lemma_unary_text_on_one_line(component.unary);
    lemma_occurrences_concat(
        scaling_text(component.operator),
        unary_text(component.unary),
        '\n',
    );
}

/// The text of a term holds no line break unless a name or number of it does.
pub proof fn lemma_term_text_on_one_line(term: TermView)
    requires
        term_on_one_line(term),
    ensures
        line_breaks(term_text(term)) == 0,
{
    let render = |component: TermCompView| component_text(component);
    lemma_unary_text_on_one_line(term.unary);
    assert forall|i: int| 0 <= i < term.components.len() implies line_breaks(
        #[trigger] render(term.components[i]),
    ) == 0 by {
        lemma_component_text_on_one_line(term.components[i]);
    }
    lemma_joined_on_one_line(term.components, render);
    lemma_occurrences_concat(unary_text(term.unary), joined(term.components, render), '\n');
}

/// Texts without line breaks, one after the other, hold no line break.
pub proof fn lemma_joined_on_one_line<T>(items: Seq<T>, text: spec_fn(T) -> Seq<char>)
    requires
        forall|i: int| 0 <= i < items.len() ==> line_breaks(#[trigger] text(items[i])) == 0,
    ensures
        line_breaks(joined(items, text)) == 0,
    decreases items.len(),
{
    if items.len() > 0 {
        assert forall|i: int| 0 <= i < items.drop_last().len() implies line_breaks(
            #[trigger] text(items.drop_last()[i]),
        ) == 0 by {
            assert(items.drop_last()[i] == items[i]);
        }
        lemma_joined_on_one_line(items.drop_last(), text);
        lemma_occurrences_concat(joined(items.drop_last(), text), text(items.last()), '\n');
    }
}

/// The text of an expression holds no line break unless a name or number
/// of it does.
pub proof fn lemma_expression_text_on_one_line(expression: ExpressionView)
    requires
        expression_on_one_line(expression),
    ensures
        line_breaks(expression_text(expression)) == 0,
{
    let render = |term: TermView| term_text(term);
    lemma_term_text_on_one_line(expression.first_term);
    assert forall|i: int| 0 <= i < expression.other_terms.len() implies line_breaks(
        #[trigger] render(expression.other_terms[i]),
    ) == 0 by {
        lemma_term_text_on_one_line(expression.other_terms[i]);
    }
    lemma_joined_on_one_line(expression.other_terms, render);
    lemma_occurrences_concat(
        term_text(expression.first_term),
        joined(expression.other_terms, render),
        '\n',
    );
}

/// A `LET` and a `PRINT` of a string are emitted as one line each.
pub proof fn lemma_plain_statement_is_one_line(statement: StatementView)
    requires
        is_plain_line(statement),
    ensures
        line_breaks(statement_text(statement)) == 1,
{
    reveal_strlit("\n");
    assert("\n"@ =~= seq!['\n']);
    assert(line_breaks(seq!['\n']) == 1) by {
        assert(seq!['\n'].drop_last() =~= Seq::<char>::empty());
        assert(occurrences(Seq::<char>::empty(), '\n') == 0);
        assert(seq!['\n'].last() == '\n');
    }
    match statement {
        StatementView::Let { ident, expression } => {
            reveal_strlit(" = ");
            reveal_strlit(";");
            lemma_occurrences_none(" = "@, '\n');
            lemma_occurrences_none(";"@, '\n');
            lemma_expression_text_on_one_line(expression);
            let text = expression_text(expression);
            lemma_occurrences_concat(ident, " = "@, '\n');
            lemma_occurrences_concat(ident + " = "@, text, '\n');
            lemma_occurrences_concat(ident + " = "@ + text, ";"@, '\n');
            lemma_occurrences_concat(ident + " = "@ + text + ";"@, "\n"@, '\n');
        },
        StatementView::Print(PrintMessageView::StrLit(message)) => {
            reveal_strlit("printf(\"");
            reveal_strlit("\");");
            lemma_occurrences_none("printf(\""@, '\n');
            lemma_occurrences_none("\");"@, '\n');
            lemma_occurrences_concat("printf(\""@, message, '\n');
            lemma_occurrences_concat("printf(\""@ + message, "\");"@, '\n');
            lemma_occurrences_concat("printf(\""@ + message + "\");"@, "\n"@, '\n');
        },
        _ => {},
    }
}

/// As many lines as statements: where every statement is a `LET` or a
/// `PRINT` of a string, and no name, number or string holds a line break,
/// the emitted statements have one line break for each statement.
pub proof fn lemma_one_line_per_statement(statements: Seq<StatementView>)
    requires
        forall|i: int| 0 <= i < statements.len() ==> is_plain_line(#[trigger] statements[i]),
    ensures
        line_breaks(block_text(statements)) == statements.len(),
    decreases statements.len(),
{
    if statements.len() > 0 {
        assert forall|i: int| 0 <= i < statements.drop_last().len() implies is_plain_line(
            #[trigger] statements.drop_last()[i],
        ) by {
            assert(statements.drop_last()[i] == statements[i]);
        }
        lemma_one_line_per_statement(statements.drop_last());
        lemma_plain_statement_is_one_line(statements.last());
        lemma_occurrences_concat(
            block_text(statements.drop_last()),
            statement_text(statements.last()),
            '\n',
        );
    }
}

/// The header and the footer are two lines each.
pub proof fn lemma_frame_lines()
    ensures
        line_breaks(header_text()) == 2,
        line_breaks(footer_text()) == 2,
{
    reveal_strlit("#include <stdio.h>\n");
    reveal_strlit("int main(void){\n");
    reveal_strlit("return 0;\n");
    reveal_strlit("}\n");
    lemma_ends_line("#include <stdio.h>\n"@);
    lemma_ends_line("int main(void){\n"@);
    lemma_ends_line("return 0;\n"@);
    lemma_ends_line("}\n"@);
    lemma_occurrences_concat("#include <stdio.h>\n"@, "int main(void){\n"@, '\n');
    lemma_occurrences_concat("return 0;\n"@, "}\n"@, '\n');
}

/// A text whose only line break is its last character is one line.
pub proof fn lemma_ends_line(text: Seq<char>)
    requires
        text.len() > 0,
        text.last() == '\n',
        forall|i: int| 0 <= i < text.len() - 1 ==> text[i] != '\n',
    ensures
        line_breaks(text) == 1,
{
    lemma_occurrences_none(text.drop_last(), '\n');
}

/// The declaration of a variable is one line, unless the name holds a
/// line break.
pub proof fn lemma_declaration_is_one_line(name: Seq<char>)
    requires
        line_breaks(name) == 0,
    ensures
        line_breaks(declaration_text(name)) == 1,
{
    reveal_strlit("float ");
    reveal_strlit(";\n");
    lemma_occurrences_none("float "@, '\n');
    lemma_ends_line(";\n"@);
    lemma_occurrences_concat("float "@, name, '\n');
    lemma_occurrences_concat("float "@ + name, ";\n"@, '\n');
}

/// The declarations are one line for each variable, unless a name holds
/// a line break.
pub proof fn lemma_one_line_per_declaration(symbols: Seq<Seq<char>>)
    requires
        forall|i: int| 0 <= i < symbols.len() ==> line_breaks(#[trigger] symbols[i]) == 0,
    ensures
        line_breaks(joined(symbols, |name: Seq<char>| declaration_text(name))) == symbols.len(),
    decreases symbols.len(),
{
    let render = |name: Seq<char>| declaration_text(name);
    if symbols.len() > 0 {
        assert forall|i: int| 0 <= i < symbols.drop_last().len() implies line_breaks(
            #[trigger] symbols.drop_last()[i],
        ) == 0 by {
            assert(symbols.drop_last()[i] == symbols[i]);
        }
        lemma_one_line_per_declaration(symbols.drop_last());
        lemma_declaration_is_one_line(symbols.last());
        lemma_occurrences_concat(
            joined(symbols.drop_last(), render),
            render(symbols.last()),
            '\n',
        );
    }
}

/// The lines of an emitted program: where every statement is a `LET` or a
/// `PRINT` of a string, and no name, number or string holds a line break,
/// the text has two lines of header, one line for each variable, one line
/// for each statement, and two lines of footer.
pub proof fn lemma_program_lines(program: ProgramView)
    requires
        forall|i: int|
            0 <= i < program.scope.symbols.len() ==> line_breaks(
                #[trigger] program.scope.symbols[i],
            ) == 0,
        forall|i: int|
            0 <= i < program.statements.len() ==> is_plain_line(#[trigger] program.statements[i]),
    ensures
        line_breaks(program_text(program)) == 2 + program.scope.symbols.len()
            + program.statements.len() + 2,
{
    let declarations = joined(program.scope.symbols, |name: Seq<char>| declaration_text(name));
    let body = block_text(program.statements);
    lemma_frame_lines();
    lemma_one_line_per_declaration(program.scope.symbols);
    lemma_one_line_per_statement(program.statements);
    lemma_occurrences_concat(header_text(), declarations, '\n');
    lemma_occurrences_concat(header_text() + declarations, body, '\n');
    lemma_occurrences_concat(header_text() + declarations + body, footer_text(), '\n');
}

/// The statements of `block`, after `first`.
pub open spec fn after_statement(first: StatementView, block: Block) -> Block {
    Block {
        outcome: match block.outcome {
            Ok((statements, end)) => Ok((seq![first] + statements, end)),
            Err(e) => Err(e),
        },
        scope: block.scope,
    }
}

/// How a sequence of statements is read, one statement at a time: at the
/// end of the tokens and at the sentinel it is over; a line break is
/// skipped; anything else starts a statement, which the rest of the
/// sequence follows in the scope that the statement leaves.
pub proof fn lemma_block_step(
    scope: ScopeView,
    tokens: Seq<TokenView>,
    pos: int,
    sentinel: Option<TokenView>,
)
    requires
        0 <= pos <= tokens.len(),
    ensures
        parse_block(scope, tokens, pos, sentinel) == match token_at(tokens, pos) {
            None => Block { outcome: Ok((Seq::empty(), pos)), scope },
            Some(token) => if sentinel == Some(token) {
                Block { outcome: Ok((Seq::empty(), pos + 1)), scope }
            } else if token is NewLine {
                parse_block(scope, tokens, pos + 1, sentinel)
            } else {
                let first = parse_statement(scope, tokens, pos);
                match first.outcome {
                    Ok((statement, next)) => after_statement(
                        statement,
                        parse_block(first.scope, tokens, next, sentinel),
                    ),
                    Err(e) => Block { outcome: Err(e), scope: first.scope },
                }
            },
        },
{
    lemma_statement_advances(scope, tokens, pos);
}

/// Every statement ends with a line break: the last token that an
/// accepted statement takes is one.
pub proof fn lemma_statement_ends_line(scope: ScopeView, tokens: Seq<TokenView>, pos: int)
    ensures
        parse_statement(scope, tokens, pos).outcome matches Ok((_, next)) ==> newline_at(
            tokens,
            next - 1,
        ),
{
    reveal(parse_let);
    reveal(parse_print);
    reveal(parse_ident_statement);
}

/// A sequence of statements that stops before the end of the tokens
/// stops behind its sentinel.
pub proof fn lemma_block_ends_at_sentinel(
    scope: ScopeView,
    tokens: Seq<TokenView>,
    pos: int,
    sentinel: Option<TokenView>,
)
    requires
        0 <= pos <= tokens.len(),
    ensures
        parse_block(scope, tokens, pos, sentinel).outcome matches Ok((_, end)) ==> end
            == tokens.len() || (pos < end && sentinel == token_at(tokens, end - 1)),
    decreases tokens.len() - pos,
{
    lemma_block_step(scope, tokens, pos, sentinel);
    match token_at(tokens, pos) {
        None => {},
        Some(token) => {
            if sentinel == Some(token) {
            } else if token is NewLine {
                lemma_block_ends_at_sentinel(scope, tokens, pos + 1, sentinel);
            } else {
                lemma_statement_advances(scope, tokens, pos);
                let first = parse_statement(scope, tokens, pos);
                match first.outcome {
                    Ok((_, next)) => {
                        lemma_block_ends_at_sentinel(first.scope, tokens, next, sentinel);
                    },
                    Err(_) => {},
                }
            }
        },
    }
}

/// The body of an `IF` is closed by `ENDIF` and a line break, that of a
/// `WHILE` by `ENDWHILE` and a line break: they are the last two tokens
/// that an accepted `IF` or `WHILE` takes.
pub proof fn lemma_guarded_is_closed(
    scope: ScopeView,
    tokens: Seq<TokenView>,
    pos: int,
    repeats: bool,
)
    requires
        0 <= pos <= tokens.len(),
    ensures
        parse_guarded(scope, tokens, pos, repeats).outcome matches Ok((_, next)) ==> {
            &&& token_at(tokens, next - 2) == Some(closing_keyword(repeats))
            &&& newline_at(tokens, next - 1)
        },
{
    lemma_comparison_advances(scope.symbols, tokens, pos);
    let guard = parse_comparison(scope.symbols, tokens, pos);
    if guard.value is Ok && token_at(tokens, guard.next) == Some(opening_keyword(repeats))
        && newline_at(tokens, guard.next + 1) {
        lemma_block_ends_at_sentinel(
            scope,
            tokens,
            guard.next + 2,
            Some(closing_keyword(repeats)),
        );
    }
}

/// The text that an emitter hands out is empty or ends with a line break,
/// and differs from the collected text by that line break at most.
pub proof fn lemma_terminated(text: Seq<char>)
    ensures
        terminated(text).len() > 0 ==> terminated(text).last() == '\n',
        terminated(text) == text || terminated(text) == text.push('\n'),
        terminated(terminated(text)) == terminated(text),
{
}

/// The text of a program ends with a line break, so an emitter that has
/// collected whole programs only hands out what it collected.
pub proof fn lemma_program_text_ends_line(collected: Seq<char>, program: ProgramView)
    ensures
        terminated(collected + program_text(program)) == collected + program_text(program),
{
    reveal_strlit("}\n");
    let text = collected + program_text(program);
    assert(text.last() == "}\n"@[1]);
}

/// Whether no variable and no label occurs twice in the lists of `scope`.
pub open spec fn is_distinct(scope: ScopeView) -> bool {
    &&& scope.symbols.no_duplicates()
    &&& scope.labels_declared.no_duplicates()
    &&& scope.labels_gotoed.no_duplicates()
}

/// A statement adds no name to the scope a second time.
pub proof fn lemma_statement_keeps_distinct(scope: ScopeView, statement: StatementView)
    requires
        is_distinct(scope),
    ensures
        is_distinct(scope_after_statement(scope, statement)),
    decreases statement,
{
    match statement {
        StatementView::Let { ident, expression } => {
            lemma_with_name_distinct(scope.symbols, ident);
        },
        StatementView::Input { ident } => {
            lemma_with_name_distinct(scope.symbols, ident);
        },
        StatementView::Label { ident } => {
            lemma_with_name_distinct(scope.labels_declared, ident);
        },
        StatementView::Goto { ident } => {
            lemma_with_name_distinct(scope.labels_gotoed, ident);
        },
        StatementView::Print(_) => {},
        StatementView::If { comparison, statements } => {
            lemma_statements_keep_distinct(scope, statements);
        },
        StatementView::While { comparison, statements } => {
            lemma_statements_keep_distinct(scope, statements);
        },
    }
}

/// Statements add no name to the scope a second time: each variable of a
/// program that parses gets one declaration in the emitted text.
pub proof fn lemma_statements_keep_distinct(scope: ScopeView, statements: Seq<StatementView>)
    requires
        is_distinct(scope),
    ensures
        is_distinct(scope_after_statements(scope, statements)),
    decreases statements,
{
    if statements.len() > 0 {
        lemma_statement_keeps_distinct(scope, statements[0]);
        lemma_statements_keep_distinct(
            scope_after_statement(scope, statements[0]),
            statements.drop_first(),
        );
    }
}

/// Whether the token at `pos` is a number or a name.
pub open spec fn primary_at(tokens: Seq<TokenView>, pos: int) -> bool {
    token_at(tokens, pos) matches Some(token) && (token is Float || token is Int
        || token is Ident)
}

/// A sign needs its primary: a sign that no number and no name follows
/// is an error, and so is a sign before a variable that is not declared.
pub proof fn lemma_sign_needs_primary(symbols: Seq<Seq<char>>, tokens: Seq<TokenView>, pos: int)
    requires
        token_at(tokens, pos) matches Some(sign) && is_sign(sign),
    ensures
        !primary_at(tokens, pos + 1) ==> parse_unary(symbols, tokens, pos).value == Err::<
            UnaryView,
            ParseError,
        >(ParseError::ExpectedPrimary),
        token_at(tokens, pos + 1) matches Some(TokenView::Ident(name)) && !symbols.contains(name)
            ==> parse_unary(symbols, tokens, pos).value == Err::<UnaryView, ParseError>(
            ParseError::UndeclaredIdentifier,
        ),
{
}

/// A scaling sign needs its unary: after `*` or `/` the error of the
/// unary is the error of the whole run of components, and so of the term.
pub proof fn lemma_scaling_needs_unary(symbols: Seq<Seq<char>>, tokens: Seq<TokenView>, pos: int)
    requires
        token_at(tokens, pos) matches Some(operator) && is_scaling(operator),
    ensures
        parse_unary(symbols, tokens, pos + 1).value matches Err(e) ==> parse_components(
            symbols,
            tokens,
            pos,
        ).value == Err::<Seq<TermCompView>, ParseError>(e),
{
}

/// A run of components ends without error only before a token that is
/// no scaling sign.
pub proof fn lemma_components_end(symbols: Seq<Seq<char>>, tokens: Seq<TokenView>, pos: int)
    ensures
        parse_components(symbols, tokens, pos).value is Ok ==> !(token_at(
            tokens,
            parse_components(symbols, tokens, pos).next,
        ) matches Some(token) && is_scaling(token)),
    decreases tokens.len() - pos,
{
    let first = parse_component(symbols, tokens, pos);
    if first.value matches Ok(Some(_)) {
        lemma_components_end(symbols, tokens, first.next);
    }
}

/// Where a term can start, a term must follow: the error of a further
/// term is the error of the whole run of terms, and so of the expression.
pub proof fn lemma_term_start_needs_term(
    symbols: Seq<Seq<char>>,
    tokens: Seq<TokenView>,
    pos: int,
)
    requires
        token_at(tokens, pos) matches Some(token) && starts_term(token),
    ensures
        parse_term(symbols, tokens, pos).value matches Err(e) ==> parse_terms(
            symbols,
            tokens,
            pos,
        ).value == Err::<Seq<TermView>, ParseError>(e),
{
}

/// A run of terms ends without error only before a token that starts no
/// term: no sign, no number and no name is left behind it.
pub proof fn lemma_terms_end(symbols: Seq<Seq<char>>, tokens: Seq<TokenView>, pos: int)
    ensures
        parse_terms(symbols, tokens, pos).value is Ok ==> !(token_at(
            tokens,
            parse_terms(symbols, tokens, pos).next,
        ) matches Some(token) && starts_term(token)),
    decreases tokens.len() - pos,
{
    if 0 <= pos < tokens.len() && starts_term(tokens[pos]) {
        lemma_term_advances(symbols, tokens, pos);
        let term = parse_term(symbols, tokens, pos);
        if term.value is Ok {
            lemma_terms_end(symbols, tokens, term.next);
        }
    }
}

/// An expression that is accepted ends before a token that starts no
/// term and is no scaling sign: nothing of an expression is left over.
pub proof fn lemma_expression_end(symbols: Seq<Seq<char>>, tokens: Seq<TokenView>, pos: int)
    ensures
        parse_expression(symbols, tokens, pos).value is Ok ==> !(token_at(
            tokens,
            parse_expression(symbols, tokens, pos).next,
        ) matches Some(token) && (starts_term(token) || is_scaling(token))),
{
    let first = parse_term(symbols, tokens, pos);
    if first.value is Ok {
        lemma_terms_end(symbols, tokens, first.next);
        lemma_terms_follow_components(symbols, tokens, first.next, pos);
    }
}

/// A run of terms that takes nothing stands behind a term, and so before
/// no scaling sign; one that takes terms ends behind the components of its
/// last term.
proof fn lemma_terms_follow_components(
    symbols: Seq<Seq<char>>,
    tokens: Seq<TokenView>,
    pos: int,
    before: int,
)
    requires
        parse_term(symbols, tokens, before).value is Ok,
        parse_term(symbols, tokens, before).next == pos,
    ensures
        parse_terms(symbols, tokens, pos).value is Ok ==> !(token_at(
            tokens,
            parse_terms(symbols, tokens, pos).next,
        ) matches Some(token) && is_scaling(token)),
    decreases tokens.len() - pos,
{
    lemma_components_end(symbols, tokens, parse_unary(symbols, tokens, before).next);
    if 0 <= pos < tokens.len() && starts_term(tokens[pos]) {
        lemma_term_advances(symbols, tokens, pos);
        let term = parse_term(symbols, tokens, pos);
        if term.value is Ok {
            lemma_terms_follow_components(symbols, tokens, term.next, pos);
        }
    }
}

/// `LET name = expression` with a sign or a scaling sign at the end of
/// the line, or with anything else behind the sign that is no number and no
/// name, does not parse: the error is that a primary is missing, and the
/// variable is not declared.
pub proof fn lemma_let_with_dangling_sign_fails(
    scope: ScopeView,
    tokens: Seq<TokenView>,
    pos: int,
    name: Seq<char>,
)
    requires
        token_at(tokens, pos) == Some(TokenView::Ident(name)),
        token_at(tokens, pos + 1) == Some(TokenView::Assign),
        token_at(tokens, pos + 2) matches Some(TokenView::Int(_)),
        token_at(tokens, pos + 3) matches Some(token) && (is_sign(token) || is_scaling(token)),
        !primary_at(tokens, pos + 4),
        !(token_at(tokens, pos + 4) matches Some(token) && is_sign(token)),
    ensures
        parse_let(scope, tokens, pos).outcome == Err::<(StatementView, int), ParseError>(
            ParseError::ExpectedPrimary,
        ),
        parse_let(scope, tokens, pos).scope == scope,
{
    reveal(parse_let);
    let symbols = scope.symbols;
    let first = parse_unary(symbols, tokens, pos + 2);
    assert(first.value is Ok && first.next == pos + 3);
    let operand = parse_unary(symbols, tokens, pos + 4);
    assert(operand.value == Err::<UnaryView, ParseError>(ParseError::ExpectedPrimary));
    if is_scaling(tokens[pos + 3]) {
        lemma_scaling_needs_unary(symbols, tokens, pos + 3);
    } else {
        let components = parse_components(symbols, tokens, pos + 3);
        assert(components.value is Ok && components.next == pos + 3);
        lemma_sign_needs_primary(symbols, tokens, pos + 3);
        lemma_term_start_needs_term(symbols, tokens, pos + 3);
    }
}

/// `LET name = expression` whose expression goes on, behind a sign or a
/// scaling sign, with a variable that is not declared, does not parse: the
/// error is the undeclared variable, and nothing is declared.
pub proof fn lemma_let_with_undeclared_operand_fails(
    scope: ScopeView,
    tokens: Seq<TokenView>,
    pos: int,
    name: Seq<char>,
    operand: Seq<char>,
)
    requires
        token_at(tokens, pos) == Some(TokenView::Ident(name)),
        token_at(tokens, pos + 1) == Some(TokenView::Assign),
        token_at(tokens, pos + 2) matches Some(TokenView::Int(_)),
        token_at(tokens, pos + 3) matches Some(token) && (is_sign(token) || is_scaling(token)),
        token_at(tokens, pos + 4) == Some(TokenView::Ident(operand)),
        !scope.symbols.contains(operand),
    ensures
        parse_let(scope, tokens, pos).outcome == Err::<(StatementView, int), ParseError>(
            ParseError::UndeclaredIdentifier,
        ),
        parse_let(scope, tokens, pos).scope == scope,
{
    reveal(parse_let);
    let symbols = scope.symbols;
    let first = parse_unary(symbols, tokens, pos + 2);
    assert(first.value is Ok && first.next == pos + 3);
    let second = parse_unary(symbols, tokens, pos + 4);
    assert(second.value == Err::<UnaryView, ParseError>(ParseError::UndeclaredIdentifier));
    if is_scaling(tokens[pos + 3]) {
        lemma_scaling_needs_unary(symbols, tokens, pos + 3);
    } else {
        let components = parse_components(symbols, tokens, pos + 3);
        assert(components.value is Ok && components.next == pos + 3);
        lemma_sign_needs_primary(symbols, tokens, pos + 3);
        lemma_term_start_needs_term(symbols, tokens, pos + 3);
    }
}

/// Whether the line break is outside the classes of which keywords and
/// names are made. Nothing in this library says what the classes hold;
/// the laws on source texts below are stated for whatever they hold, and
/// ask of them this one thing.
pub open spec fn line_break_is_no_letter() -> bool {
    !char_is_uppercase('\n') && !char_is_alphanumeric('\n')
}

/// Whether `token`, if it is a name or a number with a decimal point,
/// holds no line break.
pub open spec fn word_on_one_line(token: TokenView) -> bool {
    match token {
        TokenView::Ident(name) => line_breaks(name) == 0,
        TokenView::Float(text) => line_breaks(text) == 0,
        _ => true,
    }
}

/// Whether `token`, if it is a string, holds no line break.
pub open spec fn string_on_one_line(token: TokenView) -> bool {
    token matches TokenView::StrLit(text) ==> line_breaks(text) == 0
}

/// Whether no name and no number with a decimal point among `tokens`
/// holds a line break.
pub open spec fn words_on_one_line(tokens: Seq<TokenView>) -> bool {
    forall|i: int| 0 <= i < tokens.len() ==> word_on_one_line(#[trigger] tokens[i])
}

/// Whether no string among `tokens` holds a line break.
pub open spec fn strings_on_one_line(tokens: Seq<TokenView>) -> bool {
    forall|i: int| 0 <= i < tokens.len() ==> string_on_one_line(#[trigger] tokens[i])
}

/// A character that is no line break, with a run of characters behind it
/// whose class does not hold the line break, holds no line break.
pub proof fn lemma_run_on_one_line(
    first: char,
    s: Seq<char>,
    pos: int,
    class: spec_fn(char) -> bool,
)
    requires
        0 <= pos <= s.len(),
        first != '\n',
        !class('\n'),
    ensures
        line_breaks(seq![first] + s.subrange(pos, run_end(s, pos, class))) == 0,
{
    lemma_run_end(s, pos, class);
    let word = seq![first] + s.subrange(pos, run_end(s, pos, class));
    assert forall|j: int| 0 <= j < word.len() implies word[j] != '\n' by {
        if j > 0 {
            assert(word[j] == s[pos + j - 1]);
            assert(class(s[pos + j - 1]));
        }
    }
    lemma_occurrences_none(word, '\n');
}

/// The token of one step of the lexer, if it is a name or a number with a
/// decimal point, holds no line break, granted that the line break is no
/// letter.
pub proof fn lemma_lex_step_word(s: Seq<char>, pos: int)
    requires
        0 <= pos < s.len(),
    ensures
        line_break_is_no_letter() ==> (lex_step(s, pos) matches Ok(step) ==> (
        step.token matches Some(token) ==> word_on_one_line(token))),
{
    if line_break_is_no_letter() {
        let c = s[pos];
        if c != '\n' {
            lemma_run_on_one_line(c, s, pos + 1, keyword_class());
            lemma_run_on_one_line(c, s, pos + 1, name_class());
            lemma_run_on_one_line(c, s, pos + 1, number_class());
        }
    }
}

/// The names and the numbers with a decimal point that the lexer makes
/// hold no line break, granted that the line break is no letter.
pub proof fn lemma_lex_from_words(s: Seq<char>, pos: int)
    requires
        0 <= pos <= s.len(),
    ensures
        line_break_is_no_letter() ==> (lex_from(s, pos) matches Ok(tokens) ==> words_on_one_line(
            tokens,
        )),
    decreases s.len() - pos,
{
    if pos < s.len() {
        lemma_lex_step_advances(s, pos);
        lemma_lex_step_word(s, pos);
        match lex_step(s, pos) {
            Ok(step) => {
                lemma_lex_from_words(s, step.next);
                match (lex_from(s, step.next), lex_from(s, pos), step.token) {
                    (Ok(rest), Ok(all), Some(token)) => {
                        if line_break_is_no_letter() {
                            assert forall|i: int| 0 <= i < all.len() implies word_on_one_line(
                                #[trigger] all[i],
                            ) by {
                                if i > 0 {
                                    assert(all[i] == rest[i - 1]);
                                }
                            }
                        }
                    },
                    _ => {},
                }
            },
            Err(_) => {},
        }
    }
}

/// A unary that the grammar takes from tokens without line breaks holds
/// none.
pub proof fn lemma_unary_from_words(symbols: Seq<Seq<char>>, tokens: Seq<TokenView>, pos: int)
    requires
        words_on_one_line(tokens),
    ensures
        parse_unary(symbols, tokens, pos).value matches Ok(unary) ==> unary_on_one_line(unary),
{
    if 0 <= pos < tokens.len() {
        assert(word_on_one_line(tokens[pos]));
    }
    if 0 <= pos + 1 < tokens.len() {
        assert(word_on_one_line(tokens[pos + 1]));
    }
}

/// The components that the grammar takes from tokens without line breaks
/// hold none.
pub proof fn lemma_components_from_words(
    symbols: Seq<Seq<char>>,
    tokens: Seq<TokenView>,
    pos: int,
)
    requires
        words_on_one_line(tokens),
    ensures
        parse_components(symbols, tokens, pos).value matches Ok(items) ==> forall|i: int|
            #![trigger items[i]]
            0 <= i < items.len() ==> unary_on_one_line(items[i].unary),
    decreases tokens.len() - pos,
{
    let first = parse_component(symbols, tokens, pos);
    lemma_unary_from_words(symbols, tokens, pos + 1);
    if first.value matches Ok(Some(_)) {
        lemma_components_from_words(symbols, tokens, first.next);
        match (parse_components(symbols, tokens, first.next).value, parse_components(
            symbols,
            tokens,
            pos,
        ).value) {
            (Ok(rest), Ok(all)) => {
                assert forall|i: int| #![trigger all[i]] 0 <= i < all.len() implies unary_on_one_line(
                    all[i].unary,
                ) by {
                    if i > 0 {
                        assert(all[i] == rest[i - 1]);
                    }
                }
            },
            _ => {},
        }
    }
}

/// A term that the grammar takes from tokens without line breaks holds
/// none.
pub proof fn lemma_term_from_words(symbols: Seq<Seq<char>>, tokens: Seq<TokenView>, pos: int)
    requires
        words_on_one_line(tokens),
    ensures
        parse_term(symbols, tokens, pos).value matches Ok(term) ==> term_on_one_line(term),
{
    lemma_unary_from_words(symbols, tokens, pos);
    lemma_components_from_words(symbols, tokens, parse_unary(symbols, tokens, pos).next);
}

/// The further terms that the grammar takes from tokens without line
/// breaks hold none.
pub proof fn lemma_terms_from_words(symbols: Seq<Seq<char>>, tokens: Seq<TokenView>, pos: int)
    requires
        words_on_one_line(tokens),
    ensures
        parse_terms(symbols, tokens, pos).value matches Ok(items) ==> forall|i: int|
            #![trigger items[i]]
            0 <= i < items.len() ==> term_on_one_line(items[i]),
    decreases tokens.len() - pos,
{
    if 0 <= pos < tokens.len() && starts_term(tokens[pos]) {
        lemma_term_from_words(symbols, tokens, pos);
        lemma_term_advances(symbols, tokens, pos);
        let term = parse_term(symbols, tokens, pos);
        if term.value is Ok {
            lemma_terms_from_words(symbols, tokens, term.next);
            match (parse_terms(symbols, tokens, term.next).value, parse_terms(
                symbols,
                tokens,
                pos,
            ).value) {
                (Ok(rest), Ok(all)) => {
                    assert forall|i: int| #![trigger all[i]] 0 <= i < all.len() implies term_on_one_line(
                        all[i],
                    ) by {
                        if i > 0 {
                            assert(all[i] == rest[i - 1]);
                        }
                    }
                },
                _ => {},
            }
        }
    }
}

/// An expression that the grammar takes from tokens without line breaks
/// holds none.
pub proof fn lemma_expression_from_words(
    symbols: Seq<Seq<char>>,
    tokens: Seq<TokenView>,
    pos: int,
)
    requires
        words_on_one_line(tokens),
    ensures
        parse_expression(symbols, tokens, pos).value matches Ok(expression)
            ==> expression_on_one_line(expression),
{
    lemma_term_from_words(symbols, tokens, pos);
    lemma_terms_from_words(symbols, tokens, parse_term(symbols, tokens, pos).next);
}

/// Whether `statement` is a `LET` or a `PRINT` of a string.
pub open spec fn is_let_or_print_of_string(statement: StatementView) -> bool {
    statement is Let || statement matches StatementView::Print(PrintMessageView::StrLit(_))
}

/// A `LET` and a `PRINT` of a string that the grammar takes from tokens
/// without line breaks are emitted as one line.
pub proof fn lemma_statement_from_words(scope: ScopeView, tokens: Seq<TokenView>, pos: int)
    requires
        words_on_one_line(tokens),
        strings_on_one_line(tokens),
    ensures
        parse_statement(scope, tokens, pos).outcome matches Ok((statement, _)) ==> (
        is_let_or_print_of_string(statement) ==> is_plain_line(statement)),
{
    reveal(parse_let);
    reveal(parse_print);
    reveal(parse_ident_statement);
    lemma_expression_from_words(scope.symbols, tokens, pos + 3);
    if 0 <= pos + 1 < tokens.len() {
        assert(word_on_one_line(tokens[pos + 1]));
        assert(string_on_one_line(tokens[pos + 1]));
    }
}

/// The `LET`s and the `PRINT`s of strings that the grammar takes from
/// tokens without line breaks are emitted as one line each.
pub proof fn lemma_block_from_words(
    scope: ScopeView,
    tokens: Seq<TokenView>,
    pos: int,
    sentinel: Option<TokenView>,
)
    requires
        0 <= pos <= tokens.len(),
        words_on_one_line(tokens),
        strings_on_one_line(tokens),
    ensures
        parse_block(scope, tokens, pos, sentinel).outcome matches Ok((statements, _))
            ==> forall|i: int|
            0 <= i < statements.len() && is_let_or_print_of_string(#[trigger] statements[i])
                ==> is_plain_line(statements[i]),
    decreases tokens.len() - pos,
{
    lemma_block_step(scope, tokens, pos, sentinel);
    match token_at(tokens, pos) {
        None => {},
        Some(token) => {
            if sentinel == Some(token) {
            } else if token is NewLine {
                lemma_block_from_words(scope, tokens, pos + 1, sentinel);
            } else {
                lemma_statement_advances(scope, tokens, pos);
                lemma_statement_from_words(scope, tokens, pos);
                let first = parse_statement(scope, tokens, pos);
                match first.outcome {
                    Ok((statement, next)) => {
                        lemma_block_from_words(first.scope, tokens, next, sentinel);
                        match parse_block(first.scope, tokens, next, sentinel).outcome {
                            Ok((found, _)) => {
                                let all = seq![statement] + found;
                                assert forall|i: int|
                                    0 <= i < all.len() && is_let_or_print_of_string(
                                        #[trigger] all[i],
                                    ) implies is_plain_line(all[i]) by {
                                    if i > 0 {
                                        assert(all[i] == found[i - 1]);
                                    }
                                }
                            },
                            Err(_) => {},
                        }
                    },
                    Err(_) => {},
                }
            }
        },
    }
}

/// Whether no name of `names` holds a line break.
pub open spec fn names_on_one_line(names: Seq<Seq<char>>) -> bool {
    forall|i: int| 0 <= i < names.len() ==> line_breaks(#[trigger] names[i]) == 0
}

/// `LET`s and `PRINT`s of strings without line breaks declare variables
/// without line breaks.
pub proof fn lemma_plain_lines_declare_plain_names(
    scope: ScopeView,
    statements: Seq<StatementView>,
)
    requires
        names_on_one_line(scope.symbols),
        forall|i: int| 0 <= i < statements.len() ==> is_plain_line(#[trigger] statements[i]),
    ensures
        names_on_one_line(scope_after_statements(scope, statements).symbols),
    decreases statements.len(),
{
    if statements.len() > 0 {
        let first = statements[0];
        let middle = scope_after_statement(scope, first);
        assert(is_plain_line(first));
        match first {
            StatementView::Let { ident, expression } => {
                let added = with_name(scope.symbols, ident);
                assert forall|i: int| 0 <= i < added.len() implies line_breaks(
                    #[trigger] added[i],
                ) == 0 by {
                    if i < scope.symbols.len() {
                        assert(added[i] == scope.symbols[i]);
                    }
                }
            },
            _ => {},
        }
        assert forall|i: int| 0 <= i < statements.drop_first().len() implies is_plain_line(
            #[trigger] statements.drop_first()[i],
        ) by {
            assert(statements.drop_first()[i] == statements[i + 1]);
        }
        lemma_plain_lines_declare_plain_names(middle, statements.drop_first());
    }
}

/// As many lines as statements, from the source text on: where a text
/// lexes and parses to `LET`s and `PRINT`s of strings only, and no string
/// of it holds a line break, the emitted program has two lines of header,
/// one line for each variable, one line for each statement and two lines
/// of footer, granted that the line break is no letter.
pub proof fn lemma_source_program_lines(
    source: Seq<char>,
    tokens: Seq<TokenView>,
    statements: Seq<StatementView>,
)
    ensures
        ({
            &&& line_break_is_no_letter()
            &&& lex(source) == Ok::<Seq<TokenView>, LexError>(tokens)
            &&& strings_on_one_line(tokens)
            &&& parse_program(ScopeView::empty(), tokens) == Ok::<Seq<StatementView>, ParseError>(
                statements,
            )
            &&& forall|i: int|
                0 <= i < statements.len() ==> is_let_or_print_of_string(#[trigger] statements[i])
        }) ==> line_breaks(
            program_text(
                ProgramView { statements, scope: scope_after(ScopeView::empty(), tokens) },
            ),
        ) == 2 + scope_after(ScopeView::empty(), tokens).symbols.len() + statements.len() + 2,
{
    let start = ScopeView::empty();
    if line_break_is_no_letter() && lex(source) == Ok::<Seq<TokenView>, LexError>(tokens)
        && strings_on_one_line(tokens) && parse_program(start, tokens) == Ok::<
        Seq<StatementView>,
        ParseError,
    >(statements) && (forall|i: int|
        0 <= i < statements.len() ==> is_let_or_print_of_string(#[trigger] statements[i])) {
        lemma_lex_from_words(source, 0);
        lemma_block_from_words(start, tokens, 0, None);
        lemma_parsed_program_in_scope(start, tokens);
        assert forall|i: int| 0 <= i < statements.len() implies is_plain_line(
            #[trigger] statements[i],
        ) by {
            assert(is_let_or_print_of_string(statements[i]));
        }
        lemma_plain_lines_declare_plain_names(start, statements);
        lemma_program_lines(
            ProgramView { statements, scope: scope_after(start, tokens) },
        );
    }
}

} // verus!
