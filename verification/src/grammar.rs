//! The grammar of the language, as functions from token sequences to
//! program trees.
//!
//! Every rule reads the tokens from a position on, left to right, with
//! one token of lookahead, and never goes back. The first rule that fails
//! ends the parse with its error.

use vstd::prelude::*;
use crate::ast::{
    all_well_formed, is_relation, ComparisonView, ExpressionView, PrimaryView, PrintMessageView,
    StatementView, TermCompView, TermView, UnaryView,
};
use crate::symbols::with_name;
use crate::token::TokenView;

verus! {

/// Why parsing stopped.
#[derive(Debug, Clone, Copy, PartialEq, Eq, Structural)]
pub enum ParseError {
    /// A statement needs a name where something else stands.
    ExpectedIdentifier,
    /// `INPUT`, `LABEL` or `GOTO` with its name is not followed by a line break.
    ExpectedNewline,
    /// `GOTO` names a label that no earlier `LABEL` declares.
    UndeclaredLabel,
    /// `LET` with its name is not followed by `=`.
    ExpectedAssign,
    /// A `LET` statement is not followed by a line break.
    ExpectedNewlineAfterLet,
    /// A `PRINT` statement is not followed by a line break.
    ExpectedNewlineAfterPrint,
    /// The comparison of an `IF` is not followed by `THEN`.
    ExpectedThen,
    /// `THEN` is not followed by a line break.
    ExpectedNewlineAfterThen,
    /// The body of an `IF` is not closed by `ENDIF` and a line break.
    ExpectedNewlineAfterEndIf,
    /// The comparison of a `WHILE` is not followed by `REPEAT`.
    ExpectedRepeat,
    /// `REPEAT` is not followed by a line break.
    ExpectedNewlineAfterRepeat,
    /// The body of a `WHILE` is not closed by `ENDWHILE` and a line break.
    ExpectedNewlineAfterEndWhile,
    /// A comparison has no relation after its left side.
    ExpectedOperator,
    /// An expression uses a variable that no earlier statement declares.
    UndeclaredIdentifier,
    /// An expression needs a number or a variable where something else stands.
    ExpectedPrimary,
    /// A line starts with a token that starts no statement.
    StatementNotImplemented,
}

impl ParseError {
    /// A short description of the error.
    pub open spec fn description(self) -> Seq<char> {
        match self {
            ParseError::ExpectedIdentifier => "Expected identifier"@,
            ParseError::ExpectedNewline => "Expected newline"@,
            ParseError::UndeclaredLabel => "Attempt to GOTO undeclared label"@,
            ParseError::ExpectedAssign => "Expected '='"@,
            ParseError::ExpectedNewlineAfterLet => "Expected newline after 'LET' statement"@,
            ParseError::ExpectedNewlineAfterPrint => "Expected newline after 'PRINT' statement"@,
            ParseError::ExpectedThen => "Expected 'THEN' after 'IF' comparison"@,
            ParseError::ExpectedNewlineAfterThen => "Expected newline after 'THEN'"@,
            ParseError::ExpectedNewlineAfterEndIf => "Expected newline after 'ENDIF'"@,
            ParseError::ExpectedRepeat => "Expected 'REPEAT' after 'WHILE' comparison"@,
            ParseError::ExpectedNewlineAfterRepeat => "Expected newline after 'REPEAT'"@,
            ParseError::ExpectedNewlineAfterEndWhile => "Expected newline after 'ENDWHILE'"@,
            ParseError::ExpectedOperator => "Expected operator!"@,
            ParseError::UndeclaredIdentifier => "Undeclared identifier!"@,
            ParseError::ExpectedPrimary => "expected primary token"@,
            ParseError::StatementNotImplemented => "statement not implemented"@,
        }
    }

    /// A short description of the error.
    pub fn message(&self) -> (text: &'static str)
        ensures
            text@ == self.description(),
    {
        match self {
            ParseError::ExpectedIdentifier => "Expected identifier",
            ParseError::ExpectedNewline => "Expected newline",
            ParseError::UndeclaredLabel => "Attempt to GOTO undeclared label",
            ParseError::ExpectedAssign => "Expected '='",
            ParseError::ExpectedNewlineAfterLet => "Expected newline after 'LET' statement",
            ParseError::ExpectedNewlineAfterPrint => "Expected newline after 'PRINT' statement",
            ParseError::ExpectedThen => "Expected 'THEN' after 'IF' comparison",
            ParseError::ExpectedNewlineAfterThen => "Expected newline after 'THEN'",
            ParseError::ExpectedNewlineAfterEndIf => "Expected newline after 'ENDIF'",
            ParseError::ExpectedRepeat => "Expected 'REPEAT' after 'WHILE' comparison",
            ParseError::ExpectedNewlineAfterRepeat => "Expected newline after 'REPEAT'",
            ParseError::ExpectedNewlineAfterEndWhile => "Expected newline after 'ENDWHILE'",
            ParseError::ExpectedOperator => "Expected operator!",
            ParseError::UndeclaredIdentifier => "Undeclared identifier!",
            ParseError::ExpectedPrimary => "expected primary token",
            ParseError::StatementNotImplemented => "statement not implemented",
        }
    }
}

/// The keywords of the statements that are a keyword and a name.
#[derive(Debug, Clone, Copy, PartialEq, Eq, Structural)]
pub enum NameKeyword {
    Goto,
    Label,
    Input,
}

/// The names that the parser has met so far, each list in the order of
/// first mention.
pub struct ScopeView {
    /// The variables that `LET` and `INPUT` statements declare.
    pub symbols: Seq<Seq<char>>,
    /// The labels that `LABEL` statements declare.
    pub labels_declared: Seq<Seq<char>>,
    /// The labels that `GOTO` statements jump to.
    pub labels_gotoed: Seq<Seq<char>>,
}

impl ScopeView {
    /// The scope of a program that has declared nothing.
    pub open spec fn empty() -> ScopeView {
        ScopeView {
            symbols: Seq::empty(),
            labels_declared: Seq::empty(),
            labels_gotoed: Seq::empty(),
        }
    }

    /// The scope after the variable `name` was declared.
    pub open spec fn declare(self, name: Seq<char>) -> ScopeView {
        ScopeView { symbols: with_name(self.symbols, name), ..self }
    }

    /// The scope after the label `name` was declared.
    pub open spec fn declare_label(self, name: Seq<char>) -> ScopeView {
        ScopeView { labels_declared: with_name(self.labels_declared, name), ..self }
    }

    /// The scope after a jump to the label `name`.
    pub open spec fn jump_to(self, name: Seq<char>) -> ScopeView {
        ScopeView { labels_gotoed: with_name(self.labels_gotoed, name), ..self }
    }
}

/// What an expression rule made of the tokens from some position on, and
/// the position after the tokens that it took.
pub struct Parsed<T> {
    pub value: Result<T, ParseError>,
    pub next: int,
}

/// What a statement rule made of the tokens from some position on: the
/// statement and the position after it, or the error; and the scope that
/// the rule leaves behind in either case.
pub struct Step {
    pub outcome: Result<(StatementView, int), ParseError>,
    pub scope: ScopeView,
}

/// What the statement-sequence rule made of the tokens from some position
/// on: the statements and the position after them, or the error; and the
/// scope that the rule leaves behind in either case.
pub struct Block {
    pub outcome: Result<(Seq<StatementView>, int), ParseError>,
    pub scope: ScopeView,
}

/// The token at `pos`, if there is one.
pub open spec fn token_at(tokens: Seq<TokenView>, pos: int) -> Option<TokenView> {
    if 0 <= pos < tokens.len() {
        Some(tokens[pos])
    } else {
        None
    }
}

/// Whether `token` is a plus or a minus sign.
pub open spec fn is_sign(token: TokenView) -> bool {
    token is Add || token is Sub
}

/// Whether `token` is a multiplication or a division sign.
pub open spec fn is_scaling(token: TokenView) -> bool {
    token is Mul || token is Div
}

/// Whether a term can start with `token`: with a sign, a number or a name.
pub open spec fn starts_term(token: TokenView) -> bool {
    is_sign(token) || token is Float || token is Int || token is Ident
}

/// Unary: an optional sign, then a number or a declared variable. A sign
/// that no number and no declared variable follows is an error.
pub open spec fn parse_unary(symbols: Seq<Seq<char>>, tokens: Seq<TokenView>, pos: int) -> Parsed<
    UnaryView,
> {
    let signed = token_at(tokens, pos) matches Some(sign) && is_sign(sign);
    let operator = if signed {
        token_at(tokens, pos)
    } else {
        None
    };
    let at = if signed {
        pos + 1
    } else {
        pos
    };
    match token_at(tokens, at) {
        Some(TokenView::Float(text)) => Parsed {
            value: Ok(UnaryView { operator, primary: PrimaryView::Float(text) }),
            next: at + 1,
        },
        Some(TokenView::Int(value)) => Parsed {
            value: Ok(UnaryView { operator, primary: PrimaryView::Int(value) }),
            next: at + 1,
        },
        Some(TokenView::Ident(name)) => if symbols.contains(name) {
            Parsed {
                value: Ok(UnaryView { operator, primary: PrimaryView::Ident(name) }),
                next: at + 1,
            }
        } else {
            Parsed { value: Err(ParseError::UndeclaredIdentifier), next: at }
        },
        _ => Parsed { value: Err(ParseError::ExpectedPrimary), next: at },
    }
}

/// One multiplication or division, if a scaling sign stands at `pos`:
/// the sign and a unary. After the sign a unary must follow: its error is
/// the error of the component.
pub open spec fn parse_component(
    symbols: Seq<Seq<char>>,
    tokens: Seq<TokenView>,
    pos: int,
) -> Parsed<Option<TermCompView>> {
    match token_at(tokens, pos) {
        Some(operator) => if is_scaling(operator) {
            let unary = parse_unary(symbols, tokens, pos + 1);
            match unary.value {
                Ok(operand) => Parsed {
                    value: Ok(Some(TermCompView { operator, unary: operand })),
                    next: unary.next,
                },
                Err(e) => Parsed { value: Err(e), next: unary.next },
            }
        } else {
            Parsed { value: Ok(None), next: pos }
        },
        None => Parsed { value: Ok(None), next: pos },
    }
}

/// `first` before what `rest` collected, or the error of `rest`.
pub open spec fn prepended<T>(first: T, rest: Parsed<Seq<T>>) -> Parsed<Seq<T>> {
    Parsed {
        value: match rest.value {
            Ok(items) => Ok(seq![first] + items),
            Err(e) => Err(e),
        },
        next: rest.next,
    }
}

/// The multiplications and divisions that follow the first unary of a
/// term, up to the first token that is no scaling sign. The first
/// component that fails ends the run with its error.
pub open spec fn parse_components(
    symbols: Seq<Seq<char>>,
    tokens: Seq<TokenView>,
    pos: int,
) -> Parsed<Seq<TermCompView>>
    decreases tokens.len() - pos,
{
    let first = parse_component(symbols, tokens, pos);
    match first.value {
        Ok(Some(component)) => prepended(
            component,
            parse_components(symbols, tokens, first.next),
        ),
        Ok(None) => Parsed { value: Ok(Seq::empty()), next: first.next },
        Err(e) => Parsed { value: Err(e), next: first.next },
    }
}

/// Term: a unary, then its multiplications and divisions.
pub open spec fn parse_term(symbols: Seq<Seq<char>>, tokens: Seq<TokenView>, pos: int) -> Parsed<
    TermView,
> {
    let first = parse_unary(symbols, tokens, pos);
    match first.value {
        Ok(unary) => {
            let rest = parse_components(symbols, tokens, first.next);
            match rest.value {
                Ok(components) => Parsed {
                    value: Ok(TermView { unary, components }),
                    next: rest.next,
                },
                Err(e) => Parsed { value: Err(e), next: rest.next },
            }
        },
        Err(e) => Parsed { value: Err(e), next: first.next },
    }
}

/// One component never goes back, ends inside the tokens, and takes at
/// least two tokens where there is one.
pub proof fn lemma_component_advances(symbols: Seq<Seq<char>>, tokens: Seq<TokenView>, pos: int)
    requires
        0 <= pos <= tokens.len(),
    ensures
        pos <= parse_component(symbols, tokens, pos).next <= tokens.len(),
        parse_component(symbols, tokens, pos).value matches Ok(Some(_)) ==> pos + 2
            <= parse_component(symbols, tokens, pos).next,
{
}

/// The run of components never goes back and ends inside the tokens.
pub proof fn lemma_components_advance(
    symbols: Seq<Seq<char>>,
    tokens: Seq<TokenView>,
    pos: int,
)
    requires
        0 <= pos <= tokens.len(),
    ensures
        pos <= parse_components(symbols, tokens, pos).next <= tokens.len(),
    decreases tokens.len() - pos,
{
    let first = parse_component(symbols, tokens, pos);
    if first.value matches Ok(Some(_)) {
        lemma_components_advance(symbols, tokens, first.next);
    }
}

/// A term never goes back, ends inside the tokens, and takes at least one
/// token where it succeeds.
pub proof fn lemma_term_advances(symbols: Seq<Seq<char>>, tokens: Seq<TokenView>, pos: int)
    requires
        0 <= pos <= tokens.len(),
    ensures
        pos <= parse_term(symbols, tokens, pos).next <= tokens.len(),
        parse_term(symbols, tokens, pos).value is Ok ==> pos < parse_term(
            symbols,
            tokens,
            pos,
        ).next,
{
    let first = parse_unary(symbols, tokens, pos);
    if first.value is Ok {
        lemma_components_advance(symbols, tokens, first.next);
    }
}

/// The terms that follow the first term of an expression, up to the
/// first token that starts no term. Where a sign, a number or a name
/// stands, a term must follow: the first term that fails ends the run with
/// its error.
pub open spec fn parse_terms(symbols: Seq<Seq<char>>, tokens: Seq<TokenView>, pos: int) -> Parsed<
    Seq<TermView>,
>
    decreases tokens.len() - pos,
{
    match token_at(tokens, pos) {
        Some(token) => if starts_term(token) {
            let term = parse_term(symbols, tokens, pos);
            match term.value {
                Ok(found) => {
                    proof {
                        lemma_term_advances(symbols, tokens, pos);
                    }
                    prepended(found, parse_terms(symbols, tokens, term.next))
                },
                Err(e) => Parsed { value: Err(e), next: term.next },
            }
        } else {
            Parsed { value: Ok(Seq::empty()), next: pos }
        },
        None => Parsed { value: Ok(Seq::empty()), next: pos },
    }
}

/// Expression: a term, then as many further terms as there are. Each
/// further term brings its own sign.
pub open spec fn parse_expression(
    symbols: Seq<Seq<char>>,
    tokens: Seq<TokenView>,
    pos: int,
) -> Parsed<ExpressionView> {
    let first = parse_term(symbols, tokens, pos);
    match first.value {
        Ok(first_term) => {
            let rest = parse_terms(symbols, tokens, first.next);
            match rest.value {
                Ok(other_terms) => Parsed {
                    value: Ok(ExpressionView { first_term, other_terms }),
                    next: rest.next,
                },
                Err(e) => Parsed { value: Err(e), next: rest.next },
            }
        },
        Err(e) => Parsed { value: Err(e), next: first.next },
    }
}

/// Comparison: an expression, a relation, an expression. The token after
/// the left side is taken whether or not it is a relation.
#[verifier::opaque]
pub open spec fn parse_comparison(
    symbols: Seq<Seq<char>>,
    tokens: Seq<TokenView>,
    pos: int,
) -> Parsed<ComparisonView> {
    let left = parse_expression(symbols, tokens, pos);
    match left.value {
        Ok(left_side) => match token_at(tokens, left.next) {
            Some(operator) => if is_relation(operator) {
                let right = parse_expression(symbols, tokens, left.next + 1);
                match right.value {
                    Ok(right_side) => Parsed {
                        value: Ok(
                            ComparisonView { left: left_side, operator, right: right_side },
                        ),
                        next: right.next,
                    },
                    Err(e) => Parsed { value: Err(e), next: right.next },
                }
            } else {
                Parsed { value: Err(ParseError::ExpectedOperator), next: left.next + 1 }
            },
            None => Parsed { value: Err(ParseError::ExpectedOperator), next: left.next },
        },
        Err(e) => Parsed { value: Err(e), next: left.next },
    }
}

/// The run of further terms never goes back and ends inside the tokens.
pub proof fn lemma_terms_advance(symbols: Seq<Seq<char>>, tokens: Seq<TokenView>, pos: int)
    requires
        0 <= pos <= tokens.len(),
    ensures
        pos <= parse_terms(symbols, tokens, pos).next <= tokens.len(),
    decreases tokens.len() - pos,
{
    lemma_term_advances(symbols, tokens, pos);
    let term = parse_term(symbols, tokens, pos);
    if term.value is Ok {
        lemma_terms_advance(symbols, tokens, term.next);
    }
}

/// An expression never goes back, ends inside the tokens, and takes at
/// least one token where it succeeds.
pub proof fn lemma_expression_advances(symbols: Seq<Seq<char>>, tokens: Seq<TokenView>, pos: int)
    requires
        0 <= pos <= tokens.len(),
    ensures
        pos <= parse_expression(symbols, tokens, pos).next <= tokens.len(),
        parse_expression(symbols, tokens, pos).value is Ok ==> pos < parse_expression(
            symbols,
            tokens,
            pos,
        ).next,
{
    lemma_term_advances(symbols, tokens, pos);
    let first = parse_term(symbols, tokens, pos);
    if first.value is Ok {
        lemma_terms_advance(symbols, tokens, first.next);
    }
}

/// A comparison never goes back, ends inside the tokens, and takes at
/// least three tokens where it succeeds. It succeeds only from a position
/// inside the tokens.
pub proof fn lemma_comparison_advances(symbols: Seq<Seq<char>>, tokens: Seq<TokenView>, pos: int)
    ensures
        0 <= pos <= tokens.len() ==> pos <= parse_comparison(symbols, tokens, pos).next
            <= tokens.len(),
        parse_comparison(symbols, tokens, pos).value is Ok ==> 0 <= pos && pos + 3
            <= parse_comparison(symbols, tokens, pos).next <= tokens.len(),
{
    reveal(parse_comparison);
    if 0 <= pos <= tokens.len() {
        lemma_expression_advances(symbols, tokens, pos);
        let left = parse_expression(symbols, tokens, pos);
        if left.value is Ok && left.next < tokens.len() {
            lemma_expression_advances(symbols, tokens, left.next + 1);
        }
    }
}

/// A statement rule that fails with `error` and leaves `scope` as it found it.
pub open spec fn fails(error: ParseError, scope: ScopeView) -> Step {
    Step { outcome: Err(error), scope }
}

/// Whether the token at `pos` is a line break.
pub open spec fn newline_at(tokens: Seq<TokenView>, pos: int) -> bool {
    token_at(tokens, pos) == Some(TokenView::NewLine)
}

/// `LET name = expression NEWLINE`, from the name on. The variable is
/// declared once the whole statement has been read: the expression cannot
/// use it unless an earlier statement declared it.
#[verifier::opaque]
pub open spec fn parse_let(scope: ScopeView, tokens: Seq<TokenView>, pos: int) -> Step {
    match token_at(tokens, pos) {
        Some(TokenView::Ident(name)) => if token_at(tokens, pos + 1) == Some(TokenView::Assign) {
            let right = parse_expression(scope.symbols, tokens, pos + 2);
            match right.value {
                Ok(expression) => if newline_at(tokens, right.next) {
                    Step {
                        outcome: Ok((StatementView::Let { ident: name, expression }, right.next + 1)),
                        scope: scope.declare(name),
                    }
                } else {
                    fails(ParseError::ExpectedNewlineAfterLet, scope)
                },
                Err(e) => fails(e, scope),
            }
        } else {
            fails(ParseError::ExpectedAssign, scope)
        },
        _ => fails(ParseError::ExpectedIdentifier, scope),
    }
}

/// `PRINT (string | expression) NEWLINE`, from the message on.
#[verifier::opaque]
pub open spec fn parse_print(scope: ScopeView, tokens: Seq<TokenView>, pos: int) -> Step {
    match token_at(tokens, pos) {
        Some(TokenView::StrLit(text)) => if newline_at(tokens, pos + 1) {
            Step {
                outcome: Ok((StatementView::Print(PrintMessageView::StrLit(text)), pos + 2)),
                scope,
            }
        } else {
            fails(ParseError::ExpectedNewlineAfterPrint, scope)
        },
        _ => {
            let message = parse_expression(scope.symbols, tokens, pos);
            match message.value {
                Ok(expression) => if newline_at(tokens, message.next) {
                    Step {
                        outcome: Ok(
                            (
                                StatementView::Print(PrintMessageView::Expression(expression)),
                                message.next + 1,
                            ),
                        ),
                        scope,
                    }
                } else {
                    fails(ParseError::ExpectedNewlineAfterPrint, scope)
                },
                Err(e) => fails(e, scope),
            }
        },
    }
}

/// `GOTO name NEWLINE`, `LABEL name NEWLINE` or `INPUT name NEWLINE`, from
/// the name on; `kind` is the keyword. A `GOTO` needs its label declared
/// by an earlier `LABEL`.
#[verifier::opaque]
pub open spec fn parse_ident_statement(
    scope: ScopeView,
    tokens: Seq<TokenView>,
    pos: int,
    kind: NameKeyword,
) -> Step {
    match token_at(tokens, pos) {
        Some(TokenView::Ident(name)) => if newline_at(tokens, pos + 1) {
            match kind {
                NameKeyword::Goto => if scope.labels_declared.contains(name) {
                    Step {
                        outcome: Ok((StatementView::Goto { ident: name }, pos + 2)),
                        scope: scope.jump_to(name),
                    }
                } else {
                    fails(ParseError::UndeclaredLabel, scope)
                },
                NameKeyword::Label => Step {
                    outcome: Ok((StatementView::Label { ident: name }, pos + 2)),
                    scope: scope.declare_label(name),
                },
                NameKeyword::Input => Step {
                    outcome: Ok((StatementView::Input { ident: name }, pos + 2)),
                    scope: scope.declare(name),
                },
            }
        } else {
            fails(ParseError::ExpectedNewline, scope)
        },
        _ => fails(ParseError::ExpectedIdentifier, scope),
    }
}

/// The keyword that follows the comparison of an `IF` or of a `WHILE`.
pub open spec fn opening_keyword(repeats: bool) -> TokenView {
    if repeats {
        TokenView::Repeat
    } else {
        TokenView::Then
    }
}

/// The keyword that closes the body of an `IF` or of a `WHILE`.
pub open spec fn closing_keyword(repeats: bool) -> TokenView {
    if repeats {
        TokenView::EndWhile
    } else {
        TokenView::EndIf
    }
}

/// `IF comparison THEN NEWLINE statements ENDIF NEWLINE`, or with
/// `repeats` `WHILE comparison REPEAT NEWLINE statements ENDWHILE NEWLINE`,
/// from the comparison on.
pub open spec fn parse_guarded(
    scope: ScopeView,
    tokens: Seq<TokenView>,
    pos: int,
    repeats: bool,
) -> Step
    decreases tokens.len() - pos, 0nat,
{
    let guard = parse_comparison(scope.symbols, tokens, pos);
    match guard.value {
        Ok(comparison) => if token_at(tokens, guard.next) != Some(opening_keyword(repeats)) {
            fails(
                if repeats {
                    ParseError::ExpectedRepeat
                } else {
                    ParseError::ExpectedThen
                },
                scope,
            )
        } else if !newline_at(tokens, guard.next + 1) {
            fails(
                if repeats {
                    ParseError::ExpectedNewlineAfterRepeat
                } else {
                    ParseError::ExpectedNewlineAfterThen
                },
                scope,
            )
        } else {
            proof {
                lemma_comparison_advances(scope.symbols, tokens, pos);
            }
            let body = parse_block(
                scope,
                tokens,
                guard.next + 2,
                Some(closing_keyword(repeats)),
            );
            match body.outcome {
                Ok((statements, end)) => if newline_at(tokens, end) {
                    Step {
                        outcome: Ok(
                            (
                                if repeats {
                                    StatementView::While { comparison, statements }
                                } else {
                                    StatementView::If { comparison, statements }
                                },
                                end + 1,
                            ),
                        ),
                        scope: body.scope,
                    }
                } else {
                    fails(
                        if repeats {
                            ParseError::ExpectedNewlineAfterEndWhile
                        } else {
                            ParseError::ExpectedNewlineAfterEndIf
                        },
                        body.scope,
                    )
                },
                Err(e) => fails(e, body.scope),
            }
        },
        Err(e) => fails(e, scope),
    }
}

/// The statement whose keyword stands at `pos`. A token that starts no
/// statement is an error.
pub open spec fn parse_statement(scope: ScopeView, tokens: Seq<TokenView>, pos: int) -> Step
    decreases tokens.len() - pos, 1nat,
{
    match token_at(tokens, pos) {
        Some(TokenView::Let) => parse_let(scope, tokens, pos + 1),
        Some(TokenView::Print) => parse_print(scope, tokens, pos + 1),
        Some(TokenView::If) => parse_guarded(scope, tokens, pos + 1, false),
        Some(TokenView::While) => parse_guarded(scope, tokens, pos + 1, true),
        Some(TokenView::Input) => parse_ident_statement(
            scope,
            tokens,
            pos + 1,
            NameKeyword::Input,
        ),
        Some(TokenView::Goto) => parse_ident_statement(
            scope,
            tokens,
            pos + 1,
            NameKeyword::Goto,
        ),
        Some(TokenView::Label) => parse_ident_statement(
            scope,
            tokens,
            pos + 1,
            NameKeyword::Label,
        ),
        _ => fails(ParseError::StatementNotImplemented, scope),
    }
}

/// The statements from `pos` on, up to the end of the tokens or, where
/// `sentinel` is given, up to and including the first token at the start of
/// a statement that equals it. Line breaks between statements are skipped.
/// The first statement that fails ends the rule with its error.
///
/// A statement always takes its keyword and ends inside the tokens (see
/// [`lemma_statement_advances`]); the definition asks for it, so that it
/// is seen to end.
pub open spec fn parse_block(
    scope: ScopeView,
    tokens: Seq<TokenView>,
    pos: int,
    sentinel: Option<TokenView>,
) -> Block
    decreases tokens.len() - pos, 2nat,
{
    match token_at(tokens, pos) {
        None => Block { outcome: Ok((Seq::empty(), pos)), scope },
        Some(token) => if sentinel == Some(token) {
            Block { outcome: Ok((Seq::empty(), pos + 1)), scope }
        } else if token is NewLine {
            parse_block(scope, tokens, pos + 1, sentinel)
        } else {
            let first = parse_statement(scope, tokens, pos);
            match first.outcome {
                Ok((statement, next)) => if pos < next <= tokens.len() {
                    let rest = parse_block(first.scope, tokens, next, sentinel);
                    match rest.outcome {
                        Ok((statements, end)) => Block {
                            outcome: Ok((seq![statement] + statements, end)),
                            scope: rest.scope,
                        },
                        Err(e) => rest,
                    }
                } else {
                    Block { outcome: Err(ParseError::StatementNotImplemented), scope: first.scope }
                },
                Err(e) => Block { outcome: Err(e), scope: first.scope },
            }
        },
    }
}

/// What parsing `tokens` as a whole program gives: the statements, or the
/// error of the first statement that fails.
pub open spec fn parse_program(scope: ScopeView, tokens: Seq<TokenView>) -> Result<
    Seq<StatementView>,
    ParseError,
> {
    match parse_block(scope, tokens, 0, None).outcome {
        Ok((statements, _)) => Ok(statements),
        Err(e) => Err(e),
    }
}

/// The scope that parsing `tokens` as a whole program leaves behind,
/// whether or not it fails.
pub open spec fn scope_after(scope: ScopeView, tokens: Seq<TokenView>) -> ScopeView {
    parse_block(scope, tokens, 0, None).scope
}

/// A statement takes at least two tokens and ends inside the tokens.
pub proof fn lemma_statement_advances(scope: ScopeView, tokens: Seq<TokenView>, pos: int)
    requires
        0 <= pos <= tokens.len(),
    ensures
        parse_statement(scope, tokens, pos).outcome matches Ok((_, next)) ==> pos + 2 <= next
            <= tokens.len(),
    decreases tokens.len() - pos, 1nat,
{
    reveal(parse_let);
    reveal(parse_print);
    reveal(parse_ident_statement);
    if pos < tokens.len() {
        lemma_expression_advances(scope.symbols, tokens, pos + 1);
        if pos + 2 < tokens.len() {
            lemma_expression_advances(scope.symbols, tokens, pos + 3);
        }
        lemma_guarded_advances(scope, tokens, pos + 1, false);
        lemma_guarded_advances(scope, tokens, pos + 1, true);
    }
}

/// An `IF` or a `WHILE` takes at least six tokens after its keyword and
/// ends inside the tokens.
pub proof fn lemma_guarded_advances(
    scope: ScopeView,
    tokens: Seq<TokenView>,
    pos: int,
    repeats: bool,
)
    requires
        0 <= pos <= tokens.len(),
    ensures
        parse_guarded(scope, tokens, pos, repeats).outcome matches Ok((_, next)) ==> pos + 6
            <= next <= tokens.len(),
    decreases tokens.len() - pos, 0nat,
{
    lemma_comparison_advances(scope.symbols, tokens, pos);
    let guard = parse_comparison(scope.symbols, tokens, pos);
    if guard.value is Ok && token_at(tokens, guard.next) == Some(opening_keyword(repeats))
        && newline_at(tokens, guard.next + 1) {
        lemma_block_advances(scope, tokens, guard.next + 2, Some(closing_keyword(repeats)));
    }
}

/// A sequence of statements never goes back and ends inside the tokens.
pub proof fn lemma_block_advances(
    scope: ScopeView,
    tokens: Seq<TokenView>,
    pos: int,
    sentinel: Option<TokenView>,
)
    requires
        0 <= pos <= tokens.len(),
    ensures
        parse_block(scope, tokens, pos, sentinel).outcome matches Ok((_, end)) ==> pos <= end
            <= tokens.len(),
    decreases tokens.len() - pos, 2nat,
{
    match token_at(tokens, pos) {
        None => {},
        Some(token) => {
            if sentinel == Some(token) {
            } else if token is NewLine {
                lemma_block_advances(scope, tokens, pos + 1, sentinel);
            } else {
                lemma_statement_advances(scope, tokens, pos);
                let first = parse_statement(scope, tokens, pos);
                match first.outcome {
                    Ok((_, next)) => {
                        lemma_block_advances(first.scope, tokens, next, sentinel);
                    },
                    Err(_) => {},
                }
            }
        },
    }
}

/// The components that the grammar accepts hold only scaling signs and
/// signs.
pub proof fn lemma_components_well_formed(
    symbols: Seq<Seq<char>>,
    tokens: Seq<TokenView>,
    pos: int,
)
    ensures
        parse_components(symbols, tokens, pos).value matches Ok(items) ==> forall|i: int|
            0 <= i < items.len() ==> (#[trigger] items[i]).well_formed(),
    decreases tokens.len() - pos,
{
    let first = parse_component(symbols, tokens, pos);
    if first.value matches Ok(Some(_)) {
        lemma_components_well_formed(symbols, tokens, first.next);
        match (parse_components(symbols, tokens, first.next).value, parse_components(
            symbols,
            tokens,
            pos,
        ).value) {
            (Ok(rest), Ok(all)) => {
                assert forall|i: int| 0 <= i < all.len() implies (#[trigger] all[i]).well_formed() by {
                    if i > 0 {
                        assert(all[i] == rest[i - 1]);
                    }
                }
            },
            _ => {},
        }
    }
}

/// The terms that the grammar accepts are well formed.
pub proof fn lemma_term_well_formed(symbols: Seq<Seq<char>>, tokens: Seq<TokenView>, pos: int)
    ensures
        parse_term(symbols, tokens, pos).value matches Ok(term) ==> term.well_formed(),
{
    let first = parse_unary(symbols, tokens, pos);
    lemma_components_well_formed(symbols, tokens, first.next);
}

/// The further terms that the grammar accepts are well formed.
pub proof fn lemma_terms_well_formed(symbols: Seq<Seq<char>>, tokens: Seq<TokenView>, pos: int)
    ensures
        parse_terms(symbols, tokens, pos).value matches Ok(items) ==> forall|i: int|
            0 <= i < items.len() ==> (#[trigger] items[i]).well_formed(),
    decreases tokens.len() - pos,
{
    if 0 <= pos < tokens.len() && starts_term(tokens[pos]) {
        lemma_term_well_formed(symbols, tokens, pos);
        lemma_term_advances(symbols, tokens, pos);
        let term = parse_term(symbols, tokens, pos);
        if term.value is Ok {
            lemma_terms_well_formed(symbols, tokens, term.next);
            match (parse_terms(symbols, tokens, term.next).value, parse_terms(
                symbols,
                tokens,
                pos,
            ).value) {
                (Ok(rest), Ok(all)) => {
                    assert forall|i: int| 0 <= i < all.len() implies (
                    #[trigger] all[i]).well_formed() by {
                        if i > 0 {
                            assert(all[i] == rest[i - 1]);
                        }
                    }
                },
                _ => {},
            }
        }
    }
}

/// The expressions that the grammar accepts are well formed.
pub proof fn lemma_expression_well_formed(
    symbols: Seq<Seq<char>>,
    tokens: Seq<TokenView>,
    pos: int,
)
    ensures
        parse_expression(symbols, tokens, pos).value matches Ok(expression)
            ==> expression.well_formed(),
{
    lemma_term_well_formed(symbols, tokens, pos);
    lemma_terms_well_formed(symbols, tokens, parse_term(symbols, tokens, pos).next);
}

/// The comparisons that the grammar accepts are well formed.
pub proof fn lemma_comparison_well_formed(
    symbols: Seq<Seq<char>>,
    tokens: Seq<TokenView>,
    pos: int,
)
    ensures
        parse_comparison(symbols, tokens, pos).value matches Ok(comparison)
            ==> comparison.well_formed(),
{
    reveal(parse_comparison);
    lemma_expression_well_formed(symbols, tokens, pos);
    lemma_expression_well_formed(
        symbols,
        tokens,
        parse_expression(symbols, tokens, pos).next + 1,
    );
}

/// The statements that the grammar accepts are well formed.
pub proof fn lemma_statement_well_formed(scope: ScopeView, tokens: Seq<TokenView>, pos: int)
    ensures
        parse_statement(scope, tokens, pos).outcome matches Ok((statement, _))
            ==> statement.well_formed(),
    decreases tokens.len() - pos, 1nat,
{
    reveal(parse_let);
    reveal(parse_print);
    reveal(parse_ident_statement);
    lemma_expression_well_formed(scope.symbols, tokens, pos + 1);
    lemma_expression_well_formed(scope.symbols, tokens, pos + 3);
    if token_at(tokens, pos) is Some {
        lemma_guarded_well_formed(scope, tokens, pos + 1, false);
        lemma_guarded_well_formed(scope, tokens, pos + 1, true);
    }
}

/// The `IF` and `WHILE` statements that the grammar accepts are well
/// formed.
pub proof fn lemma_guarded_well_formed(
    scope: ScopeView,
    tokens: Seq<TokenView>,
    pos: int,
    repeats: bool,
)
    ensures
        parse_guarded(scope, tokens, pos, repeats).outcome matches Ok((statement, _))
            ==> statement.well_formed(),
    decreases tokens.len() - pos, 0nat,
{
    lemma_comparison_well_formed(scope.symbols, tokens, pos);
    let guard = parse_comparison(scope.symbols, tokens, pos);
    if guard.value is Ok && token_at(tokens, guard.next) == Some(opening_keyword(repeats))
        && newline_at(tokens, guard.next + 1) {
        lemma_comparison_advances(scope.symbols, tokens, pos);
        lemma_block_well_formed(scope, tokens, guard.next + 2, Some(closing_keyword(repeats)));
    }
}

/// The statement sequences that the grammar accepts are well formed:
/// every operator in them is one that its place allows.
pub proof fn lemma_block_well_formed(
    scope: ScopeView,
    tokens: Seq<TokenView>,
    pos: int,
    sentinel: Option<TokenView>,
)
    ensures
        parse_block(scope, tokens, pos, sentinel).outcome matches Ok((statements, _))
            ==> all_well_formed(statements),
    decreases tokens.len() - pos, 2nat,
{
    match token_at(tokens, pos) {
        None => {},
        Some(token) => {
            if sentinel == Some(token) {
            } else if token is NewLine {
                lemma_block_well_formed(scope, tokens, pos + 1, sentinel);
            } else {
                lemma_statement_well_formed(scope, tokens, pos);
                let first = parse_statement(scope, tokens, pos);
                match first.outcome {
                    Ok((statement, next)) => {
                        if pos < next <= tokens.len() {
                            lemma_block_well_formed(first.scope, tokens, next, sentinel);
                            let rest = parse_block(first.scope, tokens, next, sentinel);
                            match rest.outcome {
                                Ok((found, _)) => {
                                    let all = seq![statement] + found;
                                    assert forall|i: int| 0 <= i < all.len() implies (
                                    #[trigger] all[i]).well_formed() by {
                                        if i > 0 {
                                            assert(all[i] == found[i - 1]);
                                        }
                                    }
                                },
                                Err(_) => {},
                            }
                        }
                    },
                    Err(_) => {},
                }
            }
        },
    }
}

} // verus!
