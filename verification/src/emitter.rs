//! The emitter: a program tree to C source text.

use vstd::prelude::*;
use crate::ast::{
    all_well_formed, is_relation, lemma_block_view, lemma_guarded_well_formed_parts, Comparison, ComparisonView, Expression, ExpressionView, Primary,
    PrimaryView, PrintMessage, PrintMessageView, Statement, StatementView, Term, TermComp,
    TermCompView, TermView, Unary, UnaryView,
};
use crate::parser::{Program, ProgramView};
use crate::text::{integer_text, integer_to_string};
use crate::token::{Token, TokenView};

verus! {

/// The texts that `text` gives for `items`, one after the other.
pub open spec fn joined<T>(items: Seq<T>, text: spec_fn(T) -> Seq<char>) -> Seq<char>
    decreases items.len(),
{
    if items.len() == 0 {
        Seq::empty()
    } else {
        joined(items.drop_last(), text) + text(items.last())
    }
}

/// A number as it is written, or a variable's name.
pub open spec fn primary_text(primary: PrimaryView) -> Seq<char> {
    match primary {
        PrimaryView::Float(text) => text,
        PrimaryView::Int(value) => integer_text(value),
        PrimaryView::Ident(name) => name,
    }
}

/// The sign `+` or `-`.
pub open spec fn sign_text(sign: TokenView) -> Seq<char>
    recommends
        sign is Add || sign is Sub,
{
    if sign is Add {
        "+"@
    } else {
        "-"@
    }
}

/// The sign, if there is one, and the primary.
pub open spec fn unary_text(unary: UnaryView) -> Seq<char> {
    match unary.operator {
        Some(sign) => sign_text(sign) + primary_text(unary.primary),
        None => primary_text(unary.primary),
    }
}

/// The sign `*` or `/`.
pub open spec fn scaling_text(operator: TokenView) -> Seq<char>
    recommends
        operator is Mul || operator is Div,
{
    if operator is Mul {
        "*"@
    } else {
        "/"@
    }
}

/// The scaling sign and the unary.
pub open spec fn component_text(component: TermCompView) -> Seq<char> {
    scaling_text(component.operator) + unary_text(component.unary)
}

/// The unary and its multiplications and divisions, without blanks.
pub open spec fn term_text(term: TermView) -> Seq<char> {
    unary_text(term.unary) + joined(
        term.components,
        |component: TermCompView| component_text(component),
    )
}

/// The terms, without blanks: each term after the first starts with its
/// own sign.
pub open spec fn expression_text(expression: ExpressionView) -> Seq<char> {
    term_text(expression.first_term) + joined(
        expression.other_terms,
        |term: TermView| term_text(term),
    )
}

/// The relation as C writes it.
pub open spec fn relation_text(operator: TokenView) -> Seq<char>
    recommends
        is_relation(operator),
{
    match operator {
        TokenView::Equals => "=="@,
        TokenView::NotEquals => "!="@,
        TokenView::Gt => ">"@,
        TokenView::Gte => ">="@,
        TokenView::Lt => "<"@,
        _ => "<="@,
    }
}

/// The two sides with the relation between them.
pub open spec fn comparison_text(comparison: ComparisonView) -> Seq<char> {
    expression_text(comparison.left) + relation_text(comparison.operator) + expression_text(
        comparison.right,
    )
}

/// The C text of one statement. It ends with a line break.
pub open spec fn statement_text(statement: StatementView) -> Seq<char>
    decreases statement,
{
    match statement {
        StatementView::Let { ident, expression } => ident + " = "@ + expression_text(expression)
            + ";"@ + "\n"@,
        StatementView::Print(PrintMessageView::StrLit(message)) => "printf(\""@ + message
            + "\");"@ + "\n"@,
        StatementView::Print(PrintMessageView::Expression(expression)) => "printf(\""@
            + "%f\\n\","@ + expression_text(expression) + ");"@ + "\n"@,
        StatementView::If { comparison, statements } => "if ("@ + comparison_text(comparison)
            + ") {\n"@ + block_text(statements) + "}"@ + "\n"@,
        StatementView::While { comparison, statements } => "while ("@ + comparison_text(
            comparison,
        ) + ") {\n"@ + block_text(statements) + "}"@ + "\n"@,
        StatementView::Input { ident } => "if (0 == scanf(\"%f\", &"@ + ident + ")) {\n"@ + ident
            + " = 0;\n"@ + "scanf(\"%*s\");\n"@ + "}\n"@ + "\n"@,
        StatementView::Label { ident } => ident + ":"@ + "\n"@,
        StatementView::Goto { ident } => "goto "@ + ident + ";"@ + "\n"@,
    }
}

/// The C texts of the statements, one after the other.
pub open spec fn block_text(statements: Seq<StatementView>) -> Seq<char>
    decreases statements,
{
    if statements.len() == 0 {
        Seq::empty()
    } else {
        block_text(statements.drop_last()) + statement_text(statements.last())
    }
}

/// The declaration of the variable `name`.
pub open spec fn declaration_text(name: Seq<char>) -> Seq<char> {
    "float "@ + name + ";\n"@
}

/// What every emitted program starts with.
pub open spec fn header_text() -> Seq<char> {
    "#include <stdio.h>\n"@ + "int main(void){\n"@
}

/// What every emitted program ends with.
pub open spec fn footer_text() -> Seq<char> {
    "return 0;\n"@ + "}\n"@
}

/// The C text of a program: the header, one declaration for each
/// variable in the order of first declaration, the statements in source
/// order, and the footer.
pub open spec fn program_text(program: ProgramView) -> Seq<char> {
    header_text() + joined(program.scope.symbols, |name: Seq<char>| declaration_text(name))
        + block_text(program.statements) + footer_text()
}

/// `text`, with a line break added unless it is empty or ends with one.
pub open spec fn terminated(text: Seq<char>) -> Seq<char> {
    if text.len() == 0 || text.last() == '\n' {
        text
    } else {
        text.push('\n')
    }
}

impl Primary {
    /// Renders the primary.
    fn emit(&self) -> (text: String)
        ensures
            text@ == primary_text(self@),
    {
        match self {
            Primary::Float(value) => value.clone(),
            Primary::Int(value) => integer_to_string(*value),
            Primary::Ident(id) => id.clone(),
        }
    }
}

impl Unary {
    /// Renders the unary.
    fn emit(&self) -> (text: String)
        requires
            self@.well_formed(),
        ensures
            text@ == unary_text(self@),
    {
        match &self.operator {
            None => self.primary.emit(),
            Some(operator) => {
                let mut text = String::new();
                match operator {
                    Token::Add => text.append("+"),
                    _ => text.append("-"),
                }
                text.append(self.primary.emit().as_str());
                assert(text@ =~= unary_text(self@));
                text
            },
        }
    }
}

impl TermComp {
    /// Renders the component.
    fn emit(&self) -> (text: String)
        requires
            self@.well_formed(),
        ensures
            text@ == component_text(self@),
    {
        let mut text = String::new();
        match &self.operator {
            Token::Mul => text.append("*"),
            _ => text.append("/"),
        }
        text.append(self.unary.emit().as_str());
        assert(text@ =~= component_text(self@));
        text
    }
}

impl Term {
    /// Renders the term.
    fn emit(&self) -> (text: String)
        requires
            self@.well_formed(),
        ensures
            text@ == term_text(self@),
    {
        let mut term_str = self.unary.emit();
        let ghost render = |component: TermCompView| component_text(component);
        let ghost items = self.components.deep_view();
        let mut i: usize = 0;
        assert(items.take(0) =~= Seq::<TermCompView>::empty());
        while i < self.components.len()
            invariant
                i <= self.components.len(),
                items == self.components.deep_view(),
                self@.well_formed(),
                render == |component: TermCompView| component_text(component),
                term_str@ == unary_text(self@.unary) + joined(items.take(i as int), render),
            decreases self.components.len() - i,
        {
            let comp = &self.components[i];
            assert(items[i as int] == comp@);
            assert(self@.components[i as int].well_formed());
            let ghost before = term_str@;
            term_str.append(comp.emit().as_str());
            proof {
                assert(items.take(i + 1).drop_last() =~= items.take(i as int));
                assert(term_str@ =~= unary_text(self@.unary) + joined(
                    items.take(i + 1),
                    render,
                ));
            }
            i += 1;
        }
        assert(items.take(i as int) =~= items);
        term_str
    }
}

impl Expression {
    /// Renders the expression.
    fn emit(&self) -> (text: String)
        requires
            self@.well_formed(),
        ensures
            text@ == expression_text(self@),
    {
        let mut expr_str = self.first_term.emit();
        let ghost render = |term: TermView| term_text(term);
        let ghost items = self.other_terms.deep_view();
        let mut i: usize = 0;
        assert(items.take(0) =~= Seq::<TermView>::empty());
        while i < self.other_terms.len()
            invariant
                i <= self.other_terms.len(),
                items == self.other_terms.deep_view(),
                self@.well_formed(),
                render == |term: TermView| term_text(term),
                expr_str@ == term_text(self@.first_term) + joined(items.take(i as int), render),
            decreases self.other_terms.len() - i,
        {
            let term = &self.other_terms[i];
            assert(items[i as int] == term@);
            assert(self@.other_terms[i as int].well_formed());
            expr_str.append(term.emit().as_str());
            proof {
                assert(items.take(i + 1).drop_last() =~= items.take(i as int));
                assert(expr_str@ =~= term_text(self@.first_term) + joined(
                    items.take(i + 1),
                    render,
                ));
            }
            i += 1;
        }
        assert(items.take(i as int) =~= items);
        expr_str
    }
}

impl Comparison {
    /// Renders the comparison.
    fn emit(&self) -> (text: String)
        requires
            self@.well_formed(),
        ensures
            text@ == comparison_text(self@),
    {
        let op = match &self.operator {
            Token::Equals => "==",
            Token::NotEquals => "!=",
            Token::Gt => ">",
            Token::Gte => ">=",
            Token::Lt => "<",
            _ => "<=",
        };
        let mut text = self.left.emit();
        text.append(op);
        text.append(self.right.emit().as_str());
        text
    }
}

/// Appends the C texts of `statements` to `out`.
fn emit_block(out: &mut String, statements: &Vec<Statement>)
    requires
        all_well_formed(statements.deep_view()),
    ensures
        final(out)@ == old(out)@ + block_text(statements.deep_view()),
    decreases statements,
{
    let ghost items = statements.deep_view();
    let ghost start = out@;
    let mut i: usize = 0;
    assert(items.take(0) =~= Seq::<StatementView>::empty());
    assert(start + block_text(items.take(0)) =~= start);
    while i < statements.len()
        invariant
            i <= statements.len(),
            items == statements.deep_view(),
            all_well_formed(items),
            out@ == start + block_text(items.take(i as int)),
        decreases statements.len() - i,
    {
        let stat = &statements[i];
        assert(items[i as int] == stat@);
        out.append(stat.emit().as_str());
        proof {
            assert(items.take(i + 1).drop_last() =~= items.take(i as int));
            assert(out@ =~= start + block_text(items.take(i + 1)));
        }
        i += 1;
    }
    assert(items.take(i as int) =~= items);
}

impl Statement {
    /// Renders the statement as C text.
    fn emit(&self) -> (text: String)
        requires
            self@.well_formed(),
        ensures
            text@ == statement_text(self@),
        decreases self,
    {
        let mut statement_str = String::new();
        match self {
            Statement::Let { ident, expression } => {
                statement_str.append(ident.as_str());
                statement_str.append(" = ");
                statement_str.append(expression.emit().as_str());
                statement_str.append(";");
            },
            Statement::Print(msg) => {
                statement_str.append("printf(\"");
                match msg {
                    PrintMessage::StrLit(message) => {
                        statement_str.append(message.as_str());
                        statement_str.append("\");");
                    },
                    PrintMessage::Expression(expr) => {
                        statement_str.append("%f\\n\",");
                        statement_str.append(expr.emit().as_str());
                        statement_str.append(");");
                    },
                };
            },
            Statement::If { comparison, statements } => {
                proof {
                    lemma_block_view(*statements, *comparison);
                    lemma_guarded_well_formed_parts(comparison@, statements.deep_view());
                }
                statement_str.append("if (");
                statement_str.append(comparison.emit().as_str());
                statement_str.append(") {\n");
                emit_block(&mut statement_str, statements);
                statement_str.append("}");
            },
            Statement::While { comparison, statements } => {
                proof {
                    lemma_block_view(*statements, *comparison);
                    lemma_guarded_well_formed_parts(comparison@, statements.deep_view());
                }
                statement_str.append("while (");
                statement_str.append(comparison.emit().as_str());
                statement_str.append(") {\n");
                emit_block(&mut statement_str, statements);
                statement_str.append("}");
            },
            Statement::Input { ident } => {
                statement_str.append("if (0 == scanf(\"%f\", &");
                statement_str.append(ident.as_str());
                statement_str.append(")) {\n");
                statement_str.append(ident.as_str());
                statement_str.append(" = 0;\n");
                statement_str.append("scanf(\"%*s\");\n");
                statement_str.append("}\n");
            },
            Statement::Label { ident } => {
                statement_str.append(ident.as_str());
                statement_str.append(":");
            },
            Statement::Goto { ident } => {
                statement_str.append("goto ");
                statement_str.append(ident.as_str());
                statement_str.append(";");
            },
        };
        statement_str.append("\n");
        assert(statement_str@ =~= statement_text(self@));
        statement_str
    }
}

/// Collects the C text of a program.
pub struct Emitter {
    source: String,
}

impl View for Emitter {
    type V = Seq<char>;

    /// The text collected so far.
    closed spec fn view(&self) -> Seq<char> {
        self.source@
    }
}

impl Emitter {
    /// An emitter that has collected nothing.
    pub fn new() -> (emitter: Emitter)
        ensures
            emitter@ == Seq::<char>::empty(),
    {
        Emitter { source: String::new() }
    }

    /// Adds the C text of `program`. No variable is declared twice in it.
    pub fn build(&mut self, program: Program)
        ensures
            final(self)@ == old(self)@ + program_text(program@),
            program@.scope.symbols.no_duplicates(),
    {
        self.header();
        let ghost render = |name: Seq<char>| declaration_text(name);
        let ghost start = self.source@;
        let symbols = program.symbols().names();
        let ghost names = symbols.deep_view();
        let mut i: usize = 0;
        assert(names.take(0) =~= Seq::<Seq<char>>::empty());
        assert(start + joined(names.take(0), render) =~= start);
        while i < symbols.len()
            invariant
                i <= symbols.len(),
                names == symbols.deep_view(),
                render == |name: Seq<char>| declaration_text(name),
                self.source@ == start + joined(names.take(i as int), render),
            decreases symbols.len() - i,
        {
            let symbol = &symbols[i];
            assert(names[i as int] == symbol@);
            self.source.append("float ");
            self.source.append(symbol.as_str());
            self.source.append(";\n");
            proof {
                assert(names.take(i + 1).drop_last() =~= names.take(i as int));
                assert(self.source@ =~= start + joined(names.take(i + 1), render));
            }
            i += 1;
        }
        assert(names.take(i as int) =~= names);
        emit_block(&mut self.source, program.statements());
        self.footer();
        assert(self.source@ =~= old(self)@ + program_text(program@));
    }

    /// Adds the lines that every emitted program starts with.
    pub fn header(&mut self)
        ensures
            final(self)@ == old(self)@ + header_text(),
    {
        self.source.append("#include <stdio.h>\n");
        self.source.append("int main(void){\n");
        assert(self.source@ =~= old(self)@ + header_text());
    }

    /// Adds the lines that every emitted program ends with.
    pub fn footer(&mut self)
        ensures
            final(self)@ == old(self)@ + footer_text(),
    {
        self.source.append("return 0;\n");
        self.source.append("}\n");
        assert(self.source@ =~= old(self)@ + footer_text());
    }

    /// The collected text, every line of it ended by a line break.
    pub fn text(&self) -> (text: String)
        ensures
            text@ == terminated(self@),
    {
        let mut last: Option<char> = None;
        for c in it: self.source.as_str().chars()
            invariant
                last == if it.index() == 0 {
                    None::<char>
                } else {
                    Some(it.seq()[it.index() - 1])
                },
        {
            last = Some(c);
        }
        let mut text = self.source.clone();
        match last {
            None => {},
            Some(c) => {
                if c != '\n' {
                    text.push('\n');
                }
            },
        }
        text
    }
}

} // verus!
