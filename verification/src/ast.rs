//! The program tree that the parser builds and the emitter renders.

use vstd::prelude::*;
use crate::token::{Token, TokenView};

verus! {

/// The operand of a unary expression.
#[derive(Debug, PartialEq)]
pub enum Primary {
    /// A literal with a decimal point, as it was written.
    Float(String),
    Int(i32),
    Ident(String),
}

/// The mathematical value of a [`Primary`].
pub enum PrimaryView {
    Float(Seq<char>),
    Int(int),
    Ident(Seq<char>),
}

impl View for Primary {
    type V = PrimaryView;

    open spec fn view(&self) -> PrimaryView {
        match self {
            Primary::Float(text) => PrimaryView::Float(text@),
            Primary::Int(value) => PrimaryView::Int(*value as int),
            Primary::Ident(name) => PrimaryView::Ident(name@),
        }
    }
}

/// A primary with an optional sign in front.
#[derive(Debug, PartialEq)]
pub struct Unary {
    pub operator: Option<Token>,
    pub primary: Primary,
}

/// The mathematical value of a [`Unary`].
pub struct UnaryView {
    pub operator: Option<TokenView>,
    pub primary: PrimaryView,
}

impl View for Unary {
    type V = UnaryView;

    open spec fn view(&self) -> UnaryView {
        UnaryView { operator: self.operator.deep_view(), primary: self.primary@ }
    }
}

impl UnaryView {
    /// The sign, if there is one, is a plus or a minus.
    pub open spec fn well_formed(self) -> bool {
        self.operator matches Some(sign) ==> sign is Add || sign is Sub
    }
}

/// A multiplication or division by a unary expression.
#[derive(Debug, PartialEq)]
pub struct TermComp {
    pub operator: Token,
    pub unary: Unary,
}

/// The mathematical value of a [`TermComp`].
pub struct TermCompView {
    pub operator: TokenView,
    pub unary: UnaryView,
}

impl View for TermComp {
    type V = TermCompView;

    open spec fn view(&self) -> TermCompView {
        TermCompView { operator: self.operator@, unary: self.unary@ }
    }
}

impl DeepView for TermComp {
    type V = TermCompView;

    open spec fn deep_view(&self) -> TermCompView {
        self.view()
    }
}

impl TermCompView {
    /// The operator is a multiplication or a division sign.
    pub open spec fn well_formed(self) -> bool {
        &&& self.operator is Mul || self.operator is Div
        &&& self.unary.well_formed()
    }
}

/// A unary expression, multiplied and divided by further ones.
#[derive(Debug, PartialEq)]
pub struct Term {
    pub unary: Unary,
    pub components: Vec<TermComp>,
}

/// The mathematical value of a [`Term`].
pub struct TermView {
    pub unary: UnaryView,
    pub components: Seq<TermCompView>,
}

impl View for Term {
    type V = TermView;

    open spec fn view(&self) -> TermView {
        TermView { unary: self.unary@, components: self.components.deep_view() }
    }
}

impl DeepView for Term {
    type V = TermView;

    open spec fn deep_view(&self) -> TermView {
        self.view()
    }
}

impl TermView {
    pub open spec fn well_formed(self) -> bool {
        &&& self.unary.well_formed()
        &&& forall|i: int|
            0 <= i < self.components.len() ==> (#[trigger] self.components[i]).well_formed()
    }
}

/// A sum of terms. Each term after the first brings its own sign.
#[derive(Debug, PartialEq)]
pub struct Expression {
    pub first_term: Term,
    pub other_terms: Vec<Term>,
}

/// The mathematical value of an [`Expression`].
pub struct ExpressionView {
    pub first_term: TermView,
    pub other_terms: Seq<TermView>,
}

impl View for Expression {
    type V = ExpressionView;

    open spec fn view(&self) -> ExpressionView {
        ExpressionView {
            first_term: self.first_term@,
            other_terms: self.other_terms.deep_view(),
        }
    }
}

impl ExpressionView {
    pub open spec fn well_formed(self) -> bool {
        &&& self.first_term.well_formed()
        &&& forall|i: int|
            0 <= i < self.other_terms.len() ==> (#[trigger] self.other_terms[i]).well_formed()
    }
}

/// Whether `operator` compares two numbers.
pub open spec fn is_relation(operator: TokenView) -> bool {
    operator is Equals || operator is NotEquals || operator is Gt || operator is Gte
        || operator is Lt || operator is Lte
}

/// Two expressions and the relation that is asked of them.
#[derive(Debug)]
pub struct Comparison {
    pub left: Expression,
    pub operator: Token,
    pub right: Expression,
}

/// The mathematical value of a [`Comparison`].
pub struct ComparisonView {
    pub left: ExpressionView,
    pub operator: TokenView,
    pub right: ExpressionView,
}

impl View for Comparison {
    type V = ComparisonView;

    open spec fn view(&self) -> ComparisonView {
        ComparisonView { left: self.left@, operator: self.operator@, right: self.right@ }
    }
}

impl ComparisonView {
    pub open spec fn well_formed(self) -> bool {
        &&& self.left.well_formed()
        &&& is_relation(self.operator)
        &&& self.right.well_formed()
    }
}

/// What a `PRINT` statement prints.
#[derive(Debug, PartialEq)]
pub enum PrintMessage {
    Expression(Expression),
    StrLit(String),
}

/// The mathematical value of a [`PrintMessage`].
pub enum PrintMessageView {
    Expression(ExpressionView),
    StrLit(Seq<char>),
}

impl View for PrintMessage {
    type V = PrintMessageView;

    open spec fn view(&self) -> PrintMessageView {
        match self {
            PrintMessage::Expression(expression) => PrintMessageView::Expression(expression@),
            PrintMessage::StrLit(text) => PrintMessageView::StrLit(text@),
        }
    }
}

/// One statement of a program.
#[derive(Debug)]
pub enum Statement {
    Let { ident: String, expression: Expression },
    Print(PrintMessage),
    If { comparison: Comparison, statements: Vec<Statement> },
    While { comparison: Comparison, statements: Vec<Statement> },
    Label { ident: String },
    Goto { ident: String },
    Input { ident: String },
}

/// The mathematical value of a [`Statement`].
pub enum StatementView {
    Let { ident: Seq<char>, expression: ExpressionView },
    Print(PrintMessageView),
    If { comparison: ComparisonView, statements: Seq<StatementView> },
    While { comparison: ComparisonView, statements: Seq<StatementView> },
    Label { ident: Seq<char> },
    Goto { ident: Seq<char> },
    Input { ident: Seq<char> },
}

impl View for Statement {
    type V = StatementView;

    open spec fn view(&self) -> StatementView
        decreases self,
    {
        match self {
            Statement::Let { ident, expression } => StatementView::Let {
                ident: ident@,
                expression: expression@,
            },
            Statement::Print(message) => StatementView::Print(message@),
            Statement::If { comparison, statements } => StatementView::If {
                comparison: comparison@,
                statements: Seq::new(
                    statements@.len(),
                    |i: int|
                        if 0 <= i < statements@.len() {
                            statements@[i].view()
                        } else {
                            arbitrary()
                        },
                ),
            },
            Statement::While { comparison, statements } => StatementView::While {
                comparison: comparison@,
                statements: Seq::new(
                    statements@.len(),
                    |i: int|
                        if 0 <= i < statements@.len() {
                            statements@[i].view()
                        } else {
                            arbitrary()
                        },
                ),
            },
            Statement::Label { ident } => StatementView::Label { ident: ident@ },
            Statement::Goto { ident } => StatementView::Goto { ident: ident@ },
            Statement::Input { ident } => StatementView::Input { ident: ident@ },
        }
    }
}

impl DeepView for Statement {
    type V = StatementView;

    open spec fn deep_view(&self) -> StatementView {
        self.view()
    }
}

impl StatementView {
    /// Every operator in the statement is one that its place allows.
    pub open spec fn well_formed(self) -> bool
        decreases self,
    {
        match self {
            StatementView::Let { ident, expression } => expression.well_formed(),
            StatementView::Print(PrintMessageView::Expression(expression)) => {
                expression.well_formed()
            },
            StatementView::Print(PrintMessageView::StrLit(_)) => true,
            StatementView::If { comparison, statements } => {
                &&& comparison.well_formed()
                &&& forall|i: int|
                    #![trigger statements[i]]
                    0 <= i < statements.len() ==> statements[i].well_formed()
            },
            StatementView::While { comparison, statements } => {
                &&& comparison.well_formed()
                &&& forall|i: int|
                    #![trigger statements[i]]
                    0 <= i < statements.len() ==> statements[i].well_formed()
            },
            StatementView::Label { ident } => true,
            StatementView::Goto { ident } => true,
            StatementView::Input { ident } => true,
        }
    }
}

/// Every statement of `statements` is well formed.
pub open spec fn all_well_formed(statements: Seq<StatementView>) -> bool {
    forall|i: int| #![trigger statements[i]] 0 <= i < statements.len() ==> statements[i].well_formed()
}

/// The view of a block is the sequence of the views of its statements.
pub proof fn lemma_block_view(statements: Vec<Statement>, comparison: Comparison)
    ensures
        (Statement::If { comparison, statements })@ == (StatementView::If {
            comparison: comparison@,
            statements: statements.deep_view(),
        }),
        (Statement::While { comparison, statements })@ == (StatementView::While {
            comparison: comparison@,
            statements: statements.deep_view(),
        }),
{
    reveal_with_fuel(<Statement as View>::view, 2);
    let conditional = (Statement::If { comparison, statements })@;
    let repeated = (Statement::While { comparison, statements })@;
    assert(conditional->If_statements =~= statements.deep_view());
    assert(repeated->While_statements =~= statements.deep_view());
}

/// An `IF` or a `WHILE` is well formed exactly when its comparison and the
/// statements of its body are.
pub proof fn lemma_guarded_well_formed_parts(
    comparison: ComparisonView,
    statements: Seq<StatementView>,
)
    ensures
        (StatementView::If { comparison, statements }).well_formed() <==> comparison.well_formed()
            && all_well_formed(statements),
        (StatementView::While { comparison, statements }).well_formed()
            <==> comparison.well_formed() && all_well_formed(statements),
{
    let conditional = StatementView::If { comparison, statements };
    let repeated = StatementView::While { comparison, statements };
    if conditional.well_formed() {
        assert forall|i: int| #![trigger statements[i]] 0 <= i < statements.len() implies
            statements[i].well_formed() by {
            assert(conditional->If_statements[i].well_formed());
        }
    }
    if repeated.well_formed() {
        assert forall|i: int| #![trigger statements[i]] 0 <= i < statements.len() implies
            statements[i].well_formed() by {
            assert(repeated->While_statements[i].well_formed());
        }
    }
}

} // verus!
