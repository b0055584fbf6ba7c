//! The data model: interned handles, spans, the syntax tree and diagnostics.

use vstd::prelude::*;

verus! {

/// Handle of an interned variable name.
#[derive(Clone, Copy, Debug, PartialEq, Eq, Hash, Structural)]
pub struct VariableId {
    pub index: usize,
}

/// Handle of an interned function name.
#[derive(Clone, Copy, Debug, PartialEq, Eq, Hash, Structural)]
pub struct FunctionId {
    pub index: usize,
}

/// What a definition identity stands for.
#[derive(Clone, Copy, Debug, PartialEq, Eq, Hash, Structural)]
pub enum DefIdData {
    Unknown,
    Function(FunctionId),
}

/// Handle of an interned definition identity.
#[derive(Clone, Copy, Debug, PartialEq, Eq, Hash, Structural)]
pub struct DefId {
    pub index: usize,
}

/// A half-open byte range, counted from the start of the definition `id`.
#[derive(Clone, Copy, Debug, PartialEq, Eq, Hash, Structural)]
pub struct Span {
    pub id: DefId,
    pub start: usize,
    pub end: usize,
}

impl Span {
    /// The span does not end before it starts.
    pub open spec fn wf(self) -> bool {
        self.start <= self.end
    }

    /// The span of the bytes `start..end` of the definition `id`.
    pub fn new(id: DefId, start: usize, end: usize) -> (span: Span)
        ensures
            span == (Span { id, start, end }),
    {
        Span { id, start, end }
    }
}

/// The four operators.
#[derive(Clone, Copy, Debug, PartialEq, Eq, Hash, Structural)]
pub enum Op {
    Add,
    Subtract,
    Multiply,
    Divide,
}

/// An expression with the span that it covers.
#[derive(Debug, PartialEq, Eq, Hash)]
pub struct Expression {
    pub span: Span,
    pub data: ExpressionData,
}

/// The kinds of expression.
#[derive(Debug, PartialEq, Eq, Hash)]
pub enum ExpressionData {
    Op(Box<Expression>, Op, Box<Expression>),
    /// A numeric literal, kept as the digits that were written.
    Number(String),
    Variable(VariableId),
    Call(FunctionId, Vec<Expression>),
}

/// The mathematical value of an [`Expression`].
pub struct ExprView {
    pub span: Span,
    pub data: ExprDataView,
}

/// The mathematical value of an [`ExpressionData`].
pub enum ExprDataView {
    Op(Box<ExprView>, Op, Box<ExprView>),
    Number(Seq<char>),
    Variable(VariableId),
    Call(FunctionId, Seq<ExprView>),
}

/// The value of an expression: every `Vec` read as a `Seq`, every `String` as its characters.
pub open spec fn expr_view(e: Expression) -> ExprView
    decreases e,
{
    ExprView { span: e.span, data: expr_data_view(e.data) }
}

/// The value of the node of an expression.
pub open spec fn expr_data_view(d: ExpressionData) -> ExprDataView
    decreases d,
{
    match d {
        ExpressionData::Op(l, op, r) => ExprDataView::Op(
            Box::new(expr_view(*l)),
            op,
            Box::new(expr_view(*r)),
        ),
        ExpressionData::Number(text) => ExprDataView::Number(text@),
        ExpressionData::Variable(v) => ExprDataView::Variable(v),
        ExpressionData::Call(f, args) => ExprDataView::Call(
            f,
            Seq::new(
                args@.len(),
                |i: int|
                    if 0 <= i < args@.len() {
                        expr_view(args@[i])
                    } else {
                        arbitrary()
                    },
            ),
        ),
    }
}

/// The values of a sequence of expressions, one by one.
pub open spec fn exprs_view(s: Seq<Expression>) -> Seq<ExprView> {
    Seq::new(s.len(), |i: int| expr_view(s[i]))
}

impl View for Expression {
    type V = ExprView;

    open spec fn view(&self) -> ExprView {
        expr_view(*self)
    }
}

impl View for ExpressionData {
    type V = ExprDataView;

    open spec fn view(&self) -> ExprDataView {
        expr_data_view(*self)
    }
}

impl Expression {
    /// The expression `data` at `span`.
    pub fn new(span: Span, data: ExpressionData) -> (e: Expression)
        ensures
            e == (Expression { span, data }),
    {
        Expression { span, data }
    }

    /// Structural equality of two expressions.
    pub fn same(&self, other: &Expression) -> (r: bool)
        ensures
            r == (self@ == other@),
        decreases *self,
    {
        if !(self.span == other.span) {
            return false;
        }
        match (&self.data, &other.data) {
            (ExpressionData::Op(l1, op1, r1), ExpressionData::Op(l2, op2, r2)) => {
                *op1 == *op2 && l1.same(l2) && r1.same(r2)
            },
            (ExpressionData::Number(t1), ExpressionData::Number(t2)) => *t1 == *t2,
            (ExpressionData::Variable(v1), ExpressionData::Variable(v2)) => *v1 == *v2,
            (ExpressionData::Call(f1, a1), ExpressionData::Call(f2, a2)) => {
                if !(*f1 == *f2) || a1.len() != a2.len() {
                    proof {
                        if a1.len() != a2.len() {
                            assert(self@.data->Call_1.len() != other@.data->Call_1.len());
                        }
                    }
                    return false;
                }
                let n = a1.len();
                let mut i: usize = 0;
                while i < n
                    invariant
                        i <= n,
                        n == a1.len(),
                        n == a2.len(),
                        self.data == ExpressionData::Call(*f1, *a1),
                        other.data == ExpressionData::Call(*f2, *a2),
                        forall|j: int| 0 <= j < i ==> expr_view(a1@[j]) == expr_view(a2@[j]),
                    decreases n - i,
                {
                    if !a1[i].same(&a2[i]) {
                        proof {
                            assert(self@.data->Call_1[i as int] == expr_view(a1@[i as int]));
                            assert(other@.data->Call_1[i as int] == expr_view(a2@[i as int]));
                        }
                        return false;
                    }
                    i = i + 1;
                }
                proof {
                    assert(self@.data->Call_1 =~= other@.data->Call_1);
                }
                true
            },
            _ => false,
        }
    }
}

/// What a function definition holds besides its name.
#[derive(Debug, PartialEq, Eq, Hash)]
pub struct FunctionData {
    pub name_span: Span,
    /// The parameters in order; a later one shadows an earlier one of the same name.
    pub args: Vec<VariableId>,
    pub body: Expression,
}

/// The mathematical value of a [`FunctionData`].
pub struct FunctionDataView {
    pub name_span: Span,
    pub args: Seq<VariableId>,
    pub body: ExprView,
}

impl View for FunctionData {
    type V = FunctionDataView;

    open spec fn view(&self) -> FunctionDataView {
        FunctionDataView { name_span: self.name_span, args: self.args@, body: self.body@ }
    }
}

impl FunctionData {
    /// The data of a function with these parameters and this body.
    pub fn new(name_span: Span, args: Vec<VariableId>, body: Expression) -> (d: FunctionData)
        ensures
            d == (FunctionData { name_span, args, body }),
    {
        FunctionData { name_span, args, body }
    }

    /// Structural equality of two definitions.
    pub fn same(&self, other: &FunctionData) -> (r: bool)
        ensures
            r == (self@ == other@),
    {
        if !(self.name_span == other.name_span) || self.args.len() != other.args.len() {
            return false;
        }
        let n = self.args.len();
        let mut i: usize = 0;
        while i < n
            invariant
                i <= n,
                n == self.args.len(),
                n == other.args.len(),
                forall|j: int| 0 <= j < i ==> self.args@[j] == other.args@[j],
            decreases n - i,
        {
            if !(self.args[i] == other.args[i]) {
                return false;
            }
            i = i + 1;
        }
        proof {
            assert(self.args@ =~= other.args@);
        }
        self.body.same(&other.body)
    }
}

/// The kinds of statement.
#[derive(Debug, PartialEq, Eq, Hash)]
pub enum StatementData {
    /// Defines `fn <name>(<args>) = <body>`
    Function { name: FunctionId, data: FunctionData },
    /// Defines `print <expr>`
    Print(Expression),
}

/// The mathematical value of a [`StatementData`].
pub enum StatementDataView {
    Function { name: FunctionId, data: FunctionDataView },
    Print(ExprView),
}

impl View for StatementData {
    type V = StatementDataView;

    open spec fn view(&self) -> StatementDataView {
        match self {
            StatementData::Function { name, data } => StatementDataView::Function {
                name: *name,
                data: data@,
            },
            StatementData::Print(e) => StatementDataView::Print(e@),
        }
    }
}

/// A statement with the span that it covers.
#[derive(Debug, PartialEq, Eq, Hash)]
pub struct Statement {
    pub span: Span,
    pub data: StatementData,
}

/// The mathematical value of a [`Statement`].
pub struct StatementView {
    pub span: Span,
    pub data: StatementDataView,
}

impl View for Statement {
    type V = StatementView;

    open spec fn view(&self) -> StatementView {
        StatementView { span: self.span, data: self.data@ }
    }
}

impl Statement {
    /// The statement `data` at `span`.
    pub fn new(span: Span, data: StatementData) -> (s: Statement)
        ensures
            s == (Statement { span, data }),
    {
        Statement { span, data }
    }
}

/// The values of a sequence of statements, one by one.
pub open spec fn statements_view(s: Seq<Statement>) -> Seq<StatementView> {
    Seq::new(s.len(), |i: int| s[i]@)
}

/// Handle of the input cell that holds the source text.
#[derive(Clone, Copy, Debug, PartialEq, Eq, Hash, Structural)]
pub struct SourceProgram {}

/// Handle of the program that parsing the input gives.
#[derive(Clone, Copy, Debug, PartialEq, Eq, Hash, Structural)]
pub struct Program {}

/// Handle of a function of the program. It stays the same from one revision of
/// the input to the next as long as the function keeps its name.
#[derive(Clone, Copy, Debug, PartialEq, Eq, Hash, Structural)]
pub struct Function {
    pub index: usize,
}

/// What a check can find wrong at an expression.
#[derive(Clone, Copy, Debug, PartialEq, Eq, Hash, Structural)]
pub enum ErrorKind {
    UndefinedVariable(VariableId),
    UndefinedFunction(FunctionId),
    ArityMismatch { function: FunctionId, expected: usize, found: usize },
}

/// One finding of a check, at the span of the expression it is about.
#[derive(Clone, Copy, Debug, PartialEq, Eq, Hash, Structural)]
pub struct CheckError {
    pub span: Span,
    pub kind: ErrorKind,
}

/// A message for the user about the bytes `start..end`.
#[derive(Clone, Debug, PartialEq, Eq, Hash)]
pub struct Diagnostic {
    pub start: usize,
    pub end: usize,
    pub message: String,
}

/// The mathematical value of a [`Diagnostic`].
pub struct DiagnosticView {
    pub start: usize,
    pub end: usize,
    pub message: Seq<char>,
}

impl View for Diagnostic {
    type V = DiagnosticView;

    open spec fn view(&self) -> DiagnosticView {
        DiagnosticView { start: self.start, end: self.end, message: self.message@ }
    }
}

impl Diagnostic {
    /// The message `message` about the bytes `start..end`.
    pub fn new(start: usize, end: usize, message: String) -> (d: Diagnostic)
        ensures
            d@ == (DiagnosticView { start, end, message: message@ }),
    {
        Diagnostic { start, end, message }
    }
}

/// The values of a sequence of diagnostics, one by one.
pub open spec fn diagnostics_view(s: Seq<Diagnostic>) -> Seq<DiagnosticView> {
    Seq::new(s.len(), |i: int| s[i]@)
}

/// The diagnostics that one run of a query has gathered, in the order they were reported.
#[derive(Debug)]
pub struct Diagnostics {
    pub items: Vec<Diagnostic>,
}

impl View for Diagnostics {
    type V = Seq<DiagnosticView>;

    open spec fn view(&self) -> Seq<DiagnosticView> {
        diagnostics_view(self.items@)
    }
}

impl Diagnostics {
    /// Nothing gathered yet.
    pub fn new() -> (d: Diagnostics)
        ensures
            d@ == Seq::<DiagnosticView>::empty(),
    {
        let d = Diagnostics { items: Vec::new() };
        proof {
            assert(d@ =~= Seq::<DiagnosticView>::empty());
        }
        d
    }

    /// Reports one more diagnostic.
    pub fn push(&mut self, diagnostic: Diagnostic)
        ensures
            final(self)@ == old(self)@.push(diagnostic@),
    {
        self.items.push(diagnostic);
        proof {
            assert(self@ =~= old(self)@.push(diagnostic@));
        }
    }

    /// What was gathered, in order.
    pub fn into_vec(self) -> (items: Vec<Diagnostic>)
        ensures
            diagnostics_view(items@) == self@,
    {
        self.items
    }
}

} // verus!
