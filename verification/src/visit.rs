//! Generic traversal of the syntax tree: a visitor sees every statement and
//! expression and may rewrite every span.

use vstd::prelude::*;
use crate::ir::{
    expr_data_view, expr_view,
    ExprDataView, ExprView, Expression, ExpressionData, FunctionData, FunctionDataView, Span,
    Statement, StatementData, StatementDataView, StatementView,
};

verus! {

/// What a traversal hands each node to.
///
/// A visitor may keep state of its own, but which spans it accepts and what it
/// turns a span into stay the same from one visit to the next.
pub trait Visitor {
    /// The spans that `visit_span` may be given: every span, unless the visitor says otherwise.
    open spec fn accepts(&self) -> spec_fn(Span) -> bool {
        |s: Span| true
    }

    /// What `visit_span` turns a span into: the span itself, unless the visitor says otherwise.
    open spec fn rewrite(&self) -> spec_fn(Span) -> Span {
        |s: Span| s
    }

    fn visit_statement(&mut self, statement: &Statement)
        ensures
            final(self).accepts() == old(self).accepts(),
            final(self).rewrite() == old(self).rewrite(),
    {
    }

    fn visit_expr(&mut self, expr: &Expression)
        ensures
            final(self).accepts() == old(self).accepts(),
            final(self).rewrite() == old(self).rewrite(),
    {
    }

    fn visit_span(&mut self, span: &mut Span)
        requires
            (old(self).accepts())(*old(span)),
        ensures
            *final(span) == (old(self).rewrite())(*old(span)),
            final(self).accepts() == old(self).accepts(),
            final(self).rewrite() == old(self).rewrite(),
    ;
}

/// Every span of the expression satisfies `ok`.
pub open spec fn expr_accepted(e: ExprView, ok: spec_fn(Span) -> bool) -> bool
    decreases e,
{
    ok(e.span) && expr_data_accepted(e.data, ok)
}

/// Every span below the node satisfies `ok`.
pub open spec fn expr_data_accepted(d: ExprDataView, ok: spec_fn(Span) -> bool) -> bool
    decreases d,
{
    match d {
        ExprDataView::Op(l, _, r) => expr_accepted(*l, ok) && expr_accepted(*r, ok),
        ExprDataView::Number(_) => true,
        ExprDataView::Variable(_) => true,
        ExprDataView::Call(_, args) => forall|i: int|
            0 <= i < args.len() ==> expr_accepted(#[trigger] args[i], ok),
    }
}

/// The expression with `f` applied to every span.
pub open spec fn expr_rewritten(e: ExprView, f: spec_fn(Span) -> Span) -> ExprView
    decreases e,
{
    ExprView { span: f(e.span), data: expr_data_rewritten(e.data, f) }
}

/// The node with `f` applied to every span below it.
pub open spec fn expr_data_rewritten(d: ExprDataView, f: spec_fn(Span) -> Span) -> ExprDataView
    decreases d,
{
    match d {
        ExprDataView::Op(l, op, r) => ExprDataView::Op(
            Box::new(expr_rewritten(*l, f)),
            op,
            Box::new(expr_rewritten(*r, f)),
        ),
        ExprDataView::Number(text) => ExprDataView::Number(text),
        ExprDataView::Variable(v) => ExprDataView::Variable(v),
        ExprDataView::Call(g, args) => ExprDataView::Call(
            g,
            Seq::new(
                args.len(),
                |i: int|
                    if 0 <= i < args.len() {
                        expr_rewritten(args[i], f)
                    } else {
                        arbitrary()
                    },
            ),
        ),
    }
}

/// The span of the name and every span of the body satisfy `ok`.
pub open spec fn function_accepted(d: FunctionDataView, ok: spec_fn(Span) -> bool) -> bool {
    ok(d.name_span) && expr_accepted(d.body, ok)
}

/// The data of a function with `f` applied to every span.
pub open spec fn function_rewritten(d: FunctionDataView, f: spec_fn(Span) -> Span) -> FunctionDataView {
    FunctionDataView { name_span: f(d.name_span), args: d.args, body: expr_rewritten(d.body, f) }
}

/// Every span below the statement satisfies `ok`.
pub open spec fn statement_data_accepted(d: StatementDataView, ok: spec_fn(Span) -> bool) -> bool {
    match d {
        StatementDataView::Function { name, data } => function_accepted(data, ok),
        StatementDataView::Print(e) => expr_accepted(e, ok),
    }
}

/// The statement with `f` applied to every span below it.
pub open spec fn statement_data_rewritten(
    d: StatementDataView,
    f: spec_fn(Span) -> Span,
) -> StatementDataView {
    match d {
        StatementDataView::Function { name, data } => StatementDataView::Function {
            name,
            data: function_rewritten(data, f),
        },
        StatementDataView::Print(e) => StatementDataView::Print(expr_rewritten(e, f)),
    }
}

/// Walks an expression: the node itself, its span, then its operands from left to right.
pub fn traverse_expression<V: Visitor>(e: &mut Expression, v: &mut V)
    requires
        expr_accepted(old(e)@, old(v).accepts()),
    ensures
        final(e)@ == expr_rewritten(old(e)@, old(v).rewrite()),
        final(v).accepts() == old(v).accepts(),
        final(v).rewrite() == old(v).rewrite(),
    decreases *old(e),
{
    v.visit_expr(&*e);
    v.visit_span(&mut e.span);
    traverse_expression_data(&mut e.data, v);
}

/// Walks the operands of an expression from left to right.
pub fn traverse_expression_data<V: Visitor>(d: &mut ExpressionData, v: &mut V)
    requires
        expr_data_accepted(old(d)@, old(v).accepts()),
    ensures
        final(d)@ == expr_data_rewritten(old(d)@, old(v).rewrite()),
        final(v).accepts() == old(v).accepts(),
        final(v).rewrite() == old(v).rewrite(),
    decreases *old(d),
{
    let ghost f = v.rewrite();
    let ghost ok = v.accepts();
    match d {
        ExpressionData::Op(l, _, r) => {
            traverse_expression(l, v);
            traverse_expression(r, v);
        },
        ExpressionData::Number(_) => {},
        ExpressionData::Variable(_) => {},
        ExpressionData::Call(_, args) => {
            let ghost before = args@;
            let n = args.len();
            let mut i: usize = 0;
            proof {
                assert forall|j: int| 0 <= j < n implies expr_accepted(
                    expr_view(#[trigger] before[j]),
                    ok,
                ) by {
                    assert(old(d)@->Call_1[j] == expr_view(before[j]));
                }
            }
            while i < n
                invariant
                    i <= n,
                    n == args.len(),
                    before.len() == n,
                    v.accepts() == ok,
                    v.rewrite() == f,
                    forall|j: int|
                        0 <= j < i ==> expr_view(#[trigger] args@[j]) == expr_rewritten(
                            expr_view(before[j]),
                            f,
                        ),
                    forall|j: int| i <= j < n ==> args@[j] == before[j],
                    forall|j: int|
                        0 <= j < n ==> expr_accepted(expr_view(#[trigger] before[j]), ok),
                    forall|j: int| 0 <= j < n ==> decreases_to!(*old(d) => #[trigger] before[j]),
                decreases n - i,
            {
                assert(args@[i as int] == before[i as int]);
                let ghost mid = args@;
                traverse_expression(&mut args[i], v);
                assert(forall|j: int| 0 <= j < n && j != i ==> args@[j] == mid[j]);
                i = i + 1;
            }
            proof {
                assert(expr_data_view(ExpressionData::Call(old(d)->Call_0, *args))->Call_1
                    =~= expr_data_rewritten(old(d)@, f)->Call_1);
            }
        },
    }
}

/// What a traversal can walk.
pub trait Visit {
    /// Every span in the value satisfies `ok`.
    spec fn accepted(&self, ok: spec_fn(Span) -> bool) -> bool;

    /// `after` is the value with `f` applied to every span.
    spec fn rewritten(&self, f: spec_fn(Span) -> Span, after: &Self) -> bool;

    fn traverse<V: Visitor>(&mut self, v: &mut V)
        requires
            old(self).accepted(old(v).accepts()),
        ensures
            old(self).rewritten(old(v).rewrite(), final(self)),
            final(v).accepts() == old(v).accepts(),
            final(v).rewrite() == old(v).rewrite(),
    ;
}

impl Visit for Span {
    open spec fn accepted(&self, ok: spec_fn(Span) -> bool) -> bool {
        ok(*self)
    }

    open spec fn rewritten(&self, f: spec_fn(Span) -> Span, after: &Self) -> bool {
        *after == f(*self)
    }

    fn traverse<V: Visitor>(&mut self, v: &mut V) {
        v.visit_span(self);
    }
}

impl Visit for Expression {
    open spec fn accepted(&self, ok: spec_fn(Span) -> bool) -> bool {
        expr_accepted(self@, ok)
    }

    open spec fn rewritten(&self, f: spec_fn(Span) -> Span, after: &Self) -> bool {
        after@ == expr_rewritten(self@, f)
    }

    fn traverse<V: Visitor>(&mut self, v: &mut V) {
        traverse_expression(self, v);
    }
}

impl Visit for ExpressionData {
    open spec fn accepted(&self, ok: spec_fn(Span) -> bool) -> bool {
        expr_data_accepted(self@, ok)
    }

    open spec fn rewritten(&self, f: spec_fn(Span) -> Span, after: &Self) -> bool {
        after@ == expr_data_rewritten(self@, f)
    }

    fn traverse<V: Visitor>(&mut self, v: &mut V) {
        traverse_expression_data(self, v);
    }
}

impl Visit for FunctionData {
    open spec fn accepted(&self, ok: spec_fn(Span) -> bool) -> bool {
        function_accepted(self@, ok)
    }

    open spec fn rewritten(&self, f: spec_fn(Span) -> Span, after: &Self) -> bool {
        after@ == function_rewritten(self@, f)
    }

    fn traverse<V: Visitor>(&mut self, v: &mut V) {
        self.name_span.traverse(v);
        self.body.traverse(v);
    }
}

impl Visit for StatementData {
    open spec fn accepted(&self, ok: spec_fn(Span) -> bool) -> bool {
        statement_data_accepted(self@, ok)
    }

    open spec fn rewritten(&self, f: spec_fn(Span) -> Span, after: &Self) -> bool {
        after@ == statement_data_rewritten(self@, f)
    }

    fn traverse<V: Visitor>(&mut self, v: &mut V) {
        match self {
            StatementData::Function { data, .. } => data.traverse(v),
            StatementData::Print(x) => x.traverse(v),
        }
    }
}

impl Visit for Statement {
    open spec fn accepted(&self, ok: spec_fn(Span) -> bool) -> bool {
        ok(self.span) && statement_data_accepted(self.data@, ok)
    }

    open spec fn rewritten(&self, f: spec_fn(Span) -> Span, after: &Self) -> bool {
        after@ == (StatementView {
            span: f(self.span),
            data: statement_data_rewritten(self.data@, f),
        })
    }

    fn traverse<V: Visitor>(&mut self, v: &mut V) {
        v.visit_statement(&*self);
        v.visit_span(&mut self.span);
        self.data.traverse(v);
    }
}

impl<T: Visit> Visit for Vec<T> {
    open spec fn accepted(&self, ok: spec_fn(Span) -> bool) -> bool {
        forall|i: int| 0 <= i < self@.len() ==> (#[trigger] self@[i]).accepted(ok)
    }

    open spec fn rewritten(&self, f: spec_fn(Span) -> Span, after: &Self) -> bool {
        &&& after@.len() == self@.len()
        &&& forall|i: int| 0 <= i < self@.len() ==> (#[trigger] self@[i]).rewritten(f, &after@[i])
    }

    fn traverse<V: Visitor>(&mut self, v: &mut V) {
        let ghost before = self@;
        let ghost f = v.rewrite();
        let ghost ok = v.accepts();
        let n = self.len();
        let mut i: usize = 0;
        while i < n
            invariant
                i <= n,
                n == self.len(),
                before.len() == n,
                v.accepts() == ok,
                v.rewrite() == f,
                forall|j: int| 0 <= j < i ==> (#[trigger] before[j]).rewritten(f, &self@[j]),
                forall|j: int| i <= j < n ==> self@[j] == before[j],
                forall|j: int| 0 <= j < n ==> (#[trigger] before[j]).accepted(ok),
            decreases n - i,
        {
            let ghost mid = self@;
            assert(self@[i as int] == before[i as int]);
            self[i].traverse(v);
            assert(forall|j: int| 0 <= j < n && j != i ==> self@[j] == mid[j]);
            i = i + 1;
        }
    }
}

} // verus!
