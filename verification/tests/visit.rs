use calc::grammar::parse;
use calc::interner::Interner;
use calc::ir::{DefId, Expression, ExpressionData, Span, Statement, StatementData};
use calc::lexer::lex;
use calc::parser::RewriteSpans;
use calc::visit::{Visit, Visitor};

fn statements(text: &str) -> Vec<Statement> {
    let mut interner = Interner::new();
    let tokens = lex(text.as_bytes(), &mut interner);
    parse(&tokens, text.as_bytes(), DefId { index: 0 }).unwrap()
}

/// Counts what it is shown and leaves every span as it is.
struct Counter {
    statements: usize,
    expressions: usize,
    spans: Vec<(usize, usize)>,
}

impl Visitor for Counter {
    fn visit_statement(&mut self, _: &Statement) {
        self.statements += 1;
    }

    fn visit_expr(&mut self, _: &Expression) {
        self.expressions += 1;
    }

    fn visit_span(&mut self, span: &mut Span) {
        self.spans.push((span.start, span.end));
    }
}

fn spans_of(e: &Expression, into: &mut Vec<(usize, usize, usize)>) {
    into.push((e.span.id.index, e.span.start, e.span.end));
    match &e.data {
        ExpressionData::Op(l, _, r) => {
            spans_of(l, into);
            spans_of(r, into);
        }
        ExpressionData::Call(_, args) => {
            for a in args {
                spans_of(a, into);
            }
        }
        _ => {}
    }
}

#[test]
fn a_traversal_shows_every_node_once_in_order() {
    let mut parsed = statements("fn f(x) = g(x, 1) + 2; print f(3);");
    let mut counter = Counter { statements: 0, expressions: 0, spans: vec![] };
    parsed.traverse(&mut counter);
    assert_eq!(counter.statements, 2);
    assert_eq!(counter.expressions, 7);
    assert_eq!(
        counter.spans,
        vec![
            (0, 22),  // the definition
            (3, 4),   // its name
            (10, 21), // g(x, 1) + 2
            (10, 17), // g(x, 1)
            (12, 13), // x
            (15, 16), // 1
            (20, 21), // 2
            (23, 34), // the print statement
            (29, 33), // f(3)
            (31, 32), // 3
        ]
    );
}

#[test]
fn rewriting_makes_spans_count_from_the_definition() {
    let mut parsed = statements("print 0; fn f(x) = g(x, 1) + 2;");
    let statement = parsed.pop().unwrap();
    assert_eq!(statement.span.start, 9);
    let mut data = match statement.data {
        StatementData::Function { data, .. } => data,
        StatementData::Print(_) => panic!("a definition was expected"),
    };
    let mut rewriter = RewriteSpans { start_offset: 9, def_id: DefId { index: 5 } };
    data.traverse(&mut rewriter);
    assert_eq!(data.name_span, Span { id: DefId { index: 5 }, start: 3, end: 4 });
    let mut seen = vec![];
    spans_of(&data.body, &mut seen);
    assert_eq!(seen, vec![(5, 10, 21), (5, 10, 17), (5, 12, 13), (5, 15, 16), (5, 20, 21)]);
}

#[test]
fn rewriting_a_single_span() {
    let mut span = Span { id: DefId { index: 0 }, start: 14, end: 20 };
    let mut rewriter = RewriteSpans { start_offset: 4, def_id: DefId { index: 2 } };
    span.traverse(&mut rewriter);
    assert_eq!(span, Span { id: DefId { index: 2 }, start: 10, end: 16 });
}
