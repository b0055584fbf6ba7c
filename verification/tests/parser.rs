use calc::compile::parse_diagnostics;
use calc::db::Database;
use calc::ir::{
    DefId, DefIdData, Diagnostic, Expression, ExpressionData, FunctionData, FunctionId, Op,
    SourceProgram, Span, VariableId,
};
use calc::parser::parse_statements;

/// Create a new database with the given source text and parse the result.
/// Returns the functions of the program and the diagnostics generated.
fn parse_string(source_text: &str) -> String {
    // Create the database
    let mut db = Database::new();

    // Create the source program
    let source_program = SourceProgram::new(&mut db, source_text.to_string());

    // Invoke the parser
    let program = parse_statements(&mut db, source_program);

    // Read out any diagnostics
    let accumulated = parse_diagnostics(&db);

    // Format the result as a string and return it
    let functions: Vec<(String, &FunctionData)> = program
        .functions(&db)
        .iter()
        .map(|f| (f.name(&db).text(&db).clone(), f.data(&db)))
        .collect();
    format!("{:#?}", (functions, accumulated))
}

fn parsed(source_text: &str) -> (Database, Vec<(String, usize)>, Vec<Diagnostic>) {
    let mut db = Database::new();
    let source_program = SourceProgram::new(&mut db, source_text.to_string());
    let program = parse_statements(&mut db, source_program);
    let functions = program
        .functions(&db)
        .iter()
        .map(|f| (f.name(&db).text(&db).clone(), f.offset(&db)))
        .collect();
    let diagnostics = parse_diagnostics(&db);
    (db, functions, diagnostics)
}

#[test]
fn a_print_statement_is_no_part_of_the_program() {
    let actual = parse_string("print 1 + 2;");
    let expected = "(\n    [],\n    [],\n)";
    assert_eq!(actual, expected);
}

#[test]
fn parse_error() {
    let source_text: &str = "print 1 + + 2";
    //                       0123456789^ <-- this is the position 10, where the error is reported
    let actual = parse_string(source_text);
    let expected = "(
    [],
    [
        Diagnostic {
            start: 10,
            end: 11,
            message: \"unexpected character\",
        },
    ],
)";
    assert_eq!(actual, expected);
}

#[test]
fn parse_example() {
    let text = "
            fn area_rectangle(w, h) = w * h;
            fn area_circle(r) = 3.14 * r * r;
            print area_rectangle(3, 4);
            print area_circle(1);
            print 11 * 2;
        ";
    // the statements, as the grammar reads them
    let mut interner = calc::interner::Interner::new();
    let tokens = calc::lexer::lex(text.as_bytes(), &mut interner);
    let statements = calc::grammar::parse(&tokens, text.as_bytes(), DefId { index: 0 }).unwrap();
    assert_eq!(statements.len(), 5);
    let printed: Vec<&Expression> = statements
        .iter()
        .filter_map(|s| match &s.data {
            calc::ir::StatementData::Print(e) => Some(e),
            calc::ir::StatementData::Function { .. } => None,
        })
        .collect();
    assert_eq!(printed.len(), 3);
    let at = |needle: &str| text.find(needle).unwrap();
    let absolute = |start: usize, end: usize| Span { id: DefId { index: 0 }, start, end };
    let number = |start: usize, digits: &str| Expression {
        span: absolute(start, start + digits.len()),
        data: ExpressionData::Number(digits.to_string()),
    };
    let call = at("area_rectangle(3");
    assert_eq!(
        *printed[0],
        Expression {
            span: absolute(call, call + 20),
            data: ExpressionData::Call(
                FunctionId { index: 0 },
                vec![number(call + 15, "3"), number(call + 18, "4")],
            ),
        }
    );
    let call = at("area_circle(1");
    assert_eq!(
        *printed[1],
        Expression {
            span: absolute(call, call + 14),
            data: ExpressionData::Call(FunctionId { index: 3 }, vec![number(call + 12, "1")]),
        }
    );
    let product = at("11 * 2");
    assert_eq!(
        *printed[2],
        Expression {
            span: absolute(product, product + 6),
            data: ExpressionData::Op(
                Box::new(number(product, "11")),
                Op::Multiply,
                Box::new(number(product + 5, "2")),
            ),
        }
    );

    // the program: the two functions, each with spans of its own
    let (db, functions, diagnostics) = parsed(text);
    assert_eq!(diagnostics, vec![]);
    let rectangle = text.find("fn area_rectangle").unwrap();
    let circle = text.find("fn area_circle").unwrap();
    assert_eq!(
        functions,
        vec![("area_rectangle".to_string(), rectangle), ("area_circle".to_string(), circle)]
    );

    let program = calc::ir::Program {};
    let handles = program.functions(&db).clone();

    // every span counts from the start of its own definition
    let first = handles[0].data(&db);
    let def = first.name_span.id;
    assert_eq!(def.data(&db), DefIdData::Function(handles[0].name(&db)));
    let span = |start: usize, end: usize| Span { id: def, start, end };
    let w = VariableId::new(&mut Database::new(), "w".to_string());
    assert_eq!(w, VariableId { index: 0 });
    let names: Vec<String> = first.args.iter().map(|v| v.text(&db).clone()).collect();
    assert_eq!(names, vec!["w".to_string(), "h".to_string()]);
    assert_eq!(first.name_span, span(3, 17));
    assert_eq!(
        first.body,
        Expression {
            span: span(26, 31),
            data: ExpressionData::Op(
                Box::new(Expression {
                    span: span(26, 27),
                    data: ExpressionData::Variable(first.args[0]),
                }),
                Op::Multiply,
                Box::new(Expression {
                    span: span(30, 31),
                    data: ExpressionData::Variable(first.args[1]),
                }),
            ),
        }
    );

    let second = handles[1].data(&db);
    let def = second.name_span.id;
    assert_eq!(def.data(&db), DefIdData::Function(handles[1].name(&db)));
    let span = |start: usize, end: usize| Span { id: def, start, end };
    let r = second.args[0];
    assert_eq!(r.text(&db), "r");
    let product = Expression {
        span: span(20, 28),
        data: ExpressionData::Op(
            Box::new(Expression {
                span: span(20, 24),
                data: ExpressionData::Number("3.14".to_string()),
            }),
            Op::Multiply,
            Box::new(Expression { span: span(27, 28), data: ExpressionData::Variable(r) }),
        ),
    };
    assert_eq!(
        second.body,
        Expression {
            span: span(20, 32),
            data: ExpressionData::Op(
                Box::new(product),
                Op::Multiply,
                Box::new(Expression { span: span(31, 32), data: ExpressionData::Variable(r) }),
            ),
        }
    );
}

#[test]
fn a_failed_parse_gives_an_empty_program() {
    let (_, functions, diagnostics) = parsed("fn f(x) = x; fn g(y) = ; fn h() = 1;");
    assert_eq!(functions, vec![]);
    assert_eq!(
        diagnostics,
        vec![Diagnostic { start: 23, end: 24, message: "unexpected character".to_string() }]
    );
}

#[test]
fn spans_of_a_function_count_from_its_start() {
    let (db, functions, _) = parsed("fn f(x) = x; print f(1);");
    assert_eq!(functions, vec![("f".to_string(), 0)]);
    let (moved, functions, _) = parsed("print 0;    fn f(x) = x; print f(1);");
    assert_eq!(functions, vec![("f".to_string(), 12)]);
    let program = calc::ir::Program {};
    let here = program.functions(&db)[0].data(&db);
    let there = program.functions(&moved)[0].data(&moved);
    assert_eq!(here.name_span, Span { id: here.name_span.id, start: 3, end: 4 });
    assert_eq!(here.body.span, Span { id: here.name_span.id, start: 10, end: 11 });
    assert_eq!(there.name_span.start, 3);
    assert_eq!(there.body.span.start, 10);
    assert_eq!(there.body.span.end, 11);
}

#[test]
fn the_identity_of_a_function_tags_its_spans() {
    let (db, _, _) = parsed("fn f(x) = x; fn g() = f(1);");
    let program = calc::ir::Program {};
    let f = program.functions(&db)[0];
    let g = program.functions(&db)[1];
    let in_f = f.data(&db).body.span.id;
    let in_g = g.data(&db).body.span.id;
    assert_ne!(in_f, in_g);
    assert_ne!(in_f, DefId::unknown(&db));
    assert_eq!(in_f.data(&db), DefIdData::Function(FunctionId { index: 0 }));
    assert_eq!(in_g.data(&db), DefIdData::Function(g.name(&db)));
    assert_eq!(DefId::unknown(&db).data(&db), DefIdData::Unknown);
    match &g.data(&db).body.data {
        ExpressionData::Call(name, args) => {
            assert_eq!(*name, f.name(&db));
            assert_eq!(args.len(), 1);
            assert_eq!(args[0].span.id, in_g);
        }
        other => panic!("a call was expected, not {:?}", other),
    }
}
