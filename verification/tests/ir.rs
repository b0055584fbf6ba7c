use calc::compile::{message, render};
use calc::db::Database;
use calc::interner::Interner;
use calc::ir::{
    CheckError, DefId, DefIdData, Diagnostic, Diagnostics, ErrorKind, Expression, ExpressionData,
    Function, FunctionData, FunctionId, Op, SourceProgram, Span, Statement, StatementData,
    VariableId,
};
use calc::lexer::ascii_string;
use calc::parser::{parse_statements, read_definitions};

fn span(start: usize, end: usize) -> Span {
    Span::new(DefId { index: 0 }, start, end)
}

fn number(start: usize, end: usize, digits: &str) -> Expression {
    Expression::new(span(start, end), ExpressionData::Number(digits.to_string()))
}

fn call(name: usize, args: Vec<Expression>) -> Expression {
    Expression::new(span(0, 9), ExpressionData::Call(FunctionId { index: name }, args))
}

#[test]
fn constructors_fill_the_fields() {
    let s = Span::new(DefId { index: 3 }, 4, 9);
    assert_eq!(s, Span { id: DefId { index: 3 }, start: 4, end: 9 });
    let e = Expression::new(s, ExpressionData::Variable(VariableId { index: 1 }));
    assert_eq!(e.span, s);
    assert_eq!(e.data, ExpressionData::Variable(VariableId { index: 1 }));
    let d = FunctionData::new(s, vec![VariableId { index: 1 }], number(1, 2, "7"));
    assert_eq!(d.name_span, s);
    assert_eq!(d.args, vec![VariableId { index: 1 }]);
    assert_eq!(d.body, number(1, 2, "7"));
    let st = Statement::new(s, StatementData::Print(number(1, 2, "7")));
    assert_eq!(st.span, s);
    assert_eq!(st.data, StatementData::Print(number(1, 2, "7")));
    let m = Diagnostic::new(1, 2, "m".to_string());
    assert_eq!(m, Diagnostic { start: 1, end: 2, message: "m".to_string() });
}

#[test]
fn equal_expressions_are_the_same() {
    let sum = |digits: &str| {
        Expression::new(
            span(0, 5),
            ExpressionData::Op(
                Box::new(number(0, 1, "1")),
                Op::Add,
                Box::new(call(2, vec![number(4, 5, digits), number(4, 5, "3")])),
            ),
        )
    };
    assert!(sum("2").same(&sum("2")));
    assert!(!sum("2").same(&sum("2.0")));
    assert!(!number(0, 1, "1").same(&number(0, 2, "1")));
    assert!(!call(1, vec![]).same(&call(2, vec![])));
    assert!(!call(1, vec![number(0, 1, "1")]).same(&call(1, vec![])));
    assert!(!call(1, vec![]).same(&number(0, 9, "1")));
    let variable = |index: usize| {
        Expression::new(span(0, 1), ExpressionData::Variable(VariableId { index }))
    };
    assert!(variable(4).same(&variable(4)));
    assert!(!variable(4).same(&variable(5)));
    let product = Expression::new(
        span(0, 5),
        ExpressionData::Op(Box::new(number(0, 1, "1")), Op::Multiply, Box::new(number(4, 5, "2"))),
    );
    let quotient = Expression::new(
        span(0, 5),
        ExpressionData::Op(Box::new(number(0, 1, "1")), Op::Divide, Box::new(number(4, 5, "2"))),
    );
    assert!(!product.same(&quotient));
    let tagged = Expression::new(
        Span::new(DefId { index: 1 }, 0, 1),
        ExpressionData::Number("1".to_string()),
    );
    assert!(!tagged.same(&number(0, 1, "1")));
}

#[test]
fn equal_function_data_is_the_same() {
    let data = |args: Vec<usize>, digits: &str| {
        FunctionData::new(
            span(3, 4),
            args.into_iter().map(|index| VariableId { index }).collect(),
            number(9, 10, digits),
        )
    };
    assert!(data(vec![1, 2], "5").same(&data(vec![1, 2], "5")));
    assert!(!data(vec![1, 2], "5").same(&data(vec![2, 1], "5")));
    assert!(!data(vec![1, 2], "5").same(&data(vec![1], "5")));
    assert!(!data(vec![1, 2], "5").same(&data(vec![1, 2], "6")));
    let mut moved = data(vec![], "5");
    moved.name_span.start = 2;
    assert!(!moved.same(&data(vec![], "5")));
}

#[test]
fn diagnostics_are_gathered_in_order() {
    let mut gathered = Diagnostics::new();
    assert!(gathered.items.is_empty());
    gathered.push(Diagnostic::new(1, 2, "first".to_string()));
    gathered.push(Diagnostic::new(0, 1, "second".to_string()));
    assert_eq!(
        gathered.into_vec(),
        vec![Diagnostic::new(1, 2, "first".to_string()), Diagnostic::new(0, 1, "second".to_string())]
    );
}

#[test]
fn the_interner_gives_the_next_free_handle() {
    let mut interner = Interner::new();
    assert_eq!(interner.intern("b".to_string()), 0);
    assert_eq!(interner.intern("a".to_string()), 1);
    assert_eq!(interner.intern("b".to_string()), 0);
    assert_eq!(interner.intern("".to_string()), 2);
    assert_eq!(interner.text(1), "a");
    assert_eq!(interner.lookup(2), Some(&"".to_string()));
    assert_eq!(interner.lookup(3), None);
    assert_eq!(interner.def_data(0), DefIdData::Unknown);
    let f = DefIdData::Function(FunctionId { index: 1 });
    assert_eq!(interner.intern_def(f), 1);
    assert_eq!(interner.intern_def(DefIdData::Unknown), 0);
    assert_eq!(interner.intern_def(f), 1);
    assert_eq!(interner.def_data(1), f);
}

#[test]
fn bytes_become_the_characters_they_stand_for() {
    assert_eq!(ascii_string(b"print area_1;", 6, 12), "area_1");
    assert_eq!(ascii_string(b"3.14", 0, 4), "3.14");
    assert_eq!(ascii_string(b"abc", 1, 1), "");
}

#[test]
fn reading_a_text_interns_its_names_in_order() {
    let mut interner = Interner::new();
    interner.intern("y".to_string());
    let text = "fn g(x) = y + f(x); print z; fn f(a) = g(a);";
    let definitions = read_definitions(text.as_bytes(), &mut interner).unwrap();
    assert_eq!(interner.texts, vec!["y", "g", "x", "f", "z", "a"]);
    assert_eq!(
        interner.defs,
        vec![
            DefIdData::Unknown,
            DefIdData::Function(FunctionId { index: 1 }),
            DefIdData::Function(FunctionId { index: 3 }),
        ]
    );
    assert_eq!(definitions.len(), 2);
    assert_eq!(definitions[0].name, FunctionId { index: 1 });
    assert_eq!(definitions[0].offset, 0);
    assert_eq!(definitions[0].data.name_span, Span::new(DefId { index: 1 }, 3, 4));
    assert_eq!(definitions[1].name, FunctionId { index: 3 });
    assert_eq!(definitions[1].offset, 29);
    assert_eq!(definitions[1].data.name_span, Span::new(DefId { index: 2 }, 3, 4));
    assert_eq!(definitions[1].data.body.span, Span::new(DefId { index: 2 }, 10, 14));

    // a text with a syntax error interns its names and no identity
    let mut interner = Interner::new();
    assert!(read_definitions(b"fn f(x) = ; fn g() = 1;", &mut interner).is_err());
    assert_eq!(interner.texts, vec!["f", "x", "g"]);
    assert_eq!(interner.defs, vec![DefIdData::Unknown]);
}

#[test]
fn new_functions_get_the_next_handles_in_order() {
    let mut db = Database::new();
    let source = SourceProgram::new(&mut db, "fn b() = 1; fn a() = 2;".to_string());
    let program = parse_statements(&mut db, source);
    assert_eq!(*program.functions(&db), vec![Function { index: 0 }, Function { index: 1 }]);
    source.set_text(&mut db, "fn c() = 0; fn a() = 2; fn d() = 3; fn b() = 1;".to_string());
    let program = parse_statements(&mut db, source);
    assert_eq!(
        *program.functions(&db),
        vec![
            Function { index: 2 },
            Function { index: 1 },
            Function { index: 3 },
            Function { index: 0 },
        ]
    );
    let names: Vec<&str> =
        program.functions(&db).iter().map(|f| f.name(&db).text(&db).as_str()).collect();
    assert_eq!(names, vec!["c", "a", "d", "b"]);
}

#[test]
fn messages_name_what_is_wrong() {
    let mut interner = Interner::new();
    interner.intern("width".to_string());
    interner.intern("area".to_string());
    let v = VariableId { index: 0 };
    let f = FunctionId { index: 1 };
    assert_eq!(
        message(ErrorKind::UndefinedVariable(v), &interner),
        "the variable `width` is not declared"
    );
    assert_eq!(
        message(ErrorKind::UndefinedFunction(f), &interner),
        "the function `area` is not declared"
    );
    assert_eq!(
        message(ErrorKind::ArityMismatch { function: f, expected: 2, found: 10 }, &interner),
        "the function `area` takes 2 argument(s) but is given 10"
    );
    assert_eq!(
        message(ErrorKind::ArityMismatch { function: f, expected: 0, found: 907 }, &interner),
        "the function `area` takes 0 argument(s) but is given 907"
    );
    // a handle that was never given out has no name
    assert_eq!(
        message(ErrorKind::UndefinedVariable(VariableId { index: 9 }), &interner),
        "the variable `` is not declared"
    );
}

#[test]
fn rendering_moves_the_span() {
    let mut interner = Interner::new();
    interner.intern("x".to_string());
    let error = CheckError {
        span: span(4, 5),
        kind: ErrorKind::UndefinedVariable(VariableId { index: 0 }),
    };
    assert_eq!(
        render(error, &interner, 0),
        Diagnostic::new(4, 5, "the variable `x` is not declared".to_string())
    );
    assert_eq!(
        render(error, &interner, 30),
        Diagnostic::new(34, 35, "the variable `x` is not declared".to_string())
    );
}

#[test]
fn what_stands_before_a_function_has_no_part_in_its_data() {
    let mut interner = Interner::new();
    let text = "fn f(x) = x + g(y, 2.5) * (x - 1);";
    let alone = read_definitions(text.as_bytes(), &mut interner).unwrap();
    assert_eq!(alone.len(), 1);
    assert_eq!(alone[0].offset, 0);

    let prefix = "print 1;\n  fn a() = 2; ";
    let behind = format!("{}{}", prefix, text);
    let both = read_definitions(behind.as_bytes(), &mut interner).unwrap();
    assert_eq!(both.len(), 2);
    assert_eq!(both[1].name, alone[0].name);
    assert_eq!(both[1].offset, prefix.len());
    assert_eq!(both[1].data, alone[0].data);

    let padded = format!("  \n\t{}", text);
    let moved = read_definitions(padded.as_bytes(), &mut interner).unwrap();
    assert_eq!(moved.len(), 1);
    assert_eq!(moved[0].offset, 4);
    assert_eq!(moved[0].data, alone[0].data);

    // a syntax error moves with the text
    let broken = "fn f(x) = + ;";
    let error = read_definitions(broken.as_bytes(), &mut interner).unwrap_err();
    let behind = format!("{}{}", prefix, broken);
    let moved = read_definitions(behind.as_bytes(), &mut interner).unwrap_err();
    assert_eq!((error.start, error.end), (10, 11));
    assert_eq!((moved.start, moved.end), (10 + prefix.len(), 11 + prefix.len()));
}
