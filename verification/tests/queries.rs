use calc::compile::{compile, display_diagnostics};
use calc::db::{Database, Event};
use calc::ir::{
    DefId, DefIdData, Diagnostic, Function, FunctionId, Program, SourceProgram, VariableId,
};
use calc::parser::parse_statements;
use calc::type_check::{find_function, type_check_function, type_check_program};

fn diagnostic(start: usize, end: usize, message: &str) -> Diagnostic {
    Diagnostic { start, end, message: message.to_string() }
}

fn compiled(text: &str) -> (Database, SourceProgram, Vec<Diagnostic>) {
    let mut db = Database::new();
    let source = SourceProgram::new(&mut db, text.to_string());
    let result = compile(&mut db, source);
    (db, source, result.diagnostics)
}

fn names(db: &Database) -> Vec<String> {
    Program {}.functions(db).iter().map(|f| f.name(db).text(db).clone()).collect()
}

#[test]
fn interning_is_idempotent() {
    let mut db = Database::new();
    let x = VariableId::new(&mut db, "x".to_string());
    let y = VariableId::new(&mut db, "y".to_string());
    let again = VariableId::new(&mut db, "x".to_string());
    assert_eq!(x, again);
    assert_ne!(x, y);
    assert_eq!(x.text(&db), "x");
    assert_eq!(y.text(&db), "y");
    let f = FunctionId::new(&mut db, "area".to_string());
    assert_eq!(f, FunctionId::new(&mut db, "area".to_string()));
    assert_eq!(f.text(&db), "area");
    assert!(db.take_logs().is_empty());
}

#[test]
fn identities_are_interned() {
    let mut db = Database::new();
    let f = FunctionId::new(&mut db, "f".to_string());
    let g = FunctionId::new(&mut db, "g".to_string());
    let unknown = DefId::unknown(&db);
    assert_eq!(unknown, DefId::new(&mut db, DefIdData::Unknown));
    let of_f = DefId::new(&mut db, DefIdData::Function(f));
    let of_g = DefId::new(&mut db, DefIdData::Function(g));
    assert_ne!(of_f, of_g);
    assert_ne!(of_f, unknown);
    assert_eq!(of_f, DefId::new(&mut db, DefIdData::Function(f)));
    assert_eq!(of_g.data(&db), DefIdData::Function(g));
    assert_eq!(unknown.data(&db), DefIdData::Unknown);
}

#[test]
fn a_write_starts_a_revision() {
    let mut db = Database::new();
    assert_eq!(db.jar.revision, 1);
    let source = SourceProgram::new(&mut db, "print 1;".to_string());
    assert_eq!(db.jar.revision, 2);
    assert_eq!(source.text(&db), "print 1;");
    source.set_text(&mut db, "print 1;".to_string());
    assert_eq!(db.jar.revision, 3);
    source.set_text(&mut db, "print 2;".to_string());
    assert_eq!(db.jar.revision, 4);
    assert_eq!(source.text(&db), "print 2;");
}

#[test]
fn a_clean_program_has_no_diagnostics() {
    let (db, _, diagnostics) = compiled("fn f(x) = x * 2; fn g(a, b) = f(a) + f(b); print g(1, 2);");
    assert_eq!(diagnostics, vec![]);
    assert_eq!(names(&db), vec!["f".to_string(), "g".to_string()]);
}

#[test]
fn a_syntax_error_is_the_only_diagnostic() {
    let (db, _, diagnostics) = compiled("print 1 + + 2");
    assert_eq!(diagnostics, vec![diagnostic(10, 11, "unexpected character")]);
    assert!(names(&db).is_empty());
    assert_eq!(display_diagnostics(&db), diagnostics);

    // no check runs on a text with a syntax error, whatever else is wrong in it
    let (db, _, diagnostics) = compiled("fn f(x) = y; fn g() = f(); print (;");
    assert_eq!(diagnostics, vec![diagnostic(34, 35, "unexpected character")]);
    assert!(names(&db).is_empty());
}

#[test]
fn an_undefined_variable_is_reported_at_its_span() {
    let (db, _, diagnostics) = compiled("fn f(x) = y;");
    assert_eq!(diagnostics, vec![diagnostic(10, 11, "the variable `y` is not declared")]);
    assert_eq!(names(&db), vec!["f".to_string()]);

    // the span counts from the start of the function, wherever the function stands
    let (db, _, diagnostics) = compiled("print 1;  fn f(x) = y;");
    assert_eq!(diagnostics, vec![diagnostic(10, 11, "the variable `y` is not declared")]);
    assert_eq!(
        display_diagnostics(&db),
        vec![diagnostic(20, 21, "the variable `y` is not declared")]
    );
}

#[test]
fn an_arity_mismatch_is_reported_at_the_call() {
    let (db, _, diagnostics) = compiled("fn f(x) = x; fn g() = f(1,2);");
    assert_eq!(
        diagnostics,
        vec![diagnostic(9, 15, "the function `f` takes 1 argument(s) but is given 2")]
    );
    assert_eq!(
        display_diagnostics(&db),
        vec![diagnostic(22, 28, "the function `f` takes 1 argument(s) but is given 2")]
    );
}

#[test]
fn numbers_in_messages_are_decimal() {
    let (_, _, diagnostics) =
        compiled("fn f(a,b,c,d,e,f,g,h,i,j,k,l) = 0; fn g() = f();");
    assert_eq!(
        diagnostics,
        vec![diagnostic(9, 12, "the function `f` takes 12 argument(s) but is given 0")]
    );
}

#[test]
fn an_undefined_function_is_reported_and_its_arguments_are_checked() {
    let (_, _, diagnostics) = compiled("fn f(x) = g(x, h(y), z) + f(x);");
    assert_eq!(
        diagnostics,
        vec![
            diagnostic(10, 23, "the function `g` is not declared"),
            diagnostic(15, 19, "the function `h` is not declared"),
            diagnostic(17, 18, "the variable `y` is not declared"),
            diagnostic(21, 22, "the variable `z` is not declared"),
        ]
    );
}

#[test]
fn a_function_may_call_itself_and_later_functions() {
    let (_, _, diagnostics) = compiled("fn f(x) = f(x) + g(x); fn g(y) = f(y);");
    assert_eq!(diagnostics, vec![]);
}

#[test]
fn a_parameter_is_no_function_and_a_function_no_variable() {
    let (_, _, diagnostics) = compiled("fn f(x) = x(1) + f;");
    assert_eq!(
        diagnostics,
        vec![
            diagnostic(10, 14, "the function `x` is not declared"),
            diagnostic(17, 18, "the variable `f` is not declared"),
        ]
    );
}

#[test]
fn diagnostics_come_function_by_function() {
    let (db, _, diagnostics) = compiled("fn f() = a; fn g() = b; fn h() = f(1);");
    assert_eq!(
        diagnostics,
        vec![
            diagnostic(9, 10, "the variable `a` is not declared"),
            diagnostic(9, 10, "the variable `b` is not declared"),
            diagnostic(9, 13, "the function `f` takes 0 argument(s) but is given 1"),
        ]
    );
    assert_eq!(
        display_diagnostics(&db),
        vec![
            diagnostic(9, 10, "the variable `a` is not declared"),
            diagnostic(21, 22, "the variable `b` is not declared"),
            diagnostic(33, 37, "the function `f` takes 0 argument(s) but is given 1"),
        ]
    );
}

#[test]
fn the_first_of_two_definitions_is_found() {
    let mut db = Database::new();
    let source = SourceProgram::new(&mut db, "fn f() = 1; fn f(x) = x; fn g() = f();".to_string());
    let program = parse_statements(&mut db, source);
    let functions = program.functions(&db).clone();
    assert_eq!(functions.len(), 3);
    assert_ne!(functions[0], functions[1]);
    let f = functions[0].name(&db);
    assert_eq!(functions[1].name(&db), f);
    assert_eq!(find_function(&mut db, program, f), Some(functions[0]));
    let g = functions[2].name(&db);
    assert_eq!(find_function(&mut db, program, g), Some(functions[2]));
    let nowhere = FunctionId::new(&mut db, "h".to_string());
    assert_eq!(find_function(&mut db, program, nowhere), None);
    // the call in `g` is held against the first definition
    let result = compile(&mut db, source);
    assert_eq!(result.diagnostics, vec![]);
}

#[test]
fn a_lookup_is_remembered() {
    let mut db = Database::new();
    let source = SourceProgram::new(&mut db, "fn f() = 1;".to_string());
    let program = parse_statements(&mut db, source);
    let f = program.functions(&db)[0].name(&db);
    assert_eq!(db.take_logs(), vec![Event::ParseStatements]);
    find_function(&mut db, program, f);
    assert_eq!(db.take_logs(), vec![Event::FindFunction(f)]);
    find_function(&mut db, program, f);
    assert_eq!(db.take_logs(), vec![]);
}

#[test]
fn the_first_compilation_runs_everything_once() {
    let (mut db, _, _) = compiled("fn f(x) = x; fn g() = f(1) + f(2);");
    let f = Function { index: 0 };
    let g = Function { index: 1 };
    assert_eq!(
        db.take_logs(),
        vec![
            Event::Compile,
            Event::ParseStatements,
            Event::TypeCheckProgram,
            Event::TypeCheckFunction(f),
            Event::TypeCheckFunction(g),
            Event::FindFunction(f.name(&db)),
        ]
    );
}

#[test]
fn compiling_again_runs_nothing_and_reports_the_same() {
    let (mut db, source, first) = compiled("fn f(x) = y; fn g() = f(1, 2) + h();");
    assert_eq!(first.len(), 3);
    db.take_logs();
    let second = compile(&mut db, source).diagnostics;
    assert_eq!(second, first);
    assert_eq!(db.take_logs(), vec![]);
    let third = compile(&mut db, source).diagnostics;
    assert_eq!(third, first);
    assert_eq!(db.take_logs(), vec![]);
}

#[test]
fn parsing_again_runs_nothing() {
    let mut db = Database::new();
    let source = SourceProgram::new(&mut db, "fn f(x) = x;".to_string());
    parse_statements(&mut db, source);
    assert_eq!(db.take_logs(), vec![Event::ParseStatements]);
    parse_statements(&mut db, source);
    assert_eq!(db.take_logs(), vec![]);
}

#[test]
fn an_edit_of_one_body_leaves_the_other_checks_alone() {
    let (mut db, source, _) = compiled("fn f(x) = x; fn g(y) = y; fn h(z) = f(z);");
    let before = Program {}.functions(&db).clone();
    db.take_logs();
    source.set_text(&mut db, "fn f(x) = x; fn g(y) = y + 1; fn h(z) = f(z);".to_string());
    let diagnostics = compile(&mut db, source).diagnostics;
    assert_eq!(diagnostics, vec![]);
    // the functions keep their handles, and only `g` is checked again
    assert_eq!(*Program {}.functions(&db), before);
    assert_eq!(db.take_logs(), vec![Event::ParseStatements, Event::TypeCheckFunction(before[1])]);
}

#[test]
fn an_edit_before_a_function_leaves_its_data_and_its_check_alone() {
    let (mut db, source, _) = compiled("fn f(x) = x + y; print f(1);");
    let f = Program {}.functions(&db)[0];
    let stamp = db.jar.table.entities[f.index].changed_at;
    assert_eq!(f.offset(&db), 0);
    db.take_logs();
    source.set_text(&mut db, "print 12345;\nfn f(x) = x + y; print f(1);".to_string());
    let diagnostics = compile(&mut db, source).diagnostics;
    assert_eq!(*Program {}.functions(&db), vec![f]);
    assert_eq!(db.jar.table.entities[f.index].changed_at, stamp);
    assert_eq!(f.offset(&db), 13);
    assert_eq!(db.take_logs(), vec![Event::ParseStatements]);
    // what the check remembered is reported again, and displayed where the function now stands
    assert_eq!(diagnostics, vec![diagnostic(14, 15, "the variable `y` is not declared")]);
    assert_eq!(
        display_diagnostics(&db),
        vec![diagnostic(27, 28, "the variable `y` is not declared")]
    );
}

#[test]
fn writing_the_same_text_parses_again_and_checks_nothing() {
    let (mut db, source, first) = compiled("fn f(x) = y; fn g() = f(1);");
    db.take_logs();
    source.set_text(&mut db, "fn f(x) = y; fn g() = f(1);".to_string());
    let second = compile(&mut db, source).diagnostics;
    assert_eq!(second, first);
    assert_eq!(db.take_logs(), vec![Event::ParseStatements]);
}

#[test]
fn a_new_arity_checks_the_callers_again() {
    let (mut db, source, first) = compiled("fn f(x) = x; fn g() = f(1); fn h() = 2;");
    assert_eq!(first, vec![]);
    let functions = Program {}.functions(&db).clone();
    db.take_logs();
    source.set_text(&mut db, "fn f(x, y) = x; fn g() = f(1); fn h() = 2;".to_string());
    let second = compile(&mut db, source).diagnostics;
    assert_eq!(
        second,
        vec![diagnostic(9, 13, "the function `f` takes 2 argument(s) but is given 1")]
    );
    assert_eq!(
        db.take_logs(),
        vec![
            Event::ParseStatements,
            Event::TypeCheckFunction(functions[0]),
            Event::TypeCheckFunction(functions[1]),
        ]
    );
}

#[test]
fn a_new_function_at_the_end_is_the_only_one_checked() {
    let (mut db, source, _) = compiled("fn f(x) = x; fn g() = f(1);");
    let functions = Program {}.functions(&db).clone();
    let f = functions[0].name(&db);
    db.take_logs();
    source.set_text(&mut db, "fn f(x) = x; fn g() = f(1); fn h() = g();".to_string());
    let diagnostics = compile(&mut db, source).diagnostics;
    assert_eq!(diagnostics, vec![]);
    let now = Program {}.functions(&db).clone();
    assert_eq!(now[..2], functions[..]);
    let g = functions[1].name(&db);
    // the list of functions changed, so the lookup of `f` runs again; it gives
    // what it gave before, so the check of `g` does not run
    assert_eq!(
        db.take_logs(),
        vec![
            Event::ParseStatements,
            Event::TypeCheckProgram,
            Event::FindFunction(f),
            Event::TypeCheckFunction(now[2]),
            Event::FindFunction(g),
        ]
    );
}

#[test]
fn a_function_that_comes_back_has_its_handle_back() {
    let (mut db, source, _) = compiled("fn f(x) = x; fn g() = 1;");
    let functions = Program {}.functions(&db).clone();
    source.set_text(&mut db, "fn g() = 1;".to_string());
    compile(&mut db, source);
    assert_eq!(*Program {}.functions(&db), vec![functions[1]]);
    source.set_text(&mut db, "fn g() = 1; fn f(x) = x;".to_string());
    db.take_logs();
    compile(&mut db, source);
    assert_eq!(*Program {}.functions(&db), vec![functions[1], functions[0]]);
    assert_eq!(db.take_logs(), vec![Event::ParseStatements, Event::TypeCheckProgram]);
}

#[test]
fn a_rerun_replaces_the_diagnostics() {
    let (mut db, source, first) = compiled("fn f(x) = y;");
    assert_eq!(first.len(), 1);
    source.set_text(&mut db, "fn f(x) = x;".to_string());
    assert_eq!(compile(&mut db, source).diagnostics, vec![]);
    source.set_text(&mut db, "fn f(x) = ".to_string());
    assert_eq!(
        compile(&mut db, source).diagnostics,
        vec![diagnostic(10, 10, "unexpected character")]
    );
    source.set_text(&mut db, "fn f(x) = z;".to_string());
    assert_eq!(
        compile(&mut db, source).diagnostics,
        vec![diagnostic(10, 11, "the variable `z` is not declared")]
    );
}

#[test]
fn the_queries_can_be_called_one_by_one() {
    let mut db = Database::new();
    let source = SourceProgram::new(&mut db, "fn f(x) = y; fn g() = f();".to_string());
    let program = parse_statements(&mut db, source);
    let functions = program.functions(&db).clone();
    type_check_function(&mut db, functions[1], program);
    assert_eq!(
        db.take_logs(),
        vec![
            Event::ParseStatements,
            Event::TypeCheckFunction(functions[1]),
            Event::FindFunction(functions[0].name(&db)),
        ]
    );
    type_check_program(&mut db, program);
    assert_eq!(
        db.take_logs(),
        vec![Event::TypeCheckProgram, Event::TypeCheckFunction(functions[0])]
    );
    let result = compile(&mut db, source);
    assert_eq!(db.take_logs(), vec![Event::Compile]);
    assert_eq!(
        result.diagnostics,
        vec![
            diagnostic(10, 11, "the variable `y` is not declared"),
            diagnostic(9, 12, "the function `f` takes 1 argument(s) but is given 0"),
        ]
    );
}

#[test]
fn reparsing_the_same_text_gives_the_same_program() {
    let text = "fn f(x) = x * 2.5; fn g(a, b) = f(a) + f(b);";
    let (mut db, source, _) = compiled(text);
    let functions = Program {}.functions(&db).clone();
    let stamps: Vec<u64> = db.jar.table.entities.iter().map(|e| e.changed_at).collect();
    // names interned in between do not change what the text means
    VariableId::new(&mut db, "unrelated".to_string());
    source.set_text(&mut db, text.to_string());
    parse_statements(&mut db, source);
    assert_eq!(*Program {}.functions(&db), functions);
    let again: Vec<u64> = db.jar.table.entities.iter().map(|e| e.changed_at).collect();
    assert_eq!(again, stamps);
    // a second session gives the same tree
    let (other, _, _) = compiled(text);
    for f in functions {
        assert_eq!(f.data(&db), f.data(&other));
    }
}
