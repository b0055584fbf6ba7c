//! The compilation of the source text: parsing, checking, and the diagnostics
//! that both gathered.

use vstd::prelude::*;
use crate::db::{carried, same_but_checks, CheckMemo, Database, Event, Jar};
use crate::grammar::ParseError;
use crate::interner::{extends, Interner};
use crate::ir::{
    diagnostics_view, CheckError, Diagnostic, DiagnosticView, Diagnostics, ErrorKind, Function,
    Program, SourceProgram,
};
use crate::laws::lemma_findings_in_text;
use crate::lexer::{names_of_text, push_ascii};
use crate::parser::{identities_of_text, parse_statements, rederived, DefinitionView};
use crate::type_check::{
    appended, lemma_appended_trans, lemma_appended_weaken, lemma_ran_split, of_program, ran,
    type_check_program,
};

verus! {

/// What a compilation hands back: the program, and every diagnostic that parsing
/// and checking reported. A diagnostic of the parser counts bytes from the start
/// of the text; a diagnostic of a check counts them from the start of the
/// function that it is about.
#[derive(Debug)]
pub struct CompileResult {
    pub program: Program,
    pub diagnostics: Vec<Diagnostic>,
}

/// The name behind a handle; empty if the handle was never given out.
pub open spec fn name_text(names: Seq<Seq<char>>, index: usize) -> Seq<char> {
    if index < names.len() {
        names[index as int]
    } else {
        Seq::empty()
    }
}

/// The decimal digits of a number.
pub open spec fn decimal(n: nat) -> Seq<char>
    decreases n,
{
    if n < 10 {
        seq![(48 + n) as u8 as char]
    } else {
        decimal(n / 10).push((48 + n % 10) as u8 as char)
    }
}

/// The message for a finding of a check.
pub open spec fn message_of(kind: ErrorKind, names: Seq<Seq<char>>) -> Seq<char> {
    match kind {
        ErrorKind::UndefinedVariable(v) => "the variable `"@ + name_text(names, v.index)
            + "` is not declared"@,
        ErrorKind::UndefinedFunction(f) => "the function `"@ + name_text(names, f.index)
            + "` is not declared"@,
        ErrorKind::ArityMismatch { function, expected, found } => "the function `"@ + name_text(
            names,
            function.index,
        ) + "` takes "@ + decimal(expected as nat) + " argument(s) but is given "@ + decimal(
            found as nat,
        ),
    }
}

/// The message for a syntax error.
pub open spec fn syntax_message() -> Seq<char> {
    "unexpected character"@
}

/// The diagnostic for a finding of a check, at the span of the finding moved by `shift`.
pub open spec fn rendered(error: CheckError, names: Seq<Seq<char>>, shift: usize) -> DiagnosticView {
    DiagnosticView {
        start: (error.span.start + shift) as usize,
        end: (error.span.end + shift) as usize,
        message: message_of(error.kind, names),
    }
}

/// The diagnostics for the first `n` of `errors`.
pub open spec fn rendered_all(errors: Seq<CheckError>, n: int, names: Seq<Seq<char>>, shift: usize) -> Seq<
    DiagnosticView,
>
    decreases n,
{
    if n <= 0 || n > errors.len() {
        Seq::empty()
    } else {
        rendered_all(errors, n - 1, names, shift).push(rendered(errors[n - 1], names, shift))
    }
}

/// The diagnostic for a syntax error, if there is one.
pub open spec fn syntax_diagnostics(error: Option<ParseError>) -> Seq<DiagnosticView> {
    match error {
        Some(e) => seq![DiagnosticView { start: e.start, end: e.end, message: syntax_message() }],
        None => Seq::empty(),
    }
}

/// What the spans of function `f` are moved by: nothing, or for display the
/// place where the function starts in the text.
pub open spec fn shift_of(jar: Jar, f: Function, absolute: bool) -> usize {
    if absolute {
        jar.table.entities@[f.index as int].offset
    } else {
        0
    }
}

/// The diagnostics of the checks of the first `k` functions of the program, in
/// the order of the functions.
pub open spec fn check_diagnostics(jar: Jar, k: int, absolute: bool) -> Seq<DiagnosticView>
    decreases k,
{
    if k <= 0 || k > jar.table.functions@.len() {
        Seq::empty()
    } else {
        let f = jar.table.functions@[k - 1];
        let errors = jar.expected_errors(f);
        check_diagnostics(jar, k - 1, absolute) + rendered_all(
            errors,
            errors.len() as int,
            jar.interner.names(),
            shift_of(jar, f, absolute),
        )
    }
}

/// All diagnostics of a compilation as the queries gathered them: the syntax
/// error if there is one, then what the check of each function found. The
/// syntax error counts bytes from the start of the text, a finding of a check
/// from the start of the function that it is about.
pub open spec fn diagnostics_of(jar: Jar) -> Seq<DiagnosticView> {
    syntax_diagnostics(jar.syntax_error) + check_diagnostics(
        jar,
        jar.table.functions@.len() as int,
        false,
    )
}

/// All diagnostics of a compilation for display against the source text:
/// every one counts bytes from the start of the text.
pub open spec fn displayed(jar: Jar) -> Seq<DiagnosticView> {
    syntax_diagnostics(jar.syntax_error) + check_diagnostics(
        jar,
        jar.table.functions@.len() as int,
        true,
    )
}

/// Appends the decimal digits of `n` to `out`.
fn push_decimal(out: &mut String, n: usize)
    ensures
        final(out)@ == old(out)@ + decimal(n as nat),
    decreases n,
{
    if n >= 10 {
        push_decimal(out, n / 10);
    }
    let digit: u8 = 48 + (n % 10) as u8;
    push_ascii(out, digit);
    proof {
        assert(out@ =~= old(out)@ + decimal(n as nat));
    }
}

/// Appends the name behind `index` to `out`; nothing if the handle was never given out.
fn push_name(out: &mut String, interner: &Interner, index: usize)
    ensures
        final(out)@ == old(out)@ + name_text(interner.names(), index),
{
    match interner.lookup(index) {
        Some(name) => {
            out.append(name.as_str());
        },
        None => {
            proof {
                assert(out@ =~= old(out)@ + name_text(interner.names(), index));
            }
        },
    }
}

/// The message for a finding of a check.
pub fn message(kind: ErrorKind, interner: &Interner) -> (m: String)
    ensures
        m@ == message_of(kind, interner.names()),
{
    let ghost names = interner.names();
    match kind {
        ErrorKind::UndefinedVariable(v) => {
            let mut m = "the variable `".to_owned();
            push_name(&mut m, interner, v.index);
            m.append("` is not declared");
            m
        },
        ErrorKind::UndefinedFunction(f) => {
            let mut m = "the function `".to_owned();
            push_name(&mut m, interner, f.index);
            m.append("` is not declared");
            m
        },
        ErrorKind::ArityMismatch { function, expected, found } => {
            let mut m = "the function `".to_owned();
            push_name(&mut m, interner, function.index);
            m.append("` takes ");
            push_decimal(&mut m, expected);
            m.append(" argument(s) but is given ");
            push_decimal(&mut m, found);
            m
        },
    }
}

/// The diagnostic for a finding of a check, its span moved by `shift`.
pub fn render(error: CheckError, interner: &Interner, shift: usize) -> (d: Diagnostic)
    requires
        error.span.start + shift <= usize::MAX,
        error.span.end + shift <= usize::MAX,
    ensures
        d@ == rendered(error, interner.names(), shift),
{
    Diagnostic {
        start: error.span.start + shift,
        end: error.span.end + shift,
        message: message(error.kind, interner),
    }
}

/// Gathers the diagnostics of a compilation that has settled.
fn collect(db: &Database, absolute: bool) -> (diagnostics: Vec<Diagnostic>)
    requires
        db.wf(),
        db.jar.current(),
        db.jar.all_settled(),
    ensures
        diagnostics_view(diagnostics@) == syntax_diagnostics(db.jar.syntax_error)
            + check_diagnostics(db.jar, db.jar.table.functions@.len() as int, absolute),
{
    let mut gathered = Diagnostics::new();
    match db.jar.syntax_error {
        Some(e) => {
            gathered.push(
                Diagnostic { start: e.start, end: e.end, message: "unexpected character".to_owned() },
            );
        },
        None => {},
    }
    proof {
        assert(gathered@ =~= syntax_diagnostics(db.jar.syntax_error));
        assert(gathered@ =~= syntax_diagnostics(db.jar.syntax_error) + check_diagnostics(
            db.jar,
            0,
            absolute,
        ));
    }
    let ghost names = db.jar.interner.names();
    let len = db.jar.text.as_str().as_bytes().len();
    let n = db.jar.table.functions.len();
    let mut k: usize = 0;
    while k < n
        invariant
            k <= n,
            n == db.jar.table.functions@.len(),
            len == db.jar.bytes().len(),
            db.wf(),
            db.jar.current(),
            db.jar.all_settled(),
            names == db.jar.interner.names(),
            gathered@ == syntax_diagnostics(db.jar.syntax_error) + check_diagnostics(
                db.jar,
                k as int,
                absolute,
            ),
        decreases n - k,
    {
        let f = db.jar.table.functions[k];
        proof {
            assert(db.jar.settled_for(db.jar.table.functions@[k as int]));
            db.jar.lemma_checked(f);
        }
        let ghost base = gathered@;
        let ghost expected = db.jar.expected_errors(f);
        let entity = &db.jar.table.entities[f.index];
        let shift = if absolute {
            entity.offset
        } else {
            0
        };
        proof {
            assert forall|j: int| 0 <= j < expected.len() implies (#[trigger] expected[j]).span.start
                <= expected[j].span.end && expected[j].span.end + shift <= len by {
                lemma_findings_in_text(db.jar, k as int, j);
            }
        }
        match &entity.check {
            Some(memo) => {
                let m = memo.errors.len();
                let mut i: usize = 0;
                while i < m
                    invariant
                        i <= m,
                        m == memo.errors@.len(),
                        memo.errors@ == expected,
                        names == db.jar.interner.names(),
                        gathered@ == base + rendered_all(expected, i as int, names, shift),
                        forall|j: int|
                            0 <= j < m ==> (#[trigger] expected[j]).span.start <= expected[j].span.end
                                && expected[j].span.end + shift <= len,
                    decreases m - i,
                {
                    gathered.push(render(memo.errors[i], &db.jar.interner, shift));
                    proof {
                        assert(gathered@ =~= base + rendered_all(expected, i + 1, names, shift));
                    }
                    i = i + 1;
                }
            },
            None => {},
        }
        proof {
            assert(gathered@ =~= syntax_diagnostics(db.jar.syntax_error) + check_diagnostics(
                db.jar,
                k + 1,
                absolute,
            ));
        }
        k = k + 1;
    }
    gathered.into_vec()
}

/// The diagnostics of the last compilation for display against the source
/// text: every finding of a check is moved by the place where its function
/// starts in the text, so that all diagnostics count bytes from the start of
/// the text.
pub fn display_diagnostics(db: &Database) -> (diagnostics: Vec<Diagnostic>)
    requires
        db.wf(),
        db.jar.current(),
        db.jar.all_settled(),
    ensures
        diagnostics_view(diagnostics@) == displayed(db.jar),
{
    collect(db, true)
}

/// The diagnostics that parsing the current text reported: the one syntax
/// error, or nothing.
pub fn parse_diagnostics(db: &Database) -> (diagnostics: Vec<Diagnostic>)
    ensures
        diagnostics_view(diagnostics@) == syntax_diagnostics(db.jar.syntax_error),
{
    let mut gathered = Diagnostics::new();
    match db.jar.syntax_error {
        Some(e) => {
            gathered.push(
                Diagnostic { start: e.start, end: e.end, message: "unexpected character".to_owned() },
            );
        },
        None => {},
    }
    proof {
        assert(gathered@ =~= syntax_diagnostics(db.jar.syntax_error));
    }
    gathered.into_vec()
}

/// The events that a compilation can add to the record.
pub open spec fn of_compile() -> spec_fn(Event) -> bool {
    |e: Event| true
}

/// Compiles the source text: derives the program from it and checks every function.
///
/// Whatever was derived before and is still good is used again. The diagnostics
/// are those of the current text alone: a run replaces what an earlier run
/// reported. Compiling again without a write in between runs nothing and
/// reports the same.
pub fn compile(db: &mut Database, source: SourceProgram) -> (result: CompileResult)
    requires
        old(db).wf(),
    ensures
        final(db).wf(),
        final(db).jar.settled(),
        final(db).jar.revision == old(db).jar.revision,
        final(db).jar.text == old(db).jar.text,
        final(db).jar.interner.grown_from(&old(db).jar.interner),
        old(db).jar.current() ==> final(db).jar.interner == old(db).jar.interner,
        !old(db).jar.current() ==> final(db).jar.interner.names() == names_of_text(
            old(db).jar.interner.names(),
            old(db).jar.bytes(),
        ) && final(db).jar.interner.identities() == identities_of_text(
            old(db).jar.interner.identities(),
            final(db).jar.interner.names(),
            old(db).jar.bytes(),
        ),
        diagnostics_view(result.diagnostics@) == diagnostics_of(final(db).jar),
        old(db).jar.settled() ==> final(db).jar == old(db).jar && final(db).logs@ == old(db).logs@,
        appended(old(db).logs@, final(db).logs@, of_compile()),
        ran(old(db).logs@, final(db).logs@, Event::Compile) <==> !old(db).jar.compiled,
        ran(old(db).logs@, final(db).logs@, Event::ParseStatements) <==> !old(db).jar.current(),
        ran(old(db).logs@, final(db).logs@, Event::TypeCheckProgram) <==> old(db).jar.checked_at
            != Some(final(db).jar.table.changed_at),
        forall|f: Function|
            ran(old(db).logs@, final(db).logs@, Event::TypeCheckFunction(f))
                <==> final(db).jar.in_program(f) && !final(db).jar.reusable(
                old(db).jar.memo_of(f),
                f,
            ),
{
    let ghost logs0 = db.logs@;
    begin(db);
    let ghost jar1 = db.jar;
    let ghost logs1 = db.logs@;
    let program = parse_statements(db, source);
    let ghost jar2 = db.jar;
    let ghost logs2 = db.logs@;
    type_check_program(db, program);
    proof {
        lemma_compile_record(old(db).jar, jar1, jar2, db.jar, logs0, logs1, logs2, db.logs@);
    }
    let diagnostics = collect(db, false);
    CompileResult { program, diagnostics }
}

/// Notes that the compilation ran, and records it if it is the first time.
fn begin(db: &mut Database)
    requires
        old(db).wf(),
    ensures
        final(db).wf(),
        final(db).jar.compiled,
        final(db).jar.interner == old(db).jar.interner,
        final(db).jar.revision == old(db).jar.revision,
        final(db).jar.text == old(db).jar.text,
        final(db).jar.parsed_at == old(db).jar.parsed_at,
        final(db).jar.syntax_error == old(db).jar.syntax_error,
        final(db).jar.table == old(db).jar.table,
        final(db).jar.finds == old(db).jar.finds,
        final(db).jar.checked_at == old(db).jar.checked_at,
        old(db).jar.compiled ==> final(db).jar == old(db).jar && final(db).logs@ == old(db).logs@,
        !old(db).jar.compiled ==> final(db).logs@ == old(db).logs@.push(Event::Compile),
{
    if !db.jar.compiled {
        db.logs.push(Event::Compile);
        db.jar.compiled = true;
    }
    proof {
        assert(db.jar.bytes() == old(db).jar.bytes());
        assert(db.jar.meaning() == old(db).jar.meaning());
    }
}

/// How the record of a compilation follows from the records of its three steps.
proof fn lemma_compile_record(
    jar0: Jar,
    jar1: Jar,
    jar2: Jar,
    jar3: Jar,
    logs0: Seq<Event>,
    logs1: Seq<Event>,
    logs2: Seq<Event>,
    logs3: Seq<Event>,
)
    requires
        jar1.table == jar0.table,
        jar1.parsed_at == jar0.parsed_at,
        jar1.revision == jar0.revision,
        jar1.checked_at == jar0.checked_at,
        jar1.compiled,
        jar0.compiled ==> jar1 == jar0 && logs1 == logs0,
        !jar0.compiled ==> logs1 == logs0.push(Event::Compile),
        jar2.wf(),
        jar2.current(),
        jar2.revision == jar1.revision,
        jar2.checked_at == jar1.checked_at,
        jar2.compiled == jar1.compiled,
        jar1.current() ==> jar2 == jar1 && logs2 == logs1,
        !jar1.current() ==> logs2 == logs1.push(Event::ParseStatements) && rederived(
            jar1.table,
            jar2.table,
            jar2.definitions(),
            jar2.revision,
        ),
        same_but_checks(jar2.table, jar3.table),
        jar3.compiled == jar2.compiled,
        jar3.parsed_at == jar2.parsed_at,
        jar3.revision == jar2.revision,
        jar3.checked_at == Some(jar2.table.changed_at),
        jar3.all_settled(),
        jar2.all_settled() && jar2.checked_at == Some(jar2.table.changed_at) ==> jar3 == jar2
            && logs3 == logs2,
        appended(logs2, logs3, of_program()),
        ran(logs2, logs3, Event::TypeCheckProgram) <==> jar2.checked_at != Some(
            jar2.table.changed_at,
        ),
        forall|f: Function|
            ran(logs2, logs3, Event::TypeCheckFunction(f)) <==> jar2.in_program(f)
                && !jar2.checked(f),
    ensures
        jar3.settled(),
        jar0.settled() ==> jar3 == jar0 && logs3 == logs0,
        appended(logs0, logs3, of_compile()),
        ran(logs0, logs3, Event::Compile) <==> !jar0.compiled,
        ran(logs0, logs3, Event::ParseStatements) <==> !jar0.current(),
        ran(logs0, logs3, Event::TypeCheckProgram) <==> jar0.checked_at != Some(
            jar3.table.changed_at,
        ),
        forall|f: Function|
            ran(logs0, logs3, Event::TypeCheckFunction(f)) <==> jar3.in_program(f) && !jar3.reusable(
                jar0.memo_of(f),
                f,
            ),
{
    if !jar0.compiled {
        assert(logs1[logs0.len() as int] == Event::Compile);
    }
    if !jar1.current() {
        assert(logs2[logs1.len() as int] == Event::ParseStatements);
    }
    assert(appended(logs0, logs1, of_compile()));
    assert(appended(logs1, logs2, of_compile()));
    lemma_appended_weaken(logs2, logs3, of_program(), of_compile());
    lemma_appended_trans(logs0, logs1, logs2, of_compile());
    lemma_appended_trans(logs0, logs2, logs3, of_compile());
    lemma_three(logs0, logs1, logs2, logs3, Event::Compile);
    lemma_three(logs0, logs1, logs2, logs3, Event::ParseStatements);
    lemma_three(logs0, logs1, logs2, logs3, Event::TypeCheckProgram);
    lemma_not_ran(logs0, logs1, Event::Compile, Event::ParseStatements);
    lemma_not_ran(logs0, logs1, Event::Compile, Event::TypeCheckProgram);
    lemma_not_ran(logs1, logs2, Event::ParseStatements, Event::Compile);
    lemma_not_ran(logs1, logs2, Event::ParseStatements, Event::TypeCheckProgram);
    assert(!ran(logs2, logs3, Event::Compile)) by {
        if ran(logs2, logs3, Event::Compile) {
            let i = choose|i: int|
                logs2.len() <= i < logs3.len() && #[trigger] logs3[i] == Event::Compile;
            assert(of_program()(logs3[i]));
        }
    }
    assert(!ran(logs2, logs3, Event::ParseStatements)) by {
        if ran(logs2, logs3, Event::ParseStatements) {
            let i = choose|i: int|
                logs2.len() <= i < logs3.len() && #[trigger] logs3[i] == Event::ParseStatements;
            assert(of_program()(logs3[i]));
        }
    }
    assert forall|f: Function|
        ran(logs0, logs3, Event::TypeCheckFunction(f)) <==> jar3.in_program(f) && !jar3.reusable(
            jar0.memo_of(f),
            f,
        ) by {
        if !jar1.current() {
            lemma_memo_carried(jar1, jar2, jar2.definitions(), f);
        }
        lemma_function_record(jar0.memo_of(f), jar2, jar3, logs0, logs1, logs2, logs3, f);
    }
}

/// Where three stretches of the record follow one another, an event ran in
/// the whole if it ran in one of them.
proof fn lemma_three(a: Seq<Event>, b: Seq<Event>, c: Seq<Event>, d: Seq<Event>, e: Event)
    requires
        extends(b, a),
        extends(c, b),
        extends(d, c),
    ensures
        ran(a, d, e) <==> ran(a, b, e) || ran(b, c, e) || ran(c, d, e),
{
    lemma_ran_split(a, b, c, e);
    assert(extends(c, a)) by {
        assert forall|i: int| 0 <= i < a.len() implies a[i] == c[i] by {
            assert(a[i] == b[i]);
        }
    }
    lemma_ran_split(a, c, d, e);
}

/// A stretch that holds at most the one event `only` holds no other event.
proof fn lemma_not_ran(a: Seq<Event>, b: Seq<Event>, only: Event, e: Event)
    requires
        b == a || b == a.push(only),
        e != only,
    ensures
        !ran(a, b, e),
{
    if ran(a, b, e) {
        let i = choose|i: int| a.len() <= i < b.len() && #[trigger] b[i] == e;
        assert(b[i] == only);
    }
}

/// Deriving the program anew leaves what the checks remember as it was.
proof fn lemma_memo_carried(before: Jar, after: Jar, defs: Seq<DefinitionView>, f: Function)
    requires
        rederived(before.table, after.table, defs, after.revision),
    ensures
        after.memo_of(f) == before.memo_of(f),
{
    let s = f.index as int;
    if s < before.table.entities@.len() {
        assert(carried(before.table.entities@[s], after.table.entities@[s], after.revision));
    }
}

/// The check of `f` ran during a compilation exactly if `f` is in the program
/// and what its check remembered before could not be used again.
proof fn lemma_function_record(
    memo: Option<CheckMemo>,
    parsed: Jar,
    checked: Jar,
    logs0: Seq<Event>,
    logs1: Seq<Event>,
    logs2: Seq<Event>,
    logs3: Seq<Event>,
    f: Function,
)
    requires
        parsed.wf(),
        parsed.memo_of(f) == memo,
        same_but_checks(parsed.table, checked.table),
        logs1 == logs0 || logs1 == logs0.push(Event::Compile),
        logs2 == logs1 || logs2 == logs1.push(Event::ParseStatements),
        extends(logs3, logs2),
        ran(logs2, logs3, Event::TypeCheckFunction(f)) <==> parsed.in_program(f) && !parsed.checked(f),
    ensures
        ran(logs0, logs3, Event::TypeCheckFunction(f)) <==> checked.in_program(f)
            && !checked.reusable(memo, f),
{
    lemma_three(logs0, logs1, logs2, logs3, Event::TypeCheckFunction(f));
    lemma_not_ran(logs0, logs1, Event::Compile, Event::TypeCheckFunction(f));
    lemma_not_ran(logs1, logs2, Event::ParseStatements, Event::TypeCheckFunction(f));
    if parsed.in_program(f) {
        let j = choose|j: int|
            0 <= j < parsed.table.functions@.len() && #[trigger] parsed.table.functions@[j] == f;
        assert(checked.table.functions@[j] == f);
    }
    if checked.in_program(f) {
        let j = choose|j: int|
            0 <= j < checked.table.functions@.len() && #[trigger] checked.table.functions@[j] == f;
        assert(parsed.table.functions@[j] == f);
    }
    parsed.lemma_reusable_same(&checked, memo, f);
}

} // verus!
