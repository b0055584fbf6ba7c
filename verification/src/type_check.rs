//! Name resolution and arity checking of function bodies.

use vstd::prelude::*;
use crate::db::{
    finds_wf, first_named, lemma_observes_stable, same_but_checks, CheckMemo, Database, Event,
    FindMemo, FunctionEntity, ProgramTable,
};
use crate::interner::extends;
use crate::ir::{
    expr_view, CheckError, ErrorKind, ExprDataView, ExprView, Expression, ExpressionData,
    Function, FunctionId, Program, VariableId,
};

verus! {

/// What a check can ask about the program around a function: which function a
/// name stands for, and how many parameters a function has.
pub struct World {
    pub find: spec_fn(FunctionId) -> Option<Function>,
    pub arity: spec_fn(Function) -> usize,
}

/// One observation that a check made of the program around it.
#[derive(Clone, Copy, Debug, PartialEq, Eq)]
pub enum Dependency {
    /// Looking up the name gave this result.
    Find(FunctionId, Option<Function>),
    /// The function had this many parameters.
    Arity(Function, usize),
}

/// The observation is true of the world `w`.
pub open spec fn holds_in(w: World, d: Dependency) -> bool {
    match d {
        Dependency::Find(name, seen) => (w.find)(name) == seen,
        Dependency::Arity(function, seen) => (w.arity)(function) == seen,
    }
}

/// Every observation in `deps` is true of the world `w`.
pub open spec fn agrees(w: World, deps: Seq<Dependency>) -> bool {
    forall|i: int| 0 <= i < deps.len() ==> holds_in(w, #[trigger] deps[i])
}

/// The number of parameters of the function that a name stands for in `w`.
pub open spec fn signature(w: World, name: FunctionId) -> Option<usize> {
    match (w.find)(name) {
        Some(function) => Some((w.arity)(function)),
        None => None,
    }
}

/// What is wrong with a call of `name` with `found` arguments, if anything.
pub open spec fn call_errors(e: ExprView, name: FunctionId, found: nat, w: World) -> Seq<CheckError> {
    match signature(w, name) {
        None => seq![CheckError { span: e.span, kind: ErrorKind::UndefinedFunction(name) }],
        Some(expected) => if expected != found {
            seq![
                CheckError {
                    span: e.span,
                    kind: ErrorKind::ArityMismatch { function: name, expected, found: found as usize },
                },
            ]
        } else {
            Seq::empty()
        },
    }
}

/// The findings of checking an expression, in the order of a walk from left
/// to right: a variable must be among `params`; a called function must exist
/// in `w` and take as many arguments as it is given; the arguments of a call
/// are checked whatever the call itself gave.
pub open spec fn check_spec(e: ExprView, params: Seq<VariableId>, w: World) -> Seq<CheckError>
    decreases e, 0nat,
{
    match e.data {
        ExprDataView::Op(l, _, r) => check_spec(*l, params, w) + check_spec(*r, params, w),
        ExprDataView::Number(_) => Seq::empty(),
        ExprDataView::Variable(v) => if params.contains(v) {
            Seq::empty()
        } else {
            seq![CheckError { span: e.span, kind: ErrorKind::UndefinedVariable(v) }]
        },
        ExprDataView::Call(name, args) => call_errors(e, name, args.len(), w) + check_all(
            args,
            args.len() as int,
            params,
            w,
        ),
    }
}

/// The findings of checking the first `n` of `args`, one after another.
pub open spec fn check_all(args: Seq<ExprView>, n: int, params: Seq<VariableId>, w: World) -> Seq<
    CheckError,
>
    decreases args, n,
{
    if n <= 0 || n > args.len() {
        Seq::empty()
    } else {
        check_all(args, n - 1, params, w) + check_spec(args[n - 1], params, w)
    }
}

/// A world that agrees with observations agrees with the first of them.
pub proof fn lemma_agrees_prefix(w: World, whole: Seq<Dependency>, part: Seq<Dependency>)
    requires
        extends(whole, part),
        agrees(w, whole),
    ensures
        agrees(w, part),
{
    assert forall|i: int| 0 <= i < part.len() implies holds_in(w, #[trigger] part[i]) by {
        assert(part[i] == whole[i]);
        assert(holds_in(w, whole[i]));
    }
}

/// A lookup of `name` at the list stamped `stamp` is remembered.
pub open spec fn remembered(finds: Seq<FindMemo>, name: FunctionId, stamp: u64) -> bool {
    exists|i: int|
        0 <= i < finds.len() && (#[trigger] finds[i]).name == name && finds[i].list_stamp == stamp
}

/// Every handle of the program has its entity.
pub open spec fn handles_valid(table: ProgramTable) -> bool {
    forall|k: int|
        0 <= k < table.functions@.len() ==> (#[trigger] table.functions@[k]).index
            < table.entities@.len()
}

/// The events from `before.len()` on in `after` all satisfy `allowed`, and
/// `after` begins with `before`.
pub open spec fn appended(before: Seq<Event>, after: Seq<Event>, allowed: spec_fn(Event) -> bool) -> bool {
    &&& extends(after, before)
    &&& forall|i: int| before.len() <= i < after.len() ==> allowed(#[trigger] after[i])
}

/// `event` is among the events from `before.len()` on in `after`.
pub open spec fn ran(before: Seq<Event>, after: Seq<Event>, event: Event) -> bool {
    exists|i: int| before.len() <= i < after.len() && #[trigger] after[i] == event
}

/// The events that lookups add to the record.
pub open spec fn is_find() -> spec_fn(Event) -> bool {
    |e: Event| e is FindFunction
}

/// What a lookup gives: the first function from `from` on that has the name,
/// or nothing if none has it.
pub proof fn lemma_first_named(
    entities: Seq<FunctionEntity>,
    functions: Seq<Function>,
    name: FunctionId,
    from: int,
)
    requires
        0 <= from,
    ensures
        match first_named(entities, functions, name, from) {
            Some(f) => exists|k: int|
                from <= k < functions.len() && #[trigger] functions[k] == f
                    && entities[f.index as int].name == name && forall|j: int|
                    from <= j < k ==> entities[(#[trigger] functions[j]).index as int].name != name,
            None => forall|k: int|
                from <= k < functions.len() ==> entities[(#[trigger] functions[k]).index as int].name
                    != name,
        },
    decreases functions.len() - from,
{
    if from < functions.len() {
        if entities[functions[from].index as int].name == name {
            assert(functions[from] == functions[from]);
        } else {
            lemma_first_named(entities, functions, name, from + 1);
            match first_named(entities, functions, name, from + 1) {
                Some(f) => {
                    let k = choose|k: int|
                        from + 1 <= k < functions.len() && #[trigger] functions[k] == f
                            && entities[f.index as int].name == name && forall|j: int|
                            from + 1 <= j < k ==> entities[(
                            #[trigger] functions[j]).index as int].name != name;
                    assert(functions[k] == f);
                },
                None => {},
            }
        }
    }
}

/// The first function of the program with the name `name`.
fn search(table: &ProgramTable, name: FunctionId) -> (r: Option<Function>)
    requires
        handles_valid(*table),
    ensures
        r == first_named(table.entities@, table.functions@, name, 0),
        r matches Some(f) ==> f.index < table.entities@.len(),
{
    let n = table.functions.len();
    let mut k: usize = 0;
    while k < n
        invariant
            k <= n,
            n == table.functions@.len(),
            handles_valid(*table),
            first_named(table.entities@, table.functions@, name, 0) == first_named(
                table.entities@,
                table.functions@,
                name,
                k as int,
            ),
        decreases n - k,
    {
        let f = table.functions[k];
        if table.entities[f.index].name == name {
            return Some(f);
        }
        k = k + 1;
    }
    None
}

/// Looks a name up, answering from memory where the list of functions is
/// still the one that the remembered lookup read.
pub(crate) fn find_in(
    table: &ProgramTable,
    finds: &mut Vec<FindMemo>,
    logs: &mut Vec<Event>,
    name: FunctionId,
) -> (r: Option<Function>)
    requires
        handles_valid(*table),
        finds_wf(old(finds)@, *table),
    ensures
        finds_wf(final(finds)@, *table),
        r == first_named(table.entities@, table.functions@, name, 0),
        r matches Some(f) ==> f.index < table.entities@.len(),
        remembered(final(finds)@, name, table.changed_at),
        forall|g: FunctionId|
            remembered(old(finds)@, g, table.changed_at) ==> remembered(
                final(finds)@,
                g,
                table.changed_at,
            ),
        remembered(old(finds)@, name, table.changed_at) ==> *final(finds) == *old(finds)
            && final(logs)@ == old(logs)@,
        !remembered(old(finds)@, name, table.changed_at) ==> final(logs)@ == old(logs)@.push(
            Event::FindFunction(name),
        ),
        appended(old(logs)@, final(logs)@, is_find()),
{
    let n = finds.len();
    let mut i: usize = 0;
    while i < n && finds[i].name != name
        invariant
            i <= n,
            n == finds@.len(),
            *finds == *old(finds),
            forall|j: int| 0 <= j < i ==> (#[trigger] finds@[j]).name != name,
        decreases n - i,
    {
        i = i + 1;
    }
    if i < n && finds[i].list_stamp == table.changed_at {
        proof {
            assert(finds@[i as int].name == name);
            assert(remembered(finds@, name, table.changed_at));
            lemma_first_named(table.entities@, table.functions@, name, 0);
        }
        return finds[i].result;
    }
    proof {
        assert(!remembered(old(finds)@, name, table.changed_at)) by {
            if remembered(old(finds)@, name, table.changed_at) {
                let w = choose|w: int|
                    0 <= w < finds@.len() && (#[trigger] finds@[w]).name == name
                        && finds@[w].list_stamp == table.changed_at;
                if i < n {
                    assert(finds@[i as int].name == name);
                }
            }
        }
    }
    logs.push(Event::FindFunction(name));
    let result = search(table, name);
    let memo = FindMemo { name, list_stamp: table.changed_at, result };
    let ghost before = finds@;
    if i < n {
        finds[i] = memo;
    } else {
        finds.push(memo);
    }
    proof {
        let after = finds@;
        assert(after[i as int] == memo);
        assert forall|g: FunctionId| remembered(before, g, table.changed_at) implies remembered(
            after,
            g,
            table.changed_at,
        ) by {
            let w = choose|w: int|
                0 <= w < before.len() && (#[trigger] before[w]).name == g && before[w].list_stamp
                    == table.changed_at;
            if w == i {
                assert(after[i as int].name == g);
            } else {
                assert(after[w] == before[w]);
            }
        }
        assert forall|a: int, b: int|
            0 <= a < after.len() && 0 <= b < after.len() && (#[trigger] after[a]).name == (
            #[trigger] after[b]).name implies a == b by {
            if a != i {
                assert(after[a] == before[a]);
                assert(before[a].name != name || i < n);
            }
            if b != i {
                assert(after[b] == before[b]);
                assert(before[b].name != name || i < n);
            }
            if i < n {
                assert(before[i as int].name == name);
            }
        }
        assert forall|a: int| 0 <= a < after.len() implies (#[trigger] after[a]).list_stamp
            <= table.changed_at && (after[a].list_stamp == table.changed_at ==> after[a].result
            == first_named(table.entities@, table.functions@, after[a].name, 0)) by {
            if a != i {
                assert(after[a] == before[a]);
            }
        }
    }
    result
}

/// Every world that agrees with `deps` gives the findings that `w0` gives.
pub open spec fn covered(e: ExprView, params: Seq<VariableId>, w0: World, deps: Seq<Dependency>) -> bool {
    forall|w: World|
        #![trigger agrees(w, deps)]
        agrees(w, deps) ==> check_spec(e, params, w) == check_spec(e, params, w0)
}

/// Every lookup among `deps` is remembered at the list stamped `stamp`.
pub open spec fn lookups_remembered(deps: Seq<Dependency>, finds: Seq<FindMemo>, stamp: u64) -> bool {
    forall|i: int|
        0 <= i < deps.len() ==> (#[trigger] deps[i] matches Dependency::Find(name, _) ==> remembered(
            finds,
            name,
            stamp,
        ))
}

/// What a program observes of itself is true of its world.
pub proof fn lemma_observed_agrees(table: ProgramTable, deps: Seq<Dependency>)
    requires
        table.observes_all(deps),
    ensures
        agrees(table.world(), deps),
{
    assert forall|i: int| 0 <= i < deps.len() implies holds_in(table.world(), #[trigger] deps[i]) by {
        assert(table.observes(deps[i]));
    }
}

/// Two stretches of the record that follow one another make one stretch.
pub proof fn lemma_appended_trans(a: Seq<Event>, b: Seq<Event>, c: Seq<Event>, allowed: spec_fn(Event) -> bool)
    requires
        appended(a, b, allowed),
        appended(b, c, allowed),
    ensures
        appended(a, c, allowed),
{
    assert forall|i: int| 0 <= i < a.len() implies a[i] == c[i] by {
        assert(a[i] == b[i]);
        assert(b[i] == c[i]);
    }
    assert forall|i: int| a.len() <= i < c.len() implies allowed(#[trigger] c[i]) by {
        if i < b.len() {
            assert(b[i] == c[i]);
            assert(allowed(b[i]));
        }
    }
}

fn has_param(params: &Vec<VariableId>, v: VariableId) -> (r: bool)
    ensures
        r == params@.contains(v),
{
    let n = params.len();
    let mut i: usize = 0;
    while i < n
        invariant
            i <= n,
            n == params@.len(),
            forall|j: int| 0 <= j < i ==> params@[j] != v,
        decreases n - i,
    {
        if params[i] == v {
            return true;
        }
        i = i + 1;
    }
    false
}

/// Checks an expression against the program, adding the findings to `errors`
/// and every observation made of the program to `deps`.
fn check_expression(
    e: &Expression,
    params: &Vec<VariableId>,
    table: &ProgramTable,
    finds: &mut Vec<FindMemo>,
    logs: &mut Vec<Event>,
    deps: &mut Vec<Dependency>,
    errors: &mut Vec<CheckError>,
)
    requires
        handles_valid(*table),
        finds_wf(old(finds)@, *table),
        table.observes_all(old(deps)@),
        lookups_remembered(old(deps)@, old(finds)@, table.changed_at),
    ensures
        finds_wf(final(finds)@, *table),
        final(errors)@ == old(errors)@ + check_spec(e@, params@, table.world()),
        extends(final(deps)@, old(deps)@),
        table.observes_all(final(deps)@),
        covered(e@, params@, table.world(), final(deps)@),
        appended(old(logs)@, final(logs)@, is_find()),
        forall|g: FunctionId|
            remembered(old(finds)@, g, table.changed_at) ==> remembered(
                final(finds)@,
                g,
                table.changed_at,
            ),
        lookups_remembered(final(deps)@, final(finds)@, table.changed_at),
    decreases e,
{
    let ghost w0 = table.world();
    let ghost deps0 = deps@;
    let ghost errors0 = errors@;
    let ghost logs0 = logs@;
    let ghost finds0 = finds@;
    match &e.data {
        ExpressionData::Op(l, _, r) => {
            check_expression(l, params, table, finds, logs, deps, errors);
            let ghost deps1 = deps@;
            let ghost logs1 = logs@;
            check_expression(r, params, table, finds, logs, deps, errors);
            proof {
                let deps2 = deps@;
                lemma_appended_trans(logs0, logs1, logs@, is_find());
                assert(errors@ =~= errors0 + check_spec(e@, params@, w0));
                assert forall|w: World| #![trigger agrees(w, deps2)] agrees(w, deps2) implies check_spec(
                    e@,
                    params@,
                    w,
                ) == check_spec(e@, params@, w0) by {
                    lemma_agrees_prefix(w, deps2, deps1);
                }
            }
        },
        ExpressionData::Number(_) => {
            proof {
                assert(errors@ =~= errors0 + check_spec(e@, params@, w0));
            }
        },
        ExpressionData::Variable(v) => {
            if !has_param(params, *v) {
                errors.push(CheckError { span: e.span, kind: ErrorKind::UndefinedVariable(*v) });
            }
            proof {
                assert(errors@ =~= errors0 + check_spec(e@, params@, w0));
            }
        },
        ExpressionData::Call(name, args) => {
            let ghost args_view = e@.data->Call_1;
            let n = args.len();
            let found = find_in(table, finds, logs, *name);
            deps.push(Dependency::Find(*name, found));
            let ghost at_find = deps0.len() as int;
            match found {
                None => {
                    errors.push(
                        CheckError { span: e.span, kind: ErrorKind::UndefinedFunction(*name) },
                    );
                },
                Some(c) => {
                    let expected = table.entities[c.index].data.args.len();
                    deps.push(Dependency::Arity(c, expected));
                    if expected != n {
                        errors.push(
                            CheckError {
                                span: e.span,
                                kind: ErrorKind::ArityMismatch { function: *name, expected, found: n },
                            },
                        );
                    }
                },
            }
            let ghost base = errors@;
            let ghost deps1 = deps@;
            proof {
                assert(base =~= errors0 + call_errors(e@, *name, n as nat, w0));
                assert(deps1[at_find] == Dependency::Find(*name, found));
                assert forall|i: int| 0 <= i < deps1.len() implies table.observes(
                    #[trigger] deps1[i],
                ) by {
                    if i < deps0.len() {
                        assert(deps1[i] == deps0[i]);
                    }
                }
                assert forall|i: int| 0 <= i < deps1.len() implies (#[trigger] deps1[i] matches Dependency::Find(
                    g,
                    _,
                ) ==> remembered(finds@, g, table.changed_at)) by {
                    if i < deps0.len() {
                        assert(deps1[i] == deps0[i]);
                    }
                }
                assert forall|w: World| #![trigger agrees(w, deps1)] agrees(w, deps1) implies signature(
                    w,
                    *name,
                ) == signature(w0, *name) by {
                    assert(holds_in(w, deps1[at_find]));
                    if found is Some {
                        assert(deps1[at_find + 1] == Dependency::Arity(found->0, (w0.arity)(found->0)));
                        assert(holds_in(w, deps1[at_find + 1]));
                    }
                }
            }
            let mut i: usize = 0;
            while i < n
                invariant
                    i <= n,
                    n == args@.len(),
                    args_view.len() == n,
                    forall|j: int| 0 <= j < n ==> args_view[j] == expr_view(#[trigger] args@[j]),
                    forall|j: int| 0 <= j < n ==> decreases_to!(e => #[trigger] args@[j]),
                    w0 == table.world(),
                    handles_valid(*table),
                    finds_wf(finds@, *table),
                    table.observes_all(deps@),
                    lookups_remembered(deps@, finds@, table.changed_at),
                    extends(deps@, deps1),
                    appended(logs0, logs@, is_find()),
                    forall|g: FunctionId|
                        remembered(finds0, g, table.changed_at) ==> remembered(
                            finds@,
                            g,
                            table.changed_at,
                        ),
                    errors@ == base + check_all(args_view, i as int, params@, w0),
                    forall|w: World|
                        #![trigger agrees(w, deps@)]
                        agrees(w, deps@) ==> check_all(args_view, i as int, params@, w) == check_all(
                            args_view,
                            i as int,
                            params@,
                            w0,
                        ),
                decreases n - i,
            {
                let ghost deps_before = deps@;
                let ghost logs_before = logs@;
                let ghost errors_before = errors@;
                check_expression(&args[i], params, table, finds, logs, deps, errors);
                proof {
                    let deps_after = deps@;
                    lemma_appended_trans(logs0, logs_before, logs@, is_find());
                    assert(errors@ =~= base + check_all(args_view, i + 1, params@, w0));
                    assert forall|w: World| #![trigger agrees(w, deps_after)] agrees(
                        w,
                        deps_after,
                    ) implies check_all(args_view, i + 1, params@, w) == check_all(
                        args_view,
                        i + 1,
                        params@,
                        w0,
                    ) by {
                        lemma_agrees_prefix(w, deps_after, deps_before);
                    }
                    assert(extends(deps_after, deps1)) by {
                        assert forall|j: int| 0 <= j < deps1.len() implies deps1[j] == deps_after[j] by {
                            assert(deps1[j] == deps_before[j]);
                        }
                    }
                }
                i = i + 1;
            }
            proof {
                let deps2 = deps@;
                assert(errors@ =~= errors0 + check_spec(e@, params@, w0));
                assert forall|w: World| #![trigger agrees(w, deps2)] agrees(w, deps2) implies check_spec(
                    e@,
                    params@,
                    w,
                ) == check_spec(e@, params@, w0) by {
                    lemma_agrees_prefix(w, deps2, deps1);
                }
                assert(extends(deps2, deps0)) by {
                    assert forall|j: int| 0 <= j < deps0.len() implies deps0[j] == deps2[j] by {
                        assert(deps0[j] == deps1[j]);
                    }
                }
            }
        },
    }
}

fn same_target(a: Option<Function>, b: Option<Function>) -> (r: bool)
    ensures
        r == (a == b),
{
    match (a, b) {
        (Some(x), Some(y)) => x == y,
        (None, None) => true,
        _ => false,
    }
}

/// The events that the check of `function` can add to the record.
pub open spec fn of_check(function: Function) -> spec_fn(Event) -> bool {
    |e: Event| e is FindFunction || e == Event::TypeCheckFunction(function)
}

/// Tells whether the check of `function` is up to date, bringing every lookup
/// that it made up to date on the way.
fn validate(db: &mut Database, function: Function) -> (valid: bool)
    requires
        old(db).wf(),
        old(db).jar.current(),
        function.index < old(db).jar.table.entities@.len(),
    ensures
        final(db).wf(),
        valid == old(db).jar.checked(function),
        final(db).jar.same_but_memos(&old(db).jar),
        final(db).jar.table == old(db).jar.table,
        valid ==> final(db).jar.settled_for(function),
        old(db).jar.settled_for(function) ==> final(db).jar == old(db).jar && final(db).logs@
            == old(db).logs@,
        appended(old(db).logs@, final(db).logs@, is_find()),
        forall|g: FunctionId|
            remembered(old(db).jar.finds@, g, old(db).jar.table.changed_at) ==> remembered(
                final(db).jar.finds@,
                g,
                old(db).jar.table.changed_at,
            ),
{
    let entity = &db.jar.table.entities[function.index];
    let memo = match &entity.check {
        None => {
            return false;
        },
        Some(memo) => memo,
    };
    if memo.data_stamp != entity.changed_at {
        return false;
    }
    let ghost deps = memo.deps@;
    let ghost table = db.jar.table;
    let ghost stamp = db.jar.table.changed_at;
    let ghost settled = old(db).jar.settled_for(function);
    let n = memo.deps.len();
    let mut i: usize = 0;
    let mut valid = true;
    while i < n && valid
        invariant
            i <= n,
            n == deps.len(),
            deps == memo.deps@,
            table == old(db).jar.table,
            db.jar.table == table,
            stamp == table.changed_at,
            db.jar.interner == old(db).jar.interner,
            db.jar.revision == old(db).jar.revision,
            db.jar.text == old(db).jar.text,
            db.jar.parsed_at == old(db).jar.parsed_at,
            db.jar.syntax_error == old(db).jar.syntax_error,
            db.jar.checked_at == old(db).jar.checked_at,
            db.jar.compiled == old(db).jar.compiled,
            handles_valid(table),
            finds_wf(db.jar.finds@, table),
            settled ==> db.jar.finds == old(db).jar.finds && db.logs@ == old(db).logs@,
            settled ==> lookups_remembered(deps, old(db).jar.finds@, stamp),
            appended(old(db).logs@, db.logs@, is_find()),
            valid ==> forall|j: int| 0 <= j < i ==> table.observes(#[trigger] deps[j]),
            !valid ==> i < n && !table.observes(deps[i as int]),
            forall|j: int|
                0 <= j < i ==> (#[trigger] deps[j] matches Dependency::Find(g, _) ==> remembered(
                    db.jar.finds@,
                    g,
                    stamp,
                )),
            forall|g: FunctionId|
                remembered(old(db).jar.finds@, g, stamp) ==> remembered(db.jar.finds@, g, stamp),
        decreases n - i, if valid { 1int } else { 0int },
    {
        let ghost logs_before = db.logs@;
        match memo.deps[i] {
            Dependency::Find(name, seen) => {
                proof {
                    if settled {
                        assert(deps[i as int] matches Dependency::Find(g, _) ==> remembered(
                            old(db).jar.finds@,
                            g,
                            stamp,
                        ));
                    }
                }
                let found = find_in(&db.jar.table, &mut db.jar.finds, &mut db.logs, name);
                proof {
                    lemma_appended_trans(old(db).logs@, logs_before, db.logs@, is_find());
                }
                if same_target(found, seen) {
                    i = i + 1;
                } else {
                    valid = false;
                }
            },
            Dependency::Arity(f, seen) => {
                if f.index < db.jar.table.entities.len()
                    && db.jar.table.entities[f.index].data.args.len() == seen {
                    i = i + 1;
                } else {
                    valid = false;
                }
            },
        }
    }
    proof {
        if valid {
            assert(table.observes_all(deps));
        } else {
            assert(!table.observes_all(deps));
        }
    }
    valid
}

/// A stretch of events that satisfy `p` is a stretch of events that satisfy every weaker `q`.
pub proof fn lemma_appended_weaken(
    a: Seq<Event>,
    b: Seq<Event>,
    p: spec_fn(Event) -> bool,
    q: spec_fn(Event) -> bool,
)
    requires
        appended(a, b, p),
        forall|e: Event| #[trigger] p(e) ==> q(e),
    ensures
        appended(a, b, q),
{
}

/// An event ran in a stretch of the record if it ran in its first or in its second part.
pub proof fn lemma_ran_split(a: Seq<Event>, b: Seq<Event>, c: Seq<Event>, e: Event)
    requires
        extends(b, a),
        extends(c, b),
    ensures
        ran(a, c, e) <==> ran(a, b, e) || ran(b, c, e),
{
    if ran(a, b, e) {
        let i = choose|i: int| a.len() <= i < b.len() && #[trigger] b[i] == e;
        assert(c[i] == e);
    }
    if ran(b, c, e) {
        let i = choose|i: int| b.len() <= i < c.len() && #[trigger] c[i] == e;
        assert(c[i] == e);
    }
    if ran(a, c, e) {
        let i = choose|i: int| a.len() <= i < c.len() && #[trigger] c[i] == e;
        if i < b.len() {
            assert(b[i] == e);
        } else {
            assert(c[i] == e);
        }
    }
}

/// Puts what a check found into the memory of the function.
fn remember(entity: &mut FunctionEntity, memo: CheckMemo)
    ensures
        final(entity).check == Some(memo),
        final(entity).name == old(entity).name,
        final(entity).ordinal == old(entity).ordinal,
        final(entity).data == old(entity).data,
        final(entity).offset == old(entity).offset,
        final(entity).changed_at == old(entity).changed_at,
{
    entity.check = Some(memo);
}

/// Looks up the function that a name stands for in the program: the first
/// one of that name. The lookup is remembered for as long as the list of
/// functions stays the same.
pub fn find_function(db: &mut Database, program: Program, name: FunctionId) -> (r: Option<Function>)
    requires
        old(db).wf(),
        old(db).jar.current(),
    ensures
        final(db).wf(),
        final(db).jar.same_but_memos(&old(db).jar),
        final(db).jar.table == old(db).jar.table,
        r == first_named(
            old(db).jar.table.entities@,
            old(db).jar.table.functions@,
            name,
            0,
        ),
        r matches Some(f) ==> f.index < old(db).jar.table.entities@.len(),
        remembered(final(db).jar.finds@, name, old(db).jar.table.changed_at),
        remembered(old(db).jar.finds@, name, old(db).jar.table.changed_at) ==> final(db).jar
            == old(db).jar && final(db).logs@ == old(db).logs@,
        !remembered(old(db).jar.finds@, name, old(db).jar.table.changed_at) ==> final(db).logs@
            == old(db).logs@.push(Event::FindFunction(name)),
{
    find_in(&db.jar.table, &mut db.jar.finds, &mut db.logs, name)
}

/// Checks the body of a function: every variable must be a parameter of the
/// function, every called function must exist and be given as many arguments
/// as it has parameters.
///
/// The findings are remembered with every observation that the check made of
/// the program. As long as the function's data keeps its stamp and the
/// observations stay true, the check does not run again.
pub fn type_check_function(db: &mut Database, function: Function, program: Program)
    requires
        old(db).wf(),
        old(db).jar.current(),
        function.index < old(db).jar.table.entities@.len(),
    ensures
        final(db).wf(),
        final(db).jar.same_but_memos(&old(db).jar),
        final(db).jar.settled_for(function),
        final(db).jar.errors_of(function) == final(db).jar.expected_errors(function),
        old(db).jar.checked(function) ==> final(db).jar.table == old(db).jar.table,
        old(db).jar.settled_for(function) ==> final(db).jar == old(db).jar && final(db).logs@
            == old(db).logs@,
        appended(old(db).logs@, final(db).logs@, of_check(function)),
        ran(old(db).logs@, final(db).logs@, Event::TypeCheckFunction(function))
            <==> !old(db).jar.checked(function),
        forall|g: Function| g != function ==> final(db).jar.memo_of(g) == old(db).jar.memo_of(g),
        forall|g: FunctionId|
            remembered(old(db).jar.finds@, g, old(db).jar.table.changed_at) ==> remembered(
                final(db).jar.finds@,
                g,
                old(db).jar.table.changed_at,
            ),
{
    let ghost logs0 = db.logs@;
    let valid = validate(db, function);
    let ghost logs1 = db.logs@;
    if valid {
        proof {
            lemma_appended_weaken(logs0, logs1, is_find(), of_check(function));
            db.jar.lemma_checked(function);
            assert(!ran(logs0, logs1, Event::TypeCheckFunction(function))) by {
                if ran(logs0, logs1, Event::TypeCheckFunction(function)) {
                    let i = choose|i: int|
                        logs0.len() <= i < logs1.len() && #[trigger] logs1[i]
                            == Event::TypeCheckFunction(function);
                    assert(is_find()(logs1[i]));
                }
            }
        }
        return ;
    }
    let ghost jar1 = db.jar;
    db.logs.push(Event::TypeCheckFunction(function));
    let ghost logs2 = db.logs@;
    let mut deps: Vec<Dependency> = Vec::new();
    let mut errors: Vec<CheckError> = Vec::new();
    let entity = &db.jar.table.entities[function.index];
    check_expression(
        &entity.data.body,
        &entity.data.args,
        &db.jar.table,
        &mut db.jar.finds,
        &mut db.logs,
        &mut deps,
        &mut errors,
    );
    let stamp = entity.changed_at;
    let ghost found = errors@;
    let ghost seen = deps@;
    let ghost world = db.jar.table.world();
    let ghost logs3 = db.logs@;
    let ghost jar3 = db.jar;
    remember(&mut db.jar.table.entities[function.index], CheckMemo { data_stamp: stamp, deps, errors });
    proof {
        let before = old(db).jar;
        let after = db.jar;
        let fi = function.index as int;
        assert(found =~= check_spec(entity.data@.body, entity.data@.args, world));
        assert forall|s: int| 0 <= s < after.table.entities@.len() implies ProgramTable::memo_sound(
            #[trigger] after.table.entities@[s],
        ) by {
            if s != fi {
                assert(after.table.entities@[s] == before.table.entities@[s]);
                assert(ProgramTable::memo_sound(before.table.entities@[s]));
            }
        }
        assert(same_but_checks(before.table, after.table)) by {
            assert forall|s: int| 0 <= s < before.table.entities@.len() implies (
            #[trigger] after.table.entities@[s]).name == before.table.entities@[s].name
                && after.table.entities@[s].ordinal == before.table.entities@[s].ordinal
                && after.table.entities@[s].data == before.table.entities@[s].data
                && after.table.entities@[s].offset == before.table.entities@[s].offset
                && after.table.entities@[s].changed_at == before.table.entities@[s].changed_at by {
                if s != fi {
                    assert(after.table.entities@[s] == before.table.entities@[s]);
                }
            }
        }
        before.lemma_memos_keep_wf(&after);
        assert forall|i: int| 0 <= i < seen.len() implies after.table.observes(#[trigger] seen[i]) by {
            lemma_observes_stable(before.table, after.table, seen[i]);
        }
        assert(after.checked(function));
        after.lemma_checked(function);
        assert forall|g: Function| g != function implies after.memo_of(g) == before.memo_of(g) by {
            if g.index < before.table.entities@.len() {
                let gi = g.index as int;
                assert(after.table.entities@[gi] == before.table.entities@[gi]);
            }
        }
        // the record
        let tail = |e: Event| e is FindFunction || e == Event::TypeCheckFunction(function);
        lemma_appended_weaken(logs0, logs1, is_find(), of_check(function));
        assert(appended(logs1, logs2, of_check(function)));
        lemma_appended_weaken(logs2, logs3, is_find(), of_check(function));
        lemma_appended_trans(logs0, logs1, logs2, of_check(function));
        lemma_appended_trans(logs0, logs2, logs3, of_check(function));
        assert(logs3[logs1.len() as int] == Event::TypeCheckFunction(function)) by {
            assert(logs2[logs1.len() as int] == Event::TypeCheckFunction(function));
        }
        assert(ran(logs0, logs3, Event::TypeCheckFunction(function)));
    }
}

/// The events that the check of a whole program can add to the record.
pub open spec fn of_program() -> spec_fn(Event) -> bool {
    |e: Event| e is FindFunction || e is TypeCheckFunction || e == Event::TypeCheckProgram
}

/// Checks every function of the program, in the order of the definitions.
///
/// The check of the whole program runs again when the list of functions
/// changed; the check of a single function runs only if what it remembers is
/// out of date.
pub fn type_check_program(db: &mut Database, program: Program)
    requires
        old(db).wf(),
        old(db).jar.current(),
    ensures
        final(db).wf(),
        final(db).jar.interner == old(db).jar.interner,
        final(db).jar.revision == old(db).jar.revision,
        final(db).jar.text == old(db).jar.text,
        final(db).jar.parsed_at == old(db).jar.parsed_at,
        final(db).jar.syntax_error == old(db).jar.syntax_error,
        final(db).jar.compiled == old(db).jar.compiled,
        same_but_checks(old(db).jar.table, final(db).jar.table),
        final(db).jar.checked_at == Some(old(db).jar.table.changed_at),
        final(db).jar.all_settled(),
        old(db).jar.all_settled() && old(db).jar.checked_at == Some(old(db).jar.table.changed_at)
            ==> final(db).jar == old(db).jar && final(db).logs@ == old(db).logs@,
        appended(old(db).logs@, final(db).logs@, of_program()),
        ran(old(db).logs@, final(db).logs@, Event::TypeCheckProgram) <==> old(db).jar.checked_at
            != Some(old(db).jar.table.changed_at),
        forall|f: Function|
            ran(old(db).logs@, final(db).logs@, Event::TypeCheckFunction(f))
                <==> old(db).jar.in_program(f) && !old(db).jar.checked(f),
{
    let ghost logs0 = db.logs@;
    let stamp = db.jar.table.changed_at;
    let fresh = match db.jar.checked_at {
        Some(at) => at == stamp,
        None => false,
    };
    if !fresh {
        db.logs.push(Event::TypeCheckProgram);
        db.jar.checked_at = Some(stamp);
    }
    let ghost jar1 = db.jar;
    let ghost logs1 = db.logs@;
    let ghost quiet = old(db).jar.all_settled() && old(db).jar.checked_at == Some(stamp);
    proof {
        assert(jar1.bytes() == old(db).jar.bytes());
        assert(jar1.meaning() == old(db).jar.meaning());
        assert(jar1.wf());
        assert(ran(logs0, logs1, Event::TypeCheckProgram) <==> !fresh) by {
            if !fresh {
                assert(logs1[logs0.len() as int] == Event::TypeCheckProgram);
            }
        }
        assert forall|f: Function| !ran(logs0, logs1, Event::TypeCheckFunction(f)) by {
            if ran(logs0, logs1, Event::TypeCheckFunction(f)) {
                let i = choose|i: int|
                    logs0.len() <= i < logs1.len() && #[trigger] logs1[i]
                        == Event::TypeCheckFunction(f);
                assert(logs1[i] == Event::TypeCheckProgram);
            }
        }
    }
    let n = db.jar.table.functions.len();
    let mut k: usize = 0;
    while k < n
        invariant
            k <= n,
            n == jar1.table.functions@.len(),
            jar1.wf(),
            jar1.current(),
            db.wf(),
            db.jar.same_but_memos(&jar1),
            quiet ==> db.jar == jar1 && db.logs@ == logs1,
            quiet ==> jar1.all_settled(),
            forall|j: int| 0 <= j < k ==> db.jar.settled_for(#[trigger] jar1.table.functions@[j]),
            forall|f: Function|
                !(exists|j: int| 0 <= j < k && #[trigger] jar1.table.functions@[j] == f)
                    ==> #[trigger] db.jar.memo_of(f) == jar1.memo_of(f),
            forall|g: FunctionId|
                remembered(jar1.finds@, g, jar1.table.changed_at) ==> remembered(
                    db.jar.finds@,
                    g,
                    jar1.table.changed_at,
                ),
            appended(logs1, db.logs@, of_program()),
            !ran(logs1, db.logs@, Event::TypeCheckProgram),
            forall|f: Function|
                #![trigger ran(logs1, db.logs@, Event::TypeCheckFunction(f))]
                ran(logs1, db.logs@, Event::TypeCheckFunction(f)) <==> (exists|j: int|
                    0 <= j < k && #[trigger] jar1.table.functions@[j] == f) && !jar1.checked(f),
        decreases n - k,
    {
        let f = db.jar.table.functions[k];
        let ghost mid = db.jar;
        let ghost logs_mid = db.logs@;
        proof {
            assert(f == jar1.table.functions@[k as int]);
            if quiet {
                assert(jar1.settled_for(jar1.table.functions@[k as int]));
            }
        }
        type_check_function(db, f, program);
        proof {
            let after = db.jar;
            let logs_after = db.logs@;
            lemma_appended_weaken(logs_mid, logs_after, of_check(f), of_program());
            lemma_appended_trans(logs1, logs_mid, logs_after, of_program());
            assert forall|j: int| 0 <= j < k + 1 implies after.settled_for(
                #[trigger] jar1.table.functions@[j],
            ) by {
                let g = jar1.table.functions@[j];
                if g != f {
                    mid.lemma_check_preserved(&after, g);
                }
            }
            assert forall|g: Function|
                !(exists|j: int| 0 <= j < k + 1 && #[trigger] jar1.table.functions@[j] == g)
                    implies #[trigger] after.memo_of(g) == jar1.memo_of(g) by {
                assert(jar1.table.functions@[k as int] == f);
                assert(!(exists|j: int| 0 <= j < k && #[trigger] jar1.table.functions@[j] == g)) by {
                    if exists|j: int| 0 <= j < k && #[trigger] jar1.table.functions@[j] == g {
                        let j = choose|j: int| 0 <= j < k && #[trigger] jar1.table.functions@[j] == g;
                        assert(0 <= j < k + 1 && jar1.table.functions@[j] == g);
                    }
                }
                assert(mid.memo_of(g) == jar1.memo_of(g));
            }
            assert(!ran(logs1, logs_after, Event::TypeCheckProgram)) by {
                lemma_ran_split(logs1, logs_mid, logs_after, Event::TypeCheckProgram);
                if ran(logs_mid, logs_after, Event::TypeCheckProgram) {
                    let i = choose|i: int|
                        logs_mid.len() <= i < logs_after.len() && #[trigger] logs_after[i]
                            == Event::TypeCheckProgram;
                    assert(of_check(f)(logs_after[i]));
                }
            }
            assert forall|g: Function|
                #![trigger ran(logs1, logs_after, Event::TypeCheckFunction(g))]
                ran(logs1, logs_after, Event::TypeCheckFunction(g)) <==> (exists|j: int|
                    0 <= j < k + 1 && #[trigger] jar1.table.functions@[j] == g) && !jar1.checked(
                    g,
                ) by {
                lemma_ran_split(logs1, logs_mid, logs_after, Event::TypeCheckFunction(g));
                let seen = exists|j: int| 0 <= j < k && #[trigger] jar1.table.functions@[j] == g;
                let seen_now = exists|j: int|
                    0 <= j < k + 1 && #[trigger] jar1.table.functions@[j] == g;
                if seen {
                    let j = choose|j: int| 0 <= j < k && #[trigger] jar1.table.functions@[j] == g;
                    assert(0 <= j < k + 1 && jar1.table.functions@[j] == g);
                    assert(seen_now);
                }
                if g == f {
                    assert(jar1.table.functions@[k as int] == g);
                    assert(seen_now);
                    if seen {
                        let j = choose|j: int|
                            0 <= j < k && #[trigger] jar1.table.functions@[j] == g;
                        assert(mid.settled_for(jar1.table.functions@[j]));
                    } else {
                        assert(mid.memo_of(g) == jar1.memo_of(g));
                        jar1.lemma_check_same(&mid, g);
                    }
                } else {
                    if ran(logs_mid, logs_after, Event::TypeCheckFunction(g)) {
                        let i = choose|i: int|
                            logs_mid.len() <= i < logs_after.len() && #[trigger] logs_after[i]
                                == Event::TypeCheckFunction(g);
                        assert(of_check(f)(logs_after[i]));
                    }
                    if seen_now {
                        let j = choose|j: int|
                            0 <= j < k + 1 && #[trigger] jar1.table.functions@[j] == g;
                        assert(j < k);
                        assert(seen);
                    }
                }
            }
        }
        k = k + 1;
    }
    proof {
        let after = db.jar;
        let logs_after = db.logs@;
        lemma_appended_weaken(logs0, logs1, of_program(), of_program());
        assert(appended(logs0, logs1, of_program()));
        lemma_appended_trans(logs0, logs1, logs_after, of_program());
        lemma_ran_split(logs0, logs1, logs_after, Event::TypeCheckProgram);
        assert forall|k: int| 0 <= k < after.table.functions@.len() implies after.settled_for(
            #[trigger] after.table.functions@[k],
        ) by {
            assert(after.table.functions@[k] == jar1.table.functions@[k]);
        }
        assert forall|f: Function|
            ran(logs0, logs_after, Event::TypeCheckFunction(f)) <==> old(db).jar.in_program(f)
                && !old(db).jar.checked(f) by {
            lemma_ran_split(logs0, logs1, logs_after, Event::TypeCheckFunction(f));
            old(db).jar.lemma_check_same(&jar1, f);
            if old(db).jar.in_program(f) {
                let j = choose|j: int|
                    0 <= j < old(db).jar.table.functions@.len() && #[trigger] old(
                        db,
                    ).jar.table.functions@[j] == f;
                assert(jar1.table.functions@[j] == f);
            }
            if exists|j: int| 0 <= j < n && #[trigger] jar1.table.functions@[j] == f {
                let j = choose|j: int| 0 <= j < n && #[trigger] jar1.table.functions@[j] == f;
                assert(old(db).jar.table.functions@[j] == f);
            }
        }
    }
}

} // verus!
