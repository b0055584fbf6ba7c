//! What holds of the engine as a whole.

use vstd::prelude::*;
use crate::compile::{check_diagnostics, diagnostics_of, rendered_all, syntax_diagnostics};
use crate::db::{
    carried, count_named, first_named, lemma_first_named_stable, names_of, stands_for, Jar,
    ProgramTable,
};
use crate::ir::{
    DefIdData, DiagnosticView, ExprDataView, ExprView, Function, FunctionId, Span, VariableId,
};
use crate::parser::{definition_in_text, program_of, rederived, within, DefinitionView};
use crate::type_check::{check_all, check_spec, signature, Dependency, World};
use crate::visit::expr_accepted;

verus! {

/// An edit that touches only the bodies of other functions leaves the check
/// of a function alone.
///
/// `before` is the storage when the check of `f` was up to date, `after` the
/// storage once the program was derived anew from the edited text. If the list
/// of functions is the same, every function has the parameters it had, and `f`
/// has the data it had, then what the check of `f` remembers can be used
/// again, so that the check does not run.
pub proof fn lemma_unrelated_edit(before: Jar, after: Jar, f: Function)
    requires
        before.wf(),
        before.checked(f),
        rederived(before.table, after.table, after.definitions(), after.revision),
        after.table.functions@ == before.table.functions@,
        after.table.entities@[f.index as int].data@ == before.table.entities@[f.index as int].data@,
        forall|s: int|
            0 <= s < before.table.entities@.len() ==> (#[trigger] after.table.entities@[s]).data@.args
                == before.table.entities@[s].data@.args,
    ensures
        after.reusable(before.memo_of(f), f),
{
    let old_entities = before.table.entities@;
    let new_entities = after.table.entities@;
    let functions = before.table.functions@;
    let memo = before.memo_of(f)->Some_0;
    assert(carried(old_entities[f.index as int], new_entities[f.index as int], after.revision));
    assert forall|k: int| 0 <= k < functions.len() implies old_entities[(
    #[trigger] functions[k]).index as int].name == new_entities[functions[k].index as int].name by {
        let s = functions[k].index as int;
        assert(carried(old_entities[s], new_entities[s], after.revision));
    }
    assert forall|i: int| 0 <= i < memo.deps@.len() implies after.table.observes(
        #[trigger] memo.deps@[i],
    ) by {
        assert(before.table.observes(memo.deps@[i]));
        match memo.deps@[i] {
            Dependency::Find(name, _) => {
                lemma_first_named_stable(old_entities, new_entities, functions, name, 0);
            },
            Dependency::Arity(g, _) => {
                assert(new_entities[g.index as int].data@.args == old_entities[g.index as int].data@.args);
            },
        }
    }
}

/// What a check finds, it finds at a span of the expression: where every span
/// of an expression satisfies `p`, so does the span of every finding.
pub proof fn lemma_errors_within(e: ExprView, params: Seq<VariableId>, w: World, p: spec_fn(Span) -> bool)
    requires
        expr_accepted(e, p),
    ensures
        forall|i: int|
            0 <= i < check_spec(e, params, w).len() ==> p((#[trigger] check_spec(e, params, w)[i]).span),
    decreases e, 0nat,
{
    match e.data {
        ExprDataView::Op(l, _, r) => {
            lemma_errors_within(*l, params, w, p);
            lemma_errors_within(*r, params, w, p);
        },
        ExprDataView::Number(_) => {},
        ExprDataView::Variable(_) => {},
        ExprDataView::Call(_, args) => {
            lemma_errors_within_all(args, args.len() as int, params, w, p);
        },
    }
}

/// The same of the first `n` of `args`.
pub proof fn lemma_errors_within_all(
    args: Seq<ExprView>,
    n: int,
    params: Seq<VariableId>,
    w: World,
    p: spec_fn(Span) -> bool,
)
    requires
        forall|i: int| 0 <= i < args.len() ==> expr_accepted(#[trigger] args[i], p),
    ensures
        forall|i: int|
            0 <= i < check_all(args, n, params, w).len() ==> p(
                (#[trigger] check_all(args, n, params, w)[i]).span,
            ),
    decreases args, n,
{
    if 0 < n <= args.len() {
        lemma_errors_within_all(args, n - 1, params, w, p);
        lemma_errors_within(args[n - 1], params, w, p);
    }
}

/// Every finding of the check of a function of the current program lies in
/// the function: moved by the place where the function starts, its span lies
/// in the text.
pub proof fn lemma_findings_in_text(jar: Jar, k: int, i: int)
    requires
        jar.wf(),
        jar.current(),
        0 <= k < jar.table.functions@.len(),
        0 <= i < jar.expected_errors(jar.table.functions@[k]).len(),
    ensures
        ({
            let f = jar.table.functions@[k];
            let span = jar.expected_errors(f)[i].span;
            let offset = jar.table.entities@[f.index as int].offset;
            span.start <= span.end && span.end + offset <= jar.bytes().len()
        }),
{
    let f = jar.table.functions@[k];
    let entity = jar.table.entities@[f.index as int];
    let defs = jar.meaning()->Ok_0;
    assert(definition_in_text(defs[k], jar.bytes().len() as int));
    assert(entity.data@ == defs[k].data);
    lemma_errors_within(
        entity.data@.body,
        entity.data@.args,
        jar.table.world(),
        within(jar.bytes().len() - entity.offset),
    );
}

/// A function keeps its handle: where the program is derived anew and
/// definition number `k` has the name and the place among the definitions of
/// that name that the entity `s` had before, function number `k` has the
/// handle `s` again.
pub proof fn lemma_handle_kept(
    before: ProgramTable,
    after: ProgramTable,
    defs: Seq<DefinitionView>,
    revision: u64,
    k: int,
    s: int,
)
    requires
        after.keys_distinct(),
        rederived(before, after, defs, revision),
        0 <= k < defs.len(),
        0 <= s < before.entities@.len(),
        before.entities@[s].name == defs[k].name,
        before.entities@[s].ordinal == count_named(names_of(defs), defs[k].name, k),
    ensures
        after.functions@[k].index == s,
{
    let f = after.functions@[k];
    assert(stands_for(
        after.entities@[f.index as int],
        defs[k],
        count_named(names_of(defs), defs[k].name, k),
    ));
    assert(carried(before.entities@[s], after.entities@[s], revision));
}

/// A text with a syntax error has an empty program and the syntax error as
/// its only diagnostic; a text without one has only diagnostics of checks.
pub proof fn lemma_syntax_error_alone(jar: Jar)
    requires
        jar.wf(),
        jar.current(),
    ensures
        jar.syntax_error is Some ==> jar.table.functions@.len() == 0 && diagnostics_of(jar)
            == syntax_diagnostics(jar.syntax_error) && diagnostics_of(jar).len() == 1,
        jar.syntax_error is None ==> diagnostics_of(jar) == check_diagnostics(
            jar,
            jar.table.functions@.len() as int,
            false,
        ),
{
    if jar.syntax_error is Some {
        assert(jar.meaning() is Err);
        assert(diagnostics_of(jar) =~= syntax_diagnostics(jar.syntax_error));
    } else {
        assert(diagnostics_of(jar) =~= check_diagnostics(
            jar,
            jar.table.functions@.len() as int,
            false,
        ));
    }
}

/// The first of `defs` from `from` on that defines `name`.
pub open spec fn first_definition(defs: Seq<DefinitionView>, name: FunctionId, from: int) -> Option<
    int,
>
    decreases defs.len() - from,
{
    if from < 0 || from >= defs.len() {
        None
    } else if defs[from].name == name {
        Some(from)
    } else {
        first_definition(defs, name, from + 1)
    }
}

/// What a check can ask about a list of definitions: a name stands for the
/// first definition of that name. Here the handle of a function is its place in
/// the list.
pub open spec fn world_of(defs: Seq<DefinitionView>) -> World {
    World {
        find: |name: FunctionId|
            match first_definition(defs, name, 0) {
                Some(k) => Some(Function { index: k as usize }),
                None => None,
            },
        arity: |f: Function| defs[f.index as int].data.args.len() as usize,
    }
}

/// The diagnostics of the checks of the first `k` of `defs`.
pub open spec fn checks_of(defs: Seq<DefinitionView>, k: int, names: Seq<Seq<char>>) -> Seq<
    DiagnosticView,
>
    decreases k,
{
    if k <= 0 || k > defs.len() {
        Seq::empty()
    } else {
        let errors = check_spec(defs[k - 1].data.body, defs[k - 1].data.args, world_of(defs));
        checks_of(defs, k - 1, names) + rendered_all(errors, errors.len() as int, names, 0)
    }
}

/// The diagnostics of a text: its syntax error, or else what is wrong in each
/// of its functions, in the order of the definitions.
pub open spec fn text_diagnostics(text: Seq<u8>, names: Seq<Seq<char>>, identities: Seq<DefIdData>) -> Seq<
    DiagnosticView,
> {
    match program_of(text, names, identities) {
        Ok(defs) => checks_of(defs, defs.len() as int, names),
        Err(e) => syntax_diagnostics(Some(e)),
    }
}

/// A check finds the same in two worlds in which every name stands for a
/// function of the same number of parameters.
pub proof fn lemma_same_signatures(e: ExprView, params: Seq<VariableId>, a: World, b: World)
    requires
        forall|name: FunctionId| #[trigger] signature(a, name) == signature(b, name),
    ensures
        check_spec(e, params, a) == check_spec(e, params, b),
    decreases e, 0nat,
{
    match e.data {
        ExprDataView::Op(l, _, r) => {
            lemma_same_signatures(*l, params, a, b);
            lemma_same_signatures(*r, params, a, b);
        },
        ExprDataView::Number(_) => {},
        ExprDataView::Variable(_) => {},
        ExprDataView::Call(name, args) => {
            assert(signature(a, name) == signature(b, name));
            lemma_same_signatures_all(args, args.len() as int, params, a, b);
        },
    }
}

/// The same of the first `n` of `args`.
pub proof fn lemma_same_signatures_all(
    args: Seq<ExprView>,
    n: int,
    params: Seq<VariableId>,
    a: World,
    b: World,
)
    requires
        forall|name: FunctionId| #[trigger] signature(a, name) == signature(b, name),
    ensures
        check_all(args, n, params, a) == check_all(args, n, params, b),
    decreases args, n,
{
    if 0 < n <= args.len() {
        lemma_same_signatures_all(args, n - 1, params, a, b);
        lemma_same_signatures(args[n - 1], params, a, b);
    }
}

/// In a program that is made of `defs`, a name stands for the function that
/// its first definition in `defs` made.
pub proof fn lemma_find_reflects(table: ProgramTable, defs: Seq<DefinitionView>, name: FunctionId, from: int)
    requires
        table.reflects(defs),
        0 <= from,
    ensures
        match first_definition(defs, name, from) {
            Some(k) => 0 <= k < defs.len() && first_named(
                table.entities@,
                table.functions@,
                name,
                from,
            ) == Some(table.functions@[k]),
            None => first_named(table.entities@, table.functions@, name, from) is None,
        },
    decreases defs.len() - from,
{
    if from < defs.len() {
        let f = table.functions@[from];
        assert(table.entities@[f.index as int].name == defs[from].name);
        if defs[from].name != name {
            lemma_find_reflects(table, defs, name, from + 1);
        }
    }
}

/// The diagnostics of the checks are those of the definitions that the
/// program is made of.
pub proof fn lemma_checks_reflect(jar: Jar, defs: Seq<DefinitionView>, k: int)
    requires
        jar.table.reflects(defs),
    ensures
        check_diagnostics(jar, k, false) == checks_of(defs, k, jar.interner.names()),
    decreases k,
{
    if 0 < k <= defs.len() {
        lemma_checks_reflect(jar, defs, k - 1);
        let f = jar.table.functions@[k - 1];
        let entity = jar.table.entities@[f.index as int];
        assert(entity.data@ == defs[k - 1].data);
        let a = jar.table.world();
        let b = world_of(defs);
        assert forall|name: FunctionId| #[trigger] signature(a, name) == signature(b, name) by {
            lemma_find_reflects(jar.table, defs, name, 0);
            assert(defs.len() == jar.table.functions.len());
            assert((a.find)(name) == first_named(jar.table.entities@, jar.table.functions@, name, 0));
            match first_definition(defs, name, 0) {
                Some(j) => {
                    let g = jar.table.functions@[j];
                    let h = Function { index: j as usize };
                    assert(jar.table.entities@[g.index as int].data@ == defs[j].data);
                    assert((a.find)(name) == Some(g));
                    assert((b.find)(name) == Some(h));
                    assert(jar.table.entities@[g.index as int].data@.args == defs[j].data.args);
                },
                None => {
                    assert((b.find)(name) is None);
                },
            }
        }
        lemma_same_signatures(entity.data@.body, entity.data@.args, a, b);
    }
}

/// What a compilation reports is a function of the text and of the handles
/// of its names: how the storage came to its state, and what was used again on
/// the way, has no part in it.
pub proof fn lemma_diagnostics_of_text(jar: Jar)
    requires
        jar.wf(),
        jar.current(),
    ensures
        diagnostics_of(jar) == text_diagnostics(
            jar.bytes(),
            jar.interner.names(),
            jar.interner.identities(),
        ),
{
    match jar.meaning() {
        Ok(defs) => {
            lemma_checks_reflect(jar, defs, defs.len() as int);
            assert(diagnostics_of(jar) =~= check_diagnostics(
                jar,
                jar.table.functions@.len() as int,
                false,
            ));
        },
        Err(e) => {
            lemma_syntax_error_alone(jar);
        },
    }
}

} // verus!
