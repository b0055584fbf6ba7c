//! From source text to the definitions of a program: lexing, parsing, and the
//! rewriting of every span of a function so that it counts from the function's
//! own start.

use vstd::prelude::*;
use crate::db::{
    carried, first_named, installed_upto, lemma_first_named_stable, reversed, Database, Event,
    ProgramTable,
};
use crate::grammar::{inside, parse, parsed, statement_in_text, ParseError};
use crate::interner::{distinct, extends, lemma_position_extends, position, Interner};
use crate::ir::{
    statements_view, DefId, DefIdData, ExprDataView, ExprView, FunctionData, FunctionDataView,
    FunctionId, Program, SourceProgram, Span, StatementData, StatementDataView, StatementView,
};
use crate::lexer::{lex, lexed, names_of_text, resolved, token_text, tokens_of, TokenKind};
use crate::visit::{
    expr_accepted, expr_rewritten, function_accepted, function_rewritten, Visit, Visitor,
};

verus! {

/// The spans that can be counted from `offset`: they start at or after it.
pub open spec fn movable(offset: usize) -> spec_fn(Span) -> bool {
    |s: Span| offset <= s.start && s.wf()
}

/// A span counted from `offset` instead of the start of the text, and tagged `def`.
pub open spec fn relocate(offset: usize, def: DefId) -> spec_fn(Span) -> Span {
    |s: Span| Span { id: def, start: (s.start - offset) as usize, end: (s.end - offset) as usize }
}

/// The visitor that makes spans relative to the definition they belong to.
pub struct RewriteSpans {
    pub start_offset: usize,
    pub def_id: DefId,
}

impl Visitor for RewriteSpans {
    open spec fn accepts(&self) -> spec_fn(Span) -> bool {
        movable(self.start_offset)
    }

    open spec fn rewrite(&self) -> spec_fn(Span) -> Span {
        relocate(self.start_offset, self.def_id)
    }

    fn visit_span(&mut self, span: &mut Span) {
        span.id = self.def_id;
        span.start = span.start - self.start_offset;
        span.end = span.end - self.start_offset;
    }
}

/// The spans that lie in the first `limit` bytes and do not end before they start.
pub open spec fn within(limit: int) -> spec_fn(Span) -> bool {
    |s: Span| s.wf() && s.end <= limit
}

/// An expression that lies in the text from `offset` on lies, once its spans
/// count from `offset`, in as many bytes as the text has from there on.
pub proof fn lemma_rewritten_within(e: ExprView, offset: usize, len: int, id: DefId, def: DefId)
    requires
        expr_accepted(e, inside(offset as int, len, id)),
    ensures
        expr_accepted(expr_rewritten(e, relocate(offset, def)), within(len - offset)),
    decreases e,
{
    let after = expr_rewritten(e, relocate(offset, def));
    match e.data {
        ExprDataView::Op(l, _, r) => {
            lemma_rewritten_within(*l, offset, len, id, def);
            lemma_rewritten_within(*r, offset, len, id, def);
        },
        ExprDataView::Number(_) => {},
        ExprDataView::Variable(_) => {},
        ExprDataView::Call(_, args) => {
            let moved = after.data->Call_1;
            assert forall|i: int| 0 <= i < moved.len() implies expr_accepted(
                #[trigger] moved[i],
                within(len - offset),
            ) by {
                lemma_rewritten_within(args[i], offset, len, id, def);
            }
        },
    }
}

/// The definition starts in a text of `len` bytes, and counted from that
/// start its spans lie in the rest of the text.
pub open spec fn definition_in_text(d: DefinitionView, len: int) -> bool {
    &&& d.offset <= len
    &&& function_accepted(d.data, within(len - d.offset))
}

/// Every definition lies in a text of `len` bytes.
pub open spec fn definitions_in_text(defs: Seq<DefinitionView>, len: int) -> bool {
    forall|k: int| 0 <= k < defs.len() ==> definition_in_text(#[trigger] defs[k], len)
}

/// An expression whose spans all satisfy `p` has them satisfy every weaker `q`.
pub proof fn lemma_accepted_weaken(e: ExprView, p: spec_fn(Span) -> bool, q: spec_fn(Span) -> bool)
    requires
        expr_accepted(e, p),
        forall|s: Span| #[trigger] p(s) ==> q(s),
    ensures
        expr_accepted(e, q),
    decreases e,
{
    match e.data {
        ExprDataView::Op(l, _, r) => {
            lemma_accepted_weaken(*l, p, q);
            lemma_accepted_weaken(*r, p, q);
        },
        ExprDataView::Number(_) => {},
        ExprDataView::Variable(_) => {},
        ExprDataView::Call(_, args) => {
            assert forall|i: int| 0 <= i < args.len() implies expr_accepted(#[trigger] args[i], q) by {
                lemma_accepted_weaken(args[i], p, q);
            }
        },
    }
}

/// A function definition as the parser hands it on: its name, where it starts in
/// the text, and its data with every span counted from there.
#[derive(Debug)]
pub struct Definition {
    pub name: FunctionId,
    pub offset: usize,
    pub data: FunctionData,
}

/// The mathematical value of a [`Definition`].
pub struct DefinitionView {
    pub name: FunctionId,
    pub offset: usize,
    pub data: FunctionDataView,
}

impl View for Definition {
    type V = DefinitionView;

    open spec fn view(&self) -> DefinitionView {
        DefinitionView { name: self.name, offset: self.offset, data: self.data@ }
    }
}

/// The values of a sequence of definitions, one by one.
pub open spec fn definitions_view(s: Seq<Definition>) -> Seq<DefinitionView> {
    Seq::new(s.len(), |i: int| s[i]@)
}

/// The identity of the function `name` among the interned identities.
pub open spec fn def_of(identities: Seq<DefIdData>, name: FunctionId) -> DefId {
    DefId { index: position(identities, DefIdData::Function(name)) as usize }
}

/// The handle of the identity that the parser tags every span with.
pub open spec fn unknown_def() -> DefId {
    DefId { index: 0 }
}

/// The definition that a statement stands for, if it defines a function: every
/// span in it counted from the statement's start and tagged with the function's
/// own identity.
pub open spec fn definition_of(s: StatementView, identities: Seq<DefIdData>) -> Option<
    DefinitionView,
> {
    match s.data {
        StatementDataView::Function { name, data } => Some(
            DefinitionView {
                name,
                offset: s.span.start,
                data: function_rewritten(data, relocate(s.span.start, def_of(identities, name))),
            },
        ),
        StatementDataView::Print(_) => None,
    }
}

/// The function definitions among `statements`, in order.
pub open spec fn definitions(statements: Seq<StatementView>, identities: Seq<DefIdData>) -> Seq<
    DefinitionView,
>
    decreases statements.len(),
{
    if statements.len() == 0 {
        Seq::empty()
    } else {
        let before = definitions(statements.drop_last(), identities);
        match definition_of(statements.last(), identities) {
            Some(d) => before.push(d),
            None => before,
        }
    }
}

/// The identities once the statement `s` was read: the identity of a function
/// that it defines is added at their end, if they do not hold it yet.
pub open spec fn identities_with(identities: Seq<DefIdData>, s: StatementView) -> Seq<DefIdData> {
    match s.data {
        StatementDataView::Function { name, .. } => if identities.contains(
            DefIdData::Function(name),
        ) {
            identities
        } else {
            identities.push(DefIdData::Function(name))
        },
        StatementDataView::Print(_) => identities,
    }
}

/// The identities once the first `k` of `statements` were read, one after another.
pub open spec fn identities_after(
    identities: Seq<DefIdData>,
    statements: Seq<StatementView>,
    k: int,
) -> Seq<DefIdData>
    decreases k,
{
    if k <= 0 || k > statements.len() {
        identities
    } else {
        identities_with(identities_after(identities, statements, k - 1), statements[k - 1])
    }
}

/// The identities once a whole text was read, of which `names` holds the
/// names: those of the functions that the text defines are added in the order
/// of the definitions; a text with a syntax error adds none.
pub open spec fn identities_of_text(
    identities: Seq<DefIdData>,
    names: Seq<Seq<char>>,
    text: Seq<u8>,
) -> Seq<DefIdData> {
    match parsed(tokens_of(text, names), text, unknown_def()) {
        Ok(statements) => identities_after(identities, statements, statements.len() as int),
        Err(_) => identities,
    }
}

/// What a text means: its function definitions in order, or the one syntax error.
/// `names` and `identities` are the interned values that handles are taken from.
pub open spec fn program_of(text: Seq<u8>, names: Seq<Seq<char>>, identities: Seq<DefIdData>) -> Result<
    Seq<DefinitionView>,
    ParseError,
> {
    match parsed(tokens_of(text, names), text, unknown_def()) {
        Ok(statements) => Ok(definitions(statements, identities)),
        Err(e) => Err(e),
    }
}

/// Every identifier of `text` is among `names`, and the identity of every
/// function it defines is among `identities`.
pub open spec fn text_interned(text: Seq<u8>, names: Seq<Seq<char>>, identities: Seq<DefIdData>) -> bool {
    &&& forall|k: int|
        0 <= k < lexed(text, 0).len() && (#[trigger] lexed(text, 0)[k]).kind
            == TokenKind::Identifier ==> names.contains(token_text(text, lexed(text, 0)[k]))
    &&& match parsed(tokens_of(text, names), text, unknown_def()) {
        Ok(statements) => forall|i: int|
            0 <= i < statements.len() ==> (#[trigger] statements[i].data matches StatementDataView::Function {
                name,
                ..
            } ==> identities.contains(DefIdData::Function(name))),
        Err(_) => true,
    }
}

/// Lexes and parses `text`, then gives every function definition spans of its
/// own. A text with a syntax error has no definitions at all.
pub fn read_definitions(text: &[u8], interner: &mut Interner) -> (r: Result<
    Vec<Definition>,
    ParseError,
>)
    requires
        old(interner).wf(),
    ensures
        final(interner).wf(),
        final(interner).grown_from(old(interner)),
        final(interner).names() == names_of_text(old(interner).names(), text@),
        final(interner).identities() == identities_of_text(
            old(interner).identities(),
            final(interner).names(),
            text@,
        ),
        text_interned(text@, final(interner).names(), final(interner).identities()),
        match r {
            Ok(defs) => program_of(
                text@,
                final(interner).names(),
                final(interner).identities(),
            ) == Ok::<Seq<DefinitionView>, ParseError>(definitions_view(defs@))
                && definitions_in_text(definitions_view(defs@), text@.len() as int),
            Err(e) => program_of(text@, final(interner).names(), final(interner).identities())
                == Err::<Seq<DefinitionView>, ParseError>(e) && e.start <= e.end <= text@.len(),
        },
{
    let tokens = lex(text, interner);
    let ghost names = interner.names();
    proof {
        assert forall|k: int|
            0 <= k < lexed(text@, 0).len() && (#[trigger] lexed(text@, 0)[k]).kind
                == TokenKind::Identifier implies names.contains(
            token_text(text@, lexed(text@, 0)[k]),
        ) by {
            assert(tokens@[k].kind == TokenKind::Identifier);
            assert(names[tokens@[k].symbol as int] == token_text(text@, tokens@[k]));
        }
    }
    let statements = match parse(&tokens, text, DefId { index: 0 }) {
        Ok(statements) => statements,
        Err(e) => {
            return Err(e);
        },
    };
    let ghost all = statements_view(statements@);
    let n = statements.len();
    let mut i: usize = 0;
    while i < n
        invariant
            i <= n,
            n == statements@.len(),
            all == statements_view(statements@),
            interner.wf(),
            interner.grown_from(old(interner)),
            interner.names() == names,
            interner.identities() == identities_after(old(interner).identities(), all, i as int),
            forall|j: int|
                0 <= j < i ==> (#[trigger] all[j].data matches StatementDataView::Function {
                    name,
                    ..
                } ==> interner.identities().contains(DefIdData::Function(name))),
        decreases n - i,
    {
        let ghost before = interner.identities();
        match &statements[i].data {
            StatementData::Function { name, .. } => {
                let at = interner.intern_def(DefIdData::Function(*name));
                proof {
                    assert(interner.identities()[at as int] == DefIdData::Function(*name));
                }
            },
            StatementData::Print(_) => {},
        }
        proof {
            let after = interner.identities();
            assert(all[i as int] == statements@[i as int]@);
            assert forall|j: int| 0 <= j < i + 1 implies (#[trigger] all[j].data matches StatementDataView::Function {
                name,
                ..
            } ==> after.contains(DefIdData::Function(name))) by {
                if j < i {
                    if let StatementDataView::Function { name, .. } = all[j].data {
                        let w = choose|w: int|
                            0 <= w < before.len() && before[w] == DefIdData::Function(name);
                        assert(after[w] == DefIdData::Function(name));
                    }
                }
            }
        }
        i = i + 1;
    }
    let ghost identities = interner.identities();
    let mut rest = reversed(statements);
    let mut defs: Vec<Definition> = Vec::new();
    let mut done: usize = 0;
    proof {
        assert(all.take(0) =~= Seq::<StatementView>::empty());
        assert(definitions_view(defs@) =~= Seq::<DefinitionView>::empty());
    }
    while done < n
        invariant
            done <= n,
            n == all.len(),
            rest@.len() == n - done,
            forall|j: int| 0 <= j < rest@.len() ==> (#[trigger] rest@[j])@ == all[n - 1 - j],
            interner.wf(),
            interner.grown_from(old(interner)),
            interner.names() == names,
            interner.identities() == identities,
            forall|j: int|
                0 <= j < n ==> (#[trigger] all[j].data matches StatementDataView::Function {
                    name,
                    ..
                } ==> identities.contains(DefIdData::Function(name))),
            forall|j: int|
                0 <= j < n ==> statement_in_text(#[trigger] all[j], text@.len() as int, unknown_def()),
            definitions_view(defs@) == definitions(all.take(done as int), identities),
            definitions_in_text(definitions_view(defs@), text@.len() as int),
        decreases n - done,
    {
        let s = rest.pop().unwrap();
        proof {
            assert(s@ == all[done as int]);
            assert(statement_in_text(all[done as int], text@.len() as int, unknown_def()));
            assert(all.take(done + 1).drop_last() =~= all.take(done as int));
            assert(all.take(done + 1).last() == all[done as int]);
        }
        let offset = s.span.start;
        match s.data {
            StatementData::Function { name, data } => {
                let mut data = data;
                let at = interner.intern_def(DefIdData::Function(name));
                let mut rewriter = RewriteSpans { start_offset: offset, def_id: DefId { index: at } };
                proof {
                    let p = inside(offset as int, text@.len() as int, unknown_def());
                    let q = movable(offset);
                    assert forall|x: Span| #[trigger] p(x) implies q(x) by {}
                    lemma_accepted_weaken(data@.body, p, q);
                    lemma_rewritten_within(
                        data@.body,
                        offset,
                        text@.len() as int,
                        unknown_def(),
                        DefId { index: at },
                    );
                }
                let ghost dv = data@;
                data.traverse(&mut rewriter);
                let ghost before = definitions_view(defs@);
                let d = Definition { name, offset, data };
                let ghost added = d@;
                defs.push(d);
                proof {
                    assert(definitions_view(defs@) =~= before.push(added));
                    assert forall|k: int| 0 <= k < before.len() + 1 implies definition_in_text(
                        #[trigger] definitions_view(defs@)[k],
                        text@.len() as int,
                    ) by {
                        if k < before.len() {
                            assert(definitions_view(defs@)[k] == before[k]);
                        }
                    }
                }
            },
            StatementData::Print(_) => {},
        }
        done = done + 1;
    }
    proof {
        assert(all.take(n as int) =~= all);
    }
    Ok(defs)
}

/// The definitions among statements do not depend on identities interned later.
pub proof fn lemma_definitions_stable(
    statements: Seq<StatementView>,
    identities: Seq<DefIdData>,
    grown: Seq<DefIdData>,
)
    requires
        distinct(grown),
        extends(grown, identities),
        forall|i: int|
            0 <= i < statements.len() ==> (#[trigger] statements[i].data matches StatementDataView::Function {
                name,
                ..
            } ==> identities.contains(DefIdData::Function(name))),
    ensures
        definitions(statements, grown) == definitions(statements, identities),
    decreases statements.len(),
{
    if statements.len() > 0 {
        let front = statements.drop_last();
        assert forall|i: int| 0 <= i < front.len() implies (#[trigger] front[i].data matches StatementDataView::Function {
            name,
            ..
        } ==> identities.contains(DefIdData::Function(name))) by {
            assert(front[i] == statements[i]);
        }
        lemma_definitions_stable(front, identities, grown);
        let last = statements[statements.len() - 1];
        if let StatementDataView::Function { name, .. } = last.data {
            lemma_position_extends(identities, grown, DefIdData::Function(name));
        }
    }
}

/// Reading a text again after more values were interned gives the same tokens
/// and the same program: what a text means depends on the text alone once its
/// names have handles.
pub proof fn lemma_program_stable(
    text: Seq<u8>,
    names: Seq<Seq<char>>,
    identities: Seq<DefIdData>,
    more_names: Seq<Seq<char>>,
    more_identities: Seq<DefIdData>,
)
    requires
        text_interned(text, names, identities),
        distinct(more_names),
        distinct(more_identities),
        extends(more_names, names),
        extends(more_identities, identities),
    ensures
        tokens_of(text, more_names) == tokens_of(text, names),
        program_of(text, more_names, more_identities) == program_of(text, names, identities),
        text_interned(text, more_names, more_identities),
{
    let raw = lexed(text, 0);
    assert forall|k: int| 0 <= k < raw.len() implies resolved(raw[k], text, more_names) == resolved(
        raw[k],
        text,
        names,
    ) by {
        if raw[k].kind == TokenKind::Identifier {
            lemma_position_extends(names, more_names, token_text(text, raw[k]));
        }
    }
    assert(tokens_of(text, more_names) =~= tokens_of(text, names));
    assert forall|k: int|
        0 <= k < raw.len() && (#[trigger] raw[k]).kind == TokenKind::Identifier implies more_names.contains(
        token_text(text, raw[k]),
    ) by {
        let t = token_text(text, raw[k]);
        let w = choose|w: int| 0 <= w < names.len() && names[w] == t;
        assert(more_names[w] == t);
    }
    match parsed(tokens_of(text, names), text, unknown_def()) {
        Ok(statements) => {
            lemma_definitions_stable(statements, identities, more_identities);
            assert forall|i: int| 0 <= i < statements.len() implies (
            #[trigger] statements[i].data matches StatementDataView::Function { name, .. }
                ==> more_identities.contains(DefIdData::Function(name))) by {
                if let StatementDataView::Function { name, .. } = statements[i].data {
                    let w = choose|w: int|
                        0 <= w < identities.len() && identities[w] == DefIdData::Function(name);
                    assert(more_identities[w] == DefIdData::Function(name));
                }
            }
        },
        Err(_) => {},
    }
}

/// How the program table is after the program was derived anew from `defs`
/// at `revision`: see [`installed_upto`]; and the list of functions keeps its
/// stamp exactly if it did not change in value.
pub open spec fn rederived(
    before: ProgramTable,
    after: ProgramTable,
    defs: Seq<DefinitionView>,
    revision: u64,
) -> bool {
    &&& installed_upto(
        before.entities@,
        after.entities@,
        after.functions@,
        defs,
        defs.len() as int,
        revision,
    )
    &&& after.functions@ == before.functions@ ==> after.changed_at == before.changed_at
    &&& after.functions@ != before.functions@ ==> after.changed_at == revision
}

/// The program of the current source text.
///
/// If the program was already derived from the current revision of the text,
/// nothing runs. Else the text is lexed and parsed and every function gets
/// spans of its own; a function whose name and data are as before keeps its
/// handle and its stamp, so that nothing derived from it has to run again.
pub fn parse_statements(db: &mut Database, source: SourceProgram) -> (program: Program)
    requires
        old(db).wf(),
    ensures
        final(db).wf(),
        final(db).jar.current(),
        final(db).jar.revision == old(db).jar.revision,
        final(db).jar.text == old(db).jar.text,
        final(db).jar.finds == old(db).jar.finds,
        final(db).jar.checked_at == old(db).jar.checked_at,
        final(db).jar.compiled == old(db).jar.compiled,
        final(db).jar.interner.grown_from(&old(db).jar.interner),
        old(db).jar.current() ==> final(db).jar == old(db).jar && final(db).logs@ == old(db).logs@,
        !old(db).jar.current() ==> final(db).jar.interner.names() == names_of_text(
            old(db).jar.interner.names(),
            old(db).jar.bytes(),
        ) && final(db).jar.interner.identities() == identities_of_text(
            old(db).jar.interner.identities(),
            final(db).jar.interner.names(),
            old(db).jar.bytes(),
        ),
        !old(db).jar.current() ==> final(db).logs@ == old(db).logs@.push(Event::ParseStatements)
            && rederived(
            old(db).jar.table,
            final(db).jar.table,
            final(db).jar.definitions(),
            final(db).jar.revision,
        ),
{
    let revision = db.jar.revision;
    match db.jar.parsed_at {
        Some(at) => {
            if at == revision {
                return Program {  };
            }
        },
        None => {},
    }
    db.logs.push(Event::ParseStatements);
    let read = read_definitions(db.jar.text.as_str().as_bytes(), &mut db.jar.interner);
    match read {
        Ok(defs) => {
            db.jar.syntax_error = None;
            db.jar.table.install(defs, revision);
        },
        Err(e) => {
            db.jar.syntax_error = Some(e);
            let none: Vec<Definition> = Vec::new();
            proof {
                assert(definitions_view(none@) =~= Seq::<DefinitionView>::empty());
            }
            db.jar.table.install(none, revision);
        },
    }
    db.jar.parsed_at = Some(revision);
    proof {
        let before = old(db).jar.table;
        let after = db.jar.table;
        let finds = db.jar.finds@;
        if after.changed_at == before.changed_at {
            assert(after.functions@ == before.functions@);
            assert forall|i: int| 0 <= i < finds.len() && (#[trigger] finds[i]).list_stamp
                == after.changed_at implies finds[i].result == first_named(
                after.entities@,
                after.functions@,
                finds[i].name,
                0,
            ) by {
                assert forall|k: int| 0 <= k < before.functions@.len() implies before.entities@[(
                #[trigger] before.functions@[k]).index as int].name
                    == after.entities@[before.functions@[k].index as int].name by {
                    let t = before.functions@[k].index as int;
                    assert(carried(before.entities@[t], after.entities@[t], revision));
                }
                lemma_first_named_stable(
                    before.entities@,
                    after.entities@,
                    before.functions@,
                    finds[i].name,
                    0,
                );
            }
        }
    }
    Program {  }
}

} // verus!
