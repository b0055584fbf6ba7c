//! The storage of the query engine: the input and its revision, the functions
//! that parsing derived from it, and what each query remembers of its last run.

use vstd::prelude::*;
use vstd::utf8::encode_utf8;
use crate::grammar::ParseError;
use crate::interner::{position, Interner};
use crate::ir::{
    CheckError, DefId, DefIdData, Function, FunctionData, FunctionId, Program, SourceProgram,
    VariableId,
};
use crate::parser::{
    definitions_in_text, definitions_view, lemma_program_stable, program_of, text_interned,
    unknown_def, Definition, DefinitionView,
};
use crate::type_check::{
    agrees, check_spec, lemma_observed_agrees, lookups_remembered, remembered, Dependency, World,
};

verus! {

/// A query that ran its body instead of answering from what it remembered.
#[derive(Clone, Copy, Debug, PartialEq, Eq, Hash, Structural)]
pub enum Event {
    ParseStatements,
    FindFunction(FunctionId),
    TypeCheckFunction(Function),
    TypeCheckProgram,
    Compile,
}

/// What the check of one function remembers: the revision of the function's
/// data that it read, every observation it made of the program around it, and
/// the findings.
#[derive(Debug)]
pub struct CheckMemo {
    pub data_stamp: u64,
    pub deps: Vec<Dependency>,
    pub errors: Vec<CheckError>,
}

/// A function of the program as the engine keeps it. Its identity is its name
/// together with the number of earlier definitions of that name.
#[derive(Debug)]
pub struct FunctionEntity {
    pub name: FunctionId,
    pub ordinal: usize,
    pub data: FunctionData,
    /// The revision at which `data` last changed in value.
    pub changed_at: u64,
    /// Where the definition starts in the current text.
    pub offset: usize,
    pub check: Option<CheckMemo>,
}

/// How many of the first `upto` names are `name`.
pub open spec fn count_named(names: Seq<FunctionId>, name: FunctionId, upto: int) -> nat
    decreases upto,
{
    if upto <= 0 {
        0
    } else {
        count_named(names, name, upto - 1) + if names[upto - 1] == name {
            1nat
        } else {
            0nat
        }
    }
}

/// The names that `defs` define, in order.
pub open spec fn names_of(defs: Seq<DefinitionView>) -> Seq<FunctionId> {
    Seq::new(defs.len(), |i: int| defs[i].name)
}

/// The first function in `functions` whose name is `name`, looking from `from` on.
pub open spec fn first_named(
    entities: Seq<FunctionEntity>,
    functions: Seq<Function>,
    name: FunctionId,
    from: int,
) -> Option<Function>
    decreases functions.len() - from,
{
    if from < 0 || from >= functions.len() {
        None
    } else if entities[functions[from].index as int].name == name {
        Some(functions[from])
    } else {
        first_named(entities, functions, name, from + 1)
    }
}

/// A name that stands at `j` is counted at every later position.
pub proof fn lemma_count_strict(names: Seq<FunctionId>, name: FunctionId, j: int, k: int)
    requires
        0 <= j < k,
        names[j] == name,
    ensures
        count_named(names, name, j) < count_named(names, name, k),
    decreases k,
{
    if k > j + 1 {
        lemma_count_strict(names, name, j, k - 1);
    }
}

/// What became of an entity that was there before the program was installed:
/// it keeps its identity and what its check remembers, and its stamp moves to
/// `revision` exactly when its data changed in value.
pub open spec fn carried(before: FunctionEntity, after: FunctionEntity, revision: u64) -> bool {
    &&& after.name == before.name
    &&& after.ordinal == before.ordinal
    &&& after.check == before.check
    &&& after.data@ == before.data@ ==> after.changed_at == before.changed_at
    &&& after.data@ != before.data@ ==> after.changed_at == revision
}

/// Entity `s` stands for definition `d`, the definition number `ordinal` of its name.
pub open spec fn stands_for(e: FunctionEntity, d: DefinitionView, ordinal: nat) -> bool {
    &&& e.name == d.name
    &&& e.ordinal == ordinal
    &&& e.data@ == d.data
    &&& e.offset == d.offset
}

/// How the entities are after definition `d` was put in place at slot `s`.
pub open spec fn slot_installed(
    before: Seq<FunctionEntity>,
    after: Seq<FunctionEntity>,
    s: int,
    d: DefinitionView,
    ordinal: usize,
    revision: u64,
) -> bool {
    &&& 0 <= s <= before.len()
    &&& after.len() == if s < before.len() {
        before.len()
    } else {
        before.len() + 1
    }
    &&& forall|j: int| 0 <= j < before.len() && j != s ==> #[trigger] after[j] == before[j]
    &&& stands_for(after[s], d, ordinal as nat)
    &&& s < before.len() ==> carried(before[s], after[s], revision)
    &&& s == before.len() ==> after[s].check is None && after[s].changed_at == revision && forall|
        j: int,
    |
        0 <= j < before.len() ==> !((#[trigger] before[j]).name == d.name && before[j].ordinal
            == ordinal)
}

/// One of the first `k` handles of `list` is the handle of entity `s`.
pub open spec fn given_out(list: Seq<Function>, k: int, s: int) -> bool {
    exists|j: int| 0 <= j < k && (#[trigger] list[j]).index == s
}

/// How the entities are after the first `k` of `defs` were put in place, with
/// handles `list`: each of them has the entity that stands for it; an entity
/// that was there before is carried over; every other entity is new, was made
/// for one of the definitions, and has a handle above all handles that were
/// given to earlier definitions.
pub open spec fn installed_upto(
    before: Seq<FunctionEntity>,
    after: Seq<FunctionEntity>,
    list: Seq<Function>,
    defs: Seq<DefinitionView>,
    k: int,
    revision: u64,
) -> bool {
    &&& before.len() <= after.len()
    &&& list.len() == k
    &&& forall|j: int|
        0 <= j < k ==> (#[trigger] list[j]).index < after.len() && stands_for(
            after[list[j].index as int],
            defs[j],
            count_named(names_of(defs), defs[j].name, j),
        )
    &&& forall|s: int| 0 <= s < before.len() ==> carried(before[s], #[trigger] after[s], revision)
    &&& forall|s: int|
        0 <= s < before.len() && (forall|j: int| 0 <= j < k ==> (#[trigger] list[j]).index != s)
            ==> #[trigger] after[s] == before[s]
    &&& forall|s: int|
        before.len() <= s < after.len() ==> (#[trigger] after[s]).changed_at == revision
            && after[s].check is None
    &&& forall|s: int| before.len() <= s < after.len() ==> #[trigger] given_out(list, k, s)
    &&& forall|i: int, j: int|
        0 <= i < j < k && (#[trigger] list[j]).index >= before.len() ==> (#[trigger] list[i]).index
            < list[j].index
}

/// Puts the data of a definition into the entity that stands for it.
fn renew(entity: &mut FunctionEntity, d: Definition, revision: u64)
    ensures
        final(entity).name == old(entity).name,
        final(entity).ordinal == old(entity).ordinal,
        final(entity).data@ == d@.data,
        final(entity).offset == d.offset,
        carried(*old(entity), *final(entity), revision),
{
    let same = entity.data.same(&d.data);
    entity.offset = d.offset;
    if !same {
        entity.data = d.data;
        entity.changed_at = revision;
    }
}

/// The functions of a program and the entities behind their handles.
#[derive(Debug)]
pub struct ProgramTable {
    /// Every function that any revision of the input has defined, by handle.
    pub entities: Vec<FunctionEntity>,
    /// The functions of the current program, in the order of their definitions.
    pub functions: Vec<Function>,
    /// The revision at which `functions` last changed in value.
    pub changed_at: u64,
}

impl ProgramTable {
    /// What checks can observe of this program.
    pub open spec fn world(&self) -> World {
        World {
            find: |name: FunctionId| first_named(self.entities@, self.functions@, name, 0),
            arity: |f: Function| self.entities@[f.index as int].data.args@.len() as usize,
        }
    }

    /// The observation is true of this program.
    pub open spec fn observes(&self, d: Dependency) -> bool {
        match d {
            Dependency::Find(name, seen) => first_named(self.entities@, self.functions@, name, 0)
                == seen,
            Dependency::Arity(f, seen) => f.index < self.entities@.len()
                && self.entities@[f.index as int].data.args@.len() == seen,
        }
    }

    /// Every observation in `deps` is true of this program.
    pub open spec fn observes_all(&self, deps: Seq<Dependency>) -> bool {
        forall|i: int| 0 <= i < deps.len() ==> self.observes(#[trigger] deps[i])
    }

    /// Some entity has this identity.
    pub open spec fn has_key(&self, name: FunctionId, ordinal: usize) -> bool {
        exists|s: int|
            0 <= s < self.entities@.len() && (#[trigger] self.entities@[s]).name == name
                && self.entities@[s].ordinal == ordinal
    }

    /// No two entities have the same identity.
    pub open spec fn keys_distinct(&self) -> bool {
        forall|i: int, j: int|
            0 <= i < self.entities@.len() && 0 <= j < self.entities@.len() && (
            #[trigger] self.entities@[i]).name == (#[trigger] self.entities@[j]).name
                && self.entities@[i].ordinal == self.entities@[j].ordinal ==> i == j
    }

    /// What a remembered check claims: whatever program its observations are
    /// true of, checking the function there gives the remembered findings.
    pub open spec fn memo_sound(e: FunctionEntity) -> bool {
        e.check matches Some(m) ==> {
            &&& m.data_stamp <= e.changed_at
            &&& m.data_stamp == e.changed_at ==> forall|w: World|
                #![trigger agrees(w, m.deps@)]
                agrees(w, m.deps@) ==> check_spec(e.data@.body, e.data@.args, w) == m.errors@
        }
    }

    /// No two entities share an identity, every handle of the program has its
    /// entity, no stamp lies after `revision`, and every remembered check is sound.
    pub open spec fn wf(&self, revision: u64) -> bool {
        &&& self.keys_distinct()
        &&& self.changed_at <= revision
        &&& forall|k: int|
            0 <= k < self.functions@.len() ==> (#[trigger] self.functions@[k]).index
                < self.entities@.len()
        &&& forall|s: int|
            0 <= s < self.entities@.len() ==> (#[trigger] self.entities@[s]).changed_at <= revision
        &&& forall|s: int|
            0 <= s < self.entities@.len() ==> Self::memo_sound(#[trigger] self.entities@[s])
    }

    /// The program is made of `defs`: function number `k` has the name, the
    /// data and the offset of definition number `k`.
    pub open spec fn reflects(&self, defs: Seq<DefinitionView>) -> bool {
        &&& self.functions@.len() == defs.len()
        &&& forall|k: int|
            0 <= k < defs.len() ==> {
                let f = #[trigger] self.functions@[k];
                &&& f.index < self.entities@.len()
                &&& self.entities@[f.index as int].name == defs[k].name
                &&& self.entities@[f.index as int].ordinal == count_named(
                    names_of(defs),
                    defs[k].name,
                    k,
                )
                &&& self.entities@[f.index as int].data@ == defs[k].data
                &&& self.entities@[f.index as int].offset == defs[k].offset
            }
    }

    /// A program without functions.
    pub fn new() -> (table: ProgramTable)
        ensures
            table.wf(0),
            table.entities@.len() == 0,
            table.functions@.len() == 0,
            table.changed_at == 0,
    {
        ProgramTable { entities: Vec::new(), functions: Vec::new(), changed_at: 0 }
    }

    /// The entity with this identity, if there is one.
    fn find_slot(&self, name: FunctionId, ordinal: usize) -> (r: Option<usize>)
        ensures
            match r {
                Some(s) => s < self.entities@.len() && self.entities@[s as int].name == name
                    && self.entities@[s as int].ordinal == ordinal,
                None => !self.has_key(name, ordinal),
            },
    {
        let n = self.entities.len();
        let mut s: usize = 0;
        while s < n
            invariant
                s <= n,
                n == self.entities@.len(),
                forall|j: int|
                    0 <= j < s ==> !((#[trigger] self.entities@[j]).name == name
                        && self.entities@[j].ordinal == ordinal),
            decreases n - s,
        {
            if self.entities[s].name == name && self.entities[s].ordinal == ordinal {
                return Some(s);
            }
            s = s + 1;
        }
        None
    }

    /// Whether no entity was stamped at or after `revision` yet.
    pub open spec fn older_than(&self, revision: u64) -> bool {
        &&& self.changed_at < revision
        &&& forall|s: int|
            0 <= s < self.entities@.len() ==> (#[trigger] self.entities@[s]).changed_at < revision
    }

    /// How many of the functions in `list` have the name `name`.
    fn ordinal(&self, list: &Vec<Function>, name: FunctionId, Ghost(names): Ghost<Seq<FunctionId>>) -> (c:
        usize)
        requires
            forall|j: int|
                0 <= j < list@.len() ==> (#[trigger] list@[j]).index < self.entities@.len()
                    && self.entities@[list@[j].index as int].name == names[j],
        ensures
            c == count_named(names, name, list@.len() as int),
    {
        let n = list.len();
        let mut c: usize = 0;
        let mut j: usize = 0;
        while j < n
            invariant
                j <= n,
                n == list@.len(),
                c <= j,
                c == count_named(names, name, j as int),
                forall|j: int|
                    0 <= j < list@.len() ==> (#[trigger] list@[j]).index < self.entities@.len()
                        && self.entities@[list@[j].index as int].name == names[j],
            decreases n - j,
        {
            if self.entities[list[j].index].name == name {
                c = c + 1;
            }
            j = j + 1;
        }
        c
    }

    /// Puts one definition in place: into the entity with its identity if there
    /// is one, else into a new entity.
    fn install_one(&mut self, d: Definition, ordinal: usize, revision: u64) -> (f: Function)
        ensures
            final(self).functions == old(self).functions,
            final(self).changed_at == old(self).changed_at,
            slot_installed(
                old(self).entities@,
                final(self).entities@,
                f.index as int,
                d@,
                ordinal,
                revision,
            ),
    {
        match self.find_slot(d.name, ordinal) {
            Some(s) => {
                let ghost before = self.entities@;
                renew(&mut self.entities[s], d, revision);
                Function { index: s }
            },
            None => {
                let s = self.entities.len();
                let Definition { name, offset, data } = d;
                self.entities.push(
                    FunctionEntity { name, ordinal, data, changed_at: revision, offset, check: None },
                );
                Function { index: s }
            },
        }
    }

    /// Makes `defs` the program. A definition goes to the entity that already
    /// has its identity, so a function keeps its handle from one revision to the
    /// next; an entity whose data did not change in value keeps its stamp, and the
    /// list of functions keeps its stamp if it did not change in value.
    pub fn install(&mut self, defs: Vec<Definition>, revision: u64)
        requires
            old(self).wf(revision),
            old(self).older_than(revision),
        ensures
            final(self).wf(revision),
            final(self).reflects(definitions_view(defs@)),
            installed_upto(
                old(self).entities@,
                final(self).entities@,
                final(self).functions@,
                definitions_view(defs@),
                defs@.len() as int,
                revision,
            ),
            final(self).functions@ == old(self).functions@ ==> final(self).changed_at == old(
                self,
            ).changed_at,
            final(self).functions@ != old(self).functions@ ==> final(self).changed_at == revision,
    {
        let ghost all = definitions_view(defs@);
        let ghost names = names_of(all);
        let ghost start = self.entities@;
        let n = defs.len();
        let mut rest = reversed(defs);
        let mut list: Vec<Function> = Vec::new();
        let mut k: usize = 0;
        while k < n
            invariant
                k <= n,
                n == all.len(),
                names == names_of(all),
                rest@.len() == n - k,
                forall|j: int| 0 <= j < rest@.len() ==> (#[trigger] rest@[j])@ == all[n - 1 - j],
                self.keys_distinct(),
                self.functions == old(self).functions,
                self.changed_at == old(self).changed_at,
                start == old(self).entities@,
                installed_upto(start, self.entities@, list@, all, k as int, revision),
            decreases n - k,
        {
            let d = rest.pop().unwrap();
            let ghost dv = d@;
            assert(dv == all[k as int]);
            let ghost before = self.entities@;
            let ghost handles = list@;
            let ordinal = self.ordinal(&list, d.name, Ghost(names));
            let f = self.install_one(d, ordinal, revision);
            let ghost after = self.entities@;
            let ghost s = f.index as int;
            proof {
                assert forall|j: int| 0 <= j < k implies (#[trigger] handles[j]).index != s by {
                    if handles[j].index == s {
                        assert(stands_for(
                            before[handles[j].index as int],
                            all[j],
                            count_named(names, all[j].name, j),
                        ));
                        assert(s < before.len());
                        assert(carried(before[s], after[s], revision));
                        assert(names[j] == dv.name);
                        lemma_count_strict(names, dv.name, j, k as int);
                    }
                }
                assert forall|i: int, j: int|
                    0 <= i < after.len() && 0 <= j < after.len() && (#[trigger] after[i]).name == (
                    #[trigger] after[j]).name && after[i].ordinal == after[j].ordinal implies i
                    == j by {
                    if i != s && j != s {
                        assert(after[i] == before[i]);
                        assert(after[j] == before[j]);
                    } else if i != j {
                        let o = if i == s {
                            j
                        } else {
                            i
                        };
                        assert(after[o] == before[o]);
                        if s < before.len() {
                            assert(carried(before[s], after[s], revision));
                        }
                    }
                }
            }
            list.push(f);
            proof {
                let grown = list@;
                assert forall|j: int| 0 <= j < k + 1 implies (#[trigger] grown[j]).index
                    < after.len() && stands_for(
                    after[grown[j].index as int],
                    all[j],
                    count_named(names, all[j].name, j),
                ) by {
                    if j < k {
                        assert(grown[j] == handles[j]);
                        assert(handles[j].index != s);
                        assert(after[handles[j].index as int] == before[handles[j].index as int]);
                    }
                }
                assert forall|t: int| 0 <= t < start.len() implies carried(
                    start[t],
                    #[trigger] after[t],
                    revision,
                ) by {
                    if t != s {
                        assert(after[t] == before[t]);
                    } else {
                        assert(before[t] == start[t]);
                        assert(carried(before[s], after[s], revision));
                    }
                }
                assert forall|t: int|
                    0 <= t < start.len() && (forall|j: int|
                        0 <= j < k + 1 ==> (#[trigger] grown[j]).index != t) implies #[trigger] after[t]
                    == start[t] by {
                    assert(grown[k as int].index != t);
                    assert(after[t] == before[t]);
                    assert forall|j: int| 0 <= j < k implies (#[trigger] handles[j]).index != t by {
                        assert(grown[j] == handles[j]);
                    }
                }
                assert forall|t: int| start.len() <= t < after.len() implies (
                #[trigger] after[t]).changed_at == revision && after[t].check is None by {
                    if t != s {
                        assert(after[t] == before[t]);
                    } else if s < before.len() {
                        assert(carried(before[s], after[s], revision));
                    }
                }
                assert forall|t: int| start.len() <= t < after.len() implies #[trigger] given_out(
                    grown,
                    k + 1,
                    t,
                ) by {
                    if t == s {
                        assert(grown[k as int].index == t);
                    } else {
                        assert(after[t] == before[t]);
                        assert(given_out(handles, k as int, t));
                        let j = choose|j: int| 0 <= j < k && (#[trigger] handles[j]).index == t;
                        assert(grown[j] == handles[j]);
                    }
                }
                assert forall|i: int, j: int|
                    0 <= i < j < k + 1 && (#[trigger] grown[j]).index >= start.len() implies (
                #[trigger] grown[i]).index < grown[j].index by {
                    assert(grown[i] == handles[i]);
                    if j < k {
                        assert(grown[j] == handles[j]);
                    } else {
                        assert(handles[i].index != s);
                        assert(handles[i].index < before.len());
                        if s < before.len() {
                            assert(given_out(handles, k as int, s));
                            let w = choose|w: int| 0 <= w < k && (#[trigger] handles[w]).index == s;
                            assert(handles[w].index != s);
                        }
                    }
                }
            }
            k = k + 1;
        }
        let ghost after = self.entities@;
        if !same_handles(&list, &self.functions) {
            self.functions = list;
            self.changed_at = revision;
        }
        proof {
            let handles = self.functions@;
            assert(handles =~= list@) by {
                if list@ != handles {
                }
            }
            assert forall|t: int| 0 <= t < after.len() implies Self::memo_sound(
                #[trigger] after[t],
            ) by {
                if t < start.len() {
                    assert(carried(start[t], after[t], revision));
                    assert(Self::memo_sound(start[t]));
                    assert(start[t].changed_at < revision);
                }
            }
            assert forall|t: int| 0 <= t < after.len() implies (#[trigger] after[t]).changed_at
                <= revision by {
                if t < start.len() {
                    assert(carried(start[t], after[t], revision));
                    assert(start[t].changed_at < revision);
                }
            }
        }
    }
}

/// Whether two lists hold the same handles in the same order.
fn same_handles(a: &Vec<Function>, b: &Vec<Function>) -> (r: bool)
    ensures
        r == (a@ == b@),
{
    if a.len() != b.len() {
        return false;
    }
    let n = a.len();
    let mut i: usize = 0;
    while i < n
        invariant
            i <= n,
            n == a@.len(),
            n == b@.len(),
            forall|j: int| 0 <= j < i ==> a@[j] == b@[j],
        decreases n - i,
    {
        if a[i] != b[i] {
            return false;
        }
        i = i + 1;
    }
    proof {
        assert(a@ =~= b@);
    }
    true
}

/// The same items in the opposite order.
pub(crate) fn reversed<T>(v: Vec<T>) -> (r: Vec<T>)
    ensures
        r@.len() == v@.len(),
        forall|j: int| 0 <= j < r@.len() ==> r@[j] == v@[v@.len() - 1 - j],
{
    let mut v = v;
    let ghost all = v@;
    let mut r: Vec<T> = Vec::new();
    while v.len() > 0
        invariant
            v@.len() + r@.len() == all.len(),
            forall|j: int| 0 <= j < v@.len() ==> v@[j] == all[j],
            forall|j: int| 0 <= j < r@.len() ==> r@[j] == all[all.len() - 1 - j],
        decreases v@.len(),
    {
        let x = v.pop().unwrap();
        r.push(x);
    }
    r
}

/// Looking up a name gives the same function as long as the list of functions
/// and the names of the entities behind it stay the same.
pub proof fn lemma_first_named_stable(
    before: Seq<FunctionEntity>,
    after: Seq<FunctionEntity>,
    functions: Seq<Function>,
    name: FunctionId,
    from: int,
)
    requires
        forall|k: int|
            0 <= k < functions.len() ==> before[(#[trigger] functions[k]).index as int].name
                == after[functions[k].index as int].name,
    ensures
        first_named(after, functions, name, from) == first_named(before, functions, name, from),
    decreases functions.len() - from,
{
    if 0 <= from < functions.len() {
        lemma_first_named_stable(before, after, functions, name, from + 1);
    }
}

/// The two tables differ at most in what the checks of their functions remember.
pub open spec fn same_but_checks(before: ProgramTable, after: ProgramTable) -> bool {
    &&& after.functions == before.functions
    &&& after.changed_at == before.changed_at
    &&& after.entities@.len() == before.entities@.len()
    &&& forall|s: int|
        0 <= s < before.entities@.len() ==> {
            &&& (#[trigger] after.entities@[s]).name == before.entities@[s].name
            &&& after.entities@[s].ordinal == before.entities@[s].ordinal
            &&& after.entities@[s].data == before.entities@[s].data
            &&& after.entities@[s].offset == before.entities@[s].offset
            &&& after.entities@[s].changed_at == before.entities@[s].changed_at
        }
}

/// What the checks remember has no part in what a program observes of itself.
pub proof fn lemma_observes_stable(before: ProgramTable, after: ProgramTable, d: Dependency)
    requires
        same_but_checks(before, after),
        forall|k: int|
            0 <= k < before.functions@.len() ==> (#[trigger] before.functions@[k]).index
                < before.entities@.len(),
    ensures
        after.observes(d) == before.observes(d),
{
    match d {
        Dependency::Find(name, _) => {
            lemma_first_named_stable(before.entities@, after.entities@, before.functions@, name, 0);
        },
        Dependency::Arity(_, _) => {},
    }
}

/// What a lookup of a name remembers: the revision of the list of functions
/// that it read, and the result.
#[derive(Clone, Copy, Debug)]
pub struct FindMemo {
    pub name: FunctionId,
    pub list_stamp: u64,
    pub result: Option<Function>,
}

/// No name is remembered twice, no memo is from the future, and a memo of
/// the current list holds the function that its name stands for.
pub open spec fn finds_wf(finds: Seq<FindMemo>, table: ProgramTable) -> bool {
    &&& forall|i: int, j: int|
        0 <= i < finds.len() && 0 <= j < finds.len() && (#[trigger] finds[i]).name == (
        #[trigger] finds[j]).name ==> i == j
    &&& forall|i: int|
        0 <= i < finds.len() ==> {
            &&& (#[trigger] finds[i]).list_stamp <= table.changed_at
            &&& finds[i].list_stamp == table.changed_at ==> finds[i].result == first_named(
                table.entities@,
                table.functions@,
                finds[i].name,
                0,
            )
        }
}

/// All that the queries store.
#[derive(Debug)]
pub struct Jar {
    pub interner: Interner,
    /// The number of the current revision of the input; every write adds one.
    pub revision: u64,
    /// The input: the source text.
    pub text: String,
    /// The revision of the text that the program was last derived from.
    pub parsed_at: Option<u64>,
    /// The syntax error of that text, if it had one.
    pub syntax_error: Option<ParseError>,
    pub table: ProgramTable,
    pub finds: Vec<FindMemo>,
    /// The revision of the list of functions that the check of the whole
    /// program last ran on.
    pub checked_at: Option<u64>,
    /// Whether the compilation ran before.
    pub compiled: bool,
}

impl Jar {
    /// The bytes of the source text.
    pub open spec fn bytes(&self) -> Seq<u8> {
        encode_utf8(self.text@)
    }

    /// The program was derived from the current text.
    pub open spec fn current(&self) -> bool {
        self.parsed_at == Some(self.revision)
    }

    /// What the current text means, with the handles of this session.
    pub open spec fn meaning(&self) -> Result<Seq<DefinitionView>, ParseError> {
        program_of(self.bytes(), self.interner.names(), self.interner.identities())
    }

    /// The stored program is what the current text means.
    pub open spec fn faithful(&self) -> bool {
        &&& text_interned(self.bytes(), self.interner.names(), self.interner.identities())
        &&& match self.meaning() {
            Ok(defs) => self.syntax_error is None && self.table.reflects(defs)
                && definitions_in_text(defs, self.bytes().len() as int),
            Err(e) => self.syntax_error == Some(e) && self.table.functions@.len() == 0 && e.start
                <= e.end <= self.bytes().len(),
        }
    }

    /// What every operation keeps: the tables of the interner and of the program are
    /// well formed, every remembered lookup is sound, and once the program is derived
    /// from the current text it is what that text means.
    pub open spec fn wf(&self) -> bool {
        &&& self.interner.wf()
        &&& self.table.wf(self.revision)
        &&& finds_wf(self.finds@, self.table)
        &&& self.parsed_at matches Some(p) ==> p <= self.revision
        &&& !self.current() ==> self.table.older_than(self.revision)
        &&& self.checked_at matches Some(c) ==> c <= self.table.changed_at
        &&& self.current() ==> self.faithful()
    }

    /// The function definitions of the current text; none if it has a syntax error.
    pub open spec fn definitions(&self) -> Seq<DefinitionView> {
        match self.meaning() {
            Ok(defs) => defs,
            Err(_) => Seq::empty(),
        }
    }

    /// Everything but the interner is as in `earlier`.
    pub open spec fn same_but_interner(&self, earlier: &Jar) -> bool {
        &&& self.revision == earlier.revision
        &&& self.text == earlier.text
        &&& self.parsed_at == earlier.parsed_at
        &&& self.syntax_error == earlier.syntax_error
        &&& self.table == earlier.table
        &&& self.finds == earlier.finds
        &&& self.checked_at == earlier.checked_at
        &&& self.compiled == earlier.compiled
    }

    /// Interns a name. Nothing that was derived changes.
    pub fn intern_text(&mut self, text: String) -> (index: usize)
        requires
            old(self).wf(),
        ensures
            final(self).wf(),
            final(self).same_but_interner(old(self)),
            index == position(old(self).interner.names(), text@),
            index < final(self).interner.names().len(),
            final(self).interner.names()[index as int] == text@,
            final(self).interner.names() == if old(self).interner.names().contains(text@) {
                old(self).interner.names()
            } else {
                old(self).interner.names().push(text@)
            },
            final(self).interner.identities() == old(self).interner.identities(),
    {
        let index = self.interner.intern(text);
        proof {
            if self.current() {
                lemma_program_stable(
                    self.bytes(),
                    old(self).interner.names(),
                    old(self).interner.identities(),
                    self.interner.names(),
                    self.interner.identities(),
                );
            }
        }
        index
    }

    /// Interns a definition identity. Nothing that was derived changes.
    pub fn intern_identity(&mut self, data: DefIdData) -> (index: usize)
        requires
            old(self).wf(),
        ensures
            final(self).wf(),
            final(self).same_but_interner(old(self)),
            index == position(old(self).interner.identities(), data),
            index < final(self).interner.identities().len(),
            final(self).interner.identities()[index as int] == data,
            final(self).interner.identities() == if old(self).interner.identities().contains(data) {
                old(self).interner.identities()
            } else {
                old(self).interner.identities().push(data)
            },
            final(self).interner.names() == old(self).interner.names(),
    {
        let index = self.interner.intern_def(data);
        proof {
            if self.current() {
                lemma_program_stable(
                    self.bytes(),
                    old(self).interner.names(),
                    old(self).interner.identities(),
                    self.interner.names(),
                    self.interner.identities(),
                );
            }
        }
        index
    }

    /// Replaces the source text. This starts a new revision.
    pub fn write_text(&mut self, text: String)
        requires
            old(self).wf(),
            old(self).revision < u64::MAX,
        ensures
            final(self).wf(),
            !final(self).current(),
            final(self).text@ == text@,
            final(self).revision == old(self).revision + 1,
            final(self).interner == old(self).interner,
            final(self).parsed_at == old(self).parsed_at,
            final(self).syntax_error == old(self).syntax_error,
            final(self).table == old(self).table,
            final(self).finds == old(self).finds,
            final(self).checked_at == old(self).checked_at,
            final(self).compiled == old(self).compiled,
    {
        self.text = text;
        self.revision = self.revision + 1;
    }

    /// A check that remembers `memo` need not run again on function `f` of this
    /// program: the function's data has the stamp that the check read, and every
    /// observation that the check made is still true.
    pub open spec fn reusable(&self, memo: Option<CheckMemo>, f: Function) -> bool {
        &&& f.index < self.table.entities@.len()
        &&& memo matches Some(m)
        &&& m.data_stamp == self.table.entities@[f.index as int].changed_at
        &&& self.table.observes_all(m.deps@)
    }

    /// What the check of `f` remembers, if the function is known.
    pub open spec fn memo_of(&self, f: Function) -> Option<CheckMemo> {
        if f.index < self.table.entities@.len() {
            self.table.entities@[f.index as int].check
        } else {
            None
        }
    }

    /// The check of `f` is up to date.
    pub open spec fn checked(&self, f: Function) -> bool {
        self.reusable(self.memo_of(f), f)
    }

    /// The findings that the check of `f` remembers.
    pub open spec fn errors_of(&self, f: Function) -> Seq<CheckError> {
        self.table.entities@[f.index as int].check->Some_0.errors@
    }

    /// The findings that checking `f` against the current program gives.
    pub open spec fn expected_errors(&self, f: Function) -> Seq<CheckError> {
        check_spec(
            self.table.entities@[f.index as int].data@.body,
            self.table.entities@[f.index as int].data@.args,
            self.table.world(),
        )
    }

    /// The check of `f` is up to date, and so is every lookup that it made:
    /// checking `f` again runs nothing.
    pub open spec fn settled_for(&self, f: Function) -> bool {
        &&& self.checked(f)
        &&& lookups_remembered(self.memo_of(f)->Some_0.deps@, self.finds@, self.table.changed_at)
    }

    /// Everything but the remembered lookups and checks is as in `earlier`.
    pub open spec fn same_but_memos(&self, earlier: &Jar) -> bool {
        &&& self.interner == earlier.interner
        &&& self.revision == earlier.revision
        &&& self.text == earlier.text
        &&& self.parsed_at == earlier.parsed_at
        &&& self.syntax_error == earlier.syntax_error
        &&& same_but_checks(earlier.table, self.table)
        &&& self.checked_at == earlier.checked_at
        &&& self.compiled == earlier.compiled
    }

    /// Every function of the program has an up-to-date check whose lookups
    /// are remembered.
    pub open spec fn all_settled(&self) -> bool {
        forall|k: int|
            0 <= k < self.table.functions@.len() ==> self.settled_for(
                #[trigger] self.table.functions@[k],
            )
    }

    /// `f` is a function of the current program.
    pub open spec fn in_program(&self, f: Function) -> bool {
        exists|k: int| 0 <= k < self.table.functions@.len() && #[trigger] self.table.functions@[k] == f
    }

    /// Changing what lookups and checks remember keeps the storage well formed,
    /// as long as the memories themselves are sound.
    pub proof fn lemma_memos_keep_wf(&self, after: &Jar)
        requires
            self.wf(),
            after.same_but_memos(self),
            finds_wf(after.finds@, self.table),
            forall|s: int|
                0 <= s < after.table.entities@.len() ==> ProgramTable::memo_sound(
                    #[trigger] after.table.entities@[s],
                ),
        ensures
            after.wf(),
    {
        let finds = after.finds@;
        assert forall|i: int|
            0 <= i < finds.len() && (#[trigger] finds[i]).list_stamp
                == after.table.changed_at implies finds[i].result == first_named(
            after.table.entities@,
            after.table.functions@,
            finds[i].name,
            0,
        ) by {
            lemma_first_named_stable(
                self.table.entities@,
                after.table.entities@,
                self.table.functions@,
                finds[i].name,
                0,
            );
        }
        assert(after.table.keys_distinct()) by {
            assert forall|i: int, j: int|
                0 <= i < after.table.entities@.len() && 0 <= j < after.table.entities@.len() && (
                #[trigger] after.table.entities@[i]).name == (
                #[trigger] after.table.entities@[j]).name && after.table.entities@[i].ordinal
                    == after.table.entities@[j].ordinal implies i == j by {
                assert(self.table.entities@[i].name == self.table.entities@[j].name);
            }
        }
        if self.current() {
            match self.meaning() {
                Ok(defs) => {
                    assert forall|k: int| 0 <= k < defs.len() implies {
                        let f = #[trigger] after.table.functions@[k];
                        &&& f.index < after.table.entities@.len()
                        &&& after.table.entities@[f.index as int].name == defs[k].name
                        &&& after.table.entities@[f.index as int].ordinal == count_named(
                            names_of(defs),
                            defs[k].name,
                            k,
                        )
                        &&& after.table.entities@[f.index as int].data@ == defs[k].data
                        &&& after.table.entities@[f.index as int].offset == defs[k].offset
                    } by {
                        assert(self.table.functions@[k] == after.table.functions@[k]);
                    }
                },
                Err(_) => {},
            }
        }
    }

    /// What the check of `g` remembers stays as good as it was when only other
    /// memories change.
    pub proof fn lemma_check_preserved(&self, after: &Jar, g: Function)
        requires
            self.wf(),
            after.same_but_memos(self),
            after.memo_of(g) == self.memo_of(g),
            forall|name: FunctionId|
                remembered(self.finds@, name, self.table.changed_at) ==> remembered(
                    after.finds@,
                    name,
                    self.table.changed_at,
                ),
        ensures
            after.checked(g) == self.checked(g),
            self.settled_for(g) ==> after.settled_for(g),
    {
        if g.index < self.table.entities@.len() {
            if let Some(m) = self.memo_of(g) {
                assert forall|i: int| 0 <= i < m.deps@.len() implies after.table.observes(
                    #[trigger] m.deps@[i],
                ) == self.table.observes(m.deps@[i]) by {
                    lemma_observes_stable(self.table, after.table, m.deps@[i]);
                }
            }
        }
    }

    /// Whether a check is up to date does not depend on what is remembered elsewhere.
    pub proof fn lemma_check_same(&self, after: &Jar, g: Function)
        requires
            self.wf(),
            same_but_checks(self.table, after.table),
            after.memo_of(g) == self.memo_of(g),
        ensures
            after.checked(g) == self.checked(g),
    {
        if g.index < self.table.entities@.len() {
            if let Some(m) = self.memo_of(g) {
                assert forall|i: int| 0 <= i < m.deps@.len() implies after.table.observes(
                    #[trigger] m.deps@[i],
                ) == self.table.observes(m.deps@[i]) by {
                    lemma_observes_stable(self.table, after.table, m.deps@[i]);
                }
            }
        }
    }

    /// Nothing is left to run: the program is derived from the current text,
    /// every check is up to date, and the compilation ran before.
    pub open spec fn settled(&self) -> bool {
        &&& self.current()
        &&& self.all_settled()
        &&& self.checked_at == Some(self.table.changed_at)
        &&& self.compiled
    }

    /// Whether a memory can be used again does not depend on what is remembered elsewhere.
    pub proof fn lemma_reusable_same(&self, after: &Jar, memo: Option<CheckMemo>, g: Function)
        requires
            self.wf(),
            same_but_checks(self.table, after.table),
        ensures
            after.reusable(memo, g) == self.reusable(memo, g),
    {
        if let Some(m) = memo {
            assert forall|i: int| 0 <= i < m.deps@.len() implies after.table.observes(
                #[trigger] m.deps@[i],
            ) == self.table.observes(m.deps@[i]) by {
                lemma_observes_stable(self.table, after.table, m.deps@[i]);
            }
        }
    }

    /// An up-to-date check remembers exactly the findings that checking would give.
    pub proof fn lemma_checked(&self, f: Function)
        requires
            self.wf(),
            self.checked(f),
        ensures
            self.errors_of(f) == self.expected_errors(f),
    {
        let e = self.table.entities@[f.index as int];
        assert(ProgramTable::memo_sound(e));
        lemma_observed_agrees(self.table, e.check->Some_0.deps@);
    }

    /// An empty text at revision one, nothing derived yet.
    pub fn new() -> (jar: Jar)
        ensures
            jar.wf(),
            !jar.current(),
            jar.revision == 1,
            jar.text@ == Seq::<char>::empty(),
            jar.interner.names() == Seq::<Seq<char>>::empty(),
    {
        Jar {
            interner: Interner::new(),
            revision: 1,
            text: String::new(),
            parsed_at: None,
            syntax_error: None,
            table: ProgramTable::new(),
            finds: Vec::new(),
            checked_at: None,
            compiled: false,
        }
    }
}

/// Anything that holds the storage of the queries.
pub trait Db {
    spec fn jar_of(&self) -> Jar;

    fn jar(&self) -> (jar: &Jar)
        ensures
            *jar == self.jar_of(),
    ;
}

/// The storage together with the record of the queries that ran.
#[derive(Debug)]
pub struct Database {
    pub jar: Jar,
    pub logs: Vec<Event>,
}

impl Default for Database {
    /// A database with an empty text and nothing derived or recorded.
    fn default() -> (db: Database)
        ensures
            db.wf(),
            !db.jar.current(),
            db.jar.revision == 1,
            db.logs@ == Seq::<Event>::empty(),
            db.jar.text@ == Seq::<char>::empty(),
            db.jar.interner.names() == Seq::<Seq<char>>::empty(),
    {
        Database::new()
    }
}

impl Db for Database {
    open spec fn jar_of(&self) -> Jar {
        self.jar
    }

    fn jar(&self) -> (jar: &Jar) {
        &self.jar
    }
}

impl Database {
    /// The storage is well formed.
    pub open spec fn wf(&self) -> bool {
        self.jar.wf()
    }

    /// A database with an empty text and nothing derived or recorded.
    pub fn new() -> (db: Database)
        ensures
            db.wf(),
            !db.jar.current(),
            db.jar.revision == 1,
            db.logs@ == Seq::<Event>::empty(),
            db.jar.text@ == Seq::<char>::empty(),
            db.jar.interner.names() == Seq::<Seq<char>>::empty(),
    {
        Database { jar: Jar::new(), logs: Vec::new() }
    }

    /// Hands out the record of the queries that ran since the last call, and empties it.
    pub fn take_logs(&mut self) -> (logs: Vec<Event>)
        ensures
            logs@ == old(self).logs@,
            final(self).logs@ == Seq::<Event>::empty(),
            final(self).jar == old(self).jar,
    {
        let mut logs: Vec<Event> = Vec::new();
        std::mem::swap(&mut logs, &mut self.logs);
        logs
    }
}

impl SourceProgram {
    /// Puts `text` into the input cell and hands out the cell's handle. The
    /// database has one input cell: a second call replaces the text.
    pub fn new(db: &mut Database, text: String) -> (source: SourceProgram)
        requires
            old(db).wf(),
            old(db).jar.revision < u64::MAX,
        ensures
            final(db).wf(),
            !final(db).jar.current(),
            final(db).jar.text@ == text@,
            final(db).jar.revision == old(db).jar.revision + 1,
            final(db).jar.interner == old(db).jar.interner,
            final(db).jar.table == old(db).jar.table,
            final(db).jar.finds == old(db).jar.finds,
            final(db).logs == old(db).logs,
    {
        db.jar.write_text(text);
        SourceProgram {  }
    }

    /// Replaces the source text. Every write starts a new revision, whatever the text.
    pub fn set_text(self, db: &mut Database, text: String)
        requires
            old(db).wf(),
            old(db).jar.revision < u64::MAX,
        ensures
            final(db).wf(),
            !final(db).jar.current(),
            final(db).jar.text@ == text@,
            final(db).jar.revision == old(db).jar.revision + 1,
            final(db).jar.interner == old(db).jar.interner,
            final(db).jar.table == old(db).jar.table,
            final(db).jar.finds == old(db).jar.finds,
            final(db).logs == old(db).logs,
    {
        db.jar.write_text(text);
    }

    /// The source text.
    pub fn text<D: Db>(self, db: &D) -> (text: &String)
        ensures
            *text == db.jar_of().text,
    {
        &db.jar().text
    }
}

impl VariableId {
    /// The handle of the variable name `text`: equal names get equal handles.
    pub fn new(db: &mut Database, text: String) -> (id: VariableId)
        requires
            old(db).wf(),
        ensures
            final(db).wf(),
            final(db).jar.same_but_interner(&old(db).jar),
            final(db).logs == old(db).logs,
            final(db).jar.interner.grown_from(&old(db).jar.interner),
            id.index == position(old(db).jar.interner.names(), text@),
            id.index < final(db).jar.interner.names().len(),
            final(db).jar.interner.names()[id.index as int] == text@,
    {
        VariableId { index: db.jar.intern_text(text) }
    }

    /// The name behind the handle.
    pub fn text<D: Db>(self, db: &D) -> (text: &String)
        requires
            self.index < db.jar_of().interner.names().len(),
        ensures
            text@ == db.jar_of().interner.names()[self.index as int],
    {
        db.jar().interner.text(self.index)
    }
}

impl FunctionId {
    /// The handle of the function name `text`: equal names get equal handles.
    pub fn new(db: &mut Database, text: String) -> (id: FunctionId)
        requires
            old(db).wf(),
        ensures
            final(db).wf(),
            final(db).jar.same_but_interner(&old(db).jar),
            final(db).logs == old(db).logs,
            final(db).jar.interner.grown_from(&old(db).jar.interner),
            id.index == position(old(db).jar.interner.names(), text@),
            id.index < final(db).jar.interner.names().len(),
            final(db).jar.interner.names()[id.index as int] == text@,
    {
        FunctionId { index: db.jar.intern_text(text) }
    }

    /// The name behind the handle.
    pub fn text<D: Db>(self, db: &D) -> (text: &String)
        requires
            self.index < db.jar_of().interner.names().len(),
        ensures
            text@ == db.jar_of().interner.names()[self.index as int],
    {
        db.jar().interner.text(self.index)
    }
}

impl DefId {
    /// The handle of a definition identity: equal identities get equal handles.
    pub fn new(db: &mut Database, data: DefIdData) -> (id: DefId)
        requires
            old(db).wf(),
        ensures
            final(db).wf(),
            final(db).jar.same_but_interner(&old(db).jar),
            final(db).logs == old(db).logs,
            final(db).jar.interner.grown_from(&old(db).jar.interner),
            id.index == position(old(db).jar.interner.identities(), data),
            id.index < final(db).jar.interner.identities().len(),
            final(db).jar.interner.identities()[id.index as int] == data,
    {
        DefId { index: db.jar.intern_identity(data) }
    }

    /// The identity that stands for no function. It is interned when the
    /// database is made, so its handle is there to be read.
    pub fn unknown<D: Db>(db: &D) -> (id: DefId)
        ensures
            id == unknown_def(),
            db.jar_of().interner.wf() ==> id.index < db.jar_of().interner.identities().len()
                && db.jar_of().interner.identities()[id.index as int] == DefIdData::Unknown,
    {
        DefId { index: 0 }
    }

    /// The identity behind the handle.
    pub fn data<D: Db>(self, db: &D) -> (data: DefIdData)
        requires
            self.index < db.jar_of().interner.identities().len(),
        ensures
            data == db.jar_of().interner.identities()[self.index as int],
    {
        db.jar().interner.def_data(self.index)
    }
}

impl Program {
    /// The functions of the program, in the order of their definitions.
    pub fn functions<D: Db>(self, db: &D) -> (functions: &Vec<Function>)
        ensures
            *functions == db.jar_of().table.functions,
    {
        &db.jar().table.functions
    }
}

impl Function {
    /// The function's name.
    pub fn name<D: Db>(self, db: &D) -> (name: FunctionId)
        requires
            self.index < db.jar_of().table.entities@.len(),
        ensures
            name == db.jar_of().table.entities@[self.index as int].name,
    {
        db.jar().table.entities[self.index].name
    }

    /// The function's parameters and body, every span counted from the start
    /// of the definition.
    pub fn data<D: Db>(self, db: &D) -> (data: &FunctionData)
        requires
            self.index < db.jar_of().table.entities@.len(),
        ensures
            *data == db.jar_of().table.entities@[self.index as int].data,
    {
        &db.jar().table.entities[self.index].data
    }

    /// Where the definition starts in the current text: what a span of the
    /// function has to be moved by to count from the start of the text.
    pub fn offset<D: Db>(self, db: &D) -> (offset: usize)
        requires
            self.index < db.jar_of().table.entities@.len(),
        ensures
            offset == db.jar_of().table.entities@[self.index as int].offset,
    {
        db.jar().table.entities[self.index].offset
    }
}

} // verus!
