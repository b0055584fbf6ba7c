//! Interning: equal values get one stable handle for the life of a session.

use vstd::prelude::*;
use crate::ir::DefIdData;

verus! {

/// `s` holds no value twice.
pub open spec fn distinct<T>(s: Seq<T>) -> bool {
    forall|i: int, j: int| 0 <= i < s.len() && 0 <= j < s.len() && s[i] == s[j] ==> i == j
}

/// `a` is the beginning of `b`.
pub open spec fn extends<T>(b: Seq<T>, a: Seq<T>) -> bool {
    a.len() <= b.len() && forall|i: int| 0 <= i < a.len() ==> a[i] == b[i]
}

/// Where `x` stands in `s`; the length of `s` if it does not occur.
pub open spec fn position<T>(s: Seq<T>, x: T) -> int {
    if s.contains(x) {
        choose|i: int| 0 <= i < s.len() && s[i] == x
    } else {
        s.len() as int
    }
}

/// In a sequence without repetition an element stands at its position.
pub proof fn lemma_position<T>(s: Seq<T>, i: int)
    requires
        distinct(s),
        0 <= i < s.len(),
    ensures
        position(s, s[i]) == i,
{
    assert(s.contains(s[i]));
}

/// Positions do not move when a sequence grows at its end.
pub proof fn lemma_position_extends<T>(a: Seq<T>, b: Seq<T>, x: T)
    requires
        distinct(b),
        extends(b, a),
        a.contains(x),
    ensures
        position(b, x) == position(a, x),
{
    let i = choose|i: int| 0 <= i < a.len() && a[i] == x;
    assert(b[i] == x);
    assert(b.contains(x));
}

/// The append-only tables of interned names and definition identities.
#[derive(Debug)]
pub struct Interner {
    pub texts: Vec<String>,
    pub defs: Vec<DefIdData>,
}

impl Interner {
    /// The interned names, by handle.
    pub open spec fn names(&self) -> Seq<Seq<char>> {
        Seq::new(self.texts@.len(), |i: int| self.texts@[i]@)
    }

    /// The interned definition identities, by handle.
    pub open spec fn identities(&self) -> Seq<DefIdData> {
        self.defs@
    }

    /// No value is held twice, and the unknown identity has handle zero.
    pub open spec fn wf(&self) -> bool {
        &&& distinct(self.names())
        &&& distinct(self.identities())
        &&& self.identities().len() > 0
        &&& self.identities()[0] == DefIdData::Unknown
    }

    /// `self` holds all that `earlier` held, under the same handles.
    pub open spec fn grown_from(&self, earlier: &Interner) -> bool {
        extends(self.names(), earlier.names()) && extends(self.identities(), earlier.identities())
    }

    /// No names yet, and the unknown identity under handle zero.
    pub fn new() -> (interner: Interner)
        ensures
            interner.wf(),
            interner.names() == Seq::<Seq<char>>::empty(),
            interner.identities() == seq![DefIdData::Unknown],
    {
        let mut defs: Vec<DefIdData> = Vec::new();
        defs.push(DefIdData::Unknown);
        let interner = Interner { texts: Vec::new(), defs };
        proof {
            assert(interner.names() =~= Seq::<Seq<char>>::empty());
            assert(interner.identities() =~= seq![DefIdData::Unknown]);
        }
        interner
    }

    /// The handle of `text`: the one it already has, or else the next free one.
    pub fn intern(&mut self, text: String) -> (index: usize)
        requires
            old(self).wf(),
        ensures
            final(self).wf(),
            index == position(old(self).names(), text@),
            final(self).names() == if old(self).names().contains(text@) {
                old(self).names()
            } else {
                old(self).names().push(text@)
            },
            final(self).identities() == old(self).identities(),
            index < final(self).names().len(),
            final(self).names()[index as int] == text@,
            final(self).grown_from(old(self)),
    {
        let n = self.texts.len();
        let mut i: usize = 0;
        while i < n
            invariant
                i <= n,
                n == self.texts.len(),
                *self == *old(self),
                self.wf(),
                forall|j: int| 0 <= j < i ==> self.names()[j] != text@,
            decreases n - i,
        {
            if self.texts[i] == text {
                proof {
                    assert(self.names()[i as int] == text@);
                    lemma_position(self.names(), i as int);
                }
                return i;
            }
            i = i + 1;
        }
        proof {
            assert(!old(self).names().contains(text@));
        }
        self.texts.push(text);
        proof {
            assert(self.names() =~= old(self).names().push(text@));
        }
        n
    }

    /// The name behind a handle.
    pub fn text(&self, index: usize) -> (text: &String)
        requires
            index < self.names().len(),
        ensures
            text@ == self.names()[index as int],
    {
        &self.texts[index]
    }

    /// The name behind a handle, if the handle was ever given out.
    pub fn lookup(&self, index: usize) -> (text: Option<&String>)
        ensures
            text is Some <==> index < self.names().len(),
            text matches Some(t) ==> t@ == self.names()[index as int],
    {
        if index < self.texts.len() {
            Some(&self.texts[index])
        } else {
            None
        }
    }

    /// The handle of a definition identity: the one it already has, or else the next free one.
    pub fn intern_def(&mut self, data: DefIdData) -> (index: usize)
        requires
            old(self).wf(),
        ensures
            final(self).wf(),
            index == position(old(self).identities(), data),
            final(self).identities() == if old(self).identities().contains(data) {
                old(self).identities()
            } else {
                old(self).identities().push(data)
            },
            final(self).names() == old(self).names(),
            index < final(self).identities().len(),
            final(self).identities()[index as int] == data,
            final(self).grown_from(old(self)),
    {
        let n = self.defs.len();
        let mut i: usize = 0;
        while i < n
            invariant
                i <= n,
                n == self.defs.len(),
                *self == *old(self),
                self.wf(),
                forall|j: int| 0 <= j < i ==> self.identities()[j] != data,
            decreases n - i,
        {
            if self.defs[i] == data {
                proof {
                    lemma_position(self.identities(), i as int);
                }
                return i;
            }
            i = i + 1;
        }
        proof {
            assert(!old(self).identities().contains(data));
        }
        self.defs.push(data);
        proof {
            assert(self.names() =~= old(self).names());
        }
        n
    }

    /// The definition identity behind a handle.
    pub fn def_data(&self, index: usize) -> (data: DefIdData)
        requires
            index < self.identities().len(),
        ensures
            data == self.identities()[index as int],
    {
        self.defs[index]
    }
}

} // verus!
