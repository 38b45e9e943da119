//! The mathematical model of values and scopes.
use vstd::prelude::*;

verus! {

/// The model of a value: a finite tree.
pub enum Term {
    Int(i64),
    Str(Seq<char>),
    Bool(bool),
    List(Seq<Term>),
    AttrSet(Seq<Entry>),
    VarRef(Seq<char>),
}

/// The model of one binding of an attribute set.
pub struct Entry {
    pub name: Seq<char>,
    pub value: Term,
    pub recursive: bool,
}

/// The model of a scope: the names it binds, each with its value.
pub type Env = Map<Seq<char>, Term>;

impl Term {
    /// No variable reference occurs anywhere in the term.
    pub open spec fn closed(self) -> bool
        decreases self,
    {
        match self {
            Term::Int(_) | Term::Str(_) | Term::Bool(_) => true,
            Term::VarRef(_) => false,
            Term::List(items) => forall|i: int|
                0 <= i < items.len() ==> (#[trigger] items[i]).closed(),
            Term::AttrSet(entries) => forall|i: int|
                0 <= i < entries.len() ==> (#[trigger] entries[i]).value.closed(),
        }
    }

    /// Every attribute set in the term names each of its bindings once.
    pub open spec fn well_formed(self) -> bool
        decreases self,
    {
        match self {
            Term::List(items) => forall|i: int|
                0 <= i < items.len() ==> (#[trigger] items[i]).well_formed(),
            Term::AttrSet(entries) => {
                &&& distinct_names(entries)
                &&& forall|i: int|
                    0 <= i < entries.len() ==> (#[trigger] entries[i]).value.well_formed()
            },
            _ => true,
        }
    }

    /// The two terms are the same value: the same kind of term with the same
    /// content. The items of a list are compared in their order. The
    /// bindings of an attribute set are compared without regard to their
    /// order: each binding of one set agrees with one of the other.
    pub open spec fn same(self, other: Term) -> bool
        decreases self, 1nat,
    {
        match (self, other) {
            (Term::Int(a), Term::Int(b)) => a == b,
            (Term::Str(a), Term::Str(b)) => a == b,
            (Term::Bool(a), Term::Bool(b)) => a == b,
            (Term::VarRef(a), Term::VarRef(b)) => a == b,
            (Term::List(a), Term::List(b)) => {
                &&& a.len() == b.len()
                &&& forall|i: int| 0 <= i < a.len() ==> (#[trigger] a[i]).same(b[i])
            },
            (Term::AttrSet(a), Term::AttrSet(b)) => {
                &&& a.len() == b.len()
                &&& forall|i: int| 0 <= i < a.len() ==> (#[trigger] a[i]).found_in(b)
                &&& forall|j: int| 0 <= j < b.len() ==> finds(a, #[trigger] b[j])
            },
            _ => false,
        }
    }

    /// The number of levels of the term: one for a literal or a reference,
    /// one more than its highest part for a list or an attribute set.
    pub open spec fn height(self) -> nat
        decreases self, 0nat,
    {
        match self {
            Term::List(items) => 1 + highest(items, items.len()),
            Term::AttrSet(entries) => 1 + highest_value(entries, entries.len()),
            _ => 1,
        }
    }
}

impl Entry {
    /// The two bindings have the same name and tag, and values that are the
    /// same.
    pub open spec fn agrees(self, other: Entry) -> bool
        decreases self, 0nat,
    {
        &&& self.name == other.name
        &&& self.recursive == other.recursive
        &&& self.value.same(other.value)
    }

    /// One of `others` agrees with this binding.
    pub open spec fn found_in(self, others: Seq<Entry>) -> bool
        decreases self, 1nat,
    {
        exists|j: int| 0 <= j < others.len() && self.agrees(#[trigger] others[j])
    }
}

/// One of `entries` agrees with `other`.
pub open spec fn finds(entries: Seq<Entry>, other: Entry) -> bool
    decreases entries,
{
    exists|i: int| 0 <= i < entries.len() && (#[trigger] entries[i]).agrees(other)
}

/// No two of the entries have the same name.
pub open spec fn distinct_names(entries: Seq<Entry>) -> bool {
    forall|i: int, j: int|
        0 <= i < j < entries.len() ==> (#[trigger] entries[i]).name != (#[trigger] entries[j]).name
}

/// Every value that the scope binds is well formed.
pub open spec fn well_formed_scope(env: Env) -> bool {
    forall|name: Seq<char>| env.contains_key(name) ==> (#[trigger] env[name]).well_formed()
}

/// The height of the highest of the first `n` items.
pub open spec fn highest(items: Seq<Term>, n: nat) -> nat
    decreases items, n,
{
    if n == 0 || n > items.len() {
        0
    } else {
        let before = highest(items, (n - 1) as nat);
        let last = items[n - 1].height();
        if before <= last {
            last
        } else {
            before
        }
    }
}

/// The height of the highest value among the first `n` entries.
pub open spec fn highest_value(entries: Seq<Entry>, n: nat) -> nat
    decreases entries, n,
{
    if n == 0 || n > entries.len() {
        0
    } else {
        let before = highest_value(entries, (n - 1) as nat);
        let last = entries[n - 1].value.height();
        if before <= last {
            last
        } else {
            before
        }
    }
}

} // verus!
