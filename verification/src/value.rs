//! The values of the language as data.
use vstd::prelude::*;
use crate::term::{Entry, Term};

verus! {

/// A value of the language.
#[derive(Debug)]
pub enum NixValue {
    Int(i64),
    Str(String),
    Bool(bool),
    List(Vec<NixValue>),
    /// The bindings, in the order in which they were declared.
    AttrSet(Vec<Binding>),
    VarRef(String),
}

/// One binding of an attribute set.
#[derive(Debug)]
pub struct Binding {
    pub name: String,
    pub value: NixValue,
    /// Whether the binding sees its siblings.
    pub recursive: bool,
}

impl NixValue {
    /// The tree that this value stands for.
    pub open spec fn model(self) -> Term
        decreases self,
    {
        match self {
            NixValue::Int(n) => Term::Int(n),
            NixValue::Str(s) => Term::Str(s@),
            NixValue::Bool(b) => Term::Bool(b),
            NixValue::List(items) => Term::List(
                Seq::new(
                    items.len() as nat,
                    |i: int|
                        if 0 <= i < items.len() {
                            items[i].model()
                        } else {
                            Term::Bool(false)
                        },
                ),
            ),
            NixValue::AttrSet(bindings) => Term::AttrSet(
                Seq::new(
                    bindings.len() as nat,
                    |i: int|
                        if 0 <= i < bindings.len() {
                            bindings[i].model()
                        } else {
                            Entry { name: Seq::empty(), value: Term::Bool(false), recursive: false }
                        },
                ),
            ),
            NixValue::VarRef(name) => Term::VarRef(name@),
        }
    }
}

impl Binding {
    /// The binding with its value as a tree.
    pub open spec fn model(self) -> Entry
        decreases self,
    {
        Entry { name: self.name@, value: self.value.model(), recursive: self.recursive }
    }
}

impl View for NixValue {
    type V = Term;

    open spec fn view(&self) -> Term {
        self.model()
    }
}

impl View for Binding {
    type V = Entry;

    open spec fn view(&self) -> Entry {
        self.model()
    }
}

impl Clone for NixValue {
    /// A deep copy: the same tree.
    fn clone(&self) -> (res: Self)
        ensures
            res@ == self@,
        decreases self,
    {
        match self {
            NixValue::Int(n) => NixValue::Int(*n),
            NixValue::Str(s) => NixValue::Str(s.clone()),
            NixValue::Bool(b) => NixValue::Bool(*b),
            NixValue::List(items) => {
                let mut copies: Vec<NixValue> = Vec::new();
                let mut i: usize = 0;
                while i < items.len()
                    invariant
                        *self == NixValue::List(*items),
                        i <= items.len(),
                        copies.len() == i,
                        forall|j: int| 0 <= j < i ==> (#[trigger] copies[j])@ == items[j]@,
                    decreases items.len() - i,
                {
                    proof {
                        assert(decreases_to!(*self => self->List_0));
                    }
                    copies.push(items[i].clone());
                    i += 1;
                }
                let res = NixValue::List(copies);
                assert(res@->List_0 =~= self@->List_0);
                res
            },
            NixValue::AttrSet(bindings) => {
                let mut copies: Vec<Binding> = Vec::new();
                let mut i: usize = 0;
                while i < bindings.len()
                    invariant
                        *self == NixValue::AttrSet(*bindings),
                        i <= bindings.len(),
                        copies.len() == i,
                        forall|j: int| 0 <= j < i ==> (#[trigger] copies[j])@ == bindings[j]@,
                    decreases bindings.len() - i,
                {
                    proof {
                        assert(decreases_to!(*self => self->AttrSet_0));
                    }
                    let binding = &bindings[i];
                    copies.push(
                        Binding {
                            name: binding.name.clone(),
                            value: binding.value.clone(),
                            recursive: binding.recursive,
                        },
                    );
                    i += 1;
                }
                let res = NixValue::AttrSet(copies);
                assert(res@->AttrSet_0 =~= self@->AttrSet_0);
                res
            },
            NixValue::VarRef(name) => NixValue::VarRef(name.clone()),
        }
    }
}

impl Clone for Binding {
    /// A deep copy: the same name, value and tag.
    fn clone(&self) -> (res: Self)
        ensures
            res@ == self@,
    {
        Binding {
            name: self.name.clone(),
            value: self.value.clone(),
            recursive: self.recursive,
        }
    }
}

} // verus!
