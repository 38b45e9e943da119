//! Comparison of values.
use vstd::prelude::*;
use vstd::std_specs::cmp::PartialEqSpecImpl;
use crate::term::finds;
use crate::value::{Binding, NixValue};

verus! {

impl Binding {
    /// Whether the two bindings have the same name and tag, and values that
    /// are the same.
    pub fn agrees(&self, other: &Binding) -> (res: bool)
        ensures
            res == self@.agrees(other@),
        decreases self,
    {
        self.name == other.name && self.recursive == other.recursive && self.value.equals(
            &other.value,
        )
    }
}

impl NixValue {
    /// Whether the two values are the same: the same kind of value with the
    /// same content, where the order of a list's items counts and the order
    /// of an attribute set's bindings does not.
    pub fn equals(&self, other: &NixValue) -> (res: bool)
        ensures
            res == self@.same(other@),
        decreases self,
    {
        match (self, other) {
            (NixValue::Int(a), NixValue::Int(b)) => *a == *b,
            (NixValue::Str(a), NixValue::Str(b)) => *a == *b,
            (NixValue::Bool(a), NixValue::Bool(b)) => *a == *b,
            (NixValue::VarRef(a), NixValue::VarRef(b)) => *a == *b,
            (NixValue::List(a), NixValue::List(b)) => {
                if a.len() != b.len() {
                    return false;
                }
                let mut i: usize = 0;
                while i < a.len()
                    invariant
                        *self == NixValue::List(*a),
                        *other == NixValue::List(*b),
                        a.len() == b.len(),
                        i <= a.len(),
                        forall|k: int| 0 <= k < i ==> (#[trigger] self@->List_0[k]).same(other@->List_0[k]),
                    decreases a.len() - i,
                {
                    proof {
                        assert(decreases_to!(*self => self->List_0));
                    }
                    if !a[i].equals(&b[i]) {
                        assert(!self@->List_0[i as int].same(other@->List_0[i as int]));
                        return false;
                    }
                    i += 1;
                }
                true
            },
            (NixValue::AttrSet(a), NixValue::AttrSet(b)) => {
                if a.len() != b.len() {
                    return false;
                }
                let ghost ours = self@->AttrSet_0;
                let ghost theirs = other@->AttrSet_0;
                let mut i: usize = 0;
                while i < a.len()
                    invariant
                        *self == NixValue::AttrSet(*a),
                        *other == NixValue::AttrSet(*b),
                        ours == self@->AttrSet_0,
                        theirs == other@->AttrSet_0,
                        a.len() == b.len(),
                        i <= a.len(),
                        forall|k: int| 0 <= k < i ==> (#[trigger] ours[k]).found_in(theirs),
                    decreases a.len() - i,
                {
                    let mut j: usize = 0;
                    let mut found = false;
                    while j < b.len() && !found
                        invariant
                            *self == NixValue::AttrSet(*a),
                            *other == NixValue::AttrSet(*b),
                            ours == self@->AttrSet_0,
                            theirs == other@->AttrSet_0,
                            i < a.len(),
                            j <= b.len(),
                            found ==> ours[i as int].found_in(theirs),
                            !found ==> forall|k: int|
                                0 <= k < j ==> !ours[i as int].agrees(#[trigger] theirs[k]),
                        decreases b.len() - j + if found { 0int } else { 1int },
                    {
                        proof {
                            assert(decreases_to!(*self => self->AttrSet_0));
                        }
                        assert(ours[i as int] == a[i as int]@);
                        assert(theirs[j as int] == b[j as int]@);
                        if a[i].agrees(&b[j]) {
                            found = true;
                        } else {
                            j += 1;
                        }
                    }
                    if !found {
                        assert(theirs.len() == b.len());
                        assert(!ours[i as int].found_in(theirs));
                        return false;
                    }
                    i += 1;
                }
                let mut j: usize = 0;
                while j < b.len()
                    invariant
                        *self == NixValue::AttrSet(*a),
                        *other == NixValue::AttrSet(*b),
                        ours == self@->AttrSet_0,
                        theirs == other@->AttrSet_0,
                        a.len() == b.len(),
                        j <= b.len(),
                        forall|k: int| 0 <= k < ours.len() ==> (#[trigger] ours[k]).found_in(theirs),
                        forall|k: int| 0 <= k < j ==> finds(ours, #[trigger] theirs[k]),
                    decreases b.len() - j,
                {
                    let mut i: usize = 0;
                    let mut found = false;
                    while i < a.len() && !found
                        invariant
                            *self == NixValue::AttrSet(*a),
                            *other == NixValue::AttrSet(*b),
                            ours == self@->AttrSet_0,
                            theirs == other@->AttrSet_0,
                            j < b.len(),
                            i <= a.len(),
                            found ==> finds(ours, theirs[j as int]),
                            !found ==> forall|k: int|
                                0 <= k < i ==> !(#[trigger] ours[k]).agrees(theirs[j as int]),
                        decreases a.len() - i + if found { 0int } else { 1int },
                    {
                        proof {
                            assert(decreases_to!(*self => self->AttrSet_0));
                        }
                        assert(ours[i as int] == a[i as int]@);
                        assert(theirs[j as int] == b[j as int]@);
                        if a[i].agrees(&b[j]) {
                            found = true;
                        } else {
                            i += 1;
                        }
                    }
                    if !found {
                        assert(ours.len() == a.len());
                        assert(!finds(ours, theirs[j as int]));
                        return false;
                    }
                    j += 1;
                }
                true
            },
            _ => false,
        }
    }
}

impl PartialEq for NixValue {
    fn eq(&self, other: &NixValue) -> (res: bool) {
        self.equals(other)
    }
}

impl PartialEqSpecImpl for NixValue {
    open spec fn obeys_eq_spec() -> bool {
        true
    }

    open spec fn eq_spec(&self, other: &NixValue) -> bool {
        self@.same(other@)
    }
}

} // verus!
