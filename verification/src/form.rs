//! The invariant of values: an attribute set names each binding once.
use vstd::prelude::*;
use crate::term::distinct_names;
use crate::value::NixValue;

verus! {

impl NixValue {
    /// Whether every attribute set in the value names each of its bindings
    /// once.
    pub fn is_well_formed(&self) -> (res: bool)
        ensures
            res == self@.well_formed(),
        decreases self,
    {
        match self {
            NixValue::List(items) => {
                let ghost terms = self@->List_0;
                let mut i: usize = 0;
                while i < items.len()
                    invariant
                        *self == NixValue::List(*items),
                        terms == self@->List_0,
                        i <= items.len(),
                        forall|k: int| 0 <= k < i ==> (#[trigger] terms[k]).well_formed(),
                    decreases items.len() - i,
                {
                    proof {
                        assert(decreases_to!(*self => self->List_0));
                    }
                    assert(terms[i as int] == items[i as int]@);
                    if !items[i].is_well_formed() {
                        return false;
                    }
                    i += 1;
                }
                true
            },
            NixValue::AttrSet(bindings) => {
                let ghost entries = self@->AttrSet_0;
                let mut i: usize = 0;
                while i < bindings.len()
                    invariant
                        *self == NixValue::AttrSet(*bindings),
                        entries == self@->AttrSet_0,
                        i <= bindings.len(),
                        forall|k: int| 0 <= k < i ==> (#[trigger] entries[k]).value.well_formed(),
                        forall|k: int, l: int|
                            0 <= k < l < i ==> (#[trigger] entries[k]).name != (
                            #[trigger] entries[l]).name,
                    decreases bindings.len() - i,
                {
                    proof {
                        assert(decreases_to!(*self => self->AttrSet_0));
                    }
                    assert(entries[i as int] == bindings[i as int]@);
                    if !bindings[i].value.is_well_formed() {
                        return false;
                    }
                    let mut k: usize = 0;
                    while k < i
                        invariant
                            *self == NixValue::AttrSet(*bindings),
                            entries == self@->AttrSet_0,
                            i < bindings.len(),
                            k <= i,
                            forall|l: int|
                                0 <= l < k ==> (#[trigger] entries[l]).name != entries[i as int].name,
                        decreases i - k,
                    {
                        assert(entries[k as int] == bindings[k as int]@);
                        assert(entries[i as int] == bindings[i as int]@);
                        if bindings[k].name == bindings[i].name {
                            assert(!distinct_names(entries));
                            return false;
                        }
                        k += 1;
                    }
                    i += 1;
                }
                assert(distinct_names(entries));
                true
            },
            _ => true,
        }
    }
}

} // verus!
