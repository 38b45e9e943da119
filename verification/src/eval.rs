//! The evaluator.
use vstd::prelude::*;
use crate::laws::{lemma_eval_keeps_form, lemma_eval_within_keeps_form};
use crate::scope::NixScope;
use crate::semantics::{
    close_within, converges, eval, eval_within, lemma_eval_reached, lemma_seed_within_prefix,
    seed_within,
};
use crate::term::{well_formed_scope, Term};
use crate::value::{Binding, NixValue};

verus! {

impl NixValue {
    /// Evaluates the value in `scope`.
    ///
    /// A literal is its own result. A list is evaluated item by item, in the
    /// same scope. A variable reference gives the value that the scope binds
    /// to its name; where the scope binds none, the reference itself is the
    /// result. An attribute set is evaluated in two passes over its bindings,
    /// in the order of their declaration: first each value in its seeding
    /// scope, then each recursive binding's result once more in the local
    /// scope that the first pass has filled.
    ///
    /// The second pass evaluates a result, not a part of the value, so there
    /// are inputs on which evaluation goes on for ever: a recursive binding
    /// `a` whose value is a recursive attribute set that refers to `a` is
    /// one. The caller shows that evaluation comes to an end on this input;
    /// `evaluate_within` is for inputs of which that is not known.
    pub fn evaluate(&self, scope: &NixScope) -> (res: NixValue)
        requires
            converges(self@, scope@),
        ensures
            res@ == eval(self@, scope@),
            self@.well_formed() && well_formed_scope(scope@) ==> res@.well_formed(),
    {
        let ghost depth = choose|depth: nat| (#[trigger] eval_within(self@, scope@, depth)) is Some;
        proof {
            lemma_eval_reached(self@, scope@, depth);
            if self@.well_formed() && well_formed_scope(scope@) {
                lemma_eval_keeps_form(self@, scope@);
            }
        }
        self.eval_bounded(scope, None, Ghost(depth)).unwrap()
    }

    /// Evaluates the value in `scope` as `evaluate` does, but gives up where
    /// more than `depth` evaluations would be nested in one another. The
    /// evaluation of the value itself counts: a literal needs a `depth` of 1,
    /// a list of literals one of 2.
    pub fn evaluate_within(&self, scope: &NixScope, depth: usize) -> (res: Option<NixValue>)
        ensures
            match res {
                Some(value) => eval_within(self@, scope@, depth as nat) == Some(value@),
                None => eval_within(self@, scope@, depth as nat) is None,
            },
            self@.well_formed() && well_formed_scope(scope@) ==> (res matches Some(value)
                ==> value@.well_formed()),
    {
        proof {
            if self@.well_formed() && well_formed_scope(scope@) && eval_within(
                self@,
                scope@,
                depth as nat,
            ) is Some {
                lemma_eval_within_keeps_form(self@, scope@, depth as nat);
            }
        }
        self.eval_bounded(scope, Some(depth), Ghost(depth as nat))
    }

    /// Evaluation with or without a limit on its depth. Without one, the
    /// caller knows that `depth` suffices.
    fn eval_bounded(
        &self,
        scope: &NixScope,
        limit: Option<usize>,
        Ghost(depth): Ghost<nat>,
    ) -> (res: Option<NixValue>)
        requires
            match limit {
                Some(bound) => bound == depth,
                None => eval_within(self@, scope@, depth) is Some,
            },
        ensures
            match res {
                Some(value) => eval_within(self@, scope@, depth) == Some(value@),
                None => eval_within(self@, scope@, depth) is None,
            },
        decreases depth,
    {
        let inner: Option<usize> = match limit {
            Some(bound) => {
                if bound == 0 {
                    return None;
                }
                Some(bound - 1)
            },
            None => None,
        };
        let ghost d = (depth - 1) as nat;
        match self {
            NixValue::Int(_) | NixValue::Str(_) | NixValue::Bool(_) => Some(self.clone()),
            NixValue::VarRef(name) => match scope.lookup(name) {
                Some(value) => Some(value.clone()),
                None => Some(NixValue::VarRef(name.clone())),
            },
            NixValue::List(items) => {
                let ghost terms = self@->List_0;
                let mut results: Vec<NixValue> = Vec::new();
                let mut i: usize = 0;
                while i < items.len()
                    invariant
                        depth > 0,
                        d == depth - 1,
                        self@ == Term::List(terms),
                        terms.len() == items.len(),
                        forall|j: int| 0 <= j < items.len() ==> terms[j] == (#[trigger] items[j])@,
                        match inner {
                            Some(bound) => bound == d,
                            None => eval_within(self@, scope@, depth) is Some,
                        },
                        i <= items.len(),
                        results.len() == i,
                        forall|j: int|
                            0 <= j < i ==> eval_within(terms[j], scope@, d) == Some(
                                (#[trigger] results[j])@,
                            ),
                    decreases items.len() - i,
                {
                    assert(terms[i as int] == items[i as int]@);
                    match items[i].eval_bounded(scope, inner, Ghost(d)) {
                        Some(value) => results.push(value),
                        None => {
                            return None;
                        },
                    }
                    i += 1;
                }
                let res = NixValue::List(results);
                proof {
                    assert forall|j: int| 0 <= j < terms.len() implies eval_within(
                        #[trigger] terms[j],
                        scope@,
                        d,
                    ) == Some(res@->List_0[j]) by {
                        assert(eval_within(terms[j], scope@, d) == Some(results[j]@));
                    }
                    assert(res@->List_0 =~= eval_within(self@, scope@, depth)->Some_0->List_0);
                }
                Some(res)
            },
            NixValue::AttrSet(bindings) => {
                let ghost entries = self@->AttrSet_0;
                let mut local = scope.clone();
                let mut firsts: Vec<Binding> = Vec::new();
                let mut i: usize = 0;
                while i < bindings.len()
                    invariant
                        depth > 0,
                        d == depth - 1,
                        self@ == Term::AttrSet(entries),
                        entries.len() == bindings.len(),
                        forall|j: int|
                            0 <= j < bindings.len() ==> entries[j] == (#[trigger] bindings[j])@,
                        match inner {
                            Some(bound) => bound == d,
                            None => seed_within(entries, scope@, d, entries.len()) is Some,
                        },
                        i <= bindings.len(),
                        firsts.len() == i,
                        seed_within(entries, scope@, d, i as nat) is Some,
                        seed_within(entries, scope@, d, i as nat)->Some_0.local == local@,
                        seed_within(entries, scope@, d, i as nat)->Some_0.entries.len() == i,
                        forall|j: int|
                            0 <= j < i ==> seed_within(
                                entries,
                                scope@,
                                d,
                                i as nat,
                            )->Some_0.entries[j] == (#[trigger] firsts[j])@,
                    decreases bindings.len() - i,
                {
                    let binding = &bindings[i];
                    assert(entries[i as int] == bindings[i as int]@);
                    proof {
                        if seed_within(entries, scope@, d, entries.len()) is Some {
                            lemma_seed_within_prefix(
                                entries,
                                scope@,
                                d,
                                entries.len(),
                                (i + 1) as nat,
                            );
                        }
                    }
                    let first = if binding.recursive {
                        binding.value.eval_bounded(&local, inner, Ghost(d))
                    } else {
                        binding.value.eval_bounded(scope, inner, Ghost(d))
                    };
                    match first {
                        Some(value) => {
                            if binding.recursive {
                                local.insert(binding.name.as_str(), value.clone());
                            }
                            firsts.push(
                                Binding {
                                    name: binding.name.clone(),
                                    value,
                                    recursive: binding.recursive,
                                },
                            );
                        },
                        None => {
                            return None;
                        },
                    }
                    i += 1;
                }
                let ghost seeded = seed_within(entries, scope@, d, entries.len())->Some_0;
                let mut k: usize = 0;
                while k < firsts.len()
                    invariant
                        depth > 0,
                        d == depth - 1,
                        self@ == Term::AttrSet(entries),
                        seed_within(entries, scope@, d, entries.len()) == Some(seeded),
                        match inner {
                            Some(bound) => bound == d,
                            None => forall|j: int|
                                0 <= j < seeded.entries.len() ==> close_within(
                                    #[trigger] seeded.entries[j],
                                    seeded.local,
                                    d,
                                ) is Some,
                        },
                        local@ == seeded.local,
                        firsts.len() == seeded.entries.len(),
                        k <= firsts.len(),
                        forall|j: int|
                            0 <= j < k ==> close_within(seeded.entries[j], seeded.local, d) == Some(
                                (#[trigger] firsts[j])@,
                            ),
                        forall|j: int|
                            k <= j < firsts.len() ==> (#[trigger] firsts[j])@ == seeded.entries[j],
                    decreases firsts.len() - k,
                {
                    assert(firsts[k as int]@ == seeded.entries[k as int]);
                    if firsts[k].recursive {
                        match firsts[k].value.eval_bounded(&local, inner, Ghost(d)) {
                            Some(value) => {
                                let name = firsts[k].name.clone();
                                firsts.set(k, Binding { name, value, recursive: true });
                            },
                            None => {
                                return None;
                            },
                        }
                    }
                    k += 1;
                }
                let res = NixValue::AttrSet(firsts);
                proof {
                    assert forall|j: int| 0 <= j < seeded.entries.len() implies close_within(
                        #[trigger] seeded.entries[j],
                        seeded.local,
                        d,
                    ) == Some(res@->AttrSet_0[j]) by {
                        assert(close_within(seeded.entries[j], seeded.local, d) == Some(
                            firsts[j]@,
                        ));
                    }
                    assert(res@->AttrSet_0 =~= eval_within(
                        self@,
                        scope@,
                        depth,
                    )->Some_0->AttrSet_0);
                }
                Some(res)
            },
        }
    }
}

} // verus!
