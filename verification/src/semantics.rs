//! What evaluation means, stated over the model.
//!
//! Evaluation of an attribute set looks at its own results a second time, so
//! it is not a recursion over the tree alone, and on some inputs it goes on
//! for ever. The meaning is therefore given with a bound on the depth of
//! nested evaluations: `eval_within` is `None` where the bound does not
//! suffice. `converges` says that some bound does, and `eval` is then the
//! result.
use vstd::prelude::*;
use crate::term::{Entry, Env, Term};

verus! {

/// The first pass over an attribute set, as far as it has come: the
/// results so far, and the local scope that the recursive ones have filled.
pub struct Seeded {
    pub entries: Seq<Entry>,
    pub local: Env,
}

/// The scope that a binding's value is evaluated in during the first pass:
/// the local scope for a recursive binding, the ambient one otherwise.
pub open spec fn seeding_scope(entry: Entry, ambient: Env, local: Env) -> Env {
    if entry.recursive {
        local
    } else {
        ambient
    }
}

/// The result of evaluating `t` in `env`, if no more than `depth` nested
/// evaluations are needed to reach it.
pub open spec fn eval_within(t: Term, env: Env, depth: nat) -> Option<Term>
    decreases depth, 0nat,
{
    if depth == 0 {
        None
    } else {
        let inner = (depth - 1) as nat;
        match t {
            Term::Int(_) | Term::Str(_) | Term::Bool(_) => Some(t),
            Term::VarRef(name) => Some(
                if env.contains_key(name) {
                    env[name]
                } else {
                    t
                },
            ),
            Term::List(items) => if forall|i: int|
                0 <= i < items.len() ==> eval_within(#[trigger] items[i], env, inner) is Some {
                Some(
                    Term::List(
                        Seq::new(items.len(), |i: int| eval_within(items[i], env, inner).unwrap()),
                    ),
                )
            } else {
                None
            },
            Term::AttrSet(entries) => match seed_within(entries, env, inner, entries.len()) {
                Some(seeded) => if forall|i: int|
                    0 <= i < seeded.entries.len() ==> close_within(
                        #[trigger] seeded.entries[i],
                        seeded.local,
                        inner,
                    ) is Some {
                    Some(
                        Term::AttrSet(
                            Seq::new(
                                seeded.entries.len(),
                                |i: int|
                                    close_within(seeded.entries[i], seeded.local, inner).unwrap(),
                            ),
                        ),
                    )
                } else {
                    None
                },
                None => None,
            },
        }
    }
}

/// The first pass over the first `n` bindings of an attribute set, in the
/// order of their declaration. Each value is evaluated in its seeding scope;
/// a recursive binding's result is bound in the local scope at once, for the
/// bindings after it.
pub open spec fn seed_within(entries: Seq<Entry>, ambient: Env, depth: nat, n: nat) -> Option<
    Seeded,
>
    decreases depth, 2nat, n,
{
    if n == 0 || n > entries.len() {
        Some(Seeded { entries: Seq::empty(), local: ambient })
    } else {
        match seed_within(entries, ambient, depth, (n - 1) as nat) {
            Some(before) => {
                let entry = entries[n - 1];
                match eval_within(entry.value, seeding_scope(entry, ambient, before.local), depth) {
                    Some(value) => Some(
                        Seeded {
                            entries: before.entries.push(
                                Entry { name: entry.name, value, recursive: entry.recursive },
                            ),
                            local: if entry.recursive {
                                before.local.insert(entry.name, value)
                            } else {
                                before.local
                            },
                        },
                    ),
                    None => None,
                }
            },
            None => None,
        }
    }
}

/// The second pass on one binding: a recursive binding's first result is
/// evaluated once more, in the local scope as the first pass left it; any
/// other binding stays as it is.
pub open spec fn close_within(entry: Entry, local: Env, depth: nat) -> Option<Entry>
    decreases depth, 1nat,
{
    if entry.recursive {
        match eval_within(entry.value, local, depth) {
            Some(value) => Some(Entry { name: entry.name, value, recursive: true }),
            None => None,
        }
    } else {
        Some(entry)
    }
}

/// Evaluation of `t` in `env` comes to an end.
pub open spec fn converges(t: Term, env: Env) -> bool {
    exists|depth: nat| (#[trigger] eval_within(t, env, depth)) is Some
}

/// The result of evaluating `t` in `env`, where evaluation comes to an end.
pub open spec fn eval(t: Term, env: Env) -> Term
    recommends
        converges(t, env),
{
    eval_within(t, env, choose|depth: nat| (#[trigger] eval_within(t, env, depth)) is Some).unwrap()
}

/// The local scope of an attribute set when the first pass has dealt with
/// `n` of its bindings: the ambient scope, and each recursive binding among
/// them bound to its first result.
pub open spec fn local_before(entries: Seq<Entry>, ambient: Env, n: nat) -> Env
    decreases n,
{
    if n == 0 || n > entries.len() {
        ambient
    } else {
        let before = local_before(entries, ambient, (n - 1) as nat);
        let entry = entries[n - 1];
        if entry.recursive {
            before.insert(entry.name, eval(entry.value, before))
        } else {
            before
        }
    }
}

/// The local scope of an attribute set as the first pass leaves it.
pub open spec fn local_scope(entries: Seq<Entry>, ambient: Env) -> Env {
    local_before(entries, ambient, entries.len())
}

/// The first result of the binding at `i`: its value, evaluated in its
/// seeding scope.
pub open spec fn first_result(entries: Seq<Entry>, ambient: Env, i: int) -> Term {
    eval(
        entries[i].value,
        seeding_scope(entries[i], ambient, local_before(entries, ambient, i as nat)),
    )
}

/// The final result of the binding at `i`: for a recursive binding its first
/// result, evaluated in the local scope; for any other its first result.
pub open spec fn final_result(entries: Seq<Entry>, ambient: Env, i: int) -> Term {
    if entries[i].recursive {
        eval(first_result(entries, ambient, i), local_scope(entries, ambient))
    } else {
        first_result(entries, ambient, i)
    }
}

/// A larger bound changes nothing where a smaller one suffices.
pub proof fn lemma_eval_within_monotone(t: Term, env: Env, depth: nat, more: nat)
    requires
        eval_within(t, env, depth) is Some,
        depth <= more,
    ensures
        eval_within(t, env, more) == eval_within(t, env, depth),
    decreases depth, 0nat,
{
    let inner = (depth - 1) as nat;
    let inner_more = (more - 1) as nat;
    match t {
        Term::List(items) => {
            assert forall|i: int| 0 <= i < items.len() implies eval_within(
                #[trigger] items[i],
                env,
                inner_more,
            ) == eval_within(items[i], env, inner) by {
                lemma_eval_within_monotone(items[i], env, inner, inner_more);
            }
            assert(eval_within(t, env, more)->Some_0->List_0 =~= eval_within(
                t,
                env,
                depth,
            )->Some_0->List_0);
        },
        Term::AttrSet(entries) => {
            lemma_seed_within_monotone(entries, env, inner, inner_more, entries.len());
            let seeded = seed_within(entries, env, inner, entries.len())->Some_0;
            assert forall|i: int| 0 <= i < seeded.entries.len() implies close_within(
                #[trigger] seeded.entries[i],
                seeded.local,
                inner_more,
            ) == close_within(seeded.entries[i], seeded.local, inner) by {
                lemma_close_within_monotone(seeded.entries[i], seeded.local, inner, inner_more);
            }
            assert(eval_within(t, env, more)->Some_0->AttrSet_0 =~= eval_within(
                t,
                env,
                depth,
            )->Some_0->AttrSet_0);
        },
        _ => {},
    }
}

/// The first pass is the same under a larger bound where a smaller one
/// suffices.
pub proof fn lemma_seed_within_monotone(
    entries: Seq<Entry>,
    ambient: Env,
    depth: nat,
    more: nat,
    n: nat,
)
    requires
        seed_within(entries, ambient, depth, n) is Some,
        depth <= more,
    ensures
        seed_within(entries, ambient, more, n) == seed_within(entries, ambient, depth, n),
    decreases depth, 2nat, n,
{
    if 0 < n <= entries.len() {
        let before = (n - 1) as nat;
        lemma_seed_within_monotone(entries, ambient, depth, more, before);
        let entry = entries[n - 1];
        let local = seed_within(entries, ambient, depth, before)->Some_0.local;
        lemma_eval_within_monotone(
            entry.value,
            seeding_scope(entry, ambient, local),
            depth,
            more,
        );
    }
}

/// The second pass on a binding is the same under a larger bound where a
/// smaller one suffices.
pub proof fn lemma_close_within_monotone(entry: Entry, local: Env, depth: nat, more: nat)
    requires
        close_within(entry, local, depth) is Some,
        depth <= more,
    ensures
        close_within(entry, local, more) == close_within(entry, local, depth),
    decreases depth, 1nat,
{
    if entry.recursive {
        lemma_eval_within_monotone(entry.value, local, depth, more);
    }
}

/// Where some bound suffices, evaluation converges, and its result is the
/// one reached under that bound.
pub proof fn lemma_eval_reached(t: Term, env: Env, depth: nat)
    requires
        eval_within(t, env, depth) is Some,
    ensures
        converges(t, env),
        eval_within(t, env, depth) == Some(eval(t, env)),
{
    let chosen = choose|d: nat| (#[trigger] eval_within(t, env, d)) is Some;
    if chosen <= depth {
        lemma_eval_within_monotone(t, env, chosen, depth);
    } else {
        lemma_eval_within_monotone(t, env, depth, chosen);
    }
}

/// The first pass has one result for each binding that it has seen, and
/// where it fails on a part of the bindings it fails on the whole.
pub proof fn lemma_seed_within_prefix(
    entries: Seq<Entry>,
    ambient: Env,
    depth: nat,
    n: nat,
    m: nat,
)
    requires
        m <= n <= entries.len(),
        seed_within(entries, ambient, depth, n) is Some,
    ensures
        seed_within(entries, ambient, depth, m) is Some,
        seed_within(entries, ambient, depth, n)->Some_0.entries.len() == n,
    decreases n,
{
    if n > 0 {
        let before = (n - 1) as nat;
        lemma_seed_within_prefix(
            entries,
            ambient,
            depth,
            before,
            if m < n {
                m
            } else {
                before
            },
        );
    }
}

} // verus!
