//! What holds of evaluation on every input.
use vstd::prelude::*;
use crate::semantics::{
    close_within, converges, eval, eval_within, final_result, first_result, lemma_eval_reached,
    lemma_eval_within_monotone, lemma_seed_within_monotone, local_before, local_scope,
    seed_within, seeding_scope,
};
use crate::term::{
    distinct_names, finds, highest, highest_value, well_formed_scope, Entry, Env, Term,
};

verus! {

/// A literal evaluates to itself, in every scope.
pub proof fn lemma_literal_is_its_own_result(t: Term, env: Env)
    requires
        t is Int || t is Str || t is Bool,
    ensures
        converges(t, env),
        eval(t, env) == t,
{
    lemma_eval_reached(t, env, 1);
}

/// A variable reference evaluates to the value that the scope binds to its
/// name, and to itself where the scope binds none.
pub proof fn lemma_reference_is_looked_up(name: Seq<char>, env: Env)
    ensures
        converges(Term::VarRef(name), env),
        env.contains_key(name) ==> eval(Term::VarRef(name), env) == env[name],
        !env.contains_key(name) ==> eval(Term::VarRef(name), env) == Term::VarRef(name),
{
    lemma_eval_reached(Term::VarRef(name), env, 1);
}

/// A bound under which each of the first `n` items evaluates.
proof fn lemma_common_depth(items: Seq<Term>, env: Env, n: nat) -> (depth: nat)
    requires
        n <= items.len(),
        forall|i: int| 0 <= i < n ==> converges(#[trigger] items[i], env),
    ensures
        forall|i: int| 0 <= i < n ==> eval_within(#[trigger] items[i], env, depth) is Some,
    decreases n,
{
    if n == 0 {
        0
    } else {
        let before = lemma_common_depth(items, env, (n - 1) as nat);
        let last = items[n - 1];
        assert(converges(last, env));
        let own = choose|d: nat| (#[trigger] eval_within(last, env, d)) is Some;
        let depth = if before <= own {
            own
        } else {
            before
        };
        assert forall|i: int| 0 <= i < n implies eval_within(
            #[trigger] items[i],
            env,
            depth,
        ) is Some by {
            if i < n - 1 {
                lemma_eval_within_monotone(items[i], env, before, depth);
            } else {
                lemma_eval_within_monotone(items[i], env, own, depth);
            }
        }
        depth
    }
}

/// Evaluation of a list converges exactly where that of each item does.
pub proof fn lemma_list_converges_itemwise(items: Seq<Term>, env: Env)
    ensures
        converges(Term::List(items), env) <==> forall|i: int|
            0 <= i < items.len() ==> converges(#[trigger] items[i], env),
{
    let list = Term::List(items);
    if converges(list, env) {
        let depth = choose|d: nat| (#[trigger] eval_within(list, env, d)) is Some;
        assert forall|i: int| 0 <= i < items.len() implies converges(#[trigger] items[i], env) by {
            assert(eval_within(items[i], env, (depth - 1) as nat) is Some);
        }
    }
    if forall|i: int| 0 <= i < items.len() ==> converges(#[trigger] items[i], env) {
        let inner = lemma_common_depth(items, env, items.len());
        assert(eval_within(list, env, inner + 1) is Some);
    }
}

/// A list evaluates to a list of the same length, whose items are the
/// results of the items in the same scope, in the same order.
pub proof fn lemma_list_evaluates_itemwise(items: Seq<Term>, env: Env)
    requires
        converges(Term::List(items), env),
    ensures
        eval(Term::List(items), env) == Term::List(
            Seq::new(items.len(), |i: int| eval(items[i], env)),
        ),
{
    let list = Term::List(items);
    let depth = choose|d: nat| (#[trigger] eval_within(list, env, d)) is Some;
    let inner = (depth - 1) as nat;
    lemma_eval_reached(list, env, depth);
    assert forall|i: int| 0 <= i < items.len() implies eval_within(
        #[trigger] items[i],
        env,
        inner,
    ) == Some(eval(items[i], env)) by {
        lemma_eval_reached(items[i], env, inner);
    }
    assert(eval(list, env)->List_0 =~= Seq::new(items.len(), |i: int| eval(items[i], env)));
}

proof fn lemma_highest_bounds(items: Seq<Term>, n: nat, i: int)
    requires
        0 <= i < n <= items.len(),
    ensures
        items[i].height() <= highest(items, n),
    decreases n,
{
    if i < n - 1 {
        lemma_highest_bounds(items, (n - 1) as nat, i);
    }
}

proof fn lemma_highest_value_bounds(entries: Seq<Entry>, n: nat, i: int)
    requires
        0 <= i < n <= entries.len(),
    ensures
        entries[i].value.height() <= highest_value(entries, n),
    decreases n,
{
    if i < n - 1 {
        lemma_highest_value_bounds(entries, (n - 1) as nat, i);
    }
}

/// A term without variable references evaluates to itself, in every scope,
/// and its height suffices as the bound.
pub proof fn lemma_closed_within_height(t: Term, env: Env)
    requires
        t.closed(),
    ensures
        eval_within(t, env, t.height()) == Some(t),
    decreases t, 0nat,
{
    let inner = (t.height() - 1) as nat;
    match t {
        Term::List(items) => {
            assert forall|i: int| 0 <= i < items.len() implies eval_within(
                #[trigger] items[i],
                env,
                inner,
            ) == Some(items[i]) by {
                lemma_closed_within_height(items[i], env);
                lemma_highest_bounds(items, items.len(), i);
                lemma_eval_within_monotone(items[i], env, items[i].height(), inner);
            }
            assert(eval_within(t, env, t.height())->Some_0->List_0 =~= items);
        },
        Term::AttrSet(entries) => {
            lemma_closed_seed(entries, env, inner, entries.len());
            let seeded = seed_within(entries, env, inner, entries.len())->Some_0;
            assert(seeded.entries =~= entries);
            assert forall|i: int| 0 <= i < entries.len() implies close_within(
                #[trigger] seeded.entries[i],
                seeded.local,
                inner,
            ) == Some(entries[i]) by {
                let value = entries[i].value;
                lemma_closed_within_height(value, seeded.local);
                lemma_highest_value_bounds(entries, entries.len(), i);
                lemma_eval_within_monotone(value, seeded.local, value.height(), inner);
            }
            assert(eval_within(t, env, t.height())->Some_0->AttrSet_0 =~= entries);
        },
        _ => {},
    }
}

/// The first pass leaves bindings without variable references as they are.
proof fn lemma_closed_seed(entries: Seq<Entry>, ambient: Env, depth: nat, n: nat)
    requires
        n <= entries.len(),
        forall|i: int| 0 <= i < entries.len() ==> (#[trigger] entries[i]).value.closed(),
        highest_value(entries, entries.len()) <= depth,
    ensures
        seed_within(entries, ambient, depth, n) is Some,
        seed_within(entries, ambient, depth, n)->Some_0.entries =~= entries.take(n as int),
    decreases entries, n,
{
    if n > 0 {
        lemma_closed_seed(entries, ambient, depth, (n - 1) as nat);
        let before = seed_within(entries, ambient, depth, (n - 1) as nat)->Some_0;
        let entry = entries[n - 1];
        let scope = seeding_scope(entry, ambient, before.local);
        lemma_closed_within_height(entry.value, scope);
        lemma_highest_value_bounds(entries, entries.len(), n - 1);
        lemma_eval_within_monotone(entry.value, scope, entry.value.height(), depth);
    }
}

/// Evaluation leaves a term without variable references as it is, so to
/// evaluate its result once more changes nothing.
pub proof fn lemma_closed_is_fixed(t: Term, env: Env)
    requires
        t.closed(),
    ensures
        converges(t, env),
        eval(t, env) == t,
        converges(eval(t, env), env),
        eval(eval(t, env), env) == eval(t, env),
{
    lemma_closed_within_height(t, env);
    lemma_eval_reached(t, env, t.height());
}

/// Where the first pass comes through under some bound, it has seen each
/// binding's value converge in its seeding scope, holds the first result of
/// each, and has filled the local scope with those of the recursive ones.
pub proof fn lemma_seed_is_first_pass(entries: Seq<Entry>, ambient: Env, depth: nat, n: nat)
    requires
        n <= entries.len(),
        seed_within(entries, ambient, depth, n) is Some,
    ensures
        seed_within(entries, ambient, depth, n)->Some_0.local == local_before(entries, ambient, n),
        seed_within(entries, ambient, depth, n)->Some_0.entries.len() == n,
        forall|i: int|
            0 <= i < n ==> {
                &&& eval_within(
                    (#[trigger] entries[i]).value,
                    seeding_scope(entries[i], ambient, local_before(entries, ambient, i as nat)),
                    depth,
                ) is Some
                &&& seed_within(entries, ambient, depth, n)->Some_0.entries[i] == Entry {
                    name: entries[i].name,
                    value: first_result(entries, ambient, i),
                    recursive: entries[i].recursive,
                }
            },
    decreases n,
{
    if n > 0 {
        let before = (n - 1) as nat;
        lemma_seed_is_first_pass(entries, ambient, depth, before);
        let entry = entries[n - 1];
        let scope = seeding_scope(entry, ambient, local_before(entries, ambient, before));
        lemma_eval_reached(entry.value, scope, depth);
    }
}

/// An attribute set evaluates to one with the same names and tags in the
/// same order. The value of a binding that is not recursive is the result of
/// its value in the ambient scope alone: it sees none of its siblings. The
/// value of a recursive binding is its first result, evaluated once more in
/// the local scope.
pub proof fn lemma_attr_set_evaluates_in_two_passes(entries: Seq<Entry>, env: Env)
    requires
        converges(Term::AttrSet(entries), env),
    ensures
        eval(Term::AttrSet(entries), env) == Term::AttrSet(
            Seq::new(
                entries.len(),
                |i: int|
                    Entry {
                        name: entries[i].name,
                        value: final_result(entries, env, i),
                        recursive: entries[i].recursive,
                    },
            ),
        ),
        forall|i: int|
            0 <= i < entries.len() && !(#[trigger] entries[i]).recursive ==> converges(
                entries[i].value,
                env,
            ) && final_result(entries, env, i) == eval(entries[i].value, env),
        forall|i: int|
            0 <= i < entries.len() && (#[trigger] entries[i]).recursive ==> converges(
                entries[i].value,
                local_before(entries, env, i as nat),
            ) && converges(first_result(entries, env, i), local_scope(entries, env)),
{
    let set = Term::AttrSet(entries);
    let depth = choose|d: nat| (#[trigger] eval_within(set, env, d)) is Some;
    let inner = (depth - 1) as nat;
    lemma_eval_reached(set, env, depth);
    lemma_seed_is_first_pass(entries, env, inner, entries.len());
    let seeded = seed_within(entries, env, inner, entries.len())->Some_0;
    let results = Seq::new(
        entries.len(),
        |i: int|
            Entry {
                name: entries[i].name,
                value: final_result(entries, env, i),
                recursive: entries[i].recursive,
            },
    );
    assert forall|i: int| 0 <= i < entries.len() implies close_within(
        #[trigger] seeded.entries[i],
        seeded.local,
        inner,
    ) == Some(results[i]) by {
        if entries[i].recursive {
            lemma_eval_reached(first_result(entries, env, i), seeded.local, inner);
        }
    }
    assert(eval(set, env)->AttrSet_0 =~= results);
    assert forall|i: int|
        0 <= i < entries.len() && (#[trigger] entries[i]).recursive implies converges(
        entries[i].value,
        local_before(entries, env, i as nat),
    ) && converges(first_result(entries, env, i), local_scope(entries, env)) by {
        assert(close_within(seeded.entries[i], seeded.local, inner) is Some);
        lemma_eval_reached(first_result(entries, env, i), seeded.local, inner);
    }
}

/// A binding that is not recursive sees none of its siblings: its result is
/// that of its value in the scope that the attribute set itself is
/// evaluated in, whatever the set holds beside it.
pub proof fn lemma_plain_binding_sees_the_ambient_scope(entries: Seq<Entry>, env: Env, i: int)
    requires
        converges(Term::AttrSet(entries), env),
        0 <= i < entries.len(),
        !entries[i].recursive,
    ensures
        converges(entries[i].value, env),
        eval(Term::AttrSet(entries), env)->AttrSet_0[i] == (Entry {
            name: entries[i].name,
            value: eval(entries[i].value, env),
            recursive: false,
        }),
{
    lemma_attr_set_evaluates_in_two_passes(entries, env);
}

/// A bound under which the first pass comes through the first `n` bindings.
proof fn lemma_first_pass_depth(entries: Seq<Entry>, ambient: Env, n: nat) -> (depth: nat)
    requires
        n <= entries.len(),
        forall|i: int|
            0 <= i < n ==> converges(
                (#[trigger] entries[i]).value,
                seeding_scope(entries[i], ambient, local_before(entries, ambient, i as nat)),
            ),
    ensures
        seed_within(entries, ambient, depth, n) is Some,
    decreases n,
{
    if n == 0 {
        0
    } else {
        let before = (n - 1) as nat;
        let reached = lemma_first_pass_depth(entries, ambient, before);
        lemma_seed_is_first_pass(entries, ambient, reached, before);
        let entry = entries[n - 1];
        let scope = seeding_scope(entry, ambient, local_before(entries, ambient, before));
        assert(converges(entry.value, scope));
        let own = choose|d: nat| (#[trigger] eval_within(entry.value, scope, d)) is Some;
        let depth = if reached <= own {
            own
        } else {
            reached
        };
        lemma_seed_within_monotone(entries, ambient, reached, depth, before);
        lemma_eval_within_monotone(entry.value, scope, own, depth);
        depth
    }
}

/// Evaluation of an attribute set converges exactly where both passes do on
/// each binding: the value in its seeding scope, and for a recursive binding
/// its first result in the local scope.
pub proof fn lemma_attr_set_converges_bindingwise(entries: Seq<Entry>, env: Env)
    ensures
        converges(Term::AttrSet(entries), env) <==> forall|i: int|
            0 <= i < entries.len() ==> {
                &&& converges(
                    (#[trigger] entries[i]).value,
                    seeding_scope(entries[i], env, local_before(entries, env, i as nat)),
                )
                &&& entries[i].recursive ==> converges(
                    first_result(entries, env, i),
                    local_scope(entries, env),
                )
            },
{
    let set = Term::AttrSet(entries);
    let local = local_scope(entries, env);
    if converges(set, env) {
        lemma_attr_set_evaluates_in_two_passes(entries, env);
    }
    if forall|i: int|
        0 <= i < entries.len() ==> {
            &&& converges(
                (#[trigger] entries[i]).value,
                seeding_scope(entries[i], env, local_before(entries, env, i as nat)),
            )
            &&& entries[i].recursive ==> converges(first_result(entries, env, i), local)
        } {
        let firsts = Seq::new(
            entries.len(),
            |i: int|
                if entries[i].recursive {
                    first_result(entries, env, i)
                } else {
                    Term::Bool(false)
                },
        );
        assert forall|i: int| 0 <= i < firsts.len() implies converges(
            #[trigger] firsts[i],
            local,
        ) by {
            if entries[i].recursive {
                assert(converges(first_result(entries, env, i), local));
            } else {
                lemma_literal_is_its_own_result(firsts[i], local);
            }
        }
        let seeding = lemma_first_pass_depth(entries, env, entries.len());
        let closing = lemma_common_depth(firsts, local, firsts.len());
        let inner = if seeding <= closing {
            closing
        } else {
            seeding
        };
        lemma_seed_within_monotone(entries, env, seeding, inner, entries.len());
        lemma_seed_is_first_pass(entries, env, inner, entries.len());
        let seeded = seed_within(entries, env, inner, entries.len())->Some_0;
        assert forall|i: int| 0 <= i < seeded.entries.len() implies close_within(
            #[trigger] seeded.entries[i],
            seeded.local,
            inner,
        ) is Some by {
                if entries[i].recursive {
                assert(firsts[i] == first_result(entries, env, i));
                lemma_eval_within_monotone(firsts[i], local, closing, inner);
            }
        }
        assert(eval_within(set, env, inner + 1) is Some);
    }
}

/// Under every bound, the result of a well-formed term in a well-formed
/// scope is well formed.
pub proof fn lemma_eval_within_keeps_form(t: Term, env: Env, depth: nat)
    requires
        t.well_formed(),
        well_formed_scope(env),
        eval_within(t, env, depth) is Some,
    ensures
        eval_within(t, env, depth)->Some_0.well_formed(),
    decreases depth, 0nat,
{
    let inner = (depth - 1) as nat;
    let res = eval_within(t, env, depth)->Some_0;
    match t {
        Term::List(items) => {
            assert forall|i: int| 0 <= i < items.len() implies (
            #[trigger] res->List_0[i]).well_formed() by {
                assert(items[i].well_formed());
                lemma_eval_within_keeps_form(items[i], env, inner);
            }
        },
        Term::AttrSet(entries) => {
            lemma_seed_within_keeps_form(entries, env, inner, entries.len());
            let seeded = seed_within(entries, env, inner, entries.len())->Some_0;
            let results = res->AttrSet_0;
            assert forall|i: int| 0 <= i < results.len() implies (#[trigger] results[i]).name
                == entries[i].name && results[i].value.well_formed() by {
                let first = seeded.entries[i];
                assert(close_within(first, seeded.local, inner) is Some);
                if first.recursive {
                    lemma_eval_within_keeps_form(first.value, seeded.local, inner);
                }
            }
            assert(distinct_names(results)) by {
                assert forall|i: int, j: int| 0 <= i < j < results.len() implies (
                #[trigger] results[i]).name != (#[trigger] results[j]).name by {
                    assert(entries[i].name != entries[j].name);
                }
            }
        },
        _ => {},
    }
}

/// Under every bound, the first pass on well-formed bindings in a
/// well-formed scope keeps the names, and leaves well-formed first results
/// and a well-formed local scope.
proof fn lemma_seed_within_keeps_form(entries: Seq<Entry>, ambient: Env, depth: nat, n: nat)
    requires
        n <= entries.len(),
        forall|i: int| 0 <= i < entries.len() ==> (#[trigger] entries[i]).value.well_formed(),
        well_formed_scope(ambient),
        seed_within(entries, ambient, depth, n) is Some,
    ensures
        well_formed_scope(seed_within(entries, ambient, depth, n)->Some_0.local),
        seed_within(entries, ambient, depth, n)->Some_0.entries.len() == n,
        forall|i: int|
            0 <= i < n ==> {
                let first = #[trigger] seed_within(entries, ambient, depth, n)->Some_0.entries[i];
                first.name == entries[i].name && first.value.well_formed()
            },
    decreases depth, 2nat, n,
{
    if n > 0 {
        let before = (n - 1) as nat;
        lemma_seed_within_keeps_form(entries, ambient, depth, before);
        let so_far = seed_within(entries, ambient, depth, before)->Some_0;
        let entry = entries[n - 1];
        let scope = seeding_scope(entry, ambient, so_far.local);
        lemma_eval_within_keeps_form(entry.value, scope, depth);
        let seeded = seed_within(entries, ambient, depth, n)->Some_0;
        assert forall|i: int| 0 <= i < n implies ({
            let first = #[trigger] seeded.entries[i];
            first.name == entries[i].name && first.value.well_formed()
        }) by {
            if i < n - 1 {
                assert(seeded.entries[i] == so_far.entries[i]);
            }
        }
    }
}

/// Evaluation keeps values well formed: where each attribute set in a term,
/// and in each value that the scope binds, names each of its bindings once,
/// the same holds of the result.
pub proof fn lemma_eval_keeps_form(t: Term, env: Env)
    requires
        t.well_formed(),
        well_formed_scope(env),
        converges(t, env),
    ensures
        eval(t, env).well_formed(),
{
    let depth = choose|d: nat| (#[trigger] eval_within(t, env, d)) is Some;
    lemma_eval_within_keeps_form(t, env, depth);
}

/// Every term is the same as itself.
pub proof fn lemma_same_is_reflexive(t: Term)
    ensures
        t.same(t),
    decreases t,
{
    match t {
        Term::List(items) => {
            assert forall|i: int| 0 <= i < items.len() implies (#[trigger] items[i]).same(
                items[i],
            ) by {
                lemma_same_is_reflexive(items[i]);
            }
        },
        Term::AttrSet(entries) => {
            assert forall|i: int| 0 <= i < entries.len() implies (#[trigger] entries[i]).found_in(
                entries,
            ) && finds(entries, entries[i]) by {
                lemma_same_is_reflexive(entries[i].value);
                assert(entries[i].agrees(entries[i]));
            }
        },
        _ => {},
    }
}

/// Where one term is the same as another, the other is the same as the one.
pub proof fn lemma_same_is_symmetric(a: Term, b: Term)
    requires
        a.same(b),
    ensures
        b.same(a),
    decreases a,
{
    match (a, b) {
        (Term::List(xs), Term::List(ys)) => {
            assert forall|i: int| 0 <= i < ys.len() implies (#[trigger] ys[i]).same(xs[i]) by {
                assert(xs[i].same(ys[i]));
                lemma_same_is_symmetric(xs[i], ys[i]);
            }
        },
        (Term::AttrSet(xs), Term::AttrSet(ys)) => {
            assert forall|j: int| 0 <= j < ys.len() implies (#[trigger] ys[j]).found_in(xs) by {
                assert(finds(xs, ys[j]));
                let i = choose|i: int| 0 <= i < xs.len() && (#[trigger] xs[i]).agrees(ys[j]);
                lemma_same_is_symmetric(xs[i].value, ys[j].value);
                assert(ys[j].agrees(xs[i]));
            }
            assert forall|i: int| 0 <= i < xs.len() implies finds(ys, #[trigger] xs[i]) by {
                assert(xs[i].found_in(ys));
                let j = choose|j: int| 0 <= j < ys.len() && xs[i].agrees(#[trigger] ys[j]);
                lemma_same_is_symmetric(xs[i].value, ys[j].value);
                assert(ys[j].agrees(xs[i]));
            }
        },
        _ => {},
    }
}

/// Where one term is the same as a second and the second the same as a
/// third, the first is the same as the third.
pub proof fn lemma_same_is_transitive(a: Term, b: Term, c: Term)
    requires
        a.same(b),
        b.same(c),
    ensures
        a.same(c),
    decreases a,
{
    match (a, b, c) {
        (Term::List(xs), Term::List(ys), Term::List(zs)) => {
            assert forall|i: int| 0 <= i < xs.len() implies (#[trigger] xs[i]).same(zs[i]) by {
                assert(xs[i].same(ys[i]));
                assert(ys[i].same(zs[i]));
                lemma_same_is_transitive(xs[i], ys[i], zs[i]);
            }
        },
        (Term::AttrSet(xs), Term::AttrSet(ys), Term::AttrSet(zs)) => {
            assert forall|i: int| 0 <= i < xs.len() implies (#[trigger] xs[i]).found_in(zs) by {
                assert(xs[i].found_in(ys));
                let j = choose|j: int| 0 <= j < ys.len() && xs[i].agrees(#[trigger] ys[j]);
                assert(ys[j].found_in(zs));
                let k = choose|k: int| 0 <= k < zs.len() && ys[j].agrees(#[trigger] zs[k]);
                lemma_same_is_transitive(xs[i].value, ys[j].value, zs[k].value);
                assert(xs[i].agrees(zs[k]));
            }
            assert forall|k: int| 0 <= k < zs.len() implies finds(xs, #[trigger] zs[k]) by {
                assert(finds(ys, zs[k]));
                let j = choose|j: int| 0 <= j < ys.len() && (#[trigger] ys[j]).agrees(zs[k]);
                assert(finds(xs, ys[j]));
                let i = choose|i: int| 0 <= i < xs.len() && (#[trigger] xs[i]).agrees(ys[j]);
                lemma_same_is_transitive(xs[i].value, ys[j].value, zs[k].value);
                assert(xs[i].agrees(zs[k]));
            }
        },
        _ => {},
    }
}

} // verus!
