//! Scopes: the names that a value is evaluated against.
use vstd::prelude::*;
use crate::term::{Env, Term};
use crate::value::NixValue;

verus! {

/// A scope binds names to values. It is a value of its own: a copy shares
/// nothing with the scope it was made from.
#[derive(Debug)]
pub struct NixScope {
    variables: Vec<(String, NixValue)>,
}

/// The bindings that a list of variables stands for. Where a name occurs
/// twice, the first occurrence counts.
pub closed spec fn bound(vars: Seq<(String, NixValue)>) -> Env
    decreases vars.len(),
{
    if vars.len() == 0 {
        Map::empty()
    } else {
        bound(vars.drop_first()).insert(vars[0].0@, vars[0].1@)
    }
}

/// No variable is named `name`.
spec fn unnamed(vars: Seq<(String, NixValue)>, name: Seq<char>) -> bool {
    forall|j: int| 0 <= j < vars.len() ==> (#[trigger] vars[j]).0@ != name
}

/// The variable at `i` is the first of its name.
spec fn first_named(vars: Seq<(String, NixValue)>, i: int) -> bool {
    &&& 0 <= i < vars.len()
    &&& forall|j: int| 0 <= j < i ==> (#[trigger] vars[j]).0@ != vars[i].0@
}

proof fn lemma_bound_unnamed(vars: Seq<(String, NixValue)>, name: Seq<char>)
    requires
        unnamed(vars, name),
    ensures
        !bound(vars).contains_key(name),
    decreases vars.len(),
{
    if vars.len() > 0 {
        let rest = vars.drop_first();
        assert forall|j: int| 0 <= j < rest.len() implies (#[trigger] rest[j]).0@ != name by {
            assert(rest[j] == vars[j + 1]);
        }
        lemma_bound_unnamed(rest, name);
    }
}

proof fn lemma_bound_first_named(vars: Seq<(String, NixValue)>, i: int)
    requires
        first_named(vars, i),
    ensures
        bound(vars).contains_key(vars[i].0@),
        bound(vars)[vars[i].0@] == vars[i].1@,
    decreases vars.len(),
{
    if i > 0 {
        let rest = vars.drop_first();
        assert(rest[i - 1] == vars[i]);
        assert forall|j: int| 0 <= j < i - 1 implies (#[trigger] rest[j]).0@ != rest[i - 1].0@ by {
            assert(rest[j] == vars[j + 1]);
        }
        lemma_bound_first_named(rest, i - 1);
        assert(vars[0].0@ != vars[i].0@);
    }
}

proof fn lemma_bound_push(vars: Seq<(String, NixValue)>, var: (String, NixValue))
    requires
        unnamed(vars, var.0@),
    ensures
        bound(vars.push(var)) == bound(vars).insert(var.0@, var.1@),
    decreases vars.len(),
{
    let more = vars.push(var);
    if vars.len() == 0 {
        assert(more.drop_first() =~= vars);
        assert(bound(more.drop_first()) == Map::<Seq<char>, Term>::empty());
    } else {
        let rest = vars.drop_first();
        assert forall|j: int| 0 <= j < rest.len() implies (#[trigger] rest[j]).0@ != var.0@ by {
            assert(rest[j] == vars[j + 1]);
        }
        lemma_bound_push(rest, var);
        assert(more.drop_first() =~= rest.push(var));
        assert(vars[0].0@ != var.0@);
        assert(bound(more) =~= bound(vars).insert(var.0@, var.1@));
    }
}

proof fn lemma_bound_update(vars: Seq<(String, NixValue)>, i: int, var: (String, NixValue))
    requires
        first_named(vars, i),
        var.0@ == vars[i].0@,
    ensures
        bound(vars.update(i, var)) == bound(vars).insert(var.0@, var.1@),
    decreases vars.len(),
{
    let changed = vars.update(i, var);
    if i == 0 {
        assert(changed.drop_first() =~= vars.drop_first());
        assert(bound(changed) =~= bound(vars).insert(var.0@, var.1@));
    } else {
        let rest = vars.drop_first();
        assert(rest[i - 1] == vars[i]);
        assert forall|j: int| 0 <= j < i - 1 implies (#[trigger] rest[j]).0@ != rest[i - 1].0@ by {
            assert(rest[j] == vars[j + 1]);
        }
        lemma_bound_update(rest, i - 1, var);
        assert(changed.drop_first() =~= rest.update(i - 1, var));
        assert(vars[0].0@ != var.0@);
        assert(bound(changed) =~= bound(vars).insert(var.0@, var.1@));
    }
}

proof fn lemma_bound_same(a: Seq<(String, NixValue)>, b: Seq<(String, NixValue)>)
    requires
        a.len() == b.len(),
        forall|j: int| 0 <= j < a.len() ==> (#[trigger] a[j]).0@ == b[j].0@ && a[j].1@ == b[j].1@,
    ensures
        bound(a) == bound(b),
    decreases a.len(),
{
    if a.len() > 0 {
        let ra = a.drop_first();
        let rb = b.drop_first();
        assert forall|j: int| 0 <= j < ra.len() implies (#[trigger] ra[j]).0@ == rb[j].0@
            && ra[j].1@ == rb[j].1@ by {
            assert(ra[j] == a[j + 1]);
            assert(rb[j] == b[j + 1]);
        }
        lemma_bound_same(ra, rb);
        assert(a[0].0@ == b[0].0@ && a[0].1@ == b[0].1@);
    }
}

impl View for NixScope {
    type V = Env;

    closed spec fn view(&self) -> Env {
        bound(self.variables@)
    }
}

impl NixScope {
    /// The scope that binds nothing.
    pub fn new() -> (res: Self)
        ensures
            res@ == Map::<Seq<char>, Term>::empty(),
    {
        NixScope { variables: Vec::new() }
    }

    /// Where the first variable named `name` stands, or the number of
    /// variables if there is none.
    fn position(&self, name: &String) -> (i: usize)
        ensures
            i <= self.variables.len(),
            i < self.variables.len() ==> first_named(self.variables@, i as int)
                && self.variables[i as int].0@ == name@,
            i == self.variables.len() ==> unnamed(self.variables@, name@),
    {
        let mut i: usize = 0;
        while i < self.variables.len()
            invariant
                i <= self.variables.len(),
                forall|j: int| 0 <= j < i ==> (#[trigger] self.variables[j]).0@ != name@,
            decreases self.variables.len() - i,
        {
            if self.variables[i].0 == *name {
                return i;
            }
            i += 1;
        }
        i
    }

    /// Binds `key` to `value`. An earlier binding of `key` is replaced; every
    /// other binding stays.
    pub fn insert(&mut self, key: &str, value: NixValue)
        ensures
            final(self)@ == old(self)@.insert(key@, value@),
    {
        let name = key.to_owned();
        let i = self.position(&name);
        proof {
            if i < self.variables.len() {
                lemma_bound_update(self.variables@, i as int, (name, value));
            } else {
                lemma_bound_push(self.variables@, (name, value));
            }
        }
        if i < self.variables.len() {
            self.variables.set(i, (name, value));
        } else {
            self.variables.push((name, value));
        }
    }

    /// The value bound to `name`, if there is one.
    pub(crate) fn lookup(&self, name: &String) -> (res: Option<&NixValue>)
        ensures
            match res {
                Some(value) => self@.contains_key(name@) && value@ == self@[name@],
                None => !self@.contains_key(name@),
            },
    {
        let i = self.position(name);
        if i < self.variables.len() {
            proof {
                lemma_bound_first_named(self.variables@, i as int);
            }
            Some(&self.variables[i].1)
        } else {
            proof {
                lemma_bound_unnamed(self.variables@, name@);
            }
            None
        }
    }

    /// The value bound to `key`, if there is one.
    pub fn get(&self, key: &str) -> (res: Option<&NixValue>)
        ensures
            match res {
                Some(value) => self@.contains_key(key@) && value@ == self@[key@],
                None => !self@.contains_key(key@),
            },
    {
        let name = key.to_owned();
        self.lookup(&name)
    }
}

impl Clone for NixScope {
    /// A scope of its own with the same bindings.
    fn clone(&self) -> (res: Self)
        ensures
            res@ == self@,
    {
        let mut variables: Vec<(String, NixValue)> = Vec::new();
        let mut i: usize = 0;
        while i < self.variables.len()
            invariant
                i <= self.variables.len(),
                variables.len() == i,
                forall|j: int|
                    0 <= j < i ==> (#[trigger] variables[j]).0@ == self.variables[j].0@
                        && variables[j].1@ == self.variables[j].1@,
            decreases self.variables.len() - i,
        {
            let var = &self.variables[i];
            variables.push((var.0.clone(), var.1.clone()));
            i += 1;
        }
        proof {
            lemma_bound_same(variables@, self.variables@);
        }
        NixScope { variables }
    }
}

} // verus!
