use nix_eval::scope::NixScope;
use nix_eval::value::{Binding, NixValue};

fn num(n: i64) -> NixValue {
    NixValue::Int(n)
}

fn text(s: &str) -> NixValue {
    NixValue::Str(s.to_string())
}

fn var(name: &str) -> NixValue {
    NixValue::VarRef(name.to_string())
}

fn list(items: Vec<NixValue>) -> NixValue {
    NixValue::List(items)
}

fn plain(bindings: Vec<(&str, NixValue)>) -> NixValue {
    NixValue::AttrSet(
        bindings
            .into_iter()
            .map(|(name, value)| Binding { name: name.to_string(), value, recursive: false })
            .collect(),
    )
}

fn rec(bindings: Vec<(&str, NixValue)>) -> NixValue {
    NixValue::AttrSet(
        bindings
            .into_iter()
            .map(|(name, value)| Binding { name: name.to_string(), value, recursive: true })
            .collect(),
    )
}

fn bindings_of(value: &NixValue) -> &Vec<Binding> {
    match value {
        NixValue::AttrSet(bindings) => bindings,
        other => panic!("not an attribute set: {:?}", other),
    }
}

fn value_of<'a>(set: &'a NixValue, name: &str) -> &'a NixValue {
    let found: Vec<&Binding> = bindings_of(set).iter().filter(|b| b.name == name).collect();
    assert_eq!(found.len(), 1);
    &found[0].value
}

#[test]
fn integer_is_its_own_result() {
    let scope = NixScope::new();
    assert_eq!(num(42).evaluate(&scope), num(42));
    assert_eq!(num(-7).evaluate(&scope), num(-7));
    assert_eq!(num(i64::MIN).evaluate(&scope), num(i64::MIN));
}

#[test]
fn string_is_its_own_result() {
    let scope = NixScope::new();
    assert_eq!(text("hello").evaluate(&scope), text("hello"));
    assert_eq!(text("").evaluate(&scope), text(""));
}

#[test]
fn boolean_is_its_own_result() {
    let scope = NixScope::new();
    assert_eq!(NixValue::Bool(true).evaluate(&scope), NixValue::Bool(true));
    assert_eq!(NixValue::Bool(false).evaluate(&scope), NixValue::Bool(false));
}

#[test]
fn literal_ignores_the_scope() {
    let mut scope = NixScope::new();
    scope.insert("x", num(1));
    scope.insert("hello", num(2));
    assert_eq!(num(5).evaluate(&scope), num(5));
    assert_eq!(text("x").evaluate(&scope), text("x"));
    assert_eq!(NixValue::Bool(true).evaluate(&scope), NixValue::Bool(true));
}

#[test]
fn list_is_evaluated_item_by_item() {
    let mut scope = NixScope::new();
    scope.insert("a", num(10));
    scope.insert("b", text("bee"));
    let input = list(vec![var("b"), num(3), var("a"), var("missing"), var("a")]);
    let res = input.evaluate(&scope);
    match &res {
        NixValue::List(items) => {
            assert_eq!(items.len(), 5);
            assert_eq!(items[0], text("bee"));
            assert_eq!(items[1], num(3));
            assert_eq!(items[2], num(10));
            assert_eq!(items[3], var("missing"));
            assert_eq!(items[4], num(10));
        }
        other => panic!("not a list: {:?}", other),
    }
    let each: Vec<NixValue> = match &input {
        NixValue::List(items) => items.iter().map(|item| item.evaluate(&scope)).collect(),
        _ => unreachable!(),
    };
    assert_eq!(res, list(each));
}

#[test]
fn empty_list_stays_empty() {
    let scope = NixScope::new();
    assert_eq!(list(vec![]).evaluate(&scope), list(vec![]));
}

#[test]
fn nested_lists_are_evaluated_throughout() {
    let mut scope = NixScope::new();
    scope.insert("a", num(1));
    let input = list(vec![list(vec![var("a"), list(vec![var("a")])]), var("a")]);
    let expected = list(vec![list(vec![num(1), list(vec![num(1)])]), num(1)]);
    assert_eq!(input.evaluate(&scope), expected);
}

#[test]
fn value_without_references_is_a_fixed_point() {
    let mut scope = NixScope::new();
    scope.insert("a", num(1));
    let input = rec(vec![
        ("a", num(1)),
        ("l", list(vec![num(2), text("t"), NixValue::Bool(false)])),
        ("m", plain(vec![("a", num(3)), ("n", rec(vec![("a", num(4))]))])),
    ]);
    let once = input.evaluate(&scope);
    let twice = once.evaluate(&scope);
    assert_eq!(once, input);
    assert_eq!(twice, once);
}

#[test]
fn free_variable_passes_through() {
    let scope = NixScope::new();
    assert_eq!(var("qux").evaluate(&scope), var("qux"));
}

#[test]
fn bound_variable_gives_the_bound_value() {
    let mut scope = NixScope::new();
    scope.insert("qux", list(vec![num(1), var("other")]));
    scope.insert("other", num(2));
    // The bound value is handed out as it is: it is not evaluated again.
    assert_eq!(var("qux").evaluate(&scope), list(vec![num(1), var("other")]));
    assert_eq!(var("quux").evaluate(&scope), var("quux"));
}

#[test]
fn siblings_of_a_plain_set_do_not_see_each_other() {
    let scope = NixScope::new();
    let input = plain(vec![
        ("x", num(10)),
        ("eh", var("x")),
        ("uh", list(vec![num(3), num(4), num(6)])),
        ("m", plain(vec![("l", num(10))])),
    ]);
    let res = input.evaluate(&scope);
    assert_eq!(bindings_of(&res).len(), 4);
    assert_eq!(*value_of(&res, "x"), num(10));
    assert_eq!(*value_of(&res, "eh"), var("x"));
    assert_eq!(*value_of(&res, "uh"), list(vec![num(3), num(4), num(6)]));
    assert_eq!(*value_of(&res, "m"), plain(vec![("l", num(10))]));
    assert!(bindings_of(&res).iter().all(|b| !b.recursive));
}

#[test]
fn plain_binding_sees_the_ambient_scope() {
    let mut scope = NixScope::new();
    scope.insert("x", num(99));
    let input = plain(vec![("x", num(10)), ("eh", var("x"))]);
    let res = input.evaluate(&scope);
    assert_eq!(*value_of(&res, "x"), num(10));
    assert_eq!(*value_of(&res, "eh"), num(99));
}

#[test]
fn recursive_siblings_resolve() {
    let scope = NixScope::new();
    let res = rec(vec![("a", num(1)), ("b", var("a"))]).evaluate(&scope);
    assert_eq!(*value_of(&res, "b"), num(1));
    assert_eq!(*value_of(&res, "a"), num(1));
    assert_eq!(res, rec(vec![("a", num(1)), ("b", num(1))]));
}

#[test]
fn recursive_forward_reference_is_closed_by_the_second_pass() {
    let scope = NixScope::new();
    let res = rec(vec![("b", var("a")), ("a", num(1))]).evaluate(&scope);
    assert_eq!(*value_of(&res, "b"), num(1));
    assert_eq!(*value_of(&res, "a"), num(1));
}

#[test]
fn forward_chain_of_two_steps_stays_partly_open() {
    let scope = NixScope::new();
    let res = rec(vec![("b", var("a")), ("a", var("c")), ("c", num(1))]).evaluate(&scope);
    // The first pass leaves b = a and a = c; the second looks each up once.
    assert_eq!(*value_of(&res, "b"), var("c"));
    assert_eq!(*value_of(&res, "a"), num(1));
    assert_eq!(*value_of(&res, "c"), num(1));
}

#[test]
fn backward_chain_resolves_in_the_first_pass() {
    let scope = NixScope::new();
    let res = rec(vec![("c", num(1)), ("a", var("c")), ("b", var("a"))]).evaluate(&scope);
    assert_eq!(res, rec(vec![("c", num(1)), ("a", num(1)), ("b", num(1))]));
}

#[test]
fn recursive_binding_shadows_the_ambient_scope() {
    let mut scope = NixScope::new();
    scope.insert("a", num(100));
    let res = rec(vec![("b", var("a")), ("a", num(1))]).evaluate(&scope);
    // In the first pass b sees the ambient a; its result is a literal, so
    // the second pass leaves it.
    assert_eq!(*value_of(&res, "b"), num(100));
    let res = rec(vec![("a", num(1)), ("b", var("a"))]).evaluate(&scope);
    assert_eq!(*value_of(&res, "b"), num(1));
}

#[test]
fn tags_are_kept_per_binding() {
    let scope = NixScope::new();
    let input = NixValue::AttrSet(vec![
        Binding { name: "a".to_string(), value: num(1), recursive: true },
        Binding { name: "b".to_string(), value: var("a"), recursive: false },
        Binding { name: "c".to_string(), value: var("a"), recursive: true },
    ]);
    let res = input.evaluate(&scope);
    let bindings = bindings_of(&res);
    assert_eq!(bindings.len(), 3);
    assert_eq!(bindings[0].name, "a");
    assert_eq!(bindings[1].name, "b");
    assert_eq!(bindings[2].name, "c");
    assert!(bindings[0].recursive);
    assert!(!bindings[1].recursive);
    assert!(bindings[2].recursive);
    assert_eq!(bindings[0].value, num(1));
    assert_eq!(bindings[1].value, var("a"));
    assert_eq!(bindings[2].value, num(1));
}

#[test]
fn plain_set_nested_in_a_recursive_one_sees_its_own_ambient_scope() {
    let scope = NixScope::new();
    let input = rec(vec![
        ("a", num(1)),
        ("m", plain(vec![("a", num(2)), ("b", var("a"))])),
    ]);
    let res = input.evaluate(&scope);
    let m = value_of(&res, "m");
    // b does not see its sibling a = 2. The scope that m is evaluated in is
    // the local scope of the enclosing set, where a is 1.
    assert_eq!(*value_of(m, "a"), num(2));
    assert_eq!(*value_of(m, "b"), num(1));
    assert!(bindings_of(m).iter().all(|b| !b.recursive));
}

#[test]
fn plain_set_nested_in_a_plain_one_sees_no_sibling_at_any_level() {
    let scope = NixScope::new();
    let input = plain(vec![
        ("a", num(1)),
        ("m", plain(vec![("a", num(2)), ("b", var("a"))])),
    ]);
    let res = input.evaluate(&scope);
    let m = value_of(&res, "m");
    assert_eq!(*value_of(m, "b"), var("a"));
}

#[test]
fn recursive_set_nested_in_a_plain_one_resolves_its_own_siblings() {
    let scope = NixScope::new();
    let input = plain(vec![
        ("x", num(5)),
        ("m", rec(vec![("a", num(2)), ("b", var("a")), ("c", var("x"))])),
    ]);
    let res = input.evaluate(&scope);
    let m = value_of(&res, "m");
    assert_eq!(*value_of(m, "b"), num(2));
    assert_eq!(*value_of(m, "c"), var("x"));
}

#[test]
fn evaluation_leaves_its_inputs_alone() {
    let mut scope = NixScope::new();
    scope.insert("x", num(1));
    let input = rec(vec![("a", var("x")), ("b", var("a"))]);
    let before = input.clone();
    let res = input.evaluate(&scope);
    assert_eq!(input, before);
    assert_eq!(res, rec(vec![("a", num(1)), ("b", num(1))]));
    assert!(scope.get("a").is_none());
    assert!(scope.get("b").is_none());
    assert_eq!(*scope.get("x").unwrap(), num(1));
}

#[test]
fn depth_bound_of_zero_gives_nothing() {
    let scope = NixScope::new();
    assert!(num(1).evaluate_within(&scope, 0).is_none());
    assert!(var("a").evaluate_within(&scope, 0).is_none());
}

#[test]
fn depth_bound_counts_nested_evaluations() {
    let scope = NixScope::new();
    assert_eq!(num(1).evaluate_within(&scope, 1), Some(num(1)));
    let flat = list(vec![num(1), num(2)]);
    assert!(flat.evaluate_within(&scope, 1).is_none());
    assert_eq!(flat.evaluate_within(&scope, 2), Some(flat.clone()));
    assert_eq!(list(vec![]).evaluate_within(&scope, 1), Some(list(vec![])));
    let deep = list(vec![list(vec![list(vec![num(1)])])]);
    assert!(deep.evaluate_within(&scope, 3).is_none());
    assert_eq!(deep.evaluate_within(&scope, 4), Some(deep.clone()));
    assert_eq!(deep.evaluate_within(&scope, 1000), Some(deep.clone()));
}

#[test]
fn depth_bound_covers_both_passes() {
    let scope = NixScope::new();
    let input = rec(vec![("b", var("a")), ("a", num(1))]);
    assert!(input.evaluate_within(&scope, 1).is_none());
    assert_eq!(
        input.evaluate_within(&scope, 2),
        Some(rec(vec![("b", num(1)), ("a", num(1))]))
    );
}

#[test]
fn bounded_evaluation_agrees_with_evaluation() {
    let mut scope = NixScope::new();
    scope.insert("x", num(7));
    let input = rec(vec![
        ("a", list(vec![var("x"), var("b")])),
        ("b", num(2)),
        ("m", plain(vec![("c", var("b"))])),
    ]);
    assert_eq!(input.evaluate_within(&scope, 64), Some(input.evaluate(&scope)));
}

#[test]
fn nested_recursive_self_reference_is_cut_off() {
    let scope = NixScope::new();
    let input = rec(vec![("a", rec(vec![("b", var("a"))]))]);
    assert!(input.evaluate_within(&scope, 1).is_none());
    assert!(input.evaluate_within(&scope, 50).is_none());
    assert!(input.evaluate_within(&scope, 500).is_none());
}

#[test]
fn recursive_set_bound_in_the_scope_is_cut_off() {
    let mut scope = NixScope::new();
    scope.insert("x", rec(vec![("a", var("x"))]));
    let input = rec(vec![("a", var("x"))]);
    assert!(input.evaluate_within(&scope, 300).is_none());
}
