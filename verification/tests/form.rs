use nix_eval::scope::NixScope;
use nix_eval::value::{Binding, NixValue};

fn bind(name: &str, value: NixValue, recursive: bool) -> Binding {
    Binding { name: name.to_string(), value, recursive }
}

#[test]
fn values_without_attribute_sets_are_well_formed() {
    assert!(NixValue::Int(1).is_well_formed());
    assert!(NixValue::Str("s".to_string()).is_well_formed());
    assert!(NixValue::Bool(true).is_well_formed());
    assert!(NixValue::VarRef("v".to_string()).is_well_formed());
    assert!(NixValue::List(vec![]).is_well_formed());
    assert!(NixValue::List(vec![NixValue::Int(1), NixValue::Int(1)]).is_well_formed());
}

#[test]
fn distinct_names_are_well_formed() {
    assert!(NixValue::AttrSet(vec![]).is_well_formed());
    let set = NixValue::AttrSet(vec![
        bind("a", NixValue::Int(1), false),
        bind("b", NixValue::Int(1), true),
        bind("A", NixValue::Int(1), false),
    ]);
    assert!(set.is_well_formed());
}

#[test]
fn repeated_name_is_not_well_formed() {
    let set = NixValue::AttrSet(vec![
        bind("a", NixValue::Int(1), false),
        bind("b", NixValue::Int(2), false),
        bind("a", NixValue::Int(3), true),
    ]);
    assert!(!set.is_well_formed());
    let adjacent = NixValue::AttrSet(vec![
        bind("a", NixValue::Int(1), false),
        bind("a", NixValue::Int(1), false),
    ]);
    assert!(!adjacent.is_well_formed());
}

#[test]
fn repeated_name_is_found_at_any_depth() {
    let bad = NixValue::AttrSet(vec![
        bind("a", NixValue::Int(1), false),
        bind("a", NixValue::Int(2), false),
    ]);
    let in_list = NixValue::List(vec![NixValue::Int(0), bad.clone()]);
    let in_set = NixValue::AttrSet(vec![bind("x", in_list.clone(), true)]);
    assert!(!in_list.is_well_formed());
    assert!(!in_set.is_well_formed());
}

#[test]
fn same_name_in_different_sets_is_well_formed() {
    let inner = NixValue::AttrSet(vec![bind("a", NixValue::Int(1), false)]);
    let outer = NixValue::AttrSet(vec![
        bind("a", inner.clone(), false),
        bind("b", inner, false),
    ]);
    assert!(outer.is_well_formed());
}

#[test]
fn evaluation_keeps_values_well_formed() {
    let mut scope = NixScope::new();
    scope.insert(
        "s",
        NixValue::AttrSet(vec![
            bind("p", NixValue::Int(1), false),
            bind("q", NixValue::Int(2), false),
        ]),
    );
    let input = NixValue::AttrSet(vec![
        bind("a", NixValue::VarRef("s".to_string()), true),
        bind("b", NixValue::VarRef("a".to_string()), true),
        bind("c", NixValue::List(vec![NixValue::VarRef("s".to_string())]), false),
    ]);
    assert!(input.is_well_formed());
    let res = input.evaluate(&scope);
    assert!(res.is_well_formed());
    match &res {
        NixValue::AttrSet(bindings) => {
            let names: Vec<&str> = bindings.iter().map(|b| b.name.as_str()).collect();
            assert_eq!(names, vec!["a", "b", "c"]);
        }
        other => panic!("not an attribute set: {:?}", other),
    }
}
