use scopegraph::expr::{Env, EvalError, Expression};
use scopegraph::graph::{Listener, ScopeTree};
use scopegraph::names::{AttrName, Value, VarName};

fn vn(s: &str) -> VarName {
    VarName(s.to_string())
}

fn an(s: &str) -> AttrName {
    AttrName(s.to_string())
}

fn val(s: &str) -> Value {
    Value(s.to_string())
}

fn lit(s: &str) -> Expression {
    Expression::Literal(val(s))
}

fn var(s: &str) -> Expression {
    Expression::VarRef(vn(s))
}

fn times(a: Expression, b: Expression) -> Expression {
    Expression::Times(Box::new(a), Box::new(b))
}

fn plus(a: Expression, b: Expression) -> Expression {
    Expression::Plus(Box::new(a), Box::new(b))
}

fn minus(a: Expression, b: Expression) -> Expression {
    Expression::Minus(Box::new(a), Box::new(b))
}

#[test]
fn eval_literal_and_variable() {
    let mut env = Env::empty();
    env.bind(vn("count"), val("1"));
    assert_eq!(lit("hi").eval(&env).unwrap(), val("hi"));
    assert_eq!(var("count").eval(&env).unwrap(), val("1"));
}

#[test]
fn eval_arithmetic_exact_values() {
    let env = Env::empty();
    assert_eq!(times(lit("3"), lit("4")).eval(&env).unwrap(), val("12"));
    assert_eq!(plus(lit("3"), lit("4")).eval(&env).unwrap(), val("7"));
    assert_eq!(minus(lit("3"), lit("10")).eval(&env).unwrap(), val("-7"));
    assert_eq!(plus(lit("+5"), lit("0")).eval(&env).unwrap(), val("5"));
    assert_eq!(times(lit("-7"), lit("-6")).eval(&env).unwrap(), val("42"));
}

#[test]
fn eval_normalises_numeric_text() {
    let env = Env::empty();
    // Leading zeros and a '+' sign are read, and the result is rendered
    // plainly.
    assert_eq!(plus(lit("007"), lit("0")).eval(&env).unwrap(), val("7"));
    assert_eq!(minus(lit("0"), lit("0")).eval(&env).unwrap(), val("0"));
    assert_eq!(plus(lit("-0"), lit("0")).eval(&env).unwrap(), val("0"));
}

#[test]
fn eval_empty_text_is_not_a_number() {
    let env = Env::empty();
    match plus(lit(""), lit("1")).eval(&env) {
        Err(EvalError::NotANumber(v)) => assert_eq!(v, val("")),
        other => panic!("expected a non-numeric failure, got {:?}", other.is_ok()),
    }
}

#[test]
fn eval_missing_variable_fails() {
    let env = Env::empty();
    match plus(var("missing_var"), lit("1")).eval(&env) {
        Err(EvalError::UnresolvedVariable(n)) => assert_eq!(n, vn("missing_var")),
        other => panic!("expected an unresolved variable, got {:?}", other.is_ok()),
    }
}

#[test]
fn eval_non_numeric_operand_fails() {
    let env = Env::empty();
    match times(lit("pony"), lit("2")).eval(&env) {
        Err(EvalError::NotANumber(v)) => assert_eq!(v, val("pony")),
        other => panic!("expected a non-numeric failure, got {:?}", other.is_ok()),
    }
}

#[test]
fn eval_overflow_fails() {
    let env = Env::empty();
    match times(lit("9223372036854775807"), lit("2")).eval(&env) {
        Err(EvalError::Overflow) => {}
        other => panic!("expected an overflow, got {:?}", other.is_ok()),
    }
}

#[test]
fn var_refs_collects_names() {
    let e = plus(var("a"), times(var("b"), var("a")));
    let refs = e.var_refs();
    assert!(refs.contains(&vn("a")));
    assert!(refs.contains(&vn("b")));
    assert!(e.references(&vn("a")));
    assert!(!e.references(&vn("c")));
}

#[test]
fn lookup_resolves_locally_and_upward() {
    let mut tree = ScopeTree::from_global_vars(vec![(vn("g"), val("root"))]);
    let child = tree
        .register_new_scope(Some(0), 0, vec![(an("x"), lit("child"))])
        .unwrap();
    assert_eq!(tree.lookup_variable_in_scope(child, &vn("x")).unwrap(), &val("child"));
    assert_eq!(tree.lookup_variable_in_scope(child, &vn("g")).unwrap(), &val("root"));
    assert!(tree.lookup_variable_in_scope(child, &vn("absent")).is_none());
    assert_eq!(tree.find_scope_with_variable(child, &vn("g")), Some(0));
    assert_eq!(tree.find_scope_with_variable(child, &vn("x")), Some(child));
}

#[test]
fn shadowing_prefers_the_nearest_scope() {
    let mut tree = ScopeTree::from_global_vars(vec![(vn("v"), val("outer"))]);
    let child = tree
        .register_new_scope(Some(0), 0, vec![(an("v"), lit("inner"))])
        .unwrap();
    assert_eq!(tree.lookup_variable_in_scope(child, &vn("v")).unwrap(), &val("inner"));
    assert_eq!(tree.lookup_variable_in_scope(0, &vn("v")).unwrap(), &val("outer"));
}

#[test]
fn parent_walk_reaches_the_root() {
    let mut tree = ScopeTree::from_global_vars(vec![]);
    let a = tree.register_new_scope(Some(0), 0, vec![]).unwrap();
    let b = tree.register_new_scope(Some(a), a, vec![]).unwrap();
    assert_eq!(tree.parent_scope_of(b), Some(a));
    assert_eq!(tree.parent_scope_of(a), Some(0));
    assert_eq!(tree.parent_scope_of(0), None);
}

#[test]
fn register_new_scope_adds_expected_edges() {
    let mut tree = ScopeTree::from_global_vars(vec![(vn("a"), val("1")), (vn("b"), val("2"))]);
    let child = tree
        .register_new_scope(
            Some(0),
            0,
            vec![(an("x"), var("a")), (an("y"), plus(var("a"), var("b")))],
        )
        .unwrap();
    // One ProvidesAttribute edge per attribute, from the calling scope.
    assert_eq!(tree.scopes[0].provides.len(), 2);
    assert_eq!(tree.scopes[0].provides[0].target, child);
    assert_eq!(tree.scopes[0].provides[1].target, child);
    // One Inherits edge, because a parent was given.
    assert_eq!(tree.scopes[child].parent, Some(0));
    assert_eq!(tree.lookup_variable_in_scope(child, &vn("x")).unwrap(), &val("1"));
    assert_eq!(tree.lookup_variable_in_scope(child, &vn("y")).unwrap(), &val("3"));
}

#[test]
fn scenario_derived_attribute_follows_updates() {
    let mut tree = ScopeTree::from_global_vars(vec![(vn("count"), val("1"))]);
    let new_scope = tree
        .register_new_scope(Some(0), 0, vec![(an("doubled"), times(var("count"), lit("2")))])
        .unwrap();
    assert_eq!(tree.lookup_variable_in_scope(new_scope, &vn("doubled")).unwrap(), &val("2"));
    tree.update_value(0, &vn("count"), val("5")).unwrap();
    assert_eq!(tree.lookup_variable_in_scope(new_scope, &vn("doubled")).unwrap(), &val("10"));
}

#[test]
fn scenario_unresolved_reference_leaves_graph_untouched() {
    let mut tree = ScopeTree::from_global_vars(vec![(vn("a"), val("1"))]);
    let nodes_before = tree.scopes.len();
    let edges_before = tree.scopes[0].provides.len();
    match tree.register_new_scope(Some(0), 0, vec![(an("x"), plus(var("missing_var"), lit("1")))]) {
        Err(EvalError::UnresolvedVariable(n)) => assert_eq!(n, vn("missing_var")),
        other => panic!("expected an unresolved variable, got {:?}", other.is_ok()),
    }
    assert_eq!(tree.scopes.len(), nodes_before);
    assert_eq!(tree.scopes[0].provides.len(), edges_before);
    assert_eq!(tree.lookup_variable_in_scope(0, &vn("a")).unwrap(), &val("1"));
}

#[test]
fn update_value_writes_the_defining_scope() {
    let mut tree = ScopeTree::from_global_vars(vec![(vn("g"), val("old"))]);
    let child = tree.register_new_scope(Some(0), 0, vec![]).unwrap();
    // The write targets the variable visible through inheritance.
    tree.update_value(child, &vn("g"), val("new")).unwrap();
    assert_eq!(tree.lookup_variable_in_scope(0, &vn("g")).unwrap(), &val("new"));
    assert_eq!(tree.lookup_variable_in_scope(child, &vn("g")).unwrap(), &val("new"));
}

#[test]
fn update_value_of_unknown_variable_fails() {
    let mut tree = ScopeTree::from_global_vars(vec![]);
    match tree.update_value(0, &vn("ghostly"), val("1")) {
        Err(EvalError::UnresolvedVariable(n)) => assert_eq!(n, vn("ghostly")),
        other => panic!("expected an unresolved variable, got {:?}", other.is_ok()),
    }
}

#[test]
fn listener_receives_its_needed_snapshot() {
    let mut tree = ScopeTree::from_global_vars(vec![(vn("foo"), val("hi"))]);
    let child = tree
        .register_new_scope(Some(0), 0, vec![(an("bar"), lit("ho"))])
        .unwrap();
    let id = tree.register_listener(
        child,
        Listener { needed_variables: vec![vn("foo"), vn("bar")] },
    );
    let invs = tree.update_value(child, &vn("foo"), val("pog")).unwrap();
    assert_eq!(invs.len(), 1);
    assert_eq!(invs[0].listener, id);
    assert_eq!(invs[0].env.get(&vn("foo")).unwrap(), &val("pog"));
    assert_eq!(invs[0].env.get(&vn("bar")).unwrap(), &val("ho"));
    assert!(invs[0].env.get(&vn("count")).is_none());
}

#[test]
fn listener_fires_at_most_once_per_update() {
    let mut tree = ScopeTree::from_global_vars(vec![(vn("a"), val("1"))]);
    let child = tree.register_new_scope(Some(0), 0, vec![]).unwrap();
    let id = tree.register_listener(child, Listener { needed_variables: vec![vn("a")] });
    // A second listener on the root itself also watches the variable.
    let root_id = tree.register_listener(0, Listener { needed_variables: vec![vn("a")] });
    let invs = tree.update_value(child, &vn("a"), val("2")).unwrap();
    let hits: Vec<_> = invs.iter().filter(|i| i.listener == id).collect();
    assert_eq!(hits.len(), 1);
    let root_hits: Vec<_> = invs.iter().filter(|i| i.listener == root_id).collect();
    assert_eq!(root_hits.len(), 1);
}

#[test]
fn propagation_reaches_chained_derivations() {
    let mut tree = ScopeTree::from_global_vars(vec![(vn("n"), val("2"))]);
    let first = tree
        .register_new_scope(Some(0), 0, vec![(an("sq"), times(var("n"), var("n")))])
        .unwrap();
    let second = tree
        .register_new_scope(Some(first), first, vec![(an("sq1"), plus(var("sq"), lit("1")))])
        .unwrap();
    assert_eq!(tree.lookup_variable_in_scope(second, &vn("sq1")).unwrap(), &val("5"));
    tree.update_value(0, &vn("n"), val("10")).unwrap();
    assert_eq!(tree.lookup_variable_in_scope(first, &vn("sq")).unwrap(), &val("100"));
    assert_eq!(tree.lookup_variable_in_scope(second, &vn("sq1")).unwrap(), &val("101"));
}

#[test]
fn listener_on_two_paths_fires_once() {
    let mut tree = ScopeTree::from_global_vars(vec![(vn("n"), val("2"))]);
    // The derived scope binds "m" from "n", and its listener needs both, so
    // one update of "n" reaches the listener through the dependency link for
    // "n" and again through the re-derivation of "m".
    let child = tree
        .register_new_scope(Some(0), 0, vec![(an("m"), plus(var("n"), lit("1")))])
        .unwrap();
    let id = tree.register_listener(child, Listener { needed_variables: vec![vn("n"), vn("m")] });
    let invs = tree.update_value(child, &vn("n"), val("7")).unwrap();
    let hits: Vec<_> = invs.iter().filter(|i| i.listener == id).collect();
    assert_eq!(hits.len(), 1);
    assert_eq!(tree.lookup_variable_in_scope(child, &vn("m")).unwrap(), &val("8"));
}

#[test]
fn find_available_scope_where_picks_the_nearest() {
    let mut tree = ScopeTree::from_global_vars(vec![(vn("g"), val("1"))]);
    let a = tree.register_new_scope(Some(0), 0, vec![]).unwrap();
    let b = tree
        .register_new_scope(Some(a), a, vec![(an("x"), lit("2"))])
        .unwrap();
    // Scope b has a binding of its own; a has none; the root has one.
    assert_eq!(tree.find_available_scope_where(b, |s| s.bindings.len() > 0), Some(b));
    assert_eq!(tree.find_available_scope_where(a, |s| s.bindings.len() > 0), Some(0));
    assert_eq!(tree.find_available_scope_where(b, |s| s.bindings.len() > 9), None);
}

#[test]
fn value_at_bounds() {
    let tree = ScopeTree::from_global_vars(vec![(vn("a"), val("1"))]);
    assert!(tree.value_at(0).is_some());
    assert!(tree.value_at(7).is_none());
    assert_eq!(tree.root_index, 0);
}

#[test]
fn empty_attribute_set_builds_an_orphanless_scope() {
    let mut tree = ScopeTree::from_global_vars(vec![]);
    let lone = tree.register_new_scope(None, 0, vec![]).unwrap();
    assert_eq!(tree.parent_scope_of(lone), None);
    assert!(tree.lookup_variable_in_scope(lone, &vn("anything")).is_none());
}
