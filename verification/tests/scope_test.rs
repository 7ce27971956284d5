use ts_check::program::Name;
use ts_check::scope::{Scope, ScopeTree, Var};

#[test]
fn a_name_is_visible_where_it_is_declared_and_below() {
    let mut tree = ScopeTree::new();
    let root = tree.enter(None);
    let child = tree.enter(Some(root));
    let grandchild = tree.enter(Some(child));
    assert_eq!(root, Scope(0));
    assert_eq!(grandchild, Scope(2));
    let k = Name(7);
    assert_eq!(tree.lookup(grandchild, k), None);
    let var = tree.declare(child, k);
    assert_eq!(var, Some(Var(0)));
    assert_eq!(tree.lookup(child, k), var);
    assert_eq!(tree.lookup(grandchild, k), var);
    assert_eq!(tree.lookup(root, k), None);
    assert_eq!(tree.lookup(child, Name(8)), None);
}

#[test]
fn a_name_is_declared_once_along_a_chain() {
    let mut tree = ScopeTree::new();
    let root = tree.enter(None);
    let child = tree.enter(Some(root));
    let grandchild = tree.enter(Some(child));
    let k = Name(0);
    assert_eq!(tree.declare(root, k), Some(Var(0)));
    assert_eq!(tree.declare(root, k), None);
    assert_eq!(tree.declare(child, k), None);
    assert_eq!(tree.declare(grandchild, k), None);
    assert_eq!(tree.vars.len(), 1);
    assert_eq!(tree.declare(grandchild, Name(1)), Some(Var(1)));
}

#[test]
fn siblings_may_declare_one_name() {
    let mut tree = ScopeTree::new();
    let root = tree.enter(None);
    let left = tree.enter(Some(root));
    let right = tree.enter(Some(root));
    let k = Name(3);
    let a = tree.declare(left, k);
    let b = tree.declare(right, k);
    assert_eq!(a, Some(Var(0)));
    assert_eq!(b, Some(Var(1)));
    assert_eq!(tree.lookup(left, k), a);
    assert_eq!(tree.lookup(right, k), b);
    assert_eq!(tree.lookup(root, k), None);
}

#[test]
fn an_ancestor_may_declare_a_name_after_a_scope_below_it() {
    let mut tree = ScopeTree::new();
    let root = tree.enter(None);
    let child = tree.enter(Some(root));
    let k = Name(3);
    let inner = tree.declare(child, k);
    let outer = tree.declare(root, k);
    assert_eq!(inner, Some(Var(0)));
    assert_eq!(outer, Some(Var(1)));
    assert_eq!(tree.lookup(child, k), inner);
    assert_eq!(tree.lookup(root, k), outer);
}

#[test]
fn trees_may_have_several_roots() {
    let mut tree = ScopeTree::new();
    let one = tree.enter(None);
    let two = tree.enter(None);
    assert_eq!(tree.declare(one, Name(0)), Some(Var(0)));
    assert_eq!(tree.lookup(two, Name(0)), None);
    assert_eq!(tree.declare(two, Name(0)), Some(Var(1)));
}
