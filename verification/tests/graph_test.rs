use ts_check::scheme::unmarked;
use ts_check::shape::Type;
use ts_check::type_graph::{heads_match, is_meta, Term, Ty, TypeGraph};

fn list(g: &mut TypeGraph, items: &[Ty]) -> Ty {
    g.list_of(&items.to_vec())
}

#[test]
fn a_new_term_is_a_class_of_its_own() {
    let mut g = TypeGraph::new();
    let a = g.add(Term::MetaVar);
    let b = g.add(Term::Number);
    assert_eq!(a, Ty(0));
    assert_eq!(b, Ty(1));
    assert_eq!(g.find_const(a), a);
    assert_eq!(g.find(b), b);
    assert_eq!(g.get(b), Term::Number);
    assert!(g.has_type(a, &Type::Var(0)));
    assert!(g.has_type(b, &Type::Number));
    assert!(!g.has_type(b, &Type::String));
}

#[test]
fn unify_binds_a_metavariable() {
    let mut g = TypeGraph::new();
    let a = g.fresh();
    let n = g.build(Term::Number);
    g.unify(a, n);
    assert!(!g.conflict);
    assert_eq!(g.find_const(a), g.find_const(n));
    assert_eq!(g.find_const(a), n);
    assert!(g.has_type(a, &Type::Number));
}

#[test]
fn unify_is_transitive() {
    let mut g = TypeGraph::new();
    let a = g.fresh();
    let b = g.fresh();
    let c = g.build(Term::String);
    g.unify(a, b);
    assert!(!g.conflict);
    assert!(!g.has_type(a, &Type::String));
    g.unify(b, c);
    assert!(!g.conflict);
    assert_eq!(g.find_const(a), g.find_const(c));
    assert!(g.has_type(a, &Type::String));
    assert!(g.has_type(b, &Type::String));
}

#[test]
fn unify_is_symmetric_and_reflexive() {
    let mut g = TypeGraph::new();
    let a = g.fresh();
    let n = g.build(Term::Boolean);
    g.unify(a, a);
    g.unify(n, a);
    g.unify(a, n);
    g.unify(n, n);
    assert!(!g.conflict);
    assert!(g.has_type(a, &Type::Boolean));
}

#[test]
fn unify_rejects_different_constructors() {
    for (x, y) in [
        (Term::Number, Term::Boolean),
        (Term::Void, Term::String),
        (Term::String, Term::Number),
    ] {
        let mut g = TypeGraph::new();
        let a = g.build(x);
        let b = g.build(y);
        g.unify(a, b);
        assert!(g.conflict);
    }
}

#[test]
fn unify_rejects_a_function_and_a_product() {
    let mut g = TypeGraph::new();
    let n = g.build(Term::Number);
    let l = list(&mut g, &[n]);
    let f = g.build(Term::Function(l, n));
    let p = g.build(Term::Product(l));
    g.unify(f, p);
    assert!(g.conflict);
}

#[test]
fn unify_rejects_lists_of_different_lengths() {
    let mut g = TypeGraph::new();
    let n = g.build(Term::Number);
    let one = list(&mut g, &[n]);
    let two = list(&mut g, &[n, n]);
    let p = g.build(Term::Product(one));
    let q = g.build(Term::Product(two));
    g.unify(p, q);
    assert!(g.conflict);
}

#[test]
fn unify_goes_into_the_parts() {
    let mut g = TypeGraph::new();
    let a = g.fresh();
    let b = g.fresh();
    let n = g.build(Term::Number);
    let s = g.build(Term::String);
    let la = list(&mut g, &[a]);
    let ln = list(&mut g, &[n]);
    let f = g.build(Term::Function(la, b));
    let h = g.build(Term::Function(ln, s));
    g.unify(f, h);
    assert!(!g.conflict);
    assert!(g.has_type(a, &Type::Number));
    assert!(g.has_type(b, &Type::String));
    let expected = Type::function(Type::cons(Type::Number, Type::Nil), Type::String);
    assert!(g.has_type(f, &expected));
    assert!(g.has_type(h, &expected));
}

#[test]
fn a_conflict_in_the_parts_is_a_conflict() {
    let mut g = TypeGraph::new();
    let n = g.build(Term::Number);
    let s = g.build(Term::String);
    let ln = list(&mut g, &[n, n]);
    let ls = list(&mut g, &[n, s]);
    let p = g.build(Term::Product(ln));
    let q = g.build(Term::Product(ls));
    g.unify(p, q);
    assert!(g.conflict);
}

#[test]
fn unify_rejects_a_type_that_contains_itself() {
    let mut g = TypeGraph::new();
    let a = g.fresh();
    let r = g.fresh();
    let l = list(&mut g, &[a]);
    let f = g.build(Term::Function(l, r));
    assert!(g.reaches(f, a));
    assert!(!g.reaches(a, f));
    g.unify(a, f);
    assert!(g.conflict);
}

#[test]
fn unify_rejects_a_type_that_contains_itself_deep_inside() {
    let mut g = TypeGraph::new();
    let a = g.fresh();
    let n = g.build(Term::Number);
    let inner = list(&mut g, &[n, a]);
    let pair = g.build(Term::Product(inner));
    let args = list(&mut g, &[pair]);
    let f = g.build(Term::Function(args, n));
    let outer = list(&mut g, &[f, n]);
    let whole = g.build(Term::Product(outer));
    assert!(g.reaches(whole, a));
    g.unify(whole, a);
    assert!(g.conflict);
}

#[test]
fn unify_rejects_a_type_that_comes_to_contain_itself() {
    let mut g = TypeGraph::new();
    let a = g.fresh();
    let b = g.fresh();
    let la = list(&mut g, &[a]);
    let lb = list(&mut g, &[b]);
    let pa = g.build(Term::Product(la));
    let pb = g.build(Term::Product(lb));
    g.unify(a, pb);
    assert!(!g.conflict);
    g.unify(b, pa);
    assert!(g.conflict);
}

#[test]
fn a_graph_in_conflict_stays_as_it_is() {
    let mut g = TypeGraph::new();
    let n = g.build(Term::Number);
    let s = g.build(Term::String);
    let a = g.fresh();
    g.unify(n, s);
    assert!(g.conflict);
    g.unify(a, n);
    assert!(g.conflict);
    assert_eq!(g.find_const(a), a);
}

#[test]
fn find_shortens_the_way_and_keeps_the_classes() {
    let mut g = TypeGraph::new();
    let vars: Vec<Ty> = (0..8).map(|_| g.fresh()).collect();
    for pair in vars.windows(2) {
        g.unify(pair[0], pair[1]);
    }
    assert!(!g.conflict);
    let root = g.find_const(vars[0]);
    for v in &vars {
        assert_eq!(g.find(*v), root);
        assert_eq!(g.find_const(*v), root);
    }
    let n = g.build(Term::Number);
    g.unify(vars[3], n);
    for v in &vars {
        assert!(g.has_type(*v, &Type::Number));
    }
}

#[test]
fn list_of_keeps_the_order() {
    let mut g = TypeGraph::new();
    let n = g.build(Term::Number);
    let s = g.build(Term::String);
    let b = g.build(Term::Boolean);
    let l = list(&mut g, &[n, s, b]);
    let expected = Type::cons(
        Type::Number,
        Type::cons(Type::String, Type::cons(Type::Boolean, Type::Nil)),
    );
    assert!(g.has_type(l, &expected));
    let empty = list(&mut g, &[]);
    assert!(g.has_type(empty, &Type::Nil));
    assert_eq!(g.get(empty), Term::Nil);
}

#[test]
fn generalize_lists_the_variables_that_the_surroundings_do_not_hold() {
    let mut g = TypeGraph::new();
    let a = g.fresh();
    let b = g.fresh();
    let l = list(&mut g, &[a, b, a]);
    let f = g.build(Term::Function(l, b));
    let mut env = unmarked(g.terms.len());
    assert_eq!(g.generalize(f, &env), vec![a, b]);
    g.mark(a, &mut env);
    assert!(env[a.0]);
    assert!(!env[b.0]);
    assert_eq!(g.generalize(f, &env), vec![b]);
    g.mark(f, &mut env);
    assert_eq!(g.generalize(f, &env), Vec::<Ty>::new());
}

#[test]
fn generalize_names_a_class_by_its_representative() {
    let mut g = TypeGraph::new();
    let a = g.fresh();
    let b = g.fresh();
    g.unify(a, b);
    let root = g.find_const(a);
    let l = list(&mut g, &[a, b]);
    let p = g.build(Term::Product(l));
    let env = unmarked(g.terms.len());
    assert_eq!(g.generalize(p, &env), vec![root]);
}

#[test]
fn instantiate_renames_the_variables_that_may_differ() {
    let mut g = TypeGraph::new();
    let a = g.fresh();
    let b = g.fresh();
    let l = list(&mut g, &[a, b]);
    let f = g.build(Term::Function(l, a));
    let count = g.terms.len();
    let use1 = g.instantiate(f, &vec![a]);
    let fresh = Ty(count);
    let expected = Type::function(
        Type::cons(Type::Var(fresh.0), Type::cons(Type::Var(b.0), Type::Nil)),
        Type::Var(fresh.0),
    );
    assert!(g.has_type(use1, &expected));
    let n = g.build(Term::Number);
    g.unify(fresh, n);
    assert!(!g.conflict);
    assert!(g.has_type(a, &Type::Var(a.0)));
    let s = g.build(Term::String);
    let use2 = g.instantiate(f, &vec![a]);
    let ls = list(&mut g, &[s, b]);
    let h = g.build(Term::Function(ls, s));
    g.unify(use2, h);
    assert!(!g.conflict);
    assert!(g.has_type(a, &Type::Var(a.0)));
}

#[test]
fn instantiate_without_variables_is_the_type_itself() {
    let mut g = TypeGraph::new();
    let a = g.fresh();
    let l = list(&mut g, &[a]);
    let f = g.build(Term::Function(l, a));
    let count = g.terms.len();
    assert_eq!(g.instantiate(f, &Vec::new()), f);
    assert_eq!(g.terms.len(), count);
}

#[test]
fn copy_shares_the_variables_that_it_does_not_rename() {
    let mut g = TypeGraph::new();
    let a = g.fresh();
    let b = g.fresh();
    let l = list(&mut g, &[a, b]);
    let p = g.build(Term::Product(l));
    let c = g.fresh();
    let copy = g.copy(p, &vec![(a.0, c)]);
    let expected = Type::product(Type::cons(
        Type::Var(c.0),
        Type::cons(Type::Var(b.0), Type::Nil),
    ));
    assert!(g.has_type(copy, &expected));
    let n = g.build(Term::Number);
    g.unify(b, n);
    let bound = Type::product(Type::cons(Type::Var(c.0), Type::cons(Type::Number, Type::Nil)));
    assert!(g.has_type(copy, &bound));
}

#[test]
fn terms_are_told_apart_by_their_constructors() {
    assert!(is_meta(Term::MetaVar));
    assert!(!is_meta(Term::Void));
    assert!(heads_match(Term::Product(Ty(1)), Term::Product(Ty(2))));
    assert!(heads_match(Term::Function(Ty(1), Ty(2)), Term::Function(Ty(3), Ty(4))));
    assert!(heads_match(Term::Cons(Ty(1), Ty(2)), Term::Cons(Ty(3), Ty(4))));
    assert!(heads_match(Term::Nil, Term::Nil));
    assert!(!heads_match(Term::Nil, Term::Cons(Ty(3), Ty(4))));
    assert!(!heads_match(Term::Number, Term::MetaVar));
    assert!(!heads_match(Term::Product(Ty(1)), Term::Function(Ty(1), Ty(2))));
}
