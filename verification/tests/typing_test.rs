use ts_check::check::{check_source, var_has_type, Checked};
use ts_check::error::LanguageError;
use ts_check::shape::Type;

fn failure(src: &str) -> LanguageError {
    match check_source(src) {
        Ok(_) => panic!("the source should not pass the check"),
        Err(err) => err,
    }
}

fn checked(src: &str) -> Checked {
    match check_source(src) {
        Ok(checked) => checked,
        Err(err) => panic!("the source should pass the check: {}", err.to_string()),
    }
}

#[test]
fn void_literal() {
    let c = checked("let b = ();\n");
    let void_type = Type::Void;
    assert!(var_has_type("b", &void_type, &c));
}

#[test]
fn number_literal() {
    let c = checked("let b = 5;\n");
    let number_type = Type::Number;
    assert!(var_has_type("b", &number_type, &c));
}

#[test]
fn string_literal() {
    let c = checked("let b = 'xyz';\n");
    let string_type = Type::String;
    assert!(var_has_type("b", &string_type, &c));
}

#[test]
fn boolean_true() {
    let c = checked("let b = true;\n");
    let boolean_type = Type::Boolean;
    assert!(var_has_type("b", &boolean_type, &c));
}

#[test]
fn boolean_false() {
    let c = checked("let b = false;\n");
    let boolean_type = Type::Boolean;
    assert!(var_has_type("b", &boolean_type, &c));
}

#[test]
fn bad_let_boolean_number_expr() {
    let err = failure("let b: boolean = 5;\n");
    assert_eq!(&err.to_string(), "Conflicting type constraints");
}

#[test]
fn bad_let_number_string_expr() {
    let err = failure("let b: number = 'xyz';\n");
    assert_eq!(&err.to_string(), "Conflicting type constraints");
}

#[test]
fn let_variable_variable() {
    let c = checked("let a = 4;\nlet b = a;\n");
    let number_type = Type::Number;
    assert!(var_has_type("b", &number_type, &c));
}

#[test]
fn if_cond() {
    let c = checked("function xyz (a) {\n    if (a) {\n    } else {\n    }\n};\n");
    let boolean_type = Type::Boolean;
    assert!(var_has_type("a", &boolean_type, &c));
}

#[test]
fn while_cond() {
    let c = checked("function xyz (a) {\n    while (a) {}\n};\n");
    let boolean_type = Type::Boolean;
    assert!(var_has_type("a", &boolean_type, &c));
}

#[test]
fn equals_expr_type() {
    let c = checked("let a = 5 == 5;\n");
    let boolean_type = Type::Boolean;
    assert!(var_has_type("a", &boolean_type, &c));
}

#[test]
fn bad_equals_arg_types() {
    let err = failure("let a = 5 == 'xyz';\n");
    assert_eq!(&err.to_string(), "Conflicting type constraints");
}

#[test]
fn app_dom_cod_to_func() {
    let c = checked("function xyz (a) {\n    let b: boolean = a('asdf', 123);\n};\n");
    let number_type = Type::Number;
    let string_type = Type::String;
    let boolean_type = Type::Boolean;
    let dom = Type::cons(string_type, Type::cons(number_type, Type::Nil));
    let func_type = Type::function(dom, boolean_type);
    assert!(var_has_type("a", &func_type, &c));
}

#[test]
fn app_func_to_dom_cod() {
    let c = checked("function xyz (a, b, c) {\n    let d: boolean = a('asdf', 123);\n    let e = a(b, c);\n};\n");
    let number_type = Type::Number;
    let string_type = Type::String;
    let boolean_type = Type::Boolean;

    assert!(var_has_type("b", &string_type, &c));
    assert!(var_has_type("c", &number_type, &c));
    assert!(var_has_type("e", &boolean_type, &c));
}

#[test]
fn determined_return_type_by_call_site() {
    let c = checked("function asdf () {\n  return asdf();\n}\nlet x: number = asdf();\n");
    let number_type = Type::Number;
    assert!(var_has_type("x", &number_type, &c));
}

#[test]
fn bad_conflicting_return_types() {
    let err = failure("function asdf (cond) {\n  if (cond) {\n    return 'asdf';\n  } else {\n    return 5;\n  }\n}\n");
    assert_eq!(&err.to_string(), "Conflicting type constraints");
}

#[test]
fn bad_conflicting_return_types_implicit() {
    let err = failure("function asdf (cond) {\n  if (cond) {\n    return 'asdf';\n  } else {\n  }\n}\n");
    assert_eq!(&err.to_string(), "Conflicting type constraints");
}

#[test]
fn bad_non_well_founded_type() {
    let err = failure("function foo (x) {\n    x(x);\n}\n");
    assert_eq!(&err.to_string(), "Conflicting type constraints");
}

#[test]
fn bad_type_usage_function() {
    let err = failure("let x: number = 5;\nfunction foo() {\n    let y: string = x;\n}\n");
    assert_eq!(&err.to_string(), "Conflicting type constraints");
}

#[test]
fn bad_nested_function_in_equals() {
    // If we forget to propagate type contexts into lhs and rhs of an == expression, then the type
    // of baz will be `forall b. () => b`, since the type `a` of `x` will not be in the type
    // context of `bar`. Thus, `foo` will have type `forall a b. (a, b) => void` when it should
    // actually have type `forall a. (a, a) => void`.
    let err = failure("function foo (x, y) {\n    y ==\n        (function bar() {\n            function baz() {\n                return x;\n            }\n            return baz();\n        })();\n}\nfoo(1, 'xyz');\n");
    assert_eq!(&err.to_string(), "Conflicting type constraints");
}
