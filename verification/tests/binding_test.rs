use ts_check::check::check_source;
use ts_check::error::LanguageError;

fn failure(src: &str) -> LanguageError {
    match check_source(src) {
        Ok(_) => panic!("the source should not pass the check"),
        Err(err) => err,
    }
}

#[test]
fn bad_undeclared_variable() {
    let err = failure("let b = 5;\na();\n");
    assert_eq!(&err.to_string(), "Usage of undeclared variable");
}

#[test]
fn bad_duplicate_let_let() {
    let err = failure("let k = 5;\nlet k = 6;\n");
    assert_eq!(&err.to_string(), "Variable declared more than once");
}

#[test]
fn bad_duplicate_function_function() {
    let err = failure("function k () {}\nfunction k () {}\n");
    assert_eq!(&err.to_string(), "Variable declared more than once");
}

#[test]
fn bad_duplicate_let_function() {
    let err = failure("let k = 5;\nfunction k () {}\n");
    assert_eq!(&err.to_string(), "Variable declared more than once");
}

#[test]
fn bad_duplicate_function_let() {
    let err = failure("function k () {}\nlet k = 5;\n");
    assert_eq!(&err.to_string(), "Variable declared more than once");
}

#[test]
fn bad_duplicate_let_function_arg() {
    let err = failure("let k = 5;\nfunction asdf (k: number) {}\n");
    assert_eq!(&err.to_string(), "Variable declared more than once");
}

#[test]
fn bad_duplicate_function_name_arg() {
    let err = failure("function k (k: number) {}\n");
    assert_eq!(&err.to_string(), "Variable declared more than once");
}

#[test]
fn bad_duplicate_function_arg_arg() {
    let err = failure("function asdf (k: number, k: number) {}\n");
    assert_eq!(&err.to_string(), "Variable declared more than once");
}

#[test]
fn bad_duplicate_ambient_function_local() {
    let err = failure("let k = 5;\nfunction asdf () {\n    let k = 6;\n}\n");
    assert_eq!(&err.to_string(), "Variable declared more than once");
}

#[test]
fn bad_duplicate_function_name_local() {
    let err = failure("function k () {\n    let k = 6;\n}\n");
    assert_eq!(&err.to_string(), "Variable declared more than once");
}

#[test]
fn bad_duplicate_function_arg_local() {
    let err = failure("function asdf (k: number) {\n    let k = 6;\n}\n");
    assert_eq!(&err.to_string(), "Variable declared more than once");
}

#[test]
fn bad_duplicate_nested_if_true() {
    let err = failure("function asdf () {\n    let k = 5;\n    if (true) {\n        let k = 3;\n    } else {\n    }\n}\n");
    assert_eq!(&err.to_string(), "Variable declared more than once");
}

#[test]
fn bad_duplicate_nested_if_false() {
    let err = failure("function asdf () {\n    let k = 5;\n    if (true) {\n    } else {\n        let k = 3;\n    }\n}\n");
    assert_eq!(&err.to_string(), "Variable declared more than once");
}

#[test]
fn bad_duplicate_nested_while() {
    let err = failure("function asdf () {\n    let k = 5;\n    while (true) {\n        let k = 3;\n    }\n}\n");
    assert_eq!(&err.to_string(), "Variable declared more than once");
}

#[test]
fn bad_duplicate_nested_function_expr_name() {
    let err = failure("function asdf () {\n    let k = 5;\n    (function k () {})();\n}\n");
    assert_eq!(&err.to_string(), "Variable declared more than once");
}

#[test]
fn bad_duplicate_nested_function_expr_arg() {
    let err = failure("function asdf () {\n    let k = 5;\n    (function xyz (k: number) {})(k);\n}\n");
    assert_eq!(&err.to_string(), "Variable declared more than once");
}

#[test]
fn bad_duplicate_nested_function_expr_body() {
    let err = failure("function asdf () {\n    let k = 5;\n    (function xyz () {\n        let k = 6; \n    })();\n}\n");
    assert_eq!(&err.to_string(), "Variable declared more than once");
}

#[test]
fn bad_duplicate_deeply_nested() {
    let err = failure("let k = 5;\nfunction asdf () {\n    while (true) {\n        function xyz() {\n            if (false) {\n                let k = 6;\n            } else {\n            }\n        }\n    }\n}\n");
    assert_eq!(&err.to_string(), "Variable declared more than once");
}
