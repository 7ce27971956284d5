use ts_check::check::{check_source, check_source_determined, var_has_type, Checked};
use ts_check::error::LanguageError;
use ts_check::program::Node;
use ts_check::shape::Type;

fn rejected(src: &str) -> LanguageError {
    match check_source(src) {
        Ok(_) => panic!("the source should not pass the check"),
        Err(err) => err,
    }
}

fn accepted(src: &str) -> Checked {
    match check_source(src) {
        Ok(checked) => checked,
        Err(err) => panic!("the source should pass the check: {}", err.to_string()),
    }
}

#[test]
fn scenario_duplicate_let() {
    let err = rejected("let k = 5;\nlet k = 6;");
    assert_eq!(err, LanguageError::ConflictingVariables);
    assert_eq!(err.to_string(), "Variable declared more than once");
}

#[test]
fn scenario_undeclared_variable() {
    let err = rejected("let b = 5;\na();");
    assert_eq!(err, LanguageError::UndeclaredVariable);
    assert_eq!(err.to_string(), "Usage of undeclared variable");
}

#[test]
fn scenario_conflicting_annotation() {
    let err = rejected("let b: boolean = 5;");
    assert_eq!(err, LanguageError::ConflictingTypes);
    assert_eq!(err.to_string(), "Conflicting type constraints");
}

#[test]
fn scenario_return_type_from_call_site() {
    let c = accepted("function asdf () {\n  return asdf();\n}\nlet x: number = asdf();");
    assert!(var_has_type("x", &Type::Number, &c));
    assert!(!var_has_type("x", &Type::String, &c));
}

#[test]
fn scenario_self_application() {
    let err = rejected("function foo (x) {\n    x(x);\n}");
    assert_eq!(err, LanguageError::ConflictingTypes);
}

#[test]
fn scenario_missing_semicolon() {
    let err = rejected("let k = 5");
    assert_eq!(err, LanguageError::ParseError { line: 0, column: 9 });
    assert_eq!(err.to_string(), "Syntax error at 1:10");
}

#[test]
fn an_empty_source_passes() {
    accepted("");
    accepted("   \n\n  ");
    accepted("// nothing but a comment\n");
}

#[test]
fn a_comment_hides_what_follows_it_on_its_line() {
    accepted("let a = 1; // let a = 2;\n");
    let err = rejected("let a = 1;\n// fine\nlet a = 2; // twice\n");
    assert_eq!(err, LanguageError::ConflictingVariables);
}

#[test]
fn the_position_of_a_syntax_error_is_that_in_the_source_with_comments() {
    let err = rejected("let a = 1; // one\nlet b = ; // two\n");
    assert_eq!(err.to_string(), "Syntax error at 2:9");
}

#[test]
fn a_byte_that_begins_no_token_is_a_syntax_error_where_it_stands() {
    assert_eq!(rejected("let a = 1;\nlet b = #;").to_string(), "Syntax error at 2:9");
    assert_eq!(rejected("@").to_string(), "Syntax error at 1:1");
    assert_eq!(rejected("let a = 1; $").to_string(), "Syntax error at 1:12");
}

#[test]
fn a_syntax_error_before_a_bad_byte_comes_first() {
    assert_eq!(rejected("let = 1; #").to_string(), "Syntax error at 1:5");
}

#[test]
fn a_text_that_ends_early_fails_at_the_end_of_its_last_token() {
    assert_eq!(rejected("let a = 1;\nlet b = 2\n\n\n").to_string(), "Syntax error at 2:10");
    assert_eq!(rejected("function f() {").to_string(), "Syntax error at 1:15");
}

#[test]
fn a_duplicate_declaration_comes_before_an_undeclared_variable() {
    let err = rejected("a();\nlet k = 1;\nlet k = 2;");
    assert_eq!(err, LanguageError::ConflictingVariables);
}

#[test]
fn an_undeclared_variable_comes_before_conflicting_types() {
    let err = rejected("let k: boolean = 1;\na();");
    assert_eq!(err, LanguageError::UndeclaredVariable);
}

#[test]
fn a_duplicate_declaration_comes_before_conflicting_types() {
    let err = rejected("let k: boolean = 1;\nlet k = 2;");
    assert_eq!(err, LanguageError::ConflictingVariables);
}

#[test]
fn a_name_is_not_visible_before_its_declaration() {
    assert_eq!(rejected("let a = b;\nlet b = 1;"), LanguageError::UndeclaredVariable);
    assert_eq!(rejected("let a = a;"), LanguageError::UndeclaredVariable);
    assert_eq!(rejected("f();\nfunction f() {}"), LanguageError::UndeclaredVariable);
}

#[test]
fn a_declaration_in_a_block_does_not_leak_out() {
    assert_eq!(
        rejected("if (true) { let k = 1; } else { }\nlet m = k;"),
        LanguageError::UndeclaredVariable
    );
    assert_eq!(
        rejected("function f(x) { }\nlet m = x;"),
        LanguageError::UndeclaredVariable
    );
    assert_eq!(
        rejected("(function g() {})();\ng();"),
        LanguageError::UndeclaredVariable
    );
}

#[test]
fn sibling_scopes_never_conflict() {
    accepted("if (true) { let k = 1; } else { let k = 2; }");
    accepted("function f() { let k = 1; }\nfunction g() { let k = 'a'; }");
    accepted("function f(k) { }\nfunction g(k) { }");
    accepted("while (true) { let k = 1; }\nwhile (false) { let k = 2; }");
}

#[test]
fn a_later_declaration_in_an_outer_scope_does_not_conflict() {
    accepted("function f() { let k = 1; }\nlet k = 2;");
    accepted("if (true) { let k = 1; } else { }\nlet k = 2;");
}

#[test]
fn a_declaration_conflicts_with_one_in_any_ancestor() {
    for src in [
        "let k = 1;\nif (true) { let k = 2; } else { }",
        "let k = 1;\nif (true) { } else { let k = 2; }",
        "let k = 1;\nwhile (true) { if (true) { while (true) { let k = 2; } } else { } }",
        "function k() { }\nfunction f() { function g() { function k() { } } }",
        "function f(k) { function g(k) { } }",
    ] {
        assert_eq!(rejected(src), LanguageError::ConflictingVariables, "{}", src);
    }
}

#[test]
fn every_variable_of_a_checked_module_has_its_declaration() {
    let c = accepted(
        "let a = 1;\nfunction f(x, y) {\n  let b = x;\n  if (a == b) { return y; } else { return f(a, y); }\n}\nlet z = f(a, 'q');",
    );
    let mut variables = 0;
    for i in 0..c.program.len() {
        if let Node::VariableExpr(name) = c.program.node(i) {
            variables += 1;
            let var = c.types.bindings[i].expect("a variable of a checked module is bound");
            assert!(var.0 < c.types.scopes.vars.len());
            assert_eq!(c.types.scopes.vars[var.0].0, name);
        } else {
            assert!(c.types.bindings[i].is_none());
        }
    }
    assert_eq!(variables, 9);
}

#[test]
fn uses_of_one_name_in_sibling_scopes_have_different_declarations() {
    let c = accepted("function f(k) { return k; }\nfunction g(k) { return k; }");
    let mut found = Vec::new();
    for i in 0..c.program.len() {
        if let Node::VariableExpr(_) = c.program.node(i) {
            found.push(c.types.bindings[i].unwrap());
        }
    }
    assert_eq!(found.len(), 2);
    assert_ne!(found[0], found[1]);
}

#[test]
fn two_uses_of_a_recursive_function_may_have_different_types() {
    let c = accepted(
        "function pick(x) {\n  return pick(x);\n}\nlet n: number = pick(1);\nlet s: string = pick('one');\nlet b: boolean = pick(());",
    );
    assert!(var_has_type("n", &Type::Number, &c));
    assert!(var_has_type("s", &Type::String, &c));
    assert!(var_has_type("b", &Type::Boolean, &c));
    assert!(!var_has_type("n", &Type::String, &c));
}

#[test]
fn a_function_is_of_one_type_within_its_own_body() {
    let err = rejected("function f(x) {\n  f(1);\n  f('one');\n}");
    assert_eq!(err, LanguageError::ConflictingTypes);
}

#[test]
fn an_argument_is_of_one_type() {
    let err = rejected("function f(g) {\n  g(1);\n  g('one');\n}");
    assert_eq!(err, LanguageError::ConflictingTypes);
}

#[test]
fn a_let_is_of_one_type() {
    let err = rejected(
        "function id(x) { return x; }\nlet same = id;\nlet n: number = same(1);\nlet s: string = same('one');",
    );
    assert_eq!(err, LanguageError::ConflictingTypes);
}

#[test]
fn a_function_may_be_used_at_many_types() {
    let c = accepted(
        "function id(x) { return x; }\nlet n = id(1);\nlet s = id('one');\nlet f = id(id);",
    );
    assert!(var_has_type("n", &Type::Number, &c));
    assert!(var_has_type("s", &Type::String, &c));
}

#[test]
fn a_body_that_can_end_returns_nothing() {
    let c = accepted("function f() { }\nlet v = f();");
    assert!(var_has_type("v", &Type::Void, &c));
    let c = accepted("function f(c) { while (c) { return; } }\nlet v = f(true);");
    assert!(var_has_type("v", &Type::Void, &c));
    assert_eq!(
        rejected("function f(c) { while (c) { return 1; } }"),
        LanguageError::ConflictingTypes
    );
    assert_eq!(rejected("function f(): number { }"), LanguageError::ConflictingTypes);
}

#[test]
fn a_body_that_cannot_end_returns_what_it_returns() {
    let c = accepted(
        "function f(c) { if (c) { return 1; } else { return 2; } }\nlet v = f(true);",
    );
    assert!(var_has_type("v", &Type::Number, &c));
}

#[test]
fn a_return_without_value_returns_nothing() {
    let c = accepted("function f() { return; }\nlet v = f();");
    assert!(var_has_type("v", &Type::Void, &c));
    assert_eq!(
        rejected("function f(): number { return; }"),
        LanguageError::ConflictingTypes
    );
}

#[test]
fn annotations_of_arguments_and_results_are_kept() {
    let c = accepted(
        "function f(n: number, s: string): boolean { return n == 1; }\nlet b = f(1, 'one');",
    );
    assert!(var_has_type("b", &Type::Boolean, &c));
    assert!(var_has_type("n", &Type::Number, &c));
    assert!(var_has_type("s", &Type::String, &c));
    let domain = Type::cons(Type::Number, Type::cons(Type::String, Type::Nil));
    assert!(var_has_type("f", &Type::function(domain, Type::Boolean), &c));
    assert_eq!(
        rejected("function f(n: number) { }\nf('one');"),
        LanguageError::ConflictingTypes
    );
    assert_eq!(
        rejected("function f(n: number): string { return n; }"),
        LanguageError::ConflictingTypes
    );
}

#[test]
fn the_number_of_arguments_is_part_of_the_type() {
    assert_eq!(rejected("function f(a) { }\nf();"), LanguageError::ConflictingTypes);
    assert_eq!(rejected("function f() { }\nf(1);"), LanguageError::ConflictingTypes);
    assert_eq!(rejected("function f(a, b) { }\nf(1);"), LanguageError::ConflictingTypes);
    accepted("function f(a, b) { }\nf(1, 'one');");
}

#[test]
fn function_types_are_written_with_an_arrow() {
    let c = accepted(
        "function twice(f: (x: number) => number, n: number) { return f(f(n)); }\nfunction inc(n: number) { return n; }\nlet r = twice(inc, 1);",
    );
    assert!(var_has_type("r", &Type::Number, &c));
    let arg = Type::function(Type::cons(Type::Number, Type::Nil), Type::Number);
    assert!(var_has_type("f", &arg, &c));
    assert_eq!(
        rejected("function g(f: () => number) { }\ng(1);"),
        LanguageError::ConflictingTypes
    );
}

#[test]
fn tuples_have_product_types() {
    let c = accepted("let t = (1, 'one', true);\nlet u: (number, string) = (2, 'two');");
    let members = Type::cons(
        Type::Number,
        Type::cons(Type::String, Type::cons(Type::Boolean, Type::Nil)),
    );
    assert!(var_has_type("t", &Type::product(members), &c));
    let pair = Type::cons(Type::Number, Type::cons(Type::String, Type::Nil));
    assert!(var_has_type("u", &Type::product(pair), &c));
    assert_eq!(
        rejected("let u: (number, string) = (2, 3);"),
        LanguageError::ConflictingTypes
    );
    assert_eq!(
        rejected("let u: (number, string) = (2, 'two', 3);"),
        LanguageError::ConflictingTypes
    );
}

#[test]
fn parentheses_group() {
    let c = accepted("let n = (1);\nlet m: (number) = ((n));");
    assert!(var_has_type("n", &Type::Number, &c));
    assert!(var_has_type("m", &Type::Number, &c));
}

#[test]
fn an_equation_is_a_boolean_between_values_of_one_type() {
    let c = accepted("let a = 'x' == 'y';\nfunction f(p, q) { return p == q; }");
    assert!(var_has_type("a", &Type::Boolean, &c));
    assert_eq!(rejected("let a = () == 1;"), LanguageError::ConflictingTypes);
    assert_eq!(
        rejected("function f(p, q) { return p == q; }\nf(1, 'one');"),
        LanguageError::ConflictingTypes
    );
}

#[test]
fn a_type_that_contains_itself_is_a_conflict_at_any_depth() {
    for src in [
        "function f(x) { x(x); }",
        "function f(x) { x(1, x); }",
        "function f(x) { x((1, x)); }",
        "function f(x) { let y = (x, 1); x == y; }",
        "function f(x) { let y = ((1, (2, x)), 3); x == y; }",
        "function f(x) { return x(f); }",
    ] {
        assert_eq!(rejected(src), LanguageError::ConflictingTypes, "{}", src);
    }
}

#[test]
fn a_type_left_open_is_no_error() {
    let c = accepted("function f(x) { }");
    assert!(!var_has_type("x", &Type::Number, &c));
}

#[test]
fn a_name_that_was_never_written_has_no_type() {
    let c = accepted("let a = 1;");
    assert!(!var_has_type("b", &Type::Number, &c));
    assert!(var_has_type("a", &Type::Number, &c));
}

#[test]
fn reserved_words_are_no_names() {
    for src in [
        "let let = 1;",
        "let number = 1;",
        "let void = 1;",
        "let function = 1;",
        "let true = 1;",
    ] {
        assert_eq!(rejected(src).to_string(), "Syntax error at 1:5", "{}", src);
    }
    accepted("let lets = 1;\nlet number1 = 2;\nlet _if = 3;");
}

#[test]
fn a_type_left_open_can_be_made_an_error() {
    assert!(check_source_determined("let a = 1;\nlet b = (a, 'one') == (2, 'two');").is_ok());
    assert!(check_source_determined("function f(n: number): number { return f(n); }").is_ok());
    for src in ["function f(x) { }", "function f() { return f(); }"] {
        assert!(check_source(src).is_ok());
        match check_source_determined(src) {
            Err(err) => {
                assert_eq!(err, LanguageError::UndeterminedType);
                assert_eq!(err.to_string(), "Undetermined type");
            }
            Ok(_) => panic!("a type of {:?} is left open", src),
        }
    }
    match check_source_determined("let a: string = 1;") {
        Err(err) => assert_eq!(err, LanguageError::ConflictingTypes),
        Ok(_) => panic!("a number is no string"),
    }
}

#[test]
fn a_return_outside_a_function_has_only_to_be_well_typed() {
    accepted("return 1;\nreturn 'one';\nreturn;");
    accepted("let a = 1;\nif (a == 1) { return a; } else { }");
    assert_eq!(rejected("return 1 == 'one';"), LanguageError::ConflictingTypes);
    assert_eq!(rejected("return a;"), LanguageError::UndeclaredVariable);
}

#[test]
fn a_syntax_error_after_a_character_of_two_bytes_is_counted_in_bytes() {
    let err = rejected("let s = 'é' 'x';");
    assert_eq!(err.to_string(), "Syntax error at 1:14");
}

#[test]
fn a_character_that_begins_no_token_is_a_syntax_error_where_it_begins() {
    let err = rejected("let k = 5;\n  é");
    assert_eq!(err.to_string(), "Syntax error at 2:3");
}

#[test]
fn names_in_the_arms_of_an_if_do_not_conflict_and_the_text_passes() {
    accepted("if (true) {\n  let k = 1;\n} else {\n  let k = 2;\n}");
}

#[test]
fn a_function_with_two_arguments_without_annotations_takes_two_types() {
    accepted("function pair(x, y) {\n  return x;\n}\nlet a: number = pair(1, 'one');");
}
