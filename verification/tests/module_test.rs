use ts_check::check::{check_module, var_has_type};
use ts_check::error::LanguageError;
use ts_check::grammar_util::{
    arg_list_node, expr_list_node, opt_type_node, stmt_list_node, Literals,
};
use ts_check::program::{ExprNode, ModuleNode, Node, Program, StmtNode, TypeNode};
use ts_check::shape::Type;

/// `declare f(x: number): string` and `let r = f(argument)`, as a syntax tree.
fn declared_and_called(lits: &mut Literals, argument: Node) -> (Program, ModuleNode) {
    let mut p = Program::new();
    let f = lits.name(b"f");
    let x = lits.name(b"x");
    let r = lits.name(b"r");
    let number = TypeNode(p.add(Node::NumberType));
    let x_type = opt_type_node(Some(number), &mut p);
    let args = arg_list_node(&[(x, x_type)], &mut p);
    let string = TypeNode(p.add(Node::StringType));
    let result = opt_type_node(Some(string), &mut p);
    let decl = StmtNode(p.add(Node::FunctionDeclStmt(f, args, result)));
    let callee = ExprNode(p.add(Node::VariableExpr(f)));
    let value = ExprNode(p.add(argument));
    let values = expr_list_node(&[value], &mut p);
    let call = ExprNode(p.add(Node::AppExpr(callee, values)));
    let none = opt_type_node(None, &mut p);
    let bind = StmtNode(p.add(Node::LetStmt(r, none, call)));
    let body = stmt_list_node(&[decl, bind], &mut p);
    let module = ModuleNode(p.add(Node::Module(body)));
    (p, module)
}

#[test]
fn a_declared_function_has_the_type_that_is_written() {
    let mut lits = Literals::new();
    let one = lits.number(b"1");
    let (p, module) = declared_and_called(&mut lits, Node::NumberLiteralExpr(one));
    let c = match check_module(p, lits, module) {
        Ok(c) => c,
        Err(err) => panic!("the module should pass: {}", err.to_string()),
    };
    assert!(var_has_type("r", &Type::String, &c));
    let domain = Type::cons(Type::Number, Type::Nil);
    assert!(var_has_type("f", &Type::function(domain, Type::String), &c));
    assert!(!var_has_type("x", &Type::Number, &c));
}

#[test]
fn a_declared_function_takes_what_is_written() {
    let mut lits = Literals::new();
    let (p, module) = declared_and_called(&mut lits, Node::TrueExpr);
    match check_module(p, lits, module) {
        Err(err) => assert_eq!(err, LanguageError::ConflictingTypes),
        Ok(_) => panic!("a boolean is no number"),
    }
}

#[test]
fn a_function_may_be_declared_once() {
    let mut p = Program::new();
    let mut lits = Literals::new();
    let f = lits.name(b"f");
    let mut stmts = Vec::new();
    for _ in 0..2 {
        let args = arg_list_node(&[], &mut p);
        let result = opt_type_node(None, &mut p);
        stmts.push(StmtNode(p.add(Node::FunctionDeclStmt(f, args, result))));
    }
    let body = stmt_list_node(&stmts, &mut p);
    let module = ModuleNode(p.add(Node::Module(body)));
    match check_module(p, lits, module) {
        Err(err) => assert_eq!(err, LanguageError::ConflictingVariables),
        Ok(_) => panic!("the name is declared twice"),
    }
}

#[test]
fn a_declared_function_without_annotations_may_be_used_at_many_types() {
    let mut p = Program::new();
    let mut lits = Literals::new();
    let f = lits.name(b"f");
    let x = lits.name(b"x");
    let a = lits.name(b"a");
    let b = lits.name(b"b");
    let one = lits.number(b"1");
    let none = opt_type_node(None, &mut p);
    let args = arg_list_node(&[(x, none)], &mut p);
    let result = opt_type_node(None, &mut p);
    let decl = StmtNode(p.add(Node::FunctionDeclStmt(f, args, result)));
    let mut stmts = vec![decl];
    for (name, argument, annotation) in [
        (a, Node::NumberLiteralExpr(one), Node::StringType),
        (b, Node::TrueExpr, Node::NumberType),
    ] {
        let callee = ExprNode(p.add(Node::VariableExpr(f)));
        let value = ExprNode(p.add(argument));
        let values = expr_list_node(&[value], &mut p);
        let call = ExprNode(p.add(Node::AppExpr(callee, values)));
        let ty = TypeNode(p.add(annotation));
        let written = opt_type_node(Some(ty), &mut p);
        stmts.push(StmtNode(p.add(Node::LetStmt(name, written, call))));
    }
    let body = stmt_list_node(&stmts, &mut p);
    let module = ModuleNode(p.add(Node::Module(body)));
    let c = match check_module(p, lits, module) {
        Ok(c) => c,
        Err(err) => panic!("the module should pass: {}", err.to_string()),
    };
    assert!(var_has_type("a", &Type::String, &c));
    assert!(var_has_type("b", &Type::Number, &c));
}
