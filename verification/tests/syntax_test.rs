use ts_check::error::ParseFailure;
use ts_check::grammar::ModuleParser;
use ts_check::grammar_util::{
    arg_list_node, expr_list_node, intern, opt_type_node, position, same_bytes, stmt_list_node,
    type_list_node, Literals,
};
use ts_check::lexer::{tokenize, text_is, Token, TokenKind};
use ts_check::program::{
    ArgListNode, ExprListNode, ExprNode, ModuleNode, Name, Node, OptTypeNode, Program,
    StmtListNode, StmtNode, TypeListNode, TypeNode,
};
use ts_check::type_check::{can_proceed_stmt, can_proceed_stmts};

fn kinds(src: &str) -> Vec<TokenKind> {
    let (tokens, invalid) = tokenize(src.as_bytes());
    assert_eq!(invalid, None);
    tokens.iter().map(|t| t.kind).collect()
}

fn parse(src: &str) -> (Program, Literals, ModuleNode) {
    let mut p = Program::new();
    let mut lits = Literals::new();
    let m = ModuleParser::new().parse(&mut p, &mut lits, src).expect("the source should parse");
    (p, lits, m)
}

fn failure(src: &str) -> ParseFailure {
    let mut p = Program::new();
    let mut lits = Literals::new();
    ModuleParser::new().parse(&mut p, &mut lits, src).expect_err("the source should not parse")
}

fn statements(p: &Program, list: StmtListNode) -> Vec<StmtNode> {
    let mut out = Vec::new();
    let mut cur = list;
    while let Node::ConsStmtList(head, tail) = p.node(cur.0) {
        out.push(head);
        cur = tail;
    }
    assert_eq!(p.node(cur.0), Node::NilStmtList);
    out
}

fn expressions(p: &Program, list: ExprListNode) -> Vec<ExprNode> {
    let mut out = Vec::new();
    let mut cur = list;
    while let Node::ConsExprList(head, tail) = p.node(cur.0) {
        out.push(head);
        cur = tail;
    }
    assert_eq!(p.node(cur.0), Node::NilExprList);
    out
}

fn module_statements(p: &Program, m: ModuleNode) -> Vec<StmtNode> {
    match p.node(m.0) {
        Node::Module(body) => statements(p, body),
        other => panic!("not a module: {:?}", other),
    }
}

#[test]
fn tokenize_tells_words_from_names() {
    assert_eq!(
        kinds("let function return if else while true false void boolean number string"),
        vec![
            TokenKind::Let,
            TokenKind::Function,
            TokenKind::Return,
            TokenKind::If,
            TokenKind::Else,
            TokenKind::While,
            TokenKind::True,
            TokenKind::False,
            TokenKind::Void,
            TokenKind::Boolean,
            TokenKind::NumberType,
            TokenKind::StringType,
        ]
    );
    assert_eq!(
        kinds("lets iff _ a1 Function"),
        vec![TokenKind::Ident; 5]
    );
}

#[test]
fn tokenize_takes_the_longest_token() {
    assert_eq!(
        kinds("a==b=c=>d"),
        vec![
            TokenKind::Ident,
            TokenKind::Equals,
            TokenKind::Ident,
            TokenKind::Assign,
            TokenKind::Ident,
            TokenKind::Arrow,
            TokenKind::Ident,
        ]
    );
    assert_eq!(kinds("53x"), vec![TokenKind::Number, TokenKind::Ident]);
    assert_eq!(kinds("x53"), vec![TokenKind::Ident]);
    assert_eq!(
        kinds("(){},;:"),
        vec![
            TokenKind::LeftParen,
            TokenKind::RightParen,
            TokenKind::LeftBrace,
            TokenKind::RightBrace,
            TokenKind::Comma,
            TokenKind::Semicolon,
            TokenKind::Colon,
        ]
    );
}

#[test]
fn tokenize_gives_each_token_its_place() {
    let (tokens, invalid) = tokenize(b"let  k\n= 'a b';");
    assert_eq!(invalid, None);
    assert_eq!(
        tokens,
        vec![
            Token { kind: TokenKind::Let, start: 0, end: 3 },
            Token { kind: TokenKind::Ident, start: 5, end: 6 },
            Token { kind: TokenKind::Assign, start: 7, end: 8 },
            Token { kind: TokenKind::Str, start: 9, end: 14 },
            Token { kind: TokenKind::Semicolon, start: 14, end: 15 },
        ]
    );
}

#[test]
fn tokenize_stops_where_no_token_begins() {
    let (tokens, invalid) = tokenize(b"let k = 'open");
    assert_eq!(tokens.len(), 3);
    assert_eq!(invalid, Some(8));
    let (tokens, invalid) = tokenize(b"a - b");
    assert_eq!(tokens.len(), 1);
    assert_eq!(invalid, Some(2));
    let (tokens, invalid) = tokenize(b"  \t\r\n ");
    assert!(tokens.is_empty());
    assert_eq!(invalid, None);
}

#[test]
fn text_is_compares_a_part_of_the_text() {
    let text = b"let lets";
    assert!(text_is(text, 0, 3, &b"let".to_vec()));
    assert!(text_is(text, 4, 7, &b"let".to_vec()));
    assert!(!text_is(text, 4, 8, &b"let".to_vec()));
    assert!(!text_is(text, 0, 3, &b"lat".to_vec()));
    assert!(text_is(text, 2, 2, &Vec::new()));
}

#[test]
fn failures_say_what_went_wrong() {
    assert_eq!(failure("let k = 5"), ParseFailure::UnrecognizedEof { location: 9 });
    assert_eq!(failure("let k = ;"), ParseFailure::UnrecognizedToken { location: 8 });
    assert_eq!(failure("let k = #;"), ParseFailure::InvalidToken { location: 8 });
    assert_eq!(failure("let k = 1; }"), ParseFailure::UnrecognizedToken { location: 11 });
    assert_eq!(failure("("), ParseFailure::UnrecognizedEof { location: 1 });
}

#[test]
fn a_module_is_its_statements_in_their_order() {
    let (p, lits, m) = parse("let a = 1;\nreturn;\nreturn a;\na;\nwhile (a) { }");
    let stmts = module_statements(&p, m);
    assert_eq!(stmts.len(), 5);
    let a = lits.find_name(b"a").unwrap();
    match p.node(stmts[0].0) {
        Node::LetStmt(name, annotation, value) => {
            assert_eq!(name, a);
            assert_eq!(p.node(annotation.0), Node::NoneOptType);
            assert!(matches!(p.node(value.0), Node::NumberLiteralExpr(_)));
        }
        other => panic!("not a let: {:?}", other),
    }
    assert_eq!(p.node(stmts[1].0), Node::ReturnVoidStmt);
    match p.node(stmts[2].0) {
        Node::ReturnStmt(value) => assert_eq!(p.node(value.0), Node::VariableExpr(a)),
        other => panic!("not a return: {:?}", other),
    }
    assert!(matches!(p.node(stmts[3].0), Node::ExprStmt(_)));
    match p.node(stmts[4].0) {
        Node::WhileStmt(cond, body) => {
            assert_eq!(p.node(cond.0), Node::VariableExpr(a));
            assert!(statements(&p, body).is_empty());
        }
        other => panic!("not a while: {:?}", other),
    }
}

#[test]
fn a_function_that_a_semicolon_follows_is_an_expression() {
    let (p, _, m) = parse("function f() { }\nfunction g() { };");
    let stmts = module_statements(&p, m);
    assert_eq!(stmts.len(), 2);
    assert!(matches!(p.node(stmts[0].0), Node::FunctionStmt(_)));
    match p.node(stmts[1].0) {
        Node::ExprStmt(e) => assert!(matches!(p.node(e.0), Node::FunctionExpr(_))),
        other => panic!("not an expression statement: {:?}", other),
    }
}

#[test]
fn applications_nest_to_the_left() {
    let (p, lits, m) = parse("f(1)(2, 3)();");
    let stmts = module_statements(&p, m);
    let Node::ExprStmt(e) = p.node(stmts[0].0) else { panic!() };
    let Node::AppExpr(second, no_args) = p.node(e.0) else { panic!() };
    assert!(expressions(&p, no_args).is_empty());
    let Node::AppExpr(first, two_args) = p.node(second.0) else { panic!() };
    assert_eq!(expressions(&p, two_args).len(), 2);
    let Node::AppExpr(callee, one_arg) = p.node(first.0) else { panic!() };
    assert_eq!(expressions(&p, one_arg).len(), 1);
    assert_eq!(p.node(callee.0), Node::VariableExpr(lits.find_name(b"f").unwrap()));
}

#[test]
fn parentheses_make_void_groups_and_tuples() {
    let (p, _, m) = parse("();\n(1);\n(1, 2);\n((1, 2), ());");
    let stmts = module_statements(&p, m);
    let exprs: Vec<Node> = stmts
        .iter()
        .map(|s| match p.node(s.0) {
            Node::ExprStmt(e) => p.node(e.0),
            other => panic!("not an expression statement: {:?}", other),
        })
        .collect();
    assert_eq!(exprs[0], Node::VoidExpr);
    assert!(matches!(exprs[1], Node::NumberLiteralExpr(_)));
    let Node::TupleExpr(pair) = exprs[2] else { panic!() };
    assert_eq!(expressions(&p, pair).len(), 2);
    let Node::TupleExpr(outer) = exprs[3] else { panic!() };
    let members = expressions(&p, outer);
    assert!(matches!(p.node(members[0].0), Node::TupleExpr(_)));
    assert_eq!(p.node(members[1].0), Node::VoidExpr);
}

#[test]
fn equal_texts_are_equal_names_and_literals() {
    let (p, lits, m) = parse("let abc = 'x';\nlet d = abc;\nlet e = 'x';\nlet f = 12;\nlet g = 12;");
    assert_eq!(lits.names.len(), 5);
    assert_eq!(lits.strings.len(), 1);
    assert_eq!(lits.numbers.len(), 1);
    assert_eq!(lits.find_name(b"abc"), Some(Name(0)));
    assert_eq!(lits.find_name(b"ab"), None);
    assert_eq!(lits.names[0], b"abc".to_vec());
    assert_eq!(lits.numbers[0], b"12".to_vec());
    let stmts = module_statements(&p, m);
    let Node::LetStmt(_, _, value) = p.node(stmts[1].0) else { panic!() };
    assert_eq!(p.node(value.0), Node::VariableExpr(Name(0)));
}

#[test]
fn annotations_are_types() {
    let (p, _, m) = parse("let a: (number, (x, y: void) => boolean) = 1;");
    let stmts = module_statements(&p, m);
    let Node::LetStmt(_, annotation, _) = p.node(stmts[0].0) else { panic!() };
    let Node::SomeOptType(ty) = p.node(annotation.0) else { panic!() };
    let Node::ProductType(members) = p.node(ty.0) else { panic!() };
    let Node::ConsTypeList(first, rest) = p.node(members.0) else { panic!() };
    assert_eq!(p.node(first.0), Node::NumberType);
    let Node::ConsTypeList(second, end) = p.node(rest.0) else { panic!() };
    assert_eq!(p.node(end.0), Node::NilTypeList);
    let Node::FunctionType(args, result) = p.node(second.0) else { panic!() };
    assert_eq!(p.node(result.0), Node::BooleanType);
    let Node::ConsArgList(_, x, more) = p.node(args.0) else { panic!() };
    assert_eq!(p.node(x.0), Node::NoneOptType);
    let Node::ConsArgList(_, y, none) = p.node(more.0) else { panic!() };
    let Node::SomeOptType(void) = p.node(y.0) else { panic!() };
    assert_eq!(p.node(void.0), Node::VoidType);
    assert_eq!(p.node(none.0), Node::NilArgList);
}

#[test]
fn lists_are_built_in_the_order_of_their_items() {
    let mut p = Program::new();
    let a = ExprNode(p.add(Node::TrueExpr));
    let b = ExprNode(p.add(Node::FalseExpr));
    let c = ExprNode(p.add(Node::VoidExpr));
    let list = expr_list_node(&[a, b, c], &mut p);
    assert_eq!(expressions(&p, list), vec![a, b, c]);
    let empty = expr_list_node(&[], &mut p);
    assert_eq!(p.node(empty.0), Node::NilExprList);

    let s = StmtNode(p.add(Node::ExprStmt(a)));
    let r = StmtNode(p.add(Node::ReturnVoidStmt));
    let stmts = stmt_list_node(&[s, r], &mut p);
    assert_eq!(statements(&p, stmts), vec![s, r]);

    let n = TypeNode(p.add(Node::NumberType));
    let v = TypeNode(p.add(Node::VoidType));
    let types: TypeListNode = type_list_node(&[n, v], &mut p);
    let Node::ConsTypeList(first, rest) = p.node(types.0) else { panic!() };
    assert_eq!(first, n);
    let Node::ConsTypeList(second, end) = p.node(rest.0) else { panic!() };
    assert_eq!(second, v);
    assert_eq!(p.node(end.0), Node::NilTypeList);

    let some: OptTypeNode = opt_type_node(Some(n), &mut p);
    let none: OptTypeNode = opt_type_node(None, &mut p);
    assert_eq!(p.node(some.0), Node::SomeOptType(n));
    assert_eq!(p.node(none.0), Node::NoneOptType);

    let args: ArgListNode = arg_list_node(&[(Name(4), some), (Name(2), none)], &mut p);
    let Node::ConsArgList(x, x_type, more) = p.node(args.0) else { panic!() };
    assert_eq!((x, x_type), (Name(4), some));
    let Node::ConsArgList(y, y_type, end) = p.node(more.0) else { panic!() };
    assert_eq!((y, y_type), (Name(2), none));
    assert_eq!(p.node(end.0), Node::NilArgList);
}

#[test]
fn nodes_are_numbered_in_the_order_in_which_they_are_added() {
    let mut p = Program::new();
    assert_eq!(p.len(), 0);
    assert_eq!(p.add(Node::TrueExpr), 0);
    assert_eq!(p.add(Node::EqualsExpr(ExprNode(0), ExprNode(0))), 1);
    assert_eq!(p.len(), 2);
    assert_eq!(p.node(1), Node::EqualsExpr(ExprNode(0), ExprNode(0)));
}

#[test]
fn interning_gives_equal_texts_one_index() {
    let mut table: Vec<Vec<u8>> = Vec::new();
    assert_eq!(intern(&mut table, b"one"), 0);
    assert_eq!(intern(&mut table, b"two"), 1);
    assert_eq!(intern(&mut table, b"one"), 0);
    assert_eq!(intern(&mut table, b""), 2);
    assert_eq!(table.len(), 3);
    assert_eq!(position(&table, b"two"), Some(1));
    assert_eq!(position(&table, b"three"), None);
    assert!(same_bytes(b"abc", b"abc"));
    assert!(!same_bytes(b"abc", b"abd"));
    assert!(!same_bytes(b"abc", b"ab"));
    let mut lits = Literals::new();
    assert_eq!(lits.name(b"k"), Name(0));
    assert_eq!(lits.name(b"k"), Name(0));
    assert_eq!(lits.string(b"k").0, 0);
    assert_eq!(lits.number(b"1").0, 0);
    assert_eq!(lits.number(b"2").0, 1);
}

#[test]
fn the_end_of_a_body_can_be_reached_unless_it_returns() {
    let (p, _, m) = parse(
        "return 1;\nlet a = 1;\nif (a) { return; } else { }\nif (a) { return; } else { return 1; }\nwhile (a) { return; }",
    );
    let stmts = module_statements(&p, m);
    assert!(!can_proceed_stmt(&p, stmts[0]));
    assert!(can_proceed_stmt(&p, stmts[1]));
    assert!(can_proceed_stmt(&p, stmts[2]));
    assert!(!can_proceed_stmt(&p, stmts[3]));
    assert!(can_proceed_stmt(&p, stmts[4]));
    let Node::Module(body) = p.node(m.0) else { panic!() };
    assert!(!can_proceed_stmts(&p, body));
    let Node::WhileStmt(_, inner) = p.node(stmts[4].0) else { panic!() };
    assert!(!can_proceed_stmts(&p, inner));
    let Node::IfStmt(_, _, empty) = p.node(stmts[2].0) else { panic!() };
    assert!(can_proceed_stmts(&p, empty));
}
