//! The syntax tree of a module, held in one arena and addressed by indices.
//!
//! Every node refers only to nodes that were added before it, so a walk from a node to
//! its parts always ends.

use vstd::prelude::*;

verus! {

/// An identifier, as an index into the table of names.
#[derive(Clone, Copy, Debug, PartialEq, Eq, Structural)]
pub struct Name(pub usize);

/// A string literal, as an index into the table of string literals.
#[derive(Clone, Copy, Debug, PartialEq, Eq, Structural)]
pub struct StringLiteral(pub usize);

/// A number literal, as an index into the table of number literals.
#[derive(Clone, Copy, Debug, PartialEq, Eq, Structural)]
pub struct NumberLiteral(pub usize);

/// A type annotation.
#[derive(Clone, Copy, Debug, PartialEq, Eq, Structural)]
pub struct TypeNode(pub usize);

/// A list of type annotations.
#[derive(Clone, Copy, Debug, PartialEq, Eq, Structural)]
pub struct TypeListNode(pub usize);

/// A type annotation that may be left out.
#[derive(Clone, Copy, Debug, PartialEq, Eq, Structural)]
pub struct OptTypeNode(pub usize);

/// A list of function arguments.
#[derive(Clone, Copy, Debug, PartialEq, Eq, Structural)]
pub struct ArgListNode(pub usize);

/// An expression.
#[derive(Clone, Copy, Debug, PartialEq, Eq, Structural)]
pub struct ExprNode(pub usize);

/// A list of expressions.
#[derive(Clone, Copy, Debug, PartialEq, Eq, Structural)]
pub struct ExprListNode(pub usize);

/// A statement.
#[derive(Clone, Copy, Debug, PartialEq, Eq, Structural)]
pub struct StmtNode(pub usize);

/// A list of statements.
#[derive(Clone, Copy, Debug, PartialEq, Eq, Structural)]
pub struct StmtListNode(pub usize);

/// A function: name, arguments, result type and body.
#[derive(Clone, Copy, Debug, PartialEq, Eq, Structural)]
pub struct FunctionNode(pub usize);

/// A module: its statements.
#[derive(Clone, Copy, Debug, PartialEq, Eq, Structural)]
pub struct ModuleNode(pub usize);

/// The tokens that a node was read from: those from index `from` up to index `to`, of
/// which the first and the last `wraps` are parentheses around the node.
pub ghost struct Span {
    pub from: int,
    pub to: int,
    pub wraps: int,
}

impl Span {
    /// The span of a node that was not read from tokens.
    pub open spec fn none() -> Span {
        Span { from: 0, to: 0, wraps: 0 }
    }

    /// The index of the first token within the parentheses.
    pub open spec fn first(self) -> int {
        self.from + self.wraps
    }

    /// The index after the last token within the parentheses.
    pub open spec fn last(self) -> int {
        self.to - self.wraps
    }
}

/// What a node is, with the nodes it is made of.
#[derive(Clone, Copy, Debug, PartialEq, Eq, Structural)]
pub enum Node {
    VoidType,
    BooleanType,
    NumberType,
    StringType,
    ProductType(TypeListNode),
    FunctionType(ArgListNode, TypeNode),
    NilTypeList,
    ConsTypeList(TypeNode, TypeListNode),
    NoneOptType,
    SomeOptType(TypeNode),
    NilArgList,
    ConsArgList(Name, OptTypeNode, ArgListNode),
    VariableExpr(Name),
    VoidExpr,
    TrueExpr,
    FalseExpr,
    StringLiteralExpr(StringLiteral),
    NumberLiteralExpr(NumberLiteral),
    TupleExpr(ExprListNode),
    AppExpr(ExprNode, ExprListNode),
    EqualsExpr(ExprNode, ExprNode),
    FunctionExpr(FunctionNode),
    NilExprList,
    ConsExprList(ExprNode, ExprListNode),
    ExprStmt(ExprNode),
    LetStmt(Name, OptTypeNode, ExprNode),
    ReturnStmt(ExprNode),
    ReturnVoidStmt,
    FunctionDeclStmt(Name, ArgListNode, OptTypeNode),
    FunctionStmt(FunctionNode),
    IfStmt(ExprNode, StmtListNode, StmtListNode),
    WhileStmt(ExprNode, StmtListNode),
    NilStmtList,
    ConsStmtList(StmtNode, StmtListNode),
    Function(Option<Name>, ArgListNode, OptTypeNode, StmtListNode),
    Module(StmtListNode),
}

/// The syntactic class of a node.
#[derive(Clone, Copy, Debug, PartialEq, Eq, Structural)]
pub enum Kind {
    Type,
    TypeList,
    OptType,
    ArgList,
    Expr,
    ExprList,
    Stmt,
    StmtList,
    Function,
    Module,
}

impl Node {
    /// The syntactic class of the node.
    pub open spec fn kind(self) -> Kind {
        match self {
            Node::VoidType | Node::BooleanType | Node::NumberType | Node::StringType
            | Node::ProductType(_) | Node::FunctionType(_, _) => Kind::Type,
            Node::NilTypeList | Node::ConsTypeList(_, _) => Kind::TypeList,
            Node::NoneOptType | Node::SomeOptType(_) => Kind::OptType,
            Node::NilArgList | Node::ConsArgList(_, _, _) => Kind::ArgList,
            Node::VariableExpr(_) | Node::VoidExpr | Node::TrueExpr | Node::FalseExpr
            | Node::StringLiteralExpr(_) | Node::NumberLiteralExpr(_) | Node::TupleExpr(_)
            | Node::AppExpr(_, _) | Node::EqualsExpr(_, _) | Node::FunctionExpr(_) => Kind::Expr,
            Node::NilExprList | Node::ConsExprList(_, _) => Kind::ExprList,
            Node::ExprStmt(_) | Node::LetStmt(_, _, _) | Node::ReturnStmt(_)
            | Node::ReturnVoidStmt | Node::FunctionDeclStmt(_, _, _) | Node::FunctionStmt(_)
            | Node::IfStmt(_, _, _) | Node::WhileStmt(_, _) => Kind::Stmt,
            Node::NilStmtList | Node::ConsStmtList(_, _) => Kind::StmtList,
            Node::Function(_, _, _, _) => Kind::Function,
            Node::Module(_) => Kind::Module,
        }
    }
}

/// The arena of syntax nodes.
pub struct Program {
    /// The nodes.
    pub nodes: Vec<Node>,
    /// For each node, the tokens that it was read from.
    pub spans: Ghost<Seq<Span>>,
}

impl Program {
    /// The nodes, in the order in which they were added.
    pub open spec fn view(&self) -> Seq<Node> {
        self.nodes@
    }

    /// Whether `i` is an earlier node than `at`, of class `k`.
    pub open spec fn part(nodes: Seq<Node>, i: usize, at: int, k: Kind) -> bool {
        i < at && at <= nodes.len() && nodes[i as int].kind() == k
    }

    /// Whether `node`, placed at index `at`, refers only to earlier nodes of the
    /// classes that it needs, and the function of a function statement has a name.
    pub open spec fn node_ok(nodes: Seq<Node>, node: Node, at: int) -> bool {
        match node {
            Node::ProductType(l) => Self::part(nodes, l.0, at, Kind::TypeList),
            Node::FunctionType(a, t) => Self::part(nodes, a.0, at, Kind::ArgList) && Self::part(
                nodes,
                t.0,
                at,
                Kind::Type,
            ),
            Node::ConsTypeList(t, l) => Self::part(nodes, t.0, at, Kind::Type) && Self::part(
                nodes,
                l.0,
                at,
                Kind::TypeList,
            ),
            Node::SomeOptType(t) => Self::part(nodes, t.0, at, Kind::Type),
            Node::ConsArgList(_, o, l) => Self::part(nodes, o.0, at, Kind::OptType) && Self::part(
                nodes,
                l.0,
                at,
                Kind::ArgList,
            ),
            Node::TupleExpr(l) => Self::part(nodes, l.0, at, Kind::ExprList),
            Node::AppExpr(f, l) => Self::part(nodes, f.0, at, Kind::Expr) && Self::part(
                nodes,
                l.0,
                at,
                Kind::ExprList,
            ),
            Node::EqualsExpr(l, r) => Self::part(nodes, l.0, at, Kind::Expr) && Self::part(
                nodes,
                r.0,
                at,
                Kind::Expr,
            ),
            Node::FunctionExpr(f) => Self::part(nodes, f.0, at, Kind::Function),
            Node::ConsExprList(e, l) => Self::part(nodes, e.0, at, Kind::Expr) && Self::part(
                nodes,
                l.0,
                at,
                Kind::ExprList,
            ),
            Node::ExprStmt(e) => Self::part(nodes, e.0, at, Kind::Expr),
            Node::LetStmt(_, o, e) => Self::part(nodes, o.0, at, Kind::OptType) && Self::part(
                nodes,
                e.0,
                at,
                Kind::Expr,
            ),
            Node::ReturnStmt(e) => Self::part(nodes, e.0, at, Kind::Expr),
            Node::FunctionDeclStmt(_, a, o) => Self::part(nodes, a.0, at, Kind::ArgList)
                && Self::part(nodes, o.0, at, Kind::OptType),
            Node::FunctionStmt(f) => Self::part(nodes, f.0, at, Kind::Function) && (
            nodes[f.0 as int] matches Node::Function(name, _, _, _) && name is Some),
            Node::IfStmt(c, t, e) => Self::part(nodes, c.0, at, Kind::Expr) && Self::part(
                nodes,
                t.0,
                at,
                Kind::StmtList,
            ) && Self::part(nodes, e.0, at, Kind::StmtList),
            Node::WhileStmt(c, b) => Self::part(nodes, c.0, at, Kind::Expr) && Self::part(
                nodes,
                b.0,
                at,
                Kind::StmtList,
            ),
            Node::ConsStmtList(s, l) => Self::part(nodes, s.0, at, Kind::Stmt) && Self::part(
                nodes,
                l.0,
                at,
                Kind::StmtList,
            ),
            Node::Function(_, a, o, b) => Self::part(nodes, a.0, at, Kind::ArgList)
                && Self::part(nodes, o.0, at, Kind::OptType) && Self::part(
                nodes,
                b.0,
                at,
                Kind::StmtList,
            ),
            Node::Module(b) => Self::part(nodes, b.0, at, Kind::StmtList),
            _ => true,
        }
    }

    /// Every node refers only to earlier nodes of the classes that it needs.
    pub open spec fn wf(&self) -> bool {
        &&& self.spans@.len() == self@.len()
        &&& forall|i: int| 0 <= i < self@.len() ==> Self::node_ok(self@, #[trigger] self@[i], i)
    }

    /// The tokens that node `i` was read from.
    pub open spec fn span(&self, i: int) -> Span {
        self.spans@[i]
    }

    /// Whether `i` is a node of class `k`.
    pub open spec fn has(&self, i: usize, k: Kind) -> bool {
        i < self@.len() && self@[i as int].kind() == k
    }

    /// Whether `other` holds the nodes of `self`, at the same indices, and maybe more.
    pub open spec fn extended_by(&self, other: &Program) -> bool {
        self@.len() <= other@.len() && other@.take(self@.len() as int) == self@
    }

    /// Whether `other` holds the nodes of `self`, at the same indices, and maybe more:
    /// [`Self::extended_by`], node by node.
    pub open spec fn grown_to(&self, other: &Program) -> bool {
        &&& self@.len() <= other@.len()
        &&& forall|i: int| 0 <= i < self@.len() ==> #[trigger] other@[i] == self@[i]
        &&& forall|i: int| 0 <= i < self@.len() ==> #[trigger] other.spans@[i] == self.spans@[i]
    }

    /// An arena that extends another has grown from it.
    pub proof fn lemma_extended_grown(&self, other: &Program)
        requires
            self.extended_by(other),
            forall|i: int| 0 <= i < self@.len() ==> #[trigger] other.spans@[i] == self.spans@[i],
        ensures
            self.grown_to(other),
    {
        assert forall|i: int| 0 <= i < self@.len() implies #[trigger] other@[i] == self@[i] by {
            assert(other@.take(self@.len() as int)[i] == other@[i]);
        }
    }

    /// The items of a list of expressions, first to last.
    pub open spec fn expr_list(&self, l: ExprListNode) -> Seq<ExprNode>
        decreases l.0,
    {
        if l.0 < self@.len() {
            match self@[l.0 as int] {
                Node::ConsExprList(e, t) => if t.0 < l.0 {
                    seq![e] + self.expr_list(t)
                } else {
                    Seq::empty()
                },
                _ => Seq::empty(),
            }
        } else {
            Seq::empty()
        }
    }

    /// The items of a list of statements, first to last.
    pub open spec fn stmt_list(&self, l: StmtListNode) -> Seq<StmtNode>
        decreases l.0,
    {
        if l.0 < self@.len() {
            match self@[l.0 as int] {
                Node::ConsStmtList(s, t) => if t.0 < l.0 {
                    seq![s] + self.stmt_list(t)
                } else {
                    Seq::empty()
                },
                _ => Seq::empty(),
            }
        } else {
            Seq::empty()
        }
    }

    /// The items of a list of types, first to last.
    pub open spec fn type_list(&self, l: TypeListNode) -> Seq<TypeNode>
        decreases l.0,
    {
        if l.0 < self@.len() {
            match self@[l.0 as int] {
                Node::ConsTypeList(s, t) => if t.0 < l.0 {
                    seq![s] + self.type_list(t)
                } else {
                    Seq::empty()
                },
                _ => Seq::empty(),
            }
        } else {
            Seq::empty()
        }
    }

    /// The items of a list of arguments, first to last: each a name and its annotation.
    pub open spec fn arg_list(&self, l: ArgListNode) -> Seq<(Name, OptTypeNode)>
        decreases l.0,
    {
        if l.0 < self@.len() {
            match self@[l.0 as int] {
                Node::ConsArgList(n, o, t) => if t.0 < l.0 {
                    seq![(n, o)] + self.arg_list(t)
                } else {
                    Seq::empty()
                },
                _ => Seq::empty(),
            }
        } else {
            Seq::empty()
        }
    }

    /// A list of expressions stays what it is when nodes are added.
    pub proof fn lemma_expr_list_stable(&self, other: &Program, l: ExprListNode)
        requires
            self.extended_by(other),
            l.0 < self@.len(),
        ensures
            other.expr_list(l) == self.expr_list(l),
        decreases l.0,
    {
        assert(other@[l.0 as int] == other@.take(self@.len() as int)[l.0 as int]);
        match self@[l.0 as int] {
            Node::ConsExprList(_, t) => {
                if t.0 < l.0 {
                    self.lemma_expr_list_stable(other, t);
                }
            },
            _ => {},
        }
    }

    /// A list of statements stays what it is when nodes are added.
    pub proof fn lemma_stmt_list_stable(&self, other: &Program, l: StmtListNode)
        requires
            self.extended_by(other),
            l.0 < self@.len(),
        ensures
            other.stmt_list(l) == self.stmt_list(l),
        decreases l.0,
    {
        assert(other@[l.0 as int] == other@.take(self@.len() as int)[l.0 as int]);
        match self@[l.0 as int] {
            Node::ConsStmtList(_, t) => {
                if t.0 < l.0 {
                    self.lemma_stmt_list_stable(other, t);
                }
            },
            _ => {},
        }
    }

    /// A list of types stays what it is when nodes are added.
    pub proof fn lemma_type_list_stable(&self, other: &Program, l: TypeListNode)
        requires
            self.extended_by(other),
            l.0 < self@.len(),
        ensures
            other.type_list(l) == self.type_list(l),
        decreases l.0,
    {
        assert(other@[l.0 as int] == other@.take(self@.len() as int)[l.0 as int]);
        match self@[l.0 as int] {
            Node::ConsTypeList(_, t) => {
                if t.0 < l.0 {
                    self.lemma_type_list_stable(other, t);
                }
            },
            _ => {},
        }
    }

    /// A list of arguments stays what it is when nodes are added.
    pub proof fn lemma_arg_list_stable(&self, other: &Program, l: ArgListNode)
        requires
            self.extended_by(other),
            l.0 < self@.len(),
        ensures
            other.arg_list(l) == self.arg_list(l),
        decreases l.0,
    {
        assert(other@[l.0 as int] == other@.take(self@.len() as int)[l.0 as int]);
        match self@[l.0 as int] {
            Node::ConsArgList(_, _, t) => {
                if t.0 < l.0 {
                    self.lemma_arg_list_stable(other, t);
                }
            },
            _ => {},
        }
    }

    /// Growing is transitive.
    pub proof fn lemma_grown_trans(&self, mid: &Program, other: &Program)
        requires
            self.grown_to(mid),
            mid.grown_to(other),
        ensures
            self.grown_to(other),
    {
        assert forall|i: int| 0 <= i < self@.len() implies #[trigger] other@[i] == self@[i] by {
            assert(mid@[i] == self@[i]);
        }
        assert forall|i: int| 0 <= i < self@.len() implies #[trigger] other.spans@[i]
            == self.spans@[i] by {
            assert(mid.spans@[i] == self.spans@[i]);
        }
    }

    /// An arena that has grown stays grown when the span of a node that was added is
    /// changed.
    pub proof fn lemma_grown_to_rewrapped(&self, mid: &Program, other: &Program, n: int)
        requires
            self.wf(),
            mid.wf(),
            self.grown_to(mid),
            self@.len() <= n < mid@.len(),
            other@ == mid@,
            other.spans@ == mid.spans@.update(n, other.span(n)),
        ensures
            self.grown_to(other),
    {
        assert forall|i: int| 0 <= i < self@.len() implies #[trigger] other.spans@[i]
            == self.spans@[i] by {
            assert(mid.spans@[i] == self.spans@[i]);
        }
    }

    /// Whether the arenas hold the same nodes below index `k`.
    pub open spec fn same_nodes_below(&self, other: &Program, k: int) -> bool {
        &&& 0 <= k <= self@.len()
        &&& k <= other@.len()
        &&& forall|i: int| 0 <= i < k ==> #[trigger] other@[i] == self@[i]
    }

    /// Whether the arenas hold the same nodes, with the same spans, below index `k`.
    pub open spec fn agree_below(&self, other: &Program, k: int) -> bool {
        &&& self.same_nodes_below(other, k)
        &&& forall|i: int| 0 <= i < k ==> #[trigger] other.spans@[i] == self.spans@[i]
    }

    /// A list of expressions is the same list in arenas that agree below an index above
    /// it.
    pub proof fn lemma_expr_list_agree(&self, other: &Program, k: int, l: ExprListNode)
        requires
            self.same_nodes_below(other, k),
            l.0 < k,
        ensures
            other.expr_list(l) == self.expr_list(l),
        decreases l.0,
    {
        assert(other@[l.0 as int] == self@[l.0 as int]);
        match self@[l.0 as int] {
            Node::ConsExprList(_, t) => {
                if t.0 < l.0 {
                    self.lemma_expr_list_agree(other, k, t);
                }
            },
            _ => {},
        }
    }

    /// A list of statements is the same list in arenas that agree below an index above
    /// it.
    pub proof fn lemma_stmt_list_agree(&self, other: &Program, k: int, l: StmtListNode)
        requires
            self.same_nodes_below(other, k),
            l.0 < k,
        ensures
            other.stmt_list(l) == self.stmt_list(l),
        decreases l.0,
    {
        assert(other@[l.0 as int] == self@[l.0 as int]);
        match self@[l.0 as int] {
            Node::ConsStmtList(_, t) => {
                if t.0 < l.0 {
                    self.lemma_stmt_list_agree(other, k, t);
                }
            },
            _ => {},
        }
    }

    /// A list of types is the same list in arenas that agree below an index above it.
    pub proof fn lemma_type_list_agree(&self, other: &Program, k: int, l: TypeListNode)
        requires
            self.same_nodes_below(other, k),
            l.0 < k,
        ensures
            other.type_list(l) == self.type_list(l),
        decreases l.0,
    {
        assert(other@[l.0 as int] == self@[l.0 as int]);
        match self@[l.0 as int] {
            Node::ConsTypeList(_, t) => {
                if t.0 < l.0 {
                    self.lemma_type_list_agree(other, k, t);
                }
            },
            _ => {},
        }
    }

    /// A list of arguments is the same list in arenas that agree below an index above
    /// it.
    pub proof fn lemma_arg_list_agree(&self, other: &Program, k: int, l: ArgListNode)
        requires
            self.same_nodes_below(other, k),
            l.0 < k,
        ensures
            other.arg_list(l) == self.arg_list(l),
        decreases l.0,
    {
        assert(other@[l.0 as int] == self@[l.0 as int]);
        match self@[l.0 as int] {
            Node::ConsArgList(_, _, t) => {
                if t.0 < l.0 {
                    self.lemma_arg_list_agree(other, k, t);
                }
            },
            _ => {},
        }
    }

    /// The items of a list of expressions are expressions that were added before it.
    pub proof fn lemma_expr_list_items(&self, l: ExprListNode, j: int)
        requires
            self.wf(),
            self.has(l.0, Kind::ExprList),
            0 <= j < self.expr_list(l).len(),
        ensures
            self.expr_list(l)[j].0 < l.0,
            self.has(self.expr_list(l)[j].0, Kind::Expr),
        decreases l.0,
    {
        assert(Self::node_ok(self@, self@[l.0 as int], l.0 as int));
        match self@[l.0 as int] {
            Node::ConsExprList(_, t) => {
                if j > 0 {
                    self.lemma_expr_list_items(t, j - 1);
                }
            },
            _ => {},
        }
    }

    /// The items of a list of statements are statements that were added before it.
    pub proof fn lemma_stmt_list_items(&self, l: StmtListNode, j: int)
        requires
            self.wf(),
            self.has(l.0, Kind::StmtList),
            0 <= j < self.stmt_list(l).len(),
        ensures
            self.stmt_list(l)[j].0 < l.0,
            self.has(self.stmt_list(l)[j].0, Kind::Stmt),
        decreases l.0,
    {
        assert(Self::node_ok(self@, self@[l.0 as int], l.0 as int));
        match self@[l.0 as int] {
            Node::ConsStmtList(_, t) => {
                if j > 0 {
                    self.lemma_stmt_list_items(t, j - 1);
                }
            },
            _ => {},
        }
    }

    /// The items of a list of types are types that were added before it.
    pub proof fn lemma_type_list_items(&self, l: TypeListNode, j: int)
        requires
            self.wf(),
            self.has(l.0, Kind::TypeList),
            0 <= j < self.type_list(l).len(),
        ensures
            self.type_list(l)[j].0 < l.0,
            self.has(self.type_list(l)[j].0, Kind::Type),
        decreases l.0,
    {
        assert(Self::node_ok(self@, self@[l.0 as int], l.0 as int));
        match self@[l.0 as int] {
            Node::ConsTypeList(_, t) => {
                if j > 0 {
                    self.lemma_type_list_items(t, j - 1);
                }
            },
            _ => {},
        }
    }

    /// The annotations of the arguments of a list were added before it.
    pub proof fn lemma_arg_list_items(&self, l: ArgListNode, j: int)
        requires
            self.wf(),
            self.has(l.0, Kind::ArgList),
            0 <= j < self.arg_list(l).len(),
        ensures
            self.arg_list(l)[j].1.0 < l.0,
            self.has(self.arg_list(l)[j].1.0, Kind::OptType),
        decreases l.0,
    {
        assert(Self::node_ok(self@, self@[l.0 as int], l.0 as int));
        match self@[l.0 as int] {
            Node::ConsArgList(_, _, t) => {
                if j > 0 {
                    self.lemma_arg_list_items(t, j - 1);
                }
            },
            _ => {},
        }
    }

    /// A node of the arena is a node, of the same class, of every arena that extends it.
    pub proof fn lemma_has_stable(&self, other: &Program, i: usize, k: Kind)
        requires
            self.extended_by(other),
            self.has(i, k),
        ensures
            other.has(i, k),
    {
        assert(other@[i as int] == other@.take(self@.len() as int)[i as int]);
    }

    /// Extension is transitive.
    pub proof fn lemma_extended_trans(&self, mid: &Program, other: &Program)
        requires
            self.extended_by(mid),
            mid.extended_by(other),
        ensures
            self.extended_by(other),
    {
        assert forall|i: int| 0 <= i < self@.len() implies other@[i] == self@[i] by {
            assert(mid@[i] == mid@.take(self@.len() as int)[i]);
            assert(other@[i] == other@.take(mid@.len() as int)[i]);
        }
        assert(other@.take(self@.len() as int) =~= self@);
    }

    /// An empty arena.
    pub fn new() -> (p: Program)
        ensures
            p@.len() == 0,
            p.wf(),
    {
        Program { nodes: Vec::new(), spans: Ghost(Seq::empty()) }
    }

    /// The number of nodes.
    pub fn len(&self) -> (n: usize)
        ensures
            n == self@.len(),
    {
        self.nodes.len()
    }

    /// The node at index `i`.
    pub fn node(&self, i: usize) -> (node: Node)
        requires
            i < self@.len(),
        ensures
            node == self@[i as int],
    {
        self.nodes[i]
    }

    /// Adds a node that was read from the tokens of `span`, and returns its index.
    pub fn put(&mut self, node: Node, Ghost(span): Ghost<Span>) -> (i: usize)
        requires
            old(self).wf(),
            Self::node_ok(old(self)@, node, old(self)@.len() as int),
        ensures
            final(self).wf(),
            i == old(self)@.len(),
            final(self)@ == old(self)@.push(node),
            final(self).spans@ == old(self).spans@.push(span),
            old(self).grown_to(final(self)),
            final(self).has(i, node.kind()),
    {
        let i = self.add(node);
        proof {
            self.spans@ = self.spans@.update(i as int, span);
            assert(self.spans@ =~= old(self).spans@.push(span));
        }
        i
    }

    /// Adds a node and returns its index.
    #[verifier::rlimit(30)]
    pub fn add(&mut self, node: Node) -> (i: usize)
        requires
            old(self).wf(),
            Self::node_ok(old(self)@, node, old(self)@.len() as int),
        ensures
            final(self).wf(),
            i == old(self)@.len(),
            final(self)@ == old(self)@.push(node),
            final(self).spans@ == old(self).spans@.push(Span::none()),
            old(self).extended_by(final(self)),
            old(self).grown_to(final(self)),
            final(self).has(i, node.kind()),
    {
        let i = self.nodes.len();
        self.nodes.push(node);
        proof {
            self.spans@ = self.spans@.push(Span::none());
            let before = old(self)@;
            let after = self@;
            assert(after.take(before.len() as int) == before);
            assert forall|j: int| 0 <= j < after.len() implies Self::node_ok(
                after,
                #[trigger] after[j],
                j,
            ) by {
                if j < before.len() {
                    assert(Self::node_ok(before, before[j], j));
                } else {
                    assert(after[j] == node);
                }
            }
        }
        i
    }
}

} // verus!
