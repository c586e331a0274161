//! The data model the parser produces: a pure tree. A `Program` owns its
//! `Node`s in execution order, a `Node` is an expression or a statement, and
//! a `Block` is a delimited scope of nodes (part of the model, not yet
//! produced by the parser). Nodes are built once by the parser and never
//! mutated afterwards.

use vstd::prelude::*;

verus! {

/// An expression. Only the three literal forms can be produced by the
/// parser's expression rule today; the remaining variants reserve the tagged
/// places where conditional, operator and call expressions will go, so the
/// data model documents the intended shape without speculative parser rules.
#[derive(Debug, PartialEq, Eq)]
pub enum Expr {
    Bool(bool),
    Int(i32),
    Str(String),
    /// Reserved: a conditional expression. Not yet constructible.
    If,
    /// Reserved: a prefix operator expression. Not yet constructible.
    Prefix,
    /// Reserved: an infix operator expression. Not yet constructible.
    Infix,
    /// Reserved: a postfix operator expression. Not yet constructible.
    Postfix,
    /// Reserved: a call expression. Not yet constructible.
    Call,
}

/// The mathematical value of an `Expr`.
pub ghost enum ExprModel {
    Bool(bool),
    Int(i32),
    Str(Seq<char>),
    If,
    Prefix,
    Infix,
    Postfix,
    Call,
}

impl View for Expr {
    type V = ExprModel;

    open spec fn view(&self) -> ExprModel {
        match self {
            Expr::Bool(b) => ExprModel::Bool(*b),
            Expr::Int(i) => ExprModel::Int(*i),
            Expr::Str(s) => ExprModel::Str(s@),
            Expr::If => ExprModel::If,
            Expr::Prefix => ExprModel::Prefix,
            Expr::Infix => ExprModel::Infix,
            Expr::Postfix => ExprModel::Postfix,
            Expr::Call => ExprModel::Call,
        }
    }
}

impl DeepView for Expr {
    type V = ExprModel;

    open spec fn deep_view(&self) -> ExprModel {
        self.view()
    }
}

/// A statement. Variable declaration is the only statement form of the
/// current grammar: a name bound to the value of one expression.
#[derive(Debug, PartialEq, Eq)]
pub enum Stmt {
    VarDecl(String, Expr),
}

/// The mathematical value of a `Stmt`.
pub ghost enum StmtModel {
    VarDecl(Seq<char>, ExprModel),
}

impl View for Stmt {
    type V = StmtModel;

    open spec fn view(&self) -> StmtModel {
        match self {
            Stmt::VarDecl(name, value) => StmtModel::VarDecl(name@, value@),
        }
    }
}

impl DeepView for Stmt {
    type V = StmtModel;

    open spec fn deep_view(&self) -> StmtModel {
        self.view()
    }
}

/// One top-level construct: an expression or a statement.
#[derive(Debug, PartialEq, Eq)]
pub enum Node {
    Expr(Expr),
    Stmt(Stmt),
}

/// The mathematical value of a `Node`.
pub ghost enum NodeModel {
    Expr(ExprModel),
    Stmt(StmtModel),
}

impl View for Node {
    type V = NodeModel;

    open spec fn view(&self) -> NodeModel {
        match self {
            Node::Expr(e) => NodeModel::Expr(e@),
            Node::Stmt(s) => NodeModel::Stmt(s@),
        }
    }
}

impl DeepView for Node {
    type V = NodeModel;

    open spec fn deep_view(&self) -> NodeModel {
        self.view()
    }
}

impl From<Expr> for Node {
    fn from(value: Expr) -> (r: Node) {
        Node::Expr(value)
    }
}

impl vstd::std_specs::convert::FromSpecImpl<Expr> for Node {
    open spec fn obeys_from_spec() -> bool {
        true
    }

    open spec fn from_spec(value: Expr) -> Node {
        Node::Expr(value)
    }
}

impl From<Stmt> for Node {
    fn from(value: Stmt) -> (r: Node) {
        Node::Stmt(value)
    }
}

impl vstd::std_specs::convert::FromSpecImpl<Stmt> for Node {
    open spec fn obeys_from_spec() -> bool {
        true
    }

    open spec fn from_spec(value: Stmt) -> Node {
        Node::Stmt(value)
    }
}

/// An ordered sequence of top-level nodes; the order is the declaration and
/// execution order of the source.
#[derive(Debug, PartialEq, Eq)]
pub struct Program(pub Vec<Node>);

impl View for Program {
    type V = Seq<NodeModel>;

    open spec fn view(&self) -> Seq<NodeModel> {
        self.0.deep_view()
    }
}

/// An ordered sequence of nodes forming one delimited scope. Part of the
/// data model for the block-bodied constructs to come; the parser does not
/// construct it yet.
#[derive(Debug, PartialEq, Eq)]
pub struct Block(pub Vec<Node>);

impl View for Block {
    type V = Seq<NodeModel>;

    open spec fn view(&self) -> Seq<NodeModel> {
        self.0.deep_view()
    }
}

} // verus!
