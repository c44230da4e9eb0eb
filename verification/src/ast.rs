//! The abstract syntax tree that parsing produces, and its mathematical
//! model. Each composite node exclusively owns its children; nodes are
//! created during parsing and immutable thereafter.

use vstd::prelude::*;

use crate::lexer::{Token, TokenModel};

verus! {

broadcast use
    vstd::std_specs::vec::axiom_vec_index_decreases,
    vstd::std_specs::vec::axiom_vec_decreases_to_view,
    vstd::seq::axiom_seq_index_decreases;

/// Mathematical model of an [`ASTNode`]: text as character sequences,
/// integers unbounded, children behind `Box` or `Seq`.
pub enum NodeModel {
    Integer(int),
    Float(Seq<char>),
    StringLiteral(Seq<char>),
    Boolean(bool),
    Name(Seq<char>),
    Function { name: Option<Box<NodeModel>>, args: Seq<NodeModel>, body: Box<NodeModel> },
    Invocation { func: Box<NodeModel>, args: Seq<NodeModel> },
    Conditional {
        cond: Box<NodeModel>,
        if_body: Box<NodeModel>,
        else_body: Option<Box<NodeModel>>,
    },
    Binary { op: TokenModel, lhs: Box<NodeModel>, rhs: Box<NodeModel> },
    Sequence(Seq<NodeModel>),
}

/// A node of the syntax tree. A float literal carries the text of its digits,
/// as the lexer produced it. `Binary` keeps the operator as the token the
/// lexer handed out (always `Token::Operator` when built by the parser).
#[derive(Debug, PartialEq)]
pub enum ASTNode {
    Integer(i32),
    Float(String),
    StringLiteral(String),
    Boolean(bool),
    Name(String),
    Function { name: Box<Option<ASTNode>>, args: Vec<ASTNode>, body: Box<ASTNode> },
    Invocation { func: Box<ASTNode>, args: Vec<ASTNode> },
    Conditional {
        cond: Box<ASTNode>,
        if_body: Box<ASTNode>,
        else_body: Box<Option<ASTNode>>,
    },
    Binary { op: Token, lhs: Box<ASTNode>, rhs: Box<ASTNode> },
    Sequence(Vec<ASTNode>),
}

/// Mathematical model of one node (the view of [`ASTNode`]).
pub open spec fn node_model(n: ASTNode) -> NodeModel
    decreases n,
{
    match n {
        ASTNode::Integer(v) => NodeModel::Integer(v as int),
        ASTNode::Float(s) => NodeModel::Float(s@),
        ASTNode::StringLiteral(s) => NodeModel::StringLiteral(s@),
        ASTNode::Boolean(b) => NodeModel::Boolean(b),
        ASTNode::Name(s) => NodeModel::Name(s@),
        ASTNode::Function { name, args, body } => NodeModel::Function {
            name: match *name {
                Some(nm) => Some(Box::new(node_model(nm))),
                None => None,
            },
            args: views_of(args@),
            body: Box::new(node_model(*body)),
        },
        ASTNode::Invocation { func, args } => NodeModel::Invocation {
            func: Box::new(node_model(*func)),
            args: views_of(args@),
        },
        ASTNode::Conditional { cond, if_body, else_body } => NodeModel::Conditional {
            cond: Box::new(node_model(*cond)),
            if_body: Box::new(node_model(*if_body)),
            else_body: match *else_body {
                Some(nm) => Some(Box::new(node_model(nm))),
                None => None,
            },
        },
        ASTNode::Binary { op, lhs, rhs } => NodeModel::Binary {
            op: op@,
            lhs: Box::new(node_model(*lhs)),
            rhs: Box::new(node_model(*rhs)),
        },
        ASTNode::Sequence(v) => NodeModel::Sequence(views_of(v@)),
    }
}

/// The models of a sequence of nodes, in order.
pub open spec fn views_of(v: Seq<ASTNode>) -> Seq<NodeModel>
    decreases v,
{
    if v.len() == 0 {
        Seq::empty()
    } else {
        views_of(v.drop_last()).push(node_model(v.last()))
    }
}

impl View for ASTNode {
    type V = NodeModel;

    open spec fn view(&self) -> NodeModel {
        node_model(*self)
    }
}

/// `views_of` maps the view over the sequence, element by element.
pub proof fn lemma_views_of_index(v: Seq<ASTNode>)
    ensures
        views_of(v).len() == v.len(),
        forall|i: int| 0 <= i < v.len() ==> views_of(v)[i] == #[trigger] v[i]@,
    decreases v.len(),
{
    if v.len() > 0 {
        lemma_views_of_index(v.drop_last());
        assert(forall|i: int| 0 <= i < v.len() - 1 ==> v.drop_last()[i] == #[trigger] v[i]);
    }
}

/// Appending a node appends its model.
pub proof fn lemma_views_of_push(v: Seq<ASTNode>, n: ASTNode)
    ensures
        views_of(v.push(n)) == views_of(v).push(n@),
{
    lemma_views_of_index(v.push(n));
    lemma_views_of_index(v);
    assert forall|i: int| 0 <= i < views_of(v.push(n)).len() implies views_of(v.push(n))[i]
        == views_of(v).push(n@)[i] by {
        assert(views_of(v.push(n))[i] == v.push(n)[i]@);
        if i < v.len() {
            assert(v.push(n)[i] == v[i]);
            assert(views_of(v)[i] == v[i]@);
        } else {
            assert(v.push(n)[i] == n);
        }
    }
    assert(views_of(v.push(n)) =~= views_of(v).push(n@));
}

/// Prepending a node prepends its model.
pub proof fn lemma_views_of_insert_front(v: Seq<ASTNode>, n: ASTNode)
    ensures
        views_of(v.insert(0, n)) == seq![n@] + views_of(v),
{
    lemma_views_of_index(v.insert(0, n));
    lemma_views_of_index(v);
    assert forall|i: int| 0 <= i < views_of(v.insert(0, n)).len() implies views_of(
        v.insert(0, n),
    )[i] == (seq![n@] + views_of(v))[i] by {
        assert(views_of(v.insert(0, n))[i] == v.insert(0, n)[i]@);
        if i == 0 {
            assert(v.insert(0, n)[0] == n);
        } else {
            assert(v.insert(0, n)[i] == v[i - 1]);
            assert(views_of(v)[i - 1] == v[i - 1]@);
        }
    }
    assert(views_of(v.insert(0, n)) =~= seq![n@] + views_of(v));
}

} // verus!
