use vstd::prelude::*;

use super::value::Value;
use crate::tokenizer::token::Span;

verus! {

/// A node of the expression tree. The tree owns its nodes; it is acyclic
/// by construction.
#[derive(Debug)]
pub enum Statement {
    /// An ordered list of statements; the root of a parse.
    Expression { span: Span, expression: Vec<Box<Statement>> },
    Identifier { span: Span, value: Value },
    MemberExpression { span: Span, object: Box<Statement>, property: Box<Statement> },
}

/// What a statement is: an identifier with its span and text, a member
/// access with its span, object and property, or a sequence of statements
/// with its span.
pub enum Node {
    Identifier { start: int, end: int, value: Seq<char> },
    Member { start: int, end: int, object: Box<Node>, property: Box<Node> },
    Sequence { start: int, end: int },
}

impl Node {
    pub open spec fn start(self) -> int {
        match self {
            Node::Identifier { start, .. } => start,
            Node::Member { start, .. } => start,
            Node::Sequence { start, .. } => start,
        }
    }

    pub open spec fn end(self) -> int {
        match self {
            Node::Identifier { end, .. } => end,
            Node::Member { end, .. } => end,
            Node::Sequence { end, .. } => end,
        }
    }
}

impl Statement {
    pub open spec fn spec_span(&self) -> Span {
        match self {
            Statement::Identifier { span, .. } => *span,
            Statement::MemberExpression { span, .. } => *span,
            Statement::Expression { span, .. } => *span,
        }
    }

    /// What this statement is; of a sequence, only its span.
    pub open spec fn node(&self) -> Node
        decreases self,
    {
        match self {
            Statement::Identifier { span, value } => Node::Identifier {
                start: span.start as int,
                end: span.end as int,
                value: value.text(),
            },
            Statement::MemberExpression { span, object, property } => Node::Member {
                start: span.start as int,
                end: span.end as int,
                object: Box::new(object.node()),
                property: Box::new(property.node()),
            },
            Statement::Expression { span, .. } => Node::Sequence {
                start: span.start as int,
                end: span.end as int,
            },
        }
    }

    pub fn to_span(&self) -> (r: Span)
        ensures
            r == self.spec_span(),
    {
        match self {
            Statement::Identifier { span, .. } => *span,
            Statement::MemberExpression { span, .. } => *span,
            Statement::Expression { span, .. } => *span,
        }
    }
}

} // verus!
