//! The abstract syntax tree of the pipe query language.
//!
//! A query is a table identifier followed by pipe stages; the only stage
//! today is a `where` clause carrying one binary expression. Each node also
//! has a mathematical view (`SpecNode` and friends), which the parser's
//! contracts are stated over.

use vstd::prelude::*;

verus! {

/// A binary operation for comparison or composition.
#[derive(Clone, PartialEq, Eq, Structural, Debug)]
pub enum BinaryOp {
    Eq,
    Lt,
    LtEq,
    Gt,
    GtEq,
    Ne,
    And,
    Or,
}

/// A sort direction.
#[derive(Clone, PartialEq, Eq, Structural, Debug)]
pub enum OrderByDirection {
    Asc,
    Desc,
}

/// A decimal literal, kept exactly: sign, whole part, fraction digits and
/// their count. The denoted value is
/// `sign * (integral + fraction / 10^scale)`.
#[derive(Clone, PartialEq, Eq, Structural, Debug)]
pub struct DecimalValue {
    pub negative: bool,
    pub integral: u64,
    pub fraction: u64,
    pub scale: u32,
}

/// A scalar literal.
#[derive(Clone, PartialEq, Debug)]
pub enum ScalarValue {
    Int(i64),
    Decimal(DecimalValue),
    String(String),
    Boolean(bool),
    Date(String),
    Null,
    Undefined,
}

/// An identifier path, with an optional alias.
#[derive(Clone, PartialEq, Debug)]
pub struct IdentityValue {
    pub value: String,
    pub alias: Option<String>,
}

/// One `order by` stage entry.
#[derive(Clone, PartialEq, Debug)]
pub struct OrderByClause {
    pub identity: IdentityValue,
    pub direction: OrderByDirection,
}

/// A binary expression over two subtrees.
#[derive(PartialEq, Debug)]
pub struct BinaryExpr {
    pub op: BinaryOp,
    pub left: Box<Node>,
    pub right: Box<Node>,
}

/// A whole query: the table, the accumulated filters (combined with logical
/// AND by the executor), and the ordering stages.
#[derive(PartialEq, Debug)]
pub struct QueryExpr {
    pub table: IdentityValue,
    pub filter: Vec<BinaryExpr>,
    pub order: Vec<OrderByClause>,
}

/// A tagged syntax-tree node.
#[derive(PartialEq, Debug)]
pub enum Node {
    Identity(IdentityValue),
    Scalar(ScalarValue),
    BinaryExpr(BinaryExpr),
    Query(QueryExpr),
}

/// The view of a scalar literal.
pub enum SpecScalar {
    Int(int),
    Decimal { negative: bool, integral: nat, fraction: nat, scale: nat },
    Str(Seq<char>),
    Boolean(bool),
    Date(Seq<char>),
    Null,
    Undefined,
}

/// The view of an identifier.
pub struct SpecIdentity {
    pub value: Seq<char>,
    pub alias: Option<Seq<char>>,
}

/// The view of a binary expression.
pub struct SpecBinaryExpr {
    pub op: BinaryOp,
    pub left: Box<SpecNode>,
    pub right: Box<SpecNode>,
}

/// The view of a query.
pub struct SpecQuery {
    pub table: SpecIdentity,
    pub filter: Seq<SpecBinaryExpr>,
    pub order: Seq<(SpecIdentity, OrderByDirection)>,
}

/// The view of an expression node. A query node views as the opaque `Query`
/// marker; query structure is spoken of component by component, since only
/// the top level of a parse holds one.
pub enum SpecNode {
    Identity(SpecIdentity),
    Scalar(SpecScalar),
    BinaryExpr(SpecBinaryExpr),
    Query,
}

impl DeepView for ScalarValue {
    type V = SpecScalar;

    open spec fn deep_view(&self) -> SpecScalar {
        match self {
            ScalarValue::Int(v) => SpecScalar::Int(*v as int),
            ScalarValue::Decimal(d) => SpecScalar::Decimal {
                negative: d.negative,
                integral: d.integral as nat,
                fraction: d.fraction as nat,
                scale: d.scale as nat,
            },
            ScalarValue::String(s) => SpecScalar::Str(s@),
            ScalarValue::Boolean(b) => SpecScalar::Boolean(*b),
            ScalarValue::Date(s) => SpecScalar::Date(s@),
            ScalarValue::Null => SpecScalar::Null,
            ScalarValue::Undefined => SpecScalar::Undefined,
        }
    }
}

impl DeepView for IdentityValue {
    type V = SpecIdentity;

    open spec fn deep_view(&self) -> SpecIdentity {
        SpecIdentity {
            value: self.value@,
            alias: match self.alias {
                Some(a) => Some(a@),
                None => None,
            },
        }
    }
}

impl DeepView for Node {
    type V = SpecNode;

    open spec fn deep_view(&self) -> SpecNode
        decreases self,
    {
        match self {
            Node::Identity(idv) => SpecNode::Identity(idv.deep_view()),
            Node::Scalar(sv) => SpecNode::Scalar(sv.deep_view()),
            Node::BinaryExpr(be) => SpecNode::BinaryExpr(be.deep_view()),
            Node::Query(_) => SpecNode::Query,
        }
    }
}

impl DeepView for BinaryExpr {
    type V = SpecBinaryExpr;

    open spec fn deep_view(&self) -> SpecBinaryExpr
        decreases self,
    {
        SpecBinaryExpr {
            op: self.op,
            left: Box::new((*self.left).deep_view()),
            right: Box::new((*self.right).deep_view()),
        }
    }
}

impl Node {
    /// This node's binary expression, if that is what it is.
    pub fn try_into_binary_expr(self) -> (r: Result<BinaryExpr, ()>)
        ensures
            match r {
                Ok(be) => self is BinaryExpr && be == self->BinaryExpr_0,
                Err(_) => !(self is BinaryExpr),
            },
    {
        match self {
            Node::BinaryExpr(value) => Ok(value),
            _ => Err(()),
        }
    }

    /// This node's identifier, if that is what it is.
    pub fn try_into_identity(self) -> (r: Result<IdentityValue, ()>)
        ensures
            match r {
                Ok(idv) => self is Identity && idv == self->Identity_0,
                Err(_) => !(self is Identity),
            },
    {
        match self {
            Node::Identity(value) => Ok(value),
            _ => Err(()),
        }
    }

    /// This node's scalar, if that is what it is.
    pub fn try_into_scalar(self) -> (r: Result<ScalarValue, ()>)
        ensures
            match r {
                Ok(sv) => self is Scalar && sv == self->Scalar_0,
                Err(_) => !(self is Scalar),
            },
    {
        match self {
            Node::Scalar(value) => Ok(value),
            _ => Err(()),
        }
    }
}

impl ScalarValue {
    /// This scalar's integer, if that is what it is.
    pub fn try_into_int(self) -> (r: Result<i64, ()>)
        ensures
            match r {
                Ok(v) => self is Int && v == self->Int_0,
                Err(_) => !(self is Int),
            },
    {
        match self {
            ScalarValue::Int(v) => Ok(v),
            _ => Err(()),
        }
    }

    /// This scalar's decimal, if that is what it is.
    pub fn try_into_decimal(self) -> (r: Result<DecimalValue, ()>)
        ensures
            match r {
                Ok(v) => self is Decimal && v == self->Decimal_0,
                Err(_) => !(self is Decimal),
            },
    {
        match self {
            ScalarValue::Decimal(v) => Ok(v),
            _ => Err(()),
        }
    }

    /// This scalar's text, if that is what it is.
    pub fn try_into_string(self) -> (r: Result<String, ()>)
        ensures
            match r {
                Ok(v) => self is String && v == self->String_0,
                Err(_) => !(self is String),
            },
    {
        match self {
            ScalarValue::String(v) => Ok(v),
            _ => Err(()),
        }
    }
}

} // verus!
