//! The planner: lowering a query's syntax tree into a physical plan.
//!
//! The only plan node today is a collection scan over the default schema; the
//! `expr` slot is reserved for filter push-down.

use vstd::prelude::*;

use crate::ast::QueryExpr;

verus! {

/// A physical collection scan.
#[derive(Debug)]
pub struct CollectionScan {
    pub schema: String,
    pub collection: String,
    pub alias: Option<String>,
    pub expr: Option<crate::ast::BinaryExpr>,
}

/// A plan node.
#[derive(Debug)]
pub enum Node {
    CollectionScan(CollectionScan),
}

/// A query plan: a tree of plan nodes, with the root first.
pub struct QueryPlan(pub Node);

impl QueryPlan {
    /// Lower a query to a plan: one collection scan of the query's table
    /// under the default schema; filters are not pushed down yet.
    pub fn from_ast(query_expr: &QueryExpr) -> (r: QueryPlan)
        ensures
            match r.0 {
                Node::CollectionScan(scan) => {
                    &&& scan.schema@ == "default"@
                    &&& scan.collection@ == query_expr.table.value@
                    &&& (match (scan.alias, query_expr.table.alias) {
                        (Some(a), Some(b)) => a@ == b@,
                        (None, None) => true,
                        _ => false,
                    })
                    &&& scan.expr is None
                },
            },
    {
        let alias = match &query_expr.table.alias {
            Some(a) => Some(a.clone()),
            None => None,
        };
        let scan = CollectionScan {
            schema: String::from_str("default"),
            collection: query_expr.table.value.clone(),
            alias,
            expr: None,
        };
        QueryPlan(Node::CollectionScan(scan))
    }
}

} // verus!
