//! The parser of the pipe query language.
//!
//! The grammar, informally (keywords case-insensitive, whitespace
//! insignificant between tokens):
//!
//! ```text
//! Statement       := Query EOI
//! Query           := IdentifierStmt ( "|" AtomicClause )*
//! AtomicClause    := WhereClause
//! WhereClause     := "where"i BinaryExpr
//! BinaryExpr      := CompareExpr ( ("and" | "or") CompareExpr )*
//! CompareExpr     := BinaryTerm ( ("=" | "!=" | ">=" | ">" | "<=" | "<") BinaryTerm )?
//! BinaryTerm      := "(" BinaryExpr ")" | ScalarValue | IdentifierPath
//! ScalarValue     := Boolean | Null | Undefined | String | Decimal | Int
//! Int             := "-"? [0-9]+
//! Decimal         := "-"? [0-9]+ "." [0-9]+
//! String          := '"' [^"]* '"'
//! Boolean         := "true" | "false"
//! IdentifierPath  := Ident ("." Ident)*
//! IdentifierStmt  := IdentifierPath ( "AS"i Ident )?
//! ```
//!
//! Comparison operators bind tighter than `and`/`or`, which associate to the
//! left at equal strength. The operands of `and` and `or` must themselves be
//! binary expressions; a parse that violates this fails (it is a user error,
//! not a grammar miss). An integer or decimal literal whose digits exceed the
//! machine representation fails the parse. The whole parse is defined first
//! as specification functions over the character sequence — the executable
//! parser is proved to return exactly their result.

use vstd::prelude::*;

use crate::ast::{
    BinaryExpr, BinaryOp, IdentityValue, Node, QueryExpr, ScalarValue, SpecBinaryExpr,
    SpecIdentity, SpecNode, SpecQuery, SpecScalar,
};
use crate::error::Error;
use vstd::string::StringSliceAdditionalSpecFns;

verus! {

/// Insignificant whitespace.
pub open spec fn is_space(c: char) -> bool {
    c == ' ' || c == '\t' || c == '\r' || c == '\n'
}

/// A decimal digit.
pub open spec fn is_digit(c: char) -> bool {
    '0' <= c && c <= '9'
}

/// A character that may open an identifier.
pub open spec fn is_ident_start(c: char) -> bool {
    ('a' <= c && c <= 'z') || ('A' <= c && c <= 'Z') || c == '_'
}

/// A character that may continue an identifier.
pub open spec fn is_ident_char(c: char) -> bool {
    is_ident_start(c) || is_digit(c)
}

/// The code of a character with ASCII uppercase folded to lowercase.
pub open spec fn lower_code(c: char) -> int {
    if 'A' <= c && c <= 'Z' {
        c as int + 32
    } else {
        c as int
    }
}

/// The first position at or after `i` that holds no whitespace.
pub open spec fn skip_ws(s: Seq<char>, i: int) -> int
    decreases s.len() - i,
{
    if 0 <= i < s.len() && is_space(s[i]) {
        skip_ws(s, i + 1)
    } else {
        i
    }
}

/// `skip_ws` stays between its argument and the end.
pub proof fn lemma_skip_ws(s: Seq<char>, i: int)
    requires
        0 <= i <= s.len(),
    ensures
        i <= skip_ws(s, i) <= s.len(),
    decreases s.len() - i,
{
    if i < s.len() && is_space(s[i]) {
        lemma_skip_ws(s, i + 1);
    }
}

/// The end of the run of identifier characters starting at `i`.
pub open spec fn ident_end(s: Seq<char>, i: int) -> int
    decreases s.len() - i,
{
    if 0 <= i < s.len() && is_ident_char(s[i]) {
        ident_end(s, i + 1)
    } else {
        i
    }
}

/// `ident_end` stays between its argument and the end.
pub proof fn lemma_ident_end(s: Seq<char>, i: int)
    requires
        0 <= i <= s.len(),
    ensures
        i <= ident_end(s, i) <= s.len(),
    decreases s.len() - i,
{
    if i < s.len() && is_ident_char(s[i]) {
        lemma_ident_end(s, i + 1);
    }
}

/// The end of a dotted identifier path whose first identifier starts at `i`:
/// identifier characters run on, and a dot continues the path only when an
/// identifier follows it.
pub open spec fn path_end(s: Seq<char>, i: int) -> int
    decreases s.len() - i,
{
    if 0 <= i < s.len() && is_ident_char(s[i]) {
        path_end(s, i + 1)
    } else if 0 <= i && i + 1 < s.len() && s[i] == '.' && is_ident_start(s[i + 1]) {
        path_end(s, i + 2)
    } else {
        i
    }
}

/// `path_end` stays between its argument and the end.
pub proof fn lemma_path_end(s: Seq<char>, i: int)
    requires
        0 <= i <= s.len(),
    ensures
        i <= path_end(s, i) <= s.len(),
    decreases s.len() - i,
{
    if i < s.len() && is_ident_char(s[i]) {
        lemma_path_end(s, i + 1);
    } else if i + 1 < s.len() && s[i] == '.' && is_ident_start(s[i + 1]) {
        lemma_path_end(s, i + 2);
    }
}

/// The end of the run of digits starting at `i`.
pub open spec fn digits_end(s: Seq<char>, i: int) -> int
    decreases s.len() - i,
{
    if 0 <= i < s.len() && is_digit(s[i]) {
        digits_end(s, i + 1)
    } else {
        i
    }
}

/// `digits_end` stays between its argument and the end.
pub proof fn lemma_digits_end(s: Seq<char>, i: int)
    requires
        0 <= i <= s.len(),
    ensures
        i <= digits_end(s, i) <= s.len(),
    decreases s.len() - i,
{
    if i < s.len() && is_digit(s[i]) {
        lemma_digits_end(s, i + 1);
    }
}

/// The number the digits `s[i..j)` denote.
pub open spec fn digits_val(s: Seq<char>, i: int, j: int) -> int
    decreases j - i,
{
    if i >= j {
        0
    } else {
        digits_val(s, i, j - 1) * 10 + (s[j - 1] as int - '0' as int)
    }
}

/// Digit runs denote non-negative numbers that grow with their length.
pub proof fn lemma_digits_val_grows(s: Seq<char>, i: int, j: int, j2: int)
    requires
        i <= j <= j2,
        forall|x: int| i <= x < j2 && 0 <= x < s.len() ==> is_digit(#[trigger] s[x]),
        j2 <= s.len(),
        0 <= i,
    ensures
        0 <= digits_val(s, i, j) <= digits_val(s, i, j2),
    decreases j2 - i,
{
    if j2 > i {
        if j == j2 {
            lemma_digits_val_grows(s, i, j - 1, j2 - 1);
            assert(digits_val(s, i, j2 - 1) * 10 >= digits_val(s, i, j2 - 1)) by {
                assert(digits_val(s, i, j2 - 1) >= 0);
            }
            assert(s[j2 - 1] as int - '0' as int >= 0);
        } else {
            lemma_digits_val_grows(s, i, j, j2 - 1);
            assert(digits_val(s, i, j2 - 1) * 10 >= digits_val(s, i, j2 - 1)) by {
                assert(digits_val(s, i, j2 - 1) >= 0);
            }
            assert(s[j2 - 1] as int - '0' as int >= 0);
        }
    }
}

/// Whether the lowercase keyword `kw` stands at `i`, ending at a
/// non-identifier character (so a longer identifier is not mistaken for it).
pub open spec fn kw_at(s: Seq<char>, i: int, kw: Seq<char>) -> bool {
    &&& 0 <= i
    &&& i + kw.len() <= s.len()
    &&& forall|j: int| 0 <= j < kw.len() ==> lower_code(s[i + j]) == (#[trigger] kw[j]) as int
    &&& (i + kw.len() == s.len() || !is_ident_char(s[i + kw.len()]))
}

/// The position of the closing quote at or after `i`, or the end.
pub open spec fn quote_end(s: Seq<char>, i: int) -> int
    decreases s.len() - i,
{
    if 0 <= i < s.len() && s[i] != '"' {
        quote_end(s, i + 1)
    } else {
        i
    }
}

/// `quote_end` stays between its argument and the end.
pub proof fn lemma_quote_end(s: Seq<char>, i: int)
    requires
        0 <= i <= s.len(),
    ensures
        i <= quote_end(s, i) <= s.len(),
    decreases s.len() - i,
{
    if i < s.len() && s[i] != '"' {
        lemma_quote_end(s, i + 1);
    }
}

/// Parse a scalar literal at `i` (no leading whitespace).
pub open spec fn sp_scalar(s: Seq<char>, i: int) -> Option<(int, SpecScalar)> {
    if kw_at(s, i, "true"@) {
        Some((i + 4, SpecScalar::Boolean(true)))
    } else if kw_at(s, i, "false"@) {
        Some((i + 5, SpecScalar::Boolean(false)))
    } else if kw_at(s, i, "null"@) {
        Some((i + 4, SpecScalar::Null))
    } else if kw_at(s, i, "undefined"@) {
        Some((i + 9, SpecScalar::Undefined))
    } else if 0 <= i < s.len() && s[i] == '"' {
        let q = quote_end(s, i + 1);
        if q < s.len() {
            Some((q + 1, SpecScalar::Str(s.subrange(i, q + 1))))
        } else {
            None
        }
    } else {
        sp_number(s, i)
    }
}

/// Parse an integer or decimal literal at `i`. Digit runs beyond the machine
/// representation fail.
pub open spec fn sp_number(s: Seq<char>, i: int) -> Option<(int, SpecScalar)> {
    let neg = 0 <= i < s.len() && s[i] == '-';
    let p = if neg {
        i + 1
    } else {
        i
    };
    let de = digits_end(s, p);
    if !(0 <= p && de > p) {
        None
    } else if de + 1 < s.len() && s[de] == '.' && is_digit(s[de + 1]) {
        let fe = digits_end(s, de + 1);
        let iv = digits_val(s, p, de);
        let fv = digits_val(s, de + 1, fe);
        let sc = fe - (de + 1);
        if iv <= u64::MAX && fv <= u64::MAX && sc <= u32::MAX {
            Some(
                (
                    fe,
                    SpecScalar::Decimal {
                        negative: neg,
                        integral: iv as nat,
                        fraction: fv as nat,
                        scale: sc as nat,
                    },
                ),
            )
        } else {
            None
        }
    } else {
        let v = digits_val(s, p, de);
        if neg && v <= 0x8000_0000_0000_0000 {
            Some((de, SpecScalar::Int(-v)))
        } else if !neg && v <= 0x7fff_ffff_ffff_ffff {
            Some((de, SpecScalar::Int(v)))
        } else {
            None
        }
    }
}

/// Parse an identifier path at `i` (no leading whitespace, no alias).
pub open spec fn sp_path(s: Seq<char>, i: int) -> Option<(int, Seq<char>)> {
    if 0 <= i < s.len() && is_ident_start(s[i]) {
        let e = path_end(s, i);
        Some((e, s.subrange(i, e)))
    } else {
        None
    }
}

/// Parse a comparison operator at `i`: its end and the operation.
pub open spec fn sp_cmp_op(s: Seq<char>, i: int) -> Option<(int, BinaryOp)> {
    if 0 <= i && i + 2 <= s.len() && s[i] == '!' && s[i + 1] == '=' {
        Some((i + 2, BinaryOp::Ne))
    } else if 0 <= i && i + 2 <= s.len() && s[i] == '>' && s[i + 1] == '=' {
        Some((i + 2, BinaryOp::GtEq))
    } else if 0 <= i && i + 2 <= s.len() && s[i] == '<' && s[i + 1] == '=' {
        Some((i + 2, BinaryOp::LtEq))
    } else if 0 <= i < s.len() && s[i] == '=' {
        Some((i + 1, BinaryOp::Eq))
    } else if 0 <= i < s.len() && s[i] == '>' {
        Some((i + 1, BinaryOp::Gt))
    } else if 0 <= i < s.len() && s[i] == '<' {
        Some((i + 1, BinaryOp::Lt))
    } else {
        None
    }
}

/// Parse a term at `i` (after whitespace): a parenthesised expression, a
/// scalar, or an identifier path.
pub open spec fn sp_term(s: Seq<char>, i: int, fuel: nat) -> Option<(int, SpecNode)>
    decreases fuel,
{
    if fuel == 0 {
        None
    } else {
        let j = skip_ws(s, i);
        if 0 <= j < s.len() && s[j] == '(' {
            match sp_binexpr(s, j + 1, (fuel - 1) as nat) {
                Some((k, node)) => {
                    let c = skip_ws(s, k);
                    if 0 <= c < s.len() && s[c] == ')' {
                        Some((c + 1, node))
                    } else {
                        None
                    }
                },
                None => None,
            }
        } else {
            match sp_scalar(s, j) {
                Some((k, sv)) => Some((k, SpecNode::Scalar(sv))),
                None => match sp_path(s, j) {
                    Some((k, p)) => Some(
                        (k, SpecNode::Identity(SpecIdentity { value: p, alias: None })),
                    ),
                    None => None,
                },
            }
        }
    }
}

/// Parse a comparison at `i`: a term, optionally followed by a comparison
/// operator and a second term.
pub open spec fn sp_compare(s: Seq<char>, i: int, fuel: nat) -> Option<(int, SpecNode)>
    decreases fuel,
{
    if fuel == 0 {
        None
    } else {
        match sp_term(s, i, (fuel - 1) as nat) {
            Some((j, left)) => {
                let w = skip_ws(s, j);
                match sp_cmp_op(s, w) {
                    Some((o, op)) => match sp_term(s, o, (fuel - 1) as nat) {
                        Some((k, right)) => Some(
                            (
                                k,
                                SpecNode::BinaryExpr(
                                    SpecBinaryExpr {
                                        op,
                                        left: Box::new(left),
                                        right: Box::new(right),
                                    },
                                ),
                            ),
                        ),
                        None => None,
                    },
                    None => Some((j, left)),
                }
            },
            None => None,
        }
    }
}

/// Fold further `and` / `or` conjuncts onto `left`, left-associatively. Both
/// operands of a logical operator must be binary expressions.
pub open spec fn sp_more(s: Seq<char>, left: SpecNode, i: int, fuel: nat) -> Option<
    (int, SpecNode),
>
    decreases fuel,
{
    if fuel == 0 {
        None
    } else {
        let w = skip_ws(s, i);
        let opk: Option<(int, BinaryOp)> = if kw_at(s, w, "and"@) {
            Some((w + 3, BinaryOp::And))
        } else if kw_at(s, w, "or"@) {
            Some((w + 2, BinaryOp::Or))
        } else {
            None
        };
        match opk {
            Some((o, op)) => match sp_compare(s, o, (fuel - 1) as nat) {
                Some((k, right)) => {
                    if left is BinaryExpr && right is BinaryExpr {
                        sp_more(
                            s,
                            SpecNode::BinaryExpr(
                                SpecBinaryExpr { op, left: Box::new(left), right: Box::new(right) },
                            ),
                            k,
                            (fuel - 1) as nat,
                        )
                    } else {
                        None
                    }
                },
                None => None,
            },
            None => Some((i, left)),
        }
    }
}

/// Parse a binary expression at `i`: comparisons joined by `and` / `or`.
pub open spec fn sp_binexpr(s: Seq<char>, i: int, fuel: nat) -> Option<(int, SpecNode)>
    decreases fuel,
{
    if fuel == 0 {
        None
    } else {
        match sp_compare(s, i, (fuel - 1) as nat) {
            Some((j, left)) => sp_more(s, left, j, (fuel - 1) as nat),
            None => None,
        }
    }
}

/// Parse a `where` clause at `i`: the keyword, then a binary expression,
/// which must be a comparison or logical combination (a bare term is not a
/// filter).
pub open spec fn sp_where(s: Seq<char>, i: int, fuel: nat) -> Option<(int, SpecBinaryExpr)> {
    let w = skip_ws(s, i);
    if kw_at(s, w, "where"@) {
        match sp_binexpr(s, w + 5, fuel) {
            Some((j, node)) => match node {
                SpecNode::BinaryExpr(be) => Some((j, be)),
                _ => None,
            },
            None => None,
        }
    } else {
        None
    }
}

/// Parse the table identifier with its optional alias.
pub open spec fn sp_ident_stmt(s: Seq<char>, i: int) -> Option<(int, SpecIdentity)> {
    let j = skip_ws(s, i);
    match sp_path(s, j) {
        Some((k, p)) => {
            let w = skip_ws(s, k);
            if kw_at(s, w, "as"@) {
                let a = skip_ws(s, w + 2);
                if 0 <= a < s.len() && is_ident_start(s[a]) {
                    let e = ident_end(s, a);
                    Some((e, SpecIdentity { value: p, alias: Some(s.subrange(a, e)) }))
                } else {
                    None
                }
            } else {
                Some((k, SpecIdentity { value: p, alias: None }))
            }
        },
        None => None,
    }
}

/// Parse the pipe stages after the table: each is a `where` clause whose
/// expression joins the filter list.
pub open spec fn sp_stages(s: Seq<char>, acc: Seq<SpecBinaryExpr>, i: int, fuel: nat) -> Option<
    (int, Seq<SpecBinaryExpr>),
>
    decreases fuel,
{
    if fuel == 0 {
        None
    } else {
        let w = skip_ws(s, i);
        if 0 <= w < s.len() && s[w] == '|' {
            match sp_where(s, w + 1, (fuel - 1) as nat) {
                Some((j, be)) => sp_stages(s, acc.push(be), j, (fuel - 1) as nat),
                None => None,
            }
        } else {
            Some((i, acc))
        }
    }
}

/// Parse a whole query at `i`.
pub open spec fn sp_query(s: Seq<char>, i: int, fuel: nat) -> Option<(int, SpecQuery)> {
    match sp_ident_stmt(s, i) {
        Some((j, table)) => match sp_stages(s, Seq::empty(), j, fuel) {
            Some((k, filter)) => Some((k, SpecQuery { table, filter, order: Seq::empty() })),
            None => None,
        },
        None => None,
    }
}

/// The recursion allowance for a source: enough for any nesting the source
/// could spell.
pub open spec fn fuel_for(s: Seq<char>) -> nat {
    (4 * s.len() + 16) as nat
}

/// Parse a whole statement: a query consuming the entire source (up to
/// trailing whitespace).
pub open spec fn sp_statement(s: Seq<char>) -> Option<SpecQuery> {
    match sp_query(s, 0, fuel_for(s)) {
        Some((j, q)) => {
            if skip_ws(s, j) == s.len() {
                Some(q)
            } else {
                None
            }
        },
        None => None,
    }
}

/// Results of the scalar parser lie within the source.
pub proof fn lemma_sp_scalar_bound(s: Seq<char>, i: int)
    requires
        0 <= i <= s.len(),
    ensures
        match sp_scalar(s, i) {
            Some((j, _)) => i <= j <= s.len(),
            None => true,
        },
{
    reveal_strlit("true");
    reveal_strlit("false");
    reveal_strlit("null");
    reveal_strlit("undefined");
    if 0 <= i < s.len() && s[i] == '"' && !kw_at(s, i, "true"@) && !kw_at(s, i, "false"@) && !kw_at(
        s,
        i,
        "null"@,
    ) && !kw_at(s, i, "undefined"@) {
        lemma_quote_end(s, i + 1);
    } else {
        lemma_sp_number_bound(s, i);
    }
}

/// Results of the number parser lie within the source.
pub proof fn lemma_sp_number_bound(s: Seq<char>, i: int)
    requires
        0 <= i <= s.len(),
    ensures
        match sp_number(s, i) {
            Some((j, _)) => i <= j <= s.len(),
            None => true,
        },
{
    let neg = 0 <= i < s.len() && s[i] == '-';
    let p: int = if neg {
        i + 1
    } else {
        i
    };
    lemma_digits_end(s, p);
    let de = digits_end(s, p);
    if de > p && de + 1 < s.len() && s[de] == '.' && is_digit(s[de + 1]) {
        lemma_digits_end(s, de + 1);
    }
}

/// Results of the path parser lie within the source.
pub proof fn lemma_sp_path_bound(s: Seq<char>, i: int)
    requires
        0 <= i <= s.len(),
    ensures
        match sp_path(s, i) {
            Some((j, _)) => i <= j <= s.len(),
            None => true,
        },
{
    if 0 <= i < s.len() && is_ident_start(s[i]) {
        lemma_path_end(s, i);
    }
}

/// Results of the term parser lie within the source.
pub proof fn lemma_sp_term_bound(s: Seq<char>, i: int, fuel: nat)
    requires
        0 <= i <= s.len(),
    ensures
        match sp_term(s, i, fuel) {
            Some((j, _)) => 0 <= j <= s.len(),
            None => true,
        },
    decreases fuel,
{
    if fuel > 0 {
        let j = skip_ws(s, i);
        lemma_skip_ws(s, i);
        if 0 <= j < s.len() && s[j] == '(' {
            lemma_sp_binexpr_bound(s, j + 1, (fuel - 1) as nat);
            match sp_binexpr(s, j + 1, (fuel - 1) as nat) {
                Some((k, _)) => {
                    lemma_skip_ws(s, k);
                },
                None => {},
            }
        } else {
            lemma_sp_scalar_bound(s, j);
            lemma_sp_path_bound(s, j);
        }
    }
}

/// Results of the comparison parser lie within the source.
pub proof fn lemma_sp_compare_bound(s: Seq<char>, i: int, fuel: nat)
    requires
        0 <= i <= s.len(),
    ensures
        match sp_compare(s, i, fuel) {
            Some((j, _)) => 0 <= j <= s.len(),
            None => true,
        },
    decreases fuel,
{
    if fuel > 0 {
        lemma_sp_term_bound(s, i, (fuel - 1) as nat);
        match sp_term(s, i, (fuel - 1) as nat) {
            Some((j, _)) => {
                lemma_skip_ws(s, j);
                let w = skip_ws(s, j);
                match sp_cmp_op(s, w) {
                    Some((o, _)) => {
                        lemma_sp_term_bound(s, o, (fuel - 1) as nat);
                    },
                    None => {},
                }
            },
            None => {},
        }
    }
}

/// Results of the conjunct folder lie within the source.
pub proof fn lemma_sp_more_bound(s: Seq<char>, left: SpecNode, i: int, fuel: nat)
    requires
        0 <= i <= s.len(),
    ensures
        match sp_more(s, left, i, fuel) {
            Some((j, _)) => 0 <= j <= s.len(),
            None => true,
        },
    decreases fuel,
{
    reveal_strlit("and");
    reveal_strlit("or");
    if fuel > 0 {
        lemma_skip_ws(s, i);
        let w = skip_ws(s, i);
        let opk: Option<(int, BinaryOp)> = if kw_at(s, w, "and"@) {
            Some((w + 3, BinaryOp::And))
        } else if kw_at(s, w, "or"@) {
            Some((w + 2, BinaryOp::Or))
        } else {
            None
        };
        match opk {
            Some((o, op)) => {
                lemma_sp_compare_bound(s, o, (fuel - 1) as nat);
                match sp_compare(s, o, (fuel - 1) as nat) {
                    Some((k, right)) => {
                        if left is BinaryExpr && right is BinaryExpr {
                            lemma_sp_more_bound(
                                s,
                                SpecNode::BinaryExpr(
                                    SpecBinaryExpr {
                                        op,
                                        left: Box::new(left),
                                        right: Box::new(right),
                                    },
                                ),
                                k,
                                (fuel - 1) as nat,
                            );
                        }
                    },
                    None => {},
                }
            },
            None => {},
        }
    }
}

/// Results of the binary-expression parser lie within the source.
pub proof fn lemma_sp_binexpr_bound(s: Seq<char>, i: int, fuel: nat)
    requires
        0 <= i <= s.len(),
    ensures
        match sp_binexpr(s, i, fuel) {
            Some((j, _)) => 0 <= j <= s.len(),
            None => true,
        },
    decreases fuel,
{
    if fuel > 0 {
        lemma_sp_compare_bound(s, i, (fuel - 1) as nat);
        match sp_compare(s, i, (fuel - 1) as nat) {
            Some((j, left)) => {
                lemma_sp_more_bound(s, left, j, (fuel - 1) as nat);
            },
            None => {},
        }
    }
}

/// Results of the where-clause parser lie within the source.
pub proof fn lemma_sp_where_bound(s: Seq<char>, i: int, fuel: nat)
    requires
        0 <= i <= s.len(),
    ensures
        match sp_where(s, i, fuel) {
            Some((j, _)) => 0 <= j <= s.len(),
            None => true,
        },
{
    reveal_strlit("where");
    lemma_skip_ws(s, i);
    let w = skip_ws(s, i);
    if kw_at(s, w, "where"@) {
        lemma_sp_binexpr_bound(s, w + 5, fuel);
    }
}

/// Results of the identifier-statement parser lie within the source.
pub proof fn lemma_sp_ident_stmt_bound(s: Seq<char>, i: int)
    requires
        0 <= i <= s.len(),
    ensures
        match sp_ident_stmt(s, i) {
            Some((j, _)) => 0 <= j <= s.len(),
            None => true,
        },
{
    reveal_strlit("as");
    lemma_skip_ws(s, i);
    let j = skip_ws(s, i);
    lemma_sp_path_bound(s, j);
    match sp_path(s, j) {
        Some((k, _)) => {
            lemma_skip_ws(s, k);
            let w = skip_ws(s, k);
            if kw_at(s, w, "as"@) {
                lemma_skip_ws(s, w + 2);
                let a = skip_ws(s, w + 2);
                if 0 <= a < s.len() && is_ident_start(s[a]) {
                    lemma_ident_end(s, a);
                }
            }
        },
        None => {},
    }
}

/// Results of the stage parser lie within the source.
pub proof fn lemma_sp_stages_bound(s: Seq<char>, acc: Seq<SpecBinaryExpr>, i: int, fuel: nat)
    requires
        0 <= i <= s.len(),
    ensures
        match sp_stages(s, acc, i, fuel) {
            Some((j, _)) => 0 <= j <= s.len(),
            None => true,
        },
    decreases fuel,
{
    if fuel > 0 {
        lemma_skip_ws(s, i);
        let w = skip_ws(s, i);
        if 0 <= w < s.len() && s[w] == '|' {
            lemma_sp_where_bound(s, w + 1, (fuel - 1) as nat);
            match sp_where(s, w + 1, (fuel - 1) as nat) {
                Some((j, be)) => {
                    lemma_sp_stages_bound(s, acc.push(be), j, (fuel - 1) as nat);
                },
                None => {},
            }
        }
    }
}

/// The code of the ASCII character at `i`, as a byte.
fn ch(s: &str, i: usize) -> (r: u8)
    requires
        vstd::string::is_ascii(s),
        i < s@.len(),
    ensures
        r as int == s@[i as int] as int,
        r < 128,
{
    proof {
        assert('\0' <= s@[i as int] <= '\u{7f}');
    }
    s.get_ascii(i)
}

/// The character count of an ASCII string, as its byte length.
fn alen(s: &str) -> (r: usize)
    requires
        vstd::string::is_ascii(s),
    ensures
        r == s@.len(),
{
    proof {
        broadcast use vstd::string::is_ascii_spec_bytes;
        assert(vstd::string::is_ascii(s));
        assert(s.spec_bytes() =~= Seq::new(s@.len(), |q: int| s@.index(q) as u8));
    }
    let b = s.as_bytes();
    b.len()
}

/// Skip whitespace, executably.
fn x_skip_ws(s: &str, i: usize) -> (r: usize)
    requires
        vstd::string::is_ascii(s),
        i <= s@.len(),
        s@.len() < usize::MAX,
    ensures
        r as int == skip_ws(s@, i as int),
        i <= r <= s@.len(),
{
    let n = alen(s);
    let mut p = i;
    loop
        invariant
            vstd::string::is_ascii(s),
            i <= p <= n,
            n == s@.len(),
            skip_ws(s@, i as int) == skip_ws(s@, p as int),
        ensures
            i <= p <= n,
            skip_ws(s@, i as int) == p as int,
        decreases n - p,
    {
        if p >= n {
            break;
        }
        let b = ch(s, p);
        if !(b == 32 || b == 9 || b == 13 || b == 10) {
            proof {
                assert(!is_space(s@[p as int]));
            }
            break;
        }
        proof {
            assert(is_space(s@[p as int]));
        }
        p = p + 1;
    }
    p
}

/// The end of an identifier-character run, executably.
fn x_ident_end(s: &str, i: usize) -> (r: usize)
    requires
        vstd::string::is_ascii(s),
        i <= s@.len(),
        s@.len() < usize::MAX,
    ensures
        r as int == ident_end(s@, i as int),
        i <= r <= s@.len(),
{
    let n = alen(s);
    let mut p = i;
    loop
        invariant
            vstd::string::is_ascii(s),
            i <= p <= n,
            n == s@.len(),
            ident_end(s@, i as int) == ident_end(s@, p as int),
        ensures
            i <= p <= n,
            ident_end(s@, i as int) == p as int,
        decreases n - p,
    {
        if p >= n {
            break;
        }
        let b = ch(s, p);
        if !((97 <= b && b <= 122) || (65 <= b && b <= 90) || b == 95 || (48 <= b && b <= 57)) {
            proof {
                assert(!is_ident_char(s@[p as int]));
            }
            break;
        }
        proof {
            assert(is_ident_char(s@[p as int]));
        }
        p = p + 1;
    }
    p
}

/// The end of a dotted identifier path, executably.
fn x_path_end(s: &str, i: usize) -> (r: usize)
    requires
        vstd::string::is_ascii(s),
        i <= s@.len(),
        s@.len() < usize::MAX,
    ensures
        r as int == path_end(s@, i as int),
        i <= r <= s@.len(),
{
    let n = alen(s);
    let mut p = i;
    loop
        invariant
            vstd::string::is_ascii(s),
            i <= p <= n,
            n == s@.len(),
            path_end(s@, i as int) == path_end(s@, p as int),
        ensures
            p <= n,
            path_end(s@, i as int) == p as int,
        decreases n - p,
    {
        if p < n {
            let b = ch(s, p);
            if (97 <= b && b <= 122) || (65 <= b && b <= 90) || b == 95 || (48 <= b && b <= 57) {
                proof {
                    assert(is_ident_char(s@[p as int]));
                }
                p = p + 1;
                continue;
            }
            if b == 46 && p + 1 < n {
                let b2 = ch(s, p + 1);
                if (97 <= b2 && b2 <= 122) || (65 <= b2 && b2 <= 90) || b2 == 95 {
                    proof {
                        assert(s@[p as int] == '.');
                        assert(is_ident_start(s@[p + 1]));
                        assert(!is_ident_char(s@[p as int]));
                    }
                    p = p + 2;
                    continue;
                }
            }
            proof {
                assert(!is_ident_char(s@[p as int]));
                assert(!(p + 1 < s@.len() && s@[p as int] == '.' && is_ident_start(s@[p + 1])))
                    by {
                    if s@[p as int] == '.' && p + 1 < s@.len() {
                        assert(s@[p + 1] as int == ch_val(s@, p + 1));
                    }
                }
                assert(path_end(s@, p as int) == p as int);
            }
            break;
        } else {
            proof {
                assert(path_end(s@, p as int) == p as int);
            }
            break;
        }
    }
    p
}

/// The code of a character, for reasoning about bytes.
pub open spec fn ch_val(s: Seq<char>, i: int) -> int {
    s[i] as int
}

/// The end of a digit run, executably.
fn x_digits_end(s: &str, i: usize) -> (r: usize)
    requires
        vstd::string::is_ascii(s),
        i <= s@.len(),
        s@.len() < usize::MAX,
    ensures
        r as int == digits_end(s@, i as int),
        i <= r <= s@.len(),
{
    let n = alen(s);
    let mut p = i;
    loop
        invariant
            vstd::string::is_ascii(s),
            i <= p <= n,
            n == s@.len(),
            digits_end(s@, i as int) == digits_end(s@, p as int),
        ensures
            i <= p <= n,
            digits_end(s@, i as int) == p as int,
        decreases n - p,
    {
        if p >= n {
            break;
        }
        let b = ch(s, p);
        if !(48 <= b && b <= 57) {
            proof {
                assert(!is_digit(s@[p as int]));
            }
            break;
        }
        proof {
            assert(is_digit(s@[p as int]));
        }
        p = p + 1;
    }
    p
}

/// The position of the closing quote, executably.
fn x_quote_end(s: &str, i: usize) -> (r: usize)
    requires
        vstd::string::is_ascii(s),
        i <= s@.len(),
        s@.len() < usize::MAX,
    ensures
        r as int == quote_end(s@, i as int),
        i <= r <= s@.len(),
{
    let n = alen(s);
    let mut p = i;
    while p < n && ch(s, p) != 34
        invariant
            vstd::string::is_ascii(s),
            i <= p <= n,
            n == s@.len(),
            quote_end(s@, i as int) == quote_end(s@, p as int),
        decreases n - p,
    {
        proof {
            assert(s@[p as int] != '"');
        }
        p = p + 1;
    }
    proof {
        if p < n {
            assert(s@[p as int] == '"');
        }
    }
    p
}

/// Whether the lowercase keyword stands at `i`, executably.
fn x_kw(s: &str, i: usize, kw: &str) -> (r: bool)
    requires
        vstd::string::is_ascii(s),
        vstd::string::is_ascii(kw),
        i <= s@.len(),
    ensures
        r == kw_at(s@, i as int, kw@),
{
    let m = alen(kw);
    let n = alen(s);
    if m > n || i > n - m {
        return false;
    }
    let mut j: usize = 0;
    while j < m
        invariant
            vstd::string::is_ascii(s),
            vstd::string::is_ascii(kw),
            0 <= j <= m,
            m == kw@.len(),
            n == s@.len(),
            i + m <= n,
            forall|q: int| 0 <= q < j ==> lower_code(s@[i + q]) == (#[trigger] kw@[q]) as int,
        decreases m - j,
    {
        let b = ch(s, i + j);
        let lb = if 65 <= b && b <= 90 {
            b + 32
        } else {
            b
        };
        let kb = ch(kw, j);
        if lb != kb {
            proof {
                assert(lower_code(s@[i + j]) != kw@[j as int] as int);
            }
            return false;
        }
        proof {
            assert(lower_code(s@[i + j]) == kw@[j as int] as int);
        }
        j = j + 1;
    }
    if i + m == n {
        return true;
    }
    let b = ch(s, i + m);
    let boundary = !((97 <= b && b <= 122) || (65 <= b && b <= 90) || b == 95 || (48 <= b && b
        <= 57));
    proof {
        assert(boundary == !is_ident_char(s@[i + m]));
    }
    boundary
}

/// The value of a digit run, executably; absent when it exceeds `u64::MAX`.
fn x_digits_u64(s: &str, i: usize, j: usize) -> (r: Option<u64>)
    requires
        vstd::string::is_ascii(s),
        i <= j <= s@.len(),
        forall|x: int| i <= x < j ==> is_digit(#[trigger] s@[x]),
    ensures
        match r {
            Some(v) => v as int == digits_val(s@, i as int, j as int),
            None => digits_val(s@, i as int, j as int) > u64::MAX,
        },
{
    let mut acc: u128 = 0;
    let mut p = i;
    while p < j
        invariant
            vstd::string::is_ascii(s),
            i <= p <= j <= s@.len(),
            forall|x: int| i <= x < j ==> is_digit(#[trigger] s@[x]),
            acc <= u64::MAX,
            acc as int == digits_val(s@, i as int, p as int),
        decreases j - p,
    {
        let b = ch(s, p);
        proof {
            assert(is_digit(s@[p as int]));
            assert('0' as int == 48 && '9' as int == 57);
            assert(48 <= b && b <= 57);
        }
        let d = (b - 48) as u128;
        let next: u128 = acc * 10 + d;
        proof {
            assert(next as int == digits_val(s@, i as int, p + 1));
        }
        if next > u64::MAX as u128 {
            proof {
                lemma_digits_val_grows(s@, i as int, p + 1, j as int);
            }
            return None;
        }
        acc = next;
        p = p + 1;
    }
    Some(acc as u64)
}

/// Parse a scalar literal, executably.
fn x_scalar(s: &str, i: usize) -> (r: Result<(usize, ScalarValue), Error>)
    requires
        vstd::string::is_ascii(s),
        i <= s@.len(),
        s@.len() < usize::MAX,
    ensures
        match sp_scalar(s@, i as int) {
            Some((j, sv)) => match r {
                Ok((ju, v)) => ju == j && v.deep_view() == sv && ju <= s@.len(),
                Err(_) => false,
            },
            None => r matches Err(e) && e is Parse,
        },
{
    proof {
        reveal_strlit("true");
        reveal_strlit("false");
        reveal_strlit("null");
        reveal_strlit("undefined");
        assert(vstd::string::is_ascii("true"));
        assert(vstd::string::is_ascii("false"));
        assert(vstd::string::is_ascii("null"));
        assert(vstd::string::is_ascii("undefined"));
        lemma_sp_scalar_bound(s@, i as int);
        lemma_sp_number_bound(s@, i as int);
    }
    let n = alen(s);
    if x_kw(s, i, "true") {
        return Ok((i + 4, ScalarValue::Boolean(true)));
    }
    if x_kw(s, i, "false") {
        return Ok((i + 5, ScalarValue::Boolean(false)));
    }
    if x_kw(s, i, "null") {
        return Ok((i + 4, ScalarValue::Null));
    }
    if x_kw(s, i, "undefined") {
        return Ok((i + 9, ScalarValue::Undefined));
    }
    if i < n && ch(s, i) == 34 {
        proof {
            assert(s@[i as int] == '"');
        }
        let q = x_quote_end(s, i + 1);
        if q < n {
            let lit = s.substring_ascii(i, q + 1).to_owned();
            return Ok((q + 1, ScalarValue::String(lit)));
        }
        return Err(Error::Parse(String::from_str("unterminated string literal")));
    }
    proof {
        if i < s@.len() {
            assert(s@[i as int] != '"');
        }
    }
    // A number: an optional sign, digits, and an optional fraction.
    let neg = i < n && ch(s, i) == 45;
    proof {
        assert(neg == (0 <= i < s@.len() && s@[i as int] == '-'));
    }
    let p = if neg {
        i + 1
    } else {
        i
    };
    let de = x_digits_end(s, p);
    if de == p {
        return Err(Error::Parse(String::from_str("expected a literal")));
    }
    proof {
        assert forall|x: int| p <= x < de implies is_digit(#[trigger] s@[x]) by {
            lemma_digits_run(s@, p as int, x);
        }
    }
    if de + 1 < n && ch(s, de) == 46 && {
        let b2 = ch(s, de + 1);
        48 <= b2 && b2 <= 57
    } {
        proof {
            assert(s@[de as int] == '.');
            assert(is_digit(s@[de + 1]));
        }
        let fe = x_digits_end(s, de + 1);
        proof {
            assert forall|x: int| de + 1 <= x < fe implies is_digit(#[trigger] s@[x]) by {
                lemma_digits_run(s@, de + 1, x);
            }
        }
        let iv = x_digits_u64(s, p, de);
        let fv = x_digits_u64(s, de + 1, fe);
        let sc = fe - (de + 1);
        match (iv, fv) {
            (Some(ivv), Some(fvv)) => {
                if sc <= u32::MAX as usize {
                    return Ok(
                        (
                            fe,
                            ScalarValue::Decimal(
                                crate::ast::DecimalValue {
                                    negative: neg,
                                    integral: ivv,
                                    fraction: fvv,
                                    scale: sc as u32,
                                },
                            ),
                        ),
                    );
                }
                return Err(Error::Parse(String::from_str("decimal literal too long")));
            },
            _ => {
                return Err(Error::Parse(String::from_str("decimal literal out of range")));
            },
        }
    }
    proof {
        if de + 1 < s@.len() && s@[de as int] == '.' {
            assert(!is_digit(s@[de + 1]));
        }
    }
    let v = x_digits_u64(s, p, de);
    match v {
        Some(vv) => {
            if neg {
                if vv <= 9223372036854775808 {
                    let value: i64 = if vv == 9223372036854775808 {
                        i64::MIN
                    } else {
                        -(vv as i64)
                    };
                    return Ok((de, ScalarValue::Int(value)));
                }
                return Err(Error::Parse(String::from_str("integer literal out of range")));
            }
            if vv <= 9223372036854775807 {
                return Ok((de, ScalarValue::Int(vv as i64)));
            }
            return Err(Error::Parse(String::from_str("integer literal out of range")));
        },
        None => {
            return Err(Error::Parse(String::from_str("integer literal out of range")));
        },
    }
}

/// Characters inside a digit run are digits.
proof fn lemma_digits_run(s: Seq<char>, i: int, x: int)
    requires
        0 <= i <= s.len(),
        i <= x < digits_end(s, i),
    ensures
        is_digit(s[x]),
    decreases x - i,
{
    lemma_digits_end(s, i);
    if x > i {
        lemma_digits_run(s, i + 1, x);
    }
}

/// Parse an identifier path, executably.
fn x_path(s: &str, i: usize) -> (r: Result<(usize, String), Error>)
    requires
        vstd::string::is_ascii(s),
        i <= s@.len(),
        s@.len() < usize::MAX,
    ensures
        match sp_path(s@, i as int) {
            Some((j, p)) => match r {
                Ok((ju, v)) => ju == j && v@ == p && ju <= s@.len(),
                Err(_) => false,
            },
            None => r matches Err(e) && e is Parse,
        },
{
    let n = alen(s);
    if i < n {
        let b = ch(s, i);
        if (97 <= b && b <= 122) || (65 <= b && b <= 90) || b == 95 {
            proof {
                assert(is_ident_start(s@[i as int]));
                lemma_path_end(s@, i as int);
            }
            let e = x_path_end(s, i);
            let v = s.substring_ascii(i, e).to_owned();
            return Ok((e, v));
        }
        proof {
            assert(!is_ident_start(s@[i as int]));
        }
    }
    Err(Error::Parse(String::from_str("expected an identifier")))
}

/// Parse a comparison operator, executably.
fn x_cmp_op(s: &str, i: usize) -> (r: Option<(usize, BinaryOp)>)
    requires
        vstd::string::is_ascii(s),
        i <= s@.len(),
        s@.len() < usize::MAX,
    ensures
        match sp_cmp_op(s@, i as int) {
            Some((j, op)) => r matches Some((ju, opu)) && ju == j && opu == op && ju <= s@.len(),
            None => r is None,
        },
{
    let n = alen(s);
    if n >= 2 && i <= n - 2 {
        let a = ch(s, i);
        let b = ch(s, i + 1);
        proof {
            assert(a as int == s@[i as int] as int);
            assert(b as int == s@[i + 1] as int);
        }
        if a == 33 && b == 61 {
            proof {
                assert(s@[i as int] == '!' && s@[i + 1] == '=');
            }
            return Some((i + 2, BinaryOp::Ne));
        }
        if a == 62 && b == 61 {
            proof {
                assert(s@[i as int] == '>' && s@[i + 1] == '=');
            }
            return Some((i + 2, BinaryOp::GtEq));
        }
        if a == 60 && b == 61 {
            proof {
                assert(s@[i as int] == '<' && s@[i + 1] == '=');
            }
            return Some((i + 2, BinaryOp::LtEq));
        }
        proof {
            assert(!(s@[i as int] == '!' && s@[i + 1] == '='));
            assert(!(s@[i as int] == '>' && s@[i + 1] == '='));
            assert(!(s@[i as int] == '<' && s@[i + 1] == '='));
        }
        if a == 61 {
            proof {
                assert(s@[i as int] == '=');
            }
            return Some((i + 1, BinaryOp::Eq));
        }
        if a == 62 {
            proof {
                assert(s@[i as int] == '>');
            }
            return Some((i + 1, BinaryOp::Gt));
        }
        if a == 60 {
            proof {
                assert(s@[i as int] == '<');
            }
            return Some((i + 1, BinaryOp::Lt));
        }
        proof {
            assert(s@[i as int] != '=' && s@[i as int] != '>' && s@[i as int] != '<');
        }
        return None;
    }
    if i < n {
        let a = ch(s, i);
        if a == 61 {
            proof {
                assert(s@[i as int] == '=');
            }
            return Some((i + 1, BinaryOp::Eq));
        }
        if a == 62 {
            proof {
                assert(s@[i as int] == '>');
            }
            return Some((i + 1, BinaryOp::Gt));
        }
        if a == 60 {
            proof {
                assert(s@[i as int] == '<');
            }
            return Some((i + 1, BinaryOp::Lt));
        }
        proof {
            assert(s@[i as int] != '=' && s@[i as int] != '>' && s@[i as int] != '<');
        }
    }
    None
}

/// Parse a term, executably.
fn x_term(s: &str, i: usize, fuel: usize) -> (r: Result<(usize, Node), Error>)
    requires
        vstd::string::is_ascii(s),
        i <= s@.len(),
        s@.len() < usize::MAX,
    ensures
        match sp_term(s@, i as int, fuel as nat) {
            Some((j, node)) => match r {
                Ok((ju, nu)) => ju == j && nu.deep_view() == node && ju <= s@.len(),
                Err(_) => false,
            },
            None => r matches Err(e) && e is Parse,
        },
    decreases fuel,
{
    if fuel == 0 {
        return Err(Error::Parse(String::from_str("expression too deeply nested")));
    }
    proof {
        lemma_sp_term_bound(s@, i as int, fuel as nat);
    }
    let j = x_skip_ws(s, i);
    let n = alen(s);
    if j < n && ch(s, j) == 40 {
        proof {
            assert(s@[j as int] == '(');
            lemma_sp_binexpr_bound(s@, j + 1, (fuel - 1) as nat);
        }
        let inner = x_binexpr(s, j + 1, fuel - 1)?;
        let c = x_skip_ws(s, inner.0);
        if c < n && ch(s, c) == 41 {
            proof {
                assert(s@[c as int] == ')');
            }
            return Ok((c + 1, inner.1));
        }
        proof {
            if c < s@.len() {
                assert(s@[c as int] != ')');
            }
        }
        return Err(Error::Parse(String::from_str("expected a closing parenthesis")));
    }
    proof {
        if j < s@.len() {
            assert(s@[j as int] != '(');
        }
    }
    match x_scalar(s, j) {
        Ok((k, sv)) => Ok((k, Node::Scalar(sv))),
        Err(_) => {
            let (k, p) = x_path(s, j)?;
            Ok((k, Node::Identity(IdentityValue { value: p, alias: None })))
        },
    }
}

/// Parse a comparison, executably.
fn x_compare(s: &str, i: usize, fuel: usize) -> (r: Result<(usize, Node), Error>)
    requires
        vstd::string::is_ascii(s),
        i <= s@.len(),
        s@.len() < usize::MAX,
    ensures
        match sp_compare(s@, i as int, fuel as nat) {
            Some((j, node)) => match r {
                Ok((ju, nu)) => ju == j && nu.deep_view() == node && ju <= s@.len(),
                Err(_) => false,
            },
            None => r matches Err(e) && e is Parse,
        },
    decreases fuel,
{
    if fuel == 0 {
        return Err(Error::Parse(String::from_str("expression too deeply nested")));
    }
    proof {
        lemma_sp_term_bound(s@, i as int, (fuel - 1) as nat);
    }
    let (j, left) = x_term(s, i, fuel - 1)?;
    let w = x_skip_ws(s, j);
    match x_cmp_op(s, w) {
        Some((o, op)) => {
            proof {
                lemma_sp_term_bound(s@, o as int, (fuel - 1) as nat);
            }
            let (k, right) = x_term(s, o, fuel - 1)?;
            Ok(
                (
                    k,
                    Node::BinaryExpr(
                        BinaryExpr { op, left: Box::new(left), right: Box::new(right) },
                    ),
                ),
            )
        },
        None => Ok((j, left)),
    }
}

/// Fold further conjuncts, executably.
fn x_more(s: &str, left: Node, i: usize, fuel: usize) -> (r: Result<(usize, Node), Error>)
    requires
        vstd::string::is_ascii(s),
        i <= s@.len(),
        s@.len() < usize::MAX,
    ensures
        match sp_more(s@, left.deep_view(), i as int, fuel as nat) {
            Some((j, node)) => match r {
                Ok((ju, nu)) => ju == j && nu.deep_view() == node && ju <= s@.len(),
                Err(_) => false,
            },
            None => r matches Err(e) && e is Parse,
        },
    decreases fuel,
{
    if fuel == 0 {
        return Err(Error::Parse(String::from_str("expression too deeply nested")));
    }
    proof {
        reveal_strlit("and");
        reveal_strlit("or");
        assert(vstd::string::is_ascii("and"));
        assert(vstd::string::is_ascii("or"));
    }
    let w = x_skip_ws(s, i);
    let mut op = BinaryOp::And;
    let mut o: usize = 0;
    let mut found = false;
    if x_kw(s, w, "and") {
        op = BinaryOp::And;
        o = w + 3;
        found = true;
    } else if x_kw(s, w, "or") {
        op = BinaryOp::Or;
        o = w + 2;
        found = true;
    }
    if !found {
        return Ok((i, left));
    }
    proof {
        lemma_sp_compare_bound(s@, o as int, (fuel - 1) as nat);
    }
    let (k, right) = x_compare(s, o, fuel - 1)?;
    let left_is_be = match &left {
        Node::BinaryExpr(_) => true,
        _ => false,
    };
    let right_is_be = match &right {
        Node::BinaryExpr(_) => true,
        _ => false,
    };
    if !(left_is_be && right_is_be) {
        return Err(
            Error::Parse(
                String::from_str(
                    "invalid use of an AND or OR operator: both operands must be boolean expressions",
                ),
            ),
        );
    }
    let combined = Node::BinaryExpr(BinaryExpr { op, left: Box::new(left), right: Box::new(right) });
    x_more(s, combined, k, fuel - 1)
}

/// Parse a binary expression, executably.
fn x_binexpr(s: &str, i: usize, fuel: usize) -> (r: Result<(usize, Node), Error>)
    requires
        vstd::string::is_ascii(s),
        i <= s@.len(),
        s@.len() < usize::MAX,
    ensures
        match sp_binexpr(s@, i as int, fuel as nat) {
            Some((j, node)) => match r {
                Ok((ju, nu)) => ju == j && nu.deep_view() == node && ju <= s@.len(),
                Err(_) => false,
            },
            None => r matches Err(e) && e is Parse,
        },
    decreases fuel,
{
    if fuel == 0 {
        return Err(Error::Parse(String::from_str("expression too deeply nested")));
    }
    proof {
        lemma_sp_compare_bound(s@, i as int, (fuel - 1) as nat);
    }
    let (j, left) = x_compare(s, i, fuel - 1)?;
    x_more(s, left, j, fuel - 1)
}

/// Parse a `where` clause, executably.
fn x_where(s: &str, i: usize, fuel: usize) -> (r: Result<(usize, BinaryExpr), Error>)
    requires
        vstd::string::is_ascii(s),
        i <= s@.len(),
        s@.len() < usize::MAX,
    ensures
        match sp_where(s@, i as int, fuel as nat) {
            Some((j, be)) => match r {
                Ok((ju, beu)) => ju == j && beu.deep_view() == be && ju <= s@.len(),
                Err(_) => false,
            },
            None => r matches Err(e) && e is Parse,
        },
{
    proof {
        reveal_strlit("where");
        assert(vstd::string::is_ascii("where"));
    }
    let w = x_skip_ws(s, i);
    if !x_kw(s, w, "where") {
        return Err(Error::Parse(String::from_str("expected a clause keyword")));
    }
    proof {
        lemma_sp_binexpr_bound(s@, w + 5, fuel as nat);
    }
    let (j, node) = x_binexpr(s, w + 5, fuel)?;
    match node {
        Node::BinaryExpr(be) => Ok((j, be)),
        _ => Err(
            Error::Parse(
                String::from_str("a where clause needs a comparison or a logical combination"),
            ),
        ),
    }
}

/// Parse the table identifier with its optional alias, executably.
fn x_ident_stmt(s: &str, i: usize) -> (r: Result<(usize, IdentityValue), Error>)
    requires
        vstd::string::is_ascii(s),
        i <= s@.len(),
        s@.len() < usize::MAX,
    ensures
        match sp_ident_stmt(s@, i as int) {
            Some((j, idv)) => match r {
                Ok((ju, v)) => ju == j && v.deep_view() == idv && ju <= s@.len(),
                Err(_) => false,
            },
            None => r matches Err(e) && e is Parse,
        },
{
    proof {
        reveal_strlit("as");
        assert(vstd::string::is_ascii("as"));
        lemma_sp_ident_stmt_bound(s@, i as int);
    }
    let j = x_skip_ws(s, i);
    let (k, p) = x_path(s, j)?;
    let w = x_skip_ws(s, k);
    if x_kw(s, w, "as") {
        let a = x_skip_ws(s, w + 2);
        let n = alen(s);
        if a < n {
            let b = ch(s, a);
            if (97 <= b && b <= 122) || (65 <= b && b <= 90) || b == 95 {
                proof {
                    assert(is_ident_start(s@[a as int]));
                    lemma_ident_end(s@, a as int);
                }
                let e = x_ident_end(s, a);
                let alias = s.substring_ascii(a, e).to_owned();
                return Ok((e, IdentityValue { value: p, alias: Some(alias) }));
            }
            proof {
                assert(!is_ident_start(s@[a as int]));
            }
        }
        return Err(Error::Parse(String::from_str("expected an alias identifier")));
    }
    Ok((k, IdentityValue { value: p, alias: None }))
}

/// Parse the pipe stages, executably.
fn x_stages(s: &str, acc: Vec<BinaryExpr>, i: usize, fuel: usize) -> (r: Result<
    (usize, Vec<BinaryExpr>),
    Error,
>)
    requires
        vstd::string::is_ascii(s),
        i <= s@.len(),
        s@.len() < usize::MAX,
    ensures
        match sp_stages(s@, acc.deep_view(), i as int, fuel as nat) {
            Some((j, filters)) => match r {
                Ok((ju, vs)) => ju == j && vs.deep_view() == filters && ju <= s@.len(),
                Err(_) => false,
            },
            None => r matches Err(e) && e is Parse,
        },
    decreases fuel,
{
    if fuel == 0 {
        return Err(Error::Parse(String::from_str("too many stages")));
    }
    let w = x_skip_ws(s, i);
    let n = alen(s);
    if w < n && ch(s, w) == 124 {
        proof {
            assert(s@[w as int] == '|');
            lemma_sp_where_bound(s@, w + 1, (fuel - 1) as nat);
        }
        let (j, be) = x_where(s, w + 1, fuel - 1)?;
        let ghost accv = acc.deep_view();
        let ghost bev = be.deep_view();
        let mut acc2 = acc;
        acc2.push(be);
        proof {
            assert(acc2.deep_view() =~= accv.push(bev));
        }
        x_stages(s, acc2, j, fuel - 1)
    } else {
        proof {
            if w < s@.len() {
                assert(s@[w as int] != '|');
            }
        }
        Ok((i, acc))
    }
}

/// Parse a whole query, executably.
fn x_query(s: &str, i: usize, fuel: usize) -> (r: Result<(usize, QueryExpr), Error>)
    requires
        vstd::string::is_ascii(s),
        i <= s@.len(),
        s@.len() < usize::MAX,
    ensures
        match sp_query(s@, i as int, fuel as nat) {
            Some((j, q)) => match r {
                Ok((ju, qu)) => {
                    &&& ju == j && ju <= s@.len()
                    &&& qu.table.deep_view() == q.table
                    &&& qu.filter.deep_view() == q.filter
                    &&& qu.order@.len() == 0
                },
                Err(_) => false,
            },
            None => r matches Err(e) && e is Parse,
        },
{
    proof {
        lemma_sp_ident_stmt_bound(s@, i as int);
    }
    let (j, table) = x_ident_stmt(s, i)?;
    let filters: Vec<BinaryExpr> = Vec::new();
    proof {
        assert(filters.deep_view() =~= Seq::<SpecBinaryExpr>::empty());
    }
    let (k, filter) = x_stages(s, filters, j, fuel)?;
    Ok((k, QueryExpr { table, filter, order: Vec::new() }))
}

/// Parse a query statement: the parsed nodes, today always one `Query`. The
/// result is exactly what the grammar's specification yields; a source that
/// it rejects — or one that is not ASCII, or is unreasonably large — is a
/// `Parse` error.
pub fn parse_query(source: &str) -> (r: Result<Vec<Node>, Error>)
    ensures
        vstd::string::is_ascii(source) && source@.len() < usize::MAX as int / 8 ==> match sp_statement(
            source@,
        ) {
            Some(q) => match r {
                Ok(nodes) => {
                    &&& nodes@.len() == 1
                    &&& nodes@[0] matches Node::Query(qu)
                    &&& nodes@[0]->Query_0.table.deep_view() == q.table
                    &&& nodes@[0]->Query_0.filter.deep_view() == q.filter
                    &&& nodes@[0]->Query_0.order@.len() == 0
                },
                Err(_) => false,
            },
            None => r matches Err(e) && e is Parse,
        },
        !(vstd::string::is_ascii(source) && source@.len() < usize::MAX as int / 8) ==> (r matches Err(e)
            && e is Parse),
{
    if !source.is_ascii() {
        return Err(Error::Parse(String::from_str("the query must be ASCII text")));
    }
    let n = alen(source);
    if n >= usize::MAX / 8 {
        return Err(Error::Parse(String::from_str("the query is too large")));
    }
    let fuel = 4 * n + 16;
    let (j, q) = x_query(source, 0, fuel)?;
    let e = x_skip_ws(source, j);
    if e != n {
        return Err(Error::Parse(String::from_str("unexpected trailing input")));
    }
    let mut nodes: Vec<Node> = Vec::new();
    nodes.push(Node::Query(q));
    Ok(nodes)
}

/// Parse a standalone identifier statement (a path with an optional alias)
/// into an identity node.
pub fn parse_identity(source: &str) -> (r: Result<Node, Error>)
    ensures
        vstd::string::is_ascii(source) && source@.len() < usize::MAX as int / 8 ==> match sp_ident_stmt(source@, 0) {
            Some((_, idv)) => match r {
                Ok(node) => node matches Node::Identity(v) && v.deep_view() == idv,
                Err(_) => false,
            },
            None => r matches Err(e) && e is Parse,
        },
{
    if !source.is_ascii() {
        return Err(Error::Parse(String::from_str("the query must be ASCII text")));
    }
    let n = alen(source);
    if n >= usize::MAX / 8 {
        return Err(Error::Parse(String::from_str("the query is too large")));
    }
    let (_, idv) = x_ident_stmt(source, 0)?;
    Ok(Node::Identity(idv))
}

/// Parse a standalone scalar literal into a scalar node.
pub fn parse_scalar_value(source: &str) -> (r: Result<Node, Error>)
    ensures
        vstd::string::is_ascii(source) && source@.len() < usize::MAX as int / 8 ==> match sp_scalar(source@, 0) {
            Some((_, sv)) => match r {
                Ok(node) => node matches Node::Scalar(v) && v.deep_view() == sv,
                Err(_) => false,
            },
            None => r matches Err(e) && e is Parse,
        },
{
    if !source.is_ascii() {
        return Err(Error::Parse(String::from_str("the query must be ASCII text")));
    }
    let n = alen(source);
    if n >= usize::MAX / 8 {
        return Err(Error::Parse(String::from_str("the query is too large")));
    }
    let (_, sv) = x_scalar(source, 0)?;
    Ok(Node::Scalar(sv))
}

/// The grammar's rules, for parsing a source against one production.
#[derive(Clone, Copy, PartialEq, Eq, Structural, Debug)]
pub enum Rule {
    Statement,
    Query,
    AtomicClause,
    WhereClause,
    BinaryExpr,
    BinaryTerm,
    ScalarValue,
    Int,
    Decimal,
    String,
    Boolean,
    Null,
    Undefined,
    IdentifierPath,
    IdentifierStmt,
    EOI,
}

/// Where a parse of one rule ends, when the rule matches a prefix of the
/// source. A standalone `AtomicClause` accepts its leading pipe.
pub open spec fn sp_rule_end(rule: Rule, s: Seq<char>) -> Option<int> {
    match rule {
        Rule::Statement => match sp_query(s, 0, fuel_for(s)) {
            Some((j, _)) => if skip_ws(s, j) == s.len() {
                Some(s.len() as int)
            } else {
                None
            },
            None => None,
        },
        Rule::Query => match sp_query(s, 0, fuel_for(s)) {
            Some((j, _)) => Some(j),
            None => None,
        },
        Rule::AtomicClause => {
            let w = skip_ws(s, 0);
            if 0 <= w < s.len() && s[w] == '|' {
                match sp_where(s, w + 1, fuel_for(s)) {
                    Some((j, _)) => Some(j),
                    None => None,
                }
            } else {
                match sp_where(s, 0, fuel_for(s)) {
                    Some((j, _)) => Some(j),
                    None => None,
                }
            }
        },
        Rule::WhereClause => match sp_where(s, 0, fuel_for(s)) {
            Some((j, _)) => Some(j),
            None => None,
        },
        Rule::BinaryExpr => match sp_binexpr(s, 0, fuel_for(s)) {
            Some((j, node)) => if node is BinaryExpr {
                Some(j)
            } else {
                None
            },
            None => None,
        },
        Rule::BinaryTerm => match sp_term(s, 0, fuel_for(s)) {
            Some((j, _)) => Some(j),
            None => None,
        },
        Rule::ScalarValue => match sp_scalar(s, 0) {
            Some((j, _)) => Some(j),
            None => None,
        },
        Rule::Int | Rule::Decimal | Rule::Boolean | Rule::Null | Rule::Undefined | Rule::String
            => match sp_scalar(s, 0) {
            Some((j, sv)) => if rule_admits(rule, sv) {
                Some(j)
            } else {
                None
            },
            None => None,
        },
        Rule::IdentifierPath => match sp_path(s, 0) {
            Some((j, _)) => Some(j),
            None => None,
        },
        Rule::IdentifierStmt => match sp_ident_stmt(s, 0) {
            Some((j, _)) => Some(j),
            None => None,
        },
        Rule::EOI => if s.len() == 0 {
            Some(0)
        } else {
            None
        },
    }
}

/// Which scalar shapes a scalar rule accepts.
pub open spec fn rule_admits(rule: Rule, sv: SpecScalar) -> bool {
    match rule {
        Rule::Int => sv is Int,
        Rule::Decimal => sv is Decimal,
        Rule::Boolean => sv is Boolean,
        Rule::Null => sv is Null,
        Rule::Undefined => sv is Undefined,
        Rule::String => sv is Str,
        _ => true,
    }
}

/// A successful parse of one rule: the matched span of the source.
pub struct ParseRun {
    matched: String,
}

impl ParseRun {
    /// The view of the matched text.
    pub closed spec fn matched_view(&self) -> Seq<char> {
        self.matched@
    }

    /// The text the rule matched.
    pub fn as_str(&self) -> (r: &str)
        ensures
            r@ == self.matched_view(),
    {
        self.matched.as_str()
    }
}

/// The parser of the query language, offered rule by rule.
pub struct KlangParser {}

impl KlangParser {
    /// Parse a prefix of `source` against one grammar rule; the result holds
    /// the matched text.
    pub fn parse(rule: Rule, source: &str) -> (r: Result<ParseRun, Error>)
        ensures
            vstd::string::is_ascii(source) && source@.len() < usize::MAX as int / 8 ==> match sp_rule_end(
                rule,
                source@,
            ) {
                Some(j) => match r {
                    Ok(run) => run.matched_view() == source@.subrange(0, j),
                    Err(_) => false,
                },
                None => r is Err,
            },
    {
        if !source.is_ascii() {
            return Err(Error::Parse(String::from_str("the query must be ASCII text")));
        }
        let n = alen(source);
        if n >= usize::MAX / 8 {
            return Err(Error::Parse(String::from_str("the query is too large")));
        }
        let fuel = 4 * n + 16;
        let end: usize = match rule {
            Rule::Statement => {
                let (j, _) = x_query(source, 0, fuel)?;
                let e = x_skip_ws(source, j);
                if e != n {
                    return Err(Error::Parse(String::from_str("unexpected trailing input")));
                }
                n
            },
            Rule::Query => {
                let (j, _) = x_query(source, 0, fuel)?;
                j
            },
            Rule::AtomicClause => {
                let w = x_skip_ws(source, 0);
                if w < n && ch(source, w) == 124 {
                    proof {
                        assert(source@[w as int] == '|');
                        lemma_sp_where_bound(source@, w + 1, fuel as nat);
                    }
                    let (j, _) = x_where(source, w + 1, fuel)?;
                    j
                } else {
                    proof {
                        if w < source@.len() {
                            assert(source@[w as int] != '|');
                        }
                    }
                    let (j, _) = x_where(source, 0, fuel)?;
                    j
                }
            },
            Rule::WhereClause => {
                let (j, _) = x_where(source, 0, fuel)?;
                j
            },
            Rule::BinaryExpr => {
                let (j, node) = x_binexpr(source, 0, fuel)?;
                match node {
                    Node::BinaryExpr(_) => j,
                    _ => {
                        return Err(
                            Error::Parse(String::from_str("expected a binary expression")),
                        );
                    },
                }
            },
            Rule::BinaryTerm => {
                let (j, _) = x_term(source, 0, fuel)?;
                j
            },
            Rule::ScalarValue => {
                let (j, _) = x_scalar(source, 0)?;
                j
            },
            Rule::Int | Rule::Decimal | Rule::Boolean | Rule::Null | Rule::Undefined
                | Rule::String => {
                let (j, sv) = x_scalar(source, 0)?;
                let good = match (rule, &sv) {
                    (Rule::Int, ScalarValue::Int(_)) => true,
                    (Rule::Decimal, ScalarValue::Decimal(_)) => true,
                    (Rule::Boolean, ScalarValue::Boolean(_)) => true,
                    (Rule::Null, ScalarValue::Null) => true,
                    (Rule::Undefined, ScalarValue::Undefined) => true,
                    (Rule::String, ScalarValue::String(_)) => true,
                    _ => false,
                };
                if !good {
                    return Err(Error::Parse(String::from_str("the literal has another shape")));
                }
                j
            },
            Rule::IdentifierPath => {
                let (j, _) = x_path(source, 0)?;
                j
            },
            Rule::IdentifierStmt => {
                let (j, _) = x_ident_stmt(source, 0)?;
                j
            },
            Rule::EOI => {
                if n != 0 {
                    return Err(Error::Parse(String::from_str("expected the end of input")));
                }
                0
            },
        };
        let matched = source.substring_ascii(0, end).to_owned();
        Ok(ParseRun { matched })
    }
}

/// A numeric literal written with a leading minus parses as a negative
/// number: a non-positive integer whose magnitude is the digits' value, or a
/// decimal carrying the negative sign.
pub proof fn lemma_negative_literal(s: Seq<char>, i: int)
    requires
        0 <= i < s.len(),
        s[i] == '-',
    ensures
        match sp_number(s, i) {
            Some((_, sv)) => match sv {
                SpecScalar::Int(v) => v <= 0 && v == -digits_val(s, i + 1, digits_end(s, i + 1)),
                SpecScalar::Decimal { negative, .. } => negative,
                _ => false,
            },
            None => true,
        },
{
    lemma_digits_end(s, i + 1);
    let de = digits_end(s, i + 1);
    if de > i + 1 {
        assert forall|x: int| i + 1 <= x < de implies is_digit(#[trigger] s[x]) by {
            lemma_digits_run(s, i + 1, x);
        }
        lemma_digits_val_grows(s, i + 1, i + 1, de);
        if de + 1 < s.len() && s[de] == '.' && is_digit(s[de + 1]) {
            lemma_digits_end(s, de + 1);
        }
    }
}

/// Parentheses do not alter the syntax tree: a parenthesised expression
/// parses, as a term, to exactly the node of the expression inside.
pub proof fn lemma_paren_transparent(s: Seq<char>, i: int, fuel: nat)
    requires
        0 <= i <= s.len(),
        0 <= skip_ws(s, i) < s.len(),
        s[skip_ws(s, i)] == '(',
        sp_binexpr(s, skip_ws(s, i) + 1, fuel) is Some,
        0 <= skip_ws(s, sp_binexpr(s, skip_ws(s, i) + 1, fuel).unwrap().0) < s.len(),
        s[skip_ws(s, sp_binexpr(s, skip_ws(s, i) + 1, fuel).unwrap().0)] == ')',
    ensures
        sp_term(s, i, fuel + 1) == Some(
            (
                skip_ws(s, sp_binexpr(s, skip_ws(s, i) + 1, fuel).unwrap().0) + 1,
                sp_binexpr(s, skip_ws(s, i) + 1, fuel).unwrap().1,
            ),
        ),
{
}

} // verus!
