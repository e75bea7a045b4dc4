//! The parsed query model the encoder consumes, and its plaintext reference
//! semantics.
//!
//! A collaborating SQL parser produces this model. Anything the pipeline
//! cannot lower — a non-`SELECT` statement, a join, a subquery, an aggregate —
//! is handed over as an `Unsupported` node, so that rejecting it is the
//! encoder's own, checked decision.

use vstd::prelude::*;

verus! {

use crate::values::ColumnType;
use crate::values::IntWidth;
use crate::values::PlainValue;
use crate::values::text_bytes_ok;
use crate::values::value_eq;
use crate::values::value_int;
use crate::values::value_fits;
use vstd::arithmetic::power2::lemma2_to64;
use vstd::arithmetic::power2::lemma2_to64_rest;

/// One operand of a comparison: a column reference, or a literal.
pub enum Operand {
    Column(String),
    Literal(PlainValue),
}

/// A comparison operator of the supported subset.
#[derive(Clone, Copy, Debug, PartialEq, Eq, Structural)]
pub enum CmpOp {
    Eq,
    Neq,
    Lt,
    Gt,
    Le,
    Ge,
}

/// A predicate tree, as parsed from a `WHERE` clause.
pub enum Pred {
    Cmp(CmpOp, Operand, Operand),
    And(Box<Pred>, Box<Pred>),
    Or(Box<Pred>, Box<Pred>),
    Not(Box<Pred>),
    /// `expr BETWEEN lo AND hi`: operand, lower bound, upper bound.
    Between(Operand, Operand, Operand),
    /// `expr IN (v1, .., vn)`.
    InList(Operand, Vec<Operand>),
    /// A construct outside the supported subset.
    Unsupported,
}

/// One entry of a projection list.
pub enum Proj {
    Column(String),
    Wildcard,
    /// A projection outside the supported subset (an expression, an
    /// aggregate).
    Unsupported,
}

/// A parsed `SELECT <cols> FROM <table> [WHERE <predicate>]`.
pub struct Query {
    pub projection: Vec<Proj>,
    pub table: String,
    pub selection: Option<Pred>,
    /// Set when the statement itself lies outside the supported subset (not
    /// a single-table `SELECT`).
    pub unsupported: bool,
}

/// The declared type a literal is encrypted under: the narrowest width that
/// holds it, unsigned for a non-negative number.
pub open spec fn lit_type(v: PlainValue) -> ColumnType {
    match v {
        PlainValue::Uint(x) => ColumnType::UnsignedInt(
            if x < 0x100 {
                IntWidth::W8
            } else if x < 0x10000 {
                IntWidth::W16
            } else if x < 0x100000000 {
                IntWidth::W32
            } else {
                IntWidth::W64
            },
        ),
        PlainValue::Int(x) => ColumnType::SignedInt(
            if -0x80 <= x && x < 0x80 {
                IntWidth::W8
            } else if -0x8000 <= x && x < 0x8000 {
                IntWidth::W16
            } else if -0x80000000 <= x && x < 0x80000000 {
                IntWidth::W32
            } else {
                IntWidth::W64
            },
        ),
        PlainValue::Bool(_) => ColumnType::Boolean,
        PlainValue::Text(_) => ColumnType::Text,
    }
}

/// The declared type a literal is encrypted under, at run time.
pub fn lit_type_exec(v: &PlainValue) -> (t: ColumnType)
    ensures
        t == lit_type(*v),
{
    match v {
        PlainValue::Uint(x) => ColumnType::UnsignedInt(
            if *x < 0x100 {
                IntWidth::W8
            } else if *x < 0x10000 {
                IntWidth::W16
            } else if *x < 0x100000000 {
                IntWidth::W32
            } else {
                IntWidth::W64
            },
        ),
        PlainValue::Int(x) => ColumnType::SignedInt(
            if -0x80 <= *x && *x < 0x80 {
                IntWidth::W8
            } else if -0x8000 <= *x && *x < 0x8000 {
                IntWidth::W16
            } else if -0x80000000 <= *x && *x < 0x80000000 {
                IntWidth::W32
            } else {
                IntWidth::W64
            },
        ),
        PlainValue::Bool(_) => ColumnType::Boolean,
        PlainValue::Text(_) => ColumnType::Text,
    }
}

/// Every literal fits its inferred type, as long as a text literal carries a
/// valid payload.
pub proof fn lemma_lit_fits(v: PlainValue)
    requires
        v matches PlainValue::Text(s) ==> text_bytes_ok(s@),
    ensures
        value_fits(v, lit_type(v)),
{
    lemma2_to64();
    lemma2_to64_rest();
}

/// An operand lies in the supported subset.
pub open spec fn operand_supported(o: Operand) -> bool {
    match o {
        Operand::Column(_) => true,
        Operand::Literal(v) => v matches PlainValue::Text(s) ==> text_bytes_ok(s@),
    }
}

/// A predicate lies in the supported subset: no unsupported node, no empty
/// `IN` list, and every text literal short enough to encode.
pub open spec fn pred_supported(p: Pred) -> bool
    decreases p,
{
    match p {
        Pred::Cmp(_, a, b) => operand_supported(a) && operand_supported(b),
        Pred::And(a, b) => pred_supported(*a) && pred_supported(*b),
        Pred::Or(a, b) => pred_supported(*a) && pred_supported(*b),
        Pred::Not(a) => pred_supported(*a),
        Pred::Between(e, lo, hi) => operand_supported(e) && operand_supported(lo)
            && operand_supported(hi),
        Pred::InList(e, vs) => operand_supported(e) && vs@.len() > 0 && (forall|i: int|
            0 <= i < vs@.len() ==> operand_supported(#[trigger] vs@[i])),
        Pred::Unsupported => false,
    }
}

/// A query lies in the supported subset.
pub open spec fn query_supported(q: Query) -> bool {
    &&& !q.unsupported
    &&& q.projection@.len() > 0
    &&& forall|i: int| 0 <= i < q.projection@.len() ==> !(#[trigger] q.projection@[i] matches
        Proj::Unsupported)
    &&& match q.selection {
        Some(p) => pred_supported(p),
        None => true,
    }
}

/// A schema, as specifications see it: column names with their types, in
/// declaration order.
pub type SchemaV = Seq<(Seq<char>, ColumnType)>;

/// The index of a named column, or `-1` when the schema lacks it.
pub open spec fn find_col(schema: SchemaV, name: Seq<char>) -> int
    decreases schema.len(),
{
    if schema.len() == 0 {
        -1
    } else if schema[0].0 == name {
        0
    } else {
        let r = find_col(schema.drop_first(), name);
        if r < 0 {
            -1
        } else {
            r + 1
        }
    }
}

/// `find_col` returns a sound index.
pub proof fn lemma_find_col(schema: SchemaV, name: Seq<char>)
    ensures
        find_col(schema, name) >= 0 ==> find_col(schema, name) < schema.len() && schema[find_col(
            schema,
            name,
        )].0 == name,
        find_col(schema, name) < 0 ==> forall|i: int|
            0 <= i < schema.len() ==> (#[trigger] schema[i]).0 != name,
    decreases schema.len(),
{
    if schema.len() > 0 && schema[0].0 != name {
        lemma_find_col(schema.drop_first(), name);
        assert forall|i: int|
            find_col(schema, name) < 0 && 0 <= i < schema.len() implies (
        #[trigger] schema[i]).0 != name by {
            if i > 0 {
                assert(schema.drop_first()[i - 1] == schema[i]);
            }
        }
    }
}

/// The plaintext value of an operand against one row.
pub open spec fn operand_value(o: Operand, schema: SchemaV, row: Seq<PlainValue>) -> PlainValue {
    match o {
        Operand::Column(n) => row[find_col(schema, n@)],
        Operand::Literal(v) => v,
    }
}

/// Plaintext truth of one comparison. Numbers compare as integers, whatever
/// their widths; booleans and texts compare by equality.
pub open spec fn cmp_vals(op: CmpOp, l: PlainValue, r: PlainValue) -> bool {
    match op {
        CmpOp::Eq => value_eq(l, r),
        CmpOp::Neq => !value_eq(l, r),
        CmpOp::Lt => value_int(l) < value_int(r),
        CmpOp::Gt => value_int(l) > value_int(r),
        CmpOp::Le => value_int(l) <= value_int(r),
        CmpOp::Ge => value_int(l) >= value_int(r),
    }
}

/// Plaintext truth of a predicate against one row: the reference the
/// homomorphic evaluation is held to.
pub open spec fn pred_holds(p: Pred, schema: SchemaV, row: Seq<PlainValue>) -> bool
    decreases p,
{
    match p {
        Pred::Cmp(op, a, b) => cmp_vals(
            op,
            operand_value(a, schema, row),
            operand_value(b, schema, row),
        ),
        Pred::And(a, b) => pred_holds(*a, schema, row) && pred_holds(*b, schema, row),
        Pred::Or(a, b) => pred_holds(*a, schema, row) || pred_holds(*b, schema, row),
        Pred::Not(a) => !pred_holds(*a, schema, row),
        Pred::Between(e, lo, hi) => {
            let x = value_int(operand_value(e, schema, row));
            value_int(operand_value(lo, schema, row)) <= x && x <= value_int(
                operand_value(hi, schema, row),
            )
        },
        Pred::InList(e, vs) => exists|i: int|
            0 <= i < vs@.len() && value_eq(
                operand_value(e, schema, row),
                operand_value(#[trigger] vs@[i], schema, row),
            ),
        Pred::Unsupported => false,
    }
}

/// `find_col` finds the first hit: a name absent from a prefix and present at
/// its end is found there.
pub proof fn lemma_find_col_first(schema: SchemaV, name: Seq<char>, i: int)
    requires
        0 <= i < schema.len(),
        forall|j: int| 0 <= j < i ==> (#[trigger] schema[j]).0 != name,
        schema[i].0 == name,
    ensures
        find_col(schema, name) == i,
    decreases i,
{
    if i > 0 {
        assert(schema[0].0 != name);
        assert forall|j: int| 0 <= j < i - 1 implies (#[trigger] schema.drop_first()[j]).0
            != name by {
            assert(schema.drop_first()[j] == schema[j + 1]);
        }
        assert(schema.drop_first()[i - 1] == schema[i]);
        lemma_find_col_first(schema.drop_first(), name, i - 1);
    }
}

/// A name no column bears is not found.
pub proof fn lemma_find_col_none(schema: SchemaV, name: Seq<char>)
    requires
        forall|j: int| 0 <= j < schema.len() ==> (#[trigger] schema[j]).0 != name,
    ensures
        find_col(schema, name) < 0,
    decreases schema.len(),
{
    if schema.len() > 0 {
        assert forall|j: int| 0 <= j < schema.drop_first().len() implies (
        #[trigger] schema.drop_first()[j]).0 != name by {
            assert(schema.drop_first()[j] == schema[j + 1]);
        }
        lemma_find_col_none(schema.drop_first(), name);
    }
}

} // verus!
