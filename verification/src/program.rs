//! The Predicate Program: the flat token form a query is encrypted into, the
//! encoder that lowers a query to it, and the postfix semantics the evaluator
//! is held to.
//!
//! A program is one ordered token sequence: the projected column names (or a
//! wildcard sentinel), the source table name, then the predicate in postfix
//! order. Only predicate literal values are encrypted; the program's shape —
//! column names, operator kinds, token count — is not hidden.
//!
//! `BETWEEN` and `IN` never reach the program: the encoder lowers `x BETWEEN
//! lo AND hi` to `NOT (x < lo) AND NOT (x > hi)`, and `x IN (v1..vn)` to `n`
//! equality tests joined by `OR` left to right, so membership costs one
//! comparison per listed value, and the evaluator needs no circuit beyond
//! comparison and the boolean connectives.

use vstd::prelude::*;

verus! {

use crate::compare::CmpPlan;
use crate::compare::aligned_code;
use crate::compare::lemma_aligned_code;
use crate::compare::lemma_plan_sides;
use crate::compare::lemma_text_code_injective;
use crate::compare::plan_cmp;
use crate::error::Error;
use crate::fhe::ClientKeyHandle;
use crate::fhe::CtWord;
use crate::fhe::encrypt_word;
use crate::query::CmpOp;
use crate::query::Operand;
use crate::query::Pred;
use crate::query::Proj;
use crate::query::Query;
use crate::query::SchemaV;
use crate::query::cmp_vals;
use crate::query::find_col;
use crate::query::lemma_find_col;
use crate::query::lemma_lit_fits;
use crate::query::lit_type;
use crate::query::lit_type_exec;
use crate::query::operand_supported;
use crate::query::operand_value;
use crate::query::pred_holds;
use crate::query::pred_supported;
use crate::query::query_supported;
use crate::values::ColumnType;
use crate::values::PlainValue;
use crate::values::TEXT_BYTES;
use crate::values::code_of;
use crate::values::code_val;
use crate::values::encode_value_exec;
use crate::values::is_code;
use crate::values::lemma_code_in_range;
use crate::values::text_bytes_ok;
use crate::values::value_eq;
use crate::values::value_fits;
use crate::values::value_int;

/// An operator token kind. `BETWEEN` and `IN` are lowered away by the
/// encoder, so comparison and the boolean connectives are all a program ever
/// holds.
#[derive(Clone, Copy, Debug, PartialEq, Eq, Structural)]
pub enum OpKind {
    Eq,
    Neq,
    Lt,
    Gt,
    And,
    Or,
    Not,
}

/// One token of a Predicate Program.
pub enum Token {
    /// A projected column name.
    Proj(String),
    /// The wildcard sentinel: project every column.
    ProjAll,
    /// The source table name.
    Table(String),
    /// An encrypted literal operand, with its declared type.
    Lit(CtWord, ColumnType),
    /// A column-reference operand: the evaluator substitutes the row's
    /// encrypted value for it.
    Col(String),
    /// An operator.
    Op(OpKind),
}

/// A token, as specifications see it: the literal ciphertext is read as the
/// word it carries.
pub enum TokenV {
    Proj(Seq<char>),
    ProjAll,
    Table(Seq<char>),
    Lit(u64, ColumnType),
    Col(Seq<char>),
    Op(OpKind),
}

impl View for Token {
    type V = TokenV;

    open spec fn view(&self) -> TokenV {
        match self {
            Token::Proj(n) => TokenV::Proj(n@),
            Token::ProjAll => TokenV::ProjAll,
            Token::Table(n) => TokenV::Table(n@),
            Token::Lit(c, t) => TokenV::Lit(c.word(), *t),
            Token::Col(n) => TokenV::Col(n@),
            Token::Op(k) => TokenV::Op(*k),
        }
    }
}

/// The view of a token sequence.
pub open spec fn tokens_view(ts: Seq<Token>) -> Seq<TokenV> {
    ts.map(|i: int, t: Token| t@)
}

// ---------------------------------------------------------------------------
// Lowering: from the predicate tree to postfix tokens.
// ---------------------------------------------------------------------------
/// The token an operand lowers to: a literal is encrypted under its inferred
/// type; a column name stays readable so the evaluator can substitute.
pub open spec fn lower_operand(o: Operand) -> TokenV {
    match o {
        Operand::Column(n) => TokenV::Col(n@),
        Operand::Literal(v) => TokenV::Lit(code_of(v, lit_type(v)) as u64, lit_type(v)),
    }
}

/// The postfix tokens of one comparison: both operands, then the operator.
/// `<=` and `>=` lower to the negation of the opposite strict test.
pub open spec fn lower_cmp(op: CmpOp, a: Operand, b: Operand) -> Seq<TokenV> {
    seq![lower_operand(a), lower_operand(b)] + match op {
        CmpOp::Eq => seq![TokenV::Op(OpKind::Eq)],
        CmpOp::Neq => seq![TokenV::Op(OpKind::Neq)],
        CmpOp::Lt => seq![TokenV::Op(OpKind::Lt)],
        CmpOp::Gt => seq![TokenV::Op(OpKind::Gt)],
        CmpOp::Le => seq![TokenV::Op(OpKind::Gt), TokenV::Op(OpKind::Not)],
        CmpOp::Ge => seq![TokenV::Op(OpKind::Lt), TokenV::Op(OpKind::Not)],
    }
}

/// The `IN` chain over a prefix of the list: equality tests joined by `OR`,
/// left to right.
pub open spec fn lower_in(e: Operand, vs: Seq<Operand>) -> Seq<TokenV>
    decreases vs.len(),
{
    if vs.len() <= 1 {
        lower_cmp(CmpOp::Eq, e, vs[0])
    } else {
        lower_in(e, vs.drop_last()) + lower_cmp(CmpOp::Eq, e, vs.last()) + seq![
            TokenV::Op(OpKind::Or),
        ]
    }
}

/// The postfix tokens a predicate lowers to.
pub open spec fn lower_pred(p: Pred) -> Seq<TokenV>
    decreases p,
{
    match p {
        Pred::Cmp(op, a, b) => lower_cmp(op, a, b),
        Pred::And(a, b) => lower_pred(*a) + lower_pred(*b) + seq![TokenV::Op(OpKind::And)],
        Pred::Or(a, b) => lower_pred(*a) + lower_pred(*b) + seq![TokenV::Op(OpKind::Or)],
        Pred::Not(a) => lower_pred(*a) + seq![TokenV::Op(OpKind::Not)],
        Pred::Between(e, lo, hi) => lower_cmp(CmpOp::Ge, e, lo) + lower_cmp(CmpOp::Le, e, hi)
            + seq![TokenV::Op(OpKind::And)],
        Pred::InList(e, vs) => lower_in(e, vs@),
        Pred::Unsupported => Seq::empty(),
    }
}

/// The token one projection entry lowers to.
pub open spec fn lower_proj(p: Proj) -> TokenV {
    match p {
        Proj::Column(n) => TokenV::Proj(n@),
        Proj::Wildcard => TokenV::ProjAll,
        Proj::Unsupported => TokenV::ProjAll,
    }
}

/// The whole program a query lowers to: projections, table, predicate. The
/// lowering is a function of the query alone — fresh encryptions change the
/// ciphertexts but never the words they carry, so two encodings of one query
/// have one view.
pub open spec fn lower_query(q: Query) -> Seq<TokenV> {
    q.projection@.map(|i: int, p: Proj| lower_proj(p)) + seq![TokenV::Table(q.table@)] + match q
        .selection {
        Some(p) => lower_pred(p),
        None => Seq::empty(),
    }
}

// ---------------------------------------------------------------------------
// Postfix semantics: the stack machine over token views.
// ---------------------------------------------------------------------------
/// One stack entry: an operand word with its declared type and literal mark,
/// or a boolean result.
pub enum StackV {
    Word(u64, ColumnType, bool),
    Flag(bool),
}

/// Truth of one comparison operator on aligned words.
pub open spec fn cmp_aligned(k: OpKind, a1: nat, a2: nat) -> bool {
    match k {
        OpKind::Eq => a1 == a2,
        OpKind::Neq => a1 != a2,
        OpKind::Lt => a1 < a2,
        OpKind::Gt => a1 > a2,
        _ => false,
    }
}

/// Is this operator a comparison (as opposed to a connective)?
pub open spec fn is_cmp(k: OpKind) -> bool {
    k matches OpKind::Eq || k matches OpKind::Neq || k matches OpKind::Lt || k matches OpKind::Gt
}

/// Is this comparison an order test? Order tests are refused on booleans and
/// texts.
pub open spec fn is_ordered(k: OpKind) -> bool {
    k matches OpKind::Lt || k matches OpKind::Gt
}

/// One step of the postfix machine against one row of word codes. The errors
/// depend only on the tokens and the schema, never on the row: that is the
/// oblivious-access guarantee at the specification level.
pub open spec fn step(st: Seq<StackV>, t: TokenV, schema: SchemaV, row: Seq<u64>) -> Result<
    Seq<StackV>,
    Error,
> {
    match t {
        TokenV::Lit(c, ty) => Ok(st.push(StackV::Word(c, ty, true))),
        TokenV::Col(n) => {
            let i = find_col(schema, n);
            if i < 0 {
                Err(Error::SchemaMismatch)
            } else {
                Ok(st.push(StackV::Word(row[i], schema[i].1, false)))
            }
        },
        TokenV::Op(k) => if is_cmp(k) {
            if st.len() < 2 {
                Err(Error::SchemaMismatch)
            } else {
                match (st[st.len() - 2], st[st.len() - 1]) {
                    (StackV::Word(c1, t1, l1), StackV::Word(c2, t2, l2)) => match plan_cmp(
                        is_ordered(k),
                        t1,
                        l1,
                        t2,
                        l2,
                    ) {
                        Ok(plan) => Ok(
                            st.take(st.len() - 2).push(
                                StackV::Flag(
                                    cmp_aligned(
                                        k,
                                        aligned_code(c1 as nat, t1, plan),
                                        aligned_code(c2 as nat, t2, plan),
                                    ),
                                ),
                            ),
                        ),
                        Err(e) => Err(e),
                    },
                    _ => Err(Error::SchemaMismatch),
                }
            }
        } else if (k matches OpKind::Not) {
            if st.len() < 1 {
                Err(Error::SchemaMismatch)
            } else {
                match st.last() {
                    StackV::Flag(b) => Ok(st.drop_last().push(StackV::Flag(!b))),
                    _ => Err(Error::SchemaMismatch),
                }
            }
        } else {
            if st.len() < 2 {
                Err(Error::SchemaMismatch)
            } else {
                match (st[st.len() - 2], st[st.len() - 1]) {
                    (StackV::Flag(b1), StackV::Flag(b2)) => Ok(
                        st.take(st.len() - 2).push(
                            StackV::Flag(
                                if (k matches OpKind::And) {
                                    (b1 && b2)
                                } else {
                                    (b1 || b2)
                                },
                            ),
                        ),
                    ),
                    _ => Err(Error::SchemaMismatch),
                }
            }
        },
        _ => Err(Error::SchemaMismatch),
    }
}

/// Running the machine over a token sequence, left to right.
pub open spec fn run(st: Seq<StackV>, ts: Seq<TokenV>, schema: SchemaV, row: Seq<u64>) -> Result<
    Seq<StackV>,
    Error,
>
    decreases ts.len(),
{
    if ts.len() == 0 {
        Ok(st)
    } else {
        match step(st, ts[0], schema, row) {
            Ok(st2) => run(st2, ts.drop_first(), schema, row),
            Err(e) => Err(e),
        }
    }
}

/// Running a concatenation runs the parts in order.
pub proof fn lemma_run_append(st: Seq<StackV>, a: Seq<TokenV>, b: Seq<TokenV>, schema: SchemaV, row: Seq<u64>)
    ensures
        run(st, a + b, schema, row) == match run(st, a, schema, row) {
            Ok(st2) => run(st2, b, schema, row),
            Err(e) => Err::<Seq<StackV>, Error>(e),
        },
    decreases a.len(),
{
    if a.len() == 0 {
        assert(a + b =~= b);
    } else {
        assert((a + b)[0] == a[0]);
        assert((a + b).drop_first() =~= a.drop_first() + b);
        match step(st, a[0], schema, row) {
            Ok(st2) => {
                lemma_run_append(st2, a.drop_first(), b, schema, row);
            },
            Err(_) => {},
        }
    }
}

// ---------------------------------------------------------------------------
// Static compatibility of a predicate with a schema.
// ---------------------------------------------------------------------------
/// Does an operand resolve against the schema?
pub open spec fn operand_found(o: Operand, schema: SchemaV) -> bool {
    match o {
        Operand::Column(n) => find_col(schema, n@) >= 0,
        Operand::Literal(_) => true,
    }
}

/// The declared type of an operand against a schema.
pub open spec fn operand_ty(o: Operand, schema: SchemaV) -> ColumnType {
    match o {
        Operand::Column(n) => schema[find_col(schema, n@)].1,
        Operand::Literal(v) => lit_type(v),
    }
}

/// Is the operand a literal?
pub open spec fn operand_is_lit(o: Operand) -> bool {
    o matches Operand::Literal(_)
}

/// One comparison is compatible with the schema: both operands resolve and
/// the width rule admits the pair.
pub open spec fn cmp_compat(ordered: bool, a: Operand, b: Operand, schema: SchemaV) -> bool {
    &&& operand_found(a, schema)
    &&& operand_found(b, schema)
    &&& plan_cmp(
        ordered,
        operand_ty(a, schema),
        operand_is_lit(a),
        operand_ty(b, schema),
        operand_is_lit(b),
    ) is Ok
}

/// A predicate is compatible with a schema: every comparison it lowers to is.
pub open spec fn pred_compat(p: Pred, schema: SchemaV) -> bool
    decreases p,
{
    match p {
        Pred::Cmp(op, a, b) => cmp_compat(
            op matches CmpOp::Lt || op matches CmpOp::Gt || op matches CmpOp::Le || op
                matches CmpOp::Ge,
            a,
            b,
            schema,
        ),
        Pred::And(a, b) => pred_compat(*a, schema) && pred_compat(*b, schema),
        Pred::Or(a, b) => pred_compat(*a, schema) && pred_compat(*b, schema),
        Pred::Not(a) => pred_compat(*a, schema),
        Pred::Between(e, lo, hi) => cmp_compat(true, e, lo, schema) && cmp_compat(
            true,
            e,
            hi,
            schema,
        ),
        Pred::InList(e, vs) => forall|i: int|
            0 <= i < vs@.len() ==> cmp_compat(false, e, #[trigger] vs@[i], schema),
        Pred::Unsupported => false,
    }
}

/// A row of words matches a schema and a row of plaintext values: one word
/// per column, each the code of a value that fits the column's type.
pub open spec fn row_matches(schema: SchemaV, codes: Seq<u64>, vals: Seq<PlainValue>) -> bool {
    &&& codes.len() == schema.len()
    &&& vals.len() == schema.len()
    &&& forall|i: int|
        0 <= i < schema.len() ==> value_fits(#[trigger] vals[i], schema[i].1) && codes[i] as nat
            == code_of(vals[i], schema[i].1)
}

// ---------------------------------------------------------------------------
// Lowering is faithful: the machine computes the predicate's plaintext truth.
// ---------------------------------------------------------------------------
/// The word, declared type and plaintext value of an operand against one row.
pub open spec fn operand_word(o: Operand, schema: SchemaV, codes: Seq<u64>) -> u64 {
    match o {
        Operand::Column(n) => codes[find_col(schema, n@)],
        Operand::Literal(v) => code_of(v, lit_type(v)) as u64,
    }
}

/// Lowering one operand pushes its word.
proof fn lemma_operand_step(
    o: Operand,
    st: Seq<StackV>,
    schema: SchemaV,
    codes: Seq<u64>,
    vals: Seq<PlainValue>,
)
    requires
        operand_supported(o),
        operand_found(o, schema),
        row_matches(schema, codes, vals),
    ensures
        step(st, lower_operand(o), schema, codes) == Ok::<Seq<StackV>, Error>(
            st.push(StackV::Word(operand_word(o, schema, codes), operand_ty(o, schema), operand_is_lit(o))),
        ),
        value_fits(operand_value(o, schema, vals), operand_ty(o, schema)),
        operand_word(o, schema, codes) as nat == code_of(
            operand_value(o, schema, vals),
            operand_ty(o, schema),
        ),
{
    match o {
        Operand::Column(n) => {
            lemma_find_col(schema, n@);
            let i = find_col(schema, n@);
            assert(value_fits(vals[i], schema[i].1) && codes[i] as nat == code_of(
                vals[i],
                schema[i].1,
            ));
        },
        Operand::Literal(v) => {
            lemma_lit_fits(v);
            lemma_code_in_range(v, lit_type(v));
            vstd::arithmetic::power2::lemma2_to64();
            vstd::arithmetic::power2::lemma2_to64_rest();
            if lit_type(v).width() < 64 {
                vstd::arithmetic::power2::lemma_pow2_strictly_increases(lit_type(v).width(), 64);
            }
        },
    }
}

/// The comparison of two aligned words is the plaintext comparison of the
/// values they encode.
proof fn lemma_cmp_faithful(
    k: OpKind,
    v1: PlainValue,
    t1: ColumnType,
    c1: u64,
    l1: bool,
    v2: PlainValue,
    t2: ColumnType,
    c2: u64,
    l2: bool,
    plan: CmpPlan,
)
    requires
        is_cmp(k),
        value_fits(v1, t1),
        value_fits(v2, t2),
        c1 as nat == code_of(v1, t1),
        c2 as nat == code_of(v2, t2),
        plan_cmp(is_ordered(k), t1, l1, t2, l2) == Ok::<CmpPlan, Error>(plan),
    ensures
        cmp_aligned(k, aligned_code(c1 as nat, t1, plan), aligned_code(c2 as nat, t2, plan))
            == match k {
            OpKind::Eq => value_eq(v1, v2),
            OpKind::Neq => !value_eq(v1, v2),
            OpKind::Lt => value_int(v1) < value_int(v2),
            OpKind::Gt => value_int(v1) > value_int(v2),
            _ => false,
        },
{
    lemma_plan_sides(is_ordered(k), t1, l1, t2, l2);
    lemma_code_in_range(v1, t1);
    lemma_code_in_range(v2, t2);
    lemma_aligned_code(c1 as nat, t1, plan);
    lemma_aligned_code(c2 as nat, t2, plan);
    let a1 = aligned_code(c1 as nat, t1, plan);
    let a2 = aligned_code(c2 as nat, t2, plan);
    // The aligned words sit at a common offset from the integer values, so
    // order and equality carry over; texts need the code to determine the
    // payload.
    match (t1, t2) {
        (ColumnType::Text, ColumnType::Text) => {
            if let (PlainValue::Text(s1), PlainValue::Text(s2)) = (v1, v2) {
                if c1 == c2 {
                    lemma_text_code_injective(s1@, s2@);
                }
            }
        },
        (ColumnType::Boolean, ColumnType::Boolean) => {},
        _ => {
            assert(code_val(c1 as nat, t1) == value_int(v1));
            assert(code_val(c2 as nat, t2) == value_int(v2));
        },
    }
}

/// Running one leading token.
proof fn lemma_run_cons(st: Seq<StackV>, t: TokenV, rest: Seq<TokenV>, schema: SchemaV, row: Seq<u64>)
    ensures
        run(st, seq![t] + rest, schema, row) == match step(st, t, schema, row) {
            Ok(s2) => run(s2, rest, schema, row),
            Err(e) => Err::<Seq<StackV>, Error>(e),
        },
{
    assert((seq![t] + rest)[0] == t);
    assert((seq![t] + rest).drop_first() =~= rest);
}

/// Running one more token steps the machine once more.
pub proof fn lemma_run_snoc(st: Seq<StackV>, ts: Seq<TokenV>, schema: SchemaV, row: Seq<u64>)
    requires
        ts.len() > 0,
    ensures
        run(st, ts, schema, row) == match run(st, ts.drop_last(), schema, row) {
            Ok(s2) => step(s2, ts.last(), schema, row),
            Err(e) => Err::<Seq<StackV>, Error>(e),
        },
{
    assert(ts =~= ts.drop_last() + seq![ts.last()]);
    lemma_run_append(st, ts.drop_last(), seq![ts.last()], schema, row);
    match run(st, ts.drop_last(), schema, row) {
        Ok(s2) => {
            assert((seq![ts.last()])[0] == ts.last());
            assert((seq![ts.last()]).drop_first() =~= Seq::<TokenV>::empty());
            match step(s2, ts.last(), schema, row) {
                Ok(s3) => {
                    assert(run(s3, Seq::<TokenV>::empty(), schema, row) == Ok::<
                        Seq<StackV>,
                        Error,
                    >(s3));
                },
                Err(_) => {},
            }
        },
        Err(_) => {},
    }
}

/// A prefix of a successful run succeeds.
pub proof fn lemma_run_prefix(st: Seq<StackV>, ts: Seq<TokenV>, i: int, schema: SchemaV, row: Seq<u64>)
    requires
        0 <= i <= ts.len(),
        run(st, ts, schema, row) is Ok,
    ensures
        run(st, ts.take(i), schema, row) is Ok,
{
    assert(ts =~= ts.take(i) + ts.skip(i));
    lemma_run_append(st, ts.take(i), ts.skip(i), schema, row);
}

/// Whether a comparison operator orders its operands.
pub open spec fn cmp_is_ordered(op: CmpOp) -> bool {
    !(op matches CmpOp::Eq) && !(op matches CmpOp::Neq)
}

/// Lowering one comparison runs to its plaintext truth.
proof fn lemma_lower_cmp_runs(
    op: CmpOp,
    a: Operand,
    b: Operand,
    st: Seq<StackV>,
    rest: Seq<TokenV>,
    schema: SchemaV,
    codes: Seq<u64>,
    vals: Seq<PlainValue>,
)
    requires
        operand_supported(a),
        operand_supported(b),
        cmp_compat(cmp_is_ordered(op), a, b, schema),
        row_matches(schema, codes, vals),
    ensures
        run(st, lower_cmp(op, a, b) + rest, schema, codes) == run(
            st.push(
                StackV::Flag(
                    cmp_vals(op, operand_value(a, schema, vals), operand_value(b, schema, vals)),
                ),
            ),
            rest,
            schema,
            codes,
        ),
{
    let ta = lower_operand(a);
    let tb = lower_operand(b);
    let tya = operand_ty(a, schema);
    let tyb = operand_ty(b, schema);
    let ca = operand_word(a, schema, codes);
    let cb = operand_word(b, schema, codes);
    let va = operand_value(a, schema, vals);
    let vb = operand_value(b, schema, vals);
    let la = operand_is_lit(a);
    let lb = operand_is_lit(b);
    let s1 = st.push(StackV::Word(ca, tya, la));
    let s2 = s1.push(StackV::Word(cb, tyb, lb));
    lemma_operand_step(a, st, schema, codes, vals);
    lemma_operand_step(b, s1, schema, codes, vals);
    let k = match op {
        CmpOp::Eq => OpKind::Eq,
        CmpOp::Neq => OpKind::Neq,
        CmpOp::Lt => OpKind::Lt,
        CmpOp::Gt => OpKind::Gt,
        CmpOp::Le => OpKind::Gt,
        CmpOp::Ge => OpKind::Lt,
    };
    let plan = plan_cmp(is_ordered(k), tya, la, tyb, lb)->Ok_0;
    lemma_cmp_faithful(k, va, tya, ca, la, vb, tyb, cb, lb, plan);
    assert(s2.take(s2.len() - 2) =~= st);
    let flag = cmp_aligned(k, aligned_code(ca as nat, tya, plan), aligned_code(cb as nat, tyb, plan));
    let s3 = st.push(StackV::Flag(flag));
    if (op matches CmpOp::Eq) || (op matches CmpOp::Neq) || (op matches CmpOp::Lt) || (op
        matches CmpOp::Gt) {
        // one operator token
        assert(lower_cmp(op, a, b) + rest =~= seq![ta] + (seq![tb] + (seq![TokenV::Op(k)] + rest)));
        lemma_run_cons(st, ta, seq![tb] + (seq![TokenV::Op(k)] + rest), schema, codes);
        lemma_run_cons(s1, tb, seq![TokenV::Op(k)] + rest, schema, codes);
        lemma_run_cons(s2, TokenV::Op(k), rest, schema, codes);
        assert(step(s2, TokenV::Op(k), schema, codes) == Ok::<Seq<StackV>, Error>(s3));
        assert(flag == cmp_vals(op, va, vb));
    } else {
        // strict test, then negation
        assert(lower_cmp(op, a, b) + rest =~= seq![ta] + (seq![tb] + (seq![TokenV::Op(k)] + (seq![
            TokenV::Op(OpKind::Not),
        ] + rest))));
        lemma_run_cons(st, ta, seq![tb] + (seq![TokenV::Op(k)] + (seq![TokenV::Op(OpKind::Not)] + rest)), schema, codes);
        lemma_run_cons(s1, tb, seq![TokenV::Op(k)] + (seq![TokenV::Op(OpKind::Not)] + rest), schema, codes);
        lemma_run_cons(s2, TokenV::Op(k), seq![TokenV::Op(OpKind::Not)] + rest, schema, codes);
        assert(step(s2, TokenV::Op(k), schema, codes) == Ok::<Seq<StackV>, Error>(s3));
        lemma_run_cons(s3, TokenV::Op(OpKind::Not), rest, schema, codes);
        assert(s3.drop_last() =~= st);
        assert(step(s3, TokenV::Op(OpKind::Not), schema, codes) == Ok::<Seq<StackV>, Error>(
            st.push(StackV::Flag(!flag)),
        ));
        assert(!flag == cmp_vals(op, va, vb));
    }
}

/// Lowering an `IN` list runs to membership truth.
proof fn lemma_lower_in_runs(
    e: Operand,
    vs: Seq<Operand>,
    st: Seq<StackV>,
    rest: Seq<TokenV>,
    schema: SchemaV,
    codes: Seq<u64>,
    vals: Seq<PlainValue>,
)
    requires
        vs.len() >= 1,
        operand_supported(e),
        forall|i: int| 0 <= i < vs.len() ==> operand_supported(#[trigger] vs[i]),
        forall|i: int| 0 <= i < vs.len() ==> cmp_compat(false, e, #[trigger] vs[i], schema),
        row_matches(schema, codes, vals),
    ensures
        run(st, lower_in(e, vs) + rest, schema, codes) == run(
            st.push(
                StackV::Flag(
                    exists|i: int|
                        0 <= i < vs.len() && value_eq(
                            operand_value(e, schema, vals),
                            operand_value(#[trigger] vs[i], schema, vals),
                        ),
                ),
            ),
            rest,
            schema,
            codes,
        ),
    decreases vs.len(),
{
    let ve = operand_value(e, schema, vals);
    let member = exists|i: int|
        0 <= i < vs.len() && value_eq(ve, operand_value(#[trigger] vs[i], schema, vals));
    if vs.len() == 1 {
        lemma_lower_cmp_runs(CmpOp::Eq, e, vs[0], st, rest, schema, codes, vals);
        assert(cmp_vals(CmpOp::Eq, ve, operand_value(vs[0], schema, vals)) == member);
    } else {
        let prefix = vs.drop_last();
        let member_prefix = exists|i: int|
            0 <= i < prefix.len() && value_eq(ve, operand_value(#[trigger] prefix[i], schema, vals));
        let eq_last = cmp_vals(CmpOp::Eq, ve, operand_value(vs.last(), schema, vals));
        assert(lower_in(e, vs) + rest =~= lower_in(e, prefix) + (lower_cmp(CmpOp::Eq, e, vs.last())
            + (seq![TokenV::Op(OpKind::Or)] + rest)));
        assert(forall|i: int| 0 <= i < prefix.len() ==> prefix[i] == vs[i]);
        lemma_lower_in_runs(
            e,
            prefix,
            st,
            lower_cmp(CmpOp::Eq, e, vs.last()) + (seq![TokenV::Op(OpKind::Or)] + rest),
            schema,
            codes,
            vals,
        );
        let s1 = st.push(StackV::Flag(member_prefix));
        lemma_lower_cmp_runs(
            CmpOp::Eq,
            e,
            vs.last(),
            s1,
            seq![TokenV::Op(OpKind::Or)] + rest,
            schema,
            codes,
            vals,
        );
        let s2 = s1.push(StackV::Flag(eq_last));
        lemma_run_cons(s2, TokenV::Op(OpKind::Or), rest, schema, codes);
        assert(s2.take(s2.len() - 2) =~= st);
        assert(step(s2, TokenV::Op(OpKind::Or), schema, codes) == Ok::<Seq<StackV>, Error>(
            st.push(StackV::Flag(member_prefix || eq_last)),
        ));
        assert((member_prefix || eq_last) == member) by {
            if member_prefix {
                let i = choose|i: int|
                    0 <= i < prefix.len() && value_eq(
                        ve,
                        operand_value(#[trigger] prefix[i], schema, vals),
                    );
                assert(vs[i] == prefix[i]);
                assert(member);
            }
            if eq_last {
                assert(vs[vs.len() - 1] == vs.last());
                assert(member);
            }
            if member {
                let i = choose|i: int|
                    0 <= i < vs.len() && value_eq(
                        ve,
                        operand_value(#[trigger] vs[i], schema, vals),
                    );
                if i < vs.len() - 1 {
                    assert(prefix[i] == vs[i]);
                    assert(member_prefix);
                } else {
                    assert(eq_last);
                }
            }
        }
    }
}

/// Lowering a supported, compatible predicate runs to its plaintext truth:
/// the postfix machine, fed the lowered tokens, pushes exactly the
/// predicate's truth against the row.
pub proof fn lemma_lower_pred_runs(
    p: Pred,
    st: Seq<StackV>,
    rest: Seq<TokenV>,
    schema: SchemaV,
    codes: Seq<u64>,
    vals: Seq<PlainValue>,
)
    requires
        pred_supported(p),
        pred_compat(p, schema),
        row_matches(schema, codes, vals),
    ensures
        run(st, lower_pred(p) + rest, schema, codes) == run(
            st.push(StackV::Flag(pred_holds(p, schema, vals))),
            rest,
            schema,
            codes,
        ),
    decreases p,
{
    match p {
        Pred::Cmp(op, a, b) => {
            lemma_lower_cmp_runs(op, a, b, st, rest, schema, codes, vals);
        },
        Pred::And(a, b) => {
            let ha = pred_holds(*a, schema, vals);
            let hb = pred_holds(*b, schema, vals);
            assert(lower_pred(p) + rest =~= lower_pred(*a) + (lower_pred(*b) + (seq![
                TokenV::Op(OpKind::And),
            ] + rest)));
            lemma_lower_pred_runs(*a, st, lower_pred(*b) + (seq![TokenV::Op(OpKind::And)] + rest), schema, codes, vals);
            let s1 = st.push(StackV::Flag(ha));
            lemma_lower_pred_runs(*b, s1, seq![TokenV::Op(OpKind::And)] + rest, schema, codes, vals);
            let s2 = s1.push(StackV::Flag(hb));
            lemma_run_cons(s2, TokenV::Op(OpKind::And), rest, schema, codes);
            assert(s2.take(s2.len() - 2) =~= st);
            assert(step(s2, TokenV::Op(OpKind::And), schema, codes) == Ok::<Seq<StackV>, Error>(
                st.push(StackV::Flag(ha && hb)),
            ));
        },
        Pred::Or(a, b) => {
            let ha = pred_holds(*a, schema, vals);
            let hb = pred_holds(*b, schema, vals);
            assert(lower_pred(p) + rest =~= lower_pred(*a) + (lower_pred(*b) + (seq![
                TokenV::Op(OpKind::Or),
            ] + rest)));
            lemma_lower_pred_runs(*a, st, lower_pred(*b) + (seq![TokenV::Op(OpKind::Or)] + rest), schema, codes, vals);
            let s1 = st.push(StackV::Flag(ha));
            lemma_lower_pred_runs(*b, s1, seq![TokenV::Op(OpKind::Or)] + rest, schema, codes, vals);
            let s2 = s1.push(StackV::Flag(hb));
            lemma_run_cons(s2, TokenV::Op(OpKind::Or), rest, schema, codes);
            assert(s2.take(s2.len() - 2) =~= st);
            assert(step(s2, TokenV::Op(OpKind::Or), schema, codes) == Ok::<Seq<StackV>, Error>(
                st.push(StackV::Flag(ha || hb)),
            ));
        },
        Pred::Not(a) => {
            let ha = pred_holds(*a, schema, vals);
            assert(lower_pred(p) + rest =~= lower_pred(*a) + (seq![TokenV::Op(OpKind::Not)] + rest));
            lemma_lower_pred_runs(*a, st, seq![TokenV::Op(OpKind::Not)] + rest, schema, codes, vals);
            let s1 = st.push(StackV::Flag(ha));
            lemma_run_cons(s1, TokenV::Op(OpKind::Not), rest, schema, codes);
            assert(s1.drop_last() =~= st);
        },
        Pred::Between(e, lo, hi) => {
            let hge = cmp_vals(CmpOp::Ge, operand_value(e, schema, vals), operand_value(lo, schema, vals));
            let hle = cmp_vals(CmpOp::Le, operand_value(e, schema, vals), operand_value(hi, schema, vals));
            assert(lower_pred(p) + rest =~= lower_cmp(CmpOp::Ge, e, lo) + (lower_cmp(CmpOp::Le, e, hi)
                + (seq![TokenV::Op(OpKind::And)] + rest)));
            lemma_lower_cmp_runs(CmpOp::Ge, e, lo, st, lower_cmp(CmpOp::Le, e, hi) + (seq![
                TokenV::Op(OpKind::And),
            ] + rest), schema, codes, vals);
            let s1 = st.push(StackV::Flag(hge));
            lemma_lower_cmp_runs(CmpOp::Le, e, hi, s1, seq![TokenV::Op(OpKind::And)] + rest, schema, codes, vals);
            let s2 = s1.push(StackV::Flag(hle));
            lemma_run_cons(s2, TokenV::Op(OpKind::And), rest, schema, codes);
            assert(s2.take(s2.len() - 2) =~= st);
            assert(step(s2, TokenV::Op(OpKind::And), schema, codes) == Ok::<Seq<StackV>, Error>(
                st.push(StackV::Flag(hge && hle)),
            ));
            assert((hge && hle) == pred_holds(p, schema, vals));
        },
        Pred::InList(e, vs) => {
            lemma_lower_in_runs(e, vs@, st, rest, schema, codes, vals);
        },
        Pred::Unsupported => {},
    }
}

// ---------------------------------------------------------------------------
// Obliviousness: the machine's control depends on shapes, never on words.
// ---------------------------------------------------------------------------
/// The shape of one stack entry: everything but the secret word.
pub enum ShapeV {
    WordS(ColumnType, bool),
    FlagS,
}

/// The shape of a stack.
pub open spec fn shape_of(st: Seq<StackV>) -> Seq<ShapeV> {
    st.map(
        |i: int, e: StackV|
            match e {
                StackV::Word(_, t, l) => ShapeV::WordS(t, l),
                StackV::Flag(_) => ShapeV::FlagS,
            },
    )
}

/// Stacks of one shape agree entrywise on types, literal marks and entry
/// kinds.
proof fn lemma_shape_entry(st1: Seq<StackV>, st2: Seq<StackV>, i: int)
    requires
        shape_of(st1) == shape_of(st2),
        0 <= i < st1.len(),
        st1.len() == st2.len(),
    ensures
        match (st1[i], st2[i]) {
            (StackV::Word(_, t, l), StackV::Word(_, u, m)) => t == u && l == m,
            (StackV::Flag(_), StackV::Flag(_)) => true,
            _ => false,
        },
{
    assert(shape_of(st1)[i] == shape_of(st2)[i]);
    assert(shape_of(st1)[i] == match st1[i] {
        StackV::Word(_, t, l) => ShapeV::WordS(t, l),
        StackV::Flag(_) => ShapeV::FlagS,
    });
    assert(shape_of(st2)[i] == match st2[i] {
        StackV::Word(_, t, l) => ShapeV::WordS(t, l),
        StackV::Flag(_) => ShapeV::FlagS,
    });
}

/// Against two rows, the machine fails identically or yields stacks of one
/// shape: its control flow, its errors and the widths of every operation are
/// a function of the tokens and the schema alone, never of the rows' words.
pub proof fn lemma_run_oblivious(
    st1: Seq<StackV>,
    st2: Seq<StackV>,
    ts: Seq<TokenV>,
    schema: SchemaV,
    r1: Seq<u64>,
    r2: Seq<u64>,
)
    requires
        shape_of(st1) == shape_of(st2),
    ensures
        match (run(st1, ts, schema, r1), run(st2, ts, schema, r2)) {
            (Ok(a), Ok(b)) => shape_of(a) == shape_of(b),
            (Err(e1), Err(e2)) => e1 == e2,
            _ => false,
        },
    decreases ts.len(),
{
    assert(st1.len() == st2.len()) by {
        assert(shape_of(st1).len() == shape_of(st2).len());
    }
    if ts.len() > 0 {
        let n = st1.len();
        match ts[0] {
            TokenV::Lit(c, ty) => {
                let a = st1.push(StackV::Word(c, ty, true));
                let b = st2.push(StackV::Word(c, ty, true));
                assert(shape_of(a) =~= shape_of(st1).push(ShapeV::WordS(ty, true)));
                assert(shape_of(b) =~= shape_of(st2).push(ShapeV::WordS(ty, true)));
                lemma_run_oblivious(a, b, ts.drop_first(), schema, r1, r2);
            },
            TokenV::Col(nm) => {
                let i = find_col(schema, nm);
                if i >= 0 {
                    let a = st1.push(StackV::Word(r1[i], schema[i].1, false));
                    let b = st2.push(StackV::Word(r2[i], schema[i].1, false));
                    assert(shape_of(a) =~= shape_of(st1).push(ShapeV::WordS(schema[i].1, false)));
                    assert(shape_of(b) =~= shape_of(st2).push(ShapeV::WordS(schema[i].1, false)));
                    lemma_run_oblivious(a, b, ts.drop_first(), schema, r1, r2);
                }
            },
            TokenV::Op(k) => {
                if is_cmp(k) {
                    if n >= 2 {
                        assert(shape_of(st1)[n - 2] == shape_of(st2)[n - 2]);
                        assert(shape_of(st1)[n - 1] == shape_of(st2)[n - 1]);
                        lemma_shape_entry(st1, st2, n - 2);
                        lemma_shape_entry(st1, st2, n - 1);
                        match (st1[n - 2], st1[n - 1], st2[n - 2], st2[n - 1]) {
                            (
                                StackV::Word(c1, t1, l1),
                                StackV::Word(c2, t2, l2),
                                StackV::Word(d1, u1, m1),
                                StackV::Word(d2, u2, m2),
                            ) => {
                                assert(t1 == u1 && l1 == m1 && t2 == u2 && l2 == m2);
                                match plan_cmp(is_ordered(k), t1, l1, t2, l2) {
                                    Ok(plan) => {
                                        let a = st1.take(n - 2).push(
                                            StackV::Flag(
                                                cmp_aligned(
                                                    k,
                                                    aligned_code(c1 as nat, t1, plan),
                                                    aligned_code(c2 as nat, t2, plan),
                                                ),
                                            ),
                                        );
                                        let b = st2.take(n - 2).push(
                                            StackV::Flag(
                                                cmp_aligned(
                                                    k,
                                                    aligned_code(d1 as nat, u1, plan),
                                                    aligned_code(d2 as nat, u2, plan),
                                                ),
                                            ),
                                        );
                                        assert(shape_of(a) =~= shape_of(st1).take(n - 2).push(
                                            ShapeV::FlagS,
                                        ));
                                        assert(shape_of(b) =~= shape_of(st2).take(n - 2).push(
                                            ShapeV::FlagS,
                                        ));
                                        assert(shape_of(st1).take(n - 2) == shape_of(st2).take(
                                            n - 2,
                                        ));
                                        lemma_run_oblivious(a, b, ts.drop_first(), schema, r1, r2);
                                    },
                                    Err(_) => {},
                                }
                            },
                            _ => {
                            },
                        }
                    }
                } else if (k matches OpKind::Not) {
                    if n >= 1 {
                        assert(shape_of(st1)[n - 1] == shape_of(st2)[n - 1]);
                        lemma_shape_entry(st1, st2, n - 1);
                        match (st1[n - 1], st2[n - 1]) {
                            (StackV::Flag(b1), StackV::Flag(b2)) => {
                                let a = st1.drop_last().push(StackV::Flag(!b1));
                                let b = st2.drop_last().push(StackV::Flag(!b2));
                                assert(shape_of(a) =~= shape_of(st1).take(n - 1).push(
                                    ShapeV::FlagS,
                                ));
                                assert(shape_of(b) =~= shape_of(st2).take(n - 1).push(
                                    ShapeV::FlagS,
                                ));
                                assert(shape_of(st1).take(n - 1) == shape_of(st2).take(n - 1));
                                assert(st1.last() == st1[n - 1]);
                                lemma_run_oblivious(a, b, ts.drop_first(), schema, r1, r2);
                            },
                            _ => {},
                        }
                    }
                } else {
                    if n >= 2 {
                        assert(shape_of(st1)[n - 2] == shape_of(st2)[n - 2]);
                        assert(shape_of(st1)[n - 1] == shape_of(st2)[n - 1]);
                        lemma_shape_entry(st1, st2, n - 2);
                        lemma_shape_entry(st1, st2, n - 1);
                        match (st1[n - 2], st1[n - 1], st2[n - 2], st2[n - 1]) {
                            (StackV::Flag(x1), StackV::Flag(x2), StackV::Flag(y1), StackV::Flag(y2)) => {
                                let f1 = if (k matches OpKind::And) {
                                    (x1 && x2)
                                } else {
                                    (x1 || x2)
                                };
                                let f2 = if (k matches OpKind::And) {
                                    (y1 && y2)
                                } else {
                                    (y1 || y2)
                                };
                                let a = st1.take(n - 2).push(StackV::Flag(f1));
                                let b = st2.take(n - 2).push(StackV::Flag(f2));
                                assert(shape_of(a) =~= shape_of(st1).take(n - 2).push(
                                    ShapeV::FlagS,
                                ));
                                assert(shape_of(b) =~= shape_of(st2).take(n - 2).push(
                                    ShapeV::FlagS,
                                ));
                                assert(shape_of(st1).take(n - 2) == shape_of(st2).take(n - 2));
                                lemma_run_oblivious(a, b, ts.drop_first(), schema, r1, r2);
                            },
                            _ => {},
                        }
                    }
                }
            },
            _ => {},
        }
    }
}

// ---------------------------------------------------------------------------
// The Predicate Program itself, and the encoder.
// ---------------------------------------------------------------------------
/// A program's token sequence has the required shape: at least one projection
/// token, then the table token, then predicate tokens only.
pub open spec fn prog_shape_ok(ts: Seq<TokenV>, k: nat) -> bool {
    &&& 1 <= k
    &&& k < ts.len()
    &&& forall|i: int|
        0 <= i < k ==> (#[trigger] ts[i] matches TokenV::Proj(_) || ts[i] matches TokenV::ProjAll)
    &&& ts[k as int] matches TokenV::Table(_)
    &&& forall|i: int|
        k < i < ts.len() ==> (#[trigger] ts[i] matches TokenV::Lit(_, _) || ts[i] matches
            TokenV::Col(_) || ts[i] matches TokenV::Op(_))
}

/// The ciphertext of one token is sound: made under the session tag, sized to
/// its declared type, and carrying a word that is a code of that type.
pub(crate) open spec fn tok_wf(t: Token, tag: int) -> bool {
    match t {
        Token::Lit(c, ty) => c.tag() == tag && 2 * c.nblocks() == ty.width() && is_code(
            c.word() as nat,
            ty,
        ) && c.wf(),
        _ => true,
    }
}

/// Every token of a sequence is sound.
pub(crate) open spec fn toks_wf(ts: Seq<Token>, tag: int) -> bool {
    forall|i: int| 0 <= i < ts.len() ==> tok_wf(#[trigger] ts[i], tag)
}

/// A Predicate Program: the ordered token sequence a query was lowered to,
/// and how many leading tokens are projections. Built only by `encode`.
pub struct Program {
    pub(crate) tokens: Vec<Token>,
    pub(crate) nproj: usize,
    pub(crate) tag_g: Ghost<int>,
}

impl Program {
    /// The program's tokens, as specifications see them.
    pub closed spec fn view(self) -> Seq<TokenV> {
        tokens_view(self.tokens@)
    }

    /// How many leading tokens are projections.
    pub closed spec fn nproj_spec(self) -> nat {
        self.nproj as nat
    }

    /// The session tag of the key the program's literals were encrypted
    /// under.
    pub closed spec fn tag(self) -> int {
        self.tag_g@
    }

    /// A well-formed program: shaped as projections, table, postfix
    /// predicate, with sound ciphertexts throughout.
    pub closed spec fn wf(self) -> bool {
        &&& prog_shape_ok(self.view(), self.nproj_spec())
        &&& toks_wf(self.tokens@, self.tag_g@)
    }
}

/// What the program accessors mean, for the modules that walk the tokens.
pub(crate) proof fn lemma_program_open(p: &Program)
    ensures
        p.view() == tokens_view(p.tokens@),
        p.nproj_spec() == p.nproj as nat,
        p.wf() <==> prog_shape_ok(p.view(), p.nproj_spec()) && toks_wf(p.tokens@, p.tag()),
{
}

/// Lowers one operand: a column name stays plain; a literal is encrypted
/// under its inferred type. Fails with `UnsupportedQuery` exactly on a text
/// literal that cannot be encoded.
fn lower_operand_exec(o: &Operand, key: &ClientKeyHandle, out: &mut Vec<Token>) -> (r: Result<
    (),
    Error,
>)
    requires
        toks_wf(old(out)@, key.tag()),
    ensures
        r is Ok <==> operand_supported(*o),
        r matches Err(e) ==> e == Error::UnsupportedQuery,
        r is Ok ==> tokens_view(final(out)@) == tokens_view(old(out)@) + seq![lower_operand(*o)],
        r is Ok ==> toks_wf(final(out)@, key.tag()),
{
    match o {
        Operand::Column(n) => {
            let t = Token::Col(n.clone());
            out.push(t);
            proof {
                assert(tokens_view(final(out)@) =~= tokens_view(old(out)@) + seq![
                    lower_operand(*o),
                ]);
                assert forall|i: int| 0 <= i < final(out)@.len() implies tok_wf(
                    #[trigger] final(out)@[i],
                    key.tag(),
                ) by {
                    if i < old(out)@.len() {
                        assert(tok_wf(old(out)@[i], key.tag()));
                    }
                }
            }
            Ok(())
        },
        Operand::Literal(v) => {
            if let PlainValue::Text(s) = v {
                if s.len() > TEXT_BYTES {
                    proof {
                        assert(!text_bytes_ok(s@));
                    }
                    return Err(Error::UnsupportedQuery);
                }
                let mut i: usize = 0;
                while i < s.len()
                    invariant
                        i <= s@.len(),
                        *o == Operand::Literal(*v),
                        *v == PlainValue::Text(*s),
                        forall|j: int| 0 <= j < i ==> s@[j] != 0,
                    decreases s@.len() - i,
                {
                    if s[i] == 0 {
                        proof {
                            assert(!text_bytes_ok(s@));
                        }
                        return Err(Error::UnsupportedQuery);
                    }
                    i = i + 1;
                }
            }
            let ty = lit_type_exec(v);
            proof {
                lemma_lit_fits(*v);
                lemma_code_in_range(*v, ty);
            }
            let code = encode_value_exec(v, &ty);
            let bits = ty.width_exec();
            let blocks = (bits / 2) as usize;
            proof {
                assert(2 * blocks as nat == ty.width());
            }
            let ct = encrypt_word(key, code, blocks);
            let t = Token::Lit(ct, ty);
            out.push(t);
            proof {
                assert(tokens_view(final(out)@) =~= tokens_view(old(out)@) + seq![
                    lower_operand(*o),
                ]);
                assert forall|i: int| 0 <= i < final(out)@.len() implies tok_wf(
                    #[trigger] final(out)@[i],
                    key.tag(),
                ) by {
                    if i < old(out)@.len() {
                        assert(tok_wf(old(out)@[i], key.tag()));
                    }
                }
            }
            Ok(())
        },
    }
}

/// A pushed token extends the view by its own view.
proof fn lemma_tokens_view_push(ts: Seq<Token>, t: Token)
    ensures
        tokens_view(ts.push(t)) == tokens_view(ts) + seq![t@],
{
    assert(tokens_view(ts.push(t)) =~= tokens_view(ts) + seq![t@]);
}

/// Appends one operator token.
fn push_op(out: &mut Vec<Token>, k: OpKind, tag: Ghost<int>)
    requires
        toks_wf(old(out)@, tag@),
    ensures
        tokens_view(final(out)@) == tokens_view(old(out)@) + seq![TokenV::Op(k)],
        toks_wf(final(out)@, tag@),
{
    let t = Token::Op(k);
    out.push(t);
    proof {
        lemma_tokens_view_push(old(out)@, t);
        assert forall|i: int| 0 <= i < final(out)@.len() implies tok_wf(
            #[trigger] final(out)@[i],
            tag@,
        ) by {
            if i < old(out)@.len() {
                assert(tok_wf(old(out)@[i], tag@));
            }
        }
    }
}

/// Lowers a predicate tree to postfix tokens appended to `out`, per the
/// lowering rules: comparisons as operand, operand, operator; `<=`, `>=`,
/// `BETWEEN` and `IN` rewritten to the strict tests and connectives. Fails
/// with `UnsupportedQuery` exactly when the tree lies outside the supported
/// subset.
#[verifier::rlimit(60)]
fn lower_pred_exec(p: &Pred, key: &ClientKeyHandle, out: &mut Vec<Token>) -> (r: Result<(), Error>)
    requires
        toks_wf(old(out)@, key.tag()),
    ensures
        r is Ok <==> pred_supported(*p),
        r matches Err(e) ==> e == Error::UnsupportedQuery,
        r is Ok ==> tokens_view(final(out)@) == tokens_view(old(out)@) + lower_pred(*p),
        r is Ok ==> toks_wf(final(out)@, key.tag()),
    decreases *p,
{
    match p {
        Pred::Cmp(op, a, b) => {
            match lower_operand_exec(a, key, out) {
                Err(e) => {
                    return Err(e);
                },
                Ok(_) => {},
            }
            match lower_operand_exec(b, key, out) {
                Err(e) => {
                    return Err(e);
                },
                Ok(_) => {},
            }
            match op {
                CmpOp::Eq => push_op(out, OpKind::Eq, Ghost(key.tag())),
                CmpOp::Neq => push_op(out, OpKind::Neq, Ghost(key.tag())),
                CmpOp::Lt => push_op(out, OpKind::Lt, Ghost(key.tag())),
                CmpOp::Gt => push_op(out, OpKind::Gt, Ghost(key.tag())),
                CmpOp::Le => {
                    push_op(out, OpKind::Gt, Ghost(key.tag()));
                    push_op(out, OpKind::Not, Ghost(key.tag()));
                },
                CmpOp::Ge => {
                    push_op(out, OpKind::Lt, Ghost(key.tag()));
                    push_op(out, OpKind::Not, Ghost(key.tag()));
                },
            }
            proof {
                assert(tokens_view(final(out)@) =~= tokens_view(old(out)@) + lower_pred(*p));
            }
            Ok(())
        },
        Pred::And(a, b) => {
            match lower_pred_exec(a, key, out) {
                Err(e) => {
                    return Err(e);
                },
                Ok(_) => {},
            }
            match lower_pred_exec(b, key, out) {
                Err(e) => {
                    return Err(e);
                },
                Ok(_) => {},
            }
            push_op(out, OpKind::And, Ghost(key.tag()));
            proof {
                assert(tokens_view(final(out)@) =~= tokens_view(old(out)@) + lower_pred(*p));
            }
            Ok(())
        },
        Pred::Or(a, b) => {
            match lower_pred_exec(a, key, out) {
                Err(e) => {
                    return Err(e);
                },
                Ok(_) => {},
            }
            match lower_pred_exec(b, key, out) {
                Err(e) => {
                    return Err(e);
                },
                Ok(_) => {},
            }
            push_op(out, OpKind::Or, Ghost(key.tag()));
            proof {
                assert(tokens_view(final(out)@) =~= tokens_view(old(out)@) + lower_pred(*p));
            }
            Ok(())
        },
        Pred::Not(a) => {
            match lower_pred_exec(a, key, out) {
                Err(e) => {
                    return Err(e);
                },
                Ok(_) => {},
            }
            push_op(out, OpKind::Not, Ghost(key.tag()));
            proof {
                assert(tokens_view(final(out)@) =~= tokens_view(old(out)@) + lower_pred(*p));
            }
            Ok(())
        },
        Pred::Between(e, lo, hi) => {
            match lower_operand_exec(e, key, out) {
                Err(er) => {
                    return Err(er);
                },
                Ok(_) => {},
            }
            match lower_operand_exec(lo, key, out) {
                Err(er) => {
                    return Err(er);
                },
                Ok(_) => {},
            }
            push_op(out, OpKind::Lt, Ghost(key.tag()));
            push_op(out, OpKind::Not, Ghost(key.tag()));
            match lower_operand_exec(e, key, out) {
                Err(er) => {
                    return Err(er);
                },
                Ok(_) => {},
            }
            match lower_operand_exec(hi, key, out) {
                Err(er) => {
                    return Err(er);
                },
                Ok(_) => {},
            }
            push_op(out, OpKind::Gt, Ghost(key.tag()));
            push_op(out, OpKind::Not, Ghost(key.tag()));
            push_op(out, OpKind::And, Ghost(key.tag()));
            proof {
                assert(tokens_view(final(out)@) =~= tokens_view(old(out)@) + lower_pred(*p));
            }
            Ok(())
        },
        Pred::InList(e, vs) => {
            if vs.len() == 0 {
                return Err(Error::UnsupportedQuery);
            }
            match lower_operand_exec(e, key, out) {
                Err(er) => {
                    return Err(er);
                },
                Ok(_) => {},
            }
            match lower_operand_exec(&vs[0], key, out) {
                Err(er) => {
                    return Err(er);
                },
                Ok(_) => {},
            }
            push_op(out, OpKind::Eq, Ghost(key.tag()));
            proof {
                assert(vs@.take(1).len() == 1);
                assert(vs@.take(1)[0] == vs@[0]);
                assert(lower_in(*e, vs@.take(1)) == lower_cmp(CmpOp::Eq, *e, vs@[0]));
                assert(tokens_view(out@) =~= tokens_view(old(out)@) + lower_in(
                    *e,
                    vs@.take(1),
                ));
            }
            let ghost base = old(out)@;
            let mut i: usize = 1;
            while i < vs.len()
                invariant
                    1 <= i <= vs@.len(),
                    *p == Pred::InList(*e, *vs),
                    operand_supported(*e),
                    forall|j: int| 0 <= j < i ==> operand_supported(#[trigger] vs@[j]),
                    toks_wf(out@, key.tag()),
                    tokens_view(out@) == tokens_view(base) + lower_in(*e, vs@.take(i as int)),
                decreases vs@.len() - i,
            {
                match lower_operand_exec(e, key, out) {
                    Err(er) => {
                        return Err(er);
                    },
                    Ok(_) => {},
                }
                match lower_operand_exec(&vs[i], key, out) {
                    Err(er) => {
                        return Err(er);
                    },
                    Ok(_) => {},
                }
                push_op(out, OpKind::Eq, Ghost(key.tag()));
                push_op(out, OpKind::Or, Ghost(key.tag()));
                proof {
                    let pre = vs@.take(i as int);
                    let cur = vs@.take(i + 1 as int);
                    assert(cur.drop_last() =~= pre);
                    assert(cur.last() == vs@[i as int]);
                    assert(cur.len() == i + 1 >= 2);
                    assert(lower_in(*e, cur) == lower_in(*e, pre) + lower_cmp(
                        CmpOp::Eq,
                        *e,
                        vs@[i as int],
                    ) + seq![TokenV::Op(OpKind::Or)]);
                    assert(tokens_view(out@) =~= tokens_view(base) + lower_in(*e, cur));
                }
                i = i + 1;
            }
            proof {
                assert(vs@.take(vs@.len() as int) =~= vs@);
                assert(tokens_view(final(out)@) =~= tokens_view(old(out)@) + lower_pred(*p));
            }
            Ok(())
        },
        Pred::Unsupported => Err(Error::UnsupportedQuery),
    }
}

/// Encodes a parsed query into a Predicate Program: the projection tokens,
/// the source table token, then the predicate lowered to postfix with every
/// literal encrypted under the client key. Succeeds exactly on the supported
/// subset; everything else is `UnsupportedQuery`.
///
/// The program's token view is `lower_query(q)` — a function of the query
/// alone. Fresh encryptions of one query differ only in ciphertext
/// randomness, never in the words the program carries.
pub fn encode(q: &Query, key: &ClientKeyHandle) -> (r: Result<Program, Error>)
    ensures
        r is Ok <==> query_supported(*q),
        r matches Err(e) ==> e == Error::UnsupportedQuery,
        r matches Ok(p) ==> p.wf() && p.tag() == key.tag() && p@ == lower_query(*q)
            && p.nproj_spec() == q.projection@.len(),
{
    if q.unsupported {
        return Err(Error::UnsupportedQuery);
    }
    if q.projection.len() == 0 {
        return Err(Error::UnsupportedQuery);
    }
    let mut tokens: Vec<Token> = Vec::new();
    let mut i: usize = 0;
    while i < q.projection.len()
        invariant
            i <= q.projection@.len(),
            tokens@.len() == i,
            forall|j: int|
                0 <= j < i ==> !(#[trigger] q.projection@[j] matches Proj::Unsupported),
            forall|j: int|
                0 <= j < i ==> (#[trigger] tokens@[j])@ == lower_proj(q.projection@[j]),
            toks_wf(tokens@, key.tag()),
        decreases q.projection@.len() - i,
    {
        match &q.projection[i] {
            Proj::Column(n) => {
                let t = Token::Proj(n.clone());
                tokens.push(t);
            },
            Proj::Wildcard => {
                tokens.push(Token::ProjAll);
            },
            Proj::Unsupported => {
                return Err(Error::UnsupportedQuery);
            },
        }
        proof {
            assert forall|j: int| 0 <= j < tokens@.len() implies tok_wf(
                #[trigger] tokens@[j],
                key.tag(),
            ) by {}
        }
        i = i + 1;
    }
    let nproj = tokens.len();
    tokens.push(Token::Table(q.table.clone()));
    proof {
        assert forall|j: int| 0 <= j < tokens@.len() implies tok_wf(
            #[trigger] tokens@[j],
            key.tag(),
        ) by {}
    }
    let ghost before_pred = tokens@;
    match &q.selection {
        None => {},
        Some(p) => {
            match lower_pred_exec(p, key, &mut tokens) {
                Err(e) => {
                    return Err(e);
                },
                Ok(_) => {},
            }
        },
    }
    let prog = Program { tokens, nproj, tag_g: Ghost(key.tag()) };
    proof {
        let ts = prog.tokens@;
        assert(tokens_view(before_pred) =~= q.projection@.map(|j: int, pr: Proj| lower_proj(pr))
            + seq![TokenV::Table(q.table@)]);
        assert(prog@ =~= lower_query(*q));
        assert(prog_shape_ok(prog@, prog.nproj_spec())) by {
            assert forall|j: int| 0 <= j < prog.nproj_spec() implies (#[trigger] prog@[j] matches
                TokenV::Proj(_) || prog@[j] matches TokenV::ProjAll) by {
                assert(prog@[j] == lower_proj(q.projection@[j]));
            }
            assert(prog@[prog.nproj_spec() as int] == TokenV::Table(q.table@));
            assert forall|j: int| prog.nproj_spec() < j < prog@.len() implies (
            #[trigger] prog@[j] matches TokenV::Lit(_, _) || prog@[j] matches TokenV::Col(_)
                || prog@[j] matches TokenV::Op(_)) by {
                match q.selection {
                    Some(sp) => {
                        lemma_lower_pred_tokens(sp);
                        assert(prog@[j] == lower_pred(sp)[j - (prog.nproj_spec() + 1)]);
                    },
                    None => {},
                }
            }
        }
    }
    Ok(prog)
}

/// Every token a predicate lowers to is an operand or operator token.
proof fn lemma_lower_pred_tokens(p: Pred)
    ensures
        forall|i: int|
            0 <= i < lower_pred(p).len() ==> (#[trigger] lower_pred(p)[i] matches TokenV::Lit(_, _)
                || lower_pred(p)[i] matches TokenV::Col(_) || lower_pred(p)[i] matches TokenV::Op(
                _,
            )),
    decreases p,
{
    match p {
        Pred::Cmp(op, a, b) => {},
        Pred::And(a, b) => {
            lemma_lower_pred_tokens(*a);
            lemma_lower_pred_tokens(*b);
        },
        Pred::Or(a, b) => {
            lemma_lower_pred_tokens(*a);
            lemma_lower_pred_tokens(*b);
        },
        Pred::Not(a) => {
            lemma_lower_pred_tokens(*a);
        },
        Pred::Between(e, lo, hi) => {},
        Pred::InList(e, vs) => {
            lemma_lower_in_tokens(e, vs@);
        },
        Pred::Unsupported => {},
    }
}

/// Every token an `IN` chain lowers to is an operand or operator token.
proof fn lemma_lower_in_tokens(e: Operand, vs: Seq<Operand>)
    ensures
        forall|i: int|
            0 <= i < lower_in(e, vs).len() ==> (#[trigger] lower_in(e, vs)[i] matches TokenV::Lit(
                _,
                _,
            ) || lower_in(e, vs)[i] matches TokenV::Col(_) || lower_in(e, vs)[i] matches TokenV::Op(
                _,
            )),
    decreases vs.len(),
{
    if vs.len() > 1 {
        lemma_lower_in_tokens(e, vs.drop_last());
    }
}

// ---------------------------------------------------------------------------
// A compatible predicate always runs: the machine can only fail on types.
// ---------------------------------------------------------------------------
/// A lowered comparison steps through against any row, ending in some flag.
proof fn lemma_lower_cmp_shape(
    op: CmpOp,
    a: Operand,
    b: Operand,
    st: Seq<StackV>,
    rest: Seq<TokenV>,
    schema: SchemaV,
    codes: Seq<u64>,
)
    requires
        cmp_compat(cmp_is_ordered(op), a, b, schema),
    ensures
        exists|f: bool|
            run(st, lower_cmp(op, a, b) + rest, schema, codes) == run(
                #[trigger] st.push(StackV::Flag(f)),
                rest,
                schema,
                codes,
            ),
{
    let ta = lower_operand(a);
    let tb = lower_operand(b);
    let tya = operand_ty(a, schema);
    let tyb = operand_ty(b, schema);
    let la = operand_is_lit(a);
    let lb = operand_is_lit(b);
    let ca: u64 = match a {
        Operand::Column(n) => codes[find_col(schema, n@)],
        Operand::Literal(v) => code_of(v, lit_type(v)) as u64,
    };
    let cb: u64 = match b {
        Operand::Column(n) => codes[find_col(schema, n@)],
        Operand::Literal(v) => code_of(v, lit_type(v)) as u64,
    };
    match a {
        Operand::Column(n) => {
            lemma_find_col(schema, n@);
        },
        Operand::Literal(_) => {},
    }
    match b {
        Operand::Column(n) => {
            lemma_find_col(schema, n@);
        },
        Operand::Literal(_) => {},
    }
    let s1 = st.push(StackV::Word(ca, tya, la));
    let s2 = s1.push(StackV::Word(cb, tyb, lb));
    assert(step(st, ta, schema, codes) == Ok::<Seq<StackV>, Error>(s1));
    assert(step(s1, tb, schema, codes) == Ok::<Seq<StackV>, Error>(s2));
    let k = match op {
        CmpOp::Eq => OpKind::Eq,
        CmpOp::Neq => OpKind::Neq,
        CmpOp::Lt => OpKind::Lt,
        CmpOp::Gt => OpKind::Gt,
        CmpOp::Le => OpKind::Gt,
        CmpOp::Ge => OpKind::Lt,
    };
    let plan = plan_cmp(is_ordered(k), tya, la, tyb, lb)->Ok_0;
    assert(s2.take(s2.len() - 2) =~= st);
    let flag = cmp_aligned(k, aligned_code(ca as nat, tya, plan), aligned_code(cb as nat, tyb, plan));
    let s3 = st.push(StackV::Flag(flag));
    if (op matches CmpOp::Eq) || (op matches CmpOp::Neq) || (op matches CmpOp::Lt) || (op
        matches CmpOp::Gt) {
        assert(lower_cmp(op, a, b) + rest =~= seq![ta] + (seq![tb] + (seq![TokenV::Op(k)] + rest)));
        lemma_run_cons(st, ta, seq![tb] + (seq![TokenV::Op(k)] + rest), schema, codes);
        lemma_run_cons(s1, tb, seq![TokenV::Op(k)] + rest, schema, codes);
        lemma_run_cons(s2, TokenV::Op(k), rest, schema, codes);
        assert(step(s2, TokenV::Op(k), schema, codes) == Ok::<Seq<StackV>, Error>(s3));
        assert(run(st, lower_cmp(op, a, b) + rest, schema, codes) == run(
            st.push(StackV::Flag(flag)),
            rest,
            schema,
            codes,
        ));
    } else {
        assert(lower_cmp(op, a, b) + rest =~= seq![ta] + (seq![tb] + (seq![TokenV::Op(k)] + (seq![
            TokenV::Op(OpKind::Not),
        ] + rest))));
        lemma_run_cons(st, ta, seq![tb] + (seq![TokenV::Op(k)] + (seq![TokenV::Op(OpKind::Not)] + rest)), schema, codes);
        lemma_run_cons(s1, tb, seq![TokenV::Op(k)] + (seq![TokenV::Op(OpKind::Not)] + rest), schema, codes);
        lemma_run_cons(s2, TokenV::Op(k), seq![TokenV::Op(OpKind::Not)] + rest, schema, codes);
        assert(step(s2, TokenV::Op(k), schema, codes) == Ok::<Seq<StackV>, Error>(s3));
        lemma_run_cons(s3, TokenV::Op(OpKind::Not), rest, schema, codes);
        assert(s3.drop_last() =~= st);
        assert(step(s3, TokenV::Op(OpKind::Not), schema, codes) == Ok::<Seq<StackV>, Error>(
            st.push(StackV::Flag(!flag)),
        ));
        assert(run(st, lower_cmp(op, a, b) + rest, schema, codes) == run(
            st.push(StackV::Flag(!flag)),
            rest,
            schema,
            codes,
        ));
    }
}

/// A lowered `IN` chain steps through against any row, ending in some flag.
proof fn lemma_lower_in_shape(
    e: Operand,
    vs: Seq<Operand>,
    st: Seq<StackV>,
    rest: Seq<TokenV>,
    schema: SchemaV,
    codes: Seq<u64>,
)
    requires
        vs.len() >= 1,
        forall|i: int| 0 <= i < vs.len() ==> cmp_compat(false, e, #[trigger] vs[i], schema),
    ensures
        exists|f: bool|
            run(st, lower_in(e, vs) + rest, schema, codes) == run(
                #[trigger] st.push(StackV::Flag(f)),
                rest,
                schema,
                codes,
            ),
    decreases vs.len(),
{
    if vs.len() == 1 {
        lemma_lower_cmp_shape(CmpOp::Eq, e, vs[0], st, rest, schema, codes);
    } else {
        let prefix = vs.drop_last();
        assert(forall|i: int| 0 <= i < prefix.len() ==> prefix[i] == vs[i]);
        assert(lower_in(e, vs) + rest =~= lower_in(e, prefix) + (lower_cmp(CmpOp::Eq, e, vs.last())
            + (seq![TokenV::Op(OpKind::Or)] + rest)));
        lemma_lower_in_shape(
            e,
            prefix,
            st,
            lower_cmp(CmpOp::Eq, e, vs.last()) + (seq![TokenV::Op(OpKind::Or)] + rest),
            schema,
            codes,
        );
        let f1 = choose|f: bool|
            run(st, lower_in(e, prefix) + (lower_cmp(CmpOp::Eq, e, vs.last()) + (seq![
                TokenV::Op(OpKind::Or),
            ] + rest)), schema, codes) == run(
                #[trigger] st.push(StackV::Flag(f)),
                lower_cmp(CmpOp::Eq, e, vs.last()) + (seq![TokenV::Op(OpKind::Or)] + rest),
                schema,
                codes,
            );
        let s1 = st.push(StackV::Flag(f1));
        lemma_lower_cmp_shape(
            CmpOp::Eq,
            e,
            vs.last(),
            s1,
            seq![TokenV::Op(OpKind::Or)] + rest,
            schema,
            codes,
        );
        let f2 = choose|f: bool|
            run(s1, lower_cmp(CmpOp::Eq, e, vs.last()) + (seq![TokenV::Op(OpKind::Or)] + rest), schema, codes)
                == run(
                #[trigger] s1.push(StackV::Flag(f)),
                seq![TokenV::Op(OpKind::Or)] + rest,
                schema,
                codes,
            );
        let s2 = s1.push(StackV::Flag(f2));
        lemma_run_cons(s2, TokenV::Op(OpKind::Or), rest, schema, codes);
        assert(s2.take(s2.len() - 2) =~= st);
        assert(step(s2, TokenV::Op(OpKind::Or), schema, codes) == Ok::<Seq<StackV>, Error>(
            st.push(StackV::Flag(f1 || f2)),
        ));
        assert(run(st, lower_in(e, vs) + rest, schema, codes) == run(
            st.push(StackV::Flag(f1 || f2)),
            rest,
            schema,
            codes,
        ));
    }
}

/// A supported, compatible predicate's lowering steps through against any
/// row of words — valid or not — ending in some flag: the machine can only
/// fail on declared types, never on values. This is why the static check
/// against one row settles every row.
pub proof fn lemma_lower_pred_shape(
    p: Pred,
    st: Seq<StackV>,
    rest: Seq<TokenV>,
    schema: SchemaV,
    codes: Seq<u64>,
)
    requires
        pred_supported(p),
        pred_compat(p, schema),
    ensures
        exists|f: bool|
            run(st, lower_pred(p) + rest, schema, codes) == run(
                #[trigger] st.push(StackV::Flag(f)),
                rest,
                schema,
                codes,
            ),
    decreases p,
{
    match p {
        Pred::Cmp(op, a, b) => {
            lemma_lower_cmp_shape(op, a, b, st, rest, schema, codes);
        },
        Pred::And(a, b) => {
            assert(lower_pred(p) + rest =~= lower_pred(*a) + (lower_pred(*b) + (seq![
                TokenV::Op(OpKind::And),
            ] + rest)));
            lemma_lower_pred_shape(*a, st, lower_pred(*b) + (seq![TokenV::Op(OpKind::And)] + rest), schema, codes);
            let f1 = choose|f: bool|
                run(st, lower_pred(*a) + (lower_pred(*b) + (seq![TokenV::Op(OpKind::And)] + rest)), schema, codes)
                    == run(
                    #[trigger] st.push(StackV::Flag(f)),
                    lower_pred(*b) + (seq![TokenV::Op(OpKind::And)] + rest),
                    schema,
                    codes,
                );
            let s1 = st.push(StackV::Flag(f1));
            lemma_lower_pred_shape(*b, s1, seq![TokenV::Op(OpKind::And)] + rest, schema, codes);
            let f2 = choose|f: bool|
                run(s1, lower_pred(*b) + (seq![TokenV::Op(OpKind::And)] + rest), schema, codes)
                    == run(
                    #[trigger] s1.push(StackV::Flag(f)),
                    seq![TokenV::Op(OpKind::And)] + rest,
                    schema,
                    codes,
                );
            let s2 = s1.push(StackV::Flag(f2));
            lemma_run_cons(s2, TokenV::Op(OpKind::And), rest, schema, codes);
            assert(s2.take(s2.len() - 2) =~= st);
            assert(step(s2, TokenV::Op(OpKind::And), schema, codes) == Ok::<Seq<StackV>, Error>(
                st.push(StackV::Flag(f1 && f2)),
            ));
            assert(run(st, lower_pred(p) + rest, schema, codes) == run(
                st.push(StackV::Flag(f1 && f2)),
                rest,
                schema,
                codes,
            ));
        },
        Pred::Or(a, b) => {
            assert(lower_pred(p) + rest =~= lower_pred(*a) + (lower_pred(*b) + (seq![
                TokenV::Op(OpKind::Or),
            ] + rest)));
            lemma_lower_pred_shape(*a, st, lower_pred(*b) + (seq![TokenV::Op(OpKind::Or)] + rest), schema, codes);
            let f1 = choose|f: bool|
                run(st, lower_pred(*a) + (lower_pred(*b) + (seq![TokenV::Op(OpKind::Or)] + rest)), schema, codes)
                    == run(
                    #[trigger] st.push(StackV::Flag(f)),
                    lower_pred(*b) + (seq![TokenV::Op(OpKind::Or)] + rest),
                    schema,
                    codes,
                );
            let s1 = st.push(StackV::Flag(f1));
            lemma_lower_pred_shape(*b, s1, seq![TokenV::Op(OpKind::Or)] + rest, schema, codes);
            let f2 = choose|f: bool|
                run(s1, lower_pred(*b) + (seq![TokenV::Op(OpKind::Or)] + rest), schema, codes)
                    == run(
                    #[trigger] s1.push(StackV::Flag(f)),
                    seq![TokenV::Op(OpKind::Or)] + rest,
                    schema,
                    codes,
                );
            let s2 = s1.push(StackV::Flag(f2));
            lemma_run_cons(s2, TokenV::Op(OpKind::Or), rest, schema, codes);
            assert(s2.take(s2.len() - 2) =~= st);
            assert(step(s2, TokenV::Op(OpKind::Or), schema, codes) == Ok::<Seq<StackV>, Error>(
                st.push(StackV::Flag(f1 || f2)),
            ));
            assert(run(st, lower_pred(p) + rest, schema, codes) == run(
                st.push(StackV::Flag(f1 || f2)),
                rest,
                schema,
                codes,
            ));
        },
        Pred::Not(a) => {
            assert(lower_pred(p) + rest =~= lower_pred(*a) + (seq![TokenV::Op(OpKind::Not)] + rest));
            lemma_lower_pred_shape(*a, st, seq![TokenV::Op(OpKind::Not)] + rest, schema, codes);
            let f1 = choose|f: bool|
                run(st, lower_pred(*a) + (seq![TokenV::Op(OpKind::Not)] + rest), schema, codes)
                    == run(
                    #[trigger] st.push(StackV::Flag(f)),
                    seq![TokenV::Op(OpKind::Not)] + rest,
                    schema,
                    codes,
                );
            let s1 = st.push(StackV::Flag(f1));
            lemma_run_cons(s1, TokenV::Op(OpKind::Not), rest, schema, codes);
            assert(s1.drop_last() =~= st);
            assert(step(s1, TokenV::Op(OpKind::Not), schema, codes) == Ok::<Seq<StackV>, Error>(
                st.push(StackV::Flag(!f1)),
            ));
            assert(run(st, lower_pred(p) + rest, schema, codes) == run(
                st.push(StackV::Flag(!f1)),
                rest,
                schema,
                codes,
            ));
        },
        Pred::Between(e, lo, hi) => {
            assert(lower_pred(p) + rest =~= lower_cmp(CmpOp::Ge, e, lo) + (lower_cmp(
                CmpOp::Le,
                e,
                hi,
            ) + (seq![TokenV::Op(OpKind::And)] + rest)));
            lemma_lower_cmp_shape(CmpOp::Ge, e, lo, st, lower_cmp(CmpOp::Le, e, hi) + (seq![
                TokenV::Op(OpKind::And),
            ] + rest), schema, codes);
            let f1 = choose|f: bool|
                run(st, lower_cmp(CmpOp::Ge, e, lo) + (lower_cmp(CmpOp::Le, e, hi) + (seq![
                    TokenV::Op(OpKind::And),
                ] + rest)), schema, codes) == run(
                    #[trigger] st.push(StackV::Flag(f)),
                    lower_cmp(CmpOp::Le, e, hi) + (seq![TokenV::Op(OpKind::And)] + rest),
                    schema,
                    codes,
                );
            let s1 = st.push(StackV::Flag(f1));
            lemma_lower_cmp_shape(CmpOp::Le, e, hi, s1, seq![TokenV::Op(OpKind::And)] + rest, schema, codes);
            let f2 = choose|f: bool|
                run(s1, lower_cmp(CmpOp::Le, e, hi) + (seq![TokenV::Op(OpKind::And)] + rest), schema, codes)
                    == run(
                    #[trigger] s1.push(StackV::Flag(f)),
                    seq![TokenV::Op(OpKind::And)] + rest,
                    schema,
                    codes,
                );
            let s2 = s1.push(StackV::Flag(f2));
            lemma_run_cons(s2, TokenV::Op(OpKind::And), rest, schema, codes);
            assert(s2.take(s2.len() - 2) =~= st);
            assert(step(s2, TokenV::Op(OpKind::And), schema, codes) == Ok::<Seq<StackV>, Error>(
                st.push(StackV::Flag(f1 && f2)),
            ));
            assert(run(st, lower_pred(p) + rest, schema, codes) == run(
                st.push(StackV::Flag(f1 && f2)),
                rest,
                schema,
                codes,
            ));
        },
        Pred::InList(e, vs) => {
            lemma_lower_in_shape(e, vs@, st, rest, schema, codes);
        },
        Pred::Unsupported => {},
    }
}

/// Every column token a compatible comparison lowers to resolves.
proof fn lemma_lower_cmp_cols(op: CmpOp, a: Operand, b: Operand, schema: SchemaV)
    requires
        operand_found(a, schema),
        operand_found(b, schema),
    ensures
        forall|i: int|
            0 <= i < lower_cmp(op, a, b).len() ==> ((#[trigger] lower_cmp(op, a, b)[i]) matches
                TokenV::Col(n) ==> find_col(schema, n) >= 0),
{
    assert forall|i: int|
        0 <= i < lower_cmp(op, a, b).len() implies ((#[trigger] lower_cmp(op, a, b)[i]) matches
        TokenV::Col(n) ==> find_col(schema, n) >= 0) by {
        if i == 0 {
            assert(lower_cmp(op, a, b)[i] == lower_operand(a));
        } else if i == 1 {
            assert(lower_cmp(op, a, b)[i] == lower_operand(b));
        }
    }
}

/// Every column token a compatible `IN` chain lowers to resolves.
proof fn lemma_lower_in_cols(e: Operand, vs: Seq<Operand>, schema: SchemaV)
    requires
        forall|i: int| 0 <= i < vs.len() ==> cmp_compat(false, e, #[trigger] vs[i], schema),
        vs.len() >= 1,
    ensures
        forall|i: int|
            0 <= i < lower_in(e, vs).len() ==> ((#[trigger] lower_in(e, vs)[i]) matches TokenV::Col(
                n,
            ) ==> find_col(schema, n) >= 0),
    decreases vs.len(),
{
    if vs.len() == 1 {
        lemma_lower_cmp_cols(CmpOp::Eq, e, vs[0], schema);
    } else {
        let prefix = vs.drop_last();
        assert(forall|i: int| 0 <= i < prefix.len() ==> prefix[i] == vs[i]);
        lemma_lower_in_cols(e, prefix, schema);
        lemma_lower_cmp_cols(CmpOp::Eq, e, vs.last(), schema);
        let whole = lower_in(e, vs);
        let front = lower_in(e, prefix);
        let mid = lower_cmp(CmpOp::Eq, e, vs.last());
        assert forall|i: int|
            0 <= i < whole.len() implies ((#[trigger] whole[i]) matches TokenV::Col(n) ==> find_col(
            schema,
            n,
        ) >= 0) by {
            if i < front.len() {
                assert(whole[i] == front[i]);
            } else if i < front.len() + mid.len() {
                assert(whole[i] == mid[i - front.len()]);
            } else {
                assert(whole[i] == TokenV::Op(OpKind::Or));
            }
        }
    }
}

/// Every column token a supported, compatible predicate lowers to resolves:
/// the static check's column pass accepts the whole lowering.
pub proof fn lemma_lower_pred_cols(p: Pred, schema: SchemaV)
    requires
        pred_supported(p),
        pred_compat(p, schema),
    ensures
        forall|i: int|
            0 <= i < lower_pred(p).len() ==> ((#[trigger] lower_pred(p)[i]) matches TokenV::Col(n)
                ==> find_col(schema, n) >= 0),
    decreases p,
{
    match p {
        Pred::Cmp(op, a, b) => {
            lemma_lower_cmp_cols(op, a, b, schema);
        },
        Pred::And(a, b) => {
            lemma_lower_pred_cols(*a, schema);
            lemma_lower_pred_cols(*b, schema);
            lemma_concat_cols(lower_pred(*a), lower_pred(*b), seq![TokenV::Op(OpKind::And)], schema);
        },
        Pred::Or(a, b) => {
            lemma_lower_pred_cols(*a, schema);
            lemma_lower_pred_cols(*b, schema);
            lemma_concat_cols(lower_pred(*a), lower_pred(*b), seq![TokenV::Op(OpKind::Or)], schema);
        },
        Pred::Not(a) => {
            lemma_lower_pred_cols(*a, schema);
            lemma_concat_cols(
                lower_pred(*a),
                seq![TokenV::Op(OpKind::Not)],
                Seq::empty(),
                schema,
            );
            assert(lower_pred(p) =~= lower_pred(*a) + seq![TokenV::Op(OpKind::Not)]
                + Seq::<TokenV>::empty());
        },
        Pred::Between(e, lo, hi) => {
            lemma_lower_cmp_cols(CmpOp::Ge, e, lo, schema);
            lemma_lower_cmp_cols(CmpOp::Le, e, hi, schema);
            lemma_concat_cols(
                lower_cmp(CmpOp::Ge, e, lo),
                lower_cmp(CmpOp::Le, e, hi),
                seq![TokenV::Op(OpKind::And)],
                schema,
            );
        },
        Pred::InList(e, vs) => {
            lemma_lower_in_cols(e, vs@, schema);
        },
        Pred::Unsupported => {},
    }
}

/// Column resolution carries over a three-part concatenation whose tail is
/// operator tokens.
proof fn lemma_concat_cols(a: Seq<TokenV>, b: Seq<TokenV>, tail: Seq<TokenV>, schema: SchemaV)
    requires
        forall|i: int|
            0 <= i < a.len() ==> ((#[trigger] a[i]) matches TokenV::Col(n) ==> find_col(schema, n)
                >= 0),
        forall|i: int|
            0 <= i < b.len() ==> ((#[trigger] b[i]) matches TokenV::Col(n) ==> find_col(schema, n)
                >= 0),
        forall|i: int| 0 <= i < tail.len() ==> (#[trigger] tail[i]) matches TokenV::Op(_),
    ensures
        forall|i: int|
            0 <= i < (a + b + tail).len() ==> ((#[trigger] (a + b + tail)[i]) matches TokenV::Col(
                n,
            ) ==> find_col(schema, n) >= 0),
{
    assert forall|i: int|
        0 <= i < (a + b + tail).len() implies ((#[trigger] (a + b + tail)[i]) matches TokenV::Col(
        n,
    ) ==> find_col(schema, n) >= 0) by {
        if i < a.len() {
            assert((a + b + tail)[i] == a[i]);
        } else if i < a.len() + b.len() {
            assert((a + b + tail)[i] == b[i - a.len()]);
        } else {
            assert((a + b + tail)[i] == tail[i - a.len() - b.len()]);
        }
    }
}

} // verus!
