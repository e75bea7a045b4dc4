//! The Homomorphic Evaluator: runs a Predicate Program over an encrypted
//! table, row by row, entirely in ciphertext space.
//!
//! For every row the evaluator substitutes the row's encrypted words for the
//! program's column references, runs the postfix predicate on a ciphertext
//! stack, and masks each projected word with the encrypted selector bit, so
//! that a non-matching row contributes an encrypted zero instead of being
//! skipped. Every row is processed and appears in the result, in the store's
//! row order: nothing in the evaluator's control flow, its operation sequence
//! or its errors depends on what any ciphertext holds.

use vstd::prelude::*;

verus! {

use crate::compare::CmpPlan;
use crate::compare::aligned_code;
use crate::compare::lemma_aligned_code;
use crate::compare::lemma_plan_sides;
use crate::compare::lemma_zero_is_code;
use crate::compare::plan_cmp_exec;
use crate::compare::plan_side_ok;
use crate::error::Error;
use crate::fhe::CtBit;
use crate::fhe::CtWord;
use crate::fhe::ServerKeyHandle;
use crate::fhe::ct_add_scalar;
use crate::fhe::ct_and;
use crate::fhe::ct_eq;
use crate::fhe::ct_extend;
use crate::fhe::ct_gt;
use crate::fhe::ct_lt;
use crate::fhe::ct_ne;
use crate::fhe::ct_not;
use crate::fhe::ct_or;
use crate::fhe::ct_select;
use crate::fhe::duplicate_word;
use crate::fhe::trivial_bit;
use crate::fhe::trivial_word;
use crate::program::OpKind;
use crate::program::Program;
use crate::program::StackV;
use crate::program::Token;
use crate::program::TokenV;
use crate::program::cmp_aligned;
use crate::program::lemma_program_open;
use crate::program::lemma_run_oblivious;
use crate::program::prog_shape_ok;
use crate::program::run;
use crate::program::shape_of;
use crate::program::step;
use crate::program::tok_wf;
use crate::program::tokens_view;
use crate::program::toks_wf;
use crate::query::SchemaV;
use crate::query::find_col;
use crate::query::lemma_find_col;
use crate::query::lemma_find_col_first;
use crate::query::lemma_find_col_none;
use crate::table::Column;
use crate::table::Store;
use crate::table::Table;
use crate::table::lemma_find_table;
use crate::table::lemma_table_open;
use crate::table::row_codes;
use crate::table::schema_of;
use crate::values::ColumnType;
use crate::values::is_code;
use crate::values::signed_offset_exec;
use vstd::arithmetic::power2::pow2;
use vstd::arithmetic::power2::lemma2_to64;
use vstd::arithmetic::power2::lemma2_to64_rest;
use vstd::arithmetic::power2::lemma_pow2_pos;
use vstd::arithmetic::power2::lemma_pow2_strictly_increases;

// ---------------------------------------------------------------------------
// What an evaluation yields or fails with, at the specification level.
// ---------------------------------------------------------------------------
/// The all-zero row of words: every type's zero word is a valid code, so the
/// static check runs the machine against it.
pub open spec fn zero_row(schema: SchemaV) -> Seq<u64> {
    Seq::new(schema.len(), |i: int| 0u64)
}

/// Is this token a column reference the schema cannot resolve?
pub open spec fn col_unresolved(t: TokenV, schema: SchemaV) -> bool {
    match t {
        TokenV::Col(n) => find_col(schema, n) < 0,
        _ => false,
    }
}

/// The static check of the predicate tokens against a schema. Every column
/// reference is resolved first, so a predicate naming a column the table
/// lacks is always a `SchemaMismatch`, whatever else is wrong with it. Then
/// the machine is run once against the zero row: its errors depend only on
/// declared types, so this is the error every row would meet. A machine that
/// does not end in exactly one boolean is refused as a `SchemaMismatch`.
pub open spec fn check_pred(ts: Seq<TokenV>, schema: SchemaV) -> Result<(), Error> {
    if exists|i: int| 0 <= i < ts.len() && col_unresolved(#[trigger] ts[i], schema) {
        Err(Error::SchemaMismatch)
    } else if ts.len() == 0 {
        Ok(())
    } else {
        match run(Seq::empty(), ts, schema, zero_row(schema)) {
            Err(e) => Err(e),
            Ok(st) => if st.len() == 1 && (st[0] matches StackV::Flag(_)) {
                Ok(())
            } else {
                Err(Error::SchemaMismatch)
            },
        }
    }
}

/// The selector a row gets: the predicate's truth against the row's words,
/// or true when the program has no predicate.
pub open spec fn sel_of(ts: Seq<TokenV>, schema: SchemaV, row: Seq<u64>) -> bool {
    if ts.len() == 0 {
        true
    } else {
        match run(Seq::empty(), ts, schema, row) {
            Ok(st) => match st[0] {
                StackV::Flag(b) => b,
                _ => false,
            },
            Err(_) => false,
        }
    }
}

/// The column indices one projection token stands for.
pub open spec fn proj_token_indices(t: TokenV, schema: SchemaV) -> Seq<int> {
    match t {
        TokenV::Proj(n) => seq![find_col(schema, n)],
        TokenV::ProjAll => Seq::new(schema.len(), |i: int| i),
        _ => Seq::empty(),
    }
}

/// The column indices a projection prefix stands for, in token order; the
/// wildcard expands to every column in declaration order.
pub open spec fn proj_indices(ts: Seq<TokenV>, schema: SchemaV) -> Seq<int>
    decreases ts.len(),
{
    if ts.len() == 0 {
        Seq::empty()
    } else {
        proj_indices(ts.drop_last(), schema) + proj_token_indices(ts.last(), schema)
    }
}

/// Every projected column name resolves.
pub open spec fn proj_ok(ts: Seq<TokenV>, schema: SchemaV) -> bool {
    forall|i: int|
        0 <= i < ts.len() ==> ((#[trigger] ts[i]) matches TokenV::Proj(n) ==> find_col(schema, n)
            >= 0)
}

/// The table name a well-formed program scans.
pub open spec fn table_name_of(ts: Seq<TokenV>, k: nat) -> Seq<char> {
    match ts[k as int] {
        TokenV::Table(n) => n,
        _ => Seq::empty(),
    }
}

/// The error an evaluation ends in, or `None` when it succeeds. The errors
/// come in a fixed order of checks — table, projections, predicate — and
/// depend only on the program and the store's schemas, never on any
/// ciphertext.
pub open spec fn eval_err(ts: Seq<TokenV>, k: nat, store: Store) -> Option<Error> {
    let name = table_name_of(ts, k);
    if store.find_spec(name) < 0 {
        Some(Error::TableNotFound)
    } else {
        let tb = store.tables_spec()[store.find_spec(name)];
        if !proj_ok(ts.take(k as int), tb.schema()) {
            Some(Error::SchemaMismatch)
        } else {
            match check_pred(ts.skip(k as int + 1), tb.schema()) {
                Err(e) => Some(e),
                Ok(_) => None,
            }
        }
    }
}

/// What one row contributes to the result: its selector, and each projected
/// word masked by it.
pub open spec fn row_item(ts: Seq<TokenV>, schema: SchemaV, idxs: Seq<int>, row: Seq<u64>) -> (
    bool,
    Seq<u64>,
) {
    let sel = sel_of(ts, schema, row);
    (
        sel,
        Seq::new(
            idxs.len(),
            |j: int|
                if sel {
                    row[idxs[j]]
                } else {
                    0u64
                },
        ),
    )
}

/// The whole result: one entry per row, in the store's row order.
pub open spec fn result_rows(
    ts: Seq<TokenV>,
    schema: SchemaV,
    idxs: Seq<int>,
    rows: Seq<Seq<u64>>,
) -> Seq<(bool, Seq<u64>)> {
    rows.map(|i: int, r: Seq<u64>| row_item(ts, schema, idxs, r))
}

// ---------------------------------------------------------------------------
// The Encrypted Result.
// ---------------------------------------------------------------------------
/// One row of the result: the encrypted selector, and one masked encrypted
/// word per projected column.
pub struct ResultRow {
    pub(crate) sel: CtBit,
    pub(crate) vals: Vec<CtWord>,
}

/// The Encrypted Result: per row a selector ciphertext and the masked
/// projected words, plus the declared types of the projected columns (shape,
/// not secret). Only the session's client key can read any of it.
pub struct EncryptedResult {
    pub(crate) rows: Vec<ResultRow>,
    pub(crate) proj: Vec<ColumnType>,
    pub(crate) tag_g: Ghost<int>,
}

impl EncryptedResult {
    /// The result as specifications see it: per row the selector truth and
    /// the masked words.
    pub closed spec fn rows_v(self) -> Seq<(bool, Seq<u64>)> {
        self.rows@.map(|i: int, r: ResultRow| (r.sel.truth(), row_codes(r.vals@)))
    }

    /// The declared types of the projected columns, in projection order.
    pub closed spec fn proj_types(self) -> Seq<ColumnType> {
        self.proj@
    }

    /// The session tag of the key pair the result is readable under.
    pub closed spec fn tag(self) -> int {
        self.tag_g@
    }

    /// Sound ciphertexts: every selector and word is under the session tag,
    /// and every word standing under a projected column is a valid code of
    /// that column's type. Nothing here fixes how many words a row carries:
    /// the decoder checks that width positionally at run time.
    pub closed spec fn wf(self) -> bool {
        forall|i: int|
            0 <= i < self.rows@.len() ==> (#[trigger] self.rows@[i]).sel.tag() == self.tag_g@
                && forall|j: int|
                0 <= j < self.rows@[i].vals@.len() && j < self.proj@.len() ==> (
                #[trigger] self.rows@[i].vals@[j]).tag() == self.tag_g@ && is_code(
                    self.rows@[i].vals@[j].word() as nat,
                    self.proj@[j],
                ) && 2 * self.rows@[i].vals@[j].nblocks() == self.proj@[j].width()
                    && self.rows@[i].vals@[j].wf()
    }

    /// How many rows the result covers.
    pub fn len(&self) -> (n: usize)
        ensures
            n == self.rows_v().len(),
    {
        self.rows.len()
    }
}

/// What the result accessors mean, for the decoder.
pub(crate) proof fn lemma_result_open(r: &EncryptedResult)
    ensures
        r.rows_v() == r.rows@.map(|i: int, row: ResultRow| (row.sel.truth(), row_codes(row.vals@))),
        r.proj_types() == r.proj@,
        r.tag() == r.tag_g@,
        r.wf() <==> (forall|i: int|
            0 <= i < r.rows@.len() ==> (#[trigger] r.rows@[i]).sel.tag() == r.tag_g@ && forall|
                j: int,
            |
                0 <= j < r.rows@[i].vals@.len() && j < r.proj@.len() ==> (
                #[trigger] r.rows@[i].vals@[j]).tag() == r.tag_g@ && is_code(
                    r.rows@[i].vals@[j].word() as nat,
                    r.proj@[j],
                ) && 2 * r.rows@[i].vals@[j].nblocks() == r.proj@[j].width()
                    && r.rows@[i].vals@[j].wf()),
{
}

// ---------------------------------------------------------------------------
// Executable pieces: column lookup, the static check, word alignment.
// ---------------------------------------------------------------------------
/// A vector of column positions, as the specification's index sequence.
pub(crate) open spec fn idxs_ints(v: Seq<usize>) -> Seq<int> {
    v.map(|i: int, x: usize| x as int)
}

/// Scans a column list for a name.
pub(crate) fn find_col_exec(cols: &Vec<Column>, name: &String) -> (r: Option<usize>)
    ensures
        r is Some <==> find_col(schema_of(cols@), name@) >= 0,
        r matches Some(i) ==> i as int == find_col(schema_of(cols@), name@) && i < cols@.len(),
{
    let ghost schema = schema_of(cols@);
    let mut i: usize = 0;
    while i < cols.len()
        invariant
            i <= cols@.len(),
            schema == schema_of(cols@),
            schema.len() == cols@.len(),
            forall|j: int| 0 <= j < i ==> (#[trigger] schema[j]).0 != name@,
        decreases cols@.len() - i,
    {
        if cols[i].name == *name {
            proof {
                assert(schema[i as int].0 == name@);
                lemma_find_col_first(schema, name@, i as int);
            }
            return Some(i);
        }
        i = i + 1;
    }
    proof {
        lemma_find_col_none(schema, name@);
    }
    None
}

/// One entry of the shape stack the static check runs on.
enum SimEntry {
    Word(ColumnType, bool),
    Flag,
}

/// A shape entry abstracts a machine entry.
spec fn sim_matches(e: SimEntry, s: StackV) -> bool {
    match (e, s) {
        (SimEntry::Word(ty, l), StackV::Word(_, ty2, l2)) => ty == ty2 && l == l2,
        (SimEntry::Flag, StackV::Flag(_)) => true,
        _ => false,
    }
}

/// The static check: simulates the machine over the predicate tokens with
/// types alone, so its verdict is the verdict of `check_pred` — the error
/// every row would meet, or none.
#[verifier::rlimit(60)]
fn check_tokens(tokens: &Vec<Token>, start: usize, cols: &Vec<Column>) -> (r: Result<(), Error>)
    requires
        start <= tokens@.len(),
        forall|i: int|
            start <= i < tokens@.len() ==> ((#[trigger] tokens@[i])@ matches TokenV::Lit(_, _)
                || tokens@[i]@ matches TokenV::Col(_) || tokens@[i]@ matches TokenV::Op(_)),
    ensures
        r == check_pred(tokens_view(tokens@).skip(start as int), schema_of(cols@)),
{
    let ghost schema = schema_of(cols@);
    let ghost ts = tokens_view(tokens@).skip(start as int);
    let ghost zrow = zero_row(schema);
    let n = tokens.len();
    // resolve every column reference first: an unknown column is always a
    // schema mismatch, whatever else the predicate holds
    let mut c: usize = start;
    while c < n
        invariant
            start <= c <= n,
            n == tokens@.len(),
            schema == schema_of(cols@),
            ts == tokens_view(tokens@).skip(start as int),
            ts.len() == n - start,
            forall|a: int| 0 <= a < ts.len() ==> ts[a] == (#[trigger] tokens@[start + a])@,
            forall|a: int| 0 <= a < c - start ==> !col_unresolved(#[trigger] ts[a], schema),
        decreases n - c,
    {
        if let Token::Col(nm) = &tokens[c] {
            if find_col_exec(cols, nm).is_none() {
                proof {
                    assert(col_unresolved(ts[c - start], schema));
                }
                return Err(Error::SchemaMismatch);
            }
        }
        c = c + 1;
    }
    proof {
        assert(!(exists|i: int| 0 <= i < ts.len() && col_unresolved(#[trigger] ts[i], schema)));
    }
    if start == n {
        proof {
            assert(ts.len() == 0);
        }
        return Ok(());
    }
    let mut sim: Vec<SimEntry> = Vec::new();
    let ghost mut st_g: Seq<StackV> = Seq::empty();
    let mut i: usize = start;
    proof {
        assert(ts.take(0) =~= Seq::<TokenV>::empty());
    }
    while i < n
        invariant
            start <= i <= n,
            n == tokens@.len(),
            schema == schema_of(cols@),
            schema.len() == cols@.len(),
            zrow == zero_row(schema),
            ts == tokens_view(tokens@).skip(start as int),
            ts.len() == n - start,
            forall|a: int|
                start <= a < tokens@.len() ==> ((#[trigger] tokens@[a])@ matches TokenV::Lit(_, _)
                    || tokens@[a]@ matches TokenV::Col(_) || tokens@[a]@ matches TokenV::Op(_)),
            forall|a: int| 0 <= a < ts.len() ==> ts[a] == (#[trigger] tokens@[start + a])@,
            forall|a: int| 0 <= a < ts.len() ==> !col_unresolved(#[trigger] ts[a], schema),
            run(Seq::empty(), ts.take(i - start), schema, zrow) == Ok::<Seq<StackV>, Error>(st_g),
            sim@.len() == st_g.len(),
            forall|a: int| 0 <= a < sim@.len() ==> sim_matches(#[trigger] sim@[a], st_g[a]),
        decreases n - i,
    {
        let ghost pos = i - start;
        let ghost stepped = step(st_g, ts[pos], schema, zrow);
        proof {
            assert(ts.take(pos + 1).drop_last() =~= ts.take(pos));
            assert(ts.take(pos + 1).last() == ts[pos]);
            crate::program::lemma_run_snoc(Seq::empty(), ts.take(pos + 1), schema, zrow);
            if stepped is Err {
                assert(ts =~= ts.take(pos + 1) + ts.skip(pos + 1));
                crate::program::lemma_run_append(
                    Seq::empty(),
                    ts.take(pos + 1),
                    ts.skip(pos + 1),
                    schema,
                    zrow,
                );
            }
        }
        let t = &tokens[i];
        match t {
            Token::Lit(_, ty) => {
                sim.push(SimEntry::Word(*ty, true));
                proof {
                    st_g = st_g.push(StackV::Word(ts[pos]->Lit_0, *ty, true));
                }
            },
            Token::Col(nm) => {
                match find_col_exec(cols, nm) {
                    None => {
                        return Err(Error::SchemaMismatch);
                    },
                    Some(ci) => {
                        proof {
                            lemma_find_col(schema, nm@);
                        }
                        sim.push(SimEntry::Word(cols[ci].ty, false));
                        proof {
                            assert(schema[ci as int].1 == cols@[ci as int].ty);
                            st_g = st_g.push(StackV::Word(0u64, cols@[ci as int].ty, false));
                            assert(zrow[ci as int] == 0u64);
                        }
                    },
                }
            },
            Token::Op(k) => {
                let is_comparison = match k {
                    OpKind::Eq => true,
                    OpKind::Neq => true,
                    OpKind::Lt => true,
                    OpKind::Gt => true,
                    _ => false,
                };
                if is_comparison {
                    if sim.len() < 2 {
                        return Err(Error::SchemaMismatch);
                    }
                    let e2 = sim.pop().unwrap();
                    let e1 = sim.pop().unwrap();
                    match (e1, e2) {
                        (SimEntry::Word(t1, l1), SimEntry::Word(t2, l2)) => {
                            let ordered = match k {
                                OpKind::Lt => true,
                                OpKind::Gt => true,
                                _ => false,
                            };
                            match plan_cmp_exec(ordered, &t1, l1, &t2, l2) {
                                Err(e) => {
                                    return Err(e);
                                },
                                Ok(_) => {
                                    sim.push(SimEntry::Flag);
                                    proof {
                                        let m = st_g.len();
                                        let flag = cmp_aligned(
                                            *k,
                                            aligned_code(
                                                st_g[m - 2]->Word_0 as nat,
                                                t1,
                                                (plan_cmp_exec_result(ordered, t1, l1, t2, l2)),
                                            ),
                                            aligned_code(
                                                st_g[m - 1]->Word_0 as nat,
                                                t2,
                                                (plan_cmp_exec_result(ordered, t1, l1, t2, l2)),
                                            ),
                                        );
                                        st_g = st_g.take(m - 2).push(StackV::Flag(flag));
                                        assert(sim@ =~= sim@);
                                    }
                                },
                            }
                        },
                        _ => {
                            return Err(Error::SchemaMismatch);
                        },
                    }
                } else if let OpKind::Not = k {
                    if sim.len() < 1 {
                        return Err(Error::SchemaMismatch);
                    }
                    let e1 = sim.pop().unwrap();
                    match e1 {
                        SimEntry::Flag => {
                            sim.push(SimEntry::Flag);
                            proof {
                                let m = st_g.len();
                                st_g = st_g.drop_last().push(StackV::Flag(!st_g[m - 1]->Flag_0));
                            }
                        },
                        _ => {
                            return Err(Error::SchemaMismatch);
                        },
                    }
                } else {
                    if sim.len() < 2 {
                        return Err(Error::SchemaMismatch);
                    }
                    let e2 = sim.pop().unwrap();
                    let e1 = sim.pop().unwrap();
                    match (e1, e2) {
                        (SimEntry::Flag, SimEntry::Flag) => {
                            sim.push(SimEntry::Flag);
                            proof {
                                let m = st_g.len();
                                let b1 = st_g[m - 2]->Flag_0;
                                let b2 = st_g[m - 1]->Flag_0;
                                let flag = if (k matches OpKind::And) {
                                    (b1 && b2)
                                } else {
                                    (b1 || b2)
                                };
                                st_g = st_g.take(m - 2).push(StackV::Flag(flag));
                            }
                        },
                        _ => {
                            return Err(Error::SchemaMismatch);
                        },
                    }
                }
            },
            _ => {
                proof {
                    assert(tokens@[i as int]@ matches TokenV::Lit(_, _) || tokens@[i as int]@
                        matches TokenV::Col(_) || tokens@[i as int]@ matches TokenV::Op(_));
                    assert(false);
                }
                return Err(Error::SchemaMismatch);
            },
        }
        i = i + 1;
        proof {
            assert(run(Seq::empty(), ts.take(i - start), schema, zrow) == Ok::<
                Seq<StackV>,
                Error,
            >(st_g));
        }
    }
    proof {
        assert(ts.take(ts.len() as int) =~= ts);
    }
    if sim.len() == 1 {
        let only = &sim[0];
        match only {
            SimEntry::Flag => Ok(()),
            _ => Err(Error::SchemaMismatch),
        }
    } else {
        Err(Error::SchemaMismatch)
    }
}

/// The plan two checked operand types yield (a helper name for proofs).
pub(crate) open spec fn plan_cmp_exec_result(
    ordered: bool,
    t1: ColumnType,
    l1: bool,
    t2: ColumnType,
    l2: bool,
) -> CmpPlan {
    crate::compare::plan_cmp(ordered, t1, l1, t2, l2)->Ok_0
}

// ---------------------------------------------------------------------------
// Running the predicate over one encrypted row.
// ---------------------------------------------------------------------------
/// One entry of the ciphertext stack.
enum CtEntry {
    Word(CtWord, ColumnType, bool),
    Flag(CtBit),
}

/// A ciphertext entry realises a machine entry: it carries the same word or
/// truth, sized to its type, under the session tag.
spec fn entry_matches(e: CtEntry, s: StackV, tag: int) -> bool {
    match (e, s) {
        (CtEntry::Word(ct, ty, l), StackV::Word(c, ty2, l2)) => ty == ty2 && l == l2 && ct.word()
            == c && 2 * ct.nblocks() == ty.width() && is_code(ct.word() as nat, ty) && ct.wf()
            && ct.tag() == tag,
        (CtEntry::Flag(b), StackV::Flag(v)) => b.truth() == v && b.tag() == tag,
        _ => false,
    }
}

/// A ciphertext stack realises a machine stack entrywise.
spec fn stack_matches(es: Seq<CtEntry>, ss: Seq<StackV>, tag: int) -> bool {
    &&& es.len() == ss.len()
    &&& forall|i: int| 0 <= i < es.len() ==> entry_matches(#[trigger] es[i], ss[i], tag)
}

/// `2^e`, as a run-time word.
fn pow2_u64(e: u64) -> (r: u64)
    requires
        e <= 63,
    ensures
        r as nat == pow2(e as nat),
{
    proof {
        lemma2_to64();
        lemma2_to64_rest();
    }
    let mut r: u64 = 1;
    let mut i: u64 = 0;
    while i < e
        invariant
            i <= e <= 63,
            r as nat == pow2(i as nat),
        decreases e - i,
    {
        proof {
            lemma2_to64();
            lemma2_to64_rest();
            if (i as nat) < 62 {
                lemma_pow2_strictly_increases(i as nat, 62);
            }
            assert(pow2(i as nat + 1) == 2 * pow2(i as nat)) by {
                vstd::arithmetic::power2::lemma_pow2_adds(i as nat, 1);
            }
        }
        r = r * 2;
        i = i + 1;
    }
    r
}

/// Aligns one encrypted word to a comparison plan: extends it with zero
/// blocks to the plan's width, then, on the signed scale, shifts it by the
/// plan's offset with a plain scalar addition. The result carries the
/// operand's aligned code.
fn align_word(key: &ServerKeyHandle, ct: &CtWord, ty: &ColumnType, plan: &CmpPlan) -> (r: CtWord)
    requires
        ct.tag() == key.tag(),
        2 * ct.nblocks() == ty.width(),
        is_code(ct.word() as nat, *ty),
        ct.wf(),
        plan_side_ok(*ty, *plan),
        plan.bits % 2 == 0,
        2 <= plan.bits <= 64,
    ensures
        r.tag() == key.tag(),
        2 * r.nblocks() == plan.bits as nat,
        r.word() as nat == aligned_code(ct.word() as nat, *ty, *plan),
        r.wf(),
{
    proof {
        lemma_aligned_code(ct.word() as nat, *ty, *plan);
        lemma2_to64();
        lemma2_to64_rest();
    }
    let wbits = ty.width_exec();
    let extra = ((plan.bits - wbits) / 2) as usize;
    let ext = ct_extend(key, ct, extra);
    proof {
        assert(2 * ext.nblocks() == plan.bits as nat);
        if ((plan.bits as nat) as nat) < 64 {
            lemma_pow2_strictly_increases(plan.bits as nat, 64);
        }
    }
    let delta: u64 = if plan.signed {
        let target_off = pow2_u64(plan.bits - 1);
        let src_off: u64 = match ty {
            ColumnType::SignedInt(w) => signed_offset_exec(w),
            _ => 0,
        };
        proof {
            match *ty {
                ColumnType::SignedInt(w) => {
                    if ((w.bits() - 1) as nat) < ((plan.bits - 1) as nat) {
                        lemma_pow2_strictly_increases((w.bits() - 1) as nat, (plan.bits - 1) as nat);
                    }
                },
                _ => {},
            }
        }
        target_off - src_off
    } else {
        0
    };
    proof {
        assert(delta as nat == crate::compare::align_delta(*ty, *plan));
    }
    if delta > 0 {
        ct_add_scalar(key, &ext, delta)
    } else {
        ext
    }
}

/// Evaluates the predicate tokens against one encrypted row with a
/// ciphertext stack, producing the row's encrypted selector bit. With no
/// predicate the selector is the trivial encryption of true. The static
/// check has passed, so no step can fail.
#[verifier::rlimit(100)]
fn eval_row(
    key: &ServerKeyHandle,
    tokens: &Vec<Token>,
    start: usize,
    cols: &Vec<Column>,
    rowv: &Vec<CtWord>,
) -> (sel: CtBit)
    requires
        start <= tokens@.len(),
        toks_wf(tokens@, key.tag()),
        forall|i: int|
            start <= i < tokens@.len() ==> ((#[trigger] tokens@[i])@ matches TokenV::Lit(_, _)
                || tokens@[i]@ matches TokenV::Col(_) || tokens@[i]@ matches TokenV::Op(_)),
        rowv@.len() == cols@.len(),
        forall|j: int|
            0 <= j < rowv@.len() ==> (#[trigger] rowv@[j]).tag() == key.tag() && 2
                * rowv@[j].nblocks() == schema_of(cols@)[j].1.width() && is_code(
                rowv@[j].word() as nat,
                schema_of(cols@)[j].1,
            ) && rowv@[j].wf(),
        check_pred(tokens_view(tokens@).skip(start as int), schema_of(cols@)) == Ok::<(), Error>(
            (),
        ),
    ensures
        sel.truth() == sel_of(
            tokens_view(tokens@).skip(start as int),
            schema_of(cols@),
            row_codes(rowv@),
        ),
        sel.tag() == key.tag(),
{
    let ghost schema = schema_of(cols@);
    let ghost ts = tokens_view(tokens@).skip(start as int);
    let ghost row = row_codes(rowv@);
    let n = tokens.len();
    if start == n {
        proof {
            assert(ts.len() == 0);
        }
        return trivial_bit(key, true);
    }
    proof {
        // the run against this row succeeds and ends in one flag, because
        // the run against the zero row did and the machine is oblivious
        assert(ts.len() > 0);
        lemma_run_oblivious(
            Seq::empty(),
            Seq::empty(),
            ts,
            schema,
            zero_row(schema),
            row,
        );
        assert(shape_of(Seq::<StackV>::empty()) =~= shape_of(Seq::<StackV>::empty()));
    }
    let ghost full = run(Seq::empty(), ts, schema, row);
    proof {
        assert(full is Ok);
        let stz = run(Seq::empty(), ts, schema, zero_row(schema))->Ok_0;
        let str = full->Ok_0;
        assert(shape_of(stz) == shape_of(str));
        assert(shape_of(str).len() == str.len());
        assert(str.len() == 1);
        assert(shape_of(str)[0] == shape_of(stz)[0]);
        assert(str[0] matches StackV::Flag(_));
    }
    let mut st: Vec<CtEntry> = Vec::new();
    let ghost mut st_g: Seq<StackV> = Seq::empty();
    let mut i: usize = start;
    proof {
        assert(ts.take(0) =~= Seq::<TokenV>::empty());
    }
    while i < n
        invariant
            start <= i <= n,
            n == tokens@.len(),
            schema == schema_of(cols@),
            schema.len() == cols@.len(),
            ts == tokens_view(tokens@).skip(start as int),
            ts.len() == n - start,
            row == row_codes(rowv@),
            rowv@.len() == cols@.len(),
            toks_wf(tokens@, key.tag()),
            full == run(Seq::empty(), ts, schema, row),
            full is Ok,
            forall|a: int|
                start <= a < tokens@.len() ==> ((#[trigger] tokens@[a])@ matches TokenV::Lit(_, _)
                    || tokens@[a]@ matches TokenV::Col(_) || tokens@[a]@ matches TokenV::Op(_)),
            forall|a: int| 0 <= a < ts.len() ==> ts[a] == (#[trigger] tokens@[start + a])@,
            forall|j: int|
                0 <= j < rowv@.len() ==> (#[trigger] rowv@[j]).tag() == key.tag() && 2
                    * rowv@[j].nblocks() == schema_of(cols@)[j].1.width() && is_code(
                    rowv@[j].word() as nat,
                    schema_of(cols@)[j].1,
                ) && rowv@[j].wf(),
            run(Seq::empty(), ts.take(i - start), schema, row) == Ok::<Seq<StackV>, Error>(st_g),
            stack_matches(st@, st_g, key.tag()),
        decreases n - i,
    {
        let ghost pos = i - start;
        proof {
            crate::program::lemma_run_prefix(Seq::empty(), ts, pos + 1, schema, row);
            assert(ts.take(pos + 1).drop_last() =~= ts.take(pos));
            assert(ts.take(pos + 1).last() == ts[pos]);
            crate::program::lemma_run_snoc(Seq::empty(), ts.take(pos + 1), schema, row);
            assert(step(st_g, ts[pos], schema, row) is Ok);
        }
        let ghost stepped = step(st_g, ts[pos], schema, row)->Ok_0;
        let t = &tokens[i];
        match t {
            Token::Lit(c, ty) => {
                proof {
                    assert(tok_wf(tokens@[i as int], key.tag()));
                }
                let dup = duplicate_word(c);
                st.push(CtEntry::Word(dup, *ty, true));
                proof {
                    st_g = st_g.push(StackV::Word(c.word(), *ty, true));
                    assert(stack_matches(st@, st_g, key.tag())) by {
                        assert(forall|a: int|
                            0 <= a < st@.len() - 1 ==> entry_matches(
                                #[trigger] st@[a],
                                st_g[a],
                                key.tag(),
                            ));
                    }
                }
            },
            Token::Col(nm) => {
                match find_col_exec(cols, nm) {
                    None => {
                        proof {
                            assert(step(st_g, ts[pos], schema, row) is Err);
                            assert(false);
                        }
                        return vstd::pervasive::unreached();
                    },
                    Some(ci) => {
                        let dup = duplicate_word(&rowv[ci]);
                        st.push(CtEntry::Word(dup, cols[ci].ty, false));
                        proof {
                            assert(schema[ci as int].1 == cols@[ci as int].ty);
                            assert(row[ci as int] == rowv@[ci as int].word());
                            st_g = st_g.push(
                                StackV::Word(row[ci as int], cols@[ci as int].ty, false),
                            );
                            assert(stack_matches(st@, st_g, key.tag())) by {
                                assert(forall|a: int|
                                    0 <= a < st@.len() - 1 ==> entry_matches(
                                        #[trigger] st@[a],
                                        st_g[a],
                                        key.tag(),
                                    ));
                            }
                        }
                    },
                }
            },
            Token::Op(k) => {
                let is_comparison = match k {
                    OpKind::Eq => true,
                    OpKind::Neq => true,
                    OpKind::Lt => true,
                    OpKind::Gt => true,
                    _ => false,
                };
                if is_comparison {
                    proof {
                        assert(st_g.len() >= 2) by {
                            if st_g.len() < 2 {
                                assert(step(st_g, ts[pos], schema, row) is Err);
                            }
                        }
                        assert(entry_matches(st@[st@.len() - 2], st_g[st_g.len() - 2], key.tag()));
                        assert(entry_matches(st@[st@.len() - 1], st_g[st_g.len() - 1], key.tag()));
                    }
                    let e2 = st.pop().unwrap();
                    let e1 = st.pop().unwrap();
                    match (e1, e2) {
                        (CtEntry::Word(ct1, ty1, l1), CtEntry::Word(ct2, ty2, l2)) => {
                            let ordered = match k {
                                OpKind::Lt => true,
                                OpKind::Gt => true,
                                _ => false,
                            };
                            match plan_cmp_exec(ordered, &ty1, l1, &ty2, l2) {
                                Err(_) => {
                                    proof {
                                        assert(step(st_g, ts[pos], schema, row) is Err);
                                        assert(false);
                                    }
                                    return vstd::pervasive::unreached();
                                },
                                Ok(plan) => {
                                    proof {
                                        lemma_plan_sides(ordered, ty1, l1, ty2, l2);
                                    }
                                    let a1 = align_word(key, &ct1, &ty1, &plan);
                                    let a2 = align_word(key, &ct2, &ty2, &plan);
                                    let bit = match k {
                                        OpKind::Eq => ct_eq(key, &a1, &a2),
                                        OpKind::Neq => ct_ne(key, &a1, &a2),
                                        OpKind::Lt => ct_lt(key, &a1, &a2),
                                        OpKind::Gt => ct_gt(key, &a1, &a2),
                                        _ => vstd::pervasive::unreached(),
                                    };
                                    st.push(CtEntry::Flag(bit));
                                    proof {
                                        let m = st_g.len();
                                        let flag = cmp_aligned(
                                            *k,
                                            aligned_code(st_g[m - 2]->Word_0 as nat, ty1, plan),
                                            aligned_code(st_g[m - 1]->Word_0 as nat, ty2, plan),
                                        );
                                        st_g = st_g.take(m - 2).push(StackV::Flag(flag));
                                        assert(stepped == st_g);
                                        assert(stack_matches(st@, st_g, key.tag())) by {
                                            assert(forall|a: int|
                                                0 <= a < st@.len() - 1 ==> entry_matches(
                                                    #[trigger] st@[a],
                                                    st_g[a],
                                                    key.tag(),
                                                ));
                                        }
                                    }
                                },
                            }
                        },
                        _ => {
                            proof {
                                assert(step(st_g, ts[pos], schema, row) is Err);
                                assert(false);
                            }
                            return vstd::pervasive::unreached();
                        },
                    }
                } else if let OpKind::Not = k {
                    proof {
                        assert(st_g.len() >= 1) by {
                            if st_g.len() < 1 {
                                assert(step(st_g, ts[pos], schema, row) is Err);
                            }
                        }
                        assert(entry_matches(st@[st@.len() - 1], st_g[st_g.len() - 1], key.tag()));
                    }
                    let e1 = st.pop().unwrap();
                    match e1 {
                        CtEntry::Flag(b) => {
                            let nb = ct_not(key, &b);
                            st.push(CtEntry::Flag(nb));
                            proof {
                                let m = st_g.len();
                                assert(st_g.last() == st_g[m - 1]);
                                st_g = st_g.drop_last().push(StackV::Flag(!st_g[m - 1]->Flag_0));
                                assert(stack_matches(st@, st_g, key.tag())) by {
                                    assert(forall|a: int|
                                        0 <= a < st@.len() - 1 ==> entry_matches(
                                            #[trigger] st@[a],
                                            st_g[a],
                                            key.tag(),
                                        ));
                                }
                            }
                        },
                        _ => {
                            proof {
                                assert(st_g.last() == st_g[st_g.len() - 1]);
                                assert(step(st_g, ts[pos], schema, row) is Err);
                                assert(false);
                            }
                            return vstd::pervasive::unreached();
                        },
                    }
                } else {
                    proof {
                        assert(st_g.len() >= 2) by {
                            if st_g.len() < 2 {
                                assert(step(st_g, ts[pos], schema, row) is Err);
                            }
                        }
                        assert(entry_matches(st@[st@.len() - 2], st_g[st_g.len() - 2], key.tag()));
                        assert(entry_matches(st@[st@.len() - 1], st_g[st_g.len() - 1], key.tag()));
                    }
                    let e2 = st.pop().unwrap();
                    let e1 = st.pop().unwrap();
                    match (e1, e2) {
                        (CtEntry::Flag(b1), CtEntry::Flag(b2)) => {
                            let nb = match k {
                                OpKind::And => ct_and(key, &b1, &b2),
                                _ => ct_or(key, &b1, &b2),
                            };
                            st.push(CtEntry::Flag(nb));
                            proof {
                                let m = st_g.len();
                                let x1 = st_g[m - 2]->Flag_0;
                                let x2 = st_g[m - 1]->Flag_0;
                                let flag = if (k matches OpKind::And) {
                                    (x1 && x2)
                                } else {
                                    (x1 || x2)
                                };
                                st_g = st_g.take(m - 2).push(StackV::Flag(flag));
                                assert(stepped == st_g);
                                assert(stack_matches(st@, st_g, key.tag())) by {
                                    assert(forall|a: int|
                                        0 <= a < st@.len() - 1 ==> entry_matches(
                                            #[trigger] st@[a],
                                            st_g[a],
                                            key.tag(),
                                        ));
                                }
                            }
                        },
                        _ => {
                            proof {
                                assert(step(st_g, ts[pos], schema, row) is Err);
                                assert(false);
                            }
                            return vstd::pervasive::unreached();
                        },
                    }
                }
            },
            _ => {
                proof {
                    assert(tokens@[i as int]@ matches TokenV::Lit(_, _) || tokens@[i as int]@
                        matches TokenV::Col(_) || tokens@[i as int]@ matches TokenV::Op(_));
                    assert(false);
                }
                return vstd::pervasive::unreached();
            },
        }
        i = i + 1;
        proof {
            assert(run(Seq::empty(), ts.take(i - start), schema, row) == Ok::<
                Seq<StackV>,
                Error,
            >(st_g));
        }
    }
    proof {
        assert(ts.take(ts.len() as int) =~= ts);
        assert(st_g == full->Ok_0);
        assert(st_g.len() == 1);
        assert(st_g[0] matches StackV::Flag(_));
        assert(entry_matches(st@[0], st_g[0], key.tag()));
    }
    let only = st.pop().unwrap();
    match only {
        CtEntry::Flag(b) => b,
        _ => vstd::pervasive::unreached(),
    }
}

/// Evaluates a Predicate Program over the relational store, producing the
/// Encrypted Result, without ever decrypting.
///
/// The checks run in a fixed order: the source table is resolved first
/// (`TableNotFound`), then every projected column (`SchemaMismatch`), then
/// every column the predicate references (`SchemaMismatch` — an unknown
/// column is always reported as such, before any width planning), and only
/// then the predicate's typing (`SchemaMismatch` for an incomparable pairing,
/// `CapacityExceeded` for a width the operands cannot be brought to). All
/// checks depend only on the program and the schema, so the same query fails
/// the same way on every table of that schema, whatever the rows hold.
///
/// On success every row of the table contributes, in the store's row order,
/// its encrypted selector bit and one masked word per projected column:
/// the row's word where the selector is set, an encrypted zero where not. No
/// row is skipped and no operation depends on what any ciphertext holds.
#[verifier::rlimit(100)]
pub fn evaluate(prog: &Program, store: &Store, key: &ServerKeyHandle) -> (r: Result<
    EncryptedResult,
    Error,
>)
    requires
        prog.wf(),
        prog.tag() == key.tag(),
        store.wf(),
        store.all_tagged(key.tag()),
    ensures
        r is Ok <==> eval_err(prog@, prog.nproj_spec(), *store) is None,
        r matches Err(e) ==> eval_err(prog@, prog.nproj_spec(), *store) == Some(e),
        r matches Ok(res) ==> ({
            let ti = store.find_spec(table_name_of(prog@, prog.nproj_spec()));
            let tb = store.tables_spec()[ti];
            let idxs = proj_indices(prog@.take(prog.nproj_spec() as int), tb.schema());
            let pred = prog@.skip(prog.nproj_spec() as int + 1);
            &&& res.wf()
            &&& res.tag() == key.tag()
            &&& res.proj_types().len() == idxs.len()
            &&& (forall|j: int|
                0 <= j < idxs.len() ==> 0 <= idxs[j] < tb.schema().len() && (
                #[trigger] res.proj_types()[j]) == tb.schema()[idxs[j]].1)
            &&& res.rows_v() == result_rows(pred, tb.schema(), idxs, tb.codes())
        }),
{
    proof {
        lemma_program_open(prog);
    }
    let k = prog.nproj;
    let ghost tsv = prog.view();
    let name: &String = match &prog.tokens[k] {
        Token::Table(n) => n,
        _ => {
            proof {
                assert(tsv[k as int] == prog.tokens@[k as int]@);
                assert(false);
            }
            vstd::pervasive::unreached()
        },
    };
    proof {
        assert(tsv[k as int] == prog.tokens@[k as int]@);
        assert(table_name_of(tsv, prog.nproj_spec()) == name@);
    }
    let tref = match store.find(name) {
        None => {
            return Err(Error::TableNotFound);
        },
        Some(t) => t,
    };
    proof {
        lemma_table_open(tref);
        lemma_find_table(store.tables_spec(), name@);
        assert(store.find_spec(name@) >= 0);
        let ti = store.find_spec(name@);
        assert(0 <= ti < store.tables_spec().len());
        assert(store.tables_spec()[ti].wf());
        assert(store.tables_spec()[ti].tag() == key.tag());
    }
    let ghost schema = tref.schema();
    let ntoks = prog.tokens.len();
    proof {
        assert(k < tsv.len());
    }
    let pstart = k + 1;
    let mut idxs: Vec<usize> = Vec::new();
    let mut i: usize = 0;
    proof {
        assert(tsv.take(0) =~= Seq::<TokenV>::empty());
        assert(proj_indices(tsv.take(0), schema) =~= Seq::<int>::empty());
    }
    while i < k
        invariant
            i <= k,
            k == prog.nproj,
            k < prog.tokens@.len(),
            prog.nproj_spec() == k as nat,
            tsv == prog.view(),
            tsv == tokens_view(prog.tokens@),
            prog.wf(),
            prog_shape_ok(tsv, k as nat),
            schema == tref.schema(),
            schema == schema_of(tref.cols@),
            schema.len() == tref.cols@.len(),
            table_name_of(tsv, k as nat) == name@,
            store.find_spec(name@) >= 0,
            0 <= store.find_spec(name@) < store.tables_spec().len(),
            *tref == store.tables_spec()[store.find_spec(name@)],
            proj_ok(tsv.take(i as int), schema),
            idxs_ints(idxs@) == proj_indices(tsv.take(i as int), schema),
            forall|j: int| 0 <= j < idxs@.len() ==> 0 <= (#[trigger] idxs@[j]) < schema.len(),
        decreases k - i,
    {
        proof {
            assert(tsv.take(i + 1).drop_last() =~= tsv.take(i as int));
            assert(tsv.take(i + 1).last() == tsv[i as int]);
            assert(tsv[i as int] == prog.tokens@[i as int]@);
            assert(tsv[i as int] matches TokenV::Proj(_) || tsv[i as int] matches TokenV::ProjAll);
        }
        match &prog.tokens[i] {
            Token::Proj(n) => {
                match find_col_exec(&tref.cols, n) {
                    None => {
                        proof {
                            assert(tsv.take(k as int)[i as int] == tsv[i as int]);
                            assert(!proj_ok(tsv.take(k as int), schema));
                        }
                        return Err(Error::SchemaMismatch);
                    },
                    Some(ci) => {
                        idxs.push(ci);
                        proof {
                            lemma_find_col(schema, n@);
                            assert(proj_token_indices(tsv[i as int], schema) =~= seq![
                                find_col(schema, n@),
                            ]);
                            assert(proj_indices(tsv.take(i + 1), schema) =~= proj_indices(
                                tsv.take(i as int),
                                schema,
                            ) + seq![find_col(schema, n@)]);
                            assert(idxs_ints(idxs@) =~= proj_indices(tsv.take(i + 1), schema));
                            assert forall|j: int| 0 <= j < idxs@.len() implies 0 <= (
                            #[trigger] idxs@[j]) < schema.len() by {}
                            assert forall|j: int| 0 <= j < i + 1 implies ((
                            #[trigger] tsv.take(i + 1)[j]) matches TokenV::Proj(nm) ==> find_col(
                                schema,
                                nm,
                            ) >= 0) by {
                                if j < i {
                                    assert(tsv.take(i as int)[j] == tsv.take(i + 1)[j]);
                                    assert(proj_ok(tsv.take(i as int), schema));
                                }
                            }
                        }
                    },
                }
            },
            Token::ProjAll => {
                let ncols = tref.cols.len();
                let ghost base = idxs@;
                let mut c: usize = 0;
                while c < ncols
                    invariant
                        c <= ncols,
                        ncols == tref.cols@.len(),
                        schema == schema_of(tref.cols@),
                        schema.len() == ncols,
                        idxs_ints(base) == proj_indices(tsv.take(i as int), schema),
                        forall|j: int| 0 <= j < base.len() ==> 0 <= (#[trigger] base[j]) < schema.len(),
                        idxs@.len() == base.len() + c,
                        forall|j: int| 0 <= j < base.len() ==> idxs@[j] == (#[trigger] base[j]),
                        forall|j: int|
                            base.len() <= j < idxs@.len() ==> (#[trigger] idxs@[j]) as int == j
                                - base.len(),
                    decreases ncols - c,
                {
                    idxs.push(c);
                    c = c + 1;
                }
                proof {
                    assert(proj_token_indices(tsv[i as int], schema) =~= Seq::new(
                        schema.len(),
                        |j: int| j,
                    ));
                    assert(proj_indices(tsv.take(i + 1), schema) =~= proj_indices(
                        tsv.take(i as int),
                        schema,
                    ) + Seq::new(schema.len(), |j: int| j));
                    assert(idxs_ints(idxs@) =~= proj_indices(tsv.take(i + 1), schema));
                    assert forall|j: int| 0 <= j < idxs@.len() implies 0 <= (
                    #[trigger] idxs@[j]) < schema.len() by {
                        if j >= base.len() {
                            assert(idxs@[j] as int == j - base.len());
                        } else {
                            assert(idxs@[j] == base[j]);
                            assert(0 <= base[j] < schema.len());
                        }
                    }
                    assert forall|j: int| 0 <= j < i + 1 implies ((
                    #[trigger] tsv.take(i + 1)[j]) matches TokenV::Proj(nm) ==> find_col(
                        schema,
                        nm,
                    ) >= 0) by {
                        if j < i {
                            assert(tsv.take(i as int)[j] == tsv.take(i + 1)[j]);
                            assert(proj_ok(tsv.take(i as int), schema));
                        }
                    }
                }
            },
            _ => {
                proof {
                    assert(false);
                }
                return vstd::pervasive::unreached();
            },
        }
        i = i + 1;
    }
    proof {
        assert(tsv.take(i as int) == tsv.take(k as int));
    }
    proof {
        assert forall|a: int| pstart <= a < prog.tokens@.len() implies ((
        #[trigger] prog.tokens@[a])@ matches TokenV::Lit(_, _) || prog.tokens@[a]@ matches
            TokenV::Col(_) || prog.tokens@[a]@ matches TokenV::Op(_)) by {
            assert(tsv[a] == prog.tokens@[a]@);
        }
    }
    match check_tokens(&prog.tokens, pstart, &tref.cols) {
        Err(e) => {
            proof {
                assert(tokens_view(prog.tokens@).skip(k + 1 as int) == tsv.skip(k as int + 1));
            }
            return Err(e);
        },
        Ok(_) => {},
    }
    proof {
        assert(tokens_view(prog.tokens@).skip(k + 1 as int) == tsv.skip(k as int + 1));
        assert(eval_err(prog@, prog.nproj_spec(), *store) is None);
    }
    let ghost pred = tsv.skip(k as int + 1);
    let ghost idxs_i = proj_indices(tsv.take(k as int), schema);
    let nrows = tref.rows.len();
    let mut out_rows: Vec<ResultRow> = Vec::new();
    let mut rix: usize = 0;
    proof {
        assert(tref.codes().take(0) =~= Seq::<Seq<u64>>::empty());
        assert(result_rows(pred, schema, idxs_i, tref.codes().take(0)) =~= Seq::<
            (bool, Seq<u64>),
        >::empty());
        assert(out_rows@.map(
            |a: int, r: ResultRow| (r.sel.truth(), row_codes(r.vals@)),
        ) =~= Seq::<(bool, Seq<u64>)>::empty());
    }
    while rix < nrows
        invariant
            rix <= nrows,
            nrows == tref.rows@.len(),
            k == prog.nproj,
            pstart == k + 1,
            pstart <= prog.tokens@.len(),
            tsv == tokens_view(prog.tokens@),
            prog.wf(),
            toks_wf(prog.tokens@, key.tag()),
            prog_shape_ok(tsv, k as nat),
            forall|a: int|
                pstart <= a < prog.tokens@.len() ==> ((#[trigger] prog.tokens@[a])@ matches
                    TokenV::Lit(_, _) || prog.tokens@[a]@ matches TokenV::Col(_)
                    || prog.tokens@[a]@ matches TokenV::Op(_)),
            tref.wf(),
            tref.tag() == key.tag(),
            schema == tref.schema(),
            schema == schema_of(tref.cols@),
            schema.len() == tref.cols@.len(),
            pred == tsv.skip(k as int + 1),
            check_pred(pred, schema) == Ok::<(), Error>(()),
            idxs_i == proj_indices(tsv.take(k as int), schema),
            idxs_ints(idxs@) == idxs_i,
            idxs@.len() == idxs_i.len(),
            forall|j: int| 0 <= j < idxs@.len() ==> 0 <= (#[trigger] idxs@[j]) < schema.len(),
            out_rows@.len() == rix,
            out_rows@.map(|a: int, r: ResultRow| (r.sel.truth(), row_codes(r.vals@)))
                =~= result_rows(pred, schema, idxs_i, tref.codes().take(rix as int)),
            forall|a: int|
                0 <= a < out_rows@.len() ==> (#[trigger] out_rows@[a]).sel.tag() == key.tag() && (
                out_rows@[a]).vals@.len() == idxs@.len() && forall|j: int|
                    0 <= j < idxs@.len() ==> (#[trigger] out_rows@[a].vals@[j]).tag() == key.tag()
                        && is_code(
                        out_rows@[a].vals@[j].word() as nat,
                        schema[idxs@[j] as int].1,
                    ) && 2 * out_rows@[a].vals@[j].nblocks() == schema[idxs@[j] as int].1.width()
                        && out_rows@[a].vals@[j].wf(),
        decreases nrows - rix,
    {
        proof {
            lemma_program_open(prog);
            lemma_table_open(tref);
            assert((#[trigger] tref.rows@[rix as int])@.len() == tref.cols@.len()
                && crate::program::row_matches(
                tref.schema(),
                row_codes(tref.rows@[rix as int]@),
                tref.plain()[rix as int],
            ));
            assert forall|j: int| 0 <= j < tref.rows@[rix as int]@.len() implies (
            #[trigger] tref.rows@[rix as int]@[j]).tag() == key.tag() && 2
                * tref.rows@[rix as int]@[j].nblocks() == schema[j].1.width() && is_code(
                tref.rows@[rix as int]@[j].word() as nat,
                schema[j].1,
            ) && tref.rows@[rix as int]@[j].wf() by {
                assert(crate::values::value_fits(
                    tref.plain()[rix as int][j],
                    schema[j].1,
                ) && row_codes(tref.rows@[rix as int]@)[j] as nat == crate::values::code_of(
                    tref.plain()[rix as int][j],
                    schema[j].1,
                ));
                crate::values::lemma_code_in_range(tref.plain()[rix as int][j], schema[j].1);
                assert(row_codes(tref.rows@[rix as int]@)[j] == tref.rows@[rix as int]@[j].word());
            }
        }
        let rowv = &tref.rows[rix];
        let sel = eval_row(key, &prog.tokens, pstart, &tref.cols, rowv);
        let ghost rowc = row_codes(rowv@);
        let ghost selv = sel_of(pred, schema, rowc);
        let mut vals: Vec<CtWord> = Vec::new();
        let mut j: usize = 0;
        while j < idxs.len()
            invariant
                j <= idxs@.len(),
                schema == schema_of(tref.cols@),
                schema.len() == tref.cols@.len(),
                tref.tag() == key.tag(),
                rowv == &tref.rows@[rix as int],
                0 <= rix < tref.rows@.len(),
                rowv@.len() == tref.cols@.len(),
                forall|a: int|
                    0 <= a < rowv@.len() ==> (#[trigger] rowv@[a]).tag() == key.tag() && 2
                        * rowv@[a].nblocks() == schema[a].1.width() && is_code(
                        rowv@[a].word() as nat,
                        schema[a].1,
                    ) && rowv@[a].wf(),
                rowc == row_codes(rowv@),
                sel.tag() == key.tag(),
                sel.truth() == selv,
                forall|a: int|
                    0 <= a < idxs@.len() ==> 0 <= (#[trigger] idxs@[a]) < schema.len(),
                vals@.len() == j,
                forall|a: int|
                    0 <= a < j ==> (#[trigger] vals@[a]).word() == (if selv {
                        rowc[idxs@[a] as int]
                    } else {
                        0u64
                    }) && vals@[a].tag() == key.tag() && is_code(
                        vals@[a].word() as nat,
                        schema[idxs@[a] as int].1,
                    ) && 2 * vals@[a].nblocks() == schema[idxs@[a] as int].1.width()
                        && vals@[a].wf(),
            decreases idxs@.len() - j,
        {
            let ci = idxs[j];
            let cell = &rowv[ci];
            let bits = tref.cols[ci].ty.width_exec();
            let blocks = (bits / 2) as usize;
            proof {
                assert(schema[ci as int].1 == tref.cols@[ci as int].ty);
                assert(2 * cell.nblocks() == schema[ci as int].1.width());
                assert(blocks as nat == cell.nblocks());
                lemma_pow2_pos(2 * blocks as nat);
                lemma_zero_is_code(schema[ci as int].1);
            }
            let zero = trivial_word(key, 0, blocks);
            let masked = ct_select(key, &sel, cell, &zero);
            vals.push(masked);
            proof {
                assert(rowc[ci as int] == cell.word());
            }
            j = j + 1;
        }
        let ghost valsv = vals@;
        let ghost prevrows = out_rows@;
        let rr = ResultRow { sel, vals };
        out_rows.push(rr);
        proof {
            assert(tref.codes()[rix as int] == rowc);
            let expect = row_item(pred, schema, idxs_i, rowc);
            assert(row_codes(valsv) =~= expect.1) by {
                assert forall|a: int| 0 <= a < idxs@.len() implies row_codes(valsv)[a]
                    == expect.1[a] by {
                    assert(row_codes(valsv)[a] == valsv[a].word());
                    assert(idxs_ints(idxs@)[a] == idxs@[a] as int);
                    assert(idxs_i[a] == idxs@[a] as int);
                }
            }
            let mapped = out_rows@.map(|a: int, r: ResultRow| (r.sel.truth(), row_codes(r.vals@)));
            let want = result_rows(pred, schema, idxs_i, tref.codes().take(rix + 1));
            assert(mapped =~= want) by {
                assert(mapped.len() == rix + 1 && want.len() == rix + 1);
                assert forall|a: int| 0 <= a < rix + 1 implies mapped[a] == want[a] by {
                    assert(want[a] == row_item(pred, schema, idxs_i, tref.codes().take(rix + 1)[a]));
                    if a < rix {
                        assert(out_rows@[a] == prevrows[a]);
                        assert(tref.codes().take(rix + 1)[a] == tref.codes().take(rix as int)[a]);
                        assert(prevrows.map(
                            |b: int, r: ResultRow| (r.sel.truth(), row_codes(r.vals@)),
                        )[a] == result_rows(pred, schema, idxs_i, tref.codes().take(rix as int))[a]);
                    } else {
                        assert(out_rows@[a] == rr);
                        assert(tref.codes().take(rix + 1)[a] == rowc);
                        assert((rr.sel.truth(), row_codes(rr.vals@)) == expect);
                    }
                }
            }
        }
        rix = rix + 1;
    }
    let mut ptys: Vec<ColumnType> = Vec::new();
    let mut j: usize = 0;
    while j < idxs.len()
        invariant
            j <= idxs@.len(),
            schema == schema_of(tref.cols@),
            schema.len() == tref.cols@.len(),
            forall|a: int| 0 <= a < idxs@.len() ==> 0 <= (#[trigger] idxs@[a]) < schema.len(),
            ptys@.len() == j,
            forall|a: int| 0 <= a < j ==> (#[trigger] ptys@[a]) == schema[idxs@[a] as int].1,
        decreases idxs@.len() - j,
    {
        let ci = idxs[j];
        ptys.push(tref.cols[ci].ty);
        proof {
            assert(schema[ci as int].1 == tref.cols@[ci as int].ty);
        }
        j = j + 1;
    }
    let res = EncryptedResult { rows: out_rows, proj: ptys, tag_g: Ghost(key.tag()) };
    proof {
        assert(tref.codes().take(nrows as int) =~= tref.codes());
        assert(res.rows_v() =~= result_rows(pred, schema, idxs_i, tref.codes()));
        assert(res.wf()) by {
            assert forall|a: int| 0 <= a < res.rows@.len() implies (
            #[trigger] res.rows@[a]).sel.tag() == res.tag_g@ && forall|b: int|
                0 <= b < res.rows@[a].vals@.len() && b < res.proj@.len() ==> (
                #[trigger] res.rows@[a].vals@[b]).tag() == res.tag_g@ && is_code(
                    res.rows@[a].vals@[b].word() as nat,
                    res.proj@[b],
                ) && 2 * res.rows@[a].vals@[b].nblocks() == res.proj@[b].width()
                    && res.rows@[a].vals@[b].wf() by {
                assert((res.rows@[a]).vals@.len() == res.proj@.len());
            }
        }
    }
    Ok(res)
}

} // verus!
