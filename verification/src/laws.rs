//! The laws the pipeline obeys, stated over the specification functions its
//! contracts are written in and proved once for all queries, tables and key
//! sessions.

use vstd::prelude::*;

verus! {

use crate::compare::lemma_code_injective;
use crate::error::Error;
use crate::decode::row_decodes;
use crate::decode::selected_words;
use crate::eval::check_pred;
use crate::eval::col_unresolved;
use crate::eval::eval_err;
use crate::eval::proj_indices;
use crate::eval::proj_ok;
use crate::eval::result_rows;
use crate::eval::row_item;
use crate::eval::sel_of;
use crate::eval::table_name_of;
use crate::program::StackV;
use crate::program::TokenV;
use crate::program::lemma_lower_pred_runs;
use crate::program::lemma_lower_pred_cols;
use crate::program::lemma_lower_pred_shape;
use crate::program::lower_pred;
use crate::program::lower_proj;
use crate::program::lower_query;
use crate::program::pred_compat;
use crate::program::row_matches;
use crate::program::run;
use crate::query::Pred;
use crate::query::Proj;
use crate::query::Query;
use crate::query::SchemaV;
use crate::query::find_col;
use crate::query::lemma_find_col;
use crate::query::pred_holds;
use crate::query::pred_supported;
use crate::query::query_supported;
use crate::table::Store;
use crate::values::ColumnType;
use crate::values::PlainValue;
use crate::values::code_of;
use crate::values::value_eq;
use crate::values::value_fits;

/// Does a row satisfy the query's selection? A query without a `WHERE`
/// clause selects every row.
pub open spec fn row_holds(sel: Option<Pred>, schema: SchemaV, row: Seq<PlainValue>) -> bool {
    match sel {
        Some(p) => pred_holds(p, schema, row),
        None => true,
    }
}

/// The postfix tokens a selection lowers to.
pub open spec fn lower_sel(sel: Option<Pred>) -> Seq<TokenV> {
    match sel {
        Some(p) => lower_pred(p),
        None => Seq::empty(),
    }
}

/// The plaintext reference answer: the rows satisfying the selection, in
/// table order, each projected to the chosen columns.
pub open spec fn plain_selected(
    sel: Option<Pred>,
    schema: SchemaV,
    rows: Seq<Seq<PlainValue>>,
    idxs: Seq<int>,
) -> Seq<Seq<PlainValue>>
    decreases rows.len(),
{
    if rows.len() == 0 {
        Seq::empty()
    } else {
        plain_selected(sel, schema, rows.drop_last(), idxs) + if row_holds(
            sel,
            schema,
            rows.last(),
        ) {
            seq![Seq::new(idxs.len(), |j: int| rows.last()[idxs[j]])]
        } else {
            Seq::empty()
        }
    }
}

/// The declared types of the projected columns.
pub open spec fn proj_ty(idxs: Seq<int>, schema: SchemaV) -> Seq<ColumnType> {
    Seq::new(idxs.len(), |j: int| schema[idxs[j]].1)
}

/// A query's static compatibility with a schema: every projected column
/// resolves and every comparison of its predicate is admissible.
pub open spec fn query_compat(q: Query, schema: SchemaV) -> bool {
    &&& forall|i: int|
        0 <= i < q.projection@.len() ==> ((#[trigger] q.projection@[i]) matches Proj::Column(n)
            ==> find_col(schema, n@) >= 0)
    &&& match q.selection {
        Some(p) => pred_compat(p, schema),
        None => true,
    }
}

/// A supported, compatible predicate passes the evaluator's static check:
/// success is owed whenever the query's names resolve and its comparisons
/// are admissible.
pub proof fn lemma_compat_check(p: Pred, schema: SchemaV)
    requires
        pred_supported(p),
        pred_compat(p, schema),
    ensures
        check_pred(lower_pred(p), schema) == Ok::<(), Error>(()),
{
    let lp = lower_pred(p);
    lemma_lower_pred_cols(p, schema);
    assert(!(exists|i: int| 0 <= i < lp.len() && col_unresolved(#[trigger] lp[i], schema))) by {
        if exists|i: int| 0 <= i < lp.len() && col_unresolved(#[trigger] lp[i], schema) {
            let i = choose|i: int| 0 <= i < lp.len() && col_unresolved(#[trigger] lp[i], schema);
            assert(lp[i] matches TokenV::Col(n) ==> find_col(schema, n) >= 0);
        }
    }
    if lp.len() == 0 {
    } else {
        let zrow = crate::eval::zero_row(schema);
        lemma_lower_pred_shape(p, Seq::empty(), Seq::empty(), schema, zrow);
        let f = choose|f: bool|
            run(Seq::empty(), lp + Seq::empty(), schema, zrow) == run(
                #[trigger] Seq::empty().push(StackV::Flag(f)),
                Seq::empty(),
                schema,
                zrow,
            );
        assert(lp + Seq::empty() =~= lp);
        assert(run(Seq::empty(), lp, schema, zrow) == Ok::<Seq<StackV>, Error>(
            Seq::empty().push(StackV::Flag(f)),
        ));
        assert(Seq::empty().push(StackV::Flag(f)).len() == 1);
        assert(Seq::empty().push(StackV::Flag(f))[0] == StackV::Flag(f));
    }
}

/// Projection indices lie within the schema.
pub proof fn lemma_proj_indices_bounds(ts: Seq<TokenV>, schema: SchemaV)
    requires
        proj_ok(ts, schema),
    ensures
        forall|j: int|
            0 <= j < proj_indices(ts, schema).len() ==> 0 <= #[trigger] proj_indices(ts, schema)[j]
                < schema.len(),
    decreases ts.len(),
{
    if ts.len() > 0 {
        assert(forall|i: int| 0 <= i < ts.len() - 1 ==> ts.drop_last()[i] == ts[i]);
        assert(proj_ok(ts.drop_last(), schema)) by {
            assert forall|i: int| 0 <= i < ts.drop_last().len() implies ((
            #[trigger] ts.drop_last()[i]) matches TokenV::Proj(n) ==> find_col(schema, n)
                >= 0) by {
                assert(ts.drop_last()[i] == ts[i]);
            }
        }
        lemma_proj_indices_bounds(ts.drop_last(), schema);
        let prefix = proj_indices(ts.drop_last(), schema);
        let lastpart = crate::eval::proj_token_indices(ts.last(), schema);
        assert(proj_indices(ts, schema) == prefix + lastpart);
        assert forall|j: int|
            0 <= j < proj_indices(ts, schema).len() implies 0 <= #[trigger] proj_indices(
            ts,
            schema,
        )[j] < schema.len() by {
            if j < prefix.len() {
                assert(proj_indices(ts, schema)[j] == prefix[j]);
            } else {
                assert(proj_indices(ts, schema)[j] == lastpart[j - prefix.len()]);
                match ts.last() {
                    TokenV::Proj(n) => {
                        assert(ts[ts.len() - 1] == ts.last());
                        lemma_find_col(schema, n);
                        assert(lastpart == seq![find_col(schema, n)]);
                    },
                    _ => {},
                }
            }
        }
    }
}

/// OBLIVIOUSNESS. Against two stores whose resolution of the program's table
/// yields tables of one schema and one row count — however their rows differ,
/// in particular in which rows match — the evaluation fails identically or
/// yields results of identical shape: the same row count and the same word
/// count and declared type per row. Together with the machine-level guarantee
/// (`lemma_run_oblivious`: the predicate machine's control flow and errors
/// depend only on types, never on any word) this pins the evaluator's
/// operation sequence to the program, the schema and the row count alone.
pub proof fn lemma_evaluation_oblivious(ts: Seq<TokenV>, k: nat, s1: Store, s2: Store)
    requires
        s1.find_spec(table_name_of(ts, k)) >= 0,
        s2.find_spec(table_name_of(ts, k)) >= 0,
        s1.tables_spec()[s1.find_spec(table_name_of(ts, k))].schema() == s2.tables_spec()[s2.find_spec(
            table_name_of(ts, k),
        )].schema(),
        s1.tables_spec()[s1.find_spec(table_name_of(ts, k))].codes().len() == s2.tables_spec()[s2.find_spec(
            table_name_of(ts, k),
        )].codes().len(),
    ensures
        eval_err(ts, k, s1) == eval_err(ts, k, s2),
        ({
            let t1 = s1.tables_spec()[s1.find_spec(table_name_of(ts, k))];
            let t2 = s2.tables_spec()[s2.find_spec(table_name_of(ts, k))];
            let schema = t1.schema();
            let idxs = proj_indices(ts.take(k as int), schema);
            let rv1 = result_rows(ts.skip(k as int + 1), schema, idxs, t1.codes());
            let rv2 = result_rows(ts.skip(k as int + 1), schema, idxs, t2.codes());
            rv1.len() == rv2.len() && forall|i: int|
                0 <= i < rv1.len() ==> (#[trigger] rv1[i]).1.len() == rv2[i].1.len()
                    && rv1[i].1.len() == idxs.len()
        }),
{
}

/// RE-ENCODING STABILITY. The lowering is a function of the query alone, so
/// any two encodings of one query — with fresh, different ciphertexts —
/// carry one token view, meet one evaluation outcome against any table, and
/// decode to answers that agree row for row and value for value.
pub proof fn lemma_reencoding_stable(
    q: Query,
    ts1: Seq<TokenV>,
    ts2: Seq<TokenV>,
    words: Seq<Seq<u64>>,
    proj: Seq<ColumnType>,
    ans1: Seq<Seq<PlainValue>>,
    ans2: Seq<Seq<PlainValue>>,
)
    requires
        ts1 == lower_query(q),
        ts2 == lower_query(q),
        ans1.len() == words.len(),
        ans2.len() == words.len(),
        forall|i: int| 0 <= i < words.len() ==> row_decodes(#[trigger] ans1[i], words[i], proj),
        forall|i: int| 0 <= i < words.len() ==> row_decodes(#[trigger] ans2[i], words[i], proj),
    ensures
        ts1 == ts2,
        forall|i: int, j: int|
            0 <= i < words.len() && 0 <= j < proj.len() ==> value_eq(
                #[trigger] ans1[i][j],
                #[trigger] ans2[i][j],
            ),
{
    lemma_decodings_agree(ans1, ans2, words, proj);
}

/// RE-EVALUATION STABILITY. The Encrypted Result's words are a function of
/// the program's view, the schema and the table's words, so two evaluations
/// of one unchanged program over one unchanged table decode to answers that
/// agree row for row; fresh ciphertexts cannot change the outcome.
pub proof fn lemma_reevaluation_stable(
    words: Seq<Seq<u64>>,
    proj: Seq<ColumnType>,
    ans1: Seq<Seq<PlainValue>>,
    ans2: Seq<Seq<PlainValue>>,
)
    requires
        ans1.len() == words.len(),
        ans2.len() == words.len(),
        forall|i: int| 0 <= i < words.len() ==> row_decodes(#[trigger] ans1[i], words[i], proj),
        forall|i: int| 0 <= i < words.len() ==> row_decodes(#[trigger] ans2[i], words[i], proj),
    ensures
        forall|i: int, j: int|
            0 <= i < words.len() && 0 <= j < proj.len() ==> value_eq(
                #[trigger] ans1[i][j],
                #[trigger] ans2[i][j],
            ),
{
    lemma_decodings_agree(ans1, ans2, words, proj);
}

/// Two decodings of one word sequence agree valuewise: the word encoding is
/// injective within each declared type.
proof fn lemma_decodings_agree(
    ans1: Seq<Seq<PlainValue>>,
    ans2: Seq<Seq<PlainValue>>,
    words: Seq<Seq<u64>>,
    proj: Seq<ColumnType>,
)
    requires
        ans1.len() == words.len(),
        ans2.len() == words.len(),
        forall|i: int| 0 <= i < words.len() ==> row_decodes(#[trigger] ans1[i], words[i], proj),
        forall|i: int| 0 <= i < words.len() ==> row_decodes(#[trigger] ans2[i], words[i], proj),
    ensures
        forall|i: int, j: int|
            0 <= i < words.len() && 0 <= j < proj.len() ==> value_eq(
                #[trigger] ans1[i][j],
                #[trigger] ans2[i][j],
            ),
{
    assert forall|i: int, j: int|
        0 <= i < words.len() && 0 <= j < proj.len() implies value_eq(
        #[trigger] ans1[i][j],
        #[trigger] ans2[i][j],
    ) by {
        assert(row_decodes(ans1[i], words[i], proj));
        assert(row_decodes(ans2[i], words[i], proj));
        lemma_code_injective(ans1[i][j], ans2[i][j], proj[j]);
    }
}

/// An empty table yields an empty result that decodes to no rows — never an
/// error, since the evaluator's checks read only the program and the schema.
pub proof fn lemma_empty_table(ts: Seq<TokenV>, schema: SchemaV, idxs: Seq<int>)
    ensures
        result_rows(ts, schema, idxs, Seq::empty()).len() == 0,
        selected_words(result_rows(ts, schema, idxs, Seq::empty())).len() == 0,
{
    assert(result_rows(ts, schema, idxs, Seq::empty()) =~= Seq::<(bool, Seq<u64>)>::empty());
}

/// The evaluator's verdict never reads a row: two stores resolving the
/// program's table to tables of one schema — an empty one and a full one,
/// say — are accepted or refused identically. In particular an empty table
/// errs exactly when a populated table of its schema would.
pub proof fn lemma_errors_ignore_rows(ts: Seq<TokenV>, k: nat, s1: Store, s2: Store)
    requires
        s1.find_spec(table_name_of(ts, k)) >= 0,
        s2.find_spec(table_name_of(ts, k)) >= 0,
        s1.tables_spec()[s1.find_spec(table_name_of(ts, k))].schema() == s2.tables_spec()[s2.find_spec(
            table_name_of(ts, k),
        )].schema(),
    ensures
        eval_err(ts, k, s1) == eval_err(ts, k, s2),
{
}

/// A predicate that references a column the table lacks always fails the
/// static check with `SchemaMismatch` — whatever else is wrong with the
/// predicate, and never silently as zero rows: the check resolves every
/// column reference before any other concern.
pub proof fn lemma_unknown_column_fails(ts: Seq<TokenV>, schema: SchemaV)
    requires
        exists|i: int| 0 <= i < ts.len() && col_unresolved(#[trigger] ts[i], schema),
    ensures
        check_pred(ts, schema) == Err::<(), Error>(Error::SchemaMismatch),
{
}

/// The matching rows of an evaluation are exactly the plaintext selection.
/// For every row, the selector the machine computes is the predicate's
/// plaintext truth, and the masked words of a matching row are the codes of
/// its projected values.
pub proof fn lemma_selected_correspondence(
    sel: Option<Pred>,
    schema: SchemaV,
    idxs: Seq<int>,
    codes: Seq<Seq<u64>>,
    vals: Seq<Seq<PlainValue>>,
)
    requires
        sel matches Some(p) ==> pred_supported(p) && pred_compat(p, schema),
        codes.len() == vals.len(),
        forall|i: int| 0 <= i < codes.len() ==> row_matches(schema, #[trigger] codes[i], vals[i]),
        forall|j: int| 0 <= j < idxs.len() ==> 0 <= #[trigger] idxs[j] < schema.len(),
    ensures
        selected_words(result_rows(lower_sel(sel), schema, idxs, codes)).len() == plain_selected(
            sel,
            schema,
            vals,
            idxs,
        ).len(),
        forall|i: int|
            0 <= i < plain_selected(sel, schema, vals, idxs).len() ==> (#[trigger] selected_words(
                result_rows(lower_sel(sel), schema, idxs, codes),
            )[i]).len() == idxs.len() && plain_selected(sel, schema, vals, idxs)[i].len()
                == idxs.len() && (forall|j: int|
                0 <= j < idxs.len() ==> selected_words(
                    result_rows(lower_sel(sel), schema, idxs, codes),
                )[i][j] == code_of(
                    #[trigger] plain_selected(sel, schema, vals, idxs)[i][j],
                    schema[idxs[j]].1,
                ) && value_fits(plain_selected(sel, schema, vals, idxs)[i][j], schema[idxs[j]].1)),
    decreases codes.len(),
{
    let pred_ts = lower_sel(sel);
    let rv = result_rows(pred_ts, schema, idxs, codes);
    if codes.len() == 0 {
        assert(rv =~= Seq::<(bool, Seq<u64>)>::empty());
    } else {
        let cp = codes.drop_last();
        let vp = vals.drop_last();
        assert(forall|i: int| 0 <= i < cp.len() ==> cp[i] == #[trigger] codes[i]);
        assert(forall|i: int| 0 <= i < vp.len() ==> vp[i] == #[trigger] vals[i]);
        lemma_selected_correspondence(sel, schema, idxs, cp, vp);
        let rvp = result_rows(pred_ts, schema, idxs, cp);
        assert(rv.drop_last() =~= rvp);
        assert(rv.last() == row_item(pred_ts, schema, idxs, codes.last()));
        // the machine's selector for the last row is the predicate's truth
        let selbit = sel_of(pred_ts, schema, codes.last());
        assert(selbit == row_holds(sel, schema, vals.last())) by {
            match sel {
                Some(p) => {
                    lemma_lower_pred_runs(
                        p,
                        Seq::empty(),
                        Seq::empty(),
                        schema,
                        codes.last(),
                        vals.last(),
                    );
                    let ph = pred_holds(p, schema, vals.last());
                    assert(lower_pred(p) + Seq::empty() =~= lower_pred(p));
                    assert(run(Seq::empty(), lower_pred(p), schema, codes.last()) == Ok::<
                        Seq<StackV>,
                        Error,
                    >(Seq::empty().push(StackV::Flag(ph))));
                    assert(Seq::empty().push(StackV::Flag(ph)).len() == 1);
                    if lower_pred(p).len() == 0 {
                        assert(run(Seq::empty(), lower_pred(p), schema, codes.last()) == Ok::<
                            Seq<StackV>,
                            Error,
                        >(Seq::empty()));
                        assert(false);
                    }
                    assert(Seq::empty().push(StackV::Flag(ph))[0] == StackV::Flag(ph));
                },
                None => {},
            }
        }
        let sw = selected_words(rv);
        let swp = selected_words(rvp);
        let want = plain_selected(sel, schema, vals, idxs);
        let wantp = plain_selected(sel, schema, vp, idxs);
        if selbit {
            assert(sw =~= swp + seq![rv.last().1]);
            assert(want =~= wantp + seq![Seq::new(idxs.len(), |j: int| vals.last()[idxs[j]])]);
            assert forall|i: int| 0 <= i < sw.len() implies (#[trigger] sw[i]).len() == idxs.len()
                && want[i].len() == idxs.len() && (forall|j: int|
                0 <= j < idxs.len() ==> sw[i][j] == code_of(#[trigger] want[i][j], schema[idxs[j]].1)
                    && value_fits(want[i][j], schema[idxs[j]].1)) by {
                if i < sw.len() - 1 {
                    assert(sw[i] == swp[i] && want[i] == wantp[i]);
                } else {
                    assert(sw[i] == rv.last().1);
                    assert(want[i] == Seq::new(idxs.len(), |j: int| vals.last()[idxs[j]]));
                    assert(row_matches(schema, codes.last(), vals.last())) by {
                        assert(codes[codes.len() - 1] == codes.last());
                    }
                    assert forall|j: int| 0 <= j < idxs.len() implies sw[i][j] == code_of(
                        #[trigger] want[i][j],
                        schema[idxs[j]].1,
                    ) && value_fits(want[i][j], schema[idxs[j]].1) by {
                        assert(sw[i][j] == codes.last()[idxs[j]]);
                        assert(want[i][j] == vals.last()[idxs[j]]);
                        assert(value_fits(vals.last()[idxs[j]], schema[idxs[j]].1)
                            && codes.last()[idxs[j]] as nat == code_of(
                            vals.last()[idxs[j]],
                            schema[idxs[j]].1,
                        ));
                    }
                }
            }
        } else {
            assert(sw =~= swp);
            assert(want =~= wantp);
            assert forall|i: int| 0 <= i < sw.len() implies (#[trigger] sw[i]).len() == idxs.len()
                && want[i].len() == idxs.len() && (forall|j: int|
                0 <= j < idxs.len() ==> sw[i][j] == code_of(#[trigger] want[i][j], schema[idxs[j]].1)
                    && value_fits(want[i][j], schema[idxs[j]].1)) by {
                assert(sw[i] == swp[i] && want[i] == wantp[i]);
            }
        }
    }
}

/// CORRECTNESS. For every supported, compatible query and every sound store,
/// the pipeline is owed success, and any answer decoded from evaluating the
/// query's encoding equals — row for row, value for value — the plaintext
/// selection: the rows of the scanned table that satisfy the predicate, in
/// table order, projected to the chosen columns.
pub proof fn lemma_pipeline_correct(q: Query, store: Store, ans: Seq<Seq<PlainValue>>)
    requires
        query_supported(q),
        store.wf(),
        store.find_spec(q.table@) >= 0,
        0 <= store.find_spec(q.table@) < store.tables_spec().len(),
        query_compat(q, store.tables_spec()[store.find_spec(q.table@)].schema()),
        ({
            let tb = store.tables_spec()[store.find_spec(q.table@)];
            let ts = lower_query(q);
            let k = q.projection@.len() as int;
            let schema = tb.schema();
            let idxs = proj_indices(ts.take(k), schema);
            let rv = result_rows(ts.skip(k + 1), schema, idxs, tb.codes());
            ans.len() == selected_words(rv).len() && forall|i: int|
                0 <= i < ans.len() ==> row_decodes(
                    #[trigger] ans[i],
                    selected_words(rv)[i],
                    proj_ty(idxs, schema),
                )
        }),
    ensures
        eval_err(lower_query(q), q.projection@.len() as nat, store) is None,
        ({
            let tb = store.tables_spec()[store.find_spec(q.table@)];
            let ts = lower_query(q);
            let k = q.projection@.len() as int;
            let schema = tb.schema();
            let idxs = proj_indices(ts.take(k), schema);
            let want = plain_selected(q.selection, schema, tb.plain(), idxs);
            ans.len() == want.len() && forall|i: int, j: int|
                0 <= i < ans.len() && 0 <= j < idxs.len() ==> value_eq(
                    #[trigger] ans[i][j],
                    #[trigger] want[i][j],
                )
        }),
{
    let tb = store.tables_spec()[store.find_spec(q.table@)];
    let ts = lower_query(q);
    let k = q.projection@.len() as int;
    let schema = tb.schema();
    // the program's token layout
    assert(ts.take(k) =~= q.projection@.map(|i: int, p: Proj| lower_proj(p)));
    assert(ts[k] == TokenV::Table(q.table@));
    assert(table_name_of(ts, k as nat) == q.table@);
    assert(ts.skip(k + 1) =~= lower_sel(q.selection));
    // the projections resolve
    assert(proj_ok(ts.take(k), schema)) by {
        assert forall|i: int| 0 <= i < k implies ((#[trigger] ts.take(k)[i]) matches TokenV::Proj(
            n,
        ) ==> find_col(schema, n) >= 0) by {
            assert(ts.take(k)[i] == lower_proj(q.projection@[i]));
            assert((#[trigger] q.projection@[i]) matches Proj::Column(nm) ==> find_col(schema, nm@)
                >= 0);
        }
    }
    // the predicate passes the static check
    assert(check_pred(ts.skip(k + 1), schema) == Ok::<(), Error>(())) by {
        match q.selection {
            Some(p) => {
                lemma_compat_check(p, schema);
            },
            None => {},
        }
    }
    assert(eval_err(ts, k as nat, store) is None);
    // the answer equals the plaintext selection
    let idxs = proj_indices(ts.take(k), schema);
    lemma_proj_indices_bounds(ts.take(k), schema);
    crate::table::lemma_table_open(&tb);
    assert(tb.wf());
    assert forall|i: int| 0 <= i < tb.codes().len() implies row_matches(
        schema,
        #[trigger] tb.codes()[i],
        tb.plain()[i],
    ) by {
        assert((#[trigger] tb.rows@[i])@.len() == tb.cols@.len() && row_matches(
            tb.schema(),
            crate::table::row_codes(tb.rows@[i]@),
            tb.plain_g@[i],
        ));
        assert(tb.codes()[i] == crate::table::row_codes(tb.rows@[i]@));
    }
    lemma_selected_correspondence(q.selection, schema, idxs, tb.codes(), tb.plain());
    let rv = result_rows(lower_sel(q.selection), schema, idxs, tb.codes());
    let sw = selected_words(rv);
    let want = plain_selected(q.selection, schema, tb.plain(), idxs);
    assert(result_rows(ts.skip(k + 1), schema, idxs, tb.codes()) == rv);
    assert forall|i: int, j: int|
        0 <= i < ans.len() && 0 <= j < idxs.len() implies value_eq(
        #[trigger] ans[i][j],
        #[trigger] want[i][j],
    ) by {
        assert(row_decodes(ans[i], sw[i], proj_ty(idxs, schema)));
        assert(value_fits(ans[i][j], proj_ty(idxs, schema)[j]) && code_of(
            ans[i][j],
            proj_ty(idxs, schema)[j],
        ) == sw[i][j]);
        assert(sw[i][j] == code_of(want[i][j], schema[idxs[j]].1) && value_fits(
            want[i][j],
            schema[idxs[j]].1,
        ));
        assert(proj_ty(idxs, schema)[j] == schema[idxs[j]].1);
        lemma_code_injective(ans[i][j], want[i][j], schema[idxs[j]].1);
    }
}

/// The sum of one column's masked words over all rows, matching or not.
pub open spec fn masked_sum(rv: Seq<(bool, Seq<u64>)>, j: int) -> int
    decreases rv.len(),
{
    if rv.len() == 0 {
        0
    } else {
        masked_sum(rv.drop_last(), j) + rv.last().1[j]
    }
}

/// MASKING. For an unsigned projected column of an evaluation's result,
/// summing the masked words of every row — with no glance at any selector —
/// equals summing the values of the matching rows alone: a non-matching row
/// contributes an encrypted zero, not nothing, which is what lets the
/// evaluator visit every row identically and still support summation.
pub proof fn lemma_masked_sum_equivalence(
    ts: Seq<TokenV>,
    schema: SchemaV,
    idxs: Seq<int>,
    codes: Seq<Seq<u64>>,
    j: int,
)
    requires
        0 <= j < idxs.len(),
    ensures
        masked_sum(result_rows(ts, schema, idxs, codes), j) == crate::decode::col_sum(
            result_rows(ts, schema, idxs, codes),
            j,
            ColumnType::UnsignedInt(crate::values::IntWidth::W64),
        ),
    decreases codes.len(),
{
    let rv = result_rows(ts, schema, idxs, codes);
    if codes.len() == 0 {
        assert(rv =~= Seq::<(bool, Seq<u64>)>::empty());
    } else {
        let cp = codes.drop_last();
        lemma_masked_sum_equivalence(ts, schema, idxs, cp, j);
        let rvp = result_rows(ts, schema, idxs, cp);
        assert(rv.drop_last() =~= rvp);
        assert(rv.last() == row_item(ts, schema, idxs, codes.last()));
        if !sel_of(ts, schema, codes.last()) {
            assert(rv.last().1[j] == 0);
        }
    }
}

} // verus!
