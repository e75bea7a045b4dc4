//! The Result Decoder: the client-side end of the pipeline. It decrypts the
//! Encrypted Result positionally and reconstructs the answer — the only
//! point where "which rows matched" becomes observable, and only to the
//! holder of the client key.

use vstd::prelude::*;

verus! {

use crate::error::Error;
use crate::eval::EncryptedResult;
use crate::eval::lemma_result_open;
use crate::fhe::ClientKeyHandle;
use crate::values::ColumnType;
use crate::values::PlainValue;
use crate::values::code_of;
use crate::values::code_val;
use crate::values::decode_code_exec;
use crate::values::signed_offset_exec;
use crate::values::value_fits;
use vstd::arithmetic::power2::pow2;
use vstd::arithmetic::power2::lemma2_to64;
use vstd::arithmetic::power2::lemma2_to64_rest;

/// How the decoder interprets the masked words.
#[derive(Clone, Copy, Debug, PartialEq, Eq, Structural)]
pub enum ProjectionKind {
    /// Reconstruct each matching row as typed values.
    Rows,
    /// Sum the masked values of each projected column over the matching
    /// rows.
    Scalar,
}

/// A decoded answer.
#[derive(Debug, PartialEq, Eq)]
pub enum PlainAnswer {
    /// One value row per matching table row, in table order.
    Rows(Vec<Vec<PlainValue>>),
    /// Per projected column, the sum of its values over the matching rows.
    Sums(Vec<i128>),
}

/// The word rows of the matching results, in order.
pub open spec fn selected_words(rv: Seq<(bool, Seq<u64>)>) -> Seq<Seq<u64>>
    decreases rv.len(),
{
    if rv.len() == 0 {
        Seq::empty()
    } else {
        selected_words(rv.drop_last()) + if rv.last().0 {
            seq![rv.last().1]
        } else {
            Seq::empty()
        }
    }
}

/// A decoded row realises a word row: one value per projected column, of the
/// column's type, encoding back to the word.
pub open spec fn row_decodes(vals: Seq<PlainValue>, words: Seq<u64>, proj: Seq<ColumnType>) -> bool {
    &&& vals.len() == proj.len()
    &&& forall|j: int|
        0 <= j < proj.len() ==> value_fits(#[trigger] vals[j], proj[j]) && code_of(
            vals[j],
            proj[j],
        ) == words[j]
}

/// The sum of one projected column's values over the matching rows, each
/// word read on its column's scale.
pub open spec fn col_sum(rv: Seq<(bool, Seq<u64>)>, j: int, ty: ColumnType) -> int
    decreases rv.len(),
{
    if rv.len() == 0 {
        0
    } else {
        col_sum(rv.drop_last(), j, ty) + if rv.last().0 {
            code_val(rv.last().1[j] as nat, ty)
        } else {
            0
        }
    }
}

/// A column sum over `n` rows of 64-bit words stays within `n * 2^64`.
proof fn lemma_col_sum_bound(rv: Seq<(bool, Seq<u64>)>, j: int, ty: ColumnType)
    ensures
        -(rv.len() * pow2(64) as int) <= col_sum(rv, j, ty) <= rv.len() * pow2(64),
    decreases rv.len(),
{
    lemma2_to64();
    lemma2_to64_rest();
    if rv.len() > 0 {
        lemma_col_sum_bound(rv.drop_last(), j, ty);
        assert((rv.len() - 1) * pow2(64) as int + pow2(64) == rv.len() * pow2(64)) by (
        nonlinear_arith);
        assert(-(code_val(rv.last().1[j] as nat, ty)) <= pow2(64) && code_val(
            rv.last().1[j] as nat,
            ty,
        ) <= pow2(64)) by {
            match ty {
                ColumnType::SignedInt(w) => {
                    assert(pow2((w.bits() - 1) as nat) <= pow2(64)) by {
                        if ((w.bits() - 1) as nat) < 64 {
                            vstd::arithmetic::power2::lemma_pow2_strictly_increases(
                                (w.bits() - 1) as nat,
                                64,
                            );
                        }
                    }
                },
                _ => {},
            }
        }
    }
}

/// Decodes the Encrypted Result under the session's client key.
///
/// The tuple width is checked positionally first: a result whose rows do not
/// carry exactly one word per projected column is refused as
/// `DecryptionLengthMismatch` — the one failure the decoder knows. Then every
/// ciphertext is decrypted positionally. Under `Rows`, each row whose
/// selector decrypts to one is reconstructed as typed values and the
/// zero-masked rows are discarded; under `Scalar`, each projected column's
/// values are summed over the matching rows, the zero masking making the sum
/// the sum over matches.
pub fn decode(res: &EncryptedResult, key: &ClientKeyHandle, kind: ProjectionKind) -> (r: Result<
    PlainAnswer,
    Error,
>)
    requires
        res.wf(),
        res.tag() == key.tag(),
        kind matches ProjectionKind::Scalar ==> res.rows_v().len() <= 0x4000000000000000,
    ensures
        r is Err <==> exists|i: int|
            0 <= i < res.rows_v().len() && (#[trigger] res.rows_v()[i]).1.len()
                != res.proj_types().len(),
        r matches Err(e) ==> e == Error::DecryptionLengthMismatch,
        kind matches ProjectionKind::Rows ==> (r matches Ok(a) ==> a matches PlainAnswer::Rows(out)
            && out@.len() == selected_words(res.rows_v()).len() && (forall|i: int|
            0 <= i < out@.len() ==> row_decodes(
                (#[trigger] out@[i])@,
                selected_words(res.rows_v())[i],
                res.proj_types(),
            ))),
        kind matches ProjectionKind::Scalar ==> (r matches Ok(a) ==> a matches PlainAnswer::Sums(
            sums,
        ) && sums@.len() == res.proj_types().len() && (forall|j: int|
            0 <= j < sums@.len() ==> (#[trigger] sums@[j]) as int == col_sum(
                res.rows_v(),
                j,
                res.proj_types()[j],
            ))),
{
    proof {
        lemma_result_open(res);
    }
    let ghost rv = res.rows_v();
    let nproj = res.proj.len();
    // positional width check: one word per projected column in every row
    let mut i: usize = 0;
    while i < res.rows.len()
        invariant
            i <= res.rows@.len(),
            res.wf(),
            rv == res.rows_v(),
            rv.len() == res.rows@.len(),
            nproj == res.proj@.len(),
            nproj == res.proj_types().len(),
            forall|a: int|
                0 <= a < rv.len() ==> (#[trigger] rv[a]) == ((res.rows@[a]).sel.truth(),
                crate::table::row_codes(res.rows@[a].vals@)),
            forall|a: int| 0 <= a < i ==> (#[trigger] rv[a]).1.len() == nproj,
        decreases res.rows@.len() - i,
    {
        if res.rows[i].vals.len() != nproj {
            proof {
                lemma_result_open(res);
                assert(rv[i as int].1.len() != nproj);
            }
            return Err(Error::DecryptionLengthMismatch);
        }
        proof {
            lemma_result_open(res);
            assert(rv[i as int].1.len() == nproj);
        }
        i = i + 1;
    }
    proof {
        assert forall|a: int| 0 <= a < rv.len() implies (#[trigger] res.rows@[a]).vals@.len()
            == nproj by {
            assert(rv[a].1.len() == nproj);
            assert(rv[a].1 == crate::table::row_codes(res.rows@[a].vals@));
        }
    }
    match kind {
        ProjectionKind::Rows => {
            let mut out: Vec<Vec<PlainValue>> = Vec::new();
            let mut i: usize = 0;
            proof {
                assert(rv.take(0) =~= Seq::<(bool, Seq<u64>)>::empty());
            }
            while i < res.rows.len()
                invariant
                    i <= res.rows@.len(),
                    res.wf(),
                    res.tag() == key.tag(),
                    rv == res.rows_v(),
                    rv.len() == res.rows@.len(),
                    nproj == res.proj@.len(),
                    forall|a: int|
                        0 <= a < rv.len() ==> rv[a] == ((#[trigger] res.rows@[a]).sel.truth(),
                        crate::table::row_codes(res.rows@[a].vals@)),
                    forall|a: int|
                        0 <= a < rv.len() ==> (#[trigger] res.rows@[a]).vals@.len() == nproj,
                    out@.len() == selected_words(rv.take(i as int)).len(),
                    forall|a: int|
                        0 <= a < out@.len() ==> row_decodes(
                            (#[trigger] out@[a])@,
                            selected_words(rv.take(i as int))[a],
                            res.proj@,
                        ),
                decreases res.rows@.len() - i,
            {
                proof {
                    lemma_result_open(res);
                    assert(rv.take(i + 1).drop_last() =~= rv.take(i as int));
                    assert(rv.take(i + 1).last() == rv[i as int]);
                    assert((#[trigger] res.rows@[i as int]).sel.tag() == res.tag_g@);
                }
                let row = &res.rows[i];
                let sel = crate::fhe::decrypt_bit(key, &row.sel);
                if sel {
                    let mut vals: Vec<PlainValue> = Vec::new();
                    let mut j: usize = 0;
                    while j < nproj
                        invariant
                            j <= nproj,
                            nproj == res.proj@.len(),
                            res.wf(),
                            res.tag() == key.tag(),
                            0 <= i < res.rows@.len(),
                            row == &res.rows@[i as int],
                            row.vals@.len() == nproj,
                            vals@.len() == j,
                            forall|b: int|
                                0 <= b < j ==> value_fits(#[trigger] vals@[b], res.proj@[b])
                                    && code_of(vals@[b], res.proj@[b]) == row.vals@[b].word(),
                        decreases nproj - j,
                    {
                        proof {
                            lemma_result_open(res);
                            assert((#[trigger] res.rows@[i as int]).vals@.len() == res.proj@.len());
                            assert((#[trigger] res.rows@[i as int].vals@[j as int]).tag()
                                == res.tag_g@);
                        }
                        let w = crate::fhe::decrypt_word(key, &row.vals[j]);
                        let v = decode_code_exec(w, &res.proj[j]);
                        vals.push(v);
                        j = j + 1;
                    }
                    out.push(vals);
                    proof {
                        assert(selected_words(rv.take(i + 1)) =~= selected_words(rv.take(i as int))
                            + seq![rv[i as int].1]);
                        assert forall|a: int| 0 <= a < out@.len() implies row_decodes(
                            (#[trigger] out@[a])@,
                            selected_words(rv.take(i + 1))[a],
                            res.proj@,
                        ) by {
                            if a < out@.len() - 1 {
                                assert(selected_words(rv.take(i + 1))[a] == selected_words(
                                    rv.take(i as int),
                                )[a]);
                            } else {
                                assert(rv[i as int].1 == crate::table::row_codes(
                                    res.rows@[i as int].vals@,
                                ));
                            }
                        }
                    }
                } else {
                    proof {
                        assert(selected_words(rv.take(i + 1)) =~= selected_words(
                            rv.take(i as int),
                        ));
                    }
                }
                i = i + 1;
            }
            proof {
                assert(rv.take(rv.len() as int) =~= rv);
            }
            Ok(PlainAnswer::Rows(out))
        },
        ProjectionKind::Scalar => {
            let mut sums: Vec<i128> = Vec::new();
            let mut j: usize = 0;
            while j < nproj
                invariant
                    j <= nproj,
                    nproj == res.proj@.len(),
                    res.wf(),
                    res.tag() == key.tag(),
                    rv == res.rows_v(),
                    rv.len() == res.rows@.len(),
                    rv.len() <= 0x4000000000000000,
                    forall|a: int|
                        0 <= a < rv.len() ==> rv[a] == ((#[trigger] res.rows@[a]).sel.truth(),
                        crate::table::row_codes(res.rows@[a].vals@)),
                    forall|a: int|
                        0 <= a < rv.len() ==> (#[trigger] res.rows@[a]).vals@.len() == nproj,
                    sums@.len() == j,
                    forall|b: int|
                        0 <= b < j ==> (#[trigger] sums@[b]) as int == col_sum(rv, b, res.proj@[b]),
                decreases nproj - j,
            {
                let ty = res.proj[j];
                let mut acc: i128 = 0;
                let mut i: usize = 0;
                proof {
                    assert(rv.take(0) =~= Seq::<(bool, Seq<u64>)>::empty());
                    lemma2_to64();
                    lemma2_to64_rest();
                }
                while i < res.rows.len()
                    invariant
                        i <= res.rows@.len(),
                        nproj == res.proj@.len(),
                        0 <= j < nproj,
                        ty == res.proj@[j as int],
                        res.wf(),
                        res.tag() == key.tag(),
                        rv == res.rows_v(),
                        rv.len() == res.rows@.len(),
                        rv.len() <= 0x4000000000000000,
                        forall|a: int|
                            0 <= a < rv.len() ==> rv[a] == ((#[trigger] res.rows@[a]).sel.truth(),
                            crate::table::row_codes(res.rows@[a].vals@)),
                        forall|a: int|
                            0 <= a < rv.len() ==> (#[trigger] res.rows@[a]).vals@.len() == nproj,
                        acc as int == col_sum(rv.take(i as int), j as int, ty),
                    decreases res.rows@.len() - i,
                {
                    proof {
                        lemma_result_open(res);
                        assert(rv.take(i + 1).drop_last() =~= rv.take(i as int));
                        assert(rv.take(i + 1).last() == rv[i as int]);
                        assert((#[trigger] res.rows@[i as int]).sel.tag() == res.tag_g@);
                        assert((#[trigger] res.rows@[i as int]).vals@.len() == res.proj@.len());
                        assert((#[trigger] res.rows@[i as int].vals@[j as int]).tag()
                            == res.tag_g@);
                        lemma_col_sum_bound(rv.take(i as int), j as int, ty);
                        lemma_col_sum_bound(rv.take(i + 1), j as int, ty);
                        assert(rv.take(i as int).len() * pow2(64) as int <= 0x4000000000000000
                            * pow2(64) as int) by (nonlinear_arith)
                            requires
                                rv.take(i as int).len() <= 0x4000000000000000,
                        ;
                        assert(rv.take(i + 1).len() * pow2(64) as int <= 0x4000000000000000 * pow2(
                            64,
                        ) as int) by (nonlinear_arith)
                            requires
                                rv.take(i + 1).len() <= 0x4000000000000000,
                        ;
                        lemma2_to64();
                        lemma2_to64_rest();
                    }
                    let row = &res.rows[i];
                    let sel = crate::fhe::decrypt_bit(key, &row.sel);
                    if sel {
                        let w = crate::fhe::decrypt_word(key, &row.vals[j]);
                        let addend: i128 = match &ty {
                            ColumnType::SignedInt(wd) => {
                                let off = signed_offset_exec(wd);
                                (w as i128) - (off as i128)
                            },
                            _ => w as i128,
                        };
                        proof {
                            assert(addend as int == code_val(
                                rv[i as int].1[j as int] as nat,
                                ty,
                            ));
                        }
                        acc = acc + addend;
                    }
                    i = i + 1;
                }
                proof {
                    assert(rv.take(rv.len() as int) =~= rv);
                }
                sums.push(acc);
                j = j + 1;
            }
            Ok(PlainAnswer::Sums(sums))
        },
    }
}

} // verus!
