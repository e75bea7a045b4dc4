//! How two operands of a comparison are brought to one word width, and why
//! that is faithful to the values they encode.
//!
//! A comparison runs at the width of the wider operand. A narrower word is
//! extended with zero blocks; when the comparison is signed, each operand is
//! shifted into offset representation at the target width by a plain scalar
//! addition. After alignment, the unsigned order of the aligned words is the
//! integer order of the operands' values.

use vstd::prelude::*;

verus! {

use crate::error::Error;
use crate::values::ColumnType;
use crate::values::PlainValue;
use crate::values::be_value;
use crate::values::code_val;
use crate::values::is_code;
use crate::values::padded_text;
use crate::values::text_bytes_ok;
use crate::values::text_code;
use crate::values::TEXT_BYTES;
use crate::values::lemma_be_value_bound;
use vstd::arithmetic::power2::pow2;
use vstd::arithmetic::power2::lemma2_to64;
use vstd::arithmetic::power2::lemma_pow2_strictly_increases;
use vstd::arithmetic::power2::lemma_pow2_adds;

/// How one comparison is run: the common width in bits, and whether the
/// operands are compared on the signed scale.
#[derive(Clone, Copy, Debug, PartialEq, Eq, Structural)]
pub struct CmpPlan {
    pub bits: u64,
    pub signed: bool,
}

/// The width rule of a comparison, from the operands' declared types and
/// whether each is a literal. `ordered` says the comparison is `<` or `>`.
///
/// - Two unsigned or two signed operands compare at the wider width; a
///   literal wider than the column it is compared against cannot be
///   represented at the column's declared width: `CapacityExceeded`.
/// - An unsigned operand compares against a signed one on the signed scale,
///   which holds it only when the unsigned width is strictly smaller:
///   otherwise `CapacityExceeded`.
/// - Booleans and texts admit only equality tests, among themselves; every
///   other pairing is a `SchemaMismatch`.
pub open spec fn plan_cmp(
    ordered: bool,
    t1: ColumnType,
    lit1: bool,
    t2: ColumnType,
    lit2: bool,
) -> Result<CmpPlan, Error> {
    match (t1, t2) {
        (ColumnType::UnsignedInt(w1), ColumnType::UnsignedInt(w2)) => if (lit1 && !lit2 && w1.bits()
            > w2.bits()) || (lit2 && !lit1 && w2.bits() > w1.bits()) {
            Err(Error::CapacityExceeded)
        } else {
            Ok(
                CmpPlan {
                    bits: if w1.bits() >= w2.bits() {
                        w1.bits() as u64
                    } else {
                        w2.bits() as u64
                    },
                    signed: false,
                },
            )
        },
        (ColumnType::SignedInt(w1), ColumnType::SignedInt(w2)) => if (lit1 && !lit2 && w1.bits()
            > w2.bits()) || (lit2 && !lit1 && w2.bits() > w1.bits()) {
            Err(Error::CapacityExceeded)
        } else {
            Ok(
                CmpPlan {
                    bits: if w1.bits() >= w2.bits() {
                        w1.bits() as u64
                    } else {
                        w2.bits() as u64
                    },
                    signed: true,
                },
            )
        },
        (ColumnType::UnsignedInt(wu), ColumnType::SignedInt(ws)) => if wu.bits() < ws.bits() {
            Ok(CmpPlan { bits: ws.bits() as u64, signed: true })
        } else {
            Err(Error::CapacityExceeded)
        },
        (ColumnType::SignedInt(ws), ColumnType::UnsignedInt(wu)) => if wu.bits() < ws.bits() {
            Ok(CmpPlan { bits: ws.bits() as u64, signed: true })
        } else {
            Err(Error::CapacityExceeded)
        },
        (ColumnType::Boolean, ColumnType::Boolean) => if ordered {
            Err(Error::SchemaMismatch)
        } else {
            Ok(CmpPlan { bits: 8, signed: false })
        },
        (ColumnType::Text, ColumnType::Text) => if ordered {
            Err(Error::SchemaMismatch)
        } else {
            Ok(CmpPlan { bits: 64, signed: false })
        },
        _ => Err(Error::SchemaMismatch),
    }
}

/// The width rule, at run time.
pub fn plan_cmp_exec(ordered: bool, t1: &ColumnType, lit1: bool, t2: &ColumnType, lit2: bool) -> (r:
    Result<CmpPlan, Error>)
    ensures
        r == plan_cmp(ordered, *t1, lit1, *t2, lit2),
{
    match (t1, t2) {
        (ColumnType::UnsignedInt(w1), ColumnType::UnsignedInt(w2)) => if (lit1 && !lit2
            && w1.bits_exec() > w2.bits_exec()) || (lit2 && !lit1 && w2.bits_exec()
            > w1.bits_exec()) {
            Err(Error::CapacityExceeded)
        } else {
            Ok(
                CmpPlan {
                    bits: if w1.bits_exec() >= w2.bits_exec() {
                        w1.bits_exec()
                    } else {
                        w2.bits_exec()
                    },
                    signed: false,
                },
            )
        },
        (ColumnType::SignedInt(w1), ColumnType::SignedInt(w2)) => if (lit1 && !lit2
            && w1.bits_exec() > w2.bits_exec()) || (lit2 && !lit1 && w2.bits_exec()
            > w1.bits_exec()) {
            Err(Error::CapacityExceeded)
        } else {
            Ok(
                CmpPlan {
                    bits: if w1.bits_exec() >= w2.bits_exec() {
                        w1.bits_exec()
                    } else {
                        w2.bits_exec()
                    },
                    signed: true,
                },
            )
        },
        (ColumnType::UnsignedInt(wu), ColumnType::SignedInt(ws)) => if wu.bits_exec()
            < ws.bits_exec() {
            Ok(CmpPlan { bits: ws.bits_exec(), signed: true })
        } else {
            Err(Error::CapacityExceeded)
        },
        (ColumnType::SignedInt(ws), ColumnType::UnsignedInt(wu)) => if wu.bits_exec()
            < ws.bits_exec() {
            Ok(CmpPlan { bits: ws.bits_exec(), signed: true })
        } else {
            Err(Error::CapacityExceeded)
        },
        (ColumnType::Boolean, ColumnType::Boolean) => if ordered {
            Err(Error::SchemaMismatch)
        } else {
            Ok(CmpPlan { bits: 8, signed: false })
        },
        (ColumnType::Text, ColumnType::Text) => if ordered {
            Err(Error::SchemaMismatch)
        } else {
            Ok(CmpPlan { bits: 64, signed: false })
        },
        _ => Err(Error::SchemaMismatch),
    }
}

/// A plan fits one side of a comparison: the side's codes can be aligned to
/// the plan's width and scale.
pub open spec fn plan_side_ok(t: ColumnType, plan: CmpPlan) -> bool {
    match t {
        ColumnType::UnsignedInt(w) => w.bits() <= plan.bits && (plan.signed ==> w.bits()
            < plan.bits),
        ColumnType::SignedInt(w) => plan.signed && w.bits() <= plan.bits,
        ColumnType::Boolean => plan.bits == 8 && !plan.signed,
        ColumnType::Text => plan.bits == 64 && !plan.signed,
    }
}

/// A successful plan fits both sides, and names a width of a whole number of
/// two-bit blocks, at most 64 bits.
pub proof fn lemma_plan_sides(
    ordered: bool,
    t1: ColumnType,
    lit1: bool,
    t2: ColumnType,
    lit2: bool,
)
    ensures
        plan_cmp(ordered, t1, lit1, t2, lit2) matches Ok(plan) ==> plan_side_ok(t1, plan)
            && plan_side_ok(t2, plan) && plan.bits % 2 == 0 && 2 <= plan.bits <= 64,
{
}

/// What is added to a code to align it: the target offset, minus the offset
/// already present in a signed source code.
pub open spec fn align_delta(t: ColumnType, plan: CmpPlan) -> nat {
    match t {
        ColumnType::SignedInt(w) => (pow2((plan.bits - 1) as nat) - pow2(
            (w.bits() - 1) as nat,
        )) as nat,
        _ => if plan.signed {
            pow2((plan.bits - 1) as nat)
        } else {
            0
        },
    }
}

/// A code aligned to a plan's width and scale.
pub open spec fn aligned_code(c: nat, t: ColumnType, plan: CmpPlan) -> nat {
    c + align_delta(t, plan)
}

/// Alignment is a shift of the value scale: the aligned code is the operand's
/// integer value, plus the plan's offset. So aligned codes compare exactly as
/// the values do, and they stay below the plan's width.
pub proof fn lemma_aligned_code(c: nat, t: ColumnType, plan: CmpPlan)
    requires
        is_code(c, t),
        plan_side_ok(t, plan),
    ensures
        aligned_code(c, t, plan) == code_val(c, t) + if plan.signed {
            pow2((plan.bits - 1) as nat)
        } else {
            0
        },
        aligned_code(c, t, plan) < pow2(plan.bits as nat),
{
    lemma_pow2_adds((plan.bits - 1) as nat, 1);
    lemma2_to64();
    match t {
        ColumnType::UnsignedInt(w) => {
            if plan.signed {
                if w.bits() < ((plan.bits - 1) as nat) {
                    lemma_pow2_strictly_increases(w.bits(), (plan.bits - 1) as nat);
                }
            } else {
                if w.bits() < (plan.bits as nat) {
                    lemma_pow2_strictly_increases(w.bits(), plan.bits as nat);
                }
            }
        },
        ColumnType::SignedInt(w) => {
            if ((w.bits() - 1) as nat) < ((plan.bits - 1) as nat) {
                lemma_pow2_strictly_increases((w.bits() - 1) as nat, (plan.bits - 1) as nat);
            }
            lemma_pow2_adds((w.bits() - 1) as nat, 1);
        },
        ColumnType::Boolean => {},
        ColumnType::Text => {
            let s = choose|s: Seq<u8>| text_bytes_ok(s) && c == text_code(s);
            assert(padded_text(s).len() == TEXT_BYTES);
            lemma_be_value_bound(padded_text(s));
        },
    }
}

/// The zero word is a code of every type.
pub proof fn lemma_zero_is_code(t: ColumnType)
    ensures
        is_code(0, t),
{
    lemma2_to64();
    match t {
        ColumnType::Text => {
            let s = Seq::<u8>::empty();
            assert(padded_text(s) =~= Seq::new(TEXT_BYTES as nat, |i: int| 0u8));
            lemma_be_zero(Seq::new(TEXT_BYTES as nat, |i: int| 0u8));
            assert(text_bytes_ok(s) && text_code(s) == 0);
        },
        _ => {},
    }
}

/// The big-endian value of an all-zero sequence is zero.
pub proof fn lemma_be_zero(s: Seq<u8>)
    requires
        forall|i: int| 0 <= i < s.len() ==> s[i] == 0,
    ensures
        be_value(s) == 0,
    decreases s.len(),
{
    if s.len() > 0 {
        lemma_be_zero(s.drop_last());
    }
}

/// Equal-length byte sequences with one big-endian value are equal.
pub proof fn lemma_be_value_injective(a: Seq<u8>, b: Seq<u8>)
    requires
        a.len() == b.len(),
        be_value(a) == be_value(b),
    ensures
        a =~= b,
    decreases a.len(),
{
    if a.len() > 0 {
        let va = be_value(a.drop_last());
        let vb = be_value(b.drop_last());
        assert(va * 256 + a.last() == vb * 256 + b.last());
        assert(a.last() == b.last() && va == vb) by (nonlinear_arith)
            requires
                va * 256 + a.last() == vb * 256 + b.last(),
                a.last() < 256,
                b.last() < 256,
                va >= 0,
                vb >= 0,
        ;
        lemma_be_value_injective(a.drop_last(), b.drop_last());
        assert forall|i: int| 0 <= i < a.len() implies a[i] == b[i] by {
            if i < a.len() - 1 {
                assert(a.drop_last()[i] == b.drop_last()[i]);
            }
        }
    }
}

/// Valid text payloads with one code are equal: the code determines the text.
pub proof fn lemma_text_code_injective(s1: Seq<u8>, s2: Seq<u8>)
    requires
        text_bytes_ok(s1),
        text_bytes_ok(s2),
        text_code(s1) == text_code(s2),
    ensures
        s1 =~= s2,
{
    let p1 = padded_text(s1);
    let p2 = padded_text(s2);
    assert(p1.len() == TEXT_BYTES && p2.len() == TEXT_BYTES);
    lemma_be_value_injective(p1, p2);
    assert(s1.len() == s2.len()) by {
        if s1.len() < s2.len() {
            assert(p1[s1.len() as int] == 0);
            assert(p2[s1.len() as int] == s2[s1.len() as int]);
        } else if s2.len() < s1.len() {
            assert(p2[s2.len() as int] == 0);
            assert(p1[s2.len() as int] == s1[s2.len() as int]);
        }
    }
    assert forall|i: int| 0 <= i < s1.len() implies s1[i] == s2[i] by {
        assert(p1[i] == s1[i] && p2[i] == s2[i]);
    }
}

/// Within one declared type, the word encoding is injective: equal codes
/// mean equal values.
pub proof fn lemma_code_injective(v1: PlainValue, v2: PlainValue, t: ColumnType)
    requires
        crate::values::value_fits(v1, t),
        crate::values::value_fits(v2, t),
        crate::values::code_of(v1, t) == crate::values::code_of(v2, t),
    ensures
        crate::values::value_eq(v1, v2),
{
    match t {
        ColumnType::Text => {
            if let (PlainValue::Text(s1), PlainValue::Text(s2)) = (v1, v2) {
                lemma_text_code_injective(s1@, s2@);
            }
        },
        _ => {},
    }
}

} // verus!
