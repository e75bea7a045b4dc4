//! The typed plaintext data model, and the fixed word encoding that every
//! value is encrypted under.
//!
//! Every value of a column is carried through the pipeline as a single
//! unsigned word, its *code*:
//! - an unsigned integer of width `w` is its own code;
//! - a signed integer of width `w` is offset by `2^(w-1)`, so that the
//!   unsigned order of codes is the signed order of values;
//! - a boolean is `0` or `1`;
//! - a text value is at most eight non-zero bytes, packed big-endian into a
//!   64-bit word and padded with zero bytes, so that equal codes mean equal
//!   texts.

use vstd::prelude::*;

verus! {

use vstd::arithmetic::power2::pow2;
use vstd::arithmetic::power2::lemma2_to64;
use vstd::arithmetic::power2::lemma_pow2_adds;

/// How many bytes a text value may hold.
pub const TEXT_BYTES: usize = 8;

/// Bit width of an integer column.
#[derive(Clone, Copy, Debug, PartialEq, Eq, Structural)]
pub enum IntWidth {
    W8,
    W16,
    W32,
    W64,
}

impl IntWidth {
    /// The width in bits.
    pub open spec fn bits(self) -> nat {
        match self {
            IntWidth::W8 => 8,
            IntWidth::W16 => 16,
            IntWidth::W32 => 32,
            IntWidth::W64 => 64,
        }
    }

    /// The width in bits, at run time.
    pub fn bits_exec(&self) -> (b: u64)
        ensures
            b == self.bits(),
    {
        match self {
            IntWidth::W8 => 8,
            IntWidth::W16 => 16,
            IntWidth::W32 => 32,
            IntWidth::W64 => 64,
        }
    }
}

/// The declared type of a column: it determines the word encoding used for
/// the column's values.
#[derive(Clone, Copy, Debug, PartialEq, Eq, Structural)]
pub enum ColumnType {
    SignedInt(IntWidth),
    UnsignedInt(IntWidth),
    Boolean,
    Text,
}

impl ColumnType {
    /// Width in bits of the word that carries a value of this type.
    pub open spec fn width(self) -> nat {
        match self {
            ColumnType::SignedInt(w) => w.bits(),
            ColumnType::UnsignedInt(w) => w.bits(),
            ColumnType::Boolean => 8,
            ColumnType::Text => 64,
        }
    }

    /// Width in bits, at run time.
    pub fn width_exec(&self) -> (b: u64)
        ensures
            b == self.width(),
    {
        match self {
            ColumnType::SignedInt(w) => w.bits_exec(),
            ColumnType::UnsignedInt(w) => w.bits_exec(),
            ColumnType::Boolean => 8,
            ColumnType::Text => 64,
        }
    }
}

/// A plaintext value, as the client sees it.
#[derive(Clone, Debug, PartialEq, Eq)]
pub enum PlainValue {
    Uint(u64),
    Int(i64),
    Bool(bool),
    Text(Vec<u8>),
}

/// Spec equality of plaintext values (text compared by content).
pub open spec fn value_eq(a: PlainValue, b: PlainValue) -> bool {
    match (a, b) {
        (PlainValue::Uint(_), PlainValue::Uint(_)) => value_int(a) == value_int(b),
        (PlainValue::Uint(_), PlainValue::Int(_)) => value_int(a) == value_int(b),
        (PlainValue::Int(_), PlainValue::Uint(_)) => value_int(a) == value_int(b),
        (PlainValue::Int(_), PlainValue::Int(_)) => value_int(a) == value_int(b),
        (PlainValue::Bool(x), PlainValue::Bool(y)) => x == y,
        (PlainValue::Text(x), PlainValue::Text(y)) => x@ == y@,
        _ => false,
    }
}

/// A valid text payload: at most eight bytes, none of them zero.
pub open spec fn text_bytes_ok(s: Seq<u8>) -> bool {
    &&& s.len() <= TEXT_BYTES
    &&& forall|i: int| 0 <= i < s.len() ==> s[i] != 0
}

/// The big-endian base-256 value of a byte sequence.
pub open spec fn be_value(s: Seq<u8>) -> nat
    decreases s.len(),
{
    if s.len() == 0 {
        0
    } else {
        be_value(s.drop_last()) * 256 + s.last() as nat
    }
}

/// A text payload padded with zero bytes up to the fixed word length.
pub open spec fn padded_text(s: Seq<u8>) -> Seq<u8>
    recommends
        s.len() <= TEXT_BYTES,
{
    s + Seq::new((TEXT_BYTES - s.len()) as nat, |i: int| 0u8)
}

/// The 64-bit code of a text payload.
pub open spec fn text_code(s: Seq<u8>) -> nat {
    be_value(padded_text(s))
}

/// Does a plaintext value fit the declared type?
pub open spec fn value_fits(v: PlainValue, t: ColumnType) -> bool {
    match (v, t) {
        (PlainValue::Uint(x), ColumnType::UnsignedInt(w)) => (x as nat) < pow2(w.bits()),
        (PlainValue::Int(x), ColumnType::SignedInt(w)) => -(pow2((w.bits() - 1) as nat) as int)
            <= x < pow2((w.bits() - 1) as nat) as int,
        (PlainValue::Bool(_), ColumnType::Boolean) => true,
        (PlainValue::Text(s), ColumnType::Text) => text_bytes_ok(s@),
        _ => false,
    }
}

/// The word code of a value under its declared type.
pub open spec fn code_of(v: PlainValue, t: ColumnType) -> nat {
    match (v, t) {
        (PlainValue::Int(x), ColumnType::SignedInt(w)) => (x + pow2((w.bits() - 1) as nat)) as nat,
        (PlainValue::Uint(x), _) => x as nat,
        (PlainValue::Bool(b), _) => if b {
            1
        } else {
            0
        },
        (PlainValue::Text(s), _) => text_code(s@),
        _ => 0,
    }
}

/// Is `c` the code of some value of type `t`? The zero word is a code of
/// every type, so a masked-out word is always decodable.
pub open spec fn is_code(c: nat, t: ColumnType) -> bool {
    match t {
        ColumnType::UnsignedInt(w) => c < pow2(w.bits()),
        ColumnType::SignedInt(w) => c < pow2(w.bits()),
        ColumnType::Boolean => c <= 1,
        ColumnType::Text => exists|s: Seq<u8>| text_bytes_ok(s) && c == text_code(s),
    }
}

/// The numeric value a code stands for, on the signed or unsigned scale.
pub open spec fn code_val(c: nat, t: ColumnType) -> int {
    match t {
        ColumnType::SignedInt(w) => c - pow2((w.bits() - 1) as nat),
        _ => c as int,
    }
}

/// The integer a numeric plaintext value denotes.
pub open spec fn value_int(v: PlainValue) -> int {
    match v {
        PlainValue::Uint(x) => x as int,
        PlainValue::Int(x) => x as int,
        PlainValue::Bool(b) => if b {
            1
        } else {
            0
        },
        PlainValue::Text(_) => 0,
    }
}

/// `be_value` of a sequence is below `2^(8 len)`.
pub proof fn lemma_be_value_bound(s: Seq<u8>)
    ensures
        be_value(s) < pow2(8 * s.len()),
    decreases s.len(),
{
    if s.len() == 0 {
        lemma2_to64();
    } else {
        lemma_be_value_bound(s.drop_last());
        lemma_pow2_adds(8 * (s.len() - 1) as nat, 8);
        lemma2_to64();
        assert(be_value(s.drop_last()) * 256 + s.last() < pow2(8 * (s.len() - 1) as nat) * 256) by {
            assert(be_value(s.drop_last()) + 1 <= pow2(8 * (s.len() - 1) as nat));
            assert((be_value(s.drop_last()) + 1) * 256 <= pow2(8 * (s.len() - 1) as nat) * 256)
                by (nonlinear_arith)
                requires
                    be_value(s.drop_last()) + 1 <= pow2(8 * (s.len() - 1) as nat),
            ;
            assert(be_value(s.drop_last()) * 256 + 256 == (be_value(s.drop_last()) + 1) * 256)
                by (nonlinear_arith);
        }
    }
}

/// The code of a value in range fits the type's word width.
pub proof fn lemma_code_in_range(v: PlainValue, t: ColumnType)
    requires
        value_fits(v, t),
    ensures
        is_code(code_of(v, t), t),
        code_of(v, t) < pow2(t.width()),
    decreases t,
{
    match (v, t) {
        (PlainValue::Int(x), ColumnType::SignedInt(w)) => {
            lemma_pow2_adds((w.bits() - 1) as nat, 1);
            lemma2_to64();
        },
        (PlainValue::Bool(_), ColumnType::Boolean) => {
            lemma2_to64();
        },
        (PlainValue::Text(s), ColumnType::Text) => {
            assert(padded_text(s@).len() == TEXT_BYTES);
            lemma_be_value_bound(padded_text(s@));
            assert(text_bytes_ok(s@) && text_code(s@) == code_of(v, t));
        },
        _ => {},
    }
}

/// One step of big-endian packing: the value of a prefix one byte longer.
pub proof fn lemma_be_take_step(s: Seq<u8>, i: int)
    requires
        0 <= i < s.len(),
    ensures
        be_value(s.take(i + 1)) == be_value(s.take(i)) * 256 + s[i],
{
    assert(s.take(i + 1).drop_last() =~= s.take(i));
    assert(s.take(i + 1).last() == s[i]);
}

/// The signed offset of a width: `2^(w-1)`, as a run-time word.
pub fn signed_offset_exec(w: &IntWidth) -> (r: u64)
    ensures
        r == pow2((w.bits() - 1) as nat),
{
    proof {
        lemma2_to64();
        vstd::arithmetic::power2::lemma2_to64_rest();
    }
    match w {
        IntWidth::W8 => 0x80,
        IntWidth::W16 => 0x8000,
        IntWidth::W32 => 0x80000000,
        IntWidth::W64 => 0x8000000000000000,
    }
}

/// The word code of a value that fits a declared type.
pub fn encode_value_exec(v: &PlainValue, t: &ColumnType) -> (r: u64)
    requires
        value_fits(*v, *t),
    ensures
        r as nat == code_of(*v, *t),
{
    proof {
        lemma2_to64();
        vstd::arithmetic::power2::lemma2_to64_rest();
    }
    match (v, t) {
        (PlainValue::Uint(x), ColumnType::UnsignedInt(_)) => *x,
        (PlainValue::Int(x), ColumnType::SignedInt(w)) => {
            let off = signed_offset_exec(w);
            let wide: i128 = (*x as i128) + (off as i128);
            proof {
                lemma_pow2_adds((w.bits() - 1) as nat, 1);
            }
            wide as u64
        },
        (PlainValue::Bool(b), ColumnType::Boolean) => if *b {
            1
        } else {
            0
        },
        (PlainValue::Text(s), ColumnType::Text) => {
            let ghost padded = padded_text(s@);
            let mut c: u64 = 0;
            let mut i: usize = 0;
            proof {
                assert(padded.take(0) =~= Seq::<u8>::empty());
            }
            while i < TEXT_BYTES
                invariant
                    i <= TEXT_BYTES,
                    s@.len() <= TEXT_BYTES,
                    padded == padded_text(s@),
                    padded.len() == TEXT_BYTES,
                    c as nat == be_value(padded.take(i as int)),
                    (c as nat) < pow2(8 * i as nat),
                decreases TEXT_BYTES - i,
            {
                let b: u8 = if i < s.len() {
                    s[i]
                } else {
                    0
                };
                proof {
                    assert(padded[i as int] == b);
                    lemma_be_take_step(padded, i as int);
                    lemma_pow2_adds(8 * i as nat, 8);
                    lemma2_to64();
                    vstd::arithmetic::power2::lemma2_to64_rest();
                    assert((8 * i) as nat <= 56) by (nonlinear_arith)
                        requires
                            i <= 7,
                    ;
                    if ((8 * i as nat) as nat) < 56 {
                        vstd::arithmetic::power2::lemma_pow2_strictly_increases(8 * i as nat, 56);
                    }
                    assert((c as nat) * 256 + 256 <= pow2(8 * i as nat) * 256) by (nonlinear_arith)
                        requires
                            (c as nat) < pow2(8 * i as nat),
                    ;
                }
                c = c * 256 + (b as u64);
                i = i + 1;
            }
            proof {
                assert(padded.take(TEXT_BYTES as int) =~= padded);
            }
            c
        },
        _ => 0,
    }
}

/// The value a word decodes to under a declared type. The decoded value fits
/// the type and encodes back to the same word.
pub fn decode_code_exec(c: u64, t: &ColumnType) -> (v: PlainValue)
    requires
        is_code(c as nat, *t),
    ensures
        value_fits(v, *t),
        code_of(v, *t) == c as nat,
{
    proof {
        lemma2_to64();
        vstd::arithmetic::power2::lemma2_to64_rest();
    }
    match t {
        ColumnType::UnsignedInt(_) => PlainValue::Uint(c),
        ColumnType::SignedInt(w) => {
            let off = signed_offset_exec(w);
            let wide: i128 = (c as i128) - (off as i128);
            proof {
                lemma_pow2_adds((w.bits() - 1) as nat, 1);
            }
            PlainValue::Int(wide as i64)
        },
        ColumnType::Boolean => PlainValue::Bool(c == 1),
        ColumnType::Text => {
            let ghost s0 = choose|s: Seq<u8>| text_bytes_ok(s) && c as nat == text_code(s);
            let ghost padded = padded_text(s0);
            proof {
                assert(padded.len() == TEXT_BYTES);
                assert(padded.take(TEXT_BYTES as int) =~= padded);
            }
            // Peel bytes off the low end: after the loop, `rev` holds the
            // padded bytes in reverse order.
            let mut rem: u64 = c;
            let mut rev: Vec<u8> = Vec::new();
            let mut i: usize = 0;
            while i < TEXT_BYTES
                invariant
                    i <= TEXT_BYTES,
                    padded == padded_text(s0),
                    padded.len() == TEXT_BYTES,
                    rev@.len() == i,
                    rem as nat == be_value(padded.take((TEXT_BYTES - i) as int)),
                    forall|j: int| 0 <= j < i ==> rev@[j] == padded[TEXT_BYTES - 1 - j],
                decreases TEXT_BYTES - i,
            {
                let b: u8 = (rem % 256) as u8;
                proof {
                    lemma_be_take_step(padded, (TEXT_BYTES - i - 1) as int);
                    vstd::arithmetic::div_mod::lemma_fundamental_div_mod_converse(
                        rem as int,
                        256,
                        be_value(padded.take((TEXT_BYTES - i - 1) as int)) as int,
                        padded[(TEXT_BYTES - i - 1) as int] as int,
                    );
                    lemma_be_value_bound(padded.take((TEXT_BYTES - i - 1) as int));
                    lemma_pow2_adds(8 * (TEXT_BYTES - i - 1) as nat, 8);
                }
                rem = rem / 256;
                rev.push(b);
                i = i + 1;
            }
            // Rebuild in order, then strip the zero padding.
            let mut out: Vec<u8> = Vec::new();
            let mut j: usize = 0;
            while j < TEXT_BYTES
                invariant
                    j <= TEXT_BYTES,
                    padded.len() == TEXT_BYTES,
                    rev@.len() == TEXT_BYTES,
                    forall|k: int| 0 <= k < TEXT_BYTES ==> rev@[k] == padded[TEXT_BYTES - 1 - k],
                    out@.len() == j,
                    forall|k: int| 0 <= k < j ==> out@[k] == padded[k],
                decreases TEXT_BYTES - j,
            {
                out.push(rev[TEXT_BYTES - 1 - j]);
                j = j + 1;
            }
            proof {
                assert(out@ =~= padded);
            }
            let mut k: usize = TEXT_BYTES;
            while k > 0 && out[k - 1] == 0
                invariant
                    k <= TEXT_BYTES,
                    out@ == padded,
                    padded.len() == TEXT_BYTES,
                    forall|m: int| k <= m < TEXT_BYTES ==> padded[m] == 0,
                decreases k,
            {
                k = k - 1;
            }
            proof {
                assert(s0.len() <= TEXT_BYTES);
                assert forall|m: int| s0.len() <= m < TEXT_BYTES implies padded[m] == 0 by {}
                if k < s0.len() {
                    assert(padded[k as int] == s0[k as int]);
                    assert(s0[k as int] != 0);
                    assert(false);
                }
                if k > s0.len() {
                    assert(padded[k - 1] == 0);
                    assert(k - 1 >= s0.len());
                    assert(padded[k - 1] == s0[k - 1] || padded[k - 1] == 0);
                    assert(out@[k - 1] != 0 || k == 0);
                    assert(false);
                }
                assert(k == s0.len());
            }
            let mut res: Vec<u8> = Vec::new();
            let mut m: usize = 0;
            while m < k
                invariant
                    m <= k,
                    k <= TEXT_BYTES,
                    k as nat == s0.len(),
                    padded == padded_text(s0),
                    out@ == padded,
                    padded.len() == TEXT_BYTES,
                    res@.len() == m,
                    forall|n: int| 0 <= n < m ==> res@[n] == padded[n],
                decreases k - m,
            {
                res.push(out[m]);
                m = m + 1;
            }
            proof {
                assert forall|n: int| 0 <= n < s0.len() implies res@[n] == s0[n] by {
                    assert(padded[n] == s0[n]);
                }
                assert(res@ =~= s0);
            }
            PlainValue::Text(res)
        },
    }
}

/// Does a value fit a declared type, at run time?
pub fn value_fits_exec(v: &PlainValue, t: &ColumnType) -> (r: bool)
    ensures
        r == value_fits(*v, *t),
{
    proof {
        lemma2_to64();
        vstd::arithmetic::power2::lemma2_to64_rest();
    }
    match (v, t) {
        (PlainValue::Uint(x), ColumnType::UnsignedInt(w)) => match w {
            IntWidth::W8 => *x < 0x100,
            IntWidth::W16 => *x < 0x10000,
            IntWidth::W32 => *x < 0x100000000,
            IntWidth::W64 => true,
        },
        (PlainValue::Int(x), ColumnType::SignedInt(w)) => match w {
            IntWidth::W8 => -0x80 <= *x && *x < 0x80,
            IntWidth::W16 => -0x8000 <= *x && *x < 0x8000,
            IntWidth::W32 => -0x80000000 <= *x && *x < 0x80000000,
            IntWidth::W64 => true,
        },
        (PlainValue::Bool(_), ColumnType::Boolean) => true,
        (PlainValue::Text(s), ColumnType::Text) => {
            if s.len() > TEXT_BYTES {
                return false;
            }
            let mut i: usize = 0;
            while i < s.len()
                invariant
                    i <= s@.len(),
                    s@.len() <= TEXT_BYTES,
                    *v == PlainValue::Text(*s),
                    *t == ColumnType::Text,
                    forall|j: int| 0 <= j < i ==> s@[j] != 0,
                decreases s@.len() - i,
            {
                if s[i] == 0 {
                    return false;
                }
                i = i + 1;
            }
            true
        },
        _ => false,
    }
}

} // verus!
