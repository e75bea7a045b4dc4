//! The ciphertext layer: thin trusted wrappers around the homomorphic
//! operations of tfhe's `integer` API.
//!
//! A word is encrypted as a radix ciphertext of two-bit blocks, so a word of
//! `w` bits takes `w / 2` blocks. Every capacity stated here counts on that
//! block shape, so `open_session` — the only door to a key handle — refuses
//! any key whose parameters do not give a message modulus of four with a
//! carry modulus of four (the shape of tfhe's standard two-bit parameter
//! sets). Each wrapped ciphertext carries, as ghost state, the word it
//! decrypts to, its block count, and a *session* tag. The tag names the key
//! pair the ciphertext was made under: a session's client key and server key
//! get equal tags when the pair is opened, and every operation requires and
//! preserves the tag, so verified code can never mix ciphertexts or keys of
//! different sessions.

use vstd::prelude::*;

verus! {

use vstd::arithmetic::power2::pow2;

#[verifier::external_type_specification]
#[verifier::external_body]
pub struct ExClientKey(tfhe::integer::ClientKey);

#[verifier::external_type_specification]
#[verifier::external_body]
pub struct ExServerKey(tfhe::integer::ServerKey);

#[verifier::external_type_specification]
#[verifier::external_body]
pub struct ExShortintCiphertext(tfhe::shortint::Ciphertext);

#[verifier::external_type_specification]
#[verifier::external_body]
#[verifier::reject_recursive_types(Block)]
pub struct ExBaseRadixCiphertext<Block>(tfhe::integer::ciphertext::BaseRadixCiphertext<Block>);

#[verifier::external_type_specification]
#[verifier::external_body]
pub struct ExBooleanBlock(tfhe::integer::BooleanBlock);

/// The client's private key. Only the encoder and the decoder hold one; the
/// evaluator is never given it.
pub struct ClientKeyHandle {
    key: tfhe::integer::ClientKey,
    session: Ghost<int>,
}

impl ClientKeyHandle {
    /// The session tag of the key pair this key belongs to.
    pub closed spec fn tag(self) -> int {
        self.session@
    }
}

/// The public evaluation key of a session: all the server ever holds.
pub struct ServerKeyHandle {
    key: tfhe::integer::ServerKey,
    session: Ghost<int>,
}

impl ServerKeyHandle {
    /// The session tag of the key pair this key belongs to.
    pub closed spec fn tag(self) -> int {
        self.session@
    }
}

/// One encrypted word.
pub struct CtWord {
    ct: tfhe::integer::RadixCiphertext,
    code: Ghost<u64>,
    blocks: Ghost<nat>,
    session: Ghost<int>,
}

impl CtWord {
    /// The word this ciphertext decrypts to under its session's client key.
    pub closed spec fn word(self) -> u64 {
        self.code@
    }

    /// How many two-bit blocks the ciphertext has.
    pub closed spec fn nblocks(self) -> nat {
        self.blocks@
    }

    /// The session tag of the key pair this ciphertext was made under.
    pub closed spec fn tag(self) -> int {
        self.session@
    }

    /// The carried word fits the ciphertext's block capacity.
    pub open spec fn wf(self) -> bool {
        (self.word() as nat) < pow2(2 * self.nblocks())
    }
}

/// One encrypted boolean.
pub struct CtBit {
    ct: tfhe::integer::BooleanBlock,
    val: Ghost<bool>,
    session: Ghost<int>,
}

impl CtBit {
    /// The boolean this ciphertext decrypts to under its session's client key.
    pub closed spec fn truth(self) -> bool {
        self.val@
    }

    /// The session tag of the key pair this ciphertext was made under.
    pub closed spec fn tag(self) -> int {
        self.session@
    }
}

/// Opens a key session, or refuses the key. Relies on tfhe's integer
/// `ClientKey::into_raw_parts`/`from_raw_parts` and the total
/// `ShortintParameterSet` accessors to read the key's parameters, and on
/// `ServerKey::new_radix_server_key`: the returned server key is the
/// evaluation key derived from `key`, so operations under it are correct on
/// ciphertexts made under `key`. The two handles share one session tag.
///
/// A key is accepted only when its parameters carry a programmable bootstrap
/// with a message modulus of four and a carry modulus of four: two-bit
/// blocks with two carry bits, the shape of tfhe's standard parameter sets.
/// Every handle in this module comes through here, so the block capacities
/// the other contracts state (`4^blocks` words) and the comparison circuits'
/// own parameter demands hold of every session the library can create.
#[verifier::external_body]
pub fn open_session(key: tfhe::integer::ClientKey) -> (r: Option<
    (ClientKeyHandle, ServerKeyHandle),
>)
    ensures
        r matches Some(pair) ==> pair.0.tag() == pair.1.tag(),
{
    let raw = key.into_raw_parts();
    if raw.parameters.pbs_parameters().is_none() {
        return None;
    }
    if raw.parameters.message_modulus().0 != 4 || raw.parameters.carry_modulus().0 != 4 {
        return None;
    }
    let key = tfhe::integer::ClientKey::from_raw_parts(raw);
    let server = tfhe::integer::ServerKey::new_radix_server_key(&key);
    Some(
        (
            ClientKeyHandle { key, session: Ghost(arbitrary()) },
            ServerKeyHandle { key: server, session: Ghost(arbitrary()) },
        ),
    )
}

/// Relies on tfhe's integer `ClientKey::encrypt_radix`: the fresh ciphertext
/// decrypts to `code` under this key, in `blocks` blocks. A session key's
/// blocks hold two bits each (`open_session`), so `blocks` blocks hold
/// `4^blocks` words.
#[verifier::external_body]
pub(crate) fn encrypt_word(key: &ClientKeyHandle, code: u64, blocks: usize) -> (c: CtWord)
    requires
        (code as nat) < pow2(2 * blocks as nat),
    ensures
        c.word() == code,
        c.nblocks() == blocks as nat,
        c.tag() == key.tag(),
{
    CtWord {
        ct: key.key.encrypt_radix(code, blocks),
        code: Ghost(arbitrary()),
        blocks: Ghost(arbitrary()),
        session: Ghost(arbitrary()),
    }
}

/// Relies on tfhe's integer `ClientKey::decrypt_radix`: decryption under the
/// session's client key returns the word the ciphertext carries.
#[verifier::external_body]
pub(crate) fn decrypt_word(key: &ClientKeyHandle, c: &CtWord) -> (r: u64)
    requires
        c.tag() == key.tag(),
        c.wf(),
    ensures
        r == c.word(),
{
    key.key.decrypt_radix(&c.ct)
}

/// Relies on tfhe's integer `ClientKey::decrypt_bool`: decryption under the
/// session's client key returns the boolean the ciphertext carries.
#[verifier::external_body]
pub(crate) fn decrypt_bit(key: &ClientKeyHandle, c: &CtBit) -> (r: bool)
    requires
        c.tag() == key.tag(),
    ensures
        r == c.truth(),
{
    key.key.decrypt_bool(&c.ct)
}

/// Relies on tfhe's integer `ServerKey::create_trivial_radix`: a trivial
/// ciphertext of `code`, readable under any client key. A session key's
/// blocks hold two bits each (`open_session`), so `blocks` blocks hold
/// `4^blocks` words.
#[verifier::external_body]
pub(crate) fn trivial_word(key: &ServerKeyHandle, code: u64, blocks: usize) -> (c: CtWord)
    requires
        (code as nat) < pow2(2 * blocks as nat),
    ensures
        c.word() == code,
        c.nblocks() == blocks as nat,
        c.tag() == key.tag(),
{
    CtWord {
        ct: key.key.create_trivial_radix(code, blocks),
        code: Ghost(arbitrary()),
        blocks: Ghost(arbitrary()),
        session: Ghost(arbitrary()),
    }
}

/// Relies on tfhe's integer `ServerKey::create_trivial_boolean_block`: a
/// trivial ciphertext of `val`, readable under any client key.
#[verifier::external_body]
pub(crate) fn trivial_bit(key: &ServerKeyHandle, val: bool) -> (c: CtBit)
    ensures
        c.truth() == val,
        c.tag() == key.tag(),
{
    CtBit {
        ct: key.key.create_trivial_boolean_block(val),
        val: Ghost(arbitrary()),
        session: Ghost(arbitrary()),
    }
}

/// Relies on `RadixCiphertext::clone`: the copy carries the same word.
#[verifier::external_body]
pub(crate) fn duplicate_word(c: &CtWord) -> (r: CtWord)
    ensures
        r.word() == c.word(),
        r.nblocks() == c.nblocks(),
        r.tag() == c.tag(),
{
    CtWord {
        ct: c.ct.clone(),
        code: Ghost(arbitrary()),
        blocks: Ghost(arbitrary()),
        session: Ghost(arbitrary()),
    }
}

/// Relies on tfhe's integer `ServerKey::eq_parallelized`: the encrypted test
/// of equality of two words of equal width.
#[verifier::external_body]
pub(crate) fn ct_eq(key: &ServerKeyHandle, a: &CtWord, b: &CtWord) -> (r: CtBit)
    requires
        a.tag() == key.tag(),
        b.tag() == key.tag(),
        a.nblocks() == b.nblocks(),
    ensures
        r.truth() == (a.word() == b.word()),
        r.tag() == key.tag(),
{
    CtBit {
        ct: key.key.eq_parallelized(&a.ct, &b.ct),
        val: Ghost(arbitrary()),
        session: Ghost(arbitrary()),
    }
}

/// Relies on tfhe's integer `ServerKey::ne_parallelized`.
#[verifier::external_body]
pub(crate) fn ct_ne(key: &ServerKeyHandle, a: &CtWord, b: &CtWord) -> (r: CtBit)
    requires
        a.tag() == key.tag(),
        b.tag() == key.tag(),
        a.nblocks() == b.nblocks(),
    ensures
        r.truth() == (a.word() != b.word()),
        r.tag() == key.tag(),
{
    CtBit {
        ct: key.key.ne_parallelized(&a.ct, &b.ct),
        val: Ghost(arbitrary()),
        session: Ghost(arbitrary()),
    }
}

/// Relies on tfhe's integer `ServerKey::lt_parallelized`: the encrypted
/// unsigned order test of two words of equal, non-zero width. The order
/// circuit reads the first block and demands at least sixteen message-carry
/// levels per block — a session key has exactly sixteen (`open_session`).
#[verifier::external_body]
pub(crate) fn ct_lt(key: &ServerKeyHandle, a: &CtWord, b: &CtWord) -> (r: CtBit)
    requires
        a.tag() == key.tag(),
        b.tag() == key.tag(),
        a.nblocks() == b.nblocks(),
        a.nblocks() > 0,
    ensures
        r.truth() == (a.word() < b.word()),
        r.tag() == key.tag(),
{
    CtBit {
        ct: key.key.lt_parallelized(&a.ct, &b.ct),
        val: Ghost(arbitrary()),
        session: Ghost(arbitrary()),
    }
}

/// Relies on tfhe's integer `ServerKey::gt_parallelized`, under the same
/// width and parameter grounds as the order test above.
#[verifier::external_body]
pub(crate) fn ct_gt(key: &ServerKeyHandle, a: &CtWord, b: &CtWord) -> (r: CtBit)
    requires
        a.tag() == key.tag(),
        b.tag() == key.tag(),
        a.nblocks() == b.nblocks(),
        a.nblocks() > 0,
    ensures
        r.truth() == (a.word() > b.word()),
        r.tag() == key.tag(),
{
    CtBit {
        ct: key.key.gt_parallelized(&a.ct, &b.ct),
        val: Ghost(arbitrary()),
        session: Ghost(arbitrary()),
    }
}

/// Relies on tfhe's integer `ServerKey::boolean_bitand`.
#[verifier::external_body]
pub(crate) fn ct_and(key: &ServerKeyHandle, a: &CtBit, b: &CtBit) -> (r: CtBit)
    requires
        a.tag() == key.tag(),
        b.tag() == key.tag(),
    ensures
        r.truth() == (a.truth() && b.truth()),
        r.tag() == key.tag(),
{
    CtBit {
        ct: key.key.boolean_bitand(&a.ct, &b.ct),
        val: Ghost(arbitrary()),
        session: Ghost(arbitrary()),
    }
}

/// Relies on tfhe's integer `ServerKey::boolean_bitor`.
#[verifier::external_body]
pub(crate) fn ct_or(key: &ServerKeyHandle, a: &CtBit, b: &CtBit) -> (r: CtBit)
    requires
        a.tag() == key.tag(),
        b.tag() == key.tag(),
    ensures
        r.truth() == (a.truth() || b.truth()),
        r.tag() == key.tag(),
{
    CtBit {
        ct: key.key.boolean_bitor(&a.ct, &b.ct),
        val: Ghost(arbitrary()),
        session: Ghost(arbitrary()),
    }
}

/// Relies on tfhe's integer `ServerKey::boolean_bitnot`.
#[verifier::external_body]
pub(crate) fn ct_not(key: &ServerKeyHandle, a: &CtBit) -> (r: CtBit)
    requires
        a.tag() == key.tag(),
    ensures
        r.truth() == !a.truth(),
        r.tag() == key.tag(),
{
    CtBit {
        ct: key.key.boolean_bitnot(&a.ct),
        val: Ghost(arbitrary()),
        session: Ghost(arbitrary()),
    }
}

/// Relies on tfhe's integer `ServerKey::if_then_else_parallelized`: the
/// encrypted select between two words of equal width.
#[verifier::external_body]
pub(crate) fn ct_select(key: &ServerKeyHandle, c: &CtBit, a: &CtWord, b: &CtWord) -> (r: CtWord)
    requires
        c.tag() == key.tag(),
        a.tag() == key.tag(),
        b.tag() == key.tag(),
        a.nblocks() == b.nblocks(),
    ensures
        r.word() == if c.truth() {
            a.word()
        } else {
            b.word()
        },
        r.nblocks() == a.nblocks(),
        r.tag() == key.tag(),
{
    CtWord {
        ct: key.key.if_then_else_parallelized(&c.ct, &a.ct, &b.ct),
        code: Ghost(arbitrary()),
        blocks: Ghost(arbitrary()),
        session: Ghost(arbitrary()),
    }
}

/// Relies on tfhe's integer
/// `ServerKey::extend_radix_with_trivial_zero_blocks_msb`: appending zero
/// blocks above the most significant one keeps the carried word.
#[verifier::external_body]
pub(crate) fn ct_extend(key: &ServerKeyHandle, a: &CtWord, extra: usize) -> (r: CtWord)
    requires
        a.tag() == key.tag(),
    ensures
        r.word() == a.word(),
        r.nblocks() == a.nblocks() + extra as nat,
        r.tag() == key.tag(),
{
    CtWord {
        ct: key.key.extend_radix_with_trivial_zero_blocks_msb(&a.ct, extra),
        code: Ghost(arbitrary()),
        blocks: Ghost(arbitrary()),
        session: Ghost(arbitrary()),
    }
}

/// Relies on tfhe's integer `ServerKey::scalar_add_parallelized`: adding a
/// plain scalar that stays within the ciphertext's capacity of `4^blocks`
/// words (two-bit blocks, `open_session`).
#[verifier::external_body]
pub(crate) fn ct_add_scalar(key: &ServerKeyHandle, a: &CtWord, k: u64) -> (r: CtWord)
    requires
        a.tag() == key.tag(),
        a.word() + k < pow2(2 * a.nblocks()),
        a.word() + k <= u64::MAX,
    ensures
        r.word() == a.word() + k,
        r.nblocks() == a.nblocks(),
        r.tag() == key.tag(),
{
    CtWord {
        ct: key.key.scalar_add_parallelized(&a.ct, k),
        code: Ghost(arbitrary()),
        blocks: Ghost(arbitrary()),
        session: Ghost(arbitrary()),
    }
}

} // verus!
