//! Nonce discipline: every message of a session is sealed under a nonce of
//! its own.
//!
//! A session draws a random 96-bit base once. The nonce of its `n`-th
//! message is the base with the big-endian bytes of `n` XORed into its last
//! eight bytes, so that no two messages of one session share a nonce.

use vstd::prelude::*;

verus! {

/// Byte `i` (0 is the highest) of `counter` in big-endian order.
pub open spec fn counter_byte(counter: u64, i: int) -> u8 {
    ((counter >> ((8 * (7 - i)) as u64)) & 0xff) as u8
}

/// The nonce of message number `counter` in the session with base `base`.
pub open spec fn nonce_at(base: Seq<u8>, counter: u64) -> Seq<u8> {
    Seq::new(
        12,
        |i: int|
            if i < 4 {
                base[i]
            } else {
                base[i] ^ counter_byte(counter, i - 4)
            },
    )
}

proof fn lemma_xor_cancels(x: u8, a: u8, b: u8)
    requires
        x ^ a == x ^ b,
    ensures
        a == b,
{
    assert(x ^ a == x ^ b ==> a == b) by (bit_vector);
}

proof fn lemma_bytes_fix_counter(a: u64, b: u64)
    requires
        forall|i: int| 0 <= i < 8 ==> counter_byte(a, i) == counter_byte(b, i),
    ensures
        a == b,
{
    assert(counter_byte(a, 0) == counter_byte(b, 0));
    assert(counter_byte(a, 1) == counter_byte(b, 1));
    assert(counter_byte(a, 2) == counter_byte(b, 2));
    assert(counter_byte(a, 3) == counter_byte(b, 3));
    assert(counter_byte(a, 4) == counter_byte(b, 4));
    assert(counter_byte(a, 5) == counter_byte(b, 5));
    assert(counter_byte(a, 6) == counter_byte(b, 6));
    assert(counter_byte(a, 7) == counter_byte(b, 7));
    assert((((a >> 56) & 0xff) as u8 == ((b >> 56) & 0xff) as u8 && ((a >> 48) & 0xff) as u8 == ((b
        >> 48) & 0xff) as u8 && ((a >> 40) & 0xff) as u8 == ((b >> 40) & 0xff) as u8 && ((a >> 32)
        & 0xff) as u8 == ((b >> 32) & 0xff) as u8 && ((a >> 24) & 0xff) as u8 == ((b >> 24)
        & 0xff) as u8 && ((a >> 16) & 0xff) as u8 == ((b >> 16) & 0xff) as u8 && ((a >> 8)
        & 0xff) as u8 == ((b >> 8) & 0xff) as u8 && ((a >> 0) & 0xff) as u8 == ((b >> 0)
        & 0xff) as u8) ==> a == b) by (bit_vector);
}

/// Within one session, two message numbers that give the same nonce are
/// the same number: no nonce is used twice.
pub proof fn lemma_nonce_injective(base: Seq<u8>, first: u64, second: u64)
    requires
        nonce_at(base, first) == nonce_at(base, second),
    ensures
        first == second,
{
    assert forall|i: int| 0 <= i < 8 implies counter_byte(first, i) == counter_byte(second, i) by {
        assert(nonce_at(base, first)[i + 4] == base[i + 4] ^ counter_byte(first, i + 4 - 4));
        assert(nonce_at(base, second)[i + 4] == base[i + 4] ^ counter_byte(second, i + 4 - 4));
        lemma_xor_cancels(base[i + 4], counter_byte(first, i), counter_byte(second, i));
    }
    lemma_bytes_fix_counter(first, second);
}

/// Within one session, two messages with different numbers are sealed into
/// different blobs, even where key and plaintext are the same.
pub proof fn lemma_session_blobs_differ(
    key: Seq<u8>,
    base: Seq<u8>,
    first: u64,
    second: u64,
    first_plaintext: Seq<u8>,
    second_plaintext: Seq<u8>,
)
    requires
        first != second,
    ensures
        crate::crypto::sealed_blob(key, nonce_at(base, first), first_plaintext)
            != crate::crypto::sealed_blob(key, nonce_at(base, second), second_plaintext),
{
    if nonce_at(base, first) == nonce_at(base, second) {
        lemma_nonce_injective(base, first, second);
    }
    crate::crypto::lemma_nonces_tell_blobs_apart(
        key,
        nonce_at(base, first),
        nonce_at(base, second),
        first_plaintext,
        second_plaintext,
    );
}

/// The source of a session's nonces.
pub struct NonceSequence {
    base: [u8; 12],
    issued: u64,
}

impl NonceSequence {
    /// The session's base.
    pub closed spec fn base(&self) -> Seq<u8> {
        self.base@
    }

    /// How many nonces the sequence has handed out.
    pub closed spec fn issued(&self) -> u64 {
        self.issued
    }

    /// A sequence that has handed out nothing yet. `base` is to be drawn at
    /// random, once per session.
    pub fn new(base: [u8; 12]) -> (sequence: Self)
        ensures
            sequence.base() == base@,
            sequence.issued() == 0,
    {
        NonceSequence { base, issued: 0 }
    }

    /// The number of nonces handed out so far.
    pub fn count(&self) -> (n: u64)
        ensures
            n == self.issued(),
    {
        self.issued
    }

    /// The next nonce, or `None` once 2^64 - 1 nonces have been handed out:
    /// the sequence never starts over.
    pub fn next(&mut self) -> (nonce: Option<[u8; 12]>)
        ensures
            final(self).base() == old(self).base(),
            old(self).issued() < u64::MAX ==> final(self).issued() == old(self).issued() + 1,
            old(self).issued() < u64::MAX ==> (nonce matches Some(n) && n@ == nonce_at(
                old(self).base(),
                old(self).issued(),
            )),
            old(self).issued() == u64::MAX ==> nonce is None && final(self).issued() == u64::MAX,
    {
        if self.issued == u64::MAX {
            return None;
        }
        let c: u64 = self.issued;
        let b = &self.base;
        let nonce: [u8; 12] = [
            b[0],
            b[1],
            b[2],
            b[3],
            b[4] ^ byte(c, 0),
            b[5] ^ byte(c, 1),
            b[6] ^ byte(c, 2),
            b[7] ^ byte(c, 3),
            b[8] ^ byte(c, 4),
            b[9] ^ byte(c, 5),
            b[10] ^ byte(c, 6),
            b[11] ^ byte(c, 7),
        ];
        assert(nonce@ =~= nonce_at(self.base@, c));
        self.issued = c + 1;
        Some(nonce)
    }
}

fn byte(counter: u64, i: u32) -> (b: u8)
    requires
        i < 8,
    ensures
        b == counter_byte(counter, i as int),
{
    let shift: u32 = 8 * (7 - i);
    let shifted: u64 = counter >> shift;
    let low: u64 = shifted & 0xff;
    assert(low < 256) by (bit_vector)
        requires
            low == shifted & 0xff,
    ;
    low as u8
}

} // verus!
