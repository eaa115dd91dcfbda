//! The hashes and signatures this library relies on, from outside crates,
//! and the hex digits that name a staging file after a digest.
use vstd::prelude::*;

verus! {

/// The 32-byte BLAKE3 digest of a byte string.
pub uninterp spec fn blake3_of(data: Seq<u8>) -> Seq<u8>;

/// The Ed25519 detached signature that a 64-byte secret key (seed then
/// public key) makes over a message.
pub uninterp spec fn ed25519_signature(msg: Seq<u8>, secret_key: Seq<u8>) -> Seq<u8>;

/// Whether an Ed25519 signature over a message verifies under a public key.
pub uninterp spec fn ed25519_accepts(sig: Seq<u8>, msg: Seq<u8>, public_key: Seq<u8>) -> bool;

/// Relies on blake3::hash: the digest of the bytes, a function of them alone.
#[verifier::external_body]
pub(crate) fn blake3_digest(data: &[u8]) -> (r: [u8; 32])
    ensures
        r@ == blake3_of(data@),
{
    *blake3::hash(data).as_bytes()
}

/// Relies on dryoc's crypto_sign_detached: a deterministic Ed25519 signature,
/// which for these fixed-size buffers never reports an error.
#[verifier::external_body]
pub(crate) fn sign_detached(msg: &[u8], secret_key: &[u8; 64]) -> (r: [u8; 64])
    ensures
        r@ == ed25519_signature(msg@, secret_key@),
{
    let mut signature = [0u8; 64];
    let _ = dryoc::classic::crypto_sign::crypto_sign_detached(&mut signature, msg, secret_key);
    signature
}

/// Relies on dryoc's crypto_sign_verify_detached: `Ok` exactly when the
/// signature verifies.
#[verifier::external_body]
pub(crate) fn verify_detached(sig: &[u8; 64], msg: &[u8], public_key: &[u8; 32]) -> (r: bool)
    ensures
        r == ed25519_accepts(sig@, msg@, public_key@),
{
    dryoc::classic::crypto_sign::crypto_sign_verify_detached(sig, msg, public_key).is_ok()
}

} // verus!

verus! {

/// The lowercase hex digit for a value below 16.
pub open spec fn hex_digit(n: u8) -> u8 {
    if n < 10 {
        (0x30 + n) as u8
    } else {
        (0x61 + n - 10) as u8
    }
}

/// Two lowercase hex digits per byte, high nibble first.
pub open spec fn hex_of(b: Seq<u8>) -> Seq<u8>
    decreases b.len(),
{
    if b.len() == 0 {
        seq![]
    } else {
        seq![hex_digit(b[0] / 16), hex_digit(b[0] % 16)] + hex_of(b.drop_first())
    }
}

proof fn lemma_hex_push(a: Seq<u8>, x: u8)
    ensures
        hex_of(a.push(x)) == hex_of(a) + seq![hex_digit(x / 16), hex_digit(x % 16)],
    decreases a.len(),
{
    if a.len() > 0 {
        assert(a.push(x).drop_first() =~= a.drop_first().push(x));
        lemma_hex_push(a.drop_first(), x);
        assert(hex_of(a.push(x)) =~= hex_of(a) + seq![hex_digit(x / 16), hex_digit(x % 16)]);
    } else {
        assert(a.push(x).drop_first() =~= seq![]);
        assert(a.push(x)[0] == x);
        assert(hex_of(a.push(x).drop_first()) =~= Seq::<u8>::empty());
        assert(hex_of(a.push(x)) =~= seq![hex_digit(x / 16), hex_digit(x % 16)]);
    }
}

fn hex_digit_of(n: u8) -> (r: u8)
    requires
        n < 16,
    ensures
        r == hex_digit(n),
{
    if n < 10 {
        0x30 + n
    } else {
        0x61 + n - 10
    }
}

/// Two lowercase hex digits for each byte, high nibble first.
pub fn to_hex(b: &[u8]) -> (r: Vec<u8>)
    ensures
        r@ == hex_of(b@),
{
    let mut out: Vec<u8> = Vec::new();
    let mut i: usize = 0;
    assert(b@.take(0) =~= seq![]);
    while i < b.len()
        invariant
            0 <= i <= b@.len(),
            out@ == hex_of(b@.take(i as int)),
        decreases b@.len() - i,
    {
        let x = b[i];
        out.push(hex_digit_of(x / 16));
        out.push(hex_digit_of(x % 16));
        proof {
            assert(b@.take(i + 1) =~= b@.take(i as int).push(x));
            lemma_hex_push(b@.take(i as int), x);
            assert(out@ =~= hex_of(b@.take(i + 1)));
        }
        i += 1;
    }
    assert(b@.take(b@.len() as int) =~= b@);
    out
}

} // verus!
