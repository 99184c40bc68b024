//! The digest that answers a handshake challenge.

use vstd::prelude::*;

verus! {

/// The MD5 digest of a byte string.
pub uninterp spec fn md5_of(data: Seq<u8>) -> Seq<u8>;

/// Calls `md5::compute` on the bytes and copies the sixteen bytes of the
/// digest it returns. Trusted: that the result is the MD5 digest of the
/// input, a function of the bytes alone, and sixteen bytes long.
#[verifier::external_body]
fn md5_digest(data: &Vec<u8>) -> (d: Vec<u8>)
    ensures
        d@ == md5_of(data@),
        d@.len() == 16,
{
    md5::compute(data).0.to_vec()
}

/// The decimal digits of `n` in ASCII, without leading zeros.
pub open spec fn decimal(n: nat) -> Seq<u8>
    decreases n,
{
    if n < 10 {
        seq![(48 + n) as u8]
    } else {
        decimal(n / 10).push((48 + n % 10) as u8)
    }
}

/// What is digested to answer `challenge`: the cookie, then the challenge in
/// decimal.
pub open spec fn digest_input(cookie: Seq<u8>, challenge: u32) -> Seq<u8> {
    cookie + decimal(challenge as nat)
}

/// The digest that proves knowledge of `cookie` in answer to `challenge`.
pub open spec fn challenge_digest_spec(cookie: Seq<u8>, challenge: u32) -> Seq<u8> {
    md5_of(digest_input(cookie, challenge))
}

/// Appends the decimal digits of `v`.
pub fn push_decimal(v: u32, out: &mut Vec<u8>)
    ensures
        final(out)@ == old(out)@ + decimal(v as nat),
    decreases v,
{
    if v >= 10 {
        push_decimal(v / 10, out);
    }
    out.push(48u8 + (v % 10) as u8);
    assert(out@ =~= old(out)@ + decimal(v as nat));
}

/// The bytes that are digested to answer `challenge` with `cookie`.
pub fn build_digest_input(cookie: &Vec<u8>, challenge: u32) -> (out: Vec<u8>)
    ensures
        out@ == digest_input(cookie@, challenge),
{
    let mut out: Vec<u8> = Vec::new();
    crate::wire::push_all(&mut out, cookie);
    push_decimal(challenge, &mut out);
    assert(out@ =~= digest_input(cookie@, challenge));
    out
}

/// The digest that answers `challenge` with `cookie`.
pub fn challenge_digest(cookie: &Vec<u8>, challenge: u32) -> (d: Vec<u8>)
    ensures
        d@ == challenge_digest_spec(cookie@, challenge),
        d@.len() == 16,
{
    let input = build_digest_input(cookie, challenge);
    md5_digest(&input)
}

} // verus!
