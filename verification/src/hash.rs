//! Message digests: the SHA-256 check of a fixed message and the MD5 digest of a counting
//! message.

use vstd::prelude::*;
use md5::Md5;
use sha2::{Digest, Sha256};
use crate::bench::{verify_data, verdict, VerifyError};

verus! {

/// The SHA-256 digest of `msg`, as `sha2` computes it.
pub uninterp spec fn sha256_of(msg: Seq<u8>) -> Seq<u8>;

/// The MD5 digest of `msg`, as `md-5` computes it.
pub uninterp spec fn md5_of(msg: Seq<u8>) -> Seq<u8>;

/// Calls `sha2::Sha256::digest`. Trusted: the result is the crate's SHA-256 digest of
/// `msg` (named `sha256_of`), which the crate's output size fixes at 32 bytes.
#[verifier::external_body]
fn sha256_digest(msg: &[u8]) -> (d: Vec<u8>)
    ensures
        d@ == sha256_of(msg@),
        d@.len() == 32,
{
    Sha256::digest(msg).to_vec()
}

/// Calls `md5::Md5::digest`. Trusted: the result is the crate's MD5 digest of `msg`
/// (named `md5_of`), which the crate's output size fixes at 16 bytes.
#[verifier::external_body]
fn md5_digest(msg: &[u8]) -> (d: Vec<u8>)
    ensures
        d@ == md5_of(msg@),
        d@.len() == 16,
{
    Md5::digest(msg).to_vec()
}

/// The SHA-256 digest of `msg`.
pub fn sha256(msg: &[u8]) -> (d: Vec<u8>)
    ensures
        d@ == sha256_of(msg@),
        d@.len() == 32,
{
    sha256_digest(msg)
}

/// Hashes `msg` `rounds` times, checking each digest against `expected`, and stops at the
/// first failed check.
pub fn sha256_benchmark(msg: &[u8], expected: &[u8], rounds: usize) -> (res: Result<(), VerifyError>)
    ensures
        rounds == 0 ==> res is Ok,
        rounds > 0 ==> verdict(sha256_of(msg@), expected@, res),
{
    let mut i: usize = 0;
    while i < rounds
        invariant
            i <= rounds,
            i > 0 ==> verdict(sha256_of(msg@), expected@, Ok(())),
        decreases rounds - i,
    {
        let hash = sha256(msg);
        let checked = verify_data(hash.as_slice(), expected);
        if checked.is_err() {
            return checked;
        }
        i += 1;
    }
    Ok(())
}

/// The length of the message of the MD5 benchmark.
pub const MD5_MSG_SIZE: usize = 10;

/// The message of the MD5 benchmark: the bytes `0, 1, .., MD5_MSG_SIZE - 1`.
pub fn md5_message() -> (msg: [u8; MD5_MSG_SIZE])
    ensures
        forall|i: int| 0 <= i < MD5_MSG_SIZE ==> #[trigger] msg@[i] == i,
{
    let mut msg = [0u8; MD5_MSG_SIZE];
    for i in 0..MD5_MSG_SIZE
        invariant
            forall|k: int| 0 <= k < i ==> #[trigger] msg@[k] == k,
    {
        msg[i] = i as u8;
    }
    msg
}

/// The MD5 digest of `data`.
pub fn compute_hash(data: &[u8]) -> (d: Vec<u8>)
    ensures
        d@ == md5_of(data@),
        d@.len() == 16,
{
    md5_digest(data)
}

} // verus!
