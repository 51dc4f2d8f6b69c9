//! AES-256 applied block by block to a buffer (no mode of operation): encryption, decryption,
//! and the benchmark round that checks both.

use vstd::prelude::*;
use aes::Aes256;
use aes::cipher::generic_array::GenericArray;
use aes::cipher::{BlockDecrypt, BlockEncrypt, KeyInit};
use crate::bench::{verify_data, verdict, VerifyError};

verus! {

/// The length of an AES block, in bytes.
pub const BLOCK_SIZE: usize = 16;

/// The length of an AES-256 key, in bytes.
pub const KEY_SIZE: usize = 32;

/// The AES-256 encryption of the 16-byte `block` under the 32-byte `key`, as `aes` computes it.
pub uninterp spec fn aes256_encrypt_of(key: Seq<u8>, block: Seq<u8>) -> Seq<u8>;

/// The AES-256 decryption of the 16-byte `block` under the 32-byte `key`, as `aes` computes it.
pub uninterp spec fn aes256_decrypt_of(key: Seq<u8>, block: Seq<u8>) -> Seq<u8>;

/// Calls `aes::Aes256::new` on `key` and `BlockEncrypt::encrypt_block` on `block`. Trusted:
/// the result is the 16-byte encryption of `block` under `key` (named `aes256_encrypt_of`),
/// which decryption under the same key turns back into `block`, as for any block cipher.
#[verifier::external_body]
fn aes256_encrypt_block(key: &[u8], block: &[u8]) -> (c: Vec<u8>)
    requires
        key@.len() == KEY_SIZE,
        block@.len() == BLOCK_SIZE,
    ensures
        c@ == aes256_encrypt_of(key@, block@),
        c@.len() == BLOCK_SIZE,
        aes256_decrypt_of(key@, c@) == block@,
{
    let cipher = Aes256::new(GenericArray::from_slice(key));
    let mut b = GenericArray::clone_from_slice(block);
    cipher.encrypt_block(&mut b);
    b.to_vec()
}

/// Calls `aes::Aes256::new` on `key` and `BlockDecrypt::decrypt_block` on `block`. Trusted:
/// the result is the 16-byte decryption of `block` under `key` (named `aes256_decrypt_of`).
#[verifier::external_body]
fn aes256_decrypt_block(key: &[u8], block: &[u8]) -> (p: Vec<u8>)
    requires
        key@.len() == KEY_SIZE,
        block@.len() == BLOCK_SIZE,
    ensures
        p@ == aes256_decrypt_of(key@, block@),
        p@.len() == BLOCK_SIZE,
{
    let cipher = Aes256::new(GenericArray::from_slice(key));
    let mut b = GenericArray::clone_from_slice(block);
    cipher.decrypt_block(&mut b);
    b.to_vec()
}

/// Each 16-byte block of `data` encrypted (or, with `encrypt` false, decrypted) under `key`,
/// in order.
pub open spec fn blockwise(key: Seq<u8>, data: Seq<u8>, encrypt: bool) -> Seq<u8>
    decreases data.len(),
{
    if data.len() < BLOCK_SIZE {
        Seq::empty()
    } else {
        let k = data.len() - BLOCK_SIZE;
        blockwise(key, data.take(k), encrypt) + if encrypt {
            aes256_encrypt_of(key, data.skip(k))
        } else {
            aes256_decrypt_of(key, data.skip(k))
        }
    }
}

/// AES-256 under `key` applied to one block: its encryption, or with `encrypt` false its
/// decryption.
pub open spec fn block_cipher(key: Seq<u8>, block: Seq<u8>, encrypt: bool) -> Seq<u8> {
    if encrypt {
        aes256_encrypt_of(key, block)
    } else {
        aes256_decrypt_of(key, block)
    }
}

/// Block `j` (0-based) of `s`: its bytes `16 * j .. 16 * j + 16`.
pub open spec fn block_at(s: Seq<u8>, j: int) -> Seq<u8> {
    s.subrange(j * BLOCK_SIZE, j * BLOCK_SIZE + BLOCK_SIZE)
}

/// Block by block, in place: when the cipher turns each block of `data` into 16 bytes,
/// the result of `blockwise` is as long as `data`, and its block `j` is the cipher of block
/// `j` of `data`, for every `j`; no block moves.
pub proof fn lemma_blockwise_blocks(key: Seq<u8>, data: Seq<u8>, encrypt: bool)
    requires
        data.len() % (BLOCK_SIZE as nat) == 0,
        forall|j: int|
            0 <= j < data.len() / (BLOCK_SIZE as nat) ==> #[trigger] block_cipher(key, block_at(data, j), encrypt).len()
                == BLOCK_SIZE,
    ensures
        blockwise(key, data, encrypt).len() == data.len(),
        forall|j: int|
            0 <= j < data.len() / (BLOCK_SIZE as nat) ==> #[trigger] block_at(blockwise(key, data, encrypt), j)
                == block_cipher(key, block_at(data, j), encrypt),
    decreases data.len(),
{
    if data.len() >= BLOCK_SIZE {
        let k = data.len() - BLOCK_SIZE;
        let p = data.take(k);
        let nb = data.len() / (BLOCK_SIZE as nat);
        assert(k == (nb - 1) * BLOCK_SIZE);
        assert(p.len() / (BLOCK_SIZE as nat) == nb - 1);
        assert forall|j: int| 0 <= j < p.len() / (BLOCK_SIZE as nat) implies #[trigger] block_at(p, j)
            == block_at(data, j) by {
            assert(block_at(p, j) =~= block_at(data, j));
        }
        assert forall|j: int| 0 <= j < p.len() / (BLOCK_SIZE as nat) implies #[trigger] block_cipher(
            key,
            block_at(p, j),
            encrypt,
        ).len() == BLOCK_SIZE by {
            assert(block_at(p, j) == block_at(data, j));
        }
        lemma_blockwise_blocks(key, p, encrypt);
        let last = data.skip(k as int);
        assert(last =~= block_at(data, nb - 1));
        assert(block_cipher(key, last, encrypt).len() == BLOCK_SIZE);
        let bp = blockwise(key, p, encrypt);
        let whole = blockwise(key, data, encrypt);
        assert(whole == bp + block_cipher(key, last, encrypt));
        assert forall|j: int| 0 <= j < nb implies #[trigger] block_at(whole, j) == block_cipher(
            key,
            block_at(data, j),
            encrypt,
        ) by {
            if j < nb - 1 {
                assert(block_at(whole, j) =~= block_at(bp, j));
                assert(block_at(p, j) == block_at(data, j));
            } else {
                assert(block_at(whole, j) =~= block_cipher(key, last, encrypt));
            }
        }
    }
}

/// Applies AES-256 under `key` to each 16-byte block of `data`, encrypting or decrypting.
fn apply_blocks(key: &[u8], data: &[u8], encrypt: bool) -> (out: Vec<u8>)
    requires
        key@.len() == KEY_SIZE,
        data@.len() % (BLOCK_SIZE as nat) == 0,
    ensures
        out@ == blockwise(key@, data@, encrypt),
        out@.len() == data@.len(),
        encrypt ==> blockwise(key@, out@, false) == data@,
        forall|j: int|
            0 <= j < data@.len() / (BLOCK_SIZE as nat) ==> #[trigger] block_at(out@, j) == block_cipher(
                key@,
                block_at(data@, j),
                encrypt,
            ),
{
    let len = data.len();
    let nblocks = len / BLOCK_SIZE;
    assert(nblocks * BLOCK_SIZE == data@.len());
    let mut out: Vec<u8> = Vec::new();
    let mut b: usize = 0;
    while b < nblocks
        invariant
            key@.len() == KEY_SIZE,
            nblocks == data@.len() / (BLOCK_SIZE as nat),
            nblocks * BLOCK_SIZE == data@.len(),
            len == data@.len(),
            data@.len() % (BLOCK_SIZE as nat) == 0,
            b <= nblocks,
            out@.len() == b * BLOCK_SIZE,
            out@ == blockwise(key@, data@.take(b * BLOCK_SIZE), encrypt),
            encrypt ==> blockwise(key@, out@, false) == data@.take(b * BLOCK_SIZE),
            forall|j: int| 0 <= j < b ==> #[trigger] block_at(out@, j) == block_cipher(
                key@,
                block_at(data@, j),
                encrypt,
            ),
        decreases nblocks - b,
    {
        assert(b * BLOCK_SIZE + BLOCK_SIZE <= nblocks * BLOCK_SIZE) by (nonlinear_arith)
            requires
                b < nblocks,
        ;
        let lo = b * BLOCK_SIZE;
        let hi = lo + BLOCK_SIZE;
        let block = vstd::slice::slice_subrange(data, lo, hi);
        let piece = if encrypt {
            aes256_encrypt_block(key, block)
        } else {
            aes256_decrypt_block(key, block)
        };
        let ghost before = out@;
        let mut j: usize = 0;
        while j < BLOCK_SIZE
            invariant
                j <= BLOCK_SIZE,
                piece@.len() == BLOCK_SIZE,
                out@ == before + piece@.take(j as int),
            decreases BLOCK_SIZE - j,
        {
            out.push(piece[j]);
            j += 1;
        }
        proof {
            assert(piece@.take(BLOCK_SIZE as int) =~= piece@);
            let t = data@.take(hi as int);
            assert(t.take(lo as int) =~= data@.take(lo as int));
            assert(t.skip(lo as int) =~= block@);
            assert(t.len() == hi);
            assert(blockwise(key@, t, encrypt) == blockwise(key@, t.take(lo as int), encrypt) + (
            if encrypt {
                aes256_encrypt_of(key@, t.skip(lo as int))
            } else {
                aes256_decrypt_of(key@, t.skip(lo as int))
            }));
            assert forall|jj: int| 0 <= jj < b + 1 implies #[trigger] block_at(out@, jj) == block_cipher(
                key@,
                block_at(data@, jj),
                encrypt,
            ) by {
                if jj < b {
                    assert(block_at(out@, jj) =~= block_at(before, jj));
                } else {
                    assert(block_at(out@, jj) =~= piece@);
                    assert(block_at(data@, jj) =~= block@);
                }
            }
            if encrypt {
                assert(out@.take(lo as int) =~= before);
                assert(out@.skip(lo as int) =~= piece@);
                assert(blockwise(key@, out@, false) == blockwise(key@, out@.take(lo as int), false)
                    + aes256_decrypt_of(key@, out@.skip(lo as int)));
                assert(data@.take(lo as int) + block@ =~= t);
            }
        }
        b += 1;
    }
    proof {
        assert(data@.take(data@.len() as int) =~= data@);
    }
    out
}

/// Encrypts each 16-byte block of `data` under `key`; decrypting the result under the same
/// key gives `data` back.
pub fn encrypt_blocks(key: &[u8], data: &[u8]) -> (out: Vec<u8>)
    requires
        key@.len() == KEY_SIZE,
        data@.len() % (BLOCK_SIZE as nat) == 0,
    ensures
        out@ == blockwise(key@, data@, true),
        out@.len() == data@.len(),
        blockwise(key@, out@, false) == data@,
        forall|j: int|
            0 <= j < data@.len() / (BLOCK_SIZE as nat) ==> #[trigger] block_at(out@, j) == aes256_encrypt_of(
                key@,
                block_at(data@, j),
            ),
{
    apply_blocks(key, data, true)
}

/// Decrypts each 16-byte block of `data` under `key`.
pub fn decrypt_blocks(key: &[u8], data: &[u8]) -> (out: Vec<u8>)
    requires
        key@.len() == KEY_SIZE,
        data@.len() % (BLOCK_SIZE as nat) == 0,
    ensures
        out@ == blockwise(key@, data@, false),
        out@.len() == data@.len(),
        forall|j: int|
            0 <= j < data@.len() / (BLOCK_SIZE as nat) ==> #[trigger] block_at(out@, j) == aes256_decrypt_of(
                key@,
                block_at(data@, j),
            ),
{
    apply_blocks(key, data, false)
}

/// One round of the AES benchmark: encrypts `plaintext` under `key` and checks the result
/// against `expected`, then decrypts it and checks that against `plaintext`.
pub fn aes_round(key: &[u8], plaintext: &[u8], expected: &[u8]) -> (res: Result<(), VerifyError>)
    requires
        key@.len() == KEY_SIZE,
        plaintext@.len() % (BLOCK_SIZE as nat) == 0,
    ensures
        verdict(blockwise(key@, plaintext@, true), expected@, res),
{
    let ciphertext = encrypt_blocks(key, plaintext);
    let checked = verify_data(ciphertext.as_slice(), expected);
    if checked.is_err() {
        return checked;
    }
    let decrypted = decrypt_blocks(key, ciphertext.as_slice());
    let back = verify_data(decrypted.as_slice(), plaintext);
    if back.is_err() {
        proof {
            assert(decrypted@ == plaintext@);
            assert(decrypted@.len() == plaintext@.len());
            if let Err(VerifyError::Mismatch { index }) = back {
                assert(decrypted@[index as int] == plaintext@[index as int]);
            }
        }
        return back;
    }
    checked
}

} // verus!
