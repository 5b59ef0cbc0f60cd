//! Commitments and randomness.
//!
//! A commitment to a node color is the SHA-256 digest of a single 8-byte
//! little-endian integer: the color XORed with a fresh 64-bit key.  The
//! digest itself is computed by the sha2 crate and named here by the
//! uninterpreted function [`sha256_le8`]; fresh keys and indices come from
//! the rand crate.

use vstd::prelude::*;

use sha2::{Digest, Sha256};
use rand::Rng;

use crate::codec::{Bytes, BytesError, BytesReader, BytesWriter};

verus! {

/// The SHA-256 digest, as its 32 bytes, of the eight little-endian bytes of
/// `x`.  What the digest is on a given value is not stated anywhere: it is a
/// function of `x` alone, computed by the sha2 crate.
pub uninterp spec fn sha256_le8(x: u64) -> Seq<u8>;

/// A 32-byte commitment digest.
#[derive(Debug)]
pub struct Commitment {
    pub bytes: Vec<u8>,
}

impl Commitment {
    /// A digest is exactly 32 bytes.
    pub open spec fn wf(&self) -> bool {
        self.bytes@.len() == 32
    }
}

/// Relies on sha2's `Sha256::new`/`update`/`finalize`: the returned digest is
/// 32 bytes and depends on the hashed bytes (here the eight little-endian
/// bytes of `x`) alone.
#[verifier::external_body]
pub fn sha256_of_le8(x: u64) -> (r: Commitment)
    ensures
        r.bytes@ == sha256_le8(x),
        r.bytes@.len() == 32,
{
    let mut hasher = Sha256::new();
    hasher.update(x.to_le_bytes());
    let digest = hasher.finalize();
    Commitment { bytes: digest.as_slice().to_vec() }
}

/// Relies on rand's `rng` and `Rng::random`: a fresh 64-bit value; nothing
/// is promised of it.
#[verifier::external_body]
pub fn random_u64() -> u64 {
    let mut rng = rand::rng();
    rng.random()
}

/// Relies on rand's `Rng::random_range` over `0..n`: a value below `n`.  The
/// range is non-empty, so the call cannot panic.
#[verifier::external_body]
pub fn random_below(n: usize) -> (r: usize)
    requires
        n > 0,
    ensures
        r < n,
{
    let mut rng = rand::rng();
    rng.random_range(0..n)
}

/// Whether two digests hold the same bytes.
pub fn commitment_eq(a: &Commitment, b: &Commitment) -> (r: bool)
    ensures
        r <==> a.bytes@ == b.bytes@,
{
    let n = a.bytes.len();
    if n != b.bytes.len() {
        proof {
            assert(a.bytes@ != b.bytes@);
        }
        return false;
    }
    let mut i: usize = 0;
    while i < n
        invariant
            i <= n,
            n == a.bytes@.len() == b.bytes@.len(),
            forall|j: int| 0 <= j < i ==> a.bytes@[j] == b.bytes@[j],
        decreases n - i,
    {
        if a.bytes[i] != b.bytes[i] {
            return false;
        }
        i += 1;
    }
    proof {
        assert(a.bytes@ =~= b.bytes@);
    }
    true
}

impl Bytes for Commitment {
    type Model = Seq<u8>;

    open spec fn model(&self) -> Seq<u8> {
        self.bytes@
    }

    open spec fn mwf(m: Seq<u8>) -> bool {
        m.len() == 32
    }

    open spec fn menc(m: Seq<u8>) -> Seq<u8> {
        m
    }

    open spec fn dec(stream: Seq<u8>) -> Result<(Seq<u8>, int), BytesError> {
        if stream.len() >= 32 {
            Ok((stream.take(32), 32))
        } else {
            Err(BytesError::EndOfData(0))
        }
    }

    proof fn lemma_enc_dec(m: Seq<u8>, rest: Seq<u8>) {
        assert((m + rest).take(32) =~= m);
    }

    proof fn lemma_dec_ok(stream: Seq<u8>) {
    }

    proof fn lemma_dec_eod(stream: Seq<u8>) {
    }

    proof fn lemma_dec_truncated(stream: Seq<u8>, k: int) {
    }

    fn required_size(&self) -> (n: usize) {
        32
    }

    fn write(&self, writer: &mut BytesWriter) {
        writer.write(self.bytes.as_slice());
    }

    fn read(reader: &mut BytesReader) -> (r: Result<Self, BytesError>) {
        let b = reader.read(32)?;
        proof {
            assert(b@ =~= old(reader).remaining().take(32));
        }
        Ok(Commitment { bytes: b })
    }
}

} // verus!
