//! The `pieces` field: a byte string cut into fixed-width SHA-1 hashes.

use vstd::prelude::*;
use crate::error::DecodeError;

verus! {

/// The width of one piece hash in bytes.
pub const HASH_LEN: usize = 20;

/// The hash of each piece, in piece order.
#[derive(Debug, PartialEq, Eq)]
pub struct Hashes(pub Vec<[u8; 20]>);

/// Cuts `b` into consecutive runs of [`HASH_LEN`] bytes, dropping a short tail.
pub open spec fn hash_chunks(b: Seq<u8>) -> Seq<Seq<u8>> {
    Seq::new(
        b.len() / HASH_LEN as nat,
        |i: int| b.subrange(i * HASH_LEN, i * HASH_LEN + HASH_LEN),
    )
}

impl Hashes {
    pub open spec fn view(&self) -> Seq<Seq<u8>> {
        Seq::new(self.0@.len(), |i: int| self.0@[i]@)
    }

    /// The number of hashes, one per piece.
    pub fn len(&self) -> (r: usize)
        ensures
            r == self@.len(),
    {
        self.0.len()
    }
}

/// Turns the raw bytes of `pieces` into [`Hashes`].
#[derive(Debug, Clone, Copy, PartialEq, Eq)]
pub struct HashesVisitor;

impl HashesVisitor {
    /// What the visitor expects to be given.
    pub fn expecting(&self) -> &'static str {
        "a list of 20-byte hashes"
    }

    /// Splits `v` into hashes; fails unless its length is a multiple of [`HASH_LEN`].
    pub fn visit_bytes(&self, v: &[u8]) -> (r: Result<Hashes, DecodeError>)
        ensures
            v@.len() % HASH_LEN as nat == 0 ==> r is Ok && r->Ok_0@ == hash_chunks(v@),
            v@.len() % HASH_LEN as nat != 0 ==> r == Err::<Hashes, DecodeError>(
                DecodeError::InvalidHashLength,
            ),
    {
        if v.len() % HASH_LEN != 0 {
            return Err(DecodeError::InvalidHashLength);
        }
        let n = v.len() / HASH_LEN;
        let mut out: Vec<[u8; 20]> = Vec::new();
        let mut i: usize = 0;
        while i < n
            invariant
                n == v.len() / HASH_LEN,
                n * HASH_LEN == v.len(),
                i <= n,
                out@.len() == i,
                forall|t: int| 0 <= t < i ==> (#[trigger] out@[t])@ == hash_chunks(v@)[t],
            decreases n - i,
        {
            let base = i * HASH_LEN;
            let mut h = [0u8; 20];
            let mut k: usize = 0;
            while k < HASH_LEN
                invariant
                    i < n,
                    n * HASH_LEN == v.len(),
                    base == i * HASH_LEN,
                    k <= HASH_LEN,
                    forall|t: int| 0 <= t < k ==> h@[t] == v@[base + t],
                decreases HASH_LEN - k,
            {
                h[k] = v[base + k];
                k = k + 1;
            }
            proof {
                assert(h@ =~= v@.subrange(base as int, base + HASH_LEN));
            }
            out.push(h);
            i = i + 1;
        }
        let r = Hashes(out);
        proof {
            assert(r@ =~= hash_chunks(v@));
        }
        Ok(r)
    }
}

} // verus!
