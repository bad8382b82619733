use vstd::prelude::*;

use crate::error::Error;
use crate::peer::read_array;

verus! {

/// A list of 20-byte SHA-1 digests.
#[derive(Clone, Debug)]
pub struct Hashes(pub Vec<[u8; 20]>);

impl Hashes {
    /// Splits a concatenation of digests; its length must be a multiple of 20.
    pub fn from_bytes(v: &[u8]) -> (r: Result<Hashes, Error>)
        ensures
            r is Ok <==> v@.len() % 20 == 0,
            r matches Ok(h) ==> {
                &&& h.0@.len() == v@.len() / 20
                &&& forall|i: int|
                    0 <= i < h.0@.len() ==> #[trigger] h.0@[i]@ == v@.subrange(20 * i, 20 * i + 20)
            },
            r matches Err(e) ==> e == Error::UnsupportedTorrent,
    {
        let total = v.len();
        if total % 20 != 0 {
            return Err(Error::UnsupportedTorrent);
        }
        let n = total / 20;
        let mut out: Vec<[u8; 20]> = Vec::new();
        let mut i: usize = 0;
        while i < n
            invariant
                i <= n,
                n == v@.len() / 20,
                total == v@.len(),
                total % 20 == 0,
                out@.len() == i,
                forall|j: int| 0 <= j < i ==> #[trigger] out@[j]@ == v@.subrange(20 * j, 20 * j + 20),
            decreases n - i,
        {
            assert(20 * i + 20 <= total);
            out.push(read_array(v, 20 * i));
            i = i + 1;
        }
        Ok(Hashes(out))
    }

    /// The digests one after another.
    pub fn to_bytes(&self) -> (r: Vec<u8>)
        ensures
            r@.len() == 20 * self.0@.len(),
            forall|i: int|
                0 <= i < self.0@.len() ==> r@.subrange(20 * i, 20 * i + 20) == #[trigger] self.0@[i]@,
    {
        let mut out: Vec<u8> = Vec::new();
        let mut i: usize = 0;
        while i < self.0.len()
            invariant
                i <= self.0@.len(),
                out@.len() == 20 * i,
                forall|j: int|
                    0 <= j < i ==> out@.subrange(20 * j, 20 * j + 20) == #[trigger] self.0@[j]@,
            decreases self.0@.len() - i,
        {
            let ghost before = out@;
            crate::bencode::extend_bytes(&mut out, &self.0[i]);
            proof {
                assert forall|j: int| 0 <= j < i + 1 implies out@.subrange(20 * j, 20 * j + 20)
                    == #[trigger] self.0@[j]@ by {
                    if j < i {
                        assert(out@.subrange(20 * j, 20 * j + 20) =~= before.subrange(
                            20 * j,
                            20 * j + 20,
                        ));
                    } else {
                        assert(out@.subrange(20 * j, 20 * j + 20) =~= self.0@[j]@);
                    }
                }
            }
            i = i + 1;
        }
        out
    }
}

} // verus!
