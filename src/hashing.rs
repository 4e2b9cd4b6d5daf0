use vstd::prelude::*;

verus! {

/// The SHA-256 digest of a byte string.
pub uninterp spec fn sha256_of(data: Seq<u8>) -> Seq<u8>;

/// Relies on `sha2::Sha256::digest`: the 32-byte SHA-256 digest of `data`,
/// which depends on the bytes alone.
#[verifier::external_body]
pub(crate) fn sha256(data: &[u8]) -> (r: [u8; 32])
    ensures
        r@ == sha256_of(data@),
{
    <sha2::Sha256 as sha2::Digest>::digest(data).into()
}

/// `256^n`.
pub open spec fn pow256(n: nat) -> nat
    decreases n,
{
    if n == 0 {
        1
    } else {
        256 * pow256((n - 1) as nat)
    }
}

/// The big-endian number held by the first `n` bytes of `s`.
pub open spec fn be_prefix(s: Seq<u8>, n: nat) -> nat
    decreases n,
{
    if n == 0 {
        0
    } else {
        be_prefix(s, (n - 1) as nat) * 256 + s[n - 1] as nat
    }
}

proof fn lemma_be_prefix_bound(s: Seq<u8>, n: nat)
    requires
        n <= s.len(),
    ensures
        be_prefix(s, n) < pow256(n),
    decreases n,
{
    if n > 0 {
        lemma_be_prefix_bound(s, (n - 1) as nat);
        assert(be_prefix(s, (n - 1) as nat) * 256 + 256 <= pow256((n - 1) as nat) * 256)
            by (nonlinear_arith)
            requires
                be_prefix(s, (n - 1) as nat) < pow256((n - 1) as nat),
        ;
    }
}

/// A SHA-256 hasher over one 32-byte block.
pub struct Sha256Algorithm {
    data: [u8; 32],
}

impl Sha256Algorithm {
    pub closed spec fn block(&self) -> Seq<u8> {
        self.data@
    }

    pub fn new(data: [u8; 32]) -> (r: Self)
        ensures
            r.block() == data@,
    {
        Sha256Algorithm { data }
    }

    pub fn data(&self) -> (r: [u8; 32])
        ensures
            r@ == self.block(),
    {
        self.data
    }

    /// The SHA-256 digest of the block.
    pub fn hash(&self) -> (r: [u8; 32])
        ensures
            r@ == sha256_of(self.block()),
    {
        sha256(&self.data)
    }

    /// The first eight bytes of the block read as a big-endian `u64`.
    pub fn finish(&self) -> (r: u64)
        ensures
            r == be_prefix(self.block(), 8),
    {
        let mut result: u64 = 0;
        let mut i: usize = 0;
        while i < 8
            invariant
                i <= 8,
                result == be_prefix(self.data@, i as nat),
            decreases 8 - i,
        {
            proof {
                lemma_be_prefix_bound(self.data@, i as nat);
                reveal_with_fuel(pow256, 8);
                assert(pow256(i as nat) <= pow256(7)) by {
                    assert(i <= 7);
                }
            }
            result = result * 256 + self.data[i] as u64;
            i = i + 1;
        }
        result
    }
}

impl Default for Sha256Algorithm {
    fn default() -> (r: Self)
        ensures
            r.block() == Seq::new(32, |i: int| 0u8),
    {
        let r = Sha256Algorithm { data: [0u8; 32] };
        assert(r.data@ =~= Seq::new(32, |i: int| 0u8));
        r
    }
}

} // verus!
