//! Pedersen generator sets: the seed they are drawn from, and taking a prefix of a set.
use vstd::prelude::*;
use sha3::digest::{ExtendableOutput, Update, XofReader};

verus! {

/// The first 32 bytes of SHAKE256's output on `input`.
pub uninterp spec fn shake256_prefix32(input: Seq<u8>) -> Seq<u8>;

/// Relies on sha3's `Shake256`: absorbing `label`, then `suffix`, and reading 32 bytes
/// gives the first 32 output bytes of the hash of their concatenation.
#[verifier::external_body]
fn shake256_seed(label: &[u8], suffix: &[u8]) -> (r: [u8; 32])
    ensures
        r@ == shake256_prefix32(label@ + suffix@),
{
    let mut shake = sha3::Shake256::default();
    shake.update(label);
    shake.update(suffix);
    let mut reader = shake.finalize_xof();
    let mut seed = [0u8; 32];
    reader.read(&mut seed);
    seed
}

/// The domain-separated seed from which a generator set is drawn: SHAKE256 of the
/// label followed by the canonical encoding of the group's generator.
pub fn generator_seed(label: &[u8], generator_bytes: &[u8]) -> (r: [u8; 32])
    ensures
        r@ == shake256_prefix32(label@ + generator_bytes@),
{
    shake256_seed(label, generator_bytes)
}

/// Equal labels and group encodings give equal seeds, so two parties that derive a
/// generator set from the same label draw from the same stream.
pub proof fn lemma_seed_deterministic(label1: Seq<u8>, label2: Seq<u8>, gen1: Seq<u8>, gen2: Seq<u8>)
    requires
        label1 == label2,
        gen1 == gen2,
    ensures
        shake256_prefix32(label1 + gen1) == shake256_prefix32(label2 + gen2),
{
}

/// An ordered set of group elements used as commitment bases.
#[derive(Clone, Debug)]
pub struct PedersenGenerators<G> {
    pub generators: Vec<G>,
}

impl<G: Copy> PedersenGenerators<G> {
    /// The set made of `generators`, in order.
    pub fn from_generators(generators: Vec<G>) -> (r: PedersenGenerators<G>)
        ensures
            r.generators@ == generators@,
    {
        PedersenGenerators { generators }
    }

    /// The set of the first `n` generators; the set must hold at least `n`.
    pub fn clone_n(&self, n: usize) -> (r: PedersenGenerators<G>)
        requires
            n <= self.generators@.len(),
        ensures
            r.generators@ == self.generators@.subrange(0, n as int),
    {
        let mut out: Vec<G> = Vec::new();
        let mut i: usize = 0;
        while i < n
            invariant
                n <= self.generators@.len(),
                i <= n,
                out@ == self.generators@.subrange(0, i as int),
            decreases n - i,
        {
            out.push(self.generators[i]);
            i += 1;
            assert(out@ =~= self.generators@.subrange(0, i as int));
        }
        PedersenGenerators { generators: out }
    }

    /// The generator of a single-value commitment; the set must hold exactly one.
    pub fn single_generator(&self) -> (r: G)
        requires
            self.generators@.len() == 1,
        ensures
            r == self.generators@[0],
    {
        self.generators[0]
    }
}

} // verus!
