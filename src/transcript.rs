use crate::field::{ark_from_le_bytes_mod_order, le_value, modulus, Fq};
use vstd::prelude::*;

verus! {

/// The Keccak-256 digest of a byte string.
pub uninterp spec fn keccak256_of(data: Seq<u8>) -> Seq<u8>;

/// Relies on `sha3::Keccak256` through `Digest::digest`: the 32-byte
/// Keccak-256 digest of the data, which depends on the data alone.
#[verifier::external_body]
fn keccak256(data: &[u8]) -> (r: Vec<u8>)
    ensures
        r@ == keccak256_of(data@),
        r@.len() == 32,
{
    <sha3::Keccak256 as sha3::Digest>::digest(data).to_vec()
}

/// A hash that absorbs bytes and hashes everything absorbed so far.
pub trait HashTrait: Sized {
    /// Everything appended, in order.
    spec fn absorbed(&self) -> Seq<u8>;

    /// The hash of a byte string.
    spec fn hash_spec(data: Seq<u8>) -> Seq<u8>;

    fn append(&mut self, data: &[u8])
        ensures
            final(self).absorbed() == old(self).absorbed() + data@,
    ;

    fn generate_hash(&self) -> (r: Vec<u8>)
        ensures
            r@ == Self::hash_spec(self.absorbed()),
    ;
}

/// Keccak-256 over everything appended.
#[derive(Clone, Debug)]
pub struct KeccakHasher {
    data: Vec<u8>,
}

impl KeccakHasher {
    pub fn new() -> (r: Self)
        ensures
            r.absorbed() == Seq::<u8>::empty(),
    {
        KeccakHasher { data: Vec::new() }
    }
}

impl HashTrait for KeccakHasher {
    closed spec fn absorbed(&self) -> Seq<u8> {
        self.data@
    }

    open spec fn hash_spec(data: Seq<u8>) -> Seq<u8> {
        keccak256_of(data)
    }

    fn append(&mut self, data: &[u8]) {
        let mut i: usize = 0;
        while i < data.len()
            invariant
                i <= data@.len(),
                self.data@ == old(self).data@ + data@.subrange(0, i as int),
            decreases data@.len() - i,
        {
            self.data.push(data[i]);
            i = i + 1;
            assert(self.data@ =~= old(self).data@ + data@.subrange(0, i as int));
        }
        assert(data@.subrange(0, i as int) =~= data@);
    }

    fn generate_hash(&self) -> (r: Vec<u8>) {
        keccak256(self.data.as_slice())
    }
}

/// A Fiat-Shamir transcript: absorbs bytes in order and derives field
/// elements from the hash of everything absorbed.
#[derive(Clone, Debug)]
pub struct Transcript<K: HashTrait> {
    hash_function: K,
}

impl<K: HashTrait> Transcript<K> {
    pub closed spec fn absorbed(&self) -> Seq<u8> {
        self.hash_function.absorbed()
    }

    pub fn init(hash_function: K) -> (r: Self)
        ensures
            r.absorbed() == hash_function.absorbed(),
    {
        Transcript { hash_function }
    }

    pub fn absorb(&mut self, data: &[u8])
        ensures
            final(self).absorbed() == old(self).absorbed() + data@,
    {
        self.hash_function.append(data);
    }

    /// The hash of everything absorbed, read as a little-endian integer and
    /// reduced into the field.
    pub fn squeeze(&self) -> (r: Fq)
        ensures
            r.val() == le_value(K::hash_spec(self.absorbed())) % modulus(),
    {
        let hash_output = self.hash_function.generate_hash();
        ark_from_le_bytes_mod_order(hash_output.as_slice())
    }
}

} // verus!
