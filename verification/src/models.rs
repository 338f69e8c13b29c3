use vstd::prelude::*;

verus! {

/// Block numbers are 64-bit non-negative integers; genesis is 0.
pub type BlockNumber = u64;

/// A 32-byte opaque identifier, held as four 64-bit words.
#[derive(Clone, Copy, Debug, PartialEq, Eq, Structural, Hash)]
pub struct BlockHash {
    pub w0: u64,
    pub w1: u64,
    pub w2: u64,
    pub w3: u64,
}

impl BlockHash {
    /// A hash whose words are all zero.
    pub fn zero() -> (r: BlockHash)
        ensures
            r == (BlockHash { w0: 0, w1: 0, w2: 0, w3: 0 }),
    {
        BlockHash { w0: 0, w1: 0, w2: 0, w3: 0 }
    }

    /// A hash derived from a single word, convenient for building fixtures.
    pub fn from_word(w: u64) -> (r: BlockHash)
        ensures
            r == (BlockHash { w0: w, w1: 0, w2: 0, w3: 0 }),
    {
        BlockHash { w0: w, w1: 0, w2: 0, w3: 0 }
    }
}

/// The fields of a block header that the sync logic reads. The header's own
/// hash is carried with the record: computing it belongs to the encoding
/// layer, which hands headers in with the hash already attached.
#[derive(Clone, Copy, Debug, PartialEq, Eq, Structural, Hash)]
pub struct Header {
    pub number: BlockNumber,
    pub hash: BlockHash,
    pub parent_hash: BlockHash,
    pub timestamp: u64,
    pub gas_limit: u64,
    pub extra_data_len: u64,
}

/// The stored form of a block body: the stride of transaction ids it owns
/// and the number of uncle headers it carries.
#[derive(Clone, Copy, Debug, PartialEq, Eq, Structural, Hash)]
pub struct BodyForStorage {
    pub base_tx_id: u64,
    pub tx_amount: u64,
    pub uncle_count: u64,
}

/// One stored transaction, reduced to its opaque payload.
#[derive(Clone, Copy, Debug, PartialEq, Eq, Structural, Hash)]
pub struct TransactionRecord {
    pub payload: u64,
}

} // verus!
