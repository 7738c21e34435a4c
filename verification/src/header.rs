//! Block headers and what the client keeps about them.

use vstd::prelude::*;
use vstd::std_specs::cmp::PartialEqSpecImpl;

use crate::error::{BlockSourceError, BlockSourceErrorKind};

verus! {

/// A block hash: the 32 bytes of the double SHA-256 of a block header, in the order in which
/// they are hashed.
#[derive(Clone, Copy, Debug, Eq, Hash)]
pub struct BlockHash {
    /// The bytes of the hash.
    pub bytes: [u8; 32],
}

/// Whether two arrays of 32 bytes hold the same bytes.
fn same_bytes(a: &[u8; 32], b: &[u8; 32]) -> (same: bool)
    ensures
        same == (*a == *b),
{
    let mut i: usize = 0;
    while i < 32
        invariant
            i <= 32,
            forall|j: int| 0 <= j < i ==> a[j] == b[j],
        decreases 32 - i,
    {
        if a[i] != b[i] {
            return false;
        }
        i = i + 1;
    }
    assert(*a =~= *b);
    true
}

impl PartialEq for BlockHash {
    fn eq(&self, other: &Self) -> (r: bool) {
        same_bytes(&self.bytes, &other.bytes)
    }
}

impl PartialEqSpecImpl for BlockHash {
    open spec fn obeys_eq_spec() -> bool {
        true
    }

    open spec fn eq_spec(&self, other: &Self) -> bool {
        *self == *other
    }
}

/// Cumulative work: a 256-bit unsigned integer held as four 64-bit limbs, least significant
/// first.
#[derive(Clone, Copy, Debug, Eq)]
pub struct ChainWork {
    /// The limbs of the number, least significant first.
    pub limbs: [u64; 4],
}

impl PartialEq for ChainWork {
    fn eq(&self, other: &Self) -> (r: bool) {
        let same = self.limbs[0] == other.limbs[0] && self.limbs[1] == other.limbs[1]
            && self.limbs[2] == other.limbs[2] && self.limbs[3] == other.limbs[3];
        proof {
            if same {
                assert(self.limbs =~= other.limbs);
            }
        }
        same
    }
}

impl PartialEqSpecImpl for ChainWork {
    open spec fn obeys_eq_spec() -> bool {
        true
    }

    open spec fn eq_spec(&self, other: &Self) -> bool {
        *self == *other
    }
}

impl ChainWork {
    /// The number that the limbs stand for.
    pub open spec fn value(&self) -> nat {
        (self.limbs[0] as nat) + (self.limbs[1] as nat) * 0x1_0000_0000_0000_0000 + (
        self.limbs[2] as nat) * 0x1_0000_0000_0000_0000_0000_0000_0000_0000 + (
        self.limbs[3] as nat) * 0x1_0000_0000_0000_0000_0000_0000_0000_0000_0000_0000_0000_0000
    }

    /// Whether this is strictly more work than `other`.
    pub fn is_more_than(&self, other: &ChainWork) -> (more: bool)
        ensures
            more == (self.value() > other.value()),
    {
        if self.limbs[3] != other.limbs[3] {
            self.limbs[3] > other.limbs[3]
        } else if self.limbs[2] != other.limbs[2] {
            self.limbs[2] > other.limbs[2]
        } else if self.limbs[1] != other.limbs[1] {
            self.limbs[1] > other.limbs[1]
        } else {
            self.limbs[0] > other.limbs[0]
        }
    }
}

/// A block header: what a block commits to, without its transactions.
#[derive(Clone, Copy, Debug, Eq)]
pub struct BlockHeader {
    /// The protocol version.
    pub version: i32,
    /// The hash of the previous block in the chain.
    pub prev_blockhash: BlockHash,
    /// The root hash of the merkle tree of the block's transactions.
    pub merkle_root: [u8; 32],
    /// The timestamp of the block, as claimed by the miner.
    pub time: u32,
    /// The target below which the block hash must lie, in compact form.
    pub bits: u32,
    /// The nonce, selected to obtain a low enough block hash.
    pub nonce: u32,
}

impl PartialEq for BlockHeader {
    fn eq(&self, other: &Self) -> (r: bool) {
        self.version == other.version && self.prev_blockhash == other.prev_blockhash && same_bytes(
            &self.merkle_root,
            &other.merkle_root,
        ) && self.time == other.time && self.bits == other.bits && self.nonce == other.nonce
    }
}

impl PartialEqSpecImpl for BlockHeader {
    open spec fn obeys_eq_spec() -> bool {
        true
    }

    open spec fn eq_spec(&self, other: &Self) -> bool {
        *self == *other
    }
}

/// The block hash of the header with the given fields: the double SHA-256 of its 80-byte
/// serialization.
pub uninterp spec fn header_hash(
    version: i32,
    prev_blockhash: Seq<u8>,
    merkle_root: Seq<u8>,
    time: u32,
    bits: u32,
    nonce: u32,
) -> Seq<u8>;

/// Computes the block hash of `header` with `bitcoin::blockdata::block::BlockHeader::block_hash`.
///
/// Trusted: the result is taken to be a function of the six header fields alone, which is how
/// that method computes it (it serializes the fields and hashes the bytes twice).
#[verifier::external_body]
fn double_sha256(header: &BlockHeader) -> (hash: BlockHash)
    ensures
        hash.bytes@ == header_hash(
            header.version,
            header.prev_blockhash.bytes@,
            header.merkle_root@,
            header.time,
            header.bits,
            header.nonce,
        ),
{
    let outside = bitcoin::blockdata::block::BlockHeader {
        version: header.version,
        prev_blockhash: <bitcoin::hash_types::BlockHash as bitcoin::hashes::Hash>::from_inner(
            header.prev_blockhash.bytes,
        ),
        merkle_root: <bitcoin::hash_types::TxMerkleNode as bitcoin::hashes::Hash>::from_inner(
            header.merkle_root,
        ),
        time: header.time,
        bits: header.bits,
        nonce: header.nonce,
    };
    BlockHash { bytes: bitcoin::hashes::Hash::into_inner(outside.block_hash()) }
}

impl BlockHeader {
    /// The block hash of this header.
    pub open spec fn hash(&self) -> Seq<u8> {
        header_hash(
            self.version,
            self.prev_blockhash.bytes@,
            self.merkle_root@,
            self.time,
            self.bits,
            self.nonce,
        )
    }
}

/// A block header and some associated data. This information should be available from most
/// block sources.
#[derive(Clone, Copy, Debug)]
pub struct BlockHeaderData {
    /// The block header itself.
    pub header: BlockHeader,
    /// The block height where the genesis block has height 0.
    pub height: u32,
    /// The total chain work in expected number of double-SHA256 hashes required to build a
    /// chain of equivalent weight.
    pub chainwork: ChainWork,
}

impl PartialEq for BlockHeaderData {
    fn eq(&self, other: &Self) -> (r: bool) {
        self.header == other.header && self.height == other.height && self.chainwork
            == other.chainwork
    }
}

impl PartialEqSpecImpl for BlockHeaderData {
    open spec fn obeys_eq_spec() -> bool {
        true
    }

    open spec fn eq_spec(&self, other: &Self) -> bool {
        *self == *other
    }
}

/// A block header with its data, known under the hash that its fields give.
#[derive(Clone, Copy, Debug)]
pub struct ValidatedBlockHeader {
    block_hash: BlockHash,
    inner: BlockHeaderData,
}

impl PartialEq for ValidatedBlockHeader {
    fn eq(&self, other: &Self) -> (r: bool) {
        self.block_hash == other.block_hash && self.inner == other.inner
    }
}

impl PartialEqSpecImpl for ValidatedBlockHeader {
    open spec fn obeys_eq_spec() -> bool {
        true
    }

    open spec fn eq_spec(&self, other: &Self) -> bool {
        *self == *other
    }
}

impl BlockHeaderData {
    /// Admits the header under `block_hash` if that is the hash of its fields, and reports a
    /// persistent error otherwise.
    pub fn validate(self, block_hash: BlockHash) -> (validated: Result<
        ValidatedBlockHeader,
        BlockSourceError,
    >)
        ensures
            match validated {
                Ok(header) => {
                    &&& block_hash.bytes@ == self.header.hash()
                    &&& header.block_hash() == block_hash
                    &&& header.data() == self
                },
                Err(e) => {
                    &&& block_hash.bytes@ != self.header.hash()
                    &&& e.kind() == BlockSourceErrorKind::Persistent
                    &&& e.message() == "invalid block hash"@
                },
            },
    {
        let computed = double_sha256(&self.header);
        proof {
            if block_hash.bytes@ == self.header.hash() {
                assert(computed.bytes =~= block_hash.bytes);
            }
        }
        self.validate_with_hash(block_hash, computed)
    }

    /// Admits the header under `block_hash` if that is `computed`, which must be the hash of the
    /// header's fields, and reports a persistent error otherwise.
    pub fn validate_with_hash(self, block_hash: BlockHash, computed: BlockHash) -> (validated:
        Result<ValidatedBlockHeader, BlockSourceError>)
        requires
            computed.bytes@ == self.header.hash(),
        ensures
            match validated {
                Ok(header) => {
                    &&& computed == block_hash
                    &&& header.block_hash() == block_hash
                    &&& header.data() == self
                },
                Err(e) => {
                    &&& computed != block_hash
                    &&& e.kind() == BlockSourceErrorKind::Persistent
                    &&& e.message() == "invalid block hash"@
                },
            },
    {
        if computed == block_hash {
            Ok(ValidatedBlockHeader { block_hash, inner: self })
        } else {
            Err(BlockSourceError::persistent("invalid block hash"))
        }
    }
}

impl ValidatedBlockHeader {
    #[verifier::type_invariant]
    spec fn hash_checked(&self) -> bool {
        self.block_hash.bytes@ == self.inner.header.hash()
    }

    /// The hash under which the header is known, as a specification.
    pub closed spec fn spec_block_hash(&self) -> BlockHash {
        self.block_hash
    }

    /// The header and its data, as a specification.
    pub closed spec fn spec_data(&self) -> BlockHeaderData {
        self.inner
    }

    /// The block height, as a specification.
    pub open spec fn spec_height(&self) -> u32 {
        self.data().height
    }

    /// The hash of the previous block, as a specification.
    pub open spec fn spec_prev_blockhash(&self) -> BlockHash {
        self.data().header.prev_blockhash
    }

    /// The cumulative work, as a specification.
    pub open spec fn spec_chainwork(&self) -> ChainWork {
        self.data().chainwork
    }

    /// The hash under which the header is known.
    #[verifier::when_used_as_spec(spec_block_hash)]
    pub fn block_hash(&self) -> (hash: BlockHash)
        ensures
            hash == self.block_hash(),
            hash.bytes@ == self.data().header.hash(),
    {
        proof {
            use_type_invariant(self);
        }
        self.block_hash
    }

    /// The header and its data.
    #[verifier::when_used_as_spec(spec_data)]
    pub fn data(&self) -> (data: BlockHeaderData)
        ensures
            data == self.data(),
    {
        self.inner
    }

    /// The block height where the genesis block has height 0.
    #[verifier::when_used_as_spec(spec_height)]
    pub fn height(&self) -> (height: u32)
        ensures
            height == self.height(),
    {
        self.inner.height
    }

    /// The hash of the previous block in the chain.
    #[verifier::when_used_as_spec(spec_prev_blockhash)]
    pub fn prev_blockhash(&self) -> (hash: BlockHash)
        ensures
            hash == self.prev_blockhash(),
    {
        self.inner.header.prev_blockhash
    }

    /// The total chain work up to and including this header.
    #[verifier::when_used_as_spec(spec_chainwork)]
    pub fn chainwork(&self) -> (work: ChainWork)
        ensures
            work == self.chainwork(),
    {
        self.inner.chainwork
    }
}

/// The best known chain tip relative to the tip a caller already has.
#[derive(Clone, Copy, Debug, PartialEq)]
pub enum ChainTip {
    /// A chain tip with the same hash as the caller's.
    Common,
    /// A chain tip with more chain work than the caller's.
    Better(ValidatedBlockHeader),
    /// A chain tip with no more chain work than the caller's.
    Worse(ValidatedBlockHeader),
}

impl ChainTip {
    /// Whether this is a verdict that can be given relative to the tip `current`: a better or
    /// worse tip is another header than `current`, and a better tip has strictly more chain
    /// work, a worse one no more.
    pub open spec fn relative_to(self, current: ValidatedBlockHeader) -> bool {
        match self {
            ChainTip::Common => true,
            ChainTip::Better(tip) => {
                &&& tip.block_hash() != current.block_hash()
                &&& tip.chainwork().value() > current.chainwork().value()
            },
            ChainTip::Worse(tip) => {
                &&& tip.block_hash() != current.block_hash()
                &&& tip.chainwork().value() <= current.chainwork().value()
            },
        }
    }

    /// Tells whether this is a verdict that can be given relative to the tip `current`.
    pub fn is_relative_to(&self, current: &ValidatedBlockHeader) -> (relative: bool)
        ensures
            relative == self.relative_to(*current),
    {
        match self {
            ChainTip::Common => true,
            ChainTip::Better(tip) => tip.block_hash() != current.block_hash()
                && tip.chainwork().is_more_than(&current.chainwork()),
            ChainTip::Worse(tip) => tip.block_hash() != current.block_hash()
                && !tip.chainwork().is_more_than(&current.chainwork()),
        }
    }
}

} // verus!
