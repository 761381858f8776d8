use vstd::prelude::*;

verus! {

/// Block numbers of both chains.
pub type BlockNumber = u64;

/// A 32-byte digest, carried as plain bytes.
pub type HashOutput = Vec<u8>;

/// A compressed ECDSA public key (33 bytes), carried as plain bytes.
pub type AuthorityId = Vec<u8>;

/// Mathematical model of a leaf datum: what one accumulator leaf commits to.
pub struct LeafV {
    pub block_number: u64,
    pub block_hash: Seq<u8>,
    pub para_heads_root: Seq<u8>,
}

/// The payload committed at one accumulator position: the summary of one
/// relay block, including the root of the secondary-chain header set as it
/// stood at that block.
pub struct LeafData {
    pub block_number: BlockNumber,
    pub block_hash: HashOutput,
    pub para_heads_root: HashOutput,
}

impl View for LeafData {
    type V = LeafV;

    open spec fn view(&self) -> LeafV {
        LeafV {
            block_number: self.block_number,
            block_hash: self.block_hash@,
            para_heads_root: self.para_heads_root@,
        }
    }
}

impl LeafData {
    /// Both digests carried by a leaf are 32 bytes wide.
    pub open spec fn wf(self) -> bool {
        self.block_hash@.len() == 32 && self.para_heads_root@.len() == 32
    }

    /// Structural copy with a known result (`clone` of a `Vec` says nothing).
    pub fn duplicate(&self) -> (r: LeafData)
        ensures
            r@ == self@,
    {
        LeafData {
            block_number: self.block_number,
            block_hash: crate::encoding::copy_bytes(&self.block_hash),
            para_heads_root: crate::encoding::copy_bytes(&self.para_heads_root),
        }
    }
}

/// A block header of either chain, reduced to the fields the protocol reads.
pub struct TestHeader {
    pub parent_hash: HashOutput,
    pub number: BlockNumber,
    pub state_root: HashOutput,
    pub extrinsics_root: HashOutput,
}

impl TestHeader {
    /// All digest fields are 32 bytes wide.
    pub open spec fn wf(self) -> bool {
        self.parent_hash@.len() == 32 && self.state_root@.len() == 32
            && self.extrinsics_root@.len() == 32
    }

    /// The fields as a mathematical value, for contracts.
    pub open spec fn model(self) -> (Seq<u8>, u64, Seq<u8>, Seq<u8>) {
        (self.parent_hash@, self.number, self.state_root@, self.extrinsics_root@)
    }

    /// Structural copy with a known result.
    pub fn duplicate(&self) -> (r: TestHeader)
        ensures
            r.model() == self.model(),
    {
        TestHeader {
            parent_hash: crate::encoding::copy_bytes(&self.parent_hash),
            number: self.number,
            state_root: crate::encoding::copy_bytes(&self.state_root),
            extrinsics_root: crate::encoding::copy_bytes(&self.extrinsics_root),
        }
    }
}

/// Why ingesting a commitment was refused.  On any of these the verifier's
/// trust state is left untouched.
#[derive(Clone, Copy, Debug, PartialEq, Eq, Structural)]
pub enum IngestError {
    /// The presented view carries no signed commitment.
    MissingCommitment,
    /// The commitment was signed under a different authority-set id than the
    /// one the verifier currently trusts.
    SetIdMismatch,
    /// The number of signature slots differs from the authority-set size.
    SignatureCountMismatch,
    /// Some signature slot is empty: unanimity is required.
    MissingSignature,
    /// Some present signature does not verify against its positional key.
    InvalidSignature,
    /// The view's header number differs from the committed block number.
    BlockNumberMismatch,
    /// The accumulator root recomputed from the view differs from the
    /// committed root.
    MmrRootMismatch,
}

/// Why a finality claim was refused.
#[derive(Clone, Copy, Debug, PartialEq, Eq, Structural)]
pub enum ClaimError {
    /// No commitment has ever been ingested.
    NotIngestedYet,
    /// The target block is not strictly before the last finalized block.
    BlockNotBeforeFinalized,
    /// The accumulator proof does not reconstruct the trusted root.
    MmrProofInvalid,
    /// The secondary-chain header is not proven against the header-set root.
    ParaHeaderInclusionInvalid,
    /// The key/value pair is not proven against the header's state root.
    StorageProofInvalid,
}

} // verus!
