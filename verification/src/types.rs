//! Data model: block locators, header-range queries, block headers and
//! bodies, outbound tasks, and the decode-error taxonomy.
//!
//! Each executable type has a ghost view (`@`) over plain mathematical
//! values (`Seq<u8>`, integers, `bool`); the contracts of the codec and of
//! the sync manager are stated over those views.

use vstd::prelude::*;

verus! {

/// Block height; the authoritative ordering key for headers.
pub type BlockNumber = u64;

/// A peer identifier, opaque to this crate.
pub type PeerId = u64;

/// A 32-byte content digest.
#[derive(Debug, PartialEq)]
pub struct Hash256 {
    pub bytes: Vec<u8>,
}

impl View for Hash256 {
    type V = Seq<u8>;

    open spec fn view(&self) -> Seq<u8> {
        self.bytes@
    }
}

impl Hash256 {
    pub open spec fn wf(&self) -> bool {
        self@.len() == 32
    }

    /// Wraps exactly 32 bytes; any other length is refused.
    pub fn from_vec(bytes: Vec<u8>) -> (r: Option<Hash256>)
        ensures
            match r {
                Some(h) => h.wf() && h@ == bytes@,
                None => bytes@.len() != 32,
            },
    {
        if bytes.len() == 32 {
            Some(Hash256 { bytes })
        } else {
            None
        }
    }

    /// The digest whose 32 bytes all equal `b`.
    pub fn repeat_byte(b: u8) -> (r: Hash256)
        ensures
            r.wf(),
            r@ == Seq::new(32, |i: int| b),
    {
        let mut bytes: Vec<u8> = Vec::new();
        let mut i: usize = 0;
        while i < 32
            invariant
                i <= 32,
                bytes@ =~= Seq::new(i as nat, |j: int| b),
            decreases 32 - i,
        {
            bytes.push(b);
            i = i + 1;
        }
        Hash256 { bytes }
    }

    pub fn duplicate(&self) -> (r: Hash256)
        ensures
            r@ == self@,
    {
        Hash256 { bytes: copy_bytes(&self.bytes) }
    }
}

/// A 20-byte account address.
#[derive(Debug, PartialEq)]
pub struct Address160 {
    pub bytes: Vec<u8>,
}

impl View for Address160 {
    type V = Seq<u8>;

    open spec fn view(&self) -> Seq<u8> {
        self.bytes@
    }
}

impl Address160 {
    pub open spec fn wf(&self) -> bool {
        self@.len() == 20
    }

    /// Wraps exactly 20 bytes; any other length is refused.
    pub fn from_vec(bytes: Vec<u8>) -> (r: Option<Address160>)
        ensures
            match r {
                Some(a) => a.wf() && a@ == bytes@,
                None => bytes@.len() != 20,
            },
    {
        if bytes.len() == 20 {
            Some(Address160 { bytes })
        } else {
            None
        }
    }

    pub fn duplicate(&self) -> (r: Address160)
        ensures
            r@ == self@,
    {
        Address160 { bytes: copy_bytes(&self.bytes) }
    }
}

/// Copies a byte vector element by element.
pub fn copy_bytes(src: &Vec<u8>) -> (r: Vec<u8>)
    ensures
        r@ == src@,
{
    let mut out: Vec<u8> = Vec::new();
    let mut i: usize = 0;
    while i < src.len()
        invariant
            i <= src@.len(),
            out@ =~= src@.subrange(0, i as int),
        decreases src@.len() - i,
    {
        out.push(src[i]);
        i = i + 1;
    }
    proof {
        assert(out@ =~= src@);
    }
    out
}

/// Locates a block either by height or by content hash.
#[derive(Debug, PartialEq)]
pub enum BlockId {
    Number(BlockNumber),
    Hash(Hash256),
}

/// Ghost view of a [`BlockId`].
#[verifier::ext_equal]
pub enum BlockIdV {
    Number(u64),
    Hash(Seq<u8>),
}

impl BlockIdV {
    pub open spec fn wf(&self) -> bool {
        match *self {
            BlockIdV::Number(_) => true,
            BlockIdV::Hash(h) => h.len() == 32,
        }
    }
}

impl View for BlockId {
    type V = BlockIdV;

    open spec fn view(&self) -> BlockIdV {
        match *self {
            BlockId::Number(n) => BlockIdV::Number(n),
            BlockId::Hash(h) => BlockIdV::Hash(h@),
        }
    }
}

impl BlockId {
    pub open spec fn wf(&self) -> bool {
        self@.wf()
    }
}

/// A header-range query: start point, count, stride and direction.
#[derive(Debug, PartialEq)]
pub struct GetBlockHeaders {
    pub block_id: BlockId,
    pub max_headers: u64,
    pub skip: u64,
    pub reverse: bool,
}

/// Ghost view of a [`GetBlockHeaders`] query.
#[verifier::ext_equal]
pub struct GetBlockHeadersV {
    pub block_id: BlockIdV,
    pub max_headers: u64,
    pub skip: u64,
    pub reverse: bool,
}

impl GetBlockHeadersV {
    pub open spec fn wf(&self) -> bool {
        self.block_id.wf()
    }
}

impl View for GetBlockHeaders {
    type V = GetBlockHeadersV;

    open spec fn view(&self) -> GetBlockHeadersV {
        GetBlockHeadersV {
            block_id: self.block_id@,
            max_headers: self.max_headers,
            skip: self.skip,
            reverse: self.reverse,
        }
    }
}

impl GetBlockHeaders {
    pub open spec fn wf(&self) -> bool {
        self@.wf()
    }

    pub fn new(block_id: BlockId, max_headers: u64, skip: u64, reverse: bool) -> (r:
        GetBlockHeaders)
        ensures
            r@ == (GetBlockHeadersV { block_id: block_id@, max_headers, skip, reverse }),
    {
        GetBlockHeaders { block_id, max_headers, skip, reverse }
    }
}

/// An immutable block header; stored and ordered by `number`.
#[derive(Debug, PartialEq)]
pub struct BlockHeader {
    pub parent_hash: Hash256,
    pub ommers_hash: Hash256,
    pub beneficiary_address: Address160,
    pub state_root: Hash256,
    pub transactions_root: Hash256,
    pub receipts_root: Hash256,
    pub logs_bloom: Vec<u8>,
    pub difficulty: u64,
    pub number: u64,
    pub gas_limit: u64,
    pub gas_used: u64,
    pub timestamp: u64,
    pub extra_data: Vec<u8>,
    pub mix_hash: Hash256,
    pub nonce: u64,
}

/// Ghost view of a [`BlockHeader`]: the fifteen fields over plain values.
#[verifier::ext_equal]
pub struct BlockHeaderV {
    pub parent_hash: Seq<u8>,
    pub ommers_hash: Seq<u8>,
    pub beneficiary_address: Seq<u8>,
    pub state_root: Seq<u8>,
    pub transactions_root: Seq<u8>,
    pub receipts_root: Seq<u8>,
    pub logs_bloom: Seq<u8>,
    pub difficulty: u64,
    pub number: u64,
    pub gas_limit: u64,
    pub gas_used: u64,
    pub timestamp: u64,
    pub extra_data: Seq<u8>,
    pub mix_hash: Seq<u8>,
    pub nonce: u64,
}

impl BlockHeaderV {
    pub open spec fn wf(&self) -> bool {
        &&& self.parent_hash.len() == 32
        &&& self.ommers_hash.len() == 32
        &&& self.beneficiary_address.len() == 20
        &&& self.state_root.len() == 32
        &&& self.transactions_root.len() == 32
        &&& self.receipts_root.len() == 32
        &&& self.mix_hash.len() == 32
        &&& self.logs_bloom.len() < 0x1_0000_0000_0000_0000
        &&& self.extra_data.len() < 0x1_0000_0000_0000_0000
    }
}

impl View for BlockHeader {
    type V = BlockHeaderV;

    open spec fn view(&self) -> BlockHeaderV {
        BlockHeaderV {
            parent_hash: self.parent_hash@,
            ommers_hash: self.ommers_hash@,
            beneficiary_address: self.beneficiary_address@,
            state_root: self.state_root@,
            transactions_root: self.transactions_root@,
            receipts_root: self.receipts_root@,
            logs_bloom: self.logs_bloom@,
            difficulty: self.difficulty,
            number: self.number,
            gas_limit: self.gas_limit,
            gas_used: self.gas_used,
            timestamp: self.timestamp,
            extra_data: self.extra_data@,
            mix_hash: self.mix_hash@,
            nonce: self.nonce,
        }
    }
}

impl BlockHeader {
    pub open spec fn wf(&self) -> bool {
        self@.wf()
    }

    /// A field-by-field copy whose view equals this header's view.
    pub fn duplicate(&self) -> (r: BlockHeader)
        ensures
            r@ == self@,
    {
        BlockHeader {
            parent_hash: self.parent_hash.duplicate(),
            ommers_hash: self.ommers_hash.duplicate(),
            beneficiary_address: self.beneficiary_address.duplicate(),
            state_root: self.state_root.duplicate(),
            transactions_root: self.transactions_root.duplicate(),
            receipts_root: self.receipts_root.duplicate(),
            logs_bloom: copy_bytes(&self.logs_bloom),
            difficulty: self.difficulty,
            number: self.number,
            gas_limit: self.gas_limit,
            gas_used: self.gas_used,
            timestamp: self.timestamp,
            extra_data: copy_bytes(&self.extra_data),
            mix_hash: self.mix_hash.duplicate(),
            nonce: self.nonce,
        }
    }
}

/// An opaque block body: one complete wire item carried through unchanged.
#[derive(Debug, PartialEq)]
pub struct BlockBody {
    pub bytes: Vec<u8>,
}

impl View for BlockBody {
    type V = Seq<u8>;

    open spec fn view(&self) -> Seq<u8> {
        self.bytes@
    }
}

/// The protocol messages this core builds or answers.
#[derive(Clone, Copy, Debug, PartialEq, Eq, Structural)]
pub enum MessageKind {
    GetBlockHeaders,
    BlockHeaders,
    GetBlockBodies,
    BlockBodies,
}

/// An outbound unit of work handed to the external scheduler.
#[derive(Debug)]
pub enum Task {
    /// Send a request to the peer.
    Request { peer: PeerId, message: MessageKind, payload: Vec<u8> },
    /// Answer a request from the peer.
    Respond { peer: PeerId, message: MessageKind, payload: Vec<u8> },
    /// Nothing to do.
    NoOp,
}

/// A request the manager wants sent to some peer, before one is chosen.
#[derive(Debug)]
pub struct InitialRequest {
    pub message: MessageKind,
    pub payload: Vec<u8>,
}

/// A peer-penalization signal directed at the scheduler.
#[derive(Debug)]
pub struct ErrorAct {
    pub reason: String,
}

/// Why a wire message was rejected. Decoding never panics: every malformed
/// input maps to one of these.
#[derive(Clone, Copy, Debug, PartialEq, Eq, Structural)]
pub enum DecodeError {
    /// The input ends before a length prefix is satisfied.
    Truncated,
    /// A list was expected but the prefix marks a byte string.
    ExpectedList,
    /// A byte string was expected but the prefix marks a list.
    ExpectedString,
    /// A length or integer is not in minimal form.
    NonCanonical,
    /// An integer field is wider than eight bytes.
    Overflow,
    /// A fixed-size field has the wrong byte length.
    WrongFieldSize,
    /// The boolean field is neither the canonical true nor false encoding.
    NotBoolean,
    /// Well-formed items are followed by bytes that belong to no field.
    TrailingData,
}

} // verus!
