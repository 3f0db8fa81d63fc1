use vstd::prelude::*;
use crate::primitives::H256;

verus! {

/// Identifier of a connected peer, as the network layer hands it out.
pub type PeerId = usize;

/// Identifier that correlates a block request with its response.
pub type RequestId = u64;

/// Height of a block.
pub type BlockNumber = u64;

/// Role that a node announces in its status.
#[derive(Clone, Copy, Debug, PartialEq, Eq, Structural)]
pub enum Role {
    Full,
    Light,
    Validator,
    Collator,
}

/// Part of a block that a request asks for.
#[derive(Clone, Copy, Debug, PartialEq, Eq, Structural)]
pub enum BlockAttribute {
    Header,
    Body,
    Receipt,
    MessageQueue,
    Justification,
}

/// Order in which a block request walks the chain.
#[derive(Clone, Copy, Debug, PartialEq, Eq, Structural)]
pub enum Direction {
    Ascending,
    Descending,
}

/// First block of a request: by hash or by number.
#[derive(Clone, Copy, Debug, PartialEq, Eq, Structural)]
pub enum FromBlock {
    Hash(H256),
    Number(BlockNumber),
}

/// A block identifier as the chain resolves it.
#[derive(Clone, Copy, Debug, PartialEq, Eq, Structural)]
pub enum BlockId {
    Hash(H256),
    Number(BlockNumber),
}

/// A block header.
#[derive(Clone, Debug)]
pub struct Header {
    pub parent_hash: H256,
    pub number: BlockNumber,
    pub state_root: H256,
    pub extrinsics_root: H256,
    pub digest: Vec<Vec<u8>>,
}

/// One block of a response, with the parts that were asked for.
#[derive(Clone, Debug)]
pub struct BlockData {
    pub hash: H256,
    pub header: Option<Header>,
    pub body: Option<Vec<Vec<u8>>>,
    pub receipt: Option<Vec<u8>>,
    pub message_queue: Option<Vec<Vec<u8>>>,
    pub justification: Option<Vec<u8>>,
}

/// A request for a run of blocks.
#[derive(Clone, Debug)]
pub struct BlockRequest {
    pub id: RequestId,
    pub fields: Vec<BlockAttribute>,
    pub from: FromBlock,
    pub to: Option<H256>,
    pub direction: Direction,
    pub max: Option<u32>,
}

/// The answer to a block request, under the request's id.
#[derive(Clone, Debug)]
pub struct BlockResponse {
    pub id: RequestId,
    pub blocks: Vec<BlockData>,
}

/// Announcement of a new best block.
#[derive(Clone, Debug)]
pub struct BlockAnnounce {
    pub header: Header,
}

/// Handshake message: what a node is and where its chain stands.
#[derive(Clone, Debug)]
pub struct Status {
    pub version: u32,
    pub genesis_hash: H256,
    pub roles: Vec<Role>,
    pub best_number: BlockNumber,
    pub best_hash: H256,
    pub authority_signature: Option<Vec<u8>>,
    pub authority_id: Option<H256>,
    pub chain_status: Vec<u8>,
}

/// Every message of the protocol.
#[derive(Clone, Debug)]
pub enum Message {
    Status(Status),
    BlockRequest(BlockRequest),
    BlockResponse(BlockResponse),
    BlockAnnounce(BlockAnnounce),
    BftMessage(Vec<u8>),
    Extrinsics(Vec<Vec<u8>>),
    ChainSpecific(Vec<u8>),
}

} // verus!
