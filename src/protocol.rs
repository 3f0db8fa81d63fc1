use vstd::prelude::*;
use crate::primitives::{H256, contains_hash, copy_bytes};
use crate::message::{
    BlockAnnounce, BlockAttribute, BlockData, BlockId, BlockNumber, BlockRequest, BlockResponse, Direction,
    FromBlock, Header, Message, PeerId, Role, Status,
};
use crate::codec::{
    decode, enc_message, encode, encode_request, encode_response, header_hash, spec_header_hash,
};
use crate::primitives::{blake2_256, spec_blake2_256};

verus! {

/// Seconds after which an outstanding request or a pending handshake times out.
pub const REQUEST_TIMEOUT_SEC: u64 = 40;

/// Current protocol version.
pub const CURRENT_VERSION: u32 = 1;

/// Most blocks that one response carries.
pub const MAX_BLOCK_DATA_RESPONSE: u32 = 128;

/// Identifier of a node on the network.
pub type NodeId = Vec<u8>;

/// Transaction statistics.
#[derive(Debug)]
pub struct TransactionStats {
    /// Block number where this transaction was first seen.
    pub first_seen: u64,
    /// Peers it was propagated to.
    pub propagated_to: std::collections::BTreeMap<NodeId, usize>,
}

/// Configuration of the local node.
pub struct ProtocolConfig {
    pub roles: Vec<Role>,
}

/// What the local chain reports of itself.
#[derive(Clone, Copy, Debug)]
pub struct ChainInfo {
    pub genesis_hash: H256,
    pub best_hash: H256,
    pub best_number: BlockNumber,
}

/// State of the block download.
#[derive(Clone, Copy, Debug, PartialEq, Eq, Structural)]
pub enum SyncState {
    Idle,
    Downloading,
}

/// What the block download reports of itself.
#[derive(Clone, Copy, Debug)]
pub struct SyncStatus {
    pub state: SyncState,
    pub best_seen_block: Option<BlockNumber>,
}

/// Syncing status and statistics.
#[derive(Clone, Copy, Debug)]
pub struct ProtocolStatus {
    /// Sync status.
    pub sync: SyncStatus,
    /// Total number of connected peers.
    pub num_peers: usize,
    /// Number of peers with a block request in flight.
    pub num_active_peers: usize,
}

/// State kept for a peer that completed the handshake. Timestamps are in
/// milliseconds of a monotonic clock.
pub struct Peer {
    pub protocol_version: u32,
    pub roles: Vec<Role>,
    pub best_hash: H256,
    pub best_number: BlockNumber,
    /// The block request in flight, exactly as it was sent.
    pub block_request: Option<BlockRequest>,
    /// When the request in flight was sent.
    pub request_timestamp: Option<u64>,
    /// Hashes of the transactions that this peer knows.
    pub known_extrinsics: Vec<H256>,
    /// Hashes of the blocks that this peer knows.
    pub known_blocks: Vec<H256>,
    /// Id for the next block request to this peer.
    pub next_request_id: u64,
}

/// An active peer under its id.
pub struct PeerEntry {
    pub id: PeerId,
    pub peer: Peer,
}

/// A peer that connected and has not yet sent its status, with the time the
/// connection opened.
#[derive(Clone, Copy, Debug)]
pub struct Handshake {
    pub id: PeerId,
    pub since: u64,
}

/// Public information on a peer.
#[derive(Debug)]
pub struct PeerInfo {
    pub roles: Vec<Role>,
    pub protocol_version: u32,
    pub best_hash: H256,
    pub best_number: BlockNumber,
}

/// Something that the protocol asks of the world around it, in the order
/// in which it is to be done.
#[derive(Debug)]
pub enum Output {
    /// Send these bytes to the peer; on a send error, disconnect it.
    Send(PeerId, Vec<u8>),
    /// Close the connection.
    Disconnect(PeerId),
    /// Close the connection and refuse the peer for a while.
    Disable(PeerId),
    /// Tell the block download of a new peer.
    SyncNewPeer(PeerId),
    /// Tell consensus of a new peer and its roles.
    ConsensusNewPeer(PeerId, Vec<Role>),
    /// Tell consensus, then the block download, that the peer is gone.
    PeerDisconnected(PeerId),
    /// Hand a response, with the request it answers, to the block download.
    BlockData(PeerId, BlockRequest, BlockResponse),
    /// Hand an announced header and its hash to the block download.
    BlockAnnounce(PeerId, H256, Header),
    /// Hand a consensus message and the hash of its packet to consensus.
    BftMessage(PeerId, Vec<u8>, H256),
    /// Hand an application message to the specialization.
    ChainSpecific(PeerId, Vec<u8>),
    /// Offer these transactions to the pool, then report the hashes that
    /// it accepted through `note_extrinsics`.
    ImportExtrinsics(PeerId, Vec<Vec<u8>>),
}

/// The local chain, as the block server reads it. A lookup that fails is
/// reported as `None`.
/// Its lookups are functions of the chain's state: `spec_header`,
/// `spec_body` and `spec_justification` say what each returns.
pub trait Client {
    spec fn spec_header(&self, id: BlockId) -> Option<Header>;

    spec fn spec_body(&self, id: BlockId) -> Option<Vec<Vec<u8>>>;

    spec fn spec_justification(&self, id: BlockId) -> Option<Vec<u8>>;

    fn header(&self, id: &BlockId) -> (r: Option<Header>)
        ensures
            r == self.spec_header(*id),
    ;

    fn body(&self, id: &BlockId) -> (r: Option<Vec<Vec<u8>>>)
        ensures
            r == self.spec_body(*id),
    ;

    fn justification(&self, id: &BlockId) -> (r: Option<Vec<u8>>)
        ensures
            r == self.spec_justification(*id),
    ;
}

/// Whether the ids of the entries are pairwise distinct.
pub open spec fn peer_ids_unique(s: Seq<PeerEntry>) -> bool {
    forall|i: int, j: int| 0 <= i < j < s.len() ==> s[i].id != s[j].id
}

pub open spec fn handshake_ids_unique(s: Seq<Handshake>) -> bool {
    forall|i: int, j: int| 0 <= i < j < s.len() ==> s[i].id != s[j].id
}

pub open spec fn seq_has_peer(s: Seq<PeerEntry>, id: PeerId) -> bool {
    exists|i: int| 0 <= i < s.len() && #[trigger] s[i].id == id
}

pub open spec fn seq_has_handshake(s: Seq<Handshake>, id: PeerId) -> bool {
    exists|i: int| 0 <= i < s.len() && #[trigger] s[i].id == id
}

/// A request in flight exactly when it has a timestamp.
pub open spec fn request_stamped(p: Peer) -> bool {
    p.block_request.is_some() == p.request_timestamp.is_some()
}

/// Whether a timestamp is older than the timeout at `now`.
pub open spec fn timed_out(since: u64, now: u64) -> bool {
    now >= since && (now - since) / 1000 > REQUEST_TIMEOUT_SEC
}

/// A request with its id set.
pub open spec fn with_id(r: BlockRequest, id: u64) -> BlockRequest {
    BlockRequest { id: id, ..r }
}

/// Whether `p` is the state that a valid status `s` creates: what the status
/// says, nothing in flight, nothing known, and request ids from zero.
pub open spec fn fresh_peer(p: Peer, s: Status) -> bool {
    &&& p.protocol_version == s.version
    &&& p.roles@ == s.roles@
    &&& p.best_hash == s.best_hash
    &&& p.best_number == s.best_number
    &&& p.block_request is None
    &&& p.request_timestamp is None
    &&& p.known_extrinsics@.len() == 0
    &&& p.known_blocks@.len() == 0
    &&& p.next_request_id == 0
}


/// Which parts of a block a request asks for.
#[derive(Clone, Copy, Debug, PartialEq, Eq, Structural)]
pub struct FieldMask {
    pub header: bool,
    pub body: bool,
    pub justification: bool,
}

/// Whether the block server can answer a request for these fields: receipts
/// and message queues are reserved and refused.
pub open spec fn servable(fields: Seq<BlockAttribute>) -> bool {
    !fields.contains(BlockAttribute::Receipt) && !fields.contains(BlockAttribute::MessageQueue)
}

pub open spec fn spec_field_mask(fields: Seq<BlockAttribute>) -> FieldMask {
    FieldMask {
        header: fields.contains(BlockAttribute::Header),
        body: fields.contains(BlockAttribute::Body),
        justification: fields.contains(BlockAttribute::Justification),
    }
}

/// Most blocks that a response may carry for the request's `max`.
pub open spec fn response_limit(max: Option<u32>) -> u32 {
    let m = match max {
        Some(m) => m,
        None => u32::MAX,
    };
    if m < MAX_BLOCK_DATA_RESPONSE {
        m
    } else {
        MAX_BLOCK_DATA_RESPONSE
    }
}

/// The block after the one at height `number`, in `direction`; none past
/// genesis or past the largest height.
pub open spec fn spec_next_block_id(direction: Direction, number: BlockNumber) -> Option<BlockId> {
    match direction {
        Direction::Ascending => if number < u64::MAX {
            Some(BlockId::Number((number + 1) as u64))
        } else {
            None
        },
        Direction::Descending => if number == 0 {
            None
        } else {
            Some(BlockId::Number((number - 1) as u64))
        },
    }
}

/// Whether `d` is the block data built for `header` under `mask`, from the
/// body and justification that the chain gave for its hash.
pub open spec fn block_data_from(
    d: BlockData,
    header: Header,
    mask: FieldMask,
    body: Option<Vec<Vec<u8>>>,
    justification: Option<Vec<u8>>,
) -> bool {
    &&& d.hash == spec_header_hash(header)
    &&& d.header == (if mask.header { Some(header) } else { None::<Header> })
    &&& d.body == (if mask.body { body } else { None })
    &&& d.justification == (if mask.justification { justification } else { None })
    &&& d.receipt is None
    &&& d.message_queue is None
}

/// What every block of a served response satisfies, whatever the chain
/// answered: the hash is always there, and only the parts asked for are.
pub open spec fn block_data_shaped(d: BlockData, mask: FieldMask) -> bool {
    &&& d.header is Some == mask.header
    &&& (d.header matches Some(h) ==> d.hash == spec_header_hash(h))
    &&& (!mask.body ==> d.body is None)
    &&& (!mask.justification ==> d.justification is None)
    &&& d.receipt is None
    &&& d.message_queue is None
}

/// Whether `p2` is `p1` after the block request `req` was stamped and sent
/// at `now`.
pub open spec fn stamped(p1: Peer, p2: Peer, req: BlockRequest, now: u64) -> bool {
    &&& p2.block_request == Some(with_id(req, p1.next_request_id))
    &&& p2.request_timestamp == Some(now)
    &&& p2.next_request_id == p1.next_request_id.wrapping_add(1)
    &&& p2.protocol_version == p1.protocol_version
    &&& p2.roles == p1.roles
    &&& p2.best_hash == p1.best_hash
    &&& p2.best_number == p1.best_number
    &&& p2.known_extrinsics == p1.known_extrinsics
    &&& p2.known_blocks == p1.known_blocks
}

/// Whether two peer tables hold the same ids at the same places.
pub open spec fn same_ids(a: Seq<PeerEntry>, b: Seq<PeerEntry>) -> bool {
    a.len() == b.len() && forall|i: int| 0 <= i < a.len() ==> #[trigger] a[i].id == b[i].id
}

proof fn lemma_same_ids(a: Seq<PeerEntry>, b: Seq<PeerEntry>)
    requires
        same_ids(a, b),
    ensures
        peer_ids_unique(a) == peer_ids_unique(b),
        forall|id: PeerId| seq_has_peer(a, id) == seq_has_peer(b, id),
{
    assert forall|id: PeerId| seq_has_peer(a, id) implies seq_has_peer(b, id) by {
        let i = choose|i: int| 0 <= i < a.len() && #[trigger] a[i].id == id;
        assert(b[i].id == id);
    }
    assert forall|id: PeerId| seq_has_peer(b, id) implies seq_has_peer(a, id) by {
        let i = choose|i: int| 0 <= i < b.len() && #[trigger] b[i].id == id;
        assert(a[i].id == id);
    }
    if peer_ids_unique(a) {
        assert forall|i: int, j: int| 0 <= i < j < b.len() implies b[i].id != b[j].id by {
            assert(a[i].id == b[i].id && a[j].id == b[j].id);
        }
    }
    if peer_ids_unique(b) {
        assert forall|i: int, j: int| 0 <= i < j < a.len() implies a[i].id != a[j].id by {
            assert(a[i].id == b[i].id && a[j].id == b[j].id);
        }
    }
}

/// Reads the field mask of a request, or `None` where it asks for a
/// reserved field.
pub fn field_mask(fields: &Vec<BlockAttribute>) -> (r: Option<FieldMask>)
    ensures
        r is Some == servable(fields@),
        r matches Some(m) ==> m == spec_field_mask(fields@),
{
    let mut header = false;
    let mut body = false;
    let mut justification = false;
    let mut i: usize = 0;
    while i < fields.len()
        invariant
            i <= fields@.len(),
            forall|k: int| 0 <= k < i ==> fields@[k] != BlockAttribute::Receipt && fields@[k] != BlockAttribute::MessageQueue,
            header == fields@.subrange(0, i as int).contains(BlockAttribute::Header),
            body == fields@.subrange(0, i as int).contains(BlockAttribute::Body),
            justification == fields@.subrange(0, i as int).contains(BlockAttribute::Justification),
        decreases fields@.len() - i,
    {
        let a = fields[i];
        proof {
            let s = fields@.subrange(0, i as int);
            let t = fields@.subrange(0, i + 1);
            assert(t =~= s.push(a));
            assert(forall|x: BlockAttribute| t.contains(x) == (s.contains(x) || x == a)) by {
                assert forall|x: BlockAttribute| t.contains(x) implies (s.contains(x) || x == a) by {
                    let k = choose|k: int| 0 <= k < t.len() && t[k] == x;
                    if k < s.len() {
                        assert(s[k] == x);
                    }
                }
                assert forall|x: BlockAttribute| (s.contains(x) || x == a) implies t.contains(x) by {
                    if x == a {
                        assert(t[i as int] == x);
                    } else {
                        let k = choose|k: int| 0 <= k < s.len() && s[k] == x;
                        assert(t[k] == x);
                    }
                }
            }
        }
        match a {
            BlockAttribute::Header => header = true,
            BlockAttribute::Body => body = true,
            BlockAttribute::Justification => justification = true,
            BlockAttribute::Receipt => {
                assert(fields@[i as int] == BlockAttribute::Receipt);
                return None;
            },
            BlockAttribute::MessageQueue => {
                assert(fields@[i as int] == BlockAttribute::MessageQueue);
                return None;
            },
        }
        i = i + 1;
    }
    assert(fields@.subrange(0, i as int) =~= fields@);
    Some(FieldMask { header, body, justification })
}

/// Most blocks that a response may carry for the request's `max`.
pub fn block_limit(max: Option<u32>) -> (r: u32)
    ensures
        r == response_limit(max),
{
    let m = match max {
        Some(m) => m,
        None => u32::MAX,
    };
    if m < MAX_BLOCK_DATA_RESPONSE {
        m
    } else {
        MAX_BLOCK_DATA_RESPONSE
    }
}

/// The block after the one at height `number`, in `direction`.
pub fn next_block_id(direction: Direction, number: BlockNumber) -> (r: Option<BlockId>)
    ensures
        r == spec_next_block_id(direction, number),
{
    match direction {
        Direction::Ascending => if number < u64::MAX {
            Some(BlockId::Number(number + 1))
        } else {
            None
        },
        Direction::Descending => if number == 0 {
            None
        } else {
            Some(BlockId::Number(number - 1))
        },
    }
}

/// Builds the data of one block from its header and what the chain gave for
/// its body and justification.
pub fn build_block_data(
    header: Header,
    mask: FieldMask,
    body: Option<Vec<Vec<u8>>>,
    justification: Option<Vec<u8>>,
) -> (r: BlockData)
    ensures
        block_data_from(r, header, mask, body, justification),
{
    let hash = header_hash(&header);
    BlockData {
        hash,
        header: if mask.header { Some(header) } else { None },
        body: if mask.body { body } else { None },
        receipt: None,
        message_queue: None,
        justification: if mask.justification { justification } else { None },
    }
}

/// The block where a request starts.
pub open spec fn start_id(from: FromBlock) -> BlockId {
    match from {
        FromBlock::Hash(h) => BlockId::Hash(h),
        FromBlock::Number(n) => BlockId::Number(n),
    }
}

/// The data served for header `h` under `mask`: its hash, and the parts
/// asked for, as the chain holds them for that hash.
pub open spec fn served_block<C: Client>(chain: &C, h: Header, mask: FieldMask) -> BlockData {
    BlockData {
        hash: spec_header_hash(h),
        header: if mask.header { Some(h) } else { None },
        body: if mask.body { chain.spec_body(BlockId::Hash(spec_header_hash(h))) } else { None },
        receipt: None,
        message_queue: None,
        justification: if mask.justification {
            chain.spec_justification(BlockId::Hash(spec_header_hash(h)))
        } else {
            None
        },
    }
}

/// The blocks served from `id` on: at most `limit` of them, walking in
/// `direction`, up to the first block the chain does not have.
pub open spec fn served<C: Client>(
    chain: &C,
    id: BlockId,
    mask: FieldMask,
    limit: nat,
    direction: Direction,
) -> Seq<BlockData>
    decreases limit,
{
    if limit == 0 {
        Seq::empty()
    } else {
        match chain.spec_header(id) {
            None => Seq::empty(),
            Some(h) => seq![served_block(chain, h, mask)] + match spec_next_block_id(
                direction,
                h.number,
            ) {
                None => Seq::empty(),
                Some(next) => served(chain, next, mask, (limit - 1) as nat, direction),
            },
        }
    }
}

/// One step of the walk along the chain: `found` is what the chain gave for
/// the current block (its header, and the body and justification for its
/// hash), or `None` if it does not have the block. A found block is added
/// to `blocks`; the result is the block to ask for next, or `None` where the
/// walk ends: at a missing block, at the response limit `max`, or past the
/// end of the chain in `direction`.
pub fn walk_step(
    blocks: &mut Vec<BlockData>,
    found: Option<(Header, Option<Vec<Vec<u8>>>, Option<Vec<u8>>)>,
    mask: FieldMask,
    max: usize,
    direction: Direction,
) -> (next: Option<BlockId>)
    requires
        old(blocks)@.len() < max,
    ensures
        found is None ==> final(blocks)@ == old(blocks)@ && next is None,
        found matches Some((h, b, j)) ==> ({
            &&& final(blocks)@.drop_last() == old(blocks)@
            &&& final(blocks)@.len() == old(blocks)@.len() + 1
            &&& block_data_from(final(blocks)@.last(), h, mask, b, j)
            &&& next == (if final(blocks)@.len() == max {
                None
            } else {
                spec_next_block_id(direction, h.number)
            })
        }),
{
    match found {
        None => None,
        Some((header, body, justification)) => {
            let number = header.number;
            let d = build_block_data(header, mask, body, justification);
            blocks.push(d);
            assert(blocks@.drop_last() =~= old(blocks)@);
            if blocks.len() == max {
                None
            } else {
                next_block_id(direction, number)
            }
        },
    }
}

/// Serves a block request from the local chain. Walks from the requested
/// block in the requested direction, one `walk_step` per block, and stops
/// at the first block the chain does not have, at genesis, or at the
/// response limit. A request for a reserved field is refused with `None`.
pub fn serve_blocks<C: Client>(chain: &C, request: &BlockRequest) -> (r: Option<BlockResponse>)
    ensures
        r is Some == servable(request.fields@),
        r matches Some(resp) ==> ({
            &&& resp.id == request.id
            &&& resp.blocks@ == served(
                chain,
                start_id(request.from),
                spec_field_mask(request.fields@),
                response_limit(request.max) as nat,
                request.direction,
            )
            &&& resp.blocks@.len() <= response_limit(request.max)
            &&& forall|i: int|
                0 <= i < resp.blocks@.len() ==> block_data_shaped(
                    #[trigger] resp.blocks@[i],
                    spec_field_mask(request.fields@),
                )
        }),
{
    let mask = match field_mask(&request.fields) {
        Some(m) => m,
        None => {
            return None;
        },
    };
    let max = block_limit(request.max) as usize;
    let ghost total = served(chain, start_id(request.from), mask, max as nat, request.direction);
    let mut blocks: Vec<BlockData> = Vec::new();
    let mut id = match request.from {
        FromBlock::Hash(h) => BlockId::Hash(h),
        FromBlock::Number(n) => BlockId::Number(n),
    };
    proof {
        lemma_served_shaped(chain, id, mask, max as nat, request.direction);
        assert(blocks@ + served(chain, id, mask, max as nat, request.direction) =~= total);
    }
    loop
        invariant_except_break
            blocks@ + served(chain, id, mask, (max - blocks@.len()) as nat, request.direction) == total,
        invariant
            max == response_limit(request.max),
            mask == spec_field_mask(request.fields@),
            total == served(chain, start_id(request.from), mask, max as nat, request.direction),
            blocks@.len() <= max,
        ensures
            blocks@ == total,
        decreases max - blocks@.len(),
    {
        if blocks.len() >= max {
            assert(served(chain, id, mask, 0, request.direction) =~= Seq::<BlockData>::empty());
            assert(blocks@ =~= total);
            break;
        }
        let ghost rem = (max - blocks@.len()) as nat;
        let ghost before = blocks@;
        let ghost gid = id;
        let found = match chain.header(&id) {
            None => None,
            Some(header) => {
                let hash = header_hash(&header);
                let body = if mask.body {
                    chain.body(&BlockId::Hash(hash))
                } else {
                    None
                };
                let justification = if mask.justification {
                    chain.justification(&BlockId::Hash(hash))
                } else {
                    None
                };
                Some((header, body, justification))
            },
        };
        let ghost gfound = found;
        let next = walk_step(&mut blocks, found, mask, max, request.direction);
        proof {
            match gfound {
                None => {
                    assert(served(chain, gid, mask, rem, request.direction) =~= Seq::<BlockData>::empty());
                    assert(blocks@ =~= total);
                },
                Some((h, b, j)) => {
                    assert(blocks@.last() == served_block(chain, h, mask));
                    assert(blocks@ =~= before.push(served_block(chain, h, mask)));
                    match next {
                        Some(n) => {
                            assert(blocks@ + served(chain, n, mask, (max - blocks@.len()) as nat, request.direction) =~= before + served(chain, gid, mask, rem, request.direction));
                        },
                        None => {
                            match spec_next_block_id(request.direction, h.number) {
                                Some(n2) => {
                                    assert(rem == 1);
                                    assert(served(chain, n2, mask, 0, request.direction) =~= Seq::<BlockData>::empty());
                                },
                                None => {},
                            }
                            assert(before + served(chain, gid, mask, rem, request.direction) =~= blocks@);
                        },
                    }
                },
            }
        }
        match next {
            Some(n) => id = n,
            None => {
                break;
            },
        }
    }
    proof {
        lemma_served_shaped(chain, start_id(request.from), mask, max as nat, request.direction);
    }
    Some(BlockResponse { id: request.id, blocks })
}

/// A served walk has at most `limit` blocks, each shaped by `mask`.
proof fn lemma_served_shaped<C: Client>(chain: &C, id: BlockId, mask: FieldMask, limit: nat, direction: Direction)
    ensures
        served(chain, id, mask, limit, direction).len() <= limit,
        forall|i: int|
            0 <= i < served(chain, id, mask, limit, direction).len() ==> block_data_shaped(
                #[trigger] served(chain, id, mask, limit, direction)[i],
                mask,
            ),
    decreases limit,
{
    if limit > 0 {
        match chain.spec_header(id) {
            None => {},
            Some(h) => match spec_next_block_id(direction, h.number) {
                None => {},
                Some(next) => {
                    lemma_served_shaped(chain, next, mask, (limit - 1) as nat, direction);
                    let s = served(chain, id, mask, limit, direction);
                    let t = served(chain, next, mask, (limit - 1) as nat, direction);
                    assert forall|i: int| 0 <= i < s.len() implies block_data_shaped(#[trigger] s[i], mask) by {
                        if i > 0 {
                            assert(s[i] == t[i - 1]);
                        }
                    }
                },
            },
        }
    }
}

/// Whether `new` is `old` with the handshake of `id` recorded at `now`: in
/// place if `id` was there, else at the end.
pub open spec fn handshake_recorded(old: Seq<Handshake>, new: Seq<Handshake>, id: PeerId, now: u64) -> bool {
    &&& (seq_has_handshake(old, id) ==> exists|k: int|
        0 <= k < old.len() && #[trigger] old[k].id == id && new == old.update(
            k,
            Handshake { id: id, since: now },
        ))
    &&& (!seq_has_handshake(old, id) ==> new == old.push(Handshake { id: id, since: now }))
}

/// Whether `new` is `old` without the entry of `id`, if there was one.
pub open spec fn peer_removed(old: Seq<PeerEntry>, new: Seq<PeerEntry>, id: PeerId) -> bool {
    &&& (seq_has_peer(old, id) ==> exists|k: int|
        0 <= k < old.len() && #[trigger] old[k].id == id && new == old.remove(k))
    &&& (!seq_has_peer(old, id) ==> new == old)
}

pub open spec fn handshake_removed(old: Seq<Handshake>, new: Seq<Handshake>, id: PeerId) -> bool {
    &&& (seq_has_handshake(old, id) ==> exists|k: int|
        0 <= k < old.len() && #[trigger] old[k].id == id && new == old.remove(k))
    &&& (!seq_has_handshake(old, id) ==> new == old)
}

/// Whether `s` is the status that the local node sends.
pub open spec fn local_status(s: Status, info: ChainInfo, roles: Seq<Role>, chain_status: Seq<u8>) -> bool {
    &&& s.version == CURRENT_VERSION
    &&& s.genesis_hash == info.genesis_hash
    &&& s.roles@ == roles
    &&& s.best_number == info.best_number
    &&& s.best_hash == info.best_hash
    &&& s.authority_signature is None
    &&& s.authority_id is None
    &&& s.chain_status@ == chain_status
}

proof fn lemma_remove_peer(s: Seq<PeerEntry>, k: int)
    requires
        peer_ids_unique(s),
        0 <= k < s.len(),
    ensures
        peer_ids_unique(s.remove(k)),
        forall|id: PeerId| seq_has_peer(s.remove(k), id) == (seq_has_peer(s, id) && id != s[k].id),
{
    let t = s.remove(k);
    assert forall|id: PeerId| seq_has_peer(t, id) implies (seq_has_peer(s, id) && id != s[k].id) by {
        let i = choose|i: int| 0 <= i < t.len() && #[trigger] t[i].id == id;
        if i < k {
            assert(s[i].id == id);
        } else {
            assert(s[i + 1].id == id);
        }
    }
    assert forall|id: PeerId| (seq_has_peer(s, id) && id != s[k].id) implies seq_has_peer(t, id) by {
        let i = choose|i: int| 0 <= i < s.len() && #[trigger] s[i].id == id;
        if i < k {
            assert(t[i].id == id);
        } else {
            assert(i != k);
            assert(t[i - 1].id == id);
        }
    }
}

proof fn lemma_remove_handshake(s: Seq<Handshake>, k: int)
    requires
        handshake_ids_unique(s),
        0 <= k < s.len(),
    ensures
        handshake_ids_unique(s.remove(k)),
        forall|id: PeerId| seq_has_handshake(s.remove(k), id) == (seq_has_handshake(s, id) && id != s[k].id),
{
    let t = s.remove(k);
    assert forall|id: PeerId| seq_has_handshake(t, id) implies (seq_has_handshake(s, id) && id != s[k].id) by {
        let i = choose|i: int| 0 <= i < t.len() && #[trigger] t[i].id == id;
        if i < k {
            assert(s[i].id == id);
        } else {
            assert(s[i + 1].id == id);
        }
    }
    assert forall|id: PeerId| (seq_has_handshake(s, id) && id != s[k].id) implies seq_has_handshake(t, id) by {
        let i = choose|i: int| 0 <= i < s.len() && #[trigger] s[i].id == id;
        if i < k {
            assert(t[i].id == id);
        } else {
            assert(i != k);
            assert(t[i - 1].id == id);
        }
    }
}

proof fn lemma_push_keeps(s: Seq<PeerId>, x: PeerId)
    ensures
        forall|y: PeerId| s.contains(y) ==> #[trigger] s.push(x).contains(y),
        s.push(x).contains(x),
{
    assert forall|y: PeerId| s.contains(y) implies #[trigger] s.push(x).contains(y) by {
        let k = choose|k: int| 0 <= k < s.len() && s[k] == y;
        assert(s.push(x)[k] == y);
    }
    assert(s.push(x)[s.len() as int] == x);
}

fn copy_roles(r: &Vec<Role>) -> (c: Vec<Role>)
    ensures
        c@ == r@,
{
    let mut c: Vec<Role> = Vec::new();
    let mut i: usize = 0;
    while i < r.len()
        invariant
            i <= r@.len(),
            c@ == r@.subrange(0, i as int),
        decreases r@.len() - i,
    {
        c.push(r[i]);
        i = i + 1;
        assert(c@ =~= r@.subrange(0, i as int));
    }
    assert(c@ =~= r@);
    c
}


/// `s` with `h` added, if it was not there.
pub open spec fn with_hash(s: Seq<H256>, h: H256) -> Seq<H256> {
    if s.contains(h) {
        s
    } else {
        s.push(h)
    }
}

/// `s` with each of `hs` added in turn.
pub open spec fn with_hashes(s: Seq<H256>, hs: Seq<H256>) -> Seq<H256>
    decreases hs.len(),
{
    if hs.len() == 0 {
        s
    } else {
        with_hash(with_hashes(s, hs.drop_last()), hs.last())
    }
}

/// Whether `p2` is `p1` with its request in flight taken away.
pub open spec fn request_taken(p1: Peer, p2: Peer) -> bool {
    &&& p2.block_request is None
    &&& p2.request_timestamp is None
    &&& p2.next_request_id == p1.next_request_id
    &&& p2.protocol_version == p1.protocol_version
    &&& p2.roles == p1.roles
    &&& p2.best_hash == p1.best_hash
    &&& p2.best_number == p1.best_number
    &&& p2.known_extrinsics == p1.known_extrinsics
    &&& p2.known_blocks == p1.known_blocks
}

/// Whether `p2` is `p1` with different known transactions or blocks only.
pub open spec fn same_but_known(p1: Peer, p2: Peer) -> bool {
    &&& p2.block_request == p1.block_request
    &&& p2.request_timestamp == p1.request_timestamp
    &&& p2.next_request_id == p1.next_request_id
    &&& p2.protocol_version == p1.protocol_version
    &&& p2.roles == p1.roles
    &&& p2.best_hash == p1.best_hash
    &&& p2.best_number == p1.best_number
}

fn add_hash(v: &mut Vec<H256>, h: H256)
    ensures
        final(v)@ == with_hash(old(v)@, h),
{
    if !contains_hash(v, h) {
        v.push(h);
    }
}


/// Whether an active peer's request in flight has timed out at `now`.
pub open spec fn stale_peer(e: PeerEntry, now: u64) -> bool {
    e.peer.request_timestamp matches Some(ts) && timed_out(ts, now)
}

/// Whether a pending handshake has timed out at `now`.
pub open spec fn stale_handshake(h: Handshake, now: u64) -> bool {
    timed_out(h.since, now)
}

/// Whether `id` names a peer that `tick` at `now` disconnects.
pub open spec fn stale_id(peers: Seq<PeerEntry>, hs: Seq<Handshake>, id: PeerId, now: u64) -> bool {
    (exists|i: int| 0 <= i < peers.len() && #[trigger] peers[i].id == id && stale_peer(peers[i], now))
        || (exists|i: int| 0 <= i < hs.len() && #[trigger] hs[i].id == id && stale_handshake(hs[i], now))
}

/// What a peer knows after it was sent the pool `pool`: the hashes it
/// knew, then each hash of the pool that was new, in order.
pub open spec fn learn(known: Seq<H256>, pool: Seq<(H256, Vec<u8>)>) -> Seq<H256>
    decreases pool.len(),
{
    if pool.len() == 0 {
        known
    } else {
        with_hash(learn(known, pool.drop_last()), pool.last().0)
    }
}

/// The transactions of `pool` that a peer that knows `known` is sent: each
/// one whose hash it did not know, nor met earlier in the pool.
pub open spec fn unknown_txs(known: Seq<H256>, pool: Seq<(H256, Vec<u8>)>) -> Seq<Seq<u8>>
    decreases pool.len(),
{
    if pool.len() == 0 {
        Seq::empty()
    } else {
        let u = unknown_txs(known, pool.drop_last());
        if learn(known, pool.drop_last()).contains(pool.last().0) {
            u
        } else {
            u.push(pool.last().1@)
        }
    }
}

/// Which peers are sent which transactions when `pool` is propagated: one
/// entry per peer with something new, in table order.
pub open spec fn propagation(peers: Seq<PeerEntry>, pool: Seq<(H256, Vec<u8>)>) -> Seq<(PeerId, Seq<Seq<u8>>)>
    decreases peers.len(),
{
    if peers.len() == 0 {
        Seq::empty()
    } else {
        let rest = propagation(peers.drop_last(), pool);
        let u = unknown_txs(peers.last().peer.known_extrinsics@, pool);
        if u.len() == 0 {
            rest
        } else {
            rest.push((peers.last().id, u))
        }
    }
}

/// The peers that are told of block `hash`: those that did not know it, in
/// table order.
pub open spec fn announce_targets(peers: Seq<PeerEntry>, hash: H256) -> Seq<PeerId>
    decreases peers.len(),
{
    if peers.len() == 0 {
        Seq::empty()
    } else {
        let rest = announce_targets(peers.drop_last(), hash);
        if peers.last().peer.known_blocks@.contains(hash) {
            rest
        } else {
            rest.push(peers.last().id)
        }
    }
}

pub open spec fn byte_views(l: Seq<Vec<u8>>) -> Seq<Seq<u8>> {
    l.map_values(|v: Vec<u8>| v@)
}

/// Whether the output is the sending of `txs` to `id`.
pub open spec fn sends_extrinsics(o: Output, id: PeerId, txs: Seq<Seq<u8>>) -> bool {
    o matches Output::Send(p, b) && p == id && exists|l: Vec<Vec<u8>>|
        #![trigger enc_message(Message::Extrinsics(l))]
        b@ == enc_message(Message::Extrinsics(l)) && byte_views(l@) == txs
}

/// Whether `h` is in `known` or is the hash of an item of `pool`.
pub open spec fn known_or_pooled(known: Seq<H256>, pool: Seq<(H256, Vec<u8>)>, h: H256) -> bool {
    known.contains(h) || exists|j: int| 0 <= j < pool.len() && #[trigger] pool[j].0 == h
}

/// A peer knows, after propagation, what it knew and every hash of the pool.
pub proof fn lemma_learn(known: Seq<H256>, pool: Seq<(H256, Vec<u8>)>)
    ensures
        forall|h: H256| #[trigger] learn(known, pool).contains(h) == known_or_pooled(known, pool, h),
    decreases pool.len(),
{
    if pool.len() > 0 {
        let p = pool.drop_last();
        lemma_learn(known, p);
        assert forall|h: H256| #[trigger] learn(known, pool).contains(h) == known_or_pooled(known, pool, h) by {
            let l = learn(known, p);
            if l.contains(h) {
                if !known.contains(h) {
                    let j = choose|j: int| 0 <= j < p.len() && #[trigger] p[j].0 == h;
                    assert(pool[j].0 == h);
                }
            }
            if known_or_pooled(known, pool, h) && !known.contains(h) {
                let j = choose|j: int| 0 <= j < pool.len() && #[trigger] pool[j].0 == h;
                if j < p.len() {
                    assert(p[j].0 == h);
                    assert(l.contains(h));
                } else {
                    assert(with_hash(l, h).contains(h)) by {
                        if !l.contains(h) {
                            assert(l.push(h)[l.len() as int] == h);
                        }
                    }
                }
            }
            if l.contains(h) {
                assert(with_hash(l, pool.last().0).contains(h)) by {
                    if !l.contains(pool.last().0) {
                        let k = choose|k: int| 0 <= k < l.len() && l[k] == h;
                        assert(l.push(pool.last().0)[k] == h);
                    }
                }
            }
            if with_hash(l, pool.last().0).contains(h) && !l.contains(h) {
                let k = choose|k: int| 0 <= k < l.push(pool.last().0).len() && l.push(pool.last().0)[k] == h;
                assert(pool[pool.len() - 1].0 == h);
            }
        }
    }
}

/// A peer that already knows every hash of the pool learns nothing from
/// it and is sent nothing.
pub proof fn lemma_all_known(known: Seq<H256>, pool: Seq<(H256, Vec<u8>)>)
    requires
        forall|j: int| 0 <= j < pool.len() ==> known.contains(#[trigger] pool[j].0),
    ensures
        learn(known, pool) == known,
        unknown_txs(known, pool).len() == 0,
    decreases pool.len(),
{
    if pool.len() > 0 {
        let p = pool.drop_last();
        assert forall|j: int| 0 <= j < p.len() implies known.contains(#[trigger] p[j].0) by {
            assert(p[j] == pool[j]);
        }
        lemma_all_known(known, p);
        assert(known.contains(pool[pool.len() - 1].0));
    }
}

/// One `Disconnect` for each id of `v`, in order.
pub open spec fn disconnects(v: Seq<PeerId>) -> Seq<Output>
    decreases v.len(),
{
    if v.len() == 0 {
        Seq::empty()
    } else {
        disconnects(v.drop_last()).push(Output::Disconnect(v.last()))
    }
}

/// One `PeerDisconnected` for each id of `v` that is an active peer of
/// `peers`, in order.
pub open spec fn departures(peers: Seq<PeerEntry>, v: Seq<PeerId>) -> Seq<Output>
    decreases v.len(),
{
    if v.len() == 0 {
        Seq::empty()
    } else if seq_has_peer(peers, v.last()) {
        departures(peers, v.drop_last()).push(Output::PeerDisconnected(v.last()))
    } else {
        departures(peers, v.drop_last())
    }
}

/// How many peers of the table have a block request in flight.
pub open spec fn count_requesting(s: Seq<PeerEntry>) -> nat
    decreases s.len(),
{
    if s.len() == 0 {
        0
    } else {
        count_requesting(s.drop_last()) + if s.last().peer.block_request is Some {
            1nat
        } else {
            0nat
        }
    }
}


/// What handling the status `status` of `peer` does, from `p0` to `p1`
/// with outputs `r`.
pub open spec fn status_handled(p0: Protocol, p1: Protocol, peer_id: PeerId, status: Status, expired: bool, r: Seq<Output>) -> bool {
    &&& (expired || p0.has_peer(peer_id) ==> (p1.peers() == p0.peers() && p1.handshaking() == p0.handshaking() && r.len() == 0))
    &&& (!expired && !p0.has_peer(peer_id) && (status.genesis_hash != p0.spec_genesis_hash() || status.version != CURRENT_VERSION)
        ==> (p1.peers() == p0.peers() && p1.handshaking() == p0.handshaking() && r == seq![Output::Disable(peer_id)]))
    &&& (!expired && !p0.has_peer(peer_id) && status.genesis_hash == p0.spec_genesis_hash() && status.version == CURRENT_VERSION ==> ({
        &&& p1.peers().len() == p0.peers().len() + 1
        &&& p1.peers().drop_last() == p0.peers()
        &&& p1.peers().last().id == peer_id
        &&& fresh_peer(p1.peers().last().peer, status)
        &&& handshake_removed(p0.handshaking(), p1.handshaking(), peer_id)
        &&& r.len() == 2
        &&& r[0] == Output::SyncNewPeer(peer_id)
        &&& (r[1] matches Output::ConsensusNewPeer(p, roles) && p == peer_id && roles@ == status.roles@)
    }))
}

/// What handling the block request `request` of `peer` does.
pub open spec fn request_handled<C: Client>(chain: &C, p0: Protocol, p1: Protocol, peer_id: PeerId, request: BlockRequest, r: Seq<Output>) -> bool {
    &&& p1.peers() == p0.peers()
    &&& p1.handshaking() == p0.handshaking()
    &&& (servable(request.fields@) ==> (r.len() == 1 && (r[0] matches Output::Send(p, b) && p == peer_id
        && exists|resp: BlockResponse| #![trigger enc_message(Message::BlockResponse(resp))] {
            &&& b@ == enc_message(Message::BlockResponse(resp))
            &&& resp.id == request.id
            &&& resp.blocks@ == served(
                chain,
                start_id(request.from),
                spec_field_mask(request.fields@),
                response_limit(request.max) as nat,
                request.direction,
            )
            &&& resp.blocks@.len() <= response_limit(request.max)
            &&& forall|i: int| 0 <= i < resp.blocks@.len() ==> block_data_shaped(#[trigger] resp.blocks@[i], spec_field_mask(request.fields@))
        })))
    &&& (!servable(request.fields@) ==> r == seq![Output::Disable(peer_id)])
}

/// What handling the block response `response` of `peer` does: it is
/// matched against the request stored on the peer.
pub open spec fn response_handled(p0: Protocol, p1: Protocol, peer_id: PeerId, response: BlockResponse, r: Seq<Output>) -> bool {
    &&& p1.handshaking() == p0.handshaking()
    &&& same_ids(p0.peers(), p1.peers())
    &&& (!p0.has_peer(peer_id) ==> (p1.peers() == p0.peers() && r == seq![Output::Disable(peer_id)]))
    &&& forall|i: int| 0 <= i < p0.peers().len() && #[trigger] p0.peers()[i].id != peer_id ==> p1.peers()[i] == p0.peers()[i]
    &&& forall|i: int| 0 <= i < p0.peers().len() && #[trigger] p0.peers()[i].id == peer_id ==> match p0.peers()[i].peer.block_request {
        None => p1.peers() == p0.peers() && r == seq![Output::Disable(peer_id)],
        Some(req) => if req.id == response.id {
            request_taken(p0.peers()[i].peer, p1.peers()[i].peer) && r == seq![Output::BlockData(peer_id, req, response)]
        } else {
            p1.peers() == p0.peers() && r.len() == 0
        },
    }
}

/// What handling the announcement of `header` by `peer` does.
pub open spec fn announce_handled(p0: Protocol, p1: Protocol, peer_id: PeerId, header: Header, r: Seq<Output>) -> bool {
    &&& p1.handshaking() == p0.handshaking()
    &&& same_ids(p0.peers(), p1.peers())
    &&& forall|i: int| 0 <= i < p0.peers().len() ==> if #[trigger] p0.peers()[i].id == peer_id {
        same_but_known(p0.peers()[i].peer, p1.peers()[i].peer)
            && p1.peers()[i].peer.known_extrinsics == p0.peers()[i].peer.known_extrinsics
            && p1.peers()[i].peer.known_blocks@ == with_hash(p0.peers()[i].peer.known_blocks@, spec_header_hash(header))
    } else {
        p1.peers()[i] == p0.peers()[i]
    }
    &&& r == seq![Output::BlockAnnounce(peer_id, spec_header_hash(header), header)]
}

/// What handling the message `m` of `peer`, which arrived as the packet
/// `data`, does: each kind of message goes to its handler.
pub open spec fn message_handled<C: Client>(
    chain: &C,
    p0: Protocol,
    p1: Protocol,
    peer_id: PeerId,
    m: Message,
    data: Seq<u8>,
    expired: bool,
    sync_idle: bool,
    r: Seq<Output>,
) -> bool {
    match m {
        Message::Status(st) => status_handled(p0, p1, peer_id, st, expired, r),
        Message::BlockRequest(q) => request_handled(chain, p0, p1, peer_id, q, r),
        Message::BlockResponse(resp) => response_handled(p0, p1, peer_id, resp, r),
        Message::BlockAnnounce(a) => announce_handled(p0, p1, peer_id, a.header, r),
        Message::BftMessage(x) => p1.peers() == p0.peers() && p1.handshaking() == p0.handshaking()
            && r == seq![Output::BftMessage(peer_id, x, spec_blake2_256(data))],
        Message::Extrinsics(l) => p1.peers() == p0.peers() && p1.handshaking() == p0.handshaking()
            && r == (if sync_idle && p0.has_peer(peer_id) {
                seq![Output::ImportExtrinsics(peer_id, l)]
            } else {
                Seq::<Output>::empty()
            }),
        Message::ChainSpecific(x) => p1.peers() == p0.peers() && p1.handshaking() == p0.handshaking()
            && r == seq![Output::ChainSpecific(peer_id, x)],
    }
}

/// The handler of the chain synchronization protocol.
pub struct Protocol {
    config: ProtocolConfig,
    genesis_hash: H256,
    peers: Vec<PeerEntry>,
    handshaking: Vec<Handshake>,
}

impl Protocol {
    /// The active peers, in the order they became active.
    pub closed spec fn peers(&self) -> Seq<PeerEntry> {
        self.peers@
    }

    /// The peers that still owe their status.
    pub closed spec fn handshaking(&self) -> Seq<Handshake> {
        self.handshaking@
    }

    pub closed spec fn spec_genesis_hash(&self) -> H256 {
        self.genesis_hash
    }

    pub closed spec fn spec_roles(&self) -> Seq<Role> {
        self.config.roles@
    }

    pub open spec fn has_peer(&self, id: PeerId) -> bool {
        seq_has_peer(self.peers(), id)
    }

    pub open spec fn is_handshaking(&self, id: PeerId) -> bool {
        seq_has_handshake(self.handshaking(), id)
    }

    /// The state of the peer `id`, which must be active.
    pub open spec fn peer(&self, id: PeerId) -> Peer {
        self.peers()[choose|i: int| 0 <= i < self.peers().len() && self.peers()[i].id == id].peer
    }

    /// The invariants that every reachable state keeps.
    pub open spec fn wf(&self) -> bool {
        &&& peer_ids_unique(self.peers())
        &&& handshake_ids_unique(self.handshaking())
        &&& forall|id: PeerId|
            !(#[trigger] seq_has_peer(self.peers(), id) && seq_has_handshake(self.handshaking(), id))
        &&& forall|i: int|
            0 <= i < self.peers().len() ==> request_stamped(#[trigger] self.peers()[i].peer)
    }

    /// Creates a handler for a chain with the given genesis hash.
    pub fn new(config: ProtocolConfig, genesis_hash: H256) -> (r: Protocol)
        ensures
            r.wf(),
            r.peers().len() == 0,
            r.handshaking().len() == 0,
            r.spec_genesis_hash() == genesis_hash,
            r.spec_roles() == config.roles@,
    {
        Protocol { config, genesis_hash, peers: Vec::new(), handshaking: Vec::new() }
    }

    fn find_peer(&self, id: PeerId) -> (r: Option<usize>)
        ensures
            r matches Some(i) ==> i < self.peers().len() && self.peers()[i as int].id == id,
            r is None ==> !self.has_peer(id),
    {
        let mut i: usize = 0;
        while i < self.peers.len()
            invariant
                i <= self.peers@.len(),
                forall|k: int| 0 <= k < i ==> self.peers@[k].id != id,
            decreases self.peers@.len() - i,
        {
            if self.peers[i].id == id {
                return Some(i);
            }
            i = i + 1;
        }
        None
    }

    fn find_handshake(&self, id: PeerId) -> (r: Option<usize>)
        ensures
            r matches Some(i) ==> i < self.handshaking().len() && self.handshaking()[i as int].id
                == id,
            r is None ==> !self.is_handshaking(id),
    {
        let mut i: usize = 0;
        while i < self.handshaking.len()
            invariant
                i <= self.handshaking@.len(),
                forall|k: int| 0 <= k < i ==> self.handshaking@[k].id != id,
            decreases self.handshaking@.len() - i,
        {
            if self.handshaking[i].id == id {
                return Some(i);
            }
            i = i + 1;
        }
        None
    }

    /// Whether the two handlers share genesis hash and configuration.
    pub closed spec fn same_setup(&self, o: &Protocol) -> bool {
        self.genesis_hash == o.genesis_hash && self.config.roles@ == o.config.roles@
    }

    /// Encodes a message for `peer_id`. A block request to an active peer is
    /// stamped first: it takes the peer's next request id, and is stored on
    /// the peer as its request in flight, sent at `now`.
    pub fn send_message(&mut self, peer_id: PeerId, message: Message, now: u64) -> (r: Vec<u8>)
        requires
            old(self).wf(),
        ensures
            final(self).wf(),
            final(self).same_setup(old(self)),
            final(self).handshaking() == old(self).handshaking(),
            same_ids(old(self).peers(), final(self).peers()),
            (match message {
                Message::BlockRequest(req) => {
                    &&& forall|i: int|
                        0 <= i < old(self).peers().len() ==> if #[trigger] old(self).peers()[i].id
                            == peer_id {
                            &&& stamped(old(self).peers()[i].peer, final(self).peers()[i].peer, req, now)
                            &&& r@ == enc_message(
                                Message::BlockRequest(
                                    with_id(req, old(self).peers()[i].peer.next_request_id),
                                ),
                            )
                        } else {
                            final(self).peers()[i] == old(self).peers()[i]
                        }
                    &&& !old(self).has_peer(peer_id) ==> r@ == enc_message(message)
                },
                _ => final(self).peers() == old(self).peers() && r@ == enc_message(message),
            }),
    {
        match message {
            Message::BlockRequest(req) => {
                match self.find_peer(peer_id) {
                    Some(i) => {
                        let ghost old_peers = self.peers@;
                        let mut e = self.peers.remove(i);
                        let mut sent = req;
                        sent.id = e.peer.next_request_id;
                        let bytes = encode_request(&sent);
                        e.peer.next_request_id = e.peer.next_request_id.wrapping_add(1);
                        e.peer.block_request = Some(sent);
                        e.peer.request_timestamp = Some(now);
                        self.peers.insert(i, e);
                        proof {
                            assert(self.peers@ =~= old_peers.update(i as int, e));
                            assert(same_ids(old_peers, self.peers@));
                            lemma_same_ids(old_peers, self.peers@);
                            assert forall|k: int| 0 <= k < old_peers.len() && #[trigger] old_peers[k].id == peer_id implies k == i by {
                                if k != i {
                                    assert(old_peers[i as int].id == peer_id);
                                }
                            }
                        }
                        bytes
                    },
                    None => encode(&Message::BlockRequest(req)),
                }
            },
            _ => encode(&message),
        }
    }

    /// Records that `peer_id` connected at `now`, and sends it the local
    /// status if the chain reported `info`. A peer that is already active is
    /// not recorded again.
    pub fn on_peer_connected(
        &mut self,
        peer_id: PeerId,
        now: u64,
        info: Option<ChainInfo>,
        chain_status: Vec<u8>,
    ) -> (r: Vec<Output>)
        requires
            old(self).wf(),
        ensures
            final(self).wf(),
            final(self).same_setup(old(self)),
            final(self).peers() == old(self).peers(),
            old(self).has_peer(peer_id) ==> final(self).handshaking() == old(self).handshaking(),
            !old(self).has_peer(peer_id) ==> handshake_recorded(
                old(self).handshaking(),
                final(self).handshaking(),
                peer_id,
                now,
            ),
            info is None ==> r@.len() == 0,
            info matches Some(ci) ==> r@.len() == 1 && (r@[0] matches Output::Send(p, b) && p
                == peer_id && exists|s: Status|
                local_status(s, ci, old(self).spec_roles(), chain_status@) && b@ == enc_message(
                    Message::Status(s),
                )),
    {
        if self.find_peer(peer_id).is_none() {
            let ghost old_hs = self.handshaking@;
            let h = Handshake { id: peer_id, since: now };
            match self.find_handshake(peer_id) {
                Some(k) => {
                    self.handshaking.set(k, h);
                    proof {
                        assert(handshake_ids_unique(self.handshaking@)) by {
                            assert forall|i: int, j: int| 0 <= i < j < self.handshaking@.len() implies self.handshaking@[i].id != self.handshaking@[j].id by {
                                assert(old_hs[i].id == self.handshaking@[i].id);
                                assert(old_hs[j].id == self.handshaking@[j].id);
                            }
                        }
                        assert forall|id: PeerId| seq_has_handshake(self.handshaking@, id) implies seq_has_handshake(old_hs, id) by {
                            let i = choose|i: int| 0 <= i < self.handshaking@.len() && #[trigger] self.handshaking@[i].id == id;
                            assert(old_hs[i].id == id);
                        }
                    }
                },
                None => {
                    self.handshaking.push(h);
                    proof {
                        assert forall|id: PeerId| #[trigger] seq_has_handshake(self.handshaking@, id) && id != peer_id implies seq_has_handshake(old_hs, id) by {
                            let i = choose|i: int| 0 <= i < self.handshaking@.len() && #[trigger] self.handshaking@[i].id == id;
                            assert(old_hs[i].id == id);
                        }
                    }
                },
            }
        }
        let mut out: Vec<Output> = Vec::new();
        match info {
            Some(ci) => {
                let status = Status {
                    version: CURRENT_VERSION,
                    genesis_hash: ci.genesis_hash,
                    roles: copy_roles(&self.config.roles),
                    best_number: ci.best_number,
                    best_hash: ci.best_hash,
                    authority_signature: None,
                    authority_id: None,
                    chain_status,
                };
                let ghost gs = status;
                let bytes = encode(&Message::Status(status));
                assert(local_status(gs, ci, self.config.roles@, chain_status@) && bytes@
                    == enc_message(Message::Status(gs)));
                assert(exists|s: Status|
                    local_status(s, ci, self.config.roles@, chain_status@) && bytes@
                        == enc_message(Message::Status(s)));
                out.push(Output::Send(peer_id, bytes));
                assert(out@[0] matches Output::Send(p, b) && p == peer_id && exists|s: Status|
                    local_status(s, ci, self.config.roles@, chain_status@) && b@ == enc_message(
                        Message::Status(s),
                    ));
                assert(self.config.roles@ == old(self).spec_roles());
            },
            None => {},
        }
        out
    }

    /// Forgets `peer_id`. If it was active, consensus and the block download
    /// are told.
    pub fn on_peer_disconnected(&mut self, peer_id: PeerId) -> (r: Vec<Output>)
        requires
            old(self).wf(),
        ensures
            final(self).wf(),
            final(self).same_setup(old(self)),
            peer_removed(old(self).peers(), final(self).peers(), peer_id),
            handshake_removed(old(self).handshaking(), final(self).handshaking(), peer_id),
            !final(self).has_peer(peer_id),
            !final(self).is_handshaking(peer_id),
            forall|id: PeerId| id != peer_id ==> (final(self).has_peer(id) == old(self).has_peer(id)
                && final(self).is_handshaking(id) == old(self).is_handshaking(id)),
            r@ == (if old(self).has_peer(peer_id) {
                seq![Output::PeerDisconnected(peer_id)]
            } else {
                Seq::<Output>::empty()
            }),
    {
        let ghost old_hs = self.handshaking@;
        let ghost old_peers = self.peers@;
        match self.find_handshake(peer_id) {
            Some(k) => {
                self.handshaking.remove(k);
                proof {
                    lemma_remove_handshake(old_hs, k as int);
                }
            },
            None => {},
        }
        let mut out: Vec<Output> = Vec::new();
        match self.find_peer(peer_id) {
            Some(k) => {
                self.peers.remove(k);
                proof {
                    lemma_remove_peer(old_peers, k as int);
                    assert forall|i: int| 0 <= i < self.peers@.len() implies request_stamped(#[trigger] self.peers@[i].peer) by {
                        if i < k {
                            assert(self.peers@[i] == old_peers[i]);
                        } else {
                            assert(self.peers@[i] == old_peers[i + 1]);
                        }
                    }
                }
                out.push(Output::PeerDisconnected(peer_id));
            },
            None => {},
        }
        assert forall|id: PeerId| !(#[trigger] seq_has_peer(self.peers@, id) && seq_has_handshake(self.handshaking@, id)) by {
            if seq_has_peer(self.peers@, id) && seq_has_handshake(self.handshaking@, id) {
                assert(seq_has_peer(old_peers, id));
                assert(seq_has_handshake(old_hs, id));
            }
        }
        assert(out@ =~= (if old_peers.len() > 0 && seq_has_peer(old_peers, peer_id) {
            seq![Output::PeerDisconnected(peer_id)]
        } else {
            Seq::<Output>::empty()
        }));
        out
    }

    /// Handles the status of a peer. A status on an expired session, or from
    /// a peer that is already active, is dropped; one with another genesis
    /// hash or another protocol version disables the peer. Otherwise the
    /// peer becomes active, leaves the handshaking table, and the block
    /// download and consensus are told.
    pub fn on_status_message(&mut self, peer_id: PeerId, status: Status, expired: bool) -> (r: Vec<Output>)
        requires
            old(self).wf(),
        ensures
            final(self).wf(),
            final(self).same_setup(old(self)),
            expired || old(self).has_peer(peer_id) ==> (final(self).peers() == old(self).peers()
                && final(self).handshaking() == old(self).handshaking() && r@.len() == 0),
            !expired && !old(self).has_peer(peer_id) && (status.genesis_hash
                != old(self).spec_genesis_hash() || status.version != CURRENT_VERSION) ==> (final(self).peers()
                == old(self).peers() && final(self).handshaking() == old(self).handshaking() && r@
                == seq![Output::Disable(peer_id)]),
            !expired && !old(self).has_peer(peer_id) && status.genesis_hash
                == old(self).spec_genesis_hash() && status.version == CURRENT_VERSION ==> ({
                &&& final(self).peers().len() == old(self).peers().len() + 1
                &&& final(self).peers().drop_last() == old(self).peers()
                &&& final(self).peers().last().id == peer_id
                &&& fresh_peer(final(self).peers().last().peer, status)
                &&& handshake_removed(old(self).handshaking(), final(self).handshaking(), peer_id)
                &&& r@.len() == 2
                &&& r@[0] == Output::SyncNewPeer(peer_id)
                &&& (r@[1] matches Output::ConsensusNewPeer(p, roles) && p == peer_id && roles@
                    == status.roles@)
            }),
            status_handled(*old(self), *final(self), peer_id, status, expired, r@),
    {
        let mut out: Vec<Output> = Vec::new();
        if expired {
            return out;
        }
        if self.find_peer(peer_id).is_some() {
            return out;
        }
        if status.genesis_hash != self.genesis_hash || status.version != CURRENT_VERSION {
            out.push(Output::Disable(peer_id));
            return out;
        }
        let ghost old_hs = self.handshaking@;
        let ghost old_peers = self.peers@;
        let roles = copy_roles(&status.roles);
        let peer = Peer {
            protocol_version: status.version,
            roles: status.roles,
            best_hash: status.best_hash,
            best_number: status.best_number,
            block_request: None,
            request_timestamp: None,
            known_extrinsics: Vec::new(),
            known_blocks: Vec::new(),
            next_request_id: 0,
        };
        match self.find_handshake(peer_id) {
            Some(k) => {
                self.handshaking.remove(k);
                proof {
                    lemma_remove_handshake(old_hs, k as int);
                }
            },
            None => {},
        }
        self.peers.push(PeerEntry { id: peer_id, peer });
        proof {
            assert(self.peers@.drop_last() =~= old_peers);
            assert forall|id: PeerId| seq_has_peer(self.peers@, id) implies (seq_has_peer(old_peers, id) || id == peer_id) by {
                let i = choose|i: int| 0 <= i < self.peers@.len() && #[trigger] self.peers@[i].id == id;
                if i < old_peers.len() {
                    assert(old_peers[i].id == id);
                }
            }
            assert forall|i: int, j: int| 0 <= i < j < self.peers@.len() implies self.peers@[i].id != self.peers@[j].id by {
                if j == old_peers.len() {
                    assert(old_peers[i].id == self.peers@[i].id);
                    assert(seq_has_peer(old_peers, old_peers[i].id));
                } else {
                    assert(old_peers[i].id == self.peers@[i].id);
                    assert(old_peers[j].id == self.peers@[j].id);
                }
            }
            assert forall|i: int| 0 <= i < self.peers@.len() implies request_stamped(#[trigger] self.peers@[i].peer) by {
                if i < old_peers.len() {
                    assert(self.peers@[i] == old_peers[i]);
                }
            }
        }
        assert forall|id: PeerId| !(#[trigger] seq_has_peer(self.peers@, id) && seq_has_handshake(self.handshaking@, id)) by {
            if seq_has_peer(self.peers@, id) && seq_has_handshake(self.handshaking@, id) {
                assert(seq_has_handshake(old_hs, id));
                if id != peer_id {
                    assert(seq_has_peer(old_peers, id));
                }
            }
        }
        out.push(Output::SyncNewPeer(peer_id));
        out.push(Output::ConsensusNewPeer(peer_id, roles));
        out
    }


    /// Serves a block request of `peer_id` from the local chain. A request
    /// for a reserved field disables the peer.
    pub fn on_block_request<C: Client>(&self, chain: &C, peer_id: PeerId, request: BlockRequest) -> (r: Vec<Output>)
        ensures
            servable(request.fields@) ==> (r@.len() == 1 && (r@[0] matches Output::Send(p, b) && p
                == peer_id && exists|resp: BlockResponse|
                #![trigger enc_message(Message::BlockResponse(resp))]
                {
                    &&& b@ == enc_message(Message::BlockResponse(resp))
                    &&& resp.id == request.id
                    &&& resp.blocks@ == served(
                        chain,
                        start_id(request.from),
                        spec_field_mask(request.fields@),
                        response_limit(request.max) as nat,
                        request.direction,
                    )
                    &&& resp.blocks@.len() <= response_limit(request.max)
                    &&& forall|i: int|
                        0 <= i < resp.blocks@.len() ==> block_data_shaped(
                            #[trigger] resp.blocks@[i],
                            spec_field_mask(request.fields@),
                        )
                })),
            !servable(request.fields@) ==> r@ == seq![Output::Disable(peer_id)],
            request_handled(chain, *self, *self, peer_id, request, r@),
    {
        let mut out: Vec<Output> = Vec::new();
        match serve_blocks(chain, &request) {
            Some(resp) => {
                let bytes = encode_response(&resp);
                out.push(Output::Send(peer_id, bytes));
            },
            None => out.push(Output::Disable(peer_id)),
        }
        out
    }

    /// Matches a block response of `peer_id` with the request in flight. A
    /// response from a peer that is not active, or with nothing in flight,
    /// disables the peer. One under another id is stale: it is dropped, and
    /// the request stays in flight. One under the request's id takes the
    /// request away and goes, with it, to the block download.
    pub fn on_block_response(&mut self, peer_id: PeerId, response: BlockResponse) -> (r: Vec<Output>)
        requires
            old(self).wf(),
        ensures
            final(self).wf(),
            final(self).same_setup(old(self)),
            final(self).handshaking() == old(self).handshaking(),
            same_ids(old(self).peers(), final(self).peers()),
            !old(self).has_peer(peer_id) ==> (final(self).peers() == old(self).peers() && r@ == seq![
                Output::Disable(peer_id),
            ]),
            forall|i: int|
                0 <= i < old(self).peers().len() && #[trigger] old(self).peers()[i].id != peer_id
                    ==> final(self).peers()[i] == old(self).peers()[i],
            forall|i: int|
                0 <= i < old(self).peers().len() && #[trigger] old(self).peers()[i].id == peer_id
                    ==> match old(self).peers()[i].peer.block_request {
                    None => final(self).peers() == old(self).peers() && r@ == seq![
                        Output::Disable(peer_id),
                    ],
                    Some(req) => if req.id == response.id {
                        request_taken(old(self).peers()[i].peer, final(self).peers()[i].peer) && r@
                            == seq![Output::BlockData(peer_id, req, response)]
                    } else {
                        final(self).peers() == old(self).peers() && r@.len() == 0
                    },
                },
            response_handled(*old(self), *final(self), peer_id, response, r@),
    {
        let mut out: Vec<Output> = Vec::new();
        let i = match self.find_peer(peer_id) {
            Some(i) => i,
            None => {
                out.push(Output::Disable(peer_id));
                return out;
            },
        };
        let ghost old_peers = self.peers@;
        proof {
            assert forall|k: int| 0 <= k < old_peers.len() && #[trigger] old_peers[k].id == peer_id implies k == i by {
                if k != i {
                    assert(old_peers[i as int].id == peer_id);
                }
            }
        }
        let matches = match &self.peers[i].peer.block_request {
            None => {
                out.push(Output::Disable(peer_id));
                return out;
            },
            Some(req) => req.id == response.id,
        };
        if !matches {
            return out;
        }
        let mut e = self.peers.remove(i);
        let req = match e.peer.block_request.take() {
            Some(req) => req,
            None => {
                return out;
            },
        };
        e.peer.request_timestamp = None;
        self.peers.insert(i, e);
        proof {
            assert(self.peers@ =~= old_peers.update(i as int, e));
            assert(same_ids(old_peers, self.peers@));
            lemma_same_ids(old_peers, self.peers@);
        }
        out.push(Output::BlockData(peer_id, req, response));
        out
    }

    /// Handles a block announcement of `peer_id`: the block becomes known to
    /// the peer, if it is active, and the header goes to the block download.
    pub fn on_block_announce(&mut self, peer_id: PeerId, header: Header) -> (r: Vec<Output>)
        requires
            old(self).wf(),
        ensures
            final(self).wf(),
            final(self).same_setup(old(self)),
            final(self).handshaking() == old(self).handshaking(),
            same_ids(old(self).peers(), final(self).peers()),
            forall|i: int|
                0 <= i < old(self).peers().len() ==> if #[trigger] old(self).peers()[i].id == peer_id {
                    same_but_known(old(self).peers()[i].peer, final(self).peers()[i].peer)
                        && final(self).peers()[i].peer.known_extrinsics == old(self).peers()[i].peer.known_extrinsics
                        && final(self).peers()[i].peer.known_blocks@ == with_hash(
                        old(self).peers()[i].peer.known_blocks@,
                        spec_header_hash(header),
                    )
                } else {
                    final(self).peers()[i] == old(self).peers()[i]
                },
            r@ == seq![Output::BlockAnnounce(peer_id, spec_header_hash(header), header)],
            announce_handled(*old(self), *final(self), peer_id, header, r@),
    {
        let hash = header_hash(&header);
        match self.find_peer(peer_id) {
            Some(i) => {
                let ghost old_peers = self.peers@;
                let mut e = self.peers.remove(i);
                add_hash(&mut e.peer.known_blocks, hash);
                self.peers.insert(i, e);
                proof {
                    assert(self.peers@ =~= old_peers.update(i as int, e));
                    assert(same_ids(old_peers, self.peers@));
                    lemma_same_ids(old_peers, self.peers@);
                    assert forall|k: int| 0 <= k < old_peers.len() && #[trigger] old_peers[k].id == peer_id implies k == i by {
                        if k != i {
                            assert(old_peers[i as int].id == peer_id);
                        }
                    }
                }
            },
            None => {},
        }
        let mut out: Vec<Output> = Vec::new();
        out.push(Output::BlockAnnounce(peer_id, hash, header));
        out
    }

    /// Handles transactions that `peer_id` sent. They are offered to the
    /// pool only when the block download is idle and the peer is active.
    pub fn on_extrinsics(&self, peer_id: PeerId, extrinsics: Vec<Vec<u8>>, sync_idle: bool) -> (r: Vec<Output>)
        ensures
            r@ == (if sync_idle && self.has_peer(peer_id) {
                seq![Output::ImportExtrinsics(peer_id, extrinsics)]
            } else {
                Seq::<Output>::empty()
            }),
    {
        let mut out: Vec<Output> = Vec::new();
        if sync_idle && self.find_peer(peer_id).is_some() {
            out.push(Output::ImportExtrinsics(peer_id, extrinsics));
        }
        assert(out@ =~= (if sync_idle && self.has_peer(peer_id) {
            seq![Output::ImportExtrinsics(peer_id, extrinsics)]
        } else {
            Seq::<Output>::empty()
        }));
        out
    }

    /// Records that `peer_id` knows the transactions with these hashes: the
    /// ones that the pool accepted from it.
    pub fn note_extrinsics(&mut self, peer_id: PeerId, hashes: &Vec<H256>)
        requires
            old(self).wf(),
        ensures
            final(self).wf(),
            final(self).same_setup(old(self)),
            final(self).handshaking() == old(self).handshaking(),
            same_ids(old(self).peers(), final(self).peers()),
            forall|i: int|
                0 <= i < old(self).peers().len() ==> if #[trigger] old(self).peers()[i].id == peer_id {
                    same_but_known(old(self).peers()[i].peer, final(self).peers()[i].peer)
                        && final(self).peers()[i].peer.known_blocks == old(self).peers()[i].peer.known_blocks
                        && final(self).peers()[i].peer.known_extrinsics@ == with_hashes(
                        old(self).peers()[i].peer.known_extrinsics@,
                        hashes@,
                    )
                } else {
                    final(self).peers()[i] == old(self).peers()[i]
                },
    {
        match self.find_peer(peer_id) {
            Some(i) => {
                let ghost old_peers = self.peers@;
                let mut e = self.peers.remove(i);
                let ghost start = e.peer.known_extrinsics@;
                let mut j: usize = 0;
                while j < hashes.len()
                    invariant
                        j <= hashes@.len(),
                        e.peer.known_extrinsics@ == with_hashes(start, hashes@.subrange(0, j as int)),
                        e.id == old_peers[i as int].id,
                        same_but_known(old_peers[i as int].peer, e.peer),
                        e.peer.known_blocks == old_peers[i as int].peer.known_blocks,
                    decreases hashes@.len() - j,
                {
                    add_hash(&mut e.peer.known_extrinsics, hashes[j]);
                    proof {
                        assert(hashes@.subrange(0, j + 1).drop_last() =~= hashes@.subrange(0, j as int));
                    }
                    j = j + 1;
                }
                assert(hashes@.subrange(0, j as int) =~= hashes@);
                self.peers.insert(i, e);
                proof {
                    assert(self.peers@ =~= old_peers.update(i as int, e));
                    assert(same_ids(old_peers, self.peers@));
                    lemma_same_ids(old_peers, self.peers@);
                    assert forall|k: int| 0 <= k < old_peers.len() && #[trigger] old_peers[k].id == peer_id implies k == i by {
                        if k != i {
                            assert(old_peers[i as int].id == peer_id);
                        }
                    }
                }
            },
            None => {},
        }
    }

    /// Handles one message from `peer_id`, which arrived as the packet
    /// `data`. `expired` is whether the session has expired,
    /// and `sync_idle` whether the block download is idle.
    pub fn handle_message<C: Client>(
        &mut self,
        chain: &C,
        peer_id: PeerId,
        message: Message,
        data: &[u8],
        expired: bool,
        sync_idle: bool,
    ) -> (r: Vec<Output>)
        requires
            old(self).wf(),
        ensures
            final(self).wf(),
            final(self).same_setup(old(self)),
            forall|k: int|
                0 <= k < r@.len() ==> (#[trigger] r@[k] matches Output::BlockData(p, req, resp) ==> p
                    == peer_id && req.id == resp.id),
            message matches Message::BftMessage(x) ==> final(self).peers() == old(self).peers()
                && final(self).handshaking() == old(self).handshaking() && r@ == seq![
                Output::BftMessage(peer_id, x, spec_blake2_256(data@)),
            ],
            message matches Message::ChainSpecific(x) ==> final(self).peers() == old(self).peers()
                && final(self).handshaking() == old(self).handshaking() && r@ == seq![
                Output::ChainSpecific(peer_id, x),
            ],
            message matches Message::Extrinsics(l) ==> final(self).peers() == old(self).peers()
                && final(self).handshaking() == old(self).handshaking() && r@ == (if sync_idle
                && old(self).has_peer(peer_id) {
                seq![Output::ImportExtrinsics(peer_id, l)]
            } else {
                Seq::<Output>::empty()
            }),
            message matches Message::BlockAnnounce(a) ==> r@ == seq![
                Output::BlockAnnounce(peer_id, spec_header_hash(a.header), a.header),
            ],
            message matches Message::BlockRequest(q) ==> final(self).peers() == old(self).peers()
                && final(self).handshaking() == old(self).handshaking() && (servable(q.fields@)
                <==> !(r@ == seq![Output::Disable(peer_id)])),
            message matches Message::Status(st) ==> (!expired && !old(self).has_peer(peer_id)
                && st.genesis_hash == old(self).spec_genesis_hash() && st.version == CURRENT_VERSION
                <==> final(self).has_peer(peer_id) && !old(self).has_peer(peer_id)),
            message_handled(chain, *old(self), *final(self), peer_id, message, data@, expired, sync_idle, r@),
    {
        match message {
            Message::Status(s) => {
                let ghost s0 = *self;
                let out = self.on_status_message(peer_id, s, expired);
                proof {
                    if self.has_peer(peer_id) && !s0.has_peer(peer_id) {
                        if expired || s.genesis_hash != s0.spec_genesis_hash() || s.version != CURRENT_VERSION {
                            assert(self.peers() == s0.peers());
                        }
                    }
                    if !expired && !s0.has_peer(peer_id) && s.genesis_hash == s0.spec_genesis_hash()
                        && s.version == CURRENT_VERSION {
                        assert(self.peers()[self.peers().len() - 1].id == peer_id);
                    }
                }
                out
            },
            Message::BlockRequest(req) => {
                let ghost fields = req.fields@;
                let out = self.on_block_request(chain, peer_id, req);
                proof {
                    if servable(fields) {
                        assert(out@[0] is Send);
                    }
                }
                out
            },
            Message::BlockResponse(resp) => {
                let ghost s0 = *self;
                let out = self.on_block_response(peer_id, resp);
                proof {
                    if s0.has_peer(peer_id) {
                        let i = choose|i: int| 0 <= i < s0.peers().len() && #[trigger] s0.peers()[i].id == peer_id;
                        assert(s0.peers()[i].id == peer_id);
                    }
                }
                out
            },
            Message::BlockAnnounce(a) => self.on_block_announce(peer_id, a.header),
            Message::BftMessage(m) => {
                let hash = blake2_256(data);
                let mut out: Vec<Output> = Vec::new();
                out.push(Output::BftMessage(peer_id, m, hash));
                out
            },
            Message::Extrinsics(l) => self.on_extrinsics(peer_id, l, sync_idle),
            Message::ChainSpecific(d) => {
                let mut out: Vec<Output> = Vec::new();
                out.push(Output::ChainSpecific(peer_id, d));
                out
            },
        }
    }

    /// Handles one packet from `peer_id`. Bytes that encode no message
    /// disable the peer; a message goes to `handle_message`. A response is
    /// handed on only with the request that it answers.
    pub fn handle_packet<C: Client>(
        &mut self,
        chain: &C,
        peer_id: PeerId,
        data: &[u8],
        expired: bool,
        sync_idle: bool,
    ) -> (r: Vec<Output>)
        requires
            old(self).wf(),
        ensures
            final(self).wf(),
            final(self).same_setup(old(self)),
            (forall|m: Message| enc_message(m) != data@) ==> (r@ == seq![Output::Disable(peer_id)]
                && final(self).peers() == old(self).peers() && final(self).handshaking() == old(
                self).handshaking()),
            forall|k: int|
                0 <= k < r@.len() ==> (#[trigger] r@[k] matches Output::BlockData(p, req, resp) ==> p
                    == peer_id && req.id == resp.id),
            (exists|m: Message| enc_message(m) == data@) ==> exists|m: Message|
                #[trigger] enc_message(m) == data@ && message_handled(
                    chain,
                    *old(self),
                    *final(self),
                    peer_id,
                    m,
                    data@,
                    expired,
                    sync_idle,
                    r@,
                ),
    {
        match decode(data) {
            Some(m) => {
                let ghost gm = m;
                let out = self.handle_message(chain, peer_id, m, data, expired, sync_idle);
                assert(enc_message(gm) == data@);
                out
            },
            None => {
                let mut out: Vec<Output> = Vec::new();
                out.push(Output::Disable(peer_id));
                out
            },
        }
    }

    /// Sends each active peer the transactions of `pool` (hash and bytes)
    /// whose hashes it does not know yet, as one message, and records them
    /// as known. Nothing happens unless the block download is idle.
    pub fn propagate_extrinsics(&mut self, sync_idle: bool, pool: &Vec<(H256, Vec<u8>)>) -> (r: Vec<Output>)
        requires
            old(self).wf(),
        ensures
            final(self).wf(),
            final(self).same_setup(old(self)),
            final(self).handshaking() == old(self).handshaking(),
            !sync_idle ==> final(self).peers() == old(self).peers() && r@.len() == 0,
            sync_idle ==> ({
                &&& same_ids(old(self).peers(), final(self).peers())
                &&& forall|i: int|
                    0 <= i < old(self).peers().len() ==> {
                        &&& same_but_known(old(self).peers()[i].peer, #[trigger] final(self).peers()[i].peer)
                        &&& final(self).peers()[i].peer.known_blocks == old(self).peers()[i].peer.known_blocks
                        &&& final(self).peers()[i].peer.known_extrinsics@ == learn(
                            old(self).peers()[i].peer.known_extrinsics@,
                            pool@,
                        )
                    }
                &&& forall|i: int, j: int|
                    #![trigger final(self).peers()[i], pool@[j]]
                    0 <= i < final(self).peers().len() && 0 <= j < pool@.len()
                        ==> final(self).peers()[i].peer.known_extrinsics@.contains(pool@[j].0)
                &&& r@.len() == propagation(old(self).peers(), pool@).len()
                &&& forall|k: int|
                    0 <= k < r@.len() ==> sends_extrinsics(
                        #[trigger] r@[k],
                        propagation(old(self).peers(), pool@)[k].0,
                        propagation(old(self).peers(), pool@)[k].1,
                    )
            }),
    {
        let mut out: Vec<Output> = Vec::new();
        if !sync_idle {
            return out;
        }
        let ghost old_peers = self.peers@;
        let mut i: usize = 0;
        while i < self.peers.len()
            invariant
                self.wf(),
                self.same_setup(old(self)),
                self.handshaking() == old(self).handshaking(),
                old_peers == old(self).peers(),
                same_ids(old_peers, self.peers@),
                0 <= i <= self.peers@.len(),
                forall|k: int|
                    i <= k < self.peers@.len() ==> #[trigger] self.peers@[k] == old_peers[k],
                forall|k: int|
                    0 <= k < i ==> {
                        &&& same_but_known(old_peers[k].peer, #[trigger] self.peers@[k].peer)
                        &&& self.peers@[k].peer.known_blocks == old_peers[k].peer.known_blocks
                        &&& self.peers@[k].peer.known_extrinsics@ == learn(
                            old_peers[k].peer.known_extrinsics@,
                            pool@,
                        )
                    },
                out@.len() == propagation(old_peers.subrange(0, i as int), pool@).len(),
                forall|k: int|
                    0 <= k < out@.len() ==> sends_extrinsics(
                        #[trigger] out@[k],
                        propagation(old_peers.subrange(0, i as int), pool@)[k].0,
                        propagation(old_peers.subrange(0, i as int), pool@)[k].1,
                    ),
            decreases self.peers@.len() - i,
        {
            let ghost before = self.peers@;
            let mut e = self.peers.remove(i);
            let ghost start = e.peer.known_extrinsics@;
            let mut sent: Vec<Vec<u8>> = Vec::new();
            let mut j: usize = 0;
            while j < pool.len()
                invariant
                    j <= pool@.len(),
                    e.peer.known_extrinsics@ == learn(start, pool@.subrange(0, j as int)),
                    byte_views(sent@) == unknown_txs(start, pool@.subrange(0, j as int)),
                    e.id == before[i as int].id,
                    same_but_known(before[i as int].peer, e.peer),
                    e.peer.known_blocks == before[i as int].peer.known_blocks,
                decreases pool@.len() - j,
            {
                let ghost pre = pool@.subrange(0, j as int);
                let h = pool[j].0;
                proof {
                    assert(pool@.subrange(0, j + 1).drop_last() =~= pre);
                    assert(pool@.subrange(0, j + 1).last() == pool@[j as int]);
                }
                if !contains_hash(&e.peer.known_extrinsics, h) {
                    e.peer.known_extrinsics.push(h);
                    let t = copy_bytes(&pool[j].1);
                    let ghost prev = sent@;
                    sent.push(t);
                    assert(byte_views(sent@) =~= byte_views(prev).push(pool@[j as int].1@));
                }
                j = j + 1;
            }
            assert(pool@.subrange(0, j as int) =~= pool@);
            let ghost sent_view = sent@;
            let nonempty = sent.len() > 0;
            let id = e.id;
            self.peers.insert(i, e);
            proof {
                assert(self.peers@ =~= before.update(i as int, e));
                assert(same_ids(before, self.peers@));
                lemma_same_ids(before, self.peers@);
                let sub = old_peers.subrange(0, i + 1);
                assert(sub.drop_last() =~= old_peers.subrange(0, i as int));
                assert(sub.last() == old_peers[i as int]);
                assert(before[i as int] == old_peers[i as int]);
            }
            if nonempty {
                let bytes = encode(&Message::Extrinsics(sent));
                out.push(Output::Send(id, bytes));
            }
            i = i + 1;
        }
        assert(old_peers.subrange(0, i as int) =~= old_peers);
        proof {
            assert forall|i: int, j: int|
                #![trigger self.peers@[i], pool@[j]]
                0 <= i < self.peers@.len() && 0 <= j < pool@.len()
                    implies self.peers@[i].peer.known_extrinsics@.contains(pool@[j].0) by {
                lemma_learn(old_peers[i].peer.known_extrinsics@, pool@);
                assert(known_or_pooled(old_peers[i].peer.known_extrinsics@, pool@, pool@[j].0));
            }
        }
        out
    }

    /// Tells every active peer that did not know block `hash` of it, with the
    /// full header, and records it as known to all of them.
    pub fn on_block_imported(&mut self, hash: H256, header: &Header) -> (r: Vec<Output>)
        requires
            old(self).wf(),
        ensures
            final(self).wf(),
            final(self).same_setup(old(self)),
            final(self).handshaking() == old(self).handshaking(),
            same_ids(old(self).peers(), final(self).peers()),
            forall|i: int|
                0 <= i < old(self).peers().len() ==> {
                    &&& same_but_known(old(self).peers()[i].peer, #[trigger] final(self).peers()[i].peer)
                    &&& final(self).peers()[i].peer.known_extrinsics == old(self).peers()[i].peer.known_extrinsics
                    &&& final(self).peers()[i].peer.known_blocks@ == with_hash(
                        old(self).peers()[i].peer.known_blocks@,
                        hash,
                    )
                },
            forall|i: int|
                0 <= i < final(self).peers().len() ==> #[trigger] final(self).peers()[i].peer.known_blocks@.contains(hash),
            r@.len() == announce_targets(old(self).peers(), hash).len(),
            forall|k: int|
                0 <= k < r@.len() ==> (#[trigger] r@[k] matches Output::Send(p, b) && p
                    == announce_targets(old(self).peers(), hash)[k] && b@ == enc_message(
                    Message::BlockAnnounce(BlockAnnounce { header: *header }),
                )),
    {
        let mut out: Vec<Output> = Vec::new();
        let announce = crate::codec::encode_announce(header);
        let ghost old_peers = self.peers@;
        let mut i: usize = 0;
        while i < self.peers.len()
            invariant
                self.wf(),
                self.same_setup(old(self)),
                self.handshaking() == old(self).handshaking(),
                old_peers == old(self).peers(),
                same_ids(old_peers, self.peers@),
                0 <= i <= self.peers@.len(),
                announce@ == enc_message(Message::BlockAnnounce(BlockAnnounce { header: *header })),
                forall|k: int|
                    i <= k < self.peers@.len() ==> #[trigger] self.peers@[k] == old_peers[k],
                forall|k: int| 0 <= k < i ==> #[trigger] self.peers@[k].peer.known_blocks@.contains(hash),
                forall|k: int|
                    0 <= k < i ==> {
                        &&& same_but_known(old_peers[k].peer, #[trigger] self.peers@[k].peer)
                        &&& self.peers@[k].peer.known_extrinsics == old_peers[k].peer.known_extrinsics
                        &&& self.peers@[k].peer.known_blocks@ == with_hash(
                            old_peers[k].peer.known_blocks@,
                            hash,
                        )
                    },
                out@.len() == announce_targets(old_peers.subrange(0, i as int), hash).len(),
                forall|k: int|
                    0 <= k < out@.len() ==> (#[trigger] out@[k] matches Output::Send(p, b) && p
                        == announce_targets(old_peers.subrange(0, i as int), hash)[k] && b@
                        == announce@),
            decreases self.peers@.len() - i,
        {
            let ghost before = self.peers@;
            let mut e = self.peers.remove(i);
            let fresh = !contains_hash(&e.peer.known_blocks, hash);
            if fresh {
                e.peer.known_blocks.push(hash);
                assert(e.peer.known_blocks@[e.peer.known_blocks@.len() - 1] == hash);
            }
            assert(e.peer.known_blocks@.contains(hash));
            let id = e.id;
            self.peers.insert(i, e);
            proof {
                assert(self.peers@ =~= before.update(i as int, e));
                assert(same_ids(before, self.peers@));
                lemma_same_ids(before, self.peers@);
                let sub = old_peers.subrange(0, i + 1);
                assert(sub.drop_last() =~= old_peers.subrange(0, i as int));
                assert(sub.last() == old_peers[i as int]);
                assert(before[i as int] == old_peers[i as int]);
            }
            if fresh {
                out.push(Output::Send(id, copy_bytes(&announce)));
            }
            i = i + 1;
        }
        assert(old_peers.subrange(0, i as int) =~= old_peers);
        out
    }


    /// The ids of the peers that time out at `now`: active peers whose
    /// request in flight, then handshaking peers whose handshake, is older
    /// than the timeout.
    fn stale_peers(&self, now: u64) -> (v: Vec<PeerId>)
        requires
            self.wf(),
        ensures
            forall|k: int| 0 <= k < v@.len() ==> stale_id(self.peers(), self.handshaking(), #[trigger] v@[k], now),
            forall|id: PeerId| stale_id(self.peers(), self.handshaking(), id, now) ==> #[trigger] v@.contains(id),
            v@.no_duplicates(),
    {
        let ghost ps = self.peers@;
        let ghost hs = self.handshaking@;
        let mut victims: Vec<PeerId> = Vec::new();
        let mut i: usize = 0;
        while i < self.peers.len()
            invariant
                ps == self.peers@,
                hs == self.handshaking@,
                peer_ids_unique(ps),
                i <= ps.len(),
                victims@.no_duplicates(),
                forall|k: int, a: int| 0 <= k < victims@.len() && i <= a < ps.len() ==> #[trigger] victims@[k] != #[trigger] ps[a].id,
                forall|k: int| 0 <= k < victims@.len() ==> seq_has_peer(ps, #[trigger] victims@[k]),
                forall|k: int| 0 <= k < victims@.len() ==> stale_id(ps, hs, #[trigger] victims@[k], now),
                forall|k: int| 0 <= k < i && stale_peer(#[trigger] ps[k], now) ==> victims@.contains(ps[k].id),
            decreases ps.len() - i,
        {
            match self.peers[i].peer.request_timestamp {
                Some(ts) => {
                    if now >= ts && (now - ts) / 1000 > REQUEST_TIMEOUT_SEC {
                        let id = self.peers[i].id;
                        assert(stale_peer(ps[i as int], now));
                        assert(stale_id(ps, hs, id, now));
                        proof {
                            lemma_push_keeps(victims@, id);
                            assert forall|k: int| 0 <= k < victims@.len() implies victims@[k] != id by {
                                assert(victims@[k] != ps[i as int].id);
                            }
                            let w = victims@.push(id);
                            assert forall|x: int, y: int| 0 <= x < w.len() && 0 <= y < w.len() && x != y implies #[trigger] w[x] != #[trigger] w[y] by {
                                if x < victims@.len() && y < victims@.len() {
                                } else if x < victims@.len() {
                                    assert(w[x] == victims@[x]);
                                } else {
                                    assert(w[y] == victims@[y]);
                                }
                            }
                        }
                        victims.push(id);
                        proof {
                            assert forall|k: int, a: int| 0 <= k < victims@.len() && i + 1 <= a < ps.len() implies #[trigger] victims@[k] != #[trigger] ps[a].id by {
                                if k == victims@.len() - 1 {
                                    assert(victims@[k] == ps[i as int].id);
                                }
                            }
                            assert forall|k: int| 0 <= k < victims@.len() implies seq_has_peer(ps, #[trigger] victims@[k]) by {
                                if k == victims@.len() - 1 {
                                    assert(ps[i as int].id == victims@[k]);
                                }
                            }
                        }
                    }
                },
                None => {},
            }
            i = i + 1;
        }
        assert forall|k: int, a: int| 0 <= k < victims@.len() && 0 <= a < hs.len() implies #[trigger] victims@[k] != #[trigger] hs[a].id by {
            assert(seq_has_peer(ps, victims@[k]));
            if victims@[k] == hs[a].id {
                assert(seq_has_handshake(hs, victims@[k]));
            }
        }
        let mut i: usize = 0;
        while i < self.handshaking.len()
            invariant
                ps == self.peers@,
                hs == self.handshaking@,
                self.wf(),
                i <= hs.len(),
                victims@.no_duplicates(),
                forall|k: int, a: int| 0 <= k < victims@.len() && i <= a < hs.len() ==> #[trigger] victims@[k] != #[trigger] hs[a].id,
                forall|k: int| 0 <= k < victims@.len() ==> stale_id(ps, hs, #[trigger] victims@[k], now),
                forall|k: int| 0 <= k < ps.len() && stale_peer(#[trigger] ps[k], now) ==> victims@.contains(ps[k].id),
                forall|k: int| 0 <= k < i && stale_handshake(#[trigger] hs[k], now) ==> victims@.contains(hs[k].id),
            decreases hs.len() - i,
        {
            let h = self.handshaking[i];
            if now >= h.since && (now - h.since) / 1000 > REQUEST_TIMEOUT_SEC {
                assert(stale_handshake(hs[i as int], now));
                assert(stale_id(ps, hs, h.id, now));
                proof {
                    lemma_push_keeps(victims@, h.id);
                    assert forall|k: int| 0 <= k < victims@.len() implies victims@[k] != h.id by {
                        assert(victims@[k] != hs[i as int].id);
                    }
                    let w = victims@.push(h.id);
                    assert forall|x: int, y: int| 0 <= x < w.len() && 0 <= y < w.len() && x != y implies #[trigger] w[x] != #[trigger] w[y] by {
                        if x < victims@.len() && y < victims@.len() {
                        } else if x < victims@.len() {
                            assert(w[x] == victims@[x]);
                        } else {
                            assert(w[y] == victims@[y]);
                        }
                    }
                }
                victims.push(h.id);
                proof {
                    assert forall|k: int| 0 <= k < victims@.len() implies seq_has_peer(ps, #[trigger] victims@[k]) || exists|a: int| 0 <= a < i + 1 && #[trigger] hs[a].id == victims@[k] by {
                        if k < victims@.len() - 1 {
                            if !seq_has_peer(ps, victims@[k]) {
                                let a = choose|a: int| 0 <= a < i && #[trigger] hs[a].id == victims@[k];
                            }
                        } else {
                            assert(hs[i as int].id == victims@[k]);
                        }
                    }
                }
            }
            i = i + 1;
        }
        assert forall|id: PeerId| stale_id(ps, hs, id, now) implies #[trigger] victims@.contains(id) by {
            if exists|i: int| 0 <= i < ps.len() && #[trigger] ps[i].id == id && stale_peer(ps[i], now) {
                let i = choose|i: int| 0 <= i < ps.len() && #[trigger] ps[i].id == id && stale_peer(ps[i], now);
                assert(victims@.contains(ps[i].id));
            } else {
                let i = choose|i: int| 0 <= i < hs.len() && #[trigger] hs[i].id == id && stale_handshake(hs[i], now);
                assert(victims@.contains(hs[i].id));
            }
        }
        victims
    }

    /// Time-based maintenance at `now`: every active peer whose request in
    /// flight, and every handshaking peer whose handshake, is older than the
    /// timeout is disconnected and then forgotten as `on_peer_disconnected`
    /// does. All other peers stay.
    #[verifier::rlimit(80)]
    #[verifier::spinoff_prover]
    pub fn tick(&mut self, now: u64) -> (r: Vec<Output>)
        requires
            old(self).wf(),
        ensures
            final(self).wf(),
            final(self).same_setup(old(self)),
            forall|i: int|
                0 <= i < final(self).peers().len() ==> !stale_peer(#[trigger] final(self).peers()[i], now),
            forall|i: int|
                0 <= i < final(self).handshaking().len() ==> !stale_handshake(
                    #[trigger] final(self).handshaking()[i],
                    now,
                ),
            forall|id: PeerId|
                #[trigger] stale_id(old(self).peers(), old(self).handshaking(), id, now) ==> (r@.contains(
                    Output::Disconnect(id),
                ) && !final(self).has_peer(id) && !final(self).is_handshaking(id)),
            exists|v: Seq<PeerId>|
                {
                    &&& v.no_duplicates()
                    &&& forall|id: PeerId| #[trigger] v.contains(id) == stale_id(old(self).peers(), old(self).handshaking(), id, now)
                    &&& r@ == #[trigger] disconnects(v) + departures(old(self).peers(), v)
                },
            forall|id: PeerId|
                stale_id(old(self).peers(), old(self).handshaking(), id, now) && #[trigger] old(
                    self,
                ).has_peer(id) ==> r@.contains(Output::PeerDisconnected(id)),
            forall|id: PeerId|
                #[trigger] r@.contains(Output::Disconnect(id)) ==> stale_id(
                    old(self).peers(),
                    old(self).handshaking(),
                    id,
                    now,
                ),
            forall|id: PeerId|
                #[trigger] final(self).has_peer(id) == (old(self).has_peer(id) && !stale_id(
                    old(self).peers(),
                    old(self).handshaking(),
                    id,
                    now,
                )),
            forall|id: PeerId|
                #[trigger] final(self).is_handshaking(id) == (old(self).is_handshaking(id)
                    && !stale_id(old(self).peers(), old(self).handshaking(), id, now)),
    {
        let ghost old_peers = self.peers@;
        let ghost old_hs = self.handshaking@;
        let victims = self.stale_peers(now);
        let n = victims.len();
        let mut out: Vec<Output> = Vec::new();
        let mut j: usize = 0;
        while j < n
            invariant
                n == victims@.len(),
                j <= n,
                out@.len() == j,
                forall|k: int| 0 <= k < j ==> #[trigger] out@[k] == Output::Disconnect(victims@[k]),
                out@ == disconnects(victims@.take(j as int)),
            decreases n - j,
        {
            proof {
                assert(victims@.take(j + 1).drop_last() =~= victims@.take(j as int));
            }
            out.push(Output::Disconnect(victims[j]));
            j = j + 1;
        }
        assert(victims@.take(n as int) =~= victims@);
        let ghost head = out@;
        assert forall|a: int| 0 <= a < self.peers@.len() implies old_peers.contains(#[trigger] self.peers@[a]) by {
            assert(old_peers[a] == self.peers@[a]);
        }
        assert forall|a: int| 0 <= a < self.handshaking@.len() implies old_hs.contains(#[trigger] self.handshaking@[a]) by {
            assert(old_hs[a] == self.handshaking@[a]);
        }
        let mut j: usize = 0;
        while j < n
            invariant
                n == victims@.len(),
                j <= n,
                self.wf(),
                self.same_setup(old(self)),
                out@.len() >= n,
                forall|k: int| 0 <= k < n ==> #[trigger] out@[k] == Output::Disconnect(victims@[k]),
                forall|k: int| 0 <= k < n ==> stale_id(old_peers, old_hs, #[trigger] victims@[k], now),
                forall|k: int| 0 <= k < j ==> !seq_has_peer(self.peers@, #[trigger] victims@[k]) && !seq_has_handshake(self.handshaking@, victims@[k]),
                victims@.no_duplicates(),
                head == disconnects(victims@),
                out@ == head + departures(old_peers, victims@.take(j as int)),
                forall|k: int| j <= k < n && seq_has_peer(old_peers, #[trigger] victims@[k]) ==> seq_has_peer(self.peers@, victims@[k]),
                forall|k: int| 0 <= k < j && seq_has_peer(old_peers, #[trigger] victims@[k]) ==> out@.contains(Output::PeerDisconnected(victims@[k])),
                forall|k: int| 0 <= k < out@.len() ==> (#[trigger] out@[k] matches Output::Disconnect(id) ==> stale_id(old_peers, old_hs, id, now)),
                forall|a: int| 0 <= a < self.peers@.len() ==> old_peers.contains(#[trigger] self.peers@[a]),
                forall|a: int| 0 <= a < self.handshaking@.len() ==> old_hs.contains(#[trigger] self.handshaking@[a]),
                forall|id: PeerId|
                    !stale_id(old_peers, old_hs, id, now) ==> (#[trigger] seq_has_peer(self.peers@, id) == seq_has_peer(old_peers, id)
                        && seq_has_handshake(self.handshaking@, id) == seq_has_handshake(old_hs, id)),
            decreases n - j,
        {
            let v = victims[j];
            let ghost pp = self.peers@;
            let ghost ph = self.handshaking@;
            let ghost s0 = *self;
            let mut more = self.on_peer_disconnected(v);
            let ghost prev_out = out@;
            let ghost got = more@;
            out.append(&mut more);
            proof {
                assert(out@ == prev_out + got);
                assert(victims@.take(j + 1).drop_last() =~= victims@.take(j as int));
                assert(victims@.take(j + 1).last() == v);
                if seq_has_peer(pp, v) {
                    let a = choose|a: int| 0 <= a < pp.len() && #[trigger] pp[a].id == v;
                    assert(old_peers.contains(pp[a]));
                    let b = choose|b: int| 0 <= b < old_peers.len() && old_peers[b] == pp[a];
                    assert(old_peers[b].id == v);
                }
                assert(seq_has_peer(pp, v) == seq_has_peer(old_peers, v));
                assert(s0.has_peer(v) == seq_has_peer(pp, v));
                if seq_has_peer(old_peers, v) {
                    assert(out@ =~= head + departures(old_peers, victims@.take(j + 1)));
                } else {
                    assert(got =~= Seq::<Output>::empty());
                    assert(out@ =~= head + departures(old_peers, victims@.take(j + 1)));
                }
                if seq_has_peer(old_peers, v) {
                    assert(got == seq![Output::PeerDisconnected(v)]);
                    assert(out@[prev_out.len() as int] == Output::PeerDisconnected(v));
                }
                assert forall|k: int| 0 <= k < j + 1 && seq_has_peer(old_peers, #[trigger] victims@[k]) implies out@.contains(Output::PeerDisconnected(victims@[k])) by {
                    if k < j {
                        let c = choose|c: int| 0 <= c < prev_out.len() && prev_out[c] == Output::PeerDisconnected(victims@[k]);
                        assert(out@[c] == prev_out[c]);
                    } else {
                        assert(out@[prev_out.len() as int] == Output::PeerDisconnected(v));
                    }
                }
                assert forall|k: int| j + 1 <= k < n && seq_has_peer(old_peers, #[trigger] victims@[k]) implies seq_has_peer(self.peers@, victims@[k]) by {
                    assert(victims@[k] != v);
                    assert(self.has_peer(victims@[k]) == s0.has_peer(victims@[k]));
                }
                assert forall|k: int| 0 <= k < out@.len() implies (#[trigger] out@[k] matches Output::Disconnect(id) ==> stale_id(old_peers, old_hs, id, now)) by {
                    if k >= prev_out.len() {
                        assert(out@[k] == got[k - prev_out.len()]);
                    } else {
                        assert(out@[k] == prev_out[k]);
                    }
                }
                assert forall|k: int| 0 <= k < n implies #[trigger] out@[k] == Output::Disconnect(victims@[k]) by {
                    assert(out@[k] == prev_out[k]);
                }
                assert forall|a: int| 0 <= a < self.peers@.len() implies old_peers.contains(#[trigger] self.peers@[a]) by {
                    if seq_has_peer(pp, v) {
                        let k = choose|k: int| 0 <= k < pp.len() && #[trigger] pp[k].id == v && self.peers@ == pp.remove(k);
                        let c = if a < k { a } else { a + 1 };
                        assert(self.peers@[a] == pp[c]);
                    } else {
                        assert(self.peers@[a] == pp[a]);
                    }
                }
                assert forall|a: int| 0 <= a < self.handshaking@.len() implies old_hs.contains(#[trigger] self.handshaking@[a]) by {
                    if seq_has_handshake(ph, v) {
                        let k = choose|k: int| 0 <= k < ph.len() && #[trigger] ph[k].id == v && self.handshaking@ == ph.remove(k);
                        let c = if a < k { a } else { a + 1 };
                        assert(self.handshaking@[a] == ph[c]);
                    } else {
                        assert(self.handshaking@[a] == ph[a]);
                    }
                }
                assert forall|k: int| 0 <= k < j + 1 implies !seq_has_peer(self.peers@, #[trigger] victims@[k]) && !seq_has_handshake(self.handshaking@, victims@[k]) by {
                    if k < j && victims@[k] != v {
                        assert(self.has_peer(victims@[k]) == s0.has_peer(victims@[k]));
                        assert(self.is_handshaking(victims@[k]) == s0.is_handshaking(victims@[k]));
                    }
                }
                assert forall|id: PeerId| !stale_id(old_peers, old_hs, id, now) implies (#[trigger] seq_has_peer(self.peers@, id) == seq_has_peer(old_peers, id)
                        && seq_has_handshake(self.handshaking@, id) == seq_has_handshake(old_hs, id)) by {
                    assert(stale_id(old_peers, old_hs, victims@[j as int], now));
                    assert(id != v);
                    assert(self.has_peer(id) == s0.has_peer(id));
                    assert(self.is_handshaking(id) == s0.is_handshaking(id));
                }
            }
            j = j + 1;
        }
        proof {
            assert forall|i: int| 0 <= i < self.peers@.len() implies !stale_peer(#[trigger] self.peers@[i], now) by {
                if stale_peer(self.peers@[i], now) {
                    let b = choose|b: int| 0 <= b < old_peers.len() && old_peers[b] == self.peers@[i];
                    assert(stale_peer(old_peers[b], now));
                    assert(stale_id(old_peers, old_hs, old_peers[b].id, now));
                    assert(victims@.contains(old_peers[b].id));
                    let k = choose|k: int| 0 <= k < victims@.len() && victims@[k] == old_peers[b].id;
                    assert(!seq_has_peer(self.peers@, victims@[k]));
                    assert(self.peers@[i].id == victims@[k]);
                }
            }
            assert forall|i: int| 0 <= i < self.handshaking@.len() implies !stale_handshake(#[trigger] self.handshaking@[i], now) by {
                if stale_handshake(self.handshaking@[i], now) {
                    let b = choose|b: int| 0 <= b < old_hs.len() && old_hs[b] == self.handshaking@[i];
                    assert(stale_handshake(old_hs[b], now));
                    assert(stale_id(old_peers, old_hs, old_hs[b].id, now));
                    assert(victims@.contains(old_hs[b].id));
                    let k = choose|k: int| 0 <= k < victims@.len() && victims@[k] == old_hs[b].id;
                    assert(!seq_has_handshake(self.handshaking@, victims@[k]));
                    assert(self.handshaking@[i].id == victims@[k]);
                }
            }
            assert forall|id: PeerId| stale_id(old_peers, old_hs, id, now) && #[trigger] seq_has_peer(old_peers, id) implies out@.contains(Output::PeerDisconnected(id)) by {
                assert(victims@.contains(id));
                let k = choose|k: int| 0 <= k < victims@.len() && victims@[k] == id;
            }
            assert(victims@.take(n as int) =~= victims@);
            assert(forall|id: PeerId| #[trigger] victims@.contains(id) == stale_id(old_peers, old_hs, id, now));
            assert(out@ == disconnects(victims@) + departures(old_peers, victims@));
            assert forall|id: PeerId| #[trigger] out@.contains(Output::Disconnect(id)) implies stale_id(old_peers, old_hs, id, now) by {
                let k = choose|k: int| 0 <= k < out@.len() && out@[k] == Output::Disconnect(id);
            }
            assert forall|id: PeerId| #[trigger] stale_id(old_peers, old_hs, id, now) implies (out@.contains(
                    Output::Disconnect(id),
                ) && !seq_has_peer(self.peers@, id) && !seq_has_handshake(self.handshaking@, id)) by {
                assert(victims@.contains(id));
                let k = choose|k: int| 0 <= k < victims@.len() && victims@[k] == id;
                assert(out@[k] == Output::Disconnect(id));
            }
        }
        proof {
            assert forall|id: PeerId| #[trigger] self.has_peer(id) == (old(self).has_peer(id) && !stale_id(old_peers, old_hs, id, now)) by {
                if !stale_id(old_peers, old_hs, id, now) {
                    assert(seq_has_peer(self.peers@, id) == seq_has_peer(old_peers, id));
                }
            }
            assert forall|id: PeerId| #[trigger] self.is_handshaking(id) == (old(self).is_handshaking(id) && !stale_id(old_peers, old_hs, id, now)) by {
                if !stale_id(old_peers, old_hs, id, now) {
                    assert(seq_has_peer(self.peers@, id) == seq_has_peer(old_peers, id));
                    assert(seq_has_handshake(self.handshaking@, id) == seq_has_handshake(old_hs, id));
                }
            }
        }
        out
    }

    /// Drops every peer and every pending handshake.
    pub fn abort(&mut self)
        ensures
            final(self).wf(),
            final(self).same_setup(old(self)),
            final(self).peers().len() == 0,
            final(self).handshaking().len() == 0,
    {
        self.peers.clear();
        self.handshaking.clear();
    }

    /// Protocol status: the block download's status as given, the number of
    /// active peers, and how many of them have a block request in flight.
    pub fn status(&self, sync: SyncStatus) -> (r: ProtocolStatus)
        ensures
            r.sync == sync,
            r.num_peers == self.peers().len(),
            r.num_active_peers == count_requesting(self.peers()),
    {
        let mut n: usize = 0;
        let mut i: usize = 0;
        while i < self.peers.len()
            invariant
                i <= self.peers@.len(),
                n == count_requesting(self.peers@.subrange(0, i as int)),
                n <= i,
            decreases self.peers@.len() - i,
        {
            proof {
                assert(self.peers@.subrange(0, i + 1).drop_last() =~= self.peers@.subrange(0, i as int));
            }
            if self.peers[i].peer.block_request.is_some() {
                n = n + 1;
            }
            i = i + 1;
        }
        assert(self.peers@.subrange(0, i as int) =~= self.peers@);
        ProtocolStatus { sync, num_peers: self.peers.len(), num_active_peers: n }
    }

    /// Information on an active peer; `None` for any other.
    pub fn peer_info(&self, peer_id: PeerId) -> (r: Option<PeerInfo>)
        requires
            self.wf(),
        ensures
            r is Some == self.has_peer(peer_id),
            r matches Some(info) ==> ({
                let p = self.peer(peer_id);
                &&& info.roles@ == p.roles@
                &&& info.protocol_version == p.protocol_version
                &&& info.best_hash == p.best_hash
                &&& info.best_number == p.best_number
            }),
    {
        match self.find_peer(peer_id) {
            Some(i) => {
                proof {
                    let c = choose|k: int| 0 <= k < self.peers().len() && self.peers()[k].id == peer_id;
                    if c != i {
                        assert(self.peers@[c].id == self.peers@[i as int].id);
                    }
                }
                let p = &self.peers[i].peer;
                Some(
                    PeerInfo {
                        roles: copy_roles(&p.roles),
                        protocol_version: p.protocol_version,
                        best_hash: p.best_hash,
                        best_number: p.best_number,
                    },
                )
            },
            None => None,
        }
    }

    /// Statistics on the transactions that were propagated; none are kept.
    pub fn transactions_stats(&self) -> (r: std::collections::BTreeMap<H256, TransactionStats>)
        ensures
            r@ == Map::<H256, TransactionStats>::empty(),
    {
        std::collections::BTreeMap::new()
    }

}

} // verus!
