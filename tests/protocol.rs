use chain_protocol::codec::{decode, encode, header_hash, hash_message};
use chain_protocol::message::{
    BlockAnnounce, BlockAttribute, BlockData, BlockId, BlockRequest, BlockResponse, Direction,
    FromBlock, Header, Message, Role, Status,
};
use chain_protocol::primitives::{blake2_256, H256};
use chain_protocol::protocol::{
    block_limit, next_block_id, serve_blocks, walk_step, FieldMask, ChainInfo, Client, Output, Protocol,
    ProtocolConfig, SyncState, SyncStatus,
};

fn h(n: u64) -> H256 {
    H256 { w0: n, w1: n + 1, w2: n + 2, w3: n + 3 }
}

fn genesis() -> H256 {
    h(1000)
}

fn header(number: u64) -> Header {
    Header {
        parent_hash: h(number),
        number,
        state_root: h(2 * number + 7),
        extrinsics_root: h(3 * number + 11),
        digest: vec![vec![number as u8, 1, 2]],
    }
}

struct MemChain {
    headers: Vec<Header>,
}

impl MemChain {
    fn with_blocks(n: u64) -> MemChain {
        MemChain { headers: (0..n).map(header).collect() }
    }

    fn find(&self, id: &BlockId) -> Option<&Header> {
        match id {
            BlockId::Number(n) => self.headers.iter().find(|x| x.number == *n),
            BlockId::Hash(hash) => self.headers.iter().find(|x| header_hash(x) == *hash),
        }
    }
}

impl Client for MemChain {
    fn spec_header(&self, id: BlockId) -> Option<Header> {
        self.header(&id)
    }

    fn spec_body(&self, id: BlockId) -> Option<Vec<Vec<u8>>> {
        self.body(&id)
    }

    fn spec_justification(&self, id: BlockId) -> Option<Vec<u8>> {
        self.justification(&id)
    }

    fn header(&self, id: &BlockId) -> Option<Header> {
        self.find(id).cloned()
    }

    fn body(&self, id: &BlockId) -> Option<Vec<Vec<u8>>> {
        self.find(id).map(|x| vec![vec![x.number as u8, 0xbb]])
    }

    fn justification(&self, id: &BlockId) -> Option<Vec<u8>> {
        self.find(id).map(|x| vec![x.number as u8, 0xcc])
    }
}

fn status_of(genesis_hash: H256, version: u32) -> Status {
    Status {
        version,
        genesis_hash,
        roles: vec![Role::Full, Role::Validator],
        best_number: 5,
        best_hash: h(5),
        authority_signature: None,
        authority_id: None,
        chain_status: vec![9, 9],
    }
}

fn request(id: u64, from: FromBlock, direction: Direction, max: Option<u32>, fields: Vec<BlockAttribute>) -> BlockRequest {
    BlockRequest { id, fields, from, to: None, direction, max }
}

fn protocol() -> Protocol {
    Protocol::new(ProtocolConfig { roles: vec![Role::Full] }, genesis())
}

fn info() -> ChainInfo {
    ChainInfo { genesis_hash: genesis(), best_hash: h(3), best_number: 3 }
}

/// Connects `peer` and completes its handshake.
fn activate(p: &mut Protocol, chain: &MemChain, peer: usize) {
    p.on_peer_connected(peer, 0, Some(info()), vec![]);
    let data = encode(&Message::Status(status_of(genesis(), 1)));
    let out = p.handle_packet(chain, peer, &data, false, true);
    assert_eq!(out.len(), 2);
}

fn sent_message(o: &Output, peer: usize) -> Message {
    match o {
        Output::Send(p, bytes) => {
            assert_eq!(*p, peer);
            decode(bytes).expect("sent bytes decode")
        },
        other => panic!("expected a send, got {:?}", other),
    }
}

fn idle() -> SyncStatus {
    SyncStatus { state: SyncState::Idle, best_seen_block: None }
}

#[test]
fn handshake_success() {
    let chain = MemChain::with_blocks(4);
    let mut p = protocol();
    let out = p.on_peer_connected(1, 10, Some(info()), vec![4, 2]);
    assert_eq!(out.len(), 1);
    match sent_message(&out[0], 1) {
        Message::Status(s) => {
            assert_eq!(s.version, 1);
            assert_eq!(s.genesis_hash, genesis());
            assert_eq!(s.roles, vec![Role::Full]);
            assert_eq!(s.best_number, 3);
            assert_eq!(s.chain_status, vec![4, 2]);
        },
        other => panic!("expected a status, got {:?}", other),
    }
    assert!(p.peer_info(1).is_none());
    let data = encode(&Message::Status(status_of(genesis(), 1)));
    let out = p.handle_packet(&chain, 1, &data, false, true);
    assert_eq!(out.len(), 2);
    assert!(matches!(out[0], Output::SyncNewPeer(1)));
    match &out[1] {
        Output::ConsensusNewPeer(1, roles) => assert_eq!(*roles, vec![Role::Full, Role::Validator]),
        other => panic!("unexpected {:?}", other),
    }
    let pi = p.peer_info(1).expect("peer is active");
    assert_eq!(pi.protocol_version, 1);
    assert_eq!(pi.best_number, 5);
    assert_eq!(pi.best_hash, h(5));
    // The handshake no longer times out: only a request in flight could.
    assert!(p.tick(10 + 100_000).is_empty());
    assert_eq!(p.status(idle()).num_peers, 1);
}

#[test]
fn genesis_mismatch_disables() {
    let chain = MemChain::with_blocks(4);
    let mut p = protocol();
    p.on_peer_connected(1, 0, Some(info()), vec![]);
    let data = encode(&Message::Status(status_of(h(77), 1)));
    let out = p.handle_packet(&chain, 1, &data, false, true);
    assert_eq!(out.len(), 1);
    assert!(matches!(out[0], Output::Disable(1)));
    assert!(p.peer_info(1).is_none());
}

#[test]
fn version_mismatch_disables() {
    let chain = MemChain::with_blocks(1);
    let mut p = protocol();
    p.on_peer_connected(1, 0, Some(info()), vec![]);
    let data = encode(&Message::Status(status_of(genesis(), 2)));
    let out = p.handle_packet(&chain, 1, &data, false, true);
    assert_eq!(out.len(), 1);
    assert!(matches!(out[0], Output::Disable(1)));
    assert!(p.peer_info(1).is_none());
}

#[test]
fn status_on_expired_session_or_twice_is_dropped() {
    let chain = MemChain::with_blocks(1);
    let mut p = protocol();
    p.on_peer_connected(1, 0, None, vec![]);
    let data = encode(&Message::Status(status_of(genesis(), 1)));
    assert!(p.handle_packet(&chain, 1, &data, true, true).is_empty());
    assert!(p.peer_info(1).is_none());
    assert_eq!(p.handle_packet(&chain, 1, &data, false, true).len(), 2);
    assert!(p.handle_packet(&chain, 1, &data, false, true).is_empty());
}

#[test]
fn connect_without_chain_info_sends_nothing() {
    let mut p = protocol();
    assert!(p.on_peer_connected(3, 0, None, vec![]).is_empty());
}

#[test]
fn block_request_is_served_from_the_chain() {
    let chain = MemChain::with_blocks(5);
    let mut p = protocol();
    activate(&mut p, &chain, 1);
    let start = header_hash(&header(1));
    let req = request(7, FromBlock::Hash(start), Direction::Ascending, Some(3), vec![BlockAttribute::Header]);
    let out = p.handle_packet(&chain, 1, &encode(&Message::BlockRequest(req)), false, true);
    assert_eq!(out.len(), 1);
    match sent_message(&out[0], 1) {
        Message::BlockResponse(r) => {
            assert_eq!(r.id, 7);
            assert_eq!(r.blocks.len(), 3);
            for (k, d) in r.blocks.iter().enumerate() {
                let expected = header(1 + k as u64);
                assert_eq!(d.hash, header_hash(&expected));
                assert_eq!(d.header.as_ref().map(|x| x.number), Some(1 + k as u64));
                assert!(d.body.is_none());
                assert!(d.justification.is_none());
            }
        },
        other => panic!("expected a response, got {:?}", other),
    }
}

#[test]
fn block_response_matching_request_is_forwarded() {
    let chain = MemChain::with_blocks(1);
    let mut p = protocol();
    activate(&mut p, &chain, 1);
    let req = request(0, FromBlock::Hash(h(1)), Direction::Ascending, Some(3), vec![BlockAttribute::Header]);
    let mut last = None;
    for _ in 0..8 {
        let bytes = p.send_message(1, Message::BlockRequest(req.clone()), 500);
        last = Some(decode(&bytes).unwrap());
    }
    match last.unwrap() {
        Message::BlockRequest(r) => assert_eq!(r.id, 7),
        other => panic!("unexpected {:?}", other),
    }
    assert_eq!(p.status(idle()).num_active_peers, 1);
    let resp = BlockResponse { id: 7, blocks: vec![] };
    let out = p.handle_packet(&chain, 1, &encode(&Message::BlockResponse(resp)), false, true);
    assert_eq!(out.len(), 1);
    match &out[0] {
        Output::BlockData(1, rq, rs) => {
            assert_eq!(rq.id, 7);
            assert_eq!(rs.id, 7);
        },
        other => panic!("unexpected {:?}", other),
    }
    assert_eq!(p.status(idle()).num_active_peers, 0);
}

#[test]
fn mismatched_response_id_is_dropped() {
    let chain = MemChain::with_blocks(1);
    let mut p = protocol();
    activate(&mut p, &chain, 1);
    let req = request(0, FromBlock::Number(0), Direction::Ascending, None, vec![]);
    for _ in 0..8 {
        p.send_message(1, Message::BlockRequest(req.clone()), 0);
    }
    let resp = BlockResponse { id: 8, blocks: vec![] };
    let out = p.handle_packet(&chain, 1, &encode(&Message::BlockResponse(resp)), false, true);
    assert!(out.is_empty());
    assert_eq!(p.status(idle()).num_active_peers, 1);
    assert!(p.peer_info(1).is_some());
    // The request stays in flight and can still be answered.
    let resp = BlockResponse { id: 7, blocks: vec![] };
    let out = p.handle_packet(&chain, 1, &encode(&Message::BlockResponse(resp)), false, true);
    assert!(matches!(out[0], Output::BlockData(1, _, _)));
}

#[test]
fn unsolicited_response_disables() {
    let chain = MemChain::with_blocks(1);
    let mut p = protocol();
    activate(&mut p, &chain, 1);
    let resp = BlockResponse { id: 0, blocks: vec![] };
    let data = encode(&Message::BlockResponse(resp));
    let out = p.handle_packet(&chain, 1, &data, false, true);
    assert_eq!(out.len(), 1);
    assert!(matches!(out[0], Output::Disable(1)));
    let out = p.handle_packet(&chain, 2, &data, false, true);
    assert!(matches!(out[0], Output::Disable(2)));
}

#[test]
fn request_times_out() {
    let chain = MemChain::with_blocks(1);
    let mut p = protocol();
    activate(&mut p, &chain, 1);
    activate(&mut p, &chain, 2);
    let t = 1_000_000u64;
    let req = request(0, FromBlock::Number(0), Direction::Ascending, None, vec![]);
    p.send_message(1, Message::BlockRequest(req), t);
    assert!(p.tick(t + 40_000).is_empty());
    let out = p.tick(t + 41_000);
    assert_eq!(out.len(), 2);
    assert!(matches!(out[0], Output::Disconnect(1)));
    assert!(matches!(out[1], Output::PeerDisconnected(1)));
    assert!(p.peer_info(1).is_none());
    assert!(p.peer_info(2).is_some());
}

#[test]
fn handshake_times_out() {
    let mut p = protocol();
    p.on_peer_connected(4, 5_000, None, vec![]);
    assert!(p.tick(45_000).is_empty());
    let out = p.tick(46_000);
    assert_eq!(out.len(), 1);
    assert!(matches!(out[0], Output::Disconnect(4)));
    assert!(p.tick(200_000).is_empty());
}

#[test]
fn extrinsic_gossip_skips_the_sender() {
    let chain = MemChain::with_blocks(1);
    let mut p = protocol();
    activate(&mut p, &chain, 1);
    activate(&mut p, &chain, 2);
    activate(&mut p, &chain, 3);
    let x = vec![1u8, 2, 3];
    let hx = h(42);
    let out = p.handle_packet(&chain, 1, &encode(&Message::Extrinsics(vec![x.clone()])), false, true);
    assert_eq!(out.len(), 1);
    match &out[0] {
        Output::ImportExtrinsics(1, txs) => assert_eq!(*txs, vec![x.clone()]),
        other => panic!("unexpected {:?}", other),
    }
    p.note_extrinsics(1, &vec![hx]);
    let out = p.propagate_extrinsics(true, &vec![(hx, x.clone())]);
    assert_eq!(out.len(), 2);
    for (o, peer) in out.iter().zip([2usize, 3]) {
        match sent_message(o, peer) {
            Message::Extrinsics(l) => assert_eq!(l, vec![x.clone()]),
            other => panic!("unexpected {:?}", other),
        }
    }
    // A second round sends nothing.
    assert!(p.propagate_extrinsics(true, &vec![(hx, x.clone())]).is_empty());
}

#[test]
fn extrinsics_are_ignored_while_syncing() {
    let chain = MemChain::with_blocks(1);
    let mut p = protocol();
    activate(&mut p, &chain, 1);
    let data = encode(&Message::Extrinsics(vec![vec![5]]));
    assert!(p.handle_packet(&chain, 1, &data, false, false).is_empty());
    assert!(p.propagate_extrinsics(false, &vec![(h(1), vec![5])]).is_empty());
    // A peer that is not active gets nothing imported on its behalf.
    assert!(p.handle_packet(&chain, 9, &data, false, true).is_empty());
}

#[test]
fn propagation_sends_each_new_transaction_once() {
    let chain = MemChain::with_blocks(1);
    let mut p = protocol();
    activate(&mut p, &chain, 1);
    let pool = vec![(h(1), vec![1]), (h(2), vec![2]), (h(1), vec![1])];
    let out = p.propagate_extrinsics(true, &pool);
    assert_eq!(out.len(), 1);
    match sent_message(&out[0], 1) {
        Message::Extrinsics(l) => assert_eq!(l, vec![vec![1], vec![2]]),
        other => panic!("unexpected {:?}", other),
    }
    let more = vec![(h(2), vec![2]), (h(3), vec![3])];
    let out = p.propagate_extrinsics(true, &more);
    match sent_message(&out[0], 1) {
        Message::Extrinsics(l) => assert_eq!(l, vec![vec![3]]),
        other => panic!("unexpected {:?}", other),
    }
}

#[test]
fn imported_block_is_announced_once() {
    let chain = MemChain::with_blocks(1);
    let mut p = protocol();
    activate(&mut p, &chain, 1);
    activate(&mut p, &chain, 2);
    let hd = header(9);
    let hash = header_hash(&hd);
    let ann = encode(&Message::BlockAnnounce(BlockAnnounce { header: hd.clone() }));
    let out = p.handle_packet(&chain, 1, &ann, false, true);
    match &out[0] {
        Output::BlockAnnounce(1, got, hdr) => {
            assert_eq!(*got, hash);
            assert_eq!(hdr.number, 9);
        },
        other => panic!("unexpected {:?}", other),
    }
    let out = p.on_block_imported(hash, &hd);
    assert_eq!(out.len(), 1);
    match sent_message(&out[0], 2) {
        Message::BlockAnnounce(a) => assert_eq!(header_hash(&a.header), hash),
        other => panic!("unexpected {:?}", other),
    }
    assert!(p.on_block_imported(hash, &hd).is_empty());
}

#[test]
fn request_ids_increase_per_peer() {
    let chain = MemChain::with_blocks(1);
    let mut p = protocol();
    activate(&mut p, &chain, 1);
    let req = request(99, FromBlock::Number(0), Direction::Descending, None, vec![]);
    let ids: Vec<u64> = (0..3)
        .map(|_| match decode(&p.send_message(1, Message::BlockRequest(req.clone()), 0)).unwrap() {
            Message::BlockRequest(r) => r.id,
            other => panic!("unexpected {:?}", other),
        })
        .collect();
    assert_eq!(ids, vec![0, 1, 2]);
    // A request to a peer that is not active goes out unstamped.
    match decode(&p.send_message(5, Message::BlockRequest(req.clone()), 0)).unwrap() {
        Message::BlockRequest(r) => assert_eq!(r.id, 99),
        other => panic!("unexpected {:?}", other),
    }
}

#[test]
fn disconnect_forgets_peer() {
    let chain = MemChain::with_blocks(1);
    let mut p = protocol();
    activate(&mut p, &chain, 1);
    let out = p.on_peer_disconnected(1);
    assert_eq!(out.len(), 1);
    assert!(matches!(out[0], Output::PeerDisconnected(1)));
    assert!(p.peer_info(1).is_none());
    assert!(p.on_peer_disconnected(1).is_empty());
    p.on_peer_connected(2, 0, None, vec![]);
    assert!(p.on_peer_disconnected(2).is_empty());
    assert!(p.tick(1_000_000).is_empty());
}

#[test]
fn abort_clears_everything() {
    let chain = MemChain::with_blocks(1);
    let mut p = protocol();
    activate(&mut p, &chain, 1);
    p.on_peer_connected(2, 0, None, vec![]);
    p.abort();
    assert_eq!(p.status(idle()).num_peers, 0);
    assert!(p.tick(1_000_000).is_empty());
}

#[test]
fn bft_and_chain_specific_are_forwarded() {
    let chain = MemChain::with_blocks(1);
    let mut p = protocol();
    let data = encode(&Message::BftMessage(vec![7, 7]));
    let out = p.handle_packet(&chain, 1, &data, false, true);
    match &out[0] {
        Output::BftMessage(1, m, hash) => {
            assert_eq!(*m, vec![7, 7]);
            assert_eq!(*hash, blake2_256(&data));
            assert_eq!(*hash, hash_message(&Message::BftMessage(vec![7, 7])));
        },
        other => panic!("unexpected {:?}", other),
    }
    let data = encode(&Message::ChainSpecific(vec![3]));
    let out = p.handle_packet(&chain, 1, &data, false, true);
    assert!(matches!(&out[0], Output::ChainSpecific(1, d) if *d == vec![3]));
}

#[test]
fn malformed_packet_disables() {
    let chain = MemChain::with_blocks(1);
    let mut p = protocol();
    for data in [vec![], vec![9u8], vec![4u8, 1, 0], vec![6u8, 0, 0, 0, 0, 0, 0, 0, 0, 0]] {
        let out = p.handle_packet(&chain, 3, &data, false, true);
        assert_eq!(out.len(), 1);
        assert!(matches!(out[0], Output::Disable(3)));
    }
}

#[test]
fn reserved_field_is_refused() {
    let chain = MemChain::with_blocks(3);
    let mut p = protocol();
    for f in [BlockAttribute::Receipt, BlockAttribute::MessageQueue] {
        let req = request(1, FromBlock::Number(0), Direction::Ascending, None, vec![BlockAttribute::Header, f]);
        let out = p.handle_packet(&chain, 1, &encode(&Message::BlockRequest(req)), false, true);
        assert_eq!(out.len(), 1);
        assert!(matches!(out[0], Output::Disable(1)));
    }
}

#[test]
fn serving_walks_down_to_genesis() {
    let chain = MemChain::with_blocks(5);
    let req = request(3, FromBlock::Number(2), Direction::Descending, None, vec![BlockAttribute::Body, BlockAttribute::Justification]);
    let r = serve_blocks(&chain, &req).unwrap();
    assert_eq!(r.id, 3);
    let numbers: Vec<u64> = r.blocks.iter().map(|d| d.body.as_ref().unwrap()[0][0] as u64).collect();
    assert_eq!(numbers, vec![2, 1, 0]);
    assert!(r.blocks.iter().all(|d| d.header.is_none() && d.justification.is_some()));
    assert_eq!(r.blocks[0].hash, header_hash(&header(2)));
}

#[test]
fn serving_stops_at_missing_block_and_at_limit() {
    let chain = MemChain::with_blocks(5);
    let req = request(1, FromBlock::Number(3), Direction::Ascending, Some(10), vec![]);
    assert_eq!(serve_blocks(&chain, &req).unwrap().blocks.len(), 2);
    let req = request(1, FromBlock::Number(0), Direction::Ascending, Some(0), vec![]);
    assert_eq!(serve_blocks(&chain, &req).unwrap().blocks.len(), 0);
    let big = MemChain::with_blocks(200);
    let req = request(1, FromBlock::Number(0), Direction::Ascending, None, vec![]);
    assert_eq!(serve_blocks(&big, &req).unwrap().blocks.len(), 128);
    let unknown = request(1, FromBlock::Hash(h(5)), Direction::Ascending, None, vec![]);
    assert_eq!(serve_blocks(&chain, &unknown).unwrap().blocks.len(), 0);
}

#[test]
fn serving_twice_gives_the_same_response() {
    let chain = MemChain::with_blocks(6);
    let req = request(4, FromBlock::Number(1), Direction::Ascending, Some(4), vec![BlockAttribute::Header, BlockAttribute::Body]);
    let a = serve_blocks(&chain, &req).unwrap();
    let b = serve_blocks(&chain, &req).unwrap();
    assert_eq!(encode(&Message::BlockResponse(a)), encode(&Message::BlockResponse(b)));
}

#[test]
fn limits_and_walk_steps() {
    assert_eq!(block_limit(None), 128);
    assert_eq!(block_limit(Some(3)), 3);
    assert_eq!(block_limit(Some(500)), 128);
    assert_eq!(next_block_id(Direction::Ascending, 4), Some(BlockId::Number(5)));
    assert_eq!(next_block_id(Direction::Descending, 4), Some(BlockId::Number(3)));
    assert_eq!(next_block_id(Direction::Descending, 0), None);
    assert_eq!(next_block_id(Direction::Ascending, u64::MAX), None);
}

fn round_trip(m: Message) -> Message {
    let bytes = encode(&m);
    let back = decode(&bytes).expect("decodes");
    assert_eq!(encode(&back), bytes);
    let mut longer = bytes.clone();
    longer.push(0);
    assert!(decode(&longer).is_none());
    assert!(decode(&bytes[..bytes.len() - 1]).is_none());
    back
}

#[test]
fn codec_round_trips_every_message() {
    let mut s = status_of(genesis(), 1);
    s.authority_signature = Some(vec![1, 2, 3]);
    s.authority_id = Some(h(8));
    match round_trip(Message::Status(s)) {
        Message::Status(b) => {
            assert_eq!(b.version, 1);
            assert_eq!(b.roles, vec![Role::Full, Role::Validator]);
            assert_eq!(b.authority_signature, Some(vec![1, 2, 3]));
            assert_eq!(b.authority_id, Some(h(8)));
            assert_eq!(b.chain_status, vec![9, 9]);
        },
        other => panic!("unexpected {:?}", other),
    }
    let mut req = request(u64::MAX, FromBlock::Hash(h(4)), Direction::Descending, Some(77), vec![
        BlockAttribute::Header, BlockAttribute::Body, BlockAttribute::Receipt,
        BlockAttribute::MessageQueue, BlockAttribute::Justification,
    ]);
    req.to = Some(h(6));
    match round_trip(Message::BlockRequest(req)) {
        Message::BlockRequest(r) => {
            assert_eq!(r.id, u64::MAX);
            assert_eq!(r.from, FromBlock::Hash(h(4)));
            assert_eq!(r.to, Some(h(6)));
            assert_eq!(r.direction, Direction::Descending);
            assert_eq!(r.max, Some(77));
            assert_eq!(r.fields.len(), 5);
        },
        other => panic!("unexpected {:?}", other),
    }
    let d = BlockData {
        hash: h(3),
        header: Some(header(3)),
        body: Some(vec![vec![1], vec![]]),
        receipt: Some(vec![5]),
        message_queue: Some(vec![vec![6]]),
        justification: Some(vec![7]),
    };
    let empty = BlockData { hash: h(4), header: None, body: None, receipt: None, message_queue: None, justification: None };
    match round_trip(Message::BlockResponse(BlockResponse { id: 9, blocks: vec![d, empty] })) {
        Message::BlockResponse(r) => {
            assert_eq!(r.id, 9);
            assert_eq!(r.blocks.len(), 2);
            assert_eq!(r.blocks[0].header.as_ref().unwrap().digest, vec![vec![3u8, 1, 2]]);
            assert_eq!(r.blocks[0].message_queue, Some(vec![vec![6]]));
            assert!(r.blocks[1].header.is_none());
        },
        other => panic!("unexpected {:?}", other),
    }
    match round_trip(Message::BlockAnnounce(BlockAnnounce { header: header(12) })) {
        Message::BlockAnnounce(a) => assert_eq!(a.header.number, 12),
        other => panic!("unexpected {:?}", other),
    }
    assert!(matches!(round_trip(Message::BftMessage(vec![1, 2])), Message::BftMessage(b) if b == vec![1, 2]));
    assert!(matches!(round_trip(Message::Extrinsics(vec![vec![1], vec![]])), Message::Extrinsics(l) if l.len() == 2));
    assert!(matches!(round_trip(Message::ChainSpecific(vec![])), Message::ChainSpecific(b) if b.is_empty()));
}

#[test]
fn codec_is_little_endian_and_tagged() {
    let bytes = encode(&Message::ChainSpecific(vec![0xab]));
    assert_eq!(bytes, vec![6, 1, 0, 0, 0, 0, 0, 0, 0, 0xab]);
}

#[test]
fn blake2_256_of_empty_input() {
    // BLAKE2b-256("") = 0e5751c026e543b2e8ab2eb06099daa1d1e5df47778f7787faab45cdf12fe3a8
    let d = blake2_256(&[]);
    assert_eq!(d.w0, u64::from_le_bytes([0x0e, 0x57, 0x51, 0xc0, 0x26, 0xe5, 0x43, 0xb2]));
    assert_eq!(d.w1, u64::from_le_bytes([0xe8, 0xab, 0x2e, 0xb0, 0x60, 0x99, 0xda, 0xa1]));
    assert_eq!(d.w2, u64::from_le_bytes([0xd1, 0xe5, 0xdf, 0x47, 0x77, 0x8f, 0x77, 0x87]));
    assert_eq!(d.w3, u64::from_le_bytes([0xfa, 0xab, 0x45, 0xcd, 0xf1, 0x2f, 0xe3, 0xa8]));
    assert_ne!(blake2_256(&[1]), d);
}

#[test]
fn transaction_stats_are_empty() {
    assert!(protocol().transactions_stats().is_empty());
}

#[test]
fn walk_step_adds_found_block_and_moves_on() {
    let mask = FieldMask { header: false, body: true, justification: false };
    let mut blocks: Vec<BlockData> = Vec::new();
    let next = walk_step(&mut blocks, Some((header(4), Some(vec![vec![1]]), Some(vec![2]))), mask, 3, Direction::Ascending);
    assert_eq!(next, Some(BlockId::Number(5)));
    assert_eq!(blocks.len(), 1);
    assert_eq!(blocks[0].hash, header_hash(&header(4)));
    assert!(blocks[0].header.is_none());
    assert_eq!(blocks[0].body, Some(vec![vec![1]]));
    assert!(blocks[0].justification.is_none());
    let next = walk_step(&mut blocks, Some((header(0), None, None)), mask, 3, Direction::Descending);
    assert_eq!(next, None);
    let next = walk_step(&mut blocks, Some((header(7), None, None)), mask, 3, Direction::Descending);
    assert_eq!(next, None);
    assert_eq!(blocks.len(), 3);
}

#[test]
fn walk_step_stops_at_missing_block() {
    let mask = FieldMask { header: true, body: false, justification: false };
    let mut blocks: Vec<BlockData> = Vec::new();
    assert_eq!(walk_step(&mut blocks, None, mask, 5, Direction::Ascending), None);
    assert!(blocks.is_empty());
}

#[test]
fn descending_walk_from_genesis_serves_one_block() {
    let chain = MemChain::with_blocks(3);
    let req = request(2, FromBlock::Number(0), Direction::Descending, Some(5), vec![BlockAttribute::Header]);
    let r = serve_blocks(&chain, &req).unwrap();
    assert_eq!(r.blocks.len(), 1);
    assert_eq!(r.blocks[0].hash, header_hash(&header(0)));
}
