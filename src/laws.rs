use vstd::prelude::*;
use crate::primitives::H256;
use crate::message::BlockRequest;
use crate::protocol::{
    Peer, PeerEntry, Protocol, learn, lemma_all_known, propagation, stamped,
};

verus! {

/// Two block requests sent to a peer one after the other get consecutive
/// ids: the second is the first plus one, wrapping at the largest id. So,
/// until the counter wraps, the ids a peer is sent strictly increase.
pub proof fn request_ids_advance(
    p1: Peer,
    p2: Peer,
    p3: Peer,
    r1: BlockRequest,
    r2: BlockRequest,
    t1: u64,
    t2: u64,
)
    requires
        stamped(p1, p2, r1, t1),
        stamped(p2, p3, r2, t2),
    ensures
        p3.block_request->Some_0.id == p2.block_request->Some_0.id.wrapping_add(1),
        p2.block_request->Some_0.id < u64::MAX ==> p2.block_request->Some_0.id
            < p3.block_request->Some_0.id,
{
}

proof fn lemma_propagation_empty(peers: Seq<PeerEntry>, pool: Seq<(H256, Vec<u8>)>)
    requires
        forall|i: int, j: int|
            #![trigger peers[i], pool[j]]
            0 <= i < peers.len() && 0 <= j < pool.len()
                ==> peers[i].peer.known_extrinsics@.contains(pool[j].0),
    ensures
        propagation(peers, pool).len() == 0,
    decreases peers.len(),
{
    if peers.len() > 0 {
        let rest = peers.drop_last();
        assert forall|i: int, j: int|
            #![trigger rest[i], pool[j]]
            0 <= i < rest.len() && 0 <= j < pool.len()
                implies rest[i].peer.known_extrinsics@.contains(pool[j].0) by {
            assert(rest[i] == peers[i]);
        }
        lemma_propagation_empty(rest, pool);
        let last = peers[peers.len() - 1];
        assert forall|j: int| 0 <= j < pool.len() implies last.peer.known_extrinsics@.contains(
            #[trigger] pool[j].0,
        ) by {
            assert(peers[peers.len() - 1] == last);
        }
        lemma_all_known(last.peer.known_extrinsics@, pool);
    }
}

/// Propagating a pool again, with nothing imported in between, sends
/// nothing and teaches no peer anything: after the first propagation every
/// peer knows every hash of the pool.
pub proof fn propagation_is_idempotent(p: Protocol, pool: Seq<(H256, Vec<u8>)>)
    requires
        forall|i: int, j: int|
            #![trigger p.peers()[i], pool[j]]
            0 <= i < p.peers().len() && 0 <= j < pool.len()
                ==> p.peers()[i].peer.known_extrinsics@.contains(pool[j].0),
    ensures
        propagation(p.peers(), pool).len() == 0,
        forall|i: int|
            0 <= i < p.peers().len() ==> learn(#[trigger] p.peers()[i].peer.known_extrinsics@, pool)
                == p.peers()[i].peer.known_extrinsics@,
{
    lemma_propagation_empty(p.peers(), pool);
    assert forall|i: int|
        0 <= i < p.peers().len() implies learn(#[trigger] p.peers()[i].peer.known_extrinsics@, pool)
            == p.peers()[i].peer.known_extrinsics@ by {
        assert forall|j: int| 0 <= j < pool.len() implies p.peers()[i].peer.known_extrinsics@.contains(
            #[trigger] pool[j].0,
        ) by {
            assert(p.peers()[i] == p.peers()[i]);
        }
        lemma_all_known(p.peers()[i].peer.known_extrinsics@, pool);
    }
}

} // verus!
