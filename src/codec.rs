use vstd::prelude::*;
use vstd::bytes::{
    lemma_auto_spec_u32_to_from_le_bytes, lemma_auto_spec_u64_to_from_le_bytes, spec_u32_to_le_bytes,
    spec_u64_to_le_bytes, u32_from_le_bytes, u32_to_le_bytes, u64_from_le_bytes, u64_to_le_bytes,
};
use crate::primitives::{blake2_256, spec_blake2_256, H256};
use crate::message::{
    BlockAttribute, BlockData, BlockRequest, BlockResponse, Direction, FromBlock, Header, Message,
    BlockAnnounce,
    Role, Status,
};

verus! {

// ---------------------------------------------------------------------------
// Wire format. Integers are little-endian; a byte string is its length as a
// u64 followed by its bytes; a list is its length as a u64 followed by its
// items; an option is a tag byte (0 or 1) followed by the value if present;
// an enum is a tag byte followed by its fields.
// ---------------------------------------------------------------------------

pub open spec fn enc_u64(v: u64) -> Seq<u8> {
    spec_u64_to_le_bytes(v)
}

pub open spec fn enc_u32(v: u32) -> Seq<u8> {
    spec_u32_to_le_bytes(v)
}

pub open spec fn enc_hash(h: H256) -> Seq<u8> {
    enc_u64(h.w0) + enc_u64(h.w1) + enc_u64(h.w2) + enc_u64(h.w3)
}

pub open spec fn enc_bytes(b: Seq<u8>) -> Seq<u8> {
    enc_u64(b.len() as u64) + b
}

pub open spec fn enc_byte_items(s: Seq<Vec<u8>>) -> Seq<u8>
    decreases s.len(),
{
    if s.len() == 0 {
        Seq::empty()
    } else {
        enc_byte_items(s.drop_last()) + enc_bytes(s.last()@)
    }
}

pub open spec fn enc_byte_list(s: Seq<Vec<u8>>) -> Seq<u8> {
    enc_u64(s.len() as u64) + enc_byte_items(s)
}

pub open spec fn enc_opt_bytes(o: Option<Vec<u8>>) -> Seq<u8> {
    match o {
        None => seq![0u8],
        Some(b) => seq![1u8] + enc_bytes(b@),
    }
}

pub open spec fn enc_opt_byte_list(o: Option<Vec<Vec<u8>>>) -> Seq<u8> {
    match o {
        None => seq![0u8],
        Some(l) => seq![1u8] + enc_byte_list(l@),
    }
}

pub open spec fn enc_opt_hash(o: Option<H256>) -> Seq<u8> {
    match o {
        None => seq![0u8],
        Some(h) => seq![1u8] + enc_hash(h),
    }
}

pub open spec fn enc_opt_u32(o: Option<u32>) -> Seq<u8> {
    match o {
        None => seq![0u8],
        Some(v) => seq![1u8] + enc_u32(v),
    }
}

pub open spec fn role_tag(r: Role) -> u8 {
    match r {
        Role::Full => 0,
        Role::Light => 1,
        Role::Validator => 2,
        Role::Collator => 3,
    }
}

pub open spec fn attribute_tag(a: BlockAttribute) -> u8 {
    match a {
        BlockAttribute::Header => 0,
        BlockAttribute::Body => 1,
        BlockAttribute::Receipt => 2,
        BlockAttribute::MessageQueue => 3,
        BlockAttribute::Justification => 4,
    }
}

pub open spec fn enc_roles(s: Seq<Role>) -> Seq<u8> {
    enc_u64(s.len() as u64) + s.map_values(|r: Role| role_tag(r))
}

pub open spec fn enc_attributes(s: Seq<BlockAttribute>) -> Seq<u8> {
    enc_u64(s.len() as u64) + s.map_values(|a: BlockAttribute| attribute_tag(a))
}

pub open spec fn enc_from(f: FromBlock) -> Seq<u8> {
    match f {
        FromBlock::Hash(h) => seq![0u8] + enc_hash(h),
        FromBlock::Number(n) => seq![1u8] + enc_u64(n),
    }
}

pub open spec fn enc_direction(d: Direction) -> Seq<u8> {
    match d {
        Direction::Ascending => seq![0u8],
        Direction::Descending => seq![1u8],
    }
}

pub open spec fn enc_header(h: Header) -> Seq<u8> {
    enc_hash(h.parent_hash) + enc_u64(h.number) + enc_hash(h.state_root) + enc_hash(
        h.extrinsics_root,
    ) + enc_byte_list(h.digest@)
}

pub open spec fn enc_opt_header(o: Option<Header>) -> Seq<u8> {
    match o {
        None => seq![0u8],
        Some(h) => seq![1u8] + enc_header(h),
    }
}

pub open spec fn enc_block_data(d: BlockData) -> Seq<u8> {
    enc_hash(d.hash) + enc_opt_header(d.header) + enc_opt_byte_list(d.body) + enc_opt_bytes(
        d.receipt,
    ) + enc_opt_byte_list(d.message_queue) + enc_opt_bytes(d.justification)
}

pub open spec fn enc_block_items(s: Seq<BlockData>) -> Seq<u8>
    decreases s.len(),
{
    if s.len() == 0 {
        Seq::empty()
    } else {
        enc_block_items(s.drop_last()) + enc_block_data(s.last())
    }
}

pub open spec fn enc_request(r: BlockRequest) -> Seq<u8> {
    enc_u64(r.id) + enc_attributes(r.fields@) + enc_from(r.from) + enc_opt_hash(r.to)
        + enc_direction(r.direction) + enc_opt_u32(r.max)
}

pub open spec fn enc_response(r: BlockResponse) -> Seq<u8> {
    enc_u64(r.id) + enc_u64(r.blocks@.len() as u64) + enc_block_items(r.blocks@)
}

pub open spec fn enc_status(s: Status) -> Seq<u8> {
    enc_u32(s.version) + enc_hash(s.genesis_hash) + enc_roles(s.roles@) + enc_u64(s.best_number)
        + enc_hash(s.best_hash) + enc_opt_bytes(s.authority_signature) + enc_opt_hash(
        s.authority_id,
    ) + enc_bytes(s.chain_status@)
}

/// The bytes that stand for a message on the wire.
pub open spec fn enc_message(m: Message) -> Seq<u8> {
    match m {
        Message::Status(s) => seq![0u8] + enc_status(s),
        Message::BlockRequest(r) => seq![1u8] + enc_request(r),
        Message::BlockResponse(r) => seq![2u8] + enc_response(r),
        Message::BlockAnnounce(a) => seq![3u8] + enc_header(a.header),
        Message::BftMessage(b) => seq![4u8] + enc_bytes(b@),
        Message::Extrinsics(l) => seq![5u8] + enc_byte_list(l@),
        Message::ChainSpecific(b) => seq![6u8] + enc_bytes(b@),
    }
}

// ---------------------------------------------------------------------------
// Encoding
// ---------------------------------------------------------------------------

fn put_u8(out: &mut Vec<u8>, v: u8)
    ensures
        final(out)@ == old(out)@ + seq![v],
{
    out.push(v);
}

fn put_u64(out: &mut Vec<u8>, v: u64)
    ensures
        final(out)@ == old(out)@ + enc_u64(v),
{
    let mut b = u64_to_le_bytes(v);
    out.append(&mut b);
}

fn put_u32(out: &mut Vec<u8>, v: u32)
    ensures
        final(out)@ == old(out)@ + enc_u32(v),
{
    let mut b = u32_to_le_bytes(v);
    out.append(&mut b);
}

fn put_hash(out: &mut Vec<u8>, h: &H256)
    ensures
        final(out)@ == old(out)@ + enc_hash(*h),
{
    put_u64(out, h.w0);
    put_u64(out, h.w1);
    put_u64(out, h.w2);
    put_u64(out, h.w3);
    assert(final(out)@ =~= old(out)@ + enc_hash(*h));
}

fn put_bytes(out: &mut Vec<u8>, b: &Vec<u8>)
    ensures
        final(out)@ == old(out)@ + enc_bytes(b@),
{
    put_u64(out, b.len() as u64);
    let mut i: usize = 0;
    while i < b.len()
        invariant
            i <= b@.len(),
            out@ == old(out)@ + enc_u64(b@.len() as u64) + b@.subrange(0, i as int),
        decreases b@.len() - i,
    {
        out.push(b[i]);
        i = i + 1;
        assert(out@ =~= old(out)@ + enc_u64(b@.len() as u64) + b@.subrange(0, i as int));
    }
    assert(b@.subrange(0, b@.len() as int) =~= b@);
    assert(out@ =~= old(out)@ + enc_bytes(b@));
}

fn put_byte_list(out: &mut Vec<u8>, l: &Vec<Vec<u8>>)
    ensures
        final(out)@ == old(out)@ + enc_byte_list(l@),
{
    put_u64(out, l.len() as u64);
    let mut i: usize = 0;
    while i < l.len()
        invariant
            i <= l@.len(),
            out@ == old(out)@ + enc_u64(l@.len() as u64) + enc_byte_items(l@.subrange(0, i as int)),
        decreases l@.len() - i,
    {
        put_bytes(out, &l[i]);
        proof {
            let s = l@.subrange(0, i + 1);
            assert(s.drop_last() =~= l@.subrange(0, i as int));
        }
        i = i + 1;
        assert(out@ =~= old(out)@ + enc_u64(l@.len() as u64) + enc_byte_items(l@.subrange(0, i as int)));
    }
    assert(l@.subrange(0, l@.len() as int) =~= l@);
    assert(out@ =~= old(out)@ + enc_byte_list(l@));
}

fn put_opt_bytes(out: &mut Vec<u8>, o: &Option<Vec<u8>>)
    ensures
        final(out)@ == old(out)@ + enc_opt_bytes(*o),
{
    match o {
        None => put_u8(out, 0),
        Some(b) => {
            put_u8(out, 1);
            put_bytes(out, b);
            assert(out@ =~= old(out)@ + enc_opt_bytes(*o));
        },
    }
}

fn put_opt_byte_list(out: &mut Vec<u8>, o: &Option<Vec<Vec<u8>>>)
    ensures
        final(out)@ == old(out)@ + enc_opt_byte_list(*o),
{
    match o {
        None => put_u8(out, 0),
        Some(l) => {
            put_u8(out, 1);
            put_byte_list(out, l);
            assert(out@ =~= old(out)@ + enc_opt_byte_list(*o));
        },
    }
}

fn put_opt_hash(out: &mut Vec<u8>, o: &Option<H256>)
    ensures
        final(out)@ == old(out)@ + enc_opt_hash(*o),
{
    match o {
        None => put_u8(out, 0),
        Some(h) => {
            put_u8(out, 1);
            put_hash(out, h);
            assert(out@ =~= old(out)@ + enc_opt_hash(*o));
        },
    }
}

fn put_opt_u32(out: &mut Vec<u8>, o: &Option<u32>)
    ensures
        final(out)@ == old(out)@ + enc_opt_u32(*o),
{
    match o {
        None => put_u8(out, 0),
        Some(v) => {
            put_u8(out, 1);
            put_u32(out, *v);
            assert(out@ =~= old(out)@ + enc_opt_u32(*o));
        },
    }
}

fn role_to_tag(r: Role) -> (t: u8)
    ensures
        t == role_tag(r),
{
    match r {
        Role::Full => 0,
        Role::Light => 1,
        Role::Validator => 2,
        Role::Collator => 3,
    }
}

fn attribute_to_tag(a: BlockAttribute) -> (t: u8)
    ensures
        t == attribute_tag(a),
{
    match a {
        BlockAttribute::Header => 0,
        BlockAttribute::Body => 1,
        BlockAttribute::Receipt => 2,
        BlockAttribute::MessageQueue => 3,
        BlockAttribute::Justification => 4,
    }
}

fn put_roles(out: &mut Vec<u8>, l: &Vec<Role>)
    ensures
        final(out)@ == old(out)@ + enc_roles(l@),
{
    put_u64(out, l.len() as u64);
    let mut i: usize = 0;
    while i < l.len()
        invariant
            i <= l@.len(),
            out@ == old(out)@ + enc_u64(l@.len() as u64) + l@.subrange(0, i as int).map_values(
                |r: Role| role_tag(r),
            ),
        decreases l@.len() - i,
    {
        put_u8(out, role_to_tag(l[i]));
        i = i + 1;
        assert(out@ =~= old(out)@ + enc_u64(l@.len() as u64) + l@.subrange(0, i as int).map_values(
            |r: Role| role_tag(r),
        ));
    }
    assert(l@.subrange(0, l@.len() as int) =~= l@);
    assert(out@ =~= old(out)@ + enc_roles(l@));
}

fn put_attributes(out: &mut Vec<u8>, l: &Vec<BlockAttribute>)
    ensures
        final(out)@ == old(out)@ + enc_attributes(l@),
{
    put_u64(out, l.len() as u64);
    let mut i: usize = 0;
    while i < l.len()
        invariant
            i <= l@.len(),
            out@ == old(out)@ + enc_u64(l@.len() as u64) + l@.subrange(0, i as int).map_values(
                |a: BlockAttribute| attribute_tag(a),
            ),
        decreases l@.len() - i,
    {
        put_u8(out, attribute_to_tag(l[i]));
        i = i + 1;
        assert(out@ =~= old(out)@ + enc_u64(l@.len() as u64) + l@.subrange(0, i as int).map_values(
            |a: BlockAttribute| attribute_tag(a),
        ));
    }
    assert(l@.subrange(0, l@.len() as int) =~= l@);
    assert(out@ =~= old(out)@ + enc_attributes(l@));
}

fn put_header(out: &mut Vec<u8>, h: &Header)
    ensures
        final(out)@ == old(out)@ + enc_header(*h),
{
    put_hash(out, &h.parent_hash);
    put_u64(out, h.number);
    put_hash(out, &h.state_root);
    put_hash(out, &h.extrinsics_root);
    put_byte_list(out, &h.digest);
    assert(out@ =~= old(out)@ + enc_header(*h));
}

fn put_block_data(out: &mut Vec<u8>, d: &BlockData)
    ensures
        final(out)@ == old(out)@ + enc_block_data(*d),
{
    put_hash(out, &d.hash);
    match &d.header {
        None => put_u8(out, 0),
        Some(h) => {
            put_u8(out, 1);
            put_header(out, h);
        },
    }
    put_opt_byte_list(out, &d.body);
    put_opt_bytes(out, &d.receipt);
    put_opt_byte_list(out, &d.message_queue);
    put_opt_bytes(out, &d.justification);
    assert(out@ =~= old(out)@ + enc_block_data(*d));
}

fn put_request(out: &mut Vec<u8>, r: &BlockRequest)
    ensures
        final(out)@ == old(out)@ + enc_request(*r),
{
    put_u64(out, r.id);
    put_attributes(out, &r.fields);
    match r.from {
        FromBlock::Hash(h) => {
            put_u8(out, 0);
            put_hash(out, &h);
        },
        FromBlock::Number(n) => {
            put_u8(out, 1);
            put_u64(out, n);
        },
    }
    put_opt_hash(out, &r.to);
    match r.direction {
        Direction::Ascending => put_u8(out, 0),
        Direction::Descending => put_u8(out, 1),
    }
    put_opt_u32(out, &r.max);
    assert(out@ =~= old(out)@ + enc_request(*r));
}

fn put_response(out: &mut Vec<u8>, r: &BlockResponse)
    ensures
        final(out)@ == old(out)@ + enc_response(*r),
{
    put_u64(out, r.id);
    put_u64(out, r.blocks.len() as u64);
    let ghost start = out@;
    let mut i: usize = 0;
    while i < r.blocks.len()
        invariant
            i <= r.blocks@.len(),
            out@ == start + enc_block_items(r.blocks@.subrange(0, i as int)),
        decreases r.blocks@.len() - i,
    {
        put_block_data(out, &r.blocks[i]);
        proof {
            let s = r.blocks@.subrange(0, i + 1);
            assert(s.drop_last() =~= r.blocks@.subrange(0, i as int));
        }
        i = i + 1;
        assert(out@ =~= start + enc_block_items(r.blocks@.subrange(0, i as int)));
    }
    assert(r.blocks@.subrange(0, r.blocks@.len() as int) =~= r.blocks@);
    assert(out@ =~= old(out)@ + enc_response(*r));
}

fn put_status(out: &mut Vec<u8>, s: &Status)
    ensures
        final(out)@ == old(out)@ + enc_status(*s),
{
    put_u32(out, s.version);
    put_hash(out, &s.genesis_hash);
    put_roles(out, &s.roles);
    put_u64(out, s.best_number);
    put_hash(out, &s.best_hash);
    put_opt_bytes(out, &s.authority_signature);
    put_opt_hash(out, &s.authority_id);
    put_bytes(out, &s.chain_status);
    assert(out@ =~= old(out)@ + enc_status(*s));
}

/// Encodes a header alone, as it is hashed.
pub fn encode_header(h: &Header) -> (r: Vec<u8>)
    ensures
        r@ == enc_header(*h),
{
    let mut out: Vec<u8> = Vec::new();
    put_header(&mut out, h);
    assert(out@ =~= enc_header(*h));
    out
}

/// Encodes a message into the bytes that are sent.
pub fn encode(m: &Message) -> (r: Vec<u8>)
    ensures
        r@ == enc_message(*m),
{
    let mut out: Vec<u8> = Vec::new();
    match m {
        Message::Status(s) => {
            put_u8(&mut out, 0);
            put_status(&mut out, s);
        },
        Message::BlockRequest(r) => {
            put_u8(&mut out, 1);
            put_request(&mut out, r);
        },
        Message::BlockResponse(r) => {
            put_u8(&mut out, 2);
            put_response(&mut out, r);
        },
        Message::BlockAnnounce(a) => {
            put_u8(&mut out, 3);
            put_header(&mut out, &a.header);
        },
        Message::BftMessage(b) => {
            put_u8(&mut out, 4);
            put_bytes(&mut out, b);
        },
        Message::Extrinsics(l) => {
            put_u8(&mut out, 5);
            put_byte_list(&mut out, l);
        },
        Message::ChainSpecific(b) => {
            put_u8(&mut out, 6);
            put_bytes(&mut out, b);
        },
    }
    assert(out@ =~= enc_message(*m));
    out
}

// ---------------------------------------------------------------------------
// Decoding. Each reader takes the bytes and a cursor, and moves the cursor
// past what it read. Where the bytes at the cursor encode a value, the
// reader returns a value with the same encoding and moves past it.
// ---------------------------------------------------------------------------

/// Whether the bytes of `b` at `p` start with `e`.
pub open spec fn at(b: Seq<u8>, p: int, e: Seq<u8>) -> bool {
    0 <= p && p + e.len() <= b.len() && b.subrange(p, p + e.len()) == e
}

pub broadcast proof fn lemma_at_split(b: Seq<u8>, p: int, x: Seq<u8>, y: Seq<u8>)
    ensures
        #[trigger] at(b, p, x + y) ==> at(b, p, x) && at(b, p + x.len(), y),
{
    if at(b, p, x + y) {
        assert(b.subrange(p, p + x.len()) =~= (x + y).subrange(0, x.len() as int));
        assert((x + y).subrange(0, x.len() as int) =~= x);
        assert(b.subrange(p + x.len(), p + x.len() + y.len()) =~= (x + y).subrange(
            x.len() as int,
            (x + y).len() as int,
        ));
        assert((x + y).subrange(x.len() as int, (x + y).len() as int) =~= y);
    }
}

proof fn lemma_enc_lens()
    ensures
        forall|v: u64| #[trigger] enc_u64(v).len() == 8,
        forall|v: u32| #[trigger] enc_u32(v).len() == 4,
{
    lemma_auto_spec_u64_to_from_le_bytes();
    lemma_auto_spec_u32_to_from_le_bytes();
}

proof fn lemma_byte_items_len(s: Seq<Vec<u8>>)
    ensures
        enc_byte_items(s).len() >= s.len(),
    decreases s.len(),
{
    lemma_auto_spec_u64_to_from_le_bytes();
    if s.len() > 0 {
        lemma_byte_items_len(s.drop_last());
    }
}

proof fn lemma_block_items_len(s: Seq<BlockData>)
    ensures
        enc_block_items(s).len() >= s.len(),
    decreases s.len(),
{
    lemma_auto_spec_u64_to_from_le_bytes();
    if s.len() > 0 {
        lemma_block_items_len(s.drop_last());
    }
}

proof fn lemma_block_items_take(s: Seq<BlockData>, k: int)
    requires
        0 <= k < s.len(),
    ensures
        enc_block_items(s.take(k + 1)) == enc_block_items(s.take(k)) + enc_block_data(s[k]),
{
    assert(s.take(k + 1).drop_last() =~= s.take(k));
}

proof fn lemma_byte_items_take(s: Seq<Vec<u8>>, k: int)
    requires
        0 <= k < s.len(),
    ensures
        enc_byte_items(s.take(k + 1)) == enc_byte_items(s.take(k)) + enc_bytes(s[k]@),
{
    assert(s.take(k + 1).drop_last() =~= s.take(k));
}

/// The encoding of a run of items starts with the encoding of each prefix.
proof fn lemma_byte_items_prefix(s: Seq<Vec<u8>>, k: int)
    requires
        0 <= k <= s.len(),
    ensures
        exists|rest: Seq<u8>| enc_byte_items(s) == #[trigger] (enc_byte_items(s.take(k)) + rest),
    decreases s.len() - k,
{
    if k == s.len() {
        assert(s.take(k) =~= s);
        assert(enc_byte_items(s) =~= enc_byte_items(s.take(k)) + Seq::<u8>::empty());
    } else {
        lemma_byte_items_prefix(s, k + 1);
        lemma_byte_items_take(s, k);
        let rest = choose|rest: Seq<u8>| enc_byte_items(s) == #[trigger] (enc_byte_items(s.take(k + 1)) + rest);
        assert(enc_byte_items(s) =~= enc_byte_items(s.take(k)) + (enc_bytes(s[k]@) + rest));
    }
}

proof fn lemma_block_items_prefix(s: Seq<BlockData>, k: int)
    requires
        0 <= k <= s.len(),
    ensures
        exists|rest: Seq<u8>| enc_block_items(s) == #[trigger] (enc_block_items(s.take(k)) + rest),
    decreases s.len() - k,
{
    if k == s.len() {
        assert(s.take(k) =~= s);
        assert(enc_block_items(s) =~= enc_block_items(s.take(k)) + Seq::<u8>::empty());
    } else {
        lemma_block_items_prefix(s, k + 1);
        lemma_block_items_take(s, k);
        let rest = choose|rest: Seq<u8>| enc_block_items(s) == #[trigger] (enc_block_items(s.take(k + 1)) + rest);
        assert(enc_block_items(s) =~= enc_block_items(s.take(k)) + (enc_block_data(s[k]) + rest));
    }
}

fn get_u8(b: &[u8], pos: &mut usize) -> (r: Option<u8>)
    ensures
        forall|v: u8|
            at(b@, *old(pos) as int, #[trigger] seq![v]) ==> r == Some(v) && *final(pos) == *old(pos) + 1,
{
    if *pos < b.len() {
        let v = b[*pos];
        proof {
            assert forall|w: u8| at(b@, *old(pos) as int, #[trigger] seq![w]) implies w == v by {
                assert(b@.subrange(*old(pos) as int, *old(pos) + 1)[0] == b@[*old(pos) as int]);
            }
        }
        *pos = *pos + 1;
        Some(v)
    } else {
        None
    }
}

fn get_u64(b: &[u8], pos: &mut usize) -> (r: Option<u64>)
    ensures
        forall|v: u64|
            at(b@, *old(pos) as int, #[trigger] enc_u64(v)) ==> r == Some(v) && *final(pos) == *old(pos) + 8,
{
    proof {
        lemma_auto_spec_u64_to_from_le_bytes();
    }
    if *pos <= b.len() && b.len() - *pos >= 8 {
        let s = vstd::slice::slice_subrange(b, *pos, *pos + 8);
        let v = u64_from_le_bytes(s);
        *pos = *pos + 8;
        Some(v)
    } else {
        None
    }
}

fn get_u32(b: &[u8], pos: &mut usize) -> (r: Option<u32>)
    ensures
        forall|v: u32|
            at(b@, *old(pos) as int, #[trigger] enc_u32(v)) ==> r == Some(v) && *final(pos) == *old(pos) + 4,
{
    proof {
        lemma_auto_spec_u32_to_from_le_bytes();
    }
    if *pos <= b.len() && b.len() - *pos >= 4 {
        let s = vstd::slice::slice_subrange(b, *pos, *pos + 4);
        let v = u32_from_le_bytes(s);
        *pos = *pos + 4;
        Some(v)
    } else {
        None
    }
}

fn get_hash(b: &[u8], pos: &mut usize) -> (r: Option<H256>)
    ensures
        forall|v: H256|
            at(b@, *old(pos) as int, #[trigger] enc_hash(v)) ==> r == Some(v) && *final(pos) == *old(pos) + 32,
{
    broadcast use lemma_at_split;
    proof {
        lemma_enc_lens();
    }
    let w0 = match get_u64(b, pos) { Some(w) => w, None => { return None; } };
    let w1 = match get_u64(b, pos) { Some(w) => w, None => { return None; } };
    let w2 = match get_u64(b, pos) { Some(w) => w, None => { return None; } };
    let w3 = match get_u64(b, pos) { Some(w) => w, None => { return None; } };
    Some(H256 { w0, w1, w2, w3 })
}

fn get_bytes(b: &[u8], pos: &mut usize) -> (r: Option<Vec<u8>>)
    ensures
        forall|v: Seq<u8>|
            at(b@, *old(pos) as int, #[trigger] enc_bytes(v)) ==> (r matches Some(w) && w@ == v)
                && *final(pos) == *old(pos) + enc_bytes(v).len(),
{
    broadcast use lemma_at_split;
    proof {
        lemma_enc_lens();
    }
    let n = match get_u64(b, pos) { Some(n) => n, None => { return None; } };
    if *pos > b.len() || ((b.len() - *pos) as u64) < n {
        return None;
    }
    let start = *pos;
    let mut v: Vec<u8> = Vec::new();
    let mut i: u64 = 0;
    while i < n
        invariant
            start <= *pos,
            *pos == start + i,
            i <= n,
            start + n <= b@.len(),
            v@ == b@.subrange(start as int, *pos as int),
        decreases n - i,
    {
        proof {
            lemma_enc_lens();
        }
        v.push(b[*pos]);
        *pos = *pos + 1;
        i = i + 1;
        assert(v@ =~= b@.subrange(start as int, *pos as int));
    }
    Some(v)
}

fn get_byte_list(b: &[u8], pos: &mut usize) -> (r: Option<Vec<Vec<u8>>>)
    ensures
        forall|l: Seq<Vec<u8>>|
            at(b@, *old(pos) as int, #[trigger] enc_byte_list(l)) ==> (r matches Some(w)
                && enc_byte_list(w@) == enc_byte_list(l)) && *final(pos) == *old(pos)
                + enc_byte_list(l).len(),
{
    broadcast use lemma_at_split;
    proof {
        lemma_enc_lens();
    }
    let _len = b.len();
    let ghost p0 = *pos as int;
    proof {
        assert forall|l: Seq<Vec<u8>>| at(b@, p0, #[trigger] enc_byte_list(l)) implies at(b@, p0, enc_u64(l.len() as u64)) && at(b@, p0 + 8, enc_byte_items(l)) && l.len() < 0x1_0000_0000_0000_0000 by {
            lemma_at_split(b@, p0, enc_u64(l.len() as u64), enc_byte_items(l));
            lemma_byte_items_len(l);
        }
    }
    let n = match get_u64(b, pos) { Some(n) => n, None => { return None; } };
    let mut v: Vec<Vec<u8>> = Vec::new();
    proof {
        assert forall|l: Seq<Vec<u8>>| at(b@, p0, #[trigger] enc_byte_list(l)) implies enc_byte_items(v@) == enc_byte_items(l.take(0)) by {
            assert(l.take(0) =~= Seq::<Vec<u8>>::empty());
            assert(v@ =~= Seq::<Vec<u8>>::empty());
        }
    }
    let mut i: u64 = 0;
    while i < n
        invariant
            p0 == *old(pos) as int,
            i <= n,
            v@.len() == i,
            forall|l: Seq<Vec<u8>>|
                at(b@, p0, #[trigger] enc_byte_list(l)) ==> {
                    &&& l.len() == n
                    &&& *pos == p0 + 8 + enc_byte_items(l.take(i as int)).len()
                    &&& enc_byte_items(v@) == enc_byte_items(l.take(i as int))
                },
        decreases n - i,
    {
        proof {
            lemma_enc_lens();
        }
        let ghost p1 = *pos as int;
        let item = match get_bytes(b, pos) {
            Some(x) => x,
            None => {
                proof {
                    assert forall|l: Seq<Vec<u8>>| at(b@, p0, #[trigger] enc_byte_list(l)) implies false by {
                        lemma_byte_items_prefix(l, i + 1);
                        lemma_byte_items_take(l, i as int);
                        let rest = choose|rest: Seq<u8>| enc_byte_items(l) == #[trigger] (enc_byte_items(l.take(i + 1)) + rest);
                        let x = enc_byte_items(l.take(i as int));
                        let y = enc_bytes(l[i as int]@);
                        lemma_at_split(b@, p0, enc_u64(l.len() as u64), enc_byte_items(l));
                        assert(enc_u64(l.len() as u64).len() == 8);
                        assert(at(b@, p0 + 8, enc_byte_items(l)));
                        assert(enc_byte_items(l.take(i + 1)) == x + y);
                        assert(enc_byte_items(l) == (x + y) + rest);
                        assert(at(b@, p0 + 8, (x + y) + rest));
                        lemma_at_split(b@, p0 + 8, x + y, rest);
                        lemma_at_split(b@, p0 + 8, x, y);
                        assert(at(b@, p1, enc_bytes(l[i as int]@)));
                    }
                }
                return None;
            },
        };
        proof {
            assert forall|l: Seq<Vec<u8>>| at(b@, p0, #[trigger] enc_byte_list(l)) implies {
                &&& l.len() == n
                &&& *pos == p0 + 8 + enc_byte_items(l.take(i + 1)).len()
                &&& enc_byte_items(v@.push(item)) == enc_byte_items(l.take(i + 1))
            } by {
                lemma_byte_items_prefix(l, i + 1);
                lemma_byte_items_take(l, i as int);
                let rest = choose|rest: Seq<u8>| enc_byte_items(l) == #[trigger] (enc_byte_items(l.take(i + 1)) + rest);
                let x = enc_byte_items(l.take(i as int));
                let y = enc_bytes(l[i as int]@);
                lemma_at_split(b@, p0, enc_u64(l.len() as u64), enc_byte_items(l));
                assert(enc_u64(l.len() as u64).len() == 8);
                assert(at(b@, p0 + 8, enc_byte_items(l)));
                assert(enc_byte_items(l.take(i + 1)) == x + y);
                assert(enc_byte_items(l) == (x + y) + rest);
                assert(at(b@, p0 + 8, (x + y) + rest));
                lemma_at_split(b@, p0 + 8, x + y, rest);
                lemma_at_split(b@, p0 + 8, x, y);
                assert(at(b@, p1, enc_bytes(l[i as int]@)));
                assert(v@.push(item).drop_last() =~= v@);
            }
        }
        v.push(item);
        i = i + 1;
    }
    proof {
        assert forall|l: Seq<Vec<u8>>| at(b@, p0, #[trigger] enc_byte_list(l)) implies enc_byte_list(v@)
            == enc_byte_list(l) && *pos == p0 + enc_byte_list(l).len() by {
            assert(l.take(i as int) =~= l);
        }
    }
    Some(v)
}

fn get_flag(b: &[u8], pos: &mut usize) -> (r: Option<bool>)
    ensures
        at(b@, *old(pos) as int, seq![0u8]) ==> r == Some(false) && *final(pos) == *old(pos) + 1,
        at(b@, *old(pos) as int, seq![1u8]) ==> r == Some(true) && *final(pos) == *old(pos) + 1,
{
    let t = match get_u8(b, pos) { Some(t) => t, None => { return None; } };
    if t == 0 {
        Some(false)
    } else if t == 1 {
        Some(true)
    } else {
        None
    }
}

fn get_opt_bytes(b: &[u8], pos: &mut usize) -> (r: Option<Option<Vec<u8>>>)
    ensures
        forall|o: Option<Vec<u8>>|
            at(b@, *old(pos) as int, #[trigger] enc_opt_bytes(o)) ==> (r matches Some(w)
                && enc_opt_bytes(w) == enc_opt_bytes(o)) && *final(pos) == *old(pos) + enc_opt_bytes(o).len(),
{
    proof {
        lemma_enc_lens();
    }
    let ghost p0 = *pos as int;
    proof {
        assert forall|o: Option<Vec<u8>>| at(b@, p0, #[trigger] enc_opt_bytes(o)) implies match o {
            None => at(b@, p0, seq![0u8]),
            Some(x) => at(b@, p0, seq![1u8]) && at(b@, p0 + 1, enc_bytes(x@)),
        } by {
            match o {
                None => {},
                Some(x) => {
                    lemma_at_split(b@, p0, seq![1u8], enc_bytes(x@));
                },
            }
        }
    }
    let present = match get_flag(b, pos) { Some(f) => f, None => { return None; } };
    if present {
        match get_bytes(b, pos) { Some(x) => Some(Some(x)), None => None }
    } else {
        Some(None)
    }
}

fn get_opt_byte_list(b: &[u8], pos: &mut usize) -> (r: Option<Option<Vec<Vec<u8>>>>)
    ensures
        forall|o: Option<Vec<Vec<u8>>>|
            at(b@, *old(pos) as int, #[trigger] enc_opt_byte_list(o)) ==> (r matches Some(w)
                && enc_opt_byte_list(w) == enc_opt_byte_list(o)) && *final(pos) == *old(pos)
                + enc_opt_byte_list(o).len(),
{
    proof {
        lemma_enc_lens();
    }
    let ghost p0 = *pos as int;
    proof {
        assert forall|o: Option<Vec<Vec<u8>>>| at(b@, p0, #[trigger] enc_opt_byte_list(o)) implies match o {
            None => at(b@, p0, seq![0u8]),
            Some(x) => at(b@, p0, seq![1u8]) && at(b@, p0 + 1, enc_byte_list(x@)),
        } by {
            match o {
                None => {},
                Some(x) => {
                    lemma_at_split(b@, p0, seq![1u8], enc_byte_list(x@));
                },
            }
        }
    }
    let present = match get_flag(b, pos) { Some(f) => f, None => { return None; } };
    if present {
        match get_byte_list(b, pos) { Some(x) => Some(Some(x)), None => None }
    } else {
        Some(None)
    }
}

fn get_opt_hash(b: &[u8], pos: &mut usize) -> (r: Option<Option<H256>>)
    ensures
        forall|o: Option<H256>|
            at(b@, *old(pos) as int, #[trigger] enc_opt_hash(o)) ==> r == Some(o) && *final(pos)
                == *old(pos) + enc_opt_hash(o).len(),
{
    proof {
        lemma_enc_lens();
    }
    let ghost p0 = *pos as int;
    proof {
        assert forall|o: Option<H256>| at(b@, p0, #[trigger] enc_opt_hash(o)) implies match o {
            None => at(b@, p0, seq![0u8]),
            Some(x) => at(b@, p0, seq![1u8]) && at(b@, p0 + 1, enc_hash(x)),
        } by {
            match o {
                None => {},
                Some(x) => {
                    lemma_at_split(b@, p0, seq![1u8], enc_hash(x));
                },
            }
        }
    }
    let present = match get_flag(b, pos) { Some(f) => f, None => { return None; } };
    if present {
        match get_hash(b, pos) { Some(x) => Some(Some(x)), None => None }
    } else {
        Some(None)
    }
}

fn get_opt_u32(b: &[u8], pos: &mut usize) -> (r: Option<Option<u32>>)
    ensures
        forall|o: Option<u32>|
            at(b@, *old(pos) as int, #[trigger] enc_opt_u32(o)) ==> r == Some(o) && *final(pos)
                == *old(pos) + enc_opt_u32(o).len(),
{
    proof {
        lemma_enc_lens();
    }
    let ghost p0 = *pos as int;
    proof {
        assert forall|o: Option<u32>| at(b@, p0, #[trigger] enc_opt_u32(o)) implies match o {
            None => at(b@, p0, seq![0u8]),
            Some(x) => at(b@, p0, seq![1u8]) && at(b@, p0 + 1, enc_u32(x)),
        } by {
            match o {
                None => {},
                Some(x) => {
                    lemma_at_split(b@, p0, seq![1u8], enc_u32(x));
                },
            }
        }
    }
    let present = match get_flag(b, pos) { Some(f) => f, None => { return None; } };
    if present {
        match get_u32(b, pos) { Some(x) => Some(Some(x)), None => None }
    } else {
        Some(None)
    }
}

/// The role with tag `t`.
fn role_of_tag(t: u8) -> (r: Option<Role>)
    ensures
        forall|x: Role| role_tag(x) == t ==> r == Some(x),
{
    match t {
        0 => Some(Role::Full),
        1 => Some(Role::Light),
        2 => Some(Role::Validator),
        3 => Some(Role::Collator),
        _ => None,
    }
}

/// The block attribute with tag `t`.
fn attribute_of_tag(t: u8) -> (r: Option<BlockAttribute>)
    ensures
        forall|x: BlockAttribute| attribute_tag(x) == t ==> r == Some(x),
{
    match t {
        0 => Some(BlockAttribute::Header),
        1 => Some(BlockAttribute::Body),
        2 => Some(BlockAttribute::Receipt),
        3 => Some(BlockAttribute::MessageQueue),
        4 => Some(BlockAttribute::Justification),
        _ => None,
    }
}

fn get_roles(b: &[u8], pos: &mut usize) -> (r: Option<Vec<Role>>)
    ensures
        forall|l: Seq<Role>|
            at(b@, *old(pos) as int, #[trigger] enc_roles(l)) ==> (r matches Some(w) && w@ == l)
                && *final(pos) == *old(pos) + enc_roles(l).len(),
{
    broadcast use lemma_at_split;
    proof {
        lemma_enc_lens();
    }
    let _len = b.len();
    let ghost p0 = *pos as int;
    proof {
        assert forall|l: Seq<Role>| at(b@, p0, #[trigger] enc_roles(l)) implies at(b@, p0, enc_u64(l.len() as u64)) && at(b@, p0 + 8, l.map_values(|x: Role| role_tag(x))) by {
            lemma_at_split(b@, p0, enc_u64(l.len() as u64), l.map_values(|x: Role| role_tag(x)));
        }
    }
    let n = match get_u64(b, pos) { Some(n) => n, None => { return None; } };
    let mut v: Vec<Role> = Vec::new();
    proof {
        assert forall|l: Seq<Role>| at(b@, p0, #[trigger] enc_roles(l)) implies v@ == l.take(0) by {
            assert(l.take(0) =~= v@);
        }
    }
    let mut i: u64 = 0;
    while i < n
        invariant
            p0 == *old(pos) as int,
            i <= n,
            forall|l: Seq<Role>|
                at(b@, p0, #[trigger] enc_roles(l)) ==> l.len() == n && *pos == p0 + 8 + i && v@
                    == l.take(i as int),
        decreases n - i,
    {
        proof {
            lemma_enc_lens();
        }
        let ghost p1 = *pos as int;
        proof {
            assert forall|l: Seq<Role>| at(b@, p0, #[trigger] enc_roles(l)) implies at(b@, p1, seq![role_tag(l[i as int])]) by {
                let m = l.map_values(|x: Role| role_tag(x));
                lemma_at_split(b@, p0, enc_u64(l.len() as u64), m);
                assert(enc_u64(l.len() as u64).len() == 8);
                assert(at(b@, p0 + 8, m));
                assert(b@.subrange(p0 + 8, p0 + 8 + m.len())[i as int] == m[i as int]);
                assert(b@.subrange(p1, p1 + 1) =~= seq![role_tag(l[i as int])]);
            }
        }
        let t = match get_u8(b, pos) { Some(t) => t, None => { return None; } };
        let x = match role_of_tag(t) { Some(x) => x, None => { return None; } };
        proof {
            assert forall|l: Seq<Role>| at(b@, p0, #[trigger] enc_roles(l)) implies v@.push(x) == l.take(i + 1) by {
                assert(v@.push(x) =~= l.take(i + 1));
            }
        }
        v.push(x);
        i = i + 1;
    }
    proof {
        assert forall|l: Seq<Role>| at(b@, p0, #[trigger] enc_roles(l)) implies v@ == l by {
            assert(l.take(i as int) =~= l);
        }
    }
    Some(v)
}

fn get_attributes(b: &[u8], pos: &mut usize) -> (r: Option<Vec<BlockAttribute>>)
    ensures
        forall|l: Seq<BlockAttribute>|
            at(b@, *old(pos) as int, #[trigger] enc_attributes(l)) ==> (r matches Some(w) && w@ == l)
                && *final(pos) == *old(pos) + enc_attributes(l).len(),
{
    broadcast use lemma_at_split;
    proof {
        lemma_enc_lens();
    }
    let _len = b.len();
    let ghost p0 = *pos as int;
    proof {
        assert forall|l: Seq<BlockAttribute>| at(b@, p0, #[trigger] enc_attributes(l)) implies at(b@, p0, enc_u64(l.len() as u64)) && at(b@, p0 + 8, l.map_values(|x: BlockAttribute| attribute_tag(x))) by {
            lemma_at_split(b@, p0, enc_u64(l.len() as u64), l.map_values(|x: BlockAttribute| attribute_tag(x)));
        }
    }
    let n = match get_u64(b, pos) { Some(n) => n, None => { return None; } };
    let mut v: Vec<BlockAttribute> = Vec::new();
    proof {
        assert forall|l: Seq<BlockAttribute>| at(b@, p0, #[trigger] enc_attributes(l)) implies v@ == l.take(0) by {
            assert(l.take(0) =~= v@);
        }
    }
    let mut i: u64 = 0;
    while i < n
        invariant
            p0 == *old(pos) as int,
            i <= n,
            forall|l: Seq<BlockAttribute>|
                at(b@, p0, #[trigger] enc_attributes(l)) ==> l.len() == n && *pos == p0 + 8 + i
                    && v@ == l.take(i as int),
        decreases n - i,
    {
        proof {
            lemma_enc_lens();
        }
        let ghost p1 = *pos as int;
        proof {
            assert forall|l: Seq<BlockAttribute>| at(b@, p0, #[trigger] enc_attributes(l)) implies at(b@, p1, seq![attribute_tag(l[i as int])]) by {
                let m = l.map_values(|x: BlockAttribute| attribute_tag(x));
                lemma_at_split(b@, p0, enc_u64(l.len() as u64), m);
                assert(enc_u64(l.len() as u64).len() == 8);
                assert(at(b@, p0 + 8, m));
                assert(b@.subrange(p0 + 8, p0 + 8 + m.len())[i as int] == m[i as int]);
                assert(b@.subrange(p1, p1 + 1) =~= seq![attribute_tag(l[i as int])]);
            }
        }
        let t = match get_u8(b, pos) { Some(t) => t, None => { return None; } };
        let x = match attribute_of_tag(t) { Some(x) => x, None => { return None; } };
        proof {
            assert forall|l: Seq<BlockAttribute>| at(b@, p0, #[trigger] enc_attributes(l)) implies v@.push(x) == l.take(i + 1) by {
                assert(v@.push(x) =~= l.take(i + 1));
            }
        }
        v.push(x);
        i = i + 1;
    }
    proof {
        assert forall|l: Seq<BlockAttribute>| at(b@, p0, #[trigger] enc_attributes(l)) implies v@ == l by {
            assert(l.take(i as int) =~= l);
        }
    }
    Some(v)
}

fn get_header(b: &[u8], pos: &mut usize) -> (r: Option<Header>)
    ensures
        forall|h: Header|
            at(b@, *old(pos) as int, #[trigger] enc_header(h)) ==> (r matches Some(w) && enc_header(w)
                == enc_header(h)) && *final(pos) == *old(pos) + enc_header(h).len(),
{
    broadcast use lemma_at_split;
    proof {
        lemma_enc_lens();
    }
    let parent_hash = match get_hash(b, pos) { Some(x) => x, None => { return None; } };
    let number = match get_u64(b, pos) { Some(x) => x, None => { return None; } };
    let state_root = match get_hash(b, pos) { Some(x) => x, None => { return None; } };
    let extrinsics_root = match get_hash(b, pos) { Some(x) => x, None => { return None; } };
    let digest = match get_byte_list(b, pos) { Some(x) => x, None => { return None; } };
    Some(Header { parent_hash, number, state_root, extrinsics_root, digest })
}

#[verifier::rlimit(100)]
fn get_block_data(b: &[u8], pos: &mut usize) -> (r: Option<BlockData>)
    ensures
        forall|d: BlockData|
            at(b@, *old(pos) as int, #[trigger] enc_block_data(d)) ==> (r matches Some(w)
                && enc_block_data(w) == enc_block_data(d)) && *final(pos) == *old(pos)
                + enc_block_data(d).len(),
{
    broadcast use lemma_at_split;
    proof {
        lemma_enc_lens();
    }
    let ghost p0 = *pos as int;
    proof {
        assert forall|d: BlockData| at(b@, p0, #[trigger] enc_block_data(d)) implies at(b@, p0 + 32, enc_opt_header(d.header)) && match d.header {
            None => at(b@, p0 + 32, seq![0u8]),
            Some(h) => at(b@, p0 + 32, seq![1u8]) && at(b@, p0 + 33, enc_header(h)),
        } by {
            let rest = enc_opt_byte_list(d.body) + enc_opt_bytes(d.receipt) + enc_opt_byte_list(d.message_queue) + enc_opt_bytes(d.justification);
            assert(enc_block_data(d) =~= (enc_hash(d.hash) + enc_opt_header(d.header)) + rest);
            lemma_at_split(b@, p0, enc_hash(d.hash) + enc_opt_header(d.header), rest);
            lemma_at_split(b@, p0, enc_hash(d.hash), enc_opt_header(d.header));
            match d.header {
                None => {},
                Some(h) => lemma_at_split(b@, p0 + 32, seq![1u8], enc_header(h)),
            }
        }
    }
    let hash = match get_hash(b, pos) { Some(x) => x, None => { return None; } };
    let present = match get_flag(b, pos) { Some(f) => f, None => { return None; } };
    let header = if present {
        match get_header(b, pos) { Some(x) => Some(x), None => { return None; } }
    } else {
        None
    };
    let body = match get_opt_byte_list(b, pos) { Some(x) => x, None => { return None; } };
    let receipt = match get_opt_bytes(b, pos) { Some(x) => x, None => { return None; } };
    let message_queue = match get_opt_byte_list(b, pos) { Some(x) => x, None => { return None; } };
    let justification = match get_opt_bytes(b, pos) { Some(x) => x, None => { return None; } };
    Some(BlockData { hash, header, body, receipt, message_queue, justification })
}

fn get_request(b: &[u8], pos: &mut usize) -> (r: Option<BlockRequest>)
    ensures
        forall|q: BlockRequest|
            at(b@, *old(pos) as int, #[trigger] enc_request(q)) ==> (r matches Some(w) && enc_request(w)
                == enc_request(q)) && *final(pos) == *old(pos) + enc_request(q).len(),
{
    broadcast use lemma_at_split;
    proof {
        lemma_enc_lens();
    }
    let id = match get_u64(b, pos) { Some(x) => x, None => { return None; } };
    let fields = match get_attributes(b, pos) { Some(x) => x, None => { return None; } };
    let by_number = match get_flag(b, pos) { Some(f) => f, None => { return None; } };
    let from = if by_number {
        match get_u64(b, pos) { Some(x) => FromBlock::Number(x), None => { return None; } }
    } else {
        match get_hash(b, pos) { Some(x) => FromBlock::Hash(x), None => { return None; } }
    };
    let to = match get_opt_hash(b, pos) { Some(x) => x, None => { return None; } };
    let descending = match get_flag(b, pos) { Some(f) => f, None => { return None; } };
    let direction = if descending {
        Direction::Descending
    } else {
        Direction::Ascending
    };
    let max = match get_opt_u32(b, pos) { Some(x) => x, None => { return None; } };
    Some(BlockRequest { id, fields, from, to, direction, max })
}

#[verifier::rlimit(60)]
fn get_response(b: &[u8], pos: &mut usize) -> (r: Option<BlockResponse>)
    ensures
        forall|q: BlockResponse|
            at(b@, *old(pos) as int, #[trigger] enc_response(q)) ==> (r matches Some(w) && enc_response(w)
                == enc_response(q)) && *final(pos) == *old(pos) + enc_response(q).len(),
{
    broadcast use lemma_at_split;
    proof {
        lemma_enc_lens();
    }
    let _len = b.len();
    let ghost p0 = *pos as int;
    proof {
        assert forall|q: BlockResponse| at(b@, p0, #[trigger] enc_response(q)) implies at(b@, p0, enc_u64(q.id)) && at(b@, p0 + 8, enc_u64(q.blocks@.len() as u64)) && q.blocks@.len() < 0x1_0000_0000_0000_0000 by {
            lemma_at_split(b@, p0, enc_u64(q.id) + enc_u64(q.blocks@.len() as u64), enc_block_items(q.blocks@));
            lemma_at_split(b@, p0, enc_u64(q.id), enc_u64(q.blocks@.len() as u64));
            lemma_block_items_len(q.blocks@);
        }
    }
    let id = match get_u64(b, pos) { Some(x) => x, None => { return None; } };
    let n = match get_u64(b, pos) { Some(n) => n, None => { return None; } };
    let mut blocks: Vec<BlockData> = Vec::new();
    proof {
        assert forall|q: BlockResponse| at(b@, p0, #[trigger] enc_response(q)) implies enc_block_items(blocks@) == enc_block_items(q.blocks@.take(0)) by {
            assert(q.blocks@.take(0) =~= Seq::<BlockData>::empty());
            assert(blocks@ =~= Seq::<BlockData>::empty());
        }
    }
    let mut i: u64 = 0;
    while i < n
        invariant
            p0 == *old(pos) as int,
            i <= n,
            blocks@.len() == i,
            forall|q: BlockResponse|
                at(b@, p0, #[trigger] enc_response(q)) ==> {
                    &&& q.id == id
                    &&& q.blocks@.len() == n
                    &&& *pos == p0 + 16 + enc_block_items(q.blocks@.take(i as int)).len()
                    &&& enc_block_items(blocks@) == enc_block_items(q.blocks@.take(i as int))
                },
        decreases n - i,
    {
        proof {
            lemma_enc_lens();
        }
        let ghost p1 = *pos as int;
        let d = match get_block_data(b, pos) {
            Some(x) => x,
            None => {
                proof {
                    assert forall|q: BlockResponse| at(b@, p0, #[trigger] enc_response(q)) implies false by {
                        let l = q.blocks@;
                        lemma_block_items_prefix(l, i + 1);
                        lemma_block_items_take(l, i as int);
                        let rest = choose|rest: Seq<u8>| enc_block_items(l) == #[trigger] (enc_block_items(l.take(i + 1)) + rest);
                        let x = enc_block_items(l.take(i as int));
                        let y = enc_block_data(l[i as int]);
                        lemma_at_split(b@, p0, enc_u64(q.id) + enc_u64(l.len() as u64), enc_block_items(l));
                        assert(at(b@, p0 + 16, (x + y) + rest));
                        lemma_at_split(b@, p0 + 16, x + y, rest);
                        lemma_at_split(b@, p0 + 16, x, y);
                        assert(at(b@, p1, enc_block_data(l[i as int])));
                    }
                }
                return None;
            },
        };
        proof {
            assert forall|q: BlockResponse| at(b@, p0, #[trigger] enc_response(q)) implies {
                &&& *pos == p0 + 16 + enc_block_items(q.blocks@.take(i + 1)).len()
                &&& enc_block_items(blocks@.push(d)) == enc_block_items(q.blocks@.take(i + 1))
            } by {
                let l = q.blocks@;
                lemma_block_items_prefix(l, i + 1);
                lemma_block_items_take(l, i as int);
                let rest = choose|rest: Seq<u8>| enc_block_items(l) == #[trigger] (enc_block_items(l.take(i + 1)) + rest);
                let x = enc_block_items(l.take(i as int));
                let y = enc_block_data(l[i as int]);
                lemma_at_split(b@, p0, enc_u64(q.id) + enc_u64(l.len() as u64), enc_block_items(l));
                assert(at(b@, p0 + 16, (x + y) + rest));
                lemma_at_split(b@, p0 + 16, x + y, rest);
                lemma_at_split(b@, p0 + 16, x, y);
                assert(at(b@, p1, enc_block_data(l[i as int])));
                assert(blocks@.push(d).drop_last() =~= blocks@);
            }
        }
        blocks.push(d);
        i = i + 1;
    }
    proof {
        assert forall|q: BlockResponse| at(b@, p0, #[trigger] enc_response(q)) implies enc_response(
            BlockResponse { id, blocks },
        ) == enc_response(q) && *pos == p0 + enc_response(q).len() by {
            assert(q.blocks@.take(i as int) =~= q.blocks@);
        }
    }
    Some(BlockResponse { id, blocks })
}

fn get_status(b: &[u8], pos: &mut usize) -> (r: Option<Status>)
    ensures
        forall|q: Status|
            at(b@, *old(pos) as int, #[trigger] enc_status(q)) ==> (r matches Some(w) && enc_status(w)
                == enc_status(q)) && *final(pos) == *old(pos) + enc_status(q).len(),
{
    broadcast use lemma_at_split;
    proof {
        lemma_enc_lens();
    }
    let version = match get_u32(b, pos) { Some(x) => x, None => { return None; } };
    let genesis_hash = match get_hash(b, pos) { Some(x) => x, None => { return None; } };
    let roles = match get_roles(b, pos) { Some(x) => x, None => { return None; } };
    let best_number = match get_u64(b, pos) { Some(x) => x, None => { return None; } };
    let best_hash = match get_hash(b, pos) { Some(x) => x, None => { return None; } };
    let authority_signature = match get_opt_bytes(b, pos) { Some(x) => x, None => { return None; } };
    let authority_id = match get_opt_hash(b, pos) { Some(x) => x, None => { return None; } };
    let chain_status = match get_bytes(b, pos) { Some(x) => x, None => { return None; } };
    Some(
        Status {
            version,
            genesis_hash,
            roles,
            best_number,
            best_hash,
            authority_signature,
            authority_id,
            chain_status,
        },
    )
}

#[verifier::rlimit(60)]
fn parse_message(b: &[u8], pos: &mut usize) -> (r: Option<Message>)
    ensures
        forall|m: Message|
            at(b@, *old(pos) as int, #[trigger] enc_message(m)) ==> (r matches Some(w) && enc_message(w)
                == enc_message(m)),
{
    let ghost p0 = *pos as int;
    proof {
        assert forall|m: Message| at(b@, p0, #[trigger] enc_message(m)) implies match m {
            Message::Status(x) => at(b@, p0, seq![0u8]) && at(b@, p0 + 1, enc_status(x)),
            Message::BlockRequest(x) => at(b@, p0, seq![1u8]) && at(b@, p0 + 1, enc_request(x)),
            Message::BlockResponse(x) => at(b@, p0, seq![2u8]) && at(b@, p0 + 1, enc_response(x)),
            Message::BlockAnnounce(x) => at(b@, p0, seq![3u8]) && at(b@, p0 + 1, enc_header(x.header)),
            Message::BftMessage(x) => at(b@, p0, seq![4u8]) && at(b@, p0 + 1, enc_bytes(x@)),
            Message::Extrinsics(x) => at(b@, p0, seq![5u8]) && at(b@, p0 + 1, enc_byte_list(x@)),
            Message::ChainSpecific(x) => at(b@, p0, seq![6u8]) && at(b@, p0 + 1, enc_bytes(x@)),
        } by {
            match m {
                Message::Status(x) => lemma_at_split(b@, p0, seq![0u8], enc_status(x)),
                Message::BlockRequest(x) => lemma_at_split(b@, p0, seq![1u8], enc_request(x)),
                Message::BlockResponse(x) => lemma_at_split(b@, p0, seq![2u8], enc_response(x)),
                Message::BlockAnnounce(x) => lemma_at_split(b@, p0, seq![3u8], enc_header(x.header)),
                Message::BftMessage(x) => lemma_at_split(b@, p0, seq![4u8], enc_bytes(x@)),
                Message::Extrinsics(x) => lemma_at_split(b@, p0, seq![5u8], enc_byte_list(x@)),
                Message::ChainSpecific(x) => lemma_at_split(b@, p0, seq![6u8], enc_bytes(x@)),
            }
        }
    }
    let tag = match get_u8(b, pos) { Some(t) => t, None => { return None; } };
    if tag == 0 {
        match get_status(b, pos) { Some(x) => Some(Message::Status(x)), None => None }
    } else if tag == 1 {
        match get_request(b, pos) { Some(x) => Some(Message::BlockRequest(x)), None => None }
    } else if tag == 2 {
        match get_response(b, pos) { Some(x) => Some(Message::BlockResponse(x)), None => None }
    } else if tag == 3 {
        match get_header(b, pos) { Some(x) => Some(Message::BlockAnnounce(BlockAnnounce { header: x })), None => None }
    } else if tag == 4 {
        match get_bytes(b, pos) { Some(x) => Some(Message::BftMessage(x)), None => None }
    } else if tag == 5 {
        match get_byte_list(b, pos) { Some(x) => Some(Message::Extrinsics(x)), None => None }
    } else if tag == 6 {
        match get_bytes(b, pos) { Some(x) => Some(Message::ChainSpecific(x)), None => None }
    } else {
        None
    }
}

fn bytes_equal(a: &[u8], b: &[u8]) -> (r: bool)
    ensures
        r == (a@ == b@),
{
    if a.len() != b.len() {
        return false;
    }
    let mut i: usize = 0;
    while i < a.len()
        invariant
            a@.len() == b@.len(),
            i <= a@.len(),
            a@.subrange(0, i as int) == b@.subrange(0, i as int),
        decreases a@.len() - i,
    {
        if a[i] != b[i] {
            assert(a@[i as int] != b@[i as int]);
            return false;
        }
        assert(a@.subrange(0, i + 1) =~= a@.subrange(0, i as int).push(a@[i as int]));
        assert(b@.subrange(0, i + 1) =~= b@.subrange(0, i as int).push(b@[i as int]));
        i = i + 1;
    }
    assert(a@ =~= a@.subrange(0, i as int));
    assert(b@ =~= b@.subrange(0, i as int));
    true
}

/// Decodes the bytes of one message. A message is returned only if it
/// encodes to exactly these bytes; anything else is malformed. The encoding
/// of every message decodes, to a message with that same encoding.
pub fn decode(b: &[u8]) -> (r: Option<Message>)
    ensures
        r matches Some(m) ==> enc_message(m) == b@,
        forall|m: Message| #[trigger] enc_message(m) == b@ ==> r is Some,
{
    let mut pos: usize = 0;
    assert forall|m: Message| #[trigger] enc_message(m) == b@ implies at(b@, 0, enc_message(m)) by {
        assert(b@.subrange(0, b@.len() as int) =~= b@);
    }
    let m = match parse_message(b, &mut pos) { Some(m) => m, None => { return None; } };
    let again = encode(&m);
    if bytes_equal(again.as_slice(), b) {
        Some(m)
    } else {
        None
    }
}

/// Hash of a header: BLAKE2b-256 of its encoding.
pub open spec fn spec_header_hash(h: Header) -> H256 {
    spec_blake2_256(enc_header(h))
}

/// Hashes a header.
pub fn header_hash(h: &Header) -> (r: H256)
    ensures
        r == spec_header_hash(*h),
{
    let bytes = encode_header(h);
    blake2_256(bytes.as_slice())
}

/// Hashes a message by its encoding. Two messages with the same encoding
/// share the hash; this is no identity, only a coarse key.
pub fn hash_message(m: &Message) -> (r: H256)
    ensures
        r == spec_blake2_256(enc_message(*m)),
{
    let bytes = encode(m);
    blake2_256(bytes.as_slice())
}

/// Encodes the announcement of a header.
pub fn encode_announce(h: &Header) -> (r: Vec<u8>)
    ensures
        r@ == enc_message(Message::BlockAnnounce(BlockAnnounce { header: *h })),
{
    let mut out: Vec<u8> = Vec::new();
    put_u8(&mut out, 3);
    put_header(&mut out, h);
    assert(out@ =~= enc_message(Message::BlockAnnounce(BlockAnnounce { header: *h })));
    out
}

/// Encodes a block request as a message.
pub fn encode_request(r: &BlockRequest) -> (out: Vec<u8>)
    ensures
        out@ == enc_message(Message::BlockRequest(*r)),
{
    let mut out: Vec<u8> = Vec::new();
    put_u8(&mut out, 1);
    put_request(&mut out, r);
    assert(out@ =~= enc_message(Message::BlockRequest(*r)));
    out
}

/// Encodes a block response as a message.
pub fn encode_response(r: &BlockResponse) -> (out: Vec<u8>)
    ensures
        out@ == enc_message(Message::BlockResponse(*r)),
{
    let mut out: Vec<u8> = Vec::new();
    put_u8(&mut out, 2);
    put_response(&mut out, r);
    assert(out@ =~= enc_message(Message::BlockResponse(*r)));
    out
}

} // verus!
