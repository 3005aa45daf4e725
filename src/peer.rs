//! The peer wire protocol: handshake, message framing, block requests and
//! piece assembly.
use vstd::prelude::*;
use bytes::{BufMut, BytesMut};
use crate::bencode::copy_range;
use crate::digest::{sha1_bytes, sha1_of};

verus! {

#[verifier::external_type_specification]
#[verifier::external_body]
pub struct ExBytesMut(BytesMut);

/// The bytes that a buffer holds, in order.
pub uninterp spec fn buffer_contents(b: BytesMut) -> Seq<u8>;

/// Relies on `bytes::BytesMut::with_capacity`: a new buffer holds nothing.
#[verifier::external_body]
fn buffer_with_capacity(capacity: usize) -> (r: BytesMut)
    ensures
        buffer_contents(r) == Seq::<u8>::empty(),
{
    BytesMut::with_capacity(capacity)
}

/// Relies on `BufMut::put_slice` for `BytesMut`: appends the bytes of `src`.
#[verifier::external_body]
fn put_slice(buf: &mut BytesMut, src: &[u8])
    ensures
        buffer_contents(*final(buf)) == buffer_contents(*old(buf)) + src@,
{
    buf.put_slice(src)
}

/// Relies on `BufMut::put_bytes` for `BytesMut`: appends `count` copies of
/// `value`.
#[verifier::external_body]
fn put_bytes(buf: &mut BytesMut, value: u8, count: usize)
    ensures
        buffer_contents(*final(buf)) == buffer_contents(*old(buf)) + Seq::new(
            count as nat,
            |i: int| value,
        ),
{
    buf.put_bytes(value, count)
}

/// Relies on `BufMut::put_u8` for `BytesMut`: appends one byte.
#[verifier::external_body]
fn put_u8(buf: &mut BytesMut, value: u8)
    ensures
        buffer_contents(*final(buf)) == buffer_contents(*old(buf)).push(value),
{
    buf.put_u8(value)
}

/// Relies on `BufMut::put_u32` for `BytesMut`: appends the four bytes of
/// `value`, most significant first.
#[verifier::external_body]
fn put_u32(buf: &mut BytesMut, value: u32)
    ensures
        buffer_contents(*final(buf)) == buffer_contents(*old(buf)) + be_bytes(value),
{
    buf.put_u32(value)
}

/// The four bytes of `v`, most significant first.
pub open spec fn be_bytes(v: u32) -> Seq<u8> {
    seq![
        (v / 16777216) as u8,
        ((v / 65536) % 256) as u8,
        ((v / 256) % 256) as u8,
        (v % 256) as u8,
    ]
}

/// The number whose big-endian bytes are `b[0..4]`.
pub open spec fn be_value(b: Seq<u8>) -> nat {
    (b[0] as nat) * 16777216 + (b[1] as nat) * 65536 + (b[2] as nat) * 256 + (b[3] as nat)
}

/// The protocol identifier `BitTorrent protocol`.
pub open spec fn protocol_id() -> Seq<u8> {
    seq![66u8, 105, 116, 84, 111, 114, 114, 101, 110, 116, 32, 112, 114, 111, 116, 111, 99, 111, 108]
}

/// The 68-byte handshake: the identifier's length, the identifier, eight
/// reserved zero bytes, the info hash and the local peer id.
pub open spec fn handshake_bytes(info_hash: Seq<u8>, peer_id: Seq<u8>) -> Seq<u8> {
    seq![19u8] + protocol_id() + Seq::new(8, |i: int| 0u8) + info_hash + peer_id
}

/// Why a peer exchange failed.
#[derive(Debug, PartialEq, Eq, Clone, Copy)]
pub enum PeerError {
    /// The peer sent fewer than 68 handshake bytes before closing.
    HandshakeIncomplete,
    /// The stream ended inside a message.
    TruncatedMessage,
    /// A message with a zero length or an unknown id, or one that is not
    /// what the exchange expects at its place.
    MalformedMessage,
}

/// The local peer id: `KS001122334455667788`.
pub fn generate_peer_id() -> (r: [u8; 20])
    ensures
        r@ == seq![75u8, 83, 48, 48, 49, 49, 50, 50, 51, 51, 52, 52, 53, 53, 54, 54, 55, 55, 56, 56],
{
    let id: [u8; 20] = [75, 83, 48, 48, 49, 49, 50, 50, 51, 51, 52, 52, 53, 53, 54, 54, 55, 55, 56, 56];
    assert(id@ =~= seq![75u8, 83, 48, 48, 49, 49, 50, 50, 51, 51, 52, 52, 53, 53, 54, 54, 55, 55, 56, 56]);
    id
}

/// Builds the handshake that opens a session.
pub fn init_handshake(info_hash: [u8; 20], peer_id: [u8; 20]) -> (r: BytesMut)
    ensures
        buffer_contents(r) == handshake_bytes(info_hash@, peer_id@),
        buffer_contents(r).len() == 68,
{
    let protocol: [u8; 19] = [
        66, 105, 116, 84, 111, 114, 114, 101, 110, 116, 32, 112, 114, 111, 116, 111, 99, 111, 108,
    ];
    assert(protocol@ =~= protocol_id());
    let mut buf = buffer_with_capacity(68);
    put_u8(&mut buf, 19);
    put_slice(&mut buf, protocol.as_slice());
    put_bytes(&mut buf, 0, 8);
    put_slice(&mut buf, info_hash.as_slice());
    put_slice(&mut buf, peer_id.as_slice());
    assert(buffer_contents(buf) =~= handshake_bytes(info_hash@, peer_id@));
    buf
}

/// Reads the remote peer id out of the peer's handshake reply. The first 48
/// bytes are taken as they come.
pub fn parse_handshake(reply: &[u8]) -> (r: Result<[u8; 20], PeerError>)
    ensures
        reply@.len() < 68 ==> r == Err::<[u8; 20], PeerError>(PeerError::HandshakeIncomplete),
        reply@.len() >= 68 ==> (r matches Ok(id) && id@ == reply@.subrange(48, 68)),
{
    if reply.len() < 68 {
        return Err(PeerError::HandshakeIncomplete);
    }
    let mut id = [0u8; 20];
    let mut j: usize = 0;
    while j < 20
        invariant
            j <= 20,
            reply@.len() >= 68,
            forall|k: int| 0 <= k < j ==> id@[k] == reply@[48 + k],
        decreases 20 - j,
    {
        id[j] = reply[48 + j];
        j += 1;
    }
    assert(id@ =~= reply@.subrange(48, 68));
    Ok(id)
}


/// A framed message: its length prefix, its id, and its payload for the
/// kinds that carry one.
#[derive(Debug, PartialEq, Eq)]
pub struct PeerMessage {
    pub length_prefix: u32,
    pub id: u8,
    pub payload: Option<Vec<u8>>,
}

/// Choke, unchoke, interested and not interested carry no payload.
pub open spec fn has_no_payload(id: u8) -> bool {
    id <= 3
}

/// The length that a frame's four-byte prefix declares.
pub fn frame_length(prefix: [u8; 4]) -> (r: u32)
    ensures
        r == be_value(prefix@),
{
    prefix[0] as u32 * 16777216 + prefix[1] as u32 * 65536 + prefix[2] as u32 * 256
        + prefix[3] as u32
}

/// Decodes the message framed at the start of `frame`:
/// `<4-byte big-endian length><id><payload>`. Returns it with the number of
/// bytes it took. Choke, unchoke, interested and not interested carry no
/// payload: any bytes framed with them are skipped.
pub fn decode_peer_message(frame: &[u8]) -> (r: Result<(PeerMessage, usize), PeerError>)
    ensures
        frame@.len() < 4 ==> r == Err::<(PeerMessage, usize), PeerError>(
            PeerError::TruncatedMessage,
        ),
        frame@.len() >= 4 && be_value(frame@) == 0 ==> r == Err::<(PeerMessage, usize), PeerError>(
            PeerError::MalformedMessage,
        ),
        frame@.len() >= 4 && be_value(frame@) > 0 && frame@.len() < 4 + be_value(frame@) ==> r
            == Err::<(PeerMessage, usize), PeerError>(PeerError::TruncatedMessage),
        frame@.len() >= 4 && be_value(frame@) > 0 && frame@.len() >= 4 + be_value(frame@)
            && frame@[4] > 8 ==> r == Err::<(PeerMessage, usize), PeerError>(
            PeerError::MalformedMessage,
        ),
        frame@.len() >= 4 && be_value(frame@) > 0 && frame@.len() >= 4 + be_value(frame@)
            && frame@[4] <= 8 ==> (r matches Ok((m, n)) && n == 4 + be_value(frame@)
            && m.length_prefix == be_value(frame@) && m.id == frame@[4] && (has_no_payload(m.id)
            ==> m.payload is None) && (!has_no_payload(m.id) ==> (m.payload matches Some(p)
            && p@ == frame@.subrange(5, n as int)))),
{
    if frame.len() < 4 {
        return Err(PeerError::TruncatedMessage);
    }
    let length = frame_length([frame[0], frame[1], frame[2], frame[3]]);
    if length == 0 {
        return Err(PeerError::MalformedMessage);
    }
    if ((frame.len() - 4) as u64) < length as u64 {
        return Err(PeerError::TruncatedMessage);
    }
    let end = 4 + length as usize;
    let id = frame[4];
    if id > 8 {
        return Err(PeerError::MalformedMessage);
    }
    let payload = if id <= 3 {
        None
    } else {
        Some(copy_range(frame, 5, end))
    };
    Ok((PeerMessage { length_prefix: length, id, payload }, end))
}

/// The interested message: length 1, id 2.
pub fn interested_message() -> (r: [u8; 5])
    ensures
        r@ == be_bytes(1) + seq![2u8],
{
    let r: [u8; 5] = [0, 0, 0, 1, 2];
    assert(r@ =~= be_bytes(1) + seq![2u8]);
    r
}

/// The request message for `length` bytes at `begin` within piece `index`:
/// length 13, id 6, then the three numbers big-endian.
pub fn request_message(index: u32, begin: u32, length: u32) -> (r: BytesMut)
    ensures
        buffer_contents(r) == be_bytes(13) + seq![6u8] + be_bytes(index) + be_bytes(begin)
            + be_bytes(length),
{
    let mut buf = buffer_with_capacity(17);
    put_u32(&mut buf, 13);
    put_u8(&mut buf, 6);
    put_u32(&mut buf, index);
    put_u32(&mut buf, begin);
    put_u32(&mut buf, length);
    assert(buffer_contents(buf) =~= be_bytes(13) + seq![6u8] + be_bytes(index) + be_bytes(begin)
        + be_bytes(length));
    buf
}

/// The size of the blocks that a piece is requested in: 16 KiB.
pub const BLOCK_SIZE: u32 = 16384;

/// One block request: `length` bytes at `offset` within piece `piece_index`.
#[derive(Debug, PartialEq, Eq, Clone, Copy)]
pub struct BlockRequest {
    pub piece_index: u32,
    pub offset: u32,
    pub length: u32,
}

/// The number of blocks in a piece of `piece_length` bytes.
pub open spec fn block_count(piece_length: nat) -> nat {
    ((piece_length + BLOCK_SIZE - 1) as nat) / (BLOCK_SIZE as nat)
}

/// The size of block `i` of a piece: a whole block, or what is left.
pub open spec fn block_size_at(piece_length: nat, i: nat) -> nat {
    let offset = i * BLOCK_SIZE;
    if piece_length - offset < BLOCK_SIZE {
        (piece_length - offset) as nat
    } else {
        BLOCK_SIZE as nat
    }
}

/// Splits a piece into its block requests, in order of offset.
pub fn block_requests(piece_index: u32, piece_length: u32) -> (r: Vec<BlockRequest>)
    ensures
        r@.len() == block_count(piece_length as nat),
        forall|i: int|
            0 <= i < r@.len() ==> (#[trigger] r@[i]).piece_index == piece_index && r@[i].offset == i
                * BLOCK_SIZE && r@[i].length == block_size_at(piece_length as nat, i as nat),
        requests_total(r@) == piece_length,
{
    let count: u32 = ((piece_length as u64 + 16383) / 16384) as u32;
    let mut r: Vec<BlockRequest> = Vec::new();
    let mut i: u32 = 0;
    while i < count
        invariant
            count == block_count(piece_length as nat),
            i <= count,
            r@.len() == i,
            forall|j: int|
                0 <= j < i ==> (#[trigger] r@[j]).piece_index == piece_index && r@[j].offset == j
                    * BLOCK_SIZE && r@[j].length == block_size_at(piece_length as nat, j as nat),
            i * 16384 <= piece_length ==> requests_total(r@) == i * 16384,
            i * 16384 > piece_length ==> requests_total(r@) == piece_length,
        decreases count - i,
    {
        assert(i * 16384 < piece_length) by (nonlinear_arith)
            requires
                i < count,
                count == (piece_length + 16383) / 16384,
        ;
        let ghost old_r = r@;
        let offset = i * BLOCK_SIZE;
        let length = if piece_length - offset < BLOCK_SIZE {
            piece_length - offset
        } else {
            BLOCK_SIZE
        };
        r.push(BlockRequest { piece_index, offset, length });
        assert(r@.drop_last() =~= old_r);
        i += 1;
    }
    assert(count * 16384 >= piece_length) by (nonlinear_arith)
        requires
            count == (piece_length + 16383) / 16384,
    ;
    r
}

/// The number of bytes that the requests ask for in all.
pub open spec fn requests_total(s: Seq<BlockRequest>) -> nat
    decreases s.len(),
{
    if s.len() == 0 {
        0
    } else {
        requests_total(s.drop_last()) + s.last().length as nat
    }
}


/// A piece message whose payload holds the 4-byte index, the 4-byte offset
/// and then the block bytes.
pub open spec fn is_piece_block(m: PeerMessage) -> bool {
    m.id == 7 && (m.payload matches Some(p) && p@.len() >= 8)
}

/// The block bytes of a piece message: its payload after the index and the
/// offset.
pub open spec fn block_data(m: PeerMessage) -> Seq<u8> {
    let p = m.payload->Some_0@;
    p.subrange(8, p.len() as int)
}

/// The block bytes of the messages, one after the other.
pub open spec fn concat_blocks(s: Seq<PeerMessage>) -> Seq<u8>
    decreases s.len(),
{
    if s.len() == 0 {
        Seq::empty()
    } else {
        concat_blocks(s.drop_last()) + block_data(s.last())
    }
}

/// Each message is a piece message, with its header, carrying exactly as
/// many bytes as the request in the same place asks for.
pub open spec fn blocks_answer(requests: Seq<BlockRequest>, blocks: Seq<PeerMessage>) -> bool {
    &&& blocks.len() == requests.len()
    &&& forall|i: int|
        0 <= i < blocks.len() ==> is_piece_block(#[trigger] blocks[i]) && block_data(blocks[i]).len()
            == requests[i].length
}

/// Reassembles a piece from the answers to its block requests, taken in
/// the order in which they arrived. Fails unless there is one piece message
/// per request and each carries the length that its request asks for; the
/// piece then has the length that the requests add up to.
pub fn assemble_piece(requests: &Vec<BlockRequest>, blocks: &Vec<PeerMessage>) -> (r: Result<
    Vec<u8>,
    PeerError,
>)
    ensures
        blocks_answer(requests@, blocks@) ==> (r matches Ok(piece) && piece@ == concat_blocks(
            blocks@,
        ) && piece@.len() == requests_total(requests@)),
        !blocks_answer(requests@, blocks@) ==> r == Err::<Vec<u8>, PeerError>(
            PeerError::MalformedMessage,
        ),
{
    if blocks.len() != requests.len() {
        return Err(PeerError::MalformedMessage);
    }
    let mut piece: Vec<u8> = Vec::new();
    let mut i: usize = 0;
    while i < blocks.len()
        invariant
            i <= blocks@.len(),
            blocks@.len() == requests@.len(),
            forall|j: int|
                0 <= j < i ==> is_piece_block(#[trigger] blocks@[j]) && block_data(blocks@[j]).len()
                    == requests@[j].length,
            piece@ == concat_blocks(blocks@.take(i as int)),
            piece@.len() == requests_total(requests@.take(i as int)),
        decreases blocks.len() - i,
    {
        let m = &blocks[i];
        let p = match &m.payload {
            Some(p) => p,
            None => {
                return Err(PeerError::MalformedMessage);
            },
        };
        if m.id != 7 || p.len() < 8 || p.len() - 8 != requests[i].length as usize {
            return Err(PeerError::MalformedMessage);
        }
        let mut k: usize = 8;
        let ghost before = piece@;
        while k < p.len()
            invariant
                8 <= k <= p@.len(),
                piece@ == before + p@.subrange(8, k as int),
            decreases p.len() - k,
        {
            piece.push(p[k]);
            assert(p@.subrange(8, k as int + 1) =~= p@.subrange(8, k as int).push(p[k as int]));
            k += 1;
        }
        assert(blocks@.take(i as int + 1).drop_last() =~= blocks@.take(i as int));
        assert(requests@.take(i as int + 1).drop_last() =~= requests@.take(i as int));
        assert(p@.subrange(8, p@.len() as int) == block_data(blocks@[i as int]));
        i += 1;
    }
    assert(blocks@.take(blocks@.len() as int) =~= blocks@);
    assert(requests@.take(requests@.len() as int) =~= requests@);
    Ok(piece)
}

/// Whether an assembled piece has the expected digest.
pub fn verify_piece(piece: Vec<u8>, expected: &[u8]) -> (r: bool)
    ensures
        r == (sha1_of(piece@) == expected@),
{
    let digest = sha1_bytes(piece);
    let d = digest.as_slice();
    if d.len() != expected.len() {
        return false;
    }
    let mut i: usize = 0;
    while i < d.len()
        invariant
            d@ == sha1_of(piece@),
            d.len() == expected.len(),
            i <= d.len(),
            forall|j: int| 0 <= j < i ==> d@[j] == expected@[j],
        decreases d.len() - i,
    {
        if d[i] != expected[i] {
            return false;
        }
        i += 1;
    }
    assert(d@ =~= expected@);
    true
}

/// The weight of bit `k` of a byte, counting from the most significant.
pub open spec fn bit_weight(k: nat) -> nat {
    if k == 0 {
        128
    } else if k == 1 {
        64
    } else if k == 2 {
        32
    } else if k == 3 {
        16
    } else if k == 4 {
        8
    } else if k == 5 {
        4
    } else if k == 6 {
        2
    } else {
        1
    }
}

/// Whether a bitfield says that the peer has piece `i`: bit `i % 8` of
/// byte `i / 8`, the most significant bit of byte 0 standing for piece 0.
pub open spec fn has_piece(bitfield: Seq<u8>, i: nat) -> bool {
    (bitfield[(i / 8) as int] as nat / bit_weight(i % 8)) % 2 == 1
}

fn weight_of(k: u32) -> (r: u8)
    requires
        k < 8,
    ensures
        r as nat == bit_weight(k as nat),
        r > 0,
{
    if k == 0 {
        128
    } else if k == 1 {
        64
    } else if k == 2 {
        32
    } else if k == 3 {
        16
    } else if k == 4 {
        8
    } else if k == 5 {
        4
    } else if k == 6 {
        2
    } else {
        1
    }
}

/// The indices below `limit` of the pieces that a bitfield marks as held,
/// ascending.
fn pieces_below(bitfield: &[u8], limit: u32) -> (r: Vec<u32>)
    ensures
        forall|j: int, k: int| 0 <= j < k < r@.len() ==> r@[j] < r@[k],
        forall|i: u32|
            r@.contains(i) <==> (i < limit && i < bitfield@.len() * 8 && has_piece(
                bitfield@,
                i as nat,
            )),
{
    let mut r: Vec<u32> = Vec::new();
    let mut i: u32 = 0;
    while i < limit && ((i / 8) as usize) < bitfield.len()
        invariant
            i <= limit,
            forall|j: int, k: int| 0 <= j < k < r@.len() ==> r@[j] < r@[k],
            forall|j: int| 0 <= j < r@.len() ==> r@[j] < i,
            forall|x: u32|
                r@.contains(x) <==> (x < i && x < bitfield@.len() * 8 && has_piece(
                    bitfield@,
                    x as nat,
                )),
        decreases limit - i,
    {
        let byte = bitfield[(i / 8) as usize];
        let w = weight_of(i % 8);
        if (byte / w) % 2 == 1 {
            let ghost old_r = r@;
            r.push(i);
            assert forall|x: u32|
                r@.contains(x) <==> (x < i + 1 && x < bitfield@.len() * 8 && has_piece(
                    bitfield@,
                    x as nat,
                )) by {
                if x == i {
                    assert(r@[old_r.len() as int] == i);
                }
                if r@.contains(x) && x != i {
                    let k = choose|k: int| 0 <= k < r@.len() && r@[k] == x;
                    assert(old_r[k] == x);
                }
                if old_r.contains(x) {
                    let k = choose|k: int| 0 <= k < old_r.len() && old_r[k] == x;
                    assert(r@[k] == x);
                }
            }
        } else {
            assert forall|x: u32|
                r@.contains(x) <==> (x < i + 1 && x < bitfield@.len() * 8 && has_piece(
                    bitfield@,
                    x as nat,
                )) by {
                if x == i {
                    assert(!has_piece(bitfield@, x as nat));
                }
            }
        }
        i += 1;
    }
    proof {
        assert forall|x: u32| r@.contains(x) <==> (x < limit && x < bitfield@.len() * 8
            && has_piece(bitfield@, x as nat)) by {
            if x >= i && x < limit && x < bitfield@.len() * 8 {
                assert(x / 8 < bitfield@.len());
                assert(i / 8 <= x / 8);
            }
        }
    }
    r
}

/// The indices of the pieces that a bitfield marks as held, ascending.
pub fn available_pieces(bitfield: &[u8]) -> (r: Vec<u32>)
    requires
        bitfield@.len() * 8 <= u32::MAX,
    ensures
        forall|j: int, k: int| 0 <= j < k < r@.len() ==> r@[j] < r@[k],
        forall|i: u32|
            r@.contains(i) <==> (i < bitfield@.len() * 8 && has_piece(bitfield@, i as nat)),
{
    pieces_below(bitfield, (bitfield.len() * 8) as u32)
}

/// Where a session stands after the handshake: waiting for the peer's
/// bitfield, then, once interest is sent, for its unchoke, then ready for
/// requests.
#[derive(Debug, PartialEq, Eq, Clone, Copy)]
pub enum SessionPhase {
    AwaitingBitfield,
    AwaitingUnchoke,
    Ready,
}

/// The state of one connection to a peer.
#[derive(Debug, PartialEq, Eq)]
pub struct PeerSession {
    pub remote_peer_id: [u8; 20],
    pub phase: SessionPhase,
    /// The pieces that the peer claims to hold, one bit per piece.
    pub bitfield: Vec<u8>,
    pub interested: bool,
    pub choked: bool,
}

impl PeerSession {
    /// Opens a session from the peer's handshake reply: not yet interested,
    /// choked, waiting for the bitfield.
    pub fn start(reply: &[u8]) -> (r: Result<PeerSession, PeerError>)
        ensures
            reply@.len() < 68 ==> r == Err::<PeerSession, PeerError>(PeerError::HandshakeIncomplete),
            reply@.len() >= 68 ==> (r matches Ok(s) && s.remote_peer_id@ == reply@.subrange(48, 68)
                && s.phase == SessionPhase::AwaitingBitfield && s.bitfield@.len() == 0
                && !s.interested && s.choked),
    {
        match parse_handshake(reply) {
            Ok(id) => Ok(
                PeerSession {
                    remote_peer_id: id,
                    phase: SessionPhase::AwaitingBitfield,
                    bitfield: Vec::new(),
                    interested: false,
                    choked: true,
                },
            ),
            Err(e) => Err(e),
        }
    }

    /// Takes the peer's next message and returns what to send in answer, if
    /// anything. The bitfield is answered with the interested message; the
    /// message after that is taken as the unchoke, and the session is then
    /// ready; once ready, choke and unchoke set the choked flag.
    pub fn on_message(&mut self, m: &PeerMessage) -> (r: Result<Option<[u8; 5]>, PeerError>)
        ensures
            final(self).remote_peer_id == old(self).remote_peer_id,
            old(self).phase == SessionPhase::AwaitingBitfield && m.id == 5 && m.payload is Some ==> (
            r matches Ok(Some(msg)) && msg@ == be_bytes(1) + seq![2u8] && final(self).bitfield@
                == m.payload->Some_0@ && final(self).interested && final(self).phase
                == SessionPhase::AwaitingUnchoke && final(self).choked == old(self).choked),
            old(self).phase == SessionPhase::AwaitingBitfield && !(m.id == 5 && m.payload is Some)
                ==> r == Err::<Option<[u8; 5]>, PeerError>(PeerError::MalformedMessage) && final(
                self).bitfield@ == old(self).bitfield@ && final(self).phase == old(self).phase
                && final(self).interested == old(self).interested && final(self).choked == old(
                self).choked,
            old(self).phase == SessionPhase::AwaitingUnchoke ==> r == Ok::<
                Option<[u8; 5]>,
                PeerError,
            >(None) && final(self).phase == SessionPhase::Ready && final(self).choked == (m.id
                != 1) && final(self).bitfield@ == old(self).bitfield@ && final(self).interested
                == old(self).interested,
            old(self).phase == SessionPhase::Ready ==> r == Ok::<Option<[u8; 5]>, PeerError>(None)
                && final(self).phase == SessionPhase::Ready && final(self).choked == (if m.id == 0 {
                true
            } else if m.id == 1 {
                false
            } else {
                old(self).choked
            }) && final(self).bitfield@ == old(self).bitfield@ && final(self).interested == old(
                self).interested,
    {
        match self.phase {
            SessionPhase::AwaitingBitfield => {
                if m.id != 5 {
                    return Err(PeerError::MalformedMessage);
                }
                match &m.payload {
                    Some(p) => {
                        self.bitfield = copy_range(p.as_slice(), 0, p.len());
                        self.interested = true;
                        self.phase = SessionPhase::AwaitingUnchoke;
                        Ok(Some(interested_message()))
                    },
                    None => Err(PeerError::MalformedMessage),
                }
            },
            SessionPhase::AwaitingUnchoke => {
                self.choked = m.id != 1;
                self.phase = SessionPhase::Ready;
                Ok(None)
            },
            SessionPhase::Ready => {
                if m.id == 0 {
                    self.choked = true;
                } else if m.id == 1 {
                    self.choked = false;
                }
                Ok(None)
            },
        }
    }

    /// The pieces to download, in order: those of the `count` pieces of the
    /// torrent that the peer's bitfield marks as held.
    pub fn pieces_to_fetch(&self, count: u32) -> (r: Vec<u32>)
        ensures
            forall|j: int, k: int| 0 <= j < k < r@.len() ==> r@[j] < r@[k],
            forall|i: u32|
                r@.contains(i) <==> (i < count && i < self.bitfield@.len() * 8 && has_piece(
                    self.bitfield@,
                    i as nat,
                )),
    {
        pieces_below(self.bitfield.as_slice(), count)
    }
}

} // verus!
