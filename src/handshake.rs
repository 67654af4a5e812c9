use vstd::prelude::*;

verus! {

broadcast use vstd::std_specs::vec::group_vec_axioms, vstd::seq::group_seq_axioms;

/// The length of a handshake message.
pub const HANDSHAKE_LEN: usize = 68;

/// The length of a content hash and of a peer identifier.
pub const ID_LEN: usize = 20;

/// The protocol name that a handshake carries, "BitTorrent protocol".
pub open spec fn protocol_name() -> Seq<u8> {
    seq![66u8, 105, 116, 84, 111, 114, 114, 101, 110, 116, 32, 112, 114, 111, 116, 111, 99, 111, 108]
}

/// The handshake for a content hash and a peer identifier.
pub open spec fn handshake_bytes(info_hash: Seq<u8>, peer_id: Seq<u8>) -> Seq<u8> {
    seq![19u8] + protocol_name() + Seq::new(8, |i: int| 0u8) + info_hash + peer_id
}

fn protocol_name_bytes() -> (r: Vec<u8>)
    ensures
        r@ == protocol_name(),
{
    let r: Vec<u8> = vec![66u8, 105, 116, 84, 111, 114, 114, 101, 110, 116, 32, 112, 114, 111, 116, 111, 99, 111, 108];
    assert(r@ =~= protocol_name());
    r
}

/// Builds the handshake message: the protocol name's length (19), the
/// protocol name, eight zero bytes, the content hash and the peer identifier.
pub fn build_handshake(info_hash: &Vec<u8>, peer_id: &Vec<u8>) -> (r: Vec<u8>)
    requires
        info_hash.len() == ID_LEN,
        peer_id.len() == ID_LEN,
    ensures
        r@ == handshake_bytes(info_hash@, peer_id@),
        r.len() == HANDSHAKE_LEN,
{
    let mut r: Vec<u8> = Vec::new();
    r.push(19u8);
    let mut name = protocol_name_bytes();
    r.append(&mut name);
    let mut i: usize = 0;
    while i < 8
        invariant
            0 <= i <= 8,
            r@ == seq![19u8] + protocol_name() + Seq::new(i as nat, |j: int| 0u8),
        decreases 8 - i,
    {
        r.push(0u8);
        i = i + 1;
        assert(r@ =~= seq![19u8] + protocol_name() + Seq::new(i as nat, |j: int| 0u8));
    }
    let ghost head = r@;
    let mut i: usize = 0;
    while i < info_hash.len()
        invariant
            0 <= i <= info_hash.len(),
            r@ == head + info_hash@.subrange(0, i as int),
        decreases info_hash.len() - i,
    {
        r.push(info_hash[i]);
        i = i + 1;
        assert(r@ =~= head + info_hash@.subrange(0, i as int));
    }
    let ghost head = r@;
    let mut i: usize = 0;
    while i < peer_id.len()
        invariant
            0 <= i <= peer_id.len(),
            r@ == head + peer_id@.subrange(0, i as int),
        decreases peer_id.len() - i,
    {
        r.push(peer_id[i]);
        i = i + 1;
        assert(r@ =~= head + peer_id@.subrange(0, i as int));
    }
    assert(info_hash@.subrange(0, 20) =~= info_hash@);
    assert(peer_id@.subrange(0, 20) =~= peer_id@);
    assert(r@ =~= handshake_bytes(info_hash@, peer_id@));
    r
}

/// The remote peer identifier of a reply: its last 20 bytes, where the reply
/// is at least a whole handshake long.
pub fn parse_handshake(reply: &Vec<u8>) -> (r: Option<Vec<u8>>)
    ensures
        reply.len() >= HANDSHAKE_LEN <==> r is Some,
        r matches Some(id) ==> id@ == reply@.subrange(reply.len() - ID_LEN, reply.len() as int),
{
    if reply.len() < HANDSHAKE_LEN {
        return None;
    }
    let start: usize = reply.len() - ID_LEN;
    let mut id: Vec<u8> = Vec::new();
    let mut i: usize = start;
    while i < reply.len()
        invariant
            start <= i <= reply.len(),
            start == reply.len() - ID_LEN,
            id@ == reply@.subrange(start as int, i as int),
        decreases reply.len() - i,
    {
        id.push(reply[i]);
        i = i + 1;
        assert(id@ =~= reply@.subrange(start as int, i as int));
    }
    Some(id)
}

/// Whether a reply is a whole handshake whose header (length byte and
/// protocol name) and content hash match what was sent for `info_hash`.
pub fn validate_handshake(reply: &Vec<u8>, info_hash: &Vec<u8>) -> (r: bool)
    requires
        info_hash.len() == ID_LEN,
    ensures
        r == (reply.len() >= HANDSHAKE_LEN && reply@.subrange(0, 20) == seq![19u8]
            + protocol_name() && reply@.subrange(28, 48) == info_hash@),
{
    if reply.len() < HANDSHAKE_LEN {
        return false;
    }
    let mut expected = vec![19u8];
    let mut name = protocol_name_bytes();
    expected.append(&mut name);
    let mut i: usize = 0;
    while i < 20
        invariant
            0 <= i <= 20,
            reply.len() >= HANDSHAKE_LEN,
            expected@ == seq![19u8] + protocol_name(),
            reply@.subrange(0, i as int) == expected@.subrange(0, i as int),
        decreases 20 - i,
    {
        if reply[i] != expected[i] {
            assert(reply@.subrange(0, 20)[i as int] != (seq![19u8] + protocol_name())[i as int]);
            return false;
        }
        i = i + 1;
        assert(reply@.subrange(0, i as int) =~= expected@.subrange(0, i as int));
    }
    assert(expected@.subrange(0, 20) =~= expected@);
    let mut i: usize = 0;
    while i < ID_LEN
        invariant
            0 <= i <= 20,
            reply.len() >= HANDSHAKE_LEN,
            info_hash.len() == ID_LEN,
            reply@.subrange(0, 20) == seq![19u8] + protocol_name(),
            reply@.subrange(28, 28 + i) == info_hash@.subrange(0, i as int),
        decreases 20 - i,
    {
        if reply[28 + i] != info_hash[i] {
            assert(reply@.subrange(28, 48)[i as int] != info_hash@[i as int]);
            return false;
        }
        i = i + 1;
        assert(reply@.subrange(28, 28 + i) =~= info_hash@.subrange(0, i as int));
    }
    assert(info_hash@.subrange(0, 20) =~= info_hash@);
    true
}

} // verus!
