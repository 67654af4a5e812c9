use vstd::prelude::*;
use crate::decode::{decode, decoded, DecodeError, DEFAULT_MAX_DEPTH};
use crate::encode::push_decimal;
use crate::metainfo::{bytes_field, get_bytes, ExtractError, Field};
use crate::value::decimal;

verus! {

broadcast use vstd::std_specs::vec::group_vec_axioms, vstd::seq::group_seq_axioms;

/// The upper-case hexadecimal digit, as an ASCII byte, for a value below sixteen.
pub open spec fn upper_hex(d: int) -> u8 {
    if d < 10 {
        (48 + d) as u8
    } else {
        (55 + d) as u8
    }
}

/// `%XY`, with X and Y the upper-case hexadecimal digits of `c`.
pub open spec fn escaped(c: u8) -> Seq<u8> {
    seq![37u8, upper_hex(c as int / 16), upper_hex(c as int % 16)]
}

/// Every byte escaped as `%XY`.
pub open spec fn percent_all(b: Seq<u8>) -> Seq<u8>
    decreases b.len(),
{
    if b.len() == 0 {
        Seq::empty()
    } else {
        percent_all(b.drop_last()) + escaped(b.last())
    }
}

/// The bytes that a URL query carries unescaped: letters, digits, '-', '.',
/// '_' and '~'.
pub open spec fn unreserved(c: u8) -> bool {
    (48 <= c <= 57) || (65 <= c <= 90) || (97 <= c <= 122) || c == 45 || c == 46 || c == 95 || c
        == 126
}

/// Standard query escaping: unreserved bytes as they are, others as `%XY`.
pub open spec fn query_escaped(b: Seq<u8>) -> Seq<u8>
    decreases b.len(),
{
    if b.len() == 0 {
        Seq::empty()
    } else {
        query_escaped(b.drop_last()) + if unreserved(b.last()) {
            seq![b.last()]
        } else {
            escaped(b.last())
        }
    }
}

pub open spec fn info_hash_param() -> Seq<u8> {
    seq![105u8, 110, 102, 111, 95, 104, 97, 115, 104, 61]
}

pub open spec fn peer_id_param() -> Seq<u8> {
    seq![38u8, 112, 101, 101, 114, 95, 105, 100, 61]
}

pub open spec fn port_param() -> Seq<u8> {
    seq![38u8, 112, 111, 114, 116, 61]
}

pub open spec fn uploaded_param() -> Seq<u8> {
    seq![38u8, 117, 112, 108, 111, 97, 100, 101, 100, 61]
}

pub open spec fn downloaded_param() -> Seq<u8> {
    seq![38u8, 100, 111, 119, 110, 108, 111, 97, 100, 101, 100, 61]
}

pub open spec fn left_param() -> Seq<u8> {
    seq![38u8, 108, 101, 102, 116, 61]
}

pub open spec fn compact_param() -> Seq<u8> {
    seq![38u8, 99, 111, 109, 112, 97, 99, 116, 61]
}

/// The parameters of one tracker query.
pub struct TrackerRequest {
    /// The raw 20-byte content hash.
    pub info_hash: Vec<u8>,
    /// The local peer identifier.
    pub peer_id: Vec<u8>,
    pub port: u16,
    pub uploaded: u64,
    pub downloaded: u64,
    pub left: u64,
    /// Whether the tracker is asked for the compact peer list.
    pub compact: bool,
}

/// The query string of a tracker request.
pub open spec fn query_text(req: TrackerRequest) -> Seq<u8> {
    info_hash_param() + percent_all(req.info_hash@) + peer_id_param() + query_escaped(req.peer_id@)
        + port_param() + decimal(req.port as nat) + uploaded_param() + decimal(req.uploaded as nat)
        + downloaded_param() + decimal(req.downloaded as nat) + left_param() + decimal(
        req.left as nat,
    ) + compact_param() + if req.compact {
        seq![49u8]
    } else {
        seq![48u8]
    }
}

fn hex_upper_digit(d: u8) -> (r: u8)
    requires
        d < 16,
    ensures
        r == upper_hex(d as int),
{
    if d < 10 {
        48 + d
    } else {
        55 + d
    }
}

fn push_escaped(c: u8, out: &mut Vec<u8>)
    ensures
        final(out)@ == old(out)@ + escaped(c),
{
    out.push(37u8);
    out.push(hex_upper_digit(c / 16));
    out.push(hex_upper_digit(c % 16));
    assert(final(out)@ =~= old(out)@ + escaped(c));
}

/// Appends every byte of `b` escaped as `%XY`.
pub fn push_percent_all(b: &Vec<u8>, out: &mut Vec<u8>)
    ensures
        final(out)@ == old(out)@ + percent_all(b@),
{
    let ghost start = out@;
    let mut i: usize = 0;
    while i < b.len()
        invariant
            0 <= i <= b.len(),
            out@ == start + percent_all(b@.subrange(0, i as int)),
        decreases b.len() - i,
    {
        push_escaped(b[i], out);
        i = i + 1;
        assert(b@.subrange(0, i as int).drop_last() =~= b@.subrange(0, i - 1));
        assert(out@ =~= start + percent_all(b@.subrange(0, i as int)));
    }
    assert(b@.subrange(0, b.len() as int) =~= b@);
}

/// Appends `b` with standard query escaping.
pub fn push_query_escaped(b: &Vec<u8>, out: &mut Vec<u8>)
    ensures
        final(out)@ == old(out)@ + query_escaped(b@),
{
    let ghost start = out@;
    let mut i: usize = 0;
    while i < b.len()
        invariant
            0 <= i <= b.len(),
            out@ == start + query_escaped(b@.subrange(0, i as int)),
        decreases b.len() - i,
    {
        let c = b[i];
        if (48 <= c && c <= 57) || (65 <= c && c <= 90) || (97 <= c && c <= 122) || c == 45 || c
            == 46 || c == 95 || c == 126 {
            out.push(c);
        } else {
            push_escaped(c, out);
        }
        i = i + 1;
        assert(b@.subrange(0, i as int).drop_last() =~= b@.subrange(0, i - 1));
        assert(out@ =~= start + query_escaped(b@.subrange(0, i as int)));
    }
    assert(b@.subrange(0, b.len() as int) =~= b@);
}

/// Every byte of `b` escaped as `%XY`, as trackers expect a raw content hash.
pub fn percent_encode_all(b: &Vec<u8>) -> (r: Vec<u8>)
    ensures
        r@ == percent_all(b@),
{
    let mut out: Vec<u8> = Vec::new();
    push_percent_all(b, &mut out);
    assert(out@ =~= percent_all(b@));
    out
}

enum Param {
    InfoHash,
    PeerId,
    Port,
    Uploaded,
    Downloaded,
    Left,
    Compact,
}

fn param_bytes(p: Param) -> (r: Vec<u8>)
    ensures
        r@ == match p {
            Param::InfoHash => info_hash_param(),
            Param::PeerId => peer_id_param(),
            Param::Port => port_param(),
            Param::Uploaded => uploaded_param(),
            Param::Downloaded => downloaded_param(),
            Param::Left => left_param(),
            Param::Compact => compact_param(),
        },
{
    match p {
        Param::InfoHash => {
            let r: Vec<u8> = vec![105u8, 110, 102, 111, 95, 104, 97, 115, 104, 61];
            assert(r@ =~= info_hash_param());
            r
        },
        Param::PeerId => {
            let r: Vec<u8> = vec![38u8, 112, 101, 101, 114, 95, 105, 100, 61];
            assert(r@ =~= peer_id_param());
            r
        },
        Param::Port => {
            let r: Vec<u8> = vec![38u8, 112, 111, 114, 116, 61];
            assert(r@ =~= port_param());
            r
        },
        Param::Uploaded => {
            let r: Vec<u8> = vec![38u8, 117, 112, 108, 111, 97, 100, 101, 100, 61];
            assert(r@ =~= uploaded_param());
            r
        },
        Param::Downloaded => {
            let r: Vec<u8> = vec![38u8, 100, 111, 119, 110, 108, 111, 97, 100, 101, 100, 61];
            assert(r@ =~= downloaded_param());
            r
        },
        Param::Left => {
            let r: Vec<u8> = vec![38u8, 108, 101, 102, 116, 61];
            assert(r@ =~= left_param());
            r
        },
        Param::Compact => {
            let r: Vec<u8> = vec![38u8, 99, 111, 109, 112, 97, 99, 116, 61];
            assert(r@ =~= compact_param());
            r
        },
    }
}

fn push_all(b: &Vec<u8>, out: &mut Vec<u8>)
    ensures
        final(out)@ == old(out)@ + b@,
{
    let ghost start = out@;
    let mut i: usize = 0;
    while i < b.len()
        invariant
            0 <= i <= b.len(),
            out@ == start + b@.subrange(0, i as int),
        decreases b.len() - i,
    {
        out.push(b[i]);
        i = i + 1;
        assert(out@ =~= start + b@.subrange(0, i as int));
    }
    assert(b@.subrange(0, b.len() as int) =~= b@);
}

impl TrackerRequest {
    /// The query string (ASCII) that asks a tracker for peers.
    pub fn to_query_string(&self) -> (r: Vec<u8>)
        ensures
            r@ == query_text(*self),
    {
        let mut out: Vec<u8> = Vec::new();
        push_all(&param_bytes(Param::InfoHash), &mut out);
        push_percent_all(&self.info_hash, &mut out);
        push_all(&param_bytes(Param::PeerId), &mut out);
        push_query_escaped(&self.peer_id, &mut out);
        push_all(&param_bytes(Param::Port), &mut out);
        push_decimal(self.port as u64, &mut out);
        push_all(&param_bytes(Param::Uploaded), &mut out);
        push_decimal(self.uploaded, &mut out);
        push_all(&param_bytes(Param::Downloaded), &mut out);
        push_decimal(self.downloaded, &mut out);
        push_all(&param_bytes(Param::Left), &mut out);
        push_decimal(self.left, &mut out);
        push_all(&param_bytes(Param::Compact), &mut out);
        out.push(if self.compact { 49u8 } else { 48u8 });
        assert(out@ =~= query_text(*self));
        out
    }
}

/// A peer endpoint: an IPv4 address and a port.
#[derive(PartialEq, Eq, Debug, Clone, Copy)]
pub struct Peer {
    pub ip: [u8; 4],
    pub port: u16,
}

/// The peer that the six bytes at `6 * i` of a compact list describe.
pub open spec fn peer_at(b: Seq<u8>, p: Peer, i: int) -> bool {
    &&& p.ip@ == b.subrange(6 * i, 6 * i + 4)
    &&& p.port == b[6 * i + 4] as int * 256 + b[6 * i + 5] as int
}

/// Whether `ps` are the peers of the compact list `b`, in order.
pub open spec fn peers_of(b: Seq<u8>, ps: Seq<Peer>) -> bool {
    &&& ps.len() * 6 == b.len()
    &&& forall|i: int| 0 <= i < ps.len() ==> peer_at(b, #[trigger] ps[i], i)
}

/// Splits a compact peer list, six bytes a peer (a big-endian IPv4 address
/// and port); `None` where its length is not a multiple of six.
pub fn split_peers(b: &Vec<u8>) -> (r: Option<Vec<Peer>>)
    ensures
        r is Some <==> b.len() % 6 == 0,
        r matches Some(ps) ==> peers_of(b@, ps@),
{
    if b.len() % 6 != 0 {
        return None;
    }
    let mut ps: Vec<Peer> = Vec::new();
    let mut i: usize = 0;
    while i < b.len() / 6
        invariant
            0 <= i <= b.len() / 6,
            b.len() % 6 == 0,
            ps.len() == i,
            forall|j: int| 0 <= j < i ==> peer_at(b@, #[trigger] ps@[j], j),
        decreases b.len() / 6 - i,
    {
        let k: usize = 6 * i;
        let ip: [u8; 4] = [b[k], b[k + 1], b[k + 2], b[k + 3]];
        let port: u16 = (b[k + 4] as u16) * 256 + b[k + 5] as u16;
        assert(ip@ =~= b@.subrange(6 * i, 6 * i + 4));
        ps.push(Peer { ip, port });
        i = i + 1;
    }
    Some(ps)
}

/// Why a tracker response gives no peers.
#[derive(PartialEq, Eq, Structural, Debug, Clone, Copy)]
pub enum TrackerError {
    Decode(DecodeError),
    Extract(ExtractError),
}

/// The compact peer list of a tracker response body.
pub open spec fn response_peers(body: Seq<u8>) -> Result<Seq<u8>, TrackerError> {
    match decoded(body, DEFAULT_MAX_DEPTH as nat, false) {
        Err(x) => Err(TrackerError::Decode(x)),
        Ok(m) => match bytes_field(m, Field::Peers) {
            Err(x) => Err(TrackerError::Extract(x)),
            Ok(p) => if p.len() % 6 != 0 {
                Err(TrackerError::Extract(ExtractError::FieldWrongType(Field::Peers)))
            } else {
                Ok(p)
            },
        },
    }
}

/// Decodes a tracker response body and splits its `peers` field.
pub fn peers_from_response(body: &Vec<u8>) -> (r: Result<Vec<Peer>, TrackerError>)
    ensures
        match response_peers(body@) {
            Ok(p) => r matches Ok(ps) && peers_of(p, ps@),
            Err(x) => r == Err::<Vec<Peer>, TrackerError>(x),
        },
{
    let doc = match decode(body) {
        Ok(v) => v,
        Err(x) => {
            return Err(TrackerError::Decode(x));
        },
    };
    let p = match get_bytes(&doc, Field::Peers) {
        Ok(p) => p,
        Err(x) => {
            return Err(TrackerError::Extract(x));
        },
    };
    match split_peers(p) {
        Some(ps) => Ok(ps),
        None => Err(TrackerError::Extract(ExtractError::FieldWrongType(Field::Peers))),
    }
}

} // verus!
