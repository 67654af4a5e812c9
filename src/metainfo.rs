use vstd::prelude::*;
use crate::value::{lookup, Model, Value};
use crate::encode::encode;
use crate::text::{hex_encode, hex_text, sha1_digest, sha1_of, utf8_decoding, utf8_text};

verus! {

broadcast use vstd::std_specs::vec::group_vec_axioms, vstd::seq::group_seq_axioms;

/// A field of a metainfo document or of a tracker response.
#[derive(PartialEq, Eq, Structural, Debug, Clone, Copy)]
pub enum Field {
    Announce,
    Info,
    Length,
    Pieces,
    Peers,
}

/// Why a decoded document does not give what was asked of it.
#[derive(PartialEq, Eq, Structural, Debug, Clone, Copy)]
pub enum ExtractError {
    /// The document is not a dictionary.
    NotADictionary,
    /// A required field is absent.
    FieldMissing(Field),
    /// A field holds a value of the wrong kind or out of range.
    FieldWrongType(Field),
}

pub open spec fn announce_key() -> Seq<u8> {
    seq![97u8, 110, 110, 111, 117, 110, 99, 101]
}

pub open spec fn info_key() -> Seq<u8> {
    seq![105u8, 110, 102, 111]
}

pub open spec fn length_key() -> Seq<u8> {
    seq![108u8, 101, 110, 103, 116, 104]
}

pub open spec fn pieces_key() -> Seq<u8> {
    seq![112u8, 105, 101, 99, 101, 115]
}

pub open spec fn peers_key() -> Seq<u8> {
    seq![112u8, 101, 101, 114, 115]
}

fn key_bytes(f: Field) -> (r: Vec<u8>)
    ensures
        r@ == field_key(f),
{
    let r: Vec<u8> = match f {
        Field::Announce => vec![97u8, 110, 110, 111, 117, 110, 99, 101],
        Field::Info => vec![105u8, 110, 102, 111],
        Field::Length => vec![108u8, 101, 110, 103, 116, 104],
        Field::Pieces => vec![112u8, 105, 101, 99, 101, 115],
        Field::Peers => vec![112u8, 101, 101, 114, 115],
    };
    assert(r@ =~= field_key(f));
    r
}

/// The dictionary key under which a field stands.
pub open spec fn field_key(f: Field) -> Seq<u8> {
    match f {
        Field::Announce => announce_key(),
        Field::Info => info_key(),
        Field::Length => length_key(),
        Field::Pieces => pieces_key(),
        Field::Peers => peers_key(),
    }
}

/// The value of a field of a dictionary.
pub open spec fn field_of(doc: Model, f: Field) -> Result<Model, ExtractError> {
    match doc {
        Model::Dictionary(entries) => match lookup(entries, field_key(f)) {
            Some(m) => Ok(m),
            None => Err(ExtractError::FieldMissing(f)),
        },
        _ => Err(ExtractError::NotADictionary),
    }
}

/// Looks up a field of a dictionary.
pub fn field<'a>(doc: &'a Value, f: Field) -> (r: Result<&'a Value, ExtractError>)
    ensures
        match field_of(doc.model(), f) {
            Ok(m) => r matches Ok(v) && v.model() == m,
            Err(x) => r == Err::<&Value, ExtractError>(x),
        },
{
    match doc {
        Value::Dictionary(_) => {
            let key = key_bytes(f);
            match doc.get(&key) {
                Some(v) => Ok(v),
                None => Err(ExtractError::FieldMissing(f)),
            }
        },
        _ => Err(ExtractError::NotADictionary),
    }
}

/// The byte string in a field of a dictionary.
pub open spec fn bytes_field(doc: Model, f: Field) -> Result<Seq<u8>, ExtractError> {
    match field_of(doc, f) {
        Ok(Model::ByteString(b)) => Ok(b),
        Ok(_) => Err(ExtractError::FieldWrongType(f)),
        Err(x) => Err(x),
    }
}

/// Reads a byte-string field of a dictionary.
pub fn get_bytes(doc: &Value, f: Field) -> (r: Result<&Vec<u8>, ExtractError>)
    ensures
        match bytes_field(doc.model(), f) {
            Ok(b) => r matches Ok(v) && v@ == b,
            Err(x) => r == Err::<&Vec<u8>, ExtractError>(x),
        },
{
    match field(doc, f) {
        Ok(Value::ByteString(b)) => Ok(b),
        Ok(_) => Err(ExtractError::FieldWrongType(f)),
        Err(x) => Err(x),
    }
}

/// What a metainfo document's fields are, before the announce URL is read as
/// text: the announce bytes, the info dictionary and the total length.
pub open spec fn metainfo_fields(doc: Model) -> Result<(Seq<u8>, Model, int), ExtractError> {
    match bytes_field(doc, Field::Announce) {
        Err(x) => Err(x),
        Ok(a) => match field_of(doc, Field::Info) {
            Err(x) => Err(x),
            Ok(info) => if !(info is Dictionary) {
                Err(ExtractError::FieldWrongType(Field::Info))
            } else {
                match field_of(info, Field::Length) {
                    Err(x) => Err(x),
                    Ok(Model::Integer(n)) => if n < 0 {
                        Err(ExtractError::FieldWrongType(Field::Length))
                    } else {
                        Ok((a, info, n))
                    },
                    Ok(_) => Err(ExtractError::FieldWrongType(Field::Length)),
                }
            },
        },
    }
}

/// What the library reads from a metainfo document.
#[derive(PartialEq, Eq, Debug)]
pub struct TorrentInfo {
    /// The tracker's URL.
    pub announce: String,
    /// The SHA-1 digest of the encoded info dictionary.
    pub info_hash: Vec<u8>,
    /// The total length of the content in bytes.
    pub length: u64,
}

impl TorrentInfo {
    /// The content hash in lower-case hexadecimal.
    pub fn info_hash_hex(&self) -> (r: String)
        ensures
            r@ == hex_text(self.info_hash@),
    {
        hex_encode(&self.info_hash)
    }
}

/// Reads the announce URL, the content hash and the total length from a
/// metainfo document. The content hash is the SHA-1 digest of the info
/// dictionary encoded with its entries in the order they were read.
pub fn extract_torrent_info(doc: &Value) -> (r: Result<TorrentInfo, ExtractError>)
    ensures
        match metainfo_fields(doc.model()) {
            Err(x) => r == Err::<TorrentInfo, ExtractError>(x),
            Ok((a, info, n)) => match utf8_decoding(a) {
                None => r == Err::<TorrentInfo, ExtractError>(ExtractError::FieldWrongType(Field::Announce)),
                Some(t) => r matches Ok(ti) && ti.announce@ == t && ti.info_hash@ == sha1_of(
                    crate::value::encoding(info),
                ) && ti.info_hash@.len() == 20 && ti.length == n,
            },
        },
{
    let announce_bytes = get_bytes(doc, Field::Announce)?;
    let info = field(doc, Field::Info)?;
    if !matches!(info, Value::Dictionary(_)) {
        return Err(ExtractError::FieldWrongType(Field::Info));
    }
    let length = match field(info, Field::Length)? {
        Value::Integer(n) => *n,
        _ => {
            return Err(ExtractError::FieldWrongType(Field::Length));
        },
    };
    if length < 0 {
        return Err(ExtractError::FieldWrongType(Field::Length));
    }
    let announce = match utf8_text(announce_bytes) {
        Some(t) => t,
        None => {
            return Err(ExtractError::FieldWrongType(Field::Announce));
        },
    };
    let info_hash = sha1_digest(&encode(info));
    Ok(TorrentInfo { announce, info_hash, length: length as u64 })
}

/// Splits the `pieces` field of an info dictionary into its 20-byte piece
/// hashes, in order.
pub fn piece_hashes(info: &Value) -> (r: Result<Vec<Vec<u8>>, ExtractError>)
    ensures
        match bytes_field(info.model(), Field::Pieces) {
            Err(x) => r == Err::<Vec<Vec<u8>>, ExtractError>(x),
            Ok(p) => if p.len() % 20 != 0 {
                r == Err::<Vec<Vec<u8>>, ExtractError>(ExtractError::FieldWrongType(Field::Pieces))
            } else {
                r matches Ok(hs) && hs.len() * 20 == p.len() && forall|i: int|
                    0 <= i < hs.len() ==> (#[trigger] hs@[i])@ == p.subrange(20 * i, 20 * i + 20)
            },
        },
{
    let p = get_bytes(info, Field::Pieces)?;
    if p.len() % 20 != 0 {
        return Err(ExtractError::FieldWrongType(Field::Pieces));
    }
    let mut hs: Vec<Vec<u8>> = Vec::new();
    let mut i: usize = 0;
    while i < p.len() / 20
        invariant
            0 <= i <= p.len() / 20,
            p.len() % 20 == 0,
            hs.len() == i,
            forall|j: int| 0 <= j < i ==> (#[trigger] hs@[j])@ == p@.subrange(20 * j, 20 * j + 20),
        decreases p.len() / 20 - i,
    {
        let mut h: Vec<u8> = Vec::new();
        let mut k: usize = 20 * i;
        while k < 20 * i + 20
            invariant
                20 * i <= k <= 20 * i + 20 <= p.len(),
                h@ == p@.subrange(20 * i, k as int),
            decreases 20 * i + 20 - k,
        {
            h.push(p[k]);
            k = k + 1;
            assert(h@ =~= p@.subrange(20 * i, k as int));
        }
        hs.push(h);
        i = i + 1;
    }
    Ok(hs)
}

} // verus!
