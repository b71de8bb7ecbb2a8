//! The segment-file codec.
//!
//! A record is one `Put` or `Rm` entry.  On disk it is a MessagePack
//! encoding of the pair `(key, optional value)`: a present value means
//! `Put`, an absent one is an `Rm` tombstone.  The encoding is
//! self-delimiting, so records are written back to back with no framing,
//! and decoding reports how many bytes one record consumed.

use vstd::prelude::*;

use crate::KvsError;

verus! {

/// One on-disk record: a key set to a value, or a key removed.
#[derive(Debug, Clone)]
pub enum Record {
    Put(String, String),
    Rm(String),
}

/// The mathematical content of a record: its key, and its value if it is
/// a `Put`.  A `None` value is an `Rm` tombstone.
pub ghost struct RecModel {
    pub key: Seq<char>,
    pub val: Option<Seq<char>>,
}

impl View for Record {
    type V = RecModel;

    open spec fn view(&self) -> RecModel {
        match self {
            Record::Put(k, v) => RecModel { key: k@, val: Some(v@) },
            Record::Rm(k) => RecModel { key: k@, val: None },
        }
    }
}

impl RecModel {
    /// The bytes this record occupies on disk.
    pub open spec fn enc(self) -> Seq<u8> {
        encode_of(self.key, self.val)
    }

    /// Key and value both fit the codec's string-length field.
    pub open spec fn fits(self) -> bool {
        &&& fits_str_len(self.key)
        &&& match self.val {
            Some(v) => fits_str_len(v),
            None => true,
        }
    }
}

/// The record's encoding parses back to the record wherever it starts:
/// reading one record from `enc + rest` yields the record and consumes
/// exactly `enc`.  Every record the store ever appends has this
/// property; it is established by the codec's contracts at the moment
/// the record is encoded, and carried in the store's invariant.
pub open spec fn rec_parses(r: RecModel) -> bool {
    &&& r.enc().len() >= 1
    &&& forall|rest: Seq<u8>|
        #[trigger] decode_of(r.enc() + rest) == Some((r.key, r.val, r.enc().len()))
}

/// The MessagePack encoding of a `(key, optional value)` pair, as
/// `rmp_serde::to_vec` produces it.  The bytes depend on the pair alone.
pub uninterp spec fn encode_of(key: Seq<char>, val: Option<Seq<char>>) -> Seq<u8>;

/// The string's UTF-8 form fits the codec's 32-bit string-length
/// field.  Longer strings would have that field written truncated, so
/// the codec refuses them up front.
pub open spec fn fits_str_len(s: Seq<char>) -> bool {
    vstd::utf8::encode_utf8(s).len() < 0x1_0000_0000
}

/// Whether the string's UTF-8 form stays below the codec's 32-bit
/// length field.
fn str_fits(s: &String) -> (r: bool)
    ensures
        r == fits_str_len(s@),
{
    broadcast use vstd::slice::axiom_spec_len;

    let n = s.as_str().as_bytes().len();
    (n as u64) < 0x100000000u64
}

/// What reading one `(key, optional value)` pair from the front of the
/// given bytes yields: the pair and the count of consumed bytes, or
/// `None` when the bytes do not start with a well-formed pair.
pub uninterp spec fn decode_of(bytes: Seq<u8>) -> Option<(Seq<char>, Option<Seq<char>>, nat)>;

pub open spec fn opt_ref_view(v: Option<&String>) -> Option<Seq<char>> {
    match v {
        Some(s) => Some(s@),
        None => None,
    }
}

/// Relies on `rmp_serde::to_vec`: it encodes a `(key, optional value)`
/// pair into MessagePack bytes that depend on the pair alone, are never
/// empty (a two-element array carries at least its marker byte), and
/// decode back to the same pair while consuming exactly those bytes,
/// whatever follows them.  It fails only when the allocator does.
/// The string header's length field is 32 bits wide and is written as
/// `len as u32`, so strings of 2^32 UTF-8 bytes or more would be
/// mis-framed: the precondition keeps them out.
#[verifier::external_body]
fn msgpack_encode(key: &String, val: Option<&String>) -> (r: Result<Vec<u8>, String>)
    requires
        fits_str_len(key@),
        match val {
            Some(v) => fits_str_len(v@),
            None => true,
        },
    ensures
        r matches Ok(b) ==> {
            &&& b@ == encode_of(key@, opt_ref_view(val))
            &&& b@.len() >= 1
            &&& forall|rest: Seq<u8>|
                #[trigger] decode_of(b@ + rest) == Some(
                    (key@, opt_ref_view(val), b@.len()),
                )
        },
{
    match rmp_serde::to_vec(&(key, val)) {
        Ok(b) => Ok(b),
        Err(e) => Err(e.to_string()),
    }
}

/// Relies on `rmp_serde`'s `Deserializer` over a byte cursor and its
/// `position`: it reads one `(key, optional value)` pair from the front
/// of the bytes and reports how many bytes it consumed.  Its failures
/// come from the byte cursor running dry or from malformed markers, so
/// the outcome depends on the bytes alone.
#[verifier::external_body]
fn msgpack_decode_prefix(bytes: &[u8]) -> (r: Result<(String, Option<String>, usize), String>)
    ensures
        r matches Ok(t) ==> {
            &&& decode_of(bytes@) == Some((t.0@, opt_string_view(t.1), t.2 as nat))
            &&& 1 <= t.2 <= bytes@.len()
        },
        r is Err ==> decode_of(bytes@) is None,
{
    let mut de = rmp_serde::decode::Deserializer::new(std::io::Cursor::new(bytes));
    match serde::Deserialize::deserialize(&mut de) {
        Ok((k, v)) => Ok((k, v, de.position() as usize)),
        Err(e) => Err(e.to_string()),
    }
}

pub open spec fn opt_string_view(v: Option<String>) -> Option<Seq<char>> {
    match v {
        Some(s) => Some(s@),
        None => None,
    }
}

/// Encode one record for appending to a segment.
pub fn encode_record(rec: &Record) -> (r: Result<Vec<u8>, KvsError>)
    ensures
        r matches Ok(b) ==> {
            &&& b@ == rec@.enc()
            &&& b@.len() >= 1
            &&& forall|rest: Seq<u8>|
                #[trigger] decode_of(b@ + rest) == Some((rec@.key, rec@.val, b@.len()))
        },
        r matches Err(e) ==> e matches KvsError::SerializationError(_),
        !rec@.fits() ==> r is Err,
{
    let fits = match rec {
        Record::Put(k, v) => str_fits(k) && str_fits(v),
        Record::Rm(k) => str_fits(k),
    };
    if !fits {
        return Err(
            KvsError::SerializationError("key or value too long for the codec".to_owned()),
        );
    }
    let encoded = match rec {
        Record::Put(k, v) => msgpack_encode(k, Some(v)),
        Record::Rm(k) => msgpack_encode(k, None),
    };
    match encoded {
        Ok(b) => Ok(b),
        Err(msg) => Err(KvsError::SerializationError(msg)),
    }
}

/// Decode the record at the front of `bytes`, reporting how many bytes
/// it occupied.
pub fn decode_record_prefix(bytes: &[u8]) -> (r: Result<(Record, usize), KvsError>)
    ensures
        r matches Ok(t) ==> {
            &&& decode_of(bytes@) == Some((t.0@.key, t.0@.val, t.1 as nat))
            &&& 1 <= t.1 <= bytes@.len()
        },
        r matches Err(e) ==> e matches KvsError::SerializationError(_) && decode_of(bytes@)
            is None,
{
    match msgpack_decode_prefix(bytes) {
        Ok((k, v, n)) => match v {
            Some(value) => Ok((Record::Put(k, value), n)),
            None => Ok((Record::Rm(k), n)),
        },
        Err(msg) => Err(KvsError::SerializationError(msg)),
    }
}

} // verus!
