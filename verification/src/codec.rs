//! The record codec: a self-delimiting byte encoding of the two record kinds.
//!
//! A segment file is a plain concatenation of encoded records.  Each record
//! starts with a one-byte tag, followed by the key's UTF-8 bytes behind a
//! little-endian `u64` length, and, for a put, the opaque value payload behind
//! a second length.  The format is self-delimiting, so a segment can be
//! decoded sequentially without an external length table.

use vstd::bytes::*;
use vstd::prelude::*;
use vstd::utf8::*;

verus! {

/// Tag byte of an encoded put record.
pub const TAG_PUT: u8 = 0;

/// Tag byte of an encoded delete record.
pub const TAG_DELETE: u8 = 1;

/// The mathematical model of a record: what one logged operation means,
/// independent of its byte representation.
#[verifier::ext_equal]
pub enum RecordModel {
    Put { key: Seq<char>, value: Seq<u8> },
    Delete { key: Seq<char> },
}

/// One logged operation: either a key/value write or a key deletion.
/// The value of a put is an opaque, pre-encoded payload; the engine never
/// interprets it.
pub enum Record {
    Put(String, Vec<u8>),
    Delete(String),
}

impl View for Record {
    type V = RecordModel;

    open spec fn view(&self) -> RecordModel {
        match self {
            Record::Put(k, v) => RecordModel::Put { key: k@, value: v@ },
            Record::Delete(k) => RecordModel::Delete { key: k@ },
        }
    }
}

/// A record can be encoded when its lengths fit the 8-byte length fields.
/// Every record built from an in-memory string and byte vector satisfies this.
pub open spec fn record_encodable(r: RecordModel) -> bool {
    match r {
        RecordModel::Put { key, value } => encode_utf8(key).len() <= u64::MAX && value.len()
            <= u64::MAX,
        RecordModel::Delete { key } => encode_utf8(key).len() <= u64::MAX,
    }
}

/// The byte encoding of a record.
pub open spec fn spec_encode_record(r: RecordModel) -> Seq<u8> {
    match r {
        RecordModel::Put { key, value } => seq![TAG_PUT] + spec_u64_to_le_bytes(
            encode_utf8(key).len() as u64,
        ) + encode_utf8(key) + spec_u64_to_le_bytes(value.len() as u64) + value,
        RecordModel::Delete { key } => seq![TAG_DELETE] + spec_u64_to_le_bytes(
            encode_utf8(key).len() as u64,
        ) + encode_utf8(key),
    }
}

/// Decoding one record from the front of a byte sequence: the record and the
/// number of bytes its encoding occupies, or `None` when the bytes do not
/// start with a well-formed record.
pub open spec fn spec_decode_record(data: Seq<u8>) -> Option<(RecordModel, int)> {
    if data.len() < 9 {
        None
    } else {
        let tag = data[0];
        let klen = spec_u64_from_le_bytes(data.subrange(1, 9)) as int;
        if tag == TAG_PUT {
            if data.len() < 17 + klen {
                None
            } else {
                let kbytes = data.subrange(9, 9 + klen);
                let vlen = spec_u64_from_le_bytes(data.subrange(9 + klen, 17 + klen)) as int;
                if data.len() < 17 + klen + vlen {
                    None
                } else if !valid_utf8(kbytes) {
                    None
                } else {
                    Some(
                        (
                            RecordModel::Put {
                                key: decode_utf8(kbytes),
                                value: data.subrange(17 + klen, 17 + klen + vlen),
                            },
                            17 + klen + vlen,
                        ),
                    )
                }
            }
        } else if tag == TAG_DELETE {
            if data.len() < 9 + klen {
                None
            } else if !valid_utf8(data.subrange(9, 9 + klen)) {
                None
            } else {
                Some(
                    (RecordModel::Delete { key: decode_utf8(data.subrange(9, 9 + klen)) }, 9 + klen),
                )
            }
        } else {
            None
        }
    }
}

/// A successful decode consumes at least the 9 header bytes and never more
/// than the sequence holds.
pub proof fn lemma_decode_bounds(data: Seq<u8>)
    requires
        spec_decode_record(data) is Some,
    ensures
        9 <= spec_decode_record(data)->Some_0.1 <= data.len(),
{
}

/// Decoding looks only at the bytes of the record itself: appending further
/// bytes changes neither the decoded record nor its length.
pub proof fn lemma_decode_prefix(data: Seq<u8>, ext: Seq<u8>)
    requires
        spec_decode_record(data) is Some,
    ensures
        spec_decode_record(data + ext) == spec_decode_record(data),
{
    let whole = data + ext;
    assert(whole.subrange(1, 9) =~= data.subrange(1, 9));
    let klen = spec_u64_from_le_bytes(data.subrange(1, 9)) as int;
    if data[0] == TAG_PUT {
        assert(whole.subrange(9, 9 + klen) =~= data.subrange(9, 9 + klen));
        assert(whole.subrange(9 + klen, 17 + klen) =~= data.subrange(9 + klen, 17 + klen));
        let vlen = spec_u64_from_le_bytes(data.subrange(9 + klen, 17 + klen)) as int;
        assert(whole.subrange(17 + klen, 17 + klen + vlen) =~= data.subrange(
            17 + klen,
            17 + klen + vlen,
        ));
        assert(spec_decode_record(whole) =~= spec_decode_record(data));
    } else {
        assert(whole.subrange(9, 9 + klen) =~= data.subrange(9, 9 + klen));
        assert(spec_decode_record(whole) =~= spec_decode_record(data));
    }
}

/// Decoding looks only at the bytes of the record itself: the consumed prefix
/// decodes to the same record on its own.
pub proof fn lemma_decode_exact(data: Seq<u8>)
    requires
        spec_decode_record(data) is Some,
    ensures
        spec_decode_record(data.subrange(0, spec_decode_record(data)->Some_0.1))
            == spec_decode_record(data),
{
    let n = spec_decode_record(data)->Some_0.1;
    let head = data.subrange(0, n);
    assert(head.subrange(1, 9) =~= data.subrange(1, 9));
    let klen = spec_u64_from_le_bytes(data.subrange(1, 9)) as int;
    if data[0] == TAG_PUT {
        assert(head.subrange(9, 9 + klen) =~= data.subrange(9, 9 + klen));
        assert(head.subrange(9 + klen, 17 + klen) =~= data.subrange(9 + klen, 17 + klen));
        let vlen = spec_u64_from_le_bytes(data.subrange(9 + klen, 17 + klen)) as int;
        assert(head.subrange(17 + klen, 17 + klen + vlen) =~= data.subrange(
            17 + klen,
            17 + klen + vlen,
        ));
        assert(spec_decode_record(head) =~= spec_decode_record(data));
    } else {
        assert(head.subrange(9, 9 + klen) =~= data.subrange(9, 9 + klen));
        assert(spec_decode_record(head) =~= spec_decode_record(data));
    }
}

/// Round trip: decoding an encoded record yields the record back and consumes
/// exactly its encoding.
pub proof fn lemma_encode_decode(r: RecordModel)
    requires
        record_encodable(r),
    ensures
        spec_decode_record(spec_encode_record(r)) == Some(
            (r, spec_encode_record(r).len() as int),
        ),
{
    lemma_auto_spec_u64_to_from_le_bytes();
    broadcast use encode_utf8_valid_utf8, encode_utf8_decode_utf8;

    let enc = spec_encode_record(r);
    match r {
        RecordModel::Put { key, value } => {
            let kbytes = encode_utf8(key);
            let klen = kbytes.len() as int;
            let vlen = value.len() as int;
            assert(enc.len() == 17 + klen + vlen);
            assert(enc.subrange(1, 9) =~= spec_u64_to_le_bytes(klen as u64));
            assert(enc.subrange(9, 9 + klen) =~= kbytes);
            assert(enc.subrange(9 + klen, 17 + klen) =~= spec_u64_to_le_bytes(vlen as u64));
            assert(enc.subrange(17 + klen, 17 + klen + vlen) =~= value);
            assert(spec_decode_record(enc) == Some((r, enc.len() as int)));
        },
        RecordModel::Delete { key } => {
            let kbytes = encode_utf8(key);
            let klen = kbytes.len() as int;
            assert(enc.len() == 9 + klen);
            assert(enc.subrange(1, 9) =~= spec_u64_to_le_bytes(klen as u64));
            assert(enc.subrange(9, 9 + klen) =~= kbytes);
            assert(spec_decode_record(enc) == Some((r, enc.len() as int)));
        },
    }
}

/// Relies on `String::from_utf8` from std: it succeeds exactly on valid UTF-8
/// input and returns the string whose UTF-8 encoding is that input, i.e. the
/// decoding that `vstd::utf8::decode_utf8` specifies.
#[verifier::external_body]
fn string_from_utf8(bytes: Vec<u8>) -> (r: Option<String>)
    ensures
        match r {
            Some(s) => valid_utf8(bytes@) && s@ == decode_utf8(bytes@),
            None => !valid_utf8(bytes@),
        },
{
    match String::from_utf8(bytes) {
        Ok(s) => Some(s),
        Err(_) => None,
    }
}

/// Encodes a record into the bytes that are appended to a segment.
pub fn encode_record(r: &Record) -> (out: Vec<u8>)
    ensures
        out@ == spec_encode_record(r@),
        record_encodable(r@),
{
    let mut out: Vec<u8> = Vec::new();
    match r {
        Record::Put(key, value) => {
            out.push(TAG_PUT);
            let mut kbytes = key.as_str().as_bytes_vec();
            let mut klen = u64_to_le_bytes(kbytes.len() as u64);
            out.append(&mut klen);
            out.append(&mut kbytes);
            let mut vlen = u64_to_le_bytes(value.len() as u64);
            out.append(&mut vlen);
            out.extend_from_slice(value.as_slice());
            proof {
                assert(out@ =~= spec_encode_record(r@));
            }
        },
        Record::Delete(key) => {
            out.push(TAG_DELETE);
            let mut kbytes = key.as_str().as_bytes_vec();
            let mut klen = u64_to_le_bytes(kbytes.len() as u64);
            out.append(&mut klen);
            out.append(&mut kbytes);
            proof {
                assert(out@ =~= spec_encode_record(r@));
            }
        },
    }
    out
}

/// Decodes the record that starts at `pos` in `data`, returning it together
/// with the position just past its encoding; `None` when the bytes at `pos`
/// are not a well-formed record.
pub fn decode_record_at(data: &Vec<u8>, pos: usize) -> (r: Option<(Record, usize)>)
    requires
        pos <= data.len(),
    ensures
        ({
            let tail = data@.subrange(pos as int, data@.len() as int);
            match r {
                Some(p) => {
                    &&& pos < p.1 <= data@.len()
                    &&& spec_decode_record(tail) == Some((p.0@, p.1 - pos as int))
                },
                None => spec_decode_record(tail) is None,
            }
        }),
{
    let ghost tail = data@.subrange(pos as int, data@.len() as int);
    let n = data.len();
    if n - pos < 9 {
        return None;
    }
    let tag = data[pos];
    let klen64 = u64_from_le_bytes(vstd::slice::slice_subrange(data.as_slice(), pos + 1, pos + 9));
    proof {
        assert(data@.subrange(pos + 1, pos + 9) =~= tail.subrange(1, 9));
    }
    if klen64 > (n - pos) as u64 {
        // The key alone would overrun the data; no length check below can pass.
        proof {
            assert(spec_decode_record(tail) is None);
        }
        return None;
    }
    let klen = klen64 as usize;
    if tag == TAG_PUT {
        if n - pos < 17 || n - pos - 17 < klen {
            return None;
        }
        let kbytes = vstd::slice::slice_to_vec(
            vstd::slice::slice_subrange(data.as_slice(), pos + 9, pos + 9 + klen),
        );
        proof {
            assert(kbytes@ =~= tail.subrange(9, 9 + klen as int));
        }
        let vlen64 = u64_from_le_bytes(
            vstd::slice::slice_subrange(data.as_slice(), pos + 9 + klen, pos + 17 + klen),
        );
        proof {
            assert(data@.subrange(pos + 9 + klen, pos + 17 + klen) =~= tail.subrange(
                9 + klen as int,
                17 + klen as int,
            ));
        }
        if vlen64 > (n - pos - 17 - klen) as u64 {
            return None;
        }
        let vlen = vlen64 as usize;
        let value = vstd::slice::slice_to_vec(
            vstd::slice::slice_subrange(
                data.as_slice(),
                pos + 17 + klen,
                pos + 17 + klen + vlen,
            ),
        );
        proof {
            assert(value@ =~= tail.subrange(17 + klen as int, 17 + klen as int + vlen as int));
        }
        match string_from_utf8(kbytes) {
            Some(key) => Some((Record::Put(key, value), pos + 17 + klen + vlen)),
            None => None,
        }
    } else if tag == TAG_DELETE {
        if n - pos - 9 < klen {
            return None;
        }
        let kbytes = vstd::slice::slice_to_vec(
            vstd::slice::slice_subrange(data.as_slice(), pos + 9, pos + 9 + klen),
        );
        proof {
            assert(kbytes@ =~= tail.subrange(9, 9 + klen as int));
        }
        match string_from_utf8(kbytes) {
            Some(key) => Some((Record::Delete(key), pos + 9 + klen)),
            None => None,
        }
    } else {
        None
    }
}

} // verus!
