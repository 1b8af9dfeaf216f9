//! Framing of log records.
//!
//! A log file is a sequence of framed tagged records. A `Set` record is a
//! tag byte `0`, the key's byte length as eight little-endian bytes, the key
//! in UTF-8, then the value's length and bytes the same way. A `Remove`
//! record is a tag byte `1` followed by the framed key alone.
//!
//! Records are self-delimiting: a record parses the same whatever bytes
//! follow it, which is what lets the store append to a log and lets a torn
//! tail be recognised and ignored.

use vstd::bytes::{spec_u64_from_le_bytes, spec_u64_to_le_bytes, u64_from_le_bytes, u64_to_le_bytes};
use vstd::prelude::*;
use vstd::slice::{slice_subrange, slice_to_vec};
use vstd::utf8::{decode_utf8, encode_utf8, valid_utf8};

verus! {

/// A log record, as written by the store.
pub enum Command {
    Put { key: String, value: String },
    Remove { key: String },
}

/// The mathematical reading of a record: key and value as character
/// sequences.
pub enum SpecRecord {
    RSet { key: Seq<char>, value: Seq<char> },
    RRemove { key: Seq<char> },
}

impl View for Command {
    type V = SpecRecord;

    open spec fn view(&self) -> SpecRecord {
        match self {
            Command::Put { key, value } => SpecRecord::RSet { key: key@, value: value@ },
            Command::Remove { key } => SpecRecord::RRemove { key: key@ },
        }
    }
}

impl Command {
    /// A `Set` record.
    pub fn set(key: String, value: String) -> (c: Command)
        ensures
            c@ == (SpecRecord::RSet { key: key@, value: value@ }),
    {
        Command::Put { key, value }
    }

    /// A `Remove` record.
    pub fn remove(key: String) -> (c: Command)
        ensures
            c@ == (SpecRecord::RRemove { key: key@ }),
    {
        Command::Remove { key }
    }

    /// The key the record speaks of.
    pub open spec fn spec_key(self) -> Seq<char> {
        match self@ {
            SpecRecord::RSet { key, .. } => key,
            SpecRecord::RRemove { key } => key,
        }
    }
}

/// Eight little-endian bytes for a length.
pub open spec fn len8(n: int) -> Seq<u8> {
    spec_u64_to_le_bytes(n as u64)
}

/// The encoded form of a record.
pub open spec fn encode_record(r: SpecRecord) -> Seq<u8> {
    match r {
        SpecRecord::RSet { key, value } => {
            let kb = encode_utf8(key);
            let vb = encode_utf8(value);
            seq![0u8] + len8(kb.len() as int) + kb + len8(vb.len() as int) + vb
        },
        SpecRecord::RRemove { key } => {
            let kb = encode_utf8(key);
            seq![1u8] + len8(kb.len() as int) + kb
        },
    }
}

/// Whether the record's encoded lengths fit the frame's length fields.
pub open spec fn encodable(r: SpecRecord) -> bool {
    match r {
        SpecRecord::RSet { key, value } => encode_utf8(key).len() <= u64::MAX
            && encode_utf8(value).len() <= u64::MAX,
        SpecRecord::RRemove { key } => encode_utf8(key).len() <= u64::MAX,
    }
}

/// Parses the record starting at `pos`, if any: the record's reading and
/// the position one past its last byte. Only bytes in `pos .. result.1`
/// are inspected.
pub open spec fn parse_record(bytes: Seq<u8>, pos: int) -> Option<(SpecRecord, int)> {
    if pos < 0 || pos + 9 > bytes.len() {
        None
    } else {
        let tag = bytes[pos];
        let klen = spec_u64_from_le_bytes(bytes.subrange(pos + 1, pos + 9)) as int;
        if tag == 0u8 {
            if pos + 17 + klen > bytes.len() {
                None
            } else {
                let kb = bytes.subrange(pos + 9, pos + 9 + klen);
                let vlen = spec_u64_from_le_bytes(
                    bytes.subrange(pos + 9 + klen, pos + 17 + klen),
                ) as int;
                if pos + 17 + klen + vlen > bytes.len() {
                    None
                } else {
                    let vb = bytes.subrange(pos + 17 + klen, pos + 17 + klen + vlen);
                    if valid_utf8(kb) && valid_utf8(vb) {
                        Some(
                            (
                                SpecRecord::RSet { key: decode_utf8(kb), value: decode_utf8(vb) },
                                pos + 17 + klen + vlen,
                            ),
                        )
                    } else {
                        None
                    }
                }
            }
        } else if tag == 1u8 {
            if pos + 9 + klen > bytes.len() {
                None
            } else {
                let kb = bytes.subrange(pos + 9, pos + 9 + klen);
                if valid_utf8(kb) {
                    Some((SpecRecord::RRemove { key: decode_utf8(kb) }, pos + 9 + klen))
                } else {
                    None
                }
            }
        } else {
            None
        }
    }
}

/// A parsed record spans at least its nine-byte header and ends within
/// the buffer.
pub proof fn lemma_parse_bounds(bytes: Seq<u8>, pos: int)
    requires
        parse_record(bytes, pos) is Some,
    ensures
        pos + 9 <= (parse_record(bytes, pos)->0).1 <= bytes.len(),
        pos >= 0,
{
}

/// Parsing is unaffected by bytes past the record: extending the buffer
/// leaves an already-parsed record and its end position unchanged.
pub proof fn lemma_parse_stable(b1: Seq<u8>, b2: Seq<u8>, pos: int)
    requires
        parse_record(b1, pos) is Some,
        b1.len() <= b2.len(),
        b2.subrange(0, b1.len() as int) == b1,
    ensures
        parse_record(b2, pos) == parse_record(b1, pos),
{
    assert forall|x: int, y: int| 0 <= x <= y <= b1.len() implies b2.subrange(x, y)
        == #[trigger] b1.subrange(x, y) by {
        assert(b2.subrange(x, y) =~= b1.subrange(0, b1.len() as int).subrange(x, y));
    }
    assert(b2.subrange(pos + 1, pos + 9) == b1.subrange(pos + 1, pos + 9));
    assert(b2[pos] == b1[pos]) by {
        assert(b1[pos] == b1.subrange(0, b1.len() as int)[pos]);
    }
}

/// A record encoded into a buffer parses back to itself, whatever stands
/// before or after it.
pub proof fn lemma_parse_encode(bytes: Seq<u8>, pos: int, r: SpecRecord)
    requires
        encodable(r),
        0 <= pos,
        pos + encode_record(r).len() <= bytes.len(),
        bytes.subrange(pos, pos + encode_record(r).len()) == encode_record(r),
    ensures
        parse_record(bytes, pos) == Some((r, pos + encode_record(r).len())),
{
    vstd::bytes::lemma_auto_spec_u64_to_from_le_bytes();
    let enc = encode_record(r);
    assert forall|x: int, y: int| 0 <= x <= y <= enc.len() implies bytes.subrange(
        pos + x,
        pos + y,
    ) == #[trigger] enc.subrange(x, y) by {
        assert(bytes.subrange(pos + x, pos + y) =~= bytes.subrange(
            pos,
            pos + enc.len(),
        ).subrange(x, y));
    }
    match r {
        SpecRecord::RSet { key, value } => {
            let kb = encode_utf8(key);
            let vb = encode_utf8(value);
            broadcast use vstd::utf8::encode_utf8_valid_utf8, vstd::utf8::encode_utf8_decode_utf8;

            assert(bytes[pos] == 0u8) by {
                assert(bytes.subrange(pos, pos + 1) == enc.subrange(0, 1));
                assert(bytes.subrange(pos, pos + 1)[0] == bytes[pos]);
                assert(enc.subrange(0, 1)[0] == enc[0]);
                assert(enc[0] == 0u8);
            }
            assert(enc.subrange(1, 9) =~= len8(kb.len() as int));
            assert(bytes.subrange(pos + 1, pos + 9) == len8(kb.len() as int));
            assert(spec_u64_from_le_bytes(bytes.subrange(pos + 1, pos + 9)) == kb.len() as u64);
            let klen = kb.len() as int;
            assert(enc.subrange(9, 9 + klen) =~= kb);
            assert(bytes.subrange(pos + 9, pos + 9 + klen) == kb);
            assert(enc.subrange(9 + klen, 17 + klen) =~= len8(vb.len() as int));
            assert(bytes.subrange(pos + 9 + klen, pos + 17 + klen) == len8(vb.len() as int));
            assert(spec_u64_from_le_bytes(bytes.subrange(pos + 9 + klen, pos + 17 + klen))
                == vb.len() as u64);
            let vlen = vb.len() as int;
            assert(enc.subrange(17 + klen, 17 + klen + vlen) =~= vb);
            assert(bytes.subrange(pos + 17 + klen, pos + 17 + klen + vlen) == vb);
            assert(enc.len() == 17 + klen + vlen);
            assert(decode_utf8(kb) == key);
            assert(decode_utf8(vb) == value);
        },
        SpecRecord::RRemove { key } => {
            let kb = encode_utf8(key);
            broadcast use vstd::utf8::encode_utf8_valid_utf8, vstd::utf8::encode_utf8_decode_utf8;

            assert(bytes[pos] == 1u8) by {
                assert(bytes.subrange(pos, pos + 1) == enc.subrange(0, 1));
                assert(bytes.subrange(pos, pos + 1)[0] == bytes[pos]);
                assert(enc.subrange(0, 1)[0] == enc[0]);
                assert(enc[0] == 1u8);
            }
            assert(enc.subrange(1, 9) =~= len8(kb.len() as int));
            assert(bytes.subrange(pos + 1, pos + 9) == len8(kb.len() as int));
            assert(spec_u64_from_le_bytes(bytes.subrange(pos + 1, pos + 9)) == kb.len() as u64);
            let klen = kb.len() as int;
            assert(enc.subrange(9, 9 + klen) =~= kb);
            assert(bytes.subrange(pos + 9, pos + 9 + klen) == kb);
            assert(enc.len() == 9 + klen);
            assert(decode_utf8(kb) == key);
        },
    }
}

/// Parsing is exact: the bytes a parsed record spans are precisely that
/// record's encoding. Compaction relies on this to copy records byte for
/// byte, and reads rely on it to re-parse a copied range.
pub proof fn lemma_parse_canonical(bytes: Seq<u8>, pos: int)
    requires
        parse_record(bytes, pos) is Some,
    ensures
        encodable((parse_record(bytes, pos)->0).0),
        bytes.subrange(pos, (parse_record(bytes, pos)->0).1) == encode_record(
            (parse_record(bytes, pos)->0).0,
        ),
{
    vstd::bytes::lemma_auto_spec_u64_to_from_le_bytes();
    broadcast use vstd::utf8::decode_utf8_encode_utf8;

    let pr = parse_record(bytes, pos)->0;
    let r = pr.0;
    let end = pr.1;
    let tag = bytes[pos];
    let lenslice = bytes.subrange(pos + 1, pos + 9);
    let klen = spec_u64_from_le_bytes(lenslice) as int;
    let kb = bytes.subrange(pos + 9, pos + 9 + klen);
    assert(len8(kb.len() as int) =~= lenslice);
    if tag == 0u8 {
        let vlenslice = bytes.subrange(pos + 9 + klen, pos + 17 + klen);
        let vlen = spec_u64_from_le_bytes(vlenslice) as int;
        let vb = bytes.subrange(pos + 17 + klen, pos + 17 + klen + vlen);
        assert(len8(vb.len() as int) =~= vlenslice);
        assert(encode_utf8(decode_utf8(kb)) == kb);
        assert(encode_utf8(decode_utf8(vb)) == vb);
        assert(bytes.subrange(pos, end) =~= seq![0u8] + lenslice + kb + vlenslice + vb);
        assert(encode_record(r) == seq![0u8] + len8(kb.len() as int) + kb + len8(
            vb.len() as int,
        ) + vb);
    } else {
        assert(encode_utf8(decode_utf8(kb)) == kb);
        assert(bytes.subrange(pos, end) =~= seq![1u8] + lenslice + kb);
        assert(encode_record(r) == seq![1u8] + len8(kb.len() as int) + kb);
    }
}

/// Relies on std's `String::from_utf8`: it succeeds exactly on valid UTF-8
/// and returns the string whose characters the bytes encode.
#[verifier::external_body]
pub fn bytes_to_string(v: Vec<u8>) -> (r: Option<String>)
    ensures
        r is Some <==> valid_utf8(v@),
        r matches Some(s) ==> s@ == decode_utf8(v@),
{
    String::from_utf8(v).ok()
}

/// Appends a slice to a byte vector.
pub fn append_bytes(dst: &mut Vec<u8>, src: &[u8])
    ensures
        final(dst)@ == old(dst)@ + src@,
{
    let mut i: usize = 0;
    while i < src.len()
        invariant
            i <= src@.len(),
            dst@ == old(dst)@ + src@.take(i as int),
        decreases src@.len() - i,
    {
        dst.push(*slice_subrange(src, i, i + 1).first().unwrap());
        proof {
            assert(src@.take(i + 1) =~= src@.take(i as int).push(src@[i as int]));
            assert(dst@ =~= old(dst)@ + src@.take(i + 1));
        }
        i = i + 1;
    }
    proof {
        assert(src@.take(src@.len() as int) =~= src@);
    }
}

/// Encodes a record into its framed byte form.
pub fn encode_command(cmd: &Command) -> (out: Vec<u8>)
    ensures
        encodable(cmd@),
        out@ == encode_record(cmd@),
        out@.len() >= 9,
    {
    let mut out: Vec<u8> = Vec::new();
    match cmd {
        Command::Put { key, value } => {
            let kb = key.as_str().as_bytes_vec();
            let vb = value.as_str().as_bytes_vec();
            out.push(0u8);
            let klen_bytes = u64_to_le_bytes(kb.len() as u64);
            append_bytes(&mut out, klen_bytes.as_slice());
            append_bytes(&mut out, kb.as_slice());
            let vlen_bytes = u64_to_le_bytes(vb.len() as u64);
            append_bytes(&mut out, vlen_bytes.as_slice());
            append_bytes(&mut out, vb.as_slice());
            proof {
                assert(out@ =~= seq![0u8] + len8(kb@.len() as int) + kb@ + len8(
                    vb@.len() as int,
                ) + vb@);
                vstd::bytes::lemma_auto_spec_u64_to_from_le_bytes();
            }
        },
        Command::Remove { key } => {
            let kb = key.as_str().as_bytes_vec();
            out.push(1u8);
            let klen_bytes = u64_to_le_bytes(kb.len() as u64);
            append_bytes(&mut out, klen_bytes.as_slice());
            append_bytes(&mut out, kb.as_slice());
            proof {
                assert(out@ =~= seq![1u8] + len8(kb@.len() as int) + kb@);
                vstd::bytes::lemma_auto_spec_u64_to_from_le_bytes();
            }
        },
    }
    out
}

/// Parses the record at `pos`, mirroring [`parse_record`].
pub fn parse_command(bytes: &[u8], pos: usize) -> (r: Option<(Command, usize)>)
    requires
        pos <= bytes@.len(),
    ensures
        match r {
            Some((cmd, end)) => parse_record(bytes@, pos as int) == Some((cmd@, end as int)),
            None => parse_record(bytes@, pos as int) is None,
        },
{
    proof {
        vstd::bytes::lemma_auto_spec_u64_to_from_le_bytes();
    }
    let n = bytes.len();
    if n - pos < 9 {
        return None;
    }
    let tag = *vstd::slice::slice_index_get(bytes, pos);
    let klen_slice = slice_subrange(bytes, pos + 1, pos + 9);
    let klen64 = u64_from_le_bytes(klen_slice);
    if tag == 0u8 {
        if n - pos < 17 {
            return None;
        }
        if klen64 > (n - pos - 17) as u64 {
            return None;
        }
        let klen = klen64 as usize;
        let kb = slice_to_vec(slice_subrange(bytes, pos + 9, pos + 9 + klen));
        let vlen_slice = slice_subrange(bytes, pos + 9 + klen, pos + 17 + klen);
        let vlen64 = u64_from_le_bytes(vlen_slice);
        if vlen64 > (n - pos - 17 - klen) as u64 {
            return None;
        }
        let vlen = vlen64 as usize;
        let vb = slice_to_vec(slice_subrange(bytes, pos + 17 + klen, pos + 17 + klen + vlen));
        let key = match bytes_to_string(kb) {
            Some(s) => s,
            None => {
                return None;
            },
        };
        let value = match bytes_to_string(vb) {
            Some(s) => s,
            None => {
                return None;
            },
        };
        Some((Command::Put { key, value }, pos + 17 + klen + vlen))
    } else if tag == 1u8 {
        if klen64 > (n - pos - 9) as u64 {
            return None;
        }
        let klen = klen64 as usize;
        let kb = slice_to_vec(slice_subrange(bytes, pos + 9, pos + 9 + klen));
        let key = match bytes_to_string(kb) {
            Some(s) => s,
            None => {
                return None;
            },
        };
        Some((Command::Remove { key }, pos + 9 + klen))
    } else {
        None
    }
}

} // verus!
