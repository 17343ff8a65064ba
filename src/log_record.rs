//! The on-disk record: framing, checksum and the position of a record.
use vstd::prelude::*;
use crate::bytes_util::{append_bytes, copy_range};
use crate::errors::{Errors, Result};
use crate::varint::{
    decode_varint, encode_varint, lemma_decode_varint_result, lemma_parse_varint, lemma_varint_len_u32, parse_varint,
    varint, varint_len,
};

verus! {

/// The CRC-32 of a byte string, as crc32fast computes it.
pub uninterp spec fn crc32_of(bytes: Seq<u8>) -> u32;

/// Relies on crc32fast::hash: the CRC-32 (IEEE) checksum of the bytes, a
/// function of the bytes alone.
#[verifier::external_body]
fn crc32(bytes: &[u8]) -> (r: u32)
    ensures
        r == crc32_of(bytes@),
{
    crc32fast::hash(bytes)
}

/// The kind of a record.
#[derive(Debug, Clone, Copy, PartialEq, Eq, Structural)]
pub enum LogRecordType {
    /// A key written with its value.
    NORMAL,
    /// A tombstone: the key was deleted.
    DELETE,
    /// The record that ends a committed write batch.
    TxnFinished,
}

/// The byte that stands for a record kind on disk.
pub open spec fn type_byte(t: LogRecordType) -> u8 {
    match t {
        LogRecordType::NORMAL => 1,
        LogRecordType::DELETE => 2,
        LogRecordType::TxnFinished => 3,
    }
}

impl LogRecordType {
    pub fn to_u8(self) -> (r: u8)
        ensures
            r == type_byte(self),
    {
        match self {
            LogRecordType::NORMAL => 1,
            LogRecordType::DELETE => 2,
            LogRecordType::TxnFinished => 3,
        }
    }

    /// The kind that a byte stands for; `None` for a byte that names none.
    pub fn from_u8(v: u8) -> (r: Option<LogRecordType>)
        ensures
            r.is_some() <==> 1 <= v <= 3,
            r matches Some(t) ==> type_byte(t) == v,
    {
        match v {
            1 => Some(LogRecordType::NORMAL),
            2 => Some(LogRecordType::DELETE),
            3 => Some(LogRecordType::TxnFinished),
            _ => None,
        }
    }
}

/// The four little-endian bytes of `x`.
pub open spec fn le32(x: u32) -> Seq<u8> {
    seq![
        (x & 0xff) as u8,
        ((x >> 8u32) & 0xff) as u8,
        ((x >> 16u32) & 0xff) as u8,
        ((x >> 24u32) & 0xff) as u8,
    ]
}

/// The number that four little-endian bytes stand for.
pub open spec fn le32_value(b: Seq<u8>) -> u32 {
    (b[0] as u32) | ((b[1] as u32) << 8u32) | ((b[2] as u32) << 16u32) | ((b[3] as u32) << 24u32)
}

/// Four little-endian bytes give back the number they were made from.
pub proof fn lemma_le32_round_trip(x: u32)
    ensures
        le32_value(le32(x)) == x,
{
    let b = le32(x);
    assert(((x & 0xff) as u8 as u32) | ((((x >> 8u32) & 0xff) as u8 as u32) << 8u32) | ((((x
        >> 16u32) & 0xff) as u8 as u32) << 16u32) | ((((x >> 24u32) & 0xff) as u8 as u32)
        << 24u32) == x) by (bit_vector);
}

/// Everything a record's checksum covers: kind, the two lengths, key, value.
pub open spec fn record_body(t: LogRecordType, key: Seq<u8>, value: Seq<u8>) -> Seq<u8> {
    seq![type_byte(t)] + varint(key.len()) + varint(value.len()) + key + value
}

/// The bytes of one record: its body and then the body's CRC, little-endian.
pub open spec fn encode_record(t: LogRecordType, key: Seq<u8>, value: Seq<u8>) -> Seq<u8> {
    record_body(t, key, value) + le32(crc32_of(record_body(t, key, value)))
}

/// The most bytes that the framing before the key can take: the kind and
/// two lengths of at most five bytes each.
pub open spec fn spec_max_header_size() -> nat {
    11
}

/// One record of a data file.
#[derive(Debug)]
pub struct LogRecord {
    pub key: Vec<u8>,
    pub value: Vec<u8>,
    pub rec_type: LogRecordType,
}

impl LogRecord {
    pub open spec fn spec_body(&self) -> Seq<u8> {
        record_body(self.rec_type, self.key@, self.value@)
    }

    pub open spec fn spec_encoded(&self) -> Seq<u8> {
        encode_record(self.rec_type, self.key@, self.value@)
    }

    /// The record's bytes as a data file holds them.
    pub fn encode(&self) -> (r: Vec<u8>)
        ensures
            r@ == self.spec_encoded(),
    {
        let (buf, _) = self.encode_and_get_crc();
        buf
    }

    /// The checksum stored at the end of the record.
    pub fn get_crc(&self) -> (r: u32)
        ensures
            r == crc32_of(self.spec_body()),
    {
        let (_, crc) = self.encode_and_get_crc();
        crc
    }

    fn encode_and_get_crc(&self) -> (r: (Vec<u8>, u32))
        ensures
            r.0@ == self.spec_encoded(),
            r.1 == crc32_of(self.spec_body()),
    {
        let mut buf: Vec<u8> = Vec::new();
        buf.push(self.rec_type.to_u8());
        let klen = encode_varint(self.key.len() as u64);
        let vlen = encode_varint(self.value.len() as u64);
        append_bytes(&mut buf, klen.as_slice());
        append_bytes(&mut buf, vlen.as_slice());
        append_bytes(&mut buf, self.key.as_slice());
        append_bytes(&mut buf, self.value.as_slice());
        assert(buf@ =~= self.spec_body());
        let crc = crc32(buf.as_slice());
        buf.push((crc & 0xff) as u8);
        buf.push(((crc >> 8) & 0xff) as u8);
        buf.push(((crc >> 16) & 0xff) as u8);
        buf.push(((crc >> 24) & 0xff) as u8);
        assert(buf@ =~= self.spec_encoded());
        (buf, crc)
    }

    /// The number of bytes that `encode` gives.
    pub fn encoded_length(&self) -> (r: usize)
        requires
            self.key@.len() + self.value@.len() + 25 <= usize::MAX,
        ensures
            r == self.spec_encoded().len(),
    {
        proof {
            lemma_parse_varint(self.key@.len() as u64, Seq::empty());
            lemma_parse_varint(self.value@.len() as u64, Seq::empty());
        }
        1 + varint_len(self.key.len() as u64) + varint_len(self.value.len() as u64)
            + self.key.len() + self.value.len() + 4
    }
}

/// Where a record lies: its file, its offset there and its encoded length.
#[derive(Debug, Clone, Copy, PartialEq, Eq, Structural)]
pub struct LogRecordPos {
    pub file_id: u32,
    pub offset: u64,
    pub size: u32,
}

/// A position as hint files store it: three varints.
pub open spec fn encode_pos(p: LogRecordPos) -> Seq<u8> {
    varint(p.file_id as nat) + varint(p.offset as nat) + varint(p.size as nat)
}

/// The position that a byte string holds, if it holds one: three varints
/// that fit their fields, and nothing after them.
pub open spec fn parse_pos(b: Seq<u8>) -> Option<LogRecordPos> {
    match parse_varint(b) {
        None => None,
        Some((f, n1)) => match parse_varint(b.subrange(n1, b.len() as int)) {
            None => None,
            Some((o, n2)) => match parse_varint(b.subrange(n1 + n2, b.len() as int)) {
                None => None,
                Some((s, n3)) => if f <= u32::MAX && o <= u64::MAX && s <= u32::MAX && n1 + n2
                    + n3 == b.len() {
                    Some(LogRecordPos { file_id: f as u32, offset: o as u64, size: s as u32 })
                } else {
                    None
                },
            },
        },
    }
}

impl LogRecordPos {
    /// The position's bytes in a hint record.
    pub fn encode(&self) -> (r: Vec<u8>)
        ensures
            r@ == encode_pos(*self),
    {
        let mut buf = encode_varint(self.file_id as u64);
        let o = encode_varint(self.offset);
        let s = encode_varint(self.size as u64);
        append_bytes(&mut buf, o.as_slice());
        append_bytes(&mut buf, s.as_slice());
        buf
    }
}

/// Decodes the position that `encode` wrote; `DataDirCorrupted` where the
/// bytes hold none.
pub fn decode_log_record_pos(b: &[u8]) -> (r: Result<LogRecordPos>)
    ensures
        match parse_pos(b@) {
            Some(p) => r == Ok::<LogRecordPos, Errors>(p),
            None => r == Err::<LogRecordPos, Errors>(Errors::DataDirCorrupted),
        },
{
    let r1 = decode_varint(b);
    proof { lemma_decode_varint_result(b@, r1); }
    let (f, rest1) = match r1 {
        Some(x) => x,
        None => return Err(Errors::DataDirCorrupted),
    };
    let n1 = b.len() - rest1;
    let b2 = slice_from(b, n1);
    let r2 = decode_varint(b2);
    proof { lemma_decode_varint_result(b2@, r2); }
    let (o, rest2) = match r2 {
        Some(x) => x,
        None => return Err(Errors::DataDirCorrupted),
    };
    let n2 = b2.len() - rest2;
    let b3 = slice_from(b2, n2);
    assert(b3@ =~= b@.subrange(n1 + n2, b@.len() as int));
    let r3 = decode_varint(b3);
    proof { lemma_decode_varint_result(b3@, r3); }
    let (s, rest3) = match r3 {
        Some(x) => x,
        None => return Err(Errors::DataDirCorrupted),
    };
    if f > u32::MAX as u64 || s > u32::MAX as u64 || rest3 != 0 {
        return Err(Errors::DataDirCorrupted);
    }
    Ok(LogRecordPos { file_id: f as u32, offset: o, size: s as u32 })
}

/// Hint records hold positions that decode back to themselves.
pub proof fn lemma_pos_round_trip(p: LogRecordPos)
    ensures
        parse_pos(encode_pos(p)) == Some(p),
{
    let b = encode_pos(p);
    let vf = varint(p.file_id as nat);
    let vo = varint(p.offset as nat);
    let vs = varint(p.size as nat);
    lemma_parse_varint(p.file_id as u64, vo + vs);
    assert(b =~= vf + (vo + vs));
    lemma_parse_varint(p.offset, vs);
    assert(b.subrange(vf.len() as int, b.len() as int) =~= vo + vs);
    lemma_parse_varint(p.size as u64, Seq::empty());
    assert(b.subrange((vf.len() + vo.len()) as int, b.len() as int) =~= vs + Seq::empty());
}

/// `s[from..]`.
fn slice_from(s: &[u8], from: usize) -> (r: &[u8])
    requires
        from <= s@.len(),
    ensures
        r@ == s@.subrange(from as int, s@.len() as int),
{
    vstd::slice::slice_subrange(s, from, s.len())
}

/// What a record read back from a data file holds, and how many bytes it took.
#[derive(Debug)]
pub struct ReadLogRecord {
    pub record: LogRecord,
    pub size: usize,
}

/// The framing before a record's key: its kind byte, the two lengths, and
/// the number of bytes those took.
#[derive(Debug, Clone, Copy, PartialEq, Eq, Structural)]
pub struct LogRecordHeader {
    pub rec_type: u8,
    pub key_size: usize,
    pub value_size: usize,
    pub header_size: usize,
}

/// The framing at the start of `h`, if it holds one: kind byte, key length,
/// value length and the length of the framing.
pub open spec fn parse_header(h: Seq<u8>) -> Option<(u8, nat, nat, nat)> {
    if h.len() == 0 {
        None
    } else {
        match parse_varint(h.subrange(1, h.len() as int)) {
            None => None,
            Some((k, n1)) => match parse_varint(h.subrange(1 + n1, h.len() as int)) {
                None => None,
                Some((v, n2)) => Some((h[0], k, v, (1 + n1 + n2) as nat)),
            },
        }
    }
}

/// The most bytes that the framing before the key can take.
pub fn max_log_record_header_size() -> (r: usize)
    ensures
        r == spec_max_header_size(),
{
    1 + 5 + 5
}

/// Decodes the framing at the start of `buf`. Both lengths zero mark the
/// end of what can be scanned (`ReadDataFileEof`); framing that does not
/// parse is `DataDirCorrupted`.
pub fn decode_log_record_header(buf: &[u8]) -> (r: Result<LogRecordHeader>)
    ensures
        match parse_header(buf@) {
            None => r == Err::<LogRecordHeader, Errors>(Errors::DataDirCorrupted),
            Some((t, k, v, hs)) => if k == 0 && v == 0 {
                r == Err::<LogRecordHeader, Errors>(Errors::ReadDataFileEof)
            } else if k > usize::MAX || v > usize::MAX {
                r == Err::<LogRecordHeader, Errors>(Errors::DataDirCorrupted)
            } else {
                r == Ok::<LogRecordHeader, Errors>(
                    LogRecordHeader {
                        rec_type: t,
                        key_size: k as usize,
                        value_size: v as usize,
                        header_size: hs as usize,
                    },
                )
            },
        },
{
    if buf.len() == 0 {
        return Err(Errors::DataDirCorrupted);
    }
    let t = buf[0];
    let b1 = slice_from(buf, 1);
    let r1 = decode_varint(b1);
    proof { lemma_decode_varint_result(b1@, r1); }
    let (k, rest1) = match r1 {
        Some(x) => x,
        None => return Err(Errors::DataDirCorrupted),
    };
    let n1 = b1.len() - rest1;
    let b2 = slice_from(b1, n1);
    assert(b2@ =~= buf@.subrange(1 + n1, buf@.len() as int));
    let r2 = decode_varint(b2);
    proof { lemma_decode_varint_result(b2@, r2); }
    let (v, rest2) = match r2 {
        Some(x) => x,
        None => return Err(Errors::DataDirCorrupted),
    };
    let n2 = b2.len() - rest2;
    if k == 0 && v == 0 {
        return Err(Errors::ReadDataFileEof);
    }
    if k > usize::MAX as u64 || v > usize::MAX as u64 {
        return Err(Errors::DataDirCorrupted);
    }
    Ok(LogRecordHeader {
        rec_type: t,
        key_size: k as usize,
        value_size: v as usize,
        header_size: 1 + n1 + n2,
    })
}

/// The framing of an encoded record parses back to its kind and lengths,
/// whatever follows it.
pub proof fn lemma_header_round_trip(t: LogRecordType, key: Seq<u8>, value: Seq<u8>, rest: Seq<u8>)
    requires
        key.len() <= u64::MAX,
        value.len() <= u64::MAX,
    ensures
        parse_header(encode_record(t, key, value) + rest) == Some(
            (
                type_byte(t),
                key.len(),
                value.len(),
                (1 + varint(key.len()).len() + varint(value.len()).len()) as nat,
            ),
        ),
        key.len() <= u32::MAX && value.len() <= u32::MAX ==> 1 + varint(key.len()).len()
            + varint(value.len()).len() <= spec_max_header_size(),
{
    if key.len() <= u32::MAX && value.len() <= u32::MAX {
        lemma_varint_len_u32(key.len());
        lemma_varint_len_u32(value.len());
    }
    let h = encode_record(t, key, value) + rest;
    let vk = varint(key.len());
    let vv = varint(value.len());
    let tail = key + value + le32(crc32_of(record_body(t, key, value))) + rest;
    assert(h =~= seq![type_byte(t)] + vk + vv + tail);
    assert(h.subrange(1, h.len() as int) =~= vk + (vv + tail));
    lemma_parse_varint(key.len() as u64, vv + tail);
    assert(h.subrange((1 + vk.len()) as int, h.len() as int) =~= vv + tail);
    lemma_parse_varint(value.len() as u64, tail);
}

/// The bytes of a record, read back as the scan reads them, pass the
/// checksum and give back the key and the value: framing, then key and
/// value, then the stored checksum of both.
pub proof fn lemma_record_round_trip(t: LogRecordType, key: Seq<u8>, value: Seq<u8>)
    requires
        key.len() <= u32::MAX,
        value.len() <= u32::MAX,
    ensures
        ({
            let e = encode_record(t, key, value);
            let hs = 1 + varint(key.len()).len() + varint(value.len()).len();
            let k = key.len() as int;
            let v = value.len() as int;
            &&& parse_header(e) == Some((type_byte(t), key.len(), value.len(), hs as nat))
            &&& hs <= spec_max_header_size()
            &&& e.len() == hs + k + v + 4
            &&& crc32_of(e.subrange(0, hs as int) + e.subrange(hs as int, hs + k + v)) == le32_value(
                e.subrange(hs + k + v, hs + k + v + 4),
            )
            &&& e.subrange(hs as int, hs + k) == key
            &&& e.subrange(hs + k, hs + k + v) == value
        }),
{
    let e = encode_record(t, key, value);
    let body = record_body(t, key, value);
    let hs = 1 + varint(key.len()).len() + varint(value.len()).len();
    let k = key.len() as int;
    let v = value.len() as int;
    lemma_header_round_trip(t, key, value, Seq::empty());
    assert(e + Seq::<u8>::empty() =~= e);
    assert(body.len() == hs + k + v);
    assert(e.subrange(0, hs as int) + e.subrange(hs as int, hs + k + v) =~= body);
    assert(e.subrange(hs + k + v, hs + k + v + 4) =~= le32(crc32_of(body)));
    lemma_le32_round_trip(crc32_of(body));
    assert(e.subrange(hs as int, hs + k) =~= key);
    assert(e.subrange(hs + k, hs + k + v) =~= value);
}

/// Checks and decodes a record from its framing and the bytes after it.
/// `kv_buf` holds the key, the value and the stored checksum. A checksum
/// that does not match is `InvalidLogRecordCrc`; a kind byte that names no
/// kind is `DataDirCorrupted`.
pub fn decode_log_record_body(header_buf: &[u8], header: &LogRecordHeader, kv_buf: &[u8]) -> (r:
    Result<ReadLogRecord>)
    requires
        header.header_size <= header_buf@.len(),
        kv_buf@.len() == header.key_size + header.value_size + 4,
        header.header_size + kv_buf@.len() <= usize::MAX,
    ensures
        ({
            let k = header.key_size as int;
            let v = header.value_size as int;
            let body = header_buf@.subrange(0, header.header_size as int) + kv_buf@.subrange(
                0,
                k + v,
            );
            let stored = le32_value(kv_buf@.subrange(k + v, k + v + 4));
            if crc32_of(body) != stored {
                r == Err::<ReadLogRecord, Errors>(Errors::InvalidLogRecordCrc)
            } else if !(1 <= header.rec_type <= 3) {
                r == Err::<ReadLogRecord, Errors>(Errors::DataDirCorrupted)
            } else {
                &&& r is Ok
                &&& type_byte(r->Ok_0.record.rec_type) == header.rec_type
                &&& r->Ok_0.record.key@ == kv_buf@.subrange(0, k)
                &&& r->Ok_0.record.value@ == kv_buf@.subrange(k, k + v)
                &&& r->Ok_0.size == header.header_size + k + v + 4
            }
        }),
{
    let k = header.key_size;
    let v = header.value_size;
    let mut body = copy_range(header_buf, 0, header.header_size);
    let kv = slice_prefix(kv_buf, k + v);
    append_bytes(&mut body, kv);
    let crc = crc32(body.as_slice());
    let stored = (kv_buf[k + v] as u32) | ((kv_buf[k + v + 1] as u32) << 8) | ((kv_buf[k + v
        + 2] as u32) << 16) | ((kv_buf[k + v + 3] as u32) << 24);
    assert(stored == le32_value(kv_buf@.subrange(k + v, k + v + 4)));
    if crc != stored {
        return Err(Errors::InvalidLogRecordCrc);
    }
    let rec_type = match LogRecordType::from_u8(header.rec_type) {
        Some(t) => t,
        None => return Err(Errors::DataDirCorrupted),
    };
    let key = copy_range(kv_buf, 0, k);
    let value = copy_range(kv_buf, k, k + v);
    Ok(ReadLogRecord {
        record: LogRecord { key, value, rec_type },
        size: header.header_size + k + v + 4,
    })
}

/// `s[..to]`.
fn slice_prefix(s: &[u8], to: usize) -> (r: &[u8])
    requires
        to <= s@.len(),
    ensures
        r@ == s@.subrange(0, to as int),
{
    vstd::slice::slice_subrange(s, 0, to)
}

} // verus!
