use vstd::prelude::*;
use vstd::arithmetic::div_mod::lemma_fundamental_div_mod;
use vstd::arithmetic::div_mod::lemma_div_denominator;
use vstd::arithmetic::div_mod::lemma_multiply_divide_lt;
use crate::errors::Errors;
use crate::varint::spec_varint;
use crate::varint::spec_decode_varint;
use crate::varint::encode_varint;
use crate::varint::decode_varint_at;
use crate::varint::varint_len;
use crate::varint::lemma_varint_len_u32;
use crate::varint::lemma_varint_len_u64;
use crate::varint::lemma_varint_round_trip;

verus! {

/// What a record means to the engine: a live key-value pair, a tombstone, or
/// a transaction-finished marker.
#[derive(Clone, Copy, Debug, PartialEq, Eq, Structural)]
#[allow(non_camel_case_types)]
pub enum LogRecordType {
    NORMAL,
    DELETED,
    TXNFINISHED,
}

/// The byte that stands for `t` on disk.
pub open spec fn spec_type_byte(t: LogRecordType) -> u8 {
    match t {
        LogRecordType::NORMAL => 1,
        LogRecordType::DELETED => 2,
        LogRecordType::TXNFINISHED => 3,
    }
}

/// The record kind a byte stands for, if any.
pub open spec fn spec_type_from_byte(v: u8) -> Option<LogRecordType> {
    if v == 1 {
        Some(LogRecordType::NORMAL)
    } else if v == 2 {
        Some(LogRecordType::DELETED)
    } else if v == 3 {
        Some(LogRecordType::TXNFINISHED)
    } else {
        None
    }
}

impl LogRecordType {
    /// The on-disk byte for this kind.
    pub fn as_u8(&self) -> (r: u8)
        ensures
            r == spec_type_byte(*self),
    {
        match *self {
            LogRecordType::NORMAL => 1,
            LogRecordType::DELETED => 2,
            LogRecordType::TXNFINISHED => 3,
        }
    }

    /// Decodes a kind byte. Any byte outside the known set is a recoverable
    /// typed error, never an abort: a partially written tail can legitimately
    /// hold garbage.
    pub fn from_u8(v: u8) -> (r: Result<LogRecordType, Errors>)
        ensures
            match r {
                Ok(t) => spec_type_from_byte(v) == Some(t),
                Err(e) => spec_type_from_byte(v) is None && e == Errors::UnknownRecordKind,
            },
    {
        match v {
            1u8 => Ok(LogRecordType::NORMAL),
            2u8 => Ok(LogRecordType::DELETED),
            3u8 => Ok(LogRecordType::TXNFINISHED),
            _ => Err(Errors::UnknownRecordKind),
        }
    }
}

/// One key-value record, the unit of every append. Never persisted as a
/// structure, only as the byte encoding below.
#[derive(Debug)]
pub struct LogRecord {
    pub key: Vec<u8>,
    pub value: Vec<u8>,
    pub rec_type: LogRecordType,
}

/// The mathematical content of a `LogRecord`.
pub struct LogRecordView {
    pub key: Seq<u8>,
    pub value: Seq<u8>,
    pub rec_type: LogRecordType,
}

impl View for LogRecord {
    type V = LogRecordView;

    open spec fn view(&self) -> LogRecordView {
        LogRecordView { key: self.key@, value: self.value@, rec_type: self.rec_type }
    }
}

/// Where one record lives: which segment file, at which byte offset, and how
/// many bytes it spans. The only value the index stores.
#[derive(Clone, Copy, Debug, PartialEq, Eq, Structural)]
pub struct LogRecordPos {
    pub file_id: u32,
    pub offset: u64,
    pub size: u32,
}

/// A decoded record together with the total byte span it consumed, which a
/// scanning caller uses to advance to the next record.
#[derive(Debug)]
pub struct ReadLogRecord {
    pub record: LogRecord,
    pub size: usize,
}

/// A record buffered inside an uncommitted transaction, with its location.
pub struct TransactionRecord {
    pub record: LogRecord,
    pub pos: LogRecordPos,
}

/// The CRC-32 (IEEE) checksum of a byte sequence, as `crc32fast` computes it:
/// a pure function of the bytes alone.
pub uninterp spec fn crc32_of(data: Seq<u8>) -> u32;

/// Relies on `crc32fast::hash`: the CRC-32 (IEEE) of the bytes, a function of
/// the bytes alone, identical across processes and machines.
#[verifier::external_body]
pub(crate) fn crc32(data: &Vec<u8>) -> (r: u32)
    ensures
        r == crc32_of(data@),
{
    crc32fast::hash(data.as_slice())
}

/// The big-endian four-byte encoding of `x`, the form the CRC takes on disk.
pub open spec fn spec_u32_be_bytes(x: u32) -> Seq<u8> {
    seq![
        (x / 0x1000000) as u8,
        ((x / 0x10000) % 0x100) as u8,
        ((x / 0x100) % 0x100) as u8,
        (x % 0x100) as u8,
    ]
}

/// The value four big-endian bytes stand for.
pub open spec fn spec_u32_from_be(s: Seq<u8>) -> nat
    recommends
        s.len() == 4,
{
    (s[0] * 0x1000000 + s[1] * 0x10000 + s[2] * 0x100 + s[3]) as nat
}

/// Reading back the four big-endian bytes of `x` yields `x`.
pub proof fn lemma_u32_be_round_trip(x: u32)
    ensures
        spec_u32_from_be(spec_u32_be_bytes(x)) == x,
{
    lemma_fundamental_div_mod(x as int, 0x100);
    lemma_fundamental_div_mod(x as int / 0x100, 0x100);
    lemma_fundamental_div_mod(x as int / 0x10000, 0x100);
    lemma_div_denominator(x as int, 0x100, 0x100);
    lemma_div_denominator(x as int, 0x10000, 0x100);
    lemma_div_denominator(x as int, 0x100, 0x10000);
}

/// Appends the big-endian four-byte encoding of `x`.
pub(crate) fn u32_to_be_bytes(x: u32, buf: &mut Vec<u8>)
    ensures
        final (buf)@ == old(buf)@ + spec_u32_be_bytes(x),
{
    proof {
        lemma_multiply_divide_lt(x as int, 0x1000000, 0x100);
    }
    buf.push((x / 0x1000000) as u8);
    buf.push(((x / 0x10000) % 0x100) as u8);
    buf.push(((x / 0x100) % 0x100) as u8);
    buf.push((x % 0x100) as u8);
    proof {
        assert(final (buf)@ =~= old(buf)@ + spec_u32_be_bytes(x));
    }
}

/// Reads a big-endian `u32` from `buf` at `pos`.
pub(crate) fn u32_from_be_at(buf: &Vec<u8>, pos: usize) -> (r: u32)
    requires
        pos + 4 <= buf.len(),
    ensures
        r as nat == spec_u32_from_be(buf@.subrange(pos as int, pos as int + 4)),
{
    let b0 = buf[pos] as u32;
    let b1 = buf[pos + 1] as u32;
    let b2 = buf[pos + 2] as u32;
    let b3 = buf[pos + 3] as u32;
    b0 * 0x1000000 + b1 * 0x10000 + b2 * 0x100 + b3
}

/// The checksummed span of a record: everything but the trailing CRC.
pub open spec fn spec_record_body(r: LogRecordView) -> Seq<u8> {
    seq![spec_type_byte(r.rec_type)] + spec_varint(r.key.len()) + spec_varint(r.value.len())
        + r.key + r.value
}

/// The full on-disk encoding of a record:
/// `[kind][varint key_len][varint value_len][key][value][CRC-32, big endian]`.
pub open spec fn spec_record_encoding(r: LogRecordView) -> Seq<u8> {
    spec_record_body(r) + spec_u32_be_bytes(crc32_of(spec_record_body(r)))
}

/// Whether a record is small enough to encode: lengths fit 32 bits (the
/// format stores 32-bit lengths) and the whole encoding fits in memory.
pub open spec fn spec_record_encodable(r: LogRecordView) -> bool {
    &&& r.key.len() <= u32::MAX
    &&& r.value.len() <= u32::MAX
    &&& r.key.len() + r.value.len() + 15 <= usize::MAX
}

pub(crate) fn extend_bytes(dst: &mut Vec<u8>, src: &Vec<u8>)
    ensures
        final (dst)@ == old(dst)@ + src@,
{
    let ghost orig = dst@;
    let mut i: usize = 0;
    while i < src.len()
        invariant
            i <= src.len(),
            dst@ == orig + src@.take(i as int),
        decreases src.len() - i,
    {
        dst.push(src[i]);
        i = i + 1;
        proof {
            assert(dst@ =~= orig + src@.take(i as int));
        }
    }
    proof {
        assert(orig + src@.take(src@.len() as int) =~= orig + src@);
    }
}

impl LogRecord {
    fn encoded_length(&self) -> (r: usize)
        requires
            spec_record_encodable(self@),
        ensures
            r == spec_record_encoding(self@).len(),
    {
        proof {
            lemma_varint_len_u32(self.key@.len());
            lemma_varint_len_u32(self.value@.len());
        }
        1 + varint_len(self.key.len() as u64) + varint_len(self.value.len() as u64)
            + self.key.len() + self.value.len() + 4
    }

    fn encode_and_get_crc(&self) -> (r: (Vec<u8>, u32))
        requires
            spec_record_encodable(self@),
        ensures
            r.0@ == spec_record_encoding(self@),
            r.1 == crc32_of(spec_record_body(self@)),
    {
        let mut buf: Vec<u8> = Vec::with_capacity(self.encoded_length());
        buf.push(self.rec_type.as_u8());
        encode_varint(self.key.len() as u64, &mut buf);
        encode_varint(self.value.len() as u64, &mut buf);
        extend_bytes(&mut buf, &self.key);
        extend_bytes(&mut buf, &self.value);
        proof {
            assert(buf@ =~= spec_record_body(self@));
        }
        let crc = crc32(&buf);
        u32_to_be_bytes(crc, &mut buf);
        proof {
            assert(buf@ =~= spec_record_encoding(self@));
        }
        (buf, crc)
    }

    /// Encodes this record into its exact on-disk byte form.
    pub fn encode(&self) -> (r: Vec<u8>)
        requires
            spec_record_encodable(self@),
        ensures
            r@ == spec_record_encoding(self@),
    {
        let (enc_buf, _) = self.encode_and_get_crc();
        enc_buf
    }

    /// The CRC-32 of this record's checksummed span.
    pub fn get_crc(&self) -> (r: u32)
        requires
            spec_record_encodable(self@),
        ensures
            r == crc32_of(spec_record_body(self@)),
    {
        let (_, crc_value) = self.encode_and_get_crc();
        crc_value
    }
}

/// The compact triple encoding of a location descriptor: three consecutive
/// varints (`file_id`, `offset`, `size`). Used for hint-file values; carries
/// no checksum of its own.
pub open spec fn spec_pos_encoding(p: LogRecordPos) -> Seq<u8> {
    spec_varint(p.file_id as nat) + spec_varint(p.offset as nat) + spec_varint(p.size as nat)
}

impl LogRecordPos {
    /// Encodes this descriptor as its compact triple form.
    pub fn encode(&self) -> (r: Vec<u8>)
        ensures
            r@ == spec_pos_encoding(*self),
    {
        let mut buf: Vec<u8> = Vec::new();
        encode_varint(self.file_id as u64, &mut buf);
        encode_varint(self.offset, &mut buf);
        encode_varint(self.size as u64, &mut buf);
        proof {
            assert(buf@ =~= spec_pos_encoding(*self));
        }
        buf
    }
}

/// What decoding three leading varints as a descriptor yields: `None` when
/// any varint is malformed or a field is out of its range, the descriptor
/// otherwise. Trailing bytes beyond the three varints are ignored.
pub open spec fn spec_decode_pos(s: Seq<u8>) -> Option<LogRecordPos> {
    match spec_decode_varint(s, 10) {
        None => None,
        Some((fid, l1)) => match spec_decode_varint(s.skip(l1 as int), 10) {
            None => None,
            Some((off, l2)) => match spec_decode_varint(s.skip(l1 as int + l2 as int), 10) {
                None => None,
                Some((sz, _l3)) => if fid > u32::MAX || off > u64::MAX || sz > u32::MAX {
                    None
                } else {
                    Some(
                        LogRecordPos {
                            file_id: fid as u32,
                            offset: off as u64,
                            size: sz as u32,
                        },
                    )
                },
            },
        },
    }
}

/// Decodes a compact triple encoding, reporting malformed bytes instead of
/// requiring validity — the form a caller uses on bytes it did not write
/// itself (say, values read back from a persisted index).
pub fn try_decode_log_record_pos(pos: &Vec<u8>) -> (r: Option<LogRecordPos>)
    ensures
        r == spec_decode_pos(pos@),
{
    proof {
        assert(pos@.skip(0) =~= pos@);
    }
    let (v1, l1) = match decode_varint_at(pos, 0) {
        Some(vl) => vl,
        None => {
            return None;
        },
    };
    let (v2, l2) = match decode_varint_at(pos, l1) {
        Some(vl) => vl,
        None => {
            return None;
        },
    };
    let (v3, _l3) = match decode_varint_at(pos, l1 + l2) {
        Some(vl) => vl,
        None => {
            return None;
        },
    };
    if v1 > u32::MAX as u64 || v3 > u32::MAX as u64 {
        return None;
    }
    Some(LogRecordPos { file_id: v1 as u32, offset: v2, size: v3 as u32 })
}

/// A valid triple encoding decodes back to its descriptor, whatever bytes
/// trail it.
pub proof fn lemma_pos_encoding_decodes(p: LogRecordPos, rest: Seq<u8>)
    ensures
        spec_decode_pos(spec_pos_encoding(p) + rest) == Some(p),
{
    lemma_pos_decode_shape(p, rest);
}

/// Decodes a compact triple encoding back into a location descriptor.
/// Trailing bytes beyond the three varints are ignored. Decoding the bytes
/// that `LogRecordPos::encode` produced reproduces the descriptor exactly.
pub fn decode_log_record_pos(pos: Vec<u8>) -> (r: LogRecordPos)
    requires
        exists|p: LogRecordPos, rest: Seq<u8>| pos@ == spec_pos_encoding(p) + rest,
    ensures
        forall|p: LogRecordPos, rest: Seq<u8>| pos@ == spec_pos_encoding(p) + rest ==> r == p,
{
    let ghost (pw, restw) = choose|p: LogRecordPos, rest: Seq<u8>|
        pos@ == spec_pos_encoding(p) + rest;
    proof {
        lemma_pos_encoding_decodes(pw, restw);
    }
    match try_decode_log_record_pos(&pos) {
        Some(result) => {
            proof {
                assert forall|p: LogRecordPos, rest: Seq<u8>|
                    pos@ == spec_pos_encoding(p) + rest implies result == p by {
                    lemma_pos_encoding_decodes(p, rest);
                }
            }
            result
        },
        None => {
            proof {
                assert(false);
            }
            LogRecordPos { file_id: 0, offset: 0, size: 0 }
        },
    }
}

/// What the three leading varints of a triple encoding decode to.
proof fn lemma_pos_decode_shape(p: LogRecordPos, rest: Seq<u8>)
    ensures
        ({
            let s = spec_pos_encoding(p) + rest;
            let l1 = spec_varint(p.file_id as nat).len();
            let l2 = spec_varint(p.offset as nat).len();
            let l3 = spec_varint(p.size as nat).len();
            &&& spec_decode_varint(s, 10) == Some((p.file_id as nat, l1))
            &&& spec_decode_varint(s.skip(l1 as int), 10) == Some((p.offset as nat, l2))
            &&& spec_decode_varint(s.skip(l1 as int + l2 as int), 10) == Some((p.size as nat, l3))
        }),
{
    let s = spec_pos_encoding(p) + rest;
    let a = spec_varint(p.file_id as nat);
    let b = spec_varint(p.offset as nat);
    let c = spec_varint(p.size as nat);
    lemma_varint_len_u32(p.file_id as nat);
    lemma_varint_len_u64(p.offset as nat);
    lemma_varint_len_u32(p.size as nat);
    assert(s =~= a + (b + c + rest));
    lemma_varint_round_trip(p.file_id as nat, b + c + rest, 10);
    assert(s.skip(a.len() as int) =~= b + (c + rest));
    lemma_varint_round_trip(p.offset as nat, c + rest, 10);
    assert(s.skip(a.len() as int + b.len() as int) =~= c + rest);
    lemma_varint_round_trip(p.size as nat, rest, 10);
}

/// The largest possible record header: one kind byte plus two maximal
/// five-byte varint lengths. A segment bounds its first read with this when
/// a record's true length is not yet known.
pub const MAX_LOG_RECORD_HEADER_SIZE: usize = 11;

/// The maximum header size as a function, for callers that size buffers.
pub fn max_log_record_header_size() -> (r: usize)
    ensures
        r == MAX_LOG_RECORD_HEADER_SIZE,
{
    MAX_LOG_RECORD_HEADER_SIZE
}

/// A parsed record header: the kind, the two lengths, and how many header
/// bytes the varints actually consumed.
#[derive(Clone, Copy, Debug, PartialEq, Eq, Structural)]
pub struct ParsedHeader {
    pub rec_type: LogRecordType,
    pub key_size: u32,
    pub value_size: u32,
    pub header_size: usize,
}

/// Parsing the front of a header buffer. The checks run in a fixed order:
/// a malformed length varint is corruption; two zero lengths are the
/// end-of-file sentinel (checked before the kind byte, so an all-zero region
/// reads as `EndOfFile`); lengths beyond 32 bits are corruption; and only
/// then is the kind byte validated.
pub open spec fn spec_parse_header(s: Seq<u8>) -> Result<(LogRecordType, nat, nat, nat), Errors> {
    if s.len() == 0 {
        Err(Errors::CorruptRecord)
    } else {
        match spec_decode_varint(s.skip(1), 10) {
            None => Err(Errors::CorruptRecord),
            Some((ks, l1)) => match spec_decode_varint(s.skip(1 + l1 as int), 10) {
                None => Err(Errors::CorruptRecord),
                Some((vs, l2)) => {
                    if ks == 0 && vs == 0 {
                        Err(Errors::EndOfFile)
                    } else if ks > u32::MAX || vs > u32::MAX {
                        Err(Errors::CorruptRecord)
                    } else {
                        match spec_type_from_byte(s[0]) {
                            None => Err(Errors::UnknownRecordKind),
                            Some(t) => Ok((t, ks, vs, 1 + l1 + l2)),
                        }
                    }
                },
            },
        }
    }
}

/// Parses a record header read from a segment: the kind byte, then the two
/// length varints.
pub fn parse_record_header(header: &Vec<u8>) -> (r: Result<ParsedHeader, Errors>)
    ensures
        match r {
            Ok(h) => spec_parse_header(header@) == Ok::<_, Errors>(
                (h.rec_type, h.key_size as nat, h.value_size as nat, h.header_size as nat),
            ) && 3 <= h.header_size <= header@.len(),
            Err(e) => spec_parse_header(header@) == Err::<(LogRecordType, nat, nat, nat), _>(e),
        },
{
    let ghost s = header@;
    if header.len() == 0 {
        return Err(Errors::CorruptRecord);
    }
    let r1 = decode_varint_at(header, 1);
    let (ks64, l1) = match r1 {
        Some(vl) => vl,
        None => {
            return Err(Errors::CorruptRecord);
        },
    };
    let r2 = decode_varint_at(header, 1 + l1);
    let (vs64, l2) = match r2 {
        Some(vl) => vl,
        None => {
            return Err(Errors::CorruptRecord);
        },
    };
    if ks64 == 0 && vs64 == 0 {
        return Err(Errors::EndOfFile);
    }
    if ks64 > u32::MAX as u64 || vs64 > u32::MAX as u64 {
        return Err(Errors::CorruptRecord);
    }
    let rec_type = match LogRecordType::from_u8(header[0]) {
        Ok(t) => t,
        Err(e) => {
            return Err(e);
        },
    };
    Ok(
        ParsedHeader {
            rec_type,
            key_size: ks64 as u32,
            value_size: vs64 as u32,
            header_size: 1 + l1 + l2,
        },
    )
}

} // verus!
