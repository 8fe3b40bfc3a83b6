use vstd::prelude::*;
use vstd::arithmetic::div_mod::lemma_div_denominator;
use crate::errors::Errors;
use crate::fio::IOManager;
use crate::fio::spec_read_at;
use crate::log_record::LogRecord;
use crate::log_record::LogRecordView;
use crate::log_record::LogRecordPos;
use crate::log_record::LogRecordType;
use crate::log_record::ReadLogRecord;
use crate::log_record::ParsedHeader;
use crate::log_record::MAX_LOG_RECORD_HEADER_SIZE;
use crate::log_record::crc32;
use crate::log_record::crc32_of;
use crate::log_record::max_log_record_header_size;
use crate::log_record::parse_record_header;
use crate::log_record::spec_parse_header;
use crate::log_record::spec_pos_encoding;
use crate::log_record::spec_record_body;
use crate::log_record::spec_record_encodable;
use crate::log_record::spec_record_encoding;
use crate::log_record::spec_type_byte;
use crate::log_record::spec_type_from_byte;
use crate::log_record::spec_u32_be_bytes;
use crate::log_record::spec_u32_from_be;
use crate::log_record::u32_from_be_at;
use crate::log_record::lemma_u32_be_round_trip;
use crate::varint::spec_varint;
use crate::varint::lemma_varint_len_u32;
use crate::varint::lemma_varint_len_u64;
use crate::varint::lemma_varint_round_trip;

verus! {

/// Suffix of an ordinary data segment's file name.
pub const DATA_FILE_NAME_SUFFIX: &'static str = ".data";

/// Fixed name of the hint-index singleton file.
pub const HINT_FILE_NAME: &'static str = "hint-index";

/// Fixed name of the merge-completion marker singleton file.
pub const MERGE_FINISHED_FILE_NAME: &'static str = "merge-finished";

/// Fixed name of the persisted-sequence-number singleton file.
pub const SEQ_NO_FILE_NAME: &'static str = "seq-no";

/// `10^k`.
pub open spec fn pow10(k: nat) -> nat
    decreases k,
{
    if k == 0 {
        1
    } else {
        10 * pow10((k - 1) as nat)
    }
}

proof fn lemma_pow10_pos(k: nat)
    ensures
        pow10(k) >= 1,
    decreases k,
{
    if k > 0 {
        lemma_pow10_pos((k - 1) as nat);
    }
}

/// The `width` low decimal digits of `n`, most significant first, as ASCII.
pub open spec fn spec_decimal_digits(n: nat, width: nat) -> Seq<u8>
    decreases width,
{
    if width == 0 {
        Seq::empty()
    } else {
        spec_decimal_digits(n / 10, (width - 1) as nat) + seq![(48 + n % 10) as u8]
    }
}

proof fn lemma_decimal_digits_len(n: nat, width: nat)
    ensures
        spec_decimal_digits(n, width).len() == width,
    decreases width,
{
    if width > 0 {
        lemma_decimal_digits_len(n / 10, (width - 1) as nat);
    }
}

proof fn lemma_decimal_digits_index(n: nat, width: nat, i: int)
    requires
        0 <= i < width,
    ensures
        spec_decimal_digits(n, width).len() == width,
        spec_decimal_digits(n, width)[i] == (48 + (n / pow10((width - 1 - i) as nat)) % 10) as u8,
    decreases width,
{
    lemma_decimal_digits_len(n, width);
    lemma_decimal_digits_len(n / 10, (width - 1) as nat);
    if i == width - 1 {
        assert(pow10(0) == 1);
        assert(n / 1 == n);
    } else {
        lemma_decimal_digits_index(n / 10, (width - 1) as nat, i);
        let k = (width - 2 - i) as nat;
        lemma_pow10_pos(k);
        lemma_div_denominator(n as int, 10, pow10(k) as int);
        assert(pow10((k + 1) as nat) == 10 * pow10(k));
        assert((n / 10) / pow10(k) == n / pow10((k + 1) as nat));
    }
}

/// How many decimal digits the segment name carries: nine, zero-padded, or
/// ten for the ids that need them all.
pub open spec fn spec_name_width(file_id: u32) -> nat {
    if file_id >= 1000000000 {
        10
    } else {
        9
    }
}

/// The name of the data segment with the given id: the zero-padded decimal
/// id followed by `.data`, as ASCII bytes.
pub open spec fn spec_data_file_name(file_id: u32) -> Seq<u8> {
    spec_decimal_digits(file_id as nat, spec_name_width(file_id)) + seq![
        46u8,
        100u8,
        97u8,
        116u8,
        97u8,
    ]
}

/// Computes an ordinary segment's file name from its id: the zero-padded
/// decimal digits plus the `.data` suffix, returned as ASCII bytes.
pub fn get_data_file_name(file_id: u32) -> (r: Vec<u8>)
    ensures
        r@ == spec_data_file_name(file_id),
{
    let ghost n = file_id as nat;
    let width: usize = if file_id >= 1000000000 {
        10
    } else {
        9
    };
    proof {
        assert(pow10(0) == 1);
        assert(n / 1 == n);
    }
    let mut digits: Vec<u8> = Vec::new();
    let mut x: u32 = file_id;
    let mut i: usize = 0;
    while i < width
        invariant
            i <= width,
            width == spec_name_width(file_id),
            digits@.len() == i,
            x as nat == n / pow10(i as nat),
            forall|j: int| 0 <= j < i ==> digits@[j] == (48 + (n / pow10(j as nat)) % 10) as u8,
        decreases width - i,
    {
        proof {
            lemma_pow10_pos(i as nat);
            lemma_div_denominator(n as int, pow10(i as nat) as int, 10);
            assert(pow10((i + 1) as nat) == 10 * pow10(i as nat));
            assert((x as nat) / 10 == n / pow10((i + 1) as nat));
        }
        digits.push(48 + (x % 10) as u8);
        x = x / 10;
        i = i + 1;
    }
    let mut out: Vec<u8> = Vec::new();
    let mut j: usize = 0;
    while j < width
        invariant
            j <= width,
            width == spec_name_width(file_id),
            out@.len() == j,
            digits@.len() == width,
            forall|k: int|
                0 <= k < width ==> digits@[k] == (48 + (n / pow10(k as nat)) % 10) as u8,
            forall|k: int|
                0 <= k < j ==> out@[k] == (48 + (n / pow10((width - 1 - k) as nat)) % 10) as u8,
        decreases width - j,
    {
        out.push(digits[width - 1 - j]);
        j = j + 1;
    }
    proof {
        let w = spec_name_width(file_id);
        assert forall|k: int| 0 <= k < w implies out@[k] == spec_decimal_digits(n, w)[k] by {
            lemma_decimal_digits_index(n, w, k);
        }
        lemma_decimal_digits_len(n, w);
        assert(out@ =~= spec_decimal_digits(n, w));
    }
    out.push(46);
    out.push(100);
    out.push(97);
    out.push(116);
    out.push(97);
    proof {
        assert(out@ =~= spec_data_file_name(file_id));
    }
    out
}

/// What reading a record at `offset` from a medium holding `view` yields:
/// the decoded record and the total span it consumed, or the typed error.
/// The header is read zero-padded up to its maximum size, parsed, and the
/// body's CRC is recomputed over the very bytes read.
pub open spec fn spec_read_record(view: Seq<u8>, offset: nat) -> Result<
    (LogRecordView, nat),
    Errors,
> {
    let header = spec_read_at(view, offset, MAX_LOG_RECORD_HEADER_SIZE as nat);
    match spec_parse_header(header) {
        Err(e) => Err(e),
        Ok((t, ks, vs, hs)) => {
            if ks + vs + 15 > usize::MAX {
                Err(Errors::CorruptRecord)
            } else {
                let body = spec_read_at(view, offset + hs, ks + vs + 4);
                let stored = spec_u32_from_be(
                    body.subrange((ks + vs) as int, (ks + vs + 4) as int),
                );
                if stored != crc32_of(header.take(hs as int) + body.take((ks + vs) as int)) as nat {
                    Err(Errors::CorruptRecord)
                } else {
                    Ok(
                        (
                            LogRecordView {
                                key: body.take(ks as int),
                                value: body.subrange(ks as int, (ks + vs) as int),
                                rec_type: t,
                            },
                            hs + ks + vs + 4,
                        ),
                    )
                }
            }
        },
    }
}

fn copy_range(src: &Vec<u8>, start: usize, end: usize) -> (r: Vec<u8>)
    requires
        start <= end <= src.len(),
    ensures
        r@ == src@.subrange(start as int, end as int),
{
    let mut out: Vec<u8> = Vec::new();
    let mut i: usize = start;
    while i < end
        invariant
            start <= i <= end <= src@.len(),
            out@ == src@.subrange(start as int, i as int),
        decreases end - i,
    {
        out.push(src[i]);
        i = i + 1;
        proof {
            assert(out@ =~= src@.subrange(start as int, i as int));
        }
    }
    out
}

/// One append-only segment file: an id fixed at construction, the offset at
/// which the next append lands, and the storage medium that holds the bytes.
pub struct DataFile<M: IOManager> {
    file_id: u32,
    write_off: u64,
    io_manager: M,
}

impl<M: IOManager> DataFile<M> {
    /// The segment's id.
    pub closed spec fn spec_file_id(&self) -> u32 {
        self.file_id
    }

    /// The next-write offset: the bytes appended through this segment.
    pub closed spec fn spec_write_off(&self) -> u64 {
        self.write_off
    }

    /// The bytes the bound medium holds.
    pub closed spec fn contents(&self) -> Seq<u8> {
        self.io_manager.contents()
    }

    /// Whether the bound medium accepts appends, syncs and size queries.
    pub closed spec fn medium_supports_write(&self) -> bool {
        self.io_manager.supports_write()
    }

    /// Whether a read of `len` bytes at `offset` from the bound medium is
    /// certain to succeed.
    pub closed spec fn medium_read_succeeds(&self, offset: nat, len: nat) -> bool {
        self.io_manager.read_succeeds(offset, len)
    }

    /// Whether the bound medium's write side is infallible: appends succeed
    /// whole, syncs and size queries succeed.
    pub closed spec fn medium_write_succeeds(&self) -> bool {
        self.io_manager.write_succeeds()
    }

    /// Opens a data segment with the given id over an already-opened medium.
    /// The write offset starts at zero; a caller resuming an existing file
    /// positions it with `set_write_off`.
    pub fn new(file_id: u32, io_manager: M) -> (r: Self)
        ensures
            r.spec_file_id() == file_id,
            r.spec_write_off() == 0,
            r.contents() == io_manager.contents(),
            r.medium_supports_write() == io_manager.supports_write(),
            r.medium_write_succeeds() == io_manager.write_succeeds(),
            forall|o: nat, l: nat|
                #[trigger] r.medium_read_succeeds(o, l) <==> io_manager.read_succeeds(o, l),
    {
        DataFile { file_id, write_off: 0, io_manager }
    }

    /// The hint-index singleton file (named `hint-index`); its id is the
    /// fixed, unused zero.
    pub fn new_hint_file(io_manager: M) -> (r: Self)
        ensures
            r.spec_file_id() == 0,
            r.spec_write_off() == 0,
            r.contents() == io_manager.contents(),
            r.medium_supports_write() == io_manager.supports_write(),
            r.medium_write_succeeds() == io_manager.write_succeeds(),
            forall|o: nat, l: nat|
                #[trigger] r.medium_read_succeeds(o, l) <==> io_manager.read_succeeds(o, l),
    {
        DataFile { file_id: 0, write_off: 0, io_manager }
    }

    /// The merge-completion marker singleton file (named `merge-finished`).
    pub fn new_merge_fin_file(io_manager: M) -> (r: Self)
        ensures
            r.spec_file_id() == 0,
            r.spec_write_off() == 0,
            r.contents() == io_manager.contents(),
            r.medium_supports_write() == io_manager.supports_write(),
            r.medium_write_succeeds() == io_manager.write_succeeds(),
            forall|o: nat, l: nat|
                #[trigger] r.medium_read_succeeds(o, l) <==> io_manager.read_succeeds(o, l),
    {
        DataFile { file_id: 0, write_off: 0, io_manager }
    }

    /// The sequence-number singleton file (named `seq-no`).
    pub fn new_seq_no_file(io_manager: M) -> (r: Self)
        ensures
            r.spec_file_id() == 0,
            r.spec_write_off() == 0,
            r.contents() == io_manager.contents(),
            r.medium_supports_write() == io_manager.supports_write(),
            r.medium_write_succeeds() == io_manager.write_succeeds(),
            forall|o: nat, l: nat|
                #[trigger] r.medium_read_succeeds(o, l) <==> io_manager.read_succeeds(o, l),
    {
        DataFile { file_id: 0, write_off: 0, io_manager }
    }

    /// How many bytes the underlying medium holds.
    pub fn file_size(&self) -> (r: Result<u64, Errors>)
        ensures
            match r {
                Ok(n) => n as nat == self.contents().len() && self.medium_supports_write(),
                Err(e) => e == Errors::ReadFailed || e == Errors::UnsupportedOperation,
            },
            !self.medium_supports_write() ==> r == Err::<u64, Errors>(
                Errors::UnsupportedOperation,
            ),
            self.medium_write_succeeds() ==> r is Ok,
    {
        self.io_manager.size()
    }

    /// Reads the current write offset. Infallible: it returns the stored
    /// value.
    pub fn get_write_off(&self) -> (r: u64)
        ensures
            r == self.spec_write_off(),
    {
        self.write_off
    }

    /// Repositions the write offset, as the startup scan does after finding
    /// the tail of valid data.
    pub fn set_write_off(&mut self, offset: u64)
        ensures
            final (self).spec_write_off() == offset,
            final (self).spec_file_id() == old(self).spec_file_id(),
            final (self).contents() == old(self).contents(),
            final (self).medium_supports_write() == old(self).medium_supports_write(),
            final (self).medium_write_succeeds() == old(self).medium_write_succeeds(),
            forall|o: nat, l: nat|
                #[trigger] final (self).medium_read_succeeds(o, l) <==> old(
                    self,
                ).medium_read_succeeds(o, l),
    {
        self.write_off = offset;
    }

    /// The segment's id.
    pub fn get_file_id(&self) -> (r: u32)
        ensures
            r == self.spec_file_id(),
    {
        self.file_id
    }

    /// Appends `buf` to the medium and advances the write offset by exactly
    /// the number of bytes the medium reported written — one atomic unit
    /// with respect to this segment, which the exclusive borrow enforces.
    pub fn write(&mut self, buf: &Vec<u8>) -> (r: Result<usize, Errors>)
        requires
            old(self).spec_write_off() + buf@.len() <= u64::MAX,
        ensures
            final (self).spec_file_id() == old(self).spec_file_id(),
            final (self).medium_supports_write() == old(self).medium_supports_write(),
            match r {
                Ok(n) => n <= buf@.len() && final (self).spec_write_off() == old(self).spec_write_off() + n
                    && final (self).contents() == old(self).contents() + buf@.take(n as int),
                Err(e) => final (self).spec_write_off() == old(self).spec_write_off()
                    && final (self).contents() == old(self).contents()
                    && (e == Errors::WriteFailed || e == Errors::UnsupportedOperation),
            },
            !old(self).medium_supports_write() ==> r == Err::<usize, Errors>(
                Errors::UnsupportedOperation,
            ),
            old(self).medium_write_succeeds() ==> r == Ok::<usize, Errors>(buf@.len() as usize),
            final (self).medium_write_succeeds() == old(self).medium_write_succeeds(),
            forall|o: nat, l: nat|
                old(self).medium_read_succeeds(o, l)
                    ==> #[trigger] final (self).medium_read_succeeds(o, l),
    {
        let n_bytes = match self.io_manager.write(buf) {
            Ok(n) => n,
            Err(e) => {
                return Err(e);
            },
        };
        self.write_off = self.write_off + n_bytes as u64;
        Ok(n_bytes)
    }

    /// Forces appended bytes down to the underlying device.
    pub fn sync(&self) -> (r: Result<(), Errors>)
        ensures
            match r {
                Ok(_) => self.medium_supports_write(),
                Err(e) => e == Errors::SyncFailed || e == Errors::UnsupportedOperation,
            },
            !self.medium_supports_write() ==> r == Err::<(), Errors>(Errors::UnsupportedOperation),
            self.medium_write_succeeds() ==> r == Ok::<(), Errors>(()),
    {
        self.io_manager.sync()
    }

    /// Rebinds the segment to another medium, preserving id and offset: the
    /// explicit startup transition from a memory-mapped medium to a standard
    /// one. The exclusive borrow guarantees no read or write is in flight.
    pub fn set_io_manager(&mut self, io_manager: M)
        ensures
            final (self).spec_file_id() == old(self).spec_file_id(),
            final (self).spec_write_off() == old(self).spec_write_off(),
            final (self).contents() == io_manager.contents(),
            final (self).medium_supports_write() == io_manager.supports_write(),
            final (self).medium_write_succeeds() == io_manager.write_succeeds(),
            forall|o: nat, l: nat|
                #[trigger] final (self).medium_read_succeeds(o, l) <==> io_manager.read_succeeds(
                    o,
                    l,
                ),
    {
        self.io_manager = io_manager;
    }

    /// Reads and decodes one record at `offset`: up to the maximum header
    /// size first, then exactly the body the parsed lengths call for, and
    /// verifies the CRC over the bytes actually read. A success is exactly
    /// what `spec_read_record` says of the medium's bytes; an error is
    /// either the one `spec_read_record` gives or a read failure of the
    /// medium itself.
    pub fn read_log_record(&self, offset: u64) -> (r: Result<ReadLogRecord, Errors>)
        requires
            offset <= u64::MAX - MAX_LOG_RECORD_HEADER_SIZE,
        ensures
            match r {
                Ok(rr) => spec_read_record(self.contents(), offset as nat) == Ok::<_, Errors>(
                    (rr.record@, rr.size as nat),
                ) && spec_record_encodable(rr.record@),
                Err(e) => spec_read_record(self.contents(), offset as nat) == Err::<
                    (LogRecordView, nat),
                    Errors,
                >(e) || e == Errors::ReadFailed || e == Errors::EndOfFile,
            },
            (forall|o: nat, l: nat| #[trigger] self.medium_read_succeeds(o, l)) ==> match r {
                Ok(_) => true,
                Err(e) => spec_read_record(self.contents(), offset as nat) == Err::<
                    (LogRecordView, nat),
                    Errors,
                >(e),
            },
    {
        let ghost all_reads = forall|o: nat, l: nat| #[trigger] self.medium_read_succeeds(o, l);
        let header_buf = match self.io_manager.read(offset, max_log_record_header_size()) {
            Ok(v) => v,
            Err(e) => {
                proof {
                    if all_reads {
                        assert(self.medium_read_succeeds(offset as nat, 11));
                    }
                }
                return Err(e);
            },
        };
        let h = match parse_record_header(&header_buf) {
            Ok(h) => h,
            Err(e) => {
                return Err(e);
            },
        };
        let kv64: u64 = h.key_size as u64 + h.value_size as u64;
        if kv64 > (usize::MAX - 15) as u64 {
            return Err(Errors::CorruptRecord);
        }
        let body_len: usize = (kv64 + 4) as usize;
        let body_buf = match self.io_manager.read(offset + h.header_size as u64, body_len) {
            Ok(v) => v,
            Err(e) => {
                proof {
                    if all_reads {
                        assert(self.medium_read_succeeds(
                            offset as nat + h.header_size as nat,
                            body_len as nat,
                        ));
                    }
                }
                return Err(e);
            },
        };
        let kv_len: usize = h.key_size as usize + h.value_size as usize;
        let mut span: Vec<u8> = copy_range(&header_buf, 0, h.header_size);
        let body_prefix = copy_range(&body_buf, 0, kv_len);
        crate::log_record::extend_bytes(&mut span, &body_prefix);
        let computed = crc32(&span);
        let stored = u32_from_be_at(&body_buf, kv_len);
        let ghost header = spec_read_at(self.contents(), offset as nat, 11);
        let ghost body = spec_read_at(
            self.contents(),
            offset as nat + h.header_size as nat,
            h.key_size as nat + h.value_size as nat + 4,
        );
        proof {
            assert(span@ =~= header.take(h.header_size as int) + body.take(
                (h.key_size + h.value_size) as int,
            ));
            assert(body.subrange(kv_len as int, kv_len as int + 4) =~= body_buf@.subrange(
                kv_len as int,
                kv_len as int + 4,
            ));
        }
        if stored != computed {
            return Err(Errors::CorruptRecord);
        }
        let key = copy_range(&body_buf, 0, h.key_size as usize);
        let value = copy_range(&body_buf, h.key_size as usize, kv_len);
        let size: usize = h.header_size + body_len;
        let record = LogRecord { key, value, rec_type: h.rec_type };
        proof {
            assert(record@.key =~= body.take(h.key_size as int));
            assert(record@.value =~= body.subrange(
                h.key_size as int,
                (h.key_size + h.value_size) as int,
            ));
        }
        Ok(ReadLogRecord { record, size })
    }

    /// Encodes a hint record — `kind = Normal`, the user key, and the
    /// descriptor's compact triple encoding as the value — and appends it.
    /// Used exclusively to populate the hint file for fast index rebuilds.
    pub fn write_hint_record(&mut self, key: Vec<u8>, pos: LogRecordPos) -> (r: Result<(), Errors>)
        requires
            key@.len() <= u32::MAX,
            key@.len() + 35 <= usize::MAX,
            old(self).spec_write_off() + spec_record_encoding(spec_hint_record(key@, pos)).len()
                <= u64::MAX,
        ensures
            final (self).spec_file_id() == old(self).spec_file_id(),
            final (self).medium_supports_write() == old(self).medium_supports_write(),
            final (self).medium_write_succeeds() == old(self).medium_write_succeeds(),
            forall|o: nat, l: nat|
                old(self).medium_read_succeeds(o, l)
                    ==> #[trigger] final (self).medium_read_succeeds(o, l),
            match r {
                Ok(_) => exists|n: nat|
                    n <= spec_record_encoding(spec_hint_record(key@, pos)).len()
                        && final (self).contents() == old(self).contents()
                        + spec_record_encoding(spec_hint_record(key@, pos)).take(n as int)
                        && final (self).spec_write_off() == old(self).spec_write_off() + n,
                Err(e) => final (self).spec_write_off() == old(self).spec_write_off()
                    && final (self).contents() == old(self).contents()
                    && (e == Errors::WriteFailed || e == Errors::UnsupportedOperation),
            },
            old(self).medium_write_succeeds() ==> r == Ok::<(), Errors>(())
                && final (self).contents() == old(self).contents()
                + spec_record_encoding(spec_hint_record(key@, pos))
                && final (self).spec_write_off() == old(self).spec_write_off()
                + spec_record_encoding(spec_hint_record(key@, pos)).len(),
    {
        proof {
            lemma_varint_len_u32(pos.file_id as nat);
            lemma_varint_len_u64(pos.offset as nat);
            lemma_varint_len_u32(pos.size as nat);
        }
        let hint_record = LogRecord {
            key,
            value: pos.encode(),
            rec_type: LogRecordType::NORMAL,
        };
        let enc_record = hint_record.encode();
        match self.write(&enc_record) {
            Ok(n) => {
                proof {
                    assert(final (self).contents() == old(self).contents() + spec_record_encoding(
                        spec_hint_record(hint_record.key@, pos),
                    ).take(n as int));
                    if old(self).medium_write_succeeds() {
                        assert(enc_record@.take(enc_record@.len() as int) =~= enc_record@);
                    }
                }
                Ok(())
            },
            Err(e) => Err(e),
        }
    }
}

/// The hint record written for `key` at `pos`: a normal record whose value
/// is the descriptor's compact triple encoding.
pub open spec fn spec_hint_record(key: Seq<u8>, pos: LogRecordPos) -> LogRecordView {
    LogRecordView {
        key,
        value: spec_pos_encoding(pos),
        rec_type: LogRecordType::NORMAL,
    }
}

/// Round trip: reading at the start of a freshly encoded record yields the
/// record back, with the span equal to the whole encoding. The one excluded
/// input is a record with empty key and empty value, whose header is the
/// reserved end-of-file sentinel.
#[verifier::rlimit(100)]
pub proof fn lemma_record_round_trip(r: LogRecordView)
    requires
        spec_record_encodable(r),
        !(r.key.len() == 0 && r.value.len() == 0),
    ensures
        spec_read_record(spec_record_encoding(r), 0) == Ok::<_, Errors>(
            (r, spec_record_encoding(r).len()),
        ),
{
    let body_spec = spec_record_body(r);
    let enc = spec_record_encoding(r);
    let a = spec_varint(r.key.len());
    let b = spec_varint(r.value.len());
    let la = a.len() as int;
    let lb = b.len() as int;
    let k = r.key.len() as int;
    let v = r.value.len() as int;
    lemma_varint_len_u32(r.key.len());
    lemma_varint_len_u32(r.value.len());
    let header = spec_read_at(enc, 0, 11);
    let hs = 1 + la + lb;
    assert(enc.len() == hs + k + v + 4);
    assert(header.skip(1) =~= a + header.skip(1 + la));
    lemma_varint_round_trip(r.key.len(), header.skip(1 + la), 10);
    assert(header.skip(1 + la) =~= b + header.skip(1 + la + lb));
    lemma_varint_round_trip(r.value.len(), header.skip(1 + la + lb), 10);
    assert(header[0] == spec_type_byte(r.rec_type));
    assert(spec_type_from_byte(spec_type_byte(r.rec_type)) == Some(r.rec_type)) by {
        match r.rec_type {
            LogRecordType::NORMAL => {},
            LogRecordType::DELETED => {},
            LogRecordType::TXNFINISHED => {},
        }
    }
    assert(spec_parse_header(header) == Ok::<_, Errors>(
        (r.rec_type, r.key.len(), r.value.len(), hs as nat),
    ));
    let body = spec_read_at(enc, hs as nat, (k + v + 4) as nat);
    assert(body =~= r.key + r.value + spec_u32_be_bytes(crc32_of(body_spec)));
    assert(body.take(k) =~= r.key);
    assert(body.subrange(k, k + v) =~= r.value);
    assert(body.subrange(k + v, k + v + 4) =~= spec_u32_be_bytes(crc32_of(body_spec)));
    assert(header.take(hs) + body.take(k + v) =~= body_spec);
    lemma_u32_be_round_trip(crc32_of(body_spec));
    assert(LogRecordView {
        key: body.take(k),
        value: body.subrange(k, k + v),
        rec_type: r.rec_type,
    } == r);
}

/// A region of zero bytes at a segment's logical end reads as the
/// `EndOfFile` sentinel — never as a record with empty key and value, and
/// never as corruption.
pub proof fn lemma_zero_region_reads_eof(view: Seq<u8>, offset: nat)
    requires
        forall|i: int|
            offset <= i < offset + MAX_LOG_RECORD_HEADER_SIZE && i < view.len() ==> view[i] == 0u8,
    ensures
        spec_read_record(view, offset) == Err::<(LogRecordView, nat), Errors>(Errors::EndOfFile),
{
    let header = spec_read_at(view, offset, 11);
    assert(forall|i: int| 0 <= i < 11 ==> header[i] == 0u8);
    assert(header.skip(1)[0] == 0u8);
    assert(header.skip(2)[0] == 0u8);
    assert(spec_parse_header(header) == Err::<(LogRecordType, nat, nat, nat), _>(
        Errors::EndOfFile,
    ));
}

/// The sum of a sequence of append sizes.
pub open spec fn spec_sum(ns: Seq<nat>) -> nat
    decreases ns.len(),
{
    if ns.len() == 0 {
        0
    } else {
        spec_sum(ns.drop_last()) + ns.last()
    }
}

/// The offset at which the `i`-th of a series of appends lands, when the
/// segment starts at `off0` and each append advances the offset by exactly
/// the bytes it wrote — which is what `write` ensures.
pub open spec fn spec_append_offset(off0: nat, ns: Seq<nat>, i: int) -> nat {
    off0 + spec_sum(ns.take(i))
}

/// Monotonic offsets: across a series of appends the write offset equals
/// the starting offset plus the sum of all bytes appended, and the byte
/// range each append covers ends before the next one begins — no two
/// appends ever overlap.
pub proof fn lemma_monotonic_offsets(off0: nat, ns: Seq<nat>, i: int, j: int)
    requires
        0 <= i < j <= ns.len(),
    ensures
        spec_append_offset(off0, ns, i) + ns[i] <= spec_append_offset(off0, ns, j),
        spec_append_offset(off0, ns, ns.len() as int) == off0 + spec_sum(ns),
    decreases j - i,
{
    assert(ns.take(ns.len() as int) =~= ns);
    if j == i + 1 {
        assert(ns.take(j).drop_last() =~= ns.take(i));
        assert(ns.take(j).last() == ns[i]);
        assert(spec_sum(ns.take(j)) == spec_sum(ns.take(i)) + ns[i]);
    } else {
        lemma_monotonic_offsets(off0, ns, i, j - 1);
        assert(ns.take(j).drop_last() =~= ns.take(j - 1));
        assert(ns.take(j).last() == ns[j - 1]);
        assert(spec_sum(ns.take(j)) == spec_sum(ns.take(j - 1)) + ns[j - 1]);
    }
}

} // verus!
