use vstd::prelude::*;
use crate::errors::Errors;
use crate::log_record::extend_bytes;

verus! {

/// What a positional read of `len` bytes at `offset` yields from a medium
/// holding `view`: bytes within the medium as they are, positions beyond its
/// end as zero — the effect of a partial read into a zeroed buffer.
pub open spec fn spec_read_at(view: Seq<u8>, offset: nat, len: nat) -> Seq<u8> {
    Seq::new(
        len as nat,
        |i: int|
            if offset + i < view.len() {
                view[offset as int + i]
            } else {
                0u8
            },
    )
}

/// A storage medium under a segment file: positional reads, appends at the
/// end, durability, and a size query. The standard file medium supports all
/// four; the read-only memory-mapped medium supports reads alone and exists
/// only to speed up the startup scan.
pub trait IOManager: Sized {
    /// The bytes the medium holds, in order.
    spec fn contents(&self) -> Seq<u8>;

    /// Whether a read of `len` bytes at `offset` is certain to succeed.
    spec fn read_succeeds(&self, offset: nat, len: nat) -> bool;

    /// Whether the medium supports appends, durability, and size queries.
    spec fn supports_write(&self) -> bool;

    /// Whether the medium's write side is infallible: every append succeeds
    /// and writes its whole buffer, and syncs and size queries succeed. True
    /// of the in-memory medium; a medium over fallible storage says false.
    spec fn write_succeeds(&self) -> bool;

    /// Reads `len` bytes at `offset`; positions past the end read as zero.
    fn read(&self, offset: u64, len: usize) -> (r: Result<Vec<u8>, Errors>)
        ensures
            match r {
                Ok(v) => v@ == spec_read_at(self.contents(), offset as nat, len as nat),
                Err(e) => e == Errors::ReadFailed || e == Errors::EndOfFile,
            },
            self.read_succeeds(offset as nat, len as nat) ==> r is Ok,
    ;

    /// Appends a prefix of `buf` (all of it, if nothing fails) at the end of
    /// the medium and reports how many bytes went in.
    fn write(&mut self, buf: &Vec<u8>) -> (r: Result<usize, Errors>)
        ensures
            match r {
                Ok(n) => n <= buf@.len() && final (self).contents() == old(self).contents()
                    + buf@.take(n as int) && old(self).supports_write(),
                Err(e) => final (self).contents() == old(self).contents() && (e
                    == Errors::WriteFailed || e == Errors::UnsupportedOperation),
            },
            !old(self).supports_write() ==> r == Err::<usize, Errors>(
                Errors::UnsupportedOperation,
            ),
            old(self).write_succeeds() ==> r == Ok::<usize, Errors>(buf@.len() as usize),
            final (self).supports_write() == old(self).supports_write(),
            final (self).write_succeeds() == old(self).write_succeeds(),
            forall|o: nat, l: nat|
                old(self).read_succeeds(o, l) ==> #[trigger] final (self).read_succeeds(o, l),
    ;

    /// Forces what was appended down to the underlying device.
    fn sync(&self) -> (r: Result<(), Errors>)
        ensures
            match r {
                Ok(_) => self.supports_write(),
                Err(e) => e == Errors::SyncFailed || e == Errors::UnsupportedOperation,
            },
            !self.supports_write() ==> r == Err::<(), Errors>(Errors::UnsupportedOperation),
            self.write_succeeds() ==> r == Ok::<(), Errors>(()),
    ;

    /// How many bytes the medium holds.
    fn size(&self) -> (r: Result<u64, Errors>)
        ensures
            match r {
                Ok(n) => n as nat == self.contents().len() && self.supports_write(),
                Err(e) => e == Errors::ReadFailed || e == Errors::UnsupportedOperation,
            },
            !self.supports_write() ==> r == Err::<u64, Errors>(Errors::UnsupportedOperation),
            self.write_succeeds() ==> r is Ok,
    ;
}

/// An in-memory medium: a growable byte buffer implementing the full
/// `IOManager` contract. It is the reference model of the medium contract
/// and the writable medium available to callers that stay in memory.
pub struct MemIO {
    data: Vec<u8>,
}

impl MemIO {
    /// An empty in-memory medium.
    pub fn new() -> (r: Self)
        ensures
            r.contents() == Seq::<u8>::empty(),
            r.supports_write(),
            r.write_succeeds(),
            forall|offset: nat, len: nat| r.read_succeeds(offset, len),
    {
        MemIO { data: Vec::new() }
    }

    /// An in-memory medium preloaded with `data`.
    pub fn from_bytes(data: Vec<u8>) -> (r: Self)
        ensures
            r.contents() == data@,
            r.supports_write(),
            r.write_succeeds(),
            forall|offset: nat, len: nat| r.read_succeeds(offset, len),
    {
        MemIO { data }
    }
}

impl IOManager for MemIO {
    closed spec fn contents(&self) -> Seq<u8> {
        self.data@
    }

    closed spec fn read_succeeds(&self, offset: nat, len: nat) -> bool {
        true
    }

    closed spec fn write_succeeds(&self) -> bool {
        true
    }

    closed spec fn supports_write(&self) -> bool {
        true
    }

    fn read(&self, offset: u64, len: usize) -> (r: Result<Vec<u8>, Errors>) {
        let dlen = self.data.len();
        let mut out: Vec<u8> = Vec::with_capacity(len);
        let mut i: usize = 0;
        while i < len
            invariant
                i <= len,
                out@.len() == i,
                dlen == self.data@.len(),
                forall|j: int|
                    0 <= j < i ==> out@[j] == (if offset + j < self.data@.len() {
                        self.data@[offset as int + j]
                    } else {
                        0u8
                    }),
            decreases len - i,
        {
            if offset < dlen as u64 {
                let off = offset as usize;
                if i < dlen - off {
                    out.push(self.data[off + i]);
                } else {
                    out.push(0);
                }
            } else {
                out.push(0);
            }
            i = i + 1;
        }
        proof {
            assert(out@ =~= spec_read_at(self.contents(), offset as nat, len as nat));
        }
        Ok(out)
    }

    fn write(&mut self, buf: &Vec<u8>) -> (r: Result<usize, Errors>) {
        extend_bytes(&mut self.data, buf);
        proof {
            assert(buf@.take(buf@.len() as int) =~= buf@);
        }
        Ok(buf.len())
    }

    fn sync(&self) -> (r: Result<(), Errors>) {
        Ok(())
    }

    fn size(&self) -> (r: Result<u64, Errors>) {
        Ok(self.data.len() as u64)
    }
}

#[verifier::external_type_specification]
#[verifier::external_body]
pub struct ExMmap(memmap2::Mmap);

/// The bytes a read-only memory map holds. A fixed function of the map
/// value: the mapping is created over a file that the startup-scan
/// discipline keeps unmodified for the map's whole lifetime.
pub uninterp spec fn mmap_contents(m: memmap2::Mmap) -> Seq<u8>;

/// Relies on `memmap2::Mmap`'s slice view (`Deref<Target = [u8]>`): `len`
/// reports the length of the mapped region.
#[verifier::external_body]
fn mmap_len(m: &memmap2::Mmap) -> (r: usize)
    ensures
        r == mmap_contents(*m).len(),
{
    m.len()
}

/// Relies on `memmap2::Mmap`'s slice view (`Deref<Target = [u8]>`): copies
/// the mapped bytes in `offset..offset + len`.
#[verifier::external_body]
fn mmap_copy(m: &memmap2::Mmap, offset: usize, len: usize) -> (r: Vec<u8>)
    requires
        offset + len <= mmap_contents(*m).len(),
    ensures
        r@ == mmap_contents(*m).subrange(offset as int, offset as int + len as int),
{
    m[offset..offset + len].to_vec()
}

/// The memory-mapped medium: the whole file is mapped read-only at open
/// time. Reads are bounds-checked against the mapped length and fail with
/// `EndOfFile` past it; appends, durability, and size queries are
/// unsupported. Strictly for fast bulk loading at startup — never the
/// active, writable segment.
pub struct MMapIO {
    map: memmap2::Mmap,
}

impl MMapIO {
    /// Wraps an already-created read-only memory map. Opening the file and
    /// mapping it happen outside this library; this medium only reads.
    pub fn new(map: memmap2::Mmap) -> (r: Self)
        ensures
            r.contents() == mmap_contents(map),
            !r.supports_write(),
            !r.write_succeeds(),
            forall|offset: nat, len: nat|
                #[trigger] r.read_succeeds(offset, len) <==> offset + len <= r.contents().len()
                    && offset + len <= usize::MAX,
    {
        MMapIO { map }
    }
}

impl IOManager for MMapIO {
    closed spec fn contents(&self) -> Seq<u8> {
        mmap_contents(self.map)
    }

    closed spec fn read_succeeds(&self, offset: nat, len: nat) -> bool {
        offset + len <= self.contents().len() && offset + len <= usize::MAX
    }

    closed spec fn supports_write(&self) -> bool {
        false
    }

    closed spec fn write_succeeds(&self) -> bool {
        false
    }

    fn read(&self, offset: u64, len: usize) -> (r: Result<Vec<u8>, Errors>)
        ensures
            !self.read_succeeds(offset as nat, len as nat) ==> r == Err::<Vec<u8>, Errors>(
                Errors::EndOfFile,
            ),
    {
        let mlen = mmap_len(&self.map);
        if offset > u64::MAX - len as u64 {
            return Err(Errors::EndOfFile);
        }
        let end = offset + len as u64;
        if end > mlen as u64 {
            return Err(Errors::EndOfFile);
        }
        let v = mmap_copy(&self.map, offset as usize, len);
        proof {
            assert(v@ =~= spec_read_at(self.contents(), offset as nat, len as nat));
        }
        Ok(v)
    }

    fn write(&mut self, buf: &Vec<u8>) -> (r: Result<usize, Errors>) {
        Err(Errors::UnsupportedOperation)
    }

    fn sync(&self) -> (r: Result<(), Errors>) {
        Err(Errors::UnsupportedOperation)
    }

    fn size(&self) -> (r: Result<u64, Errors>) {
        Err(Errors::UnsupportedOperation)
    }
}

} // verus!
