//! Byte-addressed access to a disk image that is read and written in
//! whole blocks: unaligned accesses read, patch and write back the blocks
//! they touch.
use vstd::prelude::*;

verus! {

/// Block size the adapter uses.
pub const DEFAULT_BLOCK_SIZE: usize = 512;

/// Why a disk access failed.
#[derive(PartialEq, Eq, Structural, Clone, Copy, Debug)]
pub enum DiskError {
    /// The access reaches past the end of the disk.
    OutOfRange,
}

/// `s` with the bytes from `offset` on replaced by `data`.
pub open spec fn splice(s: Seq<u8>, offset: int, data: Seq<u8>) -> Seq<u8> {
    s.subrange(0, offset) + data + s.subrange(offset + data.len(), s.len() as int)
}

/// Writing `data` at `offset` and then reading the same range gives `data`
/// back, and every byte outside the range keeps its value; the contents keep
/// their length.
pub proof fn lemma_write_then_read(contents: Seq<u8>, offset: int, data: Seq<u8>)
    requires
        0 <= offset,
        offset + data.len() <= contents.len(),
    ensures
        splice(contents, offset, data).len() == contents.len(),
        splice(contents, offset, data).subrange(offset, offset + data.len()) == data,
        forall|j: int|
            0 <= j < contents.len() && !(offset <= j < offset + data.len()) ==> #[trigger] splice(
                contents,
                offset,
                data,
            )[j] == contents[j],
{
    let w = splice(contents, offset, data);
    assert(w.subrange(offset, offset + data.len()) =~= data);
}

/// A disk held in memory.
pub struct MemDisk {
    pub data: Vec<u8>,
}

impl MemDisk {
    /// A zero-filled disk of `len` bytes.
    pub fn zeroed(len: usize) -> (r: MemDisk)
        ensures
            r.data@ == Seq::new(len as nat, |_i: int| 0u8),
    {
        let mut data: Vec<u8> = Vec::new();
        let mut i: usize = 0;
        while i < len
            invariant
                i <= len,
                data@ == Seq::new(i as nat, |_i: int| 0u8),
            decreases len - i,
        {
            data.push(0u8);
            i = i + 1;
            proof {
                assert(data@ =~= Seq::new(i as nat, |_i: int| 0u8));
            }
        }
        MemDisk { data }
    }
}

impl MemDisk {
    /// The bytes the disk holds.
    pub open spec fn contents(&self) -> Seq<u8> {
        self.data@
    }

    /// Number of bytes on the disk.
    pub fn byte_len(&self) -> (r: u64)
        requires
            self.data@.len() <= u64::MAX,
        ensures
            r == self.contents().len(),
    {
        self.data.len() as u64
    }

    /// Fills `buf` with the bytes at `offset`.
    pub fn read_at(&mut self, offset: u64, buf: &mut Vec<u8>) -> (r: Result<(), DiskError>)
        requires
            offset + old(buf)@.len() <= old(self).contents().len(),
        ensures
            final(self).contents() == old(self).contents(),
            final(buf)@.len() == old(buf)@.len(),
            r is Ok,
            final(buf)@ == old(self).contents().subrange(offset as int, offset + old(buf)@.len()),
    {
        let n = buf.len();
        let total = self.data.len();
        let start = offset as usize;
        let ghost b0 = buf@;
        copy_range(buf, 0, &self.data, start, n);
        proof {
            assert(b0.subrange(0, 0) + self.data@.subrange(offset as int, offset + n) + b0.subrange(
                n as int,
                n as int,
            ) =~= self.data@.subrange(offset as int, offset + n));
        }
        Ok(())
    }

    /// Writes `buf` at `offset`.
    pub fn write_at(&mut self, offset: u64, buf: &Vec<u8>) -> (r: Result<(), DiskError>)
        requires
            offset + buf@.len() <= old(self).contents().len(),
        ensures
            final(self).contents().len() == old(self).contents().len(),
            r is Ok,
            final(self).contents() == splice(old(self).contents(), offset as int, buf@),
    {
        let n = buf.len();
        let total = self.data.len();
        copy_range(&mut self.data, offset as usize, buf, 0, n);
        proof {
            assert(buf@.subrange(0, n as int) =~= buf@);
        }
        Ok(())
    }
}

/// Copies `n` bytes of `src` from `src_off` over the bytes of `dst` from
/// `dst_off`.
pub fn copy_range(dst: &mut Vec<u8>, dst_off: usize, src: &Vec<u8>, src_off: usize, n: usize)
    requires
        dst_off + n <= old(dst)@.len(),
        src_off + n <= src@.len(),
    ensures
        final(dst)@ == splice(old(dst)@, dst_off as int, src@.subrange(
            src_off as int,
            src_off + n,
        )),
{
    let dlen = dst.len();
    let slen = src.len();
    let mut k: usize = 0;
    while k < n
        invariant
            k <= n,
            dst@.len() == dlen,
            src@.len() == slen,
            dst_off + n <= dst@.len(),
            src_off + n <= src@.len(),
            dst@.len() == old(dst)@.len(),
            forall|j: int| dst_off <= j < dst_off + k ==> #[trigger] dst@[j] == src@[src_off + (j - dst_off)],
            forall|j: int|
                0 <= j < dst@.len() && !(dst_off <= j < dst_off + k) ==> dst@[j] == old(dst)@[j],
        decreases n - k,
    {
        dst.set(dst_off + k, src[src_off + k]);
        k = k + 1;
    }
    proof {
        let want = splice(old(dst)@, dst_off as int, src@.subrange(src_off as int, src_off + n));
        assert forall|j: int| 0 <= j < dst@.len() implies dst@[j] == want[j] by {

        }
        assert(dst@ =~= want);
    }
}

/// Where a seek is measured from.
#[derive(PartialEq, Eq, Structural, Clone, Copy, Debug)]
pub enum SeekPos {
    Start(u64),
    End(i64),
    Current(i64),
}

/// `x` held to the range `[0, hi]`.
pub open spec fn clamp(x: int, hi: int) -> int {
    if x < 0 {
        0
    } else if x > hi {
        hi
    } else {
        x
    }
}

/// Block-aligned access to a disk at any byte offset.
pub struct DiskWrapper {
    disk: MemDisk,
    size: u64,
    block: Vec<u8>,
    seek: u64,
}

impl DiskWrapper {
    /// The device's size is a whole number of blocks, fits a signed 64-bit
    /// offset, and the position lies on the device.
    pub closed spec fn wf(&self) -> bool {
        &&& self.block@.len() > 0
        &&& self.size == self.disk.contents().len()
        &&& self.size as int % (self.block@.len() as int) == 0
        &&& self.size <= i64::MAX
        &&& self.seek <= self.size
    }

    /// The bytes on the device.
    pub closed spec fn spec_contents(&self) -> Seq<u8> {
        self.disk.contents()
    }

    /// The current position.
    pub closed spec fn spec_position(&self) -> u64 {
        self.seek
    }

    /// A well-formed adapter's size is the length of its contents.
    pub proof fn lemma_size_is_len(&self)
        requires
            self.wf(),
        ensures
            self.spec_size() == self.spec_contents().len(),
    {
    }

    /// The device's size in bytes.
    pub closed spec fn spec_size(&self) -> nat {
        self.size as nat
    }

    pub closed spec fn spec_block_size(&self) -> nat {
        self.block@.len()
    }

    /// Wraps `disk`, positioned at its start, with 512-byte blocks.
    pub fn new(disk: MemDisk) -> (r: Self)
        requires
            disk.contents().len() as int % (DEFAULT_BLOCK_SIZE as int) == 0,
            disk.contents().len() <= i64::MAX,
        ensures
            r.wf(),
            r.spec_size() == r.spec_contents().len(),
            r.spec_contents() == disk.contents(),
            r.spec_position() == 0,
            r.spec_block_size() == DEFAULT_BLOCK_SIZE,
    {
        let size = disk.byte_len();
        let mut block: Vec<u8> = Vec::new();
        let mut i: usize = 0;
        while i < DEFAULT_BLOCK_SIZE
            invariant
                i <= DEFAULT_BLOCK_SIZE,
                block@.len() == i,
            decreases DEFAULT_BLOCK_SIZE - i,
        {
            block.push(0u8);
            i = i + 1;
        }
        DiskWrapper { disk, size, block, seek: 0 }
    }

    /// Gives the device back.
    pub fn into_inner(self) -> (r: MemDisk)
        ensures
            r.contents() == self.spec_contents(),
    {
        self.disk
    }

    pub fn block_size(&self) -> (r: usize)
        ensures
            r == self.spec_block_size(),
    {
        self.block.len()
    }

    pub fn size(&self) -> (r: u64)
        requires
            self.wf(),
        ensures
            r == self.spec_contents().len(),
    {
        self.size
    }

    pub fn position(&self) -> (r: u64)
        ensures
            r == self.spec_position(),
    {
        self.seek
    }

    /// Moves the position; the target is held to `[0, size]`.
    pub fn seek(&mut self, pos: SeekPos) -> (r: u64)
        requires
            old(self).wf(),
        ensures
            final(self).wf(),
            final(self).spec_size() == final(self).spec_contents().len(),
            final(self).spec_contents() == old(self).spec_contents(),
            final(self).spec_block_size() == old(self).spec_block_size(),
            r == final(self).spec_position(),
            r == match pos {
                SeekPos::Start(o) => clamp(o as int, old(self).spec_size() as int),
                SeekPos::End(o) => clamp(old(self).spec_size() + o, old(self).spec_size() as int),
                SeekPos::Current(o) => clamp(old(self).spec_position() + o, old(self).spec_size() as int),
            },
    {
        let target: i128 = match pos {
            SeekPos::Start(o) => o as i128,
            SeekPos::End(o) => self.size as i128 + o as i128,
            SeekPos::Current(o) => self.seek as i128 + o as i128,
        };
        let clamped: u64 = if target < 0 {
            0
        } else if target > self.size as i128 {
            self.size
        } else {
            target as u64
        };
        self.seek = clamped;
        clamped
    }

    /// Writes `buf` at the current position and advances past it. Bytes
    /// outside the written range are kept.
    pub fn write(&mut self, buf: &Vec<u8>) -> (r: Result<usize, DiskError>)
        requires
            old(self).wf(),
        ensures
            final(self).wf(),
            final(self).spec_size() == final(self).spec_contents().len(),
            final(self).spec_size() == old(self).spec_size(),
            final(self).spec_block_size() == old(self).spec_block_size(),
            old(self).spec_position() + buf@.len() > old(self).spec_size() ==> r == Err::<usize, DiskError>(
                DiskError::OutOfRange,
            ) && *final(self) == *old(self),
            old(self).spec_position() + buf@.len() <= old(self).spec_size() ==> r is Ok,
            r is Ok ==> r == Ok::<usize, DiskError>(buf@.len() as usize) && final(self).spec_contents()
                == splice(old(self).spec_contents(), old(self).spec_position() as int, buf@)
                && final(self).spec_position() == old(self).spec_position() + buf@.len(),
    {
        let n = buf.len();
        if n as u64 > self.size - self.seek {
            return Err(DiskError::OutOfRange);
        }
        let bl = self.block.len();
        let bl64 = bl as u64;
        if self.seek % bl64 == 0 && n % bl == 0 {
            self.disk.write_at(self.seek, buf)?;
            self.seek = self.seek + n as u64;
            return Ok(n);
        }
        let ghost start = self.seek;
        let ghost before = self.disk.contents();
        let mut i: usize = 0;
        while i < n
            invariant
                self.wf(),
                self.block@.len() == bl,
                bl == old(self).block@.len(),
                start == old(self).seek,
                self.size == old(self).size,
                bl == bl64,
                n == buf@.len(),
                start + n <= self.size,
                i <= n,
                self.seek == start + i,
                self.disk.contents() == splice(before, start as int, buf@.subrange(0, i as int)),
                before.len() == self.size,
            decreases n - i,
        {
            let block = self.seek / bl64;
            let offset = (self.seek % bl64) as usize;
            let remaining = n - i;
            let room = bl - offset;
            let len = if remaining < room {
                remaining
            } else {
                room
            };
            assert(block * bl64 <= self.seek) by (nonlinear_arith)
                requires
                    block == self.seek / bl64,
                    bl64 > 0,
            ;
            let base = block * bl64;
            proof {
                assert(base + bl64 <= self.size) by (nonlinear_arith)
                    requires
                        base == (self.seek / bl64) * bl64,
                        self.seek < self.size,
                        self.size as int % (bl64 as int) == 0,
                        bl64 > 0,
                ;
                assert(base + offset == self.seek) by (nonlinear_arith)
                    requires
                        base == (self.seek / bl64) * bl64,
                        offset == self.seek % bl64,
                        bl64 > 0,
                ;
            }
            let ghost mid = self.disk.contents();
            self.disk.read_at(base, &mut self.block)?;
            copy_range(&mut self.block, offset, buf, i, len);
            self.disk.write_at(base, &self.block)?;
            proof {
                let b = base as int;
                let patched = self.block@;
                assert(self.disk.contents() =~= splice(before, start as int, buf@.subrange(0, i + len)))
                    by {
                    let now = self.disk.contents();
                    let want = splice(before, start as int, buf@.subrange(0, i + len));
                    assert forall|j: int| 0 <= j < now.len() implies now[j] == want[j] by {
                        if b <= j < b + bl {
                            assert(now[j] == patched[j - b]);
                            if offset <= j - b < offset + len {
                                assert(patched[j - b] == buf@[i + (j - b - offset)]);
                            } else {
                                assert(patched[j - b] == mid[j]);
                            }
                        } else {
                            assert(now[j] == mid[j]);
                        }
                    }
                }
            }
            i = i + len;
            self.seek = self.seek + len as u64;
        }
        proof {
            assert(buf@.subrange(0, n as int) =~= buf@);
        }
        Ok(n)
    }

    /// Fills `buf` from the current position and advances past what was read.
    pub fn read(&mut self, buf: &mut Vec<u8>) -> (r: Result<usize, DiskError>)
        requires
            old(self).wf(),
        ensures
            final(self).wf(),
            final(self).spec_size() == final(self).spec_contents().len(),
            final(self).spec_size() == old(self).spec_size(),
            final(self).spec_block_size() == old(self).spec_block_size(),
            final(self).spec_contents() == old(self).spec_contents(),
            final(buf)@.len() == old(buf)@.len(),
            old(self).spec_position() + old(buf)@.len() > old(self).spec_size() ==> r == Err::<usize, DiskError>(
                DiskError::OutOfRange,
            ) && *final(self) == *old(self),
            old(self).spec_position() + old(buf)@.len() <= old(self).spec_size() ==> r is Ok,
            r is Ok ==> r == Ok::<usize, DiskError>(old(buf)@.len() as usize) && final(buf)@
                == old(self).spec_contents().subrange(
                old(self).spec_position() as int,
                old(self).spec_position() + old(buf)@.len(),
            ) && final(self).spec_position() == old(self).spec_position() + old(buf)@.len(),
    {
        let n = buf.len();
        if n as u64 > self.size - self.seek {
            return Err(DiskError::OutOfRange);
        }
        let bl = self.block.len();
        let bl64 = bl as u64;
        if self.seek % bl64 == 0 && n % bl == 0 {
            self.disk.read_at(self.seek, buf)?;
            self.seek = self.seek + n as u64;
            return Ok(n);
        }
        let ghost start = self.seek;
        let ghost data = self.disk.contents();
        let ghost buf0 = buf@;
        let mut i: usize = 0;
        while i < n
            invariant
                self.wf(),
                self.block@.len() == bl,
                bl == old(self).block@.len(),
                start == old(self).seek,
                self.size == old(self).size,
                bl == bl64,
                n == buf@.len(),
                start + n <= self.size,
                i <= n,
                self.seek == start + i,
                self.disk.contents() == data,
                data == old(self).disk.contents(),
                n == old(buf)@.len(),
                data.len() == self.size,
                forall|j: int| 0 <= j < i ==> buf@[j] == data[start + j],
            decreases n - i,
        {
            let block = self.seek / bl64;
            let offset = (self.seek % bl64) as usize;
            let remaining = n - i;
            let room = bl - offset;
            let len = if remaining < room {
                remaining
            } else {
                room
            };
            assert(block * bl64 <= self.seek) by (nonlinear_arith)
                requires
                    block == self.seek / bl64,
                    bl64 > 0,
            ;
            let base = block * bl64;
            proof {
                assert(base + bl64 <= self.size) by (nonlinear_arith)
                    requires
                        base == (self.seek / bl64) * bl64,
                        self.seek < self.size,
                        self.size as int % (bl64 as int) == 0,
                        bl64 > 0,
                ;
                assert(base + offset == self.seek) by (nonlinear_arith)
                    requires
                        base == (self.seek / bl64) * bl64,
                        offset == self.seek % bl64,
                        bl64 > 0,
                ;
            }
            let ghost prev = buf@;
            self.disk.read_at(base, &mut self.block)?;
            copy_range(buf, i, &self.block, offset, len);
            proof {
                assert forall|j: int| 0 <= j < i + len implies buf@[j] == data[start + j] by {
                    if j >= i {
                        assert(buf@[j] == self.block@[offset + (j - i)]);
                    } else {
                        assert(buf@[j] == prev[j]);
                    }
                }
            }
            i = i + len;
            self.seek = self.seek + len as u64;
        }
        proof {
            assert(buf@ =~= data.subrange(start as int, start + n));
        }
        Ok(n)
    }
}

} // verus!
