//! A read-write cache of the first `size` bytes of a container.
//!
//! `BufStorageIO` wraps any [`FilesystemIo`] and keeps an in-memory copy
//! of the container's prefix: reads inside the buffered prefix never
//! touch the wrapped container, and every write goes through to it.  The
//! buffer is byte-exact with the container's first `min(size, len)`
//! bytes at all times, so the pair behaves exactly like the bare
//! container.

use vstd::prelude::*;
use vstd::math::{min, max};
use vstd::slice::{slice_subrange, slice_to_vec};
use crate::blob::{read_model, write_model};
use crate::filesystem::io::FilesystemIo;

verus! {

#[derive(Debug, Clone)]
/// Wrapper for raw storage containers that buffers reads and writes of
/// the first `size` bytes.
pub struct BufStorageIO<T> {
    io: T,
    buf: Vec<u8>,
    size: usize,
}

impl<T: FilesystemIo> BufStorageIO<T> {
    /// Wrap `io`, reading its current prefix into the buffer.
    pub fn new(mut io: T, size: usize) -> (r: Self)
        requires
            io.inv(),
        ensures
            r.inv(),
            r.bytes() == io.bytes(),
            r.buffer_size() == size,
    {
        let len = io.len();
        let buf = if len >= size as u64 {
            io.read(0, size)
        } else {
            io.read(0, len as usize)
        };
        let r = BufStorageIO { io, buf, size };
        proof {
            assert(r.buf@ =~= r.io.bytes().take(min(size as int, r.io.bytes().len() as int)));
        }
        r
    }

    /// The configured buffer capacity.
    pub closed spec fn buffer_size(&self) -> usize {
        self.size
    }
}

impl<T: FilesystemIo> FilesystemIo for BufStorageIO<T> {
    /// The wrapped container is well formed and the buffer holds exactly
    /// the container's first `min(size, len)` bytes.
    closed spec fn inv(&self) -> bool {
        &&& self.io.inv()
        &&& self.buf@.len() == min(self.size as int, self.io.bytes().len() as int)
        &&& self.buf@ == self.io.bytes().take(self.buf@.len() as int)
    }

    closed spec fn bytes(&self) -> Seq<u8> {
        self.io.bytes()
    }

    fn read(&mut self, offset: u64, length: usize) -> (r: Vec<u8>) {
        let n = self.buf.len();
        if offset < n as u64 {
            let offset_usize = offset as usize;
            match offset_usize.checked_add(length) {
                Some(end) if end <= n => {
                    // Served entirely from the buffer.
                    let r = slice_to_vec(slice_subrange(self.buf.as_slice(), offset_usize, end));
                    proof {
                        assert(r@ =~= read_model(self.io.bytes(), offset as int, length as int));
                    }
                    r
                },
                _ => {
                    // The buffered part, then the rest from the container.
                    let mut r = slice_to_vec(slice_subrange(self.buf.as_slice(), offset_usize, n));
                    let mut tail = self.io.read(n as u64, length - (n - offset_usize));
                    r.append(&mut tail);
                    proof {
                        assert(r@ =~= read_model(self.io.bytes(), offset as int, length as int));
                    }
                    r
                },
            }
        } else {
            // Entirely past the buffer: delegate.
            self.io.read(offset, length)
        }
    }

    fn write(&mut self, offset: u64, bytes: &[u8]) {
        if bytes.len() == 0 {
            return;
        }
        let ghost target = write_model(self.io.bytes(), offset as int, bytes@);
        let cur = self.io.len();
        let new_len: u64 = if cur >= offset + bytes.len() as u64 {
            cur
        } else {
            offset + bytes.len() as u64
        };
        let target_len: usize = if (self.size as u64) < new_len {
            self.size
        } else {
            new_len as usize
        };
        proof {
            assert(target.len() == new_len);
            assert(target_len == min(self.size as int, target.len() as int));
        }

        // Rebuild the buffered prefix of the post-write container: the
        // written range comes from `bytes`, everything else from the old
        // prefix (zero where the old container ended).
        let mut rebuilt: Vec<u8> = Vec::new();
        let mut j: usize = 0;
        while j < target_len
            invariant
                j <= target_len,
                target_len <= self.size,
                target_len as int <= target.len(),
                offset + bytes@.len() <= u64::MAX,
                bytes@.len() > 0,
                self.inv(),
                target == write_model(self.io.bytes(), offset as int, bytes@),
                rebuilt@ == target.subrange(0, j as int),
            decreases target_len - j,
        {
            let val: u8 = if offset <= j as u64 && (j as u64) < offset + bytes.len() as u64 {
                bytes[j - (offset as usize)]
            } else if j < self.buf.len() {
                self.buf[j]
            } else {
                0
            };
            rebuilt.push(val);
            j = j + 1;
            proof {
                assert(rebuilt@ =~= target.subrange(0, j as int));
            }
        }

        self.buf = rebuilt;
        self.io.write(offset, bytes);
        proof {
            assert(self.buf@ =~= self.io.bytes().take(self.buf@.len() as int));
        }
    }

    fn append(&mut self, bytes: &[u8]) {
        let n = self.buf.len();
        if n < self.size {
            let m = bytes.len();
            let k = self.size - n;
            if k > m {
                self.buf.extend_from_slice(bytes);
            } else {
                self.buf.extend_from_slice(slice_subrange(bytes, 0, k));
            }
        }
        self.io.append(bytes);
        proof {
            assert(self.buf@.len() == min(self.size as int, self.io.bytes().len() as int));
            assert(self.buf@ =~= self.io.bytes().take(self.buf@.len() as int));
        }
    }

    fn len(&mut self) -> (r: u64) {
        if self.size != 0 && self.buf.len() == 0 {
            return 0;
        }
        self.io.len()
    }

    fn is_empty(&mut self) -> (r: bool) {
        if self.size == 0 {
            self.io.is_empty()
        } else {
            self.buf.len() == 0
        }
    }
}

} // verus!
