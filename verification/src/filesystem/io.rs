//! The byte-container interface the page store runs on.
//!
//! A container is an addressable byte sequence: reads past the end yield
//! zeros, writes past the end zero-fill the gap, appends extend it.  The
//! worker owns one container and is its only writer.  [`MemoryIo`] is the
//! crate's own container, a plain vector; callers may supply any other
//! implementation (a file, say) that honours the same contracts.

use vstd::prelude::*;
use crate::blob::{read_model, write_model};

verus! {

/// An addressable, growable byte container with zero-fill semantics.
///
/// `bytes` is the container's current content and `inv` the
/// implementation's own well-formedness; every operation preserves both
/// contracts below.
pub trait FilesystemIo: Sized {
    /// Implementation-specific well-formedness.
    spec fn inv(&self) -> bool;

    /// The bytes the container currently holds.
    spec fn bytes(&self) -> Seq<u8>;

    /// Read exactly `length` bytes at `offset`; anything past the end
    /// reads as zero.
    fn read(&mut self, offset: u64, length: usize) -> (r: Vec<u8>)
        requires
            old(self).inv(),
        ensures
            final(self).inv(),
            final(self).bytes() == old(self).bytes(),
            r@ == read_model(old(self).bytes(), offset as int, length as int),
    ;

    /// Write `bytes` at `offset`, zero-filling any gap before it.
    fn write(&mut self, offset: u64, bytes: &[u8])
        requires
            old(self).inv(),
            offset + bytes@.len() <= u64::MAX,
        ensures
            final(self).inv(),
            final(self).bytes() == write_model(old(self).bytes(), offset as int, bytes@),
    ;

    /// Append `bytes` at the current end.
    fn append(&mut self, bytes: &[u8])
        requires
            old(self).inv(),
            old(self).bytes().len() + bytes@.len() <= u64::MAX,
        ensures
            final(self).inv(),
            final(self).bytes() == old(self).bytes() + bytes@,
    ;

    /// Current length in bytes.
    fn len(&mut self) -> (r: u64)
        requires
            old(self).inv(),
        ensures
            final(self).inv(),
            final(self).bytes() == old(self).bytes(),
            r == old(self).bytes().len(),
    ;

    /// Whether the container holds no bytes.
    fn is_empty(&mut self) -> (r: bool)
        requires
            old(self).inv(),
        ensures
            final(self).inv(),
            final(self).bytes() == old(self).bytes(),
            r == (old(self).bytes().len() == 0),
    ;
}

/// An in-memory byte container: the reference implementation of
/// [`FilesystemIo`], and the backing the tests run the store on.
#[derive(Debug, Clone, PartialEq, Eq, Hash)]
pub struct MemoryIo {
    data: Vec<u8>,
}

impl MemoryIo {
    /// An empty container.
    pub fn new() -> (r: Self)
        ensures
            r.inv(),
            r.bytes() == Seq::<u8>::empty(),
    {
        let r = MemoryIo { data: Vec::new() };
        proof {
            assert(r.bytes() =~= Seq::<u8>::empty());
        }
        r
    }
}

impl FilesystemIo for MemoryIo {
    open spec fn inv(&self) -> bool {
        true
    }

    closed spec fn bytes(&self) -> Seq<u8> {
        self.data@
    }

    fn read(&mut self, offset: u64, length: usize) -> (r: Vec<u8>) {
        let mut out: Vec<u8> = Vec::new();
        let mut i: usize = 0;
        while i < length
            invariant
                i <= length,
                out@ == read_model(self.data@, offset as int, i as int),
                self == old(self),
            decreases length - i,
        {
            let n = self.data.len();
            let byte: u8 = if offset < n as u64 && (i as u64) < n as u64 - offset {
                self.data[(offset as usize) + i]
            } else {
                0
            };
            out.push(byte);
            proof {
                assert(out@ =~= read_model(self.data@, offset as int, (i + 1) as int));
            }
            i = i + 1;
        }
        out
    }

    fn write(&mut self, offset: u64, bytes: &[u8]) {
        if bytes.len() == 0 {
            return;
        }
        let ghost orig = self.data@;

        // Zero-fill any gap between the current end and `offset`.
        while (self.data.len() as u64) < offset
            invariant
                orig.len() <= self.data@.len(),
                self.data@.len() <= vstd::math::max(offset as int, orig.len() as int),
                self.data@ == write_model(orig, orig.len() as int, Seq::new(
                    (self.data@.len() - orig.len()) as nat,
                    |j: int| 0u8,
                )),
            decreases offset - self.data@.len(),
        {
            self.data.push(0);
            proof {
                assert(self.data@ =~= write_model(orig, orig.len() as int, Seq::new(
                    (self.data@.len() - orig.len()) as nat,
                    |j: int| 0u8,
                )));
            }
        }

        let ghost filled = self.data@;
        proof {
            assert(forall|j: int| 0 <= j < orig.len() ==> filled[j] == orig[j]);
            assert(forall|j: int| orig.len() <= j < filled.len() ==> filled[j] == 0u8);
        }

        // Overwrite in place, appending once the end is reached.
        let offset_usize = offset as usize;
        let mut i: usize = 0;
        while i < bytes.len()
            invariant
                i <= bytes@.len(),
                offset + bytes@.len() <= u64::MAX,
                offset <= filled.len(),
                offset == offset_usize,
                orig.len() <= filled.len(),
                filled.len() <= vstd::math::max(offset as int, orig.len() as int),
                forall|j: int| 0 <= j < orig.len() ==> filled[j] == orig[j],
                forall|j: int| orig.len() <= j < filled.len() ==> filled[j] == 0u8,
                self.data@.len() == vstd::math::max(filled.len() as int, offset + i),
                self.data@ == write_model(filled, offset as int, bytes@.subrange(0, i as int)),
            decreases bytes@.len() - i,
        {
            let dlen = self.data.len();
            proof {
                assert(offset_usize + i <= dlen);
            }
            let idx = offset_usize + i;
            if idx < dlen {
                self.data[idx] = bytes[i];
            } else {
                self.data.push(bytes[i]);
            }
            i = i + 1;
            proof {
                assert(self.data@ =~= write_model(filled, offset as int, bytes@.subrange(
                    0,
                    i as int,
                )));
            }
        }
        proof {
            assert(bytes@.subrange(0, bytes@.len() as int) =~= bytes@);
            assert(self.data@ =~= write_model(orig, offset as int, bytes@));
        }
    }

    fn append(&mut self, bytes: &[u8]) {
        self.data.extend_from_slice(bytes);
    }

    fn len(&mut self) -> (r: u64) {
        self.data.len() as u64
    }

    fn is_empty(&mut self) -> (r: bool) {
        self.data.len() == 0
    }
}

} // verus!
