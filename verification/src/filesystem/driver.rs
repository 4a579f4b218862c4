//! Opening a store: format on first use, then run tasks through the
//! worker.
//!
//! The driver owns the worker.  On construction it writes a default
//! filesystem header into any container too short to hold one, so that
//! every store the driver hands out is formatted.  The threading around
//! the worker (scheduler pumping, reply routing) is the caller's
//! business; the driver's own operations run the corresponding task
//! directly.

use vstd::prelude::*;
use crate::blob::{read_model, write_model, lemma_write_then_read};
use crate::geometry::FS_HEADER_LEN;
use crate::filesystem::header::{FilesystemHeader, lemma_header_roundtrip};
use crate::filesystem::io::FilesystemIo;
use crate::filesystem::tasks::{FilesystemTask, FilesystemTaskResponse};
use crate::filesystem::worker::FilesystemWorker;

verus! {

#[derive(Debug, Clone)]
/// A formatted store and its worker.
pub struct FilesystemDriver<T> {
    /// The worker that owns the backing container.
    pub worker: FilesystemWorker<T>,
}

impl<T: FilesystemIo> FilesystemDriver<T> {
    /// Open a store on `io`, writing a default header first if the
    /// container is too short to hold one.
    pub fn new(mut io: T) -> (r: Self)
        requires
            io.inv(),
        ensures
            r.worker.wf(),
            io.bytes().len() < FS_HEADER_LEN ==> r.worker.header() == FilesystemHeader::spec_default()
                && r.worker.disk() == write_model(
                io.bytes(),
                0,
                FilesystemHeader::spec_default().spec_bytes(),
            ),
            io.bytes().len() >= FS_HEADER_LEN ==> r.worker.disk() == io.bytes(),
    {
        let len = io.len();
        if len < FS_HEADER_LEN {
            let ghost orig = io.bytes();
            let header = FilesystemHeader::default();
            let bytes = header.to_bytes();
            io.write(0, bytes.as_slice());
            proof {
                lemma_write_then_read(orig, 0, FilesystemHeader::spec_default().spec_bytes());
                lemma_header_roundtrip(FilesystemHeader::spec_default());
                assert(read_model(io.bytes(), 0, FS_HEADER_LEN as int) =~= FilesystemHeader::spec_default().spec_bytes());
            }
        }
        let worker = FilesystemWorker::new(io);
        FilesystemDriver { worker }
    }

    /// Read the filesystem header (served from the worker's hot cache).
    pub fn read_header(&mut self) -> (r: FilesystemHeader)
        requires
            old(self).worker.wf(),
        ensures
            final(self).worker.wf(),
            final(self).worker.disk() == old(self).worker.disk(),
            final(self).worker.header() == old(self).worker.header(),
            r == old(self).worker.header(),
    {
        let response = self.worker.execute(FilesystemTask::ReadFilesystemHeader);
        match response {
            FilesystemTaskResponse::Header(header) => header,
            _ => {
                proof {
                    assert(false);
                }
                FilesystemHeader::default()
            },
        }
    }

    /// Replace the filesystem header, in the worker's cache and on disk.
    pub fn write_header(&mut self, header: FilesystemHeader)
        requires
            old(self).worker.wf(),
        ensures
            final(self).worker.wf(),
            final(self).worker.header() == header,
            final(self).worker.disk() == write_model(
                old(self).worker.disk(),
                0,
                header.spec_bytes(),
            ),
    {
        self.worker.execute(FilesystemTask::WriteFilesystemHeader { header });
    }
}

} // verus!
