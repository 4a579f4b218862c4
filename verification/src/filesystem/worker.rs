//! The worker: sole owner of the byte container.
//!
//! The worker executes one task at a time against the container and
//! keeps a hot copy of the filesystem header, from which all header
//! reads are served.  Its well-formedness ties the cache to the first
//! ten bytes on disk.  Whoever runs the worker (a thread pumping the
//! scheduler, or a test calling it directly) feeds it tasks and routes
//! the responses.

use vstd::prelude::*;
use vstd::arithmetic::div_mod::{lemma_fundamental_div_mod, lemma_mod_bound};
use vstd::arithmetic::mul::{lemma_mul_inequality, lemma_mul_nonnegative};
use vstd::math::min;
use vstd::slice::{slice_subrange, slice_to_vec};
use crate::blob::{read_model, write_model, lemma_write_frame, lemma_write_then_read, spec_zeros};
use crate::geometry::{
    FS_HEADER_LEN, PAGE_HEADER_LEN, page_stride, page_pos, body_pos, page_count,
    page_header_bytes, page_position, lemma_page_ranges_disjoint,
};
use crate::filesystem::header::FilesystemHeader;
use crate::filesystem::io::FilesystemIo;
use crate::filesystem::tasks::{FilesystemTask, FilesystemTaskResponse};
use crate::pages::page::PageHeader;
use crate::filesystem::header::lemma_header_roundtrip;

verus! {

/// The header a freshly created page carries: a back link to its parent
/// if one was named, and no forward link.
pub open spec fn spec_new_page_header(parent: Option<u32>) -> PageHeader {
    PageHeader {
        prev_page_number: match parent {
            Some(p) => p,
            None => 0u32,
        },
        next_page_number: 0,
        has_prev: parent is Some,
        has_next: false,
    }
}

/// Page `n`'s header with its forward link set to `next`.
pub open spec fn spec_linked_header(disk: Seq<u8>, page_size: u64, n: int, next: u32) -> PageHeader {
    PageHeader {
        next_page_number: next,
        has_next: true,
        ..PageHeader::spec_parse(page_header_bytes(disk, page_size, n))
    }
}

/// What a page-body read returns: nothing when the offset is past the
/// body or no bytes were asked for, else up to the end of the body.
pub open spec fn spec_read_page_result(
    disk: Seq<u8>,
    page_size: u64,
    n: int,
    offset: u64,
    length: u64,
) -> Seq<u8> {
    if offset >= page_size || length == 0 {
        Seq::empty()
    } else {
        read_model(disk, body_pos(page_size, n) + offset, min(length as int, page_size - offset))
    }
}

/// The container after a page-body write: nothing changes when the
/// offset is past the body; otherwise the bytes that fit before the body
/// ends are spliced in.
pub open spec fn spec_write_page_disk(
    disk: Seq<u8>,
    page_size: u64,
    n: int,
    offset: u64,
    bytes: Seq<u8>,
) -> Seq<u8> {
    if offset >= page_size {
        disk
    } else if offset + bytes.len() <= page_size {
        write_model(disk, body_pos(page_size, n) + offset, bytes)
    } else {
        write_model(disk, body_pos(page_size, n) + offset, bytes.take(page_size - offset))
    }
}

/// The bytes a page-body write hands back: everything when the offset is
/// past the body, the overflow past the body's end otherwise.
pub open spec fn spec_write_page_tail(page_size: u64, offset: u64, bytes: Seq<u8>) -> Seq<u8> {
    if offset >= page_size {
        bytes
    } else if offset + bytes.len() <= page_size {
        Seq::empty()
    } else {
        bytes.skip(page_size - offset)
    }
}

/// The bounds a task must respect so that every container offset it
/// touches fits in a `u64` address, every buffer it builds fits in a
/// `usize`, and a created page's number fits in a `u32`.
pub open spec fn spec_task_fits(task: FilesystemTask, page_size: u64, disk_len: int) -> bool {
    match task {
        FilesystemTask::ReadFilesystemHeader => true,
        FilesystemTask::WriteFilesystemHeader { .. } => true,
        FilesystemTask::CreatePage { .. } => {
            &&& page_size <= usize::MAX
            &&& FS_HEADER_LEN <= disk_len
            &&& disk_len + page_stride(page_size) <= u64::MAX
            &&& page_count(disk_len, page_size) <= u32::MAX
        },
        FilesystemTask::LinkPageForward { page_number, .. } => page_pos(
            page_size,
            page_number + 1,
        ) <= u64::MAX,
        FilesystemTask::ReadPageHeader { page_number } => page_pos(page_size, page_number + 1)
            <= u64::MAX,
        FilesystemTask::WritePageHeader { page_number, .. } => page_pos(
            page_size,
            page_number + 1,
        ) <= u64::MAX,
        FilesystemTask::ReadPage { page_number, offset, length } => {
            &&& page_pos(page_size, page_number + 1) <= u64::MAX
            &&& (offset < page_size ==> min(length as int, page_size - offset) <= usize::MAX)
        },
        FilesystemTask::WritePage { page_number, .. } => page_pos(page_size, page_number + 1)
            <= u64::MAX,
    }
}

#[derive(Debug, Clone)]
/// Executes tasks against the container it owns.
pub struct FilesystemWorker<T> {
    io: T,
    /// Hot cache of the filesystem header.
    header: FilesystemHeader,
}

impl<T: FilesystemIo> FilesystemWorker<T> {
    /// The container's bytes.
    pub closed spec fn disk(&self) -> Seq<u8> {
        self.io.bytes()
    }

    /// The cached filesystem header.
    pub closed spec fn header(&self) -> FilesystemHeader {
        self.header
    }

    /// The container is well formed and the cached header matches the
    /// first ten bytes on disk.
    pub closed spec fn wf(&self) -> bool {
        &&& self.io.inv()
        &&& self.io.bytes().len() <= u64::MAX
        &&& self.header == FilesystemHeader::spec_parse(
            read_model(self.io.bytes(), 0, FS_HEADER_LEN as int),
        )
    }

    /// A well-formed worker's container always fits the `u64` address
    /// space.
    pub proof fn lemma_wf_len(&self)
        requires
            self.wf(),
        ensures
            self.disk().len() <= u64::MAX,
    {
    }

    /// Take ownership of the container, reading the header once into the
    /// hot cache.
    pub fn new(mut io: T) -> (r: Self)
        requires
            io.inv(),
        ensures
            r.wf(),
            r.disk() == io.bytes(),
            r.header() == FilesystemHeader::spec_parse(read_model(io.bytes(), 0, FS_HEADER_LEN as int)),
    {
        let _establish_len = io.len();
        let buf = io.read(0, FS_HEADER_LEN as usize);
        let header = FilesystemHeader::from_bytes(buf.as_slice());
        FilesystemWorker { io, header }
    }

    /// How many pages the container currently holds, a trailing partial
    /// page counting as whole.
    fn current_page_count(len: u64, page_size: u64) -> (r: u64)
        requires
            page_size + PAGE_HEADER_LEN <= u64::MAX,
        ensures
            r == page_count(len as int, page_size),
    {
        if len <= FS_HEADER_LEN {
            return 0;
        }
        let stride = PAGE_HEADER_LEN + page_size;
        let full = (len - FS_HEADER_LEN) / stride;
        proof {
            lemma_fundamental_div_mod((len - FS_HEADER_LEN) as int, stride as int);
            lemma_mod_bound((len - FS_HEADER_LEN) as int, stride as int);
        }
        if full * stride < len - FS_HEADER_LEN {
            full + 1
        } else {
            full
        }
    }

    /// Current length of the backing container in bytes.
    pub fn container_len(&mut self) -> (r: u64)
        requires
            old(self).wf(),
        ensures
            final(self).wf(),
            final(self).disk() == old(self).disk(),
            final(self).header() == old(self).header(),
            r == old(self).disk().len(),
    {
        self.io.len()
    }

    /// Whether `task` respects the machine bounds [`spec_task_fits`]
    /// asks for; run the task only when it does.
    pub fn task_fits(&mut self, task: &FilesystemTask) -> (r: bool)
        requires
            old(self).wf(),
        ensures
            final(self).wf(),
            final(self).disk() == old(self).disk(),
            final(self).header() == old(self).header(),
            r == spec_task_fits(*task, old(self).header().page_size, old(self).disk().len() as int),
    {
        let page_size = self.header.page_size;
        match task {
            FilesystemTask::ReadFilesystemHeader => true,
            FilesystemTask::WriteFilesystemHeader { .. } => true,
            FilesystemTask::CreatePage { .. } => {
                let len = self.io.len();
                if page_size > usize::MAX as u64 || page_size > u64::MAX - PAGE_HEADER_LEN {
                    return false;
                }
                let stride = PAGE_HEADER_LEN + page_size;
                if len > u64::MAX - stride {
                    return false;
                }
                let count = Self::current_page_count(len, page_size);
                count <= u32::MAX as u64 && len >= FS_HEADER_LEN
            },
            FilesystemTask::LinkPageForward { page_number, .. } => Self::page_end_fits(
                page_size,
                *page_number,
            ),
            FilesystemTask::ReadPageHeader { page_number } => Self::page_end_fits(
                page_size,
                *page_number,
            ),
            FilesystemTask::WritePageHeader { page_number, .. } => Self::page_end_fits(
                page_size,
                *page_number,
            ),
            FilesystemTask::ReadPage { page_number, offset, length } => {
                if !Self::page_end_fits(page_size, *page_number) {
                    return false;
                }
                if *offset < page_size {
                    let amount = if *length > page_size - *offset {
                        page_size - *offset
                    } else {
                        *length
                    };
                    amount <= usize::MAX as u64
                } else {
                    true
                }
            },
            FilesystemTask::WritePage { page_number, .. } => Self::page_end_fits(
                page_size,
                *page_number,
            ),
        }
    }

    /// Whether page `page_number`'s last byte still has a `u64` address.
    fn page_end_fits(page_size: u64, page_number: u32) -> (r: bool)
        ensures
            r == (page_pos(page_size, page_number + 1) <= u64::MAX),
    {
        if page_size > u64::MAX - PAGE_HEADER_LEN {
            proof {
                lemma_mul_inequality(1, page_number + 1, page_stride(page_size));
            }
            return false;
        }
        let stride = PAGE_HEADER_LEN + page_size;
        let limit = (u64::MAX - FS_HEADER_LEN) / stride;
        let r = page_number as u64 + 1 <= limit;
        proof {
            let n1 = page_number + 1;
            lemma_fundamental_div_mod((u64::MAX - FS_HEADER_LEN) as int, stride as int);
            lemma_mod_bound((u64::MAX - FS_HEADER_LEN) as int, stride as int);
            if n1 <= limit {
                lemma_mul_inequality(n1 as int, limit as int, stride as int);
            } else {
                lemma_mul_inequality(limit + 1, n1 as int, stride as int);
                vstd::arithmetic::mul::lemma_mul_is_distributive_add_other_way(
                    stride as int,
                    limit as int,
                    1,
                );
                vstd::arithmetic::mul::lemma_mul_basics(stride as int);
            }
        }
        r
    }

    /// Execute one task against the container, returning its response.
    ///
    /// Each task's exact effect on the disk image and its response are
    /// pinned down per variant; in particular a created page grows the
    /// container by exactly one page stride, and a page-body read
    /// returns `min(length, page_size - offset)` bytes inside the body
    /// and none outside it.
    pub fn execute(&mut self, task: FilesystemTask) -> (r: FilesystemTaskResponse)
        requires
            old(self).wf(),
            spec_task_fits(task, old(self).header().page_size, old(self).disk().len() as int),
        ensures
            final(self).wf(),
            task matches FilesystemTask::ReadFilesystemHeader ==> {
                &&& final(self).disk() == old(self).disk()
                &&& final(self).header() == old(self).header()
                &&& r matches FilesystemTaskResponse::Header(h) && h == old(self).header()
            },
            task matches FilesystemTask::WriteFilesystemHeader { header } ==> {
                &&& final(self).disk() == write_model(old(self).disk(), 0, header.spec_bytes())
                &&& final(self).header() == header
                &&& r is Done
            },
            task matches FilesystemTask::CreatePage { parent_page_number } ==> {
                &&& final(self).disk() == old(self).disk() + spec_new_page_header(
                    parent_page_number,
                ).spec_bytes() + spec_zeros(old(self).header().page_size as nat)
                &&& final(self).disk().len() == old(self).disk().len() + page_stride(
                    old(self).header().page_size,
                )
                &&& final(self).header() == old(self).header()
                &&& r matches FilesystemTaskResponse::PageCreated(n) && n == page_count(
                    old(self).disk().len() as int,
                    old(self).header().page_size,
                )
            },
            task matches FilesystemTask::LinkPageForward { page_number, next_page_number } ==> {
                &&& final(self).disk() == write_model(
                    old(self).disk(),
                    page_pos(old(self).header().page_size, page_number as int),
                    spec_linked_header(
                        old(self).disk(),
                        old(self).header().page_size,
                        page_number as int,
                        next_page_number,
                    ).spec_bytes(),
                )
                &&& final(self).header() == old(self).header()
                &&& r is Done
            },
            task matches FilesystemTask::ReadPageHeader { page_number } ==> {
                &&& final(self).disk() == old(self).disk()
                &&& final(self).header() == old(self).header()
                &&& r matches FilesystemTaskResponse::PageHeader(h) && h == PageHeader::spec_parse(
                    page_header_bytes(
                        old(self).disk(),
                        old(self).header().page_size,
                        page_number as int,
                    ),
                )
            },
            task matches FilesystemTask::WritePageHeader { page_number, header } ==> {
                &&& final(self).disk() == write_model(
                    old(self).disk(),
                    page_pos(old(self).header().page_size, page_number as int),
                    header.spec_bytes(),
                )
                &&& final(self).header() == old(self).header()
                &&& r is Done
            },
            task matches FilesystemTask::ReadPage { page_number, offset, length } ==> {
                &&& final(self).disk() == old(self).disk()
                &&& final(self).header() == old(self).header()
                &&& r matches FilesystemTaskResponse::Bytes(b) && b@ == spec_read_page_result(
                    old(self).disk(),
                    old(self).header().page_size,
                    page_number as int,
                    offset,
                    length,
                )
            },
            task matches FilesystemTask::WritePage { page_number, offset, bytes } ==> {
                &&& final(self).disk() == spec_write_page_disk(
                    old(self).disk(),
                    old(self).header().page_size,
                    page_number as int,
                    offset,
                    bytes@,
                )
                &&& final(self).header() == old(self).header()
                &&& r matches FilesystemTaskResponse::Tail(t) && t@ == spec_write_page_tail(
                    old(self).header().page_size,
                    offset,
                    bytes@,
                )
            },
    {
        let page_size = self.header.page_size;
        match task {
            FilesystemTask::ReadFilesystemHeader => {
                FilesystemTaskResponse::Header(self.header)
            },
            FilesystemTask::WriteFilesystemHeader { header } => {
                self.header = header;
                let bytes = header.to_bytes();
                self.io.write(0, bytes.as_slice());
                proof {
                    lemma_write_then_read(old(self).disk(), 0, header.spec_bytes());
                    lemma_header_roundtrip(header);
                }
                FilesystemTaskResponse::Done
            },
            FilesystemTask::CreatePage { parent_page_number } => {
                let page_header = PageHeader {
                    prev_page_number: match parent_page_number {
                        Some(p) => p,
                        None => 0,
                    },
                    next_page_number: 0,
                    has_prev: parent_page_number.is_some(),
                    has_next: false,
                };
                let len = self.io.len();
                let page_number = Self::current_page_count(len, page_size);
                let header_bytes = page_header.to_bytes();
                self.io.append(header_bytes.as_slice());
                let body = vec![0u8; page_size as usize];
                self.io.append(body.as_slice());
                proof {
                    assert(body@ =~= spec_zeros(page_size as nat));
                    assert(self.disk() =~= old(self).disk() + page_header.spec_bytes()
                        + spec_zeros(page_size as nat));
                    assert(read_model(self.disk(), 0, FS_HEADER_LEN as int) =~= read_model(
                        old(self).disk(),
                        0,
                        FS_HEADER_LEN as int,
                    ));
                }
                FilesystemTaskResponse::PageCreated(page_number as u32)
            },
            FilesystemTask::LinkPageForward { page_number, next_page_number } => {
                let pos = self.page_position_checked(page_number);
                let buf = self.io.read(pos, PageHeader::LENGTH);
                let mut page_header = PageHeader::from_bytes(buf.as_slice());
                page_header.next_page_number = next_page_number;
                page_header.has_next = true;
                let bytes = page_header.to_bytes();
                self.io.write(pos, bytes.as_slice());
                proof {
                    self.lemma_page_write_keeps_header(
                        old(self).disk(),
                        page_size,
                        page_number as int,
                        pos as int,
                        page_header.spec_bytes(),
                    );
                }
                FilesystemTaskResponse::Done
            },
            FilesystemTask::ReadPageHeader { page_number } => {
                let pos = self.page_position_checked(page_number);
                let buf = self.io.read(pos, PageHeader::LENGTH);
                let page_header = PageHeader::from_bytes(buf.as_slice());
                FilesystemTaskResponse::PageHeader(page_header)
            },
            FilesystemTask::WritePageHeader { page_number, header } => {
                let pos = self.page_position_checked(page_number);
                let bytes = header.to_bytes();
                self.io.write(pos, bytes.as_slice());
                proof {
                    self.lemma_page_write_keeps_header(
                        old(self).disk(),
                        page_size,
                        page_number as int,
                        pos as int,
                        header.spec_bytes(),
                    );
                }
                FilesystemTaskResponse::Done
            },
            FilesystemTask::ReadPage { page_number, offset, length } => {
                if offset >= page_size || length == 0 {
                    let empty: Vec<u8> = Vec::new();
                    proof {
                        assert(empty@ =~= spec_read_page_result(
                            old(self).disk(),
                            page_size,
                            page_number as int,
                            offset,
                            length,
                        ));
                    }
                    return FilesystemTaskResponse::Bytes(empty);
                }
                let pos = self.page_position_checked(page_number);
                let amount = if length > page_size - offset {
                    page_size - offset
                } else {
                    length
                };
                let buf = self.io.read(pos + PAGE_HEADER_LEN + offset, amount as usize);
                FilesystemTaskResponse::Bytes(buf)
            },
            FilesystemTask::WritePage { page_number, offset, bytes } => {
                if offset >= page_size {
                    return FilesystemTaskResponse::Tail(bytes);
                }
                let len = bytes.len() as u64;
                if len == 0 {
                    let empty: Vec<u8> = Vec::new();
                    return FilesystemTaskResponse::Tail(empty);
                }
                let pos = self.page_position_checked(page_number);
                let body = pos + PAGE_HEADER_LEN;
                if len > page_size - offset {
                    let split = (page_size - offset) as usize;
                    self.io.write(body + offset, slice_subrange(bytes.as_slice(), 0, split));
                    let tail = slice_to_vec(slice_subrange(bytes.as_slice(), split, bytes.len()));
                    proof {
                        assert(bytes@.subrange(0, split as int) =~= bytes@.take(
                            page_size - offset,
                        ));
                        assert(tail@ =~= spec_write_page_tail(page_size, offset, bytes@));
                        self.lemma_page_write_keeps_header(
                            old(self).disk(),
                            page_size,
                            page_number as int,
                            (body + offset) as int,
                            bytes@.take(page_size - offset),
                        );
                    }
                    FilesystemTaskResponse::Tail(tail)
                } else {
                    self.io.write(body + offset, bytes.as_slice());
                    let empty: Vec<u8> = Vec::new();
                    proof {
                        assert(empty@ =~= spec_write_page_tail(page_size, offset, bytes@));
                        self.lemma_page_write_keeps_header(
                            old(self).disk(),
                            page_size,
                            page_number as int,
                            (body + offset) as int,
                            bytes@,
                        );
                    }
                    FilesystemTaskResponse::Tail(empty)
                }
            },
        }
    }

    /// Exec `page_pos`, callable once the page's end is known to fit.
    fn page_position_checked(&self, page_number: u32) -> (r: u64)
        requires
            page_pos(self.header().page_size, page_number + 1) <= u64::MAX,
        ensures
            r == page_pos(self.header().page_size, page_number as int),
            r + page_stride(self.header().page_size) <= page_pos(
                self.header().page_size,
                page_number + 1,
            ),
    {
        proof {
            lemma_page_ranges_disjoint(self.header.page_size, page_number as int, page_number + 1);
            lemma_mul_inequality(1, page_number + 1, page_stride(self.header.page_size));
        }
        page_position(self.header.page_size, page_number)
    }

    /// A write wholly inside or after page `n`'s cell leaves the
    /// filesystem header bytes untouched, so the hot cache stays
    /// coherent.
    proof fn lemma_page_write_keeps_header(
        &self,
        disk: Seq<u8>,
        page_size: u64,
        n: int,
        pos: int,
        bytes: Seq<u8>,
    )
        requires
            0 <= n,
            page_pos(page_size, n) <= pos,
        ensures
            read_model(write_model(disk, pos, bytes), 0, FS_HEADER_LEN as int) == read_model(
                disk,
                0,
                FS_HEADER_LEN as int,
            ),
    {
        lemma_mul_nonnegative(n, page_stride(page_size));
        lemma_write_frame(disk, pos, bytes, 0, FS_HEADER_LEN as int);
    }
}

} // verus!
