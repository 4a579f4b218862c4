//! Physical layout of the page store inside the byte container.
//!
//! The container starts with a 10-byte filesystem header.  Page `n`
//! occupies `PAGE_HEADER_LEN + page_size` bytes starting at
//! `FS_HEADER_LEN + n * (PAGE_HEADER_LEN + page_size)`: a 9-byte page
//! header followed by a `page_size`-byte body.

use vstd::prelude::*;
use vstd::arithmetic::mul::{lemma_mul_inequality, lemma_mul_is_distributive_add_other_way};
use crate::blob::read_model;

verus! {

/// Length in bytes of the filesystem header at offset 0.
pub const FS_HEADER_LEN: u64 = 10;

/// Length in bytes of each page's header.
pub const PAGE_HEADER_LEN: u64 = 9;

/// Number of container bytes one page occupies: its header plus its body.
pub open spec fn page_stride(page_size: u64) -> int {
    PAGE_HEADER_LEN + page_size
}

/// Container offset at which page `n` starts.
pub open spec fn page_pos(page_size: u64, n: int) -> int {
    FS_HEADER_LEN + n * page_stride(page_size)
}

/// Container offset at which the body of page `n` starts.
pub open spec fn body_pos(page_size: u64, n: int) -> int {
    page_pos(page_size, n) + PAGE_HEADER_LEN
}

/// Number of pages a container of `len` bytes holds, a partial trailing
/// page counting as a whole one.
pub open spec fn page_count(len: int, page_size: u64) -> int {
    if len <= FS_HEADER_LEN {
        0
    } else {
        let full = (len - FS_HEADER_LEN) / page_stride(page_size);
        if full * page_stride(page_size) < len - FS_HEADER_LEN {
            full + 1
        } else {
            full
        }
    }
}

/// The 9 header bytes of page `n`, zero-extended if the container is short.
pub open spec fn page_header_bytes(disk: Seq<u8>, page_size: u64, n: int) -> Seq<u8> {
    read_model(disk, page_pos(page_size, n), PAGE_HEADER_LEN as int)
}

/// The `page_size` body bytes of page `n`, zero-extended if the container
/// is short.
pub open spec fn page_body(disk: Seq<u8>, page_size: u64, n: int) -> Seq<u8> {
    read_model(disk, body_pos(page_size, n), page_size as int)
}

/// Every page starts exactly one stride after its predecessor: the page
/// store is a dense array of `PAGE_HEADER_LEN + page_size`-byte cells
/// behind the filesystem header.
pub proof fn lemma_page_layout(page_size: u64, n: int)
    ensures
        page_pos(page_size, n) == FS_HEADER_LEN + n * (PAGE_HEADER_LEN + page_size),
        page_pos(page_size, n + 1) == page_pos(page_size, n) + page_stride(page_size),
{
    lemma_mul_is_distributive_add_other_way(page_stride(page_size), n, 1);
}

/// Distinct pages occupy disjoint byte ranges of the container.
pub proof fn lemma_page_ranges_disjoint(page_size: u64, m: int, n: int)
    requires
        m < n,
    ensures
        page_pos(page_size, m) + page_stride(page_size) <= page_pos(page_size, n),
{
    lemma_mul_inequality(m + 1, n, page_stride(page_size));
    lemma_mul_is_distributive_add_other_way(page_stride(page_size), m, 1);
}

/// An exactly full container (a whole number of pages) has that number of
/// pages.
pub proof fn lemma_page_count_exact(page_size: u64, k: int)
    requires
        0 <= k,
    ensures
        page_count(FS_HEADER_LEN + k * page_stride(page_size), page_size) == k,
{
    let stride = page_stride(page_size);
    if k > 0 {
        vstd::arithmetic::mul::lemma_mul_strictly_positive(k, stride);
        vstd::arithmetic::div_mod::lemma_div_multiples_vanish(k, stride);
    }
}

/// Exec computation of `page_pos`, valid whenever the result fits in the
/// container's address space.
pub fn page_position(page_size: u64, n: u32) -> (r: u64)
    requires
        page_size + PAGE_HEADER_LEN <= u64::MAX,
        page_pos(page_size, n as int) <= u64::MAX,
    ensures
        r == page_pos(page_size, n as int),
{
    proof {
        lemma_mul_inequality(0, n as int, page_stride(page_size));
    }
    FS_HEADER_LEN + (n as u64) * (PAGE_HEADER_LEN + page_size)
}

} // verus!
