//! The book: a forward-linked page chain viewed as one byte stream.
//!
//! Starting from its entry page and following `next` links, a book
//! presents page bodies back to back as a contiguous buffer.  Reading
//! or writing past the end of the chain creates and links fresh pages
//! on demand — deliberately also on reads, because books serve as
//! lazily grown buffers.  The model here is `book_byte`: position `p`
//! of the stream is byte `p % page_size` of the body of the chain's
//! page number `p / page_size`, and zero beyond the chain.

use vstd::prelude::*;
use vstd::arithmetic::div_mod::{
    lemma_fundamental_div_mod, lemma_fundamental_div_mod_converse, lemma_mod_bound,
};
use vstd::arithmetic::mul::{
    lemma_mul_inequality, lemma_mul_is_distributive_add_other_way, lemma_mul_nonnegative,
};
use crate::blob::{read_model, write_model, spec_zeros};
use crate::geometry::{
    FS_HEADER_LEN, PAGE_HEADER_LEN, page_stride, page_pos, body_pos, page_count,
    page_header_bytes, page_body, lemma_page_ranges_disjoint, lemma_page_layout,
    lemma_page_count_exact,
};
use crate::pages::page::{Page, PageHeader};

verus! {

/// The container ends exactly at a page boundary: no partial trailing
/// page.  Every container built by the driver and worker stays aligned.
pub open spec fn disk_aligned(disk: Seq<u8>, page_size: u64) -> bool {
    disk.len() == page_pos(page_size, page_count(disk.len() as int, page_size))
}

/// The forward link of page `n`, if its header has one.
pub open spec fn chain_next(disk: Seq<u8>, page_size: u64, n: int) -> Option<u32> {
    let h = PageHeader::spec_parse(page_header_bytes(disk, page_size, n));
    if h.has_next {
        Some(h.next_page_number)
    } else {
        None
    }
}

/// A well-formed chain: every page lies inside the container and each
/// forward link points at a strictly larger page number, so the chain
/// is finite and free of cycles.
pub open spec fn chain_wf(disk: Seq<u8>, page_size: u64, n: int) -> bool
    decreases page_count(disk.len() as int, page_size) - n,
{
    let count = page_count(disk.len() as int, page_size);
    if 0 <= n < count {
        match chain_next(disk, page_size, n) {
            Some(m) => if n < m < count {
                chain_wf(disk, page_size, m as int)
            } else {
                false
            },
            None => true,
        }
    } else {
        false
    }
}

/// Number of pages in the chain starting at `n`.
pub open spec fn chain_len(disk: Seq<u8>, page_size: u64, n: int) -> nat
    decreases page_count(disk.len() as int, page_size) - n,
    when chain_wf(disk, page_size, n)
{
    match chain_next(disk, page_size, n) {
        Some(m) => 1 + chain_len(disk, page_size, m as int),
        None => 1,
    }
}

/// The page number `k` forward steps from `n`.
pub open spec fn chain_page(disk: Seq<u8>, page_size: u64, n: int, k: int) -> int
    decreases k,
{
    if k <= 0 {
        n
    } else {
        match chain_next(disk, page_size, n) {
            Some(m) => chain_page(disk, page_size, m as int, k - 1),
            None => n,
        }
    }
}

/// Byte `p` of the stream a chain presents: inside the chain, byte
/// `p % page_size` of step `p / page_size`'s body; zero beyond it.
pub open spec fn book_byte(disk: Seq<u8>, page_size: u64, entry: int, p: int) -> u8 {
    let k = p / (page_size as int);
    if k < chain_len(disk, page_size, entry) {
        page_body(disk, page_size, chain_page(disk, page_size, entry, k))[p % (page_size as int)]
    } else {
        0u8
    }
}

/// The `len` stream bytes starting at `offset`.
pub open spec fn book_bytes(disk: Seq<u8>, page_size: u64, entry: int, offset: int, len: nat) -> Seq<
    u8,
> {
    Seq::new(len, |j: int| book_byte(disk, page_size, entry, offset + j))
}

/// A store a book can run on: nonzero page size, aligned container, and
/// a well-formed chain at the book's entry page.
pub open spec fn book_wf(disk: Seq<u8>, page_size: u64, entry: int) -> bool {
    &&& 1 <= page_size
    &&& disk_aligned(disk, page_size)
    &&& chain_wf(disk, page_size, entry)
}

/// Inside an aligned container every page's cell ends before the
/// container does.
pub proof fn lemma_cell_in_range(disk: Seq<u8>, page_size: u64, m: int)
    requires
        disk_aligned(disk, page_size),
        0 <= m < page_count(disk.len() as int, page_size),
    ensures
        page_pos(page_size, m) + page_stride(page_size) <= disk.len(),
        FS_HEADER_LEN <= page_pos(page_size, m),
    decreases 0int,
{
    let count = page_count(disk.len() as int, page_size);
    lemma_page_layout(page_size, m);
    if m + 1 < count {
        lemma_page_ranges_disjoint(page_size, m + 1, count);
        lemma_mul_nonnegative(m + 1, page_stride(page_size));
    } else {
        assert(m + 1 == count);
    }
    lemma_mul_nonnegative(m, page_stride(page_size));
}

/// Facts every step of a well-formed chain enjoys: the page lies in the
/// container, the chain tail from it is well formed, and the next step
/// is the parsed forward link.
pub proof fn lemma_chain_facts(disk: Seq<u8>, page_size: u64, entry: int, k: int)
    requires
        chain_wf(disk, page_size, entry),
        0 <= k < chain_len(disk, page_size, entry),
    ensures
        0 <= chain_page(disk, page_size, entry, k) < page_count(disk.len() as int, page_size),
        entry <= chain_page(disk, page_size, entry, k),
        chain_wf(disk, page_size, chain_page(disk, page_size, entry, k)),
        chain_len(disk, page_size, chain_page(disk, page_size, entry, k)) == chain_len(
            disk,
            page_size,
            entry,
        ) - k,
        k < chain_len(disk, page_size, entry) - 1 ==> (chain_next(
            disk,
            page_size,
            chain_page(disk, page_size, entry, k),
        ) matches Some(m) && m == chain_page(disk, page_size, entry, k + 1)) && chain_page(
            disk,
            page_size,
            entry,
            k,
        ) < chain_page(disk, page_size, entry, k + 1),
        k == chain_len(disk, page_size, entry) - 1 ==> chain_next(
            disk,
            page_size,
            chain_page(disk, page_size, entry, k),
        ) is None,
    decreases k,
{
    if k == 0 {
        if chain_len(disk, page_size, entry) == 1 {
            if chain_next(disk, page_size, entry) is Some {
                let m = chain_next(disk, page_size, entry)->0;
                assert(chain_len(disk, page_size, m as int) >= 1);
                assert(false);
            }
        } else {
            assert(chain_next(disk, page_size, entry) is Some);
            let m = chain_next(disk, page_size, entry)->0;
            assert(chain_page(disk, page_size, entry, 1) == chain_page(disk, page_size, m as int, 0));
            assert(chain_page(disk, page_size, m as int, 0) == m);
        }
    } else {
        let m = chain_next(disk, page_size, entry)->0;
        lemma_chain_facts(disk, page_size, m as int, k - 1);
        assert(chain_page(disk, page_size, entry, k) == chain_page(disk, page_size, m as int, k - 1));
        if k < chain_len(disk, page_size, entry) - 1 {
            assert(chain_page(disk, page_size, entry, k + 1) == chain_page(
                disk,
                page_size,
                m as int,
                k,
            ));
        }
    }
}

/// Chain steps strictly increase, so distinct steps are distinct pages.
pub proof fn lemma_chain_monotone(disk: Seq<u8>, page_size: u64, entry: int, j: int, k: int)
    requires
        chain_wf(disk, page_size, entry),
        0 <= j < k < chain_len(disk, page_size, entry),
    ensures
        chain_page(disk, page_size, entry, j) < chain_page(disk, page_size, entry, k),
    decreases k - j,
{
    lemma_chain_facts(disk, page_size, entry, j);
    if j + 1 == k {
        lemma_chain_facts(disk, page_size, entry, j);
    } else {
        lemma_chain_monotone(disk, page_size, entry, j + 1, k);
        lemma_chain_facts(disk, page_size, entry, j);
    }
}


/// Containers that agree on every page header of the smaller one carry
/// the same chains.
pub proof fn lemma_chain_same(disk1: Seq<u8>, disk2: Seq<u8>, page_size: u64, n: int)
    requires
        chain_wf(disk1, page_size, n),
        page_count(disk2.len() as int, page_size) >= page_count(disk1.len() as int, page_size),
        forall|m: int|
            0 <= m < page_count(disk1.len() as int, page_size)
                ==> #[trigger] page_header_bytes(disk2, page_size, m) == page_header_bytes(
                disk1,
                page_size,
                m,
            ),
    ensures
        chain_wf(disk2, page_size, n),
        chain_len(disk2, page_size, n) == chain_len(disk1, page_size, n),
        forall|k: int|
            0 <= k ==> #[trigger] chain_page(disk2, page_size, n, k) == chain_page(
                disk1,
                page_size,
                n,
                k,
            ),
    decreases page_count(disk1.len() as int, page_size) - n,
{
    assert(page_header_bytes(disk2, page_size, n) == page_header_bytes(disk1, page_size, n));
    assert(chain_next(disk2, page_size, n) == chain_next(disk1, page_size, n));
    match chain_next(disk1, page_size, n) {
        Some(m) => {
            lemma_chain_same(disk1, disk2, page_size, m as int);
            assert forall|k: int| 0 <= k implies #[trigger] chain_page(disk2, page_size, n, k)
                == chain_page(disk1, page_size, n, k) by {
                if k > 0 {
                    assert(chain_page(disk2, page_size, n, k) == chain_page(
                        disk2,
                        page_size,
                        m as int,
                        k - 1,
                    ));
                    assert(chain_page(disk1, page_size, n, k) == chain_page(
                        disk1,
                        page_size,
                        m as int,
                        k - 1,
                    ));
                }
            }
        },
        None => {
            assert forall|k: int| 0 <= k implies #[trigger] chain_page(disk2, page_size, n, k)
                == chain_page(disk1, page_size, n, k) by {
                if k > 0 {
                    assert(chain_page(disk2, page_size, n, k) == n);
                    assert(chain_page(disk1, page_size, n, k) == n);
                }
            }
        },
    }
}

/// The chain from `n`, whose last page is `last`, after `last` gains a
/// forward link to the fresh page `fresh`: one page longer, earlier
/// steps unchanged.
proof fn lemma_chain_extend_rec(
    disk: Seq<u8>,
    disk3: Seq<u8>,
    page_size: u64,
    n: int,
    last: int,
    fresh: int,
)
    requires
        chain_wf(disk, page_size, n),
        last == chain_page(disk, page_size, n, chain_len(disk, page_size, n) - 1),
        page_count(disk.len() as int, page_size) <= fresh < page_count(
            disk3.len() as int,
            page_size,
        ),
        fresh <= u32::MAX,
        page_count(disk3.len() as int, page_size) == page_count(disk.len() as int, page_size) + 1,
        forall|m: int|
            0 <= m < page_count(disk.len() as int, page_size) && m != last
                ==> #[trigger] page_header_bytes(disk3, page_size, m) == page_header_bytes(
                disk,
                page_size,
                m,
            ),
        PageHeader::spec_parse(page_header_bytes(disk3, page_size, last)) == (PageHeader {
            next_page_number: fresh as u32,
            has_next: true,
            ..PageHeader::spec_parse(page_header_bytes(disk, page_size, last))
        }),
        !PageHeader::spec_parse(page_header_bytes(disk3, page_size, fresh)).has_next,
    ensures
        chain_wf(disk3, page_size, n),
        chain_len(disk3, page_size, n) == chain_len(disk, page_size, n) + 1,
        forall|k: int|
            0 <= k < chain_len(disk, page_size, n) ==> #[trigger] chain_page(disk3, page_size, n, k)
                == chain_page(disk, page_size, n, k),
        chain_page(disk3, page_size, n, chain_len(disk, page_size, n) as int) == fresh,
    decreases page_count(disk.len() as int, page_size) - n,
{
    let count = page_count(disk.len() as int, page_size);
    let len1 = chain_len(disk, page_size, n);
    match chain_next(disk, page_size, n) {
        Some(m) => {
            // Not the last page: its header carries over unchanged.
            lemma_chain_facts(disk, page_size, n, len1 - 1);
            if n == last {
                lemma_chain_monotone(disk, page_size, n, 0, len1 - 1);
                assert(false);
            }
            assert(page_header_bytes(disk3, page_size, n) == page_header_bytes(
                disk,
                page_size,
                n,
            ));
            assert(chain_next(disk3, page_size, n) == chain_next(disk, page_size, n));
            assert(chain_page(disk, page_size, n, len1 - 1) == chain_page(
                disk,
                page_size,
                m as int,
                len1 - 2,
            ));
            lemma_chain_extend_rec(disk, disk3, page_size, m as int, last, fresh);
            assert(chain_wf(disk3, page_size, n));
            assert forall|k: int| 0 <= k < len1 implies #[trigger] chain_page(
                disk3,
                page_size,
                n,
                k,
            ) == chain_page(disk, page_size, n, k) by {
                if k > 0 {
                    assert(chain_page(disk3, page_size, n, k) == chain_page(
                        disk3,
                        page_size,
                        m as int,
                        k - 1,
                    ));
                    assert(chain_page(disk, page_size, n, k) == chain_page(
                        disk,
                        page_size,
                        m as int,
                        k - 1,
                    ));
                }
            }
            assert(chain_page(disk3, page_size, n, len1 as int) == chain_page(
                disk3,
                page_size,
                m as int,
                len1 - 1,
            ));
        },
        None => {
            // This is the last page: its header gained the forward link.
            assert(chain_page(disk, page_size, n, len1 - 1) == n);
            assert(n == last);
            assert(chain_next(disk3, page_size, n) == Some(fresh as u32));
            assert(chain_next(disk3, page_size, fresh) is None);
            assert(chain_wf(disk3, page_size, fresh));
            assert(chain_wf(disk3, page_size, n));
            assert(chain_len(disk3, page_size, fresh) == 1);
            assert(chain_len(disk3, page_size, n) == 2);
            assert(chain_page(disk3, page_size, n, 1) == chain_page(
                disk3,
                page_size,
                fresh,
                0,
            ));
        },
    }
}

/// After the worker's create-and-link pair at the chain's last page:
/// the chain gains exactly the fresh page, and every byte of the
/// stream reads as before (the fresh body is all zeros, like the void
/// it replaces).
pub proof fn lemma_book_after_create(disk: Seq<u8>, disk3: Seq<u8>, page_size: u64, entry: int)
    requires
        book_wf(disk, page_size, entry),
        page_count(disk.len() as int, page_size) <= u32::MAX,
        disk3.len() == disk.len() + page_stride(page_size),
        ({
            let count = page_count(disk.len() as int, page_size);
            let last = chain_page(disk, page_size, entry, chain_len(disk, page_size, entry) - 1);
            &&& (forall|m: int|
                0 <= m < count && m != last ==> #[trigger] page_header_bytes(disk3, page_size, m)
                    == page_header_bytes(disk, page_size, m))
            &&& PageHeader::spec_parse(page_header_bytes(disk3, page_size, last)) == (PageHeader {
                next_page_number: count as u32,
                has_next: true,
                ..PageHeader::spec_parse(page_header_bytes(disk, page_size, last))
            })
            &&& !PageHeader::spec_parse(page_header_bytes(disk3, page_size, count)).has_next
            &&& (forall|m: int|
                0 <= m < count ==> #[trigger] page_body(disk3, page_size, m) == page_body(
                    disk,
                    page_size,
                    m,
                ))
            &&& page_body(disk3, page_size, count) == spec_zeros(page_size as nat)
        }),
    ensures
        book_wf(disk3, page_size, entry),
        page_count(disk3.len() as int, page_size) == page_count(disk.len() as int, page_size) + 1,
        chain_len(disk3, page_size, entry) == chain_len(disk, page_size, entry) + 1,
        forall|k: int|
            0 <= k < chain_len(disk, page_size, entry) ==> #[trigger] chain_page(
                disk3,
                page_size,
                entry,
                k,
            ) == chain_page(disk, page_size, entry, k),
        chain_page(disk3, page_size, entry, chain_len(disk, page_size, entry) as int) == page_count(
            disk.len() as int,
            page_size,
        ),
        forall|p: int|
            0 <= p ==> #[trigger] book_byte(disk3, page_size, entry, p) == book_byte(
                disk,
                page_size,
                entry,
                p,
            ),
{
    let count = page_count(disk.len() as int, page_size);
    let len1 = chain_len(disk, page_size, entry);
    lemma_page_layout(page_size, count);
    lemma_page_count_exact(page_size, count + 1);
    assert(disk3.len() == page_pos(page_size, count + 1));
    assert(page_count(disk3.len() as int, page_size) == count + 1);
    lemma_chain_extend_rec(disk, disk3, page_size, entry, chain_page(disk, page_size, entry, len1 - 1), count);
    assert forall|p: int| 0 <= p implies #[trigger] book_byte(disk3, page_size, entry, p)
        == book_byte(disk, page_size, entry, p) by {
        let k = p / (page_size as int);
        lemma_fundamental_div_mod(p, page_size as int);
        lemma_mod_bound(p, page_size as int);
        if k < len1 {
            lemma_chain_facts(disk, page_size, entry, k);
            assert(chain_page(disk3, page_size, entry, k) == chain_page(disk, page_size, entry, k));
            assert(page_body(disk3, page_size, chain_page(disk, page_size, entry, k)) == page_body(
                disk,
                page_size,
                chain_page(disk, page_size, entry, k),
            ));
        } else if k == len1 {
            assert(chain_page(disk3, page_size, entry, k) == count);
            assert(book_byte(disk3, page_size, entry, p) == spec_zeros(page_size as nat)[p % (
            page_size as int)]);
            assert(book_byte(disk, page_size, entry, p) == 0u8);
        } else {
            assert(book_byte(disk3, page_size, entry, p) == 0u8);
            assert(book_byte(disk, page_size, entry, p) == 0u8);
        }
    }
}


/// Writing `b` into the body of chain step `k` at body offset `off`
/// changes exactly the stream bytes `[k * page_size + off ..)` it
/// covers and nothing else; the chain itself is untouched.
pub proof fn lemma_book_after_body_write(
    disk: Seq<u8>,
    page_size: u64,
    entry: int,
    k: int,
    off: int,
    b: Seq<u8>,
)
    requires
        book_wf(disk, page_size, entry),
        0 <= k < chain_len(disk, page_size, entry),
        0 <= off,
        off + b.len() <= page_size,
    ensures
        ({
            let q = chain_page(disk, page_size, entry, k);
            let disk2 = write_model(disk, body_pos(page_size, q) + off, b);
            let start = k * (page_size as int) + off;
            &&& disk2.len() == disk.len()
            &&& book_wf(disk2, page_size, entry)
            &&& chain_len(disk2, page_size, entry) == chain_len(disk, page_size, entry)
            &&& (forall|kk: int|
                0 <= kk ==> #[trigger] chain_page(disk2, page_size, entry, kk) == chain_page(
                    disk,
                    page_size,
                    entry,
                    kk,
                ))
            &&& (forall|p: int|
                0 <= p ==> #[trigger] book_byte(disk2, page_size, entry, p) == (if start <= p
                    < start + b.len() {
                    b[p - start]
                } else {
                    book_byte(disk, page_size, entry, p)
                }))
        }),
{
    let ps = page_size as int;
    let count = page_count(disk.len() as int, page_size);
    let q = chain_page(disk, page_size, entry, k);
    let wpos = body_pos(page_size, q) + off;
    let disk2 = write_model(disk, wpos, b);
    let start = k * ps + off;
    lemma_chain_facts(disk, page_size, entry, k);
    lemma_cell_in_range(disk, page_size, q);
    lemma_page_layout(page_size, q);
    if b.len() == 0 {
        assert(disk2 == disk);
        assert forall|p: int| 0 <= p implies #[trigger] book_byte(disk2, page_size, entry, p) == (
        if start <= p < start + b.len() {
            b[p - start]
        } else {
            book_byte(disk, page_size, entry, p)
        }) by {}
        return;
    }
    assert(wpos + b.len() <= disk.len());
    assert(disk2.len() == disk.len());

    // Every page header survives the body write.
    assert forall|m: int| 0 <= m implies #[trigger] page_header_bytes(disk2, page_size, m)
        == page_header_bytes(disk, page_size, m) by {
        lemma_mul_nonnegative(m, page_stride(page_size));
        if m < q {
            lemma_page_ranges_disjoint(page_size, m, q);
        } else if m > q {
            lemma_page_ranges_disjoint(page_size, q, m);
            lemma_page_layout(page_size, m);
        }
        crate::blob::lemma_write_frame(disk, wpos, b, page_pos(page_size, m), PAGE_HEADER_LEN as int);
    }
    lemma_chain_same(disk, disk2, page_size, entry);

    // Bodies of other pages survive too.
    assert forall|m: int| 0 <= m && m != q implies #[trigger] page_body(disk2, page_size, m)
        == page_body(disk, page_size, m) by {
        lemma_mul_nonnegative(m, page_stride(page_size));
        lemma_page_layout(page_size, m);
        if m < q {
            lemma_page_ranges_disjoint(page_size, m, q);
        } else {
            lemma_page_ranges_disjoint(page_size, q, m);
        }
        crate::blob::lemma_write_frame(disk, wpos, b, body_pos(page_size, m), ps);
    }

    assert forall|p: int| 0 <= p implies #[trigger] book_byte(disk2, page_size, entry, p) == (
    if start <= p < start + b.len() {
        b[p - start]
    } else {
        book_byte(disk, page_size, entry, p)
    }) by {
        let kk = p / ps;
        let i = p % ps;
        lemma_fundamental_div_mod(p, ps);
        lemma_mod_bound(p, ps);
        assert(p == kk * ps + i) by (nonlinear_arith)
            requires
                p == ps * kk + i,
        ;
        if kk < chain_len(disk, page_size, entry) {
            lemma_chain_facts(disk, page_size, entry, kk);
            let qq = chain_page(disk, page_size, entry, kk);
            if kk == k {
                // Inside the written page: compare body bytes directly.
                assert(page_body(disk2, page_size, q)[i] == (if off <= i < off + b.len() {
                    b[i - off]
                } else {
                    page_body(disk, page_size, q)[i]
                }));
                assert((start <= p < start + b.len()) == (off <= i < off + b.len()));
            } else {
                if kk < k {
                    lemma_chain_monotone(disk, page_size, entry, kk, k);
                } else {
                    lemma_chain_monotone(disk, page_size, entry, k, kk);
                }
                assert(qq != q);
                assert(page_body(disk2, page_size, qq) == page_body(disk, page_size, qq));
                // p lies outside the written range: that range stays in step k.
                if start <= p < start + b.len() {
                    lemma_mul_is_distributive_add_other_way(ps, k, 1);
                    lemma_fundamental_div_mod_converse(p, ps, k, p - k * ps);
                    assert(false);
                }
            }
        } else {
            // Beyond the chain: zero on both sides, and outside the range.
            if start <= p < start + b.len() {
                lemma_mul_is_distributive_add_other_way(ps, k, 1);
                lemma_fundamental_div_mod_converse(p, ps, k, p - k * ps);
                assert(false);
            }
        }
    }
}


/// The concrete disk `create_next_page` leaves behind — the appended
/// page followed by the link write — satisfies the abstract
/// description [`lemma_book_after_create`] starts from.
pub proof fn lemma_create_concrete_effect(disk: Seq<u8>, page_size: u64, entry: int, k: int)
    requires
        book_wf(disk, page_size, entry),
        page_count(disk.len() as int, page_size) <= u32::MAX,
        0 <= k < chain_len(disk, page_size, entry),
        k == chain_len(disk, page_size, entry) - 1,
    ensures
        ({
            let count = page_count(disk.len() as int, page_size);
            let last = chain_page(disk, page_size, entry, k);
            let grown = disk + crate::filesystem::worker::spec_new_page_header(
                Some(last as u32),
            ).spec_bytes() + spec_zeros(page_size as nat);
            let disk3 = write_model(
                grown,
                page_pos(page_size, last),
                crate::filesystem::worker::spec_linked_header(
                    grown,
                    page_size,
                    last,
                    count as u32,
                ).spec_bytes(),
            );
            &&& disk3.len() == disk.len() + page_stride(page_size)
            &&& (forall|m: int|
                0 <= m < count && m != last ==> #[trigger] page_header_bytes(disk3, page_size, m)
                    == page_header_bytes(disk, page_size, m))
            &&& PageHeader::spec_parse(page_header_bytes(disk3, page_size, last)) == (PageHeader {
                next_page_number: count as u32,
                has_next: true,
                ..PageHeader::spec_parse(page_header_bytes(disk, page_size, last))
            })
            &&& !PageHeader::spec_parse(page_header_bytes(disk3, page_size, count)).has_next
            &&& (forall|m: int|
                0 <= m < count ==> #[trigger] page_body(disk3, page_size, m) == page_body(
                    disk,
                    page_size,
                    m,
                ))
            &&& page_body(disk3, page_size, count) == spec_zeros(page_size as nat)
        }),
{
    let ps = page_size as int;
    let count = page_count(disk.len() as int, page_size);
    let last = chain_page(disk, page_size, entry, k);
    let fresh_header = crate::filesystem::worker::spec_new_page_header(Some(last as u32));
    let grown = disk + fresh_header.spec_bytes() + spec_zeros(page_size as nat);
    lemma_chain_facts(disk, page_size, entry, k);
    lemma_cell_in_range(disk, page_size, last);
    lemma_page_layout(page_size, last);
    lemma_page_layout(page_size, count);
    vstd::bytes::lemma_auto_spec_u32_to_from_le_bytes();
    assert(fresh_header.spec_bytes().len() == PAGE_HEADER_LEN);
    assert(grown.len() == disk.len() + page_stride(page_size));
    let linked = crate::filesystem::worker::spec_linked_header(grown, page_size, last, count as u32);
    let wpos = page_pos(page_size, last);
    let disk3 = write_model(grown, wpos, linked.spec_bytes());
    assert(linked.spec_bytes().len() == PAGE_HEADER_LEN);
    assert(wpos + PAGE_HEADER_LEN <= disk.len());
    assert(disk3.len() == grown.len());

    // The append leaves every existing page's header and body alone.
    assert forall|m: int| 0 <= m < count implies #[trigger] page_header_bytes(grown, page_size, m)
        == page_header_bytes(disk, page_size, m) && page_body(grown, page_size, m) == page_body(
        disk,
        page_size,
        m,
    ) by {
        lemma_cell_in_range(disk, page_size, m);
        lemma_page_layout(page_size, m);
        assert(page_header_bytes(grown, page_size, m) =~= page_header_bytes(disk, page_size, m));
        assert(page_body(grown, page_size, m) =~= page_body(disk, page_size, m));
    }

    // The link write touches only the last page's header cell.
    assert forall|m: int| 0 <= m < count && m != last implies #[trigger] page_header_bytes(
        disk3,
        page_size,
        m,
    ) == page_header_bytes(disk, page_size, m) by {
        lemma_mul_nonnegative(m, page_stride(page_size));
        if m < last {
            lemma_page_ranges_disjoint(page_size, m, last);
        } else {
            lemma_page_ranges_disjoint(page_size, last, m);
            lemma_page_layout(page_size, m);
        }
        crate::blob::lemma_write_frame(
            grown,
            wpos,
            linked.spec_bytes(),
            page_pos(page_size, m),
            PAGE_HEADER_LEN as int,
        );
        assert(page_header_bytes(disk3, page_size, m) == page_header_bytes(grown, page_size, m));
        lemma_cell_in_range(disk, page_size, m);
        assert(page_header_bytes(grown, page_size, m) =~= page_header_bytes(disk, page_size, m));
    }
    assert forall|m: int| 0 <= m < count implies #[trigger] page_body(disk3, page_size, m)
        == page_body(disk, page_size, m) by {
        lemma_mul_nonnegative(m, page_stride(page_size));
        if m < last {
            lemma_page_ranges_disjoint(page_size, m, last);
        } else if m > last {
            lemma_page_ranges_disjoint(page_size, last, m);
        }
        lemma_page_layout(page_size, m);
        crate::blob::lemma_write_frame(
            grown,
            wpos,
            linked.spec_bytes(),
            body_pos(page_size, m),
            ps,
        );
        assert(page_body(disk3, page_size, m) == page_body(grown, page_size, m));
        lemma_cell_in_range(disk, page_size, m);
        assert(page_body(grown, page_size, m) =~= page_body(disk, page_size, m));
    }

    // The last page's header now parses as the linked header.
    crate::blob::lemma_write_then_read(grown, wpos, linked.spec_bytes());
    assert(page_header_bytes(disk3, page_size, last) == linked.spec_bytes());
    crate::pages::page::lemma_page_header_roundtrip(linked);
    assert(page_header_bytes(grown, page_size, last) =~= page_header_bytes(disk, page_size, last));

    // The fresh page's header and body sit beyond the old end.
    lemma_page_ranges_disjoint(page_size, last, count);
    crate::blob::lemma_write_frame(
        grown,
        wpos,
        linked.spec_bytes(),
        page_pos(page_size, count),
        PAGE_HEADER_LEN as int,
    );
    assert(page_header_bytes(grown, page_size, count) =~= fresh_header.spec_bytes());
    crate::pages::page::lemma_page_header_roundtrip(fresh_header);
    crate::blob::lemma_write_frame(
        grown,
        wpos,
        linked.spec_bytes(),
        body_pos(page_size, count),
        ps,
    );
    assert(page_body(grown, page_size, count) =~= spec_zeros(page_size as nat));
}


/// Number of chain pages an operation starting at `offset` and
/// spanning `length` stream bytes touches: the page holding `offset`
/// through the page holding the last byte (just the seeked page when
/// nothing is read or written).
pub open spec fn spec_pages_needed(offset: u64, length: u64, page_size: u64) -> int {
    if length == 0 {
        (offset as int) / (page_size as int) + 1
    } else {
        (offset + length - 1) / (page_size as int) + 1
    }
}

/// Address-space headroom for a book operation of total extent
/// `extent` (its end offset in the stream): every page the operation
/// can touch or create still has a `u64` address and a `u32` number.
pub open spec fn book_space_ok(disk: Seq<u8>, page_size: u64, extent: int) -> bool {
    let limit = page_count(disk.len() as int, page_size) + extent / (page_size as int) + 2;
    &&& page_size <= usize::MAX
    &&& limit <= u32::MAX
    &&& page_pos(page_size, limit) <= u64::MAX
}

#[derive(Debug, Clone, Copy, PartialEq, Eq, Hash, Structural)]
/// A forward-linked page chain viewed as one contiguous, lazily grown
/// byte stream.
pub struct Book {
    entry_page: Page,
    page_size: u64,
}

impl Book {
    /// Open the book whose first page is `entry_page`.
    pub fn open(entry_page: Page, page_size: u64) -> (r: Self)
        ensures
            r.spec_entry() == entry_page.spec_number(),
            r.spec_page_size() == page_size,
    {
        Book { entry_page, page_size }
    }

    /// The number of the book's first page.
    pub closed spec fn spec_entry(&self) -> u32 {
        self.entry_page.spec_number()
    }

    /// The page size the book was opened with.
    pub closed spec fn spec_page_size(&self) -> u64 {
        self.page_size
    }

    /// The book's first page.
    pub fn entry_page(&self) -> (r: &Page)
        ensures
            r.spec_number() == self.spec_entry(),
    {
        &self.entry_page
    }
}


impl Book {
    /// March from the entry page to the page holding stream offset
    /// `offset`, creating and linking pages as needed, and return the
    /// page, the offset within its body, and the number of steps taken.
    fn seek_page<T: crate::filesystem::io::FilesystemIo>(
        &self,
        w: &mut crate::filesystem::worker::FilesystemWorker<T>,
        offset: u64,
        Ghost(extent): Ghost<int>,
    ) -> (r: (Page, u64, Ghost<int>))
        requires
            old(w).wf(),
            old(w).header().page_size == self.spec_page_size(),
            book_wf(old(w).disk(), self.spec_page_size(), self.spec_entry() as int),
            offset <= extent,
            book_space_ok(old(w).disk(), self.spec_page_size(), extent),
        ensures
            final(w).wf(),
            final(w).header() == old(w).header(),
            book_wf(final(w).disk(), self.spec_page_size(), self.spec_entry() as int),
            r.1 < self.spec_page_size(),
            0 <= r.2@,
            offset == r.2@ * self.spec_page_size() + r.1,
            r.2@ * self.spec_page_size() <= offset,
            r.0.spec_number() == chain_page(
                final(w).disk(),
                self.spec_page_size(),
                self.spec_entry() as int,
                r.2@,
            ),
            r.2@ < chain_len(final(w).disk(), self.spec_page_size(), self.spec_entry() as int),
            page_count(final(w).disk().len() as int, self.spec_page_size()) <= page_count(
                old(w).disk().len() as int,
                self.spec_page_size(),
            ) + r.2@,
            chain_len(final(w).disk(), self.spec_page_size(), self.spec_entry() as int)
                >= chain_len(old(w).disk(), self.spec_page_size(), self.spec_entry() as int),
            chain_len(final(w).disk(), self.spec_page_size(), self.spec_entry() as int)
                == vstd::math::max(
                chain_len(old(w).disk(), self.spec_page_size(), self.spec_entry() as int) as int,
                r.2@ + 1,
            ),
            offset < chain_len(old(w).disk(), self.spec_page_size(), self.spec_entry() as int) * (
            self.spec_page_size() as int) ==> final(w).disk() == old(w).disk(),
            forall|p: int|
                0 <= p ==> #[trigger] book_byte(
                    final(w).disk(),
                    self.spec_page_size(),
                    self.spec_entry() as int,
                    p,
                ) == book_byte(old(w).disk(), self.spec_page_size(), self.spec_entry() as int, p),
    {
        let ps = self.page_size;
        let ghost entry = self.spec_entry() as int;
        let ghost disk0 = old(w).disk();
        let ghost count0 = page_count(disk0.len() as int, ps);
        let ghost chain0 = chain_len(disk0, ps, entry) as int;
        let ghost limit = count0 + extent / (ps as int) + 2;
        let mut page = self.entry_page;
        let mut off = offset;
        let ghost mut k: int = 0;
        while off >= ps
            invariant
                w.wf(),
                w.header() == old(w).header(),
                w.header().page_size == ps,
                self.spec_page_size() == ps,
                self.spec_entry() == entry,
                book_wf(w.disk(), ps, entry),
                book_space_ok(disk0, ps, extent),
                limit == count0 + extent / (ps as int) + 2,
                count0 == page_count(disk0.len() as int, ps),
                0 <= k,
                offset == k * ps + off,
                offset <= extent,
                page.spec_number() == chain_page(w.disk(), ps, entry, k),
                k < chain_len(w.disk(), ps, entry),
                page_count(w.disk().len() as int, ps) <= count0 + k,
                chain0 == chain_len(disk0, ps, entry),
                chain_len(w.disk(), ps, entry) == vstd::math::max(chain0, k + 1),
                offset < chain_len(disk0, ps, entry) * (ps as int) ==> w.disk() == disk0,
                forall|p: int|
                    0 <= p ==> #[trigger] book_byte(w.disk(), ps, entry, p) == book_byte(
                        disk0,
                        ps,
                        entry,
                        p,
                    ),
            decreases off,
        {
            proof {
                self.lemma_step_bounds(w.disk(), disk0, extent, k, offset - off);
                lemma_chain_facts(w.disk(), ps, entry, k);
            }
            let ghost pre = w.disk();
            let next = page.create_next_page(w);
            proof {
                let h = PageHeader::spec_parse(page_header_bytes(pre, ps, page.spec_number() as int));
                if h.has_next {
                    lemma_chain_facts(pre, ps, entry, k);
                    assert(k < chain_len(pre, ps, entry) - 1);
                } else {
                    lemma_chain_facts(pre, ps, entry, k);
                    assert(k == chain_len(pre, ps, entry) - 1);
                    lemma_create_concrete_effect(pre, ps, entry, k);
                    lemma_book_after_create(pre, w.disk(), ps, entry);
                    assert((k + 1) * ps == k * ps + ps) by (nonlinear_arith);
                    if offset < chain_len(disk0, ps, entry) * (ps as int) {
                        // Marching past the chain's end would mean the
                        // target offset lies beyond the covered stream.
                        assert(offset >= (k + 1) * ps);
                        assert(false);
                    }
                }
                assert((k + 1) * ps == k * ps + ps) by (nonlinear_arith);
                k = k + 1;
            }
            page = next;
            off = off - ps;
        }
        (page, off, Ghost(k))
    }

    /// The arithmetic headroom one marching step needs: the current
    /// page's cell has a `u64` address, and creating one more page
    /// stays inside the space bound.
    proof fn lemma_step_bounds(
        &self,
        disk: Seq<u8>,
        disk0: Seq<u8>,
        extent: int,
        k: int,
        covered: int,
    )
        requires
            book_wf(disk, self.spec_page_size(), self.spec_entry() as int),
            book_space_ok(disk0, self.spec_page_size(), extent),
            0 <= k,
            covered == k * self.spec_page_size(),
            covered <= extent,
            page_count(disk.len() as int, self.spec_page_size()) <= page_count(
                disk0.len() as int,
                self.spec_page_size(),
            ) + k,
            k < chain_len(disk, self.spec_page_size(), self.spec_entry() as int),
        ensures
            ({
                let ps = self.spec_page_size();
                let q = chain_page(disk, ps, self.spec_entry() as int, k);
                let count = page_count(disk.len() as int, ps);
                &&& page_pos(ps, q + 1) <= u64::MAX
                &&& FS_HEADER_LEN <= disk.len()
                &&& disk.len() + page_stride(ps) <= u64::MAX
                &&& count <= u32::MAX
            }),
    {
        let ps = self.spec_page_size();
        let entry = self.spec_entry() as int;
        let q = chain_page(disk, ps, entry, k);
        let count = page_count(disk.len() as int, ps);
        let count0 = page_count(disk0.len() as int, ps);
        let limit = count0 + extent / (ps as int) + 2;
        lemma_chain_facts(disk, ps, entry, k);
        // k <= extent / ps.
        vstd::arithmetic::div_mod::lemma_div_is_ordered(covered, extent, ps as int);
        vstd::arithmetic::div_mod::lemma_div_multiples_vanish(k, ps as int);
        assert(covered == ps * k) by (nonlinear_arith)
            requires
                covered == k * self.spec_page_size() && ps == self.spec_page_size(),
        ;
        assert(k <= extent / (ps as int));
        assert(count + 1 <= limit);
        // Page q's cell fits below u64::MAX.
        lemma_mul_inequality(q + 1, limit, page_stride(ps));
        // The container itself ends at pos(count), below pos(limit).
        lemma_page_layout(ps, count);
        lemma_mul_inequality(count + 1, limit, page_stride(ps));
        lemma_mul_nonnegative(count, page_stride(ps));
    }
}


impl Book {
    /// Write `bytes` at stream offset `offset`, growing the chain as
    /// needed.  Afterwards the written range of the stream reads back
    /// exactly as `bytes`, and no other stream byte has changed.
    pub fn write<T: crate::filesystem::io::FilesystemIo>(
        &self,
        w: &mut crate::filesystem::worker::FilesystemWorker<T>,
        offset: u64,
        bytes: Vec<u8>,
    )
        requires
            old(w).wf(),
            old(w).header().page_size == self.spec_page_size(),
            book_wf(old(w).disk(), self.spec_page_size(), self.spec_entry() as int),
            offset + bytes@.len() <= u64::MAX,
            book_space_ok(old(w).disk(), self.spec_page_size(), offset + bytes@.len()),
        ensures
            final(w).wf(),
            final(w).header() == old(w).header(),
            book_wf(final(w).disk(), self.spec_page_size(), self.spec_entry() as int),
            book_bytes(
                final(w).disk(),
                self.spec_page_size(),
                self.spec_entry() as int,
                offset as int,
                bytes@.len(),
            ) == bytes@,
            page_count(final(w).disk().len() as int, self.spec_page_size()) <= page_count(
                old(w).disk().len() as int,
                self.spec_page_size(),
            ) + (offset + bytes@.len()) / (self.spec_page_size() as int) + 2,
            chain_len(final(w).disk(), self.spec_page_size(), self.spec_entry() as int)
                >= chain_len(old(w).disk(), self.spec_page_size(), self.spec_entry() as int),
            bytes@.len() > 0 ==> chain_len(
                final(w).disk(),
                self.spec_page_size(),
                self.spec_entry() as int,
            ) * (self.spec_page_size() as int) >= offset + bytes@.len(),
            bytes@.len() > 0 && offset + bytes@.len() <= chain_len(
                old(w).disk(),
                self.spec_page_size(),
                self.spec_entry() as int,
            ) * (self.spec_page_size() as int) ==> page_count(
                final(w).disk().len() as int,
                self.spec_page_size(),
            ) == page_count(old(w).disk().len() as int, self.spec_page_size()),
            chain_len(final(w).disk(), self.spec_page_size(), self.spec_entry() as int)
                == vstd::math::max(
                chain_len(old(w).disk(), self.spec_page_size(), self.spec_entry() as int) as int,
                spec_pages_needed(offset, bytes@.len() as u64, self.spec_page_size()),
            ),
            forall|p: int|
                0 <= p && !(offset <= p < offset + bytes@.len()) ==> #[trigger] book_byte(
                    final(w).disk(),
                    self.spec_page_size(),
                    self.spec_entry() as int,
                    p,
                ) == book_byte(old(w).disk(), self.spec_page_size(), self.spec_entry() as int, p),
    {
        let ps = self.page_size;
        let ghost entry = self.spec_entry() as int;
        let ghost disk0 = old(w).disk();
        let ghost count0 = page_count(disk0.len() as int, ps);
        let ghost chain0 = chain_len(disk0, ps, entry) as int;
        let ghost blen = bytes@.len() as int;
        let ghost extent = offset + blen;
        let ghost all_bytes = bytes@;

        let (page0, off, Ghost(k0)) = self.seek_page(w, offset, Ghost(extent));
        let mut page = page0;
        let ghost mut k: int = k0;
        let ghost disk1 = w.disk();

        proof {
            w.lemma_wf_len();
            lemma_chain_facts(disk1, ps, entry, k0);
            self.lemma_existing_page_fits(disk1, chain_page(disk1, ps, entry, k0));
            if off + blen <= ps {
                lemma_book_after_body_write(disk1, ps, entry, k0, off as int, all_bytes);
            } else {
                lemma_book_after_body_write(
                    disk1,
                    ps,
                    entry,
                    k0,
                    off as int,
                    all_bytes.take(ps - off),
                );
            }
        }
        let mut tail = page.write(w, off, bytes);

        proof {
            assert(all_bytes.skip(blen - tail@.len()) =~= tail@);
            assert((k0 + 1) * ps == k0 * ps + ps) by (nonlinear_arith);
            if blen > 0 && offset + blen <= chain0 * ps {
                assert(offset < chain0 * ps);
            }
            // The sought page lies inside the chain, so the chain in
            // fact covers the write's starting offset.
            if chain_len(disk1, ps, entry) * (ps as int) < offset {
                lemma_chain_facts(disk1, ps, entry, k0);
                lemma_mul_inequality(k0 + 1, chain_len(disk1, ps, entry) as int, ps as int);
            }
        }

        while tail.len() > 0
            invariant
                w.wf(),
                w.header() == old(w).header(),
                w.header().page_size == ps,
                self.spec_page_size() == ps,
                self.spec_entry() == entry,
                1 <= ps,
                book_wf(w.disk(), ps, entry),
                book_space_ok(disk0, ps, extent),
                count0 == page_count(disk0.len() as int, ps),
                blen == all_bytes.len(),
                extent == offset + blen,
                offset + blen <= u64::MAX,
                tail@.len() <= blen,
                tail@ == all_bytes.skip(blen - tail@.len()),
                0 <= k0 <= k,
                tail@.len() > 0 ==> offset + (blen - tail@.len()) == (k + 1) * ps,
                page.spec_number() == chain_page(w.disk(), ps, entry, k),
                k < chain_len(w.disk(), ps, entry),
                page_count(w.disk().len() as int, ps) <= count0 + k,
                chain0 == chain_len(disk0, ps, entry),
                chain_len(w.disk(), ps, entry) == vstd::math::max(chain0, k + 1),
                blen > 0 ==> offset + (blen - tail@.len()) <= (k + 1) * ps,
                k * ps <= offset + blen,
                k == k0 || k * ps < offset + (blen - tail@.len()),
                offset == k0 * ps + off,
                off < ps,
                blen > 0 && offset + blen <= chain0 * ps ==> page_count(
                    w.disk().len() as int,
                    ps,
                ) == count0,
                forall|p: int|
                    offset <= p < offset + (blen - tail@.len()) ==> #[trigger] book_byte(
                        w.disk(),
                        ps,
                        entry,
                        p,
                    ) == all_bytes[p - offset],
                forall|p: int|
                    0 <= p && !(offset <= p < offset + blen) ==> #[trigger] book_byte(
                        w.disk(),
                        ps,
                        entry,
                        p,
                    ) == book_byte(disk0, ps, entry, p),
            decreases tail@.len(),
        {
            let ghost wr = blen - tail@.len();
            let ghost cur_tail = tail@;
            proof {
                assert(k * ps == offset + wr - ps) by (nonlinear_arith)
                    requires
                        offset + wr == (k + 1) * ps,
                ;
                self.lemma_step_bounds(w.disk(), disk0, extent, k, k * ps);
                lemma_chain_facts(w.disk(), ps, entry, k);
            }
            let ghost pre = w.disk();
            let next = page.create_next_page(w);
            proof {
                w.lemma_wf_len();
                let h = PageHeader::spec_parse(
                    page_header_bytes(pre, ps, page.spec_number() as int),
                );
                if h.has_next {
                    lemma_chain_facts(pre, ps, entry, k);
                    assert(k < chain_len(pre, ps, entry) - 1);
                } else {
                    lemma_chain_facts(pre, ps, entry, k);
                    assert(k == chain_len(pre, ps, entry) - 1);
                    lemma_create_concrete_effect(pre, ps, entry, k);
                    lemma_book_after_create(pre, w.disk(), ps, entry);
                    if blen > 0 && offset + blen <= chain0 * ps {
                        assert((k + 1) * ps == k * ps + ps) by (nonlinear_arith);
                        lemma_mul_inequality(chain0, chain_len(pre, ps, entry) as int, ps as int);
                        assert(false);
                    }
                }
                assert((k + 1) * ps == k * ps + ps) by (nonlinear_arith);
                k = k + 1;
            }
            page = next;
            let ghost disk_mid = w.disk();
            proof {
                w.lemma_wf_len();
                lemma_chain_facts(disk_mid, ps, entry, k);
                self.lemma_existing_page_fits(disk_mid, chain_page(disk_mid, ps, entry, k));
                if cur_tail.len() <= ps {
                    lemma_book_after_body_write(disk_mid, ps, entry, k, 0, cur_tail);
                } else {
                    lemma_book_after_body_write(disk_mid, ps, entry, k, 0, cur_tail.take(ps as int));
                }
            }
            tail = page.write(w, 0, tail);
            proof {
                assert(all_bytes.skip(blen - tail@.len()) =~= tail@);
                assert((k + 1) * ps == k * ps + ps) by (nonlinear_arith);
            }
        }
        proof {
            assert(book_bytes(w.disk(), ps, entry, offset as int, all_bytes.len() as nat)
                =~= all_bytes);
            if blen > 0 {
                lemma_chain_facts(w.disk(), ps, entry, k);
                lemma_mul_inequality(k + 1, chain_len(w.disk(), ps, entry) as int, ps as int);
            }
            vstd::arithmetic::div_mod::lemma_div_is_ordered(
                k * (ps as int),
                offset + blen,
                ps as int,
            );
            vstd::arithmetic::div_mod::lemma_div_multiples_vanish(k, ps as int);
            assert(k * (ps as int) == (ps as int) * k) by (nonlinear_arith);
            // The chain ends exactly at the last page the write touched.
            if blen == 0 {
                lemma_fundamental_div_mod_converse(offset as int, ps as int, k0, off as int);
            } else if k == k0 {
                lemma_fundamental_div_mod_converse(
                    offset + blen - 1,
                    ps as int,
                    k0,
                    off + blen - 1,
                );
            } else {
                assert((k + 1) * (ps as int) == k * (ps as int) + ps) by (nonlinear_arith);
                lemma_fundamental_div_mod_converse(
                    offset + blen - 1,
                    ps as int,
                    k,
                    offset + blen - 1 - k * (ps as int),
                );
            }
        }
    }

    /// Any page already inside an aligned container has a `u64` cell
    /// address, because the container itself ends within `u64` range.
    proof fn lemma_existing_page_fits(&self, disk: Seq<u8>, q: int)
        requires
            disk_aligned(disk, self.spec_page_size()),
            disk.len() <= u64::MAX,
            0 <= q < page_count(disk.len() as int, self.spec_page_size()),
        ensures
            page_pos(self.spec_page_size(), q + 1) <= u64::MAX,
    {
        let ps = self.spec_page_size();
        let count = page_count(disk.len() as int, ps);
        lemma_mul_inequality(q + 1, count, page_stride(ps));
    }
}


impl Book {
    /// Read `length` stream bytes at `offset`.  Missing pages are
    /// created on the way — a book doubles as a lazily grown buffer —
    /// but every byte returned, and every byte of the stream, reads
    /// exactly as before the call.
    pub fn read<T: crate::filesystem::io::FilesystemIo>(
        &self,
        w: &mut crate::filesystem::worker::FilesystemWorker<T>,
        offset: u64,
        length: u64,
    ) -> (r: Vec<u8>)
        requires
            old(w).wf(),
            old(w).header().page_size == self.spec_page_size(),
            book_wf(old(w).disk(), self.spec_page_size(), self.spec_entry() as int),
            offset + length <= u64::MAX,
            length <= usize::MAX,
            book_space_ok(old(w).disk(), self.spec_page_size(), offset + length),
        ensures
            final(w).wf(),
            final(w).header() == old(w).header(),
            book_wf(final(w).disk(), self.spec_page_size(), self.spec_entry() as int),
            r@ == book_bytes(
                old(w).disk(),
                self.spec_page_size(),
                self.spec_entry() as int,
                offset as int,
                length as nat,
            ),
            chain_len(final(w).disk(), self.spec_page_size(), self.spec_entry() as int)
                >= chain_len(old(w).disk(), self.spec_page_size(), self.spec_entry() as int),
            length > 0 && offset + length <= chain_len(
                old(w).disk(),
                self.spec_page_size(),
                self.spec_entry() as int,
            ) * (self.spec_page_size() as int) ==> final(w).disk() == old(w).disk(),
            page_count(final(w).disk().len() as int, self.spec_page_size()) <= page_count(
                old(w).disk().len() as int,
                self.spec_page_size(),
            ) + (offset + length) / (self.spec_page_size() as int) + 2,
            length > 0 ==> chain_len(
                final(w).disk(),
                self.spec_page_size(),
                self.spec_entry() as int,
            ) * (self.spec_page_size() as int) >= offset + length,
            chain_len(final(w).disk(), self.spec_page_size(), self.spec_entry() as int)
                == vstd::math::max(
                chain_len(old(w).disk(), self.spec_page_size(), self.spec_entry() as int) as int,
                spec_pages_needed(offset, length, self.spec_page_size()),
            ),
            forall|p: int|
                0 <= p ==> #[trigger] book_byte(
                    final(w).disk(),
                    self.spec_page_size(),
                    self.spec_entry() as int,
                    p,
                ) == book_byte(old(w).disk(), self.spec_page_size(), self.spec_entry() as int, p),
    {
        let ps = self.page_size;
        let ghost entry = self.spec_entry() as int;
        let ghost disk0 = old(w).disk();
        let ghost count0 = page_count(disk0.len() as int, ps);
        let ghost chain0 = chain_len(disk0, ps, entry) as int;
        let ghost extent = offset + length;

        let (page0, off, Ghost(k0)) = self.seek_page(w, offset, Ghost(extent));
        proof {
            if length > 0 && offset + length <= chain0 * ps {
                assert(offset < chain0 * ps);
            }
        }
        let mut page = page0;
        let ghost mut k: int = k0;

        proof {
            w.lemma_wf_len();
            lemma_chain_facts(w.disk(), ps, entry, k0);
            self.lemma_existing_page_fits(w.disk(), chain_page(w.disk(), ps, entry, k0));
        }
        let ghost disk1 = w.disk();
        let mut buf = page.read(w, off, length);
        proof {
            self.lemma_page_read_is_book_read(disk1, k0, off as int, buf@, length as int);
            assert forall|j: int| 0 <= j < buf@.len() implies #[trigger] buf@[j] == book_byte(
                disk0,
                ps,
                entry,
                offset + j,
            ) by {
                assert(k0 * ps + (off as int) + j == offset + j);
                assert(buf@[j] == book_byte(disk1, ps, entry, k0 * ps + (off as int) + j));
                assert(book_byte(disk1, ps, entry, offset + j) == book_byte(
                    disk0,
                    ps,
                    entry,
                    offset + j,
                ));
            }
            if buf@.len() < length {
                assert((k0 + 1) * ps == k0 * ps + ps) by (nonlinear_arith);
            }
            assert((k0 + 1) * ps == k0 * ps + ps) by (nonlinear_arith);
        }

        while buf.len() < length as usize
            invariant
                w.wf(),
                w.header() == old(w).header(),
                w.header().page_size == ps,
                self.spec_page_size() == ps,
                self.spec_entry() == entry,
                1 <= ps,
                book_wf(w.disk(), ps, entry),
                book_space_ok(disk0, ps, extent),
                count0 == page_count(disk0.len() as int, ps),
                extent == offset + length,
                offset + length <= u64::MAX,
                length <= usize::MAX,
                buf@.len() <= length,
                0 <= k0 <= k,
                buf@.len() < length ==> offset + buf@.len() == (k + 1) * ps,
                page.spec_number() == chain_page(w.disk(), ps, entry, k),
                k < chain_len(w.disk(), ps, entry),
                page_count(w.disk().len() as int, ps) <= count0 + k,
                chain0 == chain_len(disk0, ps, entry),
                chain_len(w.disk(), ps, entry) == vstd::math::max(chain0, k + 1),
                length > 0 && offset + length <= chain0 * ps ==> w.disk() == disk0,
                k * ps <= offset + length,
                length > 0 ==> offset + buf@.len() <= (k + 1) * ps,
                k == k0 || k * ps < offset + buf@.len(),
                offset == k0 * ps + off,
                off < ps,
                forall|j: int|
                    0 <= j < buf@.len() ==> #[trigger] buf@[j] == book_byte(
                        disk0,
                        ps,
                        entry,
                        offset + j,
                    ),
                forall|p: int|
                    0 <= p ==> #[trigger] book_byte(w.disk(), ps, entry, p) == book_byte(
                        disk0,
                        ps,
                        entry,
                        p,
                    ),
            decreases length - buf@.len(),
        {
            proof {
                assert(k * ps == offset + buf@.len() - ps) by (nonlinear_arith)
                    requires
                        offset + buf@.len() == (k + 1) * ps,
                ;
                self.lemma_step_bounds(w.disk(), disk0, extent, k, k * ps);
                lemma_chain_facts(w.disk(), ps, entry, k);
            }
            let ghost pre = w.disk();
            let next = page.create_next_page(w);
            proof {
                w.lemma_wf_len();
                let h = PageHeader::spec_parse(
                    page_header_bytes(pre, ps, page.spec_number() as int),
                );
                if h.has_next {
                    lemma_chain_facts(pre, ps, entry, k);
                    assert(k < chain_len(pre, ps, entry) - 1);
                } else {
                    lemma_chain_facts(pre, ps, entry, k);
                    assert(k == chain_len(pre, ps, entry) - 1);
                    lemma_create_concrete_effect(pre, ps, entry, k);
                    lemma_book_after_create(pre, w.disk(), ps, entry);
                    if length > 0 && offset + length <= chain0 * ps {
                        assert((k + 1) * ps == k * ps + ps) by (nonlinear_arith);
                        lemma_mul_inequality(chain0, chain_len(pre, ps, entry) as int, ps as int);
                        assert(false);
                    }
                }
                k = k + 1;
            }
            page = next;
            let ghost disk_mid = w.disk();
            let ghost done = buf@.len() as int;
            proof {
                w.lemma_wf_len();
                lemma_chain_facts(disk_mid, ps, entry, k);
                self.lemma_existing_page_fits(disk_mid, chain_page(disk_mid, ps, entry, k));
            }
            let remaining = length - buf.len() as u64;
            let mut part = page.read(w, 0, remaining);
            proof {
                self.lemma_page_read_is_book_read(disk_mid, k, 0, part@, remaining as int);
                assert(offset + done == k * ps);
                assert forall|j: int| 0 <= j < part@.len() implies #[trigger] part@[j]
                    == book_byte(disk0, ps, entry, offset + done + j) by {
                    assert(part@[j] == book_byte(disk_mid, ps, entry, k * ps + 0 + j));
                    assert(k * ps + 0 + j == offset + done + j);
                    assert(book_byte(disk_mid, ps, entry, offset + done + j) == book_byte(
                        disk0,
                        ps,
                        entry,
                        offset + done + j,
                    ));
                }
                assert((k + 1) * ps == k * ps + ps) by (nonlinear_arith);
            }
            buf.append(&mut part);
        }
        proof {
            assert(buf@ =~= book_bytes(disk0, ps, entry, offset as int, length as nat));
            if length > 0 {
                lemma_chain_facts(w.disk(), ps, entry, k);
                lemma_mul_inequality(k + 1, chain_len(w.disk(), ps, entry) as int, ps as int);
            }
            vstd::arithmetic::div_mod::lemma_div_is_ordered(
                k * (ps as int),
                offset + length,
                ps as int,
            );
            vstd::arithmetic::div_mod::lemma_div_multiples_vanish(k, ps as int);
            assert(k * (ps as int) == (ps as int) * k) by (nonlinear_arith);
            // The chain ends exactly at the last page the read touched.
            if length == 0 {
                lemma_fundamental_div_mod_converse(offset as int, ps as int, k0, off as int);
            } else if k == k0 {
                lemma_fundamental_div_mod_converse(
                    offset + length - 1,
                    ps as int,
                    k0,
                    off + length - 1,
                );
            } else {
                assert((k + 1) * (ps as int) == k * (ps as int) + ps) by (nonlinear_arith);
                lemma_fundamental_div_mod_converse(
                    offset + length - 1,
                    ps as int,
                    k,
                    offset + length - 1 - k * (ps as int),
                );
            }
        }
        buf
    }

    /// A page read at chain step `k` returns exactly the stream bytes
    /// of that step, starting at `k * page_size + off`.
    proof fn lemma_page_read_is_book_read(
        &self,
        disk: Seq<u8>,
        k: int,
        off: int,
        got: Seq<u8>,
        length: int,
    )
        requires
            book_wf(disk, self.spec_page_size(), self.spec_entry() as int),
            0 <= k < chain_len(disk, self.spec_page_size(), self.spec_entry() as int),
            0 <= off < self.spec_page_size(),
            0 <= length <= u64::MAX,
            got == crate::filesystem::worker::spec_read_page_result(
                disk,
                self.spec_page_size(),
                chain_page(disk, self.spec_page_size(), self.spec_entry() as int, k),
                off as u64,
                length as u64,
            ),
        ensures
            got.len() == vstd::math::min(length, self.spec_page_size() - off),
            forall|j: int|
                0 <= j < got.len() ==> #[trigger] got[j] == book_byte(
                    disk,
                    self.spec_page_size(),
                    self.spec_entry() as int,
                    k * self.spec_page_size() + off + j,
                ),
    {
        let ps = self.spec_page_size() as int;
        let entry = self.spec_entry() as int;
        let q = chain_page(disk, self.spec_page_size(), entry, k);
        lemma_chain_facts(disk, self.spec_page_size(), entry, k);
        if length == 0 {
            return;
        }
        assert forall|j: int| 0 <= j < got.len() implies #[trigger] got[j] == book_byte(
            disk,
            self.spec_page_size(),
            entry,
            k * ps + off + j,
        ) by {
            let p = k * ps + off + j;
            lemma_mul_nonnegative(k, ps);
            lemma_fundamental_div_mod_converse(p, ps, k, off + j);
            assert(p / ps == k && p % ps == off + j);
            assert(page_body(disk, self.spec_page_size(), q)[off + j] == got[j]);
        }
    }
}


/// Every chain step is at least its index: steps strictly increase
/// from the entry page.
proof fn lemma_chain_page_lower(disk: Seq<u8>, page_size: u64, entry: int, k: int)
    requires
        chain_wf(disk, page_size, entry),
        0 <= k < chain_len(disk, page_size, entry),
    ensures
        chain_page(disk, page_size, entry, k) >= k,
    decreases k,
{
    if k > 0 {
        lemma_chain_page_lower(disk, page_size, entry, k - 1);
        lemma_chain_facts(disk, page_size, entry, k - 1);
    }
}

/// A chain cannot have more pages than the container, and the
/// container cannot hold anywhere near `u64::MAX` pages.
proof fn lemma_chain_len_bounded(disk: Seq<u8>, page_size: u64, entry: int)
    requires
        chain_wf(disk, page_size, entry),
        disk.len() <= u64::MAX,
    ensures
        chain_len(disk, page_size, entry) <= page_count(disk.len() as int, page_size),
        page_count(disk.len() as int, page_size) < u64::MAX,
    decreases 0int,
{
    let count = page_count(disk.len() as int, page_size);
    let len = chain_len(disk, page_size, entry) as int;
    lemma_chain_page_lower(disk, page_size, entry, len - 1);
    lemma_chain_facts(disk, page_size, entry, len - 1);
    if disk.len() > FS_HEADER_LEN {
        let x = disk.len() - FS_HEADER_LEN;
        vstd::arithmetic::div_mod::lemma_div_is_ordered_by_denominator(
            x as int,
            1,
            page_stride(page_size),
        );
        vstd::arithmetic::div_mod::lemma_div_basics(x as int);
    }
}

impl Book {
    /// Number of pages currently linked into the book's chain.
    pub fn pages<T: crate::filesystem::io::FilesystemIo>(
        &self,
        w: &mut crate::filesystem::worker::FilesystemWorker<T>,
    ) -> (r: u64)
        requires
            old(w).wf(),
            old(w).header().page_size == self.spec_page_size(),
            book_wf(old(w).disk(), self.spec_page_size(), self.spec_entry() as int),
        ensures
            final(w).wf(),
            final(w).disk() == old(w).disk(),
            final(w).header() == old(w).header(),
            r == chain_len(old(w).disk(), self.spec_page_size(), self.spec_entry() as int),
    {
        let ghost ps = self.spec_page_size();
        let ghost entry = self.spec_entry() as int;
        let mut pages: u64 = 1;
        let mut page = self.entry_page;
        let ghost mut k: int = 0;
        loop
            invariant
                w.wf(),
                w.disk() == old(w).disk(),
                w.header() == old(w).header(),
                w.header().page_size == self.spec_page_size(),
                self.spec_page_size() == ps,
                self.spec_entry() == entry,
                book_wf(w.disk(), ps, entry),
                0 <= k < chain_len(w.disk(), ps, entry),
                pages == k + 1,
                page.spec_number() == chain_page(w.disk(), ps, entry, k),
            ensures
                w.wf(),
                w.disk() == old(w).disk(),
                w.header() == old(w).header(),
                pages == chain_len(old(w).disk(), ps, entry),
            decreases chain_len(w.disk(), ps, entry) - k,
        {
            proof {
                w.lemma_wf_len();
                lemma_chain_facts(w.disk(), ps, entry, k);
                self.lemma_existing_page_fits(w.disk(), chain_page(w.disk(), ps, entry, k));
                lemma_chain_len_bounded(w.disk(), ps, entry);
            }
            let next = page.read_next_page(w);
            match next {
                Some(child) => {
                    proof {
                        lemma_chain_facts(w.disk(), ps, entry, k);
                        k = k + 1;
                    }
                    page = child;
                    pages = pages + 1;
                },
                None => {
                    proof {
                        lemma_chain_facts(w.disk(), ps, entry, k);
                    }
                    break;
                },
            }
        }
        pages
    }
}

/// Law: the book round trip.  After `write(offset, bytes)`, reading
/// `bytes.len()` stream bytes at `offset` yields `bytes` again — on the
/// very image the write left behind, whatever the chain looked like
/// before.
pub proof fn lemma_book_roundtrip(
    disk: Seq<u8>,
    page_size: u64,
    entry: int,
    offset: int,
    bytes: Seq<u8>,
)
    requires
        book_bytes(disk, page_size, entry, offset, bytes.len()) == bytes,
    ensures
        forall|j: int| 0 <= j < bytes.len() ==> book_byte(disk, page_size, entry, offset + j) == bytes[j],
{
    assert forall|j: int| 0 <= j < bytes.len() implies book_byte(disk, page_size, entry, offset + j)
        == bytes[j] by {
        assert(book_bytes(disk, page_size, entry, offset, bytes.len())[j] == book_byte(
            disk,
            page_size,
            entry,
            offset + j,
        ));
    }
}

} // verus!
