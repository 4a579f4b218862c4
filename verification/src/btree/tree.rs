//! The disk B-tree: an unbalanced search tree over slotted pages.
//!
//! Each node is one page holding up to `max_records` slotted records in
//! ascending key order, with child page numbers packed between
//! neighbouring keys.  Keys compare lexicographically,
//! most-significant byte first.  The tree is not self-balancing: a page
//! fills left to right, and descending into a missing child allocates a
//! fresh page.

use vstd::prelude::*;
use vstd::slice::slice_subrange;
use vstd::arithmetic::div_mod::{lemma_fundamental_div_mod, lemma_mod_bound};
use crate::btree::record::{spec_record_shift, spec_record_size, GenericBTreeRecord};
use crate::blob::{spec_zeros, spec_u32_from_be_bytes, spec_u32_to_be_bytes};
use crate::geometry::{
    PAGE_HEADER_LEN, page_stride, page_pos, body_pos, page_count, page_body,
    lemma_page_ranges_disjoint, lemma_page_layout, lemma_page_count_exact,
};
use crate::pages::book::disk_aligned;
use crate::filesystem::io::FilesystemIo;
use crate::filesystem::tasks::{FilesystemTask, FilesystemTaskResponse};
use crate::filesystem::worker::{FilesystemWorker, spec_new_page_header, spec_write_page_disk};
use crate::blob::{write_model, lemma_write_frame, lemma_u32_be_bytes_inverse};
use vstd::arithmetic::mul::{lemma_mul_inequality, lemma_mul_nonnegative, lemma_mul_basics};
use vstd::slice::slice_to_vec;

verus! {

/// How many records fit in one page body of `page_size` bytes: the
/// greatest `n` with `n * RECORD_SHIFT + 4 <= page_size`.
pub open spec fn spec_max_records(page_size: u64, key_size: nat, value_size: nat) -> int {
    let shift = spec_record_shift(key_size, value_size);
    let slots = page_size as int / shift;
    if slots * shift + (spec_record_size(key_size, value_size) - shift) <= page_size {
        slots
    } else {
        slots - 1
    }
}

#[derive(Debug, Clone, Copy, PartialEq, Eq, Hash)]
/// Handle on one disk B-tree: the page number of its root node and the
/// store's page size.
pub struct GenericBTree<const KEY_SIZE: usize, const VALUE_SIZE: usize> {
    entry_page: u32,
    page_size: u64,
}

impl<const KEY_SIZE: usize, const VALUE_SIZE: usize> GenericBTree<KEY_SIZE, VALUE_SIZE> {
    /// Handle on the tree rooted at `entry_page`.
    pub fn new(entry_page: u32, page_size: u64) -> (r: Self)
        ensures
            r.spec_entry_page() == entry_page,
            r.spec_page_size() == page_size,
    {
        GenericBTree { entry_page, page_size }
    }

    /// The page number of the root node.
    pub closed spec fn spec_entry_page(&self) -> u32 {
        self.entry_page
    }

    /// The store's page size.
    pub closed spec fn spec_page_size(&self) -> u64 {
        self.page_size
    }

    /// Calculate how many records can fit into one page.
    pub fn max_records(&self) -> (r: u64)
        requires
            KEY_SIZE + VALUE_SIZE + 9 <= usize::MAX,
            self.spec_page_size() >= 4,
        ensures
            r == spec_max_records(self.spec_page_size(), KEY_SIZE as nat, VALUE_SIZE as nat),
    {
        let shift = KEY_SIZE as u64 + VALUE_SIZE as u64 + 5;
        let slots = self.page_size / shift;
        proof {
            lemma_fundamental_div_mod(self.page_size as int, shift as int);
            lemma_mod_bound(self.page_size as int, shift as int);
            vstd::arithmetic::mul::lemma_mul_is_commutative(slots as int, shift as int);
        }
        if self.page_size - slots * shift >= 4 {
            slots
        } else {
            proof {
                if slots == 0 {
                    assert(self.page_size < shift);
                }
            }
            slots - 1
        }
    }
}


/// Strict lexicographic order on byte strings, most significant byte
/// first.
pub open spec fn spec_key_lt(a: Seq<u8>, b: Seq<u8>) -> bool
    decreases a.len(),
{
    if a.len() == 0 {
        b.len() > 0
    } else if b.len() == 0 {
        false
    } else if a[0] < b[0] {
        true
    } else if a[0] > b[0] {
        false
    } else {
        spec_key_lt(a.drop_first(), b.drop_first())
    }
}

/// Equal-length keys that agree on a prefix and then differ compare by
/// the first differing byte.
proof fn lemma_key_lt_from_diff(a: Seq<u8>, b: Seq<u8>, i: int)
    requires
        a.len() == b.len(),
        0 <= i < a.len(),
        forall|j: int| 0 <= j < i ==> a[j] == b[j],
        a[i] != b[i],
    ensures
        a[i] < b[i] ==> spec_key_lt(a, b) && !spec_key_lt(b, a),
        a[i] > b[i] ==> !spec_key_lt(a, b) && spec_key_lt(b, a),
    decreases i,
{
    if i > 0 {
        lemma_key_lt_from_diff(a.drop_first(), b.drop_first(), i - 1);
    }
}

/// Equal sequences are not strictly ordered.
proof fn lemma_key_lt_irrefl(a: Seq<u8>)
    ensures
        !spec_key_lt(a, a),
    decreases a.len(),
{
    if a.len() > 0 {
        lemma_key_lt_irrefl(a.drop_first());
    }
}

/// Three-way lexicographic comparison of two equal-length byte keys:
/// negative for less, zero for equal, positive for greater.
fn compare_keys(a: &Vec<u8>, b: &Vec<u8>) -> (r: i8)
    requires
        a@.len() == b@.len(),
    ensures
        r == 0i8 <==> a@ == b@,
        r < 0i8 <==> spec_key_lt(a@, b@),
        r > 0i8 <==> spec_key_lt(b@, a@),
{
    let mut idx: usize = 0;
    while idx < a.len()
        invariant
            a@.len() == b@.len(),
            idx <= a@.len(),
            forall|j: int| 0 <= j < idx ==> a@[j] == b@[j],
        decreases a@.len() - idx,
    {
        if a[idx] < b[idx] {
            proof {
                lemma_key_lt_from_diff(a@, b@, idx as int);
            }
            return -1;
        }
        if a[idx] > b[idx] {
            proof {
                lemma_key_lt_from_diff(a@, b@, idx as int);
            }
            return 1;
        }
        idx = idx + 1;
    }
    proof {
        assert(a@ =~= b@);
        lemma_key_lt_irrefl(a@);
    }
    0
}


/// What a left-to-right walk over a node page's slots finds for a key.
enum ScanOutcome<const KEY_SIZE: usize, const VALUE_SIZE: usize> {
    /// The first slot without a key: the search key belongs here.
    EmptySlot { offset: u64, si: Ghost<int> },
    /// A record with exactly the search key.
    Found { offset: u64, record: GenericBTreeRecord<KEY_SIZE, VALUE_SIZE>, si: Ghost<int> },
    /// The first record with a greater key: the search key belongs in
    /// its left subtree.
    Greater { offset: u64, record: GenericBTreeRecord<KEY_SIZE, VALUE_SIZE>, si: Ghost<int> },
    /// Every stored key is smaller; `last` is the final record, if the
    /// page holds any slot at all.
    End { last: Option<(u64, GenericBTreeRecord<KEY_SIZE, VALUE_SIZE>)>, si: Ghost<int> },
}

impl<const KEY_SIZE: usize, const VALUE_SIZE: usize> GenericBTree<KEY_SIZE, VALUE_SIZE> {
    /// The `RECORD_SIZE` bytes of slot `i` in a page body.
    pub open spec fn spec_slot_of(body: Seq<u8>, i: int) -> Seq<u8> {
        body.subrange(
            i * spec_record_shift(KEY_SIZE as nat, VALUE_SIZE as nat),
            i * spec_record_shift(KEY_SIZE as nat, VALUE_SIZE as nat) + spec_record_size(
                KEY_SIZE as nat,
                VALUE_SIZE as nat,
            ),
        )
    }

    /// `rec` holds exactly what the record bytes `s` store.
    pub open spec fn spec_parsed(rec: GenericBTreeRecord<KEY_SIZE, VALUE_SIZE>, s: Seq<u8>) -> bool {
        &&& rec.wf()
        &&& (rec.key is Some <==> GenericBTreeRecord::<KEY_SIZE, VALUE_SIZE>::spec_key_set(s))
        &&& (rec.value is Some <==> GenericBTreeRecord::<KEY_SIZE, VALUE_SIZE>::spec_value_set(s))
        &&& (rec.left_addr is Some <==> GenericBTreeRecord::<KEY_SIZE, VALUE_SIZE>::spec_left_set(
            s,
        ))
        &&& (rec.right_addr is Some <==> GenericBTreeRecord::<
            KEY_SIZE,
            VALUE_SIZE,
        >::spec_right_set(s))
        &&& (rec.key matches Some(k) ==> k@ == s.subrange(5, 5 + KEY_SIZE))
        &&& (rec.value matches Some(v) ==> v@ == s.subrange(5 + KEY_SIZE, 5 + KEY_SIZE + VALUE_SIZE))
        &&& (rec.left_addr matches Some(a) ==> a == spec_u32_from_be_bytes(s.subrange(0, 4)))
        &&& (rec.right_addr matches Some(a) ==> a == spec_u32_from_be_bytes(
            s.subrange(
                spec_record_shift(KEY_SIZE as nat, VALUE_SIZE as nat),
                spec_record_size(KEY_SIZE as nat, VALUE_SIZE as nat),
            ),
        ))
    }

    /// Slot 0 was walked past: it holds a key, and not the search key.
    pub open spec fn spec_slot0_passed(body: Seq<u8>, key: Seq<u8>) -> bool {
        &&& GenericBTreeRecord::<KEY_SIZE, VALUE_SIZE>::spec_key_set(Self::spec_slot_of(body, 0))
        &&& Self::spec_slot_of(body, 0).subrange(5, 5 + KEY_SIZE) != key
    }

    /// Walk the slots of one page body left to right, comparing keys.
    fn scan_page(body: &Vec<u8>, key: &Vec<u8>) -> (r: ScanOutcome<KEY_SIZE, VALUE_SIZE>)
        requires
            KEY_SIZE + VALUE_SIZE + 9 <= usize::MAX,
            body@.len() + spec_record_size(KEY_SIZE as nat, VALUE_SIZE as nat) <= u64::MAX,
            key@.len() == KEY_SIZE,
        ensures
            ({
                let shift = spec_record_shift(KEY_SIZE as nat, VALUE_SIZE as nat);
                let rsize = spec_record_size(KEY_SIZE as nat, VALUE_SIZE as nat);
                match r {
                    ScanOutcome::EmptySlot { offset, si } => {
                        &&& 0 <= si@ && offset == si@ * shift
                        &&& offset + rsize <= body@.len()
                        &&& !GenericBTreeRecord::<KEY_SIZE, VALUE_SIZE>::spec_key_set(
                            Self::spec_slot_of(body@, si@),
                        )
                        &&& (si@ != 0 ==> Self::spec_slot0_passed(body@, key@))
                    },
                    ScanOutcome::Found { offset, record, si } => {
                        &&& 0 <= si@ && offset == si@ * shift
                        &&& offset + rsize <= body@.len()
                        &&& Self::spec_parsed(record, Self::spec_slot_of(body@, si@))
                        &&& record.key matches Some(k) && k@ == key@
                        &&& (si@ != 0 ==> Self::spec_slot0_passed(body@, key@))
                    },
                    ScanOutcome::Greater { offset, record, si } => {
                        &&& 0 <= si@ && offset == si@ * shift
                        &&& offset + rsize <= body@.len()
                        &&& Self::spec_parsed(record, Self::spec_slot_of(body@, si@))
                        &&& (record.key matches Some(k) && spec_key_lt(key@, k@))
                        &&& (si@ != 0 ==> Self::spec_slot0_passed(body@, key@))
                    },
                    ScanOutcome::End { last, si } => {
                        &&& (last matches Some((o, rec)) ==> {
                            &&& 1 <= si@ && o == (si@ - 1) * shift
                            &&& o + rsize <= body@.len()
                            &&& si@ * shift + rsize > body@.len()
                            &&& Self::spec_parsed(rec, Self::spec_slot_of(body@, si@ - 1))
                            &&& rec.key is Some
                            &&& Self::spec_slot0_passed(body@, key@)
                        })
                        &&& (last is None ==> body@.len() < rsize)
                    },
                }
            }),
            ({
                let s = Self::spec_scan(body@, key@);
                match r {
                    ScanOutcome::EmptySlot { offset, si } => s == (SpecScan::EmptySlot { si: si@ }),
                    ScanOutcome::Found { offset, record, si } => s == (SpecScan::Found { si: si@ }),
                    ScanOutcome::Greater { offset, record, si } => s == (SpecScan::Greater {
                        si: si@,
                    }),
                    ScanOutcome::End { last, si } => s == (SpecScan::End { last_si: si@ - 1 }),
                }
            }),
    {
        let shift: u64 = KEY_SIZE as u64 + VALUE_SIZE as u64 + 5;
        let rsize: u64 = shift + 4;
        let ghost sshift = spec_record_shift(KEY_SIZE as nat, VALUE_SIZE as nat);
        let mut i: u64 = 0;
        let ghost mut si: int = 0;
        let mut prev: Option<(u64, GenericBTreeRecord<KEY_SIZE, VALUE_SIZE>)> = None;
        loop
            invariant
                KEY_SIZE + VALUE_SIZE + 9 <= usize::MAX,
                body@.len() + rsize <= u64::MAX,
                key@.len() == KEY_SIZE,
                shift == sshift,
                sshift == spec_record_shift(KEY_SIZE as nat, VALUE_SIZE as nat),
                rsize == spec_record_size(KEY_SIZE as nat, VALUE_SIZE as nat),
                0 <= si && i == si * sshift,
                si <= i,
                i <= body@.len() || si == 0,
                Self::spec_scan(body@, key@) == Self::spec_scan_from(
                    body@,
                    key@,
                    si,
                    (body@.len() + 1 - si) as nat,
                ),
                si != 0 ==> Self::spec_slot0_passed(body@, key@),
                prev matches Some((o, rec)) ==> {
                    &&& si >= 1 && o == (si - 1) * sshift
                    &&& o + rsize <= body@.len()
                    &&& Self::spec_parsed(rec, Self::spec_slot_of(body@, si - 1))
                    &&& rec.key is Some
                },
                prev is None ==> si == 0,
            decreases body@.len() + rsize - i,
        {
            if !(i <= body.len() as u64 && body.len() as u64 - i >= rsize) {
                proof {
                    if si >= 1 {
                        assert((si - 1) * sshift + sshift == si * sshift) by (nonlinear_arith);
                    }
                }
                return ScanOutcome::End { last: prev, si: Ghost(si) };
            }
            proof {
                assert(i + rsize <= body@.len());
            }
            let slice = slice_subrange(body.as_slice(), i as usize, body.len());
            let parsed = GenericBTreeRecord::<KEY_SIZE, VALUE_SIZE>::from_bytes(slice);
            let record = match parsed {
                Some(record) => record,
                None => {
                    proof {
                        assert(false);
                    }
                    return ScanOutcome::End { last: None, si: Ghost(si) };
                },
            };
            proof {
                assert(si * spec_record_shift(KEY_SIZE as nat, VALUE_SIZE as nat) == i as int);
                assert(slice@ == body@.subrange(
                    si * spec_record_shift(KEY_SIZE as nat, VALUE_SIZE as nat),
                    body@.len() as int,
                ));
                Self::lemma_suffix_slot(body@, si, slice@);
            }
            match &record.key {
                None => {
                    return ScanOutcome::EmptySlot { offset: i, si: Ghost(si) };
                },
                Some(record_key) => {
                    let cmp = compare_keys(key, record_key);
                    if cmp == 0 {
                        return ScanOutcome::Found { offset: i, record, si: Ghost(si) };
                    }
                    if cmp < 0 {
                        return ScanOutcome::Greater { offset: i, record, si: Ghost(si) };
                    }
                    prev = Some((i, record));
                    proof {
                        // The walked-over record's key is strictly smaller,
                        // so the specification walk steps past it too.
                        let slot = Self::spec_slot_of(body@, si);
                        assert(record_key@ == slot.subrange(5, 5 + KEY_SIZE));
                        assert(Self::spec_scan_from(body@, key@, si, (body@.len() + 1 - si) as nat)
                            == Self::spec_scan_from(
                            body@,
                            key@,
                            si + 1,
                            (body@.len() - si) as nat,
                        ));
                    }
                    i = i + shift;
                    proof {
                        assert((si + 1) * sshift == si * sshift + sshift) by (nonlinear_arith);
                        si = si + 1;
                    }
                },
            }
        }
    }

    /// Parsing the suffix slice that starts at slot `si` reads exactly
    /// slot `si`'s bytes.
    proof fn lemma_suffix_slot(body: Seq<u8>, si: int, suffix: Seq<u8>)
        requires
            0 <= si,
            si * spec_record_shift(KEY_SIZE as nat, VALUE_SIZE as nat) + spec_record_size(
                KEY_SIZE as nat,
                VALUE_SIZE as nat,
            ) <= body.len(),
            suffix == body.subrange(
                si * spec_record_shift(KEY_SIZE as nat, VALUE_SIZE as nat),
                body.len() as int,
            ),
        ensures
            ({
                let slot = Self::spec_slot_of(body, si);
                let kk = KEY_SIZE as int;
                let vv = VALUE_SIZE as int;
                let shift = spec_record_shift(KEY_SIZE as nat, VALUE_SIZE as nat);
                let rsize = spec_record_size(KEY_SIZE as nat, VALUE_SIZE as nat);
                &&& suffix.len() >= rsize
                &&& suffix[4] == slot[4]
                &&& suffix.subrange(0, 4) == slot.subrange(0, 4)
                &&& suffix.subrange(5, 5 + kk) == slot.subrange(5, 5 + kk)
                &&& suffix.subrange(5 + kk, 5 + kk + vv) == slot.subrange(5 + kk, 5 + kk + vv)
                &&& suffix.subrange(shift, rsize) == slot.subrange(shift, rsize)
            }),
    {
        let slot = Self::spec_slot_of(body, si);
        let kk = KEY_SIZE as int;
        let vv = VALUE_SIZE as int;
        let shift = spec_record_shift(KEY_SIZE as nat, VALUE_SIZE as nat);
        let rsize = spec_record_size(KEY_SIZE as nat, VALUE_SIZE as nat);
        assert(suffix.subrange(0, 4) =~= slot.subrange(0, 4));
        assert(suffix.subrange(5, 5 + kk) =~= slot.subrange(5, 5 + kk));
        assert(suffix.subrange(5 + kk, 5 + kk + vv) =~= slot.subrange(5 + kk, 5 + kk + vv));
        assert(suffix.subrange(shift, rsize) =~= slot.subrange(shift, rsize));
    }
}


impl<const KEY_SIZE: usize, const VALUE_SIZE: usize> GenericBTree<KEY_SIZE, VALUE_SIZE> {
    /// The bytes of a fresh leaf record: key and value set, no child
    /// addresses.
    pub open spec fn spec_leaf_record_bytes(key: Seq<u8>, value: Seq<u8>) -> Seq<u8> {
        spec_zeros(4) + seq![6u8] + key + value + spec_zeros(4)
    }

    /// Record bytes `s` with the value field replaced by `value`, the
    /// value flag set, and every other field kept.
    pub open spec fn spec_value_updated_bytes(s: Seq<u8>, value: Seq<u8>) -> Seq<u8> {
        let key_set = GenericBTreeRecord::<KEY_SIZE, VALUE_SIZE>::spec_key_set(s);
        let left_set = GenericBTreeRecord::<KEY_SIZE, VALUE_SIZE>::spec_left_set(s);
        let right_set = GenericBTreeRecord::<KEY_SIZE, VALUE_SIZE>::spec_right_set(s);
        (if left_set {
            s.subrange(0, 4)
        } else {
            spec_zeros(4)
        }) + seq![
            (((if key_set { 2u8 } else { 0u8 }) + 4u8) + ((if left_set { 8u8 } else { 0u8 }) + (
            if right_set { 1u8 } else { 0u8 }))) as u8,
        ] + (if key_set {
            s.subrange(5, 5 + KEY_SIZE)
        } else {
            spec_zeros(KEY_SIZE as nat)
        }) + value + (if right_set {
            s.subrange(
                spec_record_shift(KEY_SIZE as nat, VALUE_SIZE as nat),
                spec_record_size(KEY_SIZE as nat, VALUE_SIZE as nat),
            )
        } else {
            spec_zeros(4)
        })
    }

    /// The pages reachable from `p` form a well-founded search tree:
    /// every child address stored in one of `p`'s slots points at a
    /// strictly larger page number inside the container, and the
    /// subtree there does the same.  Pages the tree never reaches —
    /// other trees, books, directories — are unconstrained.
    pub open spec fn spec_subtree_ok(disk: Seq<u8>, page_size: u64, p: int) -> bool
        decreases page_count(disk.len() as int, page_size) - p,
    {
        let shift = spec_record_shift(KEY_SIZE as nat, VALUE_SIZE as nat);
        let rsize = spec_record_size(KEY_SIZE as nat, VALUE_SIZE as nat);
        let count = page_count(disk.len() as int, page_size);
        &&& 0 <= p < count
        &&& forall|i: int|
            0 <= i && i * shift + rsize <= page_size ==> {
                let s = #[trigger] Self::spec_slot_of(page_body(disk, page_size, p), i);
                &&& (GenericBTreeRecord::<KEY_SIZE, VALUE_SIZE>::spec_left_set(s) ==> {
                    let l = spec_u32_from_be_bytes(s.subrange(0, 4)) as int;
                    p < l < count && Self::spec_subtree_ok(disk, page_size, l)
                })
                &&& (GenericBTreeRecord::<KEY_SIZE, VALUE_SIZE>::spec_right_set(s) ==> {
                    let rr = spec_u32_from_be_bytes(s.subrange(shift, rsize)) as int;
                    p < rr < count && Self::spec_subtree_ok(disk, page_size, rr)
                })
            }
    }
}


impl<const KEY_SIZE: usize, const VALUE_SIZE: usize> GenericBTree<KEY_SIZE, VALUE_SIZE> {
    /// Appending one fresh zeroed page to an aligned container keeps it
    /// aligned, adds one to the page count, and the new page's body is
    /// all zeros.
    proof fn lemma_fresh_page_appended(disk: Seq<u8>, page_size: u64)
        requires
            disk_aligned(disk, page_size),
        ensures
            ({
                let count = page_count(disk.len() as int, page_size);
                let grown = disk + spec_new_page_header(None).spec_bytes() + spec_zeros(
                    page_size as nat,
                );
                &&& grown.len() == disk.len() + page_stride(page_size)
                &&& disk_aligned(grown, page_size)
                &&& page_count(grown.len() as int, page_size) == count + 1
                &&& page_body(grown, page_size, count) == spec_zeros(page_size as nat)
            }),
    {
        let count = page_count(disk.len() as int, page_size);
        let grown = disk + spec_new_page_header(None).spec_bytes() + spec_zeros(page_size as nat);
        vstd::bytes::lemma_auto_spec_u32_to_from_le_bytes();
        assert(spec_new_page_header(None).spec_bytes().len() == PAGE_HEADER_LEN);
        lemma_page_layout(page_size, count);
        lemma_page_count_exact(page_size, count + 1);
        assert(grown.len() == page_pos(page_size, count + 1));
        assert(page_body(grown, page_size, count) =~= spec_zeros(page_size as nat));
    }

    /// A record write wholly inside an existing page's body keeps the
    /// container's length, alignment and page count, and the body of
    /// every other page.
    proof fn lemma_record_write_keeps(
        disk: Seq<u8>,
        page_size: u64,
        curr: int,
        offset: int,
        bytes: Seq<u8>,
        other: int,
    )
        requires
            disk_aligned(disk, page_size),
            0 <= curr < page_count(disk.len() as int, page_size),
            0 <= offset,
            offset + bytes.len() <= page_size,
            0 <= other < page_count(disk.len() as int, page_size),
            other != curr,
        ensures
            ({
                let disk2 = write_model(disk, body_pos(page_size, curr) + offset, bytes);
                &&& disk2.len() == disk.len()
                &&& disk_aligned(disk2, page_size)
                &&& page_count(disk2.len() as int, page_size) == page_count(
                    disk.len() as int,
                    page_size,
                )
                &&& page_body(disk2, page_size, other) == page_body(disk, page_size, other)
            }),
    {
        let count = page_count(disk.len() as int, page_size);
        let disk2 = write_model(disk, body_pos(page_size, curr) + offset, bytes);
        lemma_page_layout(page_size, curr);
        if curr + 1 < count {
            lemma_page_ranges_disjoint(page_size, curr + 1, count);
            lemma_mul_nonnegative(curr + 1, page_stride(page_size));
        }
        lemma_mul_nonnegative(curr, page_stride(page_size));
        assert(body_pos(page_size, curr) + offset + bytes.len() <= disk.len());
        lemma_page_layout(page_size, other);
        lemma_mul_nonnegative(other, page_stride(page_size));
        if other < curr {
            lemma_page_ranges_disjoint(page_size, other, curr);
        } else {
            lemma_page_ranges_disjoint(page_size, curr, other);
        }
        lemma_write_frame(disk, body_pos(page_size, curr) + offset, bytes, body_pos(page_size, other), page_size as int);
    }

    /// Insert `value` under `key`.
    ///
    /// Walks node pages from the root: an empty slot takes a fresh
    /// record, an equal key is updated in place, a greater key sends
    /// the search into that record's left subtree, and a page whose
    /// keys are all smaller continues right or grows the page, fresh
    /// child pages being allocated where a subtree is missing.  The
    /// whole walk is pinned down: the final container image is exactly
    /// the one [`Self::spec_insert_from`] reaches from the root, the
    /// container grows by one page stride or not at all, and the two
    /// root-slot base cases are also stated directly.
    #[verifier::rlimit(100)]
    #[verifier::spinoff_prover]
    pub fn insert<T: FilesystemIo>(
        &self,
        w: &mut FilesystemWorker<T>,
        key: &Vec<u8>,
        value: &Vec<u8>,
    )
        requires
            old(w).wf(),
            old(w).header().page_size == self.spec_page_size(),
            key@.len() == KEY_SIZE,
            value@.len() == VALUE_SIZE,
            KEY_SIZE + VALUE_SIZE + 9 <= usize::MAX,
            self.spec_page_size() >= spec_record_size(KEY_SIZE as nat, VALUE_SIZE as nat),
            self.spec_page_size() <= usize::MAX,
            disk_aligned(old(w).disk(), self.spec_page_size()),
            self.spec_entry_page() < page_count(old(w).disk().len() as int, self.spec_page_size()),
            page_count(old(w).disk().len() as int, self.spec_page_size()) + 1 <= u32::MAX,
            page_pos(
                self.spec_page_size(),
                page_count(old(w).disk().len() as int, self.spec_page_size()) + 1,
            ) <= u64::MAX,
            Self::spec_subtree_ok(
                old(w).disk(),
                self.spec_page_size(),
                self.spec_entry_page() as int,
            ),
        ensures
            final(w).wf(),
            final(w).header() == old(w).header(),
            ({
                let ps = self.spec_page_size();
                let s0 = Self::spec_slot_of(
                    page_body(old(w).disk(), ps, self.spec_entry_page() as int),
                    0,
                );
                !GenericBTreeRecord::<KEY_SIZE, VALUE_SIZE>::spec_key_set(s0) ==> final(w).disk()
                    == spec_write_page_disk(
                    old(w).disk(),
                    ps,
                    self.spec_entry_page() as int,
                    0,
                    Self::spec_leaf_record_bytes(key@, value@),
                )
            }),
            ({
                let ps = self.spec_page_size();
                let s0 = Self::spec_slot_of(
                    page_body(old(w).disk(), ps, self.spec_entry_page() as int),
                    0,
                );
                GenericBTreeRecord::<KEY_SIZE, VALUE_SIZE>::spec_key_set(s0) && s0.subrange(
                    5,
                    5 + KEY_SIZE,
                ) == key@ ==> final(w).disk() == spec_write_page_disk(
                    old(w).disk(),
                    ps,
                    self.spec_entry_page() as int,
                    0,
                    Self::spec_value_updated_bytes(s0, value@),
                )
            }),
            Self::spec_insert_from(
                old(w).disk(),
                self.spec_page_size(),
                self.spec_entry_page() as int,
                key@,
                value@,
                (page_count(old(w).disk().len() as int, self.spec_page_size()) + 2) as nat,
            ) == Some(final(w).disk()),
            final(w).disk().len() == old(w).disk().len() || final(w).disk().len() == old(
                w,
            ).disk().len() + page_stride(self.spec_page_size()),
    {
        let ps = self.page_size;
        let shift: u64 = KEY_SIZE as u64 + VALUE_SIZE as u64 + 5;
        let rsize: u64 = shift + 4;
        let ghost sshift = spec_record_shift(KEY_SIZE as nat, VALUE_SIZE as nat);
        let ghost srsize = spec_record_size(KEY_SIZE as nat, VALUE_SIZE as nat);
        let ghost disk0 = old(w).disk();
        let ghost count0 = page_count(disk0.len() as int, ps);
        let ghost entry = self.spec_entry_page() as int;
        let ghost s0 = Self::spec_slot_of(page_body(disk0, ps, entry), 0);
        let ghost cond_a = !GenericBTreeRecord::<KEY_SIZE, VALUE_SIZE>::spec_key_set(s0);
        let ghost cond_b = GenericBTreeRecord::<KEY_SIZE, VALUE_SIZE>::spec_key_set(s0)
            && s0.subrange(5, 5 + KEY_SIZE) == key@;

        proof {
            lemma_mul_inequality(2, count0 + 1, page_stride(ps));
        }

        let mut curr: u32 = self.entry_page;
        let ghost mut fresh_mode: bool = false;
        let ghost fuel_total: int = count0 + 2;
        let ghost mut steps: int = 0;

        loop
            invariant
                w.wf(),
                w.header() == old(w).header(),
                w.header().page_size == ps,
                self.spec_page_size() == ps,
                self.spec_entry_page() == entry,
                key@.len() == KEY_SIZE,
                value@.len() == VALUE_SIZE,
                KEY_SIZE + VALUE_SIZE + 9 <= usize::MAX,
                shift == sshift,
                rsize == srsize,
                sshift == spec_record_shift(KEY_SIZE as nat, VALUE_SIZE as nat),
                srsize == spec_record_size(KEY_SIZE as nat, VALUE_SIZE as nat),
                ps >= srsize,
                ps <= usize::MAX,
                ps + rsize <= u64::MAX,
                disk0 == old(w).disk(),
                count0 == page_count(disk0.len() as int, ps),
                0 <= entry < count0,
                count0 + 1 <= u32::MAX,
                page_pos(ps, count0 + 1) <= u64::MAX,
                s0 == Self::spec_slot_of(page_body(disk0, ps, entry), 0),
                cond_a == !GenericBTreeRecord::<KEY_SIZE, VALUE_SIZE>::spec_key_set(s0),
                cond_b == (GenericBTreeRecord::<KEY_SIZE, VALUE_SIZE>::spec_key_set(s0)
                    && s0.subrange(5, 5 + KEY_SIZE) == key@),
                !fresh_mode ==> {
                    &&& w.disk() == disk0
                    &&& (curr as int) < count0
                    &&& Self::spec_subtree_ok(disk0, ps, curr as int)
                    &&& disk_aligned(disk0, ps)
                },
                fresh_mode ==> {
                    &&& curr as int == count0
                    &&& page_count(w.disk().len() as int, ps) == count0 + 1
                    &&& disk_aligned(w.disk(), ps)
                    &&& page_body(w.disk(), ps, curr as int) == spec_zeros(ps as nat)
                    &&& w.disk().len() == disk0.len() + page_stride(ps)
                },
                (cond_a || cond_b) ==> (!fresh_mode && w.disk() == disk0 && curr as int == entry),
                fuel_total == count0 + 2,
                0 <= steps,
                Self::spec_insert_from(disk0, ps, entry, key@, value@, fuel_total as nat)
                    == Self::spec_insert_from(
                    w.disk(),
                    ps,
                    curr as int,
                    key@,
                    value@,
                    (fuel_total - steps) as nat,
                ),
                !fresh_mode ==> fuel_total - steps >= count0 - curr + 2,
                fresh_mode ==> fuel_total - steps >= 1,
            decreases (if fresh_mode { 0int } else { 1int }), (if fresh_mode { 0int } else { count0 - curr }),
        {
            let ghost cur_disk = w.disk();
            proof {
                if !fresh_mode {
                    lemma_mul_inequality(curr as int + 1, count0 + 1, page_stride(ps));
                }
            }
            let response = w.execute(
                FilesystemTask::ReadPage { page_number: curr, offset: 0, length: ps },
            );
            let body = match response {
                FilesystemTaskResponse::Bytes(b) => b,
                _ => {
                    proof {
                        assert(false);
                    }
                    Vec::new()
                },
            };
            proof {
                assert(body@ =~= page_body(w.disk(), ps, curr as int));
            }
            let outcome = Self::scan_page(&body, key);
            match outcome {
                ScanOutcome::EmptySlot { offset, si } => {
                    let record = GenericBTreeRecord::<KEY_SIZE, VALUE_SIZE>::new(
                        slice_to_vec(key.as_slice()),
                        slice_to_vec(value.as_slice()),
                    );
                    let bytes = record.to_bytes();
                    proof {
                        assert(bytes@ =~= Self::spec_leaf_record_bytes(key@, value@));
                        if cond_a || cond_b {
                            if si@ != 0 {
                                assert(Self::spec_slot0_passed(body@, key@));
                                assert(false);
                            }
                            lemma_mul_basics(sshift);
                            assert(offset == 0);
                            if cond_b {
                                assert(GenericBTreeRecord::<KEY_SIZE, VALUE_SIZE>::spec_key_set(
                                    s0,
                                ));
                                assert(false);
                            }
                        }
                    }
                    proof {
                        assert(Self::spec_insert_step(cur_disk, ps, curr as int, key@, value@)
                            == (SpecStep::Done {
                            disk: spec_write_page_disk(cur_disk, ps, curr as int, offset, bytes@),
                        }));
                    }
                    w.execute(
                        FilesystemTask::WritePage { page_number: curr, offset, bytes },
                    );
                    proof {
                        Self::lemma_close_done(
                            disk0,
                            cur_disk,
                            w.disk(),
                            ps,
                            entry,
                            curr as int,
                            key@,
                            value@,
                            fuel_total,
                            steps,
                        );
                        Self::lemma_terminal_len(cur_disk, ps, curr as int, offset, bytes@);
                    }
                    return;
                },
                ScanOutcome::Found { offset, record, si } => {
                    let mut record = record;
                    record.value = Some(slice_to_vec(value.as_slice()));
                    let bytes = record.to_bytes();
                    proof {
                        let slot = Self::spec_slot_of(body@, si@);
                        // The rewritten record carries the old fields
                        // byte for byte, with only the value replaced.
                        if record.left_addr is Some {
                            lemma_u32_be_bytes_inverse(slot.subrange(0, 4));
                        }
                        if record.right_addr is Some {
                            lemma_u32_be_bytes_inverse(slot.subrange(sshift, srsize));
                        }
                        assert(bytes@ =~= Self::spec_value_updated_bytes(slot, value@));
                        assert(Self::spec_insert_step(cur_disk, ps, curr as int, key@, value@)
                            == (SpecStep::Done {
                            disk: spec_write_page_disk(cur_disk, ps, curr as int, offset, bytes@),
                        }));
                        if cond_a || cond_b {
                            if si@ != 0 {
                                assert(Self::spec_slot0_passed(body@, key@));
                                assert(false);
                            }
                            lemma_mul_basics(sshift);
                            assert(offset == 0);
                            assert(slot == s0);
                            if cond_a {
                                assert(false);
                            }
                        }
                    }
                    w.execute(
                        FilesystemTask::WritePage { page_number: curr, offset, bytes },
                    );
                    proof {
                        Self::lemma_close_done(
                            disk0,
                            cur_disk,
                            w.disk(),
                            ps,
                            entry,
                            curr as int,
                            key@,
                            value@,
                            fuel_total,
                            steps,
                        );
                        Self::lemma_terminal_len(cur_disk, ps, curr as int, offset, bytes@);
                    }
                    return;
                },
                ScanOutcome::Greater { offset, record, si } => {
                    proof {
                        if fresh_mode {
                            let slot = Self::spec_slot_of(body@, si@);
                            assert(slot[4] == spec_zeros(ps as nat)[si@ * sshift + 4]);
                            assert(!(0u8 & 2u8 == 2u8)) by (bit_vector);
                            assert(false);
                        }
                        if cond_a || cond_b {
                            if si@ != 0 {
                                assert(Self::spec_slot0_passed(body@, key@));
                                assert(false);
                            } else {
                                let k = record.key->0;
                                assert(Self::spec_slot_of(body@, 0) == s0);
                                if cond_b {
                                    assert(k@ == key@);
                                    lemma_key_lt_irrefl(key@);
                                }
                                assert(false);
                            }
                        }
                    }
                    match record.left_addr {
                        Some(left) => {
                            proof {
                                let slot = Self::spec_slot_of(
                                    page_body(disk0, ps, curr as int),
                                    si@,
                                );
                                assert(GenericBTreeRecord::<
                                    KEY_SIZE,
                                    VALUE_SIZE,
                                >::spec_left_set(slot));
                                assert((curr as int) < left < count0 && Self::spec_subtree_ok(
                                    disk0,
                                    ps,
                                    left as int,
                                ));
                                assert(Self::spec_insert_step(
                                    cur_disk,
                                    ps,
                                    curr as int,
                                    key@,
                                    value@,
                                ) == (SpecStep::Descend { disk: cur_disk, next: left as int }));
                                Self::lemma_close_descend(
                                    disk0,
                                    cur_disk,
                                    cur_disk,
                                    ps,
                                    entry,
                                    curr as int,
                                    left as int,
                                    key@,
                                    value@,
                                    fuel_total,
                                    steps,
                                );
                                steps = steps + 1;
                            }
                            curr = left;
                        },
                        None => {
                            proof {
                                lemma_page_layout(ps, count0);
                                lemma_mul_nonnegative(count0, page_stride(ps));
                            }
                            let response = w.execute(
                                FilesystemTask::CreatePage { parent_page_number: None },
                            );
                            let fresh = match response {
                                FilesystemTaskResponse::PageCreated(n) => n,
                                _ => {
                                    proof {
                                        assert(false);
                                    }
                                    0
                                },
                            };
                            proof {
                                Self::lemma_fresh_page_appended(disk0, ps);
                            }
                            let mut record = record;
                            record.left_addr = Some(fresh);
                            let bytes = record.to_bytes();
                            proof {
                                Self::lemma_record_write_keeps(
                                    w.disk(),
                                    ps,
                                    curr as int,
                                    offset as int,
                                    bytes@,
                                    count0,
                                );
                                let slot = Self::spec_slot_of(body@, si@);
                                if record.right_addr is Some {
                                    lemma_u32_be_bytes_inverse(slot.subrange(sshift, srsize));
                                }
                                assert(bytes@ =~= Self::spec_left_linked_bytes(
                                    slot,
                                    fresh as u32,
                                ));
                            }
                            w.execute(
                                FilesystemTask::WritePage { page_number: curr, offset, bytes },
                            );
                            proof {
                                assert(Self::spec_insert_step(
                                    cur_disk,
                                    ps,
                                    curr as int,
                                    key@,
                                    value@,
                                ) == (SpecStep::Descend { disk: w.disk(), next: fresh as int }));
                                Self::lemma_close_descend(
                                    disk0,
                                    cur_disk,
                                    w.disk(),
                                    ps,
                                    entry,
                                    curr as int,
                                    fresh as int,
                                    key@,
                                    value@,
                                    fuel_total,
                                    steps,
                                );
                                steps = steps + 1;
                            }
                            curr = fresh;
                            proof {
                                fresh_mode = true;
                            }
                        },
                    }
                },
                ScanOutcome::End { last, si } => {
                    match last {
                        None => {
                            proof {
                                assert(body@.len() == ps);
                                assert(false);
                            }
                            return;
                        },
                        Some((prev_offset, prev_record)) => {
                            proof {
                                if fresh_mode {
                                    let slot = Self::spec_slot_of(body@, si@ - 1);
                                    assert(slot[4] == spec_zeros(ps as nat)[(si@ - 1) * sshift
                                        + 4]);
                                    assert(!(0u8 & 2u8 == 2u8)) by (bit_vector);
                                    assert(false);
                                }
                                if cond_a || cond_b {
                                    assert(Self::spec_slot0_passed(body@, key@));
                                    assert(false);
                                }
                            }
                            match prev_record.right_addr {
                                Some(right) => {
                                    proof {
                                        let slot = Self::spec_slot_of(
                                            page_body(disk0, ps, curr as int),
                                            si@ - 1,
                                        );
                                        assert(GenericBTreeRecord::<
                                            KEY_SIZE,
                                            VALUE_SIZE,
                                        >::spec_right_set(slot));
                                        assert((curr as int) < right < count0
                                            && Self::spec_subtree_ok(disk0, ps, right as int));
                                        assert(Self::spec_insert_step(
                                            cur_disk,
                                            ps,
                                            curr as int,
                                            key@,
                                            value@,
                                        ) == (SpecStep::Descend {
                                            disk: cur_disk,
                                            next: right as int,
                                        }));
                                        Self::lemma_close_descend(
                                            disk0,
                                            cur_disk,
                                            cur_disk,
                                            ps,
                                            entry,
                                            curr as int,
                                            right as int,
                                            key@,
                                            value@,
                                            fuel_total,
                                            steps,
                                        );
                                        steps = steps + 1;
                                    }
                                    curr = right;
                                },
                                None => {
                                    if prev_offset <= ps - shift && ps - shift - prev_offset
                                        >= shift {
                                        let record = GenericBTreeRecord::<
                                            KEY_SIZE,
                                            VALUE_SIZE,
                                        >::new(
                                            slice_to_vec(key.as_slice()),
                                            slice_to_vec(value.as_slice()),
                                        );
                                        let bytes = record.to_bytes();
                                        proof {
                                            assert(bytes@ =~= Self::spec_leaf_record_bytes(
                                                key@,
                                                value@,
                                            ));
                                            assert(si@ * sshift == (si@ - 1) * sshift + sshift)
                                                by (nonlinear_arith);
                                            assert((si@ + 1) * sshift == (si@ - 1) * sshift + 2
                                                * sshift) by (nonlinear_arith);
                                            assert(Self::spec_insert_step(
                                                cur_disk,
                                                ps,
                                                curr as int,
                                                key@,
                                                value@,
                                            ) == (SpecStep::Done {
                                                disk: spec_write_page_disk(
                                                    cur_disk,
                                                    ps,
                                                    curr as int,
                                                    (prev_offset + shift) as u64,
                                                    bytes@,
                                                ),
                                            }));
                                        }
                                        w.execute(
                                            FilesystemTask::WritePage {
                                                page_number: curr,
                                                offset: prev_offset + shift,
                                                bytes,
                                            },
                                        );
                                        proof {
                                            Self::lemma_close_done(
                                                disk0,
                                                cur_disk,
                                                w.disk(),
                                                ps,
                                                entry,
                                                curr as int,
                                                key@,
                                                value@,
                                                fuel_total,
                                                steps,
                                            );
                                            Self::lemma_terminal_len(
                                                cur_disk,
                                                ps,
                                                curr as int,
                                                (prev_offset + shift) as u64,
                                                bytes@,
                                            );
                                        }
                                        return;
                                    } else {
                                        proof {
                                            lemma_page_layout(ps, count0);
                                            lemma_mul_nonnegative(count0, page_stride(ps));
                                        }
                                        let response = w.execute(
                                            FilesystemTask::CreatePage {
                                                parent_page_number: None,
                                            },
                                        );
                                        let fresh = match response {
                                            FilesystemTaskResponse::PageCreated(n) => n,
                                            _ => {
                                                proof {
                                                    assert(false);
                                                }
                                                0
                                            },
                                        };
                                        proof {
                                            Self::lemma_fresh_page_appended(disk0, ps);
                                        }
                                        let mut prev_record = prev_record;
                                        prev_record.right_addr = Some(fresh);
                                        let bytes = prev_record.to_bytes();
                                        proof {
                                            Self::lemma_record_write_keeps(
                                                w.disk(),
                                                ps,
                                                curr as int,
                                                prev_offset as int,
                                                bytes@,
                                                count0,
                                            );
                                            let slot = Self::spec_slot_of(body@, si@ - 1);
                                            if prev_record.left_addr is Some {
                                                lemma_u32_be_bytes_inverse(slot.subrange(0, 4));
                                            }
                                            assert(bytes@ =~= Self::spec_right_linked_bytes(
                                                slot,
                                                fresh as u32,
                                            ));
                                            assert(si@ * sshift == (si@ - 1) * sshift + sshift)
                                                by (nonlinear_arith);
                                            assert((si@ + 1) * sshift == (si@ - 1) * sshift + 2
                                                * sshift) by (nonlinear_arith);
                                        }
                                        w.execute(
                                            FilesystemTask::WritePage {
                                                page_number: curr,
                                                offset: prev_offset,
                                                bytes,
                                            },
                                        );
                                        proof {
                                            assert(Self::spec_insert_step(
                                                cur_disk,
                                                ps,
                                                curr as int,
                                                key@,
                                                value@,
                                            ) == (SpecStep::Descend {
                                                disk: w.disk(),
                                                next: fresh as int,
                                            }));
                                            Self::lemma_close_descend(
                                                disk0,
                                                cur_disk,
                                                w.disk(),
                                                ps,
                                                entry,
                                                curr as int,
                                                fresh as int,
                                                key@,
                                                value@,
                                                fuel_total,
                                                steps,
                                            );
                                            steps = steps + 1;
                                        }
                                        curr = fresh;
                                        proof {
                                            fresh_mode = true;
                                        }
                                    }
                                },
                            }
                        },
                    }
                },
            }
        }
    }
}


impl<const KEY_SIZE: usize, const VALUE_SIZE: usize> GenericBTree<KEY_SIZE, VALUE_SIZE> {
    /// The key/value pairs a node page stores from slot `i` on, in slot
    /// order, up to the first slot without a key.
    pub open spec fn spec_page_items_from(body: Seq<u8>, i: int, fuel: nat) -> Seq<(Seq<u8>, Seq<u8>)>
        decreases fuel,
    {
        let shift = spec_record_shift(KEY_SIZE as nat, VALUE_SIZE as nat);
        let rsize = spec_record_size(KEY_SIZE as nat, VALUE_SIZE as nat);
        if fuel == 0 {
            Seq::empty()
        } else if i * shift + rsize <= body.len() && GenericBTreeRecord::<
            KEY_SIZE,
            VALUE_SIZE,
        >::spec_key_set(Self::spec_slot_of(body, i)) {
            seq![
                (
                    Self::spec_slot_of(body, i).subrange(5, 5 + KEY_SIZE),
                    Self::spec_slot_of(body, i).subrange(5 + KEY_SIZE, 5 + KEY_SIZE + VALUE_SIZE),
                ),
            ] + Self::spec_page_items_from(body, i + 1, (fuel - 1) as nat)
        } else {
            Seq::empty()
        }
    }

    /// All key/value pairs a node page stores, in slot order.
    pub open spec fn spec_page_items(body: Seq<u8>) -> Seq<(Seq<u8>, Seq<u8>)> {
        Self::spec_page_items_from(body, 0, body.len() + 1)
    }

    /// A single-leaf node: a fresh record followed by zeros stores
    /// exactly its one pair, with both child links unset.
    proof fn lemma_single_leaf_items(key: Seq<u8>, value: Seq<u8>, body: Seq<u8>)
        requires
            key.len() == KEY_SIZE,
            value.len() == VALUE_SIZE,
            body.len() >= spec_record_size(KEY_SIZE as nat, VALUE_SIZE as nat),
            body == Self::spec_leaf_record_bytes(key, value) + spec_zeros(
                (body.len() - spec_record_size(KEY_SIZE as nat, VALUE_SIZE as nat)) as nat,
            ),
        ensures
            Self::spec_page_items(body) == seq![(key, value)],
            !GenericBTreeRecord::<KEY_SIZE, VALUE_SIZE>::spec_left_set(Self::spec_slot_of(body, 0)),
            !GenericBTreeRecord::<KEY_SIZE, VALUE_SIZE>::spec_right_set(
                Self::spec_slot_of(body, 0),
            ),
    {
        let shift = spec_record_shift(KEY_SIZE as nat, VALUE_SIZE as nat);
        let rsize = spec_record_size(KEY_SIZE as nat, VALUE_SIZE as nat);
        let slot0 = Self::spec_slot_of(body, 0);
        lemma_mul_basics(shift);
        assert(slot0 =~= Self::spec_leaf_record_bytes(key, value));
        assert(slot0[4] == 6u8);
        assert(6u8 & 2u8 == 2u8 && !(6u8 & 8u8 == 8u8) && !(6u8 & 1u8 == 1u8)) by (bit_vector);
        assert(slot0.subrange(5, 5 + KEY_SIZE) =~= key);
        assert(slot0.subrange(5 + KEY_SIZE, 5 + KEY_SIZE + VALUE_SIZE) =~= value);
        // Slot 1, if it fits at all, starts with an unset key flag: its
        // flag byte lies in the zero tail.
        assert(1 * shift == shift) by (nonlinear_arith);
        if 1 * shift + rsize <= body.len() {
            let slot1 = Self::spec_slot_of(body, 1);
            assert(slot1[4] == body[shift + 4]);
            assert(shift + 4 == rsize);
            assert(body[rsize] == 0u8);
            assert(!(0u8 & 2u8 == 2u8)) by (bit_vector);
        }
        assert(Self::spec_page_items_from(body, 1, body.len() as nat) =~= Seq::<
            (Seq<u8>, Seq<u8>),
        >::empty());
        assert(Self::spec_page_items_from(body, 0, (body.len() + 1) as nat) =~= seq![
            (key, value),
        ]);
        assert(Self::spec_page_items(body) =~= seq![(key, value)]);
    }

    /// Law: the first insert into a tree whose root node is empty
    /// leaves a single-leaf root.  An in-order traversal of the tree is
    /// then the root's items — there are no child links to follow — so
    /// it encounters the inserted pair exactly once.
    pub proof fn lemma_first_insert_traversal(
        disk: Seq<u8>,
        page_size: u64,
        entry: int,
        key: Seq<u8>,
        value: Seq<u8>,
    )
        requires
            key.len() == KEY_SIZE,
            value.len() == VALUE_SIZE,
            disk_aligned(disk, page_size),
            0 <= entry < page_count(disk.len() as int, page_size),
            page_size >= spec_record_size(KEY_SIZE as nat, VALUE_SIZE as nat),
            forall|si: int|
                0 <= si && si * spec_record_shift(KEY_SIZE as nat, VALUE_SIZE as nat)
                    + spec_record_size(KEY_SIZE as nat, VALUE_SIZE as nat) <= page_size
                    ==> !GenericBTreeRecord::<KEY_SIZE, VALUE_SIZE>::spec_key_set(
                    #[trigger] Self::spec_slot_of(page_body(disk, page_size, entry), si),
                ),
        ensures
            ({
                let disk2 = spec_write_page_disk(
                    disk,
                    page_size,
                    entry,
                    0,
                    Self::spec_leaf_record_bytes(key, value),
                );
                let body2 = page_body(disk2, page_size, entry);
                &&& Self::spec_page_items(body2) == seq![(key, value)]
                &&& !GenericBTreeRecord::<KEY_SIZE, VALUE_SIZE>::spec_left_set(
                    Self::spec_slot_of(body2, 0),
                )
                &&& !GenericBTreeRecord::<KEY_SIZE, VALUE_SIZE>::spec_right_set(
                    Self::spec_slot_of(body2, 0),
                )
            }),
    {
        let shift = spec_record_shift(KEY_SIZE as nat, VALUE_SIZE as nat);
        let rsize = spec_record_size(KEY_SIZE as nat, VALUE_SIZE as nat);
        let body = page_body(disk, page_size, entry);
        let leaf = Self::spec_leaf_record_bytes(key, value);
        let disk2 = spec_write_page_disk(disk, page_size, entry, 0, leaf);
        let body2 = page_body(disk2, page_size, entry);
        crate::pages::book::lemma_cell_in_range(disk, page_size, entry);
        lemma_page_layout(page_size, entry);
        assert(leaf.len() == rsize);
        assert(disk2 == write_model(disk, body_pos(page_size, entry), leaf));
        assert(body_pos(page_size, entry) + leaf.len() <= disk.len());
        assert(disk2.len() == disk.len());
        // The fresh leaf occupies the first slot; everything after it
        // keeps the old body's bytes.
        assert forall|j: int| 0 <= j < page_size implies body2[j] == (if j < rsize {
            leaf[j]
        } else {
            body[j]
        }) by {
            if j < rsize {
                assert(body2[j] == leaf[j]);
            } else {
                assert(body2[j] == body[j]);
            }
        }
        let slot0 = Self::spec_slot_of(body2, 0);
        lemma_mul_basics(shift);
        assert(slot0 =~= leaf);
        assert(slot0[4] == 6u8);
        assert(6u8 & 2u8 == 2u8 && !(6u8 & 8u8 == 8u8) && !(6u8 & 1u8 == 1u8)) by (bit_vector);
        assert(slot0.subrange(5, 5 + KEY_SIZE) =~= key);
        assert(slot0.subrange(5 + KEY_SIZE, 5 + KEY_SIZE + VALUE_SIZE) =~= value);
        // Slot 1, if it fits at all, keeps the old flag byte, whose
        // key bit is unset on a keyless page.
        assert(1 * shift == shift) by (nonlinear_arith);
        if 1 * shift + rsize <= body2.len() {
            let slot1 = Self::spec_slot_of(body2, 1);
            assert(slot1[4] == body2[shift + 4]);
            assert(shift + 4 == rsize);
            assert(body2[rsize] == body[rsize]);
            assert(Self::spec_slot_of(body, 1)[4] == body[rsize]);
            assert(!GenericBTreeRecord::<KEY_SIZE, VALUE_SIZE>::spec_key_set(
                Self::spec_slot_of(body, 1),
            ));
        }
        assert(Self::spec_page_items_from(body2, 1, body2.len() as nat) =~= Seq::<
            (Seq<u8>, Seq<u8>),
        >::empty());
        assert(Self::spec_page_items_from(body2, 0, (body2.len() + 1) as nat) =~= seq![
            (key, value),
        ]);
        assert(Self::spec_page_items(body2) =~= seq![(key, value)]);
    }

    /// Law: updating the key of a single-leaf root replaces exactly its
    /// value: the rewritten record is a fresh leaf for the new value,
    /// so a traversal encounters `(key, value2)` once and the old value
    /// nowhere.
    pub proof fn lemma_update_traversal(
        disk2: Seq<u8>,
        page_size: u64,
        entry: int,
        key: Seq<u8>,
        value1: Seq<u8>,
        value2: Seq<u8>,
    )
        requires
            key.len() == KEY_SIZE,
            value1.len() == VALUE_SIZE,
            value2.len() == VALUE_SIZE,
            disk_aligned(disk2, page_size),
            0 <= entry < page_count(disk2.len() as int, page_size),
            page_size >= spec_record_size(KEY_SIZE as nat, VALUE_SIZE as nat),
            page_body(disk2, page_size, entry) == Self::spec_leaf_record_bytes(key, value1)
                + spec_zeros(
                (page_size - spec_record_size(KEY_SIZE as nat, VALUE_SIZE as nat)) as nat,
            ),
        ensures
            ({
                let s0 = Self::spec_slot_of(page_body(disk2, page_size, entry), 0);
                let disk3 = spec_write_page_disk(
                    disk2,
                    page_size,
                    entry,
                    0,
                    Self::spec_value_updated_bytes(s0, value2),
                );
                let body3 = page_body(disk3, page_size, entry);
                &&& GenericBTreeRecord::<KEY_SIZE, VALUE_SIZE>::spec_key_set(s0)
                &&& s0.subrange(5, 5 + KEY_SIZE) == key
                &&& Self::spec_page_items(body3) == seq![(key, value2)]
            }),
    {
        let rsize = spec_record_size(KEY_SIZE as nat, VALUE_SIZE as nat);
        let body2 = page_body(disk2, page_size, entry);
        let s0 = Self::spec_slot_of(body2, 0);
        lemma_mul_basics(spec_record_shift(KEY_SIZE as nat, VALUE_SIZE as nat));
        assert(s0 =~= Self::spec_leaf_record_bytes(key, value1));
        assert(s0[4] == 6u8);
        assert(6u8 & 2u8 == 2u8 && !(6u8 & 8u8 == 8u8) && !(6u8 & 4u8 == 0u8) && !(6u8 & 1u8
            == 1u8)) by (bit_vector);
        assert(s0.subrange(5, 5 + KEY_SIZE) =~= key);
        // The value-updated record of a fresh leaf is the fresh leaf
        // for the new value.
        let updated = Self::spec_value_updated_bytes(s0, value2);
        assert(updated =~= Self::spec_leaf_record_bytes(key, value2));
        let disk3 = spec_write_page_disk(disk2, page_size, entry, 0, updated);
        let body3 = page_body(disk3, page_size, entry);
        crate::pages::book::lemma_cell_in_range(disk2, page_size, entry);
        lemma_page_layout(page_size, entry);
        assert(updated.len() == rsize);
        assert(disk3 == write_model(disk2, body_pos(page_size, entry), updated));
        assert(body_pos(page_size, entry) + updated.len() <= disk2.len());
        assert(disk3.len() == disk2.len());
        assert forall|j: int| 0 <= j < page_size implies body3[j] == (Self::spec_leaf_record_bytes(
            key,
            value2,
        ) + spec_zeros((page_size - rsize) as nat))[j] by {
            if j < rsize {
                assert(body3[j] == updated[j]);
            } else {
                assert(body3[j] == body2[j]);
            }
        }
        assert(body3 =~= Self::spec_leaf_record_bytes(key, value2) + spec_zeros(
            (page_size - rsize) as nat,
        ));
        Self::lemma_single_leaf_items(key, value2, body3);
    }
}


/// What the slot walk finds, at the specification level: the slot
/// index the walk stops at, or the index of the page's last record
/// (-1 when the page holds no slot at all).
pub enum SpecScan {
    EmptySlot { si: int },
    Found { si: int },
    Greater { si: int },
    End { last_si: int },
}

impl<const KEY_SIZE: usize, const VALUE_SIZE: usize> GenericBTree<KEY_SIZE, VALUE_SIZE> {
    /// The slot walk from slot `i`: stop at the first slot with no key,
    /// an equal key or a greater key; past the last slot that fits,
    /// report the final record walked over.
    pub open spec fn spec_scan_from(body: Seq<u8>, key: Seq<u8>, i: int, fuel: nat) -> SpecScan
        decreases fuel,
    {
        let shift = spec_record_shift(KEY_SIZE as nat, VALUE_SIZE as nat);
        let rsize = spec_record_size(KEY_SIZE as nat, VALUE_SIZE as nat);
        if fuel == 0 || !(i * shift + rsize <= body.len()) {
            SpecScan::End { last_si: i - 1 }
        } else {
            let s = Self::spec_slot_of(body, i);
            if !GenericBTreeRecord::<KEY_SIZE, VALUE_SIZE>::spec_key_set(s) {
                SpecScan::EmptySlot { si: i }
            } else if s.subrange(5, 5 + KEY_SIZE) == key {
                SpecScan::Found { si: i }
            } else if spec_key_lt(key, s.subrange(5, 5 + KEY_SIZE)) {
                SpecScan::Greater { si: i }
            } else {
                Self::spec_scan_from(body, key, i + 1, (fuel - 1) as nat)
            }
        }
    }

    /// The whole slot walk of a page body.
    pub open spec fn spec_scan(body: Seq<u8>, key: Seq<u8>) -> SpecScan {
        Self::spec_scan_from(body, key, 0, body.len() + 1)
    }
}


/// One outer step of the insert walk: either the final container image,
/// or the image so far and the page the walk descends into.
pub enum SpecStep {
    Done { disk: Seq<u8> },
    Descend { disk: Seq<u8>, next: int },
}

impl<const KEY_SIZE: usize, const VALUE_SIZE: usize> GenericBTree<KEY_SIZE, VALUE_SIZE> {
    /// Record bytes `s` with the left child set to `addr` and every
    /// other field kept.
    pub open spec fn spec_left_linked_bytes(s: Seq<u8>, addr: u32) -> Seq<u8> {
        let key_set = GenericBTreeRecord::<KEY_SIZE, VALUE_SIZE>::spec_key_set(s);
        let value_set = GenericBTreeRecord::<KEY_SIZE, VALUE_SIZE>::spec_value_set(s);
        let right_set = GenericBTreeRecord::<KEY_SIZE, VALUE_SIZE>::spec_right_set(s);
        spec_u32_to_be_bytes(addr) + seq![
            (((if key_set { 2u8 } else { 0u8 }) + (if value_set { 4u8 } else { 0u8 })) + (8u8 + (
            if right_set { 1u8 } else { 0u8 }))) as u8,
        ] + (if key_set {
            s.subrange(5, 5 + KEY_SIZE)
        } else {
            spec_zeros(KEY_SIZE as nat)
        }) + (if value_set {
            s.subrange(5 + KEY_SIZE, 5 + KEY_SIZE + VALUE_SIZE)
        } else {
            spec_zeros(VALUE_SIZE as nat)
        }) + (if right_set {
            s.subrange(
                spec_record_shift(KEY_SIZE as nat, VALUE_SIZE as nat),
                spec_record_size(KEY_SIZE as nat, VALUE_SIZE as nat),
            )
        } else {
            spec_zeros(4)
        })
    }

    /// Record bytes `s` with the right child set to `addr` and every
    /// other field kept.
    pub open spec fn spec_right_linked_bytes(s: Seq<u8>, addr: u32) -> Seq<u8> {
        let key_set = GenericBTreeRecord::<KEY_SIZE, VALUE_SIZE>::spec_key_set(s);
        let value_set = GenericBTreeRecord::<KEY_SIZE, VALUE_SIZE>::spec_value_set(s);
        let left_set = GenericBTreeRecord::<KEY_SIZE, VALUE_SIZE>::spec_left_set(s);
        (if left_set {
            s.subrange(0, 4)
        } else {
            spec_zeros(4)
        }) + seq![
            (((if key_set { 2u8 } else { 0u8 }) + (if value_set { 4u8 } else { 0u8 })) + ((
            if left_set { 8u8 } else { 0u8 }) + 1u8)) as u8,
        ] + (if key_set {
            s.subrange(5, 5 + KEY_SIZE)
        } else {
            spec_zeros(KEY_SIZE as nat)
        }) + (if value_set {
            s.subrange(5 + KEY_SIZE, 5 + KEY_SIZE + VALUE_SIZE)
        } else {
            spec_zeros(VALUE_SIZE as nat)
        }) + spec_u32_to_be_bytes(addr)
    }

    /// One outer iteration of the insert walk on page `curr`, exactly as
    /// the on-disk protocol prescribes: an empty slot takes a fresh
    /// record; an equal key is updated in place; a greater key descends
    /// into the record's left subtree, creating the page (appended, then
    /// linked into the record) when it is missing; when every key is
    /// smaller, the walk continues right, extends the page by one slot
    /// while one fits, or creates the missing right subtree.
    pub open spec fn spec_insert_step(
        disk: Seq<u8>,
        page_size: u64,
        curr: int,
        key: Seq<u8>,
        value: Seq<u8>,
    ) -> SpecStep {
        let shift = spec_record_shift(KEY_SIZE as nat, VALUE_SIZE as nat);
        let rsize = spec_record_size(KEY_SIZE as nat, VALUE_SIZE as nat);
        let body = page_body(disk, page_size, curr);
        match Self::spec_scan(body, key) {
            SpecScan::EmptySlot { si } => SpecStep::Done {
                disk: spec_write_page_disk(
                    disk,
                    page_size,
                    curr,
                    (si * shift) as u64,
                    Self::spec_leaf_record_bytes(key, value),
                ),
            },
            SpecScan::Found { si } => SpecStep::Done {
                disk: spec_write_page_disk(
                    disk,
                    page_size,
                    curr,
                    (si * shift) as u64,
                    Self::spec_value_updated_bytes(Self::spec_slot_of(body, si), value),
                ),
            },
            SpecScan::Greater { si } => {
                let s = Self::spec_slot_of(body, si);
                if GenericBTreeRecord::<KEY_SIZE, VALUE_SIZE>::spec_left_set(s) {
                    SpecStep::Descend { disk, next: spec_u32_from_be_bytes(s.subrange(0, 4)) as int }
                } else {
                    let fresh = page_count(disk.len() as int, page_size);
                    let grown = disk + spec_new_page_header(None).spec_bytes() + spec_zeros(
                        page_size as nat,
                    );
                    SpecStep::Descend {
                        disk: spec_write_page_disk(
                            grown,
                            page_size,
                            curr,
                            (si * shift) as u64,
                            Self::spec_left_linked_bytes(s, fresh as u32),
                        ),
                        next: fresh,
                    }
                }
            },
            SpecScan::End { last_si } => {
                if last_si < 0 {
                    SpecStep::Done {
                        disk: spec_write_page_disk(
                            disk,
                            page_size,
                            curr,
                            0,
                            Self::spec_leaf_record_bytes(key, value),
                        ),
                    }
                } else {
                    let s = Self::spec_slot_of(body, last_si);
                    if GenericBTreeRecord::<KEY_SIZE, VALUE_SIZE>::spec_right_set(s) {
                        SpecStep::Descend {
                            disk,
                            next: spec_u32_from_be_bytes(s.subrange(shift, rsize)) as int,
                        }
                    } else if (last_si + 2) * shift <= page_size {
                        SpecStep::Done {
                            disk: spec_write_page_disk(
                                disk,
                                page_size,
                                curr,
                                ((last_si + 1) * shift) as u64,
                                Self::spec_leaf_record_bytes(key, value),
                            ),
                        }
                    } else {
                        let fresh = page_count(disk.len() as int, page_size);
                        let grown = disk + spec_new_page_header(None).spec_bytes() + spec_zeros(
                            page_size as nat,
                        );
                        SpecStep::Descend {
                            disk: spec_write_page_disk(
                                grown,
                                page_size,
                                curr,
                                (last_si * shift) as u64,
                                Self::spec_right_linked_bytes(s, fresh as u32),
                            ),
                            next: fresh,
                        }
                    }
                }
            },
        }
    }

    /// The insert walk run to completion from page `curr`: the final
    /// container image, or nothing if `fuel` steps do not finish it.
    pub open spec fn spec_insert_from(
        disk: Seq<u8>,
        page_size: u64,
        curr: int,
        key: Seq<u8>,
        value: Seq<u8>,
        fuel: nat,
    ) -> Option<Seq<u8>>
        decreases fuel,
    {
        if fuel == 0 {
            Option::None
        } else {
            match Self::spec_insert_step(disk, page_size, curr, key, value) {
                SpecStep::Done { disk } => Option::Some(disk),
                SpecStep::Descend { disk, next } => Self::spec_insert_from(
                    disk,
                    page_size,
                    next,
                    key,
                    value,
                    (fuel - 1) as nat,
                ),
            }
        }
    }
}


impl<const KEY_SIZE: usize, const VALUE_SIZE: usize> GenericBTree<KEY_SIZE, VALUE_SIZE> {
    /// Taking the walk's final step closes the insert relation.
    proof fn lemma_close_done(
        disk0: Seq<u8>,
        cur: Seq<u8>,
        post: Seq<u8>,
        page_size: u64,
        entry: int,
        curr: int,
        key: Seq<u8>,
        value: Seq<u8>,
        fuel_total: int,
        steps: int,
    )
        requires
            Self::spec_insert_from(disk0, page_size, entry, key, value, fuel_total as nat)
                == Self::spec_insert_from(
                cur,
                page_size,
                curr,
                key,
                value,
                (fuel_total - steps) as nat,
            ),
            fuel_total - steps >= 1,
            Self::spec_insert_step(cur, page_size, curr, key, value) == (SpecStep::Done {
                disk: post,
            }),
        ensures
            Self::spec_insert_from(disk0, page_size, entry, key, value, fuel_total as nat)
                == Some(post),
    {
    }

    /// Taking one descending step advances the insert relation.
    proof fn lemma_close_descend(
        disk0: Seq<u8>,
        cur: Seq<u8>,
        post: Seq<u8>,
        page_size: u64,
        entry: int,
        curr: int,
        next: int,
        key: Seq<u8>,
        value: Seq<u8>,
        fuel_total: int,
        steps: int,
    )
        requires
            Self::spec_insert_from(disk0, page_size, entry, key, value, fuel_total as nat)
                == Self::spec_insert_from(
                cur,
                page_size,
                curr,
                key,
                value,
                (fuel_total - steps) as nat,
            ),
            fuel_total - steps >= 1,
            Self::spec_insert_step(cur, page_size, curr, key, value) == (SpecStep::Descend {
                disk: post,
                next,
            }),
        ensures
            Self::spec_insert_from(disk0, page_size, entry, key, value, fuel_total as nat)
                == Self::spec_insert_from(
                post,
                page_size,
                next,
                key,
                value,
                (fuel_total - steps - 1) as nat,
            ),
    {
    }

    /// A record write inside an existing page never changes the
    /// container's length.
    proof fn lemma_terminal_len(disk: Seq<u8>, page_size: u64, curr: int, offset: u64, b: Seq<u8>)
        requires
            disk_aligned(disk, page_size),
            0 <= curr < page_count(disk.len() as int, page_size),
        ensures
            spec_write_page_disk(disk, page_size, curr, offset, b).len() == disk.len(),
    {
        crate::pages::book::lemma_cell_in_range(disk, page_size, curr);
        lemma_page_layout(page_size, curr);
    }
}


impl<const KEY_SIZE: usize, const VALUE_SIZE: usize> GenericBTree<KEY_SIZE, VALUE_SIZE> {
    /// Law: the descending mechanism.  When the walk at page `curr`
    /// meets a first record whose key is greater and that has no left
    /// child — as every insert after the first does under strictly
    /// descending keys — the insert appends exactly one page: the new
    /// record lands alone on a fresh left-child page.
    pub proof fn lemma_descending_insert_allocates(
        disk: Seq<u8>,
        page_size: u64,
        curr: int,
        key: Seq<u8>,
        value: Seq<u8>,
        fuel: nat,
    )
        requires
            disk_aligned(disk, page_size),
            0 <= curr < page_count(disk.len() as int, page_size),
            page_size >= spec_record_size(KEY_SIZE as nat, VALUE_SIZE as nat),
            Self::spec_scan(page_body(disk, page_size, curr), key) == (SpecScan::Greater {
                si: 0,
            }),
            !GenericBTreeRecord::<KEY_SIZE, VALUE_SIZE>::spec_left_set(
                Self::spec_slot_of(page_body(disk, page_size, curr), 0),
            ),
            fuel >= 2,
        ensures
            ({
                let r = Self::spec_insert_from(disk, page_size, curr, key, value, fuel);
                r matches Some(d) && d.len() == disk.len() + page_stride(page_size)
            }),
    {
        let ps = page_size;
        let shift = spec_record_shift(KEY_SIZE as nat, VALUE_SIZE as nat);
        let rsize = spec_record_size(KEY_SIZE as nat, VALUE_SIZE as nat);
        let body = page_body(disk, ps, curr);
        let s = Self::spec_slot_of(body, 0);
        let fresh = page_count(disk.len() as int, ps);
        let grown = disk + spec_new_page_header(None).spec_bytes() + spec_zeros(ps as nat);
        Self::lemma_fresh_page_appended(disk, ps);
        lemma_mul_basics(shift);
        let disk1 = spec_write_page_disk(
            grown,
            ps,
            curr,
            0,
            Self::spec_left_linked_bytes(s, fresh as u32),
        );
        assert(Self::spec_insert_step(disk, ps, curr, key, value) == (SpecStep::Descend {
            disk: disk1,
            next: fresh,
        }));
        // The linked record stays inside the walked page, so the fresh
        // page's body is still all zeros and its length is kept.
        assert(Self::spec_left_linked_bytes(s, fresh as u32).len() == rsize);
        Self::lemma_record_write_keeps(
            grown,
            ps,
            curr,
            0,
            Self::spec_left_linked_bytes(s, fresh as u32),
            fresh,
        );
        assert(disk1.len() == disk.len() + page_stride(ps));
        // On the fresh zeroed page the walk finds its first slot empty
        // and the final record write keeps the length once more.
        let body1 = page_body(disk1, ps, fresh);
        assert(body1 == spec_zeros(ps as nat));
        assert(Self::spec_slot_of(body1, 0)[4] == 0u8);
        assert(!(0u8 & 2u8 == 2u8)) by (bit_vector);
        assert(Self::spec_scan(body1, key) == (SpecScan::EmptySlot { si: 0 }));
        let done = spec_write_page_disk(disk1, ps, fresh, 0, Self::spec_leaf_record_bytes(
            key,
            value,
        ));
        assert(Self::spec_insert_step(disk1, ps, fresh, key, value) == (SpecStep::Done {
            disk: done,
        }));
        Self::lemma_terminal_len(disk1, ps, fresh, 0, Self::spec_leaf_record_bytes(key, value));
        assert(Self::spec_insert_from(disk, ps, curr, key, value, fuel)
            == Self::spec_insert_from(disk1, ps, fresh, key, value, (fuel - 1) as nat));
        assert(Self::spec_insert_from(disk1, ps, fresh, key, value, (fuel - 1) as nat)
            == Some(done));
    }

    /// Law: the ascending mechanism.  When the walk at page `curr`
    /// runs past its last record — every stored key smaller, no right
    /// child — and one more slot still fits, the insert allocates
    /// nothing: the new record extends the same page, which therefore
    /// fills completely before any fresh page is created.
    pub proof fn lemma_ascending_insert_extends(
        disk: Seq<u8>,
        page_size: u64,
        curr: int,
        key: Seq<u8>,
        value: Seq<u8>,
        fuel: nat,
    )
        requires
            disk_aligned(disk, page_size),
            0 <= curr < page_count(disk.len() as int, page_size),
            page_size >= spec_record_size(KEY_SIZE as nat, VALUE_SIZE as nat),
            ({
                let scan = Self::spec_scan(page_body(disk, page_size, curr), key);
                scan matches SpecScan::End { last_si } && last_si >= 0 && !GenericBTreeRecord::<
                    KEY_SIZE,
                    VALUE_SIZE,
                >::spec_right_set(Self::spec_slot_of(page_body(disk, page_size, curr), last_si))
                    && (last_si + 2) * spec_record_shift(KEY_SIZE as nat, VALUE_SIZE as nat)
                    <= page_size
            }),
            fuel >= 1,
        ensures
            ({
                let r = Self::spec_insert_from(disk, page_size, curr, key, value, fuel);
                r matches Some(d) && d.len() == disk.len()
            }),
    {
        let ps = page_size;
        let body = page_body(disk, ps, curr);
        let scan = Self::spec_scan(body, key);
        let last_si = scan->End_last_si;
        let done = spec_write_page_disk(
            disk,
            ps,
            curr,
            ((last_si + 1) * spec_record_shift(KEY_SIZE as nat, VALUE_SIZE as nat)) as u64,
            Self::spec_leaf_record_bytes(key, value),
        );
        assert(Self::spec_insert_step(disk, ps, curr, key, value) == (SpecStep::Done {
            disk: done,
        }));
        Self::lemma_terminal_len(
            disk,
            ps,
            curr,
            ((last_si + 1) * spec_record_shift(KEY_SIZE as nat, VALUE_SIZE as nat)) as u64,
            Self::spec_leaf_record_bytes(key, value),
        );
    }
}

} // verus!
