//! A low-density parity code over byte blocks.
//!
//! A code is a connection map: for every check bit, a mask saying which
//! data bits feed it.  Encoding XORs the selected data bits into each
//! check bit.  The experimental decoder the idea came with never worked
//! and is not part of this crate; encoding, and the standard shapes of
//! the map, are specified exactly.

use vstd::prelude::*;

verus! {

/// Whether bit `b` of `x` is set.
pub open spec fn spec_bit(x: u8, b: int) -> bool {
    x >> (b as u8) & 1u8 == 1u8
}

/// Parity of the first `p` (connection, data) bit pairs, bits taken
/// least significant first, byte by byte: true when an odd number of
/// connected data bits are set.
pub open spec fn spec_parity_upto(row: Seq<u8>, data: Seq<u8>, p: int) -> bool
    decreases p,
{
    if p <= 0 {
        false
    } else {
        spec_parity_upto(row, data, p - 1) != (spec_bit(row[(p - 1) / 8], (p - 1) % 8) && spec_bit(
            data[(p - 1) / 8],
            (p - 1) % 8,
        ))
    }
}

/// The check bit a whole connection row produces for `data`.
pub open spec fn spec_parity(row: Seq<u8>, data: Seq<u8>) -> bool {
    spec_parity_upto(row, data, data.len() * 8int)
}

/// The check byte eight connection rows produce for `data`: row `j`
/// decides bit `j`.
pub open spec fn spec_check_byte(rows: Seq<Seq<u8>>, data: Seq<u8>) -> u8 {
    ((if spec_parity(rows[0], data) { 1u8 } else { 0u8 }) + (if spec_parity(rows[1], data) {
        2u8
    } else {
        0u8
    }) + (if spec_parity(rows[2], data) { 4u8 } else { 0u8 }) + (if spec_parity(rows[3], data) {
        8u8
    } else {
        0u8
    }) + (if spec_parity(rows[4], data) { 16u8 } else { 0u8 }) + (if spec_parity(rows[5], data) {
        32u8
    } else {
        0u8
    }) + (if spec_parity(rows[6], data) { 64u8 } else { 0u8 }) + (if spec_parity(rows[7], data) {
        128u8
    } else {
        0u8
    })) as u8
}

/// The mask the standard pattern gives every byte of check bit `j`'s
/// row: data bits `j % 4` and `j % 4 + 4` of each byte feed the bit.
pub open spec fn spec_standard_byte(j: int) -> u8 {
    if j % 4 == 0 {
        0x11u8
    } else if j % 4 == 1 {
        0x22u8
    } else if j % 4 == 2 {
        0x44u8
    } else {
        0x88u8
    }
}

#[derive(Debug, Clone, PartialEq, Eq, Hash)]
/// A parity code: for each of `CHECK_BYTES * 8` check bits, a
/// `DATA_BYTES`-byte mask of the data bits feeding it.
pub struct CorrectionCode<const DATA_BYTES: usize, const CHECK_BYTES: usize> {
    pub connections: Vec<Vec<Vec<u8>>>,
}

impl<const DATA_BYTES: usize, const CHECK_BYTES: usize> CorrectionCode<DATA_BYTES, CHECK_BYTES> {
    /// The connection map has one entry per check byte, eight rows per
    /// entry, and one mask byte per data byte in every row.
    pub open spec fn wf(self) -> bool {
        &&& self.connections@.len() == CHECK_BYTES
        &&& forall|c: int|
            0 <= c < CHECK_BYTES ==> (#[trigger] self.connections@[c])@.len() == 8
        &&& forall|c: int, j: int|
            0 <= c < CHECK_BYTES && 0 <= j < 8 ==> (#[trigger] self.connections@[c]@[j])@.len()
                == DATA_BYTES
    }

    /// Mask byte `i` of row `j` of check byte `c`.
    pub open spec fn spec_connection(self, c: int, j: int, i: int) -> u8 {
        self.connections@[c]@[j]@[i]
    }

    /// Build a code from an explicit connection map.
    pub fn new(connections: Vec<Vec<Vec<u8>>>) -> (r: Self)
        requires
            connections@.len() == CHECK_BYTES,
            forall|c: int| 0 <= c < CHECK_BYTES ==> (#[trigger] connections@[c])@.len() == 8,
            forall|c: int, j: int|
                0 <= c < CHECK_BYTES && 0 <= j < 8 ==> (#[trigger] connections@[c]@[j])@.len()
                    == DATA_BYTES,
        ensures
            r.wf(),
            r.connections@ == connections@,
    {
        CorrectionCode { connections }
    }

    /// Build a map whose every row holds the same mask byte at every
    /// position, then wrap it as a code.
    fn uniform(byte: u8) -> (r: Self)
        ensures
            r.wf(),
            forall|c: int, j: int, i: int|
                0 <= c < CHECK_BYTES && 0 <= j < 8 && 0 <= i < DATA_BYTES
                    ==> #[trigger] r.spec_connection(c, j, i) == byte,
    {
        let mut connections: Vec<Vec<Vec<u8>>> = Vec::new();
        while connections.len() < CHECK_BYTES
            invariant
                connections@.len() <= CHECK_BYTES,
                forall|c: int| 0 <= c < connections@.len() ==> (#[trigger] connections@[c])@.len() == 8,
                forall|c: int, j: int|
                    0 <= c < connections@.len() && 0 <= j < 8 ==> (#[trigger] connections@[c]@[j])@.len()
                        == DATA_BYTES,
                forall|c: int, j: int, i: int|
                    0 <= c < connections@.len() && 0 <= j < 8 && 0 <= i < DATA_BYTES
                        ==> #[trigger] connections@[c]@[j]@[i] == byte,
            decreases CHECK_BYTES - connections@.len(),
        {
            let mut rows: Vec<Vec<u8>> = Vec::new();
            while rows.len() < 8
                invariant
                    rows@.len() <= 8,
                    forall|j: int| 0 <= j < rows@.len() ==> (#[trigger] rows@[j])@.len() == DATA_BYTES,
                    forall|j: int, i: int|
                        0 <= j < rows@.len() && 0 <= i < DATA_BYTES ==> #[trigger] rows@[j]@[i]
                            == byte,
                decreases 8 - rows@.len(),
            {
                let mut row: Vec<u8> = Vec::new();
                while row.len() < DATA_BYTES
                    invariant
                        row@.len() <= DATA_BYTES,
                        forall|i: int| 0 <= i < row@.len() ==> row@[i] == byte,
                    decreases DATA_BYTES - row@.len(),
                {
                    row.push(byte);
                }
                rows.push(row);
            }
            connections.push(rows);
        }
        CorrectionCode { connections }
    }

    /// Form correction code of given size with standard pattern: check
    /// bit `j` of each check byte is fed by data bits `j % 4` and
    /// `j % 4 + 4` of every data byte.
    pub fn standard() -> (r: Self)
        ensures
            r.wf(),
            forall|c: int, j: int, i: int|
                0 <= c < CHECK_BYTES && 0 <= j < 8 && 0 <= i < DATA_BYTES
                    ==> #[trigger] r.spec_connection(c, j, i) == spec_standard_byte(j),
    {
        let mut connections: Vec<Vec<Vec<u8>>> = Vec::new();
        while connections.len() < CHECK_BYTES
            invariant
                connections@.len() <= CHECK_BYTES,
                forall|c: int| 0 <= c < connections@.len() ==> (#[trigger] connections@[c])@.len() == 8,
                forall|c: int, j: int|
                    0 <= c < connections@.len() && 0 <= j < 8 ==> (#[trigger] connections@[c]@[j])@.len()
                        == DATA_BYTES,
                forall|c: int, j: int, i: int|
                    0 <= c < connections@.len() && 0 <= j < 8 && 0 <= i < DATA_BYTES
                        ==> #[trigger] connections@[c]@[j]@[i] == spec_standard_byte(j),
            decreases CHECK_BYTES - connections@.len(),
        {
            let mut rows: Vec<Vec<u8>> = Vec::new();
            while rows.len() < 8
                invariant
                    rows@.len() <= 8,
                    forall|j: int| 0 <= j < rows@.len() ==> (#[trigger] rows@[j])@.len() == DATA_BYTES,
                    forall|j: int, i: int|
                        0 <= j < rows@.len() && 0 <= i < DATA_BYTES ==> #[trigger] rows@[j]@[i]
                            == spec_standard_byte(j),
                decreases 8 - rows@.len(),
            {
                let j = rows.len();
                let byte: u8 = match j % 4 {
                    0 => 0x11,
                    1 => 0x22,
                    2 => 0x44,
                    _ => 0x88,
                };
                let mut row: Vec<u8> = Vec::new();
                while row.len() < DATA_BYTES
                    invariant
                        row@.len() <= DATA_BYTES,
                        forall|i: int| 0 <= i < row@.len() ==> row@[i] == byte,
                    decreases DATA_BYTES - row@.len(),
                {
                    row.push(byte);
                }
                rows.push(row);
            }
            connections.push(rows);
        }
        CorrectionCode { connections }
    }

    /// Form correction code of given size with none of the data bits
    /// connected to any of the check bits.  Made for test purposes.
    pub fn zero() -> (r: Self)
        ensures
            r.wf(),
            forall|c: int, j: int, i: int|
                0 <= c < CHECK_BYTES && 0 <= j < 8 && 0 <= i < DATA_BYTES
                    ==> #[trigger] r.spec_connection(c, j, i) == 0u8,
    {
        Self::uniform(0)
    }

    /// Form correction code of given size with all the data bits
    /// connected to all the check bits.  Made for test purposes.
    pub fn full() -> (r: Self)
        ensures
            r.wf(),
            forall|c: int, j: int, i: int|
                0 <= c < CHECK_BYTES && 0 <= j < 8 && 0 <= i < DATA_BYTES
                    ==> #[trigger] r.spec_connection(c, j, i) == 0xffu8,
    {
        Self::uniform(0xff)
    }

    /// Parity of the data bits `row` selects from `data`.
    fn parity(row: &Vec<u8>, data: &Vec<u8>) -> (r: bool)
        requires
            row@.len() == data@.len(),
            data@.len() * 8 <= usize::MAX,
        ensures
            r == spec_parity(row@, data@),
    {
        let mut acc = false;
        let total = data.len() * 8;
        let mut p: usize = 0;
        while p < total
            invariant
                total == data@.len() * 8,
                row@.len() == data@.len(),
                p <= total,
                acc == spec_parity_upto(row@, data@, p as int),
            decreases total - p,
        {
            let i = p / 8;
            let b = (p % 8) as u8;
            let connected = (row[i] >> b) & 1 == 1;
            let set = (data[i] >> b) & 1 == 1;
            acc = acc != (connected && set);
            p = p + 1;
        }
        acc
    }

    /// Compute the check bytes for one data block: check bit `j` of
    /// check byte `c` is the parity of the data bits its row selects.
    pub fn encode_block(&self, data: &Vec<u8>) -> (r: Vec<u8>)
        requires
            self.wf(),
            data@.len() == DATA_BYTES,
            DATA_BYTES * 8 <= usize::MAX,
        ensures
            r@.len() == CHECK_BYTES,
            forall|c: int|
                0 <= c < CHECK_BYTES ==> #[trigger] r@[c] == spec_check_byte(
                    self.connections@[c]@.map_values(|v: Vec<u8>| v@),
                    data@,
                ),
    {
        let mut out: Vec<u8> = Vec::new();
        let mut c: usize = 0;
        while c < CHECK_BYTES
            invariant
                self.wf(),
                data@.len() == DATA_BYTES,
                DATA_BYTES * 8 <= usize::MAX,
                c <= CHECK_BYTES,
                out@.len() == c,
                forall|k: int|
                    0 <= k < c ==> #[trigger] out@[k] == spec_check_byte(
                        self.connections@[k]@.map_values(|v: Vec<u8>| v@),
                        data@,
                    ),
            decreases CHECK_BYTES - c,
        {
            let rows = &self.connections[c];
            let p0 = Self::parity(&rows[0], data);
            let p1 = Self::parity(&rows[1], data);
            let p2 = Self::parity(&rows[2], data);
            let p3 = Self::parity(&rows[3], data);
            let p4 = Self::parity(&rows[4], data);
            let p5 = Self::parity(&rows[5], data);
            let p6 = Self::parity(&rows[6], data);
            let p7 = Self::parity(&rows[7], data);
            let byte: u8 = (if p0 { 1u8 } else { 0u8 }) + (if p1 { 2u8 } else { 0u8 }) + (if p2 {
                4u8
            } else {
                0u8
            }) + (if p3 { 8u8 } else { 0u8 }) + (if p4 { 16u8 } else { 0u8 }) + (if p5 {
                32u8
            } else {
                0u8
            }) + (if p6 { 64u8 } else { 0u8 }) + (if p7 { 128u8 } else { 0u8 });
            out.push(byte);
            proof {
                let mapped = self.connections@[c as int]@.map_values(|v: Vec<u8>| v@);
                assert(mapped[0] == rows@[0]@);
                assert(mapped[1] == rows@[1]@);
                assert(mapped[2] == rows@[2]@);
                assert(mapped[3] == rows@[3]@);
                assert(mapped[4] == rows@[4]@);
                assert(mapped[5] == rows@[5]@);
                assert(mapped[6] == rows@[6]@);
                assert(mapped[7] == rows@[7]@);
            }
            c = c + 1;
        }
        out
    }
}

/// With no connected bits, a row's parity stays even over any prefix.
proof fn lemma_zero_row_parity(row: Seq<u8>, data: Seq<u8>, p: int)
    requires
        forall|i: int| 0 <= i < row.len() ==> row[i] == 0u8,
        p <= data.len() * 8,
        row.len() == data.len(),
    ensures
        !spec_parity_upto(row, data, p),
    decreases p,
{
    if p > 0 {
        lemma_zero_row_parity(row, data, p - 1);
        let i = (p - 1) / 8;
        let b = (p - 1) % 8;
        assert(0 <= i < row.len());
        assert(row[i] == 0u8);
        let bu = b as u8;
        assert(0u8 >> bu & 1u8 == 0u8) by (bit_vector);
        assert(!spec_bit(row[i], b));
    }
}

/// Law: a code with no connections checks nothing — every check byte
/// of every data block encodes to zero.
pub proof fn lemma_zero_code_encodes_zero(rows: Seq<Seq<u8>>, data: Seq<u8>)
    requires
        rows.len() == 8,
        forall|j: int| 0 <= j < 8 ==> (#[trigger] rows[j]).len() == data.len(),
        forall|j: int, i: int| 0 <= j < 8 && 0 <= i < data.len() ==> #[trigger] rows[j][i] == 0u8,
    ensures
        spec_check_byte(rows, data) == 0u8,
{
    assert forall|j: int| 0 <= j < 8 implies !spec_parity(#[trigger] rows[j], data) by {
        lemma_zero_row_parity(rows[j], data, data.len() * 8int);
    }
}

} // verus!
