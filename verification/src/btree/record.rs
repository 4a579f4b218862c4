//! The fixed-width slotted B-tree record.
//!
//! A record is `KEY_SIZE + VALUE_SIZE + 9` bytes:
//! `[left_addr: u32 BE][flags: u8][key][value][right_addr: u32 BE]`.
//! Records are slotted every `RECORD_SIZE - 4` bytes, so each record's
//! trailing `right_addr` field shares its bytes with the next record's
//! `left_addr`.  A flag bit per field says whether the field is set.

use vstd::prelude::*;
use vstd::slice::slice_subrange;
use crate::blob::{
    spec_u32_to_be_bytes, spec_u32_from_be_bytes, spec_zeros, u32_to_be_bytes, u32_from_be_bytes,
    lemma_u32_be_roundtrip,
};

verus! {

/// Bytes one record occupies, its shared trailing address included.
pub open spec fn spec_record_size(key_size: nat, value_size: nat) -> int {
    key_size + value_size + 9int
}

/// Bytes between the starts of two adjacent slots.
pub open spec fn spec_record_shift(key_size: nat, value_size: nat) -> int {
    key_size + value_size + 5int
}

#[derive(Debug, Clone, PartialEq, Eq, Hash)]
/// One slotted record: each field is present only when its flag bit is
/// set.  A present key or value always holds exactly `KEY_SIZE` or
/// `VALUE_SIZE` bytes.
pub struct GenericBTreeRecord<const KEY_SIZE: usize, const VALUE_SIZE: usize> {
    pub key: Option<Vec<u8>>,
    pub value: Option<Vec<u8>>,
    pub left_addr: Option<u32>,
    pub right_addr: Option<u32>,
}

impl<const KEY_SIZE: usize, const VALUE_SIZE: usize> GenericBTreeRecord<KEY_SIZE, VALUE_SIZE> {
    pub const FLAG_LEFT_ADDR_SET: u8 = 0b0000_1000;
    pub const FLAG_KEY_SET: u8 = 0b0000_0010;
    pub const FLAG_VALUE_SET: u8 = 0b0000_0100;
    pub const FLAG_RIGHT_ADDR_SET: u8 = 0b0000_0001;

    /// A present key and value have the widths the record shape fixes.
    pub open spec fn wf(self) -> bool {
        &&& (self.key matches Some(k) ==> k@.len() == KEY_SIZE)
        &&& (self.value matches Some(v) ==> v@.len() == VALUE_SIZE)
    }

    /// The record's flag byte.
    pub open spec fn spec_flags(self) -> u8 {
        (((if self.key is Some { 2u8 } else { 0u8 }) + (if self.value is Some { 4u8 } else { 0u8 }))
            + ((if self.left_addr is Some { 8u8 } else { 0u8 }) + (if self.right_addr is Some {
            1u8
        } else {
            0u8
        }))) as u8
    }

    /// The `RECORD_SIZE` bytes this record encodes to; absent fields
    /// encode as zero bytes.
    pub open spec fn spec_bytes(self) -> Seq<u8> {
        (match self.left_addr {
            Some(a) => spec_u32_to_be_bytes(a),
            None => spec_zeros(4),
        }) + seq![self.spec_flags()] + (match self.key {
            Some(k) => k@,
            None => spec_zeros(KEY_SIZE as nat),
        }) + (match self.value {
            Some(v) => v@,
            None => spec_zeros(VALUE_SIZE as nat),
        }) + (match self.right_addr {
            Some(a) => spec_u32_to_be_bytes(a),
            None => spec_zeros(4),
        })
    }

    /// Whether the key flag is set in the encoded record `s`.
    pub open spec fn spec_key_set(s: Seq<u8>) -> bool {
        s[4] & 2u8 == 2u8
    }

    /// Whether the value flag is set in the encoded record `s`.
    pub open spec fn spec_value_set(s: Seq<u8>) -> bool {
        s[4] & 4u8 == 4u8
    }

    /// Whether the left-address flag is set in the encoded record `s`.
    pub open spec fn spec_left_set(s: Seq<u8>) -> bool {
        s[4] & 8u8 == 8u8
    }

    /// Whether the right-address flag is set in the encoded record `s`.
    pub open spec fn spec_right_set(s: Seq<u8>) -> bool {
        s[4] & 1u8 == 1u8
    }

    /// A fresh leaf record: key and value set, no child addresses.
    pub fn new(key: Vec<u8>, value: Vec<u8>) -> (r: Self)
        requires
            key@.len() == KEY_SIZE,
            value@.len() == VALUE_SIZE,
        ensures
            r.wf(),
            r.key matches Some(k) && k@ == key@,
            r.value matches Some(v) && v@ == value@,
            r.left_addr is None,
            r.right_addr is None,
    {
        GenericBTreeRecord { key: Some(key), value: Some(value), left_addr: None, right_addr: None }
    }

    /// Parse the record at the front of `bytes`; `None` when fewer than
    /// `RECORD_SIZE` bytes remain.
    pub fn from_bytes(bytes: &[u8]) -> (r: Option<Self>)
        requires
            KEY_SIZE + VALUE_SIZE + 9 <= usize::MAX,
        ensures
            r is Some <==> bytes@.len() >= spec_record_size(KEY_SIZE as nat, VALUE_SIZE as nat),
            r matches Some(rec) ==> {
                &&& rec.wf()
                &&& rec.key is Some <==> Self::spec_key_set(bytes@)
                &&& rec.value is Some <==> Self::spec_value_set(bytes@)
                &&& rec.left_addr is Some <==> Self::spec_left_set(bytes@)
                &&& rec.right_addr is Some <==> Self::spec_right_set(bytes@)
                &&& (rec.key matches Some(k) ==> k@ == bytes@.subrange(5, 5 + KEY_SIZE))
                &&& (rec.value matches Some(v) ==> v@ == bytes@.subrange(
                    5 + KEY_SIZE,
                    5 + KEY_SIZE + VALUE_SIZE,
                ))
                &&& (rec.left_addr matches Some(a) ==> a == spec_u32_from_be_bytes(
                    bytes@.subrange(0, 4),
                ))
                &&& (rec.right_addr matches Some(a) ==> a == spec_u32_from_be_bytes(
                    bytes@.subrange(
                        spec_record_shift(KEY_SIZE as nat, VALUE_SIZE as nat),
                        spec_record_size(KEY_SIZE as nat, VALUE_SIZE as nat),
                    ),
                ))
            },
    {
        let record_size = KEY_SIZE + VALUE_SIZE + 9;
        if bytes.len() < record_size {
            return None;
        }
        let flags = bytes[4];

        let key = if flags & Self::FLAG_KEY_SET == Self::FLAG_KEY_SET {
            Some(vstd::slice::slice_to_vec(slice_subrange(bytes, 5, 5 + KEY_SIZE)))
        } else {
            None
        };
        let value = if flags & Self::FLAG_VALUE_SET == Self::FLAG_VALUE_SET {
            Some(
                vstd::slice::slice_to_vec(
                    slice_subrange(bytes, 5 + KEY_SIZE, 5 + KEY_SIZE + VALUE_SIZE),
                ),
            )
        } else {
            None
        };
        let left_addr = if flags & Self::FLAG_LEFT_ADDR_SET == Self::FLAG_LEFT_ADDR_SET {
            Some(u32_from_be_bytes(slice_subrange(bytes, 0, 4)))
        } else {
            None
        };
        let right_addr = if flags & Self::FLAG_RIGHT_ADDR_SET == Self::FLAG_RIGHT_ADDR_SET {
            Some(u32_from_be_bytes(slice_subrange(bytes, record_size - 4, record_size)))
        } else {
            None
        };

        Some(GenericBTreeRecord { key, value, left_addr, right_addr })
    }

    /// Encode this record into its `RECORD_SIZE` bytes.
    pub fn to_bytes(&self) -> (r: Vec<u8>)
        requires
            self.wf(),
            KEY_SIZE + VALUE_SIZE + 9 <= usize::MAX,
        ensures
            r@ == self.spec_bytes(),
            r@.len() == spec_record_size(KEY_SIZE as nat, VALUE_SIZE as nat),
    {
        let mut record: Vec<u8> = Vec::new();

        match &self.left_addr {
            Some(a) => {
                let mut encoded = u32_to_be_bytes(*a);
                record.append(&mut encoded);
            },
            None => {
                let mut zeros = vec![0u8; 4];
                record.append(&mut zeros);
            },
        }

        let flags: u8 = ((if self.key.is_some() { 2u8 } else { 0u8 }) + (if self.value.is_some() {
            4u8
        } else {
            0u8
        })) + ((if self.left_addr.is_some() { 8u8 } else { 0u8 }) + (if self.right_addr.is_some() {
            1u8
        } else {
            0u8
        }));
        record.push(flags);

        match &self.key {
            Some(k) => record.extend_from_slice(k.as_slice()),
            None => {
                let mut zeros = vec![0u8; KEY_SIZE];
                record.append(&mut zeros);
            },
        }
        match &self.value {
            Some(v) => record.extend_from_slice(v.as_slice()),
            None => {
                let mut zeros = vec![0u8; VALUE_SIZE];
                record.append(&mut zeros);
            },
        }
        match &self.right_addr {
            Some(a) => {
                let mut encoded = u32_to_be_bytes(*a);
                record.append(&mut encoded);
            },
            None => {
                let mut zeros = vec![0u8; 4];
                record.append(&mut zeros);
            },
        }

        proof {
            assert(record@ =~= self.spec_bytes());
        }
        record
    }
}


/// Law: parsing an encoded record restores every field; the slotted
/// byte layout loses nothing.
pub proof fn lemma_record_roundtrip<const KEY_SIZE: usize, const VALUE_SIZE: usize>(
    r: GenericBTreeRecord<KEY_SIZE, VALUE_SIZE>,
)
    requires
        r.wf(),
    ensures
        ({
            let s = r.spec_bytes();
            &&& (GenericBTreeRecord::<KEY_SIZE, VALUE_SIZE>::spec_key_set(s) <==> r.key is Some)
            &&& (GenericBTreeRecord::<KEY_SIZE, VALUE_SIZE>::spec_value_set(s) <==> r.value is Some)
            &&& (GenericBTreeRecord::<KEY_SIZE, VALUE_SIZE>::spec_left_set(s) <==> r.left_addr is Some)
            &&& (GenericBTreeRecord::<KEY_SIZE, VALUE_SIZE>::spec_right_set(s)
                <==> r.right_addr is Some)
            &&& (r.key matches Some(k) ==> s.subrange(5, 5 + KEY_SIZE) == k@)
            &&& (r.value matches Some(v) ==> s.subrange(5 + KEY_SIZE, 5 + KEY_SIZE + VALUE_SIZE)
                == v@)
            &&& (r.left_addr matches Some(a) ==> spec_u32_from_be_bytes(s.subrange(0, 4)) == a)
            &&& (r.right_addr matches Some(a) ==> spec_u32_from_be_bytes(
                s.subrange(
                    spec_record_shift(KEY_SIZE as nat, VALUE_SIZE as nat),
                    spec_record_size(KEY_SIZE as nat, VALUE_SIZE as nat),
                ),
            ) == a)
        }),
{
    let s = r.spec_bytes();
    let f = r.spec_flags();
    let key_bit: u8 = if r.key is Some { 2u8 } else { 0u8 };
    let value_bit: u8 = if r.value is Some { 4u8 } else { 0u8 };
    let left_bit: u8 = if r.left_addr is Some { 8u8 } else { 0u8 };
    let right_bit: u8 = if r.right_addr is Some { 1u8 } else { 0u8 };
    assert(s[4] == f);
    assert((f & 2u8 == 2u8) == (key_bit == 2u8) && (f & 4u8 == 4u8) == (value_bit == 4u8) && (f
        & 8u8 == 8u8) == (left_bit == 8u8) && (f & 1u8 == 1u8) == (right_bit == 1u8))
        by (bit_vector)
        requires
            f == ((key_bit + value_bit) + (left_bit + right_bit)) as u8,
            key_bit == 0u8 || key_bit == 2u8,
            value_bit == 0u8 || value_bit == 4u8,
            left_bit == 0u8 || left_bit == 8u8,
            right_bit == 0u8 || right_bit == 1u8,
    ;
    if let Some(k) = r.key {
        assert(s.subrange(5, 5 + KEY_SIZE) =~= k@);
    }
    if let Some(v) = r.value {
        assert(s.subrange(5 + KEY_SIZE, 5 + KEY_SIZE + VALUE_SIZE) =~= v@);
    }
    if let Some(a) = r.left_addr {
        assert(s.subrange(0, 4) =~= spec_u32_to_be_bytes(a));
        lemma_u32_be_roundtrip(a);
    }
    if let Some(a) = r.right_addr {
        assert(s.subrange(
            spec_record_shift(KEY_SIZE as nat, VALUE_SIZE as nat),
            spec_record_size(KEY_SIZE as nat, VALUE_SIZE as nat),
        ) =~= spec_u32_to_be_bytes(a));
        lemma_u32_be_roundtrip(a);
    }
}

} // verus!

