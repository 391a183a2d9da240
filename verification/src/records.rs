//! Reading fixed-size binary records from the bytes of a file.

use vstd::prelude::*;
use vstd::bytes::{
    spec_u32_from_le_bytes, spec_u64_from_le_bytes, u32_from_le_bytes, u64_from_le_bytes,
};
use vstd::slice::slice_subrange;

verus! {

/// What a record holds, by its kind.
#[derive(Clone, Copy, Debug, PartialEq, Eq)]
pub enum Content {
    /// One measured value, kept as the bits of a 32-bit float.
    ValueStruct { type_: i32, val: u32, timestamp: i64 },
    /// Ten measured values, each kept as the bits of a 32-bit float.
    MValueStruct { type_: i32, vals: [u32; 10], timestamp: i64 },
    /// A message of 21 characters.
    MessageStruct { type_: i32, message: [char; 21] },
}

/// A record: the byte that tells its kind, and its content.
#[derive(Clone, Copy, Debug, PartialEq, Eq)]
pub struct CData {
    pub type_: u8,
    pub content: Content,
}

/// The number of bytes by which a record of one value moves the place at
/// which the next kind is read.
pub const VALUE_SIZE: usize = 24;

/// The place at which the fields of record `k` start: each record moves it
/// on by the place at which the next kind is read.
pub open spec fn fields_at(k: int) -> int
    decreases k,
{
    if k <= 0 {
        0
    } else {
        fields_at(k - 1) + 24 * k
    }
}

/// The byte that tells the kind of record `k`.
pub open spec fn kind_at(bytes: Seq<u8>, k: int) -> u8 {
    bytes[24 * k]
}

/// The number that four bytes write as a signed integer, low byte first.
pub open spec fn signed32(bytes: Seq<u8>) -> int {
    let x = spec_u32_from_le_bytes(bytes) as int;
    if x < 0x8000_0000 {
        x
    } else {
        x - 0x1_0000_0000
    }
}

/// The number that eight bytes write as a signed integer, low byte first.
pub open spec fn signed64(bytes: Seq<u8>) -> int {
    let x = spec_u64_from_le_bytes(bytes) as int;
    if x < 0x8000_0000_0000_0000 {
        x
    } else {
        x - 0x1_0000_0000_0000_0000
    }
}

/// Record `k` read as a record of one value.
pub open spec fn value_at(bytes: Seq<u8>, k: int) -> CData {
    let at = fields_at(k);
    CData {
        type_: 0,
        content: Content::ValueStruct {
            type_: signed32(bytes.subrange(at, at + 4)) as i32,
            val: spec_u32_from_le_bytes(bytes.subrange(at + 4, at + 8)),
            timestamp: signed64(bytes.subrange(at + 8, at + 16)) as i64,
        },
    }
}

/// The first `k` records are records of one value.
pub open spec fn values_before(bytes: Seq<u8>, k: int) -> bool {
    forall|j: int| 0 <= j < k ==> #[trigger] kind_at(bytes, j) == 0
}

/// Record `k` can be read: its kind and its first field lie within the
/// bytes, it is of neither of the two kinds (ten values, a message) that
/// are not read, and if it holds one value, all of its fields lie within
/// the bytes.
pub open spec fn can_read(bytes: Seq<u8>, k: int) -> bool {
    &&& 24 * k < bytes.len()
    &&& fields_at(k) + 4 <= bytes.len()
    &&& kind_at(bytes, k) != 1
    &&& kind_at(bytes, k) != 2
    &&& kind_at(bytes, k) == 0 ==> fields_at(k) + 16 <= bytes.len()
}

/// `size` records can be read from `bytes`: every place that is looked at
/// is a number of the machine, and each record can be read as long as the
/// ones before it hold one value.
pub open spec fn all_readable(bytes: Seq<u8>, size: int) -> bool {
    &&& fields_at(size) + 24 * size <= usize::MAX
    &&& forall|k: int| 0 <= k < size && values_before(bytes, k) ==> #[trigger] can_read(bytes, k)
}

impl CData {
    /// Whether `size` records can be read from `input`.
    pub fn readable(input: &[u8], size: usize) -> (r: bool)
        ensures
            r == all_readable(input@, size as int),
    {
        proof {
            lemma_fields_closed(size as int);
        }
        if size > 0xffff_ffff {
            proof {
                assert(12 * (size as int) * (size as int + 1) > usize::MAX) by (nonlinear_arith)
                    requires
                        size > 0xffff_ffff,
                        usize::MAX <= 0xffff_ffff_ffff_ffff,
                ;
            }
            return false;
        }
        let s: u128 = size as u128;
        assert(12 * s * (s + 1) + 24 * s <= 0xffff_ffff_ffff_ffff_ffff) by (nonlinear_arith)
            requires
                s <= 0xffff_ffff,
        ;
        let last: u128 = 12 * s * (s + 1) + 24 * s;
        if last > usize::MAX as u128 {
            return false;
        }
        let mut fields: usize = 0;
        let mut k: usize = 0;
        while k < size
            invariant
                k <= size,
                fields == fields_at(k as int),
                fields_at(size as int) + 24 * size <= usize::MAX,
                values_before(input@, k as int),
                forall|j: int| 0 <= j < k ==> #[trigger] can_read(input@, j),
            decreases size - k,
        {
            proof {
                lemma_fields_grow(k as int + 1, size as int);
                lemma_fields_grow(k as int, size as int);
            }
            let kind_place = 24 * k;
            if kind_place >= input.len() || fields + 4 > input.len() {
                assert(!can_read(input@, k as int));
                return false;
            }
            let kind = input[kind_place];
            if kind == 1 || kind == 2 {
                assert(!can_read(input@, k as int));
                return false;
            }
            if kind != 0 {
                proof {
                    assert(can_read(input@, k as int));
                    assert forall|j: int|
                        0 <= j < size && values_before(input@, j) implies #[trigger] can_read(
                        input@,
                        j,
                    ) by {
                        if j > k {
                            assert(kind_at(input@, k as int) == 0);
                        }
                    }
                }
                return true;
            }
            if fields + 16 > input.len() {
                assert(!can_read(input@, k as int));
                return false;
            }
            assert(can_read(input@, k as int));
            fields = fields + 24 * (k + 1);
            k += 1;
        }
        true
    }

    /// Reads `size` records from `input`, the bytes of a file, and adds
    /// them to `output`. Stops at the first record of a kind that is not
    /// known and returns the byte that tells that kind.
    pub fn from_file(input: &[u8], size: usize, output: &mut Vec<CData>) -> (r: Result<(), u8>)
        requires
            all_readable(input@, size as int),
        ensures
            match r {
                Ok(_) => {
                    &&& values_before(input@, size as int)
                    &&& final(output)@ == old(output)@ + Seq::new(
                        size as nat,
                        |k: int| value_at(input@, k),
                    )
                },
                Err(kind) => exists|k: int|
                    {
                        &&& 0 <= k < size
                        &&& values_before(input@, k)
                        &&& kind == #[trigger] kind_at(input@, k)
                        &&& kind > 2
                        &&& final(output)@ == old(output)@ + Seq::new(
                            k as nat,
                            |j: int| value_at(input@, j),
                        )
                    },
            },
    {
        let mut offset: usize = 0;
        let mut first_field_start: usize = 0;
        let mut k: usize = 0;
        while k < size
            invariant
                k <= size,
                offset == 24 * k,
                first_field_start == fields_at(k as int),
                fields_at(size as int) + 24 * size <= usize::MAX,
                forall|k: int|
                    0 <= k < size && values_before(input@, k) ==> #[trigger] can_read(input@, k),
                values_before(input@, k as int),
                output@ == old(output)@ + Seq::new(k as nat, |j: int| value_at(input@, j)),
            decreases size - k,
        {
            proof {
                assert(can_read(input@, k as int));
                lemma_fields_grow(k as int + 1, size as int);
            }
            let kind = input[offset];
            let first_field_end = first_field_start + 4;
            let inner_type = i32_from_le_bytes(
                slice_subrange(input, first_field_start, first_field_end),
            );
            if kind != 0 {
                assert(kind == kind_at(input@, k as int));
                return Err(kind);
            }
            offset += VALUE_SIZE;
            let second_field_end = first_field_end + 4;
            let third_field_end = second_field_end + 8;
            let val = u32_from_le_bytes(slice_subrange(input, first_field_end, second_field_end));
            let timestamp = i64_from_le_bytes(
                slice_subrange(input, second_field_end, third_field_end),
            );
            let content = Content::ValueStruct { type_: inner_type, val, timestamp };
            output.push(CData { type_: kind, content });
            first_field_start += offset;
            assert(output@ =~= old(output)@ + Seq::new(
                (k + 1) as nat,
                |j: int| value_at(input@, j),
            ));
            k += 1;
        }
        Ok(())
    }
}

/// The number that four bytes write as a signed integer, low byte first.
pub fn i32_from_le_bytes(bytes: &[u8]) -> (x: i32)
    requires
        bytes@.len() == 4,
    ensures
        x == signed32(bytes@),
{
    let raw = u32_from_le_bytes(bytes);
    if raw < 0x8000_0000 {
        raw as i32
    } else {
        (raw as i64 - 0x1_0000_0000) as i32
    }
}

/// The number that eight bytes write as a signed integer, low byte first.
pub fn i64_from_le_bytes(bytes: &[u8]) -> (x: i64)
    requires
        bytes@.len() == 8,
    ensures
        x == signed64(bytes@),
{
    let raw = u64_from_le_bytes(bytes);
    if raw < 0x8000_0000_0000_0000 {
        raw as i64
    } else {
        (raw as i128 - 0x1_0000_0000_0000_0000) as i64
    }
}

/// The place of the fields of record `k` in closed form.
proof fn lemma_fields_closed(k: int)
    requires
        0 <= k,
    ensures
        fields_at(k) == 12 * k * (k + 1),
    decreases k,
{
    if k > 0 {
        lemma_fields_closed(k - 1);
        let before = fields_at(k - 1);
        assert(before + 24 * k == 12 * k * (k + 1)) by (nonlinear_arith)
            requires
                before == 12 * (k - 1) * (k - 1 + 1),
        ;
    } else {
        assert(12 * k * (k + 1) == 0) by (nonlinear_arith)
            requires
                k == 0,
        ;
    }
}

/// The fields of a later record start further on.
proof fn lemma_fields_grow(k: int, n: int)
    requires
        0 <= k <= n,
    ensures
        fields_at(k) + 24 * k <= fields_at(n) + 24 * n,
        fields_at(k) >= 0,
    decreases n,
{
    if k < n {
        lemma_fields_grow(k, n - 1);
    } else if k > 0 {
        lemma_fields_grow(k - 1, k - 1);
    }
}

} // verus!
