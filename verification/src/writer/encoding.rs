//! Quantization of coordinates and little-endian encoding of integers.

use byteorder::{LittleEndian, WriteBytesExt};
use crate::model::vector3::{MAX_COORDINATE, Vector3};
use vstd::prelude::*;

verus! {

/// The largest quantization step.
pub const MAX_SCALE: i64 = 100;

/// The `width` least significant bytes of `value`, the least significant
/// byte first.
pub open spec fn le_bytes(value: nat, width: nat) -> Seq<u8>
    decreases width,
{
    if width == 0 {
        Seq::empty()
    } else {
        seq![(value % 256) as u8] + le_bytes(value / 256, (width - 1) as nat)
    }
}

/// The four bytes of a signed 32-bit integer in two's complement, the least
/// significant byte first.
pub open spec fn i32_le_bytes(value: i32) -> Seq<u8> {
    le_bytes(
        if value >= 0 {
            value as nat
        } else {
            (value + 0x1_0000_0000) as nat
        },
        4,
    )
}

/// The four bytes of an unsigned 32-bit integer, the least significant byte
/// first.
pub open spec fn u32_le_bytes(value: u32) -> Seq<u8> {
    le_bytes(value as nat, 4)
}

/// The eight bytes of an unsigned 64-bit integer, the least significant
/// byte first.
pub open spec fn u64_le_bytes(value: u64) -> Seq<u8> {
    le_bytes(value as nat, 8)
}

/// A little-endian encoding has as many bytes as asked for.
pub proof fn lemma_le_bytes_len(value: nat, width: nat)
    ensures
        le_bytes(value, width).len() == width,
    decreases width,
{
    if width > 0 {
        lemma_le_bytes_len(value / 256, (width - 1) as nat);
    }
}

/// 256 to the power `width`.
pub open spec fn byte_range(width: nat) -> nat
    decreases width,
{
    if width == 0 {
        1
    } else {
        256 * byte_range((width - 1) as nat)
    }
}

/// The number that bytes stand for, the least significant byte first.
pub open spec fn le_value(bytes: Seq<u8>) -> nat
    decreases bytes.len(),
{
    if bytes.len() == 0 {
        0
    } else {
        bytes[0] as nat + 256 * le_value(bytes.drop_first())
    }
}

/// The little-endian bytes of a number that fits in them stand for the
/// number.
pub proof fn lemma_le_bytes_value(value: nat, width: nat)
    requires
        value < byte_range(width),
    ensures
        le_value(le_bytes(value, width)) == value,
    decreases width,
{
    if width > 0 {
        let rest = le_bytes(value / 256, (width - 1) as nat);
        lemma_le_bytes_value(value / 256, (width - 1) as nat);
        assert(le_bytes(value, width).drop_first() =~= rest);
        assert(le_bytes(value, width)[0] == (value % 256) as u8);
    }
}

/// `WriteBytesExt::write_i32` with `LittleEndian` on a byte vector: the
/// four bytes of the value in two's complement, least significant first,
/// are appended to the vector.
#[verifier::external_body]
pub(crate) fn put_i32_le(sink: &mut Vec<u8>, value: i32)
    ensures
        final(sink)@ == old(sink)@ + i32_le_bytes(value),
{
    sink.write_i32::<LittleEndian>(value).unwrap();
}

/// `WriteBytesExt::write_u32` with `LittleEndian` on a byte vector: the
/// four bytes of the value, least significant first, are appended to the
/// vector.
#[verifier::external_body]
pub(crate) fn put_u32_le(sink: &mut Vec<u8>, value: u32)
    ensures
        final(sink)@ == old(sink)@ + u32_le_bytes(value),
{
    sink.write_u32::<LittleEndian>(value).unwrap();
}

/// `WriteBytesExt::write_u64` with `LittleEndian` on a byte vector: the
/// eight bytes of the value, least significant first, are appended to the
/// vector.
#[verifier::external_body]
pub(crate) fn put_u64_le(sink: &mut Vec<u8>, value: u64)
    ensures
        final(sink)@ == old(sink)@ + u64_le_bytes(value),
{
    sink.write_u64::<LittleEndian>(value).unwrap();
}

/// `n / d` rounded to the nearest integer, a tie away from zero.
pub open spec fn rounded_quotient(n: int, d: int) -> int {
    if n >= 0 {
        (2 * n + d) / (2 * d)
    } else {
        -((-2 * n + d) / (2 * d))
    }
}

/// `v`, or the nearest 32-bit signed integer where `v` is none.
pub open spec fn clamped_i32(v: int) -> int {
    if v > i32::MAX {
        i32::MAX as int
    } else if v < i32::MIN {
        i32::MIN as int
    } else {
        v
    }
}

/// The quantized coordinate: the distance from the origin in steps of
/// `scale`, rounded to the nearest integer and kept within 32 bits.
pub open spec fn quantized(coordinate: int, origin: int, scale: int) -> int {
    clamped_i32(rounded_quotient(coordinate - origin, scale))
}

/// The record of a point: its quantized x, y and z, four bytes each.
pub open spec fn point_record(p: Vector3, origin: Vector3, scale: int) -> Seq<u8> {
    i32_le_bytes(quantized(p.x as int, origin.x as int, scale) as i32) + i32_le_bytes(
        quantized(p.y as int, origin.y as int, scale) as i32,
    ) + i32_le_bytes(quantized(p.z as int, origin.z as int, scale) as i32)
}

/// The records of the first `n` points of `points`, one after the other.
pub open spec fn point_records(points: Seq<Vector3>, origin: Vector3, scale: int, n: nat) -> Seq<
    u8,
>
    decreases n,
{
    if n == 0 {
        Seq::empty()
    } else {
        point_records(points, origin, scale, (n - 1) as nat) + point_record(
            points[n - 1],
            origin,
            scale,
        )
    }
}

/// The encoding of a signed 32-bit integer has four bytes.
pub proof fn lemma_i32_le_bytes_len(value: i32)
    ensures
        i32_le_bytes(value).len() == 4,
{
    if value >= 0 {
        lemma_le_bytes_len(value as nat, 4);
    } else {
        lemma_le_bytes_len((value + 0x1_0000_0000) as nat, 4);
    }
}

/// A point record has twelve bytes.
pub proof fn lemma_point_record_len(p: Vector3, origin: Vector3, scale: int)
    ensures
        point_record(p, origin, scale).len() == 12,
{
    lemma_i32_le_bytes_len(quantized(p.x as int, origin.x as int, scale) as i32);
    lemma_i32_le_bytes_len(quantized(p.y as int, origin.y as int, scale) as i32);
    lemma_i32_le_bytes_len(quantized(p.z as int, origin.z as int, scale) as i32);
}

/// The records of `n` points have twelve bytes each.
pub proof fn lemma_point_records_len(points: Seq<Vector3>, origin: Vector3, scale: int, n: nat)
    ensures
        point_records(points, origin, scale, n).len() == 12 * n,
    decreases n,
{
    if n > 0 {
        lemma_point_records_len(points, origin, scale, (n - 1) as nat);
        lemma_point_record_len(points[n - 1], origin, scale);
    }
}

/// Quantizes a coordinate: its distance from `origin` in steps of `scale`,
/// rounded to the nearest integer, a tie away from zero, and kept within
/// 32 bits.
pub fn quantize(coordinate: i64, origin: i64, scale: i64) -> (q: i32)
    requires
        -MAX_COORDINATE <= coordinate <= MAX_COORDINATE,
        -MAX_COORDINATE <= origin <= MAX_COORDINATE,
        0 < scale <= MAX_SCALE,
    ensures
        q == quantized(coordinate as int, origin as int, scale as int),
{
    let n = coordinate - origin;
    let distance: i64 = if n >= 0 {
        n
    } else {
        -n
    };
    let steps = (2 * distance + scale) / (2 * scale);
    assert(0 <= steps <= 2 * distance + scale) by (nonlinear_arith)
        requires
            steps == (2 * distance + scale) / (2 * scale),
            0 <= distance,
            0 < scale,
    ;
    if n >= 0 {
        if steps > i32::MAX as i64 {
            i32::MAX
        } else {
            steps as i32
        }
    } else {
        if steps > i32::MAX as i64 {
            i32::MIN
        } else {
            (-steps) as i32
        }
    }
}

} // verus!
