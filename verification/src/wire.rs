//! The binary bodies of the shard image and data-layer endpoints: an image
//! is three bytes (red, green, blue) per pixel, row-major; a layer is a
//! little-endian `u32` count followed by that many little-endian `i32`s.

use vstd::prelude::*;
use crate::model::Color;

verus! {

/// The value of four little-endian bytes as an unsigned number.
pub open spec fn le_u32(b0: u8, b1: u8, b2: u8, b3: u8) -> int {
    b0 + 256 * b1 + 65536 * b2 + 16777216 * b3
}

/// The value of four little-endian bytes as a two's-complement number.
pub open spec fn le_i32(b0: u8, b1: u8, b2: u8, b3: u8) -> int {
    let u = le_u32(b0, b1, b2, b3);
    if u >= 0x8000_0000 { u - 0x1_0000_0000 } else { u }
}

/// The `i`-th value of a layer body: the four bytes after the count and the
/// values before it.
pub open spec fn layer_value_at(bytes: Seq<u8>, i: int) -> int {
    let o = 4 + 4 * i;
    le_i32(bytes[o], bytes[o + 1], bytes[o + 2], bytes[o + 3])
}

/// A layer body: a count whose value matches the length, then the values.
pub open spec fn is_layer_body(bytes: Seq<u8>) -> bool {
    bytes.len() >= 4 && bytes.len() == 4 + 4 * le_u32(bytes[0], bytes[1], bytes[2], bytes[3])
}

/// Decodes a layer body; `None` when the length does not match the count.
pub fn decode_layer_data(bytes: &[u8]) -> (r: Option<Vec<i32>>)
    ensures
        match r {
            None => !is_layer_body(bytes@),
            Some(values) => is_layer_body(bytes@) && values@.len() == (bytes@.len() - 4) / 4
                && forall|i: int| 0 <= i < values@.len() ==> #[trigger] values@[i] == layer_value_at(bytes@, i),
        },
{
    if bytes.len() < 4 {
        return None;
    }
    let count: u64 = bytes[0] as u64 + 256 * (bytes[1] as u64) + 65536 * (bytes[2] as u64) + 16777216 * (bytes[3] as u64);
    if bytes.len() as u64 != 4 + count * 4 {
        return None;
    }
    let n = count as usize;
    let len = bytes.len();
    let mut data: Vec<i32> = Vec::new();
    let mut i: usize = 0;
    while i < n
        invariant
            len == bytes@.len(),
            bytes@.len() == 4 + 4 * n,
            i <= n,
            data@.len() == i,
            forall|k: int| 0 <= k < i ==> #[trigger] data@[k] == layer_value_at(bytes@, k),
        decreases n - i,
    {
        let o = 4 + i * 4;
        let u: u64 = bytes[o] as u64 + 256 * (bytes[o + 1] as u64) + 65536 * (bytes[o + 2] as u64)
            + 16777216 * (bytes[o + 3] as u64);
        let v: i32 = if u >= 0x8000_0000 { (u as i64 - 0x1_0000_0000) as i32 } else { u as i32 };
        data.push(v);
        i += 1;
    }
    Some(data)
}

/// Encodes a layer body: the count, then each value, little-endian.
pub fn encode_layer_data(values: &Vec<i32>) -> (bytes: Vec<u8>)
    requires
        values@.len() <= u32::MAX,
        4 + 4 * values@.len() <= usize::MAX,
    ensures
        bytes@.len() == 4 + 4 * values@.len(),
        le_u32(bytes@[0], bytes@[1], bytes@[2], bytes@[3]) == values@.len(),
        forall|i: int| 0 <= i < values@.len() ==> layer_value_at(bytes@, i) == #[trigger] values@[i],
{
    let mut bytes: Vec<u8> = Vec::new();
    push_u32_le(&mut bytes, values.len() as u32);
    let mut i: usize = 0;
    while i < values.len()
        invariant
            values@.len() <= u32::MAX,
            i <= values@.len(),
            bytes@.len() == 4 + 4 * i,
            le_u32(bytes@[0], bytes@[1], bytes@[2], bytes@[3]) == values@.len(),
            forall|k: int| 0 <= k < i ==> layer_value_at(bytes@, k) == #[trigger] values@[k],
        decreases values@.len() - i,
    {
        let v = values[i];
        let u: u32 = if v < 0 { (v as i64 + 0x1_0000_0000) as u32 } else { v as u32 };
        let ghost before = bytes@;
        push_u32_le(&mut bytes, u);
        proof {
            assert forall|k: int| 0 <= k < i + 1 implies layer_value_at(bytes@, k) == #[trigger] values@[k] by {
                if k < i {
                    assert(bytes@[4 + 4 * k] == before[4 + 4 * k]);
                    assert(bytes@[4 + 4 * k + 1] == before[4 + 4 * k + 1]);
                    assert(bytes@[4 + 4 * k + 2] == before[4 + 4 * k + 2]);
                    assert(bytes@[4 + 4 * k + 3] == before[4 + 4 * k + 3]);
                }
            }
        }
        i += 1;
    }
    bytes
}

/// Appends the four little-endian bytes of `u`.
fn push_u32_le(bytes: &mut Vec<u8>, u: u32)
    ensures
        final(bytes)@.len() == old(bytes)@.len() + 4,
        forall|k: int| 0 <= k < old(bytes)@.len() ==> #[trigger] final(bytes)@[k] == old(bytes)@[k],
        ({
            let n = old(bytes)@.len() as int;
            le_u32(final(bytes)@[n], final(bytes)@[n + 1], final(bytes)@[n + 2], final(bytes)@[n + 3]) == u
        }),
{
    let b0 = (u % 256) as u8;
    let b1 = ((u / 256) % 256) as u8;
    let b2 = ((u / 65536) % 256) as u8;
    let b3 = (u / 16777216) as u8;
    assert(b0 + 256 * b1 + 65536 * b2 + 16777216 * b3 == u) by (nonlinear_arith)
        requires
            b0 == u % 256,
            b1 == (u / 256) % 256,
            b2 == (u / 65536) % 256,
            b3 == u / 16777216,
            u <= 0xFFFF_FFFF,
    ;
    bytes.push(b0);
    bytes.push(b1);
    bytes.push(b2);
    bytes.push(b3);
}

/// Decodes an image body of `width x height` pixels; `None` when the body
/// does not hold exactly three bytes per pixel.
pub fn decode_rgb_colors(bytes: &[u8], width: usize, height: usize) -> (r: Option<Vec<Color>>)
    requires
        width * height * 3 <= usize::MAX,
    ensures
        match r {
            None => bytes@.len() != width * height * 3,
            Some(colors) => bytes@.len() == width * height * 3 && colors@.len() == width * height
                && forall|i: int| 0 <= i < colors@.len() ==> #[trigger] colors@[i]
                    == (Color { red: bytes@[3 * i], green: bytes@[3 * i + 1], blue: bytes@[3 * i + 2] }),
        },
{
    let n = width * height;
    if bytes.len() != n * 3 {
        return None;
    }
    let len = bytes.len();
    let mut colors: Vec<Color> = Vec::new();
    let mut i: usize = 0;
    while i < n
        invariant
            len == bytes@.len(),
            bytes@.len() == n * 3,
            i <= n,
            colors@.len() == i,
            forall|k: int| 0 <= k < i ==> #[trigger] colors@[k]
                == (Color { red: bytes@[3 * k], green: bytes@[3 * k + 1], blue: bytes@[3 * k + 2] }),
        decreases n - i,
    {
        colors.push(Color { red: bytes[3 * i], green: bytes[3 * i + 1], blue: bytes[3 * i + 2] });
        i += 1;
    }
    Some(colors)
}

/// Encodes an image body: three bytes per pixel.
pub fn encode_rgb_colors(colors: &Vec<Color>) -> (bytes: Vec<u8>)
    requires
        3 * colors@.len() <= usize::MAX,
    ensures
        bytes@.len() == 3 * colors@.len(),
        forall|i: int| 0 <= i < colors@.len() ==> #[trigger] colors@[i]
            == (Color { red: bytes@[3 * i], green: bytes@[3 * i + 1], blue: bytes@[3 * i + 2] }),
{
    let mut bytes: Vec<u8> = Vec::new();
    let mut i: usize = 0;
    while i < colors.len()
        invariant
            i <= colors@.len(),
            bytes@.len() == 3 * i,
            forall|k: int| 0 <= k < i ==> #[trigger] colors@[k]
                == (Color { red: bytes@[3 * k], green: bytes@[3 * k + 1], blue: bytes@[3 * k + 2] }),
        decreases colors@.len() - i,
    {
        let c = colors[i];
        bytes.push(c.red);
        bytes.push(c.green);
        bytes.push(c.blue);
        i += 1;
    }
    bytes
}

/// A layer survives the trip over the wire: decoding what was encoded gives
/// back the same values.
pub proof fn law_layer_round_trip(values: Seq<i32>, bytes: Seq<u8>, decoded: Seq<i32>)
    requires
        bytes.len() == 4 + 4 * values.len(),
        le_u32(bytes[0], bytes[1], bytes[2], bytes[3]) == values.len(),
        forall|i: int| 0 <= i < values.len() ==> layer_value_at(bytes, i) == #[trigger] values[i],
        is_layer_body(bytes),
        decoded.len() == (bytes.len() - 4) / 4,
        forall|i: int| 0 <= i < decoded.len() ==> #[trigger] decoded[i] == layer_value_at(bytes, i),
    ensures
        decoded == values,
{
    assert(decoded.len() == values.len());
    assert forall|i: int| 0 <= i < values.len() implies decoded[i] == values[i] by {
        assert(decoded[i] == layer_value_at(bytes, i));
    }
    assert(decoded =~= values);
}

/// An image survives the trip over the wire: decoding what was encoded gives
/// back the same colours.
pub proof fn law_image_round_trip(colors: Seq<Color>, bytes: Seq<u8>, decoded: Seq<Color>)
    requires
        bytes.len() == 3 * colors.len(),
        forall|i: int| 0 <= i < colors.len() ==> #[trigger] colors[i]
            == (Color { red: bytes[3 * i], green: bytes[3 * i + 1], blue: bytes[3 * i + 2] }),
        decoded.len() == colors.len(),
        forall|i: int| 0 <= i < decoded.len() ==> #[trigger] decoded[i]
            == (Color { red: bytes[3 * i], green: bytes[3 * i + 1], blue: bytes[3 * i + 2] }),
    ensures
        decoded == colors,
{
    assert forall|i: int| 0 <= i < colors.len() implies decoded[i] == colors[i] by {
        assert(decoded[i] == (Color { red: bytes[3 * i], green: bytes[3 * i + 1], blue: bytes[3 * i + 2] }));
    }
    assert(decoded =~= colors);
}

} // verus!
