//! The display's frame format: limited-range UYVY 4:2:2 pixels between a header and a trailer.

use vstd::arithmetic::power2::{lemma2_to64, lemma_pow2_adds, lemma_pow2_pos, pow2};
use vstd::prelude::*;

use crate::float::{number, one};
use crate::image::{Image, Rgba};
use crate::single::{exponent, is_nan, is_negative, nan, significand};

verus! {

pub const WIDTH: u16 = 480;

pub const HEIGHT: u16 = 480;

pub const VIC: u8 = 143;

pub const VID: u16 = 0x345f;

pub const PID: u16 = 0x9132;

pub const INTERFACE: i32 = 3;

pub const ENDPOINT: i32 = 0x04;

pub const CHUNK_SIZE: usize = 65_536;

/// Why pixels cannot be put into a frame.
#[derive(Clone, Copy, Debug, PartialEq, Eq, Structural)]
pub enum ProtocolError {
    /// UYVY 4:2:2 shares chroma between two pixels of a row, so rows are of even width.
    OddWidth,
    /// A frame's width counts blocks of sixteen pixels.
    WidthNotMultipleOf16,
    /// The pixel data is not as long as a frame of this size.
    PayloadLength,
}

/// `value` held between `low` and `high`.
pub open spec fn clamped(value: int, low: int, high: int) -> int {
    if value < low {
        low
    } else if value > high {
        high
    } else {
        value
    }
}

/// The bit pattern of one twentieth.
pub const MIN_BRIGHTNESS: u32 = 0x3d4c_cccd;

/// The bit pattern of one.
pub const MAX_BRIGHTNESS: u32 = 0x3f80_0000;

/// A brightness, as a bit pattern, brought between one twentieth and one.  What is not a number stays
/// what it is.
pub open spec fn clamped_brightness(bits: u32) -> u32 {
    if is_nan(bits) {
        bits
    } else if is_negative(bits) || bits < MIN_BRIGHTNESS {
        MIN_BRIGHTNESS
    } else if bits > MAX_BRIGHTNESS {
        MAX_BRIGHTNESS
    } else {
        bits
    }
}

/// The significand of a 256th at an exponent.
pub open spec fn significand_of_256th(exponent: int) -> int {
    if exponent == 122 {
        0x10_0000
    } else if exponent == 123 {
        0x8_0000
    } else if exponent == 124 {
        0x4_0000
    } else if exponent == 125 {
        0x2_0000
    } else if exponent == 126 {
        0x1_0000
    } else {
        0x8000
    }
}

/// The factor, in whole 256ths, by which every channel is multiplied: the brightness, rounded.  A
/// brightness that is not a number turns the picture black.
pub open spec fn brightness_scale(bits: u32) -> int {
    let brightness = clamped_brightness(bits);
    let unit = significand_of_256th(exponent(brightness));
    if is_nan(bits) {
        0
    } else {
        (significand(brightness) + unit / 2) / unit
    }
}

/// Brings a brightness between one twentieth and one.
pub fn clamp_brightness(bits: u32) -> (clamped: u32)
    ensures
        clamped == clamped_brightness(bits),
{
    if nan(bits) {
        bits
    } else if bits >= 0x8000_0000 || bits < MIN_BRIGHTNESS {
        MIN_BRIGHTNESS
    } else if bits > MAX_BRIGHTNESS {
        MAX_BRIGHTNESS
    } else {
        bits
    }
}

fn find_scale(bits: u32) -> (scale: i32)
    ensures
        scale == brightness_scale(bits),
        0 <= scale <= 256,
{
    if nan(bits) {
        return 0;
    }
    let brightness: u32 = clamp_brightness(bits);
    let exponent: u32 = brightness / 0x80_0000 % 0x100;
    let digits: u32 = 0x80_0000 + brightness % 0x80_0000;
    let scale: u32 = if exponent == 122 {
        (digits + 0x8_0000) / 0x10_0000
    } else if exponent == 123 {
        (digits + 0x4_0000) / 0x8_0000
    } else if exponent == 124 {
        (digits + 0x2_0000) / 0x4_0000
    } else if exponent == 125 {
        (digits + 0x1_0000) / 0x2_0000
    } else if exponent == 126 {
        (digits + 0x8000) / 0x1_0000
    } else {
        (digits + 0x4000) / 0x8000
    };
    scale as i32
}

/// A channel after dimming.
pub open spec fn dimmed(channel: u8, scale: int) -> int {
    channel * scale / 256
}

/// Luma of a dimmed pixel.
pub open spec fn luma(pixel: Rgba, scale: int) -> int {
    clamped(
        (257 * dimmed(pixel.r, scale) + 504 * dimmed(pixel.g, scale) + 98 * dimmed(pixel.b, scale))
            / 1000 + 16,
        16,
        235,
    )
}

/// Blue-difference chroma of a dimmed pixel.
pub open spec fn chroma_u(pixel: Rgba, scale: int) -> int {
    clamped(
        (439 * dimmed(pixel.b, scale) - 148 * dimmed(pixel.r, scale) - 291 * dimmed(pixel.g, scale))
            / 1000 + 128,
        16,
        240,
    )
}

/// Red-difference chroma of a dimmed pixel.
pub open spec fn chroma_v(pixel: Rgba, scale: int) -> int {
    clamped(
        (439 * dimmed(pixel.r, scale) - 368 * dimmed(pixel.g, scale) - 71 * dimmed(pixel.b, scale))
            / 1000 + 128,
        16,
        240,
    )
}

/// The four bytes of two neighbouring pixels: shared U, first Y, shared V, second Y.
pub open spec fn uyvy_pair(first: Rgba, second: Rgba, scale: int) -> Seq<int> {
    seq![
        (chroma_u(first, scale) + chroma_u(second, scale)) / 2,
        luma(first, scale),
        (chroma_v(first, scale) + chroma_v(second, scale)) / 2,
        luma(second, scale),
    ]
}

/// `bytes` holds the UYVY form of the first `2 * pairs` of `pixels`.
pub open spec fn is_uyvy_of(bytes: Seq<u8>, pixels: Seq<Rgba>, pairs: int, scale: int) -> bool {
    &&& bytes.len() == 4 * pairs
    &&& forall|k: int, c: int|
        0 <= k < pairs && 0 <= c < 4 ==> #[trigger] bytes[4 * k + c] == #[trigger] uyvy_pair(
            pixels[2 * k],
            pixels[2 * k + 1],
            scale,
        )[c]
}

/// Every byte lies in the limited video range: 16 to 235 for luma and 16 to 240 for chroma.
pub open spec fn is_limited_range(bytes: Seq<u8>) -> bool {
    forall|k: int| #![trigger bytes[k]]
        0 <= k < bytes.len() ==> 16 <= bytes[k] <= (if k % 2 == 0 {
            240
        } else {
            235int
        })
}

/// `bytes` holds the UYVY form of a whole image.
pub open spec fn is_uyvy_image(bytes: Seq<u8>, image: Image, brightness: u32) -> bool {
    is_uyvy_of(
        bytes,
        image.pixels@,
        image.pixels@.len() as int / 2,
        brightness_scale(brightness),
    )
}

/// Converts an image to UYVY 4:2:2.  `brightness` is the bit pattern of a single-precision number.
pub fn rgba_to_uyvy(image: &Image, brightness: u32) -> (result: Result<Vec<u8>, ProtocolError>)
    requires
        image.wf(),
    ensures
        result is Err <==> image.width % 2 != 0,
        result matches Err(error) ==> error == ProtocolError::OddWidth,
        result matches Ok(bytes) ==> {
            &&& bytes@.len() == 2 * (image.width * image.height)
            &&& is_uyvy_image(bytes@, *image, brightness)
            &&& is_limited_range(bytes@)
        },
{
    if image.width % 2 != 0 {
        return Err(ProtocolError::OddWidth);
    }
    proof {
        let half = image.width as int / 2;
        let height = image.height as int;
        assert(image.width * image.height == 2 * (half * height)) by (nonlinear_arith)
            requires
                image.width == 2 * half,
                image.height == height,
        ;
    }
    let scale: i32 = find_scale(brightness);
    let count: usize = image.pixels.len();
    let mut output: Vec<u8> = Vec::new();
    let mut k: usize = 0;
    while k < count / 2
        invariant
            k <= count / 2,
            count == image.pixels@.len(),
            0 <= scale <= 256,
            is_uyvy_of(output@, image.pixels@, k as int, scale as int),
        decreases count - k,
    {
        let ghost before = output@;
        let first = image.pixels[2 * k];
        let second = image.pixels[2 * k + 1];
        let (u1, y1, v1) = yuv(first, scale);
        let (u2, y2, v2) = yuv(second, scale);
        output.push(byte((u1 + u2) / 2));
        output.push(byte(y1));
        output.push(byte((v1 + v2) / 2));
        output.push(byte(y2));
        proof {
            let pair = uyvy_pair(first, second, scale as int);
            assert(output@[4 * k + 0] == pair[0]);
            assert(output@[4 * k + 1] == pair[1]);
            assert(output@[4 * k + 2] == pair[2]);
            assert(output@[4 * k + 3] == pair[3]);
            assert forall|j: int, c: int| 0 <= j < k + 1 && 0 <= c < 4 implies #[trigger] output@[4 * j
                + c] == #[trigger] uyvy_pair(
                image.pixels@[2 * j],
                image.pixels@[2 * j + 1],
                scale as int,
            )[c] by {
                if j < k {
                    assert(output@[4 * j + c] == before[4 * j + c]);
                }
            }
        }
        k = k + 1;
    }
    proof {
        lemma_uyvy_is_limited_range(output@, image.pixels@, k as int, scale as int);
    }
    Ok(output)
}

/// U, Y and V of one pixel.
fn yuv(pixel: Rgba, scale: i32) -> (parts: (i32, i32, i32))
    requires
        0 <= scale <= 256,
    ensures
        parts.0 == chroma_u(pixel, scale as int),
        parts.1 == luma(pixel, scale as int),
        parts.2 == chroma_v(pixel, scale as int),
{
    let r: i32 = dim(pixel.r, scale);
    let g: i32 = dim(pixel.g, scale);
    let b: i32 = dim(pixel.b, scale);
    let y: i32 = clamp((257 * r + 504 * g + 98 * b) / 1000 + 16, 16, 235);
    let u: i32 = clamp(div_floor(439 * b - 148 * r - 291 * g, 1000) + 128, 16, 240);
    let v: i32 = clamp(div_floor(439 * r - 368 * g - 71 * b, 1000) + 128, 16, 240);
    (u, y, v)
}

/// A channel multiplied by `scale` 256ths.
fn dim(channel: u8, scale: i32) -> (value: i32)
    requires
        0 <= scale <= 256,
    ensures
        value == dimmed(channel, scale as int),
        0 <= value <= 255,
{
    proof {
        assert(0 <= channel * scale <= 255 * 256) by (nonlinear_arith)
            requires
                0 <= channel <= 255,
                0 <= scale <= 256,
        ;
    }
    channel as i32 * scale / 256
}

/// `value` held between `low` and `high`.
pub fn clamp(value: i32, low: i32, high: i32) -> (result: i32)
    requires
        low <= high,
    ensures
        result == clamped(value as int, low as int, high as int),
{
    if value < low {
        low
    } else if value > high {
        high
    } else {
        value
    }
}

/// The low byte range that `value` falls into, saturating at both ends.
pub fn byte(value: i32) -> (result: u8)
    ensures
        result == clamped(value as int, 0, 255),
{
    clamp(value, 0, 255) as u8
}

/// Division that rounds toward negative infinity.
pub fn div_floor(numerator: i32, denominator: i32) -> (quotient: i32)
    requires
        denominator > 0,
    ensures
        quotient == numerator as int / denominator as int,
{
    if numerator >= 0 {
        numerator / denominator
    } else {
        let flipped: i32 = -(numerator + 1);
        let below: i32 = flipped / denominator;
        proof {
            let d = denominator as int;
            let m = flipped as int;
            let q = m / d;
            vstd::arithmetic::div_mod::lemma_fundamental_div_mod(m, d);
            assert(numerator == (-q - 1) * d + (d - 1 - m % d)) by (nonlinear_arith)
                requires
                    numerator == -m - 1,
                    m == d * q + m % d,
            ;
            vstd::arithmetic::div_mod::lemma_fundamental_div_mod_converse(
                numerator as int,
                d,
                -q - 1,
                d - 1 - m % d,
            );
        }
        -below - 1
    }
}

/// The eight bytes before the pixels: the width in blocks of sixteen, and the height.
pub open spec fn frame_header(width: u16, height: u16) -> Seq<u8> {
    seq![
        0xffu8,
        0u8,
        0u8,
        0u8,
        0u8,
        ((width / 16) % 256) as u8,
        (height / 256) as u8,
        (height % 256) as u8,
    ]
}

/// The eight bytes after the pixels.
pub open spec fn frame_trailer() -> Seq<u8> {
    seq![0xffu8, 0xc0u8, 0u8, 0u8, 0u8, 0u8, 0u8, 0u8]
}

/// Puts the pixels of a whole frame between header and trailer.
pub fn frame_packet(uyvy: &[u8], width: u16, height: u16) -> (result: Result<Vec<u8>, ProtocolError>)
    ensures
        result matches Err(error) ==> error == (if width % 16 != 0 {
            ProtocolError::WidthNotMultipleOf16
        } else {
            ProtocolError::PayloadLength
        }),
        result is Ok <==> width % 16 == 0 && uyvy@.len() == width * height * 2,
        result matches Ok(packet) ==> packet@ == frame_header(width, height) + uyvy@
            + frame_trailer(),
{
    if !width.is_multiple_of(16) {
        return Err(ProtocolError::WidthNotMultipleOf16);
    }
    proof {
        assert(0 <= width * height <= 0xffff * 0xffff) by (nonlinear_arith)
            requires
                0 <= width <= 0xffff,
                0 <= height <= 0xffff,
        ;
    }
    let payload_length: u64 = width as u64 * height as u64 * 2;
    if uyvy.len() as u64 != payload_length {
        return Err(ProtocolError::PayloadLength);
    }
    let mut packet: Vec<u8> = Vec::new();
    packet.push(0xff);
    packet.push(0);
    packet.push(0);
    packet.push(0);
    packet.push(0);
    packet.push(((width / 16) % 256) as u8);
    packet.push((height / 256) as u8);
    packet.push((height % 256) as u8);
    proof {
        assert(packet@ =~= frame_header(width, height));
    }
    packet.extend_from_slice(uyvy);
    let ghost middle = packet@;
    packet.push(0xff);
    packet.push(0xc0);
    packet.push(0);
    packet.push(0);
    packet.push(0);
    packet.push(0);
    packet.push(0);
    packet.push(0);
    proof {
        assert(middle =~= frame_header(width, height) + uyvy@);
        assert(packet@ =~= middle + frame_trailer());
    }
    Ok(packet)
}

/// Every byte of a converted image stays inside the limited video range.
pub proof fn lemma_uyvy_is_limited_range(bytes: Seq<u8>, pixels: Seq<Rgba>, pairs: int, scale: int)
    requires
        is_uyvy_of(bytes, pixels, pairs, scale),
    ensures
        is_limited_range(bytes),
{
    assert forall|k: int| 0 <= k < bytes.len() implies 16 <= #[trigger] bytes[k] <= (if k % 2 == 0 {
        240
    } else {
        235int
    }) by {
        lemma_byte_of_pair(bytes, pixels, pairs, scale, k);
    }
}

/// A byte stands at its place in its pair.
proof fn lemma_byte_of_pair(bytes: Seq<u8>, pixels: Seq<Rgba>, pairs: int, scale: int, k: int)
    requires
        is_uyvy_of(bytes, pixels, pairs, scale),
        0 <= k < bytes.len(),
    ensures
        0 <= k / 4 < pairs,
        bytes[k] == uyvy_pair(pixels[2 * (k / 4)], pixels[2 * (k / 4) + 1], scale)[k % 4],
{
    let pair = k / 4;
    let c = k % 4;
    assert(k == 4 * pair + c);
    assert(bytes[4 * pair + c] == uyvy_pair(pixels[2 * pair], pixels[2 * pair + 1], scale)[c]);
}

/// Two pixels with the same colour.
pub open spec fn same_color(pixel: Rgba, other: Rgba) -> bool {
    pixel.r == other.r && pixel.g == other.g && pixel.b == other.b
}

/// How transparent a pixel is does not matter.
pub proof fn lemma_alpha_does_not_matter(
    image: Image,
    other: Image,
    brightness: u32,
    bytes: Seq<u8>,
    other_bytes: Seq<u8>,
)
    requires
        image.pixels@.len() == other.pixels@.len(),
        forall|i: int|
            0 <= i < image.pixels@.len() ==> same_color(
                #[trigger] image.pixels@[i],
                other.pixels@[i],
            ),
        is_uyvy_image(bytes, image, brightness),
        is_uyvy_image(other_bytes, other, brightness),
    ensures
        bytes == other_bytes,
{
    let pairs = image.pixels@.len() as int / 2;
    let scale = brightness_scale(brightness);
    assert forall|k: int| 0 <= k < bytes.len() implies bytes[k] == other_bytes[k] by {
        lemma_byte_of_pair(bytes, image.pixels@, pairs, scale, k);
        lemma_byte_of_pair(other_bytes, other.pixels@, pairs, scale, k);
        assert(same_color(image.pixels@[2 * (k / 4)], other.pixels@[2 * (k / 4)]));
        assert(same_color(image.pixels@[2 * (k / 4) + 1], other.pixels@[2 * (k / 4) + 1]));
    }
    assert(bytes =~= other_bytes);
}

/// A brightness below one twentieth is one twentieth, and one above one is one.
pub proof fn lemma_brightness_is_held(
    image: Image,
    brightness: u32,
    bytes: Seq<u8>,
    limit: u32,
    limit_bytes: Seq<u8>,
)
    requires
        !is_nan(brightness),
        ({
            ||| limit == MIN_BRIGHTNESS && (is_negative(brightness) || brightness < MIN_BRIGHTNESS)
            ||| limit == MAX_BRIGHTNESS && !is_negative(brightness) && brightness > MAX_BRIGHTNESS
        }),
        is_uyvy_image(bytes, image, brightness),
        is_uyvy_image(limit_bytes, image, limit),
    ensures
        bytes == limit_bytes,
{
    let pairs = image.pixels@.len() as int / 2;
    let scale = brightness_scale(brightness);
    assert(!is_nan(limit) && clamped_brightness(limit) == limit);
    assert forall|k: int| 0 <= k < bytes.len() implies bytes[k] == limit_bytes[k] by {
        lemma_byte_of_pair(bytes, image.pixels@, pairs, scale, k);
        lemma_byte_of_pair(limit_bytes, image.pixels@, pairs, scale, k);
    }
    assert(bytes =~= limit_bytes);
}

/// Swapping the two pixels of a pair swaps its luma, and keeps its chroma.
pub proof fn lemma_swapped_pair(
    image: Image,
    other: Image,
    brightness: u32,
    bytes: Seq<u8>,
    other_bytes: Seq<u8>,
    pair: int,
)
    requires
        image.pixels@.len() == other.pixels@.len(),
        0 <= pair < image.pixels@.len() / 2,
        other.pixels@[2 * pair] == image.pixels@[2 * pair + 1],
        other.pixels@[2 * pair + 1] == image.pixels@[2 * pair],
        is_uyvy_image(bytes, image, brightness),
        is_uyvy_image(other_bytes, other, brightness),
    ensures
        other_bytes[4 * pair] == bytes[4 * pair],
        other_bytes[4 * pair + 1] == bytes[4 * pair + 3],
        other_bytes[4 * pair + 2] == bytes[4 * pair + 2],
        other_bytes[4 * pair + 3] == bytes[4 * pair + 1],
{
    let pairs = image.pixels@.len() as int / 2;
    let scale = brightness_scale(brightness);
    assert forall|c: int| 0 <= c < 4 implies #[trigger] bytes[4 * pair + c] == uyvy_pair(
        image.pixels@[2 * pair],
        image.pixels@[2 * pair + 1],
        scale,
    )[c] && other_bytes[4 * pair + c] == uyvy_pair(
        other.pixels@[2 * pair],
        other.pixels@[2 * pair + 1],
        scale,
    )[c] by {
        lemma_byte_of_pair(bytes, image.pixels@, pairs, scale, 4 * pair + c);
        lemma_byte_of_pair(other_bytes, other.pixels@, pairs, scale, 4 * pair + c);
    }
    assert(bytes[4 * pair + 0] == bytes[4 * pair]);
    assert(bytes[4 * pair + 1] == bytes[4 * pair + 1] && bytes[4 * pair + 2] == bytes[4 * pair + 2]
        && bytes[4 * pair + 3] == bytes[4 * pair + 3]);
}

/// Two grey pixels carry no colour: their chroma bytes are neutral at every brightness.
pub proof fn lemma_grey_has_neutral_chroma(
    image: Image,
    brightness: u32,
    bytes: Seq<u8>,
    pair: int,
)
    requires
        0 <= pair < image.pixels@.len() / 2,
        image.pixels@[2 * pair].r == image.pixels@[2 * pair].g == image.pixels@[2 * pair].b,
        image.pixels@[2 * pair + 1].r == image.pixels@[2 * pair + 1].g
            == image.pixels@[2 * pair + 1].b,
        is_uyvy_image(bytes, image, brightness),
    ensures
        bytes[4 * pair] == 128,
        bytes[4 * pair + 2] == 128,
{
    let pairs = image.pixels@.len() as int / 2;
    let scale = brightness_scale(brightness);
    lemma_byte_of_pair(bytes, image.pixels@, pairs, scale, 4 * pair);
    lemma_byte_of_pair(bytes, image.pixels@, pairs, scale, 4 * pair + 2);
}

/// The number with bit pattern `low` is not greater than the one with bit pattern `high`.
pub open spec fn is_at_most(low: u32, high: u32) -> bool {
    if is_negative(low) {
        !is_negative(high) || high <= low
    } else {
        !is_negative(high) && low <= high
    }
}

/// Lowering the brightness makes no pixel brighter.
pub proof fn lemma_dimmer_is_not_brighter(
    image: Image,
    low: u32,
    low_bytes: Seq<u8>,
    high: u32,
    high_bytes: Seq<u8>,
    k: int,
)
    requires
        !is_nan(low),
        !is_nan(high),
        is_at_most(low, high),
        is_uyvy_image(low_bytes, image, low),
        is_uyvy_image(high_bytes, image, high),
        0 <= k < low_bytes.len(),
        k % 2 == 1,
    ensures
        low_bytes[k] <= high_bytes[k],
{
    let pairs = image.pixels@.len() as int / 2;
    lemma_scale_is_monotone(low, high);
    lemma_byte_of_pair(low_bytes, image.pixels@, pairs, brightness_scale(low), k);
    lemma_byte_of_pair(high_bytes, image.pixels@, pairs, brightness_scale(high), k);
    let pixel = image.pixels@[2 * (k / 4) + (k % 4) / 2];
    lemma_luma_is_monotone(pixel, brightness_scale(low), brightness_scale(high));
}

proof fn lemma_scale_is_monotone(low: u32, high: u32)
    requires
        !is_nan(low),
        !is_nan(high),
        is_at_most(low, high),
    ensures
        0 <= brightness_scale(low) <= brightness_scale(high),
{
    let a = clamped_brightness(low);
    let b = clamped_brightness(high);
    assert(a <= b);
    assert(122 <= exponent(a) <= exponent(b) <= 127);
    lemma_scale_bounds(a);
    lemma_scale_bounds(b);
    if exponent(a) == exponent(b) {
        let unit = significand_of_256th(exponent(a));
        assert(significand(a) <= significand(b));
        vstd::arithmetic::div_mod::lemma_div_is_ordered(
            significand(a) + unit / 2,
            significand(b) + unit / 2,
            unit,
        );
    }
}

/// The least number of 256ths at an exponent.
spec fn least_scale(exponent: int) -> int {
    if exponent == 122 {
        8
    } else if exponent == 123 {
        16
    } else if exponent == 124 {
        32
    } else if exponent == 125 {
        64
    } else if exponent == 126 {
        128
    } else {
        256
    }
}

proof fn lemma_scale_bounds(bits: u32)
    requires
        122 <= exponent(bits) <= 127,
    ensures
        ({
            let unit = significand_of_256th(exponent(bits));
            let least = least_scale(exponent(bits));
            least <= (significand(bits) + unit / 2) / unit <= 2 * least
        }),
{
}

proof fn lemma_luma_is_monotone(pixel: Rgba, low: int, high: int)
    requires
        0 <= low <= high,
    ensures
        luma(pixel, low) <= luma(pixel, high),
{
    lemma_dimmed_is_monotone(pixel.r, low, high);
    lemma_dimmed_is_monotone(pixel.g, low, high);
    lemma_dimmed_is_monotone(pixel.b, low, high);
}

proof fn lemma_dimmed_is_monotone(channel: u8, low: int, high: int)
    requires
        0 <= low <= high,
    ensures
        dimmed(channel, low) <= dimmed(channel, high),
{
    assert(channel * low <= channel * high) by (nonlinear_arith)
        requires
            0 <= channel,
            low <= high,
    ;
}

/// The pixels of a packet are read back from behind its header, and a packet tells its size.
pub proof fn lemma_packet_holds_its_frame(packet: Seq<u8>, uyvy: Seq<u8>, width: u16, height: u16)
    requires
        packet == frame_header(width, height) + uyvy + frame_trailer(),
        width % 16 == 0,
        width < 4096,
    ensures
        packet.len() == uyvy.len() + 16,
        packet.subrange(8, 8int + uyvy.len()) == uyvy,
        packet[5] * 16 == width,
        packet[6] * 256 + packet[7] == height,
        packet.subrange(8int + uyvy.len(), packet.len() as int) == frame_trailer(),
{
    assert(packet.subrange(8, 8int + uyvy.len()) =~= uyvy);
    assert(packet.subrange(8int + uyvy.len(), packet.len() as int) =~= frame_trailer());
}

/// A brightness is at least thirteen and at most 256 of 256ths, and full brightness leaves every
/// channel as it is.
pub proof fn lemma_brightness_is_limited(bits: u32, channel: u8)
    ensures
        !is_nan(bits) ==> 13 <= brightness_scale(bits) <= 256,
        brightness_scale(MAX_BRIGHTNESS) == 256,
        dimmed(channel, brightness_scale(MAX_BRIGHTNESS)) == channel,
{
    if !is_nan(bits) {
        let brightness = clamped_brightness(bits);
        let exponent = exponent(brightness);
        assert(122 <= exponent <= 127);
    }
    assert(brightness_scale(MAX_BRIGHTNESS) == 256);
}

/// The brightness that is meant, as a number, and the number of 256ths by which channels are
/// multiplied: the nearest one, the greater of two.
pub open spec fn is_scale_of(brightness: u32, scale: int) -> bool {
    let held = if brightness >= 0x8000_0000 || brightness < 0x3d4c_cccd {
        number(0x3d4c_cccd)
    } else if brightness > 0x3f80_0000 {
        one()
    } else {
        number(brightness)
    };
    2 * scale * one() <= 512 * held + one() < 2 * (scale + 1) * one()
}

proof fn lemma_scale_is_nearest(brightness: u32, scale: int)
    requires
        !is_nan(brightness),
        is_scale_of(brightness, scale),
    ensures
        brightness_scale(brightness) == scale,
{
    let held = clamped_brightness(brightness);
    let power = exponent(held);
    let digits = significand(held);
    lemma2_to64();
    lemma_pow2_pos(3972);
    lemma_pow2_adds(28, 3972);
    lemma_pow2_adds(1, 3972);
    lemma_pow2_adds(2, 3972);
    lemma_pow2_adds(3, 3972);
    lemma_pow2_adds(4, 3972);
    lemma_pow2_adds(5, 3972);
    lemma_pow2_adds(23, 3977);
    let base = pow2(3972);
    assert(exponent(0x3f80_0000) == 127 && significand(0x3f80_0000) == 0x80_0000);
    assert(122 <= power <= 127);
    let weight: int = if power == 122 {
        1
    } else if power == 123 {
        2
    } else if power == 124 {
        4
    } else if power == 125 {
        8
    } else if power == 126 {
        16
    } else {
        32
    };
    assert(number(held) == digits * (weight * base)) by {
        assert(number(held) == digits as nat * pow2((3850 + power) as nat));
    }
    assert(digits * (weight * base) == (digits * weight) * base) by (nonlinear_arith);
    let found = brightness_scale(brightness);
    let whole_part = digits * weight;
    assert(2 * found * 0x1000_0000 <= 512 * whole_part + 0x1000_0000 < 2 * (found + 1)
        * 0x1000_0000);
    assert(2 * scale * 0x1000_0000 <= 512 * whole_part + 0x1000_0000 < 2 * (scale + 1)
        * 0x1000_0000) by (nonlinear_arith)
        requires
            2 * scale * one() <= 512 * (whole_part * base) + one(),
            512 * (whole_part * base) + one() < 2 * (scale + 1) * one(),
            one() == 0x1000_0000 * base,
            base > 0,
    ;
}

/// Two neighbouring pixels become four bytes: the means of their chroma in the first and third, and the
/// luma of each in the second and fourth.  Every channel is first multiplied by the nearest number of
/// 256ths to the brightness, and rounded down.
#[verifier::rlimit(40)]
pub proof fn lemma_pair_is_converted(
    image: &Image,
    brightness: u32,
    result: Result<Vec<u8>, ProtocolError>,
    scale: int,
    pair: int,
)
    requires
        image.wf(),
        call_ensures(rgba_to_uyvy, (image, brightness), result),
        image.width % 2 == 0,
        !is_nan(brightness),
        is_scale_of(brightness, scale),
        0 <= pair < image.pixels@.len() / 2,
    ensures
        result matches Ok(bytes) && {
            let first = image.pixels@[2 * pair];
            let second = image.pixels@[2 * pair + 1];
            let r1 = first.r * scale / 256;
            let g1 = first.g * scale / 256;
            let b1 = first.b * scale / 256;
            let r2 = second.r * scale / 256;
            let g2 = second.g * scale / 256;
            let b2 = second.b * scale / 256;
            &&& bytes@.len() == 2 * image.pixels@.len()
            &&& bytes@[4 * pair] == ((439 * b1 - 148 * r1 - 291 * g1) / 1000 + (439 * b2 - 148 * r2
                - 291 * g2) / 1000 + 256) / 2
            &&& bytes@[4 * pair + 1] == 16 + (257 * r1 + 504 * g1 + 98 * b1) / 1000
            &&& bytes@[4 * pair + 2] == ((439 * r1 - 368 * g1 - 71 * b1) / 1000 + (439 * r2 - 368
                * g2 - 71 * b2) / 1000 + 256) / 2
            &&& bytes@[4 * pair + 3] == 16 + (257 * r2 + 504 * g2 + 98 * b2) / 1000
        },
{
    let bytes = result->Ok_0@;
    let pairs = image.pixels@.len() as int / 2;
    lemma_scale_is_nearest(brightness, scale);
    lemma_brightness_is_limited(brightness, 0);
    let first = image.pixels@[2 * pair];
    let second = image.pixels@[2 * pair + 1];
    lemma_pixel_is_converted(first, scale);
    lemma_pixel_is_converted(second, scale);
    lemma_byte_of_pair(bytes, image.pixels@, pairs, scale, 4 * pair);
    lemma_byte_of_pair(bytes, image.pixels@, pairs, scale, 4 * pair + 1);
    lemma_byte_of_pair(bytes, image.pixels@, pairs, scale, 4 * pair + 2);
    lemma_byte_of_pair(bytes, image.pixels@, pairs, scale, 4 * pair + 3);
    let converted = uyvy_pair(first, second, scale);
    assert(bytes[4 * pair] == converted[0]);
    assert(bytes[4 * pair + 1] == converted[1]);
    assert(bytes[4 * pair + 2] == converted[2]);
    assert(bytes[4 * pair + 3] == converted[3]);
}

/// The luma and the chroma of a pixel never reach their limits.
proof fn lemma_pixel_is_converted(pixel: Rgba, scale: int)
    requires
        0 <= scale <= 256,
    ensures
        ({
            let r = pixel.r * scale / 256;
            let g = pixel.g * scale / 256;
            let b = pixel.b * scale / 256;
            &&& luma(pixel, scale) == 16 + (257 * r + 504 * g + 98 * b) / 1000
            &&& chroma_u(pixel, scale) == 128 + (439 * b - 148 * r - 291 * g) / 1000
            &&& chroma_v(pixel, scale) == 128 + (439 * r - 368 * g - 71 * b) / 1000
        }),
{
    lemma_dimmed_is_bounded(pixel.r, scale);
    lemma_dimmed_is_bounded(pixel.g, scale);
    lemma_dimmed_is_bounded(pixel.b, scale);
}

proof fn lemma_dimmed_is_bounded(channel: u8, scale: int)
    requires
        0 <= scale <= 256,
    ensures
        0 <= dimmed(channel, scale) <= 255,
{
    assert(0 <= channel * scale <= 255 * 256) by (nonlinear_arith)
        requires
            0 <= channel <= 255,
            0 <= scale <= 256,
    ;
}

/// At full brightness two equal pixels have the chroma and luma of their colour.
#[verifier::rlimit(60)]
pub proof fn lemma_full_brightness_keeps_colour(
    image: &Image,
    result: Result<Vec<u8>, ProtocolError>,
    pair: int,
)
    requires
        image.wf(),
        call_ensures(rgba_to_uyvy, (image, 0x3f80_0000), result),
        image.width % 2 == 0,
        0 <= pair < image.pixels@.len() / 2,
        image.pixels@[2 * pair] == image.pixels@[2 * pair + 1],
    ensures
        result matches Ok(bytes) && {
            let pixel = image.pixels@[2 * pair];
            let r = pixel.r as int;
            let g = pixel.g as int;
            let b = pixel.b as int;
            &&& bytes@[4 * pair] == 128 + (439 * b - 148 * r - 291 * g) / 1000
            &&& bytes@[4 * pair + 2] == 128 + (439 * r - 368 * g - 71 * b) / 1000
            &&& bytes@[4 * pair + 1] == 16 + (257 * r + 504 * g + 98 * b) / 1000
            &&& bytes@[4 * pair + 3] == 16 + (257 * r + 504 * g + 98 * b) / 1000
        },
{
    lemma2_to64();
    lemma_pow2_pos(4000);
    lemma_pow2_adds(23, 3977);
    assert(exponent(0x3f80_0000) == 127 && significand(0x3f80_0000) == 0x80_0000);
    assert(number(0x3f80_0000) == one());
    assert(2 * 256 * one() <= 512 * one() + one() < 2 * (256 + 1) * one()) by (nonlinear_arith)
        requires
            one() > 0,
    ;
    lemma_pair_is_converted(image, 0x3f80_0000, result, 256, pair);
    let pixel = image.pixels@[2 * pair];
    let r = pixel.r as int;
    let g = pixel.g as int;
    let b = pixel.b as int;
    assert(pixel.r * 256 / 256 == r);
    assert(pixel.g * 256 / 256 == g);
    assert(pixel.b * 256 / 256 == b);
    let u = (439 * b - 148 * r - 291 * g) / 1000;
    let v = (439 * r - 368 * g - 71 * b) / 1000;
    assert((u + u + 256) / 2 == 128 + u);
    assert((v + v + 256) / 2 == 128 + v);
}

/// A brightness that is not a number turns every picture black.
pub proof fn lemma_no_brightness_is_black(
    image: &Image,
    brightness: u32,
    result: Result<Vec<u8>, ProtocolError>,
    k: int,
)
    requires
        image.wf(),
        call_ensures(rgba_to_uyvy, (image, brightness), result),
        image.width % 2 == 0,
        0x7f80_0000 < brightness < 0x8000_0000 || brightness > 0xff80_0000,
    ensures
        result matches Ok(bytes) && (0 <= k < bytes@.len() ==> bytes@[k] == if k % 2 == 0 {
            128
        } else {
            16int
        }),
{
    let bytes = result->Ok_0@;
    if 0 <= k < bytes.len() {
        lemma_byte_of_pair(bytes, image.pixels@, image.pixels@.len() as int / 2, 0, k);
    }
}

/// A packet is refused if its width is not a multiple of sixteen or its pixels are not two bytes each;
/// otherwise it is the pixels between a header that tells its size and a trailer.
pub proof fn lemma_packet_layout(
    uyvy: &[u8],
    width: u16,
    height: u16,
    result: Result<Vec<u8>, ProtocolError>,
)
    requires
        call_ensures(frame_packet, (uyvy, width, height), result),
    ensures
        width % 16 != 0 ==> result matches Err(ProtocolError::WidthNotMultipleOf16),
        width % 16 == 0 && uyvy@.len() != 2 * (width * height) ==> result matches Err(
            ProtocolError::PayloadLength,
        ),
        width % 16 == 0 && uyvy@.len() == 2 * (width * height) ==> result is Ok,
        result matches Ok(packet) ==> {
            let end = 8int + uyvy@.len();
            &&& packet@.len() == end + 8
            &&& packet@[0] == 255 && packet@[1] == 0 && packet@[2] == 0 && packet@[3] == 0
                && packet@[4] == 0
            &&& packet@[5] == width as int / 16 % 256
            &&& 256 * packet@[6] + packet@[7] == height
            &&& forall|i: int| 0 <= i < uyvy@.len() ==> packet@[8 + i] == #[trigger] uyvy@[i]
            &&& packet@[end] == 255 && packet@[end + 1] == 192
            &&& forall|i: int| 2 <= i < 8 ==> #[trigger] packet@[end + i] == 0
        },
{
    assert(width * height * 2 == 2 * (width * height)) by (nonlinear_arith);
    if let Ok(packet) = result {
        let head = frame_header(width, height);
        let tail = frame_trailer();
        assert(packet@ == head + uyvy@ + tail);
        assert forall|i: int| 0 <= i < uyvy@.len() implies packet@[8 + i] == #[trigger] uyvy@[i] by {
            assert((head + uyvy@)[8 + i] == uyvy@[i]);
        }
        let end = 8int + uyvy@.len();
        assert forall|i: int| 0 <= i < 8 implies #[trigger] packet@[end + i] == tail[i] by {}
        assert(packet@[end] == tail[0]) by {
            assert(packet@[end + 0] == tail[0]);
        }
    }
}

/// A brightness that is a number comes between one twentieth and one, and stays what it is if it
/// already lies there.
pub proof fn lemma_brightness_is_brought_in(bits: u32, clamped: u32)
    requires
        call_ensures(clamp_brightness, (bits,), clamped),
    ensures
        0x3d4c_cccd <= bits <= 0x3f80_0000 ==> clamped == bits,
        bits < 0x3d4c_cccd ==> clamped == 0x3d4c_cccd,
        0x3f80_0000 < bits <= 0x7f80_0000 ==> clamped == 0x3f80_0000,
        0x8000_0000 <= bits <= 0xff80_0000 ==> clamped == 0x3d4c_cccd,
        0x7f80_0000 < bits < 0x8000_0000 || bits > 0xff80_0000 ==> clamped == bits,
{
}

/// A number is brought to the nearest of its limits, and a quotient is rounded down, below zero as well.
pub proof fn lemma_numbers_are_brought_in(
    value: i32,
    low: i32,
    high: i32,
    held: i32,
    held_byte: u8,
    divisor: i32,
    quotient: i32,
)
    requires
        low <= high,
        divisor > 0,
        call_ensures(clamp, (value, low, high), held),
        call_ensures(byte, (value,), held_byte),
        call_ensures(div_floor, (value, divisor), quotient),
    ensures
        low <= held <= high,
        low <= value <= high ==> held == value,
        value < low ==> held == low,
        value > high ==> held == high,
        0 <= value <= 255 ==> held_byte == value,
        value < 0 ==> held_byte == 0,
        value > 255 ==> held_byte == 255,
        quotient * divisor <= value < quotient * divisor + divisor,
{
    let d = divisor as int;
    let q = quotient as int;
    vstd::arithmetic::div_mod::lemma_fundamental_div_mod(value as int, d);
    assert(d * q == q * d) by (nonlinear_arith);
}

} // verus!
