//! The picture behind the dashboard: a still image, an animation, or a built-in effect.

use vstd::arithmetic::power2::{
    lemma2_to64, lemma2_to64_rest, lemma_pow2_adds, lemma_pow2_pos, lemma_pow2_strictly_increases,
    lemma_pow2_unfold, pow2,
};
use vstd::prelude::*;

use crate::float::{
    add_floats, divide_floats, double, from_integer, is_less, lemma_nanoseconds_are_close,
    lemma_power_bound, lemma_rounded_is_close,
    lemma_quotient_bound, lemma_round_bound, lemma_rounded_is_monotone, lemma_rounded_keeps_bound,
    lemma_whole_bounds, multiply_floats, nanoseconds, one, to_nanoseconds, whole, Float, Precision,
};
use crate::image::{
    channels, crop, is_crop, lemma_channels_are_read_back, lemma_pixel_index, mul_u32, pixel_index,
    raw_pixel, replace_rows, Image, Rgba,
};
use crate::single::{
    lemma_single_is_close, lemma_single_of_shifted, round_to_single, single,
};
use crate::text::{eq_text_ignoring_case, lower_char, same_text_ignoring_case};

verus! {

/// The most frames an animation may have.
pub const MAX_GIF_FRAMES: usize = 120;

/// The shortest time that a frame of an animation is shown, in nanoseconds: ten milliseconds.
pub const SHORTEST_DELAY: u64 = 10_000_000;

/// The row of the display where the picture starts.
pub const BACKGROUND_TOP: u32 = 105;

/// The number of rows the picture takes.
pub const BACKGROUND_HEIGHT: u32 = 270;

/// The width and height of the display.
pub const SIDE: u32 = 480;

/// The longest side of a target.  Up to this length, rounding in single precision leaves no scaled side
/// short of its target, so that the middle can be cut out; the display asks for 480 pixels at most.
pub const MAX_SIDE: u32 = 0x10_0000;

/// One, in the fixed-point numbers that scales are held in.
pub const SCALE_ONE: u128 = 0x1_0000_0000_0000_0000;

/// `image::Frames` gives the frames of an animation one after the other.
#[verifier::external_type_specification]
#[verifier::external_body]
pub struct ExFrames<'a>(::image::Frames<'a>);

/// `image::Frame` is one frame of an animation.
#[verifier::external_type_specification]
#[verifier::external_body]
pub struct ExFrame(::image::Frame);

/// `image::ImageError` says why a picture could not be decoded.
#[verifier::external_type_specification]
#[verifier::external_body]
pub struct ExImageError(::image::ImageError);

/// Whether `image::codecs::gif::GifDecoder::new` accepts these bytes.
pub uninterp spec fn gif_opens(data: Seq<u8>) -> bool;

/// What the frames of a decoded GIF give at the `index`-th call of `next`: nothing, an error, or
/// width, height, channels, and the numerator and denominator of the delay in milliseconds.
pub uninterp spec fn gif_item(data: Seq<u8>, index: int) -> Option<
    Option<(u32, u32, Seq<u8>, u32, u32)>,
>;

/// The file that a decoder's frames come from.
pub uninterp spec fn frames_data(frames: ::image::Frames) -> Seq<u8>;

/// The number of calls of `next` so far.
pub uninterp spec fn frames_taken(frames: ::image::Frames) -> int;

/// Opens a GIF with `image::codecs::gif::GifDecoder::new` and hands out its frames with
/// `into_frames`: no frame has been taken yet.
#[verifier::external_body]
fn open_gif(data: Vec<u8>) -> (frames: Result<::image::Frames<'static>, ::image::ImageError>)
    ensures
        frames is Ok <==> gif_opens(data@),
        frames matches Ok(frames) ==> frames_data(frames) == data@ && frames_taken(frames) == 0,
{
    let decoder = ::image::codecs::gif::GifDecoder::new(std::io::Cursor::new(data))?;
    Ok(::image::AnimationDecoder::into_frames(decoder))
}

/// The width and height of the picture that `image::ImageReader::decode` makes of a file with this
/// extension, if it makes one.
pub uninterp spec fn still_shape(data: Seq<u8>, extension: Seq<char>) -> Option<(u32, u32)>;

/// `raw` is one of the results that decoding a file with this extension and converting the picture
/// with `to_rgba8` can have.  There may be several, because the JPEG decoder picks its arithmetic by
/// the processor it runs on.
pub uninterp spec fn is_decode_result(data: Seq<u8>, extension: Seq<char>, raw: Seq<u8>) -> bool;

/// Decodes a picture with `image::ImageReader::decode`, in the format that
/// `image::ImageFormat::from_extension` gives, and converts it with `to_rgba8`: four bytes for each
/// pixel.  What the bytes are is not said beyond that they come of this file.  The work is done by the
/// decoders of the crates `png` and `zune-jpeg`, which are relied on to report a malformed file as an
/// error and not to panic.
#[verifier::external_body]
fn decode_still(data: Vec<u8>, extension: &str) -> (image: Option<(u32, u32, Vec<u8>)>)
    ensures
        match still_shape(data@, extension@) {
            None => image is None,
            Some((width, height)) => {
                &&& image matches Some((image_width, image_height, raw))
                &&& image_width == width
                &&& image_height == height
                &&& raw@.len() == 4 * (width * height)
                &&& is_decode_result(data@, extension@, raw@)
            },
        },
{
    let format = ::image::ImageFormat::from_extension(extension)?;
    let reader = ::image::ImageReader::with_format(std::io::Cursor::new(data), format);
    let image = reader.decode().ok()?.to_rgba8();
    Some((image.width(), image.height(), image.into_raw()))
}

/// `resized` is one of the results that `image::imageops::resize` with the Lanczos filter of three
/// lobes can have on a picture of this size with these channels.  There may be several, because the
/// filter is computed in floating point with a sine that differs between machines.
pub uninterp spec fn is_resize_result(
    width: int,
    height: int,
    raw: Seq<u8>,
    new_width: int,
    new_height: int,
    resized: Seq<u8>,
) -> bool;

/// Scales a picture with `image::imageops::resize` and the Lanczos filter of three lobes: the result
/// has the size that was asked for, and is a copy if that is the size it had.  What the bytes are
/// otherwise is not said beyond that they come of this picture.
#[verifier::external_body]
fn resize_raw(width: u32, height: u32, raw: Vec<u8>, new_width: u32, new_height: u32) -> (resized:
    Vec<u8>)
    requires
        raw@.len() == 4 * (width * height),
        scalable(width as int, height as int, new_width as int, new_height as int),
    ensures
        resized@.len() == 4 * (new_width * new_height),
        new_width == width && new_height == height ==> resized@ == raw@,
        is_resize_result(
            width as int,
            height as int,
            raw@,
            new_width as int,
            new_height as int,
            resized@,
        ),
{
    let source = ::image::RgbaImage::from_raw(width, height, raw).unwrap();
    let filter = ::image::imageops::FilterType::Lanczos3;
    ::image::imageops::resize(&source, new_width, new_height, filter).into_raw()
}

/// How many pixels of the picture the filter goes on for each new pixel.
pub open spec fn filter_ratio(side: int, new_side: int) -> nat {
    crate::float::single(
        crate::float::single(whole(side as nat), 1) * one(),
        crate::float::single(whole(new_side as nat), 1),
    )
}

/// Where the filter looks for the last new pixel, which lies behind all others: its middle, times the
/// ratio.
pub open spec fn last_position(side: int, new_side: int) -> nat {
    let middle = crate::float::single(
        crate::float::single(whole((new_side - 1) as nat), 1) + pow2(3999),
        1,
    );
    crate::float::single(middle * filter_ratio(side, new_side), one())
}

/// The last position lies where the filter still reaches the last pixel.  A position is half a pixel
/// behind the left edge of its pixel, and three pixels are reached when a picture becomes larger.  When
/// it becomes smaller, more are reached, but what they weigh can cancel out if the position lies behind
/// the picture, or if there are so many that the numbers of neighbouring pixels are the same.
pub open spec fn reaches_pixels(side: int, new_side: int) -> bool {
    let edge = single((side - 1) as nat, 1);
    if filter_ratio(side, new_side) <= one() {
        last_position(side, new_side) < whole(edge + 3)
    } else {
        new_side <= 0x80_0000 && last_position(side, new_side) < whole(edge + 1)
    }
}

/// The filter finds pixels for every position.  With long sides the positions are so coarse in single
/// precision that the last of them can lie beyond all pixels, and the filter fails.
pub open spec fn filterable(side: int, new_side: int) -> bool {
    new_side <= 0x20_0000 || side <= 0x10_0000 || reaches_pixels(side, new_side)
}

/// Sizes between which a picture is scaled: neither is empty, and the pictures fit in memory.  Unless
/// the picture is copied, the filter finds its pixels, and the picture in between fits in memory, too.
pub open spec fn scalable(width: int, height: int, new_width: int, new_height: int) -> bool {
    &&& 0 < width
    &&& 0 < height
    &&& 0 < new_width
    &&& 0 < new_height
    &&& 4 * (width * height) <= isize::MAX
    &&& 4 * (new_width * new_height) <= isize::MAX
    &&& (width == new_width && height == new_height) || {
        &&& filterable(width, new_width)
        &&& filterable(height, new_height)
        &&& 16 * (width * new_height) <= isize::MAX
    }
}

/// How much larger `target` is than `side`, in single precision.
pub open spec fn scale_to(target: int, side: int) -> nat {
    single((target * SCALE_ONE) as nat, single(side as nat, 1))
}

/// The scale at which a picture covers the target in both directions.
pub open spec fn cover_scale(width: int, height: int, target_width: int, target_height: int) -> nat {
    let across = scale_to(target_width, width);
    let down = scale_to(target_height, height);
    if across >= down {
        across
    } else {
        down
    }
}

/// A side after scaling, rounded up to whole pixels, and no longer than 32 bits can tell.
pub open spec fn scaled_side(side: int, scale: nat) -> int {
    let scaled = (single(single(side as nat, 1) * scale, 1) + SCALE_ONE - 1) / (SCALE_ONE as int);
    if scaled > u32::MAX {
        u32::MAX as int
    } else {
        scaled
    }
}

/// The width of the picture once it covers the target.
pub open spec fn cover_width(width: int, height: int, target_width: int, target_height: int) -> int {
    scaled_side(width, cover_scale(width, height, target_width, target_height))
}

/// The height of the picture once it covers the target.
pub open spec fn cover_height(
    width: int,
    height: int,
    target_width: int,
    target_height: int,
) -> int {
    scaled_side(height, cover_scale(width, height, target_width, target_height))
}

/// What keeps a picture of this size from covering the target.
pub open spec fn cover_error(width: int, height: int, target_width: int, target_height: int) -> Option<
    MediaError,
> {
    if width == 0 || height == 0 {
        Some(MediaError::EmptyImage)
    } else if scalable(
        width,
        height,
        cover_width(width, height, target_width, target_height),
        cover_height(width, height, target_width, target_height),
    ) {
        None
    } else {
        Some(MediaError::TooLarge)
    }
}

/// `resized` is a scaled form of `image`, and the same picture if its size is the same.
pub open spec fn is_resized(image: Image, width: int, height: int, resized: Image) -> bool {
    &&& resized.wf()
    &&& resized.width == width
    &&& resized.height == height
    &&& width == image.width && height == image.height ==> resized.pixels@ == image.pixels@
    &&& is_resize_result(
        image.width as int,
        image.height as int,
        channels(image.pixels@),
        width,
        height,
        channels(resized.pixels@),
    )
}

/// `result` is the middle of a scaled form of `image` that just covers it.
pub open spec fn is_cover(image: Image, result: Image) -> bool {
    let width = cover_width(
        image.width as int,
        image.height as int,
        result.width as int,
        result.height as int,
    );
    let height = cover_height(
        image.width as int,
        image.height as int,
        result.width as int,
        result.height as int,
    );
    exists|resized: Image| #[trigger]
        is_resized(image, width, height, resized) && is_crop(
            resized,
            (width - result.width) / 2,
            (height - result.height) / 2,
            result,
        )
}

/// Why a picture cannot be shown.
#[derive(Clone, Copy, Debug, PartialEq, Eq, Structural)]
pub enum MediaError {
    /// The animation cannot be decoded.
    Gif,
    /// A frame of the animation cannot be read.
    GifFrame,
    /// The animation has more frames than are kept in memory.
    TooManyFrames,
    /// The animation has no frame.
    NoFrames,
    /// The picture cannot be decoded.
    Image,
    /// The picture has no pixels.
    EmptyImage,
    /// The picture is too large to be scaled.
    TooLarge,
}

/// One decoded frame of an animation.
pub struct Picture {
    pub width: u32,
    pub height: u32,
    pub raw: Vec<u8>,
    pub numerator: u32,
    pub denominator: u32,
}

/// The next frame from `image::Frames`, taken apart into plain values.
#[verifier::external_body]
fn next_frame(frames: &mut ::image::Frames<'static>) -> (item: Option<
    Result<Picture, ::image::ImageError>,
>)
    ensures
        frames_data(*final(frames)) == frames_data(*old(frames)),
        frames_taken(*final(frames)) == frames_taken(*old(frames)) + 1,
        match gif_item(frames_data(*old(frames)), frames_taken(*old(frames))) {
            None => item is None,
            Some(None) => item matches Some(Err(_)),
            Some(Some((width, height, raw, numerator, denominator))) => {
                &&& item matches Some(Ok(picture))
                &&& picture.width == width
                &&& picture.height == height
                &&& picture.raw@ == raw
                &&& picture.numerator == numerator
                &&& picture.denominator == denominator
                &&& raw.len() == 4 * (width * height)
                &&& denominator > 0
            },
        },
{
    let frame = frames.next()?;
    Some(frame.map(|frame| {
        let (numerator, denominator) = frame.delay().numer_denom_ms();
        let buffer = frame.into_buffer();
        let (width, height) = buffer.dimensions();
        Picture { width, height, raw: buffer.into_raw(), numerator, denominator }
    }))
}

/// A side in single precision is neither nothing nor much longer.
proof fn lemma_single_side(side: int)
    requires
        0 < side <= u32::MAX,
    ensures
        0 < single(side as nat, 1) <= 0x2_0000_0000,
{
    let rounded = single(side as nat, 1);
    lemma_single_is_close(side as nat, 1);
    assert(1 * rounded == rounded);
    if side < 0x100_0000 {
        lemma2_to64();
        lemma_single_of_shifted(side as nat, 0, 1);
        assert(side as nat * pow2(0) * 1 == side);
        assert(side as nat * pow2(0) == side);
    }
}

/// Scaling to cover a target reaches the target.
proof fn lemma_scaled_side_reaches(side: int, target: int, scale: nat)
    requires
        0 < side <= u32::MAX,
        0 < target <= MAX_SIDE,
        scale >= scale_to(target, side),
    ensures
        scaled_side(side, scale) >= target,
{
    let whole = (target * SCALE_ONE) as nat;
    let least = scale_to(target, side);
    let length = single(side as nat, 1);
    lemma_single_side(side);
    assert(whole / length >= 0x100_0000) by {
        vstd::arithmetic::div_mod::lemma_div_is_ordered_by_denominator(
            whole as int,
            length as int,
            0x2_0000_0000,
        );
    }
    lemma_single_is_close(whole, length);
    let product = length * scale;
    assert(length * scale >= length * least) by (nonlinear_arith)
        requires
            scale >= least,
            length > 0,
    ;
    lemma_single_is_close(product, 1);
    let rounded = single(product, 1);
    assert(1 * rounded == rounded);
    assert(product / 1 == product);
    assert(rounded > (target - 1) * SCALE_ONE);
}

/// The scale is bounded, and so is a scaled side.
proof fn lemma_scale_bound(side: int, target: int)
    requires
        0 < side <= u32::MAX,
        0 < target <= MAX_SIDE,
    ensures
        scale_to(target, side) <= 2 * MAX_SIDE * SCALE_ONE + 1,
{
    let whole = (target * SCALE_ONE) as nat;
    let scale = scale_to(target, side);
    let length = single(side as nat, 1);
    lemma_single_side(side);
    lemma_single_is_close(whole, length);
    assert(scale <= 2 * whole + 1) by (nonlinear_arith)
        requires
            length * scale <= 2 * whole + length,
            length >= 1,
            whole >= 0,
            scale >= 0,
    ;
}

fn find_scale(target: u32, side: u32) -> (scale: u128)
    requires
        0 < side,
        0 < target <= MAX_SIDE,
    ensures
        scale == scale_to(target as int, side as int),
{
    proof {
        lemma_single_side(side as int);
    }
    round_to_single(target as u128 * SCALE_ONE, round_to_single(side as u128, 1))
}

fn find_scaled_side(side: u32, scale: u128) -> (scaled: u32)
    requires
        0 < side,
        scale <= 2 * MAX_SIDE * SCALE_ONE + 1,
    ensures
        scaled == scaled_side(side as int, scale as nat),
{
    proof {
        lemma_single_side(side as int);
    }
    let length: u128 = round_to_single(side as u128, 1);
    proof {
        assert(0 <= length * scale <= 0x2_0000_0000 * (2 * 0x10_0000 * 0x1_0000_0000_0000_0000
            + 1)) by (nonlinear_arith)
            requires
                0 <= length <= 0x2_0000_0000,
                0 <= scale <= 2 * 0x10_0000 * 0x1_0000_0000_0000_0000 + 1,
        ;
        lemma_single_is_close((length * scale) as nat, 1);
        assert(1 * single((length * scale) as nat, 1) == single((length * scale) as nat, 1));
    }
    let rounded: u128 = round_to_single(length * scale, 1);
    let scaled: u128 = (rounded + (SCALE_ONE - 1)) / SCALE_ONE;
    if scaled > 0xffff_ffff {
        u32::MAX
    } else {
        scaled as u32
    }
}

fn can_filter(side: u32, new_side: u32) -> (possible: bool)
    requires
        0 < side,
        0 < new_side,
    ensures
        possible == filterable(side as int, new_side as int),
{
    if new_side <= 0x20_0000 || side <= 0x10_0000 {
        return true;
    }
    let length = from_integer(side as u64, Precision::Single);
    let new_length = from_integer(new_side as u64, Precision::Single);
    let last = from_integer(new_side as u64 - 1, Precision::Single);
    let half = Float { digits: 1, power: 3999 };
    proof {
        lemma_filter_bounds(side, new_side);
        assert(new_length.digits > 0) by {
            if new_length.digits == 0 {
                assert(0 * pow2(new_length.power as nat) == 0);
            }
        }
        assert(1 * pow2(3999) == pow2(3999));
    }
    let ratio = divide_floats(length, new_length, Precision::Single);
    let middle = add_floats(last, half, Precision::Single);
    let position = multiply_floats(middle, ratio, Precision::Single);
    let reach: u64 = if is_less(Float { digits: 1, power: 4000 }, ratio) {
        1
    } else {
        3
    };
    let edge: u128 = round_to_single(side as u128 - 1, 1);
    proof {
        assert(1 * pow2(4000) == one());
        lemma_single_side(side as int - 1);
        lemma_exact_whole((edge + reach) as nat);
    }
    let limit = from_integer(edge as u64 + reach, Precision::Double);
    (reach == 3 || new_side <= 0x80_0000) && is_less(position, limit)
}

/// A whole number below two to the power of 53 has double precision.
proof fn lemma_exact_whole(value: nat)
    requires
        value < 0x20_0000_0000_0000,
    ensures
        double(whole(value), 1) == whole(value),
{
    lemma2_to64_rest();
    assert(1 * (value * pow2(4000)) == value * pow2(4000));
    lemma_rounded_keeps_bound(whole(value), 1, 53, 2926, value, 4000);
}

/// What the steps on the way to the last position are bounded by.
proof fn lemma_filter_bounds(side: u32, new_side: u32)
    requires
        0 < side,
        0 < new_side,
    ensures
        ({
            let length = crate::float::single(whole(side as nat), 1);
            let new_length = crate::float::single(whole(new_side as nat), 1);
            let last = crate::float::single(whole((new_side - 1) as nat), 1);
            let ratio = filter_ratio(side as int, new_side as int);
            let middle = crate::float::single(last + pow2(3999), 1);
            &&& new_length > 0
            &&& 3851 <= Precision::Single.power(length * one(), new_length) <= 4100
            &&& 3851 <= Precision::Single.power(last + pow2(3999), 1) <= 4100
            &&& 3851 <= Precision::Single.power(middle * ratio, one()) <= 4200
        }),
{
    let length = crate::float::single(whole(side as nat), 1);
    let new_length = crate::float::single(whole(new_side as nat), 1);
    let last = crate::float::single(whole((new_side - 1) as nat), 1);
    lemma_whole_bounds(side as u64, Precision::Single);
    lemma_whole_bounds(new_side as u64, Precision::Single);
    lemma_whole_bounds((new_side - 1) as u64, Precision::Single);
    lemma_pow2_pos(4000);
    let top = pow2(4064);
    assert(length * one() <= new_length * top) by (nonlinear_arith)
        requires
            length <= top,
            one() <= new_length,
    ;
    lemma_round_bound(length * one(), new_length, 4064, Precision::Single);
    let ratio = filter_ratio(side as int, new_side as int);
    lemma_pow2_unfold(4065);
    lemma_pow2_strictly_increases(3999, 4064);
    assert(1 * pow2(4065) == pow2(4065));
    lemma_round_bound(last + pow2(3999), 1, 4065, Precision::Single);
    let middle = crate::float::single(last + pow2(3999), 1);
    lemma_pow2_adds(4065, 4064);
    lemma_pow2_adds(4129, 4000);
    let most = pow2(4129);
    assert(middle * ratio <= one() * most) by (nonlinear_arith)
        requires
            middle <= pow2(4065),
            ratio <= top,
            pow2(4065) * top == most * one(),
    ;
    lemma_round_bound(middle * ratio, one(), 4129, Precision::Single);
}

/// Whether a product of three numbers stays within what a buffer can hold.
fn fits(factor: u128, a: u32, b: u32) -> (fit: bool)
    requires
        factor <= 16,
    ensures
        fit == (factor * (a * b) <= isize::MAX),
{
    let area: u64 = mul_u32(a, b);
    proof {
        assert(0 <= factor * area <= 16 * 0xffff_ffff_ffff_ffff) by (nonlinear_arith)
            requires
                0 <= factor <= 16,
                0 <= area <= 0xffff_ffff_ffff_ffff,
        ;
    }
    factor * (area as u128) <= isize::MAX as u128
}

/// The size to which a picture is scaled so that it covers the target.
pub fn cover_size(width: u32, height: u32, target_width: u32, target_height: u32) -> (size: Result<
    (u32, u32),
    MediaError,
>)
    requires
        0 < target_width <= MAX_SIDE,
        0 < target_height <= MAX_SIDE,
    ensures
        match cover_error(width as int, height as int, target_width as int, target_height as int) {
            Some(error) => size == Err::<(u32, u32), MediaError>(error),
            None => {
                &&& size matches Ok((new_width, new_height))
                &&& new_width == cover_width(
                    width as int,
                    height as int,
                    target_width as int,
                    target_height as int,
                )
                &&& new_height == cover_height(
                    width as int,
                    height as int,
                    target_width as int,
                    target_height as int,
                )
                &&& new_width >= target_width
                &&& new_height >= target_height
            },
        },
{
    if width == 0 || height == 0 {
        return Err(MediaError::EmptyImage);
    }
    let across: u128 = find_scale(target_width, width);
    let down: u128 = find_scale(target_height, height);
    let scale: u128 = if across >= down {
        across
    } else {
        down
    };
    proof {
        lemma_scale_bound(width as int, target_width as int);
        lemma_scale_bound(height as int, target_height as int);
        lemma_scaled_side_reaches(width as int, target_width as int, scale as nat);
        lemma_scaled_side_reaches(height as int, target_height as int, scale as nat);
    }
    let new_width: u32 = find_scaled_side(width, scale);
    let new_height: u32 = find_scaled_side(height, scale);
    if !fits(4, width, height) || !fits(4, new_width, new_height) {
        return Err(MediaError::TooLarge);
    }
    if new_width == width && new_height == height {
        return Ok((new_width, new_height));
    }
    if !can_filter(width, new_width) || !can_filter(height, new_height) || !fits(
        16,
        width,
        new_height,
    ) {
        return Err(MediaError::TooLarge);
    }
    Ok((new_width, new_height))
}

proof fn lemma_same_channels(left: Seq<Rgba>, right: Seq<Rgba>)
    requires
        channels(left) == channels(right),
    ensures
        left == right,
{
    assert(channels(left).len() == 4 * left.len());
    assert(channels(right).len() == 4 * right.len());
    assert forall|i: int| 0 <= i < left.len() implies left[i] == right[i] by {
        assert(raw_pixel(channels(left), i) == left[i]);
        assert(raw_pixel(channels(right), i) == right[i]);
    }
    assert(left =~= right);
}

/// Scales `image` until it covers the target, and cuts out the middle.
pub fn cover_to(image: &Image, target_width: u32, target_height: u32) -> (result: Result<
    Image,
    MediaError,
>)
    requires
        image.wf(),
        0 < target_width <= MAX_SIDE,
        0 < target_height <= MAX_SIDE,
    ensures
        match cover_error(
            image.width as int,
            image.height as int,
            target_width as int,
            target_height as int,
        ) {
            Some(error) => result matches Err(found) && found == error,
            None => {
                &&& result matches Ok(cover)
                &&& cover.wf()
                &&& cover.width == target_width
                &&& cover.height == target_height
                &&& is_cover(*image, cover)
            },
        },
{
    let (new_width, new_height) = match cover_size(
        image.width,
        image.height,
        target_width,
        target_height,
    ) {
        Ok(size) => size,
        Err(error) => return Err(error),
    };
    let raw = image.to_raw();
    let scaled = resize_raw(image.width, image.height, raw, new_width, new_height);
    let resized = match Image::from_raw(new_width, new_height, &scaled) {
        Some(resized) => resized,
        None => return Err(MediaError::TooLarge),
    };
    proof {
        lemma_channels_are_read_back(resized.pixels@, scaled@);
        if new_width == image.width && new_height == image.height {
            lemma_same_channels(resized.pixels@, image.pixels@);
        }
        assert(is_resized(*image, new_width as int, new_height as int, resized));
    }
    let left: u32 = (new_width - target_width) / 2;
    let top: u32 = (new_height - target_height) / 2;
    Ok(crop(&resized, left, top, target_width, target_height))
}

/// Covers the whole display with a picture.
pub fn cover(image: &Image) -> (result: Result<Image, MediaError>)
    requires
        image.wf(),
    ensures
        match cover_error(image.width as int, image.height as int, SIDE as int, SIDE as int) {
            Some(error) => result matches Err(found) && found == error,
            None => {
                &&& result matches Ok(cover)
                &&& cover.wf()
                &&& cover.width == SIDE
                &&& cover.height == SIDE
                &&& is_cover(*image, cover)
            },
        },
{
    cover_to(image, SIDE, SIDE)
}

/// The colour above and below the picture.
pub open spec fn margin_color() -> Rgba {
    Rgba { r: 250, g: 250, b: 248, a: 255 }
}

/// `canvas` shows `image` across its middle and the margin colour above and below.
pub open spec fn is_background(image: Image, canvas: Image) -> bool {
    &&& is_display(canvas)
    &&& exists|content: Image| #[trigger]
        is_cover(image, content) && content.width == SIDE && content.height == BACKGROUND_HEIGHT
            && shows_content(content, canvas)
}

/// An image of the size of the display.
pub open spec fn is_display(image: Image) -> bool {
    image.wf() && image.width == SIDE && image.height == SIDE
}

/// `content` stands across the middle of `canvas`.
pub open spec fn shows_content(content: Image, canvas: Image) -> bool {
    forall|x: int, y: int|
        canvas.covers(x, y) ==> #[trigger] canvas.at(x, y) == if BACKGROUND_TOP <= y
            < BACKGROUND_TOP + BACKGROUND_HEIGHT {
            content.at(x, y - BACKGROUND_TOP)
        } else {
            margin_color()
        }
}

/// What keeps a picture of this size from becoming a background.
pub open spec fn background_error(width: int, height: int) -> Option<MediaError> {
    cover_error(width, height, SIDE as int, BACKGROUND_HEIGHT as int)
}

/// Places a picture across the middle of the display.
pub fn background_frame(image: &Image) -> (result: Result<Image, MediaError>)
    requires
        image.wf(),
    ensures
        match background_error(image.width as int, image.height as int) {
            Some(error) => result matches Err(found) && found == error,
            None => result matches Ok(canvas) && is_background(*image, canvas),
        },
{
    let content = match cover_to(image, SIDE, BACKGROUND_HEIGHT) {
        Ok(content) => content,
        Err(error) => return Err(error),
    };
    let mut canvas = Image::from_pixel(SIDE, SIDE, Rgba { r: 250, g: 250, b: 248, a: 255 });
    let ghost blank = canvas;
    replace_rows(&mut canvas, &content, BACKGROUND_TOP);
    proof {
        assert forall|x: int, y: int| canvas.covers(x, y) implies blank.at(x, y)
            == margin_color() by {
            lemma_pixel_index(SIDE as int, SIDE as int, x, y);
        }
        assert(shows_content(content, canvas)) by {
            assert forall|x: int, y: int| canvas.covers(x, y) implies #[trigger] canvas.at(x, y)
                == if BACKGROUND_TOP <= y < BACKGROUND_TOP + BACKGROUND_HEIGHT {
                content.at(x, y - BACKGROUND_TOP)
            } else {
                margin_color()
            } by {
                assert(blank.at(x, y) == margin_color());
            }
        }
    }
    Ok(canvas)
}

/// One channel of a pixel with an overlay laid over it.
pub open spec fn blended_channel(below: u8, above: u8, alpha: u8) -> u8 {
    ((below * (255 - alpha) + above * alpha) / 255) as u8
}

/// A pixel with an overlay laid over it; the pixel keeps its own opacity.
pub open spec fn blended(pixel: Rgba, overlay: Rgba) -> Rgba {
    Rgba {
        r: blended_channel(pixel.r, overlay.r, overlay.a),
        g: blended_channel(pixel.g, overlay.g, overlay.a),
        b: blended_channel(pixel.b, overlay.b, overlay.a),
        a: pixel.a,
    }
}

proof fn lemma_blended_channel(below: u8, above: u8, alpha: u8)
    ensures
        0 <= below * (255 - alpha),
        0 <= above * alpha,
        below * (255 - alpha) + above * alpha <= 255 * 255,
{
    assert(0 <= below * (255 - alpha) <= 255 * (255 - alpha)) by (nonlinear_arith)
        requires
            0 <= below <= 255,
            0 <= alpha <= 255,
    ;
    assert(0 <= above * alpha <= 255 * alpha) by (nonlinear_arith)
        requires
            0 <= above <= 255,
            0 <= alpha <= 255,
    ;
}

fn blend_channel(below: u8, above: u8, alpha: u8) -> (channel: u8)
    ensures
        channel == blended_channel(below, above, alpha),
{
    proof {
        lemma_blended_channel(below, above, alpha);
    }
    ((below as u32 * (255 - alpha as u32) + above as u32 * alpha as u32) / 255) as u8
}

/// Lays an overlay over a pixel.
pub fn blend(pixel: Rgba, overlay: Rgba) -> (result: Rgba)
    ensures
        result == blended(pixel, overlay),
{
    Rgba {
        r: blend_channel(pixel.r, overlay.r, overlay.a),
        g: blend_channel(pixel.g, overlay.g, overlay.a),
        b: blend_channel(pixel.b, overlay.b, overlay.a),
        a: pixel.a,
    }
}

/// A fully transparent overlay changes nothing, a fully opaque one replaces the colour, and every
/// other one gives a colour between the two.
pub proof fn lemma_blended_lies_between(below: u8, above: u8, alpha: u8)
    ensures
        blended_channel(below, above, 0) == below,
        blended_channel(below, above, 255) == above,
        below <= above ==> below <= blended_channel(below, above, alpha) <= above,
        below >= above ==> above <= blended_channel(below, above, alpha) <= below,
{
    lemma_blended_channel(below, above, 0);
    lemma_blended_channel(below, above, 255);
    lemma_blended_channel(below, above, alpha);
    let sum = below * (255 - alpha) + above * alpha;
    assert(below <= above ==> 255 * below <= sum <= 255 * above) by (nonlinear_arith)
        requires
            sum == below * (255 - alpha) + above * alpha,
            0 <= alpha <= 255,
    ;
    assert(below >= above ==> 255 * above <= sum <= 255 * below) by (nonlinear_arith)
        requires
            sum == below * (255 - alpha) + above * alpha,
            0 <= alpha <= 255,
    ;
}

/// The built-in effect without its moving stripe.
pub open spec fn base_pixel(x: int, y: int) -> Rgba {
    Rgba {
        r: (8 + x * 18 / 480) as u8,
        g: (14 + y * 24 / 480) as u8,
        b: (32 + (x + y) * 36 / 960) as u8,
        a: 255,
    }
}

/// How far column `x` lies behind the left edge of the stripe in frame `index`.
pub open spec fn stripe_offset(index: int, x: int) -> int {
    x + 100 - 6 * (index % 120)
}

/// The opacity of the stripe at an offset: strongest in the middle, fading to both edges.
pub open spec fn stripe_alpha(offset: int) -> int {
    let distance = if offset >= 75 {
        offset - 75
    } else {
        75 - offset
    };
    if 90 - distance > 72 {
        72
    } else {
        90 - distance
    }
}

/// The built-in effect in frame `index`.
pub open spec fn procedural_pixel(index: int, x: int, y: int) -> Rgba {
    let offset = stripe_offset(index, x);
    if 0 <= offset < 150 {
        blended(
            base_pixel(x, y),
            Rgba { r: 64, g: 210, b: 255, a: stripe_alpha(offset) as u8 },
        )
    } else {
        base_pixel(x, y)
    }
}

fn procedural_at(index: usize, x: u32, y: u32) -> (pixel: Rgba)
    requires
        x < SIDE,
        y < SIDE,
    ensures
        pixel == procedural_pixel(index as int, x as int, y as int),
{
    let base = Rgba {
        r: (8 + x * 18 / 480) as u8,
        g: (14 + y * 24 / 480) as u8,
        b: (32 + (x + y) * 36 / 960) as u8,
        a: 255,
    };
    let phase: u32 = (index % 120) as u32;
    if x + 100 < 6 * phase || x + 100 - 6 * phase >= 150 {
        return base;
    }
    let offset: u32 = x + 100 - 6 * phase;
    let distance: u32 = if offset >= 75 {
        offset - 75
    } else {
        75 - offset
    };
    let alpha: u32 = if 90 - distance > 72 {
        72
    } else {
        90 - distance
    };
    blend(base, Rgba { r: 64, g: 210, b: 255, a: alpha as u8 })
}

/// Draws the built-in effect.
pub fn procedural_frame(index: usize) -> (image: Image)
    ensures
        is_display(image),
        forall|x: int, y: int|
            image.covers(x, y) ==> #[trigger] image.at(x, y) == procedural_pixel(
                index as int,
                x,
                y,
            ),
{
    let mut pixels: Vec<Rgba> = Vec::new();
    let mut y: u32 = 0;
    while y < SIDE
        invariant
            y <= SIDE,
            pixels@.len() == y * SIDE,
            forall|i: int, j: int|
                0 <= i < SIDE && 0 <= j < y ==> pixels@[#[trigger] pixel_index(SIDE as int, i, j)]
                    == procedural_pixel(index as int, i, j),
        decreases SIDE - y,
    {
        let mut x: u32 = 0;
        while x < SIDE
            invariant
                y < SIDE,
                x <= SIDE,
                pixels@.len() == y * SIDE + x,
                forall|i: int, j: int|
                    0 <= i < SIDE && 0 <= j < y && 0 <= #[trigger] pixel_index(SIDE as int, i, j)
                        ==> pixels@[pixel_index(SIDE as int, i, j)] == procedural_pixel(
                        index as int,
                        i,
                        j,
                    ),
                forall|i: int|
                    0 <= i < x ==> pixels@[#[trigger] pixel_index(SIDE as int, i, y as int)]
                        == procedural_pixel(index as int, i, y as int),
            decreases SIDE - x,
        {
            pixels.push(procedural_at(index, x, y));
            x = x + 1;
        }
        y = y + 1;
    }
    Image { width: SIDE, height: SIDE, pixels }
}

/// One frame of a background and how long it is shown, in nanoseconds.
#[derive(Debug)]
pub struct MediaFrame {
    pub image: Image,
    pub delay: u64,
}

/// What is shown behind the dashboard.
#[derive(Debug)]
pub enum Background {
    /// The built-in effect.
    Procedural,
    /// A still picture or the frames of an animation.
    Frames(Vec<MediaFrame>),
}

/// The quotient of two whole numbers in double precision.
pub open spec fn double_quotient(value: nat, divisor: nat) -> nat {
    double(double(whole(value), 1) * one(), double(whole(divisor), 1))
}

/// The shortest time between two frames at a frame rate, in nanoseconds.
pub open spec fn frame_limit(fps: int) -> nat {
    nanoseconds(double_quotient(1, fps as nat))
}

fn divide_whole(value: u32, divisor: u32) -> (quotient: Float)
    requires
        divisor > 0,
    ensures
        quotient.wf(),
        quotient.value() == double_quotient(value as nat, divisor as nat),
        quotient.value() <= 0x1_0000_0000 * one(),
        value == 1 ==> quotient.value() <= one(),
{
    let left = from_integer(value as u64, Precision::Double);
    let right = from_integer(divisor as u64, Precision::Double);
    proof {
        lemma_whole_bounds(divisor as u64, Precision::Double);
        lemma_exact_whole(value as nat);
        lemma_exact_whole(divisor as nat);
        lemma_pow2_pos(4000);
        if right.digits == 0 {
            assert(0 * pow2(right.power as nat) == 0);
        }
        let n = left.value() * one();
        let d = right.value();
        lemma_quotient_bound(left.value(), d);
        lemma_pow2_adds(32, 4000);
        lemma2_to64();
        assert(left.value() < 0x1_0000_0000 * one()) by (nonlinear_arith)
            requires
                left.value() == value as nat * one(),
                value < 0x1_0000_0000,
                one() > 0,
        ;
        lemma_pow2_strictly_increases(4032, 4053);
        lemma_power_bound(n / d, 53, 2926, 4000);
        assert(n <= d * (0x1_0000_0000 * one())) by (nonlinear_arith)
            requires
                n == left.value() * one(),
                left.value() < 0x1_0000_0000 * one(),
                d >= one(),
                one() > 0,
        ;
        lemma2_to64_rest();
        lemma_rounded_keeps_bound(n, d, 53, 2926, 0x1_0000_0000, 4000);
        if value == 1 {
            assert(1 * one() == one());
            assert(n <= d * one()) by (nonlinear_arith)
                requires
                    n == one() * one(),
                    d >= one(),
            ;
            lemma_rounded_keeps_bound(n, d, 53, 2926, 1, 4000);
        }
    }
    divide_floats(left, right, Precision::Double)
}

/// No frame has to be shown for longer than a second, and at thirty frames per second or less every
/// frame is shown for some time.
pub proof fn lemma_frame_limit(fps: u32)
    requires
        fps > 0,
    ensures
        frame_limit(fps as int) <= 1_000_000_000,
        fps <= 30 ==> frame_limit(fps as int) > 0,
{
    lemma2_to64();
    lemma2_to64_rest();
    lemma_exact_whole(1);
    lemma_exact_whole(fps as nat);
    lemma_pow2_pos(4000);
    assert(1 * one() == one());
    let n = one() * one();
    let d = whole(fps as nat);
    assert(d >= one() && n <= d * one()) by (nonlinear_arith)
        requires
            d == fps as nat * one(),
            fps >= 1,
            n == one() * one(),
    ;
    lemma_rounded_keeps_bound(n, d, 53, 2926, 1, 4000);
    let seconds = double(n, d);
    assert(seconds <= one());
    let total = seconds * 1_000_000_000;
    let unit = one();
    let below = total / unit;
    vstd::arithmetic::div_mod::lemma_fundamental_div_mod(total as int, unit as int);
    assert(unit * 1 == unit);
    assert(below <= 1_000_000_000) by (nonlinear_arith)
        requires
            unit * below <= total,
            total <= 1_000_000_000 * unit,
            unit > 0,
    ;
    if below == 1_000_000_000 {
        assert(unit * below == 1_000_000_000 * unit) by (nonlinear_arith)
            requires
                below == 1_000_000_000,
        ;
    }
    assert(below * 1 == below);
    assert((below + 1) * 1 == below + 1);
    if fps <= 30 {
        let least = pow2(3995);
        lemma_pow2_pos(3995);
        lemma_pow2_adds(5, 3995);
        assert(1 * least == least);
        assert(d * least <= n) by (nonlinear_arith)
            requires
                d == fps as nat * unit,
                fps <= 30,
                n == unit * unit,
                unit == 32 * least,
                least > 0,
        ;
        lemma_rounded_keeps_bound(d * least, d, 53, 2926, 1, 3995);
        lemma_rounded_is_monotone(d * least, n, d, 53, 2926);
        assert(below >= 1) by (nonlinear_arith)
            requires
                total < unit * below + unit,
                total >= least * 1_000_000_000,
                unit == 32 * least,
                least > 0,
        ;
    }
}

impl Background {
    /// There is a frame to show, and every frame fits the display.
    pub open spec fn wf(self) -> bool {
        self matches Background::Frames(frames) ==> frames@.len() > 0 && forall|i: int|
            0 <= i < frames@.len() ==> is_display(#[trigger] frames@[i].image)
    }

    /// How long frame `index` is shown: its own time, but no less than the frame rate allows.
    pub open spec fn shown_for(self, index: int, fps: int) -> int {
        let limit = frame_limit(fps) as int;
        match self {
            Background::Procedural => limit,
            Background::Frames(frames) => {
                let own = frames@[index % frames@.len() as int].delay;
                if own >= limit {
                    own as int
                } else {
                    limit
                }
            },
        }
    }

    /// The picture at frame `index`; frames repeat from the start after the last.
    pub fn frame(&self, index: usize) -> (image: Image)
        requires
            self.wf(),
        ensures
            is_display(image),
            match *self {
                Background::Procedural => forall|x: int, y: int|
                    image.covers(x, y) ==> #[trigger] image.at(x, y) == procedural_pixel(
                        index as int,
                        x,
                        y,
                    ),
                Background::Frames(frames) => image.pixels@ == frames@[index as int
                    % frames@.len() as int].image.pixels@,
            },
    {
        match self {
            Background::Frames(frames) => frames[index % frames.len()].image.clone(),
            Background::Procedural => procedural_frame(index),
        }
    }

    /// How long frame `index` is shown, in nanoseconds.
    pub fn delay(&self, index: usize, fps_limit: u32) -> (delay: u64)
        requires
            self.wf(),
            fps_limit > 0,
        ensures
            delay == self.shown_for(index as int, fps_limit as int),
    {
        let interval = divide_whole(1, fps_limit);
        proof {
            assert(one() <= 8_000_000 * one());
        }
        let limit: u64 = to_nanoseconds(interval);
        match self {
            Background::Frames(frames) => {
                let own: u64 = frames[index % frames.len()].delay;
                if own >= limit {
                    own
                } else {
                    limit
                }
            },
            Background::Procedural => limit,
        }
    }

    /// The picture changes by itself.
    pub fn is_animated(&self) -> (animated: bool)
        ensures
            animated == match *self {
                Background::Procedural => true,
                Background::Frames(frames) => frames@.len() > 1,
            },
    {
        match self {
            Background::Procedural => true,
            Background::Frames(frames) => frames.len() > 1,
        }
    }
}

/// A file with a picture: the extension of its name, empty if it has none, and its bytes.
#[derive(Debug)]
pub struct MediaFile {
    pub extension: String,
    pub data: Vec<u8>,
}

/// The extension says that the file is an animation.
pub open spec fn is_gif_extension(extension: Seq<char>) -> bool {
    same_text_ignoring_case(extension, "gif"@)
}

/// How many milliseconds a frame is shown: its own time, but no less than ten milliseconds.
pub open spec fn frame_millis(numerator: int, denominator: int) -> nat {
    let own = double_quotient(numerator as nat, denominator as nat);
    if own < whole(10) {
        whole(10)
    } else {
        own
    }
}

/// How long a frame is shown, in nanoseconds.
pub open spec fn frame_delay(numerator: int, denominator: int) -> int {
    nanoseconds(
        double(frame_millis(numerator, denominator) * one(), double(whole(1_000), 1)),
    ) as int
}

/// A frame is shown for at least ten milliseconds.
pub proof fn lemma_frame_delay(numerator: int, denominator: int)
    ensures
        frame_delay(numerator, denominator) >= SHORTEST_DELAY,
{
    let unit = one();
    let millis = frame_millis(numerator, denominator);
    let n = millis * unit;
    let d = whole(1_000);
    lemma_exact_whole(1_000);
    lemma_pow2_pos(4000);
    lemma_pow2_pos(3941);
    lemma2_to64();
    lemma2_to64_rest();
    lemma_pow2_adds(59, 3941);
    let digits: nat = 5_764_607_523_034_234;
    let least = digits * pow2(3941);
    assert(pow2(59) == 0x800_0000_0000_0000);
    assert(unit == 0x800_0000_0000_0000 * pow2(3941));
    assert(d * least <= n) by (nonlinear_arith)
        requires
            d == 1_000 * unit,
            n == millis * unit,
            millis >= 10 * unit,
            100 * least <= unit,
    ;
    lemma_rounded_keeps_bound(d * least, d, 53, 2926, digits, 3941);
    lemma_rounded_is_monotone(d * least, n, d, 53, 2926);
    let seconds = double(n, d);
    let total = seconds * 1_000_000_000;
    let below = total / unit;
    vstd::arithmetic::div_mod::lemma_fundamental_div_mod(total as int, unit as int);
    assert(unit * 1 == unit);
    assert(below * 1 == below && (below + 1) * 1 == below + 1);
    assert(2 * total >= 19_999_999 * unit);
    assert(below >= 9_999_999) by (nonlinear_arith)
        requires
            total < unit * below + unit,
            2 * total >= 19_999_999 * unit,
            unit > 0,
    ;
    if below == 9_999_999 {
        assert(unit * below == 9_999_999 * unit) by (nonlinear_arith)
            requires
                below == 9_999_999,
        ;
        assert(2 * (total % unit) > unit);
    }
}

fn find_delay(numerator: u32, denominator: u32) -> (delay: u64)
    requires
        denominator > 0,
    ensures
        delay == frame_delay(numerator as int, denominator as int),
{
    let own = divide_whole(numerator, denominator);
    let ten = from_integer(10, Precision::Double);
    let thousand = from_integer(1_000, Precision::Double);
    proof {
        lemma_exact_whole(10);
        lemma_exact_whole(1_000);
        lemma_pow2_pos(4000);
    }
    let millis = if is_less(own, ten) {
        ten
    } else {
        own
    };
    proof {
        if thousand.digits == 0 {
            assert(0 * pow2(thousand.power as nat) == 0);
        }
        let n = millis.value() * one();
        let d = thousand.value();
        assert(n <= d * (8_000_000 * one())) by (nonlinear_arith)
            requires
                n == millis.value() * one(),
                millis.value() <= 0x1_0000_0000 * one(),
                d == 1_000 * one(),
                one() > 0,
        ;
        lemma2_to64();
        lemma2_to64_rest();
        lemma_rounded_keeps_bound(n, d, 53, 2926, 8_000_000, 4000);
        lemma_quotient_bound(millis.value(), d);
        lemma_pow2_adds(32, 4000);
        lemma_pow2_strictly_increases(4032, 4053);
        lemma_power_bound(n / d, 53, 2926, 4000);
    }
    to_nanoseconds(divide_floats(millis, thousand, Precision::Double))
}

/// `image` has this size and these channels.
pub open spec fn has_raw(image: Image, width: u32, height: u32, raw: Seq<u8>) -> bool {
    &&& image.wf()
    &&& image.width == width
    &&& image.height == height
    &&& forall|i: int|
        0 <= i < image.pixels@.len() ==> #[trigger] image.pixels@[i] == raw_pixel(raw, i)
}

/// The decoder's item at `index` is a frame that can be shown.
pub open spec fn usable_item(data: Seq<u8>, index: int) -> bool {
    gif_item(data, index) matches Some(Some((width, height, _, _, _))) && background_error(
        width as int,
        height as int,
    ) is None
}

/// The number of frames before the first item that is not one that can be shown, up to `limit`.
pub open spec fn usable_frames(data: Seq<u8>, limit: nat) -> nat
    decreases limit,
{
    if limit == 0 {
        0
    } else {
        let fewer = usable_frames(data, (limit - 1) as nat);
        if fewer == limit - 1 && usable_item(data, limit - 1) {
            limit
        } else {
            fewer
        }
    }
}

/// What keeps an animation from being shown.
pub open spec fn gif_error(data: Seq<u8>) -> Option<MediaError> {
    let count = usable_frames(data, MAX_GIF_FRAMES as nat);
    if !gif_opens(data) {
        Some(MediaError::Gif)
    } else if count == MAX_GIF_FRAMES {
        if gif_item(data, count as int) is Some {
            Some(MediaError::TooManyFrames)
        } else {
            None
        }
    } else {
        match gif_item(data, count as int) {
            None => if count == 0 {
                Some(MediaError::NoFrames)
            } else {
                None
            },
            Some(None) => Some(MediaError::GifFrame),
            Some(Some((width, height, _, _, _))) => background_error(width as int, height as int),
        }
    }
}

/// `frame` shows the decoder's item at `index`.
pub open spec fn is_gif_frame(data: Seq<u8>, index: int, frame: MediaFrame) -> bool {
    gif_item(data, index) matches Some(Some((width, height, raw, numerator, denominator))) && {
        &&& frame.delay == frame_delay(numerator as int, denominator as int)
        &&& exists|picture: Image| #[trigger]
            has_raw(picture, width, height, raw) && is_background(picture, frame.image)
    }
}

/// What keeps a still picture from being shown.
pub open spec fn still_error(data: Seq<u8>, extension: Seq<char>) -> Option<MediaError> {
    match still_shape(data, extension) {
        None => Some(MediaError::Image),
        Some((width, height)) => background_error(width as int, height as int),
    }
}

/// `picture` is what decoding a still picture gave.
pub open spec fn is_decoded(data: Seq<u8>, extension: Seq<char>, picture: Image) -> bool {
    &&& picture.wf()
    &&& still_shape(data, extension) == Some((picture.width, picture.height))
    &&& is_decode_result(data, extension, channels(picture.pixels@))
}

/// `frame` shows the still picture of a file.
pub open spec fn is_still_frame(data: Seq<u8>, extension: Seq<char>, frame: MediaFrame) -> bool {
    &&& frame.delay == 1_000_000_000
    &&& exists|picture: Image| #[trigger]
        is_decoded(data, extension, picture) && is_background(picture, frame.image)
}

/// What keeps a file from being shown as a background.
pub open spec fn load_error(file: MediaFile) -> Option<MediaError> {
    if is_gif_extension(file.extension@) {
        gif_error(file.data@)
    } else {
        still_error(file.data@, file.extension@)
    }
}

/// A picture across the middle of the display, with the margin colour above and below.
pub open spec fn has_margins(image: Image) -> bool {
    &&& is_display(image)
    &&& forall|x: int, y: int|
        image.covers(x, y) && (y < BACKGROUND_TOP || BACKGROUND_TOP + BACKGROUND_HEIGHT <= y)
            ==> #[trigger] image.at(x, y) == margin_color()
}

/// Frames as every file gives them: one or more, but not too many, with margins, and none shown for
/// less than the shortest time.
pub open spec fn are_presentable(frames: Seq<MediaFrame>) -> bool {
    &&& 1 <= frames.len() <= MAX_GIF_FRAMES
    &&& forall|i: int|
        0 <= i < frames.len() ==> has_margins((#[trigger] frames[i]).image) && frames[i].delay
            >= SHORTEST_DELAY
}

/// The frames of a file can be presented.
proof fn lemma_frames_are_presentable(file: MediaFile, frames: Seq<MediaFrame>)
    requires
        are_frames(file, frames),
        1 <= frames.len() <= MAX_GIF_FRAMES,
    ensures
        are_presentable(frames),
{
    assert forall|i: int| 0 <= i < frames.len() implies has_margins((#[trigger] frames[i]).image)
        && frames[i].delay >= SHORTEST_DELAY by {
        let canvas = frames[i].image;
        if is_gif_extension(file.extension@) {
            assert(is_gif_frame(file.data@, i, frames[i]));
            let (width, height, raw, numerator, denominator) = gif_item(file.data@, i)->Some_0->Some_0;
            lemma_frame_delay(numerator as int, denominator as int);
        }
        assert forall|x: int, y: int|
            canvas.covers(x, y) && (y < BACKGROUND_TOP || BACKGROUND_TOP + BACKGROUND_HEIGHT
                <= y) implies #[trigger] canvas.at(x, y) == margin_color() by {
            let picture = choose|picture: Image| is_background(picture, canvas);
            lemma_background_margins(picture, canvas, x, y);
        }
    }
}

/// `frames` are the frames of a file.
pub open spec fn are_frames(file: MediaFile, frames: Seq<MediaFrame>) -> bool {
    if is_gif_extension(file.extension@) {
        &&& frames.len() == usable_frames(file.data@, MAX_GIF_FRAMES as nat)
        &&& forall|i: int|
            0 <= i < frames.len() ==> is_gif_frame(file.data@, i, #[trigger] frames[i])
    } else {
        frames.len() == 1 && is_still_frame(file.data@, file.extension@, frames[0])
    }
}

fn picture_image(width: u32, height: u32, raw: &Vec<u8>) -> (image: Image)
    requires
        raw@.len() == 4 * (width * height),
    ensures
        has_raw(image, width, height, raw@),
{
    match Image::from_raw(width, height, raw) {
        Some(image) => image,
        None => Image { width, height, pixels: Vec::new() },
    }
}

/// Once an item cannot be shown, no later limit finds more frames.
proof fn lemma_usable_frames(data: Seq<u8>, count: nat, limit: nat)
    requires
        forall|i: int| 0 <= i < count ==> #[trigger] usable_item(data, i),
        count <= limit,
        count < limit ==> !usable_item(data, count as int),
    ensures
        usable_frames(data, limit) == count,
    decreases limit,
{
    if limit > 0 {
        if count == limit {
            lemma_usable_frames_all(data, limit);
        } else if count == limit - 1 {
            lemma_usable_frames_all(data, count);
        } else {
            lemma_usable_frames(data, count, (limit - 1) as nat);
        }
    }
}

proof fn lemma_usable_frames_all(data: Seq<u8>, count: nat)
    requires
        forall|i: int| 0 <= i < count ==> #[trigger] usable_item(data, i),
    ensures
        usable_frames(data, count) == count,
    decreases count,
{
    if count > 0 {
        assert(usable_item(data, count - 1));
        lemma_usable_frames_all(data, (count - 1) as nat);
    }
}

proof fn lemma_usable_frames_bound(data: Seq<u8>, limit: nat)
    ensures
        usable_frames(data, limit) <= limit,
    decreases limit,
{
    if limit > 0 {
        lemma_usable_frames_bound(data, (limit - 1) as nat);
    }
}

/// `frame` shows a decoded frame for its time.
pub open spec fn shows_picture(picture: Picture, frame: MediaFrame) -> bool {
    &&& frame.delay == frame_delay(picture.numerator as int, picture.denominator as int)
    &&& exists|image: Image| #[trigger]
        has_raw(image, picture.width, picture.height, picture.raw@) && is_background(
            image,
            frame.image,
        )
}

/// Turns a decoded frame into one that can be shown.
pub fn show_picture(picture: &Picture) -> (frame: Result<MediaFrame, MediaError>)
    requires
        picture.raw@.len() == 4 * (picture.width * picture.height),
        picture.denominator > 0,
    ensures
        match background_error(picture.width as int, picture.height as int) {
            Some(error) => frame matches Err(found) && found == error,
            None => {
                &&& frame matches Ok(frame)
                &&& shows_picture(*picture, frame)
                &&& frame.delay >= SHORTEST_DELAY
            },
        },
{
    proof {
        lemma_frame_delay(picture.numerator as int, picture.denominator as int);
    }
    let delay: u64 = find_delay(picture.numerator, picture.denominator);
    let image = picture_image(picture.width, picture.height, &picture.raw);
    match background_frame(&image) {
        Ok(canvas) => Ok(MediaFrame { image: canvas, delay }),
        Err(error) => Err(error),
    }
}

/// How reading an animation goes on after an item.
#[derive(Clone, Copy, Debug, PartialEq, Eq, Structural)]
pub enum GifStep {
    /// The item was a frame, and more may follow.
    More,
    /// All frames have been read.
    Finished,
    /// The animation cannot be shown.
    Failed(MediaError),
}

/// Takes in what the decoder gave: the end, an item that could not be read, or a frame.
pub fn accept_item(frames: &mut Vec<MediaFrame>, item: Option<Option<Picture>>) -> (step: GifStep)
    requires
        item matches Some(Some(picture)) ==> picture.raw@.len() == 4 * (picture.width
            * picture.height) && picture.denominator > 0,
    ensures
        match item {
            None => step == if old(frames)@.len() == 0 {
                GifStep::Failed(MediaError::NoFrames)
            } else {
                GifStep::Finished
            },
            Some(item) => if old(frames)@.len() == MAX_GIF_FRAMES {
                step == GifStep::Failed(MediaError::TooManyFrames)
            } else {
                match item {
                    None => step == GifStep::Failed(MediaError::GifFrame),
                    Some(picture) => match background_error(
                        picture.width as int,
                        picture.height as int,
                    ) {
                        Some(error) => step == GifStep::Failed(error),
                        None => {
                            &&& step == GifStep::More
                            &&& final(frames)@.len() == old(frames)@.len() + 1
                            &&& final(frames)@.drop_last() == old(frames)@
                            &&& shows_picture(picture, final(frames)@.last())
                        },
                    },
                }
            },
        },
        step != GifStep::More ==> final(frames)@ == old(frames)@,
{
    match item {
        None => if frames.len() == 0 {
            GifStep::Failed(MediaError::NoFrames)
        } else {
            GifStep::Finished
        },
        Some(item) => {
            if frames.len() == MAX_GIF_FRAMES {
                return GifStep::Failed(MediaError::TooManyFrames);
            }
            match item {
                None => GifStep::Failed(MediaError::GifFrame),
                Some(picture) => match show_picture(&picture) {
                    Err(error) => GifStep::Failed(error),
                    Ok(frame) => {
                        let ghost before = frames@;
                        frames.push(frame);
                        proof {
                            assert(frames@.drop_last() =~= before);
                        }
                        GifStep::More
                    },
                },
            }
        },
    }
}

fn load_gif(data: Vec<u8>) -> (result: Result<Vec<MediaFrame>, MediaError>)
    ensures
        match gif_error(data@) {
            Some(error) => result matches Err(found) && found == error,
            None => {
                &&& result matches Ok(frames)
                &&& frames@.len() > 0
                &&& frames@.len() == usable_frames(data@, MAX_GIF_FRAMES as nat)
                &&& forall|i: int|
                    0 <= i < frames@.len() ==> is_gif_frame(data@, i, #[trigger] frames@[i])
            },
        },
{
    let ghost bytes = data@;
    let mut source = match open_gif(data) {
        Ok(source) => source,
        Err(_) => return Err(MediaError::Gif),
    };
    let mut frames: Vec<MediaFrame> = Vec::new();
    loop
        invariant
            bytes == data@,
            gif_opens(bytes),
            frames_data(source) == bytes,
            frames_taken(source) == frames@.len(),
            frames@.len() <= MAX_GIF_FRAMES,
            forall|i: int| 0 <= i < frames@.len() ==> #[trigger] usable_item(bytes, i),
            forall|i: int| 0 <= i < frames@.len() ==> is_gif_frame(bytes, i, #[trigger] frames@[i]),
        decreases MAX_GIF_FRAMES - frames@.len(),
    {
        let item = next_frame(&mut source);
        proof {
            if frames@.len() == MAX_GIF_FRAMES || !usable_item(bytes, frames@.len() as int) {
                lemma_usable_frames(bytes, frames@.len(), MAX_GIF_FRAMES as nat);
            }
        }
        let item = match item {
            None => None,
            Some(Err(_)) => Some(None),
            Some(Ok(picture)) => Some(Some(picture)),
        };
        let ghost before = frames@;
        match accept_item(&mut frames, item) {
            GifStep::Finished => {
                return Ok(frames);
            },
            GifStep::Failed(error) => {
                return Err(error);
            },
            GifStep::More => {
                proof {
                    assert(usable_item(bytes, before.len() as int));
                    assert forall|i: int| 0 <= i < frames@.len() implies is_gif_frame(
                        bytes,
                        i,
                        #[trigger] frames@[i],
                    ) by {
                        if i < before.len() {
                            assert(frames@[i] == before[i]);
                        }
                    }
                }
            },
        }
    }
}

fn load_still(data: Vec<u8>, extension: &str) -> (result: Result<MediaFrame, MediaError>)
    ensures
        match still_error(data@, extension@) {
            Some(error) => result matches Err(found) && found == error,
            None => result matches Ok(frame) && is_still_frame(data@, extension@, frame),
        },
{
    let ghost bytes = data@;
    match decode_still(data, extension) {
        None => Err(MediaError::Image),
        Some((width, height, raw)) => {
            let image = picture_image(width, height, &raw);
            match background_frame(&image) {
                Ok(canvas) => {
                    let frame = MediaFrame { image: canvas, delay: 1_000_000_000 };
                    proof {
                        lemma_channels_are_read_back(image.pixels@, raw@);
                        assert(is_decoded(bytes, extension@, image));
                        assert(is_still_frame(bytes, extension@, frame));
                    }
                    Ok(frame)
                },
                Err(error) => Err(error),
            }
        },
    }
}

impl Background {
    /// The background that a file holds, or the built-in effect without a file.
    pub fn load(file: Option<MediaFile>) -> (result: Result<Background, MediaError>)
        ensures
            match file {
                None => result matches Ok(Background::Procedural),
                Some(file) => match load_error(file) {
                    Some(error) => result matches Err(found) && found == error,
                    None => result matches Ok(Background::Frames(frames)) && are_frames(
                        file,
                        frames@,
                    ),
                },
            },
            result matches Ok(background) ==> background.wf(),
            result matches Ok(Background::Frames(frames)) ==> are_presentable(frames@),
    {
        let file = match file {
            None => return Ok(Background::Procedural),
            Some(file) => file,
        };
        if eq_text_ignoring_case(file.extension.as_str(), "gif") {
            match load_gif(file.data) {
                Ok(frames) => {
                    proof {
                        lemma_usable_frames_bound(file.data@, MAX_GIF_FRAMES as nat);
                        lemma_frames_are_presentable(file, frames@);
                    }
                    Ok(Background::Frames(frames))
                },
                Err(error) => Err(error),
            }
        } else {
            match load_still(file.data, file.extension.as_str()) {
                Ok(frame) => {
                    let mut frames: Vec<MediaFrame> = Vec::new();
                    frames.push(frame);
                    proof {
                        lemma_frames_are_presentable(file, frames@);
                    }
                    Ok(Background::Frames(frames))
                },
                Err(error) => Err(error),
            }
        }
    }
}

/// What keeps the first picture of a file from covering the display.
pub open spec fn first_error(file: MediaFile) -> Option<MediaError> {
    if is_gif_extension(file.extension@) {
        if !gif_opens(file.data@) {
            Some(MediaError::Gif)
        } else {
            match gif_item(file.data@, 0) {
                None => Some(MediaError::NoFrames),
                Some(None) => Some(MediaError::GifFrame),
                Some(Some((width, height, _, _, _))) => cover_error(
                    width as int,
                    height as int,
                    SIDE as int,
                    SIDE as int,
                ),
            }
        }
    } else {
        match still_shape(file.data@, file.extension@) {
            None => Some(MediaError::Image),
            Some((width, height)) => cover_error(
                width as int,
                height as int,
                SIDE as int,
                SIDE as int,
            ),
        }
    }
}

/// `picture` is what decoding the first picture of a file gave.
pub open spec fn is_first_picture(file: MediaFile, picture: Image) -> bool {
    if is_gif_extension(file.extension@) {
        gif_item(file.data@, 0) matches Some(Some((width, height, raw, _, _))) && has_raw(
            picture,
            width,
            height,
            raw,
        )
    } else {
        is_decoded(file.data@, file.extension@, picture)
    }
}

/// The first picture of a file, covering the whole display.
pub fn load_first(file: MediaFile) -> (result: Result<Image, MediaError>)
    ensures
        match first_error(file) {
            Some(error) => result matches Err(found) && found == error,
            None => {
                &&& result matches Ok(image)
                &&& is_display(image)
                &&& exists|picture: Image| #[trigger]
                    is_first_picture(file, picture) && is_cover(picture, image)
            },
        },
{
    let ghost given = file;
    if !eq_text_ignoring_case(file.extension.as_str(), "gif") {
        return match decode_still(file.data, file.extension.as_str()) {
            None => Err(MediaError::Image),
            Some((width, height, raw)) => {
                let image = picture_image(width, height, &raw);
                proof {
                    lemma_channels_are_read_back(image.pixels@, raw@);
                    assert(is_first_picture(given, image));
                }
                cover(&image)
            },
        };
    }
    let mut source = match open_gif(file.data) {
        Ok(source) => source,
        Err(_) => return Err(MediaError::Gif),
    };
    match next_frame(&mut source) {
        None => Err(MediaError::NoFrames),
        Some(Err(_)) => Err(MediaError::GifFrame),
        Some(Ok(picture)) => {
            let image = picture_image(picture.width, picture.height, &picture.raw);
            proof {
                assert(is_first_picture(given, image));
            }
            cover(&image)
        },
    }
}

/// Whatever picture a background shows, the rows above and below it have the margin colour.
pub proof fn lemma_background_margins(image: Image, canvas: Image, x: int, y: int)
    requires
        is_background(image, canvas),
        0 <= x < SIDE,
        0 <= y < BACKGROUND_TOP || BACKGROUND_TOP + BACKGROUND_HEIGHT <= y < SIDE,
    ensures
        canvas.at(x, y) == margin_color(),
{
    assert(canvas.covers(x, y));
}

/// The built-in effect repeats itself after 120 frames.
pub proof fn lemma_procedural_repeats(index: int, x: int, y: int)
    requires
        index >= 0,
    ensures
        procedural_pixel(index + 120, x, y) == procedural_pixel(index, x, y),
{
    assert((index + 120) % 120 == index % 120);
}

/// A picture that already has the size of the target is shown unchanged.
pub proof fn lemma_exact_picture_is_kept(image: Image, result: Image)
    requires
        image.wf(),
        is_cover(image, result),
        0 < image.width < 0x100_0000,
        0 < image.height < 0x100_0000,
        image.width == result.width,
        image.height == result.height,
    ensures
        forall|x: int, y: int| result.covers(x, y) ==> #[trigger] result.at(x, y) == image.at(x, y),
{
    lemma_unscaled(image.width as int);
    lemma_unscaled(image.height as int);
}

proof fn lemma_unscaled(side: int)
    requires
        0 < side < 0x100_0000,
    ensures
        scale_to(side, side) == SCALE_ONE,
        scaled_side(side, SCALE_ONE as nat) == side,
{
    lemma2_to64();
    assert(pow2(64) == SCALE_ONE);
    lemma_single_of_shifted(side as nat, 0, 1);
    assert(side as nat * pow2(0) == side);
    assert(side as nat * pow2(0) * 1 == side);
    lemma_single_of_shifted(1, 64, side as nat);
    lemma_single_of_shifted(side as nat, 64, 1);
    let one = pow2(64);
    assert(1 * one * (side as nat) == side * one) by (nonlinear_arith)
        requires
            side > 0,
    ;
    assert((side as nat) * pow2(64) * 1 == (side * SCALE_ONE) as nat);
}

/// A colour with another one laid over it that hides `alpha` 255ths of it, channel by channel, rounded
/// down.
pub open spec fn is_laid_on(below: Rgba, above: Rgba, alpha: int, result: Rgba) -> bool {
    &&& 255 * result.r <= below.r * (255 - alpha) + above.r * alpha < 255 * (result.r + 1)
    &&& 255 * result.g <= below.g * (255 - alpha) + above.g * alpha < 255 * (result.g + 1)
    &&& 255 * result.b <= below.b * (255 - alpha) + above.b * alpha < 255 * (result.b + 1)
    &&& result.a == below.a
}

/// Laying an overlay over a pixel mixes their colours by the overlay's opacity, and keeps the opacity of
/// the pixel.
pub proof fn lemma_blending_mixes(pixel: Rgba, overlay: Rgba, result: Rgba)
    requires
        call_ensures(blend, (pixel, overlay), result),
    ensures
        is_laid_on(pixel, overlay, overlay.a as int, result),
{
    lemma_blended_is_laid(pixel, overlay);
}

/// A pixel with an overlay over it is the mixture of both.
pub proof fn lemma_blended_is_laid(pixel: Rgba, overlay: Rgba)
    ensures
        is_laid_on(pixel, overlay, overlay.a as int, blended(pixel, overlay)),
{
    lemma_blended_channel(pixel.r, overlay.r, overlay.a);
    lemma_blended_channel(pixel.g, overlay.g, overlay.a);
    lemma_blended_channel(pixel.b, overlay.b, overlay.a);
}

/// The colour of the built-in effect where no stripe is: it grows redder to the right, greener to the
/// bottom, and bluer to both.
pub open spec fn is_plain_color(x: int, y: int, color: Rgba) -> bool {
    &&& 480 * (color.r - 8) <= 18 * x < 480 * (color.r - 7)
    &&& 480 * (color.g - 14) <= 24 * y < 480 * (color.g - 13)
    &&& 960 * (color.b - 32) <= 36 * (x + y) < 960 * (color.b - 31)
    &&& color.a == 255
}

/// `picture` shows, at a pixel, the plain effect with the light blue stripe of this opacity over it.
pub open spec fn shows_stripe(picture: Image, x: int, y: int, alpha: int) -> bool {
    exists|plain: Rgba| #[trigger]
        is_plain_color(x, y, plain) && is_laid_on(
            plain,
            Rgba { r: 64, g: 210, b: 255, a: 255 },
            alpha,
            picture.pixels@[480 * y + x],
        )
}

/// The stripe is 150 columns wide, and its left edge lies 100 columns left of the display in the first
/// of 120 frames, and six columns further to the right in each one that follows.  It hides 72 255ths in
/// its middle, and less to both edges; beside it nothing is hidden.
pub proof fn lemma_stripe_is_drawn(index: usize, picture: Image, x: int, y: int)
    requires
        call_ensures(procedural_frame, (index,), picture),
        0 <= x < 480,
        0 <= y < 480,
    ensures
        picture.width == 480,
        picture.height == 480,
        picture.pixels@.len() == 230_400,
        ({
            let left = 6 * (index as int % 120) - 100;
            &&& x < left || left + 150 <= x ==> is_plain_color(x, y, picture.pixels@[480 * y + x])
            &&& left + 57 <= x <= left + 93 ==> shows_stripe(picture, x, y, 72)
            &&& left <= x <= left + 57 ==> shows_stripe(picture, x, y, x - left + 15)
            &&& left + 93 <= x < left + 150 ==> shows_stripe(picture, x, y, left + 165 - x)
        }),
{
    let plain = base_pixel(x, y);
    let left = 6 * (index as int % 120) - 100;
    assert(picture.covers(x, y));
    assert(picture.at(x, y) == picture.pixels@[480 * y + x]) by {
        assert(y * 480 == 480 * y);
    }
    assert(is_plain_color(x, y, plain));
    if left <= x < left + 150 {
        let alpha = stripe_alpha(x - left) as u8;
        assert(stripe_offset(index as int, x) == x - left);
        assert(15 <= stripe_alpha(x - left) <= 72);
        lemma_blended_channel(plain.r, 64, alpha);
        lemma_blended_channel(plain.g, 210, alpha);
        lemma_blended_channel(plain.b, 255, alpha);
        assert(is_laid_on(
            plain,
            Rgba { r: 64, g: 210, b: 255, a: 255 },
            alpha as int,
            picture.pixels@[480 * y + x],
        ));
        assert(shows_stripe(picture, x, y, alpha as int));
    }
}

/// From one frame to the next, the stripe moves six columns to the right, and over 120 frames it comes
/// to every column in its full strength.
pub proof fn lemma_stripe_crosses_the_display(
    index: usize,
    picture: Image,
    next: Image,
    x: int,
    y: int,
)
    requires
        call_ensures(procedural_frame, (index,), picture),
        index < usize::MAX,
        call_ensures(procedural_frame, ((index + 1) as usize,), next),
        0 <= x < 480,
        0 <= y < 480,
    ensures
        index as int % 120 < 119 && x + 6 < 480 && 6 * (index as int % 120) - 100 <= x < 6 * (
        index as int % 120) + 50 ==> exists|alpha: int|
            15 <= alpha <= 72 && #[trigger] shows_stripe(picture, x, y, alpha) && shows_stripe(
                next,
                x + 6,
                y,
                alpha,
            ),
        index as int % 120 == (x + 25) / 6 ==> shows_stripe(picture, x, y, 72),
{
    lemma_stripe_is_drawn(index, picture, x, y);
    let phase = index as int % 120;
    if phase < 119 && x + 6 < 480 {
        assert((index + 1) % 120 == phase + 1);
        lemma_stripe_is_drawn((index + 1) as usize, next, x + 6, y);
        let left = 6 * phase - 100;
        if left <= x < left + 150 {
            let strength = if x < left + 57 {
                x - left + 15
            } else if x <= left + 93 {
                72
            } else {
                left + 165 - x
            };
            assert(shows_stripe(picture, x, y, strength) && shows_stripe(next, x + 6, y, strength));
        }
    }
}

/// The built-in effect starts again after 120 frames.
pub proof fn lemma_effect_starts_again(index: usize, picture: Image, later: usize, again: Image)
    requires
        call_ensures(procedural_frame, (index,), picture),
        call_ensures(procedural_frame, (later,), again),
        later == index + 120,
    ensures
        picture.pixels@ == again.pixels@,
{
    assert forall|i: int| 0 <= i < 230_400 implies picture.pixels@[i] == again.pixels@[i] by {
        let x = i % 480;
        let y = i / 480;
        assert(picture.covers(x, y) && again.covers(x, y));
        assert(picture.at(x, y) == again.at(x, y)) by {
            lemma_procedural_repeats(index as int, x, y);
        }
        assert(y * 480 + x == i);
    }
    assert(picture.pixels@ =~= again.pixels@);
}

/// A background gives its frames one after the other, and starts again after the last; without a file
/// it gives the built-in effect.
pub proof fn lemma_frames_come_in_turn(background: &Background, index: usize, image: Image)
    requires
        background.wf(),
        call_ensures(Background::frame, (background, index), image),
    ensures
        *background matches Background::Frames(frames) ==> image.pixels@
            == frames@[index as int % frames@.len() as int].image.pixels@,
        *background is Procedural ==> forall|drawn: Image|
            call_ensures(procedural_frame, (index,), drawn) ==> #[trigger] drawn.pixels@
                == image.pixels@,
{
    if *background is Procedural {
        assert forall|drawn: Image|
            call_ensures(procedural_frame, (index,), drawn) implies #[trigger] drawn.pixels@
            == image.pixels@ by {
            assert forall|i: int| 0 <= i < 230_400 implies drawn.pixels@[i] == image.pixels@[i] by {
                let x = i % 480;
                let y = i / 480;
                assert(drawn.covers(x, y) && image.covers(x, y));
                assert(drawn.at(x, y) == image.at(x, y));
                assert(y * 480 + x == i);
            }
            assert(drawn.pixels@ =~= image.pixels@);
        }
    }
}

/// A frame is shown for its own time, or for the time of a frame of the built-in effect if that is
/// longer.
pub proof fn lemma_frames_are_shown_for_their_time(
    background: &Background,
    index: usize,
    fps: u32,
    delay: u64,
    effect: &Background,
    limit: u64,
)
    requires
        background.wf(),
        fps > 0,
        call_ensures(Background::delay, (background, index, fps), delay),
        *effect is Procedural,
        call_ensures(Background::delay, (effect, index, fps), limit),
    ensures
        *background is Procedural ==> delay == limit,
        *background matches Background::Frames(frames) ==> {
            let own = frames@[index as int % frames@.len() as int].delay;
            delay >= own && delay >= limit && (delay == own || delay == limit)
        },
{
}

/// A picture that is as high as the display, and at least as wide, is shown from its middle; one that is
/// as wide, and at least as high, as well.
pub proof fn lemma_middle_is_shown(image: &Image, result: Result<Image, MediaError>, x: int, y: int)
    requires
        image.wf(),
        call_ensures(cover, (image,), result),
        480 <= image.width < 0x10_0000,
        480 <= image.height < 0x10_0000,
        image.width == 480 || image.height == 480,
        0 <= x < 480,
        0 <= y < 480,
    ensures
        result matches Ok(shown) && shown.width == 480 && shown.height == 480 && shown.pixels@[480
            * y + x] == image.pixels@[(y + (image.height - 480) / 2) * image.width + x + (
        image.width - 480) / 2],
{
    let width = image.width as int;
    let height = image.height as int;
    lemma_unscaled(480);
    lemma_unscaled(width);
    lemma_unscaled(height);
    lemma_scale_is_less(480, width);
    lemma_scale_is_less(480, height);
    assert(cover_width(width, height, 480, 480) == width);
    assert(cover_height(width, height, 480, 480) == height);
    assert(4 * (width * height) <= isize::MAX) by (nonlinear_arith)
        requires
            0 <= width < 0x10_0000,
            0 <= height < 0x10_0000,
            width == 480 || height == 480,
    ;
    assert(scalable(width, height, width, height));
    let shown = result->Ok_0;
    let left = (width - 480) / 2;
    let top = (height - 480) / 2;
    assert(is_cover(*image, shown));
    let resized = choose|resized: Image| #[trigger]
        is_resized(*image, width, height, resized) && is_crop(resized, left, top, shown);
    assert(shown.covers(x, y));
    assert(shown.at(x, y) == resized.at(left + x, top + y));
    assert(480 * y == y * 480);
}

/// A larger side needs a smaller scale.
proof fn lemma_scale_is_less(target: int, side: int)
    requires
        0 < target <= side < 0x10_0000,
    ensures
        scale_to(target, side) <= SCALE_ONE,
{
    let n = (target * SCALE_ONE) as nat;
    let scale = scale_to(target, side);
    lemma_unscaled(side);
    lemma2_to64();
    lemma_single_of_shifted(side as nat, 0, 1);
    assert(side as nat * pow2(0) == side);
    assert(side as nat * pow2(0) * 1 == side);
    if target < side {
        vstd::arithmetic::div_mod::lemma_div_is_ordered_by_denominator(
            n as int,
            side,
            0x10_0000,
        );
        lemma_single_is_close(n, side as nat);
        assert(scale <= SCALE_ONE) by (nonlinear_arith)
            requires
                0x100_0000 * (side * scale) <= 0x100_0001 * n,
                n <= (side - 1) * SCALE_ONE,
                0 < side < 0x10_0000,
        ;
    }
}

/// A picture that has the size of the background is placed across the middle of the display, with light
/// margins of 105 rows above and below.
pub proof fn lemma_background_is_placed(
    image: &Image,
    result: Result<Image, MediaError>,
    x: int,
    y: int,
)
    requires
        image.wf(),
        call_ensures(background_frame, (image,), result),
        image.width == 480,
        image.height == 270,
        0 <= x < 480,
        0 <= y < 480,
    ensures
        result matches Ok(canvas) && canvas.width == 480 && canvas.height == 480 && canvas.pixels@[480
            * y + x] == if 105 <= y < 375 {
            image.pixels@[480 * (y - 105) + x]
        } else {
            Rgba { r: 250, g: 250, b: 248, a: 255 }
        },
{
    lemma_unscaled(480);
    lemma_unscaled(270);
    assert(cover_width(480, 270, 480, 270) == 480);
    assert(cover_height(480, 270, 480, 270) == 270);
    assert(scalable(480, 270, 480, 270));
    assert(background_error(480, 270) is None);
    let canvas = result->Ok_0;
    assert(is_background(*image, canvas));
    assert(canvas.covers(x, y));
    assert(canvas.at(x, y) == canvas.pixels@[y * 480 + x]);
    assert(480 * y == y * 480 && 480 * (y - 105) == (y - 105) * 480);
    if 105 <= y < 375 {
        let content = choose|content: Image| #[trigger]
            is_cover(*image, content) && content.width == SIDE && content.height
                == BACKGROUND_HEIGHT && shows_content(content, canvas);
        lemma_exact_picture_is_kept(*image, content);
        assert(content.covers(x, y - 105));
        assert(content.at(x, y - 105) == image.at(x, y - 105));
        assert(image.at(x, y - 105) == image.pixels@[(y - 105) * 480 + x]);
        assert(canvas.at(x, y) == content.at(x, y - 105));
    } else {
        assert(canvas.at(x, y) == margin_color());
    }
}

/// Whatever file a background is loaded from, it has one to 120 frames of 480 by 480 pixels, with light
/// margins of 105 rows above and below, each shown for ten milliseconds at least; without a file it is
/// the built-in effect.
pub proof fn lemma_loaded_background(
    file: Option<MediaFile>,
    result: Result<Background, MediaError>,
    i: int,
    x: int,
    y: int,
)
    requires
        call_ensures(Background::load, (file,), result),
        0 <= x < 480,
        0 <= y < 480,
    ensures
        file is None ==> result matches Ok(Background::Procedural),
        file is Some ==> (result matches Ok(background) ==> background is Frames),
        result matches Ok(Background::Frames(frames)) ==> {
            &&& 1 <= frames@.len() <= 120
            &&& 0 <= i < frames@.len() ==> {
                let frame = frames@[i];
                &&& frame.delay >= 10_000_000
                &&& frame.image.width == 480
                &&& frame.image.height == 480
                &&& y < 105 || 375 <= y ==> frame.image.pixels@[480 * y + x] == (Rgba {
                    r: 250,
                    g: 250,
                    b: 248,
                    a: 255,
                })
            }
        },
{
    if let Ok(Background::Frames(frames)) = result {
        if 0 <= i < frames@.len() {
            let image = frames@[i].image;
            assert(image.covers(x, y));
            assert(480 * y == y * 480);
            assert(y < 105 || 375 <= y ==> image.at(x, y) == margin_color());
        }
    }
}

/// The name of the file says that it is an animation: it ends in these three letters, large or small.
pub open spec fn ends_in_gif(extension: Seq<char>) -> bool {
    &&& extension.len() == 3
    &&& extension[0] == 'g' || extension[0] == 'G'
    &&& extension[1] == 'i' || extension[1] == 'I'
    &&& extension[2] == 'f' || extension[2] == 'F'
}

proof fn lemma_ends_in_gif(extension: Seq<char>)
    ensures
        is_gif_extension(extension) == ends_in_gif(extension),
{
    reveal_strlit("gif");
    if is_gif_extension(extension) {
        assert(lower_char(extension[0]) == lower_char("gif"@[0]));
        assert(lower_char(extension[1]) == lower_char("gif"@[1]));
        assert(lower_char(extension[2]) == lower_char("gif"@[2]));
    }
}

/// An animation is loaded with all its frames, and not if there are more than 120 of them or one of them
/// cannot be read; any other picture is one frame, which is shown for a second.
pub proof fn lemma_all_frames_are_loaded(file: MediaFile, result: Result<Background, MediaError>, i: int)
    requires
        call_ensures(Background::load, (Some(file),), result),
    ensures
        result matches Ok(Background::Frames(frames)) ==> if ends_in_gif(file.extension@) {
            &&& gif_opens(file.data@)
            &&& gif_item(file.data@, frames@.len() as int) is None
            &&& 0 <= i < frames@.len() ==> gif_item(file.data@, i) matches Some(Some(_))
        } else {
            &&& frames@.len() == 1
            &&& frames@[0].delay == 1_000_000_000
            &&& still_shape(file.data@, file.extension@) is Some
        },
        ends_in_gif(file.extension@) && !gif_opens(file.data@) ==> result matches Err(MediaError::Gif),
        !ends_in_gif(file.extension@) && still_shape(file.data@, file.extension@) is None
            ==> result matches Err(MediaError::Image),
{
    lemma_ends_in_gif(file.extension@);
    lemma_usable_frames_bound(file.data@, MAX_GIF_FRAMES as nat);
    if 0 <= i < usable_frames(file.data@, MAX_GIF_FRAMES as nat) {
        lemma_usable_frames_are_usable(file.data@, MAX_GIF_FRAMES as nat, i);
    }
    if let Ok(Background::Frames(frames)) = result {
        assert(load_error(file) is None);
        assert(are_frames(file, frames@));
        if ends_in_gif(file.extension@) {
            assert(gif_error(file.data@) is None);
            assert(gif_opens(file.data@));
            assert(frames@.len() == usable_frames(file.data@, MAX_GIF_FRAMES as nat));
            assert(gif_item(file.data@, frames@.len() as int) is None) by {
                if usable_frames(file.data@, MAX_GIF_FRAMES as nat) < MAX_GIF_FRAMES {
                    lemma_usable_frames_end(file.data@, MAX_GIF_FRAMES as nat);
                }
            }
        } else {
            assert(is_still_frame(file.data@, file.extension@, frames@[0]));
        }
    }
}

proof fn lemma_usable_frames_end(data: Seq<u8>, limit: nat)
    requires
        usable_frames(data, limit) < limit,
    ensures
        !usable_item(data, usable_frames(data, limit) as int),
    decreases limit,
{
    let fewer = usable_frames(data, (limit - 1) as nat);
    lemma_usable_frames_bound(data, (limit - 1) as nat);
    if fewer < limit - 1 {
        lemma_usable_frames_end(data, (limit - 1) as nat);
    }
}

proof fn lemma_usable_frames_are_usable(data: Seq<u8>, limit: nat, i: int)
    requires
        0 <= i < usable_frames(data, limit),
    ensures
        usable_item(data, i),
    decreases limit,
{
    if limit > 0 {
        let fewer = usable_frames(data, (limit - 1) as nat);
        if i < fewer {
            lemma_usable_frames_are_usable(data, (limit - 1) as nat, i);
        }
    }
}

/// A picture covers its target once it is scaled: no side is shorter than that of the target.
pub proof fn lemma_scaled_picture_covers(
    width: u32,
    height: u32,
    target_width: u32,
    target_height: u32,
    size: Result<(u32, u32), MediaError>,
)
    requires
        0 < target_width <= MAX_SIDE,
        0 < target_height <= MAX_SIDE,
        call_ensures(cover_size, (width, height, target_width, target_height), size),
    ensures
        width == 0 || height == 0 ==> size matches Err(MediaError::EmptyImage),
        size matches Ok((new_width, new_height)) ==> new_width >= target_width && new_height
            >= target_height,
{
}

/// The built-in effect is shown for a part of a second that the frame rate tells, to the nearest nanosecond.
pub proof fn lemma_frame_rate_is_kept(background: &Background, index: usize, fps: u32, delay: u64)
    requires
        background.wf(),
        *background is Procedural,
        0 < fps,
        call_ensures(Background::delay, (background, index, fps), delay),
    ensures
        2 * (delay * fps) <= 2_000_000_000 + fps + 1,
        2 * (delay * fps) >= 2_000_000_000 - fps - 1,
{
    let unit = one();
    lemma_pow2_pos(4000);
    lemma_double_quotient_is_close(1, fps);
    let seconds = double_quotient(1, fps as nat);
    lemma_nanoseconds_are_close(seconds);
    let exact = fps as nat * seconds;
    let counted = delay as nat * fps as nat;
    let time = delay as nat * unit;
    assert(2 * (counted * unit) <= 2_000_000_000 * exact + fps * unit && 2_000_000_000 * exact <= 2 * (
    counted * unit) + fps * unit) by (nonlinear_arith)
        requires
            2 * time <= 2_000_000_000 * seconds + unit,
            2_000_000_000 * seconds <= 2 * time + unit,
            time == delay as nat * unit,
            exact == fps as nat * seconds,
            counted == delay as nat * fps as nat,
    ;
    assert(whole(1) == unit);
    assert(2_000_000_000 * exact <= 2_000_000_001 * unit);
    assert(2_000_000_000 * exact >= 1_999_999_999 * unit);
    assert(2 * counted <= 2_000_000_001 + fps) by (nonlinear_arith)
        requires
            2 * (counted * unit) <= 2_000_000_001 * unit + fps * unit,
            unit > 0,
    ;
    assert(2 * counted >= 1_999_999_999 - fps) by (nonlinear_arith)
        requires
            1_999_999_999 * unit <= 2 * (counted * unit) + fps * unit,
            unit > 0,
    ;
}

/// The quotient of two whole numbers in double precision is off by less than one part in two to the fiftieth.
proof fn lemma_double_quotient_is_close(value: u32, divisor: u32)
    requires
        value > 0,
        divisor > 0,
    ensures
        0x4_0000_0000_0000 * (divisor as nat * double_quotient(value as nat, divisor as nat))
            <= 0x4_0000_0000_0001 * whole(value as nat),
        0x4_0000_0000_0000 * (divisor as nat * double_quotient(value as nat, divisor as nat))
            >= 0x3_ffff_ffff_ffff * whole(value as nat),
{
    let unit = one();
    lemma_pow2_pos(4000);
    lemma2_to64();
    lemma2_to64_rest();
    lemma_exact_whole(value as nat);
    lemma_exact_whole(divisor as nat);
    let n = whole(value as nat) * unit;
    let d = whole(divisor as nat);
    let result = double_quotient(value as nat, divisor as nat);
    assert(d > 0) by (nonlinear_arith)
        requires
            d == divisor as nat * unit,
            divisor > 0,
            unit > 0,
    ;
    let least = pow2(2978);
    lemma_pow2_adds(2978, 1022);
    lemma_pow2_strictly_increases(32, 1022);
    lemma_pow2_pos(2978);
    assert(n >= d * least) by (nonlinear_arith)
        requires
            n == (value as nat * unit) * unit,
            d == divisor as nat * unit,
            value >= 1,
            divisor <= 0x1_0000_0000,
            unit == least * pow2(1022),
            pow2(1022) >= 0x1_0000_0000,
            least > 0,
            unit > 0,
    ;
    lemma_rounded_is_close(n, d, 53, 2926);
    let scaled = divisor as nat * result;
    let exact = whole(value as nat);
    assert(d * result == scaled * unit) by (nonlinear_arith)
        requires
            d == divisor as nat * unit,
            scaled == divisor as nat * result,
    ;
    assert(0x20_0000_0000_0000 * scaled <= 0x20_0000_0000_0001 * exact) by (nonlinear_arith)
        requires
            0x20_0000_0000_0000 * (scaled * unit) <= 0x20_0000_0000_0001 * (exact * unit),
            unit > 0,
    ;
    assert(0x20_0000_0000_0000 * scaled >= 0x1f_ffff_ffff_ffff * exact) by (nonlinear_arith)
        requires
            0x20_0000_0000_0000 * (scaled * unit) >= 0x1f_ffff_ffff_ffff * (exact * unit),
            unit > 0,
    ;
}

/// A picture changes by itself if it is the built-in effect or has more than one frame.
pub proof fn lemma_what_is_animated(background: &Background, animated: bool)
    requires
        call_ensures(Background::is_animated, (background,), animated),
    ensures
        *background is Procedural ==> animated,
        *background matches Background::Frames(frames) ==> (animated <==> frames@.len() >= 2),
{
}

/// An animation is read item by item: each frame is added behind the others, 120 at most, and shown for ten
/// milliseconds or more; it ends with the first item that is missing, and fails with an item that cannot
/// be read, or without frames.
pub proof fn lemma_animation_is_read(
    frames: &mut Vec<MediaFrame>,
    item: Option<Option<Picture>>,
    step: GifStep,
    shown: Result<MediaFrame, MediaError>,
)
    requires
        item matches Some(Some(picture)) ==> picture.raw@.len() == 4 * (picture.width
            * picture.height) && picture.denominator > 0,
        call_ensures(accept_item, (frames, item), step),
        item matches Some(Some(picture)) ==> call_ensures(show_picture, (&picture,), shown),
    ensures
        item is None && old(frames)@.len() == 0 ==> step == GifStep::Failed(MediaError::NoFrames),
        item is None && old(frames)@.len() > 0 ==> step is Finished,
        item is Some && old(frames)@.len() == 120 ==> step == GifStep::Failed(MediaError::TooManyFrames),
        item is Some && item->0 is None && old(frames)@.len() != 120 ==> step == GifStep::Failed(
            MediaError::GifFrame,
        ),
        !(step is More) ==> final(frames)@ == old(frames)@,
        item is Some && item->0 is Some && old(frames)@.len() != 120 ==> match shown {
            Err(error) => step == GifStep::Failed(error),
            Ok(frame) => {
                &&& step is More
                &&& final(frames)@.len() == old(frames)@.len() + 1
                &&& forall|i: int|
                    0 <= i < old(frames)@.len() ==> #[trigger] final(frames)@[i] == old(frames)@[i]
                &&& final(frames)@.last().delay == frame.delay
                &&& frame.delay >= 10_000_000
                &&& frame.image.width == 480
                &&& frame.image.height == 480
            },
        },
{
    if step is More {
        let before = old(frames)@;
        let after = final(frames)@;
        assert forall|i: int| 0 <= i < before.len() implies #[trigger] after[i] == before[i] by {
            assert(after.drop_last()[i] == before[i]);
        }
    }
}

/// A frame is shown for its own time in milliseconds, a fraction, to the nanosecond; less than ten
/// milliseconds are made ten.
pub proof fn lemma_frame_is_shown_for_its_fraction(
    picture: &Picture,
    frame: Result<MediaFrame, MediaError>,
)
    requires
        picture.raw@.len() == 4 * (picture.width * picture.height),
        picture.denominator > 0,
        call_ensures(show_picture, (picture,), frame),
    ensures
        frame matches Ok(frame) ==> {
            &&& picture.numerator < 10 * picture.denominator ==> frame.delay == 10_000_000
            &&& picture.numerator >= 10 * picture.denominator ==> {
                &&& 2 * (frame.delay * picture.denominator) <= 2_000_000 * picture.numerator
                    + picture.denominator + 16
                &&& 2 * (frame.delay * picture.denominator) >= 2_000_000 * picture.numerator
                    - picture.denominator - 16
            }
        },
{
    if let Ok(frame) = frame {
        lemma_delay_is_close(picture.numerator, picture.denominator, frame.delay);
    }
}

proof fn lemma_delay_is_close(numerator: u32, denominator: u32, delay: u64)
    requires
        denominator > 0,
        delay == frame_delay(numerator as int, denominator as int),
    ensures
        numerator < 10 * denominator ==> delay == 10_000_000,
        numerator >= 10 * denominator ==> 2 * (delay * denominator) <= 2_000_000 * numerator + denominator
            + 16,
        numerator >= 10 * denominator ==> 2 * (delay * denominator) >= 2_000_000 * numerator - denominator
            - 16,
{
    let unit = one();
    let den = denominator as nat;
    let millis = frame_millis(numerator as int, denominator as int);
    lemma_pow2_pos(4000);
    lemma_millis_are_bounded(numerator, denominator);
    lemma_seconds_are_close(millis);
    let seconds = double(millis * unit, double(whole(1_000), 1));
    lemma_nanoseconds_are_close(seconds);
    let time = delay as nat * unit;
    assert(0x20_0000_0000_0000 * (1_000 * seconds) <= 0x20_0000_0000_0001 * millis);
    assert(0x20_0000_0000_0000 * (1_000 * seconds) >= 0x1f_ffff_ffff_ffff * millis);
    if numerator < 10 * denominator {
        assert(millis == 10 * unit);
        assert(2 * time <= 20_000_000 * unit + 2 * unit);
        assert(2 * time >= 20_000_000 * unit - 2 * unit);
        assert(2 * time < 20_000_002 * unit && 2 * time > 19_999_998 * unit);
        assert(delay < 10_000_001) by (nonlinear_arith)
            requires
                time == delay as nat * unit,
                2 * time < 20_000_002 * unit,
                unit > 0,
        ;
        assert(delay > 9_999_999) by (nonlinear_arith)
            requires
                time == delay as nat * unit,
                2 * time > 19_999_998 * unit,
                unit > 0,
        ;
    } else {
        lemma_double_quotient_is_close(numerator, denominator);
        let exact = den * millis;
        let shown = den * seconds;
        let counted = delay as nat * den;
        assert(2 * (counted * unit) <= 2_000_000_000 * shown + den * unit && 2_000_000_000 * shown <= 2 * (
        counted * unit) + den * unit) by (nonlinear_arith)
            requires
                2 * time <= 2_000_000_000 * seconds + unit,
                2_000_000_000 * seconds <= 2 * time + unit,
                time == delay as nat * unit,
                shown == den * seconds,
                counted == delay as nat * den,
        ;
        assert(0x20_0000_0000_0000 * (1_000 * shown) <= 0x20_0000_0000_0001 * exact
            && 0x20_0000_0000_0000 * (1_000 * shown) >= 0x1f_ffff_ffff_ffff * exact) by (nonlinear_arith)
            requires
                0x20_0000_0000_0000 * (1_000 * seconds) <= 0x20_0000_0000_0001 * millis,
                0x20_0000_0000_0000 * (1_000 * seconds) >= 0x1f_ffff_ffff_ffff * millis,
                shown == den * seconds,
                exact == den * millis,
        ;
        let goal = whole(numerator as nat);
        assert(0x4_0000_0000_0000 * exact <= 0x4_0000_0000_0001 * goal);
        assert(0x4_0000_0000_0000 * exact >= 0x3_ffff_ffff_ffff * goal);
        assert(goal <= 0x1_0000_0000 * unit) by (nonlinear_arith)
            requires
                goal == numerator as nat * unit,
                numerator <= 0x1_0000_0000,
        ;
        assert(0x4_0000_0000_0000 * (exact - goal) <= 0x1_0000_0000 * unit);
        assert(0x4_0000_0000_0000 * (goal - exact) <= 0x1_0000_0000 * unit);
        assert(262_144 * (exact - goal) <= unit && 262_144 * (goal - exact) <= unit);
        assert(exact <= 0x2_0000_0000 * unit);
        assert(0x20_0000_0000_0000 * (1_000 * shown - exact) <= 0x2_0000_0000 * unit);
        assert(0x20_0000_0000_0000 * (exact - 1_000 * shown) <= 0x2_0000_0000 * unit);
        assert(1_048_576 * (1_000 * shown - exact) <= unit && 1_048_576 * (exact - 1_000 * shown)
            <= unit);
        assert(2_000_000_000 * shown <= 2_000_000 * goal + 10 * unit);
        assert(2_000_000_000 * shown >= 2_000_000 * goal - 10 * unit);
        assert(2 * counted <= 2_000_000 * numerator + den + 10) by (nonlinear_arith)
            requires
                2 * (counted * unit) <= 2_000_000 * goal + 10 * unit + den * unit,
                goal == numerator as nat * unit,
                unit > 0,
        ;
        assert(2 * counted >= 2_000_000 * numerator - den - 10) by (nonlinear_arith)
            requires
                2_000_000 * goal - 10 * unit <= 2 * (counted * unit) + den * unit,
                goal == numerator as nat * unit,
                unit > 0,
        ;
    }
}

proof fn lemma_millis_are_bounded(numerator: u32, denominator: u32)
    requires
        denominator > 0,
    ensures
        frame_millis(numerator as int, denominator as int) >= 10 * one(),
        numerator < 10 * denominator ==> frame_millis(numerator as int, denominator as int) == 10 * one(),
        numerator >= 10 * denominator ==> frame_millis(numerator as int, denominator as int)
            == double_quotient(numerator as nat, denominator as nat),
{
    let unit = one();
    lemma_pow2_pos(4000);
    lemma2_to64();
    lemma2_to64_rest();
    lemma_exact_whole(numerator as nat);
    lemma_exact_whole(denominator as nat);
    let n = whole(numerator as nat) * unit;
    let d = whole(denominator as nat);
    assert(d > 0) by (nonlinear_arith)
        requires
            d == denominator as nat * unit,
            denominator > 0,
            unit > 0,
    ;
    let limit = d * (10 * pow2(4000));
    lemma_rounded_keeps_bound(limit, d, 53, 2926, 10, 4000);
    if numerator < 10 * denominator {
        assert(n <= limit) by (nonlinear_arith)
            requires
                n == (numerator as nat * unit) * unit,
                limit == (denominator as nat * unit) * (10 * unit),
                numerator <= 10 * denominator,
                unit > 0,
        ;
        lemma_rounded_is_monotone(n, limit, d, 53, 2926);
    } else {
        assert(n >= limit) by (nonlinear_arith)
            requires
                n == (numerator as nat * unit) * unit,
                limit == (denominator as nat * unit) * (10 * unit),
                numerator >= 10 * denominator,
                unit > 0,
        ;
        lemma_rounded_is_monotone(limit, n, d, 53, 2926);
    }
}

proof fn lemma_seconds_are_close(millis: nat)
    requires
        millis >= one(),
    ensures
        ({
            let seconds = double(millis * one(), double(whole(1_000), 1));
            &&& 0x20_0000_0000_0000 * (1_000 * seconds) <= 0x20_0000_0000_0001 * millis
            &&& 0x20_0000_0000_0000 * (1_000 * seconds) >= 0x1f_ffff_ffff_ffff * millis
        }),
{
    let unit = one();
    lemma_pow2_pos(4000);
    lemma2_to64();
    lemma2_to64_rest();
    lemma_exact_whole(1_000);
    let n = millis * unit;
    let d = whole(1_000);
    let seconds = double(n, d);
    let least = pow2(2978);
    lemma_pow2_adds(2978, 1022);
    lemma_pow2_strictly_increases(32, 1022);
    lemma_pow2_pos(2978);
    assert(n >= d * least) by (nonlinear_arith)
        requires
            n == millis * unit,
            d == 1_000 * unit,
            millis >= unit,
            unit == least * pow2(1022),
            pow2(1022) >= 0x1_0000_0000,
            least > 0,
            unit > 0,
    ;
    lemma_rounded_is_close(n, d, 53, 2926);
    let scaled = 1_000 * seconds;
    assert(d * seconds == scaled * unit) by (nonlinear_arith)
        requires
            d == 1_000 * unit,
            scaled == 1_000 * seconds,
    ;
    assert(0x20_0000_0000_0000 * scaled <= 0x20_0000_0000_0001 * millis) by (nonlinear_arith)
        requires
            0x20_0000_0000_0000 * (scaled * unit) <= 0x20_0000_0000_0001 * (millis * unit),
            unit > 0,
    ;
    assert(0x20_0000_0000_0000 * scaled >= 0x1f_ffff_ffff_ffff * millis) by (nonlinear_arith)
        requires
            0x20_0000_0000_0000 * (scaled * unit) >= 0x1f_ffff_ffff_ffff * (millis * unit),
            unit > 0,
    ;
}

/// `new_side` is `side` times a fraction, rounded up, but for less than one part in four million.
pub open spec fn is_scaled_by(side: int, new_side: int, numerator: int, denominator: int) -> bool {
    &&& 0x40_0000 * ((new_side - 1) * denominator) <= 0x40_0001 * (side * numerator)
    &&& new_side < u32::MAX ==> 0x40_0000 * (new_side * denominator) >= 0x3f_ffff * (side * numerator)
}

/// A picture keeps its proportions: both sides are scaled by the same fraction, which is the larger one of
/// those that make its width the target's width, and its height the target's height.
pub proof fn lemma_proportions_are_kept(
    width: u32,
    height: u32,
    target_width: u32,
    target_height: u32,
    size: Result<(u32, u32), MediaError>,
)
    requires
        0 < width < 0x10_0000,
        0 < height < 0x10_0000,
        0 < target_width <= 0x10_0000,
        0 < target_height <= 0x10_0000,
        call_ensures(cover_size, (width, height, target_width, target_height), size),
    ensures
        size matches Ok((new_width, new_height)) ==> {
            &&& target_width * height >= target_height * width ==> is_scaled_by(
                width as int,
                new_width as int,
                target_width as int,
                width as int,
            ) && is_scaled_by(height as int, new_height as int, target_width as int, width as int)
            &&& target_width * height <= target_height * width ==> is_scaled_by(
                width as int,
                new_width as int,
                target_height as int,
                height as int,
            ) && is_scaled_by(height as int, new_height as int, target_height as int, height as int)
        },
{
    if let Ok((new_width, new_height)) = size {
        let w = width as int;
        let h = height as int;
        let tw = target_width as int;
        let th = target_height as int;
        let scale = cover_scale(w, h, tw, th);
        if tw * h >= th * w {
            lemma_scale_follows(tw, w, th, h);
            lemma_side_follows(w, scale, w, tw);
            lemma_side_follows(h, scale, w, tw);
        }
        if tw * h <= th * w {
            lemma_scale_follows(th, h, tw, w);
            lemma_side_follows(w, scale, h, th);
            lemma_side_follows(h, scale, h, th);
        }
    }
}

/// A scale is off by at most one part in two to the twenty-fourth.
proof fn lemma_scale_is_close(target: int, side: int)
    requires
        0 < target <= 0x10_0000,
        0 < side < 0x10_0000,
    ensures
        0x100_0000 * (side * scale_to(target, side)) <= 0x100_0001 * (target * SCALE_ONE),
        0x100_0000 * (side * scale_to(target, side)) >= 0xff_ffff * (target * SCALE_ONE),
{
    let n = (target * SCALE_ONE) as nat;
    let d = side as nat;
    lemma2_to64();
    lemma_single_of_shifted(d, 0, 1);
    assert(d * pow2(0) == d && d * pow2(0) * 1 == d);
    assert(single(d, 1) == d);
    vstd::arithmetic::div_mod::lemma_fundamental_div_mod(n as int, d as int);
    let value = n / d;
    assert(value >= 0x100_0000) by (nonlinear_arith)
        requires
            n == d * value + n % d,
            n % d < d,
            0 < d < 0x10_0000,
            n >= 0x1_0000_0000_0000_0000,
    ;
    lemma_single_is_close(n, d);
}

proof fn lemma_scale_follows(target: int, side: int, other_target: int, other_side: int)
    requires
        0 < target <= 0x10_0000,
        0 < side < 0x10_0000,
        0 < other_target <= 0x10_0000,
        0 < other_side < 0x10_0000,
        target * other_side >= other_target * side,
    ensures
        ({
            let one_scale = scale_to(target, side);
            let other_scale = scale_to(other_target, other_side);
            let scale = if one_scale >= other_scale {
                one_scale
            } else {
                other_scale
            };
            &&& 0x100_0000 * (side * scale) <= 0x100_0001 * (target * SCALE_ONE)
            &&& 0x100_0000 * (side * scale) >= 0xff_ffff * (target * SCALE_ONE)
        }),
{
    lemma_scale_is_close(target, side);
    lemma_scale_is_close(other_target, other_side);
    let one_scale = scale_to(target, side) as int;
    let other_scale = scale_to(other_target, other_side) as int;
    if one_scale < other_scale {
        assert(side * other_scale >= side * one_scale) by (nonlinear_arith)
            requires
                other_scale >= one_scale,
                side > 0,
        ;
        let whole_part = SCALE_ONE as int;
        assert(0x100_0000 * (side * other_scale) <= 0x100_0001 * (target * whole_part))
            by (nonlinear_arith)
            requires
                0x100_0000 * (other_side * other_scale) <= 0x100_0001 * (other_target * whole_part),
                target * other_side >= other_target * side,
                other_side > 0,
                side > 0,
                whole_part > 0,
        {
            assert((0x100_0000 * (side * other_scale)) * other_side == side * (0x100_0000 * (other_side
                * other_scale)));
            assert(side * (0x100_0000 * (other_side * other_scale)) <= side * (0x100_0001 * (other_target
                * whole_part)));
            assert(side * (0x100_0001 * (other_target * whole_part)) == 0x100_0001 * whole_part * (
            other_target * side));
            assert(0x100_0001 * whole_part * (other_target * side) <= 0x100_0001 * whole_part * (target
                * other_side));
            assert(0x100_0001 * whole_part * (target * other_side) == (0x100_0001 * (target
                * whole_part)) * other_side);
        };
    }
}

proof fn lemma_side_follows(side: int, scale: nat, denominator: int, numerator: int)
    requires
        0 < side < 0x10_0000,
        0 < denominator < 0x10_0000,
        0 < numerator,
        0x100_0000 * (denominator * scale) <= 0x100_0001 * (numerator * SCALE_ONE),
        0x100_0000 * (denominator * scale) >= 0xff_ffff * (numerator * SCALE_ONE),
    ensures
        is_scaled_by(side, scaled_side(side, scale), numerator, denominator),
{
    let full = SCALE_ONE as int;
    let d = side as nat;
    lemma2_to64();
    lemma_single_of_shifted(d, 0, 1);
    assert(d * pow2(0) == d && d * pow2(0) * 1 == d);
    assert(single(d, 1) == d);
    let n = d * scale;
    assert(scale >= 0x100_0000) by (nonlinear_arith)
        requires
            0x100_0000 * (denominator * scale) >= 0xff_ffff * (numerator * full),
            numerator >= 1,
            0 < denominator < 0x10_0000,
            full == 0x1_0000_0000_0000_0000,
    ;
    assert(n >= 0x100_0000) by (nonlinear_arith)
        requires
            n == d * scale,
            d >= 1,
            scale >= 0x100_0000,
    ;
    assert(n / 1 == n);
    lemma_single_is_close(n, 1);
    let found = single(n, 1) as int;
    let up = (found + full - 1) / full;
    assert(up * full >= found && (up - 1) * full < found);
    let new_side = scaled_side(side, scale);
    assert(new_side == if up > u32::MAX {
        u32::MAX as int
    } else {
        up
    });
    let exact = side * numerator;
    assert(0x1_0000_0000_0000 * ((up - 1) * denominator) <= 0x1_0000_0200_0001 * exact)
        by (nonlinear_arith)
        requires
            (up - 1) * full <= found,
            0x100_0000 * found <= 0x100_0001 * (side * scale),
            0x100_0000 * (denominator * scale) <= 0x100_0001 * (numerator * full),
            exact == side * numerator,
            denominator > 0,
            side > 0,
            full > 0,
    {
        assert((0x1_0000_0000_0000 * ((up - 1) * denominator)) * full == (0x1_0000_0000_0000
            * denominator) * ((up - 1) * full));
        assert((0x1_0000_0000_0000 * denominator) * ((up - 1) * full) <= (0x1_0000_0000_0000
            * denominator) * found);
        assert((0x1_0000_0000_0000 * denominator) * found == (0x100_0000 * denominator) * (0x100_0000
            * found));
        assert((0x100_0000 * denominator) * (0x100_0000 * found) <= (0x100_0000 * denominator) * (
        0x100_0001 * (side * scale)));
        assert((0x100_0000 * denominator) * (0x100_0001 * (side * scale)) == (0x100_0001 * side) * (
        0x100_0000 * (denominator * scale)));
        assert((0x100_0001 * side) * (0x100_0000 * (denominator * scale)) <= (0x100_0001 * side) * (
        0x100_0001 * (numerator * full)));
        assert((0x100_0001 * side) * (0x100_0001 * (numerator * full)) == (0x1_0000_0200_0001 * exact)
            * full);
    };
    assert(0x1_0000_0000_0000 * (up * denominator) >= 0xffff_fe00_0001 * exact) by (nonlinear_arith)
        requires
            up * full >= found,
            0x100_0000 * found >= 0xff_ffff * (side * scale),
            0x100_0000 * (denominator * scale) >= 0xff_ffff * (numerator * full),
            exact == side * numerator,
            denominator > 0,
            side > 0,
            full > 0,
    {
        assert((0x1_0000_0000_0000 * (up * denominator)) * full == (0x1_0000_0000_0000 * denominator) * (
        up * full));
        assert((0x1_0000_0000_0000 * denominator) * (up * full) >= (0x1_0000_0000_0000 * denominator)
            * found);
        assert((0x1_0000_0000_0000 * denominator) * found == (0x100_0000 * denominator) * (0x100_0000
            * found));
        assert((0x100_0000 * denominator) * (0x100_0000 * found) >= (0x100_0000 * denominator) * (
        0xff_ffff * (side * scale)));
        assert((0x100_0000 * denominator) * (0xff_ffff * (side * scale)) == (0xff_ffff * side) * (
        0x100_0000 * (denominator * scale)));
        assert((0xff_ffff * side) * (0x100_0000 * (denominator * scale)) >= (0xff_ffff * side) * (
        0xff_ffff * (numerator * full)));
        assert((0xff_ffff * side) * (0xff_ffff * (numerator * full)) == (0xffff_fe00_0001 * exact)
            * full);
    };
    assert((new_side - 1) * denominator <= (up - 1) * denominator) by (nonlinear_arith)
        requires
            new_side <= up,
            denominator > 0,
    ;
    assert(exact > 0) by (nonlinear_arith)
        requires
            exact == side * numerator,
            side > 0,
            numerator > 0,
    ;
}

/// Covering the display is covering 480 by 480 pixels, whatever the picture; what cannot be scaled is
/// refused.
pub proof fn lemma_display_is_covered(
    image: &Image,
    width: u32,
    height: u32,
    size: Result<(u32, u32), MediaError>,
    part: Result<Image, MediaError>,
    whole_size: Result<(u32, u32), MediaError>,
    covered: Result<Image, MediaError>,
)
    requires
        image.wf(),
        0 < width <= 0x10_0000,
        0 < height <= 0x10_0000,
        call_ensures(cover_size, (image.width, image.height, width, height), size),
        call_ensures(cover_to, (image, width, height), part),
        call_ensures(cover_size, (image.width, image.height, 480u32, 480u32), whole_size),
        call_ensures(cover, (image,), covered),
    ensures
        size matches Err(error) ==> part == Err::<Image, MediaError>(error),
        size is Ok ==> (part matches Ok(part) && part.width == width && part.height == height),
        whole_size matches Err(error) ==> covered == Err::<Image, MediaError>(error),
        whole_size is Ok ==> (covered matches Ok(covered) && covered.width == 480 && covered.height
            == 480),
{
}

/// The first picture of a file is its first frame, if it is an animation, and the picture itself if not;
/// what cannot be opened, has no frames, or cannot be decoded or scaled is refused.
pub proof fn lemma_first_picture_is_loaded(
    file: MediaFile,
    result: Result<Image, MediaError>,
    width: u32,
    height: u32,
    size: Result<(u32, u32), MediaError>,
)
    requires
        call_ensures(load_first, (file,), result),
        call_ensures(cover_size, (width, height, 480u32, 480u32), size),
    ensures
        result matches Ok(image) ==> image.width == 480 && image.height == 480,
        ends_in_gif(file.extension@) ==> {
            &&& !gif_opens(file.data@) ==> (result matches Err(MediaError::Gif))
            &&& gif_opens(file.data@) && gif_item(file.data@, 0) is None
                ==> (result matches Err(MediaError::NoFrames))
            &&& gif_opens(file.data@) && (gif_item(file.data@, 0) matches Some(None))
                ==> (result matches Err(MediaError::GifFrame))
            &&& gif_opens(file.data@) && (gif_item(file.data@, 0) matches Some(Some(item)) && item.0
                == width && item.1 == height) ==> {
                &&& size is Ok ==> result is Ok
                &&& size matches Err(error) ==> result == Err::<Image, MediaError>(error)
            }
        },
        !ends_in_gif(file.extension@) ==> {
            &&& still_shape(file.data@, file.extension@) is None ==> (result matches Err(MediaError::Image))
            &&& still_shape(file.data@, file.extension@) == Some((width, height)) ==> {
                &&& size is Ok ==> result is Ok
                &&& size matches Err(error) ==> result == Err::<Image, MediaError>(error)
            }
        },
{
    lemma_ends_in_gif(file.extension@);
}

} // verus!
