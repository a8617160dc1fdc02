//! The dashboard: the values that its template is given, and how it is laid over the background.
//!
//! Numbers with a fraction are bit patterns of single-precision numbers.

use vstd::arithmetic::power2::{
    lemma2_to64, lemma2_to64_rest, lemma_pow2_adds, lemma_pow2_pos, lemma_pow2_strictly_increases,
    lemma_pow2_unfold, pow2,
};
use vstd::prelude::*;

use crate::config::Config;
use crate::float::{
    add_floats, divide_floats, divide_integers, from_bits, is_amount, is_less, is_pattern_of,
    lemma_amount, lemma_numbers_are_ordered, lemma_pattern, lemma_round_bound,
    lemma_rounded_is, lemma_rounded_is_close, lemma_rounded_is_monotone, lemma_rounded_keeps_bound,
    multiply_floats,
    number, one, pattern, quotient, single, to_bits, whole, Float, Precision,
};
use crate::image::{lemma_pixel_index, lemma_pixel_index_injective, raw_pixel, Image, Rgba};
use crate::io_metrics::IoSnapshot;
use crate::media::{
    blend, blended, is_display, is_laid_on, lemma_blended_is_laid, lemma_blended_lies_between, SIDE,
};
use crate::monitor::{gib, is_thousandth, lemma_thousandth, to_gib, GpuSample, Snapshot};
use crate::single::{exponent, is_finite, is_nan, is_negative, nan, significand};
use crate::text::{chars_of, decimal, digit_char, push_decimal};

verus! {

/// The column where the spectrum starts.
pub const AUDIO_LEFT: u32 = 10;

/// The row where the spectrum starts.
pub const AUDIO_TOP: u32 = 404;

/// The width of a bar.
pub const AUDIO_BAR_WIDTH: u32 = 14;

/// The height of a block.
pub const AUDIO_BLOCK_HEIGHT: u32 = 6;

/// The distance between the tops of two blocks.
pub const AUDIO_BLOCK_STEP: u32 = 8;

/// The number of blocks of a bar.
pub const AUDIO_BLOCK_COUNT: u32 = 8;

/// The number of bars.
pub const AUDIO_BARS: usize = 16;

/// The first column right of the spectrum.
pub const AUDIO_RIGHT: u32 = 302;

/// The first row below the spectrum.
pub const AUDIO_BOTTOM: u32 = 466;

/// The name under which the template is kept.
pub const TEMPLATE_NAME: &'static str = "dashboard.svg";

/// What a template holds that wants the spectrum.
pub const AUDIO_MARK: &'static str = "id=\"audio-spectrum\"";

/// The width of a full bar: 230.
pub const BAR_WIDTH: u32 = 0x4366_0000;

/// A hundred percent.
pub const HUNDRED: u32 = 0x42c8_0000;

/// The bit pattern of what is greater than every number.
pub const ENDLESS: u32 = 0x7f80_0000;

/// The opacity of a core that has nothing to do: 0.18.
pub const LEAST_OPACITY: u32 = 0x3e38_51ec;

/// The opacity of a core that is fully busy: one.
pub const FULL_OPACITY: u32 = 0x3f80_0000;

/// By how much more opaque a core is that is fully busy: 0.82.
pub const MORE_OPACITY: u32 = 0x3f51_eb85;

/// The number of lines of the user that a template is told.
pub const CUSTOM_LINES: usize = 2;

/// The four letters `ttcf`, with which a collection of fonts starts.
pub const FONT_COLLECTION: u32 = 0x7474_6366;

/// The colour of a block that is not reached.
pub open spec fn inactive_color() -> Rgba {
    Rgba { r: 231, g: 224, b: 238, a: 255 }
}

/// The colour of a block that is reached.
pub open spec fn active_color() -> Rgba {
    Rgba { r: 138, g: 88, b: 191, a: 255 }
}

/// A level, which lies between zero and one, in blocks, rounded up; levels outside are brought there,
/// and what is not a finite number counts as silence.  `bits` is the bit pattern of the level.
pub open spec fn level_blocks(bits: u32) -> int {
    if !is_finite(bits) || is_negative(bits) || bits == 0 {
        0
    } else if exponent(bits) >= 127 {
        8
    } else if exponent(bits) == 126 {
        (significand(bits) + 0x1f_ffff) / 0x20_0000
    } else if exponent(bits) == 125 {
        (significand(bits) + 0x3f_ffff) / 0x40_0000
    } else if exponent(bits) == 124 {
        (significand(bits) + 0x7f_ffff) / 0x80_0000
    } else {
        1
    }
}

/// A level in blocks.
pub fn active_blocks(bits: u32) -> (blocks: u32)
    ensures
        blocks == level_blocks(bits),
        blocks <= AUDIO_BLOCK_COUNT,
{
    let power: u32 = bits / 0x80_0000 % 0x100;
    let digits: u32 = 0x80_0000 + bits % 0x80_0000;
    if power == 255 || bits >= 0x8000_0000 || bits == 0 {
        0
    } else if power >= 127 {
        8
    } else if power == 126 {
        (digits + 0x1f_ffff) / 0x20_0000
    } else if power == 125 {
        (digits + 0x3f_ffff) / 0x40_0000
    } else if power == 124 {
        (digits + 0x7f_ffff) / 0x80_0000
    } else {
        1
    }
}

/// The first column of a bar: bars stand eighteen and a half columns apart.
pub open spec fn bar_left(bar: int) -> int {
    AUDIO_LEFT + (37 * bar + 1) / 2
}

/// The first row of a block.
pub open spec fn block_top(block: int) -> int {
    AUDIO_TOP + block * AUDIO_BLOCK_STEP
}

/// The pixel belongs to a block of a bar.
pub open spec fn in_block(bar: int, block: int, x: int, y: int) -> bool {
    &&& 0 <= bar < AUDIO_BARS
    &&& 0 <= block < AUDIO_BLOCK_COUNT
    &&& bar_left(bar) <= x < bar_left(bar) + AUDIO_BAR_WIDTH
    &&& block_top(block) <= y < block_top(block) + AUDIO_BLOCK_HEIGHT
}

/// The level of a bar; a bar without a level is silent.
pub open spec fn level_of(bands: Seq<u32>, bar: int) -> u32 {
    if bar < bands.len() {
        bands[bar]
    } else {
        0
    }
}

/// The colour of a block: the lowest blocks of a bar, as many as its level reaches, are active.
pub open spec fn block_color(bands: Seq<u32>, bar: int, block: int) -> Rgba {
    if block >= AUDIO_BLOCK_COUNT - level_blocks(level_of(bands, bar)) {
        active_color()
    } else {
        inactive_color()
    }
}

/// The block comes before block `blocks` of bar `bars`.
pub open spec fn comes_before(bar: int, block: int, bars: int, blocks: int) -> bool {
    bar < bars || (bar == bars && block < blocks)
}

/// `after` is `before` with the spectrum drawn on it, up to block `blocks` of bar `bars`.
pub open spec fn spectrum_drawn(
    before: Image,
    after: Image,
    bands: Seq<u32>,
    bars: int,
    blocks: int,
) -> bool {
    &&& after.wf()
    &&& after.width == before.width
    &&& after.height == before.height
    &&& forall|bar: int, block: int, x: int, y: int| #![trigger in_block(bar, block, x, y)]
        comes_before(bar, block, bars, blocks) && in_block(bar, block, x, y) ==> after.at(x, y)
            == block_color(bands, bar, block)
    &&& forall|x: int, y: int|
        after.covers(x, y) && is_free(bars, blocks, x, y) ==> #[trigger] after.at(x, y)
            == before.at(x, y)
}

/// No block up to block `blocks` of bar `bars` covers the pixel.
pub open spec fn is_free(bars: int, blocks: int, x: int, y: int) -> bool {
    forall|bar: int, block: int|
        comes_before(bar, block, bars, blocks) ==> !#[trigger] in_block(bar, block, x, y)
}

/// A picture on which the spectrum has room.
pub open spec fn has_room(image: Image) -> bool {
    image.wf() && image.width >= AUDIO_RIGHT && image.height >= AUDIO_BOTTOM
}

/// No two blocks share a pixel, and every block lies where a picture with room for the spectrum has
/// pixels.
pub proof fn lemma_blocks_are_apart(
    bar: int,
    block: int,
    other_bar: int,
    other_block: int,
    x: int,
    y: int,
)
    requires
        in_block(bar, block, x, y),
    ensures
        in_block(other_bar, other_block, x, y) ==> bar == other_bar && block == other_block,
        0 <= x < AUDIO_RIGHT,
        0 <= y < AUDIO_BOTTOM,
{
}

/// The pixel lies in a rectangle.
pub open spec fn in_rect(left: int, top: int, width: int, height: int, x: int, y: int) -> bool {
    left <= x < left + width && top <= y < top + height
}

/// Fills a rectangle with a colour.
pub fn fill_rect(image: &mut Image, left: u32, top: u32, width: u32, height: u32, color: Rgba)
    requires
        old(image).wf(),
        left + width <= old(image).width,
        top + height <= old(image).height,
    ensures
        final(image).wf(),
        final(image).width == old(image).width,
        final(image).height == old(image).height,
        forall|x: int, y: int|
            final(image).covers(x, y) ==> #[trigger] final(image).at(x, y) == if in_rect(
                left as int,
                top as int,
                width as int,
                height as int,
                x,
                y,
            ) {
                color
            } else {
                old(image).at(x, y)
            },
{
    let ghost before = *image;
    let mut row: u32 = 0;
    while row < height
        invariant
            image.wf(),
            image.width == before.width,
            image.height == before.height,
            left + width <= image.width,
            top + height <= image.height,
            row <= height,
            forall|x: int, y: int|
                image.covers(x, y) ==> #[trigger] image.at(x, y) == if in_rect(
                    left as int,
                    top as int,
                    width as int,
                    row as int,
                    x,
                    y,
                ) {
                    color
                } else {
                    before.at(x, y)
                },
        decreases height - row,
    {
        let mut column: u32 = 0;
        while column < width
            invariant
                image.wf(),
                image.width == before.width,
                image.height == before.height,
                left + width <= image.width,
                top + height <= image.height,
                row < height,
                column <= width,
                forall|x: int, y: int|
                    image.covers(x, y) ==> #[trigger] image.at(x, y) == if in_rect(
                        left as int,
                        top as int,
                        width as int,
                        row as int,
                        x,
                        y,
                    ) || in_rect(left as int, top + row, column as int, 1, x, y) {
                        color
                    } else {
                        before.at(x, y)
                    },
            decreases width - column,
        {
            let ghost previous = *image;
            image.put_pixel(left + column, top + row, color);
            proof {
                assert forall|x: int, y: int| image.covers(x, y) implies #[trigger] image.at(x, y)
                    == if in_rect(left as int, top as int, width as int, row as int, x, y)
                    || in_rect(left as int, top + row, column + 1, 1, x, y) {
                    color
                } else {
                    before.at(x, y)
                } by {
                    let size = image.width as int;
                    lemma_pixel_index(size, image.height as int, x, y);
                    lemma_pixel_index(size, image.height as int, left + column, top + row);
                    if x == left + column && y == top + row {
                    } else {
                        if crate::image::pixel_index(size, x, y) == crate::image::pixel_index(
                            size,
                            left + column,
                            top + row,
                        ) {
                            lemma_pixel_index_injective(size, x, y, left + column, top + row);
                        }
                        assert(image.at(x, y) == previous.at(x, y));
                    }
                }
            }
            column = column + 1;
        }
        row = row + 1;
    }
}

fn draw_block(image: &mut Image, bands: &[u32], bar: u32, block: u32, active: u32)
    requires
        has_room(*old(image)),
        bar < AUDIO_BARS,
        block < AUDIO_BLOCK_COUNT,
        active == level_blocks(level_of(bands@, bar as int)),
        active <= AUDIO_BLOCK_COUNT,
    ensures
        final(image).wf(),
        final(image).width == old(image).width,
        final(image).height == old(image).height,
        forall|x: int, y: int|
            final(image).covers(x, y) ==> #[trigger] final(image).at(x, y) == if in_block(
                bar as int,
                block as int,
                x,
                y,
            ) {
                block_color(bands@, bar as int, block as int)
            } else {
                old(image).at(x, y)
            },
{
    let left: u32 = AUDIO_LEFT + (37 * bar + 1) / 2;
    let top: u32 = AUDIO_TOP + block * AUDIO_BLOCK_STEP;
    let color = if block >= AUDIO_BLOCK_COUNT - active {
        Rgba { r: 138, g: 88, b: 191, a: 255 }
    } else {
        Rgba { r: 231, g: 224, b: 238, a: 255 }
    };
    fill_rect(image, left, top, AUDIO_BAR_WIDTH, AUDIO_BLOCK_HEIGHT, color);
}

/// Adding one block to a spectrum.
proof fn lemma_one_more_block(
    start: Image,
    before: Image,
    after: Image,
    bands: Seq<u32>,
    bar: int,
    block: int,
)
    requires
        has_room(start),
        spectrum_drawn(start, before, bands, bar, block),
        0 <= bar < AUDIO_BARS,
        0 <= block < AUDIO_BLOCK_COUNT,
        after.wf(),
        after.width == before.width,
        after.height == before.height,
        forall|x: int, y: int|
            after.covers(x, y) ==> #[trigger] after.at(x, y) == if in_block(bar, block, x, y) {
                block_color(bands, bar, block)
            } else {
                before.at(x, y)
            },
    ensures
        spectrum_drawn(start, after, bands, bar, block + 1),
{
    assert forall|b: int, k: int, x: int, y: int| #![trigger in_block(b, k, x, y)]
        comes_before(b, k, bar, block + 1) && in_block(b, k, x, y) implies after.at(x, y)
        == block_color(bands, b, k) by {
        lemma_blocks_are_apart(b, k, bar, block, x, y);
        assert(after.covers(x, y));
        if !in_block(bar, block, x, y) {
            assert(comes_before(b, k, bar, block));
        }
    }
    assert forall|x: int, y: int| after.covers(x, y) && is_free(bar, block + 1, x, y) implies
        #[trigger] after.at(x, y) == start.at(x, y) by {
        assert(comes_before(bar, block, bar, block + 1));
        assert(!in_block(bar, block, x, y));
        assert(is_free(bar, block, x, y)) by {
            assert forall|b: int, k: int| comes_before(b, k, bar, block) implies !#[trigger] in_block(
                b,
                k,
                x,
                y,
            ) by {
                assert(comes_before(b, k, bar, block + 1));
            }
        }
        assert(before.at(x, y) == start.at(x, y));
    }
}

/// A bar whose blocks are all drawn is drawn.
proof fn lemma_bar_is_drawn(start: Image, after: Image, bands: Seq<u32>, bar: int)
    requires
        spectrum_drawn(start, after, bands, bar, AUDIO_BLOCK_COUNT as int),
    ensures
        spectrum_drawn(start, after, bands, bar + 1, 0),
{
    assert forall|b: int, k: int, x: int, y: int| #![trigger in_block(b, k, x, y)]
        comes_before(b, k, bar + 1, 0) && in_block(b, k, x, y) implies after.at(x, y)
        == block_color(bands, b, k) by {
        assert(comes_before(b, k, bar, AUDIO_BLOCK_COUNT as int));
    }
    assert forall|x: int, y: int| after.covers(x, y) && is_free(bar + 1, 0, x, y) implies #[trigger]
        after.at(x, y) == start.at(x, y) by {
        assert(is_free(bar, AUDIO_BLOCK_COUNT as int, x, y)) by {
            assert forall|b: int, k: int|
                comes_before(b, k, bar, AUDIO_BLOCK_COUNT as int) implies !#[trigger] in_block(
                b,
                k,
                x,
                y,
            ) by {
                assert(comes_before(b, k, bar + 1, 0));
            }
        }
    }
}

/// Draws the spectrum.  `bands` are the bit patterns of the levels.
pub fn draw_audio_spectrum(image: &mut Image, bands: &[u32])
    requires
        has_room(*old(image)),
    ensures
        spectrum_drawn(*old(image), *final(image), bands@, AUDIO_BARS as int, 0),
{
    let ghost start = *image;
    let mut bar: u32 = 0;
    proof {
        assert(spectrum_drawn(start, *image, bands@, 0, 0));
    }
    while bar < 16
        invariant
            has_room(start),
            has_room(*image),
            bar <= 16,
            spectrum_drawn(start, *image, bands@, bar as int, 0),
        decreases 16 - bar,
    {
        let level: u32 = if (bar as usize) < bands.len() {
            bands[bar as usize]
        } else {
            0
        };
        let active: u32 = active_blocks(level);
        let mut block: u32 = 0;
        while block < AUDIO_BLOCK_COUNT
            invariant
                has_room(start),
                has_room(*image),
                bar < 16,
                block <= AUDIO_BLOCK_COUNT,
                active == level_blocks(level_of(bands@, bar as int)),
                active <= AUDIO_BLOCK_COUNT,
                spectrum_drawn(start, *image, bands@, bar as int, block as int),
            decreases AUDIO_BLOCK_COUNT - block,
        {
            let ghost before = *image;
            draw_block(image, bands, bar, block, active);
            proof {
                lemma_one_more_block(start, before, *image, bands@, bar as int, block as int);
            }
            block = block + 1;
        }
        proof {
            lemma_bar_is_drawn(start, *image, bands@, bar as int);
        }
        bar = bar + 1;
    }
}

/// The dashboard that is laid over the background.
#[derive(Debug)]
pub struct Renderer {
    /// The dashboard as it was drawn last.
    pub overlay: Image,
    /// The template wants the spectrum.
    pub audio_enabled: bool,
    /// The family of the font that all text is drawn in.
    pub family: String,
}

/// Why a dashboard cannot be drawn.
#[derive(Clone, Copy, Debug, PartialEq, Eq, Structural)]
pub enum RenderError {
    /// The template cannot be parsed.
    Template,
    /// The font has no face with a family.
    NoFamily,
    /// The template could not be filled in, or what came of it could not be drawn.
    Drawing,
    /// The drawing does not have as many pixels as the display.
    PixelCount,
}

/// The template engine can parse a template.
pub uninterp spec fn template_parses(template: Seq<char>) -> bool;

/// Parses a template with `minijinja::Environment::add_template_owned`, in an environment as
/// `Environment::new` makes it: this fails exactly if the text breaks the syntax, whatever the name is.
/// Nothing is said of a template whose operators or branches follow each other in such number that the
/// parser, which calls itself for each of them, uses up the stack.
#[verifier::external_body]
fn parse_template(name: &str, template: &str) -> (parsed: bool)
    ensures
        parsed == template_parses(template@),
{
    let mut environment = ::minijinja::Environment::new();
    environment.add_template_owned(name.to_owned(), template.to_owned()).is_ok()
}

/// The 32-bit number at `offset`, high byte first.
pub open spec fn be32(data: Seq<u8>, offset: int) -> int {
    0x100_0000 * data[offset] + 0x1_0000 * data[offset + 1] + 256 * data[offset + 2] + data[offset
        + 3]
}

/// A font, or a collection of fonts that does not announce more faces than an address space has room
/// for.
pub open spec fn is_bounded_font(font: Seq<u8>) -> bool {
    font.len() >= 12 && be32(font, 0) == FONT_COLLECTION ==> 8 * be32(font, 8) <= isize::MAX
}

/// Tells whether a font does not announce more faces than an address space has room for.
pub fn bounded_font(font: &[u8]) -> (bounded: bool)
    ensures
        bounded == is_bounded_font(font@),
{
    if font.len() < 12 {
        return true;
    }
    read_be32(font, 0) != FONT_COLLECTION || 8 * (read_be32(font, 8) as u64) <= isize::MAX as u64
}

fn read_be32(data: &[u8], offset: usize) -> (value: u32)
    requires
        offset + 4 <= data.len(),
    ensures
        value == be32(data@, offset as int),
{
    0x100_0000 * (data[offset] as u32) + 0x1_0000 * (data[offset + 1] as u32) + 256 * (data[offset
        + 2] as u32) + data[offset + 3] as u32
}

/// The first family of the first face that `fontdb::Database` finds in a font, if there is one.
pub uninterp spec fn first_family(font: Seq<u8>) -> Option<Seq<char>>;

/// Loads a font with `fontdb::Database::load_font_data`, and takes the first family of the first of
/// its `faces`.  Room for eight bytes of each face that a collection announces is reserved before the
/// first is read, so a font that announces more than there can be room for is left out.
#[verifier::external_body]
fn find_family(font: Vec<u8>) -> (family: Option<String>)
    requires
        is_bounded_font(font@),
    ensures
        match family {
            Some(family) => first_family(font@) == Some(family@),
            None => first_family(font@) is None,
        },
{
    let mut database = ::resvg::usvg::fontdb::Database::new();
    database.load_font_data(font);
    let face = database.faces().next()?;
    let (name, _) = face.families.first()?;
    Some(name.clone())
}

/// The channels of what was drawn.
pub open spec fn drawn(drawing: Option<&[u8]>) -> Option<Seq<u8>> {
    match drawing {
        None => None,
        Some(raw) => Some(raw@),
    }
}

/// What keeps a drawing from being taken over.
pub open spec fn drawing_error(drawing: Option<Seq<u8>>) -> Option<RenderError> {
    match drawing {
        None => Some(RenderError::Drawing),
        Some(raw) => if raw.len() == 4 * (SIDE * SIDE) {
            None
        } else {
            Some(RenderError::PixelCount)
        },
    }
}

/// `part` occurs in `text`.
pub open spec fn contains_text(text: Seq<char>, part: Seq<char>) -> bool {
    exists|start: int| occurs_at(text, part, start)
}

/// `part` stands at `start` of `text`.
pub open spec fn occurs_at(text: Seq<char>, part: Seq<char>, start: int) -> bool {
    0 <= start && start + part.len() <= text.len() && text.subrange(start, start + part.len())
        == part
}

fn has_text(text: &str, part: &str) -> (found: bool)
    ensures
        found == contains_text(text@, part@),
{
    let whole = chars_of(text);
    let piece = chars_of(part);
    if piece.len() > whole.len() {
        return false;
    }
    let last: usize = whole.len() - piece.len();
    let mut start: usize = 0;
    loop
        invariant
            whole@ == text@,
            piece@ == part@,
            piece@.len() <= whole@.len(),
            last == whole@.len() - piece@.len(),
            start <= last,
            forall|earlier: int| 0 <= earlier < start ==> !occurs_at(text@, part@, earlier),
        decreases last - start,
    {
        let mut length: usize = 0;
        while length < piece.len() && whole[start + length] == piece[length]
            invariant
                length <= piece@.len(),
                start <= last,
                last == whole.len() - piece.len(),
                piece.len() <= whole.len(),
                forall|i: int| 0 <= i < length ==> whole@[start + i] == piece@[i],
            decreases piece@.len() - length,
        {
            length = length + 1;
        }
        if length == piece.len() {
            proof {
                assert(text@.subrange(start as int, start + part@.len()) =~= part@);
                assert(occurs_at(text@, part@, start as int));
            }
            return true;
        }
        proof {
            if occurs_at(text@, part@, start as int) {
                assert(text@.subrange(start as int, start + part@.len())[length as int]
                    == part@[length as int]);
            }
        }
        if start == last {
            return false;
        }
        start = start + 1;
    }
}

impl Renderer {
    /// Nothing has been drawn for this template yet.
    pub open spec fn is_new(self, template: Seq<char>, family: Seq<char>) -> bool {
        &&& is_display(self.overlay)
        &&& self.audio_enabled == contains_text(template, AUDIO_MARK@)
        &&& self.family@ == family
        &&& forall|i: int|
            0 <= i < self.overlay.pixels@.len() ==> #[trigger] self.overlay.pixels@[i] == (Rgba {
                r: 0,
                g: 0,
                b: 0,
                a: 0,
            })
    }

    /// A renderer for a template and a font.
    pub fn new(template: &str, font: Vec<u8>) -> (renderer: Result<Renderer, RenderError>)
        requires
            is_bounded_font(font@),
        ensures
            !template_parses(template@) ==> renderer matches Err(RenderError::Template),
            template_parses(template@) ==> match first_family(font@) {
                None => renderer matches Err(RenderError::NoFamily),
                Some(family) => renderer matches Ok(renderer) && renderer.is_new(template@, family),
            },
    {
        let parsed = parse_template(TEMPLATE_NAME, template);
        Renderer::with_family(template, parsed, find_family(font))
    }

    /// A renderer for a template, if it could be parsed, and the family of a font: it wants the
    /// spectrum if the template holds its mark, and shows nothing before it is drawn for the first
    /// time.
    pub fn with_family(template: &str, parsed: bool, family: Option<String>) -> (renderer: Result<
        Renderer,
        RenderError,
    >)
        ensures
            !parsed ==> renderer matches Err(RenderError::Template),
            parsed ==> match family {
                None => renderer matches Err(RenderError::NoFamily),
                Some(family) => renderer matches Ok(renderer) && renderer.is_new(
                    template@,
                    family@,
                ),
            },
    {
        if !parsed {
            return Err(RenderError::Template);
        }
        match family {
            None => Err(RenderError::NoFamily),
            Some(family) => {
                let overlay = Image::from_pixel(SIDE, SIDE, Rgba { r: 0, g: 0, b: 0, a: 0 });
                Ok(Renderer { overlay, audio_enabled: has_text(template, AUDIO_MARK), family })
            },
        }
    }

    /// Tells whether the template wants the spectrum.
    pub fn audio_enabled(&self) -> (enabled: bool)
        ensures
            enabled == self.audio_enabled,
    {
        self.audio_enabled
    }

    /// `after` is this renderer with what was drawn, or as it was if there is an error.
    pub open spec fn updates(self, drawing: Option<Seq<u8>>, after: Renderer) -> bool {
        if drawing_error(drawing) is Some {
            after == self
        } else {
            &&& after.audio_enabled == self.audio_enabled
            &&& after.family == self.family
            &&& is_display(after.overlay)
            &&& forall|i: int|
                0 <= i < after.overlay.pixels@.len() ==> #[trigger] after.overlay.pixels@[i]
                    == raw_pixel(drawing->Some_0, i)
        }
    }

    /// Takes over a dashboard: the channels of all pixels of the display, or nothing if it could not
    /// be drawn.
    pub fn update(&mut self, drawing: Option<&[u8]>) -> (updated: Result<(), RenderError>)
        ensures
            match drawing_error(drawn(drawing)) {
                Some(error) => updated == Err::<(), RenderError>(error),
                None => updated is Ok,
            },
            old(self).updates(drawn(drawing), *final(self)),
    {
        let raw = match drawing {
            None => return Err(RenderError::Drawing),
            Some(raw) => raw,
        };
        match Image::from_raw(SIDE, SIDE, raw) {
            None => Err(RenderError::PixelCount),
            Some(overlay) => {
                self.overlay = overlay;
                Ok(())
            },
        }
    }

    /// `composed` is `image` with the dashboard laid over it, and with the spectrum drawn on it if
    /// the template wants it.
    pub open spec fn composes(self, image: Image, bands: Seq<u32>, composed: Image) -> bool {
        if self.audio_enabled {
            exists|laid: Image| #[trigger]
                is_laid_over(image, self.overlay, laid) && spectrum_drawn(
                    laid,
                    composed,
                    bands,
                    AUDIO_BARS as int,
                    0,
                )
        } else {
            is_laid_over(image, self.overlay, composed)
        }
    }

    /// Lays the dashboard over a background, and draws the spectrum if the template wants it.
    pub fn compose(&self, image: Image, audio_bands: &[u32]) -> (composed: Image)
        requires
            image.wf(),
            self.audio_enabled ==> has_room(image),
        ensures
            composed.wf(),
            composed.width == image.width,
            composed.height == image.height,
            self.composes(image, audio_bands@, composed),
    {
        let mut laid = lay_over(&image, &self.overlay);
        let ghost before = laid;
        proof {
            assert(is_laid_over(image, self.overlay, before));
        }
        if self.audio_enabled {
            draw_audio_spectrum(&mut laid, audio_bands);
        }
        laid
    }
}

/// `laid` is `image` with `overlay` blended over it, pixel by pixel in the order in which they are
/// stored.  Pixels for which the dashboard has none stay as they are.
pub open spec fn is_laid_over(image: Image, overlay: Image, laid: Image) -> bool {
    &&& laid.wf()
    &&& laid.width == image.width
    &&& laid.height == image.height
    &&& forall|i: int|
        0 <= i < laid.pixels@.len() ==> #[trigger] laid.pixels@[i] == laid_pixel(
            image.pixels@,
            overlay.pixels@,
            i,
        )
}

/// A pixel with the dashboard's pixel blended over it, if there is one.
pub open spec fn laid_pixel(pixels: Seq<Rgba>, overlay: Seq<Rgba>, index: int) -> Rgba {
    if index < overlay.len() {
        blended(pixels[index], overlay[index])
    } else {
        pixels[index]
    }
}

fn lay_over(image: &Image, overlay: &Image) -> (laid: Image)
    requires
        image.wf(),
    ensures
        is_laid_over(*image, *overlay, laid),
{
    let mut pixels: Vec<Rgba> = Vec::new();
    let mut i: usize = 0;
    while i < image.pixels.len()
        invariant
            i <= image.pixels@.len(),
            pixels@.len() == i,
            forall|j: int|
                0 <= j < i ==> #[trigger] pixels@[j] == laid_pixel(
                    image.pixels@,
                    overlay.pixels@,
                    j,
                ),
        decreases image.pixels@.len() - i,
    {
        if i < overlay.pixels.len() {
            pixels.push(blend(image.pixels[i], overlay.pixels[i]));
        } else {
            pixels.push(image.pixels[i]);
        }
        i = i + 1;
    }
    Image { width: image.width, height: image.height, pixels }
}

/// Without the mark of the spectrum in the template, the levels of the bands do not show, on no
/// picture.
pub proof fn lemma_no_mark_no_spectrum(
    renderer: Renderer,
    template: Seq<char>,
    image: Image,
    bands: Seq<u32>,
    composed: Image,
    other_bands: Seq<u32>,
    other: Image,
)
    requires
        renderer.audio_enabled == contains_text(template, AUDIO_MARK@),
        !contains_text(template, AUDIO_MARK@),
        image.wf(),
        renderer.composes(image, bands, composed),
        renderer.composes(image, other_bands, other),
    ensures
        composed.width == other.width,
        composed.height == other.height,
        composed.pixels@ == other.pixels@,
{
    assert(composed.pixels@ =~= other.pixels@) by {
        assert forall|i: int| 0 <= i < composed.pixels@.len() implies composed.pixels@[i]
            == other.pixels@[i] by {
            assert(other.pixels@[i] == laid_pixel(image.pixels@, renderer.overlay.pixels@, i));
        }
    }
}

/// After a dashboard could not be drawn, every picture is composed as before.
pub proof fn lemma_failed_drawing_changes_nothing(
    before: Renderer,
    drawing: Option<Seq<u8>>,
    after: Renderer,
    image: Image,
    bands: Seq<u32>,
    composed: Image,
)
    requires
        before.updates(drawing, after),
        drawing_error(drawing) is Some,
    ensures
        after.composes(image, bands, composed) == before.composes(image, bands, composed),
        after.audio_enabled == before.audio_enabled,
{
}

/// Where the dashboard is transparent, the background shows, and where it is opaque, the dashboard.
pub proof fn lemma_transparent_dashboard_shows_background(
    image: Image,
    overlay: Image,
    laid: Image,
    index: int,
)
    requires
        is_laid_over(image, overlay, laid),
        0 <= index < laid.pixels@.len(),
        index < overlay.pixels@.len(),
    ensures
        overlay.pixels@[index].a == 0 ==> laid.pixels@[index] == image.pixels@[index],
        overlay.pixels@[index].a == 255 ==> laid.pixels@[index].r == overlay.pixels@[index].r
            && laid.pixels@[index].g == overlay.pixels@[index].g && laid.pixels@[index].b
            == overlay.pixels@[index].b,
{
    let below = image.pixels@[index];
    let above = overlay.pixels@[index];
    lemma_blended_lies_between(below.r, above.r, above.a);
    lemma_blended_lies_between(below.g, above.g, above.a);
    lemma_blended_lies_between(below.b, above.b, above.a);
}

/// How strongly a core is drawn.
#[derive(Clone, Copy, Debug, PartialEq, Eq, Structural)]
pub struct CoreView {
    pub opacity: u32,
}

/// What a template is told of the processor.
#[derive(Debug)]
pub struct CpuView {
    pub load_percent: Option<u32>,
    pub temperature_c: Option<u32>,
    pub performance_frequency_ghz: Option<u32>,
    pub efficiency_frequency_ghz: Option<u32>,
    pub performance_cores: Vec<CoreView>,
    pub efficiency_cores: Vec<CoreView>,
}

/// What a template is told of the memory.
#[derive(Clone, Copy, Debug, PartialEq, Eq, Structural)]
pub struct MemoryView {
    pub used_gib: u32,
    pub total_gib: u32,
    pub bar_width: u32,
    pub used_percent: u32,
}

/// What a template is told of the memory of the graphics card.
#[derive(Clone, Copy, Debug, PartialEq, Eq, Structural)]
pub struct GpuMemoryView {
    pub used_gib: u32,
    pub total_gib: u32,
    pub bar_width: u32,
}

/// What a template is told of the graphics card.
#[derive(Clone, Copy, Debug)]
pub struct GpuView {
    pub load_percent: Option<u32>,
    pub temperature_c: Option<u32>,
    pub power_w: Option<u32>,
    pub power_limit_w: Option<u32>,
    pub memory: Option<GpuMemoryView>,
    pub graphics_clock_mhz: Option<u32>,
    pub memory_clock_mhz: Option<u32>,
    pub performance_state: Option<u32>,
    pub fan_percent: Option<u32>,
}

/// What a template is told.
#[derive(Debug)]
pub struct DashboardContext {
    pub title: String,
    pub time: String,
    pub show_clock: bool,
    pub show_sensors: bool,
    pub cpu: CpuView,
    pub memory: MemoryView,
    pub gpu: GpuView,
    pub io: IoSnapshot,
    pub custom_lines: Vec<String>,
}

/// A frequency in gigahertz.
pub fn mhz_to_ghz(mhz: u32) -> (ghz: u32)
    ensures
        ghz == pattern(quotient(mhz as nat, 1_000)),
        is_pattern_of(ghz, quotient(mhz as nat, 1_000)),
{
    divide_integers(mhz as u64, 1_000)
}

/// A load held between nothing and a hundred percent.
pub open spec fn held_load(load: u32) -> nat {
    if is_negative(load) {
        0
    } else if load > HUNDRED {
        number(HUNDRED)
    } else {
        number(load)
    }
}

/// The opacity of a core with this load.
pub open spec fn opacity_of(load: nat) -> nat {
    single(
        number(LEAST_OPACITY) + single(
            single(number(MORE_OPACITY) * load, one()) * one(),
            number(HUNDRED),
        ),
        1,
    )
}

/// A core with this load is drawn with this opacity, which lies between that of a core with nothing to
/// do and that of a busy one.  The opacity of what is not a number is no number either.
pub open spec fn is_core_opacity(load: u32, opacity: u32) -> bool {
    if is_nan(load) {
        is_nan(opacity)
    } else {
        is_pattern_of(opacity, opacity_of(held_load(load))) && LEAST_OPACITY <= opacity
            <= FULL_OPACITY
    }
}

/// An opacity lies in its range.
proof fn lemma_opacity_range(load: nat, opacity: u32)
    requires
        load <= whole(100),
        is_pattern_of(opacity, opacity_of(load)),
    ensures
        LEAST_OPACITY <= opacity <= FULL_OPACITY,
{
    lemma_opacity_follows_load(0, load);
    lemma_opacity_follows_load(load, whole(100));
    lemma2_to64();
    lemma_pow2_adds(23, 3977);
    assert(exponent(FULL_OPACITY) == 127 && significand(FULL_OPACITY) == 0x80_0000);
    assert(number(FULL_OPACITY) == 0x80_0000 * pow2(3977));
    if opacity < LEAST_OPACITY {
        lemma_numbers_are_ordered(opacity, LEAST_OPACITY);
    }
    if opacity > FULL_OPACITY {
        lemma_numbers_are_ordered(FULL_OPACITY, opacity);
    }
}

proof fn lemma_opacity_constants()
    ensures
        number(LEAST_OPACITY) == 12_079_596 * pow2(3974),
        number(MORE_OPACITY) == 13_757_317 * pow2(3976),
        number(HUNDRED) == whole(100),
        number(MORE_OPACITY) <= one(),
        number(LEAST_OPACITY) <= one(),
        whole(100) <= pow2(4007),
        one() > 0,
{
    lemma2_to64();
    lemma_pow2_pos(4000);
    lemma_pow2_adds(24, 3976);
    lemma_pow2_adds(26, 3974);
    lemma_pow2_adds(17, 3983);
    lemma_pow2_adds(7, 4000);
    assert(exponent(HUNDRED) == 133 && significand(HUNDRED) == 0xc8_0000);
    assert(number(HUNDRED) == 0xc8_0000 * pow2(3983));
}

proof fn lemma_held_load(load: u32)
    requires
        !is_nan(load),
    ensures
        held_load(load) <= whole(100),
{
    lemma_opacity_constants();
    if !is_negative(load) && load < HUNDRED {
        lemma_numbers_are_ordered(load, HUNDRED);
    }
}

/// What the steps on the way to an opacity are bounded by.
proof fn lemma_opacity_bounds(load: nat)
    requires
        load <= whole(100),
    ensures
        ({
            let part = number(MORE_OPACITY) * load;
            let grown = single(part, one());
            let share = single(grown * one(), number(HUNDRED));
            &&& grown <= pow2(4007)
            &&& 3851 <= Precision::Single.power(part, one()) <= 3984
            &&& share <= pow2(4007)
            &&& 3851 <= Precision::Single.power(grown * one(), number(HUNDRED)) <= 3984
            &&& 3851 <= Precision::Single.power(number(LEAST_OPACITY) + share, 1) <= 3985
        }),
{
    lemma_opacity_constants();
    let part = number(MORE_OPACITY) * load;
    let top = pow2(4007);
    assert(part <= one() * top) by (nonlinear_arith)
        requires
            part == number(MORE_OPACITY) * load,
            number(MORE_OPACITY) <= one(),
            load <= top,
    ;
    lemma_round_bound(part, one(), 4007, Precision::Single);
    let grown = single(part, one());
    let hundred = number(HUNDRED);
    assert(hundred >= one() && grown * one() <= hundred * top) by (nonlinear_arith)
        requires
            hundred == 100 * one(),
            grown <= top,
            one() > 0,
    ;
    lemma_round_bound(grown * one(), hundred, 4007, Precision::Single);
    lemma_pow2_unfold(4008);
    lemma_pow2_strictly_increases(4000, 4007);
    assert(1 * pow2(4008) == pow2(4008));
    lemma_round_bound(
        number(LEAST_OPACITY) + single(grown * one(), hundred),
        1,
        4008,
        Precision::Single,
    );
}

fn find_opacity(load: u32) -> (opacity: u32)
    ensures
        is_core_opacity(load, opacity),
{
    if nan(load) {
        return load;
    }
    let held: u32 = if load >= 0x8000_0000 {
        0
    } else if load > HUNDRED {
        HUNDRED
    } else {
        load
    };
    proof {
        assert(0 * pow2(3851) == 0);
        lemma_held_load(load);
        lemma_opacity_bounds(held_load(load));
        lemma_opacity_constants();
        lemma2_to64();
        lemma2_to64_rest();
    }
    let hundred = from_bits(HUNDRED);
    let part = multiply_floats(from_bits(MORE_OPACITY), from_bits(held), Precision::Single);
    let share = divide_floats(part, hundred, Precision::Single);
    let opacity: u32 = to_bits(add_floats(from_bits(LEAST_OPACITY), share, Precision::Single));
    proof {
        lemma_opacity_range(held_load(load), opacity);
    }
    opacity
}

/// The lesser of two numbers.
pub open spec fn lesser(a: int, b: int) -> int {
    if a < b {
        a
    } else {
        b
    }
}

/// The cores are drawn as their loads ask for.
pub open spec fn shows_cores(views: Seq<CoreView>, loads: Seq<u32>, limit: int) -> bool {
    &&& views.len() == lesser(loads.len() as int, limit)
    &&& forall|i: int|
        0 <= i < views.len() ==> is_core_opacity(loads[i], (#[trigger] views[i]).opacity)
}

/// The first cores, at most `limit`, as they are drawn.
pub fn core_views(loads: &[u32], limit: usize) -> (views: Vec<CoreView>)
    ensures
        shows_cores(views@, loads@, limit as int),
{
    let mut views: Vec<CoreView> = Vec::new();
    while views.len() < loads.len() && views.len() < limit
        invariant
            views@.len() <= loads@.len(),
            views@.len() <= limit,
            forall|i: int|
                0 <= i < views@.len() ==> is_core_opacity(
                    loads@[i],
                    (#[trigger] views@[i]).opacity,
                ),
        decreases loads@.len() - views@.len(),
    {
        let opacity: u32 = find_opacity(loads[views.len()]);
        views.push(CoreView { opacity });
    }
    views
}

/// The part of `maximum` that `used` is of `total`, if neither is negative or endless.
pub open spec fn part_of(used: u32, total: u32, maximum: u32) -> nat {
    single(single(number(used) * one(), number(total)) * number(maximum), one())
}

/// The width of a bar that is `maximum` wide when all is used, if neither size is negative or
/// endless.
pub open spec fn bar_width_of(used: u32, total: u32, maximum: u32) -> u32 {
    if total == 0 {
        0
    } else if part_of(used, total, maximum) >= number(maximum) {
        maximum
    } else {
        pattern(part_of(used, total, maximum))
    }
}

/// The bit pattern of a number without its sign.
pub open spec fn magnitude(bits: u32) -> u32 {
    if is_negative(bits) {
        (bits - 0x8000_0000) as u32
    } else {
        bits
    }
}

/// These sizes have a part that is a number.
pub open spec fn have_part(used: u32, total: u32) -> bool {
    !is_nan(used) && !is_nan(total) && !(magnitude(used) == ENDLESS && total == ENDLESS)
}

/// A width from nothing, with either sign, up to `maximum`.
pub open spec fn is_within(width: u32, maximum: u32) -> bool {
    width <= maximum || width == 0x8000_0000
}

/// `width` is how wide a bar is that is `maximum` wide when all is used.  A bar without a total is
/// empty, and so is one whose use is negative; a part that is nothing keeps the sign of the use.
pub open spec fn is_bar_width(used: u32, total: u32, maximum: u32, width: u32) -> bool {
    if is_nan(total) {
        is_nan(width)
    } else if is_negative(total) || total == 0 {
        width == 0
    } else if is_nan(used) || (magnitude(used) == ENDLESS && total == ENDLESS) {
        is_nan(width)
    } else if magnitude(used) == ENDLESS {
        width == if is_negative(used) {
            0
        } else {
            maximum
        }
    } else if is_negative(used) {
        width == if total == ENDLESS || part_of(magnitude(used), total, maximum) == 0 {
            0x8000_0000u32
        } else {
            0
        }
    } else if total == ENDLESS {
        width == 0
    } else if part_of(used, total, maximum) >= number(maximum) {
        width == maximum
    } else {
        is_pattern_of(width, part_of(used, total, maximum))
    }
}

proof fn lemma_number_bounds(bits: u32)
    requires
        bits < 0x7f80_0000,
    ensures
        number(bits) <= pow2(4128),
        bits > 0 ==> number(bits) >= pow2(3851),
        number(0) == 0,
{
    assert(exponent(0) == 0 && exponent(1) == 0);
    assert(number(0) == 0 * pow2(3851));
    assert(0 * pow2(3851) == 0);
    if bits > 0 {
        if bits > 1 {
            lemma_numbers_are_ordered(1, bits);
        }
        assert(number(1) == 1 * pow2(3851));
        assert(1 * pow2(3851) == pow2(3851));
    }
    if bits < 0x7f7f_ffff {
        lemma_numbers_are_ordered(bits, 0x7f7f_ffff);
    }
    lemma2_to64();
    lemma_pow2_adds(24, 4104);
    lemma_pow2_pos(4104);
    assert(exponent(0x7f7f_ffff) == 254 && significand(0x7f7f_ffff) == 0xff_ffff);
    assert(number(0x7f7f_ffff) == 0xff_ffff * pow2(4104));
    assert(0xff_ffff * pow2(4104) <= pow2(4128)) by (nonlinear_arith)
        requires
            pow2(4128) == pow2(24) * pow2(4104),
            pow2(24) == 0x100_0000,
    ;
}

fn find_part(used: u32, total: u32, maximum: u32) -> (part: Float)
    requires
        used < ENDLESS,
        0 < total < ENDLESS,
        is_amount(maximum),
    ensures
        part.wf(),
        part.value() == part_of(used, total, maximum),
        part.digits <= 0x100_0000,
        part.digits >= 0x80_0000 || part.power == 3851,
        part.power >= 3851,
{
    proof {
        lemma_number_bounds(used);
        lemma_number_bounds(total);
        lemma_amount(maximum);
        lemma2_to64();
        lemma2_to64_rest();
        lemma_pow2_pos(4000);
        lemma_pow2_pos(3851);
        lemma_pow2_adds(4128, 4000);
        lemma_pow2_adds(4277, 3851);
        let n = number(used) * one();
        let d = number(total);
        let top = pow2(4277);
        assert(n <= d * top) by (nonlinear_arith)
            requires
                n == number(used) * one(),
                number(used) <= pow2(4128),
                pow2(4128) * one() == top * pow2(3851),
                d >= pow2(3851),
                one() > 0,
                top >= 0,
        ;
        lemma_round_bound(n, d, 4277, Precision::Single);
        let ratio = single(n, d);
        lemma_pow2_adds(4277, 4032);
        lemma_pow2_adds(4309, 4000);
        let most = pow2(4309);
        let product = ratio * number(maximum);
        assert(product <= one() * most) by (nonlinear_arith)
            requires
                product == ratio * number(maximum),
                ratio <= top,
                number(maximum) <= pow2(4032),
                top * pow2(4032) == most * one(),
        ;
        lemma_round_bound(product, one(), 4309, Precision::Single);
    }
    let ratio = divide_floats(from_bits(used), from_bits(total), Precision::Single);
    multiply_floats(ratio, from_bits(maximum), Precision::Single)
}

/// A part of nothing has no digits, and a part below an amount is not too large for its pattern.
proof fn lemma_part(part: Float, maximum: u32)
    requires
        is_amount(maximum),
    ensures
        part.digits == 0 <==> part.value() == 0,
        part.digits > 0 && part.value() < number(maximum) ==> part.power <= 4100,
{
    let scale = pow2(part.power as nat);
    lemma_pow2_pos(part.power as nat);
    lemma_amount(maximum);
    assert(part.digits == 0 ==> part.value() == 0) by (nonlinear_arith)
        requires
            part.value() == part.digits as nat * scale,
    ;
    assert(part.digits > 0 ==> part.value() >= scale) by (nonlinear_arith)
        requires
            part.value() == part.digits as nat * scale,
    ;
    if part.power > 4100 {
        lemma_pow2_strictly_increases(4032, part.power as nat);
    }
}

/// The width of a bar with neither size negative or endless.
fn find_width(used: u32, total: u32, maximum: u32) -> (width: u32)
    requires
        used < ENDLESS,
        0 < total < ENDLESS,
        is_amount(maximum),
    ensures
        width == bar_width_of(used, total, maximum),
        part_of(used, total, maximum) < number(maximum) ==> is_pattern_of(
            width,
            part_of(used, total, maximum),
        ),
        width <= maximum,
{
    let part = find_part(used, total, maximum);
    if !is_less(part, from_bits(maximum)) {
        return maximum;
    }
    proof {
        lemma_part(part, maximum);
    }
    let width: u32 = to_bits(part);
    proof {
        if maximum < width {
            lemma_numbers_are_ordered(maximum, width);
        }
    }
    width
}

/// The width of a bar that is `maximum` wide when all is used.
pub fn bar_width(used: u32, total: u32, maximum: u32) -> (width: u32)
    requires
        0 < maximum,
        is_amount(maximum),
    ensures
        is_bar_width(used, total, maximum, width),
        have_part(used, total) ==> is_within(width, maximum),
{
    if nan(total) {
        return total;
    }
    if total >= 0x8000_0000 || total == 0 {
        return 0;
    }
    if nan(used) {
        return used;
    }
    let negative = used >= 0x8000_0000;
    let size: u32 = used % 0x8000_0000;
    if size == ENDLESS {
        return if total == ENDLESS {
            0x7fc0_0000
        } else if negative {
            0
        } else {
            maximum
        };
    }
    if total == ENDLESS {
        return if negative {
            0x8000_0000
        } else {
            0
        };
    }
    if !negative {
        return find_width(size, total, maximum);
    }
    let part = find_part(size, total, maximum);
    proof {
        lemma_part(part, maximum);
    }
    if part.digits == 0 {
        0x8000_0000
    } else {
        0
    }
}

/// The memory of the graphics card, if it is known and there is any.
pub open spec fn gpu_memory_of(used: Option<u64>, total: Option<u64>) -> Option<GpuMemoryView> {
    match (used, total) {
        (Some(used), Some(total)) => if total == 0 {
            None
        } else {
            Some(
                GpuMemoryView {
                    used_gib: gib(used),
                    total_gib: gib(total),
                    bar_width: bar_width_of(gib(used), gib(total), BAR_WIDTH),
                },
            )
        },
        _ => None,
    }
}

/// The memory of the graphics card, if it is known and there is any.
pub fn gpu_memory(used: Option<u64>, total: Option<u64>) -> (memory: Option<GpuMemoryView>)
    ensures
        memory == gpu_memory_of(used, total),
        memory matches Some(memory) ==> memory.bar_width <= BAR_WIDTH,
{
    match (used, total) {
        (Some(used), Some(total)) => {
            let used_gib: u32 = to_gib(used);
            let total_gib: u32 = to_gib(total);
            if total_gib == 0 {
                return None;
            }
            let width: u32 = find_width(used_gib, total_gib, BAR_WIDTH);
            Some(GpuMemoryView { used_gib, total_gib, bar_width: width })
        },
        _ => None,
    }
}

/// A number with two digits at least.
pub open spec fn two_digits(value: u16) -> Seq<char> {
    if value < 10 {
        seq!['0'] + decimal(value as nat)
    } else {
        decimal(value as nat)
    }
}

/// A time of day.
pub open spec fn time_text(hour: u16, minute: u16, second: u16) -> Seq<char> {
    two_digits(hour) + seq![':'] + two_digits(minute) + seq![':'] + two_digits(second)
}

fn push_two_digits(text: &mut String, value: u16)
    ensures
        final(text)@ == old(text)@ + two_digits(value),
{
    let ghost before = text@;
    if value < 10 {
        text.push('0');
    }
    push_decimal(text, value as u64);
    proof {
        assert(text@ =~= before + two_digits(value));
    }
}

/// A time of day.
pub fn local_time(hour: u16, minute: u16, second: u16) -> (text: String)
    ensures
        text@ == time_text(hour, minute, second),
{
    let mut text = String::new();
    push_two_digits(&mut text, hour);
    text.push(':');
    push_two_digits(&mut text, minute);
    text.push(':');
    push_two_digits(&mut text, second);
    proof {
        assert(text@ =~= time_text(hour, minute, second));
    }
    text
}

fn first_lines(lines: &Vec<String>) -> (first: Vec<String>)
    ensures
        first@.len() == lesser(lines@.len() as int, CUSTOM_LINES as int),
        forall|i: int| 0 <= i < first@.len() ==> (#[trigger] first@[i])@ == lines@[i]@,
{
    let mut first: Vec<String> = Vec::new();
    while first.len() < lines.len() && first.len() < CUSTOM_LINES
        invariant
            first@.len() <= lines@.len(),
            first@.len() <= CUSTOM_LINES,
            forall|i: int| 0 <= i < first@.len() ==> (#[trigger] first@[i])@ == lines@[i]@,
        decreases lines@.len() - first@.len(),
    {
        first.push(lines[first.len()].as_str().to_owned());
    }
    first
}

/// What is known, as a template is told it.
pub fn dashboard_context(config: &Config, snapshot: &Snapshot, time: String) -> (context:
    DashboardContext)
    ensures
        context.title@ == config.title@,
        context.time == time,
        context.show_clock == config.show_clock,
        context.show_sensors == config.show_sensors,
        context.cpu.load_percent == snapshot.cpu_percent,
        context.cpu.temperature_c == snapshot.cpu_temperature,
        context.cpu.performance_frequency_ghz == ghz_of(snapshot.cpu_p_mhz),
        context.cpu.efficiency_frequency_ghz == ghz_of(snapshot.cpu_e_mhz),
        shows_cores(context.cpu.performance_cores@, snapshot.cpu_p_core_loads@, 8),
        shows_cores(context.cpu.efficiency_cores@, snapshot.cpu_e_core_loads@, 16),
        context.memory.used_gib == snapshot.memory_used_gib,
        context.memory.total_gib == snapshot.memory_total_gib,
        is_bar_width(
            snapshot.memory_used_gib,
            snapshot.memory_total_gib,
            BAR_WIDTH,
            context.memory.bar_width,
        ),
        is_bar_width(
            snapshot.memory_used_gib,
            snapshot.memory_total_gib,
            HUNDRED,
            context.memory.used_percent,
        ),
        have_part(snapshot.memory_used_gib, snapshot.memory_total_gib) ==> is_within(
            context.memory.bar_width,
            BAR_WIDTH,
        ) && is_within(context.memory.used_percent, HUNDRED),
        context.gpu == gpu_view_of(snapshot.gpu),
        context.gpu.memory matches Some(memory) ==> memory.bar_width <= BAR_WIDTH,
        context.io == snapshot.io,
        context.custom_lines@.len() == lesser(
            config.custom_lines@.len() as int,
            CUSTOM_LINES as int,
        ),
        forall|i: int|
            0 <= i < context.custom_lines@.len() ==> (#[trigger] context.custom_lines@[i])@
                == config.custom_lines@[i]@,
{
    DashboardContext {
        title: config.title.as_str().to_owned(),
        time,
        show_clock: config.show_clock,
        show_sensors: config.show_sensors,
        cpu: CpuView {
            load_percent: snapshot.cpu_percent,
            temperature_c: snapshot.cpu_temperature,
            performance_frequency_ghz: to_ghz(snapshot.cpu_p_mhz),
            efficiency_frequency_ghz: to_ghz(snapshot.cpu_e_mhz),
            performance_cores: core_views(snapshot.cpu_p_core_loads.as_slice(), 8),
            efficiency_cores: core_views(snapshot.cpu_e_core_loads.as_slice(), 16),
        },
        memory: MemoryView {
            used_gib: snapshot.memory_used_gib,
            total_gib: snapshot.memory_total_gib,
            bar_width: bar_width(snapshot.memory_used_gib, snapshot.memory_total_gib, BAR_WIDTH),
            used_percent: bar_width(snapshot.memory_used_gib, snapshot.memory_total_gib, HUNDRED),
        },
        gpu: GpuView {
            load_percent: snapshot.gpu.percent,
            temperature_c: snapshot.gpu.temperature,
            power_w: snapshot.gpu.power_w,
            power_limit_w: snapshot.gpu.power_limit_w,
            memory: gpu_memory(snapshot.gpu.memory_used_bytes, snapshot.gpu.memory_total_bytes),
            graphics_clock_mhz: snapshot.gpu.graphics_clock_mhz,
            memory_clock_mhz: snapshot.gpu.memory_clock_mhz,
            performance_state: snapshot.gpu.performance_state,
            fan_percent: snapshot.gpu.fan_percent,
        },
        io: snapshot.io,
        custom_lines: first_lines(&config.custom_lines),
    }
}

/// A frequency in gigahertz, if it is known.
pub open spec fn ghz_of(mhz: Option<u32>) -> Option<u32> {
    match mhz {
        None => None,
        Some(mhz) => Some(pattern(quotient(mhz as nat, 1_000))),
    }
}

fn to_ghz(mhz: Option<u32>) -> (ghz: Option<u32>)
    ensures
        ghz == ghz_of(mhz),
{
    match mhz {
        None => None,
        Some(mhz) => Some(mhz_to_ghz(mhz)),
    }
}

/// What a template is told of a graphics card.
pub open spec fn gpu_view_of(sample: GpuSample) -> GpuView {
    GpuView {
        load_percent: sample.percent,
        temperature_c: sample.temperature,
        power_w: sample.power_w,
        power_limit_w: sample.power_limit_w,
        memory: gpu_memory_of(sample.memory_used_bytes, sample.memory_total_bytes),
        graphics_clock_mhz: sample.graphics_clock_mhz,
        memory_clock_mhz: sample.memory_clock_mhz,
        performance_state: sample.performance_state,
        fan_percent: sample.fan_percent,
    }
}

/// A core is always visible, never more than fully, and a busier core is not drawn more weakly.
pub proof fn lemma_opacity_follows_load(load: nat, other: nat)
    requires
        load <= other <= whole(100),
    ensures
        opacity_of(0) == number(LEAST_OPACITY),
        opacity_of(load) <= opacity_of(other),
        opacity_of(whole(100)) == one(),
{
    lemma_opacity_constants();
    lemma_opacity_is_ordered(load, other);
    lemma_no_opacity();
    lemma_full_opacity();
}

proof fn lemma_opacity_is_ordered(load: nat, other: nat)
    requires
        load <= other <= whole(100),
    ensures
        opacity_of(load) <= opacity_of(other),
{
    lemma_opacity_constants();
    let more = number(MORE_OPACITY);
    let hundred = number(HUNDRED);
    assert(more * load <= more * other) by (nonlinear_arith)
        requires
            load <= other,
    ;
    lemma_rounded_is_monotone(more * load, more * other, one(), 24, 3851);
    let grown = single(more * load, one());
    let further = single(more * other, one());
    assert(grown * one() <= further * one()) by (nonlinear_arith)
        requires
            grown <= further,
    ;
    lemma_rounded_is_monotone(grown * one(), further * one(), hundred, 24, 3851);
    lemma_rounded_is_monotone(
        number(LEAST_OPACITY) + single(grown * one(), hundred),
        number(LEAST_OPACITY) + single(further * one(), hundred),
        1,
        24,
        3851,
    );
}

proof fn lemma_no_opacity()
    ensures
        opacity_of(0) == number(LEAST_OPACITY),
{
    lemma_opacity_constants();
    lemma2_to64();
    let hundred = number(HUNDRED);
    assert(number(MORE_OPACITY) * 0 == 0);
    assert(0 * pow2(4000) == 0);
    assert(one() * 0 == 0);
    lemma_rounded_keeps_bound(0, one(), 24, 3851, 0, 4000);
    assert(0 * one() == 0);
    assert(hundred * 0 == 0);
    lemma_rounded_keeps_bound(0, hundred, 24, 3851, 0, 4000);
    let least = number(LEAST_OPACITY);
    assert(1 * least == least);
    lemma_rounded_keeps_bound(least, 1, 24, 3851, 12_079_596, 3974);
}

proof fn lemma_full_opacity()
    ensures
        opacity_of(whole(100)) == one(),
{
    lemma_opacity_constants();
    lemma2_to64();
    let hundred = whole(100);
    let more = number(MORE_OPACITY);
    let unit = pow2(3976);
    let part = more * hundred;
    lemma_pow2_adds(24, 3976);
    lemma_pow2_adds(7, 3976);
    lemma_pow2_adds(17, 3983);
    let step = one() * pow2(3983);
    assert(part == 10_747_903 * step + 116 * (one() * unit)) by (nonlinear_arith)
        requires
            part == (13_757_317 * unit) * (100 * one()),
            step == one() * (128 * unit),
    ;
    assert(0 < one() * unit && step == 128 * (one() * unit)) by (nonlinear_arith)
        requires
            step == one() * (128 * unit),
            one() > 0,
            one() == 0x100_0000 * unit,
    ;
    lemma_rounded_is(part, one(), 24, 3851, 3983, 10_747_903, 116 * (one() * unit));
    let grown = single(part, one());
    assert(2 * (116 * (one() * unit)) >= one() * pow2(3983));
    assert(0x2_0000 * pow2(3983) == one());
    assert(grown == 10_747_904 * pow2(3983));
    assert(grown == 82 * one());
    let dividend = grown * one();
    let divisor = hundred * unit;
    assert(dividend == 13_757_317 * divisor + 12 * (one() * unit)) by (nonlinear_arith)
        requires
            dividend == (82 * one()) * one(),
            one() == 0x100_0000 * unit,
            divisor == (100 * one()) * unit,
    ;
    assert(divisor == 100 * (one() * unit)) by (nonlinear_arith)
        requires
            divisor == (100 * one()) * unit,
    ;
    lemma_rounded_is(dividend, hundred, 24, 3851, 3976, 13_757_317, 12 * (one() * unit));
    lemma_pow2_adds(2, 3974);
    lemma_pow2_adds(26, 3974);
    assert(1 * (1 * one()) == one());
    lemma_rounded_keeps_bound(one(), 1, 24, 3851, 1, 4000);
}

/// A bar is empty when nothing is used, and fills its frame when all is used.
pub proof fn lemma_bar_fills_its_frame(used: u32, total: u32, maximum: u32, width: u32)
    requires
        used < ENDLESS,
        total < ENDLESS,
        is_amount(maximum),
        maximum > 0,
        is_bar_width(used, total, maximum, width),
    ensures
        used == 0 ==> width == 0,
        0 < total <= used ==> width == maximum,
{
    lemma_number_bounds(used);
    lemma_number_bounds(total);
    lemma_number_bounds(maximum);
    lemma_pow2_pos(3851);
    lemma_pow2_pos(4000);
    lemma2_to64();
    let d = number(total);
    let most = number(maximum);
    let n = number(used) * one();
    if total > 0 {
        let ratio = single(n, d);
        if used == 0 {
            assert(0 * one() == 0);
            assert(d * (0 * one()) == 0) by (nonlinear_arith);
            lemma_rounded_keeps_bound(0, d, 24, 3851, 0, 4000);
            assert(0 * most == 0);
            assert(one() * (0 * one()) == 0) by (nonlinear_arith);
            lemma_rounded_keeps_bound(0, one(), 24, 3851, 0, 4000);
            if 0 < width < ENDLESS {
                lemma_numbers_are_ordered(0, width);
            }
        }
        if total <= used {
            if total < used {
                lemma_numbers_are_ordered(total, used);
            }
            assert(1 * one() == one());
            lemma_rounded_keeps_bound(d * one(), d, 24, 3851, 1, 4000);
            assert(d * one() <= n) by (nonlinear_arith)
                requires
                    n == number(used) * one(),
                    d <= number(used),
            ;
            lemma_rounded_is_monotone(d * one(), n, d, 24, 3851);
            assert(one() * most <= ratio * most) by (nonlinear_arith)
                requires
                    ratio >= one(),
            ;
            lemma_rounded_is_monotone(one() * most, ratio * most, one(), 24, 3851);
            lemma_number_is_kept(maximum);
        }
    }
}

/// A number of single precision is not changed by rounding.
proof fn lemma_number_is_kept(bits: u32)
    requires
        bits < 0x7f80_0000,
    ensures
        single(one() * number(bits), one()) == number(bits),
{
    lemma2_to64();
    lemma_pow2_pos(4000);
    if exponent(bits) == 0 {
        lemma_rounded_keeps_bound(
            one() * number(bits),
            one(),
            24,
            3851,
            bits as nat % 0x80_0000,
            3851,
        );
    } else {
        lemma_rounded_keeps_bound(
            one() * number(bits),
            one(),
            24,
            3851,
            significand(bits) as nat,
            (3850 + exponent(bits)) as nat,
        );
    }
}

/// A level lights as many of the eight blocks as it fills or begins; one of one or more lights all, and
/// one that is not above zero, or not a finite number, lights none.
#[verifier::rlimit(40)]
pub proof fn lemma_level_lights_blocks(bits: u32, blocks: u32)
    requires
        call_ensures(active_blocks, (bits,), blocks),
    ensures
        bits == 0 || bits >= 0x7f80_0000 ==> blocks == 0,
        0 < bits < 0x7f80_0000 && number(bits) >= one() ==> blocks == 8,
        0 < bits < 0x7f80_0000 && number(bits) < one() ==> {
            &&& blocks * one() >= 8 * number(bits)
            &&& (blocks - 1) * one() < 8 * number(bits)
        },
{
    lemma2_to64();
    lemma2_to64_rest();
    let e = exponent(bits);
    let digits = significand(bits) as nat;
    lemma_pow2_pos(4000);
    if 0 < bits < 0x7f80_0000 {
        lemma_number_bounds(bits);
        lemma_pow2_pos(3851);
        if e >= 127 {
            let scale = pow2((3850 + e) as nat);
            if e > 127 {
                lemma_pow2_strictly_increases(3977, (3850 + e) as nat);
            }
            lemma_pow2_adds(23, 3977);
            assert(one() == 0x80_0000 * pow2(3977)) by (nonlinear_arith)
                requires
                    one() == pow2(23) * pow2(3977),
                    pow2(23) == 0x80_0000,
            ;
            assert(number(bits) >= one()) by (nonlinear_arith)
                requires
                    number(bits) == digits * scale,
                    digits >= 0x80_0000,
                    scale >= pow2(3977),
                    one() == 0x80_0000 * pow2(3977),
            ;
        } else if e >= 124 {
            let scale = pow2((3850 + e) as nat);
            let part = pow2((150 - e) as nat);
            lemma_pow2_adds((150 - e) as nat, (3850 + e) as nat);
            assert(one() == part * scale);
            lemma_pow2_pos((3850 + e) as nat);
            if e == 126 {
                assert(part == 0x100_0000);
                assert(8 * digits <= blocks * 0x100_0000 && (blocks - 1) * 0x100_0000 < 8 * digits
                    && digits < 0x100_0000);
            } else if e == 125 {
                assert(part == 0x200_0000);
                assert(8 * digits <= blocks * 0x200_0000 && (blocks - 1) * 0x200_0000 < 8 * digits
                    && digits < 0x200_0000);
            } else {
                assert(part == 0x400_0000);
                assert(8 * digits <= blocks * 0x400_0000 && (blocks - 1) * 0x400_0000 < 8 * digits
                    && digits < 0x400_0000);
            }
            assert(number(bits) == digits * scale);
            assert(8 * digits <= blocks * part && (blocks - 1) * part < 8 * digits && digits < part);
            assert(blocks * one() >= 8 * number(bits)) by (nonlinear_arith)
                requires
                    one() == part * scale,
                    number(bits) == digits * scale,
                    8 * digits <= blocks * part,
                    scale > 0,
            ;
            assert((blocks - 1) * one() < 8 * number(bits)) by (nonlinear_arith)
                requires
                    one() == part * scale,
                    number(bits) == digits * scale,
                    (blocks - 1) * part < 8 * digits,
                    scale > 0,
            ;
            assert(number(bits) < one()) by (nonlinear_arith)
                requires
                    one() == part * scale,
                    number(bits) == digits * scale,
                    digits < part,
                    scale > 0,
            ;
        } else {
            let quarter: u32 = 0x3e00_0000;
            assert(exponent(quarter) == 124 && significand(quarter) == 0x80_0000);
            lemma_pow2_adds(26, 3974);
            assert(number(quarter) == 0x80_0000 * pow2(3974));
            assert(0x400_0000 * pow2(3974) == one()) by (nonlinear_arith)
                requires
                    one() == pow2(26) * pow2(3974),
                    pow2(26) == 0x400_0000,
            ;
            assert(8 * number(quarter) == one());
            assert(bits < quarter);
            lemma_numbers_are_ordered(bits, quarter);
            lemma_numbers_are_ordered(0, bits);
            assert(0 * one() == 0);
        }
    }
}

/// Column `x` lies in a bar of the spectrum: the bars begin eighteen and a half columns apart, and are
/// fourteen columns wide.
pub open spec fn in_bar(bar: int, x: int) -> bool {
    0 <= bar < 16 && 37 * bar <= 2 * (x - 10) && 2 * (x - 24) < 37 * bar
}

/// Row `y` lies in a block of a bar: the blocks begin eight rows apart, and are six rows high.
pub open spec fn in_row_of_block(block: int, y: int) -> bool {
    0 <= block < 8 && 404 + 8 * block <= y < 410 + 8 * block
}

/// A pixel in a block of the spectrum shows its light colour if the level of its band lights it, counted
/// from the bottom, and its pale colour if not.  A band without a level has none lit.
pub proof fn lemma_spectrum_shows_levels(
    image: &mut Image,
    bands: &[u32],
    drawn: (),
    bar: int,
    block: int,
    x: int,
    y: int,
    level: u32,
    blocks: u32,
)
    requires
        old(image).wf(),
        old(image).width >= 302,
        old(image).height >= 466,
        call_ensures(draw_audio_spectrum, (image, bands), drawn),
        in_bar(bar, x),
        in_row_of_block(block, y),
        bar < bands@.len() ==> level == bands@[bar],
        bar >= bands@.len() ==> level == 0,
        call_ensures(active_blocks, (level,), blocks),
    ensures
        final(image).pixels@[y * final(image).width + x] == if block + blocks >= 8 {
            Rgba { r: 138, g: 88, b: 191, a: 255 }
        } else {
            Rgba { r: 231, g: 224, b: 238, a: 255 }
        },
{
    assert(in_block(bar, block, x, y));
    assert(comes_before(bar, block, AUDIO_BARS as int, 0));
    assert(final(image).at(x, y) == block_color(bands@, bar, block));
}

/// Outside of its blocks the spectrum changes no pixel.
pub proof fn lemma_spectrum_stays_in_its_blocks(
    image: &mut Image,
    bands: &[u32],
    drawn: (),
    x: int,
    y: int,
)
    requires
        old(image).wf(),
        old(image).width >= 302,
        old(image).height >= 466,
        call_ensures(draw_audio_spectrum, (image, bands), drawn),
        0 <= x < old(image).width,
        0 <= y < old(image).height,
        (forall|bar: int| !in_bar(bar, x)) || (forall|block: int| !in_row_of_block(block, y)),
    ensures
        final(image).width == old(image).width,
        final(image).height == old(image).height,
        final(image).pixels@[y * final(image).width + x] == old(image).pixels@[y * old(image).width
            + x],
{
    assert forall|bar: int, block: int| comes_before(bar, block, AUDIO_BARS as int, 0) implies
        !#[trigger] in_block(bar, block, x, y) by {
        assert(!in_bar(bar, x) || !in_row_of_block(block, y));
    }
    assert(is_free(AUDIO_BARS as int, 0, x, y));
    assert(final(image).covers(x, y));
    assert(final(image).at(x, y) == old(image).at(x, y));
}

/// A rectangle is filled from its left column and its top row on, and no other pixel changes.
pub proof fn lemma_rectangle_is_filled(
    image: &mut Image,
    left: u32,
    top: u32,
    width: u32,
    height: u32,
    color: Rgba,
    filled: (),
    x: int,
    y: int,
)
    requires
        old(image).wf(),
        left + width <= old(image).width,
        top + height <= old(image).height,
        call_ensures(fill_rect, (image, left, top, width, height, color), filled),
        0 <= x < old(image).width,
        0 <= y < old(image).height,
    ensures
        final(image).width == old(image).width,
        final(image).height == old(image).height,
        left <= x && x - left < width && top <= y && y - top < height ==> final(image).pixels@[y
            * final(image).width + x] == color,
        x < left || x - left >= width || y < top || y - top >= height ==> final(image).pixels@[y
            * final(image).width + x] == old(image).pixels@[y * old(image).width + x],
{
    assert(final(image).covers(x, y));
    let shown = final(image).at(x, y);
}

/// A drawing of the display's 230,400 pixels takes the place of the dashboard, four bytes for each pixel.
/// Any other drawing is refused, and the dashboard stays as it is.
pub proof fn lemma_dashboard_is_replaced(
    renderer: &mut Renderer,
    drawing: Option<&[u8]>,
    updated: Result<(), RenderError>,
    index: int,
)
    requires
        call_ensures(Renderer::update, (renderer, drawing), updated),
        0 <= index < 230_400,
    ensures
        drawing is None ==> updated == Err::<(), RenderError>(RenderError::Drawing),
        drawing matches Some(raw) ==> (raw@.len() != 921_600 ==> updated == Err::<(), RenderError>(
            RenderError::PixelCount,
        )),
        updated is Err ==> *final(renderer) == *old(renderer),
        drawing matches Some(raw) ==> (raw@.len() == 921_600 ==> {
            let shown = final(renderer).overlay.pixels@[index];
            &&& updated is Ok
            &&& final(renderer).overlay.width == 480
            &&& final(renderer).overlay.height == 480
            &&& final(renderer).overlay.pixels@.len() == 230_400
            &&& shown.r == raw@[4 * index]
            &&& shown.g == raw@[4 * index + 1]
            &&& shown.b == raw@[4 * index + 2]
            &&& shown.a == raw@[4 * index + 3]
            &&& final(renderer).audio_enabled == old(renderer).audio_enabled
            &&& final(renderer).family == old(renderer).family
        }),
{
    if drawing is Some && drawing->0@.len() == 921_600 {
        assert(480 * 480 == 230_400) by (nonlinear_arith);
        assert(final(renderer).overlay.pixels@[index] == raw_pixel(drawing->0@, index));
    }
}

/// A picture is composed of the background with the dashboard mixed over it, by the dashboard's opacity
/// at each pixel, and of the spectrum over both, if the template wants it.
pub proof fn lemma_picture_is_composed(
    renderer: &Renderer,
    image: Image,
    bands: &[u32],
    composed: Image,
    x: int,
    y: int,
)
    requires
        image.wf(),
        renderer.audio_enabled ==> image.width >= 302 && image.height >= 466,
        call_ensures(Renderer::compose, (renderer, image, bands), composed),
        0 <= x < image.width,
        0 <= y < image.height,
    ensures
        composed.width == image.width,
        composed.height == image.height,
        composed.pixels@.len() == image.pixels@.len(),
        !renderer.audio_enabled || (forall|bar: int| !in_bar(bar, x)) || (forall|block: int|
            !in_row_of_block(block, y)) ==> {
            let index = y * image.width + x;
            &&& index < renderer.overlay.pixels@.len() ==> is_laid_on(
                image.pixels@[index],
                renderer.overlay.pixels@[index],
                renderer.overlay.pixels@[index].a as int,
                composed.pixels@[index],
            )
            &&& index >= renderer.overlay.pixels@.len() ==> composed.pixels@[index]
                == image.pixels@[index]
        },
        renderer.audio_enabled ==> forall|bar: int, block: int, level: u32, blocks: u32|
            in_bar(bar, x) && in_row_of_block(block, y) && level == (if bar < bands@.len() {
                bands@[bar]
            } else {
                0
            }) && #[trigger] call_ensures(active_blocks, (level,), blocks) && #[trigger] in_block(
                bar,
                block,
                x,
                y,
            ) ==> composed.pixels@[y * image.width + x] == if block + blocks >= 8 {
                Rgba { r: 138, g: 88, b: 191, a: 255 }
            } else {
                Rgba { r: 231, g: 224, b: 238, a: 255 }
            },
{
    let index = y * image.width + x;
    lemma_pixel_index(image.width as int, image.height as int, x, y);
    let laid = if renderer.audio_enabled {
        choose|laid: Image| #[trigger]
            is_laid_over(image, renderer.overlay, laid) && spectrum_drawn(
                laid,
                composed,
                bands@,
                AUDIO_BARS as int,
                0,
            )
    } else {
        composed
    };
    assert(is_laid_over(image, renderer.overlay, laid));
    assert(laid.pixels@[index] == laid_pixel(image.pixels@, renderer.overlay.pixels@, index));
    if index < renderer.overlay.pixels@.len() {
        lemma_blended_is_laid(image.pixels@[index], renderer.overlay.pixels@[index]);
    }
    if renderer.audio_enabled {
        assert(composed.covers(x, y));
        if (forall|bar: int| !in_bar(bar, x)) || (forall|block: int| !in_row_of_block(block, y)) {
            assert forall|bar: int, block: int|
                comes_before(bar, block, AUDIO_BARS as int, 0) implies !#[trigger] in_block(
                bar,
                block,
                x,
                y,
            ) by {
                assert(!in_bar(bar, x) || !in_row_of_block(block, y));
            }
            assert(is_free(AUDIO_BARS as int, 0, x, y));
            assert(composed.at(x, y) == laid.at(x, y));
        }
        assert forall|bar: int, block: int, level: u32, blocks: u32|
            in_bar(bar, x) && in_row_of_block(block, y) && level == (if bar < bands@.len() {
                bands@[bar]
            } else {
                0
            }) && #[trigger] call_ensures(active_blocks, (level,), blocks) && #[trigger] in_block(
                bar,
                block,
                x,
                y,
            ) implies composed.pixels@[index] == if block + blocks >= 8 {
            Rgba { r: 138, g: 88, b: 191, a: 255 }
        } else {
            Rgba { r: 231, g: 224, b: 238, a: 255 }
        } by {
            assert(comes_before(bar, block, AUDIO_BARS as int, 0));
            assert(composed.at(x, y) == block_color(bands@, bar, block));
        }
    }
}

/// The spectrum is wanted exactly if the mark of its place stands somewhere in the template; a
/// dashboard begins transparent.
pub proof fn lemma_mark_asks_for_spectrum(
    template: &str,
    family: Option<String>,
    renderer: Result<Renderer, RenderError>,
    enabled: bool,
    before: Seq<char>,
    after: Seq<char>,
    index: int,
)
    requires
        call_ensures(Renderer::with_family, (template, true, family), renderer),
        renderer matches Ok(renderer) ==> call_ensures(Renderer::audio_enabled, (&renderer,), enabled),
        0 <= index < 230_400,
    ensures
        renderer is Ok <==> family is Some,
        renderer matches Ok(renderer) ==> {
            &&& template@ == before + "id=\"audio-spectrum\""@ + after ==> enabled
            &&& enabled ==> exists|start: int|
                0 <= start <= template@.len() - 19 && #[trigger] template@.subrange(start, start + 19)
                    == "id=\"audio-spectrum\""@
            &&& renderer.overlay.pixels@.len() == 230_400
            &&& renderer.overlay.pixels@[index].a == 0
            &&& renderer.family@ == family->0@
        },
{
    reveal_strlit("id=\"audio-spectrum\"");
    let mark = "id=\"audio-spectrum\""@;
    assert(mark.len() == 19);
    if let Ok(renderer) = renderer {
        assert(480 * 480 == 230_400) by (nonlinear_arith);
        let start = before.len() as int;
        if template@ == before + mark + after {
            assert(template@.subrange(start, start + 19) =~= mark);
            assert(occurs_at(template@, AUDIO_MARK@, start));
        }
        if enabled {
            let found = choose|start: int| occurs_at(template@, AUDIO_MARK@, start);
            assert(occurs_at(template@, AUDIO_MARK@, found));
            assert(template@.subrange(found, found + 19) == mark);
        }
    }
}

/// A template that cannot be parsed is refused before the font is looked at.
pub proof fn lemma_broken_template_is_refused(
    template: &str,
    family: Option<String>,
    renderer: Result<Renderer, RenderError>,
    nameless: Result<Renderer, RenderError>,
)
    requires
        call_ensures(Renderer::with_family, (template, false, family), renderer),
        call_ensures(Renderer::with_family, (template, true, None), nameless),
    ensures
        renderer is Err && renderer->Err_0 is Template,
        nameless is Err && nameless->Err_0 is NoFamily,
{
}

/// A frequency in gigahertz is a thousandth of one in megahertz.
pub proof fn lemma_gigahertz(mhz: u32, ghz: u32)
    requires
        call_ensures(mhz_to_ghz, (mhz,), ghz),
    ensures
        is_thousandth(ghz, mhz),
{
    lemma_thousandth(mhz);
}

/// There is one view for each load, up to a limit.  An idle core is drawn with an opacity of 0.18, one
/// that is fully busy with an opacity of one, and a busier one not more weakly.
pub proof fn lemma_cores_are_shown(loads: &[u32], limit: usize, views: Vec<CoreView>, i: int, j: int)
    requires
        call_ensures(core_views, (loads, limit), views),
        0 <= i < views@.len(),
        0 <= j < views@.len(),
    ensures
        views@.len() <= limit,
        views@.len() <= loads@.len(),
        views@.len() == limit || views@.len() == loads@.len(),
        loads@[i] == 0 || 0x8000_0000 <= loads@[i] <= 0xff80_0000 ==> views@[i].opacity == 0x3e38_51ec,
        0x42c8_0000 <= loads@[i] <= 0x7f80_0000 ==> views@[i].opacity == 0x3f80_0000,
        loads@[i] <= loads@[j] <= 0x7f80_0000 ==> views@[i].opacity <= views@[j].opacity,
{
    let a = loads@[i];
    let b = loads@[j];
    let low = views@[i].opacity;
    let high = views@[j].opacity;
    assert(is_core_opacity(a, low) && is_core_opacity(b, high));
    lemma_opacity_constants();
    lemma2_to64();
    lemma_pow2_adds(23, 3977);
    assert(exponent(0x3f80_0000) == 127 && significand(0x3f80_0000) == 0x80_0000);
    assert(number(0x3f80_0000) == one());
    lemma_opacity_follows_load(0, 0);
    if !is_nan(a) {
        lemma_held_load(a);
        lemma_opacity_follows_load(held_load(a), whole(100));
        if low < 0x3e38_51ec {
            lemma_numbers_are_ordered(low, 0x3e38_51ec);
        } else if low > 0x3e38_51ec {
            lemma_numbers_are_ordered(0x3e38_51ec, low);
        }
        if low < 0x3f80_0000 {
            lemma_numbers_are_ordered(low, 0x3f80_0000);
        } else if low > 0x3f80_0000 {
            lemma_numbers_are_ordered(0x3f80_0000, low);
        }
    }
    if a <= b <= 0x7f80_0000 {
        lemma_held_load(b);
        if a < b && b < HUNDRED {
            lemma_numbers_are_ordered(a, b);
        } else if a < HUNDRED && b >= HUNDRED {
            lemma_numbers_are_ordered(a, HUNDRED);
        }
        assert(held_load(a) <= held_load(b));
        lemma_opacity_follows_load(held_load(a), held_load(b));
        if high < low {
            lemma_numbers_are_ordered(high, low);
        }
    }
}

/// What the graphics card has of memory is told if both numbers are known and there is any: in gibibytes,
/// with a bar of 230 columns.
pub proof fn lemma_memory_of_the_card(
    used: Option<u64>,
    total: Option<u64>,
    memory: Option<GpuMemoryView>,
    used_gib: u32,
    total_gib: u32,
    width: u32,
)
    requires
        call_ensures(gpu_memory, (used, total), memory),
        used matches Some(used) ==> call_ensures(to_gib, (used,), used_gib),
        total matches Some(total) ==> call_ensures(to_gib, (total,), total_gib),
        call_ensures(bar_width, (used_gib, total_gib, 0x4366_0000u32), width),
    ensures
        memory is Some <==> used is Some && total is Some && total->0 > 0,
        memory matches Some(memory) ==> {
            &&& memory.used_gib == used_gib
            &&& memory.total_gib == total_gib
            &&& memory.bar_width == width
        },
{
    if memory is Some {
        let part = part_of(used_gib, total_gib, BAR_WIDTH);
        if part < number(BAR_WIDTH) {
            lemma_pattern(width, part);
        }
    }
}

/// A number below a hundred is told with two digits.
proof fn lemma_two_digits(value: u16)
    requires
        value < 100,
    ensures
        two_digits(value).len() == 2,
        two_digits(value)[0] as int == 48 + value / 10,
        two_digits(value)[1] as int == 48 + value % 10,
{
    reveal_with_fuel(decimal, 2);
    if value < 10 {
        assert(decimal(value as nat) == seq![digit_char(value as int)]);
    }
}

/// A time is told with two digits each for hours, minutes and seconds, and colons between them.
pub proof fn lemma_time_is_told(hour: u16, minute: u16, second: u16, text: String)
    requires
        hour < 100,
        minute < 100,
        second < 100,
        call_ensures(local_time, (hour, minute, second), text),
    ensures
        text@.len() == 8,
        text@[0] as int == 48 + hour / 10,
        text@[1] as int == 48 + hour % 10,
        text@[2] == ':',
        text@[3] as int == 48 + minute / 10,
        text@[4] as int == 48 + minute % 10,
        text@[5] == ':',
        text@[6] as int == 48 + second / 10,
        text@[7] as int == 48 + second % 10,
{
    lemma_two_digits(hour);
    lemma_two_digits(minute);
    lemma_two_digits(second);
}

/// A file is not taken for a bounded font only if it begins with `ttcf` and the four bytes at 8, the
/// highest first, number more fonts than can be addressed with eight bytes each.
pub proof fn lemma_font_is_bounded(font: &[u8], bounded: bool)
    requires
        call_ensures(bounded_font, (font,), bounded),
    ensures
        font@.len() < 12 ==> bounded,
        font@.len() >= 12 && (font@[0] != 0x74 || font@[1] != 0x74 || font@[2] != 0x63 || font@[3]
            != 0x66) ==> bounded,
        font@.len() >= 12 && font@[0] == 0x74 && font@[1] == 0x74 && font@[2] == 0x63 && font@[3]
            == 0x66 ==> (bounded <==> 8 * (font@[11] + 256 * (font@[10] + 256 * (font@[9] + 256
            * font@[8]))) <= isize::MAX),
{
}

/// The dashboard is given the settings and the values as they are: eight fast and sixteen saving cores
/// and two lines at most, bars of 230 columns, and frequencies in gigahertz.
pub proof fn lemma_dashboard_shows_values(
    config: &Config,
    snapshot: &Snapshot,
    time: String,
    context: DashboardContext,
    i: int,
)
    requires
        call_ensures(dashboard_context, (config, snapshot, time), context),
        0 <= i,
    ensures
        context.title@ == config.title@,
        context.time@ == time@,
        context.show_clock == config.show_clock,
        context.show_sensors == config.show_sensors,
        context.cpu.load_percent == snapshot.cpu_percent,
        context.cpu.temperature_c == snapshot.cpu_temperature,
        context.cpu.performance_frequency_ghz is Some <==> snapshot.cpu_p_mhz is Some,
        snapshot.cpu_p_mhz matches Some(mhz) ==> is_thousandth(
            context.cpu.performance_frequency_ghz->0,
            mhz,
        ),
        context.cpu.efficiency_frequency_ghz is Some <==> snapshot.cpu_e_mhz is Some,
        snapshot.cpu_e_mhz matches Some(mhz) ==> is_thousandth(
            context.cpu.efficiency_frequency_ghz->0,
            mhz,
        ),
        snapshot.cpu_p_core_loads@.len() <= 8 ==> context.cpu.performance_cores@.len()
            == snapshot.cpu_p_core_loads@.len(),
        snapshot.cpu_p_core_loads@.len() > 8 ==> context.cpu.performance_cores@.len() == 8,
        snapshot.cpu_e_core_loads@.len() <= 16 ==> context.cpu.efficiency_cores@.len()
            == snapshot.cpu_e_core_loads@.len(),
        snapshot.cpu_e_core_loads@.len() > 16 ==> context.cpu.efficiency_cores@.len() == 16,
        context.memory.used_gib == snapshot.memory_used_gib,
        context.memory.total_gib == snapshot.memory_total_gib,
        context.gpu.load_percent == snapshot.gpu.percent,
        context.gpu.temperature_c == snapshot.gpu.temperature,
        context.gpu.power_w == snapshot.gpu.power_w,
        context.gpu.power_limit_w == snapshot.gpu.power_limit_w,
        context.gpu.graphics_clock_mhz == snapshot.gpu.graphics_clock_mhz,
        context.gpu.memory_clock_mhz == snapshot.gpu.memory_clock_mhz,
        context.gpu.performance_state == snapshot.gpu.performance_state,
        context.gpu.fan_percent == snapshot.gpu.fan_percent,
        context.io == snapshot.io,
        config.custom_lines@.len() <= 2 ==> context.custom_lines@.len() == config.custom_lines@.len(),
        config.custom_lines@.len() > 2 ==> context.custom_lines@.len() == 2,
        i < config.custom_lines@.len() && i < 2 ==> context.custom_lines@[i]@
            == config.custom_lines@[i]@,
{
    if let Some(mhz) = snapshot.cpu_p_mhz {
        lemma_thousandth(mhz);
    }
    if let Some(mhz) = snapshot.cpu_e_mhz {
        lemma_thousandth(mhz);
    }
}

/// The cores, the memory and the memory of the card are shown as each of them is shown alone, in bars of
/// 230 columns and in percent.
pub proof fn lemma_dashboard_shows_parts(
    config: &Config,
    snapshot: &Snapshot,
    time: String,
    context: DashboardContext,
    memory: Option<GpuMemoryView>,
    width: u32,
    percent: u32,
    loads: &[u32],
    limit: usize,
    views: Vec<CoreView>,
    i: int,
)
    requires
        call_ensures(dashboard_context, (config, snapshot, time), context),
        call_ensures(core_views, (loads, limit), views),
        0 <= i < views@.len(),
        loads@[i] <= 0x7f80_0000 || 0x8000_0000 <= loads@[i] <= 0xff80_0000,
        snapshot.memory_used_gib < 0x7f80_0000,
        snapshot.memory_total_gib < 0x7f80_0000,
        call_ensures(
            gpu_memory,
            (snapshot.gpu.memory_used_bytes, snapshot.gpu.memory_total_bytes),
            memory,
        ),
        call_ensures(
            bar_width,
            (snapshot.memory_used_gib, snapshot.memory_total_gib, 0x4366_0000u32),
            width,
        ),
        call_ensures(
            bar_width,
            (snapshot.memory_used_gib, snapshot.memory_total_gib, 0x42c8_0000u32),
            percent,
        ),
    ensures
        context.gpu.memory == memory,
        context.memory.bar_width == width,
        context.memory.used_percent == percent,
        loads@ == snapshot.cpu_p_core_loads@ && limit == 8 ==> context.cpu.performance_cores@[i].opacity
            == views@[i].opacity,
        loads@ == snapshot.cpu_e_core_loads@ && limit == 16 ==> context.cpu.efficiency_cores@[i].opacity
            == views@[i].opacity,
{
    let opacity = opacity_of(held_load(loads@[i]));
    assert(is_core_opacity(loads@[i], views@[i].opacity));
    lemma_pattern(views@[i].opacity, opacity);
    if loads@ == snapshot.cpu_p_core_loads@ && limit == 8 {
        assert(is_core_opacity(loads@[i], context.cpu.performance_cores@[i].opacity));
        lemma_pattern(context.cpu.performance_cores@[i].opacity, opacity);
    }
    if loads@ == snapshot.cpu_e_core_loads@ && limit == 16 {
        assert(is_core_opacity(loads@[i], context.cpu.efficiency_cores@[i].opacity));
        lemma_pattern(context.cpu.efficiency_cores@[i].opacity, opacity);
    }
    let used = snapshot.memory_used_gib;
    let total = snapshot.memory_total_gib;
    if total > 0 {
        if part_of(used, total, BAR_WIDTH) < number(BAR_WIDTH) {
            lemma_pattern(width, part_of(used, total, BAR_WIDTH));
            lemma_pattern(context.memory.bar_width, part_of(used, total, BAR_WIDTH));
        }
        if part_of(used, total, HUNDRED) < number(HUNDRED) {
            lemma_pattern(percent, part_of(used, total, HUNDRED));
            lemma_pattern(context.memory.used_percent, part_of(used, total, HUNDRED));
        }
    }
}

/// The part of its frame that a bar fills is the part that is used, but for less than one part in four
/// million; a bar that fills its frame may stand for more.
pub proof fn lemma_bar_shows_part(used: u32, total: u32, maximum: u32, width: u32)
    requires
        used < 0x7f80_0000,
        0 < total < 0x7f80_0000,
        0x3f80_0000 <= maximum <= 0x4f80_0000,
        number(used) * pow2(126) >= number(total),
        call_ensures(bar_width, (used, total, maximum), width),
    ensures
        0x40_0000 * (number(total) * number(width)) <= 0x40_0001 * (number(used) * number(maximum)),
        width == maximum || 0x40_0000 * (number(total) * number(width)) >= 0x3f_ffff * (number(used)
            * number(maximum)),
{
    lemma2_to64();
    lemma_pow2_pos(4000);
    lemma_pow2_pos(3874);
    lemma_pow2_adds(126, 3874);
    lemma_number_bounds(total);
    lemma_pow2_pos(3851);
    lemma_pow2_adds(23, 3977);
    assert(exponent(0x3f80_0000) == 127 && significand(0x3f80_0000) == 0x80_0000);
    assert(number(0x3f80_0000) == one());
    if maximum > 0x3f80_0000 {
        lemma_numbers_are_ordered(0x3f80_0000, maximum);
    }
    lemma_numbers_are_ordered(0, total);
    let u = number(used);
    let t = number(total);
    let most = number(maximum);
    let unit = one();
    let least = pow2(3874);
    let n = u * unit;
    assert(n >= t * least) by (nonlinear_arith)
        requires
            n == u * unit,
            unit == pow2(126) * least,
            u * pow2(126) >= t,
            least > 0,
    ;
    lemma_rounded_is_close(n, t, 24, 3851);
    let ratio = single(n, t);
    assert(1 * least == least);
    assert(t * (1 * pow2(3874)) == t * least);
    lemma_rounded_keeps_bound(t * least, t, 24, 3851, 1, 3874);
    lemma_rounded_is_monotone(t * least, n, t, 24, 3851);
    assert(ratio * most >= unit * least) by (nonlinear_arith)
        requires
            ratio >= least,
            most >= unit,
            unit > 0,
    ;
    lemma_rounded_is_close(ratio * most, unit, 24, 3851);
    let part = part_of(used, total, maximum);
    let exact = u * most;
    assert(0x1_0000_0000_0000 * (t * part) <= (0x100_0001 * 0x100_0001) * exact) by (nonlinear_arith)
        requires
            0x100_0000 * (unit * part) <= 0x100_0001 * (ratio * most),
            0x100_0000 * (t * ratio) <= 0x100_0001 * n,
            n == u * unit,
            exact == u * most,
            unit > 0,
            most > 0,
    {
        assert(0x1_0000_0000_0000 * (t * part) * unit == (0x100_0000 * t) * (0x100_0000 * (unit
            * part)));
        assert((0x100_0000 * t) * (0x100_0000 * (unit * part)) <= (0x100_0000 * t) * (0x100_0001
            * (ratio * most)));
        assert((0x100_0000 * t) * (0x100_0001 * (ratio * most)) == (0x100_0000 * (t * ratio)) * (
        0x100_0001 * most));
        assert((0x100_0000 * (t * ratio)) * (0x100_0001 * most) <= (0x100_0001 * n) * (0x100_0001
            * most));
        assert((0x100_0001 * n) * (0x100_0001 * most) == (0x100_0001 * 0x100_0001) * exact * unit);
    };
    assert(0x1_0000_0000_0000 * (t * part) >= (0xff_ffff * 0xff_ffff) * exact) by (nonlinear_arith)
        requires
            0x100_0000 * (unit * part) >= 0xff_ffff * (ratio * most),
            0x100_0000 * (t * ratio) >= 0xff_ffff * n,
            n == u * unit,
            exact == u * most,
            unit > 0,
            most > 0,
    {
        assert(0x1_0000_0000_0000 * (t * part) * unit == (0x100_0000 * t) * (0x100_0000 * (unit
            * part)));
        assert((0x100_0000 * t) * (0x100_0000 * (unit * part)) >= (0x100_0000 * t) * (0xff_ffff
            * (ratio * most)));
        assert((0x100_0000 * t) * (0xff_ffff * (ratio * most)) == (0x100_0000 * (t * ratio)) * (
        0xff_ffff * most));
        assert((0x100_0000 * (t * ratio)) * (0xff_ffff * most) >= (0xff_ffff * n) * (0xff_ffff
            * most));
        assert((0xff_ffff * n) * (0xff_ffff * most) == (0xff_ffff * 0xff_ffff) * exact * unit);
    };
    let filled = t * part;
    assert(0x100_0001 * 0x100_0001 == 0x1_0000_0200_0001 && 0xff_ffff * 0xff_ffff == 0xffff_fe00_0001)
        by (nonlinear_arith);
    assert(0x1_0000_0000_0000 * filled <= 0x1_0000_0200_0001 * exact) by (nonlinear_arith)
        requires
            0x1_0000_0000_0000 * filled <= (0x100_0001 * 0x100_0001) * exact,
    ;
    assert(0x1_0000_0000_0000 * filled >= 0xffff_fe00_0001 * exact) by (nonlinear_arith)
        requires
            0x1_0000_0000_0000 * filled >= (0xff_ffff * 0xff_ffff) * exact,
    ;
    assert(0x40_0000 * filled <= 0x40_0001 * exact);
    assert(0x40_0000 * filled >= 0x3f_ffff * exact);
    assert(exponent(used) != 255 && exponent(total) != 255);
    if part >= most {
        assert(width == maximum);
        assert(t * most <= t * part) by (nonlinear_arith)
            requires
                part >= most,
        ;
    } else {
        assert(number(width) == part);
    }
}

/// A dashboard is made of its template and its font: the font is asked for its family only if the template
/// can be parsed.
pub proof fn lemma_dashboard_is_made(
    template: &str,
    font: Vec<u8>,
    renderer: Result<Renderer, RenderError>,
    family: Option<String>,
    made: Result<Renderer, RenderError>,
)
    requires
        is_bounded_font(font@),
        call_ensures(Renderer::new, (template, font), renderer),
        family matches Some(family) ==> first_family(font@) == Some(family@),
        family is None ==> first_family(font@) is None,
        call_ensures(Renderer::with_family, (template, template_parses(template@), family), made),
    ensures
        renderer is Ok <==> made is Ok,
        renderer matches Err(error) ==> made->Err_0 == error,
        renderer matches Ok(renderer) ==> {
            &&& renderer.audio_enabled == made->Ok_0.audio_enabled
            &&& renderer.family@ == made->Ok_0.family@
            &&& renderer.overlay.pixels@ == made->Ok_0.overlay.pixels@
        },
{
    if let Ok(renderer) = renderer {
        assert(renderer.overlay.pixels@ =~= made->Ok_0.overlay.pixels@);
    }
}

} // verus!
