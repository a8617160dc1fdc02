//! Images of eight-bit RGBA pixels, stored row by row.

use vstd::prelude::*;

verus! {

/// One pixel.
#[derive(Clone, Copy, Debug, PartialEq, Eq, Structural)]
pub struct Rgba {
    pub r: u8,
    pub g: u8,
    pub b: u8,
    pub a: u8,
}

/// An image: `pixels` holds `height` rows of `width` pixels each.
#[derive(Debug)]
pub struct Image {
    pub width: u32,
    pub height: u32,
    pub pixels: Vec<Rgba>,
}

impl Clone for Image {
    fn clone(&self) -> (copy: Image)
        ensures
            copy.width == self.width,
            copy.height == self.height,
            copy.pixels@ == self.pixels@,
    {
        let pixels = self.pixels.clone();
        proof {
            assert(pixels@ =~= self.pixels@);
        }
        Image { width: self.width, height: self.height, pixels }
    }
}

/// The position of the pixel in column `x` of row `y`.
pub open spec fn pixel_index(width: int, x: int, y: int) -> int {
    y * width + x
}

/// The pixel whose four channels stand at `4 * index` of `raw`.
pub open spec fn raw_pixel(raw: Seq<u8>, index: int) -> Rgba {
    Rgba { r: raw[4 * index], g: raw[4 * index + 1], b: raw[4 * index + 2], a: raw[4 * index + 3] }
}

/// The channels of all pixels in order.
pub open spec fn channels(pixels: Seq<Rgba>) -> Seq<u8> {
    Seq::new(
        4 * pixels.len(),
        |i: int|
            if i % 4 == 0 {
                pixels[i / 4].r
            } else if i % 4 == 1 {
                pixels[i / 4].g
            } else if i % 4 == 2 {
                pixels[i / 4].b
            } else {
                pixels[i / 4].a
            },
    )
}

/// Pixels that were read from channels have these channels.
pub proof fn lemma_channels_are_read_back(pixels: Seq<Rgba>, raw: Seq<u8>)
    requires
        raw.len() == 4 * pixels.len(),
        forall|i: int| 0 <= i < pixels.len() ==> #[trigger] pixels[i] == raw_pixel(raw, i),
    ensures
        channels(pixels) == raw,
{
    assert forall|i: int| 0 <= i < raw.len() implies channels(pixels)[i] == #[trigger] raw[i] by {
        assert(pixels[i / 4] == raw_pixel(raw, i / 4));
        assert(i == 4 * (i / 4) + i % 4);
    }
    assert(channels(pixels) =~= raw);
}

/// `part` is what `image` shows from column `left` of row `top` on.
pub open spec fn is_crop(image: Image, left: int, top: int, part: Image) -> bool {
    &&& part.wf()
    &&& forall|x: int, y: int|
        part.covers(x, y) ==> #[trigger] part.at(x, y) == image.at(left + x, top + y)
}

impl Image {
    /// The image holds exactly as many pixels as its size says.
    pub open spec fn wf(self) -> bool {
        self.pixels@.len() == self.width * self.height
    }

    /// The pixel in column `x` of row `y`.
    pub open spec fn at(self, x: int, y: int) -> Rgba {
        self.pixels@[pixel_index(self.width as int, x, y)]
    }

    /// Column `x` of row `y` exists.
    pub open spec fn covers(self, x: int, y: int) -> bool {
        0 <= x < self.width && 0 <= y < self.height
    }

    /// An image of one colour.
    pub fn from_pixel(width: u32, height: u32, color: Rgba) -> (image: Image)
        requires
            width * height <= usize::MAX,
        ensures
            image.wf(),
            image.width == width,
            image.height == height,
            forall|i: int| 0 <= i < image.pixels@.len() ==> #[trigger] image.pixels@[i] == color,
    {
        let count: u64 = mul_u32(width, height);
        let mut pixels: Vec<Rgba> = Vec::new();
        let mut i: u64 = 0;
        while i < count
            invariant
                i <= count,
                pixels@.len() == i,
                forall|j: int| 0 <= j < pixels@.len() ==> #[trigger] pixels@[j] == color,
            decreases count - i,
        {
            pixels.push(color);
            i = i + 1;
        }
        Image { width, height, pixels }
    }

    /// The image whose channels stand in `raw`, four bytes to a pixel; `None` if `raw` is not
    /// exactly as long as an image of this size.
    pub fn from_raw(width: u32, height: u32, raw: &[u8]) -> (image: Option<Image>)
        ensures
            image is Some <==> raw@.len() == 4 * (width * height),
            image matches Some(image) ==> {
                &&& image.wf()
                &&& image.width == width
                &&& image.height == height
                &&& forall|i: int|
                    0 <= i < image.pixels@.len() ==> #[trigger] image.pixels@[i] == raw_pixel(raw@, i)
            },
    {
        let count: u64 = mul_u32(width, height);
        let length: u64 = raw.len() as u64;
        if length % 4 != 0 || length / 4 != count {
            return None;
        }
        let mut pixels: Vec<Rgba> = Vec::new();
        let mut i: usize = 0;
        while i < raw.len() / 4
            invariant
                i <= raw@.len() / 4,
                raw@.len() == 4 * (width * height),
                pixels@.len() == i,
                forall|j: int| 0 <= j < pixels@.len() ==> #[trigger] pixels@[j] == raw_pixel(raw@, j),
            decreases raw@.len() - i,
        {
            pixels.push(Rgba { r: raw[4 * i], g: raw[4 * i + 1], b: raw[4 * i + 2], a: raw[4 * i + 3] });
            i = i + 1;
        }
        Some(Image { width, height, pixels })
    }

    /// The channels of all pixels in order.
    pub fn to_raw(&self) -> (raw: Vec<u8>)
        requires
            4 * self.pixels@.len() <= usize::MAX,
        ensures
            raw@ == channels(self.pixels@),
    {
        let mut raw: Vec<u8> = Vec::new();
        let mut i: usize = 0;
        while i < self.pixels.len()
            invariant
                i <= self.pixels@.len(),
                raw@.len() == 4 * i,
                forall|j: int| 0 <= j < i ==> raw_pixel(raw@, j) == #[trigger] self.pixels@[j],
            decreases self.pixels@.len() - i,
        {
            let pixel = self.pixels[i];
            raw.push(pixel.r);
            raw.push(pixel.g);
            raw.push(pixel.b);
            raw.push(pixel.a);
            i = i + 1;
        }
        proof {
            lemma_channels_are_read_back(self.pixels@, raw@);
        }
        raw
    }

    /// The pixel in column `x` of row `y`.
    pub fn get_pixel(&self, x: u32, y: u32) -> (pixel: Rgba)
        requires
            self.wf(),
            self.covers(x as int, y as int),
        ensures
            pixel == self.at(x as int, y as int),
    {
        proof {
            lemma_pixel_index(self.width as int, self.height as int, x as int, y as int);
        }
        let start: usize = row_start(self.width, self.height, y, self.pixels.len());
        self.pixels[start + x as usize]
    }

    /// Replaces the pixel in column `x` of row `y`.
    pub fn put_pixel(&mut self, x: u32, y: u32, color: Rgba)
        requires
            old(self).wf(),
            old(self).covers(x as int, y as int),
        ensures
            final(self).wf(),
            final(self).width == old(self).width,
            final(self).height == old(self).height,
            final(self).pixels@ == old(self).pixels@.update(
                pixel_index(old(self).width as int, x as int, y as int),
                color,
            ),
    {
        proof {
            lemma_pixel_index(self.width as int, self.height as int, x as int, y as int);
        }
        let start: usize = row_start(self.width, self.height, y, self.pixels.len());
        let index: usize = start + x as usize;
        self.pixels.set(index, color);
    }
}

/// The part of `image` that is `width` wide and `height` high and starts at column `left` of row
/// `top`.
pub fn crop(image: &Image, left: u32, top: u32, width: u32, height: u32) -> (part: Image)
    requires
        image.wf(),
        left + width <= image.width,
        top + height <= image.height,
    ensures
        is_crop(*image, left as int, top as int, part),
        part.width == width,
        part.height == height,
{
    let mut pixels: Vec<Rgba> = Vec::new();
    let mut y: u32 = 0;
    proof {
        assert(0 * width == 0);
    }
    while y < height
        invariant
            image.wf(),
            left + width <= image.width,
            top + height <= image.height,
            y <= height,
            pixels@.len() == y * width,
            forall|i: int, j: int|
                0 <= i < width && 0 <= j < y ==> pixels@[#[trigger] pixel_index(width as int, i, j)]
                    == image.at(left + i, top + j),
        decreases height - y,
    {
        let mut x: u32 = 0;
        while x < width
            invariant
                image.wf(),
                left + width <= image.width,
                top + height <= image.height,
                y < height,
                x <= width,
                pixels@.len() == y * width + x,
                forall|i: int, j: int|
                    0 <= i < width && 0 <= j < y
                        ==> pixels@[#[trigger] pixel_index(width as int, i, j)] == image.at(
                        left + i,
                        top + j,
                    ),
                forall|i: int|
                    0 <= i < x ==> pixels@[#[trigger] pixel_index(width as int, i, y as int)]
                        == image.at(left + i, top + y),
            decreases width - x,
        {
            let ghost before = pixels@;
            pixels.push(image.get_pixel(left + x, top + y));
            proof {
                assert forall|i: int, j: int| 0 <= i < width && 0 <= j < y implies pixels@[
                #[trigger] pixel_index(width as int, i, j)] == image.at(left + i, top + j) by {
                    lemma_pixel_index(width as int, y as int, i, j);
                    assert(width * y == y * width) by (nonlinear_arith);
                    assert(pixels@[pixel_index(width as int, i, j)] == before[pixel_index(
                        width as int,
                        i,
                        j,
                    )]);
                }
            }
            x = x + 1;
        }
        proof {
            assert((y + 1) * width == y * width + width) by (nonlinear_arith);
        }
        y = y + 1;
    }
    proof {
        assert(height * width == width * height) by (nonlinear_arith);
    }
    Image { width, height, pixels }
}

/// Copies `part` into `canvas`, its first row onto row `top`, with no offset to the side.
pub fn replace_rows(canvas: &mut Image, part: &Image, top: u32)
    requires
        old(canvas).wf(),
        part.wf(),
        part.width == old(canvas).width,
        top + part.height <= old(canvas).height,
    ensures
        final(canvas).wf(),
        final(canvas).width == old(canvas).width,
        final(canvas).height == old(canvas).height,
        forall|x: int, y: int|
            final(canvas).covers(x, y) ==> #[trigger] final(canvas).at(x, y) == if top <= y < top
                + part.height {
                part.at(x, y - top)
            } else {
                old(canvas).at(x, y)
            },
{
    let ghost before = *canvas;
    let mut y: u32 = 0;
    while y < part.height
        invariant
            canvas.wf(),
            part.wf(),
            part.width == canvas.width,
            canvas.width == before.width,
            canvas.height == before.height,
            top + part.height <= canvas.height,
            y <= part.height,
            forall|i: int, j: int|
                canvas.covers(i, j) ==> #[trigger] canvas.at(i, j) == if top <= j < top + y {
                    part.at(i, j - top)
                } else {
                    before.at(i, j)
                },
        decreases part.height - y,
    {
        let mut x: u32 = 0;
        while x < part.width
            invariant
                canvas.wf(),
                part.wf(),
                part.width == canvas.width,
                canvas.width == before.width,
                canvas.height == before.height,
                top + part.height <= canvas.height,
                y < part.height,
                x <= part.width,
                forall|i: int, j: int|
                    canvas.covers(i, j) ==> #[trigger] canvas.at(i, j) == if top <= j < top + y || (
                    j == top + y && i < x) {
                        part.at(i, j - top)
                    } else {
                        before.at(i, j)
                    },
            decreases part.width - x,
        {
            let ghost previous = *canvas;
            canvas.put_pixel(x, top + y, part.get_pixel(x, y));
            proof {
                assert forall|i: int, j: int| canvas.covers(i, j) implies #[trigger] canvas.at(i, j)
                    == if top <= j < top + y || (j == top + y && i < x + 1) {
                    part.at(i, j - top)
                } else {
                    before.at(i, j)
                } by {
                    lemma_pixel_index(canvas.width as int, canvas.height as int, i, j);
                    lemma_pixel_index(
                        canvas.width as int,
                        canvas.height as int,
                        x as int,
                        top + y,
                    );
                    if pixel_index(canvas.width as int, i, j) == pixel_index(
                        canvas.width as int,
                        x as int,
                        top + y,
                    ) {
                        lemma_pixel_index_injective(canvas.width as int, i, j, x as int, top + y);
                    } else {
                        assert(canvas.at(i, j) == previous.at(i, j));
                    }
                }
            }
            x = x + 1;
        }
        y = y + 1;
    }
}

/// The product of two 32-bit numbers.
pub fn mul_u32(a: u32, b: u32) -> (product: u64)
    ensures
        product == a * b,
{
    proof {
        assert(0 <= a * b <= 0xffff_ffff * 0xffff_ffff) by (nonlinear_arith)
            requires
                0 <= a <= 0xffff_ffff,
                0 <= b <= 0xffff_ffff,
        ;
    }
    a as u64 * b as u64
}

/// The position of the first pixel of row `y`.
fn row_start(width: u32, height: u32, y: u32, count: usize) -> (start: usize)
    requires
        count == width * height,
        y < height,
    ensures
        start == y * width,
        start + width <= count,
{
    proof {
        assert(y * width + width <= width * height) by (nonlinear_arith)
            requires
                0 <= y < height,
                0 <= width,
        ;
        assert(0 <= y * width) by (nonlinear_arith)
            requires
                0 <= y,
                0 <= width,
        ;
    }
    (y as usize) * (width as usize)
}

/// Every pixel of an image has a position among its pixels.
pub proof fn lemma_pixel_index(width: int, height: int, x: int, y: int)
    requires
        0 <= x < width,
        0 <= y < height,
    ensures
        0 <= pixel_index(width, x, y) < width * height,
        y * width + width <= width * height,
{
    assert(y * width + width <= width * height && 0 <= y * width) by (nonlinear_arith)
        requires
            0 <= y < height,
            0 < width,
    ;
}

/// Two pixels of an image share a position only if they are the same pixel.
pub proof fn lemma_pixel_index_injective(width: int, x1: int, y1: int, x2: int, y2: int)
    requires
        0 <= x1 < width,
        0 <= x2 < width,
        pixel_index(width, x1, y1) == pixel_index(width, x2, y2),
    ensures
        x1 == x2,
        y1 == y2,
{
    assert(y1 == y2) by (nonlinear_arith)
        requires
            0 <= x1 < width,
            0 <= x2 < width,
            y1 * width + x1 == y2 * width + x2,
    ;
}

/// An image of raw channels has its pixels row by row, four channels each, and no image is made of too few
/// or too many; its channels are given back as they were.
pub proof fn lemma_channels_stand_row_by_row(
    width: u32,
    height: u32,
    raw: &[u8],
    image: Option<Image>,
    written: Vec<u8>,
    x: u32,
    y: u32,
    pixel: Rgba,
)
    requires
        call_ensures(Image::from_raw, (width, height, raw), image),
        image matches Some(image) ==> call_ensures(Image::to_raw, (&image,), written),
        image matches Some(image) ==> call_ensures(Image::get_pixel, (&image, x, y), pixel),
        x < width,
        y < height,
    ensures
        image is Some <==> raw@.len() == 4 * (width * height),
        image is Some ==> {
            let start = 4 * (y * width + x);
            &&& pixel.r == raw@[start]
            &&& pixel.g == raw@[start + 1]
            &&& pixel.b == raw@[start + 2]
            &&& pixel.a == raw@[start + 3]
            &&& written@ == raw@
        },
{
    if let Some(image) = image {
        lemma_pixel_index(width as int, height as int, x as int, y as int);
        lemma_channels_are_read_back(image.pixels@, raw@);
        assert(image.pixels@[y * width + x] == raw_pixel(raw@, y * width + x));
    }
}

/// A pixel that is put is got back, and no other pixel changes.
pub proof fn lemma_pixel_is_put(
    image: &mut Image,
    x: u32,
    y: u32,
    color: Rgba,
    put: (),
    other_x: u32,
    other_y: u32,
    before: Rgba,
    after: Rgba,
)
    requires
        old(image).wf(),
        x < old(image).width,
        y < old(image).height,
        other_x < old(image).width,
        other_y < old(image).height,
        call_ensures(Image::put_pixel, (image, x, y, color), put),
        call_ensures(Image::get_pixel, (old(image), other_x, other_y), before),
        call_ensures(Image::get_pixel, (final(image), other_x, other_y), after),
    ensures
        final(image).width == old(image).width,
        final(image).height == old(image).height,
        other_x == x && other_y == y ==> after == color,
        other_x != x || other_y != y ==> after == before,
{
    let width = old(image).width as int;
    let height = old(image).height as int;
    lemma_pixel_index(width, height, x as int, y as int);
    lemma_pixel_index(width, height, other_x as int, other_y as int);
    if other_x != x || other_y != y {
        if pixel_index(width, x as int, y as int) == pixel_index(width, other_x as int, other_y as int) {
            lemma_pixel_index_injective(width, x as int, y as int, other_x as int, other_y as int);
        }
    }
}

/// An image of one colour shows it everywhere; a part of an image shows what the image shows from its
/// corner on; rows that are replaced show the part, and the others stay.
pub proof fn lemma_parts_are_copied(
    color: Rgba,
    plain: Image,
    image: &Image,
    left: u32,
    top: u32,
    width: u32,
    height: u32,
    part: Image,
    canvas: &mut Image,
    rows: &Image,
    row: u32,
    replaced: (),
    x: int,
    y: int,
)
    requires
        width * height <= usize::MAX,
        call_ensures(Image::from_pixel, (width, height, color), plain),
        image.wf(),
        left + width <= image.width,
        top + height <= image.height,
        call_ensures(crop, (image, left, top, width, height), part),
        old(canvas).wf(),
        rows.wf(),
        rows.width == old(canvas).width,
        row + rows.height <= old(canvas).height,
        call_ensures(replace_rows, (canvas, rows, row), replaced),
        0 <= x,
        0 <= y,
    ensures
        plain.width == width && plain.height == height && part.width == width && part.height == height,
        x < width && y < height ==> {
            &&& plain.pixels@[y * width + x] == color
            &&& part.pixels@[y * width + x] == image.pixels@[(top + y) * image.width + (left + x)]
        },
        final(canvas).width == old(canvas).width && final(canvas).height == old(canvas).height,
        x < old(canvas).width && y < rows.height ==> final(canvas).pixels@[(row + y) * final(canvas).width
            + x] == rows.pixels@[y * rows.width + x],
        x < old(canvas).width && y < old(canvas).height && (y < row || y - row >= rows.height)
            ==> final(canvas).pixels@[y * final(canvas).width + x] == old(canvas).pixels@[y * old(
            canvas,
        ).width + x],
{
    if x < width && y < height {
        lemma_pixel_index(width as int, height as int, x, y);
        assert(part.covers(x, y));
        assert(part.at(x, y) == image.at(left + x, top + y));
    }
    if x < old(canvas).width && y < rows.height {
        assert(final(canvas).covers(x, row + y));
        assert(final(canvas).at(x, row + y) == rows.at(x, y));
    }
    if x < old(canvas).width && y < old(canvas).height {
        assert(final(canvas).covers(x, y));
        let shown = final(canvas).at(x, y);
    }
}

} // verus!
