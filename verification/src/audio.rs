//! The audio spectrum: the format of the captured sound, the samples that are kept, and the frequency
//! bands.
//!
//! Samples are kept as the bit patterns of single-precision numbers.

use vstd::prelude::*;

use crate::bytes::{le16, le32, le64, read_u16, read_u32, read_u64};
use crate::temperature::{check_hresult, failure_code};

verus! {

/// The number of samples that the spectrum is made of.
pub const FFT_SIZE: usize = 1024;

/// The number of bands of the spectrum.
pub const BAND_COUNT: usize = 16;

/// The time between two readings of the spectrum, in nanoseconds.
pub const SAMPLE_INTERVAL: u128 = 200_000_000;

pub const WAVE_FORMAT_PCM: u16 = 1;

pub const WAVE_FORMAT_IEEE_FLOAT: u16 = 3;

pub const WAVE_FORMAT_EXTENSIBLE: u16 = 0xfffe;

/// The flag that a packet is silent, whatever it holds.
pub const BUFFER_SILENT: u32 = 2;

/// How a sample is stored.
#[derive(Clone, Copy, Debug, PartialEq, Eq, Structural)]
pub enum SampleFormat {
    Float32,
    Float64,
    Pcm16,
    Pcm24,
    Pcm32,
}

/// The format of the captured sound.
#[derive(Clone, Copy, Debug, PartialEq, Eq, Structural)]
pub struct FormatInfo {
    pub sample_format: SampleFormat,
    pub channels: usize,
    pub block_align: usize,
    pub sample_rate: u32,
}

/// Why a format cannot be used.
#[derive(Clone, Copy, Debug, PartialEq, Eq, Structural)]
pub enum FormatError {
    /// The description is cut off.
    Truncated,
    /// There is no channel.
    NoChannels,
    /// A frame has no bytes.
    NoFrame,
    /// The extended description is too short.
    ShortExtension,
    /// The samples are stored in an unknown way.
    Unsupported { tag: u16, bits: u16 },
}

/// The way of storing samples that a description names, which may stand in its extension.
pub open spec fn format_tag(data: Seq<u8>) -> int {
    if le16(data, 0) == WAVE_FORMAT_EXTENSIBLE {
        le16(data, 24)
    } else {
        le16(data, 0)
    }
}

/// How samples of this kind and size are stored.
pub open spec fn sample_format(tag: int, bits: int) -> Option<SampleFormat> {
    if tag == WAVE_FORMAT_IEEE_FLOAT && bits == 32 {
        Some(SampleFormat::Float32)
    } else if tag == WAVE_FORMAT_IEEE_FLOAT && bits == 64 {
        Some(SampleFormat::Float64)
    } else if tag == WAVE_FORMAT_PCM && bits == 16 {
        Some(SampleFormat::Pcm16)
    } else if tag == WAVE_FORMAT_PCM && bits == 24 {
        Some(SampleFormat::Pcm24)
    } else if tag == WAVE_FORMAT_PCM && bits == 32 {
        Some(SampleFormat::Pcm32)
    } else {
        None
    }
}

/// What a description of a format says: kind at 0, channels at 2, rate at 4, bytes of a frame at 12,
/// bits of a sample at 14, size of the extension at 16, and the kind in the extension at 24.
pub open spec fn parsed_format(data: Seq<u8>) -> Result<FormatInfo, FormatError> {
    if data.len() < 18 {
        Err(FormatError::Truncated)
    } else if le16(data, 2) == 0 {
        Err(FormatError::NoChannels)
    } else if le16(data, 12) == 0 {
        Err(FormatError::NoFrame)
    } else if le16(data, 0) == WAVE_FORMAT_EXTENSIBLE && le16(data, 16) < 22 {
        Err(FormatError::ShortExtension)
    } else if le16(data, 0) == WAVE_FORMAT_EXTENSIBLE && data.len() < 28 {
        Err(FormatError::Truncated)
    } else {
        match sample_format(format_tag(data), le16(data, 14)) {
            None => Err(
                FormatError::Unsupported {
                    tag: format_tag(data) as u16,
                    bits: le16(data, 14) as u16,
                },
            ),
            Some(sample_format) => Ok(
                FormatInfo {
                    sample_format,
                    channels: le16(data, 2) as usize,
                    block_align: le16(data, 12) as usize,
                    sample_rate: le32(data, 4) as u32,
                },
            ),
        }
    }
}

impl FormatInfo {
    /// Reads a description of a format.
    pub fn from_wave_format(data: &[u8]) -> (info: Result<FormatInfo, FormatError>)
        ensures
            info == parsed_format(data@),
    {
        if data.len() < 18 {
            return Err(FormatError::Truncated);
        }
        let channels: u16 = read_u16(data, 2);
        let block_align: u16 = read_u16(data, 12);
        if channels == 0 {
            return Err(FormatError::NoChannels);
        }
        if block_align == 0 {
            return Err(FormatError::NoFrame);
        }
        let bits: u16 = read_u16(data, 14);
        let mut tag: u16 = read_u16(data, 0);
        if tag == WAVE_FORMAT_EXTENSIBLE {
            if read_u16(data, 16) < 22 {
                return Err(FormatError::ShortExtension);
            }
            if data.len() < 28 {
                return Err(FormatError::Truncated);
            }
            tag = read_u16(data, 24);
        }
        let sample_format = if tag == WAVE_FORMAT_IEEE_FLOAT && bits == 32 {
            SampleFormat::Float32
        } else if tag == WAVE_FORMAT_IEEE_FLOAT && bits == 64 {
            SampleFormat::Float64
        } else if tag == WAVE_FORMAT_PCM && bits == 16 {
            SampleFormat::Pcm16
        } else if tag == WAVE_FORMAT_PCM && bits == 24 {
            SampleFormat::Pcm24
        } else if tag == WAVE_FORMAT_PCM && bits == 32 {
            SampleFormat::Pcm32
        } else {
            return Err(FormatError::Unsupported { tag, bits });
        };
        Ok(
            FormatInfo {
                sample_format,
                channels: channels as usize,
                block_align: block_align as usize,
                sample_rate: read_u32(data, 4),
            },
        )
    }
}

/// A sample as it is stored: the bit pattern of a floating-point number, or a whole number that is a
/// fraction of two to the power of `scale`.
#[derive(Clone, Copy, Debug, PartialEq, Eq, Structural)]
pub enum RawSample {
    Float32(u32),
    Float64(u64),
    Pcm { value: i32, scale: u32 },
}

/// The number of bytes of a sample.
pub open spec fn sample_size(format: SampleFormat) -> int {
    match format {
        SampleFormat::Float32 => 4,
        SampleFormat::Float64 => 8,
        SampleFormat::Pcm16 => 2,
        SampleFormat::Pcm24 => 3,
        SampleFormat::Pcm32 => 4,
    }
}

/// A number of `modulus` values read as a signed one.
pub open spec fn signed(value: int, modulus: int) -> int {
    if 2 * value < modulus {
        value
    } else {
        value - modulus
    }
}

/// The number of three bytes at `offset`, low byte first.
pub open spec fn le24(data: Seq<u8>, offset: int) -> int {
    le16(data, offset) + 0x1_0000 * data[offset + 2]
}

/// The sample that stands at `offset`.
pub open spec fn read_sample(format: SampleFormat, data: Seq<u8>, offset: int) -> RawSample {
    match format {
        SampleFormat::Float32 => RawSample::Float32(le32(data, offset) as u32),
        SampleFormat::Float64 => RawSample::Float64(le64(data, offset) as u64),
        SampleFormat::Pcm16 => RawSample::Pcm {
            value: signed(le16(data, offset), 0x1_0000) as i32,
            scale: 15,
        },
        SampleFormat::Pcm24 => RawSample::Pcm {
            value: signed(le24(data, offset), 0x100_0000) as i32,
            scale: 23,
        },
        SampleFormat::Pcm32 => RawSample::Pcm {
            value: signed(le32(data, offset), 0x1_0000_0000) as i32,
            scale: 31,
        },
    }
}

impl SampleFormat {
    /// The number of bytes of a sample.
    pub fn size(self) -> (size: usize)
        ensures
            size == sample_size(self),
    {
        match self {
            SampleFormat::Float32 => 4,
            SampleFormat::Float64 => 8,
            SampleFormat::Pcm16 => 2,
            SampleFormat::Pcm24 => 3,
            SampleFormat::Pcm32 => 4,
        }
    }

    /// Reads the sample at `offset`.
    pub fn read(self, data: &[u8], offset: usize) -> (sample: RawSample)
        requires
            offset + sample_size(self) <= data.len(),
        ensures
            sample == read_sample(self, data@, offset as int),
    {
        match self {
            SampleFormat::Float32 => RawSample::Float32(read_u32(data, offset)),
            SampleFormat::Float64 => RawSample::Float64(read_u64(data, offset)),
            SampleFormat::Pcm16 => {
                let stored: i32 = read_u16(data, offset) as i32;
                RawSample::Pcm {
                    value: if stored < 0x8000 {
                        stored
                    } else {
                        stored - 0x1_0000
                    },
                    scale: 15,
                }
            },
            SampleFormat::Pcm24 => {
                let stored: i32 = read_u16(data, offset) as i32 + 0x1_0000 * (
                data[offset + 2] as i32);
                RawSample::Pcm {
                    value: if stored < 0x80_0000 {
                        stored
                    } else {
                        stored - 0x100_0000
                    },
                    scale: 23,
                }
            },
            SampleFormat::Pcm32 => {
                let stored: i64 = read_u32(data, offset) as i64;
                RawSample::Pcm {
                    value: (if stored < 0x8000_0000 {
                        stored
                    } else {
                        stored - 0x1_0000_0000
                    }) as i32,
                    scale: 31,
                }
            },
        }
    }
}

/// Where the sample of a channel stands in a frame.
pub open spec fn sample_offset(info: FormatInfo, frame: int, channel: int) -> int {
    frame * info.block_align + channel * (info.block_align as int / info.channels as int)
}

/// A format whose samples fit into their frames.
pub open spec fn is_consistent(info: FormatInfo) -> bool {
    &&& 0 < info.channels <= 0xffff
    &&& 0 < info.block_align <= 0xffff
    &&& sample_size(info.sample_format) <= info.block_align as int / info.channels as int
}

impl FormatInfo {
    /// Tells whether the samples of this format fit into their frames.
    pub fn consistent(&self) -> (consistent: bool)
        ensures
            consistent == is_consistent(*self),
    {
        self.channels > 0 && self.channels <= 0xffff && self.block_align > 0 && self.block_align
            <= 0xffff && self.sample_format.size() <= self.block_align / self.channels
    }

    /// The samples of one frame of a packet, channel by channel.
    pub fn frame_samples(&self, data: &[u8], frame: usize) -> (samples: Vec<RawSample>)
        requires
            is_consistent(*self),
            (frame + 1) * self.block_align <= data.len(),
        ensures
            samples@.len() == self.channels,
            forall|channel: int|
                0 <= channel < self.channels ==> #[trigger] samples@[channel] == read_sample(
                    self.sample_format,
                    data@,
                    sample_offset(*self, frame as int, channel),
                ),
    {
        let mut samples: Vec<RawSample> = Vec::new();
        let width: usize = self.block_align / self.channels;
        proof {
            assert((frame + 1) * self.block_align == frame * self.block_align + self.block_align)
                by (nonlinear_arith);
            assert(0 <= frame * self.block_align) by (nonlinear_arith)
                requires
                    0 <= frame,
                    0 <= self.block_align,
            ;
        }
        let start: usize = frame * self.block_align;
        let mut channel: usize = 0;
        while channel < self.channels
            invariant
                is_consistent(*self),
                width == self.block_align as int / self.channels as int,
                start == frame * self.block_align,
                start + self.block_align <= data.len(),
                channel <= self.channels,
                samples@.len() == channel,
                forall|c: int|
                    0 <= c < channel ==> #[trigger] samples@[c] == read_sample(
                        self.sample_format,
                        data@,
                        sample_offset(*self, frame as int, c),
                    ),
            decreases self.channels - channel,
        {
            proof {
                vstd::arithmetic::div_mod::lemma_fundamental_div_mod(
                    self.block_align as int,
                    self.channels as int,
                );
                assert(0 <= channel * width && channel * width + width <= self.channels * width)
                    by (nonlinear_arith)
                    requires
                        0 <= channel < self.channels,
                        0 <= width,
                ;
            }
            samples.push(self.sample_format.read(data, start + channel * width));
            channel = channel + 1;
        }
        samples
    }
}

/// The last samples.
#[derive(Debug)]
pub struct SampleRing {
    pub samples: Vec<u32>,
    pub cursor: usize,
    pub filled: usize,
}

impl SampleRing {
    /// The ring has room for all samples of a spectrum and is filled from its start.
    pub open spec fn wf(self) -> bool {
        &&& self.samples@.len() == FFT_SIZE
        &&& self.cursor < FFT_SIZE
        &&& self.filled <= FFT_SIZE
        &&& self.filled < FFT_SIZE ==> self.cursor == self.filled
    }

    /// The samples that are kept, the oldest first.
    pub open spec fn kept(self) -> Seq<u32> {
        if self.filled < FFT_SIZE {
            self.samples@.take(self.filled as int)
        } else {
            self.samples@.skip(self.cursor as int) + self.samples@.take(self.cursor as int)
        }
    }

    /// A ring without samples.
    pub fn new() -> (ring: SampleRing)
        ensures
            ring.wf(),
            ring.kept().len() == 0,
    {
        let mut samples: Vec<u32> = Vec::new();
        let mut i: usize = 0;
        while i < FFT_SIZE
            invariant
                i <= FFT_SIZE,
                samples@.len() == i,
            decreases FFT_SIZE - i,
        {
            samples.push(0);
            i = i + 1;
        }
        SampleRing { samples, cursor: 0, filled: 0 }
    }

    /// Adds a sample; the oldest goes if there is no room.
    pub fn push(&mut self, sample: u32)
        requires
            old(self).wf(),
        ensures
            final(self).wf(),
            final(self).kept() == if old(self).kept().len() < FFT_SIZE {
                old(self).kept().push(sample)
            } else {
                old(self).kept().skip(1).push(sample)
            },
    {
        let ghost before = *self;
        self.samples.set(self.cursor, sample);
        self.cursor = (self.cursor + 1) % FFT_SIZE;
        if self.filled < FFT_SIZE {
            self.filled = self.filled + 1;
        }
        proof {
            if before.filled < FFT_SIZE {
                assert(self.kept() =~= before.kept().push(sample));
            } else {
                assert(self.kept() =~= before.kept().skip(1).push(sample));
            }
        }
    }

    /// The samples for a spectrum, the oldest first; silence stands for those that are missing.
    pub fn ordered(&self) -> (ordered: Vec<u32>)
        requires
            self.wf(),
        ensures
            ordered@.len() == FFT_SIZE,
            ordered@ == Seq::new((FFT_SIZE - self.kept().len()) as nat, |i: int| 0u32)
                + self.kept(),
    {
        let mut ordered: Vec<u32> = Vec::new();
        let missing: usize = FFT_SIZE - self.filled;
        let mut i: usize = 0;
        while i < FFT_SIZE
            invariant
                self.wf(),
                missing == FFT_SIZE - self.filled,
                i <= FFT_SIZE,
                ordered@.len() == i,
                forall|j: int|
                    0 <= j < i ==> #[trigger] ordered@[j] == if j < missing {
                        0
                    } else if self.filled < FFT_SIZE {
                        self.samples@[j - missing]
                    } else {
                        self.samples@[(self.cursor + j) % FFT_SIZE as int]
                    },
            decreases FFT_SIZE - i,
        {
            let sample: u32 = if i < missing {
                0
            } else if self.filled < FFT_SIZE {
                self.samples[i - missing]
            } else {
                self.samples[(self.cursor + i) % FFT_SIZE]
            };
            ordered.push(sample);
            i = i + 1;
        }
        proof {
            assert(ordered@ =~= Seq::new(
                (FFT_SIZE - self.kept().len()) as nat,
                |i: int| 0u32,
            ) + self.kept());
        }
        ordered
    }
}

/// The first bin of the spectrum: the lowest that reaches 40 Hz, but not the constant part.
pub open spec fn first_bin(sample_rate: int) -> int {
    (40 * FFT_SIZE + sample_rate - 1) / sample_rate
}

/// The bin behind the last one of the spectrum: the one behind 16 kHz, but no more than half of all.
pub open spec fn end_bin(sample_rate: int) -> int {
    if sample_rate < 32_000 {
        512
    } else if 16_000 * FFT_SIZE / sample_rate + 1 < 512 {
        16_000 * FFT_SIZE / sample_rate + 1
    } else {
        512
    }
}

/// Every band can have a bin at this rate.
pub open spec fn is_usable_rate(sample_rate: int) -> bool {
    sample_rate > 0 && first_bin(sample_rate) + BAND_COUNT <= end_bin(sample_rate)
}

/// The bin behind band `band`, if `boundaries` are the bins where the bands should end: as near to
/// that as leaves a bin for this band and for each one behind it.
pub open spec fn band_end(boundaries: Seq<usize>, first: int, end: int, band: int) -> int
    decreases band + 1,
{
    let start = if band <= 0 {
        first
    } else {
        band_end(boundaries, first, end, band - 1)
    };
    let desired = if band == BAND_COUNT - 1 {
        end
    } else {
        boundaries[band] as int
    };
    if desired < start + 1 {
        start + 1
    } else if desired > end - (BAND_COUNT - 1 - band) {
        end - (BAND_COUNT - 1 - band)
    } else {
        desired
    }
}

/// The first bin of band `band`.
pub open spec fn band_start(boundaries: Seq<usize>, first: int, end: int, band: int) -> int {
    if band <= 0 {
        first
    } else {
        band_end(boundaries, first, end, band - 1)
    }
}

/// Every band has a bin, and leaves one for each band behind it.
proof fn lemma_band_end(boundaries: Seq<usize>, first: int, end: int, band: int)
    requires
        first + BAND_COUNT <= end,
        0 <= band < BAND_COUNT,
    ensures
        band_start(boundaries, first, end, band) < band_end(boundaries, first, end, band) <= end - (
        BAND_COUNT - 1 - band),
        first + band <= band_start(boundaries, first, end, band),
    decreases band,
{
    if band > 0 {
        lemma_band_end(boundaries, first, end, band - 1);
    }
}

/// The first bin, and the bin behind the last one, at a rate.
fn bin_limits(sample_rate: u32) -> (limits: (usize, usize))
    requires
        is_usable_rate(sample_rate as int),
    ensures
        limits.0 == first_bin(sample_rate as int),
        limits.1 == end_bin(sample_rate as int),
        limits.1 <= 512,
{
    let rate: u64 = sample_rate as u64;
    let first: u64 = (40 * 1024 + rate - 1) / rate;
    let bins: u64 = 16_000 * 1024 / rate + 1;
    let end: u64 = if rate < 32_000 || bins >= 512 {
        512
    } else {
        bins
    };
    (first as usize, end as usize)
}

/// Tells whether every band can have a bin at this rate.
pub fn usable_rate(sample_rate: u32) -> (usable: bool)
    ensures
        usable == is_usable_rate(sample_rate as int),
{
    if sample_rate == 0 {
        return false;
    }
    let rate: u64 = sample_rate as u64;
    let first: u64 = (40 * 1024 + rate - 1) / rate;
    let bins: u64 = 16_000 * 1024 / rate + 1;
    let end: u64 = if rate < 32_000 || bins >= 512 {
        512
    } else {
        bins
    };
    first + 16 <= end
}

/// The bins of each band: the first one and the one behind the last.  `boundaries` are the bins where
/// the bands should end.
pub fn band_bin_ranges(sample_rate: u32, boundaries: &[usize; 16]) -> (ranges: Vec<(usize, usize)>)
    requires
        is_usable_rate(sample_rate as int),
    ensures
        ranges@.len() == BAND_COUNT,
        forall|band: int| #![trigger ranges@[band]]
            0 <= band < BAND_COUNT ==> {
                &&& ranges@[band].0 == band_start(
                    boundaries@,
                    first_bin(sample_rate as int),
                    end_bin(sample_rate as int),
                    band,
                )
                &&& ranges@[band].1 == band_end(
                    boundaries@,
                    first_bin(sample_rate as int),
                    end_bin(sample_rate as int),
                    band,
                )
            },
{
    let (first, end) = bin_limits(sample_rate);
    let ghost first_int = first as int;
    let ghost end_int = end as int;
    let mut ranges: Vec<(usize, usize)> = Vec::new();
    let mut start: usize = first;
    let mut band: usize = 0;
    while band < BAND_COUNT
        invariant
            band <= BAND_COUNT,
            first + BAND_COUNT <= end <= 512,
            first == first_int,
            end == end_int,
            start == band_start(boundaries@, first_int, end_int, band as int),
            ranges@.len() == band,
            forall|b: int| #![trigger ranges@[b]]
                0 <= b < band ==> {
                    &&& ranges@[b].0 == band_start(boundaries@, first_int, end_int, b)
                    &&& ranges@[b].1 == band_end(boundaries@, first_int, end_int, b)
                },
        decreases BAND_COUNT - band,
    {
        proof {
            lemma_band_end(boundaries@, first_int, end_int, band as int);
        }
        let remaining: usize = BAND_COUNT - 1 - band;
        let desired: usize = if remaining == 0 {
            end
        } else {
            boundaries[band]
        };
        let band_end: usize = if desired < start + 1 {
            start + 1
        } else if desired > end - remaining {
            end - remaining
        } else {
            desired
        };
        ranges.push((start, band_end));
        start = band_end;
        band = band + 1;
    }
    ranges
}

/// Every band has at least one bin, the bands follow on one another without a gap, and together they
/// reach from the first bin to the last: no band is empty, whatever boundaries were asked for.
pub proof fn lemma_bands_share_all_bins(boundaries: Seq<usize>, sample_rate: int, band: int)
    requires
        is_usable_rate(sample_rate),
        0 <= band < BAND_COUNT,
    ensures
        ({
            let first = first_bin(sample_rate);
            let end = end_bin(sample_rate);
            &&& 1 <= first
            &&& end <= FFT_SIZE / 2
            &&& band_start(boundaries, first, end, 0) == first
            &&& band_start(boundaries, first, end, band) < band_end(boundaries, first, end, band)
            &&& band < BAND_COUNT - 1 ==> band_start(boundaries, first, end, band + 1) == band_end(
                boundaries,
                first,
                end,
                band,
            )
            &&& band_end(boundaries, first, end, BAND_COUNT - 1) == end
        }),
{
    let first = first_bin(sample_rate);
    let end = end_bin(sample_rate);
    lemma_band_end(boundaries, first, end, band);
    lemma_band_end(boundaries, first, end, BAND_COUNT - 1);
    vstd::arithmetic::div_mod::lemma_div_is_ordered(
        sample_rate,
        40 * FFT_SIZE + sample_rate - 1,
        sample_rate,
    );
    vstd::arithmetic::div_mod::lemma_div_by_self(sample_rate);
}

/// The bit of `value` that counts `weight`.
pub open spec fn bit(value: int, weight: int) -> int {
    (value / weight) % 2
}

/// A number below 1024 with its ten bits in reverse order.
pub open spec fn reversed(value: int) -> int {
    512 * bit(value, 1) + 256 * bit(value, 2) + 128 * bit(value, 4) + 64 * bit(value, 8) + 32 * bit(
        value,
        16,
    ) + 16 * bit(value, 32) + 8 * bit(value, 64) + 4 * bit(value, 128) + 2 * bit(value, 256) + bit(
        value,
        512,
    )
}

fn find_reversed(value: usize) -> (result: usize)
    requires
        value < FFT_SIZE,
    ensures
        result == reversed(value as int),
        result < FFT_SIZE,
{
    512 * (value % 2) + 256 * (value / 2 % 2) + 128 * (value / 4 % 2) + 64 * (value / 8 % 2) + 32 * (
    value / 16 % 2) + 16 * (value / 32 % 2) + 8 * (value / 64 % 2) + 4 * (value / 128 % 2) + 2 * (
    value / 256 % 2) + value / 512 % 2
}

/// Reversing the bits of a number twice gives the number, and no two numbers have the same reverse.
pub proof fn lemma_reversed_twice(value: int)
    requires
        0 <= value < FFT_SIZE,
    ensures
        0 <= reversed(value) < FFT_SIZE,
        reversed(reversed(value)) == value,
{
    let v = value as u32;
    let r = reversed_word(v);
    assert(reversed_word(r) == v && r < 1024) by (bit_vector)
        requires
            v < 1024,
            r == reversed_word(v),
    ;
    lemma_reversed_word(v);
    lemma_reversed_word(r);
}

spec fn reversed_word(v: u32) -> u32 {
    ((v & 1) << 9) | ((v & 2) << 7) | ((v & 4) << 5) | ((v & 8) << 3) | ((v & 16) << 1) | ((v & 32)
        >> 1) | ((v & 64) >> 3) | ((v & 128) >> 5) | ((v & 256) >> 7) | ((v & 512) >> 9)
}

proof fn lemma_reversed_word(v: u32)
    requires
        v < 1024,
    ensures
        reversed_word(v) == reversed(v as int),
{
    let r = reversed_word(v);
    assert(r == 512 * (v % 2) + 256 * (v / 2 % 2) + 128 * (v / 4 % 2) + 64 * (v / 8 % 2) + 32 * (v
        / 16 % 2) + 16 * (v / 32 % 2) + 8 * (v / 64 % 2) + 4 * (v / 128 % 2) + 2 * (v / 256 % 2) + v
        / 512 % 2) by (bit_vector)
        requires
            v < 1024,
            r == reversed_word(v),
    ;
}

/// The pairs of the first `count` positions that change places when samples are put into the order of
/// reversed bits.
pub open spec fn swaps(count: int) -> Seq<(usize, usize)>
    decreases count,
{
    if count <= 0 {
        seq![]
    } else if count - 1 < reversed(count - 1) {
        swaps(count - 1).push(((count - 1) as usize, reversed(count - 1) as usize))
    } else {
        swaps(count - 1)
    }
}

/// The pairs of positions that change places when samples are put into the order of reversed bits.
pub fn reversal_swaps() -> (pairs: Vec<(usize, usize)>)
    ensures
        pairs@ == swaps(FFT_SIZE as int),
{
    let mut pairs: Vec<(usize, usize)> = Vec::new();
    let mut index: usize = 0;
    while index < FFT_SIZE
        invariant
            index <= FFT_SIZE,
            pairs@ == swaps(index as int),
        decreases FFT_SIZE - index,
    {
        let reverse: usize = find_reversed(index);
        if index < reverse {
            pairs.push((index, reverse));
        }
        index = index + 1;
    }
    pairs
}

/// What is done next to empty the buffer of captured sound.
#[derive(Clone, Copy, Debug, PartialEq, Eq, Structural)]
pub enum DrainStep {
    /// Ask for the size of the next packet.
    NextSize,
    /// Take the packet.
    TakePacket,
    /// Add this number of frames to the samples; silence if `silent`.
    Mix { frames: u32, silent: bool },
    /// Give the packet of this number of frames back.
    Release { frames: u32 },
    /// The buffer is empty.
    Done,
    /// The buffer could not be read, for this reason.
    Failed(u32),
}

/// What came of a step of emptying the buffer.
#[derive(Clone, Copy, Debug, PartialEq, Eq, Structural)]
pub enum DrainEvent {
    /// The size of the next packet, and the result of asking for it.
    Size { result: i32, frames: u32 },
    /// The packet, and the result of taking it.
    Packet { result: i32, frames: u32, flags: u32 },
    /// The frames have been added.
    Mixed,
    /// The result of giving the packet back.
    Released { result: i32 },
}

/// The step after `step` once `event` has come of it.
pub open spec fn drain_next(step: DrainStep, event: DrainEvent) -> DrainStep {
    match (step, event) {
        (DrainStep::NextSize, DrainEvent::Size { result, frames }) => if result < 0 {
            DrainStep::Failed(failure_code(result))
        } else if frames == 0 {
            DrainStep::Done
        } else {
            DrainStep::TakePacket
        },
        (DrainStep::TakePacket, DrainEvent::Packet { result, frames, flags }) => if result < 0 {
            DrainStep::Failed(failure_code(result))
        } else {
            DrainStep::Mix { frames, silent: (flags as int / 2) % 2 == 1 }
        },
        (DrainStep::Mix { frames, .. }, DrainEvent::Mixed) => DrainStep::Release { frames },
        (DrainStep::Release { .. }, DrainEvent::Released { result }) => if result < 0 {
            DrainStep::Failed(failure_code(result))
        } else {
            DrainStep::NextSize
        },
        _ => step,
    }
}

/// Begins to empty the buffer of captured sound.
pub fn drain_packets() -> (step: DrainStep)
    ensures
        step == DrainStep::NextSize,
{
    DrainStep::NextSize
}

impl DrainStep {
    /// Goes on once `event` has come of this step; an event that does not belong to the step changes
    /// nothing.
    pub fn next(self, event: DrainEvent) -> (next: DrainStep)
        ensures
            next == drain_next(self, event),
    {
        match (self, event) {
            (DrainStep::NextSize, DrainEvent::Size { result, frames }) => {
                match check_hresult(result) {
                    Err(code) => DrainStep::Failed(code),
                    Ok(()) => if frames == 0 {
                        DrainStep::Done
                    } else {
                        DrainStep::TakePacket
                    },
                }
            },
            (DrainStep::TakePacket, DrainEvent::Packet { result, frames, flags }) => {
                match check_hresult(result) {
                    Err(code) => DrainStep::Failed(code),
                    Ok(()) => {
                        proof {
                            assert((flags & 2 != 0) == ((flags / 2) % 2 == 1)) by (bit_vector);
                        }
                        DrainStep::Mix { frames, silent: flags & BUFFER_SILENT != 0 }
                    },
                }
            },
            (DrainStep::Mix { frames, .. }, DrainEvent::Mixed) => DrainStep::Release { frames },
            (DrainStep::Release { .. }, DrainEvent::Released { result }) => {
                match check_hresult(result) {
                    Err(code) => DrainStep::Failed(code),
                    Ok(()) => DrainStep::NextSize,
                }
            },
            _ => self,
        }
    }
}

/// A packet that has been taken is given back, with the number of frames that it had.
pub proof fn lemma_packets_are_given_back(step: DrainStep, event: DrainEvent)
    ensures
        step matches DrainStep::Mix { frames, .. } ==> drain_next(step, event) == step
            || drain_next(step, event) == (DrainStep::Release { frames }),
        drain_next(step, event) is Release ==> step is Mix || step is Release,
{
}

/// Why the spectrum could not be opened.
#[derive(Clone, Copy, Debug, PartialEq, Eq, Structural)]
pub enum AudioError {
    /// A call failed with this result.
    Call { step: OpenCall, code: u32 },
    /// A call gave no interface.
    NullInterface(OpenCall),
    /// The format cannot be used.
    Format(FormatError),
}

/// The calls by which the spectrum is opened.
#[derive(Clone, Copy, Debug, PartialEq, Eq, Structural)]
pub enum OpenCall {
    Apartment,
    Enumerator,
    Device,
    Client,
    MixFormat,
    Initialize,
    Capture,
    Start,
}

/// What is done next to open the spectrum.
#[derive(Clone, Copy, Debug, PartialEq, Eq, Structural)]
pub enum OpenStep {
    /// Make this call.
    Call(OpenCall),
    /// Read the description of the format.
    ReadFormat,
    /// Initialise the client, with a format that can be used.
    Initialize(FormatInfo),
    /// Initialise the client, although its format cannot be used.
    InitializeAnyway(FormatError),
    /// Free the description of the format, and go on.
    FreeFormat(FormatInfo),
    /// Free the description of the format, and fail.
    FreeFormatAfter(AudioError),
    /// Get the capture interface.
    Capture(FormatInfo),
    /// Start the client.
    Start(FormatInfo),
    /// The spectrum is open.
    Open(FormatInfo),
    /// The spectrum could not be opened.
    Failed(AudioError),
}

/// What came of a step of opening the spectrum.
#[derive(Clone, Copy, Debug, PartialEq, Eq, Structural)]
pub enum OpenEvent {
    /// The result of a call, and whether it gave no interface.
    Called { result: i32, null: bool },
    /// The format.
    Format(FormatInfo),
    /// The format cannot be used.
    BadFormat(FormatError),
    /// The description of the format has been freed.
    Freed,
}

/// What follows on a call that gives an interface.
pub open spec fn after_call(call: OpenCall, result: i32, null: bool, next: OpenStep) -> OpenStep {
    if result < 0 {
        OpenStep::Failed(AudioError::Call { step: call, code: failure_code(result) })
    } else if null {
        OpenStep::Failed(AudioError::NullInterface(call))
    } else {
        next
    }
}

/// The step after `step` once `event` has come of it.
pub open spec fn open_next(step: OpenStep, event: OpenEvent) -> OpenStep {
    match (step, event) {
        (OpenStep::Call(call), OpenEvent::Called { result, null }) => match call {
            OpenCall::Apartment => after_call(
                call,
                result,
                false,
                OpenStep::Call(OpenCall::Enumerator),
            ),
            OpenCall::Enumerator => after_call(
                call,
                result,
                null,
                OpenStep::Call(OpenCall::Device),
            ),
            OpenCall::Device => after_call(call, result, null, OpenStep::Call(OpenCall::Client)),
            OpenCall::Client => after_call(call, result, null, OpenStep::Call(OpenCall::MixFormat)),
            OpenCall::MixFormat => after_call(call, result, null, OpenStep::ReadFormat),
            _ => step,
        },
        (OpenStep::ReadFormat, OpenEvent::Format(info)) => OpenStep::Initialize(info),
        (OpenStep::ReadFormat, OpenEvent::BadFormat(error)) => OpenStep::InitializeAnyway(error),
        (OpenStep::Initialize(info), OpenEvent::Called { result, .. }) => if result < 0 {
            OpenStep::FreeFormatAfter(
                AudioError::Call { step: OpenCall::Initialize, code: failure_code(result) },
            )
        } else {
            OpenStep::FreeFormat(info)
        },
        (OpenStep::InitializeAnyway(error), OpenEvent::Called { .. }) =>
            OpenStep::FreeFormatAfter(AudioError::Format(error)),
        (OpenStep::FreeFormat(info), OpenEvent::Freed) => OpenStep::Capture(info),
        (OpenStep::FreeFormatAfter(error), OpenEvent::Freed) => OpenStep::Failed(error),
        (OpenStep::Capture(info), OpenEvent::Called { result, null }) => after_call(
            OpenCall::Capture,
            result,
            null,
            OpenStep::Start(info),
        ),
        (OpenStep::Start(info), OpenEvent::Called { result, .. }) => after_call(
            OpenCall::Start,
            result,
            false,
            OpenStep::Open(info),
        ),
        _ => step,
    }
}

/// The spectrum of what is played.
#[derive(Debug)]
pub struct OutputSpectrum {
    /// How the samples come.
    pub format: FormatInfo,
    /// The last samples.
    pub ring: SampleRing,
}

impl OutputSpectrum {
    /// Begins to open the spectrum.
    pub fn open() -> (step: OpenStep)
        ensures
            step == OpenStep::Call(OpenCall::Apartment),
    {
        OpenStep::Call(OpenCall::Apartment)
    }

    /// A spectrum that has just been opened.
    pub fn new(format: FormatInfo) -> (spectrum: OutputSpectrum)
        ensures
            spectrum.format == format,
            spectrum.ring.wf(),
            spectrum.ring.kept().len() == 0,
    {
        OutputSpectrum { format, ring: SampleRing::new() }
    }

    /// The samples that the bands are computed from, the oldest first; silence stands for those that
    /// are missing.
    pub fn bands(&self) -> (ordered: Vec<u32>)
        requires
            self.ring.wf(),
        ensures
            ordered@ == Seq::new((FFT_SIZE - self.ring.kept().len()) as nat, |i: int| 0u32)
                + self.ring.kept(),
    {
        self.ring.ordered()
    }
}

fn check_call(call: OpenCall, result: i32, null: bool, next: OpenStep) -> (step: OpenStep)
    ensures
        step == after_call(call, result, null, next),
{
    match check_hresult(result) {
        Err(code) => OpenStep::Failed(AudioError::Call { step: call, code }),
        Ok(()) => if null {
            OpenStep::Failed(AudioError::NullInterface(call))
        } else {
            next
        },
    }
}

impl OpenStep {
    /// Goes on once `event` has come of this step; an event that does not belong to the step changes
    /// nothing.
    pub fn next(self, event: OpenEvent) -> (next: OpenStep)
        ensures
            next == open_next(self, event),
    {
        match (self, event) {
            (OpenStep::Call(call), OpenEvent::Called { result, null }) => {
                match call {
                    OpenCall::Apartment => check_call(
                        call,
                        result,
                        false,
                        OpenStep::Call(OpenCall::Enumerator),
                    ),
                    OpenCall::Enumerator => check_call(
                        call,
                        result,
                        null,
                        OpenStep::Call(OpenCall::Device),
                    ),
                    OpenCall::Device => check_call(
                        call,
                        result,
                        null,
                        OpenStep::Call(OpenCall::Client),
                    ),
                    OpenCall::Client => check_call(
                        call,
                        result,
                        null,
                        OpenStep::Call(OpenCall::MixFormat),
                    ),
                    OpenCall::MixFormat => check_call(call, result, null, OpenStep::ReadFormat),
                    _ => self,
                }
            },
            (OpenStep::ReadFormat, OpenEvent::Format(info)) => OpenStep::Initialize(info),
            (OpenStep::ReadFormat, OpenEvent::BadFormat(error)) => {
                OpenStep::InitializeAnyway(error)
            },
            (OpenStep::Initialize(info), OpenEvent::Called { result, .. }) => {
                match check_hresult(result) {
                    Err(code) => OpenStep::FreeFormatAfter(
                        AudioError::Call { step: OpenCall::Initialize, code },
                    ),
                    Ok(()) => OpenStep::FreeFormat(info),
                }
            },
            (OpenStep::InitializeAnyway(error), OpenEvent::Called { .. }) => {
                OpenStep::FreeFormatAfter(AudioError::Format(error))
            },
            (OpenStep::FreeFormat(info), OpenEvent::Freed) => OpenStep::Capture(info),
            (OpenStep::FreeFormatAfter(error), OpenEvent::Freed) => OpenStep::Failed(error),
            (OpenStep::Capture(info), OpenEvent::Called { result, null }) => {
                check_call(OpenCall::Capture, result, null, OpenStep::Start(info))
            },
            (OpenStep::Start(info), OpenEvent::Called { result, .. }) => {
                check_call(OpenCall::Start, result, false, OpenStep::Open(info))
            },
            _ => self,
        }
    }
}

/// The description of the format is allocated at this step.
pub open spec fn format_allocated(step: OpenStep) -> bool {
    step is ReadFormat || step is Initialize || step is InitializeAnyway || step is FreeFormat
        || step is FreeFormatAfter
}

/// The description of the format is freed, whether or not the spectrum can be opened.
pub proof fn lemma_format_is_freed(step: OpenStep, event: OpenEvent)
    requires
        format_allocated(step),
    ensures
        format_allocated(open_next(step, event)) || step is FreeFormat || step is FreeFormatAfter,
{
}

/// A description of samples that are stored as they are is read field by field: the kind, the number
/// of channels, a rate of four bytes, the bytes of a frame and the bits of a sample.
pub proof fn lemma_plain_format_is_read_back(
    data: &[u8],
    read: Result<FormatInfo, FormatError>,
    tag: int,
    channels: int,
    sample_rate: int,
    block_align: int,
    bits: int,
)
    requires
        call_ensures(FormatInfo::from_wave_format, (data,), read),
        data@.len() >= 18,
        data@[0] + 256 * data@[1] == tag,
        data@[2] + 256 * data@[3] == channels,
        data@[4] + 256 * data@[5] + 65_536 * data@[6] + 16_777_216 * data@[7] == sample_rate,
        data@[12] + 256 * data@[13] == block_align,
        data@[14] + 256 * data@[15] == bits,
        channels > 0,
        block_align > 0,
        tag == 1 && (bits == 16 || bits == 24 || bits == 32) || tag == 3 && (bits == 32 || bits == 64),
    ensures
        read matches Ok(info) && info.channels == channels && info.sample_rate == sample_rate
            && info.block_align == block_align && info.sample_format == if tag == 3 {
            if bits == 32 {
                SampleFormat::Float32
            } else {
                SampleFormat::Float64
            }
        } else if bits == 16 {
            SampleFormat::Pcm16
        } else if bits == 24 {
            SampleFormat::Pcm24
        } else {
            SampleFormat::Pcm32
        },
{
}

/// In an extended description the kind stands in the extension, at 24; everything else stands where it
/// does without one.
pub proof fn lemma_extended_format_is_read_back(
    data: &[u8],
    read: Result<FormatInfo, FormatError>,
    plain: &[u8],
    plain_read: Result<FormatInfo, FormatError>,
)
    requires
        call_ensures(FormatInfo::from_wave_format, (data,), read),
        call_ensures(FormatInfo::from_wave_format, (plain,), plain_read),
        data@.len() >= 28,
        data@[0] == 254 && data@[1] == 255,
        data@[16] + 256 * data@[17] >= 22,
        plain@.len() >= 18,
        plain@[0] == data@[24] && plain@[1] == data@[25],
        !(plain@[0] == 254 && plain@[1] == 255),
        forall|i: int| 2 <= i < 16 ==> #[trigger] plain@[i] == data@[i],
    ensures
        read == plain_read,
{
    assert(plain@[2] == data@[2] && plain@[3] == data@[3] && plain@[4] == data@[4] && plain@[5]
        == data@[5] && plain@[6] == data@[6] && plain@[7] == data@[7] && plain@[12] == data@[12]
        && plain@[13] == data@[13] && plain@[14] == data@[14] && plain@[15] == data@[15]);
}

/// A description is refused if and only if it is cut off, has no channels, has frames without bytes,
/// has too short an extension, or names a kind that is not known.
pub proof fn lemma_unusable_formats_are_refused(data: &[u8], read: Result<FormatInfo, FormatError>)
    requires
        call_ensures(FormatInfo::from_wave_format, (data,), read),
    ensures
        data@.len() < 18 ==> read matches Err(FormatError::Truncated),
        data@.len() >= 18 ==> {
            let extended = data@[0] == 254 && data@[1] == 255;
            let short = data@[16] + 256 * data@[17] < 22;
            let tag = if extended {
                data@[24] + 256 * data@[25]
            } else {
                data@[0] + 256 * data@[1]
            };
            let bits = data@[14] + 256 * data@[15];
            let known = tag == 1 && (bits == 16 || bits == 24 || bits == 32) || tag == 3 && (bits
                == 32 || bits == 64);
            if data@[2] == 0 && data@[3] == 0 {
                read matches Err(FormatError::NoChannels)
            } else if data@[12] == 0 && data@[13] == 0 {
                read matches Err(FormatError::NoFrame)
            } else if extended && short {
                read matches Err(FormatError::ShortExtension)
            } else if extended && data@.len() < 28 {
                read matches Err(FormatError::Truncated)
            } else if known {
                read is Ok
            } else {
                read matches Err(FormatError::Unsupported { tag: found, bits: size }) && found
                    == tag && size == bits
            }
        },
{
}

/// A sample is the number that its bytes are, low byte first; whole numbers are signed, and a fraction
/// of two to the power of one less than their bits.
pub proof fn lemma_sample_is_its_bytes(
    format: SampleFormat,
    data: &[u8],
    offset: usize,
    sample: RawSample,
    size: usize,
)
    requires
        call_ensures(SampleFormat::read, (format, data, offset), sample),
        call_ensures(SampleFormat::size, (format,), size),
        offset + size <= data@.len(),
    ensures
        ({
            let b = |i: int| data@[offset + i] as int;
            match format {
                SampleFormat::Float32 => size == 4 && (sample matches RawSample::Float32(bits)
                    && bits == b(0) + 0x100 * b(1) + 0x1_0000 * b(2) + 0x100_0000 * b(3)),
                SampleFormat::Float64 => size == 8 && (sample matches RawSample::Float64(bits)
                    && bits == b(0) + 0x100 * b(1) + 0x1_0000 * b(2) + 0x100_0000 * b(3)
                    + 0x1_0000_0000 * b(4) + 0x100_0000_0000 * b(5) + 0x1_0000_0000_0000 * b(6)
                    + 0x100_0000_0000_0000 * b(7)),
                SampleFormat::Pcm16 => size == 2 && (sample matches RawSample::Pcm { value, scale }
                    && scale == 15 && (value - b(0)) % 0x100 == 0 && value == b(0) + 0x100 * b(1)
                    - 0x1_0000 * (b(1) / 128)),
                SampleFormat::Pcm24 => size == 3 && (sample matches RawSample::Pcm { value, scale }
                    && scale == 23 && value == b(0) + 0x100 * b(1) + 0x1_0000 * b(2) - 0x100_0000 * (
                b(2) / 128)),
                SampleFormat::Pcm32 => size == 4 && (sample matches RawSample::Pcm { value, scale }
                    && scale == 31 && value == b(0) + 0x100 * b(1) + 0x1_0000 * b(2) + 0x100_0000
                    * b(3) - 0x1_0000_0000 * (b(3) / 128)),
            }
        }),
{
}

/// The channels of a frame follow on one another at equal distances, and the frames do so, too: the
/// sample of a channel is what is read at its place.
pub proof fn lemma_channels_stand_side_by_side(
    info: &FormatInfo,
    data: &[u8],
    frame: usize,
    samples: Vec<RawSample>,
    channel: int,
    width: int,
    offset: usize,
    sample: RawSample,
)
    requires
        is_consistent(*info),
        (frame + 1) * info.block_align <= data@.len(),
        call_ensures(FormatInfo::frame_samples, (info, data, frame), samples),
        0 <= channel < info.channels,
        width * info.channels <= info.block_align < (width + 1) * info.channels,
        offset == frame * info.block_align + channel * width,
        call_ensures(SampleFormat::read, (info.sample_format, data, offset), sample),
    ensures
        samples@.len() == info.channels,
        samples@[channel] == sample,
{
    let align = info.block_align as int;
    let count = info.channels as int;
    assert((width + 1) * count == width * count + count) by (nonlinear_arith);
    assert(width == align / count) by {
        vstd::arithmetic::div_mod::lemma_fundamental_div_mod_converse(
            align,
            count,
            width,
            align - width * count,
        );
    }
}

/// A format is consistent if and only if every channel has room for its sample.
pub proof fn lemma_consistent_formats_have_room(info: &FormatInfo, consistent: bool, size: usize)
    requires
        call_ensures(FormatInfo::consistent, (info,), consistent),
        call_ensures(SampleFormat::size, (info.sample_format,), size),
        info.channels <= 0xffff,
        info.block_align <= 0xffff,
    ensures
        consistent == (info.channels > 0 && info.channels * size <= info.block_align),
{
    let align = info.block_align as int;
    let count = info.channels as int;
    if count > 0 {
        vstd::arithmetic::div_mod::lemma_fundamental_div_mod(align, count);
        let width = align / count;
        assert(size <= width <==> count * size <= align) by (nonlinear_arith)
            requires
                align == count * width + align % count,
                0 <= align % count < count,
                size >= 0,
        ;
        assert(count * size > 0) by (nonlinear_arith)
            requires
                count > 0,
                size > 0,
        ;
    }
}

/// After a sample is added, it is the last of the samples for a spectrum, and all others have moved on
/// by one place.
pub proof fn lemma_samples_move_on(
    ring: &mut SampleRing,
    sample: u32,
    before: Vec<u32>,
    after: Vec<u32>,
    i: int,
)
    requires
        old(ring).wf(),
        call_ensures(SampleRing::ordered, (&*old(ring),), before),
        call_ensures(SampleRing::push, (ring, sample), ()),
        call_ensures(SampleRing::ordered, (&*final(ring),), after),
        0 <= i < 1023,
    ensures
        before@.len() == 1024,
        after@.len() == 1024,
        after@[1023] == sample,
        after@[i] == before@[i + 1],
{
}

/// Without samples a spectrum is made of silence.
pub proof fn lemma_ring_starts_silent(ring: SampleRing, ordered: Vec<u32>, i: int)
    requires
        call_ensures(SampleRing::new, (), ring),
        call_ensures(SampleRing::ordered, (&ring,), ordered),
        0 <= i < 1024,
    ensures
        ordered@[i] == 0,
{
}

/// The first bin is the first one that reaches 40 Hz.
proof fn lemma_first_bin(rate: int, first: int)
    requires
        rate > 0,
        (first - 1) * rate < 40_960 <= first * rate,
    ensures
        first_bin(rate) == first,
{
    assert(first * rate - (first - 1) * rate == rate) by (nonlinear_arith);
    vstd::arithmetic::div_mod::lemma_fundamental_div_mod_converse(
        40_960 + rate - 1,
        rate,
        first,
        40_960 + rate - 1 - first * rate,
    );
}

/// The end is the first bin behind 16 kHz, or the middle of all.
proof fn lemma_end_bin(rate: int, end: int)
    requires
        rate > 0,
        1 <= end <= 512,
        (end - 1) * rate <= 16_384_000,
        end < 512 ==> end * rate > 16_384_000,
    ensures
        end_bin(rate) == end,
{
    if rate >= 32_000 {
        let last = 16_384_000int / rate;
        vstd::arithmetic::div_mod::lemma_fundamental_div_mod(16_384_000, rate);
        assert(last >= end - 1) by (nonlinear_arith)
            requires
                rate > 0,
                16_384_000 < rate * last + rate,
                (end - 1) * rate <= 16_384_000,
        ;
        if end < 512 {
            assert(last < end) by (nonlinear_arith)
                requires
                    rate > 0,
                    rate * last <= 16_384_000,
                    end * rate > 16_384_000,
            ;
        }
    } else if end < 512 {
        assert(end * rate <= 511 * 31_999) by (nonlinear_arith)
            requires
                0 < rate <= 31_999,
                1 <= end <= 511,
        ;
    }
}

/// The bands reach from the first bin at 40 Hz or more to the last one at 16 kHz or less, they follow on
/// one another, none is empty, and each ends where it is asked to wherever that leaves a bin for every
/// other band.
pub proof fn lemma_bands_cover_the_spectrum(
    sample_rate: u32,
    boundaries: &[usize; 16],
    ranges: Vec<(usize, usize)>,
    first: int,
    end: int,
    band: int,
)
    requires
        is_usable_rate(sample_rate as int),
        call_ensures(band_bin_ranges, (sample_rate, boundaries), ranges),
        (first - 1) * sample_rate < 40_960 <= first * sample_rate,
        1 <= end <= 512,
        (end - 1) * sample_rate <= 16_384_000,
        end < 512 ==> end * sample_rate > 16_384_000,
        0 <= band < 16,
    ensures
        ranges@.len() == 16,
        ranges@[0].0 == first,
        ranges@[15].1 == end,
        ranges@[band].0 < ranges@[band].1,
        band < 15 ==> ranges@[band + 1].0 == ranges@[band].1,
        band < 15 && ranges@[band].0 < boundaries@[band] <= end - (15 - band) ==> ranges@[band].1
            == boundaries@[band],
        band < 15 && boundaries@[band] <= ranges@[band].0 ==> ranges@[band].1 == ranges@[band].0 + 1,
        band < 15 && boundaries@[band] > end - (15 - band) ==> ranges@[band].1 == end - (15 - band),
{
    lemma_first_bin(sample_rate as int, first);
    lemma_end_bin(sample_rate as int, end);
    lemma_bands_share_all_bins(boundaries@, sample_rate as int, band);
    lemma_band_end(boundaries@, first, end, band);
    assert(ranges@[0].0 == first);
    if band < 15 {
        assert(ranges@[band + 1].0 == ranges@[band].1);
    }
}

/// A rate can be used if and only if there are sixteen bins between 40 Hz and 16 kHz.
pub proof fn lemma_usable_rates_have_room(sample_rate: u32, usable: bool, first: int, end: int)
    requires
        call_ensures(usable_rate, (sample_rate,), usable),
        sample_rate > 0,
        (first - 1) * sample_rate < 40_960 <= first * sample_rate,
        1 <= end <= 512,
        (end - 1) * sample_rate <= 16_384_000,
        end < 512 ==> end * sample_rate > 16_384_000,
    ensures
        usable == (end - first >= 16),
{
    lemma_first_bin(sample_rate as int, first);
    lemma_end_bin(sample_rate as int, end);
}

/// The samples that change places are those whose ten bits, read backwards, give a larger number.
pub proof fn lemma_swaps_reverse_bits(pairs: Vec<(usize, usize)>, v: u32, k: int)
    requires
        call_ensures(reversal_swaps, (), pairs),
        v < 1024,
    ensures
        ({
            let r = ((v & 1) << 9) | ((v & 2) << 7) | ((v & 4) << 5) | ((v & 8) << 3) | ((v & 16) << 1)
                | ((v & 32) >> 1) | ((v & 64) >> 3) | ((v & 128) >> 5) | ((v & 256) >> 7) | ((v
                & 512) >> 9);
            &&& v < r ==> pairs@.contains((v as usize, r as usize))
            &&& 0 <= k < pairs@.len() && pairs@[k].0 == v ==> v < r && pairs@[k].1 == r
        }),
{
    lemma_reversed_word(v);
    lemma_reversed_twice(v as int);
    lemma_swaps(1024, v as int, k);
}

proof fn lemma_swaps(count: int, value: int, k: int)
    requires
        0 <= count <= 1024,
        0 <= value < 1024,
    ensures
        value < count && value < reversed(value) ==> swaps(count).contains(
            (value as usize, reversed(value) as usize),
        ),
        0 <= k < swaps(count).len() && swaps(count)[k].0 == value ==> value < reversed(value)
            && swaps(count)[k].1 == reversed(value),
    decreases count,
{
    if count > 0 {
        lemma_swaps(count - 1, value, k);
        lemma_reversed_twice(count - 1);
        lemma_reversed_twice(value);
        let before = swaps(count - 1);
        let all = swaps(count);
        if count - 1 < reversed(count - 1) {
            if value == count - 1 {
                assert(all[before.len() as int] == (value as usize, reversed(value) as usize));
            } else if value < count && value < reversed(value) {
                let i = choose|i: int|
                    0 <= i < before.len() && before[i] == (
                        value as usize,
                        reversed(value) as usize,
                    );
                assert(all[i] == before[i]);
            }
        }
    }
}

/// Emptying the buffer: a call that fails ends it with the number of the failure, and one that does not
/// goes on, whatever else it returns.  A packet without frames is the end; the second flag of a packet
/// alone tells that it is silent; and as many frames are mixed and given back as were taken.
pub proof fn lemma_buffer_is_emptied(step: DrainStep, event: DrainEvent, next: DrainStep)
    requires
        call_ensures(DrainStep::next, (step, event), next),
    ensures
        step is NextSize ==> (event matches DrainEvent::Size { result, frames } ==> next == if result
            < 0 {
            DrainStep::Failed((result + 0x1_0000_0000) as u32)
        } else if frames == 0 {
            DrainStep::Done
        } else {
            DrainStep::TakePacket
        }),
        step is TakePacket ==> (event matches DrainEvent::Packet { result, frames, flags } ==> if result
            < 0 {
            next == DrainStep::Failed((result + 0x1_0000_0000) as u32)
        } else {
            next matches DrainStep::Mix { frames: mixed, silent } && mixed == frames && silent == (
            flags & 2 != 0)
        }),
        step matches DrainStep::Mix { frames, .. } ==> (event is Mixed ==> next == (
        DrainStep::Release { frames })),
        step is Release ==> (event matches DrainEvent::Released { result } ==> next == if result < 0 {
            DrainStep::Failed((result + 0x1_0000_0000) as u32)
        } else {
            DrainStep::NextSize
        }),
{
    if let DrainEvent::Packet { flags, .. } = event {
        assert((flags & 2 != 0) == ((flags / 2) % 2 == 1)) by (bit_vector);
    }
}

/// The calls by which the spectrum is opened are made one after the other.  Each goes on if its result
/// is not negative and it gives what it should; otherwise the spectrum is not opened, and the error
/// tells which call it was.
pub proof fn lemma_opening_goes_on(call: OpenCall, result: i32, null: bool, next: OpenStep)
    requires
        call_ensures(
            OpenStep::next,
            (OpenStep::Call(call), OpenEvent::Called { result, null }),
            next,
        ),
        !(call is Initialize || call is Capture || call is Start),
    ensures
        result < 0 ==> next == OpenStep::Failed(
            AudioError::Call { step: call, code: (result + 0x1_0000_0000) as u32 },
        ),
        result >= 0 && null && !(call is Apartment) ==> next == OpenStep::Failed(
            AudioError::NullInterface(call),
        ),
        result >= 0 && (!null || call is Apartment) ==> next == match call {
            OpenCall::Apartment => OpenStep::Call(OpenCall::Enumerator),
            OpenCall::Enumerator => OpenStep::Call(OpenCall::Device),
            OpenCall::Device => OpenStep::Call(OpenCall::Client),
            OpenCall::Client => OpenStep::Call(OpenCall::MixFormat),
            _ => OpenStep::ReadFormat,
        },
{
}

/// Once the format is known, the spectrum is opened in it and in no other: the client is initialised,
/// the description of the format is freed, the samples are captured, and the client is started.
pub proof fn lemma_opening_keeps_the_format(
    step: OpenStep,
    result: i32,
    null: bool,
    next: OpenStep,
    freed: OpenStep,
)
    requires
        call_ensures(OpenStep::next, (step, OpenEvent::Called { result, null }), next),
        call_ensures(OpenStep::next, (step, OpenEvent::Freed), freed),
    ensures
        step matches OpenStep::Initialize(info) ==> if result >= 0 {
            next == OpenStep::FreeFormat(info)
        } else {
            next == OpenStep::FreeFormatAfter(
                AudioError::Call {
                    step: OpenCall::Initialize,
                    code: (result + 0x1_0000_0000) as u32,
                },
            )
        },
        step matches OpenStep::InitializeAnyway(error) ==> next == OpenStep::FreeFormatAfter(
            AudioError::Format(error),
        ),
        step matches OpenStep::FreeFormat(info) ==> freed == OpenStep::Capture(info),
        step matches OpenStep::FreeFormatAfter(error) ==> freed == OpenStep::Failed(error),
        step matches OpenStep::Capture(info) ==> if result < 0 {
            next == OpenStep::Failed(
                AudioError::Call { step: OpenCall::Capture, code: (result + 0x1_0000_0000) as u32 },
            )
        } else if null {
            next == OpenStep::Failed(AudioError::NullInterface(OpenCall::Capture))
        } else {
            next == OpenStep::Start(info)
        },
        step matches OpenStep::Start(info) ==> if result < 0 {
            next == OpenStep::Failed(
                AudioError::Call { step: OpenCall::Start, code: (result + 0x1_0000_0000) as u32 },
            )
        } else {
            next == OpenStep::Open(info)
        },
{
}

/// What is read of the format decides how the client is initialised.
pub proof fn lemma_format_is_taken_over(
    info: FormatInfo,
    error: FormatError,
    next: OpenStep,
    bad: OpenStep,
)
    requires
        call_ensures(OpenStep::next, (OpenStep::ReadFormat, OpenEvent::Format(info)), next),
        call_ensures(OpenStep::next, (OpenStep::ReadFormat, OpenEvent::BadFormat(error)), bad),
    ensures
        next == OpenStep::Initialize(info),
        bad == OpenStep::InitializeAnyway(error),
{
}

/// A spectrum is opened from the first call on, keeps its format, and gives what its samples are, in order,
/// the last 1024 of them, with silence before those that there are.
pub proof fn lemma_spectrum_gives_its_samples(
    first: OpenStep,
    drain: DrainStep,
    format: FormatInfo,
    spectrum: OutputSpectrum,
    silent: Vec<u32>,
    filled: &OutputSpectrum,
    ordered: Vec<u32>,
    kept: Vec<u32>,
    i: int,
)
    requires
        call_ensures(OutputSpectrum::open, (), first),
        call_ensures(drain_packets, (), drain),
        call_ensures(OutputSpectrum::new, (format,), spectrum),
        call_ensures(OutputSpectrum::bands, (&spectrum,), silent),
        filled.ring.wf(),
        call_ensures(OutputSpectrum::bands, (filled,), ordered),
        call_ensures(SampleRing::ordered, (&filled.ring,), kept),
        0 <= i < 1024,
    ensures
        first == OpenStep::Call(OpenCall::Apartment),
        drain is NextSize,
        spectrum.format == format,
        silent@.len() == 1024 && silent@[i] == 0,
        ordered@.len() == 1024,
        ordered@ == kept@,
{
}

} // verus!
