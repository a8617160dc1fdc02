use std::f32::consts::PI;

use looppanel::audio::{
    band_bin_ranges, drain_packets, reversal_swaps, usable_rate, AudioError, DrainEvent, DrainStep,
    FormatError, FormatInfo, OpenCall, OpenEvent, OpenStep, OutputSpectrum, RawSample, SampleFormat,
    SampleRing, BAND_COUNT, FFT_SIZE,
};

/// The bins where the bands should end, spread evenly over the logarithm of the frequency.
fn boundaries(sample_rate: u32) -> [usize; BAND_COUNT] {
    let bin_width = sample_rate as f32 / FFT_SIZE as f32;
    let first = (40.0 / bin_width).ceil().max(1.0);
    let maximum = 16_000.0_f32.min(sample_rate as f32 / 2.0);
    let end = ((maximum / bin_width).floor() as usize + 1).min(FFT_SIZE / 2);
    let range = (end as f32 / first).ln();
    let mut boundaries = [end; BAND_COUNT];
    for (band, boundary) in boundaries.iter_mut().enumerate().take(BAND_COUNT - 1) {
        *boundary = (first * (range * (band + 1) as f32 / BAND_COUNT as f32).exp()).round() as usize;
    }
    boundaries
}

/// The levels of the bands, each relative to a full-scale tone.  The program has a transform of its own,
/// in floating point; this one shows that the exchanged samples and the bins of the bands, which come
/// from the library, put silence and tones where they belong.
fn levels(samples: &[f32; FFT_SIZE], sample_rate: u32) -> [f32; BAND_COUNT] {
    let mut real = [0.0_f32; FFT_SIZE];
    let mut imaginary = [0.0_f32; FFT_SIZE];
    for (index, sample) in samples.iter().enumerate() {
        real[index] = sample * (0.5 - 0.5 * (2.0 * PI * index as f32 / 1023.0).cos());
    }
    for (left, right) in reversal_swaps() {
        real.swap(left, right);
        imaginary.swap(left, right);
    }
    let mut length = 2;
    while length <= FFT_SIZE {
        for start in (0..FFT_SIZE).step_by(length) {
            for offset in 0..length / 2 {
                let angle = -2.0 * PI * offset as f32 / length as f32;
                let (sine, cosine) = angle.sin_cos();
                let (even, odd) = (start + offset, start + offset + length / 2);
                let odd_real = real[odd] * cosine - imaginary[odd] * sine;
                let odd_imaginary = real[odd] * sine + imaginary[odd] * cosine;
                real[odd] = real[even] - odd_real;
                imaginary[odd] = imaginary[even] - odd_imaginary;
                real[even] += odd_real;
                imaginary[even] += odd_imaginary;
            }
        }
        length *= 2;
    }
    let mut levels = [0.0_f32; BAND_COUNT];
    let ranges = band_bin_ranges(sample_rate, &boundaries(sample_rate));
    for (band, (start, end)) in ranges.into_iter().enumerate() {
        let peak = (start..end)
            .map(|bin| (real[bin].powi(2) + imaginary[bin].powi(2)).sqrt() / 512.0)
            .fold(0.0_f32, f32::max);
        let target = ((20.0 * peak.max(0.000_001).log10() + 60.0) / 50.0).clamp(0.0, 1.0);
        levels[band] = target * 0.65;
    }
    levels
}

fn tone(frequency: f32) -> [f32; FFT_SIZE] {
    let mut samples = [0.0; FFT_SIZE];
    for (index, sample) in samples.iter_mut().enumerate() {
        *sample = (2.0 * PI * frequency * index as f32 / 48_000.0).sin();
    }
    samples
}

fn strongest(bands: &[f32; BAND_COUNT]) -> usize {
    (0..BAND_COUNT).max_by(|left, right| bands[*left].total_cmp(&bands[*right])).unwrap()
}

#[test]
fn silence_produces_empty_bands() {
    assert_eq!(levels(&[0.0; FFT_SIZE], 48_000), [0.0; BAND_COUNT]);
}

#[test]
fn sine_wave_activates_its_logarithmic_band() {
    let bands = levels(&tone(1_000.0), 48_000);
    let strongest = strongest(&bands);
    assert!((7..=10).contains(&strongest));
    assert!(bands[strongest] > 0.5);
}

#[test]
fn second_band_contains_and_uses_an_fft_bin() {
    let ranges = band_bin_ranges(48_000, &boundaries(48_000));
    assert!(ranges.iter().all(|(start, end)| start < end));

    let bands = levels(&tone(2.0 * 48_000.0 / FFT_SIZE as f32), 48_000);
    assert_eq!(strongest(&bands), 1);
    assert!(bands[1] > 0.5);
}

#[test]
fn bands_share_all_bins() {
    for rate in [8_000, 22_050, 44_100, 48_000, 96_000, 192_000] {
        for wanted in [boundaries(rate), [0; BAND_COUNT], [usize::MAX; BAND_COUNT]] {
            let ranges = band_bin_ranges(rate, &wanted);
            assert_eq!(ranges.len(), BAND_COUNT);
            assert!(ranges[0].0 >= 1 && ranges[15].1 <= 512);
            for band in 0..BAND_COUNT {
                assert!(ranges[band].0 < ranges[band].1);
                assert!(band == 0 || ranges[band].0 == ranges[band - 1].1);
            }
        }
    }
    assert_eq!(band_bin_ranges(48_000, &[0; BAND_COUNT])[15], (16, 342));
}

#[test]
fn rates_without_room_for_all_bands_are_known() {
    assert!(usable_rate(48_000) && usable_rate(192_000));
    assert!(!usable_rate(0) && !usable_rate(50) && !usable_rate(2_000_000));
}

#[test]
fn samples_change_places_by_reversed_bits() {
    let pairs = reversal_swaps();
    assert_eq!(pairs[0], (1, 512));
    assert_eq!(pairs[1], (2, 256));
    assert!(pairs.iter().all(|(left, right)| left < right));
    let reversed = |value: usize| (value as u32).reverse_bits() as usize >> 22;
    assert!(pairs.iter().all(|(left, right)| reversed(*left) == *right));
    assert_eq!(pairs.len(), (0..FFT_SIZE).filter(|index| *index < reversed(*index)).count());
}

fn wave(tag: u16, channels: u16, align: u16, bits: u16, extension: Option<u16>) -> Vec<u8> {
    let mut data = Vec::new();
    data.extend(tag.to_le_bytes());
    data.extend(channels.to_le_bytes());
    data.extend(48_000_u32.to_le_bytes());
    data.extend([0; 4]);
    data.extend(align.to_le_bytes());
    data.extend(bits.to_le_bytes());
    data.extend((if extension.is_some() { 22_u16 } else { 0 }).to_le_bytes());
    if let Some(kind) = extension {
        data.extend([0; 6]);
        data.extend(kind.to_le_bytes());
        data.extend([0; 14]);
    }
    data
}

#[test]
fn formats_are_read() {
    let info = FormatInfo::from_wave_format(&wave(0xfffe, 2, 8, 32, Some(3))).unwrap();
    assert_eq!(
        info,
        FormatInfo {
            sample_format: SampleFormat::Float32,
            channels: 2,
            block_align: 8,
            sample_rate: 48_000,
        }
    );
    assert!(info.consistent());
    let format = |tag: u16, bits: u16| FormatInfo::from_wave_format(&wave(tag, 1, 8, bits, None));
    assert_eq!(format(3, 64).unwrap().sample_format, SampleFormat::Float64);
    assert_eq!(format(1, 16).unwrap().sample_format, SampleFormat::Pcm16);
    assert_eq!(format(1, 24).unwrap().sample_format, SampleFormat::Pcm24);
    assert_eq!(format(1, 32).unwrap().sample_format, SampleFormat::Pcm32);
    assert_eq!(format(1, 8), Err(FormatError::Unsupported { tag: 1, bits: 8 }));
    assert_eq!(
        FormatInfo::from_wave_format(&wave(1, 0, 8, 16, None)),
        Err(FormatError::NoChannels)
    );
    assert_eq!(
        FormatInfo::from_wave_format(&wave(1, 1, 0, 16, None)),
        Err(FormatError::NoFrame)
    );
    assert_eq!(
        FormatInfo::from_wave_format(&wave(0xfffe, 1, 2, 16, None)),
        Err(FormatError::ShortExtension)
    );
    assert_eq!(FormatInfo::from_wave_format(&[0; 17]), Err(FormatError::Truncated));
    let narrow = FormatInfo { block_align: 7, ..info };
    assert!(!narrow.consistent());
}

#[test]
fn samples_are_read_channel_by_channel() {
    let info = |sample_format: SampleFormat, block_align: usize| FormatInfo {
        sample_format,
        channels: 2,
        block_align,
        sample_rate: 48_000,
    };
    let pcm = |value: i32, scale: u32| RawSample::Pcm { value, scale };
    let data = [9, 9, 9, 9, 0xff, 0x7f, 0x00, 0x80];
    assert_eq!(
        info(SampleFormat::Pcm16, 4).frame_samples(&data, 1),
        [pcm(32_767, 15), pcm(-32_768, 15)]
    );
    let data = [0xff, 0xff, 0xff, 1, 0, 0];
    assert_eq!(
        info(SampleFormat::Pcm24, 6).frame_samples(&data, 0),
        [pcm(-1, 23), pcm(1, 23)]
    );
    let mut data = i32::MIN.to_le_bytes().to_vec();
    data.extend(77_i32.to_le_bytes());
    assert_eq!(
        info(SampleFormat::Pcm32, 8).frame_samples(&data, 0),
        [pcm(i32::MIN, 31), pcm(77, 31)]
    );
    let mut data = 0.5_f32.to_le_bytes().to_vec();
    data.extend((-0.25_f32).to_le_bytes());
    assert_eq!(
        info(SampleFormat::Float32, 8).frame_samples(&data, 0),
        [RawSample::Float32(0.5_f32.to_bits()), RawSample::Float32((-0.25_f32).to_bits())]
    );
    let mut data = 0.5_f64.to_le_bytes().to_vec();
    data.extend(2.0_f64.to_le_bytes());
    assert_eq!(
        info(SampleFormat::Float64, 16).frame_samples(&data, 0),
        [RawSample::Float64(0.5_f64.to_bits()), RawSample::Float64(2.0_f64.to_bits())]
    );
}

#[test]
fn last_samples_are_kept() {
    let mut ring = SampleRing::new();
    assert_eq!(ring.ordered(), vec![0; FFT_SIZE]);
    for sample in 1..=3 {
        ring.push(sample);
    }
    let ordered = ring.ordered();
    assert_eq!(&ordered[FFT_SIZE - 4..], &[0, 1, 2, 3]);
    for sample in 4..=2_000 {
        ring.push(sample);
    }
    let ordered = ring.ordered();
    assert_eq!(ordered, (977..=2_000).collect::<Vec<u32>>());
    let format = FormatInfo {
        sample_format: SampleFormat::Float32,
        channels: 2,
        block_align: 8,
        sample_rate: 48_000,
    };
    let mut spectrum = OutputSpectrum::new(format);
    spectrum.ring.push(5);
    assert_eq!(spectrum.bands()[FFT_SIZE - 1], 5);
    assert_eq!(spectrum.bands()[..FFT_SIZE - 1], vec![0; FFT_SIZE - 1]);
}

#[test]
fn packets_are_taken_and_given_back() {
    let step = drain_packets();
    assert_eq!(step.next(DrainEvent::Size { result: 0, frames: 0 }), DrainStep::Done);
    assert_eq!(
        step.next(DrainEvent::Size { result: -1, frames: 9 }),
        DrainStep::Failed(0xffff_ffff)
    );
    let step = step.next(DrainEvent::Size { result: 0, frames: 480 });
    assert_eq!(step, DrainStep::TakePacket);
    assert_eq!(
        step.next(DrainEvent::Packet { result: -2, frames: 1, flags: 0 }),
        DrainStep::Failed(0xffff_fffe)
    );
    let loud = step.next(DrainEvent::Packet { result: 0, frames: 480, flags: 5 });
    assert_eq!(loud, DrainStep::Mix { frames: 480, silent: false });
    let silent = step.next(DrainEvent::Packet { result: 0, frames: 441, flags: 3 });
    assert_eq!(silent, DrainStep::Mix { frames: 441, silent: true });
    let release = silent.next(DrainEvent::Mixed);
    assert_eq!(release, DrainStep::Release { frames: 441 });
    assert_eq!(release.next(DrainEvent::Released { result: 0 }), DrainStep::NextSize);
    assert_eq!(
        release.next(DrainEvent::Released { result: i32::MIN }),
        DrainStep::Failed(0x8000_0000)
    );
}

#[test]
fn spectrum_is_opened_step_by_step() {
    let info = FormatInfo::from_wave_format(&wave(3, 1, 4, 32, None)).unwrap();
    let good = OpenEvent::Called { result: 0, null: false };
    let mut step = OutputSpectrum::open();
    for call in [
        OpenCall::Apartment,
        OpenCall::Enumerator,
        OpenCall::Device,
        OpenCall::Client,
        OpenCall::MixFormat,
    ] {
        assert_eq!(step, OpenStep::Call(call));
        assert_eq!(
            step.next(OpenEvent::Called { result: -1, null: false }),
            OpenStep::Failed(AudioError::Call { step: call, code: 0xffff_ffff })
        );
        step = step.next(good);
    }
    assert_eq!(step, OpenStep::ReadFormat);
    step = step.next(OpenEvent::Format(info));
    assert_eq!(step, OpenStep::Initialize(info));
    step = step.next(good);
    assert_eq!(step, OpenStep::FreeFormat(info));
    step = step.next(OpenEvent::Freed);
    assert_eq!(step, OpenStep::Capture(info));
    assert_eq!(
        step.next(OpenEvent::Called { result: 0, null: true }),
        OpenStep::Failed(AudioError::NullInterface(OpenCall::Capture))
    );
    step = step.next(good);
    assert_eq!(step, OpenStep::Start(info));
    assert_eq!(step.next(good), OpenStep::Open(info));
}

#[test]
fn description_of_the_format_is_freed_in_any_case() {
    let info = FormatInfo::from_wave_format(&wave(3, 1, 4, 32, None)).unwrap();
    let failed = OpenStep::Initialize(info).next(OpenEvent::Called { result: -1, null: false });
    let error = AudioError::Call { step: OpenCall::Initialize, code: 0xffff_ffff };
    assert_eq!(failed, OpenStep::FreeFormatAfter(error));
    assert_eq!(failed.next(OpenEvent::Freed), OpenStep::Failed(error));
    let bad = OpenStep::ReadFormat.next(OpenEvent::BadFormat(FormatError::NoFrame));
    assert_eq!(bad, OpenStep::InitializeAnyway(FormatError::NoFrame));
    let bad = bad.next(OpenEvent::Called { result: 0, null: false });
    assert_eq!(bad, OpenStep::FreeFormatAfter(AudioError::Format(FormatError::NoFrame)));
}
