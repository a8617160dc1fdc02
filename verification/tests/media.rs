use std::time::Duration;

use looppanel::image::{Image, Rgba};
use looppanel::media::{
    accept_item, background_frame, blend, cover, cover_size, cover_to, load_first,
    procedural_frame, show_picture, Background, GifStep, MediaError, MediaFile, MediaFrame, Picture,
    MAX_GIF_FRAMES, SHORTEST_DELAY,
};

const RED: Rgba = Rgba { r: 255, g: 0, b: 0, a: 255 };
const GREEN: Rgba = Rgba { r: 0, g: 255, b: 0, a: 255 };
const MARGIN: Rgba = Rgba { r: 250, g: 250, b: 248, a: 255 };

fn gif(colors: &[[u8; 4]], delay: ::image::Delay) -> Vec<u8> {
    let mut data = Vec::new();
    let mut encoder = ::image::codecs::gif::GifEncoder::new(&mut data);
    encoder.set_repeat(::image::codecs::gif::Repeat::Infinite).unwrap();
    for color in colors {
        encoder
            .encode_frame(::image::Frame::from_parts(
                ::image::RgbaImage::from_pixel(2, 2, ::image::Rgba(*color)),
                0,
                0,
                delay,
            ))
            .unwrap();
    }
    drop(encoder);
    data
}

fn png(width: u32, height: u32) -> Vec<u8> {
    let picture = ::image::RgbaImage::from_fn(width, height, |x, y| {
        ::image::Rgba([x as u8, y as u8, (x + y) as u8, 255])
    });
    let mut data = std::io::Cursor::new(Vec::new());
    picture.write_to(&mut data, ::image::ImageFormat::Png).unwrap();
    data.into_inner()
}

fn file(extension: &str, data: Vec<u8>) -> MediaFile {
    MediaFile { extension: extension.to_owned(), data }
}

fn frames_of(background: Background) -> Vec<MediaFrame> {
    match background {
        Background::Frames(frames) => frames,
        Background::Procedural => panic!("expected frames"),
    }
}

#[test]
fn classifies_procedural_and_frame_backgrounds() {
    let frame = || MediaFrame {
        image: Image::from_pixel(1, 1, Rgba { r: 0, g: 0, b: 0, a: 0 }),
        delay: 1_000_000_000,
    };
    assert!(Background::Procedural.is_animated());
    assert!(!Background::Frames(vec![frame()]).is_animated());
    assert!(Background::Frames(vec![frame(), frame()]).is_animated());
}

#[test]
fn loads_and_resizes_animated_gif() {
    let data = gif(
        &[[255, 0, 0, 255], [0, 255, 0, 255]],
        ::image::Delay::from_numer_denom_ms(80, 1),
    );

    let first = load_first(file("gif", data.clone())).unwrap();
    assert_eq!((first.width, first.height), (480, 480));
    assert_eq!(first.get_pixel(0, 0), RED);

    let background = Background::load(Some(file("gif", data))).unwrap();
    match background {
        Background::Frames(frames) => {
            assert_eq!(frames.len(), 2);
            assert_eq!((frames[0].image.width, frames[0].image.height), (480, 480));
            assert_eq!(frames[0].delay, 80_000_000);
            assert_eq!(frames[0].image.get_pixel(0, 104), MARGIN);
            assert_eq!(frames[0].image.get_pixel(0, 105), RED);
            assert_eq!(frames[0].image.get_pixel(479, 374), RED);
            assert_eq!(frames[0].image.get_pixel(479, 375), MARGIN);
            assert_eq!(frames[1].image.get_pixel(0, 105), GREEN);
        }
        Background::Procedural => panic!("expected GIF frames"),
    }
}

#[test]
fn extension_is_compared_without_case() {
    let data = gif(&[[255, 0, 0, 255]], ::image::Delay::from_numer_denom_ms(80, 1));
    let frames = frames_of(Background::load(Some(file("GiF", data))).unwrap());
    assert_eq!(frames.len(), 1);
    assert_eq!(frames[0].delay, 80_000_000);
}

#[test]
fn fast_frames_are_shown_for_ten_milliseconds() {
    let data = gif(&[[1, 2, 3, 255]], ::image::Delay::from_numer_denom_ms(0, 1));
    let frames = frames_of(Background::load(Some(file("gif", data))).unwrap());
    assert_eq!(frames[0].delay, 10_000_000);
}

#[test]
fn broken_files_are_refused() {
    let load = |extension: &str, data: Vec<u8>| match Background::load(Some(file(extension, data))) {
        Ok(_) => panic!("expected an error"),
        Err(error) => error,
    };
    assert_eq!(load("gif", b"no gif".to_vec()), MediaError::Gif);
    assert_eq!(load("png", b"no png".to_vec()), MediaError::Image);
    assert_eq!(load("", png(4, 4)), MediaError::Image);
    assert_eq!(load("bmp", png(4, 4)), MediaError::Image);

    let mut cut = gif(&[[255, 0, 0, 255]], ::image::Delay::from_numer_denom_ms(80, 1));
    cut.truncate(cut.len() - 4);
    assert_eq!(load("gif", cut), MediaError::GifFrame);

    assert!(matches!(load_first(file("gif", vec![])), Err(MediaError::Gif)));
    assert!(matches!(load_first(file("png", vec![])), Err(MediaError::Image)));
}

#[test]
fn animation_without_frames_is_refused() {
    let empty = b"GIF89a\x02\x00\x02\x00\x00\x00\x00;;".to_vec();
    assert!(matches!(
        Background::load(Some(file("gif", empty.clone()))),
        Err(MediaError::NoFrames)
    ));
    assert!(matches!(load_first(file("gif", empty)), Err(MediaError::NoFrames)));
}

#[test]
fn animation_has_at_most_120_frames() {
    let full = gif(&[[255, 0, 0, 255]; 120], ::image::Delay::from_numer_denom_ms(80, 1));
    assert_eq!(frames_of(Background::load(Some(file("gif", full))).unwrap()).len(), 120);
    let over = gif(&[[255, 0, 0, 255]; 121], ::image::Delay::from_numer_denom_ms(80, 1));
    assert!(matches!(
        Background::load(Some(file("gif", over.clone()))),
        Err(MediaError::TooManyFrames)
    ));
    assert!(load_first(file("gif", over)).is_ok());
}

#[test]
fn still_picture_is_shown_for_a_second() {
    let frames = frames_of(Background::load(Some(file("png", png(480, 270)))).unwrap());
    assert_eq!(frames.len(), 1);
    assert_eq!(frames[0].delay, 1_000_000_000);
    let image = &frames[0].image;
    assert_eq!(image.get_pixel(7, 105 + 20), Rgba { r: 7, g: 20, b: 27, a: 255 });
    assert_eq!(image.get_pixel(7, 104), MARGIN);
    assert_eq!(image.get_pixel(7, 375), MARGIN);
}

#[test]
fn picture_of_the_right_size_is_kept() {
    let image = load_first(file("PNG", png(480, 480))).unwrap();
    for (x, y) in [(0, 0), (100, 30), (479, 479)] {
        let sum = ((x + y) % 256) as u8;
        let expected = Rgba { r: (x % 256) as u8, g: (y % 256) as u8, b: sum, a: 255 };
        assert_eq!(image.get_pixel(x, y), expected);
    }
}

#[test]
fn picture_is_scaled_to_cover_the_target() {
    assert_eq!(cover_size(480, 270, 480, 270), Ok((480, 270)));
    assert_eq!(cover_size(960, 540, 480, 270), Ok((480, 270)));
    assert_eq!(cover_size(100, 100, 480, 270), Ok((481, 481)));
    assert_eq!(cover_size(120, 360, 480, 480), Ok((480, 1440)));
    assert_eq!(cover_size(1, 1, 480, 480), Ok((480, 480)));
    assert_eq!(cover_size(0, 5, 480, 480), Err(MediaError::EmptyImage));
    assert_eq!(cover_size(1_048_577, 100, 270, 270), Ok((2_831_158, 270)));
    assert_eq!(cover_size((1 << 23) + 1, 1 << 23, 480, 480), Ok((481, 480)));
    assert_eq!(cover_size(2_097_153, 200, 480, 270), Ok((2_831_157, 270)));
    assert_eq!(cover_size(1 << 22, 100, 480, 480), Ok((20_132_660, 481)));
    assert_eq!(cover_size(21_757_026, 129, 480, 480), Err(MediaError::TooLarge));
}

#[test]
fn sizes_are_those_of_single_precision() {
    for width in (1..2000).step_by(37) {
        for height in (1..2000).step_by(53) {
            for (target_width, target_height) in [(480_u32, 480_u32), (480, 270)] {
                let scale = (target_width as f32 / width as f32)
                    .max(target_height as f32 / height as f32);
                let expected =
                    ((width as f32 * scale).ceil() as u32, (height as f32 * scale).ceil() as u32);
                assert_eq!(cover_size(width, height, target_width, target_height), Ok(expected));
            }
        }
    }
}

#[test]
fn middle_of_the_picture_is_shown() {
    let mut wide = Image::from_pixel(960, 480, RED);
    for y in 0..480 {
        for x in 240..720 {
            wide.put_pixel(x, y, GREEN);
        }
    }
    let shown = cover(&wide).unwrap();
    assert_eq!(shown.get_pixel(0, 0), GREEN);
    assert_eq!(shown.get_pixel(479, 479), GREEN);
    let narrow = cover_to(&Image::from_pixel(2, 2, RED), 4, 2).unwrap();
    assert_eq!((narrow.width, narrow.height), (4, 2));
    assert_eq!(narrow.get_pixel(3, 1), RED);
    assert!(matches!(
        background_frame(&Image::from_pixel(0, 0, RED)),
        Err(MediaError::EmptyImage)
    ));
}

fn picture(numerator: u32, denominator: u32) -> Picture {
    Picture { width: 1, height: 1, raw: vec![9, 8, 7, 255], numerator, denominator }
}

#[test]
fn long_sides_are_scaled_as_far_as_the_filter_reaches() {
    let last_position = |side: u32, new_side: u32| {
        f64::from(((new_side - 1) as f32 + 0.5) * (side as f32 / new_side as f32))
    };
    let mut refused = 0;
    for step in 0..4_000_u32 {
        let side = 2_000_003 + step * 6_007;
        let height = 40 + step % 200;
        let scale = 480.0 / height as f32;
        let new_side = (side as f32 * scale).ceil() as u32;
        let reached = last_position(side, new_side) < f64::from((side - 1) as f32) + 3.0;
        let size = cover_size(side, height, 480, 480);
        let new_height = (height as f32 * scale).ceil() as u32;
        let expected = if reached { Ok((new_side, new_height)) } else { Err(MediaError::TooLarge) };
        assert_eq!(size, expected, "{side} by {height}");
        refused += u32::from(!reached);
    }
    assert!(0 < refused && refused < 4_000);
}

#[test]
fn delays_are_rounded_to_nanoseconds() {
    assert_eq!(show_picture(&picture(100, 3)).unwrap().delay, 33_333_333);
    assert_eq!(show_picture(&picture(200, 3)).unwrap().delay, 66_666_667);
    assert_eq!(show_picture(&picture(1, 1)).unwrap().delay, 10_000_000);
    for numerator in [0, 9, 10, 31, 97, 1_000_003, 655_350, u32::MAX] {
        for denominator in [1, 3, 7, 1_000, 999_983, u32::MAX] {
            let millis = (f64::from(numerator) / f64::from(denominator)).max(10.0);
            let expected = Duration::from_secs_f64(millis / 1_000.0).as_nanos() as u64;
            let shown = show_picture(&picture(numerator, denominator)).unwrap();
            assert_eq!(shown.delay, expected, "{numerator} / {denominator}");
            assert!(shown.delay >= SHORTEST_DELAY);
        }
    }
}

#[test]
fn items_of_an_animation_are_taken_in() {
    let mut frames = Vec::new();
    assert_eq!(accept_item(&mut frames, None), GifStep::Failed(MediaError::NoFrames));
    assert_eq!(accept_item(&mut frames, Some(Some(picture(50, 1)))), GifStep::More);
    assert_eq!(frames.len(), 1);
    assert_eq!(accept_item(&mut frames, Some(None)), GifStep::Failed(MediaError::GifFrame));
    assert_eq!(accept_item(&mut frames, None), GifStep::Finished);
    let empty = Picture { width: 0, height: 0, raw: vec![], numerator: 1, denominator: 1 };
    assert_eq!(
        accept_item(&mut frames, Some(Some(empty))),
        GifStep::Failed(MediaError::EmptyImage)
    );
    while frames.len() < MAX_GIF_FRAMES {
        accept_item(&mut frames, Some(Some(picture(50, 1))));
    }
    assert_eq!(
        accept_item(&mut frames, Some(Some(picture(50, 1)))),
        GifStep::Failed(MediaError::TooManyFrames)
    );
    assert_eq!(frames.len(), MAX_GIF_FRAMES);
}

#[test]
fn frames_repeat_and_keep_to_the_rate() {
    let frame = |red: u8, delay: u64| MediaFrame {
        image: Image::from_pixel(480, 480, Rgba { r: red, g: 0, b: 0, a: 255 }),
        delay,
    };
    let background = Background::Frames(vec![frame(1, 20_000_000), frame(2, 500_000_000)]);
    assert_eq!(background.frame(0).get_pixel(0, 0).r, 1);
    assert_eq!(background.frame(3).get_pixel(0, 0).r, 2);
    assert_eq!(background.delay(0, 10), 100_000_000);
    assert_eq!(background.delay(1, 10), 500_000_000);
    assert_eq!(background.delay(2, 30), 33_333_333);
    assert_eq!(Background::Procedural.delay(5, 7), 142_857_143);
    assert_eq!(Background::Procedural.delay(0, 5_120), 195_313);
}

#[test]
fn frame_times_are_those_of_double_precision() {
    for fps in (1..20_000).chain([1 << 20, 1_000_003, u32::MAX - 1, u32::MAX]) {
        let expected = Duration::from_secs_f64(1.0 / f64::from(fps)).as_nanos() as u64;
        assert_eq!(Background::Procedural.delay(0, fps), expected, "{fps}");
    }
}

#[test]
fn built_in_effect_repeats() {
    let first = procedural_frame(3);
    let again = procedural_frame(123);
    assert_eq!(first.to_raw(), again.to_raw());
    assert_ne!(first.to_raw(), procedural_frame(4).to_raw());
    let still = procedural_frame(0);
    assert_eq!(still.get_pixel(479, 0), Rgba { r: 25, g: 14, b: 49, a: 255 });
    assert_eq!(still.get_pixel(479, 479), Rgba { r: 25, g: 37, b: 67, a: 255 });
    let base = Rgba { r: 8, g: 14, b: 32, a: 255 };
    let stripe = Rgba { r: 64, g: 210, b: 255, a: 65 };
    assert_eq!(still.get_pixel(0, 0), blend(base, stripe));
    assert_eq!(Background::Procedural.frame(9).to_raw(), procedural_frame(9).to_raw());
}

#[test]
fn blending_lies_between_the_colours() {
    let below = Rgba { r: 10, g: 200, b: 30, a: 255 };
    let above = |a: u8| Rgba { r: 110, g: 100, b: 30, a };
    assert_eq!(blend(below, above(0)), below);
    assert_eq!(blend(below, above(255)), Rgba { r: 110, g: 100, b: 30, a: 255 });
    assert_eq!(blend(below, above(51)), Rgba { r: 30, g: 180, b: 30, a: 255 });
}

#[test]
fn no_file_gives_the_built_in_effect() {
    assert!(matches!(Background::load(None), Ok(Background::Procedural)));
}
