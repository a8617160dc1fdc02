use looppanel::image::{Image, Rgba};
use looppanel::protocol::{
    byte, clamp, clamp_brightness, div_floor, frame_packet, rgba_to_uyvy, ProtocolError, HEIGHT,
    MAX_BRIGHTNESS, MIN_BRIGHTNESS, WIDTH,
};

fn plain(width: u32, height: u32, channels: [u8; 4]) -> Image {
    Image::from_pixel(
        width,
        height,
        Rgba { r: channels[0], g: channels[1], b: channels[2], a: channels[3] },
    )
}

#[test]
fn black_pair_is_limited_range_uyvy() {
    let image = plain(2, 1, [0, 0, 0, 255]);
    assert_eq!(rgba_to_uyvy(&image, 1.0_f32.to_bits()).unwrap(), [128, 16, 128, 16]);
}

#[test]
fn red_pair_matches_captured_uyvy() {
    let image = plain(2, 1, [255, 0, 0, 255]);
    assert_eq!(rgba_to_uyvy(&image, 1.0_f32.to_bits()).unwrap(), [90, 81, 239, 81]);
}

#[test]
fn tm360_packet_header_and_trailer_are_exact() {
    let pixels = vec![0; WIDTH as usize * HEIGHT as usize * 2];
    let packet = frame_packet(&pixels, WIDTH, HEIGHT).unwrap();
    assert_eq!(packet.len(), 480 * 480 * 2 + 16);
    assert_eq!(&packet[..8], &[0xff, 0x00, 0, 0, 0, 0x1e, 0x01, 0xe0]);
    assert_eq!(&packet[packet.len() - 8..], &[0xff, 0xc0, 0, 0, 0, 0, 0, 0]);
}

#[test]
fn odd_width_is_refused() {
    let image = plain(3, 2, [1, 2, 3, 255]);
    assert!(matches!(
        rgba_to_uyvy(&image, MAX_BRIGHTNESS),
        Err(ProtocolError::OddWidth)
    ));
}

#[test]
fn packet_of_a_wrong_size_is_refused() {
    assert!(matches!(
        frame_packet(&[0; 40], 20, 1),
        Err(ProtocolError::WidthNotMultipleOf16)
    ));
    assert!(matches!(
        frame_packet(&[0; 63], 16, 2),
        Err(ProtocolError::PayloadLength)
    ));
    assert!(frame_packet(&[0; 64], 16, 2).is_ok());
}

#[test]
fn packet_keeps_its_frame() {
    let pixels: Vec<u8> = (0..=63).collect();
    let packet = frame_packet(&pixels, 16, 2).unwrap();
    assert_eq!(&packet[..8], &[0xff, 0, 0, 0, 0, 1, 0, 2]);
    assert_eq!(&packet[8..72], &pixels[..]);
}

#[test]
fn brightness_is_brought_into_its_limits() {
    assert_eq!(clamp_brightness(0.5_f32.to_bits()), 0.5_f32.to_bits());
    assert_eq!(clamp_brightness(2.0_f32.to_bits()), 1.0_f32.to_bits());
    assert_eq!(clamp_brightness(0.0_f32.to_bits()), 0.05_f32.to_bits());
    assert_eq!(clamp_brightness((-3.0_f32).to_bits()), 0.05_f32.to_bits());
    assert_eq!(MIN_BRIGHTNESS, 0.05_f32.to_bits());
    assert_eq!(MAX_BRIGHTNESS, 1.0_f32.to_bits());
}

#[test]
fn pixels_are_scaled_as_single_precision_does() {
    for step in 0..=400 {
        let brightness = step as f32 * 0.003;
        let scale = (brightness.clamp(0.05, 1.0) * 256.0).round() as i32;
        for value in [0_u8, 1, 17, 100, 128, 200, 254, 255] {
            let scaled = (value as i32 * scale) >> 8;
            let luma = ((257 + 504 + 98) * scaled / 1_000 + 16) as u8;
            let image = plain(2, 1, [value, value, value, 255]);
            let pair = rgba_to_uyvy(&image, brightness.to_bits()).unwrap();
            assert_eq!(pair, [128, luma, 128, luma], "{value} at {brightness}");
        }
    }
}

#[test]
fn brightness_that_is_no_number_is_black() {
    let image = plain(2, 1, [255, 255, 255, 255]);
    assert_eq!(rgba_to_uyvy(&image, f32::NAN.to_bits()).unwrap(), [128, 16, 128, 16]);
}

#[test]
fn colours_of_a_pair_are_averaged() {
    let mut image = plain(2, 1, [255, 0, 0, 255]);
    image.put_pixel(1, 0, Rgba { r: 0, g: 0, b: 255, a: 255 });
    assert_eq!(rgba_to_uyvy(&image, MAX_BRIGHTNESS).unwrap(), [164, 81, 174, 40]);
}

#[test]
fn helpers_round_down_and_clamp() {
    assert_eq!(div_floor(-1, 256), -1);
    assert_eq!(div_floor(255, 256), 0);
    assert_eq!(div_floor(-512, 256), -2);
    assert_eq!(byte(-4), 0);
    assert_eq!(byte(300), 255);
    assert_eq!(byte(77), 77);
    assert_eq!(clamp(5, 1, 3), 3);
    assert_eq!(clamp(-5, 1, 3), 1);
    assert_eq!(clamp(2, 1, 3), 2);
}

fn frame(pixels: &[[u8; 4]], brightness: f32) -> Vec<u8> {
    let mut image = plain(pixels.len() as u32, 1, [0; 4]);
    for (x, [r, g, b, a]) in pixels.iter().copied().enumerate() {
        image.put_pixel(x as u32, 0, Rgba { r, g, b, a });
    }
    rgba_to_uyvy(&image, brightness.to_bits()).unwrap()
}

#[test]
fn transparency_does_not_matter() {
    let opaque = frame(&[[200, 10, 30, 255], [7, 8, 9, 255]], 0.7);
    assert_eq!(frame(&[[200, 10, 30, 0], [7, 8, 9, 100]], 0.7), opaque);
}

#[test]
fn brightness_beyond_its_limits_is_held() {
    let pixels = [[200, 10, 30, 255], [7, 180, 9, 255]];
    for dark in [-5.0, -0.0, 0.0, 0.049, f32::NEG_INFINITY] {
        assert_eq!(frame(&pixels, dark), frame(&pixels, 0.05));
    }
    for bright in [1.000_1, 7.0, f32::INFINITY] {
        assert_eq!(frame(&pixels, bright), frame(&pixels, 1.0));
    }
}

#[test]
fn swapped_pixels_keep_their_chroma() {
    let (first, second) = ([200, 10, 30, 255], [7, 180, 9, 255]);
    let [u, y1, v, y2] = frame(&[first, second], 0.9)[..] else { panic!("two pixels") };
    assert_eq!(frame(&[second, first], 0.9), [u, y2, v, y1]);
    assert_ne!(y1, y2);
}

#[test]
fn dimming_makes_nothing_brighter_and_grey_stays_grey() {
    let pixels = [[255, 254, 3, 255], [17, 99, 200, 255], [60, 60, 60, 255], [5, 5, 5, 255]];
    let mut brighter = frame(&pixels, 1.2);
    for step in (0..120).rev() {
        let dimmer = frame(&pixels, step as f32 / 100.0);
        for k in [1, 3, 5, 7] {
            assert!(dimmer[k] <= brighter[k]);
        }
        assert_eq!((dimmer[4], dimmer[6]), (128, 128));
        assert!(dimmer.iter().enumerate().all(|(k, byte)| {
            (16..=if k % 2 == 0 { 240 } else { 235 }).contains(byte)
        }));
        brighter = dimmer;
    }
}
