use looppanel::image::{crop, replace_rows, Image, Rgba};
use looppanel::single::{nan, positive, round_to_single};

fn counted(width: u32, height: u32) -> Image {
    let raw: Vec<u8> = (0..width * height * 4).map(|value| value as u8).collect();
    Image::from_raw(width, height, &raw).unwrap()
}

#[test]
fn pixels_are_stored_by_rows() {
    let image = counted(3, 2);
    assert_eq!(image.get_pixel(0, 1), Rgba { r: 12, g: 13, b: 14, a: 15 });
    assert_eq!(image.to_raw(), (0..24).collect::<Vec<u8>>());
    assert!(Image::from_raw(3, 2, &[0; 23]).is_none());
    let mut copy = image.clone();
    copy.put_pixel(2, 1, Rgba { r: 9, g: 9, b: 9, a: 9 });
    assert_eq!(copy.get_pixel(2, 1).r, 9);
    assert_eq!(image.get_pixel(2, 1).r, 20);
}

#[test]
fn parts_are_cut_out_and_put_in() {
    let part = crop(&counted(4, 3), 1, 1, 2, 2);
    assert_eq!((part.width, part.height), (2, 2));
    assert_eq!(part.get_pixel(0, 0).r, 20);
    assert_eq!(part.get_pixel(1, 1).r, 40);
    let mut canvas = Image::from_pixel(4, 5, Rgba { r: 200, g: 0, b: 0, a: 0 });
    replace_rows(&mut canvas, &counted(4, 2), 2);
    assert_eq!(canvas.get_pixel(0, 1).r, 200);
    assert_eq!(canvas.get_pixel(0, 2).r, 0);
    assert_eq!(canvas.get_pixel(3, 3).r, 28);
    assert_eq!(canvas.get_pixel(0, 4).r, 200);
}

#[test]
fn quotients_are_rounded_as_single_precision_does() {
    for numerator in [1_u128, 3, 270, 480, 1_000_003, 16_777_217] {
        for denominator in [1_u128, 2, 3, 7, 10, 100, 480, 999_983] {
            let scaled = round_to_single(numerator << 64, denominator);
            let expected = numerator as f64 / denominator as f64;
            let rounded = expected as f32;
            assert_eq!(scaled as f64 / 2_f64.powi(64), f64::from(rounded));
        }
    }
}

#[test]
fn bit_patterns_are_told_apart() {
    assert!(nan(f32::NAN.to_bits()) && !nan(f32::INFINITY.to_bits()));
    assert!(positive(1.0_f32.to_bits()) && positive(f32::MIN_POSITIVE.to_bits()));
    assert!(!positive(0) && !positive((-1.0_f32).to_bits()) && !positive(f32::NAN.to_bits()));
}
