use looppanel::config::Config;
use looppanel::image::{Image, Rgba};
use looppanel::monitor::Snapshot;
use looppanel::render::{
    bar_width, bounded_font, core_views, dashboard_context, draw_audio_spectrum, gpu_memory,
    local_time, mhz_to_ghz, GpuMemoryView, RenderError, Renderer,
};

const ACTIVE: Rgba = Rgba { r: 138, g: 88, b: 191, a: 255 };
const INACTIVE: Rgba = Rgba { r: 231, g: 224, b: 238, a: 255 };
const PAPER: Rgba = Rgba { r: 250, g: 250, b: 248, a: 255 };

fn bits(levels: &[f32]) -> Vec<u32> {
    levels.iter().map(|level| level.to_bits()).collect()
}

#[test]
fn draws_sixteen_clamped_audio_bands() {
    let mut image = Image::from_pixel(480, 480, PAPER);
    let mut bands = [0.0; 16];
    bands[0] = 1.5;
    bands[1] = f32::NAN;
    draw_audio_spectrum(&mut image, &bits(&bands));
    assert_eq!(image.get_pixel(10, 404), ACTIVE);
    assert_eq!(image.get_pixel(10, 465), ACTIVE);
    assert_eq!(image.get_pixel(29, 404), INACTIVE);
    assert_eq!(image.get_pixel(29, 465), INACTIVE);
}

#[test]
fn clamps_core_opacity_and_bar_width() {
    let cores = core_views(&bits(&[-20.0, 0.0, 100.0, 120.0]), 4);
    let opacity = |index: usize| f32::from_bits(cores[index].opacity);
    assert!((opacity(0) - 0.18).abs() < 0.001);
    assert!((opacity(1) - 0.18).abs() < 0.001);
    assert!((opacity(2) - 1.0).abs() < 0.001);
    assert!((opacity(3) - 1.0).abs() < 0.001);
    assert_eq!(width(10.0, 0.0, 230.0), 0.0);
    assert_eq!(width(5.0, 10.0, 230.0), 115.0);
    assert_eq!(width(20.0, 10.0, 230.0), 230.0);
}

fn width(used: f32, total: f32, maximum: f32) -> f32 {
    f32::from_bits(bar_width(used.to_bits(), total.to_bits(), maximum.to_bits()))
}

#[test]
fn opacities_and_widths_are_those_of_single_precision() {
    let special = [-0.0, 1.0e-45, 1.0e-38, 99.99999, 100.00001, f32::INFINITY, f32::NEG_INFINITY];
    let loads: Vec<f32> = (0..2_000).map(|step| step as f32 * 0.06).chain(special).collect();
    let views = core_views(&bits(&loads), loads.len());
    for (view, load) in views.iter().zip(&loads) {
        let expected = 0.18 + 0.82 * load.clamp(0.0, 100.0) / 100.0;
        assert_eq!(view.opacity, expected.to_bits(), "{load}");
        assert!((0.18..=1.0).contains(&f32::from_bits(view.opacity)));
    }
    assert!(f32::from_bits(core_views(&bits(&[f32::NAN]), 1)[0].opacity).is_nan());
    assert!(core_views(&bits(&[1.0, 2.0]), 0).is_empty());

    let positive = [0.0, 1.0e-45, 1.0e-30, 0.3, 7.7, 15.9, 31.25, 63.8, 4.0e9, f32::MAX];
    let mut sizes = vec![f32::INFINITY, f32::NEG_INFINITY, f32::NAN];
    sizes.extend(positive);
    sizes.extend(positive.map(|size| -size));
    for used in sizes.iter().copied() {
        for total in sizes.iter().copied() {
            for maximum in [0.1_f32, 100.0, 230.0] {
                let expected = if total <= 0.0 {
                    0.0
                } else {
                    (used / total * maximum).clamp(0.0, maximum)
                };
                let found = width(used, total, maximum);
                if expected.is_nan() {
                    assert!(found.is_nan());
                } else {
                    assert_eq!(found.to_bits(), expected.to_bits(), "{used} {total} {maximum}");
                }
            }
        }
    }
}

#[test]
fn blocks_follow_the_level_exactly() {
    for step in -40..=240 {
        let level = step as f32 / 160.0;
        let expected = (level.clamp(0.0, 1.0) * 8.0).ceil() as u32;
        let mut image = Image::from_pixel(480, 480, PAPER);
        draw_audio_spectrum(&mut image, &bits(&[0.0, level]));
        let reached = (0..8).filter(|block| image.get_pixel(29, 404 + block * 8) == ACTIVE).count();
        assert_eq!(reached as u32, expected, "{level}");
    }
    for level in [f32::INFINITY, f32::NEG_INFINITY, -0.0, f32::MIN_POSITIVE, 1.0e-40] {
        let mut image = Image::from_pixel(480, 480, PAPER);
        draw_audio_spectrum(&mut image, &bits(&[level]));
        let lowest = image.get_pixel(10, 404 + 7 * 8);
        let expected = if level.is_finite() && level > 0.0 { ACTIVE } else { INACTIVE };
        assert_eq!(lowest, expected, "{level}");
    }
}

#[test]
fn bars_stand_where_they_should_and_nothing_else_is_touched() {
    let mut image = Image::from_pixel(480, 480, PAPER);
    draw_audio_spectrum(&mut image, &[]);
    for index in 0..16_u32 {
        let left = 10 + (index as f32 * 18.5).round() as u32;
        for block in 0..8 {
            let top = 404 + block * 8;
            assert_eq!(image.get_pixel(left, top), INACTIVE);
            assert_eq!(image.get_pixel(left + 13, top + 5), INACTIVE);
            assert_eq!(image.get_pixel(left + 14, top), PAPER);
            assert_eq!(image.get_pixel(left, top + 6), PAPER);
        }
    }
    assert_eq!(image.get_pixel(9, 404), PAPER);
    assert_eq!(image.get_pixel(10, 403), PAPER);
    assert_eq!(image.get_pixel(10, 470), PAPER);
}

fn renderer(template: &str) -> Renderer {
    Renderer::with_family(template, true, Some("Sans".to_owned())).unwrap()
}

/// A font that holds nothing but the names of its family and of itself.
fn font(family: &str) -> Vec<u8> {
    let family: Vec<u8> = family.encode_utf16().flat_map(u16::to_be_bytes).collect();
    let length = family.len() as u16;
    let mut names: Vec<u8> = Vec::new();
    for number in [0, 2, 30] {
        names.extend(u16::to_be_bytes(number));
    }
    for name in [1, 6] {
        for number in [3, 1, 0x409, name, length, 0] {
            names.extend(u16::to_be_bytes(number));
        }
    }
    names.extend(family);
    let mut font = vec![0, 1, 0, 0, 0, 1, 0, 16, 0, 0, 0, 0];
    font.extend(b"name");
    for number in [0, 28, names.len() as u32] {
        font.extend(u32::to_be_bytes(number));
    }
    font.extend(names);
    font
}

#[test]
fn text_is_drawn_in_the_family_of_the_font() {
    let renderer = Renderer::new("<svg/>", font("Panel Sans")).unwrap();
    assert_eq!(renderer.family, "Panel Sans");
    assert!(!renderer.audio_enabled());
    assert_eq!(renderer.overlay.get_pixel(479, 479), Rgba { r: 0, g: 0, b: 0, a: 0 });
    assert!(matches!(Renderer::new("<svg/>", Vec::new()), Err(RenderError::NoFamily)));
    assert!(matches!(Renderer::new("<svg/>", b"no font".to_vec()), Err(RenderError::NoFamily)));
    assert!(matches!(Renderer::with_family("<svg/>", true, None), Err(RenderError::NoFamily)));
}

#[test]
fn template_has_to_be_parsed() {
    let broken = ["{% if %}", "{{", "{% endif %}", "{{ 1 + }}", "{% for x in y %}"];
    for template in broken {
        let refused = Renderer::new(template, font("Panel Sans"));
        assert!(matches!(refused, Err(RenderError::Template)), "{template}");
        assert!(matches!(Renderer::new(template, Vec::new()), Err(RenderError::Template)));
    }
    for template in ["", "{{ unknown.name }}", "{% if cpu %}<g/>{% endif %}", "{# note #} 温度 }}"] {
        assert!(Renderer::new(template, font("Panel Sans")).is_ok(), "{template}");
    }
    let family = || Some("Sans".to_owned());
    assert!(matches!(Renderer::with_family("{{ a }}", false, family()), Err(RenderError::Template)));
    assert!(matches!(Renderer::with_family("<svg/>", false, None), Err(RenderError::Template)));
}

#[test]
fn failed_drawing_keeps_the_dashboard() {
    let mut renderer = renderer("<svg/>");
    let raw = [9, 8, 7, 255].repeat(480 * 480);
    assert_eq!(renderer.update(Some(&raw)), Ok(()));
    let before = renderer.compose(Image::from_pixel(480, 480, PAPER), &[]).to_raw();
    assert_eq!(renderer.update(None), Err(RenderError::Drawing));
    assert_eq!(renderer.update(Some(&raw[4..])), Err(RenderError::PixelCount));
    assert_eq!(renderer.compose(Image::from_pixel(480, 480, PAPER), &[]).to_raw(), before);
}

#[test]
fn collection_may_not_announce_more_faces_than_there_is_room_for() {
    let mut collection = b"ttcf\0\x01\0\0\0\0\0\x01\0\0\0\x10".to_vec();
    collection.extend(font("Collected"));
    let directory = collection.len() - font("Collected").len();
    collection[directory + 20..directory + 24].copy_from_slice(&44_u32.to_be_bytes());
    assert!(bounded_font(&collection));
    assert_eq!(Renderer::new("", collection.clone()).unwrap().family, "Collected");
    collection[8..12].copy_from_slice(&[255; 4]);
    assert_eq!(bounded_font(&collection), isize::MAX as u64 >= 8 * 0xffff_ffff);
    assert!(bounded_font(&font("Single")));
    assert!(bounded_font(b"ttcf"));
}

#[test]
fn dashboard_is_laid_over_the_background() {
    let mut renderer = renderer("<svg><g id=\"audio-spectrum\"/></svg>");
    assert!(renderer.audio_enabled());
    let mut raw = vec![0_u8; 480 * 480 * 4];
    raw[..4].copy_from_slice(&[1, 2, 3, 255]);
    assert_eq!(renderer.update(Some(&raw[..10])), Err(RenderError::PixelCount));
    assert_eq!(renderer.update(Some(&raw)), Ok(()));
    let composed = renderer.compose(
        Image::from_pixel(480, 480, Rgba { r: 11, g: 22, b: 33, a: 255 }),
        &[],
    );
    assert_eq!(composed.get_pixel(0, 0), Rgba { r: 1, g: 2, b: 3, a: 255 });
    assert_eq!(composed.get_pixel(240, 240), Rgba { r: 11, g: 22, b: 33, a: 255 });
    assert_eq!(composed.get_pixel(10, 404), INACTIVE);
}

#[test]
fn spectrum_is_drawn_only_if_the_template_wants_it() {
    let plain = renderer("<svg><g id='audio-spectrum'/></svg>");
    assert!(!plain.audio_enabled());
    let composed = plain.compose(Image::from_pixel(480, 480, PAPER), &bits(&[1.0]));
    assert_eq!(composed.get_pixel(10, 404), PAPER);
    assert_eq!(composed.get_pixel(456, 405), PAPER);
    let narrow = Image::from_pixel(3, 2, PAPER);
    assert_eq!(plain.compose(narrow.clone(), &bits(&[1.0])).to_raw(), narrow.to_raw());
    let large = Image::from_pixel(500, 500, PAPER);
    assert_eq!(plain.compose(large.clone(), &bits(&[1.0])).to_raw(), large.to_raw());
    assert!(!renderer("").audio_enabled());
    assert!(!renderer("id=\"audio-spectrum").audio_enabled());
    assert!(renderer("id=\"id=\"audio-spectrum\"").audio_enabled());
}

#[test]
fn template_is_told_everything() {
    let mut config = Config::default();
    config.title = "A&B".to_owned();
    config.custom_lines = vec!["one".to_owned(), "two".to_owned(), "three".to_owned()];
    config.show_clock = false;
    let mut snapshot = Snapshot::default();
    snapshot.cpu_percent = Some(23.0_f32.to_bits());
    snapshot.cpu_temperature = Some(47);
    snapshot.cpu_p_mhz = Some(4_800);
    snapshot.cpu_p_core_loads = vec![25.0_f32.to_bits(); 9];
    snapshot.cpu_e_core_loads = vec![1.0e9_f32.to_bits(); 17];
    snapshot.memory_used_gib = 32.0_f32.to_bits();
    snapshot.memory_total_gib = 64.0_f32.to_bits();
    snapshot.gpu.power_w = Some(120.0_f32.to_bits());
    snapshot.gpu.memory_used_bytes = Some(6 << 30);
    snapshot.gpu.memory_total_bytes = Some(12 << 30);
    snapshot.gpu.fan_percent = Some(41);
    snapshot.io.network_down_mib_s = Some(3.5_f32.to_bits());

    let context = dashboard_context(&config, &snapshot, local_time(7, 5, 59));
    assert_eq!(context.title, "A&B");
    assert_eq!(context.time, "07:05:59");
    assert!(!context.show_clock && context.show_sensors);
    assert_eq!(context.custom_lines, ["one", "two"]);
    assert_eq!(context.cpu.load_percent, Some(23.0_f32.to_bits()));
    assert_eq!(context.cpu.temperature_c, Some(47));
    assert_eq!(context.cpu.performance_frequency_ghz, Some(4.8_f32.to_bits()));
    assert_eq!(context.cpu.efficiency_frequency_ghz, None);
    assert_eq!(context.cpu.performance_cores.len(), 8);
    assert_eq!(context.cpu.performance_cores[0].opacity, 0.385_f32.to_bits());
    assert_eq!(context.cpu.efficiency_cores.len(), 16);
    assert_eq!(context.cpu.efficiency_cores[0].opacity, 1.0_f32.to_bits());
    assert_eq!(context.memory.bar_width, 115.0_f32.to_bits());
    assert_eq!(context.memory.used_percent, 50.0_f32.to_bits());
    assert_eq!(context.memory.used_gib, 32.0_f32.to_bits());
    assert_eq!(context.gpu.power_w, Some(120.0_f32.to_bits()));
    assert_eq!(context.gpu.fan_percent, Some(41));
    assert_eq!(
        context.gpu.memory,
        Some(GpuMemoryView {
            used_gib: 6.0_f32.to_bits(),
            total_gib: 12.0_f32.to_bits(),
            bar_width: 115.0_f32.to_bits(),
        })
    );
    assert_eq!(context.io.network_down_mib_s, Some(3.5_f32.to_bits()));
}

#[test]
fn unknown_values_stay_unknown() {
    let context = dashboard_context(&Config::default(), &Snapshot::default(), String::new());
    assert_eq!(context.cpu.load_percent, None);
    assert!(context.cpu.performance_cores.is_empty());
    assert_eq!(context.memory.bar_width, 0);
    assert_eq!(context.gpu.memory, None);
    assert_eq!(gpu_memory(Some(5), Some(0)), None);
    assert!(gpu_memory(Some(5), Some(1)).is_some());
    assert_eq!(gpu_memory(None, Some(5)), None);
    assert_eq!(gpu_memory(Some(5), None), None);
}

#[test]
fn time_has_two_digits_each() {
    assert_eq!(local_time(0, 0, 0), "00:00:00");
    assert_eq!(local_time(23, 9, 10), "23:09:10");
    for mhz in [0, 1, 799, 3_400, 5_713, 16_777_217, u32::MAX] {
        assert_eq!(mhz_to_ghz(mhz), (mhz as f32 / 1_000.0).to_bits());
    }
}
