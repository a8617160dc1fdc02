use looppanel::config::{Config, ConfigSource, PathChoice};

#[test]
fn settings_are_brought_into_their_limits() {
    let mut config = Config::default();
    config.fps = 0;
    config.sensor_interval_ms = 10;
    config.brightness = 7.0_f32.to_bits();
    config.constrain();
    assert_eq!(config.fps, 1);
    assert_eq!(config.sensor_interval_ms, 250);
    assert_eq!(config.brightness, 1.0_f32.to_bits());
    config.fps = 100;
    config.sensor_interval_ms = 5_000;
    config.brightness = 0.0_f32.to_bits();
    config.constrain();
    assert_eq!(config.fps, 30);
    assert_eq!(config.sensor_interval_ms, 5_000);
    assert_eq!(config.brightness, 0.05_f32.to_bits());
    config.constrain();
    assert_eq!((config.fps, config.brightness), (30, 0.05_f32.to_bits()));
}

#[test]
fn defaults_are_within_the_limits() {
    let mut config = Config::default();
    config.constrain();
    assert_eq!(config.fps, 10);
    assert_eq!(config.sensor_interval_ms, 1_000);
    assert_eq!(config.brightness, 1.0_f32.to_bits());
    assert_eq!(config.title, "LoopPanel");
    assert_eq!(config.template, "dashboard.svg.jinja");
    assert_eq!(config.font, r"C:\Windows\Fonts\segoeui.ttf");
    assert_eq!(config.custom_lines, ["Native display"]);
    assert!(config.background.is_none() && config.show_clock && config.show_sensors);
}

#[test]
fn file_that_was_asked_for_has_to_exist() {
    assert_eq!(Config::load(true, true), ConfigSource::File);
    assert_eq!(Config::load(false, true), ConfigSource::File);
    assert_eq!(Config::load(true, false), ConfigSource::Missing);
    assert_eq!(Config::load(false, false), ConfigSource::Defaults);
}

#[test]
fn relative_paths_are_taken_from_the_base() {
    let choice = |relative: bool, joined: &str| PathChoice { relative, joined: joined.to_owned() };
    let mut config = Config::default();
    config.background = Some("a.gif".to_owned());
    config.resolve(
        Some(choice(true, "/base/a.gif")),
        choice(true, "/base/t"),
        choice(false, "/base/f"),
    );
    assert_eq!(config.background.as_deref(), Some("/base/a.gif"));
    assert_eq!(config.template, "/base/t");
    assert_eq!(config.font, r"C:\Windows\Fonts\segoeui.ttf");
    assert_eq!(config.title, "LoopPanel");
    config.background = None;
    config.resolve(None, choice(false, "x"), choice(true, "y"));
    assert_eq!(config.background, None);
    assert_eq!(config.template, "/base/t");
    assert_eq!(config.font, "y");
}
