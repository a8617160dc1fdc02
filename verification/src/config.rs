//! The settings of the program.

use vstd::prelude::*;

use crate::protocol::{
    clamp_brightness, clamped, clamped_brightness, MAX_BRIGHTNESS, MIN_BRIGHTNESS,
};
use crate::single::is_nan;

verus! {

/// The settings.  Paths are kept as text, `brightness` as the bit pattern of a single-precision number.
#[derive(Debug)]
pub struct Config {
    pub background: Option<String>,
    pub template: String,
    pub font: String,
    pub title: String,
    pub custom_lines: Vec<String>,
    pub fps: u32,
    pub sensor_interval_ms: u64,
    pub brightness: u32,
    pub show_clock: bool,
    pub show_sensors: bool,
}

impl Default for Config {
    fn default() -> (config: Config)
        ensures
            config.background is None,
            config.template@ == "dashboard.svg.jinja"@,
            config.font@ == "C:\\Windows\\Fonts\\segoeui.ttf"@,
            config.title@ == "LoopPanel"@,
            config.custom_lines@.len() == 1,
            config.custom_lines@[0]@ == "Native display"@,
            config.fps == 10,
            config.sensor_interval_ms == 1_000,
            config.brightness == MAX_BRIGHTNESS,
            config.show_clock,
            config.show_sensors,
    {
        let mut custom_lines: Vec<String> = Vec::new();
        custom_lines.push("Native display".to_owned());
        Config {
            background: None,
            template: "dashboard.svg.jinja".to_owned(),
            font: "C:\\Windows\\Fonts\\segoeui.ttf".to_owned(),
            title: "LoopPanel".to_owned(),
            custom_lines,
            fps: 10,
            sensor_interval_ms: 1_000,
            brightness: MAX_BRIGHTNESS,
            show_clock: true,
            show_sensors: true,
        }
    }
}

/// The settings can be used as they are.
pub open spec fn in_limits(config: Config) -> bool {
    &&& 1 <= config.fps <= 30
    &&& config.sensor_interval_ms >= 250
    &&& is_nan(config.brightness) || MIN_BRIGHTNESS <= config.brightness <= MAX_BRIGHTNESS
}

/// The settings brought into their limits.
pub open spec fn constrained(config: Config) -> Config {
    Config {
        fps: clamped(config.fps as int, 1, 30) as u32,
        sensor_interval_ms: if config.sensor_interval_ms < 250 {
            250
        } else {
            config.sensor_interval_ms
        },
        brightness: clamped_brightness(config.brightness),
        ..config
    }
}

impl Config {
    /// Brings the settings of a file into their limits: one to thirty frames per second, at least a
    /// quarter of a second between two readings of the sensors, and a brightness from one twentieth
    /// to one.
    pub fn constrain(&mut self)
        ensures
            *final(self) == constrained(*old(self)),
    {
        if self.fps < 1 {
            self.fps = 1;
        } else if self.fps > 30 {
            self.fps = 30;
        }
        if self.sensor_interval_ms < 250 {
            self.sensor_interval_ms = 250;
        }
        self.brightness = clamp_brightness(self.brightness);
    }
}

/// What the system says of a path.
#[derive(Debug)]
pub struct PathChoice {
    /// The path does not start at a root.
    pub relative: bool,
    /// The path as it is seen from the base directory.
    pub joined: String,
}

/// The path that is meant.
pub open spec fn resolved(path: Seq<char>, choice: PathChoice) -> Seq<char> {
    if choice.relative {
        choice.joined@
    } else {
        path
    }
}

impl Config {
    /// Makes the paths independent of the current directory: relative ones are taken from the base
    /// directory.
    pub fn resolve(
        &mut self,
        background: Option<PathChoice>,
        template: PathChoice,
        font: PathChoice,
    )
        requires
            old(self).background is Some <==> background is Some,
        ensures
            match final(self).background {
                None => old(self).background is None,
                Some(path) => old(self).background matches Some(before) && path@ == resolved(
                    before@,
                    background->0,
                ),
            },
            final(self).template@ == resolved(old(self).template@, template),
            final(self).font@ == resolved(old(self).font@, font),
            *final(self) == (Config {
                background: final(self).background,
                template: final(self).template,
                font: final(self).font,
                ..*old(self)
            }),
    {
        if let Some(background) = background {
            if background.relative {
                self.background = Some(background.joined);
            }
        }
        if template.relative {
            self.template = template.joined;
        }
        if font.relative {
            self.font = font.joined;
        }
    }
}

/// Where the settings come from.
#[derive(Clone, Copy, Debug, PartialEq, Eq, Structural)]
pub enum ConfigSource {
    /// The file is read.
    File,
    /// There is no file, and the defaults are used.
    Defaults,
    /// The file that was asked for does not exist.
    Missing,
}

impl Config {
    /// Where the settings come from: a file that was asked for has to exist, the file beside the
    /// program may be missing.
    pub fn load(explicit: bool, present: bool) -> (source: ConfigSource)
        ensures
            source == if present {
                ConfigSource::File
            } else if explicit {
                ConfigSource::Missing
            } else {
                ConfigSource::Defaults
            },
    {
        if present {
            ConfigSource::File
        } else if explicit {
            ConfigSource::Missing
        } else {
            ConfigSource::Defaults
        }
    }
}

/// Settings can be used once they have been brought into their limits, and settings that are in their
/// limits are not changed by that.
pub proof fn lemma_limits_are_kept(config: Config)
    ensures
        in_limits(constrained(config)),
        in_limits(config) ==> constrained(config) == config,
{
}

/// The number of frames is brought between 1 and 30, the interval of the sensors to 250 milliseconds or
/// more, and the brightness between one twentieth and one, each to the nearest limit; whatever is in its
/// limits stays, and so does everything else.
pub proof fn lemma_settings_are_brought_in(config: &mut Config, constrained: ())
    requires
        call_ensures(Config::constrain, (config,), constrained),
    ensures
        old(config).fps < 1 ==> final(config).fps == 1,
        1 <= old(config).fps <= 30 ==> final(config).fps == old(config).fps,
        old(config).fps > 30 ==> final(config).fps == 30,
        old(config).sensor_interval_ms < 250 ==> final(config).sensor_interval_ms == 250,
        old(config).sensor_interval_ms >= 250 ==> final(config).sensor_interval_ms == old(
            config,
        ).sensor_interval_ms,
        old(config).brightness < 0x3d4c_cccd || 0x8000_0000 <= old(config).brightness <= 0xff80_0000
            ==> final(config).brightness == 0x3d4c_cccd,
        0x3d4c_cccd <= old(config).brightness <= 0x3f80_0000 ==> final(config).brightness == old(
            config,
        ).brightness,
        0x3f80_0000 < old(config).brightness <= 0x7f80_0000 ==> final(config).brightness == 0x3f80_0000,
        0x7f80_0000 < old(config).brightness < 0x8000_0000 || old(config).brightness > 0xff80_0000
            ==> final(config).brightness == old(config).brightness,
        final(config).background == old(config).background,
        final(config).template == old(config).template,
        final(config).font == old(config).font,
        final(config).title == old(config).title,
        final(config).custom_lines == old(config).custom_lines,
        final(config).show_clock == old(config).show_clock,
        final(config).show_sensors == old(config).show_sensors,
{
}

/// A relative path is replaced by its place seen from the base directory; any other stays, and so does
/// everything that is not a path.
pub proof fn lemma_relative_paths_are_joined(
    config: &mut Config,
    background: Option<PathChoice>,
    template: PathChoice,
    font: PathChoice,
    resolved: (),
)
    requires
        old(config).background is Some <==> background is Some,
        call_ensures(Config::resolve, (config, background, template, font), resolved),
    ensures
        final(config).background is Some <==> background is Some,
        background matches Some(choice) ==> final(config).background->0@ == if choice.relative {
            choice.joined@
        } else {
            old(config).background->0@
        },
        template.relative ==> final(config).template@ == template.joined@,
        !template.relative ==> final(config).template@ == old(config).template@,
        font.relative ==> final(config).font@ == font.joined@,
        !font.relative ==> final(config).font@ == old(config).font@,
        final(config).title == old(config).title,
        final(config).custom_lines == old(config).custom_lines,
        final(config).fps == old(config).fps,
        final(config).sensor_interval_ms == old(config).sensor_interval_ms,
        final(config).brightness == old(config).brightness,
        final(config).show_clock == old(config).show_clock,
        final(config).show_sensors == old(config).show_sensors,
{
}

/// A file that is there is read; one that is not is missed only if it was asked for.
pub proof fn lemma_missing_file_is_missed(explicit: bool, present: bool, source: ConfigSource)
    requires
        call_ensures(Config::load, (explicit, present), source),
    ensures
        source is File <==> present,
        source is Missing <==> explicit && !present,
        source is Defaults <==> !explicit && !present,
{
}

} // verus!
