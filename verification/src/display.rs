//! How the display is started, when it is redrawn, and when a frame is sent to it.
//!
//! Times are nanoseconds since the display was started.

use vstd::prelude::*;

use crate::audio::SAMPLE_INTERVAL;
use crate::config::{Config, ConfigSource};
use crate::image::Image;
use crate::media::{frame_limit, is_display, lemma_frame_limit, Background};
use crate::protocol::{
    brightness_scale, frame_header, frame_packet, frame_trailer, is_uyvy_of, rgba_to_uyvy,
    ProtocolError, HEIGHT, WIDTH,
};

verus! {

/// A second.
pub const SECOND: u128 = 1_000_000_000;

/// A millisecond.
pub const MILLISECOND: u128 = 1_000_000;

/// The deadlines of everything that happens while the display runs.
#[derive(Clone, Copy, Debug)]
pub struct Schedule {
    /// The background changes by itself.
    pub animated: bool,
    /// Sensor values are shown.
    pub show_sensors: bool,
    /// The time is shown.
    pub show_clock: bool,
    /// The audio spectrum is open.
    pub audio: bool,
    /// The last reading of the spectrum was not silent.
    pub sounding: bool,
    /// The time between two readings of the sensors.
    pub sensor_interval: u128,
    /// The frame of the background that is shown.
    pub frame_index: usize,
    pub next_sensor: u128,
    pub next_content: u128,
    pub next_repeat: u128,
    pub next_dashboard: u128,
    pub next_audio: u128,
}

/// What is due at a moment.
#[derive(Clone, Copy, Debug, PartialEq, Eq, Structural)]
pub struct Due {
    /// The sensors are to be read.
    pub sensors: bool,
    /// The dashboard is to be drawn anew.
    pub dashboard: bool,
    /// The audio spectrum is to be read.
    pub audio: bool,
    /// The background moves on to its next frame.
    pub content: bool,
    /// The frame is to be sent even if it has not changed.
    pub repeat: bool,
}

/// What a reading of the audio spectrum gave.
#[derive(Clone, Copy, Debug, PartialEq, Eq, Structural)]
pub enum AudioReading {
    /// The spectrum was not read.
    NotRead,
    /// Levels; `sounding` if one of them is above zero.
    Levels { sounding: bool },
    /// The spectrum cannot be read any more.
    Lost,
}

/// What is to be done with the frame.
#[derive(Clone, Copy, Debug, PartialEq, Eq, Structural)]
pub struct FrameAction {
    /// The frame is composed and encoded anew.
    pub compose: bool,
    /// The frame is sent.
    pub send: bool,
}

/// The earlier of two times.
pub open spec fn earlier(a: u128, b: u128) -> u128 {
    if a <= b {
        a
    } else {
        b
    }
}

/// The first of the times `start`, `start + SECOND`, `start + 2 * SECOND` and so on that lies after
/// `now`.
pub open spec fn next_second(start: int, now: int) -> int {
    if start > now {
        start
    } else {
        start + ((now - start) / (SECOND as int) + 1) * SECOND
    }
}

impl Schedule {
    /// The dashboard is drawn anew from time to time.
    pub open spec fn dashboard_shown(self) -> bool {
        self.show_clock || self.show_sensors
    }

    /// The earliest deadline that counts.
    pub open spec fn deadline(self) -> u128 {
        let repeat = self.next_repeat;
        let content = if self.animated {
            earlier(repeat, self.next_content)
        } else {
            repeat
        };
        let sensors = if self.show_sensors {
            earlier(content, self.next_sensor)
        } else {
            content
        };
        let dashboard = if self.dashboard_shown() {
            earlier(sensors, self.next_dashboard)
        } else {
            sensors
        };
        if self.audio {
            earlier(dashboard, self.next_audio)
        } else {
            dashboard
        }
    }

    /// What is due at `now`.
    pub open spec fn due(self, now: u64) -> Due {
        Due {
            sensors: self.show_sensors && now >= self.next_sensor,
            dashboard: self.dashboard_shown() && now >= self.next_dashboard,
            audio: self.audio && now >= self.next_audio,
            content: self.animated && now >= self.next_content,
            repeat: now >= self.next_repeat,
        }
    }

    /// The deadlines stay where numbers can hold them.
    pub open spec fn wf(self) -> bool {
        &&& self.sensor_interval <= u64::MAX * MILLISECOND
        &&& self.next_dashboard <= u64::MAX + SECOND
        &&& self.next_dashboard % SECOND == 0
    }

    /// The schedule once everything that is due at `now` has been found out.
    pub open spec fn after_wake(self, now: u64) -> Schedule {
        let due = self.due(now);
        Schedule {
            next_sensor: if due.sensors {
                (now + self.sensor_interval) as u128
            } else {
                self.next_sensor
            },
            next_dashboard: if due.dashboard {
                next_second(self.next_dashboard as int, now as int) as u128
            } else {
                self.next_dashboard
            },
            next_audio: if due.audio {
                (now + SAMPLE_INTERVAL) as u128
            } else {
                self.next_audio
            },
            ..self
        }
    }

    /// What is done with the frame.  It is composed anew only if something in it has changed, and
    /// sent if it is new or has not been sent for a second.
    pub open spec fn action(self, due: Due, reading: AudioReading) -> FrameAction {
        let compose = audio_changed(reading, self.sounding) || due.content || (due.dashboard
            && !self.animated);
        FrameAction { compose, send: compose || due.repeat }
    }

    /// The schedule once the frame has been dealt with.
    pub open spec fn after_finish(
        self,
        now: u64,
        due: Due,
        reading: AudioReading,
        background: Background,
        fps: u32,
    ) -> Schedule {
        Schedule {
            audio: self.audio && reading != AudioReading::Lost,
            sounding: match reading {
                AudioReading::NotRead => self.sounding,
                AudioReading::Levels { sounding } => sounding,
                AudioReading::Lost => false,
            },
            frame_index: if due.content {
                next_index(self.frame_index)
            } else {
                self.frame_index
            },
            next_content: if due.content {
                (now + background.shown_for(next_index(self.frame_index) as int, fps as int))
                    as u128
            } else {
                self.next_content
            },
            next_repeat: if self.action(due, reading).send {
                (now + SECOND) as u128
            } else {
                self.next_repeat
            },
            ..self
        }
    }

    /// The schedule at the start.  `sensor_interval_ms` is in milliseconds, `first_delay` is how
    /// long the first frame of the background is shown.
    pub fn new(
        animated: bool,
        show_sensors: bool,
        show_clock: bool,
        audio: bool,
        sounding: bool,
        sensor_interval_ms: u64,
        first_delay: u64,
    ) -> (schedule: Schedule)
        ensures
            schedule.wf(),
            schedule == (Schedule {
                animated,
                show_sensors,
                show_clock,
                audio,
                sounding,
                sensor_interval: (sensor_interval_ms * MILLISECOND) as u128,
                frame_index: 0,
                next_sensor: (sensor_interval_ms * MILLISECOND) as u128,
                next_content: first_delay as u128,
                next_repeat: SECOND,
                next_dashboard: SECOND,
                next_audio: SAMPLE_INTERVAL,
            }),
    {
        let sensor_interval: u128 = sensor_interval_ms as u128 * 1_000_000;
        Schedule {
            animated,
            show_sensors,
            show_clock,
            audio,
            sounding,
            sensor_interval,
            frame_index: 0,
            next_sensor: sensor_interval,
            next_content: first_delay as u128,
            next_repeat: SECOND,
            next_dashboard: SECOND,
            next_audio: SAMPLE_INTERVAL,
        }
    }

    /// How long to sleep from `now` on.
    pub fn wait(&self, now: u64) -> (wait: u128)
        ensures
            wait == if self.deadline() > now {
                self.deadline() - now
            } else {
                0
            },
    {
        let mut wake_at: u128 = self.next_repeat;
        if self.animated && self.next_content < wake_at {
            wake_at = self.next_content;
        }
        if self.show_sensors && self.next_sensor < wake_at {
            wake_at = self.next_sensor;
        }
        if (self.show_clock || self.show_sensors) && self.next_dashboard < wake_at {
            wake_at = self.next_dashboard;
        }
        if self.audio && self.next_audio < wake_at {
            wake_at = self.next_audio;
        }
        if wake_at > now as u128 {
            wake_at - now as u128
        } else {
            0
        }
    }

    /// Finds out what is due at `now`, and moves the deadlines of the sensors, the dashboard and the
    /// audio spectrum on.
    pub fn wake(&mut self, now: u64) -> (due: Due)
        requires
            old(self).wf(),
        ensures
            final(self).wf(),
            due == old(self).due(now),
            *final(self) == old(self).after_wake(now),
    {
        let time: u128 = now as u128;
        let due = Due {
            sensors: self.show_sensors && time >= self.next_sensor,
            dashboard: (self.show_clock || self.show_sensors) && time >= self.next_dashboard,
            audio: self.audio && time >= self.next_audio,
            content: self.animated && time >= self.next_content,
            repeat: time >= self.next_repeat,
        };
        if due.sensors {
            self.next_sensor = time + self.sensor_interval;
        }
        if due.dashboard {
            self.next_dashboard = find_next_second(self.next_dashboard, time);
        }
        if due.audio {
            self.next_audio = time + SAMPLE_INTERVAL;
        }
        due
    }

    /// Decides what is done with the frame, once the audio spectrum has been read if it was due.
    pub fn finish(
        &mut self,
        now: u64,
        due: Due,
        reading: AudioReading,
        background: &Background,
        fps: u32,
    ) -> (action: FrameAction)
        requires
            old(self).wf(),
            background.wf(),
            fps > 0,
            due.audio == (reading != AudioReading::NotRead),
        ensures
            final(self).wf(),
            action == old(self).action(due, reading),
            *final(self) == old(self).after_finish(now, due, reading, *background, fps),
    {
        let mut compose: bool = false;
        match reading {
            AudioReading::NotRead => {},
            AudioReading::Levels { sounding } => {
                self.sounding = sounding;
                compose = true;
            },
            AudioReading::Lost => {
                compose = self.sounding;
                self.audio = false;
                self.sounding = false;
            },
        }
        if due.content {
            self.frame_index = if self.frame_index == usize::MAX {
                0
            } else {
                self.frame_index + 1
            };
            let delay: u64 = background.delay(self.frame_index, fps);
            self.next_content = now as u128 + delay as u128;
            compose = true;
        }
        if due.dashboard && !self.animated {
            compose = true;
        }
        let send: bool = compose || due.repeat;
        if send {
            self.next_repeat = now as u128 + SECOND;
        }
        FrameAction { compose, send }
    }
}

fn find_next_second(start: u128, now: u128) -> (next: u128)
    requires
        start <= now <= u64::MAX,
        start % SECOND == 0,
    ensures
        next == next_second(start as int, now as int),
        now < next <= now + SECOND,
        next % SECOND == 0,
{
    let behind: u128 = (now - start) / 1_000_000_000 + 1;
    start + behind * 1_000_000_000
}

/// The frame after `index`; after the last number comes zero.
pub open spec fn next_index(index: usize) -> usize {
    if index == usize::MAX {
        0
    } else {
        (index + 1) as usize
    }
}

/// A reading of the spectrum changes what is shown.
pub open spec fn audio_changed(reading: AudioReading, sounding: bool) -> bool {
    match reading {
        AudioReading::NotRead => false,
        AudioReading::Levels { .. } => true,
        AudioReading::Lost => sounding,
    }
}

/// Encodes a frame for the display.
pub fn encode_frame(image: &Image, brightness: u32) -> (packet: Result<
    Vec<u8>,
    ProtocolError,
>)
    requires
        is_display(*image),
    ensures
        packet matches Ok(packet) && is_frame_of(packet@, *image, brightness),
{
    let uyvy = match rgba_to_uyvy(image, brightness) {
        Ok(uyvy) => uyvy,
        Err(error) => return Err(error),
    };
    proof {
        lemma_even_pixels(*image);
    }
    let packet = frame_packet(&uyvy, WIDTH, HEIGHT);
    proof {
        assert(packet->Ok_0@.subrange(8, 460_808) =~= uyvy@);
    }
    packet
}

proof fn lemma_even_pixels(image: Image)
    requires
        is_display(image),
    ensures
        image.pixels@.len() == 230_400,
{
}

/// `packet` is what is sent for `image`.
pub open spec fn is_frame_of(packet: Seq<u8>, image: Image, brightness: u32) -> bool {
    let uyvy = packet.subrange(8, 460_808);
    &&& packet == frame_header(WIDTH, HEIGHT) + uyvy + frame_trailer()
    &&& is_uyvy_of(uyvy, image.pixels@, 115_200, brightness_scale(brightness))
}

/// The steps from the settings to a running display.
#[derive(Clone, Copy, Debug, PartialEq, Eq, Structural)]
pub enum StartStep {
    /// Read the settings from their file.
    ReadConfig,
    /// Load the background.
    LoadBackground,
    /// Load the template and its font.
    LoadTemplate,
    /// Read the sensors for the first time.
    ReadSensors {
        /// The template wants the spectrum.
        audio: bool,
    },
    /// Listen to what is played.
    OpenAudio,
    /// Draw the dashboard.
    DrawDashboard,
    /// Compose and encode the first frame.
    EncodeFrame,
    /// See whether the display is to be stopped already.
    CheckStop,
    /// Make sure that no other program drives the display.
    CheckConflict,
    /// Open the display.
    OpenDevice,
    /// Initialise the display with the first frame.
    SendFirstFrame,
    /// Make sure that no other program has started in the meantime.
    CheckConflictAgain,
    /// Tell that the display runs.
    Announce,
    /// The display runs.
    Run,
    /// The display was stopped before it was opened.
    Stopped,
    /// A step did not succeed.
    Failed(StartError),
}

/// Why the display does not run.
#[derive(Clone, Copy, Debug, PartialEq, Eq, Structural)]
pub enum StartError {
    /// The file with the settings that was asked for does not exist.
    ConfigMissing,
    /// The file with the settings cannot be used.
    Config,
    /// The background cannot be used.
    Background,
    /// The template or its font cannot be used.
    Template,
    /// The dashboard cannot be drawn.
    Dashboard,
    /// The first frame cannot be encoded.
    Frame,
    /// Another program drives the display.
    Conflict,
    /// The display cannot be opened.
    Device,
    /// The display cannot be initialised.
    FirstFrame,
}

/// What came of a step.
#[derive(Clone, Copy, Debug, PartialEq, Eq, Structural)]
pub enum StartEvent {
    /// The step succeeded.
    Succeeded,
    /// The step did not succeed.
    Failed,
    /// The template was loaded.
    Loaded {
        /// The template wants the spectrum.
        audio: bool,
    },
    /// It was asked whether the display is to be stopped.
    Asked {
        /// The display is to be stopped.
        stop: bool,
    },
}

/// `next` if the step succeeded.
pub open spec fn step_or_failure(
    event: StartEvent,
    next: StartStep,
    error: StartError,
) -> StartStep {
    if event == StartEvent::Succeeded {
        next
    } else {
        StartStep::Failed(error)
    }
}

/// The step after `step`.  The sensors and the spectrum do without, if they have to, and what does
/// not answer a step counts as its failure; the display goes on only if it is told not to stop.
pub open spec fn step_after(step: StartStep, event: StartEvent) -> StartStep {
    match step {
        StartStep::ReadConfig => step_or_failure(
            event,
            StartStep::LoadBackground,
            StartError::Config,
        ),
        StartStep::LoadBackground => step_or_failure(
            event,
            StartStep::LoadTemplate,
            StartError::Background,
        ),
        StartStep::LoadTemplate => match event {
            StartEvent::Loaded { audio } => StartStep::ReadSensors { audio },
            _ => StartStep::Failed(StartError::Template),
        },
        StartStep::ReadSensors { audio } => if audio {
            StartStep::OpenAudio
        } else {
            StartStep::DrawDashboard
        },
        StartStep::OpenAudio => StartStep::DrawDashboard,
        StartStep::DrawDashboard => step_or_failure(
            event,
            StartStep::EncodeFrame,
            StartError::Dashboard,
        ),
        StartStep::EncodeFrame => step_or_failure(event, StartStep::CheckStop, StartError::Frame),
        StartStep::CheckStop => if event == (StartEvent::Asked { stop: false }) {
            StartStep::CheckConflict
        } else {
            StartStep::Stopped
        },
        StartStep::CheckConflict => step_or_failure(
            event,
            StartStep::OpenDevice,
            StartError::Conflict,
        ),
        StartStep::OpenDevice => step_or_failure(
            event,
            StartStep::SendFirstFrame,
            StartError::Device,
        ),
        StartStep::SendFirstFrame => step_or_failure(
            event,
            StartStep::CheckConflictAgain,
            StartError::FirstFrame,
        ),
        StartStep::CheckConflictAgain => step_or_failure(
            event,
            StartStep::Announce,
            StartError::Conflict,
        ),
        StartStep::Announce => StartStep::Run,
        StartStep::Run => StartStep::Run,
        StartStep::Stopped => StartStep::Stopped,
        StartStep::Failed(error) => StartStep::Failed(error),
    }
}

/// The first step: a file with settings that was asked for has to exist, and a file that exists is
/// read.
pub open spec fn first_step(explicit: bool, present: bool) -> StartStep {
    if present {
        StartStep::ReadConfig
    } else if explicit {
        StartStep::Failed(StartError::ConfigMissing)
    } else {
        StartStep::LoadBackground
    }
}

/// The first step, by whether a file with settings was asked for, and whether it is there.
pub fn run_until(explicit: bool, present: bool) -> (step: StartStep)
    ensures
        step == first_step(explicit, present),
{
    match Config::load(explicit, present) {
        ConfigSource::File => StartStep::ReadConfig,
        ConfigSource::Missing => StartStep::Failed(StartError::ConfigMissing),
        ConfigSource::Defaults => StartStep::LoadBackground,
    }
}

fn next_or_failure(event: StartEvent, next: StartStep, error: StartError) -> (step: StartStep)
    ensures
        step == step_or_failure(event, next, error),
{
    match event {
        StartEvent::Succeeded => next,
        _ => StartStep::Failed(error),
    }
}

impl StartStep {
    /// The step that follows.
    pub fn next(self, event: StartEvent) -> (step: StartStep)
        ensures
            step == step_after(self, event),
    {
        match self {
            StartStep::ReadConfig => next_or_failure(
                event,
                StartStep::LoadBackground,
                StartError::Config,
            ),
            StartStep::LoadBackground => next_or_failure(
                event,
                StartStep::LoadTemplate,
                StartError::Background,
            ),
            StartStep::LoadTemplate => match event {
                StartEvent::Loaded { audio } => StartStep::ReadSensors { audio },
                _ => StartStep::Failed(StartError::Template),
            },
            StartStep::ReadSensors { audio } => if audio {
                StartStep::OpenAudio
            } else {
                StartStep::DrawDashboard
            },
            StartStep::OpenAudio => StartStep::DrawDashboard,
            StartStep::DrawDashboard => next_or_failure(
                event,
                StartStep::EncodeFrame,
                StartError::Dashboard,
            ),
            StartStep::EncodeFrame => next_or_failure(
                event,
                StartStep::CheckStop,
                StartError::Frame,
            ),
            StartStep::CheckStop => match event {
                StartEvent::Asked { stop: false } => StartStep::CheckConflict,
                _ => StartStep::Stopped,
            },
            StartStep::CheckConflict => next_or_failure(
                event,
                StartStep::OpenDevice,
                StartError::Conflict,
            ),
            StartStep::OpenDevice => next_or_failure(
                event,
                StartStep::SendFirstFrame,
                StartError::Device,
            ),
            StartStep::SendFirstFrame => next_or_failure(
                event,
                StartStep::CheckConflictAgain,
                StartError::FirstFrame,
            ),
            StartStep::CheckConflictAgain => next_or_failure(
                event,
                StartStep::Announce,
                StartError::Conflict,
            ),
            StartStep::Announce => StartStep::Run,
            StartStep::Run => StartStep::Run,
            StartStep::Stopped => StartStep::Stopped,
            StartStep::Failed(error) => StartStep::Failed(error),
        }
    }
}

/// The step reached from a first step after a number of events.
pub open spec fn step_reached(first: StartStep, events: Seq<StartEvent>) -> StartStep
    decreases events.len(),
{
    if events.len() == 0 {
        first
    } else {
        step_after(step_reached(first, events.drop_last()), events.last())
    }
}

/// How far a step is from the settings.  A display that is stopped has not come past the question
/// whether it is to be stopped.
pub open spec fn progress(step: StartStep) -> int {
    match step {
        StartStep::ReadConfig => 0,
        StartStep::LoadBackground => 1,
        StartStep::LoadTemplate => 2,
        StartStep::ReadSensors { .. } => 3,
        StartStep::OpenAudio => 4,
        StartStep::DrawDashboard => 5,
        StartStep::EncodeFrame => 6,
        StartStep::CheckStop => 7,
        StartStep::Stopped => 7,
        StartStep::CheckConflict => 8,
        StartStep::OpenDevice => 9,
        StartStep::SendFirstFrame => 10,
        StartStep::CheckConflictAgain => 11,
        StartStep::Announce => 12,
        StartStep::Run => 13,
        StartStep::Failed(_) => -1,
    }
}

/// The display comes past a step with an event.
pub open spec fn comes_past(step: StartStep, event: StartEvent) -> bool {
    progress(step_after(step, event)) > progress(step)
}

/// The display came past `step` with the event at `index`.
pub open spec fn came_past_at(
    first: StartStep,
    events: Seq<StartEvent>,
    step: StartStep,
    index: int,
) -> bool {
    &&& 0 <= index < events.len()
    &&& step_reached(first, events.take(index)) == step
    &&& comes_past(step, events[index])
}

/// The display came past `step`.
pub open spec fn came_past(first: StartStep, events: Seq<StartEvent>, step: StartStep) -> bool {
    exists|index: int| #[trigger] came_past_at(first, events, step, index)
}

/// Steps that no start leaves out.
pub open spec fn is_needed(step: StartStep) -> bool {
    !(step is ReadSensors || step is OpenAudio || step is Stopped || step is Failed || step is Run)
}

/// A file with settings that was asked for and does not exist is an error, whatever happens, and even
/// if the display is to be stopped.
pub proof fn lemma_missing_config_is_an_error(events: Seq<StartEvent>)
    ensures
        step_reached(first_step(true, false), events) == StartStep::Failed(
            StartError::ConfigMissing,
        ),
    decreases events.len(),
{
    if events.len() > 0 {
        lemma_missing_config_is_an_error(events.drop_last());
    }
}

/// No step is reached before all needed steps before it have succeeded.  So the display is opened only
/// after a check that no other program drives it; that it runs is told only after a second check; and
/// it is stopped without an error only when everything could be prepared.
pub proof fn lemma_steps_build_on_each_other(
    explicit: bool,
    present: bool,
    events: Seq<StartEvent>,
    step: StartStep,
)
    requires
        is_needed(step),
        progress(first_step(explicit, present)) <= progress(step) < progress(
            step_reached(first_step(explicit, present), events),
        ),
        !(first_step(explicit, present) is Failed),
    ensures
        came_past(first_step(explicit, present), events, step),
    decreases events.len(),
{
    let first = first_step(explicit, present);
    if events.len() > 0 {
        let before = events.drop_last();
        let index = events.len() - 1;
        let previous = step_reached(first, before);
        assert(events.take(index) =~= before);
        if progress(step) < progress(previous) {
            lemma_steps_build_on_each_other(explicit, present, before, step);
            let found = choose|found: int| #[trigger] came_past_at(first, before, step, found);
            assert(events.take(found) =~= before.take(found));
            assert(came_past_at(first, events, step, found));
        } else {
            assert(came_past_at(first, events, step, index));
        }
    }
}

/// It is told at most once that the display runs.
pub proof fn lemma_display_is_announced_once(
    first: StartStep,
    events: Seq<StartEvent>,
    earlier: int,
    later: int,
)
    requires
        0 <= earlier <= later <= events.len(),
        step_reached(first, events.take(earlier)) == StartStep::Announce,
        step_reached(first, events.take(later)) == StartStep::Announce,
    ensures
        earlier == later,
{
    if earlier < later {
        lemma_running_display_runs(first, events, earlier, later);
    }
}

proof fn lemma_running_display_runs(
    first: StartStep,
    events: Seq<StartEvent>,
    earlier: int,
    later: int,
)
    requires
        0 <= earlier < later <= events.len(),
        step_reached(first, events.take(earlier)) == StartStep::Announce,
    ensures
        step_reached(first, events.take(later)) == StartStep::Run,
    decreases later,
{
    assert(events.take(later).drop_last() =~= events.take(later - 1));
    if earlier < later - 1 {
        lemma_running_display_runs(first, events, earlier, later - 1);
    }
}

/// With each of the events the display comes past a step, or it runs already.
pub open spec fn all_come_past(first: StartStep, events: Seq<StartEvent>) -> bool {
    forall|index: int|
        0 <= index < events.len() ==> step_reached(first, #[trigger] events.take(index))
            == StartStep::Run || comes_past(
            step_reached(first, events.take(index)),
            events[index],
        )
}

/// A start whose steps all succeed ends with a running display.
pub proof fn lemma_start_succeeds(explicit: bool, present: bool, events: Seq<StartEvent>)
    requires
        !(first_step(explicit, present) is Failed),
        all_come_past(first_step(explicit, present), events),
        events.len() >= 13,
    ensures
        step_reached(first_step(explicit, present), events) == StartStep::Run,
{
    lemma_start_proceeds(first_step(explicit, present), events);
}

proof fn lemma_start_proceeds(first: StartStep, events: Seq<StartEvent>)
    requires
        progress(first) >= 0,
        all_come_past(first, events),
    ensures
        progress(step_reached(first, events)) >= events.len() || step_reached(first, events)
            == StartStep::Run,
    decreases events.len(),
{
    if events.len() > 0 {
        let before = events.drop_last();
        let index = events.len() - 1;
        assert(events.take(index) =~= before);
        assert forall|i: int| 0 <= i < before.len() implies step_reached(
            first,
            #[trigger] before.take(i),
        ) == StartStep::Run || comes_past(step_reached(first, before.take(i)), before[i]) by {
            assert(before.take(i) =~= events.take(i));
        }
        lemma_start_proceeds(first, before);
    }
}

/// The display never sleeps past the time at which its frame has to be sent again, and the frame is
/// sent then; it is never longer than a second after the last frame.
pub proof fn lemma_frame_is_kept_alive(
    schedule: Schedule,
    now: u64,
    reading: AudioReading,
    background: Background,
    fps: u32,
)
    requires
        schedule.next_repeat <= now + SECOND,
    ensures
        schedule.deadline() <= schedule.next_repeat,
        now >= schedule.next_repeat ==> schedule.after_wake(now).action(
            schedule.due(now),
            reading,
        ).send,
        ({
            let done = schedule.after_wake(now).after_finish(
                now,
                schedule.due(now),
                reading,
                background,
                fps,
            );
            now < done.next_repeat <= now + SECOND
        }),
{
}

/// After everything that was due has been done, nothing is due: the display sleeps before it works
/// again.
pub proof fn lemma_display_sleeps_in_between(
    schedule: Schedule,
    now: u64,
    reading: AudioReading,
    background: Background,
    fps: u32,
)
    requires
        schedule.wf(),
        schedule.sensor_interval > 0,
        background.wf(),
        1 <= fps <= 30,
        schedule.due(now).audio == (reading != AudioReading::NotRead),
    ensures
        schedule.after_wake(now).after_finish(
            now,
            schedule.due(now),
            reading,
            background,
            fps,
        ).deadline() > now,
{
    let due = schedule.due(now);
    let index = next_index(schedule.frame_index) as int;
    lemma_frame_limit(fps);
    assert(background.shown_for(index, fps as int) > 0);
    if let Background::Frames(frames) = background {
        assert(frames@.len() > 0);
    }
}

/// With a still picture, no clock, no sensors and no audio spectrum the frame never changes, and is
/// sent exactly when a second is over.
pub proof fn lemma_still_display_only_repeats(schedule: Schedule, now: u64)
    requires
        !schedule.animated,
        !schedule.dashboard_shown(),
        !schedule.audio,
    ensures
        schedule.after_wake(now).action(schedule.due(now), AudioReading::NotRead) == (FrameAction {
            compose: false,
            send: now >= schedule.next_repeat,
        }),
{
}

/// Nothing happens more often than it should: the sensors are not read again before their interval is
/// over, the dashboard is drawn at most once in a second, the spectrum is not read again before a
/// fifth of a second is over, and no frame of the background is shown for less time than the frame
/// rate allows.
pub proof fn lemma_rates_are_limited(
    schedule: Schedule,
    now: u64,
    reading: AudioReading,
    background: Background,
    fps: u32,
    later: u64,
)
    requires
        schedule.wf(),
        fps > 0,
        now <= later,
    ensures
        ({
            let due = schedule.due(now);
            let done = schedule.after_wake(now).after_finish(now, due, reading, background, fps);
            let again = done.due(later);
            &&& due.sensors && later < now + schedule.sensor_interval ==> !again.sensors
            &&& due.dashboard && later as int / SECOND as int == now as int / SECOND as int
                ==> !again.dashboard
            &&& due.audio && later < now + SAMPLE_INTERVAL ==> !again.audio
            &&& due.content && later < now + frame_limit(fps as int) ==> !again.content
        }),
{
    let due = schedule.due(now);
    lemma_frame_limit(fps);
    assert(background.shown_for(next_index(schedule.frame_index) as int, fps as int) >= frame_limit(
        fps as int,
    ));
    if due.dashboard {
        let start = schedule.next_dashboard as int;
        let second = SECOND as int;
        let next = next_second(start, now as int);
        assert(now < next <= now + second && next % second == 0) by {
            assert(start % 1_000_000_000 == 0);
        }
    }
}

/// A schedule starts with the settings it is given: the sensors are read after their interval, the
/// background moves on once its first frame has been shown, the dashboard is drawn and the frame is
/// sent after a second, and the spectrum is read after a fifth of a second.
pub proof fn lemma_schedule_starts(
    animated: bool,
    show_sensors: bool,
    show_clock: bool,
    audio: bool,
    sounding: bool,
    sensor_interval_ms: u64,
    first_delay: u64,
    schedule: Schedule,
)
    requires
        call_ensures(
            Schedule::new,
            (
                animated,
                show_sensors,
                show_clock,
                audio,
                sounding,
                sensor_interval_ms,
                first_delay,
            ),
            schedule,
        ),
    ensures
        schedule.wf(),
        schedule.animated == animated,
        schedule.show_sensors == show_sensors,
        schedule.show_clock == show_clock,
        schedule.audio == audio,
        schedule.sounding == sounding,
        schedule.frame_index == 0,
        schedule.sensor_interval == 1_000_000 * sensor_interval_ms,
        schedule.next_sensor == 1_000_000 * sensor_interval_ms,
        schedule.next_content == first_delay,
        schedule.next_repeat == 1_000_000_000,
        schedule.next_dashboard == 1_000_000_000,
        schedule.next_audio == 200_000_000,
{
}

/// Whatever is shown comes due from its time on, and nothing before: the dashboard if the clock or the
/// sensors are shown, the sensors if they are shown, the background if it is animated, the spectrum if
/// it is open, and the frame in any case.
pub proof fn lemma_what_is_shown_comes_due(schedule: &mut Schedule, now: u64, due: Due)
    requires
        old(schedule).wf(),
        call_ensures(Schedule::wake, (schedule, now), due),
    ensures
        old(schedule).show_clock && now >= old(schedule).next_dashboard ==> due.dashboard,
        old(schedule).show_sensors && now >= old(schedule).next_dashboard ==> due.dashboard,
        old(schedule).show_sensors && now >= old(schedule).next_sensor ==> due.sensors,
        old(schedule).animated && now >= old(schedule).next_content ==> due.content,
        old(schedule).audio && now >= old(schedule).next_audio ==> due.audio,
        now >= old(schedule).next_repeat ==> due.repeat,
        due.dashboard ==> now >= old(schedule).next_dashboard && (old(schedule).show_clock || old(schedule).show_sensors),
        due.sensors ==> now >= old(schedule).next_sensor && old(schedule).show_sensors,
        due.content ==> now >= old(schedule).next_content && old(schedule).animated,
        due.audio ==> now >= old(schedule).next_audio && old(schedule).audio,
        due.repeat ==> now >= old(schedule).next_repeat,
{
}

/// Waking up sets the deadlines of what is due anew, and changes nothing else.  The sensors come due
/// again after their interval and the spectrum after a fifth of a second; the dashboard keeps its pace
/// of a second, and leaves out what has been missed.
pub proof fn lemma_waking_moves_deadlines(schedule: &mut Schedule, now: u64, due: Due)
    requires
        old(schedule).wf(),
        call_ensures(Schedule::wake, (schedule, now), due),
    ensures
        due.sensors ==> final(schedule).next_sensor - now == old(schedule).sensor_interval,
        due.audio ==> final(schedule).next_audio - now == 200_000_000,
        due.dashboard ==> now < final(schedule).next_dashboard <= now + 1_000_000_000 && (final(schedule).next_dashboard - old(schedule).next_dashboard) % 1_000_000_000 == 0,
        !due.sensors ==> final(schedule).next_sensor == old(schedule).next_sensor,
        !due.audio ==> final(schedule).next_audio == old(schedule).next_audio,
        !due.dashboard ==> final(schedule).next_dashboard == old(schedule).next_dashboard,
        final(schedule).next_content == old(schedule).next_content,
        final(schedule).next_repeat == old(schedule).next_repeat,
        final(schedule).frame_index == old(schedule).frame_index,
        final(schedule).sensor_interval == old(schedule).sensor_interval,
        final(schedule).animated == old(schedule).animated,
        final(schedule).show_sensors == old(schedule).show_sensors,
        final(schedule).show_clock == old(schedule).show_clock,
        final(schedule).audio == old(schedule).audio,
        final(schedule).sounding == old(schedule).sounding,
{
    if due.dashboard {
        let start = old(schedule).next_dashboard as int;
        let steps = (now - start) / 1_000_000_000 + 1;
        assert(start + steps * 1_000_000_000 == final(schedule).next_dashboard);
        assert((steps * 1_000_000_000) % 1_000_000_000 == 0);
    }
}

/// The display never sleeps past the time of anything that is shown, and it wakes up at the time of
/// something that is shown.
pub proof fn lemma_sleep_ends_in_time(schedule: &Schedule, now: u64, wait: u128)
    requires
        call_ensures(Schedule::wait, (schedule, now), wait),
    ensures
        wait == 0 || now + wait <= schedule.next_repeat,
        schedule.show_clock ==> wait == 0 || now + wait <= schedule.next_dashboard,
        schedule.show_sensors ==> wait == 0 || now + wait <= schedule.next_dashboard,
        schedule.show_sensors ==> wait == 0 || now + wait <= schedule.next_sensor,
        schedule.animated ==> wait == 0 || now + wait <= schedule.next_content,
        schedule.audio ==> wait == 0 || now + wait <= schedule.next_audio,
        ({
            ||| schedule.next_repeat <= now + wait
            ||| (schedule.show_clock || schedule.show_sensors) && schedule.next_dashboard <= now
                + wait
            ||| schedule.show_sensors && schedule.next_sensor <= now + wait
            ||| schedule.animated && schedule.next_content <= now + wait
            ||| schedule.audio && schedule.next_audio <= now + wait
        }),
{
}

/// The frame is composed anew if and only if something in it has changed: the background has moved on,
/// the spectrum was read or is to be erased, or the dashboard was drawn over a still picture.  A new
/// frame is sent, and an old one if it is due.
pub proof fn lemma_frame_follows_its_parts(
    schedule: &mut Schedule,
    now: u64,
    due: Due,
    reading: AudioReading,
    background: &Background,
    fps: u32,
    action: FrameAction,
)
    requires
        call_ensures(Schedule::finish, (schedule, now, due, reading, background, fps), action),
    ensures
        due.content ==> action.compose,
        due.dashboard && !old(schedule).animated ==> action.compose,
        reading is Levels ==> action.compose,
        reading is Lost && old(schedule).sounding ==> action.compose,
        action.compose ==> due.content || (due.dashboard && !old(schedule).animated) || reading is Levels
            || (reading is Lost && old(schedule).sounding),
        action.send == (action.compose || due.repeat),
{
}

/// With the clock shown over a still picture, the picture on the display is a new one at every time
/// from the deadline of the dashboard on.
pub proof fn lemma_clock_does_not_stand_still(
    schedule: Schedule,
    woken: &mut Schedule,
    now: u64,
    due: Due,
    finished: &mut Schedule,
    reading: AudioReading,
    background: &Background,
    fps: u32,
    action: FrameAction,
)
    requires
        schedule.wf(),
        schedule.show_clock,
        !schedule.animated,
        now >= schedule.next_dashboard,
        *old(woken) == schedule,
        call_ensures(Schedule::wake, (woken, now), due),
        *old(finished) == *final(woken),
        call_ensures(Schedule::finish, (finished, now, due, reading, background, fps), action),
    ensures
        due.dashboard,
        action.compose,
        action.send,
        now < final(finished).next_dashboard <= now + 1_000_000_000,
        final(finished).show_clock,
        !final(finished).animated,
{
    lemma_waking_moves_deadlines(woken, now, due);
}

/// Dealing with the frame moves on what it has dealt with, and nothing else: the background by one
/// frame if it is due, whose time then starts; the next second, if the frame is sent; and whether the
/// spectrum is open and sounds, if it was read.
pub proof fn lemma_finishing_moves_on(
    schedule: &mut Schedule,
    now: u64,
    due: Due,
    reading: AudioReading,
    background: &Background,
    fps: u32,
    action: FrameAction,
    delay: u64,
)
    requires
        call_ensures(Schedule::finish, (schedule, now, due, reading, background, fps), action),
        call_ensures(Background::delay, (background, final(schedule).frame_index, fps), delay),
    ensures
        due.content && old(schedule).frame_index < usize::MAX ==> final(schedule).frame_index == old(schedule).frame_index + 1,
        due.content && old(schedule).frame_index == usize::MAX ==> final(schedule).frame_index == 0,
        due.content ==> final(schedule).next_content - now == delay,
        !due.content ==> final(schedule).frame_index == old(schedule).frame_index && final(schedule).next_content == old(schedule).next_content,
        action.send ==> final(schedule).next_repeat - now == 1_000_000_000,
        !action.send ==> final(schedule).next_repeat == old(schedule).next_repeat,
        final(schedule).audio == (old(schedule).audio && !(reading is Lost)),
        reading matches AudioReading::Levels { sounding } ==> final(schedule).sounding == sounding,
        reading is Lost ==> !final(schedule).sounding,
        reading is NotRead ==> final(schedule).sounding == old(schedule).sounding,
        final(schedule).next_sensor == old(schedule).next_sensor,
        final(schedule).next_dashboard == old(schedule).next_dashboard,
        final(schedule).next_audio == old(schedule).next_audio,
        final(schedule).sensor_interval == old(schedule).sensor_interval,
        final(schedule).animated == old(schedule).animated,
        final(schedule).show_sensors == old(schedule).show_sensors,
        final(schedule).show_clock == old(schedule).show_clock,
{
}

/// A frame for the display is 480 by 480 pixels, two bytes for each, between the eight bytes that tell
/// this size and the eight bytes that end it.
pub proof fn lemma_encoded_frame(
    image: &Image,
    brightness: u32,
    packet: Result<Vec<u8>, ProtocolError>,
)
    requires
        is_display(*image),
        call_ensures(encode_frame, (image, brightness), packet),
    ensures
        packet matches Ok(packet) && {
            &&& packet@.len() == 460_816
            &&& packet@.take(8) == seq![255u8, 0u8, 0u8, 0u8, 0u8, 30u8, 1u8, 224u8]
            &&& packet@.skip(460_808) == seq![255u8, 192u8, 0u8, 0u8, 0u8, 0u8, 0u8, 0u8]
            &&& crate::protocol::is_uyvy_image(packet@.subrange(8, 460_808), *image, brightness)
        },
{
    let bytes = packet->Ok_0@;
    let uyvy = bytes.subrange(8, 460_808);
    lemma_even_pixels(*image);
    assert(uyvy.len() == 460_800);
    assert(bytes.take(8) =~= seq![255u8, 0u8, 0u8, 0u8, 0u8, 30u8, 1u8, 224u8]);
    assert(bytes.skip(460_808) =~= seq![255u8, 192u8, 0u8, 0u8, 0u8, 0u8, 0u8, 0u8]);
}

/// The display starts with its settings if there are any, and without them only if none were asked for.
/// Then come the background, the template, the sensors and, if the template wants it, the sound, the
/// dashboard, the first frame, and the device, which no other program may drive before and after.
pub proof fn lemma_display_starts_in_order(
    explicit: bool,
    present: bool,
    first: StartStep,
    step: StartStep,
    next: StartStep,
    audio: bool,
    loaded: StartStep,
    stop: bool,
    asked: StartStep,
)
    requires
        call_ensures(run_until, (explicit, present), first),
        call_ensures(StartStep::next, (step, StartEvent::Succeeded), next),
        call_ensures(
            StartStep::next,
            (StartStep::LoadTemplate, StartEvent::Loaded { audio }),
            loaded,
        ),
        call_ensures(StartStep::next, (StartStep::CheckStop, StartEvent::Asked { stop }), asked),
    ensures
        present ==> first is ReadConfig,
        !present && explicit ==> first == StartStep::Failed(StartError::ConfigMissing),
        !present && !explicit ==> first is LoadBackground,
        step is ReadConfig ==> next is LoadBackground,
        step is LoadBackground ==> next is LoadTemplate,
        loaded == (StartStep::ReadSensors { audio }),
        step matches StartStep::ReadSensors { audio: wanted } ==> if wanted {
            next is OpenAudio
        } else {
            next is DrawDashboard
        },
        step is OpenAudio ==> next is DrawDashboard,
        step is DrawDashboard ==> next is EncodeFrame,
        step is EncodeFrame ==> next is CheckStop,
        stop ==> asked is Stopped,
        !stop ==> asked is CheckConflict,
        step is CheckConflict ==> next is OpenDevice,
        step is OpenDevice ==> next is SendFirstFrame,
        step is SendFirstFrame ==> next is CheckConflictAgain,
        step is CheckConflictAgain ==> next is Announce,
        step is Announce ==> next is Run,
        step is Run || step is Stopped || step is Failed ==> next == step,
{
}

/// A step that fails ends the start with its error; sensors and sound may fail.
pub proof fn lemma_display_tells_what_failed(step: StartStep, next: StartStep)
    requires
        call_ensures(StartStep::next, (step, StartEvent::Failed), next),
    ensures
        step is ReadConfig ==> next == StartStep::Failed(StartError::Config),
        step is LoadBackground ==> next == StartStep::Failed(StartError::Background),
        step is LoadTemplate ==> next == StartStep::Failed(StartError::Template),
        step matches StartStep::ReadSensors { audio } ==> if audio {
            next is OpenAudio
        } else {
            next is DrawDashboard
        },
        step is OpenAudio ==> next is DrawDashboard,
        step is DrawDashboard ==> next == StartStep::Failed(StartError::Dashboard),
        step is EncodeFrame ==> next == StartStep::Failed(StartError::Frame),
        step is CheckStop ==> next is Stopped,
        step is CheckConflict || step is CheckConflictAgain ==> next == StartStep::Failed(
            StartError::Conflict,
        ),
        step is OpenDevice ==> next == StartStep::Failed(StartError::Device),
        step is SendFirstFrame ==> next == StartStep::Failed(StartError::FirstFrame),
{
}

} // verus!
