use looppanel::display::{
    encode_frame, run_until, AudioReading, Due, FrameAction, Schedule, StartError, StartEvent,
    StartStep,
};
use looppanel::image::{Image, Rgba};
use looppanel::media::{Background, MediaFrame};

const SECOND: u64 = 1_000_000_000;

fn still() -> Background {
    Background::Frames(vec![MediaFrame {
        image: Image::from_pixel(480, 480, Rgba { r: 1, g: 2, b: 3, a: 255 }),
        delay: SECOND,
    }])
}

const NOTHING: Due =
    Due { sensors: false, dashboard: false, audio: false, content: false, repeat: false };

#[test]
fn still_picture_is_only_repeated() {
    let mut schedule = Schedule::new(false, false, false, false, false, 1_000, SECOND);
    assert_eq!(schedule.wait(0), u128::from(SECOND));
    assert_eq!(schedule.wait(2 * SECOND), 0);
    assert_eq!(schedule.wake(SECOND - 1), NOTHING);
    let due = schedule.wake(SECOND + 5);
    assert_eq!(due, Due { repeat: true, ..NOTHING });
    let action = schedule.finish(SECOND + 5, due, AudioReading::NotRead, &still(), 10);
    assert_eq!(action, FrameAction { compose: false, send: true });
    assert_eq!(schedule.wait(SECOND + 5), u128::from(SECOND));
}

#[test]
fn dashboard_keeps_to_whole_seconds() {
    let mut schedule = Schedule::new(false, true, true, false, false, 2_000, SECOND);
    let late = 3 * SECOND + 7;
    let due = schedule.wake(late);
    assert_eq!(due, Due { sensors: true, dashboard: true, repeat: true, ..NOTHING });
    assert_eq!(schedule.next_dashboard, u128::from(4 * SECOND));
    assert_eq!(schedule.next_sensor, u128::from(5 * SECOND + 7));
    let action = schedule.finish(late, due, AudioReading::NotRead, &still(), 10);
    assert_eq!(action, FrameAction { compose: true, send: true });
    assert_eq!(schedule.wait(late), u128::from(SECOND - 7));
    assert!(!schedule.wake(4 * SECOND - 1).dashboard);
    assert!(schedule.wake(4 * SECOND).dashboard);
}

#[test]
fn animated_picture_takes_the_dashboard_along() {
    let mut schedule = Schedule::new(true, true, false, false, false, 1_000, SECOND / 10);
    assert_eq!(schedule.wait(0), u128::from(SECOND / 10));
    let due = schedule.wake(SECOND / 10);
    assert_eq!(due, Due { content: true, ..NOTHING });
    let action =
        schedule.finish(SECOND / 10, due, AudioReading::NotRead, &Background::Procedural, 10);
    assert_eq!(action, FrameAction { compose: true, send: true });
    assert_eq!(schedule.frame_index, 1);
    assert_eq!(schedule.next_content, u128::from(SECOND / 5));
    let only_dashboard = Due { dashboard: true, ..NOTHING };
    let action =
        schedule.finish(SECOND, only_dashboard, AudioReading::NotRead, &Background::Procedural, 10);
    assert_eq!(action, FrameAction { compose: false, send: false });
}

#[test]
fn frame_number_starts_again_at_the_end() {
    let mut schedule = Schedule::new(true, false, false, false, false, 1_000, 1);
    schedule.frame_index = usize::MAX;
    let due = Due { content: true, ..NOTHING };
    schedule.finish(5, due, AudioReading::NotRead, &Background::Procedural, 30);
    assert_eq!(schedule.frame_index, 0);
}

#[test]
fn spectrum_that_is_lost_is_erased_once() {
    let mut schedule = Schedule::new(false, false, false, true, true, 1_000, SECOND);
    assert_eq!(schedule.wait(0), u128::from(SECOND / 5));
    let due = schedule.wake(SECOND / 5);
    assert_eq!(due, Due { audio: true, ..NOTHING });
    assert_eq!(schedule.next_audio, u128::from(2 * SECOND / 5));
    let mut silent = schedule;
    let action = schedule.finish(SECOND / 5, due, AudioReading::Lost, &still(), 10);
    assert_eq!(action, FrameAction { compose: true, send: true });
    assert!(!schedule.audio);
    assert!(!schedule.wake(SECOND).audio);

    let levels = AudioReading::Levels { sounding: false };
    let action = silent.finish(SECOND / 5, due, levels, &still(), 10);
    assert!(action.compose && silent.audio);
    let action = silent.finish(2 * SECOND / 5, due, AudioReading::Lost, &still(), 10);
    assert_eq!(action, FrameAction { compose: false, send: false });
}

#[test]
fn frame_is_encoded_for_the_display() {
    let image = Image::from_pixel(480, 480, Rgba { r: 255, g: 0, b: 0, a: 255 });
    let packet = encode_frame(&image, 1.0_f32.to_bits()).unwrap();
    assert_eq!(packet.len(), 480 * 480 * 2 + 16);
    assert_eq!(&packet[..8], &[0xff, 0, 0, 0, 0, 0x1e, 0x01, 0xe0]);
    assert_eq!(&packet[8..12], &[90, 81, 239, 81]);
    assert_eq!(&packet[460_804..460_808], &[90, 81, 239, 81]);
}

const GO_ON: StartEvent = StartEvent::Asked { stop: false };

#[test]
fn display_starts_in_order() {
    let done = StartEvent::Succeeded;
    let order = [
        (StartStep::ReadConfig, done),
        (StartStep::LoadBackground, done),
        (StartStep::LoadTemplate, StartEvent::Loaded { audio: true }),
        (StartStep::ReadSensors { audio: true }, done),
        (StartStep::OpenAudio, StartEvent::Failed),
        (StartStep::DrawDashboard, done),
        (StartStep::EncodeFrame, done),
        (StartStep::CheckStop, GO_ON),
        (StartStep::CheckConflict, done),
        (StartStep::OpenDevice, done),
        (StartStep::SendFirstFrame, done),
        (StartStep::CheckConflictAgain, done),
        (StartStep::Announce, done),
        (StartStep::Run, done),
        (StartStep::Run, StartEvent::Failed),
    ];
    let mut step = run_until(true, true);
    for (expected, event) in order {
        assert_eq!(step, expected);
        step = step.next(event);
    }
    assert_eq!(StartStep::ReadSensors { audio: false }.next(done), StartStep::DrawDashboard);
    assert_eq!(run_until(false, true), StartStep::ReadConfig);
    assert_eq!(run_until(false, false), StartStep::LoadBackground);
}

#[test]
fn each_step_fails_in_its_own_way() {
    let failures = [
        (StartStep::ReadConfig, StartError::Config),
        (StartStep::LoadBackground, StartError::Background),
        (StartStep::LoadTemplate, StartError::Template),
        (StartStep::DrawDashboard, StartError::Dashboard),
        (StartStep::EncodeFrame, StartError::Frame),
        (StartStep::CheckConflict, StartError::Conflict),
        (StartStep::OpenDevice, StartError::Device),
        (StartStep::SendFirstFrame, StartError::FirstFrame),
        (StartStep::CheckConflictAgain, StartError::Conflict),
    ];
    for (step, error) in failures {
        let failed = step.next(StartEvent::Failed);
        assert_eq!(failed, StartStep::Failed(error));
        assert_eq!(failed.next(StartEvent::Succeeded), StartStep::Failed(error));
    }
}

#[test]
fn missing_settings_are_an_error_even_if_the_display_is_to_stop() {
    let missing = StartStep::Failed(StartError::ConfigMissing);
    assert_eq!(run_until(true, false), missing);
    assert_eq!(missing.next(StartEvent::Asked { stop: true }), missing);
    assert_eq!(missing.next(StartEvent::Succeeded), missing);
    let stopped = StartStep::CheckStop.next(StartEvent::Asked { stop: true });
    assert_eq!(stopped, StartStep::Stopped);
    assert_eq!(stopped.next(GO_ON), StartStep::Stopped);
    assert_eq!(StartStep::CheckStop.next(GO_ON), StartStep::CheckConflict);
}
