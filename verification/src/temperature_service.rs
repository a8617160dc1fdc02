//! The service that reads the temperature: its commands, how it is installed and removed, and how it
//! answers its clients.

use vstd::prelude::*;

use crate::startup::{command_of, startup_command, FILE_NOT_FOUND};
use crate::temperature::{
    encode_service_response, endpoint_of, endpoint_pipe, endpoint_text, lemma_endpoint_is_read_back,
    whole_degrees, EndpointError, TemperatureError,
    IO_PENDING, PIPE_NAME_PREFIX, REQUEST_TEMPERATURE, RESPONSE_OK, SERVICE_RUNNING,
};
use crate::text::{eq_text, hex, hex_char, push_hex, utf16};
use crate::win::wide;

verus! {

/// The name of the service.
pub const SERVICE_NAME: &'static str = "LoopPanelTemperature";

/// The name of the service that is shown.
pub const SERVICE_DISPLAY_NAME: &'static str = "LoopPanel CPU Temperature";

/// The file name of the service.
pub const INSTALLED_FILENAME: &'static str = "looppanel-temperature-service.exe";

/// Who may use the pipe: the system everything, every user reading and writing.
pub const PIPE_SECURITY: &'static str = "D:P(A;;GA;;;SY)(A;;GRGW;;;AU)S:(ML;;NW;;;ME)";

/// How long the service may take to start or to stop, in milliseconds.
pub const TRANSITION_TIMEOUT_MS: u64 = 10_000;

/// How long to wait between two looks at the service, in milliseconds.
pub const POLL_INTERVAL_MS: u64 = 100;

/// How long a client may take to ask or to take its answer, in milliseconds.
pub const CLIENT_IO_TIMEOUT_MS: u32 = 1_000;

pub const SERVICE_STOPPED: u32 = 1;

pub const SERVICE_START_PENDING: u32 = 2;

pub const SERVICE_STOP_PENDING: u32 = 3;

pub const SERVICE_CONTROL_STOP: u32 = 1;

pub const SERVICE_CONTROL_SHUTDOWN: u32 = 5;

pub const SERVICE_WIN32_OWN_PROCESS: u32 = 16;

pub const SERVICE_ACCEPT_STOP_AND_SHUTDOWN: u32 = 5;

/// The error that a client was there before the service waited for it.
pub const PIPE_CONNECTED: u32 = 535;

/// The error that there is no such service.
pub const SERVICE_DOES_NOT_EXIST: u32 = 1060;

/// The error that the service cannot be stopped at the moment.
pub const SERVICE_CANNOT_ACCEPT_CTRL: u32 = 1061;

/// The error that the service does not run.
pub const SERVICE_NOT_ACTIVE: u32 = 1062;

/// The error that the service tells its own error.
pub const SERVICE_SPECIFIC_ERROR: u32 = 1066;

/// What the program is asked to do.
#[derive(Clone, Copy, Debug, PartialEq, Eq, Structural)]
pub enum ServiceCommand {
    /// Run as the service.
    Dispatch,
    /// Install the service.
    Install,
    /// Remove the service.
    Uninstall,
}

/// What the program is asked to do: nothing more than to serve, unless its first argument says so.
/// An argument that means nothing is handed back.
pub fn run(arguments: &[String]) -> (command: Result<ServiceCommand, String>)
    ensures
        match command {
            Ok(ServiceCommand::Dispatch) => arguments@.len() == 0,
            Ok(ServiceCommand::Install) => arguments@.len() > 0 && arguments@[0]@ == "install"@,
            Ok(ServiceCommand::Uninstall) => arguments@.len() > 0 && arguments@[0]@ == "uninstall"@,
            Err(argument) => arguments@.len() > 0 && argument@ == arguments@[0]@ && argument@
                != "install"@ && argument@ != "uninstall"@,
        },
{
    if arguments.len() == 0 {
        return Ok(ServiceCommand::Dispatch);
    }
    if eq_text(arguments[0].as_str(), "install") {
        Ok(ServiceCommand::Install)
    } else if eq_text(arguments[0].as_str(), "uninstall") {
        Ok(ServiceCommand::Uninstall)
    } else {
        Err(arguments[0].clone())
    }
}

/// Tells whether the service is installed: both the manager of services and, through it, the service
/// could be opened.
pub fn is_installed(manager: bool, service: bool) -> (installed: bool)
    ensures
        installed == (manager && service),
{
    manager && service
}

/// The path of the service in quotation marks, with a NUL at the end.
pub fn quoted_path(path: &[u16]) -> (quoted: Vec<u16>)
    ensures
        quoted@ == command_of(path@),
{
    startup_command(path)
}

/// The name of a pipe made of random bytes.
pub open spec fn pipe_name(random: Seq<u8>) -> Seq<char> {
    PIPE_NAME_PREFIX@ + hex(random)
}

/// The name of the pipe, once `random` has been filled with the result `status`; a failure is handed
/// back as the unsigned number with the same bits.
pub fn random_pipe_name(status: i32, random: &[u8]) -> (name: Result<String, u32>)
    ensures
        match name {
            Ok(name) => status >= 0 && name@ == pipe_name(random@),
            Err(code) => status < 0 && code == 0x1_0000_0000 + status,
        },
{
    if status < 0 {
        return Err((0x1_0000_0000i64 + status as i64) as u32);
    }
    let mut name = String::new();
    name.append(PIPE_NAME_PREFIX);
    push_hex(&mut name, random);
    proof {
        assert(name@ =~= pipe_name(random@));
    }
    Ok(name)
}

/// The state that the service reports.
#[derive(Clone, Copy, Debug, PartialEq, Eq, Structural)]
pub struct ServiceStatus {
    pub service_type: u32,
    pub current_state: u32,
    pub controls_accepted: u32,
    pub win32_exit_code: u32,
    pub service_exit_code: u32,
    pub check_point: u32,
    pub wait_hint: u32,
}

/// The report of a state: only a service that runs takes commands, and only one that starts or stops
/// tells how long that may take.
pub fn report_status(state: u32, win32_exit_code: u32, service_exit_code: u32) -> (status:
    ServiceStatus)
    ensures
        status == (ServiceStatus {
            service_type: SERVICE_WIN32_OWN_PROCESS,
            current_state: state,
            controls_accepted: if state == SERVICE_RUNNING {
                SERVICE_ACCEPT_STOP_AND_SHUTDOWN
            } else {
                0
            },
            win32_exit_code,
            service_exit_code,
            check_point: if state == SERVICE_START_PENDING || state == SERVICE_STOP_PENDING {
                1
            } else {
                0
            },
            wait_hint: if state == SERVICE_START_PENDING || state == SERVICE_STOP_PENDING {
                5_000
            } else {
                0
            },
        }),
{
    let pending: bool = state == SERVICE_START_PENDING || state == SERVICE_STOP_PENDING;
    ServiceStatus {
        service_type: SERVICE_WIN32_OWN_PROCESS,
        current_state: state,
        controls_accepted: if state == SERVICE_RUNNING {
            SERVICE_ACCEPT_STOP_AND_SHUTDOWN
        } else {
            0
        },
        win32_exit_code,
        service_exit_code,
        check_point: if pending {
            1
        } else {
            0
        },
        wait_hint: if pending {
            5_000
        } else {
            0
        },
    }
}

/// What the service does on a command.
#[derive(Clone, Copy, Debug, PartialEq, Eq, Structural)]
pub struct ControlActions {
    /// Report that it is about to stop.
    pub report_stopping: bool,
    /// Signal the event that makes it stop.
    pub signal_stop: bool,
}

/// What the service does on a command: it stops when it is told to, or when the system shuts down, as
/// far as it already has a status handle and a stop event.
pub fn service_control_handler(control: u32, has_status: bool, has_event: bool) -> (actions:
    ControlActions)
    ensures
        actions == ({
            let stop = control == SERVICE_CONTROL_STOP || control == SERVICE_CONTROL_SHUTDOWN;
            ControlActions {
                report_stopping: stop && has_status,
                signal_stop: stop && has_event,
            }
        }),
{
    let stop: bool = control == SERVICE_CONTROL_STOP || control == SERVICE_CONTROL_SHUTDOWN;
    ControlActions { report_stopping: stop && has_status, signal_stop: stop && has_event }
}

/// Why the service did not get ready; the numbers are errors of the system.
#[derive(Clone, Copy, Debug, PartialEq, Eq, Structural)]
pub enum ReadyError {
    /// Its state could not be asked for.
    Query(u32),
    /// It stopped while it started.
    Stopped { win32_exit_code: u32, service_exit_code: u32 },
    /// It runs, but does not answer.
    PipeTimeout,
    /// It does not run.
    StateTimeout,
}

/// What is done next to wait until the service answers.
#[derive(Clone, Copy, Debug, PartialEq, Eq, Structural)]
pub enum ReadyStep {
    /// Ask for its state.
    Query { pipe_failed: bool },
    /// Ask it for the temperature.
    Sample,
    /// Look at the clock.
    CheckTime { pipe_failed: bool },
    /// Sleep for a moment.
    Sleep { pipe_failed: bool },
    /// It answered with this temperature.
    Ready(u32),
    /// It did not get ready.
    Failed(ReadyError),
}

/// What came of a step of waiting.
#[derive(Clone, Copy, Debug, PartialEq, Eq, Structural)]
pub enum ReadyEvent {
    /// The state of the service.
    Status { state: u32, win32_exit_code: u32, service_exit_code: u32 },
    /// The state could not be asked for.
    QueryFailed(u32),
    /// The temperature in whole degrees.
    Temperature(u32),
    /// There was no answer.
    NoTemperature,
    /// The milliseconds since the wait began.
    Time(u64),
    /// The moment is over.
    Slept,
}

/// The step after `step` once `event` has come of it.
pub open spec fn ready_next(step: ReadyStep, event: ReadyEvent) -> ReadyStep {
    match (step, event) {
        (ReadyStep::Query { .. }, ReadyEvent::QueryFailed(code)) => ReadyStep::Failed(
            ReadyError::Query(code),
        ),
        (
            ReadyStep::Query { pipe_failed },
            ReadyEvent::Status { state, win32_exit_code, service_exit_code },
        ) => if state == SERVICE_STOPPED {
            ReadyStep::Failed(ReadyError::Stopped { win32_exit_code, service_exit_code })
        } else if state == SERVICE_RUNNING {
            ReadyStep::Sample
        } else {
            ReadyStep::CheckTime { pipe_failed }
        },
        (ReadyStep::Sample, ReadyEvent::Temperature(degrees)) => ReadyStep::Ready(degrees),
        (ReadyStep::Sample, ReadyEvent::NoTemperature) => ReadyStep::CheckTime {
            pipe_failed: true,
        },
        (ReadyStep::CheckTime { pipe_failed }, ReadyEvent::Time(elapsed)) => if elapsed
            < TRANSITION_TIMEOUT_MS {
            ReadyStep::Sleep { pipe_failed }
        } else if pipe_failed {
            ReadyStep::Failed(ReadyError::PipeTimeout)
        } else {
            ReadyStep::Failed(ReadyError::StateTimeout)
        },
        (ReadyStep::Sleep { pipe_failed }, ReadyEvent::Slept) => ReadyStep::Query { pipe_failed },
        _ => step,
    }
}

/// Begins to wait until the service answers.
pub fn wait_for_service_ready() -> (step: ReadyStep)
    ensures
        step == (ReadyStep::Query { pipe_failed: false }),
{
    ReadyStep::Query { pipe_failed: false }
}

impl ReadyStep {
    /// Goes on once `event` has come of this step; an event that does not belong to the step changes
    /// nothing.
    pub fn next(self, event: ReadyEvent) -> (next: ReadyStep)
        ensures
            next == ready_next(self, event),
    {
        match (self, event) {
            (ReadyStep::Query { .. }, ReadyEvent::QueryFailed(code)) => {
                ReadyStep::Failed(ReadyError::Query(code))
            },
            (
                ReadyStep::Query { pipe_failed },
                ReadyEvent::Status { state, win32_exit_code, service_exit_code },
            ) => {
                if state == SERVICE_STOPPED {
                    ReadyStep::Failed(ReadyError::Stopped { win32_exit_code, service_exit_code })
                } else if state == SERVICE_RUNNING {
                    ReadyStep::Sample
                } else {
                    ReadyStep::CheckTime { pipe_failed }
                }
            },
            (ReadyStep::Sample, ReadyEvent::Temperature(degrees)) => ReadyStep::Ready(degrees),
            (ReadyStep::Sample, ReadyEvent::NoTemperature) => {
                ReadyStep::CheckTime { pipe_failed: true }
            },
            (ReadyStep::CheckTime { pipe_failed }, ReadyEvent::Time(elapsed)) => {
                if elapsed < TRANSITION_TIMEOUT_MS {
                    ReadyStep::Sleep { pipe_failed }
                } else if pipe_failed {
                    ReadyStep::Failed(ReadyError::PipeTimeout)
                } else {
                    ReadyStep::Failed(ReadyError::StateTimeout)
                }
            },
            (ReadyStep::Sleep { pipe_failed }, ReadyEvent::Slept) => {
                ReadyStep::Query { pipe_failed }
            },
            _ => self,
        }
    }
}

/// Why the service was not stopped; the numbers are errors of the system.
#[derive(Clone, Copy, Debug, PartialEq, Eq, Structural)]
pub enum StopError {
    /// Its state could not be asked for.
    Query(u32),
    /// It could not be told to stop.
    Control(u32),
    /// It did not stop in time.
    Timeout,
    /// Its process did not end in time.
    ProcessTimeout,
}

/// What is done next to stop the service.  `watched` tells that its process can be waited for, `sent`
/// that it has been told to stop.
#[derive(Clone, Copy, Debug, PartialEq, Eq, Structural)]
pub enum StopStep {
    /// Ask for its state and its process number.
    QueryFirst,
    /// Open its process, to be able to wait for its end.
    OpenProcess { state: u32, process: u32 },
    /// Tell it to stop.
    SendStop { watched: bool },
    /// Look at the clock.
    CheckTime { watched: bool, sent: bool },
    /// Sleep for a moment.
    Sleep { watched: bool, sent: bool },
    /// Ask for its state.
    Query { watched: bool, sent: bool },
    /// Wait for the end of its process, as long as there is time.
    WaitProcess,
    /// It has stopped.
    Stopped,
    /// It was not stopped.
    Failed(StopError),
}

/// What came of a step of stopping.
#[derive(Clone, Copy, Debug, PartialEq, Eq, Structural)]
pub enum StopEvent {
    /// The state of the service and its process number, or zero.
    Status { state: u32, process: u32 },
    /// The step succeeded.
    Succeeded,
    /// The step failed with this error of the system.
    Failed(u32),
    /// The milliseconds since stopping began.
    Time(u64),
    /// The wait for the process ended with this result.
    Waited(u32),
}

/// What is done next with a service in this state.
pub open spec fn stop_on(state: u32, watched: bool, sent: bool) -> StopStep {
    if state == SERVICE_STOPPED {
        stop_reached(watched)
    } else if !sent && state != SERVICE_START_PENDING {
        StopStep::SendStop { watched }
    } else {
        StopStep::CheckTime { watched, sent }
    }
}

/// What is done next once the service has stopped.
pub open spec fn stop_reached(watched: bool) -> StopStep {
    if watched {
        StopStep::WaitProcess
    } else {
        StopStep::Stopped
    }
}

/// The step after `step` once `event` has come of it.
pub open spec fn stop_next(step: StopStep, event: StopEvent) -> StopStep {
    match (step, event) {
        (StopStep::QueryFirst, StopEvent::Failed(code)) => StopStep::Failed(StopError::Query(code)),
        (StopStep::QueryFirst, StopEvent::Status { state, process }) => if process == 0 {
            stop_on(state, false, state == SERVICE_STOP_PENDING)
        } else {
            StopStep::OpenProcess { state, process }
        },
        (StopStep::OpenProcess { state, .. }, StopEvent::Succeeded) => stop_on(
            state,
            true,
            state == SERVICE_STOP_PENDING,
        ),
        (StopStep::OpenProcess { state, .. }, StopEvent::Failed(_)) => stop_on(
            state,
            false,
            state == SERVICE_STOP_PENDING,
        ),
        (StopStep::SendStop { watched }, StopEvent::Succeeded) => StopStep::CheckTime {
            watched,
            sent: true,
        },
        (StopStep::SendStop { watched }, StopEvent::Failed(code)) => if code == SERVICE_NOT_ACTIVE {
            stop_reached(watched)
        } else if code == SERVICE_CANNOT_ACCEPT_CTRL {
            StopStep::CheckTime { watched, sent: false }
        } else {
            StopStep::Failed(StopError::Control(code))
        },
        (StopStep::CheckTime { watched, sent }, StopEvent::Time(elapsed)) => if elapsed
            < TRANSITION_TIMEOUT_MS {
            StopStep::Sleep { watched, sent }
        } else {
            StopStep::Failed(StopError::Timeout)
        },
        (StopStep::Sleep { watched, sent }, StopEvent::Succeeded) => StopStep::Query {
            watched,
            sent,
        },
        (StopStep::Query { .. }, StopEvent::Failed(code)) => StopStep::Failed(
            StopError::Query(code),
        ),
        (StopStep::Query { watched, sent }, StopEvent::Status { state, .. }) => stop_on(
            state,
            watched,
            sent,
        ),
        (StopStep::WaitProcess, StopEvent::Waited(result)) => if result == 0 {
            StopStep::Stopped
        } else {
            StopStep::Failed(StopError::ProcessTimeout)
        },
        _ => step,
    }
}

/// Begins to stop the service.
pub fn stop_service_and_wait() -> (step: StopStep)
    ensures
        step == StopStep::QueryFirst,
{
    StopStep::QueryFirst
}

fn decide_stop(state: u32, watched: bool, sent: bool) -> (step: StopStep)
    ensures
        step == stop_on(state, watched, sent),
{
    if state == SERVICE_STOPPED {
        decide_stopped(watched)
    } else if !sent && state != SERVICE_START_PENDING {
        StopStep::SendStop { watched }
    } else {
        StopStep::CheckTime { watched, sent }
    }
}

fn decide_stopped(watched: bool) -> (step: StopStep)
    ensures
        step == stop_reached(watched),
{
    if watched {
        StopStep::WaitProcess
    } else {
        StopStep::Stopped
    }
}

impl StopStep {
    /// Goes on once `event` has come of this step; an event that does not belong to the step changes
    /// nothing.
    pub fn next(self, event: StopEvent) -> (next: StopStep)
        ensures
            next == stop_next(self, event),
    {
        match (self, event) {
            (StopStep::QueryFirst, StopEvent::Failed(code)) => {
                StopStep::Failed(StopError::Query(code))
            },
            (StopStep::QueryFirst, StopEvent::Status { state, process }) => {
                if process == 0 {
                    decide_stop(state, false, state == SERVICE_STOP_PENDING)
                } else {
                    StopStep::OpenProcess { state, process }
                }
            },
            (StopStep::OpenProcess { state, .. }, StopEvent::Succeeded) => {
                decide_stop(state, true, state == SERVICE_STOP_PENDING)
            },
            (StopStep::OpenProcess { state, .. }, StopEvent::Failed(_)) => {
                decide_stop(state, false, state == SERVICE_STOP_PENDING)
            },
            (StopStep::SendStop { watched }, StopEvent::Succeeded) => {
                StopStep::CheckTime { watched, sent: true }
            },
            (StopStep::SendStop { watched }, StopEvent::Failed(code)) => {
                if code == SERVICE_NOT_ACTIVE {
                    decide_stopped(watched)
                } else if code == SERVICE_CANNOT_ACCEPT_CTRL {
                    StopStep::CheckTime { watched, sent: false }
                } else {
                    StopStep::Failed(StopError::Control(code))
                }
            },
            (StopStep::CheckTime { watched, sent }, StopEvent::Time(elapsed)) => {
                if elapsed < TRANSITION_TIMEOUT_MS {
                    StopStep::Sleep { watched, sent }
                } else {
                    StopStep::Failed(StopError::Timeout)
                }
            },
            (StopStep::Sleep { watched, sent }, StopEvent::Succeeded) => {
                StopStep::Query { watched, sent }
            },
            (StopStep::Query { .. }, StopEvent::Failed(code)) => {
                StopStep::Failed(StopError::Query(code))
            },
            (StopStep::Query { watched, sent }, StopEvent::Status { state, .. }) => {
                decide_stop(state, watched, sent)
            },
            (StopStep::WaitProcess, StopEvent::Waited(result)) => {
                if result == 0 {
                    StopStep::Stopped
                } else {
                    StopStep::Failed(StopError::ProcessTimeout)
                }
            },
            _ => self,
        }
    }
}

/// How long the process of the service may still be waited for, in milliseconds.
pub fn remaining_wait(elapsed_ms: u64) -> (remaining: u32)
    ensures
        remaining == if elapsed_ms < TRANSITION_TIMEOUT_MS {
            TRANSITION_TIMEOUT_MS - elapsed_ms
        } else {
            0
        },
{
    if elapsed_ms < TRANSITION_TIMEOUT_MS {
        (TRANSITION_TIMEOUT_MS - elapsed_ms) as u32
    } else {
        0
    }
}

/// A service that was told to stop is not told again, and a service that starts is not told to stop
/// until it has started.
pub proof fn lemma_service_is_told_to_stop_once(step: StopStep, event: StopEvent)
    ensures
        stop_next(step, event) is SendStop && step !is SendStop ==> match (step, event) {
            (StopStep::Query { sent, .. }, StopEvent::Status { state, .. }) => !sent && state
                != SERVICE_START_PENDING && state != SERVICE_STOPPED,
            (StopStep::QueryFirst, StopEvent::Status { state, .. }) => state
                != SERVICE_START_PENDING && state != SERVICE_STOP_PENDING && state
                != SERVICE_STOPPED,
            (StopStep::OpenProcess { state, .. }, _) => state != SERVICE_START_PENDING && state
                != SERVICE_STOP_PENDING && state != SERVICE_STOPPED,
            _ => false,
        },
        step matches StopStep::SendStop { .. } ==> (event == StopEvent::Succeeded ==> (stop_next(
            step,
            event,
        ) matches StopStep::CheckTime { sent, .. } && sent)),
        step matches StopStep::Sleep { sent, .. } ==> (stop_next(
            step,
            event,
        ) matches StopStep::Query { sent: still, .. } ==> still == sent),
{
}

/// Why the service could not be installed; the numbers are errors of the system.
#[derive(Clone, Copy, Debug, PartialEq, Eq, Structural)]
pub enum InstallError {
    /// The thermometer could not be opened.
    Sensor,
    /// The thermometer has no reading.
    Reading,
    /// It is not known where the program is or where it belongs.
    Paths,
    /// The service is installed already.
    AlreadyInstalled,
    /// The directory could not be created.
    Directory,
    /// The program could not be copied.
    Copy,
    /// The service manager could not be opened.
    Manager(u32),
    /// The service could not be created.
    Create(u32),
    /// The service could not be started.
    Start(u32),
    /// The service did not get ready.
    NotReady(ReadyError),
}

/// What is done next to install the service.  `copy` tells that the program is not yet where it
/// belongs, or, once it has been copied, that the copy is to be removed on failure.
#[derive(Clone, Copy, Debug, PartialEq, Eq, Structural)]
pub enum InstallStep {
    /// Open the thermometer.
    OpenSensor,
    /// Read the thermometer.
    SampleSensor,
    /// Find out where the program is and where it belongs.
    FindPaths,
    /// Look whether the service is installed.
    CheckInstalled { copy: bool },
    /// Create the directory.
    CreateDirectory { copy: bool },
    /// Copy the program.
    CopyFile,
    /// Open the service manager.
    OpenManager { copy: bool },
    /// Create the service.
    CreateService { copy: bool },
    /// Start the service.
    StartService { copy: bool },
    /// Wait until the service answers.
    AwaitReady { copy: bool },
    /// Stop the service again.
    StopAgain { copy: bool, error: InstallError },
    /// Delete the service again.
    DeleteAgain { copy: bool, error: InstallError },
    /// Remove the copy of the program.
    RemoveFile { error: InstallError },
    /// Remove the directory.
    RemoveDirectory { error: InstallError },
    /// The service is installed and answered with this temperature.
    Installed { degrees: u32 },
    /// The service is not installed.
    Failed(InstallError),
}

/// What came of a step of installing.
#[derive(Clone, Copy, Debug, PartialEq, Eq, Structural)]
pub enum InstallEvent {
    /// The step succeeded.
    Succeeded,
    /// The step failed with this error of the system.
    Failed(u32),
    /// The program is where it belongs, or not.
    Paths { in_place: bool },
    /// The service is installed, or not.
    IsInstalled(bool),
    /// The service answered with this temperature.
    Ready(u32),
    /// The service did not get ready.
    NotReady(ReadyError),
}

/// What is done next once the service could not be created or has been deleted again.
pub open spec fn install_undo(copy: bool, error: InstallError) -> InstallStep {
    if copy {
        InstallStep::RemoveFile { error }
    } else {
        InstallStep::Failed(error)
    }
}

/// The step after `step` once `event` has come of it.
pub open spec fn install_next(step: InstallStep, event: InstallEvent) -> InstallStep {
    match (step, event) {
        (InstallStep::OpenSensor, InstallEvent::Succeeded) => InstallStep::SampleSensor,
        (InstallStep::OpenSensor, InstallEvent::Failed(_)) => InstallStep::Failed(
            InstallError::Sensor,
        ),
        (InstallStep::SampleSensor, InstallEvent::Succeeded) => InstallStep::FindPaths,
        (InstallStep::SampleSensor, InstallEvent::Failed(_)) => InstallStep::Failed(
            InstallError::Reading,
        ),
        (InstallStep::FindPaths, InstallEvent::Paths { in_place }) => InstallStep::CheckInstalled {
            copy: !in_place,
        },
        (InstallStep::FindPaths, InstallEvent::Failed(_)) => InstallStep::Failed(
            InstallError::Paths,
        ),
        (InstallStep::CheckInstalled { copy }, InstallEvent::IsInstalled(installed)) => if installed {
            InstallStep::Failed(InstallError::AlreadyInstalled)
        } else {
            InstallStep::CreateDirectory { copy }
        },
        (InstallStep::CreateDirectory { copy }, InstallEvent::Succeeded) => if copy {
            InstallStep::CopyFile
        } else {
            InstallStep::OpenManager { copy: false }
        },
        (InstallStep::CreateDirectory { .. }, InstallEvent::Failed(_)) => InstallStep::Failed(
            InstallError::Directory,
        ),
        (InstallStep::CopyFile, InstallEvent::Succeeded) => InstallStep::OpenManager { copy: true },
        (InstallStep::CopyFile, InstallEvent::Failed(_)) => InstallStep::Failed(InstallError::Copy),
        (InstallStep::OpenManager { copy }, InstallEvent::Succeeded) => InstallStep::CreateService {
            copy,
        },
        (InstallStep::OpenManager { copy }, InstallEvent::Failed(code)) => install_undo(
            copy,
            InstallError::Manager(code),
        ),
        (InstallStep::CreateService { copy }, InstallEvent::Succeeded) => InstallStep::StartService {
            copy,
        },
        (InstallStep::CreateService { copy }, InstallEvent::Failed(code)) => install_undo(
            copy,
            InstallError::Create(code),
        ),
        (InstallStep::StartService { copy }, InstallEvent::Succeeded) => InstallStep::AwaitReady {
            copy,
        },
        (InstallStep::StartService { copy }, InstallEvent::Failed(code)) =>
            InstallStep::DeleteAgain { copy, error: InstallError::Start(code) },
        (InstallStep::AwaitReady { .. }, InstallEvent::Ready(degrees)) => InstallStep::Installed {
            degrees,
        },
        (InstallStep::AwaitReady { copy }, InstallEvent::NotReady(error)) =>
            InstallStep::StopAgain { copy, error: InstallError::NotReady(error) },
        (InstallStep::StopAgain { copy, error }, InstallEvent::Succeeded) =>
            InstallStep::DeleteAgain { copy, error },
        (InstallStep::StopAgain { copy, error }, InstallEvent::Failed(_)) =>
            InstallStep::DeleteAgain { copy, error },
        (InstallStep::DeleteAgain { copy, error }, InstallEvent::Succeeded) => install_undo(
            copy,
            error,
        ),
        (InstallStep::DeleteAgain { copy, error }, InstallEvent::Failed(_)) => install_undo(
            copy,
            error,
        ),
        (InstallStep::RemoveFile { error }, InstallEvent::Succeeded) =>
            InstallStep::RemoveDirectory { error },
        (InstallStep::RemoveFile { error }, InstallEvent::Failed(_)) =>
            InstallStep::RemoveDirectory { error },
        (InstallStep::RemoveDirectory { error }, InstallEvent::Succeeded) => InstallStep::Failed(
            error,
        ),
        (InstallStep::RemoveDirectory { error }, InstallEvent::Failed(_)) => InstallStep::Failed(
            error,
        ),
        _ => step,
    }
}

/// Begins to install the service.
pub fn install() -> (step: InstallStep)
    ensures
        step == InstallStep::OpenSensor,
{
    InstallStep::OpenSensor
}

fn undo_install(copy: bool, error: InstallError) -> (step: InstallStep)
    ensures
        step == install_undo(copy, error),
{
    if copy {
        InstallStep::RemoveFile { error }
    } else {
        InstallStep::Failed(error)
    }
}

impl InstallStep {
    /// Goes on once `event` has come of this step; an event that does not belong to the step changes
    /// nothing.
    pub fn next(self, event: InstallEvent) -> (next: InstallStep)
        ensures
            next == install_next(self, event),
    {
        match (self, event) {
            (InstallStep::OpenSensor, InstallEvent::Succeeded) => InstallStep::SampleSensor,
            (InstallStep::OpenSensor, InstallEvent::Failed(_)) => {
                InstallStep::Failed(InstallError::Sensor)
            },
            (InstallStep::SampleSensor, InstallEvent::Succeeded) => InstallStep::FindPaths,
            (InstallStep::SampleSensor, InstallEvent::Failed(_)) => {
                InstallStep::Failed(InstallError::Reading)
            },
            (InstallStep::FindPaths, InstallEvent::Paths { in_place }) => {
                InstallStep::CheckInstalled { copy: !in_place }
            },
            (InstallStep::FindPaths, InstallEvent::Failed(_)) => {
                InstallStep::Failed(InstallError::Paths)
            },
            (InstallStep::CheckInstalled { copy }, InstallEvent::IsInstalled(installed)) => {
                if installed {
                    InstallStep::Failed(InstallError::AlreadyInstalled)
                } else {
                    InstallStep::CreateDirectory { copy }
                }
            },
            (InstallStep::CreateDirectory { copy }, InstallEvent::Succeeded) => {
                if copy {
                    InstallStep::CopyFile
                } else {
                    InstallStep::OpenManager { copy: false }
                }
            },
            (InstallStep::CreateDirectory { .. }, InstallEvent::Failed(_)) => {
                InstallStep::Failed(InstallError::Directory)
            },
            (InstallStep::CopyFile, InstallEvent::Succeeded) => {
                InstallStep::OpenManager { copy: true }
            },
            (InstallStep::CopyFile, InstallEvent::Failed(_)) => {
                InstallStep::Failed(InstallError::Copy)
            },
            (InstallStep::OpenManager { copy }, InstallEvent::Succeeded) => {
                InstallStep::CreateService { copy }
            },
            (InstallStep::OpenManager { copy }, InstallEvent::Failed(code)) => {
                undo_install(copy, InstallError::Manager(code))
            },
            (InstallStep::CreateService { copy }, InstallEvent::Succeeded) => {
                InstallStep::StartService { copy }
            },
            (InstallStep::CreateService { copy }, InstallEvent::Failed(code)) => {
                undo_install(copy, InstallError::Create(code))
            },
            (InstallStep::StartService { copy }, InstallEvent::Succeeded) => {
                InstallStep::AwaitReady { copy }
            },
            (InstallStep::StartService { copy }, InstallEvent::Failed(code)) => {
                InstallStep::DeleteAgain { copy, error: InstallError::Start(code) }
            },
            (InstallStep::AwaitReady { .. }, InstallEvent::Ready(degrees)) => {
                InstallStep::Installed { degrees }
            },
            (InstallStep::AwaitReady { copy }, InstallEvent::NotReady(error)) => {
                InstallStep::StopAgain { copy, error: InstallError::NotReady(error) }
            },
            (InstallStep::StopAgain { copy, error }, InstallEvent::Succeeded) => {
                InstallStep::DeleteAgain { copy, error }
            },
            (InstallStep::StopAgain { copy, error }, InstallEvent::Failed(_)) => {
                InstallStep::DeleteAgain { copy, error }
            },
            (InstallStep::DeleteAgain { copy, error }, InstallEvent::Succeeded) => {
                undo_install(copy, error)
            },
            (InstallStep::DeleteAgain { copy, error }, InstallEvent::Failed(_)) => {
                undo_install(copy, error)
            },
            (InstallStep::RemoveFile { error }, InstallEvent::Succeeded) => {
                InstallStep::RemoveDirectory { error }
            },
            (InstallStep::RemoveFile { error }, InstallEvent::Failed(_)) => {
                InstallStep::RemoveDirectory { error }
            },
            (InstallStep::RemoveDirectory { error }, InstallEvent::Succeeded) => {
                InstallStep::Failed(error)
            },
            (InstallStep::RemoveDirectory { error }, InstallEvent::Failed(_)) => {
                InstallStep::Failed(error)
            },
            _ => self,
        }
    }
}

/// A copy of the program has been made and not removed.
pub open spec fn copy_present(step: InstallStep) -> bool {
    match step {
        InstallStep::OpenManager { copy } => copy,
        InstallStep::CreateService { copy } => copy,
        InstallStep::StartService { copy } => copy,
        InstallStep::AwaitReady { copy } => copy,
        InstallStep::StopAgain { copy, .. } => copy,
        InstallStep::DeleteAgain { copy, .. } => copy,
        InstallStep::RemoveFile { .. } => true,
        _ => false,
    }
}

/// The service has been created and not deleted.
pub open spec fn service_present(step: InstallStep) -> bool {
    match step {
        InstallStep::StartService { .. } => true,
        InstallStep::AwaitReady { .. } => true,
        InstallStep::StopAgain { .. } => true,
        InstallStep::DeleteAgain { .. } => true,
        _ => false,
    }
}

/// What an installation has made, it keeps until the service answers, or takes it away itself: the
/// service by deleting it, the copy of the program by removing it.
pub proof fn lemma_failed_installation_is_undone(step: InstallStep, event: InstallEvent)
    ensures
        service_present(step) ==> service_present(install_next(step, event)) || install_next(
            step,
            event,
        ) is Installed || step is DeleteAgain,
        copy_present(step) ==> copy_present(install_next(step, event)) || install_next(
            step,
            event,
        ) is Installed || step is RemoveFile,
{
}

/// Why what the service published could not be written or withdrawn; the numbers are errors of the
/// system.
#[derive(Clone, Copy, Debug, PartialEq, Eq, Structural)]
pub enum EndpointFailure {
    /// The key could not be opened.
    Key(u32),
    /// The value could not be changed.
    Value(u32),
}

/// What is done next to publish or withdraw the pipe.
#[derive(Clone, Copy, Debug, PartialEq, Eq, Structural)]
pub enum EndpointStep {
    /// Open the key, or create it, to write the value.
    CreateKey,
    /// Write the value.
    SetValue,
    /// Open the key to remove the value.
    OpenKey,
    /// Remove the value.
    DeleteValue,
    /// The value has been changed.
    Done,
    /// The value could not be changed.
    Failed(EndpointFailure),
}

/// The value that the service publishes, with a NUL at its end.
pub fn publish_pipe_endpoint(process: u32, pipe: &str) -> (published: (EndpointStep, Vec<u16>))
    ensures
        published.0 == EndpointStep::CreateKey,
        published.1@ == utf16(endpoint_of(process, pipe@)).push(0),
{
    let endpoint = endpoint_text(process, pipe);
    (EndpointStep::CreateKey, wide(endpoint.as_str()))
}

/// Begins to withdraw the pipe.
pub fn clear_pipe_endpoint() -> (step: EndpointStep)
    ensures
        step == EndpointStep::OpenKey,
{
    EndpointStep::OpenKey
}

impl EndpointStep {
    /// Goes on after the system has reported `result` for this step.  A value that does not exist
    /// need not be removed.
    pub fn next(self, result: u32) -> (step: EndpointStep)
        ensures
            step == match self {
                EndpointStep::CreateKey => if result == 0 {
                    EndpointStep::SetValue
                } else {
                    EndpointStep::Failed(EndpointFailure::Key(result))
                },
                EndpointStep::SetValue => if result == 0 {
                    EndpointStep::Done
                } else {
                    EndpointStep::Failed(EndpointFailure::Value(result))
                },
                EndpointStep::OpenKey => if result == FILE_NOT_FOUND {
                    EndpointStep::Done
                } else if result == 0 {
                    EndpointStep::DeleteValue
                } else {
                    EndpointStep::Failed(EndpointFailure::Key(result))
                },
                EndpointStep::DeleteValue => if result == 0 || result == FILE_NOT_FOUND {
                    EndpointStep::Done
                } else {
                    EndpointStep::Failed(EndpointFailure::Value(result))
                },
                _ => self,
            },
    {
        match self {
            EndpointStep::CreateKey => {
                if result == 0 {
                    EndpointStep::SetValue
                } else {
                    EndpointStep::Failed(EndpointFailure::Key(result))
                }
            },
            EndpointStep::SetValue => {
                if result == 0 {
                    EndpointStep::Done
                } else {
                    EndpointStep::Failed(EndpointFailure::Value(result))
                }
            },
            EndpointStep::OpenKey => {
                if result == FILE_NOT_FOUND {
                    EndpointStep::Done
                } else if result == 0 {
                    EndpointStep::DeleteValue
                } else {
                    EndpointStep::Failed(EndpointFailure::Key(result))
                }
            },
            EndpointStep::DeleteValue => {
                if result == 0 || result == FILE_NOT_FOUND {
                    EndpointStep::Done
                } else {
                    EndpointStep::Failed(EndpointFailure::Value(result))
                }
            },
            _ => self,
        }
    }
}

/// Why the service could not be removed; the numbers are errors of the system.
#[derive(Clone, Copy, Debug, PartialEq, Eq, Structural)]
pub enum UninstallError {
    /// It is not known where the program is.
    Paths,
    /// The service manager could not be opened.
    Manager(u32),
    /// The service could not be opened.
    Open(u32),
    /// The service could not be stopped.
    Stop(StopError),
    /// The service could not be deleted.
    Delete(u32),
    /// What the service published could not be withdrawn.
    Endpoint(EndpointFailure),
    /// The program could not be removed.
    RemoveFile,
}

/// What is done next to remove the service.
#[derive(Clone, Copy, Debug, PartialEq, Eq, Structural)]
pub enum UninstallStep {
    /// Find out where the program is.
    FindPaths,
    /// Open the service manager.
    OpenManager,
    /// Open the service.
    OpenService,
    /// Stop the service.
    StopService,
    /// Delete the service.
    DeleteService,
    /// Withdraw what the service published.
    ClearEndpoint,
    /// Look whether the program is there.
    CheckFile,
    /// Remove the program.
    RemoveFile,
    /// Remove the directory, if it is empty.
    RemoveDirectory,
    /// The service is removed.
    Removed,
    /// The service could not be removed.
    Failed(UninstallError),
}

/// What came of a step of removing.
#[derive(Clone, Copy, Debug, PartialEq, Eq, Structural)]
pub enum UninstallEvent {
    /// The step succeeded.
    Succeeded,
    /// The step failed with this error of the system.
    Failed(u32),
    /// The service was not stopped.
    NotStopped(StopError),
    /// What the service published was not withdrawn.
    NotCleared(EndpointFailure),
    /// The program is there, or not.
    FileExists(bool),
}

/// The step after `step` once `event` has come of it.
pub open spec fn uninstall_next(step: UninstallStep, event: UninstallEvent) -> UninstallStep {
    match (step, event) {
        (UninstallStep::FindPaths, UninstallEvent::Succeeded) => UninstallStep::OpenManager,
        (UninstallStep::FindPaths, UninstallEvent::Failed(_)) => UninstallStep::Failed(
            UninstallError::Paths,
        ),
        (UninstallStep::OpenManager, UninstallEvent::Succeeded) => UninstallStep::OpenService,
        (UninstallStep::OpenManager, UninstallEvent::Failed(code)) => UninstallStep::Failed(
            UninstallError::Manager(code),
        ),
        (UninstallStep::OpenService, UninstallEvent::Succeeded) => UninstallStep::StopService,
        (UninstallStep::OpenService, UninstallEvent::Failed(code)) => if code
            == SERVICE_DOES_NOT_EXIST {
            UninstallStep::ClearEndpoint
        } else {
            UninstallStep::Failed(UninstallError::Open(code))
        },
        (UninstallStep::StopService, UninstallEvent::Succeeded) => UninstallStep::DeleteService,
        (UninstallStep::StopService, UninstallEvent::NotStopped(error)) => UninstallStep::Failed(
            UninstallError::Stop(error),
        ),
        (UninstallStep::DeleteService, UninstallEvent::Succeeded) => UninstallStep::ClearEndpoint,
        (UninstallStep::DeleteService, UninstallEvent::Failed(code)) => UninstallStep::Failed(
            UninstallError::Delete(code),
        ),
        (UninstallStep::ClearEndpoint, UninstallEvent::Succeeded) => UninstallStep::CheckFile,
        (UninstallStep::ClearEndpoint, UninstallEvent::NotCleared(failure)) =>
            UninstallStep::Failed(UninstallError::Endpoint(failure)),
        (UninstallStep::CheckFile, UninstallEvent::FileExists(there)) => if there {
            UninstallStep::RemoveFile
        } else {
            UninstallStep::RemoveDirectory
        },
        (UninstallStep::RemoveFile, UninstallEvent::Succeeded) => UninstallStep::RemoveDirectory,
        (UninstallStep::RemoveFile, UninstallEvent::Failed(_)) => UninstallStep::Failed(
            UninstallError::RemoveFile,
        ),
        (UninstallStep::RemoveDirectory, UninstallEvent::Succeeded) => UninstallStep::Removed,
        (UninstallStep::RemoveDirectory, UninstallEvent::Failed(_)) => UninstallStep::Removed,
        _ => step,
    }
}

/// Begins to remove the service.
pub fn uninstall() -> (step: UninstallStep)
    ensures
        step == UninstallStep::FindPaths,
{
    UninstallStep::FindPaths
}

impl UninstallStep {
    /// Goes on once `event` has come of this step; an event that does not belong to the step changes
    /// nothing.
    pub fn next(self, event: UninstallEvent) -> (next: UninstallStep)
        ensures
            next == uninstall_next(self, event),
    {
        match (self, event) {
            (UninstallStep::FindPaths, UninstallEvent::Succeeded) => UninstallStep::OpenManager,
            (UninstallStep::FindPaths, UninstallEvent::Failed(_)) => {
                UninstallStep::Failed(UninstallError::Paths)
            },
            (UninstallStep::OpenManager, UninstallEvent::Succeeded) => UninstallStep::OpenService,
            (UninstallStep::OpenManager, UninstallEvent::Failed(code)) => {
                UninstallStep::Failed(UninstallError::Manager(code))
            },
            (UninstallStep::OpenService, UninstallEvent::Succeeded) => UninstallStep::StopService,
            (UninstallStep::OpenService, UninstallEvent::Failed(code)) => {
                if code == SERVICE_DOES_NOT_EXIST {
                    UninstallStep::ClearEndpoint
                } else {
                    UninstallStep::Failed(UninstallError::Open(code))
                }
            },
            (UninstallStep::StopService, UninstallEvent::Succeeded) => {
                UninstallStep::DeleteService
            },
            (UninstallStep::StopService, UninstallEvent::NotStopped(error)) => {
                UninstallStep::Failed(UninstallError::Stop(error))
            },
            (UninstallStep::DeleteService, UninstallEvent::Succeeded) => {
                UninstallStep::ClearEndpoint
            },
            (UninstallStep::DeleteService, UninstallEvent::Failed(code)) => {
                UninstallStep::Failed(UninstallError::Delete(code))
            },
            (UninstallStep::ClearEndpoint, UninstallEvent::Succeeded) => UninstallStep::CheckFile,
            (UninstallStep::ClearEndpoint, UninstallEvent::NotCleared(failure)) => {
                UninstallStep::Failed(UninstallError::Endpoint(failure))
            },
            (UninstallStep::CheckFile, UninstallEvent::FileExists(there)) => {
                if there {
                    UninstallStep::RemoveFile
                } else {
                    UninstallStep::RemoveDirectory
                }
            },
            (UninstallStep::RemoveFile, UninstallEvent::Succeeded) => {
                UninstallStep::RemoveDirectory
            },
            (UninstallStep::RemoveFile, UninstallEvent::Failed(_)) => {
                UninstallStep::Failed(UninstallError::RemoveFile)
            },
            (UninstallStep::RemoveDirectory, UninstallEvent::Succeeded) => UninstallStep::Removed,
            (UninstallStep::RemoveDirectory, UninstallEvent::Failed(_)) => UninstallStep::Removed,
            _ => self,
        }
    }
}

/// A service is deleted only once it has stopped, and the program is removed only once there is no
/// service and nothing published any more.
pub proof fn lemma_service_is_removed_in_order(step: UninstallStep, event: UninstallEvent)
    ensures
        uninstall_next(step, event) == UninstallStep::DeleteService ==> step
            == UninstallStep::DeleteService || (step == UninstallStep::StopService && event
            == UninstallEvent::Succeeded),
        uninstall_next(step, event) == UninstallStep::ClearEndpoint ==> step
            == UninstallStep::ClearEndpoint || (step == UninstallStep::DeleteService && event
            == UninstallEvent::Succeeded) || (step == UninstallStep::OpenService && event
            == UninstallEvent::Failed(SERVICE_DOES_NOT_EXIST)),
        uninstall_next(step, event) == UninstallStep::CheckFile ==> step
            == UninstallStep::CheckFile || (step == UninstallStep::ClearEndpoint && event
            == UninstallEvent::Succeeded),
        uninstall_next(step, event) == UninstallStep::RemoveFile ==> step
            == UninstallStep::RemoveFile || step == UninstallStep::CheckFile,
{
}

/// Why the service ended; the numbers are errors of the system.
#[derive(Clone, Copy, Debug, PartialEq, Eq, Structural)]
pub enum ServerError {
    /// The security of the pipe could not be set up.
    Security(u32),
    /// No random name could be made.
    Random(u32),
    /// The pipe could not be created.
    Pipe(u32),
    /// The event could not be created.
    Event(u32),
    /// The pipe could not be published.
    Publish(EndpointFailure),
    /// Waiting for a client failed.
    Connect(u32),
    /// The wait for an operation failed.
    Wait(u32),
    /// An operation on the pipe failed.
    Transfer(u32),
    /// The pipe could not be withdrawn.
    Unpublish(EndpointFailure),
}

/// What the service does next.
#[derive(Clone, Copy, Debug, PartialEq, Eq, Structural)]
pub enum ServerStep {
    /// Set up who may use the pipe.
    CreateSecurity,
    /// Make a random name.
    MakeName,
    /// Create the pipe.
    CreatePipe,
    /// Create the event that tells the end of an operation.
    CreateEvent,
    /// Publish the pipe.
    Publish,
    /// Report that the service runs.
    ReportRunning,
    /// Take the next client.
    Connect,
    /// Wait for a client, or for the command to stop, without limit.
    WaitClient,
    /// Fetch the outcome of waiting for a client.
    FetchClient,
    /// Give up waiting for a client, and then stop.
    CancelConnect,
    /// Give up waiting for a client, and then end with this error.
    CancelConnectAfter(ServerError),
    /// Read a request.
    Read,
    /// Wait for a request, or for the command to stop.
    WaitRequest,
    /// Give up reading.
    CancelRead,
    /// Fetch the request.
    FetchRequest,
    /// Read the thermometer.
    Sample,
    /// Write these three bytes.
    Write { status: u8, low: u8, high: u8 },
    /// Wait until they are written, or for the command to stop.
    WaitWritten,
    /// Give up writing.
    CancelWrite,
    /// Fetch the outcome of writing.
    FetchWritten,
    /// Part from the client.
    Disconnect,
    /// Withdraw the pipe, and then stop.
    Unpublish,
    /// Withdraw the pipe, and then end with this error.
    UnpublishAfter(ServerError),
    /// The service has stopped.
    Stopped,
    /// The service ended with an error.
    Failed(ServerError),
}

/// What came of a step of the service.
#[derive(Clone, Copy, Debug, PartialEq, Eq, Structural)]
pub enum ServerEvent {
    /// The step succeeded.
    Succeeded,
    /// The step failed with this error of the system.
    Failed(u32),
    /// The pipe was not published or withdrawn.
    EndpointFailed(EndpointFailure),
    /// The wait ended: zero for the command to stop, one for the operation, or another result with
    /// the last error of the system.
    Waited { result: u32, error: u32 },
    /// This number of bytes was transferred; `first` is the first of them.
    Transferred { bytes: u32, first: u8 },
    /// The thermometer shows this temperature.
    Reading(i64),
    /// The thermometer has no reading.
    NoReading,
}

/// The result of a wait that tells the end of the operation.
pub const WAIT_OPERATION: u32 = 1;

/// The result of a wait that tells the command to stop.
pub const WAIT_STOP: u32 = 0;

/// The step after `step` once `event` has come of it.
pub open spec fn server_next(step: ServerStep, event: ServerEvent) -> ServerStep {
    match (step, event) {
        (ServerStep::CreateSecurity, ServerEvent::Succeeded) => ServerStep::MakeName,
        (ServerStep::CreateSecurity, ServerEvent::Failed(code)) => ServerStep::Failed(
            ServerError::Security(code),
        ),
        (ServerStep::MakeName, ServerEvent::Succeeded) => ServerStep::CreatePipe,
        (ServerStep::MakeName, ServerEvent::Failed(code)) => ServerStep::Failed(
            ServerError::Random(code),
        ),
        (ServerStep::CreatePipe, ServerEvent::Succeeded) => ServerStep::CreateEvent,
        (ServerStep::CreatePipe, ServerEvent::Failed(code)) => ServerStep::Failed(
            ServerError::Pipe(code),
        ),
        (ServerStep::CreateEvent, ServerEvent::Succeeded) => ServerStep::Publish,
        (ServerStep::CreateEvent, ServerEvent::Failed(code)) => ServerStep::Failed(
            ServerError::Event(code),
        ),
        (ServerStep::Publish, ServerEvent::Succeeded) => ServerStep::ReportRunning,
        (ServerStep::Publish, ServerEvent::EndpointFailed(failure)) => ServerStep::Failed(
            ServerError::Publish(failure),
        ),
        (ServerStep::ReportRunning, ServerEvent::Succeeded) => ServerStep::Connect,
        (ServerStep::Connect, ServerEvent::Succeeded) => ServerStep::Read,
        (ServerStep::Connect, ServerEvent::Failed(code)) => if code == PIPE_CONNECTED {
            ServerStep::Read
        } else if code == IO_PENDING {
            ServerStep::WaitClient
        } else {
            ServerStep::UnpublishAfter(ServerError::Connect(code))
        },
        (ServerStep::WaitClient, ServerEvent::Waited { result, error }) => if result
            == WAIT_OPERATION {
            ServerStep::FetchClient
        } else if result == WAIT_STOP {
            ServerStep::CancelConnect
        } else {
            ServerStep::CancelConnectAfter(ServerError::Wait(error))
        },
        (ServerStep::FetchClient, ServerEvent::Succeeded) => ServerStep::Read,
        (ServerStep::FetchClient, ServerEvent::Failed(code)) => ServerStep::UnpublishAfter(
            ServerError::Transfer(code),
        ),
        (ServerStep::CancelConnect, ServerEvent::Succeeded) => ServerStep::Unpublish,
        (ServerStep::CancelConnectAfter(error), ServerEvent::Succeeded) =>
            ServerStep::UnpublishAfter(error),
        (ServerStep::Read, ServerEvent::Succeeded) => ServerStep::FetchRequest,
        (ServerStep::Read, ServerEvent::Failed(code)) => if code == IO_PENDING {
            ServerStep::WaitRequest
        } else {
            ServerStep::Disconnect
        },
        (ServerStep::WaitRequest, ServerEvent::Waited { result, .. }) => if result
            == WAIT_OPERATION {
            ServerStep::FetchRequest
        } else {
            ServerStep::CancelRead
        },
        (ServerStep::CancelRead, ServerEvent::Succeeded) => ServerStep::Disconnect,
        (ServerStep::FetchRequest, ServerEvent::Transferred { bytes, first }) => if bytes == 1
            && first == REQUEST_TEMPERATURE {
            ServerStep::Sample
        } else {
            ServerStep::Disconnect
        },
        (ServerStep::FetchRequest, ServerEvent::Failed(_)) => ServerStep::Disconnect,
        (ServerStep::Sample, ServerEvent::Reading(temperature)) => ServerStep::Write {
            status: RESPONSE_OK,
            low: (whole_degrees(temperature as int) % 256) as u8,
            high: (whole_degrees(temperature as int) / 256) as u8,
        },
        (ServerStep::Sample, ServerEvent::NoReading) => ServerStep::Write {
            status: 1,
            low: 0,
            high: 0,
        },
        (ServerStep::Write { .. }, ServerEvent::Succeeded) => ServerStep::FetchWritten,
        (ServerStep::Write { .. }, ServerEvent::Failed(code)) => if code == IO_PENDING {
            ServerStep::WaitWritten
        } else {
            ServerStep::Disconnect
        },
        (ServerStep::WaitWritten, ServerEvent::Waited { result, .. }) => if result
            == WAIT_OPERATION {
            ServerStep::FetchWritten
        } else {
            ServerStep::CancelWrite
        },
        (ServerStep::CancelWrite, ServerEvent::Succeeded) => ServerStep::Disconnect,
        (ServerStep::FetchWritten, ServerEvent::Transferred { .. }) => ServerStep::Disconnect,
        (ServerStep::FetchWritten, ServerEvent::Failed(_)) => ServerStep::Disconnect,
        (ServerStep::Disconnect, ServerEvent::Succeeded) => ServerStep::Connect,
        (ServerStep::Unpublish, ServerEvent::Succeeded) => ServerStep::Stopped,
        (ServerStep::Unpublish, ServerEvent::EndpointFailed(failure)) => ServerStep::Failed(
            ServerError::Unpublish(failure),
        ),
        (ServerStep::UnpublishAfter(error), ServerEvent::Succeeded) => ServerStep::Failed(error),
        (ServerStep::UnpublishAfter(error), ServerEvent::EndpointFailed(_)) => ServerStep::Failed(
            error,
        ),
        _ => step,
    }
}

/// Begins to serve.
pub fn run_pipe_server() -> (step: ServerStep)
    ensures
        step == ServerStep::CreateSecurity,
{
    ServerStep::CreateSecurity
}

/// Waits for a client: what follows on the outcome of taking one.
fn connect_pipe(event: ServerEvent) -> (next: ServerStep)
    ensures
        next == server_next(ServerStep::Connect, event),
{
    match event {
        ServerEvent::Succeeded => ServerStep::Read,
        ServerEvent::Failed(code) => {
            if code == PIPE_CONNECTED {
                ServerStep::Read
            } else if code == IO_PENDING {
                ServerStep::WaitClient
            } else {
                ServerStep::UnpublishAfter(ServerError::Connect(code))
            }
        },
        _ => ServerStep::Connect,
    }
}

/// The step of serving a client is one of reading its request or writing the answer.
pub open spec fn serves_client(step: ServerStep) -> bool {
    match step {
        ServerStep::Read => true,
        ServerStep::WaitRequest => true,
        ServerStep::CancelRead => true,
        ServerStep::FetchRequest => true,
        ServerStep::Sample => true,
        ServerStep::Write { .. } => true,
        ServerStep::WaitWritten => true,
        ServerStep::CancelWrite => true,
        ServerStep::FetchWritten => true,
        _ => false,
    }
}

/// Serves a client: whatever goes wrong, it is only parted from.
fn serve_client(step: ServerStep, event: ServerEvent) -> (next: ServerStep)
    requires
        serves_client(step),
    ensures
        next == server_next(step, event),
{
    match (step, event) {
        (ServerStep::Read, ServerEvent::Succeeded) => ServerStep::FetchRequest,
        (ServerStep::Read, ServerEvent::Failed(code)) => {
            if code == IO_PENDING {
                ServerStep::WaitRequest
            } else {
                ServerStep::Disconnect
            }
        },
        (ServerStep::WaitRequest, ServerEvent::Waited { result, .. }) => {
            if result == WAIT_OPERATION {
                ServerStep::FetchRequest
            } else {
                ServerStep::CancelRead
            }
        },
        (ServerStep::CancelRead, ServerEvent::Succeeded) => ServerStep::Disconnect,
        (ServerStep::FetchRequest, ServerEvent::Transferred { bytes, first }) => {
            if bytes == 1 && first == REQUEST_TEMPERATURE {
                ServerStep::Sample
            } else {
                ServerStep::Disconnect
            }
        },
        (ServerStep::FetchRequest, ServerEvent::Failed(_)) => ServerStep::Disconnect,
        (ServerStep::Sample, ServerEvent::Reading(temperature)) => {
            answer(Ok(temperature))
        },
        (ServerStep::Sample, ServerEvent::NoReading) => {
            answer(Err(TemperatureError::InvalidReading))
        },
        (ServerStep::Write { .. }, ServerEvent::Succeeded) => ServerStep::FetchWritten,
        (ServerStep::Write { .. }, ServerEvent::Failed(code)) => {
            if code == IO_PENDING {
                ServerStep::WaitWritten
            } else {
                ServerStep::Disconnect
            }
        },
        (ServerStep::WaitWritten, ServerEvent::Waited { result, .. }) => {
            if result == WAIT_OPERATION {
                ServerStep::FetchWritten
            } else {
                ServerStep::CancelWrite
            }
        },
        (ServerStep::CancelWrite, ServerEvent::Succeeded) => ServerStep::Disconnect,
        (ServerStep::FetchWritten, ServerEvent::Transferred { .. }) => ServerStep::Disconnect,
        (ServerStep::FetchWritten, ServerEvent::Failed(_)) => ServerStep::Disconnect,
        _ => step,
    }
}

fn answer(temperature: Result<i64, TemperatureError>) -> (step: ServerStep)
    ensures
        step == match temperature {
            Ok(value) => ServerStep::Write {
                status: RESPONSE_OK,
                low: (whole_degrees(value as int) % 256) as u8,
                high: (whole_degrees(value as int) / 256) as u8,
            },
            Err(_) => ServerStep::Write { status: 1, low: 0, high: 0 },
        },
{
    let response = encode_service_response(temperature);
    ServerStep::Write { status: response[0], low: response[1], high: response[2] }
}

impl ServerStep {
    /// Goes on once `event` has come of this step; an event that does not belong to the step changes
    /// nothing.
    pub fn next(self, event: ServerEvent) -> (next: ServerStep)
        ensures
            next == server_next(self, event),
    {
        match (self, event) {
            (ServerStep::CreateSecurity, ServerEvent::Succeeded) => ServerStep::MakeName,
            (ServerStep::CreateSecurity, ServerEvent::Failed(code)) => {
                ServerStep::Failed(ServerError::Security(code))
            },
            (ServerStep::MakeName, ServerEvent::Succeeded) => ServerStep::CreatePipe,
            (ServerStep::MakeName, ServerEvent::Failed(code)) => {
                ServerStep::Failed(ServerError::Random(code))
            },
            (ServerStep::CreatePipe, ServerEvent::Succeeded) => ServerStep::CreateEvent,
            (ServerStep::CreatePipe, ServerEvent::Failed(code)) => {
                ServerStep::Failed(ServerError::Pipe(code))
            },
            (ServerStep::CreateEvent, ServerEvent::Succeeded) => ServerStep::Publish,
            (ServerStep::CreateEvent, ServerEvent::Failed(code)) => {
                ServerStep::Failed(ServerError::Event(code))
            },
            (ServerStep::Publish, ServerEvent::Succeeded) => ServerStep::ReportRunning,
            (ServerStep::Publish, ServerEvent::EndpointFailed(failure)) => {
                ServerStep::Failed(ServerError::Publish(failure))
            },
            (ServerStep::ReportRunning, ServerEvent::Succeeded) => ServerStep::Connect,
            (ServerStep::Connect, _) => connect_pipe(event),
            (ServerStep::WaitClient, ServerEvent::Waited { result, error }) => {
                if result == WAIT_OPERATION {
                    ServerStep::FetchClient
                } else if result == WAIT_STOP {
                    ServerStep::CancelConnect
                } else {
                    ServerStep::CancelConnectAfter(ServerError::Wait(error))
                }
            },
            (ServerStep::FetchClient, ServerEvent::Succeeded) => ServerStep::Read,
            (ServerStep::FetchClient, ServerEvent::Failed(code)) => {
                ServerStep::UnpublishAfter(ServerError::Transfer(code))
            },
            (ServerStep::CancelConnect, ServerEvent::Succeeded) => ServerStep::Unpublish,
            (ServerStep::CancelConnectAfter(error), ServerEvent::Succeeded) => {
                ServerStep::UnpublishAfter(error)
            },
            (ServerStep::Disconnect, ServerEvent::Succeeded) => ServerStep::Connect,
            (ServerStep::Unpublish, ServerEvent::Succeeded) => ServerStep::Stopped,
            (ServerStep::Unpublish, ServerEvent::EndpointFailed(failure)) => {
                ServerStep::Failed(ServerError::Unpublish(failure))
            },
            (ServerStep::UnpublishAfter(error), ServerEvent::Succeeded) => {
                ServerStep::Failed(error)
            },
            (ServerStep::UnpublishAfter(error), ServerEvent::EndpointFailed(_)) => {
                ServerStep::Failed(error)
            },
            (ServerStep::Read, _) => serve_client(self, event),
            (ServerStep::WaitRequest, _) => serve_client(self, event),
            (ServerStep::CancelRead, _) => serve_client(self, event),
            (ServerStep::FetchRequest, _) => serve_client(self, event),
            (ServerStep::Sample, _) => serve_client(self, event),
            (ServerStep::Write { .. }, _) => serve_client(self, event),
            (ServerStep::WaitWritten, _) => serve_client(self, event),
            (ServerStep::CancelWrite, _) => serve_client(self, event),
            (ServerStep::FetchWritten, _) => serve_client(self, event),
            _ => self,
        }
    }
}

/// The pipe is published at this step.
pub open spec fn is_published(step: ServerStep) -> bool {
    match step {
        ServerStep::CreateSecurity => false,
        ServerStep::MakeName => false,
        ServerStep::CreatePipe => false,
        ServerStep::CreateEvent => false,
        ServerStep::Publish => false,
        ServerStep::Stopped => false,
        ServerStep::Failed(_) => false,
        _ => true,
    }
}

/// A pipe that has been published is withdrawn before the service ends, however it ends.
pub proof fn lemma_pipe_is_withdrawn(step: ServerStep, event: ServerEvent)
    requires
        is_published(step),
    ensures
        is_published(server_next(step, event)) || step is Unpublish || step is UnpublishAfter,
{
}

/// The thermometer is read only for the one request that there is, and what is written is what the
/// thermometer showed: a client can ask for nothing else.
pub proof fn lemma_only_the_temperature_is_served(step: ServerStep, event: ServerEvent)
    ensures
        server_next(step, event) is Sample && step !is Sample ==> step == ServerStep::FetchRequest
            && event == (ServerEvent::Transferred { bytes: 1, first: REQUEST_TEMPERATURE }),
        server_next(step, event) is Write && step !is Write ==> step == ServerStep::Sample && (
        event is Reading || event is NoReading),
        serves_client(step) ==> serves_client(server_next(step, event)) || server_next(step, event)
            == ServerStep::Disconnect,
{
}

/// The service stops without an error only after it was told to.
pub proof fn lemma_service_stops_on_command(step: ServerStep, event: ServerEvent)
    ensures
        server_next(step, event) == ServerStep::Stopped ==> step == ServerStep::Stopped || step
            == ServerStep::Unpublish,
        server_next(step, event) == ServerStep::Unpublish ==> step == ServerStep::Unpublish || step
            == ServerStep::CancelConnect,
        server_next(step, event) == ServerStep::CancelConnect ==> step == ServerStep::CancelConnect
            || (step == ServerStep::WaitClient && (event matches ServerEvent::Waited {
            result,
            ..
        } && result == WAIT_STOP)),
{
}

/// The pipe that the service makes and publishes is the one that its clients find.
pub proof fn lemma_published_pipe_is_found(process: u32, random: Seq<u8>)
    ensures
        endpoint_pipe(endpoint_of(process, pipe_name(random)), process) == Ok::<
            Seq<char>,
            EndpointError,
        >(pipe_name(random)),
{
    let name = pipe_name(random);
    assert(name.subrange(0, PIPE_NAME_PREFIX@.len() as int) =~= PIPE_NAME_PREFIX@);
    lemma_endpoint_is_read_back(process, process, name);
}

/// What the process of the service does next.
#[derive(Clone, Copy, Debug, PartialEq, Eq, Structural)]
pub enum MainStep {
    /// Register for the commands of the service manager.
    Register,
    /// Report that it starts.
    ReportStarting,
    /// Create the event that makes it stop.
    CreateStopEvent,
    /// Open the thermometer, and serve until it is told to stop.
    Serve,
    /// Report that it has stopped.
    ReportStopped { win32_exit_code: u32, service_exit_code: u32 },
    /// End.
    End,
}

/// Begins the process of the service.
pub fn service_main() -> (step: MainStep)
    ensures
        step == MainStep::Register,
{
    MainStep::Register
}

impl MainStep {
    /// Goes on after this step; `error` is the error of the system if it failed.  A service that
    /// cannot register has nobody to report to.
    pub fn next(self, succeeded: bool, error: u32) -> (step: MainStep)
        ensures
            step == match self {
                MainStep::Register => if succeeded {
                    MainStep::ReportStarting
                } else {
                    MainStep::End
                },
                MainStep::ReportStarting => MainStep::CreateStopEvent,
                MainStep::CreateStopEvent => if succeeded {
                    MainStep::Serve
                } else {
                    MainStep::ReportStopped { win32_exit_code: error, service_exit_code: 0 }
                },
                MainStep::Serve => if succeeded {
                    MainStep::ReportStopped { win32_exit_code: 0, service_exit_code: 0 }
                } else {
                    MainStep::ReportStopped {
                        win32_exit_code: SERVICE_SPECIFIC_ERROR,
                        service_exit_code: 1,
                    }
                },
                _ => MainStep::End,
            },
    {
        match self {
            MainStep::Register => {
                if succeeded {
                    MainStep::ReportStarting
                } else {
                    MainStep::End
                }
            },
            MainStep::ReportStarting => MainStep::CreateStopEvent,
            MainStep::CreateStopEvent => {
                if succeeded {
                    MainStep::Serve
                } else {
                    MainStep::ReportStopped { win32_exit_code: error, service_exit_code: 0 }
                }
            },
            MainStep::Serve => {
                if succeeded {
                    MainStep::ReportStopped { win32_exit_code: 0, service_exit_code: 0 }
                } else {
                    MainStep::ReportStopped {
                        win32_exit_code: SERVICE_SPECIFIC_ERROR,
                        service_exit_code: 1,
                    }
                }
            },
            _ => MainStep::End,
        }
    }
}

/// The first argument alone decides: nothing runs the service, `install` and `uninstall` do what they
/// say, and anything else is told back.
pub proof fn lemma_command_is_the_first_argument(
    arguments: &[String],
    command: Result<ServiceCommand, String>,
)
    requires
        call_ensures(run, (arguments,), command),
    ensures
        arguments@.len() == 0 ==> command is Ok && command->Ok_0 is Dispatch,
        arguments@.len() > 0 && arguments@[0]@ == "install"@ ==> command is Ok
            && command->Ok_0 is Install,
        arguments@.len() > 0 && arguments@[0]@ == "uninstall"@ ==> command is Ok
            && command->Ok_0 is Uninstall,
        arguments@.len() > 0 && arguments@[0]@ != "install"@ && arguments@[0]@ != "uninstall"@
            ==> command is Err && command->Err_0@ == arguments@[0]@,
{
    reveal_strlit("install");
    reveal_strlit("uninstall");
    assert("install"@.len() != "uninstall"@.len());
}

/// A service is installed only if the manager and the service could both be opened.
pub proof fn lemma_installed_service_is_opened(manager: bool, service: bool, installed: bool)
    requires
        call_ensures(is_installed, (manager, service), installed),
    ensures
        installed ==> manager && service,
        !installed ==> !manager || !service,
{
}

/// A path is put between quotation marks, with a NUL at the end.
pub proof fn lemma_path_is_quoted(path: &[u16], quoted: Vec<u16>, i: int)
    requires
        call_ensures(quoted_path, (path,), quoted),
        0 <= i < path@.len(),
    ensures
        quoted@.len() == path@.len() + 3,
        quoted@[0] == 34,
        quoted@[i + 1] == path@[i],
        quoted@[path@.len() as int + 1] == 34,
        quoted@[path@.len() as int + 2] == 0,
{
}

/// The name of a pipe is the common beginning and two hexadecimal digits for each random byte, the
/// higher one first; without random bytes there is none.
pub proof fn lemma_pipe_is_named_at_random(
    status: i32,
    random: &[u8],
    name: Result<String, u32>,
    i: int,
)
    requires
        call_ensures(random_pipe_name, (status, random), name),
        0 <= i < random@.len(),
    ensures
        status < 0 ==> name is Err && name->Err_0 - 0x1_0000_0000 == status,
        status >= 0 ==> name is Ok,
        name matches Ok(name) ==> {
            let prefix = "\\\\.\\pipe\\LoopPanelTemperature-"@;
            let high = name@[prefix.len() + 2 * i] as int;
            let low = name@[prefix.len() + 2 * i + 1] as int;
            &&& name@.len() == prefix.len() + 2 * random@.len()
            &&& prefix.is_prefix_of(name@)
            &&& 48 <= high <= 57 || 97 <= high <= 102
            &&& 48 <= low <= 57 || 97 <= low <= 102
            &&& random@[i] == 16 * (if high <= 57 {
                high - 48
            } else {
                high - 87
            }) + (if low <= 57 {
                low - 48
            } else {
                low - 87
            })
        },
{
    lemma_hex_digits(random@, i);
}

proof fn lemma_hex_digits(bytes: Seq<u8>, i: int)
    requires
        0 <= i < bytes.len(),
    ensures
        hex(bytes).len() == 2 * bytes.len(),
        hex(bytes)[2 * i] == hex_char(bytes[i] as int / 16),
        hex(bytes)[2 * i + 1] == hex_char(bytes[i] as int % 16),
    decreases bytes.len(),
{
    let shorter = bytes.drop_last();
    if shorter.len() > 0 {
        lemma_hex_digits(shorter, 0);
    } else {
        assert(hex(shorter).len() == 0);
    }
    if i < shorter.len() {
        lemma_hex_digits(shorter, i);
        assert(shorter[i] == bytes[i]);
    }
}

/// A service that is about to start or to stop is given five seconds; it takes commands only while it
/// runs.
pub proof fn lemma_status_is_reported(
    state: u32,
    win32_exit_code: u32,
    service_exit_code: u32,
    status: ServiceStatus,
)
    requires
        call_ensures(report_status, (state, win32_exit_code, service_exit_code), status),
    ensures
        status.service_type == 16,
        status.current_state == state,
        status.win32_exit_code == win32_exit_code,
        status.service_exit_code == service_exit_code,
        state == 2 || state == 3 ==> status.wait_hint == 5_000 && status.check_point == 1,
        state != 2 && state != 3 ==> status.wait_hint == 0 && status.check_point == 0,
        state == 4 ==> status.controls_accepted == 5,
        state != 4 ==> status.controls_accepted == 0,
{
}

/// Only the commands to stop and to shut down, 1 and 5, stop the service.
pub proof fn lemma_service_obeys_stop(
    control: u32,
    has_status: bool,
    has_event: bool,
    actions: ControlActions,
)
    requires
        call_ensures(service_control_handler, (control, has_status, has_event), actions),
    ensures
        control == 1 || control == 5 ==> actions.report_stopping == has_status && actions.signal_stop
            == has_event,
        control != 1 && control != 5 ==> !actions.report_stopping && !actions.signal_stop,
{
}

/// A service is ready as soon as it runs and answers; one that stopped, or cannot be asked, is not.
pub proof fn lemma_service_gets_ready(
    first: ReadyStep,
    pipe_failed: bool,
    state: u32,
    win32_exit_code: u32,
    service_exit_code: u32,
    code: u32,
    degrees: u32,
    asked: ReadyStep,
    unknown: ReadyStep,
    answered: ReadyStep,
    silent: ReadyStep,
)
    requires
        call_ensures(wait_for_service_ready, (), first),
        call_ensures(
            ReadyStep::next,
            (
                ReadyStep::Query { pipe_failed },
                ReadyEvent::Status { state, win32_exit_code, service_exit_code },
            ),
            asked,
        ),
        call_ensures(
            ReadyStep::next,
            (ReadyStep::Query { pipe_failed }, ReadyEvent::QueryFailed(code)),
            unknown,
        ),
        call_ensures(ReadyStep::next, (ReadyStep::Sample, ReadyEvent::Temperature(degrees)), answered),
        call_ensures(ReadyStep::next, (ReadyStep::Sample, ReadyEvent::NoTemperature), silent),
    ensures
        first == (ReadyStep::Query { pipe_failed: false }),
        state == 1 ==> asked == ReadyStep::Failed(
            ReadyError::Stopped { win32_exit_code, service_exit_code },
        ),
        state == 4 ==> asked is Sample,
        state != 1 && state != 4 ==> asked == (ReadyStep::CheckTime { pipe_failed }),
        unknown == ReadyStep::Failed(ReadyError::Query(code)),
        answered == ReadyStep::Ready(degrees),
        silent == (ReadyStep::CheckTime { pipe_failed: true }),
{
}

/// For ten seconds a service is asked again; after that it is given up, and whether it ever ran is told.
pub proof fn lemma_service_is_given_ten_seconds(
    pipe_failed: bool,
    elapsed: u64,
    next: ReadyStep,
    again: ReadyStep,
    watched: bool,
    sent: bool,
    stopping: StopStep,
    stop_again: StopStep,
    remaining: u32,
)
    requires
        call_ensures(
            ReadyStep::next,
            (ReadyStep::CheckTime { pipe_failed }, ReadyEvent::Time(elapsed)),
            next,
        ),
        call_ensures(ReadyStep::next, (next, ReadyEvent::Slept), again),
        call_ensures(
            StopStep::next,
            (StopStep::CheckTime { watched, sent }, StopEvent::Time(elapsed)),
            stopping,
        ),
        call_ensures(StopStep::next, (stopping, StopEvent::Succeeded), stop_again),
        call_ensures(remaining_wait, (elapsed,), remaining),
    ensures
        elapsed < 10_000 ==> {
            &&& next == (ReadyStep::Sleep { pipe_failed })
            &&& again == (ReadyStep::Query { pipe_failed })
            &&& stopping == (StopStep::Sleep { watched, sent })
            &&& stop_again == (StopStep::Query { watched, sent })
            &&& remaining + elapsed == 10_000
        },
        elapsed >= 10_000 ==> {
            &&& next is Failed
            &&& next->Failed_0 is PipeTimeout <==> pipe_failed
            &&& next->Failed_0 is StateTimeout <==> !pipe_failed
            &&& again == next
            &&& stopping == StopStep::Failed(StopError::Timeout)
            &&& stop_again == stopping
            &&& remaining == 0
        },
{
}

/// What a service is that stands still, is told to stop, or is left to itself, in these steps.
pub open spec fn stop_goes_on(state: u32, watched: bool, sent: bool, next: StopStep) -> bool {
    &&& state == 1 && watched ==> next is WaitProcess
    &&& state == 1 && !watched ==> next is Stopped
    &&& state != 1 && state != 2 && !sent ==> next == (StopStep::SendStop { watched })
    &&& state != 1 && (state == 2 || sent) ==> next == (StopStep::CheckTime { watched, sent })
}

/// The process of a service is watched if it has one that can be opened.  A service that is stopping
/// already needs no command, one that is starting is waited for, and one that has stopped is done once
/// its process has ended.
pub proof fn lemma_service_is_stopped(
    first: StopStep,
    state: u32,
    process: u32,
    code: u32,
    asked: StopStep,
    opened: StopStep,
    unopened: StopStep,
    watched: bool,
    sent: bool,
    again: StopStep,
    result: u32,
    ended: StopStep,
)
    requires
        call_ensures(stop_service_and_wait, (), first),
        call_ensures(StopStep::next, (first, StopEvent::Status { state, process }), asked),
        process > 0 ==> call_ensures(StopStep::next, (asked, StopEvent::Succeeded), opened),
        process > 0 ==> call_ensures(StopStep::next, (asked, StopEvent::Failed(code)), unopened),
        call_ensures(
            StopStep::next,
            (StopStep::Query { watched, sent }, StopEvent::Status { state, process }),
            again,
        ),
        call_ensures(StopStep::next, (StopStep::WaitProcess, StopEvent::Waited(result)), ended),
    ensures
        process > 0 ==> {
            &&& asked == (StopStep::OpenProcess { state, process })
            &&& stop_goes_on(state, true, state == 3, opened)
            &&& stop_goes_on(state, false, state == 3, unopened)
        },
        process == 0 ==> stop_goes_on(state, false, state == 3, asked),
        stop_goes_on(state, watched, sent, again),
        result == 0 ==> ended is Stopped,
        result != 0 ==> ended == StopStep::Failed(StopError::ProcessTimeout),
{
}

/// A command to stop that was taken is not repeated; one that cannot be taken yet is; if the service is
/// not active any more, it has stopped; any other error is told.
pub proof fn lemma_stop_is_sent(
    watched: bool,
    sent: bool,
    code: u32,
    taken: StopStep,
    refused: StopStep,
    unknown: StopStep,
    never_known: StopStep,
)
    requires
        call_ensures(StopStep::next, (StopStep::SendStop { watched }, StopEvent::Succeeded), taken),
        call_ensures(
            StopStep::next,
            (StopStep::SendStop { watched }, StopEvent::Failed(code)),
            refused,
        ),
        call_ensures(
            StopStep::next,
            (StopStep::Query { watched, sent }, StopEvent::Failed(code)),
            unknown,
        ),
        call_ensures(StopStep::next, (StopStep::QueryFirst, StopEvent::Failed(code)), never_known),
    ensures
        taken == (StopStep::CheckTime { watched, sent: true }),
        code == 1061 ==> refused == (StopStep::CheckTime { watched, sent: false }),
        code == 1062 && watched ==> refused is WaitProcess,
        code == 1062 && !watched ==> refused is Stopped,
        code != 1061 && code != 1062 ==> refused == StopStep::Failed(StopError::Control(code)),
        unknown == StopStep::Failed(StopError::Query(code)),
        never_known == unknown,
{
}

/// Installing goes on step by step as long as each one succeeds, and copies the program only if it is not
/// where it belongs.
pub proof fn lemma_installing_goes_on(step: InstallStep, first: InstallStep, next: InstallStep)
    requires
        call_ensures(install, (), first),
        call_ensures(InstallStep::next, (step, InstallEvent::Succeeded), next),
    ensures
        first is OpenSensor,
        step is OpenSensor ==> next is SampleSensor,
        step is SampleSensor ==> next is FindPaths,
        step matches InstallStep::CreateDirectory { copy } ==> if copy {
            next is CopyFile
        } else {
            next == (InstallStep::OpenManager { copy: false })
        },
        step is CopyFile ==> next == (InstallStep::OpenManager { copy: true }),
        step matches InstallStep::OpenManager { copy } ==> next == (InstallStep::CreateService { copy }),
        step matches InstallStep::CreateService { copy } ==> next == (InstallStep::StartService { copy }),
        step matches InstallStep::StartService { copy } ==> next == (InstallStep::AwaitReady { copy }),
{
}

/// What was found out decides how installing goes on: where the program is, whether the service is there
/// already, and whether it answered.
pub proof fn lemma_installing_decides(
    in_place: bool,
    copy: bool,
    installed: bool,
    degrees: u32,
    error: ReadyError,
    found: InstallStep,
    looked: InstallStep,
    answered: InstallStep,
    silent: InstallStep,
)
    requires
        call_ensures(
            InstallStep::next,
            (InstallStep::FindPaths, InstallEvent::Paths { in_place }),
            found,
        ),
        call_ensures(
            InstallStep::next,
            (InstallStep::CheckInstalled { copy }, InstallEvent::IsInstalled(installed)),
            looked,
        ),
        call_ensures(
            InstallStep::next,
            (InstallStep::AwaitReady { copy }, InstallEvent::Ready(degrees)),
            answered,
        ),
        call_ensures(
            InstallStep::next,
            (InstallStep::AwaitReady { copy }, InstallEvent::NotReady(error)),
            silent,
        ),
    ensures
        found is CheckInstalled,
        found->CheckInstalled_copy <==> !in_place,
        installed ==> looked == InstallStep::Failed(InstallError::AlreadyInstalled),
        !installed ==> looked == (InstallStep::CreateDirectory { copy }),
        answered == (InstallStep::Installed { degrees }),
        silent == (InstallStep::StopAgain { copy, error: InstallError::NotReady(error) }),
{
}

/// `next` is what undoes an installation whose service is gone: the copy is removed if there is one.
pub open spec fn install_is_undone(copy: bool, error: InstallError, next: InstallStep) -> bool {
    &&& copy ==> next == (InstallStep::RemoveFile { error })
    &&& !copy ==> next == InstallStep::Failed(error)
}

/// A step of installing that fails is told, after what was done before has been undone.
pub proof fn lemma_installing_fails(step: InstallStep, code: u32, next: InstallStep)
    requires
        call_ensures(InstallStep::next, (step, InstallEvent::Failed(code)), next),
    ensures
        step is OpenSensor ==> next == InstallStep::Failed(InstallError::Sensor),
        step is SampleSensor ==> next == InstallStep::Failed(InstallError::Reading),
        step is FindPaths ==> next == InstallStep::Failed(InstallError::Paths),
        step is CreateDirectory ==> next == InstallStep::Failed(InstallError::Directory),
        step is CopyFile ==> next == InstallStep::Failed(InstallError::Copy),
        step matches InstallStep::OpenManager { copy } ==> install_is_undone(
            copy,
            InstallError::Manager(code),
            next,
        ),
        step matches InstallStep::CreateService { copy } ==> install_is_undone(
            copy,
            InstallError::Create(code),
            next,
        ),
        step matches InstallStep::StartService { copy } ==> next == (InstallStep::DeleteAgain {
            copy,
            error: InstallError::Start(code),
        }),
{
}

/// Undoing goes on whether its steps succeed or not: stop, delete, remove the copy, remove the directory;
/// then the error that began it is told.
pub proof fn lemma_installing_is_undone(
    step: InstallStep,
    code: u32,
    succeeded: InstallStep,
    failed: InstallStep,
)
    requires
        call_ensures(InstallStep::next, (step, InstallEvent::Succeeded), succeeded),
        call_ensures(InstallStep::next, (step, InstallEvent::Failed(code)), failed),
    ensures
        step is StopAgain || step is DeleteAgain || step is RemoveFile || step is RemoveDirectory
            ==> failed == succeeded,
        step matches InstallStep::StopAgain { copy, error } ==> succeeded == (InstallStep::DeleteAgain {
            copy,
            error,
        }),
        step matches InstallStep::DeleteAgain { copy, error } ==> install_is_undone(
            copy,
            error,
            succeeded,
        ),
        step matches InstallStep::RemoveFile { error } ==> succeeded == (InstallStep::RemoveDirectory {
            error,
        }),
        step matches InstallStep::RemoveDirectory { error } ==> succeeded == InstallStep::Failed(error),
        step is Installed || step is Failed ==> succeeded == step && failed == step,
{
}

/// A pipe is published by its process and its name, and withdrawn without being missed if it was not
/// published; errors are told.
pub proof fn lemma_endpoint_is_changed(
    process: u32,
    pipe: &str,
    endpoint: String,
    published: (EndpointStep, Vec<u16>),
    first: EndpointStep,
    result: u32,
    created: EndpointStep,
    set: EndpointStep,
    opened: EndpointStep,
    deleted: EndpointStep,
)
    requires
        call_ensures(endpoint_text, (process, pipe), endpoint),
        call_ensures(publish_pipe_endpoint, (process, pipe), published),
        call_ensures(clear_pipe_endpoint, (), first),
        call_ensures(EndpointStep::next, (published.0, result), created),
        call_ensures(EndpointStep::next, (EndpointStep::SetValue, result), set),
        call_ensures(EndpointStep::next, (first, result), opened),
        call_ensures(EndpointStep::next, (EndpointStep::DeleteValue, result), deleted),
    ensures
        published.0 is CreateKey,
        published.1@ == utf16(endpoint@).push(0),
        first is OpenKey,
        result == 0 ==> created is SetValue && set is Done && opened is DeleteValue && deleted is Done,
        result == 2 ==> opened is Done && deleted is Done,
        result != 0 ==> created == EndpointStep::Failed(EndpointFailure::Key(result)) && set
            == EndpointStep::Failed(EndpointFailure::Value(result)),
        result != 0 && result != 2 ==> opened == created && deleted == set,
{
}

/// The service is removed step by step: its process, itself, what it published, its program, and its
/// directory, whose removal may fail.
pub proof fn lemma_removing_goes_on(step: UninstallStep, first: UninstallStep, next: UninstallStep)
    requires
        call_ensures(uninstall, (), first),
        call_ensures(UninstallStep::next, (step, UninstallEvent::Succeeded), next),
    ensures
        first is FindPaths,
        step is FindPaths ==> next is OpenManager,
        step is OpenManager ==> next is OpenService,
        step is OpenService ==> next is StopService,
        step is StopService ==> next is DeleteService,
        step is DeleteService ==> next is ClearEndpoint,
        step is ClearEndpoint ==> next is CheckFile,
        step is RemoveFile ==> next is RemoveDirectory,
        step is RemoveDirectory ==> next is Removed,
        step is Removed || step is Failed ==> next == step,
{
}

/// A step of removing that fails is told; a service that does not exist is not missed, and neither is a
/// program that is not there.
pub proof fn lemma_removing_fails(
    step: UninstallStep,
    code: u32,
    next: UninstallStep,
    error: StopError,
    running: UninstallStep,
    failure: EndpointFailure,
    published: UninstallStep,
    there: bool,
    looked: UninstallStep,
)
    requires
        call_ensures(UninstallStep::next, (step, UninstallEvent::Failed(code)), next),
        call_ensures(
            UninstallStep::next,
            (UninstallStep::StopService, UninstallEvent::NotStopped(error)),
            running,
        ),
        call_ensures(
            UninstallStep::next,
            (UninstallStep::ClearEndpoint, UninstallEvent::NotCleared(failure)),
            published,
        ),
        call_ensures(
            UninstallStep::next,
            (UninstallStep::CheckFile, UninstallEvent::FileExists(there)),
            looked,
        ),
    ensures
        step is FindPaths ==> next == UninstallStep::Failed(UninstallError::Paths),
        step is OpenManager ==> next == UninstallStep::Failed(UninstallError::Manager(code)),
        step is OpenService && code == 1060 ==> next is ClearEndpoint,
        step is OpenService && code != 1060 ==> next == UninstallStep::Failed(
            UninstallError::Open(code),
        ),
        step is DeleteService ==> next == UninstallStep::Failed(UninstallError::Delete(code)),
        step is RemoveFile ==> next == UninstallStep::Failed(UninstallError::RemoveFile),
        step is RemoveDirectory ==> next is Removed,
        running == UninstallStep::Failed(UninstallError::Stop(error)),
        published == UninstallStep::Failed(UninstallError::Endpoint(failure)),
        there ==> looked is RemoveFile,
        !there ==> looked is RemoveDirectory,
{
}

/// The server makes its pipe, publishes it, and then takes one client after the other; each step that
/// succeeds is followed by the next.
pub proof fn lemma_server_goes_on(step: ServerStep, first: ServerStep, next: ServerStep)
    requires
        call_ensures(run_pipe_server, (), first),
        call_ensures(ServerStep::next, (step, ServerEvent::Succeeded), next),
    ensures
        first is CreateSecurity,
        step is CreateSecurity ==> next is MakeName,
        step is MakeName ==> next is CreatePipe,
        step is CreatePipe ==> next is CreateEvent,
        step is CreateEvent ==> next is Publish,
        step is Publish ==> next is ReportRunning,
        step is ReportRunning ==> next is Connect,
        step is Connect ==> next is Read,
        step is FetchClient ==> next is Read,
        step is Read ==> next is FetchRequest,
        step is Write ==> next is FetchWritten,
        step is CancelRead || step is CancelWrite ==> next is Disconnect,
        step is Disconnect ==> next is Connect,
        step is CancelConnect ==> next is Unpublish,
        step is Unpublish ==> next is Stopped,
        step matches ServerStep::CancelConnectAfter(error) ==> next == ServerStep::UnpublishAfter(error),
        step matches ServerStep::UnpublishAfter(error) ==> next == ServerStep::Failed(error),
        step is Stopped || step is Failed ==> next == step,
{
}

/// A step of the server that fails before the pipe is published ends it; after that, what fails with one
/// client only parts from this client, and what fails without a client withdraws the pipe first.
pub proof fn lemma_server_fails(step: ServerStep, code: u32, next: ServerStep)
    requires
        call_ensures(ServerStep::next, (step, ServerEvent::Failed(code)), next),
    ensures
        step is CreateSecurity ==> next == ServerStep::Failed(ServerError::Security(code)),
        step is MakeName ==> next == ServerStep::Failed(ServerError::Random(code)),
        step is CreatePipe ==> next == ServerStep::Failed(ServerError::Pipe(code)),
        step is CreateEvent ==> next == ServerStep::Failed(ServerError::Event(code)),
        step is Connect && code == 535 ==> next is Read,
        step is Connect && code == 997 ==> next is WaitClient,
        step is Connect && code != 535 && code != 997 ==> next == ServerStep::UnpublishAfter(
            ServerError::Connect(code),
        ),
        step is FetchClient ==> next == ServerStep::UnpublishAfter(ServerError::Transfer(code)),
        step is Read && code == 997 ==> next is WaitRequest,
        step is Write && code == 997 ==> next is WaitWritten,
        (step is Read || step is Write) && code != 997 ==> next is Disconnect,
        step is FetchRequest || step is FetchWritten ==> next is Disconnect,
{
}

/// A wait that the operation ended, with one, is followed by its outcome.  The command to stop, which is
/// zero, stops the server while it waits for a client; a wait for a client that failed ends it with the
/// error; every other wait is given up.
pub proof fn lemma_server_waits(step: ServerStep, result: u32, error: u32, next: ServerStep)
    requires
        call_ensures(ServerStep::next, (step, ServerEvent::Waited { result, error }), next),
    ensures
        result == 1 ==> {
            &&& step is WaitClient ==> next is FetchClient
            &&& step is WaitRequest ==> next is FetchRequest
            &&& step is WaitWritten ==> next is FetchWritten
        },
        result != 1 ==> {
            &&& step is WaitClient && result == 0 ==> next is CancelConnect
            &&& step is WaitClient && result != 0 ==> next == ServerStep::CancelConnectAfter(
                ServerError::Wait(error),
            )
            &&& step is WaitRequest ==> next is CancelRead
            &&& step is WaitWritten ==> next is CancelWrite
        },
{
}

/// A request is a single byte that is one.  It is answered with the three bytes of the temperature, or of
/// its absence; then the server parts from the client.
pub proof fn lemma_server_answers(
    bytes: u32,
    first: u8,
    temperature: i64,
    error: TemperatureError,
    response: [u8; 3],
    nothing: [u8; 3],
    asked: ServerStep,
    answered: ServerStep,
    unanswered: ServerStep,
    parted: ServerStep,
)
    requires
        call_ensures(encode_service_response, (Ok(temperature),), response),
        call_ensures(encode_service_response, (Err(error),), nothing),
        call_ensures(
            ServerStep::next,
            (ServerStep::FetchRequest, ServerEvent::Transferred { bytes, first }),
            asked,
        ),
        call_ensures(
            ServerStep::next,
            (ServerStep::Sample, ServerEvent::Reading(temperature)),
            answered,
        ),
        call_ensures(ServerStep::next, (ServerStep::Sample, ServerEvent::NoReading), unanswered),
        call_ensures(
            ServerStep::next,
            (ServerStep::FetchWritten, ServerEvent::Transferred { bytes, first }),
            parted,
        ),
    ensures
        bytes == 1 && first == 1 ==> asked is Sample,
        bytes != 1 || first != 1 ==> asked is Disconnect,
        answered == (ServerStep::Write {
            status: response@[0],
            low: response@[1],
            high: response@[2],
        }),
        unanswered == (ServerStep::Write { status: nothing@[0], low: nothing@[1], high: nothing@[2] }),
        parted is Disconnect,
{
}

/// A pipe that cannot be published ends the server; one that cannot be withdrawn is told, unless an error
/// came before.
pub proof fn lemma_server_publishes(
    failure: EndpointFailure,
    error: ServerError,
    unpublished: ServerStep,
    left: ServerStep,
    left_after: ServerStep,
)
    requires
        call_ensures(
            ServerStep::next,
            (ServerStep::Publish, ServerEvent::EndpointFailed(failure)),
            unpublished,
        ),
        call_ensures(
            ServerStep::next,
            (ServerStep::Unpublish, ServerEvent::EndpointFailed(failure)),
            left,
        ),
        call_ensures(
            ServerStep::next,
            (ServerStep::UnpublishAfter(error), ServerEvent::EndpointFailed(failure)),
            left_after,
        ),
    ensures
        unpublished == ServerStep::Failed(ServerError::Publish(failure)),
        left == ServerStep::Failed(ServerError::Unpublish(failure)),
        left_after == ServerStep::Failed(error),
{
}

/// The service registers, tells that it starts, makes its event and serves; it tells with which error it
/// has stopped, and ends.  If it cannot register, it ends at once.
pub proof fn lemma_service_runs(
    first: MainStep,
    error: u32,
    succeeded: bool,
    registered: MainStep,
    unregistered: MainStep,
    started: MainStep,
    serving: MainStep,
    without_event: MainStep,
    stopped: MainStep,
    failed: MainStep,
    win32_exit_code: u32,
    service_exit_code: u32,
    ended: MainStep,
)
    requires
        call_ensures(service_main, (), first),
        call_ensures(MainStep::next, (first, true, error), registered),
        call_ensures(MainStep::next, (first, false, error), unregistered),
        call_ensures(MainStep::next, (registered, succeeded, error), started),
        call_ensures(MainStep::next, (started, true, error), serving),
        call_ensures(MainStep::next, (started, false, error), without_event),
        call_ensures(MainStep::next, (serving, true, error), stopped),
        call_ensures(MainStep::next, (serving, false, error), failed),
        call_ensures(
            MainStep::next,
            (MainStep::ReportStopped { win32_exit_code, service_exit_code }, succeeded, error),
            ended,
        ),
    ensures
        first is Register,
        registered is ReportStarting,
        unregistered is End,
        started is CreateStopEvent,
        serving is Serve,
        without_event == (MainStep::ReportStopped { win32_exit_code: error, service_exit_code: 0 }),
        stopped == (MainStep::ReportStopped { win32_exit_code: 0, service_exit_code: 0 }),
        failed == (MainStep::ReportStopped { win32_exit_code: 1066, service_exit_code: 1 }),
        ended is End,
{
}

} // verus!
