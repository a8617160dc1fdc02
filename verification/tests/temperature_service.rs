use looppanel::temperature::{parse_endpoint, SERVICE_RUNNING};
use looppanel::temperature_service::{
    clear_pipe_endpoint, install, is_installed, publish_pipe_endpoint, quoted_path,
    random_pipe_name, remaining_wait, report_status, run, run_pipe_server, service_control_handler,
    service_main, stop_service_and_wait, uninstall, wait_for_service_ready, ControlActions,
    EndpointFailure, EndpointStep, InstallError, InstallEvent, InstallStep, MainStep, ReadyError,
    ReadyEvent, ReadyStep, ServerError, ServerEvent, ServerStep, ServiceCommand, StopError,
    StopEvent, StopStep, UninstallError, UninstallEvent, UninstallStep, SERVICE_START_PENDING,
    SERVICE_STOPPED, SERVICE_STOP_PENDING,
};

fn arguments(texts: &[&str]) -> Vec<String> {
    texts.iter().map(|text| (*text).to_owned()).collect()
}

#[test]
fn commands_are_understood() {
    assert_eq!(run(&arguments(&[])), Ok(ServiceCommand::Dispatch));
    assert_eq!(run(&arguments(&["install"])), Ok(ServiceCommand::Install));
    assert_eq!(run(&arguments(&["uninstall", "x"])), Ok(ServiceCommand::Uninstall));
    assert_eq!(run(&arguments(&["Install"])), Err("Install".to_owned()));
}

#[test]
fn service_is_installed_if_it_can_be_opened() {
    assert!(is_installed(true, true));
    assert!(!is_installed(true, false) && !is_installed(false, true));
}

#[test]
fn pipe_has_a_random_name_that_clients_find() {
    let random: Vec<u8> = (0..16).map(|value| value * 17).collect();
    let name = random_pipe_name(0, &random).unwrap();
    assert_eq!(name, r"\\.\pipe\LoopPanelTemperature-00112233445566778899aabbccddeeff");
    assert_eq!(random_pipe_name(-1, &random), Err(0xffff_ffff));
    let (step, value) = publish_pipe_endpoint(4711, &name);
    assert_eq!(step, EndpointStep::CreateKey);
    assert_eq!(value.last(), Some(&0));
    let endpoint = String::from_utf16(&value[..value.len() - 1]).unwrap();
    assert_eq!(endpoint, format!("4711|{name}"));
    assert_eq!(parse_endpoint(&endpoint, 4711).unwrap(), name);
    let path: Vec<u16> = "a b".encode_utf16().collect();
    assert_eq!(quoted_path(&path), "\"a b\"\0".encode_utf16().collect::<Vec<_>>());
}

#[test]
fn endpoint_is_published_and_withdrawn() {
    let create = EndpointStep::CreateKey;
    assert_eq!(create.next(0).next(0), EndpointStep::Done);
    assert_eq!(create.next(5), EndpointStep::Failed(EndpointFailure::Key(5)));
    assert_eq!(create.next(0).next(5), EndpointStep::Failed(EndpointFailure::Value(5)));
    let open = clear_pipe_endpoint();
    assert_eq!(open, EndpointStep::OpenKey);
    assert_eq!(open.next(2), EndpointStep::Done);
    assert_eq!(open.next(5), EndpointStep::Failed(EndpointFailure::Key(5)));
    assert_eq!(open.next(0), EndpointStep::DeleteValue);
    assert_eq!(open.next(0).next(0), EndpointStep::Done);
    assert_eq!(open.next(0).next(2), EndpointStep::Done);
    assert_eq!(open.next(0).next(5), EndpointStep::Failed(EndpointFailure::Value(5)));
}

#[test]
fn status_tells_what_the_service_accepts() {
    let running = report_status(SERVICE_RUNNING, 0, 0);
    assert_eq!(running.service_type, 16);
    assert_eq!(running.controls_accepted, 5);
    assert_eq!((running.check_point, running.wait_hint), (0, 0));
    let starting = report_status(SERVICE_START_PENDING, 0, 0);
    assert_eq!(starting.controls_accepted, 0);
    assert_eq!((starting.check_point, starting.wait_hint), (1, 5_000));
    let stopping = report_status(SERVICE_STOP_PENDING, 0, 0);
    assert_eq!((stopping.check_point, stopping.wait_hint), (1, 5_000));
    let stopped = report_status(SERVICE_STOPPED, 1066, 1);
    assert_eq!((stopped.win32_exit_code, stopped.service_exit_code), (1066, 1));
}

#[test]
fn only_stop_and_shutdown_are_obeyed() {
    let both = ControlActions { report_stopping: true, signal_stop: true };
    assert_eq!(service_control_handler(1, true, true), both);
    assert_eq!(service_control_handler(5, true, true), both);
    assert_eq!(
        service_control_handler(4, true, true),
        ControlActions { report_stopping: false, signal_stop: false }
    );
    assert_eq!(
        service_control_handler(1, false, true),
        ControlActions { report_stopping: false, signal_stop: true }
    );
}

#[test]
fn service_is_ready_once_it_answers() {
    let state = |state: u32| ReadyEvent::Status {
        state,
        win32_exit_code: 1066,
        service_exit_code: 1,
    };
    let start = wait_for_service_ready();
    assert_eq!(start.next(ReadyEvent::QueryFailed(6)), ReadyStep::Failed(ReadyError::Query(6)));
    assert_eq!(
        start.next(state(SERVICE_STOPPED)),
        ReadyStep::Failed(ReadyError::Stopped { win32_exit_code: 1066, service_exit_code: 1 })
    );
    let waiting = start.next(state(SERVICE_START_PENDING));
    assert_eq!(
        waiting.next(ReadyEvent::Time(10_000)),
        ReadyStep::Failed(ReadyError::StateTimeout)
    );
    let again = waiting.next(ReadyEvent::Time(9_999)).next(ReadyEvent::Slept);
    assert_eq!(again, start);
    let sample = again.next(state(SERVICE_RUNNING));
    assert_eq!(sample.next(ReadyEvent::Temperature(63)), ReadyStep::Ready(63));
    let silent = sample.next(ReadyEvent::NoTemperature);
    assert_eq!(
        silent.next(ReadyEvent::Time(10_000)),
        ReadyStep::Failed(ReadyError::PipeTimeout)
    );
    assert_eq!(
        silent.next(ReadyEvent::Time(0)).next(ReadyEvent::Slept),
        ReadyStep::Query { pipe_failed: true }
    );
}

#[test]
fn service_is_stopped_and_its_process_waited_for() {
    let state = |state: u32, process: u32| StopEvent::Status { state, process };
    let start = stop_service_and_wait();
    assert_eq!(start.next(StopEvent::Failed(6)), StopStep::Failed(StopError::Query(6)));
    assert_eq!(start.next(state(SERVICE_STOPPED, 0)), StopStep::Stopped);
    assert_eq!(start.next(state(SERVICE_RUNNING, 0)), StopStep::SendStop { watched: false });
    let open = start.next(state(SERVICE_RUNNING, 9));
    assert_eq!(open, StopStep::OpenProcess { state: SERVICE_RUNNING, process: 9 });
    let send = open.next(StopEvent::Succeeded);
    assert_eq!(send, StopStep::SendStop { watched: true });
    assert_eq!(open.next(StopEvent::Failed(87)), StopStep::SendStop { watched: false });
    assert_eq!(send.next(StopEvent::Failed(5)), StopStep::Failed(StopError::Control(5)));
    assert_eq!(send.next(StopEvent::Failed(1062)), StopStep::WaitProcess);
    assert_eq!(
        send.next(StopEvent::Failed(1061)),
        StopStep::CheckTime { watched: true, sent: false }
    );
    let sent = send.next(StopEvent::Succeeded);
    assert_eq!(sent.next(StopEvent::Time(10_000)), StopStep::Failed(StopError::Timeout));
    let query = sent.next(StopEvent::Time(0)).next(StopEvent::Succeeded);
    assert_eq!(query, StopStep::Query { watched: true, sent: true });
    assert_eq!(query.next(state(SERVICE_RUNNING, 9)), sent);
    let wait = query.next(state(SERVICE_STOPPED, 0));
    assert_eq!(wait, StopStep::WaitProcess);
    assert_eq!(wait.next(StopEvent::Waited(0)), StopStep::Stopped);
    assert_eq!(
        wait.next(StopEvent::Waited(258)),
        StopStep::Failed(StopError::ProcessTimeout)
    );
    assert_eq!(
        start.next(state(SERVICE_STOP_PENDING, 0)),
        StopStep::CheckTime { watched: false, sent: true }
    );
    assert_eq!(
        start.next(state(SERVICE_START_PENDING, 0)),
        StopStep::CheckTime { watched: false, sent: false }
    );
    assert_eq!(remaining_wait(4_000), 6_000);
    assert_eq!(remaining_wait(10_001), 0);
}

#[test]
fn installation_goes_step_by_step() {
    let mut step = install();
    for (expected, event) in [
        (InstallStep::OpenSensor, InstallEvent::Succeeded),
        (InstallStep::SampleSensor, InstallEvent::Succeeded),
        (InstallStep::FindPaths, InstallEvent::Paths { in_place: false }),
        (InstallStep::CheckInstalled { copy: true }, InstallEvent::IsInstalled(false)),
        (InstallStep::CreateDirectory { copy: true }, InstallEvent::Succeeded),
        (InstallStep::CopyFile, InstallEvent::Succeeded),
        (InstallStep::OpenManager { copy: true }, InstallEvent::Succeeded),
        (InstallStep::CreateService { copy: true }, InstallEvent::Succeeded),
        (InstallStep::StartService { copy: true }, InstallEvent::Succeeded),
        (InstallStep::AwaitReady { copy: true }, InstallEvent::Ready(63)),
    ] {
        assert_eq!(step, expected);
        step = step.next(event);
    }
    assert_eq!(step, InstallStep::Installed { degrees: 63 });
    let in_place = InstallStep::FindPaths.next(InstallEvent::Paths { in_place: true });
    assert_eq!(in_place, InstallStep::CheckInstalled { copy: false });
    assert_eq!(
        InstallStep::CreateDirectory { copy: false }.next(InstallEvent::Succeeded),
        InstallStep::OpenManager { copy: false }
    );
}

#[test]
fn failed_installation_is_undone() {
    let fail = InstallEvent::Failed(5);
    let failed = |error: InstallError| InstallStep::Failed(error);
    assert_eq!(InstallStep::OpenSensor.next(fail), failed(InstallError::Sensor));
    assert_eq!(InstallStep::SampleSensor.next(fail), failed(InstallError::Reading));
    assert_eq!(InstallStep::FindPaths.next(fail), failed(InstallError::Paths));
    assert_eq!(
        InstallStep::CheckInstalled { copy: true }.next(InstallEvent::IsInstalled(true)),
        failed(InstallError::AlreadyInstalled)
    );
    assert_eq!(
        InstallStep::CreateDirectory { copy: true }.next(fail),
        failed(InstallError::Directory)
    );
    assert_eq!(InstallStep::CopyFile.next(fail), failed(InstallError::Copy));
    assert_eq!(
        InstallStep::OpenManager { copy: false }.next(fail),
        failed(InstallError::Manager(5))
    );
    assert_eq!(
        InstallStep::CreateService { copy: true }.next(fail),
        InstallStep::RemoveFile { error: InstallError::Create(5) }
    );
    assert_eq!(
        InstallStep::StartService { copy: true }.next(fail),
        InstallStep::DeleteAgain { copy: true, error: InstallError::Start(5) }
    );
    let error = InstallError::NotReady(ReadyError::PipeTimeout);
    let mut step = InstallStep::AwaitReady { copy: true }
        .next(InstallEvent::NotReady(ReadyError::PipeTimeout));
    for expected in [
        InstallStep::StopAgain { copy: true, error },
        InstallStep::DeleteAgain { copy: true, error },
        InstallStep::RemoveFile { error },
        InstallStep::RemoveDirectory { error },
    ] {
        assert_eq!(step, expected);
        assert_eq!(step.next(fail), step.next(InstallEvent::Succeeded));
        step = step.next(fail);
    }
    assert_eq!(step, failed(error));
}

#[test]
fn service_is_removed_in_order() {
    let good = UninstallEvent::Succeeded;
    let fail = UninstallEvent::Failed(5);
    let failed = |error: UninstallError| UninstallStep::Failed(error);
    let mut step = uninstall();
    assert_eq!(step.next(fail), failed(UninstallError::Paths));
    step = step.next(good);
    assert_eq!(step.next(fail), failed(UninstallError::Manager(5)));
    step = step.next(good);
    assert_eq!(step.next(fail), failed(UninstallError::Open(5)));
    assert_eq!(step.next(UninstallEvent::Failed(1060)), UninstallStep::ClearEndpoint);
    step = step.next(good);
    assert_eq!(
        step.next(UninstallEvent::NotStopped(StopError::Timeout)),
        failed(UninstallError::Stop(StopError::Timeout))
    );
    step = step.next(good);
    assert_eq!(step, UninstallStep::DeleteService);
    assert_eq!(step.next(fail), failed(UninstallError::Delete(5)));
    step = step.next(good);
    assert_eq!(
        step.next(UninstallEvent::NotCleared(EndpointFailure::Key(5))),
        failed(UninstallError::Endpoint(EndpointFailure::Key(5)))
    );
    step = step.next(good);
    assert_eq!(step.next(UninstallEvent::FileExists(false)), UninstallStep::RemoveDirectory);
    step = step.next(UninstallEvent::FileExists(true));
    assert_eq!(step.next(fail), failed(UninstallError::RemoveFile));
    step = step.next(good);
    assert_eq!(step, UninstallStep::RemoveDirectory);
    assert_eq!(step.next(fail), UninstallStep::Removed);
    assert_eq!(step.next(good), UninstallStep::Removed);
}

#[test]
fn clients_get_the_temperature_and_nothing_else() {
    let request = |bytes: u32, first: u8| {
        ServerStep::FetchRequest.next(ServerEvent::Transferred { bytes, first })
    };
    assert_eq!(request(1, 1), ServerStep::Sample);
    assert_eq!(request(1, 2), ServerStep::Disconnect);
    assert_eq!(request(0, 1), ServerStep::Disconnect);
    let write = ServerStep::Sample.next(ServerEvent::Reading(300_499));
    assert_eq!(write, ServerStep::Write { status: 0, low: 44, high: 1 });
    assert_eq!(
        ServerStep::Sample.next(ServerEvent::NoReading),
        ServerStep::Write { status: 1, low: 0, high: 0 }
    );
    assert_eq!(write.next(ServerEvent::Succeeded), ServerStep::FetchWritten);
    let waiting = write.next(ServerEvent::Failed(997));
    assert_eq!(waiting, ServerStep::WaitWritten);
    assert_eq!(
        waiting.next(ServerEvent::Waited { result: 258, error: 0 }),
        ServerStep::CancelWrite
    );
    assert_eq!(write.next(ServerEvent::Failed(232)), ServerStep::Disconnect);
    assert_eq!(
        ServerStep::Read.next(ServerEvent::Failed(997)).next(ServerEvent::Waited {
            result: 1,
            error: 0
        }),
        ServerStep::FetchRequest
    );
    assert_eq!(
        ServerStep::WaitRequest.next(ServerEvent::Waited { result: 0, error: 0 }),
        ServerStep::CancelRead
    );
    assert_eq!(ServerStep::Disconnect.next(ServerEvent::Succeeded), ServerStep::Connect);
}

#[test]
fn pipe_is_published_while_the_service_runs() {
    let mut step = run_pipe_server();
    for expected in [
        ServerStep::CreateSecurity,
        ServerStep::MakeName,
        ServerStep::CreatePipe,
        ServerStep::CreateEvent,
        ServerStep::Publish,
        ServerStep::ReportRunning,
        ServerStep::Connect,
    ] {
        assert_eq!(step, expected);
        step = step.next(ServerEvent::Succeeded);
    }
    assert_eq!(step, ServerStep::Read);
    let fail = ServerEvent::Failed(5);
    let failed = |error: ServerError| ServerStep::Failed(error);
    assert_eq!(ServerStep::CreateSecurity.next(fail), failed(ServerError::Security(5)));
    assert_eq!(ServerStep::MakeName.next(fail), failed(ServerError::Random(5)));
    assert_eq!(ServerStep::CreatePipe.next(fail), failed(ServerError::Pipe(5)));
    assert_eq!(ServerStep::CreateEvent.next(fail), failed(ServerError::Event(5)));
    let failure = EndpointFailure::Value(5);
    assert_eq!(
        ServerStep::Publish.next(ServerEvent::EndpointFailed(failure)),
        failed(ServerError::Publish(failure))
    );
    assert_eq!(
        ServerStep::Connect.next(fail),
        ServerStep::UnpublishAfter(ServerError::Connect(5))
    );
    assert_eq!(ServerStep::Connect.next(ServerEvent::Failed(535)), ServerStep::Read);
    let waiting = ServerStep::Connect.next(ServerEvent::Failed(997));
    assert_eq!(waiting, ServerStep::WaitClient);
    let stopped = waiting.next(ServerEvent::Waited { result: 0, error: 0 });
    assert_eq!(stopped, ServerStep::CancelConnect);
    let stopped = stopped.next(ServerEvent::Succeeded);
    assert_eq!(stopped, ServerStep::Unpublish);
    assert_eq!(stopped.next(ServerEvent::Succeeded), ServerStep::Stopped);
    assert_eq!(
        stopped.next(ServerEvent::EndpointFailed(failure)),
        failed(ServerError::Unpublish(failure))
    );
    let broken = waiting.next(ServerEvent::Waited { result: 0xffff_ffff, error: 6 });
    assert_eq!(broken, ServerStep::CancelConnectAfter(ServerError::Wait(6)));
    let broken = broken.next(ServerEvent::Succeeded);
    assert_eq!(broken, ServerStep::UnpublishAfter(ServerError::Wait(6)));
    assert_eq!(broken.next(ServerEvent::Succeeded), failed(ServerError::Wait(6)));
    assert_eq!(
        ServerStep::FetchClient.next(fail),
        ServerStep::UnpublishAfter(ServerError::Transfer(5))
    );
}

#[test]
fn process_of_the_service_reports_its_end() {
    let start = service_main();
    assert_eq!(start.next(false, 5), MainStep::End);
    let step = start.next(true, 0);
    assert_eq!(step, MainStep::ReportStarting);
    let step = step.next(true, 0);
    assert_eq!(
        step.next(false, 8),
        MainStep::ReportStopped { win32_exit_code: 8, service_exit_code: 0 }
    );
    let step = step.next(true, 0);
    assert_eq!(step, MainStep::Serve);
    assert_eq!(
        step.next(false, 0),
        MainStep::ReportStopped { win32_exit_code: 1066, service_exit_code: 1 }
    );
    let step = step.next(true, 0);
    assert_eq!(step, MainStep::ReportStopped { win32_exit_code: 0, service_exit_code: 0 });
    assert_eq!(step.next(true, 0), MainStep::End);
}
