use looppanel::temperature::{
    check_hresult, decode_service_response, encode_service_response, endpoint_text, msr_value,
    package_temperature, parse_endpoint, running_service_pid, service_sample, tj_max, ClientError,
    ClientEvent, ClientStep, CpuTemperature, EndpointError, SensorError, SensorEvent, SensorStep,
    ServiceReply, TemperatureError, SERVICE_RUNNING,
};

const PIPE: &str = r"\\.\pipe\LoopPanelTemperature-0123456789abcdef0123456789abcdef";

#[test]
fn decodes_package_temperature() {
    let status = (1_u64 << 31) | (42_u64 << 16);
    assert_eq!(package_temperature(105_000, status).unwrap(), 63_000);
}

#[test]
fn rejects_invalid_package_temperature() {
    assert!(package_temperature(105_000, 42_u64 << 16).is_err());
}

#[test]
fn service_protocol_has_one_fixed_temperature_response() {
    let encoded = encode_service_response(Ok(63_400));
    assert_eq!(encoded, [0, 63, 0]);
    assert_eq!(decode_service_response(&encoded).unwrap(), 63);
    assert!(decode_service_response(&[0, 63]).is_err());
    assert!(decode_service_response(&[1, 0, 0]).is_err());
}

#[test]
fn temperatures_are_rounded_and_held() {
    assert_eq!(encode_service_response(Ok(63_500)), [0, 64, 0]);
    assert_eq!(encode_service_response(Ok(-5_000)), [0, 0, 0]);
    assert_eq!(encode_service_response(Ok(300_000)), [0, 44, 1]);
    assert_eq!(encode_service_response(Ok(i64::MAX)), [0, 255, 255]);
    assert_eq!(encode_service_response(Err(TemperatureError::NoTarget)), [1, 0, 0]);
    assert_eq!(decode_service_response(&[0, 44, 1]), Ok(300));
    assert_eq!(decode_service_response(&[0, 63]), Err(TemperatureError::ResponseLength));
    assert_eq!(decode_service_response(&[1, 0, 0]), Err(TemperatureError::NoReading));
}

#[test]
fn registers_are_taken_apart() {
    assert_eq!(tj_max(100 << 16), Ok(100_000));
    assert_eq!(tj_max(0xff00_ffff), Err(TemperatureError::NoTarget));
    assert_eq!(msr_value(0, 1, 77), Ok(77));
    assert_eq!(msr_value(0, 2, 77), Err(TemperatureError::ResultCount(2)));
    assert_eq!(msr_value(-1, 1, 77), Err(TemperatureError::Driver(0xffff_ffff)));
    assert_eq!(check_hresult(i32::MIN), Err(0x8000_0000));
    assert_eq!(check_hresult(1), Ok(()));
    let sensor = CpuTemperature { tj_max: 100_000 };
    assert_eq!(sensor.sample(Ok((1 << 31) | (127 << 16))), Ok(-27_000));
    assert_eq!(sensor.sample(Ok(1 << 16)), Err(TemperatureError::InvalidReading));
    assert_eq!(
        sensor.sample(Err(TemperatureError::Driver(5))),
        Err(TemperatureError::Driver(5))
    );
}

#[test]
fn published_pipe_is_found() {
    let endpoint = endpoint_text(4711, PIPE);
    assert_eq!(endpoint, format!("4711|{PIPE}"));
    assert_eq!(parse_endpoint(&endpoint, 4711).unwrap(), PIPE);
    assert_eq!(parse_endpoint(&endpoint, 4712), Err(EndpointError::OtherInstance));
    assert_eq!(parse_endpoint("4711", 4711), Err(EndpointError::Malformed));
    assert_eq!(parse_endpoint("x|y", 4711), Err(EndpointError::InvalidProcess));
    assert_eq!(parse_endpoint("|y", 4711), Err(EndpointError::InvalidProcess));
    assert_eq!(parse_endpoint("4294967296|y", 4711), Err(EndpointError::InvalidProcess));
    assert_eq!(parse_endpoint(r"4711|\\.\pipe\other", 4711), Err(EndpointError::InvalidName));
    let plus = format!("+4711|{PIPE}|");
    assert_eq!(parse_endpoint(&plus, 4711).unwrap(), format!("{PIPE}|"));
}

#[test]
fn process_of_the_service_is_known_only_if_it_runs() {
    let status = |state: u32, process: u32| ServiceReply::Status { state, process };
    assert_eq!(running_service_pid(status(SERVICE_RUNNING, 9)), Ok(9));
    assert_eq!(
        running_service_pid(status(SERVICE_RUNNING, 0)),
        Err(ClientError::ServiceNotRunning)
    );
    assert_eq!(running_service_pid(status(1, 9)), Err(ClientError::ServiceNotRunning));
    assert_eq!(
        running_service_pid(ServiceReply::ManagerFailed(5)),
        Err(ClientError::ServiceManager(5))
    );
    assert_eq!(
        running_service_pid(ServiceReply::OpenFailed(1060)),
        Err(ClientError::ServiceMissing(1060))
    );
    assert_eq!(
        running_service_pid(ServiceReply::QueryFailed(6)),
        Err(ClientError::ServiceQuery(6))
    );
}

fn verified() -> ClientStep {
    let running = ServiceReply::Status { state: SERVICE_RUNNING, process: 9 };
    let step = service_sample().next(ClientEvent::Service(running));
    assert!(matches!(step, ClientStep::ReadEndpoint { process: 9 }));
    let step = step.next(ClientEvent::Endpoint(Some(format!("9|{PIPE}"))));
    let ClientStep::WaitPipe { process: 9, pipe } = &step else {
        panic!("the pipe is waited for");
    };
    assert_eq!(pipe, &PIPE.encode_utf16().chain([0]).collect::<Vec<_>>());
    step.next(ClientEvent::Succeeded).next(ClientEvent::Succeeded)
}

fn asked() -> ClientStep {
    verified()
        .next(ClientEvent::Server(9))
        .next(ClientEvent::Succeeded)
        .next(ClientEvent::Succeeded)
}

#[test]
fn client_gets_the_temperature() {
    assert!(matches!(asked(), ClientStep::SendRequest));
    let step = asked().next(ClientEvent::Succeeded);
    assert!(matches!(step, ClientStep::FetchResponse));
    let step = step.next(ClientEvent::Response(vec![0, 63, 0]));
    assert!(matches!(step, ClientStep::Finished(63)));
    let waiting = asked().next(ClientEvent::Failed(997));
    assert!(matches!(waiting, ClientStep::WaitResponse));
    let step = waiting.next(ClientEvent::Waited { result: 0, error: 0 });
    assert!(matches!(step, ClientStep::FetchResponse));
}

#[test]
fn client_refuses_another_server() {
    assert!(matches!(
        verified().next(ClientEvent::Server(10)),
        ClientStep::Failed(ClientError::WrongServer)
    ));
    assert!(matches!(
        verified().next(ClientEvent::Failed(5)),
        ClientStep::Failed(ClientError::ServerUnknown(5))
    ));
}

#[test]
fn client_gives_up_a_request_that_takes_too_long() {
    let waiting = || asked().next(ClientEvent::Failed(997));
    let step = waiting().next(ClientEvent::Waited { result: 258, error: 0 });
    assert!(matches!(step, ClientStep::Cancel(ClientError::Timeout)));
    assert!(matches!(
        step.next(ClientEvent::Succeeded),
        ClientStep::Failed(ClientError::Timeout)
    ));
    let step = waiting().next(ClientEvent::Waited { result: 0xffff_ffff, error: 6 });
    assert!(matches!(step, ClientStep::Cancel(ClientError::Wait(6))));
}

#[test]
fn client_reports_every_failure() {
    let failed = |step: ClientStep, code: u32| match step.next(ClientEvent::Failed(code)) {
        ClientStep::Failed(error) => error,
        other => panic!("{other:?}"),
    };
    let read = ClientStep::ReadEndpoint { process: 9 };
    assert!(matches!(
        read.next(ClientEvent::Endpoint(None)),
        ClientStep::Failed(ClientError::EndpointUnavailable)
    ));
    let read = ClientStep::ReadEndpoint { process: 9 };
    assert!(matches!(
        read.next(ClientEvent::Endpoint(Some("8|x".to_owned()))),
        ClientStep::Failed(ClientError::Endpoint(EndpointError::OtherInstance))
    ));
    let wait = ClientStep::WaitPipe { process: 9, pipe: vec![] };
    assert_eq!(failed(wait, 121), ClientError::PipeUnavailable(121));
    let open = ClientStep::OpenPipe { process: 9, pipe: vec![] };
    assert_eq!(failed(open, 231), ClientError::PipeOpen(231));
    assert_eq!(failed(ClientStep::SetMessageMode, 1), ClientError::PipeMode(1));
    assert_eq!(failed(ClientStep::CreateEvent, 2), ClientError::Event(2));
    assert_eq!(failed(ClientStep::SendRequest, 3), ClientError::Request(3));
    assert_eq!(failed(ClientStep::FetchResponse, 4), ClientError::Transfer(4));
    assert_eq!(failed(ClientStep::QueryService, 4), ClientError::OutOfOrder);
    assert!(matches!(
        ClientStep::FetchResponse.next(ClientEvent::Response(vec![1, 0, 0])),
        ClientStep::Failed(ClientError::Response(TemperatureError::NoReading))
    ));
}

#[test]
fn thermometer_is_opened_step_by_step() {
    let mut step = CpuTemperature::open();
    assert_eq!(step, SensorStep::FindDirectory);
    step = step.next(SensorEvent::Directory { empty: false });
    assert_eq!(step, SensorStep::LoadLibrary);
    step = step.next(SensorEvent::Succeeded);
    for number in 0..4 {
        assert_eq!(step, SensorStep::FindFunction(number));
        step = step.next(SensorEvent::Succeeded);
    }
    assert_eq!(step, SensorStep::Open);
    step = step.next(SensorEvent::Opened { result: 0, null: false });
    assert_eq!(step, SensorStep::LoadModule);
    step = step.next(SensorEvent::Result(0));
    assert_eq!(step, SensorStep::ReadTarget);
    step = step.next(SensorEvent::Register(105 << 16));
    assert_eq!(step, SensorStep::Ready(CpuTemperature { tj_max: 105_000 }));
}

#[test]
fn driver_is_closed_if_the_thermometer_cannot_be_opened() {
    let module = SensorStep::LoadModule.next(SensorEvent::Result(-1));
    assert_eq!(module, SensorStep::Close(SensorError::Module(0xffff_ffff)));
    assert_eq!(
        module.next(SensorEvent::Succeeded),
        SensorStep::Failed(SensorError::Module(0xffff_ffff))
    );
    assert_eq!(
        SensorStep::ReadTarget.next(SensorEvent::Register(0)),
        SensorStep::Close(SensorError::Target(TemperatureError::NoTarget))
    );
    let failure = TemperatureError::ResultCount(0);
    assert_eq!(
        SensorStep::ReadTarget.next(SensorEvent::RegisterFailed(failure)),
        SensorStep::Close(SensorError::Target(failure))
    );
    assert_eq!(
        SensorStep::Open.next(SensorEvent::Opened { result: -2, null: true }),
        SensorStep::Failed(SensorError::Open(0xffff_fffe))
    );
    assert_eq!(
        SensorStep::Open.next(SensorEvent::Opened { result: 0, null: true }),
        SensorStep::Failed(SensorError::NullHandle)
    );
    assert_eq!(
        SensorStep::FindDirectory.next(SensorEvent::Failed),
        SensorStep::Failed(SensorError::NotInstalled)
    );
    assert_eq!(
        SensorStep::FindDirectory.next(SensorEvent::Directory { empty: true }),
        SensorStep::Failed(SensorError::NoDirectory)
    );
    assert_eq!(
        SensorStep::LoadLibrary.next(SensorEvent::Failed),
        SensorStep::Failed(SensorError::Library)
    );
    assert_eq!(
        SensorStep::FindFunction(2).next(SensorEvent::Failed),
        SensorStep::Failed(SensorError::MissingFunction(2))
    );
}
