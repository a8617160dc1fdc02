//! The temperature of the CPU package, and how the program gets it from the service.
//!
//! Temperatures are thousandths of a degree Celsius.

use vstd::prelude::*;

use crate::text::{
    begins_with, chars_of, decimal, find_char, first_position, lemma_decimal_digits,
    lemma_first_position, lemma_parse_undoes_decimal, parse_u32, parsed_u32, push_decimal,
    string_from, unsigned_digits, utf16,
};
use crate::win::wide;

verus! {

/// The register with the highest temperature that is allowed.
pub const TEMPERATURE_TARGET: u64 = 0x1A2;

/// The register with the state of the thermometer.
pub const PACKAGE_THERM_STATUS: u64 = 0x1B1;

/// The key where the service publishes its pipe.
pub const ENDPOINT_KEY: &'static str = "SOFTWARE\\LoopPanel";

/// The value where the service publishes its pipe.
pub const ENDPOINT_VALUE: &'static str = "TemperatureEndpoint";

/// What the name of the pipe begins with.
pub const PIPE_NAME_PREFIX: &'static str = "\\\\.\\pipe\\LoopPanelTemperature-";

/// The only request that the service answers.
pub const REQUEST_TEMPERATURE: u8 = 1;

/// The first byte of an answer that holds a temperature.
pub const RESPONSE_OK: u8 = 0;

/// How long to wait for the pipe, in milliseconds.
pub const PIPE_CONNECT_TIMEOUT_MS: u32 = 100;

/// How long to wait for the answer, in milliseconds.
pub const PIPE_RESPONSE_TIMEOUT_MS: u32 = 250;

/// Why there is no temperature.
#[derive(Clone, Copy, Debug, PartialEq, Eq, Structural)]
pub enum TemperatureError {
    /// The processor does not tell the highest temperature that is allowed.
    NoTarget,
    /// The thermometer has no valid reading.
    InvalidReading,
    /// The driver reported this failure.
    Driver(u32),
    /// The driver gave this number of results in place of one.
    ResultCount(usize),
    /// The answer does not have three bytes.
    ResponseLength,
    /// The service has no reading.
    NoReading,
}

/// The highest temperature that is allowed, which stands in bits 16 to 23 of its register.
pub open spec fn target_degrees(target: u64) -> int {
    (target as int / 0x1_0000) % 0x100
}

/// The highest temperature that is allowed.
pub fn tj_max(target: u64) -> (tj_max: Result<i32, TemperatureError>)
    ensures
        match tj_max {
            Ok(value) => value == 1000 * target_degrees(target) && value > 0,
            Err(error) => error == TemperatureError::NoTarget && target_degrees(target) == 0,
        },
{
    proof {
        assert(((target >> 16) & 0xff) == (target / 0x1_0000) % 0x100) by (bit_vector);
    }
    let degrees: i32 = ((target >> 16) & 0xff) as i32;
    if degrees == 0 {
        return Err(TemperatureError::NoTarget);
    }
    Ok(degrees * 1000)
}

/// Bit 31 says that the thermometer has a valid reading.
pub open spec fn reading_is_valid(status: u64) -> bool {
    (status as int / 0x8000_0000) % 2 == 1
}

/// How far the package is below the highest temperature, in bits 16 to 22.
pub open spec fn degrees_below(status: u64) -> int {
    (status as int / 0x1_0000) % 0x80
}

/// The temperature of the package.
pub fn package_temperature(tj_max: i32, status: u64) -> (temperature: Result<i64, TemperatureError>)
    ensures
        match temperature {
            Ok(value) => reading_is_valid(status) && value == tj_max - 1000 * degrees_below(status),
            Err(error) => error == TemperatureError::InvalidReading && !reading_is_valid(status),
        },
{
    proof {
        assert((status & 0x8000_0000 != 0) == ((status / 0x8000_0000) % 2 == 1)) by (bit_vector);
        assert(((status >> 16) & 0x7f) == (status / 0x1_0000) % 0x80) by (bit_vector);
    }
    if status & 0x8000_0000 == 0 {
        return Err(TemperatureError::InvalidReading);
    }
    let distance: i64 = ((status >> 16) & 0x7f) as i64;
    Ok(tj_max as i64 - 1000 * distance)
}

/// The value that the driver read from a register: it has to succeed with exactly one result.
pub fn msr_value(result: i32, returned: usize, output: u64) -> (value: Result<u64, TemperatureError>)
    ensures
        value == if result < 0 {
            Err(TemperatureError::Driver((0x1_0000_0000 + result) as u32))
        } else if returned != 1 {
            Err(TemperatureError::ResultCount(returned))
        } else {
            Ok(output)
        },
{
    if let Err(code) = check_hresult(result) {
        return Err(TemperatureError::Driver(code));
    }
    if returned != 1 {
        return Err(TemperatureError::ResultCount(returned));
    }
    Ok(output)
}

/// Tells success from failure; a failure is given as the unsigned number with the same bits.
pub fn check_hresult(result: i32) -> (outcome: Result<(), u32>)
    ensures
        outcome == if result < 0 {
            Err((0x1_0000_0000 + result) as u32)
        } else {
            Ok(())
        },
{
    if result < 0 {
        return Err((0x1_0000_0000i64 + result as i64) as u32);
    }
    Ok(())
}

/// A temperature in whole degrees, rounded, and neither below zero nor above what two bytes hold.
pub open spec fn whole_degrees(temperature: int) -> int {
    if temperature < 0 {
        0
    } else if (temperature + 500) / 1000 > 0xffff {
        0xffff
    } else {
        (temperature + 500) / 1000
    }
}

/// The answer of the service: a zero and the temperature in two bytes, or a one and two zeros.
pub fn encode_service_response(temperature: Result<i64, TemperatureError>) -> (response: [u8; 3])
    ensures
        match temperature {
            Ok(value) => {
                &&& response@[0] == RESPONSE_OK
                &&& response@[1] + 256 * response@[2] == whole_degrees(value as int)
            },
            Err(_) => response@ == seq![1u8, 0u8, 0u8],
        },
{
    match temperature {
        Ok(value) => {
            let degrees: i64 = if value < 0 {
                0
            } else if value / 1000 >= 0xffff {
                0xffff
            } else {
                (value + 500) / 1000
            };
            [RESPONSE_OK, (degrees % 256) as u8, (degrees / 256) as u8]
        },
        Err(_) => {
            let response: [u8; 3] = [1, 0, 0];
            proof {
                assert(response@ =~= seq![1u8, 0u8, 0u8]);
            }
            response
        },
    }
}

/// What an answer of the service says.
pub open spec fn decoded_response(response: Seq<u8>) -> Result<u32, TemperatureError> {
    if response.len() != 3 {
        Err(TemperatureError::ResponseLength)
    } else if response[0] != RESPONSE_OK {
        Err(TemperatureError::NoReading)
    } else {
        Ok((response[1] + 256 * response[2]) as u32)
    }
}

/// Reads an answer of the service: the temperature in whole degrees.
pub fn decode_service_response(response: &[u8]) -> (temperature: Result<u32, TemperatureError>)
    ensures
        temperature == decoded_response(response@),
{
    if response.len() != 3 {
        return Err(TemperatureError::ResponseLength);
    }
    if response[0] != RESPONSE_OK {
        return Err(TemperatureError::NoReading);
    }
    Ok(response[1] as u32 + 256 * (response[2] as u32))
}

/// What the service answers is read as the rounded temperature, and as no reading if it has none.
pub proof fn lemma_response_is_read_back(response: Seq<u8>, temperature: Result<i64, TemperatureError>)
    requires
        match temperature {
            Ok(value) => {
                &&& response.len() == 3
                &&& response[0] == RESPONSE_OK
                &&& response[1] + 256 * response[2] == whole_degrees(value as int)
            },
            Err(_) => response == seq![1u8, 0u8, 0u8],
        },
    ensures
        match temperature {
            Ok(value) => decoded_response(response) == Ok::<u32, TemperatureError>(
                whole_degrees(value as int) as u32,
            ),
            Err(_) => decoded_response(response) == Err::<u32, TemperatureError>(
                TemperatureError::NoReading,
            ),
        },
{
}

/// What is wrong with what the service published.
#[derive(Clone, Copy, Debug, PartialEq, Eq, Structural)]
pub enum EndpointError {
    /// There is no bar between number and name.
    Malformed,
    /// The process number is not a number.
    InvalidProcess,
    /// The process number belongs to another instance of the service.
    OtherInstance,
    /// The name is not one that the service makes.
    InvalidName,
}

/// What the service publishes: its process number, a bar, and the name of its pipe.
pub open spec fn endpoint_of(process: u32, pipe: Seq<char>) -> Seq<char> {
    decimal(process as nat) + seq!['|'] + pipe
}

/// The name of the pipe in what the service with this process number published.
pub open spec fn endpoint_pipe(endpoint: Seq<char>, process: u32) -> Result<
    Seq<char>,
    EndpointError,
> {
    let bar = first_position(endpoint, '|');
    if bar == endpoint.len() {
        Err(EndpointError::Malformed)
    } else {
        match parsed_u32(endpoint.take(bar)) {
            None => Err(EndpointError::InvalidProcess),
            Some(registered) => if registered != process {
                Err(EndpointError::OtherInstance)
            } else if !PIPE_NAME_PREFIX@.is_prefix_of(endpoint.skip(bar + 1)) {
                Err(EndpointError::InvalidName)
            } else {
                Ok(endpoint.skip(bar + 1))
            },
        }
    }
}

/// What the service publishes.
pub fn endpoint_text(process: u32, pipe: &str) -> (endpoint: String)
    ensures
        endpoint@ == endpoint_of(process, pipe@),
{
    let mut endpoint = String::new();
    push_decimal(&mut endpoint, process as u64);
    endpoint.push('|');
    endpoint.append(pipe);
    proof {
        assert(endpoint@ =~= endpoint_of(process, pipe@));
    }
    endpoint
}

/// Finds the pipe in what the service with this process number published.
pub fn parse_endpoint(endpoint: &str, process: u32) -> (pipe: Result<String, EndpointError>)
    ensures
        match endpoint_pipe(endpoint@, process) {
            Ok(name) => pipe matches Ok(pipe) && pipe@ == name,
            Err(error) => pipe matches Err(found) && found == error,
        },
{
    let chars = chars_of(endpoint);
    let bar: usize = find_char(&chars, '|');
    if bar == chars.len() {
        return Err(EndpointError::Malformed);
    }
    let mut number: Vec<char> = Vec::new();
    let mut i: usize = 0;
    while i < bar
        invariant
            i <= bar <= chars@.len(),
            number@ == chars@.take(i as int),
        decreases bar - i,
    {
        number.push(chars[i]);
        i = i + 1;
        proof {
            assert(chars@.take(i as int) =~= chars@.take(i - 1).push(chars@[i - 1]));
        }
    }
    match parse_u32(&number) {
        None => Err(EndpointError::InvalidProcess),
        Some(registered) => {
            if registered != process {
                Err(EndpointError::OtherInstance)
            } else if !begins_with(&chars, bar + 1, PIPE_NAME_PREFIX) {
                Err(EndpointError::InvalidName)
            } else {
                Ok(string_from(&chars, bar + 1))
            }
        },
    }
}

/// A client that asks for the instance that published its pipe finds this pipe; one that asks for
/// another instance does not.
pub proof fn lemma_endpoint_is_read_back(process: u32, other: u32, pipe: Seq<char>)
    requires
        PIPE_NAME_PREFIX@.is_prefix_of(pipe),
    ensures
        endpoint_pipe(endpoint_of(process, pipe), process) == Ok::<Seq<char>, EndpointError>(pipe),
        other != process ==> endpoint_pipe(endpoint_of(process, pipe), other) == Err::<
            Seq<char>,
            EndpointError,
        >(EndpointError::OtherInstance),
{
    let number = decimal(process as nat);
    let endpoint = endpoint_of(process, pipe);
    lemma_decimal_digits(process as nat);
    assert forall|i: int| 0 <= i < number.len() implies #[trigger] endpoint[i] != '|' by {
        assert(endpoint[i] == number[i]);
    }
    lemma_first_position(endpoint, '|', number.len() as int);
    assert(endpoint.take(number.len() as int) =~= number);
    assert(endpoint.skip(number.len() as int + 1) =~= pipe);
    lemma_parse_undoes_decimal(process);
}

/// What the service manager told about the service; the numbers are errors of the system.
#[derive(Clone, Copy, Debug, PartialEq, Eq, Structural)]
pub enum ServiceReply {
    /// The service manager could not be opened.
    ManagerFailed(u32),
    /// The service could not be opened.
    OpenFailed(u32),
    /// The state of the service could not be asked for.
    QueryFailed(u32),
    /// The state of the service and its process number.
    Status { state: u32, process: u32 },
}

/// The state of a service that runs.
pub const SERVICE_RUNNING: u32 = 4;

/// The error that an operation goes on in the background.
pub const IO_PENDING: u32 = 997;

/// The result of a wait whose object was signalled.
pub const WAIT_SIGNALLED: u32 = 0;

/// The result of a wait that took too long.
pub const WAIT_TIMED_OUT: u32 = 258;

/// Why the client got no temperature; the numbers are errors of the system.
#[derive(Clone, Copy, Debug, PartialEq, Eq, Structural)]
pub enum ClientError {
    ServiceManager(u32),
    ServiceMissing(u32),
    ServiceQuery(u32),
    ServiceNotRunning,
    EndpointUnavailable,
    Endpoint(EndpointError),
    PipeUnavailable(u32),
    PipeOpen(u32),
    ServerUnknown(u32),
    WrongServer,
    PipeMode(u32),
    Event(u32),
    Request(u32),
    Timeout,
    Wait(u32),
    Transfer(u32),
    Response(TemperatureError),
    /// The reply does not belong to the step.
    OutOfOrder,
}

/// The process number of the service, if it runs.
pub open spec fn service_process(reply: ServiceReply) -> Result<u32, ClientError> {
    match reply {
        ServiceReply::ManagerFailed(code) => Err(ClientError::ServiceManager(code)),
        ServiceReply::OpenFailed(code) => Err(ClientError::ServiceMissing(code)),
        ServiceReply::QueryFailed(code) => Err(ClientError::ServiceQuery(code)),
        ServiceReply::Status { state, process } => if state == SERVICE_RUNNING && process != 0 {
            Ok(process)
        } else {
            Err(ClientError::ServiceNotRunning)
        },
    }
}

/// The process number of the service, if it runs.
pub fn running_service_pid(reply: ServiceReply) -> (process: Result<u32, ClientError>)
    ensures
        process == service_process(reply),
{
    match reply {
        ServiceReply::ManagerFailed(code) => Err(ClientError::ServiceManager(code)),
        ServiceReply::OpenFailed(code) => Err(ClientError::ServiceMissing(code)),
        ServiceReply::QueryFailed(code) => Err(ClientError::ServiceQuery(code)),
        ServiceReply::Status { state, process } => {
            if state == SERVICE_RUNNING && process != 0 {
                Ok(process)
            } else {
                Err(ClientError::ServiceNotRunning)
            }
        },
    }
}

/// What the client does next.
#[derive(Debug)]
pub enum ClientStep {
    /// Ask the service manager for the service.
    QueryService,
    /// Read what the service published.
    ReadEndpoint { process: u32 },
    /// Wait until the pipe is free; the name has a NUL at its end.
    WaitPipe { process: u32, pipe: Vec<u16> },
    /// Open the pipe.
    OpenPipe { process: u32, pipe: Vec<u16> },
    /// Ask which process serves the pipe.
    VerifyServer { process: u32 },
    /// Make the pipe hand over whole messages.
    SetMessageMode,
    /// Create the event that tells the end of the request.
    CreateEvent,
    /// Send the request.
    SendRequest,
    /// Wait for the end of the request.
    WaitResponse,
    /// Fetch the answer.
    FetchResponse,
    /// Give the request up, and then fail.
    Cancel(ClientError),
    /// The temperature in whole degrees.
    Finished(u32),
    /// There is no temperature.
    Failed(ClientError),
}

/// What came of a step.
#[derive(Debug)]
pub enum ClientEvent {
    /// What the service manager told.
    Service(ServiceReply),
    /// What the service published, if it could be read.
    Endpoint(Option<String>),
    /// The step succeeded.
    Succeeded,
    /// The step failed with this error of the system.
    Failed(u32),
    /// The process that serves the pipe.
    Server(u32),
    /// The wait ended with this result; the error is the last one of the system.
    Waited { result: u32, error: u32 },
    /// The bytes of the answer.
    Response(Vec<u8>),
}

/// `next` is the step after `step` once `event` has come of it.
pub open spec fn client_follows(step: ClientStep, event: ClientEvent, next: ClientStep) -> bool {
    match (step, event) {
        (ClientStep::QueryService, ClientEvent::Service(reply)) => match service_process(reply) {
            Ok(process) => next == ClientStep::ReadEndpoint { process },
            Err(error) => next == ClientStep::Failed(error),
        },
        (ClientStep::ReadEndpoint { .. }, ClientEvent::Endpoint(None)) => next
            == ClientStep::Failed(ClientError::EndpointUnavailable),
        (ClientStep::ReadEndpoint { process }, ClientEvent::Endpoint(Some(endpoint))) =>
            match endpoint_pipe(endpoint@, process) {
                Ok(name) => next matches ClientStep::WaitPipe { process: waiting, pipe } && waiting
                    == process && pipe@ == utf16(name).push(0),
                Err(error) => next == ClientStep::Failed(ClientError::Endpoint(error)),
            },
        (ClientStep::WaitPipe { process, pipe }, ClientEvent::Succeeded) => next
            == ClientStep::OpenPipe { process, pipe },
        (ClientStep::WaitPipe { .. }, ClientEvent::Failed(code)) => next == ClientStep::Failed(
            ClientError::PipeUnavailable(code),
        ),
        (ClientStep::OpenPipe { process, .. }, ClientEvent::Succeeded) => next
            == ClientStep::VerifyServer { process },
        (ClientStep::OpenPipe { .. }, ClientEvent::Failed(code)) => next == ClientStep::Failed(
            ClientError::PipeOpen(code),
        ),
        (ClientStep::VerifyServer { process }, ClientEvent::Server(server)) => next == if server
            == process {
            ClientStep::SetMessageMode
        } else {
            ClientStep::Failed(ClientError::WrongServer)
        },
        (ClientStep::VerifyServer { .. }, ClientEvent::Failed(code)) => next == ClientStep::Failed(
            ClientError::ServerUnknown(code),
        ),
        (ClientStep::SetMessageMode, ClientEvent::Succeeded) => next == ClientStep::CreateEvent,
        (ClientStep::SetMessageMode, ClientEvent::Failed(code)) => next == ClientStep::Failed(
            ClientError::PipeMode(code),
        ),
        (ClientStep::CreateEvent, ClientEvent::Succeeded) => next == ClientStep::SendRequest,
        (ClientStep::CreateEvent, ClientEvent::Failed(code)) => next == ClientStep::Failed(
            ClientError::Event(code),
        ),
        (ClientStep::SendRequest, ClientEvent::Succeeded) => next == ClientStep::FetchResponse,
        (ClientStep::SendRequest, ClientEvent::Failed(code)) => next == if code == IO_PENDING {
            ClientStep::WaitResponse
        } else {
            ClientStep::Failed(ClientError::Request(code))
        },
        (ClientStep::WaitResponse, ClientEvent::Waited { result, error }) => next == if result
            == WAIT_SIGNALLED {
            ClientStep::FetchResponse
        } else if result == WAIT_TIMED_OUT {
            ClientStep::Cancel(ClientError::Timeout)
        } else {
            ClientStep::Cancel(ClientError::Wait(error))
        },
        (ClientStep::FetchResponse, ClientEvent::Response(response)) => next
            == match decoded_response(response@) {
            Ok(degrees) => ClientStep::Finished(degrees),
            Err(error) => ClientStep::Failed(ClientError::Response(error)),
        },
        (ClientStep::FetchResponse, ClientEvent::Failed(code)) => next == ClientStep::Failed(
            ClientError::Transfer(code),
        ),
        (ClientStep::Cancel(error), _) => next == ClientStep::Failed(error),
        (ClientStep::Finished(degrees), _) => next == ClientStep::Finished(degrees),
        (ClientStep::Failed(error), _) => next == ClientStep::Failed(error),
        _ => next == ClientStep::Failed(ClientError::OutOfOrder),
    }
}

/// Begins to ask the service for the temperature.
pub fn service_sample() -> (step: ClientStep)
    ensures
        step == ClientStep::QueryService,
{
    ClientStep::QueryService
}

impl ClientStep {
    /// Goes on once `event` has come of this step.
    pub fn next(self, event: ClientEvent) -> (next: ClientStep)
        ensures
            client_follows(self, event, next),
    {
        match (self, event) {
            (ClientStep::QueryService, ClientEvent::Service(reply)) => {
                match running_service_pid(reply) {
                    Ok(process) => ClientStep::ReadEndpoint { process },
                    Err(error) => ClientStep::Failed(error),
                }
            },
            (ClientStep::ReadEndpoint { .. }, ClientEvent::Endpoint(None)) => {
                ClientStep::Failed(ClientError::EndpointUnavailable)
            },
            (ClientStep::ReadEndpoint { process }, ClientEvent::Endpoint(Some(endpoint))) => {
                match parse_endpoint(endpoint.as_str(), process) {
                    Ok(name) => ClientStep::WaitPipe { process, pipe: wide(name.as_str()) },
                    Err(error) => ClientStep::Failed(ClientError::Endpoint(error)),
                }
            },
            (ClientStep::WaitPipe { process, pipe }, ClientEvent::Succeeded) => {
                ClientStep::OpenPipe { process, pipe }
            },
            (ClientStep::WaitPipe { .. }, ClientEvent::Failed(code)) => {
                ClientStep::Failed(ClientError::PipeUnavailable(code))
            },
            (ClientStep::OpenPipe { process, .. }, ClientEvent::Succeeded) => {
                ClientStep::VerifyServer { process }
            },
            (ClientStep::OpenPipe { .. }, ClientEvent::Failed(code)) => {
                ClientStep::Failed(ClientError::PipeOpen(code))
            },
            (ClientStep::VerifyServer { process }, ClientEvent::Server(server)) => {
                if server == process {
                    ClientStep::SetMessageMode
                } else {
                    ClientStep::Failed(ClientError::WrongServer)
                }
            },
            (ClientStep::VerifyServer { .. }, ClientEvent::Failed(code)) => {
                ClientStep::Failed(ClientError::ServerUnknown(code))
            },
            (ClientStep::SetMessageMode, ClientEvent::Succeeded) => ClientStep::CreateEvent,
            (ClientStep::SetMessageMode, ClientEvent::Failed(code)) => {
                ClientStep::Failed(ClientError::PipeMode(code))
            },
            (ClientStep::CreateEvent, ClientEvent::Succeeded) => ClientStep::SendRequest,
            (ClientStep::CreateEvent, ClientEvent::Failed(code)) => {
                ClientStep::Failed(ClientError::Event(code))
            },
            (ClientStep::SendRequest, ClientEvent::Succeeded) => ClientStep::FetchResponse,
            (ClientStep::SendRequest, ClientEvent::Failed(code)) => {
                if code == IO_PENDING {
                    ClientStep::WaitResponse
                } else {
                    ClientStep::Failed(ClientError::Request(code))
                }
            },
            (ClientStep::WaitResponse, ClientEvent::Waited { result, error }) => {
                if result == WAIT_SIGNALLED {
                    ClientStep::FetchResponse
                } else if result == WAIT_TIMED_OUT {
                    ClientStep::Cancel(ClientError::Timeout)
                } else {
                    ClientStep::Cancel(ClientError::Wait(error))
                }
            },
            (ClientStep::FetchResponse, ClientEvent::Response(response)) => {
                match decode_service_response(&response) {
                    Ok(degrees) => ClientStep::Finished(degrees),
                    Err(error) => ClientStep::Failed(ClientError::Response(error)),
                }
            },
            (ClientStep::FetchResponse, ClientEvent::Failed(code)) => {
                ClientStep::Failed(ClientError::Transfer(code))
            },
            (ClientStep::Cancel(error), _) => ClientStep::Failed(error),
            (ClientStep::Finished(degrees), _) => ClientStep::Finished(degrees),
            (ClientStep::Failed(error), _) => ClientStep::Failed(error),
            _ => ClientStep::Failed(ClientError::OutOfOrder),
        }
    }
}

/// `steps` are the steps of a client to which `events` happened.
pub open spec fn is_client_run(steps: Seq<ClientStep>, events: Seq<ClientEvent>) -> bool {
    &&& steps.len() == events.len() + 1
    &&& steps[0] == ClientStep::QueryService
    &&& forall|i: int|
        0 <= i < events.len() ==> client_follows(steps[i], #[trigger] events[i], steps[i + 1])
}

/// The service manager told that the service runs as this process.
pub open spec fn service_runs_as(events: Seq<ClientEvent>, process: u32) -> bool {
    events.len() > 0 && (events[0] matches ClientEvent::Service(reply) && service_process(reply)
        == Ok::<u32, ClientError>(process))
}

/// The pipe turned out to be served by this process.
pub open spec fn pipe_served_by(events: Seq<ClientEvent>, process: u32) -> bool {
    exists|i: int| 0 <= i < events.len() && #[trigger] events[i] == ClientEvent::Server(process)
}

/// The steps that are taken only once the server is known to be the service.
pub open spec fn trusts_server(step: ClientStep) -> bool {
    match step {
        ClientStep::SetMessageMode => true,
        ClientStep::CreateEvent => true,
        ClientStep::SendRequest => true,
        ClientStep::WaitResponse => true,
        ClientStep::FetchResponse => true,
        ClientStep::Cancel(_) => true,
        ClientStep::Finished(_) => true,
        _ => false,
    }
}

/// The client sends a request, and takes a temperature, only over a pipe that is served by the very
/// process that the service manager named as the running service.
pub proof fn lemma_client_talks_only_to_the_service(
    steps: Seq<ClientStep>,
    events: Seq<ClientEvent>,
)
    requires
        is_client_run(steps, events),
        trusts_server(steps.last()),
    ensures
        exists|process: u32| #[trigger]
            service_runs_as(events, process) && pipe_served_by(events, process),
{
    lemma_client_run(steps, events);
}

spec fn client_knows(step: ClientStep, events: Seq<ClientEvent>) -> bool {
    match step {
        ClientStep::ReadEndpoint { process } => service_runs_as(events, process),
        ClientStep::WaitPipe { process, .. } => service_runs_as(events, process),
        ClientStep::OpenPipe { process, .. } => service_runs_as(events, process),
        ClientStep::VerifyServer { process } => service_runs_as(events, process),
        _ => trusts_server(step) ==> exists|process: u32| #[trigger]
            service_runs_as(events, process) && pipe_served_by(events, process),
    }
}

proof fn lemma_client_run(steps: Seq<ClientStep>, events: Seq<ClientEvent>)
    requires
        is_client_run(steps, events),
    ensures
        client_knows(steps.last(), events),
    decreases events.len(),
{
    if events.len() > 0 {
        let earlier_steps = steps.drop_last();
        let earlier_events = events.drop_last();
        assert(is_client_run(earlier_steps, earlier_events)) by {
            assert forall|i: int| 0 <= i < earlier_events.len() implies client_follows(
                earlier_steps[i],
                #[trigger] earlier_events[i],
                earlier_steps[i + 1],
            ) by {
                assert(earlier_events[i] == events[i]);
            }
        }
        lemma_client_run(earlier_steps, earlier_events);
        let last = events.len() - 1;
        let step = steps[last];
        let event = events[last];
        assert(client_follows(step, event, steps.last()));
        assert(earlier_steps.last() == step);
        assert forall|process: u32| service_runs_as(earlier_events, process) implies
            service_runs_as(events, process) by {
            assert(earlier_events[0] == events[0]);
        }
        assert forall|process: u32| pipe_served_by(earlier_events, process) implies
            pipe_served_by(events, process) by {
            let i = choose|i: int|
                0 <= i < earlier_events.len() && #[trigger] earlier_events[i]
                    == ClientEvent::Server(process);
            assert(events[i] == ClientEvent::Server(process));
        }
        if trusts_server(step) && trusts_server(steps.last()) {
            let process = choose|process: u32| #[trigger]
                service_runs_as(earlier_events, process) && pipe_served_by(
                    earlier_events,
                    process,
                );
            assert(service_runs_as(events, process) && pipe_served_by(events, process));
        } else if let ClientStep::VerifyServer { process } = step {
            if steps.last() == ClientStep::SetMessageMode {
                assert(events[last] == ClientEvent::Server(process));
                assert(pipe_served_by(events, process));
                assert(service_runs_as(events, process));
            }
        } else if step == ClientStep::QueryService {
            assert(events.len() == 1) by {
                if events.len() > 1 {
                    lemma_only_first_is_query(earlier_steps, earlier_events);
                }
            }
        }
    }
}

proof fn lemma_only_first_is_query(steps: Seq<ClientStep>, events: Seq<ClientEvent>)
    requires
        is_client_run(steps, events),
        events.len() > 0,
    ensures
        steps.last() != ClientStep::QueryService,
{
    let last = events.len() - 1;
    assert(client_follows(steps[last], events[last], steps[last + 1]));
}

/// Why the thermometer could not be opened; the numbers are failures of the driver.
#[derive(Clone, Copy, Debug, PartialEq, Eq, Structural)]
pub enum SensorError {
    /// The driver is not installed.
    NotInstalled,
    /// The driver does not tell where it is installed.
    NoDirectory,
    /// The library of the driver could not be loaded.
    Library,
    /// The library of the driver lacks the function with this number.
    MissingFunction(usize),
    /// The driver could not be opened.
    Open(u32),
    /// The driver gave no handle.
    NullHandle,
    /// The module that reads registers could not be loaded.
    Module(u32),
    /// The highest temperature that is allowed could not be read.
    Target(TemperatureError),
}

/// What is done next to open the thermometer.
#[derive(Clone, Copy, Debug, PartialEq, Eq, Structural)]
pub enum SensorStep {
    /// Find out where the driver is installed.
    FindDirectory,
    /// Load the library of the driver.
    LoadLibrary,
    /// Find the function with this number in the library.
    FindFunction(usize),
    /// Open the driver.
    Open,
    /// Load the module that reads registers.
    LoadModule,
    /// Read the register with the highest temperature that is allowed.
    ReadTarget,
    /// Close the driver, and then fail.
    Close(SensorError),
    /// The thermometer is open.
    Ready(CpuTemperature),
    /// The thermometer could not be opened.
    Failed(SensorError),
}

/// The number of functions of the library that are used.
pub const SENSOR_FUNCTIONS: usize = 4;

/// What came of a step of opening the thermometer.
#[derive(Clone, Copy, Debug, PartialEq, Eq, Structural)]
pub enum SensorEvent {
    /// The step succeeded.
    Succeeded,
    /// The step failed.
    Failed,
    /// The directory was found; `empty` if its name is empty.
    Directory { empty: bool },
    /// The driver answered with this result, and with no handle if `null`.
    Opened { result: i32, null: bool },
    /// The driver answered with this result.
    Result(i32),
    /// The driver read this from a register.
    Register(u64),
    /// The driver could not read the register.
    RegisterFailed(TemperatureError),
}

/// A failure of the driver as an unsigned number.
pub open spec fn failure_code(result: i32) -> u32 {
    (0x1_0000_0000 + result) as u32
}

/// The step after `step` once `event` has come of it.
pub open spec fn sensor_next(step: SensorStep, event: SensorEvent) -> SensorStep {
    match (step, event) {
        (SensorStep::FindDirectory, SensorEvent::Failed) => SensorStep::Failed(
            SensorError::NotInstalled,
        ),
        (SensorStep::FindDirectory, SensorEvent::Directory { empty }) => if empty {
            SensorStep::Failed(SensorError::NoDirectory)
        } else {
            SensorStep::LoadLibrary
        },
        (SensorStep::LoadLibrary, SensorEvent::Failed) => SensorStep::Failed(SensorError::Library),
        (SensorStep::LoadLibrary, SensorEvent::Succeeded) => SensorStep::FindFunction(0),
        (SensorStep::FindFunction(number), SensorEvent::Failed) => SensorStep::Failed(
            SensorError::MissingFunction(number),
        ),
        (SensorStep::FindFunction(number), SensorEvent::Succeeded) => if number + 1
            < SENSOR_FUNCTIONS {
            SensorStep::FindFunction((number + 1) as usize)
        } else {
            SensorStep::Open
        },
        (SensorStep::Open, SensorEvent::Opened { result, null }) => if result < 0 {
            SensorStep::Failed(SensorError::Open(failure_code(result)))
        } else if null {
            SensorStep::Failed(SensorError::NullHandle)
        } else {
            SensorStep::LoadModule
        },
        (SensorStep::LoadModule, SensorEvent::Result(result)) => if result < 0 {
            SensorStep::Close(SensorError::Module(failure_code(result)))
        } else {
            SensorStep::ReadTarget
        },
        (SensorStep::ReadTarget, SensorEvent::Register(target)) => if target_degrees(target) == 0 {
            SensorStep::Close(SensorError::Target(TemperatureError::NoTarget))
        } else {
            SensorStep::Ready(
                CpuTemperature { tj_max: (1000 * target_degrees(target)) as i32 },
            )
        },
        (SensorStep::ReadTarget, SensorEvent::RegisterFailed(error)) => SensorStep::Close(
            SensorError::Target(error),
        ),
        (SensorStep::Close(error), SensorEvent::Succeeded) => SensorStep::Failed(error),
        _ => step,
    }
}

/// The thermometer of the processor: the highest temperature that is allowed.
#[derive(Clone, Copy, Debug, PartialEq, Eq, Structural)]
pub struct CpuTemperature {
    pub tj_max: i32,
}

impl CpuTemperature {
    /// Begins to open the thermometer.
    pub fn open() -> (step: SensorStep)
        ensures
            step == SensorStep::FindDirectory,
    {
        SensorStep::FindDirectory
    }

    /// The temperature, from what was read of the register that tells it.
    pub fn sample(&self, register: Result<u64, TemperatureError>) -> (temperature: Result<
        i64,
        TemperatureError,
    >)
        ensures
            temperature == match register {
                Err(error) => Err(error),
                Ok(status) => if reading_is_valid(status) {
                    Ok((self.tj_max - 1000 * degrees_below(status)) as i64)
                } else {
                    Err(TemperatureError::InvalidReading)
                },
            },
    {
        match register {
            Err(error) => Err(error),
            Ok(status) => package_temperature(self.tj_max, status),
        }
    }
}

impl SensorStep {
    /// Goes on once `event` has come of this step; an event that does not belong to the step changes
    /// nothing.
    pub fn next(self, event: SensorEvent) -> (next: SensorStep)
        ensures
            next == sensor_next(self, event),
    {
        match (self, event) {
            (SensorStep::FindDirectory, SensorEvent::Failed) => {
                SensorStep::Failed(SensorError::NotInstalled)
            },
            (SensorStep::FindDirectory, SensorEvent::Directory { empty }) => {
                if empty {
                    SensorStep::Failed(SensorError::NoDirectory)
                } else {
                    SensorStep::LoadLibrary
                }
            },
            (SensorStep::LoadLibrary, SensorEvent::Failed) => {
                SensorStep::Failed(SensorError::Library)
            },
            (SensorStep::LoadLibrary, SensorEvent::Succeeded) => SensorStep::FindFunction(0),
            (SensorStep::FindFunction(number), SensorEvent::Failed) => {
                SensorStep::Failed(SensorError::MissingFunction(number))
            },
            (SensorStep::FindFunction(number), SensorEvent::Succeeded) => {
                if number < SENSOR_FUNCTIONS - 1 {
                    SensorStep::FindFunction(number + 1)
                } else {
                    SensorStep::Open
                }
            },
            (SensorStep::Open, SensorEvent::Opened { result, null }) => {
                match check_hresult(result) {
                    Err(code) => SensorStep::Failed(SensorError::Open(code)),
                    Ok(()) => if null {
                        SensorStep::Failed(SensorError::NullHandle)
                    } else {
                        SensorStep::LoadModule
                    },
                }
            },
            (SensorStep::LoadModule, SensorEvent::Result(result)) => match check_hresult(result) {
                Err(code) => SensorStep::Close(SensorError::Module(code)),
                Ok(()) => SensorStep::ReadTarget,
            },
            (SensorStep::ReadTarget, SensorEvent::Register(target)) => match tj_max(target) {
                Err(error) => SensorStep::Close(SensorError::Target(error)),
                Ok(tj_max) => SensorStep::Ready(CpuTemperature { tj_max }),
            },
            (SensorStep::ReadTarget, SensorEvent::RegisterFailed(error)) => {
                SensorStep::Close(SensorError::Target(error))
            },
            (SensorStep::Close(error), SensorEvent::Succeeded) => SensorStep::Failed(error),
            _ => self,
        }
    }
}

/// The driver is open at this step.
pub open spec fn driver_is_open(step: SensorStep) -> bool {
    match step {
        SensorStep::LoadModule => true,
        SensorStep::ReadTarget => true,
        SensorStep::Close(_) => true,
        SensorStep::Ready(_) => true,
        _ => false,
    }
}

/// A driver that has been opened stays open until it is closed, so that opening the thermometer never
/// fails with the driver left open; and a thermometer that is ready knows its highest temperature.
pub proof fn lemma_driver_is_never_left_open(step: SensorStep, event: SensorEvent)
    requires
        driver_is_open(step),
    ensures
        driver_is_open(sensor_next(step, event)) || step is Close,
        step !is Ready ==> (sensor_next(step, event) matches SensorStep::Ready(sensor) ==> sensor.tj_max
            > 0),
{
}

/// The highest temperature that is allowed stands in the third byte of its register, in whole degrees;
/// zero there tells none.
pub proof fn lemma_target_is_the_third_byte(
    target: u64,
    low: int,
    degrees: int,
    high: int,
    tj_max: Result<i32, TemperatureError>,
)
    requires
        target == low + 0x1_0000 * degrees + 0x100_0000 * high,
        0 <= low < 0x1_0000,
        0 <= degrees < 0x100,
        0 <= high,
        call_ensures(self::tj_max, (target,), tj_max),
    ensures
        degrees == 0 ==> tj_max is Err && tj_max->Err_0 is NoTarget,
        degrees > 0 ==> tj_max is Ok && tj_max->Ok_0 == 1000 * degrees,
{
    assert(target as int / 0x1_0000 == degrees + 0x100 * high);
}

/// A reading is valid if bit 31 is set, and tells in the seven bits from 16 on how many degrees are left
/// to the highest temperature.
pub proof fn lemma_reading_counts_down(
    tj_max: i32,
    status: u64,
    low: int,
    degrees: int,
    between: int,
    valid: int,
    high: int,
    temperature: Result<i64, TemperatureError>,
    sensor: &CpuTemperature,
    sample: Result<i64, TemperatureError>,
)
    requires
        status == low + 0x1_0000 * degrees + 0x80_0000 * between + 0x8000_0000 * valid + 0x1_0000_0000
            * high,
        0 <= low < 0x1_0000,
        0 <= degrees < 0x80,
        0 <= between < 0x100,
        0 <= valid < 2,
        0 <= high,
        call_ensures(package_temperature, (tj_max, status), temperature),
        sensor.tj_max == tj_max,
        call_ensures(CpuTemperature::sample, (sensor, Ok(status)), sample),
    ensures
        valid == 0 ==> temperature is Err && temperature->Err_0 is InvalidReading,
        valid == 1 ==> temperature is Ok && temperature->Ok_0 + 1000 * degrees == tj_max,
        sample == temperature,
{
    assert(status as int / 0x1_0000 == degrees + 0x80 * (between + 0x100 * valid + 0x200 * high));
    assert(status as int / 0x8000_0000 == valid + 2 * high);
}

/// A register that could not be read gives its error as it is.
pub proof fn lemma_unread_register(
    sensor: &CpuTemperature,
    error: TemperatureError,
    sample: Result<i64, TemperatureError>,
)
    requires
        call_ensures(CpuTemperature::sample, (sensor, Err(error)), sample),
    ensures
        sample == Err::<i64, TemperatureError>(error),
{
}

/// A negative result of the driver is a failure, whose number has the same bits; else exactly one value
/// must have come back.
pub proof fn lemma_driver_results(
    result: i32,
    returned: usize,
    output: u64,
    value: Result<u64, TemperatureError>,
    outcome: Result<(), u32>,
)
    requires
        call_ensures(msr_value, (result, returned, output), value),
        call_ensures(check_hresult, (result,), outcome),
    ensures
        result >= 0 ==> outcome is Ok,
        result < 0 ==> outcome is Err && outcome->Err_0 - 0x1_0000_0000 == result,
        result < 0 ==> value == Err::<u64, TemperatureError>(
            TemperatureError::Driver(outcome->Err_0),
        ),
        result >= 0 && returned == 1 ==> value == Ok::<u64, TemperatureError>(output),
        result >= 0 && returned != 1 ==> value == Err::<u64, TemperatureError>(
            TemperatureError::ResultCount(returned),
        ),
{
}

/// A temperature that the service sends is received in whole degrees, at most half a degree off, with
/// a half rounded up; below zero it is zero.  Without a temperature none is received.
pub proof fn lemma_temperature_is_sent(
    temperature: Result<i64, TemperatureError>,
    response: [u8; 3],
    sent: &[u8],
    received: Result<u32, TemperatureError>,
)
    requires
        call_ensures(encode_service_response, (temperature,), response),
        sent@ == response@,
        call_ensures(decode_service_response, (sent,), received),
    ensures
        temperature is Err ==> received is Err && received->Err_0 is NoReading,
        temperature matches Ok(value) ==> {
            &&& received is Ok
            &&& value < 0 ==> received->Ok_0 == 0
            &&& 0 <= value < 65_535_500 ==> 1000 * received->Ok_0 - 500 <= value < 1000
                * received->Ok_0 + 500
            &&& value >= 65_535_500 ==> received->Ok_0 == 65_535
        },
{
}

/// An answer has three bytes: zero, and the degrees with the low byte first.
pub proof fn lemma_answer_is_three_bytes(
    response: &[u8],
    temperature: Result<u32, TemperatureError>,
)
    requires
        call_ensures(decode_service_response, (response,), temperature),
    ensures
        response@.len() != 3 ==> temperature is Err && temperature->Err_0 is ResponseLength,
        response@.len() == 3 && response@[0] != 0 ==> temperature is Err
            && temperature->Err_0 is NoReading,
        response@.len() == 3 && response@[0] == 0 ==> temperature is Ok && temperature->Ok_0
            == response@[1] + 256 * response@[2],
{
}

/// What a service publishes is found by a client that asks for its process, if the name of the pipe
/// begins as those of the service do; a client that asks for another process finds another instance.
pub proof fn lemma_published_endpoint_is_found(
    process: u32,
    pipe: &str,
    endpoint: String,
    read: &str,
    wanted: u32,
    found: Result<String, EndpointError>,
)
    requires
        call_ensures(endpoint_text, (process, pipe), endpoint),
        read@ == endpoint@,
        call_ensures(parse_endpoint, (read, wanted), found),
    ensures
        wanted != process ==> found is Err && found->Err_0 is OtherInstance,
        wanted == process && "\\\\.\\pipe\\LoopPanelTemperature-"@.is_prefix_of(pipe@) ==> found is Ok
            && found->Ok_0@ == pipe@,
        wanted == process && !"\\\\.\\pipe\\LoopPanelTemperature-"@.is_prefix_of(pipe@)
            ==> found is Err && found->Err_0 is InvalidName,
{
    let number = decimal(process as nat);
    lemma_decimal_digits(process as nat);
    assert forall|i: int| 0 <= i < number.len() implies #[trigger] endpoint@[i] != '|' by {
        assert(endpoint@[i] == number[i]);
    }
    lemma_first_position(endpoint@, '|', number.len() as int);
    assert(endpoint@.take(number.len() as int) =~= number);
    assert(endpoint@.skip(number.len() as int + 1) =~= pipe@);
    lemma_parse_undoes_decimal(process);
}

/// What is published without a bar is malformed, and with no digits before the bar, or with something
/// else among them, has no process.
pub proof fn lemma_malformed_endpoints(
    endpoint: &str,
    process: u32,
    found: Result<String, EndpointError>,
    bar: int,
    i: int,
)
    requires
        call_ensures(parse_endpoint, (endpoint, process), found),
        0 <= bar <= endpoint@.len(),
        forall|j: int| 0 <= j < bar ==> #[trigger] endpoint@[j] != '|',
        bar < endpoint@.len() ==> endpoint@[bar] == '|',
    ensures
        bar == endpoint@.len() ==> found is Err && found->Err_0 is Malformed,
        bar == 0 < endpoint@.len() ==> found is Err && found->Err_0 is InvalidProcess,
        0 < i < bar < endpoint@.len() && !('0' <= endpoint@[i] <= '9') ==> found is Err
            && found->Err_0 is InvalidProcess,
        0 < bar < endpoint@.len() && !('0' <= endpoint@[0] <= '9') && endpoint@[0] != '+'
            ==> found is Err && found->Err_0 is InvalidProcess,
{
    if bar < endpoint@.len() {
        lemma_first_position(endpoint@, '|', bar);
        let number = endpoint@.take(bar);
        let digits = unsigned_digits(number);
        if bar > 0 {
            assert(number[0] == endpoint@[0]);
        }
        if 0 < i < bar && !('0' <= endpoint@[i] <= '9') {
            assert(number[i] == endpoint@[i]);
            if number[0] == '+' {
                assert(digits[i - 1] == number[i]);
            } else {
                assert(digits[i] == number[i]);
            }
        }
        if bar > 0 && !('0' <= endpoint@[0] <= '9') && endpoint@[0] != '+' {
            assert(digits[0] == number[0]);
        }
    } else {
        lemma_no_position(endpoint@, '|');
    }
}

proof fn lemma_no_position(text: Seq<char>, character: char)
    requires
        forall|i: int| 0 <= i < text.len() ==> #[trigger] text[i] != character,
    ensures
        first_position(text, character) == text.len(),
    decreases text.len(),
{
    if text.len() > 0 {
        assert(text[0] != character);
        assert forall|i: int| 0 <= i < text.skip(1).len() implies #[trigger] text.skip(1)[i]
            != character by {
            assert(text[i + 1] != character);
        }
        lemma_no_position(text.skip(1), character);
    }
}

/// A service that runs, and has a process, is asked for what it published; the client tells why it does
/// not get that far.
pub proof fn lemma_client_asks_a_running_service(
    reply: ServiceReply,
    process: Result<u32, ClientError>,
    first: ClientStep,
    next: ClientStep,
)
    requires
        call_ensures(running_service_pid, (reply,), process),
        call_ensures(service_sample, (), first),
        call_ensures(ClientStep::next, (first, ClientEvent::Service(reply)), next),
    ensures
        reply matches ServiceReply::ManagerFailed(code) ==> process == Err::<u32, ClientError>(
            ClientError::ServiceManager(code),
        ),
        reply matches ServiceReply::OpenFailed(code) ==> process == Err::<u32, ClientError>(
            ClientError::ServiceMissing(code),
        ),
        reply matches ServiceReply::QueryFailed(code) ==> process == Err::<u32, ClientError>(
            ClientError::ServiceQuery(code),
        ),
        reply matches ServiceReply::Status { state, process: found } ==> process == if state == 4
            && found > 0 {
            Ok::<u32, ClientError>(found)
        } else {
            Err(ClientError::ServiceNotRunning)
        },
        process matches Ok(found) ==> next == (ClientStep::ReadEndpoint { process: found }),
        process matches Err(error) ==> next == ClientStep::Failed(error),
{
}

/// The client waits for the pipe that it finds in what was published, by its name in two-byte units with
/// a NUL behind it, and remembers whom it must meet there.
pub proof fn lemma_client_waits_for_the_pipe(
    process: u32,
    endpoint: String,
    read: &str,
    found: Result<String, EndpointError>,
    next: ClientStep,
    nothing: ClientStep,
)
    requires
        read@ == endpoint@,
        call_ensures(parse_endpoint, (read, process), found),
        call_ensures(
            ClientStep::next,
            (ClientStep::ReadEndpoint { process }, ClientEvent::Endpoint(Some(endpoint))),
            next,
        ),
        call_ensures(
            ClientStep::next,
            (ClientStep::ReadEndpoint { process }, ClientEvent::Endpoint(None)),
            nothing,
        ),
    ensures
        found matches Ok(name) ==> {
            &&& next is WaitPipe
            &&& next->WaitPipe_process == process
            &&& next->WaitPipe_pipe@ == utf16(name@).push(0)
        },
        found matches Err(error) ==> next == ClientStep::Failed(ClientError::Endpoint(error)),
        nothing == ClientStep::Failed(ClientError::EndpointUnavailable),
{
}

/// Each step that succeeds is followed by the next one, from the pipe to the answer.
pub proof fn lemma_client_goes_on(
    process: u32,
    pipe: Vec<u16>,
    server: u32,
    opening: ClientStep,
    verifying: ClientStep,
    verified: ClientStep,
    creating: ClientStep,
    sending: ClientStep,
    fetching: ClientStep,
)
    requires
        call_ensures(
            ClientStep::next,
            (ClientStep::WaitPipe { process, pipe }, ClientEvent::Succeeded),
            opening,
        ),
        call_ensures(ClientStep::next, (opening, ClientEvent::Succeeded), verifying),
        call_ensures(ClientStep::next, (verifying, ClientEvent::Server(server)), verified),
        call_ensures(ClientStep::next, (ClientStep::SetMessageMode, ClientEvent::Succeeded), creating),
        call_ensures(ClientStep::next, (creating, ClientEvent::Succeeded), sending),
        call_ensures(ClientStep::next, (sending, ClientEvent::Succeeded), fetching),
    ensures
        opening == (ClientStep::OpenPipe { process, pipe }),
        verifying == (ClientStep::VerifyServer { process }),
        server == process ==> verified is SetMessageMode,
        server != process ==> verified == ClientStep::Failed(ClientError::WrongServer),
        creating is CreateEvent,
        sending is SendRequest,
        fetching is FetchResponse,
{
}

/// A step that fails ends the client with the error of this step; only a request that is still under
/// way is waited for.
pub proof fn lemma_client_tells_what_failed(step: ClientStep, code: u32, next: ClientStep)
    requires
        call_ensures(ClientStep::next, (step, ClientEvent::Failed(code)), next),
    ensures
        step is WaitPipe ==> next == ClientStep::Failed(ClientError::PipeUnavailable(code)),
        step is OpenPipe ==> next == ClientStep::Failed(ClientError::PipeOpen(code)),
        step is VerifyServer ==> next == ClientStep::Failed(ClientError::ServerUnknown(code)),
        step is SetMessageMode ==> next == ClientStep::Failed(ClientError::PipeMode(code)),
        step is CreateEvent ==> next == ClientStep::Failed(ClientError::Event(code)),
        step is SendRequest && code == 997 ==> next is WaitResponse,
        step is SendRequest && code != 997 ==> next == ClientStep::Failed(ClientError::Request(code)),
        step is FetchResponse ==> next == ClientStep::Failed(ClientError::Transfer(code)),
        step is QueryService || step is ReadEndpoint || step is WaitResponse ==> next
            == ClientStep::Failed(ClientError::OutOfOrder),
{
}

/// A wait that was signalled is followed by the answer; any other is given up before the client fails,
/// with a time-out or with the error of the wait.
pub proof fn lemma_client_gives_up_waiting(
    result: u32,
    error: u32,
    next: ClientStep,
    event: ClientEvent,
    last: ClientStep,
)
    requires
        call_ensures(
            ClientStep::next,
            (ClientStep::WaitResponse, ClientEvent::Waited { result, error }),
            next,
        ),
        call_ensures(ClientStep::next, (next, event), last),
    ensures
        result == 0 ==> next is FetchResponse,
        result == 258 ==> next == ClientStep::Cancel(ClientError::Timeout) && last
            == ClientStep::Failed(ClientError::Timeout),
        result != 0 && result != 258 ==> next == ClientStep::Cancel(ClientError::Wait(error)) && last
            == ClientStep::Failed(ClientError::Wait(error)),
{
}

/// The answer ends the client, with its degrees or with what is wrong with it, and nothing changes an
/// end.
pub proof fn lemma_client_ends_with_the_answer(
    response: Vec<u8>,
    bytes: &[u8],
    temperature: Result<u32, TemperatureError>,
    next: ClientStep,
    event: ClientEvent,
    last: ClientStep,
)
    requires
        bytes@ == response@,
        call_ensures(decode_service_response, (bytes,), temperature),
        call_ensures(
            ClientStep::next,
            (ClientStep::FetchResponse, ClientEvent::Response(response)),
            next,
        ),
        call_ensures(ClientStep::next, (next, event), last),
    ensures
        temperature matches Ok(degrees) ==> next == ClientStep::Finished(degrees),
        temperature matches Err(error) ==> next == ClientStep::Failed(ClientError::Response(error)),
        last == next,
{
}

/// What does not belong to a step ends the client.
pub proof fn lemma_client_refuses_what_does_not_belong(
    step: ClientStep,
    event: ClientEvent,
    next: ClientStep,
)
    requires
        call_ensures(ClientStep::next, (step, event), next),
        !(step is Cancel) && !(step is Finished) && !(step is Failed),
        event is Service && !(step is QueryService) || event is Endpoint && !(step is ReadEndpoint)
            || event is Server && !(step is VerifyServer) || event is Waited
            && !(step is WaitResponse) || event is Response && !(step is FetchResponse)
            || event is Succeeded && (step is QueryService || step is ReadEndpoint
            || step is VerifyServer || step is WaitResponse || step is FetchResponse),
    ensures
        next == ClientStep::Failed(ClientError::OutOfOrder),
{
}

/// The thermometer is opened step by step: its directory, its library, the four functions in turn, the
/// driver, its module, and the highest temperature.
pub proof fn lemma_sensor_goes_on(
    first: SensorStep,
    loading: SensorStep,
    function: SensorStep,
    number: usize,
    after: SensorStep,
    result: i32,
    opened: SensorStep,
    loaded: SensorStep,
    target: u64,
    highest: Result<i32, TemperatureError>,
    last: SensorStep,
)
    requires
        call_ensures(CpuTemperature::open, (), first),
        call_ensures(SensorStep::next, (first, SensorEvent::Directory { empty: false }), loading),
        call_ensures(SensorStep::next, (loading, SensorEvent::Succeeded), function),
        number < 4,
        call_ensures(
            SensorStep::next,
            (SensorStep::FindFunction(number), SensorEvent::Succeeded),
            after,
        ),
        result >= 0,
        call_ensures(
            SensorStep::next,
            (SensorStep::Open, SensorEvent::Opened { result, null: false }),
            opened,
        ),
        call_ensures(SensorStep::next, (opened, SensorEvent::Result(result)), loaded),
        call_ensures(tj_max, (target,), highest),
        call_ensures(SensorStep::next, (loaded, SensorEvent::Register(target)), last),
    ensures
        first is FindDirectory,
        loading is LoadLibrary,
        function == SensorStep::FindFunction(0),
        number < 3 ==> after == SensorStep::FindFunction((number + 1) as usize),
        number == 3 ==> after is Open,
        opened is LoadModule,
        loaded is ReadTarget,
        highest matches Ok(tj_max) ==> last == SensorStep::Ready(CpuTemperature { tj_max }),
        highest matches Err(error) ==> last == SensorStep::Close(SensorError::Target(error)),
{
}

/// A thermometer that cannot be opened tells why, and closes the driver first if it was opened.
pub proof fn lemma_sensor_tells_what_failed(
    number: usize,
    result: i32,
    null: bool,
    code: Result<(), u32>,
    error: TemperatureError,
    sensor_error: SensorError,
    missing: SensorStep,
    nameless: SensorStep,
    unloaded: SensorStep,
    incomplete: SensorStep,
    unopened: SensorStep,
    without_module: SensorStep,
    unread: SensorStep,
    closed: SensorStep,
)
    requires
        call_ensures(check_hresult, (result,), code),
        call_ensures(SensorStep::next, (SensorStep::FindDirectory, SensorEvent::Failed), missing),
        call_ensures(
            SensorStep::next,
            (SensorStep::FindDirectory, SensorEvent::Directory { empty: true }),
            nameless,
        ),
        call_ensures(SensorStep::next, (SensorStep::LoadLibrary, SensorEvent::Failed), unloaded),
        call_ensures(
            SensorStep::next,
            (SensorStep::FindFunction(number), SensorEvent::Failed),
            incomplete,
        ),
        call_ensures(
            SensorStep::next,
            (SensorStep::Open, SensorEvent::Opened { result, null }),
            unopened,
        ),
        call_ensures(
            SensorStep::next,
            (SensorStep::LoadModule, SensorEvent::Result(result)),
            without_module,
        ),
        call_ensures(
            SensorStep::next,
            (SensorStep::ReadTarget, SensorEvent::RegisterFailed(error)),
            unread,
        ),
        call_ensures(
            SensorStep::next,
            (SensorStep::Close(sensor_error), SensorEvent::Succeeded),
            closed,
        ),
    ensures
        missing == SensorStep::Failed(SensorError::NotInstalled),
        nameless == SensorStep::Failed(SensorError::NoDirectory),
        unloaded == SensorStep::Failed(SensorError::Library),
        incomplete == SensorStep::Failed(SensorError::MissingFunction(number)),
        code matches Err(code) ==> unopened == SensorStep::Failed(SensorError::Open(code)),
        code matches Err(code) ==> without_module == SensorStep::Close(SensorError::Module(code)),
        code is Ok && null ==> unopened == SensorStep::Failed(SensorError::NullHandle),
        unread == SensorStep::Close(SensorError::Target(error)),
        closed == SensorStep::Failed(sensor_error),
{
}

} // verus!
