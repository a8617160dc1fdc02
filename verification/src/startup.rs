//! Starting the program when the user logs in: a value under the Run key of the registry.

use vstd::prelude::*;

use crate::text::{lemma_text_before_nul, lemma_until_nul_of_terminated, nul_position, until_nul};

verus! {

/// The key that holds what is started at login.
pub const RUN_KEY: &'static str = "Software\\Microsoft\\Windows\\CurrentVersion\\Run";

/// The name of the value that starts this program.
pub const VALUE_NAME: &'static str = "LoopPanel";

/// The error that a key or value does not exist.
pub const FILE_NOT_FOUND: u32 = 2;

/// The type of a text in the registry.
pub const REG_SZ: u32 = 1;

/// The longest command that Windows starts, with its NUL.
pub const MAX_COMMAND: usize = 260;

/// Why the setting could not be read or changed; the number is the error of the system.
#[derive(Clone, Copy, Debug, PartialEq, Eq, Structural)]
pub enum StartupError {
    /// The setting could not be read.
    Read(u32),
    /// The key could not be opened.
    Open(u32),
    /// The value could not be written.
    Enable(u32),
    /// The value could not be removed.
    Disable(u32),
    /// The command is longer than Windows allows.
    CommandTooLong,
}

/// What was read from the registry: the result of opening the key, the result of reading the value,
/// and the type, size in bytes and content of the value.
#[derive(Debug)]
pub struct RunValue {
    pub open: u32,
    pub query: u32,
    pub kind: u32,
    pub bytes: u32,
    pub buffer: Vec<u16>,
}

/// The command that starts a program: its path in quotation marks, with a NUL at the end.
pub open spec fn command_of(executable: Seq<u16>) -> Seq<u16> {
    seq![34u16] + executable + seq![34u16, 0u16]
}

/// The command without its NUL.
pub open spec fn command_text(executable: Seq<u16>) -> Seq<u16> {
    seq![34u16] + executable + seq![34u16]
}

/// The text that a value of `bytes` bytes holds.
pub open spec fn value_text(buffer: Seq<u16>, bytes: u32) -> Seq<u16> {
    if bytes / 2 < buffer.len() {
        until_nul(buffer.take((bytes / 2) as int))
    } else {
        until_nul(buffer)
    }
}

/// The command that starts a program.
pub fn startup_command(executable: &[u16]) -> (command: Vec<u16>)
    ensures
        command@ == command_of(executable@),
{
    let mut command: Vec<u16> = Vec::new();
    command.push(34);
    command.extend_from_slice(executable);
    command.push(34);
    command.push(0);
    proof {
        assert(command@ =~= command_of(executable@));
    }
    command
}

/// Whether the program is started at login: there is a value of type text that holds exactly its
/// command.
pub open spec fn enabled_spec(executable: Seq<u16>, value: RunValue) -> Result<bool, StartupError> {
    if value.open == FILE_NOT_FOUND {
        Ok(false)
    } else if value.open != 0 {
        Err(StartupError::Read(value.open))
    } else if value.query == FILE_NOT_FOUND {
        Ok(false)
    } else if value.query != 0 {
        Err(StartupError::Read(value.query))
    } else {
        Ok(
            value.kind == REG_SZ && value_text(value.buffer@, value.bytes) == command_text(
                executable,
            ),
        )
    }
}

/// Whether the program is started at login.
pub fn is_enabled(executable: &[u16], value: &RunValue) -> (enabled: Result<bool, StartupError>)
    ensures
        enabled == enabled_spec(executable@, *value),
{
    if value.open == FILE_NOT_FOUND {
        return Ok(false);
    }
    if value.open != 0 {
        return Err(StartupError::Read(value.open));
    }
    if value.query == FILE_NOT_FOUND {
        return Ok(false);
    }
    if value.query != 0 {
        return Err(StartupError::Read(value.query));
    }
    if value.kind != REG_SZ {
        return Ok(false);
    }
    let expected = startup_command(executable);
    let stored: usize = (value.bytes / 2) as usize;
    let length: usize = if stored < value.buffer.len() {
        stored
    } else {
        value.buffer.len()
    };
    let content = vstd::slice::slice_subrange(value.buffer.as_slice(), 0, length);
    let end: usize = nul_position(content);
    let text = vstd::slice::slice_subrange(content, 0, end);
    let command = vstd::slice::slice_subrange(expected.as_slice(), 0, expected.len() - 1);
    proof {
        assert(command@ =~= command_text(executable@));
        assert(value.buffer@.subrange(0, length as int) =~= value.buffer@.take(length as int));
        assert(value.buffer@.take(value.buffer@.len() as int) =~= value.buffer@);
        assert(text@ =~= content@.take(end as int));
    }
    Ok(same_units(text, command))
}

fn same_units(left: &[u16], right: &[u16]) -> (same: bool)
    ensures
        same == (left@ == right@),
{
    if left.len() != right.len() {
        return false;
    }
    let mut i: usize = 0;
    while i < left.len()
        invariant
            i <= left@.len(),
            left@.len() == right@.len(),
            forall|j: int| 0 <= j < i ==> left@[j] == right@[j],
        decreases left@.len() - i,
    {
        if left[i] != right[i] {
            return false;
        }
        i = i + 1;
    }
    proof {
        assert(left@ =~= right@);
    }
    true
}

/// The next thing to do to the registry, or what came of it.
#[derive(Debug)]
pub enum StartupStep {
    /// Open the key to remove the value.
    OpenKey,
    /// Remove the value.
    DeleteValue,
    /// Open the key, or create it, to write this value.
    CreateKey { command: Vec<u16> },
    /// Write this value.
    SetValue { command: Vec<u16> },
    /// The setting has been changed.
    Done,
    /// The setting could not be changed.
    Failed(StartupError),
}

/// Begins to change the setting.
pub fn set_enabled(executable: &[u16], enabled: bool) -> (step: StartupStep)
    ensures
        match step {
            StartupStep::OpenKey => !enabled,
            StartupStep::CreateKey { command } => {
                &&& enabled
                &&& command@ == command_of(executable@)
                &&& command@.len() <= MAX_COMMAND
            },
            StartupStep::Failed(error) => {
                &&& enabled
                &&& error == StartupError::CommandTooLong
                &&& command_of(executable@).len() > MAX_COMMAND
            },
            _ => false,
        },
{
    if !enabled {
        return StartupStep::OpenKey;
    }
    let command = startup_command(executable);
    if command.len() > MAX_COMMAND {
        return StartupStep::Failed(StartupError::CommandTooLong);
    }
    StartupStep::CreateKey { command }
}

impl StartupStep {
    /// Goes on after the system has reported `result` for this step.
    pub fn next(self, result: u32) -> (step: StartupStep)
        ensures
            match self {
                StartupStep::OpenKey => step == if result == FILE_NOT_FOUND {
                    StartupStep::Done
                } else if result != 0 {
                    StartupStep::Failed(StartupError::Open(result))
                } else {
                    StartupStep::DeleteValue
                },
                StartupStep::DeleteValue => step == if result == FILE_NOT_FOUND || result == 0 {
                    StartupStep::Done
                } else {
                    StartupStep::Failed(StartupError::Disable(result))
                },
                StartupStep::CreateKey { command } => step == if result != 0 {
                    StartupStep::Failed(StartupError::Open(result))
                } else {
                    StartupStep::SetValue { command }
                },
                StartupStep::SetValue { .. } => step == if result != 0 {
                    StartupStep::Failed(StartupError::Enable(result))
                } else {
                    StartupStep::Done
                },
                _ => step == self,
            },
    {
        match self {
            StartupStep::OpenKey => if result == FILE_NOT_FOUND {
                StartupStep::Done
            } else if result != 0 {
                StartupStep::Failed(StartupError::Open(result))
            } else {
                StartupStep::DeleteValue
            },
            StartupStep::DeleteValue => if result == FILE_NOT_FOUND || result == 0 {
                StartupStep::Done
            } else {
                StartupStep::Failed(StartupError::Disable(result))
            },
            StartupStep::CreateKey { command } => if result != 0 {
                StartupStep::Failed(StartupError::Open(result))
            } else {
                StartupStep::SetValue { command }
            },
            StartupStep::SetValue { command } => if result != 0 {
                StartupStep::Failed(StartupError::Enable(result))
            } else {
                StartupStep::Done
            },
            other => other,
        }
    }
}

/// A value that was written to start a program is read back as starting exactly this program.
pub proof fn lemma_enabled_is_read_back(executable: Seq<u16>, other: Seq<u16>, value: RunValue)
    requires
        !executable.contains(0),
        !other.contains(0),
        value.open == 0,
        value.query == 0,
        value.kind == REG_SZ,
        value.bytes == 2 * command_of(executable).len(),
        command_of(executable).len() <= value.buffer@.len(),
        value.buffer@.take(command_of(executable).len() as int) == command_of(executable),
    ensures
        enabled_spec(executable, value) == Ok::<bool, StartupError>(true),
        enabled_spec(other, value) == Ok::<bool, StartupError>(other == executable),
{
    let command = command_of(executable);
    let text = command_text(executable);
    assert(command =~= text.push(0));
    assert forall|i: int| 0 <= i < text.len() implies #[trigger] text[i] != 0 by {
        if 0 < i < text.len() - 1 {
            assert(text[i] == executable[i - 1]);
            assert(executable.contains(executable[i - 1]));
        }
    }
    lemma_until_nul_of_terminated(text);
    assert(value.buffer@.take(value.buffer@.len() as int) =~= value.buffer@);
    assert(value_text(value.buffer@, value.bytes) == text);
    if command_text(other) == text {
        assert(other =~= command_text(other).subrange(1, 1 + other.len() as int));
        assert(executable =~= text.subrange(1, 1 + executable.len() as int));
    }
}

/// The command of a program is its path between quotation marks, with a NUL at the end.
pub proof fn lemma_command_is_quoted(executable: &[u16], command: Vec<u16>)
    requires
        call_ensures(startup_command, (executable,), command),
    ensures
        command@.len() == executable@.len() + 3,
        command@[0] == 34,
        command@.subrange(1, executable@.len() as int + 1) == executable@,
        command@[executable@.len() as int + 1] == 34,
        command@.last() == 0,
{
    assert(command@.subrange(1, executable@.len() as int + 1) =~= executable@);
}

/// The start at login is switched on exactly if the value is text, and holds, up to its first NUL and as
/// far as its bytes go, the path between quotation marks.  What is not there is switched off; any other
/// error is told.
pub proof fn lemma_start_is_read(
    executable: &[u16],
    value: &RunValue,
    text: Seq<u16>,
    enabled: Result<bool, StartupError>,
)
    requires
        call_ensures(is_enabled, (executable, value), enabled),
        text.is_prefix_of(value.buffer@),
        2 * text.len() <= value.bytes,
        forall|i: int| 0 <= i < text.len() ==> #[trigger] text[i] != 0,
        2 * text.len() + 1 < value.bytes && text.len() < value.buffer@.len()
            ==> value.buffer@[text.len() as int] == 0,
    ensures
        value.open == 2 || value.open == 0 && value.query == 2 ==> enabled == Ok::<bool, StartupError>(
            false,
        ),
        value.open != 0 && value.open != 2 ==> enabled == Err::<bool, StartupError>(
            StartupError::Read(value.open),
        ),
        value.open == 0 && value.query != 0 && value.query != 2 ==> enabled == Err::<bool, StartupError>(
            StartupError::Read(value.query),
        ),
        value.open == 0 && value.query == 0 ==> enabled is Ok && (enabled->Ok_0 <==> value.kind == 1
            && text == seq![34u16] + executable@ + seq![34u16]),
{
    let units = (value.bytes / 2) as int;
    if units < value.buffer@.len() {
        let held = value.buffer@.take(units);
        assert(text =~= held.subrange(0, text.len() as int));
        lemma_text_before_nul(held, text);
    } else {
        lemma_text_before_nul(value.buffer@, text);
    }
}

/// To switch the start on, the command is written, if its 260 units suffice; to switch it off, it is
/// removed.
pub proof fn lemma_start_is_switched(
    executable: &[u16],
    enabled: bool,
    command: Vec<u16>,
    step: StartupStep,
)
    requires
        call_ensures(startup_command, (executable,), command),
        call_ensures(set_enabled, (executable, enabled), step),
    ensures
        !enabled ==> step is OpenKey,
        enabled && executable@.len() <= 257 ==> step is CreateKey && step->CreateKey_command@
            == command@,
        enabled && executable@.len() > 257 ==> step is Failed && step->Failed_0 is CommandTooLong,
{
}

/// Each step that succeeds is followed by the next; what is to be removed need not be there; any other
/// error is told.
pub proof fn lemma_start_goes_on(step: StartupStep, result: u32, next: StartupStep)
    requires
        call_ensures(StartupStep::next, (step, result), next),
    ensures
        result == 0 ==> {
            &&& step is OpenKey ==> next is DeleteValue
            &&& step is DeleteValue ==> next is Done
            &&& step matches StartupStep::CreateKey { command } ==> next == (StartupStep::SetValue {
                command,
            })
            &&& step is SetValue ==> next is Done
        },
        result == 2 && (step is OpenKey || step is DeleteValue) ==> next is Done,
        result != 0 ==> {
            &&& step is OpenKey && result != 2 ==> next == StartupStep::Failed(
                StartupError::Open(result),
            )
            &&& step is DeleteValue && result != 2 ==> next == StartupStep::Failed(
                StartupError::Disable(result),
            )
            &&& step is CreateKey ==> next == StartupStep::Failed(StartupError::Open(result))
            &&& step is SetValue ==> next == StartupStep::Failed(StartupError::Enable(result))
        },
        step is Done || step is Failed ==> next == step,
{
}

} // verus!
