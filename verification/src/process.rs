//! The program that otherwise drives the display, and the lock that keeps two instances apart.

use vstd::prelude::*;

use crate::text::{
    encode_utf16, eq_ignoring_case, is_same_letter, lemma_same_letters, lemma_text_before_nul,
    nul_position, same_ignoring_case, until_nul, utf16,
};

verus! {

/// The name of the lock.  It is older than this program, so that no earlier build can write to the
/// same display.
pub const DISPLAY_LOCK: &'static str = "Global\\TM360-Lite-Display";

/// The file name of the program that comes with the display.
pub const OFFICIAL_APP: &'static str = "JONSBO-AIO.exe";

/// The error that ends a list of processes.
pub const NO_MORE_FILES: u32 = 18;

/// The error that a mutex of this name exists.
pub const ALREADY_EXISTS: u32 = 183;

/// Why it is not known whether a program runs, or why the display must not be used.
#[derive(Clone, Copy, Debug, PartialEq, Eq, Structural)]
pub enum ProcessError {
    /// The list of processes could not be opened.
    Snapshot(u32),
    /// The first process could not be read.
    First(u32),
    /// A further process could not be read.
    Next(u32),
    /// The program that comes with the display runs.
    OfficialAppRunning,
    /// The lock could not be created.
    Lock(u32),
    /// Another instance holds the lock.
    AlreadyRunning,
}

/// The running processes: the buffer with the file name of each, as far as they could be read, and
/// the error that ended the list.
#[derive(Debug)]
pub enum ProcessList {
    /// The list could not be opened.
    Unavailable(u32),
    /// The list was read until an error came.
    Read { names: Vec<Vec<u16>>, end: u32 },
}

/// A process with this file name is among the first `count` names, whatever the case.
pub open spec fn names_program(names: Seq<Vec<u16>>, count: int, program: Seq<char>) -> bool {
    exists|i: int|
        0 <= i < count && same_ignoring_case(until_nul((#[trigger] names[i])@), utf16(program))
}

/// Whether a program runs: a process that was found counts even if the list broke off later, but
/// only a list that was read to its end shows that the program does not run.
pub open spec fn running_spec(list: ProcessList, program: Seq<char>) -> Result<bool, ProcessError> {
    match list {
        ProcessList::Unavailable(code) => Err(ProcessError::Snapshot(code)),
        ProcessList::Read { names, end } => if names_program(
            names@,
            names@.len() as int,
            program,
        ) {
            Ok(true)
        } else if end == NO_MORE_FILES {
            Ok(false)
        } else if names@.len() == 0 {
            Err(ProcessError::First(end))
        } else {
            Err(ProcessError::Next(end))
        },
    }
}

/// Whether a program is in the list of processes.
pub fn process_running(list: &ProcessList, expected: &str) -> (running: Result<bool, ProcessError>)
    ensures
        running == running_spec(*list, expected@),
{
    match list {
        ProcessList::Unavailable(code) => Err(ProcessError::Snapshot(*code)),
        ProcessList::Read { names, end } => {
            let program = encode_utf16(expected);
            let mut i: usize = 0;
            while i < names.len()
                invariant
                    i <= names@.len(),
                    program@ == utf16(expected@),
                    *list == (ProcessList::Read { names: *names, end: *end }),
                    !names_program(names@, i as int, expected@),
                decreases names@.len() - i,
            {
                let length: usize = nul_position(&names[i]);
                if eq_ignoring_case(
                    vstd::slice::slice_subrange(names[i].as_slice(), 0, length),
                    &program,
                ) {
                    proof {
                        assert(same_ignoring_case(until_nul(names@[i as int]@), utf16(expected@)));
                    }
                    return Ok(true);
                }
                i = i + 1;
            }
            if *end == NO_MORE_FILES {
                Ok(false)
            } else if names.len() == 0 {
                Err(ProcessError::First(*end))
            } else {
                Err(ProcessError::Next(*end))
            }
        },
    }
}

/// Whether the program that comes with the display runs.
pub fn official_app_running(list: &ProcessList) -> (running: Result<bool, ProcessError>)
    ensures
        running == running_spec(*list, OFFICIAL_APP@),
{
    process_running(list, OFFICIAL_APP)
}

/// Succeeds only if it is certain that the program that comes with the display does not run.
pub fn ensure_official_app_stopped(list: &ProcessList) -> (stopped: Result<(), ProcessError>)
    ensures
        stopped == match running_spec(*list, OFFICIAL_APP@) {
            Err(error) => Err(error),
            Ok(true) => Err(ProcessError::OfficialAppRunning),
            Ok(false) => Ok(()),
        },
{
    match official_app_running(list) {
        Err(error) => Err(error),
        Ok(true) => Err(ProcessError::OfficialAppRunning),
        Ok(false) => Ok(()),
    }
}

/// The lock that keeps a second instance from driving the display.
#[derive(Clone, Copy, Debug, PartialEq, Eq, Structural)]
pub struct DisplayLock;

impl DisplayLock {
    /// What comes of creating the lock: it is held only if it was created and did not exist before.
    /// `error` is the last error of the system, which it sets also on success.
    pub fn acquire(created: bool, error: u32) -> (outcome: Result<DisplayLock, ProcessError>)
        ensures
            outcome == if !created {
                Err(ProcessError::Lock(error))
            } else if error == ALREADY_EXISTS {
                Err(ProcessError::AlreadyRunning)
            } else {
                Ok(DisplayLock)
            },
    {
        if !created {
            return Err(ProcessError::Lock(error));
        }
        if error == ALREADY_EXISTS {
            return Err(ProcessError::AlreadyRunning);
        }
        Ok(DisplayLock)
    }
}

/// A program runs if one of the processes has its name, up to the first NUL and whatever its case; it does
/// not run if none has and the list came to its end.  A list that broke off tells its error.
pub proof fn lemma_processes_are_looked_through(
    list: &ProcessList,
    names: Seq<Seq<u16>>,
    expected: &str,
    running: Result<bool, ProcessError>,
    index: int,
)
    requires
        call_ensures(process_running, (list, expected), running),
        list matches ProcessList::Read { names: read, end } ==> names.len() == read@.len() && forall|
            i: int,
        |
            0 <= i < names.len() ==> {
                &&& (#[trigger] names[i]).is_prefix_of(read@[i]@)
                &&& names[i].len() < read@[i]@.len() ==> read@[i]@[names[i].len() as int] == 0
                &&& forall|j: int| 0 <= j < names[i].len() ==> #[trigger] names[i][j] != 0
            },
    ensures
        list matches ProcessList::Unavailable(code) ==> running == Err::<bool, ProcessError>(
            ProcessError::Snapshot(*code),
        ),
        list is Read && 0 <= index < names.len() && names[index].len() == utf16(expected@).len() && (
        forall|j: int|
            0 <= j < names[index].len() ==> is_same_letter(
                #[trigger] names[index][j] as int,
                utf16(expected@)[j] as int,
            )) ==> running == Ok::<bool, ProcessError>(true),
        list matches ProcessList::Read { names: _, end } ==> ((forall|i: int|
            0 <= i < names.len() ==> (#[trigger] names[i]).len() != utf16(expected@).len() || exists|
                j: int,
            |
                0 <= j < names[i].len() && !is_same_letter(
                    #[trigger] names[i][j] as int,
                    utf16(expected@)[j] as int,
                )) ==> {
            &&& *end == 18 ==> running == Ok::<bool, ProcessError>(false)
            &&& *end != 18 && names.len() == 0 ==> running == Err::<bool, ProcessError>(
                ProcessError::First(*end),
            )
            &&& *end != 18 && names.len() > 0 ==> running == Err::<bool, ProcessError>(
                ProcessError::Next(*end),
            )
        }),
{
    if let ProcessList::Read { names: read, end } = list {
        let program = utf16(expected@);
        assert forall|i: int| 0 <= i < names.len() implies until_nul((#[trigger] read@[i])@)
            == names[i] by {
            assert(names[i].is_prefix_of(read@[i]@));
            lemma_text_before_nul(read@[i]@, names[i]);
        }
        if 0 <= index < names.len() {
            lemma_same_letters(names[index], program);
            assert(until_nul(read@[index]@) == names[index]);
        }
        if names_program(read@, read@.len() as int, expected@) {
            let i = choose|i: int|
                0 <= i < read@.len() && same_ignoring_case(until_nul((#[trigger] read@[i])@), program);
            assert(until_nul(read@[i]@) == names[i]);
            lemma_same_letters(names[i], program);
        }
    }
}

/// The program that comes with the display is JONSBO-AIO.exe; it must be known not to run.
pub proof fn lemma_program_of_the_display(
    list: &ProcessList,
    name: &str,
    running: Result<bool, ProcessError>,
    official: Result<bool, ProcessError>,
    stopped: Result<(), ProcessError>,
)
    requires
        name@ == "JONSBO-AIO.exe"@,
        call_ensures(process_running, (list, name), running),
        call_ensures(official_app_running, (list,), official),
        call_ensures(ensure_official_app_stopped, (list,), stopped),
    ensures
        official == running,
        running == Ok::<bool, ProcessError>(true) ==> stopped == Err::<(), ProcessError>(
            ProcessError::OfficialAppRunning,
        ),
        running == Ok::<bool, ProcessError>(false) ==> stopped is Ok,
        running matches Err(error) ==> stopped == Err::<(), ProcessError>(error),
{
}

/// The lock is held only if it was created, and did not exist before.
pub proof fn lemma_lock_is_held_once(
    created: bool,
    error: u32,
    outcome: Result<DisplayLock, ProcessError>,
)
    requires
        call_ensures(DisplayLock::acquire, (created, error), outcome),
    ensures
        outcome is Ok <==> created && error != 183,
        created && error == 183 ==> outcome is Err && outcome->Err_0 is AlreadyRunning,
        !created ==> outcome == Err::<DisplayLock, ProcessError>(ProcessError::Lock(error)),
{
}

} // verus!
