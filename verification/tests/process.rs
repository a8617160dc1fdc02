use looppanel::process::{
    ensure_official_app_stopped, official_app_running, process_running, DisplayLock, ProcessError,
    ProcessList, ALREADY_EXISTS, NO_MORE_FILES,
};

fn list(names: &[&str], end: u32) -> ProcessList {
    let names = names
        .iter()
        .map(|name| {
            let mut units: Vec<u16> = name.encode_utf16().collect();
            units.resize(260, 0);
            units
        })
        .collect();
    ProcessList::Read { names, end }
}

#[test]
fn official_program_is_found_whatever_its_case() {
    let running = list(&["explorer.exe", "jonsbo-aio.EXE"], NO_MORE_FILES);
    assert_eq!(official_app_running(&running), Ok(true));
    assert_eq!(
        ensure_official_app_stopped(&running),
        Err(ProcessError::OfficialAppRunning)
    );
    let other = list(&["explorer.exe", "JONSBO-AIO.exe.bak"], NO_MORE_FILES);
    assert_eq!(official_app_running(&other), Ok(false));
    assert_eq!(ensure_official_app_stopped(&other), Ok(()));
    assert_eq!(process_running(&other, "EXPLORER.EXE"), Ok(true));
}

#[test]
fn list_that_cannot_be_read_is_an_error() {
    assert_eq!(
        official_app_running(&ProcessList::Unavailable(5)),
        Err(ProcessError::Snapshot(5))
    );
    assert_eq!(official_app_running(&list(&[], NO_MORE_FILES)), Ok(false));
    assert_eq!(official_app_running(&list(&[], 5)), Err(ProcessError::First(5)));
    assert_eq!(official_app_running(&list(&["a"], 5)), Err(ProcessError::Next(5)));
    assert_eq!(official_app_running(&list(&["JONSBO-AIO.exe"], 5)), Ok(true));
}

#[test]
fn second_instance_is_rejected() {
    assert_eq!(DisplayLock::acquire(true, 0), Ok(DisplayLock));
    assert_eq!(
        DisplayLock::acquire(true, ALREADY_EXISTS),
        Err(ProcessError::AlreadyRunning)
    );
    assert_eq!(DisplayLock::acquire(false, 5), Err(ProcessError::Lock(5)));
}
