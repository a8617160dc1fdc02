use looppanel::startup::{
    is_enabled, set_enabled, startup_command, RunValue, StartupError, StartupStep,
};

fn units(text: &str) -> Vec<u16> {
    text.encode_utf16().collect()
}

fn stored(kind: u32, text: &str) -> RunValue {
    let mut buffer = units(text);
    buffer.push(0);
    let bytes = buffer.len() as u32 * 2;
    buffer.resize(300, 0);
    RunValue { open: 0, query: 0, kind, bytes, buffer }
}

#[test]
fn quotes_executable_path() {
    let command = startup_command(&units(r"C:\Program Files\LoopPanel\LoopPanel.exe"));
    let text = String::from_utf16(&command[..command.len() - 1]).unwrap();
    assert_eq!(text, r#""C:\Program Files\LoopPanel\LoopPanel.exe""#);
}

#[test]
fn written_command_is_read_back() {
    let executable = units(r"C:\LoopPanel.exe");
    let written = stored(1, "\"C:\\LoopPanel.exe\"");
    assert_eq!(is_enabled(&executable, &written), Ok(true));
    assert_eq!(is_enabled(&units(r"C:\Other.exe"), &written), Ok(false));
    assert_eq!(is_enabled(&executable, &stored(2, "\"C:\\LoopPanel.exe\"")), Ok(false));
    assert_eq!(is_enabled(&executable, &stored(1, "C:\\LoopPanel.exe")), Ok(false));
    assert_eq!(is_enabled(&executable, &stored(1, "")), Ok(false));
}

#[test]
fn missing_key_or_value_means_not_enabled() {
    let executable = units("a");
    let with = |open: u32, query: u32| RunValue { open, query, kind: 0, bytes: 0, buffer: vec![] };
    assert_eq!(is_enabled(&executable, &with(2, 0)), Ok(false));
    assert_eq!(is_enabled(&executable, &with(0, 2)), Ok(false));
    assert_eq!(is_enabled(&executable, &with(5, 0)), Err(StartupError::Read(5)));
    assert_eq!(is_enabled(&executable, &with(0, 234)), Err(StartupError::Read(234)));
}

#[test]
fn enabling_writes_the_command() {
    let step = set_enabled(&units("x"), true);
    let StartupStep::CreateKey { command } = step else {
        panic!("the key is opened first");
    };
    assert_eq!(command, units("\"x\"\0"));
    let step = StartupStep::CreateKey { command }.next(0);
    assert!(matches!(&step, StartupStep::SetValue { command } if command == &units("\"x\"\0")));
    assert!(matches!(step.next(0), StartupStep::Done));
    let refused = StartupStep::SetValue { command: vec![] }.next(5);
    assert!(matches!(refused, StartupStep::Failed(StartupError::Enable(5))));
    let refused = StartupStep::CreateKey { command: vec![] }.next(5);
    assert!(matches!(refused, StartupStep::Failed(StartupError::Open(5))));
}

#[test]
fn disabling_removes_the_value() {
    let step = set_enabled(&units("x"), false);
    assert!(matches!(step, StartupStep::OpenKey));
    assert!(matches!(StartupStep::OpenKey.next(2), StartupStep::Done));
    assert!(matches!(
        StartupStep::OpenKey.next(5),
        StartupStep::Failed(StartupError::Open(5))
    ));
    let step = StartupStep::OpenKey.next(0);
    assert!(matches!(step, StartupStep::DeleteValue));
    assert!(matches!(StartupStep::DeleteValue.next(0), StartupStep::Done));
    assert!(matches!(StartupStep::DeleteValue.next(2), StartupStep::Done));
    assert!(matches!(
        StartupStep::DeleteValue.next(5),
        StartupStep::Failed(StartupError::Disable(5))
    ));
}

#[test]
fn long_commands_are_refused() {
    let longest = vec![97_u16; 257];
    assert!(matches!(set_enabled(&longest, true), StartupStep::CreateKey { .. }));
    let longer = vec![97_u16; 258];
    assert!(matches!(
        set_enabled(&longer, true),
        StartupStep::Failed(StartupError::CommandTooLong)
    ));
}
