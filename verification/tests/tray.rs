use looppanel::tray::{
    execute_succeeded, install_temperature_service, menu_command, message_step, notification_point,
    open_path, run, run_elevated_and_wait, show_fatal_error, show_menu, temperature_text,
    window_proc, AppState, DisplayState, ElevationError, ElevationEvent, ElevationStep, ExitAction,
    LoopStep, MenuCommand, MenuTemperature, Point, RunStep, SupportError, SupportEvent, SupportStep,
    WindowAction, WorkerCompletion, ID_EXIT, ID_INSTALL_TEMPERATURE, ID_OPEN_CONFIG, ID_RETRY,
    ID_STARTUP, MF_CHECKED, MF_GRAYED, MF_SEPARATOR, MF_STRING, NIN_KEYSELECT, NIN_SELECT, WM_CLOSE,
    WM_CONTEXTMENU, WM_DESTROY, WM_DISPLAY_DONE, WM_DISPLAY_READY, WM_LBUTTONUP, WM_NCCREATE,
    WM_NCDESTROY, WM_RBUTTONUP, WM_TRAY,
};

#[test]
fn display_is_started_once() {
    let mut state = AppState::new();
    assert!(state.start_worker());
    assert!(!state.start_worker());
    assert!(state.display_ready());
    assert_eq!(state.status_text(), "LoopPanel：运行中");
    let completion = state.display_done(Err("设备断开".to_owned()));
    assert_eq!(completion, WorkerCompletion::UpdateIcon);
    assert_eq!(state.status_text(), "LoopPanel：连接失败（设备断开）");
    assert_eq!(state.display_done(Ok(())), WorkerCompletion::Ignore);
    assert!(state.start_worker());
    assert_eq!(state.status_text(), "LoopPanel：正在连接");
    assert_eq!(state.display_done(Ok(())), WorkerCompletion::UpdateIcon);
    assert_eq!(state.status_text(), "LoopPanel：连接失败（显示线程已经停止）");
}

#[test]
fn exit_waits_for_the_display() {
    let mut state = AppState::new();
    state.start_worker();
    assert_eq!(state.request_exit(), ExitAction { wake_worker: true, destroy: false });
    assert!(state.stop);
    assert_eq!(state.request_exit(), ExitAction { wake_worker: false, destroy: false });
    assert!(!state.display_ready());
    assert!(!state.start_worker());
    assert_eq!(state.status_text(), "LoopPanel：正在退出");
    assert_eq!(state.display_done(Ok(())), WorkerCompletion::DestroyWindow);
    let mut idle = AppState::new();
    assert_eq!(idle.request_exit(), ExitAction { wake_worker: false, destroy: true });
    assert!(!idle.cleanup());
    let mut busy = AppState::new();
    busy.start_worker();
    assert!(busy.cleanup());
    assert!(busy.stop && !busy.working);
}

#[test]
fn text_of_the_icon_has_its_size() {
    let mut state = AppState::new();
    let tip = state.icon_tip();
    assert_eq!(tip.len(), 128);
    let status: Vec<u16> = "LoopPanel：正在连接".encode_utf16().collect();
    assert_eq!(&tip[..status.len()], &status[..]);
    assert!(tip[status.len()..].iter().all(|unit| *unit == 0));
    state.display_state = DisplayState::Failed("错".repeat(300));
    let tip = state.icon_tip();
    assert_eq!(tip.len(), 128);
    assert_ne!(tip[126], 0);
    assert_eq!(tip[127], 0);
}

#[test]
fn menu_shows_what_can_be_done() {
    let state = AppState::new();
    let items = show_menu(&state, MenuTemperature::Degrees(63), true, true);
    let entries: Vec<(u32, u32, &str)> =
        items.iter().map(|item| (item.flags, item.id, item.text.as_str())).collect();
    assert_eq!(
        entries,
        [
            (MF_GRAYED, 0, "LoopPanel：正在连接"),
            (MF_GRAYED, 0, "CPU Package：63°C"),
            (MF_SEPARATOR, 0, ""),
            (MF_STRING, ID_OPEN_CONFIG, "打开配置文件"),
            (MF_CHECKED, ID_STARTUP, "登录时自动启动"),
            (MF_SEPARATOR, 0, ""),
            (MF_STRING, ID_EXIT, "退出"),
        ]
    );
    let mut failed = AppState::new();
    failed.display_state = DisplayState::Failed("x".to_owned());
    let items = show_menu(&failed, MenuTemperature::Unavailable, false, false);
    let ids: Vec<u32> = items.iter().map(|item| item.id).collect();
    assert_eq!(
        ids,
        [0, 0, 0, ID_RETRY, ID_OPEN_CONFIG, ID_INSTALL_TEMPERATURE, ID_STARTUP, 0, ID_EXIT]
    );
    assert_eq!(items[6].flags, MF_STRING);
    assert_eq!(
        temperature_text(MenuTemperature::Unavailable, true),
        "CPU Package：服务暂时不可用"
    );
    assert_eq!(
        temperature_text(MenuTemperature::Unavailable, false),
        "CPU Package：尚未安装温度支持"
    );
}

#[test]
fn entries_mean_something() {
    assert_eq!(menu_command(ID_OPEN_CONFIG, true), MenuCommand::OpenConfig);
    assert_eq!(menu_command(ID_STARTUP, true), MenuCommand::SetStartup(false));
    assert_eq!(menu_command(ID_STARTUP, false), MenuCommand::SetStartup(true));
    assert_eq!(menu_command(ID_RETRY, true), MenuCommand::Retry);
    assert_eq!(menu_command(ID_INSTALL_TEMPERATURE, true), MenuCommand::InstallTemperature);
    assert_eq!(menu_command(ID_EXIT, true), MenuCommand::Exit);
    assert_eq!(menu_command(0, true), MenuCommand::Nothing);
}

#[test]
fn points_are_signed() {
    assert_eq!(notification_point(0x0003_0005), Point { x: 5, y: 3 });
    assert_eq!(notification_point(0xffff_8000), Point { x: -32_768, y: -1 });
}

#[test]
fn messages_are_understood() {
    let action = |message: u32, wparam: u32, lparam: u32| {
        window_proc(message, wparam, lparam, true, 0xc123)
    };
    assert_eq!(action(WM_NCCREATE, 0, 0), WindowAction::Attach);
    assert_eq!(window_proc(WM_CLOSE, 0, 0, false, 0xc123), WindowAction::Default);
    assert_eq!(window_proc(WM_NCCREATE, 0, 0, false, 0xc123), WindowAction::Attach);
    assert_eq!(action(0xc123, 0, 0), WindowAction::AddIcon);
    for event in [WM_CONTEXTMENU, NIN_SELECT, NIN_KEYSELECT] {
        assert_eq!(
            action(WM_TRAY, 0x0003_0005, 0x0001_0000 | event),
            WindowAction::MenuAt(Point { x: 5, y: 3 })
        );
    }
    for event in [WM_LBUTTONUP, WM_RBUTTONUP] {
        assert_eq!(action(WM_TRAY, 0, event), WindowAction::MenuAtCursor);
    }
    assert_eq!(action(WM_TRAY, 0, 0x0200), WindowAction::Nothing);
    assert_eq!(action(WM_DISPLAY_READY, 0, 0), WindowAction::DisplayReady);
    assert_eq!(action(WM_DISPLAY_DONE, 0, 0), WindowAction::DisplayDone);
    assert_eq!(action(WM_CLOSE, 0, 0), WindowAction::RequestExit);
    assert_eq!(action(WM_DESTROY, 0, 0), WindowAction::Quit);
    assert_eq!(action(WM_NCDESTROY, 0, 0), WindowAction::Detach);
    assert_eq!(action(0x000f, 0, 0), WindowAction::Default);
    assert_eq!(message_step(-1), LoopStep::Failed);
    assert_eq!(message_step(0), LoopStep::Quit);
    assert_eq!(message_step(1), LoopStep::Dispatch);
}

#[test]
fn installer_is_run_with_more_rights() {
    let start = run_elevated_and_wait();
    assert_eq!(
        start.next(ElevationEvent::Failed(1223)),
        ElevationStep::Failed(ElevationError::Cancelled)
    );
    assert_eq!(
        start.next(ElevationEvent::Failed(2)),
        ElevationStep::Failed(ElevationError::Start(2))
    );
    assert_eq!(
        start.next(ElevationEvent::Started { waitable: false }),
        ElevationStep::Failed(ElevationError::NoProcess)
    );
    let wait = start.next(ElevationEvent::Started { waitable: true });
    assert_eq!(
        wait.next(ElevationEvent::Waited { result: 0xffff_ffff, error: 6 }),
        ElevationStep::Failed(ElevationError::Wait(6))
    );
    let read = wait.next(ElevationEvent::Waited { result: 0, error: 0 });
    assert_eq!(
        read.next(ElevationEvent::Failed(5)),
        ElevationStep::Failed(ElevationError::ExitCodeUnknown(5))
    );
    assert_eq!(
        read.next(ElevationEvent::ExitCode(1)),
        ElevationStep::Failed(ElevationError::ExitCode(1))
    );
    assert_eq!(read.next(ElevationEvent::ExitCode(0)), ElevationStep::Done);
}

#[test]
fn rights_are_asked_for_only_if_the_service_is_missing() {
    let start = install_temperature_service();
    assert_eq!(start.next(SupportEvent::Yes), SupportStep::Done);
    let program = start.next(SupportEvent::No);
    assert_eq!(program, SupportStep::CheckProgram);
    assert_eq!(
        program.next(SupportEvent::No),
        SupportStep::Failed(SupportError::ProgramMissing)
    );
    let elevated = program.next(SupportEvent::Yes);
    assert_eq!(elevated, SupportStep::RunProgram);
    let refused = ElevationError::Cancelled;
    assert_eq!(
        elevated.next(SupportEvent::NotElevated(refused)),
        SupportStep::Failed(SupportError::Elevation(refused))
    );
    let again = elevated.next(SupportEvent::Yes);
    assert_eq!(again.next(SupportEvent::No), SupportStep::Failed(SupportError::NotInstalled));
    let sample = again.next(SupportEvent::Yes);
    assert_eq!(sample, SupportStep::Sample);
    assert_eq!(sample.next(SupportEvent::No), SupportStep::Failed(SupportError::NotReadable));
    assert_eq!(sample.next(SupportEvent::Yes), SupportStep::Done);
}

#[test]
fn program_runs_from_lock_to_cleanup() {
    let order = [
        RunStep::AcquireLock,
        RunStep::FindExecutable,
        RunStep::InstallTemperature,
        RunStep::RegisterMessage,
        RunStep::FindModule,
        RunStep::RegisterClass,
        RunStep::LoadIcon,
        RunStep::CreateWindow,
        RunStep::AddIcon,
        RunStep::StartWorker,
        RunStep::Messages,
        RunStep::Cleanup { succeeded: true },
        RunStep::Ended { succeeded: true },
    ];
    let mut step = run();
    for expected in order {
        assert_eq!(step, expected);
        step = step.next(true);
    }
    for early in &order[..8] {
        assert_eq!(early.next(false), RunStep::Ended { succeeded: false });
    }
    assert_eq!(RunStep::AddIcon.next(false), RunStep::Cleanup { succeeded: false });
    assert_eq!(RunStep::Messages.next(false), RunStep::Cleanup { succeeded: false });
    assert_eq!(
        RunStep::Cleanup { succeeded: false }.next(true),
        RunStep::Ended { succeeded: false }
    );
}

#[test]
fn files_are_shown_and_errors_told() {
    let (program, arguments) = open_path(r"C:\Loop Panel\looppanel.toml");
    assert_eq!(program, "notepad.exe");
    assert_eq!(arguments, "\"C:\\Loop Panel\\looppanel.toml\"");
    assert!(execute_succeeded(33) && !execute_succeeded(32));
    let (title, message) = show_fatal_error("错误");
    assert_eq!(title, "LoopPanel\0".encode_utf16().collect::<Vec<_>>());
    assert_eq!(message, "错误\0".encode_utf16().collect::<Vec<_>>());
}
