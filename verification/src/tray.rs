//! The icon in the notification area: what it shows, its menu, and what it makes of messages.

use vstd::prelude::*;

use crate::text::{decimal, encode_utf16, push_decimal, utf16};
use crate::win::wide;

verus! {

/// The class of the window behind the icon.
pub const WINDOW_CLASS: &'static str = "LoopPanelTrayWindow";

/// The number of the icon.
pub const ICON_ID: u32 = 1;

/// The message that the icon sends.
pub const WM_TRAY: u32 = 0x8001;

/// The message that the display runs.
pub const WM_DISPLAY_READY: u32 = 0x8002;

/// The message that the display has ended.
pub const WM_DISPLAY_DONE: u32 = 0x8003;

pub const WM_DESTROY: u32 = 0x0002;

pub const WM_CLOSE: u32 = 0x0010;

pub const WM_CONTEXTMENU: u32 = 0x007b;

pub const WM_NCCREATE: u32 = 0x0081;

pub const WM_NCDESTROY: u32 = 0x0082;

pub const WM_LBUTTONUP: u32 = 0x0202;

pub const WM_RBUTTONUP: u32 = 0x0205;

pub const NIN_SELECT: u32 = 0x0400;

pub const NIN_KEYSELECT: u32 = 0x0401;

pub const ID_OPEN_CONFIG: u32 = 1001;

pub const ID_STARTUP: u32 = 1002;

pub const ID_RETRY: u32 = 1003;

pub const ID_EXIT: u32 = 1004;

pub const ID_INSTALL_TEMPERATURE: u32 = 1005;

pub const MF_STRING: u32 = 0;

pub const MF_GRAYED: u32 = 1;

pub const MF_CHECKED: u32 = 8;

pub const MF_SEPARATOR: u32 = 0x800;

/// The number of units that the text of the icon has room for, with its NUL.
pub const TIP_LENGTH: usize = 128;

/// What the display is doing.
#[derive(Debug)]
pub enum DisplayState {
    /// It is being opened.
    Connecting,
    /// It runs.
    Running,
    /// It ended, for this reason.
    Failed(String),
    /// The program is about to end.
    Exiting,
}

/// What follows on the end of the display.
#[derive(Clone, Copy, Debug, PartialEq, Eq, Structural)]
pub enum WorkerCompletion {
    /// There was no display.
    Ignore,
    /// The icon is drawn anew.
    UpdateIcon,
    /// The window is destroyed, and the program ends.
    DestroyWindow,
}

/// What follows on the wish to end the program.
#[derive(Clone, Copy, Debug, PartialEq, Eq, Structural)]
pub struct ExitAction {
    /// The display is woken up, so that it ends.
    pub wake_worker: bool,
    /// The window is destroyed at once.
    pub destroy: bool,
}

/// The state of the program.
#[derive(Debug)]
pub struct AppState {
    pub display_state: DisplayState,
    /// There is a thread that drives the display.
    pub working: bool,
    /// That thread has been told to end.
    pub stop: bool,
    /// The icon is in the notification area.
    pub icon_added: bool,
}

impl AppState {
    /// A thread may be started for the display: only one runs at a time, and none once the program is
    /// about to end.
    pub open spec fn may_start(self) -> bool {
        !self.working && self.display_state !is Exiting
    }

    /// What follows on the end of the display.
    pub open spec fn completion(self) -> WorkerCompletion {
        if !self.working {
            WorkerCompletion::Ignore
        } else if self.display_state is Exiting {
            WorkerCompletion::DestroyWindow
        } else {
            WorkerCompletion::UpdateIcon
        }
    }

    /// What follows on the wish to end the program; a second wish changes nothing.
    pub open spec fn exit_action(self) -> ExitAction {
        let first = self.display_state !is Exiting;
        ExitAction { wake_worker: first && self.working, destroy: first && !self.working }
    }

    /// The state after the wish to end the program.
    pub open spec fn after_exit_request(self) -> AppState {
        if self.display_state is Exiting {
            self
        } else {
            AppState { display_state: DisplayState::Exiting, stop: true, ..self }
        }
    }

    /// The state at the start.
    pub fn new() -> (state: AppState)
        ensures
            state.display_state is Connecting,
            !state.working,
            !state.stop,
            !state.icon_added,
    {
        AppState {
            display_state: DisplayState::Connecting,
            working: false,
            stop: false,
            icon_added: false,
        }
    }

    /// Tells whether a thread is to be started for the display.
    pub fn start_worker(&mut self) -> (started: bool)
        ensures
            started == old(self).may_start(),
            started ==> *final(self) == (AppState {
                display_state: DisplayState::Connecting,
                working: true,
                stop: false,
                ..*old(self)
            }),
            !started ==> *final(self) == *old(self),
    {
        if self.working || matches!(self.display_state, DisplayState::Exiting) {
            return false;
        }
        self.display_state = DisplayState::Connecting;
        self.stop = false;
        self.working = true;
        true
    }

    /// Takes note that the display runs, and tells whether the icon is drawn anew.
    pub fn display_ready(&mut self) -> (update: bool)
        ensures
            update == (old(self).display_state !is Exiting),
            update ==> *final(self) == (AppState {
                display_state: DisplayState::Running,
                ..*old(self)
            }),
            !update ==> *final(self) == *old(self),
    {
        if matches!(self.display_state, DisplayState::Exiting) {
            return false;
        }
        self.display_state = DisplayState::Running;
        true
    }

    /// Takes note that the display has ended, with this error or without one.
    pub fn display_done(&mut self, result: Result<(), String>) -> (completion: WorkerCompletion)
        ensures
            completion == old(self).completion(),
            !final(self).working,
            final(self).stop == old(self).stop,
            final(self).icon_added == old(self).icon_added,
            completion != WorkerCompletion::UpdateIcon ==> final(self).display_state == old(
                self,
            ).display_state,
            completion == WorkerCompletion::UpdateIcon ==> (
            final(self).display_state matches DisplayState::Failed(reason) && reason@ == match result {
                Ok(()) => "显示线程已经停止"@,
                Err(error) => error@,
            }),
    {
        if !self.working {
            return WorkerCompletion::Ignore;
        }
        self.working = false;
        if matches!(self.display_state, DisplayState::Exiting) {
            return WorkerCompletion::DestroyWindow;
        }
        self.display_state = DisplayState::Failed(
            match result {
                Ok(()) => "显示线程已经停止".to_owned(),
                Err(error) => error,
            },
        );
        WorkerCompletion::UpdateIcon
    }

    /// Begins to end the program: a display that runs is told to end first.
    pub fn request_exit(&mut self) -> (action: ExitAction)
        ensures
            action == old(self).exit_action(),
            *final(self) == old(self).after_exit_request(),
    {
        if matches!(self.display_state, DisplayState::Exiting) {
            return ExitAction { wake_worker: false, destroy: false };
        }
        self.display_state = DisplayState::Exiting;
        self.stop = true;
        ExitAction { wake_worker: self.working, destroy: !self.working }
    }

    /// Ends everything, and tells whether there is a thread to wait for.
    pub fn cleanup(&mut self) -> (join_worker: bool)
        ensures
            join_worker == old(self).working,
            *final(self) == (AppState {
                display_state: DisplayState::Exiting,
                working: false,
                stop: true,
                ..*old(self)
            }),
    {
        let join_worker: bool = self.working;
        self.display_state = DisplayState::Exiting;
        self.stop = true;
        self.working = false;
        join_worker
    }

    /// What the icon and the menu say of the display.
    pub open spec fn status(self) -> Seq<char> {
        match self.display_state {
            DisplayState::Connecting => "LoopPanel：正在连接"@,
            DisplayState::Running => "LoopPanel：运行中"@,
            DisplayState::Failed(reason) => "LoopPanel：连接失败（"@ + reason@ + "）"@,
            DisplayState::Exiting => "LoopPanel：正在退出"@,
        }
    }

    /// What the icon and the menu say of the display.
    pub fn status_text(&self) -> (text: String)
        ensures
            text@ == self.status(),
    {
        match &self.display_state {
            DisplayState::Connecting => "LoopPanel：正在连接".to_owned(),
            DisplayState::Running => "LoopPanel：运行中".to_owned(),
            DisplayState::Failed(reason) => {
                let mut text = "LoopPanel：连接失败（".to_owned();
                text.append(reason.as_str());
                text.append("）");
                text
            },
            DisplayState::Exiting => "LoopPanel：正在退出".to_owned(),
        }
    }

    /// The text of the icon: as much of the status as there is room for, and NULs behind it.
    pub fn icon_tip(&self) -> (tip: Vec<u16>)
        ensures
            tip@.len() == TIP_LENGTH,
            tip@[TIP_LENGTH - 1] == 0,
            forall|i: int|
                0 <= i < TIP_LENGTH ==> #[trigger] tip@[i] == if i < TIP_LENGTH - 1 && i < utf16(
                    self.status(),
                ).len() {
                    utf16(self.status())[i]
                } else {
                    0
                },
    {
        let text = self.status_text();
        let units = encode_utf16(text.as_str());
        let mut tip: Vec<u16> = Vec::new();
        let mut i: usize = 0;
        while i < TIP_LENGTH
            invariant
                i <= TIP_LENGTH,
                tip@.len() == i,
                units@ == utf16(self.status()),
                forall|j: int|
                    0 <= j < i ==> #[trigger] tip@[j] == if j < TIP_LENGTH - 1 && j < units@.len() {
                        units@[j]
                    } else {
                        0
                    },
            decreases TIP_LENGTH - i,
        {
            let unit: u16 = if i < TIP_LENGTH - 1 && i < units.len() {
                units[i]
            } else {
                0
            };
            tip.push(unit);
            i = i + 1;
        }
        tip
    }
}

/// Once the program is about to end, its window is destroyed: at once if no display runs, and
/// otherwise when the display, which has been told to end, has ended.  It is destroyed only once, and
/// no display is started any more.
pub proof fn lemma_exit_destroys_the_window(state: AppState)
    requires
        state.display_state !is Exiting,
    ensures
        state.exit_action().destroy <==> state.after_exit_request().completion()
            != WorkerCompletion::DestroyWindow,
        !state.exit_action().destroy ==> state.exit_action().wake_worker
            && state.after_exit_request().stop,
        !state.after_exit_request().exit_action().destroy,
        !state.after_exit_request().may_start(),
{
}

/// An entry of the menu.
#[derive(Debug)]
pub struct MenuItem {
    pub flags: u32,
    pub id: u32,
    pub text: String,
}

/// What is known of the temperature when the menu is shown.
#[derive(Clone, Copy, Debug, PartialEq, Eq, Structural)]
pub enum MenuTemperature {
    /// The temperature in whole degrees.
    Degrees(u32),
    /// The service did not answer.
    Unavailable,
}

/// What the menu says of the temperature.
pub open spec fn temperature_entry(temperature: MenuTemperature, installed: bool) -> Seq<char> {
    match temperature {
        MenuTemperature::Degrees(value) => "CPU Package："@ + decimal(value as nat) + "°C"@,
        MenuTemperature::Unavailable => if installed {
            "CPU Package：服务暂时不可用"@
        } else {
            "CPU Package：尚未安装温度支持"@
        },
    }
}

/// What the menu says of the temperature.
pub fn temperature_text(temperature: MenuTemperature, installed: bool) -> (text: String)
    ensures
        text@ == temperature_entry(temperature, installed),
{
    match temperature {
        MenuTemperature::Degrees(value) => {
            let mut text = "CPU Package：".to_owned();
            push_decimal(&mut text, value as u64);
            text.append("°C");
            text
        },
        MenuTemperature::Unavailable => {
            if installed {
                "CPU Package：服务暂时不可用".to_owned()
            } else {
                "CPU Package：尚未安装温度支持".to_owned()
            }
        },
    }
}

/// The entries of the menu: flags, number and text of each.
pub open spec fn menu_entries(
    status: Seq<char>,
    failed: bool,
    temperature: MenuTemperature,
    installed: bool,
    startup_enabled: bool,
) -> Seq<(u32, u32, Seq<char>)> {
    seq![
        (MF_GRAYED, 0u32, status),
        (MF_GRAYED, 0u32, temperature_entry(temperature, installed)),
        (MF_SEPARATOR, 0u32, ""@),
    ] + (if failed {
        seq![(MF_STRING, ID_RETRY, "重新连接"@)]
    } else {
        seq![]
    }) + seq![(MF_STRING, ID_OPEN_CONFIG, "打开配置文件"@)] + (if installed {
        seq![]
    } else {
        seq![(MF_STRING, ID_INSTALL_TEMPERATURE, "安装 CPU 温度支持…"@)]
    }) + seq![
        (
            if startup_enabled {
                MF_CHECKED
            } else {
                MF_STRING
            },
            ID_STARTUP,
            "登录时自动启动"@,
        ),
        (MF_SEPARATOR, 0u32, ""@),
        (MF_STRING, ID_EXIT, "退出"@),
    ]
}

/// Flags, number and text of each entry.
pub open spec fn entries_of(items: Seq<MenuItem>) -> Seq<(u32, u32, Seq<char>)> {
    Seq::new(items.len(), |i: int| (items[i].flags, items[i].id, items[i].text@))
}

fn push_item(items: &mut Vec<MenuItem>, flags: u32, id: u32, text: String)
    ensures
        entries_of(final(items)@) == entries_of(old(items)@).push((flags, id, text@)),
{
    let ghost before = items@;
    items.push(MenuItem { flags, id, text });
    proof {
        assert(entries_of(items@) =~= entries_of(before).push((flags, id, text@)));
    }
}

/// Builds the menu.
pub fn show_menu(
    state: &AppState,
    temperature: MenuTemperature,
    installed: bool,
    startup_enabled: bool,
) -> (items: Vec<MenuItem>)
    ensures
        entries_of(items@) == menu_entries(
            state.status(),
            state.display_state is Failed,
            temperature,
            installed,
            startup_enabled,
        ),
{
    let failed: bool = matches!(state.display_state, DisplayState::Failed(_));
    let mut items: Vec<MenuItem> = Vec::new();
    push_item(&mut items, MF_GRAYED, 0, state.status_text());
    push_item(&mut items, MF_GRAYED, 0, temperature_text(temperature, installed));
    push_item(&mut items, MF_SEPARATOR, 0, "".to_owned());
    if failed {
        push_item(&mut items, MF_STRING, ID_RETRY, "重新连接".to_owned());
    }
    push_item(&mut items, MF_STRING, ID_OPEN_CONFIG, "打开配置文件".to_owned());
    if !installed {
        push_item(
            &mut items,
            MF_STRING,
            ID_INSTALL_TEMPERATURE,
            "安装 CPU 温度支持…".to_owned(),
        );
    }
    let check: u32 = if startup_enabled {
        MF_CHECKED
    } else {
        MF_STRING
    };
    push_item(&mut items, check, ID_STARTUP, "登录时自动启动".to_owned());
    push_item(&mut items, MF_SEPARATOR, 0, "".to_owned());
    push_item(&mut items, MF_STRING, ID_EXIT, "退出".to_owned());
    proof {
        assert(entries_of(items@) =~= menu_entries(
            state.status(),
            failed,
            temperature,
            installed,
            startup_enabled,
        ));
    }
    items
}

/// What the user chose.
#[derive(Clone, Copy, Debug, PartialEq, Eq, Structural)]
pub enum MenuCommand {
    /// Nothing.
    Nothing,
    /// Open the file with the settings.
    OpenConfig,
    /// Start the program at login, or not any more.
    SetStartup(bool),
    /// Open the display again.
    Retry,
    /// Install the service for the temperature.
    InstallTemperature,
    /// End the program.
    Exit,
}

/// What the number of an entry means.
pub fn menu_command(id: u32, startup_enabled: bool) -> (command: MenuCommand)
    ensures
        command == if id == ID_OPEN_CONFIG {
            MenuCommand::OpenConfig
        } else if id == ID_STARTUP {
            MenuCommand::SetStartup(!startup_enabled)
        } else if id == ID_RETRY {
            MenuCommand::Retry
        } else if id == ID_INSTALL_TEMPERATURE {
            MenuCommand::InstallTemperature
        } else if id == ID_EXIT {
            MenuCommand::Exit
        } else {
            MenuCommand::Nothing
        },
{
    if id == ID_OPEN_CONFIG {
        MenuCommand::OpenConfig
    } else if id == ID_STARTUP {
        MenuCommand::SetStartup(!startup_enabled)
    } else if id == ID_RETRY {
        MenuCommand::Retry
    } else if id == ID_INSTALL_TEMPERATURE {
        MenuCommand::InstallTemperature
    } else if id == ID_EXIT {
        MenuCommand::Exit
    } else {
        MenuCommand::Nothing
    }
}

/// A 16-bit number read as a signed one.
pub open spec fn signed16(value: int) -> int {
    if value < 0x8000 {
        value
    } else {
        value - 0x1_0000
    }
}

/// A point on the screen.
#[derive(Clone, Copy, Debug, PartialEq, Eq, Structural)]
pub struct Point {
    pub x: i32,
    pub y: i32,
}

/// The point in a parameter: the column in its low half, the row in its high half, both signed.
pub fn notification_point(value: u32) -> (point: Point)
    ensures
        point.x == signed16(value as int % 0x1_0000),
        point.y == signed16(value as int / 0x1_0000),
{
    let low: i32 = (value % 0x1_0000) as i32;
    let high: i32 = (value / 0x1_0000) as i32;
    Point {
        x: if low < 0x8000 {
            low
        } else {
            low - 0x1_0000
        },
        y: if high < 0x8000 {
            high
        } else {
            high - 0x1_0000
        },
    }
}

/// What a message to the window means.
#[derive(Clone, Copy, Debug, PartialEq, Eq, Structural)]
pub enum WindowAction {
    /// The window is created, and is told its state.
    Attach,
    /// The message is left to the system.
    Default,
    /// The taskbar is new, and the icon is added again.
    AddIcon,
    /// The menu is shown where the mouse is.
    MenuAtCursor,
    /// The menu is shown at this point.
    MenuAt(Point),
    /// Nothing.
    Nothing,
    /// The display runs.
    DisplayReady,
    /// The display has ended.
    DisplayDone,
    /// The program is to end.
    RequestExit,
    /// The icon is removed, and the program ends.
    Quit,
    /// The window forgets its state, and the message is left to the system.
    Detach,
}

/// What an event of the icon means.
pub open spec fn icon_action(event: u32, wparam: u32) -> WindowAction {
    if event == WM_CONTEXTMENU || event == NIN_SELECT || event == NIN_KEYSELECT {
        WindowAction::MenuAt(
            Point {
                x: signed16(wparam as int % 0x1_0000) as i32,
                y: signed16(wparam as int / 0x1_0000) as i32,
            },
        )
    } else if event == WM_LBUTTONUP || event == WM_RBUTTONUP {
        WindowAction::MenuAtCursor
    } else {
        WindowAction::Nothing
    }
}

/// What a message to the window means.  `attached` tells that the window knows its state, and
/// `taskbar_created` is the number of the message that the taskbar is new.
pub open spec fn window_action(
    message: u32,
    wparam: u32,
    lparam: u32,
    attached: bool,
    taskbar_created: u32,
) -> WindowAction {
    if message == WM_NCCREATE {
        WindowAction::Attach
    } else if !attached {
        WindowAction::Default
    } else if message == taskbar_created {
        WindowAction::AddIcon
    } else if message == WM_TRAY {
        icon_action((lparam % 0x1_0000) as u32, wparam)
    } else if message == WM_DISPLAY_READY {
        WindowAction::DisplayReady
    } else if message == WM_DISPLAY_DONE {
        WindowAction::DisplayDone
    } else if message == WM_CLOSE {
        WindowAction::RequestExit
    } else if message == WM_DESTROY {
        WindowAction::Quit
    } else if message == WM_NCDESTROY {
        WindowAction::Detach
    } else {
        WindowAction::Default
    }
}

/// What a message to the window means.
pub fn window_proc(
    message: u32,
    wparam: u32,
    lparam: u32,
    attached: bool,
    taskbar_created: u32,
) -> (action: WindowAction)
    ensures
        action == window_action(message, wparam, lparam, attached, taskbar_created),
{
    if message == WM_NCCREATE {
        return WindowAction::Attach;
    }
    if !attached {
        return WindowAction::Default;
    }
    if message == taskbar_created {
        return WindowAction::AddIcon;
    }
    if message == WM_TRAY {
        let event: u32 = lparam % 0x1_0000;
        if event == WM_CONTEXTMENU || event == NIN_SELECT || event == NIN_KEYSELECT {
            WindowAction::MenuAt(notification_point(wparam))
        } else if event == WM_LBUTTONUP || event == WM_RBUTTONUP {
            WindowAction::MenuAtCursor
        } else {
            WindowAction::Nothing
        }
    } else if message == WM_DISPLAY_READY {
        WindowAction::DisplayReady
    } else if message == WM_DISPLAY_DONE {
        WindowAction::DisplayDone
    } else if message == WM_CLOSE {
        WindowAction::RequestExit
    } else if message == WM_DESTROY {
        WindowAction::Quit
    } else if message == WM_NCDESTROY {
        WindowAction::Detach
    } else {
        WindowAction::Default
    }
}

/// What the program does with the outcome of asking for a message.
#[derive(Clone, Copy, Debug, PartialEq, Eq, Structural)]
pub enum LoopStep {
    /// The message is handed to its window.
    Dispatch,
    /// The program ends.
    Quit,
    /// Asking failed.
    Failed,
}

/// What the program does with the outcome of asking for a message.
pub fn message_step(result: i32) -> (step: LoopStep)
    ensures
        step == if result == -1 {
            LoopStep::Failed
        } else if result == 0 {
            LoopStep::Quit
        } else {
            LoopStep::Dispatch
        },
{
    if result == -1 {
        LoopStep::Failed
    } else if result == 0 {
        LoopStep::Quit
    } else {
        LoopStep::Dispatch
    }
}

/// Why the program could not be started with more rights; the numbers are errors of the system.
#[derive(Clone, Copy, Debug, PartialEq, Eq, Structural)]
pub enum ElevationError {
    /// The user refused.
    Cancelled,
    /// The program could not be started.
    Start(u32),
    /// The program cannot be waited for.
    NoProcess,
    /// Waiting for the program failed.
    Wait(u32),
    /// Its exit code could not be read.
    ExitCodeUnknown(u32),
    /// It failed with this exit code.
    ExitCode(u32),
}

/// The error that the user refused.
pub const ERROR_CANCELLED: u32 = 1223;

/// What is done next to run a program with more rights.
#[derive(Clone, Copy, Debug, PartialEq, Eq, Structural)]
pub enum ElevationStep {
    /// Start it.
    Start,
    /// Wait for its end.
    Wait,
    /// Read its exit code.
    ReadExitCode,
    /// It has succeeded.
    Done,
    /// It has not succeeded.
    Failed(ElevationError),
}

/// What came of a step of running a program with more rights.
#[derive(Clone, Copy, Debug, PartialEq, Eq, Structural)]
pub enum ElevationEvent {
    /// It was started; `waitable` if it can be waited for.
    Started { waitable: bool },
    /// The step failed with this error of the system.
    Failed(u32),
    /// The wait ended with this result; the error is the last one of the system.
    Waited { result: u32, error: u32 },
    /// Its exit code.
    ExitCode(u32),
}

/// The step after `step` once `event` has come of it.
pub open spec fn elevation_next(step: ElevationStep, event: ElevationEvent) -> ElevationStep {
    match (step, event) {
        (ElevationStep::Start, ElevationEvent::Failed(code)) => ElevationStep::Failed(
            if code == ERROR_CANCELLED {
                ElevationError::Cancelled
            } else {
                ElevationError::Start(code)
            },
        ),
        (ElevationStep::Start, ElevationEvent::Started { waitable }) => if waitable {
            ElevationStep::Wait
        } else {
            ElevationStep::Failed(ElevationError::NoProcess)
        },
        (ElevationStep::Wait, ElevationEvent::Waited { result, error }) => if result == 0 {
            ElevationStep::ReadExitCode
        } else {
            ElevationStep::Failed(ElevationError::Wait(error))
        },
        (ElevationStep::ReadExitCode, ElevationEvent::Failed(code)) => ElevationStep::Failed(
            ElevationError::ExitCodeUnknown(code),
        ),
        (ElevationStep::ReadExitCode, ElevationEvent::ExitCode(code)) => if code == 0 {
            ElevationStep::Done
        } else {
            ElevationStep::Failed(ElevationError::ExitCode(code))
        },
        _ => step,
    }
}

/// Begins to run a program with more rights.
pub fn run_elevated_and_wait() -> (step: ElevationStep)
    ensures
        step == ElevationStep::Start,
{
    ElevationStep::Start
}

impl ElevationStep {
    /// Goes on once `event` has come of this step; an event that does not belong to the step changes
    /// nothing.
    pub fn next(self, event: ElevationEvent) -> (next: ElevationStep)
        ensures
            next == elevation_next(self, event),
    {
        match (self, event) {
            (ElevationStep::Start, ElevationEvent::Failed(code)) => {
                if code == ERROR_CANCELLED {
                    ElevationStep::Failed(ElevationError::Cancelled)
                } else {
                    ElevationStep::Failed(ElevationError::Start(code))
                }
            },
            (ElevationStep::Start, ElevationEvent::Started { waitable }) => {
                if waitable {
                    ElevationStep::Wait
                } else {
                    ElevationStep::Failed(ElevationError::NoProcess)
                }
            },
            (ElevationStep::Wait, ElevationEvent::Waited { result, error }) => {
                if result == 0 {
                    ElevationStep::ReadExitCode
                } else {
                    ElevationStep::Failed(ElevationError::Wait(error))
                }
            },
            (ElevationStep::ReadExitCode, ElevationEvent::Failed(code)) => {
                ElevationStep::Failed(ElevationError::ExitCodeUnknown(code))
            },
            (ElevationStep::ReadExitCode, ElevationEvent::ExitCode(code)) => {
                if code == 0 {
                    ElevationStep::Done
                } else {
                    ElevationStep::Failed(ElevationError::ExitCode(code))
                }
            },
            _ => self,
        }
    }
}

/// Why the service for the temperature is not usable.
#[derive(Clone, Copy, Debug, PartialEq, Eq, Structural)]
pub enum SupportError {
    /// The program that installs it is missing.
    ProgramMissing,
    /// The program that installs it did not succeed.
    Elevation(ElevationError),
    /// It is still not installed.
    NotInstalled,
    /// It does not answer.
    NotReadable,
}

/// What is done next to have the service for the temperature.
#[derive(Clone, Copy, Debug, PartialEq, Eq, Structural)]
pub enum SupportStep {
    /// Look whether it is installed.
    CheckInstalled,
    /// Look whether the program that installs it is there.
    CheckProgram,
    /// Run that program with more rights.
    RunProgram,
    /// Look whether it is installed now.
    CheckAgain,
    /// Ask it for the temperature.
    Sample,
    /// It is there.
    Done,
    /// It is not usable.
    Failed(SupportError),
}

/// What came of a step.
#[derive(Clone, Copy, Debug, PartialEq, Eq, Structural)]
pub enum SupportEvent {
    /// Yes, or success.
    Yes,
    /// No, or failure.
    No,
    /// The program that installs it did not succeed.
    NotElevated(ElevationError),
}

/// The step after `step` once `event` has come of it.
pub open spec fn support_next(step: SupportStep, event: SupportEvent) -> SupportStep {
    match (step, event) {
        (SupportStep::CheckInstalled, SupportEvent::Yes) => SupportStep::Done,
        (SupportStep::CheckInstalled, SupportEvent::No) => SupportStep::CheckProgram,
        (SupportStep::CheckProgram, SupportEvent::Yes) => SupportStep::RunProgram,
        (SupportStep::CheckProgram, SupportEvent::No) => SupportStep::Failed(
            SupportError::ProgramMissing,
        ),
        (SupportStep::RunProgram, SupportEvent::Yes) => SupportStep::CheckAgain,
        (SupportStep::RunProgram, SupportEvent::NotElevated(error)) => SupportStep::Failed(
            SupportError::Elevation(error),
        ),
        (SupportStep::CheckAgain, SupportEvent::Yes) => SupportStep::Sample,
        (SupportStep::CheckAgain, SupportEvent::No) => SupportStep::Failed(
            SupportError::NotInstalled,
        ),
        (SupportStep::Sample, SupportEvent::Yes) => SupportStep::Done,
        (SupportStep::Sample, SupportEvent::No) => SupportStep::Failed(SupportError::NotReadable),
        _ => step,
    }
}

/// Begins to have the service for the temperature: it is installed if it is missing, and only then is
/// the user asked for more rights.
pub fn install_temperature_service() -> (step: SupportStep)
    ensures
        step == SupportStep::CheckInstalled,
{
    SupportStep::CheckInstalled
}

impl SupportStep {
    /// Goes on once `event` has come of this step; an event that does not belong to the step changes
    /// nothing.
    pub fn next(self, event: SupportEvent) -> (next: SupportStep)
        ensures
            next == support_next(self, event),
    {
        match (self, event) {
            (SupportStep::CheckInstalled, SupportEvent::Yes) => SupportStep::Done,
            (SupportStep::CheckInstalled, SupportEvent::No) => SupportStep::CheckProgram,
            (SupportStep::CheckProgram, SupportEvent::Yes) => SupportStep::RunProgram,
            (SupportStep::CheckProgram, SupportEvent::No) => {
                SupportStep::Failed(SupportError::ProgramMissing)
            },
            (SupportStep::RunProgram, SupportEvent::Yes) => SupportStep::CheckAgain,
            (SupportStep::RunProgram, SupportEvent::NotElevated(error)) => {
                SupportStep::Failed(SupportError::Elevation(error))
            },
            (SupportStep::CheckAgain, SupportEvent::Yes) => SupportStep::Sample,
            (SupportStep::CheckAgain, SupportEvent::No) => {
                SupportStep::Failed(SupportError::NotInstalled)
            },
            (SupportStep::Sample, SupportEvent::Yes) => SupportStep::Done,
            (SupportStep::Sample, SupportEvent::No) => {
                SupportStep::Failed(SupportError::NotReadable)
            },
            _ => self,
        }
    }
}

/// The user is asked for more rights only if the service is missing and the program that installs it
/// is there; afterwards the service counts as usable only if it is installed and answers.
pub proof fn lemma_rights_are_asked_for_only_if_needed(step: SupportStep, event: SupportEvent)
    ensures
        support_next(step, event) == SupportStep::RunProgram ==> step == SupportStep::RunProgram || (
        step == SupportStep::CheckProgram && event == SupportEvent::Yes),
        support_next(step, event) == SupportStep::CheckProgram ==> step == SupportStep::CheckProgram
            || (step == SupportStep::CheckInstalled && event == SupportEvent::No),
        support_next(step, event) == SupportStep::Done ==> step == SupportStep::Done || (event
            == SupportEvent::Yes && (step == SupportStep::CheckInstalled || step
            == SupportStep::Sample)),
{
}

/// What the program does next, from its start to its end.
#[derive(Clone, Copy, Debug, PartialEq, Eq, Structural)]
pub enum RunStep {
    /// Take the lock on the display.
    AcquireLock,
    /// Find out where the program is.
    FindExecutable,
    /// Have the service for the temperature.
    InstallTemperature,
    /// Register the message that the taskbar is new.
    RegisterMessage,
    /// Find the module of the program.
    FindModule,
    /// Register the class of the window.
    RegisterClass,
    /// Load the icon.
    LoadIcon,
    /// Create the window.
    CreateWindow,
    /// Add the icon to the notification area.
    AddIcon,
    /// Start the display.
    StartWorker,
    /// Handle messages until the program is to end.
    Messages,
    /// Remove the icon and the window, and wait for the display.
    Cleanup { succeeded: bool },
    /// The program ends.
    Ended { succeeded: bool },
}

/// The step after `step`.
pub open spec fn run_next(step: RunStep, succeeded: bool) -> RunStep {
    match step {
        RunStep::Ended { .. } => step,
        RunStep::Cleanup { succeeded } => RunStep::Ended { succeeded },
        RunStep::Messages => RunStep::Cleanup { succeeded },
        RunStep::StartWorker => RunStep::Messages,
        RunStep::AddIcon => if succeeded {
            RunStep::StartWorker
        } else {
            RunStep::Cleanup { succeeded: false }
        },
        _ => if !succeeded {
            RunStep::Ended { succeeded: false }
        } else {
            match step {
                RunStep::AcquireLock => RunStep::FindExecutable,
                RunStep::FindExecutable => RunStep::InstallTemperature,
                RunStep::InstallTemperature => RunStep::RegisterMessage,
                RunStep::RegisterMessage => RunStep::FindModule,
                RunStep::FindModule => RunStep::RegisterClass,
                RunStep::RegisterClass => RunStep::LoadIcon,
                RunStep::LoadIcon => RunStep::CreateWindow,
                _ => RunStep::AddIcon,
            }
        },
    }
}

/// Begins the program.
pub fn run() -> (step: RunStep)
    ensures
        step == RunStep::AcquireLock,
{
    RunStep::AcquireLock
}

impl RunStep {
    /// Goes on after this step.
    pub fn next(self, succeeded: bool) -> (next: RunStep)
        ensures
            next == run_next(self, succeeded),
    {
        match self {
            RunStep::Ended { succeeded } => RunStep::Ended { succeeded },
            RunStep::Cleanup { succeeded } => RunStep::Ended { succeeded },
            RunStep::Messages => RunStep::Cleanup { succeeded },
            RunStep::StartWorker => RunStep::Messages,
            RunStep::AddIcon => {
                if succeeded {
                    RunStep::StartWorker
                } else {
                    RunStep::Cleanup { succeeded: false }
                }
            },
            other => {
                if !succeeded {
                    return RunStep::Ended { succeeded: false };
                }
                match other {
                    RunStep::AcquireLock => RunStep::FindExecutable,
                    RunStep::FindExecutable => RunStep::InstallTemperature,
                    RunStep::InstallTemperature => RunStep::RegisterMessage,
                    RunStep::RegisterMessage => RunStep::FindModule,
                    RunStep::FindModule => RunStep::RegisterClass,
                    RunStep::RegisterClass => RunStep::LoadIcon,
                    RunStep::LoadIcon => RunStep::CreateWindow,
                    _ => RunStep::AddIcon,
                }
            },
        }
    }
}

/// The window exists at this step.
pub open spec fn window_exists(step: RunStep) -> bool {
    step == RunStep::AddIcon || step == RunStep::StartWorker || step == RunStep::Messages
        || step is Cleanup
}

/// A window that has been created is cleaned up before the program ends, and nothing is done before
/// the lock on the display is held.
pub proof fn lemma_window_is_cleaned_up(step: RunStep, succeeded: bool)
    ensures
        window_exists(step) ==> window_exists(run_next(step, succeeded)) || step is Cleanup,
        step == RunStep::AcquireLock && !succeeded ==> run_next(step, succeeded) == (
        RunStep::Ended { succeeded: false }),
{
}

/// A path in quotation marks.
pub fn quoted(path: &str) -> (text: String)
    ensures
        text@ == seq!['"'] + path@ + seq!['"'],
{
    let mut text = String::new();
    text.push('"');
    text.append(path);
    text.push('"');
    proof {
        assert(text@ =~= seq!['"'] + path@ + seq!['"']);
    }
    text
}

/// What is run to show a file: the text editor of the system with the file in quotation marks.
pub fn open_path(path: &str) -> (command: (&'static str, String))
    ensures
        command.0@ == "notepad.exe"@,
        command.1@ == seq!['"'] + path@ + seq!['"'],
{
    ("notepad.exe", quoted(path))
}

/// Tells whether the system has started a program: its result is greater than 32.
pub fn execute_succeeded(result: usize) -> (succeeded: bool)
    ensures
        succeeded == (result > 32),
{
    result > 32
}

/// The title and the text of the box that tells of an error.
pub fn show_fatal_error(error: &str) -> (shown: (Vec<u16>, Vec<u16>))
    ensures
        shown.0@ == utf16("LoopPanel"@).push(0),
        shown.1@ == utf16(error@).push(0),
{
    (wide("LoopPanel"), wide(error))
}

/// A display is started only if there is none and the program does not end; it is then being opened, and
/// not told to end.
pub proof fn lemma_display_is_started_once(fresh: AppState, state: &mut AppState, started: bool)
    requires
        call_ensures(AppState::new, (), fresh),
        call_ensures(AppState::start_worker, (state,), started),
    ensures
        fresh.display_state is Connecting && !fresh.working && !fresh.stop && !fresh.icon_added,
        old(state).working ==> !started,
        old(state).display_state is Exiting ==> !started,
        !old(state).working && !(old(state).display_state is Exiting) ==> started,
        started ==> {
            &&& final(state).display_state is Connecting
            &&& final(state).working
            &&& !final(state).stop
            &&& final(state).icon_added == old(state).icon_added
        },
        !started ==> *final(state) == *old(state),
{
}

/// A display that runs is told, unless the program is about to end.
pub proof fn lemma_display_runs(state: &mut AppState, update: bool)
    requires
        call_ensures(AppState::display_ready, (state,), update),
    ensures
        old(state).display_state is Exiting ==> !update && *final(state) == *old(state),
        !(old(state).display_state is Exiting) ==> update && final(state).display_state is Running,
        final(state).working == old(state).working,
        final(state).stop == old(state).stop,
        final(state).icon_added == old(state).icon_added,
{
}

/// A display that ended is told with its reason; if the program is about to end, its window is destroyed;
/// without a display nothing happens.
pub proof fn lemma_display_ends(
    state: &mut AppState,
    result: Result<(), String>,
    completion: WorkerCompletion,
)
    requires
        call_ensures(AppState::display_done, (state, result), completion),
    ensures
        !final(state).working,
        final(state).stop == old(state).stop,
        final(state).icon_added == old(state).icon_added,
        !old(state).working ==> completion is Ignore && final(state).display_state == old(
            state,
        ).display_state,
        old(state).working && old(state).display_state is Exiting ==> completion is DestroyWindow
            && final(state).display_state is Exiting,
        old(state).working && !(old(state).display_state is Exiting) ==> {
            &&& completion is UpdateIcon
            &&& final(state).display_state is Failed
            &&& result matches Err(error) ==> final(state).display_state->Failed_0@ == error@
            &&& result is Ok ==> final(state).display_state->Failed_0@ == "显示线程已经停止"@
        },
{
}

/// The first wish to end the program wakes the display up, so that it ends, or destroys the window if there
/// is none; a second wish does nothing.
pub proof fn lemma_exit_is_requested_once(state: &mut AppState, action: ExitAction)
    requires
        call_ensures(AppState::request_exit, (state,), action),
    ensures
        final(state).display_state is Exiting,
        final(state).working == old(state).working,
        final(state).icon_added == old(state).icon_added,
        old(state).display_state is Exiting ==> !action.wake_worker && !action.destroy && *final(state)
            == *old(state),
        !(old(state).display_state is Exiting) ==> final(state).stop && (action.wake_worker
            <==> old(state).working) && (action.destroy <==> !old(state).working),
{
}

/// Cleaning up tells the display to end, and waits for it if there is one.
pub proof fn lemma_display_is_waited_for(state: &mut AppState, join_worker: bool)
    requires
        call_ensures(AppState::cleanup, (state,), join_worker),
    ensures
        join_worker <==> old(state).working,
        !final(state).working,
        final(state).stop,
        final(state).display_state is Exiting,
        final(state).icon_added == old(state).icon_added,
{
}

/// The icon tells the state of the display; its tip holds the text as far as 127 units of it fit, and
/// zeros behind it.
pub proof fn lemma_icon_tells_state(state: &AppState, text: String, tip: Vec<u16>, i: int)
    requires
        call_ensures(AppState::status_text, (state,), text),
        call_ensures(AppState::icon_tip, (state,), tip),
        0 <= i < 128,
    ensures
        state.display_state is Connecting ==> text@ == "LoopPanel：正在连接"@,
        state.display_state is Running ==> text@ == "LoopPanel：运行中"@,
        state.display_state is Exiting ==> text@ == "LoopPanel：正在退出"@,
        state.display_state matches DisplayState::Failed(reason) ==> text@ == "LoopPanel：连接失败（"@
            + reason@ + "）"@,
        tip@.len() == 128,
        i < 127 && i < utf16(text@).len() ==> tip@[i] == utf16(text@)[i],
        i >= utf16(text@).len() ==> tip@[i] == 0,
        tip@[127] == 0,
{
}

/// The menu tells the temperature in degrees, or why there is none.
pub proof fn lemma_menu_tells_temperature(temperature: MenuTemperature, installed: bool, text: String)
    requires
        call_ensures(temperature_text, (temperature, installed), text),
    ensures
        temperature matches MenuTemperature::Degrees(value) ==> text@ == "CPU Package："@ + decimal(
            value as nat,
        ) + "°C"@,
        temperature is Unavailable && installed ==> text@ == "CPU Package：服务暂时不可用"@,
        temperature is Unavailable && !installed ==> text@ == "CPU Package：尚未安装温度支持"@,
{
}

/// The menu begins with the state and the temperature, which cannot be chosen.  It offers to connect again
/// only after a failure, and to install the support for the temperature only while that is missing; the
/// start at login is checked if it is switched on, and the end comes last.
pub proof fn lemma_menu_offers_what_applies(
    state: &AppState,
    temperature: MenuTemperature,
    installed: bool,
    startup_enabled: bool,
    items: Vec<MenuItem>,
    status: String,
    degrees: String,
)
    requires
        call_ensures(show_menu, (state, temperature, installed, startup_enabled), items),
        call_ensures(AppState::status_text, (state,), status),
        call_ensures(temperature_text, (temperature, installed), degrees),
    ensures
        ({
            let retry = if state.display_state is Failed {
                1int
            } else {
                0
            };
            let install = if installed {
                0int
            } else {
                1
            };
            &&& items@.len() == 7 + retry + install
            &&& items@[0].flags == 1 && items@[0].id == 0 && items@[0].text@ == status@
            &&& items@[1].flags == 1 && items@[1].id == 0 && items@[1].text@ == degrees@
            &&& items@[2].flags == 0x800 && items@[2].id == 0
            &&& retry == 1 ==> items@[3].flags == 0 && items@[3].id == 1003 && items@[3].text@
                == "重新连接"@
            &&& items@[3 + retry].flags == 0 && items@[3 + retry].id == 1001 && items@[3
                + retry].text@ == "打开配置文件"@
            &&& install == 1 ==> items@[4 + retry].flags == 0 && items@[4 + retry].id == 1005
                && items@[4 + retry].text@ == "安装 CPU 温度支持…"@
            &&& items@[4 + retry + install].id == 1002 && items@[4 + retry + install].text@
                == "登录时自动启动"@
            &&& startup_enabled ==> items@[4 + retry + install].flags == 8
            &&& !startup_enabled ==> items@[4 + retry + install].flags == 0
            &&& items@[5 + retry + install].flags == 0x800 && items@[5 + retry + install].id == 0
            &&& items@[6 + retry + install].flags == 0 && items@[6 + retry + install].id == 1004
                && items@[6 + retry + install].text@ == "退出"@
        }),
{
    let entries = entries_of(items@);
    assert(entries.len() == items@.len());
    assert forall|i: int| 0 <= i < items@.len() implies (#[trigger] items@[i]).flags == (entries[i]).0
        && items@[i].id == (entries[i]).1 && items@[i].text@ == (entries[i]).2 by {}
    if state.display_state is Failed {
        if installed {
            assert(entries.len() == 8);
        } else {
            assert(entries.len() == 9);
        }
    } else {
        if installed {
            assert(entries.len() == 7);
        } else {
            assert(entries.len() == 8);
        }
    }
}

/// What the menu offers is what its entries do; the start at login is turned round.
pub proof fn lemma_menu_entries_do_what_they_say(
    id: u32,
    startup_enabled: bool,
    command: MenuCommand,
)
    requires
        call_ensures(menu_command, (id, startup_enabled), command),
    ensures
        command is OpenConfig <==> id == 1001,
        command is SetStartup <==> id == 1002,
        command matches MenuCommand::SetStartup(enabled) ==> enabled != startup_enabled,
        command is Retry <==> id == 1003,
        command is Exit <==> id == 1004,
        command is InstallTemperature <==> id == 1005,
{
}

/// A point is two signed numbers of sixteen bits, the column in the lower half.
pub proof fn lemma_point_has_two_halves(value: u32, point: Point)
    requires
        call_ensures(notification_point, (value,), point),
    ensures
        -0x8000 <= point.x < 0x8000,
        -0x8000 <= point.y < 0x8000,
        (point.x - value) % 0x1_0000 == 0,
        (point.y - (value as int / 0x1_0000)) % 0x1_0000 == 0,
{
}

/// The icon shows its menu at the point that comes with the message when it is chosen, and where the mouse
/// is when it is clicked; the number of the message is in the lower half.
pub proof fn lemma_icon_opens_menu(
    wparam: u32,
    lparam: u32,
    event: int,
    upper: int,
    taskbar_created: u32,
    action: WindowAction,
    point: Point,
)
    requires
        lparam == event + 0x1_0000 * upper,
        0 <= event < 0x1_0000,
        taskbar_created != 0x8001,
        call_ensures(window_proc, (0x8001u32, wparam, lparam, true, taskbar_created), action),
        call_ensures(notification_point, (wparam,), point),
    ensures
        event == 0x7b || event == 0x400 || event == 0x401 ==> action == WindowAction::MenuAt(point),
        event == 0x202 || event == 0x205 ==> action is MenuAtCursor,
        event != 0x7b && event != 0x400 && event != 0x401 && event != 0x202 && event != 0x205
            ==> action is Nothing,
{
    assert(lparam as int % 0x1_0000 == event);
}

/// A window learns its state when it is created, and leaves every message to the system until then; after
/// that it obeys its messages.
pub proof fn lemma_window_obeys_messages(
    message: u32,
    wparam: u32,
    lparam: u32,
    attached: bool,
    taskbar_created: u32,
    action: WindowAction,
)
    requires
        call_ensures(window_proc, (message, wparam, lparam, attached, taskbar_created), action),
    ensures
        message == 0x81 ==> action is Attach,
        message != 0x81 && !attached ==> action is Default,
        message != 0x81 && attached && message == taskbar_created ==> action is AddIcon,
        attached && message != taskbar_created ==> {
            &&& message == 0x8002 ==> action is DisplayReady
            &&& message == 0x8003 ==> action is DisplayDone
            &&& message == 0x10 ==> action is RequestExit
            &&& message == 0x2 ==> action is Quit
            &&& message == 0x82 ==> action is Detach
            &&& message != 0x81 && message != 0x82 && message != 0x2 && message != 0x10 && !(0x8001
                <= message <= 0x8003) ==> action is Default
        },
{
}

/// Asking for a message fails with -1 alone, and ends the program with zero.
pub proof fn lemma_messages_are_asked_for(result: i32, step: LoopStep)
    requires
        call_ensures(message_step, (result,), step),
    ensures
        step is Failed <==> result == -1,
        step is Quit <==> result == 0,
        step is Dispatch <==> result < -1 || result > 0,
{
}

/// A program that was started with more rights is waited for, and succeeds with an exit code of zero;
/// whatever goes wrong is told.
pub proof fn lemma_rights_are_obtained(
    first: ElevationStep,
    code: u32,
    waitable: bool,
    result: u32,
    error: u32,
    refused: ElevationStep,
    started: ElevationStep,
    waited: ElevationStep,
    unknown: ElevationStep,
    ended: ElevationStep,
)
    requires
        call_ensures(run_elevated_and_wait, (), first),
        call_ensures(ElevationStep::next, (first, ElevationEvent::Failed(code)), refused),
        call_ensures(ElevationStep::next, (first, ElevationEvent::Started { waitable }), started),
        call_ensures(
            ElevationStep::next,
            (ElevationStep::Wait, ElevationEvent::Waited { result, error }),
            waited,
        ),
        call_ensures(
            ElevationStep::next,
            (ElevationStep::ReadExitCode, ElevationEvent::Failed(code)),
            unknown,
        ),
        call_ensures(
            ElevationStep::next,
            (ElevationStep::ReadExitCode, ElevationEvent::ExitCode(code)),
            ended,
        ),
    ensures
        first is Start,
        code == 1223 ==> refused == ElevationStep::Failed(ElevationError::Cancelled),
        code != 1223 ==> refused == ElevationStep::Failed(ElevationError::Start(code)),
        waitable ==> started is Wait,
        !waitable ==> started == ElevationStep::Failed(ElevationError::NoProcess),
        result == 0 ==> waited is ReadExitCode,
        result != 0 ==> waited == ElevationStep::Failed(ElevationError::Wait(error)),
        unknown == ElevationStep::Failed(ElevationError::ExitCodeUnknown(code)),
        code == 0 ==> ended is Done,
        code != 0 ==> ended == ElevationStep::Failed(ElevationError::ExitCode(code)),
{
}

/// What has ended does not go on, whatever happens.
pub proof fn lemma_ends_are_kept(
    elevation: ElevationStep,
    elevation_event: ElevationEvent,
    elevation_next: ElevationStep,
    support: SupportStep,
    support_event: SupportEvent,
    support_next: SupportStep,
)
    requires
        call_ensures(ElevationStep::next, (elevation, elevation_event), elevation_next),
        call_ensures(SupportStep::next, (support, support_event), support_next),
    ensures
        elevation is Done || elevation is Failed ==> elevation_next == elevation,
        support is Done || support is Failed ==> support_next == support,
{
}

/// The support for the temperature is installed only if it is missing, by a program that must be there;
/// afterwards it must be installed and answer.
pub proof fn lemma_support_is_installed(
    first: SupportStep,
    step: SupportStep,
    error: ElevationError,
    yes: SupportStep,
    no: SupportStep,
    refused: SupportStep,
)
    requires
        call_ensures(install_temperature_service, (), first),
        call_ensures(SupportStep::next, (step, SupportEvent::Yes), yes),
        call_ensures(SupportStep::next, (step, SupportEvent::No), no),
        call_ensures(
            SupportStep::next,
            (SupportStep::RunProgram, SupportEvent::NotElevated(error)),
            refused,
        ),
    ensures
        first is CheckInstalled,
        step is CheckInstalled ==> yes is Done && no is CheckProgram,
        step is CheckProgram ==> yes is RunProgram && no == SupportStep::Failed(
            SupportError::ProgramMissing,
        ),
        step is RunProgram ==> yes is CheckAgain,
        step is CheckAgain ==> yes is Sample && no == SupportStep::Failed(SupportError::NotInstalled),
        step is Sample ==> yes is Done && no == SupportStep::Failed(SupportError::NotReadable),
        refused == SupportStep::Failed(SupportError::Elevation(error)),
{
}

/// The program starts step by step up to its messages, and then cleans up and ends, as it was told.
pub proof fn lemma_program_runs(first: RunStep, step: RunStep, succeeded: bool, next: RunStep)
    requires
        call_ensures(run, (), first),
        call_ensures(RunStep::next, (step, succeeded), next),
    ensures
        first is AcquireLock,
        succeeded ==> {
            &&& step is AcquireLock ==> next is FindExecutable
            &&& step is FindExecutable ==> next is InstallTemperature
            &&& step is InstallTemperature ==> next is RegisterMessage
            &&& step is RegisterMessage ==> next is FindModule
            &&& step is FindModule ==> next is RegisterClass
            &&& step is RegisterClass ==> next is LoadIcon
            &&& step is LoadIcon ==> next is CreateWindow
            &&& step is CreateWindow ==> next is AddIcon
            &&& step is AddIcon ==> next is StartWorker
        },
        !succeeded ==> {
            &&& step is AddIcon ==> next == (RunStep::Cleanup { succeeded: false })
            &&& step is AcquireLock || step is FindExecutable || step is InstallTemperature
                || step is RegisterMessage || step is FindModule || step is RegisterClass
                || step is LoadIcon || step is CreateWindow ==> next == (RunStep::Ended {
                succeeded: false,
            })
        },
        step is StartWorker ==> next is Messages,
        step is Messages ==> next == (RunStep::Cleanup { succeeded }),
        step matches RunStep::Cleanup { succeeded: told } ==> next == (RunStep::Ended {
            succeeded: told,
        }),
        step is Ended ==> next == step,
{
}

/// A path is handed over between quotation marks, so that its spaces do not part it; a program counts as
/// started with a result above 32; a fatal error is shown as it is.
pub proof fn lemma_paths_are_handed_over(
    path: &str,
    text: String,
    command: (&'static str, String),
    result: usize,
    succeeded: bool,
    error: &str,
    shown: (Vec<u16>, Vec<u16>),
)
    requires
        call_ensures(quoted, (path,), text),
        call_ensures(open_path, (path,), command),
        call_ensures(execute_succeeded, (result,), succeeded),
        call_ensures(show_fatal_error, (error,), shown),
    ensures
        text@.len() == path@.len() + 2,
        text@[0] == '"',
        text@.subrange(1, path@.len() as int + 1) == path@,
        text@[path@.len() as int + 1] == '"',
        command.0@ == "notepad.exe"@,
        command.1@ == text@,
        succeeded <==> result >= 33,
        shown.0@ == utf16("LoopPanel"@).push(0),
        shown.1@ == utf16(error@).push(0),
{
    assert(text@.subrange(1, path@.len() as int + 1) =~= path@);
}

} // verus!
