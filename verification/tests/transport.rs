use looppanel::transport::{
    collect_target_paths, detail_size, diagnostic_lines, enable_after_first_frame, initialize,
    is_target_descriptor, issue, nibble, open_target, report, BulkTransfer, ClaimError, ClaimStep,
    DeviceCount, DeviceStep, InterfaceDetail, Tm360, UsbOutcome, POST_FIRST_FRAME_REPORTS,
    STARTUP_REPORTS,
};

#[test]
fn captured_startup_has_tm360_mode_and_enable_reports() {
    assert_eq!(STARTUP_REPORTS.len(), 81);
    assert!(STARTUP_REPORTS.iter().any(|entry| entry.1 == report(b"a60101e001e02200")));
    assert!(STARTUP_REPORTS.iter().any(|entry| entry.1 == report(b"a6028f0001e001e0")));
    assert_eq!(
        POST_FIRST_FRAME_REPORTS,
        [
            report(b"b5f0050000000000"),
            report(b"b6f0051000000000"),
            report(b"a605010000000000"),
            report(b"b5c5550000000000"),
        ]
    );
}

#[test]
fn digits_are_read() {
    assert_eq!(nibble(b'0'), 0);
    assert_eq!(nibble(b'9'), 9);
    assert_eq!(nibble(b'a'), 10);
    assert_eq!(nibble(b'f'), 15);
    assert_eq!(report(b"00ff10a90b5c7e12"), [0, 255, 16, 0xa9, 0x0b, 0x5c, 0x7e, 0x12]);
}

#[test]
fn reports_are_sent_in_time() {
    let mut previous = 0;
    for (time, _) in STARTUP_REPORTS {
        assert!(time >= previous);
        previous = time;
    }
    let (time, payload) = STARTUP_REPORTS[80];
    let step = initialize(80, 10).unwrap();
    assert_eq!(step.wait_micros, u64::from(time) - 10);
    assert_eq!(step.report[0], 0);
    assert_eq!(step.report[1..], payload);
    assert_eq!(step.pause_micros, 0);
    assert_eq!(initialize(80, u64::MAX).unwrap().wait_micros, 0);
    assert!(initialize(81, 0).is_none());
    let step = enable_after_first_frame(0).unwrap();
    assert_eq!(step.report, [0, 0xb5, 0xf0, 0x05, 0, 0, 0, 0, 0]);
    assert!(step.reply);
    assert_eq!(step.pause_micros, 3_000);
    assert!(!enable_after_first_frame(1).unwrap().reply);
    assert!(enable_after_first_frame(4).is_none());
    assert!(issue([0xf5, 0, 0, 0, 0, 0, 0, 0]).1);
    assert!(!issue([0xb6, 0, 0, 0, 0, 0, 0, 0]).1);
}

fn write(data: &[u8], sizes: &[i32]) -> (Vec<u8>, Vec<usize>) {
    let mut transfer = Tm360.send_packet(data);
    let mut taken = Vec::new();
    let mut offered = Vec::new();
    let mut sizes = sizes.iter().cycle();
    while let Some((start, count)) = transfer.pending() {
        offered.push(count);
        let written = (*sizes.next().unwrap()).min(count as i32);
        transfer.accept(written).unwrap();
        taken.extend_from_slice(&data[start..start + written as usize]);
    }
    (taken, offered)
}

#[test]
fn frame_is_written_in_chunks() {
    let data: Vec<u8> = (0..460_816_u32).map(|value| (value % 251) as u8).collect();
    let (taken, offered) = write(&data, &[i32::MAX]);
    assert_eq!(taken, data);
    assert_eq!(offered.len(), 8);
    assert!(offered[..7].iter().all(|count| *count == 65_536));
    assert_eq!(offered[7], 460_816 - 7 * 65_536);
    let (taken, _) = write(&data, &[1_000, 70_000, 3]);
    assert_eq!(taken, data);
    assert_eq!(write(&[], &[1]).0, []);
}

#[test]
fn failed_write_is_reported() {
    let mut transfer = BulkTransfer::new(10);
    assert_eq!(transfer.accept(-116), Err(-116));
    assert_eq!(transfer.accept(0), Err(0));
    assert_eq!(transfer.pending(), Some((0, 10)));
    assert_eq!(transfer.accept(4), Ok(()));
    assert_eq!(transfer.pending(), Some((4, 6)));
    assert_eq!(transfer.accept(100), Ok(()));
    assert_eq!(transfer.pending(), None);
}

#[test]
fn video_interface_is_claimed() {
    let step = open_target();
    assert_eq!(step, ClaimStep::FindBusses);
    assert_eq!(step.next(-1), ClaimStep::Failed(ClaimError::FindBusses));
    let step = step.next(0);
    assert_eq!(step.next(-1), ClaimStep::Failed(ClaimError::FindDevices));
    let step = step.next(0);
    assert_eq!(step, ClaimStep::SelectDevice);
    assert_eq!(step.next(0), ClaimStep::Failed(ClaimError::NotFound));
    let step = step.next(1);
    assert_eq!(step.next(0), ClaimStep::Failed(ClaimError::Open));
    let step = step.next(1);
    assert_eq!(step, ClaimStep::Claim);
    assert_eq!(step.next(0), ClaimStep::Done);
    assert_eq!(step.next(-22), ClaimStep::Close);
    assert_eq!(ClaimStep::Close.next(0), ClaimStep::Failed(ClaimError::Claim));
}

#[test]
fn display_is_known_by_its_descriptor() {
    let mut descriptor = [0_u8; 18];
    descriptor[8..12].copy_from_slice(&[0x5f, 0x34, 0x32, 0x91]);
    assert!(is_target_descriptor(&descriptor));
    descriptor[10] = 0x33;
    assert!(!is_target_descriptor(&descriptor));
}

fn interface(path: &str) -> InterfaceDetail {
    let mut detail = vec![8, 0, 0, 0];
    for unit in path.encode_utf16().chain([0, 65]) {
        detail.extend(unit.to_le_bytes());
    }
    InterfaceDetail { required: detail.len() as u32, read: true, detail }
}

#[test]
fn control_interfaces_are_found_by_their_path() {
    let target = r"\\?\hid#VID_345F&PID_9132&mi_00#7";
    let interfaces = vec![
        interface(r"\\?\hid#vid_046d&pid_c52b#1"),
        interface(target),
        InterfaceDetail { read: false, ..interface(target) },
        InterfaceDetail { required: 7, ..interface(target) },
    ];
    let expected: Vec<u16> = target.encode_utf16().chain([0]).collect();
    assert_eq!(collect_target_paths(&interfaces), [expected]);
    assert_eq!(detail_size(7), None);
    assert_eq!(detail_size(8), Some(8));
}

#[test]
fn exactly_one_display_is_opened() {
    assert_eq!(Tm360::open(1, 1), Ok(Tm360));
    assert_eq!(Tm360::open(0, 1), Err(DeviceCount { hid: 0, bulk: 1 }));
    assert_eq!(Tm360::open(1, 2), Err(DeviceCount { hid: 1, bulk: 2 }));
    let mut step = Tm360.start();
    for expected in [
        DeviceStep::Initialize,
        DeviceStep::ClaimVideo,
        DeviceStep::WriteFrame,
        DeviceStep::WriteFrameAgain,
        DeviceStep::Enable,
    ] {
        assert_eq!(step, expected);
        assert_eq!(step.next(false), DeviceStep::Failed);
        step = step.next(true);
    }
    assert_eq!(step, DeviceStep::Done);
    assert_eq!(step.next(false), DeviceStep::Done);
}

#[test]
fn diagnosis_says_what_was_found() {
    assert_eq!(
        diagnostic_lines(&Ok(0), &UsbOutcome::Count(0)),
        ["HID 控制接口：未发现", "libusb0 视频接口：未发现"]
    );
    assert_eq!(
        diagnostic_lines(&Ok(2), &UsbOutcome::Count(13)),
        ["HID 控制接口：已发现 2 个匹配接口", "libusb0 视频接口：已发现 13 个 345F:9132 设备"]
    );
    assert_eq!(
        diagnostic_lines(&Err("a".to_owned()), &UsbOutcome::ListFailed("b".to_owned())),
        ["HID 控制接口：枚举失败（a）", "libusb0 视频接口：枚举失败（b）"]
    );
    assert_eq!(
        diagnostic_lines(&Ok(1), &UsbOutcome::LoadFailed("c".to_owned()))[1],
        "libusb0：无法加载（c）"
    );
}
