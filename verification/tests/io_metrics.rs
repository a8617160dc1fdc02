use std::collections::HashMap;
use std::time::Duration;

use looppanel::io_metrics::{
    counters, disk_value, mib_per_second, network_rates, DiskReading, DiskStep, DiskValue,
    InterfaceCounters, IoMetrics, MIB_IF_ROW_SIZE, MIB_IF_TABLE_HEADER, MIB_IF_TABLE_SIZE,
};

const SECOND: u64 = 1_000_000_000;

#[test]
fn mib_rate_uses_the_actual_interval() {
    assert_eq!(mib_per_second(1024 * 1024, 500_000_000), Some(2.0_f32.to_bits()));
    assert_eq!(mib_per_second(1, 0), None);
}

#[test]
fn rates_are_those_of_double_precision() {
    let times = [1, 3, 249_999_999, 250_000_001, 1_000_000_007, 60_123_456_789, u64::MAX];
    for bytes in [0, 1, 999, 1_048_577, 123_456_789_012, (1 << 53) + 1, u64::MAX] {
        for elapsed in times {
            let seconds = Duration::from_nanos(elapsed).as_secs_f64();
            let expected = (bytes as f64 / (1024.0 * 1024.0) / seconds) as f32;
            assert_eq!(mib_per_second(bytes, elapsed), Some(expected.to_bits()));
        }
    }
}

#[test]
fn network_delta_ignores_new_removed_and_reset_interfaces() {
    let previous = HashMap::from([
        (1, InterfaceCounters { received: 100, sent: 200 }),
        (2, InterfaceCounters { received: 900, sent: 900 }),
        (4, InterfaceCounters { received: 500, sent: 500 }),
    ]);
    let current = HashMap::from([
        (
            1,
            InterfaceCounters {
                received: 100 + 1024 * 1024,
                sent: 200 + 2 * 1024 * 1024,
            },
        ),
        (3, InterfaceCounters { received: u64::MAX, sent: u64::MAX }),
        (4, InterfaceCounters { received: 10, sent: 10 }),
    ]);

    assert_eq!(
        network_rates(&previous, &current, SECOND),
        (Some(1.0_f32.to_bits()), Some(2.0_f32.to_bits()))
    );
}

#[test]
fn mib_if_row_matches_the_x64_windows_layout() {
    assert_eq!(MIB_IF_ROW_SIZE, 1352);
    assert_eq!(MIB_IF_TABLE_SIZE, 1360);
}

fn row(luid: u64, kind: u32, flags: u8, status: u32, received: u64, sent: u64) -> Vec<u8> {
    let mut row = vec![0; MIB_IF_ROW_SIZE];
    row[..8].copy_from_slice(&luid.to_le_bytes());
    row[1128..1132].copy_from_slice(&kind.to_le_bytes());
    row[1152] = flags;
    row[1156..1160].copy_from_slice(&status.to_le_bytes());
    row[1208..1216].copy_from_slice(&received.to_le_bytes());
    row[1280..1288].copy_from_slice(&sent.to_le_bytes());
    row
}

fn table(rows: &[Vec<u8>]) -> Vec<u8> {
    let mut table = vec![0; MIB_IF_TABLE_HEADER];
    table[..4].copy_from_slice(&(rows.len() as u32).to_le_bytes());
    for row in rows {
        table.extend_from_slice(row);
    }
    table
}

#[test]
fn only_hardware_interfaces_that_are_up_count() {
    let table = table(&[
        row(7, 6, 1, 1, 100, 200),
        row(8, 24, 1, 1, 1, 1),
        row(9, 6, 1, 2, 1, 1),
        row(10, 71, 1, 1, 3, 4),
        row(11, 6, 0, 1, 1, 1),
    ]);
    let found = counters(&table);
    assert_eq!(found.get(&7), Some(&InterfaceCounters { received: 100, sent: 200 }));
    assert_eq!(found.get(&10), Some(&InterfaceCounters { received: 3, sent: 4 }));
    assert_eq!(found.get(&8), None);
    assert_eq!(found.get(&9), None);
    assert_eq!(found.get(&11), None);
    assert_eq!(found.len(), 2);
}

#[test]
fn rates_need_two_readings() {
    let reading = |received: u64| {
        Some(HashMap::from([(1_u64, InterfaceCounters { received, sent: 0 })]))
    };
    let mut metrics = IoMetrics::new(None, 0);
    let first = metrics.sample(reading(1), SECOND, DiskReading::Unavailable);
    assert_eq!(first.network_down_mib_s, None);
    let failed = metrics.sample(None, 2 * SECOND, DiskReading::Unavailable);
    assert_eq!(failed.network_down_mib_s, None);
    let second = metrics.sample(reading(1 + 4 * 1024 * 1024), 3 * SECOND, DiskReading::Unavailable);
    assert_eq!(second.network_down_mib_s, Some(2.0_f32.to_bits()));
    assert_eq!(second.network_up_mib_s, Some(0));
    let same_time = metrics.sample(reading(99), 3 * SECOND, DiskReading::Unavailable);
    assert_eq!(same_time.network_down_mib_s, None);
}

fn disk(result: i32, status: u32, rate: f32) -> DiskValue {
    DiskValue { result, status, mib_per_second: rate.to_bits() }
}

#[test]
fn only_valid_disk_values_are_shown() {
    assert_eq!(disk_value(disk(0, 0, 67.8)), Some(67.8_f32.to_bits()));
    assert_eq!(disk_value(disk(0, 1, 0.0)), Some(0));
    assert_eq!(disk_value(disk(1, 0, 67.8)), None);
    assert_eq!(disk_value(disk(0, 2, 67.8)), None);
    assert_eq!(disk_value(disk(0, 0, -1.0)), None);
    assert_eq!(disk_value(disk(0, 0, f32::NAN)), None);
    assert_eq!(disk_value(disk(0, 0, f32::INFINITY)), None);
    let mut metrics = IoMetrics::new(None, 0);
    let values = DiskReading::Values { read: Some(disk(0, 0, 9.1)), write: None };
    let snapshot = metrics.sample(None, 1, values);
    assert_eq!(snapshot.disk_read_mib_s, Some(9.1_f32.to_bits()));
    assert_eq!(snapshot.disk_write_mib_s, None);
}

#[test]
fn disk_query_is_closed_if_it_is_of_no_use() {
    let opened = DiskStep::load().next(true);
    assert_eq!(opened, DiskStep::AddRead);
    assert_eq!(DiskStep::load().next(false), DiskStep::Unavailable);
    assert_eq!(opened.next(false).next(false), DiskStep::Close);
    let one = opened.next(false).next(true);
    assert_eq!(one, DiskStep::Collect { read: false, write: true });
    assert_eq!(one.next(true), DiskStep::Ready { read: false, write: true });
    assert_eq!(one.next(false), DiskStep::Close);
    assert_eq!(DiskStep::Close.next(true), DiskStep::Unavailable);
}
