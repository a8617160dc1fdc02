use looppanel::io_metrics::IoSnapshot;
use looppanel::monitor::{
    average, average_u32, cpu_topology, memory_usage, physical_core_averages, processor_mhz,
    processor_times, split_core_values, to_gib, CoreValue, CpuThread, GpuQueries, GpuSample,
    GpuStep, MemoryQuery, Monitor, ProcessorTimes, Query, Readings, Snapshot,
};

fn thread(group: u16, logical_index: u8, core_index: u8, efficiency_class: u8) -> CpuThread {
    CpuThread { group, logical_index, core_index, efficiency_class }
}

fn bits(values: &[f32]) -> Vec<u32> {
    values.iter().map(|value| value.to_bits()).collect()
}

#[test]
fn physical_cores_average_sibling_threads_and_split_by_efficiency() {
    let topology = [thread(0, 0, 0, 8), thread(0, 1, 0, 8), thread(0, 2, 1, 0)];
    let cores = physical_core_averages(&topology, &bits(&[20.0, 40.0, 60.0]));
    let (performance, efficiency) = split_core_values(&cores);
    assert_eq!(performance, bits(&[30.0]));
    assert_eq!(efficiency, bits(&[60.0]));
}

#[test]
fn homogeneous_cpu_is_reported_once() {
    let cores = vec![
        CoreValue { efficiency_class: 0, value: 10.0_f32.to_bits() },
        CoreValue { efficiency_class: 0, value: 20.0_f32.to_bits() },
    ];
    let (performance, efficiency) = split_core_values(&cores);
    assert_eq!(performance, bits(&[10.0, 20.0]));
    assert!(efficiency.is_empty());
}

#[test]
fn cores_between_the_classes_are_left_out() {
    let cores = vec![
        CoreValue { efficiency_class: 1, value: 1 },
        CoreValue { efficiency_class: 0, value: 2 },
        CoreValue { efficiency_class: 2, value: 3 },
        CoreValue { efficiency_class: 2, value: 4 },
    ];
    assert_eq!(split_core_values(&cores), (vec![3, 4], vec![2]));
    assert_eq!(split_core_values(&vec![]), (vec![], vec![]));
}

#[test]
fn cores_of_different_groups_are_apart() {
    let topology = [thread(0, 0, 0, 0), thread(1, 0, 0, 0), thread(0, 1, 0, 0)];
    let cores = physical_core_averages(&topology, &bits(&[2.0, 10.0, 4.0]));
    let mut values: Vec<u32> = cores.iter().map(|core| core.value).collect();
    values.sort_unstable();
    assert_eq!(values, bits(&[3.0, 10.0]));
    assert_eq!(physical_core_averages(&topology, &bits(&[2.0])).len(), 1);
}

#[test]
fn averages_are_means() {
    assert_eq!(average(&bits(&[1.0, 2.0, 6.0])), Some(3.0_f32.to_bits()));
    assert_eq!(average(&bits(&[45.333333, 45.666666])), Some(45.5_f32.to_bits()));
    assert_eq!(average(&vec![]), None);
    assert_eq!(average_u32(&bits(&[3_400.0, 3_401.0])), Some(3_401));
    assert_eq!(average_u32(&bits(&[3_400.0, 3_400.5])), Some(3_400));
    assert_eq!(average_u32(&bits(&[4.0e9, 4.29e9])), Some(4_144_999_936));
    assert_eq!(average_u32(&bits(&[1.0e10])), Some(u32::MAX));
    assert_eq!(average_u32(&vec![]), None);
}

#[test]
fn means_are_those_of_single_precision() {
    let mut state = 7_u32;
    let mut value = || {
        state = state.wrapping_mul(1_664_525).wrapping_add(1_013_904_223);
        (state >> 8) as f32 / 167_772.16
    };
    for count in 1..40_u16 {
        let values: Vec<f32> = (0..count).map(|_| value()).collect();
        let expected = values.iter().sum::<f32>() / values.len() as f32;
        assert_eq!(average(&bits(&values)), Some(expected.to_bits()));
        assert_eq!(average_u32(&bits(&values)), Some(expected.round() as u32));

        let topology: Vec<CpuThread> = (0..count).map(|i| thread(0, i as u8, 0, 0)).collect();
        let sum: f64 = values.iter().map(|value| f64::from(*value)).sum();
        let mean = (sum / f64::from(count)) as f32;
        let cores = physical_core_averages(&topology, &bits(&values));
        assert_eq!(cores.len(), 1);
        assert_eq!(cores[0].value, mean.to_bits());
    }
}

fn described(kind: u32, group: u16, logical: u8, core: u8, class: u8) -> Vec<u8> {
    let mut entry = vec![0_u8; 32];
    entry[..4].copy_from_slice(&32_u32.to_le_bytes());
    entry[4..8].copy_from_slice(&kind.to_le_bytes());
    entry[12..14].copy_from_slice(&group.to_le_bytes());
    entry[14] = logical;
    entry[15] = core;
    entry[18] = class;
    entry
}

#[test]
fn processors_are_listed_in_order() {
    let mut data = described(0, 1, 0, 0, 3);
    data.extend(described(0, 0, 2, 1, 0));
    data.extend(described(1, 0, 9, 9, 9));
    data.extend(described(0, 0, 1, 0, 8));
    assert_eq!(
        cpu_topology(&data),
        [thread(0, 1, 0, 8), thread(0, 2, 1, 0), thread(1, 0, 0, 3)]
    );
    data.truncate(100);
    assert_eq!(cpu_topology(&data).len(), 2);
    assert!(cpu_topology(&[]).is_empty());
    assert!(cpu_topology(&[0; 64]).is_empty());
}

fn times(idle: i64, kernel: i64, user: i64) -> ProcessorTimes {
    ProcessorTimes { idle, kernel, user }
}

#[test]
fn load_is_the_time_that_was_not_idle() {
    assert_eq!(times(30, 60, 40).usage_since(times(0, 0, 0)), 70.0_f32.to_bits());
    assert_eq!(times(0, 0, 0).usage_since(times(0, 0, 0)), 0);
    assert_eq!(times(50, 10, 10).usage_since(times(0, 0, 0)), 0);
    assert_eq!(times(0, 9, 0).usage_since(times(5, 0, 5)), 100.0_f32.to_bits());
    assert_eq!(times(1, 3, 0).usage_since(times(0, 0, 0)), 66.666_664_f32.to_bits());
}

#[test]
fn loads_are_those_of_double_precision() {
    let counts = [0, 1, 3, 7, 99, 12_345, 2_500_001, 1 << 53, (1 << 61) + 3, i64::MAX];
    for idle in counts {
        for kernel in counts {
            for user in counts {
                let total = kernel as f64 + user as f64;
                let expected = if total == 0.0 {
                    0.0
                } else {
                    (100.0 * (1.0 - idle as f64 / total)).clamp(0.0, 100.0) as f32
                };
                let load = times(idle, kernel, user).usage_since(times(0, 0, 0));
                assert_eq!(load, expected.to_bits(), "{idle} {kernel} {user}");
            }
        }
    }
}

#[test]
fn answers_of_the_system_are_read() {
    let mut data = vec![0_u8; 96];
    data[..8].copy_from_slice(&5_i64.to_le_bytes());
    data[8..16].copy_from_slice(&(-7_i64).to_le_bytes());
    data[64..72].copy_from_slice(&i64::MAX.to_le_bytes());
    assert_eq!(
        processor_times(0, &data),
        Some(vec![times(5, -7, 0), times(0, 0, i64::MAX)])
    );
    assert_eq!(processor_times(-1, &data), None);
    assert_eq!(processor_times(0, &[]), None);

    let mut power = vec![0_u8; 48];
    power[8..12].copy_from_slice(&3_400_u32.to_le_bytes());
    power[32..36].copy_from_slice(&800_u32.to_le_bytes());
    assert_eq!(processor_mhz(0, &power), Some(vec![3_400, 800]));
    assert_eq!(processor_mhz(-5, &power), None);
    assert_eq!(processor_mhz(0, &[]), None);
}

#[test]
fn memory_is_told_in_gibibytes() {
    assert_eq!(to_gib(3 << 29), 1.5_f32.to_bits());
    for bytes in [1, 3, 17_179_869_183, 68_719_476_737, u64::MAX / 3, u64::MAX] {
        assert_eq!(to_gib(bytes), (bytes as f32 / 1024.0_f32.powi(3)).to_bits());
    }
    let used_and_total = (31.0_f32.to_bits(), 64.0_f32.to_bits());
    assert_eq!(memory_usage(64 << 30, 33 << 30), used_and_total);
    assert_eq!(memory_usage(1 << 30, 2 << 30), (0, 1.0_f32.to_bits()));
}

fn queries() -> GpuQueries {
    let good = |value: u32| Query { result: 0, value };
    GpuQueries {
        utilization: good(35),
        temperature: good(63),
        power_mw: Some(good(116_000)),
        power_limit_mw: Some(Query { result: 3, value: 400_000 }),
        memory: Some(MemoryQuery { result: 0, used: 6 << 30, total: 16 << 30 }),
        graphics_clock_mhz: Some(good(2_505)),
        memory_clock_mhz: None,
        performance_state: Some(good(2)),
        fan_percent: Some(Query { result: 3, value: 41 }),
    }
}

#[test]
fn graphics_card_tells_what_it_can() {
    let sample = GpuSample::from_queries(queries());
    assert_eq!(sample.percent, Some(35));
    assert_eq!(sample.temperature, Some(63));
    assert_eq!(sample.power_w, Some(116.0_f32.to_bits()));
    assert_eq!(sample.power_limit_w, None);
    assert_eq!(sample.memory_used_bytes, Some(6 << 30));
    assert_eq!(sample.memory_total_bytes, Some(16 << 30));
    assert_eq!(sample.graphics_clock_mhz, Some(2_505));
    assert_eq!(sample.memory_clock_mhz, None);
    assert_eq!(sample.performance_state, Some(2));
    assert_eq!(sample.fan_percent, None);
    let failed = GpuQueries {
        utilization: Query { result: 1, value: 0 },
        memory: Some(MemoryQuery { result: 1, used: 1, total: 1 }),
        ..queries()
    };
    assert_eq!(GpuSample::from_queries(failed).percent, None);
    assert_eq!(GpuSample::from_queries(failed).memory_total_bytes, None);
}

#[test]
fn graphics_driver_is_shut_down_if_there_is_no_card() {
    let started = GpuStep::load().next(true).next(true).next(true);
    assert_eq!(started, GpuStep::GetDevice);
    assert_eq!(started.next(true), GpuStep::Ready);
    assert_eq!(started.next(false), GpuStep::Shutdown);
    assert_eq!(GpuStep::Shutdown.next(true), GpuStep::Unavailable);
    assert_eq!(GpuStep::load().next(false), GpuStep::Unavailable);
}

fn readings(times: Option<Vec<ProcessorTimes>>) -> Readings {
    Readings {
        times,
        mhz: Some(vec![4_800, 4_600, 3_400]),
        temperature: Some(47),
        memory: Some((64 << 30, 33 << 30)),
        gpu: None,
        io: IoSnapshot {
            network_down_mib_s: Some(7),
            network_up_mib_s: None,
            disk_read_mib_s: None,
            disk_write_mib_s: None,
        },
    }
}

#[test]
fn sample_brings_everything_together() {
    let topology = vec![thread(0, 0, 0, 8), thread(0, 1, 0, 8), thread(0, 2, 1, 0)];
    let start = vec![times(0, 0, 0); 3];
    let mut monitor = Monitor::new(topology, 99, Some(start));
    assert_eq!(monitor.cpu_count, 3);
    assert_eq!(monitor.prime(), 250);
    assert_eq!(monitor.times_wanted(), 3);
    let now = vec![times(80, 100, 0), times(60, 100, 0), times(40, 100, 0)];
    let snapshot = monitor.sample(readings(Some(now)));
    assert_eq!(snapshot.cpu_percent, Some(40.0_f32.to_bits()));
    assert_eq!(snapshot.cpu_p_core_loads, bits(&[30.0]));
    assert_eq!(snapshot.cpu_e_core_loads, bits(&[60.0]));
    assert_eq!(snapshot.cpu_p_mhz, Some(4_700));
    assert_eq!(snapshot.cpu_e_mhz, Some(3_400));
    assert_eq!(snapshot.cpu_temperature, Some(47));
    assert_eq!(snapshot.memory_used_gib, 31.0_f32.to_bits());
    assert_eq!(snapshot.gpu, GpuSample::unknown());
    assert_eq!(snapshot.io.network_down_mib_s, Some(7));

    let missing = monitor.sample(readings(None));
    assert_eq!(missing.cpu_percent, None);
    assert!(missing.cpu_p_core_loads.is_empty());
    let later = vec![times(80, 200, 0), times(60, 200, 0), times(40, 200, 0)];
    assert_eq!(monitor.sample(readings(Some(later))).cpu_percent, Some(100.0_f32.to_bits()));
}

#[test]
fn processors_that_are_not_described_are_counted() {
    let monitor = Monitor::new(vec![], 12, None);
    assert_eq!(monitor.cpu_count, 12);
    assert_eq!(monitor.times_wanted(), 12);
    let unknown = Snapshot::default();
    assert_eq!(unknown.cpu_percent, None);
    assert_eq!(unknown.gpu, GpuSample::unknown());
}
