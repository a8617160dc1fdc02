//! How much the network and the disks transfer.
//!
//! Rates are in mebibytes per second, as bit patterns of single-precision numbers.

use std::collections::HashMap;

use vstd::arithmetic::power2::{
    lemma2_to64, lemma2_to64_rest, lemma_pow2_adds, lemma_pow2_pos, lemma_pow2_strictly_increases,
    lemma_pow2_unfold, pow2,
};
use vstd::prelude::*;
use vstd::std_specs::iter::IteratorSpec;

use crate::bytes::{
    le32, le64, lemma_numbers_are_little_endian, little_endian, read_u32, read_u64,
};
use crate::float::{
    add_floats, convert_float, divide_floats, double, from_integer, is_pattern_of,
    lemma_numbers_are_ordered, lemma_round_bound, lemma_rounded_is_monotone, lemma_rounded_keeps_bound, lemma_whole_bounds, one, pattern, single,
    to_bits, whole, Float, Precision,
};

verus! {

broadcast use vstd::std_specs::hash::group_hash_axioms;

/// The number of bytes of a row in the table of interfaces.
pub const MIB_IF_ROW_SIZE: usize = 1352;

/// The number of bytes before the first row.
pub const MIB_IF_TABLE_HEADER: usize = 8;

/// The number of bytes of a table with one row.
pub const MIB_IF_TABLE_SIZE: usize = 1360;

pub const IF_OPER_STATUS_UP: u32 = 1;

pub const IF_TYPE_SOFTWARE_LOOPBACK: u32 = 24;

/// What has gone through an interface.
#[derive(Clone, Copy, Debug, PartialEq, Eq, Structural)]
pub struct InterfaceCounters {
    pub received: u64,
    pub sent: u64,
}

/// An interface in the table: its number at 0, its kind at 1128, its flags at 1152, its state at 1156,
/// and the bytes it received and sent at 1208 and 1280.
#[derive(Clone, Copy, Debug, PartialEq, Eq, Structural)]
pub struct InterfaceRow {
    pub luid: u64,
    pub interface_type: u32,
    pub flags: u8,
    pub oper_status: u32,
    pub in_octets: u64,
    pub out_octets: u64,
}

/// The row that starts at `offset`.
pub open spec fn row_at(data: Seq<u8>, offset: int) -> InterfaceRow {
    InterfaceRow {
        luid: le64(data, offset) as u64,
        interface_type: le32(data, offset + 1128) as u32,
        flags: data[offset + 1152],
        oper_status: le32(data, offset + 1156) as u32,
        in_octets: le64(data, offset + 1208) as u64,
        out_octets: le64(data, offset + 1280) as u64,
    }
}

/// The number of rows of a table, as far as they are there.
pub open spec fn row_count(data: Seq<u8>) -> int {
    if data.len() < MIB_IF_TABLE_HEADER {
        0
    } else {
        let room = (data.len() - MIB_IF_TABLE_HEADER) / MIB_IF_ROW_SIZE as int;
        if le32(data, 0) < room {
            le32(data, 0)
        } else {
            room
        }
    }
}

/// The interface counts: it is up, it is hardware, and it is not the loopback.
pub open spec fn is_counted(row: InterfaceRow) -> bool {
    row.oper_status == IF_OPER_STATUS_UP && row.interface_type != IF_TYPE_SOFTWARE_LOOPBACK
        && row.flags % 2 == 1
}

/// The counters of the interfaces that count among the first `count` rows.
pub open spec fn counters_of(data: Seq<u8>, count: int) -> Map<u64, InterfaceCounters>
    decreases count,
{
    if count <= 0 {
        Map::empty()
    } else {
        let row = row_at(data, MIB_IF_TABLE_HEADER + (count - 1) * MIB_IF_ROW_SIZE);
        let before = counters_of(data, count - 1);
        if is_counted(row) {
            before.insert(
                row.luid,
                InterfaceCounters { received: row.in_octets, sent: row.out_octets },
            )
        } else {
            before
        }
    }
}

fn read_row(data: &[u8], offset: usize) -> (row: InterfaceRow)
    requires
        offset + MIB_IF_ROW_SIZE <= data.len(),
    ensures
        row == row_at(data@, offset as int),
{
    InterfaceRow {
        luid: read_u64(data, offset),
        interface_type: read_u32(data, offset + 1128),
        flags: data[offset + 1152],
        oper_status: read_u32(data, offset + 1156),
        in_octets: read_u64(data, offset + 1208),
        out_octets: read_u64(data, offset + 1280),
    }
}

/// The counters of all interfaces that count.
pub fn counters(data: &[u8]) -> (counters: HashMap<u64, InterfaceCounters>)
    ensures
        counters@ == counters_of(data@, row_count(data@)),
{
    let mut counters: HashMap<u64, InterfaceCounters> = HashMap::new();
    let length: usize = data.len();
    if length < MIB_IF_TABLE_HEADER {
        return counters;
    }
    let room: usize = (length - MIB_IF_TABLE_HEADER) / MIB_IF_ROW_SIZE;
    let listed: usize = read_u32(data, 0) as usize;
    let count: usize = if listed < room {
        listed
    } else {
        room
    };
    let mut i: usize = 0;
    while i < count
        invariant
            length == data.len(),
            MIB_IF_TABLE_HEADER <= length,
            count * MIB_IF_ROW_SIZE <= length - MIB_IF_TABLE_HEADER,
            i <= count,
            counters@ == counters_of(data@, i as int),
        decreases count - i,
    {
        let row = read_row(data, MIB_IF_TABLE_HEADER + i * MIB_IF_ROW_SIZE);
        if row.oper_status == IF_OPER_STATUS_UP && row.interface_type != IF_TYPE_SOFTWARE_LOOPBACK
            && row.flags % 2 == 1 {
            counters.insert(
                row.luid,
                InterfaceCounters { received: row.in_octets, sent: row.out_octets },
            );
        }
        i = i + 1;
    }
    counters
}

/// How much a counter has grown; a counter that went back has not grown.
pub open spec fn grown(current: u64, previous: u64) -> int {
    if current > previous {
        current - previous
    } else {
        0
    }
}

/// What an interface received, or sent, between two readings; nothing if it was not there before.
pub open spec fn transferred(
    previous: Map<u64, InterfaceCounters>,
    current: Map<u64, InterfaceCounters>,
    interface: u64,
    received: bool,
) -> int {
    if !previous.contains_key(interface) {
        0
    } else if received {
        grown(current[interface].received, previous[interface].received)
    } else {
        grown(current[interface].sent, previous[interface].sent)
    }
}

/// What some interfaces received, or sent, together.
pub open spec fn total_transferred(
    previous: Map<u64, InterfaceCounters>,
    current: Map<u64, InterfaceCounters>,
    interfaces: Set<u64>,
    received: bool,
) -> int
    decreases interfaces.len(),
    when interfaces.finite()
{
    if interfaces.len() == 0 {
        0
    } else {
        let interface = interfaces.choose();
        transferred(previous, current, interface, received) + total_transferred(
            previous,
            current,
            interfaces.remove(interface),
            received,
        )
    }
}

/// It does not matter in which order the interfaces are taken.
proof fn lemma_total_of_one_more(
    previous: Map<u64, InterfaceCounters>,
    current: Map<u64, InterfaceCounters>,
    interfaces: Set<u64>,
    interface: u64,
    received: bool,
)
    requires
        interfaces.finite(),
        interfaces.contains(interface),
    ensures
        total_transferred(previous, current, interfaces, received) == transferred(
            previous,
            current,
            interface,
            received,
        ) + total_transferred(previous, current, interfaces.remove(interface), received),
    decreases interfaces.len(),
{
    let chosen = interfaces.choose();
    assert(interfaces.contains(chosen));
    if chosen != interface {
        lemma_total_of_one_more(previous, current, interfaces.remove(chosen), interface, received);
        lemma_total_of_one_more(previous, current, interfaces.remove(interface), chosen, received);
        assert(interfaces.remove(chosen).remove(interface) =~= interfaces.remove(interface).remove(
            chosen,
        ));
    }
}

proof fn lemma_total_is_not_negative(
    previous: Map<u64, InterfaceCounters>,
    current: Map<u64, InterfaceCounters>,
    interfaces: Set<u64>,
    received: bool,
)
    requires
        interfaces.finite(),
    ensures
        total_transferred(previous, current, interfaces, received) >= 0,
    decreases interfaces.len(),
{
    if interfaces.len() > 0 {
        let chosen = interfaces.choose();
        assert(interfaces.contains(chosen));
        lemma_total_is_not_negative(previous, current, interfaces.remove(chosen), received);
    }
}

/// No more than 64 bits hold.
pub open spec fn capped(value: int) -> int {
    if value > u64::MAX {
        u64::MAX as int
    } else {
        value
    }
}

/// A number of nanoseconds in seconds, in double precision: the whole seconds and what is left.
pub open spec fn seconds_of(elapsed: nat) -> nat {
    double(
        double(whole(elapsed / 1_000_000_000), 1) + double(
            double(whole(elapsed % 1_000_000_000), 1) * one(),
            double(whole(1_000_000_000), 1),
        ),
        1,
    )
}

/// The rate, in mebibytes per second, at which `bytes` were transferred in `elapsed` nanoseconds.
pub open spec fn rate_value(bytes: nat, elapsed: nat) -> nat {
    let mib = double(double(whole(bytes), 1) * one(), double(whole(1_048_576), 1));
    single(double(mib * one(), seconds_of(elapsed)), 1)
}

/// The rate as it is shown; there is none without time.
pub open spec fn rate(bytes: int, elapsed: int) -> Option<u32> {
    if elapsed == 0 {
        None
    } else {
        Some(pattern(rate_value(bytes as nat, elapsed as nat)))
    }
}

/// `found` is the rate at which was received, or sent, between two readings.
pub open spec fn is_rate_between(
    previous: Map<u64, InterfaceCounters>,
    current: Map<u64, InterfaceCounters>,
    elapsed: int,
    received: bool,
    found: Option<u32>,
) -> bool {
    let bytes = capped(total_transferred(previous, current, current.dom(), received));
    found == rate(bytes, elapsed)
}

/// The rate, in mebibytes per second, at which `bytes` were transferred in `elapsed` nanoseconds.
pub fn mib_per_second(bytes: u64, elapsed: u64) -> (result: Option<u32>)
    ensures
        result == rate(bytes as int, elapsed as int),
        result matches Some(found) ==> is_pattern_of(
            found,
            rate_value(bytes as nat, elapsed as nat),
        ),
{
    if elapsed == 0 {
        return None;
    }
    let seconds = find_seconds(elapsed);
    let amount = from_integer(bytes, Precision::Double);
    let unit = from_integer(1_048_576, Precision::Double);
    proof {
        lemma_whole_bounds(bytes, Precision::Double);
        lemma_whole_bounds(1_048_576, Precision::Double);
        lemma_pow2_pos(4000);
        lemma_pow2_pos(4064);
        if unit.digits == 0 {
            assert(0 * pow2(unit.power as nat) == 0);
        }
        let n = amount.value() * one();
        assert(n <= unit.value() * pow2(4064)) by (nonlinear_arith)
            requires
                n == amount.value() * one(),
                amount.value() <= pow2(4064),
                unit.value() >= one(),
        ;
        lemma_round_bound(n, unit.value(), 4064, Precision::Double);
    }
    let mib = divide_floats(amount, unit, Precision::Double);
    proof {
        let n = mib.value() * one();
        let d = seconds.value();
        lemma_pow2_adds(30, 3970);
        lemma_pow2_adds(4064, 4000);
        lemma_pow2_adds(4094, 3970);
        lemma_pow2_pos(3970);
        let top = pow2(4094);
        assert(n <= d * top) by (nonlinear_arith)
            requires
                n == mib.value() * one(),
                mib.value() <= pow2(4064),
                pow2(4064) * one() == top * pow2(3970),
                d >= pow2(3970),
                one() > 0,
                top >= 0,
        ;
        lemma_round_bound(n, d, 4094, Precision::Double);
    }
    let rate = divide_floats(mib, seconds, Precision::Double);
    proof {
        assert(1 * pow2(4094) == pow2(4094));
        lemma_round_bound(rate.value(), 1, 4094, Precision::Single);
        lemma2_to64();
    }
    Some(to_bits(convert_float(rate, Precision::Single)))
}

fn find_seconds(elapsed: u64) -> (seconds: Float)
    requires
        elapsed > 0,
    ensures
        seconds.wf(),
        seconds.power <= 5000,
        seconds.digits > 0,
        seconds.value() == seconds_of(elapsed as nat),
        seconds.value() >= pow2(3970),
{
    let whole_seconds = from_integer(elapsed / 1_000_000_000, Precision::Double);
    let rest = from_integer(elapsed % 1_000_000_000, Precision::Double);
    let billion = from_integer(1_000_000_000, Precision::Double);
    proof {
        lemma_whole_bounds(elapsed / 1_000_000_000, Precision::Double);
        lemma_whole_bounds(elapsed % 1_000_000_000, Precision::Double);
        lemma_whole_bounds(1_000_000_000, Precision::Double);
        lemma_pow2_pos(4000);
        lemma_pow2_pos(4064);
        if billion.digits == 0 {
            assert(0 * pow2(billion.power as nat) == 0);
        }
        let n = rest.value() * one();
        let d = billion.value();
        assert(n <= d * pow2(4064)) by (nonlinear_arith)
            requires
                n == rest.value() * one(),
                rest.value() <= pow2(4064),
                d >= one(),
        ;
        lemma_round_bound(n, d, 4064, Precision::Double);
        if rest.value() >= one() {
            lemma_billionth(rest.value());
        }
    }
    let fraction = divide_floats(rest, billion, Precision::Double);
    proof {
        let sum = whole_seconds.value() + fraction.value();
        lemma_pow2_unfold(4065);
        assert(1 * pow2(4065) == pow2(4065));
        lemma_round_bound(sum, 1, 4065, Precision::Double);
        let least = pow2(3970);
        lemma_pow2_strictly_increases(3970, 4000);
        lemma2_to64();
        lemma2_to64_rest();
        lemma_pow2_pos(3970);
        assert(1 * (1 * least) == least);
        lemma_rounded_keeps_bound(least, 1, 53, 2926, 1, 3970);
        lemma_rounded_is_monotone(least, sum, 1, 53, 2926);
    }
    let seconds = add_floats(whole_seconds, fraction, Precision::Double);
    proof {
        if seconds.digits == 0 {
            assert(0 * pow2(seconds.power as nat) == 0);
        }
    }
    seconds
}

/// A nanosecond is some time.
proof fn lemma_billionth(rest: nat)
    requires
        rest >= one(),
    ensures
        double(rest * one(), double(whole(1_000_000_000), 1)) >= pow2(3970),
{
    let d = whole(1_000_000_000);
    let least = pow2(3970);
    lemma2_to64();
    lemma2_to64_rest();
    lemma_pow2_pos(3970);
    lemma_pow2_adds(30, 3970);
    assert(1 * d == d);
    lemma_rounded_keeps_bound(d, 1, 53, 2926, 1_000_000_000, 4000);
    let n = rest * one();
    assert(d > 0) by (nonlinear_arith)
        requires
            d == 1_000_000_000 * one(),
            one() == 0x4000_0000 * least,
            least > 0,
    ;
    assert(d * least <= n) by (nonlinear_arith)
        requires
            d == 1_000_000_000 * one(),
            n == rest * one(),
            rest >= one(),
            one() == 0x4000_0000 * least,
            least > 0,
    ;
    assert(1 * least == least);
    lemma_rounded_keeps_bound(d * least, d, 53, 2926, 1, 3970);
    lemma_rounded_is_monotone(d * least, n, d, 53, 2926);
}

proof fn lemma_total_of_next(
    previous: Map<u64, InterfaceCounters>,
    current: Map<u64, InterfaceCounters>,
    interfaces: Seq<u64>,
    index: int,
    received: bool,
)
    requires
        0 <= index < interfaces.len(),
        interfaces.no_duplicates(),
    ensures
        total_transferred(previous, current, interfaces.take(index + 1).to_set(), received)
            == transferred(previous, current, interfaces[index], received) + total_transferred(
            previous,
            current,
            interfaces.take(index).to_set(),
            received,
        ),
        total_transferred(previous, current, interfaces.take(index).to_set(), received) >= 0,
{
    let before = interfaces.take(index).to_set();
    let after = interfaces.take(index + 1).to_set();
    let interface = interfaces[index];
    assert(interfaces.take(index + 1)[index] == interface);
    assert(after.contains(interface));
    assert(after.remove(interface) =~= before) by {
        assert forall|other: u64| after.remove(interface).contains(other) implies before.contains(
            other,
        ) by {
            let j = choose|j: int|
                0 <= j < index + 1 && #[trigger] interfaces.take(index + 1)[j] == other;
            assert(interfaces.take(index)[j] == other);
        }
        assert forall|other: u64| before.contains(other) implies after.remove(interface).contains(
            other,
        ) by {
            let j = choose|j: int| 0 <= j < index && #[trigger] interfaces.take(index)[j] == other;
            assert(interfaces.take(index + 1)[j] == other);
            assert(interfaces[j] == other);
        }
    }
    lemma_total_of_one_more(previous, current, after, interface, received);
    lemma_total_is_not_negative(previous, current, before, received);
}

/// The interfaces that have counters.
fn interface_list(counters: &HashMap<u64, InterfaceCounters>) -> (interfaces: Vec<u64>)
    ensures
        interfaces@.no_duplicates(),
        interfaces@.to_set() == counters@.dom(),
{
    let mut interfaces: Vec<u64> = Vec::new();
    let ghost all = counters.keys().remaining();
    for interface in keys: counters.keys()
        invariant
            keys.seq() == all,
            interfaces@.len() == keys.index(),
            forall|i: int| 0 <= i < interfaces@.len() ==> #[trigger] interfaces@[i] == *all[i],
    {
        interfaces.push(*interface);
    }
    proof {
        assert(interfaces@ =~= all.unref());
    }
    interfaces
}

/// The rates at which was received and sent between two readings: every interface that was there at
/// both counts, with what it has transferred in between.
pub fn network_rates(
    previous: &HashMap<u64, InterfaceCounters>,
    current: &HashMap<u64, InterfaceCounters>,
    elapsed: u64,
) -> (rates: (Option<u32>, Option<u32>))
    ensures
        is_rate_between(previous@, current@, elapsed as int, true, rates.0),
        is_rate_between(previous@, current@, elapsed as int, false, rates.1),
{
    let interfaces = interface_list(current);
    let mut received: u64 = 0;
    let mut sent: u64 = 0;
    let mut i: usize = 0;
    proof {
        assert(interfaces@.take(0).to_set() =~= Set::<u64>::empty());
    }
    while i < interfaces.len()
        invariant
            i <= interfaces@.len(),
            interfaces@.no_duplicates(),
            interfaces@.to_set() == current@.dom(),
            received == capped(
                total_transferred(previous@, current@, interfaces@.take(i as int).to_set(), true),
            ),
            sent == capped(
                total_transferred(previous@, current@, interfaces@.take(i as int).to_set(), false),
            ),
        decreases interfaces@.len() - i,
    {
        let interface: u64 = interfaces[i];
        proof {
            assert(interfaces@.to_set().contains(interface));
            lemma_total_of_next(previous@, current@, interfaces@, i as int, true);
            lemma_total_of_next(previous@, current@, interfaces@, i as int, false);
        }
        if let Some(before) = previous.get(&interface) {
            if let Some(now) = current.get(&interface) {
                received = received.saturating_add(now.received.saturating_sub(before.received));
                sent = sent.saturating_add(now.sent.saturating_sub(before.sent));
            }
        }
        i = i + 1;
    }
    proof {
        assert(interfaces@.take(i as int) =~= interfaces@);
    }
    (mib_per_second(received, elapsed), mib_per_second(sent, elapsed))
}

/// The rates that are shown.
#[derive(Clone, Copy, Debug, PartialEq, Eq, Structural)]
pub struct IoSnapshot {
    pub network_down_mib_s: Option<u32>,
    pub network_up_mib_s: Option<u32>,
    pub disk_read_mib_s: Option<u32>,
    pub disk_write_mib_s: Option<u32>,
}

/// A value of a disk counter: the result of asking for it, the state of the value, and the value in
/// mebibytes per second as the bit pattern of a single-precision number.
#[derive(Clone, Copy, Debug, PartialEq, Eq, Structural)]
pub struct DiskValue {
    pub result: i32,
    pub status: u32,
    pub mib_per_second: u32,
}

/// What was read of the disks.
#[derive(Clone, Copy, Debug, PartialEq, Eq, Structural)]
pub enum DiskReading {
    /// There are no disk counters, or they could not be read.
    Unavailable,
    /// The counters that there are.
    Values { read: Option<DiskValue>, write: Option<DiskValue> },
}

/// The bit pattern is that of a number that is neither infinite nor negative.
pub open spec fn is_rate_pattern(bits: u32) -> bool {
    bits < 0x7f80_0000 || bits == 0x8000_0000
}

/// The value that is shown: only one that was read, is valid, and is a rate.
pub open spec fn shown_value(value: DiskValue) -> Option<u32> {
    if value.result == 0 && value.status <= 1 && is_rate_pattern(value.mib_per_second) {
        Some(value.mib_per_second)
    } else {
        None
    }
}

/// The value that is shown of a disk counter.
pub fn disk_value(value: DiskValue) -> (shown: Option<u32>)
    ensures
        shown == shown_value(value),
{
    if value.result == 0 && value.status <= 1 && (value.mib_per_second < 0x7f80_0000
        || value.mib_per_second == 0x8000_0000) {
        Some(value.mib_per_second)
    } else {
        None
    }
}

fn optional_disk_value(value: Option<DiskValue>) -> (shown: Option<u32>)
    ensures
        shown == match value {
            Some(value) => shown_value(value),
            None => None,
        },
{
    match value {
        Some(value) => disk_value(value),
        None => None,
    }
}

/// The last reading of the network.
#[derive(Debug)]
pub struct IoMetrics {
    /// The counters of the last reading, and its time in nanoseconds.
    pub previous: Option<(HashMap<u64, InterfaceCounters>, u64)>,
}

impl IoMetrics {
    /// Begins with a first reading, if there is one.
    pub fn new(counters: Option<HashMap<u64, InterfaceCounters>>, now: u64) -> (metrics: IoMetrics)
        ensures
            match counters {
                None => metrics.previous is None,
                Some(counters) => metrics.previous == Some((counters, now)),
            },
    {
        match counters {
            None => IoMetrics { previous: None },
            Some(counters) => IoMetrics { previous: Some((counters, now)) },
        }
    }

    /// Takes a reading at `now`: the counters of the network, if they could be read, and what was
    /// read of the disks.
    pub fn sample(
        &mut self,
        current: Option<HashMap<u64, InterfaceCounters>>,
        now: u64,
        disk: DiskReading,
    ) -> (snapshot: IoSnapshot)
        ensures
            current is None ==> *final(self) == *old(self),
            current matches Some(counters) ==> final(self).previous == Some((counters, now)),
            match (old(self).previous, current) {
                (Some((previous, at)), Some(counters)) => {
                    let elapsed = if now > at {
                        now - at
                    } else {
                        0
                    };
                    &&& is_rate_between(
                        previous@,
                        counters@,
                        elapsed,
                        true,
                        snapshot.network_down_mib_s,
                    )
                    &&& is_rate_between(
                        previous@,
                        counters@,
                        elapsed,
                        false,
                        snapshot.network_up_mib_s,
                    )
                },
                _ => snapshot.network_down_mib_s is None && snapshot.network_up_mib_s is None,
            },
            snapshot.disk_read_mib_s == match disk {
                DiskReading::Values { read: Some(value), .. } => shown_value(value),
                _ => None,
            },
            snapshot.disk_write_mib_s == match disk {
                DiskReading::Values { write: Some(value), .. } => shown_value(value),
                _ => None,
            },
    {
        let (disk_read_mib_s, disk_write_mib_s) = match disk {
            DiskReading::Unavailable => (None, None),
            DiskReading::Values { read, write } => (
                optional_disk_value(read),
                optional_disk_value(write),
            ),
        };
        let counters = match current {
            None => {
                return IoSnapshot {
                    network_down_mib_s: None,
                    network_up_mib_s: None,
                    disk_read_mib_s,
                    disk_write_mib_s,
                };
            },
            Some(counters) => counters,
        };
        let (network_down_mib_s, network_up_mib_s) = match &self.previous {
            None => (None, None),
            Some((previous, at)) => {
                let elapsed: u64 = if now > *at {
                    now - *at
                } else {
                    0
                };
                network_rates(previous, &counters, elapsed)
            },
        };
        self.previous = Some((counters, now));
        IoSnapshot { network_down_mib_s, network_up_mib_s, disk_read_mib_s, disk_write_mib_s }
    }
}

/// An interface that is new, that is gone, or whose counter went back counts for nothing.
pub proof fn lemma_new_and_reset_interfaces_count_nothing(
    previous: Map<u64, InterfaceCounters>,
    current: Map<u64, InterfaceCounters>,
    interface: u64,
    received: bool,
)
    ensures
        !previous.contains_key(interface) ==> transferred(previous, current, interface, received)
            == 0,
        received && current[interface].received <= previous[interface].received ==> transferred(
            previous,
            current,
            interface,
            received,
        ) == 0,
        !received && current[interface].sent <= previous[interface].sent ==> transferred(
            previous,
            current,
            interface,
            received,
        ) == 0,
{
}

/// What is done next to open the disk counters.
#[derive(Clone, Copy, Debug, PartialEq, Eq, Structural)]
pub enum DiskStep {
    /// Open a query.
    OpenQuery,
    /// Add the counter of what is read.
    AddRead,
    /// Add the counter of what is written; `read` tells that the other one was added.
    AddWrite { read: bool },
    /// Collect for the first time.
    Collect { read: bool, write: bool },
    /// Close the query again.
    Close,
    /// The counters that were added can be read.
    Ready { read: bool, write: bool },
    /// There are no disk counters.
    Unavailable,
}

/// The step after `step`.
pub open spec fn disk_next(step: DiskStep, succeeded: bool) -> DiskStep {
    match step {
        DiskStep::OpenQuery => if succeeded {
            DiskStep::AddRead
        } else {
            DiskStep::Unavailable
        },
        DiskStep::AddRead => DiskStep::AddWrite { read: succeeded },
        DiskStep::AddWrite { read } => if read || succeeded {
            DiskStep::Collect { read, write: succeeded }
        } else {
            DiskStep::Close
        },
        DiskStep::Collect { read, write } => if succeeded {
            DiskStep::Ready { read, write }
        } else {
            DiskStep::Close
        },
        DiskStep::Close => DiskStep::Unavailable,
        _ => step,
    }
}

impl DiskStep {
    /// Begins to open the disk counters.
    pub fn load() -> (step: DiskStep)
        ensures
            step == DiskStep::OpenQuery,
    {
        DiskStep::OpenQuery
    }

    /// Goes on after this step.
    pub fn next(self, succeeded: bool) -> (next: DiskStep)
        ensures
            next == disk_next(self, succeeded),
    {
        match self {
            DiskStep::OpenQuery => {
                if succeeded {
                    DiskStep::AddRead
                } else {
                    DiskStep::Unavailable
                }
            },
            DiskStep::AddRead => DiskStep::AddWrite { read: succeeded },
            DiskStep::AddWrite { read } => {
                if read || succeeded {
                    DiskStep::Collect { read, write: succeeded }
                } else {
                    DiskStep::Close
                }
            },
            DiskStep::Collect { read, write } => {
                if succeeded {
                    DiskStep::Ready { read, write }
                } else {
                    DiskStep::Close
                }
            },
            DiskStep::Close => DiskStep::Unavailable,
            other => other,
        }
    }
}

/// A query that was opened is closed again if it cannot be used, and one that is used has a counter.
pub proof fn lemma_disk_query_is_closed(step: DiskStep, succeeded: bool)
    ensures
        step is AddRead || step is AddWrite || step is Collect ==> disk_next(step, succeeded)
            !is Unavailable,
        step !is Ready ==> (disk_next(step, succeeded) matches DiskStep::Ready { read, write } ==> (
        step == DiskStep::Collect { read, write })),
        step is AddWrite ==> (disk_next(step, succeeded) matches DiskStep::Collect { read, write }
            ==> read || write),
{
}

/// The bytes of row `row` of a table start here.
pub open spec fn row_start(row: int) -> int {
    8 + 1352 * row
}

/// The row is listed in the table, and the table is not cut off before its end.
pub open spec fn has_row(data: Seq<u8>, row: int) -> bool {
    &&& 0 <= row < little_endian(data, 0, 4)
    &&& row_start(row + 1) <= data.len()
}

/// The bytes of a row tell that the interface is up, is not the loopback, and, by the lowest bit of its
/// flags alone, that it is hardware.
pub open spec fn is_hardware_row(data: Seq<u8>, row: int) -> bool {
    &&& little_endian(data, row_start(row) + 1156, 4) == 1
    &&& little_endian(data, row_start(row) + 1128, 4) != 24
    &&& data[row_start(row) + 1152] % 2 == 1
}

proof fn lemma_row(data: Seq<u8>, row: int)
    ensures
        ({
            let read = row_at(data, row_start(row));
            &&& read.luid == little_endian(data, row_start(row), 8)
            &&& read.in_octets == little_endian(data, row_start(row) + 1208, 8)
            &&& read.out_octets == little_endian(data, row_start(row) + 1280, 8)
            &&& is_counted(read) == is_hardware_row(data, row)
        }),
{
    let start = row_start(row);
    lemma_numbers_are_little_endian(data, start);
    lemma_numbers_are_little_endian(data, start + 1128);
    lemma_numbers_are_little_endian(data, start + 1156);
    lemma_numbers_are_little_endian(data, start + 1208);
    lemma_numbers_are_little_endian(data, start + 1280);
}

proof fn lemma_counters_hold_rows(data: Seq<u8>, count: int, row: int)
    requires
        0 <= row < count,
        is_hardware_row(data, row),
        forall|later: int|
            row < later < count && is_hardware_row(data, later) ==> little_endian(
                data,
                #[trigger] row_start(later),
                8,
            ) != little_endian(data, row_start(row), 8),
    ensures
        ({
            let luid = little_endian(data, row_start(row), 8) as u64;
            &&& counters_of(data, count).contains_key(luid)
            &&& counters_of(data, count)[luid].received == little_endian(
                data,
                row_start(row) + 1208,
                8,
            )
            &&& counters_of(data, count)[luid].sent == little_endian(
                data,
                row_start(row) + 1280,
                8,
            )
        }),
    decreases count,
{
    lemma_row(data, count - 1);
    lemma_row(data, row);
    assert(row_start(count - 1) == MIB_IF_TABLE_HEADER + (count - 1) * MIB_IF_ROW_SIZE);
    if row < count - 1 {
        lemma_counters_hold_rows(data, count - 1, row);
    }
}

proof fn lemma_counters_come_of_rows(data: Seq<u8>, count: int, luid: u64) -> (row: int)
    requires
        count >= 0,
        counters_of(data, count).contains_key(luid),
    ensures
        0 <= row < count,
        is_hardware_row(data, row),
        little_endian(data, row_start(row), 8) == luid,
    decreases count,
{
    lemma_row(data, count - 1);
    assert(row_start(count - 1) == MIB_IF_TABLE_HEADER + (count - 1) * MIB_IF_ROW_SIZE);
    if is_hardware_row(data, count - 1) && little_endian(data, row_start(count - 1), 8) == luid {
        count - 1
    } else {
        lemma_counters_come_of_rows(data, count - 1, luid)
    }
}

proof fn lemma_row_count(data: Seq<u8>, row: int)
    ensures
        has_row(data, row) ==> row < row_count(data),
        0 <= row < row_count(data) ==> has_row(data, row),
{
    lemma_numbers_are_little_endian(data, 0);
    reveal_with_fuel(little_endian, 5);
}

/// Every interface that is up, hardware, and not the loopback is counted with the bytes that it has
/// received and sent, whatever else its flags say; if its number comes twice, the last row counts.
pub proof fn lemma_hardware_interfaces_count(
    data: &[u8],
    found: HashMap<u64, InterfaceCounters>,
    row: int,
)
    requires
        call_ensures(counters, (data,), found),
        data@.len() >= 8,
        has_row(data@, row),
        is_hardware_row(data@, row),
        forall|later: int|
            row < later && has_row(data@, later) && is_hardware_row(data@, later) ==> little_endian(
                data@,
                #[trigger] row_start(later),
                8,
            ) != little_endian(data@, row_start(row), 8),
    ensures
        ({
            let luid = little_endian(data@, row_start(row), 8) as u64;
            &&& found@.contains_key(luid)
            &&& found@[luid].received == little_endian(data@, row_start(row) + 1208, 8)
            &&& found@[luid].sent == little_endian(data@, row_start(row) + 1280, 8)
        }),
{
    let count = row_count(data@);
    lemma_row_count(data@, row);
    assert forall|later: int|
        row < later < count && is_hardware_row(data@, later) implies little_endian(
        data@,
        #[trigger] row_start(later),
        8,
    ) != little_endian(data@, row_start(row), 8) by {
        lemma_row_count(data@, later);
    }
    lemma_counters_hold_rows(data@, count, row);
}

/// No other interface is counted.
pub proof fn lemma_only_hardware_interfaces_count(
    data: &[u8],
    found: HashMap<u64, InterfaceCounters>,
    luid: u64,
) -> (row: int)
    requires
        call_ensures(counters, (data,), found),
        found@.contains_key(luid),
    ensures
        has_row(data@, row),
        is_hardware_row(data@, row),
        little_endian(data@, row_start(row), 8) == luid,
{
    let row = lemma_counters_come_of_rows(data@, row_count(data@), luid);
    lemma_row_count(data@, row);
    row
}

/// By how much the counters of some interfaces have grown together; an interface that was not there
/// before, or whose counter went back, adds nothing.
pub open spec fn sum_of_growth(
    previous: Map<u64, InterfaceCounters>,
    current: Map<u64, InterfaceCounters>,
    interfaces: Seq<u64>,
    received: bool,
) -> int
    decreases interfaces.len(),
{
    if interfaces.len() == 0 {
        0
    } else {
        let interface = interfaces.last();
        let was = if received {
            previous[interface].received
        } else {
            previous[interface].sent
        };
        let is = if received {
            current[interface].received
        } else {
            current[interface].sent
        };
        sum_of_growth(previous, current, interfaces.drop_last(), received) + if previous.contains_key(
            interface,
        ) && is > was {
            is - was
        } else {
            0
        }
    }
}

proof fn lemma_sum_of_growth(
    previous: Map<u64, InterfaceCounters>,
    current: Map<u64, InterfaceCounters>,
    interfaces: Seq<u64>,
    received: bool,
)
    requires
        interfaces.no_duplicates(),
    ensures
        sum_of_growth(previous, current, interfaces, received) == total_transferred(
            previous,
            current,
            interfaces.to_set(),
            received,
        ),
    decreases interfaces.len(),
{
    if interfaces.len() == 0 {
        assert(interfaces.to_set() =~= Set::<u64>::empty());
    } else {
        let index = interfaces.len() - 1;
        lemma_sum_of_growth(previous, current, interfaces.drop_last(), received);
        lemma_total_of_next(previous, current, interfaces, index, received);
        assert(interfaces.take(index) =~= interfaces.drop_last());
        assert(interfaces.take(index + 1) =~= interfaces);
    }
}

/// The rates of the network are those at which the growth of all interfaces together, received and sent
/// each for itself, was transferred; growth that no number of 64 bits holds is cut off there.
pub proof fn lemma_network_rates_add_up(
    previous: &HashMap<u64, InterfaceCounters>,
    current: &HashMap<u64, InterfaceCounters>,
    elapsed: u64,
    rates: (Option<u32>, Option<u32>),
    interfaces: Seq<u64>,
    received: u64,
    down: Option<u32>,
    sent: u64,
    up: Option<u32>,
)
    requires
        call_ensures(network_rates, (previous, current, elapsed), rates),
        interfaces.no_duplicates(),
        interfaces.to_set() == current@.dom(),
        received == if sum_of_growth(previous@, current@, interfaces, true)
            <= 0xffff_ffff_ffff_ffff {
            sum_of_growth(previous@, current@, interfaces, true)
        } else {
            0xffff_ffff_ffff_ffff
        },
        sent == if sum_of_growth(previous@, current@, interfaces, false) <= 0xffff_ffff_ffff_ffff {
            sum_of_growth(previous@, current@, interfaces, false)
        } else {
            0xffff_ffff_ffff_ffff
        },
        call_ensures(mib_per_second, (received, elapsed), down),
        call_ensures(mib_per_second, (sent, elapsed), up),
    ensures
        rates == (down, up),
{
    lemma_sum_of_growth(previous@, current@, interfaces, true);
    lemma_sum_of_growth(previous@, current@, interfaces, false);
}

/// Time that has passed is something in seconds, too.
proof fn lemma_seconds_of(elapsed: u64)
    requires
        elapsed > 0,
    ensures
        seconds_of(elapsed as nat) > 0,
{
    let whole_seconds = double(whole(elapsed as nat / 1_000_000_000), 1);
    let rest = double(whole(elapsed as nat % 1_000_000_000), 1);
    let fraction = double(rest * one(), double(whole(1_000_000_000), 1));
    let least = pow2(3970);
    lemma_whole_bounds(elapsed / 1_000_000_000, Precision::Double);
    lemma_whole_bounds(elapsed % 1_000_000_000, Precision::Double);
    if rest >= one() {
        lemma_billionth(rest);
    }
    lemma_pow2_strictly_increases(3970, 4000);
    lemma2_to64();
    lemma2_to64_rest();
    lemma_pow2_pos(3970);
    assert(1 * (1 * least) == least);
    lemma_rounded_keeps_bound(least, 1, 53, 2926, 1, 3970);
    lemma_rounded_is_monotone(least, whole_seconds + fraction, 1, 53, 2926);
}

/// There is a rate if and only if time has passed, and more bytes in the same time give no lower one.
pub proof fn lemma_more_bytes_are_not_slower(
    bytes: u64,
    more: u64,
    elapsed: u64,
    slow: Option<u32>,
    fast: Option<u32>,
)
    requires
        bytes <= more,
        call_ensures(mib_per_second, (bytes, elapsed), slow),
        call_ensures(mib_per_second, (more, elapsed), fast),
    ensures
        slow is Some <==> elapsed > 0,
        elapsed > 0 ==> slow->Some_0 <= fast->Some_0 < 0x7f80_0000,
{
    if elapsed > 0 {
        let low = slow->Some_0;
        let high = fast->Some_0;
        let unit = double(whole(1_048_576), 1);
        lemma_pow2_pos(4000);
        lemma_whole_bounds(1_048_576, Precision::Double);
        lemma_seconds_of(elapsed);
        assert(whole(bytes as nat) <= whole(more as nat)) by (nonlinear_arith)
            requires
                bytes <= more,
                whole(bytes as nat) == bytes * one(),
                whole(more as nat) == more * one(),
        ;
        lemma_rounded_is_monotone(whole(bytes as nat), whole(more as nat), 1, 53, 2926);
        let a = double(whole(bytes as nat), 1);
        let b = double(whole(more as nat), 1);
        assert(a * one() <= b * one()) by (nonlinear_arith)
            requires
                a <= b,
        ;
        lemma_rounded_is_monotone(a * one(), b * one(), unit, 53, 2926);
        let p = double(a * one(), unit);
        let q = double(b * one(), unit);
        assert(p * one() <= q * one()) by (nonlinear_arith)
            requires
                p <= q,
        ;
        let seconds = seconds_of(elapsed as nat);
        lemma_rounded_is_monotone(p * one(), q * one(), seconds, 53, 2926);
        lemma_rounded_is_monotone(
            double(p * one(), seconds),
            double(q * one(), seconds),
            1,
            24,
            3851,
        );
        if high < low {
            lemma_numbers_are_ordered(high, low);
        }
    }
}

/// A disk value is shown as it is if it was read without an error, is valid or new, and is a number that
/// is not negative and not endless; otherwise none is shown.
pub proof fn lemma_valid_disk_values_are_shown(value: DiskValue, shown: Option<u32>)
    requires
        call_ensures(disk_value, (value,), shown),
    ensures
        shown is Some <==> value.result == 0 && value.status <= 1 && (value.mib_per_second
            < 0x7f80_0000 || value.mib_per_second == 0x8000_0000),
        shown matches Some(found) ==> found == value.mib_per_second,
{
}

/// A sample tells the rates since the sample before it, and the values of the disks.
pub proof fn lemma_sample_tells_the_rates_since_the_last(
    metrics: &mut IoMetrics,
    current: HashMap<u64, InterfaceCounters>,
    now: u64,
    disk: DiskReading,
    snapshot: IoSnapshot,
    before: HashMap<u64, InterfaceCounters>,
    at: u64,
    rates: (Option<u32>, Option<u32>),
)
    requires
        call_ensures(IoMetrics::sample, (metrics, Some(current), now, disk), snapshot),
        old(metrics).previous == Some((before, at)),
        at <= now,
        call_ensures(network_rates, (&before, &current, (now - at) as u64), rates),
    ensures
        snapshot.network_down_mib_s == rates.0,
        snapshot.network_up_mib_s == rates.1,
        final(metrics).previous == Some((current, now)),
        disk is Unavailable ==> snapshot.disk_read_mib_s is None && snapshot.disk_write_mib_s is None,
{
}

/// The disk counters: each is used if it could be added, none of them is used if the other could not be
/// added either or nothing could be collected, and a query that was opened in vain is closed.
pub proof fn lemma_disk_counters_are_opened(step: DiskStep, succeeded: bool, next: DiskStep)
    requires
        call_ensures(DiskStep::next, (step, succeeded), next),
    ensures
        step is OpenQuery ==> (succeeded ==> next is AddRead) && (!succeeded ==> next is Unavailable),
        step is AddRead ==> (next matches DiskStep::AddWrite { read } && read == succeeded),
        step matches DiskStep::AddWrite { read } ==> if read || succeeded {
            next == (DiskStep::Collect { read, write: succeeded })
        } else {
            next is Close
        },
        step matches DiskStep::Collect { read, write } ==> if succeeded {
            next == (DiskStep::Ready { read, write })
        } else {
            next is Close
        },
        step is Close ==> next is Unavailable,
        step is Ready || step is Unavailable ==> next == step,
{
}

/// The first counters are those that later ones are compared with, if there are any; the disk counters are
/// opened from their query on.
pub proof fn lemma_metrics_begin(
    counters: Option<HashMap<u64, InterfaceCounters>>,
    now: u64,
    metrics: IoMetrics,
    first: DiskStep,
)
    requires
        call_ensures(IoMetrics::new, (counters, now), metrics),
        call_ensures(DiskStep::load, (), first),
    ensures
        counters is None ==> metrics.previous is None,
        counters matches Some(counters) ==> metrics.previous == Some((counters, now)),
        first is OpenQuery,
{
}

} // verus!
