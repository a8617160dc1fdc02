//! What the system reports of its processor, memory and graphics card.
//!
//! Loads, frequencies, sizes and powers with a fraction are bit patterns of single-precision numbers.

use vstd::arithmetic::div_mod::lemma_fundamental_div_mod;
use vstd::arithmetic::power2::{
    lemma2_to64, lemma2_to64_rest, lemma_pow2_adds, lemma_pow2_pos, lemma_pow2_strictly_increases,
    lemma_pow2_unfold, pow2,
};
use vstd::prelude::*;
use vstd::seq_lib::{to_multiset_build, to_multiset_insert};

use crate::bytes::{
    le16, le32, le64, lemma_numbers_are_little_endian, little_endian, read_i64, read_u16, read_u32, signed64,
};
use crate::float::{
    add_floats, convert_float, divide_floats, divide_integers, double, from_bits, from_integer,
    is_amount, is_less, is_mean, is_pattern_of, lemma_amount, lemma_numbers_are_ordered,
    lemma_pattern, lemma_power_bound, lemma_power_least, lemma_quotient_bound, lemma_quotient_is_close,
    lemma_rounded_is_kept,
    lemma_rounded_is_monotone, lemma_rounded_keeps_bound, lemma_rounded_stays, lemma_single_has_pattern, lemma_whole_bounds,
    lemma_whole_is_close,
    multiply_floats, number, one, pattern, quotient, rest_of_one, round_to_whole, rounded_whole,
    single, to_bits, whole, Float, Precision,
};
use crate::io_metrics::IoSnapshot;
use crate::single::{exponent, significand};

verus! {

/// A logical processor.
#[derive(Clone, Copy, Debug, PartialEq, Eq, Structural)]
pub struct CpuThread {
    pub group: u16,
    pub logical_index: u8,
    pub core_index: u8,
    pub efficiency_class: u8,
}

/// The value of a core.
#[derive(Clone, Copy, Debug, PartialEq, Eq, Structural)]
pub struct CoreValue {
    pub efficiency_class: u8,
    pub value: u32,
}

/// Two logical processors belong to the same core.
pub open spec fn same_core(a: CpuThread, b: CpuThread) -> bool {
    a.group == b.group && a.core_index == b.core_index
}

/// The processor at `index` is the first of its core.
pub open spec fn is_first_of_core(topology: Seq<CpuThread>, index: int) -> bool {
    forall|j: int| 0 <= j < index ==> !same_core(#[trigger] topology[j], topology[index])
}

/// The positions, among the first `count` processors, of the first one of each core.
pub open spec fn cores(topology: Seq<CpuThread>, count: int) -> Seq<int>
    decreases count,
{
    if count <= 0 {
        seq![]
    } else if is_first_of_core(topology, count - 1) {
        cores(topology, count - 1).push(count - 1)
    } else {
        cores(topology, count - 1)
    }
}

/// The sum, in double precision, of the values of a core among the first `count` processors.
pub open spec fn core_sum(
    topology: Seq<CpuThread>,
    values: Seq<u32>,
    count: int,
    core: CpuThread,
) -> nat
    decreases count,
{
    if count <= 0 {
        0
    } else if same_core(topology[count - 1], core) {
        double(core_sum(topology, values, count - 1, core) + number(values[count - 1]), 1)
    } else {
        core_sum(topology, values, count - 1, core)
    }
}

/// All values are measured ones.
pub open spec fn are_amounts(values: Seq<u32>) -> bool {
    forall|i: int| 0 <= i < values.len() ==> is_amount(#[trigger] values[i])
}

/// The number of processors of a core among the first `count`.
pub open spec fn core_size(topology: Seq<CpuThread>, count: int, core: CpuThread) -> int
    decreases count,
{
    if count <= 0 {
        0
    } else {
        core_size(topology, count - 1, core) + if same_core(topology[count - 1], core) {
            1int
        } else {
            0
        }
    }
}

/// A sum of measured values stays within bounds.
proof fn lemma_sum_step(sum: nat, value: nat)
    requires
        sum <= pow2(4086),
        value <= pow2(4032),
    ensures
        double(sum + value, 1) <= pow2(4086),
        2926 <= Precision::Double.power(sum + value, 1) <= 4034,
{
    lemma_pow2_strictly_increases(4032, 4033);
    lemma_rounded_stays(sum + value, 53, 2926, 4086);
    lemma_pow2_strictly_increases(4033, 4086);
    lemma_pow2_unfold(4087);
    assert((sum + value) / 1 == sum + value);
    lemma_power_bound(sum + value, 53, 2926, 4034);
}

proof fn lemma_core_sum_bound(
    topology: Seq<CpuThread>,
    values: Seq<u32>,
    count: int,
    core: CpuThread,
)
    requires
        0 <= count <= values.len(),
        are_amounts(values),
    ensures
        core_sum(topology, values, count, core) <= pow2(4086),
        0 <= core_size(topology, count, core) <= count,
    decreases count,
{
    lemma_pow2_pos(4086);
    if count > 0 {
        lemma_core_sum_bound(topology, values, count - 1, core);
        assert(is_amount(values[count - 1]));
        lemma_amount(values[count - 1]);
        lemma_sum_step(
            core_sum(topology, values, count - 1, core),
            number(values[count - 1]),
        );
    }
}

/// A number of single precision is also one of double precision.
proof fn lemma_number_is_double(bits: u32)
    requires
        bits < 0x7f80_0000,
    ensures
        double(0 + number(bits), 1) == number(bits),
{
    lemma2_to64();
    lemma2_to64_rest();
    assert(1 * number(bits) == number(bits));
    let exponent = crate::single::exponent(bits);
    if exponent == 0 {
        lemma_rounded_keeps_bound(number(bits), 1, 53, 2926, bits as nat % 0x80_0000, 3851);
    } else {
        lemma_rounded_keeps_bound(
            number(bits),
            1,
            53,
            2926,
            crate::single::significand(bits) as nat,
            (3850 + exponent) as nat,
        );
    }
}

/// Two processors of one core see the same core.
proof fn lemma_same_core_sums(
    topology: Seq<CpuThread>,
    values: Seq<u32>,
    count: int,
    a: CpuThread,
    b: CpuThread,
)
    requires
        same_core(a, b),
    ensures
        core_sum(topology, values, count, a) == core_sum(topology, values, count, b),
        core_size(topology, count, a) == core_size(topology, count, b),
    decreases count,
{
    if count > 0 {
        lemma_same_core_sums(topology, values, count - 1, a, b);
    }
}

/// An entry of the list of cores is the first processor of its core.
proof fn lemma_core_is_first(topology: Seq<CpuThread>, count: int, c: int)
    requires
        0 <= c < cores(topology, count).len(),
    ensures
        0 <= cores(topology, count)[c] < count,
        is_first_of_core(topology, cores(topology, count)[c]),
    decreases count,
{
    if count > 0 && c < cores(topology, count - 1).len() {
        lemma_core_is_first(topology, count - 1, c);
    }
}

/// Every processor has its core in the list of cores.
proof fn lemma_core_of(topology: Seq<CpuThread>, count: int, index: int) -> (c: int)
    requires
        0 <= index < count <= topology.len(),
    ensures
        0 <= c < cores(topology, count).len(),
        same_core(topology[cores(topology, count)[c]], topology[index]),
    decreases count,
{
    if index < count - 1 {
        lemma_core_of(topology, count - 1, index)
    } else if is_first_of_core(topology, count - 1) {
        cores(topology, count - 1).len() as int
    } else {
        let j = choose|j: int|
            0 <= j < count - 1 && same_core(#[trigger] topology[j], topology[count - 1]);
        lemma_core_of(topology, count - 1, j)
    }
}

/// The number of processors that have a value.
pub open spec fn paired(topology: Seq<CpuThread>, values: Seq<u32>) -> int {
    if topology.len() < values.len() {
        topology.len() as int
    } else {
        values.len() as int
    }
}

/// The mean of so many values with this sum, computed in double precision.
pub open spec fn core_mean(sum: nat, size: int) -> nat {
    single(double(sum * one(), double(whole(size as nat), 1)), 1)
}

/// `averages` are the means of the values of each core, in the order in which the cores come first.
pub open spec fn are_core_averages(
    topology: Seq<CpuThread>,
    values: Seq<u32>,
    averages: Seq<CoreValue>,
) -> bool {
    let count = paired(topology, values);
    &&& averages.len() == cores(topology, count).len()
    &&& forall|c: int|
        0 <= c < averages.len() ==> {
            let first = topology[cores(topology, count)[c]];
            &&& (#[trigger] averages[c]).efficiency_class == first.efficiency_class
            &&& is_pattern_of(
                averages[c].value,
                core_mean(
                    core_sum(topology, values, count, first),
                    core_size(topology, count, first),
                ),
            )
        }
}

struct CoreAccumulator {
    group: u16,
    core_index: u8,
    efficiency_class: u8,
    total: Float,
    count: u64,
}

fn find_mean(total: Float, count: u64) -> (mean: u32)
    requires
        total.wf(),
        total.value() <= pow2(4086),
        count > 0,
    ensures
        is_pattern_of(mean, core_mean(total.value(), count as int)),
        is_mean(mean),
{
    let divisor = from_integer(count, Precision::Double);
    proof {
        lemma_whole_bounds(count, Precision::Double);
        lemma_pow2_pos(4000);
        if divisor.digits == 0 {
            assert(0 * pow2(divisor.power as nat) == 0);
        }
        let n = total.value() * one();
        let d = divisor.value();
        lemma_quotient_bound(total.value(), d);
        lemma_pow2_strictly_increases(4086, 4087);
        lemma_power_bound(n / d, 53, 2926, 4034);
        lemma2_to64();
        lemma2_to64_rest();
        assert(1 * pow2(4086) == pow2(4086));
        assert(n <= d * pow2(4086)) by (nonlinear_arith)
            requires
                n == total.value() * one(),
                total.value() <= pow2(4086),
                d >= one(),
        ;
        lemma_rounded_keeps_bound(n, d, 53, 2926, 1, 4086);
    }
    let mean = divide_floats(total, divisor, Precision::Double);
    proof {
        let n = mean.value();
        assert(n / 1 == n);
        lemma_power_bound(n, 24, 3851, 4063);
        assert(1 * (1 * pow2(4086)) == pow2(4086));
        lemma_rounded_keeps_bound(n, 1, 24, 3851, 1, 4086);
    }
    let bits: u32 = to_bits(convert_float(mean, Precision::Single));
    proof {
        lemma_amount(bits);
    }
    bits
}

/// The mean of the values of each core, in the order in which the cores come first.  A load is a
/// percentage, and a frequency is a number of 32 bits, so no value exceeds an amount, and no sum of them
/// leaves the range of its precision.
pub fn physical_core_averages(topology: &[CpuThread], values: &[u32]) -> (averages: Vec<CoreValue>)
    requires
        are_amounts(values@),
    ensures
        are_core_averages(topology@, values@, averages@),
        forall|i: int| 0 <= i < averages@.len() ==> is_mean((#[trigger] averages@[i]).value),
{
    let length: usize = if topology.len() < values.len() {
        topology.len()
    } else {
        values.len()
    };
    let mut found: Vec<CoreAccumulator> = Vec::new();
    let mut i: usize = 0;
    while i < length
        invariant
            length == paired(topology@, values@),
            are_amounts(values@),
            i <= length,
            tracks(found@, topology@, values@, i as int),
        decreases length - i,
    {
        add_value(&mut found, topology, values, i);
        i = i + 1;
    }
    let mut averages: Vec<CoreValue> = Vec::new();
    let mut c: usize = 0;
    while c < found.len()
        invariant
            length == paired(topology@, values@),
            are_amounts(values@),
            c <= found@.len(),
            tracks(found@, topology@, values@, length as int),
            averages@.len() == c,
            forall|d: int|
                0 <= d < c ==> {
                    let first = topology@[cores(topology@, length as int)[d]];
                    &&& (#[trigger] averages@[d]).efficiency_class == first.efficiency_class
                    &&& is_pattern_of(
                        averages@[d].value,
                        core_mean(
                            core_sum(topology@, values@, length as int, first),
                            core_size(topology@, length as int, first),
                        ),
                    )
                    &&& is_mean(averages@[d].value)
                },
        decreases found@.len() - c,
    {
        proof {
            let first = topology@[cores(topology@, length as int)[c as int]];
            assert(accumulates(found@[c as int], topology@, values@, length as int, first));
            lemma_core_sum_bound(topology@, values@, length as int, first);
        }
        averages.push(
            CoreValue {
                efficiency_class: found[c].efficiency_class,
                value: find_mean(found[c].total, found[c].count),
            },
        );
        c = c + 1;
    }
    averages
}

spec fn accumulates(
    core: CoreAccumulator,
    topology: Seq<CpuThread>,
    values: Seq<u32>,
    count: int,
    first: CpuThread,
) -> bool {
    &&& core.group == first.group
    &&& core.core_index == first.core_index
    &&& core.efficiency_class == first.efficiency_class
    &&& core.total.wf()
    &&& core.total.value() == core_sum(topology, values, count, first)
    &&& core.count == core_size(topology, count, first)
    &&& core.count >= 1
}

spec fn tracks(
    found: Seq<CoreAccumulator>,
    topology: Seq<CpuThread>,
    values: Seq<u32>,
    count: int,
) -> bool {
    &&& found.len() == cores(topology, count).len()
    &&& forall|c: int|
        0 <= c < found.len() ==> accumulates(
            #[trigger] found[c],
            topology,
            values,
            count,
            topology[cores(topology, count)[c]],
        )
}

spec fn is_core_of(core: CoreAccumulator, thread: CpuThread) -> bool {
    core.group == thread.group && core.core_index == thread.core_index
}

fn find_core(found: &Vec<CoreAccumulator>, thread: CpuThread) -> (position: usize)
    ensures
        position <= found@.len(),
        position < found@.len() ==> is_core_of(found@[position as int], thread),
        forall|c: int| 0 <= c < position ==> !is_core_of(#[trigger] found@[c], thread),
{
    let mut position: usize = 0;
    while position < found.len() && !(found[position].group == thread.group
        && found[position].core_index == thread.core_index)
        invariant
            position <= found@.len(),
            forall|c: int| 0 <= c < position ==> !is_core_of(#[trigger] found@[c], thread),
        decreases found@.len() - position,
    {
        position = position + 1;
    }
    position
}

/// Adds the value of processor `i` to its core.
fn add_value(found: &mut Vec<CoreAccumulator>, topology: &[CpuThread], values: &[u32], i: usize)
    requires
        i < paired(topology@, values@),
        are_amounts(values@),
        tracks(old(found)@, topology@, values@, i as int),
    ensures
        tracks(final(found)@, topology@, values@, i + 1),
{
    let thread = topology[i];
    let ghost before = found@;
    let ghost all = cores(topology@, i as int);
    let position: usize = find_core(found, thread);
    if position < found.len() {
        let ghost first = topology@[all[position as int]];
        proof {
            assert(accumulates(before[position as int], topology@, values@, i as int, first));
            lemma_core_sum_bound(topology@, values@, i as int, first);
            lemma_core_is_first(topology@, i as int, position as int);
            assert(same_core(topology@[all[position as int]], topology@[i as int]));
            assert(!is_first_of_core(topology@, i as int));
            assert(is_amount(values@[i as int]));
            lemma_amount(values@[i as int]);
            lemma_sum_step(
                core_sum(topology@, values@, i as int, first),
                number(values@[i as int]),
            );
            assert(core_size(topology@, i as int, first) <= i);
        }
        let updated = CoreAccumulator {
            group: found[position].group,
            core_index: found[position].core_index,
            efficiency_class: found[position].efficiency_class,
            total: add_floats(found[position].total, from_bits(values[i]), Precision::Double),
            count: found[position].count + 1,
        };
        found.set(position, updated);
        proof {
            assert forall|c: int| 0 <= c < found@.len() implies accumulates(
                #[trigger] found@[c],
                topology@,
                values@,
                i + 1,
                topology@[cores(topology@, i + 1)[c]],
            ) by {
                assert(accumulates(before[c], topology@, values@, i as int, topology@[all[c]]));
                if c != position {
                    lemma_distinct_cores(topology@, i as int, position as int, c);
                }
            }
        }
    } else {
        proof {
            assert(is_amount(values@[i as int]));
            lemma_amount(values@[i as int]);
            lemma_number_is_double(values@[i as int]);
        }
        found.push(
            CoreAccumulator {
                group: thread.group,
                core_index: thread.core_index,
                efficiency_class: thread.efficiency_class,
                total: from_bits(values[i]),
                count: 1,
            },
        );
        proof {
            assert forall|j: int| 0 <= j < i implies !same_core(
                #[trigger] topology@[j],
                topology@[i as int],
            ) by {
                let c = lemma_core_of(topology@, i as int, j);
                assert(accumulates(before[c], topology@, values@, i as int, topology@[all[c]]));
                assert(!is_core_of(before[c], thread));
            }
            assert(is_first_of_core(topology@, i as int));
            lemma_no_earlier(topology@, values@, i as int);
            assert forall|c: int| 0 <= c < found@.len() implies accumulates(
                #[trigger] found@[c],
                topology@,
                values@,
                i + 1,
                topology@[cores(topology@, i + 1)[c]],
            ) by {
                if c < before.len() {
                    assert(accumulates(before[c], topology@, values@, i as int, topology@[all[c]]));
                    assert(!is_core_of(before[c], thread));
                }
            }
        }
    }
}

/// Two different entries of the list of cores are different cores.
proof fn lemma_distinct_cores(topology: Seq<CpuThread>, count: int, c: int, d: int)
    requires
        0 <= c < cores(topology, count).len(),
        0 <= d < cores(topology, count).len(),
        c != d,
    ensures
        !same_core(topology[cores(topology, count)[c]], topology[cores(topology, count)[d]]),
{
    lemma_core_is_first(topology, count, c);
    lemma_core_is_first(topology, count, d);
    lemma_cores_increase(topology, count, c, d);
}

proof fn lemma_cores_increase(topology: Seq<CpuThread>, count: int, c: int, d: int)
    requires
        0 <= c < cores(topology, count).len(),
        0 <= d < cores(topology, count).len(),
        c != d,
    ensures
        cores(topology, count)[c] != cores(topology, count)[d],
    decreases count,
{
    if count > 0 {
        let fewer = cores(topology, count - 1).len();
        if c < fewer && d < fewer {
            lemma_cores_increase(topology, count - 1, c, d);
        } else if c < fewer {
            lemma_core_is_first(topology, count - 1, c);
        } else if d < fewer {
            lemma_core_is_first(topology, count - 1, d);
        }
    }
}

/// Before the first processor of a core, the core has no value.
proof fn lemma_no_earlier(topology: Seq<CpuThread>, values: Seq<u32>, index: int)
    requires
        0 <= index < topology.len(),
        is_first_of_core(topology, index),
    ensures
        core_sum(topology, values, index, topology[index]) == 0,
        core_size(topology, index, topology[index]) == 0,
{
    lemma_no_earlier_up_to(topology, values, index, index);
}

proof fn lemma_no_earlier_up_to(
    topology: Seq<CpuThread>,
    values: Seq<u32>,
    index: int,
    count: int,
)
    requires
        0 <= count <= index < topology.len(),
        is_first_of_core(topology, index),
    ensures
        core_sum(topology, values, count, topology[index]) == 0,
        core_size(topology, count, topology[index]) == 0,
    decreases count,
{
    if count > 0 {
        lemma_no_earlier_up_to(topology, values, index, count - 1);
        assert(!same_core(topology[count - 1], topology[index]));
    }
}

/// The lowest efficiency class among the first `count` cores.
pub open spec fn lowest_class(values: Seq<CoreValue>, count: int) -> u8
    decreases count,
{
    if count <= 1 {
        values[0].efficiency_class
    } else if values[count - 1].efficiency_class < lowest_class(values, count - 1) {
        values[count - 1].efficiency_class
    } else {
        lowest_class(values, count - 1)
    }
}

/// The highest efficiency class among the first `count` cores.
pub open spec fn highest_class(values: Seq<CoreValue>, count: int) -> u8
    decreases count,
{
    if count <= 1 {
        values[0].efficiency_class
    } else if values[count - 1].efficiency_class > highest_class(values, count - 1) {
        values[count - 1].efficiency_class
    } else {
        highest_class(values, count - 1)
    }
}

/// The values of the cores of one class among the first `count`, in order.
pub open spec fn values_of_class(values: Seq<CoreValue>, count: int, class: u8) -> Seq<u32>
    decreases count,
{
    if count <= 0 {
        seq![]
    } else if values[count - 1].efficiency_class == class {
        values_of_class(values, count - 1, class).push(values[count - 1].value)
    } else {
        values_of_class(values, count - 1, class)
    }
}

/// The fast cores are those of the highest class, and the saving ones those of the lowest; if there is
/// only one class, all are fast.
pub open spec fn is_class_split(
    values: Seq<CoreValue>,
    performance: Seq<u32>,
    efficiency: Seq<u32>,
) -> bool {
    let count = values.len() as int;
    if count == 0 {
        performance.len() == 0 && efficiency.len() == 0
    } else {
        let lowest = lowest_class(values, count);
        let highest = highest_class(values, count);
        &&& performance == values_of_class(values, count, highest)
        &&& efficiency == if lowest == highest {
            Seq::<u32>::empty()
        } else {
            values_of_class(values, count, lowest)
        }
    }
}

/// Parts the cores into those of the highest class, which are fast, and those of the lowest, which
/// save power; if there is only one class, all are fast.
pub fn split_core_values(values: &Vec<CoreValue>) -> (split: (Vec<u32>, Vec<u32>))
    ensures
        is_class_split(values@, split.0@, split.1@),
{
    let mut performance: Vec<u32> = Vec::new();
    let mut efficiency: Vec<u32> = Vec::new();
    if values.len() == 0 {
        return (performance, efficiency);
    }
    let mut lowest: u8 = values[0].efficiency_class;
    let mut highest: u8 = values[0].efficiency_class;
    let mut i: usize = 1;
    while i < values.len()
        invariant
            1 <= i <= values@.len(),
            lowest == lowest_class(values@, i as int),
            highest == highest_class(values@, i as int),
            lowest <= highest,
        decreases values@.len() - i,
    {
        let class: u8 = values[i].efficiency_class;
        if class < lowest {
            lowest = class;
        }
        if class > highest {
            highest = class;
        }
        i = i + 1;
    }
    let mut j: usize = 0;
    while j < values.len()
        invariant
            j <= values@.len(),
            performance@ == values_of_class(values@, j as int, highest),
            efficiency@ == if lowest == highest {
                Seq::<u32>::empty()
            } else {
                values_of_class(values@, j as int, lowest)
            },
        decreases values@.len() - j,
    {
        if values[j].efficiency_class == highest {
            performance.push(values[j].value);
        } else if values[j].efficiency_class == lowest {
            efficiency.push(values[j].value);
        }
        j = j + 1;
    }
    (performance, efficiency)
}

/// No core has a class below the lowest or above the highest.
pub proof fn lemma_classes_bound(values: Seq<CoreValue>, count: int, index: int)
    requires
        0 <= index < count <= values.len(),
    ensures
        lowest_class(values, count) <= values[index].efficiency_class <= highest_class(
            values,
            count,
        ),
    decreases count,
{
    if index < count - 1 {
        lemma_classes_bound(values, count - 1, index);
    } else if count > 1 {
        lemma_classes_bound(values, count - 1, 0);
    }
}

/// If all cores are of one class, each is reported once, and in order, as a fast one.
pub proof fn lemma_homogeneous_cores_are_reported_once(
    values: Seq<CoreValue>,
    performance: Seq<u32>,
    efficiency: Seq<u32>,
)
    requires
        is_class_split(values, performance, efficiency),
        forall|i: int|
            0 <= i < values.len() ==> (#[trigger] values[i]).efficiency_class
                == values[0].efficiency_class,
    ensures
        performance == Seq::new(values.len(), |i: int| values[i].value),
        efficiency.len() == 0,
{
    if values.len() > 0 {
        lemma_one_class(values, values.len() as int);
    }
    assert(performance =~= Seq::new(values.len(), |i: int| values[i].value));
}

proof fn lemma_one_class(values: Seq<CoreValue>, count: int)
    requires
        0 < count <= values.len(),
        forall|i: int|
            0 <= i < values.len() ==> (#[trigger] values[i]).efficiency_class
                == values[0].efficiency_class,
    ensures
        lowest_class(values, count) == values[0].efficiency_class,
        highest_class(values, count) == values[0].efficiency_class,
        values_of_class(values, count, values[0].efficiency_class) == Seq::new(
            count as nat,
            |i: int| values[i].value,
        ),
    decreases count,
{
    reveal_with_fuel(values_of_class, 2);
    if count > 1 {
        lemma_one_class(values, count - 1);
    }
    assert(values[count - 1].efficiency_class == values[0].efficiency_class);
    assert(values_of_class(values, count, values[0].efficiency_class) =~= Seq::new(
        count as nat,
        |i: int| values[i].value,
    ));
}

/// The sum of the first `count` values in single precision.
pub open spec fn sum_of(values: Seq<u32>, count: int) -> nat
    decreases count,
{
    if count <= 0 {
        0
    } else {
        single(sum_of(values, count - 1) + number(values[count - 1]), 1)
    }
}

/// The mean of some values in single precision.
pub open spec fn mean_value(values: Seq<u32>) -> nat {
    single(sum_of(values, values.len() as int) * one(), single(whole(values.len()), 1))
}

/// All values are means of measured ones.
pub open spec fn are_means(values: Seq<u32>) -> bool {
    forall|i: int| 0 <= i < values.len() ==> is_mean(#[trigger] values[i])
}

proof fn lemma_mean_step(sum: nat, value: nat)
    requires
        sum <= pow2(4111),
        value <= pow2(4086),
    ensures
        single(sum + value, 1) <= pow2(4111),
        3851 <= Precision::Single.power(sum + value, 1) <= 4088,
{
    lemma_pow2_strictly_increases(4086, 4087);
    lemma_rounded_stays(sum + value, 24, 3851, 4111);
    lemma_pow2_strictly_increases(4087, 4111);
    lemma_pow2_unfold(4112);
    assert((sum + value) / 1 == sum + value);
    lemma_power_bound(sum + value, 24, 3851, 4088);
}

/// The mean of some values; there is none without a value.  The values are loads, or means of
/// frequencies, so that no sum of them leaves the range of single precision.
pub fn average(values: &Vec<u32>) -> (mean: Option<u32>)
    requires
        are_means(values@),
    ensures
        match mean {
            None => values@.len() == 0,
            Some(mean) => {
                &&& values@.len() > 0
                &&& mean == pattern(mean_value(values@))
                &&& mean < 0x7f80_0000
                &&& number(mean) == mean_value(values@)
            },
        },
{
    if values.len() == 0 {
        return None;
    }
    let mut sum = Float { digits: 0, power: 3851 };
    let mut i: usize = 0;
    proof {
        lemma_pow2_pos(4111);
        lemma2_to64();
        assert(0 * pow2(3851) == 0);
    }
    while i < values.len()
        invariant
            i <= values.len(),
            are_means(values@),
            sum.wf(),
            sum.value() == sum_of(values@, i as int),
            sum.value() <= pow2(4111),
        decreases values@.len() - i,
    {
        proof {
            assert(is_mean(values@[i as int]));
            lemma_amount(values@[i as int]);
            lemma_mean_step(sum.value(), number(values@[i as int]));
        }
        sum = add_floats(sum, from_bits(values[i]), Precision::Single);
        i = i + 1;
    }
    let count = from_integer(values.len() as u64, Precision::Single);
    proof {
        lemma_whole_bounds(values.len() as u64, Precision::Single);
        lemma_pow2_pos(4000);
        if count.digits == 0 {
            assert(0 * pow2(count.power as nat) == 0);
        }
        lemma_quotient_bound(sum.value(), count.value());
        lemma_pow2_unfold(4112);
        lemma_power_bound(sum.value() * one() / count.value(), 24, 3851, 4088);
    }
    Some(to_bits(divide_floats(sum, count, Precision::Single)))
}

/// The mean of some values, rounded to a whole number; there is none without a value.
pub fn average_u32(values: &Vec<u32>) -> (mean: Option<u32>)
    requires
        are_means(values@),
    ensures
        match mean {
            None => values@.len() == 0,
            Some(mean) => values@.len() > 0 && mean == rounded_whole(mean_value(values@)),
        },
{
    match average(values) {
        None => None,
        Some(mean) => Some(round_to_whole(from_bits(mean))),
    }
}

/// The logical processor that a record at `offset` describes: group at 12, number at 14, core at 15,
/// efficiency class at 18.
pub open spec fn thread_at(data: Seq<u8>, offset: int) -> CpuThread {
    CpuThread {
        group: le16(data, offset + 12) as u16,
        logical_index: data[offset + 14],
        core_index: data[offset + 15],
        efficiency_class: data[offset + 18],
    }
}

/// The logical processors that the records from `offset` on describe: each record begins with its
/// size, and a record of kind zero describes a processor.
pub open spec fn threads_from(data: Seq<u8>, offset: int) -> Seq<CpuThread>
    decreases data.len() - offset,
{
    if offset < 0 || offset + 19 > data.len() {
        seq![]
    } else {
        let size = le32(data, offset);
        if size < 19 || offset + size > data.len() {
            seq![]
        } else if le32(data, offset + 4) == 0 {
            seq![thread_at(data, offset)] + threads_from(data, offset + size)
        } else {
            threads_from(data, offset + size)
        }
    }
}

/// `a` comes before `b`: by group, and then by number.
pub open spec fn in_order(a: CpuThread, b: CpuThread) -> bool {
    a.group < b.group || (a.group == b.group && a.logical_index <= b.logical_index)
}

/// The processors stand in order.
pub open spec fn is_sorted(threads: Seq<CpuThread>) -> bool {
    forall|i: int, j: int|
        0 <= i < j < threads.len() ==> in_order(#[trigger] threads[i], #[trigger] threads[j])
}

/// Inserts a processor where it belongs.
fn insert_in_order(threads: &mut Vec<CpuThread>, thread: CpuThread)
    requires
        is_sorted(old(threads)@),
    ensures
        is_sorted(final(threads)@),
        final(threads)@.to_multiset() == old(threads)@.to_multiset().insert(thread),
        final(threads)@.len() == old(threads)@.len() + 1,
{
    let mut position: usize = 0;
    while position < threads.len() && (threads[position].group < thread.group || (
    threads[position].group == thread.group && threads[position].logical_index
        <= thread.logical_index))
        invariant
            position <= threads@.len(),
            forall|i: int| 0 <= i < position ==> in_order(#[trigger] threads@[i], thread),
        decreases threads@.len() - position,
    {
        position = position + 1;
    }
    let ghost before = threads@;
    proof {
        assert(forall|i: int|
            position <= i < before.len() ==> in_order(thread, #[trigger] before[i])) by {
            assert forall|i: int| position <= i < before.len() implies in_order(
                thread,
                #[trigger] before[i],
            ) by {
                if i > position {
                    assert(in_order(before[position as int], before[i]));
                }
            }
        }
        to_multiset_insert(before, position as int, thread);
    }
    threads.insert(position, thread);
    proof {
        let after = threads@;
        assert forall|i: int, j: int| 0 <= i < j < after.len() implies in_order(
            #[trigger] after[i],
            #[trigger] after[j],
        ) by {
            if i < position && j > position {
                assert(after[i] == before[i] && after[j] == before[j - 1]);
            } else if i < position && j == position {
                assert(after[i] == before[i]);
            } else if i < position {
                assert(after[i] == before[i] && after[j] == before[j]);
            } else if i == position {
                assert(after[j] == before[j - 1]);
            } else {
                assert(after[i] == before[i - 1] && after[j] == before[j - 1]);
            }
        }
    }
}

/// The logical processors that the system described, in order of group and number.
pub fn cpu_topology(data: &[u8]) -> (threads: Vec<CpuThread>)
    ensures
        is_sorted(threads@),
        threads@.to_multiset() == threads_from(data@, 0).to_multiset(),
        threads@.len() == threads_from(data@, 0).len(),
{
    let length: usize = data.len();
    let mut threads: Vec<CpuThread> = Vec::new();
    let mut offset: usize = 0;
    let ghost mut parsed: Seq<CpuThread> = seq![];
    proof {
        assert(parsed + threads_from(data@, 0) =~= threads_from(data@, 0));
    }
    while length >= 19 && offset <= length - 19
        invariant_except_break
            length == data.len(),
            offset <= length,
            is_sorted(threads@),
            threads@.to_multiset() == parsed.to_multiset(),
            threads@.len() == parsed.len(),
            parsed + threads_from(data@, offset as int) == threads_from(data@, 0),
        ensures
            is_sorted(threads@),
            threads@.to_multiset() == threads_from(data@, 0).to_multiset(),
            threads@.len() == threads_from(data@, 0).len(),
        decreases length - offset,
    {
        let size: usize = read_u32(data, offset) as usize;
        if size < 19 || size > length - offset {
            proof {
                assert(threads_from(data@, offset as int) =~= Seq::<CpuThread>::empty());
                assert(parsed + threads_from(data@, offset as int) =~= parsed);
            }
            break;
        }
        if read_u32(data, offset + 4) == 0 {
            let thread = CpuThread {
                group: read_u16(data, offset + 12),
                logical_index: data[offset + 14],
                core_index: data[offset + 15],
                efficiency_class: data[offset + 18],
            };
            insert_in_order(&mut threads, thread);
            proof {
                to_multiset_build(parsed, thread);
                assert(parsed.push(thread) + threads_from(data@, offset + size) =~= parsed + (
                seq![thread] + threads_from(data@, offset + size)));
                parsed = parsed.push(thread);
            }
        }
        offset = offset + size;
        proof {
            if !(length >= 19 && offset <= length - 19) {
                assert(threads_from(data@, offset as int) =~= Seq::<CpuThread>::empty());
                assert(parsed + threads_from(data@, offset as int) =~= parsed);
            }
        }
    }
    threads
}

/// The times of a logical processor.
#[derive(Clone, Copy, Debug, PartialEq, Eq, Structural)]
pub struct ProcessorTimes {
    pub idle: i64,
    pub kernel: i64,
    pub user: i64,
}

/// How much a time has grown; a time that went back has not grown.
pub open spec fn growth(current: i64, previous: i64) -> int {
    if current - previous < 0 {
        0
    } else if current - previous > i64::MAX {
        i64::MAX as int
    } else {
        current - previous
    }
}

/// All the time between two readings, in double precision.
pub open spec fn time_between(current: ProcessorTimes, previous: ProcessorTimes) -> nat {
    double(
        double(whole(growth(current.kernel, previous.kernel) as nat), 1) + double(
            whole(growth(current.user, previous.user) as nat),
            1,
        ),
        1,
    )
}

/// The part of the time between two readings that was idle, in double precision.
pub open spec fn idle_share(current: ProcessorTimes, previous: ProcessorTimes) -> nat {
    double(
        double(whole(growth(current.idle, previous.idle) as nat), 1) * one(),
        time_between(current, previous),
    )
}

/// The load between two readings in percent: the part of the time that was not idle.
pub open spec fn usage(current: ProcessorTimes, previous: ProcessorTimes) -> nat {
    let share = idle_share(current, previous);
    if time_between(current, previous) == 0 || share >= one() {
        0
    } else {
        single(double(whole(100) * double((one() - share) as nat, 1), one()), 1)
    }
}

fn find_growth(current: i64, previous: i64) -> (grown: u64)
    ensures
        grown == growth(current, previous),
{
    let difference: i128 = current as i128 - previous as i128;
    if difference < 0 {
        0
    } else if difference > i64::MAX as i128 {
        i64::MAX as u64
    } else {
        difference as u64
    }
}

impl ProcessorTimes {
    /// The load since an earlier reading, in percent.
    pub fn usage_since(self, previous: ProcessorTimes) -> (load: u32)
        ensures
            load == pattern(usage(self, previous)),
            load < 0x7f80_0000,
            number(load) == usage(self, previous),
            is_amount(load),
    {
        let idle = from_integer(find_growth(self.idle, previous.idle), Precision::Double);
        let kernel = from_integer(find_growth(self.kernel, previous.kernel), Precision::Double);
        let user = from_integer(find_growth(self.user, previous.user), Precision::Double);
        proof {
            lemma_whole_bounds(growth(self.idle, previous.idle) as u64, Precision::Double);
            lemma_whole_bounds(growth(self.kernel, previous.kernel) as u64, Precision::Double);
            lemma_whole_bounds(growth(self.user, previous.user) as u64, Precision::Double);
            lemma_time_bounds(kernel.value(), user.value());
            lemma_pow2_pos(4000);
        }
        let total = add_floats(kernel, user, Precision::Double);
        proof {
            lemma_pow2_pos(total.power as nat);
            if total.digits == 0 {
                assert(0 * pow2(total.power as nat) == 0);
            } else {
                assert(total.value() > 0) by (nonlinear_arith)
                    requires
                        total.value() == total.digits as nat * pow2(total.power as nat),
                        total.digits > 0,
                        pow2(total.power as nat) > 0,
                ;
            }
            lemma_nothing();
        }
        if total.digits == 0 {
            return 0;
        }
        proof {
            lemma_share(idle.value(), total.value());
        }
        let share = divide_floats(idle, total, Precision::Double);
        let whole_time = Float { digits: 1, power: 4000 };
        proof {
            assert(1 * one() == one());
        }
        if !is_less(share, whole_time) {
            return 0;
        }
        proof {
            lemma_rest(share.value());
            if share.digits > 0 {
                lemma_pow2_pos(share.power as nat);
                assert(share.value() > 0) by (nonlinear_arith)
                    requires
                        share.value() == share.digits as nat * pow2(share.power as nat),
                        share.digits > 0,
                        pow2(share.power as nat) > 0,
                ;
                if idle.value() == 0 {
                    lemma_zero_share(total.value());
                }
            }
            lemma_share_power(share);
        }
        let busy = rest_of_one(share, Precision::Double);
        let hundred = from_integer(100, Precision::Double);
        proof {
            lemma_hundred();
            lemma_percent(busy.value());
            lemma2_to64();
        }
        let percent = multiply_floats(hundred, busy, Precision::Double);
        let bits: u32 = to_bits(convert_float(percent, Precision::Single));
        proof {
            lemma_amount(bits);
        }
        bits
    }
}

proof fn lemma_nothing()
    ensures
        number(0) == 0,
        pattern(0) == 0,
        is_amount(0),
{
    assert(0 * pow2(3851) == 0);
    lemma_pow2_pos(4032);
    lemma_pattern(0, 0);
}

proof fn lemma_hundred()
    ensures
        double(whole(100), 1) == whole(100),
{
    lemma2_to64();
    lemma2_to64_rest();
    assert(1 * whole(100) == whole(100));
    lemma_rounded_keeps_bound(whole(100), 1, 53, 2926, 100, 4000);
}

proof fn lemma_time_bounds(kernel: nat, user: nat)
    requires
        kernel <= pow2(4064),
        user <= pow2(4064),
        kernel == 0 || kernel >= one(),
        user == 0 || user >= one(),
    ensures
        double(kernel + user, 1) <= pow2(4065),
        double(kernel + user, 1) == 0 || double(kernel + user, 1) >= one(),
        2926 <= Precision::Double.power(kernel + user, 1) <= 4013,
{
    let sum = kernel + user;
    lemma2_to64();
    lemma2_to64_rest();
    lemma_pow2_unfold(4065);
    lemma_pow2_unfold(4066);
    lemma_pow2_pos(4065);
    assert(sum / 1 == sum);
    lemma_power_bound(sum, 53, 2926, 4013);
    assert(1 * (1 * pow2(4065)) == pow2(4065));
    lemma_rounded_keeps_bound(sum, 1, 53, 2926, 1, 4065);
    assert(1 * (1 * one()) == one());
    if sum == 0 {
        assert(1 * (0 * one()) == 0);
        lemma_pow2_pos(53);
        lemma_rounded_keeps_bound(0, 1, 53, 2926, 0, 4000);
    } else {
        lemma_rounded_keeps_bound(one(), 1, 53, 2926, 1, 4000);
        lemma_rounded_is_monotone(one(), sum, 1, 53, 2926);
    }
}

/// The step of a share is neither too large nor, unless nothing was idle, too small.
proof fn lemma_share(idle: nat, total: nat)
    requires
        idle <= pow2(4064),
        idle == 0 || idle >= one(),
        one() <= total <= pow2(4065),
    ensures
        2926 <= Precision::Double.power(idle * one(), total) <= 4012,
        idle > 0 ==> Precision::Double.power(idle * one(), total) >= 3883,
{
    lemma_quotient_bound(idle, total);
    lemma_pow2_unfold(4065);
    lemma_power_bound(idle * one() / total, 53, 2926, 4012);
    if idle > 0 {
        lemma_pow2_pos(4000);
        lemma_pow2_adds(4000, 4000);
        lemma_pow2_adds(3935, 4065);
        let n = idle * one();
        assert(n >= pow2(3935) * pow2(4065)) by (nonlinear_arith)
            requires
                n == idle * one(),
                idle >= one(),
                one() * one() == pow2(3935) * pow2(4065),
                one() > 0,
        ;
        let least = pow2(3935);
        vstd::arithmetic::div_mod::lemma_fundamental_div_mod(n as int, total as int);
        let share = n / total;
        assert(share >= least) by (nonlinear_arith)
            requires
                n < total * share + total,
                n >= least * pow2(4065),
                total <= pow2(4065),
                total > 0,
        ;
        lemma_power_least(share, 53, 2926, 3883);
    }
}

proof fn lemma_zero_share(total: nat)
    requires
        total > 0,
    ensures
        double(0 * one(), total) == 0,
{
    lemma_pow2_pos(53);
    assert(0 * one() == 0);
    assert(total * (0 * one()) == 0) by (nonlinear_arith);
    lemma_rounded_keeps_bound(0, total, 53, 2926, 0, 4000);
}

/// A share below one has a step that is small enough to be taken from one.
proof fn lemma_share_power(share: Float)
    requires
        share.value() < one(),
        share.digits >= pow2(52) || share.power == 2926,
    ensures
        share.power <= 4000,
{
    if share.power > 4000 {
        lemma_pow2_strictly_increases(4000, share.power as nat);
        lemma_pow2_pos(52);
        assert(share.value() >= pow2(share.power as nat)) by (nonlinear_arith)
            requires
                share.value() == share.digits as nat * pow2(share.power as nat),
                share.digits >= 1,
                pow2(share.power as nat) >= 0,
        ;
    }
}

proof fn lemma_rest(share: nat)
    requires
        share < one(),
    ensures
        double((one() - share) as nat, 1) <= one(),
        2926 <= Precision::Double.power((one() - share) as nat, 1) <= 3948,
{
    let rest = (one() - share) as nat;
    lemma_pow2_strictly_increases(4000, 4001);
    assert(rest / 1 == rest);
    lemma_power_bound(rest, 53, 2926, 3948);
    lemma2_to64();
    lemma2_to64_rest();
    assert(1 * (1 * one()) == one());
    lemma_rounded_keeps_bound(rest, 1, 53, 2926, 1, 4000);
}

/// A part of one is at most a hundred percent.
proof fn lemma_percent(busy: nat)
    requires
        busy <= one(),
    ensures
        2926 <= Precision::Double.power(whole(100) * busy, one()) <= 4000,
        double(whole(100) * busy, one()) <= whole(100),
        3851 <= Precision::Single.power(double(whole(100) * busy, one()), 1) <= 4000,
        single(double(whole(100) * busy, one()), 1) <= whole(100),
        whole(100) <= pow2(4032),
{
    let n = whole(100) * busy;
    lemma_pow2_pos(4000);
    lemma2_to64();
    lemma2_to64_rest();
    assert(n <= one() * whole(100)) by (nonlinear_arith)
        requires
            n == whole(100) * busy,
            busy <= one(),
    ;
    lemma_rounded_keeps_bound(n, one(), 53, 2926, 100, 4000);
    lemma_pow2_adds(7, 4000);
    lemma_pow2_strictly_increases(4007, 4024);
    lemma_pow2_strictly_increases(4024, 4032);
    lemma_pow2_strictly_increases(4032, 4053);
    vstd::arithmetic::div_mod::lemma_fundamental_div_mod(n as int, one() as int);
    let value = n / one();
    assert(value <= whole(100)) by (nonlinear_arith)
        requires
            one() * value <= n,
            n <= one() * whole(100),
            one() > 0,
    ;
    lemma_power_bound(value, 53, 2926, 4000);
    let percent = double(n, one());
    assert(percent / 1 == percent);
    lemma_power_bound(percent, 24, 3851, 4000);
    assert(1 * whole(100) == whole(100));
    lemma_rounded_keeps_bound(percent, 1, 24, 3851, 100, 4000);
}

/// A load lies between nothing and a hundred percent.
pub proof fn lemma_load_is_a_percentage(current: ProcessorTimes, previous: ProcessorTimes)
    ensures
        usage(current, previous) <= whole(100),
{
    let share = idle_share(current, previous);
    if time_between(current, previous) != 0 && share < one() {
        lemma_rest(share);
        lemma_percent(double((one() - share) as nat, 1));
    }
}

/// The number of bytes with which the system tells the times of a processor.
pub const PROCESSOR_TIMES_SIZE: usize = 48;

/// The number of bytes with which the system tells the frequency of a processor.
pub const PROCESSOR_POWER_SIZE: usize = 24;

/// The times of the processor with this number.
pub open spec fn times_at(data: Seq<u8>, index: int) -> ProcessorTimes {
    ProcessorTimes {
        idle: signed64(le64(data, index * 48)) as i64,
        kernel: signed64(le64(data, index * 48 + 8)) as i64,
        user: signed64(le64(data, index * 48 + 16)) as i64,
    }
}

/// The times of the processors that the system described with this result; none if it failed, or if
/// nothing was asked for.
pub fn processor_times(status: i32, data: &[u8]) -> (times: Option<Vec<ProcessorTimes>>)
    ensures
        match times {
            None => status < 0 || data@.len() == 0,
            Some(times) => {
                &&& status >= 0
                &&& data@.len() > 0
                &&& times@ == Seq::new(data@.len() / 48, |i: int| times_at(data@, i))
            },
        },
{
    if data.len() == 0 || status < 0 {
        return None;
    }
    let count: usize = data.len() / PROCESSOR_TIMES_SIZE;
    let mut times: Vec<ProcessorTimes> = Vec::new();
    let mut index: usize = 0;
    while index < count
        invariant
            index <= count,
            count == data.len() / 48,
            times@ == Seq::new(index as nat, |i: int| times_at(data@, i)),
        decreases count - index,
    {
        let offset: usize = index * 48;
        times.push(
            ProcessorTimes {
                idle: read_i64(data, offset),
                kernel: read_i64(data, offset + 8),
                user: read_i64(data, offset + 16),
            },
        );
        index = index + 1;
        proof {
            assert(times@ =~= Seq::new(index as nat, |i: int| times_at(data@, i)));
        }
    }
    Some(times)
}

/// The frequencies of the processors in megahertz that the system described with this result; none
/// if it failed, or if nothing was asked for.
pub fn processor_mhz(status: i32, data: &[u8]) -> (mhz: Option<Vec<u32>>)
    ensures
        match mhz {
            None => status < 0 || data@.len() == 0,
            Some(mhz) => {
                &&& status >= 0
                &&& data@.len() > 0
                &&& mhz@ == Seq::new(data@.len() / 24, |i: int| le32(data@, i * 24 + 8) as u32)
            },
        },
{
    if data.len() == 0 || status < 0 {
        return None;
    }
    let count: usize = data.len() / PROCESSOR_POWER_SIZE;
    let mut mhz: Vec<u32> = Vec::new();
    let mut index: usize = 0;
    while index < count
        invariant
            index <= count,
            count == data.len() / 24,
            mhz@ == Seq::new(index as nat, |i: int| le32(data@, i * 24 + 8) as u32),
        decreases count - index,
    {
        mhz.push(read_u32(data, index * 24 + 8));
        index = index + 1;
        proof {
            assert(mhz@ =~= Seq::new(index as nat, |i: int| le32(data@, i * 24 + 8) as u32));
        }
    }
    Some(mhz)
}

/// The loads between two readings, one for each processor that is in both.
pub open spec fn loads_between(
    previous: Seq<ProcessorTimes>,
    current: Seq<ProcessorTimes>,
) -> Seq<u32> {
    Seq::new(
        if previous.len() < current.len() {
            previous.len()
        } else {
            current.len()
        },
        |i: int| pattern(usage(current[i], previous[i])),
    )
}

/// A value that was asked for: the result, which is zero on success, and the value.
#[derive(Clone, Copy, Debug, PartialEq, Eq, Structural)]
pub struct Query {
    pub result: u32,
    pub value: u32,
}

/// The memory of the graphics card that was asked for.
#[derive(Clone, Copy, Debug, PartialEq, Eq, Structural)]
pub struct MemoryQuery {
    pub result: u32,
    pub used: u64,
    pub total: u64,
}

/// What was asked of the graphics card; its driver may lack some of it.
#[derive(Clone, Copy, Debug, PartialEq, Eq, Structural)]
pub struct GpuQueries {
    pub utilization: Query,
    pub temperature: Query,
    pub power_mw: Option<Query>,
    pub power_limit_mw: Option<Query>,
    pub memory: Option<MemoryQuery>,
    pub graphics_clock_mhz: Option<Query>,
    pub memory_clock_mhz: Option<Query>,
    pub performance_state: Option<Query>,
    pub fan_percent: Option<Query>,
}

/// What is known of the graphics card.
#[derive(Clone, Copy, Debug, PartialEq, Eq, Structural)]
pub struct GpuSample {
    pub percent: Option<u32>,
    pub temperature: Option<u32>,
    pub power_w: Option<u32>,
    pub power_limit_w: Option<u32>,
    pub memory_used_bytes: Option<u64>,
    pub memory_total_bytes: Option<u64>,
    pub graphics_clock_mhz: Option<u32>,
    pub memory_clock_mhz: Option<u32>,
    pub performance_state: Option<u32>,
    pub fan_percent: Option<u32>,
}

/// The value that was asked for, if it was given.
pub open spec fn answered(query: Query) -> Option<u32> {
    if query.result == 0 {
        Some(query.value)
    } else {
        None
    }
}

/// The value that was asked for, if it could be asked for and was given.
pub open spec fn maybe_answered(query: Option<Query>) -> Option<u32> {
    match query {
        Some(query) => answered(query),
        None => None,
    }
}

/// A power in milliwatts, if it could be asked for and was given, in watts.
pub open spec fn watts(query: Option<Query>) -> Option<u32> {
    match maybe_answered(query) {
        Some(milliwatts) => Some(pattern(quotient(milliwatts as nat, 1_000))),
        None => None,
    }
}

/// The memory that was asked for, if it could be asked for and was given.
pub open spec fn memory_answered(query: Option<MemoryQuery>) -> Option<MemoryQuery> {
    match query {
        Some(memory) => if memory.result == 0 {
            Some(memory)
        } else {
            None
        },
        None => None,
    }
}

/// Nothing is known of the graphics card.
pub open spec fn gpu_unknown() -> GpuSample {
    GpuSample {
        percent: None,
        temperature: None,
        power_w: None,
        power_limit_w: None,
        memory_used_bytes: None,
        memory_total_bytes: None,
        graphics_clock_mhz: None,
        memory_clock_mhz: None,
        performance_state: None,
        fan_percent: None,
    }
}

/// What the answers of the graphics card tell.
pub open spec fn gpu_of(queries: GpuQueries) -> GpuSample {
    GpuSample {
        percent: answered(queries.utilization),
        temperature: answered(queries.temperature),
        power_w: watts(queries.power_mw),
        power_limit_w: watts(queries.power_limit_mw),
        memory_used_bytes: match memory_answered(queries.memory) {
            Some(memory) => Some(memory.used),
            None => None,
        },
        memory_total_bytes: match memory_answered(queries.memory) {
            Some(memory) => Some(memory.total),
            None => None,
        },
        graphics_clock_mhz: maybe_answered(queries.graphics_clock_mhz),
        memory_clock_mhz: maybe_answered(queries.memory_clock_mhz),
        performance_state: maybe_answered(queries.performance_state),
        fan_percent: maybe_answered(queries.fan_percent),
    }
}

fn answer(query: Query) -> (value: Option<u32>)
    ensures
        value == answered(query),
{
    if query.result == 0 {
        Some(query.value)
    } else {
        None
    }
}

fn maybe_answer(query: Option<Query>) -> (value: Option<u32>)
    ensures
        value == maybe_answered(query),
{
    match query {
        Some(query) => answer(query),
        None => None,
    }
}

fn to_watts(query: Option<Query>) -> (value: Option<u32>)
    ensures
        value == watts(query),
{
    match maybe_answer(query) {
        Some(milliwatts) => Some(divide_integers(milliwatts as u64, 1_000)),
        None => None,
    }
}

impl GpuSample {
    /// Nothing is known of the graphics card.
    pub fn unknown() -> (sample: GpuSample)
        ensures
            sample == gpu_unknown(),
    {
        GpuSample {
            percent: None,
            temperature: None,
            power_w: None,
            power_limit_w: None,
            memory_used_bytes: None,
            memory_total_bytes: None,
            graphics_clock_mhz: None,
            memory_clock_mhz: None,
            performance_state: None,
            fan_percent: None,
        }
    }

    /// What the answers of the graphics card tell.
    pub fn from_queries(queries: GpuQueries) -> (sample: GpuSample)
        ensures
            sample == gpu_of(queries),
    {
        let (memory_used_bytes, memory_total_bytes) = match queries.memory {
            Some(memory) => {
                if memory.result == 0 {
                    (Some(memory.used), Some(memory.total))
                } else {
                    (None, None)
                }
            },
            None => (None, None),
        };
        GpuSample {
            percent: answer(queries.utilization),
            temperature: answer(queries.temperature),
            power_w: to_watts(queries.power_mw),
            power_limit_w: to_watts(queries.power_limit_mw),
            memory_used_bytes,
            memory_total_bytes,
            graphics_clock_mhz: maybe_answer(queries.graphics_clock_mhz),
            memory_clock_mhz: maybe_answer(queries.memory_clock_mhz),
            performance_state: maybe_answer(queries.performance_state),
            fan_percent: maybe_answer(queries.fan_percent),
        }
    }
}

/// What is done next to open the driver of the graphics card.
#[derive(Clone, Copy, Debug, PartialEq, Eq, Structural)]
pub enum GpuStep {
    /// Load its library.
    LoadLibrary,
    /// Find the functions that are needed.
    FindFunctions,
    /// Initialise it.
    Initialize,
    /// Get the first graphics card.
    GetDevice,
    /// Shut it down again.
    Shutdown,
    /// It can be asked.
    Ready,
    /// It cannot be asked.
    Unavailable,
}

/// The step after `step`.
pub open spec fn gpu_next(step: GpuStep, succeeded: bool) -> GpuStep {
    match step {
        GpuStep::GetDevice => if succeeded {
            GpuStep::Ready
        } else {
            GpuStep::Shutdown
        },
        GpuStep::Shutdown => GpuStep::Unavailable,
        GpuStep::Ready => GpuStep::Ready,
        GpuStep::Unavailable => GpuStep::Unavailable,
        _ => if !succeeded {
            GpuStep::Unavailable
        } else {
            match step {
                GpuStep::LoadLibrary => GpuStep::FindFunctions,
                GpuStep::FindFunctions => GpuStep::Initialize,
                _ => GpuStep::GetDevice,
            }
        },
    }
}

impl GpuStep {
    /// Begins to open the driver of the graphics card.
    pub fn load() -> (step: GpuStep)
        ensures
            step == GpuStep::LoadLibrary,
    {
        GpuStep::LoadLibrary
    }

    /// Goes on after this step.  A driver that was initialised but has no card is shut down again.
    pub fn next(self, succeeded: bool) -> (next: GpuStep)
        ensures
            next == gpu_next(self, succeeded),
    {
        match self {
            GpuStep::GetDevice => {
                if succeeded {
                    GpuStep::Ready
                } else {
                    GpuStep::Shutdown
                }
            },
            GpuStep::Shutdown => GpuStep::Unavailable,
            GpuStep::Ready => GpuStep::Ready,
            GpuStep::Unavailable => GpuStep::Unavailable,
            other => {
                if !succeeded {
                    return GpuStep::Unavailable;
                }
                match other {
                    GpuStep::LoadLibrary => GpuStep::FindFunctions,
                    GpuStep::FindFunctions => GpuStep::Initialize,
                    _ => GpuStep::GetDevice,
                }
            },
        }
    }
}

/// The driver of the graphics card has been initialised and not been shut down.
pub open spec fn gpu_initialized(step: GpuStep) -> bool {
    step == GpuStep::GetDevice || step == GpuStep::Shutdown || step == GpuStep::Ready
}

/// A driver that was initialised is shut down before it is given up.
pub proof fn lemma_driver_is_shut_down(step: GpuStep, succeeded: bool)
    ensures
        gpu_initialized(step) ==> gpu_initialized(gpu_next(step, succeeded)) || step
            == GpuStep::Shutdown,
        gpu_next(step, succeeded) == GpuStep::Ready ==> gpu_initialized(step),
{
}

/// A number of bytes in gibibytes.
pub open spec fn gib(bytes: u64) -> u32 {
    pattern(quotient(bytes as nat, 1_073_741_824))
}

/// A number of bytes in gibibytes.
pub fn to_gib(bytes: u64) -> (value: u32)
    ensures
        value == gib(bytes),
        value < 0x7f80_0000,
        number(value) == quotient(bytes as nat, 1_073_741_824),
        value == 0 <==> bytes == 0,
{
    let value: u32 = divide_integers(bytes, 1_073_741_824);
    proof {
        lemma_gib_of_something(bytes);
        assert(0 * pow2(3851) == 0);
        if value > 0 {
            lemma_numbers_are_ordered(0, value);
        }
    }
    value
}

/// Something is more than nothing in gibibytes, too.
proof fn lemma_gib_of_something(bytes: u64)
    ensures
        quotient(bytes as nat, 1_073_741_824) == 0 <==> bytes == 0,
{
    let count = single(whole(bytes as nat), 1);
    let unit = single(whole(1_073_741_824), 1);
    let n = count * one();
    lemma_whole_bounds(bytes, Precision::Single);
    lemma_whole_bounds(1_073_741_824, Precision::Single);
    lemma_pow2_pos(4000);
    lemma_pow2_pos(3936);
    lemma2_to64();
    if bytes == 0 {
        assert(0 * one() == 0);
        assert(unit * (0 * pow2(4000)) == 0) by (nonlinear_arith);
        lemma_rounded_keeps_bound(0, unit, 24, 3851, 0, 4000);
    } else {
        lemma_pow2_adds(3936, 4064);
        lemma_pow2_adds(4000, 4000);
        let least = pow2(3936);
        assert(unit * least <= n) by (nonlinear_arith)
            requires
                unit <= pow2(4064),
                n == count * one(),
                count >= one(),
                least * pow2(4064) == one() * one(),
                one() > 0,
                least > 0,
        ;
        assert(1 * least == least);
        lemma_rounded_keeps_bound(unit * least, unit, 24, 3851, 1, 3936);
        lemma_rounded_is_monotone(unit * least, n, unit, 24, 3851);
    }
}

/// The memory that is used and that there is, in gibibytes.
pub fn memory_usage(total: u64, available: u64) -> (usage: (u32, u32))
    ensures
        usage.0 == gib(
            (if total > available {
                total - available
            } else {
                0
            }) as u64,
        ),
        usage.1 == gib(total),
{
    (to_gib(total.saturating_sub(available)), to_gib(total))
}

/// Everything that is known of the system.
#[derive(Debug)]
pub struct Snapshot {
    pub cpu_percent: Option<u32>,
    pub cpu_temperature: Option<u32>,
    pub cpu_p_core_loads: Vec<u32>,
    pub cpu_e_core_loads: Vec<u32>,
    pub cpu_p_mhz: Option<u32>,
    pub cpu_e_mhz: Option<u32>,
    pub memory_used_gib: u32,
    pub memory_total_gib: u32,
    pub gpu: GpuSample,
    pub io: IoSnapshot,
}

impl Default for Snapshot {
    /// Nothing is known.
    fn default() -> (snapshot: Snapshot)
        ensures
            snapshot.cpu_percent is None,
            snapshot.cpu_temperature is None,
            snapshot.cpu_p_core_loads@.len() == 0,
            snapshot.cpu_e_core_loads@.len() == 0,
            snapshot.cpu_p_mhz is None,
            snapshot.cpu_e_mhz is None,
            snapshot.memory_used_gib == 0,
            snapshot.memory_total_gib == 0,
            snapshot.gpu == gpu_unknown(),
            snapshot.io == (IoSnapshot {
                network_down_mib_s: None,
                network_up_mib_s: None,
                disk_read_mib_s: None,
                disk_write_mib_s: None,
            }),
    {
        Snapshot {
            cpu_percent: None,
            cpu_temperature: None,
            cpu_p_core_loads: Vec::new(),
            cpu_e_core_loads: Vec::new(),
            cpu_p_mhz: None,
            cpu_e_mhz: None,
            memory_used_gib: 0,
            memory_total_gib: 0,
            gpu: GpuSample::unknown(),
            io: IoSnapshot {
                network_down_mib_s: None,
                network_up_mib_s: None,
                disk_read_mib_s: None,
                disk_write_mib_s: None,
            },
        }
    }
}

/// What was read of the system at one time.
#[derive(Debug)]
pub struct Readings {
    /// The times of the processors, if they could be read.
    pub times: Option<Vec<ProcessorTimes>>,
    /// The frequency of each processor in megahertz, if it could be read.
    pub mhz: Option<Vec<u32>>,
    /// The temperature of the processor in whole degrees, if the service told it.
    pub temperature: Option<u32>,
    /// The memory in bytes that there is and that is available, if they could be read.
    pub memory: Option<(u64, u64)>,
    /// What was asked of the graphics card, if there is one.
    pub gpu: Option<GpuQueries>,
    /// The rates of network and disks.
    pub io: IoSnapshot,
}

/// The processors, and their times at the last reading.
#[derive(Debug)]
pub struct Monitor {
    pub cpu_topology: Vec<CpuThread>,
    pub cpu_count: usize,
    pub previous_times: Option<Vec<ProcessorTimes>>,
}

/// The fast and the saving cores of some values of the processors.
pub open spec fn is_split_of(
    topology: Seq<CpuThread>,
    values: Seq<u32>,
    performance: Seq<u32>,
    efficiency: Seq<u32>,
) -> bool {
    exists|averages: Seq<CoreValue>| #[trigger]
        are_core_averages(topology, values, averages) && is_class_split(
            averages,
            performance,
            efficiency,
        )
}

fn split_by_core(topology: &Vec<CpuThread>, values: &Vec<u32>) -> (split: (Vec<u32>, Vec<u32>))
    requires
        are_amounts(values@),
    ensures
        is_split_of(topology@, values@, split.0@, split.1@),
        are_means(split.0@),
        are_means(split.1@),
{
    let averages = physical_core_averages(topology, values);
    proof {
        if averages@.len() > 0 {
            let count = averages@.len() as int;
            lemma_class_means(averages@, count, highest_class(averages@, count));
            lemma_class_means(averages@, count, lowest_class(averages@, count));
        }
    }
    split_core_values(&averages)
}

proof fn lemma_class_means(values: Seq<CoreValue>, count: int, class: u8)
    requires
        0 <= count <= values.len(),
        forall|i: int| 0 <= i < values.len() ==> is_mean((#[trigger] values[i]).value),
    ensures
        are_means(values_of_class(values, count, class)),
    decreases count,
{
    if count > 0 {
        lemma_class_means(values, count - 1, class);
        assert(is_mean(values[count - 1].value));
    }
}

/// The mean of some values, if there are any.
pub open spec fn mean_of(values: Seq<u32>) -> Option<nat> {
    if values.len() == 0 {
        None
    } else {
        Some(mean_value(values))
    }
}

/// `found` is the mean of some values in whole numbers, if there are any.
pub open spec fn is_rounded_mean(values: Seq<u32>, found: Option<u32>) -> bool {
    match mean_of(values) {
        None => found is None,
        Some(mean) => found matches Some(found) && found == rounded_whole(mean),
    }
}

/// Whole numbers in single precision.
pub open spec fn singles(values: Seq<u32>) -> Seq<u32> {
    Seq::new(values.len(), |i: int| pattern(single(whole(values[i] as nat), 1)))
}

fn to_single(value: u32) -> (bits: u32)
    ensures
        bits == pattern(single(whole(value as nat), 1)),
        is_amount(bits),
{
    proof {
        let n = whole(value as nat);
        lemma2_to64();
        lemma_pow2_adds(32, 4000);
        lemma_pow2_pos(4000);
        assert(n < pow2(4032)) by (nonlinear_arith)
            requires
                n == value as nat * pow2(4000),
                value < 0x1_0000_0000,
                pow2(4032) == 0x1_0000_0000 * pow2(4000),
                pow2(4000) > 0,
        ;
        assert(n / 1 == n);
        lemma_power_bound(n, 24, 3851, 4008);
        assert(1 * (1 * pow2(4032)) == pow2(4032));
        lemma_rounded_keeps_bound(n, 1, 24, 3851, 1, 4032);
    }
    let bits: u32 = to_bits(from_integer(value as u64, Precision::Single));
    proof {
        lemma_amount(bits);
    }
    bits
}

fn to_singles(values: &Vec<u32>) -> (result: Vec<u32>)
    ensures
        result@ == singles(values@),
        are_amounts(result@),
{
    let mut result: Vec<u32> = Vec::new();
    let mut i: usize = 0;
    while i < values.len()
        invariant
            i <= values@.len(),
            result@.len() == i,
            are_amounts(result@),
            forall|j: int|
                0 <= j < i ==> #[trigger] result@[j] == pattern(
                    single(whole(values@[j] as nat), 1),
                ),
        decreases values@.len() - i,
    {
        result.push(to_single(values[i]));
        i = i + 1;
    }
    proof {
        assert(result@ =~= singles(values@));
    }
    result
}

impl Monitor {
    /// Begins to watch the system: its processors, the number of active processors, which counts if
    /// the processors are not described, and their times, if they could be read.
    pub fn new(
        cpu_topology: Vec<CpuThread>,
        active: usize,
        times: Option<Vec<ProcessorTimes>>,
    ) -> (monitor: Monitor)
        ensures
            monitor.cpu_topology == cpu_topology,
            monitor.cpu_count == if cpu_topology@.len() == 0 {
                active
            } else {
                cpu_topology@.len() as usize
            },
            monitor.previous_times == times,
    {
        let cpu_count: usize = if cpu_topology.len() == 0 {
            active
        } else {
            cpu_topology.len()
        };
        Monitor { cpu_topology, cpu_count, previous_times: times }
    }

    /// How long to wait, in milliseconds, before the first sample, so that there are loads in it.
    pub fn prime(&self) -> (wait_ms: u64)
        ensures
            wait_ms == 250,
    {
        250
    }

    /// The number of processors whose times are to be read next.
    pub fn times_wanted(&self) -> (count: usize)
        ensures
            count == match self.previous_times {
                Some(previous) => previous@.len() as usize,
                None => self.cpu_count,
            },
    {
        match &self.previous_times {
            Some(previous) => previous.len(),
            None => self.cpu_count,
        }
    }

    /// The loads since the last reading, which is replaced; there are none without two readings, and
    /// a reading that failed replaces nothing.
    pub fn sample_cpu_loads(&mut self, times: Option<Vec<ProcessorTimes>>) -> (loads: Vec<u32>)
        ensures
            final(self).cpu_topology == old(self).cpu_topology,
            final(self).cpu_count == old(self).cpu_count,
            final(self).previous_times == if times is None && old(self).previous_times is Some {
                old(self).previous_times
            } else {
                times
            },
            loads@ == match (old(self).previous_times, times) {
                (Some(previous), Some(current)) => loads_between(previous@, current@),
                _ => Seq::<u32>::empty(),
            },
            are_amounts(loads@),
    {
        let mut loads: Vec<u32> = Vec::new();
        if self.previous_times.is_none() {
            self.previous_times = times;
            return loads;
        }
        let current = match times {
            None => return loads,
            Some(current) => current,
        };
        let ghost earlier = self.previous_times->Some_0@;
        if let Some(previous) = &self.previous_times {
            let mut i: usize = 0;
            while i < previous.len() && i < current.len()
                invariant
                    i <= previous@.len(),
                    i <= current@.len(),
                    previous@ == earlier,
                    loads@.len() == i,
                    are_amounts(loads@),
                    forall|j: int|
                        0 <= j < i ==> #[trigger] loads@[j] == pattern(
                            usage(current@[j], earlier[j]),
                        ),
                decreases previous@.len() - i,
            {
                loads.push(current[i].usage_since(previous[i]));
                i = i + 1;
            }
        }
        proof {
            assert(loads@ =~= loads_between(earlier, current@));
        }
        self.previous_times = Some(current);
        loads
    }

    /// Everything that is known of the system after a reading.
    pub fn sample(&mut self, readings: Readings) -> (snapshot: Snapshot)
        ensures
            final(self).cpu_topology == old(self).cpu_topology,
            final(self).cpu_count == old(self).cpu_count,
            final(self).previous_times == if readings.times is None && old(
                self,
            ).previous_times is Some {
                old(self).previous_times
            } else {
                readings.times
            },
            ({
                let loads = match (old(self).previous_times, readings.times) {
                    (Some(previous), Some(current)) => loads_between(previous@, current@),
                    _ => Seq::<u32>::empty(),
                };
                &&& match mean_of(loads) {
                    None => snapshot.cpu_percent is None,
                    Some(mean) => snapshot.cpu_percent == Some(pattern(mean)),
                }
                &&& is_split_of(
                    old(self).cpu_topology@,
                    loads,
                    snapshot.cpu_p_core_loads@,
                    snapshot.cpu_e_core_loads@,
                )
            }),
            match readings.mhz {
                None => snapshot.cpu_p_mhz is None && snapshot.cpu_e_mhz is None,
                Some(mhz) => exists|performance: Seq<u32>, efficiency: Seq<u32>| #[trigger]
                    is_split_of(old(self).cpu_topology@, singles(mhz@), performance, efficiency)
                        && is_rounded_mean(performance, snapshot.cpu_p_mhz) && is_rounded_mean(
                        efficiency,
                        snapshot.cpu_e_mhz,
                    ),
            },
            snapshot.cpu_temperature == readings.temperature,
            match readings.memory {
                None => snapshot.memory_used_gib == 0 && snapshot.memory_total_gib == 0,
                Some((total, available)) => {
                    &&& snapshot.memory_used_gib == gib(
                        (if total > available {
                            total - available
                        } else {
                            0
                        }) as u64,
                    )
                    &&& snapshot.memory_total_gib == gib(total)
                },
            },
            snapshot.gpu == match readings.gpu {
                None => gpu_unknown(),
                Some(queries) => gpu_of(queries),
            },
            snapshot.io == readings.io,
    {
        let loads = self.sample_cpu_loads(readings.times);
        proof {
            lemma_pow2_strictly_increases(4032, 4086);
            assert(are_means(loads@)) by {
                assert forall|i: int| 0 <= i < loads@.len() implies is_mean(
                    #[trigger] loads@[i],
                ) by {
                    assert(is_amount(loads@[i]));
                }
            }
        }
        let cpu_percent = average(&loads);
        let (cpu_p_core_loads, cpu_e_core_loads) = split_by_core(&self.cpu_topology, &loads);
        let (cpu_p_mhz, cpu_e_mhz) = match readings.mhz {
            None => (None, None),
            Some(mhz) => {
                let (performance, efficiency) = split_by_core(&self.cpu_topology, &to_singles(&mhz));
                (average_u32(&performance), average_u32(&efficiency))
            },
        };
        let (memory_used_gib, memory_total_gib) = match readings.memory {
            None => (0, 0),
            Some((total, available)) => memory_usage(total, available),
        };
        let gpu = match readings.gpu {
            None => GpuSample::unknown(),
            Some(queries) => GpuSample::from_queries(queries),
        };
        Snapshot {
            cpu_percent,
            cpu_temperature: readings.temperature,
            cpu_p_core_loads,
            cpu_e_core_loads,
            cpu_p_mhz,
            cpu_e_mhz,
            memory_used_gib,
            memory_total_gib,
            gpu,
            io: readings.io,
        }
    }
}

/// A number of bytes in gibibytes, taken 1,073,741,824 times, is the number of bytes again, but for less
/// than one part in four million.
pub proof fn lemma_gibibytes_are_bytes(bytes: u64, value: u32)
    requires
        call_ensures(to_gib, (bytes,), value),
    ensures
        0x40_0000 * (1_073_741_824 * number(value)) <= 0x40_0001 * (bytes * one()),
        0x40_0000 * (1_073_741_824 * number(value)) >= 0x3f_ffff * (bytes * one()),
{
    lemma_gibibyte_is_kept();
    lemma_quotient_is_close(bytes as nat, 1_073_741_824);
}

proof fn lemma_gibibyte_is_kept()
    ensures
        single(whole(1_073_741_824), 1) == whole(1_073_741_824),
{
    lemma2_to64();
    lemma2_to64_rest();
    lemma_pow2_adds(30, 4000);
    assert(1 * (1 * pow2(4030)) == whole(1_073_741_824));
    lemma_rounded_keeps_bound(whole(1_073_741_824), 1, 24, 3851, 1, 4030);
}

/// The memory that is used is what there is without what is available, and nothing if more is
/// available than there is; both are told in gibibytes.
pub proof fn lemma_memory_in_use(total: u64, available: u64, usage: (u32, u32), used: u64, value: u32)
    requires
        call_ensures(memory_usage, (total, available), usage),
        call_ensures(to_gib, (used,), value),
    ensures
        used == total ==> usage.1 == value,
        used + available == total ==> usage.0 == value,
        available >= total && used == 0 ==> usage.0 == value,
        available >= total ==> usage.0 == 0,
{
    if available >= total {
        lemma_gibibyte_is_kept();
        lemma_quotient_is_close(0, 1_073_741_824);
        assert(0 * one() == 0);
        assert(number(0) == 0) by {
            assert(exponent(0) == 0);
            assert(0 * pow2(3851) == 0);
        }
        lemma_pattern(0, 0);
    }
}

/// The times of a processor stand in a record of 48 bytes each, as signed numbers of eight bytes: the
/// idle time first, the time in the kernel at 8, and the time in programs at 16.
pub proof fn lemma_times_are_read(
    status: i32,
    data: &[u8],
    times: Option<Vec<ProcessorTimes>>,
    index: int,
)
    requires
        call_ensures(processor_times, (status, data), times),
        0 <= index,
        48 * (index + 1) <= data@.len(),
    ensures
        status < 0 <==> times is None,
        times matches Some(times) ==> {
            let idle = little_endian(data@, 48 * index, 8);
            let kernel = little_endian(data@, 48 * index + 8, 8);
            let user = little_endian(data@, 48 * index + 16, 8);
            &&& 48 * times@.len() <= data@.len() < 48 * times@.len() + 48
            &&& times@[index].idle == idle || times@[index].idle == idle - 0x1_0000_0000_0000_0000
            &&& times@[index].kernel == kernel || times@[index].kernel == kernel
                - 0x1_0000_0000_0000_0000
            &&& times@[index].user == user || times@[index].user == user - 0x1_0000_0000_0000_0000
        },
{
    lemma_numbers_are_little_endian(data@, 48 * index);
    lemma_numbers_are_little_endian(data@, 48 * index + 8);
    lemma_numbers_are_little_endian(data@, 48 * index + 16);
    assert(index * 48 == 48 * index);
}

/// Without a byte there are no times and no frequencies, and a whole answer is taken whatever the
/// result is, unless it is negative.
pub proof fn lemma_answers_are_taken(
    status: i32,
    data: &[u8],
    times: Option<Vec<ProcessorTimes>>,
    mhz: Option<Vec<u32>>,
)
    requires
        call_ensures(processor_times, (status, data), times),
        call_ensures(processor_mhz, (status, data), mhz),
    ensures
        times is Some <==> status >= 0 && data@.len() > 0,
        mhz is Some <==> status >= 0 && data@.len() > 0,
{
}

/// The frequency of a processor stands in a record of 24 bytes each, at 8.
pub proof fn lemma_frequencies_are_read(
    status: i32,
    data: &[u8],
    mhz: Option<Vec<u32>>,
    index: int,
)
    requires
        call_ensures(processor_mhz, (status, data), mhz),
        0 <= index,
        24 * (index + 1) <= data@.len(),
    ensures
        status < 0 <==> mhz is None,
        mhz matches Some(mhz) ==> {
            &&& 24 * mhz@.len() <= data@.len() < 24 * mhz@.len() + 24
            &&& mhz@[index] == little_endian(data@, 24 * index + 8, 4)
        },
{
    lemma_numbers_are_little_endian(data@, 24 * index + 8);
    assert(index * 24 == 24 * index);
}

proof fn lemma_threads_after(record: Seq<u8>, rest: Seq<u8>, offset: int)
    requires
        0 <= offset,
    ensures
        threads_from(record + rest, record.len() + offset) == threads_from(rest, offset),
    decreases rest.len() - offset,
{
    let data = record + rest;
    let start = record.len() + offset;
    if offset + 19 <= rest.len() {
        assert(forall|i: int| 0 <= i < 19 ==> data[#[trigger] (start + i)] == rest[offset + i]);
        assert(data[start] == rest[offset]);
        assert(data[start + 1] == rest[offset + 1]);
        assert(data[start + 2] == rest[offset + 2]);
        assert(data[start + 3] == rest[offset + 3]);
        assert(data[start + 4] == rest[offset + 4]);
        assert(data[start + 4 + 1] == rest[offset + 4 + 1]);
        assert(data[start + 4 + 2] == rest[offset + 4 + 2]);
        assert(data[start + 4 + 3] == rest[offset + 4 + 3]);
        assert(data[start + 12] == rest[offset + 12]);
        assert(data[start + 12 + 1] == rest[offset + 12 + 1]);
        assert(le32(data, start) == le32(rest, offset));
        assert(le32(data, start + 4) == le32(rest, offset + 4));
        assert(thread_at(data, start) == thread_at(rest, offset));
        let size = le32(rest, offset);
        if size >= 19 && offset + size <= rest.len() {
            lemma_threads_after(record, rest, offset + size);
        }
    }
}

/// A record in front of others begins with its size.  If its kind, at 4, is zero, it adds the logical
/// processor whose group is at 12, number at 14, core at 15 and efficiency class at 18; any other kind
/// adds nothing.
pub proof fn lemma_record_adds_its_processor(
    record: Seq<u8>,
    rest: &[u8],
    data: &[u8],
    others: Vec<CpuThread>,
    threads: Vec<CpuThread>,
)
    requires
        record.len() >= 19,
        little_endian(record, 0, 4) == record.len(),
        data@ == record + rest@,
        call_ensures(cpu_topology, (rest,), others),
        call_ensures(cpu_topology, (data,), threads),
    ensures
        little_endian(record, 4, 4) != 0 ==> threads@.to_multiset() == others@.to_multiset(),
        little_endian(record, 4, 4) == 0 ==> threads@.to_multiset() == others@.to_multiset().insert(
            (CpuThread {
                group: (record[12] + 256 * record[13]) as u16,
                logical_index: record[14],
                core_index: record[15],
                efficiency_class: record[18],
            }),
        ),
{
    let table = data@;
    lemma_numbers_are_little_endian(record, 0);
    lemma_numbers_are_little_endian(record, 4);
    assert(forall|i: int| 0 <= i < 19 ==> #[trigger] table[i] == record[i]);
    assert(le32(table, 0) == le32(record, 0));
    assert(le32(table, 4) == le32(record, 4));
    lemma_threads_after(record, rest@, 0);
    let tail = threads_from(rest@, 0);
    let head = thread_at(table, 0);
    if le32(table, 4) == 0 {
        let all = seq![head] + tail;
        assert(all =~= tail.insert(0, head));
        to_multiset_insert(tail, 0, head);
    }
}

/// Where no whole record stands, there is no processor.
pub proof fn lemma_broken_records_end_the_table(data: &[u8], threads: Vec<CpuThread>)
    requires
        call_ensures(cpu_topology, (data,), threads),
        data@.len() < 19 || little_endian(data@, 0, 4) < 19 || little_endian(data@, 0, 4)
            > data@.len(),
    ensures
        threads@.len() == 0,
{
    lemma_numbers_are_little_endian(data@, 0);
}

/// The processors stand by group, and in a group by number.
pub proof fn lemma_processors_stand_in_order(data: &[u8], threads: Vec<CpuThread>, i: int, j: int)
    requires
        call_ensures(cpu_topology, (data,), threads),
        0 <= i < j < threads@.len(),
    ensures
        threads@[i].group <= threads@[j].group,
        threads@[i].group == threads@[j].group ==> threads@[i].logical_index
            <= threads@[j].logical_index,
{
}

proof fn lemma_values_of_class(values: Seq<CoreValue>, count: int, class: u8)
    requires
        0 <= count <= values.len(),
    ensures
        values_of_class(values, count, class) == values.take(count).filter(
            |core: CoreValue| core.efficiency_class == class,
        ).map_values(|core: CoreValue| core.value),
    decreases count,
{
    let has_class = |core: CoreValue| core.efficiency_class == class;
    let value_of = |core: CoreValue| core.value;
    reveal(Seq::filter);
    if count > 0 {
        lemma_values_of_class(values, count - 1, class);
        assert(values.take(count).drop_last() =~= values.take(count - 1));
        let shorter = values.take(count - 1).filter(has_class);
        assert(shorter.push(values[count - 1]).map_values(value_of) =~= shorter.map_values(
            value_of,
        ).push(values[count - 1].value));
    } else {
        assert(values.take(0) =~= Seq::<CoreValue>::empty());
        assert(values.take(0).filter(has_class).map_values(value_of) =~= Seq::<u32>::empty());
    }
}

/// Where one core has a class that no core exceeds, and one has a class that no core falls below, the
/// values of the cores of the higher class come first, in order, and those of the lower class second,
/// unless there is only one class.
pub proof fn lemma_cores_are_split(
    values: &Vec<CoreValue>,
    split: (Vec<u32>, Vec<u32>),
    fast: int,
    saving: int,
)
    requires
        call_ensures(split_core_values, (values,), split),
        0 <= fast < values@.len(),
        0 <= saving < values@.len(),
        forall|i: int|
            0 <= i < values@.len() ==> values@[saving].efficiency_class <= (
            #[trigger] values@[i]).efficiency_class <= values@[fast].efficiency_class,
    ensures
        split.0@ == values@.filter(
            |core: CoreValue| core.efficiency_class == values@[fast].efficiency_class,
        ).map_values(|core: CoreValue| core.value),
        values@[fast].efficiency_class == values@[saving].efficiency_class ==> split.1@.len() == 0
            && split.0@ == values@.map_values(|core: CoreValue| core.value),
        values@[fast].efficiency_class != values@[saving].efficiency_class ==> split.1@
            == values@.filter(
            |core: CoreValue| core.efficiency_class == values@[saving].efficiency_class,
        ).map_values(|core: CoreValue| core.value),
{
    let count = values@.len() as int;
    lemma_class_is_found(values@, count);
    let high = highest_class(values@, count);
    let low = lowest_class(values@, count);
    lemma_classes_bound(values@, count, fast);
    lemma_classes_bound(values@, count, saving);
    assert(values@.take(count) =~= values@);
    lemma_values_of_class(values@, count, high);
    lemma_values_of_class(values@, count, low);
    if high == low {
        let has_class = |core: CoreValue| core.efficiency_class == high;
        lemma_all_are_kept(values@, has_class);
    }
}

proof fn lemma_class_is_found(values: Seq<CoreValue>, count: int)
    requires
        1 <= count <= values.len(),
    ensures
        exists|i: int|
            0 <= i < count && (#[trigger] values[i]).efficiency_class == highest_class(values, count),
        exists|i: int|
            0 <= i < count && (#[trigger] values[i]).efficiency_class == lowest_class(values, count),
    decreases count,
{
    if count > 1 {
        lemma_class_is_found(values, count - 1);
        let last = values[count - 1];
        assert(last.efficiency_class == last.efficiency_class);
    } else {
        assert(values[0].efficiency_class == highest_class(values, count));
    }
}

proof fn lemma_all_are_kept(values: Seq<CoreValue>, kept: spec_fn(CoreValue) -> bool)
    requires
        forall|i: int| 0 <= i < values.len() ==> kept(#[trigger] values[i]),
    ensures
        values.filter(kept) == values,
    decreases values.len(),
{
    reveal(Seq::filter);
    if values.len() > 0 {
        let shorter = values.drop_last();
        assert forall|i: int| 0 <= i < shorter.len() implies kept(#[trigger] shorter[i]) by {
            assert(kept(values[i]));
        }
        lemma_all_are_kept(shorter, kept);
        assert(kept(values.last()));
        assert(shorter.push(values.last()) =~= values);
    }
}

/// A mean in whole numbers is the mean with a half rounded up: it is at most a half above it and less
/// than a half below it, unless it does not fit.
pub proof fn lemma_mean_is_rounded(values: &Vec<u32>, mean: Option<u32>, nearest: Option<u32>)
    requires
        call_ensures(average, (values,), mean),
        call_ensures(average_u32, (values,), nearest),
    ensures
        mean is Some <==> values@.len() > 0,
        nearest is Some <==> values@.len() > 0,
        nearest matches Some(nearest) ==> {
            let value = number(mean->0);
            &&& 2 * (nearest * one()) <= 2 * value + one()
            &&& nearest < u32::MAX ==> 2 * value + one() < 2 * (nearest * one()) + 2 * one()
        },
{
    if values@.len() > 0 {
        let value = mean_value(values@);
        let unit = one();
        lemma_pow2_pos(4000);
        let n = 2 * value + unit;
        let d = 2 * unit;
        lemma_fundamental_div_mod(n as int, d as int);
        let whole_part = n / d;
        assert(d * whole_part == 2 * (whole_part * unit)) by (nonlinear_arith)
            requires
                d == 2 * unit,
        ;
        if whole_part > u32::MAX {
            assert(2 * (u32::MAX * unit) <= 2 * (whole_part * unit)) by (nonlinear_arith)
                requires
                    whole_part > u32::MAX,
                    unit > 0,
            ;
        }
    }
}

/// A processor that was not idle at all was fully used, one that was idle all the time was not used, and
/// without any time there is no load.
#[verifier::rlimit(40)]
pub proof fn lemma_load_of_idle_time(current: ProcessorTimes, previous: ProcessorTimes, load: u32)
    requires
        call_ensures(ProcessorTimes::usage_since, (current, previous), load),
    ensures
        current.kernel <= previous.kernel && current.user <= previous.user ==> load == 0,
        current.idle <= previous.idle && (current.kernel > previous.kernel || current.user
            > previous.user) ==> number(load) == 100 * one(),
        current.user <= previous.user && current.kernel - previous.kernel <= i64::MAX
            && current.idle - previous.idle >= current.kernel - previous.kernel ==> load == 0,
{
    let kernel = growth(current.kernel, previous.kernel) as u64;
    let user = growth(current.user, previous.user) as u64;
    let idle = growth(current.idle, previous.idle) as u64;
    lemma_whole_bounds(kernel, Precision::Double);
    lemma_whole_bounds(user, Precision::Double);
    lemma_whole_bounds(idle, Precision::Double);
    lemma_pow2_pos(4000);
    lemma_pow2_pos(53);
    assert(1 * (0 * pow2(4000)) == 0);
    lemma_rounded_keeps_bound(0, 1, 53, 2926, 0, 4000);
    assert(number(0) == 0) by {
        assert(exponent(0) == 0);
        assert(0 * pow2(3851) == 0);
    }
    if load > 0 {
        lemma_numbers_are_ordered(0, load);
    }
    let total = time_between(current, previous);
    let one_of = double(whole(kernel as nat), 1);
    let other = double(whole(user as nat), 1);
    if kernel == 0 && user == 0 {
        assert(total == 0);
    } else {
        assert(1 * (1 * pow2(4000)) == one());
        lemma2_to64();
        lemma2_to64_rest();
        lemma_rounded_keeps_bound(one(), 1, 53, 2926, 1, 4000);
        lemma_rounded_is_monotone(one(), one_of + other, 1, 53, 2926);
    }
    if current.idle <= previous.idle && (kernel > 0 || user > 0) {
        assert(idle == 0);
        assert(double(whole(0), 1) * one() == 0);
        assert(total * (0 * pow2(4000)) == 0);
        lemma_rounded_keeps_bound(0, total, 53, 2926, 0, 4000);
        assert(idle_share(current, previous) == 0);
        assert(1 * (1 * pow2(4000)) == one());
        assert(double(one(), 1) == one());
        assert(whole(100) * one() == one() * (100 * pow2(4000))) by (nonlinear_arith)
            requires
                whole(100) == 100 * one(),
                one() == pow2(4000),
        ;
        lemma_rounded_keeps_bound(whole(100) * one(), one(), 53, 2926, 100, 4000);
        assert(1 * (100 * pow2(4000)) == whole(100));
        lemma_rounded_keeps_bound(whole(100), 1, 24, 3851, 100, 4000);
    }
    if user == 0 && kernel > 0 && idle >= kernel {
        assert(whole(idle as nat) >= whole(kernel as nat)) by (nonlinear_arith)
            requires
                idle >= kernel,
                whole(idle as nat) == idle as nat * one(),
                whole(kernel as nat) == kernel as nat * one(),
        ;
        lemma_rounded_is_monotone(whole(kernel as nat), whole(idle as nat), 1, 53, 2926);
        lemma_rounded_is_kept(whole(kernel as nat), 1, 53, 2926);
        assert(total == one_of);
        let n = double(whole(idle as nat), 1) * one();
        assert(n >= total * one()) by (nonlinear_arith)
            requires
                n == double(whole(idle as nat), 1) * one(),
                double(whole(idle as nat), 1) >= total,
        ;
        assert(total * (1 * pow2(4000)) == total * one());
        lemma2_to64();
        lemma2_to64_rest();
        lemma_rounded_keeps_bound(total * one(), total, 53, 2926, 1, 4000);
        lemma_rounded_is_monotone(total * one(), n, total, 53, 2926);
    }
}

/// What the graphics card answered with zero is told as it stands, and a power, taken a thousand times, is
/// what was answered but for less than one part in four million; nothing else is told.
pub proof fn lemma_answers_of_the_card(queries: GpuQueries, sample: GpuSample)
    requires
        call_ensures(GpuSample::from_queries, (queries,), sample),
    ensures
        sample.percent == if queries.utilization.result == 0 {
            Some(queries.utilization.value)
        } else {
            None
        },
        sample.temperature == if queries.temperature.result == 0 {
            Some(queries.temperature.value)
        } else {
            None
        },
        queries.power_mw is Some && queries.power_mw->0.result == 0 ==> sample.power_w is Some
            && is_thousandth(sample.power_w->0, queries.power_mw->0.value),
        queries.power_mw is Some && queries.power_mw->0.result != 0 ==> sample.power_w is None,
        queries.power_mw is None ==> sample.power_w is None,
        queries.power_limit_mw is Some && queries.power_limit_mw->0.result == 0 ==> sample.power_limit_w is Some
            && is_thousandth(sample.power_limit_w->0, queries.power_limit_mw->0.value),
        queries.power_limit_mw is Some && queries.power_limit_mw->0.result != 0 ==> sample.power_limit_w is None,
        queries.power_limit_mw is None ==> sample.power_limit_w is None,
        queries.memory is Some && queries.memory->0.result == 0 ==> sample.memory_used_bytes == Some(
            queries.memory->0.used,
        ) && sample.memory_total_bytes == Some(queries.memory->0.total),
        queries.memory is None || queries.memory->0.result != 0 ==> sample.memory_used_bytes is None
            && sample.memory_total_bytes is None,
        queries.graphics_clock_mhz is Some && queries.graphics_clock_mhz->0.result == 0
            ==> sample.graphics_clock_mhz == Some(queries.graphics_clock_mhz->0.value),
        queries.graphics_clock_mhz is None || queries.graphics_clock_mhz->0.result != 0
            ==> sample.graphics_clock_mhz is None,
        queries.memory_clock_mhz is Some && queries.memory_clock_mhz->0.result == 0 ==> sample.memory_clock_mhz
            == Some(queries.memory_clock_mhz->0.value),
        queries.memory_clock_mhz is None || queries.memory_clock_mhz->0.result != 0
            ==> sample.memory_clock_mhz is None,
        queries.performance_state is Some && queries.performance_state->0.result == 0
            ==> sample.performance_state == Some(queries.performance_state->0.value),
        queries.performance_state is None || queries.performance_state->0.result != 0
            ==> sample.performance_state is None,
        queries.fan_percent is Some && queries.fan_percent->0.result == 0 ==> sample.fan_percent == Some(
            queries.fan_percent->0.value,
        ),
        queries.fan_percent is None || queries.fan_percent->0.result != 0 ==> sample.fan_percent is None,
{
    if let Some(asked) = queries.power_mw {
        lemma_thousandth(asked.value);
    }
    if let Some(asked) = queries.power_limit_mw {
        lemma_thousandth(asked.value);
    }
}

/// `bits` is a thousandth of a whole number, but for less than one part in four million.
pub open spec fn is_thousandth(bits: u32, value: u32) -> bool {
    &&& bits < 0x7f80_0000
    &&& 0x40_0000 * (1_000 * number(bits)) <= 0x40_0001 * (value * one())
    &&& 0x40_0000 * (1_000 * number(bits)) >= 0x3f_ffff * (value * one())
}

/// The quotient by a thousand is a thousandth.
pub proof fn lemma_thousandth(value: u32)
    ensures
        is_thousandth(pattern(quotient(value as nat, 1_000)), value),
{
    lemma_whole_is_close(1_000);
    lemma_quotient_is_close(value as nat, 1_000);
    lemma_whole_bounds(value as u64, Precision::Single);
    lemma_pow2_pos(4000);
    lemma_pow2_strictly_increases(4064, 4124);
    let left = single(whole(value as nat), 1);
    assert(left * one() < whole(1_000) * pow2(4124)) by (nonlinear_arith)
        requires
            left < pow2(4124),
            whole(1_000) == 1_000 * one(),
            one() > 0,
    ;
    lemma_single_has_pattern(left * one(), whole(1_000));
}

/// The driver is opened step by step: its library, its functions, its start, its first card.  Whatever
/// fails before the driver was started ends it; if there is no card, the driver is shut down first.
/// Once it is ready or given up, nothing changes.
pub proof fn lemma_driver_is_opened(
    first: GpuStep,
    second: GpuStep,
    third: GpuStep,
    fourth: GpuStep,
    last: GpuStep,
    succeeded: bool,
    still: GpuStep,
    after: GpuStep,
)
    requires
        call_ensures(GpuStep::load, (), first),
        call_ensures(GpuStep::next, (first, true), second),
        call_ensures(GpuStep::next, (second, true), third),
        call_ensures(GpuStep::next, (third, true), fourth),
        call_ensures(GpuStep::next, (fourth, true), last),
        call_ensures(GpuStep::next, (still, succeeded), after),
    ensures
        first is LoadLibrary && second is FindFunctions && third is Initialize && fourth is GetDevice
            && last is Ready,
        !succeeded && (still is LoadLibrary || still is FindFunctions || still is Initialize)
            ==> after is Unavailable,
        !succeeded && still is GetDevice ==> after is Shutdown,
        still is Shutdown ==> after is Unavailable,
        still is Ready ==> after is Ready,
        still is Unavailable ==> after is Unavailable,
{
}

/// The times of all described processors are read first, or of the active ones if none is described;
/// then as many as the last time.
pub proof fn lemma_times_are_wanted(
    topology: Vec<CpuThread>,
    active: usize,
    times: Option<Vec<ProcessorTimes>>,
    monitor: Monitor,
    count: usize,
    wait_ms: u64,
)
    requires
        call_ensures(Monitor::new, (topology, active, times), monitor),
        call_ensures(Monitor::times_wanted, (&monitor,), count),
        call_ensures(Monitor::prime, (&monitor,), wait_ms),
    ensures
        times matches Some(times) ==> count == times@.len(),
        times is None && topology@.len() > 0 ==> count == topology@.len(),
        times is None && topology@.len() == 0 ==> count == active,
        monitor.cpu_topology@ == topology@,
        wait_ms == 250,
{
    assert(topology.len() == topology@.len());
    if let Some(times) = times {
        assert(times.len() == times@.len());
    }
}

/// The loads are those of each processor between the last reading and this one, one for each processor
/// that is in both; the next ones are counted from this reading on, or still from the last one if this
/// one failed.
pub proof fn lemma_loads_are_since_the_last_reading(
    monitor: &mut Monitor,
    times: Option<Vec<ProcessorTimes>>,
    loads: Vec<u32>,
    index: int,
    load: u32,
)
    requires
        call_ensures(Monitor::sample_cpu_loads, (monitor, times), loads),
        0 <= index,
    ensures
        times is Some ==> final(monitor).previous_times == times,
        times is None ==> final(monitor).previous_times == old(monitor).previous_times,
        times is None || old(monitor).previous_times is None ==> loads@.len() == 0,
        times matches Some(current) ==> (old(monitor).previous_times matches Some(previous) ==> {
            &&& loads@.len() <= current@.len() && loads@.len() <= previous@.len()
            &&& loads@.len() == current@.len() || loads@.len() == previous@.len()
            &&& index < loads@.len() ==> (call_ensures(
                ProcessorTimes::usage_since,
                (current@[index], previous@[index]),
                load,
            ) ==> loads@[index] == load)
        }),
{
}

/// A sample tells the mean of the loads since the last reading, the memory in use, what the graphics
/// card answered, and the temperature and the rates as they were read.
pub proof fn lemma_sample_tells_what_was_read(
    monitor: &mut Monitor,
    readings: Readings,
    snapshot: Snapshot,
    loads: &Vec<u32>,
    percent: Option<u32>,
    usage: (u32, u32),
    card: GpuSample,
    nothing: GpuSample,
)
    requires
        call_ensures(Monitor::sample, (monitor, readings), snapshot),
        readings.times matches Some(current) && (old(monitor).previous_times matches Some(previous)
            && loads@ == loads_between(previous@, current@)) || (readings.times is None || old(
            monitor,
        ).previous_times is None) && loads@.len() == 0,
        call_ensures(average, (loads,), percent),
        readings.memory matches Some(memory) ==> call_ensures(
            memory_usage,
            (memory.0, memory.1),
            usage,
        ),
        readings.gpu matches Some(queries) ==> call_ensures(GpuSample::from_queries, (queries,), card),
        call_ensures(GpuSample::unknown, (), nothing),
    ensures
        snapshot.cpu_percent == percent,
        snapshot.cpu_temperature == readings.temperature,
        readings.mhz is None ==> snapshot.cpu_p_mhz is None && snapshot.cpu_e_mhz is None,
        readings.memory is Some ==> snapshot.memory_used_gib == usage.0 && snapshot.memory_total_gib
            == usage.1,
        readings.memory is None ==> snapshot.memory_used_gib == 0 && snapshot.memory_total_gib == 0,
        readings.gpu is Some ==> snapshot.gpu == card,
        readings.gpu is None ==> snapshot.gpu == nothing && nothing.percent is None
            && nothing.temperature is None && nothing.power_w is None && nothing.power_limit_w is None
            && nothing.memory_used_bytes is None && nothing.memory_total_bytes is None
            && nothing.graphics_clock_mhz is None && nothing.memory_clock_mhz is None
            && nothing.performance_state is None && nothing.fan_percent is None,
        snapshot.io == readings.io,
{
    assert(loads@ =~= match (old(monitor).previous_times, readings.times) {
        (Some(previous), Some(current)) => loads_between(previous@, current@),
        _ => Seq::<u32>::empty(),
    });
}

/// A bit pattern of single precision stands for a number that is kept in either precision.
proof fn lemma_number_stays(bits: u32, denominator: nat)
    requires
        bits < 0x7f80_0000,
        denominator > 0,
    ensures
        single(denominator * number(bits), denominator) == number(bits),
        double(denominator * number(bits), denominator) == number(bits),
{
    lemma2_to64();
    lemma2_to64_rest();
    let digits = if exponent(bits) == 0 {
        bits as nat % 0x80_0000
    } else {
        significand(bits) as nat
    };
    let power = if exponent(bits) == 0 {
        3851nat
    } else {
        (3850 + exponent(bits)) as nat
    };
    assert(number(bits) == digits * pow2(power));
    assert(digits < 0x100_0000);
    lemma_rounded_keeps_bound(denominator * number(bits), denominator, 24, 3851, digits, power);
    lemma_rounded_keeps_bound(denominator * number(bits), denominator, 53, 2926, digits, power);
}

/// The mean of a single value is the value.
pub proof fn lemma_mean_of_one(values: &Vec<u32>, mean: Option<u32>)
    requires
        values@.len() == 1,
        values@[0] < 0x7f80_0000,
        call_ensures(average, (values,), mean),
    ensures
        mean == Some(values@[0]),
{
    let value = values@[0];
    reveal_with_fuel(sum_of, 2);
    lemma_number_stays(value, 1);
    assert(1 * number(value) == number(value));
    assert(sum_of(values@, 1) == number(value));
    lemma_pow2_pos(4000);
    lemma_whole_is_close(1);
    assert(whole(1) == one());
    lemma_number_stays(value, one());
    assert(one() * number(value) == number(value) * one()) by (nonlinear_arith);
    lemma_pattern(value, number(value));
}

proof fn lemma_cores_before(
    topology: Seq<CpuThread>,
    values: Seq<u32>,
    thread: CpuThread,
    value: u32,
    count: int,
)
    requires
        0 <= count <= topology.len(),
        topology.len() == values.len(),
    ensures
        cores(topology.push(thread), count) == cores(topology, count),
        forall|core: CpuThread| #[trigger]
            core_sum(topology.push(thread), values.push(value), count, core) == core_sum(
                topology,
                values,
                count,
                core,
            ),
        forall|core: CpuThread| #[trigger]
            core_size(topology.push(thread), count, core) == core_size(topology, count, core),
    decreases count,
{
    if count > 0 {
        let longer = topology.push(thread);
        lemma_cores_before(topology, values, thread, value, count - 1);
        assert(longer[count - 1] == topology[count - 1]);
        assert(values.push(value)[count - 1] == values[count - 1]);
        assert(forall|j: int| 0 <= j < count - 1 ==> #[trigger] longer[j] == topology[j]);
        if is_first_of_core(longer, count - 1) {
            assert forall|j: int| 0 <= j < count - 1 implies !same_core(
                #[trigger] topology[j],
                topology[count - 1],
            ) by {
                assert(!same_core(longer[j], longer[count - 1]));
            }
        }
        assert(is_first_of_core(longer, count - 1) == is_first_of_core(topology, count - 1));
        assert forall|core: CpuThread| #[trigger]
            core_sum(longer, values.push(value), count, core) == core_sum(
                topology,
                values,
                count,
                core,
            ) by {
            assert(core_sum(longer, values.push(value), count - 1, core) == core_sum(
                topology,
                values,
                count - 1,
                core,
            ));
        }
        assert forall|core: CpuThread| #[trigger]
            core_size(longer, count, core) == core_size(topology, count, core) by {
            assert(core_size(longer, count - 1, core) == core_size(topology, count - 1, core));
        }
    }
}

/// One more processor of a core that has none yet adds its core, with its own class and value, behind
/// the others.  One more of a core that is there adds none: every core keeps its class, and every other
/// core its value.
pub proof fn lemma_processors_share_cores(
    topology: &[CpuThread],
    values: &[u32],
    more: &[CpuThread],
    more_values: &[u32],
    averages: Vec<CoreValue>,
    more_averages: Vec<CoreValue>,
    thread: CpuThread,
    value: u32,
)
    requires
        topology@.len() == values@.len(),
        more@ == topology@.push(thread),
        more_values@ == values@.push(value),
        value < 0x7f80_0000,
        call_ensures(physical_core_averages, (topology, values), averages),
        call_ensures(physical_core_averages, (more, more_values), more_averages),
    ensures
        (forall|i: int|
            0 <= i < topology@.len() ==> (#[trigger] topology@[i]).group != thread.group
                || topology@[i].core_index != thread.core_index) ==> more_averages@
            == averages@.push(CoreValue { efficiency_class: thread.efficiency_class, value }),
        (exists|i: int|
            0 <= i < topology@.len() && (#[trigger] topology@[i]).group == thread.group
                && topology@[i].core_index == thread.core_index) ==> {
            &&& more_averages@.len() == averages@.len()
            &&& forall|c: int|
                0 <= c < averages@.len() ==> (#[trigger] more_averages@[c]).efficiency_class
                    == averages@[c].efficiency_class
            &&& forall|c: int, d: int|
                0 <= c < averages@.len() && 0 <= d < averages@.len() && c != d ==> (
                #[trigger] more_averages@[c]).value == averages@[c].value || (
                #[trigger] more_averages@[d]).value == averages@[d].value
        },
{
    let count = topology@.len() as int;
    lemma_cores_before(topology@, values@, thread, value, count);
    let before = cores(topology@, count);
    let after = cores(more@, count + 1);
    assert(more@[count] == thread);
    assert(more_values@[count] == value);
    assert(forall|j: int| 0 <= j < count ==> #[trigger] more@[j] == topology@[j]);
    assert forall|c: int|
        0 <= c < before.len() && !same_core(thread, topology@[before[c]]) implies (
    #[trigger] more_averages@[c]) == averages@[c] by {
        lemma_core_is_first(topology@, count, c);
        let first = topology@[before[c]];
        assert(after[c] == before[c]);
        let sum = core_mean(
            core_sum(topology@, values@, count, first),
            core_size(topology@, count, first),
        );
        assert(more@[before[c]] == first);
        assert(core_sum(more@, more_values@, count + 1, first) == core_sum(
            topology@.push(thread),
            values@.push(value),
            count,
            first,
        ));
        assert(core_size(more@, count + 1, first) == core_size(
            topology@.push(thread),
            count,
            first,
        ));
        assert(is_pattern_of(averages@[c].value, sum));
        assert(is_pattern_of(more_averages@[c].value, sum));
        lemma_pattern(averages@[c].value, sum);
        lemma_pattern(more_averages@[c].value, sum);
    }
    assert forall|c: int| 0 <= c < before.len() implies (
    #[trigger] more_averages@[c]).efficiency_class == averages@[c].efficiency_class by {
        lemma_core_is_first(topology@, count, c);
        assert(after[c] == before[c]);
    }
    if is_first_of_core(more@, count) {
        assert forall|i: int| 0 <= i < count implies !same_core(#[trigger] topology@[i], thread) by {
            assert(!same_core(more@[i], more@[count]));
        }
        assert forall|c: int| 0 <= c < before.len() implies !same_core(
            thread,
            topology@[#[trigger] before[c]],
        ) by {
            lemma_core_is_first(topology@, count, c);
        }
        assert(after == before.push(count));
        lemma_no_earlier(more@, more_values@, count);
        let last = before.len() as int;
        assert(after[last] == count);
        let made = more_averages@[last];
        lemma_number_stays(value, 1);
        assert(1 * number(value) == number(value));
        assert(core_sum(more@, more_values@, count + 1, thread) == number(value));
        assert(core_size(more@, count + 1, thread) == 1);
        lemma_pow2_pos(4000);
        lemma2_to64();
        lemma2_to64_rest();
        assert(1 * (1 * pow2(4000)) == whole(1));
        lemma_rounded_keeps_bound(whole(1), 1, 53, 2926, 1, 4000);
        assert(whole(1) == one());
        lemma_number_stays(value, one());
        assert(one() * number(value) == number(value) * one()) by (nonlinear_arith);
        assert(is_pattern_of(made.value, number(value)));
        lemma_pattern(value, number(value));
        lemma_pattern(made.value, number(value));
        assert(more_averages@ =~= averages@.push(
            CoreValue { efficiency_class: thread.efficiency_class, value },
        ));
    } else {
        assert forall|c: int, d: int|
            0 <= c < averages@.len() && 0 <= d < averages@.len() && c != d implies (
        #[trigger] more_averages@[c]).value == averages@[c].value || (
        #[trigger] more_averages@[d]).value == averages@[d].value by {
            lemma_core_is_first(topology@, count, c);
            lemma_core_is_first(topology@, count, d);
            lemma_cores_differ(topology@, count, c, d);
        }
    }
}

/// The list of cores holds each core once.
proof fn lemma_cores_differ(topology: Seq<CpuThread>, count: int, c: int, d: int)
    requires
        0 <= count <= topology.len(),
        0 <= c < cores(topology, count).len(),
        0 <= d < cores(topology, count).len(),
        c != d,
    ensures
        !same_core(topology[cores(topology, count)[c]], topology[cores(topology, count)[d]]),
    decreases count,
{
    let fewer = cores(topology, count - 1).len();
    lemma_core_is_first(topology, count, c);
    lemma_core_is_first(topology, count, d);
    if c < fewer && d < fewer {
        lemma_cores_differ(topology, count - 1, c, d);
    } else if c < fewer {
        lemma_core_is_first(topology, count - 1, c);
    } else {
        lemma_core_is_first(topology, count - 1, d);
    }
}

/// The averages of the cores are told by the processors and their values.
proof fn lemma_averages_are_told(
    topology: Seq<CpuThread>,
    values: Seq<u32>,
    averages: Seq<CoreValue>,
    others: Seq<CoreValue>,
)
    requires
        are_core_averages(topology, values, averages),
        are_core_averages(topology, values, others),
    ensures
        averages == others,
{
    let count = paired(topology, values);
    assert forall|c: int| 0 <= c < averages.len() implies averages[c] == others[c] by {
        let first = topology[cores(topology, count)[c]];
        let mean = core_mean(
            core_sum(topology, values, count, first),
            core_size(topology, count, first),
        );
        assert(is_pattern_of(averages[c].value, mean));
        assert(is_pattern_of(others[c].value, mean));
        lemma_pattern(averages[c].value, mean);
        lemma_pattern(others[c].value, mean);
    }
    assert(averages =~= others);
}

/// The frequencies that a sample tells are the means, in whole numbers, of those of the fast cores and of
/// the saving ones, where that of a core is the mean of its processors.
pub proof fn lemma_frequencies_are_told(
    monitor: &mut Monitor,
    readings: Readings,
    snapshot: Snapshot,
    topology: &[CpuThread],
    values: &[u32],
    averages: Vec<CoreValue>,
    split: (Vec<u32>, Vec<u32>),
    fast: Option<u32>,
    saving: Option<u32>,
)
    requires
        call_ensures(Monitor::sample, (monitor, readings), snapshot),
        topology@ == old(monitor).cpu_topology@,
        readings.mhz matches Some(mhz) && mhz@.len() == values@.len() && forall|i: int|
            0 <= i < mhz@.len() ==> (#[trigger] mhz@[i]) < 0x100_0000 && values@[i] < 0x7f80_0000
                && number(values@[i]) == mhz@[i] * one(),
        call_ensures(physical_core_averages, (topology, values), averages),
        call_ensures(split_core_values, (&averages,), split),
        call_ensures(average_u32, (&split.0,), fast),
        call_ensures(average_u32, (&split.1,), saving),
    ensures
        snapshot.cpu_p_mhz == fast,
        snapshot.cpu_e_mhz == saving,
{
    let mhz = readings.mhz->0@;
    assert forall|i: int| 0 <= i < mhz.len() implies #[trigger] singles(mhz)[i] == values@[i] by {
        assert(mhz[i] < 0x100_0000);
        lemma_whole_is_close(mhz[i] as nat);
        lemma_pattern(values@[i], whole(mhz[i] as nat));
    }
    assert(singles(mhz) =~= values@);
    let (performance, efficiency) = choose|performance: Seq<u32>, efficiency: Seq<u32>| #[trigger]
        is_split_of(old(monitor).cpu_topology@, singles(mhz), performance, efficiency)
            && is_rounded_mean(performance, snapshot.cpu_p_mhz) && is_rounded_mean(
            efficiency,
            snapshot.cpu_e_mhz,
        );
    let found = choose|found: Seq<CoreValue>| #[trigger]
        are_core_averages(old(monitor).cpu_topology@, singles(mhz), found) && is_class_split(
            found,
            performance,
            efficiency,
        );
    lemma_averages_are_told(topology@, values@, averages@, found);
    assert(performance =~= split.0@);
    assert(efficiency =~= split.1@);
}

} // verus!
