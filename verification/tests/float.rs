use looppanel::float::{
    add_floats, convert_float, divide_floats, divide_integers, from_bits, from_integer, is_less,
    multiply_floats, rest_of_one, round_to_whole, to_bits, to_nanoseconds, Float, Precision,
};

fn numbers() -> Vec<f32> {
    let mut numbers = vec![0.0, 1.0, 0.1, 1.5, 3.0, 7.0e-10, 16_777_215.0, 16_777_216.0, 1.0e9];
    let mut state = 99_u32;
    for _ in 0..60 {
        state = state.wrapping_mul(1_664_525).wrapping_add(1_013_904_223);
        numbers.push(f32::from_bits(0x3000_0000 + state % 0x1800_0000));
    }
    numbers
}

fn float(number: f32) -> Float {
    from_bits(number.to_bits())
}

fn single(number: Float) -> f32 {
    f32::from_bits(to_bits(number))
}

#[test]
fn arithmetic_is_that_of_single_precision() {
    for a in numbers() {
        assert_eq!(single(float(a)), a);
        for b in numbers() {
            let (x, y) = (float(a), float(b));
            assert_eq!(single(add_floats(x, y, Precision::Single)), a + b, "{a} + {b}");
            assert_eq!(single(multiply_floats(x, y, Precision::Single)), a * b, "{a} * {b}");
            assert_eq!(is_less(x, y), a < b);
            if b > 0.0 {
                let quotient = divide_floats(x, y, Precision::Single);
                assert_eq!(single(quotient), a / b, "{a} / {b}");
            }
        }
    }
}

#[test]
fn arithmetic_is_that_of_double_precision() {
    let convert = |number: Float| single(convert_float(number, Precision::Single));
    for a in numbers() {
        for b in numbers() {
            let (x, y) = (float(a), float(b));
            let (p, q) = (f64::from(a), f64::from(b));
            let sum = add_floats(add_floats(x, y, Precision::Double), x, Precision::Double);
            assert_eq!(convert(sum), (p + q + p) as f32);
            let product = multiply_floats(x, y, Precision::Double);
            assert_eq!(convert(product), (p * q) as f32);
            if b > 0.0 {
                let quotient = divide_floats(x, y, Precision::Double);
                assert_eq!(convert(quotient), (p / q) as f32);
            }
        }
    }
}

#[test]
fn whole_numbers_are_rounded_to_even() {
    for value in [0, 1, 255, (1 << 24) + 1, (1 << 25) + 3, (1 << 53) + 1, u64::MAX] {
        assert_eq!(single(from_integer(value, Precision::Single)), value as f32);
        let double = from_integer(value, Precision::Double);
        assert_eq!(single(convert_float(double, Precision::Single)), value as f64 as f32);
        for divisor in [1, 3, 1_000, 1 << 30, u64::MAX] {
            let expected = value as f32 / divisor as f32;
            assert_eq!(divide_integers(value, divisor), expected.to_bits());
        }
    }
}

#[test]
fn numbers_become_whole_numbers() {
    for number in [0.0, 0.25, 0.499_999_97, 0.5, 1.5, 2.5, 8_388_607.5, 4.0e9, 4.3e9, 1.0e20] {
        let number: f32 = number;
        assert_eq!(round_to_whole(float(number)), number.round() as u32, "{number}");
    }
    for number in [0.0, 0.25, 0.3, 0.999_999_94, 1.0] {
        let number: f32 = number;
        assert_eq!(single(rest_of_one(float(number), Precision::Single)), 1.0 - number);
    }
    for seconds in [0.0, 1.0e-9, 0.1, 0.333_333_34, 1.0, 59.999, 7_654_321.5] {
        let seconds: f32 = seconds;
        let expected = std::time::Duration::from_secs_f32(seconds).as_nanos() as u64;
        assert_eq!(to_nanoseconds(float(seconds)), expected, "{seconds}");
    }
}
