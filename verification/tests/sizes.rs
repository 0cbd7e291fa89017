use nymx::rounding::{double_of, percent_of, round_to_even};
use nymx::send::chunk_count;
use nymx::utils::{as_signed, format_bytes};

/// Numbers around every power of two.
fn samples() -> Vec<u64> {
    let mut all: Vec<u64> = vec![0, 1, 2, 3, 1000, 123456789, 98765432123456789];
    for shift in 0..64u32 {
        let p = 1u64 << shift;
        for near in [p, p.wrapping_sub(1), p.wrapping_add(1), p.wrapping_add(p / 3)] {
            all.push(near);
        }
    }
    all.push(u64::MAX);
    all
}

#[test]
fn sizes_below_a_kib_are_in_bytes() {
    assert_eq!(format_bytes(0), "0 B");
    assert_eq!(format_bytes(1023), "1023 B");
    assert_eq!(format_bytes(-5), "-5 B");
    assert_eq!(format_bytes(i64::MIN), "-9223372036854775808 B");
}

#[test]
fn sizes_have_one_decimal_and_a_unit() {
    assert_eq!(format_bytes(1024), "1.0 KiB");
    assert_eq!(format_bytes(1536), "1.5 KiB");
    assert_eq!(format_bytes(1024 * 1024 - 1), "1024.0 KiB");
    assert_eq!(format_bytes(5 * 1024 * 1024), "5.0 MiB");
    assert_eq!(format_bytes(3 * 1024 * 1024 * 1024), "3.0 GiB");
    assert_eq!(format_bytes(1 << 40), "1.0 TiB");
    assert_eq!(format_bytes(1 << 50), "1.0 PiB");
    assert_eq!(format_bytes(1 << 60), "1.0 EiB");
    assert_eq!(format_bytes(i64::MAX), "8.0 EiB");
}

#[test]
fn halves_of_a_decimal_go_to_the_even_one() {
    assert_eq!(format_bytes(1280), "1.2 KiB");
    assert_eq!(format_bytes(1792), "1.8 KiB");
}

#[test]
fn sizes_are_those_of_the_standard_formatting() {
    let units = ["K", "M", "G", "T", "P", "E"];
    for n in samples() {
        if n > i64::MAX as u64 || n < 1024 {
            continue;
        }
        let mut div: u64 = 1024;
        let mut exp = 0;
        while n / div >= 1024 {
            div *= 1024;
            exp += 1;
        }
        let expected = format!("{:.1} {}iB", n as f64 / div as f64, units[exp]);
        assert_eq!(format_bytes(n as i64), expected, "of {}", n);
    }
}

#[test]
fn the_sign_is_the_first_bit() {
    assert_eq!(as_signed(0), 0);
    assert_eq!(as_signed(i64::MAX as u64), i64::MAX);
    for n in samples() {
        assert_eq!(as_signed(n), n as i64);
    }
}

#[test]
fn doubles_are_those_of_the_machine() {
    for n in samples() {
        assert_eq!(double_of(n as u128), (n as f64) as u128, "of {}", n);
    }
}

#[test]
fn rounding_goes_to_the_nearest_and_halves_to_even() {
    assert_eq!(round_to_even(5, 2), 2);
    assert_eq!(round_to_even(7, 2), 4);
    assert_eq!(round_to_even(8, 3), 3);
    assert_eq!(round_to_even(7, 3), 2);
}

#[test]
fn percentages_are_those_of_the_machine() {
    let totals = [1u32, 2, 3, 7, 10, 29, 57, 100, 113, 1000, 65537, 1_000_003, u32::MAX];
    for total in totals {
        let steps = if total < 200 { total } else { 200 };
        for i in 0..steps {
            let done = ((total as u64 * (i as u64 + 1)) / steps as u64) as u32;
            let expected = (done as f64 / total as f64 * 100.0).floor() as i32;
            assert_eq!(percent_of(done, total), expected, "{} of {}", done, total);
        }
        assert_eq!(percent_of(total, total), 100);
    }
    assert_eq!(percent_of(29, 100), 28);
}

#[test]
fn chunk_counts_are_those_of_the_machine() {
    for n in samples() {
        let expected = ((n as f64) / 65536.0).ceil() as usize;
        assert_eq!(chunk_count(n), expected, "of {}", n);
    }
    assert_eq!(chunk_count(0), 0);
    assert_eq!(chunk_count(1), 1);
    assert_eq!(chunk_count(65536), 1);
    assert_eq!(chunk_count(65537), 2);
}
