//! Sizes and rates against the formulas they stand for.

use linux_tui_monitor::double::Double;
use linux_tui_monitor::units::{bytes_to_human, bytes_to_human_size, kib_to_human};

fn sizes() -> Vec<u64> {
    let mut res = vec![0, 1, 512, 1023, 1024, 1025, 1536, 10_000, 1_048_575, 1_048_576, 1_048_577];
    for shift in 0..64 {
        res.push(1u64 << shift);
        res.push((1u64 << shift) | 0x5555);
        res.push(u64::MAX >> shift);
    }
    res
}

#[test]
fn memory_is_shown_in_mib_or_gib() {
    assert_eq!(kib_to_human(0), "0 MiB");
    assert_eq!(kib_to_human(512), "0 MiB");
    assert_eq!(kib_to_human(1536), "2 MiB");
    assert_eq!(kib_to_human(1_048_575), "1024 MiB");
    assert_eq!(kib_to_human(1_048_576), "1.00 GiB");
    assert_eq!(kib_to_human(16_303_428), "15.55 GiB");
    for kib in sizes() {
        let mib = kib as f64 / 1024.0;
        let gib = mib / 1024.0;
        let want = if gib >= 1.0 { format!("{gib:.2} GiB") } else { format!("{mib:.0} MiB") };
        assert_eq!(kib_to_human(kib), want);
        assert_eq!(kib_to_human(kib).ends_with("GiB"), kib >= 1 << 20);
    }
}

#[test]
fn sizes_are_shown_in_the_largest_unit_that_fits() {
    assert_eq!(bytes_to_human_size(0), "0 B");
    assert_eq!(bytes_to_human_size(1023), "1023 B");
    assert_eq!(bytes_to_human_size(1024), "1.0 KiB");
    assert_eq!(bytes_to_human_size(1536), "1.5 KiB");
    assert_eq!(bytes_to_human_size(5 * 1024 * 1024), "5.0 MiB");
    assert_eq!(bytes_to_human_size(3 << 30), "3.0 GiB");
    assert_eq!(bytes_to_human_size(u64::MAX), "16777216.0 TiB");
    for bytes in sizes() {
        let units = ["B", "KiB", "MiB", "GiB", "TiB"];
        let mut value = bytes as f64;
        let mut idx = 0;
        while value >= 1024.0 && idx < 4 {
            value /= 1024.0;
            idx += 1;
        }
        let want = if idx == 0 {
            format!("{} {}", bytes, units[idx])
        } else {
            format!("{value:.1} {}", units[idx])
        };
        assert_eq!(bytes_to_human_size(bytes), want);
    }
}

#[test]
fn small_sizes_are_exact() {
    for bytes in 0..1024u64 {
        assert_eq!(bytes_to_human_size(bytes), format!("{bytes} B"));
    }
}

#[test]
fn rates_have_two_decimal_places() {
    assert_eq!(bytes_to_human(Double::zero()), "0.00 B/s");
    assert_eq!(bytes_to_human(Double::from_u64(1024)), "1.00 KB/s");
    assert_eq!(bytes_to_human(Double::from_u64(u64::MAX)), "16777216.00 TB/s");
    let third = Double::from_u64(1000).over(Double::from_u64(3));
    assert_eq!(bytes_to_human(third), "333.33 B/s");
    for bytes in sizes() {
        let units = ["B/s", "KB/s", "MB/s", "GB/s", "TB/s"];
        let mut value = (bytes as f64 / 3.0).max(0.0);
        let mut idx = 0;
        while value >= 1024.0 && idx < 4 {
            value /= 1024.0;
            idx += 1;
        }
        let rate = Double::from_u64(bytes).over(Double::from_u64(3));
        assert_eq!(bytes_to_human(rate), format!("{value:.2} {}", units[idx]));
    }
}

#[test]
fn no_rate_is_below_zero() {
    let below = Double::zero().minus(Double::from_u64(5000));
    assert_eq!(bytes_to_human(below), "0.00 B/s");
    for exponent in [-1000, -500, 0, 48, 97, 900] {
        let below = Double { negative: true, mantissa: 1 << 52, exponent };
        assert_eq!(bytes_to_human(below), "0.00 B/s");
    }
}

#[test]
fn rates_of_every_size_are_shown() {
    for exponent in [-1000, -401, -60, 40, 49, 96] {
        let rate = Double { negative: false, mantissa: (1 << 53) - 1, exponent };
        let mut value = f64::from_bits(rate.to_bits());
        let mut idx = 0;
        while value >= 1024.0 && idx < 4 {
            value /= 1024.0;
            idx += 1;
        }
        let units = ["B/s", "KB/s", "MB/s", "GB/s", "TB/s"];
        assert_eq!(bytes_to_human(rate), format!("{value:.2} {}", units[idx]));
    }
}
