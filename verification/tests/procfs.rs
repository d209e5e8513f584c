//! The texts of the kernel.

use linux_tui_monitor::error::ReadError;
use linux_tui_monitor::procfs::{
    read_cpu_model, read_cpu_snapshot, read_cpu_times, read_memory_kb, read_network_totals,
    CpuSnapshot, CpuTimes, NetSnapshot,
};

const STAT: &str = "cpu  10 20 30 400 50 6 7 8 9 10\ncpu0 1 2 3 4 5 6 7 8\nintr 1\n";

const NET: &str = "Inter-|   Receive                                                |  Transmit
 face |bytes    packets errs drop fifo frame compressed multicast|bytes    packets errs drop fifo colls carrier compressed
    lo: 5000 10 0 0 0 0 0 0 6000 10 0 0 0 0 0 0
  eth0: 100 1 0 0 0 0 0 0 200 2 0 0 0 0 0 0
wlan0:30 1 0 0 0 0 0 0 40 2 0 0 0 0 0 0
";

#[test]
fn processor_times_are_those_of_all_processors() {
    let times = read_cpu_times(STAT).unwrap();
    assert_eq!(
        times,
        CpuTimes {
            user: 10,
            nice: 20,
            system: 30,
            idle: 400,
            iowait: 50,
            irq: 6,
            softirq: 7,
            steal: 8
        }
    );
    assert!(times.fits());
    assert_eq!(times.snapshot(), CpuSnapshot { total: 531, idle: 450 });
}

#[test]
fn a_snapshot_is_read_from_the_text() {
    assert_eq!(read_cpu_snapshot(STAT), Ok(CpuSnapshot { total: 531, idle: 450 }));
    assert_eq!(read_cpu_snapshot("cpu \n"), Ok(CpuSnapshot { total: 0, idle: 0 }));
    assert_eq!(read_cpu_snapshot("intr 1\n"), Err(ReadError::CpuLineMissing));
}

#[test]
fn missing_or_bad_processor_times_are_zero() {
    let times = read_cpu_times("intr 5\ncpu  10 x 30").unwrap();
    assert_eq!(times.snapshot(), CpuSnapshot { total: 40, idle: 0 });
}

#[test]
fn processor_times_need_their_line() {
    assert_eq!(read_cpu_times("cpu0 1 2 3\n"), Err(ReadError::CpuLineMissing));
    assert_eq!(read_cpu_times(""), Err(ReadError::CpuLineMissing));
    assert_eq!(ReadError::CpuLineMissing.message(), "cpu line missing");
}

#[test]
fn processor_times_may_be_too_many_for_a_total() {
    let times = read_cpu_times("cpu  18446744073709551615 1").unwrap();
    assert!(!times.fits());
    let times = read_cpu_times("cpu  18446744073709551614 1").unwrap();
    assert!(times.fits());
    assert_eq!(times.snapshot().total, u64::MAX);
}

#[test]
fn used_memory_is_what_is_not_available() {
    let text = "MemTotal:       16303428 kB\nMemFree:  1 kB\nMemAvailable:    6303428 kB\n";
    assert_eq!(read_memory_kb(text), (10_000_000, 16_303_428));
    assert_eq!(read_memory_kb("MemAvailable: 5 kB\n"), (0, 0));
    assert_eq!(read_memory_kb("MemTotal: 5 kB\nMemAvailable: 7 kB"), (0, 5));
    assert_eq!(read_memory_kb("MemTotal: 5\nMemTotal: 9\nMemAvailable:\n"), (9, 9));
    assert_eq!(read_memory_kb(""), (0, 0));
}

#[test]
fn traffic_is_that_of_all_interfaces_but_loopback() {
    assert_eq!(read_network_totals(NET), NetSnapshot { recv: 130, sent: 240 });
}

#[test]
fn loopback_does_not_change_the_traffic() {
    let without: Vec<&str> = NET.lines().filter(|l| !l.contains("lo:")).collect();
    assert_eq!(read_network_totals(&without.join("\n")), read_network_totals(NET));
}

#[test]
fn traffic_skips_headings_and_short_lines() {
    assert_eq!(read_network_totals(""), NetSnapshot { recv: 0, sent: 0 });
    assert_eq!(read_network_totals("a\n"), NetSnapshot { recv: 0, sent: 0 });
    let text = "h\nh\neth0: 1 2 3\nno colon 1 2 3 4 5 6 7 8 9 10 11 12 13 14 15 16\n";
    assert_eq!(read_network_totals(text), NetSnapshot { recv: 0, sent: 0 });
    let bad = "h\nh\neth0: x 2 3 4 5 6 7 8 9 10 11 12 13 14 15 16\n";
    assert_eq!(read_network_totals(bad), NetSnapshot { recv: 0, sent: 9 });
}

#[test]
fn traffic_stops_at_the_largest_number() {
    let line = "eth: 18446744073709551615 2 3 4 5 6 7 8 9 10 11 12 13 14 15 16";
    let text = format!("h\nh\n{line}\n{line}\n");
    assert_eq!(read_network_totals(&text), NetSnapshot { recv: u64::MAX, sent: 18 });
}

#[test]
fn the_processor_goes_by_its_first_model_name() {
    let text = "processor\t: 0\nmodel name\t:  \nmodel name\t: Fast CPU @ 3GHz \nmodel name\t: Other\n";
    assert_eq!(read_cpu_model(text).unwrap(), "Fast CPU @ 3GHz");
}

#[test]
fn a_processor_may_have_no_model_name() {
    assert_eq!(read_cpu_model("model name : x\n"), Err(ReadError::CpuModelNotFound));
    assert_eq!(ReadError::CpuModelNotFound.message(), "CPU model field not found");
}
