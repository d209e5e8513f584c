//! The order of the process list.

use linux_tui_monitor::double::Double;
use linux_tui_monitor::ranking::{top_processes, ProcessInfo};

fn info(pid: i32, usage: u64, rss_bytes: u64) -> ProcessInfo {
    ProcessInfo { pid, cpu_usage: Double::from_u64(usage), rss_bytes, cmdline: format!("p{pid}") }
}

fn pids(list: &Vec<ProcessInfo>) -> Vec<i32> {
    list.iter().map(|p| p.pid).collect()
}

#[test]
fn the_busiest_come_first_then_the_largest() {
    let list = vec![info(1, 5, 10), info(2, 7, 1), info(3, 5, 20), info(4, 0, 99), info(5, 5, 20)];
    assert_eq!(pids(&top_processes(&list)), vec![2, 3, 5, 1, 4]);
}

#[test]
fn ten_processes_at_most_are_shown() {
    let list: Vec<ProcessInfo> = (0..25).map(|i| info(i, (i as u64 * 7) % 25, 1)).collect();
    let shown = top_processes(&list);
    assert_eq!(shown.len(), 10);
    let mut want: Vec<u64> = (0..25).map(|i| (i * 7) % 25).collect();
    want.sort_by(|a, b| b.cmp(a));
    want.truncate(10);
    let found: Vec<u64> = shown.iter().map(|p| (p.pid as u64 * 7) % 25).collect();
    assert_eq!(found, want);
    assert_eq!(shown[0].cmdline, format!("p{}", shown[0].pid));
}

#[test]
fn fewer_processes_are_all_shown() {
    assert!(top_processes(&vec![]).is_empty());
    assert_eq!(pids(&top_processes(&vec![info(9, 0, 0)])), vec![9]);
}

#[test]
fn the_order_is_that_of_a_stable_sort() {
    let mut x: u64 = 12345;
    for round in 0..50 {
        let mut list: Vec<ProcessInfo> = vec![];
        for pid in 0..(round % 23) {
            x = x.wrapping_mul(6364136223846793005).wrapping_add(1442695040888963407);
            list.push(info(pid, (x >> 33) % 4, (x >> 40) % 3));
        }
        let mut want: Vec<(u64, u64, i32)> = list
            .iter()
            .map(|p| (f64::from_bits(p.cpu_usage.to_bits()) as u64, p.rss_bytes, p.pid))
            .collect();
        want.sort_by(|a, b| b.0.cmp(&a.0).then_with(|| b.1.cmp(&a.1)));
        want.truncate(10);
        let want: Vec<i32> = want.iter().map(|w| w.2).collect();
        assert_eq!(pids(&top_processes(&list)), want);
    }
}
