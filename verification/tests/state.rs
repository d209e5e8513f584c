//! Refreshing the state.

use std::time::Duration;

use linux_tui_monitor::double::Double;
use linux_tui_monitor::error::CommandOutput;
use linux_tui_monitor::gpu::GpuStat;
use linux_tui_monitor::process::ProcessSample;
use linux_tui_monitor::procfs::{CpuSnapshot, NetSnapshot};
use linux_tui_monitor::span::{find_rate_seconds, Span};
use linux_tui_monitor::state::{find_percentage, AppState, Readings};

fn float(d: Double) -> f64 {
    f64::from_bits(d.to_bits())
}

fn fresh() -> AppState {
    AppState::new(&None, &Err("not found".to_string()))
}

fn nothing() -> Readings {
    Readings {
        elapsed: None,
        cpu: None,
        memory: None,
        net: None,
        gpus: Err("none".to_string()),
        processes: Err("none".to_string()),
    }
}

fn cpu(total: u64, idle: u64) -> Option<CpuSnapshot> {
    Some(CpuSnapshot { total, idle })
}

fn process(pid: i32, start_time: u64, total_time: u64) -> ProcessSample {
    ProcessSample { pid, start_time, total_time, rss_bytes: 4096, cmdline: format!("p{pid}") }
}

#[test]
fn a_new_state_knows_the_hardware() {
    let info = Some("model name\t: Chip\n".to_string());
    let text = b"Memory Device\nSize: 4 GB\n".to_vec();
    let st = AppState::new(&info, &Ok(CommandOutput { success: true, stdout: text }));
    assert_eq!(st.cpu_model, "Chip");
    assert_eq!(st.memory_model, "1 slot(s): 4 GB");
    assert_eq!(float(st.cpu_usage), 0.0);
    assert_eq!((st.mem_used_kb, st.mem_total_kb), (0, 0));
    assert!(st.gpus.is_empty() && st.gpu_message.is_none());
    assert!(st.top_processes.is_empty() && st.process_message.is_none());
    assert!(st.prev_cpu.is_none() && st.prev_net.is_none() && st.prev_proc.is_empty());
}

#[test]
fn unknown_hardware_has_a_name_too() {
    let st = AppState::new(&Some("processor : 0\n".to_string()), &Err("not found".to_string()));
    assert_eq!(st.cpu_model, "Unknown CPU");
    assert_eq!(st.memory_model, "Unknown RAM (try dmidecode as root)");
    assert_eq!(fresh().cpu_model, "Unknown CPU");
}

#[test]
fn load_is_the_share_of_ticks_that_were_not_idle() {
    let mut st = fresh();
    st.refresh(Readings { cpu: cpu(1000, 400), ..nothing() });
    assert_eq!(float(st.cpu_usage), 0.0);
    st.refresh(Readings { cpu: cpu(1300, 500), ..nothing() });
    assert_eq!(float(st.cpu_usage), (1.0 - 100.0 / 300.0) * 100.0);
    assert_eq!(st.prev_cpu, cpu(1300, 500));
}

#[test]
fn load_stays_where_no_ticks_have_passed() {
    let mut st = fresh();
    st.refresh(Readings { cpu: cpu(1000, 400), ..nothing() });
    st.refresh(Readings { cpu: cpu(1100, 450), ..nothing() });
    assert_eq!(float(st.cpu_usage), 50.0);
    st.refresh(Readings { cpu: cpu(1100, 450), ..nothing() });
    assert_eq!(float(st.cpu_usage), 50.0);
    st.refresh(Readings { cpu: cpu(900, 10), ..nothing() });
    assert_eq!(float(st.cpu_usage), 50.0);
    assert_eq!(st.prev_cpu, cpu(900, 10));
}

#[test]
fn load_is_below_zero_where_idle_ticks_outrun_all_ticks() {
    let mut st = fresh();
    st.refresh(Readings { cpu: cpu(0, 0), ..nothing() });
    st.refresh(Readings { cpu: cpu(100, 150), ..nothing() });
    assert_eq!(float(st.cpu_usage), -50.0);
}

#[test]
fn percentages_are_exact_doubles() {
    for (part, total) in [(1u64, 3u64), (2, 3), (7, 9), (5, 5), (0, 4), (u64::MAX, 3)] {
        let want = part as f64 / total as f64 * 100.0;
        assert_eq!(find_percentage(part, total).to_bits(), want.to_bits());
    }
}

#[test]
fn failed_readings_change_nothing_of_theirs() {
    let mut st = fresh();
    let net = Some(NetSnapshot { recv: 5, sent: 6 });
    st.refresh(Readings { cpu: cpu(10, 5), memory: Some((3, 9)), net, ..nothing() });
    st.refresh(Readings {
        cpu: cpu(20, 10),
        net: Some(NetSnapshot { recv: 105, sent: 206 }),
        processes: Ok(vec![process(1, 1, 1)]),
        ..nothing()
    });
    st.refresh(nothing());
    assert_eq!(float(st.cpu_usage), 50.0);
    assert_eq!((st.mem_used_kb, st.mem_total_kb), (3, 9));
    assert_eq!(float(st.net_recv_rate_bps), 100.0);
    assert_eq!(float(st.net_sent_rate_bps), 200.0);
    assert_eq!(st.prev_cpu, cpu(20, 10));
    assert_eq!(st.prev_net, Some(NetSnapshot { recv: 105, sent: 206 }));
    assert!(st.prev_proc.contains_key(&1));
    assert_eq!(st.cpu_model, "Unknown CPU");
}

#[test]
fn rates_are_taken_over_the_time_between() {
    let mut st = fresh();
    st.refresh(Readings { net: Some(NetSnapshot { recv: 0, sent: 50 }), ..nothing() });
    assert_eq!(float(st.net_recv_rate_bps), 0.0);
    st.refresh(Readings {
        elapsed: Some(Span { secs: 2, nanos: 500_000_000 }),
        net: Some(NetSnapshot { recv: 1000, sent: 40 }),
        ..nothing()
    });
    assert_eq!(float(st.net_recv_rate_bps), 400.0);
    assert_eq!(float(st.net_sent_rate_bps), 0.0);
    st.refresh(Readings {
        elapsed: Some(Span { secs: 0, nanos: 5 }),
        net: Some(NetSnapshot { recv: 1007, sent: 40 }),
        ..nothing()
    });
    assert_eq!(float(st.net_recv_rate_bps), 7.0 / 0.001);
}

#[test]
fn rate_seconds_are_those_of_a_duration() {
    for secs in [0u64, 1, 2, 59, 86_400, 1 << 40, u64::MAX] {
        for nanos in [0u32, 1, 999_999, 1_000_000, 1_000_001, 333_333_333, 999_999_999] {
            let want = Duration::new(secs, nanos).as_secs_f64().max(0.001);
            assert_eq!(find_rate_seconds(Span { secs, nanos }).to_bits(), want.to_bits());
        }
    }
}

#[test]
fn cards_or_a_message_are_kept() {
    let mut st = fresh();
    let card = GpuStat {
        name: "A".to_string(),
        util: "1".to_string(),
        mem_used_mb: None,
        mem_total_mb: None,
        temp_c: None,
    };
    st.refresh(Readings { gpus: Ok(vec![card]), ..nothing() });
    assert_eq!(st.gpus.len(), 1);
    assert_eq!(st.gpu_message, None);
    st.refresh(Readings { gpus: Ok(vec![]), ..nothing() });
    assert!(st.gpus.is_empty());
    assert_eq!(st.gpu_message, Some("No GPU detected".to_string()));
    st.refresh(Readings { gpus: Err("nvidia-smi failed".to_string()), ..nothing() });
    assert_eq!(st.gpu_message, Some("GPU read err: nvidia-smi failed".to_string()));
}

#[test]
fn shares_are_of_the_ticks_between_two_refreshes() {
    let mut st = fresh();
    st.refresh(Readings {
        cpu: cpu(1000, 0),
        processes: Ok(vec![process(1, 7, 100), process(2, 8, 50), process(3, 9, 10)]),
        ..nothing()
    });
    assert!(st.top_processes.iter().all(|p| float(p.cpu_usage) == 0.0));
    st.refresh(Readings {
        cpu: cpu(1300, 0),
        processes: Ok(vec![
            process(1, 7, 110),
            process(2, 99, 80),
            process(3, 9, 5),
            process(4, 1, 200),
        ]),
        ..nothing()
    });
    let found: Vec<(i32, f64)> =
        st.top_processes.iter().map(|p| (p.pid, float(p.cpu_usage))).collect();
    assert_eq!(found, vec![(1, 10.0 / 300.0 * 100.0), (2, 0.0), (3, 0.0), (4, 0.0)]);
    assert_eq!(st.prev_proc.len(), 4);
    assert_eq!(st.prev_proc[&2].start_time, 99);
    assert_eq!(st.prev_proc[&2].total_time, 80);
}

#[test]
fn shares_are_zero_where_no_ticks_have_passed() {
    let mut st = fresh();
    st.refresh_top_processes(Ok(vec![process(1, 7, 100)]), 0);
    st.refresh_top_processes(Ok(vec![process(1, 7, 200)]), 0);
    assert_eq!(float(st.top_processes[0].cpu_usage), 0.0);
    st.refresh_top_processes(Ok(vec![process(1, 7, 210)]), 40);
    assert_eq!(float(st.top_processes[0].cpu_usage), 25.0);
}

#[test]
fn processes_that_cannot_be_listed_leave_a_message() {
    let mut st = fresh();
    st.refresh_top_processes(Ok(vec![process(1, 7, 100)]), 0);
    assert_eq!(st.process_message, None);
    st.refresh_top_processes(Err("denied".to_string()), 10);
    assert!(st.top_processes.is_empty());
    assert_eq!(st.process_message, Some("Proc read err: denied".to_string()));
    st.refresh_top_processes(Ok(vec![process(1, 7, 105)]), 10);
    assert_eq!(st.process_message, None);
    assert_eq!(float(st.top_processes[0].cpu_usage), 50.0);
}

#[test]
fn the_last_of_two_processes_with_one_id_is_kept() {
    let mut st = fresh();
    st.refresh_top_processes(Ok(vec![process(1, 7, 100), process(1, 8, 20)]), 0);
    assert_eq!(st.top_processes.len(), 2);
    assert_eq!(st.prev_proc.len(), 1);
    assert_eq!(st.prev_proc[&1].start_time, 8);
}
