//! What the panels show.

use linux_tui_monitor::double::Double;
use linux_tui_monitor::panels::{gauge, process_headings, process_row, ProcessPanel};
use linux_tui_monitor::procfs::read_memory_kb;
use linux_tui_monitor::ranking::ProcessInfo;
use linux_tui_monitor::state::AppState;

fn float(d: Double) -> f64 {
    f64::from_bits(d.to_bits())
}

fn state() -> AppState {
    AppState::new(&Some("model name\t: Chip\n".to_string()), &Err("not found".to_string()))
}

fn info(pid: i32, part: u64, rss_bytes: u64) -> ProcessInfo {
    ProcessInfo {
        pid,
        cpu_usage: Double::from_u64(part).over(Double::from_u64(3)),
        rss_bytes,
        cmdline: format!("cmd {pid}"),
    }
}

#[test]
fn memory_in_use_is_a_percentage() {
    let mut st = state();
    assert_eq!(float(st.mem_usage_percent()), 0.0);
    st.mem_used_kb = 1;
    st.mem_total_kb = 3;
    assert_eq!(float(st.mem_usage_percent()), 1.0 / 3.0 * 100.0);
    let g = st.mem_gauge();
    assert_eq!((g.title.as_str(), g.label.as_str()), ("MEM", "33.3%"));
    assert_eq!(float(g.ratio), (1.0 / 3.0 * 100.0) / 100.0);
}

#[test]
fn memory_as_it_is_read_fills_the_gauge_at_most() {
    for text in ["", "MemTotal: 7", "MemTotal: 7\nMemAvailable: 9", "MemTotal: 3\nMemAvailable: 1"] {
        let (used, total) = read_memory_kb(text);
        let mut st = state();
        st.mem_used_kb = used;
        st.mem_total_kb = total;
        let percent = float(st.mem_usage_percent());
        assert!((0.0..=100.0).contains(&percent));
    }
}

#[test]
fn traffic_is_a_percentage_of_the_full_rate() {
    let mut st = state();
    assert_eq!(float(st.net_activity_percent()), 0.0);
    st.net_recv_rate_bps = Double::from_u64(1_000_000);
    st.net_sent_rate_bps = Double::from_u64(310_720);
    assert_eq!(float(st.net_activity_percent()), 1.0);
    st.net_sent_rate_bps = Double::from_u64(123_457);
    let want = (1_000_000.0 + 123_457.0) / (125.0 * 1024.0 * 1024.0) * 100.0;
    assert_eq!(float(st.net_activity_percent()), want);
    st.net_recv_rate_bps = Double::from_u64(u64::MAX);
    assert_eq!(float(st.net_activity_percent()), 100.0);
    let g = st.net_gauge();
    assert_eq!((g.title.as_str(), g.label.as_str()), ("NET", "100.0%"));
    assert_eq!(float(g.ratio), 1.0);
}

#[test]
fn gauges_are_filled_from_empty_to_full() {
    let quarter = gauge("X", Double::from_u64(25));
    assert_eq!((quarter.title.as_str(), quarter.label.as_str()), ("X", "25.0%"));
    assert_eq!(float(quarter.ratio), 0.25);
    let over = gauge("X", Double::from_u64(250));
    assert_eq!((float(over.ratio), over.label.as_str()), (1.0, "250.0%"));
    let below = gauge("X", Double::zero().minus(Double::from_u64(50)));
    assert_eq!((float(below.ratio), below.label.as_str()), (0.0, "-50.0%"));
}

#[test]
fn the_load_has_a_gauge() {
    let mut st = state();
    st.cpu_usage = Double::from_u64(200).over(Double::from_u64(3));
    let g = st.cpu_gauge();
    assert_eq!((g.title.as_str(), g.label.as_str()), ("CPU", "66.7%"));
    assert_eq!(float(g.ratio), (200.0 / 3.0) / 100.0);
}

#[test]
fn hardware_and_network_are_told_in_lines() {
    let mut st = state();
    st.mem_used_kb = 2048;
    st.mem_total_kb = 4 << 20;
    st.net_recv_rate_bps = Double::from_u64(2048);
    st.net_sent_rate_bps = Double::from_u64(10);
    assert_eq!(
        st.hardware_lines(),
        vec![
            "CPU: Chip",
            "RAM: Unknown RAM (try dmidecode as root)",
            "RAM Used: 2 MiB / 4.00 GiB",
        ]
    );
    assert_eq!(st.network_lines(), vec!["DL: 2.00 KB/s", "UL: 10.00 B/s"]);
}

#[test]
fn a_process_has_four_cells() {
    assert_eq!(process_headings(), vec!["PID", "CPU%", "RAM", "CMD"]);
    assert_eq!(process_row(&info(-7, 2, 1536)), vec!["-7", "0.67", "1.5 KiB", "cmd -7"]);
}

#[test]
fn processes_are_rows_or_a_message() {
    let mut st = state();
    st.top_processes = vec![info(1, 300, 0), info(2, 3, 4096)];
    let rows = match st.process_panel() {
        ProcessPanel::Rows(rows) => rows,
        ProcessPanel::Message(_) => panic!("a message"),
    };
    assert_eq!(
        rows,
        vec![vec!["1", "100.00", "0 B", "cmd 1"], vec!["2", "1.00", "4.0 KiB", "cmd 2"]]
    );
    st.top_processes = vec![];
    st.process_message = Some("Proc read err: x".to_string());
    let text = match st.process_panel() {
        ProcessPanel::Rows(_) => panic!("rows"),
        ProcessPanel::Message(text) => text,
    };
    assert_eq!(text, "Proc read err: x");
}
