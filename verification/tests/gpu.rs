//! Graphics cards.

use linux_tui_monitor::error::{CommandOutput, ReadError};
use linux_tui_monitor::gpu::{gpu_panel, parse_gpu_stats, read_gpu_stats, GpuStat, PanelLine};

fn card(name: &str) -> GpuStat {
    GpuStat {
        name: name.to_string(),
        util: "12".to_string(),
        mem_used_mb: Some(3),
        mem_total_mb: Some(24),
        temp_c: None,
    }
}

fn lines(list: Vec<PanelLine>) -> Vec<(String, bool)> {
    list.into_iter().map(|l| (l.text, l.heading)).collect()
}

#[test]
fn cards_are_read_by_columns() {
    let text = "RTX 4090, 12, 345, 24564, 50\nshort, 1, 2\nTesla, [N/A], x, 16384, 40, more\n";
    let found = parse_gpu_stats(text);
    assert_eq!(found.len(), 2);
    assert_eq!(found[0].name, "RTX 4090");
    assert_eq!(found[0].util, "12");
    assert_eq!(found[0].mem_used_mb, Some(345));
    assert_eq!(found[0].mem_total_mb, Some(24564));
    assert_eq!(found[0].temp_c, Some(50));
    assert_eq!(found[1].name, "Tesla");
    assert_eq!(found[1].util, "[N/A]");
    assert_eq!(found[1].mem_used_mb, None);
    assert_eq!(found[1].temp_c, Some(40));
    assert!(parse_gpu_stats("").is_empty());
}

#[test]
fn each_failure_of_nvidia_smi_has_its_error() {
    assert!(matches!(read_gpu_stats(&None), Err(ReadError::NvidiaSmiNotFound)));
    let failed = Some(CommandOutput { success: false, stdout: vec![] });
    assert!(matches!(read_gpu_stats(&failed), Err(ReadError::NvidiaSmiFailed)));
    assert_eq!(
        ReadError::NvidiaSmiNotFound.message(),
        "nvidia-smi not found (non-NVIDIA, skip)"
    );
    assert_eq!(ReadError::NvidiaSmiFailed.message(), "nvidia-smi failed");
}

#[test]
fn cards_are_those_that_the_command_printed() {
    let mut bytes = b"A".to_vec();
    bytes.push(0x80);
    bytes.extend_from_slice(b", 1, 2, 3, 4\n");
    let out = Some(CommandOutput { success: true, stdout: bytes });
    let found = read_gpu_stats(&out).unwrap();
    assert_eq!(found.len(), 1);
    assert_eq!(found[0].name, "A\u{fffd}");
    assert_eq!(found[0].mem_total_mb, Some(3));
}

#[test]
fn the_panel_shows_three_lines_for_a_card() {
    let found = gpu_panel(
        &None,
        &vec![card("A"), card("B")],
        &vec!["12.0".to_string(), "0.5".to_string()],
    );
    assert_eq!(
        lines(found),
        vec![
            ("[GPU 0] A".to_string(), true),
            ("Util: 12.0%  Temp: 0°C  VRAM: 3 / 24 MiB".to_string(), false),
            ("".to_string(), false),
            ("[GPU 1] B".to_string(), true),
            ("Util: 0.5%  Temp: 0°C  VRAM: 3 / 24 MiB".to_string(), false),
            ("".to_string(), false),
        ]
    );
}

#[test]
fn the_panel_shows_a_message_in_place_of_cards() {
    let message = Some("No GPU detected".to_string());
    let found = gpu_panel(&message, &vec![], &vec![]);
    assert_eq!(lines(found), vec![("No GPU detected".to_string(), false)]);
    let found = gpu_panel(&None, &vec![], &vec![]);
    assert_eq!(lines(found), vec![("No GPU info".to_string(), false)]);
}
