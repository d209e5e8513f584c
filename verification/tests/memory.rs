//! Memory modules.

use linux_tui_monitor::error::{CommandOutput, DmidecodeError, ReadError};
use linux_tui_monitor::memory::{
    push_memory_module, read_memory_model, read_memory_model_dmidecode, summarize_modules,
    ModuleSet,
};

const LISTING: &str = "Handle 0x0010, DMI type 17
Memory Device
\tSize: 16 GB
\tType: DDR5
\tSpeed: 5600 MT/s
\tPart Number: CT16G
Memory Device
\tSize: 8 GB
\tType: DDR4
\tSpeed: Unknown
\tPart Number: Unknown
Memory Device
\tSize: No Module Installed
\tType: Unknown
Memory Device
\tSize: 16 GB
\tType: DDR5
\tSpeed: 5600 MT/s
\tPart Number: CT16G
";

fn some(s: &str) -> Option<String> {
    Some(s.to_string())
}

fn output(success: bool, text: &str) -> Result<CommandOutput, String> {
    Ok(CommandOutput { success, stdout: text.as_bytes().to_vec() })
}

#[test]
fn modules_are_summed_up_in_order_and_once_each() {
    let text = summarize_modules(LISTING).unwrap();
    assert_eq!(text, "2 slot(s): 16 GB DDR5 5600 MT/s CT16G | 8 GB DDR4");
}

#[test]
fn a_listing_without_modules_is_an_error() {
    assert_eq!(summarize_modules(""), Err(DmidecodeError::NoModules));
    assert_eq!(
        summarize_modules("Memory Device\n\tSize: Unknown\n\tType: DDR4\n"),
        Err(DmidecodeError::NoModules)
    );
    assert_eq!(DmidecodeError::NoModules.message(), "No RAM modules parsed");
}

#[test]
fn properties_of_an_empty_slot_are_forgotten() {
    let text = "Memory Device\nSize: No Module Installed\nType: DDR3\nMemory Device\nSize: 4 GB\n";
    assert_eq!(summarize_modules(text).unwrap(), "1 slot(s): 4 GB");
}

#[test]
fn an_empty_part_number_is_left_out() {
    let text = "Memory Device\nSize: 4 GB\nPart Number:   \nType: DDR3\n";
    assert_eq!(summarize_modules(text).unwrap(), "1 slot(s): 4 GB DDR3");
}

#[test]
fn the_summary_is_that_of_the_command_if_it_succeeded() {
    let text = read_memory_model_dmidecode(&output(true, LISTING)).unwrap();
    assert_eq!(text, "2 slot(s): 16 GB DDR5 5600 MT/s CT16G | 8 GB DDR4");
    assert_eq!(read_memory_model(&output(true, LISTING)).unwrap(), text);
}

#[test]
fn each_failure_of_the_command_has_its_error() {
    let denied: Result<CommandOutput, String> = Err("Permission denied".to_string());
    let not_run = read_memory_model_dmidecode(&denied).unwrap_err();
    assert_eq!(not_run, DmidecodeError::NotRun("Permission denied".to_string()));
    assert_eq!(not_run.message(), "Permission denied");
    assert_eq!(
        read_memory_model_dmidecode(&output(false, LISTING)),
        Err(DmidecodeError::Failed)
    );
    assert_eq!(read_memory_model_dmidecode(&output(true, "")), Err(DmidecodeError::NoModules));
    for out in [denied, output(false, LISTING), output(true, "")] {
        assert_eq!(read_memory_model(&out), Err(ReadError::MemoryModelUnreadable));
    }
    assert_eq!(DmidecodeError::Failed.message(), "dmidecode failed");
    assert_eq!(ReadError::MemoryModelUnreadable.message(), "Cannot read RAM model");
}

#[test]
fn output_that_is_no_text_is_replaced() {
    let mut bytes = b"Memory Device\nSize: 4".to_vec();
    bytes.push(0xff);
    let out = Ok(CommandOutput { success: true, stdout: bytes });
    assert_eq!(read_memory_model(&out).unwrap(), "1 slot(s): 4\u{fffd}");
}

#[test]
fn pushing_takes_the_description() {
    let mut modules = ModuleSet::new();
    let (mut size, mut kind) = (some("8 GB"), some("DDR4"));
    let (mut speed, mut part) = (None, some("X"));
    push_memory_module(&mut modules, &mut size, &mut kind, &mut speed, &mut part);
    assert_eq!((size, kind, speed, part), (None, None, None, None));
    assert_eq!(modules.names, vec!["8 GB DDR4 X".to_string()]);
}

#[test]
fn pushing_without_a_size_adds_nothing() {
    let mut modules = ModuleSet::new();
    let (mut size, mut kind) = (None, some("DDR4"));
    let (mut speed, mut part) = (some("1"), some("X"));
    push_memory_module(&mut modules, &mut size, &mut kind, &mut speed, &mut part);
    assert_eq!((size, kind, speed, part), (None, None, None, None));
    assert!(modules.names.is_empty());
}

#[test]
fn a_set_holds_each_name_once_in_order() {
    let mut modules = ModuleSet::new();
    let mut want: Vec<String> = vec![];
    for name in ["b", "a", "", "b", "ab", "ö", "z", "A", "a", "\u{10000}", "\u{ffff}"] {
        modules.insert(name.to_string());
        want.push(name.to_string());
    }
    want.sort();
    want.dedup();
    assert_eq!(modules.names, want);
}
