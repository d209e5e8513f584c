//! The header.

use linux_tui_monitor::clock::{header_text, CivilTime};

fn at(year: i32, month: u32, day: u32, hour: u32, minute: u32, second: u32) -> CivilTime {
    CivilTime { year, month, day, hour, minute, second }
}

fn header(t: CivilTime) -> String {
    header_text(&t).unwrap()
}

#[test]
fn the_header_tells_the_time() {
    assert_eq!(
        header(at(2024, 2, 29, 8, 5, 0)),
        "Time: 2024-02-29 08:05:00  |  q/ESC to quit"
    );
    assert_eq!(
        header(at(1999, 12, 31, 23, 59, 59)),
        "Time: 1999-12-31 23:59:59  |  q/ESC to quit"
    );
}

#[test]
fn years_have_four_digits_at_least() {
    assert!(header(at(7, 1, 1, 0, 0, 0)).starts_with("Time: 0007-01-01 00"));
    assert!(header(at(0, 1, 1, 0, 0, 0)).starts_with("Time: 0000-"));
    assert!(header(at(9999, 1, 1, 0, 0, 0)).starts_with("Time: 9999-"));
    assert!(header(at(10000, 1, 1, 0, 0, 0)).starts_with("Time: +10000-"));
    assert!(header(at(-5, 1, 1, 0, 0, 0)).starts_with("Time: -0005-"));
    assert!(header(at(-12345, 1, 1, 0, 0, 0)).starts_with("Time: -12345-"));
    assert!(header(at(262142, 12, 31, 0, 0, 0)).starts_with("Time: +262142-12-31"));
    assert!(header(at(-262143, 1, 1, 0, 0, 0)).starts_with("Time: -262143-01-01"));
}

#[test]
fn a_time_that_does_not_exist_has_no_header() {
    assert!(header_text(&at(2023, 2, 29, 0, 0, 0)).is_none());
    assert!(header_text(&at(1900, 2, 29, 0, 0, 0)).is_none());
    assert!(header_text(&at(2000, 2, 29, 0, 0, 0)).is_some());
    assert!(header_text(&at(2023, 4, 31, 0, 0, 0)).is_none());
    assert!(header_text(&at(2023, 0, 1, 0, 0, 0)).is_none());
    assert!(header_text(&at(2023, 13, 1, 0, 0, 0)).is_none());
    assert!(header_text(&at(2023, 1, 0, 0, 0, 0)).is_none());
    assert!(header_text(&at(2023, 1, 1, 24, 0, 0)).is_none());
    assert!(header_text(&at(2023, 1, 1, 0, 60, 0)).is_none());
    assert!(header_text(&at(2023, 1, 1, 0, 0, 60)).is_none());
    assert!(header_text(&at(262143, 1, 1, 0, 0, 0)).is_none());
    assert!(header_text(&at(-262144, 12, 31, 0, 0, 0)).is_none());
}
