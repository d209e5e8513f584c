//! How the screen is divided.

use linux_tui_monitor::screen::{
    arrange, body_slots, detail_slots, divide, figure_slots, gauge_slots, process_columns,
    root_slots, Area, Screen, Slot,
};

fn area(x: u16, y: u16, width: u16, height: u16) -> Area {
    Area { x, y, width, height }
}

fn panels(s: &Screen) -> Vec<Area> {
    vec![
        s.header, s.cpu, s.mem, s.gpu, s.net, s.note, s.hardware, s.traffic, s.cards, s.processes,
    ]
}

#[test]
fn a_large_screen_is_divided_as_its_slots_ask() {
    let s = divide(area(0, 0, 120, 50));
    assert_eq!(s.header, area(1, 1, 118, 3));
    assert_eq!(s.cpu, area(1, 4, 34, 3));
    assert_eq!(s.mem, area(1, 7, 34, 3));
    assert_eq!(s.gpu, area(1, 10, 34, 3));
    assert_eq!(s.net, area(1, 13, 34, 3));
    assert_eq!(s.note, area(1, 16, 34, 5));
    assert_eq!((s.hardware.x, s.hardware.y, s.hardware.width), (35, 4, 84));
    assert_eq!((s.traffic.x, s.traffic.width), (35, 84));
    assert_eq!((s.cards.x, s.cards.width), (35, 84));
    assert_eq!(s.processes, area(1, 21, 118, 28));
}

#[test]
fn no_panel_reaches_beyond_the_margin() {
    for (w, h) in [(0, 0), (1, 1), (2, 2), (3, 3), (10, 5), (40, 20), (80, 24), (300, 100)] {
        let s = divide(area(0, 0, w, h));
        let (left, right) = if w < 2 || h < 2 { (0, 0) } else { (1, w - 1) };
        let (top, bottom) = if w < 2 || h < 2 { (0, 0) } else { (1, h - 1) };
        for p in panels(&s) {
            assert!(p.x >= left && p.x + p.width <= right, "{w} {h} {p:?}");
            assert!(p.y >= top && p.y + p.height <= bottom, "{w} {h} {p:?}");
        }
        assert_eq!((s.header.x, s.header.width), (s.processes.x, s.processes.width));
        for p in [s.mem, s.gpu, s.net, s.note] {
            assert_eq!((p.x, p.width), (s.cpu.x, s.cpu.width));
        }
        for p in [s.traffic, s.cards] {
            assert_eq!((p.x, p.width), (s.hardware.x, s.hardware.width));
        }
    }
}

#[test]
fn slots_ask_for_fixed_sizes() {
    assert_eq!(root_slots(), vec![Slot::Length(3), Slot::Min(10)]);
    assert_eq!(body_slots(), vec![Slot::Length(17), Slot::Min(8)]);
    assert_eq!(figure_slots(), vec![Slot::Length(34), Slot::Min(40)]);
    let three = Slot::Length(3);
    assert_eq!(gauge_slots(), vec![three, three, three, three, Slot::Min(0)]);
    assert_eq!(detail_slots(), vec![Slot::Length(8), Slot::Length(5), Slot::Min(8)]);
    assert_eq!(
        process_columns(),
        vec![Slot::Length(8), Slot::Length(9), Slot::Length(12), Slot::Min(10)]
    );
}

#[test]
fn parts_are_assigned_in_order() {
    let parts: Vec<Area> = (0..12).map(|i| area(i, i, 1, 1)).collect();
    let s = arrange(
        &parts[0..2].to_vec(),
        &parts[2..4].to_vec(),
        &parts[4..9].to_vec(),
        &parts[9..12].to_vec(),
    );
    let found: Vec<u16> = panels(&s).iter().map(|p| p.x).collect();
    assert_eq!(found, vec![0, 4, 5, 6, 7, 8, 9, 10, 11, 3]);
}

/// The panels fill the screen between its margins without gap or overlap.
fn assert_filled(a: Area) {
    let s = divide(a);
    let (left, top, right, bottom) = if a.width < 2 || a.height < 2 {
        (0, 0, 0, 0)
    } else {
        (
            a.x + 1,
            a.y + 1,
            (a.x + 1).saturating_add(a.width - 2),
            (a.y + 1).saturating_add(a.height - 2),
        )
    };
    assert_eq!((s.header.x, s.header.y), (left, top), "{a:?}");
    let column = [s.header, s.cpu, s.mem, s.gpu, s.net, s.note, s.processes];
    for i in 1..column.len() {
        assert_eq!(column[i].y, column[i - 1].y + column[i - 1].height, "{a:?} {i}");
    }
    assert_eq!(s.processes.y + s.processes.height, bottom, "{a:?}");
    let column = [s.header, s.hardware, s.traffic, s.cards, s.processes];
    for i in 1..column.len() {
        assert_eq!(column[i].y, column[i - 1].y + column[i - 1].height, "{a:?} {i}");
    }
    assert_eq!((s.cpu.x, s.cpu.x + s.cpu.width), (left, s.hardware.x), "{a:?}");
    assert_eq!(s.hardware.x + s.hardware.width, right, "{a:?}");
}

#[test]
fn panels_fill_a_screen_of_any_height() {
    for height in 0..70 {
        for width in [2, 120] {
            assert_filled(area(0, 0, width, height));
        }
    }
}

#[test]
fn panels_fill_a_screen_of_any_width() {
    for width in 0..100 {
        assert_filled(area(3, 5, width, 40));
    }
}

#[test]
fn panels_fill_a_screen_at_the_far_corner() {
    for (x, y, w, h) in [
        (65000, 65000, 535, 535),
        (65000, 65000, 1000, 1000),
        (65533, 65500, 20, 20),
        (0, 0, 65535, 65535),
        (40000, 1, 40000, 60000),
    ] {
        assert_filled(area(x, y, w, h));
    }
}

#[test]
fn a_screen_with_room_has_every_panel_in_its_place() {
    for (w, h) in [(76, 30), (77, 31), (200, 60), (1000, 500)] {
        let s = divide(area(2, 7, w, h));
        assert_eq!(s.header, area(3, 8, w - 2, 3));
        assert_eq!(s.cpu, area(3, 11, 34, 3));
        assert_eq!(s.mem, area(3, 14, 34, 3));
        assert_eq!(s.gpu, area(3, 17, 34, 3));
        assert_eq!(s.net, area(3, 20, 34, 3));
        assert_eq!(s.note, area(3, 23, 34, 5));
        assert_eq!((s.hardware.x, s.hardware.y, s.hardware.width), (37, 11, w - 36));
        assert_eq!(s.cards, area(37, 20, w - 36, 8));
        assert_eq!(s.hardware.height + s.traffic.height, 9);
        assert_eq!(s.processes, area(3, 28, w - 2, h - 22));
    }
}

#[test]
fn a_terminal_of_80_by_24_keeps_room_for_the_processes() {
    let s = divide(area(0, 0, 80, 24));
    assert_eq!(s.header, area(1, 1, 78, 3));
    assert_eq!(s.processes, area(1, 15, 78, 8));
    assert_eq!(s.cpu, area(1, 4, 34, s.cpu.height));
    assert_eq!(s.note.height, 0);
    assert_eq!(s.cards, area(35, 7, 44, 8));
    assert_eq!(s.hardware.height + s.traffic.height, 3);
}

/// What the last slot of a division takes.
fn rest(room: u16, fixed: u16, least: u16) -> u16 {
    if fixed + least <= room {
        room - fixed
    } else {
        least.min(room)
    }
}

/// The panels have the sizes that the slots ask for, the last slot of each division first.
fn assert_sized(a: Area) {
    let s = divide(a);
    let rows = a.height - 2;
    let columns = a.width - 2;
    let body = rest(rows, 3, 10);
    let processes = rest(body, 17, 8);
    let figures = body - processes;
    let details = rest(columns, 34, 40);
    assert_eq!(s.header.height, rows - body, "{a:?}");
    assert_eq!(s.processes.height, processes, "{a:?}");
    assert_eq!(s.note.height, rest(figures, 12, 0), "{a:?}");
    assert_eq!(s.cards.height, rest(figures, 13, 8), "{a:?}");
    assert_eq!((s.cpu.width, s.hardware.width), (columns - details, details), "{a:?}");
    for p in [s.cpu, s.mem, s.gpu, s.net] {
        assert!(p.height <= 3, "{a:?}");
    }
    assert!(s.hardware.height <= 8 && s.traffic.height <= 5, "{a:?}");
}

#[test]
fn panels_of_a_screen_of_any_height_are_sized() {
    for height in 2..60 {
        for x in 0..10 {
            assert_sized(area(x, 3, 90, height));
        }
    }
}

#[test]
fn panels_of_a_screen_of_any_width_are_sized() {
    for width in 2..100 {
        for y in 0..5 {
            assert_sized(area(0, y, width, 27));
        }
    }
}

#[test]
fn no_two_panels_overlap() {
    for (w, h) in [(5, 5), (20, 12), (40, 20), (80, 24), (120, 50)] {
        let list = panels(&divide(area(0, 0, w, h)));
        for i in 0..list.len() {
            for j in 0..i {
                let (a, b) = (list[i], list[j]);
                assert!(
                    a.y + a.height <= b.y
                        || b.y + b.height <= a.y
                        || a.x + a.width <= b.x
                        || b.x + b.width <= a.x
                );
            }
        }
    }
}
