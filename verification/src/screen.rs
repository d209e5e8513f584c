//! How the screen is divided among the panels.

use vstd::prelude::*;

verus! {

/// A rectangle of character cells.
#[derive(Clone, Copy, PartialEq, Eq, Structural, Debug)]
pub struct Area {
    pub x: u16,
    pub y: u16,
    pub width: u16,
    pub height: u16,
}

/// The room that a part of a division asks for: so many cells, or at least so many.
#[derive(Clone, Copy, PartialEq, Eq, Structural, Debug)]
pub enum Slot {
    Length(u16),
    Min(u16),
}

/// The direction in which the parts of a division follow one another.
#[derive(Clone, Copy, PartialEq, Eq, Structural, Debug)]
pub enum Axis {
    Vertical,
    Horizontal,
}

/// A coordinate moved by a margin, at most the largest there is.
pub open spec fn moved(x: u16, margin: u16) -> u16 {
    if x + margin > u16::MAX {
        u16::MAX
    } else {
        (x + margin) as u16
    }
}

/// What is left of an area inside a margin, and the empty area at the origin where the
/// margin does not fit.
pub open spec fn inside(area: Area, margin: u16) -> Area {
    let both = if 2 * margin > u16::MAX {
        u16::MAX
    } else {
        (2 * margin) as u16
    };
    if area.width < both || area.height < both {
        Area { x: 0, y: 0, width: 0, height: 0 }
    } else {
        Area {
            x: moved(area.x, margin),
            y: moved(area.y, margin),
            width: (area.width - both) as u16,
            height: (area.height - both) as u16,
        }
    }
}

/// Whether an area spans another across the direction of a division.
pub open spec fn spans(part: Area, whole: Area, axis: Axis) -> bool {
    match axis {
        Axis::Vertical => part.x == whole.x && part.width == whole.width,
        Axis::Horizontal => part.y == whole.y && part.height == whole.height,
    }
}

/// The end of a stretch of cells, at most the largest coordinate.
pub open spec fn far(start: u16, size: u16) -> int {
    if start + size > u16::MAX {
        u16::MAX as int
    } else {
        start + size
    }
}

/// Whether an area lies within another.
pub open spec fn within(part: Area, whole: Area) -> bool {
    &&& whole.x <= part.x
    &&& far(part.x, part.width) <= far(whole.x, whole.width)
    &&& whole.y <= part.y
    &&& far(part.y, part.height) <= far(whole.y, whole.height)
}

/// Where an area begins along an axis.
pub open spec fn start(area: Area, axis: Axis) -> int {
    match axis {
        Axis::Vertical => area.y as int,
        Axis::Horizontal => area.x as int,
    }
}

/// How long an area is along an axis.
pub open spec fn length(area: Area, axis: Axis) -> int {
    match axis {
        Axis::Vertical => area.height as int,
        Axis::Horizontal => area.width as int,
    }
}

/// Where an area ends along an axis, at most the largest coordinate.
pub open spec fn end(area: Area, axis: Axis) -> int {
    match axis {
        Axis::Vertical => far(area.y, area.height),
        Axis::Horizontal => far(area.x, area.width),
    }
}

/// The cells that a slot asks for.
pub open spec fn cells(slot: Slot) -> nat {
    match slot {
        Slot::Length(n) => n as nat,
        Slot::Min(n) => n as nat,
    }
}

/// The cells that the first `n` slots ask for together.
pub open spec fn asked(slots: Seq<Slot>, n: int) -> nat
    decreases n,
{
    if n <= 0 {
        0
    } else {
        asked(slots, n - 1) + cells(slots[n - 1])
    }
}

/// Whether all slots are of a fixed length but the last, which takes the rest.
pub open spec fn rest_last(slots: Seq<Slot>) -> bool {
    &&& slots.len() > 0
    &&& slots.last() is Min
    &&& forall|i: int| 0 <= i < slots.len() - 1 ==> (#[trigger] slots[i]) is Length
}

/// Whether areas follow one another along an axis, from the start of an area to its end.
pub open spec fn fills(parts: Seq<Area>, whole: Area, axis: Axis) -> bool {
    &&& parts.len() > 0
    &&& start(parts[0], axis) == start(whole, axis)
    &&& forall|i: int, j: int|
        0 <= i && j == i + 1 && j < parts.len() ==> start(#[trigger] parts[j], axis) == start(
            #[trigger] parts[i],
            axis,
        ) + length(parts[i], axis)
    &&& start(parts.last(), axis) + length(parts.last(), axis) == end(whole, axis)
}

/// Whether areas begin where their slots ask them to, and are as long as those that are of a
/// fixed length ask.
pub open spec fn obeys(parts: Seq<Area>, whole: Area, axis: Axis, slots: Seq<Slot>) -> bool {
    forall|i: int|
        0 <= i < parts.len() ==> {
            &&& start(#[trigger] parts[i], axis) == start(whole, axis) + asked(slots, i)
            &&& slots[i] is Length ==> length(parts[i], axis) == cells(slots[i])
        }
}

/// How many cells of a room the last slot takes, where those before it ask for `fixed` cells
/// and it asks for `least` at least: what they leave, but its own at the cost of theirs.
pub open spec fn rest(room: int, fixed: int, least: int) -> int {
    if fixed + least <= room {
        room - fixed
    } else if least <= room {
        least
    } else {
        room
    }
}

/// Whether the last area takes the rest, and none of the others is longer than it asks.
pub open spec fn yields(parts: Seq<Area>, whole: Area, axis: Axis, slots: Seq<Slot>) -> bool {
    &&& length(parts.last(), axis) == rest(
        end(whole, axis) - start(whole, axis),
        asked(slots, slots.len() - 1) as int,
        cells(slots.last()) as int,
    )
    &&& forall|i: int|
        0 <= i < parts.len() - 1 ==> length(#[trigger] parts[i], axis) <= cells(slots[i])
}

/// Whether some areas are the parts of a division: one for each slot, each within the area
/// inside the margin, which it spans. Where the last slot takes the rest, they fill that
/// area and yield to the last; and where there is room for all slots besides, each has what
/// it asks for.
pub open spec fn is_division(
    parts: Seq<Area>,
    area: Area,
    axis: Axis,
    margin: u16,
    slots: Seq<Slot>,
) -> bool {
    let whole = inside(area, margin);
    &&& parts.len() == slots.len()
    &&& forall|i: int|
        0 <= i < parts.len() ==> {
            &&& spans(#[trigger] parts[i], whole, axis)
            &&& within(parts[i], whole)
        }
    &&& rest_last(slots) ==> fills(parts, whole, axis)
    &&& rest_last(slots) && cells(slots.last()) <= 0x7fff ==> yields(parts, whole, axis, slots)
    &&& rest_last(slots) && asked(slots, slots.len() as int) <= end(whole, axis) - start(
        whole,
        axis,
    ) ==> obeys(parts, whole, axis, slots)
}

/// `Layout::split` of ratatui: one part for each slot, each of which spans what is left
/// inside the margin and lies within it. Where all slots are `Length` but the last, which is
/// `Min`, there is neither gap nor overlap between the parts. `Min` outranks `Length`: the
/// last part takes what the others leave, or its minimum at their cost, or all there is. No
/// `Length` is longer than it asks, and where all slots fit, each is as long. How several
/// `Length` share what is too little for them is left unsaid: that is decided by the weakest
/// terms of a constraint solver. A minimum above 32767 is left out, since it is taken for a
/// signed number of 16 bits. Coordinates are rounded from hundredths of a cell, and with so
/// few slots the end of a part and the start of the next are rounded alike.
#[verifier::external_body]
fn split(area: Area, axis: Axis, margin: u16, slots: &Vec<Slot>) -> (res: Vec<Area>)
    requires
        slots.len() <= 16,
    ensures
        is_division(res@, area, axis, margin, slots@),
{
    let direction = match axis {
        Axis::Vertical => ratatui::layout::Direction::Vertical,
        Axis::Horizontal => ratatui::layout::Direction::Horizontal,
    };
    let Area { x, y, width, height } = area;
    let rect = ratatui::layout::Rect { x, y, width, height };
    let constraints = slots.iter().map(|s| match s {
        Slot::Length(n) => ratatui::layout::Constraint::Length(*n),
        Slot::Min(n) => ratatui::layout::Constraint::Min(*n),
    });
    let layout = ratatui::layout::Layout::new(direction, constraints).margin(margin);
    let parts = layout.split(rect);
    parts.iter().map(|r| Area { x: r.x, y: r.y, width: r.width, height: r.height }).collect()
}

/// The header above everything else.
pub fn root_slots() -> (res: Vec<Slot>)
    ensures
        res@ == seq![Slot::Length(3), Slot::Min(10)],
{
    vec![Slot::Length(3), Slot::Min(10)]
}

/// The figures above the processes.
pub fn body_slots() -> (res: Vec<Slot>)
    ensures
        res@ == seq![Slot::Length(17), Slot::Min(8)],
{
    vec![Slot::Length(17), Slot::Min(8)]
}

/// The gauges beside the details.
pub fn figure_slots() -> (res: Vec<Slot>)
    ensures
        res@ == seq![Slot::Length(34), Slot::Min(40)],
{
    vec![Slot::Length(34), Slot::Min(40)]
}

/// Four gauges and a note.
pub fn gauge_slots() -> (res: Vec<Slot>)
    ensures
        res@ == seq![
            Slot::Length(3),
            Slot::Length(3),
            Slot::Length(3),
            Slot::Length(3),
            Slot::Min(0),
        ],
{
    vec![Slot::Length(3), Slot::Length(3), Slot::Length(3), Slot::Length(3), Slot::Min(0)]
}

/// The hardware, the network and the graphics cards.
pub fn detail_slots() -> (res: Vec<Slot>)
    ensures
        res@ == seq![Slot::Length(8), Slot::Length(5), Slot::Min(8)],
{
    vec![Slot::Length(8), Slot::Length(5), Slot::Min(8)]
}

/// The columns of the process table: id, processor time, memory and command line.
pub fn process_columns() -> (res: Vec<Slot>)
    ensures
        res@ == seq![Slot::Length(8), Slot::Length(9), Slot::Length(12), Slot::Min(10)],
{
    vec![Slot::Length(8), Slot::Length(9), Slot::Length(12), Slot::Min(10)]
}

/// Where each panel stands.
#[derive(Clone, Copy, PartialEq, Eq, Structural, Debug)]
pub struct Screen {
    pub header: Area,
    pub cpu: Area,
    pub mem: Area,
    pub gpu: Area,
    pub net: Area,
    pub note: Area,
    pub hardware: Area,
    pub traffic: Area,
    pub cards: Area,
    pub processes: Area,
}

/// The panels, given the parts of the divisions.
pub open spec fn screen_of(
    root: Seq<Area>,
    body: Seq<Area>,
    gauges: Seq<Area>,
    details: Seq<Area>,
) -> Screen {
    Screen {
        header: root[0],
        cpu: gauges[0],
        mem: gauges[1],
        gpu: gauges[2],
        net: gauges[3],
        note: gauges[4],
        hardware: details[0],
        traffic: details[1],
        cards: details[2],
        processes: body[1],
    }
}

/// Assigns the parts of the divisions to the panels.
pub fn arrange(
    root: &Vec<Area>,
    body: &Vec<Area>,
    gauges: &Vec<Area>,
    details: &Vec<Area>,
) -> (res: Screen)
    requires
        root.len() == 2,
        body.len() == 2,
        gauges.len() == 5,
        details.len() == 3,
    ensures
        res == screen_of(root@, body@, gauges@, details@),
{
    Screen {
        header: root[0],
        cpu: gauges[0],
        mem: gauges[1],
        gpu: gauges[2],
        net: gauges[3],
        note: gauges[4],
        hardware: details[0],
        traffic: details[1],
        cards: details[2],
        processes: body[1],
    }
}

/// Whether some parts come from dividing the screen inside a margin of one cell: the header
/// above the body, the figures above the processes, the gauges beside the details.
pub open spec fn is_subdivision(
    area: Area,
    root: Seq<Area>,
    body: Seq<Area>,
    figures: Seq<Area>,
    gauges: Seq<Area>,
    details: Seq<Area>,
) -> bool {
    let three = Slot::Length(3);
    &&& is_division(root, area, Axis::Vertical, 1, seq![three, Slot::Min(10)])
    &&& is_division(body, root[1], Axis::Vertical, 0, seq![Slot::Length(17), Slot::Min(8)])
    &&& is_division(figures, body[0], Axis::Horizontal, 0, seq![Slot::Length(34), Slot::Min(40)])
    &&& is_division(
        gauges,
        figures[0],
        Axis::Vertical,
        0,
        seq![three, three, three, three, Slot::Min(0)],
    )
    &&& is_division(
        details,
        figures[1],
        Axis::Vertical,
        0,
        seq![Slot::Length(8), Slot::Length(5), Slot::Min(8)],
    )
}

/// Whether every panel lies within an area.
pub open spec fn all_within(screen: Screen, area: Area) -> bool {
    &&& within(screen.header, area)
    &&& within(screen.cpu, area)
    &&& within(screen.mem, area)
    &&& within(screen.gpu, area)
    &&& within(screen.net, area)
    &&& within(screen.note, area)
    &&& within(screen.hardware, area)
    &&& within(screen.traffic, area)
    &&& within(screen.cards, area)
    &&& within(screen.processes, area)
}

/// The panels of a screen.
pub open spec fn panels(s: Screen) -> Seq<Area> {
    seq![
        s.header,
        s.cpu,
        s.mem,
        s.gpu,
        s.net,
        s.note,
        s.hardware,
        s.traffic,
        s.cards,
        s.processes,
    ]
}

/// Whether no cell belongs to two areas, because one ends before the other begins.
pub open spec fn apart(a: Area, b: Area) -> bool {
    ||| far(a.y, a.height) <= b.y
    ||| far(b.y, b.height) <= a.y
    ||| far(a.x, a.width) <= b.x
    ||| far(b.x, b.width) <= a.x
}

/// Whether no two panels overlap.
pub open spec fn all_apart(s: Screen) -> bool {
    forall|i: int, j: int|
        0 <= i < j < panels(s).len() ==> apart(#[trigger] panels(s)[i], #[trigger] panels(s)[j])
}

/// Whether a screen has room for what all its panels ask for but the details.
pub open spec fn is_roomy(area: Area) -> bool {
    &&& area.width >= 76
    &&& area.height >= 30
    &&& area.x + area.width <= u16::MAX
    &&& area.y + area.height <= u16::MAX
}

/// An area at a distance from the corner of another.
pub open spec fn placed(corner: Area, dx: int, dy: int, width: int, height: int) -> Area {
    Area {
        x: (corner.x + dx) as u16,
        y: (corner.y + dy) as u16,
        width: width as u16,
        height: height as u16,
    }
}

/// Whether the panels stand where a screen with room for them has them: the header in three
/// rows on top, below it 17 rows with four gauges and a note in 34 columns on the left and
/// the details one below the other in the rest, the graphics cards in the last eight rows of
/// them, and the processes in all rows below.
pub open spec fn is_laid_out(s: Screen, area: Area) -> bool {
    &&& s.header == placed(area, 1, 1, area.width - 2, 3)
    &&& s.cpu == placed(area, 1, 4, 34, 3)
    &&& s.mem == placed(area, 1, 7, 34, 3)
    &&& s.gpu == placed(area, 1, 10, 34, 3)
    &&& s.net == placed(area, 1, 13, 34, 3)
    &&& s.note == placed(area, 1, 16, 34, 5)
    &&& s.hardware == placed(area, 35, 4, area.width - 36, s.hardware.height as int)
    &&& s.traffic == placed(
        area,
        35,
        4 + s.hardware.height,
        area.width - 36,
        9 - s.hardware.height,
    )
    &&& s.cards == placed(area, 35, 13, area.width - 36, 8)
    &&& 4 <= s.hardware.height <= 8
    &&& s.processes == placed(area, 1, 21, area.width - 2, area.height - 22)
}

/// Whether the panels have the sizes that a screen gives them, with room or without. What
/// the gauges get above the note, and the hardware and the traffic above the graphics cards,
/// is what these leave.
pub open spec fn is_sized(s: Screen, area: Area) -> bool {
    let whole = inside(area, 1);
    let rows = end(whole, Axis::Vertical) - start(whole, Axis::Vertical);
    let columns = end(whole, Axis::Horizontal) - start(whole, Axis::Horizontal);
    let body = rest(rows, 3, 10);
    let figures = body - rest(body, 17, 8);
    let details = rest(columns, 34, 40);
    &&& s.header.height == rows - body
    &&& s.processes.height == rest(body, 17, 8)
    &&& s.note.height == rest(figures, 12, 0)
    &&& s.cards.height == rest(figures, 13, 8)
    &&& s.cpu.height + s.mem.height + s.gpu.height + s.net.height + s.note.height == figures
    &&& s.cpu.height <= 3 && s.mem.height <= 3 && s.gpu.height <= 3 && s.net.height <= 3
    &&& s.hardware.height + s.traffic.height + s.cards.height == figures
    &&& s.hardware.height <= 8 && s.traffic.height <= 5
    &&& s.cpu.width == columns - details
    &&& s.hardware.width == details
}

/// The parts of a division without a margin lie within what holds the divided area.
proof fn lemma_nested(
    parts: Seq<Area>,
    area: Area,
    axis: Axis,
    slots: Seq<Slot>,
    whole: Area,
)
    requires
        is_division(parts, area, axis, 0, slots),
        within(area, whole),
    ensures
        forall|i: int| 0 <= i < parts.len() ==> within(#[trigger] parts[i], whole),
{
    assert(inside(area, 0) == area);
    assert forall|i: int| 0 <= i < parts.len() implies within(#[trigger] parts[i], whole) by {
        assert(within(parts[i], area));
    }
}

/// Of areas that fill another, each ends before all that follow it begin.
proof fn lemma_follows(parts: Seq<Area>, whole: Area, axis: Axis, i: int, j: int)
    requires
        fills(parts, whole, axis),
        0 <= i < j < parts.len(),
    ensures
        start(parts[i], axis) + length(parts[i], axis) <= start(parts[j], axis),
    decreases j - i,
{
    if i + 1 < j {
        lemma_follows(parts, whole, axis, i, j - 1);
    }
    assert(start(parts[j], axis) == start(parts[j - 1], axis) + length(parts[j - 1], axis));
}

/// The parts of a division do not overlap.
proof fn lemma_parts_apart(parts: Seq<Area>, area: Area, axis: Axis, margin: u16, slots: Seq<Slot>)
    requires
        is_division(parts, area, axis, margin, slots),
        rest_last(slots),
    ensures
        forall|i: int, j: int|
            0 <= i < j < parts.len() ==> apart(#[trigger] parts[i], #[trigger] parts[j]),
{
    assert forall|i: int, j: int| 0 <= i < j < parts.len() implies apart(
        #[trigger] parts[i],
        #[trigger] parts[j],
    ) by {
        lemma_follows(parts, inside(area, margin), axis, i, j);
    }
}

/// What lies within two areas that do not overlap does not overlap either.
proof fn lemma_apart_within(a: Area, b: Area, x: Area, y: Area)
    requires
        apart(a, b),
        within(x, a),
        within(y, b),
    ensures
        apart(x, y),
{
}

/// An area lies within itself.
proof fn lemma_within_itself(area: Area)
    ensures
        within(area, area),
{
}

/// No panel reaches beyond the margin.
proof fn lemma_all_within(
    area: Area,
    root: Seq<Area>,
    body: Seq<Area>,
    figures: Seq<Area>,
    gauges: Seq<Area>,
    details: Seq<Area>,
)
    requires
        is_subdivision(area, root, body, figures, gauges, details),
    ensures
        all_within(screen_of(root, body, gauges, details), inside(area, 1)),
{
    let whole = inside(area, 1);
    let three = Slot::Length(3);
    assert(within(root[0], whole) && within(root[1], whole));
    lemma_nested(body, root[1], Axis::Vertical, seq![Slot::Length(17), Slot::Min(8)], whole);
    assert(within(body[0], whole) && within(body[1], whole));
    lemma_nested(figures, body[0], Axis::Horizontal, seq![Slot::Length(34), Slot::Min(40)], whole);
    assert(within(figures[0], whole) && within(figures[1], whole));
    lemma_nested(
        gauges,
        figures[0],
        Axis::Vertical,
        seq![three, three, three, three, Slot::Min(0)],
        whole,
    );
    lemma_nested(
        details,
        figures[1],
        Axis::Vertical,
        seq![Slot::Length(8), Slot::Length(5), Slot::Min(8)],
        whole,
    );
}

/// Whether the panels of each group lie within its part of the screen, and neither the parts
/// nor the panels of a group overlap.
spec fn are_grouped(
    root: Seq<Area>,
    body: Seq<Area>,
    figures: Seq<Area>,
    gauges: Seq<Area>,
    details: Seq<Area>,
) -> bool {
    &&& apart(root[0], root[1])
    &&& apart(body[0], body[1])
    &&& apart(figures[0], figures[1])
    &&& forall|i: int, j: int|
        0 <= i < j < gauges.len() ==> apart(#[trigger] gauges[i], #[trigger] gauges[j])
    &&& forall|i: int, j: int|
        0 <= i < j < details.len() ==> apart(#[trigger] details[i], #[trigger] details[j])
    &&& within(body[1], root[1])
    &&& forall|i: int|
        0 <= i < gauges.len() ==> {
            &&& within(#[trigger] gauges[i], figures[0])
            &&& within(gauges[i], body[0])
            &&& within(gauges[i], root[1])
        }
    &&& forall|i: int|
        0 <= i < details.len() ==> {
            &&& within(#[trigger] details[i], figures[1])
            &&& within(details[i], body[0])
            &&& within(details[i], root[1])
        }
}

/// The panels are grouped.
proof fn lemma_groups(
    area: Area,
    root: Seq<Area>,
    body: Seq<Area>,
    figures: Seq<Area>,
    gauges: Seq<Area>,
    details: Seq<Area>,
)
    requires
        is_subdivision(area, root, body, figures, gauges, details),
    ensures
        are_grouped(root, body, figures, gauges, details),
        gauges.len() == 5,
        details.len() == 3,
{
    let three = Slot::Length(3);
    let root_slots = seq![three, Slot::Min(10)];
    let body_slots = seq![Slot::Length(17), Slot::Min(8)];
    let figure_slots = seq![Slot::Length(34), Slot::Min(40)];
    let gauge_slots = seq![three, three, three, three, Slot::Min(0)];
    let detail_slots = seq![Slot::Length(8), Slot::Length(5), Slot::Min(8)];
    lemma_all_slots();
    lemma_parts_apart(root, area, Axis::Vertical, 1, root_slots);
    lemma_parts_apart(body, root[1], Axis::Vertical, 0, body_slots);
    lemma_parts_apart(figures, body[0], Axis::Horizontal, 0, figure_slots);
    lemma_parts_apart(gauges, figures[0], Axis::Vertical, 0, gauge_slots);
    lemma_parts_apart(details, figures[1], Axis::Vertical, 0, detail_slots);
    lemma_within_itself(root[1]);
    lemma_nested(body, root[1], Axis::Vertical, body_slots, root[1]);
    lemma_within_itself(body[0]);
    lemma_nested(figures, body[0], Axis::Horizontal, figure_slots, body[0]);
    lemma_nested(figures, body[0], Axis::Horizontal, figure_slots, root[1]);
    lemma_within_itself(figures[0]);
    lemma_nested(gauges, figures[0], Axis::Vertical, gauge_slots, figures[0]);
    lemma_nested(gauges, figures[0], Axis::Vertical, gauge_slots, body[0]);
    lemma_nested(gauges, figures[0], Axis::Vertical, gauge_slots, root[1]);
    lemma_within_itself(figures[1]);
    lemma_nested(details, figures[1], Axis::Vertical, detail_slots, figures[1]);
    lemma_nested(details, figures[1], Axis::Vertical, detail_slots, body[0]);
    lemma_nested(details, figures[1], Axis::Vertical, detail_slots, root[1]);
}

/// A gauge overlaps no panel of another group.
proof fn lemma_gauge_apart(
    root: Seq<Area>,
    body: Seq<Area>,
    figures: Seq<Area>,
    gauges: Seq<Area>,
    details: Seq<Area>,
    i: int,
)
    requires
        are_grouped(root, body, figures, gauges, details),
        0 <= i < gauges.len(),
    ensures
        apart(root[0], gauges[i]),
        apart(gauges[i], body[1]),
        forall|j: int| 0 <= j < details.len() ==> apart(gauges[i], #[trigger] details[j]),
{
    lemma_within_itself(root[0]);
    lemma_within_itself(body[1]);
    lemma_apart_within(root[0], root[1], root[0], gauges[i]);
    lemma_apart_within(body[0], body[1], gauges[i], body[1]);
    assert forall|j: int| 0 <= j < details.len() implies apart(
        gauges[i],
        #[trigger] details[j],
    ) by {
        lemma_apart_within(figures[0], figures[1], gauges[i], details[j]);
    }
}

/// The header and the processes overlap neither each other nor a detail.
proof fn lemma_frame_apart(
    root: Seq<Area>,
    body: Seq<Area>,
    figures: Seq<Area>,
    gauges: Seq<Area>,
    details: Seq<Area>,
)
    requires
        are_grouped(root, body, figures, gauges, details),
    ensures
        apart(root[0], body[1]),
        forall|i: int|
            0 <= i < details.len() ==> apart(root[0], #[trigger] details[i]) && apart(
                details[i],
                body[1],
            ),
{
    lemma_within_itself(root[0]);
    lemma_within_itself(body[1]);
    lemma_apart_within(root[0], root[1], root[0], body[1]);
    assert forall|i: int| 0 <= i < details.len() implies apart(root[0], #[trigger] details[i])
        && apart(details[i], body[1]) by {
        lemma_apart_within(root[0], root[1], root[0], details[i]);
        lemma_apart_within(body[0], body[1], details[i], body[1]);
    }
}

/// No two panels overlap.
proof fn lemma_all_apart(
    root: Seq<Area>,
    body: Seq<Area>,
    figures: Seq<Area>,
    gauges: Seq<Area>,
    details: Seq<Area>,
)
    requires
        are_grouped(root, body, figures, gauges, details),
        gauges.len() == 5,
        details.len() == 3,
    ensures
        all_apart(screen_of(root, body, gauges, details)),
{
    lemma_frame_apart(root, body, figures, gauges, details);
    let list = panels(screen_of(root, body, gauges, details));
    assert forall|i: int, j: int| 0 <= i < j < list.len() implies apart(
        #[trigger] list[i],
        #[trigger] list[j],
    ) by {
        if 1 <= i <= 5 {
            lemma_gauge_apart(root, body, figures, gauges, details, i - 1);
        }
        if 1 <= j <= 5 {
            lemma_gauge_apart(root, body, figures, gauges, details, j - 1);
        }
        assert(list[i] == (if i == 0 {
            root[0]
        } else if i <= 5 {
            gauges[i - 1]
        } else {
            details[i - 6]
        }));
        assert(list[j] == (if j <= 5 {
            gauges[j - 1]
        } else if j <= 8 {
            details[j - 6]
        } else {
            body[1]
        }));
    }
}

/// However the parts fall, the header and the processes span the screen inside its margin,
/// the gauges are of one width, the details are of one width, no panel reaches beyond the
/// margin and no two panels overlap.
pub proof fn lemma_panels(
    area: Area,
    root: Seq<Area>,
    body: Seq<Area>,
    figures: Seq<Area>,
    gauges: Seq<Area>,
    details: Seq<Area>,
)
    requires
        is_subdivision(area, root, body, figures, gauges, details),
    ensures
        ({
            let screen = screen_of(root, body, gauges, details);
            &&& spans(screen.header, inside(area, 1), Axis::Vertical)
            &&& spans(screen.processes, inside(area, 1), Axis::Vertical)
            &&& spans(screen.mem, screen.cpu, Axis::Vertical)
            &&& spans(screen.gpu, screen.cpu, Axis::Vertical)
            &&& spans(screen.net, screen.cpu, Axis::Vertical)
            &&& spans(screen.note, screen.cpu, Axis::Vertical)
            &&& spans(screen.traffic, screen.hardware, Axis::Vertical)
            &&& spans(screen.cards, screen.hardware, Axis::Vertical)
            &&& all_within(screen, inside(area, 1))
            &&& all_apart(screen)
        }),
{
    lemma_all_within(area, root, body, figures, gauges, details);
    lemma_groups(area, root, body, figures, gauges, details);
    lemma_all_apart(root, body, figures, gauges, details);
}

/// The sizes of the panels on any screen.
pub proof fn lemma_sized(
    area: Area,
    root: Seq<Area>,
    body: Seq<Area>,
    figures: Seq<Area>,
    gauges: Seq<Area>,
    details: Seq<Area>,
)
    requires
        is_subdivision(area, root, body, figures, gauges, details),
    ensures
        is_sized(screen_of(root, body, gauges, details), area),
{
    lemma_all_slots();
    let whole = inside(area, 1);
    let rows = end(whole, Axis::Vertical) - start(whole, Axis::Vertical);
    let columns = end(whole, Axis::Horizontal) - start(whole, Axis::Horizontal);
    assert(inside(root[1], 0) == root[1]);
    assert(inside(body[0], 0) == body[0]);
    assert(inside(figures[0], 0) == figures[0]);
    assert(inside(figures[1], 0) == figures[1]);
    assert(root.last() == root[1] && body.last() == body[1] && figures.last() == figures[1]);
    assert(gauges.last() == gauges[4] && details.last() == details[2]);
    assert(spans(root[1], whole, Axis::Vertical));
    assert(root[0].height + root[1].height == rows);
    assert(root[1].height == rest(rows, 3, 10));
    assert(body[0].height + body[1].height == root[1].height);
    assert(body[1].height == rest(root[1].height as int, 17, 8));
    assert(spans(body[0], root[1], Axis::Vertical));
    assert(figures[1].width == rest(columns, 34, 40));
    assert(figures[0].width + figures[1].width == columns);
    assert(spans(figures[0], body[0], Axis::Horizontal));
    assert(spans(figures[1], body[0], Axis::Horizontal));
    assert(gauges[4].height == rest(body[0].height as int, 12, 0));
    assert(details[2].height == rest(body[0].height as int, 13, 8));
    assert(spans(gauges[0], figures[0], Axis::Vertical));
    assert(spans(details[0], figures[1], Axis::Vertical));
}

/// Where there is room, every panel has its place.
pub proof fn lemma_laid_out(
    area: Area,
    root: Seq<Area>,
    body: Seq<Area>,
    figures: Seq<Area>,
    gauges: Seq<Area>,
    details: Seq<Area>,
)
    requires
        is_subdivision(area, root, body, figures, gauges, details),
        is_roomy(area),
    ensures
        is_laid_out(screen_of(root, body, gauges, details), area),
{
    lemma_all_slots();
    let whole = inside(area, 1);
    assert(spans(root[0], whole, Axis::Vertical) && spans(root[1], whole, Axis::Vertical));
    assert(start(root[1], Axis::Vertical) == area.y + 4);
    assert(root[1] == placed(area, 1, 4, area.width - 2, area.height - 5));
    assert(body[0] == placed(area, 1, 4, area.width - 2, 17));
    assert(figures[0] == placed(area, 1, 4, 34, 17));
    assert(figures[1] == placed(area, 35, 4, area.width - 36, 17));
}

/// The slots of the divisions: the last of each takes the rest.
proof fn lemma_all_slots()
    ensures
        ({
            let three = Slot::Length(3);
            let root = seq![three, Slot::Min(10)];
            let body = seq![Slot::Length(17), Slot::Min(8)];
            let figures = seq![Slot::Length(34), Slot::Min(40)];
            let gauges = seq![three, three, three, three, Slot::Min(0)];
            let details = seq![Slot::Length(8), Slot::Length(5), Slot::Min(8)];
            &&& rest_last(root) && rest_last(body) && rest_last(figures) && rest_last(gauges)
            &&& rest_last(details)
            &&& asked(details, 0) == 0 && asked(details, 1) == 8 && asked(details, 2) == 13
            &&& asked(root, 0) == 0 && asked(root, 1) == 3 && asked(root, 2) == 13
            &&& asked(body, 0) == 0 && asked(body, 1) == 17 && asked(body, 2) == 25
            &&& asked(figures, 0) == 0 && asked(figures, 1) == 34 && asked(figures, 2) == 74
            &&& asked(gauges, 0) == 0 && asked(gauges, 1) == 3 && asked(gauges, 2) == 6
            &&& asked(gauges, 3) == 9 && asked(gauges, 4) == 12 && asked(gauges, 5) == 12
        }),
{
    reveal_with_fuel(asked, 6);
}

/// Divides the screen. How the gauges share fewer rows than they ask for, and the hardware
/// and the traffic theirs, is left to the division.
pub fn divide(area: Area) -> (res: Screen)
    ensures
        exists|
            root: Seq<Area>,
            body: Seq<Area>,
            figures: Seq<Area>,
            gauges: Seq<Area>,
            details: Seq<Area>,
        |
            #[trigger] is_subdivision(area, root, body, figures, gauges, details) && res
                == screen_of(root, body, gauges, details),
        all_within(res, inside(area, 1)),
        all_apart(res),
        is_sized(res, area),
        is_roomy(area) ==> is_laid_out(res, area),
{
    let root = split(area, Axis::Vertical, 1, &root_slots());
    let body = split(root[1], Axis::Vertical, 0, &body_slots());
    let figures = split(body[0], Axis::Horizontal, 0, &figure_slots());
    let gauges = split(figures[0], Axis::Vertical, 0, &gauge_slots());
    let details = split(figures[1], Axis::Vertical, 0, &detail_slots());
    proof {
        assert(is_subdivision(area, root@, body@, figures@, gauges@, details@));
        lemma_panels(area, root@, body@, figures@, gauges@, details@);
        lemma_sized(area, root@, body@, figures@, gauges@, details@);
        if is_roomy(area) {
            lemma_laid_out(area, root@, body@, figures@, gauges@, details@);
        }
    }
    arrange(&root, &body, &gauges, &details)
}

} // verus!
