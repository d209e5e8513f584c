//! What the panels show of the state.

use vstd::arithmetic::power2::*;
use vstd::prelude::*;

use crate::double::Double;
use crate::number::push_signed;
use crate::ranking::ProcessInfo;
use crate::state::{find_percentage, AppState};
use crate::units::{bytes_to_human, bytes_to_human_size, kib_to_human};

verus! {

/// A number brought between two others.
pub open spec fn clamped(v: int, low: int, high: int) -> int {
    if v < low {
        low
    } else if v > high {
        high
    } else {
        v
    }
}

/// Brings a number between two others.
fn clamp(v: Double, low: Double, high: Double) -> (res: Double)
    requires
        v.wf(),
        low.wf(),
        high.wf(),
    ensures
        res == v || res == low || res == high,
        res@ == clamped(v@, low@, high@),
{
    if v.less(low) {
        low
    } else if high.less(v) {
        high
    } else {
        v
    }
}

/// The memory in use, in per cent, and 0 where there is none at all.
pub open spec fn memory_percentage(used: u64, total: u64) -> int {
    if total == 0 {
        0
    } else {
        crate::state::percentage(used, total)
    }
}

/// The traffic both ways in per cent of 125 MiB per second, 100 at most.
pub open spec fn traffic_percentage(recv: int, sent: int) -> int {
    clamped(
        crate::double::product(
            crate::double::quotient(
                crate::double::sum(recv, sent),
                crate::double::whole(131_072_000),
            ),
            crate::double::whole(100),
        ),
        0,
        crate::double::whole(100),
    )
}

/// A gauge: how far it is filled, from 0 to 1, and what it is labelled.
#[derive(Debug)]
pub struct Gauge {
    pub title: String,
    pub ratio: Double,
    pub label: String,
}

/// [`Gauge`] in mathematical values.
pub struct GaugeView {
    pub title: Seq<char>,
    pub ratio: int,
    pub label: Seq<char>,
}

impl View for Gauge {
    type V = GaugeView;

    open spec fn view(&self) -> GaugeView {
        GaugeView { title: self.title@, ratio: self.ratio@, label: self.label@ }
    }
}

/// The gauge of a share in per cent, labelled with one decimal place.
pub open spec fn gauge_of(title: Seq<char>, percent: int) -> GaugeView {
    GaugeView {
        title,
        ratio: clamped(
            crate::double::quotient(percent, crate::double::whole(100)),
            0,
            crate::double::whole(1),
        ),
        label: crate::double::fixed(percent, 1) + "%"@,
    }
}

/// Composes the gauge of a share in per cent.
pub fn gauge(title: &str, percent: Double) -> (res: Gauge)
    requires
        percent.wf(),
        -400 <= percent.exponent <= 60,
    ensures
        res.ratio.wf(),
        !res.ratio.negative,
        res@ == gauge_of(title@, percent@),
        0 <= res@.ratio <= crate::double::whole(1),
{
    let ratio = clamp(percent.over(Double::hundred()), Double::zero(), Double::unity());
    let mut label = String::new();
    percent.push_fixed(&mut label, 1);
    label.append("%");
    assert(label@ =~= crate::double::fixed(percent@, 1) + "%"@);
    proof {
        crate::double::lemma_whole_monotone(0, 1);
        crate::double::lemma_sign(ratio);
    }
    Gauge { title: title.to_owned(), ratio, label }
}

/// The lines on the hardware.
pub open spec fn hardware_text(st: crate::state::StateView) -> Seq<Seq<char>> {
    seq![
        "CPU: "@ + st.cpu_model,
        "RAM: "@ + st.memory_model,
        "RAM Used: "@ + crate::units::kib_text(st.mem_used_kb) + " / "@ + crate::units::kib_text(
            st.mem_total_kb,
        ),
    ]
}

/// The lines on the network.
pub open spec fn network_text(st: crate::state::StateView) -> Seq<Seq<char>> {
    seq![
        "DL: "@ + crate::units::rate_text(st.net_recv_rate_bps),
        "UL: "@ + crate::units::rate_text(st.net_sent_rate_bps),
    ]
}

/// The cells of a process in the table: id, share of processor time with two decimal
/// places, memory and command line.
pub open spec fn process_cells(p: crate::ranking::ProcessInfoView) -> Seq<Seq<char>> {
    seq![
        crate::number::signed(p.pid as int),
        crate::double::fixed(p.cpu_usage, 2),
        crate::units::size_text(p.rss_bytes),
        p.cmdline,
    ]
}

/// The panel on processes: a message, or the rows of a table.
#[derive(Debug)]
pub enum ProcessPanel {
    Message(String),
    Rows(Vec<Vec<String>>),
}

/// [`ProcessPanel`] in mathematical values.
pub enum ProcessPanelView {
    Message(Seq<char>),
    Rows(Seq<Seq<Seq<char>>>),
}

impl View for ProcessPanel {
    type V = ProcessPanelView;

    open spec fn view(&self) -> ProcessPanelView {
        match self {
            ProcessPanel::Message(text) => ProcessPanelView::Message(text@),
            ProcessPanel::Rows(rows) => ProcessPanelView::Rows(row_views(rows@)),
        }
    }
}

/// The texts of some rows.
pub open spec fn row_views(rows: Seq<Vec<String>>) -> Seq<Seq<Seq<char>>> {
    Seq::new(rows.len(), |i: int| crate::text::strings(rows[i]@))
}

/// The panel on processes: the message if there is one, else a row for each process.
pub open spec fn process_panel_of(st: crate::state::StateView) -> ProcessPanelView {
    match st.process_message {
        Some(text) => ProcessPanelView::Message(text),
        None => ProcessPanelView::Rows(
            Seq::new(st.top_processes.len(), |i: int| process_cells(st.top_processes[i])),
        ),
    }
}

/// The headings of the process table.
pub fn process_headings() -> (res: Vec<String>)
    ensures
        crate::text::strings(res@) == seq!["PID"@, "CPU%"@, "RAM"@, "CMD"@],
{
    let mut res: Vec<String> = Vec::new();
    res.push("PID".to_owned());
    res.push("CPU%".to_owned());
    res.push("RAM".to_owned());
    res.push("CMD".to_owned());
    assert(crate::text::strings(res@) =~= seq!["PID"@, "CPU%"@, "RAM"@, "CMD"@]);
    res
}

/// Composes the cells of a process.
pub fn process_row(p: &ProcessInfo) -> (res: Vec<String>)
    requires
        p.wf(),
    ensures
        crate::text::strings(res@) == process_cells(p@),
{
    let mut pid = String::new();
    push_signed(&mut pid, p.pid);
    assert(pid@ =~= crate::number::signed(p.pid as int));
    let mut share = String::new();
    p.cpu_usage.push_fixed(&mut share, 2);
    assert(share@ =~= crate::double::fixed(p.cpu_usage@, 2));
    let mut res: Vec<String> = Vec::new();
    res.push(pid);
    res.push(share);
    res.push(bytes_to_human_size(p.rss_bytes));
    res.push(p.cmdline.clone());
    assert(crate::text::strings(res@) =~= process_cells(p@));
    res
}

/// A label before a text.
fn labelled(label: &str, text: &str) -> (res: String)
    ensures
        res@ == label@ + text@,
{
    let mut res = label.to_owned();
    res.append(text);
    res
}

impl AppState {
    /// The memory in use, in per cent.
    pub fn mem_usage_percent(&self) -> (res: Double)
        ensures
            res.wf(),
            !res.negative,
            -200 <= res.exponent <= 40,
            res@ == memory_percentage(self.mem_used_kb, self.mem_total_kb),
    {
        if self.mem_total_kb == 0 {
            Double::zero()
        } else {
            find_percentage(self.mem_used_kb, self.mem_total_kb)
        }
    }

    /// The traffic both ways, in per cent of what is taken for the full rate.
    pub fn net_activity_percent(&self) -> (res: Double)
        requires
            self.wf(),
        ensures
            res.wf(),
            !res.negative,
            -300 <= res.exponent <= 60,
            res@ == traffic_percentage(self.net_recv_rate_bps@, self.net_sent_rate_bps@),
    {
        proof {
            lemma2_to64();
        }
        let total = self.net_recv_rate_bps.plus(self.net_sent_rate_bps);
        let percent = total.over(Double::from_u64(131_072_000)).times(Double::hundred());
        let res = clamp(percent, Double::zero(), Double::hundred());
        proof {
            crate::double::lemma_whole_monotone(0, 100);
            crate::double::lemma_sign(res);
        }
        res
    }

    /// The gauge of the processor's load.
    pub fn cpu_gauge(&self) -> (res: Gauge)
        requires
            self.wf(),
        ensures
            res.ratio.wf(),
            !res.ratio.negative,
            res@ == gauge_of("CPU"@, self.cpu_usage@),
            0 <= res@.ratio <= crate::double::whole(1),
    {
        gauge("CPU", self.cpu_usage)
    }

    /// The gauge of the memory in use.
    pub fn mem_gauge(&self) -> (res: Gauge)
        ensures
            res.ratio.wf(),
            !res.ratio.negative,
            res@ == gauge_of("MEM"@, memory_percentage(self.mem_used_kb, self.mem_total_kb)),
            0 <= res@.ratio <= crate::double::whole(1),
    {
        gauge("MEM", self.mem_usage_percent())
    }

    /// The gauge of the network traffic.
    pub fn net_gauge(&self) -> (res: Gauge)
        requires
            self.wf(),
        ensures
            res.ratio.wf(),
            !res.ratio.negative,
            res@ == gauge_of(
                "NET"@,
                traffic_percentage(self.net_recv_rate_bps@, self.net_sent_rate_bps@),
            ),
            0 <= res@.ratio <= crate::double::whole(1),
    {
        gauge("NET", self.net_activity_percent())
    }

    /// Composes the lines on the hardware.
    pub fn hardware_lines(&self) -> (res: Vec<String>)
        ensures
            crate::text::strings(res@) == hardware_text(self@),
    {
        let mut used = labelled("RAM Used: ", kib_to_human(self.mem_used_kb).as_str());
        used.append(" / ");
        used.append(kib_to_human(self.mem_total_kb).as_str());
        let mut res: Vec<String> = Vec::new();
        res.push(labelled("CPU: ", self.cpu_model.as_str()));
        res.push(labelled("RAM: ", self.memory_model.as_str()));
        res.push(used);
        assert(crate::text::strings(res@) =~= hardware_text(self@));
        res
    }

    /// Composes the lines on the network.
    pub fn network_lines(&self) -> (res: Vec<String>)
        requires
            self.wf(),
        ensures
            crate::text::strings(res@) == network_text(self@),
    {
        let mut res: Vec<String> = Vec::new();
        res.push(labelled("DL: ", bytes_to_human(self.net_recv_rate_bps).as_str()));
        res.push(labelled("UL: ", bytes_to_human(self.net_sent_rate_bps).as_str()));
        assert(crate::text::strings(res@) =~= network_text(self@));
        res
    }

    /// Composes the panel on processes.
    pub fn process_panel(&self) -> (res: ProcessPanel)
        requires
            self.wf(),
        ensures
            res@ == process_panel_of(self@),
    {
        if let Some(text) = &self.process_message {
            return ProcessPanel::Message(text.clone());
        }
        let ghost shown = self@.top_processes;
        let mut rows: Vec<Vec<String>> = Vec::new();
        let mut i: usize = 0;
        while i < self.top_processes.len()
            invariant
                i <= self.top_processes.len(),
                self.wf(),
                shown == crate::ranking::info_views(self.top_processes@),
                row_views(rows@) =~= Seq::new(i as nat, |k: int| process_cells(shown[k])),
            decreases self.top_processes.len() - i,
        {
            let ghost before = row_views(rows@);
            rows.push(process_row(&self.top_processes[i]));
            assert(row_views(rows@) =~= before.push(process_cells(shown[i as int])));
            i = i + 1;
        }
        assert(row_views(rows@) =~= Seq::new(shown.len(), |k: int| process_cells(shown[k])));
        ProcessPanel::Rows(rows)
    }
}

/// Memory as it is read is shown as 0 to 100 per cent in use.
pub proof fn lemma_memory_percentage_bounds(content: Seq<char>)
    ensures
        0 <= memory_percentage(
            crate::procfs::memory_used(content),
            crate::procfs::memory_total(content),
        ) <= crate::double::whole(100),
{
    let used = crate::procfs::memory_used(content);
    let total = crate::procfs::memory_total(content);
    if total > 0 {
        crate::state::lemma_percentage_bounds(used, total);
    } else {
        crate::double::lemma_whole_monotone(0, 100);
    }
}

/// Traffic is shown as 0 to 100 per cent of the full rate, whatever it is.
pub proof fn lemma_traffic_percentage_bounds(recv: int, sent: int)
    ensures
        0 <= traffic_percentage(recv, sent) <= crate::double::whole(100),
{
    crate::double::lemma_whole_monotone(0, 100);
}

/// A process's row tells its id, its share with two decimal places, its memory and its
/// command line, each in a cell of its own.
pub proof fn lemma_row_reads_back(p: crate::ranking::ProcessInfoView)
    ensures
        ({
            let row = process_cells(p);
            &&& row.len() == 4
            &&& p.pid >= 0 ==> crate::number::all_digits(row[0]) && crate::number::value(row[0])
                == p.pid
            &&& p.pid < 0 ==> row[0].len() > 1 && row[0][0] == '-' && crate::number::value(
                row[0].drop_first(),
            ) == -p.pid
            &&& row[1] == crate::double::fixed(p.cpu_usage, 2)
            &&& p.rss_bytes < 1024 ==> crate::number::leading_number(row[2]) == p.rss_bytes
                && crate::number::behind_number(row[2]) == " "@ + "B"@
            &&& row[2] == crate::units::size_text(p.rss_bytes)
            &&& row[3] == p.cmdline
        }),
{
    crate::number::lemma_signed_reads_back(p.pid as int);
    if p.rss_bytes < 1024 {
        crate::units::lemma_small_size(p.rss_bytes);
        reveal_strlit(" ");
        let rest = " "@ + "B"@;
        assert(rest[0] == ' ');
        crate::number::lemma_leading_number(p.rss_bytes as nat, rest);
        assert(crate::units::size_text(p.rss_bytes) =~= crate::number::decimal(
            p.rss_bytes as nat,
        ) + rest);
    }
}

/// The table has a row for every process that is shown, in the same order; a message stands
/// in its place.
pub proof fn lemma_table_shows_every_process(st: crate::state::StateView, i: int)
    ensures
        st.process_message is Some ==> process_panel_of(st) == ProcessPanelView::Message(
            st.process_message->0,
        ),
        st.process_message is None ==> process_panel_of(st) is Rows,
        st.process_message is None ==> process_panel_of(st)->Rows_0.len()
            == st.top_processes.len(),
        st.process_message is None && 0 <= i < st.top_processes.len() ==> {
            let p = st.top_processes[i];
            let row = process_panel_of(st)->Rows_0[i];
            &&& row.len() == 4
            &&& p.pid >= 0 ==> crate::number::value(row[0]) == p.pid
            &&& row[1] == crate::double::fixed(p.cpu_usage, 2)
            &&& row[2] == crate::units::size_text(p.rss_bytes)
            &&& row[3] == p.cmdline
        },
{
    if st.process_message is None && 0 <= i < st.top_processes.len() {
        lemma_row_reads_back(st.top_processes[i]);
    }
}

/// The lines on the hardware end with the names and the memory in use and in all, behind
/// their labels.
pub proof fn lemma_hardware_reads_back(st: crate::state::StateView)
    ensures
        ({
            let ls = hardware_text(st);
            let memory = ls[2].skip("RAM Used: "@.len() as int);
            let used = crate::units::kib_text(st.mem_used_kb);
            &&& ls.len() == 3
            &&& crate::text::starts_with(ls[0], "CPU: "@)
            &&& ls[0].skip("CPU: "@.len() as int) == st.cpu_model
            &&& crate::text::starts_with(ls[1], "RAM: "@)
            &&& ls[1].skip("RAM: "@.len() as int) == st.memory_model
            &&& crate::text::starts_with(ls[2], "RAM Used: "@)
            &&& crate::text::starts_with(memory, used + " / "@)
            &&& memory.skip((used + " / "@).len() as int) == crate::units::kib_text(
                st.mem_total_kb,
            )
        }),
{
    let ls = hardware_text(st);
    let used = crate::units::kib_text(st.mem_used_kb);
    let total = crate::units::kib_text(st.mem_total_kb);
    assert(ls[0].take("CPU: "@.len() as int) =~= "CPU: "@);
    assert(ls[0].skip("CPU: "@.len() as int) =~= st.cpu_model);
    assert(ls[1].take("RAM: "@.len() as int) =~= "RAM: "@);
    assert(ls[1].skip("RAM: "@.len() as int) =~= st.memory_model);
    assert(ls[2].take("RAM Used: "@.len() as int) =~= "RAM Used: "@);
    let memory = ls[2].skip("RAM Used: "@.len() as int);
    assert(memory =~= used + " / "@ + total);
    assert(memory.take((used + " / "@).len() as int) =~= used + " / "@);
    assert(memory.skip((used + " / "@).len() as int) =~= total);
}

/// The lines on the network end with the rates, what is received first.
pub proof fn lemma_network_reads_back(st: crate::state::StateView)
    ensures
        ({
            let ls = network_text(st);
            &&& ls.len() == 2
            &&& crate::text::starts_with(ls[0], "DL: "@)
            &&& ls[0].skip("DL: "@.len() as int) == crate::units::rate_text(st.net_recv_rate_bps)
            &&& crate::text::starts_with(ls[1], "UL: "@)
            &&& ls[1].skip("UL: "@.len() as int) == crate::units::rate_text(st.net_sent_rate_bps)
        }),
{
    let ls = network_text(st);
    assert(ls[0].take("DL: "@.len() as int) =~= "DL: "@);
    assert(ls[0].skip("DL: "@.len() as int) =~= crate::units::rate_text(st.net_recv_rate_bps));
    assert(ls[1].take("UL: "@.len() as int) =~= "UL: "@);
    assert(ls[1].skip("UL: "@.len() as int) =~= crate::units::rate_text(st.net_sent_rate_bps));
}

/// A gauge is empty at nothing or less and full at a hundred per cent or more, is filled by
/// the hundredth part between, and is labelled with the share itself.
pub proof fn lemma_gauge(title: Seq<char>, percent: int)
    ensures
        ({
            let g = gauge_of(title, percent);
            &&& g.title == title
            &&& percent <= 0 ==> g.ratio == 0
            &&& percent >= crate::double::whole(100) ==> g.ratio == crate::double::whole(1)
            &&& 0 <= percent <= crate::double::whole(100) ==> g.ratio == crate::double::quotient(
                percent,
                crate::double::whole(100),
            )
            &&& g.label.len() > 0
            &&& g.label.last() == '%'
            &&& g.label.drop_last() == crate::double::fixed(percent, 1)
        }),
{
    reveal_strlit("%");
    let g = gauge_of(title, percent);
    assert(g.label.drop_last() =~= crate::double::fixed(percent, 1));
    crate::double::lemma_whole_monotone(0, 1);
    lemma_hundredth(percent);
}

/// The hundredth part of a number lies between nothing and one where the number lies between
/// nothing and a hundred.
proof fn lemma_hundredth(percent: int)
    ensures
        percent <= 0 ==> crate::double::quotient(percent, crate::double::whole(100)) <= 0,
        percent >= 0 ==> crate::double::quotient(percent, crate::double::whole(100)) >= 0,
        percent >= crate::double::whole(100) ==> crate::double::quotient(
            percent,
            crate::double::whole(100),
        ) >= crate::double::whole(1),
        0 <= percent <= crate::double::whole(100) ==> crate::double::quotient(
            percent,
            crate::double::whole(100),
        ) <= crate::double::whole(1),
{
    lemma_pow2_pos(1074);
    crate::double::lemma_full_share(100);
    crate::double::lemma_whole_monotone(100, 100);
    let u = crate::double::one();
    let d = crate::double::whole(100) as nat;
    crate::double::lemma_zero_quotient(d as int);
    crate::double::lemma_whole_exact(0);
    assert(0 * u == 0);
    assert(percent < 0 ==> percent * u < 0) by (nonlinear_arith)
        requires
            u > 0,
    ;
    if percent >= 0 {
        let p = percent as nat;
        assert(p * u >= 0) by (nonlinear_arith);
        if p >= d {
            assert((d * u) * d <= (p * u) * d) by (nonlinear_arith)
                requires
                    p >= d,
                    u > 0,
                    d > 0,
            ;
            crate::double::lemma_round_monotone(d * u, d, p * u, d);
        }
        if p <= d {
            assert((p * u) * d <= (d * u) * d) by (nonlinear_arith)
                requires
                    p <= d,
                    u > 0,
                    d > 0,
            ;
            crate::double::lemma_round_monotone(p * u, d, d * u, d);
        }
    }
}

/// No memory in use is nothing, all of it is a hundred per cent, and more is no less.
pub proof fn lemma_memory_percentage(used: u64, more: u64, total: u64)
    ensures
        memory_percentage(used, 0) == 0,
        memory_percentage(0, total) == 0,
        total > 0 ==> memory_percentage(total, total) == crate::double::whole(100),
        used <= more ==> memory_percentage(used, total) <= memory_percentage(more, total),
        total > 0 ==> memory_percentage(used, total) == crate::double::product(
            crate::double::quotient(
                crate::double::whole(used as nat),
                crate::double::whole(total as nat),
            ),
            crate::double::whole(100),
        ),
{
    if total > 0 {
        crate::double::lemma_full_share(total as nat);
        crate::double::lemma_empty_share(total as nat);
        if used <= more {
            crate::double::lemma_share_monotone(used as nat, more as nat, total as nat);
        }
    }
}

/// Traffic counts alike in both directions. Up to 125 MiB per second it is its share of
/// them, and beyond a hundred per cent.
pub proof fn lemma_traffic_percentage(recv: int, sent: int, bytes: nat)
    ensures
        traffic_percentage(recv, sent) == traffic_percentage(sent, recv),
        bytes <= 131_072_000 ==> traffic_percentage(crate::double::whole(bytes), 0)
            == crate::double::product(
            crate::double::quotient(
                crate::double::whole(bytes),
                crate::double::whole(131_072_000),
            ),
            crate::double::whole(100),
        ),
        bytes >= 131_072_000 ==> traffic_percentage(crate::double::whole(bytes), 0)
            == crate::double::whole(100),
{
    crate::double::lemma_whole_monotone(0, bytes);
    crate::double::lemma_whole_monotone(0, 100);
    crate::double::lemma_round_again(bytes * crate::double::one(), 1);
    assert(crate::double::sum(crate::double::whole(bytes), 0) == crate::double::whole(bytes));
    if bytes <= 131_072_000 {
        crate::double::lemma_share_bounds(bytes, 131_072_000);
    }
    if bytes >= 131_072_000 {
        crate::double::lemma_full_share(131_072_000);
        crate::double::lemma_share_monotone(131_072_000, bytes, 131_072_000);
    }
}

/// What is received and what is sent count together.
pub proof fn lemma_traffic_counts_both(recv: nat, sent: nat)
    requires
        recv + sent < 0x20_0000_0000_0000,
    ensures
        traffic_percentage(crate::double::whole(recv), crate::double::whole(sent))
            == traffic_percentage(crate::double::whole(recv + sent), 0),
{
    crate::double::lemma_whole_sum(recv, sent);
    crate::double::lemma_whole_sum(recv + sent, 0);
    crate::double::lemma_whole_exact(0);
}

} // verus!
