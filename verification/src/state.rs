//! What the monitor knows between two refreshes, and what a refresh makes of it.

use std::collections::HashMap;

use vstd::prelude::*;

use crate::double::Double;
use crate::error::CommandOutput;
use crate::gpu::GpuStat;
use crate::memory::read_memory_model;
use crate::process::ProcessSample;
use crate::procfs::{read_cpu_model, CpuSnapshot, NetSnapshot};
use crate::ranking::{top_processes, ProcessInfo};
use crate::span::{find_rate_seconds, Span};

verus! {

broadcast use vstd::std_specs::hash::group_hash_axioms;

/// A process's start time and the ticks it had spent at a refresh.
#[derive(Clone, Copy, PartialEq, Eq, Structural, Debug)]
pub struct ProcessCpuSnapshot {
    pub start_time: u64,
    pub total_time: u64,
}

/// The state of the monitor. Shares are in per cent, rates in bytes per second.
#[derive(Debug)]
pub struct AppState {
    pub cpu_model: String,
    pub memory_model: String,
    pub cpu_usage: Double,
    pub mem_used_kb: u64,
    pub mem_total_kb: u64,
    pub net_recv_rate_bps: Double,
    pub net_sent_rate_bps: Double,
    pub gpus: Vec<GpuStat>,
    pub gpu_message: Option<String>,
    pub top_processes: Vec<ProcessInfo>,
    pub process_message: Option<String>,
    pub prev_cpu: Option<CpuSnapshot>,
    pub prev_net: Option<NetSnapshot>,
    pub prev_proc: HashMap<i32, ProcessCpuSnapshot>,
}

/// [`AppState`] in mathematical values.
pub struct StateView {
    pub cpu_model: Seq<char>,
    pub memory_model: Seq<char>,
    pub cpu_usage: int,
    pub mem_used_kb: u64,
    pub mem_total_kb: u64,
    pub net_recv_rate_bps: int,
    pub net_sent_rate_bps: int,
    pub gpus: Seq<crate::gpu::GpuStatView>,
    pub gpu_message: Option<Seq<char>>,
    pub top_processes: Seq<crate::ranking::ProcessInfoView>,
    pub process_message: Option<Seq<char>>,
    pub prev_cpu: Option<CpuSnapshot>,
    pub prev_net: Option<NetSnapshot>,
    pub prev_proc: Map<i32, ProcessCpuSnapshot>,
}

impl View for AppState {
    type V = StateView;

    open spec fn view(&self) -> StateView {
        StateView {
            cpu_model: self.cpu_model@,
            memory_model: self.memory_model@,
            cpu_usage: self.cpu_usage@,
            mem_used_kb: self.mem_used_kb,
            mem_total_kb: self.mem_total_kb,
            net_recv_rate_bps: self.net_recv_rate_bps@,
            net_sent_rate_bps: self.net_sent_rate_bps@,
            gpus: crate::gpu::gpu_views(self.gpus@),
            gpu_message: crate::memory::option_text(self.gpu_message),
            top_processes: crate::ranking::info_views(self.top_processes@),
            process_message: crate::memory::option_text(self.process_message),
            prev_cpu: self.prev_cpu,
            prev_net: self.prev_net,
            prev_proc: self.prev_proc@,
        }
    }
}

/// What was read for a refresh. A reading that failed is missing, or is the wording of the
/// failure where that is shown. The span is the time since the refresh before, if there was
/// one.
#[derive(Debug)]
pub struct Readings {
    pub elapsed: Option<Span>,
    pub cpu: Option<CpuSnapshot>,
    pub memory: Option<(u64, u64)>,
    pub net: Option<NetSnapshot>,
    pub gpus: Result<Vec<GpuStat>, String>,
    pub processes: Result<Vec<ProcessSample>, String>,
}

/// [`Readings`] in mathematical values.
pub struct ReadingsView {
    pub elapsed: Option<Span>,
    pub cpu: Option<CpuSnapshot>,
    pub memory: Option<(u64, u64)>,
    pub net: Option<NetSnapshot>,
    pub gpus: Result<Seq<crate::gpu::GpuStatView>, Seq<char>>,
    pub processes: Result<Seq<crate::process::ProcessSampleView>, Seq<char>>,
}

impl View for Readings {
    type V = ReadingsView;

    open spec fn view(&self) -> ReadingsView {
        ReadingsView {
            elapsed: self.elapsed,
            cpu: self.cpu,
            memory: self.memory,
            net: self.net,
            gpus: match self.gpus {
                Ok(list) => Ok(crate::gpu::gpu_views(list@)),
                Err(e) => Err(e@),
            },
            processes: processes_view(self.processes),
        }
    }
}

/// The view of the processes that were read.
pub open spec fn processes_view(processes: Result<Vec<ProcessSample>, String>) -> Result<
    Seq<crate::process::ProcessSampleView>,
    Seq<char>,
> {
    match processes {
        Ok(list) => Ok(crate::process::sample_views(list@)),
        Err(e) => Err(e@),
    }
}

/// How far a counter has come, and nothing if it went back.
pub open spec fn progress(before: u64, now: u64) -> u64 {
    if now < before {
        0
    } else {
        (now - before) as u64
    }
}

/// The ticks between two readings of the processor times, and 0 where one is missing.
pub open spec fn ticks_between(before: Option<CpuSnapshot>, now: Option<CpuSnapshot>) -> u64 {
    match (before, now) {
        (Some(a), Some(b)) => progress(a.total, b.total),
        _ => 0,
    }
}

/// A part of a whole number in per cent.
pub open spec fn percentage(part: u64, total: u64) -> int {
    crate::double::product(
        crate::double::quotient(
            crate::double::whole(part as nat),
            crate::double::whole(total as nat),
        ),
        crate::double::whole(100),
    )
}

/// The share of ticks that were not idle, in per cent.
pub open spec fn busy_percentage(idle: u64, total: u64) -> int {
    crate::double::product(
        crate::double::difference(
            crate::double::whole(1),
            crate::double::quotient(
                crate::double::whole(idle as nat),
                crate::double::whole(total as nat),
            ),
        ),
        crate::double::whole(100),
    )
}

/// The processor's load: what it was, unless ticks have passed since.
pub open spec fn next_cpu_usage(st: StateView, now: Option<CpuSnapshot>) -> int {
    let ticks = ticks_between(st.prev_cpu, now);
    if ticks > 0 {
        busy_percentage(progress(st.prev_cpu->0.idle, now->0.idle), ticks)
    } else {
        st.cpu_usage
    }
}

/// The span over which rates are taken: a second where there is no refresh before.
pub open spec fn span_or_second(elapsed: Option<Span>) -> Span {
    match elapsed {
        Some(span) => span,
        None => Span { secs: 1, nanos: 0 },
    }
}

/// A rate in bytes per second.
pub open spec fn rate(before: u64, now: u64, elapsed: Option<Span>) -> int {
    crate::double::quotient(
        crate::double::whole(progress(before, now) as nat),
        crate::span::rate_seconds(span_or_second(elapsed)),
    )
}

/// A process's share of the ticks since the refresh before, in per cent. It is 0 where no
/// ticks have passed, and for a process that was not there or has been started anew.
pub open spec fn share(
    prev: Map<i32, ProcessCpuSnapshot>,
    s: crate::process::ProcessSampleView,
    ticks: u64,
) -> int {
    if ticks > 0 && prev.contains_key(s.pid) && prev[s.pid].start_time == s.start_time {
        percentage(progress(prev[s.pid].total_time, s.total_time), ticks)
    } else {
        0
    }
}

/// What is shown of a process.
pub open spec fn info(
    prev: Map<i32, ProcessCpuSnapshot>,
    s: crate::process::ProcessSampleView,
    ticks: u64,
) -> crate::ranking::ProcessInfoView {
    crate::ranking::ProcessInfoView {
        pid: s.pid,
        cpu_usage: share(prev, s, ticks),
        rss_bytes: s.rss_bytes,
        cmdline: s.cmdline,
    }
}

/// What is shown of some processes.
pub open spec fn infos(
    prev: Map<i32, ProcessCpuSnapshot>,
    list: Seq<crate::process::ProcessSampleView>,
    ticks: u64,
) -> Seq<crate::ranking::ProcessInfoView> {
    Seq::new(list.len(), |i: int| info(prev, list[i], ticks))
}

/// What is kept of a process for the next refresh.
pub open spec fn snapshot_of(s: crate::process::ProcessSampleView) -> ProcessCpuSnapshot {
    ProcessCpuSnapshot { start_time: s.start_time, total_time: s.total_time }
}

/// What is kept of some processes for the next refresh, of the last one where an id occurs
/// more than once.
pub open spec fn snapshots(list: Seq<crate::process::ProcessSampleView>) -> Map<
    i32,
    ProcessCpuSnapshot,
>
    decreases list.len(),
{
    if list.len() == 0 {
        Map::empty()
    } else {
        snapshots(list.drop_last()).insert(list.last().pid, snapshot_of(list.last()))
    }
}

/// The state with processes as they were read.
pub open spec fn with_processes(
    st: StateView,
    processes: Result<Seq<crate::process::ProcessSampleView>, Seq<char>>,
    ticks: u64,
) -> StateView {
    match processes {
        Ok(list) => StateView {
            top_processes: crate::ranking::top_ten(infos(st.prev_proc, list, ticks)),
            process_message: None,
            prev_proc: snapshots(list),
            ..st
        },
        Err(e) => StateView {
            top_processes: Seq::empty(),
            process_message: Some("Proc read err: "@ + e),
            ..st
        },
    }
}

/// The state with graphics cards as they were read.
pub open spec fn with_gpus(
    st: StateView,
    gpus: Result<Seq<crate::gpu::GpuStatView>, Seq<char>>,
) -> StateView {
    match gpus {
        Ok(list) => if list.len() > 0 {
            StateView { gpus: list, gpu_message: None, ..st }
        } else {
            StateView { gpus: Seq::empty(), gpu_message: Some("No GPU detected"@), ..st }
        },
        Err(e) => StateView {
            gpus: Seq::empty(),
            gpu_message: Some("GPU read err: "@ + e),
            ..st
        },
    }
}

/// The state with the processor times as they were read.
pub open spec fn with_cpu(st: StateView, now: Option<CpuSnapshot>) -> StateView {
    StateView {
        cpu_usage: next_cpu_usage(st, now),
        prev_cpu: if now is Some {
            now
        } else {
            st.prev_cpu
        },
        ..st
    }
}

/// The state with the memory as it was read.
pub open spec fn with_memory(st: StateView, memory: Option<(u64, u64)>) -> StateView {
    match memory {
        Some((used, total)) => StateView { mem_used_kb: used, mem_total_kb: total, ..st },
        None => st,
    }
}

/// The state with the network traffic as it was read.
pub open spec fn with_net(
    st: StateView,
    now: Option<NetSnapshot>,
    elapsed: Option<Span>,
) -> StateView {
    match (st.prev_net, now) {
        (Some(a), Some(b)) => StateView {
            net_recv_rate_bps: rate(a.recv, b.recv, elapsed),
            net_sent_rate_bps: rate(a.sent, b.sent, elapsed),
            prev_net: now,
            ..st
        },
        (None, Some(_)) => StateView { prev_net: now, ..st },
        (_, None) => st,
    }
}

/// The state after a refresh.
pub open spec fn refreshed(st: StateView, r: ReadingsView) -> StateView {
    with_processes(
        with_gpus(
            with_net(with_memory(with_cpu(st, r.cpu), r.memory), r.net, r.elapsed),
            r.gpus,
        ),
        r.processes,
        ticks_between(st.prev_cpu, r.cpu),
    )
}

/// The state before the first refresh.
pub open spec fn fresh(cpu_model: Seq<char>, memory_model: Seq<char>) -> StateView {
    StateView {
        cpu_model,
        memory_model,
        cpu_usage: 0,
        mem_used_kb: 0,
        mem_total_kb: 0,
        net_recv_rate_bps: 0,
        net_sent_rate_bps: 0,
        gpus: Seq::empty(),
        gpu_message: None,
        top_processes: Seq::empty(),
        process_message: None,
        prev_cpu: None,
        prev_net: None,
        prev_proc: Map::empty(),
    }
}

/// The processor's name to show, given the text of `/proc/cpuinfo` if it could be read.
pub open spec fn shown_cpu_model(cpuinfo: Option<Seq<char>>) -> Seq<char> {
    let model = match cpuinfo {
        Some(text) => crate::procfs::cpu_model(crate::text::lines(text)),
        None => None,
    };
    match model {
        Some(name) => name,
        None => "Unknown CPU"@,
    }
}

/// The memory modules to show, given what `dmidecode` left behind or why it could not be
/// started.
pub open spec fn shown_memory_model(dmidecode: Result<CommandOutput, String>) -> Seq<char> {
    match crate::memory::dmidecode_summary(dmidecode) {
        Ok(model) => model,
        Err(_) => "Unknown RAM (try dmidecode as root)"@,
    }
}

/// How far a counter has come.
fn find_progress(before: u64, now: u64) -> (res: u64)
    ensures
        res == progress(before, now),
{
    now.saturating_sub(before)
}

/// Finds a part of a whole number in per cent.
pub fn find_percentage(part: u64, total: u64) -> (res: Double)
    requires
        total > 0,
    ensures
        res.wf(),
        !res.negative,
        -200 <= res.exponent <= 40,
        res@ == percentage(part, total),
{
    let ratio = Double::from_u64(part).over(Double::from_u64(total));
    ratio.times(Double::hundred())
}

/// Finds the share of ticks that were not idle, in per cent.
fn find_busy_percentage(idle: u64, total: u64) -> (res: Double)
    requires
        total > 0,
    ensures
        res.wf(),
        -200 <= res.exponent <= 40,
        res@ == busy_percentage(idle, total),
{
    let ratio = Double::from_u64(idle).over(Double::from_u64(total));
    Double::unity().minus(ratio).times(Double::hundred())
}

/// Finds a rate in bytes per second.
fn find_rate(before: u64, now: u64, span: Span) -> (res: Double)
    ensures
        res.wf(),
        !res.negative,
        -150 <= res.exponent <= 40,
        res@ == rate(before, now, Some(span)),
{
    Double::from_u64(find_progress(before, now)).over(find_rate_seconds(span))
}

/// A prefix before a text.
fn prefixed(prefix: &str, text: &str) -> (res: String)
    ensures
        res@ == prefix@ + text@,
{
    let mut res = String::new();
    res.append(prefix);
    res.append(text);
    assert(res@ =~= prefix@ + text@);
    res
}

/// Whether every process of a list that is shown has the id, the resident bytes and the
/// command line of one that was read.
pub open spec fn carries(shown: Seq<ProcessInfo>, list: Seq<ProcessSample>) -> bool {
    forall|i: int|
        0 <= i < shown.len() ==> exists|k: int|
            {
                &&& 0 <= k < list.len()
                &&& (#[trigger] shown[i]).pid == (#[trigger] list[k]).pid
                &&& shown[i].rss_bytes == list[k].rss_bytes
                &&& shown[i].cmdline@ == list[k].cmdline@
            }
}

impl AppState {
    /// Numbers can be shown, a message stands in place of what it is about, and ten
    /// processes at most are shown.
    pub open spec fn wf(self) -> bool {
        &&& self.cpu_usage.wf()
        &&& -200 <= self.cpu_usage.exponent <= 40
        &&& self.net_recv_rate_bps.wf()
        &&& !self.net_recv_rate_bps.negative
        &&& -150 <= self.net_recv_rate_bps.exponent <= 40
        &&& self.net_sent_rate_bps.wf()
        &&& !self.net_sent_rate_bps.negative
        &&& -150 <= self.net_sent_rate_bps.exponent <= 40
        &&& forall|i: int|
            0 <= i < self.top_processes.len() ==> (#[trigger] self.top_processes@[i]).wf()
        &&& self.top_processes.len() <= 10
        &&& self.gpu_message is Some ==> self.gpus.len() == 0
        &&& self.process_message is Some ==> self.top_processes.len() == 0
    }

    /// The state before the first refresh, given the text of `/proc/cpuinfo` if it could be
    /// read and what `dmidecode -t memory` left behind or why it could not be started.
    pub fn new(
        cpuinfo: &Option<String>,
        dmidecode: &Result<CommandOutput, String>,
    ) -> (res: AppState)
        ensures
            res.wf(),
            res@ == fresh(
                shown_cpu_model(crate::memory::option_text(*cpuinfo)),
                shown_memory_model(*dmidecode),
            ),
    {
        let cpu_model = match cpuinfo {
            Some(text) => match read_cpu_model(text.as_str()) {
                Ok(model) => model,
                Err(_) => "Unknown CPU".to_owned(),
            },
            None => "Unknown CPU".to_owned(),
        };
        let memory_model = match read_memory_model(dmidecode) {
            Ok(model) => model,
            Err(_) => "Unknown RAM (try dmidecode as root)".to_owned(),
        };
        let res = AppState {
            cpu_model,
            memory_model,
            cpu_usage: Double::zero(),
            mem_used_kb: 0,
            mem_total_kb: 0,
            net_recv_rate_bps: Double::zero(),
            net_sent_rate_bps: Double::zero(),
            gpus: Vec::new(),
            gpu_message: None,
            top_processes: Vec::new(),
            process_message: None,
            prev_cpu: None,
            prev_net: None,
            prev_proc: HashMap::new(),
        };
        assert(res@.gpus =~= Seq::empty());
        assert(res@.top_processes =~= Seq::empty());
        res
    }

    /// Takes up the readings of a refresh.
    pub fn refresh(&mut self, readings: Readings)
        requires
            old(self).wf(),
        ensures
            final(self).wf(),
            final(self)@ == refreshed(old(self)@, readings@),
            readings.processes matches Ok(list) ==> carries(final(self).top_processes@, list@),
    {
        let Readings { elapsed, cpu, memory, net, gpus, processes } = readings;
        let ghost start = self@;
        let mut ticks: u64 = 0;
        if let Some(now) = cpu {
            if let Some(before) = self.prev_cpu {
                let total = find_progress(before.total, now.total);
                let idle = find_progress(before.idle, now.idle);
                if total > 0 {
                    self.cpu_usage = find_busy_percentage(idle, total);
                    ticks = total;
                }
            }
            self.prev_cpu = Some(now);
        }
        assert(self@ == with_cpu(start, cpu));
        assert(ticks == ticks_between(start.prev_cpu, cpu));
        if let Some((used, total)) = memory {
            self.mem_used_kb = used;
            self.mem_total_kb = total;
        }
        let ghost third = self@;
        if let Some(now) = net {
            if let Some(before) = self.prev_net {
                let span = match elapsed {
                    Some(s) => s,
                    None => Span { secs: 1, nanos: 0 },
                };
                self.net_recv_rate_bps = find_rate(before.recv, now.recv, span);
                self.net_sent_rate_bps = find_rate(before.sent, now.sent, span);
            }
            self.prev_net = Some(now);
        }
        let ghost fourth = self@;
        assert(fourth == with_net(third, net, elapsed));
        match gpus {
            Ok(list) => {
                if list.len() > 0 {
                    self.gpus = list;
                    self.gpu_message = None;
                } else {
                    self.gpus = Vec::new();
                    self.gpu_message = Some("No GPU detected".to_owned());
                }
            },
            Err(e) => {
                self.gpus = Vec::new();
                self.gpu_message = Some(prefixed("GPU read err: ", e.as_str()));
            },
        }
        assert(self@.gpus =~= with_gpus(fourth, readings@.gpus).gpus);
        self.refresh_top_processes(processes, ticks);
    }

    /// Takes up the processes that were read, `ticks` after the refresh before.
    pub fn refresh_top_processes(
        &mut self,
        processes: Result<Vec<ProcessSample>, String>,
        ticks: u64,
    )
        requires
            old(self).wf(),
        ensures
            final(self).wf(),
            final(self)@ == with_processes(old(self)@, processes_view(processes), ticks),
            processes matches Ok(list) ==> carries(final(self).top_processes@, list@),
    {
        let list = match processes {
            Ok(list) => list,
            Err(e) => {
                self.top_processes = Vec::new();
                self.process_message = Some(prefixed("Proc read err: ", e.as_str()));
                assert(self@.top_processes =~= Seq::empty());
                return;
            },
        };
        let ghost all = crate::process::sample_views(list@);
        let mut next: HashMap<i32, ProcessCpuSnapshot> = HashMap::new();
        let mut items: Vec<ProcessInfo> = Vec::new();
        let mut i: usize = 0;
        let ghost prev = self.prev_proc@;
        assert(crate::ranking::info_views(items@) =~= infos(prev, all.take(0), ticks));
        while i < list.len()
            invariant
                i <= list.len(),
                all == crate::process::sample_views(list@),
                prev == self.prev_proc@,
                next@ == snapshots(all.take(i as int)),
                crate::ranking::info_views(items@) == infos(prev, all.take(i as int), ticks),
                forall|k: int| 0 <= k < items.len() ==> (#[trigger] items@[k]).wf(),
            decreases list.len() - i,
        {
            let ghost before = crate::ranking::info_views(items@);
            let sample = &list[i];
            let mut cpu_usage = Double::zero();
            if ticks > 0 {
                if let Some(old_one) = self.prev_proc.get(&sample.pid) {
                    if old_one.start_time == sample.start_time {
                        cpu_usage = find_percentage(
                            find_progress(old_one.total_time, sample.total_time),
                            ticks,
                        );
                    }
                }
            }
            next.insert(
                sample.pid,
                ProcessCpuSnapshot {
                    start_time: sample.start_time,
                    total_time: sample.total_time,
                },
            );
            items.push(
                ProcessInfo {
                    pid: sample.pid,
                    cpu_usage,
                    rss_bytes: sample.rss_bytes,
                    cmdline: sample.cmdline.clone(),
                },
            );
            proof {
                assert(all.take(i + 1).drop_last() =~= all.take(i as int));
                assert(all.take(i + 1).last() == sample@);
                assert(crate::ranking::info_views(items@) =~= before.push(
                    info(prev, sample@, ticks),
                ));
                assert(infos(prev, all.take(i + 1), ticks) =~= infos(
                    prev,
                    all.take(i as int),
                    ticks,
                ).push(info(prev, sample@, ticks)));
            }
            i = i + 1;
        }
        assert(all.take(i as int) =~= all);
        self.top_processes = top_processes(&items);
        proof {
            assert(crate::ranking::info_views(self.top_processes@).len() <= 10);
            let (usage, at) = lemma_shown(prev, all, ticks);
            let shown = crate::ranking::info_views(self.top_processes@);
            assert forall|i: int| 0 <= i < self.top_processes@.len() implies exists|k: int|
                {
                    &&& 0 <= k < list@.len()
                    &&& (#[trigger] self.top_processes@[i]).pid == (#[trigger] list@[k]).pid
                    &&& self.top_processes@[i].rss_bytes == list@[k].rss_bytes
                    &&& self.top_processes@[i].cmdline@ == list@[k].cmdline@
                } by {
                let k = at[i];
                assert(shown[i] == self.top_processes@[i]@);
                assert(all[k] == list@[k]@);
            }
        }
        self.prev_proc = next;
        self.process_message = None;
    }
}

/// A part that is not greater than the whole makes up 0 to 100 per cent of it, and leaves 0
/// to 100 per cent.
pub proof fn lemma_percentage_bounds(part: u64, total: u64)
    requires
        part <= total,
        total > 0,
    ensures
        0 <= percentage(part, total) <= crate::double::whole(100),
        0 <= busy_percentage(part, total) <= crate::double::whole(100),
{
    crate::double::lemma_share_bounds(part as nat, total as nat);
    crate::double::lemma_rest_bounds(part as nat, total as nat);
}

/// The processor's load stays between 0 and 100 per cent where no more idle ticks pass than
/// ticks in all.
pub proof fn lemma_load_bounds(st: StateView, r: ReadingsView)
    requires
        0 <= st.cpu_usage <= crate::double::whole(100),
        ticks_between(st.prev_cpu, r.cpu) > 0 ==> progress(st.prev_cpu->0.idle, r.cpu->0.idle)
            <= ticks_between(st.prev_cpu, r.cpu),
    ensures
        0 <= refreshed(st, r).cpu_usage <= crate::double::whole(100),
{
    let ticks = ticks_between(st.prev_cpu, r.cpu);
    if ticks > 0 {
        lemma_percentage_bounds(progress(st.prev_cpu->0.idle, r.cpu->0.idle), ticks);
    }
}

/// A reading that failed leaves what it would have changed as it was.
pub proof fn lemma_failed_readings_keep(st: StateView, r: ReadingsView)
    ensures
        r.cpu is None ==> refreshed(st, r).cpu_usage == st.cpu_usage && refreshed(st, r).prev_cpu
            == st.prev_cpu,
        r.memory is None ==> refreshed(st, r).mem_used_kb == st.mem_used_kb && refreshed(
            st,
            r,
        ).mem_total_kb == st.mem_total_kb,
        r.net is None ==> {
            &&& refreshed(st, r).net_recv_rate_bps == st.net_recv_rate_bps
            &&& refreshed(st, r).net_sent_rate_bps == st.net_sent_rate_bps
            &&& refreshed(st, r).prev_net == st.prev_net
        },
        r.processes is Err ==> refreshed(st, r).prev_proc == st.prev_proc,
{
}

/// No refresh changes the names of the hardware.
pub proof fn lemma_models_stay(st: StateView, r: ReadingsView)
    ensures
        refreshed(st, r).cpu_model == st.cpu_model,
        refreshed(st, r).memory_model == st.memory_model,
{
}

/// After a refresh there is a message on graphics cards, or there are graphics cards, never
/// both; and where there is a message on processes, no process is shown.
pub proof fn lemma_message_or_list(st: StateView, r: ReadingsView)
    ensures
        refreshed(st, r).gpu_message is None <==> refreshed(st, r).gpus.len() > 0,
        refreshed(st, r).process_message is Some <==> r.processes is Err,
        refreshed(st, r).process_message is Some ==> refreshed(st, r).top_processes.len() == 0,
{
}

/// The first refresh finds neither load nor rates, and no process with a share.
pub proof fn lemma_first_refresh(cpu_model: Seq<char>, memory_model: Seq<char>, r: ReadingsView)
    ensures
        ({
            let st = refreshed(fresh(cpu_model, memory_model), r);
            &&& st.cpu_usage == 0
            &&& st.net_recv_rate_bps == 0
            &&& st.net_sent_rate_bps == 0
            &&& forall|i: int|
                0 <= i < st.top_processes.len() ==> (#[trigger] st.top_processes[i]).cpu_usage == 0
        }),
{
    if let Ok(list) = r.processes {
        let items = infos(Map::empty(), list, 0);
        crate::ranking::lemma_top_ten(items);
        let shown = crate::ranking::top_ten(items);
        assert forall|i: int| 0 <= i < shown.len() implies (#[trigger] shown[i]).cpu_usage == 0 by {
            assert(items.contains(shown[i]));
        }
    }
}

/// The span over which a rate is taken is never zero.
pub proof fn lemma_rate_seconds_positive(span: Span)
    ensures
        crate::span::rate_seconds(span) > 0,
{
    crate::span::lemma_thousandth_positive();
}

/// Where a counter stood still or went back, there is no traffic.
pub proof fn lemma_no_traffic(before: u64, now: u64, elapsed: Option<Span>)
    requires
        now <= before,
    ensures
        rate(before, now, elapsed) == 0,
{
    lemma_rate_seconds_positive(span_or_second(elapsed));
    crate::double::lemma_zero_quotient(crate::span::rate_seconds(span_or_second(elapsed)));
}

/// What is kept of a process for the next refresh, where its id occurs once.
proof fn lemma_snapshots(list: Seq<crate::process::ProcessSampleView>, k: int)
    requires
        0 <= k < list.len(),
        forall|i: int| 0 <= i < list.len() && i != k ==> (#[trigger] list[i]).pid != list[k].pid,
    ensures
        snapshots(list).contains_key(list[k].pid),
        snapshots(list)[list[k].pid] == snapshot_of(list[k]),
    decreases list.len(),
{
    if k < list.len() - 1 {
        let init = list.drop_last();
        assert(init[k] == list[k]);
        assert forall|i: int| 0 <= i < init.len() && i != k implies (#[trigger] init[i]).pid
            != init[k].pid by {
            assert(init[i] == list[i]);
        }
        lemma_snapshots(init, k);
    }
}

/// What the second of two refreshes ranks: the processes that it read, each with its share
/// of the ticks since the first.
pub open spec fn second_ranked(
    st: StateView,
    first: ReadingsView,
    second: ReadingsView,
) -> Seq<crate::ranking::ProcessInfoView> {
    let between = refreshed(st, first);
    infos(between.prev_proc, second.processes->Ok_0, ticks_between(between.prev_cpu, second.cpu))
}

/// Over two refreshes, a process's share is the part that it has of all ticks between them.
pub proof fn lemma_share_between_refreshes(
    st: StateView,
    first: ReadingsView,
    second: ReadingsView,
    k: int,
    j: int,
)
    requires
        first.processes is Ok,
        second.processes is Ok,
        first.cpu is Some,
        second.cpu is Some,
        first.cpu->0.total < second.cpu->0.total,
        ({
            let before = first.processes->Ok_0;
            let after = second.processes->Ok_0;
            &&& 0 <= k < before.len()
            &&& 0 <= j < after.len()
            &&& after[j].pid == before[k].pid
            &&& after[j].start_time == before[k].start_time
            &&& forall|i: int|
                0 <= i < before.len() && i != k ==> (#[trigger] before[i]).pid != before[k].pid
        }),
    ensures
        refreshed(refreshed(st, first), second).top_processes == crate::ranking::top_ten(
            second_ranked(st, first, second),
        ),
        second_ranked(st, first, second)[j].cpu_usage == percentage(
            progress(
                first.processes->Ok_0[k].total_time,
                second.processes->Ok_0[j].total_time,
            ),
            (second.cpu->0.total - first.cpu->0.total) as u64,
        ),
{
    lemma_snapshots(first.processes->Ok_0, k);
}

/// Over two refreshes, a process that was not there at the first, or has been started anew,
/// has no share at the second.
pub proof fn lemma_new_process_has_no_share(
    st: StateView,
    first: ReadingsView,
    second: ReadingsView,
    j: int,
)
    requires
        first.processes is Ok,
        second.processes is Ok,
        ({
            let before = first.processes->Ok_0;
            let after = second.processes->Ok_0;
            &&& 0 <= j < after.len()
            &&& forall|i: int|
                0 <= i < before.len() && (#[trigger] before[i]).pid == after[j].pid
                    ==> before[i].start_time != after[j].start_time
        }),
    ensures
        refreshed(refreshed(st, first), second).top_processes == crate::ranking::top_ten(
            second_ranked(st, first, second),
        ),
        second_ranked(st, first, second)[j].cpu_usage == 0,
{
    lemma_snapshot_times(first.processes->Ok_0, second.processes->Ok_0[j].pid);
}

/// What is kept of an id for the next refresh is of a process with that id.
proof fn lemma_snapshot_times(list: Seq<crate::process::ProcessSampleView>, pid: i32)
    ensures
        snapshots(list).contains_key(pid) ==> exists|i: int|
            0 <= i < list.len() && (#[trigger] list[i]).pid == pid && snapshots(list)[pid]
                == snapshot_of(list[i]),
    decreases list.len(),
{
    if list.len() > 0 {
        let init = list.drop_last();
        lemma_snapshot_times(init, pid);
        if list.last().pid == pid {
            assert(list[list.len() - 1].pid == pid);
        } else if snapshots(list).contains_key(pid) {
            let i = choose|i: int|
                0 <= i < init.len() && (#[trigger] init[i]).pid == pid && snapshots(init)[pid]
                    == snapshot_of(init[i]);
            assert(list[i].pid == pid);
        }
    }
}

/// Whether one of some processes comes before another: by its share, then by its memory,
/// then as they were read.
pub open spec fn outranks(
    usage: Seq<int>,
    list: Seq<crate::process::ProcessSampleView>,
    a: int,
    b: int,
) -> bool {
    ||| usage[a] > usage[b]
    ||| usage[a] == usage[b] && list[a].rss_bytes > list[b].rss_bytes
    ||| usage[a] == usage[b] && list[a].rss_bytes == list[b].rss_bytes && a < b
}

/// Whether what is shown are the first ten of some processes, or all if there are fewer:
/// those at the places `at`, with their id, memory and command line as they were read, and
/// their share.
pub open spec fn is_shown(
    shown: Seq<crate::ranking::ProcessInfoView>,
    list: Seq<crate::process::ProcessSampleView>,
    usage: Seq<int>,
    at: Seq<int>,
) -> bool {
    &&& usage.len() == list.len()
    &&& at.len() == shown.len()
    &&& list.len() >= 10 ==> shown.len() == 10
    &&& list.len() < 10 ==> shown.len() == list.len()
    &&& forall|i: int|
        0 <= i < shown.len() ==> {
            &&& 0 <= #[trigger] at[i] < list.len()
            &&& shown[i].pid == list[at[i]].pid
            &&& shown[i].rss_bytes == list[at[i]].rss_bytes
            &&& shown[i].cmdline == list[at[i]].cmdline
            &&& shown[i].cpu_usage == usage[at[i]]
        }
    &&& forall|i: int, j: int|
        0 <= i < j < at.len() ==> outranks(usage, list, #[trigger] at[i], #[trigger] at[j])
    &&& forall|k: int, i: int|
        0 <= k < list.len() && !at.contains(k) && 0 <= i < at.len() ==> #[trigger] outranks(
            usage,
            list,
            at[i],
            k,
        )
}

/// The shares of some processes, and the places of those that are shown.
proof fn lemma_shown(
    prev: Map<i32, ProcessCpuSnapshot>,
    list: Seq<crate::process::ProcessSampleView>,
    ticks: u64,
) -> (res: (Seq<int>, Seq<int>))
    ensures
        is_shown(crate::ranking::top_ten(infos(prev, list, ticks)), list, res.0, res.1),
        forall|k: int| 0 <= k < list.len() ==> #[trigger] res.0[k] == share(prev, list[k], ticks),
{
    let items = infos(prev, list, ticks);
    let usage = Seq::new(list.len(), |i: int| share(prev, list[i], ticks));
    let at = crate::ranking::lemma_shown_places(items);
    let shown = crate::ranking::top_ten(items);
    assert forall|i: int| 0 <= i < shown.len() implies {
        &&& 0 <= #[trigger] at[i] < list.len()
        &&& shown[i].pid == list[at[i]].pid
        &&& shown[i].rss_bytes == list[at[i]].rss_bytes
        &&& shown[i].cmdline == list[at[i]].cmdline
        &&& shown[i].cpu_usage == usage[at[i]]
    } by {
        assert(shown[i] == items[at[i]]);
    }
    assert forall|i: int, j: int| 0 <= i < j < at.len() implies outranks(
        usage,
        list,
        #[trigger] at[i],
        #[trigger] at[j],
    ) by {
        assert(crate::ranking::ahead(items, at[i], at[j]));
    }
    assert forall|k: int, i: int|
        0 <= k < list.len() && !at.contains(k) && 0 <= i < at.len() implies #[trigger] outranks(
        usage,
        list,
        at[i],
        k,
    ) by {
        assert(crate::ranking::ahead(items, at[i], k));
    }
    (usage, at)
}

/// After a refresh, every process that is shown carries the id, the resident bytes and the
/// command line of one that was read, unchanged, and each of these stands for another; they
/// are the first ten by share, then by memory, then as they were read. No share counts
/// where no ticks have passed.
pub proof fn lemma_refresh_shows_what_was_read(st: StateView, r: ReadingsView)
    requires
        r.processes is Ok,
    ensures
        exists|usage: Seq<int>, at: Seq<int>|
            {
                &&& #[trigger] is_shown(
                    refreshed(st, r).top_processes,
                    r.processes->Ok_0,
                    usage,
                    at,
                )
                &&& r.cpu is None || st.prev_cpu is None || r.cpu->0.total <= st.prev_cpu->0.total
                    ==> forall|k: int| 0 <= k < usage.len() ==> #[trigger] usage[k] == 0
            },
{
    let (usage, at) = lemma_shown(
        st.prev_proc,
        r.processes->Ok_0,
        ticks_between(st.prev_cpu, r.cpu),
    );
    assert(is_shown(refreshed(st, r).top_processes, r.processes->Ok_0, usage, at));
}

/// Every entry that is shown is of a process that was read.
pub proof fn lemma_shown_entry(st: StateView, r: ReadingsView, i: int)
    requires
        r.processes is Ok,
        0 <= i < refreshed(st, r).top_processes.len(),
    ensures
        exists|k: int|
            0 <= k < r.processes->Ok_0.len() && {
                let s = #[trigger] r.processes->Ok_0[k];
                let entry = refreshed(st, r).top_processes[i];
                entry.pid == s.pid && entry.rss_bytes == s.rss_bytes && entry.cmdline == s.cmdline
            },
{
    lemma_refresh_shows_what_was_read(st, r);
    let (usage, at) = choose|usage: Seq<int>, at: Seq<int>|
        {
            &&& #[trigger] is_shown(refreshed(st, r).top_processes, r.processes->Ok_0, usage, at)
            &&& r.cpu is None || st.prev_cpu is None || r.cpu->0.total <= st.prev_cpu->0.total
                ==> forall|k: int| 0 <= k < usage.len() ==> #[trigger] usage[k] == 0
        };
    assert(0 <= at[i] < r.processes->Ok_0.len());
}

/// Of ten processes or fewer, every one that was read is shown.
pub proof fn lemma_all_are_shown(st: StateView, r: ReadingsView, k: int)
    requires
        r.processes is Ok,
        r.processes->Ok_0.len() <= 10,
        0 <= k < r.processes->Ok_0.len(),
    ensures
        exists|i: int|
            0 <= i < refreshed(st, r).top_processes.len() && {
                let s = r.processes->Ok_0[k];
                let entry = #[trigger] refreshed(st, r).top_processes[i];
                entry.pid == s.pid && entry.rss_bytes == s.rss_bytes && entry.cmdline == s.cmdline
            },
{
    let list = r.processes->Ok_0;
    let ticks = ticks_between(st.prev_cpu, r.cpu);
    let items = infos(st.prev_proc, list, ticks);
    crate::ranking::lemma_ranking_exists(items);
    let order = crate::ranking::ranking(items);
    assert(order.contains(k));
    let i = choose|i: int| 0 <= i < order.len() && order[i] == k;
    let entry = refreshed(st, r).top_processes[i];
    assert(entry == items[k]);
}

/// At the second of two refreshes, the share of each process is a hundred times the part
/// that the ticks it spent since the first are of all ticks since then; one that was not
/// there, or has been started anew, has none.
pub proof fn lemma_shares_of_second_refresh(
    st: StateView,
    first: ReadingsView,
    second: ReadingsView,
)
    requires
        first.processes is Ok,
        second.processes is Ok,
        first.cpu is Some,
        second.cpu is Some,
        first.cpu->0.total < second.cpu->0.total,
        forall|i: int, j: int|
            0 <= i < j < first.processes->Ok_0.len() ==> (#[trigger] first.processes->Ok_0[i]).pid
                != (#[trigger] first.processes->Ok_0[j]).pid,
    ensures
        exists|usage: Seq<int>, at: Seq<int>|
            {
                let before = first.processes->Ok_0;
                let after = second.processes->Ok_0;
                let ticks = (second.cpu->0.total - first.cpu->0.total) as nat;
                &&& #[trigger] is_shown(
                    refreshed(refreshed(st, first), second).top_processes,
                    second.processes->Ok_0,
                    usage,
                    at,
                )
                &&& forall|j: int, k: int|
                    0 <= j < after.len() && 0 <= k < before.len() && (#[trigger] after[j]).pid
                        == (#[trigger] before[k]).pid && after[j].start_time
                        == before[k].start_time ==> {
                        let spent = if after[j].total_time < before[k].total_time {
                            0
                        } else {
                            after[j].total_time - before[k].total_time
                        };
                        usage[j] == crate::double::product(
                            crate::double::quotient(
                                crate::double::whole(spent as nat),
                                crate::double::whole(ticks),
                            ),
                            crate::double::whole(100),
                        )
                    }
                &&& forall|j: int|
                    0 <= j < after.len() && (forall|k: int|
                        0 <= k < before.len() && (#[trigger] before[k]).pid == after[j].pid
                            ==> before[k].start_time != after[j].start_time)
                        ==> #[trigger] usage[j] == 0
            },
{
    let before = first.processes->Ok_0;
    let after = second.processes->Ok_0;
    let between = refreshed(st, first);
    let delta = ticks_between(between.prev_cpu, second.cpu);
    let ticks = (second.cpu->0.total - first.cpu->0.total) as nat;
    let (usage, at) = lemma_shown(between.prev_proc, after, delta);
    assert(is_shown(refreshed(between, second).top_processes, after, usage, at));
    assert forall|j: int, k: int|
        0 <= j < after.len() && 0 <= k < before.len() && (#[trigger] after[j]).pid == (
        #[trigger] before[k]).pid && after[j].start_time == before[k].start_time implies {
        let spent = if after[j].total_time < before[k].total_time {
            0
        } else {
            after[j].total_time - before[k].total_time
        };
        usage[j] == crate::double::product(
            crate::double::quotient(
                crate::double::whole(spent as nat),
                crate::double::whole(ticks),
            ),
            crate::double::whole(100),
        )
    } by {
        assert forall|i: int| 0 <= i < before.len() && i != k implies (#[trigger] before[i]).pid
            != before[k].pid by {
            if i < k {
                assert(before[i].pid != before[k].pid);
            } else {
                assert(before[k].pid != before[i].pid);
            }
        }
        lemma_snapshots(before, k);
        assert(usage[j] == share(between.prev_proc, after[j], delta));
    }
    assert forall|j: int|
        0 <= j < after.len() && (forall|k: int|
            0 <= k < before.len() && (#[trigger] before[k]).pid == after[j].pid
                ==> before[k].start_time != after[j].start_time) implies #[trigger] usage[j]
        == 0 by {
        lemma_snapshot_times(before, after[j].pid);
        assert(usage[j] == share(between.prev_proc, after[j], delta));
    }
}

/// Between two refreshes, the load is a hundred times what the part of idle ticks leaves of
/// one; where no ticks have passed it stays.
pub proof fn lemma_load_of_second_refresh(
    st: StateView,
    first: ReadingsView,
    second: ReadingsView,
)
    requires
        first.cpu is Some,
        second.cpu is Some,
    ensures
        ({
            let a = first.cpu->0;
            let b = second.cpu->0;
            let idle = if b.idle < a.idle {
                0
            } else {
                b.idle - a.idle
            };
            let load = refreshed(refreshed(st, first), second).cpu_usage;
            &&& a.total < b.total ==> load == crate::double::product(
                crate::double::difference(
                    crate::double::whole(1),
                    crate::double::quotient(
                        crate::double::whole(idle as nat),
                        crate::double::whole((b.total - a.total) as nat),
                    ),
                ),
                crate::double::whole(100),
            )
            &&& a.total < b.total && a.idle >= b.idle ==> load == crate::double::whole(100)
            &&& a.total < b.total && b.idle - a.idle == b.total - a.total ==> load == 0
            &&& a.total >= b.total ==> load == refreshed(st, first).cpu_usage
        }),
{
    let a = first.cpu->0;
    let b = second.cpu->0;
    if a.total < b.total {
        crate::double::lemma_full_share((b.total - a.total) as nat);
        crate::double::lemma_empty_share((b.total - a.total) as nat);
    }
}

/// Between two refreshes, each rate is the bytes that have passed over the time between, and
/// none where a counter went back.
pub proof fn lemma_rates_of_second_refresh(
    st: StateView,
    first: ReadingsView,
    second: ReadingsView,
    secs: u64,
)
    requires
        first.net is Some,
        second.net is Some,
    ensures
        ({
            let a = first.net->0;
            let b = second.net->0;
            let now = refreshed(refreshed(st, first), second);
            let span = match second.elapsed {
                Some(span) => span,
                None => Span { secs: 1, nanos: 0 },
            };
            &&& a.recv <= b.recv ==> now.net_recv_rate_bps == crate::double::quotient(
                crate::double::whole((b.recv - a.recv) as nat),
                crate::span::rate_seconds(span),
            )
            &&& a.sent <= b.sent ==> now.net_sent_rate_bps == crate::double::quotient(
                crate::double::whole((b.sent - a.sent) as nat),
                crate::span::rate_seconds(span),
            )
            &&& a.recv > b.recv ==> now.net_recv_rate_bps == 0
            &&& a.sent > b.sent ==> now.net_sent_rate_bps == 0
            &&& secs > 0 && second.elapsed == Some(Span { secs, nanos: 0 }) && a.recv <= b.recv
                ==> now.net_recv_rate_bps == crate::double::quotient(
                crate::double::whole((b.recv - a.recv) as nat),
                crate::double::whole(secs as nat),
            )
        }),
{
    let a = first.net->0;
    let b = second.net->0;
    if a.recv > b.recv {
        lemma_no_traffic(a.recv, b.recv, second.elapsed);
    }
    if a.sent > b.sent {
        lemma_no_traffic(a.sent, b.sent, second.elapsed);
    }
    crate::span::lemma_whole_seconds(secs);
}

/// What was read is taken up: memory and cards as they are, a failure with its wording, and
/// the counters for the next refresh.
pub proof fn lemma_readings_are_taken_up(st: StateView, r: ReadingsView)
    ensures
        ({
            let now = refreshed(st, r);
            &&& r.memory is Some ==> now.mem_used_kb == (r.memory->0).0 && now.mem_total_kb == (
            r.memory->0).1
            &&& r.cpu is Some ==> now.prev_cpu == r.cpu
            &&& r.net is Some ==> now.prev_net == r.net
            &&& r.gpus is Ok && r.gpus->Ok_0.len() > 0 ==> now.gpus == r.gpus->Ok_0
                && now.gpu_message is None
            &&& r.gpus is Ok && r.gpus->Ok_0.len() == 0 ==> now.gpus.len() == 0
                && now.gpu_message == Some("No GPU detected"@)
            &&& r.gpus is Err ==> now.gpus.len() == 0 && now.gpu_message == Some(
                "GPU read err: "@ + r.gpus->Err_0,
            )
            &&& r.processes is Ok ==> now.process_message is None
            &&& r.processes is Err ==> now.top_processes.len() == 0 && now.process_message
                == Some("Proc read err: "@ + r.processes->Err_0)
        }),
{
}

/// After a refresh, what is kept of each process that was read is when it started and what
/// it had spent, and nothing is kept of others.
pub proof fn lemma_kept_processes(st: StateView, r: ReadingsView, k: int, pid: i32)
    requires
        r.processes is Ok,
        forall|i: int, j: int|
            0 <= i < j < r.processes->Ok_0.len() ==> (#[trigger] r.processes->Ok_0[i]).pid != (
            #[trigger] r.processes->Ok_0[j]).pid,
    ensures
        0 <= k < r.processes->Ok_0.len() ==> {
            let s = r.processes->Ok_0[k];
            let kept = refreshed(st, r).prev_proc;
            kept.contains_key(s.pid) && kept[s.pid].start_time == s.start_time
                && kept[s.pid].total_time == s.total_time
        },
        (forall|i: int| 0 <= i < r.processes->Ok_0.len() ==> (#[trigger] r.processes->Ok_0[i]).pid
            != pid) ==> !refreshed(st, r).prev_proc.contains_key(pid),
{
    let list = r.processes->Ok_0;
    if 0 <= k < list.len() {
        assert forall|i: int| 0 <= i < list.len() && i != k implies (#[trigger] list[i]).pid
            != list[k].pid by {
            if i < k {
                assert(list[i].pid != list[k].pid);
            } else {
                assert(list[k].pid != list[i].pid);
            }
        }
        lemma_snapshots(list, k);
    }
    lemma_snapshot_times(list, pid);
}

/// The processor goes by the name in `/proc/cpuinfo`, and by a stand-in where there is none.
pub proof fn lemma_shown_cpu_model(cpuinfo: Seq<char>)
    ensures
        shown_cpu_model(None) == "Unknown CPU"@,
        crate::procfs::cpu_model(crate::text::lines(cpuinfo)) is None ==> shown_cpu_model(
            Some(cpuinfo),
        ) == "Unknown CPU"@,
        crate::procfs::cpu_model(crate::text::lines(cpuinfo)) is Some ==> Some(
            shown_cpu_model(Some(cpuinfo)),
        ) == crate::procfs::cpu_model(crate::text::lines(cpuinfo)),
{
}

/// The memory goes by the summary of its modules, and by a stand-in where there is none.
pub proof fn lemma_shown_memory_model(dmidecode: Result<CommandOutput, String>)
    ensures
        crate::memory::dmidecode_summary(dmidecode) is Err ==> shown_memory_model(dmidecode)
            == "Unknown RAM (try dmidecode as root)"@,
        crate::memory::dmidecode_summary(dmidecode) is Ok ==> shown_memory_model(dmidecode)
            == crate::memory::dmidecode_summary(dmidecode)->Ok_0,
{
}

} // verus!
