//! What the kernel tells under `/proc`: processor time, memory, network traffic and the
//! processor's name.

use vstd::prelude::*;
use vstd::slice::slice_subrange;

use crate::error::ReadError;
use crate::number::parse_u64_or_zero;
use crate::text::{
    find, is_text, split_lines, split_words, strip_prefix, to_chars, to_text, trim,
};

verus! {

/// A sum that stays at the largest number of 64 bits instead of passing it.
pub open spec fn saturating_sum(a: u64, b: u64) -> u64 {
    if a + b > u64::MAX {
        u64::MAX
    } else {
        (a + b) as u64
    }
}

/// The first line with a prefix.
pub open spec fn first_line_with(ls: Seq<Seq<char>>, prefix: Seq<char>) -> Option<Seq<char>>
    decreases ls.len(),
{
    if ls.len() == 0 {
        None
    } else if crate::text::starts_with(ls[0], prefix) {
        Some(ls[0])
    } else {
        first_line_with(ls.drop_first(), prefix)
    }
}

/// The number in one of the words, and 0 where there is no such word or it is no number.
pub open spec fn word_number(ws: Seq<Seq<char>>, i: int) -> u64 {
    if 0 <= i < ws.len() {
        crate::number::unsigned_or_zero(ws[i])
    } else {
        0
    }
}

/// Reads the number in one of the words, and 0 where there is none.
fn number_at(ws: &Vec<Vec<char>>, i: usize) -> (res: u64)
    ensures
        res == word_number(crate::text::texts(ws@), i as int),
{
    if i < ws.len() {
        parse_u64_or_zero(ws[i].as_slice())
    } else {
        0
    }
}

/// Ticks that all processors together have spent, by what they were spent on.
#[derive(Clone, Copy, PartialEq, Eq, Structural, Debug)]
pub struct CpuTimes {
    pub user: u64,
    pub nice: u64,
    pub system: u64,
    pub idle: u64,
    pub iowait: u64,
    pub irq: u64,
    pub softirq: u64,
    pub steal: u64,
}

/// Ticks in all, and those among them without work.
#[derive(Clone, Copy, PartialEq, Eq, Structural, Debug)]
pub struct CpuSnapshot {
    pub total: u64,
    pub idle: u64,
}

/// The times on a line of processor time counters: the numbers behind its first word.
pub open spec fn line_times(line: Seq<char>) -> CpuTimes {
    let ws = crate::text::words(line);
    CpuTimes {
        user: word_number(ws, 1),
        nice: word_number(ws, 2),
        system: word_number(ws, 3),
        idle: word_number(ws, 4),
        iowait: word_number(ws, 5),
        irq: word_number(ws, 6),
        softirq: word_number(ws, 7),
        steal: word_number(ws, 8),
    }
}

/// The times on the line for all processors together, if there is one.
pub open spec fn cpu_times(content: Seq<char>) -> Option<CpuTimes> {
    match first_line_with(crate::text::lines(content), "cpu "@) {
        Some(line) => Some(line_times(line)),
        None => None,
    }
}

/// Reads the processor time counters from `/proc/stat`.
pub fn read_cpu_times(content: &str) -> (res: Result<CpuTimes, ReadError>)
    ensures
        res == (match cpu_times(content@) {
            Some(times) => Ok(times),
            None => Err(ReadError::CpuLineMissing),
        }),
{
    let ls = split_lines(to_chars(content).as_slice());
    let ghost all = crate::text::lines(content@);
    let mut i: usize = 0;
    assert(all.skip(0) =~= all);
    while i < ls.len()
        invariant
            i <= ls.len(),
            all == crate::text::texts(ls@),
            first_line_with(all, "cpu "@) == first_line_with(all.skip(i as int), "cpu "@),
            all == crate::text::lines(content@),
        decreases ls.len() - i,
    {
        let line = ls[i].as_slice();
        assert(all.skip(i as int)[0] == line@);
        if strip_prefix(line, "cpu ").is_some() {
            let ws = split_words(line);
            return Ok(
                CpuTimes {
                    user: number_at(&ws, 1),
                    nice: number_at(&ws, 2),
                    system: number_at(&ws, 3),
                    idle: number_at(&ws, 4),
                    iowait: number_at(&ws, 5),
                    irq: number_at(&ws, 6),
                    softirq: number_at(&ws, 7),
                    steal: number_at(&ws, 8),
                },
            );
        }
        assert(all.skip(i as int).drop_first() =~= all.skip(i + 1));
        i = i + 1;
    }
    Err(ReadError::CpuLineMissing)
}

impl CpuTimes {
    /// All ticks.
    pub open spec fn sum(self) -> int {
        self.user + self.nice + self.system + self.idle + self.iowait + self.irq + self.softirq
            + self.steal
    }

    /// Whether all ticks together fit in 64 bits.
    pub fn fits(&self) -> (res: bool)
        ensures
            res == (self.sum() <= u64::MAX),
    {
        let sum: u128 = self.user as u128 + self.nice as u128 + self.system as u128
            + self.idle as u128 + self.iowait as u128 + self.irq as u128 + self.softirq as u128
            + self.steal as u128;
        sum <= 0xffff_ffff_ffff_ffff
    }

    /// The ticks in all and those without work, which are idle or waiting for a device.
    pub fn snapshot(&self) -> (res: CpuSnapshot)
        requires
            self.sum() <= u64::MAX,
        ensures
            res.total == self.sum(),
            res.idle == self.idle + self.iowait,
    {
        CpuSnapshot {
            total: self.user + self.nice + self.system + self.idle + self.iowait + self.irq
                + self.softirq + self.steal,
            idle: self.idle + self.iowait,
        }
    }
}

/// Reads the ticks in all and those without work from `/proc/stat`.
pub fn read_cpu_snapshot(content: &str) -> (res: Result<CpuSnapshot, ReadError>)
    requires
        cpu_times(content@) matches Some(times) ==> times.sum() <= u64::MAX,
    ensures
        match cpu_times(content@) {
            Some(times) => res == Ok::<CpuSnapshot, ReadError>(
                CpuSnapshot {
                    total: times.sum() as u64,
                    idle: (times.idle + times.iowait) as u64,
                },
            ),
            None => res == Err::<CpuSnapshot, ReadError>(ReadError::CpuLineMissing),
        },
{
    match read_cpu_times(content) {
        Ok(times) => Ok(times.snapshot()),
        Err(e) => Err(e),
    }
}

/// The first number behind a prefix on the last line that has it, and 0 where there is none.
pub open spec fn last_amount(ls: Seq<Seq<char>>, prefix: Seq<char>) -> u64
    decreases ls.len(),
{
    if ls.len() == 0 {
        0
    } else if crate::text::starts_with(ls.last(), prefix) {
        word_number(crate::text::words(ls.last().skip(prefix.len() as int)), 0)
    } else {
        last_amount(ls.drop_last(), prefix)
    }
}

/// The memory in all, in KiB.
pub open spec fn memory_total(content: Seq<char>) -> u64 {
    last_amount(crate::text::lines(content), "MemTotal:"@)
}

/// The memory in use, in KiB: what is not available, and none if more is available than
/// there is.
pub open spec fn memory_used(content: Seq<char>) -> u64 {
    let total = memory_total(content);
    let available = last_amount(crate::text::lines(content), "MemAvailable:"@);
    if available > total {
        0
    } else {
        (total - available) as u64
    }
}

/// Reads the memory in use and in all from `/proc/meminfo`.
pub fn read_memory_kb(content: &str) -> (res: (u64, u64))
    ensures
        res.0 == memory_used(content@),
        res.1 == memory_total(content@),
        res.0 <= res.1,
{
    let ls = split_lines(to_chars(content).as_slice());
    let ghost all = crate::text::lines(content@);
    let mut total: u64 = 0;
    let mut available: u64 = 0;
    let mut i: usize = 0;
    while i < ls.len()
        invariant
            i <= ls.len(),
            all == crate::text::texts(ls@),
            total == last_amount(all.take(i as int), "MemTotal:"@),
            available == last_amount(all.take(i as int), "MemAvailable:"@),
        decreases ls.len() - i,
    {
        let line = ls[i].as_slice();
        proof {
            assert(all.take(i + 1).drop_last() =~= all.take(i as int));
            assert(all.take(i + 1).last() == line@);
            reveal_strlit("MemTotal:");
            reveal_strlit("MemAvailable:");
            if crate::text::starts_with(line@, "MemTotal:"@) {
                assert(line@.take(9)[3] == 'T');
                if crate::text::starts_with(line@, "MemAvailable:"@) {
                    assert(line@.take(13)[3] == 'A');
                }
            }
        }
        if let Some(rest) = strip_prefix(line, "MemTotal:") {
            total = number_at(&split_words(rest), 0);
        } else if let Some(rest) = strip_prefix(line, "MemAvailable:") {
            available = number_at(&split_words(rest), 0);
        }
        i = i + 1;
    }
    assert(all.take(i as int) =~= all);
    (total.saturating_sub(available), total)
}

/// Bytes received and sent since the machine was started.
#[derive(Clone, Copy, PartialEq, Eq, Structural, Debug)]
pub struct NetSnapshot {
    pub recv: u64,
    pub sent: u64,
}

/// Bytes received and sent according to one line of the interface table: none for the
/// loopback interface, and none for a line that is not of the table.
pub open spec fn interface_traffic(line: Seq<char>) -> NetSnapshot {
    let k = crate::text::position(line, ':') as int;
    let ws = crate::text::words(line.skip(k + 1));
    if k >= line.len() || crate::text::trimmed(line.take(k)) == "lo"@ || ws.len() < 16 {
        NetSnapshot { recv: 0, sent: 0 }
    } else {
        NetSnapshot { recv: word_number(ws, 0), sent: word_number(ws, 8) }
    }
}

/// Bytes received and sent over all interfaces, at most the largest number of 64 bits.
pub open spec fn traffic(ls: Seq<Seq<char>>) -> NetSnapshot
    decreases ls.len(),
{
    if ls.len() == 0 {
        NetSnapshot { recv: 0, sent: 0 }
    } else {
        let before = traffic(ls.drop_last());
        let here = interface_traffic(ls.last());
        NetSnapshot {
            recv: saturating_sum(before.recv, here.recv),
            sent: saturating_sum(before.sent, here.sent),
        }
    }
}

/// The interface table behind its two lines of headings.
pub open spec fn interface_lines(content: Seq<char>) -> Seq<Seq<char>> {
    let ls = crate::text::lines(content);
    if ls.len() < 2 {
        Seq::empty()
    } else {
        ls.skip(2)
    }
}

/// Reads the traffic of one line of the interface table.
fn read_interface(line: &[char]) -> (res: NetSnapshot)
    ensures
        res == interface_traffic(line@),
{
    assert(line@.skip(0) =~= line@);
    let k = find(line, ':', 0);
    if k == line.len() {
        return NetSnapshot { recv: 0, sent: 0 };
    }
    let name = slice_subrange(line, 0, k);
    let data = slice_subrange(line, k + 1, line.len());
    assert(name@ =~= line@.take(k as int));
    assert(data@ =~= line@.skip(k + 1));
    if is_text(trim(name), "lo") {
        return NetSnapshot { recv: 0, sent: 0 };
    }
    let ws = split_words(data);
    if ws.len() >= 16 {
        NetSnapshot { recv: number_at(&ws, 0), sent: number_at(&ws, 8) }
    } else {
        NetSnapshot { recv: 0, sent: 0 }
    }
}

/// Reads the traffic over all interfaces from `/proc/net/dev`.
pub fn read_network_totals(content: &str) -> (res: NetSnapshot)
    ensures
        res == traffic(interface_lines(content@)),
{
    let ls = split_lines(to_chars(content).as_slice());
    let ghost table = interface_lines(content@);
    let mut recv: u64 = 0;
    let mut sent: u64 = 0;
    if ls.len() < 2 {
        return NetSnapshot { recv, sent };
    }
    let mut i: usize = 2;
    while i < ls.len()
        invariant
            2 <= i <= ls.len(),
            table == crate::text::texts(ls@).skip(2),
            traffic(table.take(i - 2)) == (NetSnapshot { recv, sent }),
        decreases ls.len() - i,
    {
        let here = read_interface(ls[i].as_slice());
        proof {
            assert(table.take(i - 1).drop_last() =~= table.take(i - 2));
            assert(table.take(i - 1).last() == ls@[i as int]@);
        }
        recv = recv.saturating_add(here.recv);
        sent = sent.saturating_add(here.sent);
        i = i + 1;
    }
    assert(table.take(i - 2) =~= table);
    NetSnapshot { recv, sent }
}

/// The processor's name: what follows the first label that has a name behind it.
pub open spec fn cpu_model(ls: Seq<Seq<char>>) -> Option<Seq<char>>
    decreases ls.len(),
{
    if ls.len() == 0 {
        None
    } else {
        let label = "model name\t:"@;
        let name = crate::text::trimmed(ls[0].skip(label.len() as int));
        if crate::text::starts_with(ls[0], label) && name.len() > 0 {
            Some(name)
        } else {
            cpu_model(ls.drop_first())
        }
    }
}

/// Reads the processor's name from `/proc/cpuinfo`.
pub fn read_cpu_model(content: &str) -> (res: Result<String, ReadError>)
    ensures
        match res {
            Ok(name) => cpu_model(crate::text::lines(content@)) == Some(name@),
            Err(e) => cpu_model(crate::text::lines(content@)) is None && e
                == ReadError::CpuModelNotFound,
        },
{
    let ls = split_lines(to_chars(content).as_slice());
    let ghost all = crate::text::lines(content@);
    let mut i: usize = 0;
    assert(all.skip(0) =~= all);
    while i < ls.len()
        invariant
            i <= ls.len(),
            all == crate::text::texts(ls@),
            all == crate::text::lines(content@),
            cpu_model(all) == cpu_model(all.skip(i as int)),
        decreases ls.len() - i,
    {
        let line = ls[i].as_slice();
        assert(all.skip(i as int)[0] == line@);
        if let Some(rest) = strip_prefix(line, "model name\t:") {
            let name = trim(rest);
            if name.len() > 0 {
                return Ok(to_text(name));
            }
        }
        assert(all.skip(i as int).drop_first() =~= all.skip(i + 1));
        i = i + 1;
    }
    Err(ReadError::CpuModelNotFound)
}

/// The loopback interface is not counted, wherever it stands in the table and whatever
/// white space stands around its name.
pub proof fn lemma_loopback_not_counted(
    before: Seq<Seq<char>>,
    name: Seq<char>,
    data: Seq<char>,
    after: Seq<Seq<char>>,
)
    requires
        !name.contains(':'),
        crate::text::trimmed(name) == "lo"@,
    ensures
        traffic(before + seq![name + seq![':'] + data] + after) == traffic(before + after),
    decreases after.len(),
{
    let line = name + seq![':'] + data;
    let all = before + seq![line] + after;
    if after.len() == 0 {
        crate::text::lemma_position_after(name, ':', data);
        assert(line.take(name.len() as int) =~= name);
        assert(all.drop_last() =~= before);
        assert(before + after =~= before);
    } else {
        lemma_loopback_not_counted(before, name, data, after.drop_last());
        assert(all.drop_last() =~= before + seq![line] + after.drop_last());
        assert((before + after).drop_last() =~= before + after.drop_last());
    }
}

/// The number behind a label, where the label stands on a line and on none that follows.
proof fn lemma_last_amount(
    ls: Seq<Seq<char>>,
    label: Seq<char>,
    i: int,
    rest: Seq<char>,
    n: u64,
)
    requires
        0 <= i < ls.len(),
        ls[i] == label + rest,
        crate::text::words(rest).len() > 0,
        crate::text::words(rest)[0] == crate::number::decimal(n as nat),
        forall|k: int|
            i < k < ls.len() ==> !crate::text::starts_with(#[trigger] ls[k], label),
    ensures
        last_amount(ls, label) == n,
    decreases ls.len(),
{
    crate::number::lemma_unsigned_undoes_decimal(n);
    assert((label + rest).take(label.len() as int) =~= label);
    assert((label + rest).skip(label.len() as int) =~= rest);
    if i < ls.len() - 1 {
        let init = ls.drop_last();
        assert(!crate::text::starts_with(ls[ls.len() - 1], label));
        assert forall|k: int| i < k < init.len() implies !crate::text::starts_with(
            #[trigger] init[k],
            label,
        ) by {
            assert(init[k] == ls[k]);
        }
        lemma_last_amount(init, label, i, rest, n);
    }
}

/// A line without a label does not change the number behind it.
proof fn lemma_last_amount_without(
    before: Seq<Seq<char>>,
    line: Seq<char>,
    after: Seq<Seq<char>>,
    label: Seq<char>,
)
    requires
        !crate::text::starts_with(line, label),
    ensures
        last_amount(before + seq![line] + after, label) == last_amount(before + after, label),
    decreases after.len(),
{
    let all = before + seq![line] + after;
    if after.len() == 0 {
        assert(all.drop_last() =~= before);
        assert(before + after =~= before);
    } else {
        lemma_last_amount_without(before, line, after.drop_last(), label);
        assert(all.drop_last() =~= before + seq![line] + after.drop_last());
        assert((before + after).drop_last() =~= before + after.drop_last());
        assert(all.last() == after.last() && (before + after).last() == after.last());
    }
}

/// The memory in all is the number behind the last `MemTotal:`, and the memory in use what
/// is left of it without the number behind the last `MemAvailable:`, whatever the other
/// lines are.
pub proof fn lemma_memory_in_use(
    content: Seq<char>,
    i: int,
    in_all: Seq<char>,
    t: u64,
    j: int,
    available: Seq<char>,
    a: u64,
)
    requires
        ({
            let ls = crate::text::lines(content);
            &&& 0 <= i < ls.len()
            &&& ls[i] == "MemTotal:"@ + in_all
            &&& crate::text::words(in_all).len() > 0
            &&& crate::text::words(in_all)[0] == crate::number::decimal(t as nat)
            &&& forall|k: int|
                i < k < ls.len() ==> !crate::text::starts_with(#[trigger] ls[k], "MemTotal:"@)
            &&& 0 <= j < ls.len()
            &&& ls[j] == "MemAvailable:"@ + available
            &&& crate::text::words(available).len() > 0
            &&& crate::text::words(available)[0] == crate::number::decimal(a as nat)
            &&& forall|k: int|
                j < k < ls.len() ==> !crate::text::starts_with(#[trigger] ls[k], "MemAvailable:"@)
        }),
    ensures
        memory_total(content) == t,
        a <= t ==> memory_used(content) == t - a,
        a > t ==> memory_used(content) == 0,
{
    let ls = crate::text::lines(content);
    lemma_last_amount(ls, "MemTotal:"@, i, in_all, t);
    lemma_last_amount(ls, "MemAvailable:"@, j, available, a);
}

/// A line with neither label can be added or taken away without changing the memory in all
/// or in use.
pub proof fn lemma_other_memory_lines(
    content: Seq<char>,
    other: Seq<char>,
    before: Seq<Seq<char>>,
    line: Seq<char>,
    after: Seq<Seq<char>>,
)
    requires
        crate::text::lines(content) == before + after,
        crate::text::lines(other) == before + seq![line] + after,
        !crate::text::starts_with(line, "MemTotal:"@),
        !crate::text::starts_with(line, "MemAvailable:"@),
    ensures
        memory_total(other) == memory_total(content),
        memory_used(other) == memory_used(content),
{
    lemma_last_amount_without(before, line, after, "MemTotal:"@);
    lemma_last_amount_without(before, line, after, "MemAvailable:"@);
}

/// What a line of the table gives, whatever the interface is called.
proof fn lemma_interface(name: Seq<char>, data: Seq<char>, r: u64, t: u64)
    requires
        !name.contains(':'),
        crate::text::trimmed(name) != "lo"@,
        crate::text::words(data).len() >= 16,
        crate::text::words(data)[0] == crate::number::decimal(r as nat),
        crate::text::words(data)[8] == crate::number::decimal(t as nat),
    ensures
        interface_traffic(name + seq![':'] + data).recv == r,
        interface_traffic(name + seq![':'] + data).sent == t,
{
    let line = name + seq![':'] + data;
    crate::text::lemma_position_after(name, ':', data);
    assert(line.take(name.len() as int) =~= name);
    assert(line.skip(name.len() as int + 1) =~= data);
    crate::number::lemma_unsigned_undoes_decimal(r);
    crate::number::lemma_unsigned_undoes_decimal(t);
}

/// A line more in the table, wherever it stands.
proof fn lemma_traffic_with(before: Seq<Seq<char>>, line: Seq<char>, after: Seq<Seq<char>>)
    ensures
        ({
            let without = traffic(before + after);
            let with = traffic(before + seq![line] + after);
            let here = interface_traffic(line);
            &&& with.recv == (if without.recv + here.recv > u64::MAX {
                u64::MAX as int
            } else {
                without.recv + here.recv
            })
            &&& with.sent == (if without.sent + here.sent > u64::MAX {
                u64::MAX as int
            } else {
                without.sent + here.sent
            })
        }),
    decreases after.len(),
{
    let all = before + seq![line] + after;
    if after.len() == 0 {
        assert(all.drop_last() =~= before);
        assert(before + after =~= before);
    } else {
        lemma_traffic_with(before, line, after.drop_last());
        assert(all.drop_last() =~= before + seq![line] + after.drop_last());
        assert((before + after).drop_last() =~= before + after.drop_last());
        assert(all.last() == after.last() && (before + after).last() == after.last());
    }
}

/// The interface table stands behind two lines of headings.
proof fn lemma_table(content: Seq<char>, headings: Seq<Seq<char>>, table: Seq<Seq<char>>)
    requires
        crate::text::lines(content) == headings + table,
        headings.len() == 2,
    ensures
        interface_lines(content) == table,
{
    assert((headings + table).skip(2) =~= table);
}

/// Every interface but the loopback is counted, whatever it is called: a line with its name
/// adds the first of its numbers to the bytes received and the ninth to the bytes sent, up
/// to the largest number of 64 bits.
pub proof fn lemma_interface_is_counted(
    content: Seq<char>,
    other: Seq<char>,
    headings: Seq<Seq<char>>,
    before: Seq<Seq<char>>,
    name: Seq<char>,
    data: Seq<char>,
    r: u64,
    t: u64,
    after: Seq<Seq<char>>,
)
    requires
        headings.len() == 2,
        crate::text::lines(content) == headings + (before + after),
        crate::text::lines(other) == headings + (before + seq![name + seq![':'] + data] + after),
        !name.contains(':'),
        crate::text::trimmed(name) != "lo"@,
        crate::text::words(data).len() >= 16,
        crate::text::words(data)[0] == crate::number::decimal(r as nat),
        crate::text::words(data)[8] == crate::number::decimal(t as nat),
    ensures
        ({
            let without = traffic(interface_lines(content));
            let with = traffic(interface_lines(other));
            &&& with.recv == (if without.recv + r > u64::MAX {
                u64::MAX as int
            } else {
                without.recv + r
            })
            &&& with.sent == (if without.sent + t > u64::MAX {
                u64::MAX as int
            } else {
                without.sent + t
            })
        }),
{
    let line = name + seq![':'] + data;
    lemma_table(content, headings, before + after);
    lemma_table(other, headings, before + seq![line] + after);
    lemma_interface(name, data, r, t);
    lemma_traffic_with(before, line, after);
}

/// A line without a colon, and one with fewer than 16 words behind it, is not counted.
pub proof fn lemma_other_table_lines(
    before: Seq<Seq<char>>,
    line: Seq<char>,
    after: Seq<Seq<char>>,
)
    requires
        !line.contains(':') || exists|name: Seq<char>, data: Seq<char>|
            line == #[trigger] (name + seq![':'] + data) && !name.contains(':')
                && crate::text::words(data).len() < 16,
    ensures
        traffic(before + seq![line] + after) == traffic(before + after),
{
    lemma_traffic_with(before, line, after);
    crate::text::lemma_position(line, ':');
    if line.contains(':') {
        let (name, data) = choose|name: Seq<char>, data: Seq<char>|
            line == #[trigger] (name + seq![':'] + data) && !name.contains(':')
                && crate::text::words(data).len() < 16;
        crate::text::lemma_position_after(name, ':', data);
        assert(line.skip(name.len() as int + 1) =~= data);
    } else if crate::text::position(line, ':') < line.len() {
        assert(line.contains(line[crate::text::position(line, ':') as int]));
    }
}

/// Without interfaces there is no traffic.
pub proof fn lemma_empty_table(content: Seq<char>)
    requires
        crate::text::lines(content).len() <= 2,
    ensures
        traffic(interface_lines(content)).recv == 0,
        traffic(interface_lines(content)).sent == 0,
{
}

/// Where the first line with a prefix stands.
proof fn lemma_first_line(ls: Seq<Seq<char>>, prefix: Seq<char>, i: int)
    requires
        0 <= i < ls.len(),
        crate::text::starts_with(ls[i], prefix),
        forall|k: int| 0 <= k < i ==> !crate::text::starts_with(#[trigger] ls[k], prefix),
    ensures
        first_line_with(ls, prefix) == Some(ls[i]),
    decreases ls.len(),
{
    if i > 0 {
        let tail = ls.drop_first();
        assert(!crate::text::starts_with(ls[0], prefix));
        assert forall|k: int| 0 <= k < i - 1 implies !crate::text::starts_with(
            #[trigger] tail[k],
            prefix,
        ) by {
            assert(tail[k] == ls[k + 1]);
        }
        lemma_first_line(tail, prefix, i - 1);
    }
}

/// Of the first line for all processors, the eight numbers behind the label are counted
/// together, and the fourth and the fifth are without work.
pub proof fn lemma_cpu_line(content: Seq<char>, i: int, n: Seq<u64>)
    requires
        ({
            let ls = crate::text::lines(content);
            &&& 0 <= i < ls.len()
            &&& crate::text::starts_with(ls[i], "cpu "@)
            &&& forall|k: int|
                0 <= k < i ==> !crate::text::starts_with(#[trigger] ls[k], "cpu "@)
            &&& n.len() == 8
            &&& crate::text::words(ls[i]).len() > 8
            &&& forall|k: int|
                0 <= k < 8 ==> crate::text::words(ls[i])[k + 1] == crate::number::decimal(
                    #[trigger] n[k] as nat,
                )
        }),
    ensures
        cpu_times(content) is Some,
        cpu_times(content)->0.sum() == n[0] + n[1] + n[2] + n[3] + n[4] + n[5] + n[6] + n[7],
        cpu_times(content)->0.idle == n[3],
        cpu_times(content)->0.iowait == n[4],
{
    let ls = crate::text::lines(content);
    lemma_first_line(ls, "cpu "@, i);
    assert forall|k: int| 0 <= k < 8 implies word_number(crate::text::words(ls[i]), k + 1)
        == #[trigger] n[k] by {
        crate::number::lemma_unsigned_undoes_decimal(n[k]);
    }
    let ws = crate::text::words(ls[i]);
    assert(word_number(ws, 1) == n[0] && word_number(ws, 2) == n[1]);
    assert(word_number(ws, 3) == n[2] && word_number(ws, 4) == n[3]);
    assert(word_number(ws, 5) == n[4] && word_number(ws, 6) == n[5]);
    assert(word_number(ws, 7) == n[6] && word_number(ws, 8) == n[7]);
}

/// There are no processor times only where no line is for all processors.
pub proof fn lemma_no_cpu_line(content: Seq<char>)
    ensures
        cpu_times(content) is None <==> forall|k: int|
            0 <= k < crate::text::lines(content).len() ==> !crate::text::starts_with(
                #[trigger] crate::text::lines(content)[k],
                "cpu "@,
            ),
{
    lemma_no_first_line(crate::text::lines(content), "cpu "@);
}

/// There is no first line with a prefix only where no line has it.
proof fn lemma_no_first_line(ls: Seq<Seq<char>>, prefix: Seq<char>)
    ensures
        first_line_with(ls, prefix) is None <==> forall|k: int|
            0 <= k < ls.len() ==> !crate::text::starts_with(#[trigger] ls[k], prefix),
    decreases ls.len(),
{
    if ls.len() > 0 {
        let tail = ls.drop_first();
        lemma_no_first_line(tail, prefix);
        if first_line_with(ls, prefix) is None {
            assert forall|k: int| 0 <= k < ls.len() implies !crate::text::starts_with(
                #[trigger] ls[k],
                prefix,
            ) by {
                if k > 0 {
                    assert(ls[k] == tail[k - 1]);
                }
            }
        } else if forall|k: int|
            0 <= k < ls.len() ==> !crate::text::starts_with(#[trigger] ls[k], prefix) {
            assert(!crate::text::starts_with(ls[0], prefix));
            assert forall|k: int| 0 <= k < tail.len() implies !crate::text::starts_with(
                #[trigger] tail[k],
                prefix,
            ) by {
                assert(tail[k] == ls[k + 1]);
            }
        }
    }
}

/// The processor goes by what stands behind the first label with a name, without the white
/// space around it; labels with nothing behind them are passed over.
pub proof fn lemma_cpu_name(
    before: Seq<Seq<char>>,
    gap: Seq<char>,
    name: Seq<char>,
    end: Seq<char>,
    after: Seq<Seq<char>>,
)
    requires
        forall|k: int|
            0 <= k < before.len() ==> !crate::text::starts_with(
                #[trigger] before[k],
                "model name\t:"@,
            ) || crate::text::all_space(before[k].skip("model name\t:"@.len() as int)),
        crate::text::all_space(gap),
        crate::text::all_space(end),
        name.len() > 0,
        !crate::text::is_space(name[0]),
        !crate::text::is_space(name.last()),
    ensures
        cpu_model(before + seq!["model name\t:"@ + (gap + name + end)] + after) == Some(name),
    decreases before.len(),
{
    let label = "model name\t:"@;
    let line = label + (gap + name + end);
    let all = before + seq![line] + after;
    if before.len() == 0 {
        assert(all[0] == line);
        assert(line.take(label.len() as int) =~= label);
        assert(line.skip(label.len() as int) =~= gap + name + end);
        crate::text::lemma_trimmed(gap, name, end);
    } else {
        let rest = before[0].skip(label.len() as int);
        assert(!crate::text::starts_with(before[0], label) || crate::text::all_space(rest));
        if crate::text::all_space(rest) {
            let none = Seq::<char>::empty();
            crate::text::lemma_trimmed(rest, none, none);
            assert(rest + none + none =~= rest);
        }
        assert(all[0] == before[0]);
        let tail = before.drop_first();
        assert forall|k: int| 0 <= k < tail.len() implies !crate::text::starts_with(
            #[trigger] tail[k],
            label,
        ) || crate::text::all_space(tail[k].skip(label.len() as int)) by {
            assert(tail[k] == before[k + 1]);
        }
        lemma_cpu_name(tail, gap, name, end, after);
        assert(all.drop_first() =~= tail + seq![line] + after);
    }
}

/// Without a label the processor has no name.
pub proof fn lemma_no_cpu_name(ls: Seq<Seq<char>>)
    requires
        forall|k: int|
            0 <= k < ls.len() ==> !crate::text::starts_with(#[trigger] ls[k], "model name\t:"@),
    ensures
        cpu_model(ls) is None,
    decreases ls.len(),
{
    if ls.len() > 0 {
        let tail = ls.drop_first();
        assert(!crate::text::starts_with(ls[0], "model name\t:"@));
        assert forall|k: int| 0 <= k < tail.len() implies !crate::text::starts_with(
            #[trigger] tail[k],
            "model name\t:"@,
        ) by {
            assert(tail[k] == ls[k + 1]);
        }
        lemma_no_cpu_name(tail);
    }
}

} // verus!
