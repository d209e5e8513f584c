//! Running processes: what `/proc/[pid]/stat` and `/proc/[pid]/cmdline` tell of them.

use vstd::prelude::*;
use vstd::slice::slice_subrange;

use crate::number::{parse_digits, parse_u64};
use crate::text::{find, find_last, join, split_words, to_chars, to_text};

verus! {

/// The numbers among the words behind a process's name: when it started, the ticks it spent
/// in and for itself together, and its resident pages.
pub open spec fn stat_numbers(ws: Seq<Seq<char>>) -> Option<(u64, u64, u64)> {
    if ws.len() <= 21 {
        None
    } else {
        match (
            crate::number::unsigned(ws[11]),
            crate::number::unsigned(ws[12]),
            crate::number::unsigned(ws[19]),
            crate::number::unsigned(ws[21]),
        ) {
            (Some(utime), Some(stime), Some(start), Some(pages)) => Some(
                (start, crate::procfs::saturating_sum(utime, stime), pages),
            ),
            _ => None,
        }
    }
}

/// What a line of `/proc/[pid]/stat` tells: the process's name, which stands between the
/// first opening and the last closing parenthesis, and the numbers behind the one ASCII
/// character that follows.
pub open spec fn stat_line(s: Seq<char>) -> Option<(Seq<char>, u64, u64, u64)> {
    let open = crate::text::position(s, '(') as int;
    let close = crate::text::last_position(s, ')');
    if open >= s.len() || close <= open || close + 1 >= s.len() || s[close + 1] > '\u{7f}' {
        None
    } else {
        match stat_numbers(crate::text::words(s.skip(close + 2))) {
            Some((start, ticks, pages)) => Some(
                (s.subrange(open + 1, close), start, ticks, pages),
            ),
            None => None,
        }
    }
}

/// Reads a process's name, start time, spent ticks and resident pages.
pub fn parse_proc_stat(stat_text: &str) -> (res: Option<(String, u64, u64, u64)>)
    ensures
        match res {
            Some((comm, start, ticks, pages)) => stat_line(stat_text@) == Some(
                (comm@, start, ticks, pages),
            ),
            None => stat_line(stat_text@) is None,
        },
{
    let s = to_chars(stat_text);
    assert(s@.skip(0) =~= s@);
    let open = find(s.as_slice(), '(', 0);
    if open == s.len() {
        return None;
    }
    let close = match find_last(s.as_slice(), ')') {
        Some(i) => i,
        None => {
            return None;
        },
    };
    if close <= open || close + 1 >= s.len() || s[close + 1] > '\u{7f}' {
        return None;
    }
    let comm = to_text(slice_subrange(s.as_slice(), open + 1, close));
    let tail = slice_subrange(s.as_slice(), close + 2, s.len());
    assert(tail@ =~= s@.skip(close + 2));
    let ws = split_words(tail);
    if ws.len() <= 21 {
        return None;
    }
    let utime = parse_u64(ws[11].as_slice())?;
    let stime = parse_u64(ws[12].as_slice())?;
    let start = parse_u64(ws[19].as_slice())?;
    let pages = parse_u64(ws[21].as_slice())?;
    Some((comm, start, utime.saturating_add(stime), pages))
}

/// The place of the first zero byte, or the length if there is none.
pub open spec fn zero_position(s: Seq<u8>) -> nat
    decreases s.len(),
{
    if s.len() == 0 || s[0] == 0 {
        0
    } else {
        1 + zero_position(s.drop_first())
    }
}

/// The arguments of a command line: the stretches between zero bytes that are not empty.
pub open spec fn arguments(s: Seq<u8>) -> Seq<Seq<u8>>
    decreases s.len(),
{
    let k = zero_position(s) as int;
    let first = if k == 0 {
        Seq::empty()
    } else {
        seq![s.take(k)]
    };
    if k >= s.len() {
        first
    } else {
        first + arguments(s.skip(k + 1))
    }
}

/// What `String::from_utf8_lossy` makes of some bytes.
pub uninterp spec fn lossy_utf8(bytes: Seq<u8>) -> Seq<char>;

/// `String::from_utf8_lossy`: the text depends on the bytes alone, and is what they encode
/// where they are valid UTF-8. What stands in place of bytes that are not is left unsaid.
#[verifier::external_body]
pub(crate) fn decode_lossy(bytes: &[u8]) -> (res: String)
    ensures
        res@ == lossy_utf8(bytes@),
        vstd::utf8::valid_utf8(bytes@) ==> res@ == vstd::utf8::decode_utf8(bytes@),
{
    String::from_utf8_lossy(bytes).into_owned()
}

/// The text of some bytes: what they encode where they are valid UTF-8.
pub open spec fn lossy_text(bytes: Seq<u8>) -> Seq<char> {
    if vstd::utf8::valid_utf8(bytes) {
        vstd::utf8::decode_utf8(bytes)
    } else {
        lossy_utf8(bytes)
    }
}

/// The texts of some arguments.
pub open spec fn argument_texts(args: Seq<Seq<u8>>) -> Seq<Seq<char>> {
    Seq::new(args.len(), |i: int| lossy_text(args[i]))
}

/// Splits a command line into its arguments.
pub fn split_arguments(bytes: &Vec<u8>) -> (res: Vec<String>)
    ensures
        crate::text::strings(res@) == argument_texts(arguments(bytes@)),
{
    let mut res: Vec<String> = Vec::new();
    let mut i: usize = 0;
    let ghost all = argument_texts(arguments(bytes@));
    assert(bytes@.skip(0) =~= bytes@);
    assert(crate::text::strings(res@) + all =~= all);
    loop
        invariant
            i <= bytes.len(),
            crate::text::strings(res@) + argument_texts(arguments(bytes@.skip(i as int))) == all,
            all == argument_texts(arguments(bytes@)),
        decreases bytes.len() - i,
    {
        let ghost rest = bytes@.skip(i as int);
        let mut k: usize = i;
        while k < bytes.len() && bytes[k] != 0
            invariant
                i <= k <= bytes.len(),
                rest == bytes@.skip(i as int),
                zero_position(rest) == k - i + zero_position(bytes@.skip(k as int)),
            decreases bytes.len() - k,
        {
            assert(bytes@.skip(k as int).drop_first() =~= bytes@.skip(k + 1));
            k = k + 1;
        }
        let ghost old_res = res@;
        let ghost first = if k == i {
            Seq::<Seq<u8>>::empty()
        } else {
            seq![rest.take(k - i)]
        };
        if k > i {
            res.push(decode_lossy(slice_subrange(bytes.as_slice(), i, k)));
            assert(bytes@.subrange(i as int, k as int) =~= rest.take(k - i));
        }
        assert(crate::text::strings(res@) =~= crate::text::strings(old_res) + argument_texts(
            first,
        ));
        if k == bytes.len() {
            assert(crate::text::strings(res@) =~= all);
            return res;
        }
        proof {
            assert(rest.skip(k - i + 1) =~= bytes@.skip(k + 1));
            let later = arguments(bytes@.skip(k + 1));
            assert(argument_texts(first + later) =~= argument_texts(first) + argument_texts(later));
            assert(crate::text::strings(old_res) + (argument_texts(first) + argument_texts(later))
                =~= crate::text::strings(res@) + argument_texts(later));
        }
        i = k + 1;
    }
}

/// A command line as text: the arguments with a space between each two, if that is not empty.
pub open spec fn command_line(args: Seq<Seq<char>>) -> Option<Seq<char>> {
    let line = crate::text::joined(args, " "@);
    if line.len() == 0 {
        None
    } else {
        Some(line)
    }
}

/// Joins arguments into one line.
pub fn join_arguments(args: &Vec<String>) -> (res: Option<String>)
    ensures
        match res {
            Some(line) => command_line(crate::text::strings(args@)) == Some(line@),
            None => command_line(crate::text::strings(args@)) is None,
        },
{
    let line = join(args, " ");
    if line.as_str().is_empty() {
        None
    } else {
        Some(line)
    }
}

/// Whether there are zero bytes only, or none at all.
pub open spec fn all_zero(bytes: Seq<u8>) -> bool {
    forall|i: int| 0 <= i < bytes.len() ==> #[trigger] bytes[i] == 0
}

/// Reads a command line from `/proc/[pid]/cmdline`. Of valid UTF-8 there is one unless the
/// bytes are all zero, and it holds no zero character.
pub fn read_process_cmdline(bytes: &Vec<u8>) -> (res: Option<String>)
    ensures
        match res {
            Some(line) => command_line(argument_texts(arguments(bytes@))) == Some(line@),
            None => command_line(argument_texts(arguments(bytes@))) is None,
        },
        vstd::utf8::valid_utf8(bytes@) ==> {
            &&& res is None <==> all_zero(bytes@)
            &&& res matches Some(line) ==> !line@.contains('\0')
        },
{
    proof {
        if vstd::utf8::valid_utf8(bytes@) {
            lemma_text_command_line(bytes@);
        }
    }
    join_arguments(&split_arguments(bytes))
}

/// The process id that a directory's name gives, if it is one.
pub open spec fn process_id(name: Seq<char>) -> Option<i32> {
    if name.len() > 0 && crate::number::all_digits(name) && crate::number::value(name)
        <= i32::MAX {
        Some(crate::number::value(name) as i32)
    } else {
        None
    }
}

/// Reads a process id from the name of a directory under `/proc`.
pub fn parse_pid(name: &str) -> (res: Option<i32>)
    ensures
        res == process_id(name@),
{
    match parse_digits(to_chars(name).as_slice()) {
        Some(n) => if n <= 0x7fff_ffff {
            Some(n as i32)
        } else {
            None
        },
        None => None,
    }
}

/// What was read of one process: its `stat` line, and its command line if there was one.
#[derive(Debug)]
pub struct ProcessFiles {
    pub pid: i32,
    pub stat: String,
    pub cmdline: Option<Vec<u8>>,
}

/// [`ProcessFiles`] with its texts and bytes as sequences.
pub struct ProcessFilesView {
    pub pid: i32,
    pub stat: Seq<char>,
    pub cmdline: Option<Seq<u8>>,
}

impl View for ProcessFiles {
    type V = ProcessFilesView;

    open spec fn view(&self) -> ProcessFilesView {
        ProcessFilesView {
            pid: self.pid,
            stat: self.stat@,
            cmdline: match self.cmdline {
                Some(bytes) => Some(bytes@),
                None => None,
            },
        }
    }
}

/// One process at one moment: when it started, the ticks it has spent, its resident memory
/// and its command line.
#[derive(Debug)]
pub struct ProcessSample {
    pub pid: i32,
    pub start_time: u64,
    pub total_time: u64,
    pub rss_bytes: u64,
    pub cmdline: String,
}

/// [`ProcessSample`] with its text as a sequence.
pub struct ProcessSampleView {
    pub pid: i32,
    pub start_time: u64,
    pub total_time: u64,
    pub rss_bytes: u64,
    pub cmdline: Seq<char>,
}

impl View for ProcessSample {
    type V = ProcessSampleView;

    open spec fn view(&self) -> ProcessSampleView {
        ProcessSampleView {
            pid: self.pid,
            start_time: self.start_time,
            total_time: self.total_time,
            rss_bytes: self.rss_bytes,
            cmdline: self.cmdline@,
        }
    }
}

/// The size of some pages of 4096 bytes, at most the largest number of 64 bits.
pub open spec fn pages_size(pages: u64) -> u64 {
    if pages * 4096 > u64::MAX {
        u64::MAX
    } else {
        (pages * 4096) as u64
    }
}

/// The sample of a process, if its `stat` line can be read. It goes by its command line, or
/// by its name where it has none.
pub open spec fn sample(files: ProcessFilesView) -> Option<ProcessSampleView> {
    match stat_line(files.stat) {
        Some((comm, start, ticks, pages)) => {
            let line = match files.cmdline {
                Some(bytes) => command_line(argument_texts(arguments(bytes))),
                None => None,
            };
            Some(
                ProcessSampleView {
                    pid: files.pid,
                    start_time: start,
                    total_time: ticks,
                    rss_bytes: pages_size(pages),
                    cmdline: match line {
                        Some(text) => text,
                        None => comm,
                    },
                },
            )
        },
        None => None,
    }
}

/// Reads the sample of one process.
pub fn read_process_sample(files: &ProcessFiles) -> (res: Option<ProcessSample>)
    ensures
        match res {
            Some(s) => sample(files@) == Some(s@),
            None => sample(files@) is None,
        },
{
    let (comm, start_time, total_time, pages) = parse_proc_stat(files.stat.as_str())?;
    let line = match &files.cmdline {
        Some(bytes) => read_process_cmdline(bytes),
        None => None,
    };
    let cmdline = match line {
        Some(text) => text,
        None => comm,
    };
    let rss_bytes: u64 = match pages.checked_mul(4096) {
        Some(n) => n,
        None => u64::MAX,
    };
    Some(ProcessSample { pid: files.pid, start_time, total_time, rss_bytes, cmdline })
}

/// The views of a list of process files.
pub open spec fn files_views(list: Seq<ProcessFiles>) -> Seq<ProcessFilesView> {
    Seq::new(list.len(), |i: int| list[i]@)
}

/// The views of a list of samples.
pub open spec fn sample_views(list: Seq<ProcessSample>) -> Seq<ProcessSampleView> {
    Seq::new(list.len(), |i: int| list[i]@)
}

/// The samples of those processes that can be read, in the same order.
pub open spec fn samples(list: Seq<ProcessFilesView>) -> Seq<ProcessSampleView>
    decreases list.len(),
{
    if list.len() == 0 {
        Seq::empty()
    } else {
        let before = samples(list.drop_last());
        match sample(list.last()) {
            Some(s) => before.push(s),
            None => before,
        }
    }
}

/// Reads the samples of all processes that can be read.
pub fn read_process_samples(list: &Vec<ProcessFiles>) -> (res: Vec<ProcessSample>)
    ensures
        sample_views(res@) == samples(files_views(list@)),
{
    let mut res: Vec<ProcessSample> = Vec::new();
    let ghost all = files_views(list@);
    let mut i: usize = 0;
    assert(sample_views(res@) =~= samples(all.take(0)));
    while i < list.len()
        invariant
            i <= list.len(),
            all == files_views(list@),
            sample_views(res@) == samples(all.take(i as int)),
        decreases list.len() - i,
    {
        let ghost old_res = res@;
        assert(all.take(i + 1).drop_last() =~= all.take(i as int));
        assert(all.take(i + 1).last() == list@[i as int]@);
        if let Some(s) = read_process_sample(&list[i]) {
            res.push(s);
            assert(sample_views(res@) =~= sample_views(old_res).push(s@));
        }
        i = i + 1;
    }
    assert(all.take(i as int) =~= all);
    res
}

/// The place of the last of a character that the text behind it lacks.
proof fn lemma_last_position_before(head: Seq<char>, c: char, rest: Seq<char>)
    requires
        !rest.contains(c),
    ensures
        crate::text::last_position(head + seq![c] + rest, c) == head.len(),
    decreases rest.len(),
{
    let s = head + seq![c] + rest;
    if rest.len() > 0 {
        assert(rest.last() != c) by {
            assert(rest.contains(rest[rest.len() - 1]));
        }
        let init = rest.drop_last();
        assert forall|i: int| 0 <= i < init.len() implies init[i] != c by {
            assert(rest.contains(rest[i]));
        }
        lemma_last_position_before(head, c, init);
        assert(s.drop_last() =~= head + seq![c] + init);
    }
}

/// A process's name is read back whole, whatever it holds: parentheses and white space too.
pub proof fn lemma_name_reads_back(pid: Seq<char>, comm: Seq<char>, fields: Seq<char>)
    requires
        !pid.contains('('),
        !fields.contains(')'),
        stat_numbers(crate::text::words(fields)) is Some,
    ensures
        ({
            let line = pid + seq!['('] + comm + seq![')', ' '] + fields;
            let (start, ticks, pages) = stat_numbers(crate::text::words(fields))->0;
            stat_line(line) == Some((comm, start, ticks, pages))
        }),
{
    let line = pid + seq!['('] + comm + seq![')', ' '] + fields;
    let open = pid.len() as int;
    let close = open + 1 + comm.len();
    let behind = comm + seq![')', ' '] + fields;
    crate::text::lemma_position_after(pid, '(', behind);
    assert(line =~= pid + seq!['('] + behind);
    let head = pid + seq!['('] + comm;
    let tail = seq![' '] + fields;
    assert forall|i: int| 0 <= i < tail.len() implies tail[i] != ')' by {
        if i > 0 {
            assert(fields.contains(fields[i - 1]));
        }
    }
    lemma_last_position_before(head, ')', tail);
    assert(line =~= head + seq![')'] + tail);
    assert(line[close + 1] == ' ');
    assert(line.skip(close + 2) =~= fields);
    assert(line.subrange(open + 1, close) =~= comm);
}

/// Arguments as they stand in `/proc/[pid]/cmdline`: a zero byte behind each.
pub open spec fn packed(args: Seq<Seq<u8>>) -> Seq<u8>
    decreases args.len(),
{
    if args.len() == 0 {
        Seq::empty()
    } else {
        args[0] + seq![0u8] + packed(args.drop_first())
    }
}

/// The place of the zero byte behind bytes that are not zero.
proof fn lemma_zero_position_after(head: Seq<u8>, rest: Seq<u8>)
    requires
        !head.contains(0),
    ensures
        zero_position(head + seq![0u8] + rest) == head.len(),
    decreases head.len(),
{
    let s = head + seq![0u8] + rest;
    if head.len() > 0 {
        assert(head[0] != 0) by {
            assert(head.contains(head[0]));
        }
        let tail = head.drop_first();
        assert forall|i: int| 0 <= i < tail.len() implies tail[i] != 0 by {
            assert(head.contains(head[i + 1]));
        }
        lemma_zero_position_after(tail, rest);
        assert(s.drop_first() =~= tail + seq![0u8] + rest);
    }
}

/// Arguments are read back as they were packed, except for empty ones, which are left out.
pub proof fn lemma_arguments_read_back(args: Seq<Seq<u8>>)
    requires
        forall|i: int| 0 <= i < args.len() ==> !(#[trigger] args[i]).contains(0),
    ensures
        arguments(packed(args)) == args.filter(|a: Seq<u8>| a.len() > 0),
    decreases args.len(),
{
    let keep = |a: Seq<u8>| a.len() > 0;
    reveal(Seq::filter);
    if args.len() > 0 {
        let rest = args.drop_first();
        assert forall|i: int| 0 <= i < rest.len() implies !(#[trigger] rest[i]).contains(0) by {
            assert(rest[i] == args[i + 1]);
        }
        lemma_arguments_read_back(rest);
        let s = packed(args);
        let k = args[0].len() as int;
        lemma_zero_position_after(args[0], packed(rest));
        assert(s.take(k) =~= args[0]);
        assert(s.skip(k + 1) =~= packed(rest));
        assert(args =~= seq![args[0]] + rest);
        Seq::filter_distributes_over_add(seq![args[0]], rest, keep);
        assert(seq![args[0]].drop_last() =~= Seq::<Seq<u8>>::empty());
        assert(seq![args[0]].filter(keep) =~= (if k == 0 {
            Seq::empty()
        } else {
            seq![args[0]]
        })) by {
            reveal_with_fuel(Seq::filter, 2);
        }
    } else {
        assert(args.filter(keep) =~= Seq::empty());
        assert(arguments(packed(args)) =~= Seq::empty());
    }
}

/// The place of the first zero byte.
proof fn lemma_zero_position(s: Seq<u8>)
    ensures
        zero_position(s) <= s.len(),
        zero_position(s) < s.len() ==> s[zero_position(s) as int] == 0,
        forall|i: int| 0 <= i < zero_position(s) ==> s[i] != 0,
    decreases s.len(),
{
    if s.len() > 0 && s[0] != 0 {
        lemma_zero_position(s.drop_first());
        assert forall|i: int| 0 <= i < zero_position(s) implies s[i] != 0 by {
            if i > 0 {
                assert(s[i] == s.drop_first()[i - 1]);
            }
        }
    }
}

/// Behind bytes that are not zero, the first zero byte is found as far along.
proof fn lemma_zero_position_skips(s: Seq<u8>, n: int)
    requires
        0 <= n <= s.len(),
        forall|i: int| 0 <= i < n ==> s[i] != 0,
    ensures
        zero_position(s) == n + zero_position(s.skip(n)),
    decreases n,
{
    if n == 0 {
        assert(s.skip(0) =~= s);
    } else {
        let tail = s.drop_first();
        assert forall|i: int| 0 <= i < n - 1 implies tail[i] != 0 by {
            assert(tail[i] == s[i + 1]);
        }
        lemma_zero_position_skips(tail, n - 1);
        assert(tail.skip(n - 1) =~= s.skip(n));
    }
}

/// A zero byte divides valid UTF-8 into valid UTF-8 on either side.
proof fn lemma_zero_divides_text(s: Seq<u8>)
    requires
        vstd::utf8::valid_utf8(s),
    ensures
        vstd::utf8::valid_utf8(s.take(zero_position(s) as int)),
        zero_position(s) < s.len() ==> vstd::utf8::valid_utf8(
            s.skip(zero_position(s) as int + 1),
        ),
    decreases s.len(),
{
    let k = zero_position(s) as int;
    lemma_zero_position(s);
    if s.len() == 0 {
        assert(s.take(k) =~= s);
    } else if s[0] == 0 {
        assert(s.take(0) =~= Seq::empty());
        assert(s.skip(1) =~= vstd::utf8::pop_first_scalar(s));
    } else {
        let n = vstd::utf8::length_of_first_scalar(s);
        let rest = vstd::utf8::pop_first_scalar(s);
        assert(rest =~= s.skip(n));
        lemma_zero_position_skips(s, n);
        lemma_zero_divides_text(rest);
        lemma_zero_position(rest);
        let head = s.take(k);
        assert forall|i: int| 0 <= i < n implies head[i] == s[i] by {}
        assert(vstd::utf8::pop_first_scalar(head) =~= rest.take(k - n));
        if k < s.len() {
            assert(rest.skip(k - n + 1) =~= s.skip(k + 1));
        }
    }
}

/// Valid UTF-8 without zero bytes has no zero character, and is empty only if there are no
/// bytes.
proof fn lemma_text_without_zero(s: Seq<u8>)
    requires
        vstd::utf8::valid_utf8(s),
        !s.contains(0),
    ensures
        !vstd::utf8::decode_utf8(s).contains('\0'),
        s.len() > 0 ==> vstd::utf8::decode_utf8(s).len() > 0,
    decreases s.len(),
{
    if s.len() > 0 {
        let rest = vstd::utf8::pop_first_scalar(s);
        let n = vstd::utf8::length_of_first_scalar(s);
        assert forall|i: int| 0 <= i < rest.len() implies rest[i] != 0 by {
            assert(rest[i] == s[i + n]);
            assert(s.contains(s[i + n]));
        }
        lemma_text_without_zero(rest);
        vstd::utf8::decode_utf8_first_scalar(s);
        let c = vstd::utf8::decode_first_scalar(s) as char;
        if c == '\0' {
            assert(0u32 & 0x7f == 0) by (bit_vector);
            assert(vstd::utf8::take_first_scalar(s)[0] == s[0]);
            assert(s.contains(s[0]));
        }
        let text = vstd::utf8::decode_utf8(s);
        let later = vstd::utf8::decode_utf8(rest);
        assert(text == seq![c] + later);
        assert forall|i: int| 0 <= i < text.len() implies text[i] != '\0' by {
            if i > 0 {
                assert(later.contains(later[i - 1]));
            }
        }
    }
}

/// The arguments of a command line are not empty, hold no zero byte, and are valid UTF-8 if
/// the command line is; and there are none only if all bytes are zero.
pub proof fn lemma_arguments(s: Seq<u8>)
    ensures
        forall|i: int|
            0 <= i < arguments(s).len() ==> {
                &&& (#[trigger] arguments(s)[i]).len() > 0
                &&& !arguments(s)[i].contains(0)
                &&& vstd::utf8::valid_utf8(s) ==> vstd::utf8::valid_utf8(arguments(s)[i])
            },
        arguments(s).len() == 0 <==> all_zero(s),
    decreases s.len(),
{
    let k = zero_position(s) as int;
    lemma_zero_position(s);
    if vstd::utf8::valid_utf8(s) {
        lemma_zero_divides_text(s);
    }
    if k < s.len() {
        let rest = s.skip(k + 1);
        lemma_arguments(rest);
        if k == 0 {
            assert(arguments(s) =~= arguments(rest));
            if all_zero(rest) {
                assert forall|i: int| 0 <= i < s.len() implies #[trigger] s[i] == 0 by {
                    if i > 0 {
                        assert(rest[i - 1] == 0);
                    }
                }
            }
            if all_zero(s) {
                assert forall|i: int| 0 <= i < rest.len() implies #[trigger] rest[i] == 0 by {
                    assert(s[i + 1] == 0);
                }
            }
        }
    }
    if k > 0 {
        assert(s[0] != 0);
    }
    assert forall|i: int| 0 <= i < arguments(s).len() implies {
        &&& (#[trigger] arguments(s)[i]).len() > 0
        &&& !arguments(s)[i].contains(0)
        &&& vstd::utf8::valid_utf8(s) ==> vstd::utf8::valid_utf8(arguments(s)[i])
    } by {
        if k > 0 && i > 0 {
            assert(arguments(s)[i] == arguments(s.skip(k + 1))[i - 1]);
        }
    }
}

/// Texts that are not empty and lack a character are joined into one that is not empty and
/// lacks it, if the separator lacks it too.
proof fn lemma_joined(parts: Seq<Seq<char>>, sep: Seq<char>, c: char)
    requires
        !sep.contains(c),
        forall|i: int|
            0 <= i < parts.len() ==> (#[trigger] parts[i]).len() > 0 && !parts[i].contains(c),
    ensures
        crate::text::joined(parts, sep).len() == 0 <==> parts.len() == 0,
        !crate::text::joined(parts, sep).contains(c),
    decreases parts.len(),
{
    if parts.len() > 1 {
        let init = parts.drop_last();
        assert forall|i: int| 0 <= i < init.len() implies (#[trigger] init[i]).len() > 0
            && !init[i].contains(c) by {
            assert(init[i] == parts[i]);
        }
        lemma_joined(init, sep, c);
        let head = crate::text::joined(init, sep);
        let line = crate::text::joined(parts, sep);
        assert(parts.last() == parts[parts.len() - 1]);
        assert forall|i: int| 0 <= i < line.len() implies line[i] != c by {
            if i < head.len() {
                assert(head.contains(head[i]));
            } else if i < head.len() + sep.len() {
                assert(sep.contains(sep[i - head.len()]));
            } else {
                let j = i - head.len() - sep.len();
                assert(parts.last().contains(parts.last()[j]));
            }
        }
    }
}

/// Of valid UTF-8, the arguments are what their bytes encode; the command line holds no zero
/// character, and there is none only if all bytes are zero.
pub proof fn lemma_text_command_line(s: Seq<u8>)
    requires
        vstd::utf8::valid_utf8(s),
    ensures
        forall|i: int|
            0 <= i < arguments(s).len() ==> #[trigger] argument_texts(arguments(s))[i]
                == vstd::utf8::decode_utf8(arguments(s)[i]),
        command_line(argument_texts(arguments(s))) is None <==> all_zero(s),
        command_line(argument_texts(arguments(s))) matches Some(line) ==> !line.contains('\0'),
{
    lemma_arguments(s);
    let texts = argument_texts(arguments(s));
    assert forall|i: int| 0 <= i < texts.len() implies (#[trigger] texts[i]).len() > 0
        && !texts[i].contains('\0') by {
        lemma_text_without_zero(arguments(s)[i]);
    }
    reveal_strlit(" ");
    lemma_joined(texts, " "@, '\0');
}

/// The numbers of a process are read back: its start, the ticks in and for it together, and
/// its pages.
pub proof fn lemma_numbers_read_back(
    pid: Seq<char>,
    comm: Seq<char>,
    fields: Seq<char>,
    utime: u64,
    stime: u64,
    started: u64,
    pages: u64,
)
    requires
        !pid.contains('('),
        !fields.contains(')'),
        crate::text::words(fields).len() > 21,
        crate::text::words(fields)[11] == crate::number::decimal(utime as nat),
        crate::text::words(fields)[12] == crate::number::decimal(stime as nat),
        crate::text::words(fields)[19] == crate::number::decimal(started as nat),
        crate::text::words(fields)[21] == crate::number::decimal(pages as nat),
    ensures
        ({
            let found = stat_line(pid + seq!['('] + comm + seq![')', ' '] + fields);
            let (name, start, ticks, size) = found->0;
            &&& found is Some
            &&& name == comm
            &&& start == started
            &&& ticks == (if utime + stime > u64::MAX {
                u64::MAX as int
            } else {
                utime + stime
            })
            &&& size == pages
        }),
{
    crate::number::lemma_unsigned_undoes_decimal(utime);
    crate::number::lemma_unsigned_undoes_decimal(stime);
    crate::number::lemma_unsigned_undoes_decimal(started);
    crate::number::lemma_unsigned_undoes_decimal(pages);
    lemma_name_reads_back(pid, comm, fields);
}

/// The sample of a process carries its id, its numbers and the bytes of its pages, and goes
/// by its command line if that is not empty and by its name else.
pub proof fn lemma_sample_reads_back(
    files: ProcessFilesView,
    pid: Seq<char>,
    comm: Seq<char>,
    fields: Seq<char>,
    utime: u64,
    stime: u64,
    started: u64,
    pages: u64,
)
    requires
        files.stat == pid + seq!['('] + comm + seq![')', ' '] + fields,
        !pid.contains('('),
        !fields.contains(')'),
        crate::text::words(fields).len() > 21,
        crate::text::words(fields)[11] == crate::number::decimal(utime as nat),
        crate::text::words(fields)[12] == crate::number::decimal(stime as nat),
        crate::text::words(fields)[19] == crate::number::decimal(started as nat),
        crate::text::words(fields)[21] == crate::number::decimal(pages as nat),
    ensures
        ({
            let found = sample(files);
            &&& found is Some
            &&& found->0.pid == files.pid
            &&& found->0.start_time == started
            &&& found->0.total_time == (if utime + stime > u64::MAX {
                u64::MAX as int
            } else {
                utime + stime
            })
            &&& found->0.rss_bytes == (if pages * 4096 > u64::MAX {
                u64::MAX as int
            } else {
                pages * 4096
            })
            &&& files.cmdline is None ==> found->0.cmdline == comm
            &&& files.cmdline is Some && all_zero(files.cmdline->0) ==> found->0.cmdline == comm
            &&& files.cmdline is Some && command_line(
                argument_texts(arguments(files.cmdline->0)),
            ) is Some ==> Some(found->0.cmdline) == command_line(
                argument_texts(arguments(files.cmdline->0)),
            )
        }),
{
    lemma_numbers_read_back(pid, comm, fields, utime, stime, started, pages);
    if let Some(bytes) = files.cmdline {
        lemma_arguments(bytes);
        if all_zero(bytes) {
            assert(argument_texts(arguments(bytes)) =~= Seq::empty());
        }
    }
}

/// A process whose line lacks a parenthesis on either side gives no sample.
pub proof fn lemma_no_sample(files: ProcessFilesView)
    requires
        !files.stat.contains('(') || !files.stat.contains(')'),
    ensures
        sample(files) is None,
{
    let s = files.stat;
    crate::text::lemma_position(s, '(');
    if crate::text::position(s, '(') < s.len() {
        assert(s.contains(s[crate::text::position(s, '(') as int]));
        lemma_last_position_none(s, ')');
    }
}

/// A character that a text lacks has no last place in it.
proof fn lemma_last_position_none(s: Seq<char>, c: char)
    requires
        !s.contains(c),
    ensures
        crate::text::last_position(s, c) == -1,
    decreases s.len(),
{
    if s.len() > 0 {
        assert(s.contains(s[s.len() - 1]));
        let init = s.drop_last();
        assert forall|i: int| 0 <= i < init.len() implies init[i] != c by {
            assert(s.contains(s[i]));
        }
        lemma_last_position_none(init, c);
    }
}

/// Each process gives its own sample or none, and the samples stand in the order of the
/// processes.
pub proof fn lemma_samples_in_order(a: Seq<ProcessFilesView>, b: Seq<ProcessFilesView>)
    ensures
        samples(a + b) == samples(a) + samples(b),
    decreases b.len(),
{
    if b.len() == 0 {
        assert(a + b =~= a);
        assert(samples(a) + samples(b) =~= samples(a));
    } else {
        lemma_samples_in_order(a, b.drop_last());
        assert((a + b).drop_last() =~= a + b.drop_last());
        assert((a + b).last() == b.last());
        assert(samples(a + b) =~= samples(a) + samples(b));
    }
}

/// One process gives its own sample and no other.
pub proof fn lemma_sample_of_a_process(files: ProcessFilesView)
    ensures
        sample(files) is Some ==> samples(seq![files]) == seq![sample(files)->0],
        sample(files) is None ==> samples(seq![files]).len() == 0,
{
    let list = seq![files];
    assert(list.drop_last() =~= Seq::empty());
    assert(samples(list.drop_last()) =~= Seq::empty());
    assert(sample(files) is Some ==> samples(list) =~= seq![sample(files)->0]);
}

/// Every id of 31 bits is read back from its numeral, and no other number is an id.
pub proof fn lemma_pid_reads_back(n: nat)
    ensures
        n <= 0x7fff_ffff ==> process_id(crate::number::decimal(n)) is Some && process_id(
            crate::number::decimal(n),
        )->0 == n,
        n > 0x7fff_ffff ==> process_id(crate::number::decimal(n)) is None,
{
    crate::number::lemma_decimal_reads_back(n);
}

/// A name that holds anything but digits, or nothing, is no id.
pub proof fn lemma_pid_is_digits(name: Seq<char>, i: int)
    ensures
        name.len() == 0 ==> process_id(name) is None,
        0 <= i < name.len() && !('0' <= name[i] && name[i] <= '9') ==> process_id(name) is None,
{
    if 0 <= i < name.len() {
        assert(crate::number::all_digits(name) ==> crate::number::is_digit(name[i]));
    }
}

/// A command line of one argument is that argument, and one argument more stands behind a
/// space.
pub proof fn lemma_command_line_grows(args: Seq<Seq<char>>, arg: Seq<char>)
    requires
        arg.len() > 0,
    ensures
        args.len() == 0 ==> command_line(args.push(arg)) == Some(arg),
        args.len() > 0 && command_line(args) is Some ==> command_line(args.push(arg)) == Some(
            command_line(args)->0 + seq![' '] + arg,
        ),
{
    reveal_strlit(" ");
    assert(args.push(arg).drop_last() =~= args);
    assert(" "@ =~= seq![' ']);
}

/// Text is read back from its UTF-8 encoding.
pub proof fn lemma_text_reads_back(text: Seq<char>)
    ensures
        lossy_text(vstd::utf8::encode_utf8(text)) == text,
{
    vstd::utf8::encode_utf8_valid_utf8(text);
    vstd::utf8::encode_utf8_decode_utf8(text);
}

/// The encoding of a character other than zero holds no zero byte.
proof fn lemma_scalar_without_zero(c: char)
    requires
        c != '\0',
    ensures
        !vstd::utf8::encode_scalar(c as u32).contains(0),
{
    let v = c as u32;
    assert(0 < v && v <= 0x7f ==> (v & 0x7f) as u8 != 0) by (bit_vector);
    assert(0xc0u8 | ((v >> 6) & 0x1f) as u8 != 0) by (bit_vector);
    assert(0xe0u8 | ((v >> 12) & 0x0f) as u8 != 0) by (bit_vector);
    assert(0xf0u8 | ((v >> 18) & 0x7) as u8 != 0) by (bit_vector);
    assert(0x80u8 | (v & 0x3f) as u8 != 0) by (bit_vector);
    assert(0x80u8 | ((v >> 6) & 0x3f) as u8 != 0) by (bit_vector);
    assert(0x80u8 | ((v >> 12) & 0x3f) as u8 != 0) by (bit_vector);
}

/// The encoding of a text without zero characters holds no zero byte, and is empty only for
/// the empty text.
proof fn lemma_encoding_without_zero(text: Seq<char>)
    requires
        !text.contains('\0'),
    ensures
        !vstd::utf8::encode_utf8(text).contains(0),
        text.len() > 0 ==> vstd::utf8::encode_utf8(text).len() > 0,
    decreases text.len(),
{
    if text.len() > 0 {
        assert(text.contains(text[0]));
        let rest = text.drop_first();
        assert forall|i: int| 0 <= i < rest.len() implies rest[i] != '\0' by {
            assert(text.contains(text[i + 1]));
        }
        lemma_scalar_without_zero(text[0]);
        lemma_encoding_without_zero(rest);
        let head = vstd::utf8::encode_scalar(text[0] as u32);
        let tail = vstd::utf8::encode_utf8(rest);
        let all = vstd::utf8::encode_utf8(text);
        assert(all == head + tail);
        assert forall|i: int| 0 <= i < all.len() implies all[i] != 0 by {
            if i < head.len() {
                assert(head.contains(head[i]));
            } else {
                assert(tail.contains(tail[i - head.len()]));
            }
        }
    }
}

/// Texts in UTF-8.
pub open spec fn encoded(args: Seq<Seq<char>>) -> Seq<Seq<u8>> {
    Seq::new(args.len(), |i: int| vstd::utf8::encode_utf8(args[i]))
}

/// The arguments of a process are read back from `/proc/[pid]/cmdline`, where each is packed
/// in UTF-8 with a zero byte behind it; none of them is lost, cut or changed.
pub proof fn lemma_command_reads_back(args: Seq<Seq<char>>)
    requires
        forall|i: int|
            0 <= i < args.len() ==> (#[trigger] args[i]).len() > 0 && !args[i].contains('\0'),
    ensures
        argument_texts(arguments(packed(encoded(args)))) == args,
        command_line(argument_texts(arguments(packed(encoded(args))))) == command_line(args),
{
    let bytes = encoded(args);
    let keep = |a: Seq<u8>| a.len() > 0;
    assert forall|i: int| 0 <= i < bytes.len() implies !(#[trigger] bytes[i]).contains(0)
        && bytes[i].len() > 0 by {
        assert(args[i].len() > 0);
        lemma_encoding_without_zero(args[i]);
    }
    lemma_arguments_read_back(bytes);
    assert(bytes.filter(keep) == bytes) by {
        lemma_all_kept(bytes);
    }
    assert forall|i: int| 0 <= i < args.len() implies #[trigger] argument_texts(bytes)[i]
        == args[i] by {
        lemma_text_reads_back(args[i]);
    }
    assert(argument_texts(bytes) =~= args);
}

/// Leaving out empty stretches changes nothing where there are none.
proof fn lemma_all_kept(list: Seq<Seq<u8>>)
    requires
        forall|i: int| 0 <= i < list.len() ==> (#[trigger] list[i]).len() > 0,
    ensures
        list.filter(|a: Seq<u8>| a.len() > 0) == list,
    decreases list.len(),
{
    reveal(Seq::filter);
    let keep = |a: Seq<u8>| a.len() > 0;
    if list.len() > 0 {
        let init = list.drop_last();
        assert forall|i: int| 0 <= i < init.len() implies (#[trigger] init[i]).len() > 0 by {
            assert(init[i] == list[i]);
        }
        lemma_all_kept(init);
        assert(list[list.len() - 1].len() > 0);
        assert(list =~= init.push(list.last()));
    } else {
        assert(list.filter(keep) =~= list);
    }
}

/// Digits are an id if they stand for a number of 31 bits, zeros in front or not.
pub proof fn lemma_digits_are_a_pid(name: Seq<char>)
    requires
        name.len() > 0,
        crate::number::all_digits(name),
    ensures
        crate::number::value(name) <= 0x7fff_ffff ==> process_id(name) is Some && process_id(
            name,
        )->0 == crate::number::value(name),
        crate::number::value(name) > 0x7fff_ffff ==> process_id(name) is None,
{
}

/// A process without enough fields, or with one of the four that is no number, gives no
/// sample; with all of them it gives one.
pub proof fn lemma_fields_needed(
    files: ProcessFilesView,
    pid: Seq<char>,
    comm: Seq<char>,
    fields: Seq<char>,
)
    requires
        files.stat == pid + seq!['('] + comm + seq![')', ' '] + fields,
        !pid.contains('('),
        !fields.contains(')'),
    ensures
        ({
            let ws = crate::text::words(fields);
            sample(files) is Some <==> {
                &&& ws.len() >= 22
                &&& crate::number::unsigned(ws[11]) is Some
                &&& crate::number::unsigned(ws[12]) is Some
                &&& crate::number::unsigned(ws[19]) is Some
                &&& crate::number::unsigned(ws[21]) is Some
            }
        }),
{
    lemma_name_stands_out(pid, comm, fields);
}

/// Where the name of a process stands, whatever follows it.
proof fn lemma_name_stands_out(pid: Seq<char>, comm: Seq<char>, fields: Seq<char>)
    requires
        !pid.contains('('),
        !fields.contains(')'),
    ensures
        ({
            let line = pid + seq!['('] + comm + seq![')', ' '] + fields;
            stat_line(line) is Some <==> stat_numbers(crate::text::words(fields)) is Some
        }),
{
    let line = pid + seq!['('] + comm + seq![')', ' '] + fields;
    let open = pid.len() as int;
    let close = open + 1 + comm.len();
    let behind = comm + seq![')', ' '] + fields;
    crate::text::lemma_position_after(pid, '(', behind);
    assert(line =~= pid + seq!['('] + behind);
    let head = pid + seq!['('] + comm;
    let tail = seq![' '] + fields;
    assert forall|i: int| 0 <= i < tail.len() implies tail[i] != ')' by {
        if i > 0 {
            assert(fields.contains(fields[i - 1]));
        }
    }
    crate::text::lemma_last_position(head, ')', tail);
    assert(line =~= head + seq![')'] + tail);
    assert(line[close + 1] == ' ');
    assert(line.skip(close + 2) =~= fields);
}

} // verus!
