//! Graphics cards, as `nvidia-smi` lists them.

use vstd::prelude::*;

use crate::error::{CommandOutput, ReadError};
use crate::number::{parse_u64, push_decimal};
use crate::process::decode_lossy;
use crate::text::{split_columns, split_lines, to_chars, to_text, trim};

verus! {

/// One graphics card. The utilisation is kept as it was printed.
#[derive(Debug)]
pub struct GpuStat {
    pub name: String,
    pub util: String,
    pub mem_used_mb: Option<u64>,
    pub mem_total_mb: Option<u64>,
    pub temp_c: Option<u64>,
}

/// [`GpuStat`] with its texts as sequences.
pub struct GpuStatView {
    pub name: Seq<char>,
    pub util: Seq<char>,
    pub mem_used_mb: Option<u64>,
    pub mem_total_mb: Option<u64>,
    pub temp_c: Option<u64>,
}

impl View for GpuStat {
    type V = GpuStatView;

    open spec fn view(&self) -> GpuStatView {
        GpuStatView {
            name: self.name@,
            util: self.util@,
            mem_used_mb: self.mem_used_mb,
            mem_total_mb: self.mem_total_mb,
            temp_c: self.temp_c,
        }
    }
}

/// The views of a list of graphics cards.
pub open spec fn gpu_views(list: Seq<GpuStat>) -> Seq<GpuStatView> {
    Seq::new(list.len(), |i: int| list[i]@)
}

/// The graphics card on a line of five columns or more, separated by commas.
pub open spec fn gpu_line(line: Seq<char>) -> Option<GpuStatView> {
    let cols = crate::text::columns(line, ',');
    if cols.len() < 5 {
        None
    } else {
        Some(
            GpuStatView {
                name: crate::text::trimmed(cols[0]),
                util: crate::text::trimmed(cols[1]),
                mem_used_mb: crate::number::unsigned(crate::text::trimmed(cols[2])),
                mem_total_mb: crate::number::unsigned(crate::text::trimmed(cols[3])),
                temp_c: crate::number::unsigned(crate::text::trimmed(cols[4])),
            },
        )
    }
}

/// The graphics cards on some lines, in the same order.
pub open spec fn gpus_on(ls: Seq<Seq<char>>) -> Seq<GpuStatView>
    decreases ls.len(),
{
    if ls.len() == 0 {
        Seq::empty()
    } else {
        let before = gpus_on(ls.drop_last());
        match gpu_line(ls.last()) {
            Some(gpu) => before.push(gpu),
            None => before,
        }
    }
}

/// Reads the graphics card on a line.
fn parse_gpu_line(line: &[char]) -> (res: Option<GpuStat>)
    ensures
        match res {
            Some(gpu) => gpu_line(line@) == Some(gpu@),
            None => gpu_line(line@) is None,
        },
{
    let cols = split_columns(line, ',');
    if cols.len() < 5 {
        return None;
    }
    Some(
        GpuStat {
            name: to_text(trim(cols[0].as_slice())),
            util: to_text(trim(cols[1].as_slice())),
            mem_used_mb: parse_u64(trim(cols[2].as_slice())),
            mem_total_mb: parse_u64(trim(cols[3].as_slice())),
            temp_c: parse_u64(trim(cols[4].as_slice())),
        },
    )
}

/// Reads the graphics cards in a listing.
pub fn parse_gpu_stats(text: &str) -> (res: Vec<GpuStat>)
    ensures
        gpu_views(res@) == gpus_on(crate::text::lines(text@)),
{
    let ls = split_lines(to_chars(text).as_slice());
    let ghost all = crate::text::lines(text@);
    let mut res: Vec<GpuStat> = Vec::new();
    let mut i: usize = 0;
    assert(gpu_views(res@) =~= gpus_on(all.take(0)));
    while i < ls.len()
        invariant
            i <= ls.len(),
            all == crate::text::texts(ls@),
            gpu_views(res@) == gpus_on(all.take(i as int)),
        decreases ls.len() - i,
    {
        let ghost old_res = res@;
        assert(all.take(i + 1).drop_last() =~= all.take(i as int));
        assert(all.take(i + 1).last() == ls@[i as int]@);
        if let Some(gpu) = parse_gpu_line(ls[i].as_slice()) {
            res.push(gpu);
            assert(gpu_views(res@) =~= gpu_views(old_res).push(gpu@));
        }
        i = i + 1;
    }
    assert(all.take(i as int) =~= all);
    res
}

/// What `nvidia-smi` tells of the graphics cards.
pub open spec fn gpu_report(output: Option<CommandOutput>) -> Result<Seq<GpuStatView>, ReadError> {
    match output {
        None => Err(ReadError::NvidiaSmiNotFound),
        Some(out) => if out.success {
            Ok(gpus_on(crate::text::lines(crate::process::lossy_text(out.stdout@))))
        } else {
            Err(ReadError::NvidiaSmiFailed)
        },
    }
}

/// Reads the graphics cards from what `nvidia-smi` printed, if it could be started. Its
/// columns are the name, the utilisation, the memory in use and in all, and the temperature.
pub fn read_gpu_stats(output: &Option<CommandOutput>) -> (res: Result<Vec<GpuStat>, ReadError>)
    ensures
        match res {
            Ok(gpus) => gpu_report(*output) == Ok::<Seq<GpuStatView>, ReadError>(gpu_views(gpus@)),
            Err(e) => gpu_report(*output) == Err::<Seq<GpuStatView>, ReadError>(e),
        },
{
    match output {
        None => Err(ReadError::NvidiaSmiNotFound),
        Some(out) => {
            if !out.success {
                return Err(ReadError::NvidiaSmiFailed);
            }
            let text = decode_lossy(out.stdout.as_slice());
            Ok(parse_gpu_stats(text.as_str()))
        },
    }
}

/// A line of a panel; a heading stands out.
#[derive(Debug)]
pub struct PanelLine {
    pub text: String,
    pub heading: bool,
}

/// [`PanelLine`] with its text as a sequence.
pub struct PanelLineView {
    pub text: Seq<char>,
    pub heading: bool,
}

impl View for PanelLine {
    type V = PanelLineView;

    open spec fn view(&self) -> PanelLineView {
        PanelLineView { text: self.text@, heading: self.heading }
    }
}

/// The views of some lines.
pub open spec fn line_views(list: Seq<PanelLine>) -> Seq<PanelLineView> {
    Seq::new(list.len(), |i: int| list[i]@)
}

/// A line that is no heading.
pub open spec fn plain(text: Seq<char>) -> PanelLineView {
    PanelLineView { text, heading: false }
}

/// A number, and 0 where there is none.
pub open spec fn amount(n: Option<u64>) -> Seq<char> {
    crate::number::decimal(
        match n {
            Some(v) => v as nat,
            None => 0,
        },
    )
}

/// The heading of a graphics card.
pub open spec fn gpu_heading(index: nat, gpu: GpuStatView) -> Seq<char> {
    "[GPU "@ + crate::number::decimal(index) + "] "@ + gpu.name
}

/// The figures of a graphics card, its utilisation in per cent as given.
pub open spec fn gpu_figures(gpu: GpuStatView, util: Seq<char>) -> Seq<char> {
    "Util: "@ + util + "%  Temp: "@ + amount(gpu.temp_c) + "°C  VRAM: "@ + amount(gpu.mem_used_mb)
        + " / "@ + amount(gpu.mem_total_mb) + " MiB"@
}

/// The lines on all graphics cards: a heading, the figures and an empty line for each.
pub open spec fn gpu_listing(gpus: Seq<GpuStatView>, utils: Seq<Seq<char>>) -> Seq<PanelLineView>
    decreases gpus.len(),
{
    if gpus.len() == 0 {
        Seq::empty()
    } else {
        let last = (gpus.len() - 1) as nat;
        gpu_listing(gpus.drop_last(), utils).push(
            PanelLineView { text: gpu_heading(last, gpus.last()), heading: true },
        ).push(plain(gpu_figures(gpus.last(), utils[last as int]))).push(plain(""@))
    }
}

/// The panel on graphics cards: the message if there is one, else the listing, and a remark
/// where that is empty.
pub open spec fn gpu_panel_lines(
    message: Option<Seq<char>>,
    gpus: Seq<GpuStatView>,
    utils: Seq<Seq<char>>,
) -> Seq<PanelLineView> {
    match message {
        Some(text) => seq![plain(text)],
        None => if gpus.len() == 0 {
            seq![plain("No GPU info"@)]
        } else {
            gpu_listing(gpus, utils)
        },
    }
}

/// Appends a number, and 0 where there is none.
fn push_amount(out: &mut String, n: Option<u64>)
    ensures
        final(out)@ == old(out)@ + amount(n),
{
    match n {
        Some(v) => push_decimal(out, v as u128),
        None => push_decimal(out, 0),
    }
}

/// Composes the panel on graphics cards. `utils` holds the utilisation of each, in per cent
/// with one decimal place.
pub fn gpu_panel(message: &Option<String>, gpus: &Vec<GpuStat>, utils: &Vec<String>) -> (res: Vec<
    PanelLine,
>)
    requires
        utils.len() == gpus.len(),
    ensures
        line_views(res@) == gpu_panel_lines(
            crate::memory::option_text(*message),
            gpu_views(gpus@),
            crate::text::strings(utils@),
        ),
{
    let mut res: Vec<PanelLine> = Vec::new();
    if let Some(text) = message {
        res.push(PanelLine { text: text.clone(), heading: false });
        assert(line_views(res@) =~= seq![plain(text@)]);
        return res;
    }
    let ghost all = gpu_views(gpus@);
    let ghost shown = crate::text::strings(utils@);
    let mut i: usize = 0;
    assert(line_views(res@) =~= gpu_listing(all.take(0), shown));
    while i < gpus.len()
        invariant
            i <= gpus.len() == utils.len(),
            all == gpu_views(gpus@),
            shown == crate::text::strings(utils@),
            line_views(res@) == gpu_listing(all.take(i as int), shown),
        decreases gpus.len() - i,
    {
        let ghost before = line_views(res@);
        let gpu = &gpus[i];
        let mut heading = String::new();
        heading.append("[GPU ");
        push_decimal(&mut heading, i as u128);
        heading.append("] ");
        heading.append(gpu.name.as_str());
        assert(heading@ =~= gpu_heading(i as nat, gpu@));
        let mut figures = String::new();
        figures.append("Util: ");
        figures.append(utils[i].as_str());
        figures.append("%  Temp: ");
        push_amount(&mut figures, gpu.temp_c);
        figures.append("°C  VRAM: ");
        push_amount(&mut figures, gpu.mem_used_mb);
        figures.append(" / ");
        push_amount(&mut figures, gpu.mem_total_mb);
        figures.append(" MiB");
        assert(figures@ =~= gpu_figures(gpu@, shown[i as int]));
        let ghost first = PanelLineView { text: heading@, heading: true };
        let ghost second = plain(figures@);
        res.push(PanelLine { text: heading, heading: true });
        res.push(PanelLine { text: figures, heading: false });
        res.push(PanelLine { text: "".to_owned(), heading: false });
        assert(line_views(res@) =~= before.push(first).push(second).push(plain(""@)));
        assert(all.take(i + 1).drop_last() =~= all.take(i as int));
        assert(all.take(i + 1).last() == gpu@);
        i = i + 1;
    }
    assert(all.take(i as int) =~= all);
    if res.len() == 0 {
        res.push(PanelLine { text: "No GPU info".to_owned(), heading: false });
        proof {
            if all.len() > 0 {
                assert(gpu_listing(all, shown).len() > 0);
            }
        }
        assert(line_views(res@) =~= seq![plain("No GPU info"@)]);
    }
    res
}

/// A card's columns are read back: the name and the utilisation without the white space
/// around them, and its three numbers.
pub proof fn lemma_card_reads_back(cols: Seq<Seq<char>>, used: u64, total: u64, temp: u64)
    requires
        cols.len() >= 5,
        forall|i: int| 0 <= i < cols.len() ==> !(#[trigger] cols[i]).contains(','),
        crate::text::trimmed(cols[2]) == crate::number::decimal(used as nat),
        crate::text::trimmed(cols[3]) == crate::number::decimal(total as nat),
        crate::text::trimmed(cols[4]) == crate::number::decimal(temp as nat),
    ensures
        ({
            let card = gpu_line(crate::text::joined(cols, seq![',']));
            &&& card is Some
            &&& card->0.name == crate::text::trimmed(cols[0])
            &&& card->0.util == crate::text::trimmed(cols[1])
            &&& card->0.mem_used_mb == Some(used)
            &&& card->0.mem_total_mb == Some(total)
            &&& card->0.temp_c == Some(temp)
        }),
{
    crate::text::lemma_columns_read_back(cols, ',');
    crate::number::lemma_unsigned_undoes_decimal(used);
    crate::number::lemma_unsigned_undoes_decimal(total);
    crate::number::lemma_unsigned_undoes_decimal(temp);
}

/// A line of five columns or more is a card, whatever they hold; one of fewer is none.
pub proof fn lemma_card_needs_five_columns(cols: Seq<Seq<char>>)
    requires
        cols.len() > 0,
        forall|i: int| 0 <= i < cols.len() ==> !(#[trigger] cols[i]).contains(','),
    ensures
        gpu_line(crate::text::joined(cols, seq![','])) is Some <==> cols.len() >= 5,
{
    crate::text::lemma_columns_read_back(cols, ',');
}

/// Each line gives its card or none, and the cards stand in the order of their lines.
pub proof fn lemma_cards_in_order(a: Seq<Seq<char>>, b: Seq<Seq<char>>)
    ensures
        gpus_on(a + b) == gpus_on(a) + gpus_on(b),
    decreases b.len(),
{
    if b.len() == 0 {
        assert(a + b =~= a);
        assert(gpus_on(a) + gpus_on(b) =~= gpus_on(a));
    } else {
        lemma_cards_in_order(a, b.drop_last());
        assert((a + b).drop_last() =~= a + b.drop_last());
        assert((a + b).last() == b.last());
        assert(gpus_on(a + b) =~= gpus_on(a) + gpus_on(b));
    }
}

/// One line gives its own card and no other.
pub proof fn lemma_card_of_a_line(line: Seq<char>)
    ensures
        gpu_line(line) is Some ==> gpus_on(seq![line]) == seq![gpu_line(line)->0],
        gpu_line(line) is None ==> gpus_on(seq![line]).len() == 0,
{
    let ls = seq![line];
    assert(ls.drop_last() =~= Seq::empty());
    assert(gpus_on(ls.drop_last()) =~= Seq::empty());
    assert(gpu_line(line) is Some ==> gpus_on(ls) =~= seq![gpu_line(line)->0]);
}

/// What stands in a card's figures: behind each label the numeral of its figure, and 0 where
/// the card did not tell it.
pub proof fn lemma_figures_read_back(gpu: GpuStatView, util: Seq<char>)
    ensures
        ({
            let line = gpu_figures(gpu, util);
            let head = "Util: "@ + util + "%  Temp: "@;
            let temp = line.skip(head.len() as int);
            let used = crate::number::behind_number(temp).skip("°C  VRAM: "@.len() as int);
            let total = crate::number::behind_number(used).skip(" / "@.len() as int);
            &&& crate::text::starts_with(line, head)
            &&& crate::number::leading_number(temp) == (match gpu.temp_c {
                Some(t) => t as nat,
                None => 0,
            })
            &&& crate::text::starts_with(crate::number::behind_number(temp), "°C  VRAM: "@)
            &&& crate::number::leading_number(used) == (match gpu.mem_used_mb {
                Some(u) => u as nat,
                None => 0,
            })
            &&& crate::text::starts_with(crate::number::behind_number(used), " / "@)
            &&& crate::number::leading_number(total) == (match gpu.mem_total_mb {
                Some(m) => m as nat,
                None => 0,
            })
            &&& crate::number::behind_number(total) == " MiB"@
        }),
{
    reveal_strlit("°C  VRAM: ");
    reveal_strlit(" / ");
    reveal_strlit(" MiB");
    let t: nat = match gpu.temp_c {
        Some(n) => n as nat,
        None => 0,
    };
    let u: nat = match gpu.mem_used_mb {
        Some(n) => n as nat,
        None => 0,
    };
    let m: nat = match gpu.mem_total_mb {
        Some(n) => n as nat,
        None => 0,
    };
    let head = "Util: "@ + util + "%  Temp: "@;
    let total = crate::number::decimal(m) + " MiB"@;
    let used_rest = " / "@ + total;
    let used = crate::number::decimal(u) + used_rest;
    let temp_rest = "°C  VRAM: "@ + used;
    let temp = crate::number::decimal(t) + temp_rest;
    let line = gpu_figures(gpu, util);
    assert(line =~= head + temp);
    assert(line.take(head.len() as int) =~= head);
    assert(line.skip(head.len() as int) =~= temp);
    crate::number::lemma_leading_number(t, temp_rest);
    assert(temp_rest.take("°C  VRAM: "@.len() as int) =~= "°C  VRAM: "@);
    assert(temp_rest.skip("°C  VRAM: "@.len() as int) =~= used);
    crate::number::lemma_leading_number(u, used_rest);
    assert(used_rest.take(" / "@.len() as int) =~= " / "@);
    assert(used_rest.skip(" / "@.len() as int) =~= total);
    crate::number::lemma_leading_number(m, " MiB"@);
}

/// Two cards that differ in a figure have different lines.
pub proof fn lemma_figures_tell_cards_apart(a: GpuStatView, b: GpuStatView, util: Seq<char>)
    requires
        a.temp_c is Some,
        b.temp_c is Some,
        a.mem_used_mb is Some,
        b.mem_used_mb is Some,
        a.mem_total_mb is Some,
        b.mem_total_mb is Some,
        gpu_figures(a, util) == gpu_figures(b, util),
    ensures
        a.temp_c == b.temp_c,
        a.mem_used_mb == b.mem_used_mb,
        a.mem_total_mb == b.mem_total_mb,
{
    lemma_figures_read_back(a, util);
    lemma_figures_read_back(b, util);
}

/// A card's heading tells its number and its name.
pub proof fn lemma_heading_reads_back(index: nat, gpu: GpuStatView)
    ensures
        ({
            let line = gpu_heading(index, gpu);
            let rest = line.skip("[GPU "@.len() as int);
            &&& crate::text::starts_with(line, "[GPU "@)
            &&& crate::number::leading_number(rest) == index
            &&& crate::number::behind_number(rest) == "] "@ + gpu.name
        }),
{
    reveal_strlit("] ");
    let tail = "] "@ + gpu.name;
    let rest = crate::number::decimal(index) + tail;
    let line = gpu_heading(index, gpu);
    assert(line =~= "[GPU "@ + rest);
    assert(line.take("[GPU "@.len() as int) =~= "[GPU "@);
    assert(line.skip("[GPU "@.len() as int) =~= rest);
    crate::number::lemma_leading_number(index, tail);
}

/// The listing has three lines for each card, in the order of the cards.
proof fn lemma_listing_lines(gpus: Seq<GpuStatView>, utils: Seq<Seq<char>>, i: int)
    requires
        0 <= i < gpus.len(),
    ensures
        ({
            let list = gpu_listing(gpus, utils);
            &&& list.len() == 3 * gpus.len()
            &&& list[3 * i].heading
            &&& list[3 * i].text == gpu_heading(i as nat, gpus[i])
            &&& !list[3 * i + 1].heading
            &&& list[3 * i + 1].text == gpu_figures(gpus[i], utils[i])
            &&& !list[3 * i + 2].heading
            &&& list[3 * i + 2].text == ""@
        }),
    decreases gpus.len(),
{
    let init = gpus.drop_last();
    lemma_listing_len(init, utils);
    lemma_listing_len(gpus, utils);
    if i < init.len() {
        lemma_listing_lines(init, utils, i);
        assert(init[i] == gpus[i]);
    }
}

/// The listing has three lines for each card.
proof fn lemma_listing_len(gpus: Seq<GpuStatView>, utils: Seq<Seq<char>>)
    ensures
        gpu_listing(gpus, utils).len() == 3 * gpus.len(),
    decreases gpus.len(),
{
    if gpus.len() > 0 {
        lemma_listing_len(gpus.drop_last(), utils);
    }
}

/// Every card has its place in the panel: a heading with its number and name, its figures,
/// and an empty line.
pub proof fn lemma_panel_shows_every_card(
    gpus: Seq<GpuStatView>,
    utils: Seq<Seq<char>>,
    i: int,
)
    requires
        0 <= i < gpus.len(),
    ensures
        ({
            let panel = gpu_panel_lines(None, gpus, utils);
            let heading = panel[3 * i];
            let figures = panel[3 * i + 1];
            &&& panel.len() == 3 * gpus.len()
            &&& heading.heading
            &&& crate::number::leading_number(heading.text.skip(5)) == i
            &&& crate::number::behind_number(heading.text.skip(5)).skip(2) == gpus[i].name
            &&& !figures.heading
            &&& figures.text == gpu_figures(gpus[i], utils[i])
            &&& crate::text::starts_with(figures.text, "Util: "@ + utils[i] + "%"@)
            &&& !panel[3 * i + 2].heading
            &&& panel[3 * i + 2].text.len() == 0
        }),
{
    lemma_listing_lines(gpus, utils, i);
    lemma_heading_reads_back(i as nat, gpus[i]);
    lemma_figures_read_back(gpus[i], utils[i]);
    reveal_strlit("[GPU ");
    reveal_strlit("] ");
    reveal_strlit("");
    reveal_strlit("%");
    reveal_strlit("%  Temp: ");
    assert(("] "@ + gpus[i].name).skip(2) =~= gpus[i].name);
    let head = "Util: "@ + utils[i] + "%  Temp: "@;
    let short = "Util: "@ + utils[i] + "%"@;
    let line = gpu_figures(gpus[i], utils[i]);
    assert(line.take(short.len() as int) =~= line.take(head.len() as int).take(
        short.len() as int,
    ));
    assert(head.take(short.len() as int) =~= short);
}

/// A message stands alone, and a remark where there is nothing to show.
pub proof fn lemma_panel_without_cards(
    text: Seq<char>,
    gpus: Seq<GpuStatView>,
    utils: Seq<Seq<char>>,
)
    ensures
        gpu_panel_lines(Some(text), gpus, utils).len() == 1,
        gpu_panel_lines(Some(text), gpus, utils)[0].text == text,
        !gpu_panel_lines(Some(text), gpus, utils)[0].heading,
        gpus.len() == 0 ==> gpu_panel_lines(None, gpus, utils).len() == 1,
        gpus.len() == 0 ==> gpu_panel_lines(None, gpus, utils)[0].text == "No GPU info"@,
        gpus.len() == 0 ==> !gpu_panel_lines(None, gpus, utils)[0].heading,
{
}

/// The cards are those on the lines that `nvidia-smi` printed if it succeeded; else each
/// failure is told.
pub proof fn lemma_gpu_report(out: CommandOutput)
    ensures
        gpu_report(None) == Err::<Seq<GpuStatView>, ReadError>(ReadError::NvidiaSmiNotFound),
        !out.success ==> gpu_report(Some(out)) == Err::<Seq<GpuStatView>, ReadError>(
            ReadError::NvidiaSmiFailed,
        ),
        out.success ==> gpu_report(Some(out)) == Ok::<Seq<GpuStatView>, ReadError>(
            gpus_on(crate::text::lines(crate::process::lossy_text(out.stdout@))),
        ),
{
}

} // verus!
