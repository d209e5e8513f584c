//! Installed memory modules, as `dmidecode -t memory` lists them.

use vstd::prelude::*;

use crate::error::{CommandOutput, DmidecodeError, ReadError};
use crate::number::push_decimal;
use crate::process::decode_lossy;
use crate::text::{is_text, join, split_lines, strip_prefix, to_chars, to_text, trim};

verus! {

/// Whether a text comes before another: by the first character in which they differ, or as
/// a part of the other at its start.
pub open spec fn precedes(a: Seq<char>, b: Seq<char>) -> bool
    decreases b.len(),
{
    if b.len() == 0 {
        false
    } else if a.len() == 0 {
        true
    } else {
        a[0] < b[0] || (a[0] == b[0] && precedes(a.drop_first(), b.drop_first()))
    }
}

/// Whether each text comes before all that follow it.
pub open spec fn ascending(list: Seq<Seq<char>>) -> bool {
    forall|i: int, j: int|
        0 <= i < j < list.len() ==> precedes(#[trigger] list[i], #[trigger] list[j])
}

/// Of two texts one comes before the other, or they are the same.
pub proof fn lemma_precedes_total(a: Seq<char>, b: Seq<char>)
    ensures
        precedes(a, b) || precedes(b, a) || a == b,
        !(precedes(a, b) && precedes(b, a)),
    decreases a.len() + b.len(),
{
    if a.len() > 0 && b.len() > 0 {
        lemma_precedes_total(a.drop_first(), b.drop_first());
        if a[0] == b[0] && a.drop_first() == b.drop_first() {
            assert(a =~= seq![a[0]] + a.drop_first());
            assert(b =~= seq![b[0]] + b.drop_first());
        }
    } else if a.len() == 0 && b.len() == 0 {
        assert(a =~= b);
    }
}

/// What comes before a text also comes before all that follow that text.
pub proof fn lemma_precedes_transitive(a: Seq<char>, b: Seq<char>, c: Seq<char>)
    requires
        precedes(a, b),
        precedes(b, c),
    ensures
        precedes(a, c),
    decreases a.len(),
{
    if a.len() > 0 && a[0] == b[0] && b[0] == c[0] {
        lemma_precedes_transitive(a.drop_first(), b.drop_first(), c.drop_first());
    }
}

/// Whether a string comes before another.
fn is_before(a: &str, b: &str) -> (res: bool)
    ensures
        res == precedes(a@, b@),
{
    let x = to_chars(a);
    let y = to_chars(b);
    let mut i: usize = 0;
    assert(x@.skip(0) =~= x@);
    assert(y@.skip(0) =~= y@);
    while i < x.len() && i < y.len() && x[i] == y[i]
        invariant
            i <= x.len(),
            i <= y.len(),
            precedes(x@, y@) == precedes(x@.skip(i as int), y@.skip(i as int)),
        decreases x.len() - i,
    {
        assert(x@.skip(i as int).drop_first() =~= x@.skip(i + 1));
        assert(y@.skip(i as int).drop_first() =~= y@.skip(i + 1));
        i = i + 1;
    }
    if i == y.len() {
        false
    } else if i == x.len() {
        true
    } else {
        x[i] < y[i]
    }
}

/// A text put behind all that come before it and before one that comes behind it leaves a
/// list in ascending order.
proof fn lemma_insert_in_place(list: Seq<Seq<char>>, i: int, text: Seq<char>)
    requires
        ascending(list),
        0 <= i <= list.len(),
        forall|j: int| 0 <= j < i ==> precedes(#[trigger] list[j], text),
        i < list.len() ==> precedes(text, list[i]),
    ensures
        ascending(list.insert(i, text)),
        list.insert(i, text).to_set() == list.to_set().insert(text),
{
    let after = list.insert(i, text);
    assert forall|j: int, k: int| 0 <= j < k < after.len() implies precedes(
        #[trigger] after[j],
        #[trigger] after[k],
    ) by {
        if k < i {
            assert(precedes(list[j], list[k]));
        } else if k == i {
            assert(precedes(list[j], text));
        } else if j == i {
            if k > i + 1 {
                assert(precedes(list[i], list[k - 1]));
                lemma_precedes_transitive(text, list[i], list[k - 1]);
            }
        } else if j < i {
            assert(precedes(list[j], list[k - 1]));
        } else {
            assert(precedes(list[j - 1], list[k - 1]));
        }
    }
    assert forall|x: Seq<char>| after.contains(x) <==> (list.contains(x) || x == text) by {
        if list.contains(x) {
            let j = choose|j: int| 0 <= j < list.len() && list[j] == x;
            if j < i {
                assert(after[j] == x);
            } else {
                assert(after[j + 1] == x);
            }
        }
        if x == text {
            assert(after[i] == x);
        }
        if after.contains(x) {
            let j = choose|j: int| 0 <= j < after.len() && after[j] == x;
            if j < i {
                assert(list[j] == x);
            } else if j > i {
                assert(list[j - 1] == x);
            }
        }
    }
    assert(after.to_set() =~= list.to_set().insert(text));
}

/// Memory modules, each described once, in ascending order.
#[derive(Debug)]
pub struct ModuleSet {
    pub names: Vec<String>,
}

impl View for ModuleSet {
    type V = Set<Seq<char>>;

    open spec fn view(&self) -> Set<Seq<char>> {
        crate::text::strings(self.names@).to_set()
    }
}

impl ModuleSet {
    /// The descriptions stand in ascending order, so none occurs twice.
    pub open spec fn wf(self) -> bool {
        ascending(crate::text::strings(self.names@))
    }

    /// No modules.
    pub fn new() -> (res: ModuleSet)
        ensures
            res.wf(),
            res@ == Set::<Seq<char>>::empty(),
    {
        let res = ModuleSet { names: Vec::new() };
        assert(crate::text::strings(res.names@) =~= Seq::empty());
        assert(res@ =~= Set::empty());
        res
    }

    /// Adds a module, unless it is there already.
    pub fn insert(&mut self, name: String)
        requires
            old(self).wf(),
        ensures
            final(self).wf(),
            final(self)@ == old(self)@.insert(name@),
    {
        let ghost before = crate::text::strings(self.names@);
        let mut i: usize = 0;
        while i < self.names.len() && is_before(self.names[i].as_str(), name.as_str())
            invariant
                i <= self.names.len(),
                before == crate::text::strings(self.names@),
                forall|j: int| 0 <= j < i ==> precedes(#[trigger] before[j], name@),
            decreases self.names.len() - i,
        {
            i = i + 1;
        }
        let ghost text = name@;
        if i < self.names.len() && !is_before(name.as_str(), self.names[i].as_str()) {
            proof {
                lemma_precedes_total(before[i as int], text);
                assert(before.contains(before[i as int]));
                assert(self@ =~= old(self)@.insert(text));
            }
            return;
        }
        self.names.insert(i, name);
        proof {
            assert(crate::text::strings(self.names@) =~= before.insert(i as int, text));
            if i < before.len() {
                lemma_precedes_total(before[i as int], text);
            }
            lemma_insert_in_place(before, i as int, text);
            assert(self@ =~= old(self)@.insert(text));
        }
    }
}

/// The text of an optional string.
pub open spec fn option_text(o: Option<String>) -> Option<Seq<char>> {
    match o {
        Some(s) => Some(s@),
        None => None,
    }
}

/// A text as a list of one, and nothing as a list of none.
pub open spec fn option_list(o: Option<Seq<char>>) -> Seq<Seq<char>> {
    match o {
        Some(s) => seq![s],
        None => Seq::empty(),
    }
}

/// The description of a module: its size, and what is known of its kind, speed and part
/// number, with a space between each two.
pub open spec fn module_text(
    size: Seq<char>,
    kind: Option<Seq<char>>,
    speed: Option<Seq<char>>,
    part: Option<Seq<char>>,
) -> Seq<char> {
    crate::text::joined(
        seq![size] + option_list(kind) + option_list(speed) + option_list(part),
        " "@,
    )
}

/// Adds the module that has been described so far, if its size is known, and forgets the
/// description.
pub fn push_memory_module(
    modules: &mut ModuleSet,
    size: &mut Option<String>,
    kind: &mut Option<String>,
    speed: &mut Option<String>,
    part: &mut Option<String>,
)
    requires
        old(modules).wf(),
    ensures
        final(modules).wf(),
        final(modules)@ == (match *old(size) {
            Some(s) => old(modules)@.insert(
                module_text(
                    s@,
                    option_text(*old(kind)),
                    option_text(*old(speed)),
                    option_text(*old(part)),
                ),
            ),
            None => old(modules)@,
        }),
        *final(size) is None,
        *final(kind) is None,
        *final(speed) is None,
        *final(part) is None,
{
    let kind_value = kind.take();
    let speed_value = speed.take();
    let part_value = part.take();
    let ghost kind_text = option_text(kind_value);
    let ghost speed_text = option_text(speed_value);
    let ghost part_text = option_text(part_value);
    if let Some(size_value) = size.take() {
        let ghost size_text = size_value@;
        let mut fields: Vec<String> = Vec::new();
        fields.push(size_value);
        let ghost mut list = seq![size_text];
        assert(crate::text::strings(fields@) =~= list);
        if let Some(v) = kind_value {
            fields.push(v);
        }
        proof {
            list = list + option_list(kind_text);
            assert(crate::text::strings(fields@) =~= list);
        }
        if let Some(v) = speed_value {
            fields.push(v);
        }
        proof {
            list = list + option_list(speed_text);
            assert(crate::text::strings(fields@) =~= list);
        }
        if let Some(v) = part_value {
            fields.push(v);
        }
        proof {
            list = list + option_list(part_text);
            assert(crate::text::strings(fields@) =~= list);
        }
        modules.insert(join(&fields, " "));
    }
}

/// What has been read of a listing: the modules so far, and the one being described.
pub struct Scan {
    pub modules: Set<Seq<char>>,
    pub size: Option<Seq<char>>,
    pub kind: Option<Seq<char>>,
    pub speed: Option<Seq<char>>,
    pub part: Option<Seq<char>>,
}

/// Nothing read yet.
pub open spec fn scan_start() -> Scan {
    Scan { modules: Set::empty(), size: None, kind: None, speed: None, part: None }
}

/// The description so far is complete.
pub open spec fn scan_push(st: Scan) -> Scan {
    Scan {
        modules: match st.size {
            Some(size) => st.modules.insert(module_text(size, st.kind, st.speed, st.part)),
            None => st.modules,
        },
        size: None,
        kind: None,
        speed: None,
        part: None,
    }
}

/// What stands behind a label, without white space around it.
pub open spec fn behind(line: Seq<char>, label: Seq<char>) -> Seq<char> {
    crate::text::trimmed(line.skip(label.len() as int))
}

/// One more line: the heading of a device completes the description before it, and a known
/// property is noted.
pub open spec fn scan_line(st: Scan, raw: Seq<char>) -> Scan {
    let line = crate::text::trimmed(raw);
    let unknown = "Unknown"@;
    if line == "Memory Device"@ {
        scan_push(st)
    } else if crate::text::starts_with(line, "Size:"@) {
        let v = behind(line, "Size:"@);
        if v != "No Module Installed"@ && v != unknown {
            Scan { size: Some(v), ..st }
        } else {
            st
        }
    } else if crate::text::starts_with(line, "Type:"@) {
        let v = behind(line, "Type:"@);
        if v != unknown {
            Scan { kind: Some(v), ..st }
        } else {
            st
        }
    } else if crate::text::starts_with(line, "Speed:"@) {
        let v = behind(line, "Speed:"@);
        if v != unknown {
            Scan { speed: Some(v), ..st }
        } else {
            st
        }
    } else if crate::text::starts_with(line, "Part Number:"@) {
        let v = behind(line, "Part Number:"@);
        if v.len() > 0 && v != unknown {
            Scan { part: Some(v), ..st }
        } else {
            st
        }
    } else {
        st
    }
}

/// What has been read after some lines.
pub open spec fn scan(ls: Seq<Seq<char>>) -> Scan
    decreases ls.len(),
{
    if ls.len() == 0 {
        scan_start()
    } else {
        scan_line(scan(ls.drop_last()), ls.last())
    }
}

/// The modules that a listing describes.
pub open spec fn listed_modules(text: Seq<char>) -> Set<Seq<char>> {
    scan_push(scan(crate::text::lines(text))).modules
}

/// The texts of a set in ascending order.
pub open spec fn listing(set: Set<Seq<char>>) -> Seq<Seq<char>> {
    choose|list: Seq<Seq<char>>| ascending(list) && #[trigger] list.to_set() == set
}

/// A set has one listing only: two lists in ascending order with the same texts are the same.
pub proof fn lemma_listing_unique(a: Seq<Seq<char>>, b: Seq<Seq<char>>)
    requires
        ascending(a),
        ascending(b),
        a.to_set() == b.to_set(),
    ensures
        a == b,
    decreases a.len(),
{
    assert forall|x: Seq<char>| a.contains(x) <==> b.contains(x) by {
        assert(a.to_set().contains(x) <==> a.contains(x));
        assert(b.to_set().contains(x) <==> b.contains(x));
    }
    if a.len() == 0 {
        if b.len() > 0 {
            assert(b.contains(b[0]));
        }
        assert(a =~= b);
    } else {
        assert(a.contains(a[0]));
        let j = choose|j: int| 0 <= j < b.len() && b[j] == a[0];
        assert(b.contains(b[0]));
        let i = choose|i: int| 0 <= i < a.len() && a[i] == b[0];
        lemma_precedes_total(a[0], b[0]);
        if i > 0 {
            assert(precedes(a[0], a[i]));
        }
        if j > 0 {
            assert(precedes(b[0], b[j]));
        }
        assert(a[0] == b[0]);
        let x = a.drop_first();
        let y = b.drop_first();
        assert forall|t: Seq<char>| x.contains(t) <==> y.contains(t) by {
            lemma_precedes_total(a[0], a[0]);
            if x.contains(t) {
                let k = choose|k: int| 0 <= k < x.len() && x[k] == t;
                assert(precedes(a[0], a[k + 1]));
                assert(a.contains(a[k + 1]));
                let m = choose|m: int| 0 <= m < b.len() && b[m] == t;
                assert(y[m - 1] == t);
            }
            if y.contains(t) {
                let k = choose|k: int| 0 <= k < y.len() && y[k] == t;
                assert(precedes(b[0], b[k + 1]));
                assert(b.contains(b[k + 1]));
                let m = choose|m: int| 0 <= m < a.len() && a[m] == t;
                assert(x[m - 1] == t);
            }
        }
        assert(x.to_set() =~= y.to_set());
        assert forall|p: int, q: int| 0 <= p < q < x.len() implies precedes(
            #[trigger] x[p],
            #[trigger] x[q],
        ) by {
            assert(precedes(a[p + 1], a[q + 1]));
        }
        assert forall|p: int, q: int| 0 <= p < q < y.len() implies precedes(
            #[trigger] y[p],
            #[trigger] y[q],
        ) by {
            assert(precedes(b[p + 1], b[q + 1]));
        }
        lemma_listing_unique(x, y);
        assert(a =~= seq![a[0]] + x);
        assert(b =~= seq![b[0]] + y);
    }
}

/// How many modules there are, and which.
pub open spec fn summary(set: Set<Seq<char>>) -> Seq<char> {
    crate::number::decimal(listing(set).len()) + " slot(s): "@ + crate::text::joined(
        listing(set),
        " | "@,
    )
}

/// Sums up a listing of memory modules.
pub fn summarize_modules(text: &str) -> (res: Result<String, DmidecodeError>)
    ensures
        match res {
            Ok(s) => listed_modules(text@) != Set::<Seq<char>>::empty() && s@ == summary(
                listed_modules(text@),
            ),
            Err(e) => listed_modules(text@) == Set::<Seq<char>>::empty() && e
                == DmidecodeError::NoModules,
        },
{
    let ls = split_lines(to_chars(text).as_slice());
    let ghost all = crate::text::lines(text@);
    let mut modules = ModuleSet::new();
    let mut size: Option<String> = None;
    let mut kind: Option<String> = None;
    let mut speed: Option<String> = None;
    let mut part: Option<String> = None;
    let mut i: usize = 0;
    while i < ls.len()
        invariant
            i <= ls.len(),
            all == crate::text::texts(ls@),
            modules.wf(),
            scan(all.take(i as int)) == (Scan {
                modules: modules@,
                size: option_text(size),
                kind: option_text(kind),
                speed: option_text(speed),
                part: option_text(part),
            }),
        decreases ls.len() - i,
    {
        proof {
            assert(all.take(i + 1).drop_last() =~= all.take(i as int));
            assert(all.take(i + 1).last() == ls@[i as int]@);
        }
        let line = trim(ls[i].as_slice());
        if is_text(line, "Memory Device") {
            push_memory_module(&mut modules, &mut size, &mut kind, &mut speed, &mut part);
        } else if let Some(rest) = strip_prefix(line, "Size:") {
            let v = trim(rest);
            if !is_text(v, "No Module Installed") && !is_text(v, "Unknown") {
                size = Some(to_text(v));
            }
        } else if let Some(rest) = strip_prefix(line, "Type:") {
            let v = trim(rest);
            if !is_text(v, "Unknown") {
                kind = Some(to_text(v));
            }
        } else if let Some(rest) = strip_prefix(line, "Speed:") {
            let v = trim(rest);
            if !is_text(v, "Unknown") {
                speed = Some(to_text(v));
            }
        } else if let Some(rest) = strip_prefix(line, "Part Number:") {
            let v = trim(rest);
            if v.len() > 0 && !is_text(v, "Unknown") {
                part = Some(to_text(v));
            }
        }
        i = i + 1;
    }
    assert(all.take(i as int) =~= all);
    push_memory_module(&mut modules, &mut size, &mut kind, &mut speed, &mut part);
    let ghost list = crate::text::strings(modules.names@);
    assert(modules@ == listed_modules(text@));
    if modules.names.len() == 0 {
        assert(modules@ =~= Set::empty());
        return Err(DmidecodeError::NoModules);
    }
    proof {
        assert(list.contains(list[0]));
        assert(modules@.contains(list[0]));
        lemma_listing_unique(listing(modules@), list);
    }
    let mut res = String::new();
    push_decimal(&mut res, modules.names.len() as u128);
    res.append(" slot(s): ");
    res.append(join(&modules.names, " | ").as_str());
    assert(res@ =~= summary(modules@));
    Ok(res)
}

/// What `dmidecode` tells of the memory modules, given what it left behind or why it could
/// not be started.
pub open spec fn dmidecode_summary(output: Result<CommandOutput, String>) -> Result<
    Seq<char>,
    crate::error::DmidecodeErrorView,
> {
    match output {
        Err(reason) => Err(crate::error::DmidecodeErrorView::NotRun(reason@)),
        Ok(out) => {
            let set = listed_modules(crate::process::lossy_text(out.stdout@));
            if !out.success {
                Err(crate::error::DmidecodeErrorView::Failed)
            } else if set == Set::<Seq<char>>::empty() {
                Err(crate::error::DmidecodeErrorView::NoModules)
            } else {
                Ok(summary(set))
            }
        },
    }
}

/// Reads the memory modules from what `dmidecode -t memory` printed, or tells why it could
/// not be started.
pub fn read_memory_model_dmidecode(output: &Result<CommandOutput, String>) -> (res: Result<
    String,
    DmidecodeError,
>)
    ensures
        dmidecode_summary(*output) == (match res {
            Ok(s) => Ok::<Seq<char>, crate::error::DmidecodeErrorView>(s@),
            Err(e) => Err::<Seq<char>, crate::error::DmidecodeErrorView>(e@),
        }),
{
    match output {
        Err(reason) => Err(DmidecodeError::NotRun(reason.clone())),
        Ok(out) => {
            if !out.success {
                return Err(DmidecodeError::Failed);
            }
            let text = decode_lossy(out.stdout.as_slice());
            summarize_modules(text.as_str())
        },
    }
}

/// Reads the memory model to show.
pub fn read_memory_model(output: &Result<CommandOutput, String>) -> (res: Result<
    String,
    ReadError,
>)
    ensures
        match res {
            Ok(s) => dmidecode_summary(*output) == Ok::<
                Seq<char>,
                crate::error::DmidecodeErrorView,
            >(s@),
            Err(e) => dmidecode_summary(*output) is Err && e == ReadError::MemoryModelUnreadable,
        },
{
    match read_memory_model_dmidecode(output) {
        Ok(model) => Ok(model),
        Err(_) => Err(ReadError::MemoryModelUnreadable),
    }
}

/// A list in ascending order takes one more text that is put behind its first `i` texts.
proof fn lemma_place(list: Seq<Seq<char>>, i: int, text: Seq<char>) -> (res: Seq<Seq<char>>)
    requires
        ascending(list),
        0 <= i <= list.len(),
        forall|j: int| 0 <= j < i ==> precedes(#[trigger] list[j], text),
    ensures
        ascending(res),
        res.to_set() == list.to_set().insert(text),
    decreases list.len() - i,
{
    if i < list.len() {
        lemma_precedes_total(list[i], text);
        if precedes(list[i], text) {
            lemma_place(list, i + 1, text)
        } else if list[i] == text {
            assert(list.contains(text));
            assert(list.to_set() =~= list.to_set().insert(text));
            list
        } else {
            lemma_insert_in_place(list, i, text);
            list.insert(i, text)
        }
    } else {
        lemma_insert_in_place(list, i, text);
        list.insert(i, text)
    }
}

/// The texts of a finite set in ascending order.
proof fn lemma_list(set: Set<Seq<char>>) -> (res: Seq<Seq<char>>)
    requires
        set.finite(),
    ensures
        ascending(res),
        res.to_set() == set,
    decreases set.len(),
{
    if set.len() == 0 {
        let res = Seq::<Seq<char>>::empty();
        assert(res.to_set() =~= set);
        res
    } else {
        let text = set.choose();
        let before = lemma_list(set.remove(text));
        assert(set.remove(text).insert(text) =~= set);
        lemma_place(before, 0, text)
    }
}

/// Every finite set has a listing: each of its texts once, in ascending order.
pub proof fn lemma_listing_exists(set: Set<Seq<char>>)
    requires
        set.finite(),
    ensures
        ascending(listing(set)),
        listing(set).to_set() == set,
{
    let list = lemma_list(set);
    assert(ascending(list) && list.to_set() == set);
}

/// After some lines, finitely many modules have been read.
proof fn lemma_scan_finite(ls: Seq<Seq<char>>)
    ensures
        scan(ls).modules.finite(),
    decreases ls.len(),
{
    if ls.len() > 0 {
        lemma_scan_finite(ls.drop_last());
    }
}

/// A listing describes finitely many modules, so that they can be summed up.
pub proof fn lemma_listed_modules_finite(text: Seq<char>)
    ensures
        listed_modules(text).finite(),
        ascending(listing(listed_modules(text))),
        listing(listed_modules(text)).to_set() == listed_modules(text),
{
    lemma_scan_finite(crate::text::lines(text));
    lemma_listing_exists(listed_modules(text));
}

/// Whether a line is of a label, with a text behind it.
pub open spec fn is_labelled(raw: Seq<char>, label: Seq<char>, text: Seq<char>) -> bool {
    exists|rest: Seq<char>|
        crate::text::trimmed(raw) == #[trigger] (label + rest) && crate::text::trimmed(rest)
            == text
}

/// Whether a line tells nothing of a module: it is no heading of a device, and has none of
/// the four labels or nothing known behind it.
pub open spec fn is_silent(raw: Seq<char>) -> bool {
    let line = crate::text::trimmed(raw);
    ||| {
        &&& line != "Memory Device"@
        &&& !crate::text::starts_with(line, "Size:"@)
        &&& !crate::text::starts_with(line, "Type:"@)
        &&& !crate::text::starts_with(line, "Speed:"@)
        &&& !crate::text::starts_with(line, "Part Number:"@)
    }
    ||| is_labelled(raw, "Size:"@, "Unknown"@)
    ||| is_labelled(raw, "Size:"@, "No Module Installed"@)
    ||| is_labelled(raw, "Type:"@, "Unknown"@)
    ||| is_labelled(raw, "Speed:"@, "Unknown"@)
    ||| is_labelled(raw, "Part Number:"@, "Unknown"@)
    ||| is_labelled(raw, "Part Number:"@, ""@)
}

/// The labels begin differently, and none of them begins the heading of a device.
proof fn lemma_labels(line: Seq<char>)
    ensures
        crate::text::starts_with(line, "Size:"@) ==> line != "Memory Device"@
            && !crate::text::starts_with(line, "Type:"@) && !crate::text::starts_with(
            line,
            "Speed:"@,
        ) && !crate::text::starts_with(line, "Part Number:"@),
        crate::text::starts_with(line, "Type:"@) ==> line != "Memory Device"@
            && !crate::text::starts_with(line, "Speed:"@) && !crate::text::starts_with(
            line,
            "Part Number:"@,
        ),
        crate::text::starts_with(line, "Speed:"@) ==> line != "Memory Device"@
            && !crate::text::starts_with(line, "Part Number:"@),
        crate::text::starts_with(line, "Part Number:"@) ==> line != "Memory Device"@,
{
    reveal_strlit("Memory Device");
    reveal_strlit("Size:");
    reveal_strlit("Type:");
    reveal_strlit("Speed:");
    reveal_strlit("Part Number:");
    if crate::text::starts_with(line, "Size:"@) {
        assert(line.take(5)[0] == 'S' && line.take(5)[1] == 'i');
    }
    if crate::text::starts_with(line, "Type:"@) {
        assert(line.take(5)[0] == 'T');
    }
    if crate::text::starts_with(line, "Speed:"@) {
        assert(line.take(6)[0] == 'S' && line.take(6)[1] == 'p');
    }
    if crate::text::starts_with(line, "Part Number:"@) {
        assert(line.take(12)[0] == 'P');
    }
}

/// What stands behind the label of a line.
proof fn lemma_labelled(raw: Seq<char>, label: Seq<char>, text: Seq<char>)
    requires
        is_labelled(raw, label, text),
    ensures
        crate::text::starts_with(crate::text::trimmed(raw), label),
        behind(crate::text::trimmed(raw), label) == text,
{
    let rest = choose|rest: Seq<char>|
        crate::text::trimmed(raw) == #[trigger] (label + rest) && crate::text::trimmed(rest)
            == text;
    assert((label + rest).take(label.len() as int) =~= label);
    assert((label + rest).skip(label.len() as int) =~= rest);
}

/// The texts that say that something is not known.
proof fn lemma_unknown_texts()
    ensures
        "Unknown"@ != "No Module Installed"@,
        "Unknown"@.len() > 0,
        ""@.len() == 0,
{
    reveal_strlit("Unknown");
    reveal_strlit("No Module Installed");
    reveal_strlit("");
    assert("Unknown"@.len() == 7 && "No Module Installed"@.len() == 19);
}

/// A line that tells nothing leaves everything as it was.
proof fn lemma_silent_line(st: Scan, raw: Seq<char>)
    requires
        is_silent(raw),
    ensures
        scan_line(st, raw) == st,
{
    let line = crate::text::trimmed(raw);
    lemma_labels(line);
    lemma_unknown_texts();
    if is_labelled(raw, "Size:"@, "Unknown"@) {
        lemma_labelled(raw, "Size:"@, "Unknown"@);
    } else if is_labelled(raw, "Size:"@, "No Module Installed"@) {
        lemma_labelled(raw, "Size:"@, "No Module Installed"@);
    } else if is_labelled(raw, "Type:"@, "Unknown"@) {
        lemma_labelled(raw, "Type:"@, "Unknown"@);
    } else if is_labelled(raw, "Speed:"@, "Unknown"@) {
        lemma_labelled(raw, "Speed:"@, "Unknown"@);
    } else if is_labelled(raw, "Part Number:"@, "Unknown"@) {
        lemma_labelled(raw, "Part Number:"@, "Unknown"@);
    } else if is_labelled(raw, "Part Number:"@, ""@) {
        lemma_labelled(raw, "Part Number:"@, ""@);
    }
}

/// A line that tells nothing, among others.
proof fn lemma_scan_without(before: Seq<Seq<char>>, raw: Seq<char>, after: Seq<Seq<char>>)
    requires
        is_silent(raw),
    ensures
        scan(before + seq![raw] + after) == scan(before + after),
    decreases after.len(),
{
    let all = before + seq![raw] + after;
    if after.len() == 0 {
        assert(all.drop_last() =~= before);
        assert(before + after =~= before);
        lemma_silent_line(scan(before), raw);
    } else {
        lemma_scan_without(before, raw, after.drop_last());
        assert(all.drop_last() =~= before + seq![raw] + after.drop_last());
        assert((before + after).drop_last() =~= before + after.drop_last());
        assert(all.last() == after.last() && (before + after).last() == after.last());
    }
}

/// A line that is no heading of a device and has none of the four labels, or nothing known
/// behind one, can be added or taken away without changing which modules are listed.
pub proof fn lemma_silent_lines(
    text: Seq<char>,
    other: Seq<char>,
    before: Seq<Seq<char>>,
    raw: Seq<char>,
    after: Seq<Seq<char>>,
)
    requires
        crate::text::lines(text) == before + after,
        crate::text::lines(other) == before + seq![raw] + after,
        is_silent(raw),
    ensures
        listed_modules(other) == listed_modules(text),
{
    lemma_scan_without(before, raw, after);
}

/// Where on the lines of a device its properties stand, or -1 for one that is not told, and
/// what they are.
pub struct Device {
    pub lines: Seq<Seq<char>>,
    pub size_at: int,
    pub size: Seq<char>,
    pub kind_at: int,
    pub kind: Seq<char>,
    pub speed_at: int,
    pub speed: Seq<char>,
    pub part_at: int,
    pub part: Seq<char>,
}

impl Device {
    /// Each property that is told stands on its line and is known, the size is told, and all
    /// other lines tell nothing.
    pub open spec fn wf(self) -> bool {
        let ls = self.lines;
        &&& 0 <= self.size_at < ls.len()
        &&& is_labelled(ls[self.size_at], "Size:"@, self.size)
        &&& self.size != "Unknown"@ && self.size != "No Module Installed"@
        &&& -1 <= self.kind_at < ls.len()
        &&& self.kind_at >= 0 ==> is_labelled(ls[self.kind_at], "Type:"@, self.kind) && self.kind
            != "Unknown"@
        &&& -1 <= self.speed_at < ls.len()
        &&& self.speed_at >= 0 ==> is_labelled(ls[self.speed_at], "Speed:"@, self.speed)
            && self.speed != "Unknown"@
        &&& -1 <= self.part_at < ls.len()
        &&& self.part_at >= 0 ==> is_labelled(ls[self.part_at], "Part Number:"@, self.part)
            && self.part != "Unknown"@ && self.part.len() > 0
        &&& forall|i: int|
            0 <= i < ls.len() && i != self.size_at && i != self.kind_at && i != self.speed_at && i
                != self.part_at ==> is_silent(#[trigger] ls[i])
    }

    /// The description: the properties that are told, one after another, with a space before
    /// each but the first.
    pub open spec fn text(self) -> Seq<char> {
        self.size + (if self.kind_at >= 0 {
            seq![' '] + self.kind
        } else {
            Seq::empty()
        }) + (if self.speed_at >= 0 {
            seq![' '] + self.speed
        } else {
            Seq::empty()
        }) + (if self.part_at >= 0 {
            seq![' '] + self.part
        } else {
            Seq::empty()
        })
    }
}

/// What has been read of a device after `n` of its lines.
proof fn lemma_device_lines(before: Seq<Seq<char>>, heading: Seq<char>, d: Device, n: int)
    requires
        d.wf(),
        crate::text::trimmed(heading) == "Memory Device"@,
        0 <= n <= d.lines.len(),
    ensures
        ({
            let st = scan(before + seq![heading] + d.lines.take(n));
            &&& st.modules == scan_push(scan(before)).modules
            &&& st.size == (if d.size_at < n {
                Some(d.size)
            } else {
                None
            })
            &&& st.kind == (if 0 <= d.kind_at < n {
                Some(d.kind)
            } else {
                None
            })
            &&& st.speed == (if 0 <= d.speed_at < n {
                Some(d.speed)
            } else {
                None
            })
            &&& st.part == (if 0 <= d.part_at < n {
                Some(d.part)
            } else {
                None
            })
        }),
    decreases n,
{
    let all = before + seq![heading] + d.lines.take(n);
    if n == 0 {
        assert(all =~= before.push(heading));
        assert(all.drop_last() =~= before);
    } else {
        let i = n - 1;
        let raw = d.lines[i];
        lemma_device_lines(before, heading, d, i);
        assert(all.drop_last() =~= before + seq![heading] + d.lines.take(i));
        assert(all.last() == raw);
        let st = scan(all.drop_last());
        lemma_labels(crate::text::trimmed(raw));
        if i == d.size_at {
            lemma_labelled(raw, "Size:"@, d.size);
        }
        if i == d.kind_at {
            lemma_labelled(raw, "Type:"@, d.kind);
        }
        if i == d.speed_at {
            lemma_labelled(raw, "Speed:"@, d.speed);
        }
        if i == d.part_at {
            lemma_labelled(raw, "Part Number:"@, d.part);
        }
        if i != d.size_at && i != d.kind_at && i != d.speed_at && i != d.part_at {
            lemma_silent_line(st, raw);
        }
    }
}

/// A device more in a listing adds its module and no other, described by its size, kind,
/// speed and part number as far as they are told, whatever other lines there are.
pub proof fn lemma_device_is_listed(
    text: Seq<char>,
    other: Seq<char>,
    heading: Seq<char>,
    d: Device,
)
    requires
        d.wf(),
        crate::text::trimmed(heading) == "Memory Device"@,
        crate::text::lines(other) == crate::text::lines(text) + seq![heading] + d.lines,
    ensures
        listed_modules(other) == listed_modules(text).insert(d.text()),
{
    let before = crate::text::lines(text);
    lemma_device_lines(before, heading, d, d.lines.len() as int);
    assert(d.lines.take(d.lines.len() as int) =~= d.lines);
    let st = scan(crate::text::lines(other));
    lemma_module_text(st.size->0, st.kind, st.speed, st.part);
    assert(module_text(st.size->0, st.kind, st.speed, st.part) =~= d.text());
}

/// A description holds what is known, with a space before each but the size.
pub proof fn lemma_module_text(
    size: Seq<char>,
    kind: Option<Seq<char>>,
    speed: Option<Seq<char>>,
    part: Option<Seq<char>>,
)
    ensures
        module_text(size, kind, speed, part) == size + (match kind {
            Some(v) => seq![' '] + v,
            None => Seq::empty(),
        }) + (match speed {
            Some(v) => seq![' '] + v,
            None => Seq::empty(),
        }) + (match part {
            Some(v) => seq![' '] + v,
            None => Seq::empty(),
        }),
{
    reveal_strlit(" ");
    assert(" "@ =~= seq![' ']);
    let one = seq![size];
    let two = one + option_list(kind);
    let three = two + option_list(speed);
    let four = three + option_list(part);
    assert(crate::text::joined(one, " "@) == size);
    lemma_one_more(one, kind);
    lemma_one_more(two, speed);
    lemma_one_more(three, part);
    assert(module_text(size, kind, speed, part) == crate::text::joined(four, " "@));
}

/// What one more property adds to a description.
proof fn lemma_one_more(list: Seq<Seq<char>>, o: Option<Seq<char>>)
    requires
        list.len() > 0,
    ensures
        crate::text::joined(list + option_list(o), " "@) == crate::text::joined(list, " "@) + (
        match o {
            Some(v) => seq![' '] + v,
            None => Seq::empty(),
        }),
{
    reveal_strlit(" ");
    assert(" "@ =~= seq![' ']);
    if let Some(v) = o {
        assert(list + option_list(o) =~= list.push(v));
        assert(list.push(v).drop_last() =~= list);
        assert(crate::text::joined(list.push(v), " "@) =~= crate::text::joined(list, " "@) + (
        seq![' '] + v));
    } else {
        assert(list + option_list(o) =~= list);
        assert(crate::text::joined(list, " "@) + Seq::<char>::empty() =~= crate::text::joined(
            list,
            " "@,
        ));
    }
}

/// A device whose lines tell no size adds nothing, whatever else they tell.
pub proof fn lemma_empty_slot(
    text: Seq<char>,
    other: Seq<char>,
    heading: Seq<char>,
    block: Seq<Seq<char>>,
)
    requires
        crate::text::trimmed(heading) == "Memory Device"@,
        crate::text::lines(other) == crate::text::lines(text) + seq![heading] + block,
        forall|i: int|
            0 <= i < block.len() ==> crate::text::trimmed(#[trigger] block[i])
                != "Memory Device"@ && (is_silent(block[i]) || !crate::text::starts_with(
                crate::text::trimmed(block[i]),
                "Size:"@,
            )),
    ensures
        listed_modules(other) == listed_modules(text),
{
    lemma_empty_slot_lines(crate::text::lines(text), heading, block);
}

/// What has been read of a device whose lines tell no size.
proof fn lemma_empty_slot_lines(
    before: Seq<Seq<char>>,
    heading: Seq<char>,
    block: Seq<Seq<char>>,
)
    requires
        crate::text::trimmed(heading) == "Memory Device"@,
        forall|i: int|
            0 <= i < block.len() ==> crate::text::trimmed(#[trigger] block[i])
                != "Memory Device"@ && (is_silent(block[i]) || !crate::text::starts_with(
                crate::text::trimmed(block[i]),
                "Size:"@,
            )),
    ensures
        scan(before + seq![heading] + block).size is None,
        scan(before + seq![heading] + block).modules == scan_push(scan(before)).modules,
    decreases block.len(),
{
    let all = before + seq![heading] + block;
    if block.len() == 0 {
        assert(all =~= before.push(heading));
        assert(all.drop_last() =~= before);
    } else {
        let init = block.drop_last();
        assert forall|i: int| 0 <= i < init.len() implies crate::text::trimmed(
            #[trigger] init[i],
        ) != "Memory Device"@ && (is_silent(init[i]) || !crate::text::starts_with(
            crate::text::trimmed(init[i]),
            "Size:"@,
        )) by {
            assert(init[i] == block[i]);
        }
        lemma_empty_slot_lines(before, heading, init);
        assert(all.drop_last() =~= before + seq![heading] + init);
        let raw = block[block.len() - 1];
        assert(all.last() == raw);
        if is_silent(raw) {
            lemma_silent_line(scan(all.drop_last()), raw);
        }
    }
}

/// Lines before the first device do not make a module of their own, where they tell nothing.
pub proof fn lemma_nothing_listed(text: Seq<char>)
    requires
        forall|i: int|
            0 <= i < crate::text::lines(text).len() ==> is_silent(
                #[trigger] crate::text::lines(text)[i],
            ),
    ensures
        listed_modules(text) == Set::<Seq<char>>::empty(),
{
    lemma_silent_scan(crate::text::lines(text));
}

/// Nothing is read of lines that tell nothing.
proof fn lemma_silent_scan(ls: Seq<Seq<char>>)
    requires
        forall|i: int| 0 <= i < ls.len() ==> is_silent(#[trigger] ls[i]),
    ensures
        scan(ls) == scan_start(),
    decreases ls.len(),
{
    if ls.len() > 0 {
        let init = ls.drop_last();
        assert forall|i: int| 0 <= i < init.len() implies is_silent(#[trigger] init[i]) by {
            assert(init[i] == ls[i]);
        }
        lemma_silent_scan(init);
        assert(is_silent(ls[ls.len() - 1]));
        lemma_silent_line(scan(init), ls.last());
    }
}

/// The summary tells how many modules there are, and then all of them in ascending order
/// with a bar between each two.
pub proof fn lemma_summary(list: Seq<Seq<char>>)
    requires
        ascending(list),
    ensures
        summary(list.to_set()) == crate::number::decimal(list.len()) + " slot(s): "@
            + crate::text::joined(list, " | "@),
{
    assert(ascending(list) && list.to_set() == list.to_set());
    lemma_listing_unique(listing(list.to_set()), list);
}

/// The summary of one device is its description.
pub proof fn lemma_one_device(text: Seq<char>, heading: Seq<char>, d: Device)
    requires
        d.wf(),
        crate::text::trimmed(heading) == "Memory Device"@,
        crate::text::lines(text) == seq![heading] + d.lines,
    ensures
        listed_modules(text) == Set::<Seq<char>>::empty().insert(d.text()),
        summary(listed_modules(text)) == "1 slot(s): "@ + d.text(),
{
    let none = Seq::<char>::empty();
    assert(crate::text::lines(none) =~= Seq::empty());
    assert(crate::text::lines(none) + seq![heading] + d.lines =~= seq![heading] + d.lines);
    lemma_nothing_listed(none);
    lemma_device_is_listed(none, text, heading, d);
    let list = seq![d.text()];
    assert(list[0] == d.text());
    assert(list.to_set() =~= Set::<Seq<char>>::empty().insert(d.text()));
    lemma_summary(list);
    reveal_strlit(" slot(s): ");
    reveal_strlit("1 slot(s): ");
    assert(crate::number::decimal(1) =~= seq!['1']);
    assert(crate::number::decimal(1) + " slot(s): "@ =~= "1 slot(s): "@);
}

/// What `dmidecode` listed is summed up if it succeeded and listed a module; else each
/// failure is told.
pub proof fn lemma_dmidecode(out: CommandOutput, reason: String)
    ensures
        ({
            let listed = listed_modules(crate::process::lossy_text(out.stdout@));
            &&& out.success && listed.len() > 0 && listed.finite() ==> dmidecode_summary(Ok(out))
                == Ok::<Seq<char>, crate::error::DmidecodeErrorView>(summary(listed))
            &&& out.success && listed == Set::<Seq<char>>::empty() ==> dmidecode_summary(Ok(out))
                == Err::<Seq<char>, crate::error::DmidecodeErrorView>(
                crate::error::DmidecodeErrorView::NoModules,
            )
            &&& !out.success ==> dmidecode_summary(Ok(out)) == Err::<
                Seq<char>,
                crate::error::DmidecodeErrorView,
            >(crate::error::DmidecodeErrorView::Failed)
            &&& dmidecode_summary(Err(reason)) == Err::<
                Seq<char>,
                crate::error::DmidecodeErrorView,
            >(crate::error::DmidecodeErrorView::NotRun(reason@))
        }),
{
}

/// Texts are ordered by the first character in which they differ, and a text comes before
/// all that begin with it.
pub proof fn lemma_precedes(
    common: Seq<char>,
    a: char,
    x: Seq<char>,
    b: char,
    y: Seq<char>,
)
    requires
        a < b,
    ensures
        precedes(common + seq![a] + x, common + seq![b] + y),
        !precedes(common + seq![b] + y, common + seq![a] + x),
        precedes(common, common + seq![a] + x),
        !precedes(common + seq![a] + x, common),
        !precedes(common, common),
    decreases common.len(),
{
    let p = common + seq![a] + x;
    let q = common + seq![b] + y;
    if common.len() > 0 {
        let tail = common.drop_first();
        lemma_precedes(tail, a, x, b, y);
        assert(p.drop_first() =~= tail + seq![a] + x);
        assert(q.drop_first() =~= tail + seq![b] + y);
    }
}

/// Whether two readings differ at most in one property: the size, the kind, the speed or the
/// part number.
spec fn differ_at_most(a: Scan, b: Scan, label: Seq<char>) -> bool {
    &&& a.modules == b.modules
    &&& a.size == b.size || label == "Size:"@
    &&& a.kind == b.kind || label == "Type:"@
    &&& a.speed == b.speed || label == "Speed:"@
    &&& a.part == b.part || label == "Part Number:"@
}

/// Whether a text is one of the four labels.
pub open spec fn is_label(label: Seq<char>) -> bool {
    label == "Size:"@ || label == "Type:"@ || label == "Speed:"@ || label == "Part Number:"@
}

/// Whether what stands behind a label is known.
pub open spec fn is_known(label: Seq<char>, text: Seq<char>) -> bool {
    &&& text != "Unknown"@
    &&& label == "Size:"@ ==> text != "No Module Installed"@
    &&& label == "Part Number:"@ ==> text.len() > 0
}

/// A line of a label changes that property alone, and lines of no heading keep what differs.
proof fn lemma_differ_at_most(a: Scan, b: Scan, label: Seq<char>, raw: Seq<char>)
    requires
        differ_at_most(a, b, label),
        crate::text::trimmed(raw) != "Memory Device"@,
    ensures
        differ_at_most(scan_line(a, raw), scan_line(b, raw), label),
{
}

/// Of two lines with the same label in the description of a device, the later one counts.
pub proof fn lemma_later_line_counts(
    text: Seq<char>,
    other: Seq<char>,
    label: Seq<char>,
    before: Seq<Seq<char>>,
    first: Seq<char>,
    between: Seq<Seq<char>>,
    second: Seq<char>,
    value: Seq<char>,
    after: Seq<Seq<char>>,
)
    requires
        is_label(label),
        crate::text::starts_with(crate::text::trimmed(first), label),
        is_labelled(second, label, value),
        is_known(label, value),
        forall|i: int|
            0 <= i < between.len() ==> crate::text::trimmed(#[trigger] between[i])
                != "Memory Device"@,
        crate::text::lines(text) == before + between + seq![second] + after,
        crate::text::lines(other) == before + seq![first] + between + seq![second] + after,
    ensures
        listed_modules(other) == listed_modules(text),
{
    lemma_first_is_forgotten(label, before, first, between);
    let with = before + seq![first] + between;
    let without = before + between;
    lemma_labelled(second, label, value);
    lemma_labels(crate::text::trimmed(second));
    assert(with.push(second).drop_last() =~= with);
    assert(without.push(second).drop_last() =~= without);
    lemma_label_texts();
    assert(scan(with.push(second)) == scan(without.push(second)));
    lemma_same_from_here(with.push(second), without.push(second), after);
    assert(with.push(second) + after =~= before + seq![first] + between + seq![second] + after);
    assert(without.push(second) + after =~= before + between + seq![second] + after);
}

/// The four labels are four.
proof fn lemma_label_texts()
    ensures
        "Size:"@ != "Type:"@,
        "Size:"@ != "Speed:"@,
        "Size:"@ != "Part Number:"@,
        "Type:"@ != "Speed:"@,
        "Type:"@ != "Part Number:"@,
        "Speed:"@ != "Part Number:"@,
{
    reveal_strlit("Size:");
    reveal_strlit("Type:");
    reveal_strlit("Speed:");
    reveal_strlit("Part Number:");
    assert("Size:"@[0] == 'S' && "Type:"@[0] == 'T' && "Part Number:"@[0] == 'P');
    assert("Speed:"@[0] == 'S' && "Size:"@[1] == 'i' && "Speed:"@[1] == 'p');
}

/// A line of a label leaves its property alone different, as long as no device follows.
proof fn lemma_first_is_forgotten(
    label: Seq<char>,
    before: Seq<Seq<char>>,
    first: Seq<char>,
    between: Seq<Seq<char>>,
)
    requires
        is_label(label),
        crate::text::starts_with(crate::text::trimmed(first), label),
        forall|i: int|
            0 <= i < between.len() ==> crate::text::trimmed(#[trigger] between[i])
                != "Memory Device"@,
    ensures
        differ_at_most(scan(before + seq![first] + between), scan(before + between), label),
    decreases between.len(),
{
    let with = before + seq![first] + between;
    let without = before + between;
    if between.len() == 0 {
        assert(with.drop_last() =~= before);
        assert(without =~= before);
        lemma_labels(crate::text::trimmed(first));
    } else {
        let init = between.drop_last();
        assert forall|i: int| 0 <= i < init.len() implies crate::text::trimmed(
            #[trigger] init[i],
        ) != "Memory Device"@ by {
            assert(init[i] == between[i]);
        }
        lemma_first_is_forgotten(label, before, first, init);
        assert(with.drop_last() =~= before + seq![first] + init);
        assert(without.drop_last() =~= before + init);
        let raw = between[between.len() - 1];
        assert(with.last() == raw && without.last() == raw);
        lemma_differ_at_most(scan(with.drop_last()), scan(without.drop_last()), label, raw);
    }
}

/// What has been read the same is read on the same.
proof fn lemma_same_from_here(a: Seq<Seq<char>>, b: Seq<Seq<char>>, after: Seq<Seq<char>>)
    requires
        scan(a) == scan(b),
    ensures
        scan(a + after) == scan(b + after),
    decreases after.len(),
{
    if after.len() == 0 {
        assert(a + after =~= a);
        assert(b + after =~= b);
    } else {
        lemma_same_from_here(a, b, after.drop_last());
        assert((a + after).drop_last() =~= a + after.drop_last());
        assert((b + after).drop_last() =~= b + after.drop_last());
        assert((a + after).last() == after.last() && (b + after).last() == after.last());
    }
}

} // verus!
