//! The processes that use the processor most.

use vstd::prelude::*;

use crate::double::Double;

verus! {

/// One process of the list that is shown: its share of processor time in per cent, its
/// resident memory and its command line.
#[derive(Debug)]
pub struct ProcessInfo {
    pub pid: i32,
    pub cpu_usage: Double,
    pub rss_bytes: u64,
    pub cmdline: String,
}

/// [`ProcessInfo`] with its number and text as mathematical values.
pub struct ProcessInfoView {
    pub pid: i32,
    pub cpu_usage: int,
    pub rss_bytes: u64,
    pub cmdline: Seq<char>,
}

impl View for ProcessInfo {
    type V = ProcessInfoView;

    open spec fn view(&self) -> ProcessInfoView {
        ProcessInfoView {
            pid: self.pid,
            cpu_usage: self.cpu_usage@,
            rss_bytes: self.rss_bytes,
            cmdline: self.cmdline@,
        }
    }
}

impl ProcessInfo {
    /// The share is a number that can be shown.
    pub open spec fn wf(self) -> bool {
        &&& self.cpu_usage.wf()
        &&& !self.cpu_usage.negative
        &&& -200 <= self.cpu_usage.exponent <= 40
    }
}

/// The views of a list of processes.
pub open spec fn info_views(list: Seq<ProcessInfo>) -> Seq<ProcessInfoView> {
    Seq::new(list.len(), |i: int| list[i]@)
}

/// Whether process `a` of a list ranks ahead of process `b`: by processor time, then by
/// resident memory, then as they stand in the list.
pub open spec fn ahead(items: Seq<ProcessInfoView>, a: int, b: int) -> bool {
    let x = items[a];
    let y = items[b];
    ||| x.cpu_usage > y.cpu_usage
    ||| x.cpu_usage == y.cpu_usage && x.rss_bytes > y.rss_bytes
    ||| x.cpu_usage == y.cpu_usage && x.rss_bytes == y.rss_bytes && a < b
}

/// Whether `order` names every process of a list, each ahead of all that follow it.
pub open spec fn is_ranking(items: Seq<ProcessInfoView>, order: Seq<int>) -> bool {
    &&& order.len() == items.len()
    &&& forall|i: int| 0 <= i < order.len() ==> 0 <= #[trigger] order[i] < items.len()
    &&& forall|k: int| 0 <= k < items.len() ==> #[trigger] order.contains(k)
    &&& forall|i: int, j: int|
        0 <= i < j < order.len() ==> ahead(items, #[trigger] order[i], #[trigger] order[j])
}

/// The ranking of a list.
pub open spec fn ranking(items: Seq<ProcessInfoView>) -> Seq<int> {
    choose|order: Seq<int>| #[trigger] is_ranking(items, order)
}

/// The ten processes that rank first, or all if there are fewer.
pub open spec fn top_ten(items: Seq<ProcessInfoView>) -> Seq<ProcessInfoView> {
    let n = if items.len() < 10 {
        items.len()
    } else {
        10
    };
    Seq::new(n, |i: int| items[ranking(items)[i]])
}

/// A list has one ranking only.
pub proof fn lemma_ranking_unique(items: Seq<ProcessInfoView>, a: Seq<int>, b: Seq<int>)
    requires
        is_ranking(items, a),
        is_ranking(items, b),
    ensures
        a == b,
{
    lemma_same_order(items, a, b, a.len() as int);
    assert(a =~= b);
}

/// Two rankings agree on their first `n` places.
proof fn lemma_same_order(items: Seq<ProcessInfoView>, a: Seq<int>, b: Seq<int>, n: int)
    requires
        is_ranking(items, a),
        is_ranking(items, b),
        0 <= n <= items.len(),
    ensures
        forall|i: int| 0 <= i < n ==> a[i] == b[i],
    decreases n,
{
    if n > 0 {
        let k = n - 1;
        lemma_same_order(items, a, b, k);
        if a[k] != b[k] {
            assert(b.contains(a[k]));
            let i = choose|i: int| 0 <= i < b.len() && b[i] == a[k];
            assert(a.contains(b[k]));
            let j = choose|j: int| 0 <= j < a.len() && a[j] == b[k];
            if i < k {
                assert(a[i] == b[i]);
                assert(ahead(items, a[i], a[k]));
            }
            if j < k {
                assert(a[j] == b[j]);
                assert(ahead(items, b[j], b[k]));
            }
            assert(ahead(items, b[k], b[i]));
            assert(ahead(items, a[k], a[j]));
        }
    }
}

/// A ranking of the first `n` processes becomes one of the first `n + 1`, where process `n`
/// is put behind those ahead of it and before one that it is ahead of.
proof fn lemma_insert(items: Seq<ProcessInfoView>, order: Seq<int>, n: int, p: int)
    requires
        0 <= n < items.len(),
        is_ranking(items.take(n), order),
        0 <= p <= n,
        forall|j: int| 0 <= j < p ==> ahead(items, #[trigger] order[j], n),
        p < n ==> ahead(items, n, order[p]),
    ensures
        is_ranking(items.take(n + 1), order.insert(p, n)),
{
    let seen = items.take(n);
    let next = items.take(n + 1);
    let after = order.insert(p, n);
    assert forall|k: int| 0 <= k < next.len() implies #[trigger] after.contains(k) by {
        if k == n {
            assert(after[p] == k);
        } else {
            assert(order.contains(k));
            let j = choose|j: int| 0 <= j < order.len() && order[j] == k;
            if j < p {
                assert(after[j] == k);
            } else {
                assert(after[j + 1] == k);
            }
        }
    }
    assert forall|j: int, k: int| 0 <= j < k < after.len() implies ahead(
        next,
        #[trigger] after[j],
        #[trigger] after[k],
    ) by {
        if k < p {
            assert(ahead(seen, order[j], order[k]));
        } else if k == p {
            assert(ahead(items, order[j], n));
        } else if j == p {
            assert(after[k] == order[k - 1]);
            if k - 1 > p {
                assert(ahead(seen, order[p], order[k - 1]));
            }
        } else if j < p {
            assert(ahead(seen, order[j], order[k - 1]));
        } else {
            assert(ahead(seen, order[j - 1], order[k - 1]));
        }
    }
}

/// The first place of a ranking, from `p` on, whose process is not ahead of process `n`.
proof fn lemma_place(items: Seq<ProcessInfoView>, order: Seq<int>, n: int, p: int) -> (res: int)
    requires
        0 <= n < items.len(),
        is_ranking(items.take(n), order),
        0 <= p <= n,
        forall|j: int| 0 <= j < p ==> ahead(items, #[trigger] order[j], n),
    ensures
        0 <= res <= n,
        forall|j: int| 0 <= j < res ==> ahead(items, #[trigger] order[j], n),
        res < n ==> ahead(items, n, order[res]),
    decreases n - p,
{
    if p < n && ahead(items, order[p], n) {
        lemma_place(items, order, n, p + 1)
    } else {
        p
    }
}

/// The first `n` processes of a list have a ranking.
proof fn lemma_ranking_of_first(items: Seq<ProcessInfoView>, n: int) -> (order: Seq<int>)
    requires
        0 <= n <= items.len(),
    ensures
        is_ranking(items.take(n), order),
    decreases n,
{
    if n == 0 {
        Seq::empty()
    } else {
        let order = lemma_ranking_of_first(items, n - 1);
        let p = lemma_place(items, order, n - 1, 0);
        lemma_insert(items, order, n - 1, p);
        order.insert(p, n - 1)
    }
}

/// Every list of processes has a ranking.
pub proof fn lemma_ranking_exists(items: Seq<ProcessInfoView>)
    ensures
        is_ranking(items, ranking(items)),
{
    let order = lemma_ranking_of_first(items, items.len() as int);
    assert(items.take(items.len() as int) =~= items);
}

/// The list that is shown has ten processes at most, in descending order of processor time
/// and, where that is equal, of resident memory. No process that is left out has used more
/// processor time than one that is shown, nor the same and more memory.
pub proof fn lemma_top_ten(items: Seq<ProcessInfoView>)
    ensures
        ({
            let shown = top_ten(items);
            &&& shown.len() <= 10
            &&& shown.len() == items.len() || shown.len() == 10
            &&& forall|i: int, j: int|
                0 <= i < j < shown.len() ==> {
                    ||| (#[trigger] shown[i]).cpu_usage > (#[trigger] shown[j]).cpu_usage
                    ||| shown[i].cpu_usage == shown[j].cpu_usage && shown[i].rss_bytes
                        >= shown[j].rss_bytes
                }
            &&& forall|i: int|
                0 <= i < shown.len() ==> items.contains(#[trigger] shown[i])
            &&& forall|k: int, i: int|
                0 <= k < items.len() && 0 <= i < shown.len() ==> {
                    ||| shown.contains(#[trigger] items[k])
                    ||| (#[trigger] shown[i]).cpu_usage > items[k].cpu_usage
                    ||| shown[i].cpu_usage == items[k].cpu_usage && shown[i].rss_bytes
                        >= items[k].rss_bytes
                }
        }),
{
    lemma_ranking_exists(items);
    let order = ranking(items);
    let shown = top_ten(items);
    assert forall|i: int, j: int| 0 <= i < j < shown.len() implies {
        ||| (#[trigger] shown[i]).cpu_usage > (#[trigger] shown[j]).cpu_usage
        ||| shown[i].cpu_usage == shown[j].cpu_usage && shown[i].rss_bytes >= shown[j].rss_bytes
    } by {
        assert(ahead(items, order[i], order[j]));
    }
    assert forall|k: int, i: int| 0 <= k < items.len() && 0 <= i < shown.len() implies {
        ||| shown.contains(#[trigger] items[k])
        ||| (#[trigger] shown[i]).cpu_usage > items[k].cpu_usage
        ||| shown[i].cpu_usage == items[k].cpu_usage && shown[i].rss_bytes >= items[k].rss_bytes
    } by {
        assert(order.contains(k));
        let j = choose|j: int| 0 <= j < order.len() && order[j] == k;
        if j < shown.len() {
            assert(shown[j] == items[k]);
        } else {
            assert(ahead(items, order[i], order[j]));
        }
    }
}

/// Whether a process ranks ahead of one that stands before it in the list.
fn overtakes(later: &ProcessInfo, earlier: &ProcessInfo) -> (res: bool)
    requires
        later.wf(),
        earlier.wf(),
    ensures
        res == (later@.cpu_usage > earlier@.cpu_usage || (later@.cpu_usage == earlier@.cpu_usage
            && later.rss_bytes > earlier.rss_bytes)),
{
    if earlier.cpu_usage.less(later.cpu_usage) {
        true
    } else if later.cpu_usage.less(earlier.cpu_usage) {
        false
    } else {
        later.rss_bytes > earlier.rss_bytes
    }
}

/// The places as integers.
spec fn places(order: Seq<usize>) -> Seq<int> {
    Seq::new(order.len(), |i: int| order[i] as int)
}

/// Ranks a list of processes.
fn rank(items: &Vec<ProcessInfo>) -> (res: Vec<usize>)
    requires
        forall|i: int| 0 <= i < items.len() ==> (#[trigger] items@[i]).wf(),
    ensures
        is_ranking(info_views(items@), places(res@)),
{
    let mut order: Vec<usize> = Vec::new();
    let ghost all = info_views(items@);
    let mut i: usize = 0;
    assert(places(order@) =~= Seq::empty());
    while i < items.len()
        invariant
            i <= items.len(),
            all == info_views(items@),
            forall|k: int| 0 <= k < items.len() ==> (#[trigger] items@[k]).wf(),
            is_ranking(all.take(i as int), places(order@)),
        decreases items.len() - i,
    {
        let ghost before = places(order@);
        let ghost seen = all.take(i as int);
        let mut p: usize = 0;
        while p < order.len() && !overtakes(&items[i], &items[order[p]])
            invariant
                i < items.len(),
                p <= order.len(),
                all == info_views(items@),
                seen == all.take(i as int),
                before == places(order@),
                forall|k: int| 0 <= k < items.len() ==> (#[trigger] items@[k]).wf(),
                is_ranking(seen, before),
                forall|j: int| 0 <= j < p ==> ahead(all, #[trigger] before[j], i as int),
                forall|j: int|
                    0 <= j < order.len() ==> (#[trigger] order@[j]) == before[j] && order@[j] < i,
            decreases order.len() - p,
        {
            proof {
                assert(before[p as int] == order@[p as int]);
                assert(all[before[p as int]] == items@[order@[p as int] as int]@);
                assert(all[i as int] == items@[i as int]@);
            }
            p = p + 1;
        }
        proof {
            if p < order.len() {
                assert(before[p as int] == order@[p as int]);
                assert(all[before[p as int]] == items@[order@[p as int] as int]@);
                assert(all[i as int] == items@[i as int]@);
                assert(ahead(all, i as int, before[p as int]));
            }
        }
        order.insert(p, i);
        proof {
            lemma_insert(all, before, i as int, p as int);
            assert(places(order@) =~= before.insert(p as int, i as int));
        }
        i = i + 1;
    }
    assert(all.take(i as int) =~= all);
    order
}

/// Selects the ten processes that rank first.
pub fn top_processes(items: &Vec<ProcessInfo>) -> (res: Vec<ProcessInfo>)
    requires
        forall|i: int| 0 <= i < items.len() ==> (#[trigger] items@[i]).wf(),
    ensures
        info_views(res@) == top_ten(info_views(items@)),
        forall|i: int| 0 <= i < res.len() ==> (#[trigger] res@[i]).wf(),
{
    let order = rank(items);
    let ghost all = info_views(items@);
    let mut res: Vec<ProcessInfo> = Vec::new();
    proof {
        lemma_ranking_unique(all, ranking(all), places(order@));
    }
    let mut i: usize = 0;
    while i < order.len() && i < 10
        invariant
            i <= order.len() == items.len(),
            i <= 10,
            all == info_views(items@),
            places(order@) == ranking(all),
            is_ranking(all, ranking(all)),
            forall|k: int| 0 <= k < items.len() ==> (#[trigger] items@[k]).wf(),
            forall|k: int| 0 <= k < res.len() ==> (#[trigger] res@[k]).wf(),
            info_views(res@) == Seq::new(i as nat, |k: int| all[ranking(all)[k]]),
        decreases order.len() - i,
    {
        let ghost before = info_views(res@);
        assert(places(order@)[i as int] == order@[i as int]);
        let item = &items[order[i]];
        res.push(
            ProcessInfo {
                pid: item.pid,
                cpu_usage: item.cpu_usage,
                rss_bytes: item.rss_bytes,
                cmdline: item.cmdline.clone(),
            },
        );
        assert(info_views(res@) =~= before.push(item@));
        i = i + 1;
        assert(info_views(res@) =~= Seq::new(i as nat, |k: int| all[ranking(all)[k]]));
    }
    assert(info_views(res@) =~= top_ten(all));
    res
}

/// The processes that are shown are the ones that rank first, each once and in their order;
/// all others rank behind every one of them.
pub proof fn lemma_shown_places(items: Seq<ProcessInfoView>) -> (at: Seq<int>)
    ensures
        at.len() == top_ten(items).len(),
        at.len() == (if items.len() < 10 {
            items.len()
        } else {
            10
        }),
        forall|i: int|
            0 <= i < at.len() ==> 0 <= #[trigger] at[i] < items.len() && top_ten(items)[i]
                == items[at[i]],
        forall|i: int, j: int|
            0 <= i < j < at.len() ==> ahead(items, #[trigger] at[i], #[trigger] at[j]),
        forall|k: int, i: int|
            0 <= k < items.len() && !at.contains(k) && 0 <= i < at.len() ==> #[trigger] ahead(
                items,
                at[i],
                k,
            ),
{
    lemma_ranking_exists(items);
    let order = ranking(items);
    let at = order.take(top_ten(items).len() as int);
    assert forall|k: int, i: int|
        0 <= k < items.len() && !at.contains(k) && 0 <= i < at.len() implies #[trigger] ahead(
        items,
        at[i],
        k,
    ) by {
        assert(order.contains(k));
        let j = choose|j: int| 0 <= j < order.len() && order[j] == k;
        if j < at.len() {
            assert(at[j] == k);
        }
        assert(ahead(items, order[i], order[j]));
    }
    at
}

} // verus!
