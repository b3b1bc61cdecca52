//! Keep-lists: which positions survive a compaction, and ways to compose them.

use vstd::prelude::*;

verus! {

/// The positions that survive, ascending.
pub enum KeepSpec {
    /// Every head keeps the same positions.
    LayerWide(Vec<usize>),
    /// Each head keeps its own positions.
    PerHead(Vec<Vec<usize>>),
}

/// The parts of a keep by importance: an always-kept prefix, the most recent tokens, and the
/// heaviest tokens between them.
#[derive(Clone, Copy, Debug)]
pub struct KeepTopK {
    pub current: usize,
    pub prefix: usize,
    pub recent: usize,
    pub heavy: usize,
}

impl KeepTopK {
    /// End of the prefix that is always kept.
    pub open spec fn low(self) -> int {
        if self.prefix <= self.current {
            self.prefix as int
        } else {
            self.current as int
        }
    }

    /// Start of the recent tokens, which never reaches back into the prefix.
    pub open spec fn high(self) -> int {
        if self.current - self.recent > self.low() {
            self.current - self.recent
        } else {
            self.low()
        }
    }
}

/// `q` is ahead of `p`: a higher rank, or an equal one at an earlier position.
pub open spec fn ahead(ranks: Seq<u64>, q: int, p: int) -> bool {
    ranks[q] > ranks[p] || (ranks[q] == ranks[p] && q < p)
}

/// How many positions in `[low, high)` are ahead of `p`.
pub open spec fn ahead_count(ranks: Seq<u64>, low: int, high: int, p: int) -> nat
    decreases high - low,
{
    if high <= low {
        0
    } else {
        ahead_count(ranks, low, high - 1, p) + (if ahead(ranks, high - 1, p) {
            1nat
        } else {
            0nat
        })
    }
}

/// Whether a keep by importance keeps `p`.
pub open spec fn top_k_keeps(k: KeepTopK, ranks: Seq<u64>, p: int) -> bool {
    &&& 0 <= p < k.current
    &&& (p < k.low() || p >= k.high() || ahead_count(ranks, k.low(), k.high(), p) < k.heavy)
}

/// Ascending without repeats.
pub open spec fn ascending(list: Seq<usize>) -> bool {
    forall|i: int, j: int| 0 <= i < j < list.len() ==> #[trigger] list[i] < #[trigger] list[j]
}

/// How many positions in `[low, high)` are ahead of `p`.
fn count_ahead(ranks: &Vec<u64>, low: usize, high: usize, p: usize) -> (n: usize)
    requires
        low <= high <= ranks@.len(),
        p < ranks@.len(),
    ensures
        n == ahead_count(ranks@, low as int, high as int, p as int),
{
    let mut n: usize = 0;
    let mut q: usize = low;
    while q < high
        invariant
            low <= q <= high <= ranks@.len(),
            p < ranks@.len(),
            n <= q - low,
            n == ahead_count(ranks@, low as int, q as int, p as int),
        decreases high - q,
    {
        if ranks[q] > ranks[p] || (ranks[q] == ranks[p] && q < p) {
            n = n + 1;
        }
        q = q + 1;
    }
    n
}

/// The positions of a keep by importance: the prefix, the `heavy` highest-ranked positions between
/// the prefix and the recent tokens (the earlier one of equals), and the recent tokens. `ranks` is
/// one number per position, higher for a token worth more; `None` when it is too short.
pub fn keep_top_k(k: KeepTopK, ranks: &Vec<u64>) -> (r: Option<Vec<usize>>)
    ensures
        r is Some <==> ranks@.len() >= k.current,
        r matches Some(keep) ==> {
            &&& ascending(keep@)
            &&& forall|i: int|
                0 <= i < keep@.len() ==> top_k_keeps(k, ranks@, #[trigger] keep@[i] as int)
            &&& forall|p: usize| top_k_keeps(k, ranks@, p as int) ==> #[trigger] keep@.contains(p)
        },
{
    if ranks.len() < k.current {
        return None;
    }
    let low: usize = if k.prefix <= k.current {
        k.prefix
    } else {
        k.current
    };
    let tail: usize = k.current.saturating_sub(k.recent);
    let high: usize = if tail > low {
        tail
    } else {
        low
    };
    let mut keep: Vec<usize> = Vec::new();
    let mut p: usize = 0;
    while p < k.current
        invariant
            p <= k.current <= ranks@.len(),
            low == k.low(),
            high == k.high(),
            low <= high <= k.current,
            ascending(keep@),
            forall|i: int|
                0 <= i < keep@.len() ==> keep@[i] < p && top_k_keeps(
                    k,
                    ranks@,
                    #[trigger] keep@[i] as int,
                ),
            forall|q: usize|
                q < p && top_k_keeps(k, ranks@, q as int) ==> #[trigger] keep@.contains(q),
        decreases k.current - p,
    {
        let ghost before = keep@;
        if p < low || p >= high || count_ahead(ranks, low, high, p) < k.heavy {
            keep.push(p);
            proof {
                assert(keep@[before.len() as int] == p);
                assert forall|q: usize|
                    q < p + 1 && top_k_keeps(
                        k,
                        ranks@,
                        q as int,
                    ) implies #[trigger] keep@.contains(q) by {
                    if q < p {
                        assert(before.contains(q));
                        let i = choose|i: int| 0 <= i < before.len() && before[i] == q;
                        assert(keep@[i] == q);
                    }
                }
            }
        }
        p = p + 1;
    }
    Some(keep)
}

/// Whether a list holds `x`.
pub fn list_contains(list: &Vec<usize>, x: usize) -> (r: bool)
    ensures
        r == list@.contains(x),
{
    let mut i: usize = 0;
    while i < list.len()
        invariant
            i <= list@.len(),
            forall|j: int| 0 <= j < i ==> #[trigger] list@[j] != x,
        decreases list@.len() - i,
    {
        if list[i] == x {
            assert(list@[i as int] == x);
            return true;
        }
        i = i + 1;
    }
    false
}

/// Every list holds `x`.
pub open spec fn in_all(lists: Seq<Seq<usize>>, x: usize) -> bool {
    forall|i: int| 0 <= i < lists.len() ==> (#[trigger] lists[i]).contains(x)
}

/// Some list holds `x`.
pub open spec fn in_some(lists: Seq<Seq<usize>>, x: usize) -> bool {
    exists|i: int| 0 <= i < lists.len() && (#[trigger] lists[i]).contains(x)
}

/// Puts `x` into an ascending list, unless it is there.
fn insert_ascending(list: &mut Vec<usize>, x: usize)
    requires
        ascending(old(list)@),
    ensures
        ascending(final(list)@),
        forall|y: usize| #[trigger]
            final(list)@.contains(y) <==> (old(list)@.contains(y) || y == x),
{
    let ghost before = list@;
    let mut i: usize = 0;
    while i < list.len() && list[i] < x
        invariant
            i <= list@.len(),
            list@ == before,
            forall|j: int| 0 <= j < i ==> #[trigger] list@[j] < x,
        decreases list@.len() - i,
    {
        i = i + 1;
    }
    if i < list.len() && list[i] == x {
        assert(before[i as int] == x);
        return;
    }
    list.insert(i, x);
    proof {
        let after = list@;
        assert(after == before.insert(i as int, x));
        assert forall|a: int, b: int| 0 <= a < b < after.len() implies #[trigger] after[a]
            < #[trigger] after[b] by {
            if b == i {
                assert(after[a] == before[a]);
            } else if a == i {
                assert(after[b] == before[b - 1]);
                if b - 1 > i {
                    assert(before[i as int] < before[b - 1]);
                }
            } else if a < i && b < i {
                assert(before[a] < before[b]);
            } else if a < i {
                assert(before[a] < before[b - 1]);
            } else {
                assert(before[a - 1] < before[b - 1]);
            }
        }
        assert forall|y: usize| #[trigger] after.contains(y) <==> (before.contains(y) || y == x) by {
            if after.contains(y) {
                let j = choose|j: int| 0 <= j < after.len() && after[j] == y;
                if j < i {
                    assert(before[j] == y);
                } else if j > i {
                    assert(before[j - 1] == y);
                }
            }
            if before.contains(y) {
                let j = choose|j: int| 0 <= j < before.len() && before[j] == y;
                if j < i {
                    assert(after[j] == y);
                } else {
                    assert(after[j + 1] == y);
                }
            }
            if y == x {
                assert(after[i as int] == y);
            }
        }
    }
}

/// The positions that every list holds, ascending. No list holds nothing.
pub fn keep_intersect_of(lists: &Vec<Vec<usize>>) -> (keep: Vec<usize>)
    ensures
        ascending(keep@),
        lists@.len() == 0 ==> keep@.len() == 0,
        lists@.len() > 0 ==> forall|x: usize| #[trigger]
            keep@.contains(x) <==> in_all(lists.deep_view(), x),
{
    let ghost views = lists.deep_view();
    let mut keep: Vec<usize> = Vec::new();
    if lists.len() == 0 {
        return keep;
    }
    proof {
        assert forall|k: int| 0 <= k < lists@.len() implies #[trigger] views[k] == lists@[k]@ by {
            assert(views[k] =~= lists@[k]@);
        }
        assert(views[0] == lists@[0]@);
    }
    let mut i: usize = 0;
    while i < lists[0].len()
        invariant
            0 < lists@.len(),
            i <= lists@[0]@.len(),
            views == lists.deep_view(),
            forall|k: int| 0 <= k < lists@.len() ==> #[trigger] views[k] == lists@[k]@,
            ascending(keep@),
            forall|x: usize| #[trigger]
                keep@.contains(x) <==> (in_all(views, x) && exists|j: int|
                    0 <= j < i && #[trigger] lists@[0]@[j] == x),
        decreases lists@[0]@.len() - i,
    {
        let x: usize = lists[0][i];
        let mut everywhere: bool = true;
        let mut k: usize = 0;
        while k < lists.len()
            invariant
                k <= lists@.len(),
                views == lists.deep_view(),
                forall|a: int| 0 <= a < lists@.len() ==> #[trigger] views[a] == lists@[a]@,
                everywhere == (forall|a: int| 0 <= a < k ==> (#[trigger] views[a]).contains(x)),
            decreases lists@.len() - k,
        {
            assert(views[k as int] == lists@[k as int]@);
            if !list_contains(&lists[k], x) {
                everywhere = false;
            }
            k = k + 1;
        }
        let ghost before = keep@;
        if everywhere {
            insert_ascending(&mut keep, x);
        }
        proof {
            assert(everywhere == in_all(views, x));
            assert forall|y: usize| #[trigger]
                keep@.contains(y) <==> (in_all(views, y) && exists|j: int|
                    0 <= j < i + 1 && #[trigger] lists@[0]@[j] == y) by {
                if exists|j: int| 0 <= j < i + 1 && #[trigger] lists@[0]@[j] == y {
                    let j = choose|j: int| 0 <= j < i + 1 && #[trigger] lists@[0]@[j] == y;
                    if j == i {
                        assert(y == x);
                    }
                }
                if y == x {
                    assert(lists@[0]@[i as int] == y);
                }
            }
        }
        i = i + 1;
    }
    proof {
        assert forall|x: usize| #[trigger] keep@.contains(x) <==> in_all(views, x) by {
            if in_all(views, x) {
                assert(views[0].contains(x));
                let j = choose|j: int| 0 <= j < views[0].len() && views[0][j] == x;
                assert(lists@[0]@[j] == x);
            }
        }
    }
    keep
}

/// The positions that some list holds, ascending.
pub fn keep_union_of(lists: &Vec<Vec<usize>>) -> (keep: Vec<usize>)
    ensures
        ascending(keep@),
        forall|x: usize| #[trigger] keep@.contains(x) <==> in_some(lists.deep_view(), x),
{
    let ghost views = lists.deep_view();
    proof {
        assert forall|k: int| 0 <= k < lists@.len() implies #[trigger] views[k] == lists@[k]@ by {
            assert(views[k] =~= lists@[k]@);
        }
    }
    let mut keep: Vec<usize> = Vec::new();
    let mut k: usize = 0;
    while k < lists.len()
        invariant
            k <= lists@.len(),
            views == lists.deep_view(),
            forall|a: int| 0 <= a < lists@.len() ==> #[trigger] views[a] == lists@[a]@,
            ascending(keep@),
            forall|x: usize| #[trigger] keep@.contains(x) <==> in_some(views.take(k as int), x),
        decreases lists@.len() - k,
    {
        let mut i: usize = 0;
        while i < lists[k as usize].len()
            invariant
                k < lists@.len(),
                i <= lists@[k as int]@.len(),
                views == lists.deep_view(),
                forall|a: int| 0 <= a < lists@.len() ==> #[trigger] views[a] == lists@[a]@,
                ascending(keep@),
                forall|x: usize| #[trigger]
                    keep@.contains(x) <==> (in_some(views.take(k as int), x) || exists|j: int|
                        0 <= j < i && #[trigger] lists@[k as int]@[j] == x),
            decreases lists@[k as int]@.len() - i,
        {
            let x: usize = lists[k][i];
            insert_ascending(&mut keep, x);
            proof {
                assert(lists@[k as int]@[i as int] == x);
            }
            i = i + 1;
        }
        proof {
            let now = views.take(k as int);
            let next = views.take(k + 1);
            assert(views[k as int] == lists@[k as int]@);
            assert forall|x: usize| #[trigger] keep@.contains(x) <==> in_some(next, x) by {
                if in_some(next, x) {
                    let a = choose|a: int| 0 <= a < next.len() && (#[trigger] next[a]).contains(x);
                    if a < k {
                        assert(now[a].contains(x));
                    } else {
                        let j = choose|j: int| 0 <= j < next[a].len() && next[a][j] == x;
                        assert(lists@[k as int]@[j] == x);
                    }
                }
                if in_some(now, x) {
                    let a = choose|a: int| 0 <= a < now.len() && (#[trigger] now[a]).contains(x);
                    assert(next[a].contains(x));
                }
                if exists|j: int|
                    0 <= j < lists@[k as int]@.len() && #[trigger] lists@[k as int]@[j] == x {
                    assert(next[k as int].contains(x));
                }
            }
        }
        k = k + 1;
    }
    proof {
        assert(views.take(k as int) =~= views);
    }
    keep
}

/// The positions of `[low, high)` that are worth more than `p`: ranked higher, or as high and earlier.
pub open spec fn worth_more(ranks: Seq<u64>, low: int, high: int, p: int) -> Set<int> {
    Set::new(
        |q: int|
            low <= q < high && (ranks[q] > ranks[p] || (ranks[q] == ranks[p] && q < p)),
    )
}

/// What a keep by importance keeps: of the frame, the prefix and the most recent tokens, whole; and
/// between them each token that fewer than `heavy` others between them are worth more than. A token
/// that is kept there brings with it every one that is worth more.
pub proof fn lemma_top_k_keeps_the_heaviest(k: KeepTopK, ranks: Seq<u64>, p: int, q: int)
    requires
        k.current <= ranks.len(),
        0 <= p < k.current,
    ensures
        p < k.prefix ==> top_k_keeps(k, ranks, p),
        p >= k.current - k.recent ==> top_k_keeps(k, ranks, p),
        k.prefix <= p < k.current - k.recent ==> {
            let better = worth_more(ranks, k.prefix as int, k.current - k.recent, p);
            &&& better.finite()
            &&& top_k_keeps(k, ranks, p) <==> better.len() < k.heavy
            &&& top_k_keeps(k, ranks, p) && better.contains(q) ==> top_k_keeps(k, ranks, q)
        },
        !top_k_keeps(k, ranks, k.current as int),
        !top_k_keeps(k, ranks, -1),
{
    if k.prefix <= p < k.current - k.recent {
        let (low, high) = (k.prefix as int, k.current - k.recent);
        lemma_ahead_count(ranks, low, high, p);
        let better = worth_more(ranks, low, high, p);
        if better.contains(q) {
            lemma_ahead_count(ranks, low, high, q);
            let best = worth_more(ranks, low, high, q);
            assert(best.subset_of(better));
            vstd::set_lib::lemma_len_subset(best, better);
        }
    }
}

proof fn lemma_ahead_count(ranks: Seq<u64>, low: int, high: int, p: int)
    requires
        low <= high,
    ensures
        worth_more(ranks, low, high, p).finite(),
        worth_more(ranks, low, high, p).len() == ahead_count(ranks, low, high, p),
    decreases high - low,
{
    let all = worth_more(ranks, low, high, p);
    if high == low {
        assert(all =~= Set::empty());
    } else {
        lemma_ahead_count(ranks, low, high - 1, p);
        let rest = worth_more(ranks, low, high - 1, p);
        if ahead(ranks, high - 1, p) {
            assert(all =~= rest.insert(high - 1));
        } else {
            assert(all =~= rest);
        }
    }
}

/// A position is in every list, or in some list, where each of them holds it, or one does.
pub proof fn lemma_in_lists(lists: Seq<Seq<usize>>, x: usize)
    ensures
        in_all(lists, x) <==> forall|k: int| 0 <= k < lists.len() ==> (#[trigger] lists[k]).contains(x),
        in_some(lists, x) <==> exists|k: int|
            0 <= k < lists.len() && (#[trigger] lists[k]).contains(x),
{
}

} // verus!
