//! The safety check for multi-unit resources: can every thread finish, each
//! in turn taking what it waits for and then giving back all it holds?
use vstd::prelude::*;

verus! {

/// The rows of a matrix of counts.
pub open spec fn rows(m: Seq<Vec<usize>>) -> Seq<Seq<usize>> {
    m.map_values(|r: Vec<usize>| r@)
}

/// Units of resource `s` held by the threads below `n` that are marked in `fin`.
pub open spec fn sum_held(alloc: Seq<Seq<usize>>, fin: Seq<bool>, s: int, n: int) -> int
    decreases n,
{
    if n <= 0 {
        0
    } else {
        sum_held(alloc, fin, s, n - 1) + if fin[n - 1] { alloc[n - 1][s] as int } else { 0 }
    }
}

/// Units of resource `s` there are once the threads marked in `fin` have
/// finished and given back what they hold.
pub open spec fn work(avail: Seq<usize>, alloc: Seq<Seq<usize>>, fin: Seq<bool>, s: int) -> int {
    avail[s] + sum_held(alloc, fin, s, alloc.len() as int)
}

/// Thread `t` can have all it waits for once the threads in `fin` finished.
pub open spec fn can_finish(
    avail: Seq<usize>,
    alloc: Seq<Seq<usize>>,
    request: Seq<Seq<usize>>,
    fin: Seq<bool>,
    t: int,
) -> bool {
    forall|s: int| 0 <= s < avail.len() ==> request[t][s] <= #[trigger] work(avail, alloc, fin, s)
}

/// One round: every thread that can finish now is marked.
pub open spec fn round(avail: Seq<usize>, alloc: Seq<Seq<usize>>, request: Seq<Seq<usize>>, fin: Seq<bool>) -> Seq<bool> {
    Seq::new(fin.len(), |t: int| fin[t] || can_finish(avail, alloc, request, fin, t))
}

/// The threads marked after `k` rounds, starting from none.
pub open spec fn finished(avail: Seq<usize>, alloc: Seq<Seq<usize>>, request: Seq<Seq<usize>>, k: nat) -> Seq<bool>
    decreases k,
{
    if k == 0 {
        Seq::new(alloc.len(), |t: int| false)
    } else {
        round(avail, alloc, request, finished(avail, alloc, request, (k - 1) as nat))
    }
}

/// Every thread is marked after as many rounds as there are threads; a round
/// that marks no new thread marks none later either, so that many rounds
/// reach the fixed point.
pub open spec fn safe(avail: Seq<usize>, alloc: Seq<Seq<usize>>, request: Seq<Seq<usize>>) -> bool {
    let f = finished(avail, alloc, request, alloc.len() as nat);
    forall|t: int| 0 <= t < alloc.len() ==> #[trigger] f[t]
}

/// `m` with row `t` replaced by `row`, when `t` is a row of it.
pub open spec fn with_row(m: Seq<Seq<usize>>, t: int, row: Seq<usize>) -> Seq<Seq<usize>> {
    if 0 <= t < m.len() { m.update(t, row) } else { m }
}

proof fn lemma_sum_held_zero(alloc: Seq<Seq<usize>>, fin: Seq<bool>, s: int, n: int)
    requires
        0 <= n <= fin.len(),
        forall|u: int| 0 <= u < n && #[trigger] fin[u] ==> alloc[u][s] == 0,
    ensures
        sum_held(alloc, fin, s, n) == 0,
    decreases n,
{
    if n > 0 {
        lemma_sum_held_zero(alloc, fin, s, n - 1);
    }
}

proof fn lemma_crossed_stay_unfinished(
    avail: Seq<usize>,
    alloc: Seq<Seq<usize>>,
    request: Seq<Seq<usize>>,
    t1: int,
    t2: int,
    a: int,
    b: int,
    k: nat,
)
    requires
        0 <= t1 < alloc.len(),
        0 <= t2 < alloc.len(),
        0 <= a < avail.len(),
        0 <= b < avail.len(),
        avail[a] == 0,
        avail[b] == 0,
        request[t1][b] > 0,
        request[t2][a] > 0,
        forall|u: int| 0 <= u < alloc.len() && u != t1 && u != t2 ==> (#[trigger] alloc[u])[a] == 0 && alloc[u][b] == 0,
    ensures
        finished(avail, alloc, request, k).len() == alloc.len(),
        !finished(avail, alloc, request, k)[t1],
        !finished(avail, alloc, request, k)[t2],
    decreases k,
{
    if k > 0 {
        let f = finished(avail, alloc, request, (k - 1) as nat);
        lemma_crossed_stay_unfinished(avail, alloc, request, t1, t2, a, b, (k - 1) as nat);
        assert forall|u: int| 0 <= u < alloc.len() && #[trigger] f[u] implies alloc[u][a] == 0 && alloc[u][b] == 0 by {}
        lemma_sum_held_zero(alloc, f, a, alloc.len() as int);
        lemma_sum_held_zero(alloc, f, b, alloc.len() as int);
        assert(work(avail, alloc, f, a) == 0);
        assert(work(avail, alloc, f, b) == 0);
        assert(!can_finish(avail, alloc, request, f, t1));
        assert(!can_finish(avail, alloc, request, f, t2));
    }
}

/// Two threads that each wait for a semaphore whose every unit the other
/// holds (none free, no third thread holding any) leave the state unsafe.
pub proof fn lemma_crossed_unsafe(
    avail: Seq<usize>,
    alloc: Seq<Seq<usize>>,
    request: Seq<Seq<usize>>,
    t1: int,
    t2: int,
    a: int,
    b: int,
)
    requires
        0 <= t1 < alloc.len(),
        0 <= t2 < alloc.len(),
        0 <= a < avail.len(),
        0 <= b < avail.len(),
        avail[a] == 0,
        avail[b] == 0,
        request[t1][b] > 0,
        request[t2][a] > 0,
        forall|u: int| 0 <= u < alloc.len() && u != t1 && u != t2 ==> (#[trigger] alloc[u])[a] == 0 && alloc[u][b] == 0,
    ensures
        !safe(avail, alloc, request),
{
    lemma_crossed_stay_unfinished(avail, alloc, request, t1, t2, a, b, alloc.len() as nat);
}


/// The threads placed before position `k` of `ord`, as marks over `n` threads.
pub open spec fn placed(ord: Seq<int>, k: int, n: nat) -> Seq<bool> {
    Seq::new(n, |t: int| exists|i: int| 0 <= i < k && ord[i] == t)
}

/// `ord` lists every thread, and each thread in it can have what it waits
/// for once the threads before it have finished and given back what they
/// hold.
pub open spec fn finishing_order(
    avail: Seq<usize>,
    alloc: Seq<Seq<usize>>,
    request: Seq<Seq<usize>>,
    ord: Seq<int>,
) -> bool {
    &&& ord.len() == alloc.len()
    &&& forall|t: int| 0 <= t < alloc.len() ==> #[trigger] ord.contains(t)
    &&& forall|i: int| 0 <= i < ord.len() ==> 0 <= #[trigger] ord[i] < alloc.len()
    &&& forall|k: int| 0 <= k < ord.len() ==> #[trigger] can_finish(
        avail,
        alloc,
        request,
        placed(ord, k, alloc.len()),
        ord[k],
    )
}

proof fn lemma_sum_held_mono(alloc: Seq<Seq<usize>>, f1: Seq<bool>, f2: Seq<bool>, s: int, n: int)
    requires
        0 <= n <= f1.len(),
        f1.len() == f2.len(),
        forall|t: int| 0 <= t < f1.len() && #[trigger] f1[t] ==> f2[t],
    ensures
        sum_held(alloc, f1, s, n) <= sum_held(alloc, f2, s, n),
    decreases n,
{
    if n > 0 {
        lemma_sum_held_mono(alloc, f1, f2, s, n - 1);
    }
}

proof fn lemma_finished_len(avail: Seq<usize>, alloc: Seq<Seq<usize>>, request: Seq<Seq<usize>>, k: nat)
    ensures
        finished(avail, alloc, request, k).len() == alloc.len(),
    decreases k,
{
    if k > 0 {
        lemma_finished_len(avail, alloc, request, (k - 1) as nat);
    }
}

proof fn lemma_order_prefix(
    avail: Seq<usize>,
    alloc: Seq<Seq<usize>>,
    request: Seq<Seq<usize>>,
    ord: Seq<int>,
    k: nat,
)
    requires
        finishing_order(avail, alloc, request, ord),
        k <= ord.len(),
    ensures
        forall|i: int| 0 <= i < k ==> #[trigger] finished(avail, alloc, request, k)[ord[i]],
    decreases k,
{
    lemma_finished_len(avail, alloc, request, k);
    if k > 0 {
        let k1 = (k - 1) as nat;
        lemma_order_prefix(avail, alloc, request, ord, k1);
        lemma_finished_len(avail, alloc, request, k1);
        let f = finished(avail, alloc, request, k1);
        let p = placed(ord, k1 as int, alloc.len());
        assert forall|t: int| 0 <= t < p.len() && #[trigger] p[t] implies f[t] by {
            let i = choose|i: int| 0 <= i < k1 && ord[i] == t;
        }
        assert forall|s: int| 0 <= s < avail.len() implies request[ord[k1 as int]][s] <= #[trigger] work(avail, alloc, f, s) by {
            lemma_sum_held_mono(alloc, p, f, s, alloc.len() as int);
            assert(can_finish(avail, alloc, request, p, ord[k1 as int]));
            assert(request[ord[k1 as int]][s] <= work(avail, alloc, p, s));
        }
        assert(can_finish(avail, alloc, request, f, ord[k1 as int]));
        assert forall|i: int| 0 <= i < k implies #[trigger] finished(avail, alloc, request, k)[ord[i]] by {
            assert(0 <= ord[i] < alloc.len());
            if i < k1 {
                assert(f[ord[i]]);
            }
        }
    }
}

/// If the threads can finish in some order, the check finds the state
/// safe: a request that leaves such an order is never refused.
pub proof fn lemma_order_implies_safe(
    avail: Seq<usize>,
    alloc: Seq<Seq<usize>>,
    request: Seq<Seq<usize>>,
    ord: Seq<int>,
)
    requires
        finishing_order(avail, alloc, request, ord),
    ensures
        safe(avail, alloc, request),
{
    lemma_order_prefix(avail, alloc, request, ord, ord.len());
    assert forall|t: int| 0 <= t < alloc.len() implies #[trigger] finished(avail, alloc, request, alloc.len() as nat)[t] by {
        assert(ord.contains(t));
        let i = choose|i: int| 0 <= i < ord.len() && ord[i] == t;
        assert(finished(avail, alloc, request, ord.len() as nat)[ord[i]]);
    }
}


/// The shape the check needs: one row per thread, one column per resource.
pub open spec fn well_shaped(avail: Seq<usize>, alloc: Seq<Vec<usize>>, request: Seq<Vec<usize>>) -> bool {
    &&& alloc.len() == request.len()
    &&& forall|t: int| 0 <= t < alloc.len() ==> (#[trigger] alloc[t])@.len() == avail.len()
    &&& forall|t: int| 0 <= t < request.len() ==> (#[trigger] request[t])@.len() == avail.len()
}

/// `work` for every resource, capped at `usize::MAX`.
fn work_vec(avail: &Vec<usize>, alloc: &Vec<Vec<usize>>, fin: &Vec<bool>) -> (w: Vec<usize>)
    requires
        forall|t: int| 0 <= t < alloc@.len() ==> (#[trigger] alloc@[t])@.len() == avail@.len(),
        fin@.len() == alloc@.len(),
    ensures
        w@.len() == avail@.len(),
        forall|s: int| 0 <= s < avail@.len() ==> {
            let x = #[trigger] work(avail@, rows(alloc@), fin@, s);
            w@[s] == if x <= usize::MAX { x } else { usize::MAX as int }
        },
{
    let ghost a = rows(alloc@);
    let mut w: Vec<usize> = Vec::new();
    let mut s: usize = 0;
    while s < avail.len()
        invariant
            s <= avail@.len(),
            w@.len() == s,
            a == rows(alloc@),
            fin@.len() == alloc@.len(),
            forall|t: int| 0 <= t < alloc@.len() ==> (#[trigger] alloc@[t])@.len() == avail@.len(),
            forall|j: int| 0 <= j < s ==> {
                let x = #[trigger] work(avail@, a, fin@, j);
                w@[j] == if x <= usize::MAX { x } else { usize::MAX as int }
            },
        decreases avail@.len() - s,
    {
        let mut acc: usize = avail[s];
        let mut t: usize = 0;
        while t < alloc.len()
            invariant
                t <= alloc@.len(),
                s < avail@.len(),
                a == rows(alloc@),
                fin@.len() == alloc@.len(),
                forall|u: int| 0 <= u < alloc@.len() ==> (#[trigger] alloc@[u])@.len() == avail@.len(),
                ({
                    let x = avail@[s as int] + sum_held(a, fin@, s as int, t as int);
                    acc == if x <= usize::MAX { x } else { usize::MAX as int }
                }),
            decreases alloc@.len() - t,
        {
            if fin[t] {
                acc = acc.saturating_add(alloc[t][s]);
            }
            proof {
                assert(a[t as int] == alloc@[t as int]@);
            }
            t = t + 1;
        }
        w.push(acc);
        proof {
            assert forall|j: int| 0 <= j < s + 1 implies {
                let x = #[trigger] work(avail@, a, fin@, j);
                w@[j] == if x <= usize::MAX { x } else { usize::MAX as int }
            } by {
                if j == s {
                    assert(a.len() == alloc@.len());
                }
            }
        }
        s = s + 1;
    }
    w
}

/// Whether every count of `need` is at most the matching one of `w`.
fn fits(need: &Vec<usize>, w: &Vec<usize>) -> (r: bool)
    requires
        need@.len() == w@.len(),
    ensures
        r == forall|s: int| 0 <= s < w@.len() ==> need@[s] <= #[trigger] w@[s],
{
    let mut s: usize = 0;
    while s < w.len()
        invariant
            s <= w@.len(),
            need@.len() == w@.len(),
            forall|j: int| 0 <= j < s ==> need@[j] <= #[trigger] w@[j],
        decreases w@.len() - s,
    {
        if need[s] > w[s] {
            return false;
        }
        s = s + 1;
    }
    true
}

/// One round of the check.
fn next_round(
    avail: &Vec<usize>,
    alloc: &Vec<Vec<usize>>,
    request: &Vec<Vec<usize>>,
    t0: usize,
    row0: &Vec<usize>,
    fin: &Vec<bool>,
) -> (r: Vec<bool>)
    requires
        well_shaped(avail@, alloc@, request@),
        row0@.len() == avail@.len(),
        fin@.len() == alloc@.len(),
    ensures
        r@ == round(avail@, rows(alloc@), with_row(rows(request@), t0 as int, row0@), fin@),
{
    let ghost a = rows(alloc@);
    let ghost q = with_row(rows(request@), t0 as int, row0@);
    let w = work_vec(avail, alloc, fin);
    let mut r: Vec<bool> = Vec::new();
    let mut t: usize = 0;
    while t < fin.len()
        invariant
            t <= fin@.len(),
            r@.len() == t,
            fin@.len() == alloc@.len(),
            a == rows(alloc@),
            q == with_row(rows(request@), t0 as int, row0@),
            row0@.len() == avail@.len(),
            well_shaped(avail@, alloc@, request@),
            w@.len() == avail@.len(),
            forall|s: int| 0 <= s < avail@.len() ==> {
                let x = #[trigger] work(avail@, a, fin@, s);
                w@[s] == if x <= usize::MAX { x } else { usize::MAX as int }
            },
            forall|j: int| 0 <= j < t ==> #[trigger] r@[j] == (fin@[j] || can_finish(avail@, a, q, fin@, j)),
        decreases fin@.len() - t,
    {
        let row = if t == t0 { row0 } else { &request[t] };
        let ok = fin[t] || fits(row, &w);
        proof {
            assert(q[t as int] == row@);
            if !fin@[t as int] {
                if ok {
                    assert forall|s: int| 0 <= s < avail@.len() implies q[t as int][s] <= #[trigger] work(avail@, a, fin@, s) by {
                        assert(row@[s] <= w@[s]);
                    }
                } else {
                    let s = choose|s: int| 0 <= s < w@.len() && !(row@[s] <= #[trigger] w@[s]);
                    assert(!(q[t as int][s] <= work(avail@, a, fin@, s)));
                }
            }
        }
        r.push(ok);
        t = t + 1;
    }
    proof {
        assert(r@ =~= round(avail@, a, q, fin@));
    }
    r
}

/// Whether the state is safe, with thread `t0` waiting for `row0` in place
/// of its row of `request`.
pub fn is_safe(
    avail: &Vec<usize>,
    alloc: &Vec<Vec<usize>>,
    request: &Vec<Vec<usize>>,
    t0: usize,
    row0: &Vec<usize>,
) -> (r: bool)
    requires
        well_shaped(avail@, alloc@, request@),
        row0@.len() == avail@.len(),
    ensures
        r == safe(avail@, rows(alloc@), with_row(rows(request@), t0 as int, row0@)),
{
    let ghost a = rows(alloc@);
    let ghost q = with_row(rows(request@), t0 as int, row0@);
    let n = alloc.len();
    let mut fin: Vec<bool> = Vec::new();
    while fin.len() < n
        invariant
            fin@.len() <= n,
            forall|j: int| 0 <= j < fin@.len() ==> !(#[trigger] fin@[j]),
        decreases n - fin@.len(),
    {
        fin.push(false);
    }
    proof {
        assert(fin@ =~= finished(avail@, a, q, 0));
    }
    let mut k: usize = 0;
    while k < n
        invariant
            k <= n,
            n == alloc@.len(),
            a == rows(alloc@),
            q == with_row(rows(request@), t0 as int, row0@),
            row0@.len() == avail@.len(),
            well_shaped(avail@, alloc@, request@),
            fin@ == finished(avail@, a, q, k as nat),
            fin@.len() == n,
        decreases n - k,
    {
        fin = next_round(avail, alloc, request, t0, row0, &fin);
        k = k + 1;
    }
    let mut t: usize = 0;
    while t < n
        invariant
            t <= n,
            fin@.len() == n,
            n == alloc@.len(),
            forall|j: int| 0 <= j < t ==> #[trigger] fin@[j],
            fin@ == finished(avail@, a, q, n as nat),
            a == rows(alloc@),
            q == with_row(rows(request@), t0 as int, row0@),
        decreases n - t,
    {
        if !fin[t] {
            proof {
                assert(!finished(avail@, a, q, alloc@.len() as nat)[t as int]);
            }
            return false;
        }
        t = t + 1;
    }
    true
}

} // verus!
