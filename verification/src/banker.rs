//! The banker's algorithm safety check.
//!
//! A state is described by `available[j]` free instances of each resource `j`,
//! `allocation[i][j]` instances of `j` held by thread `i`, and `need[i][j]`
//! further instances thread `i` may still ask for. The state is safe when the
//! threads can be ordered so that each one, in turn, can be served from what is
//! free plus what the threads before it gave back.
use vstd::prelude::*;

verus! {

/// The rows of a matrix, each by its view.
pub open spec fn rows_view(m: Seq<Vec<usize>>) -> Seq<Seq<usize>> {
    m.map_values(|r: Vec<usize>| r@)
}

/// Column `j` summed over the rows listed in `rows`.
pub open spec fn rows_sum(allocation: Seq<Seq<usize>>, rows: Seq<int>, j: int) -> int
    decreases rows.len(),
{
    if rows.len() == 0 {
        0
    } else {
        rows_sum(allocation, rows.drop_last(), j) + allocation[rows.last()][j] as int
    }
}

/// Column `j` summed over the rows `i < upto` that `marked` contains.
pub open spec fn marked_sum(allocation: Seq<Seq<usize>>, marked: Set<int>, j: int, upto: int) -> int
    decreases upto,
{
    if upto <= 0 {
        0
    } else {
        marked_sum(allocation, marked, j, upto - 1) + if marked.contains(upto - 1) {
            allocation[upto - 1][j] as int
        } else {
            0
        }
    }
}

/// Column `j` summed over the first `n` rows.
pub open spec fn column_total(allocation: Seq<Seq<usize>>, j: int, n: int) -> int
    decreases n,
{
    if n <= 0 {
        0
    } else {
        column_total(allocation, j, n - 1) + allocation[n - 1][j] as int
    }
}

/// The vectors are large enough for `n` threads and `m` resources.
pub open spec fn matrices_fit(
    n: int,
    m: int,
    available: Seq<usize>,
    allocation: Seq<Seq<usize>>,
    need: Seq<Seq<usize>>,
) -> bool {
    &&& available.len() >= m
    &&& allocation.len() >= n
    &&& need.len() >= n
    &&& forall|i: int| 0 <= i < n ==> #[trigger] allocation[i].len() >= m
    &&& forall|i: int| 0 <= i < n ==> #[trigger] need[i].len() >= m
}

/// Giving every allocation back never exceeds `usize::MAX`.
pub open spec fn totals_fit(n: int, m: int, available: Seq<usize>, allocation: Seq<Seq<usize>>) -> bool {
    forall|j: int| 0 <= j < m ==> available[j] + #[trigger] column_total(allocation, j, n) <= usize::MAX
}

/// `order` lists every thread `0..n` once, and each thread's need is covered by
/// what is free plus what the threads before it hold.
pub open spec fn is_safe_sequence(
    n: int,
    m: int,
    available: Seq<usize>,
    allocation: Seq<Seq<usize>>,
    need: Seq<Seq<usize>>,
    order: Seq<int>,
) -> bool {
    &&& order.no_duplicates()
    &&& forall|k: int| 0 <= k < order.len() ==> 0 <= #[trigger] order[k] < n
    &&& forall|i: int| 0 <= i < n ==> order.contains(i)
    &&& forall|k: int, j: int|
        0 <= k < order.len() && 0 <= j < m ==> #[trigger] need[order[k]][j] <= available[j]
            + rows_sum(allocation, order.take(k), j)
}

/// Some ordering of the threads is a safe sequence.
pub open spec fn is_safe(
    n: int,
    m: int,
    available: Seq<usize>,
    allocation: Seq<Seq<usize>>,
    need: Seq<Seq<usize>>,
) -> bool {
    exists|order: Seq<int>| is_safe_sequence(n, m, available, allocation, need, order)
}

/// Thread `i` needs more of some resource than `work` offers.
pub open spec fn blocked(need: Seq<Seq<usize>>, work: Seq<usize>, i: int, m: int) -> bool {
    exists|j: int| 0 <= j < m && need[i][j] > work[j]
}

proof fn lemma_marked_sum_empty(allocation: Seq<Seq<usize>>, j: int, upto: int)
    ensures
        marked_sum(allocation, Set::empty(), j, upto) == 0,
    decreases upto,
{
    if upto > 0 {
        lemma_marked_sum_empty(allocation, j, upto - 1);
    }
}

proof fn lemma_marked_sum_insert(allocation: Seq<Seq<usize>>, s: Set<int>, x: int, j: int, upto: int)
    requires
        !s.contains(x),
    ensures
        marked_sum(allocation, s.insert(x), j, upto) == marked_sum(allocation, s, j, upto) + if 0
            <= x < upto {
            allocation[x][j] as int
        } else {
            0
        },
    decreases upto,
{
    if upto > 0 {
        lemma_marked_sum_insert(allocation, s, x, j, upto - 1);
    }
}

proof fn lemma_marked_sum_mono(allocation: Seq<Seq<usize>>, s1: Set<int>, s2: Set<int>, j: int, upto: int)
    requires
        forall|i: int| 0 <= i < upto && s1.contains(i) ==> s2.contains(i),
    ensures
        marked_sum(allocation, s1, j, upto) <= marked_sum(allocation, s2, j, upto),
    decreases upto,
{
    if upto > 0 {
        lemma_marked_sum_mono(allocation, s1, s2, j, upto - 1);
    }
}

proof fn lemma_marked_sum_le_total(allocation: Seq<Seq<usize>>, s: Set<int>, j: int, upto: int)
    ensures
        marked_sum(allocation, s, j, upto) <= column_total(allocation, j, upto),
    decreases upto,
{
    if upto > 0 {
        lemma_marked_sum_le_total(allocation, s, j, upto - 1);
    }
}

proof fn lemma_rows_sum_as_marked(allocation: Seq<Seq<usize>>, rows: Seq<int>, j: int, n: int)
    requires
        rows.no_duplicates(),
        forall|k: int| 0 <= k < rows.len() ==> 0 <= #[trigger] rows[k] < n,
    ensures
        rows_sum(allocation, rows, j) == marked_sum(allocation, rows.to_set(), j, n),
    decreases rows.len(),
{
    if rows.len() == 0 {
        assert(rows.to_set() =~= Set::empty());
        lemma_marked_sum_empty(allocation, j, n);
    } else {
        let t = rows.drop_last();
        let x = rows.last();
        assert(t.no_duplicates()) by {
            assert forall|a: int, b: int| 0 <= a < t.len() && 0 <= b < t.len() && a != b implies t[a]
                != t[b] by {
                assert(t[a] == rows[a] && t[b] == rows[b]);
            }
        }
        assert(forall|k: int| 0 <= k < t.len() ==> 0 <= #[trigger] t[k] < n) by {
            assert forall|k: int| 0 <= k < t.len() implies 0 <= #[trigger] t[k] < n by {
                assert(t[k] == rows[k]);
            }
        }
        lemma_rows_sum_as_marked(allocation, t, j, n);
        assert(!t.to_set().contains(x)) by {
            if t.to_set().contains(x) {
                assert(t.contains(x));
                let a = choose|a: int| 0 <= a < t.len() && t[a] == x;
                assert(rows[a] == rows[rows.len() - 1]);
            }
        }
        assert(rows.to_set() =~= t.to_set().insert(x)) by {
            assert forall|y: int| rows.to_set().contains(y) implies t.to_set().insert(x).contains(y) by {
                assert(rows.contains(y));
                let a = choose|a: int| 0 <= a < rows.len() && rows[a] == y;
                if a < rows.len() - 1 {
                    assert(t[a] == y);
                    assert(t.contains(y));
                }
            }
            assert forall|y: int| t.to_set().insert(x).contains(y) implies rows.to_set().contains(y) by {
                if y == x {
                    assert(rows[rows.len() - 1] == y);
                    assert(rows.contains(y));
                } else {
                    assert(t.contains(y));
                    let a = choose|a: int| 0 <= a < t.len() && t[a] == y;
                    assert(rows[a] == y);
                    assert(rows.contains(y));
                }
            }
        }
        lemma_marked_sum_insert(allocation, t.to_set(), x, j, n);
        assert(0 <= x < n) by {
            assert(x == rows[rows.len() - 1]);
        }
    }
}

proof fn lemma_unique_in_range_len(s: Seq<int>, n: int)
    requires
        s.no_duplicates(),
        0 <= n,
        forall|k: int| 0 <= k < s.len() ==> 0 <= #[trigger] s[k] < n,
    ensures
        s.len() <= n,
{
    s.unique_seq_to_set();
    vstd::set_lib::lemma_int_range(0, n);
    assert(s.to_set().subset_of(vstd::set_lib::set_int_range(0, n))) by {
        assert forall|x: int| s.to_set().contains(x) implies vstd::set_lib::set_int_range(0, n).contains(x) by {
            assert(s.contains(x));
            let a = choose|a: int| 0 <= a < s.len() && s[a] == x;
        }
    }
    vstd::set_lib::lemma_len_subset(s.to_set(), vstd::set_lib::set_int_range(0, n));
}

/// When every unfinished thread is blocked by `work`, and `work` is what is free
/// plus what the finished threads hold, no safe sequence can reach an unfinished
/// thread: each of its first `k` entries is finished.
proof fn lemma_safe_prefix_finished(
    n: int,
    m: int,
    available: Seq<usize>,
    allocation: Seq<Seq<usize>>,
    need: Seq<Seq<usize>>,
    order: Seq<int>,
    done: Set<int>,
    work: Seq<usize>,
    k: int,
)
    requires
        is_safe_sequence(n, m, available, allocation, need, order),
        forall|i: int| 0 <= i < n && !done.contains(i) ==> #[trigger] blocked(need, work, i, m),
        forall|j: int| 0 <= j < m ==> #[trigger] work[j] == available[j] + marked_sum(allocation, done, j, n),
        0 <= k <= order.len(),
    ensures
        forall|q: int| 0 <= q < k ==> done.contains(#[trigger] order[q]),
    decreases k,
{
    if k > 0 {
        lemma_safe_prefix_finished(n, m, available, allocation, need, order, done, work, k - 1);
        let p = order[k - 1];
        let pre = order.take(k - 1);
        assert(pre.no_duplicates()) by {
            assert forall|a: int, b: int|
                0 <= a < pre.len() && 0 <= b < pre.len() && a != b implies pre[a] != pre[b] by {
                assert(pre[a] == order[a] && pre[b] == order[b]);
            }
        }
        assert(forall|q: int| 0 <= q < pre.len() ==> 0 <= #[trigger] pre[q] < n) by {
            assert forall|q: int| 0 <= q < pre.len() implies 0 <= #[trigger] pre[q] < n by {
                assert(pre[q] == order[q]);
            }
        }
        assert forall|i: int| 0 <= i < n && pre.to_set().contains(i) implies done.contains(i) by {
            assert(pre.contains(i));
            let a = choose|a: int| 0 <= a < pre.len() && pre[a] == i;
            assert(pre[a] == order[a]);
        }
        if !done.contains(p) {
            assert(0 <= p < n);
            assert(blocked(need, work, p, m));
            let j = choose|j: int| 0 <= j < m && need[p][j] > work[j];
            lemma_rows_sum_as_marked(allocation, pre, j, n);
            lemma_marked_sum_mono(allocation, pre.to_set(), done, j, n);
            assert(need[order[k - 1]][j] <= available[j] + rows_sum(allocation, order.take(k - 1), j));
            assert(work[j] == available[j] + marked_sum(allocation, done, j, n));
            assert(false);
        }
    }
}

/// Banker's algorithm: repeatedly finish some unfinished thread whose need the
/// working vector covers, giving its allocation back, until none is left that can
/// proceed; the state is safe when every thread finished.
pub fn is_safe_state(
    num_processes: usize,
    num_resources: usize,
    available: &[usize],
    allocation: &[Vec<usize>],
    need: &[Vec<usize>],
) -> (safe: bool)
    requires
        matrices_fit(
            num_processes as int,
            num_resources as int,
            available@,
            rows_view(allocation@),
            rows_view(need@),
        ),
        totals_fit(num_processes as int, num_resources as int, available@, rows_view(allocation@)),
    ensures
        safe == is_safe(
            num_processes as int,
            num_resources as int,
            available@,
            rows_view(allocation@),
            rows_view(need@),
        ),
{
    let ghost aa = rows_view(allocation@);
    let ghost nd = rows_view(need@);
    let n = num_processes;
    let m = num_resources;
    let ghost nn = n as int;
    let ghost mm = m as int;
    let mut work: Vec<usize> = Vec::new();
    let mut t: usize = 0;
    while t < available.len()
        invariant
            t <= available@.len(),
            work@ == available@.take(t as int),
        decreases available@.len() - t,
    {
        work.push(available[t]);
        t = t + 1;
    }
    assert(work@ =~= available@);
    let mut finish: Vec<bool> = Vec::new();
    let mut t2: usize = 0;
    while t2 < n
        invariant
            t2 <= n,
            finish@.len() == t2,
            forall|i: int| 0 <= i < t2 ==> !#[trigger] finish@[i],
        decreases n - t2,
    {
        finish.push(false);
        t2 = t2 + 1;
    }
    let ghost mut order: Seq<int> = Seq::empty();
    assert forall|j: int| 0 <= j < mm implies #[trigger] work@[j] == available@[j] + rows_sum(
        aa,
        order,
        j,
    ) by {}
    let mut progress = true;
    while progress
        invariant
            nn == n,
            mm == m,
            aa == rows_view(allocation@),
            nd == rows_view(need@),
            matrices_fit(nn, mm, available@, aa, nd),
            totals_fit(nn, mm, available@, aa),
            work@.len() == available@.len(),
            finish@.len() == n,
            order.no_duplicates(),
            order.len() <= n,
            forall|k: int| 0 <= k < order.len() ==> 0 <= #[trigger] order[k] < nn,
            forall|i: int| 0 <= i < nn ==> (#[trigger] finish@[i] <==> order.contains(i)),
            forall|k: int, j: int|
                0 <= k < order.len() && 0 <= j < mm ==> #[trigger] nd[order[k]][j]
                    <= available@[j] + rows_sum(aa, order.take(k), j),
            forall|j: int| 0 <= j < mm ==> #[trigger] work@[j] == available@[j] + rows_sum(aa, order, j),
            !progress ==> forall|p: int| 0 <= p < nn && !finish@[p] ==> #[trigger] blocked(nd, work@, p, mm),
        decreases nn - order.len() + if progress { 1int } else { 0int },
    {
        let mut found = false;
        let mut i: usize = 0;
        let ghost order_before = order;
        while i < n && !found
            invariant
                nn == n,
                mm == m,
                aa == rows_view(allocation@),
                nd == rows_view(need@),
                matrices_fit(nn, mm, available@, aa, nd),
                totals_fit(nn, mm, available@, aa),
                work@.len() == available@.len(),
                finish@.len() == n,
                order.no_duplicates(),
                order.len() <= n,
                i <= n,
                forall|k: int| 0 <= k < order.len() ==> 0 <= #[trigger] order[k] < nn,
                forall|i2: int| 0 <= i2 < nn ==> (#[trigger] finish@[i2] <==> order.contains(i2)),
                forall|k: int, j: int|
                    0 <= k < order.len() && 0 <= j < mm ==> #[trigger] nd[order[k]][j]
                        <= available@[j] + rows_sum(aa, order.take(k), j),
                forall|j: int| 0 <= j < mm ==> #[trigger] work@[j] == available@[j] + rows_sum(aa, order, j),
                found ==> order.len() == order_before.len() + 1,
                !found ==> order == order_before,
                !found ==> forall|p: int| 0 <= p < i && !finish@[p] ==> #[trigger] blocked(nd, work@, p, mm),
            decreases n - i,
        {
            if !finish[i] {
                let ghost ii = i as int;
                assert(need@.len() == nd.len());
                let row = &need[i];
                assert(row@ == nd[ii]);
                let mut ok = true;
                let mut j: usize = 0;
                while ok && j < m
                    invariant
                        matrices_fit(nn, mm, available@, aa, nd),
                        mm == m,
                        nn == n,
                        i < n,
                        ii == i,
                        row@ == nd[ii],
                        work@.len() == available@.len(),
                        j <= m,
                        ok ==> forall|q: int| 0 <= q < j ==> nd[ii][q] <= #[trigger] work@[q],
                        !ok ==> blocked(nd, work@, ii, mm),
                    decreases m - j + if ok { 1int } else { 0int },
                {
                    assert(nd[ii].len() >= mm);
                    if row[j] > work[j] {
                        ok = false;
                    } else {
                        j = j + 1;
                    }
                }
                if ok {
                    let ghost next = order.push(ii);
                    assert(!order.contains(ii));
                    assert(next.no_duplicates()) by {
                        assert forall|a: int, b: int|
                            0 <= a < next.len() && 0 <= b < next.len() && a != b implies next[a]
                            != next[b] by {
                            if a < order.len() && b < order.len() {
                                assert(next[a] == order[a] && next[b] == order[b]);
                            } else if a < order.len() {
                                assert(next[a] == order[a]);
                            } else if b < order.len() {
                                assert(next[b] == order[b]);
                            }
                        }
                    }
                    assert(forall|k: int| 0 <= k < next.len() ==> 0 <= #[trigger] next[k] < nn) by {
                        assert forall|k: int| 0 <= k < next.len() implies 0 <= #[trigger] next[k] < nn by {
                            if k < order.len() {
                                assert(next[k] == order[k]);
                            }
                        }
                    }
                    assert(next.drop_last() =~= order);
                    proof { lemma_unique_in_range_len(next, nn); }
                    assert forall|q: int| 0 <= q < mm implies available@[q] + #[trigger] rows_sum(
                        aa,
                        next,
                        q,
                    ) <= usize::MAX by {
                        lemma_rows_sum_as_marked(aa, next, q, nn);
                        lemma_marked_sum_le_total(aa, next.to_set(), q, nn);
                        assert(available@[q] + column_total(aa, q, nn) <= usize::MAX);
                    }
                    assert forall|q: int| 0 <= q < mm implies #[trigger] nd[ii][q] <= available@[q]
                        + rows_sum(aa, order, q) by {
                        assert(nd[ii][q] <= work@[q]);
                    }
                    assert(allocation@.len() == aa.len());
                    let arow = &allocation[i];
                    assert(arow@ == aa[ii]);
                    assert(aa[ii].len() >= mm);
                    let mut j2: usize = 0;
                    while j2 < m
                        invariant
                            mm == m,
                            j2 <= m,
                            0 <= ii < nn,
                            aa.len() >= nn,
                            arow@ == aa[ii],
                            aa[ii].len() >= mm,
                            next.len() == order.len() + 1,
                            work@.len() == available@.len(),
                            available@.len() >= mm,
                            next.drop_last() == order,
                            next.last() == ii,
                            forall|q: int| 0 <= q < mm ==> available@[q] + #[trigger] rows_sum(aa, next, q)
                                <= usize::MAX,
                            forall|q: int| 0 <= q < j2 ==> #[trigger] work@[q] == available@[q] + rows_sum(
                                aa,
                                next,
                                q,
                            ),
                            forall|q: int| j2 <= q < mm ==> #[trigger] work@[q] == available@[q] + rows_sum(
                                aa,
                                order,
                                q,
                            ),
                        decreases m - j2,
                    {
                        assert(rows_sum(aa, next, j2 as int) == rows_sum(aa, order, j2 as int)
                            + aa[ii][j2 as int]);
                        let v = work[j2] + arow[j2];
                        work.set(j2, v);
                        j2 = j2 + 1;
                    }
                    finish.set(i, true);
                    proof {
                        assert forall|k: int, q: int|
                            0 <= k < next.len() && 0 <= q < mm implies #[trigger] nd[next[k]][q]
                            <= available@[q] + rows_sum(aa, next.take(k), q) by {
                            if k < order.len() {
                                assert(next.take(k) =~= order.take(k));
                                assert(next[k] == order[k]);
                            } else {
                                assert(next.take(k) =~= order);
                                assert(next[k] == ii);
                            }
                        }
                        assert forall|i2: int| 0 <= i2 < nn implies (#[trigger] finish@[i2]
                            <==> next.contains(i2)) by {
                            if i2 == ii {
                                assert(next[next.len() - 1] == ii);
                            } else {
                                if order.contains(i2) {
                                    let a = choose|a: int| 0 <= a < order.len() && order[a] == i2;
                                    assert(next[a] == i2);
                                }
                                if next.contains(i2) {
                                    let a = choose|a: int| 0 <= a < next.len() && next[a] == i2;
                                    assert(a < order.len());
                                    assert(order[a] == i2);
                                }
                            }
                        }
                        order = next;
                    }
                    found = true;
                }
            }
            i = i + 1;
        }
        progress = found;
    }
    let mut all = true;
    let mut i3: usize = 0;
    while all && i3 < n
        invariant
            i3 <= n,
            finish@.len() == n,
            all ==> forall|p: int| 0 <= p < i3 ==> #[trigger] finish@[p],
            !all ==> exists|p: int| 0 <= p < nn && !#[trigger] finish@[p],
            nn == n,
        decreases n - i3 + if all { 1int } else { 0int },
    {
        if !finish[i3] {
            all = false;
        } else {
            i3 = i3 + 1;
        }
    }
    proof {
        if all {
            assert forall|i4: int| 0 <= i4 < nn implies order.contains(i4) by {
                assert(finish@[i4]);
            }
            assert(is_safe_sequence(nn, mm, available@, aa, nd, order));
        } else {
            let p = choose|p: int| 0 <= p < nn && !finish@[p];
            if is_safe(nn, mm, available@, aa, nd) {
                let order2 = choose|o: Seq<int>| is_safe_sequence(nn, mm, available@, aa, nd, o);
                let done = order.to_set();
                assert forall|j: int| 0 <= j < mm implies #[trigger] work@[j] == available@[j] + marked_sum(
                    aa,
                    done,
                    j,
                    nn,
                ) by {
                    lemma_rows_sum_as_marked(aa, order, j, nn);
                }
                assert forall|i4: int| 0 <= i4 < nn && !done.contains(i4) implies #[trigger] blocked(
                    nd,
                    work@,
                    i4,
                    mm,
                ) by {
                    assert(!order.contains(i4));
                    assert(!finish@[i4]);
                }
                lemma_safe_prefix_finished(
                    nn,
                    mm,
                    available@,
                    aa,
                    nd,
                    order2,
                    done,
                    work@,
                    order2.len() as int,
                );
                assert(order2.contains(p));
                let a = choose|a: int| 0 <= a < order2.len() && order2[a] == p;
                assert(done.contains(order2[a]));
                assert(order.contains(p));
                assert(false);
            }
        }
    }
    all
}

proof fn lemma_rows_sum_first(allocation: Seq<Seq<usize>>, rows: Seq<int>, j: int)
    requires
        rows.len() >= 1,
    ensures
        rows_sum(allocation, rows, j) >= allocation[rows[0]][j] as int,
    decreases rows.len(),
{
    if rows.len() > 1 {
        let p = rows.drop_last();
        lemma_rows_sum_first(allocation, p, j);
        assert(p[0] == rows[0]);
    } else {
        assert(rows.drop_last().len() == 0);
        assert(rows_sum(allocation, rows.drop_last(), j) == 0);
        assert(rows.last() == rows[0]);
    }
}

/// A state is safe when one thread `h` can finish first with what is free,
/// and what it then gives back covers every other thread's need.
pub proof fn law_safe_when_one_finishes_first(
    n: int,
    m: int,
    available: Seq<usize>,
    allocation: Seq<Seq<usize>>,
    need: Seq<Seq<usize>>,
    h: int,
)
    requires
        0 <= h < n,
        forall|j: int| 0 <= j < m ==> #[trigger] need[h][j] <= available[j],
        forall|i: int, j: int|
            0 <= i < n && 0 <= j < m ==> #[trigger] need[i][j] <= available[j] + allocation[h][j],
    ensures
        is_safe(n, m, available, allocation, need),
{
    let order = Seq::new(n as nat, |k: int| if k == 0 { h } else if k <= h { k - 1 } else { k });
    assert forall|k: int| 0 <= k < order.len() implies 0 <= #[trigger] order[k] < n by {}
    assert(order.no_duplicates()) by {
        assert forall|a: int, b: int| 0 <= a < order.len() && 0 <= b < order.len() && a != b implies order[a]
            != order[b] by {}
    }
    assert forall|i: int| 0 <= i < n implies order.contains(i) by {
        let k = if i == h { 0 } else if i < h { i + 1 } else { i };
        assert(order[k] == i);
    }
    assert forall|k: int, j: int|
        0 <= k < order.len() && 0 <= j < m implies #[trigger] need[order[k]][j] <= available[j] + rows_sum(
            allocation,
            order.take(k),
            j,
        ) by {
        if k == 0 {
            assert(order.take(0).len() == 0);
            assert(order[0] == h);
        } else {
            lemma_rows_sum_first(allocation, order.take(k), j);
            assert(order.take(k)[0] == h);
            assert(need[order[k]][j] <= available[j] + allocation[h][j]);
        }
    }
    assert(is_safe_sequence(n, m, available, allocation, need, order));
}

} // verus!
