//! The safety check of the banker's algorithm, as used by deadlock detection.
//!
//! A state is given by the total amount of each resource, the amount of each
//! resource that each thread holds (`allocation`) and the amount that each
//! thread still waits for (`request`). It is safe when the threads can be
//! finished one after another, each one's request being covered by what is
//! free once the threads before it have finished and given back what they held.
use vstd::prelude::*;

verus! {

/// Every row of the matrix has `m` columns.
pub open spec fn rows_have_len(rows: Seq<Seq<usize>>, m: int) -> bool {
    forall|i: int| 0 <= i < rows.len() ==> #[trigger] rows[i].len() == m
}

/// Sum of column `j` over the rows `i < k` that `mask` selects.
pub open spec fn masked_col_sum(rows: Seq<Seq<usize>>, mask: Seq<bool>, j: int, k: int) -> int
    decreases k,
{
    if k <= 0 {
        0
    } else {
        masked_col_sum(rows, mask, j, k - 1) + if mask[k - 1] {
            rows[k - 1][j] as int
        } else {
            0
        }
    }
}

/// The mask that selects every one of `n` rows.
pub open spec fn full_mask(n: int) -> Seq<bool> {
    Seq::new(n as nat, |i: int| true)
}

/// Sum of column `j` over all rows.
pub open spec fn col_sum(rows: Seq<Seq<usize>>, j: int) -> int {
    masked_col_sum(rows, full_mask(rows.len() as int), j, rows.len() as int)
}

/// What is free of resource `j` once the threads that `done` selects have
/// finished and given back what they held.
pub open spec fn work_of(
    total: Seq<usize>,
    allocation: Seq<Seq<usize>>,
    done: Seq<bool>,
    j: int,
) -> int {
    total[j] - col_sum(allocation, j) + masked_col_sum(allocation, done, j, allocation.len() as int)
}

/// Thread `i` can have its whole request granted once the threads that `done`
/// selects have finished.
pub open spec fn can_finish(
    total: Seq<usize>,
    allocation: Seq<Seq<usize>>,
    request: Seq<Seq<usize>>,
    done: Seq<bool>,
    i: int,
) -> bool {
    forall|j: int|
        0 <= j < total.len() ==> request[i][j] <= #[trigger] work_of(total, allocation, done, j)
}

/// The threads that stand before position `k` of `order`.
pub open spec fn before(order: Seq<int>, k: int, n: int) -> Seq<bool> {
    Seq::new(n as nat, |i: int| exists|t: int| 0 <= t < k && order[t] == i)
}

/// `order` lists every thread once, and each thread in it can finish once
/// the threads before it have.
pub open spec fn is_safe_sequence(
    total: Seq<usize>,
    allocation: Seq<Seq<usize>>,
    request: Seq<Seq<usize>>,
    order: Seq<int>,
) -> bool {
    let n = allocation.len() as int;
    &&& order.len() == n
    &&& order.no_duplicates()
    &&& forall|k: int| 0 <= k < n ==> 0 <= #[trigger] order[k] < n
    &&& forall|i: int| 0 <= i < n ==> #[trigger] order.contains(i)
    &&& forall|k: int|
        0 <= k < n ==> #[trigger] can_finish(total, allocation, request, before(order, k, n), order[k])
}

/// The state is safe: some order lets every thread finish.
pub open spec fn is_safe(
    total: Seq<usize>,
    allocation: Seq<Seq<usize>>,
    request: Seq<Seq<usize>>,
) -> bool {
    exists|order: Seq<int>| is_safe_sequence(total, allocation, request, order)
}

/// The matrices describe `n` threads and `total.len()` resources, and no
/// resource is held beyond its total.
pub open spec fn well_formed_state(
    total: Seq<usize>,
    allocation: Seq<Seq<usize>>,
    request: Seq<Seq<usize>>,
) -> bool {
    &&& allocation.len() == request.len()
    &&& rows_have_len(allocation, total.len() as int)
    &&& rows_have_len(request, total.len() as int)
    &&& forall|j: int| 0 <= j < total.len() ==> #[trigger] col_sum(allocation, j) <= total[j]
}

proof fn lemma_masked_col_sum_nonneg(rows: Seq<Seq<usize>>, mask: Seq<bool>, j: int, k: int)
    ensures
        masked_col_sum(rows, mask, j, k) >= 0,
    decreases k,
{
    if k > 0 {
        lemma_masked_col_sum_nonneg(rows, mask, j, k - 1);
    }
}

/// A mask that selects fewer rows sums to no more.
proof fn lemma_masked_col_sum_mono(
    rows: Seq<Seq<usize>>,
    small: Seq<bool>,
    large: Seq<bool>,
    j: int,
    k: int,
)
    requires
        forall|i: int| 0 <= i < k && #[trigger] small[i] ==> large[i],
    ensures
        masked_col_sum(rows, small, j, k) <= masked_col_sum(rows, large, j, k),
    decreases k,
{
    if k > 0 {
        lemma_masked_col_sum_mono(rows, small, large, j, k - 1);
    }
}

/// Selecting one more row adds that row's entry.
proof fn lemma_masked_col_sum_select(
    rows: Seq<Seq<usize>>,
    mask: Seq<bool>,
    i: int,
    j: int,
    k: int,
)
    requires
        0 <= i < mask.len(),
        !mask[i],
        k <= mask.len(),
    ensures
        masked_col_sum(rows, mask.update(i, true), j, k) == masked_col_sum(rows, mask, j, k) + if i
            < k {
            rows[i][j] as int
        } else {
            0
        },
    decreases k,
{
    if k > 0 {
        lemma_masked_col_sum_select(rows, mask, i, j, k - 1);
        assert(mask.update(i, true)[k - 1] == if k - 1 == i {
            true
        } else {
            mask[k - 1]
        });
    }
}

/// No thread left out of `done` can finish from there.
pub open spec fn is_stuck(
    total: Seq<usize>,
    allocation: Seq<Seq<usize>>,
    request: Seq<Seq<usize>>,
    done: Seq<bool>,
) -> bool {
    forall|i: int|
        0 <= i < allocation.len() && !#[trigger] done[i] ==> !can_finish(
            total,
            allocation,
            request,
            done,
            i,
        )
}

/// Along a safe order, every thread reaches `done` when `done` is stuck.
proof fn lemma_safe_order_stays_done(
    total: Seq<usize>,
    allocation: Seq<Seq<usize>>,
    request: Seq<Seq<usize>>,
    done: Seq<bool>,
    order: Seq<int>,
    k: int,
)
    requires
        done.len() == allocation.len(),
        is_stuck(total, allocation, request, done),
        is_safe_sequence(total, allocation, request, order),
        0 <= k <= allocation.len(),
    ensures
        forall|t: int| 0 <= t < k ==> done[#[trigger] order[t]],
    decreases k,
{
    let n = allocation.len() as int;
    if k > 0 {
        lemma_safe_order_stays_done(total, allocation, request, done, order, k - 1);
        let b = before(order, k - 1, n);
        assert forall|i: int| 0 <= i < n && #[trigger] b[i] implies done[i] by {
            let t = choose|t: int| 0 <= t < k - 1 && order[t] == i;
            assert(done[order[t]]);
        }
        let u = order[k - 1];
        assert(can_finish(total, allocation, request, b, u));
        assert forall|j: int| 0 <= j < total.len() implies request[u][j] <= #[trigger] work_of(
            total,
            allocation,
            done,
            j,
        ) by {
            lemma_masked_col_sum_mono(allocation, b, done, j, n);
            assert(request[u][j] <= work_of(total, allocation, b, j));
        }
        assert(can_finish(total, allocation, request, done, u));
    }
}

/// When some thread is left out of a stuck `done`, no order is safe: what
/// more threads could give back only grows with `done`.
pub proof fn lemma_stuck_is_unsafe(
    total: Seq<usize>,
    allocation: Seq<Seq<usize>>,
    request: Seq<Seq<usize>>,
    done: Seq<bool>,
    u: int,
)
    requires
        done.len() == allocation.len(),
        is_stuck(total, allocation, request, done),
        0 <= u < allocation.len(),
        !done[u],
    ensures
        !is_safe(total, allocation, request),
{
    if is_safe(total, allocation, request) {
        let order = choose|order: Seq<int>| is_safe_sequence(total, allocation, request, order);
        let n = allocation.len() as int;
        lemma_safe_order_stays_done(total, allocation, request, done, order, n);
        assert(order.contains(u));
        let t = choose|t: int| 0 <= t < order.len() && order[t] == u;
        assert(done[order[t]]);
    }
}

/// Number of `true` entries among the first `k` of `s`.
pub open spec fn count_true(s: Seq<bool>, k: int) -> int
    decreases k,
{
    if k <= 0 {
        0
    } else {
        count_true(s, k - 1) + if s[k - 1] {
            1int
        } else {
            0
        }
    }
}

proof fn lemma_count_true_bounds(s: Seq<bool>, k: int)
    requires
        0 <= k,
    ensures
        0 <= count_true(s, k) <= k,
        (forall|i: int| 0 <= i < k ==> #[trigger] s[i]) ==> count_true(s, k) == k,
    decreases k,
{
    if k > 0 {
        lemma_count_true_bounds(s, k - 1);
    }
}

proof fn lemma_count_true_select(s: Seq<bool>, i: int, k: int)
    requires
        0 <= i < s.len(),
        !s[i],
        k <= s.len(),
    ensures
        count_true(s.update(i, true), k) == count_true(s, k) + if i < k {
            1int
        } else {
            0
        },
    decreases k,
{
    if k > 0 {
        lemma_count_true_select(s, i, k - 1);
        assert(s.update(i, true)[k - 1] == if k - 1 == i {
            true
        } else {
            s[k - 1]
        });
    }
}

/// A sum over a prefix of the rows is at most the sum over more rows.
proof fn lemma_masked_col_sum_prefix(rows: Seq<Seq<usize>>, mask: Seq<bool>, j: int, k: int, n: int)
    requires
        0 <= k <= n,
    ensures
        masked_col_sum(rows, mask, j, k) <= masked_col_sum(rows, mask, j, n),
    decreases n - k,
{
    if k < n {
        lemma_masked_col_sum_prefix(rows, mask, j, k, n - 1);
    }
}

proof fn lemma_masked_col_sum_none(rows: Seq<Seq<usize>>, mask: Seq<bool>, j: int, k: int)
    requires
        forall|i: int| 0 <= i < k ==> !#[trigger] mask[i],
    ensures
        masked_col_sum(rows, mask, j, k) == 0,
    decreases k,
{
    if k > 0 {
        lemma_masked_col_sum_none(rows, mask, j, k - 1);
    }
}

/// Whether no column of `rows` sums to more than the matching entry of
/// `total`.
pub fn columns_within(rows: &Vec<Vec<usize>>, total: &Vec<usize>) -> (ok: bool)
    requires
        rows_have_len(rows.deep_view(), total@.len() as int),
    ensures
        ok == forall|j: int| 0 <= j < total@.len() ==> #[trigger] col_sum(rows.deep_view(), j) <= total@[j],
{
    let ghost a = rows.deep_view();
    proof {
        lemma_matrix_deep_view(rows);
    }
    let n = rows.len();
    let m = total.len();
    let mut j: usize = 0;
    while j < m
        invariant
            j <= m,
            m == total@.len(),
            n == a.len(),
            a == rows.deep_view(),
            rows@.len() == n,
            rows_have_len(a, m as int),
            forall|i: int| 0 <= i < n ==> #[trigger] rows@[i]@ == a[i],
            forall|jj: int| 0 <= jj < j ==> #[trigger] col_sum(a, jj) <= total@[jj],
        decreases m - j,
    {
        let mut sum: usize = 0;
        let mut i: usize = 0;
        while i < n
            invariant
                i <= n,
                j < m,
                m == total@.len(),
                n == a.len(),
                a == rows.deep_view(),
                rows@.len() == n,
                rows_have_len(a, m as int),
                forall|i: int| 0 <= i < n ==> #[trigger] rows@[i]@ == a[i],
                sum == masked_col_sum(a, full_mask(n as int), j as int, i as int),
                sum <= total@[j as int],
            decreases n - i,
        {
            proof {
                assert(rows@[i as int]@ == a[i as int]);
                assert(a[i as int].len() == m);
                assert(full_mask(n as int)[i as int]);
                assert(masked_col_sum(a, full_mask(n as int), j as int, i + 1) == sum + a[i as int][j as int]);
            }
            let next = sum.checked_add(rows[i][j]);
            match next {
                Some(s) => {
                    if s > total[j] {
                        proof {
                            lemma_masked_col_sum_prefix(a, full_mask(n as int), j as int, i + 1, n as int);
                            assert(col_sum(a, j as int) > total@[j as int]);
                        }
                        return false;
                    }
                    sum = s;
                },
                None => {
                    proof {
                        lemma_masked_col_sum_prefix(a, full_mask(n as int), j as int, i + 1, n as int);
                        assert(col_sum(a, j as int) > total@[j as int]);
                    }
                    return false;
                },
            }
            i = i + 1;
        }
        j = j + 1;
    }
    true
}

/// Runs the banker's safety check: threads whose request fits in what is
/// free finish and give back what they hold, pass after pass, until a pass
/// finishes none. The state is safe when every thread has finished.
pub fn is_safe_state(
    total: &Vec<usize>,
    allocation: &Vec<Vec<usize>>,
    request: &Vec<Vec<usize>>,
) -> (safe: bool)
    requires
        well_formed_state(total@, allocation.deep_view(), request.deep_view()),
    ensures
        safe == is_safe(total@, allocation.deep_view(), request.deep_view()),
{
    let ghost t = total@;
    let ghost a = allocation.deep_view();
    let ghost r = request.deep_view();
    let n = allocation.len();
    let m = total.len();
    proof {
        lemma_matrix_deep_view(allocation);
        lemma_matrix_deep_view(request);
    }
    assert(forall|i: int| 0 <= i < n ==> #[trigger] allocation@[i]@.len() == m);
    assert(forall|i: int| 0 <= i < n ==> #[trigger] request@[i]@.len() == m);

    let mut finish: Vec<bool> = Vec::new();
    let mut i: usize = 0;
    while i < n
        invariant
            i <= n,
            finish@.len() == i,
            forall|k: int| 0 <= k < i ==> !#[trigger] finish@[k],
        decreases n - i,
    {
        finish.push(false);
        i = i + 1;
    }

    let mut work: Vec<usize> = Vec::new();
    let mut j: usize = 0;
    while j < m
        invariant
            j <= m,
            m == t.len(),
            n == a.len(),
            t == total@,
            a == allocation.deep_view(),
            r == request.deep_view(),
            well_formed_state(t, a, r),
            finish@.len() == n,
            forall|k: int| 0 <= k < n ==> !#[trigger] finish@[k],
            allocation@.len() == n,
 forall|i: int| 0 <= i < n ==> #[trigger] allocation@[i]@ == a[i],
            forall|i: int| 0 <= i < n ==> #[trigger] allocation@[i]@.len() == m,
            work@.len() == j,
            forall|jj: int| 0 <= jj < j ==> #[trigger] work@[jj] == work_of(t, a, finish@, jj),
        decreases m - j,
    {
        let mut allocated: usize = 0;
        let mut i: usize = 0;
        while i < n
            invariant
                i <= n,
                j < m,
                n == a.len(),
                m == t.len(),
                well_formed_state(t, a, r),
                allocation@.len() == n,
 forall|i: int| 0 <= i < n ==> #[trigger] allocation@[i]@ == a[i],
                forall|i: int| 0 <= i < n ==> #[trigger] allocation@[i]@.len() == m,
                allocated == masked_col_sum(a, full_mask(n as int), j as int, i as int),
            decreases n - i,
        {
            proof {
                assert(allocation@[i as int]@ == a[i as int]);
                assert(a[i as int].len() == m);
                lemma_masked_col_sum_prefix(a, full_mask(n as int), j as int, i + 1, n as int);
                assert(col_sum(a, j as int) <= t[j as int]);
            }
            allocated = allocated + allocation[i][j];
            i = i + 1;
        }
        proof {
            lemma_masked_col_sum_none(a, finish@, j as int, n as int);
            assert(col_sum(a, j as int) <= t[j as int]);
        }
        work.push(total[j] - allocated);
        j = j + 1;
    }

    let ghost mut order: Seq<int> = Seq::empty();
    proof {
        assert(before(order, 0, n as int) =~= finish@);
        lemma_count_zero(finish@, n as int);
    }
    let mut change = true;
    loop
        invariant
            n == a.len(),
            m == t.len(),
            t == total@,
            a == allocation.deep_view(),
            r == request.deep_view(),
            well_formed_state(t, a, r),
            allocation@.len() == n,
 forall|i: int| 0 <= i < n ==> #[trigger] allocation@[i]@ == a[i],
            request@.len() == n,
 forall|i: int| 0 <= i < n ==> #[trigger] request@[i]@ == r[i],
            forall|i: int| 0 <= i < n ==> #[trigger] allocation@[i]@.len() == m,
            forall|i: int| 0 <= i < n ==> #[trigger] request@[i]@.len() == m,
            finish@.len() == n,
            work@.len() == m,
            forall|jj: int| 0 <= jj < m ==> #[trigger] work@[jj] == work_of(t, a, finish@, jj),
            order.no_duplicates(),
            forall|k: int| 0 <= k < order.len() ==> 0 <= #[trigger] order[k] < n,
            forall|i: int| 0 <= i < n ==> (#[trigger] finish@[i] <==> order.contains(i)),
            order.len() == count_true(finish@, n as int),
            before(order, order.len() as int, n as int) == finish@,
            forall|k: int|
                0 <= k < order.len() ==> #[trigger] can_finish(
                    t,
                    a,
                    r,
                    before(order, k, n as int),
                    order[k],
                ),
        ensures
            is_stuck(t, a, r, finish@),
        decreases n - order.len(),
    {
        proof {
            lemma_count_true_bounds(finish@, n as int);
        }
        change = false;
        let ghost start_len = order.len();
        let mut i: usize = 0;
        while i < n
            invariant
                i <= n,
                n == a.len(),
                m == t.len(),
                t == total@,
                a == allocation.deep_view(),
                r == request.deep_view(),
                well_formed_state(t, a, r),
                allocation@.len() == n,
 forall|i: int| 0 <= i < n ==> #[trigger] allocation@[i]@ == a[i],
                request@.len() == n,
 forall|i: int| 0 <= i < n ==> #[trigger] request@[i]@ == r[i],
                forall|i: int| 0 <= i < n ==> #[trigger] allocation@[i]@.len() == m,
                forall|i: int| 0 <= i < n ==> #[trigger] request@[i]@.len() == m,
                finish@.len() == n,
                work@.len() == m,
                forall|jj: int|
                    0 <= jj < m ==> #[trigger] work@[jj] == work_of(t, a, finish@, jj),
                order.no_duplicates(),
                forall|k: int| 0 <= k < order.len() ==> 0 <= #[trigger] order[k] < n,
                forall|i: int| 0 <= i < n ==> (#[trigger] finish@[i] <==> order.contains(i)),
                order.len() == count_true(finish@, n as int),
                before(order, order.len() as int, n as int) == finish@,
                forall|k: int|
                    0 <= k < order.len() ==> #[trigger] can_finish(
                        t,
                        a,
                        r,
                        before(order, k, n as int),
                        order[k],
                    ),
                order.len() >= start_len,
                change == (order.len() > start_len),
                !change ==> forall|ii: int|
                    0 <= ii < i && !#[trigger] finish@[ii] ==> !can_finish(t, a, r, finish@, ii),
            decreases n - i,
        {
            if finish[i] == false {
                let mut flag: usize = 0;
                let mut j: usize = 0;
                while j < m
                    invariant
                        j <= m,
                        i < n,
                        m == t.len(),
                        n == a.len(),
                        work@.len() == m,
                        request@.len() == n,
 forall|i: int| 0 <= i < n ==> #[trigger] request@[i]@ == r[i],
                        forall|i: int| 0 <= i < n ==> #[trigger] request@[i]@.len() == m,
                        flag == 0 ==> forall|jj: int|
                            0 <= jj < j ==> r[i as int][jj] <= #[trigger] work@[jj],
                        flag == 1 ==> exists|jj: int|
                            0 <= jj < m && r[i as int][jj] > #[trigger] work@[jj],
                        flag <= 1,
                        r.len() == n,
                    ensures
                        flag == 0 ==> forall|jj: int|
                            0 <= jj < m ==> r[i as int][jj] <= #[trigger] work@[jj],
                        flag == 1 ==> exists|jj: int|
                            0 <= jj < m && r[i as int][jj] > #[trigger] work@[jj],
                    decreases m - j,
                {
                    proof {
                        assert(request@[i as int]@ == r[i as int]);
                    }
                    if request[i][j] > work[j] {
                        flag = 1;
                        break;
                    }
                    j = j + 1;
                }
                if flag == 0 {
                    proof {
                        assert forall|jj: int| 0 <= jj < t.len() implies r[i as int][jj]
                            <= #[trigger] work_of(t, a, finish@, jj) by {
                            assert(r[i as int][jj] <= work@[jj]);
                        }
                        assert(can_finish(t, a, r, finish@, i as int));
                    }
                    let ghost old_finish = finish@;
                    let ghost new_finish = finish@.update(i as int, true);
                    let mut j: usize = 0;
                    while j < m
                        invariant
                            j <= m,
                            i < n,
                            n == a.len(),
                            m == t.len(),
                            well_formed_state(t, a, r),
                            allocation@.len() == n,
 forall|i: int| 0 <= i < n ==> #[trigger] allocation@[i]@ == a[i],
                            forall|i: int| 0 <= i < n ==> #[trigger] allocation@[i]@.len() == m,
                            old_finish.len() == n,
                            !old_finish[i as int],
                            new_finish == old_finish.update(i as int, true),
                            work@.len() == m,
                            forall|jj: int|
                                0 <= jj < j ==> #[trigger] work@[jj] == work_of(
                                    t,
                                    a,
                                    new_finish,
                                    jj,
                                ),
                            forall|jj: int|
                                j <= jj < m ==> #[trigger] work@[jj] == work_of(
                                    t,
                                    a,
                                    old_finish,
                                    jj,
                                ),
                        decreases m - j,
                    {
                        proof {
                            assert(allocation@[i as int]@ == a[i as int]);
                            assert(a[i as int].len() == m);
                            lemma_masked_col_sum_select(a, old_finish, i as int, j as int, n as int);
                            lemma_masked_col_sum_mono(
                                a,
                                new_finish,
                                full_mask(n as int),
                                j as int,
                                n as int,
                            );
                            assert(col_sum(a, j as int) <= t[j as int]);
                        }
                        let v = work[j] + allocation[i][j];
                        work.set(j, v);
                        j = j + 1;
                    }
                    proof {
                        lemma_count_true_select(finish@, i as int, n as int);
                    }
                    finish.set(i, true);
                    proof {
                        let old_order = order;
                        let len = old_order.len() as int;
                        order = order.push(i as int);
                        assert(!old_order.contains(i as int));
                        assert forall|k: int| 0 <= k <= len implies #[trigger] before(order, k, n as int)
                            == before(old_order, k, n as int) by {
                            assert forall|ii: int| 0 <= ii < n implies before(order, k, n as int)[ii]
                                == before(old_order, k, n as int)[ii] by {
                                if before(order, k, n as int)[ii] {
                                    let tt = choose|tt: int| 0 <= tt < k && order[tt] == ii;
                                    assert(old_order[tt] == ii);
                                }
                                if before(old_order, k, n as int)[ii] {
                                    let tt = choose|tt: int| 0 <= tt < k && old_order[tt] == ii;
                                    assert(order[tt] == ii);
                                }
                            }
                            assert(before(order, k, n as int) =~= before(old_order, k, n as int));
                        }
                        assert forall|ii: int| 0 <= ii < n implies (#[trigger] finish@[ii]
                            <==> order.contains(ii)) by {
                            if ii == i {
                                assert(order[len] == ii);
                            } else if old_order.contains(ii) {
                                let t = choose|t: int| 0 <= t < len && old_order[t] == ii;
                                assert(order[t] == ii);
                            } else if order.contains(ii) {
                                let t = choose|t: int| 0 <= t < len + 1 && order[t] == ii;
                                assert(old_order[t] == ii);
                            }
                        }
                        assert(before(order, len + 1, n as int) =~= finish@) by {
                            assert forall|ii: int| 0 <= ii < n implies before(
                                order,
                                len + 1,
                                n as int,
                            )[ii] == finish@[ii] by {
                                if finish@[ii] {
                                    assert(order.contains(ii));
                                    let t = choose|t: int| 0 <= t < len + 1 && order[t] == ii;
                                    assert(0 <= t < len + 1 && order[t] == ii);
                                }
                            }
                        }
                        assert(order[len] == i);
                        assert(can_finish(t, a, r, before(order, len, n as int), order[len]));
                    }
                    change = true;
                }
            } else {
            }
            i = i + 1;
        }
        proof {
            lemma_count_true_bounds(finish@, n as int);
        }
        if change == false {
            break;
        }
    }

    let mut i: usize = 0;
    while i < n
        invariant
            i <= n,
            n == a.len(),
            t == total@,
            a == allocation.deep_view(),
            r == request.deep_view(),
            finish@.len() == n,
            is_stuck(t, a, r, finish@),
            forall|k: int| 0 <= k < i ==> #[trigger] finish@[k],
        decreases n - i,
    {
        if finish[i] == false {
            proof {
                lemma_stuck_is_unsafe(t, a, r, finish@, i as int);
            }
            return false;
        }
        i = i + 1;
    }
    proof {
        lemma_count_true_bounds(finish@, n as int);
        assert forall|ii: int| 0 <= ii < n implies #[trigger] order.contains(ii) by {
            assert(finish@[ii]);
        }
        assert(is_safe_sequence(t, a, r, order));
    }
    true
}

/// A state in which no thread waits for anything is safe: the threads can
/// finish in the order of their ids.
pub proof fn lemma_no_requests_is_safe(
    total: Seq<usize>,
    allocation: Seq<Seq<usize>>,
    request: Seq<Seq<usize>>,
)
    requires
        well_formed_state(total, allocation, request),
        forall|i: int, j: int|
            0 <= i < request.len() && 0 <= j < total.len() ==> #[trigger] request[i][j] == 0,
    ensures
        is_safe(total, allocation, request),
{
    let n = allocation.len() as int;
    let order = Seq::new(n as nat, |i: int| i);
    assert forall|i: int| 0 <= i < n implies #[trigger] order.contains(i) by {
        assert(order[i] == i);
    }
    assert forall|k: int| 0 <= k < n implies #[trigger] can_finish(
        total,
        allocation,
        request,
        before(order, k, n),
        order[k],
    ) by {
        assert forall|j: int| 0 <= j < total.len() implies request[order[k]][j]
            <= #[trigger] work_of(total, allocation, before(order, k, n), j) by {
            lemma_masked_col_sum_nonneg(allocation, before(order, k, n), j, n);
            assert(col_sum(allocation, j) <= total[j]);
        }
    }
    assert(is_safe_sequence(total, allocation, request, order));
}

/// A single entry of a column is at most the column's sum.
pub proof fn lemma_entry_le_col_sum(rows: Seq<Seq<usize>>, k: int, j: int)
    requires
        0 <= k < rows.len(),
    ensures
        rows[k][j] <= col_sum(rows, j),
{
    let n = rows.len() as int;
    let f = full_mask(n);
    lemma_masked_col_sum_prefix(rows, f, j, k + 1, n);
    lemma_masked_col_sum_nonneg(rows, f, j, k);
    assert(f[k]);
}

/// A thread that asks for more of a resource than there is in total can
/// never finish, so no order is safe.
pub proof fn lemma_over_total_is_unsafe(
    total: Seq<usize>,
    allocation: Seq<Seq<usize>>,
    request: Seq<Seq<usize>>,
    i: int,
    j: int,
)
    requires
        well_formed_state(total, allocation, request),
        0 <= i < allocation.len(),
        0 <= j < total.len(),
        request[i][j] > total[j],
    ensures
        !is_safe(total, allocation, request),
{
    if is_safe(total, allocation, request) {
        let n = allocation.len() as int;
        let order = choose|order: Seq<int>| is_safe_sequence(total, allocation, request, order);
        assert(order.contains(i));
        let t = choose|t: int| 0 <= t < order.len() && order[t] == i;
        let b = before(order, t, n);
        assert(can_finish(total, allocation, request, b, order[t]));
        lemma_masked_col_sum_mono(allocation, b, full_mask(n), j, n);
        assert(request[i][j] <= work_of(total, allocation, b, j));
        assert(col_sum(allocation, j) <= total[j]);
    }
}

/// Thread `i` waits for some resource all of whose units are held.
pub open spec fn waits_on_held(
    total: Seq<usize>,
    allocation: Seq<Seq<usize>>,
    request: Seq<Seq<usize>>,
    i: int,
) -> bool {
    exists|j: int|
        0 <= j < total.len() && request[i][j] > 0 && #[trigger] col_sum(allocation, j) == total[j]
}

/// When every thread waits for some resource all of whose units are held,
/// no thread can start, so no order is safe.
pub proof fn lemma_all_wait_on_held_is_unsafe(
    total: Seq<usize>,
    allocation: Seq<Seq<usize>>,
    request: Seq<Seq<usize>>,
)
    requires
        well_formed_state(total, allocation, request),
        allocation.len() > 0,
        forall|i: int|
            0 <= i < allocation.len() ==> #[trigger] waits_on_held(total, allocation, request, i),
    ensures
        !is_safe(total, allocation, request),
{
    let n = allocation.len() as int;
    let done = Seq::new(n as nat, |i: int| false);
    assert forall|i: int| 0 <= i < n && !#[trigger] done[i] implies !can_finish(
        total,
        allocation,
        request,
        done,
        i,
    ) by {
        assert(waits_on_held(total, allocation, request, i));
        let j = choose|j: int|
            0 <= j < total.len() && request[i][j] > 0 && #[trigger] col_sum(allocation, j)
                == total[j];
        lemma_masked_col_sum_none(allocation, done, j, n);
        assert(work_of(total, allocation, done, j) == 0);
    }
    lemma_stuck_is_unsafe(total, allocation, request, done, 0);
}

proof fn lemma_matrix_deep_view(v: &Vec<Vec<usize>>)
    ensures
        v.deep_view().len() == v@.len(),
        forall|i: int| 0 <= i < v@.len() ==> #[trigger] v@[i]@ == v.deep_view()[i],
{
    assert forall|i: int| 0 <= i < v@.len() implies #[trigger] v@[i]@ == v.deep_view()[i] by {
        assert(v@[i]@ =~= v.deep_view()[i]);
    }
}

proof fn lemma_count_zero(s: Seq<bool>, k: int)
    requires
        forall|i: int| 0 <= i < k ==> !#[trigger] s[i],
    ensures
        count_true(s, k) == 0,
    decreases k,
{
    if k > 0 {
        lemma_count_zero(s, k - 1);
    }
}

} // verus!
