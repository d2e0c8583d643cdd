//! Deadlock detection: a Banker's-algorithm safety check run before a task
//! would block on a mutex lock or a semaphore acquire.
//!
//! Mutexes and semaphores are pooled into one resource-index space: mutex
//! `i` is column `i`, semaphore `i` is column `nm + i` where `nm` is the
//! number of mutex slots. The check builds each task's held-unit row and
//! pending-need row (with the hypothetical request folded into the
//! requesting task's row), the available-unit vector, and then repeatedly
//! retires any task whose whole need row fits into the available vector,
//! returning its held units to the pool. The request is refused exactly when
//! some task can never be retired — which is proved here to coincide with
//! the declarative statement: no complete retirement order of all tasks
//! exists.

use vstd::prelude::*;

use crate::sync::Mutex;
use crate::sync::Semaphore;
use crate::task::Task;

verus! {

/// Column of resource `(flag, id)` in the pooled index space.
pub open spec fn res_index(flag: bool, id: int, nm: int) -> int {
    if flag {
        nm + id
    } else {
        id
    }
}

/// Task `t` holds a unit of the resource in column `j`.
pub open spec fn task_holds(t: Task, j: int, nm: int) -> bool {
    if j < nm {
        t.allocation@.contains((false, j as usize))
    } else {
        t.allocation@.contains((true, (j - nm) as usize))
    }
}

/// Task `t`'s pending need sits in column `j`.
pub open spec fn task_needs(t: Task, j: int, nm: int) -> bool {
    if j < nm {
        t.need == Some((false, j as usize))
    } else {
        t.need == Some((true, (j - nm) as usize))
    }
}

/// A `usize` row read as mathematical integers.
pub open spec fn row_view(v: Seq<usize>) -> Seq<int> {
    Seq::new(v.len(), |j: int| v[j] as int)
}

/// Held units of one task slot, per column (0 or 1; an empty slot holds
/// nothing).
pub open spec fn alloc_row(ot: Option<Task>, nm: int, nr: int) -> Seq<int> {
    Seq::new(nr as nat, |j: int|
        if ot is Some && task_holds(ot.unwrap(), j, nm) {
            1int
        } else {
            0int
        })
}

/// Needed units of one task slot, per column; `extra` is the column of the
/// hypothetical request folded in (or `-1` for none).
pub open spec fn need_row(ot: Option<Task>, nm: int, nr: int, extra: int) -> Seq<int> {
    Seq::new(nr as nat, |j: int|
        (if ot is Some && task_needs(ot.unwrap(), j, nm) {
            1int
        } else {
            0int
        }) + (if j == extra {
            1int
        } else {
            0int
        }))
}

/// The whole allocation matrix.
pub open spec fn alloc_mat(tasks: Seq<Option<Task>>, nm: int, nr: int) -> Seq<Seq<int>> {
    Seq::new(tasks.len(), |t: int| alloc_row(tasks[t], nm, nr))
}

/// The whole need matrix, with the request at column `rj` folded into the
/// requesting slot `rtid`.
pub open spec fn need_mat(tasks: Seq<Option<Task>>, nm: int, nr: int, rtid: int, rj: int)
    -> Seq<Seq<int>> {
    Seq::new(tasks.len(), |t: int| need_row(tasks[t], nm, nr, if t == rtid { rj } else { -1 }))
}

/// Currently available units per column: 1 for an unheld mutex, a
/// semaphore's live count, 0 for an empty slot.
pub open spec fn work_init(mutex_list: Seq<Option<Mutex>>, semaphore_list: Seq<Option<Semaphore>>)
    -> Seq<int> {
    let nm = mutex_list.len() as int;
    Seq::new((mutex_list.len() + semaphore_list.len()) as nat, |j: int|
        if j < nm {
            if mutex_list[j] is Some && !mutex_list[j].unwrap().locked {
                1int
            } else {
                0int
            }
        } else {
            if semaphore_list[j - nm] is Some {
                semaphore_list[j - nm].unwrap().count as int
            } else {
                0int
            }
        })
}

/// Element-wise comparison of two equal-length rows.
pub open spec fn row_le(a: Seq<int>, b: Seq<int>) -> bool {
    a.len() == b.len() && forall|j: int| 0 <= j < a.len() ==> a[j] <= b[j]
}

/// Element-wise sum of two rows.
pub open spec fn row_add(a: Seq<int>, b: Seq<int>) -> Seq<int> {
    Seq::new(a.len(), |j: int| a[j] + b[j])
}

/// The all-zero row.
pub open spec fn zero_row(nr: int) -> Seq<int> {
    Seq::new(nr as nat, |j: int| 0int)
}

/// Sum of the matrix rows picked out by `idxs`, in order.
pub open spec fn sum_rows(m: Seq<Seq<int>>, idxs: Seq<int>, nr: int) -> Seq<int>
    decreases idxs.len(),
{
    if idxs.len() == 0 {
        zero_row(nr)
    } else {
        row_add(sum_rows(m, idxs.drop_last(), nr), m[idxs.last()])
    }
}

/// Shape of a matrix: one row per task slot, `nr` non-negative entries each.
pub open spec fn mat_ok(m: Seq<Seq<int>>, nr: int) -> bool {
    forall|i: int| 0 <= i < m.len() ==> (#[trigger] m[i]).len() == nr
        && forall|j: int| 0 <= j < nr ==> m[i][j] >= 0
}

/// `order` is a valid retirement sequence: distinct task slots, each of
/// whose need row fits into the units available once its predecessors have
/// returned theirs.
pub open spec fn finish_order_ok(
    alloc: Seq<Seq<int>>,
    need: Seq<Seq<int>>,
    work0: Seq<int>,
    nr: int,
    order: Seq<int>,
) -> bool {
    &&& order.no_duplicates()
    &&& forall|k: int| 0 <= k < order.len() ==> 0 <= #[trigger] order[k] < alloc.len()
    &&& forall|k: int| 0 <= k < order.len()
            ==> row_le(
                need[#[trigger] order[k]],
                row_add(work0, sum_rows(alloc, order.take(k), nr)),
            )
}

/// The system can retire every task slot in some order.
pub open spec fn system_safe(
    alloc: Seq<Seq<int>>,
    need: Seq<Seq<int>>,
    work0: Seq<int>,
    nr: int,
) -> bool {
    exists|order: Seq<int>|
        finish_order_ok(alloc, need, work0, nr, order) && order.len() == alloc.len()
}

/// The hypothetical request `(flag, id)` by task `rtid` is unsafe: granting
/// it would leave no order in which every task can finish.
pub open spec fn banker_denies(
    tasks: Seq<Option<Task>>,
    mutex_list: Seq<Option<Mutex>>,
    semaphore_list: Seq<Option<Semaphore>>,
    flag: bool,
    id: int,
    rtid: int,
) -> bool {
    let nm = mutex_list.len() as int;
    let nr = nm + semaphore_list.len() as int;
    !system_safe(
        alloc_mat(tasks, nm, nr),
        need_mat(tasks, nm, nr, rtid, res_index(flag, id, nm)),
        work_init(mutex_list, semaphore_list),
        nr,
    )
}

/// A summed selection of well-shaped rows is itself well-shaped.
proof fn lemma_sum_rows_shape(m: Seq<Seq<int>>, idxs: Seq<int>, nr: int)
    requires
        mat_ok(m, nr),
        nr >= 0,
        forall|k: int| 0 <= k < idxs.len() ==> 0 <= #[trigger] idxs[k] < m.len(),
    ensures
        sum_rows(m, idxs, nr).len() == nr,
        forall|j: int| 0 <= j < nr ==> #[trigger] sum_rows(m, idxs, nr)[j] >= 0,
    decreases idxs.len(),
{
    if idxs.len() > 0 {
        lemma_sum_rows_shape(m, idxs.drop_last(), nr);
    }
}

/// Entries of a summed selection are bounded by the number of rows summed,
/// when every entry of the matrix is at most 1.
proof fn lemma_sum_rows_bound(m: Seq<Seq<int>>, idxs: Seq<int>, nr: int)
    requires
        mat_ok(m, nr),
        nr >= 0,
        forall|k: int| 0 <= k < idxs.len() ==> 0 <= #[trigger] idxs[k] < m.len(),
        forall|i: int, j: int| 0 <= i < m.len() && 0 <= j < nr ==> #[trigger] m[i][j] <= 1,
    ensures
        forall|j: int| 0 <= j < nr ==> #[trigger] sum_rows(m, idxs, nr)[j] <= idxs.len(),
    decreases idxs.len(),
{
    if idxs.len() > 0 {
        lemma_sum_rows_bound(m, idxs.drop_last(), nr);
        lemma_sum_rows_shape(m, idxs.drop_last(), nr);
        assert forall|j: int| 0 <= j < nr
            implies #[trigger] sum_rows(m, idxs, nr)[j] <= idxs.len()
        by {
            assert(sum_rows(m, idxs, nr)[j]
                == sum_rows(m, idxs.drop_last(), nr)[j] + m[idxs.last()][j]);
        }
    }
}

/// Removing one pick from a selection removes exactly its row from the sum.
proof fn lemma_sum_rows_remove(m: Seq<Seq<int>>, idxs: Seq<int>, nr: int, i: int)
    requires
        mat_ok(m, nr),
        nr >= 0,
        forall|k: int| 0 <= k < idxs.len() ==> 0 <= #[trigger] idxs[k] < m.len(),
        0 <= i < idxs.len(),
    ensures
        sum_rows(m, idxs, nr) == row_add(sum_rows(m, idxs.remove(i), nr), m[idxs[i]]),
    decreases idxs.len(),
{
    idxs.remove_ensures(i);
    if i == idxs.len() - 1 {
        assert(idxs.remove(i) =~= idxs.drop_last());
    } else {
        let rest = idxs.drop_last();
        assert(idxs.remove(i).drop_last() =~= rest.remove(i)) by {
            rest.remove_ensures(i);
        }
        assert(idxs.remove(i).last() == idxs.last());
        lemma_sum_rows_remove(m, rest, nr, i);
        lemma_sum_rows_shape(m, rest.remove(i), nr);
        assert(sum_rows(m, idxs, nr) =~= row_add(
            sum_rows(m, idxs.remove(i), nr),
            m[idxs[i]],
        )) by {
            lemma_sum_rows_shape(m, rest, nr);
            lemma_sum_rows_shape(m, idxs.remove(i), nr);
        }
    }
}

/// Summing a duplicate-free sub-selection never exceeds summing the whole
/// duplicate-free selection.
proof fn lemma_sum_rows_subset_le(m: Seq<Seq<int>>, sub: Seq<int>, full: Seq<int>, nr: int)
    requires
        mat_ok(m, nr),
        nr >= 0,
        sub.no_duplicates(),
        full.no_duplicates(),
        forall|k: int| 0 <= k < sub.len() ==> 0 <= #[trigger] sub[k] < m.len(),
        forall|k: int| 0 <= k < full.len() ==> 0 <= #[trigger] full[k] < m.len(),
        forall|k: int| 0 <= k < sub.len() ==> full.contains(#[trigger] sub[k]),
    ensures
        row_le(sum_rows(m, sub, nr), sum_rows(m, full, nr)),
    decreases sub.len(),
{
    lemma_sum_rows_shape(m, sub, nr);
    lemma_sum_rows_shape(m, full, nr);
    if sub.len() == 0 {
    } else {
        let x = sub.last();
        assert(full.contains(x));
        let i = choose|i: int| 0 <= i < full.len() && full[i] == x;
        let full2 = full.remove(i);
        full.remove_ensures(i);
        assert(full2.no_duplicates()) by {
            assert forall|p: int, q: int|
                0 <= p < full2.len() && 0 <= q < full2.len() && p != q
                implies full2[p] != full2[q]
            by {
                let p0: int = if p < i { p } else { p + 1 };
                let q0: int = if q < i { q } else { q + 1 };
                assert(full2[p] == full[p0]);
                assert(full2[q] == full[q0]);
            }
        }
        let sub2 = sub.drop_last();
        assert forall|k: int| 0 <= k < sub2.len() implies full2.contains(#[trigger] sub2[k]) by {
            let y = sub2[k];
            assert(sub[k] == y);
            assert(full.contains(y));
            let p = choose|p: int| 0 <= p < full.len() && full[p] == y;
            assert(y != x);
            assert(p != i);
            if p < i {
                assert(full2[p] == y);
            } else {
                assert(full2[p - 1] == y);
            }
        }
        lemma_sum_rows_subset_le(m, sub2, full2, nr);
        lemma_sum_rows_remove(m, full, nr, i);
        lemma_sum_rows_shape(m, sub2, nr);
        lemma_sum_rows_shape(m, full2, nr);
        assert forall|j: int| 0 <= j < nr
            implies #[trigger] sum_rows(m, sub, nr)[j] <= sum_rows(m, full, nr)[j]
        by {
            assert(sum_rows(m, sub, nr)[j] == sum_rows(m, sub2, nr)[j] + m[x][j]);
            assert(sum_rows(m, full, nr)[j] == sum_rows(m, full2, nr)[j] + m[x][j]);
        }
    }
}

/// A duplicate-free sequence over `[0, n)` has at most `n` entries.
proof fn lemma_nodup_len_bound(s: Seq<int>, n: int)
    requires
        s.no_duplicates(),
        forall|k: int| 0 <= k < s.len() ==> 0 <= #[trigger] s[k] < n,
        n >= 0,
    ensures
        s.len() <= n,
{
    broadcast use vstd::seq_lib::seq_to_set_is_finite;

    s.unique_seq_to_set();
    vstd::set_lib::lemma_int_range(0, n);
    assert(s.to_set().subset_of(vstd::set_lib::set_int_range(0, n))) by {
        assert forall|x: int| s.to_set().contains(x)
            implies vstd::set_lib::set_int_range(0, n).contains(x)
        by {
            assert(s.contains(x));
        }
    }
    vstd::set_lib::lemma_len_subset(s.to_set(), vstd::set_lib::set_int_range(0, n));
}

/// A duplicate-free sequence of all `n` values over `[0, n)` contains each.
proof fn lemma_nodup_full_covers(s: Seq<int>, n: int, t: int)
    requires
        s.no_duplicates(),
        forall|k: int| 0 <= k < s.len() ==> 0 <= #[trigger] s[k] < n,
        s.len() == n,
        0 <= t < n,
    ensures
        s.contains(t),
{
    broadcast use vstd::seq_lib::seq_to_set_is_finite;

    if !s.contains(t) {
        s.unique_seq_to_set();
        vstd::set_lib::lemma_int_range(0, n);
        let shrunk = vstd::set_lib::set_int_range(0, n).remove(t);
        assert(s.to_set().subset_of(shrunk)) by {
            assert forall|x: int| s.to_set().contains(x) implies shrunk.contains(x) by {
                assert(s.contains(x));
            }
        }
        vstd::set_lib::lemma_len_subset(s.to_set(), shrunk);
        assert(false);
    }
}

/// The first position of `sigma` whose value the greedy pass has not
/// retired.
proof fn first_missing_index(sigma: Seq<int>, order: Seq<int>) -> (k: int)
    requires
        exists|i: int| 0 <= i < sigma.len() && !order.contains(#[trigger] sigma[i]),
    ensures
        0 <= k < sigma.len(),
        !order.contains(sigma[k]),
        forall|i: int| 0 <= i < k ==> order.contains(#[trigger] sigma[i]),
    decreases sigma.len(),
{
    if !order.contains(sigma[0]) {
        0
    } else {
        let rest = sigma.drop_first();
        assert(exists|i: int| 0 <= i < rest.len() && !order.contains(#[trigger] rest[i])) by {
            let i0 = choose|i: int| 0 <= i < sigma.len() && !order.contains(#[trigger] sigma[i]);
            assert(rest[i0 - 1] == sigma[i0]);
        }
        let k1 = first_missing_index(rest, order);
        assert(sigma[k1 + 1] == rest[k1]);
        assert forall|i: int| 0 <= i < k1 + 1 implies order.contains(#[trigger] sigma[i]) by {
            if i > 0 {
                assert(rest[i - 1] == sigma[i]);
            }
        }
        k1 + 1
    }
}

/// Completeness of the greedy pass: if it gets stuck with some task slots
/// unretired, then no complete retirement order exists at all. The first
/// unretired slot of any claimed complete order would have fit into the
/// stuck pass's available units.
proof fn lemma_greedy_stuck_unsafe(
    alloc: Seq<Seq<int>>,
    need: Seq<Seq<int>>,
    work0: Seq<int>,
    nr: int,
    order: Seq<int>,
)
    requires
        mat_ok(alloc, nr),
        nr >= 0,
        need.len() == alloc.len(),
        work0.len() == nr,
        finish_order_ok(alloc, need, work0, nr, order),
        order.len() < alloc.len(),
        forall|t: int| 0 <= t < alloc.len() && !order.contains(t)
            ==> !row_le(#[trigger] need[t], row_add(work0, sum_rows(alloc, order, nr))),
    ensures
        !system_safe(alloc, need, work0, nr),
{
    if !system_safe(alloc, need, work0, nr) {
        return;
    }
    let sigma = choose|sigma: Seq<int>|
        finish_order_ok(alloc, need, work0, nr, sigma) && sigma.len() == alloc.len();
    let n = alloc.len() as int;
    // some slot is unretired, and sigma names every slot
    lemma_nodup_len_bound(order, n);
    let missing = choose|t: int| 0 <= t < n && !order.contains(t);
    assert(exists|t: int| 0 <= t < n && !order.contains(t)) by {
        if forall|t: int| 0 <= t < n ==> order.contains(t) {
            broadcast use vstd::seq_lib::seq_to_set_is_finite;

            order.unique_seq_to_set();
            vstd::set_lib::lemma_int_range(0, n);
            assert(vstd::set_lib::set_int_range(0, n).subset_of(order.to_set())) by {
                assert forall|x: int| vstd::set_lib::set_int_range(0, n).contains(x)
                    implies order.to_set().contains(x)
                by {
                    assert(order.contains(x));
                }
            }
            vstd::set_lib::lemma_len_subset(
                vstd::set_lib::set_int_range(0, n),
                order.to_set(),
            );
            assert(false);
        }
    }
    let missing2 = choose|t: int| 0 <= t < n && !order.contains(t);
    lemma_nodup_full_covers(sigma, n, missing2);
    assert(exists|i: int| 0 <= i < sigma.len() && !order.contains(#[trigger] sigma[i])) by {
        let i0 = choose|i: int| 0 <= i < sigma.len() && sigma[i] == missing2;
        assert(!order.contains(sigma[i0]));
    }
    let k = first_missing_index(sigma, order);
    let t = sigma[k];
    let preds = sigma.take(k);
    assert(preds.no_duplicates()) by {
        assert forall|p: int, q: int|
            0 <= p < preds.len() && 0 <= q < preds.len() && p != q
            implies preds[p] != preds[q]
        by {
            assert(preds[p] == sigma[p]);
            assert(preds[q] == sigma[q]);
        }
    }
    assert forall|kk: int| 0 <= kk < preds.len() implies order.contains(#[trigger] preds[kk]) by {
        assert(preds[kk] == sigma[kk]);
    }
    lemma_sum_rows_subset_le(alloc, preds, order, nr);
    lemma_sum_rows_shape(alloc, preds, nr);
    lemma_sum_rows_shape(alloc, order, nr);
    // sigma's validity at position k, monotonicity to the stuck work vector
    assert(row_le(need[t], row_add(work0, sum_rows(alloc, preds, nr))));
    assert(row_le(need[t], row_add(work0, sum_rows(alloc, order, nr)))) by {
        assert forall|j: int| 0 <= j < nr
            implies need[t][j] <= row_add(work0, sum_rows(alloc, order, nr))[j]
        by {
            assert(need[t][j] <= row_add(work0, sum_rows(alloc, preds, nr))[j]);
            assert(sum_rows(alloc, preds, nr)[j] <= sum_rows(alloc, order, nr)[j]);
        }
    }
    assert(!row_le(need[t], row_add(work0, sum_rows(alloc, order, nr))));
    assert(false);
}

/// One task slot's held-unit row as machine integers.
fn build_alloc_row(ot: &Option<Task>, nm: usize, nr: usize) -> (v: Vec<usize>)
    requires
        nm <= nr,
    ensures
        v@.len() == nr,
        row_view(v@) == alloc_row(*ot, nm as int, nr as int),
{
    let mut v: Vec<usize> = Vec::new();
    let mut j: usize = 0;
    while j < nr
        invariant
            j <= nr,
            nm <= nr,
            v@.len() == j,
            forall|k: int| 0 <= k < j ==> (#[trigger] v@[k]) as int
                == alloc_row(*ot, nm as int, nr as int)[k],
        decreases nr - j,
    {
        let held: bool = match ot {
            Some(tk) => if j < nm {
                tk.holds(false, j)
            } else {
                tk.holds(true, j - nm)
            },
            None => false,
        };
        v.push(if held { 1 } else { 0 });
        j = j + 1;
    }
    proof {
        assert(row_view(v@) =~= alloc_row(*ot, nm as int, nr as int));
    }
    v
}

/// One task slot's needed-unit row, with the hypothetical request folded in
/// when `extra` names a column.
fn build_need_row(ot: &Option<Task>, nm: usize, nr: usize, extra: Option<usize>) -> (v: Vec<usize>)
    requires
        nm <= nr,
    ensures
        v@.len() == nr,
        row_view(v@) == need_row(*ot, nm as int, nr as int, match extra {
            Some(e) => e as int,
            None => -1,
        }),
{
    let ghost ge: int = match extra {
        Some(e) => e as int,
        None => -1,
    };
    let mut v: Vec<usize> = Vec::new();
    let mut j: usize = 0;
    while j < nr
        invariant
            j <= nr,
            nm <= nr,
            v@.len() == j,
            ge == match extra {
                Some(e) => e as int,
                None => -1int,
            },
            forall|k: int| 0 <= k < j ==> (#[trigger] v@[k]) as int
                == need_row(*ot, nm as int, nr as int, ge)[k],
        decreases nr - j,
    {
        let base: usize = match ot {
            Some(tk) => {
                let needs: bool = match &tk.need {
                    Some(e) => if j < nm {
                        !e.0 && e.1 == j
                    } else {
                        e.0 && e.1 == j - nm
                    },
                    None => false,
                };
                proof {
                    assert(needs == task_needs(*tk, j as int, nm as int));
                }
                if needs { 1 } else { 0 }
            },
            None => 0,
        };
        let bump: usize = match extra {
            Some(e) => if e == j { 1 } else { 0 },
            None => 0,
        };
        v.push(base + bump);
        j = j + 1;
    }
    proof {
        assert(row_view(v@) =~= need_row(*ot, nm as int, nr as int, ge));
    }
    v
}

/// Whether row `a` fits element-wise into row `b`.
fn row_le_exec(a: &Vec<usize>, b: &Vec<usize>) -> (r: bool)
    requires
        a@.len() == b@.len(),
    ensures
        r == row_le(row_view(a@), row_view(b@)),
{
    let n = a.len();
    let mut j: usize = 0;
    while j < n
        invariant
            j <= n,
            n == a@.len(),
            a@.len() == b@.len(),
            forall|k: int| 0 <= k < j ==> (#[trigger] a@[k]) <= b@[k],
        decreases n - j,
    {
        if a[j] > b[j] {
            proof {
                assert(row_view(a@)[j as int] > row_view(b@)[j as int]);
            }
            return false;
        }
        j = j + 1;
    }
    true
}

/// Add row `row` into `work`, element-wise.
fn add_row(work: &mut Vec<usize>, row: &Vec<usize>)
    requires
        old(work)@.len() == row@.len(),
        forall|j: int| 0 <= j < row@.len()
            ==> (#[trigger] old(work)@[j]) + row@[j] <= usize::MAX,
    ensures
        final(work)@.len() == old(work)@.len(),
        row_view(final(work)@) == row_add(row_view(old(work)@), row_view(row@)),
{
    let n = work.len();
    let mut j: usize = 0;
    while j < n
        invariant
            j <= n,
            n == work@.len(),
            work@.len() == old(work)@.len(),
            old(work)@.len() == row@.len(),
            forall|k: int| 0 <= k < row@.len()
                ==> (#[trigger] old(work)@[k]) + row@[k] <= usize::MAX,
            forall|k: int| j <= k < n ==> (#[trigger] work@[k]) == old(work)@[k],
            forall|k: int| 0 <= k < j ==> (#[trigger] work@[k]) == old(work)@[k] + row@[k],
        decreases n - j,
    {
        let w = work[j];
        let x = row[j];
        work[j] = w + x;
        j = j + 1;
    }
    proof {
        assert(row_view(work@) =~= row_add(row_view(old(work)@), row_view(row@)));
    }
}

/// The Banker's safety check for the hypothetical request `(flag, id)` made
/// by task `tid`: `true` refuses the request (granting it could deadlock),
/// `false` certifies that every task can still finish.
#[verifier::rlimit(100)]
pub fn deadlock_detect(
    tasks: &Vec<Option<Task>>,
    mutex_list: &Vec<Option<Mutex>>,
    semaphore_list: &Vec<Option<Semaphore>>,
    flag: bool,
    id: usize,
    tid: usize,
) -> (r: bool)
    requires
        (tid as int) < tasks@.len(),
        !flag ==> (id as int) < mutex_list@.len(),
        flag ==> (id as int) < semaphore_list@.len(),
        mutex_list@.len() + semaphore_list@.len() <= usize::MAX,
        tasks@.len() < usize::MAX,
        forall|s: int| 0 <= s < semaphore_list@.len() && (#[trigger] semaphore_list@[s]) is Some
            ==> semaphore_list@[s].unwrap().count + tasks@.len() <= usize::MAX,
    ensures
        r == banker_denies(tasks@, mutex_list@, semaphore_list@, flag, id as int, tid as int),
{
    let nm = mutex_list.len();
    let ns = semaphore_list.len();
    let nr = nm + ns;
    let n = tasks.len();
    let ghost gnm = nm as int;
    let ghost gnr = nr as int;
    let ghost grj = res_index(flag, id as int, gnm);
    let ghost galloc = alloc_mat(tasks@, gnm, gnr);
    let ghost gneed = need_mat(tasks@, gnm, gnr, tid as int, grj);
    let ghost gwork0 = work_init(mutex_list@, semaphore_list@);

    // per-slot held and needed rows
    let mut alloc_m: Vec<Vec<usize>> = Vec::new();
    let mut need_m: Vec<Vec<usize>> = Vec::new();
    let mut t: usize = 0;
    while t < n
        invariant
            t <= n,
            n == tasks@.len(),
            nm == mutex_list@.len(),
            nr == nm + semaphore_list@.len(),
            gnm == nm as int,
            gnr == nr as int,
            grj == res_index(flag, id as int, gnm),
            galloc == alloc_mat(tasks@, gnm, gnr),
            gneed == need_mat(tasks@, gnm, gnr, tid as int, grj),
            (tid as int) < tasks@.len(),
            ns == semaphore_list@.len(),
            flag ==> (id as int) < ns,
            alloc_m@.len() == t,
            need_m@.len() == t,
            forall|u: int| 0 <= u < t ==> (#[trigger] alloc_m@[u])@.len() == nr
                && row_view(alloc_m@[u]@) == galloc[u],
            forall|u: int| 0 <= u < t ==> (#[trigger] need_m@[u])@.len() == nr
                && row_view(need_m@[u]@) == gneed[u],
        decreases n - t,
    {
        let ra = build_alloc_row(&tasks[t], nm, nr);
        let extra: Option<usize> = if t == tid {
            if flag {
                Some(nm + id)
            } else {
                Some(id)
            }
        } else {
            None
        };
        let rn = build_need_row(&tasks[t], nm, nr, extra);
        alloc_m.push(ra);
        need_m.push(rn);
        t = t + 1;
    }

    // available units per column
    let mut work: Vec<usize> = Vec::new();
    let mut j: usize = 0;
    while j < nm
        invariant
            j <= nm,
            nm == mutex_list@.len(),
            gwork0 == work_init(mutex_list@, semaphore_list@),
            work@.len() == j,
            forall|k: int| 0 <= k < j ==> (#[trigger] work@[k]) as int == gwork0[k],
            forall|k: int| 0 <= k < j ==> (#[trigger] work@[k]) <= 1,
        decreases nm - j,
    {
        let avail: usize = match &mutex_list[j] {
            Some(mx) => if mx.is_locked() { 0 } else { 1 },
            None => 0,
        };
        work.push(avail);
        j = j + 1;
    }
    let mut sjj: usize = 0;
    while sjj < ns
        invariant
            sjj <= ns,
            nm == mutex_list@.len(),
            ns == semaphore_list@.len(),
            nr == nm + ns,
            n == tasks@.len(),
            gwork0 == work_init(mutex_list@, semaphore_list@),
            work@.len() == nm + sjj,
            forall|k: int| 0 <= k < nm + sjj ==> (#[trigger] work@[k]) as int == gwork0[k],
            forall|k: int| 0 <= k < nm + sjj ==> (#[trigger] work@[k]) + n <= usize::MAX,
            n < usize::MAX,
            forall|s: int| 0 <= s < semaphore_list@.len()
                && (#[trigger] semaphore_list@[s]) is Some
                ==> semaphore_list@[s].unwrap().count + tasks@.len() <= usize::MAX,
        decreases ns - sjj,
    {
        let avail: usize = match &semaphore_list[sjj] {
            Some(sm) => sm.count,
            None => 0,
        };
        work.push(avail);
        sjj = sjj + 1;
    }
    proof {
        assert(row_view(work@) =~= gwork0);
    }

    // greedy retirement
    let mut finish: Vec<bool> = Vec::new();
    let mut fi: usize = 0;
    while fi < n
        invariant
            fi <= n,
            finish@.len() == fi,
            forall|k: int| 0 <= k < fi ==> !(#[trigger] finish@[k]),
        decreases n - fi,
    {
        finish.push(false);
        fi = fi + 1;
    }
    let ghost mut order: Seq<int> = Seq::empty();
    proof {
        assert(row_view(work@) =~= row_add(gwork0, sum_rows(galloc, order, gnr)));
        assert(mat_ok(galloc, gnr)) by {
            assert forall|i: int| 0 <= i < galloc.len() implies (#[trigger] galloc[i]).len() == gnr
                && forall|jj: int| 0 <= jj < gnr ==> galloc[i][jj] >= 0
            by {
                assert(galloc[i] == alloc_row(tasks@[i], gnm, gnr));
            }
        }
        assert(mat_ok(gneed, gnr)) by {
            assert forall|i: int| 0 <= i < gneed.len() implies (#[trigger] gneed[i]).len() == gnr
                && forall|jj: int| 0 <= jj < gnr ==> gneed[i][jj] >= 0
            by {
                assert(gneed[i] == need_row(
                    tasks@[i],
                    gnm,
                    gnr,
                    if i == tid as int { grj } else { -1int },
                ));
            }
        }
        assert forall|i: int, jj: int| 0 <= i < galloc.len() && 0 <= jj < gnr
            implies #[trigger] galloc[i][jj] <= 1
        by {
            assert(galloc[i] == alloc_row(tasks@[i], gnm, gnr));
        }
        assert forall|k: int| 0 <= k < gnr implies #[trigger] gwork0[k] + n <= usize::MAX by {
            assert(gwork0[k] == row_view(work@)[k]);
        }
    }
    let mut done: bool = false;
    while !done
        invariant
            n == tasks@.len(),
            n < usize::MAX,
            nr == nm + semaphore_list@.len(),
            gnr == nr as int,
            mat_ok(galloc, gnr),
            mat_ok(gneed, gnr),
            galloc.len() == n,
            gneed.len() == n,
            gwork0.len() == gnr,
            forall|i: int, jj: int| 0 <= i < galloc.len() && 0 <= jj < gnr
                ==> #[trigger] galloc[i][jj] <= 1,
            forall|k: int| 0 <= k < gnr ==> #[trigger] gwork0[k] + n <= usize::MAX,
            alloc_m@.len() == n,
            need_m@.len() == n,
            forall|u: int| 0 <= u < n ==> (#[trigger] alloc_m@[u])@.len() == nr
                && row_view(alloc_m@[u]@) == galloc[u],
            forall|u: int| 0 <= u < n ==> (#[trigger] need_m@[u])@.len() == nr
                && row_view(need_m@[u]@) == gneed[u],
            finish@.len() == n,
            work@.len() == nr,
            forall|u: int| 0 <= u < n ==> ((#[trigger] finish@[u]) <==> order.contains(u)),
            finish_order_ok(galloc, gneed, gwork0, gnr, order),
            row_view(work@) == row_add(gwork0, sum_rows(galloc, order, gnr)),
            order.len() <= n,
            done ==> forall|u: int| 0 <= u < n && !order.contains(u)
                ==> !row_le(#[trigger] gneed[u], row_add(gwork0, sum_rows(galloc, order, gnr))),
        decreases n - order.len() + if done { 0int } else { 1int },
    {
        let ghost order0 = order;
        let mut found: bool = false;
        let mut cand: usize = 0;
        let mut u: usize = 0;
        while u < n
            invariant
                u <= n,
                n == tasks@.len(),
                gnr == nr as int,
                gneed.len() == n,
                need_m@.len() == n,
                finish@.len() == n,
                work@.len() == nr,
                forall|w: int| 0 <= w < n ==> (#[trigger] need_m@[w])@.len() == nr
                    && row_view(need_m@[w]@) == gneed[w],
                found ==> (cand as int) < n && !finish@[cand as int]
                    && row_le(gneed[cand as int], row_view(work@)),
                !found ==> forall|w: int| 0 <= w < u
                    ==> finish@[w] || !row_le(#[trigger] gneed[w], row_view(work@)),
            decreases n - u,
        {
            if !found {
                if !finish[u] {
                    if row_le_exec(&need_m[u], &work) {
                        found = true;
                        cand = u;
                    }
                }
            }
            u = u + 1;
        }
        if found {
            finish[cand] = true;
            proof {
                assert(!order.contains(cand as int));
                assert(order.len() < n) by {
                    if order.len() == n {
                        lemma_nodup_full_covers(order, n as int, cand as int);
                    }
                }
                lemma_sum_rows_bound(galloc, order, gnr);
                lemma_sum_rows_shape(galloc, order, gnr);
                assert forall|k: int| 0 <= k < galloc[cand as int].len()
                    implies (#[trigger] work@[k]) + alloc_m@[cand as int]@[k] <= usize::MAX
                by {
                    assert(row_view(work@)[k] == gwork0[k] + sum_rows(galloc, order, gnr)[k]);
                    assert(sum_rows(galloc, order, gnr)[k] <= order.len());
                    assert(galloc[cand as int][k] <= 1);
                    assert(alloc_m@[cand as int]@[k] as int == galloc[cand as int][k]);
                }
            }
            let row = &alloc_m[cand];
            add_row(&mut work, row);
            proof {
                let c = cand as int;
                order = order0.push(c);
                assert(order.drop_last() =~= order0);
                assert(order.last() == c);
                // the extended order is still a valid retirement sequence
                assert(finish_order_ok(galloc, gneed, gwork0, gnr, order)) by {
                    assert forall|k: int| 0 <= k < order.len()
                        implies row_le(
                            gneed[#[trigger] order[k]],
                            row_add(gwork0, sum_rows(galloc, order.take(k), gnr)),
                        )
                    by {
                        assert(order.take(k) =~= if k < order0.len() {
                            order0.take(k)
                        } else {
                            order0
                        });
                        if k == order0.len() {
                            assert(order[k] == c);
                        }
                    }
                }
                assert(row_view(work@) =~= row_add(gwork0, sum_rows(galloc, order, gnr)));
                assert forall|w: int| 0 <= w < n
                    implies ((#[trigger] finish@[w]) <==> order.contains(w))
                by {
                    if w == c {
                        assert(order[order.len() - 1] == c);
                    } else {
                        if order.contains(w) {
                            let ki = choose|ki: int| 0 <= ki < order.len() && order[ki] == w;
                            assert(order0[ki] == w);
                        }
                        if order0.contains(w) {
                            let ki = choose|ki: int| 0 <= ki < order0.len() && order0[ki] == w;
                            assert(order[ki] == w);
                        }
                    }
                }
                lemma_nodup_len_bound(order, n as int);
            }
        } else {
            done = true;
            proof {
                assert forall|w: int| 0 <= w < n && !order.contains(w)
                    implies !row_le(
                        #[trigger] gneed[w],
                        row_add(gwork0, sum_rows(galloc, order, gnr)),
                    )
                by {
                    assert(!finish@[w]);
                }
            }
        }
    }

    // any slot never retired means the request is refused
    let mut refused: bool = false;
    let mut v: usize = 0;
    while v < n
        invariant
            v <= n,
            n == tasks@.len(),
            gnr == nr as int,
            mat_ok(galloc, gnr),
            mat_ok(gneed, gnr),
            galloc.len() == n,
            gneed.len() == n,
            gwork0.len() == gnr,
            galloc == alloc_mat(tasks@, gnm, gnr),
            gneed == need_mat(tasks@, gnm, gnr, tid as int, grj),
            gwork0 == work_init(mutex_list@, semaphore_list@),
            gnm == mutex_list@.len() as int,
            grj == res_index(flag, id as int, gnm),
            finish@.len() == n,
            forall|u: int| 0 <= u < n ==> ((#[trigger] finish@[u]) <==> order.contains(u)),
            finish_order_ok(galloc, gneed, gwork0, gnr, order),
            order.len() <= n,
            forall|u: int| 0 <= u < n && !order.contains(u)
                ==> !row_le(#[trigger] gneed[u], row_add(gwork0, sum_rows(galloc, order, gnr))),
            refused <==> exists|k: int| 0 <= k < v && !(#[trigger] finish@[k]),
        decreases n - v,
    {
        if !finish[v] {
            refused = true;
        }
        v = v + 1;
    }
    proof {
        if refused {
            let k = choose|k: int| 0 <= k < n && !(#[trigger] finish@[k]);
            assert(!order.contains(k));
            assert(order.len() < n) by {
                if order.len() == n {
                    lemma_nodup_full_covers(order, n as int, k);
                }
            }
            lemma_greedy_stuck_unsafe(galloc, gneed, gwork0, gnr, order);
        } else {
            assert forall|w: int| 0 <= w < n implies order.contains(w) by {
                assert(finish@[w]);
            }
            assert(order.len() == n) by {
                lemma_nodup_len_bound(order, n as int);
                if order.len() < n {
                    broadcast use vstd::seq_lib::seq_to_set_is_finite;

                    order.unique_seq_to_set();
                    vstd::set_lib::lemma_int_range(0, n as int);
                    assert(vstd::set_lib::set_int_range(0, n as int).subset_of(
                        order.to_set(),
                    )) by {
                        assert forall|x: int|
                            vstd::set_lib::set_int_range(0, n as int).contains(x)
                            implies order.to_set().contains(x)
                        by {
                            assert(order.contains(x));
                        }
                    }
                    vstd::set_lib::lemma_len_subset(
                        vstd::set_lib::set_int_range(0, n as int),
                        order.to_set(),
                    );
                }
            }
            assert(system_safe(galloc, gneed, gwork0, gnr));
        }
    }
    refused
}


} // verus!
