//! Minimum-cost assignment of rows to columns, by shortest augmenting paths.
use vstd::prelude::*;

verus! {

/// `assignment` gives every row a column of its own.
pub open spec fn is_assignment(assignment: Seq<usize>, row_count: int, col_count: int) -> bool {
    &&& assignment.len() == row_count
    &&& forall|i: int| 0 <= i < row_count ==> (#[trigger] assignment[i]) < col_count
    &&& forall|i: int, j: int|
        0 <= i < j < row_count ==> (#[trigger] assignment[i]) != (#[trigger] assignment[j])
}

/// The sum of the costs that `assignment` picks out of a row-major matrix.
pub open spec fn assignment_cost(costs: Seq<i64>, col_count: int, assignment: Seq<usize>) -> int
    decreases assignment.len(),
{
    if assignment.len() == 0 {
        0
    } else {
        let row = assignment.len() - 1;
        assignment_cost(costs, col_count, assignment.drop_last())
            + costs[row * col_count + assignment.last()]
    }
}

/// `assignment` is valid and no other valid assignment is cheaper.
pub open spec fn is_cheapest(
    costs: Seq<i64>,
    row_count: int,
    col_count: int,
    assignment: Seq<usize>,
) -> bool {
    &&& is_assignment(assignment, row_count, col_count)
    &&& forall|other: Seq<usize>| #[trigger]
        is_assignment(other, row_count, col_count) ==> assignment_cost(
            costs,
            col_count,
            assignment,
        ) <= assignment_cost(costs, col_count, other)
}

// Rows and columns are counted from one below; column zero stands for the row
// being added, and row zero marks a free column.
spec fn cost_at(costs: Seq<i64>, m: int, i: int, j: int) -> int {
    costs[(i - 1) * m + (j - 1)] as int
}

spec fn slack(costs: Seq<i64>, m: int, u: Seq<i128>, v: Seq<i128>, i: int, j: int) -> int {
    cost_at(costs, m, i, j) - u[i] - v[j]
}

/// Columns `1..=m` hold every row of `1..=rows` exactly once.
spec fn matches_rows(p: Seq<usize>, m: int, rows: int) -> bool {
    &&& p.len() == m + 1
    &&& forall|j: int| 1 <= j <= m ==> (#[trigger] p[j]) <= rows
    &&& forall|j: int, k: int|
        1 <= j < k <= m && (#[trigger] p[j]) != 0 ==> p[j] != (#[trigger] p[k])
    &&& forall|i: int| 1 <= i <= rows ==> #[trigger] row_is_held(p, m, i)
}

spec fn row_is_held(p: Seq<usize>, m: int, i: int) -> bool {
    exists|j: int| 1 <= j <= m && #[trigger] p[j] == i
}

/// No slack of the rows `1..=rows` is negative.
spec fn feasible(costs: Seq<i64>, m: int, u: Seq<i128>, v: Seq<i128>, rows: int) -> bool {
    forall|i: int, j: int|
        1 <= i <= rows && 1 <= j <= m ==> #[trigger] slack(costs, m, u, v, i, j) >= 0
}

/// Matched pairs have no slack.
spec fn tight(costs: Seq<i64>, m: int, u: Seq<i128>, v: Seq<i128>, p: Seq<usize>) -> bool {
    forall|j: int|
        1 <= j <= m && (#[trigger] p[j]) != 0 ==> slack(costs, m, u, v, p[j] as int, j) == 0
}

/// Column potentials are at most zero, and zero on free columns.
spec fn columns_priced(v: Seq<i128>, m: int, p: Seq<usize>) -> bool {
    forall|j: int|
        1 <= j <= m ==> (#[trigger] v[j]) <= 0 && (p[j] == 0 ==> v[j] == 0)
}

/// Largest magnitude of one cost.
spec fn cost_limit() -> int {
    0x8000_0000_0000_0000
}

spec fn within(values: Seq<i128>, limit: int) -> bool {
    forall|i: int| 0 <= i < values.len() ==> -limit <= #[trigger] values[i] <= limit
}

proof fn lemma_cell_in_range(n: int, m: int, i: int, j: int)
    requires
        1 <= i <= n,
        1 <= j <= m,
    ensures
        0 <= (i - 1) * m + (j - 1) < n * m,
{
    assert(0 <= (i - 1) * m + (j - 1) < n * m) by (nonlinear_arith)
        requires
            1 <= i <= n,
            1 <= j <= m,
    ;
}

/// With fewer matched rows than columns, some column is free.
proof fn lemma_some_column_free(p: Seq<usize>, m: int, rows: int)
    requires
        matches_rows(p, m, rows),
        0 <= rows < m,
    ensures
        exists|j: int| 1 <= j <= m && #[trigger] p[j] == 0,
{
    if forall|j: int| 1 <= j <= m ==> #[trigger] p[j] != 0 {
        let held = p.subrange(1, m + 1);
        let ints = held.map_values(|row: usize| row as int);
        assert(ints.no_duplicates()) by {
            assert forall|i: int, j: int|
                0 <= i < ints.len() && 0 <= j < ints.len() && i != j implies ints[i] != ints[j] by {
                assert(ints[i] == p[i + 1]);
                assert(ints[j] == p[j + 1]);
            }
        }
        ints.unique_seq_to_set();
        vstd::set_lib::lemma_int_range(1, rows + 1);
        assert(ints.to_set().subset_of(vstd::set_lib::set_int_range(1, rows + 1))) by {
            assert forall|x: int| ints.to_set().contains(x) implies vstd::set_lib::set_int_range(
                1,
                rows + 1,
            ).contains(x) by {
                let k = choose|k: int| 0 <= k < ints.len() && ints[k] == x;
                assert(ints[k] == p[k + 1]);
            }
        }
        vstd::set_lib::lemma_len_subset(
            ints.to_set(),
            vstd::set_lib::set_int_range(1, rows + 1),
        );
        assert(false);
    }
}

/// What is known of a growing tree of columns: `used` holds its columns, `rank`
/// orders them from column zero outwards.
spec fn tree_grows(
    costs: Seq<i64>,
    m: int,
    row: int,
    u: Seq<i128>,
    v: Seq<i128>,
    p: Seq<usize>,
    way: Seq<usize>,
    used: Seq<bool>,
    rank: Seq<int>,
    size: int,
) -> bool {
    &&& used.len() == m + 1 && rank.len() == m + 1 && way.len() == m + 1
    &&& p.len() == m + 1 && p[0] == row
    &&& forall|j: int|
        0 <= j <= m && (#[trigger] used[j]) ==> 0 <= rank[j] < size && p[j] != 0
    &&& forall|j: int|
        1 <= j <= m && (#[trigger] used[j]) ==> 0 <= way[j] <= m && used[way[j] as int]
            && rank[way[j] as int] < rank[j] && slack(
            costs,
            m,
            u,
            v,
            p[way[j] as int] as int,
            j,
        ) == 0
}

/// Each column outside the tree knows the tree's cheapest way to it.
spec fn frontier_known(
    costs: Seq<i64>,
    m: int,
    u: Seq<i128>,
    v: Seq<i128>,
    p: Seq<usize>,
    way: Seq<usize>,
    used: Seq<bool>,
    min_values: Seq<i128>,
) -> bool {
    &&& min_values.len() == m + 1
    &&& forall|j: int|
        1 <= j <= m && !(#[trigger] used[j]) ==> 0 <= way[j] <= m && used[way[j] as int]
            && min_values[j] == slack(costs, m, u, v, p[way[j] as int] as int, j)
    &&& forall|k: int, j: int|
        #![trigger used[k], used[j]]
        0 <= k <= m && 1 <= j <= m && used[k] && !used[j] ==> min_values[j] <= slack(
            costs,
            m,
            u,
            v,
            p[k] as int,
            j,
        )
}

/// Lets the tree's newest column `col` offer its row to every column outside
/// the tree, and finds the cheapest of those.
fn relax(
    costs: &Vec<i64>,
    row_count: usize,
    col_count: usize,
    current_row: usize,
    col: usize,
    u: &Vec<i128>,
    v: &Vec<i128>,
    used: &Vec<bool>,
    min_values: &mut Vec<i128>,
    way: &mut Vec<usize>,
) -> (best: (i128, usize))
    requires
        1 <= current_row <= row_count,
        col <= col_count < usize::MAX,
        costs.len() == row_count * col_count,
        u.len() == row_count + 1,
        v.len() == col_count + 1,
        used.len() == col_count + 1,
        old(min_values).len() == col_count + 1,
        old(way).len() == col_count + 1,
        within(u@, 0x1_0000_0000_0000_0000_0000_0000_0000),
        within(v@, 0x1_0000_0000_0000_0000_0000_0000_0000),
        exists|j: int| 1 <= j <= col_count && !#[trigger] used[j],
    ensures
        final(min_values).len() == col_count + 1,
        final(way).len() == col_count + 1,
        forall|j: int|
            1 <= j <= col_count && !(#[trigger] used[j]) ==> {
                let offer = slack(costs@, col_count as int, u@, v@, current_row as int, j);
                if offer < old(min_values)[j] {
                    final(min_values)[j] == offer && final(way)[j] == col
                } else {
                    final(min_values)[j] == old(min_values)[j] && final(way)[j] == old(way)[j]
                }
            },
        forall|j: int|
            0 <= j <= col_count && (used[j] || j == 0) ==> (#[trigger] final(way)[j]) == old(way)[j],
        1 <= best.1 <= col_count,
        !used[best.1 as int],
        best.0 == final(min_values)[best.1 as int],
        forall|j: int|
            1 <= j <= col_count && !(#[trigger] used[j]) ==> best.0 <= final(min_values)[j],
{
    let mut delta: i128 = i128::MAX;
    let mut next_col: usize = 0;
    let mut candidate: usize = 1;
    while candidate <= col_count
        invariant
            1 <= candidate <= col_count + 1,
            1 <= current_row <= row_count,
            col <= col_count < usize::MAX,
            costs.len() == row_count * col_count,
            u.len() == row_count + 1,
            v.len() == col_count + 1,
            used.len() == col_count + 1,
            min_values.len() == col_count + 1,
            way.len() == col_count + 1,
            old(min_values).len() == col_count + 1,
            old(way).len() == col_count + 1,
            within(u@, 0x1_0000_0000_0000_0000_0000_0000_0000),
            within(v@, 0x1_0000_0000_0000_0000_0000_0000_0000),
            forall|j: int|
                1 <= j < candidate && !(#[trigger] used[j]) ==> {
                    let offer = slack(costs@, col_count as int, u@, v@, current_row as int, j);
                    if offer < old(min_values)[j] {
                        min_values[j] == offer && way[j] == col
                    } else {
                        min_values[j] == old(min_values)[j] && way[j] == old(way)[j]
                    }
                },
            forall|j: int|
                candidate <= j <= col_count ==> (#[trigger] min_values[j]) == old(min_values)[j],
            forall|j: int| candidate <= j <= col_count ==> (#[trigger] way[j]) == old(way)[j],
            forall|j: int|
                0 <= j <= col_count && (used[j] || j == 0) ==> (#[trigger] way[j]) == old(way)[j],
            next_col == 0 ==> forall|j: int| 1 <= j < candidate ==> #[trigger] used[j],
            next_col == 0 ==> delta == i128::MAX,
            next_col != 0 ==> 1 <= next_col < candidate && !used[next_col as int] && delta
                == min_values[next_col as int] && delta
                < 0x10_0000_0000_0000_0000_0000_0000_0000,
            forall|j: int|
                1 <= j < candidate && !(#[trigger] used[j]) ==> delta <= min_values[j],
        decreases col_count + 1 - candidate,
    {
        if !used[candidate] {
            proof {
                lemma_cell_in_range(
                    row_count as int,
                    col_count as int,
                    current_row as int,
                    candidate as int,
                );
            }
            let cell: usize = (current_row - 1) * col_count + (candidate - 1);
            let cost: i128 = costs[cell] as i128 - u[current_row] - v[candidate];
            if cost < min_values[candidate] {
                min_values.set(candidate, cost);
                way.set(candidate, col);
            }
            if min_values[candidate] < delta {
                delta = min_values[candidate];
                next_col = candidate;
            }
        }
        candidate = candidate + 1;
    }
    (delta, next_col)
}

/// Row `i` belongs to a tree column before `end`.
spec fn row_in_tree(p: Seq<usize>, used: Seq<bool>, end: int, i: int) -> bool {
    exists|k: int| 0 <= k < end && #[trigger] used[k] && p[k] == i
}

/// Every column, column zero too, holds a row of its own or none.
spec fn rows_distinct(p: Seq<usize>) -> bool {
    forall|j: int, k: int|
        0 <= j < k < p.len() && (#[trigger] p[j]) != 0 ==> p[j] != (#[trigger] p[k])
}

/// Raises the tree's rows and lowers its columns by `delta`.
fn shift(
    delta: i128,
    col_count: usize,
    p: &Vec<usize>,
    used: &Vec<bool>,
    u: &mut Vec<i128>,
    v: &mut Vec<i128>,
    min_values: &mut Vec<i128>,
)
    requires
        col_count < usize::MAX,
        p.len() == col_count + 1,
        used.len() == col_count + 1,
        old(v).len() == col_count + 1,
        old(min_values).len() == col_count + 1,
        rows_distinct(p@),
        forall|k: int| 0 <= k <= col_count ==> (#[trigger] p[k]) < old(u).len(),
        forall|k: int| 0 <= k <= col_count && #[trigger] used[k] ==> p[k] != 0,
        within(old(u)@, 0x1_0000_0000_0000_0000_0000_0000_0000),
        within(old(v)@, 0x1_0000_0000_0000_0000_0000_0000_0000),
        -0x10_0000_0000_0000_0000_0000_0000_0000 <= delta
            <= 0x10_0000_0000_0000_0000_0000_0000_0000,
        forall|k: int|
            0 <= k <= col_count && !(#[trigger] used[k]) ==> -0x10_0000_0000_0000_0000_0000_0000_0000
                <= old(min_values)[k] <= 0x10_0000_0000_0000_0000_0000_0000_0000,
    ensures
        final(u).len() == old(u).len(),
        final(v).len() == col_count + 1,
        final(min_values).len() == col_count + 1,
        forall|i: int|
            0 <= i < old(u).len() ==> #[trigger] final(u)[i] == old(u)[i] + if row_in_tree(
                p@,
                used@,
                col_count + 1,
                i,
            ) {
                delta as int
            } else {
                0
            },
        forall|k: int|
            0 <= k <= col_count ==> #[trigger] final(v)[k] == if used[k] {
                old(v)[k] - delta
            } else {
                old(v)[k] as int
            },
        forall|k: int|
            0 <= k <= col_count && !used[k] ==> #[trigger] final(min_values)[k] == old(
                min_values,
            )[k] - delta,
{
    let mut k: usize = 0;
    while k <= col_count
        invariant
            0 <= k <= col_count + 1,
            col_count < usize::MAX,
            p.len() == col_count + 1,
            used.len() == col_count + 1,
            u.len() == old(u).len(),
            v.len() == col_count + 1,
            min_values.len() == col_count + 1,
            old(v).len() == col_count + 1,
            old(min_values).len() == col_count + 1,
            rows_distinct(p@),
            forall|k: int| 0 <= k <= col_count ==> (#[trigger] p[k]) < old(u).len(),
            forall|k: int| 0 <= k <= col_count && #[trigger] used[k] ==> p[k] != 0,
            within(old(u)@, 0x1_0000_0000_0000_0000_0000_0000_0000),
            within(old(v)@, 0x1_0000_0000_0000_0000_0000_0000_0000),
            -0x10_0000_0000_0000_0000_0000_0000_0000 <= delta
                <= 0x10_0000_0000_0000_0000_0000_0000_0000,
            forall|k: int|
                0 <= k <= col_count && !(#[trigger] used[k])
                    ==> -0x10_0000_0000_0000_0000_0000_0000_0000 <= old(min_values)[k]
                    <= 0x10_0000_0000_0000_0000_0000_0000_0000,
            forall|i: int|
                0 <= i < old(u).len() ==> #[trigger] u[i] == old(u)[i] + if row_in_tree(
                    p@,
                    used@,
                    k as int,
                    i,
                ) {
                    delta as int
                } else {
                    0
                },
            forall|j: int|
                0 <= j < k ==> #[trigger] v[j] == if used[j] {
                    old(v)[j] - delta
                } else {
                    old(v)[j] as int
                },
            forall|j: int| k <= j <= col_count ==> #[trigger] v[j] == old(v)[j],
            forall|j: int|
                0 <= j < k && !used[j] ==> #[trigger] min_values[j] == old(min_values)[j] - delta,
            forall|j: int|
                k <= j <= col_count ==> #[trigger] min_values[j] == old(min_values)[j],
        decreases col_count + 1 - k,
    {
        let ghost before = u@;
        if used[k] {
            let held: usize = p[k];
            proof {
                assert(!row_in_tree(p@, used@, k as int, held as int));
                assert(u[held as int] == old(u)[held as int]);
                assert(v[k as int] == old(v)[k as int]);
            }
            let raised: i128 = u[held] + delta;
            u.set(held, raised);
            let lowered: i128 = v[k] - delta;
            v.set(k, lowered);
            proof {
                assert(used[k as int]);
                assert(row_in_tree(p@, used@, k + 1, held as int));
            }
        } else {
            assert(min_values[k as int] == old(min_values)[k as int]);
            let nearer: i128 = min_values[k] - delta;
            min_values.set(k, nearer);
        }
        proof {
            assert forall|i: int| 0 <= i < old(u).len() implies #[trigger] u[i] == old(u)[i]
                + if row_in_tree(p@, used@, k + 1, i) {
                delta as int
            } else {
                0
            } by {
                assert(before[i] == old(u)[i] + if row_in_tree(p@, used@, k as int, i) {
                    delta as int
                } else {
                    0
                });
                if used[k as int] && p[k as int] == i {
                } else {
                    if row_in_tree(p@, used@, k + 1, i) {
                        let w = choose|w: int| 0 <= w < k + 1 && #[trigger] used[w] && p[w] == i;
                        assert(w < k);
                        assert(row_in_tree(p@, used@, k as int, i));
                    }
                    if row_in_tree(p@, used@, k as int, i) {
                        let w = choose|w: int|
                            0 <= w < k as int && #[trigger] used[w] && p[w] == i;
                        assert(0 <= w < k + 1 && used[w] && p[w] == i);
                    }
                }
            }
        }
        k = k + 1;
    }
}

/// The number of columns outside the tree.
spec fn unused_count(used: Seq<bool>) -> nat
    decreases used.len(),
{
    if used.len() == 0 {
        0
    } else {
        unused_count(used.drop_last()) + if used.last() {
            0nat
        } else {
            1nat
        }
    }
}

proof fn lemma_unused_count_drops(used: Seq<bool>, k: int)
    requires
        0 <= k < used.len(),
        !used[k],
    ensures
        unused_count(used.update(k, true)) < unused_count(used),
    decreases used.len(),
{
    let after = used.update(k, true);
    if k == used.len() - 1 {
        assert(after.drop_last() =~= used.drop_last());
    } else {
        lemma_unused_count_drops(used.drop_last(), k);
        assert(after.drop_last() =~= used.drop_last().update(k, true));
    }
}

/// Shifting the tree's potentials keeps all that is known of it, and leaves no
/// negative slack in the row being added.
proof fn lemma_shift_keeps(
    costs: Seq<i64>,
    m: int,
    row: int,
    u: Seq<i128>,
    v: Seq<i128>,
    p: Seq<usize>,
    way: Seq<usize>,
    used: Seq<bool>,
    rank: Seq<int>,
    size: int,
    min_values: Seq<i128>,
    delta: int,
    u2: Seq<i128>,
    v2: Seq<i128>,
    min_values2: Seq<i128>,
)
    requires
        1 <= row <= m,
        u.len() > row,
        u2.len() == u.len(),
        v.len() == m + 1,
        v2.len() == m + 1,
        min_values2.len() == m + 1,
        rows_distinct(p),
        matches_rows(p, m, row - 1),
        used[0],
        tree_grows(costs, m, row, u, v, p, way, used, rank, size),
        frontier_known(costs, m, u, v, p, way, used, min_values),
        feasible(costs, m, u, v, row - 1),
        tight(costs, m, u, v, p),
        columns_priced(v, m, p),
        (feasible(costs, m, u, v, row) && delta >= 0) || forall|j: int|
            1 <= j <= m ==> !#[trigger] used[j],
        forall|j: int| 1 <= j <= m && !(#[trigger] used[j]) ==> delta <= min_values[j],
        forall|i: int|
            0 <= i < u.len() ==> #[trigger] u2[i] == u[i] + if row_in_tree(p, used, m + 1, i) {
                delta
            } else {
                0
            },
        forall|k: int|
            0 <= k <= m ==> #[trigger] v2[k] == if used[k] {
                v[k] - delta
            } else {
                v[k] as int
            },
        forall|k: int|
            0 <= k <= m && !used[k] ==> #[trigger] min_values2[k] == min_values[k] - delta,
    ensures
        tree_grows(costs, m, row, u2, v2, p, way, used, rank, size),
        frontier_known(costs, m, u2, v2, p, way, used, min_values2),
        feasible(costs, m, u2, v2, row),
        tight(costs, m, u2, v2, p),
        columns_priced(v2, m, p),
        forall|j: int| 1 <= j <= m && !(#[trigger] used[j]) ==> min_values2[j] >= 0,
{
    assert forall|k: int, j: int|
        0 <= k <= m && 1 <= j <= m && #[trigger] used[k] implies #[trigger] slack(
        costs,
        m,
        u2,
        v2,
        p[k] as int,
        j,
    ) == slack(costs, m, u, v, p[k] as int, j) - if used[j] {
        0
    } else {
        delta
    } by {
        assert(row_in_tree(p, used, m + 1, p[k] as int));
        assert(p[k] <= row);
        assert(u2[p[k] as int] == u[p[k] as int] + delta);
        assert(v2[j] == if used[j] {
            v[j] - delta
        } else {
            v[j] as int
        });
    }
    assert(tree_grows(costs, m, row, u2, v2, p, way, used, rank, size));
    assert(frontier_known(costs, m, u2, v2, p, way, used, min_values2)) by {
        assert forall|j: int| 1 <= j <= m && !(#[trigger] used[j]) implies min_values2[j] == slack(
            costs,
            m,
            u2,
            v2,
            p[way[j] as int] as int,
            j,
        ) by {
            assert(used[way[j] as int]);
            assert(min_values2[j] == min_values[j] - delta);
        }
        assert forall|k: int, j: int|
            #![trigger used[k], used[j]]
            0 <= k <= m && 1 <= j <= m && used[k] && !used[j] implies min_values2[j] <= slack(
            costs,
            m,
            u2,
            v2,
            p[k] as int,
            j,
        ) by {
            assert(min_values2[j] == min_values[j] - delta);
            assert(min_values[j] <= slack(costs, m, u, v, p[k] as int, j));
        }
    }
    assert forall|j: int| 1 <= j <= m && !(#[trigger] used[j]) implies min_values2[j] >= 0 by {
        assert(min_values2[j] == min_values[j] - delta);
    }
    assert forall|i: int, j: int| 1 <= i <= row && 1 <= j <= m implies #[trigger] slack(
        costs,
        m,
        u2,
        v2,
        i,
        j,
    ) >= 0 by {
        assert(u2[i] == u[i] + if row_in_tree(p, used, m + 1, i) {
            delta
        } else {
            0
        });
        assert(v2[j] == if used[j] {
            v[j] - delta
        } else {
            v[j] as int
        });
        if row_in_tree(p, used, m + 1, i) {
            let k = choose|k: int| 0 <= k < m + 1 && #[trigger] used[k] && p[k] == i;
            if used[j] {
                assert(slack(costs, m, u, v, i, j) >= 0);
            } else {
                assert(min_values[j] <= slack(costs, m, u, v, p[k] as int, j));
            }
        } else {
            if i == row {
                assert(used[0] && p[0] == row);
            }
            assert(slack(costs, m, u, v, i, j) >= 0);
        }
    }
    assert(tight(costs, m, u2, v2, p)) by {
        assert forall|j: int| 1 <= j <= m && (#[trigger] p[j]) != 0 implies slack(
            costs,
            m,
            u2,
            v2,
            p[j] as int,
            j,
        ) == 0 by {
            let i = p[j] as int;
            assert(slack(costs, m, u, v, i, j) == 0);
            assert(p[j] <= row - 1);
            assert(u2[i] == u[i] + if row_in_tree(p, used, m + 1, i) {
                delta
            } else {
                0
            });
            assert(v2[j] == if used[j] {
                v[j] - delta
            } else {
                v[j] as int
            });
            if row_in_tree(p, used, m + 1, i) {
                let k = choose|k: int| 0 <= k < m + 1 && #[trigger] used[k] && p[k] == i;
                assert(k == j) by {
                    if k < j {
                        assert(p[k] != p[j]);
                    }
                    if j < k {
                        assert(p[j] != p[k]);
                    }
                }
            } else {
                assert(!used[j]);
            }
        }
    }
    assert(columns_priced(v2, m, p)) by {
        assert forall|j: int| 1 <= j <= m implies (#[trigger] v2[j]) <= 0 && (p[j] == 0 ==> v2[j]
            == 0) by {
            assert(v[j] <= 0);
        }
    }
}

/// The limit of every potential once `rows` rows are matched.
spec fn potential_limit(rows: int) -> int {
    rows * (2 * cost_limit())
}

proof fn lemma_potential_limit_small(row_count: int, col_count: int, rows: int, total: int)
    requires
        0 <= rows <= row_count <= col_count,
        row_count * col_count == total,
        total <= usize::MAX,
    ensures
        0 <= potential_limit(rows) <= 0x1_0000_0000_0000_0000_0000_0000,
{
    assert(row_count < 0x1_0000_0000) by (nonlinear_arith)
        requires
            0 <= row_count <= col_count,
            row_count * col_count <= 0xffff_ffff_ffff_ffff,
    ;
    let step = 2 * cost_limit();
    assert(0 <= rows * step <= 0x1_0000_0000 * step) by (nonlinear_arith)
        requires
            0 <= rows <= 0x1_0000_0000,
            step >= 0,
    ;
}

/// What holds between two phases: `rows` rows are matched at the lowest cost.
spec fn phase_invariant(
    costs: Seq<i64>,
    row_count: int,
    m: int,
    rows: int,
    u: Seq<i128>,
    v: Seq<i128>,
    p: Seq<usize>,
) -> bool {
    &&& u.len() == row_count + 1
    &&& v.len() == m + 1
    &&& matches_rows(p, m, rows)
    &&& feasible(costs, m, u, v, rows)
    &&& tight(costs, m, u, v, p)
    &&& columns_priced(v, m, p)
    &&& within(u, potential_limit(rows))
    &&& within(v, potential_limit(rows))
    &&& forall|i: int| rows < i <= row_count ==> #[trigger] u[i] == 0
}

/// A column outside the tree that the tree reaches without slack.
spec fn tree_reaches(
    costs: Seq<i64>,
    m: int,
    u: Seq<i128>,
    v: Seq<i128>,
    p: Seq<usize>,
    way: Seq<usize>,
    used: Seq<bool>,
    col: int,
) -> bool {
    &&& 1 <= col <= m
    &&& !used[col]
    &&& 0 <= way[col] <= m
    &&& used[way[col] as int]
    &&& slack(costs, m, u, v, p[way[col] as int] as int, col) == 0
}

/// How far the potentials have moved since the phase began at `u0`, `v0`.
spec fn potentials_moved(
    row: int,
    m: int,
    u0: Seq<i128>,
    v0: Seq<i128>,
    u: Seq<i128>,
    v: Seq<i128>,
    reach: int,
) -> bool {
    &&& forall|i: int| 1 <= i < row ==> 0 <= #[trigger] u[i] - u0[i] <= reach
    &&& forall|j: int| 1 <= j <= m ==> 0 <= v0[j] - #[trigger] v[j] <= reach
    &&& v[0] == v0[0] - u[row]
    &&& u[0] == u0[0]
    &&& forall|i: int| row < i < u.len() ==> #[trigger] u[i] == u0[i]
}

proof fn lemma_row_price_limit(
    costs: Seq<i64>,
    m: int,
    row: int,
    u: Seq<i128>,
    v: Seq<i128>,
    p: Seq<usize>,
    free: int,
)
    requires
        1 <= row,
        1 <= free <= m,
        p[free] == 0,
        feasible(costs, m, u, v, row),
        columns_priced(v, m, p),
    ensures
        u[row] <= cost_limit(),
{
    assert(slack(costs, m, u, v, row, free) >= 0);
    assert(v[free] == 0);
}

proof fn lemma_moved_within(
    row: int,
    m: int,
    u0: Seq<i128>,
    v0: Seq<i128>,
    u: Seq<i128>,
    v: Seq<i128>,
    limit: int,
)
    requires
        1 <= row < u.len(),
        u.len() == u0.len(),
        v.len() == m + 1,
        v0.len() == m + 1,
        within(u0, limit),
        within(v0, limit),
        0 <= limit,
        -cost_limit() <= u[row] <= cost_limit(),
        potentials_moved(row, m, u0, v0, u, v, u[row] + cost_limit()),
    ensures
        within(u, limit + 2 * cost_limit()),
        within(v, limit + 2 * cost_limit()),
{
    assert forall|i: int| 0 <= i < u.len() implies -(limit + 2 * cost_limit()) <= #[trigger] u[i]
        <= limit + 2 * cost_limit() by {
        assert(-limit <= u0[i] <= limit);
    }
    assert forall|j: int| 0 <= j < v.len() implies -(limit + 2 * cost_limit()) <= #[trigger] v[j]
        <= limit + 2 * cost_limit() by {
        assert(-limit <= v0[j] <= limit);
    }
}

/// Once the newest column has offered its row, the tree with that column and
/// the frontier around it are known.
proof fn lemma_relaxed(
    costs: Seq<i64>,
    m: int,
    row: int,
    col: int,
    u: Seq<i128>,
    v: Seq<i128>,
    p: Seq<usize>,
    way: Seq<usize>,
    way2: Seq<usize>,
    used: Seq<bool>,
    rank: Seq<int>,
    size: int,
    min_values: Seq<i128>,
    min_values2: Seq<i128>,
)
    requires
        1 <= row <= m,
        0 <= col <= m,
        0 <= size,
        !used[col],
        p[col] != 0,
        tree_grows(costs, m, row, u, v, p, way, used, rank, size),
        way2.len() == m + 1,
        min_values2.len() == m + 1,
        size == 0 ==> col == 0 && (forall|j: int| 0 <= j <= m ==> !(#[trigger] used[j])) && (
        forall|j: int|
            1 <= j <= m ==> slack(costs, m, u, v, p[col] as int, j) < #[trigger] min_values[j]),
        size > 0 ==> used[0] && tree_reaches(costs, m, u, v, p, way, used, col) && frontier_known(
            costs,
            m,
            u,
            v,
            p,
            way,
            used,
            min_values,
        ),
        forall|j: int|
            1 <= j <= m && !(#[trigger] used.update(col, true)[j]) ==> {
                let offer = slack(costs, m, u, v, p[col] as int, j);
                if offer < min_values[j] {
                    min_values2[j] == offer && way2[j] == col
                } else {
                    min_values2[j] == min_values[j] && way2[j] == way[j]
                }
            },
        forall|j: int|
            0 <= j <= m && (used.update(col, true)[j] || j == 0) ==> (#[trigger] way2[j])
                == way[j],
    ensures
        tree_grows(
            costs,
            m,
            row,
            u,
            v,
            p,
            way2,
            used.update(col, true),
            rank.update(col, size),
            size + 1,
        ),
        frontier_known(costs, m, u, v, p, way2, used.update(col, true), min_values2),
        used.update(col, true)[0],
{
    let used2 = used.update(col, true);
    let rank2 = rank.update(col, size);
    assert forall|j: int| 1 <= j <= m && (#[trigger] used2[j]) implies 0 <= way2[j] <= m
        && used2[way2[j] as int] && rank2[way2[j] as int] < rank2[j] && slack(
        costs,
        m,
        u,
        v,
        p[way2[j] as int] as int,
        j,
    ) == 0 by {
        assert(way2[j] == way[j]);
        if j != col {
            assert(used[j]);
            assert(way[j] != col);
        } else {
            assert(used[way[col] as int]);
        }
    }
    assert forall|j: int| 1 <= j <= m && !(#[trigger] used2[j]) implies 0 <= way2[j] <= m
        && used2[way2[j] as int] && min_values2[j] == slack(
        costs,
        m,
        u,
        v,
        p[way2[j] as int] as int,
        j,
    ) by {
        assert(!used[j]);
        assert(size == 0 ==> slack(costs, m, u, v, p[col] as int, j) < min_values[j]);
    }
    assert forall|k: int, j: int|
        #![trigger used2[k], used2[j]]
        0 <= k <= m && 1 <= j <= m && used2[k] && !used2[j] implies min_values2[j] <= slack(
        costs,
        m,
        u,
        v,
        p[k] as int,
        j,
    ) by {
        assert(!used[j]);
        if k != col {
            assert(used[k]);
            assert(min_values[j] <= slack(costs, m, u, v, p[k] as int, j));
        }
    }
}

/// One shift by `delta` moves the potentials by no more than `delta` further.
proof fn lemma_step_moved(
    row: int,
    m: int,
    u0: Seq<i128>,
    v0: Seq<i128>,
    u: Seq<i128>,
    v: Seq<i128>,
    p: Seq<usize>,
    used: Seq<bool>,
    delta: int,
    first: bool,
    u2: Seq<i128>,
    v2: Seq<i128>,
)
    requires
        1 <= row < u.len(),
        u2.len() == u.len(),
        v.len() == m + 1,
        v2.len() == m + 1,
        p[0] == row,
        used[0],
        0 <= m,
        forall|j: int| 1 <= j <= m ==> (#[trigger] p[j]) < row,
        forall|j: int| 0 <= j <= m && (#[trigger] used[j]) ==> p[j] != 0,
        first ==> u == u0 && v == v0 && u0[row] == 0 && delta >= -cost_limit() && (forall|j: int|
            1 <= j <= m ==> !#[trigger] used[j]),
        !first ==> delta >= 0 && potentials_moved(row, m, u0, v0, u, v, u[row] + cost_limit()),
        forall|i: int|
            0 <= i < u.len() ==> #[trigger] u2[i] == u[i] + if row_in_tree(p, used, m + 1, i) {
                delta
            } else {
                0
            },
        forall|k: int|
            0 <= k <= m ==> #[trigger] v2[k] == if used[k] {
                v[k] - delta
            } else {
                v[k] as int
            },
    ensures
        potentials_moved(row, m, u0, v0, u2, v2, u2[row] + cost_limit()),
        u2[row] == u[row] + delta,
{
    assert(row_in_tree(p, used, m + 1, row)) by {
        assert(used[0] && p[0] == row);
    }
    assert(u2[row] == u[row] + delta);
    assert forall|i: int| 1 <= i < row implies 0 <= #[trigger] u2[i] - u0[i] <= u2[row]
        + cost_limit() by {
        assert(u2[i] == u[i] + if row_in_tree(p, used, m + 1, i) {
            delta
        } else {
            0
        });
        if first && row_in_tree(p, used, m + 1, i) {
            let k = choose|k: int| 0 <= k < m + 1 && #[trigger] used[k] && p[k] == i;
            assert(k == 0);
        }
    }
    assert forall|j: int| 1 <= j <= m implies 0 <= v0[j] - #[trigger] v2[j] <= u2[row]
        + cost_limit() by {
        assert(v2[j] == if used[j] {
            v[j] - delta
        } else {
            v[j] as int
        });
    }
    assert(v2[0] == v[0] - delta);
    assert forall|i: int| row < i < u2.len() || i == 0 implies #[trigger] u2[i] == u0[i] by {
        if row_in_tree(p, used, m + 1, i) {
            let k = choose|k: int| 0 <= k < m + 1 && #[trigger] used[k] && p[k] == i;
            assert(k == 0 || p[k] < row);
        }
    }
}

/// Grows the tree of tight pairs from `row` until it reaches a free column.
fn grow_tree(
    costs: &Vec<i64>,
    row_count: usize,
    col_count: usize,
    row: usize,
    u: &mut Vec<i128>,
    v: &mut Vec<i128>,
    p: &Vec<usize>,
    way: &mut Vec<usize>,
) -> (end: (usize, Ghost<Seq<bool>>, Ghost<Seq<int>>, Ghost<int>))
    requires
        1 <= row <= row_count <= col_count < usize::MAX,
        costs.len() == row_count * col_count,
        phase_invariant(
            costs@,
            row_count as int,
            col_count as int,
            row - 1,
            old(u)@,
            old(v)@,
            p@,
        ),
        p[0] == row,
        old(way).len() == col_count + 1,
    ensures
        final(u).len() == row_count + 1,
        final(v).len() == col_count + 1,
        final(way).len() == col_count + 1,
        feasible(costs@, col_count as int, final(u)@, final(v)@, row as int),
        tight(costs@, col_count as int, final(u)@, final(v)@, p@),
        columns_priced(final(v)@, col_count as int, p@),
        within(final(u)@, potential_limit(row as int)),
        within(final(v)@, potential_limit(row as int)),
        forall|i: int| row < i <= row_count ==> #[trigger] final(u)[i] == 0,
        tree_grows(
            costs@,
            col_count as int,
            row as int,
            final(u)@,
            final(v)@,
            p@,
            final(way)@,
            end.1@,
            end.2@,
            end.3@,
        ),
        end.1@[0],
        tree_reaches(
            costs@,
            col_count as int,
            final(u)@,
            final(v)@,
            p@,
            final(way)@,
            end.1@,
            end.0 as int,
        ),
        p[end.0 as int] == 0,
{
    let ghost m = col_count as int;
    let ghost u0 = u@;
    let ghost v0 = v@;
    let ghost free = choose|j: int| 1 <= j <= m && #[trigger] p[j] == 0;
    proof {
        lemma_some_column_free(p@, m, row - 1);
        lemma_potential_limit_small(
            row_count as int,
            m,
            row - 1,
            costs.len() as int,
        );
        assert(rows_distinct(p@));
    }
    let mut col: usize = 0;
    let mut min_values: Vec<i128> = vec![i128::MAX; col_count + 1];
    let mut used: Vec<bool> = vec![false; col_count + 1];
    let ghost mut rank: Seq<int> = Seq::new((col_count + 1) as nat, |j: int| 0);
    let ghost mut size: int = 0;
    assert(u0[row as int] == 0);
    loop
        invariant_except_break
            col <= col_count,
            !used[col as int],
            p[col as int] != 0,
            size == 0 ==> col == 0 && u@ == u0 && v@ == v0 && (forall|j: int|
                0 <= j <= m ==> !(#[trigger] used[j])) && (forall|j: int|
                0 <= j <= m ==> (#[trigger] min_values[j]) == i128::MAX),
            size > 0 ==> used[0] && tree_reaches(
                costs@,
                m,
                u@,
                v@,
                p@,
                way@,
                used@,
                col as int,
            ) && frontier_known(costs@, m, u@, v@, p@, way@, used@, min_values@) && feasible(
                costs@,
                m,
                u@,
                v@,
                row as int,
            ) && -cost_limit() <= u[row as int] && (forall|j: int|
                1 <= j <= m && !(#[trigger] used[j]) ==> min_values[j] >= 0) && potentials_moved(
                row as int,
                m,
                u0,
                v0,
                u@,
                v@,
                u[row as int] + cost_limit(),
            ),
            min_values.len() == m + 1,
            feasible(costs@, m, u@, v@, row - 1),
        invariant
            m == col_count,
            1 <= row <= row_count <= col_count < usize::MAX,
            costs.len() == row_count * col_count,
            phase_invariant(costs@, row_count as int, m, row - 1, u0, v0, p@),
            u0[row as int] == 0,
            p[0] == row,
            p.len() == m + 1,
            rows_distinct(p@),
            1 <= free <= m && p[free] == 0,
            0 <= potential_limit(row - 1) <= 0x1_0000_0000_0000_0000_0000_0000,
            u.len() == row_count + 1,
            v.len() == m + 1,
            way.len() == m + 1,
            used.len() == m + 1,
            0 <= size,
            tree_grows(costs@, m, row as int, u@, v@, p@, way@, used@, rank, size),
            tight(costs@, m, u@, v@, p@),
            columns_priced(v@, m, p@),
        ensures
            used[0],
            tree_reaches(costs@, m, u@, v@, p@, way@, used@, col as int),
            p[col as int] == 0,
            feasible(costs@, m, u@, v@, row as int),
            -cost_limit() <= u[row as int],
            potentials_moved(row as int, m, u0, v0, u@, v@, u[row as int] + cost_limit()),
        decreases unused_count(used@),
    {
        let ghost way_before = way@;
        let ghost used_before = used@;
        let ghost min_before = min_values@;
        let ghost rank_before = rank;
        let ghost u_before = u@;
        let ghost v_before = v@;
        let ghost limit = potential_limit(row - 1) + 2 * cost_limit();
        proof {
            lemma_unused_count_drops(used@, col as int);
            if size > 0 {
                lemma_row_price_limit(costs@, m, row as int, u@, v@, p@, free);
                lemma_moved_within(row as int, m, u0, v0, u@, v@, potential_limit(row - 1));
            }
            assert(within(u@, limit) && within(v@, limit));
            assert(!used[free]);
        }
        used.set(col, true);
        let current_row: usize = p[col];
        assert(!used[free]);
        let (delta, next_col) = relax(
            costs,
            row_count,
            col_count,
            current_row,
            col,
            u,
            v,
            &used,
            &mut min_values,
            way,
        );
        proof {
            assert(used@ == used_before.update(col as int, true));
            assert(current_row <= row);
            lemma_relaxed(
                costs@,
                m,
                row as int,
                col as int,
                u@,
                v@,
                p@,
                way_before,
                way@,
                used_before,
                rank,
                size,
                min_before,
                min_values@,
            );
            rank = rank.update(col as int, size);
            size = size + 1;
            assert forall|k: int| 0 <= k <= col_count && !(#[trigger] used[k]) implies -0x10_0000_0000_0000_0000_0000_0000_0000
                <= min_values[k] <= 0x10_0000_0000_0000_0000_0000_0000_0000 by {
                let from = p[way[k] as int] as int;
                assert(used[way[k] as int]);
                assert(0 <= from <= row);
                assert(min_values[k] == slack(costs@, m, u@, v@, from, k));
                assert(-limit <= u[from] <= limit);
                assert(-limit <= v[k] <= limit);
            }
            if size == 1 {
                let from = p[way[next_col as int] as int] as int;
                assert(used[way[next_col as int] as int]);
                assert(from == row);
                assert(v[next_col as int] <= 0);
                assert(delta >= -cost_limit());
            } else {
                assert(slack(costs@, m, u@, v@, current_row as int, next_col as int) >= 0);
                assert(!used_before[next_col as int]);
                assert(delta >= 0);
            }
        }
        let ghost min_relaxed = min_values@;
        shift(delta, col_count, p, &used, u, v, &mut min_values);
        proof {
            lemma_shift_keeps(
                costs@,
                m,
                row as int,
                u_before,
                v_before,
                p@,
                way@,
                used@,
                rank,
                size,
                min_relaxed,
                delta as int,
                u@,
                v@,
                min_values@,
            );
            lemma_step_moved(
                row as int,
                m,
                u0,
                v0,
                u_before,
                v_before,
                p@,
                used@,
                delta as int,
                size == 1,
                u@,
                v@,
            );
            assert(!used[next_col as int]);
        }
        col = next_col;
        if p[col] == 0 {
            break;
        }
    }
    proof {
        lemma_row_price_limit(costs@, m, row as int, u@, v@, p@, free);
        lemma_moved_within(row as int, m, u0, v0, u@, v@, potential_limit(row - 1));
        assert(potential_limit(row - 1) + 2 * cost_limit() == potential_limit(row as int))
            by (nonlinear_arith);
        assert forall|i: int| row < i <= row_count implies #[trigger] u[i] == 0 by {
            assert(u0[i] == 0);
        }
    }
    (col, Ghost(used@), Ghost(rank), Ghost(size))
}

/// Every row of `1..=rows` sits in one column other than `hole`, column zero
/// included, and no two columns share one.
spec fn matches_around(p: Seq<usize>, m: int, rows: int, hole: int) -> bool {
    &&& p.len() == m + 1
    &&& forall|j: int| 0 <= j <= m && j != hole ==> (#[trigger] p[j]) <= rows
    &&& forall|j: int, k: int|
        0 <= j < k <= m && j != hole && k != hole && (#[trigger] p[j]) != 0 ==> p[j] != (
        #[trigger] p[k])
    &&& forall|i: int| 1 <= i <= rows ==> #[trigger] row_is_held_around(p, m, i, hole)
}

spec fn row_is_held_around(p: Seq<usize>, m: int, i: int, hole: int) -> bool {
    exists|j: int| 0 <= j <= m && j != hole && #[trigger] p[j] == i
}

/// Moving the row of `prev` into the hole moves the hole to `prev`.
proof fn lemma_hole_moves(p: Seq<usize>, m: int, rows: int, hole: int, prev: int)
    requires
        matches_around(p, m, rows, hole),
        0 <= hole <= m,
        0 <= prev <= m,
        prev != hole,
    ensures
        matches_around(p.update(hole, p[prev]), m, rows, prev),
{
    let after = p.update(hole, p[prev]);
    assert forall|i: int| 1 <= i <= rows implies #[trigger] row_is_held_around(
        after,
        m,
        i,
        prev,
    ) by {
        assert(row_is_held_around(p, m, i, hole));
        let j = choose|j: int| 0 <= j <= m && j != hole && #[trigger] p[j] == i;
        if j == prev {
            assert(after[hole] == i);
        } else {
            assert(after[j] == i);
        }
    }
}

/// Flips the path of tight pairs that ends in the free column `end`, so that
/// the row in column zero is matched too.
fn augment(
    costs: Ghost<Seq<i64>>,
    col_count: usize,
    row: usize,
    u: Ghost<Seq<i128>>,
    v: Ghost<Seq<i128>>,
    p: &mut Vec<usize>,
    way: &Vec<usize>,
    end: usize,
    used: Ghost<Seq<bool>>,
    rank: Ghost<Seq<int>>,
    size: Ghost<int>,
)
    requires
        1 <= row <= col_count < usize::MAX,
        matches_rows(old(p)@, col_count as int, row - 1),
        tight(costs@, col_count as int, u@, v@, old(p)@),
        tree_grows(
            costs@,
            col_count as int,
            row as int,
            u@,
            v@,
            old(p)@,
            way@,
            used@,
            rank@,
            size@,
        ),
        used@[0],
        tree_reaches(
            costs@,
            col_count as int,
            u@,
            v@,
            old(p)@,
            way@,
            used@,
            end as int,
        ),
        old(p)[end as int] == 0,
    ensures
        matches_rows(final(p)@, col_count as int, row as int),
        tight(costs@, col_count as int, u@, v@, final(p)@),
        forall|j: int| 1 <= j <= col_count && (#[trigger] final(p)[j]) == 0 ==> old(p)[j] == 0,
{
    let ghost m = col_count as int;
    let ghost p0 = p@;
    let mut col: usize = end;
    let ghost mut level: int = size@;
    proof {
        assert forall|i: int| 1 <= i <= row implies #[trigger] row_is_held_around(
            p@,
            m,
            i,
            col as int,
        ) by {
            if i == row {
                assert(p[0] == row);
            } else {
                assert(row_is_held(p@, m, i));
                let j = choose|j: int| 1 <= j <= m && #[trigger] p[j] == i;
                assert(j != col);
            }
        }
        assert(matches_around(p@, m, row as int, col as int));
    }
    loop
        invariant_except_break
            1 <= col <= m,
            0 <= way[col as int] <= m,
            used@[way[col as int] as int],
            rank@[way[col as int] as int] < level,
            slack(costs@, m, u@, v@, p0[way[col as int] as int] as int, col as int) == 0,
            col == end || (used@[col as int] && rank@[col as int] == level),
        invariant
            m == col_count,
            1 <= row <= col_count < usize::MAX,
            p0.len() == m + 1,
            way.len() == m + 1,
            p0[0] == row,
            0 <= col <= m,
            1 <= end <= m,
            !used@[end as int],
            tree_grows(costs@, m, row as int, u@, v@, p0, way@, used@, rank@, size@),
            matches_around(p@, m, row as int, col as int),
            forall|j: int|
                0 <= j <= m && #[trigger] used@[j] && rank@[j] < level ==> p[j] == p0[j],
            forall|j: int|
                1 <= j <= m && j != col && (#[trigger] p[j]) != 0 ==> slack(
                    costs@,
                    m,
                    u@,
                    v@,
                    p[j] as int,
                    j,
                ) == 0,
            forall|j: int|
                1 <= j <= m && j != col && (#[trigger] p[j]) == 0 ==> p0[j] == 0,
        ensures
            col == 0,
        decreases level,
    {
        let previous: usize = way[col];
        let ghost before = p@;
        let moved: usize = p[previous];
        proof {
            assert(used@[previous as int]);
            assert(p[previous as int] == p0[previous as int]);
            assert(previous != col);
            lemma_hole_moves(p@, m, row as int, col as int, previous as int);
        }
        p.set(col, moved);
        proof {
            assert(p@ == before.update(col as int, moved));
            assert forall|j: int|
                0 <= j <= m && #[trigger] used@[j] && rank@[j] < rank@[previous as int] implies p[j]
                == p0[j] by {
                assert(j != col);
            }
            assert forall|j: int| 1 <= j <= m && j != previous && (#[trigger] p[j]) != 0 implies slack(
                costs@,
                m,
                u@,
                v@,
                p[j] as int,
                j,
            ) == 0 by {
                if j != col {
                    assert(before[j] == p[j]);
                }
            }
            assert forall|j: int| 1 <= j <= m && j != previous && (#[trigger] p[j]) == 0 implies p0[j]
                == 0 by {
                if j != col {
                    assert(before[j] == p[j]);
                }
            }
            level = rank@[previous as int];
        }
        col = previous;
        if col == 0 {
            break;
        }
        assert(used@[col as int]);
    }
    proof {
        assert forall|i: int| 1 <= i <= row implies #[trigger] row_is_held(p@, m, i) by {
            assert(row_is_held_around(p@, m, i, 0));
            let j = choose|j: int| 0 <= j <= m && j != 0 && #[trigger] p[j] == i;
            assert(1 <= j <= m && p[j] == i);
        }
    }
}

spec fn total(values: Seq<int>) -> int
    decreases values.len(),
{
    if values.len() == 0 {
        0
    } else {
        total(values.drop_last()) + values.last()
    }
}

proof fn lemma_total_update(values: Seq<int>, k: int, value: int)
    requires
        0 <= k < values.len(),
    ensures
        total(values.update(k, value)) == total(values) - values[k] + value,
    decreases values.len(),
{
    let after = values.update(k, value);
    if k == values.len() - 1 {
        assert(after.drop_last() =~= values.drop_last());
    } else {
        lemma_total_update(values.drop_last(), k, value);
        assert(after.drop_last() =~= values.drop_last().update(k, value));
    }
}

proof fn lemma_total_sign(values: Seq<int>)
    requires
        forall|j: int| 0 <= j < values.len() ==> #[trigger] values[j] <= 0,
    ensures
        total(values) <= 0,
        (forall|j: int| 0 <= j < values.len() ==> #[trigger] values[j] == 0) ==> total(values) == 0,
    decreases values.len(),
{
    if values.len() > 0 {
        let rest = values.drop_last();
        assert forall|j: int| 0 <= j < rest.len() implies #[trigger] rest[j] <= 0 by {
            assert(values[j] <= 0);
        }
        lemma_total_sign(rest);
        assert(values.last() == values[values.len() - 1]);
        if forall|j: int| 0 <= j < values.len() ==> #[trigger] values[j] == 0 {
            assert forall|j: int| 0 <= j < rest.len() implies #[trigger] rest[j] == 0 by {
                assert(values[j] == 0);
            }
        }
    }
}

/// The sum of `values` over the columns that `picks` names.
spec fn picked_total(values: Seq<int>, picks: Seq<usize>) -> int
    decreases picks.len(),
{
    if picks.len() == 0 {
        0
    } else {
        picked_total(values, picks.drop_last()) + values[picks.last() as int]
    }
}

proof fn lemma_picked_total_congruent(a: Seq<int>, b: Seq<int>, picks: Seq<usize>)
    requires
        forall|i: int| 0 <= i < picks.len() ==> a[#[trigger] picks[i] as int] == b[picks[i] as int],
    ensures
        picked_total(a, picks) == picked_total(b, picks),
    decreases picks.len(),
{
    if picks.len() > 0 {
        let rest = picks.drop_last();
        assert forall|i: int| 0 <= i < rest.len() implies a[#[trigger] rest[i] as int]
            == b[rest[i] as int] by {
            assert(rest[i] == picks[i]);
        }
        lemma_picked_total_congruent(a, b, rest);
        assert(picks.last() == picks[picks.len() - 1]);
    }
}

/// Distinct picks of values that are at most zero sum to no less than all the
/// values do, and to exactly that where only picked values are not zero.
proof fn lemma_picks_bound_total(values: Seq<int>, picks: Seq<usize>)
    requires
        is_assignment(picks, picks.len() as int, values.len() as int),
        forall|j: int| 0 <= j < values.len() ==> #[trigger] values[j] <= 0,
    ensures
        picked_total(values, picks) >= total(values),
        (forall|j: int|
            0 <= j < values.len() && #[trigger] values[j] != 0 ==> exists|i: int|
                0 <= i < picks.len() && #[trigger] picks[i] == j) ==> picked_total(values, picks)
            == total(values),
    decreases picks.len(),
{
    if picks.len() == 0 {
        lemma_total_sign(values);
    } else {
        let rest = picks.drop_last();
        let last = picks.last() as int;
        assert(last == picks[picks.len() - 1]);
        let without = values.update(last, 0);
        lemma_total_update(values, last, 0);
        assert forall|i: int| 0 <= i < rest.len() implies without[#[trigger] rest[i] as int]
            == values[rest[i] as int] by {
            assert(rest[i] == picks[i]);
            assert(picks[i] != picks[picks.len() - 1]);
        }
        assert(is_assignment(rest, rest.len() as int, without.len() as int)) by {
            assert forall|i: int, j: int| 0 <= i < j < rest.len() implies (#[trigger] rest[i]) != (
            #[trigger] rest[j]) by {
                assert(picks[i] != picks[j]);
            }
            assert forall|i: int| 0 <= i < rest.len() implies (#[trigger] rest[i])
                < without.len() by {
                assert(picks[i] < values.len());
            }
        }
        lemma_picked_total_congruent(without, values, rest);
        lemma_picks_bound_total(without, rest);
        if forall|j: int|
            0 <= j < values.len() && #[trigger] values[j] != 0 ==> exists|i: int|
                0 <= i < picks.len() && #[trigger] picks[i] == j {
            assert forall|j: int|
                0 <= j < without.len() && #[trigger] without[j] != 0 implies exists|i: int|
                0 <= i < rest.len() && #[trigger] rest[i] == j by {
                assert(values[j] != 0);
                let i = choose|i: int| 0 <= i < picks.len() && #[trigger] picks[i] == j;
                assert(rest[i] == j);
            }
        }
    }
}

/// An assignment costs at least its potentials, and exactly that where its
/// pairs are tight.
proof fn lemma_cost_against_potentials(
    costs: Seq<i64>,
    row_count: int,
    m: int,
    u: Seq<i128>,
    v: Seq<i128>,
    column_prices: Seq<int>,
    row_prices: Seq<int>,
    assignment: Seq<usize>,
)
    requires
        assignment.len() <= row_count,
        row_prices.len() == row_count,
        u.len() == row_count + 1,
        column_prices.len() == m,
        v.len() == m + 1,
        forall|i: int| 0 <= i < row_count ==> #[trigger] row_prices[i] == u[i + 1],
        forall|j: int| 0 <= j < m ==> #[trigger] column_prices[j] == v[j + 1],
        forall|i: int| 0 <= i < assignment.len() ==> (#[trigger] assignment[i]) < m,
        feasible(costs, m, u, v, row_count),
    ensures
        assignment_cost(costs, m, assignment) >= total(row_prices.take(assignment.len() as int))
            + picked_total(column_prices, assignment),
        (forall|i: int|
            0 <= i < assignment.len() ==> slack(
                costs,
                m,
                u,
                v,
                i + 1,
                #[trigger] assignment[i] + 1,
            ) == 0) ==> assignment_cost(costs, m, assignment) == total(
            row_prices.take(assignment.len() as int),
        ) + picked_total(column_prices, assignment),
    decreases assignment.len(),
{
    if assignment.len() > 0 {
        let rest = assignment.drop_last();
        let row = assignment.len() - 1;
        assert(assignment.last() == assignment[row]);
        assert forall|i: int| 0 <= i < rest.len() implies (#[trigger] rest[i]) < m by {
            assert(rest[i] == assignment[i]);
        }
        lemma_cost_against_potentials(
            costs,
            row_count,
            m,
            u,
            v,
            column_prices,
            row_prices,
            rest,
        );
        assert(row_prices.take(row + 1).drop_last() =~= row_prices.take(row));
        assert(row_prices.take(row + 1).last() == row_prices[row]);
        assert(slack(costs, m, u, v, row + 1, assignment[row] + 1) >= 0);
        if forall|i: int|
            0 <= i < assignment.len() ==> slack(
                costs,
                m,
                u,
                v,
                i + 1,
                #[trigger] assignment[i] + 1,
            ) == 0 {
            assert forall|i: int| 0 <= i < rest.len() implies slack(
                costs,
                m,
                u,
                v,
                i + 1,
                #[trigger] rest[i] + 1,
            ) == 0 by {
                assert(rest[i] == assignment[i]);
            }
            assert(slack(costs, m, u, v, row + 1, assignment[row] + 1) == 0);
        }
    } else {
        assert(row_prices.take(0) =~= Seq::<int>::empty());
    }
}

/// A matching of all rows without slack is the cheapest assignment.
proof fn lemma_matching_is_cheapest(
    costs: Seq<i64>,
    row_count: int,
    m: int,
    u: Seq<i128>,
    v: Seq<i128>,
    p: Seq<usize>,
    assignment: Seq<usize>,
)
    requires
        phase_invariant(costs, row_count, m, row_count, u, v, p),
        0 <= row_count <= m,
        assignment.len() == row_count,
        forall|i: int|
            0 <= i < row_count ==> (#[trigger] assignment[i]) < m && p[assignment[i] + 1] == i + 1,
    ensures
        is_cheapest(costs, row_count, m, assignment),
{
    assert(is_assignment(assignment, row_count, m));
    let column_prices = Seq::new(m as nat, |j: int| v[j + 1] as int);
    let row_prices = Seq::new(row_count as nat, |i: int| u[i + 1] as int);
    assert forall|j: int| 0 <= j < m implies #[trigger] column_prices[j] <= 0 by {
        assert(v[j + 1] <= 0);
    }
    assert forall|j: int| 0 <= j < m && #[trigger] column_prices[j] != 0 implies exists|i: int|
        0 <= i < row_count && #[trigger] assignment[i] == j by {
        assert(v[j + 1] != 0);
        let i = p[j + 1] - 1;
        assert(p[j + 1] != 0 && p[j + 1] <= row_count);
        assert(p[assignment[i] + 1] == i + 1);
        if assignment[i] != j {
            if assignment[i] < j {
                assert(p[assignment[i] + 1] != p[j + 1]);
            } else {
                assert(p[j + 1] != p[assignment[i] + 1]);
            }
        }
    }
    assert forall|i: int| 0 <= i < assignment.len() implies slack(
        costs,
        m,
        u,
        v,
        i + 1,
        #[trigger] assignment[i] + 1,
    ) == 0 by {
        assert(p[assignment[i] + 1] == i + 1);
    }
    lemma_cost_against_potentials(costs, row_count, m, u, v, column_prices, row_prices, assignment);
    lemma_picks_bound_total(column_prices, assignment);
    assert forall|other: Seq<usize>| #[trigger]
        is_assignment(other, row_count, m) implies assignment_cost(costs, m, assignment)
        <= assignment_cost(costs, m, other) by {
        lemma_cost_against_potentials(costs, row_count, m, u, v, column_prices, row_prices, other);
        lemma_picks_bound_total(column_prices, other);
    }
}

/// Gives each of `row_count` rows a column of its own, so that the sum of the
/// picked costs is as low as it can be. `costs` is row-major.
pub fn min_cost_assignment(costs: &Vec<i64>, row_count: usize, col_count: usize) -> (assignment:
    Vec<usize>)
    requires
        row_count <= col_count < usize::MAX,
        costs.len() == row_count * col_count,
    ensures
        is_cheapest(costs@, row_count as int, col_count as int, assignment@),
{
    let ghost m = col_count as int;
    let mut potentials_rows: Vec<i128> = vec![0; row_count + 1];
    let mut potentials_cols: Vec<i128> = vec![0; col_count + 1];
    let mut matching_cols: Vec<usize> = vec![0; col_count + 1];
    let mut previous_cols: Vec<usize> = vec![0; col_count + 1];
    let mut rows: usize = 0;
    proof {
        lemma_potential_limit_small(row_count as int, m, 0, costs.len() as int);
    }
    while rows < row_count
        invariant
            m == col_count,
            rows <= row_count <= col_count < usize::MAX,
            costs.len() == row_count * col_count,
            phase_invariant(
                costs@,
                row_count as int,
                m,
                rows as int,
                potentials_rows@,
                potentials_cols@,
                matching_cols@,
            ),
            previous_cols.len() == m + 1,
        decreases row_count - rows,
    {
        let row: usize = rows + 1;
        let ghost before = matching_cols@;
        matching_cols.set(0, row);
        proof {
            lemma_matching_ignores_zero(
                costs@,
                m,
                rows as int,
                potentials_rows@,
                potentials_cols@,
                before,
                matching_cols@,
            );
        }
        let (end, used, rank, size) = grow_tree(
            costs,
            row_count,
            col_count,
            row,
            &mut potentials_rows,
            &mut potentials_cols,
            &matching_cols,
            &mut previous_cols,
        );
        augment(
            Ghost(costs@),
            col_count,
            row,
            Ghost(potentials_rows@),
            Ghost(potentials_cols@),
            &mut matching_cols,
            &previous_cols,
            end,
            used,
            rank,
            size,
        );
        rows = row;
    }
    let mut assignment: Vec<usize> = vec![0; row_count];
    let mut col: usize = 1;
    while col <= col_count
        invariant
            m == col_count,
            1 <= col <= col_count + 1,
            row_count <= col_count < usize::MAX,
            assignment.len() == row_count,
            matches_rows(matching_cols@, m, row_count as int),
            forall|j: int|
                1 <= j < col && (#[trigger] matching_cols[j]) != 0 ==> assignment[matching_cols[j]
                    - 1] == j - 1,
        decreases col_count + 1 - col,
    {
        let held: usize = matching_cols[col];
        if held != 0 {
            let ghost before = assignment@;
            assignment.set(held - 1, col - 1);
            proof {
                assert forall|j: int|
                    1 <= j < col + 1 && (#[trigger] matching_cols[j]) != 0 implies assignment[matching_cols[j]
                    - 1] == j - 1 by {
                    if j < col {
                        assert(matching_cols[j] != matching_cols[col as int]);
                        assert(before[matching_cols[j] - 1] == j - 1);
                    }
                }
            }
        }
        col = col + 1;
    }
    proof {
        assert forall|i: int| 0 <= i < row_count implies (#[trigger] assignment[i]) < m
            && matching_cols[assignment[i] + 1] == i + 1 by {
            assert(row_is_held(matching_cols@, m, i + 1));
            let j = choose|j: int| 1 <= j <= m && #[trigger] matching_cols[j] == i + 1;
            assert(assignment[matching_cols[j] - 1] == j - 1);
        }
        lemma_matching_is_cheapest(
            costs@,
            row_count as int,
            m,
            potentials_rows@,
            potentials_cols@,
            matching_cols@,
            assignment@,
        );
    }
    assignment
}

proof fn lemma_matching_ignores_zero(
    costs: Seq<i64>,
    m: int,
    rows: int,
    u: Seq<i128>,
    v: Seq<i128>,
    p: Seq<usize>,
    q: Seq<usize>,
)
    requires
        matches_rows(p, m, rows),
        tight(costs, m, u, v, p),
        columns_priced(v, m, p),
        q.len() == p.len(),
        forall|j: int| 1 <= j <= m ==> #[trigger] q[j] == p[j],
    ensures
        matches_rows(q, m, rows),
        tight(costs, m, u, v, q),
        columns_priced(v, m, q),
{
    assert forall|i: int| 1 <= i <= rows implies #[trigger] row_is_held(q, m, i) by {
        assert(row_is_held(p, m, i));
        let j = choose|j: int| 1 <= j <= m && #[trigger] p[j] == i;
        assert(q[j] == i);
    }
}

/// Another pick in one row changes the cost by what the picks differ in.
proof fn lemma_cost_of_another_pick(
    costs: Seq<i64>,
    col_count: int,
    assignment: Seq<usize>,
    row: int,
    pick: usize,
)
    requires
        0 <= row < assignment.len(),
    ensures
        assignment_cost(costs, col_count, assignment.update(row, pick)) == assignment_cost(
            costs,
            col_count,
            assignment,
        ) - costs[row * col_count + assignment[row]] + costs[row * col_count + pick],
    decreases assignment.len(),
{
    let other = assignment.update(row, pick);
    if row == assignment.len() - 1 {
        assert(other.drop_last() =~= assignment.drop_last());
    } else {
        lemma_cost_of_another_pick(costs, col_count, assignment.drop_last(), row, pick);
        assert(other.drop_last() =~= assignment.drop_last().update(row, pick));
    }
}

/// A cheapest assignment cannot be bettered in one row: no column that is still free costs
/// that row less.
pub proof fn law_no_free_column_is_cheaper(
    costs: Seq<i64>,
    row_count: int,
    col_count: int,
    assignment: Seq<usize>,
    row: int,
    free: usize,
)
    requires
        is_cheapest(costs, row_count, col_count, assignment),
        0 <= row < row_count,
        free < col_count,
        !assignment.contains(free),
    ensures
        costs[row * col_count + assignment[row]] <= costs[row * col_count + free],
{
    let other = assignment.update(row, free);
    assert forall|i: int, j: int| 0 <= i < j < row_count implies (#[trigger] other[i]) != (
    #[trigger] other[j]) by {
        assert(assignment.contains(assignment[i]));
        assert(assignment.contains(assignment[j]));
    }
    assert(is_assignment(other, row_count, col_count));
    lemma_cost_of_another_pick(costs, col_count, assignment, row, free);
}

/// A cheapest assignment cannot be bettered by an exchange: two rows that trade their
/// columns cost no less together.
pub proof fn law_no_exchange_is_cheaper(
    costs: Seq<i64>,
    row_count: int,
    col_count: int,
    assignment: Seq<usize>,
    row: int,
    other_row: int,
)
    requires
        is_cheapest(costs, row_count, col_count, assignment),
        0 <= row < other_row < row_count,
    ensures
        costs[row * col_count + assignment[row]] + costs[other_row * col_count
            + assignment[other_row]] <= costs[row * col_count + assignment[other_row]]
            + costs[other_row * col_count + assignment[row]],
{
    let half = assignment.update(row, assignment[other_row]);
    let other = half.update(other_row, assignment[row]);
    assert forall|i: int, j: int| 0 <= i < j < row_count implies (#[trigger] other[i]) != (
    #[trigger] other[j]) by {
        let a = if i == row {
            other_row
        } else if i == other_row {
            row
        } else {
            i
        };
        let b = if j == row {
            other_row
        } else if j == other_row {
            row
        } else {
            j
        };
        assert(other[i] == assignment[a] && other[j] == assignment[b]);
        if a < b {
            assert(assignment[a] != assignment[b]);
        } else {
            assert(assignment[b] != assignment[a]);
        }
    }
    assert forall|i: int| 0 <= i < row_count implies (#[trigger] other[i]) < col_count by {
        assert(assignment[row] < col_count && assignment[other_row] < col_count);
    }
    assert(is_assignment(other, row_count, col_count));
    lemma_cost_of_another_pick(costs, col_count, assignment, row, assignment[other_row]);
    lemma_cost_of_another_pick(costs, col_count, half, other_row, assignment[row]);
}

/// An assignment gives each row one column, and no column to two rows.
pub proof fn law_rows_have_columns_of_their_own(
    costs: Seq<i64>,
    row_count: int,
    col_count: int,
    assignment: Seq<usize>,
    row: int,
    other_row: int,
)
    requires
        is_cheapest(costs, row_count, col_count, assignment),
        0 <= row < row_count,
        0 <= other_row < row_count,
    ensures
        assignment.len() == row_count,
        assignment[row] < col_count,
        row != other_row ==> assignment[row] != assignment[other_row],
{
    if row < other_row {
        assert(assignment[row] != assignment[other_row]);
    } else if other_row < row {
        assert(assignment[other_row] != assignment[row]);
    }
}

} // verus!
