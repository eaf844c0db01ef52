//! Counting and summing over index ranges, shared by the solvers.

use vstd::prelude::*;

verus! {

/// How many indices below `n` satisfy `p`.
pub open spec fn count_below(n: nat, p: spec_fn(int) -> bool) -> nat
    decreases n,
{
    if n == 0 {
        0
    } else {
        count_below((n - 1) as nat, p) + (if p(n - 1) { 1nat } else { 0nat })
    }
}

/// The sum of `f` over the indices below `n`.
pub open spec fn sum_below(n: nat, f: spec_fn(int) -> nat) -> nat
    decreases n,
{
    if n == 0 {
        0
    } else {
        sum_below((n - 1) as nat, f) + f(n - 1)
    }
}

/// A function of row and column, with the row fixed.
pub open spec fn at_row(f: spec_fn(int, int) -> nat, row: int) -> spec_fn(int) -> nat {
    |col: int| f(row, col)
}

/// The sums of a function of row and column over the first `cols` columns,
/// as a function of the row.
pub open spec fn row_sums(cols: nat, f: spec_fn(int, int) -> nat) -> spec_fn(int) -> nat {
    |row: int| sum_below(cols, at_row(f, row))
}

/// The sum of `f` over the cells of a grid of `rows` rows and `cols` columns.
pub open spec fn sum_grid(rows: nat, cols: nat, f: spec_fn(int, int) -> nat) -> nat {
    sum_below(rows, row_sums(cols, f))
}

/// What has been added up when the rows above `row` are done and `col`
/// cells of that row: no more than the sum over the whole grid.
pub proof fn lemma_sum_grid_partial(
    rows: nat,
    cols: nat,
    f: spec_fn(int, int) -> nat,
    row: nat,
    col: nat,
)
    requires
        row < rows,
        col <= cols,
    ensures
        sum_below(row, row_sums(cols, f)) + sum_below(col, at_row(f, row as int)) <= sum_grid(
            rows,
            cols,
            f,
        ),
        sum_below(row + 1, row_sums(cols, f)) == sum_below(row, row_sums(cols, f)) + sum_below(
            cols,
            at_row(f, row as int),
        ),
{
    lemma_sum_below_mono(col, cols, at_row(f, row as int));
    lemma_sum_below_mono(row + 1, rows, row_sums(cols, f));
}

/// The sum of a function that is the sum of two others, point by point.
pub proof fn lemma_sum_below_add(
    n: nat,
    f: spec_fn(int) -> nat,
    g: spec_fn(int) -> nat,
    h: spec_fn(int) -> nat,
)
    requires
        forall|i: int| 0 <= i < n ==> #[trigger] h(i) == f(i) + g(i),
    ensures
        sum_below(n, h) == sum_below(n, f) + sum_below(n, g),
    decreases n,
{
    if n > 0 {
        lemma_sum_below_add((n - 1) as nat, f, g, h);
    }
}

/// The sum over a grid of a function that is the sum of two others, cell
/// by cell.
pub proof fn lemma_sum_grid_add(
    rows: nat,
    cols: nat,
    f: spec_fn(int, int) -> nat,
    g: spec_fn(int, int) -> nat,
    h: spec_fn(int, int) -> nat,
)
    requires
        forall|r: int, c: int| 0 <= r < rows && 0 <= c < cols ==> #[trigger] h(r, c) == f(r, c) + g(r, c),
    ensures
        sum_grid(rows, cols, h) == sum_grid(rows, cols, f) + sum_grid(rows, cols, g),
{
    assert forall|r: int| 0 <= r < rows implies #[trigger] row_sums(cols, h)(r) == row_sums(cols, f)(
        r,
    ) + row_sums(cols, g)(r) by {
        assert forall|c: int| 0 <= c < cols implies #[trigger] at_row(h, r)(c) == at_row(f, r)(c)
            + at_row(g, r)(c) by {
            assert(h(r, c) == f(r, c) + g(r, c));
        }
        lemma_sum_below_add(cols, at_row(f, r), at_row(g, r), at_row(h, r));
    }
    lemma_sum_below_add(rows, row_sums(cols, f), row_sums(cols, g), row_sums(cols, h));
}

/// The sum over a grid of a function that is zero everywhere but in one
/// cell.
pub proof fn lemma_sum_grid_single(
    rows: nat,
    cols: nat,
    f: spec_fn(int, int) -> nat,
    row: int,
    col: int,
)
    requires
        0 <= row < rows,
        0 <= col < cols,
        forall|r: int, c: int|
            0 <= r < rows && 0 <= c < cols && (r != row || c != col) ==> #[trigger] f(r, c) == 0,
    ensures
        sum_grid(rows, cols, f) == f(row, col),
{
    lemma_sum_grid_single_rows(rows, cols, f, row, col, rows);
}

/// The sum over the first rows of a grid of a function that is zero
/// everywhere but in one cell.
pub proof fn lemma_sum_grid_single_rows(
    rows: nat,
    cols: nat,
    f: spec_fn(int, int) -> nat,
    row: int,
    col: int,
    upto: nat,
)
    requires
        0 <= row < rows,
        0 <= col < cols,
        upto <= rows,
        forall|r: int, c: int|
            0 <= r < rows && 0 <= c < cols && (r != row || c != col) ==> #[trigger] f(r, c) == 0,
    ensures
        sum_below(upto, row_sums(cols, f)) == (if row < upto { f(row, col) } else { 0nat }),
    decreases upto,
{
    if upto > 0 {
        lemma_sum_grid_single_rows(rows, cols, f, row, col, (upto - 1) as nat);
        lemma_sum_row_single(cols, f, upto - 1, row, col, cols);
    }
}

/// The sum over the first cells of a row of a function that is zero
/// everywhere but in one cell.
pub proof fn lemma_sum_row_single(
    cols: nat,
    f: spec_fn(int, int) -> nat,
    r: int,
    row: int,
    col: int,
    upto: nat,
)
    requires
        0 <= col < cols,
        upto <= cols,
        forall|c: int| 0 <= c < cols && (r != row || c != col) ==> #[trigger] f(r, c) == 0,
    ensures
        sum_below(upto, at_row(f, r)) == (if r == row && col < upto { f(row, col) } else { 0nat }),
    decreases upto,
{
    if upto > 0 {
        lemma_sum_row_single(cols, f, r, row, col, (upto - 1) as nat);
        if r != row || upto - 1 != col {
            assert(f(r, upto - 1) == 0);
        }
    }
}

/// The sums over a grid of two functions that agree in every cell.
pub proof fn lemma_sum_grid_ext(
    rows: nat,
    cols: nat,
    f: spec_fn(int, int) -> nat,
    g: spec_fn(int, int) -> nat,
)
    requires
        forall|r: int, c: int| 0 <= r < rows && 0 <= c < cols ==> #[trigger] f(r, c) == g(r, c),
    ensures
        sum_grid(rows, cols, f) == sum_grid(rows, cols, g),
{
    let zero = |r: int, c: int| 0nat;
    assert forall|r: int, c: int| 0 <= r < rows && 0 <= c < cols implies #[trigger] f(r, c) == g(
        r,
        c,
    ) + zero(r, c) by {}
    lemma_sum_grid_add(rows, cols, g, zero, f);
    lemma_sum_grid_zero(rows, cols, zero);
}

/// The sum over a grid of a function that is zero in every cell.
pub proof fn lemma_sum_grid_zero(rows: nat, cols: nat, f: spec_fn(int, int) -> nat)
    requires
        forall|r: int, c: int| 0 <= r < rows && 0 <= c < cols ==> #[trigger] f(r, c) == 0,
    ensures
        sum_grid(rows, cols, f) == 0,
    decreases rows,
{
    if rows > 0 {
        lemma_sum_grid_zero((rows - 1) as nat, cols, f);
        lemma_sum_row_zero(cols, f, rows - 1, cols);
    }
}

/// The sum over the first cells of a row of a function that is zero there.
pub proof fn lemma_sum_row_zero(cols: nat, f: spec_fn(int, int) -> nat, r: int, upto: nat)
    requires
        upto <= cols,
        forall|c: int| 0 <= c < cols ==> #[trigger] f(r, c) == 0,
    ensures
        sum_below(upto, at_row(f, r)) == 0,
    decreases upto,
{
    if upto > 0 {
        lemma_sum_row_zero(cols, f, r, (upto - 1) as nat);
        assert(f(r, upto - 1) == 0);
    }
}

/// The sum over a grid of a function that is at most `bound` in every cell
/// is at most `bound` times the number of cells.
pub proof fn lemma_sum_grid_bound(rows: nat, cols: nat, f: spec_fn(int, int) -> nat, bound: nat)
    requires
        forall|r: int, c: int| 0 <= r < rows && 0 <= c < cols ==> #[trigger] f(r, c) <= bound,
    ensures
        sum_grid(rows, cols, f) <= bound * (rows * cols),
    decreases rows,
{
    if rows > 0 {
        lemma_sum_grid_bound((rows - 1) as nat, cols, f, bound);
        lemma_sum_row_bound(cols, f, rows - 1, bound, cols);
        assert(bound * ((rows - 1) * cols) + bound * cols == bound * (rows * cols))
            by (nonlinear_arith);
    } else {
        assert(bound * (rows * cols) == 0) by (nonlinear_arith)
            requires
                rows == 0,
        ;
    }
}

/// The sum over the first cells of a row of a function that is at most
/// `bound` there.
pub proof fn lemma_sum_row_bound(
    cols: nat,
    f: spec_fn(int, int) -> nat,
    r: int,
    bound: nat,
    upto: nat,
)
    requires
        upto <= cols,
        forall|c: int| 0 <= c < cols ==> #[trigger] f(r, c) <= bound,
    ensures
        sum_below(upto, at_row(f, r)) <= bound * upto,
    decreases upto,
{
    if upto > 0 {
        lemma_sum_row_bound(cols, f, r, bound, (upto - 1) as nat);
        assert(f(r, upto - 1) <= bound);
        assert(bound * (upto - 1) + bound == bound * upto) by (nonlinear_arith);
    } else {
        assert(bound * upto == 0) by (nonlinear_arith)
            requires
                upto == 0,
        ;
    }
}

/// A count never exceeds the number of indices inspected.
pub proof fn lemma_count_below_bound(n: nat, p: spec_fn(int) -> bool)
    ensures
        count_below(n, p) <= n,
    decreases n,
{
    if n > 0 {
        lemma_count_below_bound((n - 1) as nat, p);
    }
}

/// Summing grows with the range.
pub proof fn lemma_sum_below_mono(m: nat, n: nat, f: spec_fn(int) -> nat)
    requires
        m <= n,
    ensures
        sum_below(m, f) <= sum_below(n, f),
    decreases n,
{
    if m < n {
        lemma_sum_below_mono(m, (n - 1) as nat, f);
    }
}

/// The sum of `f` over the items of a sequence.
pub open spec fn sum_over<T>(items: Seq<T>, f: spec_fn(T) -> nat) -> nat
    decreases items.len(),
{
    if items.len() == 0 {
        0
    } else {
        sum_over(items.drop_last(), f) + f(items.last())
    }
}

/// Appending an item adds its term to the sum.
pub proof fn lemma_sum_over_push<T>(items: Seq<T>, item: T, f: spec_fn(T) -> nat)
    ensures
        sum_over(items.push(item), f) == sum_over(items, f) + f(item),
{
    assert(items.push(item).drop_last() =~= items);
}

/// The sum over a prefix is no larger than the sum over the whole.
pub proof fn lemma_sum_over_take<T>(items: Seq<T>, f: spec_fn(T) -> nat, len: int)
    requires
        0 <= len <= items.len(),
    ensures
        sum_over(items.take(len), f) <= sum_over(items, f),
    decreases items.len(),
{
    if len == items.len() {
        assert(items.take(len) =~= items);
    } else {
        lemma_sum_over_take(items.drop_last(), f, len);
        assert(items.drop_last().take(len) =~= items.take(len));
    }
}

/// Replacing one item changes the sum by the difference of the two terms.
pub proof fn lemma_sum_over_update<T>(items: Seq<T>, at: int, item: T, f: spec_fn(T) -> nat)
    requires
        0 <= at < items.len(),
    ensures
        sum_over(items.update(at, item), f) + f(items[at]) == sum_over(items, f) + f(item),
    decreases items.len(),
{
    let after = items.update(at, item);
    if at == items.len() - 1 {
        assert(after.drop_last() =~= items.drop_last());
    } else {
        lemma_sum_over_update(items.drop_last(), at, item, f);
        assert(after.drop_last() =~= items.drop_last().update(at, item));
    }
}

/// A sum of terms that are all at most `bound` is at most the number of
/// terms times `bound`.
pub proof fn lemma_sum_over_bound<T>(items: Seq<T>, f: spec_fn(T) -> nat, bound: nat)
    requires
        forall|i: int| 0 <= i < items.len() ==> f(#[trigger] items[i]) <= bound,
    ensures
        sum_over(items, f) <= items.len() * bound,
    decreases items.len(),
{
    if items.len() > 0 {
        let front = items.drop_last();
        assert forall|i: int| 0 <= i < front.len() implies f(#[trigger] front[i]) <= bound by {
            assert(front[i] == items[i]);
        }
        lemma_sum_over_bound(front, f, bound);
        assert(f(items[items.len() - 1]) <= bound);
        assert(items.len() * bound == front.len() * bound + bound) by (nonlinear_arith)
            requires
                items.len() == front.len() + 1,
        ;
    }
}

/// The sum over two sequences, one after the other.
pub proof fn lemma_sum_over_concat<T>(a: Seq<T>, b: Seq<T>, f: spec_fn(T) -> nat)
    ensures
        sum_over(a + b, f) == sum_over(a, f) + sum_over(b, f),
    decreases b.len(),
{
    if b.len() == 0 {
        assert(a + b =~= a);
    } else {
        lemma_sum_over_concat(a, b.drop_last(), f);
        assert((a + b).drop_last() =~= a + b.drop_last());
    }
}

/// Taking an item out of a sequence takes its term out of the sum.
pub proof fn lemma_sum_over_remove<T>(items: Seq<T>, at: int, f: spec_fn(T) -> nat)
    requires
        0 <= at < items.len(),
    ensures
        sum_over(items, f) == sum_over(items.remove(at), f) + f(items[at]),
    decreases items.len(),
{
    if at == items.len() - 1 {
        assert(items.remove(at) =~= items.drop_last());
    } else {
        lemma_sum_over_remove(items.drop_last(), at, f);
        assert(items.remove(at).drop_last() =~= items.drop_last().remove(at));
        assert(items.remove(at).last() == items.last());
    }
}

/// Two sequences that hold the same items, each once, have the same sum.
pub proof fn lemma_sum_over_same_members<T>(a: Seq<T>, b: Seq<T>, f: spec_fn(T) -> nat)
    requires
        a.no_duplicates(),
        b.no_duplicates(),
        forall|item: T| a.contains(item) <==> b.contains(item),
    ensures
        sum_over(a, f) == sum_over(b, f),
        a.len() == b.len(),
    decreases a.len(),
{
    if a.len() == 0 {
        if b.len() > 0 {
            assert(b.contains(b[0]));
            assert(a.contains(b[0]));
        }
    } else {
        let last = a.last();
        assert(a.contains(last));
        assert(b.contains(last));
        let at = choose|at: int| 0 <= at < b.len() && b[at] == last;
        let front = a.drop_last();
        let rest = b.remove(at);
        assert forall|item: T| front.contains(item) <==> rest.contains(item) by {
            if front.contains(item) {
                let i = choose|i: int| 0 <= i < front.len() && front[i] == item;
                assert(a[i] == item);
                assert(a.contains(item));
                assert(item != last);
                let j = choose|j: int| 0 <= j < b.len() && b[j] == item;
                if j < at {
                    assert(rest[j] == item);
                } else {
                    assert(rest[j - 1] == item);
                }
            }
            if rest.contains(item) {
                let j = choose|j: int| 0 <= j < rest.len() && rest[j] == item;
                if j < at {
                    assert(b[j] == item);
                } else {
                    assert(b[j + 1] == item);
                }
                assert(b.contains(item));
                assert(item != last);
                let i = choose|i: int| 0 <= i < a.len() && a[i] == item;
                assert(front[i] == item);
            }
        }
        assert(rest.no_duplicates()) by {
            assert forall|i: int, j: int| 0 <= i < rest.len() && 0 <= j < rest.len() && i
                != j implies rest[i] != rest[j] by {
                let bi = if i < at { i } else { i + 1 };
                let bj = if j < at { j } else { j + 1 };
                assert(rest[i] == b[bi] && rest[j] == b[bj]);
            }
        }
        assert(front.no_duplicates());
        lemma_sum_over_same_members(front, rest, f);
        lemma_sum_over_remove(b, at, f);
    }
}

/// Two sequences that hold the same items equally often have the same sum.
pub proof fn lemma_sum_over_permuted<T>(a: Seq<T>, b: Seq<T>, f: spec_fn(T) -> nat)
    requires
        a.to_multiset() == b.to_multiset(),
    ensures
        sum_over(a, f) == sum_over(b, f),
    decreases a.len(),
{
    a.to_multiset_ensures();
    b.to_multiset_ensures();
    if a.len() > 0 {
        let last = a.last();
        assert(a.contains(last));
        assert(b.to_multiset().count(last) > 0);
        assert(b.contains(last));
        let at = choose|at: int| 0 <= at < b.len() && b[at] == last;
        let front = a.drop_last();
        let rest = b.remove(at);
        assert(front =~= a.remove(a.len() - 1));
        assert(front.to_multiset() =~= rest.to_multiset());
        lemma_sum_over_permuted(front, rest, f);
        lemma_sum_over_remove(b, at, f);
    } else {
        assert(b.len() == 0);
    }
}

/// Two functions that agree on the items of a sequence have the same sum
/// over it.
pub proof fn lemma_sum_over_same<T>(items: Seq<T>, f: spec_fn(T) -> nat, g: spec_fn(T) -> nat)
    requires
        forall|i: int| 0 <= i < items.len() ==> f(#[trigger] items[i]) == g(items[i]),
    ensures
        sum_over(items, f) == sum_over(items, g),
    decreases items.len(),
{
    if items.len() > 0 {
        lemma_sum_over_same(items.drop_last(), f, g);
    }
}

} // verus!
