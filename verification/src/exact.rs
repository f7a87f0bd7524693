//! Exact arithmetic: where sums may be regrouped, the order in which the
//! kernels add does not matter, and every dot product is the plain sum of
//! products.
//!
//! Rounding arithmetic does not satisfy the laws asked for here; for it the
//! kernels' results are the expressions that `dot_value` spells out, which
//! differ from the plain sum by rounding only.
use crate::gemm::{product_t, row_of};
use crate::kernel::{accumulate, block_state, dot_value, sum_of_products};
use crate::scalar::Scalar;
use crate::simd::{fold_lanes, fold_sum, lanes_sum, reduce_value, UNROLL, WIDTH};
use vstd::prelude::*;

verus! {

/// Addition on `T` has zero as its neutral element, and is commutative and
/// associative.
#[verifier::opaque]
pub open spec fn sums_exactly<T: Scalar>() -> bool {
    &&& forall|x: T| #[trigger] T::sum(T::zero_value(), x) == x
    &&& forall|x: T, y: T| #[trigger] T::sum(x, y) == T::sum(y, x)
    &&& forall|x: T, y: T, z: T| #[trigger]
        T::sum(T::sum(x, y), z) == T::sum(x, T::sum(y, z))
}

/// Wrapping addition of 64-bit integers is exact in this sense.
pub proof fn lemma_integers_sum_exactly()
    ensures
        sums_exactly::<i64>(),
{
    reveal(sums_exactly);
}

proof fn law_zero<T: Scalar>(x: T)
    requires
        sums_exactly::<T>(),
    ensures
        T::sum(T::zero_value(), x) == x,
        T::sum(x, T::zero_value()) == x,
{
    reveal(sums_exactly);
}

proof fn law_swap<T: Scalar>(x: T, y: T)
    requires
        sums_exactly::<T>(),
    ensures
        T::sum(x, y) == T::sum(y, x),
{
    reveal(sums_exactly);
}

proof fn law_group<T: Scalar>(x: T, y: T, z: T)
    requires
        sums_exactly::<T>(),
    ensures
        T::sum(T::sum(x, y), z) == T::sum(x, T::sum(y, z)),
{
    reveal(sums_exactly);
}

/// `(a + b) + (c + d) == (a + c) + (b + d)`.
proof fn law_shuffle<T: Scalar>(a: T, b: T, c: T, d: T)
    requires
        sums_exactly::<T>(),
    ensures
        T::sum(T::sum(a, b), T::sum(c, d)) == T::sum(T::sum(a, c), T::sum(b, d)),
{
    law_group(a, b, T::sum(c, d));
    law_group(b, c, d);
    law_swap(b, c);
    law_group(c, b, d);
    law_group(a, c, T::sum(b, d));
}

/// The sum of `count` products from index `start` on, added from left to
/// right starting from the first product itself.
pub open spec fn run_sum<T: Scalar>(a: Seq<T>, b: Seq<T>, start: int, count: nat) -> T
    decreases count,
{
    if count <= 1 {
        T::product(a[start], b[start])
    } else {
        T::sum(
            run_sum(a, b, start, (count - 1) as nat),
            T::product(a[start + count - 1], b[start + count - 1]),
        )
    }
}

/// Adding on from where a plain sum stopped gives the longer plain sum. This
/// holds of any arithmetic.
pub proof fn lemma_sum_continues<T: Scalar>(a: Seq<T>, b: Seq<T>, from: nat, count: nat)
    ensures
        accumulate(sum_of_products(a, b, from), a, b, from as int, 1, count) == sum_of_products(
            a,
            b,
            from + count,
        ),
    decreases count,
{
    if count > 0 {
        lemma_sum_continues(a, b, from, (count - 1) as nat);
        assert(from + (count - 1) * 1 == 0 + (from + count - 1) * 1);
    }
}

proof fn lemma_accumulate_run<T: Scalar>(acc: T, a: Seq<T>, b: Seq<T>, start: int, count: nat)
    requires
        sums_exactly::<T>(),
        count >= 1,
    ensures
        accumulate(acc, a, b, start, 1, count) == T::sum(acc, run_sum(a, b, start, count)),
    decreases count,
{
    if count == 1 {
        assert(accumulate(acc, a, b, start, 1, 0) == acc);
        assert(start + (1 - 1) * 1 == start);
    } else {
        lemma_accumulate_run(acc, a, b, start, (count - 1) as nat);
        let i = start + count - 1;
        assert(start + (count - 1) * 1 == i);
        law_group(acc, run_sum(a, b, start, (count - 1) as nat), T::product(a[i], b[i]));
    }
}

proof fn lemma_run_split<T: Scalar>(a: Seq<T>, b: Seq<T>, start: int, c1: nat, c2: nat)
    requires
        sums_exactly::<T>(),
        c1 >= 1,
        c2 >= 1,
    ensures
        run_sum(a, b, start, c1 + c2) == T::sum(
            run_sum(a, b, start, c1),
            run_sum(a, b, start + c1, c2),
        ),
    decreases c2,
{
    if c2 > 1 {
        lemma_run_split(a, b, start, c1, (c2 - 1) as nat);
        let i = start + c1 + c2 - 1;
        assert(run_sum(a, b, start, c1 + c2) == T::sum(
            run_sum(a, b, start, (c1 + c2 - 1) as nat),
            T::product(a[i], b[i]),
        ));
        law_group(
            run_sum(a, b, start, c1),
            run_sum(a, b, start + c1, (c2 - 1) as nat),
            T::product(a[i], b[i]),
        );
    }
}

/// The fold of a lane-wise sum is the sum of the folds.
proof fn lemma_fold_of_sums<T: Scalar>(x: Seq<T>, p: Seq<T>, count: nat)
    requires
        sums_exactly::<T>(),
        1 <= count <= x.len(),
        x.len() == p.len(),
    ensures
        fold_sum(lanes_sum(x, p), count) == T::sum(fold_sum(x, count), fold_sum(p, count)),
    decreases count,
{
    if count > 1 {
        lemma_fold_of_sums(x, p, (count - 1) as nat);
        law_shuffle(
            fold_sum(x, (count - 1) as nat),
            fold_sum(p, (count - 1) as nat),
            x[count - 1],
            p[count - 1],
        );
    }
}

proof fn lemma_fold_of_zeros<T: Scalar>(s: Seq<T>, count: nat)
    requires
        sums_exactly::<T>(),
        1 <= count <= s.len(),
        forall|i: int| 0 <= i < s.len() ==> s[i] == T::zero_value(),
    ensures
        fold_sum(s, count) == T::zero_value(),
    decreases count,
{
    if count > 1 {
        lemma_fold_of_zeros(s, (count - 1) as nat);
        law_zero(T::zero_value());
    }
}

/// The sum of each register of a block.
spec fn row_totals<T: Scalar>(rows: Seq<Seq<T>>, w: nat) -> Seq<T> {
    Seq::new(rows.len(), |j: int| fold_sum(rows[j], w))
}

/// Reducing a block gives the sum of its registers' sums.
proof fn lemma_reduce_by_rows<T: Scalar>(rows: Seq<Seq<T>>, w: nat, count: nat)
    requires
        sums_exactly::<T>(),
        w >= 1,
        1 <= count <= rows.len(),
        forall|j: int| 0 <= j < rows.len() ==> (#[trigger] rows[j]).len() == w,
    ensures
        fold_lanes(rows, count).len() == w,
        fold_sum(fold_lanes(rows, count), w) == fold_sum(row_totals(rows, w), count),
    decreases count,
{
    if count > 1 {
        lemma_reduce_by_rows(rows, w, (count - 1) as nat);
        lemma_fold_of_sums(fold_lanes(rows, (count - 1) as nat), rows[count - 1], w);
    }
}

/// The products of one block that register `j` takes in.
spec fn block_products<T: Scalar>(a: Seq<T>, b: Seq<T>, w: nat, n: nat, t: nat, j: int) -> Seq<T> {
    Seq::new(
        w,
        |l: int| T::product(a[t * (w * n) + j * w + l], b[t * (w * n) + j * w + l]),
    )
}

proof fn lemma_block_products_fold<T: Scalar>(
    a: Seq<T>,
    b: Seq<T>,
    w: nat,
    n: nat,
    t: nat,
    j: int,
    count: nat,
)
    requires
        1 <= count <= w,
    ensures
        fold_sum(block_products(a, b, w, n, t, j), count) == run_sum(
            a,
            b,
            t * (w * n) + j * w,
            count,
        ),
    decreases count,
{
    if count > 1 {
        lemma_block_products_fold(a, b, w, n, t, j, (count - 1) as nat);
    }
}

/// The sums, register by register, of the products of one block.
spec fn block_runs<T: Scalar>(a: Seq<T>, b: Seq<T>, w: nat, n: nat, t: nat) -> Seq<T> {
    Seq::new(n, |j: int| run_sum(a, b, t * (w * n) + j * w, w))
}

proof fn lemma_block_runs_fold<T: Scalar>(a: Seq<T>, b: Seq<T>, w: nat, n: nat, t: nat, count: nat)
    requires
        sums_exactly::<T>(),
        w >= 1,
        1 <= count <= n,
    ensures
        count * w >= 1,
        fold_sum(block_runs(a, b, w, n, t), count) == run_sum(
            a,
            b,
            (t * (w * n)) as int,
            count * w,
        ),
    decreases count,
{
    assert(count * w >= 1) by (nonlinear_arith)
        requires
            count >= 1,
            w >= 1,
    ;
    if count == 1 {
        assert(1 * w == w) by (nonlinear_arith);
        assert(0 * w == 0) by (nonlinear_arith);
    } else {
        lemma_block_runs_fold(a, b, w, n, t, (count - 1) as nat);
        assert(count * w == (count - 1) * w + w) by (nonlinear_arith);
        lemma_run_split(a, b, (t * (w * n)) as int, ((count - 1) * w) as nat, w);
    }
}

/// One more block adds that block's products to what the registers reduce
/// to.
proof fn lemma_block_step<T: Scalar>(a: Seq<T>, b: Seq<T>, w: nat, n: nat, t: nat)
    requires
        sums_exactly::<T>(),
        w >= 1,
        n >= 1,
    ensures
        w * n >= 1,
        reduce_value(block_state(a, b, w, n, t + 1), w) == T::sum(
            reduce_value(block_state(a, b, w, n, t), w),
            run_sum(a, b, (t * (w * n)) as int, w * n),
        ),
{
    let before = block_state(a, b, w, n, t);
    let after = block_state(a, b, w, n, t + 1);
    let totals_before = row_totals(before, w);
    let totals_after = row_totals(after, w);
    let runs = block_runs(a, b, w, n, t);
    assert(n * w == w * n) by (nonlinear_arith);
    lemma_reduce_by_rows(before, w, n);
    lemma_reduce_by_rows(after, w, n);
    assert forall|j: int| 0 <= j < n implies totals_after[j] == T::sum(
        totals_before[j],
        runs[j],
    ) by {
        let taken = block_products(a, b, w, n, t, j);
        assert forall|l: int| 0 <= l < w implies after[j][l] == T::sum(before[j][l], taken[l]) by {
            assert(j * w + l + ((t + 1) - 1) * ((w * n) as int) == t * (w * n) + j * w + l);
        }
        assert(after[j] =~= lanes_sum(before[j], taken));
        lemma_fold_of_sums(before[j], taken, w);
        lemma_block_products_fold(a, b, w, n, t, j, w);
    }
    assert(totals_after =~= lanes_sum(totals_before, runs));
    lemma_fold_of_sums(totals_before, runs, n);
    lemma_block_runs_fold(a, b, w, n, t, n);
}

/// After at least one block the registers reduce to the sum of all the
/// products they took in.
proof fn lemma_blocks_gather_the_sum<T: Scalar>(a: Seq<T>, b: Seq<T>, w: nat, n: nat, t: nat)
    requires
        sums_exactly::<T>(),
        w >= 1,
        n >= 1,
        t >= 1,
    ensures
        t * (w * n) >= 1,
        reduce_value(block_state(a, b, w, n, t), w) == run_sum(a, b, 0, t * (w * n)),
    decreases t,
{
    let step = w * n;
    lemma_block_step(a, b, w, n, (t - 1) as nat);
    assert(t * step == (t - 1) * step + step && t * step >= 1) by (nonlinear_arith)
        requires
            t >= 1,
            step >= 1,
    ;
    if t == 1 {
        let empty = block_state(a, b, w, n, 0);
        lemma_reduce_by_rows(empty, w, n);
        assert forall|j: int| 0 <= j < n implies #[trigger] row_totals(empty, w)[j]
            == T::zero_value() by {
            lemma_fold_of_zeros(empty[j], w);
        }
        lemma_fold_of_zeros(row_totals(empty, w), n);
        law_zero(run_sum(a, b, 0, step));
        assert(0 * step == 0) by (nonlinear_arith);
    } else {
        lemma_blocks_gather_the_sum(a, b, w, n, (t - 1) as nat);
        lemma_run_split(a, b, 0, ((t - 1) * step) as nat, step);
    }
}

/// Where sums are exact, the dot kernel computes the plain sum of products,
/// whatever the number and the width of its registers.
pub proof fn lemma_dot_is_plain_sum<T: Scalar>(a: Seq<T>, b: Seq<T>, k: nat, w: nat, n: nat)
    requires
        sums_exactly::<T>(),
        w >= 1,
        n >= 1,
    ensures
        dot_value(a, b, k, w, n) == sum_of_products(a, b, k),
{
    let step = w * n;
    assert(step >= 1) by (nonlinear_arith)
        requires
            w >= 1,
            n >= 1,
            step == w * n,
    ;
    let blocks = k / step;
    let np = blocks * step;
    assert(0 <= np <= k) by (nonlinear_arith)
        requires
            step >= 1,
            blocks == k / step,
            np == blocks * step,
            0 <= k,
    ;
    let gathered = if blocks == 0 {
        T::zero_value()
    } else {
        reduce_value(block_state(a, b, w, n, blocks), w)
    };
    if blocks > 0 {
        lemma_blocks_gather_the_sum(a, b, w, n, blocks);
        lemma_accumulate_run(T::zero_value(), a, b, 0, np);
        law_zero(run_sum(a, b, 0, np));
    } else {
        assert(0 * step == 0) by (nonlinear_arith);
    }
    assert(gathered == sum_of_products(a, b, np));
    lemma_sum_continues(a, b, np, (k - np) as nat);
}

/// Where sums are exact, every element of `A·Bᵗ` that the engine writes is
/// the plain sum of the products of its row of `A` and its row of `B`: what
/// three nested loops compute.
pub proof fn lemma_product_t_is_plain_sum<T: Scalar>(
    a: Seq<T>,
    a_skip: int,
    b: Seq<T>,
    b_skip: int,
    k: nat,
    item: int,
    r: int,
    c: int,
)
    requires
        sums_exactly::<T>(),
    ensures
        product_t(a, a_skip, b, b_skip, k, item, r, c) == sum_of_products(
            row_of(a, item, r, a_skip, k as int),
            row_of(b, item, c, b_skip, k as int),
            k,
        ),
{
    lemma_dot_is_plain_sum(
        row_of(a, item, r, a_skip, k as int),
        row_of(b, item, c, b_skip, k as int),
        k,
        WIDTH as nat,
        UNROLL as nat,
    );
}

} // verus!
