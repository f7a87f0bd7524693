//! Dot-product and multiply-accumulate kernels over lane registers.
//!
//! Every kernel has two phases: whole blocks of `W * N` elements go through
//! the registers, the elements left over are handled one at a time.
use crate::scalar::{fma, mul_add, widen_seq, Narrow, Scalar};
use crate::simd::{block_rows, reduce_block, reduce_value, zero_block, Register, UNROLL, WIDTH};
use vstd::prelude::*;

verus! {

/// `acc` after the products `a[i] * b[i]` have been added to it, one after
/// the other, for `i = start, start + stride, ..` (`count` of them).
pub open spec fn accumulate<T: Scalar>(
    acc: T,
    a: Seq<T>,
    b: Seq<T>,
    start: int,
    stride: int,
    count: nat,
) -> T
    decreases count,
{
    if count == 0 {
        acc
    } else {
        let i = start + (count - 1) * stride;
        fma(accumulate(acc, a, b, start, stride, (count - 1) as nat), a[i], b[i])
    }
}

/// The products of the first `k` elements added from left to right onto zero.
pub open spec fn sum_of_products<T: Scalar>(a: Seq<T>, b: Seq<T>, k: nat) -> T {
    accumulate(T::zero_value(), a, b, 0, 1, k)
}

/// The accumulator block after `blocks` blocks of `w * n` elements: lane `l`
/// of register `j` has gathered the products at `j * w + l`, then every
/// `w * n` elements further on.
pub open spec fn block_state<T: Scalar>(a: Seq<T>, b: Seq<T>, w: nat, n: nat, blocks: nat) -> Seq<
    Seq<T>,
> {
    Seq::new(
        n,
        |j: int|
            Seq::new(
                w,
                |l: int| accumulate(T::zero_value(), a, b, j * w + l, (w * n) as int, blocks),
            ),
    )
}

/// What the dot kernel returns for the first `k` elements of `a` and `b`
/// with `n` registers of `w` lanes: the whole blocks are gathered lane by
/// lane, the block is reduced, and the elements left over are added onto
/// that sum from left to right. Where `k` is less than one block, that is
/// the plain sum of products; for `k == 0` it is zero.
pub open spec fn dot_value<T: Scalar>(a: Seq<T>, b: Seq<T>, k: nat, w: nat, n: nat) -> T {
    let step = w * n;
    let blocks = k / step;
    let gathered = if blocks == 0 {
        T::zero_value()
    } else {
        reduce_value(block_state(a, b, w, n, blocks), w)
    };
    accumulate(gathered, a, b, (blocks * step) as int, 1, (k - blocks * step) as nat)
}

/// `c[i] + b[i] * v` for the first `n` elements, the rest of `c` as it was.
pub open spec fn mad_value<T: Scalar>(b: Seq<T>, c: Seq<T>, v: T, n: nat) -> Seq<T> {
    Seq::new(
        c.len(),
        |i: int|
            if i < n {
                fma(c[i], b[i], v)
            } else {
                c[i]
            },
    )
}

/// The first `n` elements of `x` narrowed, the rest of `y` as it was.
pub open spec fn narrowed_into<H: Narrow>(x: Seq<H::Wide>, y: Seq<H>, n: nat) -> Seq<H> {
    Seq::new(
        y.len(),
        |i: int|
            if i < n {
                H::narrowed(x[i])
            } else {
                y[i]
            },
    )
}

proof fn lemma_lane_bounds(w: int, n: int, j: int, t: int, blocks: int, k: int)
    by (nonlinear_arith)
    requires
        1 <= w,
        0 <= j < n,
        0 <= t < blocks,
        blocks * (w * n) <= k,
    ensures
        0 <= j * w,
        j * w + w <= w * n,
        0 <= t * (w * n),
        t * (w * n) + w * n <= k,
        (t + 1) * (w * n) == t * (w * n) + w * n,
{
}

proof fn lemma_step_positive(w: int, n: int)
    by (nonlinear_arith)
    requires
        1 <= w,
        1 <= n,
    ensures
        1 <= w * n,
{
}

proof fn lemma_whole_blocks(k: int, step: int)
    by (nonlinear_arith)
    requires
        0 <= k,
        1 <= step,
    ensures
        0 <= (k / step) * step <= k,
        k - (k / step) * step < step,
        k - (k / step) * step == k % step,
{
}

/// With one register of one lane the kernel is the scalar loop: the products
/// are added from left to right onto zero.
pub proof fn lemma_single_lane_is_plain_sum<T: Scalar>(a: Seq<T>, b: Seq<T>, k: nat)
    ensures
        dot_value(a, b, k, 1, 1) == sum_of_products(a, b, k),
{
    if k > 0 {
        let rows = block_state(a, b, 1, 1, k);
        assert(rows[0][0] == accumulate(T::zero_value(), a, b, 0, 1, k));
        assert(reduce_value(rows, 1) == rows[0][0]);
        assert(k / 1 == k && k * 1 == k);
    }
}

/// A row shorter than one block never reaches the registers: whatever their
/// width, the result is the plain sum of products, and zero for an empty row.
pub proof fn lemma_short_row_is_plain_sum<T: Scalar>(a: Seq<T>, b: Seq<T>, k: nat, w: nat, n: nat)
    requires
        k < w * n,
    ensures
        dot_value(a, b, k, w, n) == sum_of_products(a, b, k),
        k == 0 ==> dot_value(a, b, k, w, n) == T::zero_value(),
{
    assert(k / (w * n) == 0) by (nonlinear_arith)
        requires
            0 <= k < w * n,
    ;
}

/// The dot product of the first `k` elements of two rows, computed with `N`
/// accumulator registers of `W` lanes.
pub fn dot_lanes<T: Scalar, const W: usize, const N: usize>(
    a_row: &[T],
    b_row: &[T],
    k: usize,
) -> (c: T)
    requires
        W >= 1,
        N >= 1,
        W * N <= usize::MAX,
        k <= a_row.len(),
        k <= b_row.len(),
    ensures
        c == dot_value(a_row@, b_row@, k as nat, W as nat, N as nat),
{
    let step: usize = W * N;
    proof {
        lemma_step_positive(W as int, N as int);
        lemma_whole_blocks(k as int, step as int);
    }
    let blocks: usize = k / step;
    let np: usize = blocks * step;
    let mut sum: [Register<T, W>; N] = zero_block();
    let mut t: usize = 0;
    assert(block_rows(sum@) =~~= block_state(a_row@, b_row@, W as nat, N as nat, 0));
    while t < blocks
        invariant
            W >= 1,
            N >= 1,
            step == W * N,
            t <= blocks,
            blocks * step <= k,
            k <= a_row.len(),
            k <= b_row.len(),
            block_rows(sum@) == block_state(a_row@, b_row@, W as nat, N as nat, t as nat),
        decreases blocks - t,
    {
        proof {
            lemma_lane_bounds(W as int, N as int, 0, t as int, blocks as int, k as int);
        }
        let i: usize = t * step;
        let ghost before = block_rows(sum@);
        let ghost after = block_state(a_row@, b_row@, W as nat, N as nat, (t + 1) as nat);
        let mut j: usize = 0;
        while j < N
            invariant
                W >= 1,
                step == W * N,
                j <= N,
                t < blocks,
                i == t * step,
                i + step <= k,
                blocks * step <= k,
                k <= a_row.len(),
                k <= b_row.len(),
                before == block_state(a_row@, b_row@, W as nat, N as nat, t as nat),
                after == block_state(a_row@, b_row@, W as nat, N as nat, (t + 1) as nat),
                forall|r: int| 0 <= r < j ==> sum@[r]@ == after[r],
                forall|r: int| j <= r < N ==> sum@[r]@ == before[r],
            decreases N - j,
        {
            proof {
                lemma_lane_bounds(W as int, N as int, j as int, t as int, blocks as int, k as int);
            }
            let at: usize = i + j * W;
            let ax = Register::<T, W>::load(a_row, at);
            let ay = Register::<T, W>::load(b_row, at);
            let acc = sum[j];
            sum[j] = acc.fma(ax, ay);
            proof {
                let r = j as int;
                assert forall|l: int| 0 <= l < W implies sum@[r]@[l] == after[r][l] by {
                    assert(acc@[l] == before[r][l]);
                    assert(j * W + l + ((t + 1) - 1) * (W * N) == at + l);
                }
                assert(sum@[r]@ =~= after[r]);
            }
            j += 1;
        }
        proof {
            assert(block_rows(sum@) =~= after);
        }
        t += 1;
    }
    let mut c: T = if blocks == 0 {
        T::zero()
    } else {
        reduce_block(&sum)
    };
    let ghost reduced = c;
    let mut i: usize = np;
    while i < k
        invariant
            np <= i <= k,
            k <= a_row.len(),
            k <= b_row.len(),
            c == accumulate(reduced, a_row@, b_row@, np as int, 1, (i - np) as nat),
        decreases k - i,
    {
        c = mul_add(c, a_row[i], b_row[i]);
        i += 1;
    }
    c
}

/// The dot product of the first `k` elements of two reduced-precision rows:
/// every element is widened when it is loaded, and the sum is accumulated at
/// full precision.
pub fn dot_lanes_widened<H: Narrow, const W: usize, const N: usize>(
    a_row: &[H],
    b_row: &[H],
    k: usize,
) -> (c: H::Wide)
    requires
        W >= 1,
        N >= 1,
        W * N <= usize::MAX,
        k <= a_row.len(),
        k <= b_row.len(),
    ensures
        c == dot_value(widen_seq(a_row@), widen_seq(b_row@), k as nat, W as nat, N as nat),
{
    let step: usize = W * N;
    proof {
        lemma_step_positive(W as int, N as int);
        lemma_whole_blocks(k as int, step as int);
    }
    let blocks: usize = k / step;
    let np: usize = blocks * step;
    let ghost a = widen_seq(a_row@);
    let ghost b = widen_seq(b_row@);
    let mut sum: [Register<H::Wide, W>; N] = zero_block();
    let mut t: usize = 0;
    assert(block_rows(sum@) =~~= block_state(a, b, W as nat, N as nat, 0));
    while t < blocks
        invariant
            W >= 1,
            N >= 1,
            step == W * N,
            t <= blocks,
            blocks * step <= k,
            k <= a_row.len(),
            k <= b_row.len(),
            a == widen_seq(a_row@),
            b == widen_seq(b_row@),
            block_rows(sum@) == block_state(a, b, W as nat, N as nat, t as nat),
        decreases blocks - t,
    {
        proof {
            lemma_lane_bounds(W as int, N as int, 0, t as int, blocks as int, k as int);
        }
        let i: usize = t * step;
        let ghost before = block_rows(sum@);
        let ghost after = block_state(a, b, W as nat, N as nat, (t + 1) as nat);
        let mut j: usize = 0;
        while j < N
            invariant
                W >= 1,
                step == W * N,
                j <= N,
                t < blocks,
                i == t * step,
                i + step <= k,
                blocks * step <= k,
                k <= a_row.len(),
                k <= b_row.len(),
                a == widen_seq(a_row@),
                b == widen_seq(b_row@),
                before == block_state(a, b, W as nat, N as nat, t as nat),
                after == block_state(a, b, W as nat, N as nat, (t + 1) as nat),
                forall|r: int| 0 <= r < j ==> sum@[r]@ == after[r],
                forall|r: int| j <= r < N ==> sum@[r]@ == before[r],
            decreases N - j,
        {
            proof {
                lemma_lane_bounds(W as int, N as int, j as int, t as int, blocks as int, k as int);
            }
            let at: usize = i + j * W;
            let ax = Register::<H::Wide, W>::load_widened(a_row, at);
            let ay = Register::<H::Wide, W>::load_widened(b_row, at);
            let acc = sum[j];
            sum[j] = acc.fma(ax, ay);
            proof {
                let r = j as int;
                assert forall|l: int| 0 <= l < W implies sum@[r]@[l] == after[r][l] by {
                    assert(acc@[l] == before[r][l]);
                    assert(j * W + l + ((t + 1) - 1) * (W * N) == at + l);
                }
                assert(sum@[r]@ =~= after[r]);
            }
            j += 1;
        }
        proof {
            assert(block_rows(sum@) =~= after);
        }
        t += 1;
    }
    let mut c: H::Wide = if blocks == 0 {
        H::Wide::zero()
    } else {
        reduce_block(&sum)
    };
    let ghost reduced = c;
    let mut i: usize = np;
    while i < k
        invariant
            np <= i <= k,
            k <= a_row.len(),
            k <= b_row.len(),
            a == widen_seq(a_row@),
            b == widen_seq(b_row@),
            c == accumulate(reduced, a, b, np as int, 1, (i - np) as nat),
        decreases k - i,
    {
        c = mul_add(c, a_row[i].to_wide(), b_row[i].to_wide());
        i += 1;
    }
    c
}

/// Adds `b_row[i] * v` to `c_row[i]` for each `i` below `n`, with `N`
/// registers of `W` lanes per block.
pub fn mad_lanes<T: Scalar, const W: usize, const N: usize>(
    b_row: &[T],
    c_row: &mut [T],
    v: T,
    n: usize,
)
    requires
        W >= 1,
        N >= 1,
        W * N <= usize::MAX,
        n <= b_row.len(),
        n <= old(c_row).len(),
    ensures
        final(c_row)@ == mad_value(b_row@, old(c_row)@, v, n as nat),
{
    let step: usize = W * N;
    proof {
        lemma_step_positive(W as int, N as int);
        lemma_whole_blocks(n as int, step as int);
    }
    let blocks: usize = n / step;
    let np: usize = blocks * step;
    let vx = Register::<T, W>::broadcast(v);
    let mut t: usize = 0;
    while t < blocks
        invariant
            W >= 1,
            N >= 1,
            step == W * N,
            t <= blocks,
            blocks * step <= n,
            n <= b_row.len(),
            n <= c_row.len(),
            vx@ == crate::simd::splat(v, W as nat),
            c_row@.len() == old(c_row)@.len(),
            forall|i: int|
                0 <= i < c_row@.len() ==> c_row@[i] == if i < t * step {
                    fma(old(c_row)@[i], b_row@[i], v)
                } else {
                    old(c_row)@[i]
                },
        decreases blocks - t,
    {
        proof {
            lemma_lane_bounds(W as int, N as int, 0, t as int, blocks as int, n as int);
        }
        let i: usize = t * step;
        let mut j: usize = 0;
        while j < N
            invariant
                W >= 1,
                step == W * N,
                j <= N,
                t < blocks,
                i == t * step,
                i + step <= n,
                blocks * step <= n,
                n <= b_row.len(),
                n <= c_row.len(),
                vx@ == crate::simd::splat(v, W as nat),
                c_row@.len() == old(c_row)@.len(),
                forall|q: int|
                    0 <= q < c_row@.len() ==> c_row@[q] == if q < i + j * W {
                        fma(old(c_row)@[q], b_row@[q], v)
                    } else {
                        old(c_row)@[q]
                    },
            decreases N - j,
        {
            proof {
                lemma_lane_bounds(W as int, N as int, j as int, t as int, blocks as int, n as int);
                assert((j + 1) * W == j * W + W) by (nonlinear_arith);
            }
            let at: usize = i + j * W;
            let ax = Register::<T, W>::load(b_row, at);
            let ay = Register::<T, W>::load(c_row, at);
            let ay = ay.fma(ax, vx);
            ay.store(c_row, at);
            j += 1;
        }
        proof {
            assert(N * W == W * N) by (nonlinear_arith);
        }
        t += 1;
    }
    let mut i: usize = np;
    while i < n
        invariant
            np <= i <= n,
            n <= b_row.len(),
            n <= c_row.len(),
            c_row@.len() == old(c_row)@.len(),
            forall|q: int|
                0 <= q < c_row@.len() ==> c_row@[q] == if q < i {
                    fma(old(c_row)@[q], b_row@[q], v)
                } else {
                    old(c_row)@[q]
                },
        decreases n - i,
    {
        c_row[i] = mul_add(c_row[i], b_row[i], v);
        i += 1;
    }
    proof {
        assert(c_row@ =~= mad_value(b_row@, old(c_row)@, v, n as nat));
    }
}

/// `*c = Σ a_row[i] * b_row[i]` over the first `k` elements, in the order
/// that `dot_value` fixes for the configured registers. What `*c` held
/// before is overwritten.
pub fn vec_dot_f32<T: Scalar>(a_row: &[T], b_row: &[T], c: &mut T, k: usize)
    requires
        k <= a_row.len(),
        k <= b_row.len(),
    ensures
        *final(c) == dot_value(a_row@, b_row@, k as nat, WIDTH as nat, UNROLL as nat),
{
    *c = dot_lanes::<T, WIDTH, UNROLL>(a_row, b_row, k);
}

/// `c_row[i] += b_row[i] * v` for each `i` below `n`; the rest of `c_row`
/// is left as it was.
pub fn vec_mad_f32<T: Scalar>(b_row: &[T], c_row: &mut [T], v: T, n: usize)
    requires
        n <= b_row.len(),
        n <= old(c_row).len(),
    ensures
        final(c_row)@ == mad_value(b_row@, old(c_row)@, v, n as nat),
{
    mad_lanes::<T, WIDTH, UNROLL>(b_row, c_row, v, n);
}

/// `*c = Σ a_row[i] * b_row[i]` over the first `k` elements of two
/// reduced-precision rows, each element widened before it is multiplied.
pub fn vec_dot_f16<H: Narrow>(a_row: &[H], b_row: &[H], c: &mut H::Wide, k: usize)
    requires
        k <= a_row.len(),
        k <= b_row.len(),
    ensures
        *final(c) == dot_value(
            widen_seq(a_row@),
            widen_seq(b_row@),
            k as nat,
            WIDTH as nat,
            UNROLL as nat,
        ),
{
    *c = dot_lanes_widened::<H, WIDTH, UNROLL>(a_row, b_row, k);
}

/// Narrows the first `n` elements of `x` into `y`: eight at a time, then
/// four at a time, then one by one. Every element written is the narrowing
/// of the element read, whichever of the three paths wrote it.
pub fn f32_to_f16<H: Narrow>(x: &[H::Wide], y: &mut [H], n: usize)
    requires
        n <= x.len(),
        n <= old(y).len(),
    ensures
        final(y)@ == narrowed_into(x@, old(y)@, n as nat),
{
    let mut i: usize = 0;
    while n - i >= 8
        invariant
            i <= n,
            n <= x.len(),
            n <= y.len(),
            y@.len() == old(y)@.len(),
            forall|q: int|
                0 <= q < y@.len() ==> y@[q] == if q < i {
                    H::narrowed(x@[q])
                } else {
                    old(y)@[q]
                },
        decreases n - i,
    {
        let x_vec = Register::<H::Wide, 8>::load(x, i);
        x_vec.store_narrowed(y, i);
        i += 8;
    }
    while n - i >= 4
        invariant
            i <= n,
            n <= x.len(),
            n <= y.len(),
            y@.len() == old(y)@.len(),
            forall|q: int|
                0 <= q < y@.len() ==> y@[q] == if q < i {
                    H::narrowed(x@[q])
                } else {
                    old(y)@[q]
                },
        decreases n - i,
    {
        let x_vec = Register::<H::Wide, 4>::load(x, i);
        x_vec.store_narrowed(y, i);
        i += 4;
    }
    while i < n
        invariant
            i <= n,
            n <= x.len(),
            n <= y.len(),
            y@.len() == old(y)@.len(),
            forall|q: int|
                0 <= q < y@.len() ==> y@[q] == if q < i {
                    H::narrowed(x@[q])
                } else {
                    old(y)@[q]
                },
        decreases n - i,
    {
        y[i] = H::from_wide(x[i]);
        i += 1;
    }
    proof {
        assert(y@ =~= narrowed_into(x@, old(y)@, n as nat));
    }
}

} // verus!
