//! The batching engine: a batch of products `A·Bᵗ` or `A·B` on flat buffers.
//!
//! Batch item `i` of an operand starts `i * skip` elements into its buffer.
//! One output row is one unit of work: it reads a row of `A` and the item's
//! `B`, and writes `n` consecutive elements of `C` that no other unit
//! touches.
use crate::kernel::{dot_value, mad_value, vec_dot_f32, vec_mad_f32};
use crate::scalar::{fma, Scalar};
use crate::simd::{UNROLL, WIDTH};
use vstd::prelude::*;

verus! {

/// Each of the `batching` items, `rows * cols` elements from `item * skip`
/// on, lies inside a buffer of `len` elements.
pub open spec fn items_fit(len: nat, skip: nat, rows: nat, cols: nat, batching: nat) -> bool {
    batching == 0 || (batching - 1) * skip + rows * cols <= len
}

/// No two of the `batching` items share an element.
pub open spec fn items_apart(skip: nat, rows: nat, cols: nat, batching: nat) -> bool {
    batching <= 1 || rows * cols <= skip
}

/// Where row `r` of batch item `item` starts in a buffer whose rows have
/// `cols` elements.
pub open spec fn row_start(item: int, r: int, skip: int, cols: int) -> int {
    item * skip + r * cols
}

/// Where element `(r, c)` of batch item `item` lies in the output buffer.
pub open spec fn out_index(item: int, r: int, c: int, c_skip: int, n: int) -> int {
    row_start(item, r, c_skip, n) + c
}

/// Index `i` lies in the output block of batch item `item`.
pub open spec fn in_item(i: int, item: int, c_skip: int, m: int, n: int) -> bool {
    item * c_skip <= i < item * c_skip + m * n
}

/// Index `i` is an output element of one of the first `batching` items.
pub open spec fn is_output(i: int, c_skip: int, m: int, n: int, batching: int) -> bool {
    exists|item: int| 0 <= item < batching && #[trigger] in_item(i, item, c_skip, m, n)
}

/// Row `r` of batch item `item`: `cols` elements.
pub open spec fn row_of<T>(buf: Seq<T>, item: int, r: int, skip: int, cols: int) -> Seq<T> {
    buf.subrange(row_start(item, r, skip, cols), row_start(item, r, skip, cols) + cols)
}

/// Element `j` of an output row of `A·B` after the first `count` rows of `B`
/// (each of `n` elements) were accumulated into it: starting from zero,
/// `b[i * n + j] * a_row[i]` is added for `i = 0, 1, ..`.
pub open spec fn column_value<T: Scalar>(a_row: Seq<T>, b: Seq<T>, n: int, j: int, count: nat) -> T
    decreases count,
{
    if count == 0 {
        T::zero_value()
    } else {
        fma(
            column_value(a_row, b, n, j, (count - 1) as nat),
            b[(count - 1) * n + j],
            a_row[count - 1],
        )
    }
}

/// Element `(r, c)` of `A·Bᵗ` for batch item `item`: the dot product of row
/// `r` of `A` and row `c` of `B`, both of `k` elements.
pub open spec fn product_t<T: Scalar>(
    a: Seq<T>,
    a_skip: int,
    b: Seq<T>,
    b_skip: int,
    k: nat,
    item: int,
    r: int,
    c: int,
) -> T {
    dot_value(
        row_of(a, item, r, a_skip, k as int),
        row_of(b, item, c, b_skip, k as int),
        k,
        WIDTH as nat,
        UNROLL as nat,
    )
}

/// Element `(r, c)` of `A·B` for batch item `item`: row `r` of `A` (`k`
/// elements) against column `c` of the item's `B` (`k` rows of `n`).
pub open spec fn product<T: Scalar>(
    a: Seq<T>,
    a_skip: int,
    b: Seq<T>,
    b_skip: int,
    n: nat,
    k: nat,
    item: int,
    r: int,
    c: int,
) -> T {
    column_value(
        row_of(a, item, r, a_skip, k as int),
        b.subrange(item * b_skip, item * b_skip + k * n),
        n as int,
        c,
        k,
    )
}

/// A buffer of at least `skip * batching` elements whose items are at least
/// `rows * cols` elements apart holds every item, and no two of them overlap.
pub proof fn lemma_spaced_items_fit(len: nat, skip: nat, rows: nat, cols: nat, batching: nat)
    by (nonlinear_arith)
    requires
        skip * batching <= len,
        rows * cols <= skip,
    ensures
        items_fit(len, skip, rows, cols, batching),
        items_apart(skip, rows, cols, batching),
{
    if batching > 0 {
        assert((batching - 1) * skip + skip == skip * batching);
    }
}

/// Batch item `item` lies inside the buffer.
pub proof fn lemma_item_fits(len: nat, skip: nat, rows: nat, cols: nat, batching: nat, item: int)
    by (nonlinear_arith)
    requires
        items_fit(len, skip, rows, cols, batching),
        0 <= item < batching,
    ensures
        0 <= item * skip,
        0 <= rows * cols,
        item * skip + rows * cols <= len,
{
    assert(item * skip <= (batching - 1) * skip);
}

/// Row `r` of batch item `item` lies inside the item, and so inside the
/// buffer.
pub proof fn lemma_row_fits(
    len: nat,
    skip: nat,
    rows: nat,
    cols: nat,
    batching: nat,
    item: int,
    r: int,
)
    by (nonlinear_arith)
    requires
        items_fit(len, skip, rows, cols, batching),
        0 <= item < batching,
        0 <= r < rows,
    ensures
        0 <= item * skip,
        0 <= r * cols,
        r * cols + cols <= rows * cols,
        item * skip + rows * cols <= len,
        0 <= row_start(item, r, skip as int, cols as int),
        row_start(item, r, skip as int, cols as int) + cols <= len,
{
    assert(item * skip <= (batching - 1) * skip);
    assert((r + 1) * cols <= rows * cols);
}

/// One output row of `A·Bᵗ`: `c_row[c]` becomes the dot product of `a_row`
/// and row `c` of `b`, for each `c` below `n`. What those elements held
/// before is overwritten; the rest of `c_row` is left as it was.
pub fn gemm_row_t<T: Scalar>(a_row: &[T], b: &[T], c_row: &mut [T], n: usize, k: usize)
    requires
        k <= a_row.len(),
        n * k <= b.len(),
        n <= old(c_row).len(),
    ensures
        final(c_row)@.len() == old(c_row)@.len(),
        forall|c: int|
            0 <= c < n ==> final(c_row)@[c] == dot_value(
                a_row@,
                #[trigger] b@.subrange(c * k, c * k + k),
                k as nat,
                WIDTH as nat,
                UNROLL as nat,
            ),
        forall|c: int| n <= c < old(c_row)@.len() ==> final(c_row)@[c] == old(c_row)@[c],
{
    let mut c: usize = 0;
    while c < n
        invariant
            c <= n,
            k <= a_row.len(),
            n * k <= b.len(),
            n <= c_row.len(),
            c_row@.len() == old(c_row)@.len(),
            forall|q: int|
                0 <= q < c ==> c_row@[q] == dot_value(
                    a_row@,
                    #[trigger] b@.subrange(q * k, q * k + k),
                    k as nat,
                    WIDTH as nat,
                    UNROLL as nat,
                ),
            forall|q: int| c <= q < c_row@.len() ==> c_row@[q] == old(c_row)@[q],
        decreases n - c,
    {
        proof {
            lemma_row_fits(b@.len(), 0, n as nat, k as nat, 1, 0, c as int);
        }
        let b_row = &b[c * k..c * k + k];
        let mut s: T = T::zero();
        vec_dot_f32(a_row, b_row, &mut s, k);
        c_row[c] = s;
        c += 1;
    }
}

/// One output row of `A·B`: the first `n` elements of `c_row` are set to
/// zero, then row `i` of `b`, scaled by `a_row[i]`, is added to them for
/// `i = 0, 1, .., k - 1`. The rest of `c_row` is left as it was.
pub fn gemm_row<T: Scalar>(a_row: &[T], b: &[T], c_row: &mut [T], n: usize, k: usize)
    requires
        k <= a_row.len(),
        k * n <= b.len(),
        n <= old(c_row).len(),
    ensures
        final(c_row)@.len() == old(c_row)@.len(),
        forall|c: int|
            0 <= c < n ==> final(c_row)@[c] == column_value(a_row@, b@, n as int, c, k as nat),
        forall|c: int| n <= c < old(c_row)@.len() ==> final(c_row)@[c] == old(c_row)@[c],
{
    let mut c: usize = 0;
    while c < n
        invariant
            c <= n,
            n <= c_row.len(),
            c_row@.len() == old(c_row)@.len(),
            forall|q: int| 0 <= q < c ==> c_row@[q] == T::zero_value(),
            forall|q: int| c <= q < c_row@.len() ==> c_row@[q] == old(c_row)@[q],
        decreases n - c,
    {
        c_row[c] = T::zero();
        c += 1;
    }
    let mut i: usize = 0;
    while i < k
        invariant
            i <= k,
            k <= a_row.len(),
            k * n <= b.len(),
            n <= c_row.len(),
            c_row@.len() == old(c_row)@.len(),
            forall|q: int|
                0 <= q < n ==> c_row@[q] == column_value(a_row@, b@, n as int, q, i as nat),
            forall|q: int| n <= q < c_row@.len() ==> c_row@[q] == old(c_row)@[q],
        decreases k - i,
    {
        proof {
            lemma_row_fits(b@.len(), 0, k as nat, n as nat, 1, 0, i as int);
        }
        let b_row = &b[i * n..i * n + n];
        let ghost before = c_row@;
        vec_mad_f32(b_row, c_row, a_row[i], n);
        proof {
            assert forall|q: int| 0 <= q < n implies c_row@[q] == column_value(
                a_row@,
                b@,
                n as int,
                q,
                (i + 1) as nat,
            ) by {
                assert(c_row@[q] == mad_value(b_row@, before, a_row@[i as int], n as nat)[q]);
                assert(b_row@[q] == b@[i * n + q]);
            }
        }
        i += 1;
    }
}

/// Whether each of `batching` items of `rows * cols` elements, `skip`
/// elements apart, lies inside a buffer of `len` elements.
pub fn fits(len: usize, skip: usize, rows: usize, cols: usize, batching: usize) -> (ok: bool)
    ensures
        ok == items_fit(len as nat, skip as nat, rows as nat, cols as nat, batching as nat),
{
    if batching == 0 {
        return true;
    }
    proof {
        assert(0 <= (batching - 1) * skip && 0 <= rows * cols) by (nonlinear_arith)
            requires
                batching >= 1,
        ;
    }
    let size = match rows.checked_mul(cols) {
        Some(size) => size,
        None => {
            return false;
        },
    };
    let last = match (batching - 1).checked_mul(skip) {
        Some(last) => last,
        None => {
            return false;
        },
    };
    match last.checked_add(size) {
        Some(end) => end <= len,
        None => false,
    }
}

/// Whether `batching` items of `rows * cols` elements, `skip` elements
/// apart, share no element.
pub fn apart(skip: usize, rows: usize, cols: usize, batching: usize) -> (ok: bool)
    ensures
        ok == items_apart(skip as nat, rows as nat, cols as nat, batching as nat),
{
    if batching <= 1 {
        return true;
    }
    proof {
        assert(0 <= rows * cols) by (nonlinear_arith);
    }
    match rows.checked_mul(cols) {
        Some(size) => size <= skip,
        None => false,
    }
}

/// Element `(r, c)` of batch item `item` of the product: `A·Bᵗ` where
/// `transposed`, `A·B` where not.
pub open spec fn element<T: Scalar>(
    transposed: bool,
    a: Seq<T>,
    a_skip: int,
    b: Seq<T>,
    b_skip: int,
    n: nat,
    k: nat,
    item: int,
    r: int,
    c: int,
) -> T {
    if transposed {
        product_t(a, a_skip, b, b_skip, k, item, r, c)
    } else {
        product(a, a_skip, b, b_skip, n, k, item, r, c)
    }
}

/// The output rows of two different units of work share no element: the
/// rows of one item follow one another, and the items lie apart.
pub proof fn lemma_rows_apart(
    c_skip: nat,
    m: nat,
    n: nat,
    batching: nat,
    item1: int,
    r1: int,
    item2: int,
    r2: int,
)
    by (nonlinear_arith)
    requires
        items_apart(c_skip, m, n, batching),
        0 <= item1 < batching,
        0 <= item2 < batching,
        0 <= r1 < m,
        0 <= r2 < m,
        item1 < item2 || (item1 == item2 && r1 < r2),
    ensures
        row_start(item1, r1, c_skip as int, n as int) + n <= row_start(
            item2,
            r2,
            c_skip as int,
            n as int,
        ),
{
    if item1 < item2 {
        assert(r1 * n + n <= m * n);
        assert(m * n <= c_skip);
        assert((item1 + 1) * c_skip <= item2 * c_skip);
        assert(0 <= r2 * n);
    } else {
        assert((r1 + 1) * n <= r2 * n);
    }
}

/// An item of a batch comes out as if it had been multiplied alone: element
/// `(r, c)` of item `item` of a call on `batching` items is element `(r, c)`
/// of the only item of a call on the buffers from that item on, and it lies
/// `item * c_skip` elements further into the output.
pub proof fn lemma_batching_independence<T: Scalar>(
    transposed: bool,
    a: Seq<T>,
    a_skip: nat,
    b: Seq<T>,
    b_skip: nat,
    c_skip: nat,
    m: nat,
    n: nat,
    k: nat,
    batching: nat,
    item: int,
    r: int,
    c: int,
)
    requires
        items_fit(a.len(), a_skip, m, k, batching),
        items_fit(b.len(), b_skip, n, k, batching),
        0 <= item < batching,
        0 <= r < m,
        0 <= c < n,
    ensures
        items_fit(a.skip(item * a_skip).len(), a_skip, m, k, 1),
        items_fit(b.skip(item * b_skip).len(), b_skip, n, k, 1),
        element(transposed, a, a_skip as int, b, b_skip as int, n, k, item, r, c) == element(
            transposed,
            a.skip(item * a_skip),
            a_skip as int,
            b.skip(item * b_skip),
            b_skip as int,
            n,
            k,
            0,
            r,
            c,
        ),
        out_index(item, r, c, c_skip as int, n as int) == item * c_skip + out_index(
            0,
            r,
            c,
            c_skip as int,
            n as int,
        ),
{
    lemma_row_fits(a.len(), a_skip, m, k, batching, item, r);
    lemma_row_fits(b.len(), b_skip, n, k, batching, item, c);
    lemma_item_fits(b.len(), b_skip, n, k, batching, item);
    let a1 = a.skip(item * a_skip);
    let b1 = b.skip(item * b_skip);
    assert(0 * a_skip == 0 && 0 * b_skip == 0 && 0 * c_skip == 0) by (nonlinear_arith);
    assert(n * k == k * n) by (nonlinear_arith);
    assert(row_of(a1, 0, r, a_skip as int, k as int) =~= row_of(
        a,
        item,
        r,
        a_skip as int,
        k as int,
    ));
    if transposed {
        assert(row_of(b1, 0, c, b_skip as int, k as int) =~= row_of(
            b,
            item,
            c,
            b_skip as int,
            k as int,
        ));
    } else {
        assert(b1.subrange(0 * (b_skip as int), 0 * (b_skip as int) + k * n) =~= b.subrange(
            item * b_skip,
            item * b_skip + k * n,
        ));
    }
}

/// The mutable row `buf[at .. at + n]`; what is written to it ends up in
/// `buf`, between the elements before and after it.
fn row_mut<T>(buf: &mut [T], at: usize, n: usize) -> (row: &mut [T])
    requires
        at + n <= old(buf).len(),
    ensures
        row@ == old(buf)@.subrange(at as int, at + n),
        final(buf)@ == old(buf)@.subrange(0, at as int) + final(row)@ + old(buf)@.subrange(
            at + n,
            old(buf)@.len() as int,
        ),
{
    let (_head, rest) = buf.split_at_mut(at);
    let (row, _tail) = rest.split_at_mut(n);
    row
}

/// The engine behind both entry points. Items are taken in order, and the
/// rows of an item in order; each row is one call of the row kernel on its
/// own slice of the output.
fn batched<T: Scalar, const TRANSPOSED: bool>(
    ap: &[T],
    a_skip: usize,
    bp: &[T],
    b_skip: usize,
    cp: &mut [T],
    c_skip: usize,
    m: usize,
    n: usize,
    k: usize,
    batching: usize,
)
    requires
        items_fit(ap.len() as nat, a_skip as nat, m as nat, k as nat, batching as nat),
        items_fit(bp.len() as nat, b_skip as nat, n as nat, k as nat, batching as nat),
        items_fit(old(cp).len() as nat, c_skip as nat, m as nat, n as nat, batching as nat),
        items_apart(c_skip as nat, m as nat, n as nat, batching as nat),
    ensures
        final(cp)@.len() == old(cp)@.len(),
        forall|item: int, r: int, c: int|
            #![trigger out_index(item, r, c, c_skip as int, n as int)]
            0 <= item < batching && 0 <= r < m && 0 <= c < n ==> final(cp)@[out_index(
                item,
                r,
                c,
                c_skip as int,
                n as int,
            )] == element(
                TRANSPOSED,
                ap@,
                a_skip as int,
                bp@,
                b_skip as int,
                n as nat,
                k as nat,
                item,
                r,
                c,
            ),
        forall|i: int|
            0 <= i < old(cp)@.len() && !is_output(
                i,
                c_skip as int,
                m as int,
                n as int,
                batching as int,
            ) ==> final(cp)@[i] == old(cp)@[i],
{
    let mut item: usize = 0;
    while item < batching
        invariant
            item <= batching,
            items_fit(ap.len() as nat, a_skip as nat, m as nat, k as nat, batching as nat),
            items_fit(bp.len() as nat, b_skip as nat, n as nat, k as nat, batching as nat),
            items_fit(cp.len() as nat, c_skip as nat, m as nat, n as nat, batching as nat),
            items_apart(c_skip as nat, m as nat, n as nat, batching as nat),
            cp@.len() == old(cp)@.len(),
            forall|it: int, rr: int, c: int|
                #![trigger out_index(it, rr, c, c_skip as int, n as int)]
                0 <= it < item && 0 <= rr < m && 0 <= c < n ==> cp@[out_index(
                    it,
                    rr,
                    c,
                    c_skip as int,
                    n as int,
                )] == element(
                    TRANSPOSED,
                    ap@,
                    a_skip as int,
                    bp@,
                    b_skip as int,
                    n as nat,
                    k as nat,
                    it,
                    rr,
                    c,
                ),
            forall|i: int|
                0 <= i < cp@.len() && !is_output(i, c_skip as int, m as int, n as int, item as int)
                    ==> cp@[i] == old(cp)@[i],
        decreases batching - item,
    {
        let mut r: usize = 0;
        while r < m
            invariant
                r <= m,
                item < batching,
                items_fit(ap.len() as nat, a_skip as nat, m as nat, k as nat, batching as nat),
                items_fit(bp.len() as nat, b_skip as nat, n as nat, k as nat, batching as nat),
                items_fit(cp.len() as nat, c_skip as nat, m as nat, n as nat, batching as nat),
                items_apart(c_skip as nat, m as nat, n as nat, batching as nat),
                cp@.len() == old(cp)@.len(),
                forall|it: int, rr: int, c: int|
                    #![trigger out_index(it, rr, c, c_skip as int, n as int)]
                    0 <= it < item && 0 <= rr < m && 0 <= c < n ==> cp@[out_index(
                        it,
                        rr,
                        c,
                        c_skip as int,
                        n as int,
                    )] == element(
                        TRANSPOSED,
                        ap@,
                        a_skip as int,
                        bp@,
                        b_skip as int,
                        n as nat,
                        k as nat,
                        it,
                        rr,
                        c,
                    ),
                forall|rr: int, c: int|
                    #![trigger out_index(item as int, rr, c, c_skip as int, n as int)]
                    0 <= rr < r && 0 <= c < n ==> cp@[out_index(
                        item as int,
                        rr,
                        c,
                        c_skip as int,
                        n as int,
                    )] == element(
                        TRANSPOSED,
                        ap@,
                        a_skip as int,
                        bp@,
                        b_skip as int,
                        n as nat,
                        k as nat,
                        item as int,
                        rr,
                        c,
                    ),
                forall|i: int|
                    0 <= i < cp@.len() && !is_output(
                        i,
                        c_skip as int,
                        m as int,
                        n as int,
                        item as int,
                    ) && !in_item(i, item as int, c_skip as int, r as int, n as int) ==> cp@[i]
                        == old(cp)@[i],
            decreases m - r,
        {
            proof {
                lemma_row_fits(
                    ap@.len(),
                    a_skip as nat,
                    m as nat,
                    k as nat,
                    batching as nat,
                    item as int,
                    r as int,
                );
                lemma_item_fits(
                    bp@.len(),
                    b_skip as nat,
                    n as nat,
                    k as nat,
                    batching as nat,
                    item as int,
                );
                lemma_row_fits(
                    cp@.len(),
                    c_skip as nat,
                    m as nat,
                    n as nat,
                    batching as nat,
                    item as int,
                    r as int,
                );
                assert(n * k == k * n) by (nonlinear_arith);
            }
            let offsets = row_offsets(item, r, a_skip, b_skip, c_skip, n, k);
            let a_row = &ap[offsets.0..offsets.0 + k];
            let b_item = &bp[offsets.1..offsets.1 + n * k];
            let ghost before = cp@;
            let c_at: usize = offsets.2;
            let c_row = row_mut(cp, c_at, n);
            if TRANSPOSED {
                gemm_row_t(a_row, b_item, c_row, n, k);
            } else {
                gemm_row(a_row, b_item, c_row, n, k);
            }
            proof {
                let cs = c_skip as int;
                let ni = n as int;
                assert(c_at == row_start(item as int, r as int, cs, ni));
                assert forall|i: int| 0 <= i < cp@.len() implies cp@[i] == if c_at <= i < c_at + n {
                    c_row@[i - c_at]
                } else {
                    before[i]
                } by {}
                let row = r as int;
                assert forall|c: int| 0 <= c < n implies cp@[out_index(item as int, row, c, cs, ni)]
                    == element(
                    TRANSPOSED,
                    ap@,
                    a_skip as int,
                    bp@,
                    b_skip as int,
                    n as nat,
                    k as nat,
                    item as int,
                    r as int,
                    c,
                ) by {
                    assert(cp@[c_at + c] == c_row@[c]);
                    if TRANSPOSED {
                        lemma_row_fits(
                            (n * k) as nat,
                            0,
                            n as nat,
                            k as nat,
                            1,
                            0,
                            c,
                        );
                        assert(b_item@.subrange(c * k, c * k + k) =~= row_of(
                            bp@,
                            item as int,
                            c,
                            b_skip as int,
                            k as int,
                        ));
                    }
                }
                assert forall|it: int, rr: int, c: int|
                    0 <= it < item && 0 <= rr < m && 0 <= c < n implies cp@[out_index(
                    it,
                    rr,
                    c,
                    cs,
                    ni,
                )] == before[out_index(it, rr, c, cs, ni)] by {
                    lemma_rows_apart(
                        c_skip as nat,
                        m as nat,
                        n as nat,
                        batching as nat,
                        it,
                        rr,
                        item as int,
                        r as int,
                    );
                    lemma_row_fits(
                        cp@.len(),
                        c_skip as nat,
                        m as nat,
                        n as nat,
                        batching as nat,
                        it,
                        rr,
                    );
                }
                assert forall|rr: int, c: int| 0 <= rr < r && 0 <= c < n implies cp@[out_index(
                    item as int,
                    rr,
                    c,
                    cs,
                    ni,
                )] == before[out_index(item as int, rr, c, cs, ni)] by {
                    lemma_rows_apart(
                        c_skip as nat,
                        m as nat,
                        n as nat,
                        batching as nat,
                        item as int,
                        rr,
                        item as int,
                        r as int,
                    );
                    lemma_row_fits(
                        cp@.len(),
                        c_skip as nat,
                        m as nat,
                        n as nat,
                        batching as nat,
                        item as int,
                        rr,
                    );
                }
                assert((r + 1) * n == r * n + n) by (nonlinear_arith);
            }
            r += 1;
        }
        proof {
            assert forall|i: int|
                0 <= i < cp@.len() && !is_output(
                    i,
                    c_skip as int,
                    m as int,
                    n as int,
                    item + 1,
                ) implies cp@[i] == old(cp)@[i] by {
                assert(!in_item(i, item as int, c_skip as int, m as int, n as int));
                assert(!is_output(i, c_skip as int, m as int, n as int, item as int));
            }
        }
        item += 1;
    }
}

/// Where the unit of work for row `r` of batch item `item` reads and
/// writes: the start of its row of `A`, of the item's `B`, and of its row of
/// `C`.
pub fn row_offsets(
    item: usize,
    r: usize,
    a_skip: usize,
    b_skip: usize,
    c_skip: usize,
    n: usize,
    k: usize,
) -> (at: (usize, usize, usize))
    requires
        row_start(item as int, r as int, a_skip as int, k as int) <= usize::MAX,
        item * b_skip <= usize::MAX,
        row_start(item as int, r as int, c_skip as int, n as int) <= usize::MAX,
    ensures
        at.0 == row_start(item as int, r as int, a_skip as int, k as int),
        at.1 == item * b_skip,
        at.2 == row_start(item as int, r as int, c_skip as int, n as int),
{
    proof {
        assert(0 <= item * a_skip && 0 <= r * k && 0 <= item * c_skip && 0 <= r * n)
            by (nonlinear_arith);
    }
    (item * a_skip + r * k, item * b_skip, item * c_skip + r * n)
}

/// `A·Bᵗ` for each batch item: `A` is `m × k`, `B` is stored as `n × k`
/// (one row per output column), `C` is `m × n`. Every output element is
/// overwritten with the dot product of its row of `A` and its row of `B`;
/// the elements of `cp` outside the items' output blocks are left as they
/// were.
pub fn batched_sgemm_t<T: Scalar>(
    ap: &[T],
    a_skip: usize,
    bp: &[T],
    b_skip: usize,
    cp: &mut [T],
    c_skip: usize,
    m: usize,
    n: usize,
    k: usize,
    batching: usize,
)
    requires
        items_fit(ap.len() as nat, a_skip as nat, m as nat, k as nat, batching as nat),
        items_fit(bp.len() as nat, b_skip as nat, n as nat, k as nat, batching as nat),
        items_fit(old(cp).len() as nat, c_skip as nat, m as nat, n as nat, batching as nat),
        items_apart(c_skip as nat, m as nat, n as nat, batching as nat),
    ensures
        final(cp)@.len() == old(cp)@.len(),
        forall|item: int, r: int, c: int|
            #![trigger out_index(item, r, c, c_skip as int, n as int)]
            0 <= item < batching && 0 <= r < m && 0 <= c < n ==> final(cp)@[out_index(
                item,
                r,
                c,
                c_skip as int,
                n as int,
            )] == product_t(ap@, a_skip as int, bp@, b_skip as int, k as nat, item, r, c),
        forall|i: int|
            0 <= i < old(cp)@.len() && !is_output(
                i,
                c_skip as int,
                m as int,
                n as int,
                batching as int,
            ) ==> final(cp)@[i] == old(cp)@[i],
{
    batched::<T, true>(ap, a_skip, bp, b_skip, cp, c_skip, m, n, k, batching);
}

/// `A·B` for each batch item: `A` is `m × k`, `B` is `k × n`, `C` is
/// `m × n`. Every output row is set to zero and the scaled rows of `B` are
/// then accumulated into it, so what the output elements held before does
/// not enter the result; the elements of `cp` outside the items' output
/// blocks are left as they were.
pub fn batched_sgemm<T: Scalar>(
    ap: &[T],
    a_skip: usize,
    bp: &[T],
    b_skip: usize,
    cp: &mut [T],
    c_skip: usize,
    m: usize,
    n: usize,
    k: usize,
    batching: usize,
)
    requires
        items_fit(ap.len() as nat, a_skip as nat, m as nat, k as nat, batching as nat),
        items_fit(bp.len() as nat, b_skip as nat, k as nat, n as nat, batching as nat),
        items_fit(old(cp).len() as nat, c_skip as nat, m as nat, n as nat, batching as nat),
        items_apart(c_skip as nat, m as nat, n as nat, batching as nat),
    ensures
        final(cp)@.len() == old(cp)@.len(),
        forall|item: int, r: int, c: int|
            #![trigger out_index(item, r, c, c_skip as int, n as int)]
            0 <= item < batching && 0 <= r < m && 0 <= c < n ==> final(cp)@[out_index(
                item,
                r,
                c,
                c_skip as int,
                n as int,
            )] == product(ap@, a_skip as int, bp@, b_skip as int, n as nat, k as nat, item, r, c),
        forall|i: int|
            0 <= i < old(cp)@.len() && !is_output(
                i,
                c_skip as int,
                m as int,
                n as int,
                batching as int,
            ) ==> final(cp)@[i] == old(cp)@[i],
{
    proof {
        assert(k * n == n * k) by (nonlinear_arith);
    }
    batched::<T, false>(ap, a_skip, bp, b_skip, cp, c_skip, m, n, k, batching);
}

} // verus!
