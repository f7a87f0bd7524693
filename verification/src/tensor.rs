//! Tensors with a shape, and the shape checks in front of the engine.
//!
//! A tensor of rank `d >= 2` is a batch of matrices: its last two sizes are
//! the rows and columns of one matrix, the sizes before them count the
//! matrices.
use crate::gemm::{
    batched_sgemm, batched_sgemm_t, element, is_output, items_apart, items_fit, out_index,
};
use crate::scalar::Scalar;
use vstd::prelude::*;
use vstd::slice::slice_subrange;

verus! {

/// Why a product was refused.
#[derive(Debug)]
pub enum Error {
    /// The shapes do not fit one another, or a tensor holds fewer elements
    /// than its shape asks for.
    Dim,
}

/// A shape and the elements, row-major, batch item after batch item.
pub struct Tensor<T> {
    pub shape: Vec<usize>,
    pub data: Vec<T>,
}

impl<T> Tensor<T> {
    pub fn shape(&self) -> (s: &[usize])
        ensures
            s@ == self.shape@,
    {
        self.shape.as_slice()
    }

    pub fn data(&self) -> (d: &[T])
        ensures
            d@ == self.data@,
    {
        self.data.as_slice()
    }

    pub fn data_mut(&mut self) -> (d: &mut [T])
        ensures
            d@ == old(self).data@,
            final(self).data@ == final(d)@,
            final(self).shape == old(self).shape,
    {
        self.data.as_mut_slice()
    }
}

/// The number of elements of a shape: the product of its sizes.
pub open spec fn volume(shape: Seq<usize>) -> nat
    decreases shape.len(),
{
    if shape.len() == 0 {
        1
    } else {
        volume(shape.drop_last()) * (shape.last() as nat)
    }
}

/// Rows of one matrix of a shape of rank two or more.
pub open spec fn rows(shape: Seq<usize>) -> nat {
    shape[shape.len() - 2] as nat
}

/// Columns of one matrix of a shape of rank two or more.
pub open spec fn cols(shape: Seq<usize>) -> nat {
    shape[shape.len() - 1] as nat
}

/// The number of matrices of a shape of rank two or more.
pub open spec fn batch(shape: Seq<usize>) -> nat {
    volume(shape.take(shape.len() - 2))
}

/// Columns of the product: the rows of `b` where `b` is stored transposed,
/// its columns where not.
pub open spec fn out_cols(transpose: bool, b: Seq<usize>) -> nat {
    if transpose {
        rows(b)
    } else {
        cols(b)
    }
}

/// The shapes of `a`, `b` and `c` fit the product `c = a·b` (or `a·bᵗ`):
/// all three have the same rank, at least two, and the same sizes in front
/// of the last two; the contraction size of `b` is the columns of `a`; and
/// `c` has the rows of `a` and the columns of the product.
pub open spec fn compatible(transpose: bool, a: Seq<usize>, b: Seq<usize>, c: Seq<usize>) -> bool {
    let dim = a.len();
    &&& dim >= 2
    &&& b.len() == dim
    &&& c.len() == dim
    &&& forall|i: int| 0 <= i < dim - 2 ==> b[i] == a[i] && c[i] == a[i]
    &&& (if transpose {
        cols(b)
    } else {
        rows(b)
    }) == cols(a)
    &&& rows(c) == rows(a)
    &&& cols(c) == out_cols(transpose, b)
}

/// A buffer of `len` elements holds a tensor of this shape.
pub open spec fn holds(shape: Seq<usize>, len: nat) -> bool {
    volume(shape) <= len
}

/// The inputs on which a product is computed: the shapes fit one another,
/// and each buffer holds its shape.
pub open spec fn accepted(
    transpose: bool,
    a: Seq<usize>,
    a_len: nat,
    b: Seq<usize>,
    b_len: nat,
    c: Seq<usize>,
    c_len: nat,
) -> bool {
    &&& compatible(transpose, a, b, c)
    &&& holds(a, a_len)
    &&& holds(b, b_len)
    &&& holds(c, c_len)
}

proof fn lemma_volume_step(shape: Seq<usize>, i: int)
    requires
        0 <= i < shape.len(),
    ensures
        volume(shape.take(i + 1)) == volume(shape.take(i)) * (shape[i] as nat),
{
    assert(shape.take(i + 1).drop_last() =~= shape.take(i));
}

proof fn lemma_volume_zero(shape: Seq<usize>, i: int)
    requires
        0 <= i < shape.len(),
        shape[i] == 0,
    ensures
        volume(shape) == 0,
    decreases shape.len(),
{
    if i == shape.len() - 1 {
        assert(volume(shape.drop_last()) * 0 == 0) by (nonlinear_arith);
    } else {
        lemma_volume_zero(shape.drop_last(), i);
        assert(0 * (shape.last() as nat) == 0) by (nonlinear_arith);
    }
}

proof fn lemma_volume_grows(shape: Seq<usize>, i: int)
    requires
        0 <= i <= shape.len(),
        forall|j: int| 0 <= j < shape.len() ==> shape[j] >= 1,
    ensures
        1 <= volume(shape.take(i)) <= volume(shape),
    decreases shape.len() - i,
{
    if i == shape.len() {
        assert(shape.take(i) =~= shape);
        lemma_volume_positive(shape);
    } else {
        lemma_volume_grows(shape, i + 1);
        lemma_volume_step(shape, i);
        lemma_volume_positive(shape.take(i));
        let v = volume(shape.take(i));
        let d = shape[i] as nat;
        assert(v <= v * d) by (nonlinear_arith)
            requires
                d >= 1,
        ;
    }
}

proof fn lemma_volume_positive(shape: Seq<usize>)
    requires
        forall|j: int| 0 <= j < shape.len() ==> shape[j] >= 1,
    ensures
        volume(shape) >= 1,
    decreases shape.len(),
{
    if shape.len() > 0 {
        lemma_volume_positive(shape.drop_last());
        let v = volume(shape.drop_last());
        let d = shape.last() as nat;
        assert(v * d >= 1) by (nonlinear_arith)
            requires
                v >= 1,
                d >= 1,
        ;
    }
}

/// A shape of rank two or more holds `batch * rows * cols` elements.
pub proof fn lemma_volume_split(shape: Seq<usize>)
    requires
        shape.len() >= 2,
    ensures
        volume(shape) == batch(shape) * rows(shape) * cols(shape),
{
    let inner = shape.drop_last();
    assert(inner.drop_last() =~= shape.take(shape.len() - 2));
    assert(inner.last() == shape[shape.len() - 2]);
    assert(volume(inner) == volume(inner.drop_last()) * (inner.last() as nat));
    assert(volume(shape) == volume(inner) * (shape.last() as nat));
}

/// The number of elements of `shape`, where it fits the machine word.
pub fn checked_volume(shape: &[usize]) -> (v: Option<usize>)
    ensures
        match v {
            Some(x) => x == volume(shape@),
            None => volume(shape@) > usize::MAX,
        },
{
    let mut i: usize = 0;
    while i < shape.len()
        invariant
            i <= shape.len(),
            forall|j: int| 0 <= j < i ==> shape@[j] >= 1,
        decreases shape.len() - i,
    {
        if shape[i] == 0 {
            proof {
                lemma_volume_zero(shape@, i as int);
            }
            return Some(0);
        }
        i += 1;
    }
    let mut acc: usize = 1;
    let mut i: usize = 0;
    assert(shape@.take(0) =~= Seq::<usize>::empty());
    while i < shape.len()
        invariant
            i <= shape.len(),
            forall|j: int| 0 <= j < shape.len() ==> shape@[j] >= 1,
            acc == volume(shape@.take(i as int)),
        decreases shape.len() - i,
    {
        proof {
            lemma_volume_step(shape@, i as int);
            lemma_volume_grows(shape@, i + 1);
        }
        match acc.checked_mul(shape[i]) {
            Some(x) => {
                acc = x;
            },
            None => {
                return None;
            },
        }
        i += 1;
    }
    proof {
        assert(shape@.take(shape.len() as int) =~= shape@);
    }
    Some(acc)
}

/// With one matrix after the other, the items of a tensor that holds its
/// shape fit its buffer, and the buffer's first `volume` elements are the
/// items.
proof fn lemma_packed_items(len: nat, batching: nat, rows: nat, cols: nat)
    by (nonlinear_arith)
    requires
        batching * rows * cols <= len,
        batching >= 1,
    ensures
        rows * cols <= len,
        items_fit(len, rows * cols, rows, cols, batching),
        items_fit(len, rows * cols, cols, rows, batching),
        items_fit(len, cols * rows, rows, cols, batching),
        items_apart(rows * cols, rows, cols, batching),
        rows * cols == cols * rows,
{
    assert((batching - 1) * (rows * cols) + rows * cols == batching * rows * cols);
}

proof fn lemma_packed_output(i: int, item: int, batching: nat, m: nat, n: nat)
    by (nonlinear_arith)
    requires
        0 <= item < batching,
        item * (m * n) <= i < item * (m * n) + m * n,
    ensures
        i < batching * m * n,
{
    assert((item + 1) * (m * n) <= batching * (m * n));
}

proof fn lemma_batch_fits(batching: nat, m: nat, n: nat, len: nat)
    by (nonlinear_arith)
    requires
        batching * m * n <= len,
        m >= 1,
        n >= 1,
    ensures
        batching <= len,
{
}

/// The sizes of one call of the engine: `batching` products of an `m × k`
/// matrix and a matrix with `k` as its contraction size, each `m × n`.
#[derive(Clone, Copy, Debug)]
pub struct GemmShape {
    pub m: usize,
    pub n: usize,
    pub k: usize,
    pub batching: usize,
}

/// The number of products there are to compute: the matrices of `a`, or
/// none where a product has no element.
pub open spec fn work_items(transpose: bool, a: Seq<usize>, b: Seq<usize>) -> nat {
    if rows(a) == 0 || out_cols(transpose, b) == 0 {
        0
    } else {
        batch(a)
    }
}

/// Checks the shapes of three tensors against one another and against the
/// lengths of their buffers, and reads the sizes of the product off them.
/// They are refused with `Error::Dim` unless the shapes are `compatible` and
/// each buffer `holds` its shape.
pub fn gemm_shape<const TRANSPOSE: bool>(
    a: &[usize],
    a_len: usize,
    b: &[usize],
    b_len: usize,
    c: &[usize],
    c_len: usize,
) -> (res: Result<GemmShape, Error>)
    ensures
        res is Ok <==> accepted(TRANSPOSE, a@, a_len as nat, b@, b_len as nat, c@, c_len as nat),
        res matches Ok(shape) ==> {
            &&& shape.m == rows(a@)
            &&& shape.k == cols(a@)
            &&& shape.n == out_cols(TRANSPOSE, b@)
            &&& shape.batching == work_items(TRANSPOSE, a@, b@)
        },
{
    let dim: usize = a.len();
    if dim < 2 {
        return Err(Error::Dim);
    }
    if b.len() != dim {
        return Err(Error::Dim);
    }
    if c.len() != dim {
        return Err(Error::Dim);
    }
    let m: usize = a[dim - 2];
    let k: usize = a[dim - 1];
    let (n, inner): (usize, usize) = if TRANSPOSE {
        (b[dim - 2], b[dim - 1])
    } else {
        (b[dim - 1], b[dim - 2])
    };
    assert(m == rows(a@) && k == cols(a@));
    assert(n == out_cols(TRANSPOSE, b@));
    if inner != k {
        assert(!compatible(TRANSPOSE, a@, b@, c@));
        return Err(Error::Dim);
    }
    if c[dim - 2] != m || c[dim - 1] != n {
        assert(!compatible(TRANSPOSE, a@, b@, c@));
        return Err(Error::Dim);
    }
    let mut i: usize = 0;
    while i < dim - 2
        invariant
            2 <= dim,
            i <= dim - 2,
            dim == a@.len(),
            dim == b@.len(),
            dim == c@.len(),
            forall|j: int| 0 <= j < i ==> b@[j] == a@[j] && c@[j] == a@[j],
        decreases dim - 2 - i,
    {
        if b[i] != a[i] || c[i] != a[i] {
            return Err(Error::Dim);
        }
        i += 1;
    }
    assert(compatible(TRANSPOSE, a@, b@, c@));
    match checked_volume(a) {
        Some(v) => {
            if a_len < v {
                return Err(Error::Dim);
            }
        },
        None => {
            return Err(Error::Dim);
        },
    }
    match checked_volume(b) {
        Some(v) => {
            if b_len < v {
                return Err(Error::Dim);
            }
        },
        None => {
            return Err(Error::Dim);
        },
    }
    match checked_volume(c) {
        Some(v) => {
            if c_len < v {
                return Err(Error::Dim);
            }
        },
        None => {
            return Err(Error::Dim);
        },
    }
    if m == 0 || n == 0 {
        return Ok(GemmShape { m, n, k, batching: 0 });
    }
    proof {
        lemma_volume_split(c@);
        assert(c@.take(dim - 2) =~= a@.take(dim - 2));
        lemma_batch_fits(batch(a@), m as nat, n as nat, c_len as nat);
    }
    let lead = slice_subrange(a, 0, dim - 2);
    assert(lead@ =~= a@.take(dim - 2));
    match checked_volume(lead) {
        Some(batching) => Ok(GemmShape { m, n, k, batching }),
        // Not reached: the items of `c` fit its buffer, so their number fits
        // a machine word.
        None => Err(Error::Dim),
    }
}

/// `c = a·b` (or `a·bᵗ` where `TRANSPOSE`), batch item by batch item, after
/// the shapes have been checked.
///
/// The product is refused with `Error::Dim`, and `c` left as it was, unless
/// the three shapes are `compatible` and each tensor `holds` its shape.
/// Otherwise every element of the product is written over what `c` held;
/// elements of `c.data` beyond its shape are left as they were.
pub fn matmul<T: Scalar, const TRANSPOSE: bool>(
    a: &Tensor<T>,
    b: &Tensor<T>,
    c: &mut Tensor<T>,
) -> (res: Result<(), Error>)
    ensures
        res is Ok <==> accepted(
            TRANSPOSE,
            a.shape@,
            a.data@.len(),
            b.shape@,
            b.data@.len(),
            old(c).shape@,
            old(c).data@.len(),
        ),
        final(c).shape == old(c).shape,
        final(c).data@.len() == old(c).data@.len(),
        res is Err ==> final(c).data@ == old(c).data@,
        res is Ok ==> {
            let m = rows(a.shape@);
            let k = cols(a.shape@);
            let n = out_cols(TRANSPOSE, b.shape@);
            let items = batch(a.shape@);
            &&& forall|item: int, r: int, col: int|
                #![trigger out_index(item, r, col, (m * n) as int, n as int)]
                0 <= item < items && 0 <= r < m && 0 <= col < n ==> final(c).data@[out_index(
                    item,
                    r,
                    col,
                    (m * n) as int,
                    n as int,
                )] == element(
                    TRANSPOSE,
                    a.data@,
                    (m * k) as int,
                    b.data@,
                    (n * k) as int,
                    n,
                    k,
                    item,
                    r,
                    col,
                )
            &&& forall|i: int|
                volume(old(c).shape@) <= i < old(c).data@.len() ==> final(c).data@[i] == old(
                    c,
                ).data@[i]
        },
{
    let found = gemm_shape::<TRANSPOSE>(
        a.shape(),
        a.data.len(),
        b.shape(),
        b.data.len(),
        c.shape(),
        c.data.len(),
    );
    let shape = match found {
        Ok(shape) => shape,
        Err(e) => {
            return Err(e);
        },
    };
    let GemmShape { m, n, k, batching } = shape;
    if batching == 0 {
        return Ok(());
    }
    let ghost batches = batch(a.shape@);
    proof {
        let dim = a.shape@.len();
        lemma_volume_split(a.shape@);
        lemma_volume_split(b.shape@);
        lemma_volume_split(c.shape@);
        assert(b.shape@.take(dim - 2) =~= a.shape@.take(dim - 2));
        assert(c.shape@.take(dim - 2) =~= a.shape@.take(dim - 2));
        lemma_packed_items(a.data@.len(), batches, m as nat, k as nat);
        lemma_packed_items(c.data@.len(), batches, m as nat, n as nat);
        if TRANSPOSE {
            lemma_packed_items(b.data@.len(), batches, n as nat, k as nat);
        } else {
            lemma_packed_items(b.data@.len(), batches, k as nat, n as nat);
        }
    }
    assert(m * k <= a.data.len() && n * k <= b.data.len() && m * n <= c.data.len());
    let a_skip: usize = m * k;
    let b_skip: usize = n * k;
    let c_skip: usize = m * n;
    let ghost before = c.data@;
    let (ap, bp) = (a.data(), b.data());
    if TRANSPOSE {
        batched_sgemm_t(ap, a_skip, bp, b_skip, c.data_mut(), c_skip, m, n, k, batching);
    } else {
        batched_sgemm(ap, a_skip, bp, b_skip, c.data_mut(), c_skip, m, n, k, batching);
    }
    proof {
        assert forall|i: int| volume(c.shape@) <= i < before.len() implies c.data@[i]
            == before[i] by {
            if is_output(i, c_skip as int, m as int, n as int, batching as int) {
                let item = choose|item: int|
                    0 <= item < batching && #[trigger] crate::gemm::in_item(
                        i,
                        item,
                        c_skip as int,
                        m as int,
                        n as int,
                    );
                lemma_packed_output(i, item, batches, m as nat, n as nat);
            }
        }
    }
    Ok(())
}

} // verus!
