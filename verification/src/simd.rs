//! Lane registers: the vector interface the kernels are written against.
//!
//! A register is a fixed number of lanes held side by side. The lane count is
//! a compile-time parameter, so one kernel text serves a wide register, a
//! narrow one and the single-lane register that is plain scalar arithmetic.
use crate::scalar::{fma, Narrow, Scalar};
use vstd::prelude::*;

verus! {

/// Lanes per register of the configuration the entry points run with.
pub const WIDTH: usize = 8;

/// Registers per accumulator block of that configuration.
pub const UNROLL: usize = 4;

/// Elements consumed by one unrolled iteration: `WIDTH * UNROLL`.
pub const STEP: usize = WIDTH * UNROLL;

/// `W` lanes of `T`.
pub struct Register<T, const W: usize> {
    pub lanes: [T; W],
}

impl<T: Copy, const W: usize> Clone for Register<T, W> {
    fn clone(&self) -> (r: Self)
        ensures
            r == *self,
    {
        *self
    }
}

impl<T: Copy, const W: usize> Copy for Register<T, W> {

}

/// `v` in each of `w` lanes.
pub open spec fn splat<T>(v: T, w: nat) -> Seq<T> {
    Seq::new(w, |l: int| v)
}

/// Lane by lane, `acc + a * b`.
pub open spec fn lanes_fma<T: Scalar>(acc: Seq<T>, a: Seq<T>, b: Seq<T>) -> Seq<T> {
    Seq::new(acc.len(), |l: int| fma(acc[l], a[l], b[l]))
}

/// Lane by lane, `x + y`.
pub open spec fn lanes_sum<T: Scalar>(x: Seq<T>, y: Seq<T>) -> Seq<T> {
    Seq::new(x.len(), |l: int| T::sum(x[l], y[l]))
}

/// The first `count` elements of `s` added from left to right, starting from
/// `s[0]` itself (no zero is added in front).
pub open spec fn fold_sum<T: Scalar>(s: Seq<T>, count: nat) -> T
    decreases count,
{
    if count <= 1 {
        s[0]
    } else {
        T::sum(fold_sum(s, (count - 1) as nat), s[count - 1])
    }
}

/// The first `count` registers of a block added lane by lane, from the first
/// register on.
pub open spec fn fold_lanes<T: Scalar>(rows: Seq<Seq<T>>, count: nat) -> Seq<T>
    decreases count,
{
    if count <= 1 {
        rows[0]
    } else {
        lanes_sum(fold_lanes(rows, (count - 1) as nat), rows[count - 1])
    }
}

/// The scalar a block reduces to: its registers are added lane by lane, then
/// the lanes of that one register from left to right.
pub open spec fn reduce_value<T: Scalar>(rows: Seq<Seq<T>>, w: nat) -> T {
    fold_sum(fold_lanes(rows, rows.len()), w)
}

/// The lanes of each register of a block.
pub open spec fn block_rows<T: Scalar, const W: usize>(block: Seq<Register<T, W>>) -> Seq<Seq<T>> {
    Seq::new(block.len(), |j: int| block[j]@)
}

impl<T: Scalar, const W: usize> Register<T, W> {
    /// The lanes, first lane first.
    pub open spec fn view(&self) -> Seq<T> {
        self.lanes@
    }

    /// Lanes per register.
    pub fn width() -> (w: usize)
        ensures
            w == W,
    {
        W
    }

    /// The register with `v` in every lane.
    pub fn broadcast(v: T) -> (r: Self)
        ensures
            r@ == splat(v, W as nat),
    {
        let r = Register { lanes: [v;W] };
        assert(r@ =~= splat(v, W as nat));
        r
    }

    /// The register with zero in every lane.
    pub fn zero() -> (r: Self)
        ensures
            r@ == splat(T::zero_value(), W as nat),
    {
        Self::broadcast(T::zero())
    }

    /// The `W` elements of `mem` from index `at` on.
    pub fn load(mem: &[T], at: usize) -> (r: Self)
        requires
            at + W <= mem.len(),
        ensures
            r@ == mem@.subrange(at as int, at + W),
    {
        let mut lanes: [T; W] = [T::zero();W];
        let mut l: usize = 0;
        while l < W
            invariant
                l <= W,
                at + W <= mem.len(),
                lanes@.len() == W,
                forall|j: int| 0 <= j < l ==> lanes@[j] == mem@[at + j],
            decreases W - l,
        {
            lanes[l] = mem[at + l];
            l += 1;
        }
        let r = Register { lanes };
        assert(r@ =~= mem@.subrange(at as int, at + W));
        r
    }

    /// The `W` elements of `mem` from index `at` on, each widened.
    pub fn load_widened<H: Narrow<Wide = T>>(mem: &[H], at: usize) -> (r: Self)
        requires
            at + W <= mem.len(),
        ensures
            r@.len() == W,
            forall|l: int| 0 <= l < W ==> r@[l] == mem@[at + l].widened(),
    {
        let mut lanes: [T; W] = [T::zero();W];
        let mut l: usize = 0;
        while l < W
            invariant
                l <= W,
                at + W <= mem.len(),
                lanes@.len() == W,
                forall|j: int| 0 <= j < l ==> lanes@[j] == mem@[at + j].widened(),
            decreases W - l,
        {
            lanes[l] = mem[at + l].to_wide();
            l += 1;
        }
        Register { lanes }
    }

    /// Writes the lanes to `mem[at .. at + W]` and leaves the rest of `mem`.
    pub fn store(&self, mem: &mut [T], at: usize)
        requires
            at + W <= old(mem).len(),
        ensures
            final(mem)@.len() == old(mem)@.len(),
            forall|i: int|
                0 <= i < old(mem)@.len() ==> final(mem)@[i] == if at <= i < at + W {
                    self@[i - at]
                } else {
                    old(mem)@[i]
                },
    {
        let mut l: usize = 0;
        while l < W
            invariant
                l <= W,
                at + W <= mem.len(),
                mem@.len() == old(mem)@.len(),
                forall|i: int|
                    0 <= i < mem@.len() ==> mem@[i] == if at <= i < at + l {
                        self@[i - at]
                    } else {
                        old(mem)@[i]
                    },
            decreases W - l,
        {
            mem[at + l] = self.lanes[l];
            l += 1;
        }
    }

    /// Writes the lanes, each narrowed, to `mem[at .. at + W]` and leaves the
    /// rest of `mem`.
    pub fn store_narrowed<H: Narrow<Wide = T>>(&self, mem: &mut [H], at: usize)
        requires
            at + W <= old(mem).len(),
        ensures
            final(mem)@.len() == old(mem)@.len(),
            forall|i: int|
                0 <= i < old(mem)@.len() ==> final(mem)@[i] == if at <= i < at + W {
                    H::narrowed(self@[i - at])
                } else {
                    old(mem)@[i]
                },
    {
        let mut l: usize = 0;
        while l < W
            invariant
                l <= W,
                at + W <= mem.len(),
                mem@.len() == old(mem)@.len(),
                forall|i: int|
                    0 <= i < mem@.len() ==> mem@[i] == if at <= i < at + l {
                        H::narrowed(self@[i - at])
                    } else {
                        old(mem)@[i]
                    },
            decreases W - l,
        {
            mem[at + l] = H::from_wide(self.lanes[l]);
            l += 1;
        }
    }

    /// Lane by lane, `self + a * b`. The accumulator is returned, not updated
    /// in place.
    pub fn fma(self, a: Self, b: Self) -> (r: Self)
        ensures
            r@ == lanes_fma(self@, a@, b@),
    {
        let mut lanes: [T; W] = self.lanes;
        let mut l: usize = 0;
        while l < W
            invariant
                l <= W,
                lanes@.len() == W,
                forall|j: int| 0 <= j < l ==> lanes@[j] == fma(self@[j], a@[j], b@[j]),
                forall|j: int| l <= j < W ==> lanes@[j] == self@[j],
            decreases W - l,
        {
            lanes[l] = crate::scalar::mul_add(self.lanes[l], a.lanes[l], b.lanes[l]);
            l += 1;
        }
        let r = Register { lanes };
        assert(r@ =~= lanes_fma(self@, a@, b@));
        r
    }

    /// Lane by lane, `self + rhs`.
    pub fn plus(self, rhs: Self) -> (r: Self)
        ensures
            r@ == lanes_sum(self@, rhs@),
    {
        let mut lanes: [T; W] = self.lanes;
        let mut l: usize = 0;
        while l < W
            invariant
                l <= W,
                lanes@.len() == W,
                forall|j: int| 0 <= j < l ==> lanes@[j] == T::sum(self@[j], rhs@[j]),
                forall|j: int| l <= j < W ==> lanes@[j] == self@[j],
            decreases W - l,
        {
            lanes[l] = self.lanes[l].plus(rhs.lanes[l]);
            l += 1;
        }
        let r = Register { lanes };
        assert(r@ =~= lanes_sum(self@, rhs@));
        r
    }

    /// The lanes added from left to right.
    pub fn horizontal_sum(&self) -> (s: T)
        requires
            W >= 1,
        ensures
            s == fold_sum(self@, W as nat),
    {
        let mut s: T = self.lanes[0];
        let mut l: usize = 1;
        while l < W
            invariant
                1 <= l <= W,
                s == fold_sum(self@, l as nat),
            decreases W - l,
        {
            s = s.plus(self.lanes[l]);
            l += 1;
        }
        s
    }
}

/// An accumulator block of `N` registers, every lane zero.
pub fn zero_block<T: Scalar, const W: usize, const N: usize>() -> (block: [Register<T, W>; N])
    ensures
        block_rows(block@) == Seq::new(N as nat, |j: int| splat(T::zero_value(), W as nat)),
{
    let block: [Register<T, W>; N] = [Register::<T, W>::zero();N];
    assert(block_rows(block@) =~= Seq::new(N as nat, |j: int| splat(T::zero_value(), W as nat)));
    block
}

/// Every lane of every register of `block`, added up to one scalar.
pub fn reduce_block<T: Scalar, const W: usize, const N: usize>(block: &[Register<T, W>; N]) -> (s:
    T)
    requires
        W >= 1,
        N >= 1,
    ensures
        s == reduce_value(block_rows(block@), W as nat),
{
    let mut acc: Register<T, W> = block[0];
    let mut j: usize = 1;
    while j < N
        invariant
            1 <= j <= N,
            acc@ == fold_lanes(block_rows(block@), j as nat),
        decreases N - j,
    {
        acc = acc.plus(block[j]);
        j += 1;
    }
    acc.horizontal_sum()
}

} // verus!
