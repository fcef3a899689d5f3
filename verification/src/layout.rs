//! Shapes, strides and multidimensional indices.
//!
//! A shape lists the size of every dimension. Elements are numbered in
//! row-major order: the last dimension varies fastest. A strided layout maps a
//! multidimensional index to a position in flat storage as
//! `offset + sum(index[i] * strides[i])`.
use vstd::prelude::*;
use vstd::set_lib::{lemma_int_range, lemma_subset_equality, set_int_range};
use vstd::arithmetic::div_mod::{lemma_div_denominator, lemma_fundamental_div_mod_converse};
use crate::error::TensorError;

verus! {

// ---------------------------------------------------------------------------
// Mathematical model
// ---------------------------------------------------------------------------

/// Number of elements described by a shape: the product of its dimensions.
pub open spec fn product(shape: Seq<usize>) -> nat
    decreases shape.len(),
{
    if shape.len() == 0 {
        1
    } else {
        product(shape.drop_last()) * (shape.last() as nat)
    }
}

/// Every dimension of the shape is non-zero.
pub open spec fn all_positive(shape: Seq<usize>) -> bool {
    forall|i: int| 0 <= i < shape.len() ==> #[trigger] shape[i] > 0
}

/// `index` has the rank of `shape` and lies inside every dimension.
pub open spec fn in_bounds(index: Seq<usize>, shape: Seq<usize>) -> bool {
    &&& index.len() == shape.len()
    &&& forall|i: int| 0 <= i < index.len() ==> #[trigger] index[i] < shape[i]
}

/// Weighted sum `sum(index[i] * strides[i])` over the positions of `index`.
pub open spec fn dot(index: Seq<usize>, strides: Seq<usize>) -> nat
    decreases index.len(),
{
    if index.len() == 0 {
        0
    } else {
        dot(index.drop_last(), strides.drop_last()) + (index.last() as nat) * (
        strides[index.len() - 1] as nat)
    }
}

/// Row-major stride of dimension `i`: the product of all later dimensions.
pub open spec fn trailing_product(shape: Seq<usize>, i: int) -> nat {
    product(shape.subrange(i + 1, shape.len() as int))
}

/// `strides` are the contiguous row-major strides of `shape`.
pub open spec fn is_row_major(shape: Seq<usize>, strides: Seq<usize>) -> bool {
    &&& strides.len() == shape.len()
    &&& forall|i: int| 0 <= i < shape.len() ==> #[trigger] strides[i] == trailing_product(shape, i)
}

/// Row-major position of `index` within `shape`.
pub open spec fn ravel(index: Seq<usize>, shape: Seq<usize>) -> nat
    decreases index.len(),
{
    if index.len() == 0 {
        0
    } else {
        ravel(index.drop_last(), shape.drop_last()) * (shape[index.len() - 1] as nat) + (
        index.last() as nat)
    }
}

/// The multidimensional index whose row-major position in `shape` is `flat`.
pub open spec fn unravel(flat: nat, shape: Seq<usize>) -> Seq<usize>
    decreases shape.len(),
{
    if shape.len() == 0 {
        Seq::empty()
    } else {
        let last = shape.last() as nat;
        unravel(flat / last, shape.drop_last()).push((flat % last) as usize)
    }
}

/// `i` is the first position at which `index` leaves `shape`.
pub open spec fn is_first_violation(index: Seq<usize>, shape: Seq<usize>, i: int) -> bool {
    &&& 0 <= i < index.len()
    &&& index[i] >= shape[i]
    &&& forall|j: int| 0 <= j < i ==> #[trigger] index[j] < shape[j]
}

/// Outcome of checking `index` against `shape`: a rank mismatch is reported
/// first, then the first dimension that the index leaves.
pub open spec fn index_check(index: Seq<usize>, shape: Seq<usize>) -> Result<(), TensorError> {
    if index.len() != shape.len() {
        Err(TensorError::ShapeMismatch { expected: index.len() as usize, actual: shape.len() as usize })
    } else if in_bounds(index, shape) {
        Ok(())
    } else {
        let i = choose|i: int| is_first_violation(index, shape, i);
        Err(TensorError::OutOfBounds { bound: shape[i], index: index[i] })
    }
}

/// Dimension `i` of `shape` counted from the right; missing leading
/// dimensions count as `1`.
pub open spec fn dim_from_right(shape: Seq<usize>, i: int) -> usize {
    if i < shape.len() {
        shape[shape.len() - 1 - i]
    } else {
        1
    }
}

/// Two dimensions can be broadcast together when they are equal or either is `1`.
pub open spec fn dims_compatible(a: usize, b: usize) -> bool {
    a == b || a == 1 || b == 1
}

/// Rank of the broadcast of two shapes: the larger of the two ranks.
pub open spec fn broadcast_rank(lhs: Seq<usize>, rhs: Seq<usize>) -> nat {
    if lhs.len() >= rhs.len() {
        lhs.len()
    } else {
        rhs.len()
    }
}

/// The two shapes are compatible in every position counted from the right.
pub open spec fn broadcastable(lhs: Seq<usize>, rhs: Seq<usize>) -> bool {
    forall|i: int|
        0 <= i < broadcast_rank(lhs, rhs) ==> dims_compatible(
            #[trigger] dim_from_right(lhs, i),
            dim_from_right(rhs, i),
        )
}

/// The shape produced by broadcasting two shapes: per position from the
/// right, the larger of the two dimensions.
pub open spec fn broadcast_shape(lhs: Seq<usize>, rhs: Seq<usize>) -> Seq<usize> {
    let rank = broadcast_rank(lhs, rhs);
    Seq::new(
        rank,
        |k: int|
            if dim_from_right(lhs, rank - 1 - k) >= dim_from_right(rhs, rank - 1 - k) {
                dim_from_right(lhs, rank - 1 - k)
            } else {
                dim_from_right(rhs, rank - 1 - k)
            },
    )
}

/// `i` is the first position from the right at which the shapes conflict.
pub open spec fn is_first_mismatch(lhs: Seq<usize>, rhs: Seq<usize>, i: int) -> bool {
    &&& 0 <= i < broadcast_rank(lhs, rhs)
    &&& !dims_compatible(dim_from_right(lhs, i), dim_from_right(rhs, i))
    &&& forall|j: int|
        0 <= j < i ==> dims_compatible(#[trigger] dim_from_right(lhs, j), dim_from_right(rhs, j))
}

/// The error reported for two shapes that cannot be broadcast: the two
/// conflicting dimensions nearest to the right.
pub open spec fn broadcast_error(lhs: Seq<usize>, rhs: Seq<usize>) -> TensorError {
    let i = choose|i: int| is_first_mismatch(lhs, rhs, i);
    TensorError::ShapeMismatch { expected: dim_from_right(lhs, i), actual: dim_from_right(rhs, i) }
}

/// The index of an operand that an index of the broadcast result reads:
/// dimensions of size `1` always read position `0`, the others follow the
/// trailing coordinates of `out`.
pub open spec fn broadcast_source(out: Seq<usize>, in_shape: Seq<usize>) -> Seq<usize> {
    Seq::new(
        in_shape.len(),
        |i: int|
            if in_shape[i] == 1 {
                0usize
            } else {
                out[out.len() - in_shape.len() + i]
            },
    )
}

/// `shape` with dimension `axis` removed; a shape that would become empty is
/// `[1]` instead.
pub open spec fn without_axis(shape: Seq<usize>, axis: int) -> Seq<usize> {
    let s = if 0 <= axis < shape.len() {
        shape.remove(axis)
    } else {
        shape
    };
    if s.len() == 0 {
        seq![1usize]
    } else {
        s
    }
}

/// Output shape of a reduction along `axis`: the axis is kept with size `1`,
/// or removed.
pub open spec fn reduced(shape: Seq<usize>, axis: int, keep_shape: bool) -> Seq<usize> {
    if keep_shape {
        shape.update(axis, 1)
    } else {
        without_axis(shape, axis)
    }
}

/// Index of rank `rank` formed by inserting `axis_index` at position `axis`
/// into `index`.
pub open spec fn with_axis(index: Seq<usize>, rank: nat, axis: int, axis_index: usize) -> Seq<
    usize,
> {
    Seq::new(
        rank,
        |i: int|
            if i < axis {
                index[i]
            } else if i == axis {
                axis_index
            } else {
                index[i - 1]
            },
    )
}

/// Index of a reduction output that collects input `index`: the reduced
/// coordinate becomes `0`, or is removed (leaving `[0]` when nothing remains).
pub open spec fn reduced_index(index: Seq<usize>, axis: int, keep_shape: bool) -> Seq<usize> {
    if keep_shape {
        index.update(axis, 0)
    } else {
        let s = if 0 <= axis < index.len() {
            index.remove(axis)
        } else {
            index
        };
        if s.len() == 0 {
            seq![0usize]
        } else {
            s
        }
    }
}

/// `target` broadcasts to `shape`: it has at most as many dimensions, and
/// each of its dimensions is `1` or the matching trailing dimension of `shape`.
pub open spec fn broadcasts_to(target: Seq<usize>, shape: Seq<usize>) -> bool {
    &&& target.len() <= shape.len()
    &&& forall|i: int|
        0 <= i < target.len() ==> #[trigger] target[i] == 1 || target[i] == shape[shape.len()
            - target.len() + i]
}

/// Every entry of `axis` is below `rank` and no entry repeats.
pub open spec fn distinct_axes(axis: Seq<usize>, rank: nat) -> bool {
    &&& forall|i: int| 0 <= i < axis.len() ==> #[trigger] axis[i] < rank
    &&& forall|i: int, j: int| 0 <= i < j < axis.len() ==> #[trigger] axis[i] != #[trigger] axis[j]
}

/// `axis` lists every position below `n` exactly once.
pub open spec fn is_permutation(axis: Seq<usize>, n: nat) -> bool {
    axis.len() == n && distinct_axes(axis, n)
}

/// Entry `k` of the result is entry `axis[k]` of `s`.
pub open spec fn permute(s: Seq<usize>, axis: Seq<usize>) -> Seq<usize> {
    Seq::new(axis.len(), |k: int| s[axis[k] as int])
}

/// The position at which a permutation holds `j`.
pub open spec fn position_of(axis: Seq<usize>, j: int) -> int {
    choose|k: int| 0 <= k < axis.len() && axis[k] == j
}

/// The index that `permute` sends to `p`: entry `j` is the entry of `p` at
/// the position where `axis` holds `j`.
pub open spec fn unpermute(p: Seq<usize>, axis: Seq<usize>) -> Seq<usize> {
    Seq::new(axis.len(), |j: int| p[position_of(axis, j)])
}

/// The permutation that undoes `axis`: entry `j` is the position at which
/// `axis` holds `j`.
pub open spec fn inverse_permutation(axis: Seq<usize>) -> Seq<usize> {
    Seq::new(axis.len(), |j: int| position_of(axis, j) as usize)
}

/// The permutation of `n` positions that exchanges the last two.
pub open spec fn swap_axes(n: nat) -> Seq<usize> {
    Seq::new(
        n,
        |k: int|
            if k == n - 2 {
                (n - 1) as usize
            } else if k == n - 1 {
                (n - 2) as usize
            } else {
                k as usize
            },
    )
}

/// `s` with its last two entries exchanged.
pub open spec fn swap_last_two(s: Seq<usize>) -> Seq<usize> {
    s.update(s.len() - 2, s[s.len() - 1]).update(s.len() - 1, s[s.len() - 2])
}

// ---------------------------------------------------------------------------
// Lemmas
// ---------------------------------------------------------------------------

/// A shape without zero dimensions describes at least one element.
pub proof fn lemma_product_positive(shape: Seq<usize>)
    requires
        all_positive(shape),
    ensures
        product(shape) >= 1,
    decreases shape.len(),
{
    if shape.len() > 0 {
        lemma_product_positive(shape.drop_last());
        let p = product(shape.drop_last());
        let l = shape.last() as nat;
        assert(shape[shape.len() - 1] > 0);
        assert(p * l >= 1) by (nonlinear_arith)
            requires
                p >= 1,
                l >= 1,
        ;
    }
}

/// A shape has a zero dimension exactly when it describes no element.
pub proof fn lemma_product_zero(shape: Seq<usize>)
    ensures
        (product(shape) == 0) <==> !all_positive(shape),
    decreases shape.len(),
{
    if shape.len() > 0 {
        lemma_product_zero(shape.drop_last());
        let p = product(shape.drop_last());
        let l = shape.last() as nat;
        assert((p * l == 0) <==> (p == 0 || l == 0)) by (nonlinear_arith);
        if !all_positive(shape.drop_last()) {
            let i = choose|i: int| 0 <= i < shape.len() - 1 && !(shape.drop_last()[i] > 0);
            assert(shape[i] == 0);
        }
        if all_positive(shape.drop_last()) && l > 0 {
            assert forall|i: int| 0 <= i < shape.len() implies #[trigger] shape[i] > 0 by {
                if i < shape.len() - 1 {
                    assert(shape.drop_last()[i] == shape[i]);
                }
            }
        }
    }
}

/// The product over a shape splits into the product of a prefix and a suffix.
pub proof fn lemma_product_split(shape: Seq<usize>, k: int)
    requires
        0 <= k <= shape.len(),
    ensures
        product(shape) == product(shape.subrange(0, k)) * product(
            shape.subrange(k, shape.len() as int),
        ),
    decreases shape.len() - k,
{
    let n = shape.len() as int;
    if k == n {
        assert(shape.subrange(0, k) =~= shape);
        assert(shape.subrange(k, n).len() == 0);
        assert(product(shape.subrange(k, n)) == 1);
        assert(product(shape) == product(shape.subrange(0, k)) * product(shape.subrange(k, n)));
    } else {
        lemma_product_split(shape.drop_last(), k);
        let a = product(shape.subrange(0, k));
        let b = product(shape.drop_last().subrange(k, n - 1));
        let l = shape.last() as nat;
        assert(shape.drop_last().subrange(0, k) =~= shape.subrange(0, k));
        assert(shape.subrange(k, n).drop_last() =~= shape.drop_last().subrange(k, n - 1));
        assert(shape.subrange(k, n).last() == shape.last());
        assert(product(shape) == product(shape.drop_last()) * l);
        assert(product(shape.drop_last()) == a * b);
        assert(product(shape.subrange(k, n)) == product(shape.subrange(k, n).drop_last()) * (
        shape.subrange(k, n).last() as nat));
        assert(product(shape.subrange(k, n)) == b * l);
        assert(a * b * l == a * (b * l)) by (nonlinear_arith);
    }
}

/// Every trailing product of a shape without zero dimensions is at most its
/// total size.
pub proof fn lemma_trailing_product_bound(shape: Seq<usize>, i: int)
    requires
        all_positive(shape),
        -1 <= i < shape.len(),
    ensures
        1 <= trailing_product(shape, i) <= product(shape),
{
    let n = shape.len() as int;
    lemma_product_split(shape, i + 1);
    let a = product(shape.subrange(0, i + 1));
    let b = product(shape.subrange(i + 1, n));
    assert(all_positive(shape.subrange(0, i + 1)));
    assert(all_positive(shape.subrange(i + 1, n)));
    lemma_product_positive(shape.subrange(0, i + 1));
    lemma_product_positive(shape.subrange(i + 1, n));
    assert(b <= a * b) by (nonlinear_arith)
        requires
            a >= 1,
    ;
}

/// An in-bounds index has a row-major position below the size of the shape.
pub proof fn lemma_ravel_bound(index: Seq<usize>, shape: Seq<usize>)
    requires
        in_bounds(index, shape),
    ensures
        ravel(index, shape) < product(shape),
    decreases index.len(),
{
    if index.len() > 0 {
        let n = index.len() - 1;
        assert(in_bounds(index.drop_last(), shape.drop_last()));
        lemma_ravel_bound(index.drop_last(), shape.drop_last());
        let r = ravel(index.drop_last(), shape.drop_last());
        let p = product(shape.drop_last());
        let s = shape[n] as nat;
        let l = index[n] as nat;
        assert(index[n] < shape[n]);
        assert(r * s + l < p * s) by (nonlinear_arith)
            requires
                r < p,
                l < s,
        ;
    }
}

/// `unravel` always produces an index of the rank of the shape, and inside
/// the shape for every position below its size.
pub proof fn lemma_unravel_in_bounds(flat: nat, shape: Seq<usize>)
    requires
        all_positive(shape),
        flat < product(shape),
    ensures
        in_bounds(unravel(flat, shape), shape),
        ravel(unravel(flat, shape), shape) == flat,
    decreases shape.len(),
{
    if shape.len() > 0 {
        let n = shape.len() - 1;
        let s = shape.last() as nat;
        let p = product(shape.drop_last());
        assert(shape[n] > 0);
        assert(flat / s < p && flat % s < s && flat == (flat / s) * s + flat % s) by (
        nonlinear_arith)
            requires
                s > 0,
                flat < p * s,
        ;
        lemma_unravel_in_bounds(flat / s, shape.drop_last());
        let u = unravel(flat, shape);
        let v = unravel(flat / s, shape.drop_last());
        assert(u.drop_last() =~= v);
        assert forall|i: int| 0 <= i < u.len() implies #[trigger] u[i] < shape[i] by {
            if i < n {
                assert(u[i] == v[i]);
            }
        }
    }
}

/// `unravel` undoes `ravel` on in-bounds indices.
pub proof fn lemma_unravel_ravel(index: Seq<usize>, shape: Seq<usize>)
    requires
        in_bounds(index, shape),
    ensures
        unravel(ravel(index, shape), shape) == index,
    decreases index.len(),
{
    if index.len() > 0 {
        let n = index.len() - 1;
        assert(in_bounds(index.drop_last(), shape.drop_last()));
        lemma_unravel_ravel(index.drop_last(), shape.drop_last());
        let r = ravel(index.drop_last(), shape.drop_last());
        let s = shape[n] as nat;
        let l = index[n] as nat;
        assert(index[n] < shape[n]);
        lemma_fundamental_div_mod_converse((r * s + l) as int, s as int, r as int, l as int);
        assert(unravel(ravel(index, shape), shape) =~= index);
    }
}

/// Two in-bounds indices with the same row-major position are equal.
pub proof fn lemma_ravel_injective(a: Seq<usize>, b: Seq<usize>, shape: Seq<usize>)
    requires
        in_bounds(a, shape),
        in_bounds(b, shape),
        ravel(a, shape) == ravel(b, shape),
    ensures
        a == b,
{
    lemma_unravel_ravel(a, shape);
    lemma_unravel_ravel(b, shape);
}

/// Multiplying every stride by `c` multiplies the weighted sum by `c`.
pub proof fn lemma_dot_scaled(index: Seq<usize>, s: Seq<usize>, t: Seq<usize>, c: nat)
    requires
        index.len() == s.len(),
        index.len() == t.len(),
        forall|i: int| 0 <= i < s.len() ==> #[trigger] s[i] == t[i] * c,
    ensures
        dot(index, s) == dot(index, t) * c,
    decreases index.len(),
{
    if index.len() > 0 {
        let n = index.len() - 1;
        lemma_dot_scaled(index.drop_last(), s.drop_last(), t.drop_last(), c);
        let d = dot(index.drop_last(), t.drop_last());
        let l = index[n] as nat;
        let tl = t[n] as nat;
        assert(s[n] == t[n] * c);
        assert(dot(index, s) == dot(index.drop_last(), s.drop_last()) + l * (s[n] as nat));
        assert(dot(index, t) == d + l * tl);
        assert(dot(index.drop_last(), s.drop_last()) == d * c);
        assert(l * (s[n] as nat) == l * (tl * c));
        assert(d * c + l * (tl * c) == (d + l * tl) * c) by (nonlinear_arith);
    } else {
        assert(0 * c == 0);
    }
}

/// With row-major strides, the strided position of an index is its row-major
/// position.
pub proof fn lemma_dot_row_major(index: Seq<usize>, shape: Seq<usize>, strides: Seq<usize>)
    requires
        index.len() == shape.len(),
        is_row_major(shape, strides),
        all_positive(shape),
        product(shape) <= usize::MAX,
    ensures
        dot(index, strides) == ravel(index, shape),
    decreases index.len(),
{
    let n = index.len() as int;
    if n > 0 {
        let last = shape[n - 1] as nat;
        assert(all_positive(shape.drop_last()));
        assert(shape[n - 1] > 0);
        assert(product(shape.drop_last()) <= product(shape)) by (nonlinear_arith)
            requires
                product(shape) == product(shape.drop_last()) * last,
                last >= 1,
        ;
        assert forall|i: int| 0 <= i < n - 1 implies trailing_product(shape.drop_last(), i)
            <= usize::MAX by {
            lemma_trailing_product_bound(shape.drop_last(), i);
        }
        let inner = Seq::new(
            (n - 1) as nat,
            |i: int| trailing_product(shape.drop_last(), i) as usize,
        );
        assert forall|i: int| 0 <= i < n - 1 implies #[trigger] strides.drop_last()[i] == inner[i]
            * last by {
            let sub = shape.subrange(i + 1, n);
            assert(sub.drop_last() =~= shape.drop_last().subrange(i + 1, n - 1));
            assert(sub.last() == shape[n - 1]);
            assert(strides[i] == trailing_product(shape, i));
        }
        assert(is_row_major(shape.drop_last(), inner));
        lemma_dot_row_major(index.drop_last(), shape.drop_last(), inner);
        lemma_dot_scaled(index.drop_last(), strides.drop_last(), inner, last);
        assert(strides[n - 1] == trailing_product(shape, n - 1));
        assert(shape.subrange(n, n).len() == 0);
        assert(strides[n - 1] == 1);
        assert(dot(index.drop_last(), inner) == ravel(index.drop_last(), shape.drop_last()));
        assert(dot(index.drop_last(), strides.drop_last()) == dot(index.drop_last(), inner) * last);
        assert(dot(index, strides) == dot(index.drop_last(), strides.drop_last()) + (
        index.last() as nat));
    }
}

/// The index of the last element of every dimension.
pub open spec fn last_index(shape: Seq<usize>) -> Seq<usize> {
    Seq::new(shape.len(), |i: int| (shape[i] - 1) as usize)
}

/// Largest storage position that a strided layout reaches.
pub open spec fn max_position(shape: Seq<usize>, strides: Seq<usize>, offset: usize) -> nat {
    (offset + dot(last_index(shape), strides)) as nat
}

/// The weighted sum grows with every coordinate of the index.
pub proof fn lemma_dot_monotone(a: Seq<usize>, b: Seq<usize>, strides: Seq<usize>)
    requires
        a.len() == b.len(),
        a.len() <= strides.len(),
        forall|i: int| 0 <= i < a.len() ==> #[trigger] a[i] <= b[i],
    ensures
        dot(a, strides) <= dot(b, strides),
    decreases a.len(),
{
    if a.len() > 0 {
        let n = a.len() - 1;
        lemma_dot_monotone(a.drop_last(), b.drop_last(), strides.drop_last());
        let x = a[n] as nat;
        let y = b[n] as nat;
        let s = strides[n] as nat;
        assert(a[n] <= b[n]);
        assert(x * s <= y * s) by (nonlinear_arith)
            requires
                x <= y,
        ;
    }
}

/// Every in-bounds index lands at or before the largest storage position.
pub proof fn lemma_position_bound(index: Seq<usize>, shape: Seq<usize>, strides: Seq<usize>)
    requires
        in_bounds(index, shape),
        strides.len() == shape.len(),
    ensures
        dot(index, strides) <= dot(last_index(shape), strides),
{
    lemma_dot_monotone(index, last_index(shape), strides);
}

/// A prefix of the weighted sum never exceeds the whole sum.
pub proof fn lemma_dot_prefix(index: Seq<usize>, strides: Seq<usize>, k: int)
    requires
        0 <= k <= index.len(),
        index.len() <= strides.len(),
    ensures
        dot(index.subrange(0, k), strides.subrange(0, k)) <= dot(index, strides),
        k < index.len() ==> dot(index.subrange(0, k + 1), strides.subrange(0, k + 1)) == dot(
            index.subrange(0, k),
            strides.subrange(0, k),
        ) + (index[k] as nat) * (strides[k] as nat),
    decreases index.len() - k,
{
    if k < index.len() {
        let n = index.len() as int;
        assert(index.subrange(0, k + 1).drop_last() =~= index.subrange(0, k));
        assert(strides.subrange(0, k + 1).drop_last() =~= strides.subrange(0, k));
        if k + 1 < n {
            lemma_dot_prefix(index, strides, k + 1);
        } else {
            assert(index.subrange(0, n) =~= index);
            lemma_dot_ignores_extra(index, strides, n);
        }
    } else {
        assert(index.subrange(0, k) =~= index);
        assert(dot(index, strides) == dot(index, strides.subrange(0, k))) by {
            lemma_dot_ignores_extra(index, strides, k);
        }
    }
}

/// Only the first `index.len()` strides take part in the weighted sum.
pub proof fn lemma_dot_ignores_extra(index: Seq<usize>, strides: Seq<usize>, k: int)
    requires
        k == index.len(),
        k <= strides.len(),
    ensures
        dot(index, strides) == dot(index, strides.subrange(0, k)),
    decreases index.len(),
{
    if k > 0 {
        let st = strides.subrange(0, k);
        assert(st.drop_last() =~= strides.subrange(0, k - 1));
        lemma_dot_ignores_extra(index.drop_last(), strides, k - 1);
        lemma_dot_ignores_extra(index.drop_last(), strides.drop_last(), k - 1);
        assert(strides.drop_last().subrange(0, k - 1) =~= strides.subrange(0, k - 1));
    }
}

// ---------------------------------------------------------------------------
// Executable helpers
// ---------------------------------------------------------------------------

/// Number of elements described by `shape`, or `None` when it does not fit in
/// a `usize`.
pub fn element_count(shape: &[usize]) -> (r: Option<usize>)
    ensures
        r matches Some(n) ==> n == product(shape@),
        r is None <==> product(shape@) > usize::MAX,
{
    let n = shape.len();
    let mut k: usize = 0;
    while k < n
        invariant
            n == shape@.len(),
            k <= n,
            forall|j: int| 0 <= j < k ==> #[trigger] shape@[j] > 0,
        decreases n - k,
    {
        if shape[k] == 0 {
            proof {
                lemma_product_zero(shape@);
            }
            return Some(0);
        }
        k = k + 1;
    }
    assert(all_positive(shape@));
    let mut acc: usize = 1;
    let mut i: usize = 0;
    while i < n
        invariant
            n == shape@.len(),
            i <= n,
            all_positive(shape@),
            acc == product(shape@.subrange(0, i as int)),
        decreases n - i,
    {
        proof {
            assert(shape@.subrange(0, i + 1).drop_last() =~= shape@.subrange(0, i as int));
            lemma_product_split(shape@, i + 1);
            assert(all_positive(shape@.subrange(i + 1, n as int)));
            lemma_product_positive(shape@.subrange(i + 1, n as int));
        }
        match acc.checked_mul(shape[i]) {
            Some(next) => {
                acc = next;
            },
            None => {
                proof {
                    let a = product(shape@.subrange(0, i + 1));
                    let b = product(shape@.subrange(i + 1, n as int));
                    assert(a <= a * b) by (nonlinear_arith)
                        requires
                            b >= 1,
                    ;
                }
                return None;
            },
        }
        i = i + 1;
    }
    assert(shape@.subrange(0, n as int) =~= shape@);
    Some(acc)
}

/// Contiguous row-major strides for `shape`: stride `i` is the product of all
/// dimensions after `i`.
pub fn strides_for_shape(shape: &[usize]) -> (r: Vec<usize>)
    requires
        all_positive(shape@),
        product(shape@) <= usize::MAX,
    ensures
        is_row_major(shape@, r@),
{
    let n = shape.len();
    let mut r: Vec<usize> = Vec::new();
    let mut k: usize = 0;
    while k < n
        invariant
            k <= n,
            r@.len() == k,
            forall|j: int| 0 <= j < k ==> #[trigger] r@[j] == 1,
        decreases n - k,
    {
        r.push(1);
        k = k + 1;
    }
    if n == 0 {
        return r;
    }
    proof {
        assert(shape@.subrange(n as int, n as int).len() == 0);
    }
    let mut i: usize = n - 1;
    while i > 0
        invariant
            n == shape@.len(),
            0 <= i < n,
            r@.len() == n,
            all_positive(shape@),
            product(shape@) <= usize::MAX,
            forall|j: int| i <= j < n ==> #[trigger] r@[j] == trailing_product(shape@, j),
        decreases i,
    {
        proof {
            lemma_trailing_step(shape@, i as int);
            lemma_trailing_product_bound(shape@, i - 1);
            let a = shape@[i as int] as nat;
            let b = trailing_product(shape@, i as int);
            assert(a * b == b * a) by (nonlinear_arith);
        }
        let next = r[i] * shape[i];
        r.set(i - 1, next);
        i = i - 1;
    }
    r
}

/// Storage position `offset + sum(index[i] * strides[i])`.
pub fn flat_index_for_strides(index: &[usize], strides: &[usize], offset: usize) -> (r: usize)
    requires
        index@.len() == strides@.len(),
        offset + dot(index@, strides@) <= usize::MAX,
    ensures
        r == offset + dot(index@, strides@),
{
    let n = index.len();
    let mut acc: usize = offset;
    let mut i: usize = 0;
    while i < n
        invariant
            n == index@.len(),
            n == strides@.len(),
            i <= n,
            offset + dot(index@, strides@) <= usize::MAX,
            acc == offset + dot(index@.subrange(0, i as int), strides@.subrange(0, i as int)),
        decreases n - i,
    {
        proof {
            lemma_dot_prefix(index@, strides@, i as int);
            lemma_dot_prefix(index@, strides@, i + 1);
        }
        acc = acc + index[i] * strides[i];
        i = i + 1;
    }
    proof {
        assert(index@.subrange(0, n as int) =~= index@);
        assert(strides@.subrange(0, n as int) =~= strides@);
    }
    acc
}

/// Row-major strides grow by one dimension per step to the left.
pub proof fn lemma_trailing_step(shape: Seq<usize>, i: int)
    requires
        0 <= i < shape.len(),
    ensures
        trailing_product(shape, i - 1) == (shape[i] as nat) * trailing_product(shape, i),
{
    let n = shape.len() as int;
    let s = shape.subrange(i, n);
    lemma_product_split(s, 1);
    assert(s.subrange(1, s.len() as int) =~= shape.subrange(i + 1, n));
    lemma_product_single(s.subrange(0, 1));
}

/// The product over a single dimension is that dimension.
pub proof fn lemma_product_single(s: Seq<usize>)
    requires
        s.len() == 1,
    ensures
        product(s) == s[0] as nat,
{
    let e = s.drop_last();
    assert(e.len() == 0);
    assert(product(e) == 1);
    assert(product(s) == product(e) * (s[0] as nat));
}

/// Coordinate `j` of `unravel(flat, shape)` is the quotient by the stride of
/// `j`, taken modulo dimension `j`.
pub proof fn lemma_unravel_component(flat: nat, shape: Seq<usize>, j: int)
    requires
        all_positive(shape),
        0 <= j < shape.len(),
    ensures
        unravel(flat, shape).len() == shape.len(),
        unravel(flat, shape)[j] == ((flat / trailing_product(shape, j)) % (shape[j] as nat)) as usize,
    decreases shape.len(),
{
    let n = shape.len() as int;
    let last = shape[n - 1] as nat;
    assert(shape[n - 1] > 0);
    lemma_unravel_len(flat, shape);
    if j == n - 1 {
        assert(shape.subrange(n, n).len() == 0);
        assert(flat / 1 == flat);
    } else {
        assert(all_positive(shape.drop_last()));
        lemma_unravel_component(flat / last, shape.drop_last(), j);
        let t = trailing_product(shape.drop_last(), j);
        assert(shape.subrange(j + 1, n).drop_last() =~= shape.drop_last().subrange(j + 1, n - 1));
        assert(trailing_product(shape, j) == t * last);
        lemma_trailing_product_bound(shape.drop_last(), j);
        lemma_div_denominator(flat as int, last as int, t as int);
        assert(last * t == t * last) by (nonlinear_arith);
    }
}

/// `unravel` produces an index of the rank of the shape.
pub proof fn lemma_unravel_len(flat: nat, shape: Seq<usize>)
    requires
        all_positive(shape),
    ensures
        unravel(flat, shape).len() == shape.len(),
    decreases shape.len(),
{
    if shape.len() > 0 {
        let last = shape.last() as nat;
        assert(shape[shape.len() - 1] > 0);
        assert(all_positive(shape.drop_last()));
        lemma_unravel_len(flat / last, shape.drop_last());
    }
}

/// Indices inside the broadcast shape read indices inside each operand.
pub proof fn lemma_broadcast_source_in_bounds(
    out: Seq<usize>,
    lhs: Seq<usize>,
    rhs: Seq<usize>,
)
    requires
        broadcastable(lhs, rhs),
        all_positive(lhs),
        in_bounds(out, broadcast_shape(lhs, rhs)),
    ensures
        in_bounds(broadcast_source(out, lhs), lhs),
{
    let rank = broadcast_rank(lhs, rhs);
    let src = broadcast_source(out, lhs);
    assert forall|i: int| 0 <= i < lhs.len() implies #[trigger] src[i] < lhs[i] by {
        let r = lhs.len() - 1 - i;
        assert(dim_from_right(lhs, r) == lhs[i]);
        assert(dims_compatible(dim_from_right(lhs, r), dim_from_right(rhs, r)));
        let k = rank - 1 - r;
        assert(broadcast_shape(lhs, rhs)[k] >= lhs[i]);
        assert(out[k] < broadcast_shape(lhs, rhs)[k]);
        assert(lhs[i] > 0);
    }
}

/// Broadcasting is symmetric in the rank, the compatibility and the shape.
pub proof fn lemma_broadcast_symmetric(lhs: Seq<usize>, rhs: Seq<usize>)
    ensures
        broadcast_rank(lhs, rhs) == broadcast_rank(rhs, lhs),
        broadcastable(lhs, rhs) == broadcastable(rhs, lhs),
        broadcast_shape(lhs, rhs) == broadcast_shape(rhs, lhs),
{
    assert(broadcast_shape(lhs, rhs) =~= broadcast_shape(rhs, lhs));
}

/// The broadcast of two shapes without zero dimensions has no zero dimension.
pub proof fn lemma_broadcast_shape_positive(lhs: Seq<usize>, rhs: Seq<usize>)
    requires
        all_positive(lhs),
        all_positive(rhs),
    ensures
        all_positive(broadcast_shape(lhs, rhs)),
{
    let rank = broadcast_rank(lhs, rhs);
    assert forall|k: int| 0 <= k < rank implies #[trigger] broadcast_shape(lhs, rhs)[k] > 0 by {
        let r = rank - 1 - k;
        if r < lhs.len() {
            assert(lhs[lhs.len() - 1 - r] > 0);
        }
    }
}

/// A permutation holds every position below `n`.
pub proof fn lemma_permutation_onto(axis: Seq<usize>, n: nat, j: int)
    requires
        is_permutation(axis, n),
        0 <= j < n,
    ensures
        exists|k: int| 0 <= k < axis.len() && axis[k] == j,
        0 <= position_of(axis, j) < axis.len(),
        axis[position_of(axis, j)] == j,
{
    let vals = axis.map_values(|v: usize| v as int);
    assert(vals.no_duplicates()) by {
        assert forall|a: int, b: int| 0 <= a < vals.len() && 0 <= b < vals.len() && a != b implies vals[a]
            != vals[b] by {
            if a < b {
                assert(axis[a] != axis[b]);
            } else {
                assert(axis[b] != axis[a]);
            }
        }
    }
    vals.unique_seq_to_set();
    lemma_int_range(0, n as int);
    let range = set_int_range(0, n as int);
    assert(vals.to_set().subset_of(range)) by {
        assert forall|v: int| vals.to_set().contains(v) implies range.contains(v) by {
            let k = choose|k: int| 0 <= k < vals.len() && vals[k] == v;
            assert(axis[k] < n);
        }
    }
    assert(vals.to_set().finite()) by {
        vstd::seq_lib::seq_to_set_is_finite(vals);
    }
    lemma_subset_equality(vals.to_set(), range);
    assert(range.contains(j));
    assert(vals.to_set().contains(j));
    let k = choose|k: int| 0 <= k < vals.len() && vals[k] == j;
    assert(axis[k] == j);
}

/// Removing the position that holds `n - 1` leaves a permutation of `n - 1`.
proof fn lemma_permutation_remove_last(axis: Seq<usize>, n: nat, k: int)
    requires
        is_permutation(axis, n),
        0 <= k < axis.len(),
        axis[k] == n - 1,
    ensures
        is_permutation(axis.remove(k), (n - 1) as nat),
{
    let r = axis.remove(k);
    assert forall|i: int| 0 <= i < r.len() implies #[trigger] r[i] < n - 1 by {
        let src = if i < k {
            i
        } else {
            i + 1
        };
        assert(r[i] == axis[src]);
        if src < k {
            assert(axis[src] != axis[k]);
        } else {
            assert(axis[k] != axis[src]);
        }
    }
    assert forall|i: int, j: int| 0 <= i < j < r.len() implies #[trigger] r[i] != #[trigger] r[j] by {
        let a = if i < k {
            i
        } else {
            i + 1
        };
        let b = if j < k {
            j
        } else {
            j + 1
        };
        assert(a < b);
        assert(axis[a] != axis[b]);
    }
}

/// The product over a shape is the product without one dimension times that
/// dimension.
pub proof fn lemma_product_remove(s: Seq<usize>, k: int)
    requires
        0 <= k < s.len(),
    ensures
        product(s) == product(s.remove(k)) * (s[k] as nat),
    decreases s.len(),
{
    let n = s.len() as int;
    if k == n - 1 {
        assert(s.remove(k) =~= s.drop_last());
    } else {
        lemma_product_remove(s.drop_last(), k);
        assert(s.remove(k).drop_last() =~= s.drop_last().remove(k));
        assert(s.remove(k).last() == s.last());
        let a = product(s.drop_last().remove(k));
        let b = s[k] as nat;
        let c = s.last() as nat;
        assert(a * b * c == a * c * b) by (nonlinear_arith);
    }
}

/// The weighted sum is the sum without one position plus that position's term.
pub proof fn lemma_dot_remove(a: Seq<usize>, b: Seq<usize>, k: int)
    requires
        a.len() == b.len(),
        0 <= k < a.len(),
    ensures
        dot(a, b) == dot(a.remove(k), b.remove(k)) + (a[k] as nat) * (b[k] as nat),
    decreases a.len(),
{
    let n = a.len() as int;
    if k == n - 1 {
        assert(a.remove(k) =~= a.drop_last());
        assert(b.remove(k) =~= b.drop_last());
    } else {
        lemma_dot_remove(a.drop_last(), b.drop_last(), k);
        assert(a.remove(k).drop_last() =~= a.drop_last().remove(k));
        assert(b.remove(k).drop_last() =~= b.drop_last().remove(k));
        assert(a.remove(k)[a.remove(k).len() - 1] == a[n - 1]);
        assert(b.remove(k)[b.remove(k).len() - 1] == b[n - 1]);
    }
}

/// Permuting the entries of `s` and then removing the entry taken from the
/// last position equals permuting `s` without its last entry.
proof fn lemma_permute_remove(s: Seq<usize>, axis: Seq<usize>, k: int)
    requires
        is_permutation(axis, s.len()),
        0 <= k < axis.len(),
        axis[k] == s.len() - 1,
    ensures
        permute(s, axis).remove(k) == permute(s.drop_last(), axis.remove(k)),
{
    lemma_permutation_remove_last(axis, s.len(), k);
    let lhs = permute(s, axis).remove(k);
    let rhs = permute(s.drop_last(), axis.remove(k));
    assert forall|i: int| 0 <= i < lhs.len() implies lhs[i] == rhs[i] by {
        assert(axis.remove(k)[i] < s.len() - 1);
    }
    assert(lhs =~= rhs);
}

/// The product over a shape does not depend on the order of its dimensions.
pub proof fn lemma_product_permute(s: Seq<usize>, axis: Seq<usize>)
    requires
        is_permutation(axis, s.len()),
    ensures
        product(permute(s, axis)) == product(s),
    decreases s.len(),
{
    let n = s.len();
    if n == 0 {
        assert(permute(s, axis).len() == 0);
    } else {
        lemma_permutation_onto(axis, n, n - 1);
        let k = position_of(axis, n - 1);
        lemma_permutation_remove_last(axis, n, k);
        lemma_permute_remove(s, axis, k);
        lemma_product_permute(s.drop_last(), axis.remove(k));
        lemma_product_remove(permute(s, axis), k);
    }
}

/// The weighted sum does not depend on the order of its positions.
pub proof fn lemma_dot_permute(a: Seq<usize>, b: Seq<usize>, axis: Seq<usize>)
    requires
        a.len() == b.len(),
        is_permutation(axis, a.len()),
    ensures
        dot(permute(a, axis), permute(b, axis)) == dot(a, b),
    decreases a.len(),
{
    let n = a.len();
    if n == 0 {
        assert(permute(a, axis).len() == 0);
    } else {
        lemma_permutation_onto(axis, n, n - 1);
        let k = position_of(axis, n - 1);
        lemma_permutation_remove_last(axis, n, k);
        lemma_permute_remove(a, axis, k);
        lemma_permute_remove(b, axis, k);
        lemma_dot_permute(a.drop_last(), b.drop_last(), axis.remove(k));
        lemma_dot_remove(permute(a, axis), permute(b, axis), k);
    }
}

/// `unpermute` undoes `permute`, and keeps in-bounds indices in bounds.
pub proof fn lemma_unpermute(p: Seq<usize>, shape: Seq<usize>, axis: Seq<usize>)
    requires
        is_permutation(axis, shape.len()),
        in_bounds(p, permute(shape, axis)),
    ensures
        permute(unpermute(p, axis), axis) == p,
        in_bounds(unpermute(p, axis), shape),
{
    let n = shape.len();
    let u = unpermute(p, axis);
    assert forall|j: int| 0 <= j < n implies #[trigger] u[j] < shape[j] by {
        lemma_permutation_onto(axis, n, j);
        let k = position_of(axis, j);
        assert(p[k] < permute(shape, axis)[k]);
    }
    assert forall|k: int| 0 <= k < n implies #[trigger] permute(u, axis)[k] == p[k] by {
        let j = axis[k] as int;
        lemma_permutation_onto(axis, n, j);
        let k2 = position_of(axis, j);
        if k2 < k {
            assert(axis[k2] != axis[k]);
        } else if k < k2 {
            assert(axis[k] != axis[k2]);
        }
    }
    assert(permute(u, axis) =~= p);
}

/// Removing a dimension divides the size by that dimension, and reduced
/// shapes keep that size.
#[verifier::spinoff_prover]
pub proof fn lemma_without_axis(shape: Seq<usize>, axis: int, keep_shape: bool)
    requires
        all_positive(shape),
        0 <= axis < shape.len(),
    ensures
        all_positive(without_axis(shape, axis)),
        product(without_axis(shape, axis)) * (shape[axis] as nat) == product(shape),
        all_positive(reduced(shape, axis, keep_shape)),
        product(reduced(shape, axis, keep_shape)) == product(without_axis(shape, axis)),
        without_axis(shape, axis).len() + 1 >= shape.len(),
        keep_shape ==> reduced(shape, axis, keep_shape).len() == shape.len(),
{
    lemma_product_remove(shape, axis);
    let w = without_axis(shape, axis);
    if shape.remove(axis).len() == 0 {
        assert(shape.remove(axis) =~= Seq::<usize>::empty());
        lemma_product_single(w);
    }
    assert(all_positive(w)) by {
        assert forall|i: int| 0 <= i < w.len() implies #[trigger] w[i] > 0 by {
            if shape.remove(axis).len() > 0 {
                let src = if i < axis {
                    i
                } else {
                    i + 1
                };
                assert(w[i] == shape[src]);
            }
        }
    }
    let u = shape.update(axis, 1);
    lemma_product_remove(u, axis);
    assert(u.remove(axis) =~= shape.remove(axis));
    assert(all_positive(u)) by {
        assert forall|i: int| 0 <= i < u.len() implies #[trigger] u[i] > 0 by {
            if i != axis {
                assert(u[i] == shape[i]);
            }
        }
    }
    assert(u[axis] == 1);
    assert(product(u) == product(u.remove(axis)) * 1);
    assert(u.remove(axis) == shape.remove(axis));
    let pr = product(u.remove(axis));
    assert(pr * 1 == pr) by (nonlinear_arith);
    assert(pr == product(shape.remove(axis)));
    assert(product(u) == product(shape.remove(axis)));
    if shape.remove(axis).len() == 0 {
        assert(product(shape.remove(axis)) == 1);
        assert(product(w) == 1);
    } else {
        assert(w == shape.remove(axis));
    }
    assert(product(u) == product(w));
    if keep_shape {
        assert(reduced(shape, axis, keep_shape) == u);
    } else {
        assert(reduced(shape, axis, keep_shape) == w);
    }
}

/// Inserting an in-range coordinate into an index of the reduced shape gives
/// an index of the full shape.
pub proof fn lemma_with_axis_in_bounds(out: Seq<usize>, shape: Seq<usize>, axis: int, a: usize)
    requires
        0 <= axis < shape.len(),
        in_bounds(out, without_axis(shape, axis)),
        a < shape[axis],
    ensures
        in_bounds(with_axis(out, shape.len(), axis, a), shape),
{
    let w = with_axis(out, shape.len(), axis, a);
    assert forall|i: int| 0 <= i < w.len() implies #[trigger] w[i] < shape[i] by {
        if i < axis {
            assert(out[i] < without_axis(shape, axis)[i]);
            assert(shape.remove(axis)[i] == shape[i]);
        } else if i > axis {
            assert(out[i - 1] < without_axis(shape, axis)[i - 1]);
            assert(shape.remove(axis)[i - 1] == shape[i]);
        }
    }
}

/// The inverse of a permutation is a permutation, and permuting by a
/// permutation and then by its inverse restores every sequence.
pub proof fn lemma_inverse_permutation(axis: Seq<usize>, n: nat)
    requires
        is_permutation(axis, n),
        n <= usize::MAX,
    ensures
        is_permutation(inverse_permutation(axis), n),
        forall|k: int| 0 <= k < n ==> #[trigger] inverse_permutation(axis)[axis[k] as int] == k,
        forall|s: Seq<usize>|
            s.len() == n ==> #[trigger] permute(permute(s, axis), inverse_permutation(axis)) == s,
{
    let inv = inverse_permutation(axis);
    assert forall|j: int| 0 <= j < n implies #[trigger] axis[inv[j] as int] == j && inv[j] < n by {
        lemma_permutation_onto(axis, n, j);
        assert(inv[j] as int == position_of(axis, j));
    }
    assert forall|k: int| 0 <= k < n implies #[trigger] inv[axis[k] as int] == k by {
        let j = axis[k] as int;
        let k2 = inv[j] as int;
        assert(axis[k2] == j);
        if k2 < k {
            assert(axis[k2] != axis[k]);
        } else if k < k2 {
            assert(axis[k] != axis[k2]);
        }
    }
    assert forall|a: int, b: int| 0 <= a < b < n implies #[trigger] inv[a] != #[trigger] inv[b] by {
        assert(axis[inv[a] as int] == a);
        assert(axis[inv[b] as int] == b);
    }
    assert forall|j: int| 0 <= j < inv.len() implies #[trigger] inv[j] < n by {
        assert(axis[inv[j] as int] == j);
    }
    assert(is_permutation(inv, n));
    assert forall|s: Seq<usize>| s.len() == n implies #[trigger] permute(permute(s, axis), inv)
        == s by {
        assert forall|j: int| 0 <= j < n implies permute(permute(s, axis), inv)[j] == s[j] by {
            assert(axis[inv[j] as int] == j);
        }
        assert(permute(permute(s, axis), inv) =~= s);
    }
}

/// Exchanging the last two positions is a permutation that is its own
/// inverse, and permuting by it exchanges the last two entries.
pub proof fn lemma_swap_axes(n: nat)
    requires
        n >= 2,
        n <= usize::MAX,
    ensures
        is_permutation(swap_axes(n), n),
        inverse_permutation(swap_axes(n)) == swap_axes(n),
        forall|s: Seq<usize>| s.len() == n ==> #[trigger] permute(s, swap_axes(n)) == swap_last_two(s),
{
    let w = swap_axes(n);
    assert(is_permutation(w, n));
    lemma_inverse_permutation(w, n);
    let inv = inverse_permutation(w);
    assert forall|j: int| 0 <= j < n implies inv[j] == w[j] by {
        assert(inv[w[j] as int] == j);
        assert(w[w[j] as int] == j);
        let a = inv[j] as int;
        let b = w[j] as int;
        assert(w[a] == j);
        assert(w[b] == j);
        if a < b {
            assert(w[a] != w[b]);
        } else if b < a {
            assert(w[b] != w[a]);
        }
    }
    assert(inv =~= w);
    assert forall|s: Seq<usize>| s.len() == n implies #[trigger] permute(s, w) == swap_last_two(s) by {
        assert(permute(s, w) =~= swap_last_two(s));
    }
}

/// Broadcasting a shape without zero dimensions with itself gives the same
/// shape, and every index reads itself.
pub proof fn lemma_broadcast_same_shape(shape: Seq<usize>)
    requires
        all_positive(shape),
    ensures
        broadcastable(shape, shape),
        broadcast_shape(shape, shape) == shape,
        forall|index: Seq<usize>|
            in_bounds(index, shape) ==> #[trigger] broadcast_source(index, shape) == index,
{
    assert(broadcast_shape(shape, shape) =~= shape);
    assert forall|index: Seq<usize>| in_bounds(index, shape) implies #[trigger] broadcast_source(
        index,
        shape,
    ) == index by {
        assert(broadcast_source(index, shape) =~= index);
    }
}

/// An index of a shape reads, through broadcasting, an index inside every
/// shape that broadcasts to it.
pub proof fn lemma_broadcast_source_into(index: Seq<usize>, target: Seq<usize>, shape: Seq<usize>)
    requires
        broadcasts_to(target, shape),
        all_positive(target),
        in_bounds(index, shape),
    ensures
        in_bounds(broadcast_source(index, target), target),
{
    let src = broadcast_source(index, target);
    assert forall|i: int| 0 <= i < target.len() implies #[trigger] src[i] < target[i] by {
        let j = shape.len() - target.len() + i;
        assert(index[j] < shape[j]);
    }
}

/// The broadcast of two compatible shapes, aligned from the right: it has
/// the larger rank, every dimension other than `1` of either shape appears at
/// its aligned position, and a position where neither shape has a dimension
/// other than `1` has size `1`.
pub proof fn lemma_broadcast_shape_aligned(lhs: Seq<usize>, rhs: Seq<usize>)
    requires
        broadcastable(lhs, rhs),
        all_positive(lhs),
        all_positive(rhs),
    ensures
        broadcast_shape(lhs, rhs).len() == if lhs.len() >= rhs.len() {
            lhs.len()
        } else {
            rhs.len()
        },
        forall|i: int|
            0 <= i < lhs.len() && lhs[i] != 1 ==> #[trigger] broadcast_shape(lhs, rhs)[broadcast_shape(
                lhs,
                rhs,
            ).len() - lhs.len() + i] == lhs[i],
        forall|i: int|
            0 <= i < rhs.len() && rhs[i] != 1 ==> #[trigger] broadcast_shape(lhs, rhs)[broadcast_shape(
                lhs,
                rhs,
            ).len() - rhs.len() + i] == rhs[i],
        forall|k: int|
            0 <= k < broadcast_shape(lhs, rhs).len() && (k < broadcast_shape(lhs, rhs).len() - lhs.len()
                || lhs[k - (broadcast_shape(lhs, rhs).len() - lhs.len())] == 1) && (k
                < broadcast_shape(lhs, rhs).len() - rhs.len() || rhs[k - (broadcast_shape(
                lhs,
                rhs,
            ).len() - rhs.len())] == 1) ==> #[trigger] broadcast_shape(lhs, rhs)[k] == 1,
{
    let out = broadcast_shape(lhs, rhs);
    let rank = broadcast_rank(lhs, rhs);
    assert forall|i: int| 0 <= i < lhs.len() && lhs[i] != 1 implies #[trigger] out[rank - lhs.len() + i]
        == lhs[i] by {
        let r = lhs.len() - 1 - i;
        assert(dim_from_right(lhs, r) == lhs[i]);
        assert(dims_compatible(dim_from_right(lhs, r), dim_from_right(rhs, r)));
        if r < rhs.len() {
            assert(rhs[rhs.len() - 1 - r] > 0);
        }
    }
    assert forall|i: int| 0 <= i < rhs.len() && rhs[i] != 1 implies #[trigger] out[rank - rhs.len() + i]
        == rhs[i] by {
        let r = rhs.len() - 1 - i;
        assert(dim_from_right(rhs, r) == rhs[i]);
        assert(dims_compatible(dim_from_right(lhs, r), dim_from_right(rhs, r)));
        if r < lhs.len() {
            assert(lhs[lhs.len() - 1 - r] > 0);
        }
    }
}

/// Removing an axis keeps the other dimensions in order; reducing with the
/// axis kept sets it to `1` and changes nothing else.
pub proof fn lemma_axis_removed(shape: Seq<usize>, axis: int)
    requires
        0 <= axis < shape.len(),
        shape.len() >= 2,
    ensures
        without_axis(shape, axis).len() == shape.len() - 1,
        forall|i: int| 0 <= i < axis ==> #[trigger] without_axis(shape, axis)[i] == shape[i],
        forall|i: int| axis <= i < shape.len() - 1 ==> #[trigger] without_axis(shape, axis)[i] == shape[i + 1],
        reduced(shape, axis, false) == without_axis(shape, axis),
        reduced(shape, axis, true).len() == shape.len(),
        reduced(shape, axis, true)[axis] == 1,
        forall|i: int| 0 <= i < shape.len() && i != axis ==> #[trigger] reduced(shape, axis, true)[i] == shape[i],
{
}

/// Inserting a coordinate at an axis and taking the reduction index of the
/// result are inverse: the inserted coordinate sits at the axis, the other
/// coordinates keep their order, and the reduction index without the axis
/// gives the index back.
pub proof fn lemma_axis_inserted(o: Seq<usize>, axis: int, a: usize)
    requires
        0 <= axis <= o.len(),
        o.len() >= 1,
    ensures
        with_axis(o, o.len() + 1, axis, a).len() == o.len() + 1,
        with_axis(o, o.len() + 1, axis, a)[axis] == a,
        with_axis(o, o.len() + 1, axis, a).remove(axis) == o,
        reduced_index(with_axis(o, o.len() + 1, axis, a), axis, false) == o,
        reduced_index(with_axis(o, o.len() + 1, axis, a), axis, true) == with_axis(o, o.len() + 1, axis, 0),
{
    let w = with_axis(o, o.len() + 1, axis, a);
    assert(w.remove(axis) =~= o);
    assert(w.update(axis, 0) =~= with_axis(o, o.len() + 1, axis, 0));
}

/// Broadcasting aligns dimensions from the right, whatever the difference in
/// rank: coordinate `i` of the index an operand is read at is the output
/// coordinate aligned with dimension `i`, or `0` where the operand has size
/// `1`; missing leading dimensions read nothing.
pub proof fn lemma_broadcast_reads_aligned(out: Seq<usize>, in_shape: Seq<usize>)
    requires
        in_shape.len() <= out.len(),
    ensures
        broadcast_source(out, in_shape).len() == in_shape.len(),
        forall|i: int|
            0 <= i < in_shape.len() && in_shape[i] != 1 ==> #[trigger] broadcast_source(out, in_shape)[i]
                == out[out.len() - in_shape.len() + i],
        forall|i: int|
            0 <= i < in_shape.len() && in_shape[i] == 1 ==> #[trigger] broadcast_source(out, in_shape)[i]
                == 0,
{
}

/// A reduction output index of an in-bounds index is inside the reduced
/// shape.
pub proof fn lemma_reduced_index_in_bounds(
    index: Seq<usize>,
    shape: Seq<usize>,
    axis: int,
    keep_shape: bool,
)
    requires
        0 <= axis < shape.len(),
        all_positive(shape),
        in_bounds(index, shape),
    ensures
        in_bounds(reduced_index(index, axis, keep_shape), reduced(shape, axis, keep_shape)),
{
    let r = reduced_index(index, axis, keep_shape);
    let s = reduced(shape, axis, keep_shape);
    if keep_shape {
        assert forall|i: int| 0 <= i < r.len() implies #[trigger] r[i] < s[i] by {
            if i != axis {
                assert(index[i] < shape[i]);
            }
        }
    } else if shape.len() == 1 {
        assert(r =~= seq![0usize]);
        assert(index.remove(axis).len() == 0);
        assert(shape.remove(axis).len() == 0);
        assert(s =~= seq![1usize]);
    } else {
        assert(r == index.remove(axis));
        assert(s == shape.remove(axis));
        assert forall|i: int| 0 <= i < r.len() implies #[trigger] r[i] < s[i] by {
            let src = if i < axis {
                i
            } else {
                i + 1
            };
            assert(index[src] < shape[src]);
        }
    }
}

// ---------------------------------------------------------------------------
// Index checks and conversions
// ---------------------------------------------------------------------------

/// Checks that `index` has the rank of `shape` and lies inside every
/// dimension, reporting the first problem found.
pub fn validate_index(index: &[usize], shape: &[usize]) -> (r: Result<(), TensorError>)
    ensures
        r == index_check(index@, shape@),
{
    if index.len() != shape.len() {
        return Err(TensorError::ShapeMismatch { expected: index.len(), actual: shape.len() });
    }
    let n = index.len();
    let mut i: usize = 0;
    while i < n
        invariant
            n == index@.len(),
            n == shape@.len(),
            i <= n,
            forall|j: int| 0 <= j < i ==> #[trigger] index@[j] < shape@[j],
        decreases n - i,
    {
        if index[i] >= shape[i] {
            proof {
                assert(is_first_violation(index@, shape@, i as int));
                let c = choose|c: int| is_first_violation(index@, shape@, c);
                if c < i {
                    assert(index@[c] < shape@[c]);
                } else if c > i {
                    assert(index@[i as int] < shape@[i as int]);
                }
                assert(c == i);
            }
            return Err(TensorError::OutOfBounds { bound: shape[i], index: index[i] });
        }
        i = i + 1;
    }
    Ok(())
}

/// Storage position of `index` in a strided layout, after checking the index
/// against `shape`.
pub fn get_flat_index(index: &[usize], shape: &[usize], strides: &[usize], offset: usize) -> (r:
    Result<usize, TensorError>)
    requires
        strides@.len() == shape@.len(),
        all_positive(shape@),
        max_position(shape@, strides@, offset) <= usize::MAX,
    ensures
        match index_check(index@, shape@) {
            Ok(_) => r == Ok::<usize, TensorError>((offset + dot(index@, strides@)) as usize),
            Err(e) => r == Err::<usize, TensorError>(e),
        },
        r is Ok ==> offset + dot(index@, strides@) <= max_position(shape@, strides@, offset),
{
    match validate_index(index, shape) {
        Ok(()) => {
            proof {
                lemma_position_bound(index@, shape@, strides@);
            }
            Ok(flat_index_for_strides(index, strides, offset))
        },
        Err(e) => Err(e),
    }
}

/// The multidimensional index whose row-major position in `shape` is `flat`.
pub fn unravel_index(flat: usize, shape: &[usize]) -> (r: Vec<usize>)
    requires
        all_positive(shape@),
    ensures
        r@ == unravel(flat as nat, shape@),
{
    let n = shape.len();
    let mut result: Vec<usize> = Vec::new();
    let mut k: usize = 0;
    while k < n
        invariant
            k <= n,
            result@.len() == k,
        decreases n - k,
    {
        result.push(0);
        k = k + 1;
    }
    let ghost u = unravel(flat as nat, shape@);
    proof {
        lemma_unravel_len(flat as nat, shape@);
        assert(shape@.subrange(n as int, n as int).len() == 0);
        assert(trailing_product(shape@, n - 1) == 1);
        assert((flat as nat) / 1 == flat as nat);
    }
    let mut f: usize = flat;
    let mut i: usize = n;
    while i > 0
        invariant
            n == shape@.len(),
            i <= n,
            result@.len() == n,
            u == unravel(flat as nat, shape@),
            u.len() == n,
            all_positive(shape@),
            f == (flat as nat) / trailing_product(shape@, i - 1),
            forall|j: int| i <= j < n ==> #[trigger] result@[j] == u[j],
        decreases i,
    {
        let d = i - 1;
        proof {
            lemma_unravel_component(flat as nat, shape@, d as int);
            lemma_trailing_step(shape@, d as int);
            assert(shape@[d as int] > 0);
            lemma_trailing_product_bound(shape@, d as int);
            lemma_div_denominator(
                flat as int,
                trailing_product(shape@, d as int) as int,
                shape@[d as int] as int,
            );
            let a = shape@[d as int] as nat;
            let b = trailing_product(shape@, d as int);
            assert(a * b == b * a) by (nonlinear_arith);
        }
        result.set(d, f % shape[d]);
        f = f / shape[d];
        i = d;
    }
    proof {
        assert(result@ =~= u);
    }
    result
}

/// Row-major position of an in-bounds `index` within `shape`.
pub fn ravel_index(index: &[usize], shape: &[usize]) -> (r: usize)
    requires
        in_bounds(index@, shape@),
        all_positive(shape@),
        product(shape@) <= usize::MAX,
    ensures
        r == ravel(index@, shape@),
{
    let strides = strides_for_shape(shape);
    proof {
        lemma_dot_row_major(index@, shape@, strides@);
        lemma_ravel_bound(index@, shape@);
    }
    flat_index_for_strides(index, &strides, 0)
}

/// Shape produced by broadcasting `lhs` and `rhs` together, or the first pair
/// of conflicting dimensions counted from the right.
pub fn get_broadcast_shape(lhs: &[usize], rhs: &[usize]) -> (r: Result<Vec<usize>, TensorError>)
    ensures
        match r {
            Ok(v) => broadcastable(lhs@, rhs@) && v@ == broadcast_shape(lhs@, rhs@),
            Err(e) => !broadcastable(lhs@, rhs@) && e == broadcast_error(lhs@, rhs@),
        },
{
    let rank = if lhs.len() >= rhs.len() {
        lhs.len()
    } else {
        rhs.len()
    };
    let mut result: Vec<usize> = Vec::new();
    let mut k: usize = 0;
    while k < rank
        invariant
            k <= rank,
            result@.len() == k,
        decreases rank - k,
    {
        result.push(1);
        k = k + 1;
    }
    let mut i: usize = 0;
    while i < rank
        invariant
            rank == broadcast_rank(lhs@, rhs@),
            i <= rank,
            result@.len() == rank,
            forall|j: int|
                0 <= j < i ==> dims_compatible(
                    #[trigger] dim_from_right(lhs@, j),
                    dim_from_right(rhs@, j),
                ),
            forall|k: int|
                rank - i <= k < rank ==> #[trigger] result@[k] == broadcast_shape(lhs@, rhs@)[k],
        decreases rank - i,
    {
        let lhs_dim = if i < lhs.len() {
            lhs[lhs.len() - 1 - i]
        } else {
            1
        };
        let rhs_dim = if i < rhs.len() {
            rhs[rhs.len() - 1 - i]
        } else {
            1
        };
        assert(lhs_dim == dim_from_right(lhs@, i as int));
        assert(rhs_dim == dim_from_right(rhs@, i as int));
        if lhs_dim == rhs_dim || lhs_dim == 1 || rhs_dim == 1 {
            let m = if lhs_dim >= rhs_dim {
                lhs_dim
            } else {
                rhs_dim
            };
            result.set(rank - 1 - i, m);
        } else {
            proof {
                assert(is_first_mismatch(lhs@, rhs@, i as int));
                let c = choose|c: int| is_first_mismatch(lhs@, rhs@, c);
                if c < i {
                    assert(dims_compatible(dim_from_right(lhs@, c), dim_from_right(rhs@, c)));
                } else if c > i {
                    assert(dims_compatible(
                        dim_from_right(lhs@, i as int),
                        dim_from_right(rhs@, i as int),
                    ));
                }
                assert(c == i);
            }
            return Err(TensorError::ShapeMismatch { expected: lhs_dim, actual: rhs_dim });
        }
        i = i + 1;
    }
    proof {
        assert(result@ =~= broadcast_shape(lhs@, rhs@));
    }
    Ok(result)
}

/// Maps an index of a broadcast result back into an operand of shape
/// `input_shape`: size-`1` dimensions read position `0`.
pub fn broadcast_index(output_index: &[usize], input_shape: &[usize]) -> (r: Vec<usize>)
    requires
        output_index@.len() >= input_shape@.len(),
    ensures
        r@ == broadcast_source(output_index@, input_shape@),
{
    let total = output_index.len();
    let offset = total - input_shape.len();
    let n = input_shape.len();
    let mut result: Vec<usize> = Vec::new();
    let mut i: usize = 0;
    while i < n
        invariant
            n == input_shape@.len(),
            offset + n == total,
            total == output_index@.len(),
            i <= n,
            result@.len() == i,
            forall|j: int|
                0 <= j < i ==> #[trigger] result@[j] == broadcast_source(
                    output_index@,
                    input_shape@,
                )[j],
        decreases n - i,
    {
        if input_shape[i] == 1 {
            result.push(0);
        } else {
            result.push(output_index[offset + i]);
        }
        i = i + 1;
    }
    proof {
        assert(result@ =~= broadcast_source(output_index@, input_shape@));
    }
    result
}

/// `shape` with dimension `axis` removed, or `[1]` when nothing would remain.
pub fn shape_without_axis(shape: &[usize], axis: usize) -> (r: Vec<usize>)
    ensures
        r@ == without_axis(shape@, axis as int),
{
    let n = shape.len();
    let mut result: Vec<usize> = Vec::new();
    let mut i: usize = 0;
    let ghost s = if axis < n {
        shape@.remove(axis as int)
    } else {
        shape@
    };
    while i < n
        invariant
            n == shape@.len(),
            i <= n,
            s == (if axis < n {
                shape@.remove(axis as int)
            } else {
                shape@
            }),
            result@ == s.subrange(
                0,
                if axis < i {
                    i - 1
                } else {
                    i as int
                },
            ),
        decreases n - i,
    {
        if i != axis {
            proof {
                let k = if axis < i {
                    i - 1
                } else {
                    i as int
                };
                assert(s[k] == shape@[i as int]);
                assert(s.subrange(0, k + 1) =~= s.subrange(0, k).push(s[k]));
            }
            result.push(shape[i]);
        }
        i = i + 1;
    }
    proof {
        assert(result@ =~= s);
    }
    if result.len() == 0 {
        result.push(1);
        proof {
            assert(result@ =~= seq![1usize]);
        }
    }
    result
}

/// Output shape of a reduction along `axis`.
pub fn reduced_shape(shape: &[usize], axis: usize, keep_shape: bool) -> (r: Vec<usize>)
    requires
        axis < shape@.len(),
    ensures
        r@ == reduced(shape@, axis as int, keep_shape),
{
    if keep_shape {
        let mut result: Vec<usize> = Vec::new();
        let n = shape.len();
        let mut i: usize = 0;
        while i < n
            invariant
                n == shape@.len(),
                i <= n,
                result@ == shape@.subrange(0, i as int),
            decreases n - i,
        {
            result.push(shape[i]);
            proof {
                assert(result@ =~= shape@.subrange(0, i + 1));
            }
            i = i + 1;
        }
        result.set(axis, 1);
        proof {
            assert(result@ =~= shape@.update(axis as int, 1));
        }
        result
    } else {
        shape_without_axis(shape, axis)
    }
}

/// Index of rank `input_rank` formed by inserting `axis_index` at `axis` into
/// `index`.
pub fn index_with_axis(index: &[usize], input_rank: usize, axis: usize, axis_index: usize) -> (r:
    Vec<usize>)
    requires
        axis < input_rank ==> index@.len() + 1 >= input_rank,
        axis >= input_rank ==> index@.len() >= input_rank,
    ensures
        r@ == with_axis(index@, input_rank as nat, axis as int, axis_index),
{
    let mut result: Vec<usize> = Vec::new();
    let mut index_position: usize = 0;
    let mut i: usize = 0;
    while i < input_rank
        invariant
            i <= input_rank,
            axis < input_rank ==> index@.len() + 1 >= input_rank,
            axis >= input_rank ==> index@.len() >= input_rank,
            index_position == (if axis < i {
                i - 1
            } else {
                i as int
            }),
            result@ == with_axis(index@, input_rank as nat, axis as int, axis_index).subrange(
                0,
                i as int,
            ),
        decreases input_rank - i,
    {
        if i == axis {
            result.push(axis_index);
        } else {
            result.push(index[index_position]);
            index_position = index_position + 1;
        }
        proof {
            assert(result@ =~= with_axis(
                index@,
                input_rank as nat,
                axis as int,
                axis_index,
            ).subrange(0, i + 1));
        }
        i = i + 1;
    }
    proof {
        assert(result@ =~= with_axis(index@, input_rank as nat, axis as int, axis_index));
    }
    result
}

/// Index of the reduction output that collects input `input_index`.
pub fn reduced_output_index(input_index: &[usize], axis: usize, keep_shape: bool) -> (r: Vec<
    usize,
>)
    requires
        keep_shape ==> axis < input_index@.len(),
    ensures
        r@ == reduced_index(input_index@, axis as int, keep_shape),
{
    if keep_shape {
        let mut result: Vec<usize> = Vec::new();
        let n = input_index.len();
        let mut i: usize = 0;
        while i < n
            invariant
                n == input_index@.len(),
                i <= n,
                result@ == input_index@.subrange(0, i as int),
            decreases n - i,
        {
            result.push(input_index[i]);
            proof {
                assert(result@ =~= input_index@.subrange(0, i + 1));
            }
            i = i + 1;
        }
        result.set(axis, 0);
        proof {
            assert(result@ =~= input_index@.update(axis as int, 0));
        }
        result
    } else {
        let mut result = shape_without_axis(input_index, axis);
        if input_index.len() == 0 || (input_index.len() == 1 && axis == 0) {
            result.set(0, 0);
            proof {
                assert(result@ =~= seq![0usize]);
            }
        }
        result
    }
}

/// The permutation that undoes `axis`: `r[axis[k]] == k` for every `k`.
pub fn inverse_axes(axis: &[usize]) -> (r: Vec<usize>)
    requires
        is_permutation(axis@, axis@.len()),
    ensures
        r@ == inverse_permutation(axis@),
{
    let n = axis.len();
    let mut r: Vec<usize> = Vec::new();
    let mut k: usize = 0;
    while k < n
        invariant
            k <= n,
            r@.len() == k,
        decreases n - k,
    {
        r.push(0);
        k = k + 1;
    }
    proof {
        lemma_inverse_permutation(axis@, n as nat);
    }
    let mut i: usize = 0;
    while i < n
        invariant
            n == axis@.len(),
            is_permutation(axis@, n as nat),
            forall|k: int| 0 <= k < n ==> #[trigger] inverse_permutation(axis@)[axis@[k] as int] == k,
            i <= n,
            r@.len() == n,
            forall|k: int| 0 <= k < i ==> #[trigger] r@[axis@[k] as int] == k,
        decreases n - i,
    {
        r.set(axis[i], i);
        proof {
            assert forall|k: int| 0 <= k < i + 1 implies #[trigger] r@[axis@[k] as int] == k by {
                if k < i {
                    assert(axis@[k] != axis@[i as int]);
                }
            }
        }
        i = i + 1;
    }
    proof {
        assert forall|j: int| 0 <= j < n implies r@[j] == inverse_permutation(axis@)[j] by {
            lemma_permutation_onto(axis@, n as nat, j);
            let k = position_of(axis@, j);
            assert(r@[axis@[k] as int] == k);
        }
        assert(r@ =~= inverse_permutation(axis@));
    }
    r
}

/// Whether every entry of `axis` is below `rank` and no entry repeats.
pub fn valid_axes(axis: &[usize], rank: usize) -> (r: bool)
    ensures
        r == distinct_axes(axis@, rank as nat),
{
    let mut seen: Vec<bool> = Vec::new();
    let mut k: usize = 0;
    while k < rank
        invariant
            k <= rank,
            seen@.len() == k,
            forall|j: int| 0 <= j < k ==> !#[trigger] seen@[j],
        decreases rank - k,
    {
        seen.push(false);
        k = k + 1;
    }
    let n = axis.len();
    let mut i: usize = 0;
    while i < n
        invariant
            n == axis@.len(),
            i <= n,
            seen@.len() == rank,
            forall|j: int| 0 <= j < i ==> #[trigger] axis@[j] < rank,
            forall|a: int, b: int| 0 <= a < b < i ==> #[trigger] axis@[a] != #[trigger] axis@[b],
            forall|v: int|
                0 <= v < rank ==> (#[trigger] seen@[v] <==> exists|j: int|
                    0 <= j < i && axis@[j] == v),
        decreases n - i,
    {
        let a = axis[i];
        if a >= rank {
            return false;
        }
        if seen[a] {
            proof {
                let j = choose|j: int| 0 <= j < i && axis@[j] == a;
                assert(axis@[j] == axis@[i as int]);
            }
            return false;
        }
        seen.set(a, true);
        proof {
            assert forall|v: int| 0 <= v < rank implies (#[trigger] seen@[v] <==> exists|j: int|
                0 <= j < i + 1 && axis@[j] == v) by {
                if v == a {
                    assert(axis@[i as int] == v);
                } else if seen@[v] {
                    let j = choose|j: int| 0 <= j < i && axis@[j] == v;
                    assert(0 <= j < i + 1 && axis@[j] == v);
                }
            }
        }
        i = i + 1;
    }
    true
}

} // verus!
