//! Strided tensors.
//!
//! A tensor stores its elements in a flat buffer and reads them through a
//! shape, one stride per dimension and an offset. Fresh tensors are
//! contiguous in row-major order; a transposed tensor keeps the buffer of its
//! source and only permutes shape and strides.
use vstd::prelude::*;
pub use crate::error::TensorError;
use crate::layout::{
    all_positive, dot, in_bounds, index_check, is_row_major, last_index, max_position, product,
    ravel, unravel, element_count, get_flat_index, strides_for_shape, lemma_dot_row_major,
    lemma_position_bound, lemma_ravel_bound, lemma_ravel_injective,
    lemma_unravel_in_bounds, lemma_unravel_ravel, lemma_unravel_len, distinct_axes, permute,
    unpermute, is_permutation, swap_last_two, lemma_product_permute, lemma_dot_permute,
    lemma_unpermute, flat_index_for_strides, unravel_index, broadcastable, broadcast_shape,
    broadcast_source, get_broadcast_shape, broadcast_index, lemma_broadcast_source_in_bounds,
    lemma_broadcast_symmetric, lemma_broadcast_shape_positive, without_axis, with_axis, reduced,
    shape_without_axis, reduced_shape, index_with_axis, lemma_without_axis,
    lemma_with_axis_in_bounds, inverse_permutation, swap_axes, lemma_inverse_permutation,
    lemma_swap_axes, broadcasts_to, reduced_index, lemma_broadcast_source_into,
    lemma_reduced_index_in_bounds, reduced_output_index, ravel_index,
};


verus! {

/// `accs` records a left fold of `s` with `f` from `init`: it starts at
/// `init` and each step is a possible result of `f` on the previous
/// accumulator and the next element.
pub open spec fn fold_trace<T, F: Fn(T, T) -> T>(f: F, init: T, s: Seq<T>, accs: Seq<T>) -> bool {
    &&& accs.len() == s.len() + 1
    &&& accs[0] == init
    &&& forall|i: int| 0 <= i < s.len() ==> #[trigger] f.ensures((accs[i], s[i]), accs[i + 1])
}

/// `r` is a possible result of folding `s` from the left with `f`, starting
/// from `init`: `f(...f(f(init, s[0]), s[1])..., s[n - 1])`.
pub open spec fn folds_to<T, F: Fn(T, T) -> T>(f: F, init: T, s: Seq<T>, r: T) -> bool {
    exists|accs: Seq<T>| #[trigger] fold_trace(f, init, s, accs) && accs.last() == r
}

/// Folding no element gives the initial value.
pub proof fn lemma_folds_to_empty<T, F: Fn(T, T) -> T>(f: F, init: T, s: Seq<T>)
    requires
        s.len() == 0,
    ensures
        folds_to(f, init, s, init),
{
    let accs = seq![init];
    assert(fold_trace(f, init, s, accs));
}

/// Extending a fold by one element.
pub proof fn lemma_folds_to_push<T, F: Fn(T, T) -> T>(f: F, init: T, s: Seq<T>, a: T, x: T, r: T)
    requires
        folds_to(f, init, s, a),
        f.ensures((a, x), r),
    ensures
        folds_to(f, init, s.push(x), r),
{
    let accs = choose|accs: Seq<T>| #[trigger] fold_trace(f, init, s, accs) && accs.last() == a;
    let next = accs.push(r);
    let t = s.push(x);
    assert forall|i: int| 0 <= i < t.len() implies #[trigger] f.ensures((next[i], t[i]), next[i + 1]) by {
        if i < s.len() {
            assert(f.ensures((accs[i], s[i]), accs[i + 1]));
        }
    }
    assert(fold_trace(f, init, t, next));
}

/// Dense tensor of elements `T`, read through a strided layout.
pub struct Tensor<T> {
    shape: Vec<usize>,
    data: Vec<T>,
    strides: Vec<usize>,
    offset: usize,
}

impl<T> Tensor<T> {
    /// Dimensions of the tensor.
    pub closed spec fn dims(&self) -> Seq<usize> {
        self.shape@
    }

    /// Storage position read by `index`.
    pub closed spec fn position(&self, index: Seq<usize>) -> nat {
        (self.offset + dot(index, self.strides@)) as nat
    }

    /// The element at the multidimensional `index`.
    pub closed spec fn at(&self, index: Seq<usize>) -> T {
        self.data@[self.position(index) as int]
    }

    /// All elements in logical row-major order.
    pub closed spec fn elems(&self) -> Seq<T> {
        Seq::new(product(self.dims()), |i: int| self.at(unravel(i as nat, self.dims())))
    }

    /// The layout is consistent: one stride per dimension, no empty
    /// dimension, a size that fits in `usize`, every index inside the buffer,
    /// and distinct indices at distinct storage positions.
    pub closed spec fn wf(&self) -> bool {
        &&& self.strides@.len() == self.shape@.len()
        &&& all_positive(self.shape@)
        &&& product(self.shape@) <= usize::MAX
        &&& max_position(self.shape@, self.strides@, self.offset) < self.data@.len()
        &&& self.data@.len() <= usize::MAX
        &&& forall|a: Seq<usize>, b: Seq<usize>|
            in_bounds(a, self.shape@) && in_bounds(b, self.shape@) && #[trigger] dot(
                a,
                self.strides@,
            ) == #[trigger] dot(b, self.strides@) ==> a == b
    }

    /// The buffer holds exactly the elements, in row-major order.
    pub closed spec fn is_contiguous(&self) -> bool {
        &&& is_row_major(self.shape@, self.strides@)
        &&& self.offset == 0
        &&& self.data@.len() == product(self.shape@)
    }

    /// `self` is `source` with its axes reordered by `axis`: output axis `k`
    /// is input axis `axis[k]`, and the element at `index` of `source` sits
    /// at `permute(index, axis)`.
    pub open spec fn is_transpose_of(&self, source: Self, axis: Seq<usize>) -> bool {
        &&& self.wf()
        &&& self.dims() == permute(source.dims(), axis)
        &&& forall|index: Seq<usize>|
            in_bounds(index, source.dims()) ==> #[trigger] self.at(permute(index, axis))
                == source.at(index)
    }

    /// Reading the logical sequence at the row-major position of an index
    /// gives the element at that index.
    pub proof fn lemma_elems(&self)
        requires
            self.wf(),
        ensures
            self.elems().len() == product(self.dims()),
            forall|index: Seq<usize>|
                in_bounds(index, self.dims()) ==> #[trigger] ravel(index, self.dims()) < product(
                    self.dims(),
                ),
            forall|index: Seq<usize>|
                in_bounds(index, self.dims()) ==> #[trigger] self.elems()[ravel(
                    index,
                    self.dims(),
                ) as int] == self.at(index),
    {
        assert forall|index: Seq<usize>| in_bounds(index, self.dims()) implies #[trigger] ravel(
            index,
            self.dims(),
        ) < product(self.dims()) by {
            lemma_ravel_bound(index, self.dims());
        }
        assert forall|index: Seq<usize>| in_bounds(index, self.dims()) implies #[trigger] self.elems()[ravel(
            index,
            self.dims(),
        ) as int] == self.at(index) by {
            lemma_ravel_bound(index, self.dims());
            lemma_unravel_ravel(index, self.dims());
        }
    }

    /// Every in-bounds index reads a position inside the buffer.
    proof fn lemma_position_in_buffer(&self, index: Seq<usize>)
        requires
            self.wf(),
            in_bounds(index, self.shape@),
        ensures
            self.position(index) <= max_position(self.shape@, self.strides@, self.offset),
            self.position(index) < self.data@.len(),
    {
        lemma_position_bound(index, self.shape@, self.strides@);
    }

    /// A contiguous tensor of `shape` over `data`.
    fn contiguous(shape: Vec<usize>, data: Vec<T>) -> (r: Self)
        requires
            all_positive(shape@),
            product(shape@) == data@.len(),
            product(shape@) <= usize::MAX,
        ensures
            r.wf(),
            r.is_contiguous(),
            r.dims() == shape@,
            r.elems() == data@,
    {
        let strides = strides_for_shape(&shape);
        let r = Tensor { shape, data, strides, offset: 0 };
        proof {
            let s = r.shape@;
            lemma_dot_row_major(last_index(s), s, r.strides@);
            assert(in_bounds(last_index(s), s));
            lemma_ravel_bound(last_index(s), s);
            assert forall|a: Seq<usize>, b: Seq<usize>|
                in_bounds(a, s) && in_bounds(b, s) && #[trigger] dot(a, r.strides@) == #[trigger] dot(
                    b,
                    r.strides@,
                ) implies a == b by {
                lemma_dot_row_major(a, s, r.strides@);
                lemma_dot_row_major(b, s, r.strides@);
                lemma_ravel_injective(a, b, s);
            }
            assert forall|i: int| 0 <= i < product(s) implies #[trigger] r.elems()[i] == r.data@[i] by {
                lemma_unravel_in_bounds(i as nat, s);
                lemma_dot_row_major(unravel(i as nat, s), s, r.strides@);
            }
            assert(r.elems() =~= r.data@);
        }
        r
    }

    /// Creates a tensor from an explicit shape and row-major data buffer.
    ///
    /// Every dimension must be non-zero, and the product of all dimensions in
    /// `shape` must equal `data.len()`.
    pub fn new(shape: Vec<usize>, data: Vec<T>) -> (r: Result<Self, TensorError>)
        requires
            product(shape@) <= usize::MAX,
        ensures
            !all_positive(shape@) ==> r == Err::<Self, TensorError>(TensorError::EmptyDimension),
            all_positive(shape@) && product(shape@) != data@.len() ==> r == Err::<
                Self,
                TensorError,
            >(
                TensorError::InvalidShape {
                    expected: product(shape@) as usize,
                    actual: data@.len() as usize,
                },
            ),
            all_positive(shape@) && product(shape@) == data@.len() ==> r is Ok,
            r matches Ok(t) ==> t.wf() && t.is_contiguous() && t.dims() == shape@ && t.elems()
                == data@,
    {
        let n = shape.len();
        let mut i: usize = 0;
        while i < n
            invariant
                n == shape@.len(),
                i <= n,
                forall|j: int| 0 <= j < i ==> #[trigger] shape@[j] > 0,
            decreases n - i,
        {
            if shape[i] == 0 {
                return Err(TensorError::EmptyDimension);
            }
            i = i + 1;
        }
        let expected = match element_count(&shape) {
            Some(count) => count,
            None => 0,
        };
        if expected != data.len() {
            return Err(TensorError::InvalidShape { expected, actual: data.len() });
        }
        Ok(Tensor::contiguous(shape, data))
    }

    /// Number of dimensions.
    pub fn rank(&self) -> (r: usize)
        ensures
            r == self.dims().len(),
    {
        self.shape.len()
    }

    /// The dimensions of the tensor.
    pub fn shape(&self) -> (r: &[usize])
        ensures
            r@ == self.dims(),
    {
        self.shape.as_slice()
    }

    /// `self` is `before` with the element at `index` replaced by `value`:
    /// same layout, and the buffer differs only at the position of `index`.
    pub closed spec fn is_write_of(&self, before: Self, index: Seq<usize>, value: T) -> bool {
        &&& self.shape@ == before.shape@
        &&& self.strides@ == before.strides@
        &&& self.offset == before.offset
        &&& self.data@ == before.data@.update(before.position(index) as int, value)
    }

    /// A write keeps the layout and changes exactly the written element.
    pub proof fn lemma_write(&self, before: Self, index: Seq<usize>, value: T)
        requires
            before.wf(),
            in_bounds(index, before.dims()),
            self.is_write_of(before, index, value),
        ensures
            self.wf(),
            self.dims() == before.dims(),
            self.at(index) == value,
            self.elems() == before.elems().update(ravel(index, before.dims()) as int, value),
    {
        let s = before.shape@;
        before.lemma_position_in_buffer(index);
        lemma_ravel_bound(index, s);
        assert forall|i: int| 0 <= i < product(s) implies #[trigger] self.elems()[i]
            == before.elems().update(ravel(index, s) as int, value)[i] by {
            let u = unravel(i as nat, s);
            lemma_unravel_in_bounds(i as nat, s);
            before.lemma_position_in_buffer(u);
            if i == ravel(index, s) {
                lemma_unravel_ravel(index, s);
            } else {
                if dot(u, before.strides@) == dot(index, before.strides@) {
                    assert(u == index);
                }
            }
        }
        assert(self.elems() =~= before.elems().update(ravel(index, s) as int, value));
    }

    /// Returns a mutable reference to the element at `index`.
    pub fn get_mut(&mut self, index: &[usize]) -> (r: Result<&mut T, TensorError>)
        requires
            old(self).wf(),
        ensures
            match index_check(index@, old(self).dims()) {
                Ok(_) => r matches Ok(v) && *v == old(self).at(index@) && final(self).is_write_of(
                    *old(self),
                    index@,
                    *final(v),
                ),
                Err(e) => r matches Err(e2) && e2 == e && *final(self) == *old(self),
            },
    {
        match get_flat_index(index, &self.shape, &self.strides, self.offset) {
            Ok(flat) => {
                proof {
                    lemma_position_bound(index@, self.shape@, self.strides@);
                }
                Ok(&mut self.data[flat])
            },
            Err(e) => Err(e),
        }
    }
}

/// A copy of `v`.
fn copy_vec<T: Copy>(v: &Vec<T>) -> (r: Vec<T>)
    ensures
        r@ == v@,
{
    let n = v.len();
    let mut r: Vec<T> = Vec::new();
    let mut i: usize = 0;
    while i < n
        invariant
            n == v@.len(),
            i <= n,
            r@ == v@.subrange(0, i as int),
        decreases n - i,
    {
        r.push(v[i]);
        proof {
            assert(r@ =~= v@.subrange(0, i + 1));
        }
        i = i + 1;
    }
    proof {
        assert(r@ =~= v@);
    }
    r
}

/// A copy of the slice `v`.
fn copy_slice(v: &[usize]) -> (r: Vec<usize>)
    ensures
        r@ == v@,
{
    let n = v.len();
    let mut r: Vec<usize> = Vec::new();
    let mut i: usize = 0;
    while i < n
        invariant
            n == v@.len(),
            i <= n,
            r@ == v@.subrange(0, i as int),
        decreases n - i,
    {
        r.push(v[i]);
        proof {
            assert(r@ =~= v@.subrange(0, i + 1));
        }
        i = i + 1;
    }
    proof {
        assert(r@ =~= v@);
    }
    r
}

impl<T: Copy> Tensor<T> {
    /// Creates a tensor where every element is `x`.
    pub fn full(shape: Vec<usize>, x: T) -> (r: Result<Self, TensorError>)
        requires
            product(shape@) <= usize::MAX,
        ensures
            !all_positive(shape@) ==> r == Err::<Self, TensorError>(TensorError::EmptyDimension),
            all_positive(shape@) ==> r is Ok,
            r matches Ok(t) ==> t.wf() && t.is_contiguous() && t.dims() == shape@ && t.elems()
                == Seq::new(product(shape@), |i: int| x),
    {
        let size = match element_count(&shape) {
            Some(count) => count,
            None => 0,
        };
        let mut data: Vec<T> = Vec::new();
        let mut i: usize = 0;
        while i < size
            invariant
                i <= size,
                data@ == Seq::new(i as nat, |j: int| x),
            decreases size - i,
        {
            data.push(x);
            proof {
                assert(data@ =~= Seq::new((i + 1) as nat, |j: int| x));
            }
            i = i + 1;
        }
        Tensor::new(shape, data)
    }

    /// Returns the element at `index`.
    pub fn get(&self, index: &[usize]) -> (r: Result<T, TensorError>)
        requires
            self.wf(),
        ensures
            match index_check(index@, self.dims()) {
                Ok(_) => r == Ok::<T, TensorError>(self.at(index@)),
                Err(e) => r == Err::<T, TensorError>(e),
            },
    {
        match get_flat_index(index, &self.shape, &self.strides, self.offset) {
            Ok(flat) => {
                proof {
                    lemma_position_bound(index@, self.shape@, self.strides@);
                }
                Ok(self.data[flat])
            },
            Err(e) => Err(e),
        }
    }

    /// Storage position of the element at row-major position `i`.
    fn logical_flat_index(&self, i: usize) -> (r: usize)
        requires
            self.wf(),
            i < product(self.dims()),
        ensures
            r == self.position(unravel(i as nat, self.dims())),
            r < self.data@.len(),
            in_bounds(unravel(i as nat, self.dims()), self.dims()),
    {
        let index = unravel_index(i, &self.shape);
        proof {
            lemma_unravel_in_bounds(i as nat, self.shape@);
            self.lemma_position_in_buffer(index@);
        }
        flat_index_for_strides(&index, &self.strides, self.offset)
    }

    /// The elements in logical row-major order, whatever the layout.
    pub fn values(&self) -> (r: Vec<T>)
        requires
            self.wf(),
        ensures
            r@ == self.elems(),
    {
        let size = match element_count(&self.shape) {
            Some(count) => count,
            None => 0,
        };
        let mut r: Vec<T> = Vec::new();
        let mut i: usize = 0;
        while i < size
            invariant
                self.wf(),
                size == product(self.dims()),
                i <= size,
                r@ == self.elems().subrange(0, i as int),
            decreases size - i,
        {
            let flat = self.logical_flat_index(i);
            r.push(self.data[flat]);
            proof {
                assert(r@ =~= self.elems().subrange(0, i + 1));
            }
            i = i + 1;
        }
        proof {
            assert(r@ =~= self.elems());
        }
        r
    }

    /// Transposes the tensor by reordering axes.
    ///
    /// Output axis `k` is input axis `axis[k]`. This is a view: the buffer and
    /// offset are kept and only the shape and the strides are permuted, so
    /// every element is read from the storage position it had before.
    pub fn transpose(&self, axis: &[usize]) -> (r: Self)
        requires
            self.wf(),
            self.dims().len() >= 2,
            axis@.len() == self.dims().len(),
            distinct_axes(axis@, self.dims().len()),
        ensures
            r.wf(),
            r.is_transpose_of(*self, axis@),
            r.dims() == permute(self.dims(), axis@),
            forall|index: Seq<usize>|
                in_bounds(index, self.dims()) ==> #[trigger] in_bounds(
                    permute(index, axis@),
                    r.dims(),
                ),
            forall|index: Seq<usize>|
                in_bounds(index, self.dims()) ==> #[trigger] r.at(permute(index, axis@))
                    == self.at(index),
            forall|index: Seq<usize>|
                in_bounds(index, self.dims()) ==> #[trigger] r.position(permute(index, axis@))
                    == self.position(index),
    {
        let rank = self.shape.len();
        let mut new_shape: Vec<usize> = Vec::new();
        let mut new_strides: Vec<usize> = Vec::new();
        let mut i: usize = 0;
        while i < rank
            invariant
                self.wf(),
                rank == self.shape@.len(),
                axis@.len() == rank,
                distinct_axes(axis@, rank as nat),
                i <= rank,
                new_shape@ == permute(self.shape@, axis@).subrange(0, i as int),
                new_strides@ == permute(self.strides@, axis@).subrange(0, i as int),
            decreases rank - i,
        {
            let a = axis[i];
            new_shape.push(self.shape[a]);
            new_strides.push(self.strides[a]);
            proof {
                assert(new_shape@ =~= permute(self.shape@, axis@).subrange(0, i + 1));
                assert(new_strides@ =~= permute(self.strides@, axis@).subrange(0, i + 1));
            }
            i = i + 1;
        }
        proof {
            assert(new_shape@ =~= permute(self.shape@, axis@));
            assert(new_strides@ =~= permute(self.strides@, axis@));
        }
        let r = Tensor {
            shape: new_shape,
            data: copy_vec(&self.data),
            strides: new_strides,
            offset: self.offset,
        };
        proof {
            let s = self.shape@;
            let ax = axis@;
            assert(is_permutation(ax, s.len()));
            lemma_product_permute(s, ax);
            assert(all_positive(r.shape@)) by {
                assert forall|k: int| 0 <= k < r.shape@.len() implies #[trigger] r.shape@[k] > 0 by {
                    assert(s[ax[k] as int] > 0);
                }
            }
            assert(last_index(r.shape@) =~= permute(last_index(s), ax));
            lemma_dot_permute(last_index(s), self.strides@, ax);
            assert forall|a: Seq<usize>, b: Seq<usize>|
                in_bounds(a, r.shape@) && in_bounds(b, r.shape@) && #[trigger] dot(a, r.strides@)
                    == #[trigger] dot(b, r.strides@) implies a == b by {
                lemma_unpermute(a, s, ax);
                lemma_unpermute(b, s, ax);
                lemma_dot_permute(unpermute(a, ax), self.strides@, ax);
                lemma_dot_permute(unpermute(b, ax), self.strides@, ax);
            }
            assert forall|index: Seq<usize>| in_bounds(index, self.dims()) implies r.position(
                permute(index, axis@),
            ) == self.position(index) by {
                lemma_dot_permute(index, self.strides@, ax);
            }
        }
        r
    }

    /// Transposes the final two dimensions.
    pub fn t(&self) -> (r: Self)
        requires
            self.wf(),
            self.dims().len() >= 2,
        ensures
            r.wf(),
            r.is_transpose_of(*self, swap_axes(self.dims().len())),
            r.dims() == swap_last_two(self.dims()),
            forall|index: Seq<usize>|
                in_bounds(index, self.dims()) ==> in_bounds(swap_last_two(index), r.dims())
                    && #[trigger] r.at(swap_last_two(index)) == self.at(index),
    {
        let rank = self.shape.len();
        let mut axis: Vec<usize> = Vec::new();
        let mut i: usize = 0;
        while i < rank
            invariant
                i <= rank,
                axis@ == Seq::new(i as nat, |j: int| j as usize),
            decreases rank - i,
        {
            axis.push(i);
            proof {
                assert(axis@ =~= Seq::new((i + 1) as nat, |j: int| j as usize));
            }
            i = i + 1;
        }
        axis.set(rank - 2, rank - 1);
        axis.set(rank - 1, rank - 2);
        let ghost ax = axis@;
        proof {
            assert forall|k: int| 0 <= k < rank implies #[trigger] ax[k] == (if k == rank - 2 {
                rank - 1
            } else if k == rank - 1 {
                rank - 2
            } else {
                k
            }) by {}
            assert(distinct_axes(ax, rank as nat));
            assert forall|x: Seq<usize>| x.len() == rank implies #[trigger] permute(x, ax)
                == swap_last_two(x) by {
                assert(permute(x, ax) =~= swap_last_two(x));
            }
            assert(permute(self.dims(), ax) == swap_last_two(self.dims()));
        }
        let r = self.transpose(&axis);
        proof {
            assert(ax =~= swap_axes(rank as nat));
            assert forall|index: Seq<usize>| in_bounds(index, self.dims()) implies in_bounds(
                swap_last_two(index),
                r.dims(),
            ) && #[trigger] r.at(swap_last_two(index)) == self.at(index) by {
                assert(permute(index, ax) == swap_last_two(index));
            }
        }
        r
    }
}

impl<T: Copy> Tensor<T> {
    /// Applies `f` to every element and returns a contiguous result tensor.
    ///
    /// Values are read in logical order, so this works for strided views
    /// such as transposed tensors.
    pub fn map<F: Fn(T) -> T>(&self, f: F) -> (r: Self)
        requires
            self.wf(),
            forall|x: T| #[trigger] f.requires((x,)),
        ensures
            r.wf(),
            r.is_contiguous(),
            r.dims() == self.dims(),
            forall|i: int|
                0 <= i < self.elems().len() ==> #[trigger] f.ensures((self.elems()[i],), r.elems()[i]),
    {
        let size = match element_count(&self.shape) {
            Some(count) => count,
            None => 0,
        };
        let mut result: Vec<T> = Vec::new();
        let mut i: usize = 0;
        while i < size
            invariant
                self.wf(),
                size == product(self.dims()),
                forall|x: T| #[trigger] f.requires((x,)),
                i <= size,
                result@.len() == i,
                forall|j: int| 0 <= j < i ==> #[trigger] f.ensures((self.elems()[j],), result@[j]),
            decreases size - i,
        {
            let flat = self.logical_flat_index(i);
            let y = f(self.data[flat]);
            result.push(y);
            i = i + 1;
        }
        Tensor::contiguous(copy_vec(&self.shape), result)
    }

    /// Combines two tensors elementwise with broadcasting: output index `o`
    /// gets `f` applied to the operand elements that `o` broadcasts from.
    pub fn elementwise<F: Fn(T, T) -> T>(lhs: &Self, rhs: &Self, f: F) -> (r: Self)
        requires
            lhs.wf(),
            rhs.wf(),
            broadcastable(lhs.dims(), rhs.dims()),
            product(broadcast_shape(lhs.dims(), rhs.dims())) <= usize::MAX,
            forall|x: T, y: T| #[trigger] f.requires((x, y)),
        ensures
            r.wf(),
            r.is_contiguous(),
            r.dims() == broadcast_shape(lhs.dims(), rhs.dims()),
            forall|index: Seq<usize>|
                in_bounds(index, r.dims()) ==> #[trigger] f.ensures(
                    (
                        lhs.at(broadcast_source(index, lhs.dims())),
                        rhs.at(broadcast_source(index, rhs.dims())),
                    ),
                    r.at(index),
                ),
    {
        let output_shape = match get_broadcast_shape(&lhs.shape, &rhs.shape) {
            Ok(s) => s,
            Err(_) => Vec::new(),
        };
        let ghost out = output_shape@;
        proof {
            lemma_broadcast_shape_positive(lhs.shape@, rhs.shape@);
            lemma_broadcast_symmetric(lhs.shape@, rhs.shape@);
        }
        let size = match element_count(&output_shape) {
            Some(count) => count,
            None => 0,
        };
        let mut result: Vec<T> = Vec::new();
        let mut i: usize = 0;
        while i < size
            invariant
                lhs.wf(),
                rhs.wf(),
                broadcastable(lhs.dims(), rhs.dims()),
                broadcastable(rhs.dims(), lhs.dims()),
                out == broadcast_shape(lhs.dims(), rhs.dims()),
                out == broadcast_shape(rhs.dims(), lhs.dims()),
                output_shape@ == out,
                all_positive(out),
                size == product(out),
                forall|x: T, y: T| #[trigger] f.requires((x, y)),
                i <= size,
                result@.len() == i,
                forall|j: int|
                    0 <= j < i ==> #[trigger] f.ensures(
                        (
                            lhs.at(broadcast_source(unravel(j as nat, out), lhs.dims())),
                            rhs.at(broadcast_source(unravel(j as nat, out), rhs.dims())),
                        ),
                        result@[j],
                    ),
            decreases size - i,
        {
            let output_index = unravel_index(i, &output_shape);
            proof {
                lemma_unravel_in_bounds(i as nat, out);
                lemma_unravel_len(i as nat, out);
                lemma_broadcast_source_in_bounds(output_index@, lhs.shape@, rhs.shape@);
                lemma_broadcast_source_in_bounds(output_index@, rhs.shape@, lhs.shape@);
            }
            let lhs_index = broadcast_index(&output_index, &lhs.shape);
            let rhs_index = broadcast_index(&output_index, &rhs.shape);
            proof {
                lhs.lemma_position_in_buffer(lhs_index@);
                rhs.lemma_position_in_buffer(rhs_index@);
            }
            let lhs_flat = flat_index_for_strides(&lhs_index, &lhs.strides, lhs.offset);
            let rhs_flat = flat_index_for_strides(&rhs_index, &rhs.strides, rhs.offset);
            let y = f(lhs.data[lhs_flat], rhs.data[rhs_flat]);
            result.push(y);
            i = i + 1;
        }
        let r = Tensor::contiguous(output_shape, result);
        proof {
            r.lemma_elems();
            assert forall|index: Seq<usize>| in_bounds(index, r.dims()) implies #[trigger] f.ensures(
                (
                    lhs.at(broadcast_source(index, lhs.dims())),
                    rhs.at(broadcast_source(index, rhs.dims())),
                ),
                r.at(index),
            ) by {
                lemma_unravel_ravel(index, out);
                assert(r.elems()[ravel(index, out) as int] == r.at(index));
            }
        }
        r
    }

    /// Folds all elements in logical order with `f`, starting from `init`.
    pub fn fold<F: Fn(T, T) -> T>(&self, init: T, f: F) -> (r: T)
        requires
            self.wf(),
            forall|x: T, y: T| #[trigger] f.requires((x, y)),
        ensures
            folds_to(f, init, self.elems(), r),
    {
        let size = match element_count(&self.shape) {
            Some(count) => count,
            None => 0,
        };
        let mut acc = init;
        proof {
            lemma_folds_to_empty(f, init, self.elems().subrange(0, 0));
        }
        let mut i: usize = 0;
        while i < size
            invariant
                self.wf(),
                size == product(self.dims()),
                forall|x: T, y: T| #[trigger] f.requires((x, y)),
                i <= size,
                folds_to(f, init, self.elems().subrange(0, i as int), acc),
            decreases size - i,
        {
            let flat = self.logical_flat_index(i);
            let next = f(acc, self.data[flat]);
            proof {
                lemma_folds_to_push(
                    f,
                    init,
                    self.elems().subrange(0, i as int),
                    acc,
                    self.elems()[i as int],
                    next,
                );
                assert(self.elems().subrange(0, i as int).push(self.elems()[i as int])
                    =~= self.elems().subrange(0, i + 1));
            }
            acc = next;
            i = i + 1;
        }
        proof {
            assert(self.elems().subrange(0, size as int) =~= self.elems());
        }
        acc
    }

    /// Folds every element into a one-element tensor of shape `[1]`.
    pub fn reduce<F: Fn(T, T) -> T>(&self, init: T, f: F) -> (r: Self)
        requires
            self.wf(),
            forall|x: T, y: T| #[trigger] f.requires((x, y)),
        ensures
            r.wf(),
            r.is_contiguous(),
            r.dims() == seq![1usize],
            folds_to(f, init, self.elems(), r.elems()[0]),
    {
        let value = self.fold(init, f);
        let mut shape: Vec<usize> = Vec::new();
        shape.push(1);
        let mut data: Vec<T> = Vec::new();
        data.push(value);
        proof {
            crate::layout::lemma_product_single(shape@);
            assert(shape@ =~= seq![1usize]);
        }
        Tensor::contiguous(shape, data)
    }
}

/// The elements that a reduction along `axis` collects into output position
/// `k`, in order along the axis.
pub open spec fn axis_group<T>(t: Tensor<T>, axis: int, k: nat) -> Seq<T> {
    Seq::new(
        t.dims()[axis] as nat,
        |a: int|
            t.at(
                with_axis(
                    unravel(k, without_axis(t.dims(), axis)),
                    t.dims().len(),
                    axis,
                    a as usize,
                ),
            ),
    )
}

/// A reduction along `axis` groups the elements by their index with the axis
/// removed: the group at the row-major position of an index `o` of the
/// remaining dimensions holds the elements at `o` with each coordinate `a` of
/// the axis inserted, in increasing `a`.
pub proof fn lemma_axis_group_members<T>(t: Tensor<T>, axis: int, o: Seq<usize>)
    requires
        0 <= axis < t.dims().len(),
        in_bounds(o, without_axis(t.dims(), axis)),
    ensures
        ravel(o, without_axis(t.dims(), axis)) < product(without_axis(t.dims(), axis)),
        axis_group(t, axis, ravel(o, without_axis(t.dims(), axis))).len() == t.dims()[axis],
        forall|a: int|
            0 <= a < t.dims()[axis] ==> #[trigger] axis_group(t, axis, ravel(o, without_axis(t.dims(), axis)))[a]
                == t.at(with_axis(o, t.dims().len(), axis, a as usize)),
{
    let w = without_axis(t.dims(), axis);
    lemma_ravel_bound(o, w);
    lemma_unravel_ravel(o, w);
}

impl<T: Copy> Tensor<T> {
    /// Element at `with_axis(out, rank, axis, a)`, for an in-range output
    /// index and axis coordinate.
    fn read_along_axis(&self, output_index: &Vec<usize>, axis: usize, a: usize) -> (r: T)
        requires
            self.wf(),
            axis < self.dims().len(),
            in_bounds(output_index@, without_axis(self.dims(), axis as int)),
            a < self.dims()[axis as int],
        ensures
            r == self.at(with_axis(output_index@, self.dims().len(), axis as int, a)),
    {
        proof {
            lemma_without_axis(self.shape@, axis as int, false);
            lemma_with_axis_in_bounds(output_index@, self.shape@, axis as int, a);
        }
        let input_index = index_with_axis(output_index, self.shape.len(), axis, a);
        proof {
            self.lemma_position_in_buffer(input_index@);
        }
        let flat = flat_index_for_strides(&input_index, &self.strides, self.offset);
        self.data[flat]
    }

    /// Folds the elements along `axis` with `f`, starting from `init`.
    ///
    /// If `keep_shape` is true, the reduced axis remains in the output shape
    /// with size `1`; otherwise the axis is removed (a rank-one tensor
    /// reduces to shape `[1]`).
    pub fn reduce_axis<F: Fn(T, T) -> T>(&self, axis: usize, keep_shape: bool, init: T, f: F) -> (r:
        Self)
        requires
            self.wf(),
            axis < self.dims().len(),
            forall|x: T, y: T| #[trigger] f.requires((x, y)),
        ensures
            r.wf(),
            r.is_contiguous(),
            r.dims() == reduced(self.dims(), axis as int, keep_shape),
            r.elems().len() == product(without_axis(self.dims(), axis as int)),
            forall|k: int|
                0 <= k < r.elems().len() ==> #[trigger] folds_to(
                    f,
                    init,
                    axis_group(*self, axis as int, k as nat),
                    r.elems()[k],
                ),
    {
        let without = shape_without_axis(&self.shape, axis);
        let output_shape = reduced_shape(&self.shape, axis, keep_shape);
        proof {
            lemma_without_axis(self.shape@, axis as int, keep_shape);
            assert(product(without@) <= product(self.shape@)) by (nonlinear_arith)
                requires
                    product(without@) * (self.shape@[axis as int] as nat) == product(self.shape@),
                    self.shape@[axis as int] > 0,
            ;
        }
        let output_size = match element_count(&without) {
            Some(count) => count,
            None => 0,
        };
        let d = self.shape[axis];
        let mut result: Vec<T> = Vec::new();
        let mut k: usize = 0;
        while k < output_size
            invariant
                self.wf(),
                axis < self.dims().len(),
                d == self.dims()[axis as int],
                without@ == without_axis(self.dims(), axis as int),
                all_positive(without@),
                output_size == product(without@),
                forall|x: T, y: T| #[trigger] f.requires((x, y)),
                k <= output_size,
                result@.len() == k,
                forall|j: int|
                    0 <= j < k ==> #[trigger] folds_to(
                        f,
                        init,
                        axis_group(*self, axis as int, j as nat),
                        result@[j],
                    ),
            decreases output_size - k,
        {
            let output_index = unravel_index(k, &without);
            proof {
                lemma_unravel_in_bounds(k as nat, without@);
            }
            let ghost group = axis_group(*self, axis as int, k as nat);
            let mut acc = init;
            proof {
                lemma_folds_to_empty(f, init, group.subrange(0, 0));
            }
            let mut a: usize = 0;
            while a < d
                invariant
                    self.wf(),
                    axis < self.dims().len(),
                    d == self.dims()[axis as int],
                    in_bounds(output_index@, without_axis(self.dims(), axis as int)),
                    output_index@ == unravel(k as nat, without_axis(self.dims(), axis as int)),
                    group == axis_group(*self, axis as int, k as nat),
                    forall|x: T, y: T| #[trigger] f.requires((x, y)),
                    a <= d,
                    folds_to(f, init, group.subrange(0, a as int), acc),
                decreases d - a,
            {
                let value = self.read_along_axis(&output_index, axis, a);
                let next = f(acc, value);
                proof {
                    lemma_folds_to_push(f, init, group.subrange(0, a as int), acc, value, next);
                    assert(group.subrange(0, a as int).push(value) =~= group.subrange(0, a + 1));
                }
                acc = next;
                a = a + 1;
            }
            proof {
                assert(group.subrange(0, d as int) =~= group);
            }
            result.push(acc);
            k = k + 1;
        }
        Tensor::contiguous(output_shape, result)
    }

    /// Every element paired with the index of the reduction output along
    /// `axis` that collects it, grouped by output position and in order along
    /// the axis: with `d` the size of the axis, entry `p` holds the output
    /// index for position `p / d` and the element at coordinate `p % d` of
    /// the axis.
    pub fn axis_entries(&self, axis: usize) -> (r: Vec<(Vec<usize>, T)>)
        requires
            self.wf(),
            axis < self.dims().len(),
        ensures
            r@.len() == product(self.dims()),
            forall|p: int|
                0 <= p < r@.len() ==> (#[trigger] r@[p]).0@ == unravel(
                    (p / (self.dims()[axis as int] as int)) as nat,
                    without_axis(self.dims(), axis as int),
                ) && r@[p].1 == axis_group(
                    *self,
                    axis as int,
                    (p / (self.dims()[axis as int] as int)) as nat,
                )[p % (self.dims()[axis as int] as int)],
    {
        let without = shape_without_axis(&self.shape, axis);
        proof {
            lemma_without_axis(self.shape@, axis as int, false);
            assert(product(without@) <= product(self.shape@)) by (nonlinear_arith)
                requires
                    product(without@) * (self.shape@[axis as int] as nat) == product(self.shape@),
                    self.shape@[axis as int] > 0,
            ;
        }
        let output_size = match element_count(&without) {
            Some(count) => count,
            None => 0,
        };
        let d = self.shape[axis];
        let ghost dn = d as int;
        let mut result: Vec<(Vec<usize>, T)> = Vec::new();
        let mut k: usize = 0;
        while k < output_size
            invariant
                self.wf(),
                axis < self.dims().len(),
                d == self.dims()[axis as int],
                dn == d,
                d > 0,
                without@ == without_axis(self.dims(), axis as int),
                all_positive(without@),
                output_size == product(without@),
                output_size * d == product(self.dims()),
                k <= output_size,
                result@.len() == k * d,
                forall|p: int|
                    0 <= p < result@.len() ==> (#[trigger] result@[p]).0@ == unravel(
                        (p / dn) as nat,
                        without@,
                    ) && result@[p].1 == axis_group(*self, axis as int, (p / dn) as nat)[p % dn],
            decreases output_size - k,
        {
            let output_index = unravel_index(k, &without);
            proof {
                lemma_unravel_in_bounds(k as nat, without@);
                assert(k * d + d == (k + 1) * d) by (nonlinear_arith);
                assert((k + 1) * d <= output_size * d) by (nonlinear_arith)
                    requires
                        k + 1 <= output_size,
                ;
            }
            let mut a: usize = 0;
            while a < d
                invariant
                    self.wf(),
                    axis < self.dims().len(),
                    d == self.dims()[axis as int],
                    dn == d,
                    d > 0,
                    in_bounds(output_index@, without_axis(self.dims(), axis as int)),
                    output_index@ == unravel(k as nat, without@),
                    without@ == without_axis(self.dims(), axis as int),
                    a <= d,
                    (k + 1) * d <= output_size * d,
                    output_size * d == product(self.dims()),
                    result@.len() == k * d + a,
                    forall|p: int|
                        0 <= p < result@.len() ==> (#[trigger] result@[p]).0@ == unravel(
                            (p / dn) as nat,
                            without@,
                        ) && result@[p].1 == axis_group(*self, axis as int, (p / dn) as nat)[p
                            % dn],
                decreases d - a,
            {
                let value = self.read_along_axis(&output_index, axis, a);
                let index_copy = copy_vec(&output_index);
                proof {
                    vstd::arithmetic::div_mod::lemma_fundamental_div_mod_converse(
                        k * dn + a,
                        dn,
                        k as int,
                        a as int,
                    );
                }
                result.push((index_copy, value));
                a = a + 1;
            }
            proof {
                assert(k * d + d == (k + 1) * d) by (nonlinear_arith);
            }
            k = k + 1;
        }
        result
    }
}

/// `accs` records the accumulation of `f(acc, xs[i], ys[i])` over the pairs
/// of `xs` and `ys`, starting from `init`.
pub open spec fn pair_fold_trace<T, F: Fn(T, T, T) -> T>(
    f: F,
    init: T,
    xs: Seq<T>,
    ys: Seq<T>,
    accs: Seq<T>,
) -> bool {
    &&& xs.len() == ys.len()
    &&& accs.len() == xs.len() + 1
    &&& accs[0] == init
    &&& forall|i: int|
        0 <= i < xs.len() ==> #[trigger] f.ensures((accs[i], xs[i], ys[i]), accs[i + 1])
}

/// `r` is a possible result of accumulating `f(acc, xs[i], ys[i])` over all
/// pairs in order, starting from `init`.
pub open spec fn pair_folds_to<T, F: Fn(T, T, T) -> T>(
    f: F,
    init: T,
    xs: Seq<T>,
    ys: Seq<T>,
    r: T,
) -> bool {
    exists|accs: Seq<T>| #[trigger] pair_fold_trace(f, init, xs, ys, accs) && accs.last() == r
}

/// Accumulating over no pair gives the initial value.
pub proof fn lemma_pair_folds_to_empty<T, F: Fn(T, T, T) -> T>(
    f: F,
    init: T,
    xs: Seq<T>,
    ys: Seq<T>,
)
    requires
        xs.len() == 0,
        ys.len() == 0,
    ensures
        pair_folds_to(f, init, xs, ys, init),
{
    assert(pair_fold_trace(f, init, xs, ys, seq![init]));
}

/// Extending an accumulation by one pair.
pub proof fn lemma_pair_folds_to_push<T, F: Fn(T, T, T) -> T>(
    f: F,
    init: T,
    xs: Seq<T>,
    ys: Seq<T>,
    a: T,
    x: T,
    y: T,
    r: T,
)
    requires
        pair_folds_to(f, init, xs, ys, a),
        f.ensures((a, x, y), r),
    ensures
        pair_folds_to(f, init, xs.push(x), ys.push(y), r),
{
    let accs = choose|accs: Seq<T>| #[trigger]
        pair_fold_trace(f, init, xs, ys, accs) && accs.last() == a;
    let next = accs.push(r);
    let tx = xs.push(x);
    let ty = ys.push(y);
    assert forall|i: int| 0 <= i < tx.len() implies #[trigger] f.ensures(
        (next[i], tx[i], ty[i]),
        next[i + 1],
    ) by {
        if i < xs.len() {
            assert(f.ensures((accs[i], xs[i], ys[i]), accs[i + 1]));
        }
    }
    assert(pair_fold_trace(f, init, tx, ty, next));
}

/// The leading (batch) dimensions of a shape: all but the last two.
pub open spec fn batch_dims(shape: Seq<usize>) -> Seq<usize> {
    shape.subrange(0, shape.len() - 2)
}

/// Both shapes hold matrices in their last two dimensions, their batch
/// dimensions broadcast, and the inner matrix dimensions agree.
pub open spec fn matmul_compatible(lhs: Seq<usize>, rhs: Seq<usize>) -> bool {
    &&& lhs.len() >= 2
    &&& rhs.len() >= 2
    &&& broadcastable(batch_dims(lhs), batch_dims(rhs))
    &&& lhs[lhs.len() - 1] == rhs[rhs.len() - 2]
}

/// Shape of a batched matrix product: the broadcast batch dimensions, then
/// the rows of `lhs` and the columns of `rhs`.
pub open spec fn matmul_shape(lhs: Seq<usize>, rhs: Seq<usize>) -> Seq<usize> {
    broadcast_shape(batch_dims(lhs), batch_dims(rhs)).push(lhs[lhs.len() - 2]).push(
        rhs[rhs.len() - 1],
    )
}

/// Row `i` of the matrix at batch index `batch`.
pub open spec fn row_of<T>(t: Tensor<T>, batch: Seq<usize>, i: usize) -> Seq<T> {
    Seq::new(t.dims().last() as nat, |k: int| t.at(batch.push(i).push(k as usize)))
}

/// Column `j` of the matrix at batch index `batch`.
pub open spec fn column_of<T>(t: Tensor<T>, batch: Seq<usize>, j: usize) -> Seq<T> {
    Seq::new(t.dims()[t.dims().len() - 2] as nat, |k: int| t.at(batch.push(k as usize).push(j)))
}

/// The entry of a matrix product at batch index `b`, row `i`, column `j`
/// is `v`: the accumulation of `step` over row `i` of the `lhs` matrix and
/// column `j` of the `rhs` matrix that batch `b` broadcasts from.
pub open spec fn is_product_entry<T, F: Fn(T, T, T) -> T>(
    lhs: Tensor<T>,
    rhs: Tensor<T>,
    zero: T,
    step: F,
    b: Seq<usize>,
    i: usize,
    j: usize,
    v: T,
) -> bool {
    pair_folds_to(
        step,
        zero,
        row_of(lhs, broadcast_source(b, batch_dims(lhs.dims())), i),
        column_of(rhs, broadcast_source(b, batch_dims(rhs.dims())), j),
        v,
    )
}

/// The shape of a batched matrix product: the batch dimensions of the two
/// operands (all but their last two) broadcast together, then the rows of
/// the left matrix, then the columns of the right one.
pub proof fn lemma_product_shape(lhs: Seq<usize>, rhs: Seq<usize>)
    requires
        lhs.len() >= 2,
        rhs.len() >= 2,
    ensures
        matmul_shape(lhs, rhs).len() == broadcast_shape(
            lhs.subrange(0, lhs.len() - 2),
            rhs.subrange(0, rhs.len() - 2),
        ).len() + 2,
        matmul_shape(lhs, rhs).subrange(0, matmul_shape(lhs, rhs).len() - 2) == broadcast_shape(
            lhs.subrange(0, lhs.len() - 2),
            rhs.subrange(0, rhs.len() - 2),
        ),
        matmul_shape(lhs, rhs)[matmul_shape(lhs, rhs).len() - 2] == lhs[lhs.len() - 2],
        matmul_shape(lhs, rhs)[matmul_shape(lhs, rhs).len() - 1] == rhs[rhs.len() - 1],
{
    let m = matmul_shape(lhs, rhs);
    assert(m.subrange(0, m.len() - 2) =~= broadcast_shape(
        lhs.subrange(0, lhs.len() - 2),
        rhs.subrange(0, rhs.len() - 2),
    ));
}

/// Entry `(b, i, j)` of a batched matrix product accumulates, over `k` in
/// order, the pairs `lhs[lb, i, k]` and `rhs[rb, k, j]`, where `lb` and `rb`
/// are the batch indices of the operands that `b` reads through
/// broadcasting: row `i` itself of the left matrix against column `j` itself
/// of the right one, whatever the matrix shapes.
pub proof fn lemma_product_entry_reads<T, F: Fn(T, T, T) -> T>(
    lhs: Tensor<T>,
    rhs: Tensor<T>,
    zero: T,
    step: F,
    b: Seq<usize>,
    i: usize,
    j: usize,
    v: T,
)
    ensures
        is_product_entry(lhs, rhs, zero, step, b, i, j, v) <==> pair_folds_to(
            step,
            zero,
            Seq::new(
                lhs.dims().last() as nat,
                |k: int| lhs.at(broadcast_source(b, batch_dims(lhs.dims())).push(i).push(k as usize)),
            ),
            Seq::new(
                rhs.dims()[rhs.dims().len() - 2] as nat,
                |k: int| rhs.at(broadcast_source(b, batch_dims(rhs.dims())).push(k as usize).push(j)),
            ),
            v,
        ),
{
    let lb = broadcast_source(b, batch_dims(lhs.dims()));
    let rb = broadcast_source(b, batch_dims(rhs.dims()));
    assert(row_of(lhs, lb, i) =~= Seq::new(
        lhs.dims().last() as nat,
        |k: int| lhs.at(lb.push(i).push(k as usize)),
    ));
    assert(column_of(rhs, rb, j) =~= Seq::new(
        rhs.dims()[rhs.dims().len() - 2] as nat,
        |k: int| rhs.at(rb.push(k as usize).push(j)),
    ));
}

/// The first `k` dimensions of `v`, as a new vector.
fn prefix_vec(v: &[usize], k: usize) -> (r: Vec<usize>)
    requires
        k <= v@.len(),
    ensures
        r@ == v@.subrange(0, k as int),
{
    let mut r: Vec<usize> = Vec::new();
    let mut i: usize = 0;
    while i < k
        invariant
            k <= v@.len(),
            i <= k,
            r@ == v@.subrange(0, i as int),
        decreases k - i,
    {
        r.push(v[i]);
        proof {
            assert(r@ =~= v@.subrange(0, i + 1));
        }
        i = i + 1;
    }
    r
}

/// `prefix` followed by `a` and `b`.
fn extend_two(prefix: &Vec<usize>, a: usize, b: usize) -> (r: Vec<usize>)
    ensures
        r@ == prefix@.push(a).push(b),
{
    let mut r = copy_vec(prefix);
    r.push(a);
    r.push(b);
    r
}

/// Row-major position of a matrix entry inside a batched shape.
proof fn lemma_ravel_matrix_entry(b: Seq<usize>, bshape: Seq<usize>, m: usize, n: usize, i: usize, j: usize)
    requires
        b.len() == bshape.len(),
    ensures
        ravel(b.push(i).push(j), bshape.push(m).push(n)) == (ravel(b, bshape) * m + i) * n + j,
{
    let x = b.push(i).push(j);
    let s = bshape.push(m).push(n);
    assert(x.drop_last() =~= b.push(i));
    assert(s.drop_last() =~= bshape.push(m));
    assert(b.push(i).drop_last() =~= b);
    assert(bshape.push(m).drop_last() =~= bshape);
    assert(ravel(x, s) == ravel(b.push(i), bshape.push(m)) * (n as nat) + (j as nat));
    assert(ravel(b.push(i), bshape.push(m)) == ravel(b, bshape) * (m as nat) + (i as nat));
}

impl<T: Copy> Tensor<T> {
    /// Dot product of row `row` of the `lhs` matrix at batch index `lhs_batch`
    /// with column `col` of the `rhs` matrix at `rhs_batch`, accumulated with
    /// `step` from `zero`.
    fn matrix_entry<F: Fn(T, T, T) -> T>(
        lhs: &Self,
        lhs_batch: &Vec<usize>,
        row: usize,
        rhs: &Self,
        rhs_batch: &Vec<usize>,
        col: usize,
        zero: T,
        step: &F,
    ) -> (r: T)
        requires
            lhs.wf(),
            rhs.wf(),
            lhs.dims().len() >= 2,
            rhs.dims().len() >= 2,
            lhs.dims()[lhs.dims().len() - 1] == rhs.dims()[rhs.dims().len() - 2],
            in_bounds(lhs_batch@, batch_dims(lhs.dims())),
            in_bounds(rhs_batch@, batch_dims(rhs.dims())),
            row < lhs.dims()[lhs.dims().len() - 2],
            col < rhs.dims()[rhs.dims().len() - 1],
            forall|a: T, x: T, y: T| #[trigger] step.requires((a, x, y)),
        ensures
            pair_folds_to(
                *step,
                zero,
                row_of(*lhs, lhs_batch@, row),
                column_of(*rhs, rhs_batch@, col),
                r,
            ),
    {
        let inner_size = lhs.shape[lhs.shape.len() - 1];
        let ghost xs = row_of(*lhs, lhs_batch@, row);
        let ghost ys = column_of(*rhs, rhs_batch@, col);
        let mut acc = zero;
        proof {
            lemma_pair_folds_to_empty(*step, zero, xs.subrange(0, 0), ys.subrange(0, 0));
        }
        let mut inner: usize = 0;
        while inner < inner_size
            invariant
                lhs.wf(),
                rhs.wf(),
                lhs.dims().len() >= 2,
                rhs.dims().len() >= 2,
                inner_size == lhs.dims()[lhs.dims().len() - 1],
                inner_size == rhs.dims()[rhs.dims().len() - 2],
                in_bounds(lhs_batch@, batch_dims(lhs.dims())),
                in_bounds(rhs_batch@, batch_dims(rhs.dims())),
                row < lhs.dims()[lhs.dims().len() - 2],
                col < rhs.dims()[rhs.dims().len() - 1],
                forall|a: T, x: T, y: T| #[trigger] step.requires((a, x, y)),
                xs == row_of(*lhs, lhs_batch@, row),
                ys == column_of(*rhs, rhs_batch@, col),
                inner <= inner_size,
                pair_folds_to(*step, zero, xs.subrange(0, inner as int), ys.subrange(0, inner as int), acc),
            decreases inner_size - inner,
        {
            let lhs_index = extend_two(lhs_batch, row, inner);
            let rhs_index = extend_two(rhs_batch, inner, col);
            proof {
                let ld = lhs.dims();
                let rd = rhs.dims();
                assert(ld =~= batch_dims(ld).push(ld[ld.len() - 2]).push(ld[ld.len() - 1]));
                assert(rd =~= batch_dims(rd).push(rd[rd.len() - 2]).push(rd[rd.len() - 1]));
                assert(in_bounds(lhs_index@, ld));
                assert(in_bounds(rhs_index@, rd));
                lhs.lemma_position_in_buffer(lhs_index@);
                rhs.lemma_position_in_buffer(rhs_index@);
            }
            let lhs_flat = flat_index_for_strides(&lhs_index, &lhs.strides, lhs.offset);
            let rhs_flat = flat_index_for_strides(&rhs_index, &rhs.strides, rhs.offset);
            let x = lhs.data[lhs_flat];
            let y = rhs.data[rhs_flat];
            let next = step(acc, x, y);
            proof {
                lemma_pair_folds_to_push(
                    *step,
                    zero,
                    xs.subrange(0, inner as int),
                    ys.subrange(0, inner as int),
                    acc,
                    x,
                    y,
                    next,
                );
                assert(xs.subrange(0, inner as int).push(x) =~= xs.subrange(0, inner + 1));
                assert(ys.subrange(0, inner as int).push(y) =~= ys.subrange(0, inner + 1));
            }
            acc = next;
            inner = inner + 1;
        }
        proof {
            assert(xs.subrange(0, inner_size as int) =~= xs);
            assert(ys.subrange(0, inner_size as int) =~= ys);
        }
        acc
    }

    /// Matrix multiplication for 2D, batched, and broadcast batched tensors.
    ///
    /// The final two dimensions are the matrix dimensions `[rows, cols]`;
    /// only the leading batch dimensions are broadcast. Each entry
    /// accumulates `step(acc, lhs_value, rhs_value)` over the shared inner
    /// dimension, starting from `zero`.
    pub fn mulmat<F: Fn(T, T, T) -> T>(lhs: &Self, rhs: &Self, zero: T, step: F) -> (r: Self)
        requires
            lhs.wf(),
            rhs.wf(),
            matmul_compatible(lhs.dims(), rhs.dims()),
            product(matmul_shape(lhs.dims(), rhs.dims())) <= usize::MAX,
            forall|a: T, x: T, y: T| #[trigger] step.requires((a, x, y)),
        ensures
            r.wf(),
            r.is_contiguous(),
            r.dims() == matmul_shape(lhs.dims(), rhs.dims()),
            forall|b: Seq<usize>, i: usize, j: usize|
                in_bounds(b, broadcast_shape(batch_dims(lhs.dims()), batch_dims(rhs.dims())))
                    && i < lhs.dims()[lhs.dims().len() - 2] && j < rhs.dims()[rhs.dims().len() - 1]
                    ==> is_product_entry(*lhs, *rhs, zero, step, b, i, j, #[trigger] r.at(b.push(i).push(j))),
    {
        let lhs_rank = lhs.shape.len();
        let rhs_rank = rhs.shape.len();
        let lhs_batch_shape = prefix_vec(&lhs.shape, lhs_rank - 2);
        let rhs_batch_shape = prefix_vec(&rhs.shape, rhs_rank - 2);
        let output_batch_shape = match get_broadcast_shape(&lhs_batch_shape, &rhs_batch_shape) {
            Ok(s) => s,
            Err(_) => Vec::new(),
        };
        let row_lhs = lhs.shape[lhs_rank - 2];
        let col_rhs = rhs.shape[rhs_rank - 1];
        let ghost lb = batch_dims(lhs.dims());
        let ghost rb = batch_dims(rhs.dims());
        let ghost bshape = output_batch_shape@;
        let ghost out = matmul_shape(lhs.dims(), rhs.dims());
        let ghost m = row_lhs as int;
        let ghost n = col_rhs as int;
        proof {
            assert(all_positive(lb));
            assert(all_positive(rb));
            lemma_broadcast_shape_positive(lb, rb);
            lemma_broadcast_symmetric(lb, rb);
            assert(out =~= bshape.push(row_lhs).push(col_rhs));
            assert(out.drop_last().drop_last() =~= bshape);
            assert(lhs.shape@[lhs_rank - 2] > 0);
            assert(rhs.shape@[rhs_rank - 1] > 0);
            crate::layout::lemma_product_positive(bshape);
            assert(out.drop_last() =~= bshape.push(row_lhs));
            assert(bshape.push(row_lhs).drop_last() =~= bshape);
            assert(product(bshape.push(row_lhs)) == product(bshape) * m);
            assert(product(out) == product(bshape.push(row_lhs)) * n);
            assert(product(out) == product(bshape) * m * n);
            assert(product(bshape) <= product(out) && m * n <= product(out)) by (nonlinear_arith)
                requires
                    product(out) == product(bshape) * m * n,
                    product(bshape) >= 1,
                    m >= 1,
                    n >= 1,
            ;
        }
        let batch_size = match element_count(&output_batch_shape) {
            Some(count) => count,
            None => 0,
        };
        proof {
            crate::layout::lemma_product_positive(bshape);
        }
        let mut result: Vec<T> = Vec::new();
        let mut batch: usize = 0;
        while batch < batch_size
            invariant
                lhs.wf(),
                rhs.wf(),
                matmul_compatible(lhs.dims(), rhs.dims()),
                lb == batch_dims(lhs.dims()),
                rb == batch_dims(rhs.dims()),
                lhs_batch_shape@ == lb,
                rhs_batch_shape@ == rb,
                all_positive(lb),
                all_positive(rb),
                broadcastable(lb, rb),
                broadcastable(rb, lb),
                bshape == broadcast_shape(lb, rb),
                bshape == broadcast_shape(rb, lb),
                output_batch_shape@ == bshape,
                all_positive(bshape),
                batch_size == product(bshape),
                row_lhs == lhs.dims()[lhs.dims().len() - 2],
                col_rhs == rhs.dims()[rhs.dims().len() - 1],
                m == row_lhs,
                n == col_rhs,
                m >= 1,
                n >= 1,
                product(out) == batch_size * m * n,
                product(out) <= usize::MAX,
                forall|a: T, x: T, y: T| #[trigger] step.requires((a, x, y)),
                batch <= batch_size,
                result@.len() == batch * m * n,
                forall|p: int|
                    0 <= p < result@.len() ==> is_product_entry(
                        *lhs,
                        *rhs,
                        zero,
                        step,
                        unravel(((p / n) / m) as nat, bshape),
                        ((p / n) % m) as usize,
                        (p % n) as usize,
                        #[trigger] result@[p],
                    ),
            decreases batch_size - batch,
        {
            let output_batch_index = unravel_index(batch, &output_batch_shape);
            proof {
                lemma_unravel_in_bounds(batch as nat, bshape);
                lemma_unravel_len(batch as nat, bshape);
                lemma_broadcast_source_in_bounds(output_batch_index@, lb, rb);
                lemma_broadcast_source_in_bounds(output_batch_index@, rb, lb);
                assert((batch + 1) * m * n <= batch_size * m * n) by (nonlinear_arith)
                    requires
                        batch + 1 <= batch_size,
                        m >= 1,
                        n >= 1,
                ;
                assert(batch * m * n + m * n == (batch + 1) * m * n) by (nonlinear_arith);
            }
            let lhs_batch_index = broadcast_index(&output_batch_index, &lhs_batch_shape);
            let rhs_batch_index = broadcast_index(&output_batch_index, &rhs_batch_shape);
            let mut row: usize = 0;
            while row < row_lhs
                invariant
                    lhs.wf(),
                    rhs.wf(),
                    matmul_compatible(lhs.dims(), rhs.dims()),
                    lb == batch_dims(lhs.dims()),
                    rb == batch_dims(rhs.dims()),
                    bshape == broadcast_shape(lb, rb),
                    row_lhs == lhs.dims()[lhs.dims().len() - 2],
                    col_rhs == rhs.dims()[rhs.dims().len() - 1],
                    m == row_lhs,
                    n == col_rhs,
                    m >= 1,
                    n >= 1,
                    batch < batch_size,
                    (batch + 1) * m * n <= batch_size * m * n,
                    product(out) == batch_size * m * n,
                    product(out) <= usize::MAX,
                    output_batch_index@ == unravel(batch as nat, bshape),
                    lhs_batch_index@ == broadcast_source(output_batch_index@, lb),
                    rhs_batch_index@ == broadcast_source(output_batch_index@, rb),
                    in_bounds(lhs_batch_index@, lb),
                    in_bounds(rhs_batch_index@, rb),
                    forall|a: T, x: T, y: T| #[trigger] step.requires((a, x, y)),
                    row <= row_lhs,
                    result@.len() == (batch * m + row) * n,
                    forall|p: int|
                        0 <= p < result@.len() ==> is_product_entry(
                            *lhs,
                            *rhs,
                            zero,
                            step,
                            unravel(((p / n) / m) as nat, bshape),
                            ((p / n) % m) as usize,
                            (p % n) as usize,
                            #[trigger] result@[p],
                        ),
                decreases row_lhs - row,
            {
                proof {
                    assert((batch * m + row + 1) * n <= (batch + 1) * m * n) by (nonlinear_arith)
                        requires
                            row + 1 <= m,
                            n >= 1,
                    ;
                }
                let mut col: usize = 0;
                while col < col_rhs
                    invariant
                        lhs.wf(),
                        rhs.wf(),
                        matmul_compatible(lhs.dims(), rhs.dims()),
                        lb == batch_dims(lhs.dims()),
                        rb == batch_dims(rhs.dims()),
                        row_lhs == lhs.dims()[lhs.dims().len() - 2],
                        col_rhs == rhs.dims()[rhs.dims().len() - 1],
                        m == row_lhs,
                        n == col_rhs,
                        m >= 1,
                        n >= 1,
                        row < row_lhs,
                        (batch * m + row + 1) * n <= (batch + 1) * m * n,
                        (batch + 1) * m * n <= batch_size * m * n,
                        product(out) == batch_size * m * n,
                        product(out) <= usize::MAX,
                        output_batch_index@ == unravel(batch as nat, bshape),
                        lhs_batch_index@ == broadcast_source(output_batch_index@, lb),
                        rhs_batch_index@ == broadcast_source(output_batch_index@, rb),
                        in_bounds(lhs_batch_index@, lb),
                        in_bounds(rhs_batch_index@, rb),
                        forall|a: T, x: T, y: T| #[trigger] step.requires((a, x, y)),
                        col <= col_rhs,
                        result@.len() == (batch * m + row) * n + col,
                        forall|p: int|
                            0 <= p < result@.len() ==> is_product_entry(
                                *lhs,
                                *rhs,
                                zero,
                                step,
                                unravel(((p / n) / m) as nat, bshape),
                                ((p / n) % m) as usize,
                                (p % n) as usize,
                                #[trigger] result@[p],
                            ),
                    decreases col_rhs - col,
                {
                    let value = Tensor::matrix_entry(
                        lhs,
                        &lhs_batch_index,
                        row,
                        rhs,
                        &rhs_batch_index,
                        col,
                        zero,
                        &step,
                    );
                    proof {
                        let p = (batch * m + row) * n + col;
                        vstd::arithmetic::div_mod::lemma_fundamental_div_mod_converse(
                            p,
                            n,
                            batch * m + row,
                            col as int,
                        );
                        vstd::arithmetic::div_mod::lemma_fundamental_div_mod_converse(
                            batch * m + row,
                            m,
                            batch as int,
                            row as int,
                        );
                    }
                    result.push(value);
                    col = col + 1;
                }
                proof {
                    assert((batch * m + row) * n + n == (batch * m + row + 1) * n) by (
                    nonlinear_arith);
                }
                row = row + 1;
            }
            proof {
                assert((batch * m + m) * n == (batch + 1) * m * n) by (nonlinear_arith);
            }
            batch = batch + 1;
        }
        let mut shape = output_batch_shape;
        shape.push(row_lhs);
        shape.push(col_rhs);
        proof {
            assert(shape@ =~= out);
            assert(all_positive(out));
        }
        let r = Tensor::contiguous(shape, result);
        proof {
            r.lemma_elems();
            assert forall|b: Seq<usize>, i: usize, j: usize|
                in_bounds(b, bshape) && i < m && j < n implies is_product_entry(
                    *lhs,
                    *rhs,
                    zero,
                    step,
                    b,
                    i,
                    j,
                    #[trigger] r.at(b.push(i).push(j)),
                ) by {
                let x = b.push(i).push(j);
                assert(in_bounds(x, out));
                lemma_ravel_matrix_entry(b, bshape, row_lhs, col_rhs, i, j);
                let q = ravel(b, bshape);
                lemma_ravel_bound(b, bshape);
                lemma_unravel_ravel(b, bshape);
                let p = (q * m + i) * n + j;
                vstd::arithmetic::div_mod::lemma_fundamental_div_mod_converse(p, n, q * m + i, j as int);
                vstd::arithmetic::div_mod::lemma_fundamental_div_mod_converse(q * m + i, m, q as int, i as int);
                assert(r.elems()[p] == r.at(x));
            }
        }
        r
    }
}

/// The elements of `values` whose position `i` has `target_of(i) == k`, in
/// order.
pub open spec fn scatter_group<T>(values: Seq<T>, target_of: spec_fn(int) -> int, k: int) -> Seq<
    T,
>
    decreases values.len(),
{
    if values.len() == 0 {
        Seq::empty()
    } else {
        let earlier = scatter_group(values.drop_last(), target_of, k);
        if target_of(values.len() - 1) == k {
            earlier.push(values.last())
        } else {
            earlier
        }
    }
}

/// A scattered group lists, in their order, exactly the values whose
/// position is sent to `k`: the result enumerates those positions in
/// increasing order, and the group holds the values at them.
pub proof fn lemma_scatter_group_members<T>(values: Seq<T>, target_of: spec_fn(int) -> int, k: int) -> (ps:
    Seq<int>)
    ensures
        ps.len() == scatter_group(values, target_of, k).len(),
        forall|m: int|
            0 <= m < ps.len() ==> 0 <= #[trigger] ps[m] < values.len() && target_of(ps[m]) == k
                && scatter_group(values, target_of, k)[m] == values[ps[m]],
        forall|m1: int, m2: int| 0 <= m1 < m2 < ps.len() ==> #[trigger] ps[m1] < #[trigger] ps[m2],
        forall|i: int| 0 <= i < values.len() && target_of(i) == k ==> #[trigger] ps.contains(i),
    decreases values.len(),
{
    if values.len() == 0 {
        Seq::empty()
    } else {
        let n = values.len() - 1;
        let earlier = lemma_scatter_group_members(values.drop_last(), target_of, k);
        assert forall|i: int| 0 <= i < n && target_of(i) == k implies #[trigger] earlier.contains(i) by {
            assert(0 <= i < values.drop_last().len());
        }
        if target_of(n) == k {
            let ps = earlier.push(n);
            assert forall|i: int| 0 <= i < values.len() && target_of(i) == k implies #[trigger] ps.contains(
                i,
            ) by {
                if i == n {
                    assert(ps[ps.len() - 1] == n);
                } else {
                    assert(earlier.contains(i));
                    let m = choose|m: int| 0 <= m < earlier.len() && earlier[m] == i;
                    assert(ps[m] == i);
                }
            }
            ps
        } else {
            assert forall|i: int| 0 <= i < values.len() && target_of(i) == k implies #[trigger] earlier.contains(
                i,
            ) by {
                assert(i != n);
            }
            earlier
        }
    }
}

/// Row-major position in `target` that logical position `i` of a tensor of
/// shape `shape` broadcasts from.
pub open spec fn unbroadcast_position(shape: Seq<usize>, target: Seq<usize>) -> spec_fn(int) -> int {
    |i: int| ravel(broadcast_source(unravel(i as nat, shape), target), target) as int
}

/// Summing a broadcast tensor back onto `target`: the element at index `x`
/// is added into the entry of `target` it was broadcast from, whose
/// coordinate `j` is the coordinate of `x` aligned with it from the right, or
/// `0` where `target` has size `1`, whatever the difference in rank.
pub proof fn lemma_unbroadcast_destination(shape: Seq<usize>, target: Seq<usize>, x: Seq<usize>)
    requires
        broadcasts_to(target, shape),
        all_positive(target),
        in_bounds(x, shape),
    ensures
        0 <= unbroadcast_position(shape, target)(ravel(x, shape) as int) < product(target),
        unravel(unbroadcast_position(shape, target)(ravel(x, shape) as int) as nat, target).len()
            == target.len(),
        forall|j: int|
            0 <= j < target.len() && target[j] != 1 ==> #[trigger] unravel(
                unbroadcast_position(shape, target)(ravel(x, shape) as int) as nat,
                target,
            )[j] == x[shape.len() - target.len() + j],
        forall|j: int|
            0 <= j < target.len() && target[j] == 1 ==> #[trigger] unravel(
                unbroadcast_position(shape, target)(ravel(x, shape) as int) as nat,
                target,
            )[j] == 0,
{
    lemma_unravel_ravel(x, shape);
    let src = broadcast_source(x, target);
    lemma_broadcast_source_into(x, target, shape);
    lemma_ravel_bound(src, target);
    lemma_unravel_ravel(src, target);
    assert(unbroadcast_position(shape, target)(ravel(x, shape) as int) == ravel(src, target));
}

impl<T: Copy> Tensor<T> {
    /// Expands a reduction result back to the shape it was reduced from:
    /// every index of `shape` reads the output position that collects it.
    pub fn expand_reduced(&self, shape: &[usize], axis: usize, keep_shape: bool) -> (r: Self)
        requires
            self.wf(),
            axis < shape@.len(),
            all_positive(shape@),
            product(shape@) <= usize::MAX,
            self.dims() == reduced(shape@, axis as int, keep_shape),
        ensures
            r.wf(),
            r.is_contiguous(),
            r.dims() == shape@,
            forall|index: Seq<usize>|
                in_bounds(index, shape@) ==> #[trigger] r.at(index) == self.at(
                    reduced_index(index, axis as int, keep_shape),
                ),
    {
        let size = match element_count(shape) {
            Some(count) => count,
            None => 0,
        };
        let mut result: Vec<T> = Vec::new();
        let mut i: usize = 0;
        while i < size
            invariant
                self.wf(),
                axis < shape@.len(),
                all_positive(shape@),
                size == product(shape@),
                self.dims() == reduced(shape@, axis as int, keep_shape),
                i <= size,
                result@.len() == i,
                forall|j: int|
                    0 <= j < i ==> #[trigger] result@[j] == self.at(
                        reduced_index(unravel(j as nat, shape@), axis as int, keep_shape),
                    ),
            decreases size - i,
        {
            let index = unravel_index(i, shape);
            proof {
                lemma_unravel_in_bounds(i as nat, shape@);
                lemma_reduced_index_in_bounds(index@, shape@, axis as int, keep_shape);
            }
            let source = reduced_output_index(&index, axis, keep_shape);
            proof {
                self.lemma_position_in_buffer(source@);
            }
            let flat = flat_index_for_strides(&source, &self.strides, self.offset);
            result.push(self.data[flat]);
            i = i + 1;
        }
        let r = Tensor::contiguous(copy_slice(shape), result);
        proof {
            r.lemma_elems();
            assert forall|index: Seq<usize>| in_bounds(index, shape@) implies #[trigger] r.at(index)
                == self.at(reduced_index(index, axis as int, keep_shape)) by {
                lemma_unravel_ravel(index, shape@);
                assert(r.elems()[ravel(index, shape@) as int] == r.at(index));
            }
        }
        r
    }

    /// Sums a tensor back onto a shape that broadcasts to it: each position of
    /// `target` folds, in logical order, every element that reads it through
    /// broadcasting.
    pub fn unbroadcast<F: Fn(T, T) -> T>(&self, target: &[usize], zero: T, f: F) -> (r: Self)
        requires
            self.wf(),
            broadcasts_to(target@, self.dims()),
            all_positive(target@),
            product(target@) <= usize::MAX,
            forall|x: T, y: T| #[trigger] f.requires((x, y)),
        ensures
            r.wf(),
            r.is_contiguous(),
            r.dims() == target@,
            forall|k: int|
                0 <= k < product(target@) ==> #[trigger] folds_to(
                    f,
                    zero,
                    scatter_group(self.elems(), unbroadcast_position(self.dims(), target@), k),
                    r.elems()[k],
                ),
    {
        let ghost pos = unbroadcast_position(self.dims(), target@);
        let target_size = match element_count(target) {
            Some(count) => count,
            None => 0,
        };
        let mut result: Vec<T> = Vec::new();
        let mut k: usize = 0;
        while k < target_size
            invariant
                k <= target_size,
                result@.len() == k,
                forall|j: int| 0 <= j < k ==> #[trigger] result@[j] == zero,
            decreases target_size - k,
        {
            result.push(zero);
            k = k + 1;
        }
        proof {
            assert forall|j: int| 0 <= j < target_size implies #[trigger] folds_to(
                f,
                zero,
                scatter_group(self.elems().subrange(0, 0), pos, j),
                result@[j],
            ) by {
                lemma_folds_to_empty(f, zero, scatter_group(self.elems().subrange(0, 0), pos, j));
            }
        }
        let size = match element_count(&self.shape) {
            Some(count) => count,
            None => 0,
        };
        let mut i: usize = 0;
        while i < size
            invariant
                self.wf(),
                broadcasts_to(target@, self.dims()),
                all_positive(target@),
                product(target@) <= usize::MAX,
                target_size == product(target@),
                size == product(self.dims()),
                pos == unbroadcast_position(self.dims(), target@),
                forall|x: T, y: T| #[trigger] f.requires((x, y)),
                i <= size,
                result@.len() == target_size,
                forall|j: int|
                    0 <= j < target_size ==> #[trigger] folds_to(
                        f,
                        zero,
                        scatter_group(self.elems().subrange(0, i as int), pos, j),
                        result@[j],
                    ),
            decreases size - i,
        {
            let index = unravel_index(i, &self.shape);
            proof {
                lemma_unravel_in_bounds(i as nat, self.shape@);
                lemma_unravel_len(i as nat, self.shape@);
                lemma_broadcast_source_into(index@, target@, self.shape@);
            }
            let source = broadcast_index(&index, target);
            let t = ravel_index(&source, target);
            proof {
                lemma_ravel_bound(source@, target@);
            }
            let flat = self.logical_flat_index(i);
            let value = self.data[flat];
            let next = f(result[t], value);
            proof {
                let before = self.elems().subrange(0, i as int);
                let after = self.elems().subrange(0, i + 1);
                assert(after.drop_last() =~= before);
                assert(after.last() == value);
                assert(pos(i as int) == t);
                lemma_folds_to_push(f, zero, scatter_group(before, pos, t as int), result@[t as int], value, next);
                assert forall|j: int| 0 <= j < target_size && j != t implies scatter_group(after, pos, j)
                    == scatter_group(before, pos, j) by {}
                assert(scatter_group(after, pos, t as int) == scatter_group(before, pos, t as int).push(
                    value,
                ));
            }
            result.set(t, next);
            i = i + 1;
        }
        proof {
            assert(self.elems().subrange(0, size as int) =~= self.elems());
        }
        Tensor::contiguous(copy_slice(target), result)
    }
}

impl<T> Tensor<T> {
    /// Transposing by a permutation and then by its inverse gives back the
    /// original tensor: the same shape and the same element at every index.
    pub proof fn lemma_transpose_inverse(x: Self, y: Self, z: Self, axis: Seq<usize>)
        requires
            x.wf(),
            is_permutation(axis, x.dims().len()),
            y.is_transpose_of(x, axis),
            z.is_transpose_of(y, inverse_permutation(axis)),
        ensures
            z.dims() == x.dims(),
            forall|index: Seq<usize>| in_bounds(index, x.dims()) ==> #[trigger] z.at(index) == x.at(index),
            z.elems() == x.elems(),
    {
        let n = x.dims().len();
        assert(n <= usize::MAX) by {
            assert(x.shape@.len() == x.shape.len());
        }
        lemma_inverse_permutation(axis, n);
        let inv = inverse_permutation(axis);
        assert forall|index: Seq<usize>| in_bounds(index, x.dims()) implies #[trigger] z.at(index)
            == x.at(index) by {
            let p = permute(index, axis);
            assert(in_bounds(p, y.dims()));
            assert(permute(p, inv) == index);
            assert(z.at(permute(p, inv)) == y.at(p));
        }
        assert forall|i: int| 0 <= i < x.elems().len() implies #[trigger] z.elems()[i] == x.elems()[i] by {
            lemma_unravel_in_bounds(i as nat, x.dims());
        }
        assert(z.elems() =~= x.elems());
    }

    /// Transposing the final two dimensions twice gives back the original
    /// tensor.
    pub proof fn lemma_t_twice(x: Self, y: Self, z: Self)
        requires
            x.wf(),
            x.dims().len() >= 2,
            y.is_transpose_of(x, swap_axes(x.dims().len())),
            z.is_transpose_of(y, swap_axes(y.dims().len())),
        ensures
            z.dims() == x.dims(),
            forall|index: Seq<usize>| in_bounds(index, x.dims()) ==> #[trigger] z.at(index) == x.at(index),
            z.elems() == x.elems(),
    {
        let n = x.dims().len();
        assert(n <= usize::MAX) by {
            assert(x.shape@.len() == x.shape.len());
        }
        lemma_swap_axes(n);
        Self::lemma_transpose_inverse(x, y, z, swap_axes(n));
    }
}

impl<T: Copy> Clone for Tensor<T> {
    /// An independent copy: the same layout over a copy of the buffer.
    fn clone(&self) -> (r: Self)
        ensures
            r.dims() == self.dims(),
            r.elems() == self.elems(),
            self.wf() ==> r.wf(),
            forall|index: Seq<usize>| #[trigger] r.at(index) == self.at(index),
    {
        let r = Tensor {
            shape: copy_vec(&self.shape),
            data: copy_vec(&self.data),
            strides: copy_vec(&self.strides),
            offset: self.offset,
        };
        proof {
            assert(r.elems() =~= self.elems());
        }
        r
    }
}

} // verus!
