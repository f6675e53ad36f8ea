use crate::errors::ArrayError;
use crate::utils::{
    compute_strides, copy_contents, element_count, flat_index, flat_offset, reversed,
    row_major_strides, shape_product, strides_fit,
};
use vstd::prelude::*;

verus! {

/// A dense N-dimensional array: a flat buffer of elements together with a
/// shape and a stride vector.
///
/// Constructors and operations keep `wf()`: the buffer holds exactly one
/// element per point of the shape.  The strides of a freshly constructed
/// array are row-major; `transpose` reverses shape and strides together, so
/// after a transpose the strides are no longer row-major and all indexing
/// must go through them.
#[derive(Clone, Debug)]
pub struct NdArray<T> {
    pub data: Vec<T>,
    pub shape: Vec<usize>,
    pub strides: Vec<usize>,
}

impl<T> NdArray<T> {
    /// The structural invariant: rank at least 1, one stride per axis, and a
    /// buffer holding exactly the shape's element count.
    pub open spec fn wf(self) -> bool {
        &&& self.shape@.len() >= 1
        &&& self.strides@.len() == self.shape@.len()
        &&& self.data@.len() == shape_product(self.shape@)
    }

    /// Wraps an externally supplied flat buffer: the caller asserts that the
    /// buffer length agrees with the shape.  Strides are freshly row-major.
    pub fn new_with_data(data: Vec<T>, shape: Vec<usize>) -> (arr: Self)
        requires
            shape@.len() >= 1,
            strides_fit(shape@),
            data@.len() == shape_product(shape@),
        ensures
            arr.wf(),
            arr.data@ == data@,
            arr.shape@ == shape@,
            row_major_strides(arr.strides@, shape@),
    {
        let strides = compute_strides(&shape);
        NdArray { data, shape, strides }
    }

    /// The rank: the number of axes.
    pub fn ndim(&self) -> (n: usize)
        ensures
            n == self.shape@.len(),
    {
        self.shape.len()
    }

    /// A copy of the shape.
    pub fn shape(&self) -> (s: Vec<usize>)
        ensures
            s@ == self.shape@,
    {
        copy_contents(&self.shape)
    }
}

impl<T: Copy> NdArray<T> {
    /// A fresh array of the given shape with every element equal to
    /// `value`.  Fails with `EmptyShape` exactly when the shape has no axes.
    pub fn filled(shape: Vec<usize>, value: T) -> (result: Result<Self, ArrayError>)
        requires
            strides_fit(shape@),
        ensures
            match result {
                Ok(arr) => {
                    &&& shape@.len() >= 1
                    &&& arr.wf()
                    &&& arr.shape@ == shape@
                    &&& row_major_strides(arr.strides@, shape@)
                    &&& forall|k: int| 0 <= k < arr.data@.len() ==> arr.data@[k] == value
                },
                Err(e) => {
                    &&& e == ArrayError::EmptyShape
                    &&& shape@.len() == 0
                },
            },
    {
        if shape.len() == 0 {
            return Err(ArrayError::EmptyShape);
        }
        let size = element_count(&shape);
        let mut data: Vec<T> = Vec::new();
        let mut i: usize = 0;
        while i < size
            invariant
                i <= size,
                data@.len() == i,
                forall|k: int| 0 <= k < i ==> data@[k] == value,
            decreases size - i,
        {
            data.push(value);
            i = i + 1;
        }
        let strides = compute_strides(&shape);
        Ok(NdArray { data, shape, strides })
    }

    /// The element at the given coordinates: the direct (unbroadcast) flat
    /// offset into the buffer.  Fails with `RankMismatch` when the number of
    /// coordinates differs from the rank, and with `IndexOutOfBounds` when
    /// the offset falls outside the buffer.
    pub fn get(&self, indices: Vec<usize>) -> (result: Result<T, ArrayError>)
        requires
            self.strides@.len() == self.shape@.len(),
        ensures
            match result {
                Ok(v) => {
                    &&& indices@.len() == self.shape@.len()
                    &&& 0 <= flat_offset(indices@, self.strides@) < self.data@.len()
                    &&& v == self.data@[flat_offset(indices@, self.strides@)]
                },
                Err(e) => if indices@.len() != self.shape@.len() {
                    e == ArrayError::RankMismatch
                } else {
                    &&& e == ArrayError::IndexOutOfBounds
                    &&& flat_offset(indices@, self.strides@) >= self.data@.len()
                },
            },
    {
        if indices.len() != self.shape.len() {
            return Err(ArrayError::RankMismatch);
        }
        let len = self.data.len();
        match flat_index(&indices, &self.strides) {
            Some(flat) => {
                if flat < len {
                    Ok(self.data[flat])
                } else {
                    Err(ArrayError::IndexOutOfBounds)
                }
            },
            None => Err(ArrayError::IndexOutOfBounds),
        }
    }

    /// Overwrites the element at the given coordinates, leaving shape and
    /// strides (and every other element) unchanged.  Fails exactly as `get`
    /// does, and on failure the array is untouched.
    pub fn set(&mut self, indices: Vec<usize>, value: T) -> (result: Result<(), ArrayError>)
        requires
            old(self).strides@.len() == old(self).shape@.len(),
        ensures
            match result {
                Ok(()) => {
                    &&& indices@.len() == old(self).shape@.len()
                    &&& 0 <= flat_offset(indices@, old(self).strides@) < old(self).data@.len()
                    &&& final(self).data@ == old(self).data@.update(
                        flat_offset(indices@, old(self).strides@),
                        value,
                    )
                    &&& final(self).shape@ == old(self).shape@
                    &&& final(self).strides@ == old(self).strides@
                },
                Err(e) => {
                    &&& *final(self) == *old(self)
                    &&& if indices@.len() != old(self).shape@.len() {
                        e == ArrayError::RankMismatch
                    } else {
                        &&& e == ArrayError::IndexOutOfBounds
                        &&& flat_offset(indices@, old(self).strides@) >= old(self).data@.len()
                    }
                },
            },
    {
        if indices.len() != self.shape.len() {
            return Err(ArrayError::RankMismatch);
        }
        let len = self.data.len();
        match flat_index(&indices, &self.strides) {
            Some(flat) => {
                if flat < len {
                    self.data.set(flat, value);
                    Ok(())
                } else {
                    Err(ArrayError::IndexOutOfBounds)
                }
            },
            None => Err(ArrayError::IndexOutOfBounds),
        }
    }

    /// Reinterprets the buffer under a new shape with the same element
    /// count; the buffer itself is neither copied nor reordered, and strides
    /// are recomputed row-major.  Fails with `SizeMismatch` exactly when the
    /// element counts differ, leaving the array untouched.
    pub fn reshape(&mut self, new_shape: Vec<usize>) -> (result: Result<(), ArrayError>)
        requires
            old(self).wf(),
            new_shape@.len() >= 1,
            strides_fit(new_shape@),
        ensures
            match result {
                Ok(()) => {
                    &&& shape_product(new_shape@) == shape_product(old(self).shape@)
                    &&& final(self).shape@ == new_shape@
                    &&& row_major_strides(final(self).strides@, new_shape@)
                    &&& final(self).data@ == old(self).data@
                    &&& final(self).wf()
                },
                Err(e) => {
                    &&& e == ArrayError::SizeMismatch
                    &&& shape_product(new_shape@) != shape_product(old(self).shape@)
                    &&& *final(self) == *old(self)
                },
            },
    {
        let old_size = self.data.len();
        let new_size = element_count(&new_shape);
        if old_size != new_size {
            return Err(ArrayError::SizeMismatch);
        }
        self.shape = new_shape;
        self.strides = compute_strides(&self.shape);
        Ok(())
    }

    /// A new array with shape and strides both reversed over a copy of the
    /// buffer.  The result is a genuine transpose of the logical view; its
    /// strides are in general not row-major.
    pub fn transpose(&self) -> (result: NdArray<T>)
        requires
            self.wf(),
        ensures
            result.data@ == self.data@,
            result.shape@ == self.shape@.reverse(),
            result.strides@ == self.strides@.reverse(),
            result.wf(),
    {
        proof {
            crate::utils::lemma_product_reverse(self.shape@);
        }
        NdArray {
            data: copy_contents(&self.data),
            shape: reversed(&self.shape),
            strides: reversed(&self.strides),
        }
    }
}

/// Double transpose restores the array: with `b` the transpose of `a` and
/// `c` the transpose of `b` (exactly what `transpose` ensures), `c` has the
/// shape, strides and buffer of `a` — so every `get` at the same coordinates
/// returns the same element.
pub proof fn lemma_transpose_involution<T>(a: NdArray<T>, b: NdArray<T>, c: NdArray<T>)
    requires
        b.data@ == a.data@,
        b.shape@ == a.shape@.reverse(),
        b.strides@ == a.strides@.reverse(),
        c.data@ == b.data@,
        c.shape@ == b.shape@.reverse(),
        c.strides@ == b.strides@.reverse(),
    ensures
        c.shape@ == a.shape@,
        c.strides@ == a.strides@,
        c.data@ == a.data@,
{
    assert(a.shape@.reverse().reverse() =~= a.shape@);
    assert(a.strides@.reverse().reverse() =~= a.strides@);
}

/// A uniformly filled array reads back the fill value everywhere: at any
/// coordinates whose offset is inside the buffer (exactly the case in which
/// `get` succeeds), the element is the fill value.  With `filled`'s
/// contract this gives `zeros(s).get(coords) == 0` and likewise for ones.
pub proof fn lemma_uniform_get<T>(a: NdArray<T>, value: T, indices: Seq<usize>)
    requires
        forall|k: int| 0 <= k < a.data@.len() ==> a.data@[k] == value,
        0 <= flat_offset(indices, a.strides@) < a.data@.len(),
    ensures
        a.data@[flat_offset(indices, a.strides@)] == value,
{
}

} // verus!
