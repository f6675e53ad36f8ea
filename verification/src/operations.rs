use crate::array::NdArray;
use crate::errors::ArrayError;
use crate::utils::{
    broadcast_ok, broadcast_shapes, compute_strides, copy_contents,
    element_count, joint_rank, joint_shape, lemma_broadcast_strides_unique,
    lemma_broadcast_symmetric, lemma_pad_strides_fit, lemma_product_nonneg,
    lemma_source_offset_in_bounds, pad_shape, pad_to, ravel_index, ravel_offset,
    row_major_strides, shape_product, source_offset, strides_fit, unravel_index,
};
use vstd::prelude::*;

verus! {

// ---------------------------------------------------------------------------
// Elementwise Engine: array (*) array, with broadcasting.
// ---------------------------------------------------------------------------

/// What every array (*) array operation requires: well-formed operands, the
/// overflow side conditions, a joint shape whose strides also fit, and an
/// operator that accepts any pair of elements.
pub open spec fn elementwise_pre<T, F: Fn(T, T) -> T>(
    op: F,
    left: NdArray<T>,
    right: NdArray<T>,
) -> bool {
    &&& left.wf()
    &&& right.wf()
    &&& strides_fit(left.shape@)
    &&& strides_fit(right.shape@)
    &&& (broadcast_ok(left.shape@, right.shape@) ==> strides_fit(
        joint_shape(left.shape@, right.shape@),
    ))
    &&& forall|x: T, y: T| call_requires(op, (x, y))
}

/// What every array (*) array operation returns on success: a well-formed,
/// row-major array of the joint shape whose cell `k` holds the operator
/// applied to the operand elements selected by the broadcast plan.
pub open spec fn elementwise_ok<T, F: Fn(T, T) -> T>(
    op: F,
    left: NdArray<T>,
    right: NdArray<T>,
    out: NdArray<T>,
) -> bool {
    let s1 = left.shape@;
    let s2 = right.shape@;
    &&& out.wf()
    &&& out.shape@ == joint_shape(s1, s2)
    &&& row_major_strides(out.strides@, out.shape@)
    &&& out.data@.len() == shape_product(joint_shape(s1, s2))
    &&& forall|k: int|
        0 <= k < out.data@.len() ==> 0 <= #[trigger] source_offset(k, s1, s2) < left.data@.len()
    &&& forall|k: int|
        0 <= k < out.data@.len() ==> 0 <= #[trigger] source_offset(k, s2, s1) < right.data@.len()
    &&& forall|k: int|
        0 <= k < out.data@.len() ==> call_ensures(
            op,
            (left.data@[source_offset(k, s1, s2)], right.data@[source_offset(k, s2, s1)]),
            #[trigger] out.data@[k],
        )
}

/// The full contract of an array (*) array operation: success exactly when
/// the shapes broadcast together, `ShapeMismatch` otherwise.
pub open spec fn elementwise_post<T, F: Fn(T, T) -> T>(
    op: F,
    left: NdArray<T>,
    right: NdArray<T>,
    result: Result<NdArray<T>, ArrayError>,
) -> bool {
    match result {
        Ok(out) => broadcast_ok(left.shape@, right.shape@) && elementwise_ok(
            op,
            left,
            right,
            out,
        ),
        Err(e) => e == ArrayError::ShapeMismatch && !broadcast_ok(left.shape@, right.shape@),
    }
}

/// The one engine behind add, subtract, multiply and divide of two arrays:
/// broadcasts the shapes, then fills the output cell by cell, reading each
/// operand through its own broadcast strides and combining with `op`.
#[verifier::loop_isolation(false)]
pub fn elementwise_array<T: Copy, F: Fn(T, T) -> T>(
    left: &NdArray<T>,
    right: &NdArray<T>,
    op: &F,
) -> (result: Result<NdArray<T>, ArrayError>)
    requires
        elementwise_pre(*op, *left, *right),
    ensures
        elementwise_post(*op, *left, *right, result),
{
    let ghost s1 = left.shape@;
    let ghost s2 = right.shape@;
    let (bshape, s_strides, o_strides) = match broadcast_shapes(&left.shape, &right.shape) {
        Ok(plan) => plan,
        Err(e) => {
            return Err(e);
        },
    };
    let rank = bshape.len();
    proof {
        assert(rank as int == joint_rank(s1, s2));
        lemma_pad_strides_fit(s1, rank as int);
        lemma_pad_strides_fit(s2, rank as int);
        lemma_broadcast_strides_unique(
            s_strides@,
            pad_shape(s1, rank as int),
            pad_shape(s2, rank as int),
        );
        lemma_broadcast_strides_unique(
            o_strides@,
            pad_shape(s2, rank as int),
            pad_shape(s1, rank as int),
        );
        lemma_broadcast_symmetric(s1, s2);
    }
    let s_pad = pad_to(&left.shape, rank);
    let o_pad = pad_to(&right.shape, rank);
    let total = element_count(&bshape);
    proof {
        assert forall|k: int| 0 <= k < total implies 0 <= #[trigger] source_offset(k, s1, s2)
            < left.data@.len() by {
            lemma_source_offset_in_bounds(k, s1, s2);
        }
        assert forall|k: int| 0 <= k < total implies 0 <= #[trigger] source_offset(k, s2, s1)
            < right.data@.len() by {
            lemma_source_offset_in_bounds(k, s2, s1);
            assert(joint_shape(s2, s1) == joint_shape(s1, s2));
        }
        lemma_product_nonneg(s1);
        lemma_product_nonneg(s2);
        assert(s1.skip(0) =~= s1);
        assert(s2.skip(0) =~= s2);
        assert(shape_product(s1.skip(0)) <= usize::MAX);
        assert(shape_product(s2.skip(0)) <= usize::MAX);
    }
    let mut data: Vec<T> = Vec::new();
    let mut idx: usize = 0;
    while idx < total
        invariant
            idx <= total,
            data@.len() == idx,
            forall|k: int|
                0 <= k < idx ==> call_ensures(
                    *op,
                    (left.data@[source_offset(k, s1, s2)], right.data@[source_offset(k, s2, s1)]),
                    #[trigger] data@[k],
                ),
        decreases total - idx,
    {
        let coords = unravel_index(idx, &bshape);
        proof {
            assert(joint_rank(s2, s1) == rank as int);
            assert(joint_shape(s2, s1) == bshape@);
            assert(ravel_offset(coords@, s_strides@, s_pad@) == source_offset(
                idx as int,
                s1,
                s2,
            ));
            assert(ravel_offset(coords@, o_strides@, o_pad@) == source_offset(
                idx as int,
                s2,
                s1,
            ));
        }
        let self_idx = ravel_index(&coords, &s_strides, &s_pad);
        let other_idx = ravel_index(&coords, &o_strides, &o_pad);
        let value = op(left.data[self_idx], right.data[other_idx]);
        data.push(value);
        idx = idx + 1;
    }
    let strides = compute_strides(&bshape);
    Ok(NdArray { data, shape: bshape, strides })
}

/// On operands of one and the same shape the engine is plainly pointwise:
/// cell `k` of the output holds the operator applied to cell `k` of each
/// operand.
pub proof fn lemma_elementwise_same_shape<T, F: Fn(T, T) -> T>(
    op: F,
    left: NdArray<T>,
    right: NdArray<T>,
    out: NdArray<T>,
)
    requires
        left.shape@ == right.shape@,
        left.wf(),
        right.wf(),
        strides_fit(left.shape@),
        elementwise_ok(op, left, right, out),
    ensures
        out.shape@ == left.shape@,
        out.data@.len() == left.data@.len(),
        forall|k: int|
            0 <= k < out.data@.len() ==> call_ensures(
                op,
                (left.data@[k], right.data@[k]),
                #[trigger] out.data@[k],
            ),
{
    let s = left.shape@;
    assert(pad_shape(s, joint_rank(s, s)) =~= s);
    assert(joint_shape(s, s) =~= s);
    assert(out.data@.len() == shape_product(s));
    assert forall|k: int|
        0 <= k < out.data@.len() implies call_ensures(
        op,
        (left.data@[k], right.data@[k]),
        #[trigger] out.data@[k],
    ) by {
        crate::utils::lemma_source_offset_identity(k, s);
    }
}

// ---------------------------------------------------------------------------
// Elementwise Engine: array (*) scalar.
// ---------------------------------------------------------------------------

/// What every array (*) scalar operation returns: shape and strides pass
/// through unchanged and cell `k` holds the operator applied to the old cell
/// `k` and the scalar.  These operations never fail.
pub open spec fn scalar_post<T, F: Fn(T, T) -> T>(
    op: F,
    array: NdArray<T>,
    scalar: T,
    out: NdArray<T>,
) -> bool {
    &&& out.shape@ == array.shape@
    &&& out.strides@ == array.strides@
    &&& out.data@.len() == array.data@.len()
    &&& forall|k: int|
        0 <= k < out.data@.len() ==> call_ensures(
            op,
            (array.data@[k], scalar),
            #[trigger] out.data@[k],
        )
    &&& array.wf() ==> out.wf()
}

/// The one engine behind add, subtract, multiply and divide of an array and
/// a scalar: applies `op(element, scalar)` over the raw buffer.
#[verifier::loop_isolation(false)]
pub fn elementwise_scalar<T: Copy, F: Fn(T, T) -> T>(array: &NdArray<T>, scalar: T, op: &F) -> (out:
    NdArray<T>)
    requires
        forall|x: T, y: T| call_requires(*op, (x, y)),
    ensures
        scalar_post(*op, *array, scalar, out),
{
    let n = array.data.len();
    let mut data: Vec<T> = Vec::new();
    let mut i: usize = 0;
    while i < n
        invariant
            i <= n,
            data@.len() == i,
            forall|k: int|
                0 <= k < i ==> call_ensures(
                    *op,
                    (array.data@[k], scalar),
                    #[trigger] data@[k],
                ),
        decreases n - i,
    {
        let value = op(array.data[i], scalar);
        data.push(value);
        i = i + 1;
    }
    NdArray { data, shape: copy_contents(&array.shape), strides: copy_contents(&array.strides) }
}

// ---------------------------------------------------------------------------
// The operation surface: one named entry per operator.
// ---------------------------------------------------------------------------

/// Elementwise sum of two arrays under `op`, with broadcasting.
pub fn add_array<T: Copy, F: Fn(T, T) -> T>(left: &NdArray<T>, right: &NdArray<T>, op: &F) -> (
    result: Result<NdArray<T>, ArrayError>)
    requires
        elementwise_pre(*op, *left, *right),
    ensures
        elementwise_post(*op, *left, *right, result),
{
    elementwise_array(left, right, op)
}

/// Elementwise difference of two arrays under `op`, with broadcasting.
pub fn sub_array<T: Copy, F: Fn(T, T) -> T>(left: &NdArray<T>, right: &NdArray<T>, op: &F) -> (
    result: Result<NdArray<T>, ArrayError>)
    requires
        elementwise_pre(*op, *left, *right),
    ensures
        elementwise_post(*op, *left, *right, result),
{
    elementwise_array(left, right, op)
}

/// Elementwise product of two arrays under `op`, with broadcasting.
pub fn mul_array<T: Copy, F: Fn(T, T) -> T>(left: &NdArray<T>, right: &NdArray<T>, op: &F) -> (
    result: Result<NdArray<T>, ArrayError>)
    requires
        elementwise_pre(*op, *left, *right),
    ensures
        elementwise_post(*op, *left, *right, result),
{
    elementwise_array(left, right, op)
}

/// Elementwise quotient of two arrays under `op`, with broadcasting.
pub fn div_array<T: Copy, F: Fn(T, T) -> T>(left: &NdArray<T>, right: &NdArray<T>, op: &F) -> (
    result: Result<NdArray<T>, ArrayError>)
    requires
        elementwise_pre(*op, *left, *right),
    ensures
        elementwise_post(*op, *left, *right, result),
{
    elementwise_array(left, right, op)
}

/// Adds a scalar to every element under `op`; never fails.
pub fn add_scalar<T: Copy, F: Fn(T, T) -> T>(array: &NdArray<T>, scalar: T, op: &F) -> (out:
    NdArray<T>)
    requires
        forall|x: T, y: T| call_requires(*op, (x, y)),
    ensures
        scalar_post(*op, *array, scalar, out),
{
    elementwise_scalar(array, scalar, op)
}

/// Subtracts a scalar from every element under `op`; never fails.
pub fn sub_scalar<T: Copy, F: Fn(T, T) -> T>(array: &NdArray<T>, scalar: T, op: &F) -> (out:
    NdArray<T>)
    requires
        forall|x: T, y: T| call_requires(*op, (x, y)),
    ensures
        scalar_post(*op, *array, scalar, out),
{
    elementwise_scalar(array, scalar, op)
}

/// Multiplies every element by a scalar under `op`; never fails.
pub fn mul_scalar<T: Copy, F: Fn(T, T) -> T>(array: &NdArray<T>, scalar: T, op: &F) -> (out:
    NdArray<T>)
    requires
        forall|x: T, y: T| call_requires(*op, (x, y)),
    ensures
        scalar_post(*op, *array, scalar, out),
{
    elementwise_scalar(array, scalar, op)
}

/// Divides every element by a scalar under `op`; never fails.
pub fn div_scalar<T: Copy, F: Fn(T, T) -> T>(array: &NdArray<T>, scalar: T, op: &F) -> (out:
    NdArray<T>)
    requires
        forall|x: T, y: T| call_requires(*op, (x, y)),
    ensures
        scalar_post(*op, *array, scalar, out),
{
    elementwise_scalar(array, scalar, op)
}

// ---------------------------------------------------------------------------
// Matmul Adapter.
// ---------------------------------------------------------------------------

/// Matrix product of two rank-2 arrays.  This adapter validates the shapes
/// and assembles the result; the multiply-accumulate itself is delegated to
/// `kernel`, which receives copies of the two contiguous row-major buffers
/// and the dimensions `(m, k, n)` and must return a buffer of `m * n`
/// elements.  Fails with `ShapeMismatch` exactly when the inner dimensions
/// disagree.
pub fn matmul<T: Copy, F: Fn(Vec<T>, Vec<T>, usize, usize, usize) -> Vec<T>>(
    left: &NdArray<T>,
    right: &NdArray<T>,
    kernel: &F,
) -> (result: Result<NdArray<T>, ArrayError>)
    requires
        left.wf(),
        right.wf(),
        left.shape@.len() == 2,
        right.shape@.len() == 2,
        (left.shape@[0] as int) * (right.shape@[1] as int) <= usize::MAX,
        forall|a: Vec<T>, b: Vec<T>, m: usize, k: usize, n: usize|
            call_requires(*kernel, (a, b, m, k, n)),
        forall|a: Vec<T>, b: Vec<T>, m: usize, k: usize, n: usize, r: Vec<T>|
            call_ensures(*kernel, (a, b, m, k, n), r) ==> r@.len() == (m as int) * (n as int),
    ensures
        match result {
            Ok(out) => {
                &&& left.shape@[1] == right.shape@[0]
                &&& out.wf()
                &&& out.shape@ =~= seq![left.shape@[0], right.shape@[1]]
                &&& row_major_strides(out.strides@, out.shape@)
                &&& exists|a: Vec<T>, b: Vec<T>|
                    a@ == left.data@ && b@ == right.data@ && call_ensures(
                        *kernel,
                        (a, b, left.shape@[0], left.shape@[1], right.shape@[1]),
                        out.data,
                    )
            },
            Err(e) => {
                &&& e == ArrayError::ShapeMismatch
                &&& left.shape@[1] != right.shape@[0]
            },
        },
{
    let m = left.shape[0];
    let k1 = left.shape[1];
    let k2 = right.shape[0];
    let n = right.shape[1];
    if k1 != k2 {
        return Err(ArrayError::ShapeMismatch);
    }
    let a = copy_contents(&left.data);
    let b = copy_contents(&right.data);
    let ghost ga = a;
    let ghost gb = b;
    let data = kernel(a, b, m, k1, n);
    let mut shape: Vec<usize> = Vec::new();
    shape.push(m);
    shape.push(n);
    proof {
        reveal_with_fuel(shape_product, 3);
        let s = shape@;
        assert(s.drop_first() =~= seq![n]);
        assert(s.drop_first().drop_first() =~= Seq::<usize>::empty());
        assert(shape_product(s.drop_first()) == (n as int) * 1);
        assert(shape_product(s) == (m as int) * ((n as int) * 1));
        assert((m as int) * ((n as int) * 1) == (m as int) * (n as int)) by (nonlinear_arith);
        assert forall|i: int| 0 <= i <= s.len() implies shape_product(#[trigger] s.skip(i))
            <= usize::MAX by {
            reveal_with_fuel(shape_product, 3);
            if i == 0 {
                assert(s.skip(0) =~= s);
            } else if i == 1 {
                assert(s.skip(1) =~= seq![n]);
                assert(shape_product(seq![n].drop_first()) == 1);
                assert(shape_product(seq![n]) == (n as int) * 1);
                assert((n as int) * 1 == n as int) by (nonlinear_arith);
            } else {
                assert(s.skip(i).len() == 0);
            }
        }
    }
    let strides = compute_strides(&shape);
    Ok(NdArray { data, shape, strides })
}

} // verus!
