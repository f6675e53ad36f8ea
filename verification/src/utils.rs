use vstd::arithmetic::div_mod::*;
use vstd::arithmetic::mul::*;
use vstd::prelude::*;

verus! {

// ---------------------------------------------------------------------------
// The mathematical model: shapes, element counts and row-major strides.
// ---------------------------------------------------------------------------

/// Number of elements a shape describes: the product of its dimensions.
/// An empty shape has product 1 (the empty product).
pub open spec fn shape_product(s: Seq<usize>) -> int
    decreases s.len(),
{
    if s.len() == 0 {
        1
    } else {
        (s[0] as int) * shape_product(s.drop_first())
    }
}

/// Every trailing product of the shape fits in a `usize`.  This is the
/// machine-level side condition under which row-major strides (and the total
/// element count) can be computed without overflow.
pub open spec fn strides_fit(s: Seq<usize>) -> bool {
    forall|i: int| 0 <= i <= s.len() ==> shape_product(#[trigger] s.skip(i)) <= usize::MAX
}

/// `st` is the row-major stride vector of shape `s`: the stride of axis `i`
/// is the number of elements spanned by one step along that axis, namely the
/// product of all dimensions to its right.
pub open spec fn row_major_strides(st: Seq<usize>, s: Seq<usize>) -> bool {
    &&& st.len() == s.len()
    &&& forall|i: int| 0 <= i < s.len() ==> st[i] == shape_product(#[trigger] s.skip(i + 1))
}

// ---------------------------------------------------------------------------
// Facts about shape products.
// ---------------------------------------------------------------------------

pub proof fn lemma_product_nonneg(s: Seq<usize>)
    ensures
        shape_product(s) >= 0,
    decreases s.len(),
{
    if s.len() > 0 {
        lemma_product_nonneg(s.drop_first());
        lemma_mul_nonnegative(s[0] as int, shape_product(s.drop_first()));
    }
}

/// Peeling one dimension off the front of a trailing slice:
/// `product(s[i..]) == s[i] * product(s[i+1..])`.
pub proof fn lemma_product_skip_step(s: Seq<usize>, i: int)
    requires
        0 <= i < s.len(),
    ensures
        shape_product(s.skip(i)) == (s[i] as int) * shape_product(s.skip(i + 1)),
{
    assert(s.skip(i).drop_first() =~= s.skip(i + 1));
    assert(s.skip(i)[0] == s[i]);
}

/// A shape with a positive element count has only positive dimensions.
pub proof fn lemma_product_pos_dims(s: Seq<usize>)
    requires
        shape_product(s) > 0,
    ensures
        forall|i: int| 0 <= i < s.len() ==> s[i] >= 1,
    decreases s.len(),
{
    if s.len() > 0 {
        lemma_product_nonneg(s.drop_first());
        lemma_mul_basics(shape_product(s.drop_first()));
        lemma_mul_basics(s[0] as int);
        if s[0] == 0 {
            assert(shape_product(s) == 0);
        }
        if shape_product(s.drop_first()) == 0 {
            assert(shape_product(s) == 0);
        }
        lemma_product_pos_dims(s.drop_first());
        assert forall|i: int| 0 <= i < s.len() implies s[i] >= 1 by {
            if i >= 1 {
                assert(s.drop_first()[i - 1] == s[i]);
            }
        }
    }
}

/// Peeling one dimension off the back: `product(s) == product(s[..n-1]) * s[n-1]`.
pub proof fn lemma_product_drop_last(s: Seq<usize>)
    requires
        s.len() >= 1,
    ensures
        shape_product(s) == shape_product(s.drop_last()) * (s.last() as int),
    decreases s.len(),
{
    if s.len() == 1 {
        assert(s.drop_first().len() == 0);
        assert(s.drop_last().len() == 0);
        lemma_mul_basics(s[0] as int);
        assert(shape_product(s.drop_first()) == 1);
        assert(shape_product(s.drop_last()) == 1);
        assert(s.last() == s[0]);
        assert(shape_product(s) == (s[0] as int) * 1);
        assert(shape_product(s) == shape_product(s.drop_last()) * (s.last() as int));
    } else {
        lemma_product_drop_last(s.drop_first());
        assert(s.drop_first().drop_last() =~= s.drop_last().drop_first());
        assert(s.drop_first().last() == s.last());
        assert(s.drop_last()[0] == s[0]);
        let s0 = s[0] as int;
        let lastv = s.last() as int;
        let mid = shape_product(s.drop_last().drop_first());
        assert(shape_product(s.drop_first()) == mid * lastv);
        assert(shape_product(s) == s0 * (mid * lastv));
        lemma_mul_is_associative(s0, mid, lastv);
        assert(shape_product(s.drop_last()) == s0 * mid);
    }
}

// ---------------------------------------------------------------------------
// Index Translator: the mathematical model.
// ---------------------------------------------------------------------------

/// Coordinates of the element at flat position `idx` under row-major
/// enumeration of shape `s`: the last axis varies fastest.
pub open spec fn unravel(idx: int, s: Seq<usize>) -> Seq<usize>
    decreases s.len(),
{
    if s.len() == 0 {
        Seq::empty()
    } else {
        unravel(idx / (s.last() as int), s.drop_last()).push(
            (idx % (s.last() as int)) as usize,
        )
    }
}

pub proof fn lemma_unravel_len(idx: int, s: Seq<usize>)
    ensures
        unravel(idx, s).len() == s.len(),
    decreases s.len(),
{
    if s.len() > 0 {
        lemma_unravel_len(idx / (s.last() as int), s.drop_last());
    }
}

/// For a flat index within range, every coordinate is within its axis.
pub proof fn lemma_unravel_in_bounds(idx: int, s: Seq<usize>)
    requires
        0 <= idx < shape_product(s),
    ensures
        forall|i: int| 0 <= i < s.len() ==> (#[trigger] unravel(idx, s)[i] as int) < s[i],
    decreases s.len(),
{
    if s.len() > 0 {
        let d = s.last() as int;
        lemma_product_pos_dims(s);
        assert(d >= 1);
        lemma_product_drop_last(s);
        let rest = shape_product(s.drop_last());
        lemma_mul_is_commutative(rest, d);
        lemma_multiply_divide_lt(idx, d, rest);
        lemma_div_pos_is_pos(idx, d);
        lemma_mod_division_less_than_divisor(idx, d);
        lemma_unravel_in_bounds(idx / d, s.drop_last());
        lemma_unravel_len(idx / d, s.drop_last());
        assert forall|i: int| 0 <= i < s.len() implies (#[trigger] unravel(idx, s)[i] as int)
            < s[i] by {
            if i < s.len() - 1 {
                assert(unravel(idx, s)[i] == unravel(idx / d, s.drop_last())[i]);
                assert(s.drop_last()[i] == s[i]);
            }
        }
    }
}

/// Direct flat offset of coordinates under a stride vector: the sum of
/// coordinate times stride over all axes.
pub open spec fn flat_offset(coords: Seq<usize>, strides: Seq<usize>) -> int
    decreases coords.len(),
{
    if coords.len() == 0 {
        0
    } else {
        (coords[0] as int) * (strides[0] as int) + flat_offset(
            coords.drop_first(),
            strides.drop_first(),
        )
    }
}

/// Flat offset into a (possibly broadcast) operand buffer: an axis whose own
/// dimension is 1 contributes nothing, whatever its coordinate or stride;
/// every other axis contributes coordinate times stride.
pub open spec fn ravel_offset(coords: Seq<usize>, strides: Seq<usize>, dims: Seq<usize>) -> int
    decreases coords.len(),
{
    if coords.len() == 0 {
        0
    } else {
        (if dims[0] == 1 {
            0
        } else {
            (coords[0] as int) * (strides[0] as int)
        }) + ravel_offset(coords.drop_first(), strides.drop_first(), dims.drop_first())
    }
}

pub proof fn lemma_flat_offset_nonneg(coords: Seq<usize>, strides: Seq<usize>)
    ensures
        flat_offset(coords, strides) >= 0,
    decreases coords.len(),
{
    if coords.len() > 0 {
        lemma_mul_nonnegative(coords[0] as int, strides[0] as int);
        lemma_flat_offset_nonneg(coords.drop_first(), strides.drop_first());
    }
}

pub proof fn lemma_ravel_offset_nonneg(coords: Seq<usize>, strides: Seq<usize>, dims: Seq<usize>)
    ensures
        ravel_offset(coords, strides, dims) >= 0,
    decreases coords.len(),
{
    if coords.len() > 0 {
        lemma_mul_nonnegative(coords[0] as int, strides[0] as int);
        lemma_ravel_offset_nonneg(coords.drop_first(), strides.drop_first(), dims.drop_first());
    }
}

/// The flat offset of `c` under the row-major strides of `s`, all scaled by
/// `m`: the weight of the last axis is `m`, and each axis to the left weighs
/// `m` times the product of the dimensions to its right.  At `m == 1` this
/// is the plain row-major offset; the scaling makes the last-axis recursion
/// of `unravel` provable by induction.
spec fn scaled_offset(c: Seq<usize>, s: Seq<usize>, m: int) -> int
    decreases c.len(),
{
    if c.len() == 0 {
        0
    } else {
        scaled_offset(c.drop_last(), s.drop_last(), m * (s.last() as int)) + (c.last() as int) * m
    }
}

/// `unravel` inverts the scaled offset: decomposing `k` and re-weighing the
/// coordinates gives `m * k`.
proof fn lemma_unravel_scaled(k: int, s: Seq<usize>, m: int)
    requires
        0 <= k < shape_product(s),
    ensures
        scaled_offset(unravel(k, s), s, m) == m * k,
    decreases s.len(),
{
    lemma_unravel_len(k, s);
    if s.len() == 0 {
        lemma_mul_basics(m);
    } else {
        let d = s.last() as int;
        lemma_product_pos_dims(s);
        lemma_product_drop_last(s);
        lemma_mul_is_commutative(shape_product(s.drop_last()), d);
        lemma_multiply_divide_lt(k, d, shape_product(s.drop_last()));
        lemma_div_pos_is_pos(k, d);
        let u = unravel(k, s);
        lemma_unravel_len(k / d, s.drop_last());
        assert(u.drop_last() =~= unravel(k / d, s.drop_last()));
        assert(u.last() as int == k % d) by {
            lemma_mod_division_less_than_divisor(k, d);
            lemma_mod_bound(k, d);
        }
        lemma_unravel_scaled(k / d, s.drop_last(), m * d);
        // m*d*(k/d) + (k%d)*m == m*(d*(k/d) + k%d) == m*k
        lemma_fundamental_div_mod(k, d);
        assert(scaled_offset(u, s, m) == (m * d) * (k / d) + (k % d) * m);
        lemma_mul_is_associative(m, d, k / d);
        lemma_mul_is_commutative(k % d, m);
        lemma_mul_is_distributive_add(m, d * (k / d), k % d);
        assert(m * (d * (k / d)) + m * (k % d) == m * (d * (k / d) + k % d));
    }
}

/// A stride vector whose entries are the row-major strides of `s` scaled by
/// `m` realizes the scaled offset.
proof fn lemma_flat_offset_is_scaled(c: Seq<usize>, st: Seq<usize>, s: Seq<usize>, m: int)
    requires
        c.len() == st.len() == s.len(),
        forall|i: int|
            0 <= i < s.len() ==> (#[trigger] st[i] as int) == shape_product(s.skip(i + 1)) * m,
    ensures
        flat_offset(c, st) == scaled_offset(c, s, m),
    decreases c.len(),
{
    if c.len() >= 1 {
        let d = s.last() as int;
        lemma_flat_offset_drop_last(c, st);
        assert(st.last() as int == shape_product(s.skip(s.len() as int)) * m);
        assert(s.skip(s.len() as int).len() == 0);
        assert(st.last() as int == 1 * m);
        lemma_mul_basics(m);
        assert forall|i: int| 0 <= i < s.drop_last().len() implies (
        #[trigger] st.drop_last()[i] as int) == shape_product(s.drop_last().skip(i + 1)) * (m
            * d) by {
            assert(st.drop_last()[i] == st[i]);
            assert((st[i] as int) == shape_product(s.skip(i + 1)) * m);
            lemma_product_drop_last(s.skip(i + 1));
            assert(s.skip(i + 1).drop_last() =~= s.drop_last().skip(i + 1));
            assert(s.skip(i + 1).last() == s.last());
            assert(shape_product(s.skip(i + 1)) == shape_product(s.drop_last().skip(i + 1)) * d);
            lemma_mul_is_associative(shape_product(s.drop_last().skip(i + 1)), d, m);
            lemma_mul_is_associative(shape_product(s.drop_last().skip(i + 1)), m, d);
            lemma_mul_is_commutative(d, m);
            lemma_mul_is_commutative(m, d);
        }
        lemma_flat_offset_is_scaled(c.drop_last(), st.drop_last(), s.drop_last(), m * d);
    }
}

/// The two index translations are mutually inverse on a row-major array:
/// decomposing a flat offset into coordinates and recombining them under the
/// same shape's row-major strides returns the offset, through the plain
/// weighted sum and through the broadcast-guarded one alike.
pub proof fn lemma_unravel_then_ravel(k: int, s: Seq<usize>, st: Seq<usize>)
    requires
        0 <= k < shape_product(s),
        row_major_strides(st, s),
    ensures
        flat_offset(unravel(k, s), st) == k,
        ravel_offset(unravel(k, s), st, s) == k,
{
    let u = unravel(k, s);
    lemma_unravel_len(k, s);
    lemma_unravel_in_bounds(k, s);
    assert forall|i: int| 0 <= i < s.len() implies (#[trigger] st[i] as int) == shape_product(
        s.skip(i + 1),
    ) * 1 by {
        lemma_mul_basics(shape_product(s.skip(i + 1)));
    }
    lemma_flat_offset_is_scaled(u, st, s, 1);
    lemma_unravel_scaled(k, s, 1);
    lemma_mul_basics(k);
    lemma_flat_offset_eq_ravel(u, st, s);
}

/// A shape with a zero dimension describes no elements.
pub proof fn lemma_product_zero_dim(s: Seq<usize>, z: int)
    requires
        0 <= z < s.len(),
        s[z] == 0,
    ensures
        shape_product(s) == 0,
    decreases s.len(),
{
    lemma_mul_basics(shape_product(s.drop_first()));
    lemma_mul_basics(s[0] as int);
    if z == 0 {
        assert(shape_product(s) == 0);
    } else {
        assert(s.drop_first()[z - 1] == s[z]);
        lemma_product_zero_dim(s.drop_first(), z - 1);
    }
}

/// The flat-offset sum splits at any axis.
pub proof fn lemma_flat_offset_split(c: Seq<usize>, st: Seq<usize>, k: int)
    requires
        c.len() == st.len(),
        0 <= k <= c.len(),
    ensures
        flat_offset(c, st) == flat_offset(c.take(k), st.take(k)) + flat_offset(
            c.skip(k),
            st.skip(k),
        ),
    decreases k,
{
    if k == 0 {
        assert(c.skip(0) =~= c);
        assert(st.skip(0) =~= st);
        assert(c.take(0).len() == 0);
    } else {
        lemma_flat_offset_split(c.drop_first(), st.drop_first(), k - 1);
        assert(c.take(k)[0] == c[0]);
        assert(st.take(k)[0] == st[0]);
        assert(c.take(k).drop_first() =~= c.drop_first().take(k - 1));
        assert(st.take(k).drop_first() =~= st.drop_first().take(k - 1));
        assert(c.skip(k) =~= c.drop_first().skip(k - 1));
        assert(st.skip(k) =~= st.drop_first().skip(k - 1));
    }
}

/// Axes whose coordinate or stride is zero contribute nothing.
pub proof fn lemma_flat_offset_zero_terms(c: Seq<usize>, st: Seq<usize>)
    requires
        c.len() == st.len(),
        forall|j: int| 0 <= j < c.len() ==> (#[trigger] c[j]) == 0 || st[j] == 0,
    ensures
        flat_offset(c, st) == 0,
    decreases c.len(),
{
    if c.len() > 0 {
        lemma_mul_basics(c[0] as int);
        lemma_mul_basics(st[0] as int);
        assert forall|j: int| 0 <= j < c.drop_first().len() implies (
        #[trigger] c.drop_first()[j]) == 0 || st.drop_first()[j] == 0 by {
            assert(c.drop_first()[j] == c[j + 1]);
            assert(st.drop_first()[j] == st[j + 1]);
        }
        lemma_flat_offset_zero_terms(c.drop_first(), st.drop_first());
    }
}

/// The flat-offset sum peels its last term.
pub proof fn lemma_flat_offset_drop_last(c: Seq<usize>, st: Seq<usize>)
    requires
        c.len() == st.len(),
        c.len() >= 1,
    ensures
        flat_offset(c, st) == flat_offset(c.drop_last(), st.drop_last()) + (c.last() as int) * (
        st.last() as int),
    decreases c.len(),
{
    if c.len() == 1 {
        assert(c.drop_first().len() == 0);
        assert(c.drop_last().len() == 0);
        assert(st.drop_first().len() == 0);
        assert(st.drop_last().len() == 0);
        assert(flat_offset(c.drop_first(), st.drop_first()) == 0);
        assert(flat_offset(c.drop_last(), st.drop_last()) == 0);
        assert(c.last() == c[0]);
        assert(st.last() == st[0]);
    } else {
        lemma_flat_offset_drop_last(c.drop_first(), st.drop_first());
        assert(c.drop_first().drop_last() =~= c.drop_last().drop_first());
        assert(st.drop_first().drop_last() =~= st.drop_last().drop_first());
        assert(c.drop_first().last() == c.last());
        assert(st.drop_first().last() == st.last());
        assert(c.drop_last()[0] == c[0]);
        assert(st.drop_last()[0] == st[0]);
    }
}

/// Reversing both coordinates and strides leaves the flat offset unchanged,
/// so a transposed array addresses the same buffer.
pub proof fn lemma_flat_offset_reverse(c: Seq<usize>, st: Seq<usize>)
    requires
        c.len() == st.len(),
    ensures
        flat_offset(c, st.reverse()) == flat_offset(c.reverse(), st),
    decreases c.len(),
{
    if c.len() > 0 {
        assert(st.reverse()[0] == st.last());
        assert(st.reverse().drop_first() =~= st.drop_last().reverse());
        lemma_flat_offset_reverse(c.drop_first(), st.drop_last());
        lemma_flat_offset_drop_last(c.reverse(), st);
        assert(c.reverse().drop_last() =~= c.drop_first().reverse());
        assert(c.reverse().last() == c[0]);
    }
}

/// Splitting the flat-offset sum at axis `i`: the tail sum loses its first
/// term when moving from `i` to `i + 1`.
pub proof fn lemma_flat_offset_skip_step(coords: Seq<usize>, strides: Seq<usize>, i: int)
    requires
        coords.len() == strides.len(),
        0 <= i < coords.len(),
    ensures
        flat_offset(coords.skip(i), strides.skip(i)) == (coords[i] as int) * (strides[i] as int)
            + flat_offset(coords.skip(i + 1), strides.skip(i + 1)),
{
    assert(coords.skip(i).drop_first() =~= coords.skip(i + 1));
    assert(strides.skip(i).drop_first() =~= strides.skip(i + 1));
    assert(coords.skip(i)[0] == coords[i]);
    assert(strides.skip(i)[0] == strides[i]);
}

pub proof fn lemma_ravel_offset_skip_step(
    coords: Seq<usize>,
    strides: Seq<usize>,
    dims: Seq<usize>,
    i: int,
)
    requires
        coords.len() == strides.len() == dims.len(),
        0 <= i < coords.len(),
    ensures
        ravel_offset(coords.skip(i), strides.skip(i), dims.skip(i)) == (if dims[i] == 1 {
            0
        } else {
            (coords[i] as int) * (strides[i] as int)
        }) + ravel_offset(coords.skip(i + 1), strides.skip(i + 1), dims.skip(i + 1)),
{
    assert(coords.skip(i).drop_first() =~= coords.skip(i + 1));
    assert(strides.skip(i).drop_first() =~= strides.skip(i + 1));
    assert(dims.skip(i).drop_first() =~= dims.skip(i + 1));
    assert(coords.skip(i)[0] == coords[i]);
    assert(strides.skip(i)[0] == strides[i]);
    assert(dims.skip(i)[0] == dims[i]);
}

/// A shape all of whose dimensions are positive describes at least one
/// element.
pub proof fn lemma_product_pos(s: Seq<usize>)
    requires
        forall|i: int| 0 <= i < s.len() ==> s[i] >= 1,
    ensures
        shape_product(s) >= 1,
    decreases s.len(),
{
    if s.len() > 0 {
        assert forall|i: int| 0 <= i < s.drop_first().len() implies s.drop_first()[i] >= 1 by {
            assert(s.drop_first()[i] == s[i + 1]);
        }
        lemma_product_pos(s.drop_first());
        lemma_mul_strictly_positive(s[0] as int, shape_product(s.drop_first()));
    }
}

/// Where every coordinate is within its axis, the broadcast-guarded offset
/// agrees with the plain weighted sum: a size-1 axis only admits
/// coordinate 0, which contributes nothing either way.
pub proof fn lemma_flat_offset_eq_ravel(coords: Seq<usize>, strides: Seq<usize>, dims: Seq<usize>)
    requires
        coords.len() == strides.len() == dims.len(),
        forall|i: int| 0 <= i < dims.len() ==> (coords[i] as int) < dims[i],
    ensures
        flat_offset(coords, strides) == ravel_offset(coords, strides, dims),
    decreases coords.len(),
{
    if coords.len() > 0 {
        if dims[0] == 1 {
            assert(coords[0] == 0);
            lemma_mul_basics(strides[0] as int);
        }
        assert forall|i: int| 0 <= i < dims.drop_first().len() implies (
        coords.drop_first()[i] as int) < dims.drop_first()[i] by {
            assert(coords.drop_first()[i] == coords[i + 1]);
            assert(dims.drop_first()[i] == dims[i + 1]);
        }
        lemma_flat_offset_eq_ravel(coords.drop_first(), strides.drop_first(), dims.drop_first());
    }
}

/// On axis `i`, either the operand's dimension is 1 (the axis is broadcast
/// and contributes nothing to its offset) or the coordinate lies within the
/// dimension and the stride is the operand's own row-major stride.
pub open spec fn axis_read_ok(
    coords: Seq<usize>,
    strides: Seq<usize>,
    dims: Seq<usize>,
    i: int,
) -> bool {
    dims[i] == 1 || ((coords[i] as int) < dims[i] && (strides[i] as int) == shape_product(
        dims.skip(i + 1),
    ))
}

/// The central bound: reading an operand through broadcast strides never
/// leaves its buffer.  Where every axis is read as `axis_read_ok` describes,
/// the resulting offset is below the operand's element count.
pub proof fn lemma_ravel_offset_bound(coords: Seq<usize>, strides: Seq<usize>, dims: Seq<usize>)
    requires
        coords.len() == strides.len() == dims.len(),
        forall|i: int| 0 <= i < dims.len() ==> (#[trigger] dims[i]) >= 1,
        forall|i: int| 0 <= i < dims.len() ==> #[trigger] axis_read_ok(coords, strides, dims, i),
    ensures
        0 <= ravel_offset(coords, strides, dims) < shape_product(dims),
    decreases coords.len(),
{
    if coords.len() == 0 {
    } else {
        let rest = shape_product(dims.drop_first());
        assert forall|i: int| 0 <= i < dims.drop_first().len() implies (
        #[trigger] dims.drop_first()[i]) >= 1 by {
            assert(dims.drop_first()[i] == dims[i + 1]);
        }
        lemma_product_pos(dims.drop_first());
        assert forall|i: int|
            0 <= i < dims.drop_first().len() implies #[trigger] axis_read_ok(
            coords.drop_first(),
            strides.drop_first(),
            dims.drop_first(),
            i,
        ) by {
            assert(axis_read_ok(coords, strides, dims, i + 1));
            assert(coords.drop_first()[i] == coords[i + 1]);
            assert(strides.drop_first()[i] == strides[i + 1]);
            assert(dims.drop_first()[i] == dims[i + 1]);
            assert(dims.drop_first().skip(i + 1) =~= dims.skip(i + 2));
        }
        lemma_ravel_offset_bound(coords.drop_first(), strides.drop_first(), dims.drop_first());
        assert(axis_read_ok(coords, strides, dims, 0));
        let d0 = dims[0] as int;
        if dims[0] == 1 {
            lemma_mul_basics(rest);
            assert(shape_product(dims) == 1 * rest);
        } else {
            let c0 = coords[0] as int;
            let st0 = strides[0] as int;
            assert(dims.skip(1) =~= dims.drop_first());
            assert(st0 == rest);
            lemma_mul_inequality(c0, d0 - 1, rest);
            lemma_mul_is_distributive_sub_other_way(rest, d0, 1);
            lemma_mul_basics(rest);
            assert(c0 * rest <= (d0 - 1) * rest);
            assert((d0 - 1) * rest == d0 * rest - rest);
            lemma_mul_is_commutative(d0, rest);
        }
    }
}

/// Reversing a shape does not change its element count.
pub proof fn lemma_product_reverse(s: Seq<usize>)
    ensures
        shape_product(s.reverse()) == shape_product(s),
    decreases s.len(),
{
    if s.len() > 0 {
        let rev = s.reverse();
        lemma_product_drop_last(rev);
        assert(rev.last() == s[0]);
        assert(rev.drop_last() =~= s.drop_first().reverse());
        lemma_product_reverse(s.drop_first());
        lemma_mul_is_commutative(shape_product(s.drop_first()), s[0] as int);
    }
}

// ---------------------------------------------------------------------------
// Broadcaster: the mathematical model.
// ---------------------------------------------------------------------------

/// The joint rank of two shapes: the larger of the two ranks.
pub open spec fn joint_rank(s1: Seq<usize>, s2: Seq<usize>) -> int {
    if s1.len() >= s2.len() {
        s1.len() as int
    } else {
        s2.len() as int
    }
}

/// `s` left-padded with 1s to `rank` entries, so that its dimensions align
/// with the trailing axes.
pub open spec fn pad_shape(s: Seq<usize>, rank: int) -> Seq<usize> {
    Seq::new(
        rank as nat,
        |i: int|
            if i < rank - s.len() {
                1usize
            } else {
                s[i - (rank - s.len())]
            },
    )
}

/// Two aligned dimensions can be broadcast together when they agree or
/// either is 1.
pub open spec fn dims_compatible(a: usize, b: usize) -> bool {
    a == b || a == 1 || b == 1
}

/// The joint dimension of two compatible aligned dimensions.
pub open spec fn broadcast_dim(a: usize, b: usize) -> usize {
    if a == b {
        a
    } else if a == 1 {
        b
    } else {
        a
    }
}

/// Two shapes broadcast together when every pair of aligned (padded)
/// dimensions is compatible.
pub open spec fn broadcast_ok(s1: Seq<usize>, s2: Seq<usize>) -> bool {
    let r = joint_rank(s1, s2);
    forall|i: int|
        0 <= i < r ==> #[trigger] dims_compatible(pad_shape(s1, r)[i], pad_shape(s2, r)[i])
}

/// The joint output shape of two broadcast-compatible shapes.
pub open spec fn joint_shape(s1: Seq<usize>, s2: Seq<usize>) -> Seq<usize> {
    let r = joint_rank(s1, s2);
    Seq::new(r as nat, |i: int| broadcast_dim(pad_shape(s1, r)[i], pad_shape(s2, r)[i]))
}

/// `st` is the stride vector with which an operand of padded shape `s_pad`
/// is read while iterating the joint shape: its own row-major stride where
/// its dimension participates, 0 where its size-1 dimension is repeated
/// across the other operand's axis.
pub open spec fn is_broadcast_strides(st: Seq<usize>, s_pad: Seq<usize>, o_pad: Seq<usize>) -> bool {
    &&& st.len() == s_pad.len()
    &&& forall|i: int|
        0 <= i < s_pad.len() ==> (#[trigger] st[i] as int) == (if s_pad[i] == 1 && o_pad[i] != 1 {
            0
        } else {
            shape_product(s_pad.skip(i + 1))
        })
}

/// The stride vector described by `is_broadcast_strides`, as a sequence:
/// the operand's own row-major stride on participating axes, 0 on axes where
/// its size-1 dimension is repeated.
pub open spec fn broadcast_strides_of(s_pad: Seq<usize>, o_pad: Seq<usize>) -> Seq<usize> {
    Seq::new(
        s_pad.len(),
        |i: int|
            if s_pad[i] == 1 && o_pad[i] != 1 {
                0usize
            } else {
                shape_product(s_pad.skip(i + 1)) as usize
            },
    )
}

/// Under the overflow side condition the broadcast stride vector is unique:
/// any vector satisfying the predicate is `broadcast_strides_of`.
pub proof fn lemma_broadcast_strides_unique(st: Seq<usize>, s_pad: Seq<usize>, o_pad: Seq<usize>)
    requires
        is_broadcast_strides(st, s_pad, o_pad),
        strides_fit(s_pad),
    ensures
        st == broadcast_strides_of(s_pad, o_pad),
{
    assert forall|i: int| 0 <= i < s_pad.len() implies st[i] == broadcast_strides_of(
        s_pad,
        o_pad,
    )[i] by {
        lemma_product_nonneg(s_pad.skip(i + 1));
        assert(shape_product(s_pad.skip(i + 1)) <= usize::MAX);
    }
    assert(st =~= broadcast_strides_of(s_pad, o_pad));
}

/// Broadcasting is symmetric: compatibility and the joint shape do not
/// depend on the order of the operands.
pub proof fn lemma_broadcast_symmetric(s1: Seq<usize>, s2: Seq<usize>)
    ensures
        joint_rank(s2, s1) == joint_rank(s1, s2),
        broadcast_ok(s2, s1) == broadcast_ok(s1, s2),
        broadcast_ok(s1, s2) ==> joint_shape(s2, s1) =~= joint_shape(s1, s2),
{
    let r12 = joint_rank(s1, s2);
    let r21 = joint_rank(s2, s1);
    assert(r21 == r12);
    if broadcast_ok(s1, s2) {
        assert forall|i: int| 0 <= i < r21 implies #[trigger] dims_compatible(
            pad_shape(s2, r21)[i],
            pad_shape(s1, r21)[i],
        ) by {
            assert(dims_compatible(pad_shape(s1, r12)[i], pad_shape(s2, r12)[i]));
            assert(pad_shape(s2, r21)[i] == pad_shape(s2, r12)[i]);
            assert(pad_shape(s1, r21)[i] == pad_shape(s1, r12)[i]);
        }
        assert(broadcast_ok(s2, s1));
    }
    if broadcast_ok(s2, s1) {
        assert forall|i: int| 0 <= i < r12 implies #[trigger] dims_compatible(
            pad_shape(s1, r12)[i],
            pad_shape(s2, r12)[i],
        ) by {
            assert(dims_compatible(pad_shape(s2, r21)[i], pad_shape(s1, r21)[i]));
            assert(pad_shape(s2, r21)[i] == pad_shape(s2, r12)[i]);
            assert(pad_shape(s1, r21)[i] == pad_shape(s1, r12)[i]);
        }
        assert(broadcast_ok(s1, s2));
    }
    if broadcast_ok(s1, s2) {
        assert forall|i: int| 0 <= i < r12 implies joint_shape(s2, s1)[i] == joint_shape(
            s1,
            s2,
        )[i] by {
            assert(dims_compatible(pad_shape(s1, r12)[i], pad_shape(s2, r12)[i]));
            assert(joint_shape(s2, s1)[i] == broadcast_dim(
                pad_shape(s2, r21)[i],
                pad_shape(s1, r21)[i],
            ));
            assert(joint_shape(s1, s2)[i] == broadcast_dim(
                pad_shape(s1, r12)[i],
                pad_shape(s2, r12)[i],
            ));
            assert(pad_shape(s2, r21)[i] == pad_shape(s2, r12)[i]);
            assert(pad_shape(s1, r21)[i] == pad_shape(s1, r12)[i]);
        }
    }
}

/// The flat offset into the first operand's buffer from which output cell
/// `k` is read when shapes `s1` and `s2` are broadcast together.
pub open spec fn source_offset(k: int, s1: Seq<usize>, s2: Seq<usize>) -> int {
    let r = joint_rank(s1, s2);
    ravel_offset(
        unravel(k, joint_shape(s1, s2)),
        broadcast_strides_of(pad_shape(s1, r), pad_shape(s2, r)),
        pad_shape(s1, r),
    )
}

/// When the joint shape has a cell `k`, every padded dimension of the first
/// operand is positive, and the offset from which that cell reads the first
/// operand lies inside the operand's buffer.
pub proof fn lemma_source_offset_in_bounds(k: int, s1: Seq<usize>, s2: Seq<usize>)
    requires
        broadcast_ok(s1, s2),
        strides_fit(s1),
        0 <= k < shape_product(joint_shape(s1, s2)),
    ensures
        0 <= source_offset(k, s1, s2) < shape_product(s1),
{
    let r = joint_rank(s1, s2);
    let p1 = pad_shape(s1, r);
    let p2 = pad_shape(s2, r);
    lemma_pad_strides_fit(s1, r);
    let bshape = joint_shape(s1, s2);
    let coords = unravel(k, bshape);
    let st = broadcast_strides_of(p1, p2);
    lemma_product_pos_dims(bshape);
    lemma_unravel_len(k, bshape);
    lemma_unravel_in_bounds(k, bshape);
    assert forall|i: int| 0 <= i < p1.len() implies (#[trigger] p1[i]) >= 1 by {
        assert(dims_compatible(p1[i], p2[i]));
        assert(bshape[i] == broadcast_dim(p1[i], p2[i]));
        assert(bshape[i] >= 1);
    }
    assert forall|i: int| 0 <= i < p1.len() implies #[trigger] axis_read_ok(coords, st, p1, i) by {
        assert(dims_compatible(p1[i], p2[i]));
        assert(bshape[i] == broadcast_dim(p1[i], p2[i]));
        assert((coords[i] as int) < bshape[i]);
        if p1[i] != 1 {
            assert(bshape[i] == p1[i]);
            lemma_product_nonneg(p1.skip(i + 1));
            assert(shape_product(p1.skip(i + 1)) <= usize::MAX);
        }
    }
    lemma_ravel_offset_bound(coords, st, p1);
    lemma_pad_product(s1, r);
}

/// Broadcasting a shape with itself is the identity: the joint shape is the
/// shape, and every output cell reads each operand at the cell's own flat
/// index.
pub proof fn lemma_source_offset_identity(k: int, s: Seq<usize>)
    requires
        strides_fit(s),
        0 <= k < shape_product(s),
    ensures
        joint_shape(s, s) == s,
        source_offset(k, s, s) == k,
{
    let r = joint_rank(s, s);
    assert(pad_shape(s, r) =~= s);
    assert(joint_shape(s, s) =~= s);
    let st = broadcast_strides_of(s, s);
    assert forall|i: int| 0 <= i < s.len() implies (#[trigger] st[i] as int) == shape_product(
        s.skip(i + 1),
    ) by {
        lemma_product_nonneg(s.skip(i + 1));
        assert(shape_product(s.skip(i + 1)) <= usize::MAX);
    }
    lemma_unravel_then_ravel(k, s, st);
}

/// Trailing slices of a padded shape that start at or after the padding are
/// trailing slices of the original shape.
pub proof fn lemma_pad_skip_tail(s: Seq<usize>, rank: int, i: int)
    requires
        rank >= s.len(),
        rank - s.len() <= i <= rank,
    ensures
        pad_shape(s, rank).skip(i) =~= s.skip(i - (rank - s.len())),
{
}

/// Trailing slices of a padded shape that start inside the padding all have
/// the product of the whole shape: leading 1s contribute nothing.
pub proof fn lemma_pad_skip_head(s: Seq<usize>, rank: int, i: int)
    requires
        rank >= s.len(),
        0 <= i <= rank - s.len(),
    ensures
        shape_product(pad_shape(s, rank).skip(i)) == shape_product(s),
    decreases rank - s.len() - i,
{
    let p = pad_shape(s, rank);
    if i == rank - s.len() {
        lemma_pad_skip_tail(s, rank, i);
        assert(s.skip(0) =~= s);
    } else {
        lemma_product_skip_step(p, i);
        assert(p[i] == 1);
        lemma_pad_skip_head(s, rank, i + 1);
        lemma_mul_basics(shape_product(p.skip(i + 1)));
    }
}

/// Padding preserves the element count.
pub proof fn lemma_pad_product(s: Seq<usize>, rank: int)
    requires
        rank >= s.len(),
    ensures
        shape_product(pad_shape(s, rank)) == shape_product(s),
{
    lemma_pad_skip_head(s, rank, 0);
    assert(pad_shape(s, rank).skip(0) =~= pad_shape(s, rank));
}

/// Padding preserves the overflow side condition.
pub proof fn lemma_pad_strides_fit(s: Seq<usize>, rank: int)
    requires
        rank >= s.len(),
        strides_fit(s),
    ensures
        strides_fit(pad_shape(s, rank)),
{
    let p = pad_shape(s, rank);
    assert forall|i: int| 0 <= i <= p.len() implies shape_product(#[trigger] p.skip(i))
        <= usize::MAX by {
        if i <= rank - s.len() {
            lemma_pad_skip_head(s, rank, i);
            assert(shape_product(s.skip(0)) <= usize::MAX);
            assert(s.skip(0) =~= s);
        } else {
            lemma_pad_skip_tail(s, rank, i);
            assert(shape_product(s.skip(i - (rank - s.len()))) <= usize::MAX);
        }
    }
}

// ---------------------------------------------------------------------------
// Broadcaster: the executable functions.
// ---------------------------------------------------------------------------

/// `shape` left-padded with 1s to `rank` entries.
pub(crate) fn pad_to(shape: &Vec<usize>, rank: usize) -> (padded: Vec<usize>)
    requires
        rank >= shape@.len(),
    ensures
        padded@ == pad_shape(shape@, rank as int),
{
    let npad = rank - shape.len();
    let mut padded: Vec<usize> = Vec::new();
    let mut i: usize = 0;
    while i < npad
        invariant
            i <= npad,
            padded@.len() == i,
            npad == rank - shape@.len(),
            forall|k: int| 0 <= k < i ==> padded@[k] == 1,
        decreases npad - i,
    {
        padded.push(1);
        i = i + 1;
    }
    let mut j: usize = 0;
    while j < shape.len()
        invariant
            j <= shape@.len(),
            padded@.len() == npad + j,
            npad == rank - shape@.len(),
            forall|k: int| 0 <= k < npad ==> padded@[k] == 1,
            forall|k: int| npad <= k < npad + j ==> padded@[k] == shape@[k - npad],
        decreases shape@.len() - j,
    {
        padded.push(shape[j]);
        j = j + 1;
    }
    proof {
        assert(padded@ =~= pad_shape(shape@, rank as int));
    }
    padded
}

/// Computes the joint output shape of two broadcast-compatible shapes and
/// the stride vector with which each operand is read while iterating that
/// joint shape (0 on axes where the operand's size-1 dimension is repeated).
/// Fails with `ShapeMismatch` exactly when some pair of aligned dimensions
/// differs with neither equal to 1.
pub fn broadcast_shapes(shape1: &Vec<usize>, shape2: &Vec<usize>) -> (result: Result<
    (Vec<usize>, Vec<usize>, Vec<usize>),
    crate::errors::ArrayError,
>)
    requires
        shape1@.len() >= 1 || shape2@.len() >= 1,
        strides_fit(shape1@),
        strides_fit(shape2@),
    ensures
        match result {
            Ok(out) => {
                let r = joint_rank(shape1@, shape2@);
                &&& broadcast_ok(shape1@, shape2@)
                &&& out.0@ == joint_shape(shape1@, shape2@)
                &&& is_broadcast_strides(out.1@, pad_shape(shape1@, r), pad_shape(shape2@, r))
                &&& is_broadcast_strides(out.2@, pad_shape(shape2@, r), pad_shape(shape1@, r))
            },
            Err(e) => {
                &&& e == crate::errors::ArrayError::ShapeMismatch
                &&& !broadcast_ok(shape1@, shape2@)
            },
        },
{
    let rank = if shape1.len() >= shape2.len() {
        shape1.len()
    } else {
        shape2.len()
    };
    let s_shape = pad_to(shape1, rank);
    let o_shape = pad_to(shape2, rank);
    proof {
        lemma_pad_strides_fit(shape1@, rank as int);
        lemma_pad_strides_fit(shape2@, rank as int);
    }
    let s_base = compute_strides(&s_shape);
    let o_base = compute_strides(&o_shape);
    let mut shape: Vec<usize> = Vec::new();
    let mut s_strides: Vec<usize> = Vec::new();
    let mut o_strides: Vec<usize> = Vec::new();
    let mut i: usize = 0;
    while i < rank
        invariant
            i <= rank,
            rank as int == joint_rank(shape1@, shape2@),
            s_shape@ == pad_shape(shape1@, rank as int),
            o_shape@ == pad_shape(shape2@, rank as int),
            s_shape@.len() == rank,
            o_shape@.len() == rank,
            row_major_strides(s_base@, s_shape@),
            row_major_strides(o_base@, o_shape@),
            shape@.len() == i,
            s_strides@.len() == i,
            o_strides@.len() == i,
            forall|k: int|
                0 <= k < i ==> #[trigger] dims_compatible(s_shape@[k], o_shape@[k]),
            forall|k: int|
                0 <= k < i ==> #[trigger] shape@[k] == broadcast_dim(s_shape@[k], o_shape@[k]),
            forall|k: int|
                0 <= k < i ==> (#[trigger] s_strides@[k] as int) == (if s_shape@[k] == 1
                    && o_shape@[k] != 1 {
                    0
                } else {
                    shape_product(s_shape@.skip(k + 1))
                }),
            forall|k: int|
                0 <= k < i ==> (#[trigger] o_strides@[k] as int) == (if o_shape@[k] == 1
                    && s_shape@[k] != 1 {
                    0
                } else {
                    shape_product(o_shape@.skip(k + 1))
                }),
        decreases rank - i,
    {
        let a = s_shape[i];
        let b = o_shape[i];
        if a == b {
            shape.push(a);
            s_strides.push(s_base[i]);
            o_strides.push(o_base[i]);
        } else if a == 1 {
            shape.push(b);
            s_strides.push(0);
            o_strides.push(o_base[i]);
        } else if b == 1 {
            shape.push(a);
            s_strides.push(s_base[i]);
            o_strides.push(0);
        } else {
            proof {
                assert(!dims_compatible(pad_shape(shape1@, rank as int)[i as int], pad_shape(
                    shape2@,
                    rank as int,
                )[i as int]));
            }
            return Err(crate::errors::ArrayError::ShapeMismatch);
        }
        i = i + 1;
    }
    proof {
        assert(shape@ =~= joint_shape(shape1@, shape2@));
    }
    Ok((shape, s_strides, o_strides))
}

// ---------------------------------------------------------------------------
// Index Translator: the executable functions.
// ---------------------------------------------------------------------------

/// Decomposes a flat index in `[0, product(shape))` into per-axis
/// coordinates in row-major order (last axis varies fastest).
pub fn unravel_index(idx: usize, shape: &Vec<usize>) -> (indices: Vec<usize>)
    requires
        idx < shape_product(shape@),
    ensures
        indices@ == unravel(idx as int, shape@),
        indices@.len() == shape@.len(),
{
    let n = shape.len();
    proof {
        lemma_product_pos_dims(shape@);
        lemma_unravel_len(idx as int, shape@);
    }
    let ghost target = unravel(idx as int, shape@);
    let mut indices: Vec<usize> = Vec::new();
    let mut j: usize = 0;
    while j < n
        invariant
            j <= n,
            indices@.len() == j,
        decreases n - j,
    {
        indices.push(0);
        j = j + 1;
    }
    let mut cur: usize = idx;
    let mut i: usize = n;
    proof {
        assert(shape@.take(n as int) =~= shape@);
        assert(target.take(n as int) =~= target);
    }
    while i > 0
        invariant
            i <= n,
            n == shape@.len(),
            indices@.len() == n,
            target == unravel(idx as int, shape@),
            target.len() == n,
            forall|k: int| 0 <= k < shape@.len() ==> shape@[k] >= 1,
            target.take(i as int) == unravel(cur as int, shape@.take(i as int)),
            forall|k: int| i <= k < n ==> indices@[k] == target[k],
        decreases i,
    {
        let dim = shape[i - 1];
        let c = cur % dim;
        let next = cur / dim;
        proof {
            let ii = i as int;
            let pre = shape@.take(ii);
            assert(pre.last() == shape@[ii - 1]);
            assert(pre.drop_last() =~= shape@.take(ii - 1));
            assert(unravel(cur as int, pre) == unravel(
                next as int,
                shape@.take(ii - 1),
            ).push(c));
            lemma_unravel_len(next as int, shape@.take(ii - 1));
            assert(target[ii - 1] == target.take(ii).last());
            assert(target.take(ii - 1) =~= target.take(ii).drop_last());
        }
        indices.set(i - 1, c);
        cur = next;
        i = i - 1;
    }
    proof {
        assert forall|k: int| 0 <= k < n implies indices@[k] == target[k] by {}
        assert(indices@ =~= target);
    }
    indices
}

/// Recombines per-axis coordinates into a flat offset into an operand's own
/// buffer: axes where the operand's dimension is 1 are broadcast and
/// contribute 0; all other axes contribute coordinate times stride.
pub fn ravel_index(indices: &Vec<usize>, strides: &Vec<usize>, shape: &Vec<usize>) -> (offset:
    usize)
    requires
        indices@.len() == strides@.len() == shape@.len(),
        ravel_offset(indices@, strides@, shape@) <= usize::MAX,
    ensures
        offset == ravel_offset(indices@, strides@, shape@),
{
    let n = indices.len();
    let ghost total = ravel_offset(indices@, strides@, shape@);
    let mut acc: usize = 0;
    let mut i: usize = 0;
    proof {
        assert(indices@.skip(0) =~= indices@);
        assert(strides@.skip(0) =~= strides@);
        assert(shape@.skip(0) =~= shape@);
    }
    while i < n
        invariant
            i <= n,
            n == indices@.len() == strides@.len() == shape@.len(),
            total == ravel_offset(indices@, strides@, shape@),
            total <= usize::MAX,
            acc + ravel_offset(indices@.skip(i as int), strides@.skip(i as int), shape@.skip(
                i as int,
            )) == total,
        decreases n - i,
    {
        proof {
            lemma_ravel_offset_skip_step(indices@, strides@, shape@, i as int);
            lemma_ravel_offset_nonneg(
                indices@.skip(i as int + 1),
                strides@.skip(i as int + 1),
                shape@.skip(i as int + 1),
            );
            lemma_mul_nonnegative(indices@[i as int] as int, strides@[i as int] as int);
        }
        if shape[i] != 1 {
            acc = acc + indices[i] * strides[i];
        }
        i = i + 1;
    }
    proof {
        assert(indices@.skip(n as int).len() == 0);
    }
    acc
}

// ---------------------------------------------------------------------------
// Stride Calculator.
// ---------------------------------------------------------------------------

/// Derives the row-major stride vector of `shape`: the last axis has stride
/// 1 and each axis to the left spans the product of all dimensions to its
/// right.
pub fn compute_strides(shape: &Vec<usize>) -> (strides: Vec<usize>)
    requires
        shape@.len() >= 1,
        strides_fit(shape@),
    ensures
        row_major_strides(strides@, shape@),
{
    let n = shape.len();
    let mut strides: Vec<usize> = Vec::new();
    let mut j: usize = 0;
    while j < n
        invariant
            j <= n,
            strides@.len() == j,
            forall|k: int| 0 <= k < j ==> strides@[k] == 1,
        decreases n - j,
    {
        strides.push(1);
        j = j + 1;
    }
    assert(shape@.skip(n as int).len() == 0);
    let mut i: usize = n - 1;
    while i > 0
        invariant
            i < n,
            n == shape@.len(),
            strides@.len() == n,
            strides_fit(shape@),
            forall|k: int| i <= k < n ==> strides@[k] == shape_product(#[trigger] shape@.skip(
                k + 1,
            )),
        decreases i,
    {
        proof {
            lemma_product_skip_step(shape@, i as int);
            lemma_product_nonneg(shape@.skip(i as int + 1));
            assert(shape_product(shape@.skip(i as int)) <= usize::MAX);
        }
        let next = strides[i];
        let entry = shape[i] * next;
        strides.set(i - 1, entry);
        i = i - 1;
    }
    strides
}

/// The number of elements a shape describes.  The overflow side condition
/// `strides_fit` guarantees every partial (trailing) product fits.
pub fn element_count(shape: &Vec<usize>) -> (count: usize)
    requires
        strides_fit(shape@),
    ensures
        count as int == shape_product(shape@),
{
    let n = shape.len();
    let mut acc: usize = 1;
    let mut i: usize = n;
    proof {
        assert(shape@.skip(n as int).len() == 0);
    }
    while i > 0
        invariant
            i <= n,
            n == shape@.len(),
            strides_fit(shape@),
            acc as int == shape_product(shape@.skip(i as int)),
        decreases i,
    {
        proof {
            lemma_product_skip_step(shape@, i as int - 1);
            lemma_product_nonneg(shape@.skip(i as int));
            assert(shape_product(shape@.skip(i as int - 1)) <= usize::MAX);
        }
        acc = shape[i - 1] * acc;
        i = i - 1;
    }
    proof {
        assert(shape@.skip(0) =~= shape@);
    }
    acc
}

/// Decides the overflow side condition at run time: every trailing product
/// of `shape` fits in a `usize`.
pub fn strides_fit_check(shape: &Vec<usize>) -> (ok: bool)
    ensures
        ok == strides_fit(shape@),
{
    let n = shape.len();
    let mut acc: usize = 1;
    let mut i: usize = n;
    proof {
        assert(shape@.skip(n as int).len() == 0);
    }
    while i > 0
        invariant
            i <= n,
            n == shape@.len(),
            acc as int == shape_product(shape@.skip(i as int)),
            forall|k: int|
                i <= k <= n ==> shape_product(#[trigger] shape@.skip(k)) <= usize::MAX,
        decreases i,
    {
        proof {
            lemma_product_skip_step(shape@, i as int - 1);
            lemma_product_nonneg(shape@.skip(i as int));
        }
        match shape[i - 1].checked_mul(acc) {
            Some(next) => {
                acc = next;
            },
            None => {
                proof {
                    assert(shape_product(shape@.skip(i as int - 1)) > usize::MAX);
                }
                return false;
            },
        }
        i = i - 1;
    }
    true
}

/// The plain flat offset of `indices` under `strides`, or `None` when it
/// does not fit in a `usize` (and so certainly lies outside any buffer).
pub(crate) fn flat_index(indices: &Vec<usize>, strides: &Vec<usize>) -> (result: Option<usize>)
    requires
        indices@.len() == strides@.len(),
    ensures
        match result {
            Some(f) => f as int == flat_offset(indices@, strides@),
            None => flat_offset(indices@, strides@) > usize::MAX,
        },
{
    let n = indices.len();
    let ghost total = flat_offset(indices@, strides@);
    let mut acc: usize = 0;
    let mut i: usize = 0;
    proof {
        assert(indices@.skip(0) =~= indices@);
        assert(strides@.skip(0) =~= strides@);
    }
    while i < n
        invariant
            i <= n,
            n == indices@.len() == strides@.len(),
            total == flat_offset(indices@, strides@),
            acc + flat_offset(indices@.skip(i as int), strides@.skip(i as int)) == total,
        decreases n - i,
    {
        proof {
            lemma_flat_offset_skip_step(indices@, strides@, i as int);
            lemma_flat_offset_nonneg(indices@.skip(i as int + 1), strides@.skip(i as int + 1));
            lemma_mul_nonnegative(indices@[i as int] as int, strides@[i as int] as int);
        }
        let term = match indices[i].checked_mul(strides[i]) {
            Some(t) => t,
            None => {
                return None;
            },
        };
        acc = match acc.checked_add(term) {
            Some(a) => a,
            None => {
                return None;
            },
        };
        i = i + 1;
    }
    proof {
        assert(indices@.skip(n as int).len() == 0);
    }
    Some(acc)
}

/// A fresh vector with the same contents.
pub(crate) fn copy_contents<T: Copy>(v: &Vec<T>) -> (out: Vec<T>)
    ensures
        out@ == v@,
{
    let mut out: Vec<T> = Vec::new();
    let mut i: usize = 0;
    while i < v.len()
        invariant
            i <= v@.len(),
            out@ =~= v@.take(i as int),
        decreases v@.len() - i,
    {
        out.push(v[i]);
        i = i + 1;
    }
    proof {
        assert(v@.take(v@.len() as int) =~= v@);
    }
    out
}

/// Whether two vectors hold the same sequence.
pub(crate) fn vecs_equal(a: &Vec<usize>, b: &Vec<usize>) -> (r: bool)
    ensures
        r <==> a@ == b@,
{
    if a.len() != b.len() {
        return false;
    }
    let mut i: usize = 0;
    while i < a.len()
        invariant
            i <= a@.len(),
            a@.len() == b@.len(),
            forall|k: int| 0 <= k < i ==> a@[k] == b@[k],
        decreases a@.len() - i,
    {
        if a[i] != b[i] {
            return false;
        }
        i = i + 1;
    }
    proof {
        assert(a@ =~= b@);
    }
    true
}

/// A fresh vector with the contents in reverse order.
pub(crate) fn reversed(v: &Vec<usize>) -> (out: Vec<usize>)
    ensures
        out@ == v@.reverse(),
{
    let n = v.len();
    let mut out: Vec<usize> = Vec::new();
    let mut i: usize = n;
    while i > 0
        invariant
            i <= n,
            n == v@.len(),
            out@.len() == n - i,
            forall|k: int| 0 <= k < n - i ==> out@[k] == v@[n - 1 - k],
        decreases i,
    {
        out.push(v[i - 1]);
        i = i - 1;
    }
    proof {
        assert(out@ =~= v@.reverse());
    }
    out
}

/// The stride vector obeys the row-major recurrence: the last stride is 1
/// and each other stride is the next stride scaled by the next dimension.
pub proof fn lemma_strides_recurrence(st: Seq<usize>, s: Seq<usize>)
    requires
        row_major_strides(st, s),
        s.len() >= 1,
    ensures
        st[s.len() - 1] == 1,
        forall|i: int| 0 <= i < s.len() - 1 ==> #[trigger] (st[i] as int) == (st[i + 1] as int) * (
        s[i + 1] as int),
{
    let last = s.len() - 1;
    assert(st[last] == shape_product(s.skip(last + 1)));
    assert(s.skip(last + 1).len() == 0);
    assert forall|i: int| 0 <= i < s.len() - 1 implies #[trigger] (st[i] as int) == (st[i
        + 1] as int) * (s[i + 1] as int) by {
        lemma_product_skip_step(s, i + 1);
        lemma_mul_is_commutative(s[i + 1] as int, st[i + 1] as int);
        assert(st[i] == shape_product(s.skip(i + 1)));
        assert(st[i + 1] == shape_product(s.skip(i + 2)));
    }
}

} // verus!
