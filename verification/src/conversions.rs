use crate::errors::ArrayError;
use crate::utils::{
    axis_read_ok, flat_offset, lemma_flat_offset_eq_ravel, lemma_flat_offset_split,
    lemma_flat_offset_zero_terms, lemma_product_zero_dim, lemma_ravel_offset_bound,
    ravel_offset, row_major_strides, shape_product, strides_fit,
};
use vstd::arithmetic::mul::*;
use vstd::prelude::*;

verus! {

/// A rectangular nested sequence: the ingest and egress form of an array.
/// Depth equals rank; every leaf is one element.
#[derive(Debug)]
pub enum Nested<T> {
    Leaf(T),
    List(Vec<Nested<T>>),
}

// ---------------------------------------------------------------------------
// The mathematical model of nested sequences.
// ---------------------------------------------------------------------------

/// `x` is rectangular with shape `s`: a leaf has the empty shape, and a list
/// of length `s[0]` has shape `s` when each entry has shape `s[1..]`.
pub open spec fn matches_shape<T>(x: Nested<T>, s: Seq<usize>) -> bool
    decreases x,
{
    match x {
        Nested::Leaf(_) => s.len() == 0,
        Nested::List(v) => s.len() >= 1 && v@.len() == s[0] && (forall|i: int|
            0 <= i < v@.len() ==> matches_shape(#[trigger] v@[i], s.drop_first())),
    }
}

/// The canonical shape of a nested sequence: list lengths along the leftmost
/// path.  An empty list has shape `[0]`, since nothing below it can be seen.
pub open spec fn nested_shape<T>(x: Nested<T>) -> Seq<usize>
    decreases x,
{
    match x {
        Nested::Leaf(_) => Seq::empty(),
        Nested::List(v) => if v@.len() == 0 {
            seq![0usize]
        } else {
            seq![v@.len() as usize] + nested_shape(v@[0])
        },
    }
}

/// The elements of a nested sequence in row-major order.
pub open spec fn flatten<T>(x: Nested<T>) -> Seq<T>
    decreases x,
{
    match x {
        Nested::Leaf(t) => seq![t],
        Nested::List(v) => flatten_list(v@),
    }
}

/// The elements of a row of nested sequences, in order.
pub open spec fn flatten_list<T>(elems: Seq<Nested<T>>) -> Seq<T>
    decreases elems,
{
    if elems.len() == 0 {
        Seq::empty()
    } else {
        flatten(elems[0]) + flatten_list(elems.drop_first())
    }
}

/// Every dimension but possibly the last is positive.  Canonical shapes have
/// this form: a zero length can only be seen at the deepest listed axis.
pub open spec fn zero_free_prefix(s: Seq<usize>) -> bool {
    forall|i: int| 0 <= i < s.len() - 1 ==> (#[trigger] s[i]) >= 1
}

/// `x` is the nested sequence read out of `data` at `offset` under `shape`
/// and `strides`: a leaf holds the element at `offset`, and entry `i` of a
/// list is read at `offset + i * strides[0]` one axis down.
pub open spec fn represents<T>(
    x: Nested<T>,
    data: Seq<T>,
    shape: Seq<usize>,
    strides: Seq<usize>,
    offset: int,
) -> bool
    decreases x,
{
    match x {
        Nested::Leaf(t) => shape.len() == 0 && 0 <= offset < data.len() && t == data[offset],
        Nested::List(v) => shape.len() >= 1 && v@.len() == shape[0] && (forall|i: int|
            0 <= i < v@.len() ==> represents(
                #[trigger] v@[i],
                data,
                shape.drop_first(),
                strides.drop_first(),
                offset + i * (strides[0] as int),
            )),
    }
}

/// Structural equality of nested sequences: same form, same elements.
pub open spec fn nested_eq<T>(x: Nested<T>, y: Nested<T>) -> bool
    decreases x,
{
    match (x, y) {
        (Nested::Leaf(a), Nested::Leaf(b)) => a == b,
        (Nested::List(v), Nested::List(w)) => v@.len() == w@.len() && (forall|i: int|
            0 <= i < v@.len() ==> nested_eq(#[trigger] v@[i], w@[i])),
        _ => false,
    }
}

// ---------------------------------------------------------------------------
// Facts about nested sequences.
// ---------------------------------------------------------------------------

/// A vector's ghost length fits in `usize`, since `Vec::len` returns one.
proof fn lemma_vec_len_fits<A>(v: Vec<A>)
    ensures
        v@.len() <= usize::MAX,
{
    assert(vstd::std_specs::vec::spec_vec_len(&v) == v@.len());
}

/// Canonical shapes are zero-free except possibly at the last axis.
pub proof fn lemma_nested_shape_zero_free<T>(x: Nested<T>)
    ensures
        zero_free_prefix(nested_shape(x)),
    decreases x,
{
    match x {
        Nested::Leaf(_) => {},
        Nested::List(v) => {
            if v@.len() > 0 {
                lemma_vec_len_fits(v);
                lemma_nested_shape_zero_free(v@[0]);
                let sub = nested_shape(v@[0]);
                let s = nested_shape(x);
                assert(s == seq![v@.len() as usize] + sub);
                assert(s.len() == 1 + sub.len());
                assert forall|i: int| 0 <= i < s.len() - 1 implies (#[trigger] s[i]) >= 1 by {
                    if i == 0 {
                        assert(s[0] == v@.len());
                    } else {
                        assert(s[i] == sub[i - 1]);
                        assert(sub[i - 1] >= 1);
                    }
                }
            }
        },
    }
}

/// A zero-free-prefix shape that `x` matches is the canonical shape: shapes
/// are unique as long as no dimension before the last is zero.
pub proof fn lemma_matches_shape_unique<T>(x: Nested<T>, s: Seq<usize>)
    requires
        matches_shape(x, s),
        zero_free_prefix(s),
    ensures
        s =~= nested_shape(x),
    decreases x,
{
    match x {
        Nested::Leaf(_) => {},
        Nested::List(v) => {
            if v@.len() == 0 {
                if s.len() >= 2 {
                    assert(s[0] >= 1);
                }
                assert(s.len() == 1);
            } else {
                assert(matches_shape(v@[0], s.drop_first()));
                assert forall|i: int| 0 <= i < s.drop_first().len() - 1 implies (
                #[trigger] s.drop_first()[i]) >= 1 by {
                    assert(s[i + 1] >= 1);
                }
                lemma_matches_shape_unique(v@[0], s.drop_first());
                assert(s =~= seq![s[0]] + s.drop_first());
            }
        },
    }
}

/// A nested sequence of shape `s` flattens to exactly `product(s)` elements.
pub proof fn lemma_flatten_len<T>(x: Nested<T>, s: Seq<usize>)
    requires
        matches_shape(x, s),
    ensures
        flatten(x).len() == shape_product(s),
    decreases x, 1int,
{
    match x {
        Nested::Leaf(_) => {},
        Nested::List(v) => {
            lemma_flatten_list_len(v@, s.drop_first());
            assert(shape_product(s) == (s[0] as int) * shape_product(s.drop_first()));
        },
    }
}

/// A row of `n` nested sequences of shape `s` flattens to `n * product(s)`
/// elements.
pub proof fn lemma_flatten_list_len<T>(elems: Seq<Nested<T>>, s: Seq<usize>)
    requires
        forall|i: int| 0 <= i < elems.len() ==> matches_shape(#[trigger] elems[i], s),
    ensures
        flatten_list(elems).len() == elems.len() * shape_product(s),
    decreases elems, 0int,
{
    if elems.len() == 0 {
        lemma_mul_basics(shape_product(s));
    } else {
        lemma_flatten_len(elems[0], s);
        assert forall|i: int| 0 <= i < elems.drop_first().len() implies matches_shape(
            #[trigger] elems.drop_first()[i],
            s,
        ) by {
            assert(elems.drop_first()[i] == elems[i + 1]);
        }
        lemma_flatten_list_len(elems.drop_first(), s);
        lemma_mul_is_distributive_add_other_way(shape_product(s), 1, elems.len() - 1);
        lemma_mul_basics(shape_product(s));
        lemma_mul_is_commutative(shape_product(s), elems.len() - 1);
        lemma_mul_is_commutative(shape_product(s), elems.len() as int);
    }
}

/// Flattening a row splits at any point: the first `j` entries flatten to a
/// prefix and the rest to the remainder.
pub proof fn lemma_flatten_list_split<T>(elems: Seq<Nested<T>>, j: int)
    requires
        0 <= j <= elems.len(),
    ensures
        flatten_list(elems) == flatten_list(elems.take(j)) + flatten_list(elems.skip(j)),
    decreases j,
{
    if j == 0 {
        assert(elems.skip(0) =~= elems);
        assert(elems.take(0).len() == 0);
        assert(flatten_list(elems.take(0)) + flatten_list(elems) =~= flatten_list(elems));
    } else {
        lemma_flatten_list_split(elems.drop_first(), j - 1);
        assert(elems.take(j)[0] == elems[0]);
        assert(elems.take(j).drop_first() =~= elems.drop_first().take(j - 1));
        assert(elems.skip(j) =~= elems.drop_first().skip(j - 1));
        assert(flatten(elems[0]) + (flatten_list(elems.drop_first().take(j - 1)) + flatten_list(
            elems.drop_first().skip(j - 1),
        )) =~= (flatten(elems[0]) + flatten_list(elems.drop_first().take(j - 1)))
            + flatten_list(elems.drop_first().skip(j - 1)));
    }
}

/// Appending one entry to the first `j` appends its elements.
pub proof fn lemma_flatten_list_take_step<T>(elems: Seq<Nested<T>>, j: int)
    requires
        0 <= j < elems.len(),
    ensures
        flatten_list(elems.take(j + 1)) == flatten_list(elems.take(j)) + flatten(elems[j]),
{
    let front = elems.take(j + 1);
    lemma_flatten_list_split(front, j);
    assert(front.take(j) =~= elems.take(j));
    assert(front.skip(j) =~= seq![elems[j]]);
    assert(seq![elems[j]].drop_first().len() == 0);
    assert(flatten(elems[j]) + flatten_list(seq![elems[j]].drop_first()) =~= flatten(elems[j]));
}

/// Within the flattening of a row of shape-`s` entries, entry `i` occupies
/// the window of length `product(s)` starting at `i * product(s)`.
pub proof fn lemma_flatten_list_child<T>(elems: Seq<Nested<T>>, s: Seq<usize>, i: int)
    requires
        forall|j: int| 0 <= j < elems.len() ==> matches_shape(#[trigger] elems[j], s),
        0 <= i < elems.len(),
    ensures
        flatten_list(elems).subrange(
            i * shape_product(s),
            (i + 1) * shape_product(s),
        ) == flatten(elems[i]),
{
    let p = shape_product(s);
    crate::utils::lemma_product_nonneg(s);
    lemma_flatten_list_split(elems, i);
    assert forall|j: int| 0 <= j < elems.take(i).len() implies matches_shape(
        #[trigger] elems.take(i)[j],
        s,
    ) by {
        assert(elems.take(i)[j] == elems[j]);
    }
    lemma_flatten_list_len(elems.take(i), s);
    let rest = elems.skip(i);
    assert(rest[0] == elems[i]);
    assert(flatten_list(rest) == flatten(elems[i]) + flatten_list(rest.drop_first()));
    lemma_flatten_len(elems[i], s);
    lemma_mul_is_distributive_add_other_way(p, i, 1);
    lemma_mul_basics(p);
    assert(flatten_list(elems).subrange(i * p, (i + 1) * p) =~= flatten(elems[i]));
}

/// Reading a rectangular sequence back out of its own flattening under
/// row-major strides recovers it exactly: whatever `represents` the window
/// `data[offset .. offset + product(s)] == flatten(x)` equals `x`.
pub proof fn lemma_represents_unique<T>(
    x: Nested<T>,
    y: Nested<T>,
    data: Seq<T>,
    s: Seq<usize>,
    st: Seq<usize>,
    offset: int,
)
    requires
        matches_shape(x, s),
        row_major_strides(st, s),
        0 <= offset,
        offset + shape_product(s) <= data.len(),
        data.subrange(offset, offset + shape_product(s)) == flatten(x),
        represents(y, data, s, st, offset),
    ensures
        nested_eq(x, y),
    decreases x,
{
    match x {
        Nested::Leaf(t) => {
            assert(shape_product(s) == 1);
            assert(data.subrange(offset, offset + 1)[0] == data[offset]);
            assert(flatten(x)[0] == t);
            match y {
                Nested::Leaf(_) => {},
                Nested::List(_) => {
                    assert(false);
                },
            }
        },
        Nested::List(v) => {
            match y {
                Nested::Leaf(_) => {
                    assert(false);
                },
                Nested::List(w) => {
                    let d = s[0] as int;
                    let sub = s.drop_first();
                    let p = shape_product(sub);
                    crate::utils::lemma_product_nonneg(sub);
                    assert(s.skip(1) =~= sub);
                    assert(st[0] == p);
                    assert(shape_product(s) == d * p);
                    assert forall|i: int| 0 <= i < sub.len() implies (
                    #[trigger] st.drop_first()[i] as int) == shape_product(sub.skip(i + 1)) by {
                        let j = i + 1;
                        assert(st[j] == shape_product(s.skip(j + 1)));
                        assert(st.drop_first()[i] == st[j]);
                        assert(sub.skip(i + 1) =~= s.skip(j + 1));
                    }
                    assert(row_major_strides(st.drop_first(), sub));
                    assert(flatten(x) == flatten_list(v@));
                    lemma_flatten_list_len(v@, sub);
                    assert forall|i: int| 0 <= i < v@.len() implies nested_eq(
                        #[trigger] v@[i],
                        w@[i],
                    ) by {
                        lemma_mul_nonnegative(i, p);
                        lemma_mul_inequality(i + 1, d, p);
                        lemma_mul_is_distributive_add_other_way(p, i, 1);
                        lemma_mul_basics(p);
                        lemma_flatten_list_child(v@, sub, i);
                        assert(data.subrange(
                            offset + i * p,
                            offset + (i + 1) * p,
                        ) =~= flatten_list(v@).subrange(i * p, (i + 1) * p));
                        assert(represents(w@[i], data, sub, st.drop_first(), offset + i * (
                        st[0] as int)));
                        lemma_represents_unique(
                            v@[i],
                            w@[i],
                            data,
                            sub,
                            st.drop_first(),
                            offset + i * p,
                        );
                    }
                },
            }
        },
    }
}

/// Round trip: a rectangular nested sequence that is parsed into an array
/// and exported again comes back unchanged.  Here `s` is the parsed shape,
/// `st` its row-major strides, `flatten(x)` the parsed buffer (exactly what
/// `parse_nested_list` ensures), and `y` any export of that array (exactly
/// what `to_nested_list` ensures).
pub proof fn lemma_parse_export_round_trip<T>(
    x: Nested<T>,
    y: Nested<T>,
    s: Seq<usize>,
    st: Seq<usize>,
)
    requires
        matches_shape(x, s),
        row_major_strides(st, s),
        represents(y, flatten(x), s, st, 0),
    ensures
        nested_eq(x, y),
{
    lemma_flatten_len(x, s);
    assert(flatten(x).subrange(0, shape_product(s)) =~= flatten(x));
    lemma_represents_unique(x, y, flatten(x), s, st, 0);
}

/// What a row-major array exports flattens back to its buffer window: the
/// nested sequence read at `offset` under shape `s` enumerates exactly
/// `data[offset .. offset + product(s)]`.
pub proof fn lemma_export_flatten<T>(
    y: Nested<T>,
    data: Seq<T>,
    s: Seq<usize>,
    st: Seq<usize>,
    offset: int,
)
    requires
        represents(y, data, s, st, offset),
        row_major_strides(st, s),
        0 <= offset,
        offset + shape_product(s) <= data.len(),
    ensures
        flatten(y) == data.subrange(offset, offset + shape_product(s)),
    decreases y,
{
    match y {
        Nested::Leaf(t) => {
            assert(data.subrange(offset, offset + 1) =~= seq![data[offset]]);
        },
        Nested::List(w) => {
            let sub = s.drop_first();
            let p = shape_product(sub);
            crate::utils::lemma_product_nonneg(sub);
            assert(s.skip(1) =~= sub);
            assert(st[0] == p);
            assert forall|i: int| 0 <= i < sub.len() implies (
            #[trigger] st.drop_first()[i] as int) == shape_product(sub.skip(i + 1)) by {
                let j = i + 1;
                assert(st[j] == shape_product(s.skip(j + 1)));
                assert(st.drop_first()[i] == st[j]);
                assert(sub.skip(i + 1) =~= s.skip(j + 1));
            }
            assert(row_major_strides(st.drop_first(), sub));
            assert(shape_product(s) == (s[0] as int) * p);
            assert forall|i: int| 0 <= i < w@.len() implies represents(
                #[trigger] w@[i],
                data,
                sub,
                st.drop_first(),
                offset + i * p,
            ) by {
                assert(represents(w@[i], data, sub, st.drop_first(), offset + i * (st[0] as int)));
            }
            lemma_export_flatten_list(w@, data, sub, st.drop_first(), offset);
        },
    }
}

/// The row version of `lemma_export_flatten`: `n` entries read at stride
/// `product(s)` enumerate `n * product(s)` consecutive elements.
pub proof fn lemma_export_flatten_list<T>(
    w: Seq<Nested<T>>,
    data: Seq<T>,
    s: Seq<usize>,
    st: Seq<usize>,
    offset: int,
)
    requires
        forall|i: int|
            0 <= i < w.len() ==> represents(
                #[trigger] w[i],
                data,
                s,
                st,
                offset + i * shape_product(s),
            ),
        row_major_strides(st, s),
        0 <= offset,
        offset + w.len() * shape_product(s) <= data.len(),
    ensures
        flatten_list(w) == data.subrange(offset, offset + w.len() * shape_product(s)),
    decreases w,
{
    let p = shape_product(s);
    crate::utils::lemma_product_nonneg(s);
    if w.len() == 0 {
        lemma_mul_basics(p);
        assert(data.subrange(offset, offset) =~= Seq::<T>::empty());
    } else {
        lemma_mul_basics(p);
        assert(represents(w[0], data, s, st, offset + 0 * p));
        assert(0 * p == 0);
        lemma_mul_is_commutative(w.len() as int, p);
        lemma_mul_inequality(1, w.len() as int, p);
        lemma_mul_basics(p);
        lemma_export_flatten(w[0], data, s, st, offset);
        assert forall|i: int| 0 <= i < w.drop_first().len() implies represents(
            #[trigger] w.drop_first()[i],
            data,
            s,
            st,
            (offset + p) + i * p,
        ) by {
            assert(w.drop_first()[i] == w[i + 1]);
            lemma_mul_is_distributive_add_other_way(p, i, 1);
            assert((i + 1) * p == i * p + 1 * p);
            assert(represents(w[i + 1], data, s, st, offset + (i + 1) * p));
        }
        lemma_mul_is_distributive_add_other_way(p, w.len() - 1, 1);
        assert((w.len() - 1) * p + 1 * p == w.len() * p);
        lemma_export_flatten_list(w.drop_first(), data, s, st, offset + p);
        assert(flatten_list(w) == flatten(w[0]) + flatten_list(w.drop_first()));
        assert(data.subrange(offset, offset + p) + data.subrange(
            offset + p,
            offset + w.len() * p,
        ) =~= data.subrange(offset, offset + w.len() * p));
    }
}

/// Reshape preserves enumeration order: two row-major views of the same
/// buffer (the array before and after a reshape) export nested sequences
/// that flatten to the same element sequence.
pub proof fn lemma_reshape_preserves_enumeration<T>(
    y1: Nested<T>,
    y2: Nested<T>,
    data: Seq<T>,
    s1: Seq<usize>,
    st1: Seq<usize>,
    s2: Seq<usize>,
    st2: Seq<usize>,
)
    requires
        row_major_strides(st1, s1),
        row_major_strides(st2, s2),
        shape_product(s1) == data.len(),
        shape_product(s2) == data.len(),
        represents(y1, data, s1, st1, 0),
        represents(y2, data, s2, st2, 0),
    ensures
        flatten(y1) == flatten(y2),
{
    lemma_export_flatten(y1, data, s1, st1, 0);
    lemma_export_flatten(y2, data, s2, st2, 0);
}

// ---------------------------------------------------------------------------
// Ingest: from a nested sequence to a flat buffer and shape.
// ---------------------------------------------------------------------------

/// Flattens a nested sequence into a buffer and its canonical shape,
/// checking rectangularity: every entry of a list must have the same shape.
#[verifier::loop_isolation(false)]
fn parse_nested<T: Copy>(input: &Nested<T>) -> (result: Result<(Vec<T>, Vec<usize>), ArrayError>)
    ensures
        match result {
            Ok(out) => {
                &&& out.1@ == nested_shape(*input)
                &&& matches_shape(*input, out.1@)
                &&& out.0@ == flatten(*input)
                &&& out.0@.len() == shape_product(out.1@)
                &&& strides_fit(out.1@)
            },
            Err(e) => {
                &&& e == ArrayError::RaggedShape
                &&& !matches_shape(*input, nested_shape(*input))
            },
        },
    decreases *input,
{
    match input {
        Nested::Leaf(t) => {
            let mut data: Vec<T> = Vec::new();
            data.push(*t);
            let shape: Vec<usize> = Vec::new();
            proof {
                assert(data@ =~= seq![*t]);
                assert forall|i: int| 0 <= i <= shape@.len() implies shape_product(
                    #[trigger] shape@.skip(i),
                ) <= usize::MAX by {
                    assert(shape@.skip(i).len() == 0);
                }
            }
            Ok((data, shape))
        },
        Nested::List(elems) => {
            let n = elems.len();
            if n == 0 {
                let data: Vec<T> = Vec::new();
                let mut shape: Vec<usize> = Vec::new();
                shape.push(0);
                proof {
                    assert(shape@ =~= seq![0usize]);
                    assert(shape@.drop_first().len() == 0);
                    assert(shape_product(shape@.drop_first()) == 1);
                    assert(shape_product(shape@) == 0);
                    assert forall|i: int| 0 <= i <= shape@.len() implies shape_product(
                        #[trigger] shape@.skip(i),
                    ) <= usize::MAX by {
                        if i == 0 {
                            assert(shape@.skip(0) =~= shape@);
                        } else {
                            assert(shape@.skip(i).len() == 0);
                        }
                    }
                }
                Ok((data, shape))
            } else {
                let (mut data, sub_shape) = match parse_nested(&elems[0]) {
                    Ok(pair) => pair,
                    Err(e) => {
                        proof {
                            let ns = nested_shape(*input);
                            if matches_shape(*input, ns) {
                                assert(ns.drop_first() =~= nested_shape(elems@[0]));
                                assert(matches_shape(elems@[0], ns.drop_first()));
                            }
                        }
                        return Err(e);
                    },
                };
                proof {
                    lemma_flatten_list_take_step(elems@, 0);
                    assert(elems@.take(0).len() == 0);
                    assert(flatten_list(elems@.take(0)) + flatten(elems@[0]) =~= flatten(
                        elems@[0],
                    ));
                    assert(elems@.take(1)[0] == elems@[0]);
                }
                let mut j: usize = 1;
                while j < n
                    invariant
                        1 <= j <= n,
                        data@ == flatten_list(elems@.take(j as int)),
                        forall|i: int| 0 <= i < j ==> matches_shape(
                            #[trigger] elems@[i],
                            sub_shape@,
                        ),
                    decreases n - j,
                {
                    match parse_nested(&elems[j]) {
                        Ok(pair) => {
                            let (mut cdata, cshape) = pair;
                            if !crate::utils::vecs_equal(&cshape, &sub_shape) {
                                proof {
                                    let ns = nested_shape(*input);
                                    if matches_shape(*input, ns) {
                                        assert(ns.drop_first() =~= nested_shape(elems@[0]));
                                        assert(matches_shape(elems@[j as int], ns.drop_first()));
                                        lemma_nested_shape_zero_free(elems@[0]);
                                        lemma_matches_shape_unique(
                                            elems@[j as int],
                                            nested_shape(elems@[0]),
                                        );
                                    }
                                }
                                return Err(ArrayError::RaggedShape);
                            }
                            data.append(&mut cdata);
                            proof {
                                lemma_flatten_list_take_step(elems@, j as int);
                            }
                            j = j + 1;
                        },
                        Err(e) => {
                            proof {
                                let ns = nested_shape(*input);
                                if matches_shape(*input, ns) {
                                    assert(ns.drop_first() =~= nested_shape(elems@[0]));
                                    assert(matches_shape(elems@[j as int], ns.drop_first()));
                                    lemma_nested_shape_zero_free(elems@[0]);
                                    lemma_matches_shape_unique(
                                        elems@[j as int],
                                        nested_shape(elems@[0]),
                                    );
                                }
                            }
                            return Err(e);
                        },
                    }
                }
                let mut shape: Vec<usize> = Vec::new();
                shape.push(n);
                let mut tail = crate::utils::copy_contents(&sub_shape);
                shape.append(&mut tail);
                proof {
                    lemma_vec_len_fits(*elems);
                    assert(elems@.take(n as int) =~= elems@);
                    assert(shape@ =~= seq![n] + sub_shape@);
                    assert(shape@ == nested_shape(*input));
                    assert(shape@.drop_first() =~= sub_shape@);
                    assert(matches_shape(*input, shape@));
                    lemma_flatten_list_len(elems@, sub_shape@);
                    assert(shape_product(shape@) == (n as int) * shape_product(sub_shape@));
                    lemma_vec_len_fits(data);
                    assert forall|i: int| 0 <= i <= shape@.len() implies shape_product(
                        #[trigger] shape@.skip(i),
                    ) <= usize::MAX by {
                        if i == 0 {
                            assert(shape@.skip(0) =~= shape@);
                        } else {
                            assert(shape@.skip(i) =~= sub_shape@.skip(i - 1));
                            assert(shape_product(sub_shape@.skip(i - 1)) <= usize::MAX);
                        }
                    }
                }
                Ok((data, shape))
            }
        },
    }
}

/// Builds a dense array from a rectangular nested sequence: the buffer is
/// the sequence's elements in row-major order, the shape is the nesting
/// depth's list lengths, and the strides are row-major.  Fails with
/// `EmptyShape` on a bare element (rank would be 0) and with `RaggedShape`
/// exactly when the sequence is not rectangular.
pub fn parse_nested_list<T: Copy>(input: &Nested<T>) -> (result: Result<
    crate::array::NdArray<T>,
    ArrayError,
>)
    ensures
        match result {
            Ok(arr) => {
                &&& (*input) is List
                &&& arr.wf()
                &&& arr.shape@ == nested_shape(*input)
                &&& matches_shape(*input, arr.shape@)
                &&& arr.data@ == flatten(*input)
                &&& row_major_strides(arr.strides@, arr.shape@)
                &&& strides_fit(arr.shape@)
            },
            Err(e) => match e {
                ArrayError::EmptyShape => (*input) is Leaf,
                ArrayError::RaggedShape => (*input) is List && !matches_shape(
                    *input,
                    nested_shape(*input),
                ),
                _ => false,
            },
        },
{
    match input {
        Nested::Leaf(_) => Err(ArrayError::EmptyShape),
        Nested::List(elems) => {
            let (data, shape) = match parse_nested(input) {
                Ok(pair) => pair,
                Err(e) => {
                    return Err(e);
                },
            };
            proof {
                if elems@.len() == 0 {
                    assert(nested_shape(*input).len() == 1);
                } else {
                    assert(nested_shape(*input) == seq![elems@.len() as usize] + nested_shape(
                        elems@[0],
                    ));
                }
            }
            Ok(crate::array::NdArray::new_with_data(data, shape))
        },
    }
}

// ---------------------------------------------------------------------------
// Egress: from a flat buffer, shape and strides to a nested sequence.
// ---------------------------------------------------------------------------

/// `c` is a coordinate prefix: one in-range coordinate for each of the first
/// `c.len()` axes.
pub open spec fn valid_prefix_coords(c: Seq<usize>, shape: Seq<usize>) -> bool {
    c.len() <= shape.len() && (forall|i: int|
        0 <= i < c.len() ==> (#[trigger] c[i] as int) < shape[i])
}

/// No offset reached while walking the array overflows a `usize`.
pub open spec fn export_offsets_fit(shape: Seq<usize>, strides: Seq<usize>, offset: int) -> bool {
    forall|c: Seq<usize>|
        #[trigger] valid_prefix_coords(c, shape) ==> offset + flat_offset(
            c,
            strides.take(c.len() as int),
        ) <= usize::MAX
}

/// Every element offset reached while walking the array lies inside the
/// buffer.
pub open spec fn export_reads_within(
    data_len: int,
    shape: Seq<usize>,
    strides: Seq<usize>,
    offset: int,
) -> bool {
    forall|c: Seq<usize>|
        (#[trigger] valid_prefix_coords(c, shape) && c.len() == shape.len()) ==> offset
            + flat_offset(c, strides.take(c.len() as int)) < data_len
}

/// Reads the nested sequence rooted at `offset`, one list per axis from
/// `axis` on: entry `i` of the current axis is read `i * strides[axis]`
/// elements further into the buffer.
#[verifier::loop_isolation(false)]
fn build_nested<T: Copy>(
    data: &Vec<T>,
    shape: &Vec<usize>,
    strides: &Vec<usize>,
    axis: usize,
    offset: usize,
) -> (out: Nested<T>)
    requires
        axis <= shape@.len(),
        shape@.len() == strides@.len(),
        export_offsets_fit(shape@.skip(axis as int), strides@.skip(axis as int), offset as int),
        export_reads_within(
            data@.len() as int,
            shape@.skip(axis as int),
            strides@.skip(axis as int),
            offset as int,
        ),
    ensures
        represents(out, data@, shape@.skip(axis as int), strides@.skip(axis as int), offset as int),
    decreases shape@.len() - axis,
{
    let ghost sh = shape@.skip(axis as int);
    let ghost st = strides@.skip(axis as int);
    if axis == shape.len() {
        proof {
            let c = Seq::<usize>::empty();
            assert(valid_prefix_coords(c, sh));
            assert(st.take(0).len() == 0);
            assert(flat_offset(c, st.take(0)) == 0);
        }
        Nested::Leaf(data[offset])
    } else {
        let dim = shape[axis];
        let stride = strides[axis];
        let ghost sh1 = shape@.skip(axis as int + 1);
        let ghost st1 = strides@.skip(axis as int + 1);
        proof {
            assert(sh[0] == dim);
            assert(st[0] == stride);
            assert(sh.drop_first() =~= sh1);
            assert(st.drop_first() =~= st1);
        }
        let mut children: Vec<Nested<T>> = Vec::new();
        let mut i: usize = 0;
        while i < dim
            invariant
                i <= dim,
                children@.len() == i,
                forall|k: int|
                    0 <= k < i ==> represents(
                        #[trigger] children@[k],
                        data@,
                        sh1,
                        st1,
                        offset + k * (stride as int),
                    ),
            decreases dim - i,
        {
            proof {
                let c1 = seq![i];
                assert(c1[0] == i);
                assert(valid_prefix_coords(c1, sh));
                assert(st.take(1)[0] == stride);
                assert(c1.drop_first().len() == 0);
                assert(st.take(1).drop_first().len() == 0);
                assert(flat_offset(c1.drop_first(), st.take(1).drop_first()) == 0);
                assert(flat_offset(c1, st.take(1)) == (i as int) * (stride as int));
                lemma_mul_nonnegative(i as int, stride as int);
                assert forall|c: Seq<usize>| #[trigger] valid_prefix_coords(c, sh1) implies (
                offset + (i as int) * (stride as int)) + flat_offset(c, st1.take(c.len() as int))
                    <= usize::MAX by {
                    let ec = seq![i] + c;
                    assert(valid_prefix_coords(ec, sh)) by {
                        assert forall|j: int| 0 <= j < ec.len() implies (#[trigger] ec[j] as int)
                            < sh[j] by {
                            if j == 0 {
                                assert(ec[0] == i);
                            } else {
                                assert(ec[j] == c[j - 1]);
                                assert((c[j - 1] as int) < sh1[j - 1]);
                                assert(sh1[j - 1] == sh[j]);
                            }
                        }
                    }
                    assert(ec[0] == i);
                    assert(st.take(ec.len() as int)[0] == stride);
                    assert(ec.drop_first() =~= c);
                    assert(st.take(ec.len() as int).drop_first() =~= st1.take(c.len() as int));
                    assert(flat_offset(ec, st.take(ec.len() as int)) == (i as int) * (
                    stride as int) + flat_offset(c, st1.take(c.len() as int)));
                }
                assert forall|c: Seq<usize>|
                    (#[trigger] valid_prefix_coords(c, sh1) && c.len() == sh1.len()) implies (
                offset + (i as int) * (stride as int)) + flat_offset(c, st1.take(c.len() as int))
                    < data@.len() by {
                    let ec = seq![i] + c;
                    assert(valid_prefix_coords(ec, sh)) by {
                        assert forall|j: int| 0 <= j < ec.len() implies (#[trigger] ec[j] as int)
                            < sh[j] by {
                            if j == 0 {
                                assert(ec[0] == i);
                            } else {
                                assert(ec[j] == c[j - 1]);
                                assert((c[j - 1] as int) < sh1[j - 1]);
                                assert(sh1[j - 1] == sh[j]);
                            }
                        }
                    }
                    assert(ec.len() == sh.len());
                    assert(ec[0] == i);
                    assert(st.take(ec.len() as int)[0] == stride);
                    assert(ec.drop_first() =~= c);
                    assert(st.take(ec.len() as int).drop_first() =~= st1.take(c.len() as int));
                    assert(flat_offset(ec, st.take(ec.len() as int)) == (i as int) * (
                    stride as int) + flat_offset(c, st1.take(c.len() as int)));
                }
            }
            let step = i * stride;
            let child_off = offset + step;
            let child = build_nested(data, shape, strides, axis + 1, child_off);
            children.push(child);
            i = i + 1;
        }
        proof {
            assert(children@.len() == sh[0]);
        }
        Nested::List(children)
    }
}

/// Exports the nested sequence form of an array: one nesting level per axis,
/// reading the buffer through the given strides (row-major or transposed
/// alike).
pub fn to_nested_list<T: Copy>(data: &Vec<T>, shape: &Vec<usize>, strides: &Vec<usize>) -> (out:
    Nested<T>)
    requires
        shape@.len() == strides@.len(),
        export_offsets_fit(shape@, strides@, 0),
        export_reads_within(data@.len() as int, shape@, strides@, 0),
    ensures
        represents(out, data@, shape@, strides@, 0),
{
    proof {
        assert(shape@.skip(0) =~= shape@);
        assert(strides@.skip(0) =~= strides@);
    }
    build_nested(data, shape, strides, 0, 0)
}

impl<T: Copy> crate::array::NdArray<T> {
    /// The nested sequence form of this array, for arrays as the engine
    /// produces them: with row-major strides, or with shape and strides both
    /// reversed by a transpose.
    pub fn to_list(&self) -> (out: Nested<T>)
        requires
            self.wf(),
            (row_major_strides(self.strides@, self.shape@) && strides_fit(self.shape@)) || (
            row_major_strides(self.strides@.reverse(), self.shape@.reverse()) && strides_fit(
                self.shape@.reverse(),
            )),
        ensures
            represents(out, self.data@, self.shape@, self.strides@, 0),
    {
        proof {
            if row_major_strides(self.strides@, self.shape@) && strides_fit(self.shape@) {
                lemma_export_ok_row_major(
                    self.data@.len() as int,
                    self.shape@,
                    self.strides@,
                );
            } else {
                let s = self.shape@.reverse();
                let st = self.strides@.reverse();
                crate::utils::lemma_product_reverse(self.shape@);
                lemma_export_ok_reversed(self.data@.len() as int, s, st);
                assert(s.reverse() =~= self.shape@);
                assert(st.reverse() =~= self.strides@);
            }
        }
        to_nested_list(&self.data, &self.shape, &self.strides)
    }
}

/// A well-formed row-major array satisfies the export side conditions: all
/// reachable offsets fit and all element reads stay inside the buffer.
pub proof fn lemma_export_ok_row_major(data_len: int, s: Seq<usize>, st: Seq<usize>)
    requires
        row_major_strides(st, s),
        strides_fit(s),
        data_len == shape_product(s),
    ensures
        export_offsets_fit(s, st, 0),
        export_reads_within(data_len, s, st, 0),
{
    let n = s.len() as int;
    assert forall|c: Seq<usize>| #[trigger] valid_prefix_coords(c, s) implies {
        &&& 0 + flat_offset(c, st.take(c.len() as int)) <= usize::MAX
        &&& (c.len() == s.len() ==> 0 + flat_offset(c, st.take(c.len() as int)) < data_len)
    } by {
        let k = c.len() as int;
        if exists|z: int| k <= z < n && (#[trigger] s[z] as int) == 0 {
            let z = choose|z: int| k <= z < n && (#[trigger] s[z] as int) == 0;
            assert forall|j: int| 0 <= j < k implies (#[trigger] c[j]) == 0 || st.take(k)[j]
                == 0 by {
                assert(st[j] == shape_product(s.skip(j + 1)));
                assert(s.skip(j + 1)[z - (j + 1)] == s[z]);
                lemma_product_zero_dim(s.skip(j + 1), z - (j + 1));
            }
            lemma_flat_offset_zero_terms(c, st.take(k));
            assert(shape_product(s.skip(0)) <= usize::MAX);
            assert(s.skip(0) =~= s);
        } else {
            let full = c + Seq::new((n - k) as nat, |t: int| 0usize);
            assert(full.len() == n);
            assert forall|j: int| 0 <= j < n implies (#[trigger] full[j] as int) < s[j] by {
                if j < k {
                    assert(full[j] == c[j]);
                } else {
                    assert(full[j] == 0);
                    assert(s[j] as int >= 1);
                }
            }
            lemma_flat_offset_split(full, st, k);
            assert(full.take(k) =~= c);
            assert(full.skip(k) =~= Seq::new((n - k) as nat, |t: int| 0usize));
            assert forall|j: int| 0 <= j < full.skip(k).len() implies (
            #[trigger] full.skip(k)[j]) == 0 || st.skip(k)[j] == 0 by {
                assert(full.skip(k)[j] == 0);
            }
            lemma_flat_offset_zero_terms(full.skip(k), st.skip(k));
            assert(flat_offset(c, st.take(k)) == flat_offset(full, st));
            assert forall|j: int| 0 <= j < n implies (#[trigger] s[j]) >= 1 by {
                assert((full[j] as int) < s[j]);
            }
            assert forall|j: int| 0 <= j < n implies #[trigger] axis_read_ok(full, st, s, j) by {
                assert((full[j] as int) < s[j]);
                assert(st[j] == shape_product(s.skip(j + 1)));
            }
            lemma_ravel_offset_bound(full, st, s);
            lemma_flat_offset_eq_ravel(full, st, s);
            assert(shape_product(s.skip(0)) <= usize::MAX);
            assert(s.skip(0) =~= s);
        }
    }
}

/// A transposed well-formed array (shape and row-major strides both
/// reversed) also satisfies the export side conditions.
pub proof fn lemma_export_ok_reversed(data_len: int, s: Seq<usize>, st: Seq<usize>)
    requires
        row_major_strides(st, s),
        strides_fit(s),
        data_len == shape_product(s),
    ensures
        export_offsets_fit(s.reverse(), st.reverse(), 0),
        export_reads_within(data_len, s.reverse(), st.reverse(), 0),
{
    let n = s.len() as int;
    assert forall|c: Seq<usize>| #[trigger] valid_prefix_coords(c, s.reverse()) implies {
        &&& 0 + flat_offset(c, st.reverse().take(c.len() as int)) <= usize::MAX
        &&& (c.len() == s.reverse().len() ==> 0 + flat_offset(c, st.reverse().take(c.len() as int))
            < data_len)
    } by {
        let k = c.len() as int;
        let tail_s = s.skip(n - k);
        let tail_st = st.skip(n - k);
        assert(st.reverse().take(k) =~= tail_st.reverse());
        crate::utils::lemma_flat_offset_reverse(c, tail_st);
        let rc = c.reverse();
        assert forall|t: int| 0 <= t < k implies (#[trigger] rc[t] as int) < tail_s[t] by {
            assert(rc[t] == c[k - 1 - t]);
            assert((c[k - 1 - t] as int) < s.reverse()[k - 1 - t]);
            assert(s.reverse()[k - 1 - t] == s[n - k + t]);
            assert(tail_s[t] == s[n - k + t]);
        }
        assert forall|t: int| 0 <= t < k implies (#[trigger] tail_s[t]) >= 1 by {
            assert((rc[t] as int) < tail_s[t]);
        }
        assert forall|t: int| 0 <= t < k implies #[trigger] axis_read_ok(
            rc,
            tail_st,
            tail_s,
            t,
        ) by {
            let j = n - k + t;
            assert(st[j] == shape_product(s.skip(j + 1)));
            assert(tail_st[t] == st[j]);
            assert(tail_s.skip(t + 1) =~= s.skip(j + 1));
            assert((rc[t] as int) < tail_s[t]);
        }
        lemma_ravel_offset_bound(rc, tail_st, tail_s);
        lemma_flat_offset_eq_ravel(rc, tail_st, tail_s);
        assert(shape_product(s.skip(n - k)) <= usize::MAX);
        if k == n {
            assert(tail_s =~= s);
            assert(tail_st =~= st);
        }
    }
}

} // verus!
