//! Shapes: how many elements they hold and how far apart those lie.
use vstd::prelude::*;

verus! {

/// The number of elements of a tensor of this shape.
pub open spec fn product(shape: Seq<usize>) -> nat
    decreases shape.len(),
{
    if shape.len() == 0 {
        1
    } else {
        product(shape.drop_last()) * (shape.last() as nat)
    }
}

/// Multiplying the dimensions from the left never leaves the range of `usize`.
pub open spec fn countable(shape: Seq<usize>) -> bool {
    forall|i: int| 0 <= i <= shape.len() ==> #[trigger] product(shape.take(i)) <= usize::MAX
}

/// Every row-major stride of this shape is a `usize`.
pub open spec fn stridable(shape: Seq<usize>) -> bool {
    forall|i: int| 1 <= i <= shape.len() ==> #[trigger] product(shape.skip(i)) <= usize::MAX
}

/// The sizes and the strides of this shape are `usize` values.
pub open spec fn fits(shape: Seq<usize>) -> bool {
    countable(shape) && stridable(shape)
}

/// `strides` are the row-major strides of `shape`: one step in a dimension
/// passes over all elements of the dimensions after it.
pub open spec fn row_major(shape: Seq<usize>, strides: Seq<usize>) -> bool {
    &&& strides.len() == shape.len()
    &&& forall|i: int|
        0 <= i < shape.len() ==> #[trigger] strides[i] == product(shape.skip(i + 1))
}

/// The product of a shape, taken from the left end.
pub proof fn lemma_product_first(shape: Seq<usize>)
    requires
        shape.len() > 0,
    ensures
        product(shape) == shape[0] * product(shape.skip(1)),
    decreases shape.len(),
{
    if shape.len() == 1 {
        assert(shape.skip(1) =~= Seq::<usize>::empty());
        assert(shape.drop_last() =~= Seq::<usize>::empty());
        assert(product(shape) == product(shape.drop_last()) * (shape.last() as nat));
        assert(product(Seq::<usize>::empty()) == 1);
    } else {
        lemma_product_first(shape.drop_last());
        assert(shape.drop_last().skip(1) =~= shape.skip(1).drop_last());
        assert(shape.drop_last()[0] == shape[0]);
        assert(shape.skip(1).last() == shape.last());
        let rest = product(shape.skip(1).drop_last());
        assert(product(shape.skip(1)) == rest * (shape.last() as nat));
        assert(product(shape) == (shape[0] * rest) * shape.last());
        assert((shape[0] * rest) * shape.last() == shape[0] * (rest * shape.last()))
            by (nonlinear_arith);
    }
}

/// The product of a one-dimensional shape.
pub proof fn lemma_product_1(shape: Seq<usize>)
    requires
        shape.len() == 1,
    ensures
        product(shape) == shape[0],
{
    lemma_product_first(shape);
    assert(shape.skip(1) =~= Seq::<usize>::empty());
    let rest = product(shape.skip(1));
    assert(shape[0] * rest == shape[0]) by (nonlinear_arith)
        requires
            rest == 1,
    ;
}

/// The product of a two-dimensional shape.
pub proof fn lemma_product_2(shape: Seq<usize>)
    requires
        shape.len() == 2,
    ensures
        product(shape) == shape[0] * shape[1],
{
    lemma_product_first(shape);
    lemma_product_1(shape.skip(1));
}

/// A two-dimensional shape fits as soon as its two dimensions multiply to a
/// `usize`.
pub proof fn lemma_fits_2(shape: Seq<usize>)
    requires
        shape.len() == 2,
        shape[0] * shape[1] <= usize::MAX,
    ensures
        fits(shape),
{
    lemma_product_2(shape);
    lemma_product_1(shape.take(1));
    lemma_product_1(shape.skip(1));
    assert forall|i: int| 0 <= i <= shape.len() implies #[trigger] product(shape.take(i))
        <= usize::MAX by {
        if i == 0 {
            assert(shape.take(0) =~= Seq::<usize>::empty());
        } else if i == 2 {
            assert(shape.take(2) =~= shape);
        }
    }
    assert forall|i: int| 1 <= i <= shape.len() implies #[trigger] product(shape.skip(i))
        <= usize::MAX by {
        if i == 2 {
            assert(shape.skip(2) =~= Seq::<usize>::empty());
        }
    }
}

/// A one-dimensional shape always fits.
pub proof fn lemma_fits_1(shape: Seq<usize>)
    requires
        shape.len() == 1,
    ensures
        fits(shape),
{
    lemma_product_1(shape);
    assert forall|i: int| 0 <= i <= shape.len() implies #[trigger] product(shape.take(i))
        <= usize::MAX by {
        if i == 0 {
            assert(shape.take(0) =~= Seq::<usize>::empty());
        } else {
            assert(shape.take(1) =~= shape);
        }
    }
    assert forall|i: int| 1 <= i <= shape.len() implies #[trigger] product(shape.skip(i))
        <= usize::MAX by {
        assert(shape.skip(1) =~= Seq::<usize>::empty());
    }
}

/// The product of a shape splits at every dimension.
pub proof fn lemma_product_split(shape: Seq<usize>, i: int)
    requires
        0 <= i <= shape.len(),
    ensures
        product(shape) == product(shape.take(i)) * product(shape.skip(i)),
    decreases shape.len() - i,
{
    if i == shape.len() {
        assert(shape.take(i) =~= shape);
        assert(shape.skip(i) =~= Seq::<usize>::empty());
        let whole = product(shape);
        let rest = product(shape.skip(i));
        assert(whole * rest == whole) by (nonlinear_arith)
            requires
                rest == 1,
        ;
    } else {
        lemma_product_split(shape, i + 1);
        assert(shape.take(i + 1).drop_last() =~= shape.take(i));
        assert(shape.take(i + 1).last() == shape[i]);
        lemma_product_first(shape.skip(i));
        assert(shape.skip(i).skip(1) =~= shape.skip(i + 1));
        let front = product(shape.take(i));
        let back = product(shape.skip(i + 1));
        let d = shape[i] as nat;
        assert(product(shape.take(i + 1)) == front * d);
        assert(product(shape.skip(i)) == d * back);
        assert((front * d) * back == front * (d * back)) by (nonlinear_arith);
    }
}

proof fn lemma_product_positive(shape: Seq<usize>)
    requires
        forall|i: int| 0 <= i < shape.len() ==> shape[i] > 0,
    ensures
        product(shape) > 0,
    decreases shape.len(),
{
    if shape.len() > 0 {
        lemma_product_positive(shape.drop_last());
        let front = product(shape.drop_last());
        let last = shape.last() as nat;
        assert(front * last > 0) by (nonlinear_arith)
            requires
                front > 0,
                last > 0,
        ;
    }
}

/// A shape without empty dimensions fits as soon as its element count is a
/// `usize`.
pub proof fn nonempty_shape_fits(shape: Seq<usize>)
    requires
        forall|i: int| 0 <= i < shape.len() ==> shape[i] > 0,
        product(shape) <= usize::MAX,
    ensures
        fits(shape),
{
    assert forall|i: int| 0 <= i <= shape.len() implies #[trigger] product(shape.take(i))
        <= usize::MAX && product(shape.skip(i)) <= usize::MAX by {
        lemma_product_split(shape, i);
        lemma_product_positive(shape.take(i));
        lemma_product_positive(shape.skip(i));
        let front = product(shape.take(i));
        let back = product(shape.skip(i));
        assert(front <= front * back && back <= front * back) by (nonlinear_arith)
            requires
                front > 0,
                back > 0,
        ;
    }
    assert forall|i: int| 1 <= i <= shape.len() implies #[trigger] product(shape.skip(i))
        <= usize::MAX by {
        assert(product(shape.take(i)) <= usize::MAX);
    }
}

/// A shape with an empty dimension has no elements.
pub proof fn lemma_product_zero(shape: Seq<usize>)
    requires
        exists|i: int| 0 <= i < shape.len() && shape[i] == 0,
    ensures
        product(shape) == 0,
    decreases shape.len(),
{
    let i = choose|i: int| 0 <= i < shape.len() && shape[i] == 0;
    let front = product(shape.drop_last());
    let last = shape.last() as nat;
    if i == shape.len() - 1 {
        assert(front * last == 0) by (nonlinear_arith)
            requires
                last == 0,
        ;
    } else {
        assert(shape.drop_last()[i] == 0);
        lemma_product_zero(shape.drop_last());
        assert(front * last == 0) by (nonlinear_arith)
            requires
                front == 0,
        ;
    }
}

/// A shape without empty dimensions is countable unless its element count is
/// too large for `usize`.
pub proof fn lemma_positive_countable(shape: Seq<usize>)
    requires
        forall|i: int| 0 <= i < shape.len() ==> shape[i] > 0,
        !countable(shape),
    ensures
        product(shape) > usize::MAX,
{
    if product(shape) <= usize::MAX {
        nonempty_shape_fits(shape);
    }
}

/// Whether multiplying the dimensions from the left stays within `usize`, and
/// the product if it does.
pub fn checked_product(shape: &[usize]) -> (n: Option<usize>)
    ensures
        n is Some <==> countable(shape@),
        n matches Some(v) ==> v == product(shape@),
{
    let mut n: usize = 1;
    let mut i: usize = 0;
    assert(shape@.take(0) =~= Seq::<usize>::empty());
    while i < shape.len()
        invariant
            i <= shape@.len(),
            n == product(shape@.take(i as int)),
            forall|j: int| 0 <= j <= i ==> #[trigger] product(shape@.take(j)) <= usize::MAX,
        decreases shape@.len() - i,
    {
        proof {
            assert(shape@.take(i + 1).drop_last() =~= shape@.take(i as int));
            assert(shape@.take(i + 1).last() == shape@[i as int]);
        }
        match n.checked_mul(shape[i]) {
            Some(v) => {
                n = v;
            },
            None => {
                assert(product(shape@.take(i + 1)) > usize::MAX);
                return None;
            },
        }
        i = i + 1;
    }
    assert(shape@.take(i as int) =~= shape@);
    Some(n)
}

/// The element count of a shape.
pub fn shape_product(shape: &[usize]) -> (n: usize)
    requires
        countable(shape@),
    ensures
        n == product(shape@),
{
    let mut n: usize = 1;
    let mut i: usize = 0;
    assert(shape@.take(0) =~= Seq::<usize>::empty());
    while i < shape.len()
        invariant
            i <= shape@.len(),
            n == product(shape@.take(i as int)),
            countable(shape@),
        decreases shape@.len() - i,
    {
        proof {
            assert(shape@.take(i + 1).drop_last() =~= shape@.take(i as int));
            assert(shape@.take(i + 1).last() == shape@[i as int]);
            assert(product(shape@.take(i + 1)) <= usize::MAX);
        }
        n = n * shape[i];
        i = i + 1;
    }
    assert(shape@.take(i as int) =~= shape@);
    n
}

/// The row-major strides of a shape.
pub fn row_major_strides(shape: &[usize]) -> (strides: Vec<usize>)
    requires
        stridable(shape@),
    ensures
        row_major(shape@, strides@),
{
    let len: usize = shape.len();
    let mut strides: Vec<usize> = vec![1; len];
    if len == 0 {
        return strides;
    }
    let mut i: usize = len - 1;
    assert(shape@.skip(len as int) =~= Seq::<usize>::empty());
    while i > 0
        invariant
            i < len,
            len == shape@.len(),
            strides@.len() == len,
            stridable(shape@),
            forall|j: int|
                i <= j < len ==> #[trigger] strides@[j] == product(shape@.skip(j + 1)),
        decreases i,
    {
        proof {
            lemma_product_first(shape@.skip(i as int));
            assert(shape@.skip(i as int).skip(1) =~= shape@.skip(i + 1));
            assert(product(shape@.skip(i as int)) <= usize::MAX);
            let s = strides@[i as int];
            let d = shape@[i as int];
            assert(s * d == d * s) by (nonlinear_arith);
        }
        strides[i - 1] = strides[i] * shape[i];
        i = i - 1;
    }
    strides
}

/// The row-major strides of a shape, unless one of them is too large.
pub fn checked_strides(shape: &[usize]) -> (strides: Option<Vec<usize>>)
    ensures
        strides is Some <==> stridable(shape@),
        strides matches Some(s) ==> row_major(shape@, s@),
{
    let len: usize = shape.len();
    if len == 0 {
        return Some(row_major_strides(shape));
    }
    let mut stride: usize = 1;
    let mut i: usize = len - 1;
    assert(shape@.skip(len as int) =~= Seq::<usize>::empty());
    while i > 0
        invariant
            i < len,
            len == shape@.len(),
            stride == product(shape@.skip(i + 1)),
            forall|j: int| i < j <= len ==> #[trigger] product(shape@.skip(j)) <= usize::MAX,
        decreases i,
    {
        proof {
            lemma_product_first(shape@.skip(i as int));
            assert(shape@.skip(i as int).skip(1) =~= shape@.skip(i + 1));
            let d = shape@[i as int];
            assert(stride * d == d * stride) by (nonlinear_arith);
        }
        match stride.checked_mul(shape[i]) {
            Some(v) => {
                stride = v;
            },
            None => {
                assert(product(shape@.skip(i as int)) > usize::MAX);
                return None;
            },
        }
        i = i - 1;
    }
    Some(row_major_strides(shape))
}

/// Two lists of dimensions are the same.
pub fn same_shape(a: &[usize], b: &[usize]) -> (same: bool)
    ensures
        same == (a@ == b@),
{
    if a.len() != b.len() {
        return false;
    }
    let mut i: usize = 0;
    while i < a.len()
        invariant
            i <= a@.len(),
            a@.len() == b@.len(),
            forall|j: int| 0 <= j < i ==> a@[j] == b@[j],
        decreases a@.len() - i,
    {
        if a[i] != b[i] {
            return false;
        }
        i = i + 1;
    }
    assert(a@ =~= b@);
    true
}

/// A vector with the elements of a slice, in order.
pub fn copied<T: Copy>(items: &[T]) -> (out: Vec<T>)
    ensures
        out@ == items@,
{
    let mut out: Vec<T> = Vec::with_capacity(items.len());
    let mut i: usize = 0;
    while i < items.len()
        invariant
            i <= items@.len(),
            out@ == items@.take(i as int),
        decreases items@.len() - i,
    {
        out.push(items[i]);
        i = i + 1;
        assert(out@ =~= items@.take(i as int));
    }
    assert(items@.take(i as int) =~= items@);
    out
}

} // verus!
