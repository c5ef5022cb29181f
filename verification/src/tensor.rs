//! Column groups and the shapes they are viewed in.

use vstd::prelude::*;

verus! {

/// A group of columns of the circuit: its kind, and its place among the groups of that kind.
#[derive(Clone, Copy, Debug, PartialEq, Eq, Structural)]
pub enum Column {
    /// The advice group at the given slot (private witness).
    Advice(usize),
    /// The fixed group at the given slot (public constant).
    Fixed(usize),
}

/// A column group seen as a tensor of a given shape.
#[derive(Clone, Debug, PartialEq, Eq)]
pub struct VarTensor {
    /// The column group that holds the cells.
    pub column: Column,
    /// The shape the cells are read in.
    pub dims: Vec<usize>,
}

/// What a [`VarTensor`] stands for.
pub struct VarTensorView {
    pub column: Column,
    pub dims: Seq<usize>,
}

impl View for VarTensor {
    type V = VarTensorView;

    open spec fn view(&self) -> VarTensorView {
        VarTensorView { column: self.column, dims: self.dims@ }
    }
}

/// The views of the items of a sequence, item by item.
pub open spec fn view_all<T: View>(s: Seq<T>) -> Seq<T::V> {
    Seq::new(s.len(), |i: int| s[i]@)
}

/// The number of cells of a tensor of shape `dims`: the product of its extents.
pub open spec fn dims_product(dims: Seq<usize>) -> nat
    decreases dims.len(),
{
    if dims.len() == 0 {
        1
    } else {
        dims_product(dims.drop_last()) * (dims.last() as nat)
    }
}

/// Whether the cells of a shape can be counted in a `usize`, extent by extent from the left.
pub open spec fn dims_fit(dims: Seq<usize>) -> bool {
    forall|k: int| 0 <= k <= dims.len() ==> #[trigger] dims_product(dims.take(k)) <= usize::MAX
}

/// Copies a list of indices or extents.
pub fn copy_dims(dims: &Vec<usize>) -> (out: Vec<usize>)
    ensures
        out@ == dims@,
{
    let mut out: Vec<usize> = Vec::new();
    let mut k: usize = 0;
    while k < dims.len()
        invariant
            k <= dims.len(),
            out@ == dims@.take(k as int),
        decreases dims.len() - k,
    {
        out.push(dims[k]);
        assert(dims@.take(k + 1) == dims@.take(k as int).push(dims@[k as int]));
        k += 1;
    }
    assert(dims@.take(dims.len() as int) == dims@);
    out
}

/// Counts the cells of a shape, or reports that the count leaves `usize`.
pub fn checked_size(dims: &Vec<usize>) -> (r: Option<usize>)
    ensures
        r is Some <==> dims_fit(dims@),
        r matches Some(n) ==> n == dims_product(dims@),
{
    let mut acc: usize = 1;
    let mut k: usize = 0;
    assert(dims@.take(0).len() == 0);
    while k < dims.len()
        invariant
            k <= dims.len(),
            acc == dims_product(dims@.take(k as int)),
            forall|j: int| 0 <= j <= k ==> #[trigger] dims_product(dims@.take(j)) <= usize::MAX,
        decreases dims.len() - k,
    {
        assert(dims@.take(k + 1).drop_last() == dims@.take(k as int));
        match acc.checked_mul(dims[k]) {
            Some(next) => {
                acc = next;
            },
            None => {
                assert(dims_product(dims@.take(k + 1)) > usize::MAX);
                return None;
            },
        }
        k += 1;
    }
    assert(dims@.take(dims.len() as int) == dims@);
    Some(acc)
}

/// Counts the cells of a shape whose count fits.
pub fn size_of_dims(dims: &Vec<usize>) -> (n: usize)
    requires
        dims_fit(dims@),
    ensures
        n == dims_product(dims@),
{
    checked_size(dims).unwrap()
}

impl VarTensor {
    /// The same columns read in another shape.
    pub fn reshape(&self, dims: &Vec<usize>) -> (out: VarTensor)
        ensures
            out@ == (VarTensorView { column: self.column, dims: dims@ }),
    {
        VarTensor { column: self.column, dims: copy_dims(dims) }
    }
}

} // verus!
