//! Range checks of computed outputs against their claimed values.

use crate::tensor::{VarTensor, VarTensorView};
use vstd::prelude::*;

verus! {

/// A check that two columns differ by no more than a tolerance, cell by cell.
#[derive(Clone, Debug, PartialEq, Eq)]
pub struct RangeCheckConfig {
    pub input: VarTensor,
    pub output: VarTensor,
    /// The largest absolute deviation that the check lets pass.
    pub tolerance: usize,
}

/// What a [`RangeCheckConfig`] stands for.
pub struct RangeCheckConfigView {
    pub input: VarTensorView,
    pub output: VarTensorView,
    pub tolerance: usize,
}

impl View for RangeCheckConfig {
    type V = RangeCheckConfigView;

    open spec fn view(&self) -> RangeCheckConfigView {
        RangeCheckConfigView { input: self.input@, output: self.output@, tolerance: self.tolerance }
    }
}

/// The absolute difference of two quantized values.
pub open spec fn deviation(a: i32, b: i32) -> nat {
    if a >= b {
        (a - b) as nat
    } else {
        (b - a) as nat
    }
}

/// Whether `computed` stays within `tolerance` of `claimed` in every cell.
pub open spec fn within_tolerance(computed: Seq<i32>, claimed: Seq<i32>, tolerance: usize) -> bool {
    &&& computed.len() == claimed.len()
    &&& forall|i: int| 0 <= i < computed.len() ==> deviation(computed[i], claimed[i]) <= tolerance
}

impl RangeCheckConfig {
    /// Describes the check over the given columns.
    pub fn configure(input: VarTensor, output: VarTensor, tolerance: usize) -> (config:
        RangeCheckConfig)
        ensures
            config@ == (RangeCheckConfigView { input: input@, output: output@, tolerance }),
    {
        RangeCheckConfig { input, output, tolerance }
    }

    /// Decides whether the check is satisfied by a computed output and the value claimed for it:
    /// both have the same number of cells and no cell deviates by more than the tolerance.
    pub fn accepts(&self, computed: &Vec<i32>, claimed: &Vec<i32>) -> (ok: bool)
        ensures
            ok == within_tolerance(computed@, claimed@, self.tolerance),
    {
        if computed.len() != claimed.len() {
            return false;
        }
        let mut i: usize = 0;
        while i < computed.len()
            invariant
                i <= computed.len(),
                computed.len() == claimed.len(),
                forall|j: int| 0 <= j < i ==> deviation(computed@[j], claimed@[j]) <= self.tolerance,
            decreases computed.len() - i,
        {
            let a: i64 = computed[i] as i64;
            let b: i64 = claimed[i] as i64;
            let d: u64 = if a >= b {
                (a - b) as u64
            } else {
                (b - a) as u64
            };
            if d > self.tolerance as u64 {
                assert(deviation(computed@[i as int], claimed@[i as int]) > self.tolerance);
                return false;
            }
            i += 1;
        }
        true
    }
}

} // verus!
