//! Implementation of permutation argument.

pub mod keygen;
pub mod prover;

use crate::plonk::circuit::{GpuAny, GpuColumn};
use crate::plonk::queries::with_query;
use vstd::prelude::*;

verus! {

/// A permutation argument.
#[derive(Debug)]
pub struct Argument {
    /// A sequence of columns involved in the argument.
    pub columns: Vec<GpuColumn<GpuAny>>,
}

impl Argument {
    pub fn new() -> (r: Self)
        ensures
            r.columns@ == Seq::<GpuColumn<GpuAny>>::empty(),
    {
        Argument { columns: vec![] }
    }

    /// Returns the minimum circuit degree required by the permutation argument.
    /// The argument may use larger degree gates depending on the actual
    /// circuit's degree and how many columns are involved in the permutation.
    pub fn required_degree(&self) -> (r: usize)
        ensures
            r == 3,
    {
        // degree 2:
        // l_0(X) * (1 - z(X)) = 0
        //
        // degree 3:
        // l_last(X) * (z'(X)^2 - z'(X)) = 0
        //
        // There are constraints of degree 3 regardless of the
        // number of columns involved.
        3
    }

    /// Adds a column to the argument, unless it is there already.
    pub fn add_column(&mut self, column: GpuColumn<GpuAny>)
        ensures
            final(self).columns@ == with_query(old(self).columns@, column),
    {
        let mut i: usize = 0;
        while i < self.columns.len()
            invariant
                i <= self.columns@.len(),
                self.columns@ == old(self).columns@,
                forall|j: int| 0 <= j < i ==> self.columns@[j] != column,
            decreases self.columns@.len() - i,
        {
            if self.columns[i].same(&column) {
                return;
            }
            i += 1;
        }
        self.columns.push(column);
    }

    /// Returns columns that participate on the permutation argument.
    pub fn get_columns(&self) -> (r: Vec<GpuColumn<GpuAny>>)
        ensures
            r@ == self.columns@,
    {
        let mut columns: Vec<GpuColumn<GpuAny>> = Vec::new();
        let mut i: usize = 0;
        while i < self.columns.len()
            invariant
                i <= self.columns@.len(),
                columns@ == self.columns@.take(i as int),
            decreases self.columns@.len() - i,
        {
            columns.push(self.columns[i]);
            i += 1;
        }
        assert(columns@ =~= self.columns@);
        columns
    }
}

/// The verifying key for a single permutation argument.
#[derive(Debug)]
pub struct VerifyingKey<C> {
    pub commitments: Vec<C>,
}

impl<C> VerifyingKey<C> {
    /// Returns commitments of sigma polynomials
    pub fn commitments(&self) -> (r: &Vec<C>)
        ensures
            *r == self.commitments,
    {
        &self.commitments
    }
}

} // verus!
