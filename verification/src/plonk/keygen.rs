//! Key generation: what a circuit assigns to its fixed cells, selectors and
//! copies, and the columns that the keys are made of.

use crate::field::{vals, Field};
use crate::plonk::assigned::{AssignedModel, GpuAssigned};
use crate::plonk::circuit::{GpuAny, GpuColumn, GpuFixed, GpuSelector};
use crate::plonk::constraint_system::GpuConstraintSystem;
use crate::plonk::error::{Error, GpuError};
use crate::plonk::permutation;
use crate::plonk::permutation::keygen::{cell, has_shape};
use crate::plonk::graph::find;
use crate::poly::domain::EvaluationDomain;
use crate::poly::{batch_invert_assigned, Coeff, LagrangeCoeff, Polynomial};
use vstd::arithmetic::div_mod::lemma_small_mod;
use vstd::prelude::*;

verus! {

/// Assembly accumulator for keygen synthesis.
#[derive(Debug)]
pub struct Assembly<F: Field> {
    pub k: u32,
    /// The fixed columns, with deferred inversions.
    pub fixed: Vec<Vec<GpuAssigned<F>>>,
    pub permutation: permutation::keygen::Assembly,
    pub selectors: Vec<Vec<bool>>,
    /// The rows before this one are available for assignment and copies.
    pub usable_rows: usize,
}

/// Whether `new` is `old` with the cell of a row set.
pub open spec fn sets_cell<T>(new: Seq<Vec<T>>, old: Seq<Vec<T>>, column: int, row: int,
    value: T) ->
    bool {
    &&& new.len() == old.len()
    &&& forall|c: int| 0 <= c < new.len() && c != column ==> #[trigger] new[c] == old[c]
    &&& new[column]@ == old[column]@.update(row, value)
}

impl<F: Field> Assembly<F> {
    /// Whether all columns have `n` rows, of which not all are usable.
    pub open spec fn wf(self, n: nat) -> bool {
        &&& self.usable_rows <= n
        &&& has_shape(self.fixed@, self.fixed@.len(), n)
        &&& has_shape(self.selectors@, self.selectors@.len(), n)
        &&& self.permutation.wf()
        &&& self.permutation.columns@.len() > 0 ==> self.permutation.rows() == n
    }

    /// An empty assembly for a circuit with `2^k = n` rows, where those are
    /// enough for the constraint system.
    pub fn new(k: u32, n: usize, cs: &GpuConstraintSystem<F>) -> (r: Result<Self, GpuError>)
        requires
            cs.spec_blinding_factors() + 3 <= usize::MAX,
            cs.permutation.columns@.len() * n <= usize::MAX,
        ensures
            n < cs.spec_blinding_factors() + 3 <==> r is Err,
            r matches Err(e) ==> e == GpuError::Canonical(
                Error::NotEnoughRowsAvailable { current_k: k },
            ),
            r matches Ok(a) ==> {
                &&& a.wf(n as nat)
                &&& a.k == k
                &&& a.usable_rows == n - (cs.spec_blinding_factors() + 1)
                &&& a.fixed@.len() == cs.num_fixed_columns
                &&& forall|c: int, i: int|
                    0 <= c < a.fixed@.len() && 0 <= i < n ==> (#[trigger] a.fixed@[c]@[i])@
                        == AssignedModel::Trivial(0)
                &&& a.selectors@.len() == cs.num_selectors
                &&& forall|c: int, i: int|
                    0 <= c < a.selectors@.len() && 0 <= i < n
                        ==> #[trigger] a.selectors@[c]@[i] == false
                &&& a.permutation.columns@ == cs.permutation.columns@
                &&& forall|x: (usize, usize)| #[trigger]
                    a.permutation.has_cell(n as nat, x) ==> a.permutation.next(x) == x
            },
    {
        if n < cs.minimum_rows() {
            return Err(GpuError::not_enough_rows_available(k));
        }
        let mut fixed: Vec<Vec<GpuAssigned<F>>> = Vec::new();
        let mut c: usize = 0;
        while c < cs.num_fixed_columns
            invariant
                c <= cs.num_fixed_columns,
                fixed@.len() == c,
                forall|d: int| 0 <= d < c ==> (#[trigger] fixed@[d])@.len() == n,
                forall|d: int, i: int|
                    0 <= d < c && 0 <= i < n ==> (#[trigger] fixed@[d]@[i])@
                        == AssignedModel::Trivial(0),
            decreases cs.num_fixed_columns - c,
        {
            let mut column: Vec<GpuAssigned<F>> = Vec::new();
            let mut i: usize = 0;
            while i < n
                invariant
                    i <= n,
                    column@.len() == i,
                    forall|j: int| 0 <= j < i ==> (#[trigger] column@[j])@
                        == AssignedModel::Trivial(0),
                decreases n - i,
            {
                column.push(GpuAssigned::Trivial(F::zero()));
                i += 1;
            }
            let ghost before = fixed@;
            fixed.push(column);
            proof {
                assert forall|d: int, i: int| 0 <= d < c + 1 && 0 <= i < n implies
                    (#[trigger] fixed@[d]@[i])@ == AssignedModel::Trivial(0) by {
                    if d < c {
                        assert(before[d]@[i]@ == AssignedModel::Trivial(0));
                    }
                }
            }
            c += 1;
        }
        let mut selectors: Vec<Vec<bool>> = Vec::new();
        let mut c: usize = 0;
        while c < cs.num_selectors
            invariant
                c <= cs.num_selectors,
                selectors@.len() == c,
                forall|d: int| 0 <= d < c ==> (#[trigger] selectors@[d])@.len() == n,
                forall|d: int, i: int|
                    0 <= d < c && 0 <= i < n ==> #[trigger] selectors@[d]@[i] == false,
            decreases cs.num_selectors - c,
        {
            let mut column: Vec<bool> = Vec::new();
            let mut i: usize = 0;
            while i < n
                invariant
                    i <= n,
                    column@.len() == i,
                    forall|j: int| 0 <= j < i ==> #[trigger] column@[j] == false,
                decreases n - i,
            {
                column.push(false);
                i += 1;
            }
            let ghost before = selectors@;
            selectors.push(column);
            proof {
                assert forall|d: int, i: int| 0 <= d < c + 1 && 0 <= i < n implies
                    #[trigger] selectors@[d]@[i] == false by {
                    if d < c {
                        assert(before[d]@[i] == false);
                    }
                }
            }
            c += 1;
        }
        let permutation = permutation::keygen::Assembly::new(n, &cs.permutation);
        Ok(
            Assembly {
                k,
                fixed,
                permutation,
                selectors,
                usable_rows: n - (cs.blinding_factors() + 1),
            },
        )
    }

    /// Enables a selector at a row.
    pub fn enable_selector(&mut self, selector: &GpuSelector, row: usize) -> (r: Result<(), Error>)
        requires
            selector.0 < old(self).selectors@.len(),
            old(self).usable_rows <= old(self).selectors@[selector.0 as int]@.len(),
        ensures
            row >= old(self).usable_rows ==> r == Err::<(), Error>(
                Error::NotEnoughRowsAvailable { current_k: old(self).k },
            ) && *final(self) == *old(self),
            row < old(self).usable_rows ==> {
                &&& r == Ok::<(), Error>(())
                &&& sets_cell(
                    final(self).selectors@,
                    old(self).selectors@,
                    selector.0 as int,
                    row as int,
                    true,
                )
                &&& *final(self) == (Assembly { selectors: final(self).selectors, ..*old(self) })
            },
    {
        if row >= self.usable_rows {
            return Err(Error::NotEnoughRowsAvailable { current_k: self.k });
        }
        self.selectors[selector.0][row] = true;
        Ok(())
    }

    /// Queries an instance cell, of which nothing is known here.
    pub fn query_instance(&self, row: usize) -> (r: Result<Option<F>, Error>)
        ensures
            row >= self.usable_rows ==> r == Err::<Option<F>, Error>(
                Error::NotEnoughRowsAvailable { current_k: self.k },
            ),
            row < self.usable_rows ==> r == Ok::<Option<F>, Error>(None),
    {
        if row >= self.usable_rows {
            return Err(Error::NotEnoughRowsAvailable { current_k: self.k });
        }
        // There is no instance in this context.
        Ok(None)
    }

    /// Assigns a fixed cell.
    pub fn assign_fixed(&mut self, column: GpuColumn<GpuFixed>, row: usize, to: GpuAssigned<F>)
        requires
            row < old(self).usable_rows,
            column.index < old(self).fixed@.len(),
            row < old(self).fixed@[column.index as int]@.len(),
        ensures
            sets_cell(
                final(self).fixed@,
                old(self).fixed@,
                column.index as int,
                row as int,
                to,
            ),
            *final(self) == (Assembly { fixed: final(self).fixed, ..*old(self) }),
    {
        self.fixed[column.index][row] = to;
    }

    /// Constrains two cells to be equal.
    pub fn copy(
        &mut self,
        left_column: GpuColumn<GpuAny>,
        left_row: usize,
        right_column: GpuColumn<GpuAny>,
        right_row: usize,
    )
        requires
            left_row < old(self).usable_rows,
            right_row < old(self).usable_rows,
            old(self).permutation.wf(),
            old(self).usable_rows <= old(self).permutation.rows(),
            find(old(self).permutation.columns@, left_column) < old(
                self,
            ).permutation.columns@.len(),
            find(old(self).permutation.columns@, right_column) < old(
                self,
            ).permutation.columns@.len(),
        ensures
            final(self).permutation.wf(),
            *final(self) == (Assembly { permutation: final(self).permutation, ..*old(self) }),
            ({
                let before = old(self).permutation;
                let a = (find(before.columns@, left_column) as usize, left_row);
                let b = (find(before.columns@, right_column) as usize, right_row);
                &&& before.connected(a, b) ==> final(self).permutation == before
                &&& !before.connected(a, b) ==> final(self).permutation.merges(before, a, b)
            }),
    {
        let _ = self.permutation.copy(left_column, left_row, right_column, right_row);
    }

    /// Fills a fixed column from a row on, up to the last usable row.
    pub fn fill_from_row(
        &mut self,
        column: GpuColumn<GpuFixed>,
        from_row: usize,
        to: Option<GpuAssigned<F>>,
    ) -> (r: Result<(), Error>)
        requires
            column.index < old(self).fixed@.len() ==> old(self).usable_rows <= old(
                self,
            ).fixed@[column.index as int]@.len(),
        ensures
            ({
                let c = column.index as int;
                if from_row >= old(self).usable_rows {
                    &&& r == Err::<(), Error>(
                        Error::NotEnoughRowsAvailable { current_k: old(self).k },
                    )
                    &&& *final(self) == *old(self)
                } else if column.index >= old(self).fixed@.len() {
                    &&& r == Err::<(), Error>(Error::BoundsFailure)
                    &&& *final(self) == *old(self)
                } else if to is None {
                    &&& r == Err::<(), Error>(Error::Synthesis)
                    &&& *final(self) == *old(self)
                } else {
                    &&& r == Ok::<(), Error>(())
                    &&& *final(self) == (Assembly { fixed: final(self).fixed, ..*old(self) })
                    &&& final(self).fixed@.len() == old(self).fixed@.len()
                    &&& forall|d: int|
                        0 <= d < final(self).fixed@.len() && d != c
                            ==> #[trigger] final(self).fixed@[d] == old(self).fixed@[d]
                    &&& final(self).fixed@[c]@.len() == old(self).fixed@[c]@.len()
                    &&& forall|i: int|
                        0 <= i < final(self).fixed@[c]@.len()
                            ==> #[trigger] final(self).fixed@[c]@[i] == if from_row <= i < old(
                            self,
                        ).usable_rows {
                            to->0
                        } else {
                            old(self).fixed@[c]@[i]
                        }
                }
            }),
    {
        if from_row >= self.usable_rows {
            return Err(Error::NotEnoughRowsAvailable { current_k: self.k });
        }
        if column.index >= self.fixed.len() {
            return Err(Error::BoundsFailure);
        }
        let filler = match to {
            Some(v) => v,
            None => {
                return Err(Error::Synthesis);
            },
        };
        let end = self.usable_rows;
        let at = column.index;
        let mut row: usize = from_row;
        while row < end
            invariant
                from_row <= row <= end,
                end == old(self).usable_rows,
                at == column.index,
                at < old(self).fixed@.len(),
                end <= old(self).fixed@[at as int]@.len(),
                to == Some(filler),
                *self == (Assembly { fixed: self.fixed, ..*old(self) }),
                self.fixed@.len() == old(self).fixed@.len(),
                forall|d: int|
                    0 <= d < self.fixed@.len() && d != at ==> #[trigger] self.fixed@[d]
                        == old(self).fixed@[d],
                self.fixed@[at as int]@.len() == old(self).fixed@[at as int]@.len(),
                forall|i: int|
                    0 <= i < self.fixed@[at as int]@.len() ==> #[trigger] self.fixed@[at as int]@[i]
                        == if from_row <= i < row {
                        filler
                    } else {
                        old(self).fixed@[at as int]@[i]
                    },
            decreases end - row,
        {
            self.fixed[at][row] = filler;
            row += 1;
        }
        Ok(())
    }

    /// The values of the fixed columns: all deferred inversions are done at once.
    pub fn fixed_values(&self) -> (r: Vec<Polynomial<F, LagrangeCoeff>>)
        ensures
            r@.len() == self.fixed@.len(),
            forall|c: int|
                0 <= c < r@.len() ==> {
                    &&& (#[trigger] r@[c])@.len() == self.fixed@[c]@.len()
                    &&& forall|i: int|
                        0 <= i < r@[c]@.len() ==> (#[trigger] r@[c]@[i]).val()
                            == self.fixed@[c]@[i]@.value(F::modulus())
                },
    {
        batch_invert_assigned(&self.fixed)
    }
}

/// The values of `l_0`: one in the first row.
pub open spec fn first_row(n: nat) -> Seq<int> {
    Seq::new(
        n,
        |i: int|
            if i == 0 {
                1
            } else {
                0
            },
    )
}

/// The values of `l_last`: one in the first row that is not usable.
pub open spec fn last_usable(n: nat, blinding_factors: nat) -> Seq<int> {
    Seq::new(
        n,
        |i: int|
            if i == n - blinding_factors - 1 {
                1
            } else {
                0
            },
    )
}

/// The values of `l_active_row`: one in the usable rows.
pub open spec fn usable(n: nat, blinding_factors: nat) -> Seq<int> {
    Seq::new(
        n,
        |i: int|
            if i < n - blinding_factors - 1 {
                1
            } else {
                0
            },
    )
}

/// The columns `l_0`, `l_last` and `l_active_row`, in the Lagrange basis.
pub fn row_columns<F: Field>(n: usize, blinding_factors: usize) -> (r: (Vec<F>, Vec<F>, Vec<F>))
    requires
        blinding_factors < n,
    ensures
        vals(r.0@) == first_row(n as nat),
        vals(r.1@) == last_usable(n as nat, blinding_factors as nat),
        vals(r.2@) == usable(n as nat, blinding_factors as nat),
{
    proof {
        F::lemma_modulus();
        lemma_small_mod(1, F::modulus() as nat);
        lemma_small_mod(0, F::modulus() as nat);
    }
    let last = n - blinding_factors - 1;
    let mut l0: Vec<F> = Vec::new();
    let mut l_last: Vec<F> = Vec::new();
    let mut l_active_row: Vec<F> = Vec::new();
    let mut i: usize = 0;
    while i < n
        invariant
            i <= n,
            blinding_factors < n,
            last == n - blinding_factors - 1,
            F::modulus() > 2,
            1int % F::modulus() == 1,
            0int % F::modulus() == 0,
            l0@.len() == i,
            l_last@.len() == i,
            l_active_row@.len() == i,
            forall|k: int| 0 <= k < i ==> (#[trigger] l0@[k]).val() == first_row(n as nat)[k],
            forall|k: int|
                0 <= k < i ==> (#[trigger] l_last@[k]).val() == last_usable(
                    n as nat,
                    blinding_factors as nat,
                )[k],
            forall|k: int|
                0 <= k < i ==> (#[trigger] l_active_row@[k]).val() == usable(
                    n as nat,
                    blinding_factors as nat,
                )[k],
        decreases n - i,
    {
        let first = if i == 0 {
            F::one()
        } else {
            F::zero()
        };
        // 1 on the first inactive row, 0 elsewhere.
        let at_last = if i == last {
            F::one()
        } else {
            F::zero()
        };
        // 1 on each blinding-factor row, 0 elsewhere.
        let blind = if i > last {
            F::one()
        } else {
            F::zero()
        };
        let active = F::one().sub(&at_last.add(&blind));
        l0.push(first);
        l_last.push(at_last);
        l_active_row.push(active);
        i += 1;
    }
    proof {
        assert(vals(l0@) =~= first_row(n as nat));
        assert(vals(l_last@) =~= last_usable(n as nat, blinding_factors as nat));
        assert(vals(l_active_row@) =~= usable(n as nat, blinding_factors as nat));
    }
    (l0, l_last, l_active_row)
}

/// The polynomials `l_0`, `l_last` and `l_active_row`.
pub fn row_polys<F: Field>(domain: &EvaluationDomain<F>, blinding_factors: usize) -> (r: (
    Polynomial<F, Coeff>,
    Polynomial<F, Coeff>,
    Polynomial<F, Coeff>,
))
    requires
        domain.wf(),
        blinding_factors < domain.size(),
    ensures
        vals(r.0@) == domain.coefficients(first_row(domain.size())),
        vals(r.1@) == domain.coefficients(last_usable(domain.size(), blinding_factors as nat)),
        vals(r.2@) == domain.coefficients(usable(domain.size(), blinding_factors as nat)),
{
    let (l0, l_last, l_active_row) = row_columns(domain.rows(), blinding_factors);
    assert(vals(l0@).len() == domain.size());
    assert(vals(l_last@).len() == domain.size());
    assert(vals(l_active_row@).len() == domain.size());
    (
        domain.lagrange_to_coeff(Polynomial::new(l0)),
        domain.lagrange_to_coeff(Polynomial::new(l_last)),
        domain.lagrange_to_coeff(Polynomial::new(l_active_row)),
    )
}

} // verus!
