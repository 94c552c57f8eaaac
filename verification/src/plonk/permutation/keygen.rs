//! The copy constraints of a circuit, as a permutation of its cells whose
//! cycles are the cells that must be equal.

use crate::field::{fmul, fpow, Field};
use crate::plonk::circuit::{GpuAny, GpuColumn};
use crate::plonk::error::{Error, GpuError};
use crate::plonk::graph::{find, lemma_find_is};
use crate::plonk::permutation::Argument;
use crate::poly::arithmetic::powers;
use crate::poly::{LagrangeCoeff, Polynomial};
use vstd::prelude::*;

verus! {

/// Accumulates copy-constraint data.
#[derive(Debug)]
pub struct Assembly {
    /// Columns that participate on the copy permutation argument.
    pub columns: Vec<GpuColumn<GpuAny>>,
    /// Mapping of the actual copies done.
    pub mapping: Vec<Vec<(usize, usize)>>,
    /// Some aux data used to swap positions directly when sorting.
    pub aux: Vec<Vec<(usize, usize)>>,
    /// More aux data
    pub sizes: Vec<Vec<usize>>,
}

/// What a table of columns holds for a cell.
pub open spec fn cell<T>(table: Seq<Vec<T>>, x: (usize, usize)) -> T {
    table[x.0 as int]@[x.1 as int]
}

/// Whether a table has `columns` columns of `n` rows.
pub open spec fn has_shape<T>(table: Seq<Vec<T>>, columns: nat, n: nat) -> bool {
    &&& table.len() == columns
    &&& forall|i: int| 0 <= i < columns ==> (#[trigger] table[i])@.len() == n
}

fn set_cell<T>(table: &mut Vec<Vec<T>>, x: (usize, usize), value: T, columns: Ghost<nat>,
    n: Ghost<nat>)
    requires
        has_shape(old(table)@, columns@, n@),
        x.0 < columns@,
        x.1 < n@,
    ensures
        has_shape(final(table)@, columns@, n@),
        forall|y: (usize, usize)|
            y.0 < columns@ && y.1 < n@ ==> #[trigger] cell(final(table)@, y) == if y == x {
                value
            } else {
                cell(old(table)@, y)
            },
{
    assert(table@[x.0 as int]@.len() == n@);
    table[x.0][x.1] = value;
    assert forall|i: int| 0 <= i < columns@ implies (#[trigger] table@[i])@.len() == n@ by {
        assert(old(table)@[i]@.len() == n@);
    }
}

impl Assembly {
    /// Whether a cell is one of `n` rows of a column of the permutation.
    pub open spec fn has_cell(self, n: nat, x: (usize, usize)) -> bool {
        x.0 < self.columns@.len() && x.1 < n
    }

    /// The cell after a cell in its cycle.
    pub open spec fn next(self, x: (usize, usize)) -> (usize, usize) {
        cell(self.mapping@, x)
    }

    /// The cell that stands for a cell's cycle.
    pub open spec fn representative(self, x: (usize, usize)) -> (usize, usize) {
        cell(self.aux@, x)
    }

    /// Whether a cell of a cycle has `r` standing for it and leads to the next one.
    pub open spec fn linked(
        self,
        n: nat,
        r: (usize, usize),
        s: Seq<(usize, usize)>,
        i: int,
    ) -> bool {
        &&& self.has_cell(n, s[i])
        &&& self.representative(s[i]) == r
        &&& self.next(s[i]) == s[(i + 1) % (s.len() as int)]
    }

    /// Whether `s` is the cycle that a representative stands for, starting there.
    pub open spec fn is_cycle(self, n: nat, r: (usize, usize), s: Seq<(usize, usize)>) -> bool {
        &&& s.len() > 0
        &&& s.len() == cell(self.sizes@, r)
        &&& s[0] == r
        &&& forall|i: int| 0 <= i < s.len() ==> #[trigger] self.linked(n, r, s, i)
        &&& forall|i: int, j: int| 0 <= i < j < s.len() ==> #[trigger] s[i] != #[trigger] s[j]
    }

    /// Whether `cycles` are the cycles of the permutation.
    pub open spec fn has_cycles(
        self,
        n: nat,
        cycles: Map<(usize, usize), Seq<(usize, usize)>>,
    ) -> bool {
        forall|x: (usize, usize)| #[trigger]
            self.has_cell(n, x) ==> {
                let r = self.representative(x);
                &&& self.has_cell(n, r)
                &&& self.representative(r) == r
                &&& self.is_cycle(n, r, cycles[r])
                &&& cycles[r].contains(x)
            }
    }

    /// The number of rows.
    pub open spec fn rows(self) -> nat {
        if self.mapping@.len() == 0 {
            0
        } else {
            self.mapping@[0]@.len()
        }
    }

    /// Whether the mapping is a permutation of the cells, and every
    /// cell knows the cell that stands for its cycle, which knows the cycle's
    /// size.
    pub open spec fn wf(self) -> bool {
        let n = self.rows();
        &&& self.columns@.len() * n <= usize::MAX
        &&& has_shape(self.mapping@, self.columns@.len(), n)
        &&& has_shape(self.aux@, self.columns@.len(), n)
        &&& has_shape(self.sizes@, self.columns@.len(), n)
        &&& exists|cycles: Map<(usize, usize), Seq<(usize, usize)>>| self.has_cycles(n, cycles)
    }

    /// Whether two cells are in the same cycle.
    pub open spec fn connected(self, x: (usize, usize), y: (usize, usize)) -> bool {
        self.representative(x) == self.representative(y)
    }

    /// The cell after `k` steps along the cycle of `x`.
    pub open spec fn steps(self, x: (usize, usize), k: nat) -> (usize, usize)
        decreases k,
    {
        if k == 0 {
            x
        } else {
            self.next(self.steps(x, (k - 1) as nat))
        }
    }

    /// Every cell is its own cycle.
    pub fn new(n: usize, p: &Argument) -> (r: Self)
        requires
            p.columns@.len() * n <= usize::MAX,
        ensures
            r.columns@ == p.columns@,
            r.wf(),
            p.columns@.len() > 0 ==> r.rows() == n,
            forall|x: (usize, usize)| #[trigger]
                r.has_cell(n as nat, x) ==> r.next(x) == x && r.representative(x) == x,
    {
        let num_columns = p.columns.len();
        let mut columns: Vec<GpuColumn<GpuAny>> = Vec::new();
        let mut mapping: Vec<Vec<(usize, usize)>> = Vec::new();
        let mut aux: Vec<Vec<(usize, usize)>> = Vec::new();
        let mut sizes: Vec<Vec<usize>> = Vec::new();
        let mut i: usize = 0;
        while i < num_columns
            invariant
                i <= num_columns,
                num_columns == p.columns@.len(),
                columns@ == p.columns@.take(i as int),
                has_shape(mapping@, i as nat, n as nat),
                has_shape(aux@, i as nat, n as nat),
                has_shape(sizes@, i as nat, n as nat),
                forall|x: (usize, usize)|
                    x.0 < i && x.1 < n ==> #[trigger] cell(mapping@, x) == x,
                forall|x: (usize, usize)| x.0 < i && x.1 < n ==> #[trigger] cell(aux@, x) == x,
                forall|x: (usize, usize)| x.0 < i && x.1 < n ==> #[trigger] cell(sizes@, x) == 1,
            decreases num_columns - i,
        {
            // [(i, 0), (i, 1), ..., (i, n - 1)]
            let mut own: Vec<(usize, usize)> = Vec::new();
            let mut standing: Vec<(usize, usize)> = Vec::new();
            let mut ones: Vec<usize> = Vec::new();
            let mut j: usize = 0;
            while j < n
                invariant
                    j <= n,
                    own@ == Seq::new(j as nat, |k: int| (i, k as usize)),
                    standing@ == Seq::new(j as nat, |k: int| (i, k as usize)),
                    ones@ == Seq::new(j as nat, |k: int| 1usize),
                decreases n - j,
            {
                own.push((i, j));
                standing.push((i, j));
                ones.push(1);
                j += 1;
                assert(own@ =~= Seq::new(j as nat, |k: int| (i, k as usize)));
                assert(standing@ =~= Seq::new(j as nat, |k: int| (i, k as usize)));
                assert(ones@ =~= Seq::new(j as nat, |k: int| 1usize));
            }
            columns.push(p.columns[i]);
            let ghost (m0, a0, s0) = (mapping@, aux@, sizes@);
            mapping.push(own);
            aux.push(standing);
            sizes.push(ones);
            proof {
                assert forall|x: (usize, usize)| x.0 < i + 1 && x.1 < n implies #[trigger] cell(
                    mapping@,
                    x,
                ) == x by {
                    if x.0 < i {
                        assert(cell(m0, x) == x);
                    }
                }
                assert forall|x: (usize, usize)| x.0 < i + 1 && x.1 < n implies #[trigger] cell(
                    aux@,
                    x,
                ) == x by {
                    if x.0 < i {
                        assert(cell(a0, x) == x);
                    }
                }
                assert forall|x: (usize, usize)| x.0 < i + 1 && x.1 < n implies #[trigger] cell(
                    sizes@,
                    x,
                ) == 1 by {
                    if x.0 < i {
                        assert(cell(s0, x) == 1);
                    }
                }
                assert(columns@ =~= p.columns@.take(i + 1));
            }
            i += 1;
        }
        assert(p.columns@.take(i as int) =~= p.columns@);
        let r = Assembly { columns, mapping, aux, sizes };
        proof {
            let cycles = Map::new(|x: (usize, usize)| true, |x: (usize, usize)| seq![x]);
            assert forall|x: (usize, usize)| #[trigger] r.has_cell(n as nat, x) implies {
                let rep = r.representative(x);
                &&& r.has_cell(n as nat, rep)
                &&& r.representative(rep) == rep
                &&& r.is_cycle(n as nat, rep, cycles[rep])
                &&& cycles[rep].contains(x)
            } by {
                assert(cell(r.aux@, x) == x);
                assert(cell(r.mapping@, x) == x);
                assert(cell(r.sizes@, x) == 1);
                let s = cycles[x];
                assert(s =~= seq![x]);
                assert(s[0] == x);
                assert(s.contains(x));
                assert(r.linked(n as nat, x, s, 0));
            }
            assert(r.has_cycles(n as nat, cycles));
            if num_columns == 0 {
                assert(r.has_cycles(0, cycles));
            }
        }
        r
    }

    /// Returns columns that participate in the permutation argument.
    pub fn columns(&self) -> (r: &Vec<GpuColumn<GpuAny>>)
        ensures
            *r == self.columns,
    {
        &self.columns
    }

    /// Returns mappings of the copies.
    pub fn mapping(&self) -> (r: &Vec<Vec<(usize, usize)>>)
        ensures
            *r == self.mapping,
    {
        &self.mapping
    }

    fn column_position(&self, column: GpuColumn<GpuAny>) -> (r: usize)
        ensures
            r == find(self.columns@, column),
            r <= self.columns@.len(),
    {
        let mut i: usize = 0;
        while i < self.columns.len() && !self.columns[i].same(&column)
            invariant
                i <= self.columns@.len(),
                forall|j: int| 0 <= j < i ==> self.columns@[j] != column,
            decreases self.columns@.len() - i,
        {
            i += 1;
        }
        proof {
            lemma_find_is(self.columns@, column, i as int);
        }
        i
    }
}

/// Distinct cells are no more than there are.
proof fn lemma_cells_bounded(s: Seq<(usize, usize)>, columns: nat, n: nat)
    requires
        forall|i: int| 0 <= i < s.len() ==> (#[trigger] s[i]).0 < columns && s[i].1 < n,
        forall|i: int, j: int| 0 <= i < j < s.len() ==> #[trigger] s[i] != #[trigger] s[j],
    ensures
        s.len() <= columns * n,
{
    let t = Seq::new(s.len(), |i: int| s[i].0 as int * n as int + s[i].1 as int);
    let total = columns * n;
    assert(t.no_duplicates()) by {
        assert forall|i: int, j: int| 0 <= i < t.len() && 0 <= j < t.len() && i != j implies t[i]
            != t[j] by {
            if t[i] == t[j] {
                let (a, b) = (s[i], s[j]);
                assert(a.0 < columns && a.1 < n && b.0 < columns && b.1 < n);
                assert(a.0 == b.0 && a.1 == b.1) by (nonlinear_arith)
                    requires
                        a.0 as int * n as int + a.1 as int == b.0 as int * n as int + b.1 as int,
                        a.1 < n,
                        b.1 < n,
                ;
                if i < j {
                    assert(s[i] != s[j]);
                } else {
                    assert(s[j] != s[i]);
                }
            }
        }
    }
    t.unique_seq_to_set();
    let bound = vstd::set_lib::set_int_range(0, total as int);
    vstd::set_lib::lemma_int_range(0, total as int);
    assert(t.to_set().subset_of(bound)) by {
        assert forall|v: int| t.to_set().contains(v) implies bound.contains(v) by {
            let i = choose|i: int| 0 <= i < t.len() && t[i] == v;
            let a = s[i];
            assert(a.0 < columns && a.1 < n);
            assert(0 <= v < total) by (nonlinear_arith)
                requires
                    v == a.0 as int * n as int + a.1 as int,
                    a.0 < columns,
                    a.1 < n,
                    total == columns * n,
            ;
        }
    }
    vstd::set_lib::lemma_len_subset(t.to_set(), bound);
}

/// A cycle with another put in behind position `i`, which starts behind its
/// position `j`.
pub open spec fn merged(
    left: Seq<(usize, usize)>,
    right: Seq<(usize, usize)>,
    i: int,
    j: int,
) -> Seq<(usize, usize)> {
    Seq::new(
        left.len() + right.len(),
        |k: int|
            if k <= i {
                left[k]
            } else if k <= i + right.len() {
                right[(j + (k - i)) % (right.len() as int)]
            } else {
                left[k - right.len()]
            },
    )
}

impl Assembly {
    /// Whether the permutation is `old` with the cycles of two cells merged: the
    /// two cells have exchanged what comes after them, and the representative
    /// of the larger cycle stands for both.
    pub open spec fn merges(self, old: Self, a: (usize, usize), b: (usize, usize)) -> bool {
        let n = old.rows();
        let (ra, rb) = (old.representative(a), old.representative(b));
        let (big, small) = if cell(old.sizes@, ra) < cell(old.sizes@, rb) {
            (rb, ra)
        } else {
            (ra, rb)
        };
        &&& self.columns == old.columns
        &&& self.rows() == n
        &&& forall|x: (usize, usize)| #[trigger]
            old.has_cell(n, x) ==> {
                &&& self.next(x) == if x == a {
                    old.next(b)
                } else if x == b {
                    old.next(a)
                } else {
                    old.next(x)
                }
                &&& self.representative(x) == if old.representative(x) == small {
                    big
                } else {
                    old.representative(x)
                }
                &&& cell(self.sizes@, x) == if x == big {
                    cell(old.sizes@, big) + cell(old.sizes@, small)
                } else {
                    cell(old.sizes@, x) as int
                }
            }
    }

    /// Constrains two cells to be equal, by merging their cycles.
    pub fn copy(
        &mut self,
        left_column: GpuColumn<GpuAny>,
        left_row: usize,
        right_column: GpuColumn<GpuAny>,
        right_row: usize,
    ) -> (r: Result<(), GpuError>)
        requires
            old(self).wf(),
        ensures
            final(self).wf(),
            ({
                let n = old(self).rows();
                let left = find(old(self).columns@, left_column);
                let right = find(old(self).columns@, right_column);
                let a = (left as usize, left_row);
                let b = (right as usize, right_row);
                if left == old(self).columns@.len() {
                    &&& r == Err::<(), GpuError>(
                        GpuError::Canonical(Error::ColumnNotInPermutation(left_column)),
                    )
                    &&& *final(self) == *old(self)
                } else if right == old(self).columns@.len() {
                    &&& r == Err::<(), GpuError>(
                        GpuError::Canonical(Error::ColumnNotInPermutation(right_column)),
                    )
                    &&& *final(self) == *old(self)
                } else if left_row >= n || right_row >= n {
                    &&& r == Err::<(), GpuError>(GpuError::Canonical(Error::BoundsFailure))
                    &&& *final(self) == *old(self)
                } else {
                    &&& r == Ok::<(), GpuError>(())
                    &&& old(self).connected(a, b) ==> *final(self) == *old(self)
                    &&& !old(self).connected(a, b) ==> final(self).merges(*old(self), a, b)
                }
            }),
    {
        let left = self.column_position(left_column);
        if left == self.columns.len() {
            return Err(GpuError::Canonical(Error::ColumnNotInPermutation(left_column)));
        }
        let right = self.column_position(right_column);
        if right == self.columns.len() {
            return Err(GpuError::Canonical(Error::ColumnNotInPermutation(right_column)));
        }
        // Check bounds
        let ghost n = self.rows();
        let ghost m = self.columns@.len();
        proof {
            assert(self.mapping@[left as int]@.len() == n);
            assert(self.mapping@[right as int]@.len() == n);
            assert(self.aux@[left as int]@.len() == n);
            assert(self.aux@[right as int]@.len() == n);
        }
        if left_row >= self.mapping[left].len() || right_row >= self.mapping[right].len() {
            return Err(GpuError::Canonical(Error::BoundsFailure));
        }
        let ghost a = (left, left_row);
        let ghost b = (right, right_row);
        let ghost cycles = choose|cycles: Map<(usize, usize), Seq<(usize, usize)>>|
            self.has_cycles(n, cycles);
        proof {
            assert(self.has_cell(n, a));
            assert(self.has_cell(n, b));
        }

        let mut left_cycle = self.aux[left][left_row];
        let mut right_cycle = self.aux[right][right_row];
        assert(left_cycle == self.representative(a));
        assert(right_cycle == self.representative(b));

        // If left and right are in the same cycle, do nothing.
        if left_cycle.0 == right_cycle.0 && left_cycle.1 == right_cycle.1 {
            return Ok(());
        }
        proof {
            assert(self.has_cell(n, left_cycle));
            assert(self.has_cell(n, right_cycle));
            assert(self.sizes@[left_cycle.0 as int]@.len() == n);
            assert(self.sizes@[right_cycle.0 as int]@.len() == n);
        }
        let left_size = self.sizes[left_cycle.0][left_cycle.1];
        let right_size = self.sizes[right_cycle.0][right_cycle.1];
        // The two cells, in the order of their cycles.
        let ghost mut in_left = a;
        let ghost mut in_right = b;
        if left_size < right_size {
            let tmp = left_cycle;
            left_cycle = right_cycle;
            right_cycle = tmp;
            proof {
                in_left = b;
                in_right = a;
            }
        }
        let ghost before = *self;
        let ghost sl = cycles[left_cycle];
        let ghost sr = cycles[right_cycle];
        proof {
            assert(before.is_cycle(n, left_cycle, sl) && before.is_cycle(n, right_cycle, sr));
            assert(sl.contains(in_left) && sr.contains(in_right));
            lemma_both_bounded(before, n, left_cycle, right_cycle, sl, sr);
        }

        // Merge the right cycle into the left one.
        let total: usize = left_size + right_size;
        set_cell(&mut self.sizes, left_cycle, total, Ghost(m), Ghost(n));
        let mut i = right_cycle;
        let ghost mut k: int = 0;
        loop
            invariant_except_break
                0 <= k < sr.len(),
                i == sr[k],
                forall|x: (usize, usize)| #[trigger]
                    before.has_cell(n, x) ==> cell(self.aux@, x) == if exists|q: int|
                        0 <= q < k && sr[q] == x {
                        left_cycle
                    } else {
                        cell(before.aux@, x)
                    },
            invariant
                m == before.columns@.len(),
                self.columns == before.columns,
                self.mapping == before.mapping,
                has_shape(self.aux@, m, n),
                has_shape(self.mapping@, m, n),
                has_shape(self.sizes@, m, n),
                before.is_cycle(n, right_cycle, sr),
                forall|x: (usize, usize)| #[trigger]
                    before.has_cell(n, x) ==> cell(self.sizes@, x) == if x == left_cycle {
                        total
                    } else {
                        cell(before.sizes@, x)
                    },
            ensures
                forall|x: (usize, usize)| #[trigger]
                    before.has_cell(n, x) ==> cell(self.aux@, x) == if exists|q: int|
                        0 <= q < sr.len() && sr[q] == x {
                        left_cycle
                    } else {
                        cell(before.aux@, x)
                    },
            decreases sr.len() - k,
        {
            assert(before.linked(n, right_cycle, sr, k));
            set_cell(&mut self.aux, i, left_cycle, Ghost(m), Ghost(n));
            proof {
                assert forall|x: (usize, usize)| #[trigger] before.has_cell(n, x) implies cell(
                    self.aux@,
                    x,
                ) == if exists|q: int| 0 <= q < k + 1 && sr[q] == x {
                    left_cycle
                } else {
                    cell(before.aux@, x)
                } by {
                    if x == sr[k] {
                        assert(exists|q: int| 0 <= q < k + 1 && sr[q] == x);
                    } else {
                        if exists|q: int| 0 <= q < k && sr[q] == x {
                            let q = choose|q: int| 0 <= q < k && sr[q] == x;
                            assert(0 <= q < k + 1 && sr[q] == x);
                        }
                    }
                }
                assert(self.mapping@[i.0 as int]@.len() == n);
            }
            i = self.mapping[i.0][i.1];
            proof {
                if k + 1 < sr.len() {
                    vstd::arithmetic::div_mod::lemma_small_mod((k + 1) as nat, sr.len());
                    assert(sr[0] != sr[k + 1]);
                } else {
                    vstd::arithmetic::div_mod::lemma_mod_self_0(sr.len() as int);
                }
            }
            if i.0 == right_cycle.0 && i.1 == right_cycle.1 {
                break;
            }
            proof {
                k = k + 1;
            }
        }

        let tmp = self.mapping[left][left_row];
        let other = self.mapping[right][right_row];
        set_cell(&mut self.mapping, (left, left_row), other, Ghost(m), Ghost(n));
        set_cell(&mut self.mapping, (right, right_row), tmp, Ghost(m), Ghost(n));
        proof {
            assert forall|x: (usize, usize)| #[trigger] before.has_cell(n, x) implies {
                &&& self.next(x) == if x == a {
                    before.next(b)
                } else if x == b {
                    before.next(a)
                } else {
                    before.next(x)
                }
                &&& self.representative(x) == if before.representative(x) == right_cycle {
                    left_cycle
                } else {
                    before.representative(x)
                }
                &&& cell(self.sizes@, x) == if x == left_cycle {
                    cell(before.sizes@, left_cycle) + cell(before.sizes@, right_cycle)
                } else {
                    cell(before.sizes@, x) as int
                }
            } by {
                // A cell is in the right cycle if that is what it stands for.
                if before.representative(x) == right_cycle {
                    assert(cycles[right_cycle].contains(x));
                } else {
                    if exists|q: int| 0 <= q < sr.len() && sr[q] == x {
                        let q = choose|q: int| 0 <= q < sr.len() && sr[q] == x;
                        assert(before.linked(n, right_cycle, sr, q));
                    }
                }
            }
            assert(self.rows() == n);
            lemma_merged_cycles(
                before,
                *self,
                n,
                cycles,
                left_cycle,
                right_cycle,
                in_left,
                in_right,
            );
        }
        Ok(())
    }
}

proof fn lemma_both_bounded(
    g: Assembly,
    n: nat,
    r: (usize, usize),
    q: (usize, usize),
    sl: Seq<(usize, usize)>,
    sr: Seq<(usize, usize)>,
)
    requires
        r != q,
        g.is_cycle(n, r, sl),
        g.is_cycle(n, q, sr),
        g.columns@.len() * n <= usize::MAX,
    ensures
        sl.len() + sr.len() <= usize::MAX,
{
    let s = sl + sr;
    assert forall|i: int| 0 <= i < s.len() implies (#[trigger] s[i]).0 < g.columns@.len() && s[i].1
        < n by {
        if i < sl.len() {
            assert(g.linked(n, r, sl, i));
        } else {
            assert(g.linked(n, q, sr, i - sl.len()));
        }
    }
    assert forall|i: int, j: int| 0 <= i < j < s.len() implies #[trigger] s[i]
        != #[trigger] s[j] by {
        if j < sl.len() {
            assert(sl[i] != sl[j]);
        } else if i >= sl.len() {
            assert(sr[i - sl.len()] != sr[j - sl.len()]);
        } else {
            assert(g.linked(n, r, sl, i));
            assert(g.linked(n, q, sr, j - sl.len()));
        }
    }
    lemma_cells_bounded(s, g.columns@.len(), n);
}

/// Merging two cycles leaves a permutation whose cycles are known.
proof fn lemma_merged_cycles(
    g: Assembly,
    h: Assembly,
    n: nat,
    cycles: Map<(usize, usize), Seq<(usize, usize)>>,
    l: (usize, usize),
    r: (usize, usize),
    a: (usize, usize),
    b: (usize, usize),
)
    requires
        g.has_cycles(n, cycles),
        h.columns == g.columns,
        l != r,
        g.has_cell(n, a),
        g.has_cell(n, b),
        g.representative(a) == l,
        g.representative(b) == r,
        forall|x: (usize, usize)| #[trigger]
            g.has_cell(n, x) ==> {
                &&& h.next(x) == if x == a {
                    g.next(b)
                } else if x == b {
                    g.next(a)
                } else {
                    g.next(x)
                }
                &&& h.representative(x) == if g.representative(x) == r {
                    l
                } else {
                    g.representative(x)
                }
                &&& cell(h.sizes@, x) == if x == l {
                    cell(g.sizes@, l) + cell(g.sizes@, r)
                } else {
                    cell(g.sizes@, x) as int
                }
            },
    ensures
        exists|after: Map<(usize, usize), Seq<(usize, usize)>>| h.has_cycles(n, after),
{
    let sl = cycles[l];
    let sr = cycles[r];
    assert(g.is_cycle(n, l, sl) && sl.contains(a));
    assert(g.is_cycle(n, r, sr) && sr.contains(b));
    let i = choose|i: int| 0 <= i < sl.len() && sl[i] == a;
    let j = choose|j: int| 0 <= j < sr.len() && sr[j] == b;
    let t = merged(sl, sr, i, j);
    assert(g.linked(n, l, sl, 0) && g.linked(n, r, sr, 0));
    lemma_merged_is_cycle(g, h, n, l, r, sl, sr, i, j);
    let after = cycles.insert(l, t);
    assert forall|x: (usize, usize)| #[trigger] h.has_cell(n, x) implies {
        let q = h.representative(x);
        &&& h.has_cell(n, q)
        &&& h.representative(q) == q
        &&& h.is_cycle(n, q, after[q])
        &&& after[q].contains(x)
    } by {
        assert(g.has_cell(n, x));
        let q0 = g.representative(x);
        assert(g.has_cell(n, q0));
        assert(g.representative(q0) == q0);
        assert(g.has_cell(n, l) && g.representative(l) == l);
        if q0 == r {
            assert(sr.contains(x));
            let k = choose|k: int| 0 <= k < sr.len() && sr[k] == x;
            // Position `k` of the right cycle stands `d` behind `j`.
            let d = if k > j {
                k - j
            } else {
                k - j + sr.len()
            };
            lemma_turn(j, d, sr.len() as int, k);
            assert(t[i + d] == x);
            assert(t.contains(x));
        } else if q0 == l {
            assert(sl.contains(x));
            let k = choose|k: int| 0 <= k < sl.len() && sl[k] == x;
            if k <= i {
                assert(t[k] == x);
            } else {
                assert(t[k + sr.len()] == x);
            }
            assert(t.contains(x));
        } else {
            let s = cycles[q0];
            assert(g.is_cycle(n, q0, s));
            assert forall|k: int| 0 <= k < s.len() implies #[trigger] h.linked(n, q0, s, k) by {
                assert(g.linked(n, q0, s, k));
            }
            assert(g.linked(n, q0, s, 0));
            assert(h.is_cycle(n, q0, s));
        }
    }
    assert(h.has_cycles(n, after));
}

/// Going `d` steps around from `j` leads to `k`.
proof fn lemma_turn(j: int, d: int, len: int, k: int)
    requires
        0 <= j < len,
        0 <= k < len,
        1 <= d <= len,
        j + d == k || j + d == k + len,
    ensures
        (j + d) % len == k,
{
    if j + d == k {
        vstd::arithmetic::div_mod::lemma_small_mod(k as nat, len as nat);
    } else {
        vstd::arithmetic::div_mod::lemma_mod_add_multiples_vanish(k, len);
        vstd::arithmetic::div_mod::lemma_small_mod(k as nat, len as nat);
    }
}

/// The position that is `d` steps around from `j`.
spec fn turn(j: int, d: int, len: int) -> int {
    if j + d < len {
        j + d
    } else {
        j + d - len
    }
}

proof fn lemma_merged_is_cycle(
    g: Assembly,
    h: Assembly,
    n: nat,
    l: (usize, usize),
    r: (usize, usize),
    sl: Seq<(usize, usize)>,
    sr: Seq<(usize, usize)>,
    i: int,
    j: int,
)
    requires
        h.columns == g.columns,
        l != r,
        g.is_cycle(n, l, sl),
        g.is_cycle(n, r, sr),
        0 <= i < sl.len(),
        0 <= j < sr.len(),
        forall|x: (usize, usize)| #[trigger]
            g.has_cell(n, x) ==> {
                &&& h.next(x) == if x == sl[i] {
                    g.next(sr[j])
                } else if x == sr[j] {
                    g.next(sl[i])
                } else {
                    g.next(x)
                }
                &&& h.representative(x) == if g.representative(x) == r {
                    l
                } else {
                    g.representative(x)
                }
                &&& cell(h.sizes@, x) == if x == l {
                    cell(g.sizes@, l) + cell(g.sizes@, r)
                } else {
                    cell(g.sizes@, x) as int
                }
            },
    ensures
        h.is_cycle(n, l, merged(sl, sr, i, j)),
{
    let t = merged(sl, sr, i, j);
    let (nl, nr) = (sl.len() as int, sr.len() as int);
    let total = nl + nr;
    assert(t.len() == total);
    assert(g.linked(n, l, sl, 0));
    // What stands where.
    assert forall|k: int| 0 <= k < total implies #[trigger] t[k] == if k <= i {
        sl[k]
    } else if k <= i + nr {
        sr[turn(j, k - i, nr)]
    } else {
        sl[k - nr]
    } by {
        if i < k <= i + nr {
            lemma_turn(j, k - i, nr, turn(j, k - i, nr));
        }
    }
    assert(g.linked(n, r, sr, j));
    assert(g.linked(n, l, sl, i));
    assert forall|k: int| 0 <= k < total implies #[trigger] h.linked(n, l, t, k) by {
        let k1 = turn(k, 1, total);
        lemma_turn(k, 1, total, k1);
        assert((k + 1) % total == k1);
        if k <= i {
            assert(g.linked(n, l, sl, k));
            if k < i {
                assert(sl[k] != sl[i]);
                assert(sl[k] != sr[j]);
                lemma_turn(k, 1, nl, k + 1);
                assert(t[k1] == sl[k + 1]);
            } else {
                let e = turn(j, 1, nr);
                lemma_turn(j, 1, nr, e);
                assert(t[k1] == sr[e]);
            }
        } else if k <= i + nr {
            let d = k - i;
            let e = turn(j, d, nr);
            assert(t[k] == sr[e]);
            assert(g.linked(n, r, sr, e));
            if d < nr {
                assert(e != j);
                assert(sr[e] != sr[j]) by {
                    if e < j {
                        assert(sr[e] != sr[j]);
                    } else {
                        assert(sr[j] != sr[e]);
                    }
                }
                assert(sr[e] != sl[i]);
                let e1 = turn(j, d + 1, nr);
                lemma_turn(e, 1, nr, e1);
                assert(t[k1] == sr[e1]);
            } else {
                assert(e == j);
                if i + 1 < nl {
                    lemma_turn(i, 1, nl, i + 1);
                    assert(t[k1] == sl[i + 1]);
                } else {
                    lemma_turn(i, 1, nl, 0);
                    assert(t[k1] == sl[0]);
                }
            }
        } else {
            let e = k - nr;
            assert(g.linked(n, l, sl, e));
            assert(sl[i] != sl[e]);
            assert(sl[e] != sr[j]);
            if e + 1 < nl {
                lemma_turn(e, 1, nl, e + 1);
                assert(t[k1] == sl[e + 1]);
            } else {
                lemma_turn(e, 1, nl, 0);
                assert(t[k1] == sl[0]);
            }
        }
    }
    assert forall|x: int, y: int| 0 <= x < y < total implies #[trigger] t[x]
        != #[trigger] t[y] by {
        let (in_right_x, in_right_y) = (i < x <= i + nr, i < y <= i + nr);
        if in_right_x && in_right_y {
            let (e, f) = (turn(j, x - i, nr), turn(j, y - i, nr));
            assert(e != f);
            if e < f {
                assert(sr[e] != sr[f]);
            } else {
                assert(sr[f] != sr[e]);
            }
        } else if in_right_x {
            let e = turn(j, x - i, nr);
            assert(g.linked(n, r, sr, e));
            assert(g.linked(n, l, sl, y - nr));
        } else if in_right_y {
            let f = turn(j, y - i, nr);
            assert(g.linked(n, r, sr, f));
            assert(g.linked(n, l, sl, x));
        } else {
            let e = if x <= i {
                x
            } else {
                x - nr
            };
            let f = if y <= i {
                y
            } else {
                y - nr
            };
            assert(e < f);
            assert(sl[e] != sl[f]);
        }
    }
}

/// A copy connects exactly what it should: afterwards two cells are in the same
/// cycle if they were before, or if one was connected to the one side of the
/// copy and the other to the other.
pub proof fn law_copy_connects(
    before: Assembly,
    after: Assembly,
    a: (usize, usize),
    b: (usize, usize),
    x: (usize, usize),
    y: (usize, usize),
)
    requires
        before.has_cell(before.rows(), a),
        before.has_cell(before.rows(), b),
        before.has_cell(before.rows(), x),
        before.has_cell(before.rows(), y),
        after.merges(before, a, b),
    ensures
        after.connected(x, y) <==> before.connected(x, y) || (before.connected(x, a)
            && before.connected(y, b)) || (before.connected(x, b) && before.connected(y, a)),
{
}

/// The cycles are those of the mapping: two cells are in the same cycle exactly
/// if following the mapping from the one leads to the other.
pub proof fn law_cycles_follow_mapping(g: Assembly, x: (usize, usize), y: (usize, usize))
    requires
        g.wf(),
        g.has_cell(g.rows(), x),
        g.has_cell(g.rows(), y),
    ensures
        g.connected(x, y) <==> exists|k: nat| #[trigger] g.steps(x, k) == y,
{
    let n = g.rows();
    let cycles = choose|cycles: Map<(usize, usize), Seq<(usize, usize)>>| g.has_cycles(n, cycles);
    let r = g.representative(x);
    let s = cycles[r];
    assert(g.is_cycle(n, r, s) && s.contains(x));
    let i = choose|i: int| 0 <= i < s.len() && s[i] == x;
    if g.connected(x, y) {
        assert(s.contains(y));
        let j = choose|j: int| 0 <= j < s.len() && s[j] == y;
        let d = if j >= i {
            j - i
        } else {
            j - i + s.len()
        };
        lemma_steps(g, n, r, s, i, d as nat);
        if j >= i {
            vstd::arithmetic::div_mod::lemma_small_mod(j as nat, s.len());
        } else {
            vstd::arithmetic::div_mod::lemma_mod_add_multiples_vanish(j, s.len() as int);
            vstd::arithmetic::div_mod::lemma_small_mod(j as nat, s.len());
        }
        assert(g.steps(x, d as nat) == y);
    }
    if exists|k: nat| #[trigger] g.steps(x, k) == y {
        let k = choose|k: nat| #[trigger] g.steps(x, k) == y;
        lemma_steps(g, n, r, s, i, k);
        let at = (i + k) % (s.len() as int);
        vstd::arithmetic::div_mod::lemma_mod_bound(i + k, s.len() as int);
        assert(g.linked(n, r, s, at));
    }
}

proof fn lemma_steps(
    g: Assembly,
    n: nat,
    r: (usize, usize),
    s: Seq<(usize, usize)>,
    i: int,
    k: nat,
)
    requires
        g.is_cycle(n, r, s),
        0 <= i < s.len(),
    ensures
        g.steps(s[i], k) == s[(i + k) % (s.len() as int)],
    decreases k,
{
    let len = s.len() as int;
    if k == 0 {
        vstd::arithmetic::div_mod::lemma_small_mod(i as nat, s.len());
    } else {
        let m = (k - 1) as nat;
        lemma_steps(g, n, r, s, i, m);
        let at = (i + m) % len;
        vstd::arithmetic::div_mod::lemma_mod_bound(i + m, len);
        assert(g.linked(n, r, s, at));
        vstd::arithmetic::div_mod::lemma_add_mod_noop(i + m, 1, len);
        if len > 1 {
            vstd::arithmetic::div_mod::lemma_small_mod(1, s.len());
        }
        crate::field::lemma_mod_add_left(len, i + m, 1);
        assert((at + 1) % len == (i + k) % len);
    }
}

/// The mapping is one to one: no two cells come before the same cell.
pub proof fn law_mapping_is_permutation(g: Assembly, x: (usize, usize), y: (usize, usize))
    requires
        g.wf(),
        g.has_cell(g.rows(), x),
        g.has_cell(g.rows(), y),
        g.next(x) == g.next(y),
    ensures
        x == y,
        g.has_cell(g.rows(), g.next(x)),
{
    let n = g.rows();
    let cycles = choose|cycles: Map<(usize, usize), Seq<(usize, usize)>>| g.has_cycles(n, cycles);
    let (rx, ry) = (g.representative(x), g.representative(y));
    let (s, t) = (cycles[rx], cycles[ry]);
    assert(g.is_cycle(n, rx, s) && s.contains(x));
    assert(g.is_cycle(n, ry, t) && t.contains(y));
    let i = choose|i: int| 0 <= i < s.len() && s[i] == x;
    let j = choose|j: int| 0 <= j < t.len() && t[j] == y;
    let i1 = turn(i, 1, s.len() as int);
    let j1 = turn(j, 1, t.len() as int);
    lemma_turn(i, 1, s.len() as int, i1);
    lemma_turn(j, 1, t.len() as int, j1);
    assert(g.linked(n, rx, s, i) && g.linked(n, rx, s, i1));
    assert(g.linked(n, ry, t, j) && g.linked(n, ry, t, j1));
    if i1 < j1 {
        assert(s[i1] != s[j1]);
    } else if j1 < i1 {
        assert(s[j1] != s[i1]);
    }
}

/// The label of a cell: `delta^column omega^row`.
pub open spec fn label<F: Field>(omega: int, x: (usize, usize)) -> int {
    let p = F::modulus();
    fmul(p, fpow(p, omega, x.1 as nat), fpow(p, F::delta_val(), x.0 as nat))
}

/// Computes the permutation polynomials (Lagrange basis) from the copy mapping:
/// each cell holds the label of the cell after it in its cycle.
pub fn permutation_lagrange_polys<F: Field>(assembly: &Assembly, n: usize, omega: F) -> (r: Vec<
    Polynomial<F, LagrangeCoeff>,
>)
    requires
        assembly.wf(),
        assembly.columns@.len() > 0 ==> assembly.rows() == n,
    ensures
        r@.len() == assembly.columns@.len(),
        forall|i: int| 0 <= i < r@.len() ==> (#[trigger] r@[i])@.len() == n,
        forall|x: (usize, usize)| #[trigger]
            assembly.has_cell(n as nat, x) ==> r@[x.0 as int]@[x.1 as int].val() == label::<F>(
                omega.val(),
                assembly.next(x),
            ),
{
    let ghost p = F::modulus();
    let num_columns = assembly.columns.len();
    // [omega^0, omega^1, ..., omega^{n - 1}]
    let omega_powers = powers(omega, n);
    let delta_powers = powers(F::delta(), num_columns);
    let mut out: Vec<Polynomial<F, LagrangeCoeff>> = Vec::new();
    let mut i: usize = 0;
    while i < num_columns
        invariant
            i <= num_columns,
            num_columns == assembly.columns@.len(),
            p == F::modulus(),
            assembly.wf(),
            num_columns > 0 ==> assembly.rows() == n,
            omega_powers@.len() == n,
            delta_powers@.len() == num_columns,
            forall|k: int|
                0 <= k < n ==> (#[trigger] omega_powers@[k]).val() == fpow(
                    p,
                    omega.val(),
                    k as nat,
                ),
            forall|k: int|
                0 <= k < num_columns ==> (#[trigger] delta_powers@[k]).val() == fpow(
                    p,
                    F::delta_val(),
                    k as nat,
                ),
            out@.len() == i,
            forall|k: int| 0 <= k < i ==> (#[trigger] out@[k])@.len() == n,
            forall|x: (usize, usize)| #[trigger]
                assembly.has_cell(n as nat, x) && x.0 < i ==> out@[x.0 as int]@[x.1 as int].val()
                    == label::<F>(omega.val(), assembly.next(x)),
        decreases num_columns - i,
    {
        let mut column: Vec<F> = Vec::new();
        let mut j: usize = 0;
        while j < n
            invariant
                j <= n,
                i < num_columns,
                num_columns == assembly.columns@.len(),
                p == F::modulus(),
                assembly.wf(),
                assembly.rows() == n,
                omega_powers@.len() == n,
                delta_powers@.len() == num_columns,
                forall|k: int|
                    0 <= k < n ==> (#[trigger] omega_powers@[k]).val() == fpow(
                        p,
                        omega.val(),
                        k as nat,
                    ),
                forall|k: int|
                    0 <= k < num_columns ==> (#[trigger] delta_powers@[k]).val() == fpow(
                        p,
                        F::delta_val(),
                        k as nat,
                    ),
                column@.len() == j,
                forall|k: int|
                    0 <= k < j ==> (#[trigger] column@[k]).val() == label::<F>(
                        omega.val(),
                        assembly.next((i, k as usize)),
                    ),
            decreases n - j,
        {
            proof {
                assert(assembly.mapping@[i as int]@.len() == n);
                assert(assembly.has_cell(n as nat, (i, j)));
                law_mapping_is_permutation(*assembly, (i, j), (i, j));
            }
            let (permuted_i, permuted_j) = assembly.mapping[i][j];
            column.push(omega_powers[permuted_j].mul(&delta_powers[permuted_i]));
            j += 1;
        }
        let ghost before = out@;
        let ghost values = column@;
        out.push(Polynomial::new(column));
        proof {
            assert forall|x: (usize, usize)| #[trigger]
                assembly.has_cell(n as nat, x)
                    && x.0 < i + 1 implies out@[x.0 as int]@[x.1 as int].val()
                == label::<F>(omega.val(), assembly.next(x)) by {
                if x.0 < i {
                    assert(out@[x.0 as int] == before[x.0 as int]);
                } else {
                    assert(x == (i, x.1));
                    assert(values[x.1 as int].val() == label::<F>(
                        omega.val(),
                        assembly.next((i, x.1)),
                    ));
                }
            }
        }
        i += 1;
    }
    out
}

} // verus!
