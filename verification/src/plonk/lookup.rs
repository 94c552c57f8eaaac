//! Lookup arguments.

pub mod permute;
pub mod prover;

use crate::field::Field;
use crate::plonk::expression::GpuExpression;
use vstd::prelude::*;

verus! {

/// A lookup argument: the inputs that must be found in the table, expression by
/// expression.
#[derive(Debug)]
pub struct Argument<F: Field> {
    pub name: String,
    pub input_expressions: Vec<GpuExpression<F>>,
    pub table_expressions: Vec<GpuExpression<F>>,
}

/// The largest degree among expressions, and one where none is larger.
pub open spec fn max_degree<F: Field>(s: Seq<GpuExpression<F>>) -> nat
    decreases s.len(),
{
    if s.len() == 0 {
        1
    } else if s.last().spec_degree() > max_degree(s.drop_last()) {
        s.last().spec_degree()
    } else {
        max_degree(s.drop_last())
    }
}

pub proof fn lemma_max_degree_bounds<F: Field>(s: Seq<GpuExpression<F>>, i: int)
    requires
        0 <= i < s.len(),
    ensures
        s[i].spec_degree() <= max_degree(s),
        max_degree(s.take(i)) <= max_degree(s),
    decreases s.len(),
{
    if i < s.len() - 1 {
        lemma_max_degree_bounds(s.drop_last(), i);
        assert(s.drop_last().take(i) =~= s.take(i));
    } else {
        assert(s.take(i) =~= s.drop_last());
    }
}

fn exec_max_degree<F: Field>(s: &Vec<GpuExpression<F>>) -> (r: usize)
    requires
        max_degree(s@) <= usize::MAX,
    ensures
        r == max_degree(s@),
{
    let mut degree: usize = 1;
    let mut i: usize = 0;
    while i < s.len()
        invariant
            i <= s@.len(),
            max_degree(s@) <= usize::MAX,
            degree == max_degree(s@.take(i as int)),
        decreases s@.len() - i,
    {
        proof {
            lemma_max_degree_bounds(s@, i as int);
            assert(s@.take(i + 1).drop_last() =~= s@.take(i as int));
        }
        let d: usize = s[i].degree();
        if d > degree {
            degree = d;
        }
        i += 1;
    }
    assert(s@.take(i as int) =~= s@);
    degree
}

impl<F: Field> Argument<F> {
    /// Constructs a new lookup argument.
    ///
    /// `table_map` is a sequence of `(input, table)` tuples.
    pub fn new(name: String, table_map: Vec<(GpuExpression<F>, GpuExpression<F>)>) -> (r: Self)
        ensures
            r.name == name,
            r.input_expressions@ == Seq::new(table_map@.len(), |i: int| table_map@[i].0),
            r.table_expressions@ == Seq::new(table_map@.len(), |i: int| table_map@[i].1),
    {
        let mut input_expressions: Vec<GpuExpression<F>> = Vec::new();
        let mut table_expressions: Vec<GpuExpression<F>> = Vec::new();
        let mut i: usize = 0;
        while i < table_map.len()
            invariant
                i <= table_map@.len(),
                input_expressions@ =~= Seq::new(i as nat, |j: int| table_map@[j].0),
                table_expressions@ =~= Seq::new(i as nat, |j: int| table_map@[j].1),
            decreases table_map@.len() - i,
        {
            input_expressions.push(table_map[i].0.clone());
            table_expressions.push(table_map[i].1.clone());
            i += 1;
        }
        Argument { name, input_expressions, table_expressions }
    }

    /// Degree that the argument's constraints need.
    pub open spec fn spec_required_degree(self) -> nat {
        2 + max_degree(self.input_expressions@) + max_degree(self.table_expressions@)
    }

    /// The degree that the constraints of the lookup need: the grand product
    /// multiplies a compressed input and a compressed table entry by the
    /// product polynomial and the polynomial of active rows.
    pub fn required_degree(&self) -> (r: usize)
        requires
            self.input_expressions@.len() == self.table_expressions@.len(),
            self.spec_required_degree() <= usize::MAX,
        ensures
            r == self.spec_required_degree(),
            r >= 4,
    {
        let input_degree: usize = exec_max_degree(&self.input_expressions);
        let table_degree: usize = exec_max_degree(&self.table_expressions);
        proof {
            lemma_max_degree_positive(self.input_expressions@);
            lemma_max_degree_positive(self.table_expressions@);
        }
        2 + input_degree + table_degree
    }

    /// Returns input of this argument
    pub fn input_expressions(&self) -> (r: &Vec<GpuExpression<F>>)
        ensures
            *r == self.input_expressions,
    {
        &self.input_expressions
    }

    /// Returns table of this argument
    pub fn table_expressions(&self) -> (r: &Vec<GpuExpression<F>>)
        ensures
            *r == self.table_expressions,
    {
        &self.table_expressions
    }

    /// Returns name of this argument
    pub fn name(&self) -> (r: &str)
        ensures
            r@ == self.name@,
    {
        self.name.as_str()
    }
}

proof fn lemma_max_degree_positive<F: Field>(s: Seq<GpuExpression<F>>)
    ensures
        max_degree(s) >= 1,
    decreases s.len(),
{
    if s.len() > 0 {
        lemma_max_degree_positive(s.drop_last());
    }
}

} // verus!
