//! Calculation graphs: expressions broken down into single calculations whose
//! results are shared.

use crate::field::{fneg, vals, Field};
use crate::plonk::circuit::order_of;
use crate::plonk::expression::GpuExpression;
use crate::poly::Rotation;
use std::cmp::Ordering;
use vstd::prelude::*;

verus! {

/// Value used in a calculation
#[derive(Clone, Copy, Debug, PartialEq, Eq, Structural)]
pub enum ValueSource {
    /// This is a constant value
    Constant(usize),
    /// This is an intermediate value
    Intermediate(usize),
    /// This is a fixed column
    Fixed(usize, usize),
    /// This is an advice (witness) column
    Advice(usize, usize),
    /// This is an instance (external) column
    Instance(usize, usize),
    /// This is a challenge
    Challenge(usize),
    /// beta
    Beta(),
    /// gamma
    Gamma(),
    /// theta
    Theta(),
    /// y
    Y(),
    /// Previous value
    PreviousValue(),
}

impl Default for ValueSource {
    fn default() -> (r: ValueSource)
        ensures
            r == ValueSource::Constant(0),
    {
        ValueSource::Constant(0)
    }
}

impl ValueSource {
    /// What sources are ordered by: their kind, then their indices.
    pub open spec fn key(self) -> (int, int, int) {
        match self {
            ValueSource::Constant(i) => (0, i as int, 0),
            ValueSource::Intermediate(i) => (1, i as int, 0),
            ValueSource::Fixed(i, j) => (2, i as int, j as int),
            ValueSource::Advice(i, j) => (3, i as int, j as int),
            ValueSource::Instance(i, j) => (4, i as int, j as int),
            ValueSource::Challenge(i) => (5, i as int, 0),
            ValueSource::Beta() => (6, 0, 0),
            ValueSource::Gamma() => (7, 0, 0),
            ValueSource::Theta() => (8, 0, 0),
            ValueSource::Y() => (9, 0, 0),
            ValueSource::PreviousValue() => (10, 0, 0),
        }
    }

    fn sort_key(&self) -> (r: (u8, usize, usize))
        ensures
            r.0 == self.key().0,
            r.1 == self.key().1,
            r.2 == self.key().2,
    {
        match self {
            ValueSource::Constant(i) => (0, *i, 0),
            ValueSource::Intermediate(i) => (1, *i, 0),
            ValueSource::Fixed(i, j) => (2, *i, *j),
            ValueSource::Advice(i, j) => (3, *i, *j),
            ValueSource::Instance(i, j) => (4, *i, *j),
            ValueSource::Challenge(i) => (5, *i, 0),
            ValueSource::Beta() => (6, 0, 0),
            ValueSource::Gamma() => (7, 0, 0),
            ValueSource::Theta() => (8, 0, 0),
            ValueSource::Y() => (9, 0, 0),
            ValueSource::PreviousValue() => (10, 0, 0),
        }
    }

    /// Whether the source comes no later than another in the order of sources.
    pub open spec fn at_most(self, other: ValueSource) -> bool {
        let (a, b) = (self.key(), other.key());
        a.0 < b.0 || (a.0 == b.0 && (a.1 < b.1 || (a.1 == b.1 && a.2 <= b.2)))
    }
}

impl PartialOrd for ValueSource {
    fn partial_cmp(&self, other: &Self) -> (r: Option<Ordering>) {
        let (a0, a1, a2) = self.sort_key();
        let (b0, b1, b2) = other.sort_key();
        let order = if a0 < b0 || (a0 == b0 && (a1 < b1 || (a1 == b1 && a2 < b2))) {
            Ordering::Less
        } else if a0 == b0 && a1 == b1 && a2 == b2 {
            Ordering::Equal
        } else {
            Ordering::Greater
        };
        Some(order)
    }
}

impl vstd::std_specs::cmp::PartialOrdSpecImpl for ValueSource {
    open spec fn obeys_partial_cmp_spec() -> bool {
        true
    }

    open spec fn partial_cmp_spec(&self, other: &Self) -> Option<Ordering> {
        let (a, b) = (self.key(), other.key());
        Some(
            if a.0 != b.0 {
                order_of(a.0, b.0)
            } else if a.1 != b.1 {
                order_of(a.1, b.1)
            } else {
                order_of(a.2, b.2)
            },
        )
    }
}

/// Calculation
#[derive(Clone, Debug)]
pub enum Calculation {
    /// This is an addition
    Add(ValueSource, ValueSource),
    /// This is a subtraction
    Sub(ValueSource, ValueSource),
    /// This is a product
    Mul(ValueSource, ValueSource),
    /// This is a square
    Square(ValueSource),
    /// This is a double
    Double(ValueSource),
    /// This is a negation
    Negate(ValueSource),
    /// This is Horner's rule: `val = a; val = val * c + b[]`
    Horner(ValueSource, Vec<ValueSource>, ValueSource),
    /// This is a simple assignment
    Store(ValueSource),
}

/// What a [`Calculation`] computes.
pub enum CalculationModel {
    Add(ValueSource, ValueSource),
    Sub(ValueSource, ValueSource),
    Mul(ValueSource, ValueSource),
    Square(ValueSource),
    Double(ValueSource),
    Negate(ValueSource),
    Horner(ValueSource, Seq<ValueSource>, ValueSource),
    Store(ValueSource),
}

impl View for Calculation {
    type V = CalculationModel;

    open spec fn view(&self) -> CalculationModel {
        match self {
            Calculation::Add(a, b) => CalculationModel::Add(*a, *b),
            Calculation::Sub(a, b) => CalculationModel::Sub(*a, *b),
            Calculation::Mul(a, b) => CalculationModel::Mul(*a, *b),
            Calculation::Square(a) => CalculationModel::Square(*a),
            Calculation::Double(a) => CalculationModel::Double(*a),
            Calculation::Negate(a) => CalculationModel::Negate(*a),
            Calculation::Horner(start, parts, factor) => CalculationModel::Horner(
                *start,
                parts@,
                *factor,
            ),
            Calculation::Store(a) => CalculationModel::Store(*a),
        }
    }
}

fn same_sources(a: &Vec<ValueSource>, b: &Vec<ValueSource>) -> (r: bool)
    ensures
        r == (a@ == b@),
{
    if a.len() != b.len() {
        return false;
    }
    let mut i: usize = 0;
    while i < a.len()
        invariant
            i <= a@.len(),
            a@.len() == b@.len(),
            forall|j: int| 0 <= j < i ==> a@[j] == b@[j],
        decreases a@.len() - i,
    {
        if a[i] != b[i] {
            return false;
        }
        i += 1;
    }
    assert(a@ =~= b@);
    true
}

impl PartialEq for Calculation {
    fn eq(&self, other: &Self) -> (r: bool) {
        match (self, other) {
            (Calculation::Add(a, b), Calculation::Add(c, d)) => *a == *c && *b == *d,
            (Calculation::Sub(a, b), Calculation::Sub(c, d)) => *a == *c && *b == *d,
            (Calculation::Mul(a, b), Calculation::Mul(c, d)) => *a == *c && *b == *d,
            (Calculation::Square(a), Calculation::Square(c)) => *a == *c,
            (Calculation::Double(a), Calculation::Double(c)) => *a == *c,
            (Calculation::Negate(a), Calculation::Negate(c)) => *a == *c,
            (Calculation::Horner(a, parts, b), Calculation::Horner(c, other_parts, d)) => *a == *c
                && *b == *d && same_sources(parts, other_parts),
            (Calculation::Store(a), Calculation::Store(c)) => *a == *c,
            _ => false,
        }
    }
}

impl vstd::std_specs::cmp::PartialEqSpecImpl for Calculation {
    open spec fn obeys_eq_spec() -> bool {
        true
    }

    open spec fn eq_spec(&self, other: &Self) -> bool {
        self@ == other@
    }
}

impl Eq for Calculation {

}

/// CaluclationInfo
#[derive(Clone, Debug)]
pub struct CalculationInfo {
    /// Calculation
    pub calculation: Calculation,
    /// Target
    pub target: usize,
}

/// GraphEvaluator
#[derive(Clone, Debug)]
pub struct GraphEvaluator<F: Field> {
    /// Constants
    pub constants: Vec<F>,
    /// Rotations
    pub rotations: Vec<i32>,
    /// Calculations
    pub calculations: Vec<CalculationInfo>,
    /// Number of intermediates
    pub num_intermediates: usize,
}

/// What a graph holds: its constants, its rotations and its calculations, each
/// of which computes the intermediate value of its own position.
pub struct GraphModel {
    pub constants: Seq<int>,
    pub rotations: Seq<i32>,
    pub calculations: Seq<CalculationModel>,
}

/// The calculations among pairs of calculation and target.
pub open spec fn calculations_of(s: Seq<CalculationInfo>) -> Seq<CalculationModel> {
    s.map_values(|c: CalculationInfo| c.calculation@)
}

impl<F: Field> View for GraphEvaluator<F> {
    type V = GraphModel;

    open spec fn view(&self) -> GraphModel {
        GraphModel {
            constants: vals(self.constants@),
            rotations: self.rotations@,
            calculations: calculations_of(self.calculations@),
        }
    }
}

/// The first position of `x` in the sequence, or the length where there is none.
pub open spec fn find<T>(s: Seq<T>, x: T) -> nat
    decreases s.len(),
{
    if s.len() == 0 {
        0
    } else if s[0] == x {
        0
    } else {
        1 + find(s.drop_first(), x)
    }
}

/// The sequence with `x` at its end unless it is there already.
pub open spec fn with_found<T>(s: Seq<T>, x: T) -> Seq<T> {
    if find(s, x) < s.len() {
        s
    } else {
        s.push(x)
    }
}

/// What [`find`] finds: a position that holds `x` and none before it does.
pub proof fn lemma_find<T>(s: Seq<T>, x: T)
    ensures
        find(s, x) <= s.len(),
        find(s, x) < s.len() ==> s[find(s, x) as int] == x,
        forall|i: int| 0 <= i < find(s, x) ==> s[i] != x,
    decreases s.len(),
{
    if s.len() > 0 && s[0] != x {
        lemma_find(s.drop_first(), x);
        assert forall|i: int| 0 <= i < find(s, x) implies s[i] != x by {
            if i > 0 {
                assert(s[i] == s.drop_first()[i - 1]);
            }
        }
        if find(s, x) < s.len() {
            assert(s.drop_first()[find(s.drop_first(), x) as int] == s[find(s, x) as int]);
        }
    }
}

/// A position that holds `x`, with none before it that does, is what is found.
pub proof fn lemma_find_is<T>(s: Seq<T>, x: T, i: int)
    requires
        0 <= i <= s.len(),
        i < s.len() ==> s[i] == x,
        forall|j: int| 0 <= j < i ==> s[j] != x,
    ensures
        find(s, x) == i,
{
    lemma_find(s, x);
}

impl GraphModel {
    /// The graph with a rotation among its rotations.
    pub open spec fn with_rotation(self, rotation: Rotation) -> GraphModel {
        GraphModel { rotations: with_found(self.rotations, rotation.0), ..self }
    }

    /// The graph with a constant among its constants.
    pub open spec fn with_constant(self, constant: int) -> GraphModel {
        GraphModel { constants: with_found(self.constants, constant), ..self }
    }

    /// The source of a constant.
    pub open spec fn constant(self, constant: int) -> ValueSource {
        ValueSource::Constant(find(self.constants, constant) as usize)
    }

    /// The graph with a calculation among its calculations.
    pub open spec fn with_calculation(self, calculation: CalculationModel) -> GraphModel {
        GraphModel { calculations: with_found(self.calculations, calculation), ..self }
    }

    /// The source of a calculation's result.
    pub open spec fn intermediate(self, calculation: CalculationModel) -> ValueSource {
        ValueSource::Intermediate(find(self.calculations, calculation) as usize)
    }

    /// The graph and the source after a calculation was added.
    pub open spec fn calculated(self, calculation: CalculationModel) -> (GraphModel, ValueSource) {
        (self.with_calculation(calculation), self.intermediate(calculation))
    }
}

/// The constants that every graph starts with stand at fixed positions.
pub open spec fn zero_source() -> ValueSource {
    ValueSource::Constant(0)
}

pub open spec fn one_source() -> ValueSource {
    ValueSource::Constant(1)
}

pub open spec fn two_source() -> ValueSource {
    ValueSource::Constant(2)
}

/// The two sources in their order.
pub open spec fn ordered(a: ValueSource, b: ValueSource) -> (ValueSource, ValueSource) {
    if a.at_most(b) {
        (a, b)
    } else {
        (b, a)
    }
}

impl GraphModel {
    /// The graph with the difference `a - b`.
    pub open spec fn with_difference(self, a: ValueSource, b: ValueSource) -> (
        GraphModel,
        ValueSource,
    ) {
        if a == zero_source() {
            self.calculated(CalculationModel::Negate(b))
        } else if b == zero_source() {
            (self, a)
        } else {
            self.calculated(CalculationModel::Sub(a, b))
        }
    }

    /// The graph with the sum of `a` and `b`.
    pub open spec fn with_sum(self, a: ValueSource, b: ValueSource) -> (GraphModel, ValueSource) {
        if a == zero_source() {
            (self, b)
        } else if b == zero_source() {
            (self, a)
        } else {
            let (x, y) = ordered(a, b);
            self.calculated(CalculationModel::Add(x, y))
        }
    }

    /// The graph with the product of `a` and `b`.
    pub open spec fn with_product(self, a: ValueSource, b: ValueSource) -> (
        GraphModel,
        ValueSource,
    ) {
        if a == zero_source() || b == zero_source() {
            (self, zero_source())
        } else if a == one_source() {
            (self, b)
        } else if b == one_source() {
            (self, a)
        } else if a == two_source() {
            self.calculated(CalculationModel::Double(b))
        } else if b == two_source() {
            self.calculated(CalculationModel::Double(a))
        } else if a == b {
            self.calculated(CalculationModel::Square(a))
        } else {
            let (x, y) = ordered(a, b);
            self.calculated(CalculationModel::Mul(x, y))
        }
    }

    /// The graph with a cell of a column: `cell` makes the source out of the
    /// position of the rotation.
    pub open spec fn with_cell(
        self,
        rotation: Rotation,
        cell: spec_fn(usize) -> ValueSource,
    ) -> (GraphModel, ValueSource) {
        self.with_rotation(rotation).calculated(
            CalculationModel::Store(cell(find(self.rotations, rotation.0) as usize)),
        )
    }

    /// The graph that computes an expression besides what it computes already,
    /// and the source of the expression's value.
    pub open spec fn with_expression<F: Field>(self, e: GpuExpression<F>) -> (
        GraphModel,
        ValueSource,
    )
        decreases e,
    {
        let p = F::modulus();
        match e {
            GpuExpression::Constant(scalar) => (
                self.with_constant(scalar.val()),
                self.constant(scalar.val()),
            ),
            GpuExpression::Selector(_) => (self, zero_source()),
            GpuExpression::Fixed(query) => self.with_cell(
                query.rotation,
                |at: usize| ValueSource::Fixed(query.column_index, at),
            ),
            GpuExpression::Advice(query) => self.with_cell(
                query.rotation,
                |at: usize| ValueSource::Advice(query.column_index, at),
            ),
            GpuExpression::Instance(query) => self.with_cell(
                query.rotation,
                |at: usize| ValueSource::Instance(query.column_index, at),
            ),
            GpuExpression::Challenge(challenge) => self.calculated(
                CalculationModel::Store(ValueSource::Challenge(challenge.index)),
            ),
            GpuExpression::Negated(a) => match *a {
                GpuExpression::Constant(scalar) => (
                    self.with_constant(fneg(p, scalar.val())),
                    self.constant(fneg(p, scalar.val())),
                ),
                _ => {
                    let (g, x) = self.with_expression(*a);
                    if x == zero_source() {
                        (g, x)
                    } else {
                        g.calculated(CalculationModel::Negate(x))
                    }
                },
            },
            GpuExpression::Sum(a, b) => match *b {
                GpuExpression::Negated(b) => {
                    let (g, x) = self.with_expression(*a);
                    let (g, y) = g.with_expression(*b);
                    g.with_difference(x, y)
                },
                _ => {
                    let (g, x) = self.with_expression(*a);
                    let (g, y) = g.with_expression(*b);
                    g.with_sum(x, y)
                },
            },
            GpuExpression::Product(a, b) => {
                let (g, x) = self.with_expression(*a);
                let (g, y) = g.with_expression(*b);
                g.with_product(x, y)
            },
            GpuExpression::Scaled(a, f) => {
                if f.val() == 0 {
                    (self, zero_source())
                } else if f.val() == 1 {
                    self.with_expression(*a)
                } else {
                    let (g, x) = self.with_constant(f.val()).with_expression(*a);
                    g.calculated(CalculationModel::Mul(x, self.constant(f.val())))
                }
            },
        }
    }

    /// The graph that computes all the expressions, and their sources.
    pub open spec fn with_expressions<F: Field>(self, s: Seq<GpuExpression<F>>) -> (
        GraphModel,
        Seq<ValueSource>,
    )
        decreases s.len(),
    {
        if s.len() == 0 {
            (self, seq![])
        } else {
            let (g, sources) = self.with_expressions(s.drop_last());
            let (g, x) = g.with_expression(s.last());
            (g, sources.push(x))
        }
    }
}

/// Whether the expression refers to no selector.
pub open spec fn selector_free<F>(e: GpuExpression<F>) -> bool
    decreases e,
{
    match e {
        GpuExpression::Selector(_) => false,
        GpuExpression::Negated(a) => selector_free(*a),
        GpuExpression::Sum(a, b) => selector_free(*a) && selector_free(*b),
        GpuExpression::Product(a, b) => selector_free(*a) && selector_free(*b),
        GpuExpression::Scaled(a, _) => selector_free(*a),
        _ => true,
    }
}

/// Whether no expression of the list refers to a selector.
pub open spec fn all_selector_free<F>(s: Seq<GpuExpression<F>>) -> bool {
    forall|i: int| 0 <= i < s.len() ==> selector_free(#[trigger] s[i])
}

/// The graph that computes nothing yet.
pub open spec fn empty_graph() -> GraphModel {
    GraphModel { constants: seq![0int, 1, 2], rotations: seq![], calculations: seq![] }
}

impl<F: Field> Default for GraphEvaluator<F> {
    fn default() -> (r: GraphEvaluator<F>)
        ensures
            r.wf(),
            r@ == empty_graph(),
    {
        proof {
            F::lemma_modulus();
            vstd::arithmetic::div_mod::lemma_small_mod(2, F::modulus() as nat);
        }
        // Fixed positions to allow easy access
        let mut constants: Vec<F> = Vec::new();
        constants.push(F::zero());
        constants.push(F::one());
        constants.push(F::from_u64(2));
        assert(vals(constants@) =~= seq![0int, 1, 2]);
        let r = GraphEvaluator {
            constants,
            rotations: Vec::new(),
            calculations: Vec::new(),
            num_intermediates: 0,
        };
        assert(r@.calculations =~= seq![]);
        r
    }
}

impl<F: Field> GraphEvaluator<F> {
    /// Each calculation computes the intermediate of its own position.
    pub open spec fn wf(self) -> bool {
        &&& self.num_intermediates == self.calculations@.len()
        &&& forall|i: int|
            0 <= i < self.calculations@.len() ==> (#[trigger] self.calculations@[i]).target == i
    }

    /// Adds a rotation
    pub fn add_rotation(&mut self, rotation: &Rotation) -> (r: usize)
        ensures
            r == find(old(self)@.rotations, rotation.0),
            final(self)@ == old(self)@.with_rotation(*rotation),
            old(self).wf() ==> final(self).wf(),
    {
        let mut i: usize = 0;
        while i < self.rotations.len()
            invariant
                i <= self.rotations@.len(),
                *self == *old(self),
                forall|j: int| 0 <= j < i ==> self.rotations@[j] != rotation.0,
            decreases self.rotations@.len() - i,
        {
            if self.rotations[i] == rotation.0 {
                proof {
                    lemma_find_is(self.rotations@, rotation.0, i as int);
                }
                return i;
            }
            i += 1;
        }
        proof {
            lemma_find_is(self.rotations@, rotation.0, i as int);
        }
        self.rotations.push(rotation.0);
        self.rotations.len() - 1
    }

    /// Adds a constant
    pub fn add_constant(&mut self, constant: &F) -> (r: ValueSource)
        ensures
            r == old(self)@.constant(constant.val()),
            final(self)@ == old(self)@.with_constant(constant.val()),
            old(self).wf() ==> final(self).wf(),
    {
        let mut i: usize = 0;
        while i < self.constants.len()
            invariant
                i <= self.constants@.len(),
                *self == *old(self),
                forall|j: int| 0 <= j < i ==> self@.constants[j] != constant.val(),
            decreases self.constants@.len() - i,
        {
            if self.constants[i].equals(constant) {
                proof {
                    lemma_find_is(self@.constants, constant.val(), i as int);
                }
                return ValueSource::Constant(i);
            }
            i += 1;
        }
        proof {
            lemma_find_is(self@.constants, constant.val(), i as int);
        }
        self.constants.push(*constant);
        assert(self@.constants =~= old(self)@.constants.push(constant.val()));
        ValueSource::Constant(self.constants.len() - 1)
    }

    /// Adds a calculation.
    /// Currently does the simplest thing possible: just stores the
    /// resulting value so the result can be reused  when that calculation
    /// is done multiple times.
    pub fn add_calculation(&mut self, calculation: Calculation) -> (r: ValueSource)
        requires
            old(self).wf(),
        ensures
            final(self).wf(),
            (final(self)@, r) == old(self)@.calculated(calculation@),
    {
        let mut i: usize = 0;
        while i < self.calculations.len()
            invariant
                i <= self.calculations@.len(),
                *self == *old(self),
                self.wf(),
                forall|j: int| 0 <= j < i ==> self@.calculations[j] != calculation@,
            decreases self.calculations@.len() - i,
        {
            if self.calculations[i].calculation == calculation {
                proof {
                    lemma_find_is(self@.calculations, calculation@, i as int);
                }
                return ValueSource::Intermediate(self.calculations[i].target);
            }
            i += 1;
        }
        proof {
            lemma_find_is(self@.calculations, calculation@, i as int);
        }
        let target = self.num_intermediates;
        let ghost added = calculation@;
        self.calculations.push(CalculationInfo { calculation, target });
        assert(self.calculations.len() == self.calculations@.len());
        self.num_intermediates += 1;
        assert(self@.calculations =~= old(self)@.calculations.push(added));
        ValueSource::Intermediate(target)
    }

    fn add_difference(&mut self, a: ValueSource, b: ValueSource) -> (r: ValueSource)
        requires
            old(self).wf(),
        ensures
            final(self).wf(),
            (final(self)@, r) == old(self)@.with_difference(a, b),
    {
        if a == ValueSource::Constant(0) {
            self.add_calculation(Calculation::Negate(b))
        } else if b == ValueSource::Constant(0) {
            a
        } else {
            self.add_calculation(Calculation::Sub(a, b))
        }
    }

    fn add_sum(&mut self, a: ValueSource, b: ValueSource) -> (r: ValueSource)
        requires
            old(self).wf(),
        ensures
            final(self).wf(),
            (final(self)@, r) == old(self)@.with_sum(a, b),
    {
        if a == ValueSource::Constant(0) {
            b
        } else if b == ValueSource::Constant(0) {
            a
        } else if a <= b {
            self.add_calculation(Calculation::Add(a, b))
        } else {
            self.add_calculation(Calculation::Add(b, a))
        }
    }

    fn add_product(&mut self, a: ValueSource, b: ValueSource) -> (r: ValueSource)
        requires
            old(self).wf(),
        ensures
            final(self).wf(),
            (final(self)@, r) == old(self)@.with_product(a, b),
    {
        if a == ValueSource::Constant(0) || b == ValueSource::Constant(0) {
            ValueSource::Constant(0)
        } else if a == ValueSource::Constant(1) {
            b
        } else if b == ValueSource::Constant(1) {
            a
        } else if a == ValueSource::Constant(2) {
            self.add_calculation(Calculation::Double(b))
        } else if b == ValueSource::Constant(2) {
            self.add_calculation(Calculation::Double(a))
        } else if a == b {
            self.add_calculation(Calculation::Square(a))
        } else if a <= b {
            self.add_calculation(Calculation::Mul(a, b))
        } else {
            self.add_calculation(Calculation::Mul(b, a))
        }
    }

    /// Generates an optimized evaluation for the expression
    pub fn add_expression(&mut self, expr: &GpuExpression<F>) -> (r: ValueSource)
        requires
            old(self).wf(),
            selector_free(*expr),
        ensures
            final(self).wf(),
            (final(self)@, r) == old(self)@.with_expression(*expr),
        decreases *expr,
    {
        match expr {
            GpuExpression::Constant(scalar) => self.add_constant(scalar),
            GpuExpression::Selector(_) => ValueSource::Constant(0),
            GpuExpression::Fixed(query) => {
                let at = self.add_rotation(&query.rotation);
                self.add_calculation(Calculation::Store(ValueSource::Fixed(query.column_index, at)))
            },
            GpuExpression::Advice(query) => {
                let at = self.add_rotation(&query.rotation);
                self.add_calculation(
                    Calculation::Store(ValueSource::Advice(query.column_index, at)),
                )
            },
            GpuExpression::Instance(query) => {
                let at = self.add_rotation(&query.rotation);
                self.add_calculation(
                    Calculation::Store(ValueSource::Instance(query.column_index, at)),
                )
            },
            GpuExpression::Challenge(challenge) => self.add_calculation(
                Calculation::Store(ValueSource::Challenge(challenge.index())),
            ),
            GpuExpression::Negated(a) => match &**a {
                GpuExpression::Constant(scalar) => self.add_constant(&scalar.neg()),
                _ => {
                    let x = self.add_expression(a);
                    if x == ValueSource::Constant(0) {
                        x
                    } else {
                        self.add_calculation(Calculation::Negate(x))
                    }
                },
            },
            GpuExpression::Sum(a, b) => match &**b {
                // Undo subtraction stored as a + (-b) in expressions
                GpuExpression::Negated(b_int) => {
                    let x = self.add_expression(a);
                    assert(selector_free(**b) == selector_free(**b_int));
                    let y = self.add_expression(b_int);
                    self.add_difference(x, y)
                },
                _ => {
                    let x = self.add_expression(a);
                    let y = self.add_expression(b);
                    self.add_sum(x, y)
                },
            },
            GpuExpression::Product(a, b) => {
                let x = self.add_expression(a);
                let y = self.add_expression(b);
                self.add_product(x, y)
            },
            GpuExpression::Scaled(a, f) => {
                if f.equals(&F::zero()) {
                    ValueSource::Constant(0)
                } else if f.equals(&F::one()) {
                    self.add_expression(a)
                } else {
                    let constant = self.add_constant(f);
                    let x = self.add_expression(a);
                    self.add_calculation(Calculation::Mul(x, constant))
                }
            },
        }
    }

    /// Adds the expressions one after another and gives their sources.
    pub fn add_expressions(&mut self, exprs: &Vec<GpuExpression<F>>) -> (r: Vec<ValueSource>)
        requires
            old(self).wf(),
            all_selector_free(exprs@),
        ensures
            final(self).wf(),
            (final(self)@, r@) == old(self)@.with_expressions(exprs@),
    {
        let mut parts: Vec<ValueSource> = Vec::new();
        let mut i: usize = 0;
        assert(exprs@.take(0) =~= seq![]);
        while i < exprs.len()
            invariant
                i <= exprs@.len(),
                self.wf(),
                all_selector_free(exprs@),
                (self@, parts@) == old(self)@.with_expressions(exprs@.take(i as int)),
            decreases exprs@.len() - i,
        {
            assert(exprs@.take(i + 1).drop_last() =~= exprs@.take(i as int));
            let x = self.add_expression(&exprs[i]);
            parts.push(x);
            i += 1;
        }
        assert(exprs@.take(i as int) =~= exprs@);
        parts
    }
}

} // verus!
