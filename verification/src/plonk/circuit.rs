//! Columns, phases, selectors, queries and challenges.

use crate::field::Field;
use crate::plonk::expression::{cell_expression, GpuExpression};
use crate::poly::Rotation;
use std::cmp::Ordering;
use vstd::prelude::*;
use vstd::std_specs::convert::FromSpecImpl;

verus! {

/// Phase of advice column
#[derive(Clone, Copy, Debug, PartialEq, Eq, Structural, PartialOrd, Ord, Hash)]
pub struct Phase(pub u8);

impl Phase {
    /// The phase before this one, which the first has not.
    pub fn prev(&self) -> (r: Option<Phase>)
        ensures
            r == (if self.0 == 0 {
                None
            } else {
                Some(Phase((self.0 - 1) as u8))
            }),
    {
        match self.0.checked_sub(1) {
            Some(p) => Some(Phase(p)),
            None => None,
        }
    }

    /// The phase after this one; there are three.
    pub fn next(&self) -> (r: Phase)
        requires
            self.0 < 2,
        ensures
            r.0 == self.0 + 1,
    {
        Phase(self.0 + 1)
    }

    pub fn to_u8(&self) -> (r: u8)
        ensures
            r == self.0,
    {
        self.0
    }
}

/// What can be turned into a [`Phase`].
pub trait SealedPhase: Sized {
    spec fn sealed(self) -> Phase;

    fn to_sealed(self) -> (r: Phase)
        ensures
            r == self.sealed(),
    ;
}

impl SealedPhase for Phase {
    open spec fn sealed(self) -> Phase {
        self
    }

    fn to_sealed(self) -> (r: Phase) {
        self
    }
}

/// Phase of advice column
pub trait GpuPhase: SealedPhase {

}

impl<P: SealedPhase> GpuPhase for P {

}

/// First phase
#[derive(Debug)]
pub struct GpuFirstPhase;

impl SealedPhase for GpuFirstPhase {
    open spec fn sealed(self) -> Phase {
        Phase(0)
    }

    fn to_sealed(self) -> (r: Phase) {
        Phase(0)
    }
}

/// Second phase
#[derive(Debug)]
pub struct GpuSecondPhase;

impl SealedPhase for GpuSecondPhase {
    open spec fn sealed(self) -> Phase {
        Phase(1)
    }

    fn to_sealed(self) -> (r: Phase) {
        Phase(1)
    }
}

/// Third phase
#[derive(Debug)]
pub struct GpuThirdPhase;

impl SealedPhase for GpuThirdPhase {
    open spec fn sealed(self) -> Phase {
        Phase(2)
    }

    fn to_sealed(self) -> (r: Phase) {
        Phase(2)
    }
}

/// An advice column
#[derive(Clone, Copy, Debug, PartialEq, Eq, Structural, PartialOrd, Ord, Hash)]
pub struct GpuAdvice {
    pub phase: Phase,
}

impl Default for GpuAdvice {
    fn default() -> (r: GpuAdvice)
        ensures
            r.phase == Phase(0),
    {
        GpuAdvice { phase: GpuFirstPhase.to_sealed() }
    }
}

impl GpuAdvice {
    /// Returns `GpuAdvice` in given `Phase`
    pub fn new<P: GpuPhase>(phase: P) -> (r: GpuAdvice)
        ensures
            r.phase == phase.sealed(),
    {
        GpuAdvice { phase: phase.to_sealed() }
    }

    /// Phase of this column
    pub fn phase(&self) -> (r: u8)
        ensures
            r == self.phase.0,
    {
        self.phase.0
    }
}

/// A fixed column
#[derive(Clone, Copy, Debug, PartialEq, Eq, Structural, PartialOrd, Ord, Hash)]
pub struct GpuFixed;

/// An instance column
#[derive(Clone, Copy, Debug, PartialEq, Eq, Structural, PartialOrd, Ord, Hash)]
pub struct GpuInstance;

/// An enum over the GpuAdvice, GpuFixed, GpuInstance structs.
///
/// The variants stand in the order in which column types sort.
#[derive(Clone, Copy, Debug, PartialEq, Eq, Structural, Ord, Hash)]
pub enum GpuAny {
    /// An GpuInstance variant
    Instance,
    /// An GpuAdvice variant
    Advice(GpuAdvice),
    /// A GpuFixed variant
    Fixed,
}

impl GpuAny {
    /// Returns GpuAdvice variant in `GpuFirstPhase`
    pub fn advice() -> (r: GpuAny)
        ensures
            r == GpuAny::Advice(GpuAdvice { phase: Phase(0) }),
    {
        GpuAny::Advice(GpuAdvice::default())
    }

    /// Returns GpuAdvice variant in given `Phase`
    pub fn advice_in<P: GpuPhase>(phase: P) -> (r: GpuAny)
        ensures
            r == GpuAny::Advice(GpuAdvice { phase: phase.sealed() }),
    {
        GpuAny::Advice(GpuAdvice::new(phase))
    }

    /// Position of the column type among the column types: instance, advice by
    /// phase, fixed.
    pub open spec fn rank(self) -> int {
        match self {
            GpuAny::Instance => 0,
            GpuAny::Advice(advice) => 1 + advice.phase.0,
            GpuAny::Fixed => 0x101,
        }
    }
}

/// How two integers compare.
pub open spec fn order_of(a: int, b: int) -> Ordering {
    if a < b {
        Ordering::Less
    } else if a == b {
        Ordering::Equal
    } else {
        Ordering::Greater
    }
}

impl PartialOrd for GpuAny {
    fn partial_cmp(&self, other: &Self) -> (r: Option<Ordering>) {
        // This ordering is consensus-critical! The layouters rely on deterministic column
        // orderings.
        let order = match (self, other) {
            (GpuAny::Instance, GpuAny::Instance) => Ordering::Equal,
            (GpuAny::Fixed, GpuAny::Fixed) => Ordering::Equal,
            (GpuAny::Advice(lhs), GpuAny::Advice(rhs)) => {
                if lhs.phase.0 < rhs.phase.0 {
                    Ordering::Less
                } else if lhs.phase.0 == rhs.phase.0 {
                    Ordering::Equal
                } else {
                    Ordering::Greater
                }
            },
            // Across column types, sort GpuInstance < GpuAdvice < GpuFixed.
            (GpuAny::Instance, _) => Ordering::Less,
            (_, GpuAny::Fixed) => Ordering::Less,
            (GpuAny::Fixed, _) => Ordering::Greater,
            (_, GpuAny::Instance) => Ordering::Greater,
        };
        Some(order)
    }
}

impl vstd::std_specs::cmp::PartialOrdSpecImpl for GpuAny {
    open spec fn obeys_partial_cmp_spec() -> bool {
        true
    }

    open spec fn partial_cmp_spec(&self, other: &Self) -> Option<Ordering> {
        Some(order_of(self.rank(), other.rank()))
    }
}

impl From<GpuAdvice> for GpuAny {
    fn from(advice: GpuAdvice) -> (r: GpuAny) {
        GpuAny::Advice(advice)
    }
}

impl FromSpecImpl<GpuAdvice> for GpuAny {
    open spec fn obeys_from_spec() -> bool {
        true
    }

    open spec fn from_spec(advice: GpuAdvice) -> GpuAny {
        GpuAny::Advice(advice)
    }
}

impl From<GpuFixed> for GpuAny {
    fn from(fixed: GpuFixed) -> (r: GpuAny) {
        GpuAny::Fixed
    }
}

impl FromSpecImpl<GpuFixed> for GpuAny {
    open spec fn obeys_from_spec() -> bool {
        true
    }

    open spec fn from_spec(fixed: GpuFixed) -> GpuAny {
        GpuAny::Fixed
    }
}

impl From<GpuInstance> for GpuAny {
    fn from(instance: GpuInstance) -> (r: GpuAny) {
        GpuAny::Instance
    }
}

impl FromSpecImpl<GpuInstance> for GpuAny {
    open spec fn obeys_from_spec() -> bool {
        true
    }

    open spec fn from_spec(instance: GpuInstance) -> GpuAny {
        GpuAny::Instance
    }
}

/// A column type
pub trait GpuColumnType: Copy {
    /// The column type among all column types.
    spec fn any(self) -> GpuAny;

    fn to_any(&self) -> (r: GpuAny)
        ensures
            r == self.any(),
    ;

    /// Whether two columns have the same type.
    fn same(&self, other: &Self) -> (r: bool)
        ensures
            r == (*self == *other),
    ;

    /// Return expression from cell
    fn query_cell<F: Field>(&self, index: usize, at: Rotation) -> (r: GpuExpression<F>)
        ensures
            r == cell_expression::<F>(self.any(), index, at),
    ;
}

impl GpuColumnType for GpuAdvice {
    open spec fn any(self) -> GpuAny {
        GpuAny::Advice(self)
    }

    fn to_any(&self) -> (r: GpuAny) {
        GpuAny::Advice(*self)
    }

    fn same(&self, other: &Self) -> (r: bool) {
        *self == *other
    }

    fn query_cell<F: Field>(&self, index: usize, at: Rotation) -> (r: GpuExpression<F>) {
        GpuExpression::Advice(
            GpuAdviceQuery { index: None, column_index: index, rotation: at, phase: self.phase },
        )
    }
}

impl GpuColumnType for GpuFixed {
    open spec fn any(self) -> GpuAny {
        GpuAny::Fixed
    }

    fn to_any(&self) -> (r: GpuAny) {
        GpuAny::Fixed
    }

    fn same(&self, other: &Self) -> (r: bool) {
        true
    }

    fn query_cell<F: Field>(&self, index: usize, at: Rotation) -> (r: GpuExpression<F>) {
        GpuExpression::Fixed(GpuFixedQuery { index: None, column_index: index, rotation: at })
    }
}

impl GpuColumnType for GpuInstance {
    open spec fn any(self) -> GpuAny {
        GpuAny::Instance
    }

    fn to_any(&self) -> (r: GpuAny) {
        GpuAny::Instance
    }

    fn same(&self, other: &Self) -> (r: bool) {
        true
    }

    fn query_cell<F: Field>(&self, index: usize, at: Rotation) -> (r: GpuExpression<F>) {
        GpuExpression::Instance(GpuInstanceQuery { index: None, column_index: index, rotation: at })
    }
}

impl GpuColumnType for GpuAny {
    open spec fn any(self) -> GpuAny {
        self
    }

    fn to_any(&self) -> (r: GpuAny) {
        *self
    }

    fn same(&self, other: &Self) -> (r: bool) {
        *self == *other
    }

    fn query_cell<F: Field>(&self, index: usize, at: Rotation) -> (r: GpuExpression<F>) {
        match self {
            GpuAny::Advice(advice) => GpuExpression::Advice(
                GpuAdviceQuery {
                    index: None,
                    column_index: index,
                    rotation: at,
                    phase: advice.phase,
                },
            ),
            GpuAny::Fixed => GpuExpression::Fixed(
                GpuFixedQuery { index: None, column_index: index, rotation: at },
            ),
            GpuAny::Instance => GpuExpression::Instance(
                GpuInstanceQuery { index: None, column_index: index, rotation: at },
            ),
        }
    }
}

/// A column with an index and type
#[derive(Clone, Copy, Debug, PartialEq, Eq, Ord, Hash)]
pub struct GpuColumn<C: GpuColumnType> {
    pub column_type: C,
    pub index: usize,
}

impl<C: GpuColumnType> GpuColumn<C> {
    /// Position of this column among those of its type.
    pub open spec fn position(self) -> int {
        self.index as int
    }

    pub fn new(index: usize, column_type: C) -> (r: Self)
        ensures
            r == (GpuColumn { index, column_type }),
    {
        GpuColumn { index, column_type }
    }

    /// Whether two columns are the same.
    pub fn same(&self, other: &Self) -> (r: bool)
        ensures
            r == (*self == *other),
    {
        self.index == other.index && self.column_type.same(&other.column_type)
    }

    /// Index of this column.
    pub fn index(&self) -> (r: usize)
        ensures
            r == self.index,
    {
        self.index
    }

    /// Type of this column.
    pub fn column_type(&self) -> (r: &C)
        ensures
            *r == self.column_type,
    {
        &self.column_type
    }

    /// Return expression from column at a relative position
    pub fn query_cell<F: Field>(&self, at: Rotation) -> (r: GpuExpression<F>)
        ensures
            r == cell_expression::<F>(self.column_type.any(), self.index, at),
    {
        self.column_type.query_cell(self.index, at)
    }

    /// Return expression from column at the current row
    pub fn cur<F: Field>(&self) -> (r: GpuExpression<F>)
        ensures
            r == cell_expression::<F>(self.column_type.any(), self.index, Rotation(0)),
    {
        self.query_cell(Rotation::cur())
    }

    /// Return expression from column at the next row
    pub fn next<F: Field>(&self) -> (r: GpuExpression<F>)
        ensures
            r == cell_expression::<F>(self.column_type.any(), self.index, Rotation(1)),
    {
        self.query_cell(Rotation::next())
    }

    /// Return expression from column at the previous row
    pub fn prev<F: Field>(&self) -> (r: GpuExpression<F>)
        ensures
            r == cell_expression::<F>(self.column_type.any(), self.index, Rotation((-1int) as i32)),
    {
        self.query_cell(Rotation::prev())
    }

    /// Return expression from column at the specified rotation
    pub fn rot<F: Field>(&self, rotation: i32) -> (r: GpuExpression<F>)
        ensures
            r == cell_expression::<F>(self.column_type.any(), self.index, Rotation(rotation)),
    {
        self.query_cell(Rotation(rotation))
    }
}

impl<C: GpuColumnType + PartialEq> PartialOrd for GpuColumn<C> {
    fn partial_cmp(&self, other: &Self) -> (r: Option<Ordering>) {
        // This ordering is consensus-critical! The layouters rely on deterministic column
        // orderings.
        let lhs = self.column_type.to_any();
        let rhs = other.column_type.to_any();
        match lhs.partial_cmp(&rhs) {
            // Indices are assigned within column types.
            Some(Ordering::Equal) => {
                if self.index < other.index {
                    Some(Ordering::Less)
                } else if self.index == other.index {
                    Some(Ordering::Equal)
                } else {
                    Some(Ordering::Greater)
                }
            },
            order => order,
        }
    }
}

/// Columns sort by column type, and by index within a type.
pub open spec fn column_order<C: GpuColumnType, D: GpuColumnType>(
    a: GpuColumn<C>,
    b: GpuColumn<D>,
) -> Ordering {
    if a.column_type.any().rank() == b.column_type.any().rank() {
        order_of(a.position(), b.position())
    } else {
        order_of(a.column_type.any().rank(), b.column_type.any().rank())
    }
}

impl<C: GpuColumnType + PartialEq> vstd::std_specs::cmp::PartialOrdSpecImpl for GpuColumn<C> {
    open spec fn obeys_partial_cmp_spec() -> bool {
        true
    }

    open spec fn partial_cmp_spec(&self, other: &Self) -> Option<Ordering> {
        Some(column_order(*self, *other))
    }
}

/// The order of columns is total: it tells any two different columns apart,
/// reverses with its arguments and is transitive.
pub proof fn law_column_order_total(a: GpuColumn<GpuAny>, b: GpuColumn<GpuAny>,
    c: GpuColumn<GpuAny>)
    ensures
        column_order(a, b) == Ordering::Equal <==> a == b,
        column_order(a, b) == Ordering::Less <==> column_order(b, a) == Ordering::Greater,
        column_order(a, b) == Ordering::Less && column_order(b, c) == Ordering::Less
            ==> column_order(a, c) == Ordering::Less,
{
}

/// Instance columns sort before advice columns, and those before fixed columns,
/// whatever their indices.
pub proof fn law_column_types_sort(
    i: GpuColumn<GpuInstance>,
    a: GpuColumn<GpuAdvice>,
    f: GpuColumn<GpuFixed>,
)
    ensures
        column_order(i, a) == Ordering::Less,
        column_order(a, f) == Ordering::Less,
        column_order(i, f) == Ordering::Less,
{
}

impl From<GpuColumn<GpuAdvice>> for GpuColumn<GpuAny> {
    fn from(advice: GpuColumn<GpuAdvice>) -> (r: GpuColumn<GpuAny>) {
        GpuColumn { index: advice.index, column_type: GpuAny::Advice(advice.column_type) }
    }
}

impl FromSpecImpl<GpuColumn<GpuAdvice>> for GpuColumn<GpuAny> {
    open spec fn obeys_from_spec() -> bool {
        true
    }

    open spec fn from_spec(advice: GpuColumn<GpuAdvice>) -> GpuColumn<GpuAny> {
        GpuColumn { index: advice.index, column_type: GpuAny::Advice(advice.column_type) }
    }
}

impl From<GpuColumn<GpuFixed>> for GpuColumn<GpuAny> {
    fn from(fixed: GpuColumn<GpuFixed>) -> (r: GpuColumn<GpuAny>) {
        GpuColumn { index: fixed.index, column_type: GpuAny::Fixed }
    }
}

impl FromSpecImpl<GpuColumn<GpuFixed>> for GpuColumn<GpuAny> {
    open spec fn obeys_from_spec() -> bool {
        true
    }

    open spec fn from_spec(fixed: GpuColumn<GpuFixed>) -> GpuColumn<GpuAny> {
        GpuColumn { index: fixed.index, column_type: GpuAny::Fixed }
    }
}

impl From<GpuColumn<GpuInstance>> for GpuColumn<GpuAny> {
    fn from(instance: GpuColumn<GpuInstance>) -> (r: GpuColumn<GpuAny>) {
        GpuColumn { index: instance.index, column_type: GpuAny::Instance }
    }
}

impl FromSpecImpl<GpuColumn<GpuInstance>> for GpuColumn<GpuAny> {
    open spec fn obeys_from_spec() -> bool {
        true
    }

    open spec fn from_spec(instance: GpuColumn<GpuInstance>) -> GpuColumn<GpuAny> {
        GpuColumn { index: instance.index, column_type: GpuAny::Instance }
    }
}

impl GpuColumn<GpuAdvice> {
    /// The advice column that `any` is, if it is one.
    pub fn try_from(any: GpuColumn<GpuAny>) -> (r: Result<Self, &'static str>)
        ensures
            match any.column_type {
                GpuAny::Advice(advice) => r == Ok::<Self, &'static str>(
                    GpuColumn { index: any.index, column_type: advice },
                ),
                _ => r matches Err(e) && e@ == "Cannot convert into GpuColumn<GpuAdvice>"@,
            },
    {
        match any.column_type {
            GpuAny::Advice(advice) => Ok(GpuColumn { index: any.index, column_type: advice }),
            _ => Err("Cannot convert into GpuColumn<GpuAdvice>"),
        }
    }
}

impl GpuColumn<GpuFixed> {
    /// The fixed column that `any` is, if it is one.
    pub fn try_from(any: GpuColumn<GpuAny>) -> (r: Result<Self, &'static str>)
        ensures
            match any.column_type {
                GpuAny::Fixed => r == Ok::<Self, &'static str>(
                    GpuColumn { index: any.index, column_type: GpuFixed },
                ),
                _ => r matches Err(e) && e@ == "Cannot convert into GpuColumn<GpuFixed>"@,
            },
    {
        match any.column_type {
            GpuAny::Fixed => Ok(GpuColumn { index: any.index, column_type: GpuFixed }),
            _ => Err("Cannot convert into GpuColumn<GpuFixed>"),
        }
    }
}

impl GpuColumn<GpuInstance> {
    /// The instance column that `any` is, if it is one.
    pub fn try_from(any: GpuColumn<GpuAny>) -> (r: Result<Self, &'static str>)
        ensures
            match any.column_type {
                GpuAny::Instance => r == Ok::<Self, &'static str>(
                    GpuColumn { index: any.index, column_type: GpuInstance },
                ),
                _ => r matches Err(e) && e@ == "Cannot convert into GpuColumn<GpuInstance>"@,
            },
    {
        match any.column_type {
            GpuAny::Instance => Ok(GpuColumn { index: any.index, column_type: GpuInstance }),
            _ => Err("Cannot convert into GpuColumn<GpuInstance>"),
        }
    }
}

/// A selector, representing a fixed boolean value per row of the circuit.
#[derive(Clone, Copy, Debug, PartialEq, Eq, Structural, Hash)]
pub struct GpuSelector(pub usize, pub bool);

impl GpuSelector {
    /// Is this selector "simple"? Simple selectors can only be multiplied
    /// by expressions that contain no other simple selectors.
    pub fn is_simple(&self) -> (r: bool)
        ensures
            r == self.1,
    {
        self.1
    }

    /// Returns index of this selector
    pub fn index(&self) -> (r: usize)
        ensures
            r == self.0,
    {
        self.0
    }

    /// Return expression from selector
    pub fn expr<F: Field>(&self) -> (r: GpuExpression<F>)
        ensures
            r == GpuExpression::<F>::Selector(*self),
    {
        GpuExpression::Selector(*self)
    }
}

/// Query of fixed column at a certain relative location
#[derive(Copy, Clone, Debug, PartialEq, Eq, Structural)]
pub struct GpuFixedQuery {
    /// Query index
    pub index: Option<usize>,
    /// GpuColumn index
    pub column_index: usize,
    /// Rotation of this query
    pub rotation: Rotation,
}

impl GpuFixedQuery {
    /// GpuColumn index
    pub fn column_index(&self) -> (r: usize)
        ensures
            r == self.column_index,
    {
        self.column_index
    }

    /// Rotation of this query
    pub fn rotation(&self) -> (r: Rotation)
        ensures
            r == self.rotation,
    {
        self.rotation
    }
}

/// Query of advice column at a certain relative location
#[derive(Copy, Clone, Debug, PartialEq, Eq, Structural)]
pub struct GpuAdviceQuery {
    /// Query index
    pub index: Option<usize>,
    /// GpuColumn index
    pub column_index: usize,
    /// Rotation of this query
    pub rotation: Rotation,
    /// Phase of this advice column
    pub phase: Phase,
}

impl GpuAdviceQuery {
    /// GpuColumn index
    pub fn column_index(&self) -> (r: usize)
        ensures
            r == self.column_index,
    {
        self.column_index
    }

    /// Rotation of this query
    pub fn rotation(&self) -> (r: Rotation)
        ensures
            r == self.rotation,
    {
        self.rotation
    }

    /// Phase of this advice column
    pub fn phase(&self) -> (r: u8)
        ensures
            r == self.phase.0,
    {
        self.phase.0
    }
}

/// Query of instance column at a certain relative location
#[derive(Copy, Clone, Debug, PartialEq, Eq, Structural)]
pub struct GpuInstanceQuery {
    /// Query index
    pub index: Option<usize>,
    /// GpuColumn index
    pub column_index: usize,
    /// Rotation of this query
    pub rotation: Rotation,
}

impl GpuInstanceQuery {
    /// GpuColumn index
    pub fn column_index(&self) -> (r: usize)
        ensures
            r == self.column_index,
    {
        self.column_index
    }

    /// Rotation of this query
    pub fn rotation(&self) -> (r: Rotation)
        ensures
            r == self.rotation,
    {
        self.rotation
    }
}

/// A fixed column of a lookup table.
///
/// Lookup table columns are always "encumbered" by the lookup arguments they are used in;
/// they cannot simultaneously be used as general fixed columns.
#[derive(Clone, Copy, Debug, PartialEq, Eq, Hash)]
pub struct GpuTableColumn {
    inner: GpuColumn<GpuFixed>,
}

impl GpuTableColumn {
    /// The fixed column that this table column is stored in.
    pub closed spec fn column(self) -> GpuColumn<GpuFixed> {
        self.inner
    }

    pub(crate) fn new(inner: GpuColumn<GpuFixed>) -> (r: Self)
        ensures
            r.column() == inner,
    {
        GpuTableColumn { inner }
    }

    /// Returns inner column
    pub fn inner(&self) -> (r: GpuColumn<GpuFixed>)
        ensures
            r == self.column(),
    {
        self.inner
    }
}

/// A challenge squeezed from transcript after advice columns at the phase have been committed.
#[derive(Clone, Copy, Debug, PartialEq, Eq, Structural, Hash)]
pub struct GpuChallenge {
    pub index: usize,
    pub phase: Phase,
}

impl GpuChallenge {
    /// Index of this challenge.
    pub fn index(&self) -> (r: usize)
        ensures
            r == self.index,
    {
        self.index
    }

    /// Phase of this challenge.
    pub fn phase(&self) -> (r: u8)
        ensures
            r == self.phase.0,
    {
        self.phase.0
    }

    /// Return GpuExpression
    pub fn expr<F: Field>(&self) -> (r: GpuExpression<F>)
        ensures
            r == GpuExpression::<F>::Challenge(*self),
    {
        GpuExpression::Challenge(*self)
    }
}

} // verus!
