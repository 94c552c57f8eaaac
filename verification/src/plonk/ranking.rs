//! How columns compare and convert.

use crate::field::Field;
use crate::plonk::assigned::GpuAssigned;
use crate::plonk::circuit::{
    column_order, GpuAdvice, GpuAny, GpuColumn, GpuColumnType, GpuFixed, GpuInstance,
};
use crate::plonk::error::{Error, GpuError};
use std::cmp::Ordering;
use vstd::prelude::*;
use vstd::std_specs::cmp::PartialOrdSpec;
use vstd::std_specs::convert::FromSpec;

verus! {

/// Advice columns compare by their phases, and in one phase by their indices, as fixed and
/// instance columns do.
pub proof fn law_columns_of_a_kind_sort(
    a: GpuColumn<GpuAdvice>,
    b: GpuColumn<GpuAdvice>,
    f: GpuColumn<GpuFixed>,
    g: GpuColumn<GpuFixed>,
    i: GpuColumn<GpuInstance>,
    j: GpuColumn<GpuInstance>,
)
    ensures
        a.column_type.phase.0 < b.column_type.phase.0 ==> column_order(a, b) == Ordering::Less,
        a.column_type.phase.0 == b.column_type.phase.0 ==> (column_order(a, b) == Ordering::Less
            <==> a.index < b.index),
        a.column_type.phase.0 == b.column_type.phase.0 ==> (column_order(a, b) == Ordering::Equal
            <==> a.index == b.index),
        column_order(f, g) == Ordering::Less <==> f.index < g.index,
        column_order(f, g) == Ordering::Equal <==> f.index == g.index,
        column_order(i, j) == Ordering::Less <==> i.index < j.index,
        column_order(i, j) == Ordering::Equal <==> i.index == j.index,
        PartialOrdSpec::partial_cmp_spec(&a, &b) == Some(column_order(a, b)),
        PartialOrdSpec::partial_cmp_spec(&f, &g) == Some(column_order(f, g)),
        PartialOrdSpec::partial_cmp_spec(&i, &j) == Some(column_order(i, j)),
{
}

/// A column of one kind is the column of any kind with the same index, and a field element
/// or a fraction the assigned value that it says.
pub proof fn law_conversions<F: Field>(
    a: GpuColumn<GpuAdvice>,
    f: GpuColumn<GpuFixed>,
    i: GpuColumn<GpuInstance>,
    x: F,
    n: F,
    d: F,
    e: Error,
)
    ensures
        <GpuColumn<GpuAny> as FromSpec<GpuColumn<GpuAdvice>>>::from_spec(a).index == a.index,
        <GpuColumn<GpuAny> as FromSpec<GpuColumn<GpuAdvice>>>::from_spec(a).column_type
            == GpuAny::Advice(a.column_type),
        <GpuColumn<GpuAny> as FromSpec<GpuColumn<GpuFixed>>>::from_spec(f).index == f.index,
        <GpuColumn<GpuAny> as FromSpec<GpuColumn<GpuFixed>>>::from_spec(f).column_type
            == GpuAny::Fixed,
        <GpuColumn<GpuAny> as FromSpec<GpuColumn<GpuInstance>>>::from_spec(i).index == i.index,
        <GpuColumn<GpuAny> as FromSpec<GpuColumn<GpuInstance>>>::from_spec(i).column_type
            == GpuAny::Instance,
        a.column_type.any() == GpuAny::Advice(a.column_type),
        f.column_type.any() == GpuAny::Fixed,
        i.column_type.any() == GpuAny::Instance,
        <GpuAny as FromSpec<GpuAdvice>>::from_spec(a.column_type) == GpuAny::Advice(a.column_type),
        <GpuAny as FromSpec<GpuFixed>>::from_spec(f.column_type) == GpuAny::Fixed,
        <GpuAny as FromSpec<GpuInstance>>::from_spec(i.column_type) == GpuAny::Instance,
        <GpuAssigned<F> as FromSpec<F>>::from_spec(x) == GpuAssigned::Trivial(x),
        <GpuAssigned<F> as FromSpec<(F, F)>>::from_spec((n, d)) == GpuAssigned::Rational(n, d),
        <GpuError as FromSpec<Error>>::from_spec(e) == GpuError::Canonical(e),
{
}

} // verus!
