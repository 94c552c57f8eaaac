//! How expressions and durations read.

use crate::field::Field;
use crate::plonk::circuit::{
    GpuAdviceQuery, GpuChallenge, GpuFixedQuery, GpuInstanceQuery, GpuSelector,
};
use crate::plonk::expression::GpuExpression;
use crate::plonk::logging::{duration_text, three_digits};
use crate::text::{decimal, decimal_nat, digit_char};
use vstd::prelude::*;
use vstd::std_specs::ops::{AddSpec, MulSpec, NegSpec, SubSpec};

verus! {

/// The identifier of an operation is made of those of its operands: in brackets with the
/// sign between them, but for scaling, which has no brackets.
pub proof fn law_identifiers_of_operations<F: Field>(
    a: GpuExpression<F>,
    b: GpuExpression<F>,
    scalar: F,
)
    ensures
        NegSpec::neg_spec(a).identifier_text() == "(-"@ + a.identifier_text() + ")"@,
        AddSpec::add_spec(a, b).identifier_text() == "("@ + a.identifier_text() + "+"@
            + b.identifier_text() + ")"@,
        SubSpec::sub_spec(a, b).identifier_text() == "("@ + a.identifier_text() + "+"@ + ("(-"@
            + b.identifier_text() + ")"@) + ")"@,
        MulSpec::<GpuExpression<F>>::mul_spec(a, b).identifier_text() == "("@
            + a.identifier_text() + "*"@ + b.identifier_text() + ")"@,
        MulSpec::<F>::mul_spec(a, scalar).identifier_text() == a.identifier_text() + "*"@
            + GpuExpression::Constant(scalar).identifier_text(),
{
    let negated = NegSpec::neg_spec(b);
    assert(negated.identifier_text() == "(-"@ + b.identifier_text() + ")"@);
}

/// The identifier of what an expression reads: its kind, and in square brackets its index
/// and, for a column, the rotation. A selector's does not tell whether it is simple, nor a
/// query's where it stands among the queries.
pub proof fn law_identifiers_of_queries<F: Field>(
    selector: GpuSelector,
    fixed: GpuFixedQuery,
    advice: GpuAdviceQuery,
    instance: GpuInstanceQuery,
    challenge: GpuChallenge,
)
    ensures
        GpuExpression::<F>::Selector(selector).identifier_text() == "selector["@ + decimal(
            selector.0 as int,
        ) + "]"@,
        GpuExpression::<F>::Fixed(fixed).identifier_text() == "fixed["@ + decimal(
            fixed.column_index as int,
        ) + "]["@ + decimal(fixed.rotation.0 as int) + "]"@,
        GpuExpression::<F>::Advice(advice).identifier_text() == "advice["@ + decimal(
            advice.column_index as int,
        ) + "]["@ + decimal(advice.rotation.0 as int) + "]"@,
        GpuExpression::<F>::Instance(instance).identifier_text() == "instance["@ + decimal(
            instance.column_index as int,
        ) + "]["@ + decimal(instance.rotation.0 as int) + "]"@,
        GpuExpression::<F>::Challenge(challenge).identifier_text() == "challenge["@ + decimal(
            challenge.index as int,
        ) + "]"@,
{
}

/// The text that shows an operation names it and shows its operands.
pub proof fn law_texts_of_operations<F: Field>(
    a: GpuExpression<F>,
    b: GpuExpression<F>,
    scalar: F,
)
    ensures
        NegSpec::neg_spec(a).debug_text() == "Negated("@ + a.debug_text() + ")"@,
        AddSpec::add_spec(a, b).debug_text() == "Sum("@ + a.debug_text() + ", "@ + b.debug_text()
            + ")"@,
        MulSpec::<GpuExpression<F>>::mul_spec(a, b).debug_text() == "Product("@ + a.debug_text()
            + ", "@ + b.debug_text() + ")"@,
        MulSpec::<F>::mul_spec(a, scalar).debug_text() == "Scaled("@ + a.debug_text() + ", "@
            + GpuExpression::Constant(scalar).identifier_text() + ")"@,
        GpuExpression::Constant(scalar).debug_text() == "Constant("@ + GpuExpression::Constant(
            scalar,
        ).identifier_text() + ")"@,
{
}

/// The text that shows a query holds its position among the queries, its column and its
/// rotation, and for an advice column its phase, unless that is the first.
pub proof fn law_texts_of_queries<F: Field>(
    selector: GpuSelector,
    fixed: GpuFixedQuery,
    advice: GpuAdviceQuery,
    instance: GpuInstanceQuery,
    challenge: GpuChallenge,
    i: usize,
    j: usize,
    k: usize,
)
    requires
        fixed.index == Some(i),
        advice.index == Some(j),
        instance.index == Some(k),
    ensures
        GpuExpression::<F>::Selector(selector).debug_text() == "Selector(GpuSelector("@ + decimal(
            selector.0 as int,
        ) + ", "@ + (if selector.1 {
            "true"@
        } else {
            "false"@
        }) + "))"@,
        GpuExpression::<F>::Fixed(fixed).debug_text() == "Fixed { query_index: "@ + (decimal(
            i as int,
        ) + ", column_index: "@ + decimal(fixed.column_index as int) + ", rotation: Rotation("@
            + decimal(fixed.rotation.0 as int) + ")"@) + " }"@,
        GpuExpression::<F>::Instance(instance).debug_text() == "Instance { query_index: "@ + (
        decimal(k as int) + ", column_index: "@ + decimal(instance.column_index as int)
            + ", rotation: Rotation("@ + decimal(instance.rotation.0 as int) + ")"@) + " }"@,
        advice.phase.0 == 0 ==> GpuExpression::<F>::Advice(advice).debug_text()
            == "Advice { query_index: "@ + (decimal(j as int) + ", column_index: "@ + decimal(
            advice.column_index as int,
        ) + ", rotation: Rotation("@ + decimal(advice.rotation.0 as int) + ")"@) + " }"@,
        advice.phase.0 != 0 ==> GpuExpression::<F>::Advice(advice).debug_text()
            == "Advice { query_index: "@ + (decimal(j as int) + ", column_index: "@ + decimal(
            advice.column_index as int,
        ) + ", rotation: Rotation("@ + decimal(advice.rotation.0 as int) + ")"@) + (
        ", phase: Phase("@ + decimal(advice.phase.0 as int) + ")"@) + " }"@,
        GpuExpression::<F>::Challenge(challenge).debug_text() == "Challenge(GpuChallenge { index: "@
            + decimal(challenge.index as int) + ", phase: Phase("@ + decimal(
            challenge.phase.0 as int,
        ) + ") })"@,
{
    if advice.phase.0 == 0 {
        let body = "Advice { query_index: "@ + (decimal(j as int) + ", column_index: "@ + decimal(
            advice.column_index as int,
        ) + ", rotation: Rotation("@ + decimal(advice.rotation.0 as int) + ")"@);
        assert(body + Seq::<char>::empty() =~= body);
    }
}

/// Three digits are hundreds, tens and ones.
pub proof fn law_three_digits(a: int, b: int, c: int)
    requires
        0 <= a < 10,
        0 <= b < 10,
        0 <= c < 10,
    ensures
        three_digits(100 * a + 10 * b + c) == seq![digit_char(a), digit_char(b), digit_char(c)],
{
    let n = 100 * a + 10 * b + c;
    assert(n % 10 == c && n / 10 == 10 * a + b);
    assert((10 * a + b) % 10 == b && (10 * a + b) / 10 == a);
    let m = (n / 10) as nat;
    if n < 10 {
        assert(a == 0 && b == 0);
        assert(decimal(n) =~= seq![digit_char(c)]);
        assert(digit_char(0) == '0');
    } else if n < 100 {
        assert(a == 0);
        assert(decimal_nat(m) =~= seq![digit_char(b)]);
        assert(decimal(n) =~= seq![digit_char(b), digit_char(c)]);
        assert(digit_char(0) == '0');
    } else {
        assert(decimal_nat(m / 10) =~= seq![digit_char(a)]);
        assert(decimal_nat(m) =~= seq![digit_char(a), digit_char(b)]);
        assert(decimal(n) =~= seq![digit_char(a), digit_char(b), digit_char(c)]);
    }
    assert(three_digits(n) =~= seq![digit_char(a), digit_char(b), digit_char(c)]);
}

/// A duration of seconds, milliseconds, microseconds and nanoseconds reads in the largest
/// unit that it has some of, with the next smaller one as three digits behind the point;
/// nanoseconds have none.
pub proof fn law_durations(secs: u64, millis: u32, micros: u32, nanos: u32)
    requires
        millis < 1000,
        micros < 1000,
        nanos < 1000,
    ensures
        ({
            let t = duration_text(secs, (millis * 1_000_000 + micros * 1000 + nanos) as u32);
            &&& secs > 0 ==> t == decimal(secs as int) + seq!['.'] + three_digits(millis as int)
                + seq!['s']
            &&& secs == 0 && millis > 0 ==> t == decimal(millis as int) + seq!['.']
                + three_digits(micros as int) + seq!['m', 's']
            &&& secs == 0 && millis == 0 && micros > 0 ==> t == decimal(micros as int) + seq!['.']
                + three_digits(nanos as int) + seq!['µ', 's']
            &&& secs == 0 && millis == 0 && micros == 0 ==> t == decimal(nanos as int) + seq![
                'n',
                's',
            ]
        }),
{
    let n = millis * 1_000_000 + micros * 1000 + nanos;
    assert(n / 1_000_000 == millis);
    assert(n / 1000 == millis * 1000 + micros);
    assert((millis * 1000 + micros) % 1000 == micros);
    assert(n % 1000 == nanos);
}

} // verus!
