//! The words that the device reads, bit by bit.

use crate::plonk::encoding::{magnitude, packed_source, packed_sources, rules_of, sign_bit};
use crate::plonk::graph::{CalculationModel, ValueSource};
use vstd::prelude::*;

verus! {

/// The bits of a packed source: the kind of what it reads in the lowest four, then
/// twenty for its position, fifteen for the rotation's magnitude and one for its sign.
/// Fixed, instance and advice columns, intermediate values, constants and challenges
/// have the kinds 0 to 5.
pub proof fn law_source_bits(s: ValueSource, rotations: Seq<i32>)
    requires
        match s {
            ValueSource::Fixed(c, at) => c < 0x10_0000 && -0x8000 < rotations[at as int] < 0x8000,
            ValueSource::Instance(c, at) => c < 0x10_0000 && -0x8000 < rotations[at as int]
                < 0x8000,
            ValueSource::Advice(c, at) => c < 0x10_0000 && -0x8000 < rotations[at as int] < 0x8000,
            ValueSource::Intermediate(i) => i < 0x10_0000,
            ValueSource::Constant(i) => i < 0x10_0000,
            ValueSource::Challenge(i) => i < 0x10_0000,
            _ => false,
        },
    ensures
        ({
            let word = s.packed(rotations);
            let kind = word & 0xf;
            let index = (word >> 4) & 0xf_ffff;
            let turn = (word >> 24) & 0x7fff;
            let sign = (word >> 39) & 1;
            &&& word >> 40 == 0
            &&& match s {
                ValueSource::Fixed(c, at) => kind == 0 && index == c && (if rotations[at as int]
                    < 0 {
                    sign == 1 && turn == -rotations[at as int]
                } else {
                    sign == 0 && turn == rotations[at as int]
                }),
                ValueSource::Instance(c, at) => kind == 1 && index == c && (if rotations[at as int]
                    < 0 {
                    sign == 1 && turn == -rotations[at as int]
                } else {
                    sign == 0 && turn == rotations[at as int]
                }),
                ValueSource::Advice(c, at) => kind == 2 && index == c && (if rotations[at as int]
                    < 0 {
                    sign == 1 && turn == -rotations[at as int]
                } else {
                    sign == 0 && turn == rotations[at as int]
                }),
                ValueSource::Intermediate(i) => kind == 3 && index == i && turn == 0 && sign == 0,
                ValueSource::Constant(i) => kind == 4 && index == i && turn == 0 && sign == 0,
                ValueSource::Challenge(i) => kind == 5 && index == i && turn == 0 && sign == 0,
                _ => true,
            }
        }),
{
    let r = s.rotation(rotations);
    lemma_source_bits(s.tag(), s.index() as u64, magnitude(r), sign_bit(r));
}

proof fn lemma_source_bits(tag: u64, idx: u64, abs: u64, sign: u64)
    by (bit_vector)
    requires
        tag < 16,
        idx < 0x10_0000,
        abs < 0x8000,
        sign < 2,
    ensures
        packed_source(tag, idx, abs, sign) & 0xf == tag,
        (packed_source(tag, idx, abs, sign) >> 4) & 0xf_ffff == idx,
        (packed_source(tag, idx, abs, sign) >> 24) & 0x7fff == abs,
        (packed_source(tag, idx, abs, sign) >> 39) & 1 == sign,
        packed_source(tag, idx, abs, sign) >> 40 == 0,
{
}

/// The bits of a rule. The low word holds the first operand in its lowest forty bits,
/// the code of what that is multiplied by in the next four, and in four more whether
/// the sum is multiplied by the second operand; the high word holds the second operand
/// and the code of what it is multiplied by. The codes 0, 1, 2 and 3 stand for zero,
/// one, minus one and two, and no other occurs. An operand that is not needed is the
/// word 6.
pub proof fn law_rule_bits(c: CalculationModel, rotations: Seq<i32>)
    requires
        match c {
            CalculationModel::Add(x, y) => x.packed(rotations) >> 40 == 0 && y.packed(rotations)
                >> 40 == 0,
            CalculationModel::Sub(x, y) => x.packed(rotations) >> 40 == 0 && y.packed(rotations)
                >> 40 == 0,
            CalculationModel::Mul(x, y) => x.packed(rotations) >> 40 == 0 && y.packed(rotations)
                >> 40 == 0,
            CalculationModel::Square(x) => x.packed(rotations) >> 40 == 0,
            CalculationModel::Double(x) => x.packed(rotations) >> 40 == 0,
            CalculationModel::Negate(x) => x.packed(rotations) >> 40 == 0,
            CalculationModel::Store(x) => x.packed(rotations) >> 40 == 0,
            CalculationModel::Horner(_, _, _) => false,
        },
    ensures
        ({
            let rule = c.rule(rotations).0;
            let low = rule as u64;
            let high = (rule >> 64) as u64;
            let a = low & 0xff_ffff_ffff;
            let c1 = (low >> 40) & 0xf;
            let d = (low >> 44) & 0xf;
            let b = high & 0xff_ffff_ffff;
            let c2 = (high >> 40) & 0xf;
            &&& low >> 48 == 0
            &&& high >> 44 == 0
            &&& c1 < 4
            &&& c2 < 4
            &&& d < 2
            &&& match c {
                CalculationModel::Add(x, y) => a == x.packed(rotations) && b == y.packed(rotations)
                    && c1 == 1 && c2 == 1 && d == 0,
                CalculationModel::Sub(x, y) => a == x.packed(rotations) && b == y.packed(rotations)
                    && c1 == 1 && c2 == 2 && d == 0,
                CalculationModel::Mul(x, y) => a == x.packed(rotations) && b == y.packed(rotations)
                    && c1 == 1 && c2 == 0 && d == 1,
                CalculationModel::Square(x) => a == x.packed(rotations) && b == x.packed(rotations)
                    && c1 == 1 && c2 == 0 && d == 1,
                CalculationModel::Double(x) => a == x.packed(rotations) && b == 6 && c1 == 3 && c2
                    == 0 && d == 0,
                CalculationModel::Negate(x) => a == x.packed(rotations) && b == 6 && c1 == 2 && c2
                    == 0 && d == 0,
                CalculationModel::Store(x) => a == x.packed(rotations) && b == 6 && c1 == 1 && c2
                    == 0 && d == 0,
                CalculationModel::Horner(_, _, _) => true,
            }
        }),
{
    let op = c.operation(rotations);
    assert(6u64 >> 40 == 0) by (bit_vector);
    lemma_rule_bits(op.a, op.b, op.c1, op.c2, op.d);
}

proof fn lemma_rule_bits(a: u64, b: u64, c1: u64, c2: u64, d: u64)
    by (bit_vector)
    requires
        a >> 40 == 0,
        b >> 40 == 0,
        c1 < 16,
        c2 < 16,
        d < 16,
    ensures
        ({
            let rule: u128 = (((a | (c1 << 40)) | (d << 44)) as u128) | (((b | (c2 << 40)) as u128)
                << 64);
            let low = rule as u64;
            let high = (rule >> 64) as u64;
            &&& low >> 48 == 0
            &&& high >> 44 == 0
            &&& low & 0xff_ffff_ffff == a
            &&& high & 0xff_ffff_ffff == b
            &&& (low >> 40) & 0xf == c1
            &&& (high >> 40) & 0xf == c2
            &&& (low >> 44) & 0xf == d
        }),
{
}

/// A graph's rules and parts stand in the order of its calculations and parts, one for
/// each.
pub proof fn law_words_in_order(
    s: Seq<CalculationModel>,
    parts: Seq<ValueSource>,
    rotations: Seq<i32>,
    i: int,
)
    ensures
        rules_of(s, rotations).len() == s.len(),
        packed_sources(parts, rotations).len() == parts.len(),
        0 <= i < s.len() ==> rules_of(s, rotations)[i] == s[i].rule(rotations),
        0 <= i < parts.len() ==> packed_sources(parts, rotations)[i] == parts[i].packed(
            rotations,
        ),
{
}

} // verus!
