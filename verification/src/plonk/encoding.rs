//! The packed form of calculation graphs that the device kernels read.

use crate::field::Field;
use crate::plonk::evaluation::sources_of;
use crate::plonk::evaluator::Evaluator;
use crate::plonk::graph::{Calculation, CalculationModel, GraphEvaluator, ValueSource};
use vstd::prelude::*;

verus! {

/// Packed device-consumable rule emitted by [`Calculation::encode`].
///
/// # `ValueSource` — 40-bit packed `u64` (`ValueSource::encode`)
///
/// ```text
///   bit  0..3   src   : 4-bit tag    (Fixed=0, Instance=1, Advice=2,
///                                     Intermediate=3, Constant=4,
///                                     Challenge=5, Dummy=6)
///   bit  4..23  idx   : 20-bit column / intermediate / constant index
///   bit 24..38  rot   : 15-bit absolute rotation value
///   bit 39      sign  : 1-bit rotation sign (1 = negative)
/// ```
///
/// # `Calculation` — 128-bit packed `CalcRule` (`Calculation::encode`)
///
/// ```text
///   low u64  ( bit  0..63):
///     bit  0..39  a      : encoded ValueSource (operand a)
///     bit 40..43  c1     : 4-bit CombineType (Zero=0, One=1,
///                                             NegOne=2, Two=3)
///     bit 44..47  d      : 4-bit CalcDegree (One=0, Two=1)
///     bit 48..63  unused
///
///   high u64 ( bit 64..127):
///     bit  0..39  b      : encoded ValueSource (operand b)
///     bit 40..43  c2     : 4-bit CombineType
///     bit 44..63  unused
/// ```
///
/// `Horner` is never emitted as a `CalcRule`; it terminates the graph
/// and is serialised separately via `Calculation::encode_vp` into a
/// flat `Vec<u64>` whose entries are individually `ValueSource::encode`
/// results.
#[derive(Clone, Copy, Debug)]
pub struct CalcRule(pub u128);

/// What an operand is multiplied by.
#[derive(Clone, Copy, Debug, PartialEq, Eq, Structural)]
pub enum CombineType {
    Zero,
    One,
    NegOne,
    Two,
}

impl CombineType {
    pub open spec fn spec_code(self) -> u64 {
        match self {
            CombineType::Zero => 0,
            CombineType::One => 1,
            CombineType::NegOne => 2,
            CombineType::Two => 3,
        }
    }

    pub fn code(&self) -> (r: u64)
        ensures
            r == self.spec_code(),
    {
        match self {
            CombineType::Zero => 0,
            CombineType::One => 1,
            CombineType::NegOne => 2,
            CombineType::Two => 3,
        }
    }
}

/// Whether a calculation multiplies by its second operand.
#[derive(Clone, Copy, Debug, PartialEq, Eq, Structural)]
pub enum CalcDegree {
    One,
    Two,
}

impl CalcDegree {
    pub open spec fn spec_code(self) -> u64 {
        match self {
            CalcDegree::One => 0,
            CalcDegree::Two => 1,
        }
    }

    pub fn code(&self) -> (r: u64)
        ensures
            r == self.spec_code(),
    {
        match self {
            CalcDegree::One => 0,
            CalcDegree::Two => 1,
        }
    }
}

/// A source packed into 40 bits: tag, index, and rotation by magnitude and sign.
pub open spec fn packed_source(tag: u64, idx: u64, abs: u64, sign: u64) -> u64 {
    tag | (idx << 4) | (abs << 24) | (sign << 39)
}

/// The magnitude of a rotation.
pub open spec fn magnitude(rotation: i32) -> u64 {
    (if rotation < 0 {
        -rotation
    } else {
        rotation as int
    }) as u64
}

/// The sign bit of a rotation.
pub open spec fn sign_bit(rotation: i32) -> u64 {
    if rotation < 0 {
        1
    } else {
        0
    }
}

impl ValueSource {
    /// The tag that says what kind of source it is.
    pub open spec fn tag(self) -> u64 {
        match self {
            ValueSource::Fixed(_, _) => 0,
            ValueSource::Instance(_, _) => 1,
            ValueSource::Advice(_, _) => 2,
            ValueSource::Intermediate(_) => 3,
            ValueSource::Constant(_) => 4,
            ValueSource::Challenge(_) => 5,
            _ => 6,
        }
    }

    /// The index of what it refers to.
    pub open spec fn index(self) -> usize {
        match self {
            ValueSource::Fixed(c, _) => c,
            ValueSource::Instance(c, _) => c,
            ValueSource::Advice(c, _) => c,
            ValueSource::Intermediate(i) => i,
            ValueSource::Constant(i) => i,
            ValueSource::Challenge(i) => i,
            _ => 0,
        }
    }

    /// The rotation of the cell that it refers to.
    pub open spec fn rotation(self, rotations: Seq<i32>) -> i32 {
        match self {
            ValueSource::Fixed(_, at) => rotations[at as int],
            ValueSource::Instance(_, at) => rotations[at as int],
            ValueSource::Advice(_, at) => rotations[at as int],
            _ => 0,
        }
    }

    /// The packed source.
    pub open spec fn packed(self, rotations: Seq<i32>) -> u64 {
        packed_source(
            self.tag(),
            self.index() as u64,
            magnitude(self.rotation(rotations)),
            sign_bit(self.rotation(rotations)),
        )
    }

    /// Whether the source can be packed: runtime scalars cannot, and a rotation
    /// must be there.
    pub open spec fn encodable(self, rotations: Seq<i32>) -> bool {
        match self {
            ValueSource::Fixed(_, at) => at < rotations.len(),
            ValueSource::Instance(_, at) => at < rotations.len(),
            ValueSource::Advice(_, at) => at < rotations.len(),
            ValueSource::Intermediate(_) => true,
            ValueSource::Constant(_) => true,
            ValueSource::Challenge(_) => true,
            _ => false,
        }
    }

    pub fn encode(&self, rotations: &[i32]) -> (r: u64)
        requires
            self.encodable(rotations@),
        ensures
            r == self.packed(rotations@),
    {
        let zero: i32 = 0;
        let (src, idx, rotation): (u64, usize, i32) = match self {
            ValueSource::Fixed(column_index, rotation) => (0, *column_index, rotations[*rotation]),
            ValueSource::Instance(column_index, rotation) => (
                1,
                *column_index,
                rotations[*rotation],
            ),
            ValueSource::Advice(column_index, rotation) => (2, *column_index, rotations[*rotation]),
            ValueSource::Intermediate(idx) => (3, *idx, zero),
            ValueSource::Constant(idx) => (4, *idx, zero),
            ValueSource::Challenge(idx) => (5, *idx, zero),
            _ => (6, 0, zero),
        };
        let idx: u64 = idx as u64;
        let sign: u64 = if rotation < 0 {
            1
        } else {
            0
        };
        let abs: u64 = if rotation < 0 {
            (-(rotation as i64)) as u64
        } else {
            rotation as u64
        };
        // big-endian: 4-bit src | 20-bit idx | 15-bit rot abs | 1-bit rot sign, takes 40bit
        src | (idx << 4) | (abs << 24) | (sign << 39)
    }
}

/// The operands of a calculation, how each is multiplied, and whether the
/// result is multiplied by the second one.
pub struct Operation {
    pub a: u64,
    pub b: u64,
    pub c1: u64,
    pub c2: u64,
    pub d: u64,
}


/// An operation packed into 128 bits.
pub open spec fn packed_operation(op: Operation) -> u128 {
    (((op.a | (op.c1 << 40)) | (op.d << 44)) as u128) | (((op.b | (op.c2 << 40)) as u128) << 64)
}

impl CalculationModel {
    /// The calculation as one operation; Horner's rule is none.
    pub open spec fn operation(self, rotations: Seq<i32>) -> Operation {
        match self {
            CalculationModel::Add(a, b) => operation(
                a.packed(rotations),
                b.packed(rotations),
                CombineType::One,
                CombineType::One,
                CalcDegree::One,
            ),
            CalculationModel::Sub(a, b) => operation(
                a.packed(rotations),
                b.packed(rotations),
                CombineType::One,
                CombineType::NegOne,
                CalcDegree::One,
            ),
            CalculationModel::Mul(a, b) => operation(
                a.packed(rotations),
                b.packed(rotations),
                CombineType::One,
                CombineType::Zero,
                CalcDegree::Two,
            ),
            CalculationModel::Negate(a) => operation(
                a.packed(rotations),
                6,
                CombineType::NegOne,
                CombineType::Zero,
                CalcDegree::One,
            ),
            CalculationModel::Store(a) => operation(
                a.packed(rotations),
                6,
                CombineType::One,
                CombineType::Zero,
                CalcDegree::One,
            ),
            CalculationModel::Double(a) => operation(
                a.packed(rotations),
                6,
                CombineType::Two,
                CombineType::Zero,
                CalcDegree::One,
            ),
            CalculationModel::Square(a) => operation(
                a.packed(rotations),
                a.packed(rotations),
                CombineType::One,
                CombineType::Zero,
                CalcDegree::Two,
            ),
            CalculationModel::Horner(_, _, _) => operation(
                6,
                6,
                CombineType::Zero,
                CombineType::Zero,
                CalcDegree::One,
            ),
        }
    }

    /// The calculation packed as a rule.
    pub open spec fn rule(self, rotations: Seq<i32>) -> CalcRule {
        CalcRule(packed_operation(self.operation(rotations)))
    }

    /// Whether all sources of the calculation can be packed.
    pub open spec fn encodable(self, rotations: Seq<i32>) -> bool {
        forall|i: int|
            0 <= i < sources_of(self).len() ==> (#[trigger] sources_of(self)[i]).encodable(
                rotations,
            )
    }
}

/// An operation by the codes of its parts.
pub open spec fn operation(
    a: u64,
    b: u64,
    c1: CombineType,
    c2: CombineType,
    d: CalcDegree,
) -> Operation {
    Operation { a, b, c1: c1.spec_code(), c2: c2.spec_code(), d: d.spec_code() }
}

/// The packed sources.
pub open spec fn packed_sources(s: Seq<ValueSource>, rotations: Seq<i32>) -> Seq<u64> {
    Seq::new(s.len(), |i: int| s[i].packed(rotations))
}

/// Whether all the sources can be packed.
pub open spec fn all_encodable(s: Seq<ValueSource>, rotations: Seq<i32>) -> bool {
    forall|i: int| 0 <= i < s.len() ==> (#[trigger] s[i]).encodable(rotations)
}

impl Calculation {
    /// Packs a calculation other than Horner's rule.
    pub fn encode(&self, rotations: &[i32]) -> (r: CalcRule)
        requires
            !(self@ is Horner),
            self@.encodable(rotations@),
        ensures
            r == self@.rule(rotations@),
    {
        let dummy_var: u64 = 6;
        let ghost s = sources_of(self@);
        let (a, b, c1, c2, d): (u64, u64, CombineType, CombineType, CalcDegree) = match self {
            Calculation::Add(a, b) => {
                assert(s[0] == *a && s[1] == *b);
                (
                    a.encode(rotations),
                    b.encode(rotations),
                    CombineType::One,
                    CombineType::One,
                    CalcDegree::One,
                )
            },
            Calculation::Sub(a, b) => {
                assert(s[0] == *a && s[1] == *b);
                (
                    a.encode(rotations),
                    b.encode(rotations),
                    CombineType::One,
                    CombineType::NegOne,
                    CalcDegree::One,
                )
            },
            Calculation::Mul(a, b) => {
                assert(s[0] == *a && s[1] == *b);
                (
                    a.encode(rotations),
                    b.encode(rotations),
                    CombineType::One,
                    CombineType::Zero,
                    CalcDegree::Two,
                )
            },
            Calculation::Negate(a) => {
                assert(s[0] == *a);
                (
                    a.encode(rotations),
                    dummy_var,
                    CombineType::NegOne,
                    CombineType::Zero,
                    CalcDegree::One,
                )
            },
            Calculation::Store(a) => {
                assert(s[0] == *a);
                (
                    a.encode(rotations),
                    dummy_var,
                    CombineType::One,
                    CombineType::Zero,
                    CalcDegree::One,
                )
            },
            Calculation::Double(a) => {
                assert(s[0] == *a);
                (
                    a.encode(rotations),
                    dummy_var,
                    CombineType::Two,
                    CombineType::Zero,
                    CalcDegree::One,
                )
            },
            Calculation::Square(a) => {
                assert(s[0] == *a);
                (
                    a.encode(rotations),
                    a.encode(rotations),
                    CombineType::One,
                    CombineType::Zero,
                    CalcDegree::Two,
                )
            },
            Calculation::Horner(_, _, _) => (
                dummy_var,
                dummy_var,
                CombineType::Zero,
                CombineType::Zero,
                CalcDegree::One,
            ),
        };
        // a: 40bit | c1: 4bit | d: 4bit | reseverd: 16bit
        let rule1: u64 = a | (c1.code() << 40) | (d.code() << 44);
        // b: 40bit | c2: 4bit | reseverd: 20bit
        let rule2: u64 = b | (c2.code() << 40);
        let rule: u128 = (rule1 as u128) | ((rule2 as u128) << 64);
        CalcRule(rule)
    }

    /// Packs the parts of Horner's rule.
    pub fn encode_vp(&self, rotations: &[i32]) -> (r: Vec<u64>)
        requires
            self@ is Horner,
            all_encodable(self@->Horner_1, rotations@),
        ensures
            r@ == packed_sources(self@->Horner_1, rotations@),
    {
        match self {
            Calculation::Horner(_, parts, _) => encode_all(parts, rotations),
            _ => Vec::new(),
        }
    }
}

fn encode_all(parts: &Vec<ValueSource>, rotations: &[i32]) -> (r: Vec<u64>)
    requires
        all_encodable(parts@, rotations@),
    ensures
        r@ == packed_sources(parts@, rotations@),
{
    let mut out: Vec<u64> = Vec::new();
    let mut i: usize = 0;
    while i < parts.len()
        invariant
            i <= parts@.len(),
            all_encodable(parts@, rotations@),
            out@ == packed_sources(parts@.take(i as int), rotations@),
        decreases parts@.len() - i,
    {
        assert(parts@[i as int].encodable(rotations@));
        out.push(parts[i].encode(rotations));
        i += 1;
        assert(out@ =~= packed_sources(parts@.take(i as int), rotations@));
    }
    assert(parts@.take(i as int) =~= parts@);
    out
}

/// The rules of calculations.
pub open spec fn rules_of(s: Seq<CalculationModel>, rotations: Seq<i32>) -> Seq<CalcRule> {
    Seq::new(s.len(), |i: int| s[i].rule(rotations))
}

/// Whether calculations can be encoded: all but the last as rules, and the last
/// one, which is Horner's rule, by its parts.
pub open spec fn graph_encodable(s: Seq<CalculationModel>, rotations: Seq<i32>) -> bool {
    &&& s.len() > 0
    &&& s.last() is Horner
    &&& all_encodable(s.last()->Horner_1, rotations)
    &&& forall|i: int|
        0 <= i < s.len() - 1 ==> !((#[trigger] s[i]) is Horner) && s[i].encodable(rotations)
}

impl<F: Field> GraphEvaluator<F> {
    /// Serialise this graph's calculations into the device-consumable
    /// `(intermediate_rules, value_part_rules)` pair. The terminal
    /// `Horner` calculation is split off into `value_part_rules` via
    /// [`Calculation::encode_vp`]; all preceding calculations are
    /// packed into [`CalcRule`] entries via [`Calculation::encode`].
    /// See [`CalcRule`] for the on-wire layout.
    pub fn encode_for_device(&self) -> (r: (Vec<CalcRule>, Vec<u64>))
        requires
            graph_encodable(self@.calculations, self@.rotations),
        ensures
            r.0@ == rules_of(self@.calculations.drop_last(), self@.rotations),
            r.1@ == packed_sources(self@.calculations.last()->Horner_1, self@.rotations),
    {
        let n = self.calculations.len() - 1;
        let ghost s = self@.calculations;
        let mut intermediate_rules: Vec<CalcRule> = Vec::new();
        let mut i: usize = 0;
        while i < n
            invariant
                i <= n,
                n == self.calculations@.len() - 1,
                s == self@.calculations,
                graph_encodable(s, self@.rotations),
                intermediate_rules@ == rules_of(s.take(i as int), self@.rotations),
            decreases n - i,
        {
            assert(!(s[i as int] is Horner) && s[i as int].encodable(self@.rotations));
            assert(s[i as int] == self.calculations@[i as int].calculation@);
            intermediate_rules.push(self.calculations[i].calculation.encode(&self.rotations));
            i += 1;
            assert(intermediate_rules@ =~= rules_of(s.take(i as int), self@.rotations));
        }
        assert(s.take(n as int) =~= s.drop_last());
        assert(s.last() == self.calculations@[n as int].calculation@);
        let value_part_rules = self.calculations[n].calculation.encode_vp(&self.rotations);
        (intermediate_rules, value_part_rules)
    }
}

impl<F: Field> Evaluator<F> {
    /// Serialises the graph of the custom gates.
    pub fn encode(&self) -> (r: (Vec<CalcRule>, Vec<u64>))
        requires
            graph_encodable(self.custom_gates@.calculations, self.custom_gates@.rotations),
        ensures
            r.0@ == rules_of(
                self.custom_gates@.calculations.drop_last(),
                self.custom_gates@.rotations,
            ),
            r.1@ == packed_sources(
                self.custom_gates@.calculations.last()->Horner_1,
                self.custom_gates@.rotations,
            ),
    {
        self.custom_gates.encode_for_device()
    }
}

/// The tag of a packed source.
pub open spec fn tag_of(rule: u64) -> u64 {
    rule & 0x0f
}

/// The index of a packed source.
pub open spec fn index_of(rule: u64) -> u64 {
    (rule >> 4) & 0xf_ffff
}

/// The magnitude of the rotation of a packed source.
pub open spec fn magnitude_of(rule: u64) -> u64 {
    (rule >> 24) & 0x7fff
}

/// The sign bit of the rotation of a packed source.
pub open spec fn sign_of(rule: u64) -> u64 {
    (rule >> 39) & 1
}

/// The rotation of a packed source.
pub open spec fn rotation_of(rule: u64) -> int {
    if sign_of(rule) == 0 {
        magnitude_of(rule) as int
    } else {
        -(magnitude_of(rule) as int)
    }
}

/// The parts of a packed operation.
pub open spec fn operation_of(rule: u128) -> Operation {
    let low = rule as u64;
    let high = (rule >> 64) as u64;
    Operation {
        a: low & 0xff_ffff_ffff,
        b: high & 0xff_ffff_ffff,
        c1: (low >> 40) & 0xf,
        c2: (high >> 40) & 0xf,
        d: (low >> 44) & 0xf,
    }
}

/// Reading a packed source gives back what was packed, as long as the index
/// has 20 bits and the rotation 15.
pub proof fn law_source_round_trip(s: ValueSource, rotations: Seq<i32>)
    requires
        s.index() < 0x10_0000,
        -0x8000 < s.rotation(rotations) < 0x8000,
    ensures
        tag_of(s.packed(rotations)) == s.tag(),
        index_of(s.packed(rotations)) == s.index(),
        rotation_of(s.packed(rotations)) == s.rotation(rotations),
        s.packed(rotations) < 0x100_0000_0000,
{
    let tag = s.tag();
    let idx = s.index() as u64;
    let abs = magnitude(s.rotation(rotations));
    let sign = sign_bit(s.rotation(rotations));
    lemma_packed_source(tag, idx, abs, sign);
}

proof fn lemma_packed_source(tag: u64, idx: u64, abs: u64, sign: u64)
    by (bit_vector)
    requires
        tag < 16,
        idx < 0x10_0000,
        abs < 0x8000,
        sign < 2,
    ensures
        packed_source(tag, idx, abs, sign) & 0x0f == tag,
        (packed_source(tag, idx, abs, sign) >> 4) & 0xf_ffff == idx,
        (packed_source(tag, idx, abs, sign) >> 24) & 0x7fff == abs,
        (packed_source(tag, idx, abs, sign) >> 39) & 1 == sign,
        packed_source(tag, idx, abs, sign) < 0x100_0000_0000,
{
}

/// Reading a packed operation gives back its parts, as long as the operands
/// have 40 bits and the codes four.
pub proof fn law_operation_round_trip(op: Operation)
    requires
        op.a < 0x100_0000_0000,
        op.b < 0x100_0000_0000,
        op.c1 < 16,
        op.c2 < 16,
        op.d < 16,
    ensures
        operation_of(packed_operation(op)) == op,
{
    lemma_packed_operation(op.a, op.b, op.c1, op.c2, op.d);
}

proof fn lemma_packed_operation(a: u64, b: u64, c1: u64, c2: u64, d: u64)
    by (bit_vector)
    requires
        a < 0x100_0000_0000,
        b < 0x100_0000_0000,
        c1 < 16,
        c2 < 16,
        d < 16,
    ensures
        ({
            let rule: u128 = (((a | (c1 << 40)) | (d << 44)) as u128) | (((b | (c2 << 40)) as u128)
                << 64);
            let low = rule as u64;
            let high = (rule >> 64) as u64;
            &&& low & 0xff_ffff_ffff == a
            &&& high & 0xff_ffff_ffff == b
            &&& (low >> 40) & 0xf == c1
            &&& (high >> 40) & 0xf == c2
            &&& (low >> 44) & 0xf == d
        }),
{
}

} // verus!
