use halo2_gpu::field::bn256::Fr;
use halo2_gpu::field::Field;
use halo2_gpu::plonk::constraint_system::{GpuConstraint, GpuConstraintSystem};
use halo2_gpu::plonk::encoding::CalcRule;
use halo2_gpu::plonk::evaluator::Evaluator;
use halo2_gpu::plonk::expression::GpuExpression;
use halo2_gpu::plonk::graph::{Calculation, GraphEvaluator, ValueSource};
use halo2_gpu::poly::{LagrangeCoeff, Polynomial, Rotation};

fn f(v: u64) -> Fr {
    Fr::from_u64(v)
}

/// Unpacks the 40-bit packed format emitted by `ValueSource::encode`.
fn decode_value_source(rule: u64) -> (u32, u32, i32) {
    let src = (rule & 0x0f) as u32;
    let idx = ((rule >> 4) & 0xf_ffff) as u32;
    let rot_abs = ((rule >> 24) & 0x7fff) as u32;
    let rot_sign = ((rule >> 39) & 0x1) as u32;
    let rotation = if rot_sign == 0 { rot_abs as i32 } else { -(rot_abs as i32) };
    (src, idx, rotation)
}

/// Split a 128-bit packed `CalcRule` into its (a, c1, d, b, c2) fields
/// using the same layout as `Calculation::encode`.
fn split_calc_rule(rule: u128) -> (u64, u32, u32, u64, u32) {
    let lo = rule as u64;
    let hi = (rule >> 64) as u64;
    let a = lo & 0xff_ffff_ffff;
    let c1 = ((lo >> 40) & 0xf) as u32;
    let d = ((lo >> 44) & 0xf) as u32;
    let b = hi & 0xff_ffff_ffff;
    let c2 = ((hi >> 40) & 0xf) as u32;
    (a, c1, d, b, c2)
}

#[test]
fn test_encode_for_device_roundtrip() {
    // Source-code tags must match `ValueSource::encode`.
    const SRC_FIXED: u32 = 0;
    const SRC_INSTANCE: u32 = 1;
    const SRC_ADVICE: u32 = 2;
    const SRC_INTERMEDIATE: u32 = 3;
    // CombineType tags must match the order in
    // `Calculation::encode` (Zero, One, NegOne, Two).
    const C_ZERO: u32 = 0;
    const C_ONE: u32 = 1;
    const C_NEG_ONE: u32 = 2;
    // CalcDegree tags must match the order in
    // `Calculation::encode` (One, Two).
    const D_ONE: u32 = 0;
    const D_TWO: u32 = 1;

    // -------- Lookup-compress shape: Horner(Constant(0), parts, Y())
    //
    // Mirror what `for_compress` produces for a three-expression
    // lookup with mixed column kinds and rotation signs.
    let mut graph_lookup: GraphEvaluator<Fr> = GraphEvaluator::default();
    let rot_zero = graph_lookup.add_rotation(&Rotation(0));
    let rot_plus = graph_lookup.add_rotation(&Rotation(1));
    let rot_minus = graph_lookup.add_rotation(&Rotation(-1));
    let p0 = graph_lookup.add_calculation(Calculation::Store(ValueSource::Fixed(7, rot_zero)));
    let p1 = graph_lookup.add_calculation(Calculation::Store(ValueSource::Advice(3, rot_plus)));
    let p2 = graph_lookup.add_calculation(Calculation::Store(ValueSource::Instance(2, rot_minus)));
    graph_lookup.add_calculation(Calculation::Horner(
        ValueSource::Constant(0),
        vec![p0, p1, p2],
        ValueSource::Y(),
    ));

    let (rules_lookup, vp_lookup) = graph_lookup.encode_for_device();
    assert_eq!(rules_lookup.len(), 3);
    assert_eq!(vp_lookup.len(), 3);

    // Each intermediate is a Store: (c1, c2, d) = (One, Zero, One).
    let expected_operands: [(u32, u32, i32); 3] =
        [(SRC_FIXED, 7, 0), (SRC_ADVICE, 3, 1), (SRC_INSTANCE, 2, -1)];
    for (rule, &(want_src, want_idx, want_rot)) in rules_lookup.iter().zip(expected_operands.iter())
    {
        let (a, c1, d, _b, c2) = split_calc_rule(rule.0);
        assert_eq!(decode_value_source(a), (want_src, want_idx, want_rot));
        assert_eq!((c1, c2, d), (C_ONE, C_ZERO, D_ONE));
    }
    // Horner parts reference the three Stores above as Intermediates 0..2.
    for (i, &vp) in vp_lookup.iter().enumerate() {
        let (src, idx, rot) = decode_value_source(vp);
        assert_eq!(src, SRC_INTERMEDIATE);
        assert_eq!(idx as usize, i);
        assert_eq!(rot, 0);
    }

    // -------- Custom-gate shape: Horner(PreviousValue(), parts, Y())
    //
    // Exercise Add / Negate / Mul operator codes and confirm the
    // packed (c1, c2, d) triples match the encode tables.
    let mut graph_gate: GraphEvaluator<Fr> = GraphEvaluator::default();
    let rot_g = graph_gate.add_rotation(&Rotation(0));
    let const_42 = graph_gate.add_constant(&f(42));
    let fixed_ref = graph_gate.add_calculation(Calculation::Store(ValueSource::Fixed(0, rot_g)));
    let adv_ref = graph_gate.add_calculation(Calculation::Store(ValueSource::Advice(1, rot_g)));
    let sum = graph_gate.add_calculation(Calculation::Add(fixed_ref, adv_ref));
    let neg = graph_gate.add_calculation(Calculation::Negate(sum));
    let prod = graph_gate.add_calculation(Calculation::Mul(neg, const_42));
    graph_gate.add_calculation(Calculation::Horner(
        ValueSource::PreviousValue(),
        vec![prod],
        ValueSource::Y(),
    ));

    let (rules_gate, vp_gate) = graph_gate.encode_for_device();
    assert_eq!(rules_gate.len(), 5);
    assert_eq!(vp_gate.len(), 1);

    // Add: (One, One, One)
    let (_, c1_a, d_a, _, c2_a) = split_calc_rule(rules_gate[2].0);
    assert_eq!((c1_a, c2_a, d_a), (C_ONE, C_ONE, D_ONE));
    // Negate: (NegOne, Zero, One)
    let (_, c1_n, d_n, _, c2_n) = split_calc_rule(rules_gate[3].0);
    assert_eq!((c1_n, c2_n, d_n), (C_NEG_ONE, C_ZERO, D_ONE));
    // Mul: (One, Zero, Two)
    let (_, c1_m, d_m, _, c2_m) = split_calc_rule(rules_gate[4].0);
    assert_eq!((c1_m, c2_m, d_m), (C_ONE, C_ZERO, D_TWO));

    // The Mul's output (Intermediate(4)) is the only Horner part.
    let (vs, vi, vr) = decode_value_source(vp_gate[0]);
    assert_eq!((vs, vi, vr), (SRC_INTERMEDIATE, 4, 0));

    // -------- Evaluator::encode delegates to encode_for_device on
    // the custom_gates graph; verify byte-identical output.
    let mut cs = GpuConstraintSystem::<Fr>::default();
    let a = cs.advice_column();
    let b = cs.advice_column();
    cs.create_gate("ab", |meta| {
        let qa = meta.query_advice(a, Rotation::cur());
        let qb = meta.query_advice(b, Rotation::next());
        vec![GpuConstraint::from(qa * qb)]
    });
    let ev = Evaluator::<Fr>::new(&cs);
    let (rules_ev, vp_ev) = ev.encode();
    let (rules_direct, vp_direct) = ev.custom_gates.encode_for_device();
    assert_eq!(vp_ev, vp_direct);
    assert_eq!(rules_ev.len(), rules_direct.len());
    for (lhs, rhs) in rules_ev.iter().zip(rules_direct.iter()) {
        assert_eq!(lhs.0, rhs.0);
    }
}

/// Mirror of the kernel's per-row evaluation tape.
fn cpu_evaluate_from_encoding(
    constants: &[Fr],
    intermediate_rules: &[CalcRule],
    value_part_rules: &[u64],
    horner_factor: Fr,
    fixed: &[Vec<Fr>],
    instance: &[Vec<Fr>],
    advice: &[Vec<Fr>],
    challenges: &[Fr],
    row: i32,
    isize: i32,
) -> Fr {
    let row_lookup = |row: i32| -> usize { row.rem_euclid(isize) as usize };
    let read_vs = |encoded: u64, intermediates: &[Fr]| -> Fr {
        // Both operands are read unconditionally; unused slots hold a
        // placeholder that decodes as Instance/idx=0/rot=0.
        let (src, idx, rotation) = decode_value_source(encoded);
        let oob = f(0);
        let at = |columns: &[Vec<Fr>]| {
            columns.get(idx as usize).map(|col| col[row_lookup(row + rotation)]).unwrap_or(oob)
        };
        match src {
            0 => at(fixed),
            1 => at(instance),
            2 => at(advice),
            3 => intermediates[idx as usize],
            4 => constants[idx as usize],
            5 => challenges.get(idx as usize).copied().unwrap_or(oob),
            6 => f(0),
            _ => unreachable!(),
        }
    };
    let combines = [f(0), f(1), f(1).neg(), f(2)];

    let mut intermediates: Vec<Fr> = vec![f(0); intermediate_rules.len()];
    for (i, rule) in intermediate_rules.iter().enumerate() {
        let (a_enc, c1, d, b_enc, c2) = split_calc_rule(rule.0);
        let a = read_vs(a_enc, &intermediates);
        let b = read_vs(b_enc, &intermediates);
        let c1_val = combines[c1 as usize];
        let c2_val = combines[c2 as usize];
        let factor_b = if d == 1 { b } else { f(1) };
        intermediates[i] = c1_val.mul(&a).add(&c2_val.mul(&b)).mul(&factor_b);
    }
    let mut val = f(0);
    for &vp in value_part_rules.iter() {
        let (src, idx, _) = decode_value_source(vp);
        let part = if src == 4 { constants[idx as usize] } else { intermediates[idx as usize] };
        val = val.mul(&horner_factor).add(&part);
    }
    val
}

fn polys(columns: &[Vec<Fr>]) -> Vec<Polynomial<Fr, LagrangeCoeff>> {
    columns.iter().map(|v| Polynomial::new(v.clone())).collect()
}

#[test]
fn test_encode_for_device_with_runtime_constants_lookup_shape() {
    // Mirror Evaluator::new's lookup-graph shape: two compressed-lc
    // sub-Horners over theta, then terminal
    // Mul(Add(input, Beta), Add(table, Gamma)).
    let mut graph: GraphEvaluator<Fr> = GraphEvaluator::default();
    let rot_zero = graph.add_rotation(&Rotation(0));
    let in0 = graph.add_calculation(Calculation::Store(ValueSource::Advice(0, rot_zero)));
    let in1 = graph.add_calculation(Calculation::Store(ValueSource::Advice(1, rot_zero)));
    let in2 = graph.add_calculation(Calculation::Store(ValueSource::Advice(2, rot_zero)));
    let t0 = graph.add_calculation(Calculation::Store(ValueSource::Fixed(0, rot_zero)));
    let t1 = graph.add_calculation(Calculation::Store(ValueSource::Fixed(1, rot_zero)));
    let t2 = graph.add_calculation(Calculation::Store(ValueSource::Fixed(2, rot_zero)));
    let compressed_input = graph.add_calculation(Calculation::Horner(
        ValueSource::Constant(0),
        vec![in0, in1, in2],
        ValueSource::Theta(),
    ));
    let compressed_table = graph.add_calculation(Calculation::Horner(
        ValueSource::Constant(0),
        vec![t0, t1, t2],
        ValueSource::Theta(),
    ));
    let lc = graph.add_calculation(Calculation::Add(compressed_input, ValueSource::Beta()));
    let rhs = graph.add_calculation(Calculation::Add(compressed_table, ValueSource::Gamma()));
    graph.add_calculation(Calculation::Mul(lc, rhs));

    let theta = f(7);
    let beta = f(11);
    let gamma = f(13);
    let y = f(17);

    let (extended_constants, rules, vp_rules) =
        graph.encode_for_device_with_runtime_constants(theta, beta, gamma, y);

    // The first len(constants) entries must equal the original
    // pool; the last four entries are theta/beta/gamma/y.
    assert_eq!(&extended_constants[..graph.constants.len()], &graph.constants[..]);
    assert_eq!(&extended_constants[graph.constants.len()..], &[theta, beta, gamma, y][..]);
    // No CalcRule may carry a Beta/Gamma/Theta/Y src tag; each operand's src
    // must be in {Fixed, Instance, Advice, Intermediate, Constant, Challenge}.
    for rule in &rules {
        let (a, _, _, b, _) = split_calc_rule(rule.0);
        let (src_a, _, _) = decode_value_source(a);
        let (src_b, _, _) = decode_value_source(b);
        assert!(src_a <= 6);
        assert!(src_b <= 6);
    }
    // All value-part refs must resolve to Intermediate or Constant.
    assert_eq!(vp_rules.len(), 1);
    let (src, _, _) = decode_value_source(vp_rules[0]);
    assert!(src == 3 || src == 4);

    // Semantic equivalence: build per-row inputs and check that the
    // mirror of the kernel over `(constants, rules, vp_rules)`
    // matches `Calculation::evaluate` on the original graph.
    let isize_n = 16i32;
    let advice_cols: Vec<Vec<Fr>> =
        (0..3).map(|c| (0..isize_n).map(|r| f((c * 100 + r) as u64)).collect()).collect();
    let fixed_cols: Vec<Vec<Fr>> =
        (0..3).map(|c| (0..isize_n).map(|r| f((c * 1000 + r) as u64 + 1)).collect()).collect();

    let fixed_polys = polys(&fixed_cols);
    let advice_polys = polys(&advice_cols);

    for row in 0..isize_n {
        let cpu_decoded = cpu_evaluate_from_encoding(
            &extended_constants,
            &rules,
            &vp_rules,
            f(0),
            &fixed_cols,
            &[],
            &advice_cols,
            &[],
            row,
            isize_n,
        );
        let mut data = graph.instance();
        for (idx, rot) in graph.rotations.iter().enumerate() {
            let r = (row + rot).rem_euclid(isize_n);
            data.rotations[idx] = r as usize;
        }
        let mut last = f(0);
        for info in &graph.calculations {
            last = info.calculation.evaluate(
                &data.rotations,
                &graph.constants,
                &data.intermediates,
                &fixed_polys,
                &advice_polys,
                &[],
                &[],
                &beta,
                &gamma,
                &theta,
                &y,
                &f(0),
            );
            data.intermediates[info.target] = last;
        }
        assert_eq!(cpu_decoded, last, "row {} mismatch", row);
    }
}

#[test]
fn test_eval() {
    let mut cs = GpuConstraintSystem::<Fr>::default();

    let a = cs.advice_column();
    let b = cs.advice_column();
    let c = cs.instance_column();

    cs.create_gate("sum_and_square", |cs| {
        let qa = cs.query_advice(a, Rotation::cur());
        let qb = cs.query_advice(b, Rotation::cur());
        let qc = cs.query_instance(c, Rotation::next());

        let sum_qa_qb = qa + qb;
        let qc_squared = qc.clone() * qc.clone();
        let qc_cubed = qc_squared * qc;
        let ret = sum_qa_qb.clone() * sum_qa_qb + qc_cubed;
        vec![GpuConstraint::from(ret)]
    });

    let evaluator = Evaluator::<Fr>::new(&cs);
    println!("{:?}", evaluator);
}

#[test]
fn test_evaluate_h() {
    let mut cs = GpuConstraintSystem::<Fr>::default();
    let n = 32;
    let advice_cols = (0..n).map(|_| cs.advice_column()).collect::<Vec<_>>();
    let coeff_cols = (0..n).map(|_| cs.fixed_column()).collect::<Vec<_>>();
    let coeff_next_col = cs.fixed_column();
    let byte_selector = cs.fixed_column();
    let byte_table = cs.lookup_table_column();

    cs.create_gate("linear combine", |cells| {
        let q_advices = advice_cols
            .iter()
            .map(|adv| cells.query_advice(*adv, Rotation::cur()))
            .collect::<Vec<_>>();
        let q_coeffs = coeff_cols
            .iter()
            .map(|fixed| cells.query_fixed(*fixed, Rotation::cur()))
            .collect::<Vec<_>>();
        let q_coeff_next = cells.query_fixed(coeff_next_col, Rotation::cur());
        let q_advice_next = cells.query_advice(advice_cols[n - 1], Rotation::next());

        let expr = q_advice_next * q_coeff_next;
        let expr = q_advices
            .iter()
            .zip(q_coeffs.iter().skip(1))
            .fold(expr, |acc, (adv, coeff)| acc + adv.clone() * coeff.clone());
        vec![GpuConstraint::from(expr)]
    });
    cs.lookup("byte table lookup", |cells| {
        let q_byte = cells.query_fixed(byte_selector, Rotation::cur());
        advice_cols
            .iter()
            .map(|adv| {
                let q_adv = cells.query_advice(*adv, Rotation::cur());
                (q_byte.clone() * q_adv, byte_table)
            })
            .collect::<Vec<_>>()
    });

    let mut evaluator = Evaluator::<Fr>::new(&cs);

    let vp = evaluator.custom_gates.calculations.last_mut().unwrap();
    match &mut vp.calculation {
        Calculation::Horner(_value, parts, _y) => {
            parts.push(ValueSource::Intermediate(120));
        }
        _ => unreachable!("{:?}", vp.calculation),
    }

    let (intermediate_rules, value_part_rules) = evaluator.encode();

    let num_rows = 1 << 7;
    let num_fixed = 3 + coeff_cols.len();
    let gen_rows = |num_cols: usize| {
        (0..num_cols)
            .map(|i| (0..num_rows).map(|j| f((num_rows * i + j) as u64)).collect::<Vec<_>>())
            .collect::<Vec<_>>()
    };
    let fixed = gen_rows(num_fixed);
    let instance = gen_rows(0);
    let advices = gen_rows(advice_cols.len());
    let (fixed_polys, instance_polys, advice_polys) =
        (polys(&fixed), polys(&instance), polys(&advices));
    let challenges = vec![f(1), f(2), f(3)];
    let (beta, theta, gamma, y) = (f(2), f(3), f(4), f(1));

    let custom_gates = &evaluator.custom_gates;
    for i in 0..num_rows {
        let mut data = custom_gates.instance();
        let value = custom_gates.evaluate(
            &mut data,
            &fixed_polys,
            &advice_polys,
            &instance_polys,
            &challenges,
            &beta,
            &gamma,
            &theta,
            &y,
            &f(0),
            i,
            1,
            num_rows as i32,
        );
        let from_tape = cpu_evaluate_from_encoding(
            &custom_gates.constants,
            &intermediate_rules,
            &value_part_rules,
            y,
            &fixed,
            &instance,
            &advices,
            &challenges,
            i as i32,
            num_rows as i32,
        );
        assert_eq!(value, from_tape, "i = {}", i);
    }
}

#[test]
fn expressions_have_values_degrees_and_names() {
    let mut cs = GpuConstraintSystem::<Fr>::default();
    let a = cs.advice_column();
    let b = cs.fixed_column();
    let e: GpuExpression<Fr> = a.cur() * b.next() + GpuExpression::Constant(f(5));
    assert_eq!(e.degree(), 2);
    assert_eq!(e.complexity(), 1 + 1 + 30 + 15);
    assert_eq!(
        (a.cur::<Fr>() * b.rot(-1)).identifier(),
        "(advice[0][0]*fixed[0][-1])"
    );
    let value = halo2_gpu::plonk::evaluation::evaluate(
        &e,
        4,
        1,
        &polys(&[vec![f(10), f(20), f(30), f(40)]]),
        &polys(&[vec![f(1), f(2), f(3), f(4)]]),
        &[],
        &[],
    );
    // Row 3 wraps around to row 0 of the fixed column.
    assert_eq!(value, vec![f(25), f(65), f(125), f(45)]);
}

#[test]
fn a_last_horner_may_start_from_the_previous_value() {
    let mut graph: GraphEvaluator<Fr> = GraphEvaluator::default();
    let rot = graph.add_rotation(&Rotation(0));
    let stored = graph.add_calculation(Calculation::Store(ValueSource::Fixed(0, rot)));
    graph.add_calculation(Calculation::Horner(
        ValueSource::PreviousValue(),
        vec![stored],
        ValueSource::Y(),
    ));
    let (constants, rules, parts) =
        graph.encode_for_device_with_runtime_constants(f(1), f(2), f(3), f(4));
    assert_eq!(constants, vec![f(0), f(1), f(2), f(1), f(2), f(3), f(4)]);
    assert_eq!(rules.len(), 1);
    assert_eq!(parts.len(), 1);
    assert_eq!(decode_value_source(parts[0]), (3, 0, 0));
    let (plain_rules, plain_parts) = graph.encode_for_device();
    assert_eq!(plain_rules[0].0, rules[0].0);
    assert_eq!(plain_rules.len(), 1);
    assert_eq!(plain_parts, parts);
}

#[test]
fn graphs_hold_nothing_twice() {
    let mut cs = GpuConstraintSystem::<Fr>::default();
    let a = cs.advice_column();
    let e: GpuExpression<Fr> = a.cur() * a.next() + a.next() * a.cur()
        + GpuExpression::Constant(f(7)) * a.cur()
        + GpuExpression::Constant(f(7));
    let mut graph: GraphEvaluator<Fr> = GraphEvaluator::default();
    let first = graph.add_expression(&e);
    let (constants, rotations, calculations) =
        (graph.constants.len(), graph.rotations.len(), graph.calculations.len());
    assert_eq!((constants, rotations), (4, 2));
    assert_eq!(graph.add_expression(&e), first);
    assert_eq!(graph.constants.len(), constants);
    assert_eq!(graph.rotations.len(), rotations);
    assert_eq!(graph.calculations.len(), calculations);
    assert_eq!(graph.num_intermediates, calculations);
}

#[test]
fn identical_identifiers_do_the_same_calculation() {
    let mut cs = GpuConstraintSystem::<Fr>::default();
    let a = cs.advice_column();
    let (two, three) = (f(2), f(3));
    // (a * 2) * 3 and a * (2 * 3) read the same.
    let left = GpuExpression::Product(
        Box::new(GpuExpression::Scaled(Box::new(a.cur::<Fr>()), two)),
        Box::new(GpuExpression::Constant(three)),
    );
    let right = GpuExpression::Product(
        Box::new(a.cur::<Fr>()),
        Box::new(GpuExpression::Scaled(Box::new(GpuExpression::Constant(two)), three)),
    );
    assert_eq!(left.identifier(), right.identifier());
    let column = Polynomial::<Fr, LagrangeCoeff>::new(vec![f(5), f(6)]);
    let columns = [column];
    let value = |e: &GpuExpression<Fr>| {
        halo2_gpu::plonk::evaluation::evaluate(e, 2, 1, &[], &columns, &[], &[])
    };
    assert_eq!(value(&left), vec![f(30), f(36)]);
    assert_eq!(value(&left), value(&right));
}
