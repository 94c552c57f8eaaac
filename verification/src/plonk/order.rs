//! Where everything stands in a proof, position by position.

use crate::field::Field;
use crate::plonk::{lookup, permutation};
use crate::plonk::constraint_system::GpuConstraintSystem;
use crate::plonk::lookup::prover::LookupPoly;
use crate::plonk::permutation::prover::chunk_count;
use crate::plonk::prover::{
    advice_opened, column_scalars, common_opened, fixed_opened, instance_opened, instance_scalars,
    lookup_opened, lookups_opened, next_phase_order, permutation_draws, permutation_steps,
    permuted_steps, product_steps, products_opened, quotient_draws, quotient_steps,
    raw_advice_order, shape_of, written, Blinded, ChallengeName, Committed, Opened, ProofShape,
    ProofStep,
};
use crate::plonk::witness::in_phase;
use crate::poly::Rotation;
use vstd::prelude::*;

verus! {

/// The values of the instances are hashed column by column, and each column row by row:
/// a value of an earlier column, or of an earlier row of the same column, comes first.
/// Every value of every column is hashed, and nothing else.
pub proof fn law_instances_in_order<F>(
    instances: Seq<Vec<F>>,
    i: int,
    j: int,
    column: usize,
    row: usize,
)
    requires
        instances.len() <= usize::MAX,
    ensures
        0 <= i < j < instance_scalars(instances).len() ==> (instance_scalars(
            instances,
        )[i] matches ProofStep::CommonScalar(c, r) && instance_scalars(
            instances,
        )[j] matches ProofStep::CommonScalar(d, s) && (c < d || c == d && r < s)),
        instance_scalars(instances).contains(ProofStep::CommonScalar(column, row)) <==> column
            < instances.len() && row < instances[column as int]@.len(),
        0 <= i < instance_scalars(instances).len() ==> instance_scalars(
            instances,
        )[i] is CommonScalar,
{
    lemma_scalars(instances);
}

proof fn lemma_scalars<F>(instances: Seq<Vec<F>>)
    requires
        instances.len() <= usize::MAX,
    ensures
        ({
            let all = instance_scalars(instances);
            &&& forall|i: int|
                0 <= i < all.len() ==> (#[trigger] all[i] matches ProofStep::CommonScalar(c, r) && c
                    < instances.len() && r < instances[c as int]@.len())
            &&& forall|i: int, j: int|
                0 <= i < j < all.len() ==> (#[trigger] all[i]->CommonScalar_0
                    < #[trigger] all[j]->CommonScalar_0 || all[i]->CommonScalar_0
                    == all[j]->CommonScalar_0 && all[i]->CommonScalar_1 < all[j]->CommonScalar_1)
            &&& forall|c: usize, r: usize|
                c < instances.len() && r < instances[c as int]@.len() ==> #[trigger] all.contains(
                    ProofStep::CommonScalar(c, r),
                )
        }),
    decreases instances.len(),
{
    let all = instance_scalars(instances);
    if instances.len() > 0 {
        let front = instances.drop_last();
        lemma_scalars(front);
        let before = instance_scalars(front);
        let m = instances.len() - 1;
        let last = instances.last();
        assert(last.len() == last@.len());
        let part = column_scalars(m, last@.len());
        assert(all == before + part);
        assert forall|i: int| 0 <= i < all.len() implies (
        #[trigger] all[i] matches ProofStep::CommonScalar(c, r) && c < instances.len() && r
            < instances[c as int]@.len()) by {
            if i < before.len() {
                assert(all[i] == before[i]);
                assert(front[before[i]->CommonScalar_0 as int]
                    == instances[before[i]->CommonScalar_0 as int]);
            } else {
                assert(all[i] == part[i - before.len()]);
            }
        }
        assert forall|i: int, j: int| 0 <= i < j < all.len() implies (
        #[trigger] all[i]->CommonScalar_0 < #[trigger] all[j]->CommonScalar_0
            || all[i]->CommonScalar_0 == all[j]->CommonScalar_0 && all[i]->CommonScalar_1
            < all[j]->CommonScalar_1) by {
            if j < before.len() {
                assert(all[i] == before[i] && all[j] == before[j]);
            } else if i < before.len() {
                assert(all[i] == before[i] && all[j] == part[j - before.len()]);
            } else {
                assert(all[i] == part[i - before.len()] && all[j] == part[j - before.len()]);
            }
        }
        assert forall|c: usize, r: usize|
            c < instances.len() && r
                < instances[c as int]@.len() implies #[trigger] all.contains(
            ProofStep::CommonScalar(c, r),
        ) by {
            let step = ProofStep::CommonScalar(c, r);
            if c < m {
                assert(front[c as int] == instances[c as int]);
                assert(before.contains(step));
                let i = choose|i: int| 0 <= i < before.len() && before[i] == step;
                assert(all[i] == step);
            } else {
                assert(part[r as int] == step);
                assert(all[before.len() + r] == step);
            }
        }
    }
}

/// Whether a list holds a part at a position.
#[verifier::opaque]
spec fn holds_part<T>(whole: Seq<T>, at: int, part: Seq<T>) -> bool {
    &&& 0 <= at
    &&& at + part.len() <= whole.len()
    &&& forall|k: int| 0 <= k < part.len() ==> #[trigger] whole[at + k] == part[k]
}

/// A part of a list behind a first part.
proof fn lemma_at<T>(before: Seq<T>, part: Seq<T>, whole: Seq<T>)
    requires
        (before + part).is_prefix_of(whole),
    ensures
        before.is_prefix_of(whole),
        holds_part(whole, before.len() as int, part),
{
    reveal(holds_part);
    let both = before + part;
    assert forall|k: int| 0 <= k < part.len() implies #[trigger] whole[before.len() + k]
        == part[k] by {
        assert(both[before.len() + k] == part[k]);
        assert(whole.take(both.len() as int)[before.len() + k] == both[before.len() + k]);
    }
    assert(before =~= whole.take(before.len() as int)) by {
        assert(both.take(before.len() as int) =~= before);
        assert(whole.take(both.len() as int) =~= both);
        assert(whole.take(both.len() as int).take(before.len() as int) =~= whole.take(
            before.len() as int,
        ));
    }
}

proof fn lemma_read<T>(whole: Seq<T>, at: int, part: Seq<T>, k: int)
    requires
        holds_part(whole, at, part),
        0 <= k < part.len(),
    ensures
        whole[at + k] == part[k],
{
    reveal(holds_part);
}

proof fn lemma_permuted_at(n: nat, l: int)
    requires
        0 <= l < n,
    ensures
        permuted_steps(n).len() == 2 * n,
        permuted_steps(n)[2 * l] == ProofStep::WritePoint(Committed::LookupInput(l as usize)),
        permuted_steps(n)[2 * l + 1] == ProofStep::WritePoint(Committed::LookupTable(l as usize)),
    decreases n,
{
    if n == 1 {
        assert(permuted_steps(0) =~= Seq::<ProofStep>::empty());
    } else if l < n - 1 {
        lemma_permuted_at((n - 1) as nat, l);
    } else {
        lemma_permuted_at((n - 1) as nat, 0);
    }
}

proof fn lemma_products_at(n: nat, count: usize, l: int)
    requires
        0 <= l < n,
    ensures
        product_steps(n, count).len() == 2 * n,
        product_steps(n, count)[2 * l] == ProofStep::Draw(
            Blinded::LookupProduct(l as usize),
            count,
        ),
        product_steps(n, count)[2 * l + 1] == ProofStep::WritePoint(
            Committed::LookupProduct(l as usize),
        ),
    decreases n,
{
    if n == 1 {
        assert(product_steps(0, count) =~= Seq::<ProofStep>::empty());
    } else if l < n - 1 {
        lemma_products_at((n - 1) as nat, count, l);
    } else {
        lemma_products_at((n - 1) as nat, count, 0);
    }
}

/// The number of sets is the least with which all columns are covered.
proof fn lemma_sets(m: nat, chunk_len: nat, sets: nat)
    requires
        chunk_len > 0,
        sets * chunk_len >= m,
        sets > 0 ==> (sets - 1) * chunk_len < m,
    ensures
        chunk_count(m, chunk_len) == sets,
{
    let k = chunk_len as int;
    let x = m + chunk_len - 1;
    if sets == 0 {
        assert(0 * k == 0);
        vstd::arithmetic::div_mod::lemma_fundamental_div_mod_converse(x, k, 0, x);
    } else {
        assert(x - sets * k >= 0 && x - sets * k < k) by (nonlinear_arith)
            requires
                x == m + k - 1,
                sets * k >= m,
                (sets - 1) * k < m,
                k > 0,
        ;
        vstd::arithmetic::div_mod::lemma_fundamental_div_mod_converse(
            x,
            k,
            sets as int,
            x - sets * k,
        );
    }
}

/// How a phase is closed, position by position: the values of the instances with the
/// first phase, where they are not queried; random values for one column of the phase
/// after another; commitments to one instance column after another with the first phase,
/// where they are queried; commitments to the columns of the phase in the same order; and
/// its challenges.
pub proof fn law_phase_positions<F>(
    instances: Seq<Vec<F>>,
    query_instance: bool,
    phase: int,
    columns: Seq<usize>,
    challenges: Seq<usize>,
    count: usize,
    i: int,
)
    requires
        instances.len() <= usize::MAX,
    ensures
        ({
            let s = next_phase_order(instances, query_instance, phase, columns, challenges, count);
            let scalars = instance_scalars(instances);
            let a = if phase == 0 && !query_instance {
                scalars.len()
            } else {
                0
            };
            let b = a + columns.len();
            let c = b + if phase == 0 && query_instance {
                instances.len()
            } else {
                0
            };
            let d = c + columns.len();
            &&& s.len() == d + challenges.len()
            &&& 0 <= i < a ==> s[i] == scalars[i]
            &&& 0 <= i < columns.len() ==> s[a + i] == ProofStep::Draw(
                Blinded::Advice(columns[i]),
                count,
            )
            &&& 0 <= i < c - b ==> s[b + i] == ProofStep::CommonPoint(i as usize)
            &&& 0 <= i < columns.len() ==> s[c + i] == ProofStep::WritePoint(
                Committed::Advice(columns[i]),
            )
            &&& 0 <= i < challenges.len() ==> s[d + i] == ProofStep::Squeeze(
                ChallengeName::Circuit(challenges[i]),
            )
        }),
{
}

/// How columns of values are taken in, position by position: as a phase is closed, but
/// for the values of the instances, which come with any phase, and for the commitments,
/// which are to all advice columns.
pub proof fn law_raw_advice_positions<F>(
    instances: Seq<Vec<F>>,
    query_instance: bool,
    phase: int,
    columns: Seq<usize>,
    num_advice: nat,
    challenges: Seq<usize>,
    count: usize,
    i: int,
)
    requires
        instances.len() <= usize::MAX,
        num_advice <= usize::MAX,
    ensures
        ({
            let s = raw_advice_order(
                instances,
                query_instance,
                phase,
                columns,
                num_advice,
                challenges,
                count,
            );
            let scalars = instance_scalars(instances);
            let a = if !query_instance {
                scalars.len()
            } else {
                0
            };
            let b = a + columns.len();
            let c = b + if phase == 0 && query_instance {
                instances.len()
            } else {
                0
            };
            let d = c + num_advice;
            &&& s.len() == d + challenges.len()
            &&& 0 <= i < a ==> s[i] == scalars[i]
            &&& 0 <= i < columns.len() ==> s[a + i] == ProofStep::Draw(
                Blinded::Advice(columns[i]),
                count,
            )
            &&& 0 <= i < c - b ==> s[b + i] == ProofStep::CommonPoint(i as usize)
            &&& 0 <= i < num_advice ==> s[c + i] == ProofStep::WritePoint(
                Committed::Advice(i as usize),
            )
            &&& 0 <= i < challenges.len() ==> s[d + i] == ProofStep::Squeeze(
                ChallengeName::Circuit(challenges[i]),
            )
        }),
{
}

proof fn lemma_pair_lengths(n: nat, count: usize)
    ensures
        permuted_steps(n).len() == 2 * n,
        product_steps(n, count).len() == 2 * n,
{
    if n > 0 {
        lemma_permuted_at(n, 0);
        lemma_products_at(n, count, 0);
    }
}

/// Where the parts of a proof begin.
proof fn lemma_step_parts<F>(shape: ProofShape<F>)
    ensures
        ({
            let s = shape.steps();
            let bf = shape.blinding_factors;
            let n = shape.num_lookups;
            let sets = shape.num_sets;
            let k = shape.num_pieces;
            let a = 1 + shape.advice().len();
            let b = a + 1 + 2 * n;
            let c = b + 2 + sets;
            let d = c + sets;
            let e = d + 2 * n;
            let f = e + 2 + k;
            let g = f + k;
            &&& s.len() == g + 1 + shape.evaluations().len()
            &&& holds_part(s, 0, seq![ProofStep::HashKey])
            &&& holds_part(s, 1, shape.advice())
            &&& holds_part(s, a as int, seq![ProofStep::Squeeze(ChallengeName::Theta)])
            &&& holds_part(s, a + 1int, permuted_steps(n))
            &&& holds_part(
                s,
                b as int,
                seq![
                    ProofStep::Squeeze(ChallengeName::Beta),
                    ProofStep::Squeeze(ChallengeName::Gamma),
                ],
            )
            &&& holds_part(s, b + 2int, permutation_draws(sets, bf))
            &&& holds_part(s, c as int, permutation_steps(sets))
            &&& holds_part(s, d as int, product_steps(n, bf))
            &&& holds_part(
                s,
                e as int,
                seq![
                    ProofStep::WritePoint(Committed::Blinding),
                    ProofStep::Squeeze(ChallengeName::Y),
                ],
            )
            &&& holds_part(s, e + 2int, quotient_draws(k))
            &&& holds_part(s, f as int, quotient_steps(k))
            &&& holds_part(s, g as int, seq![ProofStep::Squeeze(ChallengeName::X)])
            &&& holds_part(s, g + 1int, written(shape.evaluations()))
        }),
{
    let s = shape.steps();
    let bf = shape.blinding_factors;
    let n = shape.num_lookups;
    let sets = shape.num_sets;
    let k = shape.num_pieces;
    lemma_pair_lengths(n, bf);
    let s0 = seq![ProofStep::HashKey];
    let theta = seq![ProofStep::Squeeze(ChallengeName::Theta)];
    let pair = seq![
        ProofStep::Squeeze(ChallengeName::Beta),
        ProofStep::Squeeze(ChallengeName::Gamma),
    ];
    let blinding = seq![
        ProofStep::WritePoint(Committed::Blinding),
        ProofStep::Squeeze(ChallengeName::Y),
    ];
    let x = seq![ProofStep::Squeeze(ChallengeName::X)];
    let s1 = s0 + shape.advice();
    let s2 = s1 + theta;
    let s3 = s2 + permuted_steps(n);
    let s4 = s3 + pair;
    let s5 = s4 + permutation_draws(sets, bf);
    let s6 = s5 + permutation_steps(sets);
    let s7 = s6 + product_steps(n, bf);
    let s8 = s7 + blinding;
    let s9 = s8 + quotient_draws(k);
    let s10 = s9 + quotient_steps(k);
    let s11 = s10 + x;
    assert(s == s11 + written(shape.evaluations()));
    assert(s.is_prefix_of(s));
    lemma_at(s11, written(shape.evaluations()), s);
    lemma_at(s10, x, s);
    lemma_at(s9, quotient_steps(k), s);
    lemma_at(s8, quotient_draws(k), s);
    lemma_at(s7, blinding, s);
    lemma_at(s6, product_steps(n, bf), s);
    lemma_at(s5, permutation_steps(sets), s);
    lemma_at(s4, permutation_draws(sets, bf), s);
    lemma_at(s3, pair, s);
    lemma_at(s2, permuted_steps(n), s);
    lemma_at(s1, theta, s);
    lemma_at(s0, shape.advice(), s);
    assert(Seq::<ProofStep>::empty() + s0 =~= s0);
    lemma_at(Seq::<ProofStep>::empty(), s0, s);
}

proof fn lemma_step_positions(
    s: Seq<ProofStep>,
    taken: Seq<ProofStep>,
    written_last: Seq<(Opened, Rotation)>,
    bf: usize,
    n: nat,
    sets: nat,
    k: nat,
    i: int,
)
    requires
        holds_part(s, 0, seq![ProofStep::HashKey]),
        ({
            let a = 1 + taken.len();
            let b = a + 1 + 2 * n;
            let c = b + 2 + sets;
            let d = c + sets;
            let e = d + 2 * n;
            let f = e + 2 + k;
            let g = f + k;
            &&& s.len() == g + 1 + written_last.len()
            &&& holds_part(s, 1, taken)
            &&& holds_part(s, a as int, seq![ProofStep::Squeeze(ChallengeName::Theta)])
            &&& holds_part(s, a + 1int, permuted_steps(n))
            &&& holds_part(
                s,
                b as int,
                seq![
                    ProofStep::Squeeze(ChallengeName::Beta),
                    ProofStep::Squeeze(ChallengeName::Gamma),
                ],
            )
            &&& holds_part(s, b + 2int, permutation_draws(sets, bf))
            &&& holds_part(s, c as int, permutation_steps(sets))
            &&& holds_part(s, d as int, product_steps(n, bf))
            &&& holds_part(
                s,
                e as int,
                seq![
                    ProofStep::WritePoint(Committed::Blinding),
                    ProofStep::Squeeze(ChallengeName::Y),
                ],
            )
            &&& holds_part(s, e + 2int, quotient_draws(k))
            &&& holds_part(s, f as int, quotient_steps(k))
            &&& holds_part(s, g as int, seq![ProofStep::Squeeze(ChallengeName::X)])
            &&& holds_part(s, g + 1int, written(written_last))
        }),
    ensures
        ({
            let a = 1 + taken.len();
            let b = a + 1 + 2 * n;
            let c = b + 2 + sets;
            let d = c + sets;
            let e = d + 2 * n;
            let f = e + 2 + k;
            let g = f + k;
            &&& s.len() == g + 1 + written_last.len()
            &&& s[0] == ProofStep::HashKey
            &&& 0 <= i < taken.len() ==> s[1 + i] == taken[i]
            &&& s[a as int] == ProofStep::Squeeze(ChallengeName::Theta)
            &&& 0 <= i < n ==> s[a + 1 + 2 * i] == ProofStep::WritePoint(
                Committed::LookupInput(i as usize),
            )
            &&& 0 <= i < n ==> s[a + 2 + 2 * i] == ProofStep::WritePoint(
                Committed::LookupTable(i as usize),
            )
            &&& s[b as int] == ProofStep::Squeeze(ChallengeName::Beta)
            &&& s[b + 1int] == ProofStep::Squeeze(ChallengeName::Gamma)
            &&& 0 <= i < sets ==> s[b + 2 + i] == ProofStep::Draw(
                Blinded::PermutationProduct(i as usize),
                bf,
            )
            &&& 0 <= i < sets ==> s[c + i] == ProofStep::WritePoint(
                Committed::PermutationProduct(i as usize),
            )
            &&& 0 <= i < n ==> s[d + 2 * i] == ProofStep::Draw(
                Blinded::LookupProduct(i as usize),
                bf,
            )
            &&& 0 <= i < n ==> s[d + 2 * i + 1] == ProofStep::WritePoint(
                Committed::LookupProduct(i as usize),
            )
            &&& s[e as int] == ProofStep::WritePoint(Committed::Blinding)
            &&& s[e + 1int] == ProofStep::Squeeze(ChallengeName::Y)
            &&& 0 <= i < k ==> s[e + 2 + i] == ProofStep::Draw(
                Blinded::QuotientPiece(i as usize),
                1,
            )
            &&& 0 <= i < k ==> s[f + i] == ProofStep::WritePoint(
                Committed::QuotientPiece(i as usize),
            )
            &&& s[g as int] == ProofStep::Squeeze(ChallengeName::X)
            &&& 0 <= i < written_last.len() ==> s[g + 1 + i] == ProofStep::WriteScalar(
                written_last[i].0,
                written_last[i].1,
            )
        }),
{
    let a = 1 + taken.len();
    let b = a + 1 + 2 * n;
    let c = b + 2 + sets;
    let d = c + sets;
    let e = d + 2 * n;
    let f = e + 2 + k;
    let g = f + k;
    lemma_read(s, 0, seq![ProofStep::HashKey], 0);
    lemma_read(s, a as int, seq![ProofStep::Squeeze(ChallengeName::Theta)], 0);
    let pair = seq![
        ProofStep::Squeeze(ChallengeName::Beta),
        ProofStep::Squeeze(ChallengeName::Gamma),
    ];
    lemma_read(s, b as int, pair, 0);
    lemma_read(s, b as int, pair, 1);
    let blinding = seq![
        ProofStep::WritePoint(Committed::Blinding),
        ProofStep::Squeeze(ChallengeName::Y),
    ];
    lemma_read(s, e as int, blinding, 0);
    lemma_read(s, e as int, blinding, 1);
    lemma_read(s, g as int, seq![ProofStep::Squeeze(ChallengeName::X)], 0);
    if 0 <= i < taken.len() {
        lemma_read(s, 1, taken, i);
    }
    if 0 <= i < n {
        lemma_permuted_at(n, i);
        lemma_products_at(n, bf, i);
        lemma_read(s, a + 1int, permuted_steps(n), 2 * i);
        lemma_read(s, a + 1int, permuted_steps(n), 2 * i + 1);
        lemma_read(s, d as int, product_steps(n, bf), 2 * i);
        lemma_read(s, d as int, product_steps(n, bf), 2 * i + 1);
    }
    if 0 <= i < sets {
        lemma_read(s, b + 2int, permutation_draws(sets, bf), i);
        lemma_read(s, c as int, permutation_steps(sets), i);
    }
    if 0 <= i < k {
        lemma_read(s, e + 2int, quotient_draws(k), i);
        lemma_read(s, f as int, quotient_steps(k), i);
    }
    if 0 <= i < written_last.len() {
        lemma_read(s, g + 1int, written(written_last), i);
    }
}

/// The steps of a proof before everything is evaluated, position by position. The
/// verifying key comes first, and the advice is taken in. `theta` follows, and for one
/// lookup after another the commitments to its permuted inputs and its permuted table;
/// then `beta` and `gamma`, random values for one set of permuted columns after another
/// and the commitments to their products; for one lookup after another random values and
/// the commitment to its product; the commitment to the blinding polynomial and `y`; one
/// random value for one piece of the quotient after another and the commitments to them;
/// and `x`. There are as few sets as cover all columns, two less than the degree each.
#[verifier::rlimit(60)]
pub proof fn law_step_positions<F: Field>(
    meta: GpuConstraintSystem<F>,
    query_instance: bool,
    instances: Seq<Vec<F>>,
    degree: usize,
    num_pieces: usize,
    sets: nat,
    i: int,
)
    requires
        meta.spec_blinding_factors() < i32::MAX,
        degree > 2,
        sets * (degree - 2) >= meta.permutation.columns@.len(),
        sets > 0 ==> (sets - 1) * (degree - 2) < meta.permutation.columns@.len(),
    ensures
        ({
            let shape = shape_of(meta, query_instance, instances, degree, num_pieces);
            let s = shape.steps();
            let bf = meta.spec_blinding_factors();
            let n = meta.lookups@.len();
            let taken = raw_advice_order(
                instances,
                query_instance,
                0,
                in_phase(meta.advice_column_phase@, 0),
                meta.num_advice_columns as nat,
                in_phase(meta.challenge_phase@, 0),
                (bf + 1) as usize,
            );
            let a = 1 + taken.len();
            let b = a + 1 + 2 * n;
            let c = b + 2 + sets;
            let d = c + sets;
            let e = d + 2 * n;
            let f = e + 2 + num_pieces;
            let g = f + num_pieces;
            &&& s.len() == g + 1 + shape.evaluations().len()
            &&& s[0] == ProofStep::HashKey
            &&& 0 <= i < taken.len() ==> s[1 + i] == taken[i]
            &&& s[a as int] == ProofStep::Squeeze(ChallengeName::Theta)
            &&& 0 <= i < n ==> s[a + 1 + 2 * i] == ProofStep::WritePoint(
                Committed::LookupInput(i as usize),
            )
            &&& 0 <= i < n ==> s[a + 2 + 2 * i] == ProofStep::WritePoint(
                Committed::LookupTable(i as usize),
            )
            &&& s[b as int] == ProofStep::Squeeze(ChallengeName::Beta)
            &&& s[b + 1int] == ProofStep::Squeeze(ChallengeName::Gamma)
            &&& 0 <= i < sets ==> s[b + 2 + i] == ProofStep::Draw(
                Blinded::PermutationProduct(i as usize),
                bf as usize,
            )
            &&& 0 <= i < sets ==> s[c + i] == ProofStep::WritePoint(
                Committed::PermutationProduct(i as usize),
            )
            &&& 0 <= i < n ==> s[d + 2 * i] == ProofStep::Draw(
                Blinded::LookupProduct(i as usize),
                bf as usize,
            )
            &&& 0 <= i < n ==> s[d + 2 * i + 1] == ProofStep::WritePoint(
                Committed::LookupProduct(i as usize),
            )
            &&& s[e as int] == ProofStep::WritePoint(Committed::Blinding)
            &&& s[e + 1int] == ProofStep::Squeeze(ChallengeName::Y)
            &&& 0 <= i < num_pieces ==> s[e + 2 + i] == ProofStep::Draw(
                Blinded::QuotientPiece(i as usize),
                1,
            )
            &&& 0 <= i < num_pieces ==> s[f + i] == ProofStep::WritePoint(
                Committed::QuotientPiece(i as usize),
            )
            &&& s[g as int] == ProofStep::Squeeze(ChallengeName::X)
            &&& 0 <= i < shape.evaluations().len() ==> s[g + 1 + i] == ProofStep::WriteScalar(
                shape.evaluations()[i].0,
                shape.evaluations()[i].1,
            )
        }),
{
    let shape = shape_of(meta, query_instance, instances, degree, num_pieces);
    lemma_sets(meta.permutation.columns@.len(), (degree - 2) as nat, sets);
    lemma_step_parts(shape);
    lemma_step_positions(
        shape.steps(),
        shape.advice(),
        shape.evaluations(),
        shape.blinding_factors,
        meta.lookups@.len(),
        sets,
        num_pieces as nat,
        i,
    );
}

proof fn lemma_lookups_at(n: nat, q: Seq<(LookupPoly, Rotation)>, l: int, k: int)
    requires
        0 <= l < n,
        0 <= k < q.len(),
    ensures
        lookups_opened(n, q).len() == n * q.len(),
        lookups_opened(n, q)[l * q.len() + k] == (Opened::Lookup(l as usize, q[k].0), q[k].1),
    decreases n,
{
    let m = (n - 1) as nat;
    let before = lookups_opened(m, q);
    let part = lookup_opened(m as usize, q);
    assert(lookups_opened(n, q) == before + part);
    assert(n * q.len() == m * q.len() + q.len()) by (nonlinear_arith)
        requires
            n == m + 1,
    ;
    if m == 0 {
        assert(before.len() == 0);
        assert(m * q.len() == 0);
        assert(l * q.len() == 0);
        assert((before + part)[k] == part[k]);
    } else if l < m {
        lemma_lookups_at(m, q, l, k);
        assert(l * q.len() + k < m * q.len()) by (nonlinear_arith)
            requires
                l + 1 <= m,
                0 <= k < q.len(),
        ;
        assert(0 <= l * q.len()) by (nonlinear_arith)
            requires
                l >= 0,
        ;
    } else {
        lemma_lookups_at(m, q, 0, k);
        assert(l * q.len() == m * q.len());
        assert((before + part)[before.len() + k] == part[k]);
    }
}

proof fn lemma_sets_evaluated_at(i: nat, num_sets: nat, last: Rotation, k: int)
    requires
        0 <= k < i <= num_sets,
    ensures
        ({
            let e = permutation::prover::evaluations(i, num_sets, last);
            &&& e.len() == (if i < num_sets {
                3 * i as int
            } else {
                3 * i - 1
            })
            &&& e[3 * k] == (k as usize, Rotation(0))
            &&& e[3 * k + 1] == (k as usize, Rotation(1))
            &&& k + 1 < num_sets ==> e[3 * k + 2] == (k as usize, last)
        }),
    decreases i,
{
    let before = permutation::prover::evaluations((i - 1) as nat, num_sets, last);
    if i == 1 {
        assert(before.len() == 0);
    } else if k < i - 1 {
        lemma_sets_evaluated_at((i - 1) as nat, num_sets, last, k);
    } else {
        lemma_sets_evaluated_at((i - 1) as nat, num_sets, last, 0);
    }
}

proof fn lemma_sets_opened_here(i: nat, k: int)
    requires
        0 <= k < i,
    ensures
        permutation::prover::openings_here(i).len() == 2 * i,
        permutation::prover::openings_here(i)[2 * k] == (k as usize, Rotation(0)),
        permutation::prover::openings_here(i)[2 * k + 1] == (k as usize, Rotation(1)),
    decreases i,
{
    if i == 1 {
        assert(permutation::prover::openings_here(0).len() == 0);
    } else if k < i - 1 {
        lemma_sets_opened_here((i - 1) as nat, k);
    } else {
        lemma_sets_opened_here((i - 1) as nat, 0);
    }
}

proof fn lemma_sets_opened_last(j: nat, num_sets: nat, last: Rotation, k: int)
    requires
        j < num_sets,
    ensures
        permutation::prover::openings_last(j, num_sets, last).len() == num_sets - 1 - j,
        0 <= k < num_sets - 1 - j ==> permutation::prover::openings_last(j, num_sets, last)[k] == (
            (num_sets - 2 - k) as usize,
            last,
        ),
    decreases num_sets - j,
{
    if j + 1 < num_sets {
        lemma_sets_opened_last(j + 1, num_sets, last, k);
    }
}

proof fn lemma_list_lengths(n: nat, sets: nat, last: Rotation)
    ensures
        lookups_opened(n, lookup::prover::evaluations()).len() == 5 * n,
        lookups_opened(n, lookup::prover::openings()).len() == 5 * n,
        permutation::prover::evaluations(sets, sets, last).len() == (if sets > 0 {
            3 * sets - 1
        } else {
            0int
        }),
        permutation::prover::openings_here(sets).len() == 2 * sets,
        permutation::prover::openings_last(0, sets, last).len() == (if sets > 0 {
            sets - 1
        } else {
            0int
        }),
{
    let (e, o) = (lookup::prover::evaluations(), lookup::prover::openings());
    assert(e.len() == 5 && o.len() == 5);
    if n > 0 {
        lemma_lookups_at(n, e, 0, 0);
        lemma_lookups_at(n, o, 0, 0);
        assert(n * e.len() == 5 * n && n * o.len() == 5 * n);
    } else {
        assert(lookups_opened(n, e).len() == 0 && lookups_opened(n, o).len() == 0);
    }
    if sets > 0 {
        lemma_sets_evaluated_at(sets, sets, last, 0);
        lemma_sets_opened_here(sets, 0);
        lemma_sets_opened_last(0, sets, last, 0);
    }
}

/// Where the parts of the evaluations begin.
proof fn lemma_evaluation_parts<F>(
    shape: ProofShape<F>,
    instance: Seq<(Opened, Rotation)>,
    advice: Seq<(Opened, Rotation)>,
    fixed: Seq<(Opened, Rotation)>,
)
    requires
        instance == (if shape.query_instance && shape.instances.len() > 0 {
            instance_opened(shape.instance_queries)
        } else {
            Seq::empty()
        }),
        advice == (if shape.num_advice > 0 {
            advice_opened(shape.advice_queries)
        } else {
            Seq::empty()
        }),
        fixed == (if shape.num_fixed > 0 {
            fixed_opened(shape.fixed_queries)
        } else {
            Seq::empty()
        }),
    ensures
        ({
            let r = shape.evaluations();
            let b = instance.len() + advice.len();
            let c = b + fixed.len();
            let d = c + 1 + shape.num_permuted;
            let q = permutation::prover::evaluations(shape.num_sets, shape.num_sets, shape.last);
            let e = d + q.len();
            let lookups = lookups_opened(shape.num_lookups, lookup::prover::evaluations());
            &&& r.len() == e + lookups.len()
            &&& holds_part(r, 0, instance)
            &&& holds_part(r, instance.len() as int, advice)
            &&& holds_part(r, b as int, fixed)
            &&& holds_part(r, c as int, seq![(Opened::Blinding, Rotation(0))])
            &&& holds_part(r, c + 1int, common_opened(shape.num_permuted))
            &&& holds_part(r, d as int, products_opened(q))
            &&& holds_part(r, e as int, lookups)
        }),
{
    let r = shape.evaluations();
    let none = Seq::<(Opened, Rotation)>::empty();
    let blinding = seq![(Opened::Blinding, Rotation(0))];
    let common = common_opened(shape.num_permuted);
    let q = permutation::prover::evaluations(shape.num_sets, shape.num_sets, shape.last);
    let products = products_opened(q);
    let lookups = lookups_opened(shape.num_lookups, lookup::prover::evaluations());
    let s1 = instance + advice;
    let s2 = s1 + fixed;
    let s3 = s2 + blinding;
    let s4 = s3 + common;
    let s5 = s4 + products;
    assert(r == s5 + lookups);
    assert(r.is_prefix_of(r));
    lemma_at(s5, lookups, r);
    lemma_at(s4, products, r);
    lemma_at(s3, common, r);
    lemma_at(s2, blinding, r);
    lemma_at(s1, fixed, r);
    lemma_at(instance, advice, r);
    assert(none + instance =~= instance);
    lemma_at(none, instance, r);
}

proof fn lemma_evaluation_positions(
    r: Seq<(Opened, Rotation)>,
    instance: Seq<(Opened, Rotation)>,
    advice: Seq<(Opened, Rotation)>,
    fixed: Seq<(Opened, Rotation)>,
    m: nat,
    sets: nat,
    last: Rotation,
    n: nat,
    i: int,
)
    requires
        ({
            let b = instance.len() + advice.len();
            let c = b + fixed.len();
            let d = c + 1 + m;
            let q = permutation::prover::evaluations(sets, sets, last);
            let e = d + q.len();
            let lookups = lookups_opened(n, lookup::prover::evaluations());
            &&& r.len() == e + lookups.len()
            &&& holds_part(r, 0, instance)
            &&& holds_part(r, instance.len() as int, advice)
            &&& holds_part(r, b as int, fixed)
            &&& holds_part(r, c as int, seq![(Opened::Blinding, Rotation(0))])
            &&& holds_part(r, c + 1int, common_opened(m))
            &&& holds_part(r, d as int, products_opened(q))
            &&& holds_part(r, e as int, lookups)
        }),
    ensures
        ({
            let a = instance.len();
            let b = a + advice.len();
            let c = b + fixed.len();
            let d = c + 1 + m;
            let e = d + if sets > 0 {
                (3 * sets - 1) as nat
            } else {
                0
            };
            &&& r.len() == e + 5 * n
            &&& 0 <= i < a ==> r[i] == instance[i]
            &&& 0 <= i < b - a ==> r[a + i] == advice[i]
            &&& 0 <= i < c - b ==> r[b + i] == fixed[i]
            &&& r[c as int] == (Opened::Blinding, Rotation(0))
            &&& 0 <= i < m ==> r[c + 1 + i] == (
                Opened::PermutationCommon(i as usize),
                Rotation(0),
            )
            &&& 0 <= i < sets ==> r[d + 3 * i] == (
                Opened::PermutationProduct(i as usize),
                Rotation(0),
            )
            &&& 0 <= i < sets ==> r[d + 3 * i + 1] == (
                Opened::PermutationProduct(i as usize),
                Rotation(1),
            )
            &&& 0 <= i < sets - 1 ==> r[d + 3 * i + 2] == (
                Opened::PermutationProduct(i as usize),
                last,
            )
            &&& 0 <= i < n ==> {
                &&& r[e + 5 * i] == (Opened::Lookup(i as usize, LookupPoly::Product), Rotation(0))
                &&& r[e + 5 * i + 1] == (
                    Opened::Lookup(i as usize, LookupPoly::Product),
                    Rotation(1),
                )
                &&& r[e + 5 * i + 2] == (
                    Opened::Lookup(i as usize, LookupPoly::PermutedInput),
                    Rotation(0),
                )
                &&& r[e + 5 * i + 3] == (
                    Opened::Lookup(i as usize, LookupPoly::PermutedInput),
                    Rotation(-1i32),
                )
                &&& r[e + 5 * i + 4] == (
                    Opened::Lookup(i as usize, LookupPoly::PermutedTable),
                    Rotation(0),
                )
            }
        }),
{
    let five = lookup::prover::evaluations();
    let q = permutation::prover::evaluations(sets, sets, last);
    let products = products_opened(q);
    let lookups = lookups_opened(n, five);
    let b = (instance.len() + advice.len()) as int;
    let c = b + fixed.len();
    let d = c + 1 + m;
    let e = d + q.len();
    lemma_list_lengths(n, sets, last);
    lemma_read(r, c, seq![(Opened::Blinding, Rotation(0))], 0);
    if 0 <= i < instance.len() {
        lemma_read(r, 0, instance, i);
    }
    if 0 <= i < advice.len() {
        lemma_read(r, instance.len() as int, advice, i);
    }
    if 0 <= i < fixed.len() {
        lemma_read(r, b, fixed, i);
    }
    if 0 <= i < m {
        lemma_read(r, c + 1, common_opened(m), i);
    }
    if 0 <= i < sets {
        lemma_sets_evaluated_at(sets, sets, last, i);
        lemma_read(r, d, products, 3 * i);
        lemma_read(r, d, products, 3 * i + 1);
        if i < sets - 1 {
            lemma_read(r, d, products, 3 * i + 2);
        }
    }
    if 0 <= i < n {
        assert(five.len() == 5);
        lemma_lookups_at(n, five, i, 0);
        lemma_lookups_at(n, five, i, 1);
        lemma_lookups_at(n, five, i, 2);
        lemma_lookups_at(n, five, i, 3);
        lemma_lookups_at(n, five, i, 4);
        lemma_read(r, e, lookups, 5 * i);
        lemma_read(r, e, lookups, 5 * i + 1);
        lemma_read(r, e, lookups, 5 * i + 2);
        lemma_read(r, e, lookups, 5 * i + 3);
        lemma_read(r, e, lookups, 5 * i + 4);
    }
}

/// The evaluations of a proof, position by position. The queries of instance columns,
/// where they are queried, of advice and of fixed columns come in the order in which they
/// were made; then the blinding polynomial, and the polynomials of the permutation one
/// after another. For one product of the permutation after another follow its values at
/// the point and at the next one and, for all but the last, at the row behind the usable
/// ones; and for one lookup after another the values of the product at the point and at
/// the next one, of the permuted inputs at the point and at the one before, and of the
/// permuted table.
#[verifier::rlimit(60)]
pub proof fn law_evaluation_positions<F: Field>(
    meta: GpuConstraintSystem<F>,
    query_instance: bool,
    instances: Seq<Vec<F>>,
    degree: usize,
    num_pieces: usize,
    sets: nat,
    i: int,
)
    requires
        meta.spec_blinding_factors() < i32::MAX,
        degree > 2,
        sets * (degree - 2) >= meta.permutation.columns@.len(),
        sets > 0 ==> (sets - 1) * (degree - 2) < meta.permutation.columns@.len(),
    ensures
        ({
            let r = shape_of(
                meta,
                query_instance,
                instances,
                degree,
                num_pieces,
            ).evaluations();
            let m = meta.permutation.columns@.len();
            let n = meta.lookups@.len();
            let a = if query_instance && instances.len() > 0 {
                meta.instance_queries@.len()
            } else {
                0
            };
            let b = a + if meta.num_advice_columns > 0 {
                meta.advice_queries@.len()
            } else {
                0
            };
            let c = b + if meta.num_fixed_columns > 0 {
                meta.fixed_queries@.len()
            } else {
                0
            };
            let d = c + 1 + m;
            let e = d + if sets > 0 {
                (3 * sets - 1) as nat
            } else {
                0
            };
            &&& r.len() == e + 5 * n
            &&& 0 <= i < a ==> r[i] == (
                Opened::Instance(meta.instance_queries@[i].0.index),
                meta.instance_queries@[i].1,
            )
            &&& 0 <= i < b - a ==> r[a + i] == (
                Opened::Advice(meta.advice_queries@[i].0.index),
                meta.advice_queries@[i].1,
            )
            &&& 0 <= i < c - b ==> r[b + i] == (
                Opened::Fixed(meta.fixed_queries@[i].0.index),
                meta.fixed_queries@[i].1,
            )
            &&& r[c as int] == (Opened::Blinding, Rotation(0))
            &&& 0 <= i < m ==> r[c + 1 + i] == (
                Opened::PermutationCommon(i as usize),
                Rotation(0),
            )
            &&& 0 <= i < sets ==> r[d + 3 * i] == (
                Opened::PermutationProduct(i as usize),
                Rotation(0),
            )
            &&& 0 <= i < sets ==> r[d + 3 * i + 1] == (
                Opened::PermutationProduct(i as usize),
                Rotation(1),
            )
            &&& 0 <= i < sets - 1 ==> r[d + 3 * i + 2] == (
                Opened::PermutationProduct(i as usize),
                Rotation((-(meta.spec_blinding_factors() + 1)) as i32),
            )
            &&& 0 <= i < n ==> {
                &&& r[e + 5 * i] == (Opened::Lookup(i as usize, LookupPoly::Product), Rotation(0))
                &&& r[e + 5 * i + 1] == (
                    Opened::Lookup(i as usize, LookupPoly::Product),
                    Rotation(1),
                )
                &&& r[e + 5 * i + 2] == (
                    Opened::Lookup(i as usize, LookupPoly::PermutedInput),
                    Rotation(0),
                )
                &&& r[e + 5 * i + 3] == (
                    Opened::Lookup(i as usize, LookupPoly::PermutedInput),
                    Rotation(-1i32),
                )
                &&& r[e + 5 * i + 4] == (
                    Opened::Lookup(i as usize, LookupPoly::PermutedTable),
                    Rotation(0),
                )
            }
        }),
{
    let shape = shape_of(meta, query_instance, instances, degree, num_pieces);
    let m = meta.permutation.columns@.len();
    lemma_sets(m, (degree - 2) as nat, sets);
    let none = Seq::<(Opened, Rotation)>::empty();
    let instance = if query_instance && instances.len() > 0 {
        instance_opened(meta.instance_queries@)
    } else {
        none
    };
    let advice = if meta.num_advice_columns > 0 {
        advice_opened(meta.advice_queries@)
    } else {
        none
    };
    let fixed = if meta.num_fixed_columns > 0 {
        fixed_opened(meta.fixed_queries@)
    } else {
        none
    };
    lemma_evaluation_parts(shape, instance, advice, fixed);
    lemma_evaluation_positions(
        shape.evaluations(),
        instance,
        advice,
        fixed,
        m,
        sets,
        shape.last,
        meta.lookups@.len(),
        i,
    );
}

/// Where the parts of the openings begin.
proof fn lemma_opening_parts<F>(shape: ProofShape<F>, instance: Seq<(Opened, Rotation)>)
    requires
        instance == (if shape.query_instance {
            instance_opened(shape.instance_queries)
        } else {
            Seq::empty()
        }),
    ensures
        ({
            let r = shape.openings();
            let advice = advice_opened(shape.advice_queries);
            let q = permutation::prover::openings(shape.num_sets, shape.last);
            let lookups = lookups_opened(shape.num_lookups, lookup::prover::openings());
            let fixed = fixed_opened(shape.fixed_queries);
            let b = instance.len() + advice.len();
            let d = b + q.len();
            let e = d + lookups.len();
            let f = e + fixed.len();
            let g = f + shape.num_permuted;
            &&& r.len() == g + 2
            &&& holds_part(r, 0, instance)
            &&& holds_part(r, instance.len() as int, advice)
            &&& holds_part(r, b as int, products_opened(q))
            &&& holds_part(r, d as int, lookups)
            &&& holds_part(r, e as int, fixed)
            &&& holds_part(r, f as int, common_opened(shape.num_permuted))
            &&& holds_part(
                r,
                g as int,
                seq![(Opened::Quotient, Rotation(0)), (Opened::Blinding, Rotation(0))],
            )
        }),
{
    let r = shape.openings();
    let none = Seq::<(Opened, Rotation)>::empty();
    let advice = advice_opened(shape.advice_queries);
    let products = products_opened(permutation::prover::openings(shape.num_sets, shape.last));
    let lookups = lookups_opened(shape.num_lookups, lookup::prover::openings());
    let fixed = fixed_opened(shape.fixed_queries);
    let common = common_opened(shape.num_permuted);
    let end = seq![(Opened::Quotient, Rotation(0)), (Opened::Blinding, Rotation(0))];
    let s1 = instance + advice;
    let s2 = s1 + products;
    let s3 = s2 + lookups;
    let s4 = s3 + fixed;
    let s5 = s4 + common;
    assert(r == s5 + end);
    assert(r.is_prefix_of(r));
    lemma_at(s5, end, r);
    lemma_at(s4, common, r);
    lemma_at(s3, fixed, r);
    lemma_at(s2, lookups, r);
    lemma_at(s1, products, r);
    lemma_at(instance, advice, r);
    assert(none + instance =~= instance);
    lemma_at(none, instance, r);
}

proof fn lemma_opening_positions(
    r: Seq<(Opened, Rotation)>,
    instance: Seq<(Opened, Rotation)>,
    advice: Seq<(Opened, Rotation)>,
    fixed: Seq<(Opened, Rotation)>,
    m: nat,
    sets: nat,
    last: Rotation,
    n: nat,
    i: int,
)
    requires
        ({
            let q = permutation::prover::openings(sets, last);
            let lookups = lookups_opened(n, lookup::prover::openings());
            let b = instance.len() + advice.len();
            let d = b + q.len();
            let e = d + lookups.len();
            let f = e + fixed.len();
            let g = f + m;
            &&& r.len() == g + 2
            &&& holds_part(r, 0, instance)
            &&& holds_part(r, instance.len() as int, advice)
            &&& holds_part(r, b as int, products_opened(q))
            &&& holds_part(r, d as int, lookups)
            &&& holds_part(r, e as int, fixed)
            &&& holds_part(r, f as int, common_opened(m))
            &&& holds_part(
                r,
                g as int,
                seq![(Opened::Quotient, Rotation(0)), (Opened::Blinding, Rotation(0))],
            )
        }),
    ensures
        ({
            let a = instance.len();
            let b = a + advice.len();
            let c = b + 2 * sets;
            let d = c + if sets > 0 {
                (sets - 1) as nat
            } else {
                0
            };
            let e = d + 5 * n;
            let f = e + fixed.len();
            let g = f + m;
            &&& r.len() == g + 2
            &&& 0 <= i < a ==> r[i] == instance[i]
            &&& 0 <= i < b - a ==> r[a + i] == advice[i]
            &&& 0 <= i < sets ==> r[b + 2 * i] == (
                Opened::PermutationProduct(i as usize),
                Rotation(0),
            )
            &&& 0 <= i < sets ==> r[b + 2 * i + 1] == (
                Opened::PermutationProduct(i as usize),
                Rotation(1),
            )
            &&& 0 <= i < sets - 1 ==> r[c + i] == (
                Opened::PermutationProduct((sets - 2 - i) as usize),
                last,
            )
            &&& 0 <= i < n ==> {
                &&& r[d + 5 * i] == (Opened::Lookup(i as usize, LookupPoly::Product), Rotation(0))
                &&& r[d + 5 * i + 1] == (
                    Opened::Lookup(i as usize, LookupPoly::PermutedInput),
                    Rotation(0),
                )
                &&& r[d + 5 * i + 2] == (
                    Opened::Lookup(i as usize, LookupPoly::PermutedTable),
                    Rotation(0),
                )
                &&& r[d + 5 * i + 3] == (
                    Opened::Lookup(i as usize, LookupPoly::PermutedInput),
                    Rotation(-1i32),
                )
                &&& r[d + 5 * i + 4] == (
                    Opened::Lookup(i as usize, LookupPoly::Product),
                    Rotation(1),
                )
            }
            &&& 0 <= i < fixed.len() ==> r[e + i] == fixed[i]
            &&& 0 <= i < m ==> r[f + i] == (Opened::PermutationCommon(i as usize), Rotation(0))
            &&& r[g as int] == (Opened::Quotient, Rotation(0))
            &&& r[g + 1int] == (Opened::Blinding, Rotation(0))
        }),
{
    let here = permutation::prover::openings_here(sets);
    let there = permutation::prover::openings_last(0, sets, last);
    let q = permutation::prover::openings(sets, last);
    let products = products_opened(q);
    let five = lookup::prover::openings();
    let lookups = lookups_opened(n, five);
    let end = seq![(Opened::Quotient, Rotation(0)), (Opened::Blinding, Rotation(0))];
    let b = (instance.len() + advice.len()) as int;
    let d = b + q.len();
    let e = d + lookups.len();
    let f = e + fixed.len();
    let g = f + m;
    lemma_list_lengths(n, sets, last);
    assert(q == here + there);
    lemma_read(r, g, end, 0);
    lemma_read(r, g, end, 1);
    if 0 <= i < instance.len() {
        lemma_read(r, 0, instance, i);
    }
    if 0 <= i < advice.len() {
        lemma_read(r, instance.len() as int, advice, i);
    }
    if 0 <= i < fixed.len() {
        lemma_read(r, e, fixed, i);
    }
    if 0 <= i < m {
        lemma_read(r, f, common_opened(m), i);
    }
    if 0 <= i < sets {
        lemma_sets_opened_here(sets, i);
        lemma_sets_opened_last(0, sets, last, i);
        lemma_read(r, b, products, 2 * i);
        lemma_read(r, b, products, 2 * i + 1);
        if i < sets - 1 {
            lemma_read(r, b, products, 2 * sets + i);
            assert(q[here.len() + i] == there[i]);
        }
    }
    if 0 <= i < n {
        assert(five.len() == 5);
        lemma_lookups_at(n, five, i, 0);
        lemma_lookups_at(n, five, i, 1);
        lemma_lookups_at(n, five, i, 2);
        lemma_lookups_at(n, five, i, 3);
        lemma_lookups_at(n, five, i, 4);
        lemma_read(r, d, lookups, 5 * i);
        lemma_read(r, d, lookups, 5 * i + 1);
        lemma_read(r, d, lookups, 5 * i + 2);
        lemma_read(r, d, lookups, 5 * i + 3);
        lemma_read(r, d, lookups, 5 * i + 4);
    }
}

/// The openings of a proof, position by position. The queries of instance columns, where
/// they are queried, and of advice columns come in the order in which they were made; for
/// one product of the permutation after another those at the point and at the next one,
/// and then, from the last but one down to the first, those at the row behind the usable
/// ones; for one lookup after another the product, the permuted inputs and the permuted
/// table at the point, the permuted inputs at the one before, and the product at the next
/// one; then the queries of fixed columns, the polynomials of the permutation, the
/// quotient and the blinding polynomial.
#[verifier::rlimit(60)]
pub proof fn law_opening_positions<F: Field>(
    meta: GpuConstraintSystem<F>,
    query_instance: bool,
    instances: Seq<Vec<F>>,
    degree: usize,
    num_pieces: usize,
    sets: nat,
    i: int,
)
    requires
        meta.spec_blinding_factors() < i32::MAX,
        degree > 2,
        sets * (degree - 2) >= meta.permutation.columns@.len(),
        sets > 0 ==> (sets - 1) * (degree - 2) < meta.permutation.columns@.len(),
    ensures
        ({
            let r = shape_of(meta, query_instance, instances, degree, num_pieces).openings();
            let m = meta.permutation.columns@.len();
            let n = meta.lookups@.len();
            let a = if query_instance {
                meta.instance_queries@.len()
            } else {
                0
            };
            let b = a + meta.advice_queries@.len();
            let c = b + 2 * sets;
            let d = c + if sets > 0 {
                (sets - 1) as nat
            } else {
                0
            };
            let e = d + 5 * n;
            let f = e + meta.fixed_queries@.len();
            let g = f + m;
            &&& r.len() == g + 2
            &&& 0 <= i < a ==> r[i] == (
                Opened::Instance(meta.instance_queries@[i].0.index),
                meta.instance_queries@[i].1,
            )
            &&& 0 <= i < b - a ==> r[a + i] == (
                Opened::Advice(meta.advice_queries@[i].0.index),
                meta.advice_queries@[i].1,
            )
            &&& 0 <= i < sets ==> r[b + 2 * i] == (
                Opened::PermutationProduct(i as usize),
                Rotation(0),
            )
            &&& 0 <= i < sets ==> r[b + 2 * i + 1] == (
                Opened::PermutationProduct(i as usize),
                Rotation(1),
            )
            &&& 0 <= i < sets - 1 ==> r[c + i] == (
                Opened::PermutationProduct((sets - 2 - i) as usize),
                Rotation((-(meta.spec_blinding_factors() + 1)) as i32),
            )
            &&& 0 <= i < n ==> {
                &&& r[d + 5 * i] == (Opened::Lookup(i as usize, LookupPoly::Product), Rotation(0))
                &&& r[d + 5 * i + 1] == (
                    Opened::Lookup(i as usize, LookupPoly::PermutedInput),
                    Rotation(0),
                )
                &&& r[d + 5 * i + 2] == (
                    Opened::Lookup(i as usize, LookupPoly::PermutedTable),
                    Rotation(0),
                )
                &&& r[d + 5 * i + 3] == (
                    Opened::Lookup(i as usize, LookupPoly::PermutedInput),
                    Rotation(-1i32),
                )
                &&& r[d + 5 * i + 4] == (
                    Opened::Lookup(i as usize, LookupPoly::Product),
                    Rotation(1),
                )
            }
            &&& 0 <= i < meta.fixed_queries@.len() ==> r[e + i] == (
                Opened::Fixed(meta.fixed_queries@[i].0.index),
                meta.fixed_queries@[i].1,
            )
            &&& 0 <= i < m ==> r[f + i] == (Opened::PermutationCommon(i as usize), Rotation(0))
            &&& r[g as int] == (Opened::Quotient, Rotation(0))
            &&& r[g + 1int] == (Opened::Blinding, Rotation(0))
        }),
{
    let shape = shape_of(meta, query_instance, instances, degree, num_pieces);
    let m = meta.permutation.columns@.len();
    lemma_sets(m, (degree - 2) as nat, sets);
    let instance = if query_instance {
        instance_opened(meta.instance_queries@)
    } else {
        Seq::empty()
    };
    let advice = advice_opened(meta.advice_queries@);
    let fixed = fixed_opened(meta.fixed_queries@);
    lemma_opening_parts(shape, instance);
    lemma_opening_positions(
        shape.openings(),
        instance,
        advice,
        fixed,
        m,
        sets,
        shape.last,
        meta.lookups@.len(),
        i,
    );
}

} // verus!
