//! What a proof has come to after each of its steps: every step finds what it is
//! about.

use crate::plonk::lookup;
use crate::plonk::permutation;
use crate::plonk::permutation::prover::lemma_append_contains;
use crate::plonk::prover::{
    advice_draws, advice_opened, advice_steps, challenge_steps, column_scalars, common_opened,
    first_columns, fixed_opened, instance_opened, instance_points, instance_scalars,
    law_openings_match, lemma_lookups_contain, lemma_products_contain, lookups_opened,
    permutation_draws, permutation_steps, permuted_steps, product_steps, products_opened,
    quotient_draws, quotient_steps, written, Blinded, ChallengeName, Committed, Opened, ProofShape,
    ProofStep,
};
use crate::poly::Rotation;
use vstd::prelude::*;

verus! {

/// How much of a proof has been made.
pub struct Progress {
    /// The advice columns that random values have been drawn for.
    pub advice_draws: nat,
    /// The challenges of the circuit that have been squeezed.
    pub challenges: nat,
    /// The lookups that have been permuted.
    pub permuted: nat,
    /// The sets of permuted columns that random values have been drawn for.
    pub set_draws: nat,
    /// Whether the products of the permutation argument have been computed.
    pub sets: bool,
    /// The lookups that random values have been drawn for.
    pub lookup_draws: nat,
    /// The products of lookups that have been computed.
    pub products: nat,
    /// Whether the quotient has been computed.
    pub pieces: bool,
}

impl Progress {
    /// Nothing has been made.
    pub open spec fn start() -> Progress {
        Progress {
            advice_draws: 0,
            challenges: 0,
            permuted: 0,
            set_draws: 0,
            sets: false,
            lookup_draws: 0,
            products: 0,
            pieces: false,
        }
    }

    /// What a step adds.
    pub open spec fn after(self, step: ProofStep) -> Progress {
        match step {
            ProofStep::Draw(Blinded::Advice(_), _) => Progress {
                advice_draws: self.advice_draws + 1,
                ..self
            },
            ProofStep::Draw(Blinded::PermutationProduct(_), _) => Progress {
                set_draws: self.set_draws + 1,
                ..self
            },
            ProofStep::Draw(Blinded::LookupProduct(_), _) => Progress {
                lookup_draws: self.lookup_draws + 1,
                ..self
            },
            ProofStep::Squeeze(ChallengeName::Circuit(_)) => Progress {
                challenges: self.challenges + 1,
                ..self
            },
            ProofStep::WritePoint(Committed::LookupInput(_)) => Progress {
                permuted: self.permuted + 1,
                ..self
            },
            ProofStep::WritePoint(Committed::PermutationProduct(_)) => Progress {
                sets: true,
                ..self
            },
            ProofStep::WritePoint(Committed::LookupProduct(_)) => Progress {
                products: self.products + 1,
                ..self
            },
            ProofStep::WritePoint(Committed::QuotientPiece(_)) => Progress { pieces: true, ..self },
            _ => self,
        }
    }

    /// What steps add, one after another.
    pub open spec fn after_all(self, steps: Seq<ProofStep>) -> Progress
        decreases steps.len(),
    {
        if steps.len() == 0 {
            self
        } else {
            self.after_all(steps.drop_last()).after(steps.last())
        }
    }
}

impl<F> ProofShape<F> {
    /// Whether the columns have all been taken in.
    pub open spec fn taken_in(self, p: Progress) -> bool {
        p.advice_draws == self.columns.len()
    }

    /// Whether a polynomial is there to be evaluated.
    pub open spec fn available(self, p: Progress, which: Opened) -> bool {
        match which {
            Opened::Instance(c) => self.taken_in(p) && c < self.instances.len(),
            Opened::Advice(c) => self.taken_in(p) && c < self.num_advice,
            Opened::Fixed(c) => c < self.num_fixed,
            Opened::PermutationCommon(c) => c < self.num_permuted,
            Opened::PermutationProduct(s) => s < self.num_sets && p.sets,
            Opened::Lookup(l, _) => l < p.products,
            Opened::Quotient => self.num_pieces == 0 || p.pieces,
            Opened::Blinding => true,
        }
    }

    /// Whether all that a step is about is there, and nothing has been made yet of
    /// a challenge that it squeezes.
    pub open spec fn allowed(self, p: Progress, step: ProofStep) -> bool {
        match step {
            ProofStep::HashKey => true,
            ProofStep::CommonScalar(c, i) => c < self.instances.len() && i
                < self.instances[c as int]@.len(),
            ProofStep::CommonPoint(c) => self.taken_in(p) && c < self.instances.len(),
            ProofStep::Draw(what, count) => match what {
                Blinded::Advice(c) => {
                    &&& p.advice_draws < self.columns.len()
                    &&& c == self.columns[p.advice_draws as int]
                    &&& count == self.blinding_factors + 1
                },
                Blinded::PermutationProduct(s) => {
                    &&& s == p.set_draws
                    &&& s < self.num_sets
                    &&& count == self.blinding_factors
                    &&& !p.sets
                },
                Blinded::LookupProduct(l) => {
                    &&& l == p.lookup_draws
                    &&& l < self.num_lookups
                    &&& count == self.blinding_factors
                },
                Blinded::QuotientPiece(i) => i < self.num_pieces && count == 1,
            },
            ProofStep::WritePoint(what) => self.taken_in(p) && match what {
                Committed::Advice(c) => c < self.num_advice,
                Committed::LookupInput(l) => {
                    &&& l == p.permuted
                    &&& l < self.num_lookups
                    &&& p.challenges == self.challenges.len()
                },
                Committed::LookupTable(l) => l < p.permuted,
                Committed::PermutationProduct(s) => s < self.num_sets && p.set_draws
                    == self.num_sets,
                Committed::LookupProduct(l) => {
                    &&& l == p.products
                    &&& l < p.lookup_draws
                    &&& l < p.permuted
                },
                Committed::Blinding => true,
                Committed::QuotientPiece(i) => {
                    &&& i < self.num_pieces
                    &&& p.challenges == self.challenges.len()
                    &&& p.permuted == self.num_lookups
                    &&& p.products == self.num_lookups
                    &&& self.num_sets == 0 || p.sets
                },
            },
            ProofStep::Squeeze(name) => match name {
                ChallengeName::Circuit(i) => {
                    &&& i == p.challenges
                    &&& i < self.challenges.len()
                    &&& p.permuted == 0
                    &&& !p.pieces
                },
                ChallengeName::Theta => p.permuted == 0 && !p.pieces,
                ChallengeName::Beta | ChallengeName::Gamma => {
                    &&& !p.sets
                    &&& p.products == 0
                    &&& !p.pieces
                },
                ChallengeName::Y => !p.pieces,
                ChallengeName::X => true,
            },
            ProofStep::WriteScalar(which, _) => self.available(p, which),
        }
    }

    /// Whether each of the steps is allowed after those before it.
    pub open spec fn follows(self, p: Progress, steps: Seq<ProofStep>) -> bool {
        forall|i: int|
            0 <= i < steps.len() ==> self.allowed(
                p.after_all(steps.take(i)),
                #[trigger] steps[i],
            )
    }

    /// Whether all that is queried is there, all challenges belong to the first
    /// phase, and positions can be written as machine integers.
    pub open spec fn followable(self) -> bool {
        &&& self.wf()
        &&& self.blinding_factors < usize::MAX
        &&& self.instances.len() <= usize::MAX
        &&& self.num_advice <= usize::MAX
        &&& self.num_permuted <= usize::MAX
        &&& self.num_pieces <= usize::MAX
        &&& self.challenges.len() <= usize::MAX
        &&& self.challenges == first_columns(self.challenges.len())
        &&& forall|i: int|
            0 <= i < self.instance_queries.len() ==> (#[trigger] self.instance_queries[i]).0.index
                < self.instances.len()
        &&& forall|i: int|
            0 <= i < self.advice_queries.len() ==> (#[trigger] self.advice_queries[i]).0.index
                < self.num_advice
        &&& forall|i: int|
            0 <= i < self.fixed_queries.len() ==> (#[trigger] self.fixed_queries[i]).0.index
                < self.num_fixed
    }

    /// What the proof has come to when all its steps are done.
    pub open spec fn finished(self) -> Progress {
        Progress {
            advice_draws: self.columns.len(),
            challenges: self.challenges.len(),
            permuted: self.num_lookups,
            set_draws: self.num_sets,
            sets: self.num_sets > 0,
            lookup_draws: self.num_lookups,
            products: self.num_lookups,
            pieces: self.num_pieces > 0,
        }
    }
}

/// Whether steps can be followed from one state of a proof, and lead to another.
#[verifier::opaque]
spec fn leads<F>(shape: ProofShape<F>, p: Progress, steps: Seq<ProofStep>, q: Progress) -> bool {
    shape.follows(p, steps) && p.after_all(steps) == q
}

/// Steps one after another add what they add together.
pub proof fn lemma_after_append(p: Progress, a: Seq<ProofStep>, b: Seq<ProofStep>)
    ensures
        p.after_all(a + b) == p.after_all(a).after_all(b),
    decreases b.len(),
{
    if b.len() == 0 {
        assert(a + b =~= a);
    } else {
        assert((a + b).drop_last() =~= a + b.drop_last());
        lemma_after_append(p, a, b.drop_last());
    }
}

proof fn lemma_follows_append<F>(
    shape: ProofShape<F>,
    p: Progress,
    q: Progress,
    a: Seq<ProofStep>,
    b: Seq<ProofStep>,
)
    requires
        shape.follows(p, a),
        p.after_all(a) == q,
        shape.follows(q, b),
    ensures
        shape.follows(p, a + b),
        p.after_all(a + b) == q.after_all(b),
{
    let s = a + b;
    lemma_after_append(p, a, b);
    assert forall|i: int| 0 <= i < s.len() implies shape.allowed(
        p.after_all(s.take(i)),
        #[trigger] s[i],
    ) by {
        if i < a.len() {
            assert(s.take(i) =~= a.take(i));
            assert(s[i] == a[i]);
        } else {
            let j = i - a.len();
            assert(s.take(i) =~= a + b.take(j));
            lemma_after_append(p, a, b.take(j));
            assert(s[i] == b[j]);
        }
    }
}

/// A step more.
proof fn lemma_follows_push<F>(
    shape: ProofShape<F>,
    p: Progress,
    a: Seq<ProofStep>,
    step: ProofStep,
)
    requires
        shape.follows(p, a),
        shape.allowed(p.after_all(a), step),
    ensures
        shape.follows(p, a.push(step)),
        p.after_all(a.push(step)) == p.after_all(a).after(step),
{
    let s = a.push(step);
    assert(s.drop_last() =~= a);
    assert forall|i: int| 0 <= i < s.len() implies shape.allowed(
        p.after_all(s.take(i)),
        #[trigger] s[i],
    ) by {
        assert(s.take(i) =~= a.take(i));
        if i == a.len() {
            assert(a.take(i) =~= a);
        }
    }
}

/// Steps that add nothing can be followed where each is allowed.
proof fn lemma_follows_idle<F>(shape: ProofShape<F>, p: Progress, s: Seq<ProofStep>)
    requires
        forall|i: int|
            0 <= i < s.len() ==> shape.allowed(p, #[trigger] s[i]) && p.after(s[i]) == p,
    ensures
        shape.follows(p, s),
        p.after_all(s) == p,
    decreases s.len(),
{
    if s.len() == 0 {
        assert(shape.follows(p, s));
    } else {
        let front = s.drop_last();
        assert forall|i: int| 0 <= i < front.len() implies shape.allowed(p, #[trigger] front[i])
            && p.after(front[i]) == p by {
            assert(front[i] == s[i]);
        }
        lemma_follows_idle(shape, p, front);
        let last = s[s.len() - 1];
        assert(shape.allowed(p, last) && p.after(last) == p);
        lemma_follows_push(shape, p, front, last);
        assert(s =~= front.push(last));
    }
}

proof fn lemma_follow_scalars<F>(shape: ProofShape<F>, p: Progress, instances: Seq<Vec<F>>)
    requires
        instances.len() <= shape.instances.len() <= usize::MAX,
        instances == shape.instances.take(instances.len() as int),
    ensures
        leads(shape, p, instance_scalars(instances), p),
    decreases instances.len(),
{
    reveal(leads);
    if instances.len() == 0 {
        assert(shape.follows(p, instance_scalars(instances)));
    } else {
        let front = instances.drop_last();
        assert(front =~= shape.instances.take(front.len() as int));
        lemma_follow_scalars(shape, p, front);
        let c = instances.len() - 1;
        let column = instances.last();
        assert(column == shape.instances[c]);
        assert(column.len() == column@.len());
        let s = column_scalars(c, column@.len());
        lemma_follows_idle(shape, p, s);
        lemma_follows_append(shape, p, p, instance_scalars(front), s);
    }
}

proof fn lemma_follow_advice_draws<F>(shape: ProofShape<F>, p: Progress, n: nat)
    requires
        shape.blinding_factors < usize::MAX,
        n <= shape.columns.len(),
        p.advice_draws == 0,
    ensures
        ({
            let s = advice_draws(
                shape.columns.take(n as int),
                (shape.blinding_factors + 1) as usize,
            );
            leads(shape, p, s, Progress { advice_draws: n, ..p })
        }),
    decreases n,
{
    reveal(leads);
    let count = (shape.blinding_factors + 1) as usize;
    let s = advice_draws(shape.columns.take(n as int), count);
    if n == 0 {
        assert(shape.follows(p, s));
    } else {
        let front = advice_draws(shape.columns.take(n - 1), count);
        lemma_follow_advice_draws(shape, p, (n - 1) as nat);
        let step = ProofStep::Draw(Blinded::Advice(shape.columns[n - 1]), count);
        lemma_follows_push(shape, p, front, step);
        assert(s =~= front.push(step));
    }
}

proof fn lemma_follow_challenges<F>(shape: ProofShape<F>, p: Progress, n: nat)
    requires
        shape.challenges.len() <= usize::MAX,
        n <= shape.challenges.len(),
        p.challenges == 0,
        p.permuted == 0,
        !p.pieces,
    ensures
        leads(shape, p, challenge_steps(first_columns(n)), Progress { challenges: n, ..p }),
    decreases n,
{
    reveal(leads);
    let s = challenge_steps(first_columns(n));
    if n == 0 {
        assert(shape.follows(p, s));
    } else {
        let front = challenge_steps(first_columns((n - 1) as nat));
        lemma_follow_challenges(shape, p, (n - 1) as nat);
        let step = ProofStep::Squeeze(ChallengeName::Circuit((n - 1) as usize));
        lemma_follows_push(shape, p, front, step);
        assert(s =~= front.push(step));
    }
}

proof fn lemma_follow_permuted<F>(shape: ProofShape<F>, p: Progress, n: nat)
    requires
        n <= shape.num_lookups <= usize::MAX,
        shape.taken_in(p),
        p.challenges == shape.challenges.len(),
        p.permuted == 0,
    ensures
        leads(shape, p, permuted_steps(n), Progress { permuted: n, ..p }),
    decreases n,
{
    reveal(leads);
    if n == 0 {
        assert(shape.follows(p, permuted_steps(n)));
    } else {
        let front = permuted_steps((n - 1) as nat);
        lemma_follow_permuted(shape, p, (n - 1) as nat);
        let input = ProofStep::WritePoint(Committed::LookupInput((n - 1) as usize));
        let table = ProofStep::WritePoint(Committed::LookupTable((n - 1) as usize));
        lemma_follows_push(shape, p, front, input);
        lemma_follows_push(shape, p, front.push(input), table);
    }
}

proof fn lemma_follow_set_draws<F>(shape: ProofShape<F>, p: Progress, n: nat)
    requires
        n <= shape.num_sets <= usize::MAX,
        p.set_draws == 0,
        !p.sets,
    ensures
        leads(
            shape,
            p,
            permutation_draws(n, shape.blinding_factors),
            Progress { set_draws: n, ..p },
        ),
    decreases n,
{
    reveal(leads);
    let s = permutation_draws(n, shape.blinding_factors);
    if n == 0 {
        assert(shape.follows(p, s));
    } else {
        let front = permutation_draws((n - 1) as nat, shape.blinding_factors);
        lemma_follow_set_draws(shape, p, (n - 1) as nat);
        let step = ProofStep::Draw(
            Blinded::PermutationProduct((n - 1) as usize),
            shape.blinding_factors,
        );
        lemma_follows_push(shape, p, front, step);
        assert(s =~= front.push(step));
    }
}

proof fn lemma_follow_sets<F>(shape: ProofShape<F>, p: Progress, n: nat)
    requires
        n <= shape.num_sets <= usize::MAX,
        shape.taken_in(p),
        p.set_draws == shape.num_sets,
        !p.sets,
    ensures
        leads(shape, p, permutation_steps(n), Progress { sets: n > 0, ..p }),
    decreases n,
{
    reveal(leads);
    let s = permutation_steps(n);
    if n == 0 {
        assert(shape.follows(p, s));
    } else {
        let front = permutation_steps((n - 1) as nat);
        lemma_follow_sets(shape, p, (n - 1) as nat);
        let step = ProofStep::WritePoint(Committed::PermutationProduct((n - 1) as usize));
        lemma_follows_push(shape, p, front, step);
        assert(s =~= front.push(step));
    }
}

proof fn lemma_follow_products<F>(shape: ProofShape<F>, p: Progress, n: nat)
    requires
        n <= shape.num_lookups <= usize::MAX,
        shape.taken_in(p),
        p.permuted == shape.num_lookups,
        p.lookup_draws == 0,
        p.products == 0,
    ensures
        leads(
            shape,
            p,
            product_steps(n, shape.blinding_factors),
            Progress { lookup_draws: n, products: n, ..p },
        ),
    decreases n,
{
    reveal(leads);
    let count = shape.blinding_factors;
    if n == 0 {
        assert(shape.follows(p, product_steps(n, count)));
    } else {
        let front = product_steps((n - 1) as nat, count);
        lemma_follow_products(shape, p, (n - 1) as nat);
        let draw = ProofStep::Draw(Blinded::LookupProduct((n - 1) as usize), count);
        let write = ProofStep::WritePoint(Committed::LookupProduct((n - 1) as usize));
        lemma_follows_push(shape, p, front, draw);
        lemma_follows_push(shape, p, front.push(draw), write);
    }
}

proof fn lemma_follow_pieces<F>(shape: ProofShape<F>, p: Progress, n: nat)
    requires
        n <= shape.num_pieces <= usize::MAX,
        shape.taken_in(p),
        p.challenges == shape.challenges.len(),
        p.permuted == shape.num_lookups,
        p.products == shape.num_lookups,
        shape.num_sets == 0 || p.sets,
        !p.pieces,
    ensures
        leads(shape, p, quotient_steps(n), Progress { pieces: n > 0, ..p }),
    decreases n,
{
    reveal(leads);
    let s = quotient_steps(n);
    if n == 0 {
        assert(shape.follows(p, s));
    } else {
        let front = quotient_steps((n - 1) as nat);
        lemma_follow_pieces(shape, p, (n - 1) as nat);
        let step = ProofStep::WritePoint(Committed::QuotientPiece((n - 1) as usize));
        lemma_follows_push(shape, p, front, step);
        assert(s =~= front.push(step));
    }
}

/// All that is opened is there when all steps are done.
pub proof fn law_openings_available<F>(shape: ProofShape<F>, item: (Opened, Rotation))
    requires
        shape.followable(),
        shape.openings().contains(item),
    ensures
        shape.available(shape.finished(), item.0),
{
    let instance = instance_opened(shape.instance_queries);
    let advice = advice_opened(shape.advice_queries);
    let products = products_opened(permutation::prover::openings(shape.num_sets, shape.last));
    let lookups = lookups_opened(shape.num_lookups, lookup::prover::openings());
    let fixed = fixed_opened(shape.fixed_queries);
    let common = common_opened(shape.num_permuted);
    let end = seq![(Opened::Quotient, Rotation(0)), (Opened::Blinding, Rotation(0))];
    let first = if shape.query_instance {
        instance
    } else {
        Seq::empty()
    };
    let s1 = first + advice;
    let s2 = s1 + products;
    let s3 = s2 + lookups;
    let s4 = s3 + fixed;
    let s5 = s4 + common;
    assert(shape.openings() == s5 + end);
    lemma_append_contains(first, advice, item);
    lemma_append_contains(s1, products, item);
    lemma_append_contains(s2, lookups, item);
    lemma_append_contains(s3, fixed, item);
    lemma_append_contains(s4, common, item);
    lemma_append_contains(s5, end, item);
    lemma_lookups_contain(shape.num_lookups, lookup::prover::openings(), item);
    lemma_products_contain(permutation::prover::openings(shape.num_sets, shape.last), item);
    if products.contains(item) {
        if let Opened::PermutationProduct(set) = item.0 {
            permutation::prover::lemma_openings_of_sets(
                shape.num_sets,
                shape.last,
                (set, item.1),
            );
        }
    }
    if instance.contains(item) {
        let i = choose|i: int| 0 <= i < instance.len() && instance[i] == item;
        assert(shape.instance_queries[i].0.index < shape.instances.len());
    }
    if advice.contains(item) {
        let i = choose|i: int| 0 <= i < advice.len() && advice[i] == item;
        assert(shape.advice_queries[i].0.index < shape.num_advice);
    }
    if fixed.contains(item) {
        let i = choose|i: int| 0 <= i < fixed.len() && fixed[i] == item;
        assert(shape.fixed_queries[i].0.index < shape.num_fixed);
    }
    if common.contains(item) {
        let i = choose|i: int| 0 <= i < common.len() && common[i] == item;
        assert(common[i].0 == Opened::PermutationCommon(i as usize));
    }
}

proof fn lemma_leads_idle<F>(shape: ProofShape<F>, p: Progress, s: Seq<ProofStep>)
    requires
        forall|i: int|
            0 <= i < s.len() ==> shape.allowed(p, #[trigger] s[i]) && p.after(s[i]) == p,
    ensures
        leads(shape, p, s, p),
{
    reveal(leads);
    lemma_follows_idle(shape, p, s);
}

proof fn lemma_leads_append<F>(
    shape: ProofShape<F>,
    p: Progress,
    q: Progress,
    r: Progress,
    a: Seq<ProofStep>,
    b: Seq<ProofStep>,
)
    requires
        leads(shape, p, a, q),
        leads(shape, q, b, r),
    ensures
        leads(shape, p, a + b, r),
{
    reveal(leads);
    lemma_follows_append(shape, p, q, a, b);
}

/// The advice is taken in.
proof fn lemma_follow_advice<F>(shape: ProofShape<F>)
    requires
        shape.followable(),
    ensures
        leads(
            shape,
            Progress::start(),
            seq![ProofStep::HashKey] + shape.advice(),
            Progress {
                advice_draws: shape.columns.len(),
                challenges: shape.challenges.len(),
                ..Progress::start()
            },
        ),
{
    let none = Seq::<ProofStep>::empty();
    let count = (shape.blinding_factors + 1) as usize;
    let p0 = Progress::start();
    let p1 = Progress { advice_draws: shape.columns.len(), ..p0 };
    let p2 = Progress { challenges: shape.challenges.len(), ..p1 };
    let key = seq![ProofStep::HashKey];
    lemma_leads_idle(shape, p0, key);
    lemma_leads_idle(shape, p0, none);
    assert(shape.instances.take(shape.instances.len() as int) =~= shape.instances);
    lemma_follow_scalars(shape, p0, shape.instances);
    let scalars = if !shape.query_instance {
        instance_scalars(shape.instances)
    } else {
        none
    };
    let draws = advice_draws(shape.columns, count);
    assert(shape.columns.take(shape.columns.len() as int) =~= shape.columns);
    lemma_follow_advice_draws(shape, p0, shape.columns.len());
    let points = if shape.query_instance {
        instance_points(shape.instances.len())
    } else {
        none
    };
    lemma_leads_idle(shape, p1, points);
    let advice = advice_steps(first_columns(shape.num_advice));
    lemma_leads_idle(shape, p1, advice);
    let challenges = challenge_steps(shape.challenges);
    lemma_follow_challenges(shape, p1, shape.challenges.len());
    lemma_leads_append(shape, p0, p0, p1, scalars, draws);
    lemma_leads_append(shape, p0, p1, p1, scalars + draws, points);
    lemma_leads_append(shape, p0, p1, p1, scalars + draws + points, advice);
    lemma_leads_append(shape, p0, p1, p2, scalars + draws + points + advice, challenges);
    assert(shape.advice() == scalars + draws + points + advice + challenges);
    lemma_leads_append(shape, p0, p0, p2, key, shape.advice());
}

/// All is committed to.
proof fn lemma_follow_commitments<F>(shape: ProofShape<F>)
    requires
        shape.followable(),
    ensures
        leads(shape, Progress::start(), shape.commitments(), shape.finished()),
{
    let bf = shape.blinding_factors;
    let p0 = Progress::start();
    let p2 = Progress {
        advice_draws: shape.columns.len(),
        challenges: shape.challenges.len(),
        ..p0
    };
    let p3 = Progress { permuted: shape.num_lookups, ..p2 };
    let p4 = Progress { set_draws: shape.num_sets, ..p3 };
    let p5 = Progress { sets: shape.num_sets > 0, ..p4 };
    let p6 = Progress { lookup_draws: shape.num_lookups, products: shape.num_lookups, ..p5 };
    let p7 = Progress { pieces: shape.num_pieces > 0, ..p6 };
    assert(p7 == shape.finished());
    lemma_follow_advice(shape);
    let s1 = seq![ProofStep::HashKey] + shape.advice();
    // The lookups.
    let theta = seq![ProofStep::Squeeze(ChallengeName::Theta)];
    let permuted = permuted_steps(shape.num_lookups);
    lemma_leads_idle(shape, p2, theta);
    lemma_follow_permuted(shape, p2, shape.num_lookups);
    lemma_leads_append(shape, p0, p2, p2, s1, theta);
    let s2 = s1 + theta;
    lemma_leads_append(shape, p0, p2, p3, s2, permuted);
    let s3 = s2 + permuted;
    // The products.
    let pair = seq![
        ProofStep::Squeeze(ChallengeName::Beta),
        ProofStep::Squeeze(ChallengeName::Gamma),
    ];
    let set_draws = permutation_draws(shape.num_sets, bf);
    let sets = permutation_steps(shape.num_sets);
    let products = product_steps(shape.num_lookups, bf);
    lemma_leads_idle(shape, p3, pair);
    lemma_follow_set_draws(shape, p3, shape.num_sets);
    lemma_follow_sets(shape, p4, shape.num_sets);
    lemma_follow_products(shape, p5, shape.num_lookups);
    lemma_leads_append(shape, p0, p3, p3, s3, pair);
    let s4 = s3 + pair;
    lemma_leads_append(shape, p0, p3, p4, s4, set_draws);
    let s5 = s4 + set_draws;
    lemma_leads_append(shape, p0, p4, p5, s5, sets);
    let s6 = s5 + sets;
    lemma_leads_append(shape, p0, p5, p6, s6, products);
    let s7 = s6 + products;
    // The quotient.
    let blinding = seq![
        ProofStep::WritePoint(Committed::Blinding),
        ProofStep::Squeeze(ChallengeName::Y),
    ];
    let draws = quotient_draws(shape.num_pieces);
    let pieces = quotient_steps(shape.num_pieces);
    let x = seq![ProofStep::Squeeze(ChallengeName::X)];
    lemma_leads_idle(shape, p6, blinding);
    lemma_leads_idle(shape, p6, draws);
    lemma_follow_pieces(shape, p6, shape.num_pieces);
    lemma_leads_idle(shape, p7, x);
    lemma_leads_append(shape, p0, p6, p6, s7, blinding);
    let s8 = s7 + blinding;
    lemma_leads_append(shape, p0, p6, p6, s8, draws);
    let s9 = s8 + draws;
    lemma_leads_append(shape, p0, p6, p7, s9, pieces);
    let s10 = s9 + pieces;
    lemma_leads_append(shape, p0, p7, p7, s10, x);
    assert(shape.commitments() == s10 + x);
}

/// A proof can be made step by step: each of its steps finds what it is about,
/// made by the steps before it, no challenge is replaced once something has been
/// made of it, and in the end all that is opened is there.
pub proof fn law_steps_can_be_followed<F>(shape: ProofShape<F>)
    requires
        shape.followable(),
    ensures
        shape.follows(Progress::start(), shape.steps()),
        Progress::start().after_all(shape.steps()) == shape.finished(),
        forall|i: int|
            0 <= i < shape.openings().len() ==> shape.available(
                shape.finished(),
                (#[trigger] shape.openings()[i]).0,
            ),
{
    let p = Progress::start();
    let q = shape.finished();
    let e = shape.evaluations();
    let last = written(e);
    assert forall|i: int| 0 <= i < last.len() implies shape.allowed(q, #[trigger] last[i])
        && q.after(last[i]) == q by {
        assert(e.contains(e[i]));
        law_openings_match(shape, e[i]);
        law_openings_available(shape, e[i]);
    }
    lemma_leads_idle(shape, q, last);
    lemma_follow_commitments(shape);
    lemma_leads_append(shape, p, q, q, shape.commitments(), last);
    reveal(leads);
    let o = shape.openings();
    assert forall|i: int| 0 <= i < o.len() implies shape.available(q, (#[trigger] o[i]).0) by {
        assert(o.contains(o[i]));
        law_openings_available(shape, o[i]);
    }
}

} // verus!
