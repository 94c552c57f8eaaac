//! Expressions with identical identifiers do the same calculation.
//!
//! An identifier is a stem, which brackets delimit, with factors behind it. A
//! product of two expressions reads the same wherever the factors between the two
//! stems belong.

use crate::field::bn256::{fr_modulus, Fr};
use crate::field::{fmul, lemma_fmul_assoc, vals, Field};
use crate::plonk::circuit::GpuSelector;
use crate::plonk::expression::{scalar_text, CellValues, GpuExpression};
use crate::text::{decimal, decimal_nat, digit_char, hex_digits};
use vstd::arithmetic::power2::{lemma2_to64, lemma_pow2_adds, pow2};
use vstd::prelude::*;

verus! {

/// Whether distinct elements of a field have distinct texts.
pub open spec fn prints_distinctly<F: Field>() -> bool {
    forall|a: F, b: F|
        #[trigger] scalar_text(a) == #[trigger] scalar_text(b) ==> a.val() == b.val()
}

impl CellValues {
    /// Whether the values of selectors depend on their index alone.
    pub open spec fn selectors_by_index(self) -> bool {
        forall|s: GpuSelector, t: GpuSelector|
            s.0 == t.0 ==> #[trigger] (self.selector)(s) == #[trigger] (self.selector)(t)
    }
}

/// The expression without the factors that it is scaled by.
spec fn stem<F: Field>(e: GpuExpression<F>) -> GpuExpression<F>
    decreases e,
{
    match e {
        GpuExpression::Scaled(a, _) => stem(*a),
        _ => e,
    }
}

/// The factors that an expression is scaled by.
spec fn factors<F: Field>(e: GpuExpression<F>) -> Seq<F>
    decreases e,
{
    match e {
        GpuExpression::Scaled(a, f) => factors(*a).push(f),
        _ => Seq::empty(),
    }
}

/// The text of factors.
spec fn factors_text<F: Field>(s: Seq<F>) -> Seq<char>
    decreases s.len(),
{
    if s.len() == 0 {
        Seq::empty()
    } else {
        seq!['*'] + scalar_text(s[0]) + factors_text(s.drop_first())
    }
}

/// A value times factors.
spec fn times(p: int, v: int, s: Seq<int>) -> int
    decreases s.len(),
{
    if s.len() == 0 {
        v
    } else {
        fmul(p, times(p, v, s.drop_last()), s.last())
    }
}

proof fn lemma_hex_len(n: nat, width: nat)
    ensures
        hex_digits(n, width).len() == width,
    decreases width,
{
    if width > 0 {
        lemma_hex_len(n / 16, (width - 1) as nat);
    }
}

proof fn lemma_scalar_len<F: Field>(a: F)
    ensures
        scalar_text(a).len() == 66,
{
    lemma_hex_len(a.val() as nat, 64);
}

proof fn lemma_factors_push<F: Field>(s: Seq<F>, f: F)
    ensures
        factors_text(s.push(f)) == factors_text(s) + seq!['*'] + scalar_text(f),
    decreases s.len(),
{
    let t = s.push(f);
    if s.len() == 0 {
        assert(t.drop_first() =~= s);
        assert(factors_text(t.drop_first()) =~= Seq::empty());
        assert(factors_text(t) =~= factors_text(s) + seq!['*'] + scalar_text(f));
    } else {
        lemma_factors_push(s.drop_first(), f);
        assert(t.drop_first() =~= s.drop_first().push(f));
        assert(factors_text(t) =~= factors_text(s) + seq!['*'] + scalar_text(f));
    }
}

/// An identifier is that of the stem with the factors behind it.
proof fn lemma_stem<F: Field>(e: GpuExpression<F>, cells: CellValues)
    ensures
        e.identifier_text() == stem(e).identifier_text() + factors_text(factors(e)),
        e.value(cells) == times(F::modulus(), stem(e).value(cells), vals(factors(e))),
        !(stem(e) is Scaled),
    decreases e,
{
    match e {
        GpuExpression::Scaled(a, f) => {
            lemma_stem(*a, cells);
            lemma_factors_push(factors(*a), f);
            reveal_strlit("*");
            assert("*"@ =~= seq!['*']);
            assert(e.identifier_text() =~= stem(e).identifier_text() + factors_text(factors(e)));
            assert(vals(factors(e)).drop_last() =~= vals(factors(*a)));
            assert(vals(factors(e)).last() == f.val());
        },
        _ => {
            assert(e.identifier_text() =~= stem(e).identifier_text() + factors_text(factors(e)));
            assert(vals(factors(e)).len() == 0);
        },
    }
}

/// Texts of one length before others.
proof fn lemma_same_len(a: Seq<char>, b: Seq<char>, s: Seq<char>, t: Seq<char>)
    requires
        a.len() == b.len(),
        a + s == b + t,
    ensures
        a == b,
        s == t,
{
    let (u, v) = (a + s, b + t);
    assert(a =~= u.take(a.len() as int));
    assert(b =~= v.take(b.len() as int));
    assert(s =~= u.skip(a.len() as int));
    assert(t =~= v.skip(b.len() as int));
}

/// Texts up to a character that they do not hold.
proof fn lemma_until(a: Seq<char>, b: Seq<char>, c: char, s: Seq<char>, t: Seq<char>)
    requires
        !a.contains(c),
        !b.contains(c),
        a + seq![c] + s == b + seq![c] + t,
    ensures
        a == b,
        s == t,
{
    let (u, v) = (a + seq![c] + s, b + seq![c] + t);
    assert(u[a.len() as int] == c && v[b.len() as int] == c);
    if a.len() < b.len() {
        assert(b[a.len() as int] == v[a.len() as int]);
        assert(b.contains(c));
    } else if b.len() < a.len() {
        assert(a[b.len() as int] == u[b.len() as int]);
        assert(a.contains(c));
    }
    assert(a + seq![c] + s =~= a + (seq![c] + s));
    assert(b + seq![c] + t =~= b + (seq![c] + t));
    lemma_same_len(a, b, seq![c] + s, seq![c] + t);
    lemma_same_len(seq![c], seq![c], s, t);
}

proof fn lemma_decimal_nat_chars(n: nat)
    ensures
        decimal_nat(n).len() > 0,
        forall|i: int|
            0 <= i < decimal_nat(n).len() ==> '0' <= #[trigger] decimal_nat(n)[i] && decimal_nat(
                n,
            )[i] <= '9',
    decreases n,
{
    if n >= 10 {
        lemma_decimal_nat_chars(n / 10);
    }
}

proof fn lemma_decimal_nat_injective(m: nat, n: nat)
    requires
        decimal_nat(m) == decimal_nat(n),
    ensures
        m == n,
    decreases m,
{
    let (a, b) = (decimal_nat(m), decimal_nat(n));
    lemma_decimal_nat_chars(m / 10);
    lemma_decimal_nat_chars(n / 10);
    assert(a.last() == digit_char((m % 10) as int));
    assert(b.last() == digit_char((n % 10) as int));
    if m >= 10 && n >= 10 {
        assert(a.drop_last() =~= decimal_nat(m / 10));
        assert(b.drop_last() =~= decimal_nat(n / 10));
        lemma_decimal_nat_injective(m / 10, n / 10);
    }
}

/// Decimal notation up to a bracket.
proof fn lemma_decimal_until(m: int, n: int, s: Seq<char>, t: Seq<char>)
    requires
        decimal(m) + seq![']'] + s == decimal(n) + seq![']'] + t,
    ensures
        m == n,
        s == t,
{
    lemma_decimal_nat_chars(m as nat);
    lemma_decimal_nat_chars(n as nat);
    lemma_decimal_nat_chars((-m) as nat);
    lemma_decimal_nat_chars((-n) as nat);
    lemma_until(decimal(m), decimal(n), ']', s, t);
    if m < 0 && n < 0 {
        lemma_same_len(seq!['-'], seq!['-'], decimal_nat((-m) as nat), decimal_nat((-n) as nat));
        lemma_decimal_nat_injective((-m) as nat, (-n) as nat);
    } else if m >= 0 && n >= 0 {
        lemma_decimal_nat_injective(m as nat, n as nat);
    } else {
        assert(decimal(m)[0] == decimal(n)[0]);
    }
}

/// Factors behind the same stem: the fewer are the beginning of the more.
proof fn lemma_strip<F: Field>(a: Seq<F>, b: Seq<F>, s: Seq<char>, t: Seq<char>)
    requires
        prints_distinctly::<F>(),
        a.len() <= b.len(),
        factors_text(a) + s == factors_text(b) + t,
    ensures
        vals(a) == vals(b.take(a.len() as int)),
        s == factors_text(b.skip(a.len() as int)) + t,
    decreases a.len(),
{
    if a.len() == 0 {
        assert(factors_text(a) + s =~= s);
        assert(b.skip(0) =~= b);
        assert(vals(a) =~= vals(b.take(0)));
    } else {
        let (a1, b1) = (a.drop_first(), b.drop_first());
        lemma_scalar_len(a[0]);
        lemma_scalar_len(b[0]);
        let x = seq!['*'] + scalar_text(a[0]);
        let y = seq!['*'] + scalar_text(b[0]);
        assert(factors_text(a) + s =~= x + (factors_text(a1) + s));
        assert(factors_text(b) + t =~= y + (factors_text(b1) + t));
        lemma_same_len(x, y, factors_text(a1) + s, factors_text(b1) + t);
        lemma_same_len(seq!['*'], seq!['*'], scalar_text(a[0]), scalar_text(b[0]));
        lemma_strip(a1, b1, s, t);
        let k = a.len() as int;
        assert(b1.skip(k - 1) =~= b.skip(k));
        assert(vals(a) =~= vals(b.take(k))) by {
            assert forall|i: int| 0 <= i < k implies vals(a)[i] == vals(b.take(k))[i] by {
                if i > 0 {
                    assert(vals(a1)[i - 1] == vals(b1.take(k - 1))[i - 1]);
                }
            }
        }
    }
}

/// Factors that something else than a factor ends.
proof fn lemma_factors_end<F: Field>(a: Seq<F>, b: Seq<F>, s: Seq<char>, t: Seq<char>)
    requires
        prints_distinctly::<F>(),
        factors_text(a) + s == factors_text(b) + t,
        s.len() > 0,
        t.len() > 0,
        s[0] != '*',
        t[0] != '*',
    ensures
        vals(a) == vals(b),
        s == t,
{
    if a.len() <= b.len() {
        lemma_strip(a, b, s, t);
        let rest = b.skip(a.len() as int);
        if rest.len() > 0 {
            assert((factors_text(rest) + t)[0] == '*');
        }
        assert(b.take(a.len() as int) =~= b);
        assert(factors_text(rest) + t =~= t);
    } else {
        lemma_strip(b, a, t, s);
        let rest = a.skip(b.len() as int);
        assert((factors_text(rest) + s)[0] == '*');
    }
}

/// What an identifier begins with.
proof fn lemma_first_char<F: Field>(e: GpuExpression<F>, cells: CellValues)
    requires
        !(e is Scaled),
    ensures
        e.identifier_text().len() > 0,
        ({
            let c = e.identifier_text()[0];
            match e {
                GpuExpression::Constant(_) => c == '0',
                GpuExpression::Selector(_) => c == 's',
                GpuExpression::Fixed(_) => c == 'f',
                GpuExpression::Advice(_) => c == 'a',
                GpuExpression::Instance(_) => c == 'i',
                GpuExpression::Challenge(_) => c == 'c',
                _ => c == '(',
            }
        }),
{
    reveal_strlit("selector[");
    reveal_strlit("fixed[");
    reveal_strlit("advice[");
    reveal_strlit("instance[");
    reveal_strlit("challenge[");
    reveal_strlit("(-");
    reveal_strlit("(");
}

/// No identifier begins with a minus sign.
proof fn lemma_first_char_any<F: Field>(e: GpuExpression<F>, cells: CellValues)
    ensures
        e.identifier_text().len() > 0,
        e.identifier_text()[0] != '-',
{
    lemma_stem(e, cells);
    lemma_first_char(stem(e), cells);
}

/// The text of a column's cell.
proof fn lemma_cell_text(
    name: Seq<char>,
    column: int,
    rotation: int,
    column2: int,
    rotation2: int,
    s: Seq<char>,
    t: Seq<char>,
)
    requires
        name + decimal(column) + "]["@ + decimal(rotation) + "]"@ + s == name + decimal(column2)
            + "]["@ + decimal(rotation2) + "]"@ + t,
    ensures
        column == column2,
        rotation == rotation2,
        s == t,
{
    reveal_strlit("][");
    reveal_strlit("]");
    assert("]["@ =~= seq![']', '[']);
    assert("]"@ =~= seq![']']);
    let x = decimal(rotation) + seq![']'] + s;
    let y = decimal(rotation2) + seq![']'] + t;
    let u = decimal(column) + seq![']'] + (seq!['['] + x);
    let v = decimal(column2) + seq![']'] + (seq!['['] + y);
    assert(name + decimal(column) + "]["@ + decimal(rotation) + "]"@ + s =~= name + u);
    assert(name + decimal(column2) + "]["@ + decimal(rotation2) + "]"@ + t =~= name + v);
    lemma_same_len(name, name, u, v);
    lemma_decimal_until(column, column2, seq!['['] + x, seq!['['] + y);
    lemma_same_len(seq!['['], seq!['['], x, y);
    lemma_decimal_until(rotation, rotation2, s, t);
}

/// The text of what an index stands for.
proof fn lemma_index_text(name: Seq<char>, m: int, n: int, s: Seq<char>, t: Seq<char>)
    requires
        name + decimal(m) + "]"@ + s == name + decimal(n) + "]"@ + t,
    ensures
        m == n,
        s == t,
{
    reveal_strlit("]");
    assert("]"@ =~= seq![']']);
    let (u, v) = (decimal(m) + seq![']'] + s, decimal(n) + seq![']'] + t);
    assert(name + decimal(m) + "]"@ + s =~= name + u);
    assert(name + decimal(n) + "]"@ + t =~= name + v);
    lemma_same_len(name, name, u, v);
    lemma_decimal_until(m, n, s, t);
}

/// The factors of a product may be taken together in any way.
proof fn lemma_times_product(p: int, v: int, w: int, s: Seq<int>)
    requires
        p > 0,
    ensures
        fmul(p, v, times(p, w, s)) == times(p, fmul(p, v, w), s),
    decreases s.len(),
{
    if s.len() > 0 {
        lemma_times_product(p, v, w, s.drop_last());
        lemma_fmul_assoc(p, v, times(p, w, s.drop_last()), s.last());
    }
}

proof fn lemma_times_append(p: int, v: int, s: Seq<int>, t: Seq<int>)
    ensures
        times(p, v, s + t) == times(p, times(p, v, s), t),
    decreases t.len(),
{
    if t.len() == 0 {
        assert(s + t =~= s);
    } else {
        lemma_times_append(p, v, s, t.drop_last());
        assert((s + t).drop_last() =~= s + t.drop_last());
    }
}

/// The text of a sum or product.
proof fn lemma_pair_text<F: Field>(e: GpuExpression<F>, s: Seq<char>)
    ensures
        match e {
            GpuExpression::Sum(a, b) => e.identifier_text() + s == seq!['('] + (
            a.identifier_text() + (seq!['+'] + (b.identifier_text() + (seq![')'] + s)))),
            GpuExpression::Product(a, b) => e.identifier_text() + s == seq!['('] + (
            a.identifier_text() + (seq!['*'] + (b.identifier_text() + (seq![')'] + s)))),
            GpuExpression::Negated(a) => e.identifier_text() + s == seq!['('] + (seq!['-'] + (
            a.identifier_text() + (seq![')'] + s))),
            _ => true,
        },
        match e {
            GpuExpression::Sum(a, b) => a.identifier_text().len() + b.identifier_text().len()
                < e.identifier_text().len(),
            GpuExpression::Product(a, b) => a.identifier_text().len() + b.identifier_text().len()
                < e.identifier_text().len(),
            GpuExpression::Negated(a) => a.identifier_text().len() < e.identifier_text().len(),
            _ => true,
        },
{
    reveal_strlit("(-");
    reveal_strlit("(");
    reveal_strlit(")");
    reveal_strlit("+");
    reveal_strlit("*");
    match e {
        GpuExpression::Sum(a, b) => {
            assert(e.identifier_text() + s =~= seq!['('] + (a.identifier_text() + (seq!['+'] + (
            b.identifier_text() + (seq![')'] + s)))));
        },
        GpuExpression::Product(a, b) => {
            assert(e.identifier_text() + s =~= seq!['('] + (a.identifier_text() + (seq!['*'] + (
            b.identifier_text() + (seq![')'] + s)))));
        },
        GpuExpression::Negated(a) => {
            assert(e.identifier_text() + s =~= seq!['('] + (seq!['-'] + (a.identifier_text() + (
            seq![')'] + s))));
        },
        _ => {},
    }
}

/// Stems delimit themselves: where one text begins with the identifiers of two
/// stems, they do the same calculation and end together.
proof fn lemma_same_stem<F: Field>(
    a: GpuExpression<F>,
    b: GpuExpression<F>,
    s: Seq<char>,
    t: Seq<char>,
    cells: CellValues,
)
    requires
        prints_distinctly::<F>(),
        cells.selectors_by_index(),
        !(a is Scaled),
        !(b is Scaled),
        a.identifier_text() + s == b.identifier_text() + t,
    ensures
        a.value(cells) == b.value(cells),
        s == t,
    decreases a.identifier_text().len() + b.identifier_text().len(), 0nat,
{
    lemma_first_char(a, cells);
    lemma_first_char(b, cells);
    assert((a.identifier_text() + s)[0] == a.identifier_text()[0]);
    assert((b.identifier_text() + t)[0] == b.identifier_text()[0]);
    lemma_pair_text(a, s);
    lemma_pair_text(b, t);
    match (a, b) {
        (GpuExpression::Constant(x), GpuExpression::Constant(y)) => {
            lemma_scalar_len(x);
            lemma_scalar_len(y);
            lemma_same_len(scalar_text(x), scalar_text(y), s, t);
        },
        (GpuExpression::Selector(x), GpuExpression::Selector(y)) => {
            lemma_index_text("selector["@, x.0 as int, y.0 as int, s, t);
        },
        (GpuExpression::Fixed(x), GpuExpression::Fixed(y)) => {
            lemma_cell_text(
                "fixed["@,
                x.column_index as int,
                x.rotation.0 as int,
                y.column_index as int,
                y.rotation.0 as int,
                s,
                t,
            );
        },
        (GpuExpression::Advice(x), GpuExpression::Advice(y)) => {
            lemma_cell_text(
                "advice["@,
                x.column_index as int,
                x.rotation.0 as int,
                y.column_index as int,
                y.rotation.0 as int,
                s,
                t,
            );
        },
        (GpuExpression::Instance(x), GpuExpression::Instance(y)) => {
            lemma_cell_text(
                "instance["@,
                x.column_index as int,
                x.rotation.0 as int,
                y.column_index as int,
                y.rotation.0 as int,
                s,
                t,
            );
        },
        (GpuExpression::Challenge(x), GpuExpression::Challenge(y)) => {
            lemma_index_text("challenge["@, x.index as int, y.index as int, s, t);
        },
        (GpuExpression::Negated(x), GpuExpression::Negated(y)) => {
            let (u, v) = (seq![')'] + s, seq![')'] + t);
            let (x1, y1) = (x.identifier_text() + u, y.identifier_text() + v);
            lemma_same_len(seq!['('], seq!['('], seq!['-'] + x1, seq!['-'] + y1);
            lemma_same_len(seq!['-'], seq!['-'], x1, y1);
            lemma_same_text(*x, *y, u, v, cells);
            lemma_same_len(seq![')'], seq![')'], s, t);
        },
        (GpuExpression::Negated(x), GpuExpression::Sum(y, _)) => {
            lemma_first_char_any(*y, cells);
            assert((a.identifier_text() + s)[1] == '-');
            assert((b.identifier_text() + t)[1] == y.identifier_text()[0]);
        },
        (GpuExpression::Negated(x), GpuExpression::Product(y, _)) => {
            lemma_first_char_any(*y, cells);
            assert((a.identifier_text() + s)[1] == '-');
            assert((b.identifier_text() + t)[1] == y.identifier_text()[0]);
        },
        (GpuExpression::Sum(x, _), GpuExpression::Negated(y)) => {
            lemma_first_char_any(*x, cells);
            assert((b.identifier_text() + t)[1] == '-');
            assert((a.identifier_text() + s)[1] == x.identifier_text()[0]);
        },
        (GpuExpression::Product(x, _), GpuExpression::Negated(y)) => {
            lemma_first_char_any(*x, cells);
            assert((b.identifier_text() + t)[1] == '-');
            assert((a.identifier_text() + s)[1] == x.identifier_text()[0]);
        },
        (GpuExpression::Sum(x, x2), GpuExpression::Sum(y, y2)) => {
            let (u, v) = (seq![')'] + s, seq![')'] + t);
            let (x3, y3) = (x2.identifier_text() + u, y2.identifier_text() + v);
            let (x4, y4) = (seq!['+'] + x3, seq!['+'] + y3);
            lemma_same_len(
                seq!['('],
                seq!['('],
                x.identifier_text() + x4,
                y.identifier_text() + y4,
            );
            lemma_same_text(*x, *y, x4, y4, cells);
            lemma_same_len(seq!['+'], seq!['+'], x3, y3);
            lemma_same_text(*x2, *y2, u, v, cells);
            lemma_same_len(seq![')'], seq![')'], s, t);
        },
        (GpuExpression::Sum(x, x2), GpuExpression::Product(y, y2)) => {
            lemma_sum_is_no_product(*x, *x2, *y, *y2, s, t, cells);
        },
        (GpuExpression::Product(x, x2), GpuExpression::Sum(y, y2)) => {
            lemma_sum_is_no_product(*y, *y2, *x, *x2, t, s, cells);
        },
        (GpuExpression::Product(x, x2), GpuExpression::Product(y, y2)) => {
            lemma_stem(*x, cells);
            lemma_stem(*y, cells);
            if factors(*x).len() <= factors(*y).len() {
                lemma_same_product(*x, *x2, *y, *y2, s, t, cells);
            } else {
                lemma_same_product(*y, *y2, *x, *x2, t, s, cells);
            }
        },
        _ => {},
    }
}

/// Identifiers that something else than a factor ends.
proof fn lemma_same_text<F: Field>(
    a: GpuExpression<F>,
    b: GpuExpression<F>,
    s: Seq<char>,
    t: Seq<char>,
    cells: CellValues,
)
    requires
        prints_distinctly::<F>(),
        cells.selectors_by_index(),
        a.identifier_text() + s == b.identifier_text() + t,
        s.len() > 0,
        t.len() > 0,
        s[0] != '*',
        t[0] != '*',
    ensures
        a.value(cells) == b.value(cells),
        s == t,
    decreases a.identifier_text().len() + b.identifier_text().len(), 1nat,
{
    lemma_stem(a, cells);
    lemma_stem(b, cells);
    let (u, v) = (factors_text(factors(a)) + s, factors_text(factors(b)) + t);
    assert(a.identifier_text() + s =~= stem(a).identifier_text() + u);
    assert(b.identifier_text() + t =~= stem(b).identifier_text() + v);
    lemma_same_stem(stem(a), stem(b), u, v, cells);
    lemma_factors_end(factors(a), factors(b), s, t);
}

/// A sum and a product do not read the same.
proof fn lemma_sum_is_no_product<F: Field>(
    x: GpuExpression<F>,
    x2: GpuExpression<F>,
    y: GpuExpression<F>,
    y2: GpuExpression<F>,
    s: Seq<char>,
    t: Seq<char>,
    cells: CellValues,
)
    requires
        prints_distinctly::<F>(),
        cells.selectors_by_index(),
    ensures
        seq!['('] + (x.identifier_text() + (seq!['+'] + (x2.identifier_text() + (seq![')'] + s))))
            != seq!['('] + (y.identifier_text() + (seq!['*'] + (y2.identifier_text() + (seq![')']
            + t)))),
    decreases
            x.identifier_text().len() + x2.identifier_text().len() + y.identifier_text().len()
                + y2.identifier_text().len() + 1,
            0nat,
{
    let x3 = x2.identifier_text() + (seq![')'] + s);
    let y3 = y2.identifier_text() + (seq![')'] + t);
    let (x4, y4) = (seq!['+'] + x3, seq!['*'] + y3);
    if seq!['('] + (x.identifier_text() + x4) == seq!['('] + (y.identifier_text() + y4) {
        lemma_same_len(seq!['('], seq!['('], x.identifier_text() + x4, y.identifier_text() + y4);
        lemma_stem(x, cells);
        lemma_stem(y, cells);
        let (u, v) = (factors_text(factors(x)) + x4, factors_text(factors(y)) + y4);
        assert(x.identifier_text() + x4 =~= stem(x).identifier_text() + u);
        assert(y.identifier_text() + y4 =~= stem(y).identifier_text() + v);
        lemma_first_char_any(x2, cells);
        lemma_first_char_any(y2, cells);
        lemma_same_stem(stem(x), stem(y), u, v, cells);
        let (fs, gs) = (factors(x), factors(y));
        if fs.len() <= gs.len() {
            lemma_strip(fs, gs, x4, y4);
            let rest = gs.skip(fs.len() as int);
            if rest.len() > 0 {
                assert((factors_text(rest) + y4)[0] == '*');
            } else {
                assert(factors_text(rest) + y4 =~= y4);
            }
            assert(x4[0] == '+');
        } else {
            lemma_strip(gs, fs, y4, x4);
            let rest = fs.skip(gs.len() as int);
            // The second stem of the product is the next factor in the sum.
            let tail = factors_text(rest.drop_first()) + x4;
            lemma_scalar_len(rest[0]);
            assert(factors_text(rest) + x4 =~= seq!['*'] + (scalar_text(rest[0]) + tail));
            lemma_same_len(seq!['*'], seq!['*'], y3, scalar_text(rest[0]) + tail);
            lemma_stem(y2, cells);
            let w = factors_text(factors(y2)) + (seq![')'] + t);
            assert(y3 =~= stem(y2).identifier_text() + w);
            let c = GpuExpression::<F>::Constant(rest[0]);
            assert(c.identifier_text() == scalar_text(rest[0]));
            lemma_factors_len(fs);
            lemma_same_stem(stem(y2), c, w, tail, cells);
            lemma_factors_end(factors(y2), rest.drop_first(), seq![')'] + t, x4);
            assert((seq![')'] + t)[0] == ')');
            assert(x4[0] == '+');
        }
    }
}

proof fn lemma_factors_len<F: Field>(s: Seq<F>)
    ensures
        factors_text(s).len() == 67 * s.len(),
    decreases s.len(),
{
    if s.len() > 0 {
        lemma_scalar_len(s[0]);
        lemma_factors_len(s.drop_first());
    }
}

/// Products that read the same, of which the first has no more factors before its
/// second stem.
proof fn lemma_same_product<F: Field>(
    x: GpuExpression<F>,
    x2: GpuExpression<F>,
    y: GpuExpression<F>,
    y2: GpuExpression<F>,
    s: Seq<char>,
    t: Seq<char>,
    cells: CellValues,
)
    requires
        prints_distinctly::<F>(),
        cells.selectors_by_index(),
        seq!['('] + (x.identifier_text() + (seq!['*'] + (x2.identifier_text() + (seq![')'] + s))))
            == seq!['('] + (y.identifier_text() + (seq!['*'] + (y2.identifier_text() + (seq![')']
            + t)))),
        factors(x).len() <= factors(y).len(),
    ensures
        fmul(F::modulus(), x.value(cells), x2.value(cells)) == fmul(
            F::modulus(),
            y.value(cells),
            y2.value(cells),
        ),
        s == t,
    decreases
            x.identifier_text().len() + x2.identifier_text().len() + y.identifier_text().len()
                + y2.identifier_text().len() + 1,
            0nat,
{
    let p = F::modulus();
    F::lemma_modulus();
    let (s1, t1) = (seq![')'] + s, seq![')'] + t);
    let x3 = x2.identifier_text() + s1;
    let y3 = y2.identifier_text() + t1;
    let (x4, y4) = (seq!['*'] + x3, seq!['*'] + y3);
    lemma_same_len(seq!['('], seq!['('], x.identifier_text() + x4, y.identifier_text() + y4);
    lemma_stem(x, cells);
    lemma_stem(y, cells);
    lemma_stem(x2, cells);
    lemma_stem(y2, cells);
    lemma_first_char_any(x2, cells);
    lemma_first_char_any(y2, cells);
    let (fs, gs) = (factors(x), factors(y));
    let (hs, ks) = (factors(x2), factors(y2));
    let (u, v) = (factors_text(fs) + x4, factors_text(gs) + y4);
    assert(x.identifier_text() + x4 =~= stem(x).identifier_text() + u);
    assert(y.identifier_text() + y4 =~= stem(y).identifier_text() + v);
    lemma_same_stem(stem(x), stem(y), u, v, cells);
    lemma_strip(fs, gs, x4, y4);
    let rest = gs.skip(fs.len() as int);
    let x5 = factors_text(hs) + s1;
    let y5 = factors_text(ks) + t1;
    assert(x3 =~= stem(x2).identifier_text() + x5);
    assert(y3 =~= stem(y2).identifier_text() + y5);
    if rest.len() == 0 {
        assert(factors_text(rest) + y4 =~= y4);
        lemma_same_len(seq!['*'], seq!['*'], x3, y3);
        lemma_same_stem(stem(x2), stem(y2), x5, y5, cells);
        lemma_factors_end(hs, ks, s1, t1);
        lemma_same_len(seq![')'], seq![')'], s, t);
        assert(gs.take(fs.len() as int) =~= gs);
    } else {
        // The second stem of the first product is a factor in the second.
        let more = rest.drop_first();
        let tail = factors_text(more) + y4;
        lemma_scalar_len(rest[0]);
        assert(factors_text(rest) + y4 =~= seq!['*'] + (scalar_text(rest[0]) + tail));
        lemma_same_len(seq!['*'], seq!['*'], x3, scalar_text(rest[0]) + tail);
        let c = GpuExpression::<F>::Constant(rest[0]);
        assert(c.identifier_text() == scalar_text(rest[0]));
        lemma_factors_len(gs);
        lemma_same_stem(stem(x2), c, x5, tail, cells);
        // What follows it is the rest of the factors, and the second stem.
        if hs.len() <= more.len() {
            lemma_strip(hs, more, s1, y4);
            let r = more.skip(hs.len() as int);
            assert(s1[0] == ')');
            if r.len() > 0 {
                assert((factors_text(r) + y4)[0] == '*');
            } else {
                assert(factors_text(r) + y4 =~= y4);
            }
            assert(false);
        }
        lemma_strip(more, hs, y4, s1);
        let r = hs.skip(more.len() as int);
        let last = r.drop_first();
        let end = factors_text(last) + s1;
        lemma_scalar_len(r[0]);
        assert(factors_text(r) + s1 =~= seq!['*'] + (scalar_text(r[0]) + end));
        lemma_same_len(seq!['*'], seq!['*'], y3, scalar_text(r[0]) + end);
        let d = GpuExpression::<F>::Constant(r[0]);
        assert(d.identifier_text() == scalar_text(r[0]));
        lemma_factors_len(hs);
        lemma_same_stem(stem(y2), d, y5, end, cells);
        lemma_factors_end(ks, last, t1, s1);
        lemma_same_len(seq![')'], seq![')'], s, t);
        // (a fs) (c (more d ks)) = (a fs c more) (d ks)
        let a = stem(x).value(cells);
        let (f, m, k) = (vals(fs), vals(more), vals(ks));
        let (cv, dv) = (rest[0].val(), r[0].val());
        let left = times(p, a, f);
        assert(vals(hs) =~= m + seq![dv] + k) by {
            let n = more.len() as int;
            assert(vals(hs.take(n)) =~= m);
            assert(vals(last) =~= k);
            assert forall|i: int| 0 <= i < hs.len() implies vals(hs)[i] == (m + seq![dv]
                + k)[i] by {
                if i < n {
                    assert(vals(hs.take(n))[i] == m[i]);
                } else if i > n {
                    assert(vals(last)[i - n - 1] == k[i - n - 1]);
                }
            }
        }
        assert(vals(gs) =~= f + seq![cv] + m) by {
            let n = fs.len() as int;
            assert(vals(gs.take(n)) =~= f);
            assert forall|i: int| 0 <= i < gs.len() implies vals(gs)[i] == (f + seq![cv]
                + m)[i] by {
                if i < n {
                    assert(vals(gs.take(n))[i] == f[i]);
                }
            }
        }
        lemma_times_product(p, left, cv, vals(hs));
        lemma_times_append(p, fmul(p, left, cv), m + seq![dv], k);
        lemma_times_append(p, fmul(p, left, cv), m, seq![dv]);
        lemma_times_append(p, a, f + seq![cv], m);
        lemma_times_append(p, a, f, seq![cv]);
        lemma_times_one(p, left, cv);
        let front = times(p, fmul(p, left, cv), m);
        lemma_times_one(p, front, dv);
        lemma_times_product(p, front, dv, k);
    }
}

proof fn lemma_times_one(p: int, v: int, f: int)
    ensures
        times(p, v, seq![f]) == fmul(p, v, f),
{
    assert(seq![f].drop_last() =~= Seq::<int>::empty());
    assert(times(p, v, seq![f].drop_last()) == v);
}

/// Expressions with identical identifiers do the same calculation, where distinct
/// field elements have distinct texts: they have the same value over all cells
/// that give selectors of one index one value.
pub proof fn law_identifiers_tell_calculations<F: Field>(
    a: GpuExpression<F>,
    b: GpuExpression<F>,
    cells: CellValues,
)
    requires
        prints_distinctly::<F>(),
        cells.selectors_by_index(),
        a.identifier_text() == b.identifier_text(),
    ensures
        a.value(cells) == b.value(cells),
{
    let end = seq![')'];
    assert(a.identifier_text() + end == b.identifier_text() + end);
    lemma_same_text(a, b, end, end, cells);
}

proof fn lemma_hex_injective(m: nat, n: nat, width: nat)
    requires
        m < pow2(4 * width),
        n < pow2(4 * width),
        hex_digits(m, width) == hex_digits(n, width),
    ensures
        m == n,
    decreases width,
{
    if width == 0 {
        lemma2_to64();
    } else {
        let w = (width - 1) as nat;
        let (a, b) = (hex_digits(m, width), hex_digits(n, width));
        lemma_pow2_adds(4 * w, 4);
        lemma2_to64();
        assert(pow2(4 * width) == pow2(4 * w) * 16);
        assert(a.last() == digit_char((m % 16) as int));
        assert(b.last() == digit_char((n % 16) as int));
        assert(a.drop_last() =~= hex_digits(m / 16, w));
        assert(b.drop_last() =~= hex_digits(n / 16, w));
        lemma_hex_injective(m / 16, n / 16, w);
    }
}

/// Distinct elements of the scalar field of BN254 have distinct texts.
pub proof fn law_bn256_prints_distinctly()
    ensures
        prints_distinctly::<Fr>(),
{
    assert forall|a: Fr, b: Fr| #[trigger] scalar_text(a) == #[trigger] scalar_text(b) implies
        a.val() == b.val() by {
        lemma_same_len(
            seq!['0', 'x'],
            seq!['0', 'x'],
            hex_digits(a.val() as nat, 64),
            hex_digits(b.val() as nat, 64),
        );
        lemma2_to64();
        lemma_pow2_adds(64, 64);
        lemma_pow2_adds(128, 128);
        let half = 0x1_0000_0000_0000_0000_0000_0000_0000_0000int;
        assert(pow2(64) == 0x1_0000_0000_0000_0000int);
        assert(pow2(128) == half);
        assert(pow2(256) == half * half);
        assert(pow2(256) > fr_modulus());
        a.lemma_val_range();
        b.lemma_val_range();
        lemma_hex_injective(a.val() as nat, b.val() as nat, 64);
    }
}

} // verus!
