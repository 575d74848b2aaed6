use vstd::prelude::*;
use vstd::arithmetic::div_mod::lemma_div_is_ordered_by_denominator;
use crate::composition::combos;
use crate::construction::{build_terms, factor_terms, realized, terms_nonneg};
use crate::factors::{lemma_weights_bounds, weights};

verus! {

/// The counts with the last entry, the remainder, raised by one: the base
/// itself is always used once more than the remainder.
pub open spec fn bump(s: Seq<int>) -> Seq<int> {
    s.update(s.len() - 1, s.last() + 1)
}

/// The constructions of base `b`, in enumeration order.
pub open spec fn base_constructions(b: int) -> Seq<Seq<(int, int)>> {
    combos(b - 1, weights(b), 0).map_values(|s: Seq<int>| build_terms(b, weights(b), bump(s)))
}

/// The constructions of the bases `m + 1 ..= n`, base by base.
pub open spec fn scanned_between(m: int, n: int) -> Seq<Seq<(int, int)>>
    decreases n - m,
{
    if n <= m {
        seq![]
    } else {
        scanned_between(m, n - 1) + base_constructions(n)
    }
}

/// The constructions of the bases `1 ..= n`, base by base.
pub open spec fn scanned(n: int) -> Seq<Seq<(int, int)>> {
    scanned_between(0, n)
}

/// The constructions of `s` whose realized value is `v`, in order.
pub open spec fn matching(s: Seq<Seq<(int, int)>>, v: int) -> Seq<Seq<(int, int)>>
    decreases s.len(),
{
    if s.len() == 0 {
        seq![]
    } else if realized(s.last()) == v {
        matching(s.drop_last(), v).push(s.last())
    } else {
        matching(s.drop_last(), v)
    }
}

/// The weighted sum of the first `ws.len()` counts of `cs`.
pub open spec fn dot(ws: Seq<int>, cs: Seq<int>) -> int
    decreases ws.len(),
{
    if ws.len() == 0 {
        0
    } else {
        dot(ws.drop_last(), cs) + ws.last() * cs[ws.len() - 1]
    }
}

proof fn lemma_dot_cons(ws: Seq<int>, c: int, s: Seq<int>)
    requires
        ws.len() >= 1,
        s.len() + 1 >= ws.len(),
    ensures
        dot(ws, seq![c] + s) == c * ws[0] + dot(ws.drop_first(), s),
    decreases ws.len(),
{
    let cs = seq![c] + s;
    let n = ws.len() - 1;
    if ws.len() == 1 {
        assert(ws.drop_last().len() == 0);
        assert(ws.drop_first().len() == 0);
        assert(dot(ws, cs) == dot(ws.drop_last(), cs) + ws[0] * cs[0]);
        assert(cs[0] == c);
        assert(dot(ws.drop_last(), cs) == 0);
        assert(dot(ws.drop_first(), s) == 0);
        assert(ws[0] * c == c * ws[0]) by (nonlinear_arith);
    } else {
        lemma_dot_cons(ws.drop_last(), c, s);
        assert(ws.drop_last().drop_first() =~= ws.drop_first().drop_last());
        assert(ws.drop_last()[0] == ws[0]);
        assert(cs[n] == s[n - 1]);
        assert(ws.drop_first().last() == ws.last());
        assert(ws.drop_first().len() == n);
        assert(dot(ws, cs) == dot(ws.drop_last(), cs) + ws.last() * cs[n]);
        assert(dot(ws.drop_first(), s) == dot(ws.drop_first().drop_last(), s) + ws.last() * s[n - 1]);
    }
}

proof fn lemma_dot_agree(ws: Seq<int>, a: Seq<int>, b: Seq<int>)
    requires
        a.len() >= ws.len(),
        b.len() >= ws.len(),
        forall|i: int| 0 <= i < ws.len() ==> a[i] == b[i],
    ensures
        dot(ws, a) == dot(ws, b),
    decreases ws.len(),
{
    if ws.len() > 0 {
        lemma_dot_agree(ws.drop_last(), a, b);
    }
}

/// The shape of every count sequence: one count per weight and the remainder,
/// all non-negative, the weighted counts and the remainder adding up to the target.
proof fn lemma_combos_shape(t: int, ws: Seq<int>, c: int)
    requires
        t >= 0,
        c >= 0,
        forall|i: int| 0 <= i < ws.len() ==> ws[i] >= 1,
    ensures
        forall|k: int|
            0 <= k < combos(t, ws, c).len() ==> {
                let s = #[trigger] combos(t, ws, c)[k];
                &&& s.len() == ws.len() + 1
                &&& forall|i: int| 0 <= i <= ws.len() ==> s[i] >= 0
                &&& dot(ws, s) + s.last() == t
            },
    decreases ws.len(), if c <= t { t - c + 1 } else { 0 },
{
    if ws.len() == 0 {
    } else if c > t || c * ws[0] > t {
    } else {
        let tail = ws.drop_first();
        let t2 = t - c * ws[0];
        lemma_combos_shape(t2, tail, 0);
        lemma_combos_shape(t, ws, c + 1);
        let inner = combos(t2, tail, 0);
        let a = inner.map_values(|s: Seq<int>| seq![c] + s);
        let b = combos(t, ws, c + 1);
        assert(combos(t, ws, c) == a + b);
        assert forall|k: int| 0 <= k < combos(t, ws, c).len() implies {
            let s = #[trigger] combos(t, ws, c)[k];
            &&& s.len() == ws.len() + 1
            &&& forall|i: int| 0 <= i <= ws.len() ==> s[i] >= 0
            &&& dot(ws, s) + s.last() == t
        } by {
            if k < a.len() {
                let s2 = inner[k];
                let s = seq![c] + s2;
                assert(combos(t, ws, c)[k] == s);
                lemma_dot_cons(ws, c, s2);
                assert forall|i: int| 0 <= i <= ws.len() implies s[i] >= 0 by {
                    if i > 0 {
                        assert(s[i] == s2[i - 1]);
                    }
                }
            } else {
                assert(combos(t, ws, c)[k] == b[k - a.len()]);
            }
        }
    }
}

proof fn lemma_realized_cons(x: (int, int), s: Seq<(int, int)>)
    ensures
        realized(seq![x] + s) == x.0 * x.1 + realized(s),
    decreases s.len(),
{
    if s.len() > 0 {
        lemma_realized_cons(x, s.drop_last());
        assert((seq![x] + s).drop_last() =~= seq![x] + s.drop_last());
        assert((seq![x] + s).last() == s.last());
        assert(realized(seq![x] + s) == realized(seq![x] + s.drop_last()) + s.last().0 * s.last().1);
    } else {
        assert(seq![x] + s =~= seq![x]);
        assert(seq![x].drop_last() =~= Seq::<(int, int)>::empty());
        assert(realized(seq![x]) == realized(Seq::<(int, int)>::empty()) + x.0 * x.1);
    }
}

proof fn lemma_factor_terms_bound(b: int, ws: Seq<int>, cs: Seq<int>)
    requires
        b >= 0,
        cs.len() >= ws.len(),
        forall|i: int| 0 <= i < ws.len() ==> ws[i] >= 1 && ws[i] <= b && cs[i] >= 0,
    ensures
        terms_nonneg(factor_terms(b, ws, cs)),
        factor_terms(b, ws, cs).len() > 0 ==> realized(factor_terms(b, ws, cs)) >= 1,
        forall|j: int| 0 <= j < factor_terms(b, ws, cs).len() ==> #[trigger] factor_terms(b, ws, cs)[j].1 >= 1,
        0 <= realized(factor_terms(b, ws, cs)) <= b * dot(ws, cs),
        0 <= dot(ws, cs),
    decreases ws.len(),
{
    if ws.len() > 0 {
        lemma_factor_terms_bound(b, ws.drop_last(), cs);
        let rest = factor_terms(b, ws.drop_last(), cs);
        let i = ws.len() - 1;
        let w = ws[i];
        let c = cs[i];
        let d0 = dot(ws.drop_last(), cs);
        let q = b / w;
        lemma_div_is_ordered_by_denominator(b, 1, w);
        lemma_div_is_ordered_by_denominator(b, w, b);
        assert(b / b == 1);
        assert(1 <= q <= b);
        assert(0 <= q * c <= b * (w * c) && 0 <= w * c && b * d0 + b * (w * c) == b * (d0 + w * c)) by (nonlinear_arith)
            requires
                0 <= q <= b,
                w >= 1,
                c >= 0,
        ;
        if c != 0 {
            let x = (q, c);
            assert(q * c >= 1) by (nonlinear_arith)
                requires
                    q >= 1,
                    c >= 1,
            ;
            assert(rest.push(x).drop_last() =~= rest);
            assert(forall|j: int| 0 <= j < rest.len() ==> #[trigger] rest.push(x)[j] == rest[j]);
        }
    }
}

/// The first term, bounds and shape of every construction of base `b`: its
/// first term is `b` itself, its values are non-negative and its
/// multiplicities positive, and its realized value lies between `b` and
/// `b * b`, equal to `b` only for the construction made of `b` alone.
pub proof fn lemma_construction_bounds(b: int, k: int)
    requires
        b >= 1,
        0 <= k < base_constructions(b).len(),
    ensures
        base_constructions(b)[k][0].0 == b,
        terms_nonneg(base_constructions(b)[k]),
        forall|j: int| 0 <= j < base_constructions(b)[k].len() ==> #[trigger] base_constructions(b)[k][j].1 >= 1,
        b <= realized(base_constructions(b)[k]) <= b * b,
        realized(base_constructions(b)[k]) == b <==> base_constructions(b)[k] == seq![(b, 1int)],
        combos(b - 1, weights(b), 0)[k].len() == weights(b).len() + 1,
        0 <= combos(b - 1, weights(b), 0)[k].last() <= b - 1,
        base_constructions(b)[k] == build_terms(b, weights(b), bump(combos(b - 1, weights(b), 0)[k])),
{
    let ws = weights(b);
    lemma_weights_bounds(b);
    lemma_combos_shape(b - 1, ws, 0);
    let s = combos(b - 1, ws, 0)[k];
    let cs = bump(s);
    let r = s.last();
    assert(s[ws.len() as int] >= 0);
    lemma_dot_agree(ws, s, cs);
    lemma_factor_terms_bound(b, ws, cs);
    let ft = factor_terms(b, ws, cs);
    let terms = build_terms(b, ws, cs);
    lemma_realized_cons((b, r + 1), ft);
    let d = dot(ws, s);
    let f = realized(ft);
    assert(d >= 0);
    assert(b <= b * (r + 1) + f <= b * b) by (nonlinear_arith)
        requires
            b >= 1,
            r >= 0,
            0 <= f <= b * d,
            d + r == b - 1,
    ;
    assert(b * (r + 1) + f == b ==> r == 0 && f == 0) by (nonlinear_arith)
        requires
            b >= 1,
            r >= 0,
            f >= 0,
    ;
    if realized(terms) == b {
        assert(ft.len() == 0);
        assert(terms =~= seq![(b, 1int)]);
    }
    if terms == seq![(b, 1int)] {
        assert(terms.len() == 1);
        assert(ft.len() == 0);
        assert(r == 0);
        assert(realized(ft) == 0);
    }
    assert(forall|j: int| 0 <= j < ft.len() ==> #[trigger] terms[j + 1] == ft[j]);
    assert forall|j: int| 0 <= j < terms.len() implies 0 <= #[trigger] terms[j].0 && 1 <= terms[j].1 by {
        if j > 0 {
            assert(terms[j] == ft[j - 1]);
        }
    }
}

proof fn lemma_matching_append(a: Seq<Seq<(int, int)>>, b: Seq<Seq<(int, int)>>, v: int)
    ensures
        matching(a + b, v) == matching(a, v) + matching(b, v),
    decreases b.len(),
{
    if b.len() == 0 {
        assert(a + b =~= a);
        assert(matching(a, v) + matching(b, v) =~= matching(a, v));
    } else {
        lemma_matching_append(a, b.drop_last(), v);
        assert((a + b).drop_last() =~= a + b.drop_last());
        assert((a + b).last() == b.last());
        if realized(b.last()) == v {
            assert(matching(a, v) + matching(b.drop_last(), v).push(b.last())
                =~= (matching(a, v) + matching(b.drop_last(), v)).push(b.last()));
        }
    }
}

proof fn lemma_scanned_split(l: int, m: int, n: int)
    requires
        l <= m <= n,
    ensures
        scanned_between(l, n) == scanned_between(l, m) + scanned_between(m, n),
    decreases n - m,
{
    if n == m {
        assert(scanned_between(l, m) + scanned_between(m, n) =~= scanned_between(l, m));
    } else {
        lemma_scanned_split(l, m, n - 1);
        assert(scanned_between(l, m) + (scanned_between(m, n - 1) + base_constructions(n))
            =~= (scanned_between(l, m) + scanned_between(m, n - 1)) + base_constructions(n));
    }
}

/// Extending a scan from the bases `1 ..= m` to `1 ..= n` keeps, for every
/// value, the constructions found before and appends those of the bases
/// `m + 1 ..= n` after them.
pub proof fn lemma_scan_extends(m: int, n: int, v: int)
    requires
        0 <= m <= n,
    ensures
        matching(scanned(n), v) == matching(scanned(m), v) + matching(scanned_between(m, n), v),
{
    lemma_scanned_split(0, m, n);
    lemma_matching_append(scanned(m), scanned_between(m, n), v);
}

proof fn lemma_combos_nonempty(t: int, ws: Seq<int>)
    requires
        t >= 0,
        forall|i: int| 0 <= i < ws.len() ==> ws[i] >= 1,
    ensures
        combos(t, ws, 0).len() >= 1,
    decreases ws.len(),
{
    if ws.len() > 0 {
        let tail = ws.drop_first();
        assert(0 * ws[0] == 0);
        lemma_combos_nonempty(t, tail);
        assert(combos(t, ws, 0) == combos(t - 0 * ws[0], tail, 0).map_values(|s: Seq<int>| seq![0int] + s)
            + combos(t, ws, 1));
    }
}

/// Every base `b >= 1` yields at least one construction, and the first term
/// of its first construction is `b` itself.
pub proof fn lemma_base_yields_construction(b: int)
    requires
        b >= 1,
    ensures
        base_constructions(b).len() >= 1,
        base_constructions(b)[0][0].0 == b,
{
    lemma_weights_bounds(b);
    lemma_combos_nonempty(b - 1, weights(b));
    lemma_construction_bounds(b, 0);
}

} // verus!
