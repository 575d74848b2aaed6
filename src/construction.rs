use vstd::prelude::*;

verus! {

/// The value and multiplicity of a term, as mathematical integers.
pub open spec fn term_of(p: ValueMultiplicityPair) -> (int, int) {
    (p.value as int, p.multiplicity as int)
}

/// A machine integer sequence read as mathematical integers.
pub open spec fn ints(v: Seq<i64>) -> Seq<int> {
    v.map_values(|x: i64| x as int)
}

/// The sum of `value * multiplicity` over the terms.
pub open spec fn realized(terms: Seq<(int, int)>) -> int
    decreases terms.len(),
{
    if terms.len() == 0 {
        0
    } else {
        realized(terms.drop_last()) + terms.last().0 * terms.last().1
    }
}

/// The terms contributed by the weights `ws` of `base`: one term
/// `(base / ws[i], cs[i])` for each weight whose count is not zero, in order.
pub open spec fn factor_terms(base: int, ws: Seq<int>, cs: Seq<int>) -> Seq<(int, int)>
    decreases ws.len(),
{
    if ws.len() == 0 {
        seq![]
    } else {
        let rest = factor_terms(base, ws.drop_last(), cs);
        let i = ws.len() - 1;
        if cs[i] == 0 {
            rest
        } else {
            rest.push((base / ws[i], cs[i]))
        }
    }
}

/// The terms of the construction of `base` from its weights and the counts,
/// whose last entry is the multiplicity of the base itself.
pub open spec fn build_terms(base: int, ws: Seq<int>, counts: Seq<int>) -> Seq<(int, int)> {
    seq![(base, counts.last())] + factor_terms(base, ws, counts)
}

/// Every term has a non-negative value and multiplicity.
pub open spec fn terms_nonneg(terms: Seq<(int, int)>) -> bool {
    forall|i: int| 0 <= i < terms.len() ==> 0 <= #[trigger] terms[i].0 && 0 <= terms[i].1
}

/// A value together with how many times it is used.
#[derive(Debug)]
pub struct ValueMultiplicityPair {
    pub value: i64,
    pub multiplicity: i64,
}

impl ValueMultiplicityPair {
    /// The contribution `value * multiplicity` of the term.
    pub fn sum(&self) -> (r: i64)
        requires
            i64::MIN <= self.value * self.multiplicity <= i64::MAX,
        ensures
            r == self.value * self.multiplicity,
    {
        self.value * self.multiplicity
    }
}

/// An ordered sequence of terms whose weighted sum is a lucky number.
#[derive(Debug)]
pub struct LuckyNumberConstruction {
    values_with_multiplicities: Vec<ValueMultiplicityPair>,
}

impl View for LuckyNumberConstruction {
    type V = Seq<(int, int)>;

    closed spec fn view(&self) -> Seq<(int, int)> {
        self.values_with_multiplicities@.map_values(|p: ValueMultiplicityPair| term_of(p))
    }
}

proof fn lemma_realized_prefix(s: Seq<(int, int)>, i: int, j: int)
    requires
        terms_nonneg(s),
        0 <= i <= j <= s.len(),
    ensures
        0 <= realized(s.take(i)) <= realized(s.take(j)),
    decreases j,
{
    if j > 0 {
        let t = s.take(j);
        assert(t.drop_last() =~= s.take(j - 1));
        let (v, m) = s[j - 1];
        assert(0 <= v * m) by (nonlinear_arith)
            requires
                0 <= v,
                0 <= m,
        ;
        if i < j {
            lemma_realized_prefix(s, i, j - 1);
        } else {
            lemma_realized_prefix(s, i - 1, j - 1);
        }
    }
}

impl LuckyNumberConstruction {
    /// Builds the construction of `common_factor` from its weights and the
    /// counts: first the term `common_factor * counts.last()`, then for each
    /// weight with a non-zero count the term `(common_factor / weight) * count`.
    pub fn from_factor_partials(
        common_factor: i64,
        common_factor_factors: &Vec<i64>,
        counts: &Vec<i64>,
    ) -> (r: Self)
        requires
            common_factor > 0,
            counts.len() == common_factor_factors.len() + 1,
            forall|i: int| 0 <= i < common_factor_factors.len() ==> common_factor_factors[i] > 0,
        ensures
            r@ == build_terms(common_factor as int, ints(common_factor_factors@), ints(counts@)),
    {
        let ghost ws = ints(common_factor_factors@);
        let ghost cs = ints(counts@);
        let mut values_with_multiplicities: Vec<ValueMultiplicityPair> = Vec::new();
        values_with_multiplicities.push(
            ValueMultiplicityPair { value: common_factor, multiplicity: counts[counts.len() - 1] },
        );
        assert(values_with_multiplicities@.map_values(|p: ValueMultiplicityPair| term_of(p))
            =~= seq![(common_factor as int, cs.last())] + factor_terms(common_factor as int, ws.take(0), cs));
        let mut i: usize = 0;
        while i < common_factor_factors.len()
            invariant
                common_factor > 0,
                ws == ints(common_factor_factors@),
                cs == ints(counts@),
                counts.len() == common_factor_factors.len() + 1,
                forall|k: int| 0 <= k < common_factor_factors.len() ==> common_factor_factors[k] > 0,
                0 <= i <= common_factor_factors.len(),
                values_with_multiplicities@.map_values(|p: ValueMultiplicityPair| term_of(p))
                    == seq![(common_factor as int, cs.last())] + factor_terms(common_factor as int, ws.take(i as int), cs),
            decreases common_factor_factors.len() - i,
        {
            let ghost before = values_with_multiplicities@;
            assert(ws.take(i + 1).drop_last() =~= ws.take(i as int));
            if counts[i] != 0 {
                let deonominator_value = common_factor / common_factor_factors[i];
                values_with_multiplicities.push(
                    ValueMultiplicityPair { value: deonominator_value, multiplicity: counts[i] },
                );
                assert(values_with_multiplicities@.map_values(|p: ValueMultiplicityPair| term_of(p))
                    =~= before.map_values(|p: ValueMultiplicityPair| term_of(p)).push(
                    (common_factor as int / ws[i as int], cs[i as int])));
            }
            i = i + 1;
        }
        assert(ws.take(ws.len() as int) =~= ws);
        LuckyNumberConstruction { values_with_multiplicities }
    }

    /// The realized value: the sum of `value * multiplicity` over the terms.
    pub fn calulate_value(&self) -> (r: i64)
        requires
            terms_nonneg(self@),
            realized(self@) <= i64::MAX,
        ensures
            r == realized(self@),
    {
        let ghost s = self@;
        let mut output_sum: i64 = 0;
        let mut i: usize = 0;
        assert(s.take(0) =~= Seq::<(int, int)>::empty());
        while i < self.values_with_multiplicities.len()
            invariant
                s == self@,
                terms_nonneg(s),
                realized(s) <= i64::MAX,
                0 <= i <= s.len(),
                output_sum == realized(s.take(i as int)),
            decreases s.len() - i,
        {
            let set = &self.values_with_multiplicities[i];
            proof {
                assert(s.take(i + 1).drop_last() =~= s.take(i as int));
                lemma_realized_prefix(s, i as int, i + 1);
                lemma_realized_prefix(s, i + 1, s.len() as int);
                assert(s.take(s.len() as int) =~= s);
                assert(s[i as int] == term_of(*set));
            }
            output_sum = output_sum + set.sum();
            i = i + 1;
        }
        assert(s.take(s.len() as int) =~= s);
        output_sum
    }

    /// The terms of the construction, in order.
    pub fn terms(&self) -> (r: &Vec<ValueMultiplicityPair>)
        ensures
            r@.map_values(|p: ValueMultiplicityPair| term_of(p)) == self@,
    {
        &self.values_with_multiplicities
    }
}

} // verus!
