use vstd::prelude::*;
use std::collections::HashMap;
use crate::construction::{ints, realized, LuckyNumberConstruction};
use crate::composition::{combos, nested_ints};
use crate::factors::{lemma_weights_bounds, prime_weights, weights};
use crate::model::{
    base_constructions, bump, lemma_construction_bounds, lemma_scan_extends, matching, scanned, scanned_between,
};

verus! {

/// The largest base integer, and value bound, that the engine handles: every
/// realized value of a base up to it fits in an `i64`.
pub const MAX_BASE: i64 = 3_000_000_000;

/// Scans base integers and records, by realized value, the constructions whose
/// value lies in the configured range.
pub struct LuckyNumberEngine {
    min_cutoff: i64,
    max_cutoff: i64,
    largest_factor_checked: i64,
    lucky_findings: HashMap<i64, Vec<LuckyNumberConstruction>>,
    empty_reference: Vec<LuckyNumberConstruction>,
}

/// What the engine records for value `v` when it has scanned the
/// constructions `s` with the range `[lo, hi]`: those of `s` that realize `v`
/// when `v` lies in the range, none otherwise.
pub open spec fn recorded(lo: int, hi: int, s: Seq<Seq<(int, int)>>, v: int) -> Seq<Seq<(int, int)>> {
    if lo <= v <= hi {
        matching(s, v)
    } else {
        seq![]
    }
}

/// `v` with its last entry raised by one.
fn bumped(v: &Vec<i64>) -> (r: Vec<i64>)
    requires
        v.len() > 0,
        v[v.len() - 1] < i64::MAX,
    ensures
        ints(r@) == bump(ints(v@)),
{
    let mut r: Vec<i64> = Vec::new();
    let last = v.len() - 1;
    let mut i: usize = 0;
    while i < v.len()
        invariant
            0 <= i <= v.len(),
            last == v.len() - 1,
            v[last as int] < i64::MAX,
            r@.len() == i,
            forall|j: int| 0 <= j < i ==> #[trigger] r@[j] as int == if j == last { v[j] + 1 } else { v[j] as int },
        decreases v.len() - i,
    {
        if i == last {
            r.push(v[i] + 1);
        } else {
            r.push(v[i]);
        }
        i = i + 1;
    }
    assert(ints(r@) =~= bump(ints(v@)));
    r
}

impl LuckyNumberEngine {
    /// The lower bound of the value range.
    pub closed spec fn lo(&self) -> int {
        self.min_cutoff as int
    }

    /// The upper bound of the value range.
    pub closed spec fn hi(&self) -> int {
        self.max_cutoff as int
    }

    /// The largest base scanned so far; bases `1 ..= checked()` are scanned.
    pub closed spec fn checked(&self) -> int {
        self.largest_factor_checked as int
    }

    /// The constructions recorded for value `v`, in discovery order.
    pub closed spec fn bucket(&self, v: i64) -> Seq<Seq<(int, int)>> {
        if self.lucky_findings@.contains_key(v) {
            self.lucky_findings@[v]@.map_values(|c: LuckyNumberConstruction| c@)
        } else {
            seq![]
        }
    }

    /// The constructions that a well-formed engine holds for `v`: those of the
    /// scanned bases that realize `v`, when `v` lies in the range.
    pub open spec fn findings(&self, v: i64) -> Seq<Seq<(int, int)>> {
        recorded(self.lo(), self.hi(), scanned(self.checked()), v as int)
    }

    /// The recorded constructions are those of `s` in the range, and no value
    /// has an empty entry.
    closed spec fn records(&self, s: Seq<Seq<(int, int)>>) -> bool {
        &&& forall|v: i64| #[trigger] self.bucket(v) == recorded(self.lo(), self.hi(), s, v as int)
        &&& forall|v: i64| self.lucky_findings@.contains_key(v) ==> #[trigger] self.lucky_findings@[v].len() > 0
        &&& self.empty_reference@.len() == 0
    }

    /// The engine holds exactly the constructions of the scanned bases whose
    /// value lies in its range.
    pub closed spec fn wf(&self) -> bool {
        &&& 0 <= self.largest_factor_checked <= MAX_BASE
        &&& self.records(scanned(self.checked()))
    }

    /// An engine with an empty range and nothing scanned.
    pub fn new() -> (r: Self)
        ensures
            r.wf(),
            r.lo() == 0,
            r.hi() == 0,
            r.checked() == 0,
            forall|v: i64| #[trigger] r.findings(v) == Seq::<Seq<(int, int)>>::empty(),
    {
        broadcast use vstd::std_specs::hash::group_hash_axioms;
        let r = LuckyNumberEngine {
            min_cutoff: 0,
            max_cutoff: 0,
            largest_factor_checked: 0,
            lucky_findings: HashMap::new(),
            empty_reference: Vec::new(),
        };
        assert(scanned(0) =~= Seq::<Seq<(int, int)>>::empty());
        assert forall|v: i64| #[trigger] r.bucket(v) == recorded(r.lo(), r.hi(), scanned(0), v as int) by {
            assert(matching(scanned(0), v as int) =~= Seq::<Seq<(int, int)>>::empty());
        }
        assert forall|v: i64| #[trigger] r.findings(v) == Seq::<Seq<(int, int)>>::empty() by {
            assert(matching(scanned(0), v as int) =~= Seq::<Seq<(int, int)>>::empty());
        }
        r
    }

    /// Forgets every finding and every scanned base; the range stays.
    pub fn reset(&mut self)
        ensures
            final(self).wf(),
            final(self).lo() == old(self).lo(),
            final(self).hi() == old(self).hi(),
            final(self).checked() == 0,
            forall|v: i64| #[trigger] final(self).findings(v) == Seq::<Seq<(int, int)>>::empty(),
    {
        broadcast use vstd::std_specs::hash::group_hash_axioms;
        self.largest_factor_checked = 0;
        self.lucky_findings = HashMap::new();
        self.empty_reference = Vec::new();
        assert(scanned(0) =~= Seq::<Seq<(int, int)>>::empty());
        assert forall|v: i64| #[trigger] self.bucket(v) == recorded(self.lo(), self.hi(), scanned(0), v as int) by {
            assert(matching(scanned(0), v as int) =~= Seq::<Seq<(int, int)>>::empty());
        }
        assert forall|v: i64| #[trigger] self.findings(v) == Seq::<Seq<(int, int)>>::empty() by {
            assert(matching(scanned(0), v as int) =~= Seq::<Seq<(int, int)>>::empty());
        }
    }

    /// The number of constructions recorded for `value` (saturated at `i64::MAX`).
    pub fn luckiness(&mut self, value: i64) -> (r: i64)
        requires
            old(self).wf(),
        ensures
            *final(self) == *old(self),
            r as int == if old(self).findings(value).len() <= i64::MAX {
                old(self).findings(value).len() as int
            } else {
                i64::MAX as int
            },
    {
        broadcast use vstd::std_specs::hash::group_hash_axioms;
        assert(self.bucket(value) == self.findings(value));
        match self.lucky_findings.get(&value) {
            Some(x) => {
                assert(x@.map_values(|c: LuckyNumberConstruction| c@).len() == x@.len());
                if (x.len() as u128) <= (i64::MAX as u128) {
                    x.len() as i64
                } else {
                    i64::MAX
                }
            },
            None => 0,
        }
    }

    /// The constructions recorded for `value`, in discovery order.
    pub fn constructions(&mut self, value: i64) -> (r: &Vec<LuckyNumberConstruction>)
        requires
            old(self).wf(),
        ensures
            *final(self) == *old(self),
            r@.map_values(|c: LuckyNumberConstruction| c@) == old(self).findings(value),
    {
        broadcast use vstd::std_specs::hash::group_hash_axioms;
        assert(self.bucket(value) == self.findings(value));
        match self.lucky_findings.get(&value) {
            Some(x) => x,
            None => &self.empty_reference,
        }
    }

    /// Whether some construction is recorded for `value`.
    pub fn is_lucky(&mut self, value: i64) -> (r: bool)
        requires
            old(self).wf(),
        ensures
            *final(self) == *old(self),
            r == (old(self).findings(value).len() > 0),
    {
        broadcast use vstd::std_specs::hash::group_hash_axioms;
        assert(self.bucket(value) == self.findings(value));
        assert(self.lucky_findings@.contains_key(value) ==> self.lucky_findings@[value].len() > 0);
        match self.lucky_findings.get(&value) {
            Some(_) => true,
            None => false,
        }
    }

    /// Scans afresh for the range `[range_start, range_end]`: forgets every
    /// finding, sets the range and scans the bases `1 ..= range_end`.
    pub fn generate_range(&mut self, range_start: i64, range_end: i64)
        requires
            range_end <= MAX_BASE,
        ensures
            final(self).wf(),
            final(self).lo() == range_start,
            final(self).hi() == range_end,
            final(self).checked() == if range_end > 0 { range_end as int } else { 0 },
            forall|v: i64| #[trigger] final(self).findings(v) == recorded(
                range_start as int,
                range_end as int,
                scanned(range_end as int),
                v as int,
            ),
    {
        self.reset();
        let ghost e1 = *self;
        self.min_cutoff = range_start;
        self.max_cutoff = range_end;
        assert forall|v: i64| #[trigger] self.bucket(v) == recorded(self.lo(), self.hi(), scanned(0), v as int) by {
            assert(e1.bucket(v) == recorded(e1.lo(), e1.hi(), scanned(0), v as int));
            assert(self.bucket(v) == e1.bucket(v));
            assert(matching(scanned(0), v as int) =~= Seq::<Seq<(int, int)>>::empty());
        }
        self.generate_lucky_numbers_up_to(range_end);
        assert(range_end <= 0 ==> scanned(range_end as int) =~= scanned(0));
    }

    /// Scans the bases from the largest scanned one up to `value`, keeping
    /// what is recorded. Does nothing when `value` is already scanned.
    pub fn generate_lucky_numbers_up_to(&mut self, value: i64)
        requires
            old(self).wf(),
            value <= MAX_BASE,
        ensures
            final(self).wf(),
            final(self).lo() == old(self).lo(),
            final(self).hi() == old(self).hi(),
            final(self).checked() == if value > old(self).checked() { value as int } else { old(self).checked() },
            value <= old(self).checked() ==> *final(self) == *old(self),
            forall|v: i64| #[trigger] final(self).findings(v) == old(self).findings(v) + recorded(
                old(self).lo(),
                old(self).hi(),
                scanned_between(old(self).checked(), final(self).checked()),
                v as int,
            ),
    {
        let ghost self0 = *self;
        if value <= self.largest_factor_checked {
            assert forall|v: i64| #[trigger] self.findings(v) == self0.findings(v) + recorded(
                self0.lo(),
                self0.hi(),
                scanned_between(self0.checked(), self.checked()),
                v as int,
            ) by {
                assert(scanned_between(self0.checked(), self.checked()) =~= Seq::<Seq<(int, int)>>::empty());
                assert(matching(Seq::<Seq<(int, int)>>::empty(), v as int) =~= Seq::<Seq<(int, int)>>::empty());
                assert(self.findings(v) + Seq::<Seq<(int, int)>>::empty() =~= self.findings(v));
            }
            return;
        }
        let mut i: i64 = self.largest_factor_checked + 1;
        while i <= value
            invariant
                1 <= i <= value + 1,
                value <= MAX_BASE,
                self.records(scanned(i - 1)),
                self.lo() == self0.lo(),
                self.hi() == self0.hi(),
                self.largest_factor_checked == self0.largest_factor_checked,
            decreases value + 1 - i,
        {
            self.generate_lucky_numbers_from_factor(i);
            i = i + 1;
        }
        let ghost e1 = *self;
        self.largest_factor_checked = value;
        assert(self.records(scanned(value as int))) by {
            let sv = scanned(value as int);
            assert forall|v: i64| #[trigger] self.bucket(v) == recorded(self.lo(), self.hi(), sv, v as int) by {
                assert(e1.bucket(v) == recorded(e1.lo(), e1.hi(), sv, v as int));
                assert(self.bucket(v) == e1.bucket(v));
            }
            assert forall|v: i64| self.lucky_findings@.contains_key(v) implies #[trigger] self.lucky_findings@[v].len() > 0 by {
                assert(e1.lucky_findings@.contains_key(v));
            }
        }
        assert(self.wf());
        assert forall|v: i64| #[trigger] self.findings(v) == self0.findings(v) + recorded(
            self0.lo(),
            self0.hi(),
            scanned_between(self0.checked(), self.checked()),
            v as int,
        ) by {
            lemma_scan_extends(self0.checked(), self.checked(), v as int);
            assert(self0.bucket(v) == self0.findings(v));
        }
    }

    /// Records `construction`, of value `value`, when the value is in range.
    fn record(&mut self, value: i64, construction: LuckyNumberConstruction, Ghost(s): Ghost<Seq<Seq<(int, int)>>>)
        requires
            old(self).records(s),
            value == realized(construction@),
        ensures
            final(self).records(s.push(construction@)),
            final(self).lo() == old(self).lo(),
            final(self).hi() == old(self).hi(),
            final(self).largest_factor_checked == old(self).largest_factor_checked,
    {
        broadcast use vstd::std_specs::hash::group_hash_axioms;
        let ghost self0 = *self;
        let ghost x = construction@;
        let ghost s2 = s.push(x);
        assert(s2.drop_last() =~= s);
        assert(s2.last() == x);
        assert forall|v: int| #[trigger] matching(s2, v) == if realized(x) == v {
            matching(s, v).push(x)
        } else {
            matching(s, v)
        } by {
            assert(s2.len() > 0);
        }
        if value <= self.max_cutoff && value >= self.min_cutoff {
            let ghost old_map = self.lucky_findings@;
            let ghost old_bucket = self.bucket(value);
            let existing = self.lucky_findings.remove(&value);
            let mut bucket: Vec<LuckyNumberConstruction> = match existing {
                Some(b) => b,
                None => Vec::new(),
            };
            let ghost before = bucket@;
            assert(before.map_values(|c: LuckyNumberConstruction| c@) == old_bucket);
            bucket.push(construction);
            assert(bucket@.map_values(|c: LuckyNumberConstruction| c@)
                =~= before.map_values(|c: LuckyNumberConstruction| c@).push(x));
            self.lucky_findings.insert(value, bucket);
            assert forall|v: i64| #[trigger] self.bucket(v) == recorded(self.lo(), self.hi(), s2, v as int) by {
                assert(self0.bucket(v) == recorded(self.lo(), self.hi(), s, v as int));
                if v != value {
                    assert(self.lucky_findings@.contains_key(v) == old_map.contains_key(v));
                    if old_map.contains_key(v) {
                        assert(self.lucky_findings@[v] == old_map[v]);
                    }
                    assert(self.bucket(v) == self0.bucket(v));
                } else {
                    assert(self.lucky_findings@[v] == bucket);
                }
            }
            assert forall|v: i64| self.lucky_findings@.contains_key(v) implies #[trigger] self.lucky_findings@[v].len() > 0 by {
                if v != value {
                    assert(self.lucky_findings@[v] == old_map[v]);
                }
            }
        }
    }

    /// Scans base `base`: records each of its constructions whose value is in range.
    fn generate_lucky_numbers_from_factor(&mut self, base: i64)
        requires
            1 <= base <= MAX_BASE,
            old(self).records(scanned(base - 1)),
        ensures
            final(self).records(scanned(base as int)),
            final(self).lo() == old(self).lo(),
            final(self).hi() == old(self).hi(),
            final(self).largest_factor_checked == old(self).largest_factor_checked,
    {
        let factors_of_factor = prime_weights(base);
        let ghost ws = weights(base as int);
        let ghost bc = base_constructions(base as int);
        let ghost prev = scanned(base - 1);
        proof {
            lemma_weights_bounds(base as int);
            assert(scanned(base as int) == prev + bc);
            assert(prev + bc.take(0) =~= prev);
        }
        assert(forall|i: int| 0 <= i < factors_of_factor.len() ==> 1 <= #[trigger] factors_of_factor[i] <= MAX_BASE) by {
            assert(forall|i: int| 0 <= i < factors_of_factor.len() ==> #[trigger] factors_of_factor[i] as int == ws[i]);
        }
        let numerator_constructions = self.get_int_sum_constructors_from(base - 1, &factors_of_factor);
        let mut k: usize = 0;
        while k < numerator_constructions.len()
            invariant
                1 <= base <= MAX_BASE,
                ws == weights(base as int),
                ints(factors_of_factor@) == ws,
                forall|i: int| 0 <= i < ws.len() ==> 2 <= #[trigger] ws[i] < base,
                bc == base_constructions(base as int),
                nested_ints(numerator_constructions@) == combos(base - 1, ws, 0),
                0 <= k <= numerator_constructions.len(),
                self.records(prev + bc.take(k as int)),
                self.lo() == old(self).lo(),
                self.hi() == old(self).hi(),
                self.largest_factor_checked == old(self).largest_factor_checked,
            decreases numerator_constructions.len() - k,
        {
            proof {
                lemma_construction_bounds(base as int, k as int);
                assert(base as int * base as int <= MAX_BASE * MAX_BASE) by (nonlinear_arith)
                    requires
                        1 <= base <= MAX_BASE,
                ;
            }
            let ghost s = combos(base - 1, ws, 0)[k as int];
            assert(ints(numerator_constructions[k as int]@) == s);
            let numerator_construction = &numerator_constructions[k];
            let counts = bumped(numerator_construction);
            assert(forall|i: int| 0 <= i < factors_of_factor.len() ==> #[trigger] factors_of_factor[i] > 0) by {
                assert(forall|i: int| 0 <= i < factors_of_factor.len() ==> #[trigger] factors_of_factor[i] as int == ws[i]);
            }
            let construction = LuckyNumberConstruction::from_factor_partials(base, &factors_of_factor, &counts);
            assert(construction@ == bc[k as int]);
            let value = construction.calulate_value();
            let ghost cur = prev + bc.take(k as int);
            self.record(value, construction, Ghost(cur));
            assert(cur.push(bc[k as int]) =~= prev + bc.take(k + 1));
            k = k + 1;
        }
        assert(bc.take(bc.len() as int) =~= bc);
    }

    /// The least count `r` with `r * num > than`.
    fn max_products_till_greater(&self, than: i64, num: i64) -> (r: i64)
        requires
            1 <= num <= MAX_BASE,
            than <= MAX_BASE,
        ensures
            0 <= r,
            r * num > than,
            r == 0 || (r - 1) * num <= than,
    {
        let mut count: i64 = 0;
        let mut total: i64 = 0;
        while total <= than
            invariant
                1 <= num <= MAX_BASE,
                than <= MAX_BASE,
                0 <= count <= total,
                total == count * num,
                count == 0 || (count - 1) * num <= than,
            decreases than + 1 - count,
        {
            assert(total + num == (count + 1) * num) by (nonlinear_arith)
                requires
                    total == count * num,
            ;
            count = count + 1;
            total = total + num;
        }
        count
    }

    /// Every count sequence of `combos(sum_to, with, 0)`.
    fn get_int_sum_constructors_from(&self, sum_to: i64, with: &Vec<i64>) -> (r: Vec<Vec<i64>>)
        requires
            -1 <= sum_to <= MAX_BASE,
            forall|i: int| 0 <= i < with.len() ==> 1 <= #[trigger] with[i] <= MAX_BASE,
        ensures
            nested_ints(r@) == combos(sum_to as int, ints(with@), 0),
        decreases with.len(),
    {
        let ghost ws = ints(with@);
        if with.len() == 0 {
            let mut only: Vec<i64> = Vec::new();
            only.push(sum_to);
            let mut r: Vec<Vec<i64>> = Vec::new();
            r.push(only);
            assert(only@.map_values(|y: i64| y as int) =~= seq![sum_to as int]);
            assert(nested_ints(r@) =~= seq![seq![sum_to as int]]);
            return r;
        }
        let w = with[0];
        let max_value = self.max_products_till_greater(sum_to, w);

        let mut end_con_nums: Vec<i64> = Vec::new();
        let mut k: usize = 1;
        while k < with.len()
            invariant
                1 <= k <= with.len(),
                end_con_nums@ == with@.subrange(1, k as int),
            decreases with.len() - k,
        {
            end_con_nums.push(with[k]);
            k = k + 1;
            assert(end_con_nums@ =~= with@.subrange(1, k as int));
        }
        assert(ints(end_con_nums@) =~= ws.drop_first());

        let mut output: Vec<Vec<i64>> = Vec::new();
        let mut i: i64 = 0;
        assert(nested_ints(output@) + combos(sum_to as int, ws, 0) =~= combos(sum_to as int, ws, 0));
        while i < max_value
            invariant
                ws == ints(with@),
                with.len() > 0,
                w == with[0],
                1 <= w <= MAX_BASE,
                -1 <= sum_to <= MAX_BASE,
                0 <= max_value,
                max_value * w > sum_to,
                max_value == 0 || (max_value - 1) * w <= sum_to,
                0 <= i <= max_value,
                ints(end_con_nums@) == ws.drop_first(),
                end_con_nums.len() == with.len() - 1,
                forall|j: int| 0 <= j < end_con_nums.len() ==> 1 <= #[trigger] end_con_nums[j] <= MAX_BASE,
                nested_ints(output@) + combos(sum_to as int, ws, i as int) == combos(sum_to as int, ws, 0),
            decreases max_value - i,
        {
            assert(i * w <= sum_to && i <= i * w) by (nonlinear_arith)
                requires
                    0 <= i < max_value,
                    (max_value - 1) * w <= sum_to,
                    1 <= w,
            ;
            assert(forall|j: int| 0 <= j < end_con_nums.len() ==> 1 <= #[trigger] end_con_nums[j] <= MAX_BASE);
            let sub = self.get_int_sum_constructors_from(sum_to - i * w, &end_con_nums);
            let ghost block = combos(sum_to - i * w, ws.drop_first(), 0).map_values(
                |s: Seq<int>| seq![i as int] + s,
            );
            let ghost out0 = nested_ints(output@);
            assert(combos(sum_to as int, ws, i as int) == block + combos(sum_to as int, ws, i + 1));
            let mut j: usize = 0;
            while j < sub.len()
                invariant
                    ws.len() > 0,
                    nested_ints(sub@) == combos(sum_to - i * w, ws.drop_first(), 0),
                    block == nested_ints(sub@).map_values(|s: Seq<int>| seq![i as int] + s),
                    0 <= j <= sub.len(),
                    nested_ints(output@) == out0 + block.take(j as int),
                decreases sub.len() - j,
            {
                let end_vals = &sub[j];
                let mut new_constructor: Vec<i64> = Vec::new();
                new_constructor.push(i);
                let mut m: usize = 0;
                while m < end_vals.len()
                    invariant
                        0 <= m <= end_vals.len(),
                        new_constructor@ == seq![i] + end_vals@.take(m as int),
                    decreases end_vals.len() - m,
                {
                    new_constructor.push(end_vals[m]);
                    m = m + 1;
                    assert(new_constructor@ =~= seq![i] + end_vals@.take(m as int));
                }
                assert(end_vals@.take(end_vals.len() as int) =~= end_vals@);
                let ghost before = output@;
                output.push(new_constructor);
                proof {
                    assert(nested_ints(sub@)[j as int] == end_vals@.map_values(|y: i64| y as int));
                    assert(new_constructor@.map_values(|y: i64| y as int)
                        =~= seq![i as int] + end_vals@.map_values(|y: i64| y as int));
                    assert(nested_ints(output@) =~= nested_ints(before).push(block[j as int]));
                    assert(block.take(j + 1) =~= block.take(j as int).push(block[j as int]));
                }
                j = j + 1;
            }
            assert(block.take(sub.len() as int) =~= block);
            i = i + 1;
        }
        assert(combos(sum_to as int, ws, i as int) == Seq::<Seq<int>>::empty());
        assert(nested_ints(output@) =~= nested_ints(output@) + Seq::<Seq<int>>::empty());
        output
    }
}

} // verus!
