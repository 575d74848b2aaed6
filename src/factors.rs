use vstd::prelude::*;
use crate::construction::ints;

verus! {

/// The divisors `d` of `n` with `2 <= d < k`, ascending.
pub open spec fn divisors_below(n: int, k: int) -> Seq<int>
    decreases k,
{
    if k <= 2 {
        seq![]
    } else if n % (k - 1) == 0 {
        divisors_below(n, k - 1).push(k - 1)
    } else {
        divisors_below(n, k - 1)
    }
}

/// `d` is a prime number.
pub open spec fn is_prime(d: int) -> bool {
    d >= 2 && forall|e: int| 2 <= e < d ==> #[trigger] (d % e) != 0
}

/// The prime elements of `s`, in order.
pub open spec fn primes_of(s: Seq<int>) -> Seq<int>
    decreases s.len(),
{
    if s.len() == 0 {
        seq![]
    } else if is_prime(s.last()) {
        primes_of(s.drop_last()).push(s.last())
    } else {
        primes_of(s.drop_last())
    }
}

/// The weights of base `n`: its prime divisors below `n`, ascending. A prime
/// base is left out of its own weights: with a target of `n - 1` its count
/// would always be zero, so it would add no construction.
pub open spec fn weights(n: int) -> Seq<int> {
    primes_of(divisors_below(n, n))
}

/// Relies on factor::factor::factor: the divisors of `n` strictly between 1
/// and `n`, in ascending order.
#[verifier::external_body]
fn proper_divisors(n: i64) -> (r: Vec<i64>)
    ensures
        ints(r@) == divisors_below(n as int, n as int),
{
    factor::factor::factor(n)
}

/// Whether `d` is prime, by trial division.
pub fn is_prime_number(d: i64) -> (r: bool)
    ensures
        r == is_prime(d as int),
{
    if d < 2 {
        return false;
    }
    let mut e: i64 = 2;
    while e < d
        invariant
            2 <= e <= d,
            forall|f: int| 2 <= f < e ==> #[trigger] ((d as int) % f) != 0,
        decreases d - e,
    {
        if d % e == 0 {
            return false;
        }
        e = e + 1;
    }
    true
}

proof fn lemma_divisors_bounds(n: int, k: int)
    ensures
        forall|i: int| 0 <= i < divisors_below(n, k).len() ==> 2 <= #[trigger] divisors_below(n, k)[i] < k,
    decreases k,
{
    if k > 2 {
        lemma_divisors_bounds(n, k - 1);
        let r = divisors_below(n, k - 1);
        assert(forall|i: int| 0 <= i < r.len() ==> #[trigger] r.push(k - 1)[i] == r[i]);
    }
}

proof fn lemma_primes_of_subset(s: Seq<int>, lo: int, hi: int)
    requires
        forall|i: int| 0 <= i < s.len() ==> lo <= #[trigger] s[i] < hi,
    ensures
        forall|i: int| 0 <= i < primes_of(s).len() ==> lo <= #[trigger] primes_of(s)[i] < hi,
    decreases s.len(),
{
    if s.len() > 0 {
        lemma_primes_of_subset(s.drop_last(), lo, hi);
        let r = primes_of(s.drop_last());
        assert(forall|i: int| 0 <= i < r.len() ==> #[trigger] r.push(s.last())[i] == r[i]);
    }
}

/// Every weight of `n` lies in `[2, n)`.
pub proof fn lemma_weights_bounds(n: int)
    ensures
        forall|i: int| 0 <= i < weights(n).len() ==> 2 <= #[trigger] weights(n)[i] < n,
{
    lemma_divisors_bounds(n, n);
    lemma_primes_of_subset(divisors_below(n, n), 2, n);
}

/// The weights of base `n`: its distinct prime factors below `n`, ascending.
pub fn prime_weights(n: i64) -> (r: Vec<i64>)
    ensures
        ints(r@) == weights(n as int),
{
    let divisors = proper_divisors(n);
    let ghost ds = ints(divisors@);
    let mut r: Vec<i64> = Vec::new();
    let mut i: usize = 0;
    while i < divisors.len()
        invariant
            ds == ints(divisors@),
            0 <= i <= divisors.len(),
            ints(r@) == primes_of(ds.take(i as int)),
        decreases divisors.len() - i,
    {
        assert(ds.take(i + 1).drop_last() =~= ds.take(i as int));
        let d = divisors[i];
        if is_prime_number(d) {
            r.push(d);
        }
        assert(ints(r@) =~= primes_of(ds.take(i + 1)));
        i = i + 1;
    }
    assert(ds.take(ds.len() as int) =~= ds);
    r
}

} // verus!
