use vstd::prelude::*;
use crate::model::{base_constructions, lemma_construction_bounds};
use crate::construction::{realized, term_of, LuckyNumberConstruction, ValueMultiplicityPair};

verus! {

/// The decimal digit `d` as a character.
pub open spec fn digit_char(d: int) -> char {
    ((48 + d) as u8) as char
}

/// The decimal digits of `n`, most significant first.
pub open spec fn digits(n: nat) -> Seq<char>
    decreases n,
{
    if n < 10 {
        seq![digit_char(n as int)]
    } else {
        digits(n / 10) + seq![digit_char(n as int % 10)]
    }
}

/// The decimal text of `v`, with a leading `-` when it is negative.
pub open spec fn int_text(v: int) -> Seq<char> {
    if v < 0 {
        seq!['-'] + digits((-v) as nat)
    } else {
        digits(v as nat)
    }
}

/// A term as text: `value*multiplicity` when the multiplicity exceeds one,
/// the value alone otherwise.
pub open spec fn term_text(t: (int, int)) -> Seq<char> {
    if t.1 > 1 {
        int_text(t.0) + seq!['*'] + int_text(t.1)
    } else {
        int_text(t.0)
    }
}

/// The terms as text, joined by `" + "`.
pub open spec fn render_terms(ts: Seq<(int, int)>) -> Seq<char>
    decreases ts.len(),
{
    if ts.len() == 0 {
        seq![]
    } else if ts.len() == 1 {
        term_text(ts[0])
    } else {
        render_terms(ts.drop_last()) + seq![' ', '+', ' '] + term_text(ts.last())
    }
}


/// The number written by the decimal digits `t`, most significant first.
pub open spec fn parse_nat(t: Seq<char>) -> int
    decreases t.len(),
{
    if t.len() == 0 {
        0
    } else {
        parse_nat(t.drop_last()) * 10 + (t.last() as int - 48)
    }
}

/// The integer written by `t`, a leading `-` making it negative.
pub open spec fn parse_int(t: Seq<char>) -> int {
    if t.len() > 0 && t[0] == '-' {
        -parse_nat(t.skip(1))
    } else {
        parse_nat(t)
    }
}

/// The index of the first `c` in `t` at or after `i`, or `t.len()`.
pub open spec fn find_char(t: Seq<char>, c: char, i: int) -> int
    decreases t.len() - i,
{
    if i >= t.len() {
        t.len() as int
    } else if t[i] == c {
        i
    } else {
        find_char(t, c, i + 1)
    }
}

/// A term read back from its text: `value*multiplicity`, or a value alone
/// with multiplicity one.
pub open spec fn parse_term(t: Seq<char>) -> (int, int) {
    let j = find_char(t, '*', 0);
    if j < t.len() {
        (parse_int(t.take(j)), parse_int(t.skip(j + 1)))
    } else {
        (parse_int(t), 1)
    }
}

/// `" + "` starts at index `i` of `s`.
pub open spec fn sep_at(s: Seq<char>, i: int) -> bool {
    0 <= i && i + 3 <= s.len() && s[i] == ' ' && s[i + 1] == '+' && s[i + 2] == ' '
}

/// The index of the last `" + "` of `s` that starts at or before `i`, or -1.
pub open spec fn last_sep(s: Seq<char>, i: int) -> int
    decreases i + 1,
{
    if i < 0 {
        -1
    } else if sep_at(s, i) {
        i
    } else {
        last_sep(s, i - 1)
    }
}

/// The terms read back from text that joins them by `" + "`.
pub open spec fn parse_terms(s: Seq<char>) -> Seq<(int, int)>
    decreases s.len(),
{
    if s.len() == 0 {
        seq![]
    } else {
        let i = last_sep(s, s.len() - 3);
        if 0 <= i && i + 3 <= s.len() {
            parse_terms(s.take(i)).push(parse_term(s.skip(i + 3)))
        } else {
            seq![parse_term(s)]
        }
    }
}

/// `t` holds no space, `+` or `*`.
pub open spec fn plain(t: Seq<char>) -> bool {
    forall|k: int| 0 <= k < t.len() ==> #[trigger] t[k] != ' ' && t[k] != '+' && t[k] != '*'
}

proof fn lemma_digits(n: nat)
    ensures
        digits(n).len() > 0,
        parse_nat(digits(n)) == n,
        forall|k: int| 0 <= k < digits(n).len() ==> 48 <= #[trigger] (digits(n)[k] as int) <= 57,
    decreases n,
{
    if n < 10 {
        let d = digits(n);
        assert(d.drop_last() =~= Seq::<char>::empty());
        assert(d.last() as int == 48 + n);
        assert(parse_nat(d) == parse_nat(d.drop_last()) * 10 + (d.last() as int - 48));
        assert(parse_nat(Seq::<char>::empty()) == 0);
    } else {
        lemma_digits(n / 10);
        let d = digits(n);
        assert(d.drop_last() =~= digits(n / 10));
        assert(d.last() as int == 48 + n % 10);
        assert(n == (n / 10) * 10 + n % 10);
        assert forall|k: int| 0 <= k < d.len() implies 48 <= #[trigger] (d[k] as int) <= 57 by {
            if k < d.len() - 1 {
                assert(d[k] == digits(n / 10)[k]);
            }
        }
    }
}

proof fn lemma_int_text(v: int)
    ensures
        int_text(v).len() > 0,
        parse_int(int_text(v)) == v,
        plain(int_text(v)),
{
    if v < 0 {
        lemma_digits((-v) as nat);
        let t = int_text(v);
        assert(t.skip(1) =~= digits((-v) as nat));
        assert forall|k: int| 0 <= k < t.len() implies #[trigger] t[k] != ' ' && t[k] != '+' && t[k] != '*' by {
            if k > 0 {
                assert(t[k] == digits((-v) as nat)[k - 1]);
            }
        }
    } else {
        lemma_digits(v as nat);
        let t = int_text(v);
        assert(t.len() > 0 && t[0] != '-') by {
            assert(48 <= (t[0] as int) <= 57);
        }
    }
}

proof fn lemma_find_char_absent(t: Seq<char>, c: char, i: int)
    requires
        0 <= i <= t.len(),
        forall|k: int| i <= k < t.len() ==> #[trigger] t[k] != c,
    ensures
        find_char(t, c, i) == t.len(),
    decreases t.len() - i,
{
    if i < t.len() {
        lemma_find_char_absent(t, c, i + 1);
    }
}

proof fn lemma_find_char_at(t: Seq<char>, c: char, i: int, j: int)
    requires
        0 <= i <= j < t.len(),
        t[j] == c,
        forall|k: int| i <= k < j ==> #[trigger] t[k] != c,
    ensures
        find_char(t, c, i) == j,
    decreases j - i,
{
    if i < j {
        lemma_find_char_at(t, c, i + 1, j);
    }
}

proof fn lemma_term_text(x: (int, int))
    requires
        x.1 >= 1,
    ensures
        term_text(x).len() > 0,
        parse_term(term_text(x)) == x,
        forall|k: int| 0 <= k < term_text(x).len() ==> #[trigger] term_text(x)[k] != ' ' && term_text(x)[k] != '+',
{
    lemma_int_text(x.0);
    let a = int_text(x.0);
    if x.1 > 1 {
        lemma_int_text(x.1);
        let b = int_text(x.1);
        let t = term_text(x);
        assert(t == a + seq!['*'] + b);
        assert(t[a.len() as int] == '*');
        assert(forall|k: int| 0 <= k < a.len() ==> #[trigger] t[k] == a[k]);
        lemma_find_char_at(t, '*', 0, a.len() as int);
        assert(t.take(a.len() as int) =~= a);
        assert(t.skip(a.len() as int + 1) =~= b);
        assert forall|k: int| 0 <= k < t.len() implies #[trigger] t[k] != ' ' && t[k] != '+' by {
            if k < a.len() {
            } else if k > a.len() {
                assert(t[k] == b[k - a.len() - 1]);
            }
        }
    } else {
        lemma_find_char_absent(a, '*', 0);
    }
}

proof fn lemma_no_sep(s: Seq<char>, lo: int, i: int)
    requires
        i < s.len(),
        forall|k: int| lo <= k < s.len() ==> #[trigger] s[k] != ' ' && s[k] != '+',
        lo - 3 <= i,
        forall|k: int| lo - 3 < k <= i ==> !#[trigger] sep_at(s, k),
    ensures
        last_sep(s, i) == last_sep(s, lo - 3),
    decreases i - lo + 3,
{
    if i > lo - 3 {
        lemma_no_sep(s, lo, i - 1);
    }
}

proof fn lemma_render_terms(ts: Seq<(int, int)>)
    requires
        forall|k: int| 0 <= k < ts.len() ==> #[trigger] ts[k].1 >= 1,
    ensures
        parse_terms(render_terms(ts)) == ts,
        ts.len() > 0 ==> render_terms(ts).len() > 0,
    decreases ts.len(),
{
    if ts.len() == 0 {
    } else {
        let s = render_terms(ts);
        let x = ts.last();
        lemma_term_text(x);
        let t = term_text(x);
        if ts.len() == 1 {
            assert(s == t);
            assert forall|k: int| -3 < k <= s.len() - 3 implies !#[trigger] sep_at(s, k) by {
                if 0 <= k {
                    assert(s[k] != ' ');
                }
            }
            lemma_no_sep(s, 0, s.len() - 3);
            assert(last_sep(s, -3) == -1);
            assert(ts =~= seq![x]);
        } else {
            let r = render_terms(ts.drop_last());
            lemma_render_terms(ts.drop_last());
            let n = r.len() as int;
            assert(s == r + seq![' ', '+', ' '] + t);
            assert(forall|k: int| 0 <= k < t.len() ==> #[trigger] s[n + 3 + k] == t[k]);
            assert(sep_at(s, n));
            assert forall|k: int| n < k <= s.len() - 3 implies !#[trigger] sep_at(s, k) by {
                if k == n + 1 {
                    assert(s[k] == '+');
                } else if k == n + 2 {
                    assert(s[k + 1] == t[0]);
                } else {
                    assert(s[k] == t[k - n - 3]);
                }
            }
            assert forall|k: int| n + 3 <= k < s.len() implies #[trigger] s[k] != ' ' && s[k] != '+' by {
                assert(s[k] == t[k - n - 3]);
            }
            lemma_no_sep(s, n + 3, s.len() - 3);
            assert(last_sep(s, n) == n);
            assert(s.take(n) =~= r);
            assert(s.skip(n + 3) =~= t);
            assert(ts.drop_last().push(x) =~= ts);
        }
    }
}

/// Reading back the text of a construction whose multiplicities are all at
/// least one gives its terms again, and so its realized value.
pub proof fn lemma_render_round_trip(ts: Seq<(int, int)>)
    requires
        forall|k: int| 0 <= k < ts.len() ==> #[trigger] ts[k].1 >= 1,
    ensures
        parse_terms(render_terms(ts)) == ts,
        realized(parse_terms(render_terms(ts))) == realized(ts),
{
    lemma_render_terms(ts);
}

/// Every construction of a base reads back from its text unchanged.
pub proof fn lemma_base_construction_round_trip(b: int, k: int)
    requires
        b >= 1,
        0 <= k < base_constructions(b).len(),
    ensures
        parse_terms(render_terms(base_constructions(b)[k])) == base_constructions(b)[k],
{
    lemma_construction_bounds(b, k);
    lemma_render_terms(base_constructions(b)[k]);
}

/// Relies on `String`'s `FromIterator<char>`: the string of the characters, in order.
#[verifier::external_body]
fn string_of(chars: &Vec<char>) -> (r: String)
    ensures
        r@ == chars@,
{
    chars.iter().collect()
}

/// Appends the decimal digits of `n`.
fn push_digits(out: &mut Vec<char>, n: u64)
    ensures
        final(out)@ == old(out)@ + digits(n as nat),
    decreases n,
{
    if n >= 10 {
        push_digits(out, n / 10);
    }
    let d = (n % 10) as u8;
    out.push((48u8 + d) as char);
    proof {
        if n >= 10 {
            assert(final(out)@ =~= old(out)@ + digits(n as nat));
        } else {
            assert(final(out)@ =~= old(out)@ + digits(n as nat));
        }
    }
}

/// Appends the decimal text of `v`.
fn push_int(out: &mut Vec<char>, v: i64)
    ensures
        final(out)@ == old(out)@ + int_text(v as int),
{
    if v < 0 {
        out.push('-');
        let m: u64 = if v == i64::MIN { 9223372036854775808u64 } else { (-v) as u64 };
        push_digits(out, m);
        assert(final(out)@ =~= old(out)@ + int_text(v as int));
    } else {
        push_digits(out, v as u64);
    }
}

/// Appends the text of a term.
fn push_term(out: &mut Vec<char>, p: &ValueMultiplicityPair)
    ensures
        final(out)@ == old(out)@ + term_text(term_of(*p)),
{
    push_int(out, p.value);
    if p.multiplicity > 1 {
        out.push('*');
        push_int(out, p.multiplicity);
        assert(final(out)@ =~= old(out)@ + term_text(term_of(*p)));
    }
}

impl LuckyNumberConstruction {
    /// The construction as text: its terms joined by `" + "`, a term with a
    /// multiplicity above one written `value*multiplicity`.
    pub fn render(&self) -> (r: String)
        ensures
            r@ == render_terms(self@),
    {
        let terms = self.terms();
        let ghost s = self@;
        let mut out: Vec<char> = Vec::new();
        let mut i: usize = 0;
        assert(terms@.map_values(|p: ValueMultiplicityPair| term_of(p)) == s);
        while i < terms.len()
            invariant
                terms@.map_values(|p: ValueMultiplicityPair| term_of(p)) == s,
                0 <= i <= terms.len(),
                out@ == render_terms(s.take(i as int)),
            decreases terms.len() - i,
        {
            assert(s.take(i + 1).drop_last() =~= s.take(i as int));
            assert(s[i as int] == term_of(terms[i as int]));
            if i > 0 {
                out.push(' ');
                out.push('+');
                out.push(' ');
            }
            let ghost before = out@;
            push_term(&mut out, &terms[i]);
            proof {
                if i == 0 {
                    assert(s.take(1)[0] == s[0]);
                    assert(out@ =~= render_terms(s.take(1)));
                } else {
                    assert(out@ =~= render_terms(s.take(i + 1)));
                }
            }
            i = i + 1;
        }
        assert(s.take(s.len() as int) =~= s);
        string_of(&out)
    }
}

} // verus!
