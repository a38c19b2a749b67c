use vstd::prelude::*;

verus! {

/// Primality, stated directly: no divisor between 2 and `p`.
pub open spec fn is_prime(p: nat) -> bool {
    p >= 2 && forall|d: nat| 2 <= d < p ==> #[trigger] (p % d) != 0
}

/// The multiplicity of `p` in `n`: how often `p` divides `n`.
pub open spec fn pexp(n: nat, p: nat) -> nat
    decreases n,
    via pexp_decreases
{
    if p < 2 || n == 0 {
        0
    } else if n % p == 0 {
        1 + pexp(n / p, p)
    } else {
        0
    }
}

#[via_fn]
proof fn pexp_decreases(n: nat, p: nat) {
    if !(p < 2 || n == 0) && n % p == 0 {
        vstd::arithmetic::div_mod::lemma_div_decreases(n as int, p as int);
    }
}

/// The total multiplicity of `p` over a list of literals.
pub open spec fn lit_exp(lits: Seq<nat>, p: nat) -> nat
    decreases lits.len(),
{
    if lits.len() == 0 {
        0
    } else {
        pexp(lits[0], p) + lit_exp(lits.drop_first(), p)
    }
}

/// A prime registry: the primes up to `bound`, each exactly once, in
/// ascending order. The register index of a prime is its position here.
pub open spec fn sieve_valid(ps: Seq<usize>, bound: nat) -> bool {
    &&& forall|i: int|
        0 <= i < ps.len() ==> is_prime(#[trigger] ps[i] as nat) && ps[i] as nat <= bound
    &&& forall|i: int, j: int| 0 <= i < j < ps.len() ==> ps[i] < ps[j]
    &&& forall|q: nat|
        #[trigger] is_prime(q) && q <= bound ==> exists|i: int|
            0 <= i < ps.len() && ps[i] as nat == q
}

/// The greatest common divisor, characterised by divisibility and
/// maximality.
pub open spec fn is_gcd(g: nat, a: nat, b: nat) -> bool {
    if a == 0 && b == 0 {
        g == 0
    } else {
        &&& g >= 1
        &&& a % g == 0
        &&& b % g == 0
        &&& forall|d: nat| 1 <= d && #[trigger] (a % d) == 0 && b % d == 0 ==> d <= g
    }
}

#[verifier::external_type_specification]
#[verifier::external_body]
pub struct ExPrimes(slow_primes::Primes);

/// The primes a sieve stores, in the order its iterator yields them.
pub uninterp spec fn primes_list(ps: slow_primes::Primes) -> Seq<usize>;

/// The largest number a sieve covers.
pub uninterp spec fn primes_bound(ps: slow_primes::Primes) -> nat;

/// Relies on slow_primes::Primes::sieve: it marks the composites among
/// the stored odd numbers, so the unmarked numbers are exactly the primes
/// up to upper_bound, which is limit - 1 (or 9 for small limits). The
/// sieve's marking loop stops at limit / 2, which covers every stored bit
/// only when the clamped limit is even — hence the even `requires`; an
/// odd limit would leave the topmost odd number unmarked even when it is
/// composite.
#[verifier::external_body]
pub(crate) fn sieve_primes(limit: usize) -> (r: slow_primes::Primes)
    requires
        limit % 2 == 0,
    ensures
        primes_bound(r) + 1 >= limit,
        primes_bound(r) <= if limit >= 10 { limit as nat } else { 10 },
        sieve_valid(primes_list(r), primes_bound(r)),
{
    slow_primes::Primes::sieve(limit)
}

/// Relies on slow_primes::Primes::primes: an iterator over the stored
/// primes, ascending, collected into a vector.
#[verifier::external_body]
pub(crate) fn sieve_primes_vec(ps: &slow_primes::Primes) -> (r: Vec<usize>)
    ensures
        r@ == primes_list(*ps),
{
    ps.primes().collect()
}

/// Relies on slow_primes::Primes::factor: trial division of `n` by every
/// stored prime in ascending order, counting how often each divides, so
/// each returned exponent is the exact multiplicity of its prime in `n`.
/// Any `n` between 1 and the sieve's upper bound factorises completely
/// within the loop; zero is refused. `n` must not exceed the upper bound:
/// for larger `n` the call squares that bound unchecked while testing a
/// leftover factor, which can overflow.
#[verifier::external_body]
pub(crate) fn factor_within(ps: &slow_primes::Primes, n: usize) -> (r: Option<
    Vec<(usize, usize)>,
>)
    requires
        n as nat <= primes_bound(*ps),
    ensures
        1 <= n as nat <= primes_bound(*ps) ==> r is Some,
        r matches Some(f) ==> {
            &&& n >= 1
            &&& forall|j: int|
                0 <= j < f@.len() ==> is_prime((#[trigger] f@[j]).0 as nat) && f@[j].1 as nat
                    == pexp(n as nat, f@[j].0 as nat) && f@[j].1 >= 1
            &&& forall|j: int, k: int| 0 <= j < k < f@.len() ==> (f@[j]).0 < (f@[k]).0
            &&& forall|q: nat|
                #[trigger] is_prime(q) && pexp(n as nat, q) >= 1 ==> exists|j: int|
                    0 <= j < f@.len() && (f@[j]).0 as nat == q
        },
{
    match ps.factor(n) {
        Ok(f) => Some(f),
        Err(_) => None,
    }
}

/// Relies on num::integer::gcd: the greatest common divisor of two
/// numbers.
#[verifier::external_body]
pub(crate) fn gcd_usize(a: usize, b: usize) -> (r: usize)
    ensures
        is_gcd(r as nat, a as nat, b as nat),
{
    num::integer::gcd(a, b)
}

/// A number below a prime has that prime zero times as a factor.
pub proof fn lemma_pexp_small(n: nat, q: nat)
    requires
        1 <= n < q,
    ensures
        pexp(n, q) == 0,
{
    vstd::arithmetic::div_mod::lemma_small_mod(n, q);
}

/// A prime that occurs in `n` divides `n` and is no larger than it.
pub proof fn lemma_pexp_divides(n: nat, q: nat)
    requires
        pexp(n, q) >= 1,
    ensures
        n >= 1,
        2 <= q <= n,
        n % q == 0,
{
    if n < q {
        vstd::arithmetic::div_mod::lemma_small_mod(n, q);
    }
}

/// Multiplicities over a concatenation add up.
pub proof fn lemma_lit_exp_concat(a: Seq<nat>, b: Seq<nat>, q: nat)
    ensures
        lit_exp(a + b, q) == lit_exp(a, q) + lit_exp(b, q),
    decreases a.len(),
{
    if a.len() == 0 {
        assert(a + b =~= b);
    } else {
        assert((a + b).drop_first() =~= a.drop_first() + b);
        lemma_lit_exp_concat(a.drop_first(), b, q);
    }
}

/// Extending a prefix by one literal adds that literal's multiplicity.
pub proof fn lemma_lit_exp_take_succ(s: Seq<nat>, i: int, q: nat)
    requires
        0 <= i < s.len(),
    ensures
        lit_exp(s.take(i + 1), q) == lit_exp(s.take(i), q) + pexp(s[i], q),
{
    assert(s.take(i + 1) =~= s.take(i) + seq![s[i]]);
    lemma_lit_exp_concat(s.take(i), seq![s[i]], q);
    assert(seq![s[i]].drop_first() =~= Seq::<nat>::empty());
    assert(lit_exp(Seq::<nat>::empty(), q) == 0);
    assert(lit_exp(seq![s[i]], q) == pexp(seq![s[i]][0], q) + lit_exp(seq![s[i]].drop_first(), q));
}

/// A list's multiplicity splits at any boundary.
pub proof fn lemma_lit_exp_split(s: Seq<nat>, i: int, q: nat)
    requires
        0 <= i <= s.len(),
    ensures
        lit_exp(s, q) == lit_exp(s.take(i), q) + lit_exp(s.skip(i), q),
{
    assert(s =~= s.take(i) + s.skip(i));
    lemma_lit_exp_concat(s.take(i), s.skip(i), q);
}

/// A prime above every (positive) literal of a list occurs nowhere in it.
pub proof fn lemma_lit_exp_zero(s: Seq<nat>, q: nat)
    requires
        forall|j: int| 0 <= j < s.len() ==> 1 <= #[trigger] s[j] < q,
    ensures
        lit_exp(s, q) == 0,
    decreases s.len(),
{
    if s.len() > 0 {
        lemma_pexp_small(s[0], q);
        lemma_lit_exp_zero(s.drop_first(), q);
    }
}

/// The primes strictly below `p`.
pub open spec fn primes_below(p: nat) -> Set<nat> {
    Set::new(|q: nat| 2 <= q < p && is_prime(q))
}

/// Register ordering: in a prime registry, the index of a prime equals the
/// count of primes strictly less than it — registers are the primes
/// 2, 3, 5, ... in ascending order, however the program references them.
pub proof fn lemma_register_ordering(ps: Seq<usize>, bound: nat, r: int)
    requires
        sieve_valid(ps, bound),
        0 <= r < ps.len(),
    ensures
        primes_below(ps[r] as nat).finite(),
        primes_below(ps[r] as nat).len() == r,
    decreases r,
{
    if r == 0 {
        assert forall|q: nat| !(#[trigger] primes_below(ps[0] as nat).contains(q)) by {
            if 2 <= q < ps[0] as nat && is_prime(q) {
                let i = choose|i: int| 0 <= i < ps.len() && ps[i] as nat == q;
                assert(ps[0] <= ps[i]);
            }
        }
        assert(primes_below(ps[0] as nat) =~= Set::<nat>::empty());
    } else {
        lemma_register_ordering(ps, bound, r - 1);
        let prev = ps[r - 1] as nat;
        assert forall|q: nat|
            primes_below(ps[r] as nat).contains(q) <==> #[trigger] primes_below(prev).insert(
                prev,
            ).contains(q) by {
            if 2 <= q < ps[r] as nat && is_prime(q) && q != prev {
                let i = choose|i: int| 0 <= i < ps.len() && ps[i] as nat == q;
                if i >= r {
                    assert(ps[r] <= ps[i]);
                }
                assert(i < r - 1 || i == r - 1);
                if i < r - 1 {
                    assert(ps[i] < ps[r - 1]);
                }
            }
        }
        assert(primes_below(ps[r] as nat) =~= primes_below(prev).insert(prev));
        assert(!primes_below(prev).contains(prev));
    }
}

} // verus!
