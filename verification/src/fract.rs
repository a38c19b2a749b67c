use vstd::prelude::*;

use crate::errors::FractranError;
use crate::expr::{checked_prod, lits_nat, Fract};
use crate::primes::{
    factor_within, gcd_usize, is_gcd, is_prime, lemma_lit_exp_split, lemma_lit_exp_take_succ,
    lemma_lit_exp_zero, lemma_pexp_divides, lit_exp, pexp, primes_bound, primes_list,
    sieve_primes, sieve_primes_vec, sieve_valid,
};

verus! {

/// `a - b`, floored at zero: what remains of one side's exponent after the
/// part shared with the other side is cancelled.
pub open spec fn cancelled(a: nat, b: nat) -> nat {
    if a >= b {
        (a - b) as nat
    } else {
        0
    }
}

/// `s[j]`, reading past the end as zero: a dense exponent vector denotes
/// zero for every register it does not reach.
pub open spec fn at_or_zero(s: Seq<usize>, j: int) -> nat {
    if 0 <= j < s.len() {
        s[j] as nat
    } else {
        0
    }
}

/// The dense vector `mine` holds, register by register, the multiplicities
/// of the registry primes in `my_lits`, cancelled against `other_lits`,
/// and reaches exactly up to the last register whose cancelled exponent is
/// nonzero — every register past its end is zero.
pub open spec fn side_ok(
    mine: Seq<usize>,
    my_lits: Seq<nat>,
    other_lits: Seq<nat>,
    ps: Seq<usize>,
) -> bool {
    &&& mine.len() <= ps.len()
    &&& forall|r: int|
        0 <= r < mine.len() ==> mine[r] as nat == cancelled(
            lit_exp(my_lits, #[trigger] ps[r] as nat),
            lit_exp(other_lits, ps[r] as nat),
        )
    &&& forall|r: int|
        mine.len() <= r < ps.len() ==> cancelled(
            lit_exp(my_lits, #[trigger] ps[r] as nat),
            lit_exp(other_lits, ps[r] as nat),
        ) == 0
    &&& (mine.len() == 0 || cancelled(
        lit_exp(my_lits, ps[mine.len() - 1] as nat),
        lit_exp(other_lits, ps[mine.len() - 1] as nat),
    ) >= 1)
}

/// No register has a nonzero entry on both sides at once.
pub open spec fn support_disjoint(a: Seq<usize>, b: Seq<usize>) -> bool {
    forall|r: int|
        0 <= r < a.len() && 0 <= r < b.len() ==> !(#[trigger] a[r] >= 1 && #[trigger] b[r] >= 1)
}

/// The reduced diagnostic pair: whole-side products divided by their
/// greatest common divisor, present exactly when both products fit in
/// `usize`.
pub open spec fn reduced_ok(rd: Option<Fract<usize>>, nl: Seq<nat>, dl: Seq<nat>) -> bool {
    &&& (rd is Some <==> checked_prod(1, nl) is Some && checked_prod(1, dl) is Some)
    &&& (rd matches Some(red) ==> (checked_prod(1, nl) matches Some(np) && checked_prod(1, dl)
        matches Some(dp) && exists|g: nat|
        #[trigger] is_gcd(g, np, dp) && red.numer as nat == np / g && red.denom as nat == dp / g))
}

/// One factored fraction against the registry `ps`: both exponent vectors,
/// their disjointness after cancellation, and the reduced pair.
pub open spec fn fraction_factored(
    f: Fract<Vec<usize>>,
    rd: Option<Fract<usize>>,
    fv: Fract<Vec<usize>>,
    ps: Seq<usize>,
) -> bool {
    &&& side_ok(fv.numer@, lits_nat(f.numer@), lits_nat(f.denom@), ps)
    &&& side_ok(fv.denom@, lits_nat(f.denom@), lits_nat(f.numer@), ps)
    &&& support_disjoint(fv.numer@, fv.denom@)
    &&& reduced_ok(rd, lits_nat(f.numer@), lits_nat(f.denom@))
}

pub open spec fn all_positive(s: Seq<usize>) -> bool {
    forall|j: int| 0 <= j < s.len() ==> #[trigger] s[j] >= 1
}

pub open spec fn all_at_most(s: Seq<usize>, m: nat) -> bool {
    forall|j: int| 0 <= j < s.len() ==> #[trigger] s[j] as nat <= m
}

/// Every literal of every fraction is positive.
pub open spec fn all_lits_positive(fracs: Seq<Fract<Vec<usize>>>) -> bool {
    forall|i: int|
        0 <= i < fracs.len() ==> #[trigger] all_positive(fracs[i].numer@) && all_positive(
            fracs[i].denom@,
        )
}

/// Every literal leaves room for the sieve bound `largest + 1`.
pub open spec fn lits_bounded(fracs: Seq<Fract<Vec<usize>>>) -> bool {
    forall|i: int|
        0 <= i < fracs.len() ==> #[trigger] all_at_most(fracs[i].numer@, (usize::MAX - 2) as nat)
            && all_at_most(fracs[i].denom@, (usize::MAX - 2) as nat)
}

/// Every per-register exponent sum fits in `usize`.
pub open spec fn exps_fit(fracs: Seq<Fract<Vec<usize>>>) -> bool {
    forall|i: int, q: nat|
        0 <= i < fracs.len() && is_prime(q) ==> #[trigger] lit_exp(lits_nat(fracs[i].numer@), q)
            <= usize::MAX && lit_exp(lits_nat(fracs[i].denom@), q) <= usize::MAX
}

/// Exactly when factorisation succeeds: positive literals, a representable
/// sieve bound, and exponent sums within `usize`.
pub open spec fn factorable(fracs: Seq<Fract<Vec<usize>>>) -> bool {
    all_lits_positive(fracs) && lits_bounded(fracs) && exps_fit(fracs)
}

/// The whole output, fraction by fraction, against one registry that
/// covers every literal.
pub open spec fn factored_wrt(
    fracs: Seq<Fract<Vec<usize>>>,
    out: Seq<(Option<Fract<usize>>, Fract<Vec<usize>>)>,
    ps: Seq<usize>,
    bound: nat,
) -> bool {
    &&& out.len() == fracs.len()
    &&& forall|i: int|
        0 <= i < fracs.len() ==> #[trigger] all_at_most(fracs[i].numer@, bound) && all_at_most(
            fracs[i].denom@,
            bound,
        )
    &&& forall|i: int|
        0 <= i < fracs.len() ==> fraction_factored(#[trigger] fracs[i], out[i].0, out[i].1, ps)
}

/// There is one registry against which the output factors the input.
pub open spec fn factored_output(
    fracs: Seq<Fract<Vec<usize>>>,
    out: Seq<(Option<Fract<usize>>, Fract<Vec<usize>>)>,
) -> bool {
    exists|ps: Seq<usize>, bound: nat|
        sieve_valid(ps, bound) && #[trigger] factored_wrt(fracs, out, ps, bound)
}

/// Sum of the exponents attached to prime `q` among factor pairs.
spec fn pairs_exp(pairs: Seq<(usize, usize)>, q: nat) -> nat
    decreases pairs.len(),
{
    if pairs.len() == 0 {
        0
    } else {
        (if pairs[0].0 as nat == q {
            pairs[0].1 as nat
        } else {
            0
        }) + pairs_exp(pairs.drop_first(), q)
    }
}

proof fn lemma_pairs_exp_snoc(s: Seq<(usize, usize)>, x: (usize, usize), q: nat)
    ensures
        pairs_exp(s.push(x), q) == pairs_exp(s, q) + (if x.0 as nat == q {
            x.1 as nat
        } else {
            0
        }),
    decreases s.len(),
{
    if s.len() == 0 {
        assert(s.push(x).drop_first() =~= Seq::<(usize, usize)>::empty());
        assert(s.push(x)[0] == x);
        assert(pairs_exp(Seq::<(usize, usize)>::empty(), q) == 0);
        assert(pairs_exp(s.push(x), q) == (if x.0 as nat == q {
            x.1 as nat
        } else {
            0
        }) + pairs_exp(s.push(x).drop_first(), q));
    } else {
        assert(s.push(x).drop_first() =~= s.drop_first().push(x));
        assert(s.push(x)[0] == s[0]);
        lemma_pairs_exp_snoc(s.drop_first(), x, q);
    }
}

proof fn lemma_pairs_exp_none(s: Seq<(usize, usize)>, q: nat)
    requires
        forall|j: int| 0 <= j < s.len() ==> (#[trigger] s[j]).0 as nat != q,
    ensures
        pairs_exp(s, q) == 0,
    decreases s.len(),
{
    if s.len() > 0 {
        assert(forall|j: int|
            0 <= j < s.drop_first().len() ==> (#[trigger] s.drop_first()[j]).0 as nat != q);
        lemma_pairs_exp_none(s.drop_first(), q);
    }
}

proof fn lemma_pairs_exp_one(s: Seq<(usize, usize)>, j: int, q: nat)
    requires
        0 <= j < s.len(),
        s[j].0 as nat == q,
        forall|k: int| 0 <= k < s.len() && k != j ==> (#[trigger] s[k]).0 as nat != q,
    ensures
        pairs_exp(s, q) == s[j].1 as nat,
    decreases s.len(),
{
    if j == 0 {
        assert(forall|k: int|
            0 <= k < s.drop_first().len() ==> (#[trigger] s.drop_first()[k]).0 as nat != q);
        lemma_pairs_exp_none(s.drop_first(), q);
    } else {
        assert(forall|k: int|
            0 <= k < s.drop_first().len() && k != j - 1 ==> #[trigger] s.drop_first()[k] == s[k
                + 1]);
        lemma_pairs_exp_one(s.drop_first(), j - 1, q);
    }
}

/// What `factor_within` hands back sums, for each prime, to that prime's
/// exact multiplicity in the factored number.
proof fn lemma_pairs_exp_total(pairs: Seq<(usize, usize)>, n: nat, q: nat)
    requires
        n >= 1,
        is_prime(q),
        forall|j: int|
            0 <= j < pairs.len() ==> is_prime((#[trigger] pairs[j]).0 as nat) && pairs[j].1 as nat
                == pexp(n, pairs[j].0 as nat) && pairs[j].1 >= 1,
        forall|j: int, k: int| 0 <= j < k < pairs.len() ==> (pairs[j]).0 < (pairs[k]).0,
        pexp(n, q) >= 1 ==> exists|j: int| 0 <= j < pairs.len() && (pairs[j]).0 as nat == q,
    ensures
        pairs_exp(pairs, q) == pexp(n, q),
{
    if pexp(n, q) == 0 {
        assert forall|j: int| 0 <= j < pairs.len() implies (#[trigger] pairs[j]).0 as nat != q by {
            if pairs[j].0 as nat == q {
                assert(pairs[j].1 as nat == pexp(n, q));
            }
        }
        lemma_pairs_exp_none(pairs, q);
    } else {
        let j = choose|j: int| 0 <= j < pairs.len() && (pairs[j]).0 as nat == q;
        assert forall|k: int| 0 <= k < pairs.len() && k != j implies (#[trigger] pairs[k]).0
            as nat != q by {
            if k < j {
                assert(pairs[k].0 < pairs[j].0);
            } else {
                assert(pairs[j].0 < pairs[k].0);
            }
        }
        lemma_pairs_exp_one(pairs, j, q);
    }
}

/// Finds the position of `p` in the registry.
fn index_of_prime(pvec: &Vec<usize>, p: usize) -> (r: usize)
    requires
        exists|i: int| 0 <= i < pvec@.len() && pvec@[i] == p,
    ensures
        r < pvec@.len(),
        pvec@[r as int] == p,
{
    let mut i: usize = 0;
    while i < pvec.len()
        invariant
            0 <= i <= pvec@.len(),
            forall|j: int| 0 <= j < i ==> pvec@[j] != p,
            exists|j: int| 0 <= j < pvec@.len() && pvec@[j] == p,
        decreases pvec@.len() - i,
    {
        if pvec[i] == p {
            return i;
        }
        i = i + 1;
    }
    proof {
        let j = choose|j: int| 0 <= j < pvec@.len() && pvec@[j] == p;
        assert(false);
    }
    0
}

/// Adds `e` to entry `idx`, growing the vector with zeroes as needed;
/// reports failure (leaving the vector alone) if the entry would leave
/// `usize`.
fn bump(acc: &mut Vec<usize>, idx: usize, e: usize) -> (ok: bool)
    requires
        idx < usize::MAX,
    ensures
        ok ==> {
            &&& final(acc)@.len() == if idx + 1 > old(acc)@.len() {
                (idx + 1) as int
            } else {
                old(acc)@.len() as int
            }
            &&& forall|j: int|
                0 <= j < final(acc)@.len() && j != idx ==> final(acc)@[j] as nat == at_or_zero(
                    old(acc)@,
                    j,
                )
            &&& final(acc)@[idx as int] as nat == at_or_zero(old(acc)@, idx as int) + e
        },
        !ok ==> final(acc)@ == old(acc)@ && at_or_zero(old(acc)@, idx as int) + e > usize::MAX,
{
    if acc.len() < idx + 1 {
        let ghost orig = acc@;
        while acc.len() < idx + 1
            invariant
                idx < usize::MAX,
                orig.len() <= acc@.len() <= idx + 1,
                forall|j: int| 0 <= j < orig.len() ==> acc@[j] == orig[j],
                forall|j: int| orig.len() <= j < acc@.len() ==> acc@[j] == 0,
            decreases idx + 1 - acc@.len(),
        {
            acc.push(0);
        }
        acc.set(idx, e);
        return true;
    }
    let cur = acc[idx];
    match cur.checked_add(e) {
        Some(v) => {
            acc.set(idx, v);
            true
        },
        None => false,
    }
}

/// Accumulates, register by register, the multiplicities of the registry
/// primes over one literal list. Fails exactly on a zero literal or an
/// exponent sum past `usize`.
fn accumulate(
    sieve: &slow_primes::Primes,
    pvec: &Vec<usize>,
    lits: &Vec<usize>,
) -> (r: Result<Vec<usize>, FractranError>)
    requires
        pvec@ == primes_list(*sieve),
        sieve_valid(pvec@, primes_bound(*sieve)),
        all_at_most(lits@, primes_bound(*sieve)),
    ensures
        r matches Ok(v) ==> {
            &&& all_positive(lits@)
            &&& v@.len() <= pvec@.len()
            &&& forall|r_: int|
                0 <= r_ < v@.len() ==> v@[r_] as nat == lit_exp(
                    lits_nat(lits@),
                    #[trigger] pvec@[r_] as nat,
                )
            &&& forall|r_: int|
                v@.len() <= r_ < pvec@.len() ==> lit_exp(lits_nat(lits@), #[trigger] pvec@[r_] as nat)
                    == 0
            &&& (v@.len() == 0 || lit_exp(lits_nat(lits@), pvec@[v@.len() - 1] as nat) >= 1)
            &&& forall|r_: int|
                0 <= r_ < pvec@.len() ==> lit_exp(lits_nat(lits@), #[trigger] pvec@[r_] as nat)
                    <= usize::MAX
        },
        r matches Err(e) ==> e == FractranError::FactorizationOverflow && ((exists|j: int|
            0 <= j < lits@.len() && lits@[j] == 0) || (exists|r_: int|
            0 <= r_ < pvec@.len() && lit_exp(lits_nat(lits@), pvec@[r_] as nat) > usize::MAX)),
{
    let ghost ps = pvec@;
    let ghost nl = lits_nat(lits@);
    let mut acc: Vec<usize> = Vec::new();
    let mut li: usize = 0;
    assert(nl.take(0) =~= Seq::<nat>::empty());
    while li < lits.len()
        invariant
            pvec@ == ps,
            nl == lits_nat(lits@),
            sieve_valid(ps, primes_bound(*sieve)),
            pvec@ == primes_list(*sieve),
            all_at_most(lits@, primes_bound(*sieve)),
            0 <= li <= lits@.len(),
            forall|j: int| 0 <= j < li ==> #[trigger] lits@[j] >= 1,
            acc@.len() <= ps.len(),
            forall|r_: int|
                0 <= r_ < acc@.len() ==> acc@[r_] as nat == lit_exp(
                    nl.take(li as int),
                    #[trigger] ps[r_] as nat,
                ),
            forall|r_: int|
                acc@.len() <= r_ < ps.len() ==> lit_exp(nl.take(li as int), #[trigger] ps[r_] as nat)
                    == 0,
            acc@.len() == 0 || acc@[acc@.len() - 1] >= 1,
        decreases lits@.len() - li,
    {
        let lit = lits[li];
        assert(nl[li as int] == lit as nat);
        assert(lit as nat <= primes_bound(*sieve));
        match factor_within(sieve, lit) {
            None => {
                assert(lit == 0) by {
                    if lit >= 1 {
                        assert(1 <= lit as nat <= primes_bound(*sieve));
                    }
                }
                return Err(FractranError::FactorizationOverflow);
            },
            Some(pairs) => {
                let ghost pv = pairs@;
                let mut pi: usize = 0;
                assert(pv.take(0) =~= Seq::<(usize, usize)>::empty());
                while pi < pairs.len()
                    invariant
                        pvec@ == ps,
                        nl == lits_nat(lits@),
                        0 <= pi <= pv.len(),
                        pairs@ == pv,
                        0 <= li < lits@.len(),
                        lits@[li as int] == lit,
                        nl[li as int] == lit as nat,
                        lit >= 1,
                        forall|j: int|
                            0 <= j < pv.len() ==> is_prime((#[trigger] pv[j]).0 as nat) && pv[j].1
                                as nat == pexp(lit as nat, pv[j].0 as nat) && pv[j].1 >= 1,
                        forall|j: int, k: int| 0 <= j < k < pv.len() ==> (pv[j]).0 < (pv[k]).0,
                        forall|q: nat|
                            #[trigger] is_prime(q) && pexp(lit as nat, q) >= 1 ==> exists|j: int|
                                0 <= j < pv.len() && (pv[j]).0 as nat == q,
                        sieve_valid(ps, primes_bound(*sieve)),
                        all_at_most(lits@, primes_bound(*sieve)),
                        acc@.len() <= ps.len(),
                        forall|r_: int|
                            0 <= r_ < acc@.len() ==> acc@[r_] as nat == lit_exp(
                                nl.take(li as int),
                                #[trigger] ps[r_] as nat,
                            ) + pairs_exp(pv.take(pi as int), ps[r_] as nat),
                        forall|r_: int|
                            acc@.len() <= r_ < ps.len() ==> lit_exp(
                                nl.take(li as int),
                                #[trigger] ps[r_] as nat,
                            ) + pairs_exp(pv.take(pi as int), ps[r_] as nat) == 0,
                        acc@.len() == 0 || acc@[acc@.len() - 1] >= 1,
                    decreases pv.len() - pi,
                {
                    let (p, e) = pairs[pi];
                    proof {
                        lemma_pexp_divides(lit as nat, p as nat);
                        assert(p as nat <= primes_bound(*sieve));
                        assert(exists|i: int| 0 <= i < ps.len() && ps[i] as nat == p as nat);
                    }
                    let idx = index_of_prime(pvec, p);
                    let plen = pvec.len();
                    assert(idx < plen);
                    let ghost old_acc = acc@;
                    let ok = bump(&mut acc, idx, e);
                    proof {
                        assert(pv.take(pi + 1) =~= pv.take(pi as int).push(pv[pi as int]));
                        assert forall|r_: int| 0 <= r_ < ps.len() implies pairs_exp(
                            pv.take(pi + 1),
                            #[trigger] ps[r_] as nat,
                        ) == pairs_exp(pv.take(pi as int), ps[r_] as nat) + (if r_ == idx {
                            e as nat
                        } else {
                            0
                        }) by {
                            lemma_pairs_exp_snoc(pv.take(pi as int), pv[pi as int], ps[r_] as nat);
                            if r_ != idx {
                                assert(ps[r_] != p);
                            }
                        }
                    }
                    if !ok {
                        proof {
                            assert(at_or_zero(old_acc, idx as int) + e > usize::MAX);
                            assert(lit_exp(nl.take(li as int), ps[idx as int] as nat) + pairs_exp(
                                pv.take(pi + 1),
                                ps[idx as int] as nat,
                            ) > usize::MAX);
                            // the full multiplicity only grows from here
                            lemma_pairs_exp_prefix(pv, pi + 1, ps[idx as int] as nat);
                            lemma_pairs_exp_total_wrap(pv, lit as nat, ps[idx as int] as nat);
                            lemma_lit_exp_take_succ(nl, li as int, ps[idx as int] as nat);
                            lemma_lit_exp_tail_bound(nl, li + 1, ps[idx as int] as nat);
                        }
                        return Err(FractranError::FactorizationOverflow);
                    }
                    pi = pi + 1;
                }
                proof {
                    assert(pv.take(pv.len() as int) =~= pv);
                    assert forall|r_: int| 0 <= r_ < ps.len() implies pairs_exp(pv, ps[r_] as nat)
                        == pexp(lit as nat, #[trigger] ps[r_] as nat) by {
                        lemma_pairs_exp_total(pv, lit as nat, ps[r_] as nat);
                    }
                    assert forall|r_: int| 0 <= r_ < ps.len() implies lit_exp(
                        nl.take(li + 1),
                        #[trigger] ps[r_] as nat,
                    ) == lit_exp(nl.take(li as int), ps[r_] as nat) + pexp(lit as nat, ps[r_] as nat)
                        by {
                        lemma_lit_exp_take_succ(nl, li as int, ps[r_] as nat);
                    }
                }
            },
        }
        li = li + 1;
    }
    proof {
        assert(nl.take(lits@.len() as int) =~= nl);
    }
    Ok(acc)
}

/// The multiplicity a prefix of the pairs accounts for never exceeds the
/// whole list's.
proof fn lemma_pairs_exp_prefix(pv: Seq<(usize, usize)>, i: int, q: nat)
    requires
        0 <= i <= pv.len(),
    ensures
        pairs_exp(pv.take(i), q) <= pairs_exp(pv, q),
    decreases pv.len() - i,
{
    if i < pv.len() {
        assert(pv.take(i + 1) =~= pv.take(i).push(pv[i]));
        lemma_pairs_exp_snoc(pv.take(i), pv[i], q);
        lemma_pairs_exp_prefix(pv, i + 1, q);
    } else {
        assert(pv.take(i) =~= pv);
    }
}

/// `pairs_exp` of a complete factorisation is at most the multiplicity.
proof fn lemma_pairs_exp_total_wrap(pv: Seq<(usize, usize)>, n: nat, q: nat)
    requires
        n >= 1,
        forall|j: int|
            0 <= j < pv.len() ==> is_prime((#[trigger] pv[j]).0 as nat) && pv[j].1 as nat == pexp(
                n,
                pv[j].0 as nat,
            ) && pv[j].1 >= 1,
        forall|j: int, k: int| 0 <= j < k < pv.len() ==> (pv[j]).0 < (pv[k]).0,
    ensures
        pairs_exp(pv, q) <= pexp(n, q),
{
    if exists|j: int| 0 <= j < pv.len() && (pv[j]).0 as nat == q {
        let j = choose|j: int| 0 <= j < pv.len() && (pv[j]).0 as nat == q;
        assert forall|k: int| 0 <= k < pv.len() && k != j implies (#[trigger] pv[k]).0 as nat != q
            by {
            if k < j {
                assert(pv[k].0 < pv[j].0);
            } else {
                assert(pv[j].0 < pv[k].0);
            }
        }
        lemma_pairs_exp_one(pv, j, q);
    } else {
        assert(forall|j: int| 0 <= j < pv.len() ==> (#[trigger] pv[j]).0 as nat != q);
        lemma_pairs_exp_none(pv, q);
    }
}

/// The multiplicity of a list is at least that of any prefix.
proof fn lemma_lit_exp_tail_bound(s: Seq<nat>, i: int, q: nat)
    requires
        0 <= i <= s.len(),
    ensures
        lit_exp(s.take(i), q) <= lit_exp(s, q),
{
    lemma_lit_exp_split(s, i, q);
}

/// Drops trailing zero entries: the vector then ends at the last register
/// it actually charges or credits.
fn trim_zeros(v: &mut Vec<usize>)
    ensures
        final(v)@.len() <= old(v)@.len(),
        forall|j: int| 0 <= j < final(v)@.len() ==> final(v)@[j] == old(v)@[j],
        forall|j: int| final(v)@.len() <= j < old(v)@.len() ==> old(v)@[j] == 0,
        final(v)@.len() == 0 || final(v)@[final(v)@.len() - 1] != 0,
{
    while v.len() > 0 && v[v.len() - 1] == 0
        invariant
            v@.len() <= old(v)@.len(),
            forall|j: int| 0 <= j < v@.len() ==> v@[j] == old(v)@[j],
            forall|j: int| v@.len() <= j < old(v)@.len() ==> old(v)@[j] == 0,
        decreases v@.len(),
    {
        let ghost before = v@;
        v.pop();
        assert(v@ =~= before.drop_last());
    }
}

/// Cancels the shared part: subtracts, register by register, the smaller
/// entry from both vectors over their common prefix.
fn cancel(a: &mut Vec<usize>, b: &mut Vec<usize>)
    ensures
        final(a)@.len() == old(a)@.len(),
        final(b)@.len() == old(b)@.len(),
        forall|r: int|
            0 <= r < final(a)@.len() ==> final(a)@[r] as nat == cancelled(
                old(a)@[r] as nat,
                at_or_zero(old(b)@, r),
            ),
        forall|r: int|
            0 <= r < final(b)@.len() ==> final(b)@[r] as nat == cancelled(
                old(b)@[r] as nat,
                at_or_zero(old(a)@, r),
            ),
{
    let n = if a.len() < b.len() {
        a.len()
    } else {
        b.len()
    };
    let mut r: usize = 0;
    while r < n
        invariant
            n <= a@.len() && n <= b@.len(),
            a@.len() == old(a)@.len(),
            b@.len() == old(b)@.len(),
            n == if old(a)@.len() < old(b)@.len() {
                old(a)@.len()
            } else {
                old(b)@.len()
            },
            0 <= r <= n,
            forall|j: int|
                0 <= j < r ==> a@[j] as nat == cancelled(old(a)@[j] as nat, old(b)@[j] as nat),
            forall|j: int|
                0 <= j < r ==> b@[j] as nat == cancelled(old(b)@[j] as nat, old(a)@[j] as nat),
            forall|j: int| r <= j < a@.len() ==> a@[j] == old(a)@[j],
            forall|j: int| r <= j < b@.len() ==> b@[j] == old(b)@[j],
        decreases n - r,
    {
        let x = a[r];
        let y = b[r];
        let m = if x < y {
            x
        } else {
            y
        };
        a.set(r, x - m);
        b.set(r, y - m);
        r = r + 1;
    }
}

/// The reduced diagnostic pair of one fraction: numerator and denominator
/// multiplied out and divided by their greatest common divisor, or nothing
/// if either product leaves `usize`.
fn reduce(numer: &Vec<usize>, denom: &Vec<usize>) -> (r: Option<Fract<usize>>)
    requires
        all_positive(numer@),
        all_positive(denom@),
    ensures
        reduced_ok(r, lits_nat(numer@), lits_nat(denom@)),
{
    let np = match crate::expr::prod_from(1, numer) {
        None => {
            return None;
        },
        Some(v) => v,
    };
    let dp = match crate::expr::prod_from(1, denom) {
        None => {
            return None;
        },
        Some(v) => v,
    };
    proof {
        lemma_checked_prod_positive(1, lits_nat(numer@));
        lemma_checked_prod_positive(1, lits_nat(denom@));
    }
    let g = gcd_usize(np, dp);
    assert(g >= 1);
    Some(Fract { numer: np / g, denom: dp / g })
}

/// A checked product of positive factors from a positive start is
/// positive.
proof fn lemma_checked_prod_positive(acc: nat, s: Seq<nat>)
    requires
        acc >= 1,
        forall|j: int| 0 <= j < s.len() ==> #[trigger] s[j] >= 1,
    ensures
        checked_prod(acc, s) matches Some(v) ==> v >= 1,
    decreases s.len(),
{
    if s.len() > 0 && acc * s[0] <= usize::MAX as nat {
        assert(acc * s[0] >= acc * 1) by (nonlinear_arith)
            requires
                acc >= 1,
                s[0] >= 1,
        ;
        lemma_checked_prod_positive(acc * s[0], s.drop_first());
    }
}

/// Largest of `cur` and the entries of `s`.
fn max_lit_list(cur: usize, s: &Vec<usize>) -> (r: usize)
    ensures
        r >= cur,
        forall|j: int| 0 <= j < s@.len() ==> #[trigger] s@[j] <= r,
        r == cur || exists|j: int| 0 <= j < s@.len() && s@[j] == r,
{
    let mut m = cur;
    let mut i: usize = 0;
    while i < s.len()
        invariant
            0 <= i <= s@.len(),
            m >= cur,
            forall|j: int| 0 <= j < i ==> #[trigger] s@[j] <= m,
            m == cur || exists|j: int| 0 <= j < s@.len() && s@[j] == m,
        decreases s@.len() - i,
    {
        if s[i] > m {
            m = s[i];
        }
        i = i + 1;
    }
    m
}

/// A bound on every entry stays one when raised.
proof fn lemma_at_most_mono(s: Seq<usize>, m1: nat, m2: nat)
    requires
        all_at_most(s, m1),
        m1 <= m2,
    ensures
        all_at_most(s, m2),
{
    assert forall|j: int| 0 <= j < s.len() implies #[trigger] s[j] as nat <= m2 by {
        assert(s[j] as nat <= m1);
    }
}

/// Factorises every raw fraction of a program against one shared prime
/// registry, the sieve reaching at least one past the largest literal
/// anywhere in the program.
///
/// For each fraction the result pairs a reduced scalar fraction — a
/// diagnostic value, absent when a side's product leaves `usize` — with
/// the dense per-register exponent vectors of numerator and denominator,
/// shared factors cancelled so that the two supports are disjoint, and
/// each vector trimmed to end at the last register it touches.
///
/// Fails with `FactorizationOverflow` exactly when a literal is zero, a
/// literal leaves no room for the sieve bound, or a per-register exponent
/// sum leaves `usize`.
pub fn factorise(fracs: &Vec<Fract<Vec<usize>>>) -> (r: Result<
    Vec<(Option<Fract<usize>>, Fract<Vec<usize>>)>,
    FractranError,
>)
    ensures
        r is Ok <==> factorable(fracs@),
        r matches Err(e) ==> e == FractranError::FactorizationOverflow,
        r matches Ok(out) ==> factored_output(fracs@, out@),
{
    let mut largest: usize = 1;
    let mut i: usize = 0;
    while i < fracs.len()
        invariant
            0 <= i <= fracs@.len(),
            largest >= 1,
            forall|k: int|
                0 <= k < i ==> all_at_most(#[trigger] fracs@[k].numer@, largest as nat)
                    && all_at_most(fracs@[k].denom@, largest as nat),
            largest == 1 || exists|k: int, j: int|
                0 <= k < fracs@.len() && ((0 <= j < fracs@[k].numer@.len() && fracs@[k].numer@[j]
                    == largest) || (0 <= j < fracs@[k].denom@.len() && fracs@[k].denom@[j]
                    == largest)),
        decreases fracs@.len() - i,
    {
        let a = max_lit_list(largest, &fracs[i].numer);
        let b = max_lit_list(a, &fracs[i].denom);
        proof {
            if b != largest {
                if b == a {
                    if a != largest {
                        let j = choose|j: int|
                            0 <= j < fracs@[i as int].numer@.len() && fracs@[i as int].numer@[j]
                                == a;
                        assert(0 <= j < fracs@[i as int].numer@.len() && fracs@[i as int].numer@[j]
                            == b);
                    }
                }
            }
            assert forall|k: int| 0 <= k < i + 1 implies all_at_most(
                #[trigger] fracs@[k].numer@,
                b as nat,
            ) && all_at_most(fracs@[k].denom@, b as nat) by {
                if k < i {
                    lemma_at_most_mono(fracs@[k].numer@, largest as nat, b as nat);
                    lemma_at_most_mono(fracs@[k].denom@, largest as nat, b as nat);
                } else {
                    lemma_at_most_mono(fracs@[k].numer@, a as nat, b as nat);
                }
            }
        }
        largest = b;
        i = i + 1;
    }
    if largest > usize::MAX - 2 {
        proof {
            let (k, j) = choose|k: int, j: int|
                0 <= k < fracs@.len() && ((0 <= j < fracs@[k].numer@.len() && fracs@[k].numer@[j]
                    == largest) || (0 <= j < fracs@[k].denom@.len() && fracs@[k].denom@[j]
                    == largest));
            if 0 <= j < fracs@[k].numer@.len() && fracs@[k].numer@[j] == largest {
                assert(!all_at_most(fracs@[k].numer@, (usize::MAX - 2) as nat));
            } else {
                assert(!all_at_most(fracs@[k].denom@, (usize::MAX - 2) as nat));
            }
            if lits_bounded(fracs@) {
                assert(all_at_most(fracs@[k].numer@, (usize::MAX - 2) as nat));
                assert(all_at_most(fracs@[k].denom@, (usize::MAX - 2) as nat));
                assert(false);
            }
            assert(!lits_bounded(fracs@));
        }
        return Err(FractranError::FactorizationOverflow);
    }
    let limit = if largest % 2 == 1 {
        largest + 1
    } else {
        largest + 2
    };
    let sieve = sieve_primes(limit);
    let pvec = sieve_primes_vec(&sieve);
    let ghost ps = pvec@;
    let ghost bound = primes_bound(sieve);
    assert(limit >= largest + 1);
    assert(bound >= largest as nat);
    let mut out: Vec<(Option<Fract<usize>>, Fract<Vec<usize>>)> = Vec::new();
    let mut i: usize = 0;
    while i < fracs.len()
        invariant
            0 <= i <= fracs@.len(),
            out@.len() == i,
            largest <= usize::MAX - 2,
            pvec@ == ps,
            ps == primes_list(sieve),
            bound == primes_bound(sieve),
            sieve_valid(ps, bound),
            bound >= largest as nat,
            forall|k: int|
                0 <= k < fracs@.len() ==> all_at_most(#[trigger] fracs@[k].numer@, largest as nat)
                    && all_at_most(fracs@[k].denom@, largest as nat),
            forall|k: int|
                0 <= k < i ==> all_positive(#[trigger] fracs@[k].numer@) && all_positive(
                    fracs@[k].denom@,
                ),
            forall|k: int, r_: int|
                0 <= k < i && 0 <= r_ < ps.len() ==> lit_exp(
                    lits_nat(#[trigger] fracs@[k].numer@),
                    #[trigger] ps[r_] as nat,
                ) <= usize::MAX && lit_exp(lits_nat(fracs@[k].denom@), ps[r_] as nat) <= usize::MAX,
            forall|k: int|
                0 <= k < i ==> fraction_factored(
                    #[trigger] fracs@[k],
                    out@[k].0,
                    out@[k].1,
                    ps,
                ),
        decreases fracs@.len() - i,
    {
        proof {
            assert(all_at_most(fracs@[i as int].numer@, bound));
            assert(all_at_most(fracs@[i as int].denom@, bound));
        }
        let nv = match accumulate(&sieve, &pvec, &fracs[i].numer) {
            Err(e) => {
                proof {
                    lemma_not_factorable(fracs@, i as int, ps, bound, true);
                }
                return Err(e);
            },
            Ok(v) => v,
        };
        let dv = match accumulate(&sieve, &pvec, &fracs[i].denom) {
            Err(e) => {
                proof {
                    lemma_not_factorable(fracs@, i as int, ps, bound, false);
                }
                return Err(e);
            },
            Ok(v) => v,
        };
        let rd = reduce(&fracs[i].numer, &fracs[i].denom);
        let mut nv2 = nv;
        let mut dv2 = dv;
        let ghost nv0 = nv2@;
        let ghost dv0 = dv2@;
        cancel(&mut nv2, &mut dv2);
        let ghost cn = nv2@;
        let ghost cd = dv2@;
        proof {
            let nl = lits_nat(fracs@[i as int].numer@);
            let dl = lits_nat(fracs@[i as int].denom@);
            assert forall|r_: int| 0 <= r_ < cn.len() implies cn[r_] as nat == cancelled(
                lit_exp(nl, #[trigger] ps[r_] as nat),
                lit_exp(dl, ps[r_] as nat),
            ) by {
                assert(nv0[r_] as nat == lit_exp(nl, ps[r_] as nat));
                if r_ < dv0.len() {
                    assert(at_or_zero(dv0, r_) == lit_exp(dl, ps[r_] as nat));
                } else {
                    assert(lit_exp(dl, ps[r_] as nat) == 0);
                }
            }
            assert forall|r_: int| 0 <= r_ < cd.len() implies cd[r_] as nat == cancelled(
                lit_exp(dl, #[trigger] ps[r_] as nat),
                lit_exp(nl, ps[r_] as nat),
            ) by {
                assert(dv0[r_] as nat == lit_exp(dl, ps[r_] as nat));
                if r_ < nv0.len() {
                    assert(at_or_zero(nv0, r_) == lit_exp(nl, ps[r_] as nat));
                } else {
                    assert(lit_exp(nl, ps[r_] as nat) == 0);
                }
            }
        }
        trim_zeros(&mut nv2);
        trim_zeros(&mut dv2);
        proof {
            let nl = lits_nat(fracs@[i as int].numer@);
            let dl = lits_nat(fracs@[i as int].denom@);
            assert forall|r_: int| nv2@.len() <= r_ < ps.len() implies cancelled(
                lit_exp(nl, #[trigger] ps[r_] as nat),
                lit_exp(dl, ps[r_] as nat),
            ) == 0 by {
                if r_ < cn.len() {
                    assert(cn[r_] == 0);
                } else {
                    assert(lit_exp(nl, ps[r_] as nat) == 0);
                }
            }
            assert forall|r_: int| dv2@.len() <= r_ < ps.len() implies cancelled(
                lit_exp(dl, #[trigger] ps[r_] as nat),
                lit_exp(nl, ps[r_] as nat),
            ) == 0 by {
                if r_ < cd.len() {
                    assert(cd[r_] == 0);
                } else {
                    assert(lit_exp(dl, ps[r_] as nat) == 0);
                }
            }
            assert(side_ok(nv2@, nl, dl, ps));
            assert(side_ok(dv2@, dl, nl, ps));
            assert(support_disjoint(nv2@, dv2@));
        }
        let fv = Fract { numer: nv2, denom: dv2 };
        out.push((rd, fv));
        i = i + 1;
    }
    proof {
        assert forall|k: int| 0 <= k < fracs@.len() implies #[trigger] all_at_most(
            fracs@[k].numer@,
            bound,
        ) && all_at_most(fracs@[k].denom@, bound) by {
            lemma_at_most_mono(fracs@[k].numer@, largest as nat, bound);
            lemma_at_most_mono(fracs@[k].denom@, largest as nat, bound);
        }
        assert(factored_wrt(fracs@, out@, ps, bound));
        assert(factored_output(fracs@, out@));
        assert forall|k: int| 0 <= k < fracs@.len() implies #[trigger] all_at_most(
            fracs@[k].numer@,
            (usize::MAX - 2) as nat,
        ) && all_at_most(fracs@[k].denom@, (usize::MAX - 2) as nat) by {
            lemma_at_most_mono(fracs@[k].numer@, largest as nat, (usize::MAX - 2) as nat);
            lemma_at_most_mono(fracs@[k].denom@, largest as nat, (usize::MAX - 2) as nat);
        }
        assert(lits_bounded(fracs@));
        assert(all_lits_positive(fracs@));
        assert forall|k: int, q: nat|
            0 <= k < fracs@.len() && is_prime(q) implies #[trigger] lit_exp(
            lits_nat(fracs@[k].numer@),
            q,
        ) <= usize::MAX && lit_exp(lits_nat(fracs@[k].denom@), q) <= usize::MAX by {
            lemma_fit_lift(fracs@[k].numer@, q, ps, bound, largest as nat);
            lemma_fit_lift(fracs@[k].denom@, q, ps, bound, largest as nat);
        }
        assert(exps_fit(fracs@));
        assert(factorable(fracs@));
    }
    Ok(out)
}

/// A prime's exponent sum over a positive, bounded literal list fits in
/// `usize` once it fits at every registry position: a prime outside the
/// registry exceeds the bound and so occurs in no literal.
proof fn lemma_fit_lift(lits: Seq<usize>, q: nat, ps: Seq<usize>, bound: nat, largest: nat)
    requires
        is_prime(q),
        sieve_valid(ps, bound),
        bound >= largest,
        all_positive(lits),
        all_at_most(lits, largest),
        forall|r_: int|
            0 <= r_ < ps.len() ==> lit_exp(lits_nat(lits), #[trigger] ps[r_] as nat) <= usize::MAX,
    ensures
        lit_exp(lits_nat(lits), q) <= usize::MAX,
{
    if q <= bound {
        let r_ = choose|r_: int| 0 <= r_ < ps.len() && ps[r_] as nat == q;
        assert(lit_exp(lits_nat(lits), ps[r_] as nat) <= usize::MAX);
    } else {
        assert forall|j: int| 0 <= j < lits_nat(lits).len() implies 1 <= #[trigger] lits_nat(
            lits,
        )[j] < q by {
            assert(lits[j] >= 1 && lits[j] as nat <= largest);
        }
        lemma_lit_exp_zero(lits_nat(lits), q);
    }
}

/// One literal list that the accumulation stage refuses: a zero literal,
/// or an exponent sum past `usize` at some registry position.
spec fn side_fails(lits: Seq<usize>, ps: Seq<usize>) -> bool {
    (exists|j: int| 0 <= j < lits.len() && lits[j] == 0) || (exists|r_: int|
        0 <= r_ < ps.len() && lit_exp(lits_nat(lits), ps[r_] as nat) > usize::MAX)
}

/// When one side of fraction `i` fails to accumulate, the whole program is
/// not factorable.
proof fn lemma_not_factorable(
    fracs: Seq<Fract<Vec<usize>>>,
    i: int,
    ps: Seq<usize>,
    bound: nat,
    numer_side: bool,
)
    requires
        0 <= i < fracs.len(),
        sieve_valid(ps, bound),
        numer_side ==> side_fails(fracs[i].numer@, ps),
        !numer_side ==> side_fails(fracs[i].denom@, ps),
    ensures
        !factorable(fracs),
{
    let lits = if numer_side {
        fracs[i].numer@
    } else {
        fracs[i].denom@
    };
    assert(side_fails(lits, ps));
    if exists|j: int| 0 <= j < lits.len() && lits[j] == 0 {
        let j = choose|j: int| 0 <= j < lits.len() && lits[j] == 0;
        assert(!all_positive(lits));
        if numer_side {
            assert(!all_positive(fracs[i].numer@));
        } else {
            assert(!all_positive(fracs[i].denom@));
        }
        if all_lits_positive(fracs) {
            assert(all_positive(fracs[i].numer@));
            assert(all_positive(fracs[i].denom@));
            assert(false);
        }
        assert(!all_lits_positive(fracs));
    } else {
        let r_ = choose|r_: int|
            0 <= r_ < ps.len() && lit_exp(lits_nat(lits), ps[r_] as nat) > usize::MAX;
        let q = ps[r_] as nat;
        assert(is_prime(q));
        assert(lit_exp(lits_nat(lits), q) > usize::MAX);
        if numer_side {
            assert(lit_exp(lits_nat(fracs[i].numer@), q) > usize::MAX);
        } else {
            assert(lit_exp(lits_nat(fracs[i].denom@), q) > usize::MAX);
        }
        if exps_fit(fracs) {
            assert(0 <= i < fracs.len() && is_prime(q));
            assert(lit_exp(lits_nat(fracs[i].numer@), q) <= usize::MAX);
            assert(lit_exp(lits_nat(fracs[i].denom@), q) <= usize::MAX);
            assert(false);
        }
        assert(!exps_fit(fracs));
    }
    assert(!factorable(fracs));
}

} // verus!
