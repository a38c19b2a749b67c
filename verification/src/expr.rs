use vstd::prelude::*;

use crate::errors::FractranError;

verus! {

/// A fraction, generic over the representation of its two sides: lists of
/// unmultiplied literal factors during compilation, dense per-register
/// exponent vectors after factorisation, or a reduced scalar pair in
/// diagnostic output.
#[derive(Debug)]
pub struct Fract<T> {
    pub numer: T,
    pub denom: T,
}

/// One fraction of a FRACTRAN program, written as an arithmetic expression
/// over positive integer literals. `Unsupported` stands for any source node
/// outside this language (a float, a call, ...), so that rejecting it is
/// part of the compiler's contract.
pub enum Expr {
    Lit(usize),
    Add(Box<Expr>, Box<Expr>),
    Mul(Box<Expr>, Box<Expr>),
    Div(Box<Expr>, Box<Expr>),
    Pow(Box<Expr>, Box<Expr>),
    Unsupported,
}

/// The mathematical value of a raw fraction: the two sides as sequences of
/// unmultiplied factors, free of any machine width.
pub struct RawFrac {
    pub numer: Seq<nat>,
    pub denom: Seq<nat>,
}

/// A literal list, seen as a sequence of unbounded naturals.
pub open spec fn lits_nat(s: Seq<usize>) -> Seq<nat> {
    s.map(|_i: int, x: usize| x as nat)
}

/// What a compiled fraction holds, as mathematics.
pub open spec fn fract_raw(f: Fract<Vec<usize>>) -> RawFrac {
    RawFrac { numer: lits_nat(f.numer@), denom: lits_nat(f.denom@) }
}

/// Left-to-right product of `xs` starting from `acc`, refusing any
/// intermediate value past `usize::MAX` (the order matters when a zero
/// follows an overflowing prefix).
pub open spec fn checked_prod(acc: nat, xs: Seq<nat>) -> Option<nat>
    decreases xs.len(),
{
    if xs.len() == 0 {
        Some(acc)
    } else if acc * xs[0] > usize::MAX as nat {
        None
    } else {
        checked_prod(acc * xs[0], xs.drop_first())
    }
}

/// `s` repeated `k` times over.
pub open spec fn repeat_seq(s: Seq<nat>, k: nat) -> Seq<nat>
    decreases k,
{
    if k == 0 {
        Seq::empty()
    } else {
        s + repeat_seq(s, (k - 1) as nat)
    }
}

/// Every factor of an integer exponent's denominator must be 1.
pub open spec fn all_ones(s: Seq<nat>) -> bool {
    forall|i: int| 0 <= i < s.len() ==> s[i] == 1
}

/// What compiling one expression yields: a raw fraction built without ever
/// multiplying the factor lists through.
///
/// - A literal `n` is `n/1`.
/// - `Mul` concatenates the factor lists of both sides; `Div` concatenates
///   with the right side inverted.
/// - `Add` is the one place factors are multiplied out: the two cross
///   products are summed into a single synthesized literal over the
///   concatenated denominators.
/// - `Pow` repeats the base's factor lists, so an exponent like 100 never
///   materialises a huge product.
///
/// Operands are compiled right side first for `Add`, `Mul` and `Div`, and
/// left side first for `Pow`, so the first error in that order wins.
pub open spec fn compile_spec(e: Expr) -> Result<RawFrac, FractranError>
    decreases e,
{
    match e {
        Expr::Lit(n) => Ok(RawFrac { numer: seq![n as nat], denom: seq![1nat] }),
        Expr::Add(l, r) => match compile_spec(*r) {
            Err(er) => Err(er),
            Ok(rf) => match compile_spec(*l) {
                Err(el) => Err(el),
                Ok(lf) => match (
                    checked_prod(1, lf.numer + rf.denom),
                    checked_prod(1, rf.numer + lf.denom),
                ) {
                    (Some(cl), Some(cr)) => if cl + cr > usize::MAX as nat {
                        Err(FractranError::ArithmeticOverflow)
                    } else {
                        Ok(RawFrac { numer: seq![(cl + cr) as nat], denom: lf.denom + rf.denom })
                    },
                    _ => Err(FractranError::ArithmeticOverflow),
                },
            },
        },
        Expr::Mul(l, r) => match compile_spec(*r) {
            Err(er) => Err(er),
            Ok(rf) => match compile_spec(*l) {
                Err(el) => Err(el),
                Ok(lf) => Ok(RawFrac { numer: lf.numer + rf.numer, denom: lf.denom + rf.denom }),
            },
        },
        Expr::Div(l, r) => match compile_spec(*r) {
            Err(er) => Err(er),
            Ok(rf) => match compile_spec(*l) {
                Err(el) => Err(el),
                Ok(lf) => Ok(RawFrac { numer: lf.numer + rf.denom, denom: lf.denom + rf.numer }),
            },
        },
        Expr::Pow(b, x) => match compile_spec(*b) {
            Err(eb) => Err(eb),
            Ok(bf) => match compile_spec(*x) {
                Err(ex) => Err(ex),
                Ok(xf) => if !all_ones(xf.denom) {
                    Err(FractranError::NonIntegerExponent)
                } else {
                    match checked_prod(1, xf.numer) {
                        None => Err(FractranError::ArithmeticOverflow),
                        Some(k) => Ok(
                            RawFrac { numer: repeat_seq(bf.numer, k), denom: repeat_seq(bf.denom, k) },
                        ),
                    }
                },
            },
        },
        Expr::Unsupported => Err(FractranError::UnsupportedExpression),
    }
}

/// What compiling a whole program yields: one raw fraction per top-level
/// expression, in source order, the first error winning.
pub open spec fn compile_from(es: Seq<Expr>, i: int) -> Result<Seq<RawFrac>, FractranError>
    decreases es.len() - i,
{
    if i < 0 || i >= es.len() {
        Ok(Seq::empty())
    } else {
        match compile_spec(es[i]) {
            Err(e) => Err(e),
            Ok(f) => match compile_from(es, i + 1) {
                Err(e) => Err(e),
                Ok(rest) => Ok(seq![f] + rest),
            },
        }
    }
}

pub open spec fn compile_seq(es: Seq<Expr>) -> Result<Seq<RawFrac>, FractranError> {
    compile_from(es, 0)
}

proof fn lemma_lits_nat_concat(a: Seq<usize>, b: Seq<usize>)
    ensures
        lits_nat(a + b) == lits_nat(a) + lits_nat(b),
{
    assert(lits_nat(a + b) =~= lits_nat(a) + lits_nat(b));
}

/// Splitting a checked product at a concatenation boundary.
proof fn lemma_checked_prod_concat(acc: nat, a: Seq<nat>, b: Seq<nat>)
    ensures
        checked_prod(acc, a + b) == match checked_prod(acc, a) {
            Some(v) => checked_prod(v, b),
            None => None::<nat>,
        },
    decreases a.len(),
{
    if a.len() == 0 {
        assert(a + b =~= b);
    } else {
        assert((a + b)[0] == a[0]);
        if acc * a[0] <= usize::MAX as nat {
            assert((a + b).drop_first() =~= a.drop_first() + b);
            lemma_checked_prod_concat(acc * a[0], a.drop_first(), b);
        }
    }
}

/// Appending one more copy on the right of a repetition.
proof fn lemma_repeat_snoc(s: Seq<nat>, k: nat)
    ensures
        repeat_seq(s, k + 1) == repeat_seq(s, k) + s,
    decreases k,
{
    if k == 0 {
        assert(repeat_seq(s, 1) =~= repeat_seq(s, 0) + s);
    } else {
        lemma_repeat_snoc(s, (k - 1) as nat);
        assert(repeat_seq(s, k + 1) =~= repeat_seq(s, k) + s);
    }
}

/// Appends a copy of `src` to `dst`.
fn extend_vec(dst: &mut Vec<usize>, src: &Vec<usize>)
    ensures
        final(dst)@ == old(dst)@ + src@,
{
    let mut i: usize = 0;
    while i < src.len()
        invariant
            0 <= i <= src@.len(),
            dst@ == old(dst)@ + src@.take(i as int),
        decreases src@.len() - i,
    {
        dst.push(src[i]);
        assert(old(dst)@ + src@.take(i as int) + seq![src@[i as int]] =~= old(dst)@ + src@.take(
            i + 1,
        ));
        i = i + 1;
    }
    assert(src@.take(src@.len() as int) =~= src@);
}

/// Left-to-right checked product of `acc` and the factors of `xs`; `None`
/// as soon as an intermediate value leaves `usize`.
pub(crate) fn prod_from(acc: usize, xs: &Vec<usize>) -> (r: Option<usize>)
    ensures
        match r {
            Some(v) => checked_prod(acc as nat, lits_nat(xs@)) == Some(v as nat),
            None => checked_prod(acc as nat, lits_nat(xs@)) is None,
        },
{
    let mut p: usize = acc;
    let mut i: usize = 0;
    assert(lits_nat(xs@).skip(0) =~= lits_nat(xs@));
    while i < xs.len()
        invariant
            0 <= i <= xs@.len(),
            checked_prod(acc as nat, lits_nat(xs@)) == checked_prod(
                p as nat,
                lits_nat(xs@).skip(i as int),
            ),
        decreases xs@.len() - i,
    {
        let ghost pre = lits_nat(xs@).skip(i as int);
        assert(pre[0] == xs@[i as int] as nat);
        match p.checked_mul(xs[i]) {
            Some(q) => {
                assert(pre.drop_first() =~= lits_nat(xs@).skip(i as int + 1));
                p = q;
            },
            None => {
                assert(checked_prod(p as nat, pre) is None);
                return None;
            },
        }
        i = i + 1;
    }
    assert(lits_nat(xs@).skip(xs@.len() as int) =~= Seq::<nat>::empty());
    Some(p)
}

/// Checked product over the concatenation of two factor lists.
fn prod_two(a: &Vec<usize>, b: &Vec<usize>) -> (r: Option<usize>)
    ensures
        match r {
            Some(v) => checked_prod(1, lits_nat(a@) + lits_nat(b@)) == Some(v as nat),
            None => checked_prod(1, lits_nat(a@) + lits_nat(b@)) is None,
        },
{
    proof {
        lemma_checked_prod_concat(1, lits_nat(a@), lits_nat(b@));
    }
    match prod_from(1, a) {
        None => None,
        Some(v) => prod_from(v, b),
    }
}

/// Builds `base` repeated `k` times over.
fn repeat_vec(base: &Vec<usize>, k: usize) -> (r: Vec<usize>)
    ensures
        lits_nat(r@) == repeat_seq(lits_nat(base@), k as nat),
{
    let mut out: Vec<usize> = Vec::new();
    let mut j: usize = 0;
    assert(lits_nat(out@) =~= repeat_seq(lits_nat(base@), 0));
    while j < k
        invariant
            0 <= j <= k,
            lits_nat(out@) == repeat_seq(lits_nat(base@), j as nat),
        decreases k - j,
    {
        let ghost before = out@;
        extend_vec(&mut out, base);
        proof {
            lemma_repeat_snoc(lits_nat(base@), j as nat);
            lemma_lits_nat_concat(before, base@);
        }
        j = j + 1;
    }
    out
}

/// Do all factors of this list equal 1?
fn check_all_ones(s: &Vec<usize>) -> (r: bool)
    ensures
        r == all_ones(lits_nat(s@)),
{
    let mut i: usize = 0;
    while i < s.len()
        invariant
            0 <= i <= s@.len(),
            forall|j: int| 0 <= j < i ==> s@[j] == 1,
        decreases s@.len() - i,
    {
        if s[i] != 1 {
            assert(lits_nat(s@)[i as int] != 1);
            return false;
        }
        i = i + 1;
    }
    true
}

/// Compiles one fraction expression into a raw fraction: two lists of
/// unmultiplied literal factors. Returns exactly what [`compile_spec`]
/// describes, error for error.
pub fn extract_expr(e: &Expr) -> (r: Result<Fract<Vec<usize>>, FractranError>)
    ensures
        r is Ok <==> compile_spec(*e) is Ok,
        r matches Ok(f) ==> compile_spec(*e) matches Ok(m) && lits_nat(f.numer@) == m.numer
            && lits_nat(f.denom@) == m.denom,
        r matches Err(x) ==> compile_spec(*e) == Err::<RawFrac, FractranError>(x),
    decreases *e,
{
    match e {
        Expr::Lit(n) => {
            let f = Fract { numer: vec![*n], denom: vec![1usize] };
            assert(lits_nat(f.numer@) =~= seq![*n as nat]);
            assert(lits_nat(f.denom@) =~= seq![1nat]);
            Ok(f)
        },
        Expr::Add(l, r) => {
            let rf = match extract_expr(r) {
                Err(e) => { return Err(e); },
                Ok(v) => v,
            };
            let lf = match extract_expr(l) {
                Err(e) => { return Err(e); },
                Ok(v) => v,
            };
            let cl = prod_two(&lf.numer, &rf.denom);
            let cr = prod_two(&rf.numer, &lf.denom);
            match (cl, cr) {
                (Some(x), Some(y)) => match x.checked_add(y) {
                    Some(top) => {
                        let mut d = lf.denom;
                        proof {
                            lemma_lits_nat_concat(d@, rf.denom@);
                        }
                        extend_vec(&mut d, &rf.denom);
                        let out = Fract { numer: vec![top], denom: d };
                        assert(lits_nat(out.numer@) =~= seq![top as nat]);
                        Ok(out)
                    },
                    None => Err(FractranError::ArithmeticOverflow),
                },
                _ => Err(FractranError::ArithmeticOverflow),
            }
        },
        Expr::Mul(l, r) => {
            let rf = match extract_expr(r) {
                Err(e) => { return Err(e); },
                Ok(v) => v,
            };
            let lf = match extract_expr(l) {
                Err(e) => { return Err(e); },
                Ok(v) => v,
            };
            let mut n = lf.numer;
            let mut d = lf.denom;
            proof {
                lemma_lits_nat_concat(n@, rf.numer@);
                lemma_lits_nat_concat(d@, rf.denom@);
            }
            extend_vec(&mut n, &rf.numer);
            extend_vec(&mut d, &rf.denom);
            Ok(Fract { numer: n, denom: d })
        },
        Expr::Div(l, r) => {
            let rf = match extract_expr(r) {
                Err(e) => { return Err(e); },
                Ok(v) => v,
            };
            let lf = match extract_expr(l) {
                Err(e) => { return Err(e); },
                Ok(v) => v,
            };
            let mut n = lf.numer;
            let mut d = lf.denom;
            proof {
                lemma_lits_nat_concat(n@, rf.denom@);
                lemma_lits_nat_concat(d@, rf.numer@);
            }
            extend_vec(&mut n, &rf.denom);
            extend_vec(&mut d, &rf.numer);
            Ok(Fract { numer: n, denom: d })
        },
        Expr::Pow(b, x) => {
            let bf = match extract_expr(b) {
                Err(e) => { return Err(e); },
                Ok(v) => v,
            };
            let xf = match extract_expr(x) {
                Err(e) => { return Err(e); },
                Ok(v) => v,
            };
            if !check_all_ones(&xf.denom) {
                return Err(FractranError::NonIntegerExponent);
            }
            match prod_from(1, &xf.numer) {
                None => Err(FractranError::ArithmeticOverflow),
                Some(k) => {
                    let n = repeat_vec(&bf.numer, k);
                    let d = repeat_vec(&bf.denom, k);
                    Ok(Fract { numer: n, denom: d })
                },
            }
        },
        Expr::Unsupported => Err(FractranError::UnsupportedExpression),
    }
}

/// From an Ok-prefix of length `i`, compiling the whole sequence succeeds
/// exactly when compiling the rest does, and the results concatenate.
proof fn lemma_compile_from_prefix(es: Seq<Expr>, i: int)
    requires
        0 <= i <= es.len(),
        forall|j: int| 0 <= j < i ==> compile_spec(es[j]) is Ok,
    ensures
        compile_from(es, 0) is Ok <==> compile_from(es, i) is Ok,
        compile_from(es, 0) is Err ==> compile_from(es, 0) == compile_from(es, i),
        compile_from(es, 0) matches Ok(whole) ==> compile_from(es, i) matches Ok(rest)
            && whole.skip(i) == rest && whole.len() == es.len() && forall|j: int|
            0 <= j < es.len() ==> compile_spec(es[j]) == Ok::<RawFrac, FractranError>(whole[j]),
    decreases i,
{
    if i > 0 {
        lemma_compile_from_prefix(es, i - 1);
        match compile_from(es, i - 1) {
            Ok(rest1) => {
                if let Ok(f) = compile_spec(es[i - 1]) {
                    match compile_from(es, i) {
                        Ok(rest) => {
                            assert(rest1 == seq![f] + rest);
                            if let Ok(whole) = compile_from(es, 0) {
                                assert(whole.skip(i - 1) == rest1);
                                assert(rest1.skip(1) =~= rest);
                                assert(whole.skip(i) =~= whole.skip(i - 1).skip(1));
                                assert(whole[i - 1] == rest1[0]);
                            }
                        },
                        Err(_) => {},
                    }
                }
            },
            Err(_) => {},
        }
    } else {
        if let Ok(whole) = compile_from(es, 0) {
            assert(whole.skip(0) =~= whole);
            lemma_compile_from_all(es, 0);
        }
    }
}

/// Each Ok member of `compile_from(es, i)` is the compilation of its
/// expression.
proof fn lemma_compile_from_all(es: Seq<Expr>, i: int)
    requires
        0 <= i <= es.len(),
    ensures
        compile_from(es, i) matches Ok(rest) ==> rest.len() == es.len() - i && forall|j: int|
            i <= j < es.len() ==> compile_spec(es[j]) == Ok::<RawFrac, FractranError>(rest[j - i]),
    decreases es.len() - i,
{
    if i < es.len() {
        lemma_compile_from_all(es, i + 1);
        if let Ok(rest) = compile_from(es, i) {
            if let Ok(tail) = compile_from(es, i + 1) {
                assert(forall|j: int| i < j < es.len() ==> rest[#[trigger] (j - i)] == tail[j - i
                    - 1]);
            }
        }
    }
}

/// Compiles a whole program: one raw fraction per top-level expression, in
/// source order; the first failing expression's error is returned.
pub fn extract_exprs(es: &Vec<Expr>) -> (r: Result<Vec<Fract<Vec<usize>>>, FractranError>)
    ensures
        r is Ok <==> compile_seq(es@) is Ok,
        r matches Ok(v) ==> compile_seq(es@) matches Ok(m) && v@.len() == m.len() && forall|i: int|
            0 <= i < m.len() ==> lits_nat(v@[i].numer@) == m[i].numer && lits_nat(v@[i].denom@)
                == m[i].denom,
        r matches Err(x) ==> compile_seq(es@) == Err::<Seq<RawFrac>, FractranError>(x),
{
    let mut out: Vec<Fract<Vec<usize>>> = Vec::new();
    let mut i: usize = 0;
    while i < es.len()
        invariant
            0 <= i <= es@.len(),
            out@.len() == i,
            forall|j: int| 0 <= j < i ==> compile_spec(es@[j]) is Ok,
            forall|j: int| 0 <= j < i ==> ((#[trigger] compile_spec(es@[j])) matches Ok(m)
                && lits_nat(out@[j].numer@) == m.numer && lits_nat(out@[j].denom@) == m.denom),
        decreases es@.len() - i,
    {
        match extract_expr(&es[i]) {
            Err(e) => {
                proof {
                    lemma_compile_from_prefix(es@, i as int);
                }
                return Err(e);
            },
            Ok(f) => {
                out.push(f);
            },
        }
        i = i + 1;
    }
    proof {
        lemma_compile_from_prefix(es@, es@.len() as int);
    }
    Ok(out)
}

/// Exponentiation compiles by list replication: with an integral exponent
/// whose numerator factors multiply to `k`, the base's factor lists are
/// each repeated `k` times over — a power such as 2^100 becomes one
/// hundred factors of two, and the power itself is never multiplied out.
pub proof fn lemma_pow_replicates(b: Box<Expr>, x: Box<Expr>)
    requires
        compile_spec(*b) is Ok,
        compile_spec(*x) is Ok,
        all_ones(compile_spec(*x)->Ok_0.denom),
        checked_prod(1, compile_spec(*x)->Ok_0.numer) is Some,
    ensures
        compile_spec(Expr::Pow(b, x)) == Ok::<RawFrac, FractranError>(
            RawFrac {
                numer: repeat_seq(
                    compile_spec(*b)->Ok_0.numer,
                    checked_prod(1, compile_spec(*x)->Ok_0.numer)->Some_0,
                ),
                denom: repeat_seq(
                    compile_spec(*b)->Ok_0.denom,
                    checked_prod(1, compile_spec(*x)->Ok_0.numer)->Some_0,
                ),
            },
        ),
{
}

} // verus!
