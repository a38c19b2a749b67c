use vstd::prelude::*;

use crate::errors::FractranError;
use crate::expr::{compile_seq, extract_exprs, lits_nat, Expr, Fract, RawFrac};
use crate::fract::{
    all_at_most, cancelled, factorable, factorise, factored_wrt,
    fraction_factored, side_ok, support_disjoint,
};
use crate::primes::{is_prime, lemma_lit_exp_zero, lit_exp, pexp, sieve_valid};

verus! {

// ---------------------------------------------------------------------
// Rules, programs and their mathematical model
// ---------------------------------------------------------------------

/// One guarded transition of the register machine: a compiled fraction.
/// `guard[r]` is what register `r` must hold and pays when the rule fires
/// (the denominator exponents); `delta[r]` is what register `r` gains (the
/// numerator exponents). The two supports are disjoint by construction.
#[derive(Debug)]
pub struct Rule {
    pub guard: Vec<u32>,
    pub delta: Vec<u32>,
}

/// A compiled FRACTRAN program: how many registers exist, and the ordered
/// rule cascade. Registers beyond any rule's vectors are untouched.
#[derive(Debug)]
pub struct Program {
    pub register_count: usize,
    pub rules: Vec<Rule>,
}

/// A rule as mathematics: unbounded exponents.
pub struct RuleModel {
    pub guard: Seq<nat>,
    pub delta: Seq<nat>,
}

/// A counter vector, seen as unbounded naturals.
pub open spec fn exps_nat(s: Seq<u32>) -> Seq<nat> {
    s.map(|_i: int, x: u32| x as nat)
}

pub open spec fn rule_model(r: Rule) -> RuleModel {
    RuleModel { guard: exps_nat(r.guard@), delta: exps_nat(r.delta@) }
}

pub open spec fn rules_model(rs: Seq<Rule>) -> Seq<RuleModel> {
    rs.map(|_i: int, r: Rule| rule_model(r))
}

/// Every rule's vectors stay within the machine's registers.
pub open spec fn program_wf(p: Program) -> bool {
    forall|i: int|
        0 <= i < p.rules@.len() ==> (#[trigger] p.rules@[i]).guard@.len() <= p.register_count
            && p.rules@[i].delta@.len() <= p.register_count
}

// ---------------------------------------------------------------------
// Step semantics
// ---------------------------------------------------------------------

/// `s[j]`, reading past the end as zero.
pub open spec fn ent(s: Seq<nat>, j: int) -> nat {
    if 0 <= j < s.len() {
        s[j]
    } else {
        0
    }
}

/// A rule applies when the state can pay every guard entry.
pub open spec fn guard_ok(s: Seq<nat>, g: Seq<nat>) -> bool {
    g.len() <= s.len() && forall|r: int| 0 <= r < g.len() ==> s[r] >= #[trigger] g[r]
}

/// The index of the first applicable rule, in program order.
pub open spec fn first_rule(rules: Seq<RuleModel>, s: Seq<nat>) -> Option<int>
    decreases rules.len(),
{
    if rules.len() == 0 {
        None
    } else if guard_ok(s, rules[0].guard) {
        Some(0int)
    } else {
        match first_rule(rules.drop_first(), s) {
            Some(i) => Some(i + 1),
            None => None,
        }
    }
}

/// Firing a rule: pay the guard, collect the delta, register by register.
pub open spec fn apply_rule(s: Seq<nat>, rl: RuleModel) -> Seq<nat> {
    Seq::new(s.len(), |r: int| (s[r] + ent(rl.delta, r) - ent(rl.guard, r)) as nat)
}

/// No rule applies: the machine's terminal configuration.
pub open spec fn halted(rules: Seq<RuleModel>, s: Seq<nat>) -> bool {
    first_rule(rules, s) is None
}

/// One step: fire the first applicable rule, or stay put when halted.
pub open spec fn step1(rules: Seq<RuleModel>, s: Seq<nat>) -> Seq<nat> {
    match first_rule(rules, s) {
        None => s,
        Some(k) => apply_rule(s, rules[k]),
    }
}

/// `n` steps from `s`.
pub open spec fn run_n(rules: Seq<RuleModel>, s: Seq<nat>, n: nat) -> Seq<nat>
    decreases n,
{
    if n == 0 {
        s
    } else {
        run_n(rules, step1(rules, s), (n - 1) as nat)
    }
}

/// What `first_rule` returns is the earliest applicable rule.
pub proof fn lemma_first_rule(rules: Seq<RuleModel>, s: Seq<nat>)
    ensures
        first_rule(rules, s) matches Some(k) ==> 0 <= k < rules.len() && guard_ok(s, rules[k].guard)
            && forall|m: int| 0 <= m < k ==> !guard_ok(s, (#[trigger] rules[m]).guard),
        first_rule(rules, s) is None ==> forall|m: int|
            0 <= m < rules.len() ==> !guard_ok(s, (#[trigger] rules[m]).guard),
    decreases rules.len(),
{
    if rules.len() > 0 && !guard_ok(s, rules[0].guard) {
        lemma_first_rule(rules.drop_first(), s);
        match first_rule(rules.drop_first(), s) {
            Some(i) => {
                assert(first_rule(rules, s) == Some(i + 1));
                assert(rules.drop_first()[i] == rules[i + 1]);
                assert(guard_ok(s, rules[i + 1].guard));
                assert forall|m: int| 0 <= m < i + 1 implies !guard_ok(
                    s,
                    (#[trigger] rules[m]).guard,
                ) by {
                    if m > 0 {
                        assert(rules.drop_first()[m - 1] == rules[m]);
                    }
                }
            },
            None => {
                assert(first_rule(rules, s) is None);
                assert forall|m: int| 0 <= m < rules.len() implies !guard_ok(
                    s,
                    (#[trigger] rules[m]).guard,
                ) by {
                    if m > 0 {
                        assert(rules.drop_first()[m - 1] == rules[m]);
                    }
                }
            },
        }
    }
}

/// The converse: a scan that finds `k` applicable and everything before it
/// inapplicable has found the first rule.
pub proof fn lemma_first_rule_is(rules: Seq<RuleModel>, s: Seq<nat>, k: int)
    requires
        0 <= k < rules.len(),
        guard_ok(s, rules[k].guard),
        forall|m: int| 0 <= m < k ==> !guard_ok(s, (#[trigger] rules[m]).guard),
    ensures
        first_rule(rules, s) == Some(k),
    decreases k,
{
    if k > 0 {
        assert forall|m: int| 0 <= m < k - 1 implies !guard_ok(
            s,
            (#[trigger] rules.drop_first()[m]).guard,
        ) by {
            assert(rules.drop_first()[m] == rules[m + 1]);
        }
        assert(rules.drop_first()[k - 1] == rules[k]);
        lemma_first_rule_is(rules.drop_first(), s, k - 1);
    }
}

/// A scan that found no applicable rule has found a halted state.
pub proof fn lemma_first_rule_none(rules: Seq<RuleModel>, s: Seq<nat>)
    requires
        forall|m: int| 0 <= m < rules.len() ==> !guard_ok(s, (#[trigger] rules[m]).guard),
    ensures
        first_rule(rules, s) is None,
    decreases rules.len(),
{
    if rules.len() > 0 {
        assert forall|m: int| 0 <= m < rules.drop_first().len() implies !guard_ok(
            s,
            (#[trigger] rules.drop_first()[m]).guard,
        ) by {
            assert(rules.drop_first()[m] == rules[m + 1]);
        }
        lemma_first_rule_none(rules.drop_first(), s);
    }
}

/// First-match semantics: whenever some rule applies, the rule selected is
/// no later than it, applies, and nothing before the selected rule does.
pub proof fn lemma_first_match(rules: Seq<RuleModel>, s: Seq<nat>, i: int)
    requires
        0 <= i < rules.len(),
        guard_ok(s, rules[i].guard),
    ensures
        first_rule(rules, s) matches Some(k) && k <= i && guard_ok(s, rules[k].guard) && forall|
            m: int,
        |
            0 <= m < k ==> !guard_ok(s, (#[trigger] rules[m]).guard),
{
    lemma_first_rule(rules, s);
    if first_rule(rules, s) is None {
        assert(!guard_ok(s, rules[i].guard));
    }
    let k = first_rule(rules, s)->Some_0;
    if k > i {
        assert(!guard_ok(s, rules[i].guard));
    }
}

/// Unrolling a run from the far end.
pub proof fn lemma_run_n_snoc(rules: Seq<RuleModel>, s: Seq<nat>, n: nat)
    ensures
        run_n(rules, s, n + 1) == step1(rules, run_n(rules, s, n)),
    decreases n,
{
    if n == 0 {
        assert(run_n(rules, s, 1) == run_n(rules, step1(rules, s), 0));
    } else {
        lemma_run_n_snoc(rules, step1(rules, s), (n - 1) as nat);
        assert(run_n(rules, s, n + 1) == run_n(rules, step1(rules, s), n));
        assert(run_n(rules, s, n) == run_n(rules, step1(rules, s), (n - 1) as nat));
    }
}

/// A halted state stays put however long the machine runs on.
pub proof fn lemma_halted_fixed(rules: Seq<RuleModel>, s: Seq<nat>, n: nat)
    requires
        halted(rules, s),
    ensures
        run_n(rules, s, n) == s,
    decreases n,
{
    if n > 0 {
        lemma_halted_fixed(rules, s, (n - 1) as nat);
    }
}

/// Runs compose.
pub proof fn lemma_run_n_add(rules: Seq<RuleModel>, s: Seq<nat>, a: nat, b: nat)
    ensures
        run_n(rules, s, a + b) == run_n(rules, run_n(rules, s, a), b),
    decreases a,
{
    if a > 0 {
        lemma_run_n_add(rules, step1(rules, s), (a - 1) as nat, b);
    }
}

/// Halting determinism: the machine is a function of its start state, so
/// any two halted configurations reached from the same state coincide —
/// rerunning from an identical initial state ends identically.
pub proof fn lemma_halting_deterministic(rules: Seq<RuleModel>, s: Seq<nat>, n: nat, m: nat)
    requires
        halted(rules, run_n(rules, s, n)),
        halted(rules, run_n(rules, s, m)),
    ensures
        run_n(rules, s, n) == run_n(rules, s, m),
{
    if n <= m {
        lemma_run_n_add(rules, s, n, (m - n) as nat);
        lemma_halted_fixed(rules, run_n(rules, s, n), (m - n) as nat);
    } else {
        lemma_run_n_add(rules, s, m, (n - m) as nat);
        lemma_halted_fixed(rules, run_n(rules, s, m), (n - m) as nat);
    }
}

/// A one-rule machine that pays one token from register 0 and credits one
/// to register 1 — the compiled form of the single fraction `3/2` — halts
/// from `[a, b]` exactly at `[0, a + b]`, for all naturals `a`, `b`.
pub proof fn lemma_addition_machine(rules: Seq<RuleModel>, a: nat, b: nat)
    requires
        rules.len() == 1,
        rules[0].guard == seq![1nat],
        rules[0].delta == seq![0nat, 1nat],
    ensures
        run_n(rules, seq![a, b], a) == seq![0nat, a + b],
        halted(rules, seq![0nat, a + b]),
    decreases a,
{
    assert(rules.drop_first().len() == 0);
    let s_h = seq![0nat, a + b];
    assert(rules[0].guard[0] == 1 && rules[0].guard.len() == 1);
    assert(s_h[0] == 0);
    assert(!guard_ok(s_h, rules[0].guard)) by {
        if guard_ok(s_h, rules[0].guard) {
            assert(s_h[0] >= rules[0].guard[0]);
        }
    }
    assert(first_rule(rules.drop_first(), s_h) is None);
    assert(first_rule(rules, s_h) is None);
    if a == 0 {
        assert(run_n(rules, seq![a, b], 0) == seq![a, b]);
        assert(seq![a, b] =~= seq![0nat, a + b]);
    } else {
        assert(guard_ok(seq![a, b], rules[0].guard));
        assert(first_rule(rules, seq![a, b]) == Some(0int));
        assert(apply_rule(seq![a, b], rules[0]) =~= seq![(a - 1) as nat, (b + 1) as nat]);
        assert(step1(rules, seq![a, b]) == seq![(a - 1) as nat, (b + 1) as nat]);
        lemma_addition_machine(rules, (a - 1) as nat, (b + 1) as nat);
        assert(seq![0nat, (a - 1) as nat + (b + 1) as nat] =~= seq![0nat, a + b]);
        assert(run_n(rules, seq![a, b], a) == run_n(
            rules,
            seq![(a - 1) as nat, (b + 1) as nat],
            (a - 1) as nat,
        ));
    }
}

// ---------------------------------------------------------------------
// Synthesis: factored fractions to a rule cascade
// ---------------------------------------------------------------------

/// The factored form of one fraction: the reduced diagnostic pair beside
/// the dense exponent vectors, as `factorise` hands them out.
pub type Factored = (Option<Fract<usize>>, Fract<Vec<usize>>);

/// The register count a fraction list demands: one past the highest
/// register any exponent vector reaches — since the vectors are trimmed
/// to their nonzero support after cancellation, this is one plus the
/// highest register any rule references.
pub open spec fn register_count_spec(fracts: Seq<Factored>) -> nat
    decreases fracts.len(),
{
    if fracts.len() == 0 {
        0
    } else {
        let rest = register_count_spec(fracts.drop_last());
        let mine = if fracts.last().1.numer@.len() >= fracts.last().1.denom@.len() {
            fracts.last().1.numer@.len()
        } else {
            fracts.last().1.denom@.len()
        };
        if mine >= rest {
            mine
        } else {
            rest
        }
    }
}

/// Every exponent of every vector fits a 32-bit register counter.
pub open spec fn counters_fit(fracts: Seq<Factored>) -> bool {
    forall|i: int|
        0 <= i < fracts.len() ==> #[trigger] all_at_most(fracts[i].1.numer@, u32::MAX as nat)
            && all_at_most(fracts[i].1.denom@, u32::MAX as nat)
}

/// Narrows one exponent vector to 32-bit counters.
fn to_u32_vec(s: &Vec<usize>) -> (r: Result<Vec<u32>, FractranError>)
    ensures
        r is Ok <==> all_at_most(s@, u32::MAX as nat),
        r matches Ok(v) ==> exps_nat(v@) == lits_nat(s@),
        r matches Err(e) ==> e == FractranError::CounterOverflow,
{
    let mut out: Vec<u32> = Vec::new();
    let mut i: usize = 0;
    while i < s.len()
        invariant
            0 <= i <= s@.len(),
            out@.len() == i,
            forall|j: int| 0 <= j < i ==> #[trigger] s@[j] as nat <= u32::MAX as nat,
            forall|j: int| 0 <= j < i ==> #[trigger] out@[j] as nat == s@[j] as nat,
        decreases s@.len() - i,
    {
        let x = s[i];
        if x > u32::MAX as usize {
            assert(!all_at_most(s@, u32::MAX as nat));
            return Err(FractranError::CounterOverflow);
        }
        out.push(x as u32);
        i = i + 1;
    }
    assert(exps_nat(out@) =~= lits_nat(s@));
    Ok(out)
}

/// Builds one `Rule` per factored fraction, in source order, with the
/// denominator exponents as guard and the numerator exponents as delta —
/// no reordering, deduplication or optimisation: program order carries
/// FRACTRAN's first-match semantics. The register count is one past the
/// highest register any rule references (the factored vectors end at
/// their last nonzero entry). Fails with `CounterOverflow` exactly when
/// some exponent does not fit a 32-bit counter.
pub fn synthesize(fracts: &Vec<Factored>) -> (r: Result<Program, FractranError>)
    ensures
        r is Ok <==> counters_fit(fracts@),
        r matches Err(e) ==> e == FractranError::CounterOverflow,
        r matches Ok(p) ==> {
            &&& p.rules@.len() == fracts@.len()
            &&& p.register_count as nat == register_count_spec(fracts@)
            &&& program_wf(p)
            &&& forall|i: int|
                0 <= i < fracts@.len() ==> rule_model(#[trigger] p.rules@[i]).guard == lits_nat(
                    fracts@[i].1.denom@,
                ) && rule_model(p.rules@[i]).delta == lits_nat(fracts@[i].1.numer@)
        },
{
    let mut rc: usize = 0;
    let mut rules: Vec<Rule> = Vec::new();
    let mut i: usize = 0;
    assert(fracts@.take(0) =~= Seq::<Factored>::empty());
    while i < fracts.len()
        invariant
            0 <= i <= fracts@.len(),
            rules@.len() == i,
            rc as nat == register_count_spec(fracts@.take(i as int)),
            forall|k: int|
                0 <= k < i ==> (#[trigger] rules@[k]).guard@.len() <= rc && rules@[k].delta@.len()
                    <= rc,
            forall|k: int|
                0 <= k < i ==> rule_model(#[trigger] rules@[k]).guard == lits_nat(
                    fracts@[k].1.denom@,
                ) && rule_model(rules@[k]).delta == lits_nat(fracts@[k].1.numer@),
            forall|k: int|
                0 <= k < i ==> #[trigger] all_at_most(fracts@[k].1.numer@, u32::MAX as nat)
                    && all_at_most(fracts@[k].1.denom@, u32::MAX as nat),
        decreases fracts@.len() - i,
    {
        let delta = match to_u32_vec(&fracts[i].1.numer) {
            Err(e) => {
                assert(!counters_fit(fracts@)) by {
                    if counters_fit(fracts@) {
                        assert(all_at_most(fracts@[i as int].1.numer@, u32::MAX as nat));
                    }
                }
                return Err(e);
            },
            Ok(v) => v,
        };
        let guard = match to_u32_vec(&fracts[i].1.denom) {
            Err(e) => {
                assert(!counters_fit(fracts@)) by {
                    if counters_fit(fracts@) {
                        assert(all_at_most(fracts@[i as int].1.denom@, u32::MAX as nat));
                    }
                }
                return Err(e);
            },
            Ok(v) => v,
        };
        let dl = delta.len();
        let gl = guard.len();
        let mine = if dl >= gl {
            dl
        } else {
            gl
        };
        if mine > rc {
            rc = mine;
        }
        rules.push(Rule { guard, delta });
        proof {
            assert(fracts@.take(i + 1).drop_last() =~= fracts@.take(i as int));
            assert(fracts@.take(i + 1).last() == fracts@[i as int]);
            assert(lits_nat(fracts@[i as int].1.numer@).len() == fracts@[i as int].1.numer@.len());
            assert(lits_nat(fracts@[i as int].1.denom@).len() == fracts@[i as int].1.denom@.len());
        }
        i = i + 1;
    }
    proof {
        assert(fracts@.take(fracts@.len() as int) =~= fracts@);
    }
    Ok(Program { register_count: rc, rules })
}

// ---------------------------------------------------------------------
// The interpreter
// ---------------------------------------------------------------------

/// What one call of `step` reported.
#[derive(Clone, Copy, Debug, PartialEq, Eq, Structural)]
pub enum Step {
    /// A rule fired and the state moved.
    Stepped,
    /// No rule's guard was satisfied; the state is terminal and unchanged.
    Halted,
}

/// A running FRACTRAN machine: an owned register vector driven by an
/// owned, immutable rule cascade.
pub struct Machine {
    rules: Vec<Rule>,
    regs: Vec<u32>,
}

/// The interface of a compiled FRACTRAN program: step it, read its
/// registers, drive it to completion (which may never come — FRACTRAN
/// programs may run forever by design; callers needing bounded execution
/// impose their own step limit).
pub trait Fractran: Sized {
    /// The rule cascade, as mathematics.
    spec fn rules_view(&self) -> Seq<RuleModel>;

    /// The register vector, as unbounded naturals.
    spec fn regs_view(&self) -> Seq<nat>;

    /// The machine's internal consistency.
    spec fn wf(&self) -> bool;

    /// One step: fire the first applicable rule, or report `Halted` and
    /// leave the state alone. Fails with `StepOverflow`, state unchanged,
    /// exactly when the fired rule would push a counter past `u32::MAX`.
    fn step(&mut self) -> (r: Result<Step, FractranError>)
        requires
            old(self).wf(),
        ensures
            final(self).wf(),
            final(self).rules_view() == old(self).rules_view(),
            match r {
                Ok(Step::Halted) => halted(old(self).rules_view(), old(self).regs_view())
                    && final(self).regs_view() == old(self).regs_view(),
                Ok(Step::Stepped) => !halted(old(self).rules_view(), old(self).regs_view())
                    && final(self).regs_view() == step1(
                    old(self).rules_view(),
                    old(self).regs_view(),
                ),
                Err(e) => e == FractranError::StepOverflow && !halted(
                    old(self).rules_view(),
                    old(self).regs_view(),
                ) && final(self).regs_view() == old(self).regs_view() && exists|j: int|
                    0 <= j < step1(old(self).rules_view(), old(self).regs_view()).len()
                        && step1(old(self).rules_view(), old(self).regs_view())[j] > u32::MAX as nat,
            },
    ;

    /// A read-only view of the current register vector, valid between
    /// steps.
    fn state(&self) -> (r: &[u32])
        ensures
            exps_nat(r@) == self.regs_view(),
    ;

    /// Steps until no rule applies or the budget runs out: a FRACTRAN
    /// program may run forever by design, so the caller says how many
    /// steps it is willing to spend. `Ok(Halted)` is the terminal state —
    /// the unique halted configuration reachable from the start;
    /// `Ok(Stepped)` means the budget was spent with the machine still
    /// running, the state being exactly `max_steps` steps from the start;
    /// `StepOverflow` leaves the state just before the failing step.
    fn run(&mut self, max_steps: u64) -> (r: Result<Step, FractranError>)
        requires
            old(self).wf(),
        ensures
            final(self).wf(),
            final(self).rules_view() == old(self).rules_view(),
            match r {
                Ok(Step::Halted) => halted(final(self).rules_view(), final(self).regs_view())
                    && exists|n: nat|
                    n <= max_steps && final(self).regs_view() == #[trigger] run_n(
                        old(self).rules_view(),
                        old(self).regs_view(),
                        n,
                    ),
                Ok(Step::Stepped) => !halted(final(self).rules_view(), final(self).regs_view())
                    && final(self).regs_view() == run_n(
                    old(self).rules_view(),
                    old(self).regs_view(),
                    max_steps as nat,
                ),
                Err(e) => e == FractranError::StepOverflow && !halted(
                    final(self).rules_view(),
                    final(self).regs_view(),
                ) && (exists|n: nat|
                    n < max_steps && final(self).regs_view() == #[trigger] run_n(
                        old(self).rules_view(),
                        old(self).regs_view(),
                        n,
                    )) && exists|j: int|
                    0 <= j < step1(final(self).rules_view(), final(self).regs_view()).len()
                        && step1(final(self).rules_view(), final(self).regs_view())[j] > u32::MAX
                        as nat,
            },
    ;
}

impl Machine {
    /// Builds a machine from a compiled program and an initial register
    /// vector, which fills the low registers; the rest start at zero.
    /// Fails with `InitialStateTooLong` exactly when more initial values
    /// are supplied than the program has registers.
    pub fn construct(program: Program, initial: &Vec<u32>) -> (r: Result<Machine, FractranError>)
        requires
            program_wf(program),
        ensures
            r is Ok <==> initial@.len() <= program.register_count,
            r matches Err(e) ==> e == FractranError::InitialStateTooLong,
            r matches Ok(m) ==> {
                &&& m.wf()
                &&& m.rules_view() == rules_model(program.rules@)
                &&& m.regs_view().len() == program.register_count
                &&& forall|j: int|
                    0 <= j < initial@.len() ==> m.regs_view()[j] == #[trigger] initial@[j] as nat
                &&& forall|j: int|
                    initial@.len() <= j < program.register_count ==> m.regs_view()[j] == 0
            },
    {
        if initial.len() > program.register_count {
            return Err(FractranError::InitialStateTooLong);
        }
        let mut regs: Vec<u32> = Vec::new();
        let mut j: usize = 0;
        while j < initial.len()
            invariant
                0 <= j <= initial@.len(),
                regs@.len() == j,
                forall|k: int| 0 <= k < j ==> regs@[k] == initial@[k],
            decreases initial@.len() - j,
        {
            regs.push(initial[j]);
            j = j + 1;
        }
        while regs.len() < program.register_count
            invariant
                initial@.len() <= regs@.len() <= program.register_count,
                forall|k: int| 0 <= k < initial@.len() ==> regs@[k] == initial@[k],
                forall|k: int| initial@.len() <= k < regs@.len() ==> regs@[k] == 0,
            decreases program.register_count - regs@.len(),
        {
            regs.push(0);
        }
        let m = Machine { rules: program.rules, regs };
        proof {
            assert(forall|i: int|
                0 <= i < m.rules@.len() ==> rules_model(m.rules@)[i] == rule_model(
                    #[trigger] m.rules@[i],
                ));
        }
        Ok(m)
    }
}

/// The index of the first rule whose guard `regs` can pay, if any.
fn scan_first(rules: &Vec<Rule>, regs: &Vec<u32>) -> (r: Option<usize>)
    ensures
        match r {
            Some(k) => first_rule(rules_model(rules@), exps_nat(regs@)) == Some(k as int),
            None => first_rule(rules_model(rules@), exps_nat(regs@)) is None,
        },
{
    let n = rules.len();
    let mut i: usize = 0;
    while i < n
        invariant
            n == rules@.len(),
            0 <= i <= n,
            forall|m: int|
                0 <= m < i ==> !guard_ok(exps_nat(regs@), (#[trigger] rules_model(rules@)[m]).guard),
        decreases n - i,
    {
        proof {
            assert(rules_model(rules@)[i as int] == rule_model(rules@[i as int]));
        }
        if check_guard(regs, &rules[i].guard) {
            proof {
                lemma_first_rule_is(rules_model(rules@), exps_nat(regs@), i as int);
            }
            return Some(i);
        }
        i = i + 1;
    }
    proof {
        lemma_first_rule_none(rules_model(rules@), exps_nat(regs@));
    }
    None
}

/// `regs` can pay `guard`, entry by entry.
fn check_guard(regs: &Vec<u32>, guard: &Vec<u32>) -> (r: bool)
    ensures
        r == guard_ok(exps_nat(regs@), exps_nat(guard@)),
{
    if guard.len() > regs.len() {
        return false;
    }
    let mut r_: usize = 0;
    while r_ < guard.len()
        invariant
            guard@.len() <= regs@.len(),
            0 <= r_ <= guard@.len(),
            forall|k: int| 0 <= k < r_ ==> exps_nat(regs@)[k] >= #[trigger] exps_nat(guard@)[k],
        decreases guard@.len() - r_,
    {
        if regs[r_] < guard[r_] {
            assert(exps_nat(regs@)[r_ as int] < exps_nat(guard@)[r_ as int]);
            return false;
        }
        r_ = r_ + 1;
    }
    true
}

/// The fired rule's result, or `None` when some register would leave
/// `u32`.
fn apply_to(regs: &Vec<u32>, rule: &Rule) -> (r: Option<Vec<u32>>)
    requires
        guard_ok(exps_nat(regs@), exps_nat(rule.guard@)),
    ensures
        r matches Some(v) ==> exps_nat(v@) == apply_rule(exps_nat(regs@), rule_model(*rule)),
        r is None ==> exists|j: int|
            0 <= j < apply_rule(exps_nat(regs@), rule_model(*rule)).len() && apply_rule(
                exps_nat(regs@),
                rule_model(*rule),
            )[j] > u32::MAX as nat,
{
    let ghost target = apply_rule(exps_nat(regs@), rule_model(*rule));
    let mut out: Vec<u32> = Vec::new();
    let mut r_: usize = 0;
    while r_ < regs.len()
        invariant
            guard_ok(exps_nat(regs@), exps_nat(rule.guard@)),
            target == apply_rule(exps_nat(regs@), rule_model(*rule)),
            0 <= r_ <= regs@.len(),
            target.len() == regs@.len(),
            out@.len() == r_,
            forall|k: int| 0 <= k < r_ ==> #[trigger] out@[k] as nat == target[k],
        decreases regs@.len() - r_,
    {
        let g: u32 = if r_ < rule.guard.len() {
            rule.guard[r_]
        } else {
            0
        };
        let d: u32 = if r_ < rule.delta.len() {
            rule.delta[r_]
        } else {
            0
        };
        assert(g as nat == ent(exps_nat(rule.guard@), r_ as int));
        assert(d as nat == ent(exps_nat(rule.delta@), r_ as int));
        assert(regs@[r_ as int] as nat >= g as nat);
        let v: u64 = regs[r_] as u64 - g as u64 + d as u64;
        assert(v as nat == target[r_ as int]);
        if v > u32::MAX as u64 {
            return None;
        }
        out.push(v as u32);
        r_ = r_ + 1;
    }
    assert(exps_nat(out@) =~= target);
    Some(out)
}

impl Fractran for Machine {
    closed spec fn rules_view(&self) -> Seq<RuleModel> {
        rules_model(self.rules@)
    }

    closed spec fn regs_view(&self) -> Seq<nat> {
        exps_nat(self.regs@)
    }

    closed spec fn wf(&self) -> bool {
        forall|i: int|
            0 <= i < self.rules@.len() ==> (#[trigger] self.rules@[i]).guard@.len()
                <= self.regs@.len() && self.rules@[i].delta@.len() <= self.regs@.len()
    }

    fn step(&mut self) -> (r: Result<Step, FractranError>) {
        let ghost rm = self.rules_view();
        let ghost s0 = self.regs_view();
        match scan_first(&self.rules, &self.regs) {
            None => {
                proof {
                    assert(halted(rm, s0));
                }
                Ok(Step::Halted)
            },
            Some(k) => {
                proof {
                    assert(first_rule(rm, s0) == Some(k as int));
                    lemma_first_rule(rm, s0);
                    assert(rm[k as int] == rule_model(self.rules@[k as int]));
                    assert(guard_ok(exps_nat(self.regs@), exps_nat(self.rules@[k as int].guard@)));
                }
                match apply_to(&self.regs, &self.rules[k]) {
                    Some(v) => {
                        proof {
                            assert(exps_nat(v@) == apply_rule(s0, rm[k as int]));
                            assert(exps_nat(v@) == step1(rm, s0));
                            assert(exps_nat(v@).len() == v@.len());
                            assert(v@.len() == self.regs@.len());
                        }
                        self.regs = v;
                        proof {
                            assert(self.rules_view() == rm);
                            assert(self.regs_view() == step1(rm, s0));
                            assert(self.wf());
                        }
                        Ok(Step::Stepped)
                    },
                    None => {
                        proof {
                            assert(step1(rm, s0) == apply_rule(s0, rm[k as int]));
                        }
                        Err(FractranError::StepOverflow)
                    },
                }
            },
        }
    }

    fn state(&self) -> (r: &[u32]) {
        self.regs.as_slice()
    }

    fn run(&mut self, max_steps: u64) -> (r: Result<Step, FractranError>) {
        let ghost rm = old(self).rules_view();
        let ghost s0 = old(self).regs_view();
        let mut i: u64 = 0;
        while i < max_steps
            invariant
                rm == old(self).rules_view(),
                s0 == old(self).regs_view(),
                self.wf(),
                self.rules_view() == rm,
                0 <= i <= max_steps,
                self.regs_view() == run_n(rm, s0, i as nat),
            decreases max_steps - i,
        {
            match self.step() {
                Ok(Step::Stepped) => {
                    proof {
                        lemma_run_n_snoc(rm, s0, i as nat);
                    }
                },
                Ok(Step::Halted) => {
                    proof {
                        assert(self.regs_view() == run_n(rm, s0, i as nat));
                        assert(halted(self.rules_view(), self.regs_view()));
                    }
                    return Ok(Step::Halted);
                },
                Err(e) => {
                    proof {
                        assert(self.regs_view() == run_n(rm, s0, i as nat));
                        assert(i < max_steps);
                    }
                    return Err(e);
                },
            }
            i = i + 1;
        }
        match scan_first(&self.rules, &self.regs) {
            None => {
                proof {
                    assert(self.regs_view() == run_n(rm, s0, max_steps as nat));
                    assert(halted(self.rules_view(), self.regs_view()));
                }
                Ok(Step::Halted)
            },
            Some(_) => {
                proof {
                    assert(first_rule(self.rules_view(), self.regs_view()) is Some);
                    assert(!halted(self.rules_view(), self.regs_view()));
                }
                Ok(Step::Stepped)
            },
        }
    }
}

// ---------------------------------------------------------------------
// The whole pipeline
// ---------------------------------------------------------------------

/// Usable literals: positive, and leaving room for the sieve bound.
pub open spec fn raw_lits_ok(s: Seq<nat>) -> bool {
    forall|j: int| 0 <= j < s.len() ==> 1 <= #[trigger] s[j] <= (usize::MAX - 2) as nat
}

/// Every literal at most `b`.
pub open spec fn raw_below(s: Seq<nat>, b: nat) -> bool {
    forall|j: int| 0 <= j < s.len() ==> #[trigger] s[j] <= b
}

/// Factorisation succeeds on these raw fractions: usable literals, and
/// per-prime exponent sums that fit `usize`.
pub open spec fn raw_factorable(raws: Seq<RawFrac>) -> bool {
    &&& forall|i: int|
        0 <= i < raws.len() ==> #[trigger] raw_lits_ok(raws[i].numer) && raw_lits_ok(raws[i].denom)
    &&& forall|i: int, q: nat|
        0 <= i < raws.len() && is_prime(q) ==> #[trigger] lit_exp(raws[i].numer, q) <= usize::MAX
            && lit_exp(raws[i].denom, q) <= usize::MAX
}

/// Every cancelled exponent fits a 32-bit register counter.
pub open spec fn raw_counters_fit(raws: Seq<RawFrac>) -> bool {
    forall|i: int, q: nat|
        0 <= i < raws.len() && is_prime(q) ==> #[trigger] cancelled(
            lit_exp(raws[i].numer, q),
            lit_exp(raws[i].denom, q),
        ) <= u32::MAX && cancelled(lit_exp(raws[i].denom, q), lit_exp(raws[i].numer, q))
            <= u32::MAX
}

/// A rule-side exponent vector against raw literal lists: the cancelled
/// multiplicity of each registry prime, reaching exactly up to the last
/// register whose cancelled exponent is nonzero.
pub open spec fn exp_vector_ok(
    mine: Seq<nat>,
    my_lits: Seq<nat>,
    other_lits: Seq<nat>,
    ps: Seq<usize>,
) -> bool {
    &&& mine.len() <= ps.len()
    &&& forall|r: int|
        0 <= r < mine.len() ==> mine[r] == cancelled(
            lit_exp(my_lits, #[trigger] ps[r] as nat),
            lit_exp(other_lits, ps[r] as nat),
        )
    &&& forall|r: int|
        mine.len() <= r < ps.len() ==> cancelled(
            lit_exp(my_lits, #[trigger] ps[r] as nat),
            lit_exp(other_lits, ps[r] as nat),
        ) == 0
    &&& (mine.len() == 0 || cancelled(
        lit_exp(my_lits, ps[mine.len() - 1] as nat),
        lit_exp(other_lits, ps[mine.len() - 1] as nat),
    ) >= 1)
}

/// One rule against its raw fraction: delta from the numerator, guard
/// from the denominator, shared factors cancelled.
pub open spec fn rule_matches(raw: RawFrac, rl: RuleModel, ps: Seq<usize>) -> bool {
    &&& exp_vector_ok(rl.delta, raw.numer, raw.denom, ps)
    &&& exp_vector_ok(rl.guard, raw.denom, raw.numer, ps)
}

/// Guard and delta never touch the same register.
pub open spec fn rule_disjoint(rl: RuleModel) -> bool {
    forall|r: int|
        0 <= r < rl.guard.len() && 0 <= r < rl.delta.len() ==> !(#[trigger] rl.guard[r] >= 1
            && #[trigger] rl.delta[r] >= 1)
}

/// The compiled program against its raw fractions, rule by rule and in
/// source order, over one registry covering every literal.
pub open spec fn program_wrt(raws: Seq<RawFrac>, p: Program, ps: Seq<usize>, bound: nat) -> bool {
    &&& p.rules@.len() == raws.len()
    &&& forall|i: int|
        0 <= i < raws.len() ==> #[trigger] raw_below(raws[i].numer, bound) && raw_below(
            raws[i].denom,
            bound,
        )
    &&& forall|i: int|
        0 <= i < raws.len() ==> rule_matches(#[trigger] raws[i], rule_model(p.rules@[i]), ps)
}

/// Some valid registry relates the program to its raw fractions.
pub open spec fn program_of(raws: Seq<RawFrac>, p: Program) -> bool {
    exists|ps: Seq<usize>, bound: nat|
        sieve_valid(ps, bound) && #[trigger] program_wrt(raws, p, ps, bound)
}

/// The compiled raw fractions and the fraction values handed to the
/// factoriser are the same mathematics.
spec fn views_match(fracs: Seq<Fract<Vec<usize>>>, raws: Seq<RawFrac>) -> bool {
    &&& fracs.len() == raws.len()
    &&& forall|i: int|
        0 <= i < raws.len() ==> lits_nat((#[trigger] fracs[i]).numer@) == raws[i].numer && lits_nat(
            fracs[i].denom@,
        ) == raws[i].denom
}

/// `factorable` on the fraction values is `raw_factorable` on their
/// mathematics.
proof fn lemma_factorable_transfer(fracs: Seq<Fract<Vec<usize>>>, raws: Seq<RawFrac>)
    requires
        views_match(fracs, raws),
    ensures
        factorable(fracs) <==> raw_factorable(raws),
{
    if factorable(fracs) {
        assert forall|i: int| 0 <= i < raws.len() implies #[trigger] raw_lits_ok(raws[i].numer)
            && raw_lits_ok(raws[i].denom) by {
            assert(crate::fract::all_positive(fracs[i].numer@));
            assert(crate::fract::all_positive(fracs[i].denom@));
            assert(all_at_most(fracs[i].numer@, (usize::MAX - 2) as nat));
            assert(all_at_most(fracs[i].denom@, (usize::MAX - 2) as nat));
            assert forall|j: int| 0 <= j < raws[i].numer.len() implies 1 <= #[trigger] raws[i].numer[j]
                <= (usize::MAX - 2) as nat by {
                assert(raws[i].numer[j] == fracs[i].numer@[j] as nat);
                assert(fracs[i].numer@[j] >= 1);
                assert(fracs[i].numer@[j] as nat <= (usize::MAX - 2) as nat);
            }
            assert forall|j: int| 0 <= j < raws[i].denom.len() implies 1 <= #[trigger] raws[i].denom[j]
                <= (usize::MAX - 2) as nat by {
                assert(raws[i].denom[j] == fracs[i].denom@[j] as nat);
                assert(fracs[i].denom@[j] >= 1);
                assert(fracs[i].denom@[j] as nat <= (usize::MAX - 2) as nat);
            }
        }
        assert forall|i: int, q: nat| 0 <= i < raws.len() && is_prime(q) implies #[trigger] lit_exp(
            raws[i].numer,
            q,
        ) <= usize::MAX && lit_exp(raws[i].denom, q) <= usize::MAX by {
            assert(lit_exp(lits_nat(fracs[i].numer@), q) <= usize::MAX);
            assert(lit_exp(lits_nat(fracs[i].denom@), q) <= usize::MAX);
        }
    }
    if raw_factorable(raws) {
        assert forall|i: int| 0 <= i < fracs.len() implies #[trigger] crate::fract::all_positive(
            fracs[i].numer@,
        ) && crate::fract::all_positive(fracs[i].denom@) by {
            assert(raw_lits_ok(raws[i].numer));
            assert(raw_lits_ok(raws[i].denom));
            assert forall|j: int| 0 <= j < fracs[i].numer@.len() implies #[trigger] fracs[i].numer@[j]
                >= 1 by {
                assert(raws[i].numer[j] == fracs[i].numer@[j] as nat);
                assert(raws[i].numer[j] >= 1);
            }
            assert forall|j: int| 0 <= j < fracs[i].denom@.len() implies #[trigger] fracs[i].denom@[j]
                >= 1 by {
                assert(raws[i].denom[j] == fracs[i].denom@[j] as nat);
                assert(raws[i].denom[j] >= 1);
            }
        }
        assert forall|i: int| 0 <= i < fracs.len() implies #[trigger] all_at_most(
            fracs[i].numer@,
            (usize::MAX - 2) as nat,
        ) && all_at_most(fracs[i].denom@, (usize::MAX - 2) as nat) by {
            assert(raw_lits_ok(raws[i].numer));
            assert(raw_lits_ok(raws[i].denom));
            assert forall|j: int| 0 <= j < fracs[i].numer@.len() implies #[trigger] fracs[i].numer@[j]
                as nat <= (usize::MAX - 2) as nat by {
                assert(raws[i].numer[j] == fracs[i].numer@[j] as nat);
            }
            assert forall|j: int| 0 <= j < fracs[i].denom@.len() implies #[trigger] fracs[i].denom@[j]
                as nat <= (usize::MAX - 2) as nat by {
                assert(raws[i].denom[j] == fracs[i].denom@[j] as nat);
            }
        }
        assert forall|i: int, q: nat|
            0 <= i < fracs.len() && is_prime(q) implies #[trigger] lit_exp(
            lits_nat(fracs[i].numer@),
            q,
        ) <= usize::MAX && lit_exp(lits_nat(fracs[i].denom@), q) <= usize::MAX by {
            assert(lit_exp(raws[i].numer, q) <= usize::MAX);
            assert(lit_exp(raws[i].denom, q) <= usize::MAX);
        }
    }
}

/// The cancelled multiplicity of any prime outside the registry is zero,
/// and inside it is the corresponding vector entry.
proof fn lemma_cancelled_cases(
    raw: RawFrac,
    fv: Fract<Vec<usize>>,
    ps: Seq<usize>,
    bound: nat,
    q: nat,
)
    requires
        sieve_valid(ps, bound),
        is_prime(q),
        raw_lits_ok(raw.numer),
        raw_lits_ok(raw.denom),
        raw_below(raw.numer, bound),
        raw_below(raw.denom, bound),
        side_ok(fv.numer@, raw.numer, raw.denom, ps),
        side_ok(fv.denom@, raw.denom, raw.numer, ps),
    ensures
        cancelled(lit_exp(raw.numer, q), lit_exp(raw.denom, q)) <= u32::MAX <==> ((exists|r: int|
            0 <= r < fv.numer@.len() && ps[r] as nat == q && fv.numer@[r] <= u32::MAX) || (forall|
            r: int,
        |
            0 <= r < fv.numer@.len() ==> #[trigger] ps[r] as nat != q)),
        cancelled(lit_exp(raw.denom, q), lit_exp(raw.numer, q)) <= u32::MAX <==> ((exists|r: int|
            0 <= r < fv.denom@.len() && ps[r] as nat == q && fv.denom@[r] <= u32::MAX) || (forall|
            r: int,
        |
            0 <= r < fv.denom@.len() ==> #[trigger] ps[r] as nat != q)),
{
    lemma_cancelled_side(raw.numer, raw.denom, fv.numer@, ps, bound, q);
    lemma_cancelled_side(raw.denom, raw.numer, fv.denom@, ps, bound, q);
}

/// One side of the case split above.
proof fn lemma_cancelled_side(
    my_lits: Seq<nat>,
    other_lits: Seq<nat>,
    mine: Seq<usize>,
    ps: Seq<usize>,
    bound: nat,
    q: nat,
)
    requires
        sieve_valid(ps, bound),
        is_prime(q),
        raw_lits_ok(my_lits),
        raw_below(my_lits, bound),
        side_ok(mine, my_lits, other_lits, ps),
    ensures
        cancelled(lit_exp(my_lits, q), lit_exp(other_lits, q)) <= u32::MAX <==> ((exists|r: int|
            0 <= r < mine.len() && ps[r] as nat == q && mine[r] <= u32::MAX) || (forall|r: int|
            0 <= r < mine.len() ==> #[trigger] ps[r] as nat != q)),
{
    if q <= bound {
        let r = choose|r: int| 0 <= r < ps.len() && ps[r] as nat == q;
        assert(ps[r] as nat == q);
        if r < mine.len() {
            assert(mine[r] as nat == cancelled(lit_exp(my_lits, q), lit_exp(other_lits, q)));
            if mine[r] <= u32::MAX {
                assert(exists|r2: int|
                    0 <= r2 < mine.len() && ps[r2] as nat == q && mine[r2] <= u32::MAX);
            } else {
                assert forall|r2: int| 0 <= r2 < mine.len() && #[trigger] ps[r2] as nat == q
                    implies mine[r2] > u32::MAX by {
                    if r2 < r {
                        assert(ps[r2] < ps[r]);
                    } else if r2 > r {
                        assert(ps[r] < ps[r2]);
                    }
                }
            }
        } else {
            assert(cancelled(lit_exp(my_lits, q), lit_exp(other_lits, q)) == 0);
            assert forall|r2: int| 0 <= r2 < mine.len() implies #[trigger] ps[r2] as nat != q by {
                if ps[r2] as nat == q {
                    if r2 < r {
                        assert(ps[r2] < ps[r]);
                    } else if r2 > r {
                        assert(ps[r] < ps[r2]);
                    }
                    assert(r2 == r);
                }
            }
        }
    } else {
        assert forall|j: int| 0 <= j < my_lits.len() implies 1 <= #[trigger] my_lits[j] < q by {
            assert(my_lits[j] <= bound);
        }
        lemma_lit_exp_zero(my_lits, q);
        assert(cancelled(0, lit_exp(other_lits, q)) == 0);
        assert forall|r2: int| 0 <= r2 < mine.len() implies #[trigger] ps[r2] as nat != q by {
            if ps[r2] as nat == q {
                assert(ps[r2] as nat <= bound);
            }
        }
    }
}

/// Lens under `register_count_spec`: every vector fits, and some vector
/// reaches it.
proof fn lemma_register_count_spec(fracts: Seq<Factored>)
    ensures
        forall|i: int|
            0 <= i < fracts.len() ==> (#[trigger] fracts[i]).1.numer@.len()
                <= register_count_spec(fracts) && fracts[i].1.denom@.len() <= register_count_spec(
                fracts,
            ),
        register_count_spec(fracts) == 0 || exists|i: int|
            0 <= i < fracts.len() && ((#[trigger] fracts[i]).1.numer@.len()
                == register_count_spec(fracts) || fracts[i].1.denom@.len() == register_count_spec(
                fracts,
            )),
    decreases fracts.len(),
{
    if fracts.len() > 0 {
        lemma_register_count_spec(fracts.drop_last());
        assert(forall|i: int|
            0 <= i < fracts.len() - 1 ==> #[trigger] fracts.drop_last()[i] == fracts[i]);
        assert(fracts.last() == fracts[fracts.len() - 1]);
        let rcs = register_count_spec(fracts);
        let prev = register_count_spec(fracts.drop_last());
        let mine = if fracts.last().1.numer@.len() >= fracts.last().1.denom@.len() {
            fracts.last().1.numer@.len()
        } else {
            fracts.last().1.denom@.len()
        };
        assert(rcs >= prev && rcs >= mine);
        assert(rcs == prev || rcs == mine);
        assert forall|i: int| 0 <= i < fracts.len() implies (#[trigger] fracts[i]).1.numer@.len()
            <= rcs && fracts[i].1.denom@.len() <= rcs by {
            if i < fracts.len() - 1 {
                assert(fracts.drop_last()[i] == fracts[i]);
                assert(fracts[i].1.numer@.len() <= prev);
                assert(fracts[i].1.denom@.len() <= prev);
            }
        }
        if rcs != 0 {
            if rcs == mine && (fracts.last().1.numer@.len() == rcs || fracts.last().1.denom@.len()
                == rcs) {
                assert(exists|i: int|
                    0 <= i < fracts.len() && ((#[trigger] fracts[i]).1.numer@.len() == rcs
                        || fracts[i].1.denom@.len() == rcs));
            } else {
                assert(rcs == prev && prev != 0);
                let i = choose|i: int|
                    0 <= i < fracts.drop_last().len() && ((#[trigger] fracts.drop_last()[
                        i
                    ]).1.numer@.len() == prev || fracts.drop_last()[i].1.denom@.len() == prev);
                assert(fracts.drop_last()[i] == fracts[i]);
                assert(exists|i2: int|
                    0 <= i2 < fracts.len() && ((#[trigger] fracts[i2]).1.numer@.len() == rcs
                        || fracts[i2].1.denom@.len() == rcs));
            }
        }
    }
}

/// Compiles a whole FRACTRAN program: each expression becomes one raw
/// fraction, the literals are factorised against one shared prime
/// registry, and the factored fractions become the guarded rule cascade,
/// in source order. Succeeds exactly when every expression compiles, the
/// literals can be factorised, and every exponent fits its counter; the
/// first failing stage's error is returned.
pub fn compile_program(exprs: &Vec<Expr>) -> (r: Result<Program, FractranError>)
    ensures
        r is Ok <==> (compile_seq(exprs@) matches Ok(raws) && raw_factorable(raws)
            && raw_counters_fit(raws)),
        compile_seq(exprs@) matches Err(e) ==> r == Err::<Program, FractranError>(e),
        compile_seq(exprs@) matches Ok(raws) ==> (r matches Err(e) ==> ((e
            == FractranError::FactorizationOverflow && !raw_factorable(raws)) || (e
            == FractranError::CounterOverflow && raw_factorable(raws) && !raw_counters_fit(raws)))),
        r matches Ok(p) ==> (compile_seq(exprs@) matches Ok(raws) && {
            &&& program_wf(p)
            &&& program_of(raws, p)
            &&& forall|i: int|
                0 <= i < p.rules@.len() ==> rule_disjoint(rule_model(#[trigger] p.rules@[i]))
            &&& (p.register_count == 0 || exists|i: int|
                0 <= i < p.rules@.len() && ((#[trigger] p.rules@[i]).guard@.len()
                    == p.register_count || p.rules@[i].delta@.len() == p.register_count))
        }),
{
    let fracs = match extract_exprs(exprs) {
        Err(e) => {
            return Err(e);
        },
        Ok(v) => v,
    };
    let ghost raws = compile_seq(exprs@)->Ok_0;
    proof {
        assert(views_match(fracs@, raws));
        lemma_factorable_transfer(fracs@, raws);
    }
    let factored = match factorise(&fracs) {
        Err(e) => {
            return Err(e);
        },
        Ok(v) => v,
    };
    let ghost (ps, bound) = choose|ps: Seq<usize>, bound: nat|
        sieve_valid(ps, bound) && #[trigger] factored_wrt(fracs@, factored@, ps, bound);
    proof {
        assert(sieve_valid(ps, bound) && factored_wrt(fracs@, factored@, ps, bound));
        lemma_counters_transfer(fracs@, raws, factored@, ps, bound);
    }
    let program = match synthesize(&factored) {
        Err(e) => {
            return Err(e);
        },
        Ok(p) => p,
    };
    proof {
        lemma_program_assemble(fracs@, raws, factored@, program, ps, bound);
        lemma_register_count_spec(factored@);
        let rc = program.register_count as nat;
        if rc != 0 {
            let i = choose|i: int|
                0 <= i < factored@.len() && ((#[trigger] factored@[i]).1.numer@.len() == rc
                    || factored@[i].1.denom@.len() == rc);
            assert(rule_model(program.rules@[i]).delta == lits_nat(factored@[i].1.numer@));
            assert(rule_model(program.rules@[i]).guard == lits_nat(factored@[i].1.denom@));
            assert(program.rules@[i].delta@.len() == exps_nat(program.rules@[i].delta@).len());
            assert(program.rules@[i].guard@.len() == exps_nat(program.rules@[i].guard@).len());
            assert(lits_nat(factored@[i].1.numer@).len() == factored@[i].1.numer@.len());
            assert(lits_nat(factored@[i].1.denom@).len() == factored@[i].1.denom@.len());
            assert(program.rules@[i].delta@.len() == factored@[i].1.numer@.len());
            assert(program.rules@[i].guard@.len() == factored@[i].1.denom@.len());
            assert(exists|i2: int|
                0 <= i2 < program.rules@.len() && ((#[trigger] program.rules@[i2]).guard@.len()
                    == program.register_count || program.rules@[i2].delta@.len()
                    == program.register_count));
        }
    }
    Ok(program)
}

/// `counters_fit` on the factored vectors is `raw_counters_fit` on the
/// raw fractions.
proof fn lemma_counters_transfer(
    fracs: Seq<Fract<Vec<usize>>>,
    raws: Seq<RawFrac>,
    factored: Seq<Factored>,
    ps: Seq<usize>,
    bound: nat,
)
    requires
        views_match(fracs, raws),
        raw_factorable(raws),
        sieve_valid(ps, bound),
        factored_wrt(fracs, factored, ps, bound),
    ensures
        counters_fit(factored) <==> raw_counters_fit(raws),
{
    assert forall|i: int| 0 <= i < raws.len() implies #[trigger] raw_below(raws[i].numer, bound)
        && raw_below(raws[i].denom, bound) by {
        assert(all_at_most(fracs[i].numer@, bound));
        assert(all_at_most(fracs[i].denom@, bound));
        assert forall|j: int| 0 <= j < raws[i].numer.len() implies #[trigger] raws[i].numer[j]
            <= bound by {
            assert(raws[i].numer[j] == fracs[i].numer@[j] as nat);
            assert(fracs[i].numer@[j] as nat <= bound);
        }
        assert forall|j: int| 0 <= j < raws[i].denom.len() implies #[trigger] raws[i].denom[j]
            <= bound by {
            assert(raws[i].denom[j] == fracs[i].denom@[j] as nat);
            assert(fracs[i].denom@[j] as nat <= bound);
        }
    }
    if counters_fit(factored) {
        assert forall|i: int, q: nat|
            0 <= i < raws.len() && is_prime(q) implies #[trigger] cancelled(
            lit_exp(raws[i].numer, q),
            lit_exp(raws[i].denom, q),
        ) <= u32::MAX && cancelled(lit_exp(raws[i].denom, q), lit_exp(raws[i].numer, q))
            <= u32::MAX by {
            assert(fraction_factored(fracs[i], factored[i].0, factored[i].1, ps));
            assert(raw_lits_ok(raws[i].numer));
            assert(raw_lits_ok(raws[i].denom));
            assert(raw_below(raws[i].numer, bound));
            assert(raw_below(raws[i].denom, bound));
            assert(side_ok(factored[i].1.numer@, raws[i].numer, raws[i].denom, ps));
            assert(side_ok(factored[i].1.denom@, raws[i].denom, raws[i].numer, ps));
            lemma_cancelled_cases(raws[i], factored[i].1, ps, bound, q);
            assert(all_at_most(factored[i].1.numer@, u32::MAX as nat));
            assert(all_at_most(factored[i].1.denom@, u32::MAX as nat));
            if exists|r: int| 0 <= r < factored[i].1.numer@.len() && ps[r] as nat == q {
                let r = choose|r: int| 0 <= r < factored[i].1.numer@.len() && ps[r] as nat == q;
                assert(factored[i].1.numer@[r] as nat <= u32::MAX as nat);
            }
            if exists|r: int| 0 <= r < factored[i].1.denom@.len() && ps[r] as nat == q {
                let r = choose|r: int| 0 <= r < factored[i].1.denom@.len() && ps[r] as nat == q;
                assert(factored[i].1.denom@[r] as nat <= u32::MAX as nat);
            }
        }
        assert(raw_counters_fit(raws));
    }
    if raw_counters_fit(raws) {
        assert forall|i: int| 0 <= i < factored.len() implies #[trigger] all_at_most(
            factored[i].1.numer@,
            u32::MAX as nat,
        ) && all_at_most(factored[i].1.denom@, u32::MAX as nat) by {
            assert(fraction_factored(fracs[i], factored[i].0, factored[i].1, ps));
            assert(raw_lits_ok(raws[i].numer));
            assert(raw_lits_ok(raws[i].denom));
            assert(side_ok(factored[i].1.numer@, raws[i].numer, raws[i].denom, ps));
            assert(side_ok(factored[i].1.denom@, raws[i].denom, raws[i].numer, ps));
            assert forall|r: int| 0 <= r < factored[i].1.numer@.len() implies
                #[trigger] factored[i].1.numer@[r] as nat <= u32::MAX as nat by {
                assert(is_prime(ps[r] as nat));
                assert(factored[i].1.numer@[r] as nat == cancelled(
                    lit_exp(raws[i].numer, ps[r] as nat),
                    lit_exp(raws[i].denom, ps[r] as nat),
                ));
                assert(cancelled(
                    lit_exp(raws[i].numer, ps[r] as nat),
                    lit_exp(raws[i].denom, ps[r] as nat),
                ) <= u32::MAX);
            }
            assert forall|r: int| 0 <= r < factored[i].1.denom@.len() implies
                #[trigger] factored[i].1.denom@[r] as nat <= u32::MAX as nat by {
                assert(is_prime(ps[r] as nat));
                assert(factored[i].1.denom@[r] as nat == cancelled(
                    lit_exp(raws[i].denom, ps[r] as nat),
                    lit_exp(raws[i].numer, ps[r] as nat),
                ));
                assert(cancelled(
                    lit_exp(raws[i].numer, ps[r] as nat),
                    lit_exp(raws[i].denom, ps[r] as nat),
                ) <= u32::MAX);
                assert(cancelled(
                    lit_exp(raws[i].denom, ps[r] as nat),
                    lit_exp(raws[i].numer, ps[r] as nat),
                ) <= u32::MAX);
            }
        }
        assert(counters_fit(factored));
    }
}

/// The synthesized program satisfies `program_wrt` and rule disjointness.
proof fn lemma_program_assemble(
    fracs: Seq<Fract<Vec<usize>>>,
    raws: Seq<RawFrac>,
    factored: Seq<Factored>,
    p: Program,
    ps: Seq<usize>,
    bound: nat,
)
    requires
        views_match(fracs, raws),
        raw_factorable(raws),
        sieve_valid(ps, bound),
        factored_wrt(fracs, factored, ps, bound),
        p.rules@.len() == factored.len(),
        forall|i: int|
            0 <= i < factored.len() ==> rule_model(#[trigger] p.rules@[i]).guard == lits_nat(
                factored[i].1.denom@,
            ) && rule_model(p.rules@[i]).delta == lits_nat(factored[i].1.numer@),
    ensures
        program_wrt(raws, p, ps, bound),
        program_of(raws, p),
        forall|i: int| 0 <= i < p.rules@.len() ==> rule_disjoint(rule_model(#[trigger] p.rules@[i])),
{
    assert forall|i: int| 0 <= i < raws.len() implies #[trigger] raw_below(raws[i].numer, bound)
        && raw_below(raws[i].denom, bound) by {
        assert(all_at_most(fracs[i].numer@, bound));
        assert(all_at_most(fracs[i].denom@, bound));
        assert forall|j: int| 0 <= j < raws[i].numer.len() implies #[trigger] raws[i].numer[j]
            <= bound by {
            assert(raws[i].numer[j] == fracs[i].numer@[j] as nat);
            assert(fracs[i].numer@[j] as nat <= bound);
        }
        assert forall|j: int| 0 <= j < raws[i].denom.len() implies #[trigger] raws[i].denom[j]
            <= bound by {
            assert(raws[i].denom[j] == fracs[i].denom@[j] as nat);
            assert(fracs[i].denom@[j] as nat <= bound);
        }
    }
    assert forall|i: int| 0 <= i < raws.len() implies rule_matches(
        #[trigger] raws[i],
        rule_model(p.rules@[i]),
        ps,
    ) by {
        assert(fraction_factored(fracs[i], factored[i].0, factored[i].1, ps));
        let fv = factored[i].1;
        let rl = rule_model(p.rules@[i]);
        assert(side_ok(fv.numer@, raws[i].numer, raws[i].denom, ps));
        assert(side_ok(fv.denom@, raws[i].denom, raws[i].numer, ps));
        assert(rl.delta == lits_nat(fv.numer@));
        assert(rl.guard == lits_nat(fv.denom@));
        assert(rl.delta.len() == fv.numer@.len());
        assert(rl.guard.len() == fv.denom@.len());
        assert forall|r: int| 0 <= r < rl.delta.len() implies rl.delta[r] == cancelled(
            lit_exp(raws[i].numer, #[trigger] ps[r] as nat),
            lit_exp(raws[i].denom, ps[r] as nat),
        ) by {
            assert(rl.delta[r] == fv.numer@[r] as nat);
        }
        assert forall|r: int| 0 <= r < rl.guard.len() implies rl.guard[r] == cancelled(
            lit_exp(raws[i].denom, #[trigger] ps[r] as nat),
            lit_exp(raws[i].numer, ps[r] as nat),
        ) by {
            assert(rl.guard[r] == fv.denom@[r] as nat);
        }
    }
    assert(program_wrt(raws, p, ps, bound));
    assert(program_of(raws, p));
    assert forall|i: int| 0 <= i < p.rules@.len() implies rule_disjoint(
        rule_model(#[trigger] p.rules@[i]),
    ) by {
        assert(fraction_factored(fracs[i], factored[i].0, factored[i].1, ps));
        let fv = factored[i].1;
        let rl = rule_model(p.rules@[i]);
        assert(support_disjoint(fv.numer@, fv.denom@));
        assert forall|r: int| 0 <= r < rl.guard.len() && 0 <= r < rl.delta.len() implies !(
        #[trigger] rl.guard[r] >= 1 && #[trigger] rl.delta[r] >= 1) by {
            assert(rl.guard[r] == fv.denom@[r] as nat);
            assert(rl.delta[r] == fv.numer@[r] as nat);
            assert(!(fv.numer@[r] >= 1 && fv.denom@[r] >= 1));
        }
    }
}

/// The addition property, end to end: any program compiled from the one
/// raw fraction 3·1 / 1·2 — the compiled form of the single source
/// fraction `3/2` — is the one-rule machine that moves register 0 into
/// register 1, and from `[a, b]` it halts exactly at `[0, a + b]`, for
/// all naturals `a` and `b`.
pub proof fn lemma_addition_program(p: Program, raws: Seq<RawFrac>, a: nat, b: nat)
    requires
        raws.len() == 1,
        raws[0].numer == seq![3nat, 1nat],
        raws[0].denom == seq![1nat, 2nat],
        program_of(raws, p),
    ensures
        rules_model(p.rules@).len() == 1,
        rules_model(p.rules@)[0].guard == seq![1nat],
        rules_model(p.rules@)[0].delta == seq![0nat, 1nat],
        run_n(rules_model(p.rules@), seq![a, b], a) == seq![0nat, a + b],
        halted(rules_model(p.rules@), seq![0nat, a + b]),
{
    let (ps, bound) = choose|ps: Seq<usize>, bound: nat|
        sieve_valid(ps, bound) && #[trigger] program_wrt(raws, p, ps, bound);
    assert(sieve_valid(ps, bound) && program_wrt(raws, p, ps, bound));
    assert(raw_below(raws[0].numer, bound));
    assert(raws[0].numer[0] == 3);
    assert(bound >= 3);
    assert(is_prime(2)) by {
        assert(forall|d: nat| 2 <= d < 2 ==> #[trigger] (2nat % d) != 0);
    }
    assert(is_prime(3)) by {
        assert forall|d: nat| 2 <= d < 3 implies #[trigger] (3nat % d) != 0 by {
            assert(d == 2);
            assert(3nat % 2nat == 1);
        }
    }
    let i0 = choose|i: int| 0 <= i < ps.len() && ps[i] as nat == 2;
    let i1 = choose|i: int| 0 <= i < ps.len() && ps[i] as nat == 3;
    assert(ps[i0] as nat == 2 && ps[i1] as nat == 3);
    assert(i0 == 0) by {
        if i0 > 0 {
            assert(ps[0] < ps[i0]);
            assert(is_prime(ps[0] as nat));
        }
    }
    assert(i1 == 1) by {
        assert(i1 != 0);
        if i1 > 1 {
            assert(ps[0] < ps[1] && ps[1] < ps[i1]);
        }
    }
    // concrete multiplicities
    assert(pexp(1, 2) == 0 && pexp(1, 3) == 0) by {
        assert(1nat % 2nat == 1);
        assert(1nat % 3nat == 1);
    }
    assert(pexp(3, 2) == 0) by {
        assert(3nat % 2nat == 1);
    }
    assert(pexp(3, 3) == 1) by {
        assert(3nat % 3nat == 0);
        assert(3nat / 3nat == 1);
        assert(1nat % 3nat == 1);
        assert(pexp(1, 3) == 0);
    }
    assert(pexp(2, 2) == 1) by {
        assert(2nat % 2nat == 0);
        assert(2nat / 2nat == 1);
        assert(1nat % 2nat == 1);
        assert(pexp(1, 2) == 0);
    }
    assert(pexp(2, 3) == 0) by {
        assert(2nat % 3nat == 2);
    }
    let nl = raws[0].numer;
    let dl = raws[0].denom;
    assert forall|q: nat| is_prime(q) implies lit_exp(nl, q) == pexp(3, q) && #[trigger] lit_exp(
        dl,
        q,
    ) == pexp(2, q) by {
        lemma_pexp_one(q);
        assert(lit_exp(Seq::<nat>::empty(), q) == 0);
        assert(nl.drop_first() =~= seq![1nat]);
        assert(seq![1nat].drop_first() =~= Seq::<nat>::empty());
        assert(lit_exp(seq![1nat], q) == pexp(seq![1nat][0], q) + lit_exp(
            seq![1nat].drop_first(),
            q,
        ));
        assert(nl[0] == 3);
        assert(lit_exp(nl, q) == pexp(nl[0], q) + lit_exp(nl.drop_first(), q));
        assert(dl.drop_first() =~= seq![2nat]);
        assert(seq![2nat].drop_first() =~= Seq::<nat>::empty());
        assert(lit_exp(seq![2nat], q) == pexp(seq![2nat][0], q) + lit_exp(
            seq![2nat].drop_first(),
            q,
        ));
        assert(dl[0] == 1);
        assert(lit_exp(dl, q) == pexp(dl[0], q) + lit_exp(dl.drop_first(), q));
    }
    assert(rule_matches(raws[0], rule_model(p.rules@[0]), ps));
    let rl = rule_model(p.rules@[0]);
    // the delta vector reaches exactly register 1 and holds [0, 1]
    assert(lit_exp(nl, ps[1] as nat) == 1 && lit_exp(dl, ps[1] as nat) == 0);
    assert(rl.delta.len() == 2) by {
        if rl.delta.len() <= 1 {
            assert(cancelled(lit_exp(nl, ps[1] as nat), lit_exp(dl, ps[1] as nat)) == 0);
        }
        if rl.delta.len() > 2 {
            let q = ps[rl.delta.len() - 1] as nat;
            assert(is_prime(q));
            assert(cancelled(lit_exp(nl, q), lit_exp(dl, q)) >= 1);
            assert(lit_exp(nl, q) >= 1);
            assert(pexp(3, q) >= 1);
            crate::primes::lemma_pexp_divides(3, q);
            assert(2 <= q <= 3);
            assert(q == 3 || q == 2);
            assert(pexp(3, 2) == 0);
            assert(q == 3);
            assert(ps[rl.delta.len() - 1] == ps[1]);
            assert(ps[1] < ps[rl.delta.len() - 1]);
        }
    }
    assert(rl.delta[0] == cancelled(lit_exp(nl, 2), lit_exp(dl, 2)));
    assert(rl.delta[1] == cancelled(lit_exp(nl, 3), lit_exp(dl, 3)));
    assert(rl.delta =~= seq![0nat, 1nat]);
    // the guard vector reaches exactly register 0 and holds [1]
    assert(lit_exp(dl, ps[0] as nat) == 1 && lit_exp(nl, ps[0] as nat) == 0);
    assert(rl.guard.len() == 1) by {
        if rl.guard.len() == 0 {
            assert(cancelled(lit_exp(dl, ps[0] as nat), lit_exp(nl, ps[0] as nat)) == 0);
        }
        if rl.guard.len() > 1 {
            let q = ps[rl.guard.len() - 1] as nat;
            assert(is_prime(q));
            assert(cancelled(lit_exp(dl, q), lit_exp(nl, q)) >= 1);
            assert(lit_exp(dl, q) >= 1);
            assert(pexp(2, q) >= 1);
            crate::primes::lemma_pexp_divides(2, q);
            assert(q == 2);
            assert(ps[rl.guard.len() - 1] == ps[0]);
            assert(ps[0] < ps[rl.guard.len() - 1]);
        }
    }
    assert(rl.guard[0] == cancelled(lit_exp(dl, 2), lit_exp(nl, 2)));
    assert(rl.guard =~= seq![1nat]);
    assert(rules_model(p.rules@).len() == 1);
    assert(rules_model(p.rules@)[0] == rl);
    lemma_addition_machine(rules_model(p.rules@), a, b);
}

/// One divides everything zero times.
proof fn lemma_pexp_one(q: nat)
    ensures
        pexp(1, q) == 0,
{
    if q >= 2 {
        vstd::arithmetic::div_mod::lemma_small_mod(1, q);
    }
}

// ---------------------------------------------------------------------
// The multiplication program
// ---------------------------------------------------------------------

/// A six-register state: the exponents of the primes 2, 3, 5, 7, 11, 13.
pub open spec fn st6(a: nat, b: nat, c: nat, d: nat, e: nat, f: nat) -> Seq<nat> {
    seq![a, b, c, d, e, f]
}

/// The rule cascade compiled from the multiplication program
/// 5*7*13/(11*3), 11/13, 1/11, 3/7, 11/2, 1/3 over the registry
/// 2, 3, 5, 7, 11, 13.
pub open spec fn mult_rules(rules: Seq<RuleModel>) -> bool {
    &&& rules.len() == 6
    &&& rules[0].guard == seq![0nat, 1nat, 0nat, 0nat, 1nat]
    &&& rules[0].delta == seq![0nat, 0nat, 1nat, 1nat, 0nat, 1nat]
    &&& rules[1].guard == seq![0nat, 0nat, 0nat, 0nat, 0nat, 1nat]
    &&& rules[1].delta == seq![0nat, 0nat, 0nat, 0nat, 1nat]
    &&& rules[2].guard == seq![0nat, 0nat, 0nat, 0nat, 1nat]
    &&& rules[2].delta == Seq::<nat>::empty()
    &&& rules[3].guard == seq![0nat, 0nat, 0nat, 1nat]
    &&& rules[3].delta == seq![0nat, 1nat]
    &&& rules[4].guard == seq![1nat]
    &&& rules[4].delta == seq![0nat, 0nat, 0nat, 0nat, 1nat]
    &&& rules[5].guard == seq![0nat, 1nat]
    &&& rules[5].delta == Seq::<nat>::empty()
}

/// A guard with a demand the state cannot pay does not apply.
proof fn lemma_guard_fails(s: Seq<nat>, g: Seq<nat>, i: int)
    requires
        0 <= i < g.len(),
        i < s.len(),
        s[i] < g[i],
    ensures
        !guard_ok(s, g),
{
    if guard_ok(s, g) {
        assert(s[i] >= g[i]);
    }
}

/// The inner transfer loop: with one token on register 11, rules 0 and 1
/// alternate, moving every 3 into a 5 and a 7.
proof fn lemma_mult_inner(rules: Seq<RuleModel>, a: nat, b: nat, c: nat, d: nat)
    requires
        mult_rules(rules),
    ensures
        run_n(rules, st6(a, b, c, d, 1, 0), 2 * b) == st6(a, 0, c + b, d + b, 1, 0),
    decreases b,
{
    let s0 = st6(a, b, c, d, 1, 0);
    if b == 0 {
        assert(run_n(rules, s0, 0) == s0);
        assert(s0 =~= st6(a, 0, c + 0, d + 0, 1, 0));
    } else {
        let t1 = st6(a, (b - 1) as nat, c + 1, d + 1, 0, 1);
        let t2 = st6(a, (b - 1) as nat, c + 1, d + 1, 1, 0);
        assert(guard_ok(s0, rules[0].guard)) by {
            assert forall|r: int| 0 <= r < rules[0].guard.len() implies s0[r]
                >= #[trigger] rules[0].guard[r] by {}
        }
        lemma_first_rule_is(rules, s0, 0);
        assert(apply_rule(s0, rules[0]) =~= t1);
        assert(step1(rules, s0) == t1);
        lemma_guard_fails(t1, rules[0].guard, 4);
        assert(guard_ok(t1, rules[1].guard)) by {
            assert forall|r: int| 0 <= r < rules[1].guard.len() implies t1[r]
                >= #[trigger] rules[1].guard[r] by {}
        }
        lemma_first_rule_is(rules, t1, 1);
        assert(apply_rule(t1, rules[1]) =~= t2);
        assert(step1(rules, t1) == t2);
        assert(run_n(rules, s0, 2 * b) == run_n(rules, t1, (2 * b - 1) as nat));
        assert(run_n(rules, t1, (2 * b - 1) as nat) == run_n(rules, t2, (2 * b - 2) as nat));
        lemma_mult_inner(rules, a, (b - 1) as nat, c + 1, d + 1);
        assert((2 * b - 2) as nat == 2 * ((b - 1) as nat));
        assert(st6(a, 0, (c + 1) + ((b - 1) as nat), (d + 1) + ((b - 1) as nat), 1, 0) =~= st6(
            a,
            0,
            c + b,
            d + b,
            1,
            0,
        ));
    }
}

/// Restoring the 3s: rule 3 alone applies and moves every 7 back to a 3.
proof fn lemma_mult_drain7(rules: Seq<RuleModel>, a: nat, b: nat, c: nat, d: nat)
    requires
        mult_rules(rules),
    ensures
        run_n(rules, st6(a, b, c, d, 0, 0), d) == st6(a, b + d, c, 0, 0, 0),
    decreases d,
{
    let s0 = st6(a, b, c, d, 0, 0);
    if d == 0 {
        assert(run_n(rules, s0, 0) == s0);
        assert(s0 =~= st6(a, b + 0, c, 0, 0, 0));
    } else {
        let t1 = st6(a, b + 1, c, (d - 1) as nat, 0, 0);
        lemma_guard_fails(s0, rules[0].guard, 4);
        lemma_guard_fails(s0, rules[1].guard, 5);
        lemma_guard_fails(s0, rules[2].guard, 4);
        assert(guard_ok(s0, rules[3].guard)) by {
            assert forall|r: int| 0 <= r < rules[3].guard.len() implies s0[r]
                >= #[trigger] rules[3].guard[r] by {}
        }
        lemma_first_rule_is(rules, s0, 3);
        assert(apply_rule(s0, rules[3]) =~= t1);
        assert(step1(rules, s0) == t1);
        assert(run_n(rules, s0, d) == run_n(rules, t1, (d - 1) as nat));
        lemma_mult_drain7(rules, a, b + 1, c, (d - 1) as nat);
        assert(st6(a, (b + 1) + ((d - 1) as nat), c, 0, 0, 0) =~= st6(a, b + d, c, 0, 0, 0));
    }
}

/// One outer round per 2: rule 4 raises the 11 token, the inner loop
/// moves b into 5s and 7s, rule 2 retires the token, rule 3 restores the
/// 3s — so each 2 adds b to the 5s.
proof fn lemma_mult_outer(rules: Seq<RuleModel>, a: nat, b: nat, c: nat)
    requires
        mult_rules(rules),
    ensures
        run_n(rules, st6(a, b, c, 0, 0, 0), a * (3 * b + 2)) == st6(0, b, c + a * b, 0, 0, 0),
    decreases a,
{
    let s0 = st6(a, b, c, 0, 0, 0);
    if a == 0 {
        assert(run_n(rules, s0, 0) == s0);
        assert(s0 =~= st6(0, b, c + 0 * b, 0, 0, 0));
    } else {
        let t1 = st6((a - 1) as nat, b, c, 0, 1, 0);
        let t2 = st6((a - 1) as nat, 0, c + b, 0 + b, 1, 0);
        let t3 = st6((a - 1) as nat, 0, c + b, b, 0, 0);
        let t4 = st6((a - 1) as nat, 0 + b, c + b, 0, 0, 0);
        // rule 4 fires
        lemma_guard_fails(s0, rules[0].guard, 4);
        lemma_guard_fails(s0, rules[1].guard, 5);
        lemma_guard_fails(s0, rules[2].guard, 4);
        lemma_guard_fails(s0, rules[3].guard, 3);
        assert(guard_ok(s0, rules[4].guard)) by {
            assert forall|r: int| 0 <= r < rules[4].guard.len() implies s0[r]
                >= #[trigger] rules[4].guard[r] by {}
        }
        lemma_first_rule_is(rules, s0, 4);
        assert(apply_rule(s0, rules[4]) =~= t1);
        assert(step1(rules, s0) == t1);
        // the inner loop
        lemma_mult_inner(rules, (a - 1) as nat, b, c, 0);
        assert(run_n(rules, t1, 2 * b) == t2);
        // rule 2 retires the token
        lemma_guard_fails(t2, rules[0].guard, 1);
        lemma_guard_fails(t2, rules[1].guard, 5);
        assert(guard_ok(t2, rules[2].guard)) by {
            assert forall|r: int| 0 <= r < rules[2].guard.len() implies t2[r]
                >= #[trigger] rules[2].guard[r] by {}
        }
        lemma_first_rule_is(rules, t2, 2);
        assert(apply_rule(t2, rules[2]) =~= t3);
        assert(step1(rules, t2) == t3);
        // rule 3 restores the 3s
        lemma_mult_drain7(rules, (a - 1) as nat, 0, c + b, b);
        assert(run_n(rules, t3, b) == t4);
        // stitch the round together
        let rest4 = ((a - 1) as nat) * (3 * b + 2);
        assert(a * (3 * b + 2) == 1 + (2 * b + (1 + (b + rest4)))) by (nonlinear_arith)
            requires
                a >= 1,
                rest4 == ((a - 1) as nat) * (3 * b + 2),
        ;
        lemma_run_n_add(rules, s0, 1, 2 * b + (1 + (b + rest4)));
        lemma_run_n_snoc(rules, s0, 0);
        assert(run_n(rules, s0, 1) == step1(rules, s0));
        lemma_run_n_add(rules, t1, 2 * b, 1 + (b + rest4));
        lemma_run_n_add(rules, t2, 1, b + rest4);
        lemma_run_n_snoc(rules, t2, 0);
        assert(run_n(rules, t2, 1) == step1(rules, t2));
        lemma_run_n_add(rules, t3, b, rest4);
        lemma_mult_outer(rules, (a - 1) as nat, b, c + b);
        assert(st6(0, b, (c + b) + ((a - 1) as nat) * b, 0, 0, 0) =~= st6(0, b, c + a * b, 0, 0, 0))
            by {
            assert((c + b) + ((a - 1) as nat) * b == c + a * b) by (nonlinear_arith)
                requires
                    a >= 1,
            ;
        }
    }
}

/// With the 2s exhausted, rule 5 alone applies and discards the leftover
/// 3s.
proof fn lemma_mult_drain3(rules: Seq<RuleModel>, b: nat, c: nat)
    requires
        mult_rules(rules),
    ensures
        run_n(rules, st6(0, b, c, 0, 0, 0), b) == st6(0, 0, c, 0, 0, 0),
    decreases b,
{
    let s0 = st6(0, b, c, 0, 0, 0);
    if b == 0 {
        assert(run_n(rules, s0, 0) == s0);
    } else {
        let t1 = st6(0, (b - 1) as nat, c, 0, 0, 0);
        lemma_guard_fails(s0, rules[0].guard, 4);
        lemma_guard_fails(s0, rules[1].guard, 5);
        lemma_guard_fails(s0, rules[2].guard, 4);
        lemma_guard_fails(s0, rules[3].guard, 3);
        lemma_guard_fails(s0, rules[4].guard, 0);
        assert(guard_ok(s0, rules[5].guard)) by {
            assert forall|r: int| 0 <= r < rules[5].guard.len() implies s0[r]
                >= #[trigger] rules[5].guard[r] by {}
        }
        lemma_first_rule_is(rules, s0, 5);
        assert(apply_rule(s0, rules[5]) =~= t1);
        assert(step1(rules, s0) == t1);
        assert(run_n(rules, s0, b) == run_n(rules, t1, (b - 1) as nat));
        lemma_mult_drain3(rules, (b - 1) as nat, c);
    }
}

/// A state with only 5s left satisfies no guard.
proof fn lemma_mult_halted(rules: Seq<RuleModel>, c: nat)
    requires
        mult_rules(rules),
    ensures
        halted(rules, st6(0, 0, c, 0, 0, 0)),
{
    let s = st6(0, 0, c, 0, 0, 0);
    lemma_guard_fails(s, rules[0].guard, 4);
    lemma_guard_fails(s, rules[1].guard, 5);
    lemma_guard_fails(s, rules[2].guard, 4);
    lemma_guard_fails(s, rules[3].guard, 3);
    lemma_guard_fails(s, rules[4].guard, 0);
    lemma_guard_fails(s, rules[5].guard, 1);
    assert forall|m: int| 0 <= m < rules.len() implies !guard_ok(
        s,
        (#[trigger] rules[m]).guard,
    ) by {}
    lemma_first_rule_none(rules, s);
}

/// The multiplication property: the six-rule cascade compiled from
/// 5*7*13/(11*3), 11/13, 1/11, 3/7, 11/2, 1/3 halts from
/// [a, b, 0, 0, 0, 0] exactly at [0, 0, a*b, 0, 0, 0] — the register of
/// prime 5 holds the product and every other register is zero — for all
/// naturals a and b.
pub proof fn lemma_multiplication_machine(rules: Seq<RuleModel>, a: nat, b: nat)
    requires
        mult_rules(rules),
    ensures
        run_n(rules, st6(a, b, 0, 0, 0, 0), a * (3 * b + 2) + b) == st6(0, 0, a * b, 0, 0, 0),
        halted(rules, st6(0, 0, a * b, 0, 0, 0)),
{
    lemma_mult_outer(rules, a, b, 0);
    lemma_run_n_add(rules, st6(a, b, 0, 0, 0, 0), a * (3 * b + 2), b);
    assert(st6(0, b, 0 + a * b, 0, 0, 0) =~= st6(0, b, a * b, 0, 0, 0));
    lemma_mult_drain3(rules, b, a * b);
    lemma_mult_halted(rules, a * b);
}

/// For distinct primes the multiplicity is zero; for a prime in itself it
/// is one.
proof fn lemma_pexp_prime(p: nat, q: nat)
    requires
        is_prime(p),
        is_prime(q),
    ensures
        pexp(p, q) == if p == q {
            1nat
        } else {
            0nat
        },
{
    if p == q {
        vstd::arithmetic::div_mod::lemma_mod_self_0(p as int);
        vstd::arithmetic::div_mod::lemma_div_by_self(p as int);
        lemma_pexp_one(q);
    } else if p < q {
        crate::primes::lemma_pexp_small(p, q);
    } else {
        assert(p % q != 0);
    }
}

proof fn lemma_lit_exp_pair(u: nat, v: nat, q: nat)
    ensures
        lit_exp(seq![u, v], q) == pexp(u, q) + pexp(v, q),
{
    assert(seq![u, v].drop_first() =~= seq![v]);
    assert(seq![v].drop_first() =~= Seq::<nat>::empty());
    assert(lit_exp(Seq::<nat>::empty(), q) == 0);
    assert(lit_exp(seq![v], q) == pexp(seq![v][0], q) + lit_exp(seq![v].drop_first(), q));
    assert(lit_exp(seq![u, v], q) == pexp(seq![u, v][0], q) + lit_exp(seq![u, v].drop_first(), q));
}

proof fn lemma_lit_exp_five(x1: nat, x2: nat, x3: nat, x4: nat, x5: nat, q: nat)
    ensures
        lit_exp(seq![x1, x2, x3, x4, x5], q) == pexp(x1, q) + pexp(x2, q) + pexp(x3, q) + pexp(
            x4,
            q,
        ) + pexp(x5, q),
{
    let s = seq![x1, x2, x3, x4, x5];
    assert(s.drop_first() =~= seq![x2, x3, x4, x5]);
    assert(seq![x2, x3, x4, x5].drop_first() =~= seq![x3, x4, x5]);
    assert(seq![x3, x4, x5].drop_first() =~= seq![x4, x5]);
    lemma_lit_exp_pair(x4, x5, q);
    assert(lit_exp(seq![x3, x4, x5], q) == pexp(seq![x3, x4, x5][0], q) + lit_exp(
        seq![x3, x4, x5].drop_first(),
        q,
    ));
    assert(lit_exp(seq![x2, x3, x4, x5], q) == pexp(seq![x2, x3, x4, x5][0], q) + lit_exp(
        seq![x2, x3, x4, x5].drop_first(),
        q,
    ));
    assert(lit_exp(s, q) == pexp(s[0], q) + lit_exp(s.drop_first(), q));
}

/// A registry whose bound reaches 13 begins with exactly the primes
/// 2, 3, 5, 7, 11, 13, and everything after them is larger.
proof fn lemma_registry_prefix(ps: Seq<usize>, bound: nat)
    requires
        sieve_valid(ps, bound),
        bound >= 13,
    ensures
        ps.len() >= 6,
        ps[0] as nat == 2,
        ps[1] as nat == 3,
        ps[2] as nat == 5,
        ps[3] as nat == 7,
        ps[4] as nat == 11,
        ps[5] as nat == 13,
        forall|r: int| 6 <= r < ps.len() ==> #[trigger] ps[r] as nat > 13,
{
    assert(is_prime(2)) by {
        assert(forall|d: nat| 2 <= d < 2 ==> #[trigger] (2nat % d) != 0);
    }
    assert(is_prime(3)) by {
        assert forall|d: nat| 2 <= d < 3 implies #[trigger] (3nat % d) != 0 by {
            assert(d == 2 && 3nat % 2nat == 1);
        }
    }
    assert(is_prime(5)) by {
        assert forall|d: nat| 2 <= d < 5 implies #[trigger] (5nat % d) != 0 by {
            assert(5nat % 2nat == 1 && 5nat % 3nat == 2 && 5nat % 4nat == 1);
        }
    }
    assert(is_prime(7)) by {
        assert forall|d: nat| 2 <= d < 7 implies #[trigger] (7nat % d) != 0 by {
            assert(7nat % 2nat == 1 && 7nat % 3nat == 1 && 7nat % 4nat == 3 && 7nat % 5nat == 2
                && 7nat % 6nat == 1);
        }
    }
    assert(is_prime(11)) by {
        assert forall|d: nat| 2 <= d < 11 implies #[trigger] (11nat % d) != 0 by {
            assert(11nat % 2nat == 1 && 11nat % 3nat == 2 && 11nat % 4nat == 3 && 11nat % 5nat == 1
                && 11nat % 6nat == 5 && 11nat % 7nat == 4 && 11nat % 8nat == 3 && 11nat % 9nat == 2
                && 11nat % 10nat == 1);
        }
    }
    assert(is_prime(13)) by {
        assert forall|d: nat| 2 <= d < 13 implies #[trigger] (13nat % d) != 0 by {
            assert(13nat % 2nat == 1 && 13nat % 3nat == 1 && 13nat % 4nat == 1 && 13nat % 5nat == 3
                && 13nat % 6nat == 1 && 13nat % 7nat == 6 && 13nat % 8nat == 5 && 13nat % 9nat == 4
                && 13nat % 10nat == 3 && 13nat % 11nat == 2 && 13nat % 12nat == 1);
        }
    }
    let i0 = choose|i: int| 0 <= i < ps.len() && ps[i] as nat == 2;
    let i1 = choose|i: int| 0 <= i < ps.len() && ps[i] as nat == 3;
    let i2 = choose|i: int| 0 <= i < ps.len() && ps[i] as nat == 5;
    let i3 = choose|i: int| 0 <= i < ps.len() && ps[i] as nat == 7;
    let i4 = choose|i: int| 0 <= i < ps.len() && ps[i] as nat == 11;
    let i5 = choose|i: int| 0 <= i < ps.len() && ps[i] as nat == 13;
    assert(ps[i0] as nat == 2 && ps[i1] as nat == 3 && ps[i2] as nat == 5 && ps[i3] as nat == 7
        && ps[i4] as nat == 11 && ps[i5] as nat == 13);
    assert(i0 == 0) by {
        if i0 > 0 {
            assert(ps[0] < ps[i0]);
            assert(is_prime(ps[0] as nat));
        }
    }
    assert(i1 == 1) by {
        assert(i1 != 0);
        if i1 > 1 {
            assert(ps[0] < ps[1] && ps[1] < ps[i1]);
        }
    }
    assert(i2 == 2) by {
        assert(i2 != 0 && i2 != 1);
        if i2 > 2 {
            assert(ps[1] < ps[2] && ps[2] < ps[i2]);
            assert(ps[2] as nat == 4);
            assert(is_prime(4));
            assert(4nat % 2nat == 0);
        }
    }
    assert(i3 == 3) by {
        assert(i3 != 0 && i3 != 1 && i3 != 2);
        if i3 > 3 {
            assert(ps[2] < ps[3] && ps[3] < ps[i3]);
            assert(ps[3] as nat == 6);
            assert(is_prime(6));
            assert(6nat % 2nat == 0);
        }
    }
    assert(i4 == 4) by {
        assert(i4 != 0 && i4 != 1 && i4 != 2 && i4 != 3);
        if i4 > 4 {
            assert(ps[3] < ps[4] && ps[4] < ps[i4]);
            assert(ps[4] as nat == 8 || ps[4] as nat == 9 || ps[4] as nat == 10);
            assert(is_prime(ps[4] as nat));
            assert(8nat % 2nat == 0 && 9nat % 3nat == 0 && 10nat % 2nat == 0);
        }
    }
    assert(i5 == 5) by {
        assert(i5 != 0 && i5 != 1 && i5 != 2 && i5 != 3 && i5 != 4);
        if i5 > 5 {
            assert(ps[4] < ps[5] && ps[5] < ps[i5]);
            assert(ps[5] as nat == 12);
            assert(is_prime(12));
            assert(12nat % 2nat == 0);
        }
    }
    assert forall|r: int| 6 <= r < ps.len() implies #[trigger] ps[r] as nat > 13 by {
        assert(ps[5] < ps[r]);
    }
}

/// From `exp_vector_ok`, a side whose literals contain exactly one
/// registry prime (at position `xi`), uncancelled, is the unit vector
/// ending at `xi`.
proof fn lemma_unit_vector(
    mine: Seq<nat>,
    my_lits: Seq<nat>,
    other_lits: Seq<nat>,
    ps: Seq<usize>,
    bound: nat,
    xi: int,
)
    requires
        sieve_valid(ps, bound),
        ps.len() >= 6,
        0 <= xi < 6,
        exp_vector_ok(mine, my_lits, other_lits, ps),
        forall|q: nat|
            is_prime(q) ==> #[trigger] lit_exp(my_lits, q) == if q == ps[xi] as nat {
                1nat
            } else {
                0nat
            },
        lit_exp(other_lits, ps[xi] as nat) == 0,
    ensures
        mine.len() == xi + 1,
        forall|r: int|
            0 <= r <= xi ==> #[trigger] mine[r] == if r == xi {
                1nat
            } else {
                0nat
            },
{
    assert(is_prime(ps[xi] as nat));
    assert(lit_exp(my_lits, ps[xi] as nat) == 1);
    assert(cancelled(lit_exp(my_lits, ps[xi] as nat), lit_exp(other_lits, ps[xi] as nat)) == 1);
    if mine.len() <= xi {
        assert(cancelled(lit_exp(my_lits, ps[xi] as nat), lit_exp(other_lits, ps[xi] as nat))
            == 0);
        assert(false);
    }
    if mine.len() > xi + 1 {
        let l = mine.len() - 1;
        assert(cancelled(lit_exp(my_lits, ps[l] as nat), lit_exp(other_lits, ps[l] as nat)) >= 1);
        assert(is_prime(ps[l] as nat));
        assert(lit_exp(my_lits, ps[l] as nat) >= 1);
        assert(ps[l] as nat == ps[xi] as nat);
        assert(ps[xi] < ps[l]);
        assert(false);
    }
    assert forall|r: int| 0 <= r <= xi implies #[trigger] mine[r] == (if r == xi {
        1nat
    } else {
        0nat
    }) by {
        assert(is_prime(ps[r] as nat));
        assert(mine[r] == cancelled(
            lit_exp(my_lits, ps[r] as nat),
            lit_exp(other_lits, ps[r] as nat),
        ));
        if r != xi {
            assert(ps[r] < ps[xi]);
            assert(lit_exp(my_lits, ps[r] as nat) == 0);
        }
    }
}

/// A side whose literals contain no prime at all has the empty vector.
proof fn lemma_empty_vector(
    mine: Seq<nat>,
    my_lits: Seq<nat>,
    other_lits: Seq<nat>,
    ps: Seq<usize>,
    bound: nat,
)
    requires
        sieve_valid(ps, bound),
        exp_vector_ok(mine, my_lits, other_lits, ps),
        forall|q: nat| is_prime(q) ==> #[trigger] lit_exp(my_lits, q) == 0,
    ensures
        mine.len() == 0,
{
    if mine.len() > 0 {
        let l = mine.len() - 1;
        assert(is_prime(ps[l] as nat));
        assert(cancelled(lit_exp(my_lits, ps[l] as nat), lit_exp(other_lits, ps[l] as nat)) >= 1);
        assert(lit_exp(my_lits, ps[l] as nat) == 0);
        assert(false);
    }
}

/// The multiplication property, end to end: any program compiled from
/// the six raw fractions of `5*7*13/(11*3), 11/13, 1/11, 3/7, 11/2, 1/3`
/// is the six-rule cascade over registers 2, 3, 5, 7, 11, 13, and from
/// `[a, b, 0, 0, 0, 0]` it halts exactly at `[0, 0, a*b, 0, 0, 0]` — the
/// register of prime 5 holds the product — for all naturals `a` and `b`.
#[verifier::rlimit(100)]
#[verifier::spinoff_prover]
pub proof fn lemma_multiplication_program(p: Program, raws: Seq<RawFrac>, a: nat, b: nat)
    requires
        raws.len() == 6,
        raws[0].numer == seq![5nat, 7nat, 13nat, 1nat, 1nat],
        raws[0].denom == seq![1nat, 1nat, 1nat, 11nat, 3nat],
        raws[1].numer == seq![11nat, 1nat],
        raws[1].denom == seq![1nat, 13nat],
        raws[2].numer == seq![1nat, 1nat],
        raws[2].denom == seq![1nat, 11nat],
        raws[3].numer == seq![3nat, 1nat],
        raws[3].denom == seq![1nat, 7nat],
        raws[4].numer == seq![11nat, 1nat],
        raws[4].denom == seq![1nat, 2nat],
        raws[5].numer == seq![1nat, 1nat],
        raws[5].denom == seq![1nat, 3nat],
        program_of(raws, p),
    ensures
        mult_rules(rules_model(p.rules@)),
        run_n(rules_model(p.rules@), st6(a, b, 0, 0, 0, 0), a * (3 * b + 2) + b) == st6(
            0,
            0,
            a * b,
            0,
            0,
            0,
        ),
        halted(rules_model(p.rules@), st6(0, 0, a * b, 0, 0, 0)),
{
    let (ps, bound) = choose|ps: Seq<usize>, bound: nat|
        sieve_valid(ps, bound) && #[trigger] program_wrt(raws, p, ps, bound);
    assert(sieve_valid(ps, bound) && program_wrt(raws, p, ps, bound));
    assert(raw_below(raws[0].numer, bound));
    assert(raws[0].numer[2] == 13);
    assert(bound >= 13);
    lemma_registry_prefix(ps, bound);
    let n0 = raws[0].numer;
    let d0 = raws[0].denom;
    let n1 = raws[1].numer;
    let d1 = raws[1].denom;
    let n2 = raws[2].numer;
    let d2 = raws[2].denom;
    let n3 = raws[3].numer;
    let d3 = raws[3].denom;
    let n4 = raws[4].numer;
    let d4 = raws[4].denom;
    let n5 = raws[5].numer;
    let d5 = raws[5].denom;
    // the multiplicity profile of every literal list, over all primes
    assert forall|q: nat| is_prime(q) implies #[trigger] lit_exp(n0, q) == (if q == 5 {
        1nat
    } else if q == 7 {
        1nat
    } else if q == 13 {
        1nat
    } else {
        0nat
    }) by {
        lemma_lit_exp_five(5nat, 7nat, 13nat, 1nat, 1nat, q);
        lemma_pexp_prime(5nat, q);
        lemma_pexp_prime(7nat, q);
        lemma_pexp_prime(13nat, q);
        lemma_pexp_one(q);
    }
    assert forall|q: nat| is_prime(q) implies #[trigger] lit_exp(d0, q) == (if q == 11 {
        1nat
    } else if q == 3 {
        1nat
    } else {
        0nat
    }) by {
        lemma_lit_exp_five(1nat, 1nat, 1nat, 11nat, 3nat, q);
        lemma_pexp_prime(11nat, q);
        lemma_pexp_prime(3nat, q);
        lemma_pexp_one(q);
    }
    assert forall|q: nat| is_prime(q) implies #[trigger] lit_exp(n1, q) == (if q == 11 {
        1nat
    } else {
        0nat
    }) by {
        lemma_lit_exp_pair(11nat, 1nat, q);
        lemma_pexp_prime(11nat, q);
        lemma_pexp_one(q);
    }
    assert forall|q: nat| is_prime(q) implies #[trigger] lit_exp(d1, q) == (if q == 13 {
        1nat
    } else {
        0nat
    }) by {
        lemma_lit_exp_pair(1nat, 13nat, q);
        lemma_pexp_prime(13nat, q);
        lemma_pexp_one(q);
    }
    assert forall|q: nat| is_prime(q) implies #[trigger] lit_exp(n2, q) == 0 by {
        lemma_lit_exp_pair(1nat, 1nat, q);
        lemma_pexp_one(q);
    }
    assert forall|q: nat| is_prime(q) implies #[trigger] lit_exp(d2, q) == (if q == 11 {
        1nat
    } else {
        0nat
    }) by {
        lemma_lit_exp_pair(1nat, 11nat, q);
        lemma_pexp_prime(11nat, q);
        lemma_pexp_one(q);
    }
    assert forall|q: nat| is_prime(q) implies #[trigger] lit_exp(n3, q) == (if q == 3 {
        1nat
    } else {
        0nat
    }) by {
        lemma_lit_exp_pair(3nat, 1nat, q);
        lemma_pexp_prime(3nat, q);
        lemma_pexp_one(q);
    }
    assert forall|q: nat| is_prime(q) implies #[trigger] lit_exp(d3, q) == (if q == 7 {
        1nat
    } else {
        0nat
    }) by {
        lemma_lit_exp_pair(1nat, 7nat, q);
        lemma_pexp_prime(7nat, q);
        lemma_pexp_one(q);
    }
    assert forall|q: nat| is_prime(q) implies #[trigger] lit_exp(d4, q) == (if q == 2 {
        1nat
    } else {
        0nat
    }) by {
        lemma_lit_exp_pair(1nat, 2nat, q);
        lemma_pexp_prime(2nat, q);
        lemma_pexp_one(q);
    }
    assert forall|q: nat| is_prime(q) implies #[trigger] lit_exp(d5, q) == (if q == 3 {
        1nat
    } else {
        0nat
    }) by {
        lemma_lit_exp_pair(1nat, 3nat, q);
        lemma_pexp_prime(3nat, q);
        lemma_pexp_one(q);
    }
    assert(n4 == n1 && n5 == n2);
    // rule 0, by hand: delta has three nonzero registers, guard two
    let rl0 = rule_model(p.rules@[0]);
    assert(rule_matches(raws[0], rl0, ps));
    assert(lit_exp(n0, ps[5] as nat) == 1 && lit_exp(d0, ps[5] as nat) == 0);
    assert(rl0.delta.len() == 6) by {
        if rl0.delta.len() <= 5 {
            assert(cancelled(lit_exp(n0, ps[5] as nat), lit_exp(d0, ps[5] as nat)) == 0);
        }
        if rl0.delta.len() > 6 {
            let l = rl0.delta.len() - 1;
            assert(cancelled(lit_exp(n0, ps[l] as nat), lit_exp(d0, ps[l] as nat)) >= 1);
            assert(is_prime(ps[l] as nat));
            assert(ps[l] as nat > 13);
            assert(lit_exp(n0, ps[l] as nat) == 0);
        }
    }
    assert forall|r: int| 0 <= r < 6 implies #[trigger] rl0.delta[r] == cancelled(
        lit_exp(n0, ps[r] as nat),
        lit_exp(d0, ps[r] as nat),
    ) by {}
    assert(rl0.delta =~= seq![0nat, 0nat, 1nat, 1nat, 0nat, 1nat]);
    assert(lit_exp(d0, ps[4] as nat) == 1 && lit_exp(n0, ps[4] as nat) == 0);
    assert(rl0.guard.len() == 5) by {
        if rl0.guard.len() <= 4 {
            assert(cancelled(lit_exp(d0, ps[4] as nat), lit_exp(n0, ps[4] as nat)) == 0);
        }
        if rl0.guard.len() > 5 {
            let l = rl0.guard.len() - 1;
            assert(cancelled(lit_exp(d0, ps[l] as nat), lit_exp(n0, ps[l] as nat)) >= 1);
            assert(is_prime(ps[l] as nat));
            assert(lit_exp(d0, ps[l] as nat) >= 1);
            assert(ps[l] as nat == 3 || ps[l] as nat == 11);
            assert(ps[4] < ps[l]);
        }
    }
    assert forall|r: int| 0 <= r < 5 implies #[trigger] rl0.guard[r] == cancelled(
        lit_exp(d0, ps[r] as nat),
        lit_exp(n0, ps[r] as nat),
    ) by {}
    assert(rl0.guard =~= seq![0nat, 1nat, 0nat, 0nat, 1nat]);
    // rules 1 to 5, each side a unit or empty vector
    let rl1 = rule_model(p.rules@[1]);
    assert(rule_matches(raws[1], rl1, ps));
    lemma_unit_vector(rl1.delta, raws[1].numer, raws[1].denom, ps, bound, 4);
    lemma_unit_vector(rl1.guard, raws[1].denom, raws[1].numer, ps, bound, 5);
    assert(rl1.delta =~= seq![0nat, 0nat, 0nat, 0nat, 1nat]);
    assert(rl1.guard =~= seq![0nat, 0nat, 0nat, 0nat, 0nat, 1nat]);
    let rl2 = rule_model(p.rules@[2]);
    assert(rule_matches(raws[2], rl2, ps));
    lemma_empty_vector(rl2.delta, raws[2].numer, raws[2].denom, ps, bound);
    lemma_unit_vector(rl2.guard, raws[2].denom, raws[2].numer, ps, bound, 4);
    assert(rl2.delta =~= Seq::<nat>::empty());
    assert(rl2.guard =~= seq![0nat, 0nat, 0nat, 0nat, 1nat]);
    let rl3 = rule_model(p.rules@[3]);
    assert(rule_matches(raws[3], rl3, ps));
    lemma_unit_vector(rl3.delta, raws[3].numer, raws[3].denom, ps, bound, 1);
    lemma_unit_vector(rl3.guard, raws[3].denom, raws[3].numer, ps, bound, 3);
    assert(rl3.delta =~= seq![0nat, 1nat]);
    assert(rl3.guard =~= seq![0nat, 0nat, 0nat, 1nat]);
    let rl4 = rule_model(p.rules@[4]);
    assert(rule_matches(raws[4], rl4, ps));
    lemma_unit_vector(rl4.delta, raws[4].numer, raws[4].denom, ps, bound, 4);
    lemma_unit_vector(rl4.guard, raws[4].denom, raws[4].numer, ps, bound, 0);
    assert(rl4.delta =~= seq![0nat, 0nat, 0nat, 0nat, 1nat]);
    assert(rl4.guard =~= seq![1nat]);
    let rl5 = rule_model(p.rules@[5]);
    assert(rule_matches(raws[5], rl5, ps));
    lemma_empty_vector(rl5.delta, raws[5].numer, raws[5].denom, ps, bound);
    lemma_unit_vector(rl5.guard, raws[5].denom, raws[5].numer, ps, bound, 1);
    assert(rl5.delta =~= Seq::<nat>::empty());
    assert(rl5.guard =~= seq![0nat, 1nat]);
    let rm = rules_model(p.rules@);
    assert(rm.len() == 6);
    assert(rm[0] == rl0 && rm[1] == rl1 && rm[2] == rl2 && rm[3] == rl3 && rm[4] == rl4 && rm[5]
        == rl5);
    assert(mult_rules(rm));
    lemma_multiplication_machine(rm, a, b);
}

} // verus!
