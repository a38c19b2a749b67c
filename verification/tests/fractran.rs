use fractran::{compile_program, Expr, Fract, Fractran, FractranError, Machine, Step};

fn e_lit(n: usize) -> Expr {
    Expr::Lit(n)
}

fn e_add(l: Expr, r: Expr) -> Expr {
    Expr::Add(Box::new(l), Box::new(r))
}

fn e_mul(l: Expr, r: Expr) -> Expr {
    Expr::Mul(Box::new(l), Box::new(r))
}

fn e_div(l: Expr, r: Expr) -> Expr {
    Expr::Div(Box::new(l), Box::new(r))
}

fn e_pow(l: Expr, r: Expr) -> Expr {
    Expr::Pow(Box::new(l), Box::new(r))
}

/// Compiles, runs to completion, and compares the final state: the given
/// prefix must match and every register past it must be zero.
fn run_and_check(exprs: Vec<Expr>, init: &[u32], expected: &[u32]) {
    let program = compile_program(&exprs).unwrap();
    let init_vec: Vec<u32> = init.to_vec();
    let mut m = Machine::construct(program, &init_vec).unwrap();
    let outcome = m.run(10_000_000).unwrap();
    assert_eq!(outcome, Step::Halted);
    let state = m.state();
    assert!(expected.len() <= state.len());
    assert_eq!(&state[..expected.len()], expected);
    assert!(state[expected.len()..].iter().all(|x| *x == 0));
}

#[test]
fn test_addition() {
    // 2^a 3^b => 3^(a+b)
    let cases: &[(&[u32], &[u32])] = &[
        (&[0, 0], &[0, 0]),
        (&[1, 0], &[0, 1]),
        (&[0, 1], &[0, 1]),
        (&[1, 1], &[0, 2]),
        (&[12, 34], &[0, 12 + 34]),
    ];
    for (init, expected) in cases {
        run_and_check(vec![e_div(e_lit(3), e_lit(2))], init, expected);
    }
}

fn multiplication_program() -> Vec<Expr> {
    // 5*7*13/(11*3), 11/13, 1/11, 3/7, 11/2, 1/3
    vec![
        e_div(e_mul(e_mul(e_lit(5), e_lit(7)), e_lit(13)), e_mul(e_lit(11), e_lit(3))),
        e_div(e_lit(11), e_lit(13)),
        e_div(e_lit(1), e_lit(11)),
        e_div(e_lit(3), e_lit(7)),
        e_div(e_lit(11), e_lit(2)),
        e_div(e_lit(1), e_lit(3)),
    ]
}

#[test]
fn test_multiplication() {
    // 2^a 3^b => 5^(ab)
    let cases: &[(&[u32], &[u32])] = &[
        (&[0, 0], &[0, 0, 0]),
        (&[1, 0], &[0, 0, 0]),
        (&[0, 1], &[0, 0, 0]),
        (&[1, 1], &[0, 0, 1]),
        (&[1, 2], &[0, 0, 2]),
        (&[2, 1], &[0, 0, 2]),
        (&[12, 34], &[0, 0, 12 * 34]),
    ];
    for (init, expected) in cases {
        run_and_check(multiplication_program(), init, expected);
    }
}

#[test]
fn test_division() {
    // 2^n 3^d 11 => 5^q 7^r with n = qd + r
    let program = || {
        vec![
            e_div(e_lit(91), e_lit(66)),
            e_div(e_lit(11), e_lit(13)),
            e_div(e_lit(1), e_lit(33)),
            e_div(e_lit(85), e_lit(11)),
            e_div(e_lit(57), e_lit(119)),
            e_div(e_lit(17), e_lit(19)),
            e_div(e_lit(11), e_lit(17)),
            e_div(e_lit(1), e_lit(3)),
        ]
    };
    let cases: &[(&[u32], &[u32])] = &[
        (&[0, 1, 0, 0, 1], &[0, 0, 0, 0]),
        (&[1, 1, 0, 0, 1], &[0, 0, 1, 0]),
        (&[1, 2, 0, 0, 1], &[0, 0, 0, 1]),
        (&[2, 2, 0, 0, 1], &[0, 0, 1, 0]),
        (&[10 * 3 + 2, 3, 0, 0, 1], &[0, 0, 10, 2]),
    ];
    for (init, expected) in cases {
        run_and_check(program(), init, expected);
    }
}

#[test]
fn test_hamming() {
    // 2^a => 13^HammingWeight(a)
    let program = || {
        vec![
            e_div(
                e_mul(e_add(e_lit(2), e_lit(1)), e_lit(11)),
                e_mul(e_pow(e_lit(2), e_lit(2)), e_lit(5)),
            ),
            e_div(e_lit(5), e_lit(11)),
            e_div(e_lit(13), e_mul(e_lit(2), e_lit(5))),
            e_div(e_lit(1), e_lit(5)),
            e_div(e_lit(2), e_lit(3)),
            e_div(e_mul(e_lit(2), e_lit(5)), e_lit(7)),
            e_div(e_lit(7), e_lit(2)),
        ]
    };
    let cases: &[(&[u32], &[u32])] = &[
        (&[0], &[0, 0, 0, 0, 0, 0]),
        (&[1], &[0, 0, 0, 0, 0, 1]),
        (&[2], &[0, 0, 0, 0, 0, 1]),
        (&[3], &[0, 0, 0, 0, 0, 2]),
        (&[4], &[0, 0, 0, 0, 0, 1]),
        (&[5], &[0, 0, 0, 0, 0, 2]),
        (&[6], &[0, 0, 0, 0, 0, 2]),
        (&[7], &[0, 0, 0, 0, 0, 3]),
    ];
    for (init, expected) in cases {
        run_and_check(program(), init, expected);
    }
}

#[test]
fn test_pow_is_repetition() {
    // 2^100 compiles into one hundred factors of two, never the number
    // 2^100 itself.
    let raw = fractran::extract_expr(&e_pow(e_lit(2), e_lit(100))).unwrap();
    assert_eq!(raw.numer, vec![2usize; 100]);
    assert_eq!(raw.denom, vec![1usize; 100]);
}

#[test]
fn test_pow_program_runs() {
    // 3^100 / 2^100: moves registers a hundred at a time.
    let program = vec![e_div(e_pow(e_lit(3), e_lit(100)), e_pow(e_lit(2), e_lit(100)))];
    run_and_check(program, &[100], &[0, 100]);
    let program2 = vec![e_div(e_pow(e_lit(3), e_lit(100)), e_pow(e_lit(2), e_lit(100)))];
    run_and_check(program2, &[250], &[50, 200]);
}

#[test]
fn test_guard_delta_disjoint() {
    // 6/4 shares a factor of two; after cancellation the rule must not
    // touch any register on both sides.
    let program = compile_program(&vec![e_div(e_lit(6), e_lit(4))]).unwrap();
    assert_eq!(program.rules.len(), 1);
    let rule = &program.rules[0];
    assert_eq!(rule.guard, vec![1u32]);
    assert_eq!(rule.delta, vec![0u32, 1]);
    for r in 0..rule.guard.len().min(rule.delta.len()) {
        assert!(!(rule.guard[r] > 0 && rule.delta[r] > 0));
    }
}

#[test]
fn test_register_ordering() {
    // 13/5: register indices are positions among the primes 2,3,5,7,11,13.
    let program = compile_program(&vec![e_div(e_lit(13), e_lit(5))]).unwrap();
    assert_eq!(program.register_count, 6);
    let rule = &program.rules[0];
    assert_eq!(rule.guard, vec![0u32, 0, 1]);
    assert_eq!(rule.delta, vec![0u32, 0, 0, 0, 0, 1]);
}

#[test]
fn test_first_match_order() {
    // Two rules that both apply to [1, 0, 0]: the earlier one wins.
    let program_a = compile_program(&vec![
        e_div(e_lit(3), e_lit(2)),
        e_div(e_lit(5), e_lit(2)),
    ])
    .unwrap();
    let mut m = Machine::construct(program_a, &vec![1, 0, 0]).unwrap();
    assert_eq!(m.step().unwrap(), Step::Stepped);
    assert_eq!(m.state(), &[0, 1, 0][..]);

    let program_b = compile_program(&vec![
        e_div(e_lit(5), e_lit(2)),
        e_div(e_lit(3), e_lit(2)),
    ])
    .unwrap();
    let mut m2 = Machine::construct(program_b, &vec![1, 0, 0]).unwrap();
    assert_eq!(m2.step().unwrap(), Step::Stepped);
    assert_eq!(m2.state(), &[0, 0, 1][..]);
}

#[test]
fn test_halting_deterministic() {
    // Two fresh machines from identical initial state end identically.
    let mut finals: Vec<Vec<u32>> = Vec::new();
    for _ in 0..2 {
        let program = compile_program(&multiplication_program()).unwrap();
        let mut m = Machine::construct(program, &vec![7, 9]).unwrap();
        assert_eq!(m.run(10_000_000).unwrap(), Step::Halted);
        finals.push(m.state().to_vec());
    }
    assert_eq!(finals[0], finals[1]);
}

#[test]
fn test_unsupported_expression() {
    let r = compile_program(&vec![Expr::Unsupported]);
    assert_eq!(r.unwrap_err(), FractranError::UnsupportedExpression);
}

#[test]
fn test_non_integer_exponent() {
    let r = compile_program(&vec![e_pow(e_lit(2), e_div(e_lit(1), e_lit(2)))]);
    assert_eq!(r.unwrap_err(), FractranError::NonIntegerExponent);
}

#[test]
fn test_arithmetic_overflow() {
    // The synthesized literal of an addition must fit in usize.
    let r = compile_program(&vec![e_add(e_lit(usize::MAX), e_lit(usize::MAX))]);
    assert_eq!(r.unwrap_err(), FractranError::ArithmeticOverflow);
}

#[test]
fn test_zero_literal_rejected() {
    let r = compile_program(&vec![e_div(e_lit(0), e_lit(2))]);
    assert_eq!(r.unwrap_err(), FractranError::FactorizationOverflow);
}

#[test]
fn test_initial_state_too_long() {
    let program = compile_program(&vec![e_div(e_lit(3), e_lit(2))]).unwrap();
    assert_eq!(program.register_count, 2);
    let r = Machine::construct(program, &vec![1, 2, 3]);
    assert!(matches!(r, Err(FractranError::InitialStateTooLong)));
}

#[test]
fn test_step_overflow() {
    // 4/2 cancels to a rule with empty guard support that credits one to
    // register 0 each step: from near the counter ceiling it must fail
    // loudly, not wrap.
    let program = compile_program(&vec![e_div(e_lit(4), e_lit(2))]).unwrap();
    let mut m = Machine::construct(program, &vec![u32::MAX - 1]).unwrap();
    assert_eq!(m.step().unwrap(), Step::Stepped);
    assert_eq!(m.state(), &[u32::MAX][..]);
    assert_eq!(m.step().unwrap_err(), FractranError::StepOverflow);
    assert_eq!(m.state(), &[u32::MAX][..]);
}

#[test]
fn test_run_budget_spent() {
    // 2/1 never halts; a budget of five steps leaves the machine running
    // after exactly five steps.
    let program = compile_program(&vec![e_div(e_lit(2), e_lit(1))]).unwrap();
    let mut m = Machine::construct(program, &vec![0]).unwrap();
    assert_eq!(m.run(5).unwrap(), Step::Stepped);
    assert_eq!(m.state(), &[5][..]);
}

#[test]
fn test_factorise_reduced_pair() {
    // The diagnostic reduction of 6/4 is 3/2.
    let fracs = vec![Fract { numer: vec![6usize], denom: vec![4usize] }];
    let out = fractran::factorise(&fracs).unwrap();
    assert_eq!(out.len(), 1);
    let (reduced, vectors) = &out[0];
    let reduced = reduced.as_ref().unwrap();
    assert_eq!(reduced.numer, 3);
    assert_eq!(reduced.denom, 2);
    assert_eq!(vectors.numer, vec![0usize, 1]);
    assert_eq!(vectors.denom, vec![1usize]);
}

#[test]
fn test_extract_expr_shapes() {
    // Mul concatenates, Div concatenates crosswise, Add multiplies out
    // into a single synthesized literal.
    let m = fractran::extract_expr(&e_mul(e_lit(3), e_lit(5))).unwrap();
    assert_eq!(m.numer, vec![3usize, 5]);
    assert_eq!(m.denom, vec![1usize, 1]);

    let d = fractran::extract_expr(&e_div(e_mul(e_lit(3), e_lit(5)), e_lit(7))).unwrap();
    assert_eq!(d.numer, vec![3usize, 5, 1]);
    assert_eq!(d.denom, vec![1usize, 1, 7]);

    // 2 + 1 = (2*1 + 1*1) over denominator [1, 1]
    let a = fractran::extract_expr(&e_add(e_lit(2), e_lit(1))).unwrap();
    assert_eq!(a.numer, vec![3usize]);
    assert_eq!(a.denom, vec![1usize, 1]);
}

#[test]
fn test_empty_program() {
    // No fractions: no registers, and the machine is born halted.
    let program = compile_program(&vec![]).unwrap();
    assert_eq!(program.register_count, 0);
    assert_eq!(program.rules.len(), 0);
    let mut m = Machine::construct(program, &vec![]).unwrap();
    assert_eq!(m.run(10).unwrap(), Step::Halted);
    assert_eq!(m.state(), &[][..]);
}

#[test]
fn test_first_error_wins() {
    // The first failing expression, in source order, names the error.
    let r = compile_program(&vec![
        Expr::Unsupported,
        e_pow(e_lit(2), e_div(e_lit(1), e_lit(2))),
    ]);
    assert_eq!(r.unwrap_err(), FractranError::UnsupportedExpression);

    let r2 = compile_program(&vec![
        e_pow(e_lit(2), e_div(e_lit(1), e_lit(2))),
        Expr::Unsupported,
    ]);
    assert_eq!(r2.unwrap_err(), FractranError::NonIntegerExponent);
}

#[test]
fn test_register_count_post_cancellation() {
    // 3/3 cancels away entirely: no register is referenced, so there are
    // no registers; the empty rule always applies and does nothing.
    let program = compile_program(&vec![e_div(e_lit(3), e_lit(3))]).unwrap();
    assert_eq!(program.register_count, 0);
    assert_eq!(program.rules[0].guard, Vec::<u32>::new());
    assert_eq!(program.rules[0].delta, Vec::<u32>::new());
    let mut m = Machine::construct(program, &vec![]).unwrap();
    assert_eq!(m.run(5).unwrap(), Step::Stepped);
    assert_eq!(m.state(), &[][..]);

    // 6/3 reduces to 2/1: only register 0 is referenced.
    let program2 = compile_program(&vec![e_div(e_lit(6), e_lit(3))]).unwrap();
    assert_eq!(program2.register_count, 1);
    assert_eq!(program2.rules[0].guard, Vec::<u32>::new());
    assert_eq!(program2.rules[0].delta, vec![1u32]);
}
