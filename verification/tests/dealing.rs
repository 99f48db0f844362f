use rand::rngs::StdRng;
use rand::SeedableRng;
use sharks::math::{evaluate, get_evaluator, interpolate, random_polynomial};
use sharks::{Share, Sharks, GF256};

#[test]
fn evaluate_uses_horner_order() {
    // 5x + 7 at x = 2: 5 * 2 = 10, 10 ^ 7 = 13
    let p = vec![GF256(5), GF256(7)];
    assert_eq!(evaluate(&p, GF256(2)), GF256(13));
    assert_eq!(evaluate(&p, GF256(0)), GF256(7));
    assert_eq!(evaluate(&vec![], GF256(9)), GF256(0));
}

#[test]
fn interpolate_line_through_two_points() {
    // 5x + 7: (1, 2) and (2, 13)
    let shares = vec![
        Share { x: GF256(1), y: vec![GF256(2)] },
        Share { x: GF256(2), y: vec![GF256(13)] },
    ];
    assert_eq!(interpolate(&shares), vec![7]);
}

#[test]
fn recover_exact_value_from_hand_made_shares() {
    let shares = vec![
        Share { x: GF256(1), y: vec![GF256(2), GF256(1)] },
        Share { x: GF256(2), y: vec![GF256(13), GF256(1)] },
    ];
    assert_eq!(Sharks(2).recover(&shares), Ok(vec![7, 1]));
}

#[test]
fn random_polynomial_shape() {
    let mut rng = StdRng::seed_from_u64(7);
    let p = random_polynomial(GF256(42), 5, &mut rng);
    assert_eq!(p.len(), 5);
    assert_eq!(p[4], GF256(42));
    for c in &p[..4] {
        assert_ne!(c.0, 0);
    }
    let q = random_polynomial(GF256(9), 0, &mut rng);
    assert_eq!(q, vec![GF256(9)]);
    let r = random_polynomial(GF256(9), 1, &mut rng);
    assert_eq!(r, vec![GF256(9)]);
}

#[test]
fn dealt_coefficients_are_nonzero() {
    // With a zero secret and threshold two, each share value is the random slope times x,
    // which is nonzero for nonzero x.
    let sharks = Sharks(2);
    let shares = sharks.dealer(&[0, 0, 0]).take(255);
    for s in &shares {
        for v in &s.y {
            assert_ne!(v.0, 0);
        }
    }
}

#[test]
fn evaluator_runs_from_one_to_255() {
    let mut e = get_evaluator(vec![vec![GF256(1), GF256(0)]]);
    let first = e.next().unwrap();
    assert_eq!(first.x, GF256(1));
    assert_eq!(first.y, vec![GF256(1)]);
    let rest = e.take(1000);
    assert_eq!(rest.len(), 254);
    assert_eq!(rest[253].x, GF256(255));
    // f(x) = x
    assert_eq!(rest[0].y, vec![GF256(2)]);
}

#[test]
fn dealer_rng_with_seed_recovers() {
    let sharks = Sharks(3);
    let mut rng = StdRng::seed_from_u64(0x90);
    let shares = sharks.dealer_rng(&[1, 2, 3], &mut rng).take(5);
    assert_eq!(shares.len(), 5);
    assert_eq!(sharks.recover(&shares[1..4]), Ok(vec![1, 2, 3]));
    assert_eq!(sharks.recover(&shares[..2]), Err("Not enough shares to recover original secret"));
}

#[test]
fn zero_threshold_gives_constant_shares() {
    let sharks = Sharks(0);
    let shares = sharks.dealer(&[5, 6]).take(3);
    for s in &shares {
        assert_eq!(s.y, vec![GF256(5), GF256(6)]);
    }
    assert_eq!(sharks.recover(&shares[..1]), Ok(vec![5, 6]));
    assert_eq!(sharks.recover(&[]), Err("Not enough shares to recover original secret"));
}

#[test]
fn recover_rejects_mixed_lengths() {
    let shares = vec![
        Share { x: GF256(1), y: vec![GF256(2)] },
        Share { x: GF256(2), y: vec![GF256(13), GF256(1)] },
    ];
    assert_eq!(Sharks(1).recover(&shares), Err("All shares must have the same length"));
}

#[test]
fn proactive_renewal_shares_have_zero_constant() {
    let sharks = Sharks(3);
    let share = Share { x: GF256(1), y: vec![GF256(9), GF256(8)] };
    let mut rng = StdRng::seed_from_u64(3);
    let renewal = sharks.proactive_dealer_rng(&share, &mut rng).take(3);
    assert_eq!(sharks.recover(&renewal), Ok(vec![0, 0]));
}

#[test]
fn recover_ignores_clones() {
    // slope 1, secret 0x10: f(1) = 0x11, f(2) = 0x12
    let a = Share { x: GF256(1), y: vec![GF256(0x11)] };
    let b = Share { x: GF256(2), y: vec![GF256(0x12)] };
    let shares = vec![a.clone(), b.clone(), a.clone()];
    assert_eq!(Sharks(2).recover(&shares), Ok(vec![0x10]));
    // one distinct point is not enough for threshold two, however many clones
    assert_eq!(Sharks(2).recover(&[a.clone(), a.clone(), a]), Err("Not enough shares to recover original secret"));
}

#[test]
fn recover_ignores_order_and_clones_of_dealt_shares() {
    let sharks = Sharks(3);
    let mut rng = StdRng::seed_from_u64(11);
    let shares = sharks.dealer_rng(&[9, 8, 7], &mut rng).take(4);
    let mut mixed: Vec<Share> = shares.iter().rev().cloned().collect();
    mixed.push(shares[1].clone());
    mixed.insert(0, shares[2].clone());
    assert_eq!(sharks.recover(&mixed), Ok(vec![9, 8, 7]));
    assert_eq!(sharks.recover(&mixed), sharks.recover(&shares));
}

#[test]
fn recover_rejects_conflicting_shares_in_any_order() {
    let a = Share { x: GF256(1), y: vec![GF256(0)] };
    let b = Share { x: GF256(1), y: vec![GF256(1)] };
    let c = Share { x: GF256(2), y: vec![GF256(0)] };
    let msg = Err("Shares at the same x must hold the same values");
    assert_eq!(Sharks(2).recover(&[a.clone(), b.clone(), c.clone()]), msg);
    assert_eq!(Sharks(2).recover(&[b.clone(), a.clone(), c.clone()]), msg);
    assert_eq!(Sharks(2).recover(&[c, b, a]), msg);
}

#[test]
fn recover_reports_lengths_before_conflicts() {
    let a = Share { x: GF256(1), y: vec![GF256(0)] };
    let b = Share { x: GF256(1), y: vec![GF256(1)] };
    let c = Share { x: GF256(2), y: vec![GF256(0), GF256(5)] };
    assert_eq!(Sharks(2).recover(&[a.clone(), b.clone(), c.clone()]), Err("All shares must have the same length"));
    assert_eq!(Sharks(2).recover(&[c, b, a]), Err("All shares must have the same length"));
}
