use sharks::{Share, Sharks, GF256};

#[test]
fn renew_adds_values() {
    let mut share = Share { x: GF256(3), y: vec![GF256(1), GF256(2)] };
    let r1 = Share { x: GF256(3), y: vec![GF256(4), GF256(4)] };
    let r2 = Share { x: GF256(3), y: vec![GF256(1), GF256(0)] };
    assert_eq!(share.renew(&[&r1, &r2]), Ok(()));
    assert_eq!(share.x, GF256(3));
    assert_eq!(share.y, vec![GF256(4), GF256(6)]);
}

#[test]
fn renew_rejects_wrong_length_after_applying_earlier() {
    let mut share = Share { x: GF256(3), y: vec![GF256(1), GF256(2)] };
    let good = Share { x: GF256(3), y: vec![GF256(4), GF256(4)] };
    let short = Share { x: GF256(3), y: vec![GF256(4)] };
    assert_eq!(share.renew(&[&good, &short]), Err("All shares must have the same length"));
    assert_eq!(share.y, vec![GF256(5), GF256(6)]);
}

#[test]
fn renew_rejects_other_point() {
    let mut share = Share { x: GF256(3), y: vec![GF256(1), GF256(2)] };
    let other = Share { x: GF256(4), y: vec![GF256(4), GF256(4)] };
    assert_eq!(share.renew(&[&other]), Err("Invalid renewal share supplied"));
    assert_eq!(share.y, vec![GF256(1), GF256(2)]);
}

#[test]
fn renew_with_nothing_is_identity() {
    let mut share = Share { x: GF256(3), y: vec![GF256(1)] };
    assert_eq!(share.renew(&[]), Ok(()));
    assert_eq!(share.y, vec![GF256(1)]);
}

#[test]
fn renewal_round_keeps_secret_concrete() {
    // Three players, threshold three, every player renews from every renewal dealer.
    let sharks = Sharks(3);
    let secret = [9u8, 200, 0, 17];
    let mut shares = sharks.dealer(&secret).take(3);
    let renewals: Vec<Vec<Share>> = shares.iter().map(|s| sharks.proactive_dealer(s).take(3)).collect();
    for (i, share) in shares.iter_mut().enumerate() {
        let mine: Vec<&Share> = renewals.iter().map(|r| &r[i]).collect();
        assert_eq!(share.renew(&mine), Ok(()));
    }
    assert_eq!(sharks.recover(&shares), Ok(secret.to_vec()));
}

#[test]
fn renewals_compose_and_commute() {
    let base = Share { x: GF256(5), y: vec![GF256(1), GF256(2), GF256(3)] };
    let r1 = Share { x: GF256(5), y: vec![GF256(10), GF256(0), GF256(7)] };
    let r2 = Share { x: GF256(5), y: vec![GF256(3), GF256(3), GF256(3)] };
    let r3 = Share { x: GF256(5), y: vec![GF256(0), GF256(9), GF256(1)] };
    let mut s1 = base.clone();
    assert_eq!(s1.renew(&[&r1]), Ok(()));
    assert_eq!(s1.renew(&[&r2, &r3]), Ok(()));
    let mut s2 = base.clone();
    assert_eq!(s2.renew(&[&r3, &r1, &r2]), Ok(()));
    assert_eq!(s1.y, s2.y);
    assert_eq!(s1.y, vec![GF256(1 ^ 10 ^ 3 ^ 0), GF256(2 ^ 0 ^ 3 ^ 9), GF256(3 ^ 7 ^ 3 ^ 1)]);
}

#[test]
fn mixing_old_and_renewed_share_shifts_secret() {
    // f(x) = 6x + 4; shares at 1 and 2. Renewing the second share by d changes the
    // recovered byte by basis * d with basis = 1 / (1 - 2) = inverse of 3.
    let old1 = Share { x: GF256(1), y: vec![GF256(6 ^ 4)] };
    let old2 = Share { x: GF256(2), y: vec![GF256(12 ^ 4)] };
    assert_eq!(Sharks(2).recover(&[old1.clone(), old2.clone()]), Ok(vec![4]));
    let mut new2 = old2.clone();
    let r = Share { x: GF256(2), y: vec![GF256(5)] };
    assert_eq!(new2.renew(&[&r]), Ok(()));
    let shift = GF256(1).divide(GF256(3)).times(GF256(5));
    assert_eq!(Sharks(2).recover(&[old1, new2]), Ok(vec![4 ^ shift.0]));
    assert_ne!(shift.0, 0);
}
