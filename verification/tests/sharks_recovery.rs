use sharks::{Share, Sharks, GF256};

fn renew_all_shares_for_all_players(shares: &mut Vec<Share>, renewals: Vec<Vec<Share>>) {
    for (i, share) in shares.iter_mut().enumerate() {
        let player_renewals: Vec<&Share> = renewals.iter().map(|r| &r[i]).collect();
        let result = share.renew(&player_renewals);
        assert!(result.is_ok());
    }
}

#[test]
fn test_insufficient_shares_err() {
    let sharks = Sharks(255);
    let shares: Vec<Share> = sharks.dealer(&[1]).take(254);
    let secret = sharks.recover(&shares);
    assert!(secret.is_err());
}

#[test]
fn test_duplicate_shares_err() {
    let sharks = Sharks(255);
    let mut shares: Vec<Share> = sharks.dealer(&[1]).take(255);
    shares[1] = Share {
        x: shares[0].x.clone(),
        y: shares[0].y.clone(),
    };
    let secret = sharks.recover(&shares);
    assert!(secret.is_err());
}

#[test]
fn test_integration_works() {
    let sharks = Sharks(255);
    let shares: Vec<Share> = sharks.dealer(&[1, 2, 3, 4]).take(255);
    let secret = sharks.recover(&shares).unwrap();
    assert_eq!(secret, vec![1, 2, 3, 4]);
}

#[test]
fn test_proactive_dealer_generates_shares() {
    let sharks = Sharks(3);
    let shares: Vec<Share> = sharks.dealer(b"secret").take(3);
    let renewal_shares: Vec<Share> = sharks.proactive_dealer(&shares[0]).take(3);
    assert_eq!(renewal_shares.len(), 3);
    for rs in &renewal_shares {
        assert_eq!(rs.y.len(), shares[0].y.len());
    }
}

#[test]
fn test_proactive_dealer_x_values_are_sequential() {
    let sharks = Sharks(2);
    let shares: Vec<Share> = sharks.dealer(b"test").take(2);
    let renewal_shares: Vec<Share> = sharks.proactive_dealer(&shares[0]).take(5);
    for (i, rs) in renewal_shares.iter().enumerate() {
        assert_eq!(rs.x, GF256((i + 1) as u8));
    }
}

#[test]
fn test_proactive_renewal_two_players() {
    let sharks = Sharks(2);
    let secret = b"a_secret";
    let mut shares: Vec<Share> = sharks.dealer(secret).take(2);

    let (shares_player1, shares_player2) = shares.split_at_mut(1);
    let share_player1 = &mut shares_player1[0];
    let share_player2 = &mut shares_player2[0];

    let renewal_from_p1: Vec<Share> = sharks.proactive_dealer(share_player1).take(2);
    let renewal_from_p2: Vec<Share> = sharks.proactive_dealer(share_player2).take(2);

    let result1 = share_player1.renew(&[&renewal_from_p1[0], &renewal_from_p2[0]]);
    assert!(result1.is_ok());

    let result2 = share_player2.renew(&[&renewal_from_p2[1], &renewal_from_p1[1]]);
    assert!(result2.is_ok());

    let recovered = sharks.recover(&shares).unwrap();
    assert_eq!(recovered, secret);
}

#[test]
fn test_proactive_renewal_three_players_threshold_two() {
    let sharks = Sharks(2);
    let secret = b"three_players";
    let mut shares: Vec<Share> = sharks.dealer(secret).take(3);

    let renewals: Vec<Vec<Share>> = shares
        .iter()
        .map(|s| sharks.proactive_dealer(s).take(3))
        .collect();

    renew_all_shares_for_all_players(&mut shares, renewals);

    let recovered = sharks.recover(&shares[..2]).unwrap();
    assert_eq!(recovered, secret);

    let recovered = sharks.recover(&shares[1..]).unwrap();
    assert_eq!(recovered, secret);
}

#[test]
fn test_proactive_multiple_renewal_rounds() {
    let sharks = Sharks(2);
    let secret = b"multi_round";
    let mut shares: Vec<Share> = sharks.dealer(secret).take(2);

    for _ in 0..5 {
        let (shares_p1, shares_p2) = shares.split_at_mut(1);
        let sp1 = &mut shares_p1[0];
        let sp2 = &mut shares_p2[0];

        let renewal_from_p1: Vec<Share> = sharks.proactive_dealer(sp1).take(2);
        let renewal_from_p2: Vec<Share> = sharks.proactive_dealer(sp2).take(2);

        sp1.renew(&[&renewal_from_p1[0], &renewal_from_p2[0]]).unwrap();
        sp2.renew(&[&renewal_from_p2[1], &renewal_from_p1[1]]).unwrap();
    }

    let recovered = sharks.recover(&shares).unwrap();
    assert_eq!(recovered, secret);
}

#[test]
fn test_proactive_renewal_single_byte_secret() {
    let sharks = Sharks(2);
    let secret = &[42u8];
    let mut shares: Vec<Share> = sharks.dealer(secret).take(2);

    let (shares_p1, shares_p2) = shares.split_at_mut(1);
    let sp1 = &mut shares_p1[0];
    let sp2 = &mut shares_p2[0];

    let renewal_from_p1: Vec<Share> = sharks.proactive_dealer(sp1).take(2);
    let renewal_from_p2: Vec<Share> = sharks.proactive_dealer(sp2).take(2);

    sp1.renew(&[&renewal_from_p1[0], &renewal_from_p2[0]]).unwrap();
    sp2.renew(&[&renewal_from_p2[1], &renewal_from_p1[1]]).unwrap();

    let recovered = sharks.recover(&shares).unwrap();
    assert_eq!(recovered, secret);
}

#[test]
fn test_proactive_renewal_changes_shares() {
    let sharks = Sharks(2);
    let secret = b"changes";
    let mut shares: Vec<Share> = sharks.dealer(secret).take(3);
    let original_ys: Vec<_> = shares.iter().map(|s| s.y.clone()).collect();

    let renewals: Vec<Vec<Share>> = shares
        .iter()
        .map(|s| sharks.proactive_dealer(s).take(3))
        .collect();

    renew_all_shares_for_all_players(&mut shares, renewals);

    let any_changed = shares.iter().zip(original_ys.iter()).any(|(s, orig)| s.y != *orig);
    assert!(any_changed);
}

#[test]
fn test_proactive_old_shares_cannot_recover_after_renewal() {
    let sharks = Sharks(2);
    let secret = b"old_shares";
    let mut shares: Vec<Share> = sharks.dealer(secret).take(3);

    let old_share_0 = shares[0].clone();
    let _old_share_1 = shares[1].clone();

    let renewals: Vec<Vec<Share>> = shares
        .iter()
        .map(|s| sharks.proactive_dealer(s).take(3))
        .collect();

    renew_all_shares_for_all_players(&mut shares, renewals);

    let mixed = vec![old_share_0, shares[2].clone()];
    let recovered = sharks.recover(&mixed).unwrap();
    let original_recovered = sharks.recover(&shares[..2]).unwrap();
    assert_eq!(original_recovered, secret);
    assert_ne!(recovered.as_slice(), secret);
}

#[test]
fn test_proactive_renewal_preserves_x_values() {
    let sharks = Sharks(3);
    let secret = b"preserve_x";
    let mut shares: Vec<Share> = sharks.dealer(secret).take(3);
    let original_xs: Vec<_> = shares.iter().map(|s| s.x.clone()).collect();

    let renewals: Vec<Vec<Share>> = shares
        .iter()
        .map(|s| sharks.proactive_dealer(s).take(3))
        .collect();

    renew_all_shares_for_all_players(&mut shares, renewals);

    for (share, original_x) in shares.iter().zip(original_xs.iter()) {
        assert_eq!(share.x, *original_x);
    }
}

#[test]
fn test_proactive_renewal_higher_threshold() {
    let sharks = Sharks(5);
    let secret = b"high_threshold_secret";
    let num_players = 7u8;
    let mut shares: Vec<Share> = sharks.dealer(secret).take(num_players as usize);

    let renewals: Vec<Vec<Share>> = shares
        .iter()
        .map(|s| sharks.proactive_dealer(s).take(num_players as usize))
        .collect();

    renew_all_shares_for_all_players(&mut shares, renewals);

    let recovered = sharks.recover(&shares[..5]).unwrap();
    assert_eq!(recovered, secret);

    let insufficient = sharks.recover(&shares[..4]);
    assert!(insufficient.is_err());
}
