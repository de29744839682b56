use veil::mpc::{aggregate_secrets, combine_command, split_command};
use veil::secret_sharing::{combine_secret_shares, split_secret, strip_leading_zeros, ShareError};

#[test]
fn test_split_and_combine() {
    let secret = b"hello veil";
    let n = 5;
    let k = 3;

    let shares = split_secret(secret, n, k).expect("Split should work");
    assert_eq!(shares.len(), n);

    let reconstructed = combine_secret_shares(&shares[0..k]).expect("Combine should work");
    assert_eq!(reconstructed, secret);
}

#[test]
fn every_three_of_five_reconstruct() {
    let secret = b"hello veil";
    let shares = split_secret(secret, 5, 3).unwrap();
    assert_eq!(shares.len(), 5);
    for (i, s) in shares.iter().enumerate() {
        assert_eq!(s.len(), 33);
        assert_eq!(s[0] as usize, i + 1);
    }
    for a in 0..5 {
        for b in 0..5 {
            for c in 0..5 {
                if a != b && b != c && a != c {
                    let picked = vec![shares[a].clone(), shares[b].clone(), shares[c].clone()];
                    assert_eq!(combine_secret_shares(&picked).unwrap(), secret.to_vec());
                }
            }
        }
    }
    let all = combine_secret_shares(&shares).unwrap();
    assert_eq!(all, secret.to_vec());
}

#[test]
fn two_of_threshold_three_do_not_reconstruct() {
    let secret = b"hello veil";
    let shares = split_secret(secret, 5, 3).unwrap();
    let two = vec![shares[0].clone(), shares[3].clone()];
    match combine_secret_shares(&two) {
        Ok(v) => assert_ne!(v, secret.to_vec()),
        Err(e) => assert_eq!(e, ShareError::ReconstructionFailure),
    }
}

#[test]
fn split_rejects_bad_thresholds() {
    assert_eq!(split_secret(b"abc", 3, 4), Err(ShareError::InvalidThreshold));
    assert_eq!(split_secret(b"abc", 3, 0), Err(ShareError::InvalidThreshold));
    assert_eq!(split_secret(b"abc", 0, 0), Err(ShareError::InvalidThreshold));
    assert_eq!(split_secret(b"abc", 3, 1), Err(ShareError::InvalidThreshold));
    assert_eq!(split_secret(b"abc", 256, 2), Err(ShareError::InvalidThreshold));
}

#[test]
fn split_rejects_long_secret() {
    let secret = [7u8; 33];
    assert_eq!(split_secret(&secret, 3, 2), Err(ShareError::SecretTooLarge));
}

#[test]
fn split_rejects_out_of_field_secret() {
    let secret = [0xffu8; 32];
    assert_eq!(split_secret(&secret, 3, 2), Err(ShareError::InvalidEncoding));
}

#[test]
fn split_accepts_thirty_two_bytes() {
    let secret = [0x11u8; 32];
    let shares = split_secret(&secret, 3, 2).unwrap();
    assert_eq!(combine_secret_shares(&shares[1..3]).unwrap(), secret.to_vec());
}

#[test]
fn combine_needs_two_shares() {
    let shares = split_secret(b"x", 3, 2).unwrap();
    assert_eq!(combine_secret_shares(&shares[0..1]), Err(ShareError::InsufficientShares));
    assert_eq!(combine_secret_shares(&[]), Err(ShareError::InsufficientShares));
}

#[test]
fn combine_rejects_wrong_length() {
    let shares = split_secret(b"x", 3, 2).unwrap();
    let mut short = shares[1].clone();
    short.pop();
    let picked = vec![shares[0].clone(), short];
    assert_eq!(combine_secret_shares(&picked), Err(ShareError::MalformedShare));
}

#[test]
fn combine_rejects_identifier_zero() {
    let shares = split_secret(b"x", 3, 2).unwrap();
    let mut bad = shares[1].clone();
    bad[0] = 0;
    let picked = vec![shares[0].clone(), bad];
    assert_eq!(combine_secret_shares(&picked), Err(ShareError::MalformedShare));
}

#[test]
fn combine_rejects_value_outside_field() {
    let shares = split_secret(b"x", 3, 2).unwrap();
    let mut bad = vec![2u8];
    bad.extend_from_slice(&[0xffu8; 32]);
    let picked = vec![shares[0].clone(), bad];
    assert_eq!(combine_secret_shares(&picked), Err(ShareError::InvalidEncoding));
}

#[test]
fn combine_rejects_repeated_identifier() {
    let shares = split_secret(b"x", 3, 2).unwrap();
    let picked = vec![shares[0].clone(), shares[0].clone()];
    assert_eq!(combine_secret_shares(&picked), Err(ShareError::ReconstructionFailure));
}

#[test]
fn all_zero_secret_keeps_one_byte() {
    let shares = split_secret(&[0u8, 0, 0], 3, 2).unwrap();
    assert_eq!(combine_secret_shares(&shares[0..2]).unwrap(), vec![0u8]);
}

#[test]
fn strip_keeps_last_byte() {
    assert_eq!(strip_leading_zeros(&vec![0, 0, 5, 0]), vec![5, 0]);
    assert_eq!(strip_leading_zeros(&vec![0, 0, 0]), vec![0]);
    assert_eq!(strip_leading_zeros(&vec![]), Vec::<u8>::new());
}

#[test]
fn split_and_combine_commands_round_trip() {
    let hex_shares = split_command("hello veil", 3, 5).unwrap();
    assert_eq!(hex_shares.len(), 5);
    for h in &hex_shares {
        assert_eq!(h.len(), 66);
        assert!(h.chars().all(|c| c.is_ascii_hexdigit() && !c.is_ascii_uppercase()));
    }
    let picked: Vec<&str> = vec![&hex_shares[4], &hex_shares[0], &hex_shares[2]];
    assert_eq!(combine_command(picked).unwrap(), "hello veil");
}

#[test]
fn combine_command_accepts_uppercase_hex() {
    let hex_shares = split_command("abc", 2, 3).unwrap();
    let upper: Vec<String> = hex_shares.iter().map(|h| h.to_uppercase()).collect();
    let picked: Vec<&str> = vec![&upper[0], &upper[1]];
    assert_eq!(combine_command(picked).unwrap(), "abc");
}

#[test]
fn combine_command_rejects_non_hex() {
    assert_eq!(combine_command(vec!["zz", "00"]), Err(ShareError::MalformedShare));
    assert_eq!(combine_command(vec!["abc", "00"]), Err(ShareError::MalformedShare));
}

#[test]
fn combine_command_rejects_non_utf8_secret() {
    let shares = split_secret(&[0xc3u8, 0x28], 3, 2).unwrap();
    let hex: Vec<String> = shares.iter().map(|s| s.iter().map(|b| format!("{:02x}", b)).collect()).collect();
    let picked: Vec<&str> = vec![&hex[0], &hex[1]];
    assert_eq!(combine_command(picked), Err(ShareError::InvalidEncoding));
}

#[test]
fn aggregate_xors_two_parties() {
    let a = b"ABCD";
    let b = b"wxyz";
    let sa = split_secret(a, 3, 2).unwrap();
    let sb = split_secret(b, 3, 2).unwrap();
    let out = aggregate_secrets(vec![sa[0..2].to_vec(), sb[1..3].to_vec()]).unwrap();
    let expected: Vec<u8> = a.iter().zip(b.iter()).map(|(x, y)| x ^ y).collect();
    assert_eq!(out, expected);
}

#[test]
fn aggregate_pads_shorter_secret() {
    let sa = split_secret(&[1u8, 2, 3], 2, 2).unwrap();
    let sb = split_secret(&[0x10u8], 2, 2).unwrap();
    let out = aggregate_secrets(vec![sa.clone(), sb.clone()]).unwrap();
    assert_eq!(out, vec![0x11, 2, 3]);
    let out = aggregate_secrets(vec![sb, sa]).unwrap();
    assert_eq!(out, vec![0x11, 2, 3]);
}

#[test]
fn aggregate_single_party_is_its_secret() {
    let sa = split_secret(b"solo", 2, 2).unwrap();
    assert_eq!(aggregate_secrets(vec![sa]).unwrap(), b"solo".to_vec());
}

#[test]
fn aggregate_rejects_empty_and_bad_party() {
    assert_eq!(aggregate_secrets(vec![]), Err(ShareError::InsufficientShares));
    let sa = split_secret(b"ok", 2, 2).unwrap();
    assert_eq!(
        aggregate_secrets(vec![sa, vec![vec![1u8; 10], vec![2u8; 10]]]),
        Err(ShareError::MalformedShare)
    );
}

#[test]
fn combine_refuses_value_the_zero_test_cannot_read() {
    let shares = split_secret(b"x", 3, 2).unwrap();
    let mut odd = vec![3u8, 0x80];
    odd.extend_from_slice(&[0u8; 31]);
    let picked = vec![shares[0].clone(), odd];
    assert_eq!(combine_secret_shares(&picked), Err(ShareError::ReconstructionFailure));
}

#[test]
fn combine_refuses_zero_value() {
    let shares = split_secret(b"x", 3, 2).unwrap();
    let mut zero = vec![3u8];
    zero.extend_from_slice(&[0u8; 32]);
    let picked = vec![shares[0].clone(), zero];
    assert_eq!(combine_secret_shares(&picked), Err(ShareError::ReconstructionFailure));
}

#[test]
fn leading_zero_bytes_of_a_secret_are_not_recovered() {
    let shares = split_secret(&[0u8, 1, 2], 2, 2).unwrap();
    assert_eq!(combine_secret_shares(&shares).unwrap(), vec![1u8, 2]);
}

#[test]
fn wrong_length_wins_over_earlier_bad_value() {
    let shares = split_secret(b"x", 3, 2).unwrap();
    let mut bad_value = vec![2u8];
    bad_value.extend_from_slice(&[0xffu8; 32]);
    let short = vec![3u8; 10];
    let picked = vec![shares[0].clone(), bad_value, short];
    assert_eq!(combine_secret_shares(&picked), Err(ShareError::MalformedShare));
}

#[test]
fn bad_value_wins_over_earlier_identifier_zero() {
    let shares = split_secret(b"x", 3, 2).unwrap();
    let mut zero_id = shares[1].clone();
    zero_id[0] = 0;
    let mut bad_value = vec![2u8];
    bad_value.extend_from_slice(&[0xffu8; 32]);
    let picked = vec![zero_id, bad_value];
    assert_eq!(combine_secret_shares(&picked), Err(ShareError::InvalidEncoding));
}

#[test]
fn out_of_field_secret_is_reported_before_scheme_limits() {
    let secret = [0xffu8; 32];
    assert_eq!(split_secret(&secret, 3, 1), Err(ShareError::InvalidEncoding));
    assert_eq!(split_secret(&secret, 300, 2), Err(ShareError::InvalidEncoding));
    assert_eq!(split_secret(&secret, 2, 3), Err(ShareError::InvalidThreshold));
    assert_eq!(split_secret(b"ok", 300, 2), Err(ShareError::InvalidThreshold));
}

#[test]
fn share_error_messages() {
    assert_eq!(ShareError::InvalidThreshold.message(), "invalid threshold");
    assert_eq!(ShareError::SecretTooLarge.message(), "secret too long; max 32 bytes");
}
