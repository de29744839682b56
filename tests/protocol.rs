use veil::aes::AesEncryptor;
use veil::protocol::{handle_request, parse_command, parse_count, Command, ProtocolError, TransformVerb};

fn demo_cipher() -> AesEncryptor {
    AesEncryptor::new(vec![0u8; 32], vec![0u8; 16]).unwrap()
}

#[test]
fn hash_request_gives_64_hex_chars() {
    let out = handle_request("hash|testmessage", &[7u8; 16], &demo_cipher()).to_text();
    assert_eq!(out.len(), 64);
    assert!(out.chars().all(|c| c.is_ascii_digit() || ('a'..='f').contains(&c)));
}

#[test]
fn reverse_request_appends_hex_salt() {
    let out = handle_request("reverse|abc123", &[0xabu8; 16], &demo_cipher()).to_text();
    let expected: String = format!("abc123{}", "ab".repeat(16)).chars().rev().collect();
    assert_eq!(out, expected);
}

#[test]
fn aes_request_gives_ciphertext_hex() {
    let out = handle_request("aes|securetext", &[0u8; 16], &demo_cipher()).to_text();
    assert_eq!(
        out,
        "779bed7e911c0721233dc154a826f8a14cf43c1880dde04c517e1a1f17eba38acf3ef33840321d194ba37f397a5fa472"
    );
}

#[test]
fn zero_threshold_split_request_is_an_error() {
    let out = handle_request("split|secret|0|0", &[0u8; 16], &demo_cipher()).to_text();
    assert!(out.starts_with("Error: "));
    let again = handle_request("hash|testmessage", &[0u8; 16], &demo_cipher()).to_text();
    assert_eq!(again.len(), 64);
}

#[test]
fn split_then_combine_requests() {
    let shares = handle_request("split|hello veil|3|5", &[0u8; 16], &demo_cipher()).to_text();
    let parts: Vec<&str> = shares.split(',').collect();
    assert_eq!(parts.len(), 5);
    let request = format!("combine|{},{},{}", parts[1], parts[2], parts[4]);
    let out = handle_request(&request, &[0u8; 16], &demo_cipher()).to_text();
    assert_eq!(out, "hello veil");
}

#[test]
fn mpc_request_xors_parties() {
    let a = handle_request("split|ABCD|2|2", &[0u8; 16], &demo_cipher()).to_text();
    let b = handle_request("split|wxyz|2|2", &[0u8; 16], &demo_cipher()).to_text();
    let request = format!("mpc|{}|{}", a, b);
    let out = handle_request(&request, &[0u8; 16], &demo_cipher()).to_text();
    let expected: String = b"ABCD"
        .iter()
        .zip(b"wxyz".iter())
        .map(|(x, y)| format!("{:02x}", x ^ y))
        .collect();
    assert_eq!(out, expected);
}

#[test]
fn mpc_request_with_bad_hex_is_an_error() {
    let out = handle_request("mpc|zz,qq", &[0u8; 16], &demo_cipher()).to_text();
    assert!(out.starts_with("Error: "));
}

#[test]
fn parse_reads_each_verb() {
    assert!(matches!(
        parse_command("hash|a|b"),
        Ok(Command::Transform(TransformVerb::Hash, ref p)) if p == "a|b"
    ));
    assert!(matches!(
        parse_command("aes|"),
        Ok(Command::Transform(TransformVerb::Aes, ref p)) if p.is_empty()
    ));
    assert!(matches!(
        parse_command("split|s|+3|x"),
        Ok(Command::Split(ref s, 3, 0)) if s == "s"
    ));
    match parse_command("combine|aa,bb,") {
        Ok(Command::Combine(v)) => assert_eq!(v, vec!["aa", "bb", ""]),
        other => panic!("unexpected {:?}", other),
    }
    match parse_command("mpc|a,b|c") {
        Ok(Command::Aggregate(v)) => assert_eq!(v, vec![vec!["a", "b"], vec!["c"]]),
        other => panic!("unexpected {:?}", other),
    }
}

#[test]
fn parse_reports_errors_with_verb() {
    assert!(matches!(
        parse_command("encrypt|x"),
        Err(ProtocolError::UnknownCommand(ref v)) if v == "encrypt"
    ));
    assert!(matches!(
        parse_command("split|a|1"),
        Err(ProtocolError::MalformedCommand(ref v)) if v == "split"
    ));
    assert!(matches!(
        parse_command("hash"),
        Err(ProtocolError::MalformedCommand(ref v)) if v == "hash"
    ));
    let out = handle_request("nope|x", &[0u8; 16], &demo_cipher()).to_text();
    assert!(out.starts_with("Error: "));
}

#[test]
fn counts_parse_like_integers() {
    assert_eq!(parse_count("42"), 42);
    assert_eq!(parse_count("+7"), 7);
    assert_eq!(parse_count(""), 0);
    assert_eq!(parse_count("+"), 0);
    assert_eq!(parse_count("-1"), 0);
    assert_eq!(parse_count("12a"), 0);
    assert_eq!(parse_count("99999999999999999999999"), 0);
    assert_eq!(parse_count("18446744073709551615"), usize::MAX);
}

#[test]
fn error_responses_name_the_verb() {
    let out = handle_request("nope|x", &[0u8; 16], &demo_cipher()).to_text();
    assert_eq!(out, "Error: unknown command: nope");
    let out = handle_request("hash", &[0u8; 16], &demo_cipher()).to_text();
    assert_eq!(out, "Error: malformed command: hash");
    let out = handle_request("split|a|1", &[0u8; 16], &demo_cipher()).to_text();
    assert_eq!(out, "Error: malformed command: split");
    let out = handle_request("split|secret|0|0", &[0u8; 16], &demo_cipher()).to_text();
    assert_eq!(out, "Error: invalid threshold");
}
