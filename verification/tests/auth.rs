use xioioi::auth::{
    cookie, hash_token, hex, new_token, scrypt_cost_ok, session_key, verify, COOKIE, MAX_AGE,
};

#[test]
fn cookie_finds_the_first_matching_pair() {
    let h = b"a=1; session=abc; session=def";
    assert_eq!(cookie(Some(h), COOKIE), Some("abc".to_string()));
    assert_eq!(cookie(Some(h), "a"), Some("1".to_string()));
    assert_eq!(cookie(Some(h), "b"), None);
}

#[test]
fn cookie_edge_cases() {
    assert_eq!(cookie(None, "session"), None);
    assert_eq!(cookie(Some(b"session=\x7f"), "session"), None);
    assert_eq!(cookie(Some(b"\tsession=x\t"), "session"), Some("x".to_string()));
    assert_eq!(cookie(Some(b" session = x"), "session"), None);
    assert_eq!(cookie(Some(b"x; session="), "session"), Some("".to_string()));
    assert_eq!(cookie(Some(b"session=a=b"), "session"), Some("a=b".to_string()));
    assert_eq!(cookie(Some(b""), "session"), None);
}

#[test]
fn hex_is_lower_case_two_digits_per_byte() {
    assert_eq!(hex(&[0x00, 0xff, 0x1a]), "00ff1a");
    assert_eq!(hex(&[]), "");
}

#[test]
fn token_hash_is_sha256_hex() {
    assert_eq!(hash_token("abc"), "ba7816bf8f01cfea414140de5dae2223b00361a396177a9cb410ff61f20015ad");
    assert_eq!(hash_token("abc"), hash_token("abc"));
    assert_ne!(hash_token("abc"), hash_token("abd"));
}

#[test]
fn new_tokens_are_64_hex_digits() {
    let a = new_token().expect("randomness");
    let b = new_token().expect("randomness");
    assert_eq!(a.len(), 64);
    assert!(a.chars().all(|c| c.is_ascii_digit() || ('a'..='f').contains(&c)));
    assert_ne!(a, b);
}

#[test]
fn sessions_last_thirty_days() {
    assert_eq!(MAX_AGE, 2592000);
}

const CHEAP: &str = "$scrypt$ln=4,r=8,p=1$c2FsdHNhbHQ$+5G/xu8hhej0zM71Fdp4uhawAtWRMUFOkLLIKsrC1EY";

#[test]
fn verify_checks_the_password() {
    assert!(verify("hunter2", Some(CHEAP)));
    assert!(!verify("hunter3", Some(CHEAP)));
}

#[test]
fn verify_rejects_malformed_hashes() {
    assert!(!verify("hunter2", Some("not a hash")));
    assert!(!verify("hunter2", Some("")));
}

#[test]
fn verify_without_a_stored_hash_is_false() {
    assert!(!verify("anything", None));
}

#[test]
fn cookie_alone_gives_its_value() {
    assert_eq!(cookie(Some(b"session=0123abcd"), "session"), Some("0123abcd".to_string()));
}

#[test]
fn session_key_hashes_the_session_cookie() {
    assert_eq!(session_key(Some(b"theme=dark; session=abc")), Some(hash_token("abc")));
    assert_eq!(session_key(Some(b"theme=dark")), None);
    assert_eq!(session_key(None), None);
}

const TAIL: &str = "$c2FsdHNhbHQ$+5G/xu8hhej0zM71Fdp4uhawAtWRMUFOkLLIKsrC1EY";

fn with_params(params: &str) -> String {
    format!("$scrypt${}{}", params, TAIL)
}

#[test]
fn verify_refuses_a_cost_scrypt_cannot_take() {
    // r·p = 2^32 would overflow scrypt's own u32 check.
    assert!(!verify("hunter2", Some(&with_params("ln=0,r=65536,p=65536"))));
    // r·p = 2^30 is scrypt's limit.
    assert!(!verify("hunter2", Some(&with_params("ln=0,r=65536,p=16384"))));
}

#[test]
fn scrypt_cost_bounds() {
    assert!(scrypt_cost_ok(CHEAP));
    assert!(scrypt_cost_ok(&with_params("ln=0,r=65536,p=16383")));
    assert!(!scrypt_cost_ok(&with_params("ln=0,r=65536,p=16384")));
    assert!(!scrypt_cost_ok(&with_params("ln=64,r=1,p=1")));
    assert!(!scrypt_cost_ok(&with_params("ln=56,r=1,p=1")));
    assert!(scrypt_cost_ok(&with_params("ln=55,r=1,p=1")));
    // Defaults: ln=17, r=8, p=1.
    assert!(scrypt_cost_ok("$scrypt$c2FsdHNhbHQ$+5G/xu8hhej0zM71Fdp4uhawAtWRMUFOkLLIKsrC1EY"));
    assert!(!scrypt_cost_ok(&with_params("p=134217728")));
    assert!(scrypt_cost_ok(&with_params("p=134217727")));
    // The last pair that sets a parameter counts; a value that is no decimal sets nothing.
    assert!(scrypt_cost_ok(&with_params("r=70000,r=8,p=65536")));
    assert!(!scrypt_cost_ok(&with_params("r=8,r=70000,p=65536")));
    assert!(scrypt_cost_ok(&with_params("r=070000,p=65536")));
    assert!(scrypt_cost_ok(&with_params("r=4294967296,p=65536")));
}
