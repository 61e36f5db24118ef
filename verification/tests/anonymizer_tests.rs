use ivyhost::analytics::{capture_event, sha256_hash};

#[test]
fn hash_of_empty_input_is_known_digest() {
    // SHA-256 of the empty string, base64-encoded.
    assert_eq!(
        sha256_hash(b""),
        "47DEQpj8HBSa+/TImW+5JCeuQeRkm5NMpJWZG3hSuFU="
    );
}

#[test]
fn hash_of_hello_is_known_digest() {
    assert_eq!(
        sha256_hash(b"hello"),
        "LPJNul+wow4m6DsqxbninhsWHlwfp0JecwQzYpOLmCQ="
    );
}

#[test]
fn hash_is_deterministic() {
    let inputs: Vec<&[u8]> = vec![b"", b"a", b"10.0.0.1", b"2001:db8::1", b"same client"];
    for input in inputs {
        assert_eq!(sha256_hash(input), sha256_hash(input));
    }
}

#[test]
fn hash_has_no_collisions_on_sample() {
    let mut tokens = Vec::new();
    for i in 0..512u32 {
        let input = format!("192.168.{}.{}", i / 256, i % 256);
        tokens.push(sha256_hash(input.as_bytes()));
    }
    for a in 0..tokens.len() {
        for b in (a + 1)..tokens.len() {
            assert_ne!(tokens[a], tokens[b]);
        }
    }
}

#[test]
fn token_never_contains_the_input() {
    for input in ["10.11.12.13", "fe80::1", "client-一-with-unicode"] {
        let token = sha256_hash(input.as_bytes());
        assert!(!token.contains(input));
        assert_eq!(token.len(), 44);
    }
}

#[test]
fn capture_records_only_successful_responses_with_header() {
    let r = capture_event(Some("1.2.3.4".to_string()), true, "/page".to_string(), 99);
    let req = r.expect("header present and success must capture");
    assert_eq!(req.path, "/page");
    assert_eq!(req.created_at_milis, 99);
    assert_eq!(req.hashed_ip, sha256_hash(b"1.2.3.4"));

    assert!(capture_event(None, true, "/page".to_string(), 99).is_none());
    assert!(capture_event(Some("1.2.3.4".to_string()), false, "/page".to_string(), 99).is_none());
    assert!(capture_event(None, false, "/page".to_string(), 99).is_none());
}
