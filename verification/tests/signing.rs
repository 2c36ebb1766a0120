use blockgraph::encode::{base64_encode, parse_u64, percent_encode, u64_to_dec};
use blockgraph::twitter::{hmac_sha1, Twitter};

fn s(v: Vec<u8>) -> String {
    String::from_utf8(v).unwrap()
}

#[test]
fn percent_encoding_exact_set() {
    // alphanumerics and * - . _ stay; everything else, including ~, escapes
    let out = percent_encode(b"hello world~*-._/");
    assert_eq!(s(out), "hello%20world%7E*-._%2F");
}

#[test]
fn percent_encoding_empty() {
    assert_eq!(percent_encode(b"").len(), 0);
}

#[test]
fn percent_encoding_upper_hex() {
    assert_eq!(s(percent_encode(&[0x0a, 0xff, 0x00])), "%0A%FF%00");
}

#[test]
fn base64_reference_vectors() {
    assert_eq!(s(base64_encode(&b"".to_vec())), "");
    assert_eq!(s(base64_encode(&b"f".to_vec())), "Zg==");
    assert_eq!(s(base64_encode(&b"fo".to_vec())), "Zm8=");
    assert_eq!(s(base64_encode(&b"foo".to_vec())), "Zm9v");
    assert_eq!(s(base64_encode(&b"foob".to_vec())), "Zm9vYg==");
    assert_eq!(s(base64_encode(&b"fooba".to_vec())), "Zm9vYmE=");
    assert_eq!(s(base64_encode(&b"foobar".to_vec())), "Zm9vYmFy");
}

#[test]
fn hmac_sha1_reference_vector() {
    let mac = hmac_sha1(&b"Jefe".to_vec(), &b"what do ya wanna know?".to_vec());
    assert_eq!(s(base64_encode(&mac)), "KLinytT6/rwUZNJMXFtXDYGNn6w=");
}

#[test]
fn hmac_sha1_long_key_is_hashed_first() {
    let key = vec![0x61u8; 100];
    let mac = hmac_sha1(&key, &b"msg".to_vec());
    assert_eq!(s(base64_encode(&mac)), "bHU1QAGHcpzP5Yznn/mXVow/Dqg=");
}

#[test]
fn signature_known_vector() {
    let tw = Twitter::new(
        "ck".to_string(),
        "cs".to_string(),
        "at".to_string(),
        "ats".to_string(),
    );
    let params = vec![
        ("user_id", "12345"),
        ("cursor", "-1"),
        ("stringify_ids", "true"),
        ("count", "5000"),
        ("oauth_consumer_key", "ck"),
        ("oauth_nonce", "1234567890"),
        ("oauth_signature_method", "HMAC-SHA1"),
        ("oauth_timestamp", "1234567890"),
        ("oauth_token", "at"),
        ("oauth_version", "1.0"),
    ];
    let sig = tw.get_oauth_signature(
        "GET",
        "https://api.twitter.com/1.1/friends/ids.json",
        params,
    );
    assert_eq!(sig, "o1EmNFpaC4neuN5P5qw6nTYyJ94=");
}

#[test]
fn authorization_header_known_vector() {
    let tw = Twitter::new(
        "ck".to_string(),
        "cs".to_string(),
        "at".to_string(),
        "ats".to_string(),
    );
    let params = vec![
        ("user_id", "12345"),
        ("cursor", "-1"),
        ("stringify_ids", "true"),
        ("count", "5000"),
    ];
    let hdr = tw.authorization_header_with(
        "GET",
        "https://api.twitter.com/1.1/friends/ids.json",
        params,
        "1234567890",
        "1234567890",
    );
    assert_eq!(
        hdr,
        "OAuth count=\"5000\", cursor=\"-1\", oauth_consumer_key=\"ck\", \
         oauth_nonce=\"1234567890\", oauth_signature=\"o1EmNFpaC4neuN5P5qw6nTYyJ94%3D\", \
         oauth_signature_method=\"HMAC-SHA1\", oauth_timestamp=\"1234567890\", \
         oauth_token=\"at\", oauth_version=\"1.0\", stringify_ids=\"true\", user_id=\"12345\""
    );
}

#[test]
fn signing_is_deterministic() {
    let tw = Twitter::new(
        "k".to_string(),
        "s".to_string(),
        "t".to_string(),
        "ts".to_string(),
    );
    let a = tw.authorization_header_with("GET", "https://example.invalid/x", vec![("b", "2"), ("a", "1")], "7", "7");
    let b = tw.authorization_header_with("GET", "https://example.invalid/x", vec![("b", "2"), ("a", "1")], "7", "7");
    assert_eq!(a, b);
}

#[test]
fn header_sorts_pairs_by_key_then_value() {
    let tw = Twitter::new(
        "k".to_string(),
        "s".to_string(),
        "t".to_string(),
        "ts".to_string(),
    );
    let hdr = tw.authorization_header_with(
        "GET",
        "https://example.invalid/x",
        vec![("z", "1"), ("a", "2"), ("a", "1")],
        "7",
        "7",
    );
    let a1 = hdr.find("a=\"1\"").unwrap();
    let a2 = hdr.find("a=\"2\"").unwrap();
    let z1 = hdr.find("z=\"1\"").unwrap();
    assert!(a1 < a2 && a2 < z1);
}

#[test]
fn decimal_rendering_and_parsing() {
    assert_eq!(s(u64_to_dec(0)), "0");
    assert_eq!(s(u64_to_dec(42)), "42");
    assert_eq!(s(u64_to_dec(18446744073709551615)), "18446744073709551615");
    assert_eq!(parse_u64(b"0"), Some(0));
    assert_eq!(parse_u64(b"12345"), Some(12345));
    assert_eq!(parse_u64(b"18446744073709551615"), Some(18446744073709551615));
    assert_eq!(parse_u64(b"18446744073709551616"), None);
    assert_eq!(parse_u64(b""), None);
    assert_eq!(parse_u64(b"12x"), None);
    assert_eq!(parse_u64(b"-1"), None);
}
