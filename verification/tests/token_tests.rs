use sha2::Digest;

use mastersrv_config::token::CommunityToken;
use mastersrv_config::token::PresentedTokenError;
use mastersrv_config::token::Sha256;
use mastersrv_config::token::StoredTokenError;
use mastersrv_config::token::split_presented;
use mastersrv_config::token::split_stored;

const SECRET: &str = "0123456789abcdefghijklmn";  // 24 characters

#[test]
fn split_presented_returns_prefix_and_digest() {
    let token = format!("ABCDEF{}", SECRET);
    assert_eq!(token.len(), 30);
    let (prefix, h) = split_presented(&token).unwrap();
    assert_eq!(prefix, "ABCDEF");
    let expected = Sha256::new(sha2::Sha256::digest(SECRET.as_bytes()).to_vec());
    assert!(h.constant_time_eq(&expected));
}

#[test]
fn split_presented_distinguishes_stored_form() {
    let stored_like = "ABCDEFAAAAAAAAAAAAAAAAAAAAAA";  // 28 characters
    assert_eq!(stored_like.len(), 28);
    assert_eq!(
        split_presented(stored_like).unwrap_err(),
        PresentedTokenError::LooksStored,
    );
    assert_eq!(
        split_presented("too short").unwrap_err(),
        PresentedTokenError::Invalid,
    );
    assert_eq!(
        split_presented("this is far too long to be a presented token").unwrap_err(),
        PresentedTokenError::Invalid,
    );
}

#[test]
fn split_stored_distinguishes_presented_form() {
    let presented = format!("ABCDEF{}", SECRET);
    assert_eq!(
        split_stored(&presented, "community").unwrap_err(),
        StoredTokenError::LooksPresented,
    );
    assert_eq!(
        split_stored("short", "community").unwrap_err(),
        StoredTokenError::Invalid,
    );
}

#[test]
fn split_stored_rejects_undecodable_hash_part() {
    // 28 characters, but the hash part holds a character outside the
    // URL-safe base64 alphabet.
    let entry = "ABCDEF!AAAAAAAAAAAAAAAAAAAAA";
    assert_eq!(entry.len(), 28);
    assert_eq!(
        split_stored(entry, "community").unwrap_err(),
        StoredTokenError::Invalid,
    );
    // 28 characters of clean base64: the 22-character hash part decodes,
    // but not to the 32 bytes a digest needs, so the entry is rejected.
    let entry2 = "ABCDEFAAAAAAAAAAAAAAAAAAAAAA";
    assert_eq!(entry2.len(), 28);
    assert_eq!(
        split_stored(entry2, "community").unwrap_err(),
        StoredTokenError::Invalid,
    );
}

#[test]
fn community_token_enforces_length_bound() {
    let token = format!("ABCDEF{}", SECRET);
    let (_, h) = split_presented(&token).unwrap();
    let ok = CommunityToken::new(h, "x".repeat(28));
    assert!(ok.is_some());

    let token2 = format!("ABCDEF{}", SECRET);
    let (_, h2) = split_presented(&token2).unwrap();
    assert!(CommunityToken::new(h2, "x".repeat(29)).is_none());
}

#[test]
fn constant_time_eq_compares_all_bytes() {
    let a = Sha256::new(vec![0u8; 32]);
    let b = Sha256::new(vec![0u8; 32]);
    assert!(a.constant_time_eq(&b));

    let mut first = vec![0u8; 32];
    first[0] = 1;
    let c = Sha256::new(first);
    assert!(!a.constant_time_eq(&c));

    let mut last = vec![0u8; 32];
    last[31] = 1;
    let d = Sha256::new(last);
    assert!(!a.constant_time_eq(&d));
    assert!(!c.constant_time_eq(&d));
}

#[test]
fn presented_digest_matches_encoded_stored_digest() {
    // The stored form of a token is the base64url-nopad encoding of the
    // digest that splitting the presented form computes.  Decoding that
    // encoding gives back the digest that was encoded.
    let token = format!("ABCDEF{}", SECRET);
    let (_, h) = split_presented(&token).unwrap();
    let digest = sha2::Sha256::digest(SECRET.as_bytes()).to_vec();
    let encoded = base64::encode_config(&digest, base64::URL_SAFE_NO_PAD);
    let decoded = base64::decode_config(&encoded, base64::URL_SAFE_NO_PAD).unwrap();
    assert_eq!(decoded, digest);
    assert!(h.constant_time_eq(&Sha256::new(decoded)));
}
