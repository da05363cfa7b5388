use birdflop_tunnel::auth::{encode_tag, Authenticator};
use sha2::{Digest, Sha256};
use uuid::Uuid;

#[test]
fn from_key_matches_new() {
    // The relay builds an authenticator from SHA-256(token); the client from
    // the plaintext token. They must produce matching HMACs.
    let token = "a-very-secret-token";
    let key = Sha256::digest(token.as_bytes());

    let client = Authenticator::new(token);
    let server = Authenticator::from_key(&key);
    let challenge = *Uuid::new_v4().as_bytes();

    assert!(server.validate(&challenge, &client.answer(&challenge)));
    assert!(!server.validate(&challenge, &Authenticator::new("wrong").answer(&challenge)));
}

#[test]
fn validates_only_the_answer() {
    let auth = Authenticator::new("secret");
    let challenge = *Uuid::new_v4().as_bytes();

    assert!(auth.validate(&challenge, &auth.answer(&challenge)));
    assert!(!auth.validate(&challenge, "wrong answer"));
    assert!(!auth.validate(&challenge, ""));
    assert!(!auth.validate(&challenge, &auth.answer(&challenge)[..62]));
    assert!(auth.validate(&challenge, &auth.answer(&challenge).to_uppercase()));
}

#[test]
fn answers_a_known_challenge() {
    let auth = Authenticator::new("a-very-secret-token");
    let challenge: [u8; 16] = [0, 1, 2, 3, 4, 5, 6, 7, 8, 9, 10, 11, 12, 13, 14, 15];
    let answer = "7960dd2dba36f6daa5ed054a989ff76c240e82a036c86480ae7bca6ed84e384a";
    assert_eq!(auth.answer(&challenge), answer);
    assert_eq!(auth.answer(&challenge).len(), 64);
    assert!(auth.validate(&challenge, answer));
}

#[test]
fn tags_are_hexadecimal() {
    assert_eq!(encode_tag(&[0x00, 0x0f, 0xa5, 0xff]), "000fa5ff");
}
