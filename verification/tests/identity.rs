use birdflop_tunnel::auth::Authenticator;
use birdflop_tunnel::identity::{
    now, random_subdomain, random_token, seconds_or_zero, subdomain_from, token_from, Identity,
    IdentityStore,
};
use uuid::Uuid;

/// What a saved store is read back as: the same entries in another order.
fn reload(store: &IdentityStore) -> IdentityStore {
    let mut saved = Vec::new();
    for (key, identity) in store.entries().iter().rev() {
        saved.push((
            key.clone(),
            Identity {
                subdomain: identity.subdomain.clone(),
                token_hash: identity.token_hash.clone(),
                created_at: identity.created_at,
            },
        ));
    }
    IdentityStore::load(Some(saved))
}

#[test]
fn issue_then_authenticate() {
    let mut store = IdentityStore::load(None);

    let (subdomain, token) = store.issue().unwrap();
    assert_eq!(subdomain.len(), 6);

    // The relay reconstructs the authenticator from the stored key and can
    // validate an answer the client computes from the plaintext token.
    let key = store.token_key(&subdomain).expect("key present");
    let server = Authenticator::from_key(&key);
    let client = Authenticator::new(&token);
    let challenge = *Uuid::new_v4().as_bytes();
    assert!(server.validate(&challenge, &client.answer(&challenge)));

    assert!(store.token_key("nope").is_none());
}

#[test]
fn persists_across_reload() {
    let mut store = IdentityStore::load(None);
    let subdomain = store.issue().unwrap().0;
    // A fresh store loaded from the same entries still knows the identity.
    let reloaded = reload(&store);
    assert!(reloaded.token_key(&subdomain).is_some());
}

#[test]
fn many_identities_survive_a_reload() {
    let mut store = IdentityStore::load(None);
    let issued: Vec<(String, String)> = (0..20).map(|_| store.issue().unwrap()).collect();
    assert_eq!(store.len(), 20);
    let reloaded = reload(&store);
    assert_eq!(reloaded.len(), 20);
    for (subdomain, _) in &issued {
        assert_eq!(reloaded.token_key(subdomain), store.token_key(subdomain));
    }
}

#[test]
fn enrolls_a_subdomain_once() {
    let mut store = IdentityStore::load(None);
    let name = "a3k9zq".to_string();
    assert!(store.enroll(&name, &"a-very-secret-token".to_string(), 7));
    assert!(!store.enroll(&name, &"another".to_string(), 8));
    assert_eq!(store.len(), 1);
    let (key, identity) = &store.entries()[0];
    assert_eq!(key, "a3k9zq");
    assert_eq!(identity.subdomain, "a3k9zq");
    assert_eq!(
        identity.token_hash,
        "85a3dacdf7d6a1b936bf1053656b40dff9d498982df559c005e12e376242c580"
    );
    assert_eq!(identity.created_at, 7);
    assert_eq!(store.token_key("a3k9zq").unwrap()[..3], [0x85, 0xa3, 0xda]);
}

#[test]
fn free_subdomains_are_found() {
    let mut store = IdentityStore::load(None);
    let mut all = Vec::new();
    assert_eq!(store.find_free(&mut all), Some("aaaaaa".to_string()));
    for c in "abcdefghijklmnopqrstuvwxyz0123456789".chars() {
        assert!(store.enroll(&format!("aaaaa{c}"), &"t".to_string(), 0));
    }
    assert_eq!(store.find_free(&mut all), Some("aaaaba".to_string()));
    assert_eq!(all, Vec::<char>::new());
    let mut full = vec!['a'; 5];
    assert_eq!(store.find_free(&mut full), None);
    assert_eq!(full, vec!['a'; 5]);
    assert_eq!(store.find_free(&mut vec!['9']), Some("9aaaaa".to_string()));
    assert_eq!(store.find_free(&mut vec!['a'; 6]), None);
}

#[test]
fn later_entries_replace_earlier_ones() {
    let entry = |hash: &str| {
        (
            "a3k9zq".to_string(),
            Identity {
                subdomain: "a3k9zq".to_string(),
                token_hash: hash.to_string(),
                created_at: 0,
            },
        )
    };
    let store = IdentityStore::load(Some(vec![entry("00"), entry("0AfF")]));
    assert_eq!(store.len(), 1);
    assert_eq!(store.token_key("a3k9zq"), Some(vec![0x0a, 0xff]));
    // A hash that is no hexadecimal text gives no key.
    let broken = IdentityStore::load(Some(vec![entry("0")]));
    assert_eq!(broken.token_key("a3k9zq"), None);
    let broken = IdentityStore::load(Some(vec![entry("zz")]));
    assert_eq!(broken.token_key("a3k9zq"), None);
}

#[test]
fn subdomains_and_tokens_have_their_shape() {
    for _ in 0..50 {
        let subdomain = random_subdomain();
        assert_eq!(subdomain.len(), 6);
        assert!(subdomain.bytes().all(|b| b.is_ascii_lowercase() || b.is_ascii_digit()));
        let token = random_token();
        assert_eq!(token.len(), 64);
        assert!(token.bytes().all(|b| b"0123456789abcdef".contains(&b)));
        assert_eq!(&token[12..13], "4");
        assert_eq!(&token[44..45], "4");
    }
    assert_ne!(random_token(), random_token());
    assert_eq!(subdomain_from(&[0, 25, 26, 35, 1, 27]), "az09b1");
    assert_eq!(
        token_from(&[0x10; 16], &[0xfe; 16]),
        "10101010101010101010101010101010fefefefefefefefefefefefefefefefe"
    );
}

#[test]
fn reads_the_clock() {
    assert!(now() > 1_600_000_000);
    assert_eq!(seconds_or_zero(None), 0);
    assert_eq!(seconds_or_zero(Some(5)), 5);
}
