//! HMAC challenge/response used to prove ownership of a token.
//!
//! The relay never needs the plaintext token: it stores only `SHA-256(token)`, which
//! is exactly the HMAC key, and builds an [`Authenticator`] from that with
//! [`Authenticator::from_key`]. The client builds the same authenticator from the
//! plaintext token with [`Authenticator::new`]. The relay sends a random challenge and
//! the client returns its HMAC, so the token never crosses the wire after it is first
//! issued.

use vstd::prelude::*;
use vstd::slice::slice_to_vec;
use vstd::utf8::encode_utf8;

use crate::crypto::{
    hex_bytes, hex_decode, hex_digit, hex_encode, hex_text, hex_value, hmac_sha256, hmac_tag,
    hmac_verify, law_hex_round_trip, sha256, sha256_digest, DIGEST_LEN,
};
use crate::shared::Uuid;
use crate::text::{lower, lower_char};

verus! {

/// The HMAC key of a token: the SHA-256 of its bytes.
pub open spec fn token_key_of(token: Seq<char>) -> Seq<u8> {
    sha256(encode_utf8(token))
}

/// The answer to a challenge under a key: the HMAC of the challenge in hexadecimal.
pub open spec fn answer_text(key: Seq<u8>, challenge: Seq<u8>) -> Seq<char> {
    hex_text(hmac_sha256(key, challenge))
}

/// Whether a reply answers a challenge under a key: it reads, in hexadecimal of either
/// case, as the HMAC of the challenge.
pub open spec fn accepts(key: Seq<u8>, challenge: Seq<u8>, reply: Seq<char>) -> bool {
    hex_bytes(reply) == Some(hmac_sha256(key, challenge))
}

/// The key of a MAC used for authenticating clients that have a token.
pub struct Authenticator {
    key: Vec<u8>,
}

impl View for Authenticator {
    type V = Seq<u8>;

    closed spec fn view(&self) -> Seq<u8> {
        self.key@
    }
}

impl Authenticator {
    /// Generate an authenticator from a plaintext secret (e.g. a token).
    pub fn new(secret: &str) -> (res: Authenticator)
        ensures
            res@ == token_key_of(secret@),
    {
        let hashed_secret: Vec<u8> = sha256_digest(secret.as_bytes());
        Authenticator::from_key(hashed_secret.as_slice())
    }

    /// Build an authenticator directly from an already-hashed key (the SHA-256 of the
    /// secret). This lets the relay validate clients while only storing the hash of
    /// each token at rest.
    pub fn from_key(hashed_secret: &[u8]) -> (res: Authenticator)
        ensures
            res@ == hashed_secret@,
    {
        Authenticator { key: slice_to_vec(hashed_secret) }
    }

    /// Generate a reply message for a challenge.
    pub fn answer(&self, challenge: &Uuid) -> (res: String)
        ensures
            res@ == answer_text(self@, challenge@),
            res@.len() == 2 * DIGEST_LEN,
    {
        let tag: Vec<u8> = hmac_tag(self.key.as_slice(), challenge.as_slice());
        encode_tag(tag.as_slice())
    }

    /// Validate a reply to a challenge.
    pub fn validate(&self, challenge: &Uuid, tag: &str) -> (res: bool)
        ensures
            res == accepts(self@, challenge@, tag@),
    {
        match hex_decode(tag) {
            Some(bytes) => hmac_verify(
                self.key.as_slice(),
                challenge.as_slice(),
                bytes.as_slice(),
            ),
            None => false,
        }
    }
}

/// The reply message that carries a tag.
pub fn encode_tag(tag: &[u8]) -> (res: String)
    ensures
        res@ == hex_text(tag@),
{
    hex_encode(tag)
}

/// Whoever holds the token answers every challenge of whoever holds its hash.
pub proof fn law_answer_is_accepted(key: Seq<u8>, challenge: Seq<u8>)
    ensures
        accepts(key, challenge, answer_text(key, challenge)),
{
    law_hex_round_trip(hmac_sha256(key, challenge));
}

/// An answer made under one key passes under another exactly where the two keys give
/// the challenge the same HMAC.
pub proof fn law_answer_is_bound_to_key(key: Seq<u8>, other: Seq<u8>, challenge: Seq<u8>)
    ensures
        accepts(key, challenge, answer_text(other, challenge)) <==> hmac_sha256(key, challenge)
            == hmac_sha256(other, challenge),
{
    law_hex_round_trip(hmac_sha256(other, challenge));
}

/// A reply that is no hexadecimal text is refused under every key.
pub proof fn law_other_text_is_refused(key: Seq<u8>, challenge: Seq<u8>, reply: Seq<char>)
    requires
        hex_bytes(reply) is None,
    ensures
        !accepts(key, challenge, reply),
{
}

proof fn lemma_digit_in_lower_case(c: char, d: nat)
    requires
        d < 16,
    ensures
        hex_value(c) == Some(d) <==> lower_char(c) == hex_digit(d),
{
}

proof fn lemma_hex_in_lower_case(reply: Seq<char>, bytes: Seq<u8>)
    ensures
        hex_bytes(reply) == Some(bytes) <==> lower(reply) == hex_text(bytes),
{
    let text = hex_text(bytes);
    if hex_bytes(reply) == Some(bytes) {
        assert forall|i: int| 0 <= i < reply.len() implies lower(reply)[i] == text[i] by {
            let k = i / 2;
            assert(hex_value(reply[2 * k]) is Some && hex_value(reply[2 * k + 1]) is Some);
            let high = hex_value(reply[2 * k]).unwrap();
            let low = hex_value(reply[2 * k + 1]).unwrap();
            assert(bytes[k] == (16 * high + low) as u8);
            assert(bytes[k] / 16 == high && bytes[k] % 16 == low);
            lemma_digit_in_lower_case(reply[2 * k], high);
            lemma_digit_in_lower_case(reply[2 * k + 1], low);
            assert(i == 2 * k || i == 2 * k + 1);
        }
        assert(lower(reply) =~= text);
    }
    if lower(reply) == text {
        assert(reply.len() == text.len());
        assert forall|i: int| 0 <= i < reply.len() implies hex_value(#[trigger] reply[i]) == Some(
            if i % 2 == 0 {
                (bytes[i / 2] / 16) as nat
            } else {
                (bytes[i / 2] % 16) as nat
            },
        ) by {
            assert(lower(reply)[i] == lower_char(reply[i]));
            lemma_digit_in_lower_case(reply[i], (bytes[i / 2] / 16) as nat);
            lemma_digit_in_lower_case(reply[i], (bytes[i / 2] % 16) as nat);
        }
        let back = hex_bytes(reply).unwrap();
        assert forall|i: int| 0 <= i < bytes.len() implies back[i] == #[trigger] bytes[i] by {
            assert((2 * i) / 2 == i && (2 * i + 1) / 2 == i);
            assert((2 * i) % 2 == 0 && (2 * i + 1) % 2 == 1);
            assert(hex_value(reply[2 * i]) == Some((bytes[i] / 16) as nat));
            assert(hex_value(reply[2 * i + 1]) == Some((bytes[i] % 16) as nat));
        }
        assert(back =~= bytes);
    }
}

/// The only reply that passes is the HMAC of the challenge under the key, in hexadecimal;
/// the case of its letters does not matter.
pub proof fn law_accepted_reply_is_the_answer(key: Seq<u8>, challenge: Seq<u8>, reply: Seq<char>)
    ensures
        accepts(key, challenge, reply) <==> lower(reply) == hex_text(hmac_sha256(key, challenge)),
{
    lemma_hex_in_lower_case(reply, hmac_sha256(key, challenge));
}

/// What a client answers with its token passes at a relay that holds the SHA-256 of the
/// token's bytes alone.
pub proof fn law_hash_is_enough(token: Seq<char>, challenge: Seq<u8>)
    ensures
        accepts(
            sha256(encode_utf8(token)),
            challenge,
            answer_text(token_key_of(token), challenge),
        ),
        answer_text(token_key_of(token), challenge) == hex_text(
            hmac_sha256(sha256(encode_utf8(token)), challenge),
        ),
{
    law_answer_is_accepted(token_key_of(token), challenge);
}

} // verus!
