//! The encryption layer of relayed payloads.
//!
//! A shared secret yields two unrelated values: an AES-256-GCM key, derived
//! with one salt, and a room hash, derived with another, which is all the
//! server ever sees of the secret. A payload travels as
//! `base64(nonce ‖ ciphertext ‖ tag)` with a fresh 12-byte nonce.
use vstd::prelude::*;
use vstd::utf8::*;
use aes_gcm::aead::Aead;
use aes_gcm::{Aes256Gcm, KeyInit, Nonce};
use base64::Engine;

verus! {

/// PBKDF2 iterations of both derivations.
pub const ITERATIONS: u32 = 250000;

/// The longest plaintext AES-GCM encrypts, in bytes.
pub const MAX_PLAINTEXT: u64 = 68719476736;

/// PBKDF2-HMAC-SHA512 with a 64-byte output.
pub uninterp spec fn pbkdf2_hmac_sha512_of(password: Seq<u8>, salt: Seq<u8>, iterations: u32) -> Seq<u8>;

/// AES-256-GCM without associated data: the ciphertext followed by the tag.
pub uninterp spec fn aes256gcm_seal(key: Seq<u8>, nonce: Seq<u8>, plaintext: Seq<u8>) -> Seq<u8>;

/// The standard base64 alphabet.
pub open spec fn base64_digit(v: int) -> char {
    seq!['A', 'B', 'C', 'D', 'E', 'F', 'G', 'H', 'I', 'J', 'K', 'L', 'M', 'N', 'O', 'P', 'Q', 'R', 'S', 'T', 'U', 'V', 'W', 'X', 'Y', 'Z', 'a', 'b', 'c', 'd', 'e', 'f', 'g', 'h', 'i', 'j', 'k', 'l', 'm', 'n', 'o', 'p', 'q', 'r', 's', 't', 'u', 'v', 'w', 'x', 'y', 'z', '0', '1', '2', '3', '4', '5', '6', '7', '8', '9', '+', '/'][v]
}

/// Standard base64 with padding: each three bytes become four digits of six
/// bits, high bits first; a last group of one or two bytes is padded with `=`.
pub open spec fn base64_of(b: Seq<u8>) -> Seq<char>
    decreases b.len(),
{
    if b.len() == 0 {
        Seq::empty()
    } else if b.len() == 1 {
        seq![base64_digit((b[0] as int) / 4), base64_digit(((b[0] as int) % 4) * 16), '=', '=']
    } else if b.len() == 2 {
        seq![
            base64_digit((b[0] as int) / 4),
            base64_digit(((b[0] as int) % 4) * 16 + (b[1] as int) / 16),
            base64_digit(((b[1] as int) % 16) * 4),
            '=',
        ]
    } else {
        seq![
            base64_digit((b[0] as int) / 4),
            base64_digit(((b[0] as int) % 4) * 16 + (b[1] as int) / 16),
            base64_digit(((b[1] as int) % 16) * 4 + (b[2] as int) / 64),
            base64_digit((b[2] as int) % 64),
        ] + base64_of(b.skip(3))
    }
}

/// What standard base64 decoding gives, `None` where the text is not base64.
pub uninterp spec fn base64_decoded(text: Seq<char>) -> Option<Seq<u8>>;

pub open spec fn hex_digit(d: u8) -> char {
    seq!['0', '1', '2', '3', '4', '5', '6', '7', '8', '9', 'a', 'b', 'c', 'd', 'e', 'f'][d as int]
}

/// Lowercase hexadecimal, two digits per byte, high nibble first.
pub open spec fn hex_of(b: Seq<u8>) -> Seq<char>
    decreases b.len(),
{
    if b.len() == 0 {
        Seq::empty()
    } else {
        hex_of(b.drop_last()) + seq![hex_digit(b.last() / 16), hex_digit(b.last() % 16)]
    }
}

/// The salt of the key derivation, the base64 text `keksmeet/cryptosaltAAA==` decoded.
pub open spec fn crypto_salt() -> Seq<u8> {
    seq![145u8, 233, 44, 153, 231, 173, 253, 202, 242, 166, 218, 44, 106, 91, 64, 0]
}

/// The salt of the room hash, the base64 text `keksmeet/roomhashsaltA==` decoded.
pub open spec fn hash_salt() -> Seq<u8> {
    seq![145u8, 233, 44, 153, 231, 173, 254, 186, 40, 154, 22, 172, 134, 198, 165, 180]
}

/// The key that `secret` yields: the first 32 bytes of its PBKDF2 output.
pub open spec fn derived_key(secret: Seq<char>) -> Seq<u8> {
    pbkdf2_hmac_sha512_of(encode_utf8(secret), crypto_salt(), ITERATIONS).take(32)
}

/// The room identifier that `secret` yields.
pub open spec fn room_hash_of(secret: Seq<char>) -> Seq<char> {
    hex_of(pbkdf2_hmac_sha512_of(encode_utf8(secret), hash_salt(), ITERATIONS).take(32))
}

/// The payload that carries `text` encrypted under `key` with `nonce`.
pub open spec fn sealed_text(key: Seq<u8>, nonce: Seq<u8>, text: Seq<char>) -> Seq<char> {
    base64_of(nonce + aes256gcm_seal(key, nonce, encode_utf8(text)))
}

/// `plain` is what `text` carries under `key`: `text` is base64 of a nonce
/// and a ciphertext with its tag that authenticate `plain` under `key`.
pub open spec fn opens_to(key: Seq<u8>, text: Seq<char>, plain: Seq<char>) -> bool {
    match base64_decoded(text) {
        Some(b) => b.len() >= 28 && aes256gcm_seal(key, b.take(12), encode_utf8(plain)) == b.skip(
            12,
        ),
        None => false,
    }
}

/// Relies on fastpbkdf2::pbkdf2_hmac_sha512, which fills the 64-byte buffer
/// with PBKDF2-HMAC-SHA512 and asserts that `iterations` is not zero.
#[verifier::external_body]
fn pbkdf2_hmac_sha512(password: &[u8], salt: &[u8], iterations: u32) -> (r: Vec<u8>)
    requires
        iterations != 0,
    ensures
        r@ == pbkdf2_hmac_sha512_of(password@, salt@, iterations),
        r@.len() == 64,
{
    let mut out = [0u8; 64];
    fastpbkdf2::pbkdf2_hmac_sha512(password, salt, iterations, &mut out);
    out.to_vec()
}

/// Relies on aes_gcm's `Aes256Gcm` through `aead::Aead::encrypt`: it accepts
/// any 32-byte key and fails only on plaintexts longer than `MAX_PLAINTEXT`.
#[verifier::external_body]
fn aes_seal(key: &[u8], nonce: &[u8], plaintext: &[u8]) -> (r: Vec<u8>)
    requires
        key@.len() == 32,
        nonce@.len() == 12,
        plaintext@.len() <= MAX_PLAINTEXT,
    ensures
        r@ == aes256gcm_seal(key@, nonce@, plaintext@),
        r@.len() == plaintext@.len() + 16,
{
    let cipher = Aes256Gcm::new_from_slice(key).unwrap();
    cipher.encrypt(Nonce::from_slice(nonce), plaintext).unwrap()
}

/// Relies on aes_gcm's `Aes256Gcm` through `aead::Aead::decrypt`: it
/// returns a plaintext exactly when the ciphertext and tag are its
/// encryption under the key and nonce.
#[verifier::external_body]
fn aes_open(key: &[u8], nonce: &[u8], ciphertext: &[u8]) -> (r: Option<Vec<u8>>)
    requires
        key@.len() == 32,
        nonce@.len() == 12,
    ensures
        r is Some ==> aes256gcm_seal(key@, nonce@, r->0@) == ciphertext@ && ciphertext@.len()
            == r->0@.len() + 16,
        forall|p: Seq<u8>|
            p.len() <= MAX_PLAINTEXT && #[trigger] aes256gcm_seal(key@, nonce@, p) == ciphertext@
                ==> r is Some && r->0@ == p,
{
    let cipher = Aes256Gcm::new_from_slice(key).unwrap();
    cipher.decrypt(Nonce::from_slice(nonce), ciphertext).ok()
}

/// Relies on base64's `STANDARD` engine, `Engine::encode`: padded standard base64.
#[verifier::external_body]
fn base64_encode(bytes: &[u8]) -> (r: String)
    ensures
        r@ == base64_of(bytes@),
{
    base64::engine::general_purpose::STANDARD.encode(bytes)
}

/// Relies on base64's `STANDARD` engine, `Engine::decode`, which reverses
/// `Engine::encode`.
#[verifier::external_body]
fn base64_decode(text: &str) -> (r: Option<Vec<u8>>)
    ensures
        r is Some ==> base64_decoded(text@) == Some(r->0@),
        r is None ==> base64_decoded(text@) is None,
        forall|b: Seq<u8>| text@ == #[trigger] base64_of(b) ==> r is Some && r->0@ == b,
{
    base64::engine::general_purpose::STANDARD.decode(text).ok()
}

/// Relies on rand::random, drawing twelve bytes from the thread-local generator.
#[verifier::external_body]
fn random_nonce() -> (r: Vec<u8>)
    ensures
        r@.len() == 12,
{
    rand::random::<[u8; 12]>().to_vec()
}

/// Relies on hex::encode: two lowercase digits per byte, high nibble first.
#[verifier::external_body]
fn hex_encode(bytes: &[u8]) -> (r: String)
    ensures
        r@ == hex_of(bytes@),
{
    hex::encode(bytes)
}

/// Relies on String::from_utf8, which accepts exactly the valid UTF-8 sequences.
#[verifier::external_body]
fn string_from_utf8(bytes: Vec<u8>) -> (r: Option<String>)
    ensures
        r is Some ==> valid_utf8(bytes@) && r->0@ == decode_utf8(bytes@),
        r is None ==> !valid_utf8(bytes@),
{
    String::from_utf8(bytes).ok()
}

/// The first `n` bytes of `b`.
fn prefix(b: &Vec<u8>, n: usize) -> (r: Vec<u8>)
    requires
        n <= b@.len(),
    ensures
        r@ == b@.take(n as int),
{
    let mut r = Vec::new();
    let mut i: usize = 0;
    while i < n
        invariant
            i <= n <= b@.len(),
            r@ == b@.take(i as int),
        decreases n - i,
    {
        r.push(b[i]);
        assert(r@ =~= b@.take(i + 1));
        i = i + 1;
    }
    r
}

/// The bytes of `b` from `n` on.
fn suffix(b: &Vec<u8>, n: usize) -> (r: Vec<u8>)
    requires
        n <= b@.len(),
    ensures
        r@ == b@.skip(n as int),
{
    let mut r = Vec::new();
    let mut i: usize = n;
    assert(b@.subrange(n as int, n as int) =~= Seq::<u8>::empty());
    while i < b.len()
        invariant
            n <= i <= b@.len(),
            r@ == b@.subrange(n as int, i as int),
        decreases b.len() - i,
    {
        r.push(b[i]);
        assert(r@ =~= b@.subrange(n as int, i + 1));
        i = i + 1;
    }
    assert(b@.subrange(n as int, b@.len() as int) =~= b@.skip(n as int));
    r
}

fn crypto_salt_bytes() -> (r: Vec<u8>)
    ensures
        r@ == crypto_salt(),
{
    let r = vec![145u8, 233, 44, 153, 231, 173, 253, 202, 242, 166, 218, 44, 106, 91, 64, 0];
    assert(r@ =~= crypto_salt());
    r
}

fn hash_salt_bytes() -> (r: Vec<u8>)
    ensures
        r@ == hash_salt(),
{
    let r = vec![145u8, 233, 44, 153, 231, 173, 254, 186, 40, 154, 22, 172, 134, 198, 165, 180];
    assert(r@ =~= hash_salt());
    r
}

/// A symmetric key shared by everyone who knows the same secret.
pub struct Key {
    bytes: Vec<u8>,
}

impl Key {
    #[verifier::type_invariant]
    spec fn inv(&self) -> bool {
        self.bytes@.len() == 32
    }

    pub closed spec fn bytes(&self) -> Seq<u8> {
        self.bytes@
    }

    /// The key of `secret`; the same secret always gives the same key.
    pub fn derive(secret: &str) -> (r: Key)
        ensures
            r.bytes() == derived_key(secret@),
    {
        let salt = crypto_salt_bytes();
        let full = pbkdf2_hmac_sha512(secret.as_bytes(), salt.as_slice(), ITERATIONS);
        Key { bytes: prefix(&full, 32) }
    }

    /// Encrypts `s` under `nonce`.
    pub fn seal_with_nonce(&self, nonce: &Vec<u8>, s: &str) -> (r: String)
        requires
            nonce@.len() == 12,
            encode_utf8(s@).len() <= MAX_PLAINTEXT,
        ensures
            r@ == sealed_text(self.bytes(), nonce@, s@),
            aes256gcm_seal(self.bytes(), nonce@, encode_utf8(s@)).len() == encode_utf8(s@).len()
                + 16,
    {
        proof {
            use_type_invariant(self);
        }
        let mut ciphertext = aes_seal(self.bytes.as_slice(), nonce.as_slice(), s.as_bytes());
        let mut packet = prefix(nonce, 12);
        assert(nonce@.take(12) =~= nonce@);
        packet.append(&mut ciphertext);
        base64_encode(packet.as_slice())
    }

    /// Encrypts `s` under a fresh random nonce: the payload holds the nonce,
    /// then a ciphertext as long as `s`'s bytes, then a 16-byte tag.
    pub fn encrypt(&self, s: &str) -> (r: String)
        requires
            encode_utf8(s@).len() <= MAX_PLAINTEXT,
        ensures
            exists|n: Seq<u8>|
                n.len() == 12 && r@ == sealed_text(self.bytes(), n, s@) && #[trigger] aes256gcm_seal(
                    self.bytes(),
                    n,
                    encode_utf8(s@),
                ).len() == encode_utf8(s@).len() + 16,
    {
        let nonce = random_nonce();
        self.seal_with_nonce(&nonce, s)
    }

    /// Decrypts a payload. `None` when it is not base64, too short to hold a
    /// nonce and a tag, fails authentication under this key, or opens to
    /// bytes that are not UTF-8 text. A payload made by `encrypt` of `q`
    /// under this key gives back `q`.
    pub fn decrypt(&self, s: &str) -> (r: Option<String>)
        ensures
            forall|n: Seq<u8>, q: Seq<char>|
                n.len() == 12 && encode_utf8(q).len() <= MAX_PLAINTEXT && s@ == #[trigger] sealed_text(
                    self.bytes(),
                    n,
                    q,
                ) ==> r is Some && r->0@ == q,
            r is Some ==> opens_to(self.bytes(), s@, r->0@),
            match base64_decoded(s@) {
                None => r is None,
                Some(b) => if b.len() < 28 {
                    r is None
                } else {
                    &&& forall|q: Seq<char>|
                        encode_utf8(q).len() <= MAX_PLAINTEXT && #[trigger] aes256gcm_seal(
                            self.bytes(),
                            b.take(12),
                            encode_utf8(q),
                        ) == b.skip(12) ==> r is Some && r->0@ == q
                    &&& forall|p: Seq<u8>|
                        p.len() <= MAX_PLAINTEXT && #[trigger] aes256gcm_seal(
                            self.bytes(),
                            b.take(12),
                            p,
                        ) == b.skip(12) && !valid_utf8(p) ==> r is None
                },
            },
    {
        proof {
            use_type_invariant(self);
        }
        let blob = match base64_decode(s) {
            Some(b) => b,
            None => return None,
        };
        if blob.len() < 12 {
            proof {
                assert forall|n: Seq<u8>, q: Seq<char>|
                    n.len() == 12 && encode_utf8(q).len() <= MAX_PLAINTEXT && s@ == #[trigger] sealed_text(
                        self.bytes(),
                        n,
                        q,
                    ) implies false by {
                    assert(blob@ == n + aes256gcm_seal(self.bytes(), n, encode_utf8(q)));
                }
            }
            return None;
        }
        let nonce = prefix(&blob, 12);
        let ciphertext = suffix(&blob, 12);
        let opened = aes_open(self.bytes.as_slice(), nonce.as_slice(), ciphertext.as_slice());
        let plain = match opened {
            Some(p) => p,
            None => {
                proof {
                    assert forall|q: Seq<char>|
                        encode_utf8(q).len() <= MAX_PLAINTEXT && #[trigger] aes256gcm_seal(
                            self.bytes(),
                            blob@.take(12),
                            encode_utf8(q),
                        ) == blob@.skip(12) implies false by {}
                    assert forall|n: Seq<u8>, q: Seq<char>|
                        n.len() == 12 && encode_utf8(q).len() <= MAX_PLAINTEXT && s@ == #[trigger] sealed_text(
                            self.bytes(),
                            n,
                            q,
                        ) implies false by {
                        let b = n + aes256gcm_seal(self.bytes(), n, encode_utf8(q));
                        assert(blob@ == b);
                        assert(b.take(12) =~= n);
                        assert(b.skip(12) =~= aes256gcm_seal(self.bytes(), n, encode_utf8(q)));
                    }
                }
                return None;
            },
        };
        let ghost pb = plain@;
        let r = string_from_utf8(plain);
        proof {
            assert(blob@.len() >= 28);
            assert forall|q: Seq<char>|
                encode_utf8(q).len() <= MAX_PLAINTEXT && #[trigger] aes256gcm_seal(
                    self.bytes(),
                    blob@.take(12),
                    encode_utf8(q),
                ) == blob@.skip(12) implies r is Some && r->0@ == q by {
                assert(pb == encode_utf8(q));
                encode_utf8_valid_utf8(q);
                encode_utf8_decode_utf8(q);
            }
            assert forall|p: Seq<u8>|
                p.len() <= MAX_PLAINTEXT && #[trigger] aes256gcm_seal(
                    self.bytes(),
                    blob@.take(12),
                    p,
                ) == blob@.skip(12) && !valid_utf8(p) implies r is None by {
                assert(pb == p);
            }
            if r is Some {
                decode_utf8_encode_utf8(pb);
            }
            assert forall|n: Seq<u8>, q: Seq<char>|
                n.len() == 12 && encode_utf8(q).len() <= MAX_PLAINTEXT && s@ == #[trigger] sealed_text(
                    self.bytes(),
                    n,
                    q,
                ) implies r is Some && r->0@ == q by {
                let b = n + aes256gcm_seal(self.bytes(), n, encode_utf8(q));
                assert(blob@ == b);
                assert(b.take(12) =~= n);
                assert(b.skip(12) =~= aes256gcm_seal(self.bytes(), n, encode_utf8(q)));
            }
        }
        r
    }
}

proof fn lemma_hex_len(b: Seq<u8>)
    ensures
        hex_of(b).len() == 2 * b.len(),
    decreases b.len(),
{
    if b.len() > 0 {
        lemma_hex_len(b.drop_last());
    }
}

/// The room identifier of `secret`, sent to the server in its place.
pub fn hash(secret: &str) -> (r: String)
    ensures
        r@ == room_hash_of(secret@),
        r@.len() == 64,
{
    let salt = hash_salt_bytes();
    let full = pbkdf2_hmac_sha512(secret.as_bytes(), salt.as_slice(), ITERATIONS);
    let head = prefix(&full, 32);
    proof {
        lemma_hex_len(head@);
    }
    hex_encode(head.as_slice())
}

/// The room hash is a function of the secret alone, so equal secrets meet in
/// one room; it is derived with a salt other than the key's.
pub proof fn room_hash_deterministic(a: Seq<char>, b: Seq<char>)
    requires
        a == b,
    ensures
        room_hash_of(a) == room_hash_of(b),
        hash_salt() != crypto_salt(),
{
    assert(hash_salt()[6] != crypto_salt()[6]);
}

} // verus!
