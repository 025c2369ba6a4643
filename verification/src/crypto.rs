//! Note encryption: keys, the volatile session that holds them, and encrypting or
//! decrypting a note body.
use vstd::prelude::*;
use vstd::utf8::{encode_utf8, decode_utf8, valid_utf8};
use crate::text::{chars_of, string_of, extend_chars};
use crate::errors::NodaError;
use crate::models::{Note, NoteView, opt_view};
use crate::time::{Timestamp, nanos_of, to_nanos};
use chacha20poly1305::aead::{Aead, KeyInit};
use argon2::{PasswordHasher, PasswordVerifier};
use rand::RngCore;

verus! {

/// What XChaCha20-Poly1305 makes of a plaintext under a 32-byte key and a 24-byte nonce:
/// the ciphertext with its tag, or `None` when it refuses.
pub uninterp spec fn xchacha_sealed(key: Seq<u8>, nonce: Seq<u8>, plaintext: Seq<u8>) -> Option<Seq<u8>>;

/// What XChaCha20-Poly1305 recovers from a ciphertext: the plaintext, or `None` when the
/// ciphertext does not authenticate.
pub uninterp spec fn xchacha_opened(key: Seq<u8>, nonce: Seq<u8>, ciphertext: Seq<u8>) -> Option<Seq<u8>>;

/// `aead::Error`: the text of the AEAD error.
pub open spec fn aead_error_text() -> Seq<char> {
    seq!['a', 'e', 'a', 'd', ':', ':', 'E', 'r', 'r', 'o', 'r']
}

/// A plaintext XChaCha20-Poly1305 seals: fewer than `u32::MAX` blocks of 64 bytes
/// (`chacha20poly1305`'s `encrypt_in_place_detached` refuses longer buffers, and only
/// those).
pub open spec fn sealable(plaintext: Seq<u8>) -> bool {
    plaintext.len() < 274_877_906_880
}

/// `XChaCha20Poly1305::new(key).encrypt(nonce, plaintext)`. Claimed: the result is the
/// named ciphertext; it is refused exactly when the plaintext is too long to seal, with
/// the AEAD error.
#[verifier::external_body]
fn xchacha_seal(key: &[u8], nonce: &[u8], plaintext: &[u8]) -> (r: Result<Vec<u8>, String>)
    requires
        key@.len() == 32,
        nonce@.len() == 24,
    ensures
        match r {
            Ok(c) => xchacha_sealed(key@, nonce@, plaintext@) == Some(c@),
            Err(e) => xchacha_sealed(key@, nonce@, plaintext@) is None && e@ == aead_error_text(),
        },
        r is Ok <==> sealable(plaintext@),
{
    let cipher = chacha20poly1305::XChaCha20Poly1305::new(chacha20poly1305::Key::from_slice(key));
    match cipher.encrypt(chacha20poly1305::XNonce::from_slice(nonce), plaintext) {
        Ok(c) => Ok(c),
        Err(e) => Err(e.to_string()),
    }
}

/// `XChaCha20Poly1305::new(key).decrypt(nonce, ciphertext)`. Claimed: the result is the
/// named plaintext, a refusal is the AEAD error, and (authenticated encryption) a
/// ciphertext sealed under the same key and nonce opens to its plaintext.
#[verifier::external_body]
fn xchacha_open(key: &[u8], nonce: &[u8], ciphertext: &[u8]) -> (r: Result<Vec<u8>, String>)
    requires
        key@.len() == 32,
        nonce@.len() == 24,
    ensures
        match r {
            Ok(p) => xchacha_opened(key@, nonce@, ciphertext@) == Some(p@)
                && forall|q: Seq<u8>| #[trigger] xchacha_sealed(key@, nonce@, q) == Some(ciphertext@) ==> p@ == q,
            Err(e) => xchacha_opened(key@, nonce@, ciphertext@) is None && e@ == aead_error_text()
                && forall|q: Seq<u8>| #[trigger] xchacha_sealed(key@, nonce@, q) != Some(ciphertext@),
        },
{
    let cipher = chacha20poly1305::XChaCha20Poly1305::new(chacha20poly1305::Key::from_slice(key));
    match cipher.decrypt(chacha20poly1305::XNonce::from_slice(nonce), ciphertext) {
        Ok(p) => Ok(p),
        Err(e) => Err(e.to_string()),
    }
}

/// `n` bytes from the thread's random generator (`rand::thread_rng().fill_bytes`).
/// Claimed: only the length.
#[verifier::external_body]
fn random_bytes(n: usize) -> (r: Vec<u8>)
    ensures
        r@.len() == n,
{
    let mut v = vec![0u8; n];
    rand::thread_rng().fill_bytes(&mut v);
    v
}

/// Argon2id (version 0x13, default parameters) of a password and salt into 32 bytes, or
/// the error text.
pub uninterp spec fn argon2_kek(password: Seq<u8>, salt: Seq<u8>) -> Result<Seq<u8>, Seq<char>>;

/// `Argon2::new(Argon2id, V0x13, Params::default()).hash_password_into` with a 32-byte
/// output. Claimed: the result is the named key (32 bytes) or error text, and it is a key
/// exactly when the password has at most `u32::MAX` bytes and the salt between 8 and
/// `u32::MAX` (`verify_inputs` refuses only those; the output length is fixed and valid).
#[verifier::external_body]
fn argon2id(password: &[u8], salt: &[u8]) -> (r: Result<Vec<u8>, String>)
    ensures
        match r {
            Ok(k) => argon2_kek(password@, salt@) == Ok::<Seq<u8>, Seq<char>>(k@) && k@.len() == 32,
            Err(e) => argon2_kek(password@, salt@) == Err::<Seq<u8>, Seq<char>>(e@),
        },
        r is Ok <==> argon2_accepts(password@, salt@),
{
    let a = argon2::Argon2::new(argon2::Algorithm::Argon2id, argon2::Version::V0x13, argon2::Params::default());
    let mut kek = [0u8; 32];
    match a.hash_password_into(password, salt, &mut kek) {
        Ok(()) => Ok(kek.to_vec()),
        Err(e) => Err(e.to_string()),
    }
}

/// The standard (padded) Base64 text of some bytes.
pub uninterp spec fn base64_text(bytes: Seq<u8>) -> Seq<char>;

/// What standard Base64 decoding gives for a text: the bytes, or the error text.
pub uninterp spec fn base64_bytes(text: Seq<char>) -> Result<Seq<u8>, Seq<char>>;

/// `BASE64_STANDARD.encode`. Claimed: the result is the named text.
#[verifier::external_body]
fn base64_encode(bytes: &[u8]) -> (r: String)
    ensures
        r@ == base64_text(bytes@),
{
    base64::Engine::encode(&base64::prelude::BASE64_STANDARD, bytes)
}

/// `BASE64_STANDARD.decode`. Claimed: the result is the named one, and decoding the
/// encoding of some bytes gives those bytes back.
#[verifier::external_body]
fn base64_decode(text: &str) -> (r: Result<Vec<u8>, String>)
    ensures
        match r {
            Ok(b) => base64_bytes(text@) == Ok::<Seq<u8>, Seq<char>>(b@)
                && forall|c: Seq<u8>| text@ == #[trigger] base64_text(c) ==> b@ == c,
            Err(e) => base64_bytes(text@) == Err::<Seq<u8>, Seq<char>>(e@)
                && forall|c: Seq<u8>| text@ != #[trigger] base64_text(c),
        },
{
    match base64::Engine::decode(&base64::prelude::BASE64_STANDARD, text) {
        Ok(b) => Ok(b),
        Err(e) => Err(e.to_string()),
    }
}

/// The text of the error `String::from_utf8` gives for bytes that are not UTF-8.
pub uninterp spec fn utf8_error_text(bytes: Seq<u8>) -> Seq<char>;

/// `String::from_utf8`. Claimed (std's documentation): it succeeds exactly on valid UTF-8,
/// with the decoded text; else the named error text.
#[verifier::external_body]
fn string_from_utf8(bytes: Vec<u8>) -> (r: Result<String, String>)
    ensures
        match r {
            Ok(s) => valid_utf8(bytes@) && s@ == decode_utf8(bytes@),
            Err(e) => !valid_utf8(bytes@) && e@ == utf8_error_text(bytes@),
        },
{
    match String::from_utf8(bytes) {
        Ok(s) => Ok(s),
        Err(e) => Err(e.to_string()),
    }
}

/// Decimal text of a count.
pub open spec fn decimal_text(n: nat) -> Seq<char>
    decreases n,
{
    if n < 10 {
        seq![(('0' as int) + n) as char]
    } else {
        decimal_text(n / 10).push((('0' as int) + (n % 10)) as char)
    }
}

/// The decimal text of a count (`usize`'s `Display`).
pub fn decimal(n: usize) -> (r: Vec<char>)
    ensures
        r@ == decimal_text(n as nat),
    decreases n,
{
    if n < 10 {
        let b: u8 = n as u8;
        vec![((48u8 + b) as u8) as char]
    } else {
        let mut r = decimal(n / 10);
        let b: u8 = (n % 10) as u8;
        r.push(((48u8 + b) as u8) as char);
        r
    }
}

/// A vault error with the given text.
fn vault_error(text: Vec<char>) -> (r: NodaError)
    ensures
        r is Vault,
        crate::errors::detail_of(r) == text@,
{
    NodaError::Vault(string_of(&text))
}

/// A vault error: `prefix` followed by a detail text.
fn vault_error_with(prefix: Vec<char>, detail: &str) -> (r: NodaError)
    ensures
        r is Vault,
        crate::errors::detail_of(r) == prefix@ + detail@,
{
    let mut m = prefix;
    let d = chars_of(detail);
    extend_chars(&mut m, &d);
    NodaError::Vault(string_of(&m))
}

/// Argon2 accepts a password and salt: at most `u32::MAX` password bytes, and between 8
/// and `u32::MAX` salt bytes.
pub open spec fn argon2_accepts(password: Seq<u8>, salt: Seq<u8>) -> bool {
    password.len() <= 0xFFFF_FFFF && 8 <= salt.len() <= 0xFFFF_FFFF
}

/// The key-encryption key of a master password and salt (Argon2id); an Argon2 failure
/// is a vault error `Argon2 KEK derivation failed: ...`, which comes exactly for a
/// password or salt that Argon2 refuses.
pub fn derive_kek(password: &str, salt: &[u8]) -> (r: Result<Vec<u8>, NodaError>)
    ensures
        r is Ok <==> argon2_accepts(encode_utf8(password@), salt@),
        match r {
            Ok(k) => argon2_kek(encode_utf8(password@), salt@) == Ok::<Seq<u8>, Seq<char>>(k@) && k@.len() == 32,
            Err(e) => e is Vault && (argon2_kek(encode_utf8(password@), salt@) matches Err(t)
                && crate::errors::detail_of(e) == seq!['A', 'r', 'g', 'o', 'n', '2', ' ', 'K', 'E', 'K', ' ', 'd', 'e', 'r', 'i', 'v', 'a', 't', 'i', 'o', 'n', ' ', 'f', 'a', 'i', 'l', 'e', 'd', ':', ' '] + t),
        },
{
    match argon2id(password.as_bytes(), salt) {
        Ok(k) => Ok(k),
        Err(e) => Err(vault_error_with(vec!['A', 'r', 'g', 'o', 'n', '2', ' ', 'K', 'E', 'K', ' ', 'd', 'e', 'r', 'i', 'v', 'a', 't', 'i', 'o', 'n', ' ', 'f', 'a', 'i', 'l', 'e', 'd', ':', ' '], e.as_str())),
    }
}

/// Encrypts bytes with XChaCha20-Poly1305 under a fresh random nonce; gives the
/// ciphertext and the nonce. A plaintext too long to seal is refused with a vault error,
/// and only such a one.
pub fn encrypt_bytes(key: &[u8], plaintext: &[u8]) -> (r: Result<(Vec<u8>, Vec<u8>), NodaError>)
    requires
        key@.len() == 32,
    ensures
        match r {
            Ok((c, n)) => n@.len() == 24 && xchacha_sealed(key@, n@, plaintext@) == Some(c@),
            Err(e) => e is Vault && crate::errors::detail_of(e) == seq!['X', 'C', 'h', 'a', 'C', 'h', 'a', '2', '0', '-', 'P', 'o', 'l', 'y', '1', '3', '0', '5', ' ', 'e', 'n', 'c', 'r', 'y', 'p', 't', 'i', 'o', 'n', ' ', 'f', 'a', 'i', 'l', 'e', 'd', ':', ' '] + aead_error_text(),
        },
        r is Ok <==> sealable(plaintext@),
{
    let nonce = random_bytes(24);
    match xchacha_seal(key, &nonce, plaintext) {
        Ok(c) => Ok((c, nonce)),
        Err(e) => Err(vault_error_with(vec!['X', 'C', 'h', 'a', 'C', 'h', 'a', '2', '0', '-', 'P', 'o', 'l', 'y', '1', '3', '0', '5', ' ', 'e', 'n', 'c', 'r', 'y', 'p', 't', 'i', 'o', 'n', ' ', 'f', 'a', 'i', 'l', 'e', 'd', ':', ' '], e.as_str())),
    }
}

/// What decrypting some bytes gives: a nonce that is not 24 bytes long is refused with
/// `Invalid nonce length: <n> (expected 24)`; else the plaintext, or the AEAD failure.
pub open spec fn decrypt_bytes_spec(key: Seq<u8>, ciphertext: Seq<u8>, nonce: Seq<u8>) -> Result<Seq<u8>, Seq<char>> {
    if nonce.len() != 24 {
        Err(seq!['I', 'n', 'v', 'a', 'l', 'i', 'd', ' ', 'n', 'o', 'n', 'c', 'e', ' ', 'l', 'e', 'n', 'g', 't', 'h', ':', ' '] + decimal_text(nonce.len()) + seq![' ', '(', 'e', 'x', 'p', 'e', 'c', 't', 'e', 'd', ' ', '2', '4', ')'])
    } else {
        match xchacha_opened(key, nonce, ciphertext) {
            Some(p) => Ok(p),
            None => Err(seq!['X', 'C', 'h', 'a', 'C', 'h', 'a', '2', '0', '-', 'P', 'o', 'l', 'y', '1', '3', '0', '5', ' ', 'd', 'e', 'c', 'r', 'y', 'p', 't', 'i', 'o', 'n', ' ', 'f', 'a', 'i', 'l', 'e', 'd', ':', ' '] + aead_error_text()),
        }
    }
}

/// Decrypts bytes with XChaCha20-Poly1305 (see [`decrypt_bytes_spec`]); failures are
/// vault errors.
pub fn decrypt_bytes(key: &[u8], ciphertext: &[u8], nonce: &[u8]) -> (r: Result<Vec<u8>, NodaError>)
    requires
        key@.len() == 32,
    ensures
        match r {
            Ok(p) => decrypt_bytes_spec(key@, ciphertext@, nonce@) == Ok::<Seq<u8>, Seq<char>>(p@),
            Err(e) => e is Vault && decrypt_bytes_spec(key@, ciphertext@, nonce@) == Err::<Seq<u8>, Seq<char>>(crate::errors::detail_of(e)),
        },
        forall|p: Seq<u8>| nonce@.len() == 24 && xchacha_sealed(key@, nonce@, p) == Some(ciphertext@) ==> (r matches Ok(v) && v@ == p),
{
    if nonce.len() != 24 {
        let mut m = vec!['I', 'n', 'v', 'a', 'l', 'i', 'd', ' ', 'n', 'o', 'n', 'c', 'e', ' ', 'l', 'e', 'n', 'g', 't', 'h', ':', ' '];
        let d = decimal(nonce.len());
        extend_chars(&mut m, &d);
        extend_chars(&mut m, &[' ', '(', 'e', 'x', 'p', 'e', 'c', 't', 'e', 'd', ' ', '2', '4', ')']);
        return Err(vault_error(m));
    }
    match xchacha_open(key, nonce, ciphertext) {
        Ok(p) => Ok(p),
        Err(e) => Err(vault_error_with(vec!['X', 'C', 'h', 'a', 'C', 'h', 'a', '2', '0', '-', 'P', 'o', 'l', 'y', '1', '3', '0', '5', ' ', 'd', 'e', 'c', 'r', 'y', 'p', 't', 'i', 'o', 'n', ' ', 'f', 'a', 'i', 'l', 'e', 'd', ':', ' '], e.as_str())),
    }
}


/// A note key kept in memory while the session is unlocked.
#[derive(Debug)]
pub struct CachedKey {
    pub note_id: String,
    pub dek: Vec<u8>,
}

/// The volatile session: the key-encryption key while unlocked, the note keys decrypted
/// so far, the last interaction, and the lock timeout setting.
#[derive(Debug)]
pub struct Session {
    pub kek: Option<Vec<u8>>,
    pub dek_cache: Vec<CachedKey>,
    pub last_interaction: Timestamp,
    pub timeout_setting: String,
}

/// The cached keys as (note identifier, key) pairs.
pub open spec fn cache_view(c: Seq<CachedKey>) -> Seq<(Seq<char>, Seq<u8>)> {
    c.map_values(|k: CachedKey| (k.note_id@, k.dek@))
}

/// The cached key of a note: the first entry for it.
pub open spec fn cache_get(c: Seq<(Seq<char>, Seq<u8>)>, id: Seq<char>) -> Option<Seq<u8>>
    decreases c.len(),
{
    if c.len() == 0 {
        None
    } else if c[0].0 == id {
        Some(c[0].1)
    } else {
        cache_get(c.drop_first(), id)
    }
}

/// The cache without the entries of a note.
pub open spec fn cache_without(c: Seq<(Seq<char>, Seq<u8>)>, id: Seq<char>) -> Seq<(Seq<char>, Seq<u8>)>
    decreases c.len(),
{
    if c.len() == 0 {
        Seq::empty()
    } else {
        let rest = cache_without(c.drop_last(), id);
        if c.last().0 == id { rest } else { rest.push(c.last()) }
    }
}

impl Session {
    /// The keys are 256-bit.
    pub open spec fn wf(&self) -> bool {
        &&& (self.kek matches Some(k) ==> k@.len() == 32)
        &&& forall|i: int| 0 <= i < self.dek_cache@.len() ==> (#[trigger] self.dek_cache@[i]).dek@.len() == 32
    }

    /// A locked session started at `now` with the default timeout `15m`.
    pub fn new(now: Timestamp) -> (r: Session)
        ensures
            r.wf(),
            r.kek is None,
            r.dek_cache@.len() == 0,
            r.last_interaction == now,
            r.timeout_setting@ == seq!['1', '5', 'm'],
    {
        Session { kek: None, dek_cache: Vec::new(), last_interaction: now, timeout_setting: string_of(&['1', '5', 'm']) }
    }

    /// Unlocks with a key-encryption key: the cache is emptied, the timeout set, the
    /// interaction time recorded.
    pub fn unlock(&mut self, kek: Vec<u8>, timeout_setting: String, now: Timestamp)
        requires
            kek@.len() == 32,
        ensures
            final(self).wf(),
            final(self).kek == Some(kek),
            final(self).dek_cache@.len() == 0,
            final(self).last_interaction == now,
            final(self).timeout_setting == timeout_setting,
    {
        self.kek = Some(kek);
        self.dek_cache = Vec::new();
        self.last_interaction = now;
        self.timeout_setting = timeout_setting;
    }

    /// Locks at once: the key-encryption key and every note key are forgotten.
    pub fn lock(&mut self)
        ensures
            final(self).wf(),
            final(self).kek is None,
            final(self).dek_cache@.len() == 0,
            final(self).last_interaction == old(self).last_interaction,
            final(self).timeout_setting == old(self).timeout_setting,
    {
        self.kek = None;
        self.dek_cache = Vec::new();
    }

    /// `true` while unlocked.
    pub fn is_unlocked(&self) -> (r: bool)
        ensures
            r == self.kek is Some,
    {
        self.kek.is_some()
    }

    /// Records an interaction at `now`.
    pub fn record_interaction(&mut self, now: Timestamp)
        requires
            old(self).wf(),
        ensures
            final(self).wf(),
            final(self).last_interaction == now,
            final(self).kek == old(self).kek,
            final(self).dek_cache@ == old(self).dek_cache@,
            final(self).timeout_setting == old(self).timeout_setting,
    {
        self.last_interaction = now;
    }

    /// Changes the timeout setting, counting as an interaction at `now`.
    pub fn set_timeout(&mut self, timeout_setting: String, now: Timestamp)
        requires
            old(self).wf(),
        ensures
            final(self).wf(),
            final(self).timeout_setting == timeout_setting,
            final(self).last_interaction == now,
            final(self).kek == old(self).kek,
            final(self).dek_cache@ == old(self).dek_cache@,
    {
        self.timeout_setting = timeout_setting;
        self.last_interaction = now;
    }

    /// The key of a note kept in memory.
    pub fn cached_dek(&self, note_id: &str) -> (r: Option<Vec<u8>>)
        ensures
            match r {
                Some(k) => cache_get(cache_view(self.dek_cache@), note_id@) == Some(k@),
                None => cache_get(cache_view(self.dek_cache@), note_id@) is None,
            },
    {
        let ghost cv = cache_view(self.dek_cache@);
        let mut i: usize = 0;
        assert(cv.skip(0) =~= cv);
        while i < self.dek_cache.len()
            invariant
                i <= self.dek_cache@.len(),
                cv == cache_view(self.dek_cache@),
                cache_get(cv, note_id@) == cache_get(cv.skip(i as int), note_id@),
            decreases self.dek_cache.len() - i,
        {
            proof {
                assert(cv.skip(i as int)[0] == cv[i as int]);
                assert(cv.skip(i as int).drop_first() =~= cv.skip(i + 1));
            }
            if crate::models::str_eq(self.dek_cache[i].note_id.as_str(), note_id) {
                return Some(self.dek_cache[i].dek.clone());
            }
            i += 1;
        }
        assert(cv.skip(i as int).len() == 0);
        None
    }

    /// Forgets the key of a note.
    pub fn forget_dek(&mut self, note_id: &str)
        requires
            old(self).wf(),
        ensures
            final(self).wf(),
            cache_view(final(self).dek_cache@) == cache_without(cache_view(old(self).dek_cache@), note_id@),
            final(self).kek == old(self).kek,
            final(self).last_interaction == old(self).last_interaction,
            final(self).timeout_setting == old(self).timeout_setting,
    {
        let mut old_cache: Vec<CachedKey> = Vec::new();
        std::mem::swap(&mut old_cache, &mut self.dek_cache);
        let ghost ov = cache_view(old_cache@);
        let mut kept: Vec<CachedKey> = Vec::new();
        let mut rest = old_cache;
        let n = rest.len();
        let mut i: usize = 0;
        while i < n
            invariant
                i <= n,
                n == ov.len(),
                rest@.len() == n - i,
                cache_view(rest@) == ov.skip(i as int),
                cache_view(kept@) == cache_without(ov.take(i as int), note_id@),
                forall|j: int| 0 <= j < rest@.len() ==> (#[trigger] rest@[j]).dek@.len() == 32,
                forall|j: int| 0 <= j < kept@.len() ==> (#[trigger] kept@[j]).dek@.len() == 32,
            decreases n - i,
        {
            let ghost rb = rest@;
            let e = rest.remove(0);
            proof {
                assert(cache_view(rb)[0] == (e.note_id@, e.dek@));
                assert(ov.skip(i as int)[0] == ov[i as int]);
                assert(rest@ =~= rb.subrange(1, rb.len() as int));
                assert forall|t: int| 0 <= t < rest@.len() implies cache_view(rest@)[t] == ov.skip(i + 1)[t] by {
                    assert(rest@[t] == rb[t + 1]);
                    assert(cache_view(rb)[t + 1] == ov.skip(i as int)[t + 1]);
                }
                assert(cache_view(rest@) =~= ov.skip(i + 1));
                assert(ov.take(i + 1).drop_last() =~= ov.take(i as int));
                assert(rb[0].dek@.len() == 32);
                assert forall|j: int| 0 <= j < rest@.len() implies (#[trigger] rest@[j]).dek@.len() == 32 by {
                    assert(rest@[j] == rb[j + 1]);
                }
            }
            if !crate::models::str_eq(e.note_id.as_str(), note_id) {
                let ghost before = kept@;
                let ghost ev = (e.note_id@, e.dek@);
                kept.push(e);
                proof {
                    assert(cache_view(kept@) =~= cache_view(before).push(ev));
                }
            }
            i += 1;
        }
        assert(ov.take(n as int) =~= ov);
        self.dek_cache = kept;
    }

    /// Keeps the key of a note in memory (replacing an earlier one).
    pub fn remember_dek(&mut self, note_id: String, dek: Vec<u8>)
        requires
            old(self).wf(),
            dek@.len() == 32,
        ensures
            final(self).wf(),
            cache_view(final(self).dek_cache@) == cache_without(cache_view(old(self).dek_cache@), note_id@).push((note_id@, dek@)),
            final(self).kek == old(self).kek,
            final(self).last_interaction == old(self).last_interaction,
            final(self).timeout_setting == old(self).timeout_setting,
    {
        self.forget_dek(note_id.as_str());
        let ghost before = self.dek_cache@;
        let ghost nv = (note_id@, dek@);
        self.dek_cache.push(CachedKey { note_id, dek });
        assert(cache_view(self.dek_cache@) =~= cache_view(before).push(nv));
    }
}

/// What the key cache gives back is what was last remembered: after a note's key is
/// remembered (its earlier entries forgotten, the new one appended), looking the note
/// up finds that key.
pub proof fn law_remembered_key_is_found(c: Seq<(Seq<char>, Seq<u8>)>, id: Seq<char>, k: Seq<u8>)
    ensures
        cache_get(cache_without(c, id).push((id, k)), id) == Some(k),
{
    lemma_without_lacks(c, id);
    lemma_get_past(cache_without(c, id), id, (id, k));
}

/// A cache without a note's entries has none for it.
pub proof fn lemma_without_lacks(c: Seq<(Seq<char>, Seq<u8>)>, id: Seq<char>)
    ensures
        forall|i: int| 0 <= i < cache_without(c, id).len() ==> (#[trigger] cache_without(c, id)[i]).0 != id,
    decreases c.len(),
{
    if c.len() > 0 {
        lemma_without_lacks(c.drop_last(), id);
        let rest = cache_without(c.drop_last(), id);
        if c.last().0 != id {
            assert forall|i: int| 0 <= i < rest.push(c.last()).len() implies (#[trigger] rest.push(c.last())[i]).0 != id by {
                if i < rest.len() {
                    assert(rest.push(c.last())[i] == rest[i]);
                }
            }
        }
    }
}

/// Past entries of other notes, the first entry of a note is found.
pub proof fn lemma_get_past(c: Seq<(Seq<char>, Seq<u8>)>, id: Seq<char>, e: (Seq<char>, Seq<u8>))
    requires
        forall|i: int| 0 <= i < c.len() ==> (#[trigger] c[i]).0 != id,
        e.0 == id,
    ensures
        cache_get(c.push(e), id) == Some(e.1),
    decreases c.len(),
{
    if c.len() > 0 {
        assert(c.push(e).drop_first() =~= c.drop_first().push(e));
        assert forall|i: int| 0 <= i < c.drop_first().len() implies (#[trigger] c.drop_first()[i]).0 != id by {
            assert(c.drop_first()[i] == c[i + 1]);
        }
        lemma_get_past(c.drop_first(), id, e);
    }
}

/// The lock timeout of a setting in seconds: `1m`, `5m`, `15m`, `1h`; `Every Time` locks
/// at once (0); anything else (`Until App Closes`) is 520 weeks (314 496 000 seconds).
pub open spec fn timeout_limit_spec(setting: Seq<char>) -> int {
    if setting == seq!['1', 'm'] {
        60
    } else if setting == seq!['5', 'm'] {
        300
    } else if setting == seq!['1', '5', 'm'] {
        900
    } else if setting == seq!['1', 'h'] {
        3600
    } else if setting == seq!['E', 'v', 'e', 'r', 'y', ' ', 'T', 'i', 'm', 'e'] {
        0
    } else {
        314_496_000
    }
}

/// The lock timeout of a setting, in seconds (see [`timeout_limit_spec`]).
pub fn timeout_limit_secs(setting: &str) -> (r: i64)
    ensures
        r as int == timeout_limit_spec(setting@),
{
    let s = chars_of(setting);
    let one_m = ['1', 'm'];
    let five_m = ['5', 'm'];
    let fifteen_m = ['1', '5', 'm'];
    let one_h = ['1', 'h'];
    let every = ['E', 'v', 'e', 'r', 'y', ' ', 'T', 'i', 'm', 'e'];
    assert(one_m@ =~= seq!['1', 'm']);
    assert(five_m@ =~= seq!['5', 'm']);
    assert(fifteen_m@ =~= seq!['1', '5', 'm']);
    assert(one_h@ =~= seq!['1', 'h']);
    assert(every@ =~= seq!['E', 'v', 'e', 'r', 'y', ' ', 'T', 'i', 'm', 'e']);
    if crate::text::chars_eq(&s, &one_m) {
        60
    } else if crate::text::chars_eq(&s, &five_m) {
        300
    } else if crate::text::chars_eq(&s, &fifteen_m) {
        900
    } else if crate::text::chars_eq(&s, &one_h) {
        3600
    } else if crate::text::chars_eq(&s, &every) {
        0
    } else {
        314_496_000
    }
}

impl Session {
    /// The session has been idle at least as long as its timeout allows.
    pub open spec fn expired_at(&self, now: Timestamp) -> bool {
        nanos_of(now) - nanos_of(self.last_interaction) >= timeout_limit_spec(self.timeout_setting@) * 1_000_000_000
    }

    /// The periodic check: an unlocked session idle for its timeout is locked (every key
    /// forgotten); otherwise nothing changes. Tells whether it locked.
    pub fn expire_if_idle(&mut self, now: Timestamp) -> (locked: bool)
        requires
            old(self).wf(),
        ensures
            final(self).wf(),
            locked == (old(self).kek is Some && old(self).expired_at(now)),
            locked ==> final(self).kek is None && final(self).dek_cache@.len() == 0,
            !locked ==> final(self).kek == old(self).kek && final(self).dek_cache@ == old(self).dek_cache@,
            final(self).last_interaction == old(self).last_interaction,
            final(self).timeout_setting == old(self).timeout_setting,
    {
        if self.kek.is_none() {
            return false;
        }
        let limit = timeout_limit_secs(self.timeout_setting.as_str());
        let elapsed: i128 = to_nanos(now) - to_nanos(self.last_interaction);
        let limit_nanos: i128 = (limit as i128) * 1_000_000_000;
        if elapsed >= limit_nanos {
            self.lock();
            true
        } else {
            false
        }
    }
}

/// The timeout setting to show: the session's while unlocked, else the stored one, else
/// `15m`.
pub fn effective_timeout_setting(session: &Session, stored: Option<String>) -> (r: String)
    ensures
        session.kek is Some ==> r == session.timeout_setting,
        session.kek is None ==> match stored {
            Some(t) => r == t,
            None => r@ == seq!['1', '5', 'm'],
        },
{
    if session.kek.is_some() {
        return session.timeout_setting.clone();
    }
    match stored {
        Some(t) => t,
        None => string_of(&['1', '5', 'm']),
    }
}


/// `key` sealed under `kek` with some nonce: the Base64 texts of the sealed key and of
/// the nonce are `enc` and `nonce`.
pub open spec fn sealed_key(enc: Option<Seq<char>>, nonce: Option<Seq<char>>, kek: Seq<u8>, key: Seq<u8>) -> bool {
    exists|n1: Seq<u8>| n1.len() == 24 && (#[trigger] xchacha_sealed(kek, n1, key)) is Some
        && enc == Some(base64_text(xchacha_sealed(kek, n1, key)->0)) && nonce == Some(base64_text(n1))
}

/// `text` is `body` (as UTF-8) sealed under `dek` with some nonce, nonce first, in Base64.
pub open spec fn sealed_body(text: Seq<char>, dek: Seq<u8>, body: Seq<char>) -> bool {
    exists|n2: Seq<u8>| n2.len() == 24 && (#[trigger] xchacha_sealed(dek, n2, encode_utf8(body))) is Some
        && text == base64_text(n2 + xchacha_sealed(dek, n2, encode_utf8(body))->0)
}

/// A note as encryption leaves it: marked encrypted, its body sealed under the 256-bit
/// note key `dek`, and that key sealed under the key-encryption key `kek`.
pub open spec fn encrypted_form(n: NoteView, body: Seq<char>, kek: Seq<u8>, dek: Seq<u8>) -> bool {
    &&& n.is_encrypted
    &&& dek.len() == 32
    &&& sealed_body(n.body, dek, body)
    &&& sealed_key(n.dek_encrypted, n.dek_nonce, kek, dek)
}

/// The note key for decryption: the cached one, else the sealed key opened with the
/// key-encryption key; or the reason there is none.
pub open spec fn dek_for(cache: Seq<(Seq<char>, Seq<u8>)>, kek: Option<Seq<u8>>, id: Seq<char>,
    enc: Option<Seq<char>>, nonce: Option<Seq<char>>) -> Result<Seq<u8>, Seq<char>> {
    match cache_get(cache, id) {
        Some(k) => Ok(k),
        None => match kek {
            None => Err(seq!['V', 'a', 'u', 'l', 't', ' ', 'i', 's', ' ', 'l', 'o', 'c', 'k', 'e', 'd']),
            Some(kk) => match enc {
                None => Err(seq!['M', 'i', 's', 's', 'i', 'n', 'g', ' ', 'e', 'n', 'c', 'r', 'y', 'p', 't', 'e', 'd', ' ', 'D', 'E', 'K']),
                Some(e) => match nonce {
                    None => Err(seq!['M', 'i', 's', 's', 'i', 'n', 'g', ' ', 'D', 'E', 'K', ' ', 'n', 'o', 'n', 'c', 'e']),
                    Some(nn) => match base64_bytes(e) {
                        Err(t) => Err(seq!['F', 'a', 'i', 'l', 'e', 'd', ' ', 't', 'o', ' ', 'd', 'e', 'c', 'o', 'd', 'e', ' ', 'e', 'n', 'c', 'r', 'y', 'p', 't', 'e', 'd', ' ', 'D', 'E', 'K', ':', ' '] + t),
                        Ok(ct) => match base64_bytes(nn) {
                            Err(t) => Err(seq!['F', 'a', 'i', 'l', 'e', 'd', ' ', 't', 'o', ' ', 'd', 'e', 'c', 'o', 'd', 'e', ' ', 'D', 'E', 'K', ' ', 'n', 'o', 'n', 'c', 'e', ':', ' '] + t),
                            Ok(nb) => match decrypt_bytes_spec(kk, ct, nb) {
                                Err(t) => Err(t),
                                Ok(p) => if p.len() != 32 { Err(seq!['D', 'e', 'c', 'r', 'y', 'p', 't', 'e', 'd', ' ', 'D', 'E', 'K', ' ', 'i', 's', ' ', 'n', 'o', 't', ' ', '2', '5', '6', '-', 'b', 'i', 't']) } else { Ok(p) },
                            },
                        },
                    },
                },
            },
        },
    }
}

/// The note key for decrypting a note: from the session's cache, else the note's sealed
/// key opened with the session's key-encryption key (and then cached). Failures are
/// vault errors (see [`dek_for`]). A key sealed under the session's key-encryption key,
/// or cached, is what comes back.
pub fn note_key(session: &mut Session, note_id: &str, dek_encrypted: &Option<String>, dek_nonce: &Option<String>) -> (r: Result<Vec<u8>, NodaError>)
    requires
        old(session).wf(),
    ensures
        final(session).wf(),
        final(session).kek == old(session).kek,
        final(session).last_interaction == old(session).last_interaction,
        final(session).timeout_setting == old(session).timeout_setting,
        match r {
            Ok(k) => dek_for(cache_view(old(session).dek_cache@), match old(session).kek { Some(v) => Some(v@), None => None },
                note_id@, opt_view(*dek_encrypted), opt_view(*dek_nonce)) == Ok::<Seq<u8>, Seq<char>>(k@) && k@.len() == 32,
            Err(e) => e is Vault && dek_for(cache_view(old(session).dek_cache@), match old(session).kek { Some(v) => Some(v@), None => None },
                note_id@, opt_view(*dek_encrypted), opt_view(*dek_nonce)) == Err::<Seq<u8>, Seq<char>>(crate::errors::detail_of(e)),
        },
        cache_get(cache_view(old(session).dek_cache@), note_id@) is Some || r is Err
            ==> cache_view(final(session).dek_cache@) == cache_view(old(session).dek_cache@),
        cache_get(cache_view(old(session).dek_cache@), note_id@) is None ==> (r matches Ok(k) ==>
            cache_view(final(session).dek_cache@) == cache_without(cache_view(old(session).dek_cache@), note_id@).push((note_id@, k@))),
        forall|dek: Seq<u8>| #![trigger cache_get(cache_view(old(session).dek_cache@), note_id@), dek.len()]
            cache_get(cache_view(old(session).dek_cache@), note_id@) == Some(dek) ==> (r matches Ok(k) && k@ == dek),
        forall|kek: Seq<u8>, dek: Seq<u8>| #![trigger sealed_key(opt_view(*dek_encrypted), opt_view(*dek_nonce), kek, dek)]
            cache_get(cache_view(old(session).dek_cache@), note_id@) is None
            && (old(session).kek matches Some(k) && k@ == kek) && dek.len() == 32
            && sealed_key(opt_view(*dek_encrypted), opt_view(*dek_nonce), kek, dek) ==> (r matches Ok(k) && k@ == dek),
{
    let ghost cv = cache_view(session.dek_cache@);
    match session.cached_dek(note_id) {
        Some(k) => {
            proof {
                assert(k@.len() == 32) by {
                    lemma_cached_len(session.dek_cache@, note_id@);
                }
            }
            return Ok(k);
        },
        None => {},
    }
    let kek = match &session.kek {
        Some(k) => k.clone(),
        None => {
            return Err(vault_error(vec!['V', 'a', 'u', 'l', 't', ' ', 'i', 's', ' ', 'l', 'o', 'c', 'k', 'e', 'd']));
        },
    };
    let enc = match dek_encrypted {
        Some(e) => e,
        None => {
            return Err(vault_error(vec!['M', 'i', 's', 's', 'i', 'n', 'g', ' ', 'e', 'n', 'c', 'r', 'y', 'p', 't', 'e', 'd', ' ', 'D', 'E', 'K']));
        },
    };
    let nonce_text = match dek_nonce {
        Some(n) => n,
        None => {
            return Err(vault_error(vec!['M', 'i', 's', 's', 'i', 'n', 'g', ' ', 'D', 'E', 'K', ' ', 'n', 'o', 'n', 'c', 'e']));
        },
    };
    let ct = match base64_decode(enc.as_str()) {
        Ok(b) => b,
        Err(e) => {
            proof {
                assert forall|kk: Seq<u8>, dek: Seq<u8>| !sealed_key(opt_view(*dek_encrypted), opt_view(*dek_nonce), kk, dek) by {
                    if sealed_key(opt_view(*dek_encrypted), opt_view(*dek_nonce), kk, dek) {
                        let n1 = choose|n1: Seq<u8>| n1.len() == 24 && (#[trigger] xchacha_sealed(kk, n1, dek)) is Some
                            && opt_view(*dek_encrypted) == Some(base64_text(xchacha_sealed(kk, n1, dek)->0)) && opt_view(*dek_nonce) == Some(base64_text(n1));
                        let ct1 = xchacha_sealed(kk, n1, dek)->0;
                        assert(enc@ == base64_text(ct1));
                    }
                }
            }
            return Err(vault_error_with(vec!['F', 'a', 'i', 'l', 'e', 'd', ' ', 't', 'o', ' ', 'd', 'e', 'c', 'o', 'd', 'e', ' ', 'e', 'n', 'c', 'r', 'y', 'p', 't', 'e', 'd', ' ', 'D', 'E', 'K', ':', ' '], e.as_str()));
        },
    };
    let nb = match base64_decode(nonce_text.as_str()) {
        Ok(b) => b,
        Err(e) => {
            proof {
                assert forall|kk: Seq<u8>, dek: Seq<u8>| !sealed_key(opt_view(*dek_encrypted), opt_view(*dek_nonce), kk, dek) by {
                    if sealed_key(opt_view(*dek_encrypted), opt_view(*dek_nonce), kk, dek) {
                        let n1 = choose|n1: Seq<u8>| n1.len() == 24 && (#[trigger] xchacha_sealed(kk, n1, dek)) is Some
                            && opt_view(*dek_encrypted) == Some(base64_text(xchacha_sealed(kk, n1, dek)->0)) && opt_view(*dek_nonce) == Some(base64_text(n1));
                        let ct1 = xchacha_sealed(kk, n1, dek)->0;
                        assert(nonce_text@ == base64_text(n1));
                    }
                }
            }
            return Err(vault_error_with(vec!['F', 'a', 'i', 'l', 'e', 'd', ' ', 't', 'o', ' ', 'd', 'e', 'c', 'o', 'd', 'e', ' ', 'D', 'E', 'K', ' ', 'n', 'o', 'n', 'c', 'e', ':', ' '], e.as_str()));
        },
    };
    proof {
        assert forall|kk: Seq<u8>, dek: Seq<u8>| kk == kek@ && sealed_key(opt_view(*dek_encrypted), opt_view(*dek_nonce), kk, dek)
            implies nb@.len() == 24 && xchacha_sealed(kk, nb@, dek) == Some(ct@) by {
            let n1 = choose|n1: Seq<u8>| n1.len() == 24 && (#[trigger] xchacha_sealed(kk, n1, dek)) is Some
                && opt_view(*dek_encrypted) == Some(base64_text(xchacha_sealed(kk, n1, dek)->0)) && opt_view(*dek_nonce) == Some(base64_text(n1));
            let ct1 = xchacha_sealed(kk, n1, dek)->0;
            assert(enc@ == base64_text(ct1));
            assert(nonce_text@ == base64_text(n1));
        }
    }
    let p = match decrypt_bytes(&kek, &ct, &nb) {
        Ok(p) => p,
        Err(e) => {
            return Err(e);
        },
    };
    if p.len() != 32 {
        return Err(vault_error(vec!['D', 'e', 'c', 'r', 'y', 'p', 't', 'e', 'd', ' ', 'D', 'E', 'K', ' ', 'i', 's', ' ', 'n', 'o', 't', ' ', '2', '5', '6', '-', 'b', 'i', 't']));
    }
    session.remember_dek(note_id.to_string(), p.clone());
    Ok(p)
}

/// A key found in a well-formed cache is 256-bit.
proof fn lemma_cached_len(c: Seq<CachedKey>, id: Seq<char>)
    requires
        forall|i: int| 0 <= i < c.len() ==> (#[trigger] c[i]).dek@.len() == 32,
    ensures
        cache_get(cache_view(c), id) matches Some(k) ==> k.len() == 32,
    decreases c.len(),
{
    if c.len() > 0 && c[0].note_id@ != id {
        assert(cache_view(c).drop_first() =~= cache_view(c.drop_first()));
        assert forall|i: int| 0 <= i < c.drop_first().len() implies (#[trigger] c.drop_first()[i]).dek@.len() == 32 by {
            assert(c.drop_first()[i] == c[i + 1]);
        }
        lemma_cached_len(c.drop_first(), id);
    }
}

/// What decrypting a note body with key `dek` gives: the Base64 payload (nonce first)
/// opened and read as UTF-8, or the reason it fails.
pub open spec fn body_for(dek: Seq<u8>, text: Seq<char>) -> Result<Seq<char>, Seq<char>> {
    match base64_bytes(text) {
        Err(t) => Err(seq!['F', 'a', 'i', 'l', 'e', 'd', ' ', 't', 'o', ' ', 'd', 'e', 'c', 'o', 'd', 'e', ' ', 'e', 'n', 'c', 'r', 'y', 'p', 't', 'e', 'd', ' ', 'b', 'o', 'd', 'y', ':', ' '] + t),
        Ok(pl) => if pl.len() < 24 {
            Err(seq!['E', 'n', 'c', 'r', 'y', 'p', 't', 'e', 'd', ' ', 'b', 'o', 'd', 'y', ' ', 'i', 's', ' ', 't', 'o', 'o', ' ', 's', 'h', 'o', 'r', 't'])
        } else {
            match decrypt_bytes_spec(dek, pl.skip(24), pl.take(24)) {
                Err(t) => Err(t),
                Ok(p) => if valid_utf8(p) { Ok(decode_utf8(p)) } else { Err(seq!['D', 'e', 'c', 'r', 'y', 'p', 't', 'e', 'd', ' ', 'b', 'o', 'd', 'y', ' ', 'i', 's', ' ', 'n', 'o', 't', ' ', 'v', 'a', 'l', 'i', 'd', ' ', 'U', 'T', 'F', '-', '8', ':', ' '] + utf8_error_text(p)) },
            }
        },
    }
}

/// Decrypts a note body with its key (see [`body_for`]); a body sealed under that key
/// comes back as it was.
pub fn open_body(dek: &Vec<u8>, text: &str) -> (r: Result<String, NodaError>)
    requires
        dek@.len() == 32,
    ensures
        match r {
            Ok(b) => body_for(dek@, text@) == Ok::<Seq<char>, Seq<char>>(b@),
            Err(e) => e is Vault && body_for(dek@, text@) == Err::<Seq<char>, Seq<char>>(crate::errors::detail_of(e)),
        },
        forall|body: Seq<char>| #[trigger] sealed_body(text@, dek@, body) ==> (r matches Ok(b) && b@ == body),
{
    let pl = match base64_decode(text) {
        Ok(b) => b,
        Err(e) => {
            proof {
                assert forall|body: Seq<char>| !#[trigger] sealed_body(text@, dek@, body) by {
                    if sealed_body(text@, dek@, body) {
                        let n2 = choose|n2: Seq<u8>| n2.len() == 24 && (#[trigger] xchacha_sealed(dek@, n2, encode_utf8(body))) is Some
                            && text@ == base64_text(n2 + xchacha_sealed(dek@, n2, encode_utf8(body))->0);
                    }
                }
            }
            return Err(vault_error_with(vec!['F', 'a', 'i', 'l', 'e', 'd', ' ', 't', 'o', ' ', 'd', 'e', 'c', 'o', 'd', 'e', ' ', 'e', 'n', 'c', 'r', 'y', 'p', 't', 'e', 'd', ' ', 'b', 'o', 'd', 'y', ':', ' '], e.as_str()));
        },
    };
    proof {
        assert forall|body: Seq<char>| #[trigger] sealed_body(text@, dek@, body)
            implies pl@.len() >= 24 && xchacha_sealed(dek@, pl@.take(24), encode_utf8(body)) == Some(pl@.skip(24)) by {
            let n2 = choose|n2: Seq<u8>| n2.len() == 24 && (#[trigger] xchacha_sealed(dek@, n2, encode_utf8(body))) is Some
                && text@ == base64_text(n2 + xchacha_sealed(dek@, n2, encode_utf8(body))->0);
            let ct2 = xchacha_sealed(dek@, n2, encode_utf8(body))->0;
            assert(pl@ == n2 + ct2);
            assert((n2 + ct2).take(24) =~= n2);
            assert((n2 + ct2).skip(24) =~= ct2);
        }
    }
    if pl.len() < 24 {
        return Err(vault_error(vec!['E', 'n', 'c', 'r', 'y', 'p', 't', 'e', 'd', ' ', 'b', 'o', 'd', 'y', ' ', 'i', 's', ' ', 't', 'o', 'o', ' ', 's', 'h', 'o', 'r', 't']));
    }
    let nonce = crate::paths::head_to_bytes(&pl, 24);
    let ct = crate::paths::tail_from_bytes(&pl, 24);
    let p = match decrypt_bytes(dek, &ct, &nonce) {
        Ok(p) => p,
        Err(e) => {
            return Err(e);
        },
    };
    let ghost pv = p@;
    match string_from_utf8(p) {
        Ok(b) => {
            proof {
                assert forall|body: Seq<char>| #[trigger] sealed_body(text@, dek@, body) implies b@ == body by {
                    assert(pv == encode_utf8(body));
                    vstd::utf8::encode_utf8_decode_utf8(body);
                }
            }
            Ok(b)
        },
        Err(e) => {
            proof {
                assert forall|body: Seq<char>| !#[trigger] sealed_body(text@, dek@, body) by {
                    if sealed_body(text@, dek@, body) {
                        assert(pv == encode_utf8(body));
                        vstd::utf8::encode_utf8_valid_utf8(body);
                    }
                }
            }
            Err(vault_error_with(vec!['D', 'e', 'c', 'r', 'y', 'p', 't', 'e', 'd', ' ', 'b', 'o', 'd', 'y', ' ', 'i', 's', ' ', 'n', 'o', 't', ' ', 'v', 'a', 'l', 'i', 'd', ' ', 'U', 'T', 'F', '-', '8', ':', ' '], e.as_str()))
        },
    }
}


/// Removing a note's entries twice removes no more.
pub proof fn lemma_without_twice(c: Seq<(Seq<char>, Seq<u8>)>, id: Seq<char>)
    ensures
        cache_without(cache_without(c, id), id) == cache_without(c, id),
    decreases c.len(),
{
    if c.len() > 0 {
        lemma_without_twice(c.drop_last(), id);
        let rest = cache_without(c.drop_last(), id);
        if c.last().0 != id {
            assert(rest.push(c.last()).drop_last() =~= rest);
        }
    }
}

/// Encrypts a note in place with a fresh random 256-bit note key: the key is sealed
/// under the session's key-encryption key, the body (as UTF-8) under the note key, the
/// nonce put before the ciphertext, both stored in Base64; the note key is cached. A
/// locked session refuses with `Vault is locked`.
pub fn encrypt_note(note: &mut Note, session: &mut Session) -> (r: Result<(), NodaError>)
    requires
        old(session).wf(),
    ensures
        final(session).wf(),
        final(session).kek == old(session).kek,
        final(session).last_interaction == old(session).last_interaction,
        final(session).timeout_setting == old(session).timeout_setting,
        match r {
            Ok(()) => old(session).kek matches Some(k) && exists|dek: Seq<u8>| {
                &&& #[trigger] encrypted_form(final(note)@, old(note)@.body, k@, dek)
                &&& cache_view(final(session).dek_cache@) == cache_without(cache_view(old(session).dek_cache@), old(note)@.id).push((old(note)@.id, dek))
                &&& final(note)@ == (NoteView {
                    body: final(note)@.body,
                    is_encrypted: true,
                    dek_encrypted: final(note)@.dek_encrypted,
                    dek_nonce: final(note)@.dek_nonce,
                    ..old(note)@
                })
            },
            Err(e) => e is Vault && final(note)@ == old(note)@
                && cache_view(final(session).dek_cache@) == cache_view(old(session).dek_cache@)
                && (old(session).kek is None ==> crate::errors::detail_of(e) == seq!['V', 'a', 'u', 'l', 't', ' ', 'i', 's', ' ', 'l', 'o', 'c', 'k', 'e', 'd'])
                && (old(session).kek is Some ==> crate::errors::detail_of(e) == seq!['X', 'C', 'h', 'a', 'C', 'h', 'a', '2', '0', '-', 'P', 'o', 'l', 'y', '1', '3', '0', '5', ' ', 'e', 'n', 'c', 'r', 'y', 'p', 't', 'i', 'o', 'n', ' ', 'f', 'a', 'i', 'l', 'e', 'd', ':', ' '] + aead_error_text()),
        },
        old(session).kek is Some ==> (r is Ok <==> sealable(encode_utf8(old(note)@.body))),
{
    let kek = match &session.kek {
        Some(k) => k.clone(),
        None => {
            return Err(vault_error(vec!['V', 'a', 'u', 'l', 't', ' ', 'i', 's', ' ', 'l', 'o', 'c', 'k', 'e', 'd']));
        },
    };
    let dek = random_bytes(32);
    let (dek_ct, dek_nonce) = match encrypt_bytes(&kek, &dek) {
        Ok(x) => x,
        Err(e) => {
            return Err(e);
        },
    };
    let plain = note.body.as_str().as_bytes();
    let (body_ct, body_nonce) = match encrypt_bytes(&dek, plain) {
        Ok(x) => x,
        Err(e) => {
            return Err(e);
        },
    };
    let mut payload = body_nonce.clone();
    let ghost n2 = body_nonce@;
    let ghost ct2 = body_ct@;
    let mut bc = body_ct;
    payload.append(&mut bc);
    assert(payload@ == n2 + ct2);
    let body_text = base64_encode(&payload);
    let dek_text = base64_encode(&dek_ct);
    let nonce_text = base64_encode(&dek_nonce);
    let ghost old_note = note@;
    note.is_encrypted = true;
    note.dek_encrypted = Some(dek_text);
    note.dek_nonce = Some(nonce_text);
    note.body = body_text;
    let id = note.id.0.clone();
    session.remember_dek(id, dek.clone());
    proof {
        assert(sealed_body(note@.body, dek@, old_note.body)) by {
            assert(xchacha_sealed(dek@, n2, encode_utf8(old_note.body)) is Some);
        }
        assert(sealed_key(note@.dek_encrypted, note@.dek_nonce, kek@, dek@)) by {
            assert(xchacha_sealed(kek@, dek_nonce@, dek@) is Some);
        }
        assert(encrypted_form(note@, old_note.body, kek@, dek@));
        assert(note@ =~= (NoteView {
            body: note@.body,
            is_encrypted: true,
            dek_encrypted: note@.dek_encrypted,
            dek_nonce: note@.dek_nonce,
            ..old_note
        }));
    }
    Ok(())
}

/// What decrypting a note gives: its note key (see [`dek_for`]) and then its body (see
/// [`body_for`]), or the reason it fails.
pub open spec fn decrypt_spec(n: NoteView, cache: Seq<(Seq<char>, Seq<u8>)>, kek: Option<Seq<u8>>) -> Result<Seq<char>, Seq<char>> {
    match dek_for(cache, kek, n.id, n.dek_encrypted, n.dek_nonce) {
        Err(t) => Err(t),
        Ok(k) => body_for(k, n.body),
    }
}

/// Decrypts a note in place (see [`decrypt_spec`]): the body is the decrypted text, the
/// note is no longer marked encrypted and holds no key; the note key leaves the cache.
/// A note that encryption produced with the session's key-encryption key (or whose key
/// is cached) gets its original body back.
pub fn decrypt_note(note: &mut Note, session: &mut Session) -> (r: Result<(), NodaError>)
    requires
        old(session).wf(),
    ensures
        final(session).wf(),
        final(session).kek == old(session).kek,
        final(session).last_interaction == old(session).last_interaction,
        final(session).timeout_setting == old(session).timeout_setting,
        match r {
            Ok(()) => decrypt_spec(old(note)@, cache_view(old(session).dek_cache@), match old(session).kek { Some(v) => Some(v@), None => None })
                    == Ok::<Seq<char>, Seq<char>>(final(note)@.body)
                && final(note)@ == (NoteView {
                    body: final(note)@.body,
                    is_encrypted: false,
                    dek_encrypted: None,
                    dek_nonce: None,
                    ..old(note)@
                })
                && cache_view(final(session).dek_cache@) == cache_without(cache_view(old(session).dek_cache@), old(note)@.id),
            Err(e) => e is Vault && final(note)@ == old(note)@
                && decrypt_spec(old(note)@, cache_view(old(session).dek_cache@), match old(session).kek { Some(v) => Some(v@), None => None })
                    == Err::<Seq<char>, Seq<char>>(crate::errors::detail_of(e)),
        },
        forall|body: Seq<char>, kek: Seq<u8>, dek: Seq<u8>| #![trigger encrypted_form(old(note)@, body, kek, dek)]
            encrypted_form(old(note)@, body, kek, dek)
            && (cache_get(cache_view(old(session).dek_cache@), old(note)@.id) == Some(dek)
                || (cache_get(cache_view(old(session).dek_cache@), old(note)@.id) is None && (old(session).kek matches Some(k) && k@ == kek)))
            ==> (r is Ok && final(note)@.body == body),
{
    let ghost old_note = note@;
    let ghost old_cache = cache_view(session.dek_cache@);
    let id = note.id.0.clone();
    let dek = match note_key(session, id.as_str(), &note.dek_encrypted, &note.dek_nonce) {
        Ok(k) => k,
        Err(e) => {
            proof {
                assert forall|body: Seq<char>, kek: Seq<u8>, dek: Seq<u8>| #![trigger encrypted_form(old_note, body, kek, dek)]
                    !(encrypted_form(old_note, body, kek, dek)
                    && (cache_get(old_cache, old_note.id) == Some(dek)
                        || (cache_get(old_cache, old_note.id) is None && (old(session).kek matches Some(k) && k@ == kek)))) by {
                    if encrypted_form(old_note, body, kek, dek) && cache_get(old_cache, old_note.id) is None {
                        assert(sealed_key(old_note.dek_encrypted, old_note.dek_nonce, kek, dek));
                    }
                }
            }
            return Err(e);
        },
    };
    let ghost cache_after_key = cache_view(session.dek_cache@);
    proof {
        assert forall|body: Seq<char>, kek: Seq<u8>, dk: Seq<u8>| #![trigger encrypted_form(old_note, body, kek, dk)]
            encrypted_form(old_note, body, kek, dk)
            && (cache_get(old_cache, old_note.id) == Some(dk)
                || (cache_get(old_cache, old_note.id) is None && (old(session).kek matches Some(k) && k@ == kek)))
            implies dek@ == dk by {
            if cache_get(old_cache, old_note.id) is None {
                assert(sealed_key(old_note.dek_encrypted, old_note.dek_nonce, kek, dk));
            } else {
                assert(dk.len() == dk.len());
            }
        }
    }
    let body = match open_body(&dek, note.body.as_str()) {
        Ok(b) => b,
        Err(e) => {
            proof {
                assert forall|b: Seq<char>, kek: Seq<u8>, dk: Seq<u8>| #![trigger encrypted_form(old_note, b, kek, dk)]
                    !(encrypted_form(old_note, b, kek, dk)
                    && (cache_get(old_cache, old_note.id) == Some(dk)
                        || (cache_get(old_cache, old_note.id) is None && (old(session).kek matches Some(k) && k@ == kek)))) by {
                    if encrypted_form(old_note, b, kek, dk)
                        && (cache_get(old_cache, old_note.id) == Some(dk)
                            || (cache_get(old_cache, old_note.id) is None && (old(session).kek matches Some(k) && k@ == kek))) {
                        assert(dek@ == dk);
                        assert(sealed_body(old_note.body, dek@, b));
                    }
                }
            }
            return Err(e);
        },
    };
    proof {
        assert forall|b: Seq<char>, kek: Seq<u8>, dk: Seq<u8>| #![trigger encrypted_form(old_note, b, kek, dk)]
            encrypted_form(old_note, b, kek, dk)
            && (cache_get(old_cache, old_note.id) == Some(dk)
                || (cache_get(old_cache, old_note.id) is None && (old(session).kek matches Some(k) && k@ == kek)))
            implies body@ == b by {
            assert(dek@ == dk);
            assert(sealed_body(old_note.body, dek@, b));
        }
    }
    note.is_encrypted = false;
    note.dek_encrypted = None;
    note.dek_nonce = None;
    note.body = body;
    session.forget_dek(id.as_str());
    proof {
        lemma_without_twice(old_cache, old_note.id);
        if cache_get(old_cache, old_note.id) is None {
            let w = cache_without(old_cache, old_note.id);
            assert(w.push((old_note.id, dek@)).drop_last() =~= w);
            assert(cache_without(w.push((old_note.id, dek@)), old_note.id) == cache_without(w, old_note.id));
        }
        assert(note@ =~= (NoteView {
            body: note@.body,
            is_encrypted: false,
            dek_encrypted: None,
            dek_nonce: None,
            ..old_note
        }));
    }
    Ok(())
}

/// `e` and `n` hold, in Base64, the note key that the old sealed key opens to under
/// `old_kek`, sealed again under `new_kek`.
pub open spec fn resealed(old_enc: Option<Seq<char>>, old_nonce: Option<Seq<char>>, old_kek: Seq<u8>, new_kek: Seq<u8>, e: Seq<char>, n: Seq<char>) -> bool {
    exists|dek: Seq<u8>| #[trigger] sealed_key(Some(e), Some(n), new_kek, dek)
        && decrypt_bytes_spec(old_kek, base64_bytes(old_enc->0)->Ok_0, base64_bytes(old_nonce->0)->Ok_0) == Ok::<Seq<u8>, Seq<char>>(dek)
}

/// A sealed note key can be sealed again: both texts are there and decode from Base64,
/// the key opens under the old key-encryption key (so the nonce has 24 bytes) and is
/// short enough to seal.
pub open spec fn reseal_succeeds(old_enc: Option<Seq<char>>, old_nonce: Option<Seq<char>>, old_kek: Seq<u8>) -> bool {
    &&& old_enc is Some && old_nonce is Some
    &&& base64_bytes(old_enc->0) is Ok && base64_bytes(old_nonce->0) is Ok
    &&& decrypt_bytes_spec(old_kek, base64_bytes(old_enc->0)->Ok_0, base64_bytes(old_nonce->0)->Ok_0) matches Ok(dek)
        && sealable(dek)
}

/// The note key sealed again under a new key-encryption key (for a master password
/// change): the old sealed key is opened with the old key-encryption key and sealed
/// with the new one under a fresh nonce; the new Base64 texts of the sealed key and its
/// nonce come back.
pub fn reseal_note_key(
    old_kek: &Vec<u8>,
    new_kek: &Vec<u8>,
    dek_encrypted: &Option<String>,
    dek_nonce: &Option<String>,
) -> (r: Result<(String, String), NodaError>)
    requires
        old_kek@.len() == 32,
        new_kek@.len() == 32,
    ensures
        r matches Err(e) ==> e is Vault,
        forall|dek: Seq<u8>| #![trigger sealed_key(opt_view(*dek_encrypted), opt_view(*dek_nonce), old_kek@, dek)]
            sealed_key(opt_view(*dek_encrypted), opt_view(*dek_nonce), old_kek@, dek)
            ==> (r is Err || (r matches Ok((e, n)) && sealed_key(Some(e@), Some(n@), new_kek@, dek))),
        r matches Ok((e, n)) ==> resealed(opt_view(*dek_encrypted), opt_view(*dek_nonce), old_kek@, new_kek@, e@, n@),
        r is Ok <==> reseal_succeeds(opt_view(*dek_encrypted), opt_view(*dek_nonce), old_kek@),
{
    let enc = match dek_encrypted {
        Some(e) => e,
        None => {
            return Err(vault_error(vec!['M', 'i', 's', 's', 'i', 'n', 'g', ' ', 'e', 'n', 'c', 'r', 'y', 'p', 't', 'e', 'd', ' ', 'D', 'E', 'K']));
        },
    };
    let nonce_text = match dek_nonce {
        Some(n) => n,
        None => {
            return Err(vault_error(vec!['M', 'i', 's', 's', 'i', 'n', 'g', ' ', 'D', 'E', 'K', ' ', 'n', 'o', 'n', 'c', 'e']));
        },
    };
    let ct = match base64_decode(enc.as_str()) {
        Ok(b) => b,
        Err(e) => {
            proof {
                assert forall|dek: Seq<u8>| !sealed_key(opt_view(*dek_encrypted), opt_view(*dek_nonce), old_kek@, dek) by {
                    if sealed_key(opt_view(*dek_encrypted), opt_view(*dek_nonce), old_kek@, dek) {
                        let n1 = choose|n1: Seq<u8>| n1.len() == 24 && (#[trigger] xchacha_sealed(old_kek@, n1, dek)) is Some
                            && opt_view(*dek_encrypted) == Some(base64_text(xchacha_sealed(old_kek@, n1, dek)->0)) && opt_view(*dek_nonce) == Some(base64_text(n1));
                        assert(enc@ == base64_text(xchacha_sealed(old_kek@, n1, dek)->0));
                    }
                }
            }
            return Err(vault_error_with(vec!['F', 'a', 'i', 'l', 'e', 'd', ' ', 't', 'o', ' ', 'd', 'e', 'c', 'o', 'd', 'e', ' ', 'e', 'n', 'c', 'r', 'y', 'p', 't', 'e', 'd', ' ', 'D', 'E', 'K', ':', ' '], e.as_str()));
        },
    };
    let nb = match base64_decode(nonce_text.as_str()) {
        Ok(b) => b,
        Err(e) => {
            proof {
                assert forall|dek: Seq<u8>| !sealed_key(opt_view(*dek_encrypted), opt_view(*dek_nonce), old_kek@, dek) by {
                    if sealed_key(opt_view(*dek_encrypted), opt_view(*dek_nonce), old_kek@, dek) {
                        let n1 = choose|n1: Seq<u8>| n1.len() == 24 && (#[trigger] xchacha_sealed(old_kek@, n1, dek)) is Some
                            && opt_view(*dek_encrypted) == Some(base64_text(xchacha_sealed(old_kek@, n1, dek)->0)) && opt_view(*dek_nonce) == Some(base64_text(n1));
                        assert(nonce_text@ == base64_text(n1));
                    }
                }
            }
            return Err(vault_error_with(vec!['F', 'a', 'i', 'l', 'e', 'd', ' ', 't', 'o', ' ', 'd', 'e', 'c', 'o', 'd', 'e', ' ', 'D', 'E', 'K', ' ', 'n', 'o', 'n', 'c', 'e', ':', ' '], e.as_str()));
        },
    };
    proof {
        assert forall|dek: Seq<u8>| sealed_key(opt_view(*dek_encrypted), opt_view(*dek_nonce), old_kek@, dek)
            implies nb@.len() == 24 && xchacha_sealed(old_kek@, nb@, dek) == Some(ct@) by {
            let n1 = choose|n1: Seq<u8>| n1.len() == 24 && (#[trigger] xchacha_sealed(old_kek@, n1, dek)) is Some
                && opt_view(*dek_encrypted) == Some(base64_text(xchacha_sealed(old_kek@, n1, dek)->0)) && opt_view(*dek_nonce) == Some(base64_text(n1));
            assert(enc@ == base64_text(xchacha_sealed(old_kek@, n1, dek)->0));
            assert(nonce_text@ == base64_text(n1));
        }
    }
    let dek = match decrypt_bytes(old_kek, &ct, &nb) {
        Ok(p) => p,
        Err(e) => {
            return Err(e);
        },
    };
    let (new_ct, new_nonce) = match encrypt_bytes(new_kek, &dek) {
        Ok(x) => x,
        Err(e) => {
            return Err(e);
        },
    };
    let e_text = base64_encode(&new_ct);
    let n_text = base64_encode(&new_nonce);
    proof {
        assert(sealed_key(Some(e_text@), Some(n_text@), new_kek@, dek@)) by {
            assert(xchacha_sealed(new_kek@, new_nonce@, dek@) is Some);
        }
        assert(opt_view(*dek_encrypted)->0 == enc@);
        assert(opt_view(*dek_nonce)->0 == nonce_text@);
        assert(base64_bytes(enc@)->Ok_0 == ct@);
        assert(base64_bytes(nonce_text@)->Ok_0 == nb@);
        assert(decrypt_bytes_spec(old_kek@, ct@, nb@) == Ok::<Seq<u8>, Seq<char>>(dek@));
        assert(resealed(opt_view(*dek_encrypted), opt_view(*dek_nonce), old_kek@, new_kek@, e_text@, n_text@));
    }
    let r: Result<(String, String), NodaError> = Ok((e_text, n_text));
    r
}


/// The master-password settings of a vault: the password's Argon2 hash, the Base64 salt
/// of the key-encryption key, and the lock timeout.
#[derive(Debug)]
pub struct VaultConfig {
    pub master_password_hash: String,
    pub kek_salt: String,
    pub timeout_setting: String,
}

/// The lock timeout of a vault configuration that names none: `15m`.
pub fn default_timeout_setting() -> (r: String)
    ensures
        r@ == seq!['1', '5', 'm'],
{
    string_of(&['1', '5', 'm'])
}

/// A PHC-format Argon2 hash of a password with a fresh random salt
/// (`Argon2::default().hash_password` with `SaltString::generate(&mut OsRng)`), or the
/// error text. Claimed: the hash verifies the same password (`PasswordVerifier`
/// recomputes it from the salt and parameters that the PHC string holds), and hashing
/// succeeds exactly for a password of at most `u32::MAX` bytes (the generated 16-byte salt and
/// the default parameters are always accepted). The hash text itself, which depends on
/// the random salt, is not claimed.
#[verifier::external_body]
fn hash_password(password: &[u8]) -> (r: Result<String, String>)
    ensures
        match r {
            Ok(h) => password_check(h@, password@) == Ok::<bool, Seq<char>>(true) && password@.len() <= 0xFFFF_FFFF,
            Err(_) => password@.len() > 0xFFFF_FFFF,
        },
{
    let salt = argon2::password_hash::SaltString::generate(&mut argon2::password_hash::rand_core::OsRng);
    match argon2::Argon2::default().hash_password(password, &salt) {
        Ok(h) => Ok(h.to_string()),
        Err(e) => Err(e.to_string()),
    }
}

/// Whether a password matches a stored PHC hash (`PasswordHash::new` then
/// `Argon2::default().verify_password(..).is_ok()`), or the text of the parse error.
pub uninterp spec fn password_check(hash: Seq<char>, password: Seq<u8>) -> Result<bool, Seq<char>>;

/// Checks a password against a stored hash. Claimed: the result is the named one.
#[verifier::external_body]
fn verify_password(hash: &str, password: &[u8]) -> (r: Result<bool, String>)
    ensures
        match r {
            Ok(b) => password_check(hash@, password@) == Ok::<bool, Seq<char>>(b),
            Err(e) => password_check(hash@, password@) == Err::<bool, Seq<char>>(e@),
        },
{
    match argon2::PasswordHash::new(hash) {
        Ok(parsed) => Ok(argon2::Argon2::default().verify_password(password, &parsed).is_ok()),
        Err(e) => Err(e.to_string()),
    }
}

/// Registers a master password: a fresh password hash, a fresh random 16-byte salt for
/// the key-encryption key (stored in Base64), the `15m` timeout; and the key-encryption
/// key derived from the password and that salt.
pub fn register_password(password: &str) -> (r: Result<(VaultConfig, Vec<u8>), NodaError>)
    ensures
        match r {
            Ok((c, k)) => c.timeout_setting@ == seq!['1', '5', 'm'] && k@.len() == 32
                && exists|salt: Seq<u8>| salt.len() == 16 && c.kek_salt@ == #[trigger] base64_text(salt)
                    && argon2_kek(encode_utf8(password@), salt) == Ok::<Seq<u8>, Seq<char>>(k@),
            Err(e) => e is Vault,
        },
        r matches Ok((c, _)) ==> password_check(c.master_password_hash@, encode_utf8(password@)) == Ok::<bool, Seq<char>>(true),
        r is Ok <==> encode_utf8(password@).len() <= 0xFFFF_FFFF,
{
    let hash = match hash_password(password.as_bytes()) {
        Ok(h) => h,
        Err(e) => {
            return Err(vault_error_with(vec!['A', 'r', 'g', 'o', 'n', '2', ' ', 'h', 'a', 's', 'h', 'i', 'n', 'g', ' ', 'f', 'a', 'i', 'l', 'e', 'd', ':', ' '], e.as_str()));
        },
    };
    let salt = random_bytes(16);
    let salt_text = base64_encode(&salt);
    let kek = match derive_kek(password, &salt) {
        Ok(k) => k,
        Err(e) => {
            return Err(e);
        },
    };
    let config = VaultConfig { master_password_hash: hash, kek_salt: salt_text, timeout_setting: default_timeout_setting() };
    Ok((config, kek))
}

/// The keys of a master-password change: the key-encryption key of the old password,
/// that of the new one, and the new salt in Base64.
#[derive(Debug)]
pub struct KeyChange {
    pub old_kek: Vec<u8>,
    pub new_kek: Vec<u8>,
    pub new_salt: String,
}

/// `Incorrect old password`.
pub open spec fn incorrect_old_password() -> Seq<char> {
    seq!['I', 'n', 'c', 'o', 'r', 'r', 'e', 'c', 't', ' ', 'o', 'l', 'd', ' ', 'p', 'a', 's', 's', 'w', 'o', 'r', 'd']
}

/// Starts a master-password change: the old password must match the stored hash
/// (else `Incorrect old password`; an unreadable hash or salt is a vault error too);
/// its key-encryption key is derived from the stored salt, and the new password's from
/// a fresh random 16-byte salt.
pub fn begin_password_change(config: &VaultConfig, old_password: &str, new_password: &str) -> (r: Result<KeyChange, NodaError>)
    ensures
        match r {
            Ok(c) => password_check(config.master_password_hash@, encode_utf8(old_password@)) == Ok::<bool, Seq<char>>(true)
                && (base64_bytes(config.kek_salt@) matches Ok(salt)
                    && argon2_kek(encode_utf8(old_password@), salt) == Ok::<Seq<u8>, Seq<char>>(c.old_kek@))
                && c.old_kek@.len() == 32 && c.new_kek@.len() == 32
                && exists|salt: Seq<u8>| salt.len() == 16 && c.new_salt@ == #[trigger] base64_text(salt)
                    && argon2_kek(encode_utf8(new_password@), salt) == Ok::<Seq<u8>, Seq<char>>(c.new_kek@),
            Err(e) => e is Vault,
        },
        password_check(config.master_password_hash@, encode_utf8(old_password@)) == Ok::<bool, Seq<char>>(false)
            <==> (r matches Err(e) && crate::errors::detail_of(e) == incorrect_old_password()),
        password_check(config.master_password_hash@, encode_utf8(old_password@)) is Err ==> r is Err,
        password_check(config.master_password_hash@, encode_utf8(old_password@)) == Ok::<bool, Seq<char>>(true) ==> (
            r is Ok <==> (base64_bytes(config.kek_salt@) matches Ok(salt)
                && argon2_kek(encode_utf8(old_password@), salt) is Ok
                && encode_utf8(new_password@).len() <= 0xFFFF_FFFF)),
{
    let matches = match verify_password(config.master_password_hash.as_str(), old_password.as_bytes()) {
        Ok(b) => b,
        Err(e) => {
            return Err(vault_error_with(vec!['I', 'n', 'v', 'a', 'l', 'i', 'd', ' ', 'A', 'r', 'g', 'o', 'n', '2', ' ', 'h', 'a', 's', 'h', ' ', 's', 't', 'o', 'r', 'e', 'd', ':', ' '], e.as_str()));
        },
    };
    if !matches {
        return Err(vault_error(vec!['I', 'n', 'c', 'o', 'r', 'r', 'e', 'c', 't', ' ', 'o', 'l', 'd', ' ', 'p', 'a', 's', 's', 'w', 'o', 'r', 'd']));
    }
    let old_salt = match base64_decode(config.kek_salt.as_str()) {
        Ok(b) => b,
        Err(e) => {
            return Err(vault_error_with(vec!['F', 'a', 'i', 'l', 'e', 'd', ' ', 't', 'o', ' ', 'd', 'e', 'c', 'o', 'd', 'e', ' ', 'o', 'l', 'd', ' ', 'K', 'E', 'K', ' ', 's', 'a', 'l', 't', ':', ' '], e.as_str()));
        },
    };
    let old_kek = derive_kek(old_password, &old_salt)?;
    let new_salt = random_bytes(16);
    let new_kek = derive_kek(new_password, &new_salt)?;
    let new_salt_text = base64_encode(&new_salt);
    Ok(KeyChange { old_kek, new_kek, new_salt: new_salt_text })
}

/// Ends a master-password change once every note key is re-sealed: the new password's
/// hash (a fresh Argon2 hash; its failure is a vault error), the new salt, and the
/// timeout kept.
pub fn finish_password_change(config: &VaultConfig, new_password: &str, new_salt: String) -> (r: Result<VaultConfig, NodaError>)
    ensures
        match r {
            Ok(c) => c.kek_salt@ == new_salt@ && c.timeout_setting@ == config.timeout_setting@
                && password_check(c.master_password_hash@, encode_utf8(new_password@)) == Ok::<bool, Seq<char>>(true),
            Err(e) => e is Vault,
        },
        r is Ok <==> encode_utf8(new_password@).len() <= 0xFFFF_FFFF,
{
    let hash = match hash_password(new_password.as_bytes()) {
        Ok(h) => h,
        Err(e) => {
            return Err(vault_error_with(vec!['A', 'r', 'g', 'o', 'n', '2', ' ', 'h', 'a', 's', 'h', 'i', 'n', 'g', ' ', 'f', 'a', 'i', 'l', 'e', 'd', ':', ' '], e.as_str()));
        },
    };
    Ok(VaultConfig { master_password_hash: hash, kek_salt: new_salt, timeout_setting: config.timeout_setting.clone() })
}

/// Unlocks the session with a password: a password that matches the stored hash derives
/// the key-encryption key from the stored salt and unlocks (with the stored timeout, at
/// `now`, cache emptied) and gives `true`; a wrong password gives `false` and changes
/// nothing. A stored hash or salt that cannot be read is a vault error.
pub fn unlock_with_password(config: &VaultConfig, password: &str, session: &mut Session, now: Timestamp) -> (r: Result<bool, NodaError>)
    requires
        old(session).wf(),
    ensures
        final(session).wf(),
        r matches Ok(false) ==> password_check(config.master_password_hash@, encode_utf8(password@)) == Ok::<bool, Seq<char>>(false)
            && final(session).kek == old(session).kek && final(session).dek_cache@ == old(session).dek_cache@,
        r matches Ok(true) ==> password_check(config.master_password_hash@, encode_utf8(password@)) == Ok::<bool, Seq<char>>(true)
            && (final(session).kek matches Some(k) && base64_bytes(config.kek_salt@) matches Ok(salt)
                && argon2_kek(encode_utf8(password@), salt) == Ok::<Seq<u8>, Seq<char>>(k@))
            && final(session).dek_cache@.len() == 0
            && final(session).timeout_setting == config.timeout_setting
            && final(session).last_interaction == now,
        r matches Err(e) ==> e is Vault && final(session).kek == old(session).kek,
        password_check(config.master_password_hash@, encode_utf8(password@)) == Ok::<bool, Seq<char>>(false) ==> r == Ok::<bool, NodaError>(false),
        password_check(config.master_password_hash@, encode_utf8(password@)) is Err ==> r is Err,
        password_check(config.master_password_hash@, encode_utf8(password@)) == Ok::<bool, Seq<char>>(true) ==> (
            if base64_bytes(config.kek_salt@) matches Ok(salt) && argon2_kek(encode_utf8(password@), salt) is Ok {
                r == Ok::<bool, NodaError>(true)
            } else {
                r is Err
            }),
{
    let matches = match verify_password(config.master_password_hash.as_str(), password.as_bytes()) {
        Ok(b) => b,
        Err(e) => {
            return Err(vault_error_with(vec!['I', 'n', 'v', 'a', 'l', 'i', 'd', ' ', 'A', 'r', 'g', 'o', 'n', '2', ' ', 'h', 'a', 's', 'h', ' ', 's', 't', 'o', 'r', 'e', 'd', ':', ' '], e.as_str()));
        },
    };
    if !matches {
        return Ok(false);
    }
    let salt = match base64_decode(config.kek_salt.as_str()) {
        Ok(b) => b,
        Err(e) => {
            return Err(vault_error_with(vec!['F', 'a', 'i', 'l', 'e', 'd', ' ', 't', 'o', ' ', 'd', 'e', 'c', 'o', 'd', 'e', ' ', 'K', 'E', 'K', ' ', 's', 'a', 'l', 't', ':', ' '], e.as_str()));
        },
    };
    let kek = match derive_kek(password, &salt) {
        Ok(k) => k,
        Err(e) => {
            return Err(e);
        },
    };
    session.unlock(kek, config.timeout_setting.clone(), now);
    Ok(true)
}

} // verus!
