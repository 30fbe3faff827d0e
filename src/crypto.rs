use vstd::prelude::*;

use aes::cipher::block_padding::Pkcs7;
use aes::cipher::{BlockDecryptMut, BlockEncryptMut, KeyIvInit};
use pbkdf2::password_hash::{PasswordHasher, SaltString};
use pbkdf2::{Params, Pbkdf2};
use rand::distributions::Alphanumeric;
use rand::Rng;

use crate::steganography::copy_bytes;
use crate::CryptoError;

verus! {

/// Number of PBKDF2 rounds that derive the key and IV.
pub const ROUNDS: u32 = 10000;

/// Bytes derived by PBKDF2: a 32-byte key, then a 16-byte IV.
pub const DERIVED_LEN: usize = 48;

/// "Salted__", the prefix of every container.
pub open spec fn magic() -> Seq<u8> {
    seq![0x53u8, 0x61u8, 0x6cu8, 0x74u8, 0x65u8, 0x64u8, 0x5fu8, 0x5fu8]
}

/// An ASCII letter or digit.
pub open spec fn is_alphanumeric(b: u8) -> bool {
    (0x30 <= b <= 0x39) || (0x41 <= b <= 0x5a) || (0x61 <= b <= 0x7a)
}

/// What PBKDF2-HMAC-SHA256 derives from `key` with the salt whose text is `salt`, in
/// `rounds` rounds, `len` bytes long; `None` when the salt or the length is refused.
pub uninterp spec fn pbkdf2_derived(key: Seq<u8>, salt: Seq<u8>, rounds: u32, len: usize) -> Option<Seq<u8>>;

/// AES-256-CBC encryption of `plaintext` with PKCS#7 padding.
pub uninterp spec fn aes_cbc_sealed(key: Seq<u8>, iv: Seq<u8>, plaintext: Seq<u8>) -> Seq<u8>;

/// AES-256-CBC decryption of `ciphertext` with PKCS#7 padding removed; `None` when the
/// padding is wrong.
pub uninterp spec fn aes_cbc_opened(key: Seq<u8>, iv: Seq<u8>, ciphertext: Seq<u8>) -> Option<Seq<u8>>;

/// Relies on rand's `thread_rng` sampled with `Alphanumeric`: eight ASCII letters or
/// digits.
#[verifier::external_body]
fn random_salt() -> (r: Vec<u8>)
    ensures
        r@.len() == 8,
        forall|i: int| 0 <= i < 8 ==> is_alphanumeric(#[trigger] r@[i]),
{
    rand::thread_rng().sample_iter(&Alphanumeric).take(8).collect()
}

/// An 8-byte salt of ASCII letters and digits.
pub open spec fn good_salt(salt: Seq<u8>) -> bool {
    salt.len() == 8 && forall|i: int| 0 <= i < 8 ==> is_alphanumeric(#[trigger] salt[i])
}

/// Relies on pbkdf2's `Pbkdf2::hash_password_customized` with the salt text as a
/// `SaltString`: the derived bytes depend on the arguments alone and have the requested
/// length. `SaltString::new` accepts 4 to 64 base64 characters (letters and digits among
/// them) and the output may be 10 to 64 bytes long, so such a salt and length succeed.
#[verifier::external_body]
fn pbkdf2_hash(key: &[u8], salt: &[u8], rounds: u32, len: usize) -> (r: Option<Vec<u8>>)
    ensures
        (match r {
            Some(v) => Some(v@),
            None => None,
        }) == pbkdf2_derived(key@, salt@, rounds, len),
        r matches Some(v) ==> v@.len() == len,
        good_salt(salt@) && 10 <= len <= 64 ==> r is Some,
{
    let text = match std::str::from_utf8(salt) {
        Ok(t) => t,
        Err(_) => return None,
    };
    let salt = match SaltString::new(text) {
        Ok(s) => s,
        Err(_) => return None,
    };
    let params = Params { rounds, output_length: len };
    match Pbkdf2.hash_password_customized(key, None, None, params, &salt) {
        Ok(h) => h.hash.map(|o| o.as_bytes().to_vec()),
        Err(_) => None,
    }
}

/// Relies on cbc's `Encryptor<Aes256>` with `encrypt_padded_vec_mut::<Pkcs7>`, which
/// accepts a 32-byte key and a 16-byte IV; PKCS#7 pads the plaintext to the next whole
/// 16-byte block, and its decryptor turns the result back into the plaintext.
#[verifier::external_body]
fn aes_cbc_encrypt(key: &[u8], iv: &[u8], plaintext: &[u8]) -> (r: Vec<u8>)
    requires
        key@.len() == 32,
        iv@.len() == 16,
    ensures
        r@ == aes_cbc_sealed(key@, iv@, plaintext@),
        r@.len() == 16 * (plaintext@.len() / 16 + 1),
        aes_cbc_opened(key@, iv@, r@) == Some(plaintext@),
{
    cbc::Encryptor::<aes::Aes256>::new_from_slices(key, iv).unwrap().encrypt_padded_vec_mut::<Pkcs7>(plaintext)
}

/// Relies on cbc's `Decryptor<Aes256>` with `decrypt_padded_vec_mut::<Pkcs7>`, which
/// accepts a 32-byte key and a 16-byte IV and fails on bad padding.
#[verifier::external_body]
fn aes_cbc_decrypt(key: &[u8], iv: &[u8], ciphertext: &[u8]) -> (r: Option<Vec<u8>>)
    requires
        key@.len() == 32,
        iv@.len() == 16,
    ensures
        (match r {
            Some(v) => Some(v@),
            None => None,
        }) == aes_cbc_opened(key@, iv@, ciphertext@),
{
    cbc::Decryptor::<aes::Aes256>::new_from_slices(key, iv).unwrap().decrypt_padded_vec_mut::<Pkcs7>(ciphertext).ok()
}

/// The bytes `s[from..to]` in a new vector.
pub(crate) fn slice_bytes(s: &[u8], from: usize, to: usize) -> (r: Vec<u8>)
    requires
        from <= to <= s@.len(),
    ensures
        r@ == s@.subrange(from as int, to as int),
{
    let mut r: Vec<u8> = Vec::new();
    let mut i: usize = from;
    while i < to
        invariant
            from <= i <= to,
            to <= s@.len(),
            r@ == s@.subrange(from as int, i as int),
        decreases to - i,
    {
        r.push(s[i]);
        i = i + 1;
        assert(r@ =~= s@.subrange(from as int, i as int));
    }
    r
}

/// Length of the container for a plaintext of `n` bytes: a 16-byte header and the padded
/// ciphertext.
pub open spec fn container_len(n: nat) -> nat {
    16 + 16 * (n / 16 + 1)
}

/// The container holding `plaintext` encrypted under `key` with `salt`:
/// "Salted__", the salt, then the ciphertext under the key and IV derived from both.
pub open spec fn container(plaintext: Seq<u8>, key: Seq<u8>, salt: Seq<u8>) -> Option<Seq<u8>> {
    match pbkdf2_derived(key, salt, ROUNDS, DERIVED_LEN) {
        Some(h) => Some(magic() + salt + aes_cbc_sealed(h.subrange(0, 32), h.subrange(32, 48), plaintext)),
        None => None,
    }
}

/// The outcome of `decrypt` on `ciphertext` with `key`.
pub open spec fn decrypted(ciphertext: Seq<u8>, key: Seq<u8>) -> Result<Seq<u8>, CryptoError> {
    if ciphertext.len() < 16 || ciphertext.subrange(0, 8) != magic() {
        Err(CryptoError::InvalidContainer)
    } else {
        match pbkdf2_derived(key, ciphertext.subrange(8, 16), ROUNDS, DERIVED_LEN) {
            None => Err(CryptoError::PasswordHash),
            Some(h) => match aes_cbc_opened(
                h.subrange(0, 32),
                h.subrange(32, 48),
                ciphertext.subrange(16, ciphertext.len() as int),
            ) {
                Some(p) => Ok(p),
                None => Err(CryptoError::Decryption),
            },
        }
    }
}

/// Derives 48 bytes (a 32-byte key, then a 16-byte IV) from a password and a salt text
/// with PBKDF2-HMAC-SHA256 in 10000 rounds.
pub fn hash_password(key: &[u8], salt: &[u8]) -> (r: Result<Vec<u8>, CryptoError>)
    ensures
        match pbkdf2_derived(key@, salt@, ROUNDS, DERIVED_LEN) {
            Some(h) => r matches Ok(v) && v@ == h && h.len() == 48,
            None => r == Err::<Vec<u8>, CryptoError>(CryptoError::PasswordHash),
        },
        good_salt(salt@) ==> r is Ok,
{
    match pbkdf2_hash(key, salt, ROUNDS, DERIVED_LEN) {
        Some(h) => Ok(h),
        None => Err(CryptoError::PasswordHash),
    }
}

/// Encrypts `plaintext` under `key` with AES-256-CBC into an OpenSSL-style container with
/// a fresh random salt. It always succeeds; what it returns decrypts to the plaintext.
pub fn encrypt(plaintext: &[u8], key: &[u8]) -> (r: Result<Vec<u8>, CryptoError>)
    ensures
        r matches Ok(c) && {
            &&& exists|salt: Seq<u8>| good_salt(salt) && container(plaintext@, key@, salt) == Some(c@)
            &&& c@.len() == container_len(plaintext@.len())
            &&& decrypted(c@, key@) == Ok::<Seq<u8>, CryptoError>(plaintext@)
        },
{
    let salt = random_salt();
    let h = match hash_password(key, salt.as_slice()) {
        Ok(h) => h,
        Err(e) => {
            return Err(e);
        },
    };
    let k = slice_bytes(h.as_slice(), 0, 32);
    let iv = slice_bytes(h.as_slice(), 32, 48);
    let mut body = aes_cbc_encrypt(k.as_slice(), iv.as_slice(), plaintext);
    let mut out: Vec<u8> = vec![0x53u8, 0x61u8, 0x6cu8, 0x74u8, 0x65u8, 0x64u8, 0x5fu8, 0x5fu8];
    let mut s = copy_bytes(salt.as_slice());
    out.append(&mut s);
    out.append(&mut body);
    proof {
        assert(good_salt(salt@));
        let c = out@;
        assert(c.subrange(0, 8) =~= magic());
        assert(c.subrange(8, 16) =~= salt@);
        assert(c.subrange(16, c.len() as int) =~= aes_cbc_sealed(k@, iv@, plaintext@));
        assert(c =~= magic() + salt@ + aes_cbc_sealed(k@, iv@, plaintext@));
    }
    Ok(out)
}

/// Decrypts a container made by `encrypt`; input shorter than 16 bytes or without the
/// "Salted__" prefix is refused.
pub fn decrypt(ciphertext: &[u8], key: &[u8]) -> (r: Result<Vec<u8>, CryptoError>)
    ensures
        match decrypted(ciphertext@, key@) {
            Ok(p) => r matches Ok(v) && v@ == p,
            Err(e) => r == Err::<Vec<u8>, CryptoError>(e),
        },
{
    if ciphertext.len() < 16 {
        return Err(CryptoError::InvalidContainer);
    }
    let prefix = slice_bytes(ciphertext, 0, 8);
    let m: Vec<u8> = vec![0x53u8, 0x61u8, 0x6cu8, 0x74u8, 0x65u8, 0x64u8, 0x5fu8, 0x5fu8];
    let mut i: usize = 0;
    while i < 8
        invariant
            ciphertext@.len() >= 16,
            prefix@ == ciphertext@.subrange(0, 8),
            m@ == magic(),
            i <= 8,
            forall|k: int| 0 <= k < i ==> prefix@[k] == m@[k],
        decreases 8 - i,
    {
        if prefix[i] != m[i] {
            return Err(CryptoError::InvalidContainer);
        }
        i = i + 1;
    }
    assert(prefix@ =~= magic());
    let salt = slice_bytes(ciphertext, 8, 16);
    let h = match hash_password(key, salt.as_slice()) {
        Ok(h) => h,
        Err(e) => {
            return Err(e);
        },
    };
    let k = slice_bytes(h.as_slice(), 0, 32);
    let iv = slice_bytes(h.as_slice(), 32, 48);
    let body = slice_bytes(ciphertext, 16, ciphertext.len());
    match aes_cbc_decrypt(k.as_slice(), iv.as_slice(), body.as_slice()) {
        Some(p) => Ok(p),
        None => Err(CryptoError::Decryption),
    }
}

} // verus!
