//! The transforms of a payload and a salt, behind one interface: a SHA-256
//! digest, a character reversal, and AES-256-CBC (see `aes`), with services
//! that hold one of them.
use crate::aes::AesEncryptor;
use crate::encoding::{hex_text, push_char, to_hex};
use sha2::{Digest, Sha256};
use vstd::prelude::*;
use vstd::string::{StrSliceExecFns, StringExecFns, StringSliceAdditionalSpecFns};
use vstd::utf8::encode_utf8;

verus! {

/// Why a transform could not be built or applied.
#[derive(Clone, Copy, Debug, PartialEq, Eq, Structural)]
pub enum EncryptionError {
    InvalidKeyMaterial,
    CipherFailure,
}

/// The description of each encryption error.
pub open spec fn encryption_error_text(e: EncryptionError) -> Seq<char> {
    match e {
        EncryptionError::InvalidKeyMaterial => "key must be 32 bytes and IV 16 bytes for AES-256"@,
        EncryptionError::CipherFailure => "cipher failure"@,
    }
}

impl EncryptionError {
    /// A short description of the error.
    pub fn message(&self) -> (r: String)
        ensures
            r@ == encryption_error_text(*self),
    {
        match self {
            EncryptionError::InvalidKeyMaterial => String::from_str(
                "key must be 32 bytes and IV 16 bytes for AES-256",
            ),
            EncryptionError::CipherFailure => String::from_str("cipher failure"),
        }
    }
}

/// A transform of a payload with a salt into text.
pub trait Encryptor {
    /// The text produced for `input` followed by `salt`.
    spec fn spec_encrypt(&self, input: Seq<char>, salt: Seq<char>) -> Seq<char>;

    /// The number of characters produced for `input` followed by `salt`.
    spec fn spec_len(&self, input: Seq<char>, salt: Seq<char>) -> nat;

    fn encrypt(&self, input: &str, salt: &str) -> (r: Result<String, EncryptionError>)
        ensures
            r matches Ok(s) && s@ == self.spec_encrypt(input@, salt@) && s@.len()
                == self.spec_len(input@, salt@),
    ;
}

/// The SHA-256 digest of a byte string.
pub uninterp spec fn sha256_of(data: Seq<u8>) -> Seq<u8>;

/// The characters of `s` in reverse order.
pub open spec fn reversed(s: Seq<char>) -> Seq<char> {
    Seq::new(s.len(), |i: int| s[s.len() - 1 - i])
}

/// Relies on `sha2::Sha256::digest`: a 32-byte digest that depends on the
/// input bytes alone.
#[verifier::external_body]
fn sha256_digest(data: &[u8]) -> (r: Vec<u8>)
    ensures
        r@ == sha256_of(data@),
        r@.len() == 32,
{
    Sha256::digest(data).to_vec()
}

/// `input` followed by `salt`.
pub fn concat(input: &str, salt: &str) -> (r: String)
    ensures
        r@ == input@ + salt@,
{
    let mut combined = String::from_str(input);
    combined.append(salt);
    combined
}

/// Hashes payload and salt with SHA-256 into lowercase hexadecimal.
pub struct HashEncryptor;

impl Encryptor for HashEncryptor {
    open spec fn spec_encrypt(&self, input: Seq<char>, salt: Seq<char>) -> Seq<char> {
        hex_text(sha256_of(encode_utf8(input + salt)))
    }

    open spec fn spec_len(&self, input: Seq<char>, salt: Seq<char>) -> nat {
        64
    }

    fn encrypt(&self, input: &str, salt: &str) -> (r: Result<String, EncryptionError>) {
        let combined = concat(input, salt);
        let digest = sha256_digest(combined.as_str().as_bytes());
        Ok(to_hex(digest.as_slice()))
    }
}

/// Reverses payload followed by salt, character by character.
pub struct ReverseEncryptor;

impl Encryptor for ReverseEncryptor {
    open spec fn spec_encrypt(&self, input: Seq<char>, salt: Seq<char>) -> Seq<char> {
        reversed(input + salt)
    }

    open spec fn spec_len(&self, input: Seq<char>, salt: Seq<char>) -> nat {
        input.len() + salt.len()
    }

    fn encrypt(&self, input: &str, salt: &str) -> (r: Result<String, EncryptionError>) {
        let combined = concat(input, salt);
        let text = combined.as_str();
        let n = text.unicode_len();
        let mut out = String::new();
        let mut i: usize = n;
        while i > 0
            invariant
                i <= n,
                n == text@.len(),
                text@ == input@ + salt@,
                out@ == reversed(text@).subrange(0, (n - i) as int),
            decreases i,
        {
            i = i - 1;
            let c = text.get_char(i);
            push_char(&mut out, c);
            assert(out@ =~= reversed(text@).subrange(0, (n - i) as int));
        }
        assert(reversed(text@).subrange(0, n as int) =~= reversed(text@));
        Ok(out)
    }
}

/// One of the transforms, chosen per request.
pub enum TransformKind {
    Hash(HashEncryptor),
    Reverse(ReverseEncryptor),
    BlockCipher(AesEncryptor),
}

impl Encryptor for TransformKind {
    open spec fn spec_encrypt(&self, input: Seq<char>, salt: Seq<char>) -> Seq<char> {
        match self {
            TransformKind::Hash(h) => h.spec_encrypt(input, salt),
            TransformKind::Reverse(v) => v.spec_encrypt(input, salt),
            TransformKind::BlockCipher(a) => a.spec_encrypt(input, salt),
        }
    }

    open spec fn spec_len(&self, input: Seq<char>, salt: Seq<char>) -> nat {
        match self {
            TransformKind::Hash(h) => h.spec_len(input, salt),
            TransformKind::Reverse(v) => v.spec_len(input, salt),
            TransformKind::BlockCipher(a) => a.spec_len(input, salt),
        }
    }

    fn encrypt(&self, input: &str, salt: &str) -> (r: Result<String, EncryptionError>) {
        match self {
            TransformKind::Hash(h) => h.encrypt(input, salt),
            TransformKind::Reverse(v) => v.encrypt(input, salt),
            TransformKind::BlockCipher(a) => a.encrypt(input, salt),
        }
    }
}

/// Applies the transform to payload and salt.
pub fn apply_encryption(encryptor: &TransformKind, input: &str, salt: &str) -> (r: Result<
    String,
    EncryptionError,
>)
    ensures
        r matches Ok(s) && s@ == encryptor.spec_encrypt(input@, salt@) && s@.len()
            == encryptor.spec_len(input@, salt@),
{
    encryptor.encrypt(input, salt)
}

/// Applies any transform to payload and salt.
pub fn apply_encryption_generic<E: Encryptor>(encryptor: &E, input: &str, salt: &str) -> (r:
    Result<String, EncryptionError>)
    ensures
        r matches Ok(s) && s@ == encryptor.spec_encrypt(input@, salt@) && s@.len()
            == encryptor.spec_len(input@, salt@),
{
    encryptor.encrypt(input, salt)
}

/// A service that owns its transform.
pub struct CryptoService {
    encryptor: TransformKind,
}

impl CryptoService {
    /// The transform this service applies.
    pub closed spec fn transform(&self) -> TransformKind {
        self.encryptor
    }

    pub fn new(encryptor: TransformKind) -> (r: Self)
        ensures
            r.transform() == encryptor,
    {
        Self { encryptor }
    }

    pub fn encrypt(&self, input: &str, salt: &str) -> (r: Result<String, EncryptionError>)
        ensures
            r matches Ok(s) && s@ == self.transform().spec_encrypt(input@, salt@) && s@.len()
                == self.transform().spec_len(input@, salt@),
    {
        self.encryptor.encrypt(input, salt)
    }
}

/// A service that borrows its transform.
pub struct BorrowedCryptoService<'a> {
    encryptor: &'a TransformKind,
}

impl<'a> BorrowedCryptoService<'a> {
    /// The transform this service applies.
    pub closed spec fn transform(&self) -> TransformKind {
        *self.encryptor
    }

    pub fn new(encryptor: &'a TransformKind) -> (r: Self)
        ensures
            r.transform() == *encryptor,
    {
        Self { encryptor }
    }

    pub fn encrypt(&self, input: &str, salt: &str) -> (r: Result<String, EncryptionError>)
        ensures
            r matches Ok(s) && s@ == self.transform().spec_encrypt(input@, salt@) && s@.len()
                == self.transform().spec_len(input@, salt@),
    {
        self.encryptor.encrypt(input, salt)
    }
}

/// Hashing is a function of payload and salt: equal inputs give equal text.
pub proof fn lemma_hash_deterministic(
    input1: Seq<char>,
    salt1: Seq<char>,
    input2: Seq<char>,
    salt2: Seq<char>,
)
    requires
        input1 == input2,
        salt1 == salt2,
    ensures
        HashEncryptor.spec_encrypt(input1, salt1) == HashEncryptor.spec_encrypt(input2, salt2),
{
}

/// Reversing a payload with an empty salt, then reversing the result with an
/// empty salt, gives the payload back.
pub proof fn lemma_reverse_twice(payload: Seq<char>)
    ensures
        ReverseEncryptor.spec_encrypt(
            ReverseEncryptor.spec_encrypt(payload, Seq::empty()),
            Seq::empty(),
        ) == payload,
{
    assert(payload + Seq::<char>::empty() =~= payload);
    let once = reversed(payload);
    assert(once + Seq::<char>::empty() =~= once);
    assert(reversed(once) =~= payload);
}

} // verus!
