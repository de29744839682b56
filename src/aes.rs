//! AES-256 in CBC mode over payload and salt, with PKCS#7 padding.
use crate::encoding::{hex_text, to_hex};
use crate::hash_and_reverse::{concat, EncryptionError, Encryptor};
use aes::Aes256;
use cbc::cipher::block_padding::NoPadding;
use cbc::cipher::{BlockEncryptMut, KeyIvInit};
use vstd::prelude::*;
use vstd::string::StringSliceAdditionalSpecFns;
use vstd::utf8::encode_utf8;

verus! {

/// The block size of AES.
pub const BLOCK_SIZE: usize = 16;

/// `b` padded by PKCS#7 to a multiple of 16 bytes: `p` bytes of value `p`,
/// where `p` is between 1 and 16.
pub open spec fn pkcs7_padded(b: Seq<u8>) -> Seq<u8> {
    let p = (BLOCK_SIZE - b.len() % (BLOCK_SIZE as nat)) as nat;
    b + Seq::new(p, |i: int| p as u8)
}

/// AES-256-CBC encryption of block-aligned `data` under `key` and `iv`.
pub uninterp spec fn aes256_cbc(key: Seq<u8>, iv: Seq<u8>, data: Seq<u8>) -> Seq<u8>;

/// Relies on `cbc::Encryptor::<Aes256>`: built from a 32-byte key and a
/// 16-byte IV (the only lengths it refuses otherwise), it encrypts
/// block-aligned data without further padding into ciphertext of the same
/// length.
#[verifier::external_body]
fn cbc_encrypt(key: &[u8], iv: &[u8], data: &[u8]) -> (r: Vec<u8>)
    requires
        key@.len() == 32,
        iv@.len() == BLOCK_SIZE,
        data@.len() % (BLOCK_SIZE as nat) == 0,
    ensures
        r@ == aes256_cbc(key@, iv@, data@),
        r@.len() == data@.len(),
{
    let cipher = cbc::Encryptor::<Aes256>::new_from_slices(key, iv).unwrap();
    cipher.encrypt_padded_vec_mut::<NoPadding>(data)
}

/// Pads `buffer` by PKCS#7 to the next multiple of 16 bytes, adding a whole
/// block of sixteen 16s when it is aligned already.
pub fn pkcs7_pad(buffer: &[u8]) -> (r: Vec<u8>)
    ensures
        r@ == pkcs7_padded(buffer@),
        r@.len() % (BLOCK_SIZE as nat) == 0,
        buffer@.len() % (BLOCK_SIZE as nat) == 0 ==> r@ == buffer@ + Seq::new(
            BLOCK_SIZE as nat,
            |i: int| BLOCK_SIZE as u8,
        ),
        buffer@.len() % (BLOCK_SIZE as nat) != 0 ==> ({
            let p = BLOCK_SIZE - buffer@.len() % (BLOCK_SIZE as nat);
            r@.len() == buffer@.len() + p && forall|i: int|
                buffer@.len() <= i < r@.len() ==> r@[i] == p
        }),
{
    let pad_len: usize = BLOCK_SIZE - buffer.len() % BLOCK_SIZE;
    let mut r: Vec<u8> = Vec::new();
    let mut i: usize = 0;
    while i < buffer.len()
        invariant
            i <= buffer@.len(),
            r@ == buffer@.subrange(0, i as int),
        decreases buffer@.len() - i,
    {
        r.push(buffer[i]);
        i = i + 1;
        assert(r@ =~= buffer@.subrange(0, i as int));
    }
    let mut j: usize = 0;
    while j < pad_len
        invariant
            j <= pad_len,
            1 <= pad_len <= BLOCK_SIZE,
            pad_len == BLOCK_SIZE - buffer@.len() % (BLOCK_SIZE as nat),
            r@ == buffer@ + Seq::new(j as nat, |k: int| pad_len as u8),
        decreases pad_len - j,
    {
        r.push(pad_len as u8);
        j = j + 1;
        assert(r@ =~= buffer@ + Seq::new(j as nat, |k: int| pad_len as u8));
    }
    assert(buffer@.subrange(0, buffer@.len() as int) =~= buffer@);
    assert(r@.len() % (BLOCK_SIZE as nat) == 0) by {
        assert(r@.len() == buffer@.len() + BLOCK_SIZE - buffer@.len() % (BLOCK_SIZE as nat));
    }
    r
}

/// AES-256-CBC with a key and an IV of the right lengths.
pub struct AesEncryptor {
    key: Vec<u8>,
    iv: Vec<u8>,
}

impl AesEncryptor {
    #[verifier::type_invariant]
    spec fn lengths_fit(&self) -> bool {
        self.key@.len() == 32 && self.iv@.len() == BLOCK_SIZE
    }

    pub closed spec fn key(&self) -> Seq<u8> {
        self.key@
    }

    pub closed spec fn iv(&self) -> Seq<u8> {
        self.iv@
    }

    /// Builds the cipher; a key that is not 32 bytes or an IV that is not 16
    /// bytes is refused.
    pub fn new(key: Vec<u8>, iv: Vec<u8>) -> (r: Result<Self, EncryptionError>)
        ensures
            r is Ok <==> key@.len() == 32 && iv@.len() == BLOCK_SIZE,
            r matches Ok(c) ==> c.key() == key@ && c.iv() == iv@,
            r is Err ==> r == Err::<Self, EncryptionError>(EncryptionError::InvalidKeyMaterial),
    {
        if key.len() != 32 || iv.len() != BLOCK_SIZE {
            return Err(EncryptionError::InvalidKeyMaterial);
        }
        Ok(Self { key, iv })
    }
}

impl Encryptor for AesEncryptor {
    open spec fn spec_encrypt(&self, input: Seq<char>, salt: Seq<char>) -> Seq<char> {
        hex_text(aes256_cbc(self.key(), self.iv(), pkcs7_padded(encode_utf8(input + salt))))
    }

    open spec fn spec_len(&self, input: Seq<char>, salt: Seq<char>) -> nat {
        2 * pkcs7_padded(encode_utf8(input + salt)).len()
    }

    fn encrypt(&self, input: &str, salt: &str) -> (r: Result<String, EncryptionError>) {
        proof {
            use_type_invariant(self);
        }
        let combined = concat(input, salt);
        let bytes = combined.as_str().as_bytes();
        let padded = pkcs7_pad(bytes);
        let ciphertext = cbc_encrypt(self.key.as_slice(), self.iv.as_slice(), padded.as_slice());
        Ok(to_hex(ciphertext.as_slice()))
    }
}

} // verus!
