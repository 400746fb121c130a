//! CBV decryption functions.
//!
//! An encrypted archive is the plain archive enciphered with DES, each
//! block of eight bytes by itself, under a key made from a password.

use vstd::prelude::*;
use vstd::slice::slice_subrange;
use vstd::string::StringSliceAdditionalSpecFns;

verus! {

/// The number of bytes deciphered at a time.
pub const BUFFER_SIZE: usize = 4096;

/// The size of a key in bytes.
pub const PASSWORD_LEN: usize = 8;

/// The size of a cipher block in bytes.
pub const BLOCK_SIZE: usize = 8;

/// What `des::decrypt` returns for a cipher text and a key.
pub uninterp spec fn des_decrypted(cipher: Seq<u8>, key: Seq<u8>) -> Seq<u8>;

/// Block `i` of a cipher text, with zeros after its end.
pub open spec fn block_of(cipher: Seq<u8>, i: int) -> Seq<u8> {
    Seq::new(
        BLOCK_SIZE as nat,
        |j: int|
            if 8 * i + j < cipher.len() {
                cipher[8 * i + j]
            } else {
                0u8
            },
    )
}

/// Deciphers `cipher` with `des::decrypt`.
///
/// That function cuts the input into blocks of eight bytes, fills the
/// last one up with zeros, deciphers each block by itself with the same
/// key, and returns the eight bytes of each in the order of the input. So
/// the contract claims: the result is the named one; it is as long as the
/// input rounded up to whole blocks; and each of its blocks is what the
/// same function returns for that block of the input alone.
#[verifier::external_body]
fn des_decrypt(cipher: &[u8], key: &[u8; 8]) -> (plain: Vec<u8>)
    ensures
        plain@ == des_decrypted(cipher@, key@),
        plain@.len() == 8 * ((cipher@.len() + 7) / 8),
        forall|i: int|
            0 <= i && 8 * i < plain@.len() ==> des_decrypted(
                #[trigger] block_of(cipher@, i),
                key@,
            ) == plain@.subrange(8 * i, 8 * i + 8),
{
    des::decrypt(cipher, key)
}

/// Byte `k` of the plain text of `cipher` under `key`.
pub open spec fn plain_byte(cipher: Seq<u8>, key: Seq<u8>, k: int) -> u8 {
    des_decrypted(block_of(cipher, k / 8), key)[k % 8]
}

/// The plain text of `cipher` under `key`: each block deciphered by
/// itself, cut to the length of the cipher text.
pub open spec fn decrypted(cipher: Seq<u8>, key: Seq<u8>) -> Seq<u8> {
    Seq::new(cipher.len(), |k: int| plain_byte(cipher, key, k))
}

/// One step of the hash of a long password: the key byte doubled, in eight
/// bits, and combined with the password byte by exclusive or.
pub open spec fn mix(k: u8, b: u8) -> u8 {
    (((k as int * 2) % 256) as u8) ^ b
}

/// The key after the first `n` bytes of a long password have been hashed
/// into it.
pub open spec fn hashed(bytes: Seq<u8>, n: nat) -> Seq<u8>
    decreases n,
{
    if n == 0 {
        Seq::new(PASSWORD_LEN as nat, |i: int| 0u8)
    } else {
        let key = hashed(bytes, (n - 1) as nat);
        let i = (n - 1) % 8;
        key.update(i, mix(key[i], bytes[n - 1]))
    }
}

/// The key made from the bytes of a password: a password of up to eight
/// bytes is repeated to fill the key, a longer one is hashed into it. The
/// empty password, of which there is nothing to repeat, has the key of
/// eight zeros.
pub open spec fn key_of(bytes: Seq<u8>) -> Seq<u8> {
    if bytes.len() == 0 {
        Seq::new(PASSWORD_LEN as nat, |i: int| 0u8)
    } else if bytes.len() > PASSWORD_LEN {
        hashed(bytes, bytes.len())
    } else {
        Seq::new(PASSWORD_LEN as nat, |i: int| bytes[i % (bytes.len() as int)])
    }
}

/// The first eight bytes of a slice, with zeros after its end.
pub open spec fn padded(bytes: Seq<u8>) -> Seq<u8> {
    Seq::new(
        PASSWORD_LEN as nat,
        |i: int|
            if i < bytes.len() {
                bytes[i]
            } else {
                0u8
            },
    )
}

/// A key has eight bytes.
pub proof fn lemma_key_len(bytes: Seq<u8>)
    ensures
        key_of(bytes).len() == PASSWORD_LEN,
{
    if bytes.len() > PASSWORD_LEN {
        lemma_hashed_len(bytes, bytes.len());
    }
}

/// A hashed key has eight bytes.
pub proof fn lemma_hashed_len(bytes: Seq<u8>, n: nat)
    ensures
        hashed(bytes, n).len() == PASSWORD_LEN,
    decreases n,
{
    if n > 0 {
        lemma_hashed_len(bytes, (n - 1) as nat);
    }
}

/// A password of exactly eight bytes is its own key.
pub proof fn lemma_key_of_eight(bytes: Seq<u8>)
    requires
        bytes.len() == PASSWORD_LEN,
    ensures
        key_of(bytes) =~= bytes,
{
}

/// Copy a slice into an array.
///
/// Takes the first eight bytes; a shorter slice is followed by zeros.
pub fn copy_into_array(slice: &[u8]) -> (array: [u8; 8])
    ensures
        array@ == padded(slice@),
{
    let mut array: [u8; 8] = [0;8];
    let mut index: usize = 0;
    while index < PASSWORD_LEN && index < slice.len()
        invariant
            index <= PASSWORD_LEN,
            index <= slice@.len(),
            forall|i: int| 0 <= i < index ==> array@[i] == slice@[i],
            forall|i: int| index <= i < PASSWORD_LEN ==> array@[i] == 0,
        decreases PASSWORD_LEN - index,
    {
        array[index] = slice[index];
        index = index + 1;
    }
    assert(array@ =~= padded(slice@));
    array
}

/// Create the decryption key from the password.
///
/// A password of eight bytes is the key. A shorter one is repeated until
/// the key is full. A longer one is hashed: each of its bytes in turn is
/// combined into the key byte at its index modulo eight. The key of the
/// empty password is eight zeros.
pub fn create_key(password: &str) -> (key: [u8; 8])
    ensures
        key@ == key_of(password.spec_bytes()),
{
    let bytes = password.as_bytes();
    let len = bytes.len();
    if len == 0 {
        let key: [u8; 8] = [0;8];
        assert(key@ =~= key_of(bytes@));
        key
    } else if len < PASSWORD_LEN {
        let mut key: [u8; 8] = [0;8];
        let mut index: usize = 0;
        while index < PASSWORD_LEN
            invariant
                index <= PASSWORD_LEN,
                0 < len < PASSWORD_LEN,
                len == bytes@.len(),
                forall|i: int| 0 <= i < index ==> key@[i] == bytes@[i % (len as int)],
            decreases PASSWORD_LEN - index,
        {
            key[index] = bytes[index % len];
            index = index + 1;
        }
        assert(key@ =~= key_of(bytes@));
        key
    } else if len > PASSWORD_LEN {
        let mut key: [u8; 8] = [0;8];
        let mut i: usize = 0;
        assert(key@ =~= hashed(bytes@, 0));
        while i < len
            invariant
                i <= len,
                len == bytes@.len(),
                key@ == hashed(bytes@, i as nat),
            decreases len - i,
        {
            let index = i % 8;
            let doubled: u8 = ((key[index] as u16 * 2) % 256) as u8;
            key[index] = doubled ^ bytes[i];
            assert(key@ =~= hashed(bytes@, (i + 1) as nat));
            i = i + 1;
        }
        key
    } else {
        let key = copy_into_array(bytes);
        assert(key@ =~= key_of(bytes@));
        key
    }
}

/// Decrypt `input` with the key `key`.
///
/// The input is deciphered in pieces of 4096 bytes.
pub fn decrypt_with_key(input: &[u8], key: &[u8; 8]) -> (output: Vec<u8>)
    ensures
        output@ == decrypted(input@, key@),
{
    let mut output: Vec<u8> = Vec::new();
    let len = input.len();
    let mut start: usize = 0;
    while start < len
        invariant
            len == input@.len(),
            start <= len,
            start % 8 == 0 || start == len,
            output@ == decrypted(input@, key@).subrange(0, start as int),
        decreases len - start,
    {
        let end = if len - start > BUFFER_SIZE {
            start + BUFFER_SIZE
        } else {
            len
        };
        let piece = slice_subrange(input, start, end);
        let plain = des_decrypt(piece, key);
        let count = end - start;
        let mut j: usize = 0;
        while j < count
            invariant
                len == input@.len(),
                start < end <= len,
                start % 8 == 0,
                end == len || end == start + BUFFER_SIZE,
                count == end - start,
                j <= count,
                piece@ == input@.subrange(start as int, end as int),
                plain@.len() == 8 * ((piece@.len() + 7) / 8),
                forall|i: int|
                    0 <= i && 8 * i < plain@.len() ==> des_decrypted(
                        #[trigger] block_of(piece@, i),
                        key@,
                    ) == plain@.subrange(8 * i, 8 * i + 8),
                output@ == decrypted(input@, key@).subrange(0, start + j),
            decreases count - j,
        {
            let byte = plain[j];
            proof {
                let i = j as int / 8;
                let k = start + j;
                assert(block_of(piece@, i) =~= block_of(input@, k / 8));
                assert(plain@.subrange(8 * i, 8 * i + 8)[j as int % 8] == plain@[j as int]);
                assert(byte == plain_byte(input@, key@, k));
            }
            output.push(byte);
            assert(output@ =~= decrypted(input@, key@).subrange(0, start + j + 1));
            j = j + 1;
        }
        start = end;
    }
    assert(decrypted(input@, key@).subrange(0, len as int) =~= decrypted(input@, key@));
    output
}

/// Decrypt `input` with the key made from `password`.
pub fn decrypt(input: &[u8], password: &str) -> (output: Vec<u8>)
    ensures
        output@ == decrypted(input@, key_of(password.spec_bytes())),
{
    let key = create_key(password);
    decrypt_with_key(input, &key)
}

} // verus!
