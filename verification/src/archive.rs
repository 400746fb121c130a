//! CBV archive utility functions: listing, extracting and decrypting a
//! whole archive held in memory, and the decisions on overwriting files.

use vstd::prelude::*;
use vstd::slice::slice_subrange;
use vstd::string::StringSliceAdditionalSpecFns;
use crate::cbv::{
    data_start,
    entries,
    entries_upto,
    entry_of,
    lemma_entries,
    extract_file_list,
    extract_files,
    extraction,
    extracts,
    file_table,
    has_magic,
    header,
    header_ok,
    le_u16,
    listing,
    record_at,
    Extracted,
    ExtractedFile,
    FileEntry,
    FileMetaData,
    HEADER_SIZE,
};
use crate::decrypt::{block_of, create_key, decrypt_with_key, decrypted, key_of, plain_byte};
use crate::error::{result_view, Error};
use crate::filename::{name_of, slashed, NAME_SIZE};

verus! {

/// The bytes of an optional password.
pub open spec fn password_bytes(password: Option<&str>) -> Option<Seq<u8>> {
    match password {
        Some(p) => Some(p.spec_bytes()),
        None => None,
    }
}

/// Whether a password opens an encrypted archive: the first deciphered
/// block starts with the magic number.
pub open spec fn password_ok(archive: Seq<u8>, password: Seq<u8>) -> bool {
    has_magic(decrypted(archive, key_of(password)))
}

/// The plain archive: the input itself without a password, the deciphered
/// input with one that opens it.
pub open spec fn opened(archive: Seq<u8>, password: Option<Seq<u8>>) -> Result<Seq<u8>, Error> {
    match password {
        None => Ok(archive),
        Some(p) => if password_ok(archive, p) {
            Ok(decrypted(archive, key_of(p)))
        } else {
            Err(Error::WrongPassword)
        },
    }
}

/// The files that an archive lists when opened with an optional password.
pub open spec fn listed(archive: Seq<u8>, password: Option<Seq<u8>>) -> Result<
    Seq<FileEntry>,
    Error,
> {
    match opened(archive, password) {
        Err(e) => Err(e),
        Ok(plain) => match listing(plain) {
            Some(files) => Ok(files),
            None => Err(Error::MalformedContainer),
        },
    }
}

/// The files that an archive holds when opened with an optional password.
pub open spec fn extracted(archive: Seq<u8>, password: Option<Seq<u8>>) -> Result<
    Seq<Extracted>,
    Error,
> {
    match opened(archive, password) {
        Err(e) => Err(e),
        Ok(plain) => extraction(plain),
    }
}

/// Deciphering the beginning of an archive, up to a block boundary or to
/// its end, gives the beginning of the deciphered archive.
pub proof fn lemma_decrypted_prefix(cipher: Seq<u8>, key: Seq<u8>, m: int)
    requires
        0 <= m <= cipher.len(),
        m % 8 == 0 || m == cipher.len(),
    ensures
        decrypted(cipher.subrange(0, m), key) == decrypted(cipher, key).subrange(0, m),
{
    let head = cipher.subrange(0, m);
    assert forall|k: int| 0 <= k < m implies plain_byte(head, key, k) == plain_byte(
        cipher,
        key,
        k,
    ) by {
        assert(block_of(head, k / 8) =~= block_of(cipher, k / 8));
    }
    assert(decrypted(head, key) =~= decrypted(cipher, key).subrange(0, m));
}

/// The file table of an archive depends only on the bytes of the table.
pub proof fn lemma_entries_prefix(a: Seq<u8>, b: Seq<u8>, width: int, n: nat)
    requires
        0 <= width,
        n * width <= a.len(),
        n * width <= b.len(),
        a.subrange(0, n * width) == b.subrange(0, n * width),
    ensures
        entries_upto(a, width, n) == entries_upto(b, width, n),
    decreases n,
{
    if n > 0 {
        let k = (n - 1) as nat;
        assert(k * width + width == n * width) by (nonlinear_arith)
            requires
                k + 1 == n,
        ;
        assert(0 <= k * width) by (nonlinear_arith)
            requires
                0 <= k,
                0 <= width,
        ;
        assert(a.subrange(0, k * width) =~= a.subrange(0, n * width).subrange(0, k * width));
        assert(b.subrange(0, k * width) =~= b.subrange(0, n * width).subrange(0, k * width));
        lemma_entries_prefix(a, b, width, k);
        assert(record_at(a, width, k as int) =~= a.subrange(0, n * width).subrange(
            k * width,
            n * width,
        ));
        assert(record_at(b, width, k as int) =~= b.subrange(0, n * width).subrange(
            k * width,
            n * width,
        ));
    }
}

/// Two archives that agree on the header and the file table list the same
/// files.
pub proof fn lemma_listing_prefix(a: Seq<u8>, b: Seq<u8>)
    requires
        header_ok(a),
        data_start(a) <= a.len(),
        data_start(a) <= b.len(),
        a.subrange(0, data_start(a)) == b.subrange(0, data_start(a)),
    ensures
        listing(a) == listing(b),
{
    let count = le_u16(a, 2) as nat;
    let width = a[4] as nat;
    let start = data_start(a);
    assert(0 <= count * width) by (nonlinear_arith)
        requires
            0 <= count,
            0 <= width,
    ;
    assert forall|i: int| 0 <= i < HEADER_SIZE implies a[i] == b[i] by {
        assert(a.subrange(0, start)[i] == b.subrange(0, start)[i]);
    }
    let ta = a.skip(HEADER_SIZE as int);
    let tb = b.skip(HEADER_SIZE as int);
    assert(ta.subrange(0, (count * width) as int) =~= a.subrange(0, start).skip(HEADER_SIZE as int));
    assert(tb.subrange(0, (count * width) as int) =~= b.subrange(0, start).skip(HEADER_SIZE as int));
    lemma_entries_prefix(ta, tb, width as int, count);
}

/// Decrypt an archive with a password.
///
/// Fails with `WrongPassword` where the deciphered archive does not start
/// with the magic number.
pub fn decrypt_archive(archive: &[u8], password: &str) -> (r: Result<Vec<u8>, Error>)
    ensures
        result_view(r) == opened(archive@, Some(password.spec_bytes())),
{
    let key = create_key(password);
    let plain = decrypt_with_key(archive, &key);
    if plain.len() >= 2 && plain[0] == 0x08 && plain[1] == 0x00 {
        Ok(plain)
    } else {
        Err(Error::WrongPassword)
    }
}

/// Extract the filenames from the archive.
///
/// With a password the archive is taken as encrypted, and only its header
/// and its file table are deciphered.
pub fn get_file_list(archive: &[u8], password: Option<&str>) -> (r: Result<
    Vec<FileMetaData>,
    Error,
>)
    ensures
        match r {
            Ok(files) => listed(archive@, password_bytes(password)) == Ok::<Seq<FileEntry>, Error>(
                entries(files@),
            ),
            Err(e) => listed(archive@, password_bytes(password)) == Err::<Seq<FileEntry>, Error>(e),
        },
{
    match password {
        None => match extract_file_list(archive) {
            Ok((_, files)) => Ok(files),
            Err(e) => Err(e),
        },
        Some(p) => {
            let key = create_key(p);
            let ghost plain = decrypted(archive@, key@);
            let len = archive.len();
            let first_len = if len < HEADER_SIZE {
                len
            } else {
                HEADER_SIZE
            };
            let first = decrypt_with_key(slice_subrange(archive, 0, first_len), &key);
            proof {
                lemma_decrypted_prefix(archive@, key@, first_len as int);
            }
            if !(first.len() >= 2 && first[0] == 0x08 && first[1] == 0x00) {
                return Err(Error::WrongPassword);
            }
            match header(first.as_slice()) {
                Err(e) => Err(e),
                Ok((_, h)) => {
                    let table = h.total_size();
                    if len - HEADER_SIZE < table {
                        return Err(Error::MalformedContainer);
                    }
                    let total = HEADER_SIZE + table;
                    let over = total % 8;
                    let need = if over == 0 {
                        total
                    } else if len - total >= 8 - over {
                        total + (8 - over)
                    } else {
                        len
                    };
                    let head = decrypt_with_key(slice_subrange(archive, 0, need), &key);
                    proof {
                        lemma_decrypted_prefix(archive@, key@, need as int);
                        assert(head@.subrange(0, total as int) =~= plain.subrange(0, total as int));
                        assert(data_start(plain) == total);
                        lemma_listing_prefix(plain, head@);
                    }
                    match extract_file_list(head.as_slice()) {
                        Ok((_, files)) => Ok(files),
                        Err(e) => Err(e),
                    }
                },
            }
        },
    }
}

/// Decrypt, unarchive and decompress the files from a CBV archive.
///
/// With a password the archive is taken as encrypted and deciphered
/// first. The files come in the order of the file table. A file that
/// cannot be decoded has its error as content; the operation as a whole
/// fails only on a wrong password or a malformed header or file table.
pub fn extract(archive: &[u8], password: Option<&str>) -> (r: Result<Vec<ExtractedFile>, Error>)
    ensures
        match r {
            Ok(files) => extracted(archive@, password_bytes(password)) == Ok::<
                Seq<Extracted>,
                Error,
            >(extracts(files@)),
            Err(e) => extracted(archive@, password_bytes(password)) == Err::<Seq<Extracted>, Error>(
                e,
            ),
        },
{
    match password {
        None => extract_files(archive),
        Some(p) => match decrypt_archive(archive, p) {
            Err(e) => Err(e),
            Ok(plain) => extract_files(plain.as_slice()),
        },
    }
}

/// What to do where a file to be written exists already.
#[derive(Clone, Copy, Debug, PartialEq, Eq, Structural)]
pub enum OverwritePolicy {
    /// Write over the file.
    Always,
    /// Leave the file as it is.
    Never,
    /// Ask, and write over the file on an answer that begins with `y`.
    Ask,
}

/// Whether an answer means yes: it begins with `y` or `Y`.
pub open spec fn affirmative(answer: Seq<char>) -> bool {
    answer.len() > 0 && (answer[0] == 'y' || answer[0] == 'Y')
}

/// Whether a file may be written: always where it does not exist yet,
/// else as the policy says, on `Ask` as the answer says.
pub open spec fn allowed(policy: OverwritePolicy, exists: bool, answer: Seq<char>) -> bool {
    if !exists {
        true
    } else {
        match policy {
            OverwritePolicy::Always => true,
            OverwritePolicy::Never => false,
            OverwritePolicy::Ask => affirmative(answer),
        }
    }
}

/// The policy that the choice of not confirming stands for.
pub fn policy_for(no_confirm: bool) -> (policy: OverwritePolicy)
    ensures
        policy == if no_confirm {
            OverwritePolicy::Always
        } else {
            OverwritePolicy::Ask
        },
{
    if no_confirm {
        OverwritePolicy::Always
    } else {
        OverwritePolicy::Ask
    }
}

/// Tells whether the decision on a file needs an answer.
pub fn must_ask(policy: OverwritePolicy, exists: bool) -> (r: bool)
    ensures
        r == (exists && policy == OverwritePolicy::Ask),
        !r ==> forall|a: Seq<char>, b: Seq<char>|
            allowed(policy, exists, a) == allowed(policy, exists, b),
{
    match policy {
        OverwritePolicy::Ask => exists,
        _ => false,
    }
}

/// Tells whether an answer means yes.
pub fn is_affirmative(answer: &str) -> (r: bool)
    ensures
        r == affirmative(answer@),
{
    if answer.unicode_len() == 0 {
        return false;
    }
    let first = answer.get_char(0);
    first == 'y' || first == 'Y'
}

/// Tells whether a file may be written. The answer is read only where
/// the policy is to ask and the file exists.
pub fn may_write(policy: OverwritePolicy, exists: bool, answer: &str) -> (r: bool)
    ensures
        r == allowed(policy, exists, answer@),
{
    if !exists {
        return true;
    }
    match policy {
        OverwritePolicy::Always => true,
        OverwritePolicy::Never => false,
        OverwritePolicy::Ask => is_affirmative(answer),
    }
}

/// Without confirming, a file is written whatever the answer; where the
/// user is asked, an existing file is written only on an answer that
/// means yes; and a file that does not exist is written under every
/// policy.
pub proof fn lemma_overwrite_policy(policy: OverwritePolicy, exists: bool, answer: Seq<char>)
    ensures
        policy == OverwritePolicy::Always ==> allowed(policy, exists, answer),
        policy == OverwritePolicy::Ask && exists ==> allowed(policy, exists, answer)
            == affirmative(answer),
        policy == OverwritePolicy::Never && exists ==> !allowed(policy, exists, answer),
        !exists ==> allowed(policy, exists, answer),
{
}

/// Extracting an archive gives the files that listing it gives, under the
/// same names and in the same order; and where one fails the other fails
/// with the same error.
pub proof fn lemma_extract_lists(archive: Seq<u8>, password: Option<Seq<u8>>)
    ensures
        match listed(archive, password) {
            Ok(files) => extracted(archive, password) is Ok && extracted(
                archive,
                password,
            ).unwrap().len() == files.len() && forall|i: int|
                0 <= i < files.len() ==> (#[trigger] extracted(
                    archive,
                    password,
                ).unwrap()[i]).filename == files[i].filename,
            Err(e) => extracted(archive, password) == Err::<Seq<Extracted>, Error>(e),
        },
{
}

/// Every listed name is the text of its name field with a slash in the
/// place of each backslash: it has the length of that text, no backslash
/// is left in it, and every other character is kept.
pub proof fn lemma_listed_names(archive: Seq<u8>, password: Option<Seq<u8>>, i: int)
    requires
        listed(archive, password) is Ok,
        0 <= i < listed(archive, password).unwrap().len(),
    ensures
        ({
            let plain = opened(archive, password).unwrap();
            let width = plain[4] as int;
            let field = record_at(plain.skip(HEADER_SIZE as int), width, i).subrange(
                0,
                NAME_SIZE as int,
            );
            let name = listed(archive, password).unwrap()[i].filename;
            &&& name_of(field) == Some(name)
            &&& forall|j: int| 0 <= j < name.len() ==> name[j] != '\\'
        }),
{
    let plain = opened(archive, password).unwrap();
    let count = le_u16(plain, 2) as nat;
    let width = plain[4] as int;
    lemma_entries(plain.skip(HEADER_SIZE as int), width, count);
}

/// Extracting an encrypted archive with a password that opens it gives
/// what extracting the deciphered archive gives, and so does listing.
pub proof fn lemma_decrypt_then_extract(archive: Seq<u8>, password: Seq<u8>)
    requires
        password_ok(archive, password),
    ensures
        extracted(archive, Some(password)) == extracted(
            decrypted(archive, key_of(password)),
            None,
        ),
        listed(archive, Some(password)) == listed(decrypted(archive, key_of(password)), None),
{
}

/// The first block of an archive, or all of an archive shorter than that.
pub open spec fn first_block(archive: Seq<u8>) -> Seq<u8> {
    if archive.len() < HEADER_SIZE {
        archive
    } else {
        archive.subrange(0, HEADER_SIZE as int)
    }
}

/// With a password under which the first deciphered block does not start
/// with the magic number, listing and extracting fail with
/// `WrongPassword`; with any other password neither fails so.
pub proof fn lemma_wrong_password(archive: Seq<u8>, password: Seq<u8>)
    ensures
        !has_magic(decrypted(first_block(archive), key_of(password))) <==> listed(
            archive,
            Some(password),
        ) == Err::<Seq<FileEntry>, Error>(Error::WrongPassword),
        !has_magic(decrypted(first_block(archive), key_of(password))) <==> extracted(
            archive,
            Some(password),
        ) == Err::<Seq<Extracted>, Error>(Error::WrongPassword),
{
    let key = key_of(password);
    if archive.len() < HEADER_SIZE {
        assert(archive.subrange(0, archive.len() as int) =~= archive);
        lemma_decrypted_prefix(archive, key, archive.len() as int);
    } else {
        lemma_decrypted_prefix(archive, key, HEADER_SIZE as int);
    }
}

} // verus!
