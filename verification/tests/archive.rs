use uncbv::archive::{
    decrypt_archive, extract, get_file_list, is_affirmative, may_write, must_ask, policy_for,
    OverwritePolicy,
};
use uncbv::decrypt::create_key;
use uncbv::error::Error;

fn record(name: &[u8], compressed: i32, decompressed: i32, width: usize) -> Vec<u8> {
    let mut bytes = name.to_vec();
    bytes.resize(132, 0);
    bytes.extend_from_slice(&compressed.to_le_bytes());
    bytes.extend_from_slice(&decompressed.to_le_bytes());
    bytes.resize(width, 0);
    bytes
}

fn stored(body: &[u8]) -> Vec<u8> {
    let size = (body.len() + 1) as u16;
    let mut bytes = size.to_le_bytes().to_vec();
    bytes.extend_from_slice(&[0, 0, 0]);
    bytes.extend_from_slice(body);
    bytes
}

fn small(width: u8) -> Vec<u8> {
    let first = stored(b"the first file");
    let second = stored(b"the second one");
    let mut bytes = vec![0x08, 0x00, 0x02, 0x00, width, 0, 0, 0];
    bytes.extend_from_slice(&record(b"small.cbh", first.len() as i32, 14, width as usize));
    bytes.extend_from_slice(&record(b"sub\\small.cbg", second.len() as i32, 14, width as usize));
    bytes.extend_from_slice(&first);
    bytes.extend_from_slice(&second);
    bytes
}

fn encrypted(plain: &[u8], password: &str) -> Vec<u8> {
    des::encrypt(plain, &create_key(password))
}

fn names(archive: &[u8], password: Option<&str>) -> Vec<String> {
    get_file_list(archive, password).unwrap().into_iter().map(|file| file.filename).collect()
}

#[test]
fn list_a_plain_archive() {
    assert_eq!(names(&small(140), None), vec!["small.cbh", "sub/small.cbg"]);
}

#[test]
fn list_an_encrypted_archive() {
    let plain = small(140);
    let cipher = encrypted(&plain, "password");
    assert_ne!(&cipher[..2], &[0x08, 0x00]);
    assert_eq!(names(&cipher, Some("password")), vec!["small.cbh", "sub/small.cbg"]);
    let files = get_file_list(&cipher, Some("password")).unwrap();
    assert_eq!(files[0].compressed_size, 19);
    assert_eq!(files[1].decompressed_size, 14);
}

#[test]
fn list_an_encrypted_archive_whose_table_ends_inside_a_block() {
    // One record of 141 bytes: the table ends at byte 149.
    let mut plain = vec![0x08, 0x00, 0x01, 0x00, 141, 0, 0, 0];
    plain.extend_from_slice(&record(b"only", 0, 7, 141));
    assert_eq!(plain.len(), 149);
    let cipher = encrypted(&plain, "pass");
    assert_eq!(cipher.len(), 152);
    let files = get_file_list(&cipher, Some("pass")).unwrap();
    assert_eq!(files.len(), 1);
    assert_eq!(files[0].filename, "only");
    assert_eq!(files[0].decompressed_size, 7);
    // The same with the last, partial block cut off.
    assert_eq!(names(&cipher[..149], Some("pass")), vec!["only"]);
    assert_eq!(
        get_file_list(&cipher[..148], Some("pass")).err(),
        Some(Error::MalformedContainer)
    );
}

#[test]
fn list_with_the_wrong_password() {
    let cipher = encrypted(&small(140), "password");
    assert_eq!(get_file_list(&cipher, Some("passw0rd")).err(), Some(Error::WrongPassword));
    assert_eq!(get_file_list(&cipher, Some("")).err(), Some(Error::WrongPassword));
    assert_eq!(get_file_list(&[], Some("password")).err(), Some(Error::WrongPassword));
    assert_eq!(get_file_list(&cipher[..1], Some("password")).err(), Some(Error::WrongPassword));
}

#[test]
fn list_an_encrypted_archive_cut_short() {
    let cipher = encrypted(&small(140), "password");
    assert_eq!(
        get_file_list(&cipher[..8], Some("password")).err(),
        Some(Error::MalformedContainer)
    );
    assert_eq!(
        get_file_list(&cipher[..200], Some("password")).err(),
        Some(Error::MalformedContainer)
    );
    assert_eq!(names(&cipher[..288], Some("password")), vec!["small.cbh", "sub/small.cbg"]);
}

#[test]
fn list_a_plain_archive_that_is_none() {
    assert_eq!(get_file_list(b"PK\x03\x04", None).err(), Some(Error::MalformedContainer));
    assert_eq!(get_file_list(&[], None).err(), Some(Error::MalformedContainer));
}

#[test]
fn list_a_plain_archive_as_if_encrypted() {
    assert_eq!(get_file_list(&small(140), Some("password")).err(), Some(Error::WrongPassword));
}

#[test]
fn extract_a_plain_archive() {
    let files = extract(&small(140), None).unwrap();
    assert_eq!(files.len(), 2);
    assert_eq!(files[0].filename, "small.cbh");
    assert_eq!(files[0].content, Ok(b"the first file".to_vec()));
    assert_eq!(files[1].filename, "sub/small.cbg");
    assert_eq!(files[1].content, Ok(b"the second one".to_vec()));
}

#[test]
fn extract_an_encrypted_archive() {
    let plain = small(144);
    for password in ["password", "pass", "my long password"] {
        let cipher = encrypted(&plain, password);
        let files = extract(&cipher, Some(password)).unwrap();
        let expected = extract(&plain, None).unwrap();
        assert_eq!(files.len(), expected.len());
        for (a, b) in files.iter().zip(expected.iter()) {
            assert_eq!(a.filename, b.filename);
            assert_eq!(a.content, b.content);
            assert!(a.content.is_ok());
        }
    }
}

#[test]
fn extract_with_the_wrong_password() {
    let cipher = encrypted(&small(140), "password");
    assert_eq!(extract(&cipher, Some("drowssap")).err(), Some(Error::WrongPassword));
    assert_eq!(extract(&cipher, None).err(), Some(Error::MalformedContainer));
}

#[test]
fn extract_lists_what_list_lists() {
    let plain = small(140);
    let cipher = encrypted(&plain, "pass");
    let extracted: Vec<String> =
        extract(&cipher, Some("pass")).unwrap().into_iter().map(|file| file.filename).collect();
    assert_eq!(extracted, names(&cipher, Some("pass")));
    assert_eq!(extracted, names(&plain, None));
}

fn padded_small() -> Vec<u8> {
    let mut plain = small(144);
    plain.resize(336, 0);
    plain
}

#[test]
fn decrypt_an_archive_with_a_password_of_eight_bytes() {
    let plain = padded_small();
    let cipher = des::encrypt(&plain, b"password");
    assert_eq!(decrypt_archive(&cipher, "password"), Ok(plain));
}

#[test]
fn decrypt_an_archive_with_a_short_password() {
    let plain = padded_small();
    let cipher = des::encrypt(&plain, b"passpass");
    assert_eq!(decrypt_archive(&cipher, "pass"), Ok(plain.clone()));
    assert_eq!(extract(&plain, None).unwrap().len(), 2);
}

#[test]
fn decrypt_an_archive_with_a_long_password() {
    let plain = padded_small();
    let cipher = des::encrypt(&plain, &[0xaa, 0x93, 0x33, 0xab, 0xa9, 0xb3, 0xbc, 0x24]);
    assert_eq!(decrypt_archive(&cipher, "my long password"), Ok(plain.clone()));
    assert_eq!(extract(&plain, None).unwrap().len(), 2);
}

#[test]
fn decrypt_an_archive_with_the_wrong_password() {
    let cipher = encrypted(&small(144), "password");
    assert_eq!(decrypt_archive(&cipher, "pass"), Err(Error::WrongPassword));
    assert_eq!(decrypt_archive(&[], "pass"), Err(Error::WrongPassword));
}

#[test]
fn decrypted_and_then_extracted() {
    let plain = small(140);
    let cipher = encrypted(&plain, "password");
    let decrypted = decrypt_archive(&cipher, "password").unwrap();
    let direct = extract(&cipher, Some("password")).unwrap();
    let by_steps = extract(&decrypted, None).unwrap();
    assert_eq!(direct.len(), by_steps.len());
    for (a, b) in direct.iter().zip(by_steps.iter()) {
        assert_eq!(a.filename, b.filename);
        assert_eq!(a.content, b.content);
    }
}

#[test]
fn answers() {
    assert!(is_affirmative("y"));
    assert!(is_affirmative("Y"));
    assert!(is_affirmative("yes\n"));
    assert!(is_affirmative("Yep"));
    assert!(!is_affirmative("no"));
    assert!(!is_affirmative("n"));
    assert!(!is_affirmative(""));
    assert!(!is_affirmative("\n"));
    assert!(!is_affirmative(" y"));
    assert!(!is_affirmative("ÿ"));
}

#[test]
fn policy_of_no_confirm() {
    assert_eq!(policy_for(true), OverwritePolicy::Always);
    assert_eq!(policy_for(false), OverwritePolicy::Ask);
}

#[test]
fn a_new_file_is_always_written() {
    for policy in [OverwritePolicy::Always, OverwritePolicy::Never, OverwritePolicy::Ask] {
        assert!(may_write(policy, false, "no"));
        assert!(!must_ask(policy, false));
    }
}

#[test]
fn an_existing_file_is_written_as_the_policy_says() {
    assert!(may_write(OverwritePolicy::Always, true, "no"));
    assert!(!may_write(OverwritePolicy::Never, true, "yes"));
    assert!(may_write(OverwritePolicy::Ask, true, "yes"));
    assert!(!may_write(OverwritePolicy::Ask, true, "no"));
    assert!(!may_write(OverwritePolicy::Ask, true, ""));
    assert!(must_ask(OverwritePolicy::Ask, true));
    assert!(!must_ask(OverwritePolicy::Always, true));
    assert!(!must_ask(OverwritePolicy::Never, true));
}

#[test]
fn error_messages() {
    assert_eq!(Error::MalformedContainer.message(), "Not a CBV archive");
    assert_eq!(Error::WrongPassword.message(), "Wrong password");
    assert_eq!(Error::MalformedHuffman.message(), "Malformed Huffman data");
    assert_eq!(Error::MalformedLzss.message(), "Malformed compressed data");
    assert_eq!(Error::UnexpectedEof.message(), "Unexpected end of data");
    assert_eq!(Error::SizeMismatch.message(), "Wrong decompressed size");
    assert_eq!(Error::UnsafePath.message(), "Unsafe file name");
}

#[test]
fn fatal_errors() {
    assert!(Error::MalformedContainer.is_fatal());
    assert!(Error::WrongPassword.is_fatal());
    assert!(!Error::MalformedHuffman.is_fatal());
    assert!(!Error::MalformedLzss.is_fatal());
    assert!(!Error::UnexpectedEof.is_fatal());
    assert!(!Error::SizeMismatch.is_fatal());
    assert!(!Error::UnsafePath.is_fatal());
}
