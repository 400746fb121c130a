//! File names of the file table: a fixed-size, zero-terminated field of
//! Windows-1252 text in which directories are separated by backslashes.

use encoding::all::WINDOWS_1252;
use encoding::{DecoderTrap, Encoding};
use vstd::prelude::*;
use vstd::slice::slice_subrange;
use vstd::string::StringExecFns;
use crate::error::Error;

verus! {

/// The size of the file name field of a file record in bytes.
pub const NAME_SIZE: usize = 132;

/// The text that a byte sequence stands for in Windows-1252, or `None`
/// where a byte has no character in that encoding.
pub uninterp spec fn windows_1252_text(bytes: Seq<u8>) -> Option<Seq<char>>;

/// Whether every byte is below 128.
pub open spec fn all_ascii(bytes: Seq<u8>) -> bool {
    forall|i: int| 0 <= i < bytes.len() ==> #[trigger] bytes[i] < 0x80
}

/// Decodes `bytes` with `encoding::Encoding::decode` of
/// `encoding::all::WINDOWS_1252`, with `DecoderTrap::Strict`.
///
/// The decoder writes one character for each byte and stops with an error
/// at a byte that its table does not map. It writes a byte below 128 as
/// the character with that code. So the contract claims: the result is
/// the named text; where there is one it has as many characters as the
/// input has bytes, with every byte below 128 standing for itself; and an
/// input of such bytes only is always decoded.
#[verifier::external_body]
fn decode_windows_1252(bytes: &[u8]) -> (r: Option<String>)
    ensures
        match r {
            Some(s) => windows_1252_text(bytes@) == Some(s@),
            None => windows_1252_text(bytes@) is None,
        },
        r is Some ==> r.unwrap()@.len() == bytes@.len(),
        r is Some ==> forall|i: int|
            0 <= i < bytes@.len() && bytes@[i] < 0x80 ==> #[trigger] r.unwrap()@[i]
                == bytes@[i] as char,
        all_ascii(bytes@) ==> r is Some,
{
    match WINDOWS_1252.decode(bytes, DecoderTrap::Strict) {
        Ok(text) => Some(text),
        Err(_) => None,
    }
}

/// A character of a file name with the backslash turned into a slash.
pub open spec fn slash(c: char) -> char {
    if c == '\\' {
        '/'
    } else {
        c
    }
}

/// A file name with every backslash turned into a slash.
pub open spec fn slashed(name: Seq<char>) -> Seq<char> {
    Seq::new(name.len(), |i: int| slash(name[i]))
}

/// The index of the first zero byte from `i` on, or the length of the
/// field where there is none.
pub open spec fn name_end_from(field: Seq<u8>, i: int) -> int
    decreases field.len() - i,
{
    if i < 0 || i >= field.len() || field[i] == 0 {
        i
    } else {
        name_end_from(field, i + 1)
    }
}

/// The bytes of a name field before its first zero byte.
pub open spec fn name_bytes(field: Seq<u8>) -> Seq<u8> {
    field.subrange(0, name_end_from(field, 0))
}

/// The file name that a name field stands for: its bytes up to the first
/// zero, as Windows-1252 text, with slashes for backslashes. `None`
/// where the bytes are no such text.
pub open spec fn name_of(field: Seq<u8>) -> Option<Seq<char>> {
    match windows_1252_text(name_bytes(field)) {
        Some(text) => Some(slashed(text)),
        None => None,
    }
}

/// Whether a file name is absolute: it starts with a slash, or its second
/// character is a colon, as after a drive letter.
pub open spec fn is_absolute(name: Seq<char>) -> bool {
    (name.len() >= 1 && name[0] == '/') || (name.len() >= 2 && name[1] == ':')
}

/// Whether two dots follow each other at `i`.
pub open spec fn dots_at(name: Seq<char>, i: int) -> bool {
    0 <= i && i + 1 < name.len() && name[i] == '.' && name[i + 1] == '.'
}

/// Whether a file name holds two dots in a row.
pub open spec fn has_dot_dot(name: Seq<char>) -> bool {
    exists|i: int| dots_at(name, i)
}

/// Whether a file name can be joined to an output directory without
/// leaving it: it is not absolute and holds no `..`.
pub open spec fn safe_name(name: Seq<char>) -> bool {
    !is_absolute(name) && !has_dot_dot(name)
}

/// The name field ends at the first zero byte, before which no byte is
/// zero.
pub proof fn lemma_name_end(field: Seq<u8>, i: int)
    requires
        0 <= i <= field.len(),
    ensures
        i <= name_end_from(field, i) <= field.len(),
        forall|j: int| i <= j < name_end_from(field, i) ==> #[trigger] field[j] != 0,
        name_end_from(field, i) < field.len() ==> field[name_end_from(field, i)] == 0,
    decreases field.len() - i,
{
    if i < field.len() && field[i] != 0 {
        lemma_name_end(field, i + 1);
    }
}

/// A name never holds a backslash.
pub proof fn lemma_slashed_has_no_backslash(name: Seq<char>)
    ensures
        slashed(name).len() == name.len(),
        forall|i: int| 0 <= i < name.len() ==> #[trigger] slashed(name)[i] != '\\',
        forall|i: int|
            0 <= i < name.len() && name[i] != '\\' ==> #[trigger] slashed(name)[i] == name[i],
        forall|i: int| 0 <= i < name.len() && name[i] == '\\' ==> #[trigger] slashed(name)[i] == '/',
{
}

/// Replace all the backslashes by slashes in `string`.
pub fn replace_backslash_by_slash(string: &mut String)
    ensures
        final(string)@ == slashed(old(string)@),
{
    let mut out = String::new();
    let n = string.as_str().unicode_len();
    let mut i: usize = 0;
    proof {
        reveal_strlit("/");
    }
    while i < n
        invariant
            i <= n,
            n == string@.len(),
            string@ == old(string)@,
            out@ == slashed(string@.subrange(0, i as int)),
            "/"@ == seq!['/'],
        decreases n - i,
    {
        let c = string.as_str().get_char(i);
        if c == '\\' {
            out.append("/");
        } else {
            out.append(string.as_str().substring_char(i, i + 1));
        }
        assert(out@ =~= slashed(string@.subrange(0, i + 1)));
        i = i + 1;
    }
    assert(string@.subrange(0, n as int) =~= string@);
    *string = out;
}

/// Convert the bytes reprensenting the filename into a String, replacing the
/// backslashes by slashes and converting the filename to UTF-8.
///
/// Returns `None` where the bytes are no Windows-1252 text.
pub fn bytes_to_filename(bytes: &[u8]) -> (r: Option<String>)
    ensures
        match r {
            Some(name) => windows_1252_text(bytes@) is Some && name@ == slashed(
                windows_1252_text(bytes@).unwrap(),
            ),
            None => windows_1252_text(bytes@) is None,
        },
        all_ascii(bytes@) ==> r is Some && r.unwrap()@ == Seq::new(
            bytes@.len(),
            |i: int| slash(bytes@[i] as char),
        ),
{
    match decode_windows_1252(bytes) {
        Some(text) => {
            let mut string = text;
            replace_backslash_by_slash(&mut string);
            proof {
                if all_ascii(bytes@) {
                    assert(string@ =~= Seq::new(bytes@.len(), |i: int| slash(bytes@[i] as char)));
                }
            }
            Some(string)
        },
        None => None,
    }
}

/// Parse a null-terminated String as a filename.
///
/// Reads the name field at the start of the input and returns the name
/// with the rest of the input. Fails where the input is shorter than the
/// field or the name is no Windows-1252 text.
pub fn filename(input: &[u8]) -> (r: Result<(&[u8], String), Error>)
    ensures
        match r {
            Ok((rest, name)) => {
                &&& input@.len() >= NAME_SIZE
                &&& rest@ == input@.skip(NAME_SIZE as int)
                &&& name_of(input@.subrange(0, NAME_SIZE as int)) == Some(name@)
            },
            Err(e) => e == Error::MalformedContainer && (input@.len() < NAME_SIZE || name_of(
                input@.subrange(0, NAME_SIZE as int),
            ) is None),
        },
{
    if input.len() < NAME_SIZE {
        return Err(Error::MalformedContainer);
    }
    let ghost field = input@.subrange(0, NAME_SIZE as int);
    let mut end: usize = 0;
    while end < NAME_SIZE && is_not_zero(input[end])
        invariant
            end <= NAME_SIZE <= input@.len(),
            field == input@.subrange(0, NAME_SIZE as int),
            name_end_from(field, end as int) == name_end_from(field, 0),
        decreases NAME_SIZE - end,
    {
        end = end + 1;
    }
    let bytes = slice_subrange(input, 0, end);
    let rest = slice_subrange(input, NAME_SIZE, input.len());
    proof {
        assert(bytes@ =~= name_bytes(field));
        assert(rest@ =~= input@.skip(NAME_SIZE as int));
    }
    match bytes_to_filename(bytes) {
        Some(name) => Ok((rest, name)),
        None => Err(Error::MalformedContainer),
    }
}

/// Check if the byte is different than zero.
pub fn is_not_zero(byte: u8) -> (r: bool)
    ensures
        r == (byte != 0),
{
    byte != 0
}

/// Tells whether a file name can be joined to an output directory without
/// leaving it.
pub fn is_safe_name(name: &str) -> (r: bool)
    ensures
        r == safe_name(name@),
{
    let n = name.unicode_len();
    if n >= 1 && name.get_char(0) == '/' {
        return false;
    }
    if n >= 2 && name.get_char(1) == ':' {
        return false;
    }
    let mut i: usize = 0;
    let mut previous_dot = false;
    while i < n
        invariant
            i <= n,
            n == name@.len(),
            previous_dot == (i > 0 && name@[i - 1] == '.'),
            forall|j: int| 0 <= j && j + 1 < i ==> !dots_at(name@, j),
        decreases n - i,
    {
        let dot = name.get_char(i) == '.';
        if dot && previous_dot {
            assert(dots_at(name@, i - 1));
            return false;
        }
        previous_dot = dot;
        i = i + 1;
    }
    true
}

} // verus!
