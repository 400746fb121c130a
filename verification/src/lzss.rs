//! The sliding-window decompressor used inside compressed blocks.
//!
//! A compressed stream is a sequence of groups. Each group starts with a
//! 16-bit little-endian control word whose bits, from the most significant
//! to the least significant, say for each of up to sixteen tokens whether
//! it is a literal byte or a coded command (a run or a backward reference
//! into the output produced so far).

use vstd::prelude::*;
use crate::error::{Error, result_view};

verus! {

/// One decoded element of the compressed stream.
pub enum Token {
    /// A byte copied verbatim to the output.
    Literal(u8),
    /// A byte repeated `count` times.
    Run { byte: u8, count: nat },
    /// `length` bytes copied from `offset` positions back in the output.
    Copy { offset: nat, length: nat },
}

/// The upper four bits of a command byte.
pub open spec fn high(b: u8) -> int {
    b as int / 16
}

/// The lower four bits of a command byte.
pub open spec fn low(b: u8) -> int {
    b as int % 16
}

/// Whether bit `i` of the control word is set.
pub open spec fn control_bit(word: u16, i: u16) -> bool {
    (word >> i) & 1 == 1
}

/// The control word stored little-endian at `pos`.
pub open spec fn control_word(input: Seq<u8>, pos: int) -> u16 {
    (input[pos] as int + 256 * (input[pos + 1] as int)) as u16
}

/// The number of input bytes taken by the token that starts at `pos`.
pub open spec fn token_len(input: Seq<u8>, pos: int, coded: bool) -> int {
    if !coded {
        1
    } else if high(input[pos]) == 1 || high(input[pos]) == 2 {
        3
    } else {
        2
    }
}

/// The token that starts at `pos`, all of whose bytes are present.
pub open spec fn token_at(input: Seq<u8>, pos: int, coded: bool) -> Token {
    let c = input[pos];
    if !coded {
        Token::Literal(c)
    } else if high(c) == 0 {
        Token::Run { byte: input[pos + 1], count: (low(c) + 3) as nat }
    } else if high(c) == 1 {
        Token::Run {
            byte: input[pos + 2],
            count: (low(c) + 16 * (input[pos + 1] as int) + 0x13) as nat,
        }
    } else if high(c) == 2 {
        Token::Copy {
            offset: (16 * (input[pos + 1] as int) + low(c) + 3) as nat,
            length: (input[pos + 2] as int + 0x10) as nat,
        }
    } else {
        Token::Copy {
            offset: (16 * (input[pos + 1] as int) + low(c) + 3) as nat,
            length: high(c) as nat,
        }
    }
}

/// The output after copying `length` bytes, one at a time, each from
/// `offset` positions before the end of what has been written so far.
pub open spec fn copy_back(out: Seq<u8>, offset: nat, length: nat) -> Seq<u8>
    decreases length,
{
    if length == 0 {
        out
    } else {
        let prev = copy_back(out, offset, (length - 1) as nat);
        prev.push(prev[prev.len() - offset])
    }
}

/// The output after a token, or `None` for a backward reference that
/// starts before the beginning of the output.
pub open spec fn emit(out: Seq<u8>, t: Token) -> Option<Seq<u8>> {
    match t {
        Token::Literal(b) => Some(out.push(b)),
        Token::Run { byte, count } => Some(out + Seq::new(count, |i: int| byte)),
        Token::Copy { offset, length } => if offset <= out.len() {
            Some(copy_back(out, offset, length))
        } else {
            None
        },
    }
}

/// The result of decompressing `input` from position `pos` on, where
/// `left` bits of the control word `word` are still unused and `out` has
/// been produced so far.
pub open spec fn unpack_from(input: Seq<u8>, pos: int, word: u16, left: u16, out: Seq<u8>) -> Result<
    Seq<u8>,
    Error,
>
    decreases input.len() - pos,
{
    if pos < 0 || pos >= input.len() {
        Ok(out)
    } else if left == 0 {
        if pos + 2 > input.len() {
            Ok(out)
        } else {
            unpack_from(input, pos + 2, control_word(input, pos), 16, out)
        }
    } else {
        let coded = control_bit(word, (left - 1) as u16);
        let n = token_len(input, pos, coded);
        if pos + n > input.len() {
            Ok(out)
        } else {
            match emit(out, token_at(input, pos, coded)) {
                None => Err(Error::MalformedLzss),
                Some(next) => unpack_from(input, pos + n, word, (left - 1) as u16, next),
            }
        }
    }
}

/// The bytes that a compressed stream stands for.
pub open spec fn unpacked(input: Seq<u8>) -> Result<Seq<u8>, Error> {
    unpack_from(input, 0, 0, 0, Seq::empty())
}

/// A backward copy keeps what was written, adds exactly `length` bytes, and
/// each added byte equals the byte `offset` positions before it, also where
/// the copied range overlaps the bytes being written.
pub proof fn lemma_copy_back(out: Seq<u8>, offset: nat, length: nat)
    requires
        1 <= offset <= out.len(),
    ensures
        copy_back(out, offset, length).len() == out.len() + length,
        forall|i: int| 0 <= i < out.len() ==> copy_back(out, offset, length)[i] == out[i],
        forall|i: int|
            out.len() <= i < out.len() + length ==> #[trigger] copy_back(out, offset, length)[i]
                == copy_back(out, offset, length)[i - offset],
    decreases length,
{
    if length > 0 {
        lemma_copy_back(out, offset, (length - 1) as nat);
    }
}

/// A copy whose offset is one repeats the last byte of the output.
pub proof fn lemma_copy_back_offset_one(out: Seq<u8>, length: nat)
    requires
        out.len() >= 1,
    ensures
        copy_back(out, 1, length) =~= out + Seq::new(length, |i: int| out.last()),
    decreases length,
{
    if length > 0 {
        lemma_copy_back_offset_one(out, (length - 1) as nat);
        lemma_copy_back(out, 1, (length - 1) as nat);
    }
}

/// A copy that does not reach the end of the output appends a subrange of it.
pub proof fn lemma_copy_back_disjoint(out: Seq<u8>, offset: nat, length: nat)
    requires
        1 <= offset <= out.len(),
        length <= offset,
    ensures
        copy_back(out, offset, length) =~= out + out.subrange(
            out.len() - offset,
            out.len() - offset + length,
        ),
    decreases length,
{
    if length > 0 {
        lemma_copy_back_disjoint(out, offset, (length - 1) as nat);
        lemma_copy_back(out, offset, (length - 1) as nat);
    }
}

/// The number of bytes that a token adds to the output.
pub open spec fn token_size(t: Token) -> nat {
    match t {
        Token::Literal(_) => 1,
        Token::Run { byte, count } => count,
        Token::Copy { offset, length } => length,
    }
}

/// A token keeps the output written before it and adds exactly as many
/// bytes as its size: one for a literal, the count of a run, the length of
/// a backward reference.
pub proof fn lemma_emit(out: Seq<u8>, t: Token)
    requires
        emit(out, t) is Some,
        t is Copy ==> t->offset >= 1,
    ensures
        emit(out, t).unwrap().len() == out.len() + token_size(t),
        emit(out, t).unwrap().subrange(0, out.len() as int) == out,
{
    match t {
        Token::Literal(_) => {},
        Token::Run { byte, count } => {},
        Token::Copy { offset, length } => {
            lemma_copy_back(out, offset, length);
        },
    }
    assert(emit(out, t).unwrap().subrange(0, out.len() as int) =~= out);
}

/// Appends `count` copies of `byte` to `out`.
fn push_run(out: &mut Vec<u8>, byte: u8, count: usize)
    ensures
        final(out)@ == old(out)@ + Seq::new(count as nat, |i: int| byte),
{
    let mut k: usize = 0;
    while k < count
        invariant
            k <= count,
            out@ =~= old(out)@ + Seq::new(k as nat, |i: int| byte),
        decreases count - k,
    {
        out.push(byte);
        k = k + 1;
    }
}

/// Appends `length` bytes to `out`, each read `offset` positions before the
/// end of what has been written so far.
fn push_copy(out: &mut Vec<u8>, offset: usize, length: usize)
    requires
        1 <= offset <= old(out)@.len(),
    ensures
        final(out)@ == copy_back(old(out)@, offset as nat, length as nat),
{
    let mut k: usize = 0;
    while k < length
        invariant
            k <= length,
            1 <= offset <= old(out)@.len(),
            out@ == copy_back(old(out)@, offset as nat, k as nat),
            out@.len() == old(out)@.len() + k,
        decreases length - k,
    {
        let b = out[out.len() - offset];
        out.push(b);
        k = k + 1;
    }
}

/// Decompresses a block.
///
/// The stream ends where the input ends, also in the middle of a group or
/// of a token: a token that is cut short produces nothing. A backward
/// reference to before the start of the output is an error.
pub fn decompress_block(input: Vec<u8>) -> (r: Result<Vec<u8>, Error>)
    ensures
        result_view(r) == unpacked(input@),
{
    let mut result: Vec<u8> = Vec::new();
    let len = input.len();
    let mut pos: usize = 0;
    let mut word: u16 = 0;
    let mut left: u16 = 0;
    while pos < len
        invariant
            len == input@.len(),
            pos <= len,
            left <= 16,
            unpack_from(input@, pos as int, word, left, result@) == unpacked(input@),
        decreases len - pos,
    {
        if left == 0 {
            if len - pos < 2 {
                return Ok(result);
            }
            word = input[pos] as u16 + 256 * (input[pos + 1] as u16);
            left = 16;
            pos = pos + 2;
        } else {
            let coded = (word >> (left - 1)) & 1 == 1;
            let c = input[pos];
            let high = c / 16;
            let low = c % 16;
            let n: usize = if !coded {
                1
            } else if high == 1 || high == 2 {
                3
            } else {
                2
            };
            if len - pos < n {
                return Ok(result);
            }
            if !coded {
                result.push(c);
            } else if high == 0 {
                push_run(&mut result, input[pos + 1], low as usize + 3);
            } else if high == 1 {
                let count: usize = low as usize + 16 * (input[pos + 1] as usize) + 0x13;
                push_run(&mut result, input[pos + 2], count);
            } else {
                let offset: usize = 16 * (input[pos + 1] as usize) + low as usize + 3;
                let length: usize = if high == 2 {
                    input[pos + 2] as usize + 0x10
                } else {
                    high as usize
                };
                if offset > result.len() {
                    return Err(Error::MalformedLzss);
                }
                push_copy(&mut result, offset, length);
            }
            pos = pos + n;
            left = left - 1;
        }
    }
    Ok(result)
}

} // verus!
