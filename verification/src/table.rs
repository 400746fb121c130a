//! The Huffman-coded body of a block: a 16-bit size, the code table and
//! the coded symbols.
//!
//! The table has one entry for each of the 256 symbols, in ascending order:
//! four bits for the length of the code, then the code itself. The coded
//! symbols follow the last entry without any padding.

use vstd::prelude::*;
use crate::bits::{code_bits, lemma_nibble_value, nibble, stream_bits, take_bits, BitPos};
use crate::error::{result_view, Error};
use crate::trie::{
    collides,
    create_huffman_tree,
    decoded,
    huffman_decode,
    table_of,
    too_long,
    Tree,
    SYMBOLS,
};

verus! {

/// The bit at which entry `k` of the table that begins at `start` begins.
pub open spec fn entry_start(bits: Seq<bool>, start: int, k: nat) -> int
    decreases k,
{
    if k == 0 {
        start
    } else {
        let q = entry_start(bits, start, (k - 1) as nat);
        q + 4 + nibble(bits, q)
    }
}

/// The code in entry `k` of the table: the bits after its length field.
pub open spec fn entry_code(bits: Seq<bool>, start: int, k: nat) -> Seq<bool> {
    let q = entry_start(bits, start, k);
    bits.subrange(q + 4, q + 4 + nibble(bits, q))
}

/// The codes of the table that begins at bit `start`.
pub open spec fn table_codes(bits: Seq<bool>, start: int) -> Seq<Seq<bool>> {
    Seq::new(SYMBOLS as nat, |k: int| entry_code(bits, start, k as nat))
}

/// The bit after the last entry of the table that begins at bit `start`.
pub open spec fn table_end(bits: Seq<bool>, start: int) -> int {
    entry_start(bits, start, SYMBOLS as nat)
}

/// The bytes that a Huffman-coded body stands for.
pub open spec fn huffman_decoded(body: Seq<u8>) -> Result<Seq<u8>, Error> {
    if body.len() < 2 {
        Err(Error::UnexpectedEof)
    } else {
        let count = (256 * (body[0] as int) + body[1] as int) as nat;
        let bits = stream_bits(body);
        if table_end(bits, 16) > bits.len() {
            Err(Error::UnexpectedEof)
        } else if collides(table_codes(bits, 16)) {
            Err(Error::MalformedHuffman)
        } else {
            decoded(table_codes(bits, 16), bits, table_end(bits, 16), count)
        }
    }
}

/// Later entries begin at later bits.
pub proof fn lemma_entry_start_grows(bits: Seq<bool>, start: int, k: nat, n: nat)
    requires
        k <= n,
    ensures
        entry_start(bits, start, k) <= entry_start(bits, start, n),
    decreases n,
{
    if k < n {
        lemma_entry_start_grows(bits, start, k, (n - 1) as nat);
    }
}

/// Reads the code table that begins at `pos` and builds its tree.
///
/// Fails with `UnexpectedEof` where the input ends inside the table, and
/// with `MalformedHuffman` where two symbols have the same code.
pub fn huffman_tree(input: &[u8], pos: BitPos) -> (r: Result<(Tree, BitPos), Error>)
    requires
        pos.wf(),
    ensures
        match r {
            Ok((tree, next)) => {
                &&& table_end(stream_bits(input@), pos.index()) <= 8 * input@.len()
                &&& !collides(table_codes(stream_bits(input@), pos.index()))
                &&& tree.wf()
                &&& tree@ == table_codes(stream_bits(input@), pos.index())
                &&& next.wf()
                &&& next.index() == table_end(stream_bits(input@), pos.index())
            },
            Err(e) => if table_end(stream_bits(input@), pos.index()) > 8 * input@.len() {
                e == Error::UnexpectedEof
            } else {
                e == Error::MalformedHuffman && collides(
                    table_codes(stream_bits(input@), pos.index()),
                )
            },
        },
{
    let ghost bits = stream_bits(input@);
    let ghost start = pos.index();
    let mut values: [(usize, u16); 256] = [(0usize, 0u16);256];
    let mut at = pos;
    let mut k: usize = 0;
    while k < SYMBOLS
        invariant
            k <= SYMBOLS,
            bits == stream_bits(input@),
            start == pos.index(),
            at.wf(),
            at.index() == entry_start(bits, start, k as nat),
            k > 0 ==> at.index() <= bits.len(),
            forall|j: int|
                0 <= j < k ==> (#[trigger] values@[j]).0 <= 15 && code_bits(
                    values@[j].0 as int,
                    values@[j].1,
                ) == entry_code(bits, start, j as nat),
        decreases SYMBOLS - k,
    {
        let ghost q = at.index();
        proof {
            lemma_entry_start_grows(bits, start, (k + 1) as nat, SYMBOLS as nat);
        }
        let length: u16;
        let after_length: BitPos;
        match take_bits(input, at, 4) {
            None => {
                return Err(Error::UnexpectedEof);
            },
            Some((l, next)) => {
                proof {
                    lemma_nibble_value(l, bits, q);
                }
                length = l;
                after_length = next;
            },
        }
        match take_bits(input, after_length, length as u8) {
            None => {
                return Err(Error::UnexpectedEof);
            },
            Some((v, next)) => {
                values[k] = (length as usize, v);
                at = next;
            },
        }
        k = k + 1;
    }
    proof {
        assert(table_of(values@) =~= table_codes(bits, start));
        assert(!too_long(values@));
    }
    match create_huffman_tree(values) {
        Ok(tree) => Ok((tree, at)),
        Err(e) => Err(e),
    }
}

/// Decodes a Huffman-coded body: the number of symbols as a 16-bit
/// big-endian number, the code table, and the coded symbols.
pub fn huffman(input: &[u8]) -> (r: Result<Vec<u8>, Error>)
    ensures
        result_view(r) == huffman_decoded(input@),
{
    if input.len() < 2 {
        return Err(Error::UnexpectedEof);
    }
    let count: usize = 256 * (input[0] as usize) + input[1] as usize;
    match huffman_tree(input, BitPos::at_byte(2)) {
        Err(e) => Err(e),
        Ok((tree, next)) => huffman_decode(input, next, &tree, count),
    }
}

} // verus!
