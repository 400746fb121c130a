//! Reading a byte slice as a stream of bits, most significant bit first.

use vstd::prelude::*;

verus! {

/// A position in a bit stream: a byte and a bit within it, counted from
/// the most significant one.
#[derive(Clone, Copy, Debug, PartialEq, Eq, Structural)]
pub struct BitPos {
    pub byte: usize,
    pub bit: u8,
}

impl BitPos {
    /// The number of bits before this position.
    pub open spec fn index(self) -> int {
        8 * (self.byte as int) + self.bit as int
    }

    /// The bit number is below eight.
    pub open spec fn wf(self) -> bool {
        self.bit < 8
    }

    /// The position of the first bit of byte `byte`.
    pub fn at_byte(byte: usize) -> (p: BitPos)
        ensures
            p.wf(),
            p.index() == 8 * byte,
            p == (BitPos { byte, bit: 0 }),
    {
        BitPos { byte, bit: 0 }
    }
}

/// Bit `i` of the stream.
pub open spec fn stream_bit(bytes: Seq<u8>, i: int) -> bool {
    (bytes[i / 8] >> ((7 - i % 8) as u8)) & 1 == 1
}

/// The bits of a byte sequence, eight for each byte.
pub open spec fn stream_bits(bytes: Seq<u8>) -> Seq<bool> {
    Seq::new(8 * bytes.len(), |i: int| stream_bit(bytes, i))
}

/// Whether bit `i` of `value` is set.
pub open spec fn value_bit(value: u16, i: u16) -> bool {
    (value >> i) & 1 == 1
}

/// The bits of the `length`-bit number `value`, most significant bit first.
pub open spec fn code_bits(length: int, value: u16) -> Seq<bool> {
    Seq::new(length as nat, |j: int| value_bit(value, (length - 1 - j) as u16))
}

/// The number that four bits stand for, most significant bit first.
pub open spec fn nibble(bits: Seq<bool>, p: int) -> int {
    (if bits[p] {
        8int
    } else {
        0
    }) + (if bits[p + 1] {
        4int
    } else {
        0
    }) + (if bits[p + 2] {
        2int
    } else {
        0
    }) + (if bits[p + 3] {
        1int
    } else {
        0
    })
}

/// Reads the bit at `pos`, or returns `None` at the end of the input.
pub fn read_bit(input: &[u8], pos: BitPos) -> (r: Option<(bool, BitPos)>)
    requires
        pos.wf(),
    ensures
        r is None <==> pos.index() >= 8 * input@.len(),
        r is Some ==> {
            let (b, next) = r.unwrap();
            &&& b == stream_bits(input@)[pos.index()]
            &&& next.wf()
            &&& next.index() == pos.index() + 1
        },
{
    if pos.byte >= input.len() {
        return None;
    }
    let b = (input[pos.byte] >> (7 - pos.bit)) & 1 == 1;
    let next = if pos.bit == 7 {
        BitPos { byte: pos.byte + 1, bit: 0 }
    } else {
        BitPos { byte: pos.byte, bit: pos.bit + 1 }
    };
    Some((b, next))
}

/// Shifting a bit in from the right moves every other bit up by one.
proof fn lemma_shift_in(v: u16, b: u16, i: u16)
    requires
        b <= 1,
        i < 16,
    ensures
        i == 0 ==> value_bit((v << 1) | b, i) == (b == 1),
        i > 0 ==> value_bit((v << 1) | b, i) == value_bit(v, (i - 1) as u16),
{
    assert(b <= 1 && i == 0 ==> (((v << 1) | b) >> i) & 1 == b) by (bit_vector);
    assert(b <= 1 && 0 < i < 16 ==> (((v << 1) | b) >> i) & 1 == (v >> ((i - 1) as u16)) & 1)
        by (bit_vector);
}

/// Shifting a bit into a number of `k` bits gives one of `k + 1` bits.
proof fn lemma_shift_bound(v: u16, b: u16, k: u16)
    requires
        b <= 1,
        k < 15,
        v >> k == 0,
    ensures
        ((v << 1) | b) >> ((k + 1) as u16) == 0,
{
    assert(b <= 1 && k < 15 && v >> k == 0 ==> ((v << 1) | b) >> ((k + 1) as u16) == 0)
        by (bit_vector);
}

/// A number below sixteen is the sum of its four lowest bits.
pub proof fn lemma_nibble_value(v: u16, bits: Seq<bool>, p: int)
    requires
        v >> 4 == 0,
        0 <= p,
        p + 4 <= bits.len(),
        code_bits(4, v) == bits.subrange(p, p + 4),
    ensures
        v as int == nibble(bits, p),
        v < 16,
{
    let sub = bits.subrange(p, p + 4);
    assert(sub[0] == value_bit(v, 3));
    assert(sub[1] == value_bit(v, 2));
    assert(sub[2] == value_bit(v, 1));
    assert(sub[3] == value_bit(v, 0));
    assert(v >> 4 == 0 ==> v < 16 && v == (if (v >> 3) & 1 == 1 {
        8u16
    } else {
        0u16
    }) + (if (v >> 2) & 1 == 1 {
        4u16
    } else {
        0u16
    }) + (if (v >> 1) & 1 == 1 {
        2u16
    } else {
        0u16
    }) + (if (v >> 0) & 1 == 1 {
        1u16
    } else {
        0u16
    })) by (bit_vector);
}

/// Reads `count` bits at `pos` as a number, most significant bit first, or
/// returns `None` where fewer bits are left. The number has 16 bits, so
/// no more can be read at once.
pub fn take_bits(input: &[u8], pos: BitPos, count: u8) -> (r: Option<(u16, BitPos)>)
    requires
        pos.wf(),
        count <= 16,
    ensures
        r is None <==> pos.index() + count > 8 * input@.len(),
        r is Some ==> {
            let (v, next) = r.unwrap();
            &&& code_bits(count as int, v) == stream_bits(input@).subrange(
                pos.index(),
                pos.index() + count,
            )
            &&& count < 16 ==> v >> (count as u16) == 0
            &&& next.wf()
            &&& next.index() == pos.index() + count
        },
{
    let ghost bits = stream_bits(input@);
    let ghost start = pos.index();
    let mut v: u16 = 0;
    let mut cur = pos;
    let mut k: u8 = 0;
    assert(0u16 >> 0u16 == 0) by (bit_vector);
    if pos.byte > input.len() || (pos.byte == input.len() && pos.bit > 0) {
        return None;
    }
    while k < count
        invariant
            k <= count <= 16,
            bits == stream_bits(input@),
            start == pos.index(),
            cur.wf(),
            cur.index() == start + k,
            k > 0 ==> start + k <= bits.len(),
            k < 16 ==> v >> (k as u16) == 0,
            forall|i: int|
                start <= i < start + k ==> #[trigger] bits[i] == value_bit(
                    v,
                    (start + k - 1 - i) as u16,
                ),
        decreases count - k,
    {
        match read_bit(input, cur) {
            None => {
                return None;
            },
            Some((b, next)) => {
                let one: u16 = if b {
                    1
                } else {
                    0
                };
                let ghost prev = v;
                v = (v << 1) | one;
                proof {
                    if k < 15 {
                        lemma_shift_bound(prev, one, k as u16);
                    }
                    assert forall|i: int| start <= i < start + k + 1 implies #[trigger] bits[i]
                        == value_bit(v, (start + k - i) as u16) by {
                        lemma_shift_in(prev, one, (start + k - i) as u16);
                    }
                }
                cur = next;
                k = k + 1;
            },
        }
    }
    assert(code_bits(count as int, v) =~= bits.subrange(start, start + count));
    Some((v, cur))
}

} // verus!
