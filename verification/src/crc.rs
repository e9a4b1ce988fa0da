//! Table-driven CRC-32 (IEEE 802.3, reflected polynomial `0xEDB88320`).
//!
//! It guards every log frame so that recovery can tell a corrupt one.

use vstd::prelude::*;

verus! {

/// One bit shifted through the reflected polynomial.
pub open spec fn crc_bit(c: u32) -> u32 {
    if c & 1 != 0 {
        0xEDB8_8320u32 ^ (c >> 1u32)
    } else {
        c >> 1u32
    }
}

/// Eight bits shifted through the polynomial.
pub open spec fn crc_bits(c: u32) -> u32 {
    crc_bit(crc_bit(crc_bit(crc_bit(crc_bit(crc_bit(crc_bit(crc_bit(c))))))))
}

/// The register after the bytes, least significant bit first, from all ones.
pub open spec fn crc_register(bytes: Seq<u8>) -> u32
    decreases bytes.len(),
{
    if bytes.len() == 0 {
        0xFFFF_FFFFu32
    } else {
        crc_bits(crc_register(bytes.drop_last()) ^ (bytes.last() as u32))
    }
}

/// The checksum: the register, inverted.
pub open spec fn crc32_of(bytes: Seq<u8>) -> u32 {
    crc_register(bytes) ^ 0xFFFF_FFFFu32
}

/// The table: what eight bits make of each byte.
fn make_table() -> (table: Vec<u32>)
    ensures
        table@.len() == 256,
        forall|i: u32| i < 256 ==> #[trigger] table@[i as int] == crc_bits(i),
{
    let mut table: Vec<u32> = Vec::new();
    let mut i: u32 = 0;
    while i < 256
        invariant
            i <= 256,
            table@.len() == i,
            forall|j: u32| j < i ==> #[trigger] table@[j as int] == crc_bits(j),
        decreases 256 - i,
    {
        let mut c: u32 = i;
        let mut k: u32 = 0;
        assert(shifted(c, 8) == crc_bits(i)) by {
            reveal_with_fuel(shifted, 9);
        }
        while k < 8
            invariant
                k <= 8,
                shifted(c, (8 - k) as nat) == crc_bits(i),
            decreases 8 - k,
        {
            c = if c & 1 != 0 {
                0xEDB8_8320 ^ (c >> 1)
            } else {
                c >> 1
            };
            k = k + 1;
        }
        table.push(c);
        i = i + 1;
    }
    table
}

/// The register after `n` more bits.
spec fn shifted(c: u32, n: nat) -> u32
    decreases n,
{
    if n == 0 {
        c
    } else {
        shifted(crc_bit(c), (n - 1) as nat)
    }
}

/// The checksum of the bytes.
pub fn crc32(bytes: &[u8]) -> (crc: u32)
    ensures
        crc == crc32_of(bytes@),
{
    let table = make_table();
    let mut c: u32 = 0xFFFF_FFFF;
    let mut i: usize = 0;
    while i < bytes.len()
        invariant
            i <= bytes@.len(),
            table@.len() == 256,
            forall|j: u32| j < 256 ==> #[trigger] table@[j as int] == crc_bits(j),
            c == crc_register(bytes@.take(i as int)),
        decreases bytes@.len() - i,
    {
        let b: u32 = bytes[i] as u32;
        let slot: u32 = (c ^ b) & 0xFF;
        proof {
            assert(slot < 256) by {
                assert((c ^ b) & 0xFF < 256) by (bit_vector);
            }
            lemma_table_step(c, b);
            assert(bytes@.take(i + 1).drop_last() =~= bytes@.take(i as int));
        }
        c = table[slot as usize] ^ (c >> 8);
        i = i + 1;
    }
    assert(bytes@.take(i as int) =~= bytes@);
    c ^ 0xFFFF_FFFF
}

/// Looking a byte up is shifting its eight bits through.
proof fn lemma_table_step(c: u32, b: u32)
    requires
        b < 256,
    ensures
        crc_bits(c ^ b) == crc_bits((c ^ b) & 0xFF) ^ (c >> 8u32),
{
    assert(crc_bits(c ^ b) == crc_bits((c ^ b) & 0xFF) ^ (c >> 8u32)) by (bit_vector)
        requires
            b < 256,
    ;
}

/// One bit fed into the division: where it differs from the bit that leaves the
/// register, the polynomial is taken off.
pub open spec fn fed(register: u32, bit: bool) -> u32 {
    if (register & 1 == 1) != bit {
        (register >> 1u32) ^ 0xEDB8_8320u32
    } else {
        register >> 1u32
    }
}

/// The remainder of the division of all the bits by the polynomial, with the
/// register all ones at first.
pub open spec fn remainder(bits: Seq<bool>) -> u32
    decreases bits.len(),
{
    if bits.len() == 0 {
        0xFFFF_FFFFu32
    } else {
        fed(remainder(bits.drop_last()), bits.last())
    }
}

/// The bits of the bytes, each byte's least significant first.
pub open spec fn bits_of(bytes: Seq<u8>) -> Seq<bool> {
    Seq::new(8 * bytes.len(), |i: int| byte_bit(bytes[i / 8], (i % 8) as u8))
}

/// The `k`-th bit of a byte.
pub open spec fn byte_bit(byte: u8, k: u8) -> bool {
    (byte >> k) & 1u8 == 1u8
}

/// The checksum is the remainder of the polynomial division of all the bits, with
/// every bit inverted.
pub proof fn law_the_checksum_is_a_polynomial_remainder(bytes: Seq<u8>)
    ensures
        crc32_of(bytes) == !remainder(bits_of(bytes)),
{
    lemma_register_is_remainder(bytes);
    let r = crc_register(bytes);
    assert(r ^ 0xFFFF_FFFFu32 == !r) by (bit_vector);
}

proof fn lemma_register_is_remainder(bytes: Seq<u8>)
    ensures
        crc_register(bytes) == remainder(bits_of(bytes)),
    decreases bytes.len(),
{
    if bytes.len() > 0 {
        let less = bytes.drop_last();
        let b = bytes.last();
        lemma_register_is_remainder(less);
        lemma_bits_grow(bytes);
        lemma_eight_bits(bits_of(bytes), bits_of(less), b);
        lemma_byte_fed(crc_register(less), b);
    }
}

/// The bits of one more byte come behind those of the others.
proof fn lemma_bits_grow(bytes: Seq<u8>)
    requires
        bytes.len() > 0,
    ensures
        ({
            let less = bits_of(bytes.drop_last());
            let bits = bits_of(bytes);
            &&& bits.len() == less.len() + 8
            &&& bits.take(less.len() as int) == less
            &&& forall|k: int|
                0 <= k < 8 ==> #[trigger] bits[less.len() + k] == byte_bit(bytes.last(), k as u8)
        }),
{
    let short = bytes.drop_last();
    let less = bits_of(short);
    let bits = bits_of(bytes);
    let n: int = 8 * short.len() as int;
    assert forall|i: int| 0 <= i < n implies #[trigger] bits[i] == less[i] by {
        assert(bytes[i / 8] == short[i / 8]);
    }
    assert(bits.take(n) =~= less);
    assert forall|k: int| 0 <= k < 8 implies #[trigger] bits[less.len() + k] == byte_bit(
        bytes.last(),
        k as u8,
    ) by {
        assert((n + k) / 8 == short.len() && (n + k) % 8 == k);
    }
}

/// The register after the eight bits of a byte.
#[verifier::opaque]
spec fn fed_byte(r: u32, b: u8) -> u32 {
    let half = fed(
        fed(fed(fed(r, byte_bit(b, 0)), byte_bit(b, 1)), byte_bit(b, 2)),
        byte_bit(b, 3),
    );
    fed(fed(fed(fed(half, byte_bit(b, 4)), byte_bit(b, 5)), byte_bit(b, 6)), byte_bit(b, 7))
}

#[verifier::opaque]
spec fn fed_one(r: u32, bit: bool) -> u32 {
    fed(r, bit)
}

proof fn lemma_eight_bits(bits: Seq<bool>, less: Seq<bool>, b: u8)
    requires
        bits.len() == less.len() + 8,
        bits.take(less.len() as int) == less,
        forall|k: int| 0 <= k < 8 ==> #[trigger] bits[less.len() + k] == byte_bit(b, k as u8),
    ensures
        remainder(bits) == fed_byte(remainder(less), b),
{
    let n = less.len() as int;
    lemma_fed_next(bits, n);
    lemma_fed_next(bits, n + 1);
    lemma_fed_next(bits, n + 2);
    lemma_fed_next(bits, n + 3);
    lemma_fed_next(bits, n + 4);
    lemma_fed_next(bits, n + 5);
    lemma_fed_next(bits, n + 6);
    lemma_fed_next(bits, n + 7);
    assert(bits[less.len() + 0int] == byte_bit(b, 0));
    assert(bits[less.len() + 1int] == byte_bit(b, 1));
    assert(bits[less.len() + 2int] == byte_bit(b, 2));
    assert(bits[less.len() + 3int] == byte_bit(b, 3));
    assert(bits[less.len() + 4int] == byte_bit(b, 4));
    assert(bits[less.len() + 5int] == byte_bit(b, 5));
    assert(bits[less.len() + 6int] == byte_bit(b, 6));
    assert(bits[less.len() + 7int] == byte_bit(b, 7));
    assert(bits.take(n + 8) =~= bits);
    reveal(fed_byte);
    reveal(fed_one);
}

proof fn lemma_fed_next(bits: Seq<bool>, i: int)
    requires
        0 <= i < bits.len(),
    ensures
        remainder(bits.take(i + 1)) == fed_one(remainder(bits.take(i)), bits[i]),
{
    reveal(fed_one);
    assert(bits.take(i + 1).drop_last() =~= bits.take(i));
}

/// A byte that is shifted through at once is fed bit by bit.
proof fn lemma_byte_fed(r: u32, b: u8)
    ensures
        crc_bits(r ^ (b as u32)) == fed_byte(r, b),
{
    reveal(fed_byte);
    assert(crc_bits(r ^ (b as u32)) == ({
        let half = fed(
            fed(fed(fed(r, byte_bit(b, 0)), byte_bit(b, 1)), byte_bit(b, 2)),
            byte_bit(b, 3),
        );
        fed(fed(fed(fed(half, byte_bit(b, 4)), byte_bit(b, 5)), byte_bit(b, 6)), byte_bit(b, 7))
    })) by (bit_vector);
}

/// Registers that differ still differ after the next byte, and bytes that differ
/// make registers differ.
proof fn lemma_byte_tells(p: u32, q: u32, a: u8, b: u8)
    ensures
        p != q ==> crc_bits(p ^ (a as u32)) != crc_bits(q ^ (a as u32)),
        a != b ==> crc_bits(p ^ (a as u32)) != crc_bits(p ^ (b as u32)),
{
    assert(p != q ==> p ^ (a as u32) != q ^ (a as u32)) by (bit_vector);
    assert(a != b ==> p ^ (a as u32) != p ^ (b as u32)) by (bit_vector);
    lemma_bits_tell(p ^ (a as u32), q ^ (a as u32));
    lemma_bits_tell(p ^ (a as u32), p ^ (b as u32));
}

proof fn lemma_bit_tells(p: u32, q: u32)
    ensures
        p != q ==> crc_bit(p) != crc_bit(q),
{
    assert(p != q ==> crc_bit(p) != crc_bit(q)) by (bit_vector);
}

proof fn lemma_bits_tell(p: u32, q: u32)
    ensures
        p != q ==> crc_bits(p) != crc_bits(q),
{
    let (p1, q1) = (crc_bit(p), crc_bit(q));
    let (p2, q2) = (crc_bit(p1), crc_bit(q1));
    let (p3, q3) = (crc_bit(p2), crc_bit(q2));
    let (p4, q4) = (crc_bit(p3), crc_bit(q3));
    let (p5, q5) = (crc_bit(p4), crc_bit(q4));
    let (p6, q6) = (crc_bit(p5), crc_bit(q5));
    let (p7, q7) = (crc_bit(p6), crc_bit(q6));
    lemma_bit_tells(p, q);
    lemma_bit_tells(p1, q1);
    lemma_bit_tells(p2, q2);
    lemma_bit_tells(p3, q3);
    lemma_bit_tells(p4, q4);
    lemma_bit_tells(p5, q5);
    lemma_bit_tells(p6, q6);
    lemma_bit_tells(p7, q7);
}

proof fn lemma_inverted_tells(p: u32, q: u32)
    ensures
        p ^ 0xFFFF_FFFFu32 == q ^ 0xFFFF_FFFFu32 <==> p == q,
{
    assert(p ^ 0xFFFF_FFFFu32 == q ^ 0xFFFF_FFFFu32 <==> p == q) by (bit_vector);
}

/// The checksum depends on the last byte, at any length, and on everything before
/// it.
pub proof fn law_the_checksum_tells_the_last_byte(a: Seq<u8>, b: Seq<u8>, x: u8, y: u8)
    ensures
        crc32_of(a.push(x)) == crc32_of(a.push(y)) <==> x == y,
        crc32_of(a.push(x)) == crc32_of(b.push(x)) <==> crc32_of(a) == crc32_of(b),
{
    assert(a.push(x).drop_last() =~= a);
    assert(a.push(y).drop_last() =~= a);
    assert(b.push(x).drop_last() =~= b);
    lemma_byte_tells(crc_register(a), crc_register(b), x, y);
    lemma_inverted_tells(crc_register(a), crc_register(b));
    lemma_inverted_tells(crc_register(a.push(x)), crc_register(a.push(y)));
    lemma_inverted_tells(crc_register(a.push(x)), crc_register(b.push(x)));
}

/// A single damaged byte is always found, wherever it stands and however long the
/// data is.
pub proof fn law_a_damaged_byte_changes_the_checksum(bytes: Seq<u8>, at: int, byte: u8)
    requires
        0 <= at < bytes.len(),
        byte != bytes[at],
    ensures
        crc32_of(bytes.update(at, byte)) != crc32_of(bytes),
    decreases bytes.len(),
{
    let damaged = bytes.update(at, byte);
    let less = bytes.drop_last();
    if at == bytes.len() - 1 {
        law_the_checksum_tells_the_last_byte(less, less, bytes.last(), byte);
        assert(damaged =~= less.push(byte));
        assert(bytes =~= less.push(bytes.last()));
    } else {
        law_a_damaged_byte_changes_the_checksum(less, at, byte);
        law_the_checksum_tells_the_last_byte(less.update(at, byte), less, bytes.last(), byte);
        assert(damaged =~= less.update(at, byte).push(bytes.last()));
        assert(bytes =~= less.push(bytes.last()));
    }
}

} // verus!
