//! Big-endian bit fields: reading, writing (OR-ing in or overwriting), and
//! what a stored field looks like bit by bit.

use vstd::prelude::*;
use vstd::arithmetic::power2::*;
use vstd::arithmetic::div_mod::*;
use vstd::bits::*;
use crate::error::ParseError;

verus! {

/// Bit `i` of a byte stream, counting from the most significant bit of the
/// first byte; bits past the end read as zero.
pub open spec fn bit_at(data: Seq<u8>, i: int) -> u8 {
    if 0 <= i && i / 8 < data.len() {
        (data[i / 8] >> ((7 - i % 8) as u8)) & 1u8
    } else {
        0
    }
}

/// The unsigned integer spelled by the `n` bits that start at bit `off`,
/// most significant bit first.
pub open spec fn bits_value(data: Seq<u8>, off: int, n: nat) -> nat
    decreases n,
{
    if n == 0 {
        0
    } else {
        2 * bits_value(data, off, (n - 1) as nat) + bit_at(data, off + n - 1) as nat
    }
}

/// Bit `j` (from the most significant end) of the `n`-bit field that holds
/// the low `n` bits of `val`.
pub open spec fn field_bit(val: u64, n: nat, j: int) -> u8 {
    ((val >> ((n - 1 - j) as u64)) & 1u64) as u8
}

/// Length of a buffer after `n` bits are stored at bit `off`.
pub open spec fn grown_len(old_len: nat, off: nat, n: nat) -> nat {
    if n == 0 {
        old_len
    } else if old_len >= (off + n + 7) / 8 {
        old_len
    } else {
        ((off + n + 7) / 8) as nat
    }
}

/// The buffer `new` holds `old` with the `n`-bit field `val` stored at bit
/// `off`: overwriting the bits there, or OR-ing into them when `merge`.
pub open spec fn stores_field(
    old: Seq<u8>,
    new: Seq<u8>,
    off: nat,
    n: nat,
    val: u64,
    merge: bool,
) -> bool {
    &&& new.len() == grown_len(old.len(), off, n)
    &&& forall|i: int|
        0 <= i < 8 * new.len() ==> #[trigger] bit_at(new, i) == if off <= i < off + n {
            if merge {
                field_bit(val, n, i - off) | bit_at(old, i)
            } else {
                field_bit(val, n, i - off)
            }
        } else {
            bit_at(old, i)
        }
}

/// Field writes copy whole bytes (overwriting) for aligned 8, 16,
/// 32 and 64 bit fields, and OR single bits into the buffer otherwise.
pub open spec fn overwrites(off: nat, n: nat) -> bool {
    off % 8 == 0 && (n == 8 || n == 16 || n == 32 || n == 64)
}

pub proof fn lemma_bit_at_small(data: Seq<u8>, i: int)
    ensures
        bit_at(data, i) <= 1,
{
    if 0 <= i && i / 8 < data.len() {
        let b = data[i / 8];
        let s = (7 - i % 8) as u8;
        assert((b >> s) & 1u8 <= 1) by (bit_vector);
    }
}

pub proof fn lemma_bits_value_bound(data: Seq<u8>, off: int, n: nat)
    ensures
        bits_value(data, off, n) < pow2(n),
    decreases n,
{
    if n == 0 {
        lemma2_to64();
    } else {
        lemma_bits_value_bound(data, off, (n - 1) as nat);
        lemma_bit_at_small(data, off + n - 1);
        lemma_pow2_unfold(n);
    }
}

/// One step of the MSB-first accumulator, taken modulo 2^64.
proof fn lemma_shift_in(v: u64, b: u64)
    requires
        b <= 1,
    ensures
        ((v << 1u64) | b) as int == (2 * v + b) % 0x1_0000_0000_0000_0000,
{
    assert(((v << 1u64) | b) as int == (2 * v + b) % 0x1_0000_0000_0000_0000) by (bit_vector)
        requires b <= 1;
}

proof fn lemma_mod_step(x: int, b: int)
    requires
        0 <= x,
        0 <= b,
    ensures
        (2 * (x % 0x1_0000_0000_0000_0000) + b) % 0x1_0000_0000_0000_0000 == (2 * x + b)
            % 0x1_0000_0000_0000_0000,
{
    let m: int = 0x1_0000_0000_0000_0000;
    lemma_mul_mod_noop_right(2, x, m);
    lemma_add_mod_noop(2 * x, b, m);
    lemma_add_mod_noop(2 * (x % m), b, m);
    lemma_mod_mod(2 * (x % m), m, 1);
    lemma_mod_mod(2 * x, m, 1);
}

/// Reads `bits` bits at `*bit_offset`, most significant first, and advances
/// the offset; fails with `Eof`, the offset unchanged, when the data is too
/// short. Wider fields keep their low 64 bits.
pub fn read_bits(data: &[u8], bit_offset: &mut usize, bits: usize) -> (res: Result<u64, ParseError>)
    requires
        *old(bit_offset) + bits <= usize::MAX,
        data@.len() * 8 <= usize::MAX,
    ensures
        *old(bit_offset) + bits > data@.len() * 8 ==> res == Err::<u64, ParseError>(ParseError::Eof)
            && *final(bit_offset) == *old(bit_offset),
        *old(bit_offset) + bits <= data@.len() * 8 ==> {
            &&& res is Ok
            &&& res->Ok_0 as nat == bits_value(data@, *old(bit_offset) as int, bits as nat) % pow2(64)
            &&& *final(bit_offset) == *old(bit_offset) + bits
        },
{
    if *bit_offset + bits > data.len() * 8 {
        return Err(ParseError::Eof);
    }
    let start = *bit_offset;
    let mut val: u64 = 0;
    let mut i: usize = 0;
    proof {
        lemma2_to64();
    }
    while i < bits
        invariant
            start + bits <= data@.len() * 8,
            start + bits <= usize::MAX,
            i <= bits,
            pow2(64) == 0x1_0000_0000_0000_0000,
            val as nat == bits_value(data@, start as int, i as nat) % pow2(64),
        decreases bits - i,
    {
        let current_bit = start + i;
        let byte_idx = current_bit / 8;
        let bit_idx: u8 = (7 - current_bit % 8) as u8;
        let bit = (data[byte_idx] >> bit_idx) & 1;
        proof {
            assert(bit == bit_at(data@, start + i));
            lemma_bit_at_small(data@, start + i);
            lemma_shift_in(val, bit as u64);
            lemma_mod_step(bits_value(data@, start as int, i as nat) as int, bit as int);
        }
        val = (val << 1u64) | (bit as u64);
        i = i + 1;
    }
    *bit_offset = start + bits;
    Ok(val)
}


/// The first `done` bits of the `n`-bit field `val` are stored at `off`.
spec fn stores_prefix(
    old: Seq<u8>,
    new: Seq<u8>,
    off: nat,
    done: nat,
    n: nat,
    val: u64,
    merge: bool,
) -> bool {
    &&& new.len() == grown_len(old.len(), off, done)
    &&& forall|i: int|
        0 <= i < 8 * new.len() ==> #[trigger] bit_at(new, i) == if off <= i < off + done {
            if merge {
                field_bit(val, n, i - off) | bit_at(old, i)
            } else {
                field_bit(val, n, i - off)
            }
        } else {
            bit_at(old, i)
        }
}

proof fn lemma_set_bit(x: u8, sh: u8, b: u8, j: u8)
    requires
        sh < 8,
        j < 8,
        b <= 1,
    ensures
        (((x & !(1u8 << sh)) | (b << sh)) >> j) & 1u8 == if j == sh {
            b
        } else {
            (x >> j) & 1u8
        },
        ((x | (b << sh)) >> j) & 1u8 == if j == sh {
            b | ((x >> j) & 1u8)
        } else {
            (x >> j) & 1u8
        },
{
    assert((((x & !(1u8 << sh)) | (b << sh)) >> j) & 1u8 == if j == sh {
        b
    } else {
        (x >> j) & 1u8
    }) by (bit_vector)
        requires
            sh < 8,
            j < 8,
            b <= 1,
    ;
    assert(((x | (b << sh)) >> j) & 1u8 == if j == sh {
        b | ((x >> j) & 1u8)
    } else {
        (x >> j) & 1u8
    }) by (bit_vector)
        requires
            sh < 8,
            j < 8,
            b <= 1,
    ;
}

proof fn lemma_zero_byte_bits(j: u8)
    requires
        j < 8,
    ensures
        (0u8 >> j) & 1u8 == 0,
{
    assert((0u8 >> j) & 1u8 == 0) by (bit_vector);
}

/// Stores the low `bits` bits of `val` at bit `start`, growing the buffer
/// with zero bytes as needed; each bit overwrites, or is OR-ed in when
/// `merge`.
fn store_bits(buffer: &mut Vec<u8>, start: usize, bits: usize, val: u64, merge: bool)
    requires
        bits <= 64,
        start + bits + 8 <= usize::MAX,
    ensures
        stores_field(old(buffer)@, final(buffer)@, start as nat, bits as nat, val, merge),
{
    let ghost old_buf = buffer@;
    let mut i: usize = 0;
    while i < bits
        invariant
            bits <= 64,
            start + bits + 8 <= usize::MAX,
            i <= bits,
            stores_prefix(old_buf, buffer@, start as nat, i as nat, bits as nat, val, merge),
        decreases bits - i,
    {
        let current_bit = start + i;
        let byte_idx = current_bit / 8;
        let bit_idx: u8 = (7 - current_bit % 8) as u8;
        let ghost before_grow = buffer@;
        while buffer.len() <= byte_idx
            invariant
                buffer@.len() >= before_grow.len(),
                buffer@.len() <= before_grow.len() || buffer@.len() <= byte_idx + 1,
                forall|k: int| 0 <= k < before_grow.len() ==> buffer@[k] == before_grow[k],
                forall|k: int| before_grow.len() <= k < buffer@.len() ==> buffer@[k] == 0u8,
                byte_idx + 1 <= usize::MAX,
            decreases byte_idx + 1 - buffer.len(),
        {
            buffer.push(0);
        }
        let bit: u8 = ((val >> ((bits - 1 - i) as u64)) & 1u64) as u8;
        let ghost grown = buffer@;
        proof {
            assert(bit <= 1) by (bit_vector)
                requires bit == ((val >> ((bits - 1 - i) as u64)) & 1u64) as u8;
            assert(grown.len() == grown_len(old_buf.len(), start as nat, (i + 1) as nat));
            assert forall|p: int| 0 <= p < 8 * grown.len() implies #[trigger] bit_at(grown, p)
                == bit_at(before_grow, p) by {
                if p / 8 < before_grow.len() {
                    assert(grown[p / 8] == before_grow[p / 8]);
                } else {
                    lemma_zero_byte_bits((7 - p % 8) as u8);
                }
            }
        }
        let old_byte = buffer[byte_idx];
        if merge {
            buffer.set(byte_idx, old_byte | (bit << bit_idx));
        } else {
            buffer.set(byte_idx, (old_byte & !(1u8 << bit_idx)) | (bit << bit_idx));
        }
        proof {
            assert forall|p: int| 0 <= p < 8 * buffer@.len() implies #[trigger] bit_at(buffer@, p)
                == if start <= p < start + i + 1 {
                if merge {
                    field_bit(val, bits as nat, p - start) | bit_at(old_buf, p)
                } else {
                    field_bit(val, bits as nat, p - start)
                }
            } else {
                bit_at(old_buf, p)
            } by {
                assert(bit_at(grown, p) == bit_at(before_grow, p));
                if p / 8 == byte_idx {
                    lemma_set_bit(old_byte, bit_idx, bit, (7 - p % 8) as u8);
                }
            }
        }
        i = i + 1;
    }
}


/// Stores the low `bits` bits of `val` at `*bit_offset` and advances the
/// offset, growing the buffer with zero bytes. Aligned 8, 16, 32 and 64 bit
/// fields overwrite whole bytes; every other field is OR-ed into the buffer.
pub fn write_bits(buffer: &mut Vec<u8>, bit_offset: &mut usize, bits: usize, val: u64)
    requires
        bits <= 64,
        *old(bit_offset) + bits + 8 <= usize::MAX,
    ensures
        stores_field(
            old(buffer)@,
            final(buffer)@,
            *old(bit_offset) as nat,
            bits as nat,
            val,
            !overwrites(*old(bit_offset) as nat, bits as nat),
        ),
        *final(bit_offset) == *old(bit_offset) + bits,
{
    let start = *bit_offset;
    let whole_bytes = start % 8 == 0 && (bits == 8 || bits == 16 || bits == 32 || bits == 64);
    store_bits(buffer, start, bits, val, !whole_bytes);
    *bit_offset = start + bits;
}

/// Stores the low `bits` bits of `val` at `*bit_offset`, overwriting what
/// was there, and advances the offset; the buffer grows with zero bytes.
pub fn write_bits_exact(buffer: &mut Vec<u8>, bit_offset: &mut usize, bits: usize, val: u64)
    requires
        bits <= 64,
        *old(bit_offset) + bits + 8 <= usize::MAX,
    ensures
        stores_field(old(buffer)@, final(buffer)@, *old(bit_offset) as nat, bits as nat, val, false),
        *final(bit_offset) == *old(bit_offset) + bits,
{
    let start = *bit_offset;
    store_bits(buffer, start, bits, val, false);
    *bit_offset = start + bits;
}

proof fn lemma_field_bit_div(val: u64, n: nat, j: int)
    requires
        n <= 64,
        0 <= j < n,
    ensures
        field_bit(val, n, j) as nat == (val as nat / pow2((n - 1 - j) as nat)) % 2,
{
    let s = (n - 1 - j) as u64;
    lemma_u64_shr_is_div(val, s);
    let t = val >> s;
    assert(t & 1u64 == t % 2) by (bit_vector);
    assert(((t & 1u64) as u8) as nat == (t & 1u64) as nat) by (bit_vector);
}

proof fn lemma_prefix_value(data: Seq<u8>, off: int, n: nat, val: u64, m: nat)
    requires
        n <= 64,
        m <= n,
        forall|j: int| 0 <= j < n ==> #[trigger] bit_at(data, off + j) == field_bit(val, n, j),
    ensures
        bits_value(data, off, m) == (val as nat / pow2((n - m) as nat)) % pow2(m),
    decreases m,
{
    lemma_pow2_pos((n - m) as nat);
    if m == 0 {
        lemma2_to64();
    } else {
        let k = (m - 1) as nat;
        lemma_prefix_value(data, off, n, val, k);
        assert(bit_at(data, off + k) == field_bit(val, n, k as int));
        lemma_field_bit_div(val, n, k as int);
        let w = val as nat / pow2((n - m) as nat);
        lemma_pow2_pos((n - m) as nat);
        lemma_pow2_pos(k);
        // val / 2^(n-k) == (val / 2^(n-m)) / 2
        lemma_pow2_adds((n - m) as nat, 1);
        lemma2_to64();
        lemma_div_denominator(val as int, pow2((n - m) as nat) as int, 2);
        assert(pow2((n - k) as nat) == pow2((n - m) as nat) * 2);
        // w % 2^m == 2 * ((w / 2) % 2^k) + w % 2
        lemma_pow2_unfold(m);
        lemma_mod_breakdown(w as int, 2, pow2(k) as int);
    }
}

/// Once a field is stored (overwriting), the bits at its position spell its
/// value: the low `n` bits of `val`.
pub proof fn law_stored_field_reads_back(old: Seq<u8>, new: Seq<u8>, off: nat, n: nat, val: u64)
    requires
        n <= 64,
        stores_field(old, new, off, n, val, false),
    ensures
        n > 0 ==> off + n <= 8 * new.len(),
        bits_value(new, off as int, n) == val as nat % pow2(n),
{
    assert forall|j: int| 0 <= j < n implies #[trigger] bit_at(new, off + j) == field_bit(val, n, j) by {
        assert(off + j < 8 * new.len());
    }
    lemma_prefix_value(new, off as int, n, val, n);
    lemma2_to64();
    assert(val as nat / pow2(0) == val as nat);
}

/// OR-ing a field into bits that are all zero stores it exactly.
pub proof fn law_merge_into_zero_bits(old: Seq<u8>, new: Seq<u8>, off: nat, n: nat, val: u64)
    requires
        stores_field(old, new, off, n, val, true),
        forall|i: int| off <= i < off + n ==> #[trigger] bit_at(old, i) == 0,
    ensures
        stores_field(old, new, off, n, val, false),
{
    assert forall|i: int| 0 <= i < 8 * new.len() && off <= i < off + n implies
        #[trigger] bit_at(new, i) == field_bit(val, n, i - off) by {
        let f = field_bit(val, n, i - off);
        assert(f | 0u8 == f) by (bit_vector);
    }
}



/// The byte whose bits, most significant first, are `b0` .. `b7`.
pub open spec fn byte_of_bits(b0: u8, b1: u8, b2: u8, b3: u8, b4: u8, b5: u8, b6: u8, b7: u8) -> u8 {
    ((b0 << 7u8) | (b1 << 6u8) | (b2 << 5u8) | (b3 << 4u8) | (b4 << 3u8) | (b5 << 2u8) | (b6 << 1u8)
        | b7) as u8
}

/// Bit `i` after the `n`-bit field `val` is stored at `off` (see
/// `stores_field`).
pub open spec fn stored_bit(old: Seq<u8>, i: int, off: nat, n: nat, val: u64, merge: bool) -> u8 {
    if off <= i < off + n {
        if merge {
            field_bit(val, n, i - off) | bit_at(old, i)
        } else {
            field_bit(val, n, i - off)
        }
    } else {
        bit_at(old, i)
    }
}

/// The buffer after the `n`-bit field `val` is stored at bit `off`.
#[verifier::opaque]
pub open spec fn stored_bytes(old: Seq<u8>, off: nat, n: nat, val: u64, merge: bool) -> Seq<u8> {
    Seq::new(
        grown_len(old.len(), off, n),
        |k: int|
            byte_of_bits(
                stored_bit(old, 8 * k, off, n, val, merge),
                stored_bit(old, 8 * k + 1, off, n, val, merge),
                stored_bit(old, 8 * k + 2, off, n, val, merge),
                stored_bit(old, 8 * k + 3, off, n, val, merge),
                stored_bit(old, 8 * k + 4, off, n, val, merge),
                stored_bit(old, 8 * k + 5, off, n, val, merge),
                stored_bit(old, 8 * k + 6, off, n, val, merge),
                stored_bit(old, 8 * k + 7, off, n, val, merge),
            ),
    )
}

pub proof fn lemma_byte_of_bits(x: u8)
    ensures
        x == byte_of_bits(
            (x >> 7u8) & 1u8,
            (x >> 6u8) & 1u8,
            (x >> 5u8) & 1u8,
            (x >> 4u8) & 1u8,
            (x >> 3u8) & 1u8,
            (x >> 2u8) & 1u8,
            (x >> 1u8) & 1u8,
            (x >> 0u8) & 1u8,
        ),
{
    assert(x == ((((x >> 7u8) & 1u8) << 7u8) | (((x >> 6u8) & 1u8) << 6u8) | (((x >> 5u8) & 1u8)
        << 5u8) | (((x >> 4u8) & 1u8) << 4u8) | (((x >> 3u8) & 1u8) << 3u8) | (((x >> 2u8) & 1u8)
        << 2u8) | (((x >> 1u8) & 1u8) << 1u8) | ((x >> 0u8) & 1u8)) as u8) by (bit_vector);
}

pub proof fn lemma_bit_at_index(s: Seq<u8>, k: int, j: int)
    requires
        0 <= k < s.len(),
        0 <= j < 8,
    ensures
        bit_at(s, 8 * k + j) == (s[k] >> ((7 - j) as u8)) & 1u8,
{
    assert((8 * k + j) / 8 == k);
    assert((8 * k + j) % 8 == j);
}

/// A buffer in which a field is stored is exactly `stored_bytes`.
pub proof fn lemma_stores_field_unique(old: Seq<u8>, new: Seq<u8>, off: nat, n: nat, val: u64, merge: bool)
    requires
        stores_field(old, new, off, n, val, merge),
    ensures
        new == stored_bytes(old, off, n, val, merge),
{
    reveal(stored_bytes);
    let s = stored_bytes(old, off, n, val, merge);
    assert forall|k: int| 0 <= k < new.len() implies new[k] == s[k] by {
        lemma_byte_of_bits(new[k]);
        assert forall|j: int| 0 <= j < 8 implies #[trigger] bit_at(new, 8 * k + j) == stored_bit(old, 8 * k + j, off, n, val, merge) by {
            assert(0 <= 8 * k + j < 8 * new.len());
        }
        lemma_bit_at_index(new, k, 0);
        lemma_bit_at_index(new, k, 1);
        lemma_bit_at_index(new, k, 2);
        lemma_bit_at_index(new, k, 3);
        lemma_bit_at_index(new, k, 4);
        lemma_bit_at_index(new, k, 5);
        lemma_bit_at_index(new, k, 6);
        lemma_bit_at_index(new, k, 7);
        assert(bit_at(new, 8 * k + 0) == stored_bit(old, 8 * k + 0, off, n, val, merge));
        assert(bit_at(new, 8 * k + 1) == stored_bit(old, 8 * k + 1, off, n, val, merge));
        assert(bit_at(new, 8 * k + 2) == stored_bit(old, 8 * k + 2, off, n, val, merge));
        assert(bit_at(new, 8 * k + 3) == stored_bit(old, 8 * k + 3, off, n, val, merge));
        assert(bit_at(new, 8 * k + 4) == stored_bit(old, 8 * k + 4, off, n, val, merge));
        assert(bit_at(new, 8 * k + 5) == stored_bit(old, 8 * k + 5, off, n, val, merge));
        assert(bit_at(new, 8 * k + 6) == stored_bit(old, 8 * k + 6, off, n, val, merge));
        assert(bit_at(new, 8 * k + 7) == stored_bit(old, 8 * k + 7, off, n, val, merge));
    }
    assert(new =~= s);
}


proof fn lemma_byte_of_bits_bit(b0: u8, b1: u8, b2: u8, b3: u8, b4: u8, b5: u8, b6: u8, b7: u8)
    requires
        b0 <= 1,
        b1 <= 1,
        b2 <= 1,
        b3 <= 1,
        b4 <= 1,
        b5 <= 1,
        b6 <= 1,
        b7 <= 1,
    ensures
        (byte_of_bits(b0, b1, b2, b3, b4, b5, b6, b7) >> 7u8) & 1u8 == b0,
        (byte_of_bits(b0, b1, b2, b3, b4, b5, b6, b7) >> 6u8) & 1u8 == b1,
        (byte_of_bits(b0, b1, b2, b3, b4, b5, b6, b7) >> 5u8) & 1u8 == b2,
        (byte_of_bits(b0, b1, b2, b3, b4, b5, b6, b7) >> 4u8) & 1u8 == b3,
        (byte_of_bits(b0, b1, b2, b3, b4, b5, b6, b7) >> 3u8) & 1u8 == b4,
        (byte_of_bits(b0, b1, b2, b3, b4, b5, b6, b7) >> 2u8) & 1u8 == b5,
        (byte_of_bits(b0, b1, b2, b3, b4, b5, b6, b7) >> 1u8) & 1u8 == b6,
        (byte_of_bits(b0, b1, b2, b3, b4, b5, b6, b7) >> 0u8) & 1u8 == b7,
{
    let x = byte_of_bits(b0, b1, b2, b3, b4, b5, b6, b7);
    assert(x == ((b0 << 7u8) | (b1 << 6u8) | (b2 << 5u8) | (b3 << 4u8) | (b4 << 3u8) | (b5 << 2u8) | (b6 << 1u8) | b7) as u8);
    assert({
        let y = ((b0 << 7u8) | (b1 << 6u8) | (b2 << 5u8) | (b3 << 4u8) | (b4 << 3u8) | (b5 << 2u8) | (b6 << 1u8) | b7) as u8;
        &&& (y >> 7u8) & 1u8 == b0
        &&& (y >> 6u8) & 1u8 == b1
        &&& (y >> 5u8) & 1u8 == b2
        &&& (y >> 4u8) & 1u8 == b3
        &&& (y >> 3u8) & 1u8 == b4
        &&& (y >> 2u8) & 1u8 == b5
        &&& (y >> 1u8) & 1u8 == b6
        &&& (y >> 0u8) & 1u8 == b7
    }) by (bit_vector)
        requires
            b0 <= 1,
            b1 <= 1,
            b2 <= 1,
            b3 <= 1,
            b4 <= 1,
            b5 <= 1,
            b6 <= 1,
            b7 <= 1,
    ;
}

proof fn lemma_stored_bit_small(old: Seq<u8>, i: int, off: nat, n: nat, val: u64, merge: bool)
    ensures
        stored_bit(old, i, off, n, val, merge) <= 1,
{
    lemma_bit_at_small(old, i);
    let t: u64 = val >> ((n - 1 - (i - off)) as u64);
    assert(((t & 1u64) as u8) <= 1) by (bit_vector);
    let f = field_bit(val, n, i - off);
    let o = bit_at(old, i);
    assert(f == ((t & 1u64) as u8));
    assert(f | o <= 1) by (bit_vector)
        requires f <= 1, o <= 1;
}

/// `stored_bytes` stores the field: every bit is as `stores_field` says.
pub proof fn lemma_stored_bytes_stores(old: Seq<u8>, off: nat, n: nat, val: u64, merge: bool)
    ensures
        stores_field(old, stored_bytes(old, off, n, val, merge), off, n, val, merge),
{
    reveal(stored_bytes);
    let s = stored_bytes(old, off, n, val, merge);
    assert forall|i: int| 0 <= i < 8 * s.len() implies #[trigger] bit_at(s, i) == stored_bit(old, i, off, n, val, merge) by {
        let k = i / 8;
        let j = i % 8;
        assert(i == 8 * k + j);
        lemma_stored_bit_small(old, 8 * k, off, n, val, merge);
        lemma_stored_bit_small(old, 8 * k + 1, off, n, val, merge);
        lemma_stored_bit_small(old, 8 * k + 2, off, n, val, merge);
        lemma_stored_bit_small(old, 8 * k + 3, off, n, val, merge);
        lemma_stored_bit_small(old, 8 * k + 4, off, n, val, merge);
        lemma_stored_bit_small(old, 8 * k + 5, off, n, val, merge);
        lemma_stored_bit_small(old, 8 * k + 6, off, n, val, merge);
        lemma_stored_bit_small(old, 8 * k + 7, off, n, val, merge);
        lemma_byte_of_bits_bit(
            stored_bit(old, 8 * k, off, n, val, merge),
            stored_bit(old, 8 * k + 1, off, n, val, merge),
            stored_bit(old, 8 * k + 2, off, n, val, merge),
            stored_bit(old, 8 * k + 3, off, n, val, merge),
            stored_bit(old, 8 * k + 4, off, n, val, merge),
            stored_bit(old, 8 * k + 5, off, n, val, merge),
            stored_bit(old, 8 * k + 6, off, n, val, merge),
            stored_bit(old, 8 * k + 7, off, n, val, merge),
        );
        lemma_bit_at_index(s, k, j);
        if j == 0 {
            assert(i == 8 * k);
        }
    }
}

} // verus!
