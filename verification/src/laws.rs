//! Laws of the library: bit fields, round trips between decoding and
//! encoding, and what excluded fields, false conditions and skips do.

use vstd::prelude::*;
use vstd::arithmetic::power2::{pow2, lemma2_to64, lemma_pow2_unfold, lemma_pow2_adds, lemma_pow2_pos};
use vstd::arithmetic::mul::{lemma_mul_is_distributive_add, lemma_mul_is_associative};
use crate::bits::{bit_at, bits_value};
use crate::decode::{parse_field, parse_layout, parse_row, select_variant, Cursor};
use crate::encode::{tag_for, write_field, write_layout, write_rows};
use crate::expr::eval;
use crate::model::{block_field_count, default_of};
use crate::error::{ParseError, WriteError};
use crate::layout::{BlockRow, EnumLayout, Expr, FieldType, Layout, Row, ValueModel};
use crate::reencode::{field_clean, field_reencodable, variant_tag, layout_reencodable, layout_clean, lemma_layout_reencodes, lemma_tight_agree_equal, lemma_agree_nothing};
use crate::roundtrip::{tight, 
    field_fits, record_fits, lemma_empty_tight, lemma_field_writes_forward, lemma_field_reads_back, lemma_tight_len, lemma_tight_agree_self,
    lemma_layout_writes_forward, lemma_layout_reads_back,
};

verus! {

/// The big-endian value of a byte string.
pub open spec fn be_value(s: Seq<u8>) -> nat
    decreases s.len(),
{
    if s.len() == 0 {
        0
    } else {
        be_value(s.drop_last()) * 256 + s.last() as nat
    }
}

/// A field of `a + b` bits spells the first `a` bits followed by the next `b`.
pub proof fn law_bits_concat(data: Seq<u8>, off: int, a: nat, b: nat)
    ensures
        bits_value(data, off, a + b) == bits_value(data, off, a) * pow2(b) + bits_value(data, off + a, b),
    decreases b,
{
    if b == 0 {
        lemma2_to64();
        assert(a + b == a);
    } else {
        let b1 = (b - 1) as nat;
        law_bits_concat(data, off, a, b1);
        lemma_pow2_unfold(b);
        assert((a + b - 1) as nat == a + b1);
        assert(off + (a + b) - 1 == (off + a) + b - 1);
        let x = bits_value(data, off, a);
        let y = bits_value(data, off + a, b1);
        assert(2 * (x * pow2(b1) + y) == x * (2 * pow2(b1)) + 2 * y) by (nonlinear_arith);
    }
}

/// The eight bits of a byte spell the byte.
pub proof fn law_byte_bits(data: Seq<u8>, k: int)
    requires
        0 <= k < data.len(),
    ensures
        bits_value(data, 8 * k, 8) == data[k] as nat,
{
    let x = data[k];
    reveal_with_fuel(bits_value, 9);
    assert forall|j: int| 0 <= j < 8 implies #[trigger] bit_at(data, 8 * k + j) == (x >> ((7 - j) as u8)) & 1u8 by {
        assert((8 * k + j) / 8 == k);
        assert((8 * k + j) % 8 == j);
    }
    assert(bit_at(data, 8 * k + 0) == (x >> 7u8) & 1u8);
    assert(bit_at(data, 8 * k + 1) == (x >> 6u8) & 1u8);
    assert(bit_at(data, 8 * k + 2) == (x >> 5u8) & 1u8);
    assert(bit_at(data, 8 * k + 3) == (x >> 4u8) & 1u8);
    assert(bit_at(data, 8 * k + 4) == (x >> 3u8) & 1u8);
    assert(bit_at(data, 8 * k + 5) == (x >> 2u8) & 1u8);
    assert(bit_at(data, 8 * k + 6) == (x >> 1u8) & 1u8);
    assert(bit_at(data, 8 * k + 7) == (x >> 0u8) & 1u8);
    assert(x as int == ((x >> 7u8) & 1u8) as int * 128 + ((x >> 6u8) & 1u8) as int * 64 + ((x >> 5u8)
        & 1u8) as int * 32 + ((x >> 4u8) & 1u8) as int * 16 + ((x >> 3u8) & 1u8) as int * 8 + ((x
        >> 2u8) & 1u8) as int * 4 + ((x >> 1u8) & 1u8) as int * 2 + ((x >> 0u8) & 1u8) as int)
        by (bit_vector);
}

/// Fields that start on a byte boundary and span whole bytes are read in
/// big-endian byte order, as `from_be_bytes` reads them.
pub proof fn law_aligned_fields_are_big_endian(data: Seq<u8>, k: int, n: nat)
    requires
        0 <= k,
        k + n <= data.len(),
    ensures
        bits_value(data, 8 * k, 8 * n) == be_value(data.subrange(k, k + n)),
    decreases n,
{
    if n == 0 {
        assert(data.subrange(k, k) =~= Seq::<u8>::empty());
    } else {
        let m = (n - 1) as nat;
        law_aligned_fields_are_big_endian(data, k, m);
        law_bits_concat(data, 8 * k, 8 * m, 8);
        law_byte_bits(data, k + m);
        lemma2_to64();
        assert(8 * k + 8 * m == 8 * (k + m));
        assert((8 * m + 8) as nat == 8 * n);
        assert(data.subrange(k, k + n).drop_last() =~= data.subrange(k, k + m));
    }
}


/// Round trip: a value written into an empty buffer decodes from the
/// written bytes to what it fits: itself, but for excluded fields, which
/// come back as the default of their type, and nested enumerations, which
/// come back as the variant that their rules pick for the written tag;
/// decoding ends where the writer ended, and the buffer holds
/// `ceil(end / 8)` bytes. Conditions and sizes are evaluated as decoding
/// evaluates them, on the written bytes (`peek` included).
pub proof fn law_record_round_trip(l: Layout, v: ValueModel, w: ValueModel, bytes: Seq<u8>, end: nat)
    requires
        write_layout(l, v, Seq::empty(), 0) == Ok::<(Seq<u8>, nat), WriteError>((bytes, end)),
        record_fits(l, v, w, bytes),
    ensures
        parse_layout(l, bytes, 0) == (Ok::<ValueModel, ParseError>(w), end),
        bytes.len() == (end + 7) / 8,
{
    lemma_empty_tight();
    lemma_layout_writes_forward(l, v, Seq::empty(), 0, bytes, end);
    lemma_tight_len(bytes, end);
    lemma_tight_agree_self(bytes, end);
    lemma_layout_reads_back(l, v, w, Seq::empty(), 0, bytes, end, bytes, true);
}


/// The tag that an enumeration writer stores for variant `i` carrying `inner`.
pub open spec fn written_tag(el: EnumLayout, i: usize, inner: Option<Box<ValueModel>>) -> ValueModel {
    tag_for(
        el.repr,
        el.variants@[i as int],
        match inner {
            Some(b) => Some(*b),
            None => None,
        },
    )->0
}

/// An enumeration's tag reads back: decoding what was written for a
/// variant selects, by the same rules as any decoding, from the very tag
/// that was written, when that tag fits the tag field.
pub proof fn law_enum_tag_round_trip(
    el: EnumLayout,
    i: usize,
    inner: Option<Box<ValueModel>>,
    bytes: Seq<u8>,
    end: nat,
)
    requires
        field_fits(el.repr, written_tag(el, i, inner), written_tag(el, i, inner), Seq::empty(), Seq::empty(), 0, bytes, true),
        write_layout(Layout::Enum(el), ValueModel::Variant(i, inner), Seq::empty(), 0) == Ok::<
            (Seq<u8>, nat),
            WriteError,
        >((bytes, end)),
    ensures
        parse_layout(Layout::Enum(el), bytes, 0) == (
            select_variant(el.variants@, 0, written_tag(el, i, inner)),
            end,
        ),
        bytes.len() == (end + 7) / 8,
{
    let tag = written_tag(el, i, inner);
    lemma_empty_tight();
    lemma_field_writes_forward(el.repr, tag, Seq::empty(), 0, true, bytes, end);
    lemma_tight_len(bytes, end);
    lemma_tight_agree_self(bytes, end);
    lemma_field_reads_back(el.repr, tag, tag, Seq::empty(), 0, Seq::empty(), true, true, bytes, end, bytes);
}


/// Excluded fields are neither read nor written: decoding one yields the
/// default value of its type without moving, and writing one leaves the
/// buffer and the position as they were.
pub proof fn law_excluded_fields_are_not_serialized(
    t: FieldType,
    data: Seq<u8>,
    off: nat,
    fields: Seq<ValueModel>,
    v: ValueModel,
    buf: Seq<u8>,
    exact: bool,
)
    ensures
        parse_field(FieldType::Exclude(Box::new(t)), data, off, fields) == match default_of(t) {
            Some(d) => Ok::<(ValueModel, nat), ParseError>((d, off)),
            None => Err(ParseError::BadLayout),
        },
        write_field(FieldType::Exclude(Box::new(t)), v, buf, off, exact) == Ok::<(Seq<u8>, nat), WriteError>(
            (buf, off),
        ),
{
}

/// A block whose condition is false reads nothing: its fields decode as
/// absent and the position stays where it was.
pub proof fn law_false_condition_skips_block(cond: Expr, block: Vec<BlockRow>, data: Seq<u8>, c: Cursor)
    requires
        eval(cond, c.values, Some(data), c.off as int, None) == Some(0int),
    ensures
        parse_row(Row::Cond(cond, block), data, c) == Ok::<Cursor, ParseError>(
            Cursor {
                values: c.values + Seq::new(block_field_count(block@), |i: int| ValueModel::Opt(None)),
                off: c.off,
            },
        ),
{
}

/// A record that fails to decode leaves the position where it was: the
/// position moves only once every row has been read.
pub proof fn law_failed_record_decode_keeps_position(rows: Vec<Row>, data: Seq<u8>, off: nat)
    requires
        parse_layout(Layout::Struct(rows), data, off).0 is Err,
    ensures
        parse_layout(Layout::Struct(rows), data, off).1 == off,
{
}

/// `consume(n)` moves the position `n` bits on and reads nothing, while
/// the position fits in `usize`.
pub proof fn law_consume_skips_bits(n: i128, data: Seq<u8>, c: Cursor)
    requires
        0 <= n,
        c.off + n <= usize::MAX,
    ensures
        parse_row(Row::Consume(Expr::Lit(n)), data, c) == Ok::<Cursor, ParseError>(
            Cursor { values: c.values, off: c.off + n as nat },
        ),
{
}


/// Re-encoding: bytes that decode as a record or an enumeration of a
/// re-encodable layout encode back to themselves, when decoding was clean
/// (every bit it skipped is zero, each skip at most 64 bits, and every
/// enumeration it decoded, nested ones included, picked a variant that
/// writes back the tag it read) and the value ends the bytes (nothing after
/// its last byte, zero bits after its end).
pub proof fn law_record_reencodes(l: Layout, data: Seq<u8>)
    requires
        layout_reencodable(l),
        parse_layout(l, data, 0).0 is Ok,
        layout_clean(l, data, 0),
        tight(data, parse_layout(l, data, 0).1),
        8 * data.len() + 8 <= usize::MAX,
    ensures
        write_layout(l, parse_layout(l, data, 0).0->Ok_0, Seq::empty(), 0) == Ok::<(Seq<u8>, nat), WriteError>(
            (data, parse_layout(l, data, 0).1),
        ),
{
    let end = parse_layout(l, data, 0).1;
    lemma_tight_len(data, end);
    lemma_empty_tight();
    lemma_agree_nothing(Seq::empty(), data);
    lemma_layout_reencodes(l, data, 0, Seq::empty());
    let b = write_layout(l, parse_layout(l, data, 0).0->Ok_0, Seq::empty(), 0)->Ok_0.0;
    lemma_tight_agree_equal(b, data, end);
}


/// An enumeration decodes back to the variant that was written, and ends
/// where the writer ended, when its tag fits the tag field and the first
/// variant, in order, whose rule accepts that tag is the written one,
/// carrying the written value.
pub proof fn law_enum_round_trip(el: EnumLayout, i: usize, inner: Option<Box<ValueModel>>, bytes: Seq<u8>, end: nat)
    requires
        write_layout(Layout::Enum(el), ValueModel::Variant(i, inner), Seq::empty(), 0) == Ok::<
            (Seq<u8>, nat),
            WriteError,
        >((bytes, end)),
        field_fits(el.repr, written_tag(el, i, inner), written_tag(el, i, inner), Seq::empty(), Seq::empty(), 0, bytes, true),
        select_variant(el.variants@, 0, written_tag(el, i, inner)) == Ok::<ValueModel, ParseError>(
            ValueModel::Variant(i, inner),
        ),
    ensures
        parse_layout(Layout::Enum(el), bytes, 0) == (Ok::<ValueModel, ParseError>(ValueModel::Variant(i, inner)), end),
{
    law_record_round_trip(Layout::Enum(el), ValueModel::Variant(i, inner), ValueModel::Variant(i, inner), bytes, end);
}

/// Re-encoding an enumeration: bytes that decode as variant `i` carrying
/// `inner` encode back to themselves when the tag field is re-encodable,
/// decoding the tag was clean, the variant writes back the tag that was
/// read (it is no assignment variant, and its carried value converted to
/// the tag type is that tag), and the tag ends the bytes.
pub proof fn law_enum_reencodes(el: EnumLayout, data: Seq<u8>, i: usize, inner: Option<Box<ValueModel>>, end: nat)
    requires
        field_reencodable(el.repr),
        field_clean(el.repr, data, 0),
        parse_layout(Layout::Enum(el), data, 0) == (Ok::<ValueModel, ParseError>(ValueModel::Variant(i, inner)), end),
        variant_tag(el, i, inner) == Some(parse_field(el.repr, data, 0, Seq::empty())->Ok_0.0),
        tight(data, end),
        8 * data.len() + 8 <= usize::MAX,
    ensures
        write_layout(Layout::Enum(el), ValueModel::Variant(i, inner), Seq::empty(), 0) == Ok::<(Seq<u8>, nat), WriteError>(
            (data, end),
        ),
{
    law_record_reencodes(Layout::Enum(el), data);
}

/// Writing an `n`-bit unsigned field into an empty buffer gives
/// `ceil(n / 8)` bytes whose first `n` bits spell the value's low `n` bits,
/// most significant first; a field of whole bytes is the value's
/// big-endian bytes.
pub proof fn law_integer_writes(n: u8, x: u64, exact: bool)
    requires
        1 <= n <= 64,
    ensures
        write_field(FieldType::UInt(n), ValueModel::UInt(x), Seq::empty(), 0, exact) is Ok,
        ({
            let (bytes, end) = write_field(FieldType::UInt(n), ValueModel::UInt(x), Seq::empty(), 0, exact)->Ok_0;
            &&& end == n
            &&& bytes.len() == (n + 7) / 8
            &&& bits_value(bytes, 0, n as nat) == x as nat % pow2(n as nat)
            &&& n % 8 == 0 ==> be_value(bytes) == x as nat % pow2(n as nat)
        }),
{
    let merge = !exact && !crate::bits::overwrites(0, n as nat);
    let bytes = crate::bits::stored_bytes(Seq::empty(), 0, n as nat, x, merge);
    crate::bits::lemma_stored_bytes_stores(Seq::empty(), 0, n as nat, x, merge);
    if merge {
        crate::bits::law_merge_into_zero_bits(Seq::empty(), bytes, 0, n as nat, x);
    }
    crate::bits::law_stored_field_reads_back(Seq::empty(), bytes, 0, n as nat, x);
    if n % 8 == 0 {
        let m = (n / 8) as nat;
        law_aligned_fields_are_big_endian(bytes, 0, m);
        assert(bytes.subrange(0, m as int) =~= bytes);
    }
}

/// A variant chosen by a condition or a catch-all that carries an integer,
/// in an enumeration whose tag is an unsigned field of whole bytes, writes
/// the carried integer as the tag, in big-endian bytes.
pub proof fn law_enum_writes_carried_integer(el: EnumLayout, i: usize, n: u8, w: u64)
    requires
        el.repr == FieldType::UInt(n),
        n == 8 || n == 16 || n == 32 || n == 64,
        (w as nat) < pow2(n as nat),
        i < el.variants@.len(),
        el.variants@[i as int].inner is Some,
        el.variants@[i as int].rule is Condition || el.variants@[i as int].rule is CatchAll,
    ensures
        write_layout(Layout::Enum(el), ValueModel::Variant(i, Some(Box::new(ValueModel::UInt(w)))), Seq::empty(), 0)
            is Ok,
        ({
            let (bytes, end) = write_layout(
                Layout::Enum(el),
                ValueModel::Variant(i, Some(Box::new(ValueModel::UInt(w)))),
                Seq::empty(),
                0,
            )->Ok_0;
            end == n && bytes.len() == n / 8 && be_value(bytes) == w
        }),
{
    vstd::arithmetic::div_mod::lemma_small_mod(w as nat, pow2(n as nat));
    assert(crate::model::int_width(n as nat) == n);
    assert(crate::model::cast_to(ValueModel::UInt(w), FieldType::UInt(n)) == Some(ValueModel::UInt(w)));
    law_integer_writes(n, w, true);
}

} // verus!
