//! Laws on what a record decodes to: its fields in order, a block whose
//! condition holds, and the byte fields (arrays, byte vectors with and
//! without a size, NUL-terminated strings).

use vstd::prelude::*;
use crate::decode::{select_variant, parse_block, parse_field, parse_layout, parse_row, parse_rows, scan_end, Cursor};
use crate::error::ParseError;
use crate::expr::eval;
use crate::bits::bits_value;
use vstd::arithmetic::power2::{pow2, lemma2_to64, lemma_pow2_strictly_increases};
use crate::layout::{EnumLayout, BlockRow, Expr, FieldType, Layout, Row, ValueModel};

verus! {

/// A record of two fields decodes the first at the position and the
/// second right after it, where the second may name the first.
pub proof fn law_fields_in_order(
    rows: Vec<Row>,
    t1: FieldType,
    t2: FieldType,
    data: Seq<u8>,
    off: nat,
    v1: ValueModel,
    o1: nat,
    v2: ValueModel,
    o2: nat,
)
    requires
        rows@ == seq![Row::Field(t1), Row::Field(t2)],
        parse_field(t1, data, off, Seq::empty()) == Ok::<(ValueModel, nat), ParseError>((v1, o1)),
        parse_field(t2, data, o1, seq![v1]) == Ok::<(ValueModel, nat), ParseError>((v2, o2)),
    ensures
        parse_layout(Layout::Struct(rows), data, off) == (
            Ok::<ValueModel, ParseError>(ValueModel::Record(seq![v1, v2])),
            o2,
        ),
{
    let c0 = Cursor { values: Seq::empty(), off };
    assert(parse_rows(rows@, 0, data, off) == Ok::<Cursor, ParseError>(c0));
    assert(Seq::<ValueModel>::empty().push(v1) =~= seq![v1]);
    let c1 = Cursor { values: seq![v1], off: o1 };
    assert(rows@[0] == Row::Field(t1));
    assert(rows@[1] == Row::Field(t2));
    assert(parse_row(Row::Field(t1), data, c0) == Ok::<Cursor, ParseError>(c1));
    assert(seq![v1].push(v2) =~= seq![v1, v2]);
    assert(parse_row(Row::Field(t2), data, c1) == Ok::<Cursor, ParseError>(Cursor { values: seq![v1, v2], off: o2 }));
    assert(parse_rows(rows@, 1, data, off) == Ok::<Cursor, ParseError>(c1));
    assert(seq![v1].push(v2) =~= seq![v1, v2]);
    assert(parse_rows(rows@, 2, data, off) == Ok::<Cursor, ParseError>(Cursor { values: seq![v1, v2], off: o2 }));
}

/// A block whose condition is non-zero is read: its field is decoded at
/// the position and is present.
pub proof fn law_true_condition_reads_block(
    cond: Expr,
    block: Vec<BlockRow>,
    t: FieldType,
    data: Seq<u8>,
    c: Cursor,
    x: int,
    v: ValueModel,
    o: nat,
)
    requires
        block@ == seq![BlockRow::Field(t)],
        eval(cond, c.values, Some(data), c.off as int, None) == Some(x),
        x != 0,
        parse_field(t, data, c.off, c.values) == Ok::<(ValueModel, nat), ParseError>((v, o)),
    ensures
        parse_row(Row::Cond(cond, block), data, c) == Ok::<Cursor, ParseError>(
            Cursor { values: c.values.push(ValueModel::Opt(Some(Box::new(v)))), off: o },
        ),
{
    assert(parse_block(block@, 0, data, c) == Ok::<Cursor, ParseError>(c));
}

/// The byte fields, at a byte boundary: `[u8; k]` is the next `k` bytes, a
/// byte vector with a size the next `size` bytes, one without a size the
/// rest of the data; off a byte boundary each is refused.
pub proof fn law_byte_fields(data: Seq<u8>, off: nat, f: Seq<ValueModel>, k: u8, e: Expr, len: int)
    ensures
        off % 8 == 0 && (off / 8) as int + k <= data.len() ==> parse_field(FieldType::Array(k), data, off, f) == Ok::<
            (ValueModel, nat),
            ParseError,
        >((ValueModel::Bytes(data.subrange((off / 8) as int, (off / 8) as int + k)), (off + 8 * k) as nat)),
        off % 8 == 0 && (off / 8) as int + k > data.len() ==> parse_field(FieldType::Array(k), data, off, f) == Err::<
            (ValueModel, nat),
            ParseError,
        >(ParseError::Eof),
        off % 8 == 0 && eval(e, f, Some(data), off as int, None) == Some(len) && 0 <= len <= usize::MAX && (off / 8) as int + len
            <= data.len() ==> parse_field(FieldType::Bytes(Some(e)), data, off, f) == Ok::<
            (ValueModel, nat),
            ParseError,
        >((ValueModel::Bytes(data.subrange((off / 8) as int, (off / 8) as int + len)), (off + 8 * len) as nat)),
        off % 8 == 0 && (off / 8) as int <= data.len() ==> parse_field(FieldType::Bytes(None), data, off, f) == Ok::<
            (ValueModel, nat),
            ParseError,
        >((ValueModel::Bytes(data.subrange((off / 8) as int, data.len() as int)), 8 * data.len())),
        off % 8 != 0 ==> parse_field(FieldType::Array(k), data, off, f) == Err::<(ValueModel, nat), ParseError>(
            ParseError::UnalignedSlice,
        ),
        off % 8 != 0 ==> parse_field(FieldType::Bytes(None), data, off, f) == Err::<(ValueModel, nat), ParseError>(
            ParseError::UnalignedVec,
        ),
        off % 8 != 0 ==> parse_field(FieldType::CStr(None), data, off, f) == Err::<(ValueModel, nat), ParseError>(
            ParseError::UnalignedCStr,
        ),
{
}

proof fn lemma_scan_end(data: Seq<u8>, from: int)
    requires
        0 <= from <= data.len(),
    ensures
        from <= scan_end(data, from) <= data.len(),
        forall|i: int| from <= i < scan_end(data, from) ==> data[i] != 0,
        scan_end(data, from) < data.len() ==> data[scan_end(data, from)] == 0,
    decreases data.len() - from,
{
    if from < data.len() && data[from] != 0 {
        lemma_scan_end(data, from + 1);
    }
}

/// A NUL-terminated string without a size is the bytes before the first
/// zero byte, and the position moves past that zero byte; with no zero
/// byte after the position it is refused.
pub proof fn law_c_strings(data: Seq<u8>, off: nat, f: Seq<ValueModel>)
    requires
        off % 8 == 0,
        (off / 8) as int <= data.len(),
    ensures
        match parse_field(FieldType::CStr(None), data, off, f) {
            Ok((ValueModel::CStr(s), o)) => {
                &&& (off / 8) as int + s.len() < data.len()
                &&& s == data.subrange((off / 8) as int, (off / 8) as int + s.len())
                &&& forall|i: int| 0 <= i < s.len() ==> s[i] != 0
                &&& data[(off / 8) as int + s.len()] == 0
                &&& o == off + 8 * (s.len() + 1)
            },
            Err(ParseError::MissingNul) => forall|i: int| (off / 8) as int <= i < data.len() ==> data[i] != 0,
            _ => false,
        },
{
    lemma_scan_end(data, (off / 8) as int);
    let end = scan_end(data, (off / 8) as int);
    if end < data.len() {
        let s = data.subrange((off / 8) as int, end);
        assert(s.len() == end - (off / 8) as int);
        assert forall|i: int| 0 <= i < s.len() implies s[i] != 0 by {
            assert(s[i] == data[(off / 8) as int + i]);
        }
        assert(s =~= data.subrange((off / 8) as int, (off / 8) as int + s.len()));
    }
}

/// `Option<T>` decodes `T` and holds it as present; `Box<T>` decodes as
/// `T`; their failures are those of `T`.
pub proof fn law_wrapped_fields(t: FieldType, data: Seq<u8>, off: nat, f: Seq<ValueModel>)
    ensures
        parse_field(FieldType::Optional(Box::new(t)), data, off, f) == match parse_field(t, data, off, f) {
            Ok((v, o)) => Ok::<(ValueModel, nat), ParseError>((ValueModel::Opt(Some(Box::new(v))), o)),
            Err(e) => Err(e),
        },
        parse_field(FieldType::Boxed(Box::new(t)), data, off, f) == parse_field(t, data, off, f),
{
}

/// An enumeration reads its tag first, an unsigned field at the position,
/// and picks its variant by that tag; the position moves past the tag.
/// When the data ends before the tag, it fails and does not move.
pub proof fn law_enum_reads_tag(el: EnumLayout, data: Seq<u8>, off: nat, n: u8)
    requires
        el.repr == FieldType::UInt(n),
        1 <= n <= 63,
    ensures
        off + n <= 8 * data.len() ==> parse_layout(Layout::Enum(el), data, off) == (
            select_variant(el.variants@, 0, ValueModel::UInt(bits_value(data, off as int, n as nat) as u64)),
            (off + n) as nat,
        ),
        off + n > 8 * data.len() ==> parse_layout(Layout::Enum(el), data, off) == (
            Err::<ValueModel, ParseError>(ParseError::Eof),
            off,
        ),
{
    crate::bits::lemma_bits_value_bound(data, off as int, n as nat);
    lemma2_to64();
    lemma_pow2_strictly_increases(n as nat, 64);
    vstd::arithmetic::div_mod::lemma_small_mod(bits_value(data, off as int, n as nat), pow2(64));
}

/// A size that has no value or is negative is refused, and a size that
/// runs past the data ends it early.
pub proof fn law_bad_sizes(data: Seq<u8>, off: nat, f: Seq<ValueModel>, e: Expr, len: int)
    requires
        off % 8 == 0,
    ensures
        eval(e, f, Some(data), off as int, None) is None ==> parse_field(FieldType::Bytes(Some(e)), data, off, f)
            == Err::<(ValueModel, nat), ParseError>(ParseError::BadExpression),
        eval(e, f, Some(data), off as int, None) == Some(len) && len < 0 ==> parse_field(
            FieldType::Bytes(Some(e)),
            data,
            off,
            f,
        ) == Err::<(ValueModel, nat), ParseError>(ParseError::BadExpression),
        eval(e, f, Some(data), off as int, None) == Some(len) && 0 <= len <= usize::MAX && (off / 8) as int + len
            > data.len() ==> parse_field(FieldType::Bytes(Some(e)), data, off, f) == Err::<(ValueModel, nat), ParseError>(
            ParseError::Eof,
        ),
{
}

/// A NUL-terminated string with a size `n` must end within `n` bytes: it
/// is the bytes before the first zero byte when that byte lies within the
/// size and the data, and is refused otherwise.
pub proof fn law_sized_c_strings(data: Seq<u8>, off: nat, f: Seq<ValueModel>, e: Expr, n: int)
    requires
        off % 8 == 0,
        (off / 8) as int <= data.len(),
        eval(e, f, Some(data), off as int, None) == Some(n),
        0 <= n <= usize::MAX,
    ensures
        ({
            let lim = if (off / 8) as int + n < data.len() { (off / 8) as int + n } else { data.len() as int };
            match parse_field(FieldType::CStr(Some(e)), data, off, f) {
                Ok((ValueModel::CStr(s), o)) => {
                    &&& (off / 8) as int + s.len() < lim
                    &&& s == data.subrange((off / 8) as int, (off / 8) as int + s.len())
                    &&& forall|i: int| 0 <= i < s.len() ==> s[i] != 0
                    &&& data[(off / 8) as int + s.len()] == 0
                    &&& o == off + 8 * (s.len() + 1)
                },
                Err(ParseError::MissingNul) => forall|i: int| (off / 8) as int <= i < lim ==> data[i] != 0,
                _ => false,
            }
        }),
{
    lemma_scan_end(data, (off / 8) as int);
    let end = scan_end(data, (off / 8) as int);
    let lim = if (off / 8) as int + n < data.len() { (off / 8) as int + n } else { data.len() as int };
    if end < lim {
        let s = data.subrange((off / 8) as int, end);
        assert forall|i: int| 0 <= i < s.len() implies s[i] != 0 by {
            assert(s[i] == data[(off / 8) as int + i]);
        }
        assert(s =~= data.subrange((off / 8) as int, (off / 8) as int + s.len()));
    }
}

} // verus!
