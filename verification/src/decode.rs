//! What decoding a layout means (`parse_layout` and its parts), and the
//! decoder that does it.

use vstd::prelude::*;
use vstd::arithmetic::power2::pow2;
use crate::bits::{bit_at, bits_value};
use crate::error::ParseError;
use crate::expr::{eval, int_of};
use crate::layout::{Assigned, BlockRow, EnumLayout, FieldType, Layout, Row, Rule, Variant, ValueModel};
use crate::model::{block_field_count, cast_to, default_of};

verus! {

/// Where a record decoder stands: the fields decoded so far and the bit
/// position that comes next.
pub struct Cursor {
    pub values: Seq<ValueModel>,
    pub off: nat,
}

/// First position at or after `from` that holds a zero byte, or a position
/// at or past the end when there is none.
pub open spec fn scan_end(data: Seq<u8>, from: int) -> int
    decreases data.len() - from,
{
    if from >= data.len() || from < 0 {
        from
    } else if data[from] == 0 {
        from
    } else {
        scan_end(data, from + 1)
    }
}

/// A byte count or bit count that an expression yields, if it is one.
pub open spec fn as_count(x: Option<int>) -> Option<nat> {
    match x {
        Some(v) => if 0 <= v <= usize::MAX {
            Some(v as nat)
        } else {
            None
        },
        None => None,
    }
}

/// The byte before which the zero byte of a C string at bit `off` must
/// lie: the end of the data, or, with a size, that many bytes on when the
/// data reaches that far. `None` when the size has no value.
pub open spec fn cstr_limit(size: Option<crate::layout::Expr>, data: Seq<u8>, off: nat, fields: Seq<ValueModel>) -> Option<
    int,
> {
    match size {
        None => Some(data.len() as int),
        Some(e) => match as_count(eval(e, fields, Some(data), off as int, None)) {
            Some(n) => Some(
                if off / 8 + n < data.len() {
                    (off / 8 + n) as int
                } else {
                    data.len() as int
                },
            ),
            None => None,
        },
    }
}

/// The `b`-bit two's complement number spelled by `raw`.
pub open spec fn sign_extend(raw: nat, b: nat) -> int {
    if raw >= pow2((b - 1) as nat) {
        raw - pow2(b)
    } else {
        raw as int
    }
}

/// Decoding one field at bit `off`; `fields` are the fields decoded before
/// it, which size expressions may name. Yields the value and the next bit.
pub open spec fn parse_field(ty: FieldType, data: Seq<u8>, off: nat, fields: Seq<ValueModel>) -> Result<
    (ValueModel, nat),
    ParseError,
>
    decreases ty, 0nat,
{
    let bo = off / 8;
    match ty {
        FieldType::UInt(b) => if off + b > data.len() * 8 {
            Err(ParseError::Eof)
        } else {
            Ok(
                (
                    ValueModel::UInt((bits_value(data, off as int, b as nat) % pow2(64)) as u64),
                    (off + b) as nat,
                ),
            )
        },
        FieldType::USize => if off + usize::BITS > data.len() * 8 {
            Err(ParseError::Eof)
        } else {
            Ok(
                (
                    ValueModel::UInt(
                        (bits_value(data, off as int, usize::BITS as nat) % pow2(64)) as u64,
                    ),
                    (off + usize::BITS) as nat,
                ),
            )
        },
        FieldType::Int(b) => if b == 0 || b > 63 {
            Err(ParseError::BadLayout)
        } else if off + b > data.len() * 8 {
            Err(ParseError::Eof)
        } else {
            Ok(
                (
                    ValueModel::Int(sign_extend(bits_value(data, off as int, b as nat), b as nat) as i64),
                    (off + b) as nat,
                ),
            )
        },
        FieldType::Bool => if off + 1 > data.len() * 8 {
            Err(ParseError::Eof)
        } else {
            Ok((ValueModel::Bool(bits_value(data, off as int, 1) == 1), off + 1))
        },
        FieldType::Array(n) => if off % 8 != 0 {
            Err(ParseError::UnalignedSlice)
        } else if bo + n > data.len() {
            Err(ParseError::Eof)
        } else {
            Ok((ValueModel::Bytes(data.subrange(bo as int, bo + n)), (off + 8 * n) as nat))
        },
        FieldType::Bytes(size) => if off % 8 != 0 {
            Err(ParseError::UnalignedVec)
        } else {
            match size {
                Some(e) => match as_count(eval(e, fields, Some(data), off as int, None)) {
                    Some(len) => if bo + len > data.len() {
                        Err(ParseError::Eof)
                    } else {
                        Ok((ValueModel::Bytes(data.subrange(bo as int, (bo + len) as int)), off + 8 * len))
                    },
                    None => Err(ParseError::BadExpression),
                },
                None => if bo > data.len() {
                    Err(ParseError::Eof)
                } else {
                    Ok(
                        (
                            ValueModel::Bytes(data.subrange(bo as int, data.len() as int)),
                            (data.len() * 8) as nat,
                        ),
                    )
                },
            }
        },
        FieldType::CStr(size) => if off % 8 != 0 {
            Err(ParseError::UnalignedCStr)
        } else {
            match cstr_limit(size, data, off, fields) {
                Some(lim) => {
                    let end = scan_end(data, bo as int);
                    if end >= lim {
                        Err(ParseError::MissingNul)
                    } else {
                        Ok((ValueModel::CStr(data.subrange(bo as int, end)), ((end + 1) * 8) as nat))
                    }
                },
                None => Err(ParseError::BadExpression),
            }
        },
        FieldType::Optional(t) => match parse_field(*t, data, off, fields) {
            Ok((v, o)) => Ok((ValueModel::Opt(Some(Box::new(v))), o)),
            Err(e) => Err(e),
        },
        FieldType::Boxed(t) => parse_field(*t, data, off, fields),
        FieldType::Exclude(t) => match default_of(*t) {
            Some(d) => Ok((d, off)),
            None => Err(ParseError::BadLayout),
        },
        FieldType::Custom(l) => match parse_layout(*l, data, off) {
            (Ok(v), o) => Ok((v, o)),
            (Err(e), _) => Err(e),
        },
    }
}

/// Skipping `consume(e)` bits.
pub open spec fn skip_bits(e: crate::layout::Expr, data: Seq<u8>, c: Cursor) -> Result<Cursor, ParseError> {
    match as_count(eval(e, c.values, Some(data), c.off as int, None)) {
        Some(a) => if c.off + a > usize::MAX {
            Err(ParseError::OffsetOverflow)
        } else {
            Ok(Cursor { values: c.values, off: c.off + a })
        },
        None => Err(ParseError::BadExpression),
    }
}

/// Decoding one row of a record.
pub open spec fn parse_row(row: Row, data: Seq<u8>, c: Cursor) -> Result<Cursor, ParseError>
    decreases row, 0nat,
{
    match row {
        Row::Consume(e) => skip_bits(e, data, c),
        Row::Field(t) => match parse_field(t, data, c.off, c.values) {
            Ok((v, o)) => Ok(Cursor { values: c.values.push(v), off: o }),
            Err(e) => Err(e),
        },
        Row::Cond(e, block) => match eval(e, c.values, Some(data), c.off as int, None) {
            Some(x) => if x != 0 {
                parse_block(block@, block@.len(), data, c)
            } else {
                Ok(
                    Cursor {
                        values: c.values + Seq::new(
                            block_field_count(block@),
                            |i: int| ValueModel::Opt(None),
                        ),
                        off: c.off,
                    },
                )
            },
            None => Err(ParseError::BadExpression),
        },
    }
}

/// Decoding the first `n` rows of a block whose condition holds; its fields
/// are present.
pub open spec fn parse_block(block: Seq<BlockRow>, n: nat, data: Seq<u8>, c: Cursor) -> Result<
    Cursor,
    ParseError,
>
    decreases block, n,
{
    if n == 0 || n > block.len() {
        if n == 0 {
            Ok(c)
        } else {
            Err(ParseError::BadLayout)
        }
    } else {
        match parse_block(block, (n - 1) as nat, data, c) {
            Ok(c1) => match block[n - 1] {
                BlockRow::Consume(e) => skip_bits(e, data, c1),
                BlockRow::Field(t) => match parse_field(t, data, c1.off, c1.values) {
                    Ok((v, o)) => Ok(Cursor { values: c1.values.push(ValueModel::Opt(Some(Box::new(v)))), off: o }),
                    Err(e) => Err(e),
                },
            },
            Err(e) => Err(e),
        }
    }
}

/// Decoding the first `n` rows of a record from bit `start`.
pub open spec fn parse_rows(rows: Seq<Row>, n: nat, data: Seq<u8>, start: nat) -> Result<
    Cursor,
    ParseError,
>
    decreases rows, n,
{
    if n == 0 || n > rows.len() {
        if n == 0 {
            Ok(Cursor { values: Seq::empty(), off: start })
        } else {
            Err(ParseError::BadLayout)
        }
    } else {
        match parse_rows(rows, (n - 1) as nat, data, start) {
            Ok(c) => parse_row(rows[n - 1], data, c),
            Err(e) => Err(e),
        }
    }
}

/// Decoding a record or an enumeration at bit `off`: the outcome and the bit
/// position afterwards. A record leaves the position unchanged when it
/// fails; an enumeration whose tag no variant accepts has consumed the tag.
pub open spec fn parse_layout(layout: Layout, data: Seq<u8>, off: nat) -> (
    Result<ValueModel, ParseError>,
    nat,
)
    decreases layout, 0nat,
{
    match layout {
        Layout::Struct(rows) => match parse_rows(rows@, rows@.len(), data, off) {
            Ok(c) => (Ok(ValueModel::Record(c.values)), c.off),
            Err(e) => (Err(e), off),
        },
        Layout::Enum(el) => match parse_field(el.repr, data, off, Seq::empty()) {
            Ok((tag, o)) => (select_variant(el.variants@, 0, tag), o),
            Err(e) => (Err(e), off),
        },
    }
}

/// The variant `i` carrying `inner`, when the variant has an inner type.
pub open spec fn variant_with(i: nat, has_inner: bool, inner: Option<ValueModel>) -> Result<
    ValueModel,
    ParseError,
> {
    if !has_inner {
        Ok(ValueModel::Variant(i as usize, None))
    } else {
        match inner {
            Some(v) => Ok(ValueModel::Variant(i as usize, Some(Box::new(v)))),
            None => Err(ParseError::BadLayout),
        }
    }
}

/// The first variant at or after `i` whose rule accepts `tag`.
pub open spec fn select_variant(vs: Seq<Variant>, i: nat, tag: ValueModel) -> Result<
    ValueModel,
    ParseError,
>
    decreases vs.len() - i,
{
    if i >= vs.len() {
        Err(ParseError::InvalidTag)
    } else {
        let v = vs[i as int];
        let has_inner = v.inner is Some;
        let inner_ty = v.inner->0;
        match v.rule {
            Rule::Exact(x) => if int_of(tag) == Some(x as int) {
                variant_with(i, has_inner, default_of(inner_ty))
            } else {
                select_variant(vs, i + 1, tag)
            },
            Rule::Condition(e) => match eval(e, Seq::empty(), None, 0, Some(tag)) {
                Some(c) => if c != 0 {
                    variant_with(i, has_inner, cast_to(tag, inner_ty))
                } else {
                    select_variant(vs, i + 1, tag)
                },
                None => Err(ParseError::BadExpression),
            },
            Rule::CatchAll => variant_with(i, has_inner, cast_to(tag, inner_ty)),
            Rule::Assign(a, e) => match eval(e, Seq::empty(), None, 0, Some(tag)) {
                Some(c) => if c != 0 {
                    variant_with(
                        i,
                        has_inner,
                        Some(
                            match a {
                                Assigned::Tag => tag,
                                Assigned::Value(val) => val@,
                            },
                        ),
                    )
                } else {
                    select_variant(vs, i + 1, tag)
                },
                None => Err(ParseError::BadExpression),
            },
        }
    }
}

} // verus!

verus! {

use crate::layout::{Expr, Value, value_model, values_model, lemma_values_model_push};
use crate::bits::{read_bits, lemma_bits_value_bound};
use crate::expr::eval_expr;
use crate::model::{copy_value, cast_value, default_value, push_absent};
use vstd::arithmetic::power2::{lemma2_to64, lemma_pow2_pos, lemma_pow2_unfold, lemma_pow2_strictly_increases};
use vstd::arithmetic::div_mod::lemma_small_mod;
use vstd::bits::{lemma_u64_shl_is_mul, lemma_u64_pow2_no_overflow};

/// The model of a field decoder's outcome.
pub open spec fn field_outcome(res: Result<(Value, usize), ParseError>) -> Result<(ValueModel, nat), ParseError> {
    match res {
        Ok((v, o)) => Ok((v@, o as nat)),
        Err(e) => Err(e),
    }
}

/// The model of a record or enumeration decoder's outcome.
pub open spec fn layout_outcome(res: Result<Value, ParseError>) -> Result<ValueModel, ParseError> {
    match res {
        Ok(v) => Ok(v@),
        Err(e) => Err(e),
    }
}

/// The bytes `data[from..to]`.
fn copy_bytes(data: &[u8], from: usize, to: usize) -> (res: Vec<u8>)
    requires
        from <= to <= data@.len(),
    ensures
        res@ == data@.subrange(from as int, to as int),
{
    let mut out: Vec<u8> = Vec::new();
    let mut i = from;
    while i < to
        invariant
            from <= i <= to,
            to <= data@.len(),
            out@ == data@.subrange(from as int, i as int),
        decreases to - i,
    {
        out.push(data[i]);
        i = i + 1;
        proof {
            assert(out@ =~= data@.subrange(from as int, i as int));
        }
    }
    out
}

proof fn lemma_scan_end_bounds(data: Seq<u8>, from: int)
    ensures
        scan_end(data, from) >= from,
        from <= data.len() ==> scan_end(data, from) <= data.len(),
    decreases data.len() - from,
{
    if 0 <= from < data.len() && data[from] != 0 {
        lemma_scan_end_bounds(data, from + 1);
    }
}

/// First position at or after `from` holding a zero byte; see `scan_end`.
fn nul_scan(data: &[u8], from: usize) -> (res: usize)
    ensures
        res == scan_end(data@, from as int),
{
    let mut end = from;
    while end < data.len() && data[end] != 0
        invariant
            from <= end,
            scan_end(data@, from as int) == scan_end(data@, end as int),
        decreases data@.len() - end,
    {
        end = end + 1;
    }
    end
}

/// `raw` read as a `b`-bit two's complement number.
fn sign_extend_bits(raw: u64, b: u8) -> (res: i64)
    requires
        1 <= b <= 63,
        raw < pow2(b as nat),
    ensures
        res as int == sign_extend(raw as nat, b as nat),
{
    proof {
        lemma_u64_pow2_no_overflow(b as nat);
        lemma_u64_pow2_no_overflow((b - 1) as nat);
        lemma_u64_shl_is_mul(1, b as u64);
        lemma_u64_shl_is_mul(1, (b - 1) as u64);
        if b < 63 {
            lemma_pow2_strictly_increases(b as nat, 63);
        }
        vstd::arithmetic::power2::lemma2_to64_rest();
    }
    let half: u64 = 1u64 << ((b - 1) as u64);
    let full: u64 = 1u64 << (b as u64);
    assert(half as nat == pow2((b - 1) as nat));
    assert(full as nat == pow2(b as nat));
    assert(pow2(b as nat) <= 0x8000_0000_0000_0000);
    if raw >= half {
        (raw as i128 - full as i128) as i64
    } else {
        raw as i64
    }
}

proof fn lemma_rows_error(rows: Seq<Row>, k: nat, n: nat, data: Seq<u8>, start: nat)
    requires
        k <= n <= rows.len(),
        parse_rows(rows, k, data, start) is Err,
    ensures
        parse_rows(rows, n, data, start) == parse_rows(rows, k, data, start),
    decreases n - k,
{
    if k < n {
        lemma_rows_error(rows, k, (n - 1) as nat, data, start);
    }
}

proof fn lemma_block_error(block: Seq<BlockRow>, k: nat, n: nat, data: Seq<u8>, c: Cursor)
    requires
        k <= n <= block.len(),
        parse_block(block, k, data, c) is Err,
    ensures
        parse_block(block, n, data, c) == parse_block(block, k, data, c),
    decreases n - k,
{
    if k < n {
        lemma_block_error(block, k, (n - 1) as nat, data, c);
    }
}

/// Skips `consume(e)` bits from `cur`; see `skip_bits`.
fn skip_exec(e: &Expr, data: &[u8], cur: usize, vals: &Vec<Value>) -> (res: Result<usize, ParseError>)
    requires
        data@.len() * 8 <= usize::MAX,
    ensures
        match skip_bits(*e, data@, Cursor { values: values_model(vals@), off: cur as nat }) {
            Ok(c) => res == Ok::<usize, ParseError>(c.off as usize) && c.off <= usize::MAX && c.values
                == values_model(vals@),
            Err(x) => res == Err::<usize, ParseError>(x),
        },
{
    match eval_expr(e, vals, Some(data), cur, None) {
        Some(x) => {
            if x < 0 || x > usize::MAX as i128 {
                Err(ParseError::BadExpression)
            } else {
                let a = x as usize;
                if cur > usize::MAX - a {
                    Err(ParseError::OffsetOverflow)
                } else {
                    Ok(cur + a)
                }
            }
        },
        None => Err(ParseError::BadExpression),
    }
}

/// Decodes one field at bit `off`; see `parse_field`.
pub fn parse_field_at(ty: &FieldType, data: &[u8], off: usize, fields: &Vec<Value>) -> (res: Result<
    (Value, usize),
    ParseError,
>)
    requires
        data@.len() * 8 <= usize::MAX,
    ensures
        field_outcome(res) == parse_field(*ty, data@, off as nat, values_model(fields@)),
    decreases ty, 0nat,
{
    let bo = off / 8;
    match ty {
        FieldType::UInt(b) => {
            let bits = *b as usize;
            if off > usize::MAX - bits {
                return Err(ParseError::Eof);
            }
            let mut o = off;
            match read_bits(data, &mut o, bits) {
                Ok(v) => Ok((Value::UInt(v), o)),
                Err(e) => Err(e),
            }
        },
        FieldType::USize => {
            let bits = usize::BITS as usize;
            if off > usize::MAX - bits {
                return Err(ParseError::Eof);
            }
            let mut o = off;
            match read_bits(data, &mut o, bits) {
                Ok(v) => Ok((Value::UInt(v), o)),
                Err(e) => Err(e),
            }
        },
        FieldType::Int(b) => {
            if *b == 0 || *b > 63 {
                return Err(ParseError::BadLayout);
            }
            let bits = *b as usize;
            if off > usize::MAX - bits {
                return Err(ParseError::Eof);
            }
            let mut o = off;
            match read_bits(data, &mut o, bits) {
                Ok(raw) => {
                    proof {
                        lemma_bits_value_bound(data@, off as int, bits as nat);
                        lemma_pow2_strictly_increases(bits as nat, 64);
                        lemma_small_mod(bits_value(data@, off as int, bits as nat), pow2(64));
                    }
                    Ok((Value::Int(sign_extend_bits(raw, *b)), o))
                },
                Err(e) => Err(e),
            }
        },
        FieldType::Bool => {
            if off > usize::MAX - 1 {
                return Err(ParseError::Eof);
            }
            let mut o = off;
            match read_bits(data, &mut o, 1) {
                Ok(v) => {
                    proof {
                        lemma_bits_value_bound(data@, off as int, 1);
                        lemma2_to64();
                        lemma_small_mod(bits_value(data@, off as int, 1), pow2(64));
                    }
                    Ok((Value::Bool(v == 1), o))
                },
                Err(e) => Err(e),
            }
        },
        FieldType::Array(n) => {
            if off % 8 != 0 {
                return Err(ParseError::UnalignedSlice);
            }
            let n = *n as usize;
            if bo > data.len() || n > data.len() - bo {
                return Err(ParseError::Eof);
            }
            Ok((Value::Bytes(copy_bytes(data, bo, bo + n)), off + 8 * n))
        },
        FieldType::Bytes(size) => {
            if off % 8 != 0 {
                return Err(ParseError::UnalignedVec);
            }
            match size {
                Some(e) => match eval_expr(e, fields, Some(data), off, None) {
                    Some(x) => {
                        if x < 0 || x > usize::MAX as i128 {
                            return Err(ParseError::BadExpression);
                        }
                        let len = x as usize;
                        if bo > data.len() || len > data.len() - bo {
                            return Err(ParseError::Eof);
                        }
                        Ok((Value::Bytes(copy_bytes(data, bo, bo + len)), off + 8 * len))
                    },
                    None => Err(ParseError::BadExpression),
                },
                None => {
                    if bo > data.len() {
                        return Err(ParseError::Eof);
                    }
                    Ok((Value::Bytes(copy_bytes(data, bo, data.len())), data.len() * 8))
                },
            }
        },
        FieldType::CStr(size) => {
            if off % 8 != 0 {
                return Err(ParseError::UnalignedCStr);
            }
            let lim: usize = match size {
                None => data.len(),
                Some(e) => match eval_expr(e, fields, Some(data), off, None) {
                    Some(x) => {
                        if x < 0 || x > usize::MAX as i128 {
                            return Err(ParseError::BadExpression);
                        }
                        let n = x as usize;
                        if bo >= data.len() || n >= data.len() - bo {
                            data.len()
                        } else {
                            bo + n
                        }
                    },
                    None => {
                        return Err(ParseError::BadExpression);
                    },
                },
            };
            let end = nul_scan(data, bo);
            proof {
                lemma_scan_end_bounds(data@, bo as int);
            }
            if end >= lim {
                return Err(ParseError::MissingNul);
            }
            Ok((Value::CStr(copy_bytes(data, bo, end)), (end + 1) * 8))
        },
        FieldType::Optional(t) => match parse_field_at(t, data, off, fields) {
            Ok((v, o)) => Ok((Value::Opt(Some(Box::new(v))), o)),
            Err(e) => Err(e),
        },
        FieldType::Boxed(t) => parse_field_at(t, data, off, fields),
        FieldType::Exclude(t) => match default_value(t) {
            Some(d) => Ok((d, off)),
            None => Err(ParseError::BadLayout),
        },
        FieldType::Custom(l) => match parse_layout_at(l, data, off) {
            (Ok(v), o) => Ok((v, o)),
            (Err(e), _) => Err(e),
        },
    }
}

/// Decodes one row of a record at bit `cur`, after the values `vals`
/// decoded so far, which it extends; see `parse_row`.
pub fn parse_row_at(row: &Row, data: &[u8], vals: &mut Vec<Value>, cur: usize) -> (res: Result<usize, ParseError>)
    requires
        data@.len() * 8 <= usize::MAX,
    ensures
        match parse_row(*row, data@, Cursor { values: values_model(old(vals)@), off: cur as nat }) {
            Ok(c) => res == Ok::<usize, ParseError>(c.off as usize) && c.off <= usize::MAX && values_model(
                final(vals)@,
            ) == c.values,
            Err(e) => res == Err::<usize, ParseError>(e),
        },
    decreases row, 0nat,
{
    let ghost c0 = Cursor { values: values_model(vals@), off: cur as nat };
    match row {
        Row::Consume(e) => skip_exec(e, data, cur, vals),
        Row::Field(t) => {
            match parse_field_at(t, data, cur, vals) {
                Ok((v, o)) => {
                    let ghost before = vals@;
                    vals.push(v);
                    proof {
                        lemma_values_model_push(before, v);
                    }
                    Ok(o)
                },
                Err(x) => Err(x),
            }
        },
        Row::Cond(e, block) => {
            match eval_expr(e, vals, Some(data), cur, None) {
                Some(x) => {
                    if x != 0 {
                        proof {
                            assert(decreases_to!(*row => *block));
                        }
                        parse_block_at(block, data, vals, cur)
                    } else {
                        push_absent(vals, block);
                        Ok(cur)
                    }
                },
                None => Err(ParseError::BadExpression),
            }
        },
    }
}

/// Decodes the entries of an `if` block whose condition holds, at bit
/// `cur`, after the values `vals`, which it extends; see `parse_block`.
fn parse_block_at(block: &Vec<BlockRow>, data: &[u8], vals: &mut Vec<Value>, cur: usize) -> (res: Result<
    usize,
    ParseError,
>)
    requires
        data@.len() * 8 <= usize::MAX,
    ensures
        match parse_block(block@, block@.len(), data@, Cursor { values: values_model(old(vals)@), off: cur as nat }) {
            Ok(c) => res == Ok::<usize, ParseError>(c.off as usize) && c.off <= usize::MAX && values_model(
                final(vals)@,
            ) == c.values,
            Err(e) => res == Err::<usize, ParseError>(e),
        },
    decreases block, 0nat,
{
    let ghost c0 = Cursor { values: values_model(vals@), off: cur as nat };
    let mut at = cur;
    let mut j: usize = 0;
    while j < block.len()
        invariant
            data@.len() * 8 <= usize::MAX,
            c0 == (Cursor { values: values_model(old(vals)@), off: cur as nat }),
            j <= block@.len(),
            parse_block(block@, j as nat, data@, c0) == Ok::<Cursor, ParseError>(
                Cursor { values: values_model(vals@), off: at as nat },
            ),
        decreases block@.len() - j,
    {
        match &block[j] {
            BlockRow::Consume(e2) => {
                match skip_exec(e2, data, at, vals) {
                    Ok(o) => {
                        at = o;
                    },
                    Err(x2) => {
                        proof {
                            lemma_block_error(block@, (j + 1) as nat, block@.len(), data@, c0);
                        }
                        return Err(x2);
                    },
                }
            },
            BlockRow::Field(t) => {
                proof {
                    assert(decreases_to!(*block => block@));
                    assert(decreases_to!(block@ => block@[j as int]));
                    assert(decreases_to!(block@[j as int] => *t));
                }
                match parse_field_at(t, data, at, vals) {
                    Ok((v, o)) => {
                        let ghost before = vals@;
                        let w = Value::Opt(Some(Box::new(v)));
                        vals.push(w);
                        proof {
                            lemma_values_model_push(before, w);
                        }
                        at = o;
                    },
                    Err(x2) => {
                        proof {
                            lemma_block_error(block@, (j + 1) as nat, block@.len(), data@, c0);
                        }
                        return Err(x2);
                    },
                }
            },
        }
        j = j + 1;
    }
    Ok(at)
}

/// Decodes a record or an enumeration at bit `off`; see `parse_layout`.
pub fn parse_layout_at(layout: &Layout, data: &[u8], off: usize) -> (res: (
    Result<Value, ParseError>,
    usize,
))
    requires
        data@.len() * 8 <= usize::MAX,
    ensures
        (layout_outcome(res.0), res.1 as nat) == parse_layout(*layout, data@, off as nat),
    decreases layout, 0nat,
{
    match layout {
        Layout::Struct(rows) => {
            let mut vals: Vec<Value> = Vec::new();
            let mut cur = off;
            assert(decreases_to!(*layout => *rows));
            let mut i: usize = 0;
            while i < rows.len()
                invariant
                    data@.len() * 8 <= usize::MAX,
                    *layout == Layout::Struct(*rows),
                    decreases_to!(*layout => *rows),
                    i <= rows@.len(),
                    parse_rows(rows@, i as nat, data@, off as nat) == Ok::<Cursor, ParseError>(
                        Cursor { values: values_model(vals@), off: cur as nat },
                    ),
                decreases rows@.len() - i,
            {
                proof {
                    assert(decreases_to!(*rows => rows@));
                    assert(decreases_to!(rows@ => rows@[i as int]));
                }
                match parse_row_at(&rows[i], data, &mut vals, cur) {
                    Ok(o) => {
                        cur = o;
                    },
                    Err(x) => {
                        proof {
                            lemma_rows_error(rows@, (i + 1) as nat, rows@.len(), data@, off as nat);
                        }
                        return (Err(x), off);
                    },
                }
                i = i + 1;
            }
            (Ok(Value::Record(vals)), cur)
        },
        Layout::Enum(el) => {
            let no_fields: Vec<Value> = Vec::new();
            proof {
                assert(values_model(no_fields@) =~= Seq::<ValueModel>::empty());
            }
            match parse_field_at(&el.repr, data, off, &no_fields) {
                Ok((tag, o)) => (choose_variant(&el.variants, &tag), o),
                Err(e) => (Err(e), off),
            }
        },
    }
}

/// The variant whose rule accepts `tag`; see `select_variant`.
fn choose_variant(vs: &Vec<Variant>, tag: &Value) -> (res: Result<Value, ParseError>)
    ensures
        layout_outcome(res) == select_variant(vs@, 0, tag@),
{
    let no_fields: Vec<Value> = Vec::new();
    proof {
        assert(values_model(no_fields@) =~= Seq::<ValueModel>::empty());
    }
    let mut i: usize = 0;
    while i < vs.len()
        invariant
            i <= vs@.len(),
            values_model(no_fields@) == Seq::<ValueModel>::empty(),
            select_variant(vs@, 0, tag@) == select_variant(vs@, i as nat, tag@),
        decreases vs@.len() - i,
    {
        let v = &vs[i];
        let chosen: Option<Option<Value>> = match &v.rule {
            Rule::Exact(x) => {
                match crate::expr::int_value(tag) {
                    Some(t) => if t == *x {
                        Some(match &v.inner {
                            Some(ty) => default_value(ty),
                            None => None,
                        })
                    } else {
                        None
                    },
                    None => None,
                }
            },
            Rule::Condition(e) => match eval_expr(e, &no_fields, None, 0, Some(tag)) {
                Some(c) => if c != 0 {
                    Some(match &v.inner {
                        Some(ty) => cast_value(tag, ty),
                        None => None,
                    })
                } else {
                    None
                },
                None => {
                    return Err(ParseError::BadExpression);
                },
            },
            Rule::CatchAll => Some(match &v.inner {
                Some(ty) => cast_value(tag, ty),
                None => None,
            }),
            Rule::Assign(a, e) => match eval_expr(e, &no_fields, None, 0, Some(tag)) {
                Some(c) => if c != 0 {
                    Some(match a {
                        Assigned::Tag => Some(copy_value(tag)),
                        Assigned::Value(val) => Some(copy_value(val)),
                    })
                } else {
                    None
                },
                None => {
                    return Err(ParseError::BadExpression);
                },
            },
        };
        match chosen {
            Some(inner) => {
                return match &v.inner {
                    None => Ok(Value::Variant(i, None)),
                    Some(_) => match inner {
                        Some(w) => Ok(Value::Variant(i, Some(Box::new(w)))),
                        None => Err(ParseError::BadLayout),
                    },
                };
            },
            None => {},
        }
        i = i + 1;
    }
    Err(ParseError::InvalidTag)
}

} // verus!
