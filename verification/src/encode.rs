//! What encoding a value of a layout means (`write_layout` and its parts),
//! and the encoder that does it.

use vstd::prelude::*;
use vstd::arithmetic::power2::pow2;
use crate::bits::{overwrites, stored_bytes};
use crate::decode::as_count;
use crate::error::WriteError;
use crate::expr::eval;
use crate::layout::{BlockRow, EnumLayout, FieldType, Layout, Row, Rule, Variant, ValueModel};
use crate::model::{bit_pattern, block_field_count, cast_to, default_of};

verus! {

/// Where a writer stands: the buffer, the next bit position, and (inside a
/// record) how many field values have been used.
pub struct WriteState {
    pub buf: Seq<u8>,
    pub off: nat,
    pub used: nat,
}

/// The buffer and position after an integer field of `n` bits holding `val`
/// is written at `off`. Record writers OR bits into the buffer except for
/// aligned 8/16/32/64-bit fields, which overwrite whole bytes; enumeration
/// tags (`exact`) always overwrite.
pub open spec fn put_int(buf: Seq<u8>, off: nat, n: nat, val: u64, exact: bool) -> Result<
    (Seq<u8>, nat),
    WriteError,
> {
    if n > 64 {
        Err(WriteError::TooWide)
    } else if off + n + 8 > usize::MAX {
        Err(WriteError::OffsetOverflow)
    } else {
        Ok((stored_bytes(buf, off, n, val, !exact && !overwrites(off, n)), off + n))
    }
}

/// The buffer and position after `bytes` are appended (byte fields are
/// appended at the end of the buffer and must start on a byte boundary).
pub open spec fn put_bytes(buf: Seq<u8>, off: nat, bytes: Seq<u8>) -> Result<(Seq<u8>, nat), WriteError> {
    if buf.len() + bytes.len() > usize::MAX || off + 8 * bytes.len() > usize::MAX {
        Err(WriteError::OffsetOverflow)
    } else {
        Ok((buf + bytes, off + 8 * bytes.len()))
    }
}

/// Writing one field value at bit `off`.
pub open spec fn write_field(ty: FieldType, v: ValueModel, buf: Seq<u8>, off: nat, exact: bool) -> Result<
    (Seq<u8>, nat),
    WriteError,
>
    decreases ty, 0nat,
{
    match ty {
        FieldType::UInt(b) => match v {
            ValueModel::UInt(u) => put_int(buf, off, b as nat, u, exact),
            _ => Err(WriteError::ShapeMismatch),
        },
        FieldType::USize => match v {
            ValueModel::UInt(u) => put_int(buf, off, usize::BITS as nat, u, exact),
            _ => Err(WriteError::ShapeMismatch),
        },
        FieldType::Int(b) => if b == 0 || b > 63 {
            Err(WriteError::TooWide)
        } else {
            match v {
                ValueModel::Int(_) => put_int(
                    buf,
                    off,
                    b as nat,
                    (bit_pattern(v)->0 % pow2(b as nat)) as u64,
                    exact,
                ),
                _ => Err(WriteError::ShapeMismatch),
            }
        },
        FieldType::Bool => match v {
            ValueModel::Bool(x) => put_int(buf, off, 1, if x { 1 } else { 0 }, exact),
            _ => Err(WriteError::ShapeMismatch),
        },
        FieldType::Array(n) => if off % 8 != 0 {
            Err(WriteError::UnalignedSlice)
        } else {
            match v {
                ValueModel::Bytes(s) => if s.len() == n {
                    put_bytes(buf, off, s)
                } else {
                    Err(WriteError::ShapeMismatch)
                },
                _ => Err(WriteError::ShapeMismatch),
            }
        },
        FieldType::Bytes(_) => if off % 8 != 0 {
            Err(WriteError::UnalignedVec)
        } else {
            match v {
                ValueModel::Bytes(s) => put_bytes(buf, off, s),
                _ => Err(WriteError::ShapeMismatch),
            }
        },
        FieldType::CStr(_) => if off % 8 != 0 {
            Err(WriteError::UnalignedCStr)
        } else {
            match v {
                ValueModel::CStr(s) => if s.contains(0u8) {
                    Err(WriteError::ShapeMismatch)
                } else {
                    put_bytes(buf, off, s.push(0u8))
                },
                _ => Err(WriteError::ShapeMismatch),
            }
        },
        FieldType::Optional(t) => match v {
            ValueModel::Opt(Some(x)) => write_field(*t, *x, buf, off, exact),
            ValueModel::Opt(None) => Ok((buf, off)),
            _ => Err(WriteError::ShapeMismatch),
        },
        FieldType::Boxed(t) => write_field(*t, v, buf, off, exact),
        FieldType::Exclude(_) => Ok((buf, off)),
        FieldType::Custom(l) => write_layout(*l, v, buf, off),
    }
}

/// Writing `consume(e)`: `e` zero bits, OR-ed in like any record field.
pub open spec fn write_skip(e: crate::layout::Expr, vs: Seq<ValueModel>, st: WriteState) -> Result<
    WriteState,
    WriteError,
> {
    match as_count(eval(e, vs, None, 0, None)) {
        Some(a) => match put_int(st.buf, st.off, a, 0, false) {
            Ok((b, o)) => Ok(WriteState { buf: b, off: o, used: st.used }),
            Err(x) => Err(x),
        },
        None => Err(WriteError::BadExpression),
    }
}

/// Writing one row of a record whose field values are `vs`.
pub open spec fn write_row(row: Row, vs: Seq<ValueModel>, st: WriteState) -> Result<WriteState, WriteError>
    decreases row, 0nat,
{
    match row {
        Row::Consume(e) => write_skip(e, vs, st),
        Row::Field(t) => if st.used >= vs.len() {
            Err(WriteError::ShapeMismatch)
        } else {
            match write_field(t, vs[st.used as int], st.buf, st.off, false) {
                Ok((b, o)) => Ok(WriteState { buf: b, off: o, used: st.used + 1 }),
                Err(x) => Err(x),
            }
        },
        Row::Cond(_, block) => {
            let cnt = block_field_count(block@);
            if st.used + cnt > vs.len() {
                Err(WriteError::ShapeMismatch)
            } else if cnt == 0 {
                Ok(st)
            } else {
                match vs[st.used as int] {
                    ValueModel::Opt(Some(_)) => write_block(block@, block@.len(), vs, st),
                    ValueModel::Opt(None) => Ok(WriteState { buf: st.buf, off: st.off, used: st.used + cnt }),
                    _ => Err(WriteError::ShapeMismatch),
                }
            }
        },
    }
}

/// Writing the value of a field of a present block: the carried value when
/// present, nothing when absent.
pub open spec fn write_opt_field(t: FieldType, v: ValueModel, st: WriteState) -> Result<WriteState, WriteError>
    decreases t, 1nat,
{
    match v {
        ValueModel::Opt(Some(x)) => match write_field(t, *x, st.buf, st.off, false) {
            Ok((b, o)) => Ok(WriteState { buf: b, off: o, used: st.used + 1 }),
            Err(x) => Err(x),
        },
        ValueModel::Opt(None) => Ok(WriteState { buf: st.buf, off: st.off, used: st.used + 1 }),
        _ => Err(WriteError::ShapeMismatch),
    }
}

/// Writing one entry of a present block.
pub open spec fn write_block_row(brow: BlockRow, vs: Seq<ValueModel>, st: WriteState) -> Result<WriteState, WriteError>
    decreases brow, 0nat,
{
    match brow {
        BlockRow::Consume(e) => write_skip(e, vs, st),
        BlockRow::Field(t) => if st.used >= vs.len() {
            Err(WriteError::ShapeMismatch)
        } else {
            write_opt_field(t, vs[st.used as int], st)
        },
    }
}

/// Writing the first `n` rows of a present block.
pub open spec fn write_block(block: Seq<BlockRow>, n: nat, vs: Seq<ValueModel>, st: WriteState) -> Result<
    WriteState,
    WriteError,
>
    decreases block, n,
{
    if n == 0 || n > block.len() {
        if n == 0 {
            Ok(st)
        } else {
            Err(WriteError::ShapeMismatch)
        }
    } else {
        match write_block(block, (n - 1) as nat, vs, st) {
            Ok(s1) => write_block_row(block[n - 1], vs, s1),
            Err(x) => Err(x),
        }
    }
}

/// Writing the first `n` rows of a record.
pub open spec fn write_rows(rows: Seq<Row>, n: nat, vs: Seq<ValueModel>, buf: Seq<u8>, off: nat) -> Result<
    WriteState,
    WriteError,
>
    decreases rows, n,
{
    if n == 0 || n > rows.len() {
        if n == 0 {
            Ok(WriteState { buf, off, used: 0 })
        } else {
            Err(WriteError::ShapeMismatch)
        }
    } else {
        match write_rows(rows, (n - 1) as nat, vs, buf, off) {
            Ok(st) => write_row(rows[n - 1], vs, st),
            Err(x) => Err(x),
        }
    }
}

/// An integer literal as a value of the tag type (`literal as T`).
pub open spec fn literal_value(x: int) -> Option<ValueModel> {
    if 0 <= x <= u64::MAX {
        Some(ValueModel::UInt(x as u64))
    } else if i64::MIN <= x < 0 {
        Some(ValueModel::Int(x as i64))
    } else {
        None
    }
}

pub open spec fn is_int_type(ty: FieldType) -> bool {
    ty is UInt || ty is Int || ty is USize
}

/// The tag that an enumeration writer stores for variant `var` carrying
/// `inner`: the literal of an exact rule, the carried value (converted to
/// the tag type) for a condition or catch-all rule, the default tag
/// otherwise.
pub open spec fn tag_for(repr: FieldType, var: Variant, inner: Option<ValueModel>) -> Option<ValueModel> {
    match var.rule {
        Rule::Exact(x) => match literal_value(x as int) {
            Some(l) => cast_to(l, repr),
            None => None,
        },
        Rule::Assign(_, _) => default_of(repr),
        Rule::Condition(_) | Rule::CatchAll => match inner {
            Some(w) => if is_int_type(repr) {
                cast_to(w, repr)
            } else {
                Some(w)
            },
            None => default_of(repr),
        },
    }
}

/// Writing a record or an enumeration value at bit `off`.
pub open spec fn write_layout(layout: Layout, v: ValueModel, buf: Seq<u8>, off: nat) -> Result<
    (Seq<u8>, nat),
    WriteError,
>
    decreases layout, 0nat,
{
    match layout {
        Layout::Struct(rows) => match v {
            ValueModel::Record(vs) => match write_rows(rows@, rows@.len(), vs, buf, off) {
                Ok(st) => if st.used == vs.len() {
                    Ok((st.buf, st.off))
                } else {
                    Err(WriteError::ShapeMismatch)
                },
                Err(x) => Err(x),
            },
            _ => Err(WriteError::ShapeMismatch),
        },
        Layout::Enum(el) => match v {
            ValueModel::Variant(i, inner) => if i >= el.variants@.len() || (el.variants@[i as int].inner is Some)
                != (inner is Some) {
                Err(WriteError::ShapeMismatch)
            } else {
                match tag_for(
                    el.repr,
                    el.variants@[i as int],
                    match inner {
                        Some(b) => Some(*b),
                        None => None,
                    },
                ) {
                    Some(tag) => write_field(el.repr, tag, buf, off, true),
                    None => Err(WriteError::ShapeMismatch),
                }
            },
            _ => Err(WriteError::ShapeMismatch),
        },
    }
}

} // verus!

verus! {

use crate::bits::{write_bits, write_bits_exact, lemma_stores_field_unique};
use crate::expr::eval_expr;
use crate::layout::{Value, value_model, values_model, lemma_values_model};
use crate::model::{cast_value, copy_value, default_value, pattern_of, low_bits, count_block_fields};

/// The model of a writer's outcome: the buffer and position it leaves.
pub open spec fn write_outcome(res: Result<usize, WriteError>, buf: Seq<u8>) -> Result<(Seq<u8>, nat), WriteError> {
    match res {
        Ok(o) => Ok((buf, o as nat)),
        Err(x) => Err(x),
    }
}

fn put_int_at(buf: &mut Vec<u8>, off: usize, n: usize, val: u64, exact: bool) -> (res: Result<usize, WriteError>)
    ensures
        write_outcome(res, final(buf)@) == put_int(old(buf)@, off as nat, n as nat, val, exact),
        res is Err ==> final(buf)@ == old(buf)@,
{
    if n > 64 {
        return Err(WriteError::TooWide);
    }
    if off > usize::MAX - 8 - n {
        return Err(WriteError::OffsetOverflow);
    }
    let ghost before = buf@;
    let mut o = off;
    if exact {
        write_bits_exact(buf, &mut o, n, val);
    } else {
        write_bits(buf, &mut o, n, val);
    }
    proof {
        lemma_stores_field_unique(before, buf@, off as nat, n as nat, val, !exact && !overwrites(off as nat, n as nat));
    }
    Ok(o)
}

fn put_bytes_at(buf: &mut Vec<u8>, off: usize, bytes: &Vec<u8>) -> (res: Result<usize, WriteError>)
    ensures
        write_outcome(res, final(buf)@) == put_bytes(old(buf)@, off as nat, bytes@),
        res is Err ==> final(buf)@ == old(buf)@,
{
    if bytes.len() > usize::MAX - buf.len() || bytes.len() > (usize::MAX - off) / 8 {
        return Err(WriteError::OffsetOverflow);
    }
    let ghost before = buf@;
    let mut i: usize = 0;
    while i < bytes.len()
        invariant
            i <= bytes@.len(),
            buf@ == before + bytes@.subrange(0, i as int),
        decreases bytes@.len() - i,
    {
        buf.push(bytes[i]);
        i = i + 1;
        proof {
            assert(buf@ =~= before + bytes@.subrange(0, i as int));
        }
    }
    proof {
        assert(bytes@.subrange(0, bytes@.len() as int) =~= bytes@);
    }
    Ok(off + 8 * bytes.len())
}

fn has_zero(s: &Vec<u8>) -> (res: bool)
    ensures
        res == s@.contains(0u8),
{
    let mut i: usize = 0;
    while i < s.len()
        invariant
            i <= s@.len(),
            forall|k: int| 0 <= k < i ==> s@[k] != 0u8,
        decreases s@.len() - i,
    {
        if s[i] == 0 {
            return true;
        }
        i = i + 1;
    }
    false
}

/// Writes one field value at bit `off`; see `write_field`. A byte field
/// that would start inside a byte is reported as an error, not a panic.
pub fn write_field_at(ty: &FieldType, v: &Value, buf: &mut Vec<u8>, off: usize, exact: bool) -> (res: Result<
    usize,
    WriteError,
>)
    ensures
        res is Ok ==> write_outcome(res, final(buf)@) == write_field(*ty, v@, old(buf)@, off as nat, exact),
        res is Err ==> write_outcome(res, old(buf)@) == write_field(*ty, v@, old(buf)@, off as nat, exact),
    decreases ty, 0nat,
{
    match ty {
        FieldType::UInt(b) => match v {
            Value::UInt(u) => put_int_at(buf, off, *b as usize, *u, exact),
            _ => Err(WriteError::ShapeMismatch),
        },
        FieldType::USize => match v {
            Value::UInt(u) => put_int_at(buf, off, usize::BITS as usize, *u, exact),
            _ => Err(WriteError::ShapeMismatch),
        },
        FieldType::Int(b) => {
            if *b == 0 || *b > 63 {
                return Err(WriteError::TooWide);
            }
            match v {
                Value::Int(_) => match pattern_of(v) {
                    Some(p) => put_int_at(buf, off, *b as usize, low_bits(p, *b), exact),
                    None => Err(WriteError::ShapeMismatch),
                },
                _ => Err(WriteError::ShapeMismatch),
            }
        },
        FieldType::Bool => match v {
            Value::Bool(x) => put_int_at(buf, off, 1, if *x { 1 } else { 0 }, exact),
            _ => Err(WriteError::ShapeMismatch),
        },
        FieldType::Array(n) => {
            if off % 8 != 0 {
                return Err(WriteError::UnalignedSlice);
            }
            match v {
                Value::Bytes(s) => if s.len() == *n as usize {
                    put_bytes_at(buf, off, s)
                } else {
                    Err(WriteError::ShapeMismatch)
                },
                _ => Err(WriteError::ShapeMismatch),
            }
        },
        FieldType::Bytes(_) => {
            if off % 8 != 0 {
                return Err(WriteError::UnalignedVec);
            }
            match v {
                Value::Bytes(s) => put_bytes_at(buf, off, s),
                _ => Err(WriteError::ShapeMismatch),
            }
        },
        FieldType::CStr(_) => {
            if off % 8 != 0 {
                return Err(WriteError::UnalignedCStr);
            }
            match v {
                Value::CStr(s) => {
                    if has_zero(s) {
                        return Err(WriteError::ShapeMismatch);
                    }
                    let mut with_nul = crate::model::copy_byte_vec(s);
                    with_nul.push(0);
                    put_bytes_at(buf, off, &with_nul)
                },
                _ => Err(WriteError::ShapeMismatch),
            }
        },
        FieldType::Optional(t) => match v {
            Value::Opt(Some(x)) => write_field_at(t, x, buf, off, exact),
            Value::Opt(None) => Ok(off),
            _ => Err(WriteError::ShapeMismatch),
        },
        FieldType::Boxed(t) => write_field_at(t, v, buf, off, exact),
        FieldType::Exclude(_) => Ok(off),
        FieldType::Custom(l) => write_layout_at(l, v, buf, off),
    }
}

} // verus!

verus! {

proof fn lemma_write_rows_error(rows: Seq<Row>, k: nat, n: nat, vs: Seq<ValueModel>, buf: Seq<u8>, off: nat)
    requires
        k <= n <= rows.len(),
        write_rows(rows, k, vs, buf, off) is Err,
    ensures
        write_rows(rows, n, vs, buf, off) == write_rows(rows, k, vs, buf, off),
    decreases n - k,
{
    if k < n {
        lemma_write_rows_error(rows, k, (n - 1) as nat, vs, buf, off);
    }
}

proof fn lemma_write_block_error(block: Seq<BlockRow>, k: nat, n: nat, vs: Seq<ValueModel>, st: WriteState)
    requires
        k <= n <= block.len(),
        write_block(block, k, vs, st) is Err,
    ensures
        write_block(block, n, vs, st) == write_block(block, k, vs, st),
    decreases n - k,
{
    if k < n {
        lemma_write_block_error(block, k, (n - 1) as nat, vs, st);
    }
}

fn literal_to_value(x: i128) -> (res: Option<Value>)
    ensures
        res is Some == literal_value(x as int) is Some,
        res is Some ==> res->0@ == literal_value(x as int)->0,
{
    if 0 <= x && x <= u64::MAX as i128 {
        Some(Value::UInt(x as u64))
    } else if i64::MIN as i128 <= x && x < 0 {
        Some(Value::Int(x as i64))
    } else {
        None
    }
}

fn is_int_repr(ty: &FieldType) -> (res: bool)
    ensures
        res == is_int_type(*ty),
{
    match ty {
        FieldType::UInt(_) | FieldType::Int(_) | FieldType::USize => true,
        _ => false,
    }
}

/// The tag written for a variant; see `tag_for`.
fn tag_value(repr: &FieldType, var: &Variant, inner: Option<&Value>) -> (res: Option<Value>)
    ensures
        ({
            let spec_res = tag_for(
                *repr,
                *var,
                match inner {
                    Some(w) => Some(w@),
                    None => None,
                },
            );
            &&& res is Some == spec_res is Some
            &&& res is Some ==> res->0@ == spec_res->0
        }),
{
    match &var.rule {
        Rule::Exact(x) => match literal_to_value(*x) {
            Some(l) => cast_value(&l, repr),
            None => None,
        },
        Rule::Assign(_, _) => default_value(repr),
        Rule::Condition(_) | Rule::CatchAll => match inner {
            Some(w) => if is_int_repr(repr) {
                cast_value(w, repr)
            } else {
                Some(copy_value(w))
            },
            None => default_value(repr),
        },
    }
}

/// Writes `consume(e)`; see `write_skip`.
fn skip_at(e: &crate::layout::Expr, vs: &Vec<Value>, buf: &mut Vec<u8>, cur: usize) -> (res: Result<usize, WriteError>)
    ensures
        ({
            let st = WriteState { buf: old(buf)@, off: cur as nat, used: 0 };
            match write_skip(*e, values_model(vs@), st) {
                Ok(s2) => res == Ok::<usize, WriteError>(s2.off as usize) && s2.off <= usize::MAX && final(buf)@ == s2.buf,
                Err(x) => res == Err::<usize, WriteError>(x),
            }
        }),
{
    match eval_expr(e, vs, None, 0, None) {
        Some(x) => if x < 0 || x > usize::MAX as i128 {
            Err(WriteError::BadExpression)
        } else {
            put_int_at(buf, cur, x as usize, 0, false)
        },
        None => Err(WriteError::BadExpression),
    }
}

proof fn lemma_write_skip_used(e: crate::layout::Expr, vs: Seq<ValueModel>, st: WriteState)
    ensures
        write_skip(e, vs, st) == match write_skip(e, vs, WriteState { buf: st.buf, off: st.off, used: 0 }) {
            Ok(s2) => Ok(WriteState { buf: s2.buf, off: s2.off, used: st.used }),
            Err(x) => Err(x),
        },
{
}

/// Writes one entry of a present block; see `write_block`.
fn write_block_row_at(brow: &BlockRow, vs: &Vec<Value>, buf: &mut Vec<u8>, cur: usize, used: usize) -> (res: Result<
    (usize, usize),
    WriteError,
>)
    ensures
        ({
            let vsm = values_model(vs@);
            let st = WriteState { buf: old(buf)@, off: cur as nat, used: used as nat };
            let spec_res = write_block_row(*brow, vsm, st);
            match spec_res {
                Ok(s2) => res == Ok::<(usize, usize), WriteError>((s2.off as usize, s2.used as usize))
                    && s2.off <= usize::MAX && s2.used <= usize::MAX && final(buf)@ == s2.buf,
                Err(x) => res == Err::<(usize, usize), WriteError>(x),
            }
        }),
    decreases brow, 0nat,
{
    proof {
        lemma_values_model(vs@);
    }
    match brow {
        BlockRow::Consume(e) => {
            proof {
                lemma_write_skip_used(*e, values_model(vs@), WriteState { buf: buf@, off: cur as nat, used: used as nat });
            }
            match skip_at(e, vs, buf, cur) {
                Ok(o) => Ok((o, used)),
                Err(x) => Err(x),
            }
        },
        BlockRow::Field(t) => {
            if used >= vs.len() {
                return Err(WriteError::ShapeMismatch);
            }
            match &vs[used] {
                Value::Opt(Some(x)) => {
                    match write_field_at(t, &**x, buf, cur, false) {
                        Ok(o) => Ok((o, used + 1)),
                        Err(x2) => Err(x2),
                    }
                },
                Value::Opt(None) => Ok((cur, used + 1)),
                _ => Err(WriteError::ShapeMismatch),
            }
        },
    }
}

proof fn lemma_block_unfold(block: Seq<BlockRow>, j: nat, vs: Seq<ValueModel>, st0: WriteState, st_j: WriteState)
    requires
        j < block.len(),
        write_block(block, j, vs, st0) == Ok::<WriteState, WriteError>(st_j),
    ensures
        write_block(block, j + 1, vs, st0) == write_block_row(block[j as int], vs, st_j),
{
}

/// Writes a present block; see `write_block`.
fn write_block_at(block: &Vec<BlockRow>, vs: &Vec<Value>, buf: &mut Vec<u8>, cur: usize, used: usize) -> (res: Result<
    (usize, usize),
    WriteError,
>)
    ensures
        ({
            let st = WriteState { buf: old(buf)@, off: cur as nat, used: used as nat };
            match write_block(block@, block@.len(), values_model(vs@), st) {
                Ok(s2) => res == Ok::<(usize, usize), WriteError>((s2.off as usize, s2.used as usize))
                    && s2.off <= usize::MAX && s2.used <= usize::MAX && final(buf)@ == s2.buf,
                Err(x) => res == Err::<(usize, usize), WriteError>(x),
            }
        }),
    decreases block, 0nat,
{
    let ghost vsm = values_model(vs@);
    let ghost st0 = WriteState { buf: buf@, off: cur as nat, used: used as nat };
    let mut c = cur;
    let mut u = used;
    let mut j: usize = 0;
    proof {
        lemma_values_model(vs@);
    }
    while j < block.len()
        invariant
            st0 == (WriteState { buf: old(buf)@, off: cur as nat, used: used as nat }),
            j <= block@.len(),
            vsm == values_model(vs@),
            vsm.len() == vs@.len(),
            forall|k: int| 0 <= k < vs@.len() ==> #[trigger] vsm[k] == value_model(vs@[k]),
            write_block(block@, j as nat, vsm, st0) == Ok::<WriteState, WriteError>(
                WriteState { buf: buf@, off: c as nat, used: u as nat },
            ),
        decreases block@.len() - j,
    {
        let ghost st_j = WriteState { buf: buf@, off: c as nat, used: u as nat };
        proof {
            assert(decreases_to!(*block => block@));
            assert(decreases_to!(block@ => block@[j as int]));
            lemma_block_unfold(block@, j as nat, vsm, st0, st_j);
        }
        match write_block_row_at(&block[j], vs, buf, c, u) {
            Ok((o, u2)) => {
                c = o;
                u = u2;
            },
            Err(x) => {
                proof {
                    lemma_write_block_error(block@, (j + 1) as nat, block@.len(), vsm, st0);
                }
                return Err(x);
            },
        }
        j = j + 1;
    }
    Ok((c, u))
}

/// Writes one row of a record whose values are `vs`, at bit `cur`, after
/// the first `used` values; returns the position and the count of values
/// written after it; see `write_row`.
pub fn write_row_at(row: &Row, vs: &Vec<Value>, buf: &mut Vec<u8>, cur: usize, used: usize) -> (res: Result<
    (usize, usize),
    WriteError,
>)
    ensures
        ({
            let st = WriteState { buf: old(buf)@, off: cur as nat, used: used as nat };
            match write_row(*row, values_model(vs@), st) {
                Ok(s2) => res == Ok::<(usize, usize), WriteError>((s2.off as usize, s2.used as usize))
                    && s2.off <= usize::MAX && s2.used <= usize::MAX && final(buf)@ == s2.buf,
                Err(x) => res == Err::<(usize, usize), WriteError>(x),
            }
        }),
    decreases row, 0nat,
{
    let ghost vsm = values_model(vs@);
    proof {
        lemma_values_model(vs@);
    }
    let ghost st0 = WriteState { buf: buf@, off: cur as nat, used: used as nat };
    match row {
        Row::Consume(e) => {
            proof {
                lemma_write_skip_used(*e, vsm, st0);
            }
            match skip_at(e, vs, buf, cur) {
                Ok(o) => Ok((o, used)),
                Err(x) => Err(x),
            }
        },
        Row::Field(t) => {
            if used >= vs.len() {
                return Err(WriteError::ShapeMismatch);
            }
            match write_field_at(t, &vs[used], buf, cur, false) {
                Ok(o) => Ok((o, used + 1)),
                Err(x) => Err(x),
            }
        },
        Row::Cond(_, block) => {
            let cnt = count_block_fields(block);
            if used > vs.len() || cnt > vs.len() - used {
                return Err(WriteError::ShapeMismatch);
            }
            if cnt == 0 {
                return Ok((cur, used));
            }
            match &vs[used] {
                Value::Opt(Some(_)) => {
                    proof {
                        assert(vsm[used as int] == value_model(vs@[used as int]));
                        assert(write_row(*row, vsm, st0) == write_block(block@, block@.len(), vsm, st0));
                    }
                    write_block_at(block, vs, buf, cur, used)
                },
                Value::Opt(None) => Ok((cur, used + cnt)),
                _ => Err(WriteError::ShapeMismatch),
            }
        },
    }
}

/// Writes a record or an enumeration value at bit `off`; see
/// `write_layout`.
pub fn write_layout_at(layout: &Layout, v: &Value, buf: &mut Vec<u8>, off: usize) -> (res: Result<
    usize,
    WriteError,
>)
    ensures
        res is Ok ==> write_outcome(res, final(buf)@) == write_layout(*layout, v@, old(buf)@, off as nat),
        res is Err ==> write_outcome(res, old(buf)@) == write_layout(*layout, v@, old(buf)@, off as nat),
    decreases layout, 0nat,
{
    match layout {
        Layout::Struct(rows) => match v {
            Value::Record(vs) => {
                let ghost vsm = values_model(vs@);
                let ghost start = buf@;
                proof {
                    lemma_values_model(vs@);
                }
                let mut cur = off;
                let mut used: usize = 0;
                let mut i: usize = 0;
                assert(decreases_to!(*layout => *rows));
                while i < rows.len()
                    invariant
                        *layout == Layout::Struct(*rows),
                        *v == Value::Record(*vs),
                        start == old(buf)@,
                        decreases_to!(*layout => *rows),
                        i <= rows@.len(),
                        vsm == values_model(vs@),
                        vsm.len() == vs@.len(),
                        write_rows(rows@, i as nat, vsm, start, off as nat) == Ok::<WriteState, WriteError>(
                            WriteState { buf: buf@, off: cur as nat, used: used as nat },
                        ),
                    decreases rows@.len() - i,
                {
                    proof {
                        assert(decreases_to!(*rows => rows@));
                        assert(decreases_to!(rows@ => rows@[i as int]));
                    }
                    let ghost st_i = WriteState { buf: buf@, off: cur as nat, used: used as nat };
                    assert(write_rows(rows@, (i + 1) as nat, vsm, start, off as nat) == match write_rows(rows@, i as nat, vsm, start, off as nat) { Ok(st) => write_row(rows@[i as int], vsm, st), Err(x) => Err(x) });
                    assert(write_rows(rows@, (i + 1) as nat, vsm, start, off as nat) == write_row(rows@[i as int], vsm, st_i));
                    match write_row_at(&rows[i], vs, buf, cur, used) {
                        Ok((o, u)) => {
                            cur = o;
                            used = u;
                        },
                        Err(x) => {
                            proof {
                                lemma_write_rows_error(rows@, (i + 1) as nat, rows@.len(), vsm, start, off as nat);
                                assert(write_rows(rows@, rows@.len(), vsm, start, off as nat) == Err::<WriteState, WriteError>(x));
                                assert(v@ == ValueModel::Record(vsm));
                                assert(write_layout(*layout, v@, start, off as nat) == Err::<(Seq<u8>, nat), WriteError>(x));
                            }
                            return Err(x);
                        },
                    }
                    i = i + 1;
                }
                if used != vs.len() {
                    return Err(WriteError::ShapeMismatch);
                }
                Ok(cur)
            },
            _ => Err(WriteError::ShapeMismatch),
        },
        Layout::Enum(el) => match v {
            Value::Variant(i, inner) => {
                if *i >= el.variants.len() {
                    return Err(WriteError::ShapeMismatch);
                }
                let var = &el.variants[*i];
                if var.inner.is_some() != inner.is_some() {
                    return Err(WriteError::ShapeMismatch);
                }
                let inner_ref: Option<&Value> = match inner {
                    Some(b) => Some(&**b),
                    None => None,
                };
                match tag_value(&el.repr, var, inner_ref) {
                    Some(tag) => write_field_at(&el.repr, &tag, buf, off, true),
                    None => Err(WriteError::ShapeMismatch),
                }
            },
            _ => Err(WriteError::ShapeMismatch),
        },
    }
}

} // verus!
