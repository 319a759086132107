//! Layout expressions: their value, and their evaluation.

use vstd::prelude::*;
use vstd::arithmetic::power2::*;
use crate::bits::{bits_value, read_bits};
use crate::layout::{BinOp, Expr, IntType, Value, ValueModel, value_model, values_model, lemma_values_model};

verus! {

/// The integer that a value stands for in expressions: unsigned and signed
/// integers as themselves, booleans as 1 and 0.
pub open spec fn int_of(v: ValueModel) -> Option<int> {
    match v {
        ValueModel::UInt(u) => Some(u as int),
        ValueModel::Int(i) => Some(i as int),
        ValueModel::Bool(b) => Some(if b { 1int } else { 0int }),
        _ => None,
    }
}

pub open spec fn in_i128(x: int) -> bool {
    i128::MIN <= x <= i128::MAX
}

pub open spec fn abs_int(x: int) -> int {
    if x < 0 {
        -x
    } else {
        x
    }
}

/// Division truncated toward zero, as Rust divides integers.
pub open spec fn trunc_div(x: int, y: int) -> int {
    let q = abs_int(x) / abs_int(y);
    if (x < 0) == (y < 0) {
        q
    } else {
        -q
    }
}

/// Whether the operator has a value on these operands: no division by zero,
/// and a shift by less than 128 bits.
pub open spec fn op_defined(op: BinOp, x: int, y: int) -> bool {
    match op {
        BinOp::Div | BinOp::Rem => y != 0,
        BinOp::Shl | BinOp::Shr => 0 <= y < 128,
        _ => true,
    }
}

pub open spec fn apply_op(op: BinOp, x: int, y: int) -> int {
    match op {
        BinOp::Add => x + y,
        BinOp::Sub => x - y,
        BinOp::Mul => x * y,
        BinOp::Div => trunc_div(x, y),
        BinOp::Rem => x - y * trunc_div(x, y),
        BinOp::BitAnd => ((x as i128) & (y as i128)) as int,
        BinOp::BitOr => ((x as i128) | (y as i128)) as int,
        BinOp::BitXor => ((x as i128) ^ (y as i128)) as int,
        BinOp::Shl => ((x as i128) << (y as u32)) as int,
        BinOp::Shr => ((x as i128) >> (y as u32)) as int,
        BinOp::Eq => if x == y { 1 } else { 0 },
        BinOp::Ne => if x != y { 1 } else { 0 },
        BinOp::Lt => if x < y { 1 } else { 0 },
        BinOp::Le => if x <= y { 1 } else { 0 },
        BinOp::Gt => if x > y { 1 } else { 0 },
        BinOp::Ge => if x >= y { 1 } else { 0 },
        BinOp::And => if x != 0 && y != 0 { 1 } else { 0 },
        BinOp::Or => if x != 0 || y != 0 { 1 } else { 0 },
    }
}

/// `peek(bits)` at bit `off`: the bits that follow, or 0 when the data ends
/// first; no value when the bit position leaves `usize`.
pub open spec fn peek_value(data: Seq<u8>, off: int, bits: nat) -> Option<int> {
    if off + bits > usize::MAX {
        None
    } else if off + bits <= data.len() * 8 {
        Some((bits_value(data, off, bits) % pow2(64)) as int)
    } else {
        Some(0)
    }
}

/// `x as t`: the low bits of `x` that the type holds, read as that type
/// reads them.
pub open spec fn cast_int(t: IntType, x: int) -> int {
    match t {
        IntType::U8 => (x as u8) as int,
        IntType::U16 => (x as u16) as int,
        IntType::U32 => (x as u32) as int,
        IntType::U64 => (x as u64) as int,
        IntType::U128 => (x as u128) as int,
        IntType::USize => (x as usize) as int,
        IntType::I8 => (x as i8) as int,
        IntType::I16 => (x as i16) as int,
        IntType::I32 => (x as i32) as int,
        IntType::I64 => (x as i64) as int,
        IntType::I128 => (x as i128) as int,
        IntType::ISize => (x as isize) as int,
    }
}

/// Whether an expression is boolean, as Rust types it: `true` and `false`,
/// a field or a tag of type `bool`, a comparison, `&&` and `||`, and `!`,
/// `&`, `|`, `^` of booleans.
pub open spec fn is_boolean(e: Expr, fields: Seq<ValueModel>, tag: Option<ValueModel>) -> bool
    decreases e,
{
    match e {
        Expr::Bool(_) => true,
        Expr::Field(k) => k < fields.len() && fields[k as int] is Bool,
        Expr::Tag => tag matches Some(ValueModel::Bool(_)),
        Expr::Not(a) => is_boolean(*a, fields, tag),
        Expr::Paren(_, a) => is_boolean(*a, fields, tag),
        Expr::Bin(op, a, b) => match op {
            BinOp::Eq | BinOp::Ne | BinOp::Lt | BinOp::Le | BinOp::Gt | BinOp::Ge | BinOp::And | BinOp::Or => true,
            BinOp::BitAnd | BinOp::BitOr | BinOp::BitXor => is_boolean(*a, fields, tag) && is_boolean(*b, fields, tag),
            _ => false,
        },
        _ => false,
    }
}

/// The value of an expression, given the fields decoded so far, the data
/// and bit position that `peek` reads (absent while writing) and the tag of
/// an enumeration. No value when it names something absent, when a
/// sub-result leaves the `i128` range, or when it reads past `usize`.
/// `&&` and `||` do not evaluate their right side when the left decides.
pub open spec fn eval(
    e: Expr,
    fields: Seq<ValueModel>,
    data: Option<Seq<u8>>,
    off: int,
    tag: Option<ValueModel>,
) -> Option<int>
    decreases e,
{
    match e {
        Expr::Lit(x) => Some(x as int),
        Expr::Bool(b) => Some(if b { 1int } else { 0int }),
        Expr::Field(k) => if k < fields.len() {
            int_of(fields[k as int])
        } else {
            None
        },
        Expr::Peek(bits) => match data {
            Some(d) => peek_value(d, off, bits as nat),
            None => None,
        },
        Expr::Tag => match tag {
            Some(t) => int_of(t),
            None => None,
        },
        Expr::TagLen => match tag {
            Some(ValueModel::Bytes(b)) => Some(b.len() as int),
            _ => None,
        },
        Expr::Not(a) => match eval(*a, fields, data, off, tag) {
            Some(x) => if is_boolean(*a, fields, tag) {
                Some(if x == 0 { 1int } else { 0int })
            } else {
                Some(-x - 1)
            },
            None => None,
        },
        Expr::Paren(_, a) => eval(*a, fields, data, off, tag),
        Expr::Extern(_, _) => None,
        Expr::Cast(t, a) => match eval(*a, fields, data, off, tag) {
            Some(x) => if in_i128(cast_int(t, x)) {
                Some(cast_int(t, x))
            } else {
                None
            },
            None => None,
        },
        Expr::Bin(op, a, b) => match eval(*a, fields, data, off, tag) {
            Some(x) => if op == BinOp::And && x == 0 {
                Some(0)
            } else if op == BinOp::Or && x != 0 {
                Some(1)
            } else {
                match eval(*b, fields, data, off, tag) {
                    Some(y) => if op_defined(op, x, y) && in_i128(apply_op(op, x, y)) {
                        Some(apply_op(op, x, y))
                    } else {
                        None
                    },
                    None => None,
                }
            },
            None => None,
        },
    }
}

/// The integer that a value stands for in expressions.
pub fn int_value(v: &Value) -> (res: Option<i128>)
    ensures
        res is Some == int_of(v@) is Some,
        res is Some ==> res->0 as int == int_of(v@)->0,
{
    match v {
        Value::UInt(u) => Some(*u as i128),
        Value::Int(i) => Some(*i as i128),
        Value::Bool(b) => Some(if *b { 1 } else { 0 }),
        _ => None,
    }
}

fn cast_checked(t: IntType, x: i128) -> (res: Option<i128>)
    ensures
        res is Some == in_i128(cast_int(t, x as int)),
        res is Some ==> res->0 as int == cast_int(t, x as int),
{
    match t {
        IntType::U8 => Some((x as u8) as i128),
        IntType::U16 => Some((x as u16) as i128),
        IntType::U32 => Some((x as u32) as i128),
        IntType::U64 => Some((x as u64) as i128),
        IntType::U128 => {
            let y = x as u128;
            if y > i128::MAX as u128 {
                None
            } else {
                Some(y as i128)
            }
        },
        IntType::USize => Some((x as usize) as i128),
        IntType::I8 => Some((x as i8) as i128),
        IntType::I16 => Some((x as i16) as i128),
        IntType::I32 => Some((x as i32) as i128),
        IntType::I64 => Some((x as i64) as i128),
        IntType::I128 => Some(x),
        IntType::ISize => Some((x as isize) as i128),
    }
}

fn magnitude(x: i128) -> (m: u128)
    ensures
        m as int == abs_int(x as int),
{
    if x < 0 {
        ((-(x + 1)) as u128) + 1
    } else {
        x as u128
    }
}

/// `x / y` and `x % y` truncated toward zero; no value for a zero divisor or
/// a quotient outside `i128`.
fn div_rem_checked(x: i128, y: i128, rem: bool) -> (res: Option<i128>)
    ensures
        res is Some == (y != 0 && in_i128(
            if rem {
                x - y * trunc_div(x as int, y as int)
            } else {
                trunc_div(x as int, y as int)
            },
        )),
        res is Some ==> res->0 as int == if rem {
            x - y * trunc_div(x as int, y as int)
        } else {
            trunc_div(x as int, y as int)
        },
{
    if y == 0 {
        return None;
    }
    let ax = magnitude(x);
    let ay = magnitude(y);
    let q = ax / ay;
    let r = ax % ay;
    proof {
        vstd::arithmetic::div_mod::lemma_fundamental_div_mod(ax as int, ay as int);
        assert(q as int == trunc_div(x as int, y as int) || q as int == -trunc_div(x as int, y as int));
        let t = trunc_div(x as int, y as int);
        if x >= 0 && y > 0 {
            assert(x - y * t == r) by (nonlinear_arith)
                requires x == ax, y == ay, t == q, ax == ay * q + r;
        } else if x >= 0 && y < 0 {
            assert(x - y * t == r) by (nonlinear_arith)
                requires x == ax, y == -ay, t == -q, ax == ay * q + r;
        } else if x < 0 && y > 0 {
            assert(x - y * t == -r) by (nonlinear_arith)
                requires x == -ax, y == ay, t == -q, ax == ay * q + r;
        } else {
            assert(x - y * t == -r) by (nonlinear_arith)
                requires x == -ax, y == -ay, t == q, ax == ay * q + r;
        }
        assert(q <= ax) by (nonlinear_arith)
            requires ay >= 1, ax == ay * q + r, r >= 0, q >= 0;
    }
    if rem {
        if x < 0 {
            Some(-(r as i128))
        } else {
            Some(r as i128)
        }
    } else if (x < 0) == (y < 0) {
        if q > i128::MAX as u128 {
            None
        } else {
            Some(q as i128)
        }
    } else if q == 0x8000_0000_0000_0000_0000_0000_0000_0000u128 {
        Some(i128::MIN)
    } else {
        Some(-(q as i128))
    }
}

fn apply_checked(op: BinOp, x: i128, y: i128) -> (res: Option<i128>)
    ensures
        res is Some == (op_defined(op, x as int, y as int) && in_i128(apply_op(op, x as int, y as int))),
        res is Some ==> res->0 as int == apply_op(op, x as int, y as int),
{
    match op {
        BinOp::Add => x.checked_add(y),
        BinOp::Sub => x.checked_sub(y),
        BinOp::Mul => x.checked_mul(y),
        BinOp::Div => div_rem_checked(x, y, false),
        BinOp::Rem => div_rem_checked(x, y, true),
        BinOp::BitAnd => Some(x & y),
        BinOp::BitOr => Some(x | y),
        BinOp::BitXor => Some(x ^ y),
        BinOp::Shl => if y < 0 || y >= 128 {
            None
        } else {
            Some(x << (y as u32))
        },
        BinOp::Shr => if y < 0 || y >= 128 {
            None
        } else {
            Some(x >> (y as u32))
        },
        BinOp::Eq => Some(if x == y { 1 } else { 0 }),
        BinOp::Ne => Some(if x != y { 1 } else { 0 }),
        BinOp::Lt => Some(if x < y { 1 } else { 0 }),
        BinOp::Le => Some(if x <= y { 1 } else { 0 }),
        BinOp::Gt => Some(if x > y { 1 } else { 0 }),
        BinOp::Ge => Some(if x >= y { 1 } else { 0 }),
        BinOp::And => Some(if x != 0 && y != 0 { 1 } else { 0 }),
        BinOp::Or => Some(if x != 0 || y != 0 { 1 } else { 0 }),
    }
}

/// Whether an expression is boolean; see `is_boolean`.
fn is_boolean_exec(e: &Expr, fields: &Vec<Value>, tag: Option<&Value>) -> (res: bool)
    ensures
        res == is_boolean(
            *e,
            values_model(fields@),
            match tag {
                Some(t) => Some(t@),
                None => None,
            },
        ),
    decreases e,
{
    proof {
        lemma_values_model(fields@);
    }
    match e {
        Expr::Bool(_) => true,
        Expr::Field(k) => *k < fields.len() && matches!(fields[*k], Value::Bool(_)),
        Expr::Tag => match tag {
            Some(Value::Bool(_)) => true,
            _ => false,
        },
        Expr::Not(a) => is_boolean_exec(a, fields, tag),
        Expr::Paren(_, a) => is_boolean_exec(a, fields, tag),
        Expr::Bin(op, a, b) => match op {
            BinOp::Eq | BinOp::Ne | BinOp::Lt | BinOp::Le | BinOp::Gt | BinOp::Ge | BinOp::And | BinOp::Or => true,
            BinOp::BitAnd | BinOp::BitOr | BinOp::BitXor => is_boolean_exec(a, fields, tag) && is_boolean_exec(
                b,
                fields,
                tag,
            ),
            _ => false,
        },
        _ => false,
    }
}

/// Evaluates a layout expression; see `eval`.
pub fn eval_expr(
    e: &Expr,
    fields: &Vec<Value>,
    data: Option<&[u8]>,
    off: usize,
    tag: Option<&Value>,
) -> (res: Option<i128>)
    requires
        data matches Some(d) ==> d@.len() * 8 <= usize::MAX,
    ensures
        ({
            let spec_res = eval(
                *e,
                values_model(fields@),
                match data {
                    Some(d) => Some(d@),
                    None => None,
                },
                off as int,
                match tag {
                    Some(t) => Some(t@),
                    None => None,
                },
            );
            &&& res is Some == spec_res is Some
            &&& res is Some ==> res->0 as int == spec_res->0
        }),
    decreases e,
{
    match e {
        Expr::Lit(x) => Some(*x),
        Expr::Bool(b) => Some(if *b { 1 } else { 0 }),
        Expr::Field(k) => {
            proof {
                lemma_values_model(fields@);
            }
            if *k < fields.len() {
                int_value(&fields[*k])
            } else {
                None
            }
        },
        Expr::Peek(bits) => match data {
            Some(d) => {
                if off > usize::MAX - *bits {
                    None
                } else {
                    let mut temp_offset = off;
                    match read_bits(d, &mut temp_offset, *bits) {
                        Ok(v) => Some(v as i128),
                        Err(_) => Some(0),
                    }
                }
            },
            None => None,
        },
        Expr::Tag => match tag {
            Some(t) => int_value(t),
            None => None,
        },
        Expr::TagLen => match tag {
            Some(Value::Bytes(b)) => Some(b.len() as i128),
            _ => None,
        },
        Expr::Not(a) => match eval_expr(a, fields, data, off, tag) {
            Some(x) => if is_boolean_exec(a, fields, tag) {
                Some(if x == 0 { 1 } else { 0 })
            } else if x == i128::MIN {
                Some(i128::MAX)
            } else {
                Some(-x - 1)
            },
            None => None,
        },
        Expr::Paren(_, a) => eval_expr(a, fields, data, off, tag),
        Expr::Extern(_, _) => None,
        Expr::Cast(t, a) => match eval_expr(a, fields, data, off, tag) {
            Some(x) => cast_checked(*t, x),
            None => None,
        },
        Expr::Bin(op, a, b) => match eval_expr(a, fields, data, off, tag) {
            Some(x) => {
                if matches!(op, BinOp::And) && x == 0 {
                    Some(0)
                } else if matches!(op, BinOp::Or) && x != 0 {
                    Some(1)
                } else {
                    match eval_expr(b, fields, data, off, tag) {
                        Some(y) => apply_checked(*op, x, y),
                        None => None,
                    }
                }
            },
            None => None,
        },
    }
}

} // verus!
