//! Integer widths, casts, defaults and copies of values.

use vstd::prelude::*;
use vstd::arithmetic::power2::pow2;
use crate::layout::{FieldType, Layout, Row, BlockRow, ValueModel};

verus! {

/// Width of the Rust integer that holds an `N`-bit field: the smallest of
/// 8, 16, 32 and 64 bits that fits, and 64 for wider fields.
pub open spec fn int_width(bits: nat) -> nat {
    if bits <= 8 {
        8
    } else if bits <= 16 {
        16
    } else if bits <= 32 {
        32
    } else {
        64
    }
}

/// The 64-bit two's complement pattern of an integer value.
pub open spec fn bit_pattern(v: ValueModel) -> Option<nat> {
    match v {
        ValueModel::UInt(u) => Some(u as nat),
        ValueModel::Int(i) => Some(
            if i >= 0 {
                i as nat
            } else {
                (i + pow2(64)) as nat
            },
        ),
        ValueModel::Bool(b) => Some(if b { 1nat } else { 0nat }),
        _ => None,
    }
}

/// `v as T`: the value converted to the Rust type of `ty` the way `as`
/// converts integers (keeping the low bits); byte vectors convert to
/// themselves. No value for conversions that Rust refuses.
pub open spec fn cast_to(v: ValueModel, ty: FieldType) -> Option<ValueModel> {
    match ty {
        FieldType::UInt(b) => match bit_pattern(v) {
            Some(p) => Some(ValueModel::UInt((p % pow2(int_width(b as nat))) as u64)),
            None => None,
        },
        FieldType::USize => match bit_pattern(v) {
            Some(p) => Some(ValueModel::UInt((p % pow2(usize::BITS as nat)) as u64)),
            None => None,
        },
        FieldType::Int(b) => match bit_pattern(v) {
            Some(p) => {
                let w = int_width(b as nat);
                let r = p % pow2(w);
                Some(
                    ValueModel::Int(
                        (if r >= pow2((w - 1) as nat) {
                            r - pow2(w)
                        } else {
                            r as int
                        }) as i64,
                    ),
                )
            },
            None => None,
        },
        FieldType::Bytes(_) => match v {
            ValueModel::Bytes(s) => Some(ValueModel::Bytes(s)),
            _ => None,
        },
        _ => None,
    }
}

/// `Default::default()` for the Rust type of a field; records default each
/// field, and fields of an optional block default to absent. Enumerations
/// have no default.
pub open spec fn default_of(ty: FieldType) -> Option<ValueModel>
    decreases ty, 0nat,
{
    match ty {
        FieldType::UInt(_) => Some(ValueModel::UInt(0)),
        FieldType::USize => Some(ValueModel::UInt(0)),
        FieldType::Int(_) => Some(ValueModel::Int(0)),
        FieldType::Bool => Some(ValueModel::Bool(false)),
        FieldType::Bytes(_) => Some(ValueModel::Bytes(Seq::empty())),
        FieldType::CStr(_) => Some(ValueModel::CStr(Seq::empty())),
        FieldType::Array(n) => Some(ValueModel::Bytes(Seq::new(n as nat, |i: int| 0u8))),
        FieldType::Optional(_) => Some(ValueModel::Opt(None)),
        FieldType::Boxed(t) => default_of(*t),
        FieldType::Exclude(t) => default_of(*t),
        FieldType::Custom(l) => match *l {
            Layout::Struct(rows) => match rows_default(rows@, rows@.len()) {
                Some(vs) => Some(ValueModel::Record(vs)),
                None => None,
            },
            Layout::Enum(_) => None,
        },
    }
}

/// Defaults of the fields of the first `n` rows.
pub open spec fn rows_default(rows: Seq<Row>, n: nat) -> Option<Seq<ValueModel>>
    decreases rows, n,
{
    if n == 0 || n > rows.len() {
        if n == 0 {
            Some(Seq::empty())
        } else {
            None
        }
    } else {
        match rows_default(rows, (n - 1) as nat) {
            Some(vs) => match rows[n - 1] {
                Row::Consume(_) => Some(vs),
                Row::Field(t) => match default_of(t) {
                    Some(d) => Some(vs.push(d)),
                    None => None,
                },
                Row::Cond(_, block) => Some(vs + Seq::new(block_field_count(block@) as nat, |i: int| ValueModel::Opt(None))),
            },
            None => None,
        }
    }
}

/// How many fields a block declares.
pub open spec fn block_field_count(block: Seq<BlockRow>) -> nat
    decreases block.len(),
{
    if block.len() == 0 {
        0
    } else {
        block_field_count(block.drop_last()) + match block.last() {
            BlockRow::Field(_) => 1nat,
            BlockRow::Consume(_) => 0nat,
        }
    }
}

} // verus!

verus! {

use crate::layout::{Value, value_model, values_model, lemma_values_model, lemma_values_model_push};
use vstd::arithmetic::power2::{lemma2_to64, lemma_pow2_pos, lemma_pow2_unfold};
use vstd::bits::{lemma_u64_shl_is_mul, lemma_u64_pow2_no_overflow};

/// Width of the Rust integer type that holds an `N`-bit field (8, 16, 32 or
/// 64): the type a record field of that width is declared with.
pub fn rust_int_width(bits: u8) -> (res: u8)
    ensures
        res as nat == int_width(bits as nat),
{
    if bits <= 8 {
        8
    } else if bits <= 16 {
        16
    } else if bits <= 32 {
        32
    } else {
        64
    }
}

/// A copy of a value.
pub fn copy_value(v: &Value) -> (res: Value)
    ensures
        res@ == v@,
    decreases v,
{
    match v {
        Value::UInt(u) => Value::UInt(*u),
        Value::Int(i) => Value::Int(*i),
        Value::Bool(b) => Value::Bool(*b),
        Value::Bytes(b) => Value::Bytes(copy_byte_vec(b)),
        Value::CStr(b) => Value::CStr(copy_byte_vec(b)),
        Value::Opt(o) => match o {
            Some(b) => Value::Opt(Some(Box::new(copy_value(&**b)))),
            None => Value::Opt(None),
        },
        Value::Record(vs) => Value::Record(copy_values(vs)),
        Value::Variant(i, o) => match o {
            Some(b) => Value::Variant(*i, Some(Box::new(copy_value(&**b)))),
            None => Value::Variant(*i, None),
        },
    }
}

fn copy_values(vs: &Vec<Value>) -> (res: Vec<Value>)
    ensures
        values_model(res@) == values_model(vs@),
    decreases vs,
{
    let mut out: Vec<Value> = Vec::new();
    let mut i: usize = 0;
    while i < vs.len()
        invariant
            i <= vs@.len(),
            out@.len() == i,
            forall|k: int| 0 <= k < i ==> #[trigger] value_model(out@[k]) == value_model(vs@[k]),
        decreases vs@.len() - i,
    {
        proof {
            assert(decreases_to!(vs => vs@[i as int]));
        }
        let c = copy_value(&vs[i]);
        out.push(c);
        i = i + 1;
    }
    proof {
        lemma_values_model(out@);
        lemma_values_model(vs@);
        assert(values_model(out@) =~= values_model(vs@));
    }
    out
}

/// A copy of a byte vector.
pub fn copy_byte_vec(b: &Vec<u8>) -> (res: Vec<u8>)
    ensures
        res@ == b@,
{
    let mut out: Vec<u8> = Vec::new();
    let mut i: usize = 0;
    while i < b.len()
        invariant
            i <= b@.len(),
            out@ == b@.subrange(0, i as int),
        decreases b@.len() - i,
    {
        out.push(b[i]);
        i = i + 1;
        proof {
            assert(out@ =~= b@.subrange(0, i as int));
        }
    }
    proof {
        assert(b@.subrange(0, b@.len() as int) =~= b@);
    }
    out
}

/// The 64-bit two's complement pattern of an integer value.
pub fn pattern_of(v: &Value) -> (res: Option<u64>)
    ensures
        res is Some == bit_pattern(v@) is Some,
        res is Some ==> res->0 as nat == bit_pattern(v@)->0,
{
    proof {
        lemma2_to64();
    }
    match v {
        Value::UInt(u) => Some(*u),
        Value::Int(i) => {
            if *i >= 0 {
                Some(*i as u64)
            } else {
                Some((*i - i64::MIN) as u64 + 0x8000_0000_0000_0000u64)
            }
        },
        Value::Bool(b) => Some(if *b { 1 } else { 0 }),
        _ => None,
    }
}

/// The low `w` bits of `p` (`w` at most 64): `p mod 2^w`.
pub fn low_bits(p: u64, w: u8) -> (res: u64)
    requires
        w <= 64,
    ensures
        res as nat == p as nat % pow2(w as nat),
        pow2(w as nat) > 0,
{
    proof {
        lemma_pow2_pos(w as nat);
    }
    if w >= 64 {
        proof {
            lemma2_to64();
            vstd::arithmetic::div_mod::lemma_small_mod(p as nat, pow2(64));
        }
        p
    } else {
        proof {
            lemma_u64_pow2_no_overflow(w as nat);
            lemma_u64_shl_is_mul(1, w as u64);
        }
        let m = 1u64 << (w as u64);
        p % m
    }
}

/// `v as T`: see `cast_to`.
pub fn cast_value(v: &Value, ty: &FieldType) -> (res: Option<Value>)
    ensures
        res is Some == cast_to(v@, *ty) is Some,
        res is Some ==> res->0@ == cast_to(v@, *ty)->0,
{
    match ty {
        FieldType::UInt(b) => match pattern_of(v) {
            Some(p) => Some(Value::UInt(low_bits(p, rust_int_width(*b)))),
            None => None,
        },
        FieldType::USize => match pattern_of(v) {
            Some(p) => Some(Value::UInt(low_bits(p, usize::BITS as u8))),
            None => None,
        },
        FieldType::Int(b) => match pattern_of(v) {
            Some(p) => {
                let w = rust_int_width(*b);
                let r = low_bits(p, w);
                proof {
                    lemma2_to64();
                    lemma_pow2_pos((w - 1) as nat);
                    lemma_pow2_unfold(w as nat);
                }
                let half = low_bits(0x8000_0000_0000_0000u64 >> ((64 - w) as u64), 64);
                proof {
                    vstd::bits::lemma_u64_shr_is_div(0x8000_0000_0000_0000u64, (64 - w) as u64);
                    assert(pow2(63) == 0x8000_0000_0000_0000) by {
                        vstd::arithmetic::power2::lemma2_to64_rest();
                    }
                    vstd::arithmetic::power2::lemma_pow2_adds((w - 1) as nat, (64 - w) as nat);
                    vstd::arithmetic::div_mod::lemma_div_by_multiple(pow2((w - 1) as nat) as int, pow2((64 - w) as nat) as int);
                    assert(half as nat == pow2((w - 1) as nat));
                }
                if r >= half {
                    let full: i128 = 2 * (half as i128);
                    Some(Value::Int((r as i128 - full) as i64))
                } else {
                    Some(Value::Int(r as i64))
                }
            },
            None => None,
        },
        FieldType::Bytes(_) => match v {
            Value::Bytes(s) => Some(Value::Bytes(copy_byte_vec(s))),
            _ => None,
        },
        _ => None,
    }
}

} // verus!

verus! {

proof fn lemma_block_field_count_step(block: Seq<BlockRow>, j: int)
    requires
        0 <= j < block.len(),
    ensures
        block_field_count(block.subrange(0, j + 1)) == block_field_count(block.subrange(0, j))
            + match block[j] {
            BlockRow::Field(_) => 1nat,
            BlockRow::Consume(_) => 0nat,
        },
{
    assert(block.subrange(0, j + 1).drop_last() =~= block.subrange(0, j));
}

/// Appends one absent value for each field of `block`.
pub fn push_absent(vals: &mut Vec<Value>, block: &Vec<BlockRow>)
    ensures
        values_model(final(vals)@) == values_model(old(vals)@) + Seq::new(
            block_field_count(block@),
            |i: int| ValueModel::Opt(None),
        ),
{
    let ghost start = values_model(vals@);
    let mut j: usize = 0;
    while j < block.len()
        invariant
            j <= block@.len(),
            values_model(vals@) == start + Seq::new(
                block_field_count(block@.subrange(0, j as int)),
                |i: int| ValueModel::Opt(None),
            ),
        decreases block@.len() - j,
    {
        proof {
            lemma_block_field_count_step(block@, j as int);
        }
        match &block[j] {
            BlockRow::Field(_) => {
                let ghost before = vals@;
                vals.push(Value::Opt(None));
                proof {
                    lemma_values_model_push(before, Value::Opt(None));
                    assert(values_model(vals@) =~= start + Seq::new(
                        block_field_count(block@.subrange(0, j + 1)),
                        |i: int| ValueModel::Opt(None),
                    ));
                }
            },
            BlockRow::Consume(_) => {},
        }
        j = j + 1;
    }
    proof {
        assert(block@.subrange(0, block@.len() as int) =~= block@);
    }
}

proof fn lemma_rows_default_error(rows: Seq<Row>, k: nat, n: nat)
    requires
        k <= n <= rows.len(),
        rows_default(rows, k) is None,
    ensures
        rows_default(rows, n) is None,
    decreases n - k,
{
    if k < n {
        lemma_rows_default_error(rows, k, (n - 1) as nat);
    }
}

/// `Default::default()` for a field's Rust type; see `default_of`.
pub fn default_value(ty: &FieldType) -> (res: Option<Value>)
    ensures
        res is Some == default_of(*ty) is Some,
        res is Some ==> res->0@ == default_of(*ty)->0,
    decreases ty, 0nat,
{
    match ty {
        FieldType::UInt(_) => Some(Value::UInt(0)),
        FieldType::USize => Some(Value::UInt(0)),
        FieldType::Int(_) => Some(Value::Int(0)),
        FieldType::Bool => Some(Value::Bool(false)),
        FieldType::Bytes(_) => Some(Value::Bytes(Vec::new())),
        FieldType::CStr(_) => Some(Value::CStr(Vec::new())),
        FieldType::Array(n) => {
            let mut z: Vec<u8> = Vec::new();
            let mut i: u8 = 0;
            while i < *n
                invariant
                    i <= *n,
                    z@ == Seq::new(i as nat, |k: int| 0u8),
                decreases *n - i,
            {
                z.push(0);
                i = i + 1;
                proof {
                    assert(z@ =~= Seq::new(i as nat, |k: int| 0u8));
                }
            }
            Some(Value::Bytes(z))
        },
        FieldType::Optional(_) => Some(Value::Opt(None)),
        FieldType::Boxed(t) => default_value(t),
        FieldType::Exclude(t) => default_value(t),
        FieldType::Custom(l) => match &**l {
            Layout::Struct(rows) => match rows_default_values(rows) {
                Some(vs) => Some(Value::Record(vs)),
                None => None,
            },
            Layout::Enum(_) => None,
        },
    }
}

/// Defaults of the fields of all rows; see `rows_default`.
fn rows_default_values(rows: &Vec<Row>) -> (res: Option<Vec<Value>>)
    ensures
        res is Some == rows_default(rows@, rows@.len()) is Some,
        res is Some ==> values_model(res->0@) == rows_default(rows@, rows@.len())->0,
    decreases rows, rows@.len(),
{
    let mut vals: Vec<Value> = Vec::new();
    let mut i: usize = 0;
    while i < rows.len()
        invariant
            i <= rows@.len(),
            rows_default(rows@, i as nat) == Some(values_model(vals@)),
        decreases rows@.len() - i,
    {
        proof {
            assert(decreases_to!(rows => rows@[i as int]));
        }
        match &rows[i] {
            Row::Consume(_) => {},
            Row::Field(t) => {
                proof {
                    assert(decreases_to!(rows@[i as int] => *t));
                }
                match default_value(t) {
                    Some(d) => {
                        let ghost before = vals@;
                        vals.push(d);
                        proof {
                            lemma_values_model_push(before, d);
                        }
                    },
                    None => {
                        proof {
                            lemma_rows_default_error(rows@, (i + 1) as nat, rows@.len());
                        }
                        return None;
                    },
                }
            },
            Row::Cond(_, block) => {
                push_absent(&mut vals, block);
            },
        }
        i = i + 1;
    }
    Some(vals)
}

} // verus!

verus! {

/// How many fields a block declares; see `block_field_count`.
pub fn count_block_fields(block: &Vec<BlockRow>) -> (res: usize)
    ensures
        res as nat == block_field_count(block@),
{
    let mut c: usize = 0;
    let mut j: usize = 0;
    while j < block.len()
        invariant
            j <= block@.len(),
            c <= j,
            c as nat == block_field_count(block@.subrange(0, j as int)),
        decreases block@.len() - j,
    {
        proof {
            lemma_block_field_count_step(block@, j as int);
        }
        match &block[j] {
            BlockRow::Field(_) => {
                c = c + 1;
            },
            BlockRow::Consume(_) => {},
        }
        j = j + 1;
    }
    proof {
        assert(block@.subrange(0, block@.len() as int) =~= block@);
    }
    c
}

} // verus!

verus! {

impl Clone for Value {
    /// A deep copy.
    fn clone(&self) -> (res: Self)
        ensures
            res@ == self@,
    {
        copy_value(self)
    }
}

} // verus!
