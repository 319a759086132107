//! Layouts, expressions and values, with the mathematical model of values.

use vstd::prelude::*;

verus! {

/// Binary operators of layout expressions; comparisons and the logical
/// operators yield 1 for true and 0 for false. Division and remainder
/// truncate toward zero, the bitwise operators and shifts act on the
/// 128-bit two's complement pattern, as Rust's do on `i128`.
#[derive(Clone, Copy, Debug, PartialEq, Eq, Structural)]
pub enum BinOp {
    Add,
    Sub,
    Mul,
    Div,
    Rem,
    BitAnd,
    BitOr,
    BitXor,
    Shl,
    Shr,
    Eq,
    Ne,
    Lt,
    Le,
    Gt,
    Ge,
    And,
    Or,
}

/// The integer types that an expression may be cast to with `as`.
#[derive(Clone, Copy, Debug, PartialEq, Eq, Structural)]
pub enum IntType {
    U8,
    U16,
    U32,
    U64,
    U128,
    USize,
    I8,
    I16,
    I32,
    I64,
    I128,
    ISize,
}

/// An integer expression of a layout: a skip amount, the size of a byte
/// vector, the condition of an optional block or of an enum variant.
#[derive(Debug)]
pub enum Expr {
    /// An integer literal.
    Lit(i128),
    /// `true` or `false`: 1 or 0.
    Bool(bool),
    /// The integer value of a field decoded earlier, by its position among
    /// the fields of the record.
    Field(usize),
    /// `peek(bits)`: the next `bits` bits read without consuming them, or 0
    /// when the data is too short.
    Peek(usize),
    /// The tag of an enumeration (`self` or `tag_value` in its rules).
    Tag,
    /// The length of a byte-vector tag (`self.len()`).
    TagLen,
    /// `!x`: logical negation of a boolean, bitwise complement of an
    /// integer.
    Not(Box<Expr>),
    /// `e as T`: the value converted to the integer type `T`, wrapping as
    /// Rust's `as` does.
    Cast(IntType, Box<Expr>),
    /// A parenthesized expression, whose parentheses are the token at `.0`
    /// of the tokens it was read from.
    Paren(usize, Box<Expr>),
    /// Code of the definition's own that the library does not read (a
    /// function call, a named constant): the tokens `.0 .. .1` of the tokens
    /// it was read from. It has no value here; whoever builds the layout
    /// evaluates it and puts its value in its place.
    Extern(usize, usize),
    /// A binary operation.
    Bin(BinOp, Box<Expr>, Box<Expr>),
}

/// How one field is laid out in the bit stream.
#[derive(Debug)]
pub enum FieldType {
    /// `uN`: an N-bit unsigned integer.
    UInt(u8),
    /// `iN`: an N-bit two's complement integer.
    Int(u8),
    /// `bool`: one bit.
    Bool,
    /// `usize`: an unsigned integer as wide as the machine word.
    USize,
    /// `Vec<u8>`: a byte vector of the given size, or all remaining bytes.
    Bytes(Option<Expr>),
    /// `CStr`: bytes up to a terminating zero byte; with a size, the zero
    /// byte lies within that many bytes.
    CStr(Option<Expr>),
    /// `[u8; N]`: exactly N bytes.
    Array(u8),
    /// `Option<T>`: always decoded; written only when present.
    Optional(Box<FieldType>),
    /// `Box<T>`: laid out as `T`.
    Boxed(Box<FieldType>),
    /// A field kept out of the stream; it decodes to the default of `T`.
    Exclude(Box<FieldType>),
    /// A nested record or enumeration.
    Custom(Box<Layout>),
}

/// An entry inside an optional block.
#[derive(Debug)]
pub enum BlockRow {
    /// `consume(n)`: skip `n` bits.
    Consume(Expr),
    /// A field that is present only when the block is.
    Field(FieldType),
}

/// One entry of a record layout.
#[derive(Debug)]
pub enum Row {
    /// `consume(n)`: skip `n` bits.
    Consume(Expr),
    /// A field.
    Field(FieldType),
    /// `if cond { .. }`: a block decoded only when `cond` holds.
    Cond(Expr, Vec<BlockRow>),
}

/// What an assignment rule stores in its variant.
#[derive(Debug)]
pub enum Assigned {
    /// The tag itself (`self.clone()`).
    Tag,
    /// A fixed value.
    Value(Value),
}

/// How an enumeration variant is chosen from its tag.
#[derive(Debug)]
pub enum Rule {
    /// `== value`: the tag equals the literal.
    Exact(i128),
    /// `< 1524` and the like: the expression over the tag holds.
    Condition(Expr),
    /// `_`: any tag.
    CatchAll,
    /// `= value if cond`: the condition over the tag holds.
    Assign(Assigned, Expr),
}

/// One variant of an enumeration.
#[derive(Debug)]
pub struct Variant {
    pub inner: Option<FieldType>,
    pub rule: Rule,
}

/// An enumeration decoded from a tag of type `repr`.
#[derive(Debug)]
pub struct EnumLayout {
    pub repr: FieldType,
    pub variants: Vec<Variant>,
}

/// The layout of a record (`make_struct!`) or an enumeration (`make_enum!`).
#[derive(Debug)]
pub enum Layout {
    Struct(Vec<Row>),
    Enum(EnumLayout),
}

/// A decoded value.
#[derive(Debug, PartialEq, Eq)]
pub enum Value {
    UInt(u64),
    Int(i64),
    Bool(bool),
    Bytes(Vec<u8>),
    CStr(Vec<u8>),
    Opt(Option<Box<Value>>),
    Record(Vec<Value>),
    Variant(usize, Option<Box<Value>>),
}

/// The mathematical model of a `Value`.
pub enum ValueModel {
    UInt(u64),
    Int(i64),
    Bool(bool),
    Bytes(Seq<u8>),
    CStr(Seq<u8>),
    Opt(Option<Box<ValueModel>>),
    Record(Seq<ValueModel>),
    Variant(usize, Option<Box<ValueModel>>),
}

pub open spec fn value_model(v: Value) -> ValueModel
    decreases v,
{
    match v {
        Value::UInt(u) => ValueModel::UInt(u),
        Value::Int(i) => ValueModel::Int(i),
        Value::Bool(b) => ValueModel::Bool(b),
        Value::Bytes(b) => ValueModel::Bytes(b@),
        Value::CStr(b) => ValueModel::CStr(b@),
        Value::Opt(o) => match o {
            Some(b) => ValueModel::Opt(Some(Box::new(value_model(*b)))),
            None => ValueModel::Opt(None),
        },
        Value::Record(vs) => ValueModel::Record(values_model(vs@)),
        Value::Variant(i, o) => match o {
            Some(b) => ValueModel::Variant(i, Some(Box::new(value_model(*b)))),
            None => ValueModel::Variant(i, None),
        },
    }
}

pub open spec fn values_model(vs: Seq<Value>) -> Seq<ValueModel>
    decreases vs,
{
    if vs.len() == 0 {
        Seq::empty()
    } else {
        values_model(vs.drop_last()).push(value_model(vs.last()))
    }
}

impl View for Value {
    type V = ValueModel;

    open spec fn view(&self) -> ValueModel {
        value_model(*self)
    }
}

} // verus!

verus! {

/// `values_model` maps each value to its model, position by position.
pub proof fn lemma_values_model(vs: Seq<Value>)
    ensures
        values_model(vs).len() == vs.len(),
        forall|k: int| 0 <= k < vs.len() ==> #[trigger] values_model(vs)[k] == value_model(vs[k]),
    decreases vs.len(),
{
    if vs.len() > 0 {
        lemma_values_model(vs.drop_last());
        assert forall|k: int| 0 <= k < vs.len() implies #[trigger] values_model(vs)[k] == value_model(
            vs[k],
        ) by {
            if k < vs.len() - 1 {
                assert(vs.drop_last()[k] == vs[k]);
            }
        }
    }
}

/// Appending a value appends its model.
pub proof fn lemma_values_model_push(vs: Seq<Value>, v: Value)
    ensures
        values_model(vs.push(v)) == values_model(vs).push(value_model(v)),
{
    assert(vs.push(v).drop_last() == vs);
}

} // verus!
