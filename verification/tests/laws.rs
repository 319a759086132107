use network_parser_rs::bits::{read_bits, write_bits_exact};
use network_parser_rs::syntax::{type_keyword, TypeKeyword};
use network_parser_rs::validate::{validate_unsized_vecs, LayoutError};
use network_parser_rs::{
    decode, encode, parse_len, BinOp, BlockRow, EnumLayout, Expr, FieldType, IntType, Layout, ParseError, Row,
    Rule, Value, Variant, WriteError,
};

fn bx<T>(t: T) -> Box<T> {
    Box::new(t)
}

fn some(v: Value) -> Value {
    Value::Opt(Some(bx(v)))
}

fn mixed_layout() -> Layout {
    Layout::Struct(vec![
        Row::Field(FieldType::UInt(3)),
        Row::Consume(Expr::Lit(5)),
        Row::Field(FieldType::Bytes(Some(Expr::Field(0)))),
        Row::Field(FieldType::CStr(None)),
        Row::Cond(
            Expr::Bin(BinOp::Eq, bx(Expr::Field(0)), bx(Expr::Lit(2))),
            vec![
                BlockRow::Field(FieldType::UInt(16)),
                BlockRow::Consume(Expr::Lit(4)),
                BlockRow::Field(FieldType::Int(12)),
            ],
        ),
        Row::Field(FieldType::Bool),
        Row::Consume(Expr::Lit(7)),
        Row::Field(FieldType::Custom(bx(Layout::Struct(vec![Row::Field(FieldType::UInt(8))])))),
        Row::Field(FieldType::Bytes(None)),
        Row::Field(FieldType::Exclude(bx(FieldType::UInt(16)))),
    ])
}

#[test]
fn test_round_trip_with_present_block() {
    let value = Value::Record(vec![
        Value::UInt(2),
        Value::Bytes(vec![9, 8]),
        Value::CStr(b"hi".to_vec()),
        some(Value::UInt(1024)),
        some(Value::Int(-500)),
        Value::Bool(true),
        Value::Record(vec![Value::UInt(42)]),
        Value::Bytes(vec![1, 2, 3]),
        Value::UInt(0),
    ]);
    let bytes = encode(&mixed_layout(), &value).unwrap();
    assert_eq!(
        bytes,
        vec![0b0100_0000, 9, 8, b'h', b'i', 0, 0x04, 0x00, 0b0000_1110, 0b0000_1100, 0b1000_0000, 42, 1, 2, 3]
    );
    assert_eq!(decode(&mixed_layout(), &bytes), Ok(value));
}

#[test]
fn test_round_trip_with_absent_block() {
    let value = Value::Record(vec![
        Value::UInt(1),
        Value::Bytes(vec![7]),
        Value::CStr(Vec::new()),
        Value::Opt(None),
        Value::Opt(None),
        Value::Bool(false),
        Value::Record(vec![Value::UInt(5)]),
        Value::Bytes(Vec::new()),
        Value::UInt(0),
    ]);
    let bytes = encode(&mixed_layout(), &value).unwrap();
    assert_eq!(bytes, vec![0b0010_0000, 7, 0, 0, 5]);
    assert_eq!(decode(&mixed_layout(), &bytes), Ok(value));
    assert_eq!(parse_len(&mixed_layout(), &bytes).unwrap().1, 5);
}

#[test]
fn test_excluded_field_reads_as_default() {
    let mut value = vec![
        Value::UInt(0),
        Value::Bytes(Vec::new()),
        Value::CStr(Vec::new()),
        Value::Opt(None),
        Value::Opt(None),
        Value::Bool(false),
        Value::Record(vec![Value::UInt(0)]),
        Value::Bytes(Vec::new()),
        Value::UInt(999),
    ];
    let bytes = encode(&mixed_layout(), &Value::Record(value.clone())).unwrap();
    value[8] = Value::UInt(0);
    assert_eq!(decode(&mixed_layout(), &bytes), Ok(Value::Record(value)));
}

#[test]
fn test_enum_tag_round_trip() {
    let layout = Layout::Enum(EnumLayout {
        repr: FieldType::UInt(8),
        variants: vec![
            Variant { inner: None, rule: Rule::Exact(1) },
            Variant { inner: Some(FieldType::UInt(8)), rule: Rule::CatchAll },
        ],
    });
    let first = Value::Variant(0, None);
    let bytes = encode(&layout, &first).unwrap();
    assert_eq!(bytes, vec![1]);
    assert_eq!(decode(&layout, &bytes), Ok(first));
    let other = Value::Variant(1, Some(bx(Value::UInt(77))));
    let bytes = encode(&layout, &other).unwrap();
    assert_eq!(bytes, vec![77]);
    assert_eq!(decode(&layout, &bytes), Ok(other));
    // A catch-all value whose tag an earlier rule accepts decodes as that variant.
    let shadowed = Value::Variant(1, Some(bx(Value::UInt(1))));
    let bytes = encode(&layout, &shadowed).unwrap();
    assert_eq!(decode(&layout, &bytes), Ok(Value::Variant(0, None)));
}

fn one_field(after: FieldType) -> Layout {
    Layout::Struct(vec![Row::Field(FieldType::UInt(3)), Row::Field(after)])
}

#[test]
fn test_parse_errors() {
    assert_eq!(decode(&one_field(FieldType::Array(1)), &[0, 0]), Err(ParseError::UnalignedSlice));
    assert_eq!(decode(&one_field(FieldType::Bytes(None)), &[0, 0]), Err(ParseError::UnalignedVec));
    assert_eq!(decode(&one_field(FieldType::CStr(None)), &[0, 0]), Err(ParseError::UnalignedCStr));
    assert_eq!(decode(&one_field(FieldType::UInt(16)), &[0, 0]), Err(ParseError::Eof));
    assert_eq!(decode(&one_field(FieldType::Int(0)), &[0, 0]), Err(ParseError::BadLayout));
    let skip_far = Layout::Struct(vec![
        Row::Field(FieldType::UInt(1)),
        Row::Consume(Expr::Lit(usize::MAX as i128)),
    ]);
    assert_eq!(decode(&skip_far, &[0]), Err(ParseError::OffsetOverflow));
    let unnamed = Layout::Struct(vec![Row::Consume(Expr::Field(3))]);
    assert_eq!(decode(&unnamed, &[0]), Err(ParseError::BadExpression));
    assert_eq!(ParseError::UnalignedVec.message(), "Unaligned byte read for Vec");
    assert_eq!(ParseError::Eof.message(), "EOF");
}

#[test]
fn test_write_errors() {
    let rec = |v: Value| Value::Record(vec![Value::UInt(1), v]);
    assert_eq!(
        encode(&one_field(FieldType::Array(1)), &rec(Value::Bytes(vec![5]))),
        Err(WriteError::UnalignedSlice)
    );
    assert_eq!(
        encode(&one_field(FieldType::Bytes(None)), &rec(Value::Bytes(vec![5]))),
        Err(WriteError::UnalignedVec)
    );
    assert_eq!(
        encode(&one_field(FieldType::CStr(None)), &rec(Value::CStr(vec![5]))),
        Err(WriteError::UnalignedCStr)
    );
    assert_eq!(encode(&one_field(FieldType::UInt(65)), &rec(Value::UInt(1))), Err(WriteError::TooWide));
    assert_eq!(encode(&one_field(FieldType::UInt(8)), &rec(Value::Bool(true))), Err(WriteError::ShapeMismatch));
    let peeking = Layout::Struct(vec![Row::Consume(Expr::Peek(8))]);
    assert_eq!(encode(&peeking, &Value::Record(Vec::new())), Err(WriteError::BadExpression));
    assert_eq!(WriteError::TooWide.message(), "Write wider than 64 bits");
}

#[test]
fn test_bit_writes_merge_or_overwrite() {
    // Unaligned fields are OR-ed in, aligned whole-byte fields overwrite.
    let mut buffer = vec![0xFF, 0xFF];
    let mut off = 0;
    network_parser_rs::bits::write_bits(&mut buffer, &mut off, 12, 0);
    assert_eq!(buffer, vec![0xFF, 0xFF]);
    assert_eq!(off, 12);
    let mut off = 0;
    network_parser_rs::bits::write_bits(&mut buffer, &mut off, 16, 0x1234);
    assert_eq!(buffer, vec![0x12, 0x34]);
    let mut off = 4;
    write_bits_exact(&mut buffer, &mut off, 8, 0);
    assert_eq!(buffer, vec![0x10, 0x04]);
    let mut fresh = Vec::new();
    let mut off = 0;
    network_parser_rs::bits::write_bits(&mut fresh, &mut off, 3, 5);
    assert_eq!(fresh, vec![0b1010_0000]);
    let mut off = 0;
    assert_eq!(read_bits(&fresh, &mut off, 3), Ok(5));
    assert_eq!(off, 3);
    assert_eq!(read_bits(&fresh, &mut off, 6), Err(ParseError::Eof));
    assert_eq!(off, 3);
}

#[test]
fn test_validate_unsized_vecs() {
    let tail = vec![
        Row::Field(FieldType::UInt(8)),
        Row::Field(FieldType::Bytes(None)),
        Row::Field(FieldType::Exclude(bx(FieldType::UInt(16)))),
    ];
    assert_eq!(validate_unsized_vecs(&tail), Ok(()));
    let second = vec![Row::Field(FieldType::Bytes(None)), Row::Field(FieldType::Bytes(None))];
    assert_eq!(validate_unsized_vecs(&second), Err(LayoutError::SecondUnsizedVec { field: 1, first: 0 }));
    let field_after = vec![
        Row::Field(FieldType::UInt(8)),
        Row::Field(FieldType::Bytes(None)),
        Row::Cond(Expr::Lit(1), vec![BlockRow::Field(FieldType::UInt(8))]),
    ];
    assert_eq!(
        validate_unsized_vecs(&field_after),
        Err(LayoutError::FieldAfterUnsizedVec { field: 2, vec: 1 })
    );
    let consume_after = vec![Row::Field(FieldType::Bytes(None)), Row::Consume(Expr::Lit(3))];
    assert_eq!(validate_unsized_vecs(&consume_after), Err(LayoutError::ConsumeAfterUnsizedVec { vec: 0 }));
}

#[test]
fn test_type_keywords() {
    assert_eq!(type_keyword("bool"), TypeKeyword::Bool);
    assert_eq!(type_keyword("usize"), TypeKeyword::USize);
    assert_eq!(type_keyword("u12"), TypeKeyword::UInt(12));
    assert_eq!(type_keyword("i7"), TypeKeyword::Int(7));
    assert_eq!(type_keyword("u+3"), TypeKeyword::UInt(3));
    assert_eq!(type_keyword("u256"), TypeKeyword::Other);
    assert_eq!(type_keyword("Vec"), TypeKeyword::Vec);
    assert_eq!(type_keyword("Option"), TypeKeyword::Option);
    assert_eq!(type_keyword("Box"), TypeKeyword::Box);
    assert_eq!(type_keyword("CStr"), TypeKeyword::CStr);
    assert_eq!(type_keyword("u"), TypeKeyword::Other);
    assert_eq!(type_keyword("MyHeader"), TypeKeyword::Other);
}

#[test]
fn test_reencoding_reproduces_clean_bytes() {
    let layout = Layout::Struct(vec![
        Row::Field(FieldType::UInt(3)),
        Row::Consume(Expr::Lit(5)),
        Row::Field(FieldType::Bytes(Some(Expr::Field(0)))),
        Row::Field(FieldType::Int(4)),
        Row::Consume(Expr::Lit(4)),
    ]);
    let data = vec![0b0100_0000, 7, 9, 0b1110_0000];
    let value = decode(&layout, &data).unwrap();
    assert_eq!(encode(&layout, &value).unwrap(), data);
    // Skipped bits that are not zero do not survive re-encoding.
    let dirty = vec![0b0101_1111, 7, 9, 0b1110_1111];
    let value = decode(&layout, &dirty).unwrap();
    assert_eq!(encode(&layout, &value).unwrap(), data);
}

#[test]
fn test_write_offset_overflow() {
    let layout = Layout::Struct(vec![Row::Field(FieldType::UInt(8))]);
    let value = Value::Record(vec![Value::UInt(1)]);
    let mut buffer = Vec::new();
    let mut off = usize::MAX - 4;
    assert_eq!(
        network_parser_rs::write_bits(&layout, &value, &mut buffer, &mut off),
        Err(WriteError::OffsetOverflow)
    );
    assert_eq!(off, usize::MAX - 4);
}

#[test]
fn test_cstr_bounded_by_size_field() {
    let layout = Layout::Struct(vec![
        Row::Field(FieldType::UInt(8)),
        Row::Field(FieldType::CStr(Some(Expr::Field(0)))),
    ]);
    // The zero byte must lie within the first `n` bytes of the string.
    assert_eq!(decode(&layout, &[2, b'a', b'b', b'c', 0]), Err(ParseError::MissingNul));
    assert_eq!(decode(&layout, &[3, b'a', b'b', b'c', 0]), Err(ParseError::MissingNul));
    assert_eq!(
        decode(&layout, &[4, b'a', b'b', b'c', 0]),
        Ok(Value::Record(vec![Value::UInt(4), Value::CStr(b"abc".to_vec())]))
    );
    // A bound past the end of the data is the end of the data.
    assert_eq!(
        decode(&layout, &[9, b'a', 0]),
        Ok(Value::Record(vec![Value::UInt(9), Value::CStr(b"a".to_vec())]))
    );
    assert_eq!(decode(&layout, &[9, b'a']), Err(ParseError::MissingNul));
    // Writing ignores the bound.
    let value = Value::Record(vec![Value::UInt(4), Value::CStr(b"abc".to_vec())]);
    assert_eq!(encode(&layout, &value).unwrap(), vec![4, b'a', b'b', b'c', 0]);
}

#[test]
fn test_round_trip_with_nested_enum() {
    let tag = Layout::Enum(EnumLayout {
        repr: FieldType::UInt(4),
        variants: vec![
            Variant { inner: None, rule: Rule::Exact(1) },
            Variant { inner: Some(FieldType::UInt(4)), rule: Rule::CatchAll },
        ],
    });
    let layout = Layout::Struct(vec![
        Row::Field(FieldType::UInt(8)),
        Row::Field(FieldType::Custom(bx(tag))),
        Row::Field(FieldType::UInt(4)),
    ]);
    let value = Value::Record(vec![Value::UInt(9), Value::Variant(1, Some(bx(Value::UInt(7)))), Value::UInt(3)]);
    let bytes = encode(&layout, &value).unwrap();
    assert_eq!(bytes, vec![9, 0x73]);
    assert_eq!(decode(&layout, &bytes), Ok(value));
    let exact = Value::Record(vec![Value::UInt(0), Value::Variant(0, None), Value::UInt(15)]);
    let bytes = encode(&layout, &exact).unwrap();
    assert_eq!(bytes, vec![0, 0x1F]);
    assert_eq!(decode(&layout, &bytes), Ok(exact));
}

#[test]
fn test_round_trip_with_peek_condition() {
    // if peek(16) == 0x8100 { tpid: u16, tci: u16 } ether_type: u16
    let layout = Layout::Struct(vec![
        Row::Cond(
            Expr::Bin(BinOp::Eq, bx(Expr::Peek(16)), bx(Expr::Lit(0x8100))),
            vec![BlockRow::Field(FieldType::UInt(16)), BlockRow::Field(FieldType::UInt(16))],
        ),
        Row::Field(FieldType::UInt(16)),
    ]);
    let tagged = Value::Record(vec![some(Value::UInt(0x8100)), some(Value::UInt(5)), Value::UInt(0x0800)]);
    let bytes = encode(&layout, &tagged).unwrap();
    assert_eq!(bytes, vec![0x81, 0x00, 0x00, 0x05, 0x08, 0x00]);
    assert_eq!(decode(&layout, &bytes), Ok(tagged));
    let plain = Value::Record(vec![Value::Opt(None), Value::Opt(None), Value::UInt(0x0800)]);
    let bytes = encode(&layout, &plain).unwrap();
    assert_eq!(bytes, vec![0x08, 0x00]);
    assert_eq!(decode(&layout, &bytes), Ok(plain));
}

#[test]
fn test_casts_wrap_as_rust_does() {
    // n: u16, data: Vec<u8>; n as u8 -- 300 as u8 is 44.
    let layout = Layout::Struct(vec![
        Row::Field(FieldType::UInt(16)),
        Row::Field(FieldType::Bytes(Some(Expr::Cast(IntType::U8, bx(Expr::Field(0)))))),
    ]);
    let mut data = vec![0x01, 0x2C];
    data.extend(std::iter::repeat(7u8).take(44));
    let value = decode(&layout, &data).unwrap();
    assert_eq!(value, Value::Record(vec![Value::UInt(300), Value::Bytes(vec![7; 44])]));
    // 200 as i8 is -56: a negative size has no value.
    let signed = Layout::Struct(vec![
        Row::Field(FieldType::UInt(8)),
        Row::Field(FieldType::Bytes(Some(Expr::Cast(IntType::I8, bx(Expr::Field(0)))))),
    ]);
    assert_eq!(decode(&signed, &[200, 1, 2]), Err(ParseError::BadExpression));
    assert_eq!(
        decode(&signed, &[2, 1, 2]),
        Ok(Value::Record(vec![Value::UInt(2), Value::Bytes(vec![1, 2])]))
    );
}

#[test]
fn test_operators_evaluate_as_rust_does() {
    // n: u8, data: Vec<u8>; (n / 3 - n % 4) << 1 >> 1 ^ 0 | 0 & 7
    let size = |op: BinOp, a: Expr, b: Expr| Expr::Bin(op, bx(a), bx(b));
    let e = size(
        BinOp::BitOr,
        size(
            BinOp::BitXor,
            size(
                BinOp::Shr,
                size(
                    BinOp::Shl,
                    size(
                        BinOp::Sub,
                        size(BinOp::Div, Expr::Field(0), Expr::Lit(3)),
                        size(BinOp::Rem, Expr::Field(0), Expr::Lit(4)),
                    ),
                    Expr::Lit(1),
                ),
                Expr::Lit(1),
            ),
            Expr::Lit(0),
        ),
        size(BinOp::BitAnd, Expr::Lit(0), Expr::Lit(7)),
    );
    let layout = Layout::Struct(vec![Row::Field(FieldType::UInt(8)), Row::Field(FieldType::Bytes(Some(e)))]);
    // 14 / 3 - 14 % 4 = 4 - 2 = 2
    assert_eq!(
        decode(&layout, &[14, 5, 6, 7]),
        Ok(Value::Record(vec![Value::UInt(14), Value::Bytes(vec![5, 6])]))
    );
    // Division by zero has no value.
    let by_zero = Layout::Struct(vec![
        Row::Field(FieldType::UInt(8)),
        Row::Consume(Expr::Bin(BinOp::Div, bx(Expr::Lit(8)), bx(Expr::Field(0)))),
    ]);
    assert_eq!(decode(&by_zero, &[0, 0]), Err(ParseError::BadExpression));
    // Division truncates toward zero: -7 / 2 == -3, -7 % 2 == -1, and -8 >> 1 == -4.
    let neg = |op: BinOp, y: i128| {
        Layout::Struct(vec![
            Row::Field(FieldType::UInt(8)),
            Row::Field(FieldType::Bytes(Some(Expr::Bin(
                BinOp::Add,
                bx(Expr::Bin(op, bx(Expr::Lit(-7)), bx(Expr::Lit(y)))),
                bx(Expr::Lit(4)),
            )))),
        ])
    };
    assert_eq!(decode(&neg(BinOp::Div, 2), &[0, 1]), Ok(Value::Record(vec![Value::UInt(0), Value::Bytes(vec![1])])));
    assert_eq!(
        decode(&neg(BinOp::Rem, 2), &[0, 1, 2, 3]),
        Ok(Value::Record(vec![Value::UInt(0), Value::Bytes(vec![1, 2, 3])]))
    );
    assert_eq!(decode(&neg(BinOp::Shr, 1), &[0]), Ok(Value::Record(vec![Value::UInt(0), Value::Bytes(vec![])])));
}

#[test]
fn test_enumerations_reencode() {
    let tag = Layout::Enum(EnumLayout {
        repr: FieldType::UInt(8),
        variants: vec![
            Variant { inner: None, rule: Rule::Exact(1) },
            Variant { inner: Some(FieldType::UInt(8)), rule: Rule::CatchAll },
        ],
    });
    for data in [vec![1u8], vec![77u8]] {
        let value = decode(&tag, &data).unwrap();
        assert_eq!(encode(&tag, &value).unwrap(), data);
    }
    // Nested in a record.
    let record = Layout::Struct(vec![Row::Field(FieldType::UInt(8)), Row::Field(FieldType::Custom(bx(tag)))]);
    let data = vec![3, 200];
    let value = decode(&record, &data).unwrap();
    assert_eq!(encode(&record, &value).unwrap(), data);
}

#[test]
fn test_not_is_logical_on_booleans_and_bitwise_on_integers() {
    // flag: bool, n: u8, if !flag { a: u8 } if !n == -4 { b: u8 }
    let layout = Layout::Struct(vec![
        Row::Field(FieldType::Bool),
        Row::Consume(Expr::Lit(7)),
        Row::Field(FieldType::UInt(8)),
        Row::Cond(Expr::Not(bx(Expr::Field(0))), vec![BlockRow::Field(FieldType::UInt(8))]),
        Row::Cond(
            Expr::Bin(BinOp::Eq, bx(Expr::Not(bx(Expr::Field(1)))), bx(Expr::Lit(-4))),
            vec![BlockRow::Field(FieldType::UInt(8))],
        ),
    ]);
    assert_eq!(
        decode(&layout, &[0, 3, 10, 11]),
        Ok(Value::Record(vec![
            Value::Bool(false),
            Value::UInt(3),
            some(Value::UInt(10)),
            some(Value::UInt(11)),
        ]))
    );
    assert_eq!(
        decode(&layout, &[0x80, 5]),
        Ok(Value::Record(vec![Value::Bool(true), Value::UInt(5), Value::Opt(None), Value::Opt(None)]))
    );
    // `!true` is false.
    let never = Layout::Struct(vec![Row::Cond(Expr::Not(bx(Expr::Bool(true))), vec![BlockRow::Field(FieldType::UInt(8))])]);
    assert_eq!(decode(&never, &[]), Ok(Value::Record(vec![Value::Opt(None)])));
}
