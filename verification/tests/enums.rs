use network_parser_rs::{
    decode, encode, Assigned, BinOp, EnumLayout, Expr, FieldType, Layout, NetworkParse, ParseError, Rule,
    Value, Variant,
};

fn bx<T>(t: T) -> Box<T> {
    Box::new(t)
}

// make_enum! { #[derive(Debug, Clone, PartialEq)] TestEnum: u16 {
//     field1 == 123, field2(u8) == 542,
//     field5(Vec<u8>) = vec![1, 2, 3] if tag_value == 555,
//     field3(u16) < 1524, field4(u16) _ } }
#[allow(non_camel_case_types)]
#[derive(Debug, Clone, PartialEq)]
pub enum TestEnum {
    field1,
    field2(u8),
    field5(Vec<u8>),
    field3(u16),
    field4(u16),
}

fn test_enum_layout() -> Layout {
    Layout::Enum(EnumLayout {
        repr: FieldType::UInt(16),
        variants: vec![
            Variant { inner: None, rule: Rule::Exact(123) },
            Variant { inner: Some(FieldType::UInt(8)), rule: Rule::Exact(542) },
            Variant {
                inner: Some(FieldType::Bytes(None)),
                rule: Rule::Assign(
                    Assigned::Value(Value::Bytes(vec![1, 2, 3])),
                    Expr::Bin(BinOp::Eq, bx(Expr::Tag), bx(Expr::Lit(555))),
                ),
            },
            Variant {
                inner: Some(FieldType::UInt(16)),
                rule: Rule::Condition(Expr::Bin(BinOp::Lt, bx(Expr::Tag), bx(Expr::Lit(1524)))),
            },
            Variant { inner: Some(FieldType::UInt(16)), rule: Rule::CatchAll },
        ],
    })
}

fn inner_uint(v: &Option<Box<Value>>) -> u64 {
    match v.as_deref() {
        Some(Value::UInt(u)) => *u,
        _ => panic!("not an unsigned integer"),
    }
}

fn inner_bytes(v: &Option<Box<Value>>) -> Vec<u8> {
    match v.as_deref() {
        Some(Value::Bytes(b)) => b.clone(),
        _ => panic!("not bytes"),
    }
}

impl TestEnum {
    fn to_value(&self) -> Value {
        match self {
            TestEnum::field1 => Value::Variant(0, None),
            TestEnum::field2(x) => Value::Variant(1, Some(bx(Value::UInt(*x as u64)))),
            TestEnum::field5(x) => Value::Variant(2, Some(bx(Value::Bytes(x.clone())))),
            TestEnum::field3(x) => Value::Variant(3, Some(bx(Value::UInt(*x as u64)))),
            TestEnum::field4(x) => Value::Variant(4, Some(bx(Value::UInt(*x as u64)))),
        }
    }

    fn from_value(v: Value) -> Self {
        match v {
            Value::Variant(0, _) => TestEnum::field1,
            Value::Variant(1, x) => TestEnum::field2(inner_uint(&x) as u8),
            Value::Variant(2, x) => TestEnum::field5(inner_bytes(&x)),
            Value::Variant(3, x) => TestEnum::field3(inner_uint(&x) as u16),
            Value::Variant(4, x) => TestEnum::field4(inner_uint(&x) as u16),
            _ => panic!("not a variant"),
        }
    }
}

impl NetworkParse for TestEnum {
    fn parse_bits(data: &[u8], bit_offset: &mut usize) -> Result<Self, &'static str> {
        network_parser_rs::parse_bits(&test_enum_layout(), data, bit_offset)
            .map(Self::from_value)
            .map_err(|e| e.message())
    }

    fn write_bits(&self, buffer: &mut Vec<u8>, bit_offset: &mut usize) {
        if let Err(e) = network_parser_rs::write_bits(&test_enum_layout(), &self.to_value(), buffer, bit_offset) {
            panic!("{}", e.message());
        }
    }
}

// make_enum! { #[derive(Clone, Debug, PartialEq)] EthIpType: Vec<u8> {
//     IPv4(Vec<u8>) = self.clone() if self.len() == 4, IPv6(Vec<u8>) _ } }
#[derive(Clone, Debug, PartialEq)]
pub enum EthIpType {
    IPv4(Vec<u8>),
    IPv6(Vec<u8>),
}

fn eth_ip_layout() -> Layout {
    Layout::Enum(EnumLayout {
        repr: FieldType::Bytes(None),
        variants: vec![
            Variant {
                inner: Some(FieldType::Bytes(None)),
                rule: Rule::Assign(Assigned::Tag, Expr::Bin(BinOp::Eq, bx(Expr::TagLen), bx(Expr::Lit(4)))),
            },
            Variant { inner: Some(FieldType::Bytes(None)), rule: Rule::CatchAll },
        ],
    })
}

impl NetworkParse for EthIpType {
    fn parse_bits(data: &[u8], bit_offset: &mut usize) -> Result<Self, &'static str> {
        match network_parser_rs::parse_bits(&eth_ip_layout(), data, bit_offset).map_err(|e| e.message())? {
            Value::Variant(0, x) => Ok(EthIpType::IPv4(inner_bytes(&x))),
            Value::Variant(1, x) => Ok(EthIpType::IPv6(inner_bytes(&x))),
            _ => Err("Invalid enum variant tag"),
        }
    }

    fn write_bits(&self, buffer: &mut Vec<u8>, bit_offset: &mut usize) {
        let v = match self {
            EthIpType::IPv4(x) => Value::Variant(0, Some(bx(Value::Bytes(x.clone())))),
            EthIpType::IPv6(x) => Value::Variant(1, Some(bx(Value::Bytes(x.clone())))),
        };
        if let Err(e) = network_parser_rs::write_bits(&eth_ip_layout(), &v, buffer, bit_offset) {
            panic!("{}", e.message());
        }
    }
}

#[test]
fn test_enum() {
    let mut buffer = Vec::new();
    let mut bit_offset = 0;
    let e1 = TestEnum::field1;
    e1.write_bits(&mut buffer, &mut bit_offset);

    let mut bit_offset = 0;
    let parsed = TestEnum::parse_bits(&buffer, &mut bit_offset).unwrap();
    assert_eq!(parsed, TestEnum::field1);

    let mut buffer2 = Vec::new();
    let mut bit_offset2 = 0;
    let e2 = TestEnum::field2(0);
    e2.write_bits(&mut buffer2, &mut bit_offset2);

    let mut bit_offset2 = 0;
    let parsed2 = TestEnum::parse_bits(&buffer2, &mut bit_offset2).unwrap();
    assert_eq!(parsed2, TestEnum::field2(0));

    let mut buffer3 = Vec::new();
    let mut bit_offset3 = 0;
    let e3 = TestEnum::field3(1000);
    e3.write_bits(&mut buffer3, &mut bit_offset3);

    let mut bit_offset3 = 0;
    let parsed3 = TestEnum::parse_bits(&buffer3, &mut bit_offset3).unwrap();
    assert_eq!(parsed3, TestEnum::field3(1000));

    let mut buffer4 = Vec::new();
    let mut bit_offset4 = 0;
    let e4 = TestEnum::field4(2000);
    e4.write_bits(&mut buffer4, &mut bit_offset4);

    let mut bit_offset4 = 0;
    let parsed4 = TestEnum::parse_bits(&buffer4, &mut bit_offset4).unwrap();
    assert_eq!(parsed4, TestEnum::field4(2000));

    let data6 = vec![1, 2, 3, 4];
    let mut bit_offset6 = 0;
    let parsed6 = EthIpType::parse_bits(&data6, &mut bit_offset6).unwrap();
    assert_eq!(parsed6, EthIpType::IPv4(vec![1, 2, 3, 4]));

    let data7 = vec![1, 2, 3, 4, 5, 6];
    let mut bit_offset7 = 0;
    let parsed7 = EthIpType::parse_bits(&data7, &mut bit_offset7).unwrap();
    assert_eq!(parsed7, EthIpType::IPv6(vec![1, 2, 3, 4, 5, 6]));
}

#[test]
fn test_enum_tags_written() {
    assert_eq!(encode(&test_enum_layout(), &TestEnum::field1.to_value()).unwrap(), vec![0, 123]);
    assert_eq!(encode(&test_enum_layout(), &TestEnum::field2(9).to_value()).unwrap(), vec![0x02, 0x1E]);
    // An assignment variant writes the default tag.
    assert_eq!(encode(&test_enum_layout(), &TestEnum::field5(vec![1]).to_value()).unwrap(), vec![0, 0]);
    assert_eq!(encode(&test_enum_layout(), &TestEnum::field4(2000).to_value()).unwrap(), vec![0x07, 0xD0]);
}

#[test]
fn test_enum_assignment_and_invalid_tag() {
    let v = decode(&test_enum_layout(), &[0x02, 0x2B]).unwrap();
    assert_eq!(TestEnum::from_value(v), TestEnum::field5(vec![1, 2, 3]));
    // Without a catch-all, a tag that no rule accepts is an error, and the
    // offset has moved past the tag.
    let strict = Layout::Enum(EnumLayout {
        repr: FieldType::UInt(8),
        variants: vec![Variant { inner: None, rule: Rule::Exact(1) }],
    });
    let mut off = 0;
    assert_eq!(network_parser_rs::parse_bits(&strict, &[2], &mut off), Err(ParseError::InvalidTag));
    assert_eq!(off, 8);
    assert_eq!(network_parser_rs::parse_len(&strict, &[1, 7]).unwrap(), (Value::Variant(0, None), 1));
}
