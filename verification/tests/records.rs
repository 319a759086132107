use network_parser_rs::decode::parse_row_at;
use network_parser_rs::encode::write_row_at;
use network_parser_rs::{
    decode, encode, BinOp, BlockRow, Expr, FieldType, Layout, NetworkParse, ParseError, Row, Value,
};

fn bx<T>(t: T) -> Box<T> {
    Box::new(t)
}

fn uint(v: &Value) -> u64 {
    match v {
        Value::UInt(u) => *u,
        _ => panic!("not an unsigned integer"),
    }
}

fn sint(v: &Value) -> i64 {
    match v {
        Value::Int(i) => *i,
        _ => panic!("not a signed integer"),
    }
}

fn bytes(v: &Value) -> Vec<u8> {
    match v {
        Value::Bytes(b) => b.clone(),
        _ => panic!("not bytes"),
    }
}

fn array4(v: &Value) -> [u8; 4] {
    let b = bytes(v);
    [b[0], b[1], b[2], b[3]]
}

fn opt(v: &Value) -> Option<&Value> {
    match v {
        Value::Opt(Some(x)) => Some(&**x),
        Value::Opt(None) => None,
        _ => panic!("not optional"),
    }
}

fn fields(v: Value) -> Vec<Value> {
    match v {
        Value::Record(vs) => vs,
        _ => panic!("not a record"),
    }
}

// make_struct! { TestStruct {
//     field1: u3, consume(5) field2: u5, consume(3)
//     field3: Vec<u8>;field2, field4: CStr,
//     if field1 == 7 { field5: u16, field6: [u8; 4], }
//     field7: i12, consume(4) field8: [u8;4]
// }}
pub struct TestStruct {
    pub field1: u8,
    pub field2: u8,
    pub field3: Vec<u8>,
    /// The bytes of the C string, without its terminating zero.
    pub field4: Vec<u8>,
    pub field5: Option<u16>,
    pub field6: Option<[u8; 4]>,
    pub field7: i16,
    pub field8: [u8; 4],
}

fn test_struct_layout() -> Layout {
    Layout::Struct(vec![
        Row::Field(FieldType::UInt(3)),
        Row::Consume(Expr::Lit(5)),
        Row::Field(FieldType::UInt(5)),
        Row::Consume(Expr::Lit(3)),
        Row::Field(FieldType::Bytes(Some(Expr::Field(1)))),
        Row::Field(FieldType::CStr(None)),
        Row::Cond(
            Expr::Bin(BinOp::Eq, bx(Expr::Field(0)), bx(Expr::Lit(7))),
            vec![BlockRow::Field(FieldType::UInt(16)), BlockRow::Field(FieldType::Array(4))],
        ),
        Row::Field(FieldType::Int(12)),
        Row::Consume(Expr::Lit(4)),
        Row::Field(FieldType::Array(4)),
    ])
}

impl TestStruct {
    fn to_value(&self) -> Value {
        Value::Record(vec![
            Value::UInt(self.field1 as u64),
            Value::UInt(self.field2 as u64),
            Value::Bytes(self.field3.clone()),
            Value::CStr(self.field4.clone()),
            Value::Opt(self.field5.map(|x| bx(Value::UInt(x as u64)))),
            Value::Opt(self.field6.map(|x| bx(Value::Bytes(x.to_vec())))),
            Value::Int(self.field7 as i64),
            Value::Bytes(self.field8.to_vec()),
        ])
    }

    fn from_value(v: Value) -> Self {
        let vs = fields(v);
        TestStruct {
            field1: uint(&vs[0]) as u8,
            field2: uint(&vs[1]) as u8,
            field3: bytes(&vs[2]),
            field4: match &vs[3] {
                Value::CStr(b) => b.clone(),
                _ => panic!("not a C string"),
            },
            field5: opt(&vs[4]).map(|x| uint(x) as u16),
            field6: opt(&vs[5]).map(array4),
            field7: sint(&vs[6]) as i16,
            field8: array4(&vs[7]),
        }
    }
}

impl NetworkParse for TestStruct {
    fn parse_bits(data: &[u8], bit_offset: &mut usize) -> Result<Self, &'static str> {
        network_parser_rs::parse_bits(&test_struct_layout(), data, bit_offset)
            .map(Self::from_value)
            .map_err(|e| e.message())
    }

    fn write_bits(&self, buffer: &mut Vec<u8>, bit_offset: &mut usize) {
        if let Err(e) = network_parser_rs::write_bits(&test_struct_layout(), &self.to_value(), buffer, bit_offset) {
            panic!("{}", e.message());
        }
    }
}

impl TryFrom<Vec<u8>> for TestStruct {
    type Error = &'static str;
    fn try_from(data: Vec<u8>) -> Result<Self, Self::Error> {
        let mut bit_offset = 0;
        <Self as NetworkParse>::parse_bits(&data, &mut bit_offset)
    }
}

impl From<TestStruct> for Vec<u8> {
    fn from(val: TestStruct) -> Vec<u8> {
        let mut buffer = Vec::new();
        let mut bit_offset = 0;
        val.write_bits(&mut buffer, &mut bit_offset);
        buffer
    }
}

#[test]
fn test_struct_fields_exist() {
    let instance = TestStruct {
        field1: 7,
        field2: 3,
        field3: vec![1, 2, 3],
        field4: b"test".to_vec(),
        field5: Some(1024),
        field6: Some([10, 20, 30, 40]),
        field7: -500,
        field8: [6, 6, 6, 6],
    };
    assert_eq!(instance.field1, 7);
}

#[test]
fn test_try_from_vec() {
    let data: Vec<u8> = vec![
        0b1110_0000,
        0b0001_1000,
        0x01, 0x02, 0x03,
        b't', b'e', b's', b't', 0x00,
        0x04, 0x00,
        10, 20, 30, 40,
        0b1110_0000, 0b1100_0000,
        6, 6, 6, 6,
    ];

    let parsed = TestStruct::try_from(data).unwrap();
    assert_eq!(parsed.field1, 7);
    assert_eq!(parsed.field2, 3);
    assert_eq!(parsed.field3, vec![1, 2, 3]);
    assert_eq!(parsed.field4, b"test".to_vec());
    assert_eq!(parsed.field5, Some(1024));
    assert_eq!(parsed.field6, Some([10, 20, 30, 40]));
    assert_eq!(parsed.field7, -500);
}

#[test]
fn test_into_vec() {
    let instance = TestStruct {
        field1: 7,
        field2: 3,
        field3: vec![1, 2, 3],
        field4: b"test".to_vec(),
        field5: Some(1024),
        field6: Some([10, 20, 30, 40]),
        field7: -500,
        field8: [6, 6, 6, 6],
    };

    let data: Vec<u8> = instance.into();

    let expected_data: Vec<u8> = vec![
        0b1110_0000,
        0b0001_1000,
        0x01, 0x02, 0x03,
        b't', b'e', b's', b't', 0x00,
        0x04, 0x00,
        10, 20, 30, 40,
        0b1110_0000, 0b1100_0000,
        6, 6, 6, 6,
    ];

    assert_eq!(data, expected_data);
}

#[test]
fn test_struct_layout_decodes_directly() {
    let data: Vec<u8> = vec![
        0b1110_0000, 0b0001_1000, 1, 2, 3, b't', b'e', b's', b't', 0, 4, 0, 10, 20, 30, 40,
        0b1110_0000, 0b1100_0000, 6, 6, 6, 6,
    ];
    let v = decode(&test_struct_layout(), &data).unwrap();
    assert_eq!(encode(&test_struct_layout(), &v).unwrap(), data);
}

#[test]
fn test_condition_false_skips_block() {
    // field1 = 3, so the block is absent and field7 follows the C string.
    let data: Vec<u8> = vec![0b0110_0000, 0b0000_1000, 9, 0, 0x00, 0x10, 1, 2, 3, 4];
    let parsed = TestStruct::try_from(data).unwrap();
    assert_eq!(parsed.field1, 3);
    assert_eq!(parsed.field3, vec![9]);
    assert_eq!(parsed.field4, b"".to_vec());
    assert_eq!(parsed.field5, None);
    assert_eq!(parsed.field6, None);
    assert_eq!(parsed.field7, 1);
    assert_eq!(parsed.field8, [1, 2, 3, 4]);
}

#[test]
fn test_missing_nul_and_eof() {
    let data: Vec<u8> = vec![0b1110_0000, 0b0001_1000, 1, 2, 3, b't', b'e'];
    assert_eq!(decode(&test_struct_layout(), &data), Err(ParseError::MissingNul));
    let short: Vec<u8> = vec![0b1110_0000, 0b0001_1000, 1];
    assert_eq!(decode(&test_struct_layout(), &short), Err(ParseError::Eof));
    assert_eq!(ParseError::MissingNul.message(), "EOF before null terminator");
}

// make_struct! { #[derive(Debug, Clone, PartialEq)] AttributeTest { field1: u8, }}
#[derive(Debug, Clone, PartialEq)]
pub struct AttributeTest {
    pub field1: u8,
}

#[test]
fn test_attributes() {
    let instance1 = AttributeTest { field1: 42 };
    let instance2 = instance1.clone();
    assert_eq!(instance1, instance2);
    assert_eq!(format!("{:?}", instance1), "AttributeTest { field1: 42 }");
}

// make_struct! { #[derive(Debug, Clone, PartialEq)] BoxTestInner { inner_field: u8, } }
#[derive(Debug, Clone, PartialEq)]
pub struct BoxTestInner {
    pub inner_field: u8,
}

// make_struct! { #[derive(Debug, Clone, PartialEq)] BoxTest { boxed_field: Box<BoxTestInner>, } }
#[derive(Debug, Clone, PartialEq)]
pub struct BoxTest {
    pub boxed_field: Box<BoxTestInner>,
}

fn box_test_inner_layout() -> Layout {
    Layout::Struct(vec![Row::Field(FieldType::UInt(8))])
}

fn box_test_layout() -> Layout {
    Layout::Struct(vec![Row::Field(FieldType::Boxed(bx(FieldType::Custom(bx(box_test_inner_layout())))))])
}

impl BoxTest {
    fn to_value(&self) -> Value {
        Value::Record(vec![Value::Record(vec![Value::UInt(self.boxed_field.inner_field as u64)])])
    }

    fn from_value(v: Value) -> Self {
        let vs = fields(v);
        let inner = fields(vs[0].clone());
        BoxTest { boxed_field: bx(BoxTestInner { inner_field: uint(&inner[0]) as u8 }) }
    }
}

impl NetworkParse for BoxTest {
    fn parse_bits(data: &[u8], bit_offset: &mut usize) -> Result<Self, &'static str> {
        network_parser_rs::parse_bits(&box_test_layout(), data, bit_offset)
            .map(Self::from_value)
            .map_err(|e| e.message())
    }

    fn write_bits(&self, buffer: &mut Vec<u8>, bit_offset: &mut usize) {
        if let Err(e) = network_parser_rs::write_bits(&box_test_layout(), &self.to_value(), buffer, bit_offset) {
            panic!("{}", e.message());
        }
    }
}

impl TryFrom<Vec<u8>> for BoxTest {
    type Error = &'static str;
    fn try_from(data: Vec<u8>) -> Result<Self, Self::Error> {
        let mut bit_offset = 0;
        <Self as NetworkParse>::parse_bits(&data, &mut bit_offset)
    }
}

impl From<&BoxTest> for Vec<u8> {
    fn from(val: &BoxTest) -> Vec<u8> {
        let mut buffer = Vec::new();
        let mut bit_offset = 0;
        val.write_bits(&mut buffer, &mut bit_offset);
        buffer
    }
}

#[test]
fn test_box() {
    let instance = BoxTest { boxed_field: Box::new(BoxTestInner { inner_field: 42 }) };
    let mut buffer = Vec::new();
    let mut bit_offset = 0;
    instance.write_bits(&mut buffer, &mut bit_offset);

    let parsed = BoxTest::try_from(buffer).unwrap();
    assert_eq!(parsed, instance);
}

#[test]
fn test_write_bits_by_ref() {
    let instance = BoxTest { boxed_field: Box::new(BoxTestInner { inner_field: 99 }) };
    let mut buffer1 = Vec::new();
    let mut offset1 = 0;
    instance.write_bits(&mut buffer1, &mut offset1);

    let mut buffer2 = Vec::new();
    let mut offset2 = 0;
    instance.write_bits(&mut buffer2, &mut offset2);
    assert_eq!(buffer1, buffer2);

    let vec_from_ref: Vec<u8> = Vec::from(&instance);
    assert_eq!(vec_from_ref, buffer1);
}

// make_struct! { #[derive(Debug, Clone, PartialEq)] ExcludeTest {
//     normal_field: u8, exclude { ignored_field: u16, another_ignored: bool, } } }
#[derive(Debug, Clone, PartialEq)]
pub struct ExcludeTest {
    pub normal_field: u8,
    pub ignored_field: u16,
    pub another_ignored: bool,
}

fn exclude_test_layout() -> Layout {
    Layout::Struct(vec![
        Row::Field(FieldType::UInt(8)),
        Row::Field(FieldType::Exclude(bx(FieldType::UInt(16)))),
        Row::Field(FieldType::Exclude(bx(FieldType::Bool))),
    ])
}

impl ExcludeTest {
    fn to_value(&self) -> Value {
        Value::Record(vec![
            Value::UInt(self.normal_field as u64),
            Value::UInt(self.ignored_field as u64),
            Value::Bool(self.another_ignored),
        ])
    }

    fn from_value(v: Value) -> Self {
        let vs = fields(v);
        ExcludeTest {
            normal_field: uint(&vs[0]) as u8,
            ignored_field: uint(&vs[1]) as u16,
            another_ignored: match vs[2] {
                Value::Bool(b) => b,
                _ => panic!("not a bool"),
            },
        }
    }
}

impl NetworkParse for ExcludeTest {
    fn parse_bits(data: &[u8], bit_offset: &mut usize) -> Result<Self, &'static str> {
        network_parser_rs::parse_bits(&exclude_test_layout(), data, bit_offset)
            .map(Self::from_value)
            .map_err(|e| e.message())
    }

    fn write_bits(&self, buffer: &mut Vec<u8>, bit_offset: &mut usize) {
        if let Err(e) = network_parser_rs::write_bits(&exclude_test_layout(), &self.to_value(), buffer, bit_offset) {
            panic!("{}", e.message());
        }
    }
}

impl TryFrom<Vec<u8>> for ExcludeTest {
    type Error = &'static str;
    fn try_from(data: Vec<u8>) -> Result<Self, Self::Error> {
        let mut bit_offset = 0;
        <Self as NetworkParse>::parse_bits(&data, &mut bit_offset)
    }
}

#[test]
fn test_exclude() {
    let instance = ExcludeTest { normal_field: 42, ignored_field: 999, another_ignored: true };

    let mut buffer = Vec::new();
    let mut bit_offset = 0;
    instance.write_bits(&mut buffer, &mut bit_offset);

    assert_eq!(buffer.len(), 1);
    assert_eq!(buffer[0], 42);

    let parsed = ExcludeTest::try_from(buffer).unwrap();
    assert_eq!(parsed.normal_field, 42);
    assert_eq!(parsed.ignored_field, 0);
    assert_eq!(parsed.another_ignored, false);
}

// make_struct! { #[derive(Debug, PartialEq)] ExprVecTest {
//     ihl: u8, options: Vec<u8>; (ihl as usize * 4) - 20, payload: Vec<u8>, } }
#[derive(Debug, PartialEq)]
pub struct ExprVecTest {
    pub ihl: u8,
    pub options: Vec<u8>,
    pub payload: Vec<u8>,
}

fn expr_vec_layout() -> Layout {
    Layout::Struct(vec![
        Row::Field(FieldType::UInt(8)),
        Row::Field(FieldType::Bytes(Some(Expr::Bin(
            BinOp::Sub,
            bx(Expr::Bin(BinOp::Mul, bx(Expr::Field(0)), bx(Expr::Lit(4)))),
            bx(Expr::Lit(20)),
        )))),
        Row::Field(FieldType::Bytes(None)),
    ])
}

impl ExprVecTest {
    fn to_value(&self) -> Value {
        Value::Record(vec![
            Value::UInt(self.ihl as u64),
            Value::Bytes(self.options.clone()),
            Value::Bytes(self.payload.clone()),
        ])
    }

    fn from_value(v: Value) -> Self {
        let vs = fields(v);
        ExprVecTest { ihl: uint(&vs[0]) as u8, options: bytes(&vs[1]), payload: bytes(&vs[2]) }
    }
}

impl NetworkParse for ExprVecTest {
    fn parse_bits(data: &[u8], bit_offset: &mut usize) -> Result<Self, &'static str> {
        network_parser_rs::parse_bits(&expr_vec_layout(), data, bit_offset)
            .map(Self::from_value)
            .map_err(|e| e.message())
    }

    fn write_bits(&self, buffer: &mut Vec<u8>, bit_offset: &mut usize) {
        if let Err(e) = network_parser_rs::write_bits(&expr_vec_layout(), &self.to_value(), buffer, bit_offset) {
            panic!("{}", e.message());
        }
    }
}

impl From<ExprVecTest> for Vec<u8> {
    fn from(val: ExprVecTest) -> Vec<u8> {
        let mut buffer = Vec::new();
        let mut bit_offset = 0;
        val.write_bits(&mut buffer, &mut bit_offset);
        buffer
    }
}

#[test]
fn test_vec_expression_size() {
    let mut data = vec![6];
    data.extend_from_slice(&[0x11, 0x22, 0x33, 0x44]);
    data.extend_from_slice(&[0xAA, 0xBB, 0xCC]);

    let mut bit_offset = 0;
    let packet = ExprVecTest::parse_bits(&data, &mut bit_offset).unwrap();
    assert_eq!(packet.ihl, 6);
    assert_eq!(packet.options, vec![0x11, 0x22, 0x33, 0x44]);
    assert_eq!(packet.payload, vec![0xAA, 0xBB, 0xCC]);

    let serialized: Vec<u8> = packet.into();
    assert_eq!(serialized, data);
}

#[test]
fn test_vec_expression_negative_size() {
    // ihl = 4 gives 4 * 4 - 20 = -4 bytes of options.
    let data = vec![4, 1, 2];
    assert_eq!(decode(&expr_vec_layout(), &data), Err(ParseError::BadExpression));
}

// make_struct! { TestUSize { field1: usize, _field2: u8, }}
pub struct TestUSize {
    pub field1: usize,
    pub _field2: u8,
}

fn test_usize_layout() -> Layout {
    Layout::Struct(vec![Row::Field(FieldType::USize), Row::Field(FieldType::UInt(8))])
}

impl NetworkParse for TestUSize {
    fn parse_bits(data: &[u8], bit_offset: &mut usize) -> Result<Self, &'static str> {
        let vs = fields(
            network_parser_rs::parse_bits(&test_usize_layout(), data, bit_offset).map_err(|e| e.message())?,
        );
        Ok(TestUSize { field1: uint(&vs[0]) as usize, _field2: uint(&vs[1]) as u8 })
    }

    fn write_bits(&self, buffer: &mut Vec<u8>, bit_offset: &mut usize) {
        let v = Value::Record(vec![Value::UInt(self.field1 as u64), Value::UInt(self._field2 as u64)]);
        if let Err(e) = network_parser_rs::write_bits(&test_usize_layout(), &v, buffer, bit_offset) {
            panic!("{}", e.message());
        }
    }
}

#[test]
fn test_usize_works() {
    let mut data = Vec::new();
    let instance = TestUSize { field1: 1234567, _field2: 255 };
    let mut offset = 0;
    instance.write_bits(&mut data, &mut offset);

    let mut read_offset = 0;
    let parsed = TestUSize::parse_bits(&data, &mut read_offset).unwrap();
    assert_eq!(parsed.field1, 1234567);
    assert_eq!(parsed._field2, 255);
}

// make_struct!{ ethII_frame{ mac_dest: u64, _mac_src: u64, if peek(16) == 0x8100 { _vlan: u16, } }}
fn eth_frame_layout() -> Layout {
    Layout::Struct(vec![
        Row::Field(FieldType::UInt(64)),
        Row::Field(FieldType::UInt(64)),
        Row::Cond(
            Expr::Bin(BinOp::Eq, bx(Expr::Peek(16)), bx(Expr::Lit(0x8100))),
            vec![BlockRow::Field(FieldType::UInt(16))],
        ),
    ])
}

#[test]
fn test_eth() {
    let layout = eth_frame_layout();
    assert!(matches!(layout, Layout::Struct(_)));
}

#[test]
fn test_eth_peek_decides_block() {
    let mut data = vec![0u8; 16];
    data.extend_from_slice(&[0x81, 0x00]);
    let vs = fields(decode(&eth_frame_layout(), &data).unwrap());
    assert_eq!(opt(&vs[2]).map(uint), Some(0x8100));
    let mut other = vec![0u8; 16];
    other.extend_from_slice(&[0x08, 0x00]);
    let vs2 = fields(decode(&eth_frame_layout(), &other).unwrap());
    assert_eq!(opt(&vs2[2]).map(uint), None);
    // Peeking past the end reads zero: no block, and nothing else to read.
    let vs3 = fields(decode(&eth_frame_layout(), &vec![0u8; 16]).unwrap());
    assert_eq!(opt(&vs3[2]).map(uint), None);
}

// make_struct! { TestPeekMulti { field1: u16, if peek(16) == 0x8100 { field2: u16, field3: u16, } }}
fn peek_multi_layout() -> Layout {
    Layout::Struct(vec![
        Row::Field(FieldType::UInt(16)),
        Row::Cond(
            Expr::Bin(BinOp::Eq, bx(Expr::Peek(16)), bx(Expr::Lit(0x8100))),
            vec![BlockRow::Field(FieldType::UInt(16)), BlockRow::Field(FieldType::UInt(16))],
        ),
    ])
}

#[test]
fn test_peek_multi() {
    let layout = peek_multi_layout();
    assert!(matches!(layout, Layout::Struct(_)));
}

#[test]
fn test_peek_multi_decodes() {
    let vs = fields(decode(&peek_multi_layout(), &[0, 1, 0x81, 0x00, 0, 7]).unwrap());
    assert_eq!(uint(&vs[0]), 1);
    assert_eq!(opt(&vs[1]).map(uint), Some(0x8100));
    assert_eq!(opt(&vs[2]).map(uint), Some(7));
}

// The macro crate's own test: make_struct! { MyStruct, field1: u3, consume(5)
// if peek(u8)==15 { field5: u16 } field6: [u8;4] }
#[test]
fn exec() {
    let layout = Layout::Struct(vec![
        Row::Field(FieldType::UInt(3)),
        Row::Consume(Expr::Lit(5)),
        Row::Cond(
            Expr::Bin(BinOp::Eq, bx(Expr::Peek(8)), bx(Expr::Lit(15))),
            vec![BlockRow::Field(FieldType::UInt(16))],
        ),
        Row::Field(FieldType::Array(4)),
    ]);
    let vs = fields(decode(&layout, &[0b1010_0000, 15, 0, 1, 2, 3, 4]).unwrap());
    assert_eq!(uint(&vs[0]), 5);
    assert_eq!(opt(&vs[1]).map(uint), Some(0x0F00));
    assert_eq!(bytes(&vs[2]), vec![1, 2, 3, 4]);
}

#[test]
fn test_eth_round_trip() {
    // A tagged frame: the block is written, and peek(16) finds its tag again.
    let tagged = Value::Record(vec![
        Value::UInt(0x0011_2233_4455_6677),
        Value::UInt(0x8899_AABB_CCDD_EEFF),
        Value::Opt(Some(bx(Value::UInt(0x8100)))),
    ]);
    let bytes = encode(&eth_frame_layout(), &tagged).unwrap();
    assert_eq!(bytes.len(), 18);
    assert_eq!(&bytes[16..], &[0x81, 0x00]);
    assert_eq!(decode(&eth_frame_layout(), &bytes), Ok(tagged));
    // An untagged frame: nothing follows the addresses, and peek reads zero.
    let plain = Value::Record(vec![Value::UInt(1), Value::UInt(2), Value::Opt(None)]);
    let bytes = encode(&eth_frame_layout(), &plain).unwrap();
    assert_eq!(bytes.len(), 16);
    assert_eq!(decode(&eth_frame_layout(), &bytes), Ok(plain));
}

#[test]
fn test_failed_record_decode_keeps_position() {
    let layout = Layout::Struct(vec![Row::Field(FieldType::UInt(8)), Row::Field(FieldType::UInt(16))]);
    let mut off = 0;
    assert_eq!(network_parser_rs::parse_bits(&layout, &[1, 2], &mut off), Err(ParseError::Eof));
    assert_eq!(off, 0);
    let mut off = 8;
    assert!(network_parser_rs::parse_bits(&layout, &[0, 1, 2, 3], &mut off).is_ok());
    assert_eq!(off, 32);
}

#[test]
fn test_rows_one_at_a_time_around_a_self_reading_field() {
    // len: u8, a 16-bit field read by other code, data: Vec<u8>; len
    let first = Row::Field(FieldType::UInt(8));
    let last = Row::Field(FieldType::Bytes(Some(Expr::Field(0))));
    let data = [2u8, 0xAB, 0xCD, 7, 9];
    let mut vals = Vec::new();
    let cur = parse_row_at(&first, &data, &mut vals, 0).unwrap();
    assert_eq!(cur, 8);
    let mut off = cur;
    let own = network_parser_rs::bits::read_bits(&data, &mut off, 16).unwrap();
    assert_eq!(own, 0xABCD);
    vals.push(Value::Bool(false));
    let end = parse_row_at(&last, &data, &mut vals, off).unwrap();
    assert_eq!(end, 40);
    assert_eq!(vals, vec![Value::UInt(2), Value::Bool(false), Value::Bytes(vec![7, 9])]);
    // A row that fails reports its error.
    let mut short = Vec::new();
    assert_eq!(parse_row_at(&last, &[0], &mut short, 0), Err(ParseError::BadExpression));
    // Writing the same rows around the other field gives the bytes back.
    let mut buffer = Vec::new();
    let (cur, used) = write_row_at(&first, &vals, &mut buffer, 0, 0).unwrap();
    let mut off = cur;
    network_parser_rs::bits::write_bits(&mut buffer, &mut off, 16, 0xABCD);
    let (end, used) = write_row_at(&last, &vals, &mut buffer, off, used + 1).unwrap();
    assert_eq!((end, used), (40, 3));
    assert_eq!(buffer, data.to_vec());
}
