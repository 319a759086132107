use network_parser_rs::grammar::{
    byte_list_of, literal_int, parse_enum, parse_expr, parse_struct, parse_struct_items, parse_type_at, AssignDef,
    Delim, Item, RuleDef, SyntaxError, Token, TypeDef,
};
use network_parser_rs::validate::LayoutError;

fn id(s: &str) -> Token {
    Token::Ident(s.chars().collect())
}

fn p(c: char) -> Token {
    Token::Punct(c, false)
}

fn pj(c: char) -> Token {
    Token::Punct(c, true)
}

fn lit(s: &str) -> Token {
    Token::Lit(s.chars().collect())
}

fn grp(d: Delim, ts: Vec<Token>) -> Token {
    Token::Group(d, ts)
}

fn dbg<T: std::fmt::Debug>(t: &T) -> String {
    format!("{:?}", t)
}

#[test]
fn test_literals() {
    assert_eq!(literal_int(&"15".chars().collect()), Some(15));
    assert_eq!(literal_int(&"0x8100".chars().collect()), Some(0x8100));
    assert_eq!(literal_int(&"1_000u16".chars().collect()), Some(1000));
    assert_eq!(literal_int(&"4usize".chars().collect()), Some(4));
    assert_eq!(literal_int(&"4u7".chars().collect()), None);
    assert_eq!(literal_int(&"_4".chars().collect()), None);
    assert_eq!(literal_int(&"b'a'".chars().collect()), None);
}

#[test]
fn test_expression_precedence() {
    // (ihl as usize * 4) - 20 with ihl the first field
    let toks = vec![
        grp(Delim::Paren, vec![id("ihl"), id("as"), id("usize"), p('*'), lit("4")]),
        p('-'),
        lit("20"),
    ];
    let names = vec!["ihl".chars().collect::<Vec<char>>()];
    let e = parse_expr(&toks, 0, toks.len(), &names, false).unwrap();
    assert_eq!(dbg(&e), "Bin(Sub, Paren(0, Bin(Mul, Cast(USize, Field(0)), Lit(4))), Lit(20))");
    // peek(16) == 0x8100 && !flag || 1 < 2
    let toks = vec![
        id("peek"),
        grp(Delim::Paren, vec![lit("16")]),
        pj('='),
        p('='),
        lit("0x8100"),
        pj('&'),
        p('&'),
        p('!'),
        id("flag"),
        pj('|'),
        p('|'),
        lit("1"),
        p('<'),
        lit("2"),
    ];
    let names = vec!["flag".chars().collect::<Vec<char>>()];
    let e = parse_expr(&toks, 0, toks.len(), &names, false).unwrap();
    assert_eq!(
        dbg(&e),
        "Bin(Or, Bin(And, Bin(Eq, Peek(16), Lit(33024)), Not(Field(0))), Bin(Lt, Lit(1), Lit(2)))"
    );
    // A name that is no field is the definition's own code; a stray operator is an error.
    let unknown = vec![id("missing")];
    assert_eq!(dbg(&parse_expr(&unknown, 0, 1, &Vec::new(), false)), "Ok(Extern(0, 1))");
    let stray = vec![lit("1"), p('+')];
    assert_eq!(dbg(&parse_expr(&stray, 0, 2, &Vec::new(), false)), "Err(BadExpression)");
}

fn test_struct_tokens() -> Vec<Token> {
    // make_struct! { #[derive(Debug)] TestStruct {
    //     field1: u3, consume(5) field2: u5, consume(3)
    //     field3: Vec<u8>;field2, field4: CStr,
    //     if field1 == 7 { field5: u16, field6: [u8; 4], }
    //     field7: i12, consume(4) field8: [u8;4],
    //     exclude { extra: Box<Inner>, }
    // }}
    let body = vec![
        id("field1"), p(':'), id("u3"), p(','),
        id("consume"), grp(Delim::Paren, vec![lit("5")]),
        id("field2"), p(':'), id("u5"), p(','),
        id("consume"), grp(Delim::Paren, vec![lit("3")]),
        id("field3"), p(':'), id("Vec"), p('<'), id("u8"), p('>'), p(';'), id("field2"), p(','),
        id("field4"), p(':'), id("CStr"), p(','),
        id("if"), id("field1"), pj('='), p('='), lit("7"),
        grp(Delim::Brace, vec![
            id("field5"), p(':'), id("u16"), p(','),
            id("field6"), p(':'), grp(Delim::Bracket, vec![id("u8"), p(';'), lit("4")]), p(','),
        ]),
        id("field7"), p(':'), id("i12"), p(','),
        id("consume"), grp(Delim::Paren, vec![lit("4")]),
        id("field8"), p(':'), grp(Delim::Bracket, vec![id("u8"), p(';'), lit("4")]), p(','),
        id("exclude"), grp(Delim::Brace, vec![
            id("extra"), p(':'), id("Box"), p('<'), id("Inner"), p('>'), p(','),
        ]),
    ];
    vec![
        p('#'),
        grp(Delim::Bracket, vec![id("derive"), grp(Delim::Paren, vec![id("Debug")])]),
        id("TestStruct"),
        grp(Delim::Brace, body),
    ]
}

#[test]
fn test_struct_definition() {
    let def = parse_struct(&test_struct_tokens()).unwrap();
    assert_eq!(def.attrs_end, 2);
    assert_eq!(def.name, 2);
    let items: Vec<String> = def.items.iter().map(dbg).collect();
    assert_eq!(
        items,
        vec![
            "Field(0, UInt(3))",
            "Consume(Paren(5, Lit(5)))",
            "Field(6, UInt(5))",
            "Consume(Paren(11, Lit(3)))",
            "Field(12, Bytes(Some(Field(1))))",
            "Field(21, CStr(None))",
            "Cond(Bin(Eq, Field(0), Lit(7)), 30, 2)",
            "BlockField(0, UInt(16))",
            "BlockField(4, Array(4))",
            "Field(31, Int(12))",
            "Consume(Paren(36, Lit(4)))",
            "Field(37, Array(4))",
            "Exclude(42, 0, Boxed(Custom(4, 5)))",
        ]
    );
}

#[test]
fn test_struct_syntax_errors() {
    // make_struct! { MyStruct , field1: u3 } -- no braces after the name.
    let toks = vec![id("MyStruct"), p(','), id("field1"), p(':'), id("u3")];
    assert_eq!(parse_struct(&toks).unwrap_err(), SyntaxError::BadHeader);
    let bad_type = vec![id("S"), grp(Delim::Brace, vec![id("a"), p(':'), id("Vec"), p('<'), id("u16"), p('>')])];
    assert_eq!(parse_struct(&bad_type).unwrap_err(), SyntaxError::VecElementNotU8);
    let two_vecs = vec![
        id("S"),
        grp(Delim::Brace, vec![
            id("a"), p(':'), id("Vec"), p('<'), id("u8"), p('>'), p(','),
            id("b"), p(':'), id("u8"),
        ]),
    ];
    assert_eq!(
        parse_struct(&two_vecs).unwrap_err(),
        SyntaxError::Layout(LayoutError::FieldAfterUnsizedVec { field: 1, vec: 0 })
    );
}

#[test]
fn test_enum_definition() {
    // make_enum! { TestEnum: u16 { field1 == 123, field2(u8) == 542,
    //     field5(Vec<u8>) = vec![1, 2, 3] if tag_value == 555,
    //     field3(u16) < 1524, field4(u16) _ } }
    let body = vec![
        id("field1"), pj('='), p('='), lit("123"), p(','),
        id("field2"), grp(Delim::Paren, vec![id("u8")]), pj('='), p('='), lit("542"), p(','),
        id("field5"), grp(Delim::Paren, vec![id("Vec"), p('<'), id("u8"), p('>')]), p('='),
        id("vec"), p('!'), grp(Delim::Bracket, vec![lit("1"), p(','), lit("2"), p(','), lit("3")]),
        id("if"), id("tag_value"), pj('='), p('='), lit("555"), p(','),
        id("field3"), grp(Delim::Paren, vec![id("u16")]), p('<'), lit("1524"), p(','),
        id("field4"), grp(Delim::Paren, vec![id("u16")]), id("_"),
    ];
    let toks = vec![id("TestEnum"), p(':'), id("u16"), grp(Delim::Brace, body)];
    let def = parse_enum(&toks).unwrap();
    assert_eq!(dbg(&def.repr), "UInt(16)");
    assert_eq!(def.body, 3);
    let rules: Vec<String> = def.variants.iter().map(|v| dbg(&v.rule)).collect();
    assert_eq!(
        rules,
        vec![
            "Exact(123)",
            "Exact(542)",
            "Assign(Bytes(16), Bin(Eq, Tag, Lit(555)))",
            "Condition(Bin(Lt, Tag, Lit(1524)))",
            "CatchAll",
        ]
    );
    assert!(matches!(def.variants[2].rule, RuleDef::Assign(AssignDef::Bytes(16), _)));
    assert!(matches!(def.variants[1].inner, Some(TypeDef::UInt(8))));
    if let Token::Group(_, b) = &toks[3] {
        if let Token::Group(_, list) = &b[16] {
            assert_eq!(byte_list_of(list), Some(vec![1, 2, 3]));
        }
    }
    let _ = Item::Consume(network_parser_rs::Expr::Lit(0));
}

#[test]
fn test_definition_errors() {
    // A literal that does not fit.
    let big = vec![id("S"), grp(Delim::Brace, vec![id("a"), p(':'), grp(Delim::Bracket, vec![id("u8"), p(';'), lit("300")])])];
    assert_eq!(parse_struct(&big).unwrap_err(), SyntaxError::BadType);
    let bad_peek = vec![id("peek"), grp(Delim::Paren, vec![lit("1x")])];
    assert_eq!(dbg(&parse_expr(&bad_peek, 0, 2, &Vec::new(), false)), "Err(BadLiteral)");
    // `consume` without parentheses, and an item that is not a field.
    let bad_consume = vec![id("S"), grp(Delim::Brace, vec![id("consume"), lit("5")])];
    assert_eq!(parse_struct(&bad_consume).unwrap_err(), SyntaxError::BadItem);
    let not_item = vec![id("S"), grp(Delim::Brace, vec![lit("5")])];
    assert_eq!(parse_struct(&not_item).unwrap_err(), SyntaxError::BadItem);
    // An exact value that is not a constant is kept as the definition's own code.
    let computed = vec![
        id("E"),
        p(':'),
        id("u8"),
        grp(Delim::Brace, vec![id("a"), pj('='), p('='), lit("1"), p('+'), lit("2")]),
    ];
    assert_eq!(dbg(&parse_enum(&computed).unwrap().variants[0].rule), "ExactUser(3, 6)");
    let named = vec![
        id("E"),
        p(':'),
        id("u8"),
        grp(Delim::Brace, vec![id("a"), pj('='), p('='), id("X")]),
    ];
    assert_eq!(dbg(&parse_enum(&named).unwrap().variants[0].rule), "ExactUser(3, 4)");
    // An exact rule without a value.
    let empty = vec![id("E"), p(':'), id("u8"), grp(Delim::Brace, vec![id("a"), pj('='), p('=')])];
    assert_eq!(parse_enum(&empty).unwrap_err(), SyntaxError::BadVariant);
    let no_colon = vec![id("E"), id("u8"), grp(Delim::Brace, vec![])];
    assert_eq!(parse_enum(&no_colon).unwrap_err(), SyntaxError::BadHeader);
}

#[test]
fn test_block_and_exclude_entries() {
    // if peek(16) == 0x8100 { consume(4) vlan: u12, } exclude { pub flag: bool; }
    let body = vec![
        id("len"), p(':'), id("u8"), p(','),
        id("if"), id("peek"), grp(Delim::Paren, vec![lit("16")]), pj('='), p('='), lit("0x8100"),
        grp(Delim::Brace, vec![
            id("consume"), grp(Delim::Paren, vec![lit("4")]),
            id("vlan"), p(':'), id("u12"), p(','),
        ]),
        id("exclude"), grp(Delim::Brace, vec![id("pub"), id("flag"), p(':'), id("bool"), p(';')]),
        id("rest"), p(':'), id("Vec"), p('<'), id("u8"), p('>'), p(';'), id("len"), p('*'), lit("2"),
    ];
    let toks = vec![id("pub"), id("Frame"), grp(Delim::Brace, body)];
    let def = parse_struct(&toks).unwrap();
    assert_eq!(def.attrs_end, 0);
    assert_eq!(def.name, 1);
    let items: Vec<String> = def.items.iter().map(dbg).collect();
    assert_eq!(
        items,
        vec![
            "Field(0, UInt(8))",
            "Cond(Bin(Eq, Peek(16), Lit(33024)), 10, 2)",
            "BlockConsume(Paren(1, Lit(4)))",
            "BlockField(2, UInt(12))",
            "Exclude(12, 1, Bool)",
            "Field(13, Bytes(Some(Bin(Mul, Field(0), Lit(2)))))",
        ]
    );
}

#[test]
fn test_element_types_other_than_u8() {
    // [u16; 4] and Vec<u16> are refused for their element type.
    let slice = vec![grp(Delim::Bracket, vec![id("u16"), p(';'), lit("4")])];
    assert_eq!(parse_type_at(&slice, 1, 0, &Vec::new()).unwrap_err(), SyntaxError::SliceElementNotU8);
    let vec16 = vec![id("Vec"), p('<'), id("u16"), p('>')];
    assert_eq!(parse_type_at(&vec16, 4, 0, &Vec::new()).unwrap_err(), SyntaxError::VecElementNotU8);
    // Other malformed forms stay type errors.
    let no_len = vec![grp(Delim::Bracket, vec![id("u8")])];
    assert_eq!(parse_type_at(&no_len, 1, 0, &Vec::new()).unwrap_err(), SyntaxError::BadType);
    let ok = vec![grp(Delim::Bracket, vec![id("u8"), p(';'), lit("4")])];
    assert_eq!(dbg(&parse_type_at(&ok, 1, 0, &Vec::new())), "Ok((Array(4), 1))");
}

#[test]
fn test_cstr_size_field() {
    // CStr; n names the earlier field n; an unknown name is refused.
    let names = vec!["x".chars().collect::<Vec<char>>(), "n".chars().collect::<Vec<char>>()];
    let toks = vec![id("CStr"), p(';'), id("n")];
    assert_eq!(dbg(&parse_type_at(&toks, 3, 0, &names)), "Ok((CStr(Some(Field(1))), 3))");
    let unknown = vec![id("CStr"), p(';'), id("m")];
    assert_eq!(parse_type_at(&unknown, 3, 0, &names).unwrap_err(), SyntaxError::BadExpression);
    let plain = vec![id("CStr")];
    assert_eq!(dbg(&parse_type_at(&plain, 1, 0, &names)), "Ok((CStr(None), 1))");
}

#[test]
fn test_items_of_a_record_that_breaks_the_vec_rule() {
    // S { a: Vec<u8>, b: u8 }: refused, but its entries can still be read to name the fields.
    let toks = vec![
        id("S"),
        grp(Delim::Brace, vec![
            id("a"), p(':'), id("Vec"), p('<'), id("u8"), p('>'), p(','),
            id("b"), p(':'), id("u8"),
        ]),
    ];
    let items: Vec<String> = parse_struct_items(&toks).unwrap().iter().map(dbg).collect();
    assert_eq!(items, vec!["Field(0, Bytes(None))", "Field(7, UInt(8))"]);
    assert_eq!(parse_struct_items(&vec![id("S")]).unwrap_err(), SyntaxError::BadHeader);
}

#[test]
fn test_casts_in_expressions() {
    let names = vec!["x".chars().collect::<Vec<char>>()];
    let toks = vec![id("x"), id("as"), id("u8"), id("as"), id("i16"), p('+'), lit("1")];
    let e = parse_expr(&toks, 0, toks.len(), &names, false).unwrap();
    assert_eq!(dbg(&e), "Bin(Add, Cast(I16, Cast(U8, Field(0))), Lit(1))");
    // Only integer types can be cast to.
    let bad = vec![id("x"), id("as"), id("Foo")];
    assert_eq!(dbg(&parse_expr(&bad, 0, bad.len(), &names, false)), "Err(BadExpression)");
}

#[test]
fn test_operators_and_their_precedence() {
    let names = vec!["a".chars().collect::<Vec<char>>(), "b".chars().collect::<Vec<char>>()];
    // a / 2 % 3 + 1 << 2 & b ^ 1 | 8 == 0 && a >> 1 > 0
    let toks = vec![
        id("a"), p('/'), lit("2"), p('%'), lit("3"), p('+'), lit("1"), pj('<'), p('<'), lit("2"), p('&'), id("b"),
        p('^'), lit("1"), p('|'), lit("8"), pj('='), p('='), lit("0"), pj('&'), p('&'), id("a"), pj('>'), p('>'),
        lit("1"), p('>'), lit("0"),
    ];
    let e = parse_expr(&toks, 0, toks.len(), &names, false).unwrap();
    assert_eq!(
        dbg(&e),
        "Bin(And, Bin(Eq, Bin(BitOr, Bin(BitXor, Bin(BitAnd, Bin(Shl, Bin(Add, Bin(Rem, Bin(Div, Field(0), Lit(2)), Lit(3)), Lit(1)), Lit(2)), Field(1)), Lit(1)), Lit(8)), Lit(0)), Bin(Gt, Bin(Shr, Field(0), Lit(1)), Lit(0)))"
    );
}

#[test]
fn test_binary_and_octal_literals() {
    assert_eq!(literal_int(&"0b1010".chars().collect()), Some(10));
    assert_eq!(literal_int(&"0o17u8".chars().collect()), Some(15));
    assert_eq!(literal_int(&"0b1_0000_0000u16".chars().collect()), Some(256));
    assert_eq!(literal_int(&"0b102".chars().collect()), None);
    assert_eq!(literal_int(&"0o8".chars().collect()), None);
    assert_eq!(literal_int(&"0xff".chars().collect()), Some(255));
}

#[test]
fn test_generic_type_paths() {
    // inner: Wrapper<Vec<u8>>, then a comma
    let toks = vec![id("Wrapper"), p('<'), id("Vec"), p('<'), id("u8"), pj('>'), p('>'), p(',')];
    assert_eq!(dbg(&parse_type_at(&toks, toks.len(), 0, &Vec::new())), "Ok((Custom(0, 7), 7))");
    let open = vec![id("Wrapper"), p('<'), id("u8")];
    assert_eq!(parse_type_at(&open, open.len(), 0, &Vec::new()).unwrap_err(), SyntaxError::BadType);
}

#[test]
fn test_code_of_the_definitions_own() {
    // consume(my_func()) and a size of MY_CONST + a
    let names = vec!["a".chars().collect::<Vec<char>>()];
    let call = vec![id("my_func"), grp(Delim::Paren, vec![])];
    assert_eq!(dbg(&parse_expr(&call, 0, 2, &names, false)), "Ok(Extern(0, 2))");
    let sum = vec![id("consts"), pj(':'), p(':'), id("MY_CONST"), p('+'), id("a")];
    assert_eq!(dbg(&parse_expr(&sum, 0, 6, &names, false)), "Ok(Bin(Add, Extern(0, 4), Field(0)))");
    // An assignment rule whose value is a function call.
    let toks = vec![
        id("E"),
        p(':'),
        id("u8"),
        grp(Delim::Brace, vec![
            id("A"), grp(Delim::Paren, vec![id("u8")]), p('='), id("pick"), grp(Delim::Paren, vec![]),
            id("if"), id("self"), p('<'), lit("5"),
        ]),
    ];
    let def = parse_enum(&toks).unwrap();
    assert_eq!(dbg(&def.variants[0].rule), "Assign(User(3, 5), Bin(Lt, Tag, Lit(5)))");
}
