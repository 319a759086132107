//! Decoding then encoding: clean bytes of a re-encodable record come back.

use vstd::prelude::*;
use vstd::arithmetic::power2::{pow2, lemma2_to64, lemma_pow2_pos, lemma_pow2_adds, lemma_pow2_unfold, lemma_pow2_strictly_increases};
use vstd::arithmetic::div_mod::{lemma_small_mod, lemma_mod_multiples_vanish};
use crate::bits::{bit_at, bits_value, lemma_bit_at_small, lemma_bits_value_bound};
use crate::decode::{
    as_count, parse_block, parse_field, parse_layout, parse_row, parse_rows, scan_end, select_variant, skip_bits,
    Cursor,
};
use crate::expr::eval;
use crate::layout::{BlockRow, EnumLayout, Expr, FieldType, Layout, Row, ValueModel, Variant};
use crate::model::{bit_pattern, block_field_count};
use crate::encode::{put_bytes, put_int, tag_for, write_block, write_block_row, write_field, write_layout, write_opt_field, write_row, write_rows, write_skip, WriteState};
use crate::roundtrip::{agree, tight, lemma_agree_trans, lemma_agree_shorter, lemma_bit_past_end, lemma_put_int, lemma_put_bytes, lemma_bytes_agree, lemma_eval_extends, lemma_tight_agree_self, lemma_tight_len, row_count};

verus! {

/// The expression does not read the data (`peek`).
pub open spec fn no_peek(e: Expr) -> bool
    decreases e,
{
    match e {
        Expr::Peek(_) => false,
        Expr::Not(a) => no_peek(*a),
        Expr::Cast(_, a) => no_peek(*a),
        Expr::Paren(_, a) => no_peek(*a),
        Expr::Bin(_, a, b) => no_peek(*a) && no_peek(*b),
        _ => true,
    }
}

/// A field type whose decoded values the writer stores bit for bit: no
/// integer wider than 64 bits.
pub open spec fn field_reencodable(ty: FieldType) -> bool
    decreases ty, 0nat,
{
    match ty {
        FieldType::UInt(b) => b <= 64,
        FieldType::Optional(t) => field_reencodable(*t),
        FieldType::Boxed(t) => field_reencodable(*t),
        FieldType::Custom(l) => layout_reencodable(*l),
        _ => true,
    }
}

/// A record layout whose rows are all re-encodable, or an enumeration whose
/// tag field is.
pub open spec fn layout_reencodable(l: Layout) -> bool
    decreases l, 0nat,
{
    match l {
        Layout::Struct(rows) => rows_reencodable(rows@, rows@.len()),
        Layout::Enum(el) => field_reencodable(el.repr),
    }
}

pub open spec fn rows_reencodable(rows: Seq<Row>, n: nat) -> bool
    decreases rows, n,
{
    if n == 0 || n > rows.len() {
        n == 0
    } else {
        rows_reencodable(rows, (n - 1) as nat) && row_reencodable(rows[n - 1])
    }
}

/// Skips are computed from earlier fields alone, and every optional block
/// holds a field.
pub open spec fn row_reencodable(row: Row) -> bool
    decreases row, 0nat,
{
    match row {
        Row::Consume(e) => no_peek(e),
        Row::Field(t) => field_reencodable(t),
        Row::Cond(_, block) => block_field_count(block@) > 0 && block_reencodable(block@, block@.len()),
    }
}

pub open spec fn block_reencodable(block: Seq<BlockRow>, n: nat) -> bool
    decreases block, n,
{
    if n == 0 || n > block.len() {
        n == 0
    } else {
        block_reencodable(block, (n - 1) as nat) && block_row_reencodable(block[n - 1])
    }
}

pub open spec fn block_row_reencodable(brow: BlockRow) -> bool
    decreases brow, 0nat,
{
    match brow {
        BlockRow::Consume(e) => no_peek(e),
        BlockRow::Field(t) => field_reencodable(t),
    }
}

/// The bits `a .. b` of the data are zero.
pub open spec fn zero_between(data: Seq<u8>, a: int, b: int) -> bool {
    forall|i: int| a <= i < b ==> #[trigger] bit_at(data, i) == 0
}

/// A skip from cursor `c` covers at most 64 bits, all zero (the writer
/// stores a skip as one field of zero bits).
pub open spec fn skip_clean(e: Expr, data: Seq<u8>, c: Cursor) -> bool {
    match skip_bits(e, data, c) {
        Ok(c2) => c2.off <= c.off + 64 && zero_between(data, c.off as int, c2.off as int),
        Err(_) => true,
    }
}

/// Decoding the field at `off` is clean: every skip made is clean, and every
/// enumeration decoded writes back the tag it was decoded from.
pub open spec fn field_clean(ty: FieldType, data: Seq<u8>, off: nat) -> bool
    decreases ty, 0nat,
{
    match ty {
        FieldType::Optional(t) => field_clean(*t, data, off),
        FieldType::Boxed(t) => field_clean(*t, data, off),
        FieldType::Custom(l) => layout_clean(*l, data, off),
        _ => true,
    }
}

/// Decoding a record at `off` is clean (see `field_clean`); decoding an
/// enumeration is clean when the variant that its rules pick writes back the
/// very tag that was read: not an assignment variant (which writes the
/// default tag), and one whose carried value, converted back to the tag
/// type, is the tag.
pub open spec fn layout_clean(l: Layout, data: Seq<u8>, off: nat) -> bool
    decreases l, 0nat,
{
    match l {
        Layout::Struct(rows) => rows_clean(rows@, rows@.len(), data, off),
        Layout::Enum(el) => field_clean(el.repr, data, off) && match parse_field(el.repr, data, off, Seq::empty()) {
            Ok((tag, _)) => match select_variant(el.variants@, 0, tag) {
                Ok(ValueModel::Variant(i, inner)) => variant_tag(el, i, inner) == Some(tag),
                _ => true,
            },
            Err(_) => true,
        },
    }
}

/// The tag that an enumeration writer stores for variant `i` carrying
/// `inner`, if it stores one.
pub open spec fn variant_tag(el: EnumLayout, i: usize, inner: Option<Box<ValueModel>>) -> Option<ValueModel> {
    tag_for(
        el.repr,
        el.variants@[i as int],
        match inner {
            Some(b) => Some(*b),
            None => None,
        },
    )
}

/// The variant that the rules pick is one of the variants, and carries a
/// value exactly when it has an inner type.
proof fn lemma_select_variant_shape(vs: Seq<Variant>, i: nat, tag: ValueModel)
    requires
        vs.len() <= usize::MAX,
    ensures
        select_variant(vs, i, tag) matches Ok(v) ==> (v matches ValueModel::Variant(k, inner) && k < vs.len()
            && (vs[k as int].inner is Some) == (inner is Some)),
    decreases vs.len() - i,
{
    if i < vs.len() {
        lemma_select_variant_shape(vs, i + 1, tag);
    }
}

/// Every skip made while decoding the first `n` rows from `start` is clean.
pub open spec fn rows_clean(rows: Seq<Row>, n: nat, data: Seq<u8>, start: nat) -> bool
    decreases rows, n,
{
    if n == 0 || n > rows.len() {
        true
    } else {
        &&& rows_clean(rows, (n - 1) as nat, data, start)
        &&& match parse_rows(rows, (n - 1) as nat, data, start) {
            Ok(c) => row_clean(rows[n - 1], data, c),
            Err(_) => true,
        }
    }
}

pub open spec fn row_clean(row: Row, data: Seq<u8>, c: Cursor) -> bool
    decreases row, 0nat,
{
    match row {
        Row::Consume(e) => skip_clean(e, data, c),
        Row::Field(t) => field_clean(t, data, c.off),
        Row::Cond(e, block) => match eval(e, c.values, Some(data), c.off as int, None) {
            Some(x) => x == 0 || block_clean(block@, block@.len(), data, c),
            None => true,
        },
    }
}

pub open spec fn block_clean(block: Seq<BlockRow>, n: nat, data: Seq<u8>, c: Cursor) -> bool
    decreases block, n,
{
    if n == 0 || n > block.len() {
        true
    } else {
        &&& block_clean(block, (n - 1) as nat, data, c)
        &&& match parse_block(block, (n - 1) as nat, data, c) {
            Ok(c1) => block_row_clean(block[n - 1], data, c1),
            Err(_) => true,
        }
    }
}

pub open spec fn block_row_clean(brow: BlockRow, data: Seq<u8>, c: Cursor) -> bool
    decreases brow, 0nat,
{
    match brow {
        BlockRow::Consume(e) => skip_clean(e, data, c),
        BlockRow::Field(t) => field_clean(t, data, c.off),
    }
}

/// `a` begins with `b`.
pub open spec fn extends(a: Seq<ValueModel>, b: Seq<ValueModel>) -> bool {
    b.len() <= a.len() && forall|j: int| 0 <= j < b.len() ==> #[trigger] a[j] == b[j]
}

proof fn lemma_scan_end_bounds(data: Seq<u8>, from: int)
    requires
        0 <= from,
    ensures
        from <= scan_end(data, from),
        forall|j: int| from <= j < scan_end(data, from) ==> data[j] != 0,
        scan_end(data, from) < data.len() ==> data[scan_end(data, from)] == 0,
    decreases data.len() - from,
{
    if from < data.len() && data[from] != 0 {
        lemma_scan_end_bounds(data, from + 1);
    }
}

/// Decoding a field moves forward.
pub proof fn lemma_field_forward(ty: FieldType, data: Seq<u8>, off: nat, fields: Seq<ValueModel>)
    ensures
        parse_field(ty, data, off, fields) is Ok ==> off <= parse_field(ty, data, off, fields)->Ok_0.1,
    decreases ty, 0nat,
{
    match ty {
        FieldType::CStr(_) => {
            lemma_scan_end_bounds(data, (off / 8) as int);
        },
        FieldType::Optional(t) => {
            lemma_field_forward(*t, data, off, fields);
        },
        FieldType::Boxed(t) => {
            lemma_field_forward(*t, data, off, fields);
        },
        FieldType::Custom(l) => {
            lemma_layout_forward(*l, data, off);
        },
        _ => {},
    }
}

pub proof fn lemma_layout_forward(l: Layout, data: Seq<u8>, off: nat)
    ensures
        parse_layout(l, data, off).0 is Ok ==> off <= parse_layout(l, data, off).1,
    decreases l, 0nat,
{
    match l {
        Layout::Struct(rows) => {
            lemma_rows_forward(rows@, rows@.len(), data, off);
        },
        Layout::Enum(el) => {
            lemma_field_forward(el.repr, data, off, Seq::empty());
        },
    }
}

/// Decoding rows moves forward and only appends values.
pub proof fn lemma_rows_forward(rows: Seq<Row>, n: nat, data: Seq<u8>, start: nat)
    ensures
        parse_rows(rows, n, data, start) is Ok ==> start <= parse_rows(rows, n, data, start)->Ok_0.off,
    decreases rows, n,
{
    if n > 0 && n <= rows.len() {
        lemma_rows_forward(rows, (n - 1) as nat, data, start);
        match parse_rows(rows, (n - 1) as nat, data, start) {
            Ok(c) => {
                lemma_row_forward(rows[n - 1], data, c);
            },
            Err(_) => {},
        }
    }
}

pub proof fn lemma_row_forward(row: Row, data: Seq<u8>, c: Cursor)
    ensures
        parse_row(row, data, c) is Ok ==> {
            let c2 = parse_row(row, data, c)->Ok_0;
            &&& c.off <= c2.off
            &&& extends(c2.values, c.values)
            &&& c2.values.len() == c.values.len() + crate::roundtrip::row_count(row)
        },
    decreases row, 0nat,
{
    match row {
        Row::Consume(_) => {},
        Row::Field(t) => {
            lemma_field_forward(t, data, c.off, c.values);
        },
        Row::Cond(e, block) => {
            match eval(e, c.values, Some(data), c.off as int, None) {
                Some(x) => if x != 0 {
                    lemma_block_forward(block@, block@.len(), data, c);
                    assert(block@.take(block@.len() as int) =~= block@);
                },
                None => {},
            }
        },
    }
}

/// Decoding a present block moves forward and appends one present value
/// per field.
pub proof fn lemma_block_forward(block: Seq<BlockRow>, n: nat, data: Seq<u8>, c: Cursor)
    ensures
        parse_block(block, n, data, c) is Ok ==> {
            let c2 = parse_block(block, n, data, c)->Ok_0;
            &&& n <= block.len()
            &&& c.off <= c2.off
            &&& extends(c2.values, c.values)
            &&& c2.values.len() == c.values.len() + block_field_count(block.take(n as int))
            &&& forall|j: int| c.values.len() <= j < c2.values.len() ==> #[trigger] c2.values[j] matches ValueModel::Opt(
                Some(_),
            )
        },
    decreases block, n,
{
    if n == 0 {
        assert(block.take(0) =~= Seq::<BlockRow>::empty());
    } else if n <= block.len() {
        lemma_block_forward(block, (n - 1) as nat, data, c);
        assert(block.take(n as int).drop_last() =~= block.take(n - 1));
        assert(block.take(n as int).last() == block[n - 1]);
        match parse_block(block, (n - 1) as nat, data, c) {
            Ok(c1) => {
                match block[n - 1] {
                    BlockRow::Consume(_) => {},
                    BlockRow::Field(t) => {
                        assert(decreases_to!(block => block[n - 1]));
                        lemma_field_forward(t, data, c1.off, c1.values);
                    },
                }
            },
            Err(_) => {},
        }
    }
}


proof fn lemma_eval_no_peek(e: Expr, f: Seq<ValueModel>, d: Option<Seq<u8>>, o: int, t: Option<ValueModel>)
    requires
        no_peek(e),
    ensures
        eval(e, f, d, o, t) == eval(e, f, None, 0, t),
    decreases e,
{
    match e {
        Expr::Not(a) => {
            lemma_eval_no_peek(*a, f, d, o, t);
        },
        Expr::Cast(_, a) => {
            lemma_eval_no_peek(*a, f, d, o, t);
        },
        Expr::Paren(_, a) => {
            lemma_eval_no_peek(*a, f, d, o, t);
        },
        Expr::Bin(_, a, b) => {
            lemma_eval_no_peek(*a, f, d, o, t);
            lemma_eval_no_peek(*b, f, d, o, t);
        },
        _ => {},
    }
}

proof fn lemma_agree_sym(a: Seq<u8>, b: Seq<u8>, n: nat)
    requires
        agree(a, b, n),
    ensures
        agree(b, a, n),
{
    reveal(agree);
}

/// Two bit strings that spell the same value hold the same bits.
proof fn lemma_bits_value_inj(a: Seq<u8>, b: Seq<u8>, off: int, n: nat)
    requires
        bits_value(a, off, n) == bits_value(b, off, n),
    ensures
        forall|j: int| 0 <= j < n ==> #[trigger] bit_at(a, off + j) == bit_at(b, off + j),
    decreases n,
{
    if n > 0 {
        lemma_bit_at_small(a, off + n - 1);
        lemma_bit_at_small(b, off + n - 1);
        lemma_bits_value_inj(a, b, off, (n - 1) as nat);
        assert forall|j: int| 0 <= j < n implies #[trigger] bit_at(a, off + j) == bit_at(b, off + j) by {
            if j < n - 1 {
                assert(bit_at(a, off + j) == bit_at(b, off + j));
            }
        }
    }
}

/// Zero bits spell zero.
proof fn lemma_zero_bits_value(data: Seq<u8>, off: int, n: nat)
    requires
        zero_between(data, off, off + n),
    ensures
        bits_value(data, off, n) == 0,
    decreases n,
{
    if n > 0 {
        assert(bit_at(data, off + n - 1) == 0);
        lemma_zero_bits_value(data, off, (n - 1) as nat);
    }
}

/// Agreement below `off` and on the `n` bits at `off` is agreement below
/// `off + n`.
proof fn lemma_agree_extend(a: Seq<u8>, b: Seq<u8>, off: nat, n: nat)
    requires
        agree(a, b, off),
        forall|j: int| 0 <= j < n ==> #[trigger] bit_at(a, off + j) == bit_at(b, off + j),
    ensures
        agree(a, b, off + n),
{
    reveal(agree);
    assert forall|i: int| 0 <= i < off + n implies #[trigger] bit_at(a, i) == bit_at(b, i) by {
        if i >= off {
            assert(bit_at(a, off + (i - off)) == bit_at(b, off + (i - off)));
        }
    }
}

/// Equal bytes `lo .. hi` hold equal bits.
proof fn lemma_bytes_give_bits(a: Seq<u8>, b: Seq<u8>, lo: int, hi: int)
    requires
        0 <= lo <= hi <= a.len(),
        hi <= b.len(),
        forall|k: int| lo <= k < hi ==> a[k] == b[k],
    ensures
        forall|j: int| 0 <= j < 8 * (hi - lo) ==> #[trigger] bit_at(a, 8 * lo + j) == bit_at(b, 8 * lo + j),
{
    assert forall|j: int| 0 <= j < 8 * (hi - lo) implies #[trigger] bit_at(a, 8 * lo + j) == bit_at(b, 8 * lo + j) by {
        let i = 8 * lo + j;
        assert(lo <= i / 8 < hi);
    }
}

/// A tight buffer that agrees with another tight one at the same position
/// is that buffer.
pub proof fn lemma_tight_agree_equal(a: Seq<u8>, b: Seq<u8>, n: nat)
    requires
        tight(a, n),
        tight(b, n),
        agree(a, b, n),
    ensures
        a == b,
{
    reveal(tight);
    let len = a.len();
    assert(agree(a, b, 8 * len)) by {
        reveal(agree);
        assert forall|i: int| 0 <= i < 8 * len implies #[trigger] bit_at(a, i) == bit_at(b, i) by {
            if i >= n {
                assert(bit_at(a, i) == 0);
                assert(bit_at(b, i) == 0);
            }
        }
    }
    lemma_bytes_agree(a, b, 0, len as int);
    assert(a =~= a.subrange(0, len as int));
    assert(b =~= b.subrange(0, len as int));
}

/// The two's complement pattern of a sign-extended field is its raw bits.
proof fn lemma_sign_extend_pattern(raw: nat, b: nat)
    requires
        1 <= b <= 63,
        raw < pow2(b),
    ensures
        -pow2((b - 1) as nat) <= crate::decode::sign_extend(raw, b) < pow2((b - 1) as nat),
        bit_pattern(ValueModel::Int(crate::decode::sign_extend(raw, b) as i64))->0 % pow2(b) == raw,
{
    let m = pow2(b);
    lemma_pow2_pos(b);
    lemma_pow2_unfold(b);
    lemma_pow2_strictly_increases(b, 64);
    lemma2_to64();
    let i = crate::decode::sign_extend(raw, b);
    if raw < pow2((b - 1) as nat) {
        lemma_small_mod(raw, m);
    } else {
        let q = pow2((64 - b) as nat);
        lemma_pow2_adds(b, (64 - b) as nat);
        assert(pow2(64) == m * q);
        lemma_pow2_pos((64 - b) as nat);
        assert(m * (q - 1) + raw == i + m * q) by (nonlinear_arith)
            requires
                i == raw - m,
        ;
        lemma_mod_multiples_vanish(q - 1, raw as int, m as int);
        lemma_small_mod(raw, m);
    }
}

/// An integer field, stored into a tight buffer that agrees with the data
/// below `off`, with the value the data spells there: the result agrees
/// with the data below the field's end.
proof fn lemma_put_int_matches(
    buf: Seq<u8>,
    data: Seq<u8>,
    off: nat,
    n: nat,
    val: u64,
    exact: bool,
    b1: Seq<u8>,
    o1: nat,
)
    requires
        tight(buf, off),
        agree(buf, data, off),
        put_int(buf, off, n, val, exact) == Ok::<(Seq<u8>, nat), crate::error::WriteError>((b1, o1)),
        val as nat % pow2(n) == bits_value(data, off as int, n),
    ensures
        o1 == off + n,
        tight(b1, o1),
        agree(b1, data, o1),
{
    lemma_put_int(buf, off, n, val, exact, b1, o1);
    lemma_bits_value_inj(b1, data, off as int, n);
    lemma_agree_sym(buf, b1, off);
    lemma_agree_trans(b1, buf, data, off, off);
    lemma_agree_extend(b1, data, off, n);
}

/// Appending the data's bytes `off / 8 ..` to a tight buffer that agrees
/// with the data below the byte boundary `off`.
proof fn lemma_put_bytes_matches(buf: Seq<u8>, data: Seq<u8>, off: nat, s: Seq<u8>, b1: Seq<u8>, o1: nat)
    requires
        tight(buf, off),
        agree(buf, data, off),
        off % 8 == 0,
        off / 8 + s.len() <= data.len(),
        s == data.subrange((off / 8) as int, (off / 8 + s.len()) as int),
        put_bytes(buf, off, s) == Ok::<(Seq<u8>, nat), crate::error::WriteError>((b1, o1)),
    ensures
        o1 == off + 8 * s.len(),
        tight(b1, o1),
        agree(b1, data, o1),
{
    lemma_put_bytes(buf, off, s, b1, o1);
    let lo = (off / 8) as int;
    let hi = lo + s.len();
    assert forall|k: int| lo <= k < hi implies b1[k] == data[k] by {
        assert(b1[k] == s[k - lo]);
    }
    lemma_bytes_give_bits(b1, data, lo, hi);
    lemma_agree_sym(buf, b1, off);
    lemma_agree_trans(b1, buf, data, off, off);
    assert forall|j: int| 0 <= j < 8 * s.len() implies #[trigger] bit_at(b1, off + j) == bit_at(data, off + j) by {
        assert(bit_at(b1, 8 * lo + j) == bit_at(data, 8 * lo + j));
    }
    lemma_agree_extend(b1, data, off, 8 * s.len());
}


/// A write that ends at `o` with a tight buffer that agrees with the data
/// below `o`.
pub open spec fn writes_back(r: Result<(Seq<u8>, nat), crate::error::WriteError>, data: Seq<u8>, o: nat) -> bool {
    match r {
        Ok((b1, o1)) => o1 == o && tight(b1, o) && agree(b1, data, o),
        Err(_) => false,
    }
}

/// A row write that ends at `o` having used `used` values, with a tight
/// buffer that agrees with the data below `o`.
pub open spec fn state_writes_back(
    r: Result<WriteState, crate::error::WriteError>,
    data: Seq<u8>,
    o: nat,
    used: nat,
) -> bool {
    match r {
        Ok(st) => st.off == o && st.used == used && tight(st.buf, o) && agree(st.buf, data, o),
        Err(_) => false,
    }
}

/// Writing a decoded field value again, from a tight buffer that agrees
/// with the data below the field, reproduces the data below its end.
pub proof fn lemma_field_reencodes(
    ty: FieldType,
    data: Seq<u8>,
    off: nat,
    fields: Seq<ValueModel>,
    buf: Seq<u8>,
    exact: bool,
)
    requires
        field_reencodable(ty),
        parse_field(ty, data, off, fields) is Ok,
        field_clean(ty, data, off),
        tight(buf, off),
        agree(buf, data, off),
        parse_field(ty, data, off, fields)->Ok_0.1 + 8 <= usize::MAX,
    ensures
        writes_back(
            write_field(ty, parse_field(ty, data, off, fields)->Ok_0.0, buf, off, exact),
            data,
            parse_field(ty, data, off, fields)->Ok_0.1,
        ),
    decreases ty, 0nat,
{
    let (v, o) = parse_field(ty, data, off, fields)->Ok_0;
    lemma2_to64();
    lemma_tight_len(buf, off);
    match ty {
        FieldType::UInt(b) => {
            let raw = bits_value(data, off as int, b as nat);
            lemma_bits_value_bound(data, off as int, b as nat);
            if b < 64 {
                lemma_pow2_strictly_increases(b as nat, 64);
            }
            lemma_small_mod(raw, pow2(64));
            lemma_small_mod(raw, pow2(b as nat));
            let r = write_field(ty, v, buf, off, exact);
            lemma_put_int_matches(buf, data, off, b as nat, raw as u64, exact, r->Ok_0.0, r->Ok_0.1);
        },
        FieldType::USize => {
            let n = usize::BITS as nat;
            let raw = bits_value(data, off as int, n);
            lemma_bits_value_bound(data, off as int, n);
            if n < 64 {
                lemma_pow2_strictly_increases(n, 64);
            }
            lemma_small_mod(raw, pow2(64));
            lemma_small_mod(raw, pow2(n));
            let r = write_field(ty, v, buf, off, exact);
            lemma_put_int_matches(buf, data, off, n, raw as u64, exact, r->Ok_0.0, r->Ok_0.1);
        },
        FieldType::Int(b) => {
            let raw = bits_value(data, off as int, b as nat);
            lemma_bits_value_bound(data, off as int, b as nat);
            lemma_sign_extend_pattern(raw, b as nat);
            lemma_pow2_strictly_increases(b as nat, 64);
            let p = bit_pattern(v)->0 % pow2(b as nat);
            lemma_pow2_pos(b as nat);
            lemma_small_mod(p, pow2(b as nat));
            let r = write_field(ty, v, buf, off, exact);
            lemma_put_int_matches(buf, data, off, b as nat, p as u64, exact, r->Ok_0.0, r->Ok_0.1);
        },
        FieldType::Bool => {
            let raw = bits_value(data, off as int, 1);
            lemma_bits_value_bound(data, off as int, 1);
            let x: u64 = if raw == 1 { 1 } else { 0 };
            lemma_small_mod(x as nat, 2);
            let r = write_field(ty, v, buf, off, exact);
            lemma_put_int_matches(buf, data, off, 1, x, exact, r->Ok_0.0, r->Ok_0.1);
        },
        FieldType::Array(n) => {
            let r = write_field(ty, v, buf, off, exact);
            lemma_put_bytes_matches(buf, data, off, v->Bytes_0, r->Ok_0.0, r->Ok_0.1);
        },
        FieldType::Bytes(size) => {
            let r = write_field(ty, v, buf, off, exact);
            lemma_put_bytes_matches(buf, data, off, v->Bytes_0, r->Ok_0.0, r->Ok_0.1);
        },
        FieldType::CStr(_) => {
            let bo = (off / 8) as int;
            let end = scan_end(data, bo);
            lemma_scan_end_bounds(data, bo);
            let sb = v->CStr_0;
            assert(!sb.contains(0u8)) by {
                if sb.contains(0u8) {
                    let j = choose|j: int| 0 <= j < sb.len() && sb[j] == 0u8;
                    assert(data[bo + j] == 0);
                }
            }
            assert(sb.push(0u8) =~= data.subrange(bo, end + 1));
            let r = write_field(ty, v, buf, off, exact);
            lemma_put_bytes_matches(buf, data, off, sb.push(0u8), r->Ok_0.0, r->Ok_0.1);
        },
        FieldType::Optional(t) => {
            lemma_field_reencodes(*t, data, off, fields, buf, exact);
        },
        FieldType::Boxed(t) => {
            lemma_field_reencodes(*t, data, off, fields, buf, exact);
        },
        FieldType::Exclude(_) => {
            lemma_tight_agree_self(buf, off);
        },
        FieldType::Custom(l) => {
            lemma_layout_reencodes(*l, data, off, buf);
        },
    }
}

/// Writing a decoded nested record again reproduces the data below its end.
pub proof fn lemma_layout_reencodes(l: Layout, data: Seq<u8>, off: nat, buf: Seq<u8>)
    requires
        layout_reencodable(l),
        parse_layout(l, data, off).0 is Ok,
        layout_clean(l, data, off),
        tight(buf, off),
        agree(buf, data, off),
        parse_layout(l, data, off).1 + 8 <= usize::MAX,
    ensures
        writes_back(write_layout(l, parse_layout(l, data, off).0->Ok_0, buf, off), data, parse_layout(l, data, off).1),
    decreases l, 0nat,
{
    match l {
        Layout::Struct(rows) => {
            let c = parse_rows(rows@, rows@.len(), data, off)->Ok_0;
            lemma_rows_reencode(rows@, rows@.len(), data, off, c.values, buf);
        },
        Layout::Enum(el) => {
            let (tag, o) = parse_field(el.repr, data, off, Seq::empty())->Ok_0;
            assert(el.variants@.len() == el.variants.len());
            lemma_select_variant_shape(el.variants@, 0, tag);
            lemma_field_reencodes(el.repr, data, off, Seq::empty(), buf, true);
        },
    }
}

/// Writing the values decoded from the first `n` rows again (as part of
/// the record's values `vs`) reproduces the data below where they end.
pub proof fn lemma_rows_reencode(rows: Seq<Row>, n: nat, data: Seq<u8>, start: nat, vs: Seq<ValueModel>, buf: Seq<u8>)
    requires
        rows_reencodable(rows, n),
        parse_rows(rows, n, data, start) is Ok,
        rows_clean(rows, n, data, start),
        extends(vs, parse_rows(rows, n, data, start)->Ok_0.values),
        tight(buf, start),
        agree(buf, data, start),
        parse_rows(rows, n, data, start)->Ok_0.off + 8 <= usize::MAX,
    ensures
        state_writes_back(
            write_rows(rows, n, vs, buf, start),
            data,
            parse_rows(rows, n, data, start)->Ok_0.off,
            parse_rows(rows, n, data, start)->Ok_0.values.len(),
        ),
    decreases rows, n,
{
    if n > 0 {
        let c1 = parse_rows(rows, (n - 1) as nat, data, start)->Ok_0;
        let c2 = parse_rows(rows, n, data, start)->Ok_0;
        lemma_row_forward(rows[n - 1], data, c1);
        lemma_rows_reencode(rows, (n - 1) as nat, data, start, vs, buf);
        let s1 = write_rows(rows, (n - 1) as nat, vs, buf, start)->Ok_0;
        lemma_row_reencodes(rows[n - 1], data, c1, vs, s1);
    } else {
        lemma_tight_agree_self(buf, start);
    }
}

/// Writing the values decoded from one row again reproduces the data
/// below where the row ends.
pub proof fn lemma_row_reencodes(row: Row, data: Seq<u8>, c1: Cursor, vs: Seq<ValueModel>, s1: WriteState)
    requires
        row_reencodable(row),
        parse_row(row, data, c1) is Ok,
        row_clean(row, data, c1),
        extends(vs, parse_row(row, data, c1)->Ok_0.values),
        s1.off == c1.off,
        s1.used == c1.values.len(),
        tight(s1.buf, c1.off),
        agree(s1.buf, data, c1.off),
        parse_row(row, data, c1)->Ok_0.off + 8 <= usize::MAX,
    ensures
        state_writes_back(
            write_row(row, vs, s1),
            data,
            parse_row(row, data, c1)->Ok_0.off,
            parse_row(row, data, c1)->Ok_0.values.len(),
        ),
    decreases row, 0nat,
{
    let c2 = parse_row(row, data, c1)->Ok_0;
    lemma_row_forward(row, data, c1);
    match row {
        Row::Consume(e) => {
            lemma_skip_reencodes(e, data, c1, vs, s1);
        },
        Row::Field(t) => {
            lemma_field_reencodes(t, data, c1.off, c1.values, s1.buf, false);
            assert(vs[s1.used as int] == c2.values[c1.values.len() as int]);
        },
        Row::Cond(e, block) => {
            let cnt = block_field_count(block@);
            let x = eval(e, c1.values, Some(data), c1.off as int, None)->0;
            if x != 0 {
                lemma_block_forward(block@, block@.len(), data, c1);
                assert(block@.take(block@.len() as int) =~= block@);
                assert(c2.values[c1.values.len() as int] matches ValueModel::Opt(Some(_)));
                assert(vs[s1.used as int] == c2.values[c1.values.len() as int]);
                lemma_block_reencodes(block@, block@.len(), data, c1, vs, s1);
            } else {
                assert(c2.values[c1.values.len() as int] == ValueModel::Opt(None));
                assert(vs[s1.used as int] == c2.values[c1.values.len() as int]);
            }
        },
    }
}

/// Writing a skip again: zero bits where the data holds zero bits.
proof fn lemma_skip_reencodes(e: Expr, data: Seq<u8>, c1: Cursor, vs: Seq<ValueModel>, s1: WriteState)
    requires
        no_peek(e),
        skip_bits(e, data, c1) is Ok,
        skip_clean(e, data, c1),
        extends(vs, c1.values),
        s1.off == c1.off,
        s1.used == c1.values.len(),
        tight(s1.buf, c1.off),
        agree(s1.buf, data, c1.off),
        skip_bits(e, data, c1)->Ok_0.off + 8 <= usize::MAX,
    ensures
        state_writes_back(
            write_skip(e, vs, s1),
            data,
            skip_bits(e, data, c1)->Ok_0.off,
            c1.values.len(),
        ),
{
    let c2 = skip_bits(e, data, c1)->Ok_0;
    lemma_eval_no_peek(e, c1.values, Some(data), c1.off as int, None);
    lemma_eval_extends(e, c1.values, vs, None, 0, 0, None);
    let a = as_count(eval(e, vs, None, 0, None))->0;
    assert(c2.off == c1.off + a);
    lemma_zero_bits_value(data, c1.off as int, a);
    lemma_pow2_pos(a);
    lemma_small_mod(0, pow2(a));
    let r = put_int(s1.buf, s1.off, a, 0, false);
    lemma_put_int_matches(s1.buf, data, c1.off, a, 0, false, r->Ok_0.0, r->Ok_0.1);
}

/// Writing the values decoded from the first `n` rows of a present block
/// again reproduces the data below where they end.
pub proof fn lemma_block_reencodes(
    block: Seq<BlockRow>,
    n: nat,
    data: Seq<u8>,
    c: Cursor,
    vs: Seq<ValueModel>,
    s: WriteState,
)
    requires
        block_reencodable(block, n),
        parse_block(block, n, data, c) is Ok,
        block_clean(block, n, data, c),
        extends(vs, parse_block(block, n, data, c)->Ok_0.values),
        s.off == c.off,
        s.used == c.values.len(),
        tight(s.buf, c.off),
        agree(s.buf, data, c.off),
        parse_block(block, n, data, c)->Ok_0.off + 8 <= usize::MAX,
    ensures
        state_writes_back(
            write_block(block, n, vs, s),
            data,
            parse_block(block, n, data, c)->Ok_0.off,
            parse_block(block, n, data, c)->Ok_0.values.len(),
        ),
    decreases block, n,
{
    if n == 0 {
        lemma_tight_agree_self(s.buf, s.off);
    } else {
        let c1 = parse_block(block, (n - 1) as nat, data, c)->Ok_0;
        let c2 = parse_block(block, n, data, c)->Ok_0;
        match block[n - 1] {
            BlockRow::Consume(_) => {},
            BlockRow::Field(t) => {
                assert(decreases_to!(block => block[n - 1]));
                lemma_field_forward(t, data, c1.off, c1.values);
            },
        }
        assert(c1.off <= c2.off);
        assert(extends(c2.values, c1.values));
        lemma_block_reencodes(block, (n - 1) as nat, data, c, vs, s);
        let s1 = write_block(block, (n - 1) as nat, vs, s)->Ok_0;
        assert(block_row_reencodable(block[n - 1]));
        assert(block_row_clean(block[n - 1], data, c1));
        assert(write_block(block, n, vs, s) == write_block_row(block[n - 1], vs, s1));
        match block[n - 1] {
            BlockRow::Consume(e) => {
                lemma_skip_reencodes(e, data, c1, vs, s1);
            },
            BlockRow::Field(t) => {
                assert(decreases_to!(block => block[n - 1]));
                let k = c1.values.len();
                assert(vs[k as int] == c2.values[k as int]);
                let v = parse_field(t, data, c1.off, c1.values)->Ok_0.0;
                assert(vs[k as int] == ValueModel::Opt(Some(Box::new(v))));
                lemma_field_reencodes(t, data, c1.off, c1.values, s1.buf, false);
                assert(write_block_row(block[n - 1], vs, s1) == write_opt_field(t, vs[k as int], s1));
            },
        }
    }
}


/// Any two buffers hold the same first zero bits.
pub proof fn lemma_agree_nothing(a: Seq<u8>, b: Seq<u8>)
    ensures
        agree(a, b, 0),
{
    reveal(agree);
}

} // verus!
