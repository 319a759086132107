//! Encoding then decoding: a value that fits its layout comes back.

use vstd::prelude::*;
use vstd::arithmetic::power2::{
    pow2, lemma2_to64, lemma_pow2_pos, lemma_pow2_adds, lemma_pow2_unfold, lemma_pow2_strictly_increases,
};
use vstd::arithmetic::div_mod::{lemma_small_mod, lemma_mod_multiples_vanish};
use crate::decode::{
    as_count, parse_block, parse_field, parse_layout, parse_row, parse_rows, scan_end, sign_extend,
    skip_bits, Cursor,
};
use crate::expr::eval;
use crate::bits::{
    bit_at, bits_value, field_bit, stores_field, lemma_stored_bytes_stores, lemma_byte_of_bits,
    lemma_bit_at_index, law_stored_field_reads_back, law_merge_into_zero_bits,
};
use crate::encode::{
    put_int, put_bytes, write_field, write_skip, write_row, write_opt_field, write_block_row,
    write_block, write_rows, write_layout, tag_for, WriteState,
};
use crate::layout::{BlockRow, Expr, FieldType, Layout, Row, ValueModel};
use crate::model::{bit_pattern, block_field_count, default_of};

verus! {

/// A buffer written up to bit `off`: just long enough to hold those bits,
/// and zero from `off` on.
#[verifier::opaque]
pub open spec fn tight(buf: Seq<u8>, off: nat) -> bool {
    &&& buf.len() == (off + 7) / 8
    &&& forall|i: int| off <= i ==> #[trigger] bit_at(buf, i) == 0
}

/// `a` and `b` hold the same first `n` bits.
#[verifier::opaque]
pub open spec fn agree(a: Seq<u8>, b: Seq<u8>, n: nat) -> bool {
    forall|i: int| 0 <= i < n ==> #[trigger] bit_at(a, i) == bit_at(b, i)
}

/// The number of field values that a row stands for.
pub open spec fn row_count(row: Row) -> nat {
    match row {
        Row::Consume(_) => 0,
        Row::Field(_) => 1,
        Row::Cond(_, block) => block_field_count(block@),
    }
}

/// The number of field values that the first `n` rows stand for.
pub open spec fn rows_used(rows: Seq<Row>, n: nat) -> nat
    decreases n,
{
    if n == 0 || n > rows.len() {
        0
    } else {
        rows_used(rows, (n - 1) as nat) + row_count(rows[n - 1])
    }
}

pub(crate) proof fn lemma_agree_trans(a: Seq<u8>, b: Seq<u8>, c: Seq<u8>, n: nat, m: nat)
    requires
        agree(a, b, n),
        agree(b, c, m),
        n <= m,
    ensures
        agree(a, c, n),
{
    reveal(tight);
    reveal(agree);
    assert forall|i: int| 0 <= i < n implies #[trigger] bit_at(a, i) == bit_at(c, i) by {
        assert(bit_at(a, i) == bit_at(b, i));
        assert(bit_at(b, i) == bit_at(c, i));
    }
}

pub(crate) proof fn lemma_agree_shorter(a: Seq<u8>, b: Seq<u8>, n: nat, m: nat)
    requires
        agree(a, b, m),
        n <= m,
    ensures
        agree(a, b, n),
{
    reveal(tight);
    reveal(agree);
    assert forall|i: int| 0 <= i < n implies #[trigger] bit_at(a, i) == bit_at(b, i) by {
        assert(bit_at(a, i) == bit_at(b, i));
    }
}

pub(crate) proof fn lemma_bit_past_end(a: Seq<u8>, i: int)
    requires
        i >= 8 * a.len(),
    ensures
        bit_at(a, i) == 0,
{
}

/// Storing an integer field into a tight buffer keeps the bits before it,
/// leaves the buffer tight after it, and the field reads back modulo its
/// width.
pub(crate) proof fn lemma_put_int(buf: Seq<u8>, off: nat, n: nat, val: u64, exact: bool, b1: Seq<u8>, o1: nat)
    requires
        tight(buf, off),
        put_int(buf, off, n, val, exact) == Ok::<(Seq<u8>, nat), crate::error::WriteError>((b1, o1)),
    ensures
        n <= 64,
        o1 == off + n,
        o1 + 8 <= usize::MAX,
        tight(b1, o1),
        agree(buf, b1, off),
        bits_value(b1, off as int, n) == val as nat % pow2(n),
{
    reveal(tight);
    reveal(agree);
    let merge = !exact && !crate::bits::overwrites(off, n);
    lemma_stored_bytes_stores(buf, off, n, val, merge);
    assert(stores_field(buf, b1, off, n, val, merge));
    assert(b1.len() >= buf.len());
    assert forall|i: int| o1 <= i implies #[trigger] bit_at(b1, i) == 0 by {
        if i < 8 * b1.len() {
            assert(bit_at(b1, i) == bit_at(buf, i));
        }
    }
    assert forall|i: int| 0 <= i < off implies #[trigger] bit_at(buf, i) == bit_at(b1, i) by {
        if i < 8 * b1.len() {
            assert(bit_at(b1, i) == bit_at(buf, i));
        } else {
            lemma_bit_past_end(buf, i);
        }
    }
    if merge {
        assert forall|i: int| off <= i < off + n implies #[trigger] bit_at(buf, i) == 0 by {}
        law_merge_into_zero_bits(buf, b1, off, n, val);
    }
    law_stored_field_reads_back(buf, b1, off, n, val);
}

/// Appending bytes to a tight buffer at a byte boundary.
pub(crate) proof fn lemma_put_bytes(buf: Seq<u8>, off: nat, s: Seq<u8>, b1: Seq<u8>, o1: nat)
    requires
        tight(buf, off),
        off % 8 == 0,
        put_bytes(buf, off, s) == Ok::<(Seq<u8>, nat), crate::error::WriteError>((b1, o1)),
    ensures
        buf.len() == off / 8,
        b1 == buf + s,
        o1 == off + 8 * s.len(),
        buf.len() + s.len() <= usize::MAX,
        tight(b1, o1),
        agree(buf, b1, off),
{
    reveal(tight);
    reveal(agree);
    assert forall|i: int| o1 <= i implies #[trigger] bit_at(b1, i) == 0 by {
        lemma_bit_past_end(b1, i);
    }
    assert forall|i: int| 0 <= i < off implies #[trigger] bit_at(buf, i) == bit_at(b1, i) by {
        assert(i / 8 < buf.len());
        assert(b1[i / 8] == buf[i / 8]);
    }
}

pub proof fn lemma_tight_agree_self(buf: Seq<u8>, off: nat)
    ensures
        agree(buf, buf, off),
{
    reveal(tight);
    reveal(agree);
}

/// A field write from a tight buffer moves forward, keeps the bits already
/// written and leaves the buffer tight.
pub proof fn lemma_field_writes_forward(
    ty: FieldType,
    v: ValueModel,
    buf: Seq<u8>,
    off: nat,
    exact: bool,
    b1: Seq<u8>,
    o1: nat,
)
    requires
        tight(buf, off),
        write_field(ty, v, buf, off, exact) == Ok::<(Seq<u8>, nat), crate::error::WriteError>((b1, o1)),
    ensures
        off <= o1,
        tight(b1, o1),
        agree(buf, b1, off),
    decreases ty, 0nat,
{
    lemma_tight_agree_self(buf, off);
    match ty {
        FieldType::UInt(b) => {
            lemma_put_int(buf, off, b as nat, v->UInt_0, exact, b1, o1);
        },
        FieldType::USize => {
            lemma_put_int(buf, off, usize::BITS as nat, v->UInt_0, exact, b1, o1);
        },
        FieldType::Int(b) => {
            let p = (crate::model::bit_pattern(v)->0 % pow2(b as nat)) as u64;
            lemma_put_int(buf, off, b as nat, p, exact, b1, o1);
        },
        FieldType::Bool => {
            let x: u64 = if v->Bool_0 { 1 } else { 0 };
            lemma_put_int(buf, off, 1, x, exact, b1, o1);
        },
        FieldType::Array(_) => {
            lemma_put_bytes(buf, off, v->Bytes_0, b1, o1);
        },
        FieldType::Bytes(_) => {
            lemma_put_bytes(buf, off, v->Bytes_0, b1, o1);
        },
        FieldType::CStr(_) => {
            lemma_put_bytes(buf, off, v->CStr_0.push(0u8), b1, o1);
        },
        FieldType::Optional(t) => {
            match v {
                ValueModel::Opt(Some(x)) => {
                    lemma_field_writes_forward(*t, *x, buf, off, exact, b1, o1);
                },
                _ => {},
            }
        },
        FieldType::Boxed(t) => {
            lemma_field_writes_forward(*t, v, buf, off, exact, b1, o1);
        },
        FieldType::Exclude(_) => {},
        FieldType::Custom(l) => {
            lemma_layout_writes_forward(*l, v, buf, off, b1, o1);
        },
    }
}

/// A record or enumeration write from a tight buffer moves forward, keeps
/// the bits already written and leaves the buffer tight.
pub proof fn lemma_layout_writes_forward(l: Layout, v: ValueModel, buf: Seq<u8>, off: nat, b1: Seq<u8>, o1: nat)
    requires
        tight(buf, off),
        write_layout(l, v, buf, off) == Ok::<(Seq<u8>, nat), crate::error::WriteError>((b1, o1)),
    ensures
        off <= o1,
        tight(b1, o1),
        agree(buf, b1, off),
    decreases l, 0nat,
{
    lemma_tight_agree_self(buf, off);
    match l {
        Layout::Struct(rows) => {
            let vs = v->Record_0;
            let st = write_rows(rows@, rows@.len(), vs, buf, off)->Ok_0;
            lemma_rows_write_forward(rows@, rows@.len(), vs, buf, off, st);
        },
        Layout::Enum(el) => {
            let i = v->Variant_0;
            let inner = v->Variant_1;
            let tag = tag_for(
                el.repr,
                el.variants@[i as int],
                match inner {
                    Some(b) => Some(*b),
                    None => None,
                },
            )->0;
            lemma_field_writes_forward(el.repr, tag, buf, off, true, b1, o1);
        },
    }
}

proof fn lemma_skip_writes_forward(e: crate::layout::Expr, vs: Seq<ValueModel>, st0: WriteState, st: WriteState)
    requires
        tight(st0.buf, st0.off),
        write_skip(e, vs, st0) == Ok::<WriteState, crate::error::WriteError>(st),
    ensures
        st0.off <= st.off,
        tight(st.buf, st.off),
        agree(st0.buf, st.buf, st0.off),
        st.used == st0.used,
{
    let a = crate::decode::as_count(crate::expr::eval(e, vs, None, 0, None))->0;
    lemma_put_int(st0.buf, st0.off, a, 0, false, st.buf, st.off);
}

/// Writing the first `n` rows of a record from a tight buffer.
pub proof fn lemma_rows_write_forward(
    rows: Seq<Row>,
    n: nat,
    vs: Seq<ValueModel>,
    buf: Seq<u8>,
    off: nat,
    st: WriteState,
)
    requires
        tight(buf, off),
        write_rows(rows, n, vs, buf, off) == Ok::<WriteState, crate::error::WriteError>(st),
    ensures
        off <= st.off,
        tight(st.buf, st.off),
        agree(buf, st.buf, off),
        st.used == rows_used(rows, n),
    decreases rows, n,
{
    lemma_tight_agree_self(buf, off);
    if n == 0 {
    } else {
        let s1 = write_rows(rows, (n - 1) as nat, vs, buf, off)->Ok_0;
        lemma_rows_write_forward(rows, (n - 1) as nat, vs, buf, off, s1);
        lemma_row_writes_forward(rows[n - 1], vs, s1, st);
        lemma_agree_trans(buf, s1.buf, st.buf, off, s1.off);
    }
}

/// Writing one row of a record from a tight buffer.
pub proof fn lemma_row_writes_forward(row: Row, vs: Seq<ValueModel>, st0: WriteState, st: WriteState)
    requires
        tight(st0.buf, st0.off),
        write_row(row, vs, st0) == Ok::<WriteState, crate::error::WriteError>(st),
    ensures
        st0.off <= st.off,
        tight(st.buf, st.off),
        agree(st0.buf, st.buf, st0.off),
        st.used == st0.used + row_count(row),
    decreases row, 0nat,
{
    lemma_tight_agree_self(st0.buf, st0.off);
    match row {
        Row::Consume(e) => {
            lemma_skip_writes_forward(e, vs, st0, st);
        },
        Row::Field(t) => {
            lemma_field_writes_forward(t, vs[st0.used as int], st0.buf, st0.off, false, st.buf, st.off);
        },
        Row::Cond(_, block) => {
            let cnt = block_field_count(block@);
            if cnt != 0 {
                match vs[st0.used as int] {
                    ValueModel::Opt(Some(_)) => {
                        lemma_block_writes_forward(block@, block@.len(), vs, st0, st);
                        assert(block@.take(block@.len() as int) =~= block@);
                    },
                    _ => {},
                }
            }
        },
    }
}

/// The number of fields among the first `n` entries of a block grows by
/// one exactly at a field.
proof fn lemma_block_count_step(block: Seq<BlockRow>, n: nat)
    requires
        0 < n <= block.len(),
    ensures
        block_field_count(block.take(n as int)) == block_field_count(block.take(n - 1)) + match block[n
            - 1] {
            BlockRow::Field(_) => 1nat,
            BlockRow::Consume(_) => 0nat,
        },
{
    assert(block.take(n as int).drop_last() =~= block.take(n - 1));
    assert(block.take(n as int).last() == block[n - 1]);
}

/// Writing one entry of a present block from a tight buffer.
pub proof fn lemma_block_row_writes_forward(brow: BlockRow, vs: Seq<ValueModel>, st0: WriteState, st: WriteState)
    requires
        tight(st0.buf, st0.off),
        write_block_row(brow, vs, st0) == Ok::<WriteState, crate::error::WriteError>(st),
    ensures
        st0.off <= st.off,
        tight(st.buf, st.off),
        agree(st0.buf, st.buf, st0.off),
        st.used == st0.used + match brow {
            BlockRow::Field(_) => 1nat,
            BlockRow::Consume(_) => 0nat,
        },
    decreases brow, 0nat,
{
    lemma_tight_agree_self(st0.buf, st0.off);
    match brow {
        BlockRow::Consume(e) => {
            lemma_skip_writes_forward(e, vs, st0, st);
        },
        BlockRow::Field(t) => {
            match vs[st0.used as int] {
                ValueModel::Opt(Some(x)) => {
                    lemma_field_writes_forward(t, *x, st0.buf, st0.off, false, st.buf, st.off);
                },
                _ => {},
            }
        },
    }
}

/// Writing the first `n` rows of a present block from a tight buffer.
pub proof fn lemma_block_writes_forward(
    block: Seq<BlockRow>,
    n: nat,
    vs: Seq<ValueModel>,
    st0: WriteState,
    st: WriteState,
)
    requires
        tight(st0.buf, st0.off),
        write_block(block, n, vs, st0) == Ok::<WriteState, crate::error::WriteError>(st),
    ensures
        n <= block.len(),
        st0.off <= st.off,
        tight(st.buf, st.off),
        agree(st0.buf, st.buf, st0.off),
        st.used == st0.used + block_field_count(block.take(n as int)),
    decreases block, n,
{
    lemma_tight_agree_self(st0.buf, st0.off);
    if n == 0 {
        assert(block.take(0) =~= Seq::<BlockRow>::empty());
    } else {
        let s1 = write_block(block, (n - 1) as nat, vs, st0)->Ok_0;
        lemma_block_writes_forward(block, (n - 1) as nat, vs, st0, s1);
        lemma_block_count_step(block, n);
        lemma_block_row_writes_forward(block[n - 1], vs, s1, st);
        lemma_agree_trans(st0.buf, s1.buf, st.buf, st0.off, s1.off);
    }
}


/// A row that neither reads nor writes anything: an excluded field.
pub open spec fn is_silent(row: Row) -> bool {
    row matches Row::Field(FieldType::Exclude(_))
}

/// Every row from `n` on is silent.
pub open spec fn silent_after(rows: Seq<Row>, n: nat) -> bool {
    forall|j: int| n <= j < rows.len() ==> is_silent(#[trigger] rows[j])
}

/// `v`, written as a field of type `ty` from the buffer `buf` at bit `off`,
/// decodes from the written bytes `bf` as `w`: `w` is `v` itself, but for
/// an excluded field, which decodes as the default of its type, and for a
/// nested enumeration, which decodes as the variant that its rules pick
/// for the written tag. `pre` are the values decoded before the field (its
/// size expression may name them), and `last` says whether the field may
/// run to the end of the data. Size expressions are evaluated as decoding
/// evaluates them, on the written bytes.
pub open spec fn field_fits(
    ty: FieldType,
    v: ValueModel,
    w: ValueModel,
    pre: Seq<ValueModel>,
    buf: Seq<u8>,
    off: nat,
    bf: Seq<u8>,
    last: bool,
) -> bool
    decreases ty, 0nat,
{
    match ty {
        FieldType::UInt(b) => w == v && (v matches ValueModel::UInt(u) && (u as nat) < pow2(b as nat)),
        FieldType::USize => w == v && (v matches ValueModel::UInt(u) && (u as nat) < pow2(usize::BITS as nat)),
        FieldType::Int(b) => w == v && (v matches ValueModel::Int(i) && -pow2((b - 1) as nat) <= i < pow2(
            (b - 1) as nat,
        )),
        FieldType::Bool => w == v,
        FieldType::Array(_) => w == v,
        FieldType::Bytes(size) => w == v && match size {
            Some(e) => (v matches ValueModel::Bytes(s) && eval(e, pre, Some(bf), off as int, None) == Some(
                s.len() as int,
            )),
            None => last,
        },
        FieldType::CStr(size) => w == v && match size {
            Some(e) => (v matches ValueModel::CStr(s) && (eval(e, pre, Some(bf), off as int, None) matches Some(
                n,
            ) && s.len() < n <= usize::MAX)),
            None => true,
        },
        FieldType::Optional(t) => (v matches ValueModel::Opt(Some(x)) && (w matches ValueModel::Opt(Some(y))
            && field_fits(*t, *x, *y, pre, buf, off, bf, last))),
        FieldType::Boxed(t) => field_fits(*t, v, w, pre, buf, off, bf, last),
        FieldType::Exclude(t) => default_of(*t) == Some(w),
        FieldType::Custom(l) => layout_fits(*l, v, w, buf, off, bf, last),
    }
}

/// `v`, written as a record or an enumeration of layout `l` from `buf` at
/// bit `off`, decodes from the written bytes `bf` as `w`. A record's rows
/// all fit; an enumeration's tag fits its tag field, and the variant that
/// the rules pick for it is `w`.
pub open spec fn layout_fits(l: Layout, v: ValueModel, w: ValueModel, buf: Seq<u8>, off: nat, bf: Seq<u8>, last: bool) -> bool
    decreases l, 0nat,
{
    match l {
        Layout::Struct(rows) => v matches ValueModel::Record(vs) && w matches ValueModel::Record(ws) && vs.len()
            == ws.len() && rows_fit(rows@, rows@.len(), vs, ws, buf, off, bf, last),
        Layout::Enum(el) => v matches ValueModel::Variant(i, inner) && {
            let tag = tag_for(
                el.repr,
                el.variants@[i as int],
                match inner {
                    Some(b) => Some(*b),
                    None => None,
                },
            )->0;
            &&& field_fits(el.repr, tag, tag, Seq::empty(), buf, off, bf, last)
            &&& crate::decode::select_variant(el.variants@, 0, tag) == Ok::<ValueModel, crate::error::ParseError>(w)
        },
    }
}

/// The first `n` rows, written with the record values `vs` from `buf` at
/// bit `off`, fit the decoded values `ws`; `top` says whether the record
/// may run to the end of the data.
pub open spec fn rows_fit(
    rows: Seq<Row>,
    n: nat,
    vs: Seq<ValueModel>,
    ws: Seq<ValueModel>,
    buf: Seq<u8>,
    off: nat,
    bf: Seq<u8>,
    top: bool,
) -> bool
    decreases rows, n,
{
    if n == 0 || n > rows.len() {
        n == 0
    } else {
        &&& rows_fit(rows, (n - 1) as nat, vs, ws, buf, off, bf, top)
        &&& match write_rows(rows, (n - 1) as nat, vs, buf, off) {
            Ok(st) => row_fits(rows[n - 1], vs, ws, st, bf, top && silent_after(rows, n)),
            Err(_) => false,
        }
    }
}

/// A skip, written from the values `vs` and decoded from `ws` on the written
/// bytes, covers the same bits.
pub open spec fn skip_fits(e: Expr, vs: Seq<ValueModel>, ws: Seq<ValueModel>, u: nat, off: nat, bf: Seq<u8>) -> bool {
    &&& u <= vs.len()
    &&& u <= ws.len()
    &&& eval(e, vs.take(u as int), None, 0, None) is Some
    &&& eval(e, ws.take(u as int), Some(bf), off as int, None) == eval(e, vs.take(u as int), None, 0, None)
}

/// A row written from the state `st` fits: a skip covers the same bits on
/// both sides; a field fits; a block is present exactly when its condition,
/// evaluated as decoding evaluates it on the written bytes, holds, with all
/// its fields present, or else all absent.
pub open spec fn row_fits(row: Row, vs: Seq<ValueModel>, ws: Seq<ValueModel>, st: WriteState, bf: Seq<u8>, last: bool) -> bool
    decreases row, 0nat,
{
    let u = st.used;
    match row {
        Row::Consume(e) => skip_fits(e, vs, ws, u, st.off, bf),
        Row::Field(t) => {
            &&& u < vs.len()
            &&& u < ws.len()
            &&& field_fits(t, vs[u as int], ws[u as int], ws.take(u as int), st.buf, st.off, bf, last)
        },
        Row::Cond(e, block) => {
            let cnt = block_field_count(block@);
            let present = cnt > 0 && u < vs.len() && (vs[u as int] matches ValueModel::Opt(Some(_)));
            &&& u + cnt <= vs.len()
            &&& u + cnt <= ws.len()
            &&& (eval(e, ws.take(u as int), Some(bf), st.off as int, None) matches Some(x) && (x != 0) == present)
            &&& if present {
                block_fits(block@, block@.len(), vs, ws, st, bf)
            } else {
                forall|j: int| u <= j < u + cnt ==> #[trigger] ws[j] == ValueModel::Opt(None)
            }
        },
    }
}

/// The first `n` rows of a present block, written from the state `st0`,
/// fit.
pub open spec fn block_fits(
    block: Seq<BlockRow>,
    n: nat,
    vs: Seq<ValueModel>,
    ws: Seq<ValueModel>,
    st0: WriteState,
    bf: Seq<u8>,
) -> bool
    decreases block, n,
{
    if n == 0 || n > block.len() {
        n == 0
    } else {
        &&& block_fits(block, (n - 1) as nat, vs, ws, st0, bf)
        &&& match write_block(block, (n - 1) as nat, vs, st0) {
            Ok(s1) => block_row_fits(block[n - 1], vs, ws, s1, bf),
            Err(_) => false,
        }
    }
}

/// One entry of a present block, written from the state `st`, fits; its
/// field is present on both sides.
pub open spec fn block_row_fits(brow: BlockRow, vs: Seq<ValueModel>, ws: Seq<ValueModel>, st: WriteState, bf: Seq<u8>) -> bool
    decreases brow, 0nat,
{
    let k = st.used;
    match brow {
        BlockRow::Consume(e) => skip_fits(e, vs, ws, k, st.off, bf),
        BlockRow::Field(t) => {
            &&& k < vs.len()
            &&& k < ws.len()
            &&& (vs[k as int] matches ValueModel::Opt(Some(x)) && ws[k as int] matches ValueModel::Opt(Some(y))
                && field_fits(t, *x, *y, ws.take(k as int), st.buf, st.off, bf, false))
        },
    }
}

/// An expression that has a value without the data keeps it with the data
/// and with more fields.
pub proof fn lemma_eval_extends(
    e: Expr,
    f1: Seq<ValueModel>,
    f2: Seq<ValueModel>,
    d: Option<Seq<u8>>,
    o1: int,
    o2: int,
    t: Option<ValueModel>,
)
    requires
        eval(e, f1, None, o1, t) is Some,
        f1.len() <= f2.len(),
        forall|k: int| 0 <= k < f1.len() ==> f1[k] == f2[k],
    ensures
        eval(e, f2, d, o2, t) == eval(e, f1, None, o1, t),
    decreases e,
{
    match e {
        Expr::Not(a) => {
            lemma_eval_extends(*a, f1, f2, d, o1, o2, t);
            lemma_is_boolean_extends(*a, f1, f2, o1, t);
        },
        Expr::Cast(_, a) => {
            lemma_eval_extends(*a, f1, f2, d, o1, o2, t);
        },
        Expr::Paren(_, a) => {
            lemma_eval_extends(*a, f1, f2, d, o1, o2, t);
        },
        Expr::Bin(op, a, b) => {
            lemma_eval_extends(*a, f1, f2, d, o1, o2, t);
            if eval(*b, f1, None, o1, t) is Some {
                lemma_eval_extends(*b, f1, f2, d, o1, o2, t);
            }
        },
        _ => {},
    }
}

/// Whether an expression that has a value is boolean does not change with
/// more fields.
proof fn lemma_is_boolean_extends(e: Expr, f1: Seq<ValueModel>, f2: Seq<ValueModel>, o1: int, t: Option<ValueModel>)
    requires
        eval(e, f1, None, o1, t) is Some,
        f1.len() <= f2.len(),
        forall|k: int| 0 <= k < f1.len() ==> f1[k] == f2[k],
    ensures
        crate::expr::is_boolean(e, f1, t) == crate::expr::is_boolean(e, f2, t),
    decreases e,
{
    match e {
        Expr::Not(a) => {
            lemma_is_boolean_extends(*a, f1, f2, o1, t);
        },
        Expr::Paren(_, a) => {
            lemma_is_boolean_extends(*a, f1, f2, o1, t);
        },
        Expr::Bin(op, a, b) => {
            lemma_is_boolean_extends(*a, f1, f2, o1, t);
            if eval(*b, f1, None, o1, t) is Some {
                lemma_is_boolean_extends(*b, f1, f2, o1, t);
            }
        },
        _ => {},
    }
}

pub(crate) proof fn lemma_bits_value_agree(a: Seq<u8>, b: Seq<u8>, off: int, n: nat)
    requires
        0 <= off,
        agree(a, b, (off + n) as nat),
    ensures
        bits_value(a, off, n) == bits_value(b, off, n),
    decreases n,
{
    reveal(tight);
    reveal(agree);
    if n > 0 {
        lemma_agree_shorter(a, b, (off + n - 1) as nat, (off + n) as nat);
        lemma_bits_value_agree(a, b, off, (n - 1) as nat);
        assert(bit_at(a, off + n - 1) == bit_at(b, off + n - 1));
    }
}

proof fn lemma_bit_of_agree(a: Seq<u8>, b: Seq<u8>, k: int, j: int)
    requires
        0 <= k < a.len(),
        k < b.len(),
        0 <= j < 8,
        agree(a, b, (8 * k + 8) as nat),
    ensures
        (a[k] >> ((7 - j) as u8)) & 1u8 == (b[k] >> ((7 - j) as u8)) & 1u8,
{
    reveal(tight);
    reveal(agree);
    lemma_bit_at_index(a, k, j);
    lemma_bit_at_index(b, k, j);
    assert(bit_at(a, 8 * k + j) == bit_at(b, 8 * k + j));
}

pub(crate) proof fn lemma_bytes_agree(a: Seq<u8>, b: Seq<u8>, lo: int, hi: int)
    requires
        0 <= lo <= hi,
        hi <= a.len(),
        hi <= b.len(),
        agree(a, b, (8 * hi) as nat),
    ensures
        a.subrange(lo, hi) == b.subrange(lo, hi),
{
    reveal(tight);
    reveal(agree);
    assert forall|k: int| lo <= k < hi implies a[k] == b[k] by {
        lemma_agree_shorter(a, b, (8 * k + 8) as nat, (8 * hi) as nat);
        lemma_byte_of_bits(a[k]);
        lemma_byte_of_bits(b[k]);
        lemma_bit_of_agree(a, b, k, 0);
        lemma_bit_of_agree(a, b, k, 1);
        lemma_bit_of_agree(a, b, k, 2);
        lemma_bit_of_agree(a, b, k, 3);
        lemma_bit_of_agree(a, b, k, 4);
        lemma_bit_of_agree(a, b, k, 5);
        lemma_bit_of_agree(a, b, k, 6);
        lemma_bit_of_agree(a, b, k, 7);
        assert((a[k] >> 7u8) & 1u8 == (b[k] >> 7u8) & 1u8);
        assert((a[k] >> 6u8) & 1u8 == (b[k] >> 6u8) & 1u8);
        assert((a[k] >> 5u8) & 1u8 == (b[k] >> 5u8) & 1u8);
        assert((a[k] >> 4u8) & 1u8 == (b[k] >> 4u8) & 1u8);
        assert((a[k] >> 3u8) & 1u8 == (b[k] >> 3u8) & 1u8);
        assert((a[k] >> 2u8) & 1u8 == (b[k] >> 2u8) & 1u8);
        assert((a[k] >> 1u8) & 1u8 == (b[k] >> 1u8) & 1u8);
        assert((a[k] >> 0u8) & 1u8 == (b[k] >> 0u8) & 1u8);
    }
    assert(a.subrange(lo, hi) =~= b.subrange(lo, hi));
}

pub(crate) proof fn lemma_scan_end(data: Seq<u8>, from: int, k: nat)
    requires
        0 <= from,
        from + k < data.len(),
        forall|j: int| from <= j < from + k ==> data[j] != 0,
        data[from + k] == 0,
    ensures
        scan_end(data, from) == from + k,
    decreases k,
{
    if k > 0 {
        lemma_scan_end(data, from + 1, (k - 1) as nat);
    }
}

/// The low `b` bits of a small signed integer's pattern sign-extend back to it.
pub(crate) proof fn lemma_int_pattern(i: i64, b: nat)
    requires
        1 <= b <= 63,
        -pow2((b - 1) as nat) <= i < pow2((b - 1) as nat),
    ensures
        bit_pattern(ValueModel::Int(i))->0 % pow2(b) < pow2(b),
        pow2(b) < 0x1_0000_0000_0000_0000,
        sign_extend(bit_pattern(ValueModel::Int(i))->0 % pow2(b), b) == i,
{
    let m = pow2(b);
    lemma_pow2_pos(b);
    lemma_pow2_unfold(b);
    lemma_pow2_strictly_increases(b, 64);
    lemma2_to64();
    let p = bit_pattern(ValueModel::Int(i))->0;
    if i >= 0 {
        lemma_small_mod(i as nat, m);
    } else {
        let q = pow2((64 - b) as nat);
        lemma_pow2_adds(b, (64 - b) as nat);
        assert(pow2(64) == m * q);
        lemma_pow2_pos((64 - b) as nat);
        assert(m * (q - 1) + (i + m) == i + m * q) by (nonlinear_arith);
        lemma_mod_multiples_vanish(q - 1, i + m, m as int);
        lemma_small_mod((i + m) as nat, m);
    }
}


/// A skip that fits reads back from any buffer that holds the written
/// bits.
proof fn lemma_skip_reads_back(
    e: Expr,
    vs: Seq<ValueModel>,
    ws: Seq<ValueModel>,
    st0: WriteState,
    st: WriteState,
    bf: Seq<u8>,
)
    requires
        tight(st0.buf, st0.off),
        skip_fits(e, vs, ws, st0.used, st0.off, bf),
        write_skip(e, vs, st0) == Ok::<WriteState, crate::error::WriteError>(st),
    ensures
        skip_bits(e, bf, Cursor { values: ws.take(st0.used as int), off: st0.off }) == Ok::<
            Cursor,
            crate::error::ParseError,
        >(Cursor { values: ws.take(st.used as int), off: st.off }),
{
    let pre = vs.take(st0.used as int);
    lemma_eval_extends(e, pre, vs, None, 0, 0, None);
    let a = as_count(eval(e, vs, None, 0, None))->0;
    lemma_put_int(st0.buf, st0.off, a, 0, false, st.buf, st.off);
}

/// A field value that fits, written at `off` into a tight buffer, decodes
/// at `off` as its decoded counterpart from any buffer that holds the
/// written bits.
#[verifier::spinoff_prover]
#[verifier::rlimit(60)]
pub proof fn lemma_field_reads_back(
    ty: FieldType,
    v: ValueModel,
    w: ValueModel,
    buf: Seq<u8>,
    off: nat,
    pre: Seq<ValueModel>,
    last: bool,
    exact: bool,
    b1: Seq<u8>,
    o1: nat,
    bf: Seq<u8>,
)
    requires
        tight(buf, off),
        field_fits(ty, v, w, pre, buf, off, bf, last),
        write_field(ty, v, buf, off, exact) == Ok::<(Seq<u8>, nat), crate::error::WriteError>((b1, o1)),
        agree(b1, bf, o1),
        o1 <= 8 * bf.len(),
        last ==> 8 * bf.len() <= o1 + 7,
    ensures
        parse_field(ty, bf, off, pre) == Ok::<(ValueModel, nat), crate::error::ParseError>((w, o1)),
    decreases ty, 0nat,
{
    lemma2_to64();
    match ty {
        FieldType::UInt(b) => {
            let u = v->UInt_0;
            lemma_put_int(buf, off, b as nat, u, exact, b1, o1);
            lemma_pow2_pos(b as nat);
            lemma_small_mod(u as nat, pow2(b as nat));
            lemma_bits_value_agree(b1, bf, off as int, b as nat);
            lemma_small_mod(u as nat, pow2(64));
            assert(bits_value(bf, off as int, b as nat) == u);
        },
        FieldType::USize => {
            let u = v->UInt_0;
            lemma_put_int(buf, off, usize::BITS as nat, u, exact, b1, o1);
            lemma_pow2_pos(usize::BITS as nat);
            lemma_small_mod(u as nat, pow2(usize::BITS as nat));
            lemma_bits_value_agree(b1, bf, off as int, usize::BITS as nat);
            lemma_small_mod(u as nat, pow2(64));
        },
        FieldType::Int(b) => {
            let i = v->Int_0;
            let p = bit_pattern(v)->0 % pow2(b as nat);
            lemma_put_int(buf, off, b as nat, p as u64, exact, b1, o1);
            lemma_int_pattern(i, b as nat);
            lemma_pow2_pos(b as nat);
            lemma_small_mod(p, pow2(b as nat));
            lemma_bits_value_agree(b1, bf, off as int, b as nat);
        },
        FieldType::Bool => {
            let x: u64 = if v->Bool_0 { 1 } else { 0 };
            lemma_put_int(buf, off, 1, x, exact, b1, o1);
            lemma_bits_value_agree(b1, bf, off as int, 1);
        },
        FieldType::Array(n) => {
            let sb = v->Bytes_0;
            lemma_put_bytes(buf, off, sb, b1, o1);
            let bo = (off / 8) as int;
            lemma_bytes_agree(b1, bf, bo, bo + n);
            assert(b1.subrange(bo, bo + n) =~= sb);
        },
        FieldType::Bytes(size) => {
            let sb = v->Bytes_0;
            lemma_put_bytes(buf, off, sb, b1, o1);
            let bo = (off / 8) as int;
            match size {
                Some(e) => {
                    lemma_bytes_agree(b1, bf, bo, bo + sb.len());
                    assert(b1.subrange(bo, bo + sb.len()) =~= sb);
                },
                None => {
                    assert(8 * bf.len() == o1);
                    lemma_bytes_agree(b1, bf, bo, bo + sb.len());
                    assert(b1.subrange(bo, bo + sb.len()) =~= sb);
                },
            }
        },
        FieldType::CStr(size) => {
            let sb = v->CStr_0;
            let w2 = sb.push(0u8);
            lemma_put_bytes(buf, off, w2, b1, o1);
            let bo = (off / 8) as int;
            lemma_bytes_agree(b1, bf, bo, bo + w2.len());
            assert(b1.subrange(bo, bo + w2.len()) =~= w2);
            assert(bf.subrange(bo, bo + w2.len()) == w2);
            assert forall|j: int| bo <= j < bo + sb.len() implies bf[j] != 0 by {
                assert(bf[j] == bf.subrange(bo, bo + w2.len())[j - bo]);
                assert(w2[j - bo] == sb[j - bo]);
                if sb[j - bo] == 0 {
                    assert(sb.contains(0u8));
                }
            }
            assert(bf[bo + sb.len()] == bf.subrange(bo, bo + w2.len())[sb.len() as int]);
            lemma_scan_end(bf, bo, sb.len());
            assert(bf.subrange(bo, bo + sb.len()) =~= sb);
        },
        FieldType::Optional(t) => {
            let x = v->Opt_0->0;
            let y = w->Opt_0->0;
            lemma_field_reads_back(*t, *x, *y, buf, off, pre, last, exact, b1, o1, bf);
        },
        FieldType::Boxed(t) => {
            lemma_field_reads_back(*t, v, w, buf, off, pre, last, exact, b1, o1, bf);
        },
        FieldType::Exclude(_) => {},
        FieldType::Custom(l) => {
            lemma_layout_reads_back(*l, v, w, buf, off, b1, o1, bf, last);
        },
    }
}

/// A record or enumeration value that fits, written at `off`, decodes at
/// `off` as its decoded counterpart from any buffer that holds the written
/// bits.
pub proof fn lemma_layout_reads_back(
    l: Layout,
    v: ValueModel,
    w: ValueModel,
    buf: Seq<u8>,
    off: nat,
    b1: Seq<u8>,
    o1: nat,
    bf: Seq<u8>,
    last: bool,
)
    requires
        tight(buf, off),
        layout_fits(l, v, w, buf, off, bf, last),
        write_layout(l, v, buf, off) == Ok::<(Seq<u8>, nat), crate::error::WriteError>((b1, o1)),
        agree(b1, bf, o1),
        o1 <= 8 * bf.len(),
        last ==> 8 * bf.len() <= o1 + 7,
    ensures
        parse_layout(l, bf, off) == (Ok::<ValueModel, crate::error::ParseError>(w), o1),
    decreases l, 0nat,
{
    match l {
        Layout::Struct(rows) => {
            let vs = v->Record_0;
            let ws = w->Record_0;
            let st = write_rows(rows@, rows@.len(), vs, buf, off)->Ok_0;
            lemma_rows_read_back(rows@, rows@.len(), vs, ws, buf, off, last, st, bf);
            assert(ws.take(ws.len() as int) =~= ws);
        },
        Layout::Enum(el) => {
            let i = v->Variant_0;
            let inner = v->Variant_1;
            let tag = tag_for(
                el.repr,
                el.variants@[i as int],
                match inner {
                    Some(b) => Some(*b),
                    None => None,
                },
            )->0;
            lemma_field_reads_back(el.repr, tag, tag, buf, off, Seq::empty(), last, true, b1, o1, bf);
        },
    }
}

/// The first `n` rows of a record, written from a tight buffer with values
/// that fit, decode from any buffer that holds the written bits: to the
/// decoded values that they stand for, ending where the writer ended.
pub proof fn lemma_rows_read_back(
    rows: Seq<Row>,
    n: nat,
    vs: Seq<ValueModel>,
    ws: Seq<ValueModel>,
    buf: Seq<u8>,
    off: nat,
    top: bool,
    st: WriteState,
    bf: Seq<u8>,
)
    requires
        tight(buf, off),
        rows_fit(rows, n, vs, ws, buf, off, bf, top),
        write_rows(rows, n, vs, buf, off) == Ok::<WriteState, crate::error::WriteError>(st),
        agree(st.buf, bf, st.off),
        st.off <= 8 * bf.len(),
        top && silent_after(rows, n) ==> 8 * bf.len() <= st.off + 7,
    ensures
        parse_rows(rows, n, bf, off) == Ok::<Cursor, crate::error::ParseError>(
            Cursor { values: ws.take(st.used as int), off: st.off },
        ),
    decreases rows, n,
{
    if n == 0 {
        assert(ws.take(0) =~= Seq::<ValueModel>::empty());
    } else {
        let s1 = write_rows(rows, (n - 1) as nat, vs, buf, off)->Ok_0;
        lemma_rows_write_forward(rows, (n - 1) as nat, vs, buf, off, s1);
        lemma_row_writes_forward(rows[n - 1], vs, s1, st);
        lemma_agree_trans(s1.buf, st.buf, bf, s1.off, st.off);
        if top && silent_after(rows, (n - 1) as nat) {
            assert(is_silent(rows[n - 1]));
            assert(silent_after(rows, n));
        }
        lemma_rows_read_back(rows, (n - 1) as nat, vs, ws, buf, off, top, s1, bf);
        lemma_row_reads_back(rows[n - 1], vs, ws, s1, st, bf, top && silent_after(rows, n));
    }
}

/// One row of a record, written from a tight buffer with values that fit,
/// decodes from any buffer that holds the written bits.
pub proof fn lemma_row_reads_back(
    row: Row,
    vs: Seq<ValueModel>,
    ws: Seq<ValueModel>,
    st0: WriteState,
    st: WriteState,
    bf: Seq<u8>,
    last: bool,
)
    requires
        tight(st0.buf, st0.off),
        row_fits(row, vs, ws, st0, bf, last),
        write_row(row, vs, st0) == Ok::<WriteState, crate::error::WriteError>(st),
        agree(st.buf, bf, st.off),
        st.off <= 8 * bf.len(),
        last ==> 8 * bf.len() <= st.off + 7,
    ensures
        parse_row(row, bf, Cursor { values: ws.take(st0.used as int), off: st0.off }) == Ok::<
            Cursor,
            crate::error::ParseError,
        >(Cursor { values: ws.take(st.used as int), off: st.off }),
    decreases row, 0nat,
{
    let u = st0.used;
    let pre = ws.take(u as int);
    match row {
        Row::Consume(e) => {
            lemma_skip_reads_back(e, vs, ws, st0, st, bf);
        },
        Row::Field(t) => {
            lemma_field_reads_back(t, vs[u as int], ws[u as int], st0.buf, st0.off, pre, last, false, st.buf, st.off, bf);
            assert(pre.push(ws[u as int]) =~= ws.take(u + 1 as int));
        },
        Row::Cond(e, block) => {
            lemma_cond_reads_back(e, block, vs, ws, st0, st, bf, last);
        },
    }
}

proof fn lemma_cond_reads_back(
    e: Expr,
    block: Vec<BlockRow>,
    vs: Seq<ValueModel>,
    ws: Seq<ValueModel>,
    st0: WriteState,
    st: WriteState,
    bf: Seq<u8>,
    last: bool,
)
    requires
        tight(st0.buf, st0.off),
        row_fits(Row::Cond(e, block), vs, ws, st0, bf, last),
        write_row(Row::Cond(e, block), vs, st0) == Ok::<WriteState, crate::error::WriteError>(st),
        agree(st.buf, bf, st.off),
        st.off <= 8 * bf.len(),
    ensures
        parse_row(Row::Cond(e, block), bf, Cursor { values: ws.take(st0.used as int), off: st0.off }) == Ok::<
            Cursor,
            crate::error::ParseError,
        >(Cursor { values: ws.take(st.used as int), off: st.off }),
    decreases block, 0nat,
{
    let u = st0.used;
    let pre = ws.take(u as int);
    let cnt = block_field_count(block@);
    if cnt == 0 {
        assert(pre + Seq::new(0, |i: int| ValueModel::Opt(None)) =~= pre);
    } else {
        match vs[u as int] {
            ValueModel::Opt(Some(_)) => {
                lemma_block_reads_back(block@, block@.len(), vs, ws, st0, st, bf);
            },
            _ => {
                assert(pre + Seq::new(cnt, |i: int| ValueModel::Opt(None)) =~= ws.take((u + cnt) as int));
            },
        }
    }
}

/// One entry of a present block, written from a tight buffer with a value
/// that fits, decodes from any buffer that holds the written bits.
pub proof fn lemma_block_row_reads_back(
    brow: BlockRow,
    vs: Seq<ValueModel>,
    ws: Seq<ValueModel>,
    st0: WriteState,
    st: WriteState,
    bf: Seq<u8>,
)
    requires
        tight(st0.buf, st0.off),
        block_row_fits(brow, vs, ws, st0, bf),
        write_block_row(brow, vs, st0) == Ok::<WriteState, crate::error::WriteError>(st),
        agree(st.buf, bf, st.off),
        st.off <= 8 * bf.len(),
    ensures
        ({
            let c = Cursor { values: ws.take(st0.used as int), off: st0.off };
            let r = match brow {
                BlockRow::Consume(e) => skip_bits(e, bf, c),
                BlockRow::Field(t) => match parse_field(t, bf, c.off, c.values) {
                    Ok((v, o)) => Ok(Cursor { values: c.values.push(ValueModel::Opt(Some(Box::new(v)))), off: o }),
                    Err(e) => Err(e),
                },
            };
            r == Ok::<Cursor, crate::error::ParseError>(Cursor { values: ws.take(st.used as int), off: st.off })
        }),
    decreases brow, 0nat,
{
    let k = st0.used;
    match brow {
        BlockRow::Consume(e) => {
            lemma_skip_reads_back(e, vs, ws, st0, st, bf);
        },
        BlockRow::Field(t) => {
            let x = vs[k as int]->Opt_0->0;
            let y = ws[k as int]->Opt_0->0;
            lemma_field_reads_back(t, *x, *y, st0.buf, st0.off, ws.take(k as int), false, false, st.buf, st.off, bf);
            assert(ws.take(k as int).push(ValueModel::Opt(Some(Box::new(*y)))) =~= ws.take((k + 1) as int));
        },
    }
}

/// The first `n` rows of a present block, written from a tight buffer with
/// values that fit, decode from any buffer that holds the written bits.
pub proof fn lemma_block_reads_back(
    block: Seq<BlockRow>,
    n: nat,
    vs: Seq<ValueModel>,
    ws: Seq<ValueModel>,
    st0: WriteState,
    st: WriteState,
    bf: Seq<u8>,
)
    requires
        tight(st0.buf, st0.off),
        block_fits(block, n, vs, ws, st0, bf),
        write_block(block, n, vs, st0) == Ok::<WriteState, crate::error::WriteError>(st),
        agree(st.buf, bf, st.off),
        st.off <= 8 * bf.len(),
    ensures
        parse_block(block, n, bf, Cursor { values: ws.take(st0.used as int), off: st0.off }) == Ok::<
            Cursor,
            crate::error::ParseError,
        >(Cursor { values: ws.take(st.used as int), off: st.off }),
    decreases block, n,
{
    if n > 0 {
        let s1 = write_block(block, (n - 1) as nat, vs, st0)->Ok_0;
        lemma_block_writes_forward(block, (n - 1) as nat, vs, st0, s1);
        lemma_block_row_writes_forward(block[n - 1], vs, s1, st);
        lemma_agree_trans(s1.buf, st.buf, bf, s1.off, st.off);
        lemma_block_reads_back(block, (n - 1) as nat, vs, ws, st0, s1, bf);
        lemma_block_row_reads_back(block[n - 1], vs, ws, s1, st, bf);
    }
}


/// An outermost record or enumeration `v`, written into an empty buffer,
/// fits the layout `l` and decodes from the written bytes `bytes` as `w`;
/// it may run to the end of the data.
pub open spec fn record_fits(l: Layout, v: ValueModel, w: ValueModel, bytes: Seq<u8>) -> bool {
    layout_fits(l, v, w, Seq::empty(), 0, bytes, true)
}

/// An empty buffer is written up to bit 0.
pub proof fn lemma_empty_tight()
    ensures
        tight(Seq::empty(), 0),
{
    reveal(tight);
}

/// A buffer written up to bit `off` has `ceil(off / 8)` bytes.
pub proof fn lemma_tight_len(buf: Seq<u8>, off: nat)
    requires
        tight(buf, off),
    ensures
        buf.len() == (off + 7) / 8,
{
    reveal(tight);
}

} // verus!
