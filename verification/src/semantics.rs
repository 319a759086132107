//! Laws on what definitions mean: how enumeration rules pick a variant and
//! what tag a variant writes, what the operators of an expression compute,
//! how comparisons are read from their tokens, and how literals spell their
//! values.

use vstd::prelude::*;
use crate::decode::{select_variant, variant_with};
use crate::encode::{literal_value, tag_for, write_layout};
use crate::model::{cast_to, default_of, int_width};
use vstd::arithmetic::power2::{pow2, lemma2_to64, lemma_pow2_pos, lemma_pow2_strictly_increases};
use vstd::arithmetic::div_mod::lemma_small_mod;
use crate::error::{ParseError, WriteError};
use crate::expr::{cast_int, abs_int, apply_op, eval, in_i128, int_of, is_boolean, trunc_div};
use crate::grammar::{
    digit_of, digits_end, digits_value, is_digit_char, lemma_digits_end_bounds, level_op, lit_value, radix_of, op2_at, punct_at,
    rel_op_at,
    Token,
};
use crate::bits::{bit_at, bits_value, lemma_bits_value_bound};
use crate::decode::parse_field;
use crate::syntax::{all_digits, decimal, type_keyword_of, unsigned_digits, TypeKeyword};
use crate::layout::{IntType, Assigned, BinOp, EnumLayout, Expr, FieldType, Layout, Rule, ValueModel, Variant};

verus! {

/// The rule of `v` refuses `tag`: it is no catch-all, an exact rule names
/// another value, and a condition (or the condition of an assignment) is
/// false for it.
pub open spec fn refuses(v: Variant, tag: ValueModel) -> bool {
    match v.rule {
        Rule::Exact(x) => int_of(tag) != Some(x as int),
        Rule::Condition(e) => crate::expr::eval(e, Seq::empty(), None, 0, Some(tag)) == Some(0int),
        Rule::CatchAll => false,
        Rule::Assign(_, e) => crate::expr::eval(e, Seq::empty(), None, 0, Some(tag)) == Some(0int),
    }
}

proof fn lemma_catch_all_from(vs: Seq<Variant>, i: nat, k: nat, tag: ValueModel)
    requires
        i <= k < vs.len(),
        vs[k as int].rule is CatchAll,
    ensures
        select_variant(vs, i, tag) != Err::<ValueModel, ParseError>(ParseError::InvalidTag),
    decreases k - i,
{
    if i < k {
        lemma_catch_all_from(vs, i + 1, k, tag);
    }
}

/// A catch-all rule takes every tag that no earlier rule takes: decoding an
/// enumeration with a catch-all variant never reports an invalid tag,
/// whether or not that variant carries a value.
pub proof fn law_catch_all_never_refuses(vs: Seq<Variant>, k: nat, tag: ValueModel)
    requires
        k < vs.len(),
        vs[k as int].rule is CatchAll,
    ensures
        select_variant(vs, 0, tag) != Err::<ValueModel, ParseError>(ParseError::InvalidTag),
{
    lemma_catch_all_from(vs, 0, k, tag);
}

proof fn lemma_invalid_from(vs: Seq<Variant>, i: nat, tag: ValueModel)
    requires
        select_variant(vs, i, tag) == Err::<ValueModel, ParseError>(ParseError::InvalidTag),
    ensures
        forall|k: int| i <= k < vs.len() ==> #[trigger] refuses(vs[k], tag),
    decreases vs.len() - i,
{
    if i < vs.len() {
        lemma_invalid_from(vs, i + 1, tag);
        assert forall|k: int| i <= k < vs.len() implies #[trigger] refuses(vs[k], tag) by {
            if k == i {
                match vs[k].rule {
                    Rule::Condition(e) => {
                        assert(crate::expr::eval(e, Seq::empty(), None, 0, Some(tag)) is Some);
                    },
                    Rule::Assign(_, e) => {
                        assert(crate::expr::eval(e, Seq::empty(), None, 0, Some(tag)) is Some);
                    },
                    _ => {},
                }
            }
        }
    }
}

/// A tag is invalid only when every rule refuses it: no catch-all, no
/// exact rule with its value, no condition that holds.
pub proof fn law_invalid_tag_is_refused_by_every_rule(vs: Seq<Variant>, tag: ValueModel)
    requires
        select_variant(vs, 0, tag) == Err::<ValueModel, ParseError>(ParseError::InvalidTag),
    ensures
        forall|k: int| 0 <= k < vs.len() ==> #[trigger] refuses(vs[k], tag),
{
    lemma_invalid_from(vs, 0, tag);
}

proof fn lemma_exact_from(vs: Seq<Variant>, i: nat, k: nat, x: i128, tag: ValueModel)
    requires
        vs.len() <= usize::MAX,
        i <= k < vs.len(),
        vs[k as int].rule == Rule::Exact(x),
        int_of(tag) == Some(x as int),
    ensures
        select_variant(vs, i, tag) != Err::<ValueModel, ParseError>(ParseError::InvalidTag),
        select_variant(vs, i, tag) matches Ok(ValueModel::Variant(j, _)) ==> i <= j <= k,
    decreases k - i,
{
    if i < k {
        lemma_exact_from(vs, i + 1, k, x, tag);
    }
}

/// The rules are tried in order: a tag that an exact rule names is never
/// invalid, and the variant picked for it is that one or an earlier one.
pub proof fn law_exact_match_is_picked_no_later(vs: Seq<Variant>, k: nat, x: i128, tag: ValueModel)
    requires
        vs.len() <= usize::MAX,
        k < vs.len(),
        vs[k as int].rule == Rule::Exact(x),
        int_of(tag) == Some(x as int),
    ensures
        select_variant(vs, 0, tag) != Err::<ValueModel, ParseError>(ParseError::InvalidTag),
        select_variant(vs, 0, tag) matches Ok(ValueModel::Variant(j, _)) ==> j <= k,
{
    lemma_exact_from(vs, 0, k, x, tag);
}

/// `v` has an exact rule that refuses `tag`.
pub open spec fn exact_refuses(v: Variant, tag: ValueModel) -> bool {
    &&& v.rule is Exact
    &&& refuses(v, tag)
}

proof fn lemma_unknown_from(vs: Seq<Variant>, i: nat, k: nat, tag: ValueModel)
    requires
        vs.len() <= usize::MAX,
        i <= k < vs.len(),
        vs[k as int].rule is CatchAll,
        vs[k as int].inner is None,
        forall|j: int| i <= j < k ==> #[trigger] exact_refuses(vs[j], tag),
    ensures
        select_variant(vs, i, tag) == Ok::<ValueModel, ParseError>(ValueModel::Variant(k as usize, None)),
    decreases k - i,
{
    if i < k {
        assert(exact_refuses(vs[i as int], tag));
        lemma_unknown_from(vs, i + 1, k, tag);
    }
}

/// A catch-all variant without a value takes a tag that every exact rule
/// before it refuses: `Known == 1, Unknown _` decodes 5 as `Unknown`.
pub proof fn law_catch_all_without_value_takes_the_rest(vs: Seq<Variant>, k: nat, tag: ValueModel)
    requires
        vs.len() <= usize::MAX,
        k < vs.len(),
        vs[k as int].rule is CatchAll,
        vs[k as int].inner is None,
        forall|j: int| 0 <= j < k ==> #[trigger] exact_refuses(vs[j], tag),
    ensures
        select_variant(vs, 0, tag) == Ok::<ValueModel, ParseError>(ValueModel::Variant(k as usize, None)),
{
    lemma_unknown_from(vs, 0, k, tag);
}

/// A variant picked by a condition or a catch-all that carries bytes, in an
/// enumeration whose tag is a byte vector, writes those very bytes as its
/// tag.
pub proof fn law_enum_writes_carried_bytes(el: EnumLayout, i: usize, b: Seq<u8>)
    requires
        el.repr is Bytes,
        i < el.variants@.len(),
        el.variants@[i as int].inner is Some,
        el.variants@[i as int].rule is Condition || el.variants@[i as int].rule is CatchAll,
        8 * b.len() <= usize::MAX,
    ensures
        write_layout(
            Layout::Enum(el),
            ValueModel::Variant(i, Some(Box::new(ValueModel::Bytes(b)))),
            Seq::empty(),
            0,
        ) == Ok::<(Seq<u8>, nat), WriteError>((b, 8 * b.len())),
{
    assert(Seq::<u8>::empty() + b =~= b);
}

/// `Bin(op, a, b)` for operands `a` and `b`.
pub open spec fn bin(op: BinOp, a: Expr, b: Expr) -> Expr {
    Expr::Bin(op, Box::new(a), Box::new(b))
}

/// A comparison is 1 when it holds and 0 when it does not, as Rust compares
/// integers.
pub proof fn law_comparisons(
    a: Expr,
    b: Expr,
    f: Seq<ValueModel>,
    d: Option<Seq<u8>>,
    o: int,
    t: Option<ValueModel>,
    x: int,
    y: int,
)
    requires
        eval(a, f, d, o, t) == Some(x),
        eval(b, f, d, o, t) == Some(y),
    ensures
        eval(bin(BinOp::Eq, a, b), f, d, o, t) == Some(if x == y { 1int } else { 0int }),
        eval(bin(BinOp::Ne, a, b), f, d, o, t) == Some(if x != y { 1int } else { 0int }),
        eval(bin(BinOp::Lt, a, b), f, d, o, t) == Some(if x < y { 1int } else { 0int }),
        eval(bin(BinOp::Le, a, b), f, d, o, t) == Some(if x <= y { 1int } else { 0int }),
        eval(bin(BinOp::Gt, a, b), f, d, o, t) == Some(if x > y { 1int } else { 0int }),
        eval(bin(BinOp::Ge, a, b), f, d, o, t) == Some(if x >= y { 1int } else { 0int }),
        eval(bin(BinOp::Gt, a, b), f, d, o, t) != eval(bin(BinOp::Le, a, b), f, d, o, t),
        eval(bin(BinOp::Eq, a, b), f, d, o, t) != eval(bin(BinOp::Ne, a, b), f, d, o, t),
{
}

/// `&&` and `||` decide on their left side when it settles the answer,
/// without their right side; otherwise they are 1 exactly when the right
/// side (for `&&`, both sides) is non-zero.
pub proof fn law_logic(
    a: Expr,
    b: Expr,
    f: Seq<ValueModel>,
    d: Option<Seq<u8>>,
    o: int,
    t: Option<ValueModel>,
    x: int,
    rhs: Option<int>,
)
    requires
        eval(a, f, d, o, t) == Some(x),
        eval(b, f, d, o, t) == rhs,
    ensures
        x == 0 ==> eval(bin(BinOp::And, a, b), f, d, o, t) == Some(0int),
        x != 0 ==> eval(bin(BinOp::Or, a, b), f, d, o, t) == Some(1int),
        match rhs {
            Some(y) => {
                &&& eval(bin(BinOp::And, a, b), f, d, o, t) == Some(if x != 0 && y != 0 { 1int } else { 0int })
                &&& eval(bin(BinOp::Or, a, b), f, d, o, t) == Some(if x != 0 || y != 0 { 1int } else { 0int })
            },
            None => true,
        },
{
}

/// `!` negates a boolean and complements an integer: `!x` is `-x - 1`.
pub proof fn law_not(a: Expr, f: Seq<ValueModel>, d: Option<Seq<u8>>, o: int, t: Option<ValueModel>, x: int)
    requires
        eval(a, f, d, o, t) == Some(x),
    ensures
        is_boolean(a, f, t) ==> eval(Expr::Not(Box::new(a)), f, d, o, t) == Some(if x == 0 { 1int } else { 0int }),
        !is_boolean(a, f, t) ==> eval(Expr::Not(Box::new(a)), f, d, o, t) == Some(-x - 1),
        eval(Expr::Bool(true), f, d, o, t) == Some(1int),
        eval(Expr::Bool(false), f, d, o, t) == Some(0int),
        is_boolean(Expr::Bool(true), f, t),
{
}

/// Sums, differences and products are exact, and have no value outside
/// `i128`.
pub proof fn law_arithmetic(
    a: Expr,
    b: Expr,
    f: Seq<ValueModel>,
    d: Option<Seq<u8>>,
    o: int,
    t: Option<ValueModel>,
    x: int,
    y: int,
)
    requires
        eval(a, f, d, o, t) == Some(x),
        eval(b, f, d, o, t) == Some(y),
    ensures
        eval(bin(BinOp::Add, a, b), f, d, o, t) == if in_i128(x + y) { Some(x + y) } else { None::<int> },
        eval(bin(BinOp::Sub, a, b), f, d, o, t) == if in_i128(x - y) { Some(x - y) } else { None::<int> },
        eval(bin(BinOp::Mul, a, b), f, d, o, t) == if in_i128(x * y) { Some(x * y) } else { None::<int> },
{
}

/// Division truncates toward zero and the remainder takes the sign of the
/// dividend, as in Rust: `x == y * (x / y) + x % y` with `|x % y| < |y|`;
/// dividing by zero has no value.
pub proof fn law_division(
    a: Expr,
    b: Expr,
    f: Seq<ValueModel>,
    d: Option<Seq<u8>>,
    o: int,
    t: Option<ValueModel>,
    x: int,
    y: int,
)
    requires
        eval(a, f, d, o, t) == Some(x),
        eval(b, f, d, o, t) == Some(y),
    ensures
        y == 0 ==> eval(bin(BinOp::Div, a, b), f, d, o, t) is None && eval(bin(BinOp::Rem, a, b), f, d, o, t) is None,
        match (eval(bin(BinOp::Div, a, b), f, d, o, t), eval(bin(BinOp::Rem, a, b), f, d, o, t)) {
            (Some(q), Some(r)) => {
                &&& x == y * q + r
                &&& abs_int(r) < abs_int(y)
                &&& (r == 0 || (r > 0) == (x > 0))
            },
            _ => true,
        },
{
    if y != 0 {
        let ax = abs_int(x);
        let ay = abs_int(y);
        let q0 = ax / ay;
        let r0 = ax % ay;
        vstd::arithmetic::div_mod::lemma_fundamental_div_mod(ax, ay);
        assert(0 <= r0 < ay) by {
            vstd::arithmetic::div_mod::lemma_mod_bound(ax, ay);
        }
        let q = trunc_div(x, y);
        let r = x - y * q;
        if x >= 0 && y > 0 {
            assert(r == r0) by (nonlinear_arith)
                requires x == ax, y == ay, q == q0, ax == ay * q0 + r0, r == x - y * q;
        } else if x >= 0 && y < 0 {
            assert(r == r0) by (nonlinear_arith)
                requires x == ax, y == -ay, q == -q0, ax == ay * q0 + r0, r == x - y * q;
        } else if x < 0 && y > 0 {
            assert(r == -r0) by (nonlinear_arith)
                requires x == -ax, y == ay, q == -q0, ax == ay * q0 + r0, r == x - y * q;
        } else {
            assert(r == -r0) by (nonlinear_arith)
                requires x == -ax, y == -ay, q == q0, ax == ay * q0 + r0, r == x - y * q;
        }
    }
}

/// On booleans (0 and 1), `&`, `|` and `^` are and, or and exclusive or.
pub proof fn law_bitwise_on_booleans(x: int, y: int)
    requires
        x == 0 || x == 1,
        y == 0 || y == 1,
    ensures
        apply_op(BinOp::BitAnd, x, y) == if x == 1 && y == 1 { 1int } else { 0int },
        apply_op(BinOp::BitOr, x, y) == if x == 1 || y == 1 { 1int } else { 0int },
        apply_op(BinOp::BitXor, x, y) == if x != y { 1int } else { 0int },
{
    assert(0i128 & 0i128 == 0i128 && 0i128 & 1i128 == 0i128 && 1i128 & 0i128 == 0i128 && 1i128 & 1i128 == 1i128) by (bit_vector);
    assert(0i128 | 0i128 == 0i128 && 0i128 | 1i128 == 1i128 && 1i128 | 0i128 == 1i128 && 1i128 | 1i128 == 1i128) by (bit_vector);
    assert(0i128 ^ 0i128 == 0i128 && 0i128 ^ 1i128 == 1i128 && 1i128 ^ 0i128 == 1i128 && 1i128 ^ 1i128 == 0i128) by (bit_vector);
}

/// The comparison operators are read from their tokens as Rust reads them:
/// `==`, `!=`, `<=`, `>=` from two joined characters, `<` and `>` alone.
pub proof fn law_comparison_tokens(toks: Seq<Token>, end: int, i: int)
    ensures
        op2_at(toks, end, i, '=', '=') ==> rel_op_at(toks, end, i) == Some((BinOp::Eq, 2int)),
        op2_at(toks, end, i, '!', '=') ==> rel_op_at(toks, end, i) == Some((BinOp::Ne, 2int)),
        op2_at(toks, end, i, '<', '=') ==> rel_op_at(toks, end, i) == Some((BinOp::Le, 2int)),
        op2_at(toks, end, i, '>', '=') ==> rel_op_at(toks, end, i) == Some((BinOp::Ge, 2int)),
        punct_at(toks, end, i, '<') && !op2_at(toks, end, i, '<', '=') ==> rel_op_at(toks, end, i) == Some(
            (BinOp::Lt, 1int),
        ),
        punct_at(toks, end, i, '>') && !op2_at(toks, end, i, '>', '=') ==> rel_op_at(toks, end, i) == Some(
            (BinOp::Gt, 1int),
        ),
        !(punct_at(toks, end, i, '=') || punct_at(toks, end, i, '!') || punct_at(toks, end, i, '<')
            || punct_at(toks, end, i, '>')) ==> rel_op_at(toks, end, i) is None,
{
}

/// Hexadecimal digits: `a` to `f` are worth 10 to 15, and an upper-case
/// digit is worth what its lower-case form is; decimal digits are worth
/// themselves in every base that has them.
pub proof fn law_digit_values(lo: char, up: char, c: char, radix: u8)
    requires
        'a' <= lo <= 'f',
        up as int == lo as int - 32,
        '0' <= c <= '9',
        (c as int - '0' as int) < (radix as int),
    ensures
        digit_of(lo, 16) == Some(lo as int - 'a' as int + 10),
        digit_of(up, 16) == digit_of(lo, 16),
        digit_of(c, radix) == Some(c as int - '0' as int),
{
}

/// Strings whose characters are `_` at the same places and digits of the same
/// values elsewhere spell the same value.
proof fn lemma_digits_value_same(a: Seq<char>, b: Seq<char>, radix: u8)
    requires
        a.len() == b.len(),
        forall|k: int| 0 <= k < a.len() ==> (a[k] == '_') == (b[k] == '_') && #[trigger] digit_of(a[k], radix)
            == digit_of(b[k], radix),
    ensures
        digits_value(a, radix) == digits_value(b, radix),
    decreases a.len(),
{
    if a.len() > 0 {
        assert(digit_of(a[a.len() - 1], radix) == digit_of(b[a.len() - 1], radix));
        lemma_digits_value_same(a.drop_last(), b.drop_last(), radix);
    }
}

/// The value of a hexadecimal literal does not depend on the case of its
/// digits: `0xFF` and `0xff` are both 255.
pub proof fn law_hex_literal_ignores_case(s: Seq<char>, t: Seq<char>)
    requires
        s.len() == t.len(),
        s.len() >= 2,
        s[0] == '0' && s[1] == 'x',
        t[0] == '0' && t[1] == 'x',
        forall|k: int| 2 <= k < s.len() ==> #[trigger] is_digit_char(s[k], 16),
        forall|k: int|
            2 <= k < s.len() ==> #[trigger] t[k] == s[k] || ('A' <= s[k] <= 'F' && t[k] as int == s[k] as int
                + 32),
    ensures
        lit_value(s) == lit_value(t),
{
    assert forall|k: int| 2 <= k < s.len() implies (s[k] == '_') == (t[k] == '_') && #[trigger] digit_of(
        s[k],
        16,
    ) == digit_of(t[k], 16) && is_digit_char(t[k], 16) by {
        assert(is_digit_char(s[k], 16));
        assert(t[k] == s[k] || ('A' <= s[k] <= 'F' && t[k] as int == s[k] as int + 32));
    }
    lemma_digits_end_bounds(s, 2, 16);
    lemma_digits_end_bounds(t, 2, 16);
    if digits_end(s, 2, 16) < s.len() {
        assert(is_digit_char(s[digits_end(s, 2, 16)], 16));
    }
    if digits_end(t, 2, 16) < t.len() {
        let e = digits_end(t, 2, 16);
        assert(is_digit_char(t[e], 16));
    }
    let a = s.subrange(2, s.len() as int);
    let b = t.subrange(2, t.len() as int);
    assert forall|k: int| 0 <= k < a.len() implies (a[k] == '_') == (b[k] == '_') && #[trigger] digit_of(a[k], 16)
        == digit_of(b[k], 16) by {
        assert(a[k] == s[k + 2] && b[k] == t[k + 2]);
        assert(digit_of(s[k + 2], 16) == digit_of(t[k + 2], 16));
    }
    lemma_digits_value_same(a, b, 16);
    assert(s.subrange(s.len() as int, s.len() as int) =~= t.subrange(t.len() as int, t.len() as int));
}

/// The binary operators are read from their tokens: `*` `/` `%` at the
/// tightest level, then `+` `-`, `<<` `>>`, `&`, `^`, `|`, `&&` and `||`; a
/// single `&` or `|` is no `&&` or `||`.
pub proof fn law_operator_tokens(toks: Seq<Token>, end: int, i: int)
    ensures
        punct_at(toks, end, i, '*') ==> level_op(toks, end, i, 1) == Some((BinOp::Mul, 1int)),
        punct_at(toks, end, i, '/') ==> level_op(toks, end, i, 1) == Some((BinOp::Div, 1int)),
        punct_at(toks, end, i, '%') ==> level_op(toks, end, i, 1) == Some((BinOp::Rem, 1int)),
        punct_at(toks, end, i, '+') ==> level_op(toks, end, i, 2) == Some((BinOp::Add, 1int)),
        punct_at(toks, end, i, '-') ==> level_op(toks, end, i, 2) == Some((BinOp::Sub, 1int)),
        op2_at(toks, end, i, '<', '<') ==> level_op(toks, end, i, 3) == Some((BinOp::Shl, 2int)),
        op2_at(toks, end, i, '>', '>') ==> level_op(toks, end, i, 3) == Some((BinOp::Shr, 2int)),
        punct_at(toks, end, i, '&') && !op2_at(toks, end, i, '&', '&') ==> level_op(toks, end, i, 4) == Some(
            (BinOp::BitAnd, 1int),
        ),
        punct_at(toks, end, i, '^') ==> level_op(toks, end, i, 5) == Some((BinOp::BitXor, 1int)),
        punct_at(toks, end, i, '|') && !op2_at(toks, end, i, '|', '|') ==> level_op(toks, end, i, 6) == Some(
            (BinOp::BitOr, 1int),
        ),
        op2_at(toks, end, i, '&', '&') ==> level_op(toks, end, i, 8) == Some((BinOp::And, 2int)) && level_op(
            toks,
            end,
            i,
            4,
        ) is None,
        op2_at(toks, end, i, '|', '|') ==> level_op(toks, end, i, 9) == Some((BinOp::Or, 2int)) && level_op(
            toks,
            end,
            i,
            6,
        ) is None,
{
}

/// Rules before the first one that accepts a tag do not matter: when every
/// variant before `k` refuses the tag, the pick is made from `k` on.
pub proof fn law_refused_variants_are_skipped(vs: Seq<Variant>, k: nat, tag: ValueModel)
    requires
        k <= vs.len(),
        forall|j: int| 0 <= j < k ==> #[trigger] refuses(vs[j], tag),
    ensures
        select_variant(vs, 0, tag) == select_variant(vs, k, tag),
{
    lemma_skip_from(vs, 0, k, tag);
}

proof fn lemma_skip_from(vs: Seq<Variant>, i: nat, k: nat, tag: ValueModel)
    requires
        i <= k <= vs.len(),
        forall|j: int| i <= j < k ==> #[trigger] refuses(vs[j], tag),
    ensures
        select_variant(vs, i, tag) == select_variant(vs, k, tag),
    decreases k - i,
{
    if i < k {
        assert(refuses(vs[i as int], tag));
        lemma_skip_from(vs, i + 1, k, tag);
    }
}

/// A variant without a value whose rule accepts the tag is picked: an exact
/// rule with the tag's value, a condition or an assignment condition that
/// holds, or a catch-all.
pub proof fn law_accepting_variant_is_picked(vs: Seq<Variant>, k: nat, tag: ValueModel)
    requires
        vs.len() <= usize::MAX,
        k < vs.len(),
        vs[k as int].inner is None,
        match vs[k as int].rule {
            Rule::Exact(x) => int_of(tag) == Some(x as int),
            Rule::Condition(e) => eval(e, Seq::empty(), None, 0, Some(tag)) matches Some(c) && c != 0,
            Rule::CatchAll => true,
            Rule::Assign(_, e) => eval(e, Seq::empty(), None, 0, Some(tag)) matches Some(c) && c != 0,
        },
    ensures
        select_variant(vs, k, tag) == Ok::<ValueModel, ParseError>(ValueModel::Variant(k as usize, None)),
{
}

/// A variant whose rule assigns the tag itself, and whose condition holds,
/// carries the tag.
pub proof fn law_assigned_tag_is_carried(vs: Seq<Variant>, k: nat, tag: ValueModel, e: Expr)
    requires
        vs.len() <= usize::MAX,
        k < vs.len(),
        vs[k as int].inner is Some,
        vs[k as int].rule == Rule::Assign(Assigned::Tag, e),
        eval(e, Seq::empty(), None, 0, Some(tag)) matches Some(c) && c != 0,
    ensures
        select_variant(vs, k, tag) == Ok::<ValueModel, ParseError>(
            ValueModel::Variant(k as usize, Some(Box::new(tag))),
        ),
{
}

/// What a variant writes as its tag: an exact rule writes its value, an
/// assignment rule and a variant without a carried value but an exact one
/// write the default tag (zero, or no bytes).
pub proof fn law_written_tags(n: u8, x: i128, var: Variant, repr: FieldType, inner: Option<ValueModel>)
    requires
        1 <= n <= 64,
        0 <= x < pow2(n as nat),
    ensures
        tag_for(FieldType::UInt(n), Variant { inner: var.inner, rule: Rule::Exact(x) }, inner) == Some(
            ValueModel::UInt(x as u64),
        ),
        var.rule is Assign ==> tag_for(repr, var, inner) == default_of(repr),
        (var.rule is Condition || var.rule is CatchAll) && inner is None ==> tag_for(repr, var, inner)
            == default_of(repr),
        default_of(FieldType::UInt(n)) == Some(ValueModel::UInt(0)),
        default_of(FieldType::Bytes(None)) == Some(ValueModel::Bytes(Seq::empty())),
{
    lemma2_to64();
    lemma_pow2_pos(n as nat);
    let w = int_width(n as nat);
    assert(pow2(n as nat) <= pow2(w)) by {
        if (n as nat) < w {
            lemma_pow2_strictly_increases(n as nat, w);
        }
    }
    assert(pow2(w) <= pow2(64)) by {
        if w < 64 {
            lemma_pow2_strictly_increases(w, 64);
        }
    }
    lemma_small_mod(x as nat, pow2(w));
}

/// A literal spells its digits in its base: one more digit multiplies the
/// value by the base and adds the digit (`0x1F` is 16 * `0x1` + 15, `255`
/// is 10 * `25` + 5), and a lone digit is worth itself.
pub proof fn law_literal_digits(s: Seq<char>, c: char)
    requires
        s.len() > (if radix_of(s) != 10 { 2int } else { 0int }),
        s[if radix_of(s) != 10 { 2int } else { 0int }] != '_',
        forall|k: int| (if radix_of(s) != 10 { 2int } else { 0int }) <= k < s.len() ==> #[trigger] is_digit_char(s[k], radix_of(s)),
        digit_of(c, radix_of(s)) is Some,
    ensures
        lit_value(s) is Some,
        lit_value(s.push(c)) == Some(lit_value(s)->0 * radix_of(s) + digit_of(c, radix_of(s))->0),
        '0' <= c <= '9' ==> lit_value(seq![c]) == Some(c as int - '0' as int),
{
    let r = radix_of(s);
    let start: int = if r != 10 { 2 } else { 0 };
    let t = s.push(c);
    assert(radix_of(t) == r);
    lemma_digits_end_bounds(s, start, r);
    lemma_digits_end_bounds(t, start, r);
    if digits_end(s, start, r) < s.len() {
        assert(is_digit_char(s[digits_end(s, start, r)], r));
    }
    assert forall|k: int| start <= k < t.len() implies #[trigger] is_digit_char(t[k], r) by {
        if k < s.len() {
            assert(t[k] == s[k]);
        }
    }
    if digits_end(t, start, r) < t.len() {
        assert(is_digit_char(t[digits_end(t, start, r)], r));
    }
    assert(t[start] == s[start]);
    assert(s.subrange(s.len() as int, s.len() as int) =~= Seq::<char>::empty());
    assert(t.subrange(t.len() as int, t.len() as int) =~= Seq::<char>::empty());
    let a = s.subrange(start, s.len() as int);
    let b = t.subrange(start, t.len() as int);
    assert(b.drop_last() =~= a);
    assert(b.last() == c);
    assert(c != '_');
    if '0' <= c <= '9' {
        let u = seq![c];
        assert(radix_of(u) == 10);
        lemma_digits_end_bounds(u, 0, 10);
        if digits_end(u, 0, 10) < 1 {
            assert(is_digit_char(u[digits_end(u, 0, 10)], 10));
        }
        assert(u.subrange(1, 1) =~= Seq::<char>::empty());
        assert(u.subrange(0, 1) =~= u);
        assert(u.drop_last() =~= Seq::<char>::empty());
        assert(digits_value(Seq::<char>::empty(), 10) == 0);
        assert(digits_value(u, 10) == c as int - '0' as int);
    }
}

/// The operands of an expression: a literal is its value, a field the
/// integer it holds (an unsigned or signed integer itself, a boolean 1 or
/// 0, a byte vector none), the tag likewise, a byte-vector tag's `len()`
/// its length; parentheses change nothing, and code the library does not
/// read has no value.
pub proof fn law_operands(
    f: Seq<ValueModel>,
    d: Option<Seq<u8>>,
    o: int,
    t: Option<ValueModel>,
    k: usize,
    v: i128,
    a: Expr,
    g: usize,
    u: u64,
    i: i64,
    b: bool,
    bytes: Seq<u8>,
)
    ensures
        eval(Expr::Lit(v), f, d, o, t) == Some(v as int),
        k < f.len() ==> eval(Expr::Field(k), f, d, o, t) == int_of(f[k as int]),
        k >= f.len() ==> eval(Expr::Field(k), f, d, o, t) is None,
        eval(Expr::Tag, f, d, o, Some(ValueModel::UInt(u))) == Some(u as int),
        eval(Expr::TagLen, f, d, o, Some(ValueModel::Bytes(bytes))) == Some(bytes.len() as int),
        eval(Expr::Paren(g, Box::new(a)), f, d, o, t) == eval(a, f, d, o, t),
        eval(Expr::Extern(g, k), f, d, o, t) is None,
        int_of(ValueModel::UInt(u)) == Some(u as int),
        int_of(ValueModel::Int(i)) == Some(i as int),
        int_of(ValueModel::Bool(b)) == Some(if b { 1int } else { 0int }),
        int_of(ValueModel::Bytes(bytes)) is None,
{
}

/// `peek(n)` reads the `n` bits at the position as an unsigned big-endian
/// number, and 0 when the data ends before them; without data it has no
/// value.
pub proof fn law_peek(f: Seq<ValueModel>, data: Seq<u8>, off: nat, n: usize, t: Option<ValueModel>)
    requires
        n <= 64,
        off + n <= usize::MAX,
    ensures
        off + n <= 8 * data.len() ==> eval(Expr::Peek(n), f, Some(data), off as int, t) == Some(
            bits_value(data, off as int, n as nat) as int,
        ),
        off + n > 8 * data.len() ==> eval(Expr::Peek(n), f, Some(data), off as int, t) == Some(0int),
        eval(Expr::Peek(n), f, None, off as int, t) is None,
{
    lemma_bits_value_bound(data, off as int, n as nat);
    lemma2_to64();
    if n < 64 {
        lemma_pow2_strictly_increases(n as nat, 64);
    }
    lemma_small_mod(bits_value(data, off as int, n as nat), pow2(64));
}

/// A cast keeps the low bits that the type holds: `x as u8` is `x`
/// modulo 256, `x as i8` the same bits read as a signed byte, and casts to
/// wider types keep small values.
pub proof fn law_casts(x: i128)
    ensures
        cast_int(IntType::U8, x as int) == (x as int) % 256,
        cast_int(IntType::U16, x as int) == (x as int) % 65536,
        cast_int(IntType::I8, x as int) == if (x as int) % 256 >= 128 { (x as int) % 256 - 256 } else { (x as int) % 256 },
        0 <= x <= u32::MAX ==> cast_int(IntType::U32, x as int) == x as int,
        i64::MIN <= x <= i64::MAX ==> cast_int(IntType::I64, x as int) == x as int,
        cast_int(IntType::I128, x as int) == x as int,
{
    assert((x as u8) as int == (x as int) % 256) by (bit_vector);
    assert((x as u16) as int == (x as int) % 65536) by (bit_vector);
    assert((x as i8) as int == if (x as int) % 256 >= 128 { (x as int) % 256 - 256 } else { (x as int) % 256 }) by (bit_vector);
}

/// `x >> y` of a non-negative `x` is `x` divided by `2^y`, rounded down;
/// shifting by 128 bits or more, or by a negative amount, has no value.
pub proof fn law_shifts(a: Expr, b: Expr, f: Seq<ValueModel>, d: Option<Seq<u8>>, o: int, t: Option<ValueModel>, x: int, y: int)
    requires
        eval(a, f, d, o, t) == Some(x),
        eval(b, f, d, o, t) == Some(y),
        in_i128(x),
    ensures
        !(0 <= y < 128) ==> eval(bin(BinOp::Shr, a, b), f, d, o, t) is None && eval(bin(BinOp::Shl, a, b), f, d, o, t) is None,
        0 <= x && 0 <= y < 128 ==> eval(bin(BinOp::Shr, a, b), f, d, o, t) == Some(x / pow2(y as nat) as int),
{
    if 0 <= x && 0 <= y < 128 {
        let xi = x as i128;
        let yu = y as u32;
        assert(xi >= 0 ==> (xi >> yu) as u128 == (xi as u128) >> (yu as u128)) by (bit_vector);
        assert(yu < 128 ==> (xi >> yu) >= 0 || xi < 0) by (bit_vector);
        vstd::bits::lemma_u128_shr_is_div(xi as u128, yu as u128);
    }
}

/// Field types are named as Rust names them: `uN` and `iN` with a decimal
/// bit count, `bool`, `usize`, and the named types.
pub proof fn law_type_keywords(d1: char, d2: char)
    requires
        '0' <= d1 <= '9',
        '0' <= d2 <= '9',
    ensures
        type_keyword_of(seq!['u', d1]) == TypeKeyword::UInt((d1 as int - '0' as int) as u8),
        type_keyword_of(seq!['i', d1]) == TypeKeyword::Int((d1 as int - '0' as int) as u8),
        type_keyword_of(seq!['u', d1, d2]) == TypeKeyword::UInt(
            (10 * (d1 as int - '0' as int) + (d2 as int - '0' as int)) as u8,
        ),
        type_keyword_of(seq!['i', d1, d2]) == TypeKeyword::Int(
            (10 * (d1 as int - '0' as int) + (d2 as int - '0' as int)) as u8,
        ),
        type_keyword_of(seq!['b', 'o', 'o', 'l']) == TypeKeyword::Bool,
        type_keyword_of(seq!['u', 's', 'i', 'z', 'e']) == TypeKeyword::USize,
        type_keyword_of(seq!['V', 'e', 'c']) == TypeKeyword::Vec,
        type_keyword_of(seq!['C', 'S', 't', 'r']) == TypeKeyword::CStr,
        type_keyword_of(seq!['O', 'p', 't', 'i', 'o', 'n']) == TypeKeyword::Option,
        type_keyword_of(seq!['B', 'o', 'x']) == TypeKeyword::Box,
{
    let a = seq!['u', d1];
    assert(a.drop_first() =~= seq![d1]);
    assert(seq![d1].drop_last() =~= Seq::<char>::empty());
    reveal_with_fuel(decimal, 3);
    assert(seq![d1].last() == d1);
    assert(seq![d1, d2].last() == d2);
    assert(decimal(seq![d1]) == d1 as int - '0' as int);
    let b = seq!['i', d1];
    assert(b.drop_first() =~= seq![d1]);
    let c = seq!['u', d1, d2];
    assert(c.drop_first() =~= seq![d1, d2]);
    assert(seq![d1, d2].drop_last() =~= seq![d1]);
    assert(decimal(seq![d1, d2]) == 10 * (d1 as int - '0' as int) + (d2 as int - '0' as int));
    let e = seq!['i', d1, d2];
    assert(e.drop_first() =~= seq![d1, d2]);
    assert(unsigned_digits(seq![d1]) == seq![d1]);
    assert(unsigned_digits(seq![d1, d2]) == seq![d1, d2]);
    assert(all_digits(seq![d1]));
    assert(all_digits(seq![d1, d2]));
    assert(seq!['b', 'o', 'o', 'l'] != seq!['u', d1]);
    assert(seq!['u', 's', 'i', 'z', 'e'] != seq!['u', d1, d2]);
}

/// What the integer and boolean fields decode to: a `uN` field the `N`
/// bits at the position as an unsigned number, an `iN` field the same bits
/// in two's complement (the value agrees with the bits modulo `2^N` and lies
/// in `[-2^(N-1), 2^(N-1))`), a `bool` field whether its bit is 1; each
/// moves the position past its bits.
pub proof fn law_integer_fields(data: Seq<u8>, off: nat, f: Seq<ValueModel>, n: u8)
    requires
        1 <= n <= 63,
        off + n <= 8 * data.len(),
    ensures
        parse_field(FieldType::UInt(n), data, off, f) == Ok::<(ValueModel, nat), ParseError>(
            (ValueModel::UInt(bits_value(data, off as int, n as nat) as u64), (off + n) as nat),
        ),
        ({
            let raw = bits_value(data, off as int, n as nat);
            match parse_field(FieldType::Int(n), data, off, f) {
                Ok((ValueModel::Int(v), o)) => {
                    &&& o == off + n
                    &&& (raw == v || raw == v + pow2(n as nat))
                    &&& -pow2((n - 1) as nat) <= v < pow2((n - 1) as nat)
                },
                _ => false,
            }
        }),
        off + 1 <= 8 * data.len() ==> parse_field(FieldType::Bool, data, off, f) == Ok::<(ValueModel, nat), ParseError>(
            (ValueModel::Bool(bit_at(data, off as int) == 1), (off + 1) as nat),
        ),
{
    let raw = bits_value(data, off as int, n as nat);
    lemma_bits_value_bound(data, off as int, n as nat);
    lemma2_to64();
    lemma_pow2_strictly_increases(n as nat, 64);
    lemma_small_mod(raw, pow2(64));
    vstd::arithmetic::power2::lemma_pow2_unfold(n as nat);
    lemma_pow2_pos((n - 1) as nat);
    reveal_with_fuel(bits_value, 2);
    let v = crate::decode::sign_extend(raw, n as nat);
    assert(-pow2(63) <= v < pow2(63)) by {
        if n < 63 {
            lemma_pow2_strictly_increases(n as nat, 63);
            lemma_pow2_strictly_increases((n - 1) as nat, 63);
        }
        vstd::arithmetic::power2::lemma_pow2_unfold(63);
    }
    assert(bits_value(data, off as int, 1) == bits_value(data, off as int, 0) * 2 + bit_at(data, off as int));
}

/// On non-negative integers `&`, `|` and `^` act bit by bit: `x & y` lies
/// below both and `x | y` above both, `x ^ y` is `(x | y) - (x & y)`,
/// masking with `0xFF` keeps the low byte and with `1` the low bit, and
/// each is idempotent or cancels as its truth table says.
pub proof fn law_bitwise(x: i128, y: i128)
    requires
        0 <= x,
        0 <= y,
    ensures
        0 <= apply_op(BinOp::BitAnd, x as int, y as int) <= x,
        apply_op(BinOp::BitAnd, x as int, y as int) <= y,
        x <= apply_op(BinOp::BitOr, x as int, y as int),
        y <= apply_op(BinOp::BitOr, x as int, y as int),
        apply_op(BinOp::BitXor, x as int, y as int) == apply_op(BinOp::BitOr, x as int, y as int) - apply_op(
            BinOp::BitAnd,
            x as int,
            y as int,
        ),
        apply_op(BinOp::BitAnd, x as int, x as int) == x,
        apply_op(BinOp::BitOr, x as int, x as int) == x,
        apply_op(BinOp::BitXor, x as int, x as int) == 0,
        apply_op(BinOp::BitAnd, x as int, 0) == 0,
        apply_op(BinOp::BitOr, x as int, 0) == x,
        apply_op(BinOp::BitAnd, x as int, 255) == (x as int) % 256,
        apply_op(BinOp::BitAnd, x as int, 1) == (x as int) % 2,
{
    assert(x >= 0 && y >= 0 ==> 0 <= (x & y) && (x & y) <= x && (x & y) <= y) by (bit_vector);
    assert(x >= 0 && y >= 0 ==> x <= (x | y) && y <= (x | y)) by (bit_vector);
    assert(x >= 0 && y >= 0 ==> (x ^ y) == (x | y) - (x & y)) by (bit_vector);
    assert((x & x) == x && (x | x) == x && (x ^ x) == 0 && (x & 0) == 0 && (x | 0) == x) by (bit_vector);
    assert(x >= 0 ==> (x & 255) == x % 256 && (x & 1) == x % 2) by (bit_vector);
}

/// Shifting left by `y` bits and back right by `y` bits gives back a
/// non-negative number whose top `y` bits are clear.
pub proof fn law_shift_left_undone(x: i128, y: int)
    requires
        0 <= x,
        0 <= y < 127,
        (x >> ((127 - y) as u32)) == 0,
    ensures
        apply_op(BinOp::Shl, x as int, y) >= 0,
        apply_op(BinOp::Shr, apply_op(BinOp::Shl, x as int, y), y) == x,
{
    let yu = y as u32;
    assert(x >= 0 && yu < 127 && (x >> ((127 - yu) as u32)) == 0 ==> (x << yu) >= 0 && ((x << yu) >> yu) == x)
        by (bit_vector);
}

/// The base of a literal is given by its prefix: `0x` hexadecimal, `0o`
/// octal, `0b` binary, none decimal; a digit is worth less than its base,
/// and `_` between digits and a type suffix do not change the value.
pub proof fn law_literal_bases(s: Seq<char>, c: char, radix: u8)
    requires
        radix == 2 || radix == 8 || radix == 10 || radix == 16,
    ensures
        s.len() >= 2 && s[0] == '0' && s[1] == 'x' ==> radix_of(s) == 16,
        s.len() >= 2 && s[0] == '0' && s[1] == 'o' ==> radix_of(s) == 8,
        s.len() >= 2 && s[0] == '0' && s[1] == 'b' ==> radix_of(s) == 2,
        s.len() >= 1 && '1' <= s[0] <= '9' ==> radix_of(s) == 10,
        s.len() == 1 ==> radix_of(s) == 10,
        digit_of(c, radix) matches Some(d) ==> 0 <= d < radix,
        digit_of('1', 2) == Some(1int) && digit_of('2', 2) is None,
        digit_of('7', 8) == Some(7int) && digit_of('8', 8) is None,
        digit_of('9', 10) == Some(9int) && digit_of('a', 10) is None,
        digit_of('g', 16) is None && digit_of('G', 16) is None,
        digits_value(s.push('_'), radix) == digits_value(s, radix),
{
    assert(s.push('_').drop_last() =~= s);
}

/// A boolean expression (as Rust types it) is 0 or 1 whenever it has a
/// value: `true`, `false`, a `bool` field or tag, a comparison, `&&`,
/// `||`, and `!`, `&`, `|`, `^` of booleans; a `bool` field is boolean,
/// while literals and sums are not.
pub proof fn law_boolean_expressions(e: Expr, f: Seq<ValueModel>, d: Option<Seq<u8>>, o: int, t: Option<ValueModel>, k: usize)
    ensures
        is_boolean(e, f, t) && eval(e, f, d, o, t) is Some ==> eval(e, f, d, o, t) == Some(0int) || eval(e, f, d, o, t)
            == Some(1int),
        k < f.len() && f[k as int] is Bool ==> is_boolean(Expr::Field(k), f, t),
        k < f.len() && !(f[k as int] is Bool) ==> !is_boolean(Expr::Field(k), f, t),
        !is_boolean(Expr::Lit(1), f, t),
        is_boolean(bin(BinOp::Eq, Expr::Lit(1), Expr::Lit(1)), f, t),
        !is_boolean(bin(BinOp::Add, Expr::Bool(true), Expr::Bool(true)), f, t),
    decreases e,
{
    match e {
        Expr::Not(a) => {
            law_boolean_expressions(*a, f, d, o, t, k);
        },
        Expr::Paren(_, a) => {
            law_boolean_expressions(*a, f, d, o, t, k);
        },
        Expr::Bin(op, a, b) => {
            law_boolean_expressions(*a, f, d, o, t, k);
            law_boolean_expressions(*b, f, d, o, t, k);
            if is_boolean(e, f, t) && eval(e, f, d, o, t) is Some {
                if op == BinOp::BitAnd || op == BinOp::BitOr || op == BinOp::BitXor {
                    let x = eval(*a, f, d, o, t)->0;
                    let y = eval(*b, f, d, o, t)->0;
                    law_bitwise_on_booleans(x, y);
                }
            }
        },
        _ => {},
    }
}

/// Defaults are Rust's `Default`: integers 0, `false`, empty vectors and
/// strings, arrays of zero bytes, absent options; a box and an excluded
/// field default as what they hold.
pub proof fn law_defaults(t: FieldType, n: u8, b: u8)
    ensures
        default_of(FieldType::UInt(b)) == Some(ValueModel::UInt(0)),
        default_of(FieldType::Int(b)) == Some(ValueModel::Int(0)),
        default_of(FieldType::USize) == Some(ValueModel::UInt(0)),
        default_of(FieldType::Bool) == Some(ValueModel::Bool(false)),
        default_of(FieldType::Bytes(None)) == Some(ValueModel::Bytes(Seq::empty())),
        default_of(FieldType::CStr(None)) == Some(ValueModel::CStr(Seq::empty())),
        default_of(FieldType::Array(n)) matches Some(ValueModel::Bytes(z)) && z.len() == n && forall|i: int|
            0 <= i < n ==> z[i] == 0,
        default_of(FieldType::Optional(Box::new(t))) == Some(ValueModel::Opt(None)),
        default_of(FieldType::Boxed(Box::new(t))) == default_of(t),
        default_of(FieldType::Exclude(Box::new(t))) == default_of(t),
{
}

/// A field of `b` bits is held in the smallest Rust integer of 8, 16, 32
/// or 64 bits that fits it; converting a value to a field type keeps it
/// when that integer can hold it, and otherwise keeps its low bits.
pub proof fn law_field_casts(b: u8, x: u64, i: i64)
    requires
        1 <= b <= 64,
    ensures
        int_width(b as nat) == 8 || int_width(b as nat) == 16 || int_width(b as nat) == 32 || int_width(b as nat)
            == 64,
        b <= int_width(b as nat),
        int_width(b as nat) > 8 ==> 2 * b > int_width(b as nat),
        (x as nat) < pow2(int_width(b as nat)) ==> cast_to(ValueModel::UInt(x), FieldType::UInt(b)) == Some(
            ValueModel::UInt(x),
        ),
        cast_to(ValueModel::UInt(x), FieldType::UInt(b)) matches Some(ValueModel::UInt(y)) && (y as nat) < pow2(
            int_width(b as nat),
        ) && (y as nat) % pow2(int_width(b as nat)) == (x as nat) % pow2(int_width(b as nat)),
        cast_to(ValueModel::Bool(true), FieldType::UInt(b)) == Some(ValueModel::UInt(1)),
        -pow2((int_width(b as nat) - 1) as nat) <= i < pow2((int_width(b as nat) - 1) as nat) ==> cast_to(
            ValueModel::Int(i),
            FieldType::Int(b),
        ) == Some(ValueModel::Int(i)),
{
    let w = int_width(b as nat);
    lemma2_to64();
    lemma_pow2_pos(w);
    lemma_pow2_pos((w - 1) as nat);
    vstd::arithmetic::power2::lemma_pow2_unfold(w);
    vstd::arithmetic::div_mod::lemma_mod_bound(x as int, pow2(w) as int);
    vstd::arithmetic::div_mod::lemma_mod_twice(x as int, pow2(w) as int);
    if (x as nat) < pow2(w) {
        lemma_small_mod(x as nat, pow2(w));
    }
    assert(1nat % pow2(w) == 1) by {
        lemma_small_mod(1, pow2(w));
    }
    if -pow2((w - 1) as nat) <= i < pow2((w - 1) as nat) {
        if i >= 0 {
            lemma_small_mod(i as nat, pow2(w));
        } else {
            let k = (64 - w) as nat;
            vstd::arithmetic::power2::lemma_pow2_adds(w, k);
            assert(w + k == 64);
            lemma_pow2_pos(k);
            let m = pow2(w) as int;
            let p = (i + pow2(64)) as int;
            assert(p == m * (pow2(k) as int - 1) + (i + m)) by (nonlinear_arith)
                requires
                    pow2(64) == m * pow2(k),
                    p == i + pow2(64),
            ;
            vstd::arithmetic::div_mod::lemma_mod_multiples_vanish(pow2(k) as int - 1, i + m, m);
            lemma_small_mod((i + m) as nat, m as nat);
        }
    }
}

} // verus!
