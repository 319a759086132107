//! Laws on how expressions are read from their tokens: which operator binds
//! tighter, how operators of one level group, that comparisons do not
//! chain, and how operands, unary operators and casts are read.

use vstd::prelude::*;
use crate::grammar::{
    cast_expr, expr_in, find_last, int_type_of, level_op, lit_i128, lv_expr, lv_rest, primary, punct_at, rel_op_at,
    rel_rest, unary, ident_at, is_ident_at, Delim, Token,
};
use crate::expr::eval;
use crate::layout::{BinOp, Expr, IntType, ValueModel};

verus! {

/// The binary operator that precedence level `lv` reads at `q`: the
/// comparisons at level 7, the others by `level_op`.
pub open spec fn op_of_level(toks: Seq<Token>, end: int, q: int, lv: nat) -> Option<(BinOp, int)> {
    if lv == 7 {
        rel_op_at(toks, end, q)
    } else {
        level_op(toks, end, q, lv)
    }
}

/// At `q` stands the operator `op`, `n` tokens long, of level `lv` and of
/// no other level.
pub open spec fn operator_at(toks: Seq<Token>, end: int, q: int, lv: nat, op: BinOp, n: int) -> bool {
    &&& 1 <= lv <= 9
    &&& op_of_level(toks, end, q, lv) == Some((op, n))
    &&& forall|l: nat| 1 <= l <= 9 && l != lv ==> (#[trigger] op_of_level(toks, end, q, l)) is None
}

/// Nothing is read past the end: no operator of any level stands there.
pub(crate) proof fn lemma_nothing_at_end(toks: Seq<Token>, end: int, l: nat)
    ensures
        op_of_level(toks, end, end, l) is None,
{
}

/// An expression read at level `l0` that no operator of the levels above
/// it, up to `lv`, follows is the expression read at level `lv`.
pub(crate) proof fn lemma_lift(
    toks: Seq<Token>,
    end: int,
    pos: int,
    names: Seq<Seq<char>>,
    tag: bool,
    e: Expr,
    p: int,
    l0: nat,
    lv: nat,
)
    requires
        l0 <= lv <= 9,
        lv_expr(toks, end, pos, names, tag, l0) == Ok::<(Expr, int), crate::grammar::SyntaxError>((e, p)),
        pos < p <= end,
        forall|l: nat| l0 < l <= lv ==> (#[trigger] op_of_level(toks, end, p, l)) is None,
    ensures
        lv_expr(toks, end, pos, names, tag, lv) == Ok::<(Expr, int), crate::grammar::SyntaxError>((e, p)),
    decreases lv,
{
    if lv > l0 {
        lemma_lift(toks, end, pos, names, tag, e, p, l0, (lv - 1) as nat);
        assert(op_of_level(toks, end, p, lv) is None);
        if lv == 7 {
            assert(rel_rest(toks, end, e, p, names, tag) == Ok::<(Expr, int), crate::grammar::SyntaxError>((e, p)));
        } else {
            assert(level_op(toks, end, p, lv) is None);
        }
        assert(lv_rest(toks, end, e, p, names, tag, lv) == Ok::<(Expr, int), crate::grammar::SyntaxError>((e, p)));
    }
}

/// One operator of level `lv` between two expressions read at the level
/// below it gives the operator applied to them.
proof fn lemma_step(
    toks: Seq<Token>,
    end: int,
    pos: int,
    names: Seq<Seq<char>>,
    tag: bool,
    lv: nat,
    a: Expr,
    q: int,
    op: BinOp,
    n: int,
    b: Expr,
    r: int,
)
    requires
        1 <= lv <= 9,
        lv_expr(toks, end, pos, names, tag, (lv - 1) as nat) == Ok::<(Expr, int), crate::grammar::SyntaxError>((a, q)),
        pos < q,
        op_of_level(toks, end, q, lv) == Some((op, n)),
        n >= 1,
        lv_expr(toks, end, q + n, names, tag, (lv - 1) as nat) == Ok::<(Expr, int), crate::grammar::SyntaxError>((b, r)),
        q + n < r <= end,
        lv != 7 ==> op_of_level(toks, end, r, lv) is None,
    ensures
        lv_expr(toks, end, pos, names, tag, lv) == Ok::<(Expr, int), crate::grammar::SyntaxError>(
            (Expr::Bin(op, Box::new(a), Box::new(b)), r),
        ),
{
    let bin = Expr::Bin(op, Box::new(a), Box::new(b));
    if lv != 7 {
        assert(lv_rest(toks, end, bin, r, names, tag, lv) == Ok::<(Expr, int), crate::grammar::SyntaxError>((bin, r)));
        assert(lv_rest(toks, end, a, q, names, tag, lv) == Ok::<(Expr, int), crate::grammar::SyntaxError>((bin, r)));
    } else {
        assert(rel_rest(toks, end, a, q, names, tag) == Ok::<(Expr, int), crate::grammar::SyntaxError>((bin, r)));
    }
}

/// An operand followed by `op` of level `lv` and nothing of a tighter level.
proof fn lemma_operand_before(
    toks: Seq<Token>,
    end: int,
    pos: int,
    names: Seq<Seq<char>>,
    tag: bool,
    a: Expr,
    q: int,
    lv: nat,
    l: nat,
)
    requires
        cast_expr(toks, end, pos, names, tag) == Ok::<(Expr, int), crate::grammar::SyntaxError>((a, q)),
        pos < q <= end,
        l < lv <= 9,
        forall|k: nat| 1 <= k <= 9 && k != lv ==> (#[trigger] op_of_level(toks, end, q, k)) is None,
    ensures
        lv_expr(toks, end, pos, names, tag, l) == Ok::<(Expr, int), crate::grammar::SyntaxError>((a, q)),
{
    assert forall|k: nat| 0 < k <= l implies (#[trigger] op_of_level(toks, end, q, k)) is None by {
        assert(1 <= k <= 9 && k != lv);
    }
    lemma_lift(toks, end, pos, names, tag, a, q, 0, l);
}

/// An operand that ends the tokens.
pub(crate) proof fn lemma_last_operand(
    toks: Seq<Token>,
    end: int,
    pos: int,
    names: Seq<Seq<char>>,
    tag: bool,
    a: Expr,
    l: nat,
)
    requires
        cast_expr(toks, end, pos, names, tag) == Ok::<(Expr, int), crate::grammar::SyntaxError>((a, end)),
        pos < end,
        l <= 9,
    ensures
        lv_expr(toks, end, pos, names, tag, l) == Ok::<(Expr, int), crate::grammar::SyntaxError>((a, end)),
{
    assert forall|k: nat| 0 < k <= l implies (#[trigger] op_of_level(toks, end, end, k)) is None by {
        lemma_nothing_at_end(toks, end, k);
    }
    lemma_lift(toks, end, pos, names, tag, a, end, 0, l);
}

/// A binary operator between two operands (each a literal, a name, a
/// parenthesized expression, with its unary operators and casts) is read
/// as that operator applied to them.
pub proof fn law_binary_expression(
    toks: Seq<Token>,
    end: int,
    pos: int,
    names: Seq<Seq<char>>,
    tag: bool,
    a: Expr,
    q: int,
    lv: nat,
    op: BinOp,
    n: int,
    b: Expr,
)
    requires
        end <= toks.len(),
        cast_expr(toks, end, pos, names, tag) == Ok::<(Expr, int), crate::grammar::SyntaxError>((a, q)),
        pos < q,
        operator_at(toks, end, q, lv, op, n),
        n >= 1,
        q + n < end,
        cast_expr(toks, end, q + n, names, tag) == Ok::<(Expr, int), crate::grammar::SyntaxError>((b, end)),
    ensures
        expr_in(toks, pos, end, names, tag) == Ok::<Expr, crate::grammar::SyntaxError>(
            Expr::Bin(op, Box::new(a), Box::new(b)),
        ),
{
    let bin = Expr::Bin(op, Box::new(a), Box::new(b));
    lemma_operand_before(toks, end, pos, names, tag, a, q, lv, (lv - 1) as nat);
    lemma_last_operand(toks, end, q + n, names, tag, b, (lv - 1) as nat);
    lemma_nothing_at_end(toks, end, lv);
    lemma_step(toks, end, pos, names, tag, lv, a, q, op, n, b, end);
    assert forall|k: nat| lv < k <= 9 implies (#[trigger] op_of_level(toks, end, end, k)) is None by {
        lemma_nothing_at_end(toks, end, k);
    }
    lemma_lift(toks, end, pos, names, tag, bin, end, lv, 9);
}

/// Two binary operators between three operands: the one of the tighter
/// level applies first, and of two operators of one level the left one
/// applies first (`a - b + c` is `(a - b) + c`, `a + b * c` is
/// `a + (b * c)`, `a * b + c` is `(a * b) + c`), as in Rust.
pub proof fn law_precedence(
    toks: Seq<Token>,
    end: int,
    pos: int,
    names: Seq<Seq<char>>,
    tag: bool,
    a: Expr,
    q1: int,
    l1: nat,
    op1: BinOp,
    n1: int,
    b: Expr,
    q2: int,
    l2: nat,
    op2: BinOp,
    n2: int,
    c: Expr,
)
    requires
        end <= toks.len(),
        cast_expr(toks, end, pos, names, tag) == Ok::<(Expr, int), crate::grammar::SyntaxError>((a, q1)),
        pos < q1,
        operator_at(toks, end, q1, l1, op1, n1),
        n1 >= 1,
        q1 + n1 < q2,
        cast_expr(toks, end, q1 + n1, names, tag) == Ok::<(Expr, int), crate::grammar::SyntaxError>((b, q2)),
        operator_at(toks, end, q2, l2, op2, n2),
        n2 >= 1,
        q2 + n2 < end,
        cast_expr(toks, end, q2 + n2, names, tag) == Ok::<(Expr, int), crate::grammar::SyntaxError>((c, end)),
        !(l1 == 7 && l2 == 7),
    ensures
        l1 <= l2 ==> expr_in(toks, pos, end, names, tag) == Ok::<Expr, crate::grammar::SyntaxError>(
            Expr::Bin(op2, Box::new(Expr::Bin(op1, Box::new(a), Box::new(b))), Box::new(c)),
        ),
        l1 > l2 ==> expr_in(toks, pos, end, names, tag) == Ok::<Expr, crate::grammar::SyntaxError>(
            Expr::Bin(op1, Box::new(a), Box::new(Expr::Bin(op2, Box::new(b), Box::new(c)))),
        ),
{
    assert forall|k: nat| 0 < k <= 9 implies (#[trigger] op_of_level(toks, end, end, k)) is None by {
        lemma_nothing_at_end(toks, end, k);
    }
    if l1 <= l2 {
        let ab = Expr::Bin(op1, Box::new(a), Box::new(b));
        let abc = Expr::Bin(op2, Box::new(ab), Box::new(c));
        lemma_operand_before(toks, end, pos, names, tag, a, q1, l1, (l1 - 1) as nat);
        lemma_operand_before(toks, end, q1 + n1, names, tag, b, q2, l2, (l1 - 1) as nat);
        lemma_last_operand(toks, end, q2 + n2, names, tag, c, (l2 - 1) as nat);
        if l1 < l2 {
            assert(op_of_level(toks, end, q2, l1) is None);
            lemma_step(toks, end, pos, names, tag, l1, a, q1, op1, n1, b, q2);
            lemma_lift(toks, end, pos, names, tag, ab, q2, l1, (l2 - 1) as nat);
            lemma_step(toks, end, pos, names, tag, l2, ab, q2, op2, n2, c, end);
        } else {
            assert(level_op(toks, end, q1, l1) == Some((op1, n1)));
            assert(level_op(toks, end, q2, l1) == Some((op2, n2)));
            assert(level_op(toks, end, end, l1) is None);
            assert(lv_rest(toks, end, abc, end, names, tag, l1) == Ok::<(Expr, int), crate::grammar::SyntaxError>(
                (abc, end),
            ));
            assert(lv_rest(toks, end, ab, q2, names, tag, l1) == Ok::<(Expr, int), crate::grammar::SyntaxError>(
                (abc, end),
            ));
            assert(lv_rest(toks, end, a, q1, names, tag, l1) == Ok::<(Expr, int), crate::grammar::SyntaxError>(
                (abc, end),
            ));
        }
        lemma_lift(toks, end, pos, names, tag, abc, end, l2, 9);
    } else {
        let bc = Expr::Bin(op2, Box::new(b), Box::new(c));
        let abc = Expr::Bin(op1, Box::new(a), Box::new(bc));
        lemma_operand_before(toks, end, q1 + n1, names, tag, b, q2, l2, (l2 - 1) as nat);
        lemma_last_operand(toks, end, q2 + n2, names, tag, c, (l2 - 1) as nat);
        lemma_step(toks, end, q1 + n1, names, tag, l2, b, q2, op2, n2, c, end);
        lemma_lift(toks, end, q1 + n1, names, tag, bc, end, l2, (l1 - 1) as nat);
        lemma_operand_before(toks, end, pos, names, tag, a, q1, l1, (l1 - 1) as nat);
        lemma_step(toks, end, pos, names, tag, l1, a, q1, op1, n1, bc, end);
        lemma_lift(toks, end, pos, names, tag, abc, end, l1, 9);
    }
}

/// Comparisons do not chain: `a < b < c` is no expression, as in Rust.
pub proof fn law_comparisons_do_not_chain(
    toks: Seq<Token>,
    end: int,
    pos: int,
    names: Seq<Seq<char>>,
    tag: bool,
    a: Expr,
    q1: int,
    op1: BinOp,
    n1: int,
    b: Expr,
    q2: int,
    op2: BinOp,
    n2: int,
    c: Expr,
)
    requires
        end <= toks.len(),
        cast_expr(toks, end, pos, names, tag) == Ok::<(Expr, int), crate::grammar::SyntaxError>((a, q1)),
        pos < q1,
        operator_at(toks, end, q1, 7, op1, n1),
        n1 >= 1,
        q1 + n1 < q2,
        cast_expr(toks, end, q1 + n1, names, tag) == Ok::<(Expr, int), crate::grammar::SyntaxError>((b, q2)),
        operator_at(toks, end, q2, 7, op2, n2),
        n2 >= 1,
        q2 + n2 < end,
        cast_expr(toks, end, q2 + n2, names, tag) == Ok::<(Expr, int), crate::grammar::SyntaxError>((c, end)),
    ensures
        expr_in(toks, pos, end, names, tag) is Err,
{
    let ab = Expr::Bin(op1, Box::new(a), Box::new(b));
    lemma_operand_before(toks, end, pos, names, tag, a, q1, 7, 6);
    lemma_operand_before(toks, end, q1 + n1, names, tag, b, q2, 7, 6);
    lemma_step(toks, end, pos, names, tag, 7, a, q1, op1, n1, b, q2);
    assert(op_of_level(toks, end, q2, 8) is None);
    assert(op_of_level(toks, end, q2, 9) is None);
    lemma_lift(toks, end, pos, names, tag, ab, q2, 7, 9);
}

proof fn lemma_find_last(names: Seq<Seq<char>>, w: Seq<char>, n: nat)
    requires
        n <= names.len(),
    ensures
        find_last(names, w, n) is None <==> forall|j: int| 0 <= j < n ==> names[j] != w,
        find_last(names, w, n) matches Some(k) ==> k < n && names[k as int] == w && forall|j: int|
            k < j < n ==> names[j] != w,
    decreases n,
{
    if n > 0 {
        lemma_find_last(names, w, (n - 1) as nat);
        if names[n - 1] != w {
            assert forall|j: int| 0 <= j < n && (forall|i: int| 0 <= i < n - 1 ==> names[i] != w) implies names[j]
                != w by {
                if j < n - 1 {
                    assert(names[j] != w);
                }
            }
        }
    }
}

/// A name in an expression stands for the last field declared under that
/// name before it (a later field shadows an earlier one); a name that no
/// field has is no field.
pub proof fn law_names_are_latest_fields(names: Seq<Seq<char>>, w: Seq<char>)
    ensures
        find_last(names, w, names.len()) is None <==> forall|j: int| 0 <= j < names.len() ==> names[j] != w,
        find_last(names, w, names.len()) matches Some(k) ==> k < names.len() && names[k as int] == w && forall|
            j: int,
        |
            k < j < names.len() ==> names[j] != w,
{
    lemma_find_last(names, w, names.len());
}

/// Operands as written: a literal is its value, `true` and `false` the
/// booleans, and the name of an earlier field that field (the last of that
/// name), outside enumeration rules where `self`, `tag_value` and `v` are
/// the tag.
pub proof fn law_operand_tokens(
    toks: Seq<Token>,
    end: int,
    pos: int,
    names: Seq<Seq<char>>,
    tag: bool,
    v: i128,
    k: nat,
)
    requires
        0 <= pos < end <= toks.len(),
    ensures
        (toks[pos] matches Token::Lit(s) && lit_i128(s@) == Some(v)) ==> primary(toks, end, pos, names, tag) == Ok::<
            (Expr, int),
            crate::grammar::SyntaxError,
        >((Expr::Lit(v), pos + 1)),
        (toks[pos] matches Token::Ident(s) && s@ == seq!['t', 'r', 'u', 'e']) ==> primary(toks, end, pos, names, tag)
            == Ok::<(Expr, int), crate::grammar::SyntaxError>((Expr::Bool(true), pos + 1)),
        (toks[pos] matches Token::Ident(s) && s@ == seq!['f', 'a', 'l', 's', 'e']) ==> primary(
            toks,
            end,
            pos,
            names,
            tag,
        ) == Ok::<(Expr, int), crate::grammar::SyntaxError>((Expr::Bool(false), pos + 1)),
        (toks[pos] matches Token::Ident(s) && !tag && s@ != seq!['t', 'r', 'u', 'e'] && s@ != seq![
            'f',
            'a',
            'l',
            's',
            'e',
        ] && s@ != seq!['p', 'e', 'e', 'k'] && k < names.len() && names[k as int] == s@ && forall|j: int|
            k < j < names.len() ==> names[j] != s@) ==> primary(toks, end, pos, names, tag) == Ok::<
            (Expr, int),
            crate::grammar::SyntaxError,
        >((Expr::Field(k as usize), pos + 1)),
{
    if toks[pos] is Ident {
        let s = toks[pos]->Ident_0@;
        lemma_find_last(names, s, names.len());
        if k < names.len() && names[k as int] == s && forall|j: int| k < j < names.len() ==> names[j] != s {
            if find_last(names, s, names.len()) is Some {
                let m = find_last(names, s, names.len())->0;
                if m != k {
                    if m < k {
                        assert(names[k as int] != s);
                    } else {
                        assert(names[m as int] == s);
                    }
                }
            }
        }
    }
}

/// `-x` is the negation of `x` and `!x` its complement, read before the
/// casts and binary operators around them.
pub proof fn law_unary_operators(
    toks: Seq<Token>,
    end: int,
    pos: int,
    names: Seq<Seq<char>>,
    tag: bool,
    e: Expr,
    p: int,
    f: Seq<ValueModel>,
    d: Option<Seq<u8>>,
    o: int,
    t: Option<ValueModel>,
    x: int,
)
    requires
        unary(toks, end, pos + 1, names, tag) == Ok::<(Expr, int), crate::grammar::SyntaxError>((e, p)),
        eval(e, f, d, o, t) == Some(x),
        i128::MIN < x <= i128::MAX,
    ensures
        punct_at(toks, end, pos, '-') ==> (unary(toks, end, pos, names, tag) matches Ok((ne, p2)) && p2 == p && eval(
            ne,
            f,
            d,
            o,
            t,
        ) == Some(-x)),
        punct_at(toks, end, pos, '!') ==> unary(toks, end, pos, names, tag) == Ok::<
            (Expr, int),
            crate::grammar::SyntaxError,
        >((Expr::Not(Box::new(e)), p)),
{
    assert(eval(Expr::Lit(0), f, d, o, t) == Some(0int));
    crate::semantics::law_arithmetic(Expr::Lit(0), e, f, d, o, t, 0, x);
}

/// The integer types of a cast are named as in Rust.
pub proof fn law_cast_type_names()
    ensures
        int_type_of(seq!['u', '8']) == Some(IntType::U8),
        int_type_of(seq!['u', '1', '6']) == Some(IntType::U16),
        int_type_of(seq!['u', '3', '2']) == Some(IntType::U32),
        int_type_of(seq!['u', '6', '4']) == Some(IntType::U64),
        int_type_of(seq!['u', '1', '2', '8']) == Some(IntType::U128),
        int_type_of(seq!['u', 's', 'i', 'z', 'e']) == Some(IntType::USize),
        int_type_of(seq!['i', '8']) == Some(IntType::I8),
        int_type_of(seq!['i', '1', '6']) == Some(IntType::I16),
        int_type_of(seq!['i', '3', '2']) == Some(IntType::I32),
        int_type_of(seq!['i', '6', '4']) == Some(IntType::I64),
        int_type_of(seq!['i', '1', '2', '8']) == Some(IntType::I128),
        int_type_of(seq!['i', 's', 'i', 'z', 'e']) == Some(IntType::ISize),
        int_type_of(seq!['b', 'o', 'o', 'l']) is None,
{
    assert(seq!['u', '8'] != seq!['i', '8']);
}

/// A parenthesized expression is the expression inside, read on its own.
pub proof fn law_parentheses(toks: Seq<Token>, end: int, pos: int, names: Seq<Seq<char>>, tag: bool, e: Expr)
    requires
        0 <= pos < end <= toks.len(),
    ensures
        (toks[pos] matches Token::Group(dl, inner) && dl == Delim::Paren && expr_in(
            inner@,
            0,
            inner@.len() as int,
            names,
            tag,
        ) == Ok::<Expr, crate::grammar::SyntaxError>(e)) ==> primary(toks, end, pos, names, tag) == Ok::<
            (Expr, int),
            crate::grammar::SyntaxError,
        >((Expr::Paren(pos as usize, Box::new(e)), pos + 1)),
{
}

/// `x as T` casts the operand before it to the integer type named `T`.
pub proof fn law_casts_read(
    toks: Seq<Token>,
    end: int,
    pos: int,
    names: Seq<Seq<char>>,
    tag: bool,
    e: Expr,
    p: int,
    ty: IntType,
)
    requires
        unary(toks, end, pos, names, tag) == Ok::<(Expr, int), crate::grammar::SyntaxError>((e, p)),
        ident_at(toks, end, p, seq!['a', 's']),
        is_ident_at(toks, end, p + 1),
        int_type_of(toks[p + 1]->Ident_0@) == Some(ty),
        !ident_at(toks, end, p + 2, seq!['a', 's']),
    ensures
        cast_expr(toks, end, pos, names, tag) == Ok::<(Expr, int), crate::grammar::SyntaxError>(
            (Expr::Cast(ty, Box::new(e)), p + 2),
        ),
{
    let c = Expr::Cast(ty, Box::new(e));
    assert(crate::grammar::cast_rest(toks, end, c, p + 2) == Ok::<(Expr, int), crate::grammar::SyntaxError>((c, p + 2)));
    assert(crate::grammar::cast_rest(toks, end, e, p) == Ok::<(Expr, int), crate::grammar::SyntaxError>((c, p + 2)));
}

} // verus!
