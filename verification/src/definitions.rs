//! Laws on how enumeration rules are read from a definition: `== value`,
//! `_`, `= value if condition`, and a comparison that continues the tag.

use vstd::prelude::*;
use crate::grammar::{
    block_items, body_items, brace_from, is_ident_at, parse_type, skip_attrs, skip_seps, skip_vis, Item, TypeDef, Delim,
    assign_value, cast_expr, climb, condition_in, const_value, expr_in, ident_at, lv_rest, punct_at, rel_rest, rule_at,
    sep_from, value_end, lit_i128, byte_list, inner_type, variant_at, VariantDef, or_expr, AssignDef, RuleDef, SyntaxError, Token,
};
use crate::layout::{BinOp, Expr};
use crate::syntax::{type_keyword_of, TypeKeyword};
use crate::precedence::{lemma_last_operand, lemma_nothing_at_end, op_of_level, operator_at};

verus! {

/// Levels `lv` up to `l` that read no operator at `p` leave the expression
/// as it is.
proof fn lemma_climb_skip(
    toks: Seq<Token>,
    end: int,
    lhs: Expr,
    p: int,
    names: Seq<Seq<char>>,
    tag: bool,
    lv: nat,
    l: nat,
)
    requires
        1 <= lv <= l <= 10,
        forall|k: nat| lv <= k < l ==> (#[trigger] op_of_level(toks, end, p, k)) is None,
    ensures
        climb(toks, end, lhs, p, names, tag, lv) == climb(toks, end, lhs, p, names, tag, l),
    decreases l - lv,
{
    if lv < l {
        assert(op_of_level(toks, end, p, lv) is None);
        if lv == 7 {
            assert(rel_rest(toks, end, lhs, p, names, tag) == Ok::<(Expr, int), SyntaxError>((lhs, p)));
        }
        assert(lv_rest(toks, end, lhs, p, names, tag, lv) == Ok::<(Expr, int), SyntaxError>((lhs, p)));
        lemma_climb_skip(toks, end, lhs, p, names, tag, lv + 1, l);
    }
}

/// A condition rule is a binary operator whose left operand is the tag:
/// `< 1524` is `tag < 1524`.
pub proof fn law_condition_rules(b: Seq<Token>, lo: int, hi: int, lv: nat, op: BinOp, n: int, e: Expr)
    requires
        0 <= lo,
        hi <= b.len(),
        operator_at(b, hi, lo, lv, op, n),
        n >= 1,
        lo + n < hi,
        cast_expr(b, hi, lo + n, Seq::empty(), true) == Ok::<(Expr, int), SyntaxError>((e, hi)),
    ensures
        condition_in(b, lo, hi) == Ok::<Expr, SyntaxError>(Expr::Bin(op, Box::new(Expr::Tag), Box::new(e))),
{
    let names = Seq::<Seq<char>>::empty();
    let bin = Expr::Bin(op, Box::new(Expr::Tag), Box::new(e));
    assert(!ident_at(b, hi, lo, seq!['a', 's']));
    lemma_climb_skip(b, hi, Expr::Tag, lo, names, true, 1, lv);
    lemma_last_operand(b, hi, lo + n, names, true, e, (lv - 1) as nat);
    assert forall|k: nat| 0 < k <= 9 implies (#[trigger] op_of_level(b, hi, hi, k)) is None by {
        lemma_nothing_at_end(b, hi, k);
    }
    if lv == 7 {
        assert(rel_rest(b, hi, Expr::Tag, lo, names, true) == Ok::<(Expr, int), SyntaxError>((bin, hi)));
    } else {
        assert(op_of_level(b, hi, hi, lv) is None);
        assert(lv_rest(b, hi, bin, hi, names, true, lv) == Ok::<(Expr, int), SyntaxError>((bin, hi)));
    }
    assert(lv_rest(b, hi, Expr::Tag, lo, names, true, lv) == Ok::<(Expr, int), SyntaxError>((bin, hi)));
    lemma_climb_skip(b, hi, bin, hi, names, true, lv + 1, 10);
}

/// A constant is a literal or a negated literal.
pub proof fn law_constants(v: i128)
    ensures
        const_value(Expr::Lit(v)) == Some(v),
        v >= 0 ==> const_value(Expr::Bin(BinOp::Sub, Box::new(Expr::Lit(0)), Box::new(Expr::Lit(v)))) == Some(
            (-v) as i128,
        ),
        const_value(Expr::Tag) is None,
{
}

/// The rules of a variant: `== constant` takes the tag equal to the
/// constant; `_` takes every tag; `= value` without `if` takes every tag
/// (its condition is `1`); an assignment of the tag itself stores the tag,
/// of a constant that constant; anything else is a condition that
/// continues the tag.
pub proof fn law_rule_forms(b: Seq<Token>, p: int, v: i128, a: AssignDef, c: Expr)
    requires
        0 <= p,
    ensures
        ({
            let q = sep_from(b, p + 2);
            (punct_at(b, b.len() as int, p, '=') && punct_at(b, b.len() as int, p + 1, '=') && const_value(
                expr_in(b, p + 2, q, Seq::empty(), false)->Ok_0,
            ) == Some(v) && expr_in(b, p + 2, q, Seq::empty(), false) is Ok) ==> rule_at(b, p) == Ok::<
                (RuleDef, int),
                SyntaxError,
            >((RuleDef::Exact(v), q))
        }),
        (!punct_at(b, b.len() as int, p, '=') && ident_at(b, b.len() as int, p, seq!['_'])) ==> rule_at(b, p)
            == Ok::<(RuleDef, int), SyntaxError>((RuleDef::CatchAll, p + 1)),
        ({
            let q1 = value_end(b, p + 1);
            (punct_at(b, b.len() as int, p, '=') && !punct_at(b, b.len() as int, p + 1, '=') && assign_value(
                b,
                p + 1,
                q1,
            ) == Ok::<AssignDef, SyntaxError>(a) && !ident_at(b, b.len() as int, q1, seq!['i', 'f'])) ==> rule_at(
                b,
                p,
            ) == Ok::<(RuleDef, int), SyntaxError>((RuleDef::Assign(a, Expr::Lit(1)), q1))
        }),
        ({
            let q = sep_from(b, p);
            (!punct_at(b, b.len() as int, p, '=') && !ident_at(b, b.len() as int, p, seq!['_']) && condition_in(
                b,
                p,
                q,
            ) == Ok::<Expr, SyntaxError>(c)) ==> rule_at(b, p) == Ok::<(RuleDef, int), SyntaxError>(
                (RuleDef::Condition(c), q),
            )
        }),
        crate::expr::eval(Expr::Lit(1), Seq::empty(), None, 0, None) == Some(1int),
{
}

/// What an assignment stores: the tag itself for `self` (and the other
/// names of the tag), a constant for a literal or a negated literal.
pub proof fn law_assigned_values(b: Seq<Token>, lo: int, hi: int, v: i128)
    requires
        !ident_at(b, b.len() as int, lo, seq!['v', 'e', 'c']),
    ensures
        expr_in(b, lo, hi, Seq::empty(), true) == Ok::<Expr, SyntaxError>(Expr::Tag) ==> assign_value(b, lo, hi)
            == Ok::<AssignDef, SyntaxError>(AssignDef::Tag),
        (expr_in(b, lo, hi, Seq::empty(), true) is Ok && const_value(expr_in(b, lo, hi, Seq::empty(), true)->Ok_0)
            == Some(v)) ==> assign_value(b, lo, hi) == Ok::<AssignDef, SyntaxError>(AssignDef::Int(v)),
{
}

/// A field declaration `name: T,` of a record adds a field of type `T`,
/// and from there on `name` names that field in expressions.
pub proof fn law_field_declarations(
    b: Seq<Token>,
    pos: int,
    names: Seq<Seq<char>>,
    acc: Seq<Item>,
    t: TypeDef,
    p: int,
)
    requires
        0 <= pos < b.len(),
        skip_attrs(b, pos) == pos,
        skip_vis(b, pos) == pos,
        is_ident_at(b, b.len() as int, pos),
        !ident_at(b, b.len() as int, pos, seq!['i', 'f']),
        !ident_at(b, b.len() as int, pos, seq!['e', 'x', 'c', 'l', 'u', 'd', 'e']),
        !ident_at(b, b.len() as int, pos, seq!['c', 'o', 'n', 's', 'u', 'm', 'e']),
        punct_at(b, b.len() as int, pos + 1, ':'),
        parse_type(b, b.len() as int, pos + 2, names) == Ok::<(TypeDef, int), SyntaxError>((t, p)),
        pos < skip_seps(b, p) <= b.len(),
    ensures
        body_items(b, pos, names, acc) == body_items(
            b,
            skip_seps(b, p),
            names.push(b[pos]->Ident_0@),
            acc.push(Item::Field(pos as usize, t)),
        ),
{
}

/// `if cond { .. }` in a record adds the condition, read over the fields
/// declared before it, then the fields of its block, which later
/// expressions can name.
pub proof fn law_conditional_blocks(
    b: Seq<Token>,
    pos: int,
    names: Seq<Seq<char>>,
    acc: Seq<Item>,
    c: Expr,
    entries: Seq<Item>,
    names2: Seq<Seq<char>>,
)
    requires
        0 <= pos < b.len(),
        skip_attrs(b, pos) == pos,
        ident_at(b, b.len() as int, pos, seq!['i', 'f']),
        brace_from(b, pos + 1) < b.len(),
        expr_in(b, pos + 1, brace_from(b, pos + 1), names, false) == Ok::<Expr, SyntaxError>(c),
        b[brace_from(b, pos + 1)] is Group,
        block_items(b[brace_from(b, pos + 1)]->Group_1@, 0, names, Seq::empty()) == Ok::<
            (Seq<Item>, Seq<Seq<char>>),
            SyntaxError,
        >((entries, names2)),
        pos < skip_seps(b, brace_from(b, pos + 1) + 1) <= b.len(),
    ensures
        body_items(b, pos, names, acc) == body_items(
            b,
            skip_seps(b, brace_from(b, pos + 1) + 1),
            names2,
            acc.push(Item::Cond(c, brace_from(b, pos + 1) as usize, entries.len() as usize)) + entries,
        ),
{
}

/// A field declaration inside an `if` block is a field of the block, and
/// its name is known after it.
pub proof fn law_block_fields(
    b: Seq<Token>,
    pos: int,
    names: Seq<Seq<char>>,
    acc: Seq<Item>,
    t: TypeDef,
    p: int,
)
    requires
        0 <= pos < b.len(),
        skip_attrs(b, pos) == pos,
        skip_vis(b, pos) == pos,
        is_ident_at(b, b.len() as int, pos),
        !ident_at(b, b.len() as int, pos, seq!['c', 'o', 'n', 's', 'u', 'm', 'e']),
        punct_at(b, b.len() as int, pos + 1, ':'),
        parse_type(b, b.len() as int, pos + 2, names) == Ok::<(TypeDef, int), SyntaxError>((t, p)),
        pos < skip_seps(b, p) <= b.len(),
    ensures
        block_items(b, pos, names, acc) == block_items(
            b,
            skip_seps(b, p),
            names.push(b[pos]->Ident_0@),
            acc.push(Item::BlockField(pos as usize, t)),
        ),
{
}

/// Field types as written: `uN`, `iN`, `bool` and `usize` are integer
/// and boolean fields, `CStr` a NUL-terminated string, `Vec<u8>` a byte
/// vector (with `; size` a sized one), `Option<T>` and `Box<T>` wrap `T`,
/// and `[u8; N]` is an array of `N` bytes.
pub proof fn law_field_types(
    toks: Seq<Token>,
    end: int,
    pos: int,
    names: Seq<Seq<char>>,
    n: u8,
    t: TypeDef,
    p: int,
    e: Expr,
    k: i128,
)
    requires
        0 <= pos < end <= toks.len(),
    ensures
        (toks[pos] matches Token::Ident(s) && type_keyword_of(s@) == TypeKeyword::UInt(n)) ==> parse_type(
            toks,
            end,
            pos,
            names,
        ) == Ok::<(TypeDef, int), SyntaxError>((TypeDef::UInt(n), pos + 1)),
        (toks[pos] matches Token::Ident(s) && type_keyword_of(s@) == TypeKeyword::Int(n)) ==> parse_type(
            toks,
            end,
            pos,
            names,
        ) == Ok::<(TypeDef, int), SyntaxError>((TypeDef::Int(n), pos + 1)),
        (toks[pos] matches Token::Ident(s) && type_keyword_of(s@) == TypeKeyword::Bool) ==> parse_type(
            toks,
            end,
            pos,
            names,
        ) == Ok::<(TypeDef, int), SyntaxError>((TypeDef::Bool, pos + 1)),
        (toks[pos] matches Token::Ident(s) && type_keyword_of(s@) == TypeKeyword::USize) ==> parse_type(
            toks,
            end,
            pos,
            names,
        ) == Ok::<(TypeDef, int), SyntaxError>((TypeDef::USize, pos + 1)),
        (toks[pos] matches Token::Ident(s) && type_keyword_of(s@) == TypeKeyword::CStr && !punct_at(
            toks,
            end,
            pos + 1,
            ';',
        )) ==> parse_type(toks, end, pos, names) == Ok::<(TypeDef, int), SyntaxError>((TypeDef::CStr(None), pos + 1)),
        (toks[pos] matches Token::Ident(s) && type_keyword_of(s@) == TypeKeyword::Vec && punct_at(toks, end, pos + 1, '<')
            && ident_at(toks, end, pos + 2, seq!['u', '8']) && punct_at(toks, end, pos + 3, '>') && !punct_at(
            toks,
            end,
            pos + 4,
            ';',
        )) ==> parse_type(toks, end, pos, names) == Ok::<(TypeDef, int), SyntaxError>((TypeDef::Bytes(None), pos + 4)),
        (toks[pos] matches Token::Ident(s) && type_keyword_of(s@) == TypeKeyword::Vec && punct_at(toks, end, pos + 1, '<')
            && ident_at(toks, end, pos + 2, seq!['u', '8']) && punct_at(toks, end, pos + 3, '>') && punct_at(
            toks,
            end,
            pos + 4,
            ';',
        ) && or_expr(toks, end, pos + 5, names, false) == Ok::<(Expr, int), SyntaxError>((e, p))) ==> parse_type(
            toks,
            end,
            pos,
            names,
        ) == Ok::<(TypeDef, int), SyntaxError>((TypeDef::Bytes(Some(e)), p)),
        (toks[pos] matches Token::Ident(s) && type_keyword_of(s@) == TypeKeyword::Option && punct_at(
            toks,
            end,
            pos + 1,
            '<',
        ) && parse_type(toks, end, pos + 2, names) == Ok::<(TypeDef, int), SyntaxError>((t, p)) && punct_at(
            toks,
            end,
            p,
            '>',
        )) ==> parse_type(toks, end, pos, names) == Ok::<(TypeDef, int), SyntaxError>(
            (TypeDef::Optional(Box::new(t)), p + 1),
        ),
        (toks[pos] matches Token::Ident(s) && type_keyword_of(s@) == TypeKeyword::Box && punct_at(toks, end, pos + 1, '<')
            && parse_type(toks, end, pos + 2, names) == Ok::<(TypeDef, int), SyntaxError>((t, p)) && punct_at(
            toks,
            end,
            p,
            '>',
        )) ==> parse_type(toks, end, pos, names) == Ok::<(TypeDef, int), SyntaxError>(
            (TypeDef::Boxed(Box::new(t)), p + 1),
        ),
        (toks[pos] matches Token::Group(d, inner) && d == Delim::Bracket && inner@.len() == 3 && ident_at(
            inner@,
            3,
            0,
            seq!['u', '8'],
        ) && punct_at(inner@, 3, 1, ';') && inner@[2] is Lit && lit_i128(inner@[2]->Lit_0@) == Some(k) && 0 <= k
            <= 255) ==> parse_type(toks, end, pos, names) == Ok::<(TypeDef, int), SyntaxError>(
            (TypeDef::Array(k as u8), pos + 1),
        ),
{
}

/// An entry ends at the first `,` or `;` after it, or at the end of the
/// body: nothing before that position is a separator.
pub proof fn law_entries_end_at_separators(b: Seq<Token>, p: int)
    requires
        0 <= p <= b.len(),
    ensures
        p <= sep_from(b, p) <= b.len(),
        forall|i: int| p <= i < sep_from(b, p) ==> !punct_at(b, b.len() as int, i, ',') && !punct_at(
            b,
            b.len() as int,
            i,
            ';',
        ),
        sep_from(b, p) < b.len() ==> punct_at(b, b.len() as int, sep_from(b, p), ',') || punct_at(
            b,
            b.len() as int,
            sep_from(b, p),
            ';',
        ),
    decreases b.len() - p,
{
    if p < b.len() && !punct_at(b, b.len() as int, p, ',') && !punct_at(b, b.len() as int, p, ';') {
        law_entries_end_at_separators(b, p + 1);
    }
}

/// The value of an assignment ends at the first separator or `if` after
/// it, or at the end of the body.
pub proof fn law_values_end_at_separator_or_if(b: Seq<Token>, p: int)
    requires
        0 <= p <= b.len(),
    ensures
        p <= value_end(b, p) <= b.len(),
        forall|i: int| p <= i < value_end(b, p) ==> !punct_at(b, b.len() as int, i, ',') && !punct_at(
            b,
            b.len() as int,
            i,
            ';',
        ) && !ident_at(b, b.len() as int, i, seq!['i', 'f']),
        value_end(b, p) < b.len() ==> punct_at(b, b.len() as int, value_end(b, p), ',') || punct_at(
            b,
            b.len() as int,
            value_end(b, p),
            ';',
        ) || ident_at(b, b.len() as int, value_end(b, p), seq!['i', 'f']),
    decreases b.len() - p,
{
    if p < b.len() && !punct_at(b, b.len() as int, p, ',') && !punct_at(b, b.len() as int, p, ';') && !ident_at(
        b,
        b.len() as int,
        p,
        seq!['i', 'f'],
    ) {
        law_values_end_at_separator_or_if(b, p + 1);
    }
}

/// The block of an `if` is the first brace group after the condition.
pub proof fn law_blocks_are_first_brace_groups(b: Seq<Token>, p: int)
    requires
        0 <= p <= b.len(),
    ensures
        p <= brace_from(b, p) <= b.len(),
        forall|i: int| p <= i < brace_from(b, p) ==> !(#[trigger] b[i] matches Token::Group(d, _) && d == Delim::Brace),
        brace_from(b, p) < b.len() ==> (b[brace_from(b, p)] matches Token::Group(d, _) && d == Delim::Brace),
    decreases b.len() - p,
{
    if p < b.len() && !(b[p] matches Token::Group(d, _) && d == Delim::Brace) {
        law_blocks_are_first_brace_groups(b, p + 1);
    }
}

/// Attributes `#[..]` and a visibility `pub` or `pub(..)` before an entry
/// are passed over.
pub proof fn law_attributes_and_visibility(b: Seq<Token>, p: int)
    requires
        0 <= p,
    ensures
        punct_at(b, b.len() as int, p, '#') && crate::grammar::is_group_at(b, b.len() as int, p + 1, Delim::Bracket)
            ==> skip_attrs(b, p) == skip_attrs(b, p + 2),
        !punct_at(b, b.len() as int, p, '#') ==> skip_attrs(b, p) == p,
        ident_at(b, b.len() as int, p, seq!['p', 'u', 'b']) && crate::grammar::is_group_at(
            b,
            b.len() as int,
            p + 1,
            Delim::Paren,
        ) ==> skip_vis(b, p) == p + 2,
        ident_at(b, b.len() as int, p, seq!['p', 'u', 'b']) && !crate::grammar::is_group_at(
            b,
            b.len() as int,
            p + 1,
            Delim::Paren,
        ) ==> skip_vis(b, p) == p + 1,
        !ident_at(b, b.len() as int, p, seq!['p', 'u', 'b']) ==> skip_vis(b, p) == p,
{
}

/// The bytes of `vec![..]` are its literals in order, separated by commas.
pub proof fn law_byte_lists(c: Seq<Token>, pos: int)
    requires
        0 <= pos,
    ensures
        byte_list(c, pos) matches Some(bs) ==> {
            &&& forall|j: int|
                0 <= j < bs.len() ==> (#[trigger] c[pos + 2 * j]) is Lit && lit_i128(c[pos + 2 * j]->Lit_0@) == Some(
                    bs[j] as i128,
                )
            &&& forall|j: int| 0 <= j < bs.len() - 1 ==> #[trigger] punct_at(c, c.len() as int, pos + 2 * j + 1, ',')
        },
    decreases c.len() - pos,
{
    if pos < c.len() && c[pos] is Lit && byte_list(c, pos) is Some && pos + 1 < c.len() {
        law_byte_lists(c, pos + 2);
        let bs = byte_list(c, pos)->0;
        let r = byte_list(c, pos + 2)->0;
        assert(bs == seq![bs[0]] + r);
        assert forall|j: int| 1 <= j < bs.len() implies (#[trigger] c[pos + 2 * j]) is Lit && lit_i128(
            c[pos + 2 * j]->Lit_0@,
        ) == Some(bs[j] as i128) by {
            assert(bs[j] == r[j - 1]);
            assert(c[pos + 2 + 2 * (j - 1)] == c[pos + 2 * j]);
        }
        assert forall|j: int| 1 <= j < bs.len() - 1 implies #[trigger] punct_at(c, c.len() as int, pos + 2 * j + 1, ',')
            by {
            assert(punct_at(c, c.len() as int, pos + 2 + 2 * (j - 1) + 1, ','));
        }
    }
}

/// A variant is its name, the type it carries in parentheses after the
/// name when there is one, and then its rule.
pub proof fn law_variants(b: Seq<Token>, pos: int, t: TypeDef, r: RuleDef, q: int)
    requires
        0 <= pos,
        skip_attrs(b, pos) == pos,
        is_ident_at(b, b.len() as int, pos),
    ensures
        (crate::grammar::is_group_at(b, b.len() as int, pos + 1, Delim::Paren) && inner_type(b[pos + 1]->Group_1@)
            == Ok::<TypeDef, SyntaxError>(t) && rule_at(b, pos + 2) == Ok::<(RuleDef, int), SyntaxError>((r, q)))
            ==> variant_at(b, pos) == Ok::<(VariantDef, int), SyntaxError>(
            (VariantDef { name: pos as usize, inner: Some(t), rule: r }, q),
        ),
        (!crate::grammar::is_group_at(b, b.len() as int, pos + 1, Delim::Paren) && rule_at(b, pos + 1) == Ok::<
            (RuleDef, int),
            SyntaxError,
        >((r, q))) ==> variant_at(b, pos) == Ok::<(VariantDef, int), SyntaxError>(
            (VariantDef { name: pos as usize, inner: None, rule: r }, q),
        ),
{
}

} // verus!
